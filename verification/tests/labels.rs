use lawean_amend::article_num::ArticleNum;
use lawean_amend::labels::{
    container_label, container_num_label, fullwidth, item_title, loc_name, mark, replace_protected, strip_marks, strip_ws,
};
use lawean_amend::op::ContainerKind;
use lawean_amend::op::{Loc, ParaRef};
use lawean_amend::place::kanji_to_u32;

#[test]
fn a_place_is_named_in_compact_numbers() {
    let mut l = Loc::new(ArticleNum::parse("12_2"), Some(ParaRef::Num(3)));
    assert_eq!(loc_name(&l), "第12_2条第3項");
    l.suppl = true;
    l.item = Some("4".to_string());
    assert_eq!(loc_name(&l), "附則第12_2条第3項第4号");
    let l = Loc::new(ArticleNum::parse("5"), None);
    assert_eq!(loc_name(&l), "第5条");
}

#[test]
fn marks_go_around_added_wording_and_come_off() {
    assert_eq!(mark("乙"), "\u{E000}乙\u{E001}");
    assert_eq!(mark(""), "");
    assert_eq!(strip_marks("甲\u{E000}乙\u{E001}丙"), "甲乙丙");
    assert_eq!(strip_marks(&mark("丁")), "丁");
}

#[test]
fn a_numeral_is_not_cut_by_a_replacement() {
    assert_eq!(
        replace_protected("第五条の二及び第五条の二十二", "第五条の二", "X", &[]),
        ("X及び第五条の二十二".to_string(), 1)
    );
}

#[test]
fn wording_added_in_the_same_instruction_is_left_alone() {
    let t = format!("甲{}乙", mark("乙"));
    assert_eq!(replace_protected(&t, "乙", "丙", &[]), ("甲\u{E000}乙\u{E001}丙".to_string(), 1));
    let only_added = format!("甲{}", mark("乙"));
    assert_eq!(replace_protected(&only_added, "乙", "丙", &[]), ("甲\u{E000}丙\u{E001}".to_string(), 1));
}

#[test]
fn occurrences_are_replaced_from_the_left_without_overlap() {
    assert_eq!(replace_protected("aaaa", "aa", "b", &[]), ("bb".to_string(), 2));
    assert_eq!(replace_protected("abc", "", "x", &[]), ("abc".to_string(), 0));
    assert_eq!(replace_protected("abc", "z", "x", &[]), ("abc".to_string(), 0));
}

#[test]
fn a_numeral_past_u32_reads_as_the_largest() {
    let big: Vec<char> = "千".repeat(5_000_000).chars().collect();
    assert_eq!(kanji_to_u32(&big, 0, big.len()), u32::MAX);
    let c: Vec<char> = "四十二".chars().collect();
    assert_eq!(kanji_to_u32(&c, 0, c.len()), 42);
}

#[test]
fn divisions_are_labelled_with_kanji_numbers() {
    assert_eq!(container_num_label("2_2"), ("二".to_string(), "の二".to_string()));
    assert_eq!(container_num_label("x"), ("x".to_string(), String::new()));
    let path = vec![(ContainerKind::Chapter, "2_2".to_string()), (ContainerKind::Section, "3".to_string())];
    assert_eq!(container_label(&path), "第二章の二第三節");
    assert_eq!(item_title("3_2"), "三の二");
    assert_eq!(item_title("12"), "十二");
    assert_eq!(item_title(""), "");
}

#[test]
fn paragraph_numbers_are_full_width_and_white_space_is_dropped() {
    assert_eq!(fullwidth(2), "２");
    assert_eq!(fullwidth(105), "１０５");
    assert_eq!(strip_ws("甲 は\u{3000}乙\n"), "甲は乙");
}
