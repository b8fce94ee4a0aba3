use lawean_amend::article_num::ArticleNum;
use lawean_amend::locs::{expand_locs, item_string, loc, parse_scope_locs, Ante};
use lawean_amend::op::{Loc, ParaRef, SentencePart};
use lawean_amend::parse::ParseError;
use lawean_amend::place::kanji_to_u32;

fn n(s: &str) -> ArticleNum {
    ArticleNum::parse(s)
}

fn at(art: &str, para: Option<u32>) -> Loc {
    Loc::new(n(art), para.map(ParaRef::Num))
}

fn with_item(art: &str, para: Option<u32>, item: &str) -> Loc {
    let mut l = at(art, para);
    l.item = Some(item.to_string());
    l
}

#[test]
fn kanji_numerals_with_hundreds_and_thousands() {
    let v = |s: &str| {
        let c: Vec<char> = s.chars().collect();
        kanji_to_u32(&c, 0, c.len())
    };
    assert_eq!(v("百二十三"), 123);
    assert_eq!(v("千"), 1000);
    assert_eq!(v("二千十"), 2010);
    assert_eq!(v("十一"), 11);
    assert_eq!(v("三百"), 300);
}

#[test]
fn items_are_written_in_decimal_joined_by_underscores() {
    assert_eq!(item_string(&vec![5, 2]), "5_2");
    assert_eq!(item_string(&vec![12]), "12");
}

#[test]
fn a_full_place_is_read_part_by_part() {
    let mut a = Ante::empty();
    let l = loc("第三条の二第一項第五号ロただし書中", &mut a).unwrap();
    let mut want = with_item("3_2", Some(1), "5");
    want.sub = Some("ロ".to_string());
    want.part = Some(SentencePart::Proviso);
    assert_eq!(l, want);
}

#[test]
fn same_article_and_paragraph_refer_back() {
    let mut a = Ante::empty();
    assert_eq!(loc("第四十三条第二項", &mut a).unwrap(), at("43", Some(2)));
    assert_eq!(loc("同条第四項", &mut a).unwrap(), at("43", Some(4)));
    assert_eq!(loc("同項第三号", &mut a).unwrap(), with_item("43", Some(4), "3"));
    let l = loc("同号イ", &mut a).unwrap();
    let mut want = with_item("43", Some(4), "3");
    want.sub = Some("イ".to_string());
    assert_eq!(l, want);
}

#[test]
fn same_paragraph_after_an_article_alone_is_the_first() {
    let mut a = Ante::empty();
    loc("第百三十五条", &mut a).unwrap();
    assert_eq!(loc("同項", &mut a).unwrap(), at("135", Some(1)));
}

#[test]
fn supplementary_and_article_less_places() {
    let mut a = Ante::empty();
    let l = loc("附則第七条第六項", &mut a).unwrap();
    let mut want = at("7", Some(6));
    want.suppl = true;
    assert_eq!(l, want);
    let mut b = Ante::empty();
    let l = loc("附則第三項", &mut b).unwrap();
    let mut want = at("0", Some(3));
    want.suppl = true;
    assert_eq!(l, want);
    let mut c = Ante::empty();
    assert_eq!(loc("本則", &mut c).unwrap(), at("0", None));
    let mut d = Ante::empty();
    assert_eq!(loc("本則第二項", &mut d).unwrap(), at("0", Some(2)));
    let mut e = Ante::empty();
    let l = loc("本則ただし書", &mut e).unwrap();
    let mut want = at("0", None);
    want.part = Some(SentencePart::Proviso);
    assert_eq!(l, want);
}

#[test]
fn a_place_within_a_chapter_or_a_place() {
    let mut a = Ante::empty();
    assert_eq!(loc("第五章中第三十五条", &mut a).unwrap(), at("35", None));
    let mut b = Ante::empty();
    assert_eq!(loc("第十四条第三項中第五号", &mut b).unwrap(), with_item("14", Some(3), "5"));
    let mut c = Ante::empty();
    assert_eq!(loc("第四十八条の表以外の部分", &mut c).unwrap(), at("48", None));
}

#[test]
fn a_bare_label_continues_the_sub_item_before() {
    let mut a = Ante::empty();
    loc("第二条第一号ロ(2)", &mut a).unwrap();
    let l = loc("(3)", &mut a).unwrap();
    assert_eq!(l.sub, Some("ロ(3)".to_string()));
}

#[test]
fn errors_name_the_text() {
    let mut a = Ante::empty();
    assert_eq!(loc("同項", &mut a), Err(ParseError::NoAntecedent("同項".to_string())));
    let mut b = Ante::empty();
    assert_eq!(loc("別表第一", &mut b), Err(ParseError::Unrecognized("別表第一".to_string())));
}

#[test]
fn lists_and_ranges_of_places() {
    let mut a = Ante::empty();
    let ls = expand_locs("第七条第一項及び第二項並びに第八条", &mut a).unwrap();
    assert_eq!(ls, vec![at("7", Some(1)), at("7", Some(2)), at("8", None)]);
    let mut b = Ante::empty();
    let ls = expand_locs("第三十一条から第三十三条までの規定及び第三十六条", &mut b).unwrap();
    let range = ArticleNum::Range { from: Box::new(n("31")), to: Box::new(n("33")) };
    assert_eq!(ls, vec![Loc::new(range, None), at("36", None)]);
    let mut c = Ante::empty();
    let ls = expand_locs("第五条第一項から第三項まで", &mut c).unwrap();
    assert_eq!(ls, vec![at("5", Some(1)), at("5", Some(2)), at("5", Some(3))]);
}

#[test]
fn ranges_of_items_and_sub_items() {
    let mut a = Ante::empty();
    let ls = expand_locs("第二条第一項第十六号から第十九号の二まで", &mut a).unwrap();
    let items: Vec<Option<String>> = ls.iter().map(|l| l.item.clone()).collect();
    let want: Vec<Option<String>> =
        ["16", "17", "18", "19", "19_2"].iter().map(|s| Some(s.to_string())).collect();
    assert_eq!(items, want);
    let mut b = Ante::empty();
    let ls = expand_locs("第二条第一項第三号の二から第五号まで", &mut b).unwrap();
    let items: Vec<Option<String>> = ls.iter().map(|l| l.item.clone()).collect();
    let want: Vec<Option<String>> =
        ["3_2", "4", "5"].iter().map(|s| Some(s.to_string())).collect();
    assert_eq!(items, want);
    let mut c = Ante::empty();
    loc("第九条第二号", &mut c).unwrap();
    let ls = expand_locs("同号イからハまで", &mut c).unwrap();
    let subs: Vec<Option<String>> = ls.iter().map(|l| l.sub.clone()).collect();
    let want: Vec<Option<String>> = ["イ", "ロ", "ハ"].iter().map(|s| Some(s.to_string())).collect();
    assert_eq!(subs, want);
}

#[test]
fn a_range_between_unlike_places_is_refused() {
    let mut a = Ante::empty();
    assert_eq!(
        expand_locs("第二条第一項から第三条まで", &mut a),
        Err(ParseError::Unrecognized("第二条第一項から第三条まで".to_string()))
    );
}

#[test]
fn amending_provisions_name_their_places() {
    let ls = parse_scope_locs("医師法第十六条の十一第一項の改正規定及び同法第十七条の改正規定").unwrap();
    assert_eq!(ls, vec![at("16_11", Some(1)), at("17", None)]);
    let ls = parse_scope_locs("第九条に一項を加える改正規定、附則第三条の改正規定").unwrap();
    let mut suppl = at("3", None);
    suppl.suppl = true;
    assert_eq!(ls, vec![at("9", None), suppl]);
    let ls = parse_scope_locs("第二十四条の四の七及び第二十四条の四の八を削る改正規定").unwrap();
    assert_eq!(ls, vec![at("24_4_8", None)]);
    let ls = parse_scope_locs("公布の日").unwrap();
    assert_eq!(ls, vec![]);
}
