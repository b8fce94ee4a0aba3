use lawean_amend::article_num::{article_label, check_art_strings, check_sequence, label, succeeds, ArticleNum};

fn n(s: &str) -> ArticleNum {
    ArticleNum::parse(s)
}

#[test]
fn branch_rules() {
    assert!(succeeds(&n("1"), &n("2")));
    assert!(succeeds(&n("2"), &n("2_2")));
    assert!(succeeds(&n("2_2"), &n("2_3")));
    assert!(succeeds(&n("2_3"), &n("2_3_2")));
    assert!(succeeds(&n("2_3_2"), &n("2_3_3")));
    assert!(succeeds(&n("2_3_4"), &n("2_4")));
    assert!(succeeds(&n("2_3_4"), &n("3")));
    assert!(succeeds(&n("2_9"), &n("3")));
    assert!(succeeds(&n("153:160"), &n("161")));
    assert!(succeeds(&n("152"), &n("153:160")));
    // breaks
    assert!(!succeeds(&n("1"), &n("3")));
    assert!(!succeeds(&n("2"), &n("2_3")), "枝番は「の二」から");
    assert!(!succeeds(&n("2_2"), &n("2_2_3")));
    assert!(!succeeds(&n("2_3_4"), &n("2_5")));
    assert!(!succeeds(&n("2_3_4"), &n("4")));
    assert!(!succeeds(&n("3"), &n("2")));
    assert!(!succeeds(&n("2_2"), &n("2")));
}

#[test]
fn sequence_report() {
    let issues = check_sequence(&[n("1"), n("2"), n("2_2"), n("4"), n("4_2_2")]);
    assert_eq!(issues.len(), 2);
    assert_eq!(issues[0].message, "第二条の二の次が第四条（連番でない）");
    assert_eq!(issues[1].message, "第四条の次が第四条の二の二（連番でない）");
    assert!(check_sequence(&[n("2")]).iter().any(|i| i.message.contains("第一条でない")));
}

#[test]
fn the_next_numbers_follow_at_every_level() {
    // after 第二条の三の四: 第三条, 第二条の三の四の二, 第二条の四, 第二条の三の五
    for next in ["3", "2_3_4_2", "2_4", "2_3_5"] {
        assert!(succeeds(&n("2_3_4"), &n(next)), "{next}");
    }
}

#[test]
fn no_number_follows_itself() {
    for s in ["1", "2_2", "7_3_2"] {
        assert!(!succeeds(&n(s), &n(s)), "{s}");
    }
}

#[test]
fn numbers_of_another_form_are_not_judged() {
    assert!(succeeds(&n("1"), &n("附則")));
    assert!(succeeds(&n("附則"), &n("5")));
}

#[test]
fn labels_are_written_in_kanji() {
    assert_eq!(label(&n("12_2")), "第十二条の二");
    assert_eq!(label(&n("3:5")), "第三条から第五条まで");
    assert_eq!(label(&n("142_4")), "第百四十二条の四");
}

#[test]
fn parse_reads_branches_and_ranges() {
    match n("12_2") {
        ArticleNum::Single { base, branch } => {
            assert_eq!(base, 12);
            assert_eq!(branch, vec![2]);
        }
        other => panic!("{other:?}"),
    }
    match n("153:160") {
        ArticleNum::Range { from, to } => {
            assert_eq!(*from, ArticleNum::Single { base: 153, branch: vec![] });
            assert_eq!(*to, ArticleNum::Single { base: 160, branch: vec![] });
        }
        other => panic!("{other:?}"),
    }
    assert_eq!(n("toc"), ArticleNum::Other("toc".to_string()));
}

#[test]
fn num_strings_read_back_to_the_same_number() {
    for s in ["1", "12_2", "2_3_4", "153:160"] {
        let a = n(s);
        assert_eq!(a.to_num_string(), s);
        assert_eq!(ArticleNum::parse(&a.to_num_string()), a);
    }
}

#[test]
fn art_strings_skip_repeats_and_the_toc() {
    let issues = check_art_strings(&["toc", "1", "1", "2", "main", "2", "4"]);
    assert_eq!(issues.len(), 1);
    assert_eq!(issues[0].prev, "第二条");
    assert_eq!(issues[0].next, "第四条");
    assert!(check_art_strings(&["1", "2", "2_2", "3"]).is_empty());
}

#[test]
fn article_label_writes_the_article() {
    assert_eq!(article_label(&n("5_2")), label(&n("5_2")));
}
