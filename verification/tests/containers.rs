use lawean_amend::article_num::ArticleNum;
use lawean_amend::containers::{container_depth, container_path_with_ante, container_range, content_len, same_appdx};
use lawean_amend::locs::Ante;
use lawean_amend::op::ContainerKind::{Chapter, Section};
use lawean_amend::op::{ContainerKind, Loc, Op, TableRef};

fn path(p: &[(ContainerKind, &str)]) -> Vec<(ContainerKind, String)> {
    p.iter().map(|(k, n)| (*k, n.to_string())).collect()
}

#[test]
fn a_range_of_divisions_names_each() {
    assert_eq!(
        container_range("第三章第二節から第四節まで"),
        vec![path(&[(Chapter, "3"), (Section, "2")]), path(&[(Chapter, "3"), (Section, "3")]), path(&[(Chapter, "3"), (Section, "4")])]
    );
    assert_eq!(container_range("第二章の二から第三章まで"), vec![path(&[(Chapter, "2_2")]), path(&[(Chapter, "3")])]);
    assert_eq!(container_range("第五章"), vec![path(&[(Chapter, "5")])]);
    assert!(container_range("第五章から第三章まで").is_empty());
}

#[test]
fn a_division_named_alone_lies_in_the_one_named_before() {
    let mut a = Ante::empty();
    assert_eq!(container_path_with_ante("第一章", "第八節", &mut a), path(&[(Chapter, "1"), (Section, "8")]));
    assert_eq!(a.container, path(&[(Chapter, "1")]));
    assert_eq!(container_path_with_ante("", "第六節", &mut a), path(&[(Chapter, "1"), (Section, "6")]));
    assert_eq!(container_path_with_ante("", "第二章", &mut a), path(&[(Chapter, "2")]));
}

#[test]
fn the_same_table_and_the_lines_an_operation_takes() {
    let mut a = Ante::empty();
    assert_eq!(same_appdx(&a), None);
    a.tedit = Some((TableRef::Appdx("別表第二".to_string()), String::new()));
    assert_eq!(same_appdx(&a), Some("別表第二".to_string()));
    a.appdx = Some(("別表第一".to_string(), "一の項".to_string()));
    assert_eq!(same_appdx(&a), Some("別表第一".to_string()));
    let op = Op::AppendParagraph { article: ArticleNum::parse("5"), text: vec!["２　甲".to_string(), "一　乙".to_string()] };
    assert_eq!(content_len(&op), Some(2));
    assert_eq!(content_len(&Op::Delete { at: Loc::new(ArticleNum::parse("5"), None) }), None);
}

#[test]
fn divisions_nest_by_kind() {
    assert_eq!(container_depth(ContainerKind::Part), 0);
    assert_eq!(container_depth(Section), 2);
    assert_eq!(container_depth(ContainerKind::Division), 4);
}
