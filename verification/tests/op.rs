use lawean_amend::article_num::ArticleNum;
use lawean_amend::op::{AmendUnit, Instruction, Loc, Op, ParaRef, TableAction, TableRef};

fn n(s: &str) -> ArticleNum {
    ArticleNum::parse(s)
}

fn replace_at(art: &str, para: Option<u32>) -> Op {
    Op::Replace { at: Loc::new(n(art), para.map(ParaRef::Num)), from: "甲".into(), to: "乙".into() }
}

#[test]
fn operations_name_their_article_and_paragraph() {
    let op = replace_at("5", Some(2));
    assert_eq!(op.article(), Some(&n("5")));
    assert_eq!(op.paragraph(), Some(2));
    let toc = Op::ReplaceToc { from: "a".into(), to: "b".into() };
    assert_eq!(toc.article(), None);
    assert_eq!(toc.paragraph(), None);
    let arts = Op::ReplaceArticles { articles: vec![n("3"), n("4")], text: vec![] };
    assert_eq!(arts.article(), Some(&n("3")));
    let t = Op::TableEdit { table: TableRef::InArticle(Loc::new(n("7"), None)), path: String::new(), action: TableAction::Delete };
    assert_eq!(t.article(), Some(&n("7")));
}

#[test]
fn a_place_can_be_changed_in_place() {
    let mut op = replace_at("5", Some(2));
    if let Some(l) = op.loc_mut() {
        l.suppl = true;
    }
    assert!(matches!(&op, Op::Replace { at, .. } if at.suppl));
    let mut toc = Op::DeleteToc;
    assert!(toc.loc_mut().is_none());
}

#[test]
fn which_operations_take_content() {
    assert!(Op::AppendParagraph { article: n("3"), text: vec![] }.takes_content());
    assert!(Op::SetCaption { article: n("3"), text: String::new() }.takes_content());
    assert!(!Op::SetCaption { article: n("3"), text: "（見出し）".into() }.takes_content());
    assert!(Op::Suppl(Box::new(Op::ReplaceArticle { article: n("3"), text: vec![] })).takes_content());
    assert!(!Op::TableEdit { table: TableRef::Preamble, path: String::new(), action: TableAction::Delete }.takes_content());
    assert!(!replace_at("5", None).takes_content());
}

#[test]
fn content_lines_are_added() {
    let mut op = Op::AppendParagraph { article: n("3"), text: vec![] };
    op.push_content("２　本文".into());
    assert_eq!(op, Op::AppendParagraph { article: n("3"), text: vec!["２　本文".into()] });
    let mut cap = Op::SetCaption { article: n("3"), text: String::new() };
    cap.push_content("　（見出し） ".into());
    assert_eq!(cap, Op::SetCaption { article: n("3"), text: "（見出し）".into() });
    cap.push_content("次の行".into());
    assert_eq!(cap, Op::SetCaption { article: n("3"), text: "（見出し）".into() });
    let mut inner = Op::Suppl(Box::new(Op::ReplaceArticle { article: n("1"), text: vec![] }));
    inner.push_content("第一条　本文".into());
    assert_eq!(inner, Op::Suppl(Box::new(Op::ReplaceArticle { article: n("1"), text: vec!["第一条　本文".into()] })));
    let mut none = Op::DeleteToc;
    none.push_content("x".into());
    assert_eq!(none, Op::DeleteToc);
}

#[test]
fn operations_on_supplementary_provisions_are_wrapped() {
    let mut at = Loc::new(n("2"), Some(ParaRef::Num(1)));
    at.suppl = true;
    let op = Op::Delete { at }.in_suppl(false);
    assert_eq!(op, Op::Suppl(Box::new(Op::Delete { at: Loc::new(n("2"), Some(ParaRef::Num(1))) })));
    let mut at2 = Loc::new(n("2"), None);
    at2.suppl = true;
    let phrase = Op::Replace { at: at2, from: "a".into(), to: "b".into() }.in_suppl(false);
    assert!(matches!(phrase, Op::Replace { .. }));
    let para = Op::AppendParagraph { article: n("3"), text: vec![] }.in_suppl(true);
    assert_eq!(para, Op::Suppl(Box::new(Op::AppendParagraph { article: n("3"), text: vec![] })));
    assert_eq!(Op::DeleteToc.in_suppl(true), Op::DeleteToc);
    assert_eq!(Op::AppendParagraph { article: n("3"), text: vec![] }.in_suppl(false), Op::AppendParagraph { article: n("3"), text: vec![] });
}

fn ins(text: &str, ops: Vec<Op>) -> Instruction {
    Instruction { text: text.into(), ops }
}

#[test]
fn a_unit_splits_by_the_places_it_hits() {
    let unit = AmendUnit {
        article_of_amending_law: "第一条".into(),
        target_title: "X法".into(),
        instructions: vec![
            ins("a", vec![replace_at("5", Some(2))]),
            ins("b", vec![replace_at("6", None)]),
            ins("c", vec![Op::ReplaceToc { from: "x".into(), to: "y".into() }]),
        ],
    };
    let (hit, other) = unit.split_by_locs(&[Loc::new(n("5"), Some(ParaRef::Num(2)))]);
    assert_eq!(hit.instructions.iter().map(|i| i.text.as_str()).collect::<Vec<_>>(), vec!["a"]);
    assert_eq!(other.instructions.iter().map(|i| i.text.as_str()).collect::<Vec<_>>(), vec!["b", "c"]);
    assert_eq!(hit.target_title, "X法");
    assert_eq!(other.article_of_amending_law, "第一条");

    let unit2 = AmendUnit {
        article_of_amending_law: "第一条".into(),
        target_title: "X法".into(),
        instructions: vec![ins("a", vec![replace_at("5", Some(2))])],
    };
    let (hit2, other2) = unit2.split_by_locs(&[Loc::new(n("5"), Some(ParaRef::Num(3)))]);
    assert!(hit2.instructions.is_empty());
    assert_eq!(other2.instructions.len(), 1);
}
