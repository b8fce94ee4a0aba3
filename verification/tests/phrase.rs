use lawean_amend::article_num::ArticleNum;
use lawean_amend::locs::Ante;
use lawean_amend::op::{Loc, Op, ParaRef, TableRef};
use lawean_amend::parse::ParseError;
use lawean_amend::phrase::{parse_phrase_list_loose, parse_phrase_op_loose, phrase_tail};
use lawean_amend::phrase_op::parse_phrase_op;
use lawean_amend::table::split_table_target;

fn at(art: &str, para: Option<u32>) -> Loc {
    Loc::new(ArticleNum::parse(art), para.map(ParaRef::Num))
}

fn s(x: &str) -> String {
    x.to_string()
}

fn replace(l: Loc, from: &str, to: &str) -> Op {
    Op::Replace { at: l, from: s(from), to: s(to) }
}

#[test]
fn phrase_replaced_at_an_article() {
    let mut a = Ante::empty();
    let r = parse_phrase_op("第七条中「甲」を「乙」に改め", &mut a);
    assert_eq!(r, Ok(Some(vec![replace(at("7", None), "甲", "乙")])));
    // the place is left for a continuation without one
    let r = parse_phrase_op("「丙」を「丁」に改める", &mut a);
    assert_eq!(r, Ok(Some(vec![replace(at("7", None), "丙", "丁")])));
}

#[test]
fn listed_phrases_deleted_at_a_paragraph() {
    let mut a = Ante::empty();
    let r = parse_phrase_op("第二条第一項中「甲」、「乙」及び「丙」を削る", &mut a);
    let l = || at("2", Some(1));
    assert_eq!(
        r,
        Ok(Some(vec![replace(l(), "甲", ""), replace(l(), "乙", ""), replace(l(), "丙", "")]))
    );
}

#[test]
fn phrase_added_after_and_before() {
    let mut a = Ante::empty();
    let r = parse_phrase_op("第三条中「甲」の下に「乙」を加え", &mut a);
    assert_eq!(
        r,
        Ok(Some(vec![Op::InsertAfterPhrase { at: at("3", None), anchor: s("甲"), text: s("乙") }]))
    );
    let r = parse_phrase_op("第三条中「甲」の上に「乙」を加える", &mut a);
    assert_eq!(r, Ok(Some(vec![replace(at("3", None), "甲", "乙甲")])));
}

#[test]
fn phrase_in_the_table_of_contents_and_the_main_provisions() {
    let mut a = Ante::empty();
    let r = parse_phrase_op("目次中「第一章　総則」を「第一章　通則」に改め", &mut a);
    assert_eq!(r, Ok(Some(vec![Op::ReplaceToc { from: s("第一章　総則"), to: s("第一章　通則") }])));
    // continued in the table of contents
    let r = parse_phrase_op("「第二章」を削る", &mut a);
    assert_eq!(r, Ok(Some(vec![Op::ReplaceToc { from: s("第二章"), to: s("") }])));
    let mut b = Ante::empty();
    let r = parse_phrase_op("本則中「勅令」を「政令」に改める", &mut b);
    assert_eq!(r, Ok(Some(vec![Op::ReplaceAll { from: s("勅令"), to: s("政令") }])));
}

#[test]
fn phrase_in_a_row_of_an_appended_table() {
    let mut a = Ante::empty();
    let r = parse_phrase_op("別表第一一の項中「甲」を「乙」に改める", &mut a);
    assert_eq!(
        r,
        Ok(Some(vec![Op::ReplaceAppdxRow {
            table: s("別表第一"),
            row: s("一"),
            sub: None,
            from: s("甲"),
            to: s("乙"),
        }]))
    );
    assert_eq!(a.appdx, Some((s("別表第一"), s("一"))));
    assert_eq!(a.article, None);
}

#[test]
fn phrase_in_the_title_and_an_article() {
    let mut a = Ante::empty();
    let r = parse_phrase_op("題名及び第一条中「甲」を「乙」に改める", &mut a);
    assert_eq!(
        r,
        Ok(Some(vec![
            Op::ReplaceTitle { from: s("甲"), to: s("乙") },
            replace(at("1", None), "甲", "乙"),
        ]))
    );
}

#[test]
fn phrase_in_a_caption_and_a_paragraph() {
    let mut a = Ante::empty();
    let r = parse_phrase_op("第四十条の見出し及び第一項中「委員長」を「会長」に改め", &mut a);
    assert_eq!(
        r,
        Ok(Some(vec![
            Op::ReplaceCaption { article: ArticleNum::parse("40"), from: s("委員長"), to: s("会長") },
            replace(at("40", Some(1)), "委員長", "会長"),
        ]))
    );
}

#[test]
fn phrase_without_a_place_before() {
    let mut a = Ante::empty();
    let r = parse_phrase_op("同条中「甲」を「乙」に改める", &mut a);
    assert_eq!(r, Err(ParseError::NoAntecedent(s("同条"))));
    // not a phrase instruction
    let r = parse_phrase_op("第八条を削る", &mut a);
    assert_eq!(r, Ok(None));
}

#[test]
fn tail_of_a_phrase_instruction() {
    let ps = vec![s("甲"), s("乙")];
    assert_eq!(
        phrase_tail("を「丙」に改め", &ps),
        Some(vec![(s("甲"), s("丙")), (s("乙"), s("丙"))])
    );
    assert_eq!(phrase_tail("の下に「丙」を加える", &ps), Some(vec![(s("甲"), s("甲丙")), (s("乙"), s("乙丙"))]));
    assert_eq!(phrase_tail("を削り", &ps), Some(vec![(s("甲"), s("")), (s("乙"), s(""))]));
    assert_eq!(phrase_tail("を次のように改める", &ps), None);
}

#[test]
fn unbalanced_phrases_split_at_the_first_boundary() {
    let mut a = Ante::empty();
    a.article = Some(ArticleNum::parse("5"));
    let r = parse_phrase_op_loose("「規約」を「同条第六項ただし書中「規約」に", &mut a);
    assert_eq!(r, Ok(Some(vec![replace(at("5", None), "規約", "同条第六項ただし書中「規約")])));
    let mut b = Ante::empty();
    let r = parse_phrase_list_loose("第五条中「A」を「B」に、「C」を「D」に改め", &mut b);
    assert_eq!(r, Some(vec![replace(at("5", None), "A", "B"), replace(at("5", None), "C", "D")]));
}

#[test]
fn table_named_and_position_within_it() {
    let mut a = Ante::empty();
    assert_eq!(
        split_table_target("別表第二表名称の欄", &mut a),
        Ok(Some((TableRef::Appdx(s("別表第二表")), s("名称の欄"))))
    );
    assert_eq!(
        split_table_target("第十三条第一項の表中A及びBの項", &mut a),
        Ok(Some((TableRef::InArticle(at("13", Some(1))), s("A及びBの項"))))
    );
    let mut b = Ante::empty();
    b.tedit = Some((TableRef::Appdx(s("別表第一")), s("")));
    assert_eq!(
        split_table_target("同表中第十二号", &mut b),
        Ok(Some((TableRef::Appdx(s("別表第一")), s("第十二号"))))
    );
    let mut c = Ante::empty();
    assert_eq!(split_table_target("同表中第十二号", &mut c), Err(ParseError::NoAntecedent(s("同表中第十二号"))));
    assert_eq!(split_table_target("第五条", &mut c), Ok(None));
}
