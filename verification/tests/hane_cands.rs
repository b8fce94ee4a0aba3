use lawean_amend::article_num::ArticleNum;
use lawean_amend::body::RefForm;
use lawean_amend::hane_cands::{hane_candidates, moved_articles, replacements_of, HaneCandidate, ResolvedRef};
use lawean_amend::op::{AmendUnit, Instruction, Loc, Op, ParaRef};

fn at(art: &str, para: u32) -> Loc {
    Loc::new(ArticleNum::parse(art), Some(ParaRef::Num(para)))
}

fn unit(ops: Vec<Op>) -> AmendUnit {
    AmendUnit {
        article_of_amending_law: "第一条".to_string(),
        target_title: "何々法".to_string(),
        instructions: vec![Instruction { text: "…".to_string(), ops }],
    }
}

fn reference(sentence: &str, text: &str, form: Option<RefForm>, target: &str) -> ResolvedRef {
    ResolvedRef {
        sentence: sentence.to_string(),
        text: text.to_string(),
        form,
        targets: vec![target.to_string()],
    }
}

/// Article 5 gets a new second paragraph: 1 → 1, 2 → 3, 3 → 4.
fn mappings() -> Vec<(String, Vec<(u32, u32)>)> {
    vec![("5".to_string(), vec![(1, 1), (2, 3), (3, 4)])]
}

#[test]
fn moved_references_get_fixes_and_the_instruction_is_checked() {
    let u = unit(vec![
        Op::InsertParagraphAfter { article: ArticleNum::parse("5"), after: ParaRef::Num(1), text: vec![] },
        Op::Replace { at: at("5", 3), from: "第二項".to_string(), to: "第三項".to_string() },
    ]);
    let refs = vec![
        reference("law/art:5/para:3/sent:1", "第二項", Some(RefForm::Absolute), "law/art:5/para:2"),
        reference("law/art:5/para:3/sent:1", "第二項", Some(RefForm::Absolute), "law/art:5/para:2"),
        reference("law/art:5/para:2/sent:1", "前項", Some(RefForm::Prev(1)), "law/art:5/para:1"),
        reference("law/art:5/para:3/sent:2", "前項", Some(RefForm::Prev(1)), "law/art:5/para:2"),
        reference("law/art:5/para:3/sent:1", "同項", None, "law/art:5/para:2"),
        reference("law/art:6/para:1/sent:1", "第五条第一項", Some(RefForm::AbsoluteArt), "law/art:5/para:1"),
    ];
    let got = hane_candidates(&u, &mappings(), &refs);
    let want = vec![
        HaneCandidate {
            sentence: "law/art:5/para:3/sent:1".to_string(),
            text: "第二項".to_string(),
            target: "law/art:5/para:2".to_string(),
            new_target_paragraph: Some(3),
            fix: Some("第三項".to_string()),
            fix_op: Some(Op::Replace { at: at("5", 3), from: "第二項".to_string(), to: "第三項".to_string() }),
            handled: true,
            found_to: Some("第三項".to_string()),
        },
        HaneCandidate {
            sentence: "law/art:5/para:2/sent:1".to_string(),
            text: "前項".to_string(),
            target: "law/art:5/para:1".to_string(),
            new_target_paragraph: Some(1),
            fix: Some("第一項".to_string()),
            fix_op: Some(Op::Replace { at: at("5", 2), from: "前項".to_string(), to: "第一項".to_string() }),
            handled: false,
            found_to: None,
        },
    ];
    assert_eq!(got, want);
}

#[test]
fn nothing_moves_without_a_changed_number() {
    let u = unit(vec![]);
    let refs = vec![reference("law/art:5/para:3/sent:1", "第二項", Some(RefForm::Absolute), "law/art:5/para:2")];
    let same = vec![("5".to_string(), vec![(1, 1), (2, 2)])];
    assert!(hane_candidates(&u, &same, &refs).is_empty());
}

#[test]
fn the_unit_names_its_moving_articles_and_replacements() {
    let u = unit(vec![
        Op::InsertParagraphAfter { article: ArticleNum::parse("5"), after: ParaRef::Num(1), text: vec![] },
        Op::Delete { at: at("7", 2) },
        Op::Delete { at: Loc::new(ArticleNum::parse("8"), None) },
        Op::ShiftParagraphs { article: ArticleNum::parse("5"), from: 2, to: 3, by: 1 },
        Op::Replace { at: at("5", 3), from: "甲".to_string(), to: "乙".to_string() },
    ]);
    assert_eq!(moved_articles(&u), vec![ArticleNum::parse("5"), ArticleNum::parse("7")]);
    let reps = replacements_of(&u);
    assert_eq!(reps.len(), 1);
    assert_eq!(reps[0].1, "甲");
    assert_eq!(reps[0].2, "乙");
}
