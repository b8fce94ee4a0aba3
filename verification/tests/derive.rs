use lawean_amend::derive::derive_unit;
use lawean_amend::ident::{apply_unit, IdentOp, IdentRevision, Node};

fn rev(ns: &[(&str, &str, &str)]) -> IdentRevision {
    IdentRevision {
        nodes: ns
            .iter()
            .map(|(i, a, t)| Node { id: i.to_string(), art: a.to_string(), text: t.to_string(), conflicts: vec![] })
            .collect(),
    }
}

fn draft() -> IdentRevision {
    rev(&[("toc", "toc", "目次"), ("p1", "1", "甲は乙とする。"), ("p2", "1", "丙は丁とする。"), ("p3", "2", "戊")])
}

fn enforced() -> IdentRevision {
    rev(&[
        ("e0", "toc", "目次"),
        ("e1", "1", "甲は乙とする。"),
        ("e2", "1", "丙は丁とする。ただし書"),
        ("e3", "1", "新しい項"),
        ("e4", "3", "戊"),
    ])
}

#[test]
fn derived_operations_replace_insert_and_renumber() {
    let ops = derive_unit(&draft(), &enforced(), "A");
    assert_eq!(
        ops,
        vec![
            IdentOp::Replace { id: "p2".into(), expected: "丙は丁とする。".into(), new: "丙は丁とする。ただし書".into() },
            IdentOp::InsertAfter { anchor: "p2".into(), new_id: "A/art:1/new:1".into(), art: "1".into(), text: "新しい項".into() },
            IdentOp::Renumber { id: "p3".into(), art: "3".into() },
        ]
    );
}

#[test]
fn derived_unit_reproduces_the_enforced_revision() {
    let ops = derive_unit(&draft(), &enforced(), "A");
    let got = apply_unit(&draft(), &ops).unwrap();
    assert_eq!(got.render(), enforced().render());
}

#[test]
fn unpaired_drafted_paragraphs_are_deleted() {
    let d = rev(&[("t", "toc", "目次"), ("p1", "1", "甲"), ("p2", "1", "まったく別の文章である。")]);
    let e = rev(&[("t", "toc", "目次"), ("q1", "1", "甲")]);
    let ops = derive_unit(&d, &e, "A");
    assert_eq!(ops, vec![IdentOp::Delete { id: "p2".into() }]);
    assert_eq!(apply_unit(&d, &ops).unwrap().render(), e.render());
}

#[test]
fn dissimilar_texts_are_not_paired() {
    let d = rev(&[("t", "toc", "目次"), ("p1", "1", "あいうえお")]);
    let e = rev(&[("t", "toc", "目次"), ("q1", "1", "かきくけこ")]);
    let ops = derive_unit(&d, &e, "X");
    assert_eq!(
        ops,
        vec![
            IdentOp::InsertAfter { anchor: "t".into(), new_id: "X/art:1/new:1".into(), art: "1".into(), text: "かきくけこ".into() },
            IdentOp::Delete { id: "p1".into() },
        ]
    );
}
