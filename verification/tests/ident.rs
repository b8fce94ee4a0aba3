use lawean_amend::ident::{
    apply_op, apply_unit, creates, depends_on, id_map, independent_units, modified_egov_ids, schedule_ok,
    touched_egov_ids, touches, IdentOp, IdentRevision, Node,
};

fn node(id: &str, art: &str, text: &str) -> Node {
    Node { id: id.into(), art: art.into(), text: text.into(), conflicts: vec![] }
}

fn rev(ns: &[(&str, &str, &str)]) -> IdentRevision {
    IdentRevision { nodes: ns.iter().map(|(i, a, t)| node(i, a, t)).collect() }
}

fn replace(id: &str, expected: &str, new: &str) -> IdentOp {
    IdentOp::Replace { id: id.into(), expected: expected.into(), new: new.into() }
}

fn insert(anchor: &str, new_id: &str, art: &str, text: &str) -> IdentOp {
    IdentOp::InsertAfter { anchor: anchor.into(), new_id: new_id.into(), art: art.into(), text: text.into() }
}

fn base() -> IdentRevision {
    rev(&[("p1", "1", "甲"), ("p2", "1", "乙"), ("p3", "2", "丙")])
}

#[test]
fn replace_rewrites_the_expected_text() {
    let r = apply_op(&base(), &replace("p2", "乙", "丁")).unwrap();
    assert_eq!(r.nodes[1].text, "丁");
    assert!(!r.has_conflict());
}

#[test]
fn replace_of_another_text_records_a_conflict() {
    let r = apply_op(&base(), &replace("p2", "戊", "丁")).unwrap();
    assert_eq!(r.nodes[1].text, "乙");
    assert_eq!(r.nodes[1].conflicts, vec!["丁".to_string()]);
    assert!(r.has_conflict());
    let c = r.conflicts();
    assert_eq!(c.len(), 1);
    assert_eq!((c[0].0, c[0].1), ("p2", "乙"));
    let r2 = apply_op(&r, &IdentOp::Resolve { id: "p2".into(), text: "丁".into() }).unwrap();
    assert!(!r2.has_conflict());
    assert_eq!(r2.nodes[1].text, "丁");
}

#[test]
fn an_operation_on_a_missing_id_fails() {
    assert!(apply_op(&base(), &IdentOp::Delete { id: "p9".into() }).is_none());
    assert!(apply_unit(&base(), &[IdentOp::Delete { id: "p1".into() }, IdentOp::Delete { id: "p1".into() }]).is_none());
}

#[test]
fn insert_delete_and_renumber() {
    let r = apply_unit(
        &base(),
        &[
            insert("p1", "n1", "1", "新"),
            IdentOp::Delete { id: "p2".into() },
            IdentOp::Renumber { id: "p3".into(), art: "3".into() },
        ],
    )
    .unwrap();
    assert_eq!(
        r.render(),
        vec![
            ("1".to_string(), "甲".to_string()),
            ("1".to_string(), "新".to_string()),
            ("3".to_string(), "丙".to_string()),
        ]
    );
    assert_eq!(r.para_num("n1"), Some(2));
    assert_eq!(r.para_num("p3"), Some(1));
    assert_eq!(r.para_num("p2"), None);
    assert!(r.wf());
}

#[test]
fn duplicate_ids_are_not_well_formed() {
    assert!(base().wf());
    assert!(!rev(&[("a", "1", "x"), ("a", "1", "y")]).wf());
}

#[test]
fn a_unit_is_its_operations_in_turn() {
    let u = [replace("p1", "甲", "甲2")];
    let v = [insert("p3", "n", "2", "丁")];
    let uv: Vec<IdentOp> = u.iter().chain(v.iter()).cloned().collect();
    let step = apply_unit(&apply_unit(&base(), &u).unwrap(), &v);
    assert_eq!(apply_unit(&base(), &uv), step);
}

#[test]
fn independent_units_commute() {
    let u = [replace("p1", "甲", "甲2")];
    let v = [IdentOp::Delete { id: "p3".into() }];
    assert!(independent_units(&u, &v));
    let uv = apply_unit(&apply_unit(&base(), &u).unwrap(), &v);
    let vu = apply_unit(&apply_unit(&base(), &v).unwrap(), &u);
    assert_eq!(uv, vu);
    assert!(!independent_units(&u, &[insert("p1", "n", "1", "x")]));
}

#[test]
fn an_operation_leaves_other_ids_alone() {
    let r = apply_op(&base(), &replace("p1", "甲", "甲2")).unwrap();
    assert_eq!(r.nodes[1], base().nodes[1]);
    assert_eq!(r.nodes[2], base().nodes[2]);
}

#[test]
fn touches_modifies_and_creates() {
    let op = insert("p1", "n1", "1", "x");
    assert_eq!(op.touches(), vec!["p1", "n1"]);
    assert_eq!(op.modifies(), vec!["n1"]);
    assert_eq!(op.creates(), vec!["n1"]);
    assert_eq!(op.key(), "p1");
    let d = IdentOp::Delete { id: "p2".into() };
    assert_eq!(d.touches(), vec!["p2"]);
    assert!(d.creates().is_empty());
    let u = [op.clone(), d.clone()];
    assert_eq!(touches(&u), vec!["p1", "n1", "p2"]);
    assert_eq!(creates(&u), vec!["n1"]);
}

#[test]
fn a_schedule_respects_dependencies() {
    let a = [insert("p1", "n1", "1", "x")];
    let b = [replace("n1", "x", "y")];
    assert!(depends_on(&b, &a));
    assert!(!depends_on(&a, &b));
    assert!(schedule_ok(&[&a[..], &b[..]]));
    assert!(!schedule_ok(&[&b[..], &a[..]]));
}

#[test]
fn ids_are_mapped_to_the_official_revision() {
    let ops = [insert("p1", "n1", "1", "新"), IdentOp::Delete { id: "p3".into() }];
    let egov = rev(&[("e1", "1", "甲"), ("e2", "1", "新"), ("e3", "1", "乙")]);
    let m = id_map(&base(), &ops, &egov).unwrap();
    assert_eq!(
        m,
        vec![
            ("p1".to_string(), "e1".to_string()),
            ("n1".to_string(), "e2".to_string()),
            ("p2".to_string(), "e3".to_string()),
        ]
    );
    // deleted ids keep their base id; the anchor is touched but not modified
    assert_eq!(touched_egov_ids(&base(), &ops, &egov).unwrap(), vec!["e1", "e2", "p3"]);
    assert_eq!(modified_egov_ids(&base(), &ops, &egov).unwrap(), vec!["e2", "p3"]);
    assert!(id_map(&base(), &ops, &base()).is_none());
}
