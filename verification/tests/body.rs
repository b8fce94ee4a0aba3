use lawean_amend::body::{changed_refs, hane_fixes, nth_in_art, para_num, render_body, render_piece, render_pieces_styled, Piece, RefForm};
use lawean_amend::ident::{IdentRevision, Node};

fn rev(ns: &[(&str, &str)]) -> IdentRevision {
    IdentRevision {
        nodes: ns
            .iter()
            .map(|(i, a)| Node { id: i.to_string(), art: a.to_string(), text: String::new(), conflicts: vec![] })
            .collect(),
    }
}

fn before() -> IdentRevision {
    rev(&[("a1", "5"), ("a2", "5"), ("a3", "5"), ("b1", "6")])
}

fn after() -> IdentRevision {
    rev(&[("a1", "5"), ("a2", "5"), ("n", "5"), ("a3", "5"), ("b1", "6")])
}

fn prev(target: &str, k: u32) -> Piece {
    Piece::Ref { target: target.into(), form: RefForm::Prev(k) }
}

#[test]
fn paragraphs_are_numbered_within_their_article() {
    assert_eq!(para_num(&before(), "a3"), Some(3));
    assert_eq!(para_num(&before(), "b1"), Some(1));
    assert_eq!(para_num(&before(), "zz"), None);
}

#[test]
fn references_render_by_current_numbers() {
    let r = before();
    assert_eq!(render_piece(&r, "a3", &prev("a2", 1)), "前項");
    assert_eq!(render_piece(&r, "a3", &prev("a1", 2)), "前二項");
    assert_eq!(render_piece(&r, "a1", &Piece::Ref { target: "a2".into(), form: RefForm::Next }), "次項");
    assert_eq!(render_piece(&r, "a1", &Piece::Ref { target: "a3".into(), form: RefForm::Absolute }), "第三項");
    assert_eq!(render_piece(&r, "b1", &Piece::Ref { target: "a2".into(), form: RefForm::AbsoluteArt }), "第五条第二項");
    assert_eq!(render_piece(&r, "b1", &Piece::Ref { target: "gone".into(), form: RefForm::AbsoluteArt }), "（削除された規定）");
    assert_eq!(render_piece(&r, "a3", &prev("gone", 1)), "（削除された項）");
    assert_eq!(render_body(&r, "a3", &vec![Piece::Text("x".into()), prev("a2", 1)]), "x前項");
}

#[test]
fn an_inserted_paragraph_moves_the_numbers_but_not_the_references() {
    let body = vec![Piece::Text("x".into()), prev("a2", 1)];
    assert_eq!(render_body(&after(), "a3", &body), "x第二項");
    let fixes = hane_fixes(&before(), &after(), &[("a3".to_string(), body.clone())]);
    assert_eq!(fixes, vec![("a3".to_string(), "x前項".to_string(), "x第二項".to_string())]);
    let refs = changed_refs(&before(), &after(), &[("a3".to_string(), body)]);
    assert_eq!(refs, vec![("a3".to_string(), "前項".to_string(), "第二項".to_string())]);
}

#[test]
fn no_change_no_fixes() {
    let body = vec![prev("a2", 1)];
    assert!(hane_fixes(&before(), &before(), &[("a3".to_string(), body.clone())]).is_empty());
    assert!(changed_refs(&before(), &before(), &[("a3".to_string(), body)]).is_empty());
}

#[test]
fn a_repeated_converted_reference_reads_the_same_paragraph() {
    let body = vec![prev("a2", 1), Piece::Text("及び".into()), prev("a2", 1)];
    assert_eq!(render_pieces_styled(&after(), "a3", &body), vec!["第二項", "及び", "同項"]);
    assert_eq!(render_pieces_styled(&before(), "a3", &body), vec!["前項", "及び", "前項"]);
}

#[test]
fn the_nth_paragraph_of_an_article_is_found_by_its_place() {
    let r = after();
    assert_eq!(nth_in_art(&r, "5", 3), Some("n".to_string()));
    assert_eq!(nth_in_art(&r, "5", 1), Some("a1".to_string()));
    assert_eq!(nth_in_art(&r, "6", 1), Some("b1".to_string()));
    assert_eq!(nth_in_art(&r, "5", 0), None);
    assert_eq!(nth_in_art(&r, "5", 5), None);
}

#[test]
fn undoing_an_amendment_swaps_its_fixes() {
    let bodies = vec![
        ("a3".to_string(), vec![Piece::Text("x".into()), prev("a2", 1)]),
        ("b1".to_string(), vec![prev("a1", 1)]),
    ];
    let forward = hane_fixes(&before(), &after(), &bodies);
    let back = hane_fixes(&after(), &before(), &bodies);
    assert_eq!(forward, vec![("a3".to_string(), "x前項".to_string(), "x第二項".to_string())]);
    assert_eq!(back, vec![("a3".to_string(), "x第二項".to_string(), "x前項".to_string())]);
    assert!(forward.len() <= bodies.len());
}
