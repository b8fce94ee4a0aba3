use lawean_amend::article_num::ArticleNum;
use lawean_amend::body::{render_body, Piece, RefForm};
use lawean_amend::body_refs::{body_of, RefSpan, SpanKind};
use lawean_amend::ident::{IdentRevision, Node};

fn rev(ns: &[(&str, &str)]) -> IdentRevision {
    IdentRevision {
        nodes: ns
            .iter()
            .map(|(i, a)| Node { id: i.to_string(), art: a.to_string(), text: String::new(), conflicts: vec![] })
            .collect(),
    }
}

fn span(start: usize, end: usize, text: &str, kind: SpanKind) -> RefSpan {
    RefSpan { start, end, text: text.to_string(), kind }
}

fn text(s: &str) -> Piece {
    Piece::Text(s.to_string())
}

fn to(target: &str, form: RefForm) -> Piece {
    Piece::Ref { target: target.to_string(), form }
}

#[test]
fn references_to_paragraphs_become_references_by_id() {
    let r = rev(&[("a1", "5"), ("a2", "5"), ("a3", "5"), ("b1", "6")]);
    let t = "前項及び第二項の規定は、第六条第一項について準用する。";
    let spans = vec![
        span(0, 2, "前項", SpanKind::Prev(1)),
        span(4, 7, "第二項", SpanKind::Paragraph(2)),
        span(12, 18, "第六条第一項", SpanKind::Article { suppl: false, num: ArticleNum::parse("6"), paragraph: Some(1) }),
    ];
    assert_eq!(
        body_of(&r, "a3", t, &spans),
        vec![
            to("a2", RefForm::Prev(1)),
            text("及び"),
            to("a2", RefForm::Absolute),
            text("の規定は、"),
            to("b1", RefForm::AbsoluteArt),
            text("について準用する。"),
        ]
    );
}

#[test]
fn what_follows_the_paragraph_stays_text_and_unknown_places_stay_whole() {
    let r = rev(&[("a1", "5"), ("a2", "5")]);
    let t = "第一項第三号に掲げる者";
    let spans = vec![span(0, 6, "第一項第三号", SpanKind::Paragraph(1))];
    assert_eq!(body_of(&r, "a2", t, &spans), vec![to("a1", RefForm::Absolute), text("第三号に掲げる者")]);
    assert_eq!(body_of(&r, "zz", t, &spans), vec![text(t)]);
    let other = vec![span(0, 6, "第一項第三号", SpanKind::Other)];
    assert_eq!(body_of(&r, "a2", t, &other), vec![text(t)]);
}

#[test]
fn a_body_read_from_a_text_renders_back_as_the_text() {
    let r = rev(&[("a1", "5"), ("a2", "5"), ("a3", "5"), ("b1", "6")]);
    let t = "前項及び第二項の規定は、第六条第一項について準用する。";
    let spans = vec![
        span(0, 2, "前項", SpanKind::Prev(1)),
        span(4, 7, "第二項", SpanKind::Paragraph(2)),
        span(12, 18, "第六条第一項", SpanKind::Article { suppl: false, num: ArticleNum::parse("6"), paragraph: Some(1) }),
    ];
    let body = body_of(&r, "a3", t, &spans);
    assert_eq!(render_body(&r, "a3", &body), t);
}
