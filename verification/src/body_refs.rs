//! A paragraph's text as a body: the references that resolve to a paragraph of the
//! revision become references by id, the rest stays text.

use vstd::prelude::*;
use crate::article_num::{spec_num_string, ArticleNum};
use crate::body::{node, nth_in_art, para_num, spec_nth_in_art, spec_para_num, Piece, RefForm};
use crate::ident::{IdentRevision, NodeModel};
use crate::ident_laws::find;
use crate::rewrite::{replace_all, spec_replace};
use crate::text::{chars_of, push_string, slice_from, slice_range, string_of};

verus! {

/// What a reference found in a text names.
pub enum SpanKind {
    /// `第N条`, with the paragraph when it names one; `suppl` in the supplementary provisions.
    Article { suppl: bool, num: ArticleNum, paragraph: Option<u32> },
    /// `第N項` alone.
    Paragraph(u32),
    /// `前項`, `前N項`.
    Prev(u32),
    /// `次項`.
    Next,
    /// Any other reference (another law, `同項`, `前各項`…).
    Other,
}

/// A reference found in a text: where it stands (in characters), its wording and what it
/// names, as reference recognition gives it.
pub struct RefSpan {
    pub start: usize,
    pub end: usize,
    pub text: String,
    pub kind: SpanKind,
}

/// A piece of a body, as values.
pub enum PieceModel {
    Text(Seq<char>),
    Ref(Seq<char>, RefForm),
}

pub open spec fn piece_view(p: Piece) -> PieceModel {
    match p {
        Piece::Text(t) => PieceModel::Text(t@),
        Piece::Ref { target, form } => PieceModel::Ref(target@, form),
    }
}

pub open spec fn pieces_view(v: Seq<Piece>) -> Seq<PieceModel> {
    v.map_values(|p: Piece| piece_view(p))
}

/// Appends text to a body, joining it to text that ends the body.
pub open spec fn push_text(out: Seq<PieceModel>, s: Seq<char>) -> Seq<PieceModel> {
    if s.len() == 0 {
        out
    } else if out.len() > 0 && out.last() is Text {
        out.drop_last().push(PieceModel::Text(out.last()->Text_0 + s))
    } else {
        out.push(PieceModel::Text(s))
    }
}

/// The gap with the connecting words and punctuation taken out.
pub open spec fn strip_connectives(g: Seq<char>) -> Seq<char> {
    let a = spec_replace(g, "から"@, ""@);
    let b = spec_replace(a, "まで"@, ""@);
    let c = spec_replace(b, "及び"@, ""@);
    let d = spec_replace(c, "並びに"@, ""@);
    let e = spec_replace(d, "若しくは"@, ""@);
    let f = spec_replace(e, "又は"@, ""@);
    f.filter(|x: char| x != '、' && x != '（' && x != '）')
}

/// The gap between two references holds only connecting words (`から`, `及び`…): the
/// second continues the article of the first.
pub open spec fn connective(g: Seq<char>) -> bool {
    g.len() > 0 && strip_connectives(g).len() == 0
}

/// Just after the last `項` of `t` (0 when there is none).
pub open spec fn after_last_kou(t: Seq<char>) -> int
    decreases t.len(),
{
    if t.len() == 0 {
        0
    } else if t.last() == '項' {
        t.len() as int
    } else {
        after_last_kou(t.drop_last())
    }
}

/// The end of the numbered part of a reference's wording: just after its last `項`, or
/// all of it.
pub open spec fn core_end(t: Seq<char>) -> int {
    if after_last_kou(t) == 0 {
        t.len() as int
    } else {
        after_last_kou(t)
    }
}

/// The paragraph a reference resolves to, and the article that later bare paragraph
/// numbers continue (after the reference at `span` in a paragraph of article `src_art`,
/// number `src_idx`).
pub open spec fn resolve_span(
    r: Seq<NodeModel>,
    src_art: Seq<char>,
    src_idx: nat,
    ante: Option<Seq<char>>,
    kind: SpanKind,
    conn: bool,
) -> (Option<(Seq<char>, RefForm)>, Option<Seq<char>>) {
    match kind {
        SpanKind::Article { suppl, num, paragraph } => {
            if suppl {
                (None, None)
            } else {
                let art = spec_num_string(num@);
                match paragraph {
                    Some(p) => (
                        match spec_nth_in_art(r, art, p as nat) {
                            Some(id) => Some((id, RefForm::AbsoluteArt)),
                            None => None,
                        },
                        Some(art),
                    ),
                    None => (None, Some(art)),
                }
            }
        },
        SpanKind::Paragraph(p) => {
            let art = if conn {
                match ante {
                    Some(a) => a,
                    None => src_art,
                }
            } else {
                src_art
            };
            (
                match spec_nth_in_art(r, art, p as nat) {
                    Some(id) => Some((id, RefForm::Absolute)),
                    None => None,
                },
                ante,
            )
        },
        SpanKind::Prev(k) => if src_idx > k {
            (
                match spec_nth_in_art(r, src_art, (src_idx - k) as nat) {
                    Some(id) => Some((id, RefForm::Prev(k))),
                    None => None,
                },
                ante,
            )
        } else {
            (None, None)
        },
        SpanKind::Next => (
            match spec_nth_in_art(r, src_art, src_idx + 1) {
                Some(id) => Some((id, RefForm::Next)),
                None => None,
            },
            ante,
        ),
        SpanKind::Other => (None, None),
    }
}

/// The state after the references: the body so far, where the text not yet in it
/// starts, the article that bare paragraph numbers continue, and the end of the last
/// reference.
pub open spec fn body_state(
    r: Seq<NodeModel>,
    src_art: Seq<char>,
    src_idx: nat,
    text: Seq<char>,
    spans: Seq<RefSpan>,
) -> (Seq<PieceModel>, int, Option<Seq<char>>, int)
    decreases spans.len(),
{
    if spans.len() == 0 {
        (Seq::empty(), 0, None, 0)
    } else {
        let (out, pos, ante, prev_end) = body_state(r, src_art, src_idx, text, spans.drop_last());
        let sp = spans.last();
        let gs = if prev_end < sp.start { prev_end } else { sp.start as int };
        let conn = connective(text.subrange(gs, sp.start as int));
        let (res, ante2) = resolve_span(r, src_art, src_idx, ante, sp.kind, conn);
        match res {
            Some((target, form)) => {
                let o1 = push_text(out, text.subrange(pos, sp.start as int)).push(PieceModel::Ref(target, form));
                (push_text(o1, sp.text@.skip(core_end(sp.text@))), sp.end as int, ante2, sp.end as int)
            },
            None => (out, pos, ante2, sp.end as int),
        }
    }
}

/// The body of the text `text` of the paragraph `src` in the revision `r`: each
/// reference that resolves to a paragraph of `r` by its number (`第N条第M項`, `第M項` of the
/// same article or of the article named just before it, `前N項`, `次項`) becomes a
/// reference by id, with what follows its last `項` kept as text; the rest is text. A text
/// whose paragraph is not in `r` is all text.
pub open spec fn spec_body_of(r: Seq<NodeModel>, src: Seq<char>, text: Seq<char>, spans: Seq<RefSpan>) -> Seq<PieceModel> {
    match find(r, src) {
        None => seq![PieceModel::Text(text)],
        Some(sn) => {
            let src_idx: nat = match spec_para_num(r, src) {
                Some(k) => k,
                None => 0,
            };
            let (out, pos, _, _) = body_state(r, sn.art, src_idx, text, spans);
            push_text(out, text.skip(pos))
        },
    }
}

/// The references stand in order within the text, without overlapping.
pub open spec fn spans_ordered(spans: Seq<RefSpan>, n: nat) -> bool {
    &&& forall|i: int| 0 <= i < spans.len() ==> (#[trigger] spans[i]).start <= spans[i].end <= n
    &&& forall|i: int| 0 <= i < spans.len() - 1 ==> (#[trigger] spans[i]).end <= spans[i + 1].start
}

fn push_text_exec(out: &mut Vec<Piece>, s: &Vec<char>)
    ensures
        pieces_view(final(out)@) == push_text(pieces_view(old(out)@), s@),
{
    if s.len() == 0 {
        return;
    }
    let ghost o = pieces_view(out@);
    let ss = string_of(s.as_slice());
    match out.pop() {
        Some(Piece::Text(t)) => {
            let mut t2 = t;
            push_string(&mut t2, &ss);
            out.push(Piece::Text(t2));
            assert(pieces_view(out@) =~= o.drop_last().push(PieceModel::Text(o.last()->Text_0 + s@)));
        },
        Some(p) => {
            let ghost before = out@;
            out.push(p);
            out.push(Piece::Text(ss));
            assert(pieces_view(out@) =~= o.push(PieceModel::Text(s@)));
        },
        None => {
            out.push(Piece::Text(ss));
            assert(pieces_view(out@) =~= o.push(PieceModel::Text(s@)));
        },
    }
}

fn strip_exec(g: &Vec<char>) -> (r: Vec<char>)
    ensures
        r@ == strip_connectives(g@),
{
    let a = replace_all(g, "から", "");
    let b = replace_all(&a, "まで", "");
    let c = replace_all(&b, "及び", "");
    let d = replace_all(&c, "並びに", "");
    let e = replace_all(&d, "若しくは", "");
    let f = replace_all(&e, "又は", "");
    let mut r: Vec<char> = Vec::new();
    let mut i: usize = 0;
    while i < f.len()
        invariant
            i <= f.len(),
            r@ == f@.take(i as int).filter(|x: char| x != '、' && x != '（' && x != '）'),
        decreases f.len() - i,
    {
        assert(f@.take(i + 1).drop_last() =~= f@.take(i as int));
        reveal(Seq::filter);
        let x = f[i];
        if x != '、' && x != '（' && x != '）' {
            r.push(x);
        }
        i = i + 1;
    }
    assert(f@.take(f.len() as int) =~= f@);
    r
}

fn core_end_exec(t: &Vec<char>) -> (k: usize)
    ensures
        k == core_end(t@),
        k <= t.len(),
{
    let mut i: usize = t.len();
    assert(t@.take(t.len() as int) =~= t@);
    while i > 0
        invariant
            i <= t.len(),
            after_last_kou(t@) == after_last_kou(t@.take(i as int)),
        decreases i,
    {
        let ghost p = t@.take(i as int);
        assert(p.drop_last() =~= t@.take(i - 1));
        if t[i - 1] == '項' {
            return i;
        }
        i = i - 1;
    }
    assert(t@.take(0) =~= Seq::<char>::empty());
    t.len()
}

proof fn lemma_in_art_len(r: Seq<NodeModel>, art: Seq<char>)
    ensures
        crate::body::in_art(r, art).len() <= r.len(),
    decreases r.len(),
{
    if r.len() > 0 {
        lemma_in_art_len(r.drop_last(), art);
    }
}

pub open spec fn opt_view(o: Option<String>) -> Option<Seq<char>> {
    match o {
        Some(s) => Some(s@),
        None => None,
    }
}

fn ref_of(id: Option<String>, form: RefForm) -> (r: Option<(String, RefForm)>)
    ensures
        match id {
            Some(x) => r matches Some((y, f)) && y@ == x@ && f == form,
            None => r is None,
        },
{
    match id {
        Some(x) => Some((x, form)),
        None => None,
    }
}

fn resolve_exec(
    r: &IdentRevision,
    src_art: &String,
    src_idx: u32,
    ante: &Option<String>,
    kind: &SpanKind,
    conn: bool,
) -> (out: (Option<(String, RefForm)>, Option<String>))
    requires
        r.nodes.len() < u32::MAX,
    ensures
        ({
            let (res, a2) = resolve_span(r@, src_art@, src_idx as nat, opt_view(*ante), *kind, conn);
            &&& opt_view(out.1) == a2
            &&& match (out.0, res) {
                (Some((x, f)), Some((y, g))) => x@ == y && f == g,
                (None, None) => true,
                _ => false,
            }
        }),
{
    match kind {
        SpanKind::Article { suppl, num, paragraph } => {
            if *suppl {
                (None, None)
            } else {
                let art = num.to_num_string();
                match paragraph {
                    Some(p) => {
                        let id = nth_in_art(r, art.as_str(), *p);
                        (ref_of(id, RefForm::AbsoluteArt), Some(art))
                    },
                    None => (None, Some(art)),
                }
            }
        },
        SpanKind::Paragraph(p) => {
            let art: String = if conn {
                match ante {
                    Some(a) => a.clone(),
                    None => src_art.clone(),
                }
            } else {
                src_art.clone()
            };
            let id = nth_in_art(r, art.as_str(), *p);
            let a2 = match ante {
                Some(a) => Some(a.clone()),
                None => None,
            };
            (ref_of(id, RefForm::Absolute), a2)
        },
        SpanKind::Prev(k) => {
            if src_idx > *k {
                let id = nth_in_art(r, src_art.as_str(), src_idx - *k);
                let a2 = match ante {
                    Some(a) => Some(a.clone()),
                    None => None,
                };
                (ref_of(id, RefForm::Prev(*k)), a2)
            } else {
                (None, None)
            }
        },
        SpanKind::Next => {
            let id = if src_idx < 4294967295 {
                nth_in_art(r, src_art.as_str(), src_idx + 1)
            } else {
                proof {
                    lemma_in_art_len(r@, src_art@);
                }
                None
            };
            let a2 = match ante {
                Some(a) => Some(a.clone()),
                None => None,
            };
            (ref_of(id, RefForm::Next), a2)
        },
        SpanKind::Other => (None, None),
    }
}

/// Reads the text `text` of the paragraph `src` of the revision `r` as a body, with the
/// references that recognition found in it (`spans`, in order; see [`spec_body_of`]).
pub fn body_of(r: &IdentRevision, src: &str, text: &str, spans: &[RefSpan]) -> (out: Vec<Piece>)
    requires
        r.nodes.len() < u32::MAX,
        spans_ordered(spans@, text@.len()),
    ensures
        pieces_view(out@) == spec_body_of(r@, src@, text@, spans@),
{
    let tc = chars_of(text);
    let sn = match node(r, src) {
        None => {
            let v = vec![Piece::Text(string_of(tc.as_slice()))];
            assert(pieces_view(v@) =~= seq![PieceModel::Text(text@)]);
            return v;
        },
        Some(n) => n,
    };
    let src_art = &sn.art;
    let src_idx: u32 = match para_num(r, src) {
        Some(k) => k,
        None => 0,
    };
    let ghost sidx: nat = match spec_para_num(r@, src@) {
        Some(k) => k,
        None => 0,
    };
    assert(src_idx as nat == sidx);
    let mut out: Vec<Piece> = Vec::new();
    let mut pos: usize = 0;
    let mut ante: Option<String> = None;
    let mut prev_end: usize = 0;
    let mut i: usize = 0;
    assert(pieces_view(out@) =~= Seq::<PieceModel>::empty());
    while i < spans.len()
        invariant
            i <= spans.len(),
            tc@ == text@,
            r.nodes.len() < u32::MAX,
            spans_ordered(spans@, text@.len()),
            src_art@ == find(r@, src@).unwrap().art,
            src_idx as nat == sidx,
            (pieces_view(out@), pos as int, opt_view(ante), prev_end as int) == body_state(r@, src_art@, sidx, tc@, spans@.take(i as int)),
            pos <= prev_end <= tc.len(),
            i > 0 ==> prev_end == spans@[i - 1].end,
            i == 0 ==> prev_end == 0,
        decreases spans.len() - i,
    {
        let sp = &spans[i];
        assert(spans@.take(i + 1).drop_last() =~= spans@.take(i as int));
        assert(spans@.take(i + 1).last() == spans@[i as int]);
        assert(prev_end <= sp.start) by {
            if i > 0 {
                assert(spans@[i - 1].end <= spans@[(i - 1) + 1].start);
            }
        }
        assert(sp.start <= sp.end <= tc.len());
        let gap = slice_range(tc.as_slice(), prev_end, sp.start);
        let conn = gap.len() > 0 && strip_exec(&gap).len() == 0;
        let (res, ante2) = resolve_exec(r, src_art, src_idx, &ante, &sp.kind, conn);
        match res {
            Some((target, form)) => {
                let before = slice_range(tc.as_slice(), pos, sp.start);
                push_text_exec(&mut out, &before);
                let ghost o1 = pieces_view(out@);
                out.push(Piece::Ref { target, form });
                assert(pieces_view(out@) =~= o1.push(piece_view(out@[out.len() - 1])));
                let st = chars_of(sp.text.as_str());
                let ce = core_end_exec(&st);
                let tail = slice_from(st.as_slice(), ce);
                push_text_exec(&mut out, &tail);
                pos = sp.end;
            },
            None => {},
        }
        ante = ante2;
        prev_end = sp.end;
        i = i + 1;
    }
    assert(spans@.take(spans.len() as int) =~= spans@);
    let rest = slice_from(tc.as_slice(), pos);
    push_text_exec(&mut out, &rest);
    out
}

} // verus!
