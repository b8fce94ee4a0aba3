//! Reading a text into a body and rendering the body again gives back the text, when each
//! reference that resolves is written as rendering draws it.

use vstd::prelude::*;
use crate::article_num::{spec_article_label, spec_parse};
use crate::body::{para_word, spec_para_num, spec_render_body, spec_render_piece, spec_render_ref, Piece, RefForm};
use crate::body_refs::{
    body_state, connective, core_end, piece_view, pieces_view, push_text, resolve_span, spans_ordered, spec_body_of,
    PieceModel, RefSpan,
};
use crate::ident::NodeModel;
use crate::ident_laws::find;

verus! {

/// How a reference to `target` written in the form `form` reads in the paragraph `src`.
pub open spec fn render_ref_to(r: Seq<NodeModel>, src: Seq<char>, target: Seq<char>, form: RefForm) -> Seq<char> {
    match form {
        RefForm::AbsoluteArt => match (find(r, target), spec_para_num(r, target)) {
            (Some(n), Some(k)) => spec_article_label(spec_parse(n.art)) + para_word(k),
            _ => "（削除された規定）"@,
        },
        _ => {
            let same_art = match (find(r, src), find(r, target)) {
                (Some(a), Some(b)) => a.art == b.art,
                _ => false,
            };
            let s = if same_art { spec_para_num(r, src) } else { None };
            spec_render_ref(form, spec_para_num(r, target), s)
        },
    }
}

/// How a piece reads.
pub open spec fn render_model(r: Seq<NodeModel>, src: Seq<char>, p: PieceModel) -> Seq<char> {
    match p {
        PieceModel::Text(s) => s,
        PieceModel::Ref(t, f) => render_ref_to(r, src, t, f),
    }
}

/// How pieces read, one after another.
pub open spec fn render_models(r: Seq<NodeModel>, src: Seq<char>, v: Seq<PieceModel>) -> Seq<char>
    decreases v.len(),
{
    if v.len() == 0 {
        Seq::empty()
    } else {
        render_models(r, src, v.drop_last()) + render_model(r, src, v.last())
    }
}

proof fn lemma_render_view(r: Seq<NodeModel>, src: Seq<char>, body: Seq<Piece>)
    ensures
        spec_render_body(r, src, body) == render_models(r, src, pieces_view(body)),
    decreases body.len(),
{
    if body.len() > 0 {
        lemma_render_view(r, src, body.drop_last());
        assert(pieces_view(body).drop_last() =~= pieces_view(body.drop_last()));
        assert(spec_render_piece(r, src, body.last()) == render_model(r, src, piece_view(body.last())));
    }
}

proof fn lemma_render_push(r: Seq<NodeModel>, src: Seq<char>, v: Seq<PieceModel>, p: PieceModel)
    ensures
        render_models(r, src, v.push(p)) == render_models(r, src, v) + render_model(r, src, p),
{
    assert(v.push(p).drop_last() =~= v);
}

proof fn lemma_render_push_text(r: Seq<NodeModel>, src: Seq<char>, v: Seq<PieceModel>, s: Seq<char>)
    ensures
        render_models(r, src, push_text(v, s)) == render_models(r, src, v) + s,
{
    if s.len() == 0 {
        assert(render_models(r, src, v) + s =~= render_models(r, src, v));
    } else if v.len() > 0 && v.last() is Text {
        let t = v.last()->Text_0;
        lemma_render_push(r, src, v.drop_last(), PieceModel::Text(t + s));
        assert(v.drop_last().push(v.last()) =~= v);
        lemma_render_push(r, src, v.drop_last(), v.last());
        assert(render_models(r, src, push_text(v, s)) =~= render_models(r, src, v) + s);
    } else {
        lemma_render_push(r, src, v, PieceModel::Text(s));
    }
}

/// Each reference that the reading resolves is written as rendering draws it: the wording
/// of the span up to its last `項` is the rendering of the reference it resolves to.
pub open spec fn written_as_drawn(
    r: Seq<NodeModel>,
    src: Seq<char>,
    src_art: Seq<char>,
    src_idx: nat,
    text: Seq<char>,
    spans: Seq<RefSpan>,
) -> bool {
    forall|i: int| 0 <= i < spans.len() ==> {
        let (out, pos, ante, prev_end) = #[trigger] body_state(r, src_art, src_idx, text, spans.take(i));
        let sp = spans[i];
        let gs = if prev_end < sp.start { prev_end } else { sp.start as int };
        let (res, _) = resolve_span(r, src_art, src_idx, ante, sp.kind, connective(text.subrange(gs, sp.start as int)));
        &&& sp.text@ == text.subrange(sp.start as int, sp.end as int)
        &&& (res matches Some((t, f)) ==> render_ref_to(r, src, t, f) == sp.text@.take(core_end(sp.text@)))
    }
}

proof fn lemma_core_end(t: Seq<char>)
    ensures
        0 <= core_end(t) <= t.len(),
{
    lemma_after_last(t);
}

proof fn lemma_after_last(t: Seq<char>)
    ensures
        0 <= crate::body_refs::after_last_kou(t) <= t.len(),
    decreases t.len(),
{
    if t.len() > 0 && t.last() != '項' {
        lemma_after_last(t.drop_last());
    }
}

proof fn lemma_state_renders(
    r: Seq<NodeModel>,
    src: Seq<char>,
    src_art: Seq<char>,
    src_idx: nat,
    text: Seq<char>,
    spans: Seq<RefSpan>,
    n: int,
)
    requires
        0 <= n <= spans.len(),
        spans_ordered(spans, text.len()),
        written_as_drawn(r, src, src_art, src_idx, text, spans),
    ensures
        ({
            let (out, pos, ante, prev_end) = body_state(r, src_art, src_idx, text, spans.take(n));
            &&& 0 <= pos <= prev_end <= text.len()
            &&& prev_end == (if n > 0 { spans[n - 1].end as int } else { 0 })
            &&& render_models(r, src, out) == text.take(pos)
        }),
    decreases n,
{
    if n == 0 {
        assert(spans.take(0) =~= Seq::<RefSpan>::empty());
        assert(text.take(0) =~= Seq::<char>::empty());
    } else {
        lemma_state_renders(r, src, src_art, src_idx, text, spans, n - 1);
        let pre = spans.take(n - 1);
        assert(spans.take(n).drop_last() =~= pre);
        assert(spans.take(n).last() == spans[n - 1]);
        let (out, pos, ante, prev_end) = body_state(r, src_art, src_idx, text, pre);
        let sp = spans[n - 1];
        assert(prev_end <= sp.start) by {
            if n > 1 {
                assert(spans[n - 2].end <= spans[(n - 2) + 1].start);
            }
        }
        assert(sp.start <= sp.end <= text.len());
        let gs = if prev_end < sp.start { prev_end } else { sp.start as int };
        let conn = connective(text.subrange(gs, sp.start as int));
        let (res, ante2) = resolve_span(r, src_art, src_idx, ante, sp.kind, conn);
        assert(written_as_drawn(r, src, src_art, src_idx, text, spans));
        assert(sp.text@ == text.subrange(sp.start as int, sp.end as int) && (res matches Some((t, f)) ==> render_ref_to(
            r,
            src,
            t,
            f,
        ) == sp.text@.take(core_end(sp.text@)))) by {
            let _ = body_state(r, src_art, src_idx, text, spans.take(n - 1));
        }
        match res {
            Some((t, f)) => {
                let o1 = push_text(out, text.subrange(pos, sp.start as int)).push(PieceModel::Ref(t, f));
                lemma_render_push_text(r, src, out, text.subrange(pos, sp.start as int));
                lemma_render_push(r, src, push_text(out, text.subrange(pos, sp.start as int)), PieceModel::Ref(t, f));
                lemma_core_end(sp.text@);
                lemma_render_push_text(r, src, o1, sp.text@.skip(core_end(sp.text@)));
                assert(sp.text@.take(core_end(sp.text@)) + sp.text@.skip(core_end(sp.text@)) =~= sp.text@);
                assert(text.take(pos) + text.subrange(pos, sp.start as int) + sp.text@ =~= text.take(sp.end as int));
            },
            None => {},
        }
    }
}

/// A text read into a body renders back as the text, when each reference that the reading
/// resolves is written as rendering draws it (the wording of its span, up to its last `項`,
/// is the rendering of the resolved reference) and the spans stand in order in the text.
pub proof fn law_body_renders_back(r: Seq<NodeModel>, src: Seq<char>, text: Seq<char>, spans: Seq<RefSpan>, body: Seq<Piece>)
    requires
        spans_ordered(spans, text.len()),
        pieces_view(body) == spec_body_of(r, src, text, spans),
        find(r, src) matches Some(sn) ==> written_as_drawn(
            r,
            src,
            sn.art,
            match spec_para_num(r, src) {
                Some(k) => k,
                None => 0,
            },
            text,
            spans,
        ),
    ensures
        spec_render_body(r, src, body) == text,
{
    lemma_render_view(r, src, body);
    match find(r, src) {
        None => {
            lemma_render_push(r, src, Seq::empty(), PieceModel::Text(text));
            assert(seq![PieceModel::Text(text)] =~= Seq::<PieceModel>::empty().push(PieceModel::Text(text)));
            assert(render_models(r, src, Seq::<PieceModel>::empty()) + text =~= text);
        },
        Some(sn) => {
            let idx: nat = match spec_para_num(r, src) {
                Some(k) => k,
                None => 0,
            };
            lemma_state_renders(r, src, sn.art, idx, text, spans, spans.len() as int);
            assert(spans.take(spans.len() as int) =~= spans);
            let (out, pos, _, _) = body_state(r, sn.art, idx, text, spans);
            lemma_render_push_text(r, src, out, text.skip(pos));
            assert(text.take(pos) + text.skip(pos) =~= text);
        },
    }
}

} // verus!
