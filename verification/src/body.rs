//! Bodies of text whose references name paragraphs by id. A number written in a body
//! (`第二十八条第五項`) would change meaning when an earlier amendment inserts a paragraph;
//! here a body is a sequence of plain pieces and references by id, and numbers are counted
//! when the body is rendered against a revision. A paragraph whose rendering differs before
//! and after an amendment is one that needs a consequential fix.

use vstd::prelude::*;
use crate::article_num::{spec_article_label, spec_parse, article_label, ArticleNum};
use crate::ident::{first_pos, has_id, is_first, lemma_first_pos, lemma_first_pos_is, IdentRevision, Node, NodeModel};
use crate::ident_laws::find;
use crate::numeral::{spec_to_kanji, to_kanji};
use crate::text::{push_char, push_str, push_string, str_eq, starts_with, starts_with_str};

verus! {

/// How a reference is written; the relative forms keep their original distance.
#[derive(Debug, Clone, PartialEq, Eq)]
pub enum RefForm {
    /// `第三項`: a paragraph of the same article.
    Absolute,
    /// `第百四十二条の四第六項`: a paragraph of another article.
    AbsoluteArt,
    /// `前項`, `前二項`: the paragraph that many places before.
    Prev(u32),
    /// `次項`: the next paragraph.
    Next,
}

/// A piece of a body: plain text, or a reference to a paragraph by id.
#[derive(Debug, Clone, PartialEq, Eq)]
pub enum Piece {
    Text(String),
    Ref { target: String, form: RefForm },
}

/// A body of text: its pieces in order.
pub type Body = Vec<Piece>;

/// The nodes of the article `art`, in order.
pub open spec fn in_art(r: Seq<NodeModel>, art: Seq<char>) -> Seq<NodeModel>
    decreases r.len(),
{
    if r.len() == 0 {
        Seq::empty()
    } else {
        in_art(r.drop_last(), art) + if r.last().art == art { seq![r.last()] } else { Seq::empty() }
    }
}

/// The id of the `p`-th paragraph (from 1) of the article `art`.
pub open spec fn spec_nth_in_art(r: Seq<NodeModel>, art: Seq<char>, p: nat) -> Option<Seq<char>> {
    if 1 <= p <= in_art(r, art).len() {
        Some(in_art(r, art)[p - 1].id)
    } else {
        None
    }
}

/// The number of a paragraph within its article (from 1): one more than the nodes of the
/// same article before the first node with the id.
pub open spec fn spec_para_num(r: Seq<NodeModel>, id: Seq<char>) -> Option<nat> {
    crate::ident::spec_para_num(r, id)
}

pub(crate) fn node<'a>(r: &'a IdentRevision, id: &str) -> (n: Option<&'a Node>)
    ensures
        match n {
            Some(x) => find(r@, id@) == Some(x@),
            None => find(r@, id@) is None,
        },
{
    let mut i: usize = 0;
    while i < r.nodes.len()
        invariant
            i <= r.nodes.len(),
            forall|j: int| 0 <= j < i ==> r@[j].id != id@,
        decreases r.nodes.len() - i,
    {
        if str_eq(r.nodes[i].id.as_str(), id) {
            proof {
                assert(is_first(r@, id@, i as int));
                lemma_first_pos_is(r@, id@, i as int);
            }
            return Some(&r.nodes[i]);
        }
        i = i + 1;
    }
    proof {
        lemma_first_pos(r@, id@);
    }
    None
}

/// The id of the `p`-th paragraph (from 1) of the article `art`.
pub fn nth_in_art(r: &IdentRevision, art: &str, p: u32) -> (out: Option<String>)
    ensures
        match out {
            Some(x) => spec_nth_in_art(r@, art@, p as nat) == Some(x@),
            None => spec_nth_in_art(r@, art@, p as nat) is None,
        },
{
    if p == 0 {
        return None;
    }
    let mut count: u64 = 0;
    let mut i: usize = 0;
    while i < r.nodes.len()
        invariant
            i <= r.nodes.len(),
            p >= 1,
            count == in_art(r@.take(i as int), art@).len(),
            count < p,
            in_art(r@, art@).len() >= count,
            forall|k: int| 0 <= k < count ==> in_art(r@, art@)[k] == in_art(r@.take(i as int), art@)[k],
        decreases r.nodes.len() - i,
    {
        assert(r@.take(i + 1).drop_last() == r@.take(i as int));
        assert(r@.take(i + 1).last() == r@[i as int]);
        if str_eq(r.nodes[i].art.as_str(), art) {
            if count + 1 == p as u64 {
                proof {
                    lemma_in_art_prefix(r@, art@, i + 1);
                }
                return Some(r.nodes[i].id.clone());
            }
            count = count + 1;
        }
        proof {
            lemma_in_art_prefix(r@, art@, i + 1);
        }
        i = i + 1;
    }
    assert(r@.take(r.nodes.len() as int) == r@);
    None
}

/// The nodes of an article in a prefix are the first ones of that article in the whole.
proof fn lemma_in_art_prefix(r: Seq<NodeModel>, art: Seq<char>, i: int)
    requires
        0 <= i <= r.len(),
    ensures
        in_art(r.take(i), art).len() <= in_art(r, art).len(),
        forall|k: int| 0 <= k < in_art(r.take(i), art).len() ==> #[trigger] in_art(r, art)[k] == in_art(r.take(i), art)[k],
    decreases r.len() - i,
{
    if i < r.len() {
        lemma_in_art_prefix(r, art, i + 1);
        assert(r.take(i + 1).drop_last() == r.take(i));
    } else {
        assert(r.take(i) == r);
    }
}


/// The number of a paragraph within its article (from 1), counted when rendered.
pub fn para_num(r: &IdentRevision, id: &str) -> (n: Option<u32>)
    requires
        r.nodes.len() <= u32::MAX,
    ensures
        match n {
            Some(k) => spec_para_num(r@, id@) == Some(k as nat),
            None => spec_para_num(r@, id@) is None,
        },
{
    match r.para_num(id) {
        Some(k) => {
            proof {
                lemma_first_pos(r@, id@);
                lemma_count_in_art_le(r@.take(first_pos(r@, id@)), r@[first_pos(r@, id@)].art);
            }
            Some(k as u32)
        },
        None => None,
    }
}

proof fn lemma_count_in_art_le(s: Seq<NodeModel>, art: Seq<char>)
    ensures
        crate::ident::count_in_art(s, art) <= s.len(),
    decreases s.len(),
{
    if s.len() > 0 {
        lemma_count_in_art_le(s.drop_last(), art);
    }
}

/// `第Ｎ項`.
pub open spec fn para_word(t: nat) -> Seq<char> {
    "第"@ + spec_to_kanji(t) + "項"@
}

/// How a reference to paragraph `t` reads from paragraph `s` of the same article (`s` is
/// none for another article): a relative form stays when the distance is the original one,
/// becomes `前項`/`次項` at distance one, and is written absolutely otherwise; a reference to a
/// removed paragraph reads `（削除された項）`.
pub open spec fn spec_render_ref(form: RefForm, t: Option<nat>, s: Option<nat>) -> Seq<char> {
    match t {
        None => "（削除された項）"@,
        Some(t) => match (form, s) {
            (RefForm::Prev(k), Some(s)) => if s == t + k {
                if k == 1 { "前項"@ } else { "前"@ + spec_to_kanji(k as nat) + "項"@ }
            } else if s == t + 1 {
                "前項"@
            } else {
                para_word(t)
            },
            (RefForm::Next, Some(s)) => if t == s + 1 { "次項"@ } else { para_word(t) },
            _ => para_word(t),
        },
    }
}

fn push_para_word(x: &mut String, t: u32)
    ensures
        final(x)@ == old(x)@ + para_word(t as nat),
{
    push_str(x, "第");
    let k = to_kanji(t);
    push_string(x, &k);
    push_str(x, "項");
}

/// How a reference to paragraph `t` reads from paragraph `s`.
fn render_ref(form: &RefForm, t: Option<u32>, s: Option<u32>) -> (x: String)
    ensures
        x@ == spec_render_ref(*form, opt_nat(t), opt_nat(s)),
{
    let mut x = String::new();
    let t = match t {
        None => {
            push_str(&mut x, "（削除された項）");
            return x;
        },
        Some(t) => t,
    };
    match (form, s) {
        (RefForm::Prev(k), Some(s)) => {
            if s as u64 == t as u64 + *k as u64 {
                if *k == 1 {
                    push_str(&mut x, "前項");
                } else {
                    push_str(&mut x, "前");
                    let kk = to_kanji(*k);
                    push_string(&mut x, &kk);
                    push_str(&mut x, "項");
                }
            } else if s as u64 == t as u64 + 1 {
                push_str(&mut x, "前項");
            } else {
                push_para_word(&mut x, t);
            }
        },
        (RefForm::Next, Some(s)) => {
            if t as u64 == s as u64 + 1 {
                push_str(&mut x, "次項");
            } else {
                push_para_word(&mut x, t);
            }
        },
        _ => {
            push_para_word(&mut x, t);
        },
    }
    x
}

/// An optional `u32` as an optional natural number.
pub open spec fn opt_nat(o: Option<u32>) -> Option<nat> {
    match o {
        Some(k) => Some(k as nat),
        None => None,
    }
}

/// How a piece of the body of paragraph `src` reads in revision `r`: text as it is; a
/// reference written with its article as the article's label and `第Ｎ項` (`（削除された規定）`
/// when the target is gone); any other reference as `spec_render_ref` says, where the
/// distance counts only within the article of `src`.
pub open spec fn spec_render_piece(r: Seq<NodeModel>, src: Seq<char>, p: Piece) -> Seq<char> {
    match p {
        Piece::Text(s) => s@,
        Piece::Ref { target, form } => match form {
            RefForm::AbsoluteArt => match (find(r, target@), spec_para_num(r, target@)) {
                (Some(n), Some(k)) => spec_article_label(spec_parse(n.art)) + para_word(k),
                _ => "（削除された規定）"@,
            },
            _ => {
                let same_art = match (find(r, src), find(r, target@)) {
                    (Some(a), Some(b)) => a.art == b.art,
                    _ => false,
                };
                let s = if same_art { spec_para_num(r, src) } else { None };
                spec_render_ref(form, spec_para_num(r, target@), s)
            },
        },
    }
}

/// How a piece of the body of paragraph `src` reads in revision `r`.
pub fn render_piece(r: &IdentRevision, src: &str, p: &Piece) -> (x: String)
    requires
        r.nodes.len() <= u32::MAX,
    ensures
        x@ == spec_render_piece(r@, src@, *p),
{
    match p {
        Piece::Text(s) => s.clone(),
        Piece::Ref { target, form: RefForm::AbsoluteArt } => {
            match (node(r, target.as_str()), para_num(r, target.as_str())) {
                (Some(n), Some(k)) => {
                    let mut x = article_label(&ArticleNum::parse(n.art.as_str()));
                    push_para_word(&mut x, k);
                    x
                },
                _ => {
                    let mut x = String::new();
                    push_str(&mut x, "（削除された規定）");
                    x
                },
            }
        },
        Piece::Ref { target, form } => {
            let same_art = match (node(r, src), node(r, target.as_str())) {
                (Some(a), Some(b)) => str_eq(a.art.as_str(), b.art.as_str()),
                _ => false,
            };
            let s = if same_art { para_num(r, src) } else { None };
            render_ref(form, para_num(r, target.as_str()), s)
        },
    }
}

/// The rendering of a body: its pieces one after another.
pub open spec fn spec_render_body(r: Seq<NodeModel>, src: Seq<char>, body: Seq<Piece>) -> Seq<char>
    decreases body.len(),
{
    if body.len() == 0 {
        Seq::empty()
    } else {
        spec_render_body(r, src, body.drop_last()) + spec_render_piece(r, src, body.last())
    }
}

/// How the body of paragraph `src` reads in revision `r`.
pub fn render_body(r: &IdentRevision, src: &str, body: &Vec<Piece>) -> (x: String)
    requires
        r.nodes.len() <= u32::MAX,
    ensures
        x@ == spec_render_body(r@, src@, body@),
{
    let mut x = String::new();
    let mut i: usize = 0;
    while i < body.len()
        invariant
            i <= body.len(),
            r.nodes.len() <= u32::MAX,
            x@ == spec_render_body(r@, src@, body@.take(i as int)),
        decreases body.len() - i,
    {
        assert(body@.take(i + 1).drop_last() == body@.take(i as int));
        let t = render_piece(r, src, &body[i]);
        push_string(&mut x, &t);
        i = i + 1;
    }
    assert(body@.take(body.len() as int) == body@);
    x
}


/// The state `(rendered pieces, target just turned absolute)` after the first pieces:
/// a relative reference that reads absolutely right after one that did for the same
/// paragraph reads `同項` (the same paragraph), as drafting practice writes it.
pub open spec fn styled_state(r: Seq<NodeModel>, src: Seq<char>, body: Seq<Piece>) -> (Seq<Seq<char>>, Option<Seq<char>>)
    decreases body.len(),
{
    if body.len() == 0 {
        (Seq::empty(), None)
    } else {
        let (out, prev) = styled_state(r, src, body.drop_last());
        let p = body.last();
        let rendered = spec_render_piece(r, src, p);
        match p {
            Piece::Ref { target, form } => match form {
                RefForm::Prev(_) | RefForm::Next => {
                    let converted = rendered.len() > 0 && rendered[0] == '第';
                    let shown = if converted && prev == Some(target@) { "同項"@ } else { rendered };
                    (out.push(shown), if converted { Some(target@) } else { None })
                },
                _ => (out.push(rendered), None),
            },
            Piece::Text(_) => (out.push(rendered), prev),
        }
    }
}

/// The rendering of each piece, with `同項` for a relative reference that turns absolute
/// right after another one to the same paragraph did.
pub open spec fn spec_render_pieces_styled(r: Seq<NodeModel>, src: Seq<char>, body: Seq<Piece>) -> Seq<Seq<char>> {
    styled_state(r, src, body).0
}

/// The texts of a vector of strings.
pub open spec fn strings_view(v: Seq<String>) -> Seq<Seq<char>> {
    v.map_values(|s: String| s@)
}

proof fn lemma_styled_len(r: Seq<NodeModel>, src: Seq<char>, body: Seq<Piece>)
    ensures
        styled_state(r, src, body).0.len() == body.len(),
    decreases body.len(),
{
    if body.len() > 0 {
        lemma_styled_len(r, src, body.drop_last());
    }
}

/// The rendering of each piece of the body of `src`, in drafting style (`同項`).
pub fn render_pieces_styled(r: &IdentRevision, src: &str, body: &Vec<Piece>) -> (out: Vec<String>)
    requires
        r.nodes.len() <= u32::MAX,
    ensures
        strings_view(out@) == spec_render_pieces_styled(r@, src@, body@),
{
    let mut out: Vec<String> = Vec::new();
    let mut prev: Option<&str> = None;
    let mut i: usize = 0;
    while i < body.len()
        invariant
            i <= body.len(),
            r.nodes.len() <= u32::MAX,
            (strings_view(out@), match prev {
                Some(t) => Some(t@),
                None => None::<Seq<char>>,
            }) == styled_state(r@, src@, body@.take(i as int)),
        decreases body.len() - i,
    {
        assert(body@.take(i + 1).drop_last() == body@.take(i as int));
        let p = &body[i];
        let rendered = render_piece(r, src, p);
        let ghost o0 = out@;
        match p {
            Piece::Ref { target, form: RefForm::Prev(_) } | Piece::Ref { target, form: RefForm::Next } => {
                let cs = crate::text::chars_of(rendered.as_str());
                let converted = cs.len() > 0 && cs[0] == '第';
                let same = match prev {
                    Some(t) => str_eq(t, target.as_str()),
                    None => false,
                };
                if converted && same {
                    let mut d = String::new();
                    push_str(&mut d, "同項");
                    out.push(d);
                    assert(strings_view(out@) =~= strings_view(o0).push("同項"@));
                } else {
                    out.push(rendered);
                    assert(strings_view(out@) =~= strings_view(o0).push(rendered@));
                }
                prev = if converted { Some(target.as_str()) } else { None };
            },
            Piece::Ref { .. } => {
                prev = None;
                out.push(rendered);
                assert(strings_view(out@) =~= strings_view(o0).push(rendered@));
            },
            Piece::Text(_) => {
                out.push(rendered);
                assert(strings_view(out@) =~= strings_view(o0).push(rendered@));
            },
        }
        i = i + 1;
    }
    assert(body@.take(body.len() as int) == body@);
    out
}

/// The paragraphs whose rendering differs between `r` and `r2`: `(id, before, after)`, in
/// the order of `bodies`.
pub open spec fn spec_hane_fixes(
    r: Seq<NodeModel>,
    r2: Seq<NodeModel>,
    bodies: Seq<(String, Vec<Piece>)>,
) -> Seq<(Seq<char>, Seq<char>, Seq<char>)>
    decreases bodies.len(),
{
    if bodies.len() == 0 {
        Seq::empty()
    } else {
        let (id, body) = bodies.last();
        let before = spec_render_body(r, id@, body@);
        let after = spec_render_body(r2, id@, body@);
        spec_hane_fixes(r, r2, bodies.drop_last()) + if before != after {
            seq![(id@, before, after)]
        } else {
            Seq::empty()
        }
    }
}

/// The texts of a list of `(id, before, after)`.
pub open spec fn triples_view(v: Seq<(String, String, String)>) -> Seq<(Seq<char>, Seq<char>, Seq<char>)> {
    v.map_values(|t: (String, String, String)| (t.0@, t.1@, t.2@))
}

proof fn lemma_triples_push(v: Seq<(String, String, String)>, t: (String, String, String))
    ensures
        triples_view(v.push(t)) == triples_view(v).push((t.0@, t.1@, t.2@)),
{
    assert(triples_view(v.push(t)) =~= triples_view(v).push((t.0@, t.1@, t.2@)));
}

/// The consequential fixes of an amendment: the paragraphs whose body renders differently
/// in the revision after it (`r2`) than before (`r`), with both renderings.
pub fn hane_fixes(r: &IdentRevision, r2: &IdentRevision, bodies: &[(String, Vec<Piece>)]) -> (out: Vec<(String, String, String)>)
    requires
        r.nodes.len() <= u32::MAX,
        r2.nodes.len() <= u32::MAX,
    ensures
        triples_view(out@) == spec_hane_fixes(r@, r2@, bodies@),
{
    let mut out: Vec<(String, String, String)> = Vec::new();
    let mut i: usize = 0;
    while i < bodies.len()
        invariant
            i <= bodies.len(),
            r.nodes.len() <= u32::MAX,
            r2.nodes.len() <= u32::MAX,
            triples_view(out@) == spec_hane_fixes(r@, r2@, bodies@.take(i as int)),
        decreases bodies.len() - i,
    {
        assert(bodies@.take(i + 1).drop_last() == bodies@.take(i as int));
        let (id, body) = (&bodies[i].0, &bodies[i].1);
        let before = render_body(r, id.as_str(), body);
        let after = render_body(r2, id.as_str(), body);
        if !str_eq(before.as_str(), after.as_str()) {
            let t = (id.clone(), before, after);
            let ghost o0 = out@;
            out.push(t);
            proof {
                lemma_triples_push(o0, t);
            }
        }
        i = i + 1;
    }
    assert(bodies@.take(bodies.len() as int) == bodies@);
    out
}

/// The references whose rendering changes within one body: `(id, before, after)` for each
/// reference piece whose styled rendering differs, in order.
pub open spec fn changed_in_body(
    id: Seq<char>,
    body: Seq<Piece>,
    before: Seq<Seq<char>>,
    after: Seq<Seq<char>>,
    n: nat,
) -> Seq<(Seq<char>, Seq<char>, Seq<char>)>
    decreases n,
{
    if n == 0 {
        Seq::empty()
    } else {
        let k = n - 1;
        changed_in_body(id, body, before, after, (n - 1) as nat) + if body[k] is Ref && before[k] != after[k] {
            seq![(id, before[k], after[k])]
        } else {
            Seq::empty()
        }
    }
}

/// The references whose rendering changes, body by body.
pub open spec fn spec_changed_refs(
    r: Seq<NodeModel>,
    r2: Seq<NodeModel>,
    bodies: Seq<(String, Vec<Piece>)>,
) -> Seq<(Seq<char>, Seq<char>, Seq<char>)>
    decreases bodies.len(),
{
    if bodies.len() == 0 {
        Seq::empty()
    } else {
        let (id, body) = bodies.last();
        spec_changed_refs(r, r2, bodies.drop_last()) + changed_in_body(
            id@,
            body@,
            spec_render_pieces_styled(r, id@, body@),
            spec_render_pieces_styled(r2, id@, body@),
            body@.len(),
        )
    }
}

/// Only the references whose rendering changed: `(id, before, after)`.
pub fn changed_refs(r: &IdentRevision, r2: &IdentRevision, bodies: &[(String, Vec<Piece>)]) -> (out: Vec<(String, String, String)>)
    requires
        r.nodes.len() <= u32::MAX,
        r2.nodes.len() <= u32::MAX,
    ensures
        triples_view(out@) == spec_changed_refs(r@, r2@, bodies@),
{
    let mut out: Vec<(String, String, String)> = Vec::new();
    let mut i: usize = 0;
    while i < bodies.len()
        invariant
            i <= bodies.len(),
            r.nodes.len() <= u32::MAX,
            r2.nodes.len() <= u32::MAX,
            triples_view(out@) == spec_changed_refs(r@, r2@, bodies@.take(i as int)),
        decreases bodies.len() - i,
    {
        assert(bodies@.take(i + 1).drop_last() == bodies@.take(i as int));
        let (id, body) = (&bodies[i].0, &bodies[i].1);
        let before = render_pieces_styled(r, id.as_str(), body);
        let after = render_pieces_styled(r2, id.as_str(), body);
        proof {
            lemma_styled_len(r@, id@, body@);
            lemma_styled_len(r2@, id@, body@);
        }
        let ghost bv = strings_view(before@);
        let ghost av = strings_view(after@);
        let ghost head = triples_view(out@);
        let mut k: usize = 0;
        while k < body.len()
            invariant
                k <= body.len(),
                before@.len() == body@.len(),
                after@.len() == body@.len(),
                bv == strings_view(before@),
                av == strings_view(after@),
                triples_view(out@) == head + changed_in_body(id@, body@, bv, av, k as nat),
            decreases body.len() - k,
        {
            let is_ref = match &body[k] {
                Piece::Ref { .. } => true,
                Piece::Text(_) => false,
            };
            if is_ref && !str_eq(before[k].as_str(), after[k].as_str()) {
                let t = (id.clone(), before[k].clone(), after[k].clone());
                let ghost o0 = out@;
                out.push(t);
                proof {
                    lemma_triples_push(o0, t);
                }
            }
            k = k + 1;
        }
        i = i + 1;
    }
    assert(bodies@.take(bodies.len() as int) == bodies@);
    out
}

/// Without an amendment there is nothing to fix: rendering against the same revision twice
/// gives no consequential fix and no changed reference.
pub proof fn law_no_fixes_without_change(r: Seq<NodeModel>, bodies: Seq<(String, Vec<Piece>)>)
    ensures
        spec_hane_fixes(r, r, bodies) == Seq::<(Seq<char>, Seq<char>, Seq<char>)>::empty(),
        spec_changed_refs(r, r, bodies) == Seq::<(Seq<char>, Seq<char>, Seq<char>)>::empty(),
    decreases bodies.len(),
{
    if bodies.len() > 0 {
        law_no_fixes_without_change(r, bodies.drop_last());
        let (id, body) = bodies.last();
        let st = spec_render_pieces_styled(r, id@, body@);
        lemma_changed_in_body_same(id@, body@, st, body@.len());
        assert(spec_changed_refs(r, r, bodies) =~= Seq::<(Seq<char>, Seq<char>, Seq<char>)>::empty());
        assert(spec_hane_fixes(r, r, bodies) =~= Seq::<(Seq<char>, Seq<char>, Seq<char>)>::empty());
    }
}

/// The fixes of an amendment are at most one per paragraph, each changes its paragraph,
/// and undoing the amendment gives the same fixes with before and after swapped.
pub proof fn law_hane_fixes_undo(r: Seq<NodeModel>, r2: Seq<NodeModel>, bodies: Seq<(String, Vec<Piece>)>)
    ensures
        spec_hane_fixes(r, r2, bodies).len() <= bodies.len(),
        forall|k: int| 0 <= k < spec_hane_fixes(r, r2, bodies).len()
            ==> (#[trigger] spec_hane_fixes(r, r2, bodies)[k]).1 != spec_hane_fixes(r, r2, bodies)[k].2,
        spec_hane_fixes(r2, r, bodies) == spec_hane_fixes(r, r2, bodies).map_values(
            |t: (Seq<char>, Seq<char>, Seq<char>)| (t.0, t.2, t.1),
        ),
    decreases bodies.len(),
{
    if bodies.len() > 0 {
        law_hane_fixes_undo(r, r2, bodies.drop_last());
        let f = spec_hane_fixes(r, r2, bodies);
        let f0 = spec_hane_fixes(r, r2, bodies.drop_last());
        let g = spec_hane_fixes(r2, r, bodies);
        let g0 = spec_hane_fixes(r2, r, bodies.drop_last());
        let sw = |t: (Seq<char>, Seq<char>, Seq<char>)| (t.0, t.2, t.1);
        assert forall|k: int| 0 <= k < f.len() implies (#[trigger] f[k]).1 != f[k].2 by {
            if k < f0.len() {
                assert(f[k] == f0[k]);
            }
        }
        assert(g =~= f.map_values(sw));
    }
}

/// The law of consequential fixes: none without an amendment; at most one per paragraph,
/// each changing its paragraph; and undoing the amendment gives the same fixes with before
/// and after swapped.
pub proof fn law_hane_fixes(r: Seq<NodeModel>, r2: Seq<NodeModel>, bodies: Seq<(String, Vec<Piece>)>)
    ensures
        spec_hane_fixes(r, r, bodies).len() == 0,
        spec_hane_fixes(r, r2, bodies).len() <= bodies.len(),
        forall|k: int| 0 <= k < spec_hane_fixes(r, r2, bodies).len()
            ==> (#[trigger] spec_hane_fixes(r, r2, bodies)[k]).1 != spec_hane_fixes(r, r2, bodies)[k].2,
        spec_hane_fixes(r2, r, bodies) == spec_hane_fixes(r, r2, bodies).map_values(
            |t: (Seq<char>, Seq<char>, Seq<char>)| (t.0, t.2, t.1),
        ),
{
    law_no_fixes_without_change(r, bodies);
    law_hane_fixes_undo(r, r2, bodies);
}

proof fn lemma_changed_in_body_same(id: Seq<char>, body: Seq<Piece>, st: Seq<Seq<char>>, n: nat)
    ensures
        changed_in_body(id, body, st, st, n) == Seq::<(Seq<char>, Seq<char>, Seq<char>)>::empty(),
    decreases n,
{
    if n > 0 {
        lemma_changed_in_body_same(id, body, st, (n - 1) as nat);
        assert(changed_in_body(id, body, st, st, n) =~= Seq::<(Seq<char>, Seq<char>, Seq<char>)>::empty());
    }
}

} // verus!
