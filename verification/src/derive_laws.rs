//! What the derived operations do: applied to the drafted revision, they give the
//! enforced one (as rendered), whenever the pairing keeps the order of the paragraphs and
//! the first enforced paragraph has a partner.

use vstd::prelude::*;
use crate::derive::{deletions, new_id, ops_from, spec_derive_unit, best_near, hi_bound, lo_bound, no_pairs, pair, pairing, pairing_ok, pass_near, pass_same, text_partner, Pairing};
use crate::numeral::spec_decimal;
use crate::ident::{
    has_id, is_first, lemma_first_pos_is, op_edit, op_key, IdentOpModel, NodeModel, spec_apply_op, spec_apply_unit, spec_render,
    spec_wf,
};
use crate::ident_laws::law_apply_unit_concat;

verus! {

/// The drafted paragraph `j` is taken exactly when it is some enforced paragraph's partner.
pub open spec fn consistent(p: Pairing, n_e: nat, n_d: nat) -> bool {
    &&& pairing_ok(p, n_e, n_d)
    &&& forall|j: int| 0 <= j < n_d ==> (#[trigger] p.1[j] <==> exists|i: int| 0 <= i < n_e && p.0[i] == Some(j as usize))
}

proof fn lemma_text_partner_free(d: Seq<NodeModel>, used: Seq<bool>, en: NodeModel, same_art: bool, j: int)
    requires
        0 <= j,
        d.len() <= usize::MAX,
        used.len() == d.len(),
    ensures
        text_partner(d, used, en, same_art, j) matches Some(x) ==> x < d.len() && !used[x as int],
    decreases d.len() - j,
{
    if j < d.len() && !(!used[j] && (!same_art || d[j].art == en.art) && d[j].text == en.text) {
        lemma_text_partner_free(d, used, en, same_art, j + 1);
    }
}

proof fn lemma_best_near_free(d: Seq<NodeModel>, used: Seq<bool>, en: NodeModel, lo: int, j: int)
    requires
        0 <= lo,
        d.len() <= usize::MAX,
        used.len() == d.len(),
    ensures
        best_near(d, used, en, lo, j) matches Some(x) ==> lo <= x < j && x < d.len() && !used[x as int],
    decreases j - lo,
{
    if j > lo {
        lemma_best_near_free(d, used, en, lo, j - 1);
    }
}

proof fn lemma_pair_consistent(p: Pairing, n_e: nat, n_d: nat, ei: int, di: int)
    requires
        consistent(p, n_e, n_d),
        0 <= ei < n_e,
        0 <= di < n_d,
        n_d <= usize::MAX,
        p.0[ei] is None,
        !p.1[di],
    ensures
        consistent(pair(p, ei, di), n_e, n_d),
{
    let q = pair(p, ei, di);
    assert forall|j: int| 0 <= j < n_d implies (#[trigger] q.1[j] <==> exists|i: int| 0 <= i < n_e && q.0[i] == Some(j as usize)) by {
        if j == di {
            assert(q.0[ei] == Some(j as usize));
        } else {
            if q.1[j] {
                let i = choose|i: int| 0 <= i < n_e && p.0[i] == Some(j as usize);
                assert(q.0[i] == Some(j as usize));
            }
            if exists|i: int| 0 <= i < n_e && q.0[i] == Some(j as usize) {
                let i = choose|i: int| 0 <= i < n_e && q.0[i] == Some(j as usize);
                assert(i != ei);
                assert(p.0[i] == Some(j as usize));
            }
        }
    }
}

proof fn lemma_pass_same_consistent(d: Seq<NodeModel>, e: Seq<NodeModel>, same_art: bool, p0: Pairing, k: int)
    requires
        consistent(p0, e.len(), d.len()),
        d.len() <= usize::MAX,
        k <= e.len(),
    ensures
        consistent(pass_same(d, e, same_art, p0, k), e.len(), d.len()),
    decreases k,
{
    if k > 0 {
        lemma_pass_same_consistent(d, e, same_art, p0, k - 1);
        let p = pass_same(d, e, same_art, p0, k - 1);
        if p.0[k - 1] is None {
            lemma_text_partner_free(d, p.1, e[k - 1], same_art, 0);
            match text_partner(d, p.1, e[k - 1], same_art, 0) {
                Some(di) => lemma_pair_consistent(p, e.len(), d.len(), k - 1, di as int),
                None => {},
            }
        }
    }
}

proof fn lemma_pass_near_consistent(d: Seq<NodeModel>, e: Seq<NodeModel>, p0: Pairing, k: int)
    requires
        consistent(p0, e.len(), d.len()),
        d.len() <= usize::MAX,
        k <= e.len(),
    ensures
        consistent(pass_near(d, e, p0, k), e.len(), d.len()),
    decreases k,
{
    if k > 0 {
        lemma_pass_near_consistent(d, e, p0, k - 1);
        let p = pass_near(d, e, p0, k - 1);
        let ei = k - 1;
        if p.0[ei] is None {
            let lo = lo_bound(p.0, ei);
            let hi = hi_bound(p.0, ei + 1, d.len() as int);
            lemma_lo_bound_nonneg(p.0, ei);
            lemma_best_near_free(d, p.1, e[ei], lo, hi);
            match best_near(d, p.1, e[ei], lo, hi) {
                Some(di) => lemma_pair_consistent(p, e.len(), d.len(), ei, di as int),
                None => {},
            }
        }
    }
}

proof fn lemma_lo_bound_nonneg(m: Seq<Option<usize>>, k: int)
    ensures
        lo_bound(m, k) >= 0,
    decreases k,
{
    if k > 0 && m[k - 1] is None {
        lemma_lo_bound_nonneg(m, k - 1);
    }
}

/// The pairing is consistent.
pub proof fn lemma_pairing_consistent(d: Seq<NodeModel>, e: Seq<NodeModel>)
    requires
        d.len() <= usize::MAX,
    ensures
        consistent(pairing(d, e), e.len(), d.len()),
{
    let p0 = no_pairs(e.len(), d.len());
    assert(consistent(p0, e.len(), d.len()));
    let p1 = pass_same(d, e, true, p0, e.len() as int);
    lemma_pass_same_consistent(d, e, true, p0, e.len() as int);
    let p2 = pass_near(d, e, p1, e.len() as int);
    lemma_pass_near_consistent(d, e, p1, e.len() as int);
    lemma_pass_same_consistent(d, e, false, p2, e.len() as int);
}

/// The partners keep the order of the enforced paragraphs.
pub open spec fn monotone(m: Seq<Option<usize>>) -> bool {
    forall|i1: int, i2: int|
        0 <= i1 < i2 < m.len() ==> (#[trigger] m[i1] matches Some(a) ==> (#[trigger] m[i2] matches Some(b) ==> a < b))
}

proof fn lemma_lo_bound(m: Seq<Option<usize>>, n_d: nat, ei: int)
    requires
        0 <= ei <= m.len(),
        monotone(m),
        forall|i: int| 0 <= i < m.len() ==> (#[trigger] m[i] matches Some(x) ==> x < n_d),
    ensures
        0 <= lo_bound(m, ei) <= n_d,
        forall|i: int| 0 <= i < ei ==> (#[trigger] m[i] matches Some(b) ==> b < lo_bound(m, ei)),
        forall|i: int| ei <= i < m.len() ==> (#[trigger] m[i] matches Some(b) ==> b >= lo_bound(m, ei)),
    decreases ei,
{
    if ei > 0 {
        lemma_lo_bound(m, n_d, ei - 1);
        match m[ei - 1] {
            Some(x) => {
                assert forall|i: int| 0 <= i < ei implies (#[trigger] m[i] matches Some(b) ==> b < lo_bound(m, ei)) by {
                    if i < ei - 1 {
                        assert(m[i] matches Some(a) ==> (m[ei - 1] matches Some(b) ==> a < b));
                    }
                }
                assert forall|i: int| ei <= i < m.len() implies (#[trigger] m[i] matches Some(b) ==> b >= lo_bound(m, ei)) by {
                    assert(m[ei - 1] matches Some(a) ==> (m[i] matches Some(b) ==> a < b));
                }
            },
            None => {},
        }
    }
}

/// The drafted paragraph with id `id` from `j` on is not taken.
pub open spec fn gone_from(d: Seq<NodeModel>, used: Seq<bool>, j: int, id: Seq<char>) -> bool {
    exists|t: int| j <= t < d.len() && !used[t] && #[trigger] d[t].id == id
}

/// The paragraphs of `x` without those that are untaken drafted paragraphs from `j` on.
pub open spec fn strip_from(x: Seq<NodeModel>, d: Seq<NodeModel>, used: Seq<bool>, j: int) -> Seq<NodeModel>
    decreases x.len(),
{
    if x.len() == 0 {
        x
    } else {
        strip_from(x.drop_last(), d, used, j) + if gone_from(d, used, j, x.last().id) {
            Seq::empty()
        } else {
            seq![x.last()]
        }
    }
}

proof fn lemma_strip_add(a: Seq<NodeModel>, b: Seq<NodeModel>, d: Seq<NodeModel>, used: Seq<bool>, j: int)
    ensures
        strip_from(a + b, d, used, j) == strip_from(a, d, used, j) + strip_from(b, d, used, j),
    decreases b.len(),
{
    if b.len() == 0 {
        assert(a + b == a);
        assert(strip_from(b, d, used, j) == Seq::<NodeModel>::empty());
    } else {
        assert((a + b).drop_last() == a + b.drop_last());
        assert((a + b).last() == b.last());
        lemma_strip_add(a, b.drop_last(), d, used, j);
    }
}

proof fn lemma_strip_one(n: NodeModel, d: Seq<NodeModel>, used: Seq<bool>, j: int)
    ensures
        strip_from(seq![n], d, used, j) == if gone_from(d, used, j, n.id) { Seq::<NodeModel>::empty() } else { seq![n] },
{
    assert(seq![n].drop_last() == Seq::<NodeModel>::empty());
    assert(strip_from(Seq::<NodeModel>::empty(), d, used, j) == Seq::<NodeModel>::empty());
}

proof fn lemma_strip_all_gone(x: Seq<NodeModel>, d: Seq<NodeModel>, used: Seq<bool>, j: int)
    requires
        forall|i: int| 0 <= i < x.len() ==> gone_from(d, used, j, (#[trigger] x[i]).id),
    ensures
        strip_from(x, d, used, j) == Seq::<NodeModel>::empty(),
    decreases x.len(),
{
    if x.len() > 0 {
        assert(x.last() == x[x.len() - 1]);
        lemma_strip_all_gone(x.drop_last(), d, used, j);
    }
}

proof fn lemma_strip_agree(x: Seq<NodeModel>, d: Seq<NodeModel>, used: Seq<bool>, j1: int, j2: int)
    requires
        forall|i: int| 0 <= i < x.len() ==> (gone_from(d, used, j1, (#[trigger] x[i]).id) == gone_from(d, used, j2, x[i].id)),
    ensures
        strip_from(x, d, used, j1) == strip_from(x, d, used, j2),
    decreases x.len(),
{
    if x.len() > 0 {
        assert(x.last() == x[x.len() - 1]);
        lemma_strip_agree(x.drop_last(), d, used, j1, j2);
    }
}

proof fn lemma_render_add(a: Seq<NodeModel>, b: Seq<NodeModel>)
    ensures
        spec_render(a + b) == spec_render(a) + spec_render(b),
{
    assert(spec_render(a + b) =~= spec_render(a) + spec_render(b));
}

/// The ids that the derivation gives new paragraphs start with `{amend}/art:`.
pub open spec fn is_new(amend: Seq<char>, id: Seq<char>) -> bool {
    id.len() >= amend.len() + 5 && id.take(amend.len() + 5int) == amend + "/art:"@
}

proof fn lemma_new_id_is_new(amend: Seq<char>, art: Seq<char>, k: nat)
    ensures
        is_new(amend, new_id(amend, art, k)),
{
    reveal_strlit("/art:");
    let s = new_id(amend, art, k);
    assert(s.take(amend.len() + 5int) =~= amend + "/art:"@);
}

proof fn lemma_new_id_injective(amend: Seq<char>, a1: Seq<char>, k1: nat, a2: Seq<char>, k2: nat)
    requires
        new_id(amend, a1, k1) == new_id(amend, a2, k2),
    ensures
        k1 == k2,
{
    reveal_strlit("/new:");
    let s = new_id(amend, a1, k1);
    let d1 = spec_decimal(k1);
    let d2 = spec_decimal(k2);
    crate::numeral::lemma_decimal_roundtrip(k1);
    crate::numeral::lemma_decimal_roundtrip(k2);
    let p1 = amend + "/art:"@ + a1 + "/new:"@;
    let p2 = amend + "/art:"@ + a2 + "/new:"@;
    assert(s == p1 + d1);
    assert(s == p2 + d2);
    assert(p1.last() == ':');
    assert(p2.last() == ':');
    assert(s[s.len() - d1.len() - 1] == ':') by {
        assert(s[p1.len() - 1] == p1[p1.len() - 1]);
    }
    assert(s[s.len() - d2.len() - 1] == ':') by {
        assert(s[p2.len() - 1] == p2[p2.len() - 1]);
    }
    if d1.len() < d2.len() {
        let q = s.len() - d1.len() - 1;
        assert(s[q] == d2[q - p2.len()]);
        assert(crate::numeral::is_ascii_digit(d2[q - p2.len()]));
    }
    if d2.len() < d1.len() {
        let q = s.len() - d2.len() - 1;
        assert(s[q] == d1[q - p1.len()]);
        assert(crate::numeral::is_ascii_digit(d1[q - p1.len()]));
    }
    assert(d1 =~= d2) by {
        assert forall|i: int| 0 <= i < d1.len() implies d1[i] == d2[i] by {
            assert(s[p1.len() + i] == d1[i]);
            assert(s[p2.len() + i] == d2[i]);
        }
    }
}

/// An operation applied at the first node with its key.
proof fn lemma_apply_at(r: Seq<NodeModel>, op: IdentOpModel, i: int)
    requires
        spec_wf(r),
        0 <= i < r.len(),
        r[i].id == op_key(op),
    ensures
        spec_apply_unit(r, seq![op]) == Some(r.take(i) + op_edit(op, r[i]) + r.skip(i + 1)),
{
    assert(is_first(r, op_key(op), i));
    lemma_first_pos_is(r, op_key(op), i);
    let r2 = r.take(i) + op_edit(op, r[i]) + r.skip(i + 1);
    assert(spec_apply_op(r, op) == Some(r2));
    assert(seq![op].drop_first() == Seq::<IdentOpModel>::empty());
    assert(spec_apply_unit(r2, Seq::<IdentOpModel>::empty()) == Some(r2));
}

/// The assumptions under which the derived operations reproduce the enforced revision.
pub open spec fn derivable(d: Seq<NodeModel>, e: Seq<NodeModel>, amend: Seq<char>) -> bool {
    &&& d.len() <= usize::MAX
    &&& spec_wf(d)
    &&& forall|t: int| 0 <= t < d.len() ==> !is_new(amend, (#[trigger] d[t]).id)
    &&& monotone(pairing(d, e).0)
    &&& e.len() > 0 ==> pairing(d, e).0[0] is Some
}

/// The id is that of a drafted paragraph before `s`, or one of the first `k` new ids.
pub open spec fn born(d: Seq<NodeModel>, amend: Seq<char>, s: int, k: nat, id: Seq<char>) -> bool {
    ||| exists|t: int| 0 <= t < s && #[trigger] d[t].id == id
    ||| exists|a: Seq<char>, k2: nat| 1 <= k2 <= k && id == #[trigger] new_id(amend, a, k2)
}

/// The state after the operations of the enforced paragraphs before `ei`: the revision is `p`
/// followed by the drafted paragraphs from `s` on, untouched; `p` holds every drafted
/// paragraph before `s`, and without the untaken ones it renders as the enforced
/// paragraphs before `ei`.
pub open spec fn sim_state(
    d: Seq<NodeModel>,
    e: Seq<NodeModel>,
    amend: Seq<char>,
    p: Seq<NodeModel>,
    s: int,
    k: nat,
    ei: int,
) -> bool {
    let (m, used) = pairing(d, e);
    &&& 0 <= ei <= e.len()
    &&& 0 <= s <= d.len()
    &&& s == lo_bound(m, ei)
    &&& spec_wf(p + d.skip(s))
    &&& forall|i: int| 0 <= i < p.len() ==> born(d, amend, s, k, (#[trigger] p[i]).id)
    &&& forall|t: int| 0 <= t < s ==> has_id(p, (#[trigger] d[t]).id)
    &&& spec_render(strip_from(p, d, used, 0)) == spec_render(e.take(ei))
}

/// What the operations of a paired paragraph put in its place: its id with the enforced
/// article and text.
pub open spec fn paired_node(dn: NodeModel, en: NodeModel) -> NodeModel {
    NodeModel { art: en.art, text: en.text, ..dn }
}

/// The operations of a paired paragraph.
pub open spec fn paired_ops(dn: NodeModel, en: NodeModel) -> Seq<IdentOpModel> {
    (if dn.text != en.text {
        seq![IdentOpModel::Replace { id: dn.id, expected: dn.text, new: en.text }]
    } else {
        Seq::empty()
    }) + (if dn.art != en.art {
        seq![IdentOpModel::Renumber { id: dn.id, art: en.art }]
    } else {
        Seq::empty()
    })
}

proof fn lemma_wf_update(r: Seq<NodeModel>, i: int, x: NodeModel)
    requires
        spec_wf(r),
        0 <= i < r.len(),
        x.id == r[i].id,
    ensures
        spec_wf(r.update(i, x)),
{
    let r2 = r.update(i, x);
    assert forall|a: int, b: int| 0 <= a < b < r2.len() implies r2[a].id != r2[b].id by {
        assert(r2[a].id == r[a].id);
        assert(r2[b].id == r[b].id);
    }
}

/// The operations of a paired paragraph at position `i` of a revision with unique ids.
proof fn lemma_paired_ops_apply(r: Seq<NodeModel>, i: int, en: NodeModel)
    requires
        spec_wf(r),
        0 <= i < r.len(),
    ensures
        spec_apply_unit(r, paired_ops(r[i], en)) == Some(r.update(i, paired_node(r[i], en))),
{
    let dn = r[i];
    let rep = IdentOpModel::Replace { id: dn.id, expected: dn.text, new: en.text };
    let ren = IdentOpModel::Renumber { id: dn.id, art: en.art };
    let r1 = if dn.text != en.text { r.update(i, NodeModel { text: en.text, ..dn }) } else { r };
    if dn.text != en.text {
        lemma_apply_at(r, rep, i);
        assert(r.take(i) + op_edit(rep, r[i]) + r.skip(i + 1) =~= r1);
        lemma_wf_update(r, i, NodeModel { text: en.text, ..dn });
    } else {
        assert(spec_apply_unit(r, Seq::<IdentOpModel>::empty()) == Some(r));
    }
    let first = if dn.text != en.text { seq![rep] } else { Seq::<IdentOpModel>::empty() };
    assert(spec_apply_unit(r, first) == Some(r1));
    assert(r1[i].id == dn.id);
    let r2 = if dn.art != en.art { r1.update(i, NodeModel { art: en.art, ..r1[i] }) } else { r1 };
    let second = if dn.art != en.art { seq![ren] } else { Seq::<IdentOpModel>::empty() };
    if dn.art != en.art {
        lemma_apply_at(r1, ren, i);
        assert(r1.take(i) + op_edit(ren, r1[i]) + r1.skip(i + 1) =~= r2);
    } else {
        assert(spec_apply_unit(r1, Seq::<IdentOpModel>::empty()) == Some(r1));
    }
    assert(spec_apply_unit(r1, second) == Some(r2));
    law_apply_unit_concat(r, first, second);
    assert(paired_ops(dn, en) == first + second);
    assert(r2 =~= r.update(i, paired_node(dn, en)));
}

/// The drafted paragraphs between the partner before `ei` and the partner of `ei` are untaken.
proof fn lemma_between_untaken(d: Seq<NodeModel>, e: Seq<NodeModel>, ei: int, t: int)
    requires
        d.len() <= usize::MAX,
        monotone(pairing(d, e).0),
        0 <= ei < e.len(),
        pairing(d, e).0[ei] matches Some(di) && lo_bound(pairing(d, e).0, ei) <= t < di,
    ensures
        !pairing(d, e).1[t],
{
    let (m, used) = pairing(d, e);
    lemma_pairing_consistent(d, e);
    lemma_lo_bound(m, d.len(), ei);
    let di = m[ei]->0;
    if used[t] {
        let i = choose|i: int| 0 <= i < e.len() && m[i] == Some(t as usize);
        if i < ei {
            assert(m[i] matches Some(b) ==> b < lo_bound(m, ei));
        } else if i > ei {
            assert(m[ei] matches Some(a) ==> (m[i] matches Some(b) ==> a < b));
        }
    }
}

/// The operations of a paired enforced paragraph, from a state of the simulation.
proof fn lemma_paired_step(d: Seq<NodeModel>, e: Seq<NodeModel>, amend: Seq<char>, p: Seq<NodeModel>, s: int, k: nat, ei: int) -> (p2: Seq<NodeModel>)
    requires
        derivable(d, e, amend),
        sim_state(d, e, amend, p, s, k, ei),
        ei < e.len(),
        pairing(d, e).0[ei] is Some,
    ensures
        ({
            let di = pairing(d, e).0[ei]->0 as int;
            &&& spec_apply_unit(p + d.skip(s), paired_ops(d[di], e[ei])) == Some(p2 + d.skip(di + 1))
            &&& sim_state(d, e, amend, p2, di + 1, k, ei + 1)
            &&& p2.len() > 0
            &&& p2.last().id == d[di].id
        }),
{
    let (m, used) = pairing(d, e);
    lemma_pairing_consistent(d, e);
    lemma_lo_bound(m, d.len(), ei);
    let di = m[ei]->0 as int;
    assert(m[ei] matches Some(x) && x < d.len());
    assert(di >= s);
    let r = p + d.skip(s);
    let i0 = p.len() + (di - s);
    assert(r[i0] == d[di]);
    let en = e[ei];
    let dn2 = paired_node(d[di], en);
    lemma_paired_ops_apply(r, i0, en);
    lemma_wf_update(r, i0, dn2);
    let mid = d.subrange(s, di);
    let p2 = p + mid + seq![dn2];
    assert(r.update(i0, dn2) =~= p2 + d.skip(di + 1));
    assert(lo_bound(m, ei + 1) == di + 1);
    // born
    assert forall|i: int| 0 <= i < p2.len() implies born(d, amend, di + 1, k, (#[trigger] p2[i]).id) by {
        if i < p.len() {
            assert(p2[i] == p[i]);
            assert(born(d, amend, s, k, p[i].id));
            if exists|t: int| 0 <= t < s && #[trigger] d[t].id == p[i].id {
                let t = choose|t: int| 0 <= t < s && #[trigger] d[t].id == p[i].id;
                assert(0 <= t < di + 1 && d[t].id == p2[i].id);
            }
        } else if i < p.len() + mid.len() {
            let t = s + (i - p.len());
            assert(p2[i] == d[t]);
        } else {
            assert(p2[i] == dn2);
            assert(d[di].id == p2[i].id);
        }
    }
    // every drafted paragraph before di + 1 is there
    assert forall|t: int| 0 <= t < di + 1 implies has_id(p2, (#[trigger] d[t]).id) by {
        if t < s {
            assert(has_id(p, d[t].id));
            let i = choose|i: int| 0 <= i < p.len() && p[i].id == d[t].id;
            assert(p2[i] == p[i]);
        } else if t < di {
            assert(p2[p.len() + (t - s)] == d[t]);
        } else {
            assert(p2[p2.len() - 1] == dn2);
        }
    }
    // stripping: the paragraphs skipped over are untaken, the paired one is taken
    lemma_strip_add(p + mid, seq![dn2], d, used, 0);
    lemma_strip_add(p, mid, d, used, 0);
    assert forall|i: int| 0 <= i < mid.len() implies gone_from(d, used, 0, (#[trigger] mid[i]).id) by {
        let t = s + i;
        lemma_between_untaken(d, e, ei, t);
        assert(mid[i] == d[t]);
    }
    lemma_strip_all_gone(mid, d, used, 0);
    lemma_strip_one(dn2, d, used, 0);
    assert(!gone_from(d, used, 0, dn2.id)) by {
        if gone_from(d, used, 0, dn2.id) {
            let t = choose|t: int| 0 <= t < d.len() && !used[t] && #[trigger] d[t].id == dn2.id;
            assert(t == di);
            assert(used[di]) by {
                assert(m[ei] == Some(di as usize));
            }
        }
    }
    assert(strip_from(p2, d, used, 0) == strip_from(p, d, used, 0) + seq![dn2]);
    lemma_render_add(strip_from(p, d, used, 0), seq![dn2]);
    assert(spec_render(seq![dn2]) =~= seq![(en.art, en.text)]);
    assert(e.take(ei + 1) =~= e.take(ei).push(en));
    lemma_render_add(e.take(ei), seq![en]);
    assert(e.take(ei).push(en) =~= e.take(ei) + seq![en]);
    assert(spec_render(seq![en]) =~= seq![(en.art, en.text)]);
    p2
}

/// The new paragraph of the enforced paragraph `en`, the `k`-th new one.
pub open spec fn new_node(amend: Seq<char>, en: NodeModel, k: nat) -> NodeModel {
    NodeModel { id: new_id(amend, en.art, k), art: en.art, text: en.text, conflicts: Seq::empty() }
}

proof fn lemma_wf_insert(x: Seq<NodeModel>, y: Seq<NodeModel>, n: NodeModel)
    requires
        spec_wf(x + y),
        forall|i: int| 0 <= i < x.len() ==> (#[trigger] x[i]).id != n.id,
        forall|i: int| 0 <= i < y.len() ==> (#[trigger] y[i]).id != n.id,
    ensures
        spec_wf(x.push(n) + y),
{
    let r = x + y;
    let r2 = x.push(n) + y;
    assert forall|a: int, b: int| 0 <= a < b < r2.len() implies r2[a].id != r2[b].id by {
        let ra = if a < x.len() { a } else { a - 1 };
        let rb = if b < x.len() { b } else { b - 1 };
        if a == x.len() {
            assert(r2[a] == n);
            assert(r2[b] == y[b - x.len() - 1]);
        } else if b == x.len() {
            assert(r2[b] == n);
            assert(r2[a] == x[a]);
        } else {
            assert(r2[a] == r[ra]);
            assert(r2[b] == r[rb]);
        }
    }
}

/// The insertion of an unpaired enforced paragraph, from a state of the simulation.
proof fn lemma_unpaired_step(d: Seq<NodeModel>, e: Seq<NodeModel>, amend: Seq<char>, p: Seq<NodeModel>, s: int, k: nat, ei: int)
    requires
        derivable(d, e, amend),
        sim_state(d, e, amend, p, s, k, ei),
        ei < e.len(),
        pairing(d, e).0[ei] is None,
        p.len() > 0,
    ensures
        ({
            let n = new_node(amend, e[ei], k + 1);
            let op = IdentOpModel::InsertAfter { anchor: p.last().id, new_id: n.id, art: n.art, text: n.text };
            &&& spec_apply_unit(p + d.skip(s), seq![op]) == Some(p.push(n) + d.skip(s))
            &&& sim_state(d, e, amend, p.push(n), s, k + 1, ei + 1)
        }),
{
    let (m, used) = pairing(d, e);
    let en = e[ei];
    let n = new_node(amend, en, k + 1);
    let op = IdentOpModel::InsertAfter { anchor: p.last().id, new_id: n.id, art: n.art, text: n.text };
    let r = p + d.skip(s);
    let i0 = p.len() - 1;
    assert(r[i0] == p.last());
    lemma_apply_at(r, op, i0);
    assert(r.take(i0) + op_edit(op, r[i0]) + r.skip(i0 + 1) =~= p.push(n) + d.skip(s));
    lemma_new_id_is_new(amend, en.art, k + 1);
    let p2 = p.push(n);
    assert forall|i: int| 0 <= i < p.len() implies (#[trigger] p[i]).id != n.id by {
        assert(born(d, amend, s, k, p[i].id));
        if exists|t: int| 0 <= t < s && #[trigger] d[t].id == p[i].id {
            let t = choose|t: int| 0 <= t < s && #[trigger] d[t].id == p[i].id;
            assert(!is_new(amend, d[t].id));
        } else {
            let (a, k2) = choose|a: Seq<char>, k2: nat| 1 <= k2 <= k && p[i].id == #[trigger] new_id(amend, a, k2);
            if p[i].id == n.id {
                lemma_new_id_injective(amend, a, k2, en.art, k + 1);
            }
        }
    }
    assert forall|i: int| 0 <= i < d.skip(s).len() implies (#[trigger] d.skip(s)[i]).id != n.id by {
        assert(d.skip(s)[i] == d[s + i]);
        assert(!is_new(amend, d[s + i].id));
    }
    lemma_wf_insert(p, d.skip(s), n);
    assert(lo_bound(m, ei + 1) == lo_bound(m, ei));
    assert forall|i: int| 0 <= i < p2.len() implies born(d, amend, s, k + 1, (#[trigger] p2[i]).id) by {
        if i < p.len() {
            assert(p2[i] == p[i]);
            assert(born(d, amend, s, k, p[i].id));
            if !(exists|t: int| 0 <= t < s && #[trigger] d[t].id == p[i].id) {
                let (a, k2) = choose|a: Seq<char>, k2: nat| 1 <= k2 <= k && p[i].id == #[trigger] new_id(amend, a, k2);
                assert(1 <= k2 <= k + 1 && p2[i].id == new_id(amend, a, k2));
            }
        } else {
            assert(p2[i] == n);
            assert(1 <= k + 1 <= k + 1 && p2[i].id == new_id(amend, en.art, (k + 1) as nat));
        }
    }
    assert forall|t: int| 0 <= t < s implies has_id(p2, (#[trigger] d[t]).id) by {
        assert(has_id(p, d[t].id));
        let i = choose|i: int| 0 <= i < p.len() && p[i].id == d[t].id;
        assert(p2[i] == p[i]);
    }
    assert(p2 == p + seq![n]);
    lemma_strip_add(p, seq![n], d, used, 0);
    lemma_strip_one(n, d, used, 0);
    assert(!gone_from(d, used, 0, n.id)) by {
        if gone_from(d, used, 0, n.id) {
            let t = choose|t: int| 0 <= t < d.len() && !used[t] && #[trigger] d[t].id == n.id;
            assert(!is_new(amend, d[t].id));
        }
    }
    lemma_render_add(strip_from(p, d, used, 0), seq![n]);
    assert(spec_render(seq![n]) =~= seq![(en.art, en.text)]);
    assert(e.take(ei + 1) =~= e.take(ei) + seq![en]);
    lemma_render_add(e.take(ei), seq![en]);
    assert(spec_render(seq![en]) =~= seq![(en.art, en.text)]);
}

/// The operations of the enforced paragraphs from `ei` on, from a state of the simulation.
proof fn lemma_sim(d: Seq<NodeModel>, e: Seq<NodeModel>, amend: Seq<char>, p: Seq<NodeModel>, s: int, k: nat, ei: int) -> (p_end: Seq<NodeModel>)
    requires
        derivable(d, e, amend),
        sim_state(d, e, amend, p, s, k, ei),
        p.len() > 0,
    ensures
        ({
            let m = pairing(d, e).0;
            let s_end = lo_bound(m, e.len() as int);
            &&& spec_apply_unit(p + d.skip(s), ops_from(d, e, m, amend, ei, Some(p.last().id), k))
                == Some(p_end + d.skip(s_end))
            &&& exists|k2: nat| sim_state(d, e, amend, p_end, s_end, k2, e.len() as int)
        }),
    decreases e.len() - ei,
{
    let m = pairing(d, e).0;
    let r = p + d.skip(s);
    if ei >= e.len() {
        assert(ei == e.len());
        assert(spec_apply_unit(r, Seq::<IdentOpModel>::empty()) == Some(r));
        p
    } else {
        let en = e[ei];
        match m[ei] {
            Some(di) => {
                let p2 = lemma_paired_step(d, e, amend, p, s, k, ei);
                let rest = ops_from(d, e, m, amend, ei + 1, Some(d[di as int].id), k);
                assert(ops_from(d, e, m, amend, ei, Some(p.last().id), k) == paired_ops(d[di as int], en) + rest);
                law_apply_unit_concat(r, paired_ops(d[di as int], en), rest);
                lemma_sim(d, e, amend, p2, di + 1, k, ei + 1)
            },
            None => {
                lemma_unpaired_step(d, e, amend, p, s, k, ei);
                let n = new_node(amend, en, k + 1);
                let op = IdentOpModel::InsertAfter { anchor: p.last().id, new_id: n.id, art: n.art, text: n.text };
                let rest = ops_from(d, e, m, amend, ei + 1, Some(n.id), k + 1);
                assert(ops_from(d, e, m, amend, ei, Some(p.last().id), k) == seq![op] + rest);
                law_apply_unit_concat(r, seq![op], rest);
                assert(p.push(n).last() == n);
                lemma_sim(d, e, amend, p.push(n), s, k + 1, ei + 1)
            },
        }
    }
}

proof fn lemma_strip_none(x: Seq<NodeModel>, d: Seq<NodeModel>, used: Seq<bool>, j: int)
    requires
        forall|i: int| 0 <= i < x.len() ==> !gone_from(d, used, j, (#[trigger] x[i]).id),
    ensures
        strip_from(x, d, used, j) == x,
    decreases x.len(),
{
    if x.len() > 0 {
        assert(x.last() == x[x.len() - 1]);
        lemma_strip_none(x.drop_last(), d, used, j);
        assert(x.drop_last().push(x.last()) == x);
    }
}

/// The deletions remove the untaken drafted paragraphs from `j` on.
proof fn lemma_deletions(x: Seq<NodeModel>, d: Seq<NodeModel>, used: Seq<bool>, j: int)
    requires
        spec_wf(x),
        spec_wf(d),
        used.len() == d.len(),
        0 <= j <= d.len(),
        forall|t: int| j <= t < d.len() && !used[t] ==> has_id(x, (#[trigger] d[t]).id),
    ensures
        spec_apply_unit(x, deletions(d, used, j)) == Some(strip_from(x, d, used, j)),
    decreases d.len() - j,
{
    if j == d.len() {
        assert(deletions(d, used, j) == Seq::<IdentOpModel>::empty());
        assert(spec_apply_unit(x, Seq::<IdentOpModel>::empty()) == Some(x));
        lemma_strip_none(x, d, used, j);
    } else if used[j] {
        assert(deletions(d, used, j) =~= deletions(d, used, j + 1));
        lemma_deletions(x, d, used, j + 1);
        assert forall|i: int| 0 <= i < x.len() implies (gone_from(d, used, j, (#[trigger] x[i]).id) == gone_from(d, used, j + 1, x[i].id)) by {
            if gone_from(d, used, j, x[i].id) {
                let t = choose|t: int| j <= t < d.len() && !used[t] && #[trigger] d[t].id == x[i].id;
                assert(t != j);
            }
        }
        lemma_strip_agree(x, d, used, j, j + 1);
    } else {
        let op = IdentOpModel::Delete { id: d[j].id };
        assert(deletions(d, used, j) == seq![op] + deletions(d, used, j + 1));
        assert(has_id(x, d[j].id));
        let i = choose|i: int| 0 <= i < x.len() && x[i].id == d[j].id;
        lemma_apply_at(x, op, i);
        let x2 = x.take(i) + x.skip(i + 1);
        assert(x.take(i) + op_edit(op, x[i]) + x.skip(i + 1) =~= x2);
        assert(spec_wf(x2)) by {
            assert forall|a: int, b: int| 0 <= a < b < x2.len() implies x2[a].id != x2[b].id by {
                let xa = if a < i { a } else { a + 1 };
                let xb = if b < i { b } else { b + 1 };
                assert(x2[a] == x[xa]);
                assert(x2[b] == x[xb]);
            }
        }
        assert forall|t: int| j + 1 <= t < d.len() && !used[t] implies has_id(x2, (#[trigger] d[t]).id) by {
            assert(has_id(x, d[t].id));
            let q = choose|q: int| 0 <= q < x.len() && x[q].id == d[t].id;
            assert(d[t].id != d[j].id);
            assert(q != i);
            if q < i {
                assert(x2[q] == x[q]);
            } else {
                assert(x2[q - 1] == x[q]);
            }
        }
        lemma_deletions(x2, d, used, j + 1);
        law_apply_unit_concat(x, seq![op], deletions(d, used, j + 1));
        // strip_from(x, j) == strip_from(x2, j + 1)
        let a = x.take(i);
        let b = x.skip(i + 1);
        assert(x =~= a + seq![x[i]] + b);
        lemma_strip_add(a + seq![x[i]], b, d, used, j);
        lemma_strip_add(a, seq![x[i]], d, used, j);
        lemma_strip_one(x[i], d, used, j);
        assert(gone_from(d, used, j, x[i].id)) by {
            assert(d[j].id == x[i].id);
        }
        lemma_strip_add(a, b, d, used, j + 1);
        assert forall|q: int| 0 <= q < a.len() implies (gone_from(d, used, j, (#[trigger] a[q]).id) == gone_from(d, used, j + 1, a[q].id)) by {
            assert(a[q] == x[q]);
            assert(x[q].id != x[i].id);
            if gone_from(d, used, j, a[q].id) {
                let t = choose|t: int| j <= t < d.len() && !used[t] && #[trigger] d[t].id == a[q].id;
                assert(t != j);
            }
        }
        assert forall|q: int| 0 <= q < b.len() implies (gone_from(d, used, j, (#[trigger] b[q]).id) == gone_from(d, used, j + 1, b[q].id)) by {
            assert(b[q] == x[i + 1 + q]);
            assert(x[i + 1 + q].id != x[i].id);
            if gone_from(d, used, j, b[q].id) {
                let t = choose|t: int| j <= t < d.len() && !used[t] && #[trigger] d[t].id == b[q].id;
                assert(t != j);
            }
        }
        lemma_strip_agree(a, d, used, j, j + 1);
        lemma_strip_agree(b, d, used, j, j + 1);
    }
}

/// The derived operations, applied to the drafted revision, give the enforced one as
/// rendered, provided the drafted ids are unique and do not look like the ids the
/// derivation gives new paragraphs, the partners keep the order of the enforced paragraphs,
/// and the first enforced paragraph has a partner.
pub proof fn law_derived_unit_reproduces(d: Seq<NodeModel>, e: Seq<NodeModel>, amend: Seq<char>)
    requires
        derivable(d, e, amend),
    ensures
        spec_apply_unit(d, spec_derive_unit(d, e, amend)) matches Some(r) && spec_render(r) == spec_render(e),
{
    let (m, used) = pairing(d, e);
    lemma_pairing_consistent(d, e);
    let dels = deletions(d, used, 0);
    let s_end = lo_bound(m, e.len() as int);
    lemma_lo_bound(m, d.len(), e.len() as int);
    let ops = ops_from(d, e, m, amend, 0, None, 0);
    law_apply_unit_concat(d, ops, dels);
    // the state before the deletions
    let x: Seq<NodeModel> = if e.len() == 0 {
        assert(ops == Seq::<IdentOpModel>::empty());
        assert(spec_apply_unit(d, ops) == Some(d));
        assert(d.skip(0) =~= d);
        d
    } else {
        let p0 = Seq::<NodeModel>::empty();
        assert(p0 + d.skip(0) =~= d);
        assert(strip_from(p0, d, used, 0) == p0);
        assert(e.take(0) =~= Seq::<NodeModel>::empty());
        assert(spec_render(p0) =~= spec_render(e.take(0)));
        assert(sim_state(d, e, amend, p0, 0, 0, 0));
        let d0 = m[0]->0 as int;
        let p1 = lemma_paired_step(d, e, amend, p0, 0, 0, 0);
        let rest = ops_from(d, e, m, amend, 1, Some(d[d0].id), 0);
        assert(ops == paired_ops(d[d0], e[0]) + rest);
        law_apply_unit_concat(d, paired_ops(d[d0], e[0]), rest);
        let p_end = lemma_sim(d, e, amend, p1, d0 + 1, 0, 1);
        p_end + d.skip(s_end)
    };
    assert(spec_apply_unit(d, ops) == Some(x));
    // every taken drafted paragraph is a partner, all before s_end
    assert forall|t: int| s_end <= t < d.len() implies !(#[trigger] used[t]) by {
        if used[t] {
            let i = choose|i: int| 0 <= i < e.len() && m[i] == Some(t as usize);
            assert(m[i] matches Some(b) ==> b < s_end);
        }
    }
    if e.len() == 0 {
        assert(s_end == 0);
        assert forall|t: int| 0 <= t < d.len() && !used[t] implies has_id(x, (#[trigger] d[t]).id) by {
            assert(x[t] == d[t]);
        }
        lemma_deletions(x, d, used, 0);
        assert forall|i: int| 0 <= i < x.len() implies gone_from(d, used, 0, (#[trigger] x[i]).id) by {
            assert(!used[i]);
        }
        lemma_strip_all_gone(x, d, used, 0);
        assert(spec_render(strip_from(x, d, used, 0)) =~= spec_render(e));
    } else {
        let d0 = m[0]->0 as int;
        let p1 = lemma_paired_step(d, e, amend, Seq::<NodeModel>::empty(), 0, 0, 0);
        let p_end = lemma_sim(d, e, amend, p1, d0 + 1, 0, 1);
        let k2 = choose|k2: nat| sim_state(d, e, amend, p_end, s_end, k2, e.len() as int);
        let tail = d.skip(s_end);
        assert forall|t: int| 0 <= t < d.len() && !used[t] implies has_id(x, (#[trigger] d[t]).id) by {
            if t < s_end {
                assert(has_id(p_end, d[t].id));
                let i = choose|i: int| 0 <= i < p_end.len() && p_end[i].id == d[t].id;
                assert(x[i] == p_end[i]);
            } else {
                assert(x[p_end.len() + (t - s_end)] == d[t]);
            }
        }
        lemma_deletions(x, d, used, 0);
        lemma_strip_add(p_end, tail, d, used, 0);
        assert forall|i: int| 0 <= i < tail.len() implies gone_from(d, used, 0, (#[trigger] tail[i]).id) by {
            assert(tail[i] == d[s_end + i]);
            assert(!used[s_end + i]);
        }
        lemma_strip_all_gone(tail, d, used, 0);
        assert(strip_from(x, d, used, 0) =~= strip_from(p_end, d, used, 0));
        assert(e.take(e.len() as int) =~= e);
    }
}

} // verus!

verus! {

proof fn lemma_hi_bound(m: Seq<Option<usize>>, k: int, n_d: int)
    requires
        0 <= k,
        monotone(m),
        forall|i: int| 0 <= i < m.len() ==> (#[trigger] m[i] matches Some(x) ==> x < n_d),
    ensures
        forall|i: int| k <= i < m.len() ==> (#[trigger] m[i] matches Some(b) ==> hi_bound(m, k, n_d) <= b),
    decreases m.len() - k,
{
    if k < m.len() {
        lemma_hi_bound(m, k + 1, n_d);
        match m[k] {
            Some(x) => {
                assert forall|i: int| k <= i < m.len() implies (#[trigger] m[i] matches Some(b) ==> hi_bound(m, k, n_d) <= b) by {
                    if i > k {
                        assert(m[k] matches Some(a) ==> (m[i] matches Some(b) ==> a < b));
                    }
                }
            },
            None => {},
        }
    }
}

/// The near pass keeps the pairs it is given and the order of the partners.
proof fn lemma_pass_near_monotone(d: Seq<NodeModel>, e: Seq<NodeModel>, p0: Pairing, k: int)
    requires
        consistent(p0, e.len(), d.len()),
        monotone(p0.0),
        d.len() <= usize::MAX,
        k <= e.len(),
    ensures
        monotone(pass_near(d, e, p0, k).0),
        forall|i: int| 0 <= i < e.len() && #[trigger] p0.0[i] is Some ==> pass_near(d, e, p0, k).0[i] == p0.0[i],
    decreases k,
{
    if k > 0 {
        lemma_pass_near_monotone(d, e, p0, k - 1);
        lemma_pass_near_consistent(d, e, p0, k - 1);
        let p = pass_near(d, e, p0, k - 1);
        let ei = k - 1;
        if p.0[ei] is None {
            let lo = lo_bound(p.0, ei);
            let hi = hi_bound(p.0, ei + 1, d.len() as int);
            lemma_lo_bound_nonneg(p.0, ei);
            lemma_best_near_free(d, p.1, e[ei], lo, hi);
            lemma_lo_bound(p.0, d.len(), ei);
            lemma_hi_bound(p.0, ei + 1, d.len() as int);
            match best_near(d, p.1, e[ei], lo, hi) {
                Some(di) => {
                    let q = pair(p, ei, di as int);
                    assert forall|i1: int, i2: int| 0 <= i1 < i2 < q.0.len() implies (#[trigger] q.0[i1] matches Some(a)
                        ==> (#[trigger] q.0[i2] matches Some(b) ==> a < b)) by {
                        if i2 == ei {
                            assert(p.0[i1] matches Some(a) ==> a < lo);
                        } else if i1 == ei {
                            assert(p.0[i2] matches Some(b) ==> hi <= b);
                        } else {
                            assert(p.0[i1] matches Some(a) ==> (p.0[i2] matches Some(b) ==> a < b));
                        }
                    }
                },
                None => {},
            }
        }
    }
}

/// Where only the drafted paragraph `x` has the text of `en`, the text partner from `j`
/// is `x` when it is free (and of the article, when asked), and none otherwise.
proof fn lemma_text_partner_only(d: Seq<NodeModel>, used: Seq<bool>, en: NodeModel, same_art: bool, j: int, x: int)
    requires
        0 <= j,
        0 <= x < d.len(),
        d.len() <= usize::MAX,
        forall|t: int| 0 <= t < d.len() && t != x ==> (#[trigger] d[t]).text != en.text,
    ensures
        text_partner(d, used, en, same_art, j) == (if j <= x && !used[x] && (!same_art || d[x].art == en.art)
            && d[x].text == en.text { Some(x as usize) } else { None::<usize> }),
    decreases d.len() - j,
{
    if j < d.len() {
        lemma_text_partner_only(d, used, en, same_art, j + 1, x);
    }
}

/// The conditions under which a derivation is promised to reproduce the enforced
/// revision: the drafted revision is well formed and has no id of the derivation's new
/// paragraphs, both revisions have the same number of paragraphs (at least one) in the
/// same articles, their first paragraphs agree, and no enforced paragraph has the text of
/// a drafted paragraph at another place.
pub open spec fn plainly_derivable(d: Seq<NodeModel>, e: Seq<NodeModel>, amend: Seq<char>) -> bool {
    &&& d.len() <= usize::MAX
    &&& spec_wf(d)
    &&& forall|t: int| 0 <= t < d.len() ==> !crate::text::starts_with((#[trigger] d[t]).id, amend + seq!['/'])
    &&& d.len() == e.len()
    &&& e.len() >= 1
    &&& forall|i: int| 0 <= i < e.len() ==> (#[trigger] d[i]).art == e[i].art
    &&& d[0].text == e[0].text
    &&& forall|i: int, j: int| 0 <= i < e.len() && 0 <= j < d.len() && i != j ==> (#[trigger] e[i]).text != (#[trigger] d[j]).text
}

/// What the first pass pairs: each paragraph with the one at its place, when their texts
/// agree.
proof fn lemma_first_pass(d: Seq<NodeModel>, e: Seq<NodeModel>, amend: Seq<char>, k: int)
    requires
        plainly_derivable(d, e, amend),
        0 <= k <= e.len(),
    ensures
        ({
            let p = pass_same(d, e, true, no_pairs(e.len(), d.len()), k);
            &&& p.0.len() == e.len()
            &&& p.1.len() == d.len()
            &&& forall|i: int| 0 <= i < e.len() ==> #[trigger] p.0[i] == (if i < k && e[i].text == d[i].text {
                Some(i as usize)
            } else {
                None::<usize>
            })
            &&& forall|j: int| 0 <= j < d.len() ==> #[trigger] p.1[j] == (j < k && e[j].text == d[j].text)
        }),
    decreases k,
{
    if k > 0 {
        lemma_first_pass(d, e, amend, k - 1);
        let p = pass_same(d, e, true, no_pairs(e.len(), d.len()), k - 1);
        let x = k - 1;
        assert forall|t: int| 0 <= t < d.len() && t != x implies (#[trigger] d[t]).text != e[x].text by {
            assert(e[x].text != d[t].text);
        }
        lemma_text_partner_only(d, p.1, e[x], true, 0, x);
    } else {
        let p = no_pairs(e.len(), d.len());
        assert forall|i: int| 0 <= i < e.len() implies #[trigger] p.0[i] == None::<usize> by {}
    }
}

/// The last pass adds nothing: a paragraph with no partner has no paragraph of its text.
proof fn lemma_last_pass(d: Seq<NodeModel>, e: Seq<NodeModel>, amend: Seq<char>, p2: Pairing, k: int)
    requires
        plainly_derivable(d, e, amend),
        0 <= k <= e.len(),
        p2.0.len() == e.len(),
        p2.1.len() == d.len(),
        forall|i: int| 0 <= i < e.len() && e[i].text == d[i].text ==> (#[trigger] p2.0[i]) is Some,
    ensures
        pass_same(d, e, false, p2, k) == p2,
    decreases k,
{
    if k > 0 {
        lemma_last_pass(d, e, amend, p2, k - 1);
        let x = k - 1;
        if p2.0[x] is None {
            assert forall|t: int| 0 <= t < d.len() && t != x implies (#[trigger] d[t]).text != e[x].text by {
                assert(e[x].text != d[t].text);
            }
            lemma_text_partner_only(d, p2.1, e[x], false, 0, x);
        }
    }
}

/// Under the plain conditions the pairing keeps the order and pairs the first paragraph.
pub proof fn lemma_plainly_derivable(d: Seq<NodeModel>, e: Seq<NodeModel>, amend: Seq<char>)
    requires
        plainly_derivable(d, e, amend),
    ensures
        derivable(d, e, amend),
{
    let n = e.len() as int;
    let p0 = no_pairs(e.len(), d.len());
    let p1 = pass_same(d, e, true, p0, n);
    lemma_first_pass(d, e, amend, n);
    assert(consistent(p0, e.len(), d.len()));
    lemma_pass_same_consistent(d, e, true, p0, n);
    assert(monotone(p1.0)) by {
        assert forall|i1: int, i2: int| 0 <= i1 < i2 < p1.0.len() implies (#[trigger] p1.0[i1] matches Some(a)
            ==> (#[trigger] p1.0[i2] matches Some(b) ==> a < b)) by {}
    }
    let p2 = pass_near(d, e, p1, n);
    lemma_pass_near_monotone(d, e, p1, n);
    lemma_pass_near_consistent(d, e, p1, n);
    assert forall|i: int| 0 <= i < e.len() && e[i].text == d[i].text implies (#[trigger] p2.0[i]) is Some by {
        assert(p1.0[i] is Some);
    }
    lemma_last_pass(d, e, amend, p2, n);
    assert(pairing(d, e) == p2);
    assert(p1.0[0] is Some);
    assert forall|t: int| 0 <= t < d.len() implies !is_new(amend, (#[trigger] d[t]).id) by {
        if is_new(amend, d[t].id) {
            let id = d[t].id;
            assert(id.take(amend.len() + 1int) =~= (amend + "/art:"@).take(amend.len() + 1int));
            assert((amend + "/art:"@).take(amend.len() + 1int) =~= amend + seq!['/']) by {
                reveal_strlit("/art:");
            }
            assert(crate::text::starts_with(id, amend + seq!['/']));
        }
    }
}

/// A derived unit, applied to the drafted revision, renders as the enforced one whenever
/// the revisions have the same paragraphs in the same articles, agree on the first, no
/// enforced paragraph has the text of a drafted one at another place, the drafted ids are
/// unique, and none starts with the amendment's id and `/`.
pub proof fn law_derived_unit_reproduces_plainly(d: Seq<NodeModel>, e: Seq<NodeModel>, amend: Seq<char>)
    requires
        plainly_derivable(d, e, amend),
    ensures
        spec_apply_unit(d, spec_derive_unit(d, e, amend)) matches Some(r) && spec_render(r) == spec_render(e),
{
    lemma_plainly_derivable(d, e, amend);
    law_derived_unit_reproduces(d, e, amend);
}

} // verus!
