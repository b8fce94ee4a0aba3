//! Laws of the identity algebra: operations compose, leave alone what they do not modify,
//! commute when independent, and keep ids unique.

use vstd::prelude::*;
use crate::ident::{
    has_id, is_first, first_pos, lemma_first_pos, lemma_first_pos_is, op_edit, op_key, op_modifies,
    op_touches, spec_apply_op, spec_apply_unit, spec_independent, spec_wf, unit_touches,
    IdentOpModel, NodeModel,
};

verus! {

/// The first node with the id `k`, if any.
pub open spec fn find(s: Seq<NodeModel>, k: Seq<char>) -> Option<NodeModel> {
    if has_id(s, k) {
        Some(s[first_pos(s, k)])
    } else {
        None
    }
}

/// An operation fails exactly when no node has the id it looks for.
pub proof fn law_apply_op_fails_iff_missing(r: Seq<NodeModel>, op: IdentOpModel)
    ensures
        spec_apply_op(r, op) is None <==> !has_id(r, op_key(op)),
{
    lemma_first_pos(r, op_key(op));
}

/// Applying `u` and then `v` is applying `u` followed by `v` as one unit; a failure
/// in `u` is a failure of the whole.
pub proof fn law_apply_unit_concat(r: Seq<NodeModel>, u: Seq<IdentOpModel>, v: Seq<IdentOpModel>)
    ensures
        spec_apply_unit(r, u + v) == match spec_apply_unit(r, u) {
            Some(r2) => spec_apply_unit(r2, v),
            None => None,
        },
    decreases u.len(),
{
    if u.len() == 0 {
        assert(u + v =~= v);
    } else {
        assert((u + v)[0] == u[0]);
        assert((u + v).drop_first() =~= u.drop_first() + v);
        match spec_apply_op(r, u[0]) {
            Some(r2) => {
                law_apply_unit_concat(r2, u.drop_first(), v);
            },
            None => {},
        }
    }
}

/// The ids of what an operation makes of the node it found are ids the operation touches.
proof fn lemma_edit_ids(op: IdentOpModel, x: NodeModel)
    requires
        x.id == op_key(op),
    ensures
        op_edit(op, x).len() <= 2,
        forall|l: int| 0 <= l < op_edit(op, x).len() ==> op_touches(op).contains(#[trigger] op_edit(op, x)[l].id),
        op is InsertAfter ==> op_edit(op, x).len() == 2 && op_edit(op, x)[0] == x
            && op_edit(op, x)[1].id == op_modifies(op)[0],
        !(op is InsertAfter) ==> forall|l: int| 0 <= l < op_edit(op, x).len() ==> #[trigger] op_edit(op, x)[l].id == x.id,
{
    let e = op_edit(op, x);
    assert forall|l: int| 0 <= l < e.len() implies op_touches(op).contains(#[trigger] e[l].id) by {
        match op {
            IdentOpModel::InsertAfter { anchor, new_id, .. } => {
                if l == 0 {
                    assert(op_touches(op)[0] == anchor);
                } else {
                    assert(op_touches(op)[1] == new_id);
                }
            },
            _ => {
                assert(op_touches(op)[0] == op_key(op));
            },
        }
    }
}

/// Where an operation applies, the result is the nodes before the found one, what the
/// operation makes of it, and the nodes after.
proof fn lemma_apply_op_shape(r: Seq<NodeModel>, op: IdentOpModel)
    requires
        spec_apply_op(r, op) is Some,
    ensures
        is_first(r, op_key(op), first_pos(r, op_key(op))),
        spec_apply_op(r, op).unwrap() == r.take(first_pos(r, op_key(op))) + op_edit(op, r[first_pos(r, op_key(op))])
            + r.skip(first_pos(r, op_key(op)) + 1),
{
    lemma_first_pos(r, op_key(op));
}

/// An operation keeps the first node of every id it does not touch, shifted by the change
/// in length when that node lies after the one the operation found.
proof fn lemma_apply_op_other(r: Seq<NodeModel>, op: IdentOpModel, k: Seq<char>)
    requires
        spec_apply_op(r, op) is Some,
        !op_touches(op).contains(k),
    ensures
        ({
            let r2 = spec_apply_op(r, op).unwrap();
            let i = first_pos(r, op_key(op));
            let e = op_edit(op, r[i]);
            &&& has_id(r2, k) == has_id(r, k)
            &&& has_id(r, k) ==> {
                let j = first_pos(r, k);
                &&& j != i
                &&& first_pos(r2, k) == if j < i { j } else { j - 1 + e.len() }
                &&& r2[first_pos(r2, k)] == r[j]
            }
        }),
{
    lemma_apply_op_shape(r, op);
    let r2 = spec_apply_op(r, op).unwrap();
    let i = first_pos(r, op_key(op));
    let e = op_edit(op, r[i]);
    lemma_edit_ids(op, r[i]);
    assert(op_touches(op).contains(op_key(op))) by {
        assert(op_touches(op)[0] == op_key(op));
    }
    let el = e.len() as int;
    assert(r2.len() == r.len() - 1 + el);
    assert forall|l: int| 0 <= l < r2.len() implies #[trigger] r2[l] == if l < i {
        r[l]
    } else if l < i + el {
        e[l - i]
    } else {
        r[l - el + 1]
    } by {}
    lemma_first_pos(r, k);
    lemma_first_pos(r2, k);
    if has_id(r, k) {
        let j = first_pos(r, k);
        assert(j != i);
        let j2 = if j < i { j } else { j - 1 + el };
        assert(r2[j2] == r[j]);
        assert forall|l: int| 0 <= l < j2 implies r2[l].id != k by {
            if l < i {
            } else if l < i + el {
                assert(op_touches(op).contains(e[l - i].id));
            } else {
                assert(r[l - el + 1].id != k);
            }
        }
        assert(is_first(r2, k, j2));
        lemma_first_pos_is(r2, k, j2);
    } else {
        assert forall|l: int| 0 <= l < r2.len() implies r2[l].id != k by {
            if l < i {
            } else if l < i + el {
                assert(op_touches(op).contains(e[l - i].id));
            } else {
            }
        }
    }
}

/// Frame: an operation leaves the first node of every id it does not modify as it was
/// (an insertion's anchor included).
pub proof fn law_frame(r: Seq<NodeModel>, op: IdentOpModel, k: Seq<char>)
    requires
        spec_apply_op(r, op) is Some,
        !op_modifies(op).contains(k),
    ensures
        find(spec_apply_op(r, op).unwrap(), k) == find(r, k),
{
    let key = op_key(op);
    if op_touches(op).contains(k) {
        // Only an insertion touches an id it does not modify: its anchor, which stays in place.
        lemma_apply_op_shape(r, op);
        let i = first_pos(r, key);
        let r2 = spec_apply_op(r, op).unwrap();
        lemma_edit_ids(op, r[i]);
        match op {
            IdentOpModel::InsertAfter { anchor, new_id, .. } => {
                assert(op_modifies(op)[0] == new_id);
                assert(k != new_id);
                assert(k == anchor) by {
                    let p = choose|p: int| 0 <= p < op_touches(op).len() && op_touches(op)[p] == k;
                }
                assert(r2[i] == r[i]);
                assert(is_first(r2, k, i));
                lemma_first_pos_is(r2, k, i);
                lemma_first_pos(r, k);
                lemma_first_pos_is(r, k, i);
            },
            _ => {
                assert(op_touches(op) == op_modifies(op));
            },
        }
    } else {
        lemma_apply_op_other(r, op, k);
    }
}

/// Applying `a` then `b`.
pub open spec fn then_apply(r: Seq<NodeModel>, a: IdentOpModel, b: IdentOpModel) -> Option<Seq<NodeModel>> {
    match spec_apply_op(r, a) {
        Some(r2) => spec_apply_op(r2, b),
        None => None,
    }
}

/// The two operations touch no common id.
pub open spec fn ops_disjoint(a: IdentOpModel, b: IdentOpModel) -> bool {
    forall|t: Seq<char>| op_touches(a).contains(t) ==> !op_touches(b).contains(t)
}

proof fn lemma_key_touched(op: IdentOpModel)
    ensures
        op_touches(op).contains(op_key(op)),
{
    assert(op_touches(op)[0] == op_key(op));
}

/// Where `a` applies and `b`'s key is not among what `a` touches, `b` finds after `a`
/// the same node as before.
proof fn lemma_commute_ordered(r: Seq<NodeModel>, a: IdentOpModel, b: IdentOpModel)
    requires
        ops_disjoint(a, b),
        has_id(r, op_key(a)),
        has_id(r, op_key(b)),
        first_pos(r, op_key(a)) < first_pos(r, op_key(b)),
    ensures
        then_apply(r, a, b) == then_apply(r, b, a),
        then_apply(r, a, b) is Some,
{
    let ka = op_key(a);
    let kb = op_key(b);
    lemma_first_pos(r, ka);
    lemma_first_pos(r, kb);
    lemma_key_touched(a);
    lemma_key_touched(b);
    let ia = first_pos(r, ka);
    let ib = first_pos(r, kb);
    let ea = op_edit(a, r[ia]);
    let eb = op_edit(b, r[ib]);
    // a first
    let r1 = spec_apply_op(r, a).unwrap();
    lemma_apply_op_other(r, a, kb);
    let ib1 = first_pos(r1, kb);
    assert(ib1 == ib - 1 + ea.len());
    assert(r1[ib1] == r[ib]);
    lemma_first_pos(r1, kb);
    let r1b = spec_apply_op(r1, b).unwrap();
    assert(r1b == r1.take(ib1) + eb + r1.skip(ib1 + 1));
    // b first
    let r2 = spec_apply_op(r, b).unwrap();
    lemma_apply_op_other(r, b, ka);
    assert(first_pos(r2, ka) == ia);
    assert(r2[ia] == r[ia]);
    lemma_first_pos(r2, ka);
    let r2a = spec_apply_op(r2, a).unwrap();
    assert(r2a == r2.take(ia) + ea + r2.skip(ia + 1));
    assert(r1 == r.take(ia) + ea + r.skip(ia + 1));
    assert(r2 == r.take(ib) + eb + r.skip(ib + 1));
    assert(r1.take(ib1) =~= r.take(ia) + ea + r.subrange(ia + 1, ib));
    assert(r1.skip(ib1 + 1) =~= r.skip(ib + 1));
    assert(r2.take(ia) =~= r.take(ia));
    assert(r2.skip(ia + 1) =~= r.subrange(ia + 1, ib) + eb + r.skip(ib + 1));
    assert(r1b =~= r2a);
}

/// Independent operations commute: when two operations touch no common id, applying them
/// in either order gives the same result (or fails either way).
pub proof fn law_independent_ops_commute(r: Seq<NodeModel>, a: IdentOpModel, b: IdentOpModel)
    requires
        ops_disjoint(a, b),
    ensures
        then_apply(r, a, b) == then_apply(r, b, a),
{
    let ka = op_key(a);
    let kb = op_key(b);
    lemma_first_pos(r, ka);
    lemma_first_pos(r, kb);
    lemma_key_touched(a);
    lemma_key_touched(b);
    assert(ka != kb);
    if has_id(r, ka) && has_id(r, kb) {
        if first_pos(r, ka) < first_pos(r, kb) {
            lemma_commute_ordered(r, a, b);
        } else {
            assert(first_pos(r, ka) != first_pos(r, kb));
            assert forall|t: Seq<char>| op_touches(b).contains(t) implies !op_touches(a).contains(t) by {}
            lemma_commute_ordered(r, b, a);
        }
    } else if !has_id(r, ka) {
        assert(spec_apply_op(r, a) is None);
        if has_id(r, kb) {
            lemma_apply_op_other(r, b, ka);
            lemma_first_pos(spec_apply_op(r, b).unwrap(), ka);
        }
    } else {
        assert(spec_apply_op(r, b) is None);
        lemma_apply_op_other(r, a, kb);
        lemma_first_pos(spec_apply_op(r, a).unwrap(), kb);
    }
}


/// Every operation of one unit is disjoint from every operation of the other.
pub open spec fn units_disjoint(u: Seq<IdentOpModel>, v: Seq<IdentOpModel>) -> bool {
    forall|i: int, j: int| 0 <= i < u.len() && 0 <= j < v.len() ==> ops_disjoint(#[trigger] u[i], #[trigger] v[j])
}

proof fn lemma_unit_touches_has(u: Seq<IdentOpModel>, i: int, t: Seq<char>)
    requires
        0 <= i < u.len(),
        op_touches(u[i]).contains(t),
    ensures
        unit_touches(u).contains(t),
    decreases u.len(),
{
    let pre = unit_touches(u.drop_last());
    let last = op_touches(u.last());
    assert(unit_touches(u) == pre + last);
    if i == u.len() - 1 {
        let p = choose|p: int| 0 <= p < last.len() && last[p] == t;
        assert((pre + last)[pre.len() + p] == t);
    } else {
        assert(u.drop_last()[i] == u[i]);
        lemma_unit_touches_has(u.drop_last(), i, t);
        let p = choose|p: int| 0 <= p < pre.len() && pre[p] == t;
        assert((pre + last)[p] == t);
    }
}

proof fn lemma_independent_disjoint(u: Seq<IdentOpModel>, v: Seq<IdentOpModel>)
    requires
        spec_independent(u, v),
    ensures
        units_disjoint(u, v),
{
    assert forall|i: int, j: int| 0 <= i < u.len() && 0 <= j < v.len() implies ops_disjoint(
        #[trigger] u[i],
        #[trigger] v[j],
    ) by {
        assert forall|t: Seq<char>| op_touches(u[i]).contains(t) implies !op_touches(v[j]).contains(t) by {
            lemma_unit_touches_has(u, i, t);
            let p = choose|p: int| 0 <= p < unit_touches(u).len() && unit_touches(u)[p] == t;
            assert(!unit_touches(v).contains(unit_touches(u)[p]));
            if op_touches(v[j]).contains(t) {
                lemma_unit_touches_has(v, j, t);
            }
        }
    }
}

proof fn lemma_unit_of_two(r: Seq<NodeModel>, a: IdentOpModel, b: IdentOpModel)
    ensures
        spec_apply_unit(r, seq![a, b]) == then_apply(r, a, b),
{
    reveal_with_fuel(spec_apply_unit, 3);
    assert(seq![a, b].drop_first() =~= seq![b]);
    assert(seq![b].drop_first() =~= Seq::<IdentOpModel>::empty());
    match spec_apply_op(r, a) {
        Some(r1) => {
            match spec_apply_op(r1, b) {
                Some(r2) => {
                    assert(spec_apply_unit(r2, Seq::<IdentOpModel>::empty()) == Some(r2));
                },
                None => {},
            }
        },
        None => {},
    }
}

proof fn lemma_unit_cons(r: Seq<NodeModel>, a: IdentOpModel, v: Seq<IdentOpModel>)
    ensures
        spec_apply_unit(r, seq![a] + v) == match spec_apply_op(r, a) {
            Some(r1) => spec_apply_unit(r1, v),
            None => None,
        },
{
    assert((seq![a] + v)[0] == a);
    assert((seq![a] + v).drop_first() =~= v);
}

/// One operation commutes with a unit of operations that are each disjoint from it.
proof fn lemma_commute_op_unit(r: Seq<NodeModel>, a: IdentOpModel, v: Seq<IdentOpModel>)
    requires
        forall|j: int| 0 <= j < v.len() ==> ops_disjoint(a, #[trigger] v[j]),
    ensures
        spec_apply_unit(r, seq![a] + v) == spec_apply_unit(r, v + seq![a]),
    decreases v.len(),
{
    if v.len() == 0 {
        assert(seq![a] + v =~= v + seq![a]);
    } else {
        let b = v[0];
        let rest = v.drop_first();
        assert(ops_disjoint(a, b));
        // [a] + v == [a, b] + rest
        assert(seq![a] + v =~= seq![a, b] + rest);
        law_apply_unit_concat(r, seq![a, b], rest);
        lemma_unit_of_two(r, a, b);
        law_independent_ops_commute(r, a, b);
        lemma_unit_of_two(r, b, a);
        law_apply_unit_concat(r, seq![b, a], rest);
        assert(seq![b, a] + rest =~= seq![b] + (seq![a] + rest));
        lemma_unit_cons(r, b, seq![a] + rest);
        assert forall|j: int| 0 <= j < rest.len() implies ops_disjoint(a, #[trigger] rest[j]) by {
            assert(rest[j] == v[j + 1]);
        }
        match spec_apply_op(r, b) {
            Some(r1) => {
                lemma_commute_op_unit(r1, a, rest);
            },
            None => {},
        }
        assert(v + seq![a] =~= seq![b] + (rest + seq![a]));
        lemma_unit_cons(r, b, rest + seq![a]);
    }
}

/// Disjoint units commute.
proof fn lemma_commute_units(r: Seq<NodeModel>, u: Seq<IdentOpModel>, v: Seq<IdentOpModel>)
    requires
        units_disjoint(u, v),
    ensures
        spec_apply_unit(r, u + v) == spec_apply_unit(r, v + u),
    decreases u.len(),
{
    if u.len() == 0 {
        assert(u + v =~= v);
        assert(v + u =~= v);
    } else {
        let a = u[0];
        let rest = u.drop_first();
        assert(u + v =~= seq![a] + (rest + v));
        lemma_unit_cons(r, a, rest + v);
        assert forall|i: int, j: int| 0 <= i < rest.len() && 0 <= j < v.len() implies ops_disjoint(
            #[trigger] rest[i],
            #[trigger] v[j],
        ) by {
            assert(rest[i] == u[i + 1]);
        }
        match spec_apply_op(r, a) {
            Some(r1) => {
                lemma_commute_units(r1, rest, v);
            },
            None => {},
        }
        lemma_unit_cons(r, a, v + rest);
        assert(seq![a] + (v + rest) =~= (seq![a] + v) + rest);
        law_apply_unit_concat(r, seq![a] + v, rest);
        assert forall|j: int| 0 <= j < v.len() implies ops_disjoint(a, #[trigger] v[j]) by {
            assert(u[0] == a);
        }
        lemma_commute_op_unit(r, a, v);
        law_apply_unit_concat(r, v + seq![a], rest);
        assert((v + seq![a]) + rest =~= v + u);
    }
}

/// Independent units commute: when no id that one touches is touched by the other, applying
/// them in either order gives the same revision (or fails either way).
pub proof fn law_independent_units_commute(r: Seq<NodeModel>, u: Seq<IdentOpModel>, v: Seq<IdentOpModel>)
    requires
        spec_independent(u, v),
    ensures
        spec_apply_unit(r, u + v) == spec_apply_unit(r, v + u),
{
    lemma_independent_disjoint(u, v);
    lemma_commute_units(r, u, v);
}

/// Operations keep ids unique, as long as an insertion's new id is not in the revision yet.
pub proof fn law_apply_op_keeps_wf(r: Seq<NodeModel>, op: IdentOpModel)
    requires
        spec_wf(r),
        spec_apply_op(r, op) is Some,
        op is InsertAfter ==> !has_id(r, op_modifies(op)[0]),
    ensures
        spec_wf(spec_apply_op(r, op).unwrap()),
{
    lemma_apply_op_shape(r, op);
    let r2 = spec_apply_op(r, op).unwrap();
    let i = first_pos(r, op_key(op));
    let e = op_edit(op, r[i]);
    lemma_edit_ids(op, r[i]);
    let el = e.len() as int;
    // where each node of the result comes from: a node of `r`, or (for an insertion) the new one
    assert forall|l: int| 0 <= l < r2.len() implies #[trigger] r2[l] == if l < i {
        r[l]
    } else if l < i + el {
        e[l - i]
    } else {
        r[l - el + 1]
    } by {}
    let src = |l: int| if l < i { l } else if l < i + el { i } else { l - el + 1 };
    assert forall|l: int, m: int| 0 <= l < m < r2.len() implies r2[l].id != r2[m].id by {
        let new_l = op is InsertAfter && l == i + 1;
        let new_m = op is InsertAfter && m == i + 1;
        if new_l || new_m {
            let nid = op_modifies(op)[0];
            if new_l {
                assert(r2[l].id == nid);
                assert(r2[m].id == r[src(m)].id);
                assert(0 <= src(m) < r.len());
            } else {
                assert(r2[m].id == nid);
                assert(r2[l].id == r[src(l)].id);
                assert(0 <= src(l) < r.len());
            }
        } else {
            assert(r2[l].id == r[src(l)].id);
            assert(r2[m].id == r[src(m)].id);
            assert(src(l) < src(m));
        }
    }
}

} // verus!
