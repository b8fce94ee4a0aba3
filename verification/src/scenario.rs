//! Amendment scenarios: when the units of an amending law come into force, and in which
//! orders they may be applied. Units whose dates are fixed are applied in date order; a
//! unit whose date is still to be fixed may come at any place among them, so every order
//! of those units and every place for each is tried.

use vstd::prelude::*;
use crate::op::AmendUnit;
use vstd::multiset::Multiset;
use crate::text::{chars_of, str_eq};

verus! {

/// When a unit comes into force.
#[derive(Debug, Clone, PartialEq, Eq)]
pub enum Enforcement {
    /// On a fixed date (`YYYY-MM-DD`).
    Fixed(String),
    /// On a day still to be fixed (`公布の日から起算して…政令で定める日`): only the order
    /// within the same amending law is known.
    Undetermined { note: String },
}

/// A unit of an amending law, with its label and when it comes into force.
#[derive(Debug)]
pub struct Stage {
    pub label: String,
    pub unit: AmendUnit,
    pub enforcement: Enforcement,
}

/// The date of a unit whose date is fixed.
pub open spec fn fixed_date(e: Enforcement) -> Option<Seq<char>> {
    match e {
        Enforcement::Fixed(d) => Some(d@),
        Enforcement::Undetermined { .. } => None,
    }
}

/// The dates of the stages (`None` for a date still to be fixed).
pub open spec fn stage_dates(stages: Seq<Stage>) -> Seq<Option<Seq<char>>> {
    stages.map_values(|s: Stage| fixed_date(s.enforcement))
}

/// The labels of the stages.
pub open spec fn stage_labels(stages: Seq<Stage>) -> Seq<Seq<char>> {
    stages.map_values(|s: Stage| s.label@)
}

/// `a` comes before `b` in the order of texts: at the first character where they differ,
/// `a` has the smaller one, or `a` is a proper beginning of `b`.
pub open spec fn text_lt(a: Seq<char>, b: Seq<char>) -> bool
    decreases a.len(),
{
    if a.len() == 0 {
        b.len() > 0
    } else if b.len() == 0 {
        false
    } else if a[0] != b[0] {
        (a[0] as u32) < (b[0] as u32)
    } else {
        text_lt(a.drop_first(), b.drop_first())
    }
}

/// Where the stage `k` goes in the date order `order`: before the first stage of a later
/// date (after those of the same date).
pub open spec fn insert_pos(order: Seq<usize>, dates: Seq<Option<Seq<char>>>, k: int) -> int
    decreases order.len(),
{
    if order.len() == 0 {
        0
    } else if text_lt(dates[k].unwrap(), dates[order[0] as int].unwrap()) {
        0
    } else {
        1 + insert_pos(order.drop_first(), dates, k)
    }
}

/// The stages among the first `n` whose dates are fixed, in date order (those of the same
/// date in their order in the list).
pub open spec fn fixed_upto(dates: Seq<Option<Seq<char>>>, n: int) -> Seq<usize>
    decreases n,
{
    if n <= 0 {
        Seq::empty()
    } else {
        let o = fixed_upto(dates, n - 1);
        if dates[n - 1] is Some {
            o.insert(insert_pos(o, dates, n - 1), (n - 1) as usize)
        } else {
            o
        }
    }
}

/// The stages among the first `n` whose dates are still to be fixed, in their order.
pub open spec fn undetermined_upto(dates: Seq<Option<Seq<char>>>, n: int) -> Seq<usize>
    decreases n,
{
    if n <= 0 {
        Seq::empty()
    } else {
        let o = undetermined_upto(dates, n - 1);
        if dates[n - 1] is None {
            o.push((n - 1) as usize)
        } else {
            o
        }
    }
}

/// Every stage named in `q` is one of the first `n`.
pub open spec fn all_below(q: Seq<usize>, n: int) -> bool {
    forall|k: int| 0 <= k < q.len() ==> (#[trigger] q[k] as int) < n
}

proof fn lemma_insert_pos(order: Seq<usize>, dates: Seq<Option<Seq<char>>>, k: int)
    ensures
        0 <= insert_pos(order, dates, k) <= order.len(),
    decreases order.len(),
{
    if order.len() > 0 {
        lemma_insert_pos(order.drop_first(), dates, k);
    }
}

proof fn lemma_fixed_upto(dates: Seq<Option<Seq<char>>>, n: int)
    requires
        0 <= n <= dates.len(),
    ensures
        all_below(fixed_upto(dates, n), n),
        fixed_upto(dates, n).len() <= n,
    decreases n,
{
    if n > 0 {
        lemma_fixed_upto(dates, n - 1);
        let o = fixed_upto(dates, n - 1);
        if dates[n - 1] is Some {
            lemma_insert_pos(o, dates, n - 1);
            let p = insert_pos(o, dates, n - 1);
            let o2 = o.insert(p, (n - 1) as usize);
            assert forall|k: int| 0 <= k < o2.len() implies (#[trigger] o2[k] as int) < n by {
                if k < p {
                    assert(o2[k] == o[k]);
                } else if k > p {
                    assert(o2[k] == o[k - 1]);
                }
            }
        }
    }
}

proof fn lemma_undetermined_upto(dates: Seq<Option<Seq<char>>>, n: int)
    requires
        0 <= n <= dates.len(),
    ensures
        all_below(undetermined_upto(dates, n), n),
        undetermined_upto(dates, n).len() <= n,
    decreases n,
{
    if n > 0 {
        lemma_undetermined_upto(dates, n - 1);
    }
}

/// Whether the text `a` comes before `b`.
pub fn text_lt_exec(a: &str, b: &str) -> (r: bool)
    ensures
        r == text_lt(a@, b@),
{
    let x = chars_of(a);
    let y = chars_of(b);
    let mut k: usize = 0;
    assert(a@.skip(0) =~= a@);
    assert(b@.skip(0) =~= b@);
    while k < x.len() && k < y.len() && x[k] == y[k]
        invariant
            k <= x.len(),
            k <= y.len(),
            x@ == a@,
            y@ == b@,
            text_lt(a@, b@) == text_lt(a@.skip(k as int), b@.skip(k as int)),
        decreases x.len() - k,
    {
        assert(a@.skip(k as int).drop_first() =~= a@.skip(k + 1));
        assert(b@.skip(k as int).drop_first() =~= b@.skip(k + 1));
        k = k + 1;
    }
    if k == x.len() {
        k < y.len()
    } else if k == y.len() {
        false
    } else {
        (x[k] as u32) < (y[k] as u32)
    }
}

fn date_of(s: &Stage) -> (r: Option<&String>)
    ensures
        match r {
            Some(d) => fixed_date(s.enforcement) == Some(d@),
            None => fixed_date(s.enforcement) is None,
        },
{
    match &s.enforcement {
        Enforcement::Fixed(d) => Some(d),
        Enforcement::Undetermined { .. } => None,
    }
}

/// Whether the stage at place `p` of `order` has a later date than `d`.
fn later_at(stages: &[Stage], order: &Vec<usize>, p: usize, d: &String) -> (r: bool)
    requires
        p < order.len(),
        all_below(order@, stages@.len() as int),
        stage_dates(stages@)[order@[p as int] as int] is Some,
    ensures
        r == text_lt(d@, stage_dates(stages@)[order@[p as int] as int].unwrap()),
{
    assert((order@[p as int] as int) < stages@.len());
    match date_of(&stages[order[p]]) {
        Some(e) => text_lt_exec(d.as_str(), e.as_str()),
        None => false,
    }
}

/// Every stage named in `fixed_upto` has a fixed date.
proof fn lemma_fixed_dated(dates: Seq<Option<Seq<char>>>, n: int)
    requires
        0 <= n <= dates.len(),
        dates.len() <= usize::MAX,
    ensures
        forall|k: int| 0 <= k < fixed_upto(dates, n).len() ==> dates[#[trigger] fixed_upto(dates, n)[k] as int] is Some,
    decreases n,
{
    if n > 0 {
        lemma_fixed_dated(dates, n - 1);
        lemma_fixed_upto(dates, n - 1);
        let o = fixed_upto(dates, n - 1);
        if dates[n - 1] is Some {
            lemma_insert_pos(o, dates, n - 1);
            let p = insert_pos(o, dates, n - 1);
            let o2 = o.insert(p, (n - 1) as usize);
            assert forall|k: int| 0 <= k < o2.len() implies dates[#[trigger] o2[k] as int] is Some by {
                if k < p {
                    assert(o2[k] == o[k]);
                    assert(dates[fixed_upto(dates, n - 1)[k] as int] is Some);
                } else if k > p {
                    assert(o2[k] == o[k - 1]);
                    assert(dates[fixed_upto(dates, n - 1)[k - 1] as int] is Some);
                } else {
                    assert(o2[k] == (n - 1) as usize);
                }
            }
        }
    }
}

/// The stages whose dates are fixed, in date order, and those still to be fixed, in their
/// order.
fn split_by_dates(stages: &[Stage]) -> (r: (Vec<usize>, Vec<usize>))
    ensures
        r.0@ == fixed_upto(stage_dates(stages@), stages@.len() as int),
        r.1@ == undetermined_upto(stage_dates(stages@), stages@.len() as int),
{
    let ghost dates = stage_dates(stages@);
    let mut fixed: Vec<usize> = Vec::new();
    let mut open: Vec<usize> = Vec::new();
    let mut k: usize = 0;
    while k < stages.len()
        invariant
            k <= stages.len(),
            dates == stage_dates(stages@),
            dates.len() == stages@.len(),
            fixed@ == fixed_upto(dates, k as int),
            open@ == undetermined_upto(dates, k as int),
        decreases stages.len() - k,
    {
        proof {
            lemma_fixed_upto(dates, k as int);
            lemma_fixed_dated(dates, k as int);
        }
        match date_of(&stages[k]) {
            Some(d) => {
                let mut p: usize = 0;
                assert(fixed@.skip(0) =~= fixed@);
                while p < fixed.len() && !later_at(stages, &fixed, p, d)
                    invariant
                        p <= fixed.len(),
                        fixed@ == fixed_upto(dates, k as int),
                        all_below(fixed@, k as int),
                        forall|j: int| 0 <= j < fixed@.len() ==> dates[#[trigger] fixed@[j] as int] is Some,
                        k < stages.len(),
                        dates == stage_dates(stages@),
                        dates.len() == stages@.len(),
                        dates[k as int] == Some(d@),
                        insert_pos(fixed@, dates, k as int) == p + insert_pos(fixed@.skip(p as int), dates, k as int),
                    decreases fixed.len() - p,
                {
                    assert(fixed@.skip(p as int).drop_first() =~= fixed@.skip(p + 1));
                    p = p + 1;
                }
                proof {
                    if p < fixed.len() {
                        assert(fixed@.skip(p as int)[0] == fixed@[p as int]);
                    }
                }
                fixed.insert(p, k);
            },
            None => {
                open.push(k);
            },
        }
        k = k + 1;
    }
    (fixed, open)
}

// ---------------------------------------------------------------------------------------
// Orders

/// The values of the orders.
pub open spec fn nested(v: Seq<Vec<usize>>) -> Seq<Seq<usize>> {
    v.map_values(|x: Vec<usize>| x@)
}

/// Each order with `x` first.
pub open spec fn with_first(ps: Seq<Seq<usize>>, x: usize) -> Seq<Seq<usize>> {
    ps.map_values(|p: Seq<usize>| seq![x] + p)
}

/// The orders of `xs`: for each member in turn, that member first, then each order of the
/// others.
pub open spec fn perms(xs: Seq<usize>) -> Seq<Seq<usize>>
    decreases xs.len(), xs.len() + 1,
{
    if xs.len() == 0 {
        seq![Seq::empty()]
    } else {
        perms_from(xs, 0)
    }
}

/// The orders of `xs` that start with a member from place `i` on.
pub open spec fn perms_from(xs: Seq<usize>, i: int) -> Seq<Seq<usize>>
    decreases xs.len(), xs.len() - i,
{
    if i < 0 || i >= xs.len() {
        Seq::empty()
    } else {
        with_first(perms(xs.remove(i)), xs[i]) + perms_from(xs, i + 1)
    }
}

/// `q` with `s` put at each place in turn, from the first to after the last.
pub open spec fn insertions(q: Seq<usize>, s: usize) -> Seq<Seq<usize>> {
    Seq::new((q.len() + 1) as nat, |pos: int| q.insert(pos, s))
}

/// Each order of `seqs` with `s` put at each place.
pub open spec fn spread(seqs: Seq<Seq<usize>>, s: usize) -> Seq<Seq<usize>>
    decreases seqs.len(),
{
    if seqs.len() == 0 {
        Seq::empty()
    } else {
        spread(seqs.drop_last(), s) + insertions(seqs.last(), s)
    }
}

/// The orders with the stages `u` put one after the other at each place among `fixed`.
pub open spec fn place_all(fixed: Seq<usize>, u: Seq<usize>) -> Seq<Seq<usize>>
    decreases u.len(),
{
    if u.len() == 0 {
        seq![fixed]
    } else {
        spread(place_all(fixed, u.drop_last()), u.last())
    }
}

/// The placements of each order of the undetermined stages among `fixed`.
pub open spec fn placements(fixed: Seq<usize>, ps: Seq<Seq<usize>>) -> Seq<Seq<usize>>
    decreases ps.len(),
{
    if ps.len() == 0 {
        Seq::empty()
    } else {
        placements(fixed, ps.drop_last()) + place_all(fixed, ps.last())
    }
}

/// Every order to try, repeats included: the date order alone when every date is fixed;
/// else each order of the undetermined stages placed among those in date order.
pub open spec fn raw_orders(dates: Seq<Option<Seq<char>>>) -> Seq<Seq<usize>> {
    let f = fixed_upto(dates, dates.len() as int);
    let u = undetermined_upto(dates, dates.len() as int);
    let all = seq![f] + placements(f, perms(u));
    if u.len() > 0 {
        all.drop_first()
    } else {
        all
    }
}

/// The labels of the stages of an order.
pub open spec fn order_labels(order: Seq<usize>, labels: Seq<Seq<char>>) -> Seq<Seq<char>> {
    order.map_values(|k: usize| labels[k as int])
}

/// The first `n` orders, each kept unless one kept before has the same labels.
pub open spec fn dedup_upto(orders: Seq<Seq<usize>>, labels: Seq<Seq<char>>, n: int) -> Seq<Seq<usize>>
    decreases n,
{
    if n <= 0 {
        Seq::empty()
    } else {
        let d = dedup_upto(orders, labels, n - 1);
        if exists|j: int| 0 <= j < d.len() && order_labels(d[j], labels) == order_labels(orders[n - 1], labels) {
            d
        } else {
            d.push(orders[n - 1])
        }
    }
}

/// The orders in which the stages are tried (as places in the list of stages), each
/// sequence of labels once.
pub open spec fn spec_application_orders(stages: Seq<Stage>) -> Seq<Seq<usize>> {
    let o = raw_orders(stage_dates(stages));
    dedup_upto(o, stage_labels(stages), o.len() as int)
}

proof fn lemma_with_first_below(ps: Seq<Seq<usize>>, x: usize, n: int)
    requires
        (x as int) < n,
        forall|k: int| 0 <= k < ps.len() ==> all_below(#[trigger] ps[k], n),
    ensures
        forall|k: int| 0 <= k < with_first(ps, x).len() ==> all_below(#[trigger] with_first(ps, x)[k], n),
{
    assert forall|k: int| 0 <= k < with_first(ps, x).len() implies all_below(#[trigger] with_first(ps, x)[k], n) by {
        let q = with_first(ps, x)[k];
        assert(q == seq![x] + ps[k]);
        assert forall|m: int| 0 <= m < q.len() implies (#[trigger] q[m] as int) < n by {
            if m > 0 {
                assert(q[m] == ps[k][m - 1]);
            }
        }
    }
}

proof fn lemma_perms_below(xs: Seq<usize>, n: int)
    requires
        all_below(xs, n),
    ensures
        forall|k: int| 0 <= k < perms(xs).len() ==> all_below(#[trigger] perms(xs)[k], n),
    decreases xs.len(), xs.len() + 1,
{
    if xs.len() == 0 {
        assert forall|k: int| 0 <= k < perms(xs).len() implies all_below(#[trigger] perms(xs)[k], n) by {
            assert(perms(xs)[k] == Seq::<usize>::empty());
        }
    } else {
        assert(perms(xs) == perms_from(xs, 0));
        lemma_perms_from_below(xs, 0, n);
    }
}

proof fn lemma_perms_from_below(xs: Seq<usize>, i: int, n: int)
    requires
        all_below(xs, n),
    ensures
        forall|k: int| 0 <= k < perms_from(xs, i).len() ==> all_below(#[trigger] perms_from(xs, i)[k], n),
    decreases xs.len(), xs.len() - i,
{
    if 0 <= i < xs.len() {
        let rest = xs.remove(i);
        assert(all_below(rest, n)) by {
            assert forall|m: int| 0 <= m < rest.len() implies (#[trigger] rest[m] as int) < n by {
                if m < i {
                    assert(rest[m] == xs[m]);
                } else {
                    assert(rest[m] == xs[m + 1]);
                }
            }
        }
        lemma_perms_below(rest, n);
        lemma_with_first_below(perms(rest), xs[i], n);
        lemma_perms_from_below(xs, i + 1, n);
        let a = with_first(perms(rest), xs[i]);
        let b = perms_from(xs, i + 1);
        assert forall|k: int| 0 <= k < perms_from(xs, i).len() implies all_below(#[trigger] perms_from(xs, i)[k], n) by {
            if k < a.len() {
                assert(perms_from(xs, i)[k] == a[k]);
            } else {
                assert(perms_from(xs, i)[k] == b[k - a.len()]);
            }
        }
    }
}

proof fn lemma_spread_below(seqs: Seq<Seq<usize>>, s: usize, n: int)
    requires
        (s as int) < n,
        forall|k: int| 0 <= k < seqs.len() ==> all_below(#[trigger] seqs[k], n),
    ensures
        forall|k: int| 0 <= k < spread(seqs, s).len() ==> all_below(#[trigger] spread(seqs, s)[k], n),
    decreases seqs.len(),
{
    if seqs.len() > 0 {
        assert forall|k: int| 0 <= k < seqs.drop_last().len() implies all_below(#[trigger] seqs.drop_last()[k], n) by {
            assert(seqs.drop_last()[k] == seqs[k]);
        }
        lemma_spread_below(seqs.drop_last(), s, n);
        let a = spread(seqs.drop_last(), s);
        let q = seqs.last();
        assert(all_below(q, n)) by {
            assert(q == seqs[seqs.len() - 1]);
        }
        let b = insertions(q, s);
        assert forall|k: int| 0 <= k < spread(seqs, s).len() implies all_below(#[trigger] spread(seqs, s)[k], n) by {
            if k < a.len() {
                assert(spread(seqs, s)[k] == a[k]);
            } else {
                let pos = k - a.len();
                assert(spread(seqs, s)[k] == q.insert(pos, s));
                let r = q.insert(pos, s);
                assert forall|m: int| 0 <= m < r.len() implies (#[trigger] r[m] as int) < n by {
                    if m < pos {
                        assert(r[m] == q[m]);
                    } else if m > pos {
                        assert(r[m] == q[m - 1]);
                    }
                }
            }
        }
    }
}

proof fn lemma_place_all_below(fixed: Seq<usize>, u: Seq<usize>, n: int)
    requires
        all_below(fixed, n),
        all_below(u, n),
    ensures
        forall|k: int| 0 <= k < place_all(fixed, u).len() ==> all_below(#[trigger] place_all(fixed, u)[k], n),
    decreases u.len(),
{
    if u.len() == 0 {
        assert forall|k: int| 0 <= k < place_all(fixed, u).len() implies all_below(#[trigger] place_all(fixed, u)[k], n) by {
            assert(place_all(fixed, u)[k] == fixed);
        }
    } else {
        assert(all_below(u.drop_last(), n)) by {
            assert forall|m: int| 0 <= m < u.drop_last().len() implies (#[trigger] u.drop_last()[m] as int) < n by {
                assert(u.drop_last()[m] == u[m]);
            }
        }
        lemma_place_all_below(fixed, u.drop_last(), n);
        assert((u.last() as int) < n) by {
            assert(u.last() == u[u.len() - 1]);
        }
        lemma_spread_below(place_all(fixed, u.drop_last()), u.last(), n);
    }
}

proof fn lemma_placements_below(fixed: Seq<usize>, ps: Seq<Seq<usize>>, n: int)
    requires
        all_below(fixed, n),
        forall|k: int| 0 <= k < ps.len() ==> all_below(#[trigger] ps[k], n),
    ensures
        forall|k: int| 0 <= k < placements(fixed, ps).len() ==> all_below(#[trigger] placements(fixed, ps)[k], n),
    decreases ps.len(),
{
    if ps.len() > 0 {
        assert forall|k: int| 0 <= k < ps.drop_last().len() implies all_below(#[trigger] ps.drop_last()[k], n) by {
            assert(ps.drop_last()[k] == ps[k]);
        }
        lemma_placements_below(fixed, ps.drop_last(), n);
        assert(all_below(ps.last(), n)) by {
            assert(ps.last() == ps[ps.len() - 1]);
        }
        lemma_place_all_below(fixed, ps.last(), n);
        let a = placements(fixed, ps.drop_last());
        let b = place_all(fixed, ps.last());
        assert forall|k: int| 0 <= k < placements(fixed, ps).len() implies all_below(#[trigger] placements(fixed, ps)[k], n) by {
            if k < a.len() {
                assert(placements(fixed, ps)[k] == a[k]);
            } else {
                assert(placements(fixed, ps)[k] == b[k - a.len()]);
            }
        }
    }
}

/// Every order names stages of the list only.
proof fn lemma_raw_orders_below(dates: Seq<Option<Seq<char>>>)
    ensures
        forall|k: int| 0 <= k < raw_orders(dates).len() ==> all_below(#[trigger] raw_orders(dates)[k], dates.len() as int),
{
    let n = dates.len() as int;
    lemma_fixed_upto(dates, n);
    lemma_undetermined_upto(dates, n);
    let f = fixed_upto(dates, n);
    let u = undetermined_upto(dates, n);
    lemma_perms_below(u, n);
    lemma_placements_below(f, perms(u), n);
    let all = seq![f] + placements(f, perms(u));
    assert forall|k: int| 0 <= k < all.len() implies all_below(#[trigger] all[k], n) by {
        if k > 0 {
            assert(all[k] == placements(f, perms(u))[k - 1]);
        }
    }
    assert forall|k: int| 0 <= k < raw_orders(dates).len() implies all_below(#[trigger] raw_orders(dates)[k], n) by {
        if u.len() > 0 {
            assert(raw_orders(dates)[k] == all[k + 1]);
        } else {
            assert(raw_orders(dates)[k] == all[k]);
        }
    }
}

/// The orders of `xs` (see [`perms`]).
pub fn permutations(xs: &Vec<usize>) -> (r: Vec<Vec<usize>>)
    ensures
        nested(r@) == perms(xs@),
    decreases xs.len(),
{
    if xs.len() == 0 {
        let v: Vec<Vec<usize>> = vec![Vec::new()];
        assert(nested(v@) =~= seq![Seq::<usize>::empty()]);
        return v;
    }
    let mut out: Vec<Vec<usize>> = Vec::new();
    let mut i: usize = 0;
    assert(nested(out@) + perms_from(xs@, 0) =~= perms_from(xs@, 0));
    while i < xs.len()
        invariant
            i <= xs.len(),
            perms(xs@) == perms_from(xs@, 0),
            perms_from(xs@, 0) == nested(out@) + perms_from(xs@, i as int),
        decreases xs.len() - i,
    {
        let mut rest = xs.clone();
        let x = rest.remove(i);
        let sub = permutations(&rest);
        let ghost before = nested(out@);
        let mut m: usize = 0;
        while m < sub.len()
            invariant
                m <= sub.len(),
                nested(out@) == before + with_first(nested(sub@), x).take(m as int),
            decreases sub.len() - m,
        {
            let mut q = sub[m].clone();
            q.insert(0, x);
            let ghost o = out@;
            out.push(q);
            assert(nested(out@) =~= nested(o).push(q@));
            assert(with_first(nested(sub@), x).take(m + 1) =~= with_first(nested(sub@), x).take(m as int).push(
                seq![x] + sub@[m as int]@,
            ));
            assert(q@ =~= seq![x] + sub@[m as int]@);
            m = m + 1;
        }
        assert(with_first(nested(sub@), x).take(sub.len() as int) =~= with_first(nested(sub@), x));
        assert(perms_from(xs@, i as int) == with_first(perms(xs@.remove(i as int)), xs@[i as int]) + perms_from(
            xs@,
            i + 1,
        ));
        assert(perms_from(xs@, 0) =~= nested(out@) + perms_from(xs@, i + 1));
        i = i + 1;
    }
    assert(nested(out@) + perms_from(xs@, i as int) =~= nested(out@));
    out
}

fn spread_exec(seqs: &Vec<Vec<usize>>, s: usize) -> (r: Vec<Vec<usize>>)
    ensures
        nested(r@) == spread(nested(seqs@), s),
{
    let mut out: Vec<Vec<usize>> = Vec::new();
    let mut m: usize = 0;
    assert(nested(seqs@).take(0) =~= Seq::<Seq<usize>>::empty());
    while m < seqs.len()
        invariant
            m <= seqs.len(),
            nested(out@) == spread(nested(seqs@).take(m as int), s),
        decreases seqs.len() - m,
    {
        let q = &seqs[m];
        let ghost before = nested(out@);
        let mut pos: usize = 0;
        let mut done = false;
        while !done
            invariant
                pos <= q.len(),
                m < seqs.len(),
                q@ == seqs@[m as int]@,
                nested(out@) == before + insertions(q@, s).take(if done { q.len() + 1 } else { pos as int }),
            decreases q.len() + 1 - pos, if done { 0int } else { 1int },
        {
            let mut v = q.clone();
            v.insert(pos, s);
            let ghost o = out@;
            out.push(v);
            assert(nested(out@) =~= nested(o).push(v@));
            assert(insertions(q@, s).take(pos + 1) =~= insertions(q@, s).take(pos as int).push(q@.insert(pos as int, s)));
            if pos == q.len() {
                done = true;
            } else {
                pos = pos + 1;
            }
        }
        assert(insertions(q@, s).take(q.len() + 1) =~= insertions(q@, s));
        assert(nested(seqs@).take(m + 1).drop_last() =~= nested(seqs@).take(m as int));
        assert(nested(seqs@).take(m + 1).last() == q@);
        m = m + 1;
    }
    assert(nested(seqs@).take(seqs.len() as int) =~= nested(seqs@));
    out
}

fn place_all_exec(fixed: &Vec<usize>, u: &Vec<usize>) -> (r: Vec<Vec<usize>>)
    ensures
        nested(r@) == place_all(fixed@, u@),
{
    let mut seqs: Vec<Vec<usize>> = vec![fixed.clone()];
    assert(nested(seqs@) =~= seq![fixed@]);
    assert(u@.take(0) =~= Seq::<usize>::empty());
    let mut k: usize = 0;
    while k < u.len()
        invariant
            k <= u.len(),
            nested(seqs@) == place_all(fixed@, u@.take(k as int)),
        decreases u.len() - k,
    {
        seqs = spread_exec(&seqs, u[k]);
        assert(u@.take(k + 1).drop_last() =~= u@.take(k as int));
        assert(u@.take(k + 1).last() == u@[k as int]);
        k = k + 1;
    }
    assert(u@.take(u.len() as int) =~= u@);
    seqs
}

fn append_orders(out: &mut Vec<Vec<usize>>, more: Vec<Vec<usize>>)
    ensures
        nested(final(out)@) == nested(old(out)@) + nested(more@),
{
    let mut more = more;
    let ghost o = out@;
    let ghost m = more@;
    out.append(&mut more);
    assert(nested(out@) =~= nested(o) + nested(m));
}

/// The labels of the orders `a` and `b` are the same.
fn same_labels(stages: &[Stage], a: &Vec<usize>, b: &Vec<usize>) -> (r: bool)
    requires
        all_below(a@, stages@.len() as int),
        all_below(b@, stages@.len() as int),
    ensures
        r == (order_labels(a@, stage_labels(stages@)) == order_labels(b@, stage_labels(stages@))),
{
    let ghost labels = stage_labels(stages@);
    if a.len() != b.len() {
        assert(order_labels(a@, labels).len() != order_labels(b@, labels).len());
        return false;
    }
    let mut p: usize = 0;
    while p < a.len()
        invariant
            p <= a.len() == b.len(),
            all_below(a@, stages@.len() as int),
            all_below(b@, stages@.len() as int),
            labels == stage_labels(stages@),
            forall|m: int| 0 <= m < p ==> labels[a@[m] as int] == labels[b@[m] as int],
        decreases a.len() - p,
    {
        assert((a@[p as int] as int) < stages@.len());
        assert((b@[p as int] as int) < stages@.len());
        if !str_eq(stages[a[p]].label.as_str(), stages[b[p]].label.as_str()) {
            assert(order_labels(a@, labels)[p as int] != order_labels(b@, labels)[p as int]);
            return false;
        }
        p = p + 1;
    }
    assert(order_labels(a@, labels) =~= order_labels(b@, labels));
    true
}

/// The orders in which the stages are tried (see [`spec_application_orders`]).
pub fn application_orders(stages: &[Stage]) -> (r: Vec<Vec<usize>>)
    ensures
        nested(r@) == spec_application_orders(stages@),
{
    let ghost dates = stage_dates(stages@);
    let (fixed, open) = split_by_dates(stages);
    let ps = permutations(&open);
    let mut all: Vec<Vec<usize>> = vec![fixed.clone()];
    assert(nested(all@) =~= seq![fixed@]);
    let mut k: usize = 0;
    assert(nested(ps@).take(0) =~= Seq::<Seq<usize>>::empty());
    while k < ps.len()
        invariant
            k <= ps.len(),
            nested(all@) == seq![fixed@] + placements(fixed@, nested(ps@).take(k as int)),
        decreases ps.len() - k,
    {
        append_orders(&mut all, place_all_exec(&fixed, &ps[k]));
        assert(nested(ps@).take(k + 1).drop_last() =~= nested(ps@).take(k as int));
        assert(nested(ps@).take(k + 1).last() == ps@[k as int]@);
        assert(nested(all@) =~= seq![fixed@] + placements(fixed@, nested(ps@).take(k + 1)));
        k = k + 1;
    }
    assert(nested(ps@).take(ps.len() as int) =~= nested(ps@));
    if open.len() > 0 {
        let ghost a0 = nested(all@);
        all.remove(0);
        assert(nested(all@) =~= a0.drop_first());
    }
    assert(nested(all@) == raw_orders(dates));
    proof {
        lemma_raw_orders_below(dates);
    }
    let ghost raw = raw_orders(dates);
    let mut kept: Vec<Vec<usize>> = Vec::new();
    let mut i: usize = 0;
    assert(nested(kept@) =~= dedup_upto(raw, stage_labels(stages@), 0));
    while i < all.len()
        invariant
            i <= all.len(),
            nested(all@) == raw,
            dates == stage_dates(stages@),
            dates.len() == stages@.len(),
            forall|m: int| 0 <= m < raw.len() ==> all_below(#[trigger] raw[m], dates.len() as int),
            nested(kept@) == dedup_upto(raw, stage_labels(stages@), i as int),
            forall|m: int| 0 <= m < kept@.len() ==> all_below(#[trigger] kept@[m]@, stages@.len() as int),
        decreases all.len() - i,
    {
        assert(all@[i as int]@ == raw[i as int]);
        let mut found = false;
        let mut j: usize = 0;
        while j < kept.len() && !found
            invariant
                j <= kept.len(),
                i < all.len(),
                all@[i as int]@ == raw[i as int],
                all_below(raw[i as int], stages@.len() as int),
                forall|m: int| 0 <= m < kept@.len() ==> all_below(#[trigger] kept@[m]@, stages@.len() as int),
                found == exists|m: int| 0 <= m < j && order_labels(kept@[m]@, stage_labels(stages@))
                    == order_labels(raw[i as int], stage_labels(stages@)),
            decreases kept.len() - j,
        {
            if same_labels(stages, &kept[j], &all[i]) {
                found = true;
            }
            j = j + 1;
        }
        let ghost d = dedup_upto(raw, stage_labels(stages@), i as int);
        assert(found == exists|m: int| 0 <= m < d.len() && order_labels(d[m], stage_labels(stages@))
            == order_labels(raw[i as int], stage_labels(stages@))) by {
            if found {
                let m = choose|m: int| 0 <= m < j && order_labels(kept@[m]@, stage_labels(stages@))
                    == order_labels(raw[i as int], stage_labels(stages@));
                assert(d[m] == kept@[m]@);
            } else {
                assert(j == kept.len());
                if exists|m: int| 0 <= m < d.len() && order_labels(d[m], stage_labels(stages@))
                    == order_labels(raw[i as int], stage_labels(stages@)) {
                    let m = choose|m: int| 0 <= m < d.len() && order_labels(d[m], stage_labels(stages@))
                        == order_labels(raw[i as int], stage_labels(stages@));
                    assert(d[m] == kept@[m]@);
                }
            }
        }
        if !found {
            let q = all[i].clone();
            let ghost o = kept@;
            kept.push(q);
            assert(nested(kept@) =~= nested(o).push(q@));
        }
        i = i + 1;
    }
    kept
}

proof fn lemma_dedup_distinct(orders: Seq<Seq<usize>>, labels: Seq<Seq<char>>, n: int)
    ensures
        forall|a: int, b: int|
            0 <= a < b < dedup_upto(orders, labels, n).len() ==> order_labels(
                #[trigger] dedup_upto(orders, labels, n)[a],
                labels,
            ) != order_labels(#[trigger] dedup_upto(orders, labels, n)[b], labels),
    decreases n,
{
    if n > 0 {
        lemma_dedup_distinct(orders, labels, n - 1);
        let d = dedup_upto(orders, labels, n - 1);
        if !(exists|j: int| 0 <= j < d.len() && order_labels(d[j], labels) == order_labels(orders[n - 1], labels)) {
            let d2 = d.push(orders[n - 1]);
            assert forall|a: int, b: int| 0 <= a < b < d2.len() implies order_labels(#[trigger] d2[a], labels)
                != order_labels(#[trigger] d2[b], labels) by {
                assert(d2[a] == d[a]);
                if b < d.len() {
                    assert(d2[b] == d[b]);
                } else {
                    assert(d2[b] == orders[n - 1]);
                }
            }
        }
    }
}

/// No two orders tried have the same sequence of labels.
pub proof fn law_orders_distinct(stages: Seq<Stage>, a: int, b: int)
    requires
        0 <= a < b < spec_application_orders(stages).len(),
    ensures
        order_labels(spec_application_orders(stages)[a], stage_labels(stages)) != order_labels(
            spec_application_orders(stages)[b],
            stage_labels(stages),
        ),
{
    let o = raw_orders(stage_dates(stages));
    lemma_dedup_distinct(o, stage_labels(stages), o.len() as int);
}

// ---------------------------------------------------------------------------------------
// Every order holds each stage once

/// The places `0..n` of the stages.
pub open spec fn stage_indices(n: int) -> Seq<usize> {
    Seq::new(n as nat, |i: int| i as usize)
}

proof fn lemma_split_multiset(dates: Seq<Option<Seq<char>>>, n: int)
    requires
        0 <= n <= dates.len(),
        dates.len() <= usize::MAX,
    ensures
        fixed_upto(dates, n).to_multiset().add(undetermined_upto(dates, n).to_multiset())
            == stage_indices(n).to_multiset(),
    decreases n,
{
    broadcast use vstd::seq_lib::group_to_multiset_ensures, vstd::multiset::group_multiset_axioms;
    if n == 0 {
        assert(stage_indices(0) =~= Seq::<usize>::empty());
        assert(fixed_upto(dates, 0).to_multiset().add(undetermined_upto(dates, 0).to_multiset()) =~= Multiset::empty());
    } else {
        lemma_split_multiset(dates, n - 1);
        let f = fixed_upto(dates, n - 1);
        let u = undetermined_upto(dates, n - 1);
        let x = (n - 1) as usize;
        assert(stage_indices(n) =~= stage_indices(n - 1).push(x));
        if dates[n - 1] is Some {
            lemma_insert_pos(f, dates, n - 1);
            vstd::seq_lib::to_multiset_insert(f, insert_pos(f, dates, n - 1), x);
            assert(f.insert(insert_pos(f, dates, n - 1), x).to_multiset().add(u.to_multiset()) =~= f.to_multiset().add(
                u.to_multiset(),
            ).insert(x));
        } else {
            assert(f.to_multiset().add(u.push(x).to_multiset()) =~= f.to_multiset().add(u.to_multiset()).insert(x));
        }
    }
}

proof fn lemma_perms_multiset(xs: Seq<usize>)
    ensures
        forall|k: int| 0 <= k < perms(xs).len() ==> (#[trigger] perms(xs)[k]).to_multiset() == xs.to_multiset(),
    decreases xs.len(), xs.len() + 1,
{
    broadcast use vstd::seq_lib::group_to_multiset_ensures, vstd::multiset::group_multiset_axioms;
    if xs.len() == 0 {
        assert forall|k: int| 0 <= k < perms(xs).len() implies (#[trigger] perms(xs)[k]).to_multiset() == xs.to_multiset() by {
            assert(perms(xs)[k] =~= xs);
        }
    } else {
        assert(perms(xs) == perms_from(xs, 0));
        lemma_perms_from_multiset(xs, 0);
    }
}

proof fn lemma_perms_from_multiset(xs: Seq<usize>, i: int)
    ensures
        forall|k: int| 0 <= k < perms_from(xs, i).len() ==> (#[trigger] perms_from(xs, i)[k]).to_multiset() == xs.to_multiset(),
    decreases xs.len(), xs.len() - i,
{
    broadcast use vstd::seq_lib::group_to_multiset_ensures, vstd::multiset::group_multiset_axioms;
    if 0 <= i < xs.len() {
        let rest = xs.remove(i);
        lemma_perms_multiset(rest);
        lemma_perms_from_multiset(xs, i + 1);
        let a = with_first(perms(rest), xs[i]);
        let b = perms_from(xs, i + 1);
        assert forall|k: int| 0 <= k < perms_from(xs, i).len() implies (#[trigger] perms_from(xs, i)[k]).to_multiset()
            == xs.to_multiset() by {
            if k < a.len() {
                let p = perms(rest)[k];
                assert(perms_from(xs, i)[k] == seq![xs[i]] + p);
                vstd::seq_lib::lemma_multiset_commutative(seq![xs[i]], p);
                assert(seq![xs[i]] =~= Seq::<usize>::empty().push(xs[i]));
                assert(xs.contains(xs[i]));
                assert((seq![xs[i]] + p).to_multiset() =~= xs.to_multiset());
            } else {
                assert(perms_from(xs, i)[k] == b[k - a.len()]);
            }
        }
    }
}

proof fn lemma_spread_multiset(seqs: Seq<Seq<usize>>, s: usize, m: Multiset<usize>)
    requires
        forall|k: int| 0 <= k < seqs.len() ==> (#[trigger] seqs[k]).to_multiset() == m,
    ensures
        forall|k: int| 0 <= k < spread(seqs, s).len() ==> (#[trigger] spread(seqs, s)[k]).to_multiset() == m.insert(s),
    decreases seqs.len(),
{
    broadcast use vstd::seq_lib::group_to_multiset_ensures;
    if seqs.len() > 0 {
        assert forall|k: int| 0 <= k < seqs.drop_last().len() implies (#[trigger] seqs.drop_last()[k]).to_multiset() == m by {
            assert(seqs.drop_last()[k] == seqs[k]);
        }
        lemma_spread_multiset(seqs.drop_last(), s, m);
        let a = spread(seqs.drop_last(), s);
        let q = seqs.last();
        assert(q.to_multiset() == m) by {
            assert(q == seqs[seqs.len() - 1]);
        }
        assert forall|k: int| 0 <= k < spread(seqs, s).len() implies (#[trigger] spread(seqs, s)[k]).to_multiset() == m.insert(s) by {
            if k < a.len() {
                assert(spread(seqs, s)[k] == a[k]);
            } else {
                let pos = k - a.len();
                assert(spread(seqs, s)[k] == q.insert(pos, s));
                vstd::seq_lib::to_multiset_insert(q, pos, s);
            }
        }
    }
}

proof fn lemma_place_all_multiset(fixed: Seq<usize>, u: Seq<usize>)
    ensures
        forall|k: int| 0 <= k < place_all(fixed, u).len() ==> (#[trigger] place_all(fixed, u)[k]).to_multiset()
            == fixed.to_multiset().add(u.to_multiset()),
    decreases u.len(),
{
    broadcast use vstd::seq_lib::group_to_multiset_ensures, vstd::multiset::group_multiset_axioms;
    if u.len() == 0 {
        assert forall|k: int| 0 <= k < place_all(fixed, u).len() implies (#[trigger] place_all(fixed, u)[k]).to_multiset()
            == fixed.to_multiset().add(u.to_multiset()) by {
            assert(place_all(fixed, u)[k] == fixed);
            assert(fixed.to_multiset().add(u.to_multiset()) =~= fixed.to_multiset());
        }
    } else {
        lemma_place_all_multiset(fixed, u.drop_last());
        lemma_spread_multiset(place_all(fixed, u.drop_last()), u.last(), fixed.to_multiset().add(u.drop_last().to_multiset()));
        assert(u =~= u.drop_last().push(u.last()));
        assert(fixed.to_multiset().add(u.drop_last().to_multiset()).insert(u.last()) =~= fixed.to_multiset().add(
            u.to_multiset(),
        ));
    }
}

proof fn lemma_placements_multiset(fixed: Seq<usize>, ps: Seq<Seq<usize>>, m: Multiset<usize>)
    requires
        forall|k: int| 0 <= k < ps.len() ==> fixed.to_multiset().add((#[trigger] ps[k]).to_multiset()) == m,
    ensures
        forall|k: int| 0 <= k < placements(fixed, ps).len() ==> (#[trigger] placements(fixed, ps)[k]).to_multiset() == m,
    decreases ps.len(),
{
    if ps.len() > 0 {
        assert forall|k: int| 0 <= k < ps.drop_last().len() implies fixed.to_multiset().add(
            (#[trigger] ps.drop_last()[k]).to_multiset(),
        ) == m by {
            assert(ps.drop_last()[k] == ps[k]);
        }
        lemma_placements_multiset(fixed, ps.drop_last(), m);
        lemma_place_all_multiset(fixed, ps.last());
        assert(fixed.to_multiset().add(ps.last().to_multiset()) == m) by {
            assert(ps.last() == ps[ps.len() - 1]);
        }
        let a = placements(fixed, ps.drop_last());
        let b = place_all(fixed, ps.last());
        assert forall|k: int| 0 <= k < placements(fixed, ps).len() implies (#[trigger] placements(fixed, ps)[k]).to_multiset()
            == m by {
            if k < a.len() {
                assert(placements(fixed, ps)[k] == a[k]);
            } else {
                assert(placements(fixed, ps)[k] == b[k - a.len()]);
            }
        }
    }
}

proof fn lemma_dedup_from(orders: Seq<Seq<usize>>, labels: Seq<Seq<char>>, n: int)
    requires
        0 <= n <= orders.len(),
    ensures
        forall|k: int| 0 <= k < dedup_upto(orders, labels, n).len() ==> exists|j: int|
            0 <= j < n && orders[j] == #[trigger] dedup_upto(orders, labels, n)[k],
    decreases n,
{
    if n > 0 {
        lemma_dedup_from(orders, labels, n - 1);
        let d = dedup_upto(orders, labels, n - 1);
        let d2 = dedup_upto(orders, labels, n);
        assert forall|k: int| 0 <= k < d2.len() implies exists|j: int| 0 <= j < n && orders[j] == #[trigger] d2[k] by {
            if k < d.len() {
                assert(d2[k] == d[k]);
                let j = choose|j: int| 0 <= j < n - 1 && orders[j] == d[k];
                assert(orders[j] == d2[k]);
            } else {
                assert(d2[k] == orders[n - 1]);
            }
        }
    }
}

/// Every order tried holds each stage of the list exactly once.
pub proof fn law_orders_hold_each_stage_once(stages: Seq<Stage>, a: int)
    requires
        0 <= a < spec_application_orders(stages).len(),
        stages.len() <= usize::MAX,
    ensures
        spec_application_orders(stages)[a].to_multiset() == stage_indices(stages.len() as int).to_multiset(),
{
    broadcast use vstd::seq_lib::group_to_multiset_ensures, vstd::multiset::group_multiset_axioms;
    let dates = stage_dates(stages);
    let n = dates.len() as int;
    let f = fixed_upto(dates, n);
    let u = undetermined_upto(dates, n);
    let m = stage_indices(n).to_multiset();
    lemma_split_multiset(dates, n);
    lemma_perms_multiset(u);
    assert forall|k: int| 0 <= k < perms(u).len() implies f.to_multiset().add((#[trigger] perms(u)[k]).to_multiset()) == m by {
    }
    lemma_placements_multiset(f, perms(u), m);
    let raw = raw_orders(dates);
    let all = seq![f] + placements(f, perms(u));
    assert forall|k: int| 0 <= k < raw.len() implies (#[trigger] raw[k]).to_multiset() == m by {
        if u.len() > 0 {
            assert(raw[k] == all[k + 1]);
            assert(all[k + 1] == placements(f, perms(u))[k]);
        } else {
            assert(raw[k] == all[k]);
            if k == 0 {
                assert(u.to_multiset() =~= Multiset::empty());
                assert(f.to_multiset() =~= m);
            } else {
                assert(all[k] == placements(f, perms(u))[k - 1]);
            }
        }
    }
    lemma_dedup_from(raw, stage_labels(stages), raw.len() as int);
    let o = spec_application_orders(stages)[a];
    let j = choose|j: int| 0 <= j < raw.len() && raw[j] == o;
    assert(raw[j].to_multiset() == m);
}

// ---------------------------------------------------------------------------------------
// The stages of fixed dates keep the date order

/// The stages of `q` whose dates are fixed, in their order in `q`.
pub open spec fn fixed_part(q: Seq<usize>, dates: Seq<Option<Seq<char>>>) -> Seq<usize>
    decreases q.len(),
{
    if q.len() == 0 {
        Seq::empty()
    } else {
        (if dates[q[0] as int] is Some {
            seq![q[0]]
        } else {
            Seq::empty()
        }) + fixed_part(q.drop_first(), dates)
    }
}

/// Every stage of `q` has a date still to be fixed.
pub open spec fn all_open(q: Seq<usize>, dates: Seq<Option<Seq<char>>>) -> bool {
    forall|k: int| 0 <= k < q.len() ==> dates[#[trigger] q[k] as int] is None
}

proof fn lemma_fixed_part_insert(q: Seq<usize>, pos: int, s: usize, dates: Seq<Option<Seq<char>>>)
    requires
        0 <= pos <= q.len(),
        dates[s as int] is None,
    ensures
        fixed_part(q.insert(pos, s), dates) == fixed_part(q, dates),
    decreases q.len(),
{
    if pos == 0 {
        assert(q.insert(0, s).drop_first() =~= q);
        assert(q.insert(0, s)[0] == s);
    } else {
        assert(q.insert(pos, s).drop_first() =~= q.drop_first().insert(pos - 1, s));
        assert(q.insert(pos, s)[0] == q[0]);
        lemma_fixed_part_insert(q.drop_first(), pos - 1, s, dates);
    }
}

proof fn lemma_fixed_part_dated(q: Seq<usize>, dates: Seq<Option<Seq<char>>>)
    requires
        forall|k: int| 0 <= k < q.len() ==> dates[#[trigger] q[k] as int] is Some,
    ensures
        fixed_part(q, dates) == q,
    decreases q.len(),
{
    if q.len() > 0 {
        assert forall|k: int| 0 <= k < q.drop_first().len() implies dates[#[trigger] q.drop_first()[k] as int] is Some by {
            assert(q.drop_first()[k] == q[k + 1]);
        }
        lemma_fixed_part_dated(q.drop_first(), dates);
        assert(dates[q[0] as int] is Some);
        assert(q =~= seq![q[0]] + q.drop_first());
    }
}

proof fn lemma_spread_fixed_part(seqs: Seq<Seq<usize>>, s: usize, dates: Seq<Option<Seq<char>>>, f: Seq<usize>)
    requires
        dates[s as int] is None,
        forall|k: int| 0 <= k < seqs.len() ==> fixed_part(#[trigger] seqs[k], dates) == f,
    ensures
        forall|k: int| 0 <= k < spread(seqs, s).len() ==> fixed_part(#[trigger] spread(seqs, s)[k], dates) == f,
    decreases seqs.len(),
{
    if seqs.len() > 0 {
        assert forall|k: int| 0 <= k < seqs.drop_last().len() implies fixed_part(#[trigger] seqs.drop_last()[k], dates) == f by {
            assert(seqs.drop_last()[k] == seqs[k]);
        }
        lemma_spread_fixed_part(seqs.drop_last(), s, dates, f);
        let a = spread(seqs.drop_last(), s);
        let q = seqs.last();
        assert(fixed_part(q, dates) == f) by {
            assert(q == seqs[seqs.len() - 1]);
        }
        assert forall|k: int| 0 <= k < spread(seqs, s).len() implies fixed_part(#[trigger] spread(seqs, s)[k], dates) == f by {
            if k < a.len() {
                assert(spread(seqs, s)[k] == a[k]);
            } else {
                let pos = k - a.len();
                assert(spread(seqs, s)[k] == q.insert(pos, s));
                lemma_fixed_part_insert(q, pos, s, dates);
            }
        }
    }
}

proof fn lemma_place_all_fixed_part(fixed: Seq<usize>, u: Seq<usize>, dates: Seq<Option<Seq<char>>>)
    requires
        all_open(u, dates),
    ensures
        forall|k: int| 0 <= k < place_all(fixed, u).len() ==> fixed_part(#[trigger] place_all(fixed, u)[k], dates)
            == fixed_part(fixed, dates),
    decreases u.len(),
{
    if u.len() == 0 {
        assert forall|k: int| 0 <= k < place_all(fixed, u).len() implies fixed_part(#[trigger] place_all(fixed, u)[k], dates)
            == fixed_part(fixed, dates) by {
            assert(place_all(fixed, u)[k] == fixed);
        }
    } else {
        assert(all_open(u.drop_last(), dates)) by {
            assert forall|k: int| 0 <= k < u.drop_last().len() implies dates[#[trigger] u.drop_last()[k] as int] is None by {
                assert(u.drop_last()[k] == u[k]);
            }
        }
        lemma_place_all_fixed_part(fixed, u.drop_last(), dates);
        assert(dates[u.last() as int] is None) by {
            assert(u.last() == u[u.len() - 1]);
        }
        lemma_spread_fixed_part(place_all(fixed, u.drop_last()), u.last(), dates, fixed_part(fixed, dates));
    }
}

proof fn lemma_undetermined_open(dates: Seq<Option<Seq<char>>>, n: int)
    requires
        0 <= n <= dates.len(),
        dates.len() <= usize::MAX,
    ensures
        all_open(undetermined_upto(dates, n), dates),
    decreases n,
{
    if n > 0 {
        lemma_undetermined_open(dates, n - 1);
        let o = undetermined_upto(dates, n - 1);
        if dates[n - 1] is None {
            assert forall|k: int| 0 <= k < o.push((n - 1) as usize).len() implies dates[#[trigger] o.push(
                (n - 1) as usize,
            )[k] as int] is None by {
                if k < o.len() {
                    assert(o.push((n - 1) as usize)[k] == o[k]);
                }
            }
        }
    }
}

/// Every order of `xs` holds only members of `xs`.
proof fn lemma_perms_open(xs: Seq<usize>, dates: Seq<Option<Seq<char>>>)
    requires
        all_open(xs, dates),
    ensures
        forall|k: int| 0 <= k < perms(xs).len() ==> all_open(#[trigger] perms(xs)[k], dates),
{
    broadcast use vstd::seq_lib::group_to_multiset_ensures;
    lemma_perms_multiset(xs);
    assert forall|k: int| 0 <= k < perms(xs).len() implies all_open(#[trigger] perms(xs)[k], dates) by {
        let p = perms(xs)[k];
        assert forall|m: int| 0 <= m < p.len() implies dates[#[trigger] p[m] as int] is None by {
            assert(p.contains(p[m]));
            assert(p.to_multiset().count(p[m]) > 0);
            assert(xs.to_multiset().count(p[m]) > 0);
            assert(xs.contains(p[m]));
            let j = choose|j: int| 0 <= j < xs.len() && xs[j] == p[m];
            assert(dates[xs[j] as int] is None);
        }
    }
}

proof fn lemma_placements_fixed_part(fixed: Seq<usize>, ps: Seq<Seq<usize>>, dates: Seq<Option<Seq<char>>>)
    requires
        forall|k: int| 0 <= k < ps.len() ==> all_open(#[trigger] ps[k], dates),
    ensures
        forall|k: int| 0 <= k < placements(fixed, ps).len() ==> fixed_part(#[trigger] placements(fixed, ps)[k], dates)
            == fixed_part(fixed, dates),
    decreases ps.len(),
{
    if ps.len() > 0 {
        assert forall|k: int| 0 <= k < ps.drop_last().len() implies all_open(#[trigger] ps.drop_last()[k], dates) by {
            assert(ps.drop_last()[k] == ps[k]);
        }
        lemma_placements_fixed_part(fixed, ps.drop_last(), dates);
        assert(all_open(ps.last(), dates)) by {
            assert(ps.last() == ps[ps.len() - 1]);
        }
        lemma_place_all_fixed_part(fixed, ps.last(), dates);
        let a = placements(fixed, ps.drop_last());
        let b = place_all(fixed, ps.last());
        assert forall|k: int| 0 <= k < placements(fixed, ps).len() implies fixed_part(#[trigger] placements(fixed, ps)[k], dates)
            == fixed_part(fixed, dates) by {
            if k < a.len() {
                assert(placements(fixed, ps)[k] == a[k]);
            } else {
                assert(placements(fixed, ps)[k] == b[k - a.len()]);
            }
        }
    }
}

/// In every order tried, the stages whose dates are fixed come in the date order.
pub proof fn law_fixed_stages_keep_date_order(stages: Seq<Stage>, a: int)
    requires
        0 <= a < spec_application_orders(stages).len(),
        stages.len() <= usize::MAX,
    ensures
        fixed_part(spec_application_orders(stages)[a], stage_dates(stages)) == fixed_upto(
            stage_dates(stages),
            stages.len() as int,
        ),
{
    let dates = stage_dates(stages);
    let n = dates.len() as int;
    let f = fixed_upto(dates, n);
    let u = undetermined_upto(dates, n);
    lemma_fixed_dated(dates, n);
    lemma_fixed_part_dated(f, dates);
    lemma_undetermined_open(dates, n);
    lemma_perms_open(u, dates);
    lemma_placements_fixed_part(f, perms(u), dates);
    let raw = raw_orders(dates);
    let all = seq![f] + placements(f, perms(u));
    assert forall|k: int| 0 <= k < raw.len() implies fixed_part(#[trigger] raw[k], dates) == f by {
        if u.len() > 0 {
            assert(raw[k] == all[k + 1]);
            assert(all[k + 1] == placements(f, perms(u))[k]);
        } else {
            assert(raw[k] == all[k]);
            if k > 0 {
                assert(all[k] == placements(f, perms(u))[k - 1]);
            }
        }
    }
    lemma_dedup_from(raw, stage_labels(stages), raw.len() as int);
    let o = spec_application_orders(stages)[a];
    let j = choose|j: int| 0 <= j < raw.len() && raw[j] == o;
    assert(fixed_part(raw[j], dates) == f);
}

proof fn lemma_text_lt_trans(a: Seq<char>, b: Seq<char>, c: Seq<char>)
    requires
        text_lt(a, b),
        text_lt(b, c),
    ensures
        text_lt(a, c),
    decreases a.len(),
{
    if a.len() > 0 && b.len() > 0 && c.len() > 0 && a[0] == b[0] && b[0] == c[0] {
        lemma_text_lt_trans(a.drop_first(), b.drop_first(), c.drop_first());
    }
}

proof fn lemma_insert_pos_split(order: Seq<usize>, dates: Seq<Option<Seq<char>>>, k: int)
    ensures
        forall|i: int| 0 <= i < insert_pos(order, dates, k) && i < order.len() ==> !text_lt(
            dates[k].unwrap(),
            dates[#[trigger] order[i] as int].unwrap(),
        ),
        insert_pos(order, dates, k) < order.len() ==> text_lt(
            dates[k].unwrap(),
            dates[order[insert_pos(order, dates, k)] as int].unwrap(),
        ),
    decreases order.len(),
{
    if order.len() > 0 && !text_lt(dates[k].unwrap(), dates[order[0] as int].unwrap()) {
        let rest = order.drop_first();
        lemma_insert_pos_split(rest, dates, k);
        assert forall|i: int| 0 <= i < insert_pos(order, dates, k) && i < order.len() implies !text_lt(
            dates[k].unwrap(),
            dates[#[trigger] order[i] as int].unwrap(),
        ) by {
            if i > 0 {
                assert(order[i] == rest[i - 1]);
            }
        }
        lemma_insert_pos(rest, dates, k);
        assert(insert_pos(order, dates, k) == 1 + insert_pos(rest, dates, k));
        if insert_pos(order, dates, k) < order.len() {
            assert(order[insert_pos(order, dates, k)] == rest[insert_pos(rest, dates, k)]);
        }
    }
}

/// No stage of the date order comes before one of an earlier date.
pub open spec fn date_sorted(order: Seq<usize>, dates: Seq<Option<Seq<char>>>) -> bool {
    forall|a: int, b: int|
        0 <= a < b < order.len() ==> !text_lt(
            dates[#[trigger] order[b] as int].unwrap(),
            dates[#[trigger] order[a] as int].unwrap(),
        )
}

proof fn lemma_fixed_sorted(dates: Seq<Option<Seq<char>>>, n: int)
    requires
        0 <= n <= dates.len(),
        dates.len() <= usize::MAX,
    ensures
        date_sorted(fixed_upto(dates, n), dates),
    decreases n,
{
    if n > 0 {
        lemma_fixed_sorted(dates, n - 1);
        let o = fixed_upto(dates, n - 1);
        if dates[n - 1] is Some {
            let k = n - 1;
            lemma_insert_pos(o, dates, k);
            lemma_insert_pos_split(o, dates, k);
            let p = insert_pos(o, dates, k);
            let o2 = o.insert(p, k as usize);
            assert forall|a: int, b: int| 0 <= a < b < o2.len() implies !text_lt(
                dates[#[trigger] o2[b] as int].unwrap(),
                dates[#[trigger] o2[a] as int].unwrap(),
            ) by {
                if b < p {
                    assert(o2[a] == o[a] && o2[b] == o[b]);
                } else if b == p {
                    assert(o2[a] == o[a]);
                    assert(o2[b] == k as usize);
                } else if a > p {
                    assert(o2[a] == o[a - 1] && o2[b] == o[b - 1]);
                } else if a == p {
                    assert(o2[a] == k as usize);
                    assert(o2[b] == o[b - 1]);
                    if text_lt(dates[o[b - 1] as int].unwrap(), dates[k].unwrap()) {
                        lemma_text_lt_trans(dates[o[b - 1] as int].unwrap(), dates[k].unwrap(), dates[o[p] as int].unwrap());
                        if b - 1 > p {
                            assert(!text_lt(dates[o[b - 1] as int].unwrap(), dates[o[p] as int].unwrap()));
                        } else {
                            lemma_text_lt_irrefl(dates[o[p] as int].unwrap());
                        }
                    }
                } else {
                    assert(o2[a] == o[a] && o2[b] == o[b - 1]);
                }
            }
        }
    }
}

proof fn lemma_text_lt_irrefl(a: Seq<char>)
    ensures
        !text_lt(a, a),
    decreases a.len(),
{
    if a.len() > 0 {
        lemma_text_lt_irrefl(a.drop_first());
    }
}

/// The date order puts no stage after one of a later date: of two stages with fixed dates,
/// the one that comes first never has the later date.
pub proof fn law_date_order_sorted(stages: Seq<Stage>, a: int, b: int)
    requires
        stages.len() <= usize::MAX,
        0 <= a < b < fixed_upto(stage_dates(stages), stages.len() as int).len(),
    ensures
        ({
            let f = fixed_upto(stage_dates(stages), stages.len() as int);
            !text_lt(stage_dates(stages)[f[b] as int].unwrap(), stage_dates(stages)[f[a] as int].unwrap())
        }),
{
    lemma_fixed_sorted(stage_dates(stages), stages.len() as int);
}

} // verus!
