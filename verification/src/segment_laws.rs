//! What splitting an instruction into segments keeps: the segments joined again with
//! commas give back the instruction without its full stops.

use vstd::prelude::*;
use crate::segments::{
    count_of, keep_commas, keep_mark, lemma_protect_count, loc_only, listing, merge_fold, merge_step, merged,
    protect_from, protect_head, desc_start, lemma_next_rule, next_rule, spec_split_segments_with, split_fold,
    split_plain, split_step, trim_commas, trim_stops, unkeep,
};
use crate::text::ends_with;

verus! {

/// Segments joined with commas.
pub open spec fn join_segments(v: Seq<Seq<char>>) -> Seq<char>
    decreases v.len(),
{
    if v.len() == 0 {
        Seq::empty()
    } else if v.len() == 1 {
        v[0]
    } else {
        join_segments(v.drop_last()) + seq!['、'] + v.last()
    }
}

/// Segments each followed by a comma.
pub open spec fn comma_each(v: Seq<Seq<char>>) -> Seq<char>
    decreases v.len(),
{
    if v.len() == 0 {
        Seq::empty()
    } else {
        comma_each(v.drop_last()) + v.last() + seq!['、']
    }
}

proof fn lemma_join_push(v: Seq<Seq<char>>, x: Seq<char>)
    ensures
        join_segments(v.push(x)) == if v.len() == 0 { x } else { join_segments(v) + seq!['、'] + x },
{
    assert(v.push(x).drop_last() =~= v);
}

proof fn lemma_join_comma(v: Seq<Seq<char>>)
    requires
        v.len() > 0,
    ensures
        join_segments(v) + seq!['、'] == comma_each(v),
    decreases v.len(),
{
    if v.len() > 1 {
        lemma_join_comma(v.drop_last());
        assert(join_segments(v) + seq!['、'] =~= (join_segments(v.drop_last()) + seq!['、']) + v.last() + seq!['、']);
    } else {
        assert(v.drop_last() =~= Seq::<Seq<char>>::empty());
        assert(join_segments(v) + seq!['、'] =~= comma_each(v.drop_last()) + v.last() + seq!['、']);
    }
}

/// The split so far, joined with what it is building, is the text read so far; after a
/// character that is no comma the current segment is not empty.
proof fn lemma_split_fold_join(body: Seq<char>, u: bool, strict: bool, n: int)
    requires
        0 <= n <= body.len(),
    ensures
        ({
            let st = split_fold(body, u, strict, n);
            &&& join_segments(st.0.push(st.1)) == body.take(n)
            &&& n > 0 && body[n - 1] != '、' ==> st.1.len() > 0 && st.1.last() == body[n - 1]
        }),
    decreases n,
{
    if n > 0 {
        lemma_split_fold_join(body, u, strict, n - 1);
        let st0 = split_fold(body, u, strict, n - 1);
        let st = split_fold(body, u, strict, n);
        let c = body[n - 1];
        lemma_join_push(st0.0, st0.1);
        lemma_join_push(st.0, st.1);
        assert(body.take(n) =~= body.take(n - 1).push(c));
        if st.0 == st0.0 {
            assert(st.1 == st0.1.push(c));
            assert(join_segments(st.0.push(st.1)) =~= body.take(n));
        } else {
            assert(c == '、');
            assert(st.0 == st0.0.push(st0.1));
            assert(st.1 == Seq::<char>::empty());
            lemma_join_push(st0.0.push(st0.1), Seq::empty());
            assert(join_segments(st.0.push(st.1)) =~= body.take(n));
        }
    } else {
        assert(body.take(0) =~= Seq::<char>::empty());
        assert(Seq::<Seq<char>>::empty().push(Seq::<char>::empty()) =~= seq![Seq::<char>::empty()]);
    }
}

/// The plain split of a text that does not end with a comma joins back to it, and its last
/// segment ends with the text's last character.
proof fn lemma_split_plain_join(s: Seq<char>, strict: bool)
    requires
        trim_stops(s).len() > 0,
        trim_stops(s).last() != '、',
    ensures
        join_segments(split_plain(s, strict)) == trim_stops(s),
        split_plain(s, strict).len() > 0,
        split_plain(s, strict).last().len() > 0,
        split_plain(s, strict).last().last() == trim_stops(s).last(),
{
    let body = trim_stops(s);
    let u = count_of(body, '「') != count_of(body, '」');
    lemma_split_fold_join(body, u, strict, body.len() as int);
    assert(body.take(body.len() as int) =~= body);
}

/// The merge so far, each piece followed by a comma, is the segments so far each followed
/// by a comma; what waits ends with the last segment and its comma.
proof fn lemma_merge_fold(segs: Seq<Seq<char>>, n: int)
    requires
        0 <= n <= segs.len(),
    ensures
        ({
            let (m, p) = merge_fold(segs, n);
            &&& comma_each(segs.take(n)) == comma_each(m) + p
            &&& p.len() > 0 ==> n > 0 && ends_with(p, segs[n - 1].push('、'))
        }),
    decreases n,
{
    if n > 0 {
        lemma_merge_fold(segs, n - 1);
        let (m0, p0) = merge_fold(segs, n - 1);
        let (m, p) = merge_fold(segs, n);
        let seg = segs[n - 1];
        assert(segs.take(n).drop_last() =~= segs.take(n - 1));
        if p.len() > 0 {
            assert(p == p0 + seg.push('、'));
            assert(comma_each(segs.take(n)) =~= comma_each(m) + p);
            assert(p.skip(p.len() - (seg.len() + 1)) =~= seg.push('、'));
        } else {
            if m == m0 {
                assert(p == p0 + seg.push('、'));
                assert(false);
            }
            assert(m == m0.push(p0 + seg));
            assert(m.drop_last() =~= m0);
            assert(comma_each(segs.take(n)) =~= comma_each(m) + p);
        }
    } else {
        assert(segs.take(0) =~= Seq::<Seq<char>>::empty());
        assert(comma_each(Seq::<Seq<char>>::empty()) + Seq::<char>::empty() =~= Seq::<char>::empty());
    }
}

proof fn lemma_trim_commas_one(y: Seq<char>)
    requires
        y.len() > 0,
        y.last() != '、',
    ensures
        trim_commas(y.push('、')) == y,
{
    assert(y.push('、').drop_last() =~= y);
    assert(trim_commas(y) == y);
    assert(trim_commas(y.push('、')) == trim_commas(y.push('、').drop_last()));
}

/// Joining fragments to the segments after them keeps the text, when the last segment does
/// not end with a comma.
proof fn lemma_merged_join(segs: Seq<Seq<char>>)
    requires
        segs.len() > 0,
        segs.last().len() > 0,
        segs.last().last() != '、',
    ensures
        join_segments(merged(segs)) == join_segments(segs),
{
    let n = segs.len() as int;
    lemma_merge_fold(segs, n);
    assert(segs.take(n) =~= segs);
    let (m, p) = merge_fold(segs, n);
    lemma_join_comma(segs);
    let last = segs.last();
    if p.len() > 0 {
        let w = p.drop_last();
        assert(p =~= w.push('、'));
        assert(w.last() == last.last()) by {
            assert(p.skip(p.len() - (last.len() + 1)) == last.push('、'));
            assert(p[p.len() - 2] == last.push('、')[last.len() - 1]);
        }
        lemma_trim_commas_one(w);
        assert(merged(segs) == m.push(w));
        lemma_join_comma(m.push(w));
        assert(m.push(w).drop_last() =~= m);
        assert(comma_each(m.push(w)) =~= comma_each(m) + p);
        assert(join_segments(m.push(w)) + seq!['、'] == join_segments(segs) + seq!['、']);
        assert(join_segments(m.push(w)) =~= (join_segments(m.push(w)) + seq!['、']).drop_last());
        assert(join_segments(segs) =~= (join_segments(segs) + seq!['、']).drop_last());
    } else {
        assert(comma_each(segs) =~= comma_each(m));
        if m.len() == 0 {
            assert(comma_each(m) =~= Seq::<char>::empty());
            assert(false);
        }
        lemma_join_comma(m);
        assert(join_segments(m) =~= (join_segments(m) + seq!['、']).drop_last());
        assert(join_segments(segs) =~= (join_segments(segs) + seq!['、']).drop_last());
    }
}

/// `y` is `x` with some of its commas made the mark that keeps them from splitting.
pub open spec fn commas_kept(x: Seq<char>, y: Seq<char>) -> bool {
    &&& y.len() == x.len()
    &&& forall|k: int| 0 <= k < x.len() ==> #[trigger] y[k] == x[k] || (x[k] == '、' && y[k] == keep_mark())
}

proof fn lemma_kept_concat(x1: Seq<char>, y1: Seq<char>, x2: Seq<char>, y2: Seq<char>)
    requires
        commas_kept(x1, y1),
        commas_kept(x2, y2),
    ensures
        commas_kept(x1 + x2, y1 + y2),
{
    assert forall|k: int| 0 <= k < (x1 + x2).len() implies #[trigger] (y1 + y2)[k] == (x1 + x2)[k] || ((x1 + x2)[k]
        == '、' && (y1 + y2)[k] == keep_mark()) by {
        if k < x1.len() {
            assert(y1[k] == x1[k] || (x1[k] == '、' && y1[k] == keep_mark()));
        } else {
            assert(y2[k - x1.len()] == x2[k - x1.len()] || (x2[k - x1.len()] == '、' && y2[k - x1.len()] == keep_mark()));
        }
    }
}

proof fn lemma_protect_kept(s: Seq<char>, last: int, from: int)
    requires
        0 <= last <= from <= s.len(),
    ensures
        commas_kept(s.subrange(last, s.len() as int), protect_from(s, last, from).0),
    decreases s.len() - from,
{
    let i = next_rule(s, from);
    lemma_next_rule(s, from);
    if i >= 0 {
        lemma_protect_kept(s, i, i + 4);
        let hx = s.subrange(last, i);
        let (h, c1) = protect_head(hx);
        if c1 {
            let st = desc_start(hx);
            assert(0 <= st <= hx.len()) by {
                crate::segments::lemma_desc_start(hx);
            }
            let desc = hx.skip(st);
            assert(h == hx.take(st) + keep_commas(desc));
            assert(commas_kept(hx.take(st), hx.take(st)));
            assert(commas_kept(desc, keep_commas(desc)));
            lemma_kept_concat(hx.take(st), hx.take(st), desc, keep_commas(desc));
            assert(hx.take(st) + desc =~= hx);
        } else {
            assert(commas_kept(hx, h));
        }
        lemma_kept_concat(hx, h, s.subrange(i, s.len() as int), protect_from(s, i, i + 4).0);
        assert(hx + s.subrange(i, s.len() as int) =~= s.subrange(last, s.len() as int));
    } else {
        assert(commas_kept(s.subrange(last, s.len() as int), s.subrange(last, s.len() as int)));
    }
}

proof fn lemma_kept_trim(x: Seq<char>, y: Seq<char>)
    requires
        commas_kept(x, y),
    ensures
        commas_kept(trim_stops(x), trim_stops(y)),
    decreases x.len(),
{
    if x.len() > 0 {
        let k = x.len() - 1;
        assert(y[k] == x[k] || (x[k] == '、' && y[k] == keep_mark()));
        if x.last() == '。' {
            assert(y.last() == '。');
            assert(commas_kept(x.drop_last(), y.drop_last())) by {
                assert forall|q: int| 0 <= q < x.drop_last().len() implies #[trigger] y.drop_last()[q] == x.drop_last()[q]
                    || (x.drop_last()[q] == '、' && y.drop_last()[q] == keep_mark()) by {
                    assert(y[q] == x[q] || (x[q] == '、' && y[q] == keep_mark()));
                }
            }
            lemma_kept_trim(x.drop_last(), y.drop_last());
        } else {
            assert(y.last() != '。');
        }
    }
}

proof fn lemma_kept_unkeep(x: Seq<char>, y: Seq<char>)
    requires
        commas_kept(x, y),
    ensures
        unkeep(x) == unkeep(y),
{
    assert forall|k: int| 0 <= k < x.len() implies #[trigger] unkeep(x)[k] == unkeep(y)[k] by {
        assert(y[k] == x[k] || (x[k] == '、' && y[k] == keep_mark()));
    }
    assert(unkeep(x) =~= unkeep(y));
}

proof fn lemma_join_unkeep(v: Seq<Seq<char>>)
    ensures
        join_segments(v.map_values(|x: Seq<char>| unkeep(x))) == unkeep(join_segments(v)),
    decreases v.len(),
{
    let f = |x: Seq<char>| unkeep(x);
    if v.len() > 1 {
        lemma_join_unkeep(v.drop_last());
        assert(v.map_values(f).drop_last() =~= v.drop_last().map_values(f));
        assert(unkeep(join_segments(v)) =~= unkeep(join_segments(v.drop_last())) + seq!['、'] + unkeep(v.last()));
    } else if v.len() == 1 {
        assert(join_segments(v.map_values(f)) == v.map_values(f)[0]);
    } else {
        assert(unkeep(Seq::<char>::empty()) =~= Seq::<char>::empty());
    }
}

proof fn lemma_unkeep_twice(x: Seq<char>)
    ensures
        unkeep(unkeep(x)) == unkeep(x),
{
    assert(unkeep(unkeep(x)) =~= unkeep(x));
}

/// Without the marks, the joined segments are the text without its full stops.
proof fn lemma_rejoin_unkept(s: Seq<char>, strict: bool)
    requires
        trim_stops(s).len() > 0,
        trim_stops(s).last() != '、',
    ensures
        unkeep(join_segments(spec_split_segments_with(s, strict))) == unkeep(trim_stops(s)),
    decreases count_of(s, '、'),
{
    let (ps, changed) = protect_from(s, 0, 0);
    if changed {
        lemma_protect_count(s, 0, 0);
        assert(s.subrange(0, s.len() as int) == s);
        lemma_protect_kept(s, 0, 0);
        lemma_kept_trim(s, ps);
        let ts = trim_stops(s);
        let tp = trim_stops(ps);
        assert(tp[tp.len() - 1] == ts[ts.len() - 1] || (ts[ts.len() - 1] == '、' && tp[tp.len() - 1] == keep_mark()));
        lemma_rejoin_unkept(ps, strict);
        let inner = spec_split_segments_with(ps, strict);
        lemma_join_unkeep(inner);
        lemma_unkeep_twice(join_segments(inner));
        lemma_kept_unkeep(ts, tp);
    } else {
        lemma_split_plain_join(s, strict);
        let segs = split_plain(s, strict);
        lemma_merged_join(segs);
    }
}

/// Splitting an instruction keeps its text: its segments joined again with commas give
/// back the instruction without its full stops, when that text is not empty, does not end
/// with a comma, and holds no mark that keeps a comma from splitting.
pub proof fn law_segments_rejoin(s: Seq<char>, strict: bool)
    requires
        trim_stops(s).len() > 0,
        trim_stops(s).last() != '、',
        !s.contains(keep_mark()),
    ensures
        join_segments(spec_split_segments_with(s, strict)) == trim_stops(s),
{
    let (ps, changed) = protect_from(s, 0, 0);
    let ts = trim_stops(s);
    assert(unkeep(ts) == ts) by {
        assert forall|k: int| 0 <= k < ts.len() implies #[trigger] unkeep(ts)[k] == ts[k] by {
            lemma_trim_prefix(s, k);
            if ts[k] == keep_mark() {
                assert(s.contains(keep_mark()));
            }
        }
        assert(unkeep(ts) =~= ts);
    }
    if changed {
        lemma_protect_count(s, 0, 0);
        assert(s.subrange(0, s.len() as int) == s);
        lemma_protect_kept(s, 0, 0);
        lemma_kept_trim(s, ps);
        let tp = trim_stops(ps);
        assert(tp[tp.len() - 1] == ts[ts.len() - 1] || (ts[ts.len() - 1] == '、' && tp[tp.len() - 1] == keep_mark()));
        lemma_rejoin_unkept(ps, strict);
        let inner = spec_split_segments_with(ps, strict);
        lemma_join_unkeep(inner);
        lemma_kept_unkeep(ts, tp);
    } else {
        lemma_split_plain_join(s, strict);
        lemma_merged_join(split_plain(s, strict));
    }
}

/// The text without its full stops is a prefix of the text.
proof fn lemma_trim_prefix(s: Seq<char>, k: int)
    requires
        0 <= k < trim_stops(s).len(),
    ensures
        k < s.len(),
        trim_stops(s)[k] == s[k],
    decreases s.len(),
{
    if s.len() > 0 && s.last() == '。' {
        lemma_trim_prefix(s.drop_last(), k);
    }
}

} // verus!
