//! Rewriting text: every occurrence of a phrase replaced by another, reading left to
//! right without overlaps (as `str::replace`).

use vstd::prelude::*;
use crate::text::{chars_of, has_at, starts_with};

verus! {

/// `s` from `i` on with each occurrence of `p` replaced by `q`, the occurrences taken from
/// left to right without overlapping.
pub open spec fn replace_from(s: Seq<char>, p: Seq<char>, q: Seq<char>, i: int) -> Seq<char>
    decreases s.len() - i,
{
    if i < 0 || i >= s.len() {
        Seq::empty()
    } else if p.len() > 0 && starts_with(s.skip(i), p) {
        q + replace_from(s, p, q, i + p.len())
    } else {
        seq![s[i]] + replace_from(s, p, q, i + 1)
    }
}

/// `s` with each occurrence of `p` replaced by `q`.
pub open spec fn spec_replace(s: Seq<char>, p: Seq<char>, q: Seq<char>) -> Seq<char> {
    replace_from(s, p, q, 0)
}

/// Replaces each occurrence of `p` in `s` by `q` (see [`spec_replace`]).
pub fn replace_all(s: &Vec<char>, p: &str, q: &str) -> (r: Vec<char>)
    ensures
        r@ == spec_replace(s@, p@, q@),
{
    let pc = chars_of(p);
    let qc = chars_of(q);
    let mut out: Vec<char> = Vec::new();
    let mut i: usize = 0;
    while i < s.len()
        invariant
            i <= s.len(),
            pc@ == p@,
            qc@ == q@,
            spec_replace(s@, p@, q@) == out@ + replace_from(s@, p@, q@, i as int),
        decreases s.len() - i,
    {
        if pc.len() > 0 && has_at(s.as_slice(), i, p) {
            let mut k: usize = 0;
            let ghost o = out@;
            while k < qc.len()
                invariant
                    k <= qc.len(),
                    out@ == o + qc@.take(k as int),
                decreases qc.len() - k,
            {
                out.push(qc[k]);
                assert(qc@.take(k + 1) == qc@.take(k as int).push(qc@[k as int]));
                k = k + 1;
            }
            assert(qc@.take(qc.len() as int) == qc@);
            assert(out@ + replace_from(s@, p@, q@, i + pc.len()) =~= o + (q@ + replace_from(
                s@,
                p@,
                q@,
                i + pc.len(),
            )));
            i = i + pc.len();
        } else {
            let ghost o = out@;
            out.push(s[i]);
            assert(out@ + replace_from(s@, p@, q@, i + 1) =~= o + (seq![s@[i as int]]
                + replace_from(s@, p@, q@, i + 1)));
            i = i + 1;
        }
    }
    assert(out@ + replace_from(s@, p@, q@, i as int) =~= out@);
    out
}

/// The replacements applied one after the other.
pub open spec fn replace_chain(s: Seq<char>, pairs: Seq<(Seq<char>, Seq<char>)>) -> Seq<char>
    decreases pairs.len(),
{
    if pairs.len() == 0 {
        s
    } else {
        spec_replace(replace_chain(s, pairs.drop_last()), pairs.last().0, pairs.last().1)
    }
}

/// The views of pairs of phrases.
pub open spec fn pairs_view(v: Seq<(&str, &str)>) -> Seq<(Seq<char>, Seq<char>)> {
    v.map_values(|x: (&str, &str)| (x.0@, x.1@))
}

/// Applies the replacements `pairs` one after the other.
pub fn replace_each(s: Vec<char>, pairs: &Vec<(&str, &str)>) -> (r: Vec<char>)
    ensures
        r@ == replace_chain(s@, pairs_view(pairs@)),
{
    let mut t = s;
    let mut k: usize = 0;
    assert(pairs_view(pairs@).take(0) =~= Seq::<(Seq<char>, Seq<char>)>::empty());
    while k < pairs.len()
        invariant
            k <= pairs.len(),
            t@ == replace_chain(s@, pairs_view(pairs@).take(k as int)),
        decreases pairs.len() - k,
    {
        let (a, b) = pairs[k];
        let ghost pv = pairs_view(pairs@);
        assert(pv.take(k + 1).drop_last() =~= pv.take(k as int));
        assert(pv.take(k + 1).last() == (a@, b@));
        t = replace_all(&t, a, b);
        k = k + 1;
    }
    assert(pairs_view(pairs@).take(pairs.len() as int) =~= pairs_view(pairs@));
    t
}

/// `s` without the characters `x` and `y`.
pub open spec fn without_chars(s: Seq<char>, x: char, y: char) -> Seq<char>
    decreases s.len(),
{
    if s.len() == 0 {
        Seq::empty()
    } else {
        without_chars(s.drop_last(), x, y) + if s.last() != x && s.last() != y {
            seq![s.last()]
        } else {
            Seq::empty()
        }
    }
}

/// Removes the characters `x` and `y`.
pub fn remove_chars(s: &Vec<char>, x: char, y: char) -> (r: Vec<char>)
    ensures
        r@ == without_chars(s@, x, y),
{
    let mut out: Vec<char> = Vec::new();
    let mut i: usize = 0;
    while i < s.len()
        invariant
            i <= s.len(),
            out@ == without_chars(s@.take(i as int), x, y),
        decreases s.len() - i,
    {
        let c = s[i];
        assert(s@.take(i + 1).drop_last() =~= s@.take(i as int));
        if c != x && c != y {
            out.push(c);
        }
        assert(out@ =~= without_chars(s@.take(i + 1), x, y));
        i = i + 1;
    }
    assert(s@.take(s.len() as int) =~= s@);
    out
}

/// Appends the characters `s[lo..hi]`.
pub fn push_range(out: &mut Vec<char>, s: &Vec<char>, lo: usize, hi: usize)
    requires
        lo <= hi <= s.len(),
    ensures
        final(out)@ == old(out)@ + s@.subrange(lo as int, hi as int),
{
    let ghost o = old(out)@;
    let mut k = lo;
    while k < hi
        invariant
            lo <= k <= hi <= s.len(),
            out@ == o + s@.subrange(lo as int, k as int),
        decreases hi - k,
    {
        out.push(s[k]);
        assert(s@.subrange(lo as int, k + 1) =~= s@.subrange(lo as int, k as int).push(s@[k as int]));
        k = k + 1;
    }
}

/// Appends the characters of `t`.
pub fn push_text(out: &mut Vec<char>, t: &str)
    ensures
        final(out)@ == old(out)@ + t@,
{
    let tc = chars_of(t);
    let n = tc.len();
    push_range(out, &tc, 0, n);
    assert(tc@.subrange(0, n as int) =~= t@);
}

} // verus!
