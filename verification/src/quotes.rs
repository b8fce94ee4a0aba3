//! Where a quoted phrase ends when the phrase itself holds quote marks: the readings of an
//! instruction in which each phrase closes at a `」` that the words after it allow, the
//! quote marks inside the phrase masked.
//!
//! A phrase before the replacement (after `中「`, `、「`) closes before `を「`, `を削る`,
//! `の下に「`…; a phrase after it (after `を「`, `の下に「`, `とあるのは「`) closes before
//! `に改め`, `を加え`, `と、「`…. Readings come in order: the earlier closing first, and
//! for each closing, the readings of the rest in the same order.

use vstd::prelude::*;
use crate::parse::{mask_close, mask_open, spec_unmask};
use crate::rewrite::push_range;
use crate::text::{chars_end_with, chars_of, ends_with, has_at, seqs_of, slice_to, starts_with, string_of};

verus! {

/// A quote mark written as the mark that stands in for it inside a phrase.
pub open spec fn mask_of(c: char) -> char {
    if c == '「' {
        mask_open()
    } else if c == '」' {
        mask_close()
    } else {
        c
    }
}

/// The phrase with its quote marks masked.
pub open spec fn masked(t: Seq<char>) -> Seq<char> {
    t.map_values(|c: char| mask_of(c))
}

/// The first `「` from `i` on, or the end.
pub open spec fn next_open(c: Seq<char>, i: int) -> int
    decreases c.len() - i,
{
    if 0 <= i < c.len() && c[i] != '「' {
        next_open(c, i + 1)
    } else {
        i
    }
}

pub proof fn lemma_next_open(c: Seq<char>, i: int)
    requires
        0 <= i <= c.len(),
    ensures
        i <= next_open(c, i) <= c.len(),
        next_open(c, i) < c.len() ==> c[next_open(c, i)] == '「',
    decreases c.len() - i,
{
    if i < c.len() && c[i] != '「' {
        lemma_next_open(c, i + 1);
    }
}

/// `、` or `。` or the end at `p`.
pub open spec fn ends_clause(t: Seq<char>, p: int) -> bool {
    p == t.len() || (0 <= p < t.len() && (t[p] == '、' || t[p] == '。'))
}

/// `。` or the end at `p`.
pub open spec fn ends_sentence(t: Seq<char>, p: int) -> bool {
    p == t.len() || (0 <= p < t.len() && t[p] == '。')
}

/// After a verb at `p`: `、`, or `。` or the end, with or without `る` before.
pub open spec fn verb_end(t: Seq<char>, p: int) -> bool {
    (0 <= p < t.len() && t[p] == '、') || (0 <= p < t.len() && t[p] == 'る' && ends_sentence(t, p + 1))
        || ends_sentence(t, p)
}

/// The words `t` after a `」` may close a phrase before the replacement.
pub open spec fn closes_before(t: Seq<char>) -> bool {
    ||| starts_with(t, "を「"@)
    ||| (starts_with(t, "を削り"@) || starts_with(t, "を削る"@)) && ends_clause(t, 3)
    ||| starts_with(t, "の下に「"@)
    ||| starts_with(t, "の上に「"@)
    ||| starts_with(t, "の次に「"@)
    ||| starts_with(t, "、「"@)
    ||| starts_with(t, "及び「"@)
    ||| starts_with(t, "並びに「"@)
    ||| starts_with(t, "とあるのは「"@)
    ||| starts_with(t, "を同"@)
}

/// The words `t` after a `」` may close a phrase after the replacement.
pub open spec fn closes_after(t: Seq<char>) -> bool {
    ||| starts_with(t, "に改め"@) && verb_end(t, 3)
    ||| starts_with(t, "に"@) && ends_clause(t, 1)
    ||| starts_with(t, "を加え"@) && verb_end(t, 3)
    ||| starts_with(t, "を"@) && ends_clause(t, 1)
    ||| starts_with(t, "と、「"@)
    ||| starts_with(t, "と"@) && ends_clause(t, 1)
}

/// The phrase opening at `k` comes after the replacement: the words before it end with
/// `を`, `下に`, `上に`, `次に` or `あるのは`.
pub open spec fn phrase_after(c: Seq<char>, k: int) -> bool {
    let b = c.take(k);
    ends_with(b, "を"@) || ends_with(b, "下に"@) || ends_with(b, "上に"@) || ends_with(b, "次に"@)
        || ends_with(b, "あるのは"@)
}

/// The phrase opening at `k` may close at `j`.
pub open spec fn closes_at(c: Seq<char>, k: int, j: int) -> bool {
    &&& 0 <= j < c.len()
    &&& c[j] == '」'
    &&& if phrase_after(c, k) {
        closes_after(c.skip(j + 1))
    } else {
        closes_before(c.skip(j + 1))
    }
}

/// The phrase opening at `k` may close somewhere from `j` on.
pub open spec fn has_closing(c: Seq<char>, k: int, j: int) -> bool
    decreases c.len() - j,
{
    if j < 0 || j >= c.len() {
        false
    } else if closes_at(c, k, j) {
        true
    } else {
        has_closing(c, k, j + 1)
    }
}

/// Each text with `p` before it.
pub open spec fn prefixed(ts: Seq<Seq<char>>, p: Seq<char>) -> Seq<Seq<char>> {
    ts.map_values(|t: Seq<char>| p + t)
}

/// The text from `i` to the phrase opening at `k`, and the phrase closed at `j`.
pub open spec fn closed_chunk(c: Seq<char>, i: int, k: int, j: int) -> Seq<char> {
    c.subrange(i, k) + seq!['「'] + masked(c.subrange(k + 1, j)) + seq!['」']
}

/// The readings of `c` from `i` on: none when a `」` stands outside a phrase; the rest
/// itself when no phrase opens; else for each place the phrase may close, the readings
/// after it; and when it may close nowhere, the `「` read as a plain character.
pub open spec fn readings(c: Seq<char>, i: int) -> Seq<Seq<char>>
    decreases c.len() - i, c.len() + 2,
{
    if i < 0 || i > c.len() {
        Seq::empty()
    } else {
        proof {
            lemma_next_open(c, i);
        }
        let k = next_open(c, i);
        if c.subrange(i, k).contains('」') {
            Seq::empty()
        } else if k >= c.len() {
            seq![c.subrange(i, c.len() as int)]
        } else if has_closing(c, k, k + 1) {
            closings(c, i, k, k + 1)
        } else {
            prefixed(readings(c, k + 1), c.subrange(i, k) + seq!['「'])
        }
    }
}

/// The readings from `i` in which the phrase opening at `k` closes at `j` or later.
pub open spec fn closings(c: Seq<char>, i: int, k: int, j: int) -> Seq<Seq<char>>
    decreases c.len() - i, c.len() - j,
{
    if !(0 <= i <= k < j < c.len()) {
        Seq::empty()
    } else if closes_at(c, k, j) {
        prefixed(readings(c, j + 1), closed_chunk(c, i, k, j)) + closings(c, i, k, j + 1)
    } else {
        closings(c, i, k, j + 1)
    }
}

/// The first `n` of `s` (all of them when there are fewer).
pub open spec fn first_n<T>(s: Seq<T>, n: int) -> Seq<T> {
    if 0 <= n < s.len() {
        s.take(n)
    } else if n < 0 {
        Seq::empty()
    } else {
        s
    }
}

/// How many more readings fit under the limit.
pub open spec fn room(limit: usize, have: nat) -> int {
    if limit > have {
        limit - have
    } else {
        0
    }
}

proof fn lemma_first_n_concat(a: Seq<Seq<char>>, b: Seq<Seq<char>>, n: int)
    requires
        a.len() < n,
    ensures
        first_n(a + b, n) == a + first_n(b, n - a.len()),
{
    if n - a.len() < b.len() {
        assert((a + b).take(n) =~= a + b.take(n - a.len()));
    } else {
        assert(first_n(a + b, n) =~= a + b);
    }
}

proof fn lemma_first_n_prefix(a: Seq<Seq<char>>, b: Seq<Seq<char>>, n: int)
    requires
        0 <= n <= a.len(),
    ensures
        first_n(a + b, n) == first_n(a, n),
{
    if n < a.len() {
        assert((a + b).take(n) =~= a.take(n));
    } else {
        if b.len() > 0 {
            assert((a + b).take(n) =~= a);
        } else {
            assert(a + b =~= a);
        }
    }
}

proof fn lemma_prefixed_concat(a: Seq<Seq<char>>, b: Seq<Seq<char>>, p: Seq<char>)
    ensures
        prefixed(a + b, p) == prefixed(a, p) + prefixed(b, p),
{
    assert(prefixed(a + b, p) =~= prefixed(a, p) + prefixed(b, p));
}

proof fn lemma_prefixed_twice(a: Seq<Seq<char>>, p: Seq<char>, q: Seq<char>)
    ensures
        prefixed(prefixed(a, q), p) == prefixed(a, p + q),
{
    assert forall|k: int| 0 <= k < a.len() implies prefixed(prefixed(a, q), p)[k] == prefixed(a, p + q)[k] by {
        assert(p + (q + a[k]) =~= (p + q) + a[k]);
    }
    assert(prefixed(prefixed(a, q), p) =~= prefixed(a, p + q));
}

// ---------------------------------------------------------------------------------------
// Unmasking a reading gives the text back

/// `c` holds none of the characters that stand in for quote marks.
pub open spec fn no_masks(c: Seq<char>) -> bool {
    !c.contains(mask_open()) && !c.contains(mask_close())
}

proof fn lemma_unmask_concat(a: Seq<char>, b: Seq<char>)
    ensures
        spec_unmask(a + b) == spec_unmask(a) + spec_unmask(b),
{
    assert(spec_unmask(a + b) =~= spec_unmask(a) + spec_unmask(b));
}

proof fn lemma_unmask_plain(t: Seq<char>)
    requires
        no_masks(t),
    ensures
        spec_unmask(t) == t,
{
    assert forall|k: int| 0 <= k < t.len() implies spec_unmask(t)[k] == t[k] by {
        assert(t[k] != mask_open() && t[k] != mask_close()) by {
            if t[k] == mask_open() {
                assert(t.contains(mask_open()));
            }
            if t[k] == mask_close() {
                assert(t.contains(mask_close()));
            }
        }
    }
    assert(spec_unmask(t) =~= t);
}

proof fn lemma_unmask_masked(t: Seq<char>)
    requires
        no_masks(t),
    ensures
        spec_unmask(masked(t)) == t,
{
    assert forall|k: int| 0 <= k < t.len() implies spec_unmask(masked(t))[k] == t[k] by {
        assert(t[k] != mask_open() && t[k] != mask_close()) by {
            if t[k] == mask_open() {
                assert(t.contains(mask_open()));
            }
            if t[k] == mask_close() {
                assert(t.contains(mask_close()));
            }
        }
    }
    assert(spec_unmask(masked(t)) =~= t);
}

proof fn lemma_sub_no_masks(c: Seq<char>, lo: int, hi: int)
    requires
        no_masks(c),
        0 <= lo <= hi <= c.len(),
    ensures
        no_masks(c.subrange(lo, hi)),
{
    if c.subrange(lo, hi).contains(mask_open()) {
        let k = choose|k: int| 0 <= k < hi - lo && c.subrange(lo, hi)[k] == mask_open();
        assert(c[lo + k] == mask_open());
    }
    if c.subrange(lo, hi).contains(mask_close()) {
        let k = choose|k: int| 0 <= k < hi - lo && c.subrange(lo, hi)[k] == mask_close();
        assert(c[lo + k] == mask_close());
    }
}

proof fn lemma_readings_unmask(c: Seq<char>, i: int)
    requires
        no_masks(c),
        0 <= i <= c.len(),
    ensures
        forall|n: int| 0 <= n < readings(c, i).len() ==> spec_unmask(#[trigger] readings(c, i)[n])
            == c.subrange(i, c.len() as int),
    decreases c.len() - i, c.len() + 2,
{
    lemma_next_open(c, i);
    let k = next_open(c, i);
    if c.subrange(i, k).contains('」') {
        assert(readings(c, i).len() == 0);
    } else if k >= c.len() {
        assert(readings(c, i) == seq![c.subrange(i, c.len() as int)]);
        lemma_sub_no_masks(c, i, c.len() as int);
        lemma_unmask_plain(c.subrange(i, c.len() as int));
    } else if has_closing(c, k, k + 1) {
        assert(readings(c, i) == closings(c, i, k, k + 1));
        lemma_closings_unmask(c, i, k, k + 1);
    } else {
        lemma_readings_unmask(c, k + 1);
        let p = c.subrange(i, k) + seq!['「'];
        lemma_sub_no_masks(c, i, k);
        assert(no_masks(p)) by {
            if p.contains(mask_open()) {
                let m = choose|m: int| 0 <= m < p.len() && p[m] == mask_open();
                if m < k - i {
                    assert(c.subrange(i, k)[m] == mask_open());
                }
            }
            if p.contains(mask_close()) {
                let m = choose|m: int| 0 <= m < p.len() && p[m] == mask_close();
                if m < k - i {
                    assert(c.subrange(i, k)[m] == mask_close());
                }
            }
        }
        lemma_unmask_plain(p);
        assert forall|n: int| 0 <= n < readings(c, i).len() implies spec_unmask(#[trigger] readings(c, i)[n])
            == c.subrange(i, c.len() as int) by {
            let t = readings(c, k + 1)[n];
            assert(readings(c, i)[n] == p + t);
            lemma_unmask_concat(p, t);
            assert(c.subrange(i, c.len() as int) =~= c.subrange(i, k) + seq!['「'] + c.subrange(
                k + 1,
                c.len() as int,
            ));
        }
    }
}

proof fn lemma_closings_unmask(c: Seq<char>, i: int, k: int, j: int)
    requires
        no_masks(c),
        0 <= i <= k < c.len(),
        c[k] == '「',
    ensures
        forall|n: int| 0 <= n < closings(c, i, k, j).len() ==> spec_unmask(
            #[trigger] closings(c, i, k, j)[n],
        ) == c.subrange(i, c.len() as int),
    decreases c.len() - i, c.len() - j,
{
    if !(0 <= i <= k < j < c.len()) {
    } else if closes_at(c, k, j) {
        lemma_readings_unmask(c, j + 1);
        lemma_closings_unmask(c, i, k, j + 1);
        let chunk = closed_chunk(c, i, k, j);
        lemma_sub_no_masks(c, i, k);
        lemma_sub_no_masks(c, k + 1, j);
        lemma_unmask_plain(c.subrange(i, k));
        lemma_unmask_masked(c.subrange(k + 1, j));
        lemma_unmask_concat(c.subrange(i, k), seq!['「']);
        lemma_unmask_concat(c.subrange(i, k) + seq!['「'], masked(c.subrange(k + 1, j)));
        lemma_unmask_concat(c.subrange(i, k) + seq!['「'] + masked(c.subrange(k + 1, j)), seq!['」']);
        assert(spec_unmask(seq!['「']) =~= seq!['「']);
        assert(spec_unmask(seq!['」']) =~= seq!['」']);
        assert(spec_unmask(chunk) =~= c.subrange(i, j + 1));
        let left = prefixed(readings(c, j + 1), chunk);
        let right = closings(c, i, k, j + 1);
        assert forall|n: int| 0 <= n < closings(c, i, k, j).len() implies spec_unmask(
            #[trigger] closings(c, i, k, j)[n],
        ) == c.subrange(i, c.len() as int) by {
            if n < left.len() {
                let t = readings(c, j + 1)[n];
                assert(closings(c, i, k, j)[n] == chunk + t);
                lemma_unmask_concat(chunk, t);
                assert(c.subrange(i, c.len() as int) =~= c.subrange(i, j + 1) + c.subrange(
                    j + 1,
                    c.len() as int,
                ));
            } else {
                assert(closings(c, i, k, j)[n] == right[n - left.len()]);
            }
        }
    } else {
        lemma_closings_unmask(c, i, k, j + 1);
    }
}

/// Restoring the masked quote marks of any reading gives the instruction back (for an
/// instruction that holds none of the mask characters).
pub proof fn law_unmask_restores_the_line(line: Seq<char>, n: int)
    requires
        no_masks(line),
        0 <= n < readings(line, 0).len(),
    ensures
        spec_unmask(readings(line, 0)[n]) == line,
{
    lemma_readings_unmask(line, 0);
    assert(line.subrange(0, line.len() as int) =~= line);
}

// ---------------------------------------------------------------------------------------
// Executable search

fn next_open_exec(c: &Vec<char>, i: usize) -> (k: usize)
    requires
        i <= c.len(),
    ensures
        k == next_open(c@, i as int),
        i <= k <= c.len(),
{
    proof {
        lemma_next_open(c@, i as int);
    }
    let mut k = i;
    while k < c.len() && c[k] != '「'
        invariant
            i <= k <= c.len(),
            next_open(c@, i as int) == next_open(c@, k as int),
        decreases c.len() - k,
    {
        k = k + 1;
    }
    k
}

fn has_close_between(c: &Vec<char>, lo: usize, hi: usize) -> (r: bool)
    requires
        lo <= hi <= c.len(),
    ensures
        r == c@.subrange(lo as int, hi as int).contains('」'),
{
    let mut k = lo;
    while k < hi
        invariant
            lo <= k <= hi <= c.len(),
            forall|m: int| lo <= m < k ==> c@[m] != '」',
        decreases hi - k,
    {
        if c[k] == '」' {
            assert(c@.subrange(lo as int, hi as int)[k - lo] == '」');
            return true;
        }
        k = k + 1;
    }
    assert forall|m: int| 0 <= m < hi - lo implies c@.subrange(lo as int, hi as int)[m] != '」' by {
        assert(c@.subrange(lo as int, hi as int)[m] == c@[lo + m]);
    }
    false
}

fn ends_clause_exec(c: &Vec<char>, p: usize) -> (r: bool)
    requires
        p <= c.len(),
    ensures
        r == ends_clause(c@, p as int),
{
    p == c.len() || c[p] == '、' || c[p] == '。'
}

fn verb_end_exec(c: &Vec<char>, p: usize) -> (r: bool)
    requires
        p <= c.len(),
    ensures
        r == verb_end(c@, p as int),
{
    if p == c.len() {
        return true;
    }
    let ch = c[p];
    ch == '、' || ch == '。' || (ch == 'る' && (p + 1 == c.len() || c[p + 1] == '。'))
}

/// The words from `p` on may close a phrase before the replacement.
fn closes_before_exec(c: &Vec<char>, p: usize) -> (r: bool)
    requires
        p <= c.len(),
    ensures
        r == closes_before(c@.skip(p as int)),
{
    proof {
        reveal_strlit("を削り");
        reveal_strlit("を削る");
    }
    let t = c.as_slice();
    if has_at(t, p, "を「") {
        return true;
    }
    if (has_at(t, p, "を削り") || has_at(t, p, "を削る")) {
        let e = ends_clause_exec(c, p + 3);
        assert(ends_clause(c@.skip(p as int), 3) == ends_clause(c@, p + 3));
        if e {
            return true;
        }
    }
    has_at(t, p, "の下に「") || has_at(t, p, "の上に「") || has_at(t, p, "の次に「") || has_at(t, p, "、「")
        || has_at(t, p, "及び「") || has_at(t, p, "並びに「") || has_at(t, p, "とあるのは「") || has_at(t, p, "を同")
}

/// The words from `p` on may close a phrase after the replacement.
fn closes_after_exec(c: &Vec<char>, p: usize) -> (r: bool)
    requires
        p <= c.len(),
    ensures
        r == closes_after(c@.skip(p as int)),
{
    proof {
        reveal_strlit("に改め");
        reveal_strlit("に");
        reveal_strlit("を加え");
        reveal_strlit("を");
        reveal_strlit("と");
    }
    let t = c.as_slice();
    let a = has_at(t, p, "に改め") && {
        assert(verb_end(c@.skip(p as int), 3) == verb_end(c@, p + 3));
        verb_end_exec(c, p + 3)
    };
    let b = has_at(t, p, "に") && {
        assert(ends_clause(c@.skip(p as int), 1) == ends_clause(c@, p + 1));
        ends_clause_exec(c, p + 1)
    };
    let d = has_at(t, p, "を加え") && {
        assert(verb_end(c@.skip(p as int), 3) == verb_end(c@, p + 3));
        verb_end_exec(c, p + 3)
    };
    let e = has_at(t, p, "を") && {
        assert(ends_clause(c@.skip(p as int), 1) == ends_clause(c@, p + 1));
        ends_clause_exec(c, p + 1)
    };
    let f = has_at(t, p, "と、「");
    let g = has_at(t, p, "と") && {
        assert(ends_clause(c@.skip(p as int), 1) == ends_clause(c@, p + 1));
        ends_clause_exec(c, p + 1)
    };
    a || b || d || e || f || g
}

fn phrase_after_exec(c: &Vec<char>, k: usize) -> (r: bool)
    requires
        k <= c.len(),
    ensures
        r == phrase_after(c@, k as int),
{
    let b = slice_to(c.as_slice(), k);
    let s = b.as_slice();
    chars_end_with(s, "を") || chars_end_with(s, "下に") || chars_end_with(s, "上に") || chars_end_with(s, "次に")
        || chars_end_with(s, "あるのは")
}

fn closes_at_exec(c: &Vec<char>, to: bool, k: usize, j: usize) -> (r: bool)
    requires
        j < c.len(),
        to == phrase_after(c@, k as int),
    ensures
        r == closes_at(c@, k as int, j as int),
{
    c[j] == '」' && if to {
        closes_after_exec(c, j + 1)
    } else {
        closes_before_exec(c, j + 1)
    }
}

fn push_masked(out: &mut Vec<char>, c: &Vec<char>, lo: usize, hi: usize)
    requires
        lo <= hi <= c.len(),
    ensures
        final(out)@ == old(out)@ + masked(c@.subrange(lo as int, hi as int)),
{
    let ghost o = old(out)@;
    let mut k = lo;
    while k < hi
        invariant
            lo <= k <= hi <= c.len(),
            out@ == o + masked(c@.subrange(lo as int, k as int)),
        decreases hi - k,
    {
        let ch = c[k];
        out.push(if ch == '「' { '\u{E030}' } else if ch == '」' { '\u{E031}' } else { ch });
        assert(masked(c@.subrange(lo as int, k + 1)) =~= masked(c@.subrange(lo as int, k as int)) + seq![
            mask_of(ch),
        ]);
        k = k + 1;
    }
}

/// Adds the readings of `c` from `i`, each after `prefix`, while fewer than `limit` are found.
fn search(c: &Vec<char>, i: usize, prefix: Vec<char>, out: &mut Vec<Vec<char>>, limit: usize)
    requires
        i <= c.len(),
    ensures
        seqs_of(final(out)@) == seqs_of(old(out)@) + first_n(
            prefixed(readings(c@, i as int), prefix@),
            room(limit, old(out)@.len()),
        ),
    decreases c.len() - i,
{
    let ghost o = seqs_of(out@);
    let ghost n0 = room(limit, out@.len());
    if out.len() >= limit {
        assert(first_n(prefixed(readings(c@, i as int), prefix@), n0) =~= Seq::<Seq<char>>::empty());
        assert(seqs_of(out@) =~= o + Seq::<Seq<char>>::empty());
        return;
    }
    proof {
        lemma_next_open(c@, i as int);
    }
    let k = next_open_exec(c, i);
    if has_close_between(c, i, k) {
        assert(readings(c@, i as int) =~= Seq::<Seq<char>>::empty());
        assert(seqs_of(out@) =~= o + first_n(prefixed(Seq::<Seq<char>>::empty(), prefix@), n0));
        return;
    }
    assert(readings(c@, i as int) == if k >= c.len() {
        seq![c@.subrange(i as int, c@.len() as int)]
    } else if has_closing(c@, k as int, k + 1) {
        closings(c@, i as int, k as int, k + 1)
    } else {
        prefixed(readings(c@, k + 1), c@.subrange(i as int, k as int) + seq!['「'])
    });
    let mut acc = prefix;
    push_range(&mut acc, c, i, k);
    if k >= c.len() {
        let ghost a = acc@;
        out.push(acc);
        assert(readings(c@, i as int) == seq![c@.subrange(i as int, c@.len() as int)]);
        assert(prefixed(readings(c@, i as int), prefix@) =~= seq![a]);
        assert(seqs_of(out@) =~= o + seq![a]);
        return;
    }
    let to = phrase_after_exec(c, k);
    let mut any = false;
    let mut stopped = false;
    let mut j = k + 1;
    let ghost mut done: Seq<Seq<char>> = Seq::empty();
    assert(closings(c@, i as int, k as int, k + 1) =~= done + closings(c@, i as int, k as int, k + 1));
    assert(seqs_of(out@) =~= o + first_n(prefixed(done, prefix@), n0));
    while j < c.len() && !stopped
        invariant
            k < j <= c.len(),
            i <= k < c.len(),
            to == phrase_after(c@, k as int),
            acc@ == prefix@ + c@.subrange(i as int, k as int),
            has_closing(c@, k as int, k + 1) == (any || has_closing(c@, k as int, j as int)),
            !any ==> done.len() == 0,
            closings(c@, i as int, k as int, k + 1) == done + closings(c@, i as int, k as int, j as int),
            seqs_of(out@) == o + first_n(prefixed(done, prefix@), n0),
            o.len() < limit,
            n0 == limit - o.len(),
            !stopped ==> out@.len() < limit,
            stopped ==> out@.len() >= limit && any,
        decreases c.len() - j,
    {
        if closes_at_exec(c, to, k, j) {
            any = true;
            let mut next = acc.clone();
            next.push('「');
            push_masked(&mut next, c, k + 1, j);
            next.push('」');
            let ghost chunk = closed_chunk(c@, i as int, k as int, j as int);
            assert(next@ =~= prefix@ + chunk);
            let ghost pd = prefixed(done, prefix@);
            let ghost child = prefixed(readings(c@, j + 1), chunk);
            assert(seqs_of(out@).len() == out@.len());
            assert(first_n(pd, n0) == pd);
            proof {
                lemma_prefixed_twice(readings(c@, j + 1), prefix@, chunk);
                lemma_first_n_concat(pd, prefixed(child, prefix@), n0);
                lemma_prefixed_concat(done, child, prefix@);
            }
            search(c, j + 1, next, out, limit);
            proof {
                assert(closings(c@, i as int, k as int, j as int) == child + closings(
                    c@,
                    i as int,
                    k as int,
                    j + 1,
                ));
                done = done + child;
                assert(closings(c@, i as int, k as int, k + 1) =~= done + closings(
                    c@,
                    i as int,
                    k as int,
                    j + 1,
                ));
            }
            if out.len() >= limit {
                stopped = true;
            }
        } else {
            assert(closings(c@, i as int, k as int, j as int) == closings(c@, i as int, k as int, j + 1));
        }
        j = j + 1;
    }
    if !any {
        assert(!has_closing(c@, k as int, k + 1)) by {
            if !stopped {
                assert(j == c.len());
            }
        }
        let mut next = acc;
        next.push('「');
        assert(next@ =~= prefix@ + (c@.subrange(i as int, k as int) + seq!['「']));
        proof {
            lemma_prefixed_twice(readings(c@, k + 1), prefix@, c@.subrange(i as int, k as int) + seq!['「']);
            assert(prefix@ + c@.subrange(i as int, k as int) + seq!['「'] =~= prefix@ + (c@.subrange(
                i as int,
                k as int,
            ) + seq!['「']));
        }
        assert(seqs_of(out@) =~= o);
        search(c, k + 1, next, out, limit);
        assert(readings(c@, i as int) == prefixed(readings(c@, k + 1), c@.subrange(i as int, k as int) + seq!['「']));
    } else {
        proof {
            if stopped {
                let full = closings(c@, i as int, k as int, k + 1);
                lemma_prefixed_concat(done, closings(c@, i as int, k as int, j as int), prefix@);
                lemma_first_n_prefix(
                    prefixed(done, prefix@),
                    prefixed(closings(c@, i as int, k as int, j as int), prefix@),
                    n0,
                );
            } else {
                assert(closings(c@, i as int, k as int, j as int) =~= Seq::<Seq<char>>::empty());
                assert(closings(c@, i as int, k as int, k + 1) =~= done);
            }
            assert(has_closing(c@, k as int, k + 1));
            assert(readings(c@, i as int) == closings(c@, i as int, k as int, k + 1));
            assert(seqs_of(out@) == o + first_n(prefixed(readings(c@, i as int), prefix@), n0));
        }
    }
}

/// The characters of each text.
pub open spec fn texts_view(v: Seq<String>) -> Seq<Seq<char>> {
    v.map_values(|s: String| s@)
}

/// The readings of `line`, at most `limit` of them (see [`readings`]), the quote marks
/// inside each phrase masked.
pub fn mask_inner_quotes(line: &str, limit: usize) -> (r: Vec<String>)
    ensures
        texts_view(r@) == first_n(readings(line@, 0), limit as int),
{
    let c = chars_of(line);
    let mut out: Vec<Vec<char>> = Vec::new();
    search(&c, 0, Vec::new(), &mut out, limit);
    assert(prefixed(readings(c@, 0), Seq::<char>::empty()) =~= readings(c@, 0)) by {
        assert forall|k: int| 0 <= k < readings(c@, 0).len() implies prefixed(readings(c@, 0), Seq::<char>::empty())[k]
            == readings(c@, 0)[k] by {
            assert(Seq::<char>::empty() + readings(c@, 0)[k] =~= readings(c@, 0)[k]);
        }
    }
    let mut r: Vec<String> = Vec::new();
    let mut k: usize = 0;
    while k < out.len()
        invariant
            k <= out.len(),
            texts_view(r@) == seqs_of(out@).take(k as int),
        decreases out.len() - k,
    {
        let s = string_of(out[k].as_slice());
        assert(seqs_of(out@)[k as int] == out@[k as int]@);
        let ghost before = r@;
        r.push(s);
        assert(texts_view(r@) =~= texts_view(before).push(s@));
        assert(seqs_of(out@).take(k + 1) =~= seqs_of(out@).take(k as int).push(seqs_of(out@)[k as int]));
        k = k + 1;
    }
    assert(seqs_of(out@).take(out.len() as int) =~= seqs_of(out@));
    r
}

} // verus!
