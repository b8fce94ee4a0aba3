//! Character-level helpers shared by the other modules.

use vstd::prelude::*;

verus! {

/// Appends one character to a `String` (`String::push`).
#[verifier::external_body]
pub(crate) fn push_char(s: &mut String, c: char)
    ensures
        final(s)@ == old(s)@.push(c),
{
    s.push(c);
}

/// The characters of a string slice, in order.
pub fn chars_of(s: &str) -> (r: Vec<char>)
    ensures
        r@ == s@,
{
    let mut r: Vec<char> = Vec::new();
    for c in it: s.chars()
        invariant
            r@ == it.seq().take(it.index() as int),
            it.seq() == s@,
    {
        r.push(c);
    }
    r
}

/// A `String` holding the given characters.
pub fn string_of(cs: &[char]) -> (r: String)
    ensures
        r@ == cs@,
{
    let mut r = String::new();
    let mut i: usize = 0;
    while i < cs.len()
        invariant
            i <= cs.len(),
            r@ == cs@.take(i as int),
        decreases cs.len() - i,
    {
        push_char(&mut r, cs[i]);
        assert(cs@.take(i + 1) == cs@.take(i as int).push(cs@[i as int]));
        i = i + 1;
    }
    assert(cs@.take(cs.len() as int) == cs@);
    r
}


/// Appends the characters of `t`.
pub fn push_string(s: &mut String, t: &String)
    ensures
        final(s)@ == old(s)@ + t@,
{
    s.append(t.as_str());
}

/// Appends the characters of a string slice.
pub fn push_str(s: &mut String, t: &str)
    ensures
        final(s)@ == old(s)@ + t@,
{
    s.append(t);
}

/// The elements of `v` from index `i` on.
pub fn slice_from<T: Copy>(v: &[T], i: usize) -> (r: Vec<T>)
    requires
        i <= v.len(),
    ensures
        r@ == v@.subrange(i as int, v@.len() as int),
{
    let mut r: Vec<T> = Vec::new();
    let mut k: usize = i;
    while k < v.len()
        invariant
            i <= k <= v.len(),
            r@ == v@.subrange(i as int, k as int),
        decreases v.len() - k,
    {
        r.push(v[k]);
        assert(v@.subrange(i as int, k + 1) == v@.subrange(i as int, k as int).push(v@[k as int]));
        k = k + 1;
    }
    r
}


/// The fields of `t` between the separators `sep` (one more field than separators;
/// `"a_b"` is `["a", "b"]`, `""` is `[""]`).
pub open spec fn split_on(t: Seq<char>, sep: char) -> Seq<Seq<char>>
    decreases t.len(),
{
    if t.len() == 0 {
        seq![Seq::empty()]
    } else {
        let rest = split_on(t.drop_last(), sep);
        if t.last() == sep {
            rest.push(Seq::empty())
        } else {
            rest.update(rest.len() - 1, rest.last().push(t.last()))
        }
    }
}

pub proof fn lemma_split_on_nonempty(t: Seq<char>, sep: char)
    ensures
        split_on(t, sep).len() >= 1,
    decreases t.len(),
{
    if t.len() > 0 {
        lemma_split_on_nonempty(t.drop_last(), sep);
    }
}

/// The character sequences of a sequence of character vectors.
pub open spec fn seqs_of(v: Seq<Vec<char>>) -> Seq<Seq<char>> {
    v.map_values(|x: Vec<char>| x@)
}

/// The fields of `t` between the separators `sep`.
pub fn split_chars(t: &[char], sep: char) -> (r: Vec<Vec<char>>)
    ensures
        seqs_of(r@) == split_on(t@, sep),
{
    let mut done: Vec<Vec<char>> = Vec::new();
    let mut cur: Vec<char> = Vec::new();
    let mut i: usize = 0;
    while i < t.len()
        invariant
            i <= t.len(),
            seqs_of(done@).push(cur@) == split_on(t@.take(i as int), sep),
        decreases t.len() - i,
    {
        proof {
            lemma_split_on_nonempty(t@.take(i as int), sep);
        }
        assert(t@.take(i + 1).drop_last() == t@.take(i as int));
        let c = t[i];
        if c == sep {
            let ghost before = seqs_of(done@);
            let ghost cur_before = cur@;
            done.push(cur);
            cur = Vec::new();
            assert(seqs_of(done@) =~= before.push(cur_before));
            assert(seqs_of(done@).push(cur@) =~= split_on(t@.take(i + 1), sep));
        } else {
            cur.push(c);
            assert(seqs_of(done@).push(cur@) =~= split_on(t@.take(i + 1), sep));
        }
        i = i + 1;
    }
    assert(t@.take(t.len() as int) == t@);
    let ghost before = seqs_of(done@);
    let ghost cur_before = cur@;
    done.push(cur);
    assert(seqs_of(done@) =~= before.push(cur_before));
    done
}


/// `sep` does not occur in `x`.
pub open spec fn lacks(x: Seq<char>, sep: char) -> bool {
    forall|i: int| 0 <= i < x.len() ==> x[i] != sep
}

/// A text without the separator is one field.
pub proof fn lemma_split_on_lacking(x: Seq<char>, sep: char)
    requires
        lacks(x, sep),
    ensures
        split_on(x, sep) == seq![x],
    decreases x.len(),
{
    if x.len() > 0 {
        assert(lacks(x.drop_last(), sep));
        lemma_split_on_lacking(x.drop_last(), sep);
        assert(x.drop_last().push(x.last()) == x);
        assert(split_on(x, sep) =~= seq![x]);
    } else {
        assert(x == Seq::<char>::empty());
    }
}

/// Splitting at a separator splits the two sides apart.
pub proof fn lemma_split_on_concat(x: Seq<char>, y: Seq<char>, sep: char)
    ensures
        split_on(x + seq![sep] + y, sep) == split_on(x, sep) + split_on(y, sep),
    decreases y.len(),
{
    let z = x + seq![sep] + y;
    if y.len() == 0 {
        assert(z.drop_last() == x);
        assert(z == x + seq![sep]);
        assert(split_on(y, sep) == seq![Seq::<char>::empty()]);
        assert(split_on(z, sep) =~= split_on(x, sep) + split_on(y, sep));
    } else {
        lemma_split_on_concat(x, y.drop_last(), sep);
        lemma_split_on_nonempty(y.drop_last(), sep);
        lemma_split_on_nonempty(x, sep);
        assert(z.drop_last() == x + seq![sep] + y.drop_last());
        assert(z.last() == y.last());
        assert(split_on(z, sep) =~= split_on(x, sep) + split_on(y, sep));
    }
}

/// Two strings hold the same characters.
pub fn str_eq(a: &str, b: &str) -> (r: bool)
    ensures
        r == (a@ == b@),
{
    let x = chars_of(a);
    let y = chars_of(b);
    if x.len() != y.len() {
        return false;
    }
    let mut i: usize = 0;
    while i < x.len()
        invariant
            i <= x.len() == y.len(),
            x@ == a@,
            y@ == b@,
            x@.take(i as int) == y@.take(i as int),
        decreases x.len() - i,
    {
        if x[i] != y[i] {
            assert(x@[i as int] != y@[i as int]);
            return false;
        }
        assert(x@.take(i + 1) == x@.take(i as int).push(x@[i as int]));
        assert(y@.take(i + 1) == y@.take(i as int).push(y@[i as int]));
        i = i + 1;
    }
    assert(x@.take(x.len() as int) == x@);
    assert(y@.take(y.len() as int) == y@);
    true
}


/// `s` starts with `p`.
pub open spec fn starts_with(s: Seq<char>, p: Seq<char>) -> bool {
    s.len() >= p.len() && s.take(p.len() as int) == p
}

/// `s` ends with `p`.
pub open spec fn ends_with(s: Seq<char>, p: Seq<char>) -> bool {
    s.len() >= p.len() && s.skip(s.len() - p.len()) == p
}

/// Whether the characters of `s` from `at` on start with `p`.
pub fn has_at(s: &[char], at: usize, p: &str) -> (r: bool)
    requires
        at <= s.len(),
    ensures
        r == starts_with(s@.skip(at as int), p@),
{
    let pc = chars_of(p);
    if s.len() - at < pc.len() {
        return false;
    }
    let mut i: usize = 0;
    while i < pc.len()
        invariant
            i <= pc.len(),
            at + pc.len() <= s.len(),
            pc@ == p@,
            forall|k: int| 0 <= k < i ==> s@[at + k] == pc@[k],
        decreases pc.len() - i,
    {
        if s[at + i] != pc[i] {
            assert(s@.skip(at as int).take(pc.len() as int)[i as int] != p@[i as int]);
            return false;
        }
        i = i + 1;
    }
    assert(s@.skip(at as int).take(pc.len() as int) =~= p@);
    true
}

/// Whether `s` starts with `p`.
pub fn starts_with_str(s: &str, p: &str) -> (r: bool)
    ensures
        r == starts_with(s@, p@),
{
    let cs = chars_of(s);
    assert(cs@.skip(0) =~= cs@);
    has_at(cs.as_slice(), 0, p)
}

/// Whether the characters `s` end with `p`.
pub fn chars_end_with(s: &[char], p: &str) -> (r: bool)
    ensures
        r == ends_with(s@, p@),
{
    let n = chars_of(p).len();
    if n > s.len() {
        return false;
    }
    let r = has_at(s, s.len() - n, p);
    assert(s@.skip(s.len() - n).take(n as int) =~= s@.skip(s.len() - n));
    r
}


/// The elements of `v` before index `i`.
pub fn slice_to<T: Copy>(v: &[T], i: usize) -> (r: Vec<T>)
    requires
        i <= v.len(),
    ensures
        r@ == v@.take(i as int),
{
    let r = slice_range(v, 0, i);
    assert(v@.subrange(0, i as int) == v@.take(i as int));
    r
}

/// The elements of `v` from `lo` up to `hi`.
pub fn slice_range<T: Copy>(v: &[T], lo: usize, hi: usize) -> (r: Vec<T>)
    requires
        lo <= hi <= v.len(),
    ensures
        r@ == v@.subrange(lo as int, hi as int),
{
    let mut r: Vec<T> = Vec::new();
    let mut k: usize = lo;
    while k < hi
        invariant
            lo <= k <= hi <= v.len(),
            r@ == v@.subrange(lo as int, k as int),
        decreases hi - k,
    {
        r.push(v[k]);
        assert(v@.subrange(lo as int, k + 1) == v@.subrange(lo as int, k as int).push(v@[k as int]));
        k = k + 1;
    }
    r
}

} // verus!
