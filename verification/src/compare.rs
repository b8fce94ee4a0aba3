//! Comparing the provisions an amendment produced with those of the amended ordinance:
//! the snapshots (for each key such as `第五条`, `附則第二条` or `別表0`, in increasing
//! order of key, the numbered texts of its paragraphs) are the same, or the first key at
//! which they differ is reported with the text around the first differing character.

use vstd::prelude::*;
use crate::numeral::{push_decimal, spec_decimal};
use crate::reiki::CheckFailure;
use crate::text::{chars_of, str_eq, string_of};

verus! {

/// The paragraphs of a key: `(number, text)`.
pub open spec fn paras_view(v: Seq<(u32, String)>) -> Seq<(u32, Seq<char>)> {
    v.map_values(|p: (u32, String)| (p.0, p.1@))
}

/// The entries of a snapshot.
pub open spec fn snap_view(v: Seq<(String, Vec<(u32, String)>)>) -> Seq<(Seq<char>, Seq<(u32, Seq<char>)>)> {
    v.map_values(|e: (String, Vec<(u32, String)>)| (e.0@, paras_view(e.1@)))
}

/// Whether the key `a` comes before the key `b` in the order of `String`: character by
/// character, a proper prefix first.
pub open spec fn key_before(a: Seq<char>, b: Seq<char>) -> bool
    decreases a.len(),
{
    if a.len() == 0 {
        b.len() > 0
    } else if b.len() == 0 {
        false
    } else if a[0] == b[0] {
        key_before(a.drop_first(), b.drop_first())
    } else {
        (a[0] as u32) < (b[0] as u32)
    }
}

/// The entries of a snapshot stand in strictly ascending order of their keys, as the
/// entries of a sorted map: no key occurs twice.
pub open spec fn keys_ascending(s: Seq<(String, Vec<(u32, String)>)>) -> bool {
    forall|i: int, j: int| 0 <= i < j < s.len() ==> key_before(#[trigger] s[i].0@, #[trigger] s[j].0@)
}

/// The paragraphs of the first entry with the key `k`.
pub open spec fn lookup(s: Seq<(Seq<char>, Seq<(u32, Seq<char>)>)>, k: Seq<char>) -> Option<Seq<(u32, Seq<char>)>>
    decreases s.len(),
{
    if s.len() == 0 {
        None
    } else if s[0].0 == k {
        Some(s[0].1)
    } else {
        lookup(s.drop_first(), k)
    }
}

/// The first key from place `i` of `keys_of` on whose paragraphs differ between the two
/// snapshots.
pub open spec fn diff_key_from(
    keys_of: Seq<(Seq<char>, Seq<(u32, Seq<char>)>)>,
    got: Seq<(Seq<char>, Seq<(u32, Seq<char>)>)>,
    want: Seq<(Seq<char>, Seq<(u32, Seq<char>)>)>,
    i: int,
) -> Option<Seq<char>>
    decreases keys_of.len() - i,
{
    if i < 0 || i >= keys_of.len() {
        None
    } else if lookup(got, keys_of[i].0) != lookup(want, keys_of[i].0) {
        Some(keys_of[i].0)
    } else {
        diff_key_from(keys_of, got, want, i + 1)
    }
}

/// The first key, among those of `got` and then those of `want`, at which the snapshots
/// differ (empty when there is none).
pub open spec fn diff_key(
    got: Seq<(Seq<char>, Seq<(u32, Seq<char>)>)>,
    want: Seq<(Seq<char>, Seq<(u32, Seq<char>)>)>,
) -> Seq<char> {
    match diff_key_from(got, got, want, 0) {
        Some(k) => k,
        None => match diff_key_from(want, got, want, 0) {
            Some(k) => k,
            None => Seq::empty(),
        },
    }
}

/// The paragraphs as one text: `[1]…[2]…` (empty for no entry).
pub open spec fn paras_text(p: Option<Seq<(u32, Seq<char>)>>) -> Seq<char> {
    match p {
        Some(ps) => paras_text_upto(ps, ps.len() as int),
        None => Seq::empty(),
    }
}

/// The first `n` paragraphs as one text.
pub open spec fn paras_text_upto(ps: Seq<(u32, Seq<char>)>, n: int) -> Seq<char>
    decreases n,
{
    if n <= 0 {
        Seq::empty()
    } else {
        paras_text_upto(ps, n - 1) + seq!['['] + spec_decimal(ps[n - 1].0 as nat) + seq![']'] + ps[n - 1].1
    }
}

/// The first place at which two texts differ, or the length of the shorter.
pub open spec fn first_diff(g: Seq<char>, w: Seq<char>, i: int) -> int
    decreases g.len() - i,
{
    if i < 0 || i >= g.len() || i >= w.len() {
        i
    } else if g[i] != w[i] {
        i
    } else {
        first_diff(g, w, i + 1)
    }
}

/// Up to 36 characters of `s` from 12 before `at`.
pub open spec fn around(s: Seq<char>, at: int) -> Seq<char> {
    let from = if at > 12 {
        at - 12
    } else {
        0
    };
    let from = if from < s.len() {
        from
    } else {
        s.len() as int
    };
    let to = if from + 36 < s.len() {
        from + 36
    } else {
        s.len() as int
    };
    s.subrange(from, to)
}

/// The report of a difference: `key: …got… ≠ …want…`.
pub open spec fn mismatch_text(
    got: Seq<(Seq<char>, Seq<(u32, Seq<char>)>)>,
    want: Seq<(Seq<char>, Seq<(u32, Seq<char>)>)>,
) -> Seq<char> {
    let key = diff_key(got, want);
    let g = paras_text(lookup(got, key));
    let w = paras_text(lookup(want, key));
    let at = first_diff(g, w, 0);
    key + ": "@ + around(g, at) + " ≠ "@ + around(w, at)
}

// ---------------------------------------------------------------------------------------

fn same_paras(a: &Vec<(u32, String)>, b: &Vec<(u32, String)>) -> (r: bool)
    ensures
        r == (paras_view(a@) == paras_view(b@)),
{
    if a.len() != b.len() {
        assert(paras_view(a@).len() != paras_view(b@).len());
        return false;
    }
    let mut i: usize = 0;
    while i < a.len()
        invariant
            i <= a.len() == b.len(),
            forall|k: int| 0 <= k < i ==> paras_view(a@)[k] == paras_view(b@)[k],
        decreases a.len() - i,
    {
        if a[i].0 != b[i].0 || !str_eq(a[i].1.as_str(), b[i].1.as_str()) {
            assert(paras_view(a@)[i as int] != paras_view(b@)[i as int]);
            return false;
        }
        i = i + 1;
    }
    assert(paras_view(a@) =~= paras_view(b@));
    true
}

fn same_snapshots(a: &Vec<(String, Vec<(u32, String)>)>, b: &Vec<(String, Vec<(u32, String)>)>) -> (r: bool)
    ensures
        r == (snap_view(a@) == snap_view(b@)),
{
    if a.len() != b.len() {
        assert(snap_view(a@).len() != snap_view(b@).len());
        return false;
    }
    let mut i: usize = 0;
    while i < a.len()
        invariant
            i <= a.len() == b.len(),
            forall|k: int| 0 <= k < i ==> snap_view(a@)[k] == snap_view(b@)[k],
        decreases a.len() - i,
    {
        if !str_eq(a[i].0.as_str(), b[i].0.as_str()) || !same_paras(&a[i].1, &b[i].1) {
            assert(snap_view(a@)[i as int] != snap_view(b@)[i as int]);
            return false;
        }
        i = i + 1;
    }
    assert(snap_view(a@) =~= snap_view(b@));
    true
}

/// The place of the first entry with the key `k`.
fn lookup_exec(s: &Vec<(String, Vec<(u32, String)>)>, k: &str) -> (r: Option<usize>)
    ensures
        match r {
            Some(i) => i < s.len() && lookup(snap_view(s@), k@) == Some(paras_view(s@[i as int].1@)),
            None => lookup(snap_view(s@), k@) is None,
        },
{
    let mut i: usize = 0;
    assert(snap_view(s@).skip(0) =~= snap_view(s@));
    while i < s.len()
        invariant
            i <= s.len(),
            lookup(snap_view(s@), k@) == lookup(snap_view(s@).skip(i as int), k@),
        decreases s.len() - i,
    {
        assert(snap_view(s@).skip(i as int)[0] == (s@[i as int].0@, paras_view(s@[i as int].1@)));
        if str_eq(s[i].0.as_str(), k) {
            return Some(i);
        }
        assert(snap_view(s@).skip(i as int).drop_first() =~= snap_view(s@).skip(i + 1));
        i = i + 1;
    }
    None
}

/// Whether the entries with the key `k` differ.
fn differs_at(got: &Vec<(String, Vec<(u32, String)>)>, want: &Vec<(String, Vec<(u32, String)>)>, k: &str) -> (r: bool)
    ensures
        r == (lookup(snap_view(got@), k@) != lookup(snap_view(want@), k@)),
{
    match (lookup_exec(got, k), lookup_exec(want, k)) {
        (Some(i), Some(j)) => !same_paras(&got[i].1, &want[j].1),
        (None, None) => false,
        _ => true,
    }
}

fn diff_key_in(
    keys_of: &Vec<(String, Vec<(u32, String)>)>,
    got: &Vec<(String, Vec<(u32, String)>)>,
    want: &Vec<(String, Vec<(u32, String)>)>,
) -> (r: Option<usize>)
    ensures
        match r {
            Some(i) => i < keys_of.len() && diff_key_from(snap_view(keys_of@), snap_view(got@), snap_view(want@), 0)
                == Some(keys_of@[i as int].0@),
            None => diff_key_from(snap_view(keys_of@), snap_view(got@), snap_view(want@), 0) is None,
        },
{
    let mut i: usize = 0;
    while i < keys_of.len()
        invariant
            i <= keys_of.len(),
            diff_key_from(snap_view(keys_of@), snap_view(got@), snap_view(want@), 0) == diff_key_from(
                snap_view(keys_of@),
                snap_view(got@),
                snap_view(want@),
                i as int,
            ),
        decreases keys_of.len() - i,
    {
        assert(snap_view(keys_of@)[i as int].0 == keys_of@[i as int].0@);
        if differs_at(got, want, keys_of[i].0.as_str()) {
            return Some(i);
        }
        i = i + 1;
    }
    None
}

fn paras_text_exec(ps: &Vec<(u32, String)>) -> (r: Vec<char>)
    ensures
        r@ == paras_text(Some(paras_view(ps@))),
{
    let mut t = String::new();
    let mut i: usize = 0;
    while i < ps.len()
        invariant
            i <= ps.len(),
            t@ == paras_text_upto(paras_view(ps@), i as int),
        decreases ps.len() - i,
    {
        crate::text::push_char(&mut t, '[');
        push_decimal(&mut t, ps[i].0 as u64);
        crate::text::push_char(&mut t, ']');
        crate::text::push_str(&mut t, ps[i].1.as_str());
        assert(paras_view(ps@)[i as int] == (ps@[i as int].0, ps@[i as int].1@));
        i = i + 1;
    }
    chars_of(t.as_str())
}

fn first_diff_exec(g: &Vec<char>, w: &Vec<char>) -> (r: usize)
    ensures
        r == first_diff(g@, w@, 0),
        r <= g.len(),
        r <= w.len(),
{
    let mut i: usize = 0;
    while i < g.len() && i < w.len() && g[i] == w[i]
        invariant
            i <= g.len(),
            i <= w.len(),
            first_diff(g@, w@, 0) == first_diff(g@, w@, i as int),
        decreases g.len() - i,
    {
        i = i + 1;
    }
    i
}

fn around_exec(s: &Vec<char>, at: usize) -> (r: Vec<char>)
    ensures
        r@ == around(s@, at as int),
{
    let from0: usize = if at > 12 { at - 12 } else { 0 };
    let from: usize = if from0 < s.len() { from0 } else { s.len() };
    let to: usize = if s.len() - from > 36 { from + 36 } else { s.len() };
    crate::text::slice_range(s.as_slice(), from, to)
}

/// Whether the snapshots (sorted maps from key to paragraphs, entries in ascending key
/// order) are the same; if not, the first difference (see [`mismatch_text`]).
pub fn compare_snapshots(
    got: &Vec<(String, Vec<(u32, String)>)>,
    want: &Vec<(String, Vec<(u32, String)>)>,
) -> (r: Result<(), CheckFailure>)
    requires
        keys_ascending(got@),
        keys_ascending(want@),
    ensures
        snap_view(got@) == snap_view(want@) ==> r is Ok,
        snap_view(got@) != snap_view(want@) ==> (r matches Err(CheckFailure::Mismatch(m)) && m@
            == mismatch_text(snap_view(got@), snap_view(want@))),
{
    if same_snapshots(got, want) {
        return Ok(());
    }
    let ghost gv = snap_view(got@);
    let ghost wv = snap_view(want@);
    let key: Vec<char> = match diff_key_in(got, got, want) {
        Some(i) => chars_of(got[i].0.as_str()),
        None => match diff_key_in(want, got, want) {
            Some(i) => chars_of(want[i].0.as_str()),
            None => Vec::new(),
        },
    };
    assert(key@ == diff_key(gv, wv));
    let ks = string_of(key.as_slice());
    let g: Vec<char> = match lookup_exec(got, ks.as_str()) {
        Some(i) => paras_text_exec(&got[i].1),
        None => Vec::new(),
    };
    let w: Vec<char> = match lookup_exec(want, ks.as_str()) {
        Some(i) => paras_text_exec(&want[i].1),
        None => Vec::new(),
    };
    assert(g@ == paras_text(lookup(gv, key@)));
    assert(w@ == paras_text(lookup(wv, key@)));
    let at = first_diff_exec(&g, &w);
    let mut m = string_of(key.as_slice());
    crate::text::push_str(&mut m, ": ");
    let ga = around_exec(&g, at);
    crate::text::push_str(&mut m, string_of(ga.as_slice()).as_str());
    crate::text::push_str(&mut m, " ≠ ");
    let wa = around_exec(&w, at);
    crate::text::push_str(&mut m, string_of(wa.as_slice()).as_str());
    Err(CheckFailure::Mismatch(m))
}

} // verus!
