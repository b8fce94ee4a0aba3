//! Fixes for references whose target moves when paragraphs are inserted, renumbered or
//! deleted: the fix is generated from the numbers before and after, and an instruction's
//! replacement is checked against it.

use vstd::prelude::*;
use crate::body::RefForm;
use crate::numeral::{spec_to_kanji, to_kanji};
use crate::text::{chars_of, ends_with, has_at, push_str, push_string, starts_with, string_of};

verus! {

/// The first place from `i` on where `p` starts in `t`, or -1.
pub open spec fn find_from(t: Seq<char>, p: Seq<char>, i: int) -> int
    decreases t.len() + 1 - i,
{
    if i < 0 || i + p.len() > t.len() {
        -1
    } else if starts_with(t.skip(i), p) {
        i
    } else {
        find_from(t, p, i + 1)
    }
}

proof fn lemma_find_from(t: Seq<char>, p: Seq<char>, i: int)
    requires
        0 <= i,
    ensures
        find_from(t, p, i) == -1 || (i <= find_from(t, p, i) && find_from(t, p, i) + p.len() <= t.len()),
    decreases t.len() + 1 - i,
{
    if i + p.len() <= t.len() && !starts_with(t.skip(i), p) {
        lemma_find_from(t, p, i + 1);
    }
}

/// The first occurrence of `p` in `t` replaced by `r` (as `str::replacen` with count 1).
pub open spec fn replace_first(t: Seq<char>, p: Seq<char>, r: Seq<char>) -> Seq<char> {
    let i = find_from(t, p, 0);
    if i < 0 {
        t
    } else {
        t.take(i) + r + t.skip(i + p.len())
    }
}

/// `t` holds `p`.
pub open spec fn holds(t: Seq<char>, p: Seq<char>) -> bool {
    find_from(t, p, 0) >= 0
}

/// `第N項`.
pub open spec fn para_label(n: nat) -> Seq<char> {
    seq!['第'] + spec_to_kanji(n) + seq!['項']
}

/// `前N項`, `前項` for 1.
pub open spec fn prev_label(k: nat) -> Seq<char> {
    if k == 1 { seq!['前', '項'] } else { seq!['前'] + spec_to_kanji(k) + seq!['項'] }
}

/// The reference `text` written again with the numbers after the amendment: the target
/// paragraph was `old_tp` and is `new_tp`, the paragraph that holds the reference is
/// `new_sp` (when it is in the same article). A relative form stays when its distance
/// stays, becomes `前項` at distance 1, and the absolute `第N項` otherwise.
pub open spec fn spec_render_fix(text: Seq<char>, kind: RefForm, old_tp: nat, new_tp: nat, new_sp: Option<nat>) -> Seq<char> {
    match kind {
        RefForm::Prev(k) => match new_sp {
            Some(ns) if ns > new_tp => {
                let d = ns - new_tp;
                if d == k {
                    text
                } else if d == 1 {
                    replace_first(text, seq!['前'] + spec_to_kanji(k as nat) + seq!['項'], seq!['前', '項'])
                } else {
                    replace_first(text, prev_label(k as nat), para_label(new_tp))
                }
            },
            _ => replace_first(text, prev_label(k as nat), para_label(new_tp)),
        },
        RefForm::Next => match new_sp {
            Some(ns) if new_tp == ns + 1 => text,
            _ => replace_first(text, seq!['次', '項'], para_label(new_tp)),
        },
        _ => replace_first(text, para_label(old_tp), para_label(new_tp)),
    }
}

/// The replacement `to` points at the paragraph `new_tp` after the amendment: as `第N項`, or in
/// a relative form whose distance from the paragraph `new_sp` that holds it is right.
/// A reference to a deleted paragraph (no `new_tp`) is not judged.
pub open spec fn spec_fixes_to(to: Seq<char>, new_tp: Option<nat>, new_sp: Option<nat>) -> bool {
    match new_tp {
        None => true,
        Some(nt) => {
            ||| holds(to, para_label(nt))
            ||| match new_sp {
                Some(ns) if ns > nt => {
                    let rel = prev_label((ns - nt) as nat);
                    to == rel || ends_with(to, rel)
                },
                Some(ns) if nt == ns + 1 => to == seq!['次', '項'] || ends_with(to, seq!['次', '項']),
                _ => false,
            }
        },
    }
}

pub(crate) fn find_in(t: &Vec<char>, p: &Vec<char>) -> (r: Option<usize>)
    ensures
        match r {
            Some(i) => i as int == find_from(t@, p@, 0) && i + p.len() <= t.len(),
            None => find_from(t@, p@, 0) == -1,
        },
{
    proof {
        lemma_find_from(t@, p@, 0);
    }
    let ps = string_of(p.as_slice());
    if p.len() > t.len() {
        return None;
    }
    if p.len() == 0 {
        assert(t@.skip(0).take(0) =~= p@);
        assert(starts_with(t@.skip(0), p@));
        return Some(0);
    }
    let mut i: usize = 0;
    while i <= t.len() - p.len()
        invariant
            find_from(t@, p@, i as int) == find_from(t@, p@, 0),
            ps@ == p@,
            1 <= p.len() <= t.len(),
        decreases t.len() - i,
    {
        if has_at(t.as_slice(), i, ps.as_str()) {
            return Some(i);
        }
        i = i + 1;
    }
    None
}

fn replace_first_of(t: &Vec<char>, p: &Vec<char>, r: &Vec<char>) -> (out: String)
    ensures
        out@ == replace_first(t@, p@, r@),
{
    match find_in(t, p) {
        Some(i) => {
            let mut out = string_of(crate::text::slice_to(t.as_slice(), i).as_slice());
            push_string(&mut out, &string_of(r.as_slice()));
            push_string(&mut out, &string_of(crate::text::slice_from(t.as_slice(), i + p.len()).as_slice()));
            out
        },
        None => string_of(t.as_slice()),
    }
}

fn para_label_of(n: u32) -> (r: Vec<char>)
    ensures
        r@ == para_label(n as nat),
{
    let mut s = String::new();
    push_str(&mut s, "第");
    push_string(&mut s, &to_kanji(n));
    push_str(&mut s, "項");
    proof {
        reveal_strlit("第");
        reveal_strlit("項");
    }
    let r = chars_of(s.as_str());
    assert(r@ =~= para_label(n as nat));
    r
}

fn prev_label_of(k: u32) -> (r: Vec<char>)
    ensures
        r@ == prev_label(k as nat),
{
    if k == 1 {
        let r = vec!['前', '項'];
        assert(r@ =~= prev_label(1));
        return r;
    }
    let mut s = String::new();
    push_str(&mut s, "前");
    push_string(&mut s, &to_kanji(k));
    push_str(&mut s, "項");
    proof {
        reveal_strlit("前");
        reveal_strlit("項");
    }
    let r = chars_of(s.as_str());
    assert(r@ =~= prev_label(k as nat));
    r
}

/// Writes a reference again with the numbers after the amendment (see [`spec_render_fix`]).
pub fn render_fix(text: &str, kind: &RefForm, old_tp: u32, new_tp: u32, new_sp: Option<u32>) -> (r: String)
    ensures
        r@ == spec_render_fix(
            text@,
            *kind,
            old_tp as nat,
            new_tp as nat,
            match new_sp {
                Some(s) => Some(s as nat),
                None => None,
            },
        ),
{
    let t = chars_of(text);
    match kind {
        RefForm::Prev(k) => {
            match new_sp {
                Some(ns) => {
                    if ns > new_tp {
                        let d = ns - new_tp;
                        if d == *k {
                            return String::from_str(text);
                        } else if d == 1 {
                            let mut p = vec!['前'];
                            let kk = chars_of(to_kanji(*k).as_str());
                            let mut j: usize = 0;
                            let ghost p0 = p@;
                            while j < kk.len()
                                invariant
                                    j <= kk.len(),
                                    p@ == p0 + kk@.take(j as int),
                                decreases kk.len() - j,
                            {
                                p.push(kk[j]);
                                assert(kk@.take(j + 1) == kk@.take(j as int).push(kk@[j as int]));
                                j = j + 1;
                            }
                            assert(kk@.take(kk.len() as int) == kk@);
                            p.push('項');
                            assert(p@ =~= seq!['前'] + spec_to_kanji(*k as nat) + seq!['項']);
                            let to = vec!['前', '項'];
                            assert(to@ =~= seq!['前', '項']);
                            return replace_first_of(&t, &p, &to);
                        } else {
                            return replace_first_of(&t, &prev_label_of(*k), &para_label_of(new_tp));
                        }
                    }
                },
                None => {},
            }
            replace_first_of(&t, &prev_label_of(*k), &para_label_of(new_tp))
        },
        RefForm::Next => {
            match new_sp {
                Some(ns) => {
                    if ns < new_tp && new_tp - ns == 1 {
                        return String::from_str(text);
                    }
                },
                None => {},
            }
            let p = vec!['次', '項'];
            assert(p@ =~= seq!['次', '項']);
            replace_first_of(&t, &p, &para_label_of(new_tp))
        },
        _ => replace_first_of(&t, &para_label_of(old_tp), &para_label_of(new_tp)),
    }
}

pub(crate) fn chars_eq(a: &Vec<char>, b: &Vec<char>) -> (r: bool)
    ensures
        r == (a@ == b@),
{
    if a.len() != b.len() {
        return false;
    }
    let mut i: usize = 0;
    while i < a.len()
        invariant
            i <= a.len() == b.len(),
            forall|k: int| 0 <= k < i ==> a@[k] == b@[k],
        decreases a.len() - i,
    {
        if a[i] != b[i] {
            return false;
        }
        i = i + 1;
    }
    assert(a@ =~= b@);
    true
}

fn chars_ends(a: &Vec<char>, b: &Vec<char>) -> (r: bool)
    ensures
        r == ends_with(a@, b@),
{
    if b.len() > a.len() {
        return false;
    }
    let tail = crate::text::slice_from(a.as_slice(), a.len() - b.len());
    chars_eq(&tail, b)
}

/// Whether the replacement `to` points at the paragraph `new_tp` after the amendment (see
/// [`spec_fixes_to`]).
pub fn fixes_to(to: &str, new_tp: Option<u32>, new_sp: Option<u32>) -> (r: bool)
    ensures
        r == spec_fixes_to(
            to@,
            match new_tp {
                Some(t) => Some(t as nat),
                None => None,
            },
            match new_sp {
                Some(s) => Some(s as nat),
                None => None,
            },
        ),
{
    let nt = match new_tp {
        Some(n) => n,
        None => {
            return true;
        },
    };
    let t = chars_of(to);
    if find_in(&t, &para_label_of(nt)).is_some() {
        return true;
    }
    match new_sp {
        Some(ns) => {
            if ns > nt {
                let rel = prev_label_of(ns - nt);
                return chars_eq(&t, &rel) || chars_ends(&t, &rel);
            } else if ns < nt && nt - ns == 1 {
                let rel = vec!['次', '項'];
                assert(rel@ =~= seq!['次', '項']);
                return chars_eq(&t, &rel) || chars_ends(&t, &rel);
            }
            false
        },
        None => false,
    }
}


proof fn lemma_replace_same(t: Seq<char>, p: Seq<char>)
    ensures
        replace_first(t, p, p) == t,
{
    let i = find_from(t, p, 0);
    lemma_find_from(t, p, 0);
    if i >= 0 {
        lemma_find_is_match(t, p, 0);
        assert(t.take(i) + p + t.skip(i + p.len()) =~= t) by {
            assert(t.skip(i).take(p.len() as int) == p);
        }
    }
}

proof fn lemma_find_is_match(t: Seq<char>, p: Seq<char>, i: int)
    requires
        0 <= i,
    ensures
        find_from(t, p, i) >= 0 ==> starts_with(t.skip(find_from(t, p, i)), p),
    decreases t.len() + 1 - i,
{
    if i + p.len() <= t.len() && !starts_with(t.skip(i), p) {
        lemma_find_is_match(t, p, i + 1);
    }
}

/// A reference whose target keeps its number (absolute forms) or its distance (relative
/// forms) is written as it was: only what moved gets a fix.
pub proof fn law_unmoved_references_stay(text: Seq<char>, kind: RefForm, old_tp: nat, new_tp: nat, new_sp: Option<nat>)
    requires
        match kind {
            RefForm::Prev(k) => new_sp matches Some(ns) && ns > new_tp && ns - new_tp == k,
            RefForm::Next => new_sp matches Some(ns) && new_tp == ns + 1,
            _ => old_tp == new_tp,
        },
    ensures
        spec_render_fix(text, kind, old_tp, new_tp, new_sp) == text,
{
    match kind {
        RefForm::Prev(_) => {},
        RefForm::Next => {},
        _ => lemma_replace_same(text, para_label(old_tp)),
    }
}

} // verus!
