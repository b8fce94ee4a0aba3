//! The heads of lines of added provisions: an item's number (`一`, `イ`) or a number in
//! brackets (`(1)`, `（１）`) before the ideographic space.

use vstd::prelude::*;
use crate::numeral::{is_ascii_digit, is_wide_digit};
use crate::text::{chars_of, slice_from, slice_to, string_of};

verus! {

/// The first place of `ch` in `t` from `i` on, or -1.
pub open spec fn index_of(t: Seq<char>, ch: char, i: int) -> int
    decreases t.len() - i,
{
    if i < 0 || i >= t.len() {
        -1
    } else if t[i] == ch {
        i
    } else {
        index_of(t, ch, i + 1)
    }
}

/// `t` split at its first ideographic space.
pub open spec fn split_space(t: Seq<char>) -> Option<(Seq<char>, Seq<char>)> {
    let k = index_of(t, '\u{3000}', 0);
    if k < 0 {
        None
    } else {
        Some((t.take(k), t.skip(k + 1)))
    }
}

/// The head and body of `一　本文` when the head is made of `letters` alone.
pub open spec fn spec_split_item_title(line: Seq<char>, letters: Seq<char>) -> Option<(Seq<char>, Seq<char>)> {
    match split_space(line) {
        Some((t, body)) => if t.len() > 0 && (forall|q: int| 0 <= q < t.len() ==> letters.contains(#[trigger] t[q])) {
            Some((t, body))
        } else {
            None
        },
        None => None,
    }
}

/// A number in brackets: `(1)` or `（１）` around half- or full-width digits.
pub open spec fn paren_number(t: Seq<char>) -> bool {
    &&& t.len() >= 3
    &&& ((t[0] == '(' && t.last() == ')') || (t[0] == '（' && t.last() == '）'))
    &&& forall|q: int| 1 <= q < t.len() - 1 ==> is_ascii_digit(#[trigger] t[q]) || is_wide_digit(t[q])
}

/// The head and body of `(1)　本文` (see [`paren_number`]).
pub open spec fn spec_split_paren_number(line: Seq<char>) -> Option<(Seq<char>, Seq<char>)> {
    match split_space(line) {
        Some((t, body)) => if paren_number(t) { Some((t, body)) } else { None },
        None => None,
    }
}

fn split_space_exec(c: &Vec<char>) -> (r: Option<(Vec<char>, Vec<char>)>)
    ensures
        match r {
            Some((a, b)) => split_space(c@) == Some((a@, b@)),
            None => split_space(c@) is None,
        },
{
    let mut k: usize = 0;
    while k < c.len() && c[k] != '\u{3000}'
        invariant
            k <= c.len(),
            index_of(c@, '\u{3000}', 0) == index_of(c@, '\u{3000}', k as int),
        decreases c.len() - k,
    {
        k = k + 1;
    }
    if k == c.len() {
        return None;
    }
    Some((slice_to(c.as_slice(), k), slice_from(c.as_slice(), k + 1)))
}

/// Splits `一　本文` or `イ　本文` into its number and body, when the number is made of
/// `letters` (see [`spec_split_item_title`]).
pub fn split_item_title(line: &str, letters: &str) -> (r: Option<(String, String)>)
    ensures
        match r {
            Some((a, b)) => spec_split_item_title(line@, letters@) == Some((a@, b@)),
            None => spec_split_item_title(line@, letters@) is None,
        },
{
    let c = chars_of(line);
    let ls = chars_of(letters);
    let (t, body) = match split_space_exec(&c) {
        Some(x) => x,
        None => {
            return None;
        },
    };
    if t.len() == 0 {
        return None;
    }
    let mut q: usize = 0;
    while q < t.len()
        invariant
            q <= t.len(),
            ls@ == letters@,
            c@ == line@,
            split_space(c@) == Some((t@, body@)),
            forall|x: int| 0 <= x < q ==> letters@.contains(#[trigger] t@[x]),
        decreases t.len() - q,
    {
        let mut found = false;
        let mut j: usize = 0;
        while j < ls.len()
            invariant
                j <= ls.len(),
                q < t.len(),
                found == exists|y: int| 0 <= y < j && ls@[y] == t@[q as int],
            decreases ls.len() - j,
        {
            if ls[j] == t[q] {
                found = true;
            }
            j = j + 1;
        }
        if !found {
            assert(!letters@.contains(t@[q as int]));
            return None;
        }
        q = q + 1;
    }
    Some((string_of(t.as_slice()), string_of(body.as_slice())))
}

/// Splits `(1)　本文` into its bracketed number and body (see [`spec_split_paren_number`]).
pub fn split_paren_number(line: &str) -> (r: Option<(String, String)>)
    ensures
        match r {
            Some((a, b)) => spec_split_paren_number(line@) == Some((a@, b@)),
            None => spec_split_paren_number(line@) is None,
        },
{
    let c = chars_of(line);
    let (t, body) = match split_space_exec(&c) {
        Some(x) => x,
        None => {
            return None;
        },
    };
    let n = t.len();
    if n < 3 || !((t[0] == '(' && t[n - 1] == ')') || (t[0] == '（' && t[n - 1] == '）')) {
        return None;
    }
    let mut q: usize = 1;
    while q < n - 1
        invariant
            1 <= q <= n - 1,
            n == t.len(),
            c@ == line@,
            split_space(c@) == Some((t@, body@)),
            forall|x: int| 1 <= x < q ==> is_ascii_digit(#[trigger] t@[x]) || is_wide_digit(t@[x]),
        decreases n - 1 - q,
    {
        let ch = t[q];
        if !((ch >= '0' && ch <= '9') || (ch >= '０' && ch <= '９')) {
            return None;
        }
        q = q + 1;
    }
    Some((string_of(t.as_slice()), string_of(body.as_slice())))
}

} // verus!

verus! {

/// A half- or full-width decimal digit.
pub open spec fn any_digit(c: char) -> bool {
    is_ascii_digit(c) || is_wide_digit(c)
}

/// The value of a half- or full-width digit.
pub open spec fn digit_value(c: char) -> int {
    if is_ascii_digit(c) { c as int - '0' as int } else { c as int - '０' as int }
}

/// The number of leading digits.
pub open spec fn lead_digits(s: Seq<char>) -> nat
    decreases s.len(),
{
    if s.len() > 0 && any_digit(s[0]) {
        1 + lead_digits(s.drop_first())
    } else {
        0
    }
}

/// The value of digits read from the left.
pub open spec fn digits_value(s: Seq<char>) -> int
    decreases s.len(),
{
    if s.len() == 0 {
        0
    } else {
        digits_value(s.drop_last()) * 10 + digit_value(s.last())
    }
}

/// The leading ideographic and ASCII spaces of `s` taken off.
pub open spec fn trim_spaces(s: Seq<char>) -> Seq<char>
    decreases s.len(),
{
    if s.len() > 0 && (s[0] == '\u{3000}' || s[0] == ' ') {
        trim_spaces(s.drop_first())
    } else {
        s
    }
}

/// `２　本文` as its number and its text: the number written in leading digits, and the
/// rest without its leading spaces; no number and the whole line when it starts with none.
pub open spec fn spec_split_leading_number(line: Seq<char>) -> (Option<int>, Seq<char>) {
    let k = lead_digits(line);
    if k == 0 {
        (None, line)
    } else {
        (Some(digits_value(line.take(k as int))), trim_spaces(line.skip(k as int)))
    }
}

proof fn lemma_digits_nonneg(s: Seq<char>)
    requires
        forall|q: int| 0 <= q < s.len() ==> any_digit(#[trigger] s[q]),
    ensures
        0 <= digits_value(s),
    decreases s.len(),
{
    if s.len() > 0 {
        assert forall|q: int| 0 <= q < s.drop_last().len() implies any_digit(#[trigger] s.drop_last()[q]) by {
            assert(s.drop_last()[q] == s[q]);
        }
        lemma_digits_nonneg(s.drop_last());
        assert(any_digit(s[s.len() - 1]));
    }
}

proof fn lemma_digits_grow(s: Seq<char>, i: int)
    requires
        0 <= i <= s.len(),
        forall|q: int| 0 <= q < s.len() ==> any_digit(#[trigger] s[q]),
    ensures
        0 <= digits_value(s.take(i)) <= digits_value(s),
    decreases s.len() - i,
{
    if i < s.len() {
        lemma_digits_grow(s, i + 1);
        assert(s.take(i + 1).drop_last() =~= s.take(i));
        assert(any_digit(s[i]));
        assert forall|q: int| 0 <= q < s.take(i).len() implies any_digit(#[trigger] s.take(i)[q]) by {
            assert(s.take(i)[q] == s[q]);
        }
        lemma_digits_nonneg(s.take(i));
    } else {
        assert(s.take(i) =~= s);
        lemma_digits_nonneg(s);
    }
}

proof fn lemma_lead_digits(s: Seq<char>)
    ensures
        lead_digits(s) <= s.len(),
        forall|q: int| 0 <= q < lead_digits(s) ==> any_digit(#[trigger] s[q]),
        lead_digits(s) < s.len() ==> !any_digit(s[lead_digits(s) as int]),
    decreases s.len(),
{
    if s.len() > 0 && any_digit(s[0]) {
        lemma_lead_digits(s.drop_first());
        assert forall|q: int| 0 <= q < lead_digits(s) implies any_digit(#[trigger] s[q]) by {
            if q > 0 {
                assert(s[q] == s.drop_first()[q - 1]);
            }
        }
        if lead_digits(s) < s.len() {
            assert(s[lead_digits(s) as int] == s.drop_first()[lead_digits(s) - 1]);
        }
    }
}

/// Splits `２　本文` into its number and text (see [`spec_split_leading_number`]); the
/// number must fit in `u32`.
pub fn split_leading_number(line: &str) -> (r: (Option<u32>, String))
    requires
        digits_value(line@.take(lead_digits(line@) as int)) <= u32::MAX,
    ensures
        (match r.0 {
            Some(n) => Some(n as int),
            None => None,
        }, r.1@) == spec_split_leading_number(line@),
{
    let c = chars_of(line);
    proof {
        lemma_lead_digits(c@);
    }
    let ghost k = lead_digits(c@) as int;
    let ghost head = c@.take(k);
    assert forall|q: int| 0 <= q < head.len() implies any_digit(#[trigger] head[q]) by {
        assert(head[q] == c@[q]);
    }
    let mut n: u32 = 0;
    let mut i: usize = 0;
    while i < c.len() && ((c[i] >= '0' && c[i] <= '9') || (c[i] >= '０' && c[i] <= '９'))
        invariant
            i <= k,
            k == lead_digits(c@),
            head == c@.take(k),
            k <= c.len(),
            forall|q: int| 0 <= q < head.len() ==> any_digit(#[trigger] head[q]),
            digits_value(head) <= u32::MAX,
            n as int == digits_value(c@.take(i as int)),
            forall|q: int| 0 <= q < k ==> any_digit(#[trigger] c@[q]),
            k < c.len() ==> !any_digit(c@[k]),
        decreases c.len() - i,
    {
        assert(i < k) by {
            if i >= k {
                assert(i == k);
            }
        }
        proof {
            lemma_digits_grow(head, i + 1);
            assert(head.take(i + 1) =~= c@.take(i + 1));
            assert(c@.take(i + 1).drop_last() =~= c@.take(i as int));
        }
        let ch = c[i];
        let d: u32 = if ch >= '0' && ch <= '9' { (ch as u32) - ('0' as u32) } else { (ch as u32) - ('０' as u32) };
        n = n * 10 + d;
        i = i + 1;
    }
    assert(i == k);
    if i == 0 {
        return (None, string_of(c.as_slice()));
    }
    let mut j = i;
    while j < c.len() && (c[j] == '\u{3000}' || c[j] == ' ')
        invariant
            i <= j <= c.len(),
            trim_spaces(c@.skip(i as int)) == trim_spaces(c@.skip(j as int)),
        decreases c.len() - j,
    {
        assert(c@.skip(j as int).drop_first() =~= c@.skip(j + 1));
        j = j + 1;
    }
    let rest = slice_from(c.as_slice(), j);
    assert(trim_spaces(c@.skip(j as int)) == c@.skip(j as int));
    (Some(n), string_of(rest.as_slice()))
}

} // verus!
