//! Names of places and the marks of phrases added within one instruction.

use vstd::prelude::*;
use crate::article_num::spec_num_string;
use crate::numeral::{push_decimal, spec_decimal};
use crate::op::{Loc, LocModel, ParaRef};
use crate::place::{is_numeral, numeral_char};
use crate::text::{chars_of, push_char, push_string, split_chars, split_on, string_of};
use crate::numeral::{spec_parse_u32, spec_to_kanji, to_kanji, wide_digit, wide_digit_char};
use crate::reiki_style::{is_white_space, white_space};
use crate::op::ContainerKind;
use crate::hane_cands::parse_u32_chars;

verus! {

/// The name of a place in compact numbers: `附則第12_2条第3項第4号`.
pub open spec fn spec_loc_name(l: LocModel) -> Seq<char> {
    (if l.suppl { seq!['附', '則'] } else { Seq::empty() }) + seq!['第'] + spec_num_string(l.article)
        + seq!['条'] + (match l.paragraph {
        Some(n) => seq!['第'] + spec_decimal(n as nat) + seq!['項'],
        None => Seq::empty(),
    }) + (match l.item {
        Some(i) => seq!['第'] + i + seq!['号'],
        None => Seq::empty(),
    })
}

/// The name of the place `l` (`第12_2条第3項`, with `附則` before it for the
/// supplementary provisions and the item after it).
pub fn loc_name(l: &Loc) -> (s: String)
    ensures
        s@ == spec_loc_name(l@),
{
    let mut s = String::new();
    if l.suppl {
        push_char(&mut s, '附');
        push_char(&mut s, '則');
    }
    push_char(&mut s, '第');
    let a = l.article.to_num_string();
    push_string(&mut s, &a);
    push_char(&mut s, '条');
    match &l.paragraph {
        Some(ParaRef::Num(n)) => {
            push_char(&mut s, '第');
            push_decimal(&mut s, *n as u64);
            push_char(&mut s, '項');
        },
        None => {},
    }
    match &l.item {
        Some(i) => {
            push_char(&mut s, '第');
            push_string(&mut s, i);
            push_char(&mut s, '号');
        },
        None => {},
    }
    assert(s@ =~= spec_loc_name(l@));
    s
}

/// The mark that opens a phrase added earlier in the same instruction.
pub const MARK_O: char = '\u{E000}';

/// The mark that closes a phrase added earlier in the same instruction.
pub const MARK_C: char = '\u{E001}';

/// One of the two marks.
pub open spec fn is_mark(c: char) -> bool {
    c == MARK_O || c == MARK_C
}

/// `s` between the marks (nothing for an empty `s`).
pub open spec fn spec_mark(s: Seq<char>) -> Seq<char> {
    if s.len() == 0 {
        Seq::empty()
    } else {
        seq![MARK_O] + s + seq![MARK_C]
    }
}

/// Puts the phrase `s`, added by an edit, between the marks.
pub fn mark(s: &str) -> (r: String)
    ensures
        r@ == spec_mark(s@),
{
    let cs = chars_of(s);
    let mut r = String::new();
    if cs.len() == 0 {
        return r;
    }
    push_char(&mut r, MARK_O);
    let t = string_of(cs.as_slice());
    push_string(&mut r, &t);
    push_char(&mut r, MARK_C);
    assert(r@ =~= spec_mark(s@));
    r
}

/// `s` without its marks.
pub open spec fn spec_strip_marks(s: Seq<char>) -> Seq<char> {
    s.filter(|c: char| !is_mark(c))
}

/// Takes the marks out of `s`.
pub fn strip_marks(s: &str) -> (r: String)
    ensures
        r@ == spec_strip_marks(s@),
{
    let cs = chars_of(s);
    let mut r = String::new();
    let mut i: usize = 0;
    while i < cs.len()
        invariant
            i <= cs.len(),
            cs@ == s@,
            r@ == spec_strip_marks(cs@.take(i as int)),
        decreases cs.len() - i,
    {
        assert(cs@.take(i + 1).drop_last() =~= cs@.take(i as int));
        reveal(Seq::filter);
        let c = cs[i];
        if c != MARK_O && c != MARK_C {
            push_char(&mut r, c);
        }
        i = i + 1;
    }
    assert(cs@.take(cs.len() as int) =~= cs@);
    r
}

/// The first mark at `p` or after it (the length when there is none).
pub open spec fn next_mark(t: Seq<char>, p: int) -> int
    decreases t.len() - p,
{
    if 0 <= p < t.len() && !is_mark(t[p]) {
        next_mark(t, p + 1)
    } else {
        p
    }
}

/// A marked phrase opens at `a` (the next mark after it closes it) and covers the
/// characters before `e`.
pub open spec fn span_covers(t: Seq<char>, a: int, e: int) -> bool {
    &&& 0 <= a < t.len()
    &&& t[a] == MARK_O
    &&& next_mark(t, a + 1) < t.len()
    &&& t[next_mark(t, a + 1)] == MARK_C
    &&& e <= next_mark(t, a + 1) + 1
}

/// The `n` characters from `p` lie within one marked phrase.
pub open spec fn in_marked(t: Seq<char>, p: int, n: int) -> bool {
    exists|a: int| 0 <= a <= p && #[trigger] span_covers(t, a, p + n)
}

/// `f` stands in `t` at `p`.
pub open spec fn at_match(t: Seq<char>, f: Seq<char>, p: int) -> bool {
    0 <= p && p + f.len() <= t.len() && t.subrange(p, p + f.len()) == f
}

/// The phrase `f` ends in a numeral and `t` goes on with one after the occurrence at `p`:
/// `第五条の二` does not stand at the head of `第五条の二十二`.
pub open spec fn cuts_numeral(t: Seq<char>, f: Seq<char>, p: int) -> bool {
    f.len() > 0 && is_numeral(f.last()) && 0 <= p + f.len() < t.len() && is_numeral(t[p + f.len()])
}

/// Whether some occurrence of `f` from `p` on (non-overlapping, from the left) neither
/// cuts a numeral nor lies within a marked phrase.
pub open spec fn any_outside_from(t: Seq<char>, f: Seq<char>, p: int) -> bool
    decreases t.len() - p,
{
    if f.len() == 0 || p < 0 || p >= t.len() {
        false
    } else if at_match(t, f, p) {
        (!cuts_numeral(t, f, p) && !in_marked(t, p, f.len() as int)) || any_outside_from(
            t,
            f,
            p + f.len(),
        )
    } else {
        any_outside_from(t, f, p + 1)
    }
}

/// Whether the occurrence at `p` is replaced: it cuts no numeral, and when some occurrence
/// lies outside the marked phrases (`outside`), it does too.
pub open spec fn replaced_at(t: Seq<char>, f: Seq<char>, p: int, outside: bool) -> bool {
    !cuts_numeral(t, f, p) && (outside ==> !in_marked(t, p, f.len() as int))
}

/// `t` from `p` on with the replaced occurrences of `f` made `to`.
pub open spec fn rewritten_from(t: Seq<char>, f: Seq<char>, to: Seq<char>, p: int, outside: bool) -> Seq<char>
    decreases t.len() - p,
{
    if f.len() == 0 || p < 0 || p >= t.len() {
        Seq::empty()
    } else if at_match(t, f, p) {
        (if replaced_at(t, f, p, outside) { to } else { f }) + rewritten_from(
            t,
            f,
            to,
            p + f.len(),
            outside,
        )
    } else {
        seq![t[p]] + rewritten_from(t, f, to, p + 1, outside)
    }
}

/// The number of occurrences replaced from `p` on.
pub open spec fn replaced_count_from(t: Seq<char>, f: Seq<char>, p: int, outside: bool) -> nat
    decreases t.len() - p,
{
    if f.len() == 0 || p < 0 || p >= t.len() {
        0
    } else if at_match(t, f, p) {
        (if replaced_at(t, f, p, outside) { 1nat } else { 0nat }) + replaced_count_from(
            t,
            f,
            p + f.len(),
            outside,
        )
    } else {
        replaced_count_from(t, f, p + 1, outside)
    }
}

/// What replacing `f` by `to` in `t` gives, and how many times it was replaced: the
/// occurrences of `f` from the left, those that cut a numeral left out; of them the ones
/// outside marked phrases, or all of them when none is outside.
pub open spec fn spec_replace_protected(t: Seq<char>, f: Seq<char>, to: Seq<char>) -> (Seq<char>, nat) {
    if f.len() == 0 {
        (t, 0)
    } else {
        let outside = any_outside_from(t, f, 0);
        (rewritten_from(t, f, to, 0, outside), replaced_count_from(t, f, 0, outside))
    }
}

fn next_mark_exec(t: &Vec<char>, p: usize) -> (r: usize)
    requires
        p <= t.len(),
    ensures
        r == next_mark(t@, p as int),
        p <= r <= t.len(),
{
    let mut k = p;
    while k < t.len() && t[k] != MARK_O && t[k] != MARK_C
        invariant
            p <= k <= t.len(),
            next_mark(t@, p as int) == next_mark(t@, k as int),
        decreases t.len() - k,
    {
        k = k + 1;
    }
    k
}

fn in_marked_exec(t: &Vec<char>, p: usize, n: usize) -> (r: bool)
    requires
        p < t.len(),
        p + n <= t.len(),
    ensures
        r == in_marked(t@, p as int, n as int),
{
    let ghost e: int = p + n;
    let mut a: usize = 0;
    while a <= p
        invariant
            a <= p + 1,
            p < t.len(),
            p + n <= t.len(),
            e == p + n,
            forall|b: int| 0 <= b < a ==> !#[trigger] span_covers(t@, b, e),
        decreases p + 1 - a,
    {
        if t[a] == MARK_O {
            let c = next_mark_exec(t, a + 1);
            if c < t.len() && t[c] == MARK_C && p + n <= c + 1 {
                assert(span_covers(t@, a as int, e));
                return true;
            }
        }
        a = a + 1;
    }
    false
}

fn at_match_exec(t: &Vec<char>, f: &Vec<char>, p: usize) -> (r: bool)
    requires
        p <= t.len(),
    ensures
        r == at_match(t@, f@, p as int),
{
    if t.len() - p < f.len() {
        return false;
    }
    let mut i: usize = 0;
    while i < f.len()
        invariant
            i <= f.len(),
            p + f.len() <= t.len(),
            forall|k: int| 0 <= k < i ==> t@[p + k] == f@[k],
        decreases f.len() - i,
    {
        if t[p + i] != f[i] {
            assert(t@.subrange(p as int, p + f.len())[i as int] != f@[i as int]);
            return false;
        }
        i = i + 1;
    }
    assert(t@.subrange(p as int, p + f.len()) =~= f@);
    true
}

fn cuts_numeral_exec(t: &Vec<char>, f: &Vec<char>, p: usize) -> (r: bool)
    requires
        p + f.len() <= t.len(),
    ensures
        r == cuts_numeral(t@, f@, p as int),
{
    f.len() > 0 && numeral_char(f[f.len() - 1]) && p + f.len() < t.len() && numeral_char(t[p + f.len()])
}

/// Replaces `from` by `to` in `t` and says how many times (`to` is put between the marks
/// by the caller when it is added wording). A phrase added earlier in the same instruction
/// (within the marks) is not replaced, as the instruction speaks of the wording before it;
/// only where `from` occurs within added phrases alone is it replaced there. An occurrence
/// that would cut a numeral (`第五条の二` at the head of `第五条の二十二`) is not replaced.
pub fn replace_protected(t: &str, from: &str, to: &str, _protect: &[String]) -> (r: (String, usize))
    ensures
        (r.0@, r.1 as nat) == spec_replace_protected(t@, from@, to@),
{
    let tc = chars_of(t);
    let fc = chars_of(from);
    if fc.len() == 0 {
        return (string_of(tc.as_slice()), 0);
    }
    let n = fc.len();
    // Whether some occurrence lies outside the marked phrases.
    let mut outside = false;
    let mut p: usize = 0;
    while p < tc.len()
        invariant
            p <= tc.len(),
            tc@ == t@,
            fc@ == from@,
            n == fc.len() > 0,
            any_outside_from(tc@, fc@, 0) == (outside || any_outside_from(tc@, fc@, p as int)),
        decreases tc.len() - p,
    {
        if at_match_exec(&tc, &fc, p) {
            if !cuts_numeral_exec(&tc, &fc, p) && !in_marked_exec(&tc, p, n) {
                outside = true;
            }
            p = p + n;
        } else {
            p = p + 1;
        }
    }
    let ghost o = outside;
    assert(o == any_outside_from(tc@, fc@, 0));
    let tv = chars_of(to);
    let mut out = String::new();
    let mut count: usize = 0;
    let mut q: usize = 0;
    while q < tc.len()
        invariant
            q <= tc.len(),
            tc@ == t@,
            fc@ == from@,
            tv@ == to@,
            n == fc.len() > 0,
            o == outside,
            count <= q,
            out@ + rewritten_from(tc@, fc@, tv@, q as int, o) == rewritten_from(tc@, fc@, tv@, 0, o),
            count + replaced_count_from(tc@, fc@, q as int, o) == replaced_count_from(tc@, fc@, 0, o),
        decreases tc.len() - q,
    {
        if at_match_exec(&tc, &fc, q) {
            let rep = !cuts_numeral_exec(&tc, &fc, q) && (!outside || !in_marked_exec(&tc, q, n));
            let ghost before = out@;
            if rep {
                let ts = string_of(tv.as_slice());
                push_string(&mut out, &ts);
                count = count + 1;
            } else {
                let fs = string_of(fc.as_slice());
                push_string(&mut out, &fs);
            }
            assert(out@ =~= before + (if replaced_at(tc@, fc@, q as int, o) { tv@ } else { fc@ }));
            q = q + n;
        } else {
            let ghost before = out@;
            push_char(&mut out, tc[q]);
            assert(out@ =~= before + seq![tc@[q as int]]);
            q = q + 1;
        }
    }
    assert(out@ =~= rewritten_from(tc@, fc@, tv@, 0, o));
    (out, count)
}

/// The fields that read as numbers, as `u32`'s `from_str` reads them.
pub open spec fn numbers_of(fields: Seq<Seq<char>>) -> Seq<u32>
    decreases fields.len(),
{
    if fields.len() == 0 {
        Seq::empty()
    } else {
        numbers_of(fields.drop_last()) + match spec_parse_u32(fields.last()) {
            Some(v) => seq![v],
            None => Seq::empty(),
        }
    }
}

/// Each number after the first as `の` and its kanji numeral.
pub open spec fn branch_kanji(ns: Seq<u32>) -> Seq<char>
    decreases ns.len(),
{
    if ns.len() == 0 {
        Seq::empty()
    } else {
        branch_kanji(ns.drop_last()) + seq!['の'] + spec_to_kanji(ns.last() as nat)
    }
}

/// `2_2` as the kanji of its number and of its branches: `二` and `の二`. The number is the
/// text itself when no field reads as a number.
pub open spec fn spec_container_num_label(n: Seq<char>) -> (Seq<char>, Seq<char>) {
    let ns = numbers_of(split_on(n, '_'));
    if ns.len() == 0 {
        (n, Seq::empty())
    } else {
        (spec_to_kanji(ns[0] as nat), branch_kanji(ns.drop_first()))
    }
}

fn numbers_exec(n: &str) -> (r: Vec<u32>)
    ensures
        r@ == numbers_of(split_on(n@, '_')),
{
    let cs = chars_of(n);
    let fs = split_chars(cs.as_slice(), '_');
    let ghost fv = crate::text::seqs_of(fs@);
    let mut r: Vec<u32> = Vec::new();
    let mut i: usize = 0;
    while i < fs.len()
        invariant
            i <= fs.len(),
            fv == crate::text::seqs_of(fs@),
            fv == split_on(n@, '_'),
            r@ == numbers_of(fv.take(i as int)),
        decreases fs.len() - i,
    {
        assert(fv.take(i + 1).drop_last() =~= fv.take(i as int));
        assert(fv.take(i + 1).last() == fs@[i as int]@);
        match parse_u32_chars(&fs[i]) {
            Some(v) => {
                r.push(v);
            },
            None => {},
        }
        i = i + 1;
    }
    assert(fv.take(fs.len() as int) =~= fv);
    r
}

/// `2_2` → `二` and `の二` (see [`spec_container_num_label`]).
pub fn container_num_label(n: &str) -> (r: (String, String))
    ensures
        (r.0@, r.1@) == spec_container_num_label(n@),
{
    let ns = numbers_exec(n);
    if ns.len() == 0 {
        return (string_of(chars_of(n).as_slice()), String::new());
    }
    let head = to_kanji(ns[0]);
    let mut tail = String::new();
    let mut i: usize = 1;
    let ghost rest = ns@.drop_first();
    while i < ns.len()
        invariant
            1 <= i <= ns.len(),
            rest == ns@.drop_first(),
            tail@ == branch_kanji(rest.take(i - 1)),
        decreases ns.len() - i,
    {
        assert(rest.take(i as int).drop_last() =~= rest.take(i - 1));
        assert(rest.take(i as int).last() == ns@[i as int]);
        push_char(&mut tail, 'の');
        let k = to_kanji(ns[i]);
        push_string(&mut tail, &k);
        i = i + 1;
    }
    assert(rest.take(ns.len() - 1) =~= rest);
    (head, tail)
}

/// The character of a kind of division.
pub open spec fn kind_char(k: ContainerKind) -> char {
    match k {
        ContainerKind::Part => '編',
        ContainerKind::Chapter => '章',
        ContainerKind::Section => '節',
        ContainerKind::Subsection => '款',
        ContainerKind::Division => '目',
    }
}

/// The label of a path of divisions: `第二章の二第三節`.
pub open spec fn spec_container_label(path: Seq<(ContainerKind, Seq<char>)>) -> Seq<char>
    decreases path.len(),
{
    if path.len() == 0 {
        Seq::empty()
    } else {
        let (k, n) = path.last();
        let (head, tail) = spec_container_num_label(n);
        spec_container_label(path.drop_last()) + seq!['第'] + head + seq![kind_char(k)] + tail
    }
}

/// The label of a path of divisions (see [`spec_container_label`]).
pub fn container_label(path: &[(ContainerKind, String)]) -> (r: String)
    ensures
        r@ == spec_container_label(crate::op::path_view(path@)),
{
    let ghost pv = crate::op::path_view(path@);
    let mut r = String::new();
    let mut i: usize = 0;
    while i < path.len()
        invariant
            i <= path.len(),
            pv == crate::op::path_view(path@),
            r@ == spec_container_label(pv.take(i as int)),
        decreases path.len() - i,
    {
        assert(pv.take(i + 1).drop_last() =~= pv.take(i as int));
        let (head, tail) = container_num_label(path[i].1.as_str());
        let c = match path[i].0 {
            ContainerKind::Part => '編',
            ContainerKind::Chapter => '章',
            ContainerKind::Section => '節',
            ContainerKind::Subsection => '款',
            ContainerKind::Division => '目',
        };
        let ghost before = r@;
        push_char(&mut r, '第');
        push_string(&mut r, &head);
        push_char(&mut r, c);
        push_string(&mut r, &tail);
        assert(r@ =~= before + seq!['第'] + head@ + seq![c] + tail@);
        i = i + 1;
    }
    assert(pv.take(path.len() as int) =~= pv);
    r
}

/// `3_2` → `三の二`: the kanji of the numbers (nothing when none reads as a number).
pub open spec fn spec_item_title(num: Seq<char>) -> Seq<char> {
    let ns = numbers_of(split_on(num, '_'));
    if ns.len() == 0 {
        Seq::empty()
    } else {
        spec_to_kanji(ns[0] as nat) + branch_kanji(ns.drop_first())
    }
}

/// The title of an item number (see [`spec_item_title`]).
pub fn item_title(num: &str) -> (r: String)
    ensures
        r@ == spec_item_title(num@),
{
    let ns = numbers_exec(num);
    if ns.len() == 0 {
        return String::new();
    }
    let (mut s, tail) = container_num_label(num);
    push_string(&mut s, &tail);
    s
}

/// The decimal numeral of `n` in full-width digits (`１２`).
pub open spec fn spec_fullwidth(n: nat) -> Seq<char>
    decreases n,
{
    if n < 10 {
        seq![wide_digit(n as int)]
    } else {
        spec_fullwidth(n / 10).push(wide_digit((n % 10) as int))
    }
}

fn push_fullwidth(s: &mut String, n: u32)
    ensures
        final(s)@ == old(s)@ + spec_fullwidth(n as nat),
    decreases n,
{
    if n < 10 {
        push_char(s, wide_digit_char(n));
    } else {
        push_fullwidth(s, n / 10);
        push_char(s, wide_digit_char(n % 10));
    }
}

/// A number in full-width digits, as a paragraph number is written.
pub fn fullwidth(n: u32) -> (r: String)
    ensures
        r@ == spec_fullwidth(n as nat),
{
    let mut r = String::new();
    push_fullwidth(&mut r, n);
    r
}

/// `s` without white space.
pub open spec fn spec_strip_ws(s: Seq<char>) -> Seq<char> {
    s.filter(|c: char| !is_white_space(c))
}

/// Takes out the white space of `s`: the one normalization under which provisions are
/// compared.
pub fn strip_ws(s: &str) -> (r: String)
    ensures
        r@ == spec_strip_ws(s@),
{
    let cs = chars_of(s);
    let mut r = String::new();
    let mut i: usize = 0;
    while i < cs.len()
        invariant
            i <= cs.len(),
            cs@ == s@,
            r@ == spec_strip_ws(cs@.take(i as int)),
        decreases cs.len() - i,
    {
        assert(cs@.take(i + 1).drop_last() =~= cs@.take(i as int));
        reveal(Seq::filter);
        if !white_space(cs[i]) {
            push_char(&mut r, cs[i]);
        }
        i = i + 1;
    }
    assert(cs@.take(cs.len() as int) =~= cs@);
    r
}

} // verus!
