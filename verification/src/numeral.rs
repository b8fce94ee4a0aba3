//! Kanji numerals and decimal digits (half-width and full-width).

use vstd::prelude::*;
use crate::text::push_char;

verus! {

/// The kanji for a single decimal digit (`〇` for zero).
pub open spec fn kanji_digit(d: int) -> char {
    if d == 1 { '一' }
    else if d == 2 { '二' }
    else if d == 3 { '三' }
    else if d == 4 { '四' }
    else if d == 5 { '五' }
    else if d == 6 { '六' }
    else if d == 7 { '七' }
    else if d == 8 { '八' }
    else if d == 9 { '九' }
    else { '〇' }
}

/// The part of a numeral for one position: nothing for 0, the unit alone for 1
/// (`十`, not `一十`), else the digit and the unit.
pub open spec fn unit_part(d: int, unit: char) -> Seq<char> {
    if d == 0 {
        Seq::empty()
    } else if d == 1 {
        seq![unit]
    } else {
        seq![kanji_digit(d), unit]
    }
}

/// The last position of a numeral: nothing for 0, else its digit.
pub open spec fn ones_part(d: int) -> Seq<char> {
    if d == 0 { Seq::empty() } else { seq![kanji_digit(d)] }
}

/// The kanji numeral of the last four decimal positions of `n` (`〇` for zero):
/// 1234 is `千二百三十四`, 20 is `二十`, 11 is `十一`.
#[verifier::opaque]
pub open spec fn spec_kanji(n: nat) -> Seq<char> {
    if n == 0 {
        seq!['〇']
    } else {
        unit_part((n / 1000 % 10) as int, '千') + unit_part((n / 100 % 10) as int, '百')
            + unit_part((n / 10 % 10) as int, '十') + ones_part((n % 10) as int)
    }
}

/// The kanji of one digit, 0 to 9.
pub fn digit_kanji(d: u32) -> (c: char)
    requires
        d < 10,
    ensures
        c == kanji_digit(d as int),
{
    match d {
        1 => '一',
        2 => '二',
        3 => '三',
        4 => '四',
        5 => '五',
        6 => '六',
        7 => '七',
        8 => '八',
        9 => '九',
        _ => '〇',
    }
}

fn push_unit(s: &mut String, d: u32, unit: char)
    requires
        d < 10,
    ensures
        final(s)@ == old(s)@ + unit_part(d as int, unit),
{
    if d == 1 {
        push_char(s, unit);
    } else if d > 1 {
        push_char(s, digit_kanji(d));
        push_char(s, unit);
    }
}

/// A number as a kanji numeral, by its last four decimal positions (meant for 0 to 9999).
pub fn kanji(n: u32) -> (s: String)
    ensures
        s@ == spec_kanji(n as nat),
{
    reveal(spec_kanji);
    let mut s = String::new();
    if n == 0 {
        push_char(&mut s, '〇');
        return s;
    }
    push_unit(&mut s, n / 1000 % 10, '千');
    push_unit(&mut s, n / 100 % 10, '百');
    push_unit(&mut s, n / 10 % 10, '十');
    let d = n % 10;
    if d > 0 {
        push_char(&mut s, digit_kanji(d));
    }
    s
}

/// The value of a kanji digit `〇`–`九`, or 0 for any other character.
pub open spec fn kanji_value(c: char) -> int {
    if c == '一' { 1 }
    else if c == '二' { 2 }
    else if c == '三' { 3 }
    else if c == '四' { 4 }
    else if c == '五' { 5 }
    else if c == '六' { 6 }
    else if c == '七' { 7 }
    else if c == '八' { 8 }
    else if c == '九' { 9 }
    else { 0 }
}

/// The state `(total, pending digit)` after reading `s` as a numeral made of digits and `十`:
/// `十` adds ten times the pending digit (ten when there is none) and clears it;
/// any other character replaces the pending digit by its value (0 when it is no digit).
pub open spec fn from_kanji_state(s: Seq<char>) -> (int, int)
    decreases s.len(),
{
    if s.len() == 0 {
        (0, 0)
    } else {
        let (n, cur) = from_kanji_state(s.drop_last());
        let c = s.last();
        if c == '十' {
            (n + if cur == 0 { 10 } else { cur * 10 }, 0)
        } else {
            (n, kanji_value(c))
        }
    }
}

/// The value that `from_kanji` gives: the total plus the pending digit.
pub open spec fn spec_from_kanji(s: Seq<char>) -> int {
    from_kanji_state(s).0 + from_kanji_state(s).1
}

proof fn lemma_from_kanji_state_bounds(s: Seq<char>)
    ensures
        0 <= from_kanji_state(s).1 <= 9,
        0 <= from_kanji_state(s).0,
    decreases s.len(),
{
    if s.len() > 0 {
        lemma_from_kanji_state_bounds(s.drop_last());
    }
}

proof fn lemma_from_kanji_total_grows(s: Seq<char>, i: int)
    requires
        0 <= i <= s.len(),
    ensures
        from_kanji_state(s.take(i)).0 <= from_kanji_state(s).0,
    decreases s.len() - i,
{
    if i < s.len() {
        lemma_from_kanji_total_grows(s, i + 1);
        assert(s.take(i + 1).drop_last() == s.take(i));
        lemma_from_kanji_state_bounds(s.take(i));
    } else {
        assert(s.take(i) == s);
    }
}

/// A numeral of `n` characters has a value of at most `90 n + 9`.
pub proof fn lemma_from_kanji_bound(s: Seq<char>)
    ensures
        from_kanji_state(s).0 <= 90 * s.len(),
        spec_from_kanji(s) <= 90 * s.len() + 9,
    decreases s.len(),
{
    lemma_from_kanji_state_bounds(s);
    if s.len() > 0 {
        lemma_from_kanji_bound(s.drop_last());
        lemma_from_kanji_state_bounds(s.drop_last());
    }
}

/// The digit value of a kanji digit character, 0 when it is none.
fn kanji_digit_value(c: char) -> (v: u32)
    ensures
        v == kanji_value(c),
{
    if c == '一' { 1 }
    else if c == '二' { 2 }
    else if c == '三' { 3 }
    else if c == '四' { 4 }
    else if c == '五' { 5 }
    else if c == '六' { 6 }
    else if c == '七' { 7 }
    else if c == '八' { 8 }
    else if c == '九' { 9 }
    else { 0 }
}

/// Reads a small kanji numeral made of digits and `十` (`二十三` is 23, `十` is 10).
pub fn from_kanji(s: &str) -> (n: u32)
    requires
        spec_from_kanji(s@) <= u32::MAX,
    ensures
        n == spec_from_kanji(s@),
{
    let cs = crate::text::chars_of(s);
    let mut n: u32 = 0;
    let mut cur: u32 = 0;
    let mut i: usize = 0;
    proof {
        lemma_from_kanji_state_bounds(s@);
    }
    while i < cs.len()
        invariant
            i <= cs.len(),
            cs@ == s@,
            spec_from_kanji(s@) <= u32::MAX,
            (n as int, cur as int) == from_kanji_state(s@.take(i as int)),
        decreases cs.len() - i,
    {
        let c = cs[i];
        assert(s@.take(i + 1).drop_last() == s@.take(i as int));
        proof {
            lemma_from_kanji_total_grows(s@, i + 1);
            lemma_from_kanji_state_bounds(s@.take(i as int));
            lemma_from_kanji_state_bounds(s@);
        }
        if c == '十' {
            n = n + if cur == 0 { 10 } else { cur * 10 };
            cur = 0;
        } else {
            cur = kanji_digit_value(c);
        }
        i = i + 1;
    }
    assert(s@.take(cs.len() as int) == s@);
    n + cur
}

/// For 1 to 99, reading back the kanji numeral gives the number.
pub proof fn lemma_from_kanji_of_kanji(n: nat)
    requires
        1 <= n <= 99,
    ensures
        spec_from_kanji(spec_kanji(n)) == n,
{
    let t = n / 10;
    let o = n % 10;
    assert(n / 1000 % 10 == 0);
    assert(n / 100 % 10 == 0);
    assert(n / 10 % 10 == t);
    reveal_with_fuel(from_kanji_state, 4);
    reveal(spec_kanji);
    assert(kanji_value(kanji_digit(t as int)) == t && kanji_digit(t as int) != '十');
    assert(kanji_value(kanji_digit(o as int)) == o && kanji_digit(o as int) != '十');
    let s = spec_kanji(n);
    assert(s == unit_part(t as int, '十') + ones_part(o as int));
    if t == 0 {
        assert(s == seq![kanji_digit(o as int)]);
        assert(s.drop_last() =~= Seq::<char>::empty());
    } else if t == 1 {
        if o == 0 {
            assert(s =~= seq!['十']);
            assert(s.drop_last() =~= Seq::<char>::empty());
        } else {
            assert(s =~= seq!['十', kanji_digit(o as int)]);
            assert(s.drop_last() =~= seq!['十']);
            assert(s.drop_last().drop_last() =~= Seq::<char>::empty());
        }
    } else {
        if o == 0 {
            assert(s =~= seq![kanji_digit(t as int), '十']);
            assert(s.drop_last() =~= seq![kanji_digit(t as int)]);
            assert(s.drop_last().drop_last() =~= Seq::<char>::empty());
        } else {
            assert(s =~= seq![kanji_digit(t as int), '十', kanji_digit(o as int)]);
            assert(s.drop_last() =~= seq![kanji_digit(t as int), '十']);
            assert(s.drop_last().drop_last() =~= seq![kanji_digit(t as int)]);
            assert(s.drop_last().drop_last().drop_last() =~= Seq::<char>::empty());
        }
    }
}


/// An ASCII decimal digit `0`–`9`.
pub open spec fn is_ascii_digit(c: char) -> bool {
    '0' <= c <= '9'
}

/// A full-width decimal digit `０`–`９`.
pub open spec fn is_wide_digit(c: char) -> bool {
    '０' <= c <= '９'
}

/// The ASCII digit for 0 to 9.
pub open spec fn ascii_digit(d: int) -> char {
    if d == 1 { '1' }
    else if d == 2 { '2' }
    else if d == 3 { '3' }
    else if d == 4 { '4' }
    else if d == 5 { '5' }
    else if d == 6 { '6' }
    else if d == 7 { '7' }
    else if d == 8 { '8' }
    else if d == 9 { '9' }
    else { '0' }
}

/// The full-width digit for 0 to 9.
pub open spec fn wide_digit(d: int) -> char {
    if d == 1 { '１' }
    else if d == 2 { '２' }
    else if d == 3 { '３' }
    else if d == 4 { '４' }
    else if d == 5 { '５' }
    else if d == 6 { '６' }
    else if d == 7 { '７' }
    else if d == 8 { '８' }
    else if d == 9 { '９' }
    else { '０' }
}

/// The value of an ASCII digit.
pub open spec fn ascii_value(c: char) -> int {
    c as int - '0' as int
}

/// The value of a full-width digit.
pub open spec fn wide_value(c: char) -> int {
    c as int - '０' as int
}

pub fn ascii_digit_char(d: u32) -> (c: char)
    requires
        d < 10,
    ensures
        c == ascii_digit(d as int),
        is_ascii_digit(c),
        ascii_value(c) == d,
{
    match d {
        1 => '1',
        2 => '2',
        3 => '3',
        4 => '4',
        5 => '5',
        6 => '6',
        7 => '7',
        8 => '8',
        9 => '9',
        _ => '0',
    }
}

pub fn wide_digit_char(d: u32) -> (c: char)
    requires
        d < 10,
    ensures
        c == wide_digit(d as int),
        is_wide_digit(c),
        wide_value(c) == d,
{
    match d {
        1 => '１',
        2 => '２',
        3 => '３',
        4 => '４',
        5 => '５',
        6 => '６',
        7 => '７',
        8 => '８',
        9 => '９',
        _ => '０',
    }
}

/// A full-width digit made half-width; any other character unchanged.
pub open spec fn half_char(c: char) -> char {
    if is_wide_digit(c) { ascii_digit(wide_value(c)) } else { c }
}

/// All characters are ASCII digits.
pub open spec fn all_ascii_digits(s: Seq<char>) -> bool {
    forall|i: int| 0 <= i < s.len() ==> is_ascii_digit(#[trigger] s[i])
}

/// The decimal value of a sequence of ASCII digits.
pub open spec fn decimal_value(s: Seq<char>) -> int
    decreases s.len(),
{
    if s.len() == 0 {
        0
    } else {
        decimal_value(s.drop_last()) * 10 + ascii_value(s.last())
    }
}

/// What `u32`'s `from_str` accepts: an optional `+`, then one or more ASCII digits
/// whose value fits in `u32`.
pub open spec fn spec_parse_u32(h: Seq<char>) -> Option<u32> {
    let body = if h.len() > 0 && h[0] == '+' { h.drop_first() } else { h };
    if body.len() > 0 && all_ascii_digits(body) && decimal_value(body) <= u32::MAX {
        Some(decimal_value(body) as u32)
    } else {
        None
    }
}

/// The number written with half- or full-width digits (`３４` is 34).
pub open spec fn spec_digits(s: Seq<char>) -> Option<u32> {
    spec_parse_u32(halfwidth(s))
}

/// Full-width digits made half-width.
pub open spec fn halfwidth(s: Seq<char>) -> Seq<char> {
    s.map_values(|c: char| half_char(c))
}

pub proof fn lemma_decimal_value_nonneg(s: Seq<char>)
    requires
        all_ascii_digits(s),
    ensures
        0 <= decimal_value(s),
    decreases s.len(),
{
    if s.len() > 0 {
        assert(all_ascii_digits(s.drop_last())) by {
            assert forall|k: int| 0 <= k < s.drop_last().len() implies is_ascii_digit(#[trigger] s.drop_last()[k]) by {
                assert(s.drop_last()[k] == s[k]);
            }
        }
        lemma_decimal_value_nonneg(s.drop_last());
        assert(is_ascii_digit(s[s.len() - 1]));
    }
}

proof fn lemma_decimal_value_grows(s: Seq<char>, i: int)
    requires
        0 <= i <= s.len(),
        all_ascii_digits(s),
    ensures
        decimal_value(s.take(i)) <= decimal_value(s),
    decreases s.len() - i,
{
    if i < s.len() {
        lemma_decimal_value_grows(s, i + 1);
        assert(s.take(i + 1).drop_last() == s.take(i));
        assert(is_ascii_digit(s[i]));
        assert(all_ascii_digits(s.take(i))) by {
            assert forall|k: int| 0 <= k < s.take(i).len() implies is_ascii_digit(#[trigger] s.take(i)[k]) by {
                assert(s.take(i)[k] == s[k]);
            }
        }
        lemma_decimal_value_nonneg(s.take(i));
    } else {
        assert(s.take(i) == s);
    }
}

/// A field of one or more ASCII digits whose value fits in `u32`.
pub open spec fn is_u32_field(f: Seq<char>) -> bool {
    f.len() > 0 && all_ascii_digits(f) && decimal_value(f) <= u32::MAX
}

/// Reads one or more ASCII digits as a `u32`; `None` when a character is no digit,
/// the field is empty, or the value does not fit.
pub fn decimal_u32(f: &[char]) -> (r: Option<u32>)
    ensures
        r == (if is_u32_field(f@) { Some(decimal_value(f@) as u32) } else { None::<u32> }),
{
    if f.len() == 0 {
        return None;
    }
    let mut v: u64 = 0;
    let mut i: usize = 0;
    while i < f.len()
        invariant
            i <= f.len(),
            all_ascii_digits(f@.take(i as int)),
            v == decimal_value(f@.take(i as int)),
            v <= u32::MAX,
        decreases f.len() - i,
    {
        let c = f[i];
        if !(c >= '0' && c <= '9') {
            assert(!is_ascii_digit(f@[i as int]));
            return None;
        }
        let d = (c as u32) - ('0' as u32);
        assert(f@.take(i + 1).drop_last() == f@.take(i as int));
        assert(all_ascii_digits(f@.take(i + 1))) by {
            assert forall|k: int| 0 <= k < i + 1 implies is_ascii_digit(#[trigger] f@.take(i + 1)[k]) by {
                if k < i {
                    assert(f@.take(i + 1)[k] == f@.take(i as int)[k]);
                }
            }
        }
        v = v * 10 + d as u64;
        i = i + 1;
        if v > 0xffff_ffff {
            proof {
                if all_ascii_digits(f@) {
                    lemma_decimal_value_grows(f@, i as int);
                }
            }
            return None;
        }
    }
    assert(f@.take(f.len() as int) == f@);
    Some(v as u32)
}

/// Reads a decimal number written with half- or full-width digits; `None` when the text
/// is not such a number or the value does not fit in `u32`.
pub fn digits(s: &str) -> (r: Option<u32>)
    ensures
        r == spec_digits(s@),
{
    let cs = crate::text::chars_of(s);
    let mut h: Vec<char> = Vec::new();
    let mut i: usize = 0;
    while i < cs.len()
        invariant
            i <= cs.len(),
            cs@ == s@,
            h@ == halfwidth(s@).take(i as int),
        decreases cs.len() - i,
    {
        h.push(half_of(cs[i]));
        assert(halfwidth(s@).take(i + 1) == halfwidth(s@).take(i as int).push(half_char(s@[i as int])));
        i = i + 1;
    }
    assert(halfwidth(s@).take(cs.len() as int) == halfwidth(s@));
    if h.len() > 0 && h[0] == '+' {
        let body = crate::text::slice_from(&h, 1);
        assert(body@ == h@.drop_first());
        decimal_u32(&body)
    } else {
        decimal_u32(&h)
    }
}

/// A full-width digit made half-width; any other character unchanged.
pub fn half_of(c: char) -> (r: char)
    ensures
        r == half_char(c),
{
    if c >= '０' && c <= '９' {
        ascii_digit_char((c as u32) - ('０' as u32))
    } else {
        c
    }
}


/// The decimal numeral of `n` in ASCII digits, without leading zeros.
pub open spec fn spec_decimal(n: nat) -> Seq<char>
    decreases n,
{
    if n < 10 {
        seq![ascii_digit(n as int)]
    } else {
        spec_decimal(n / 10).push(ascii_digit((n % 10) as int))
    }
}

/// The decimal numeral is made of digits, is never empty, and reads back as the number.
pub proof fn lemma_decimal_roundtrip(n: nat)
    ensures
        all_ascii_digits(spec_decimal(n)),
        spec_decimal(n).len() > 0,
        decimal_value(spec_decimal(n)) == n,
    decreases n,
{
    assert(ascii_value(ascii_digit((n % 10) as int)) == n % 10);
    if n >= 10 {
        lemma_decimal_roundtrip(n / 10);
        let s = spec_decimal(n);
        assert(s.drop_last() == spec_decimal(n / 10));
        assert(decimal_value(s) == decimal_value(spec_decimal(n / 10)) * 10 + ascii_value(s.last()));
        assert(n == (n / 10) * 10 + n % 10);
        assert forall|k: int| 0 <= k < s.len() implies is_ascii_digit(#[trigger] s[k]) by {
            if k < s.len() - 1 {
                assert(s[k] == spec_decimal(n / 10)[k]);
            }
        }
    } else {
        assert(spec_decimal(n).drop_last() =~= Seq::<char>::empty());
        assert(decimal_value(Seq::<char>::empty()) == 0);
        assert(ascii_value(ascii_digit(n as int)) == n);
        assert(is_ascii_digit(ascii_digit(n as int)));
    }
}

/// Appends the decimal numeral of `n`.
pub fn push_decimal(s: &mut String, n: u64)
    ensures
        final(s)@ == old(s)@ + spec_decimal(n as nat),
    decreases n,
{
    if n < 10 {
        push_char(s, ascii_digit_char(n as u32));
    } else {
        push_decimal(s, n / 10);
        push_char(s, ascii_digit_char((n % 10) as u32));
    }
}


/// The kanji numeral of any number: groups of four positions joined by `億` and `万`
/// (`〇` for zero, 10001 is `一万一`).
#[verifier::opaque]
pub open spec fn spec_to_kanji(n: nat) -> Seq<char> {
    if n == 0 {
        seq!['〇']
    } else {
        let oku = n / 100000000;
        let man = n / 10000 % 10000;
        let one = n % 10000;
        (if oku > 0 { spec_kanji(oku) + seq!['億'] } else { Seq::empty() })
            + (if man > 0 { spec_kanji(man) + seq!['万'] } else { Seq::empty() })
            + (if one > 0 { spec_kanji(one) } else { Seq::empty() })
    }
}

/// Appends the kanji numeral of a number below 10000 (nothing for zero).
fn push_group(s: &mut String, n: u32)
    requires
        n < 10000,
    ensures
        final(s)@ == old(s)@ + (if n > 0 { spec_kanji(n as nat) } else { Seq::empty() }),
{
    if n > 0 {
        let k = kanji(n);
        crate::text::push_string(s, &k);
    }
}

/// A number as a kanji numeral (`百五十三`, `一万二千`).
pub fn to_kanji(n: u32) -> (s: String)
    ensures
        s@ == spec_to_kanji(n as nat),
{
    reveal(spec_to_kanji);
    reveal(spec_kanji);
    if n == 0 {
        return kanji(0);
    }
    let mut s = String::new();
    let oku = n / 100000000;
    let man = n / 10000 % 10000;
    let one = n % 10000;
    push_group(&mut s, oku);
    if oku > 0 {
        push_char(&mut s, '億');
    }
    push_group(&mut s, man);
    if man > 0 {
        push_char(&mut s, '万');
    }
    push_group(&mut s, one);
    s
}

} // verus!
