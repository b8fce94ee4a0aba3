//! Rewriting the amendment instructions of an ordinance in the style of statutes, line by line.

use vstd::prelude::*;
use crate::numeral::{digits, is_ascii_digit, is_wide_digit, kanji, spec_digits, spec_kanji};
use crate::reiki::{is_digit, kanji_outside_quotes, spec_kanji_outside_quotes};
use crate::text::{
    chars_end_with, chars_of, ends_with, has_at, lacks, push_char, push_str, push_string, starts_with,
    string_of,
};

verus! {

/// The end of the run of digits that starts at `i`.
pub open spec fn digit_run_end(t: Seq<char>, i: int) -> int
    decreases t.len() - i,
{
    if 0 <= i < t.len() && is_digit(t[i]) {
        digit_run_end(t, i + 1)
    } else {
        i
    }
}

pub proof fn lemma_digit_run_end(t: Seq<char>, i: int)
    requires
        0 <= i <= t.len(),
    ensures
        i <= digit_run_end(t, i) <= t.len(),
        forall|k: int| i <= k < digit_run_end(t, i) ==> is_digit(#[trigger] t[k]),
        digit_run_end(t, i) < t.len() ==> !is_digit(t[digit_run_end(t, i)]),
    decreases t.len() - i,
{
    if i < t.len() && is_digit(t[i]) {
        lemma_digit_run_end(t, i + 1);
    }
}

/// The end of the branch numbers (`の２の３`) that start at `i`: each is `の` and one or more digits.
pub open spec fn branches_end(t: Seq<char>, i: int) -> int
    decreases t.len() - i,
{
    if 0 <= i < t.len() && t[i] == 'の' && digit_run_end(t, i + 1) > i + 1 {
        proof {
            lemma_digit_run_end(t, i + 1);
        }
        branches_end(t, digit_run_end(t, i + 1))
    } else {
        i
    }
}

pub proof fn lemma_branches_end(t: Seq<char>, i: int)
    requires
        0 <= i <= t.len(),
    ensures
        i <= branches_end(t, i) <= t.len(),
    decreases t.len() - i,
{
    if i < t.len() && t[i] == 'の' && digit_run_end(t, i + 1) > i + 1 {
        lemma_digit_run_end(t, i + 1);
        lemma_branches_end(t, digit_run_end(t, i + 1));
    }
}

/// The end of `第Ｎ条` at the start of `t` (`Ｎ` one or more digits), or -1.
pub open spec fn article_word_end(t: Seq<char>) -> int {
    if t.len() > 0 && t[0] == '第' && digit_run_end(t, 1) > 1 && digit_run_end(t, 1) < t.len()
        && t[digit_run_end(t, 1)] == '条' {
        digit_run_end(t, 1) + 1
    } else {
        -1
    }
}

/// The end of `第Ｎ条` and its branch numbers (`第５条の２`) at the start of `t`, or -1.
pub open spec fn article_head_end(t: Seq<char>) -> int {
    let e = article_word_end(t);
    if e < 0 { -1 } else { branches_end(t, e) }
}

fn run_end(t: &Vec<char>, i: usize) -> (r: usize)
    requires
        i <= t.len(),
    ensures
        r == digit_run_end(t@, i as int),
{
    proof {
        lemma_digit_run_end(t@, i as int);
    }
    let mut k = i;
    while k < t.len() && ((t[k] >= '0' && t[k] <= '9') || (t[k] >= '０' && t[k] <= '９'))
        invariant
            i <= k <= t.len(),
            digit_run_end(t@, k as int) == digit_run_end(t@, i as int),
        decreases t.len() - k,
    {
        k = k + 1;
    }
    k
}

fn branch_end(t: &Vec<char>, i: usize) -> (r: usize)
    requires
        i <= t.len(),
    ensures
        r == branches_end(t@, i as int),
{
    let mut k = i;
    proof {
        lemma_branches_end(t@, i as int);
    }
    while k < t.len() && t[k] == 'の' && run_end(t, k + 1) > k + 1
        invariant
            i <= k <= t.len(),
            branches_end(t@, k as int) == branches_end(t@, i as int),
        decreases t.len() - k,
    {
        proof {
            lemma_digit_run_end(t@, k + 1);
        }
        k = run_end(t, k + 1);
    }
    k
}

fn article_word(t: &Vec<char>) -> (r: Option<usize>)
    ensures
        match r {
            Some(e) => article_word_end(t@) == e as int,
            None => article_word_end(t@) == -1,
        },
{
    if t.len() > 0 && t[0] == '第' {
        let d = run_end(t, 1);
        if d > 1 && d < t.len() && t[d] == '条' {
            return Some(d + 1);
        }
    }
    None
}

fn article_head(t: &Vec<char>) -> (r: Option<usize>)
    ensures
        match r {
            Some(e) => article_head_end(t@) == e as int && e <= t.len(),
            None => article_head_end(t@) == -1,
        },
{
    match article_word(t) {
        Some(e) => {
            proof {
                lemma_digit_run_end(t@, 1);
                lemma_branches_end(t@, e as int);
            }
            Some(branch_end(t, e))
        },
        None => None,
    }
}

/// The verbs with which an instruction ends: `改める。`, `加える。`, `削る。`, `とする。`,
/// `付する。`, `繰り上げる。`, `繰り下げる。`, `移す。`, `置く。`.
pub open spec fn ends_like_instruction(t: Seq<char>) -> bool {
    ||| ends_with(t, "改める。"@)
    ||| ends_with(t, "加える。"@)
    ||| ends_with(t, "削る。"@)
    ||| ends_with(t, "とする。"@)
    ||| ends_with(t, "付する。"@)
    ||| ends_with(t, "繰り上げる。"@)
    ||| ends_with(t, "繰り下げる。"@)
    ||| ends_with(t, "移す。"@)
    ||| ends_with(t, "置く。"@)
}

/// The positions with which an instruction begins: `第` and a digit, `同`, `附則`, `付則`,
/// `別表`, `別記`, `様式`, `目次`, `題名`, `本則`, `前文`, `次に`, `表`, `備考`.
pub open spec fn starts_like_instruction(t: Seq<char>) -> bool {
    ||| t.len() >= 2 && t[0] == '第' && is_digit(t[1])
    ||| starts_with(t, "同"@)
    ||| starts_with(t, "附則"@)
    ||| starts_with(t, "付則"@)
    ||| starts_with(t, "別表"@)
    ||| starts_with(t, "別記"@)
    ||| starts_with(t, "様式"@)
    ||| starts_with(t, "目次"@)
    ||| starts_with(t, "題名"@)
    ||| starts_with(t, "本則"@)
    ||| starts_with(t, "前文"@)
    ||| starts_with(t, "次に"@)
    ||| starts_with(t, "表"@)
    ||| starts_with(t, "備考"@)
}

/// A line that states an article to add (`第２０条の３　…`) rather than an instruction.
pub open spec fn is_article_line(t: Seq<char>) -> bool {
    let e = article_head_end(t);
    e >= 0 && e < t.len() && t[e] == '\u{3000}'
}

/// An amendment instruction: it ends as an instruction does and starts with a position,
/// and it is not an article being added (`第２０条の３　…とする。` is content).
pub open spec fn spec_is_instruction(t: Seq<char>) -> bool {
    ends_like_instruction(t) && starts_like_instruction(t) && !is_article_line(t)
}

/// Whether a line is an amendment instruction.
pub fn is_instruction(t: &Vec<char>) -> (r: bool)
    ensures
        r == spec_is_instruction(t@),
{
    let end = chars_end_with(t, "改める。") || chars_end_with(t, "加える。") || chars_end_with(t, "削る。")
        || chars_end_with(t, "とする。") || chars_end_with(t, "付する。") || chars_end_with(t, "繰り上げる。")
        || chars_end_with(t, "繰り下げる。") || chars_end_with(t, "移す。") || chars_end_with(t, "置く。");
    proof {
        assert(t@.skip(0) =~= t@);
    }
    let head = (t.len() >= 2 && t[0] == '第' && ((t[1] >= '0' && t[1] <= '9') || (t[1] >= '０' && t[1] <= '９')))
        || has_at(t, 0, "同") || has_at(t, 0, "附則") || has_at(t, 0, "付則") || has_at(t, 0, "別表")
        || has_at(t, 0, "別記") || has_at(t, 0, "様式") || has_at(t, 0, "目次") || has_at(t, 0, "題名")
        || has_at(t, 0, "本則") || has_at(t, 0, "前文") || has_at(t, 0, "次に") || has_at(t, 0, "表")
        || has_at(t, 0, "備考");
    let article_line = match article_head(t) {
        Some(e) => e < t.len() && t[e] == '\u{3000}',
        None => false,
    };
    end && head && !article_line
}


/// A line that starts with a position `第` and a digit, holds no ideographic space (so it
/// is no article being added), and ends with an instruction's verb (`改める。`, `加える。`,
/// `削る。`, `とする。`, `付する。`, `繰り上げる。`, `繰り下げる。`, `移す。` or `置く。`) is an
/// instruction; and an instruction always ends with one of these verbs.
pub proof fn law_instruction_lines(t: Seq<char>)
    ensures
        t.len() >= 2 && t[0] == '第' && ('0' <= t[1] <= '9' || '０' <= t[1] <= '９') && lacks(t, '\u{3000}') && (
        ends_with(t, "改める。"@) || ends_with(t, "加える。"@) || ends_with(t, "削る。"@) || ends_with(
            t,
            "とする。"@,
        ) || ends_with(t, "付する。"@) || ends_with(t, "繰り上げる。"@) || ends_with(t, "繰り下げる。"@)
            || ends_with(t, "移す。"@) || ends_with(t, "置く。"@)) ==> spec_is_instruction(t),
        spec_is_instruction(t) ==> (ends_with(t, "改める。"@) || ends_with(t, "加える。"@) || ends_with(
            t,
            "削る。"@,
        ) || ends_with(t, "とする。"@) || ends_with(t, "付する。"@) || ends_with(t, "繰り上げる。"@)
            || ends_with(t, "繰り下げる。"@) || ends_with(t, "移す。"@) || ends_with(t, "置く。"@)),
{
    if t.len() >= 2 && t[0] == '第' && ('0' <= t[1] <= '9' || '０' <= t[1] <= '９') && lacks(t, '\u{3000}') {
        assert(is_digit(t[1]));
        assert(!is_article_line(t)) by {
            let e = article_head_end(t);
            if e >= 0 && e < t.len() {
                assert(t[e] != '\u{3000}');
            }
        }
    }
}

/// In statute style a line after the preamble such as `第５条を第６条とする。` (a position `第`
/// and a digit first, no ideographic space, a verb of an instruction last) has its numbers
/// outside quotes written in kanji and `附則` for `付則`, and nothing else changes.
pub proof fn law_instruction_line_in_kanji(t: Seq<char>)
    requires
        t.len() >= 2,
        t[0] == '第',
        '0' <= t[1] <= '9' || '０' <= t[1] <= '９',
        lacks(t, '\u{3000}'),
        ends_with(t, "改める。"@) || ends_with(t, "加える。"@) || ends_with(t, "削る。"@) || ends_with(
            t,
            "とする。"@,
        ) || ends_with(t, "付する。"@) || ends_with(t, "繰り上げる。"@) || ends_with(t, "繰り下げる。"@)
            || ends_with(t, "移す。"@) || ends_with(t, "置く。"@),
    ensures
        law_line(false, t) == fusoku_to_fusoku(spec_kanji_outside_quotes(t)),
{
    law_instruction_lines(t);
    assert(lead_len(t) == 0);
    assert(t.skip(0) =~= t);
    reveal_strlit("改める。");
    reveal_strlit("加える。");
    reveal_strlit("削る。");
    reveal_strlit("とする。");
    reveal_strlit("付する。");
    reveal_strlit("繰り上げる。");
    reveal_strlit("繰り下げる。");
    reveal_strlit("移す。");
    reveal_strlit("置く。");
    assert(t.last() == '。') by {
        let n = t.len();
        if n >= 3 {
            assert(t.skip(n - 3)[2] == t[n - 1]);
        }
        if n >= 4 {
            assert(t.skip(n - 4)[3] == t[n - 1]);
        }
        if n >= 6 {
            assert(t.skip(n - 6)[5] == t[n - 1]);
        }
    }
    assert(trim_end(t) == t);
}

/// The end of `別表第Ｎ`, `様式第Ｎ` or `別記第Ｎ` and its branch numbers at the start of `t`, or -1.
pub open spec fn appdx_head_end(t: Seq<char>) -> int {
    if (starts_with(t, "別表"@) || starts_with(t, "様式"@) || starts_with(t, "別記"@)) && t.len() > 2
        && t[2] == '第' && digit_run_end(t, 3) > 3 {
        branches_end(t, digit_run_end(t, 3))
    } else {
        -1
    }
}

/// An item number at the start of a line: `(3)`, `（３）` or `⑶` (its number, `None` when the
/// digits do not fit), and the end of the number and of a space after it.
pub open spec fn item_head(t: Seq<char>) -> Option<(Option<u32>, int)> {
    let m = if t.len() > 0 && (t[0] == '(' || t[0] == '（') {
        let d = digit_run_end(t, 1);
        if d > 1 && d < t.len() && ((t[0] == '(' && t[d] == ')') || (t[0] == '（' && t[d] == '）')) {
            Some((spec_digits(t.subrange(1, d)), d + 1))
        } else {
            None
        }
    } else if t.len() > 0 && '⑴' <= t[0] <= '⒇' {
        Some((Some((t[0] as int - '⑴' as int + 1) as u32), 1int))
    } else {
        None
    };
    match m {
        Some((n, e)) => Some((n, if e < t.len() && t[e] == '\u{3000}' { e + 1 } else { e })),
        None => None,
    }
}

/// A line of the provisions being added, with its leading number in statute style: the
/// number of an appendix title (shorter than 60 characters) and of an article in kanji, an
/// item `(3)` or `⑶` as `三　`; other lines (paragraphs `２　` among them) as they are.
pub open spec fn spec_content_line(t: Seq<char>) -> Seq<char> {
    let a = appdx_head_end(t);
    let e = article_head_end(t);
    if a >= 0 && t.len() < 60 {
        spec_kanji_outside_quotes(t.take(a)) + t.skip(a)
    } else if e >= 0 && (e == t.len() || t[e] == '\u{3000}') {
        let m = if e < t.len() { e + 1 } else { e };
        spec_kanji_outside_quotes(t.take(m)) + t.skip(m)
    } else {
        match item_head(t) {
            Some((Some(n), m)) => spec_kanji(n as nat) + seq!['\u{3000}'] + t.skip(m),
            _ => t,
        }
    }
}

fn append_koq_and_rest(t: &Vec<char>, m: usize) -> (r: String)
    requires
        m <= t.len(),
    ensures
        r@ == spec_kanji_outside_quotes(t@.take(m as int)) + t@.skip(m as int),
{
    let head = string_of(crate::text::slice_to(t.as_slice(), m).as_slice());
    let mut r = kanji_outside_quotes(head.as_str());
    let rest = string_of(crate::text::slice_from(t.as_slice(), m).as_slice());
    push_string(&mut r, &rest);
    r
}

fn appdx_head(t: &Vec<char>) -> (r: Option<usize>)
    ensures
        match r {
            Some(e) => appdx_head_end(t@) == e as int && e <= t.len(),
            None => appdx_head_end(t@) == -1,
        },
{
    assert(t@.skip(0) =~= t@);
    if (has_at(t, 0, "別表") || has_at(t, 0, "様式") || has_at(t, 0, "別記")) && t.len() > 2 && t[2] == '第' {
        let d = run_end(t, 3);
        if d > 3 {
            proof {
                lemma_digit_run_end(t@, 3);
                lemma_branches_end(t@, d as int);
            }
            return Some(branch_end(t, d));
        }
    }
    None
}

/// A line of the provisions being added, with its leading number in statute style.
pub fn content_line(t: &Vec<char>) -> (r: String)
    ensures
        r@ == spec_content_line(t@),
{
    match appdx_head(t) {
        Some(a) => {
            if t.len() < 60 {
                return append_koq_and_rest(t, a);
            }
        },
        None => {},
    }
    match article_head(t) {
        Some(e) => {
            if e == t.len() {
                return append_koq_and_rest(t, e);
            } else if t[e] == '\u{3000}' {
                return append_koq_and_rest(t, e + 1);
            }
        },
        None => {},
    }
    let mut m: usize = 0;
    let mut n: Option<u32> = None;
    let mut found = false;
    if t.len() > 0 && (t[0] == '(' || t[0] == '（') {
        let d = run_end(t, 1);
        if d > 1 && d < t.len() && ((t[0] == '(' && t[d] == ')') || (t[0] == '（' && t[d] == '）')) {
            proof {
                lemma_digit_run_end(t@, 1);
            }
            let ds = string_of(crate::text::slice_range(t.as_slice(), 1, d).as_slice());
            n = digits(ds.as_str());
            m = d + 1;
            found = true;
        }
    } else if t.len() > 0 && t[0] >= '⑴' && t[0] <= '⒇' {
        n = Some((t[0] as u32) - ('⑴' as u32) + 1);
        m = 1;
        found = true;
    }
    if found {
        if m < t.len() && t[m] == '\u{3000}' {
            m = m + 1;
        }
        match n {
            Some(v) => {
                let mut r = kanji(v);
                push_char(&mut r, '\u{3000}');
                let rest = string_of(crate::text::slice_from(t.as_slice(), m).as_slice());
                push_string(&mut r, &rest);
                return r;
            },
            None => {},
        }
    }
    string_of(t.as_slice())
}


/// What `.+の一部を次のように改正する。` matches to the end of the line: at least one
/// character before the closing phrase, and no line break.
pub open spec fn header_rest(r: Seq<char>) -> bool {
    r.len() > "の一部を次のように改正する。"@.len() && ends_with(r, "の一部を次のように改正する。"@) && lacks(r, '\n')
}

/// The preamble of an amending ordinance, `[第Ｎ条[　]|Ｎ　]…の一部を次のように改正する。`:
/// the article of the amending ordinance when it is written `第Ｎ条`, and the rest. The
/// first of these readings that fits is taken: `第Ｎ条` and a space, `第Ｎ条` alone, a number
/// and a space, nothing.
pub open spec fn spec_header(t: Seq<char>) -> Option<(Option<Seq<char>>, Seq<char>)> {
    let w = article_word_end(t);
    let d = digit_run_end(t, 0);
    if w >= 0 && w < t.len() && t[w] == '\u{3000}' && header_rest(t.skip(w + 1)) {
        Some((Some(t.take(w)), t.skip(w + 1)))
    } else if w >= 0 && header_rest(t.skip(w)) {
        Some((Some(t.take(w)), t.skip(w)))
    } else if d > 0 && d < t.len() && t[d] == '\u{3000}' && header_rest(t.skip(d + 1)) {
        Some((None, t.skip(d + 1)))
    } else if header_rest(t) {
        Some((None, t))
    } else {
        None
    }
}

fn is_header_rest(t: &Vec<char>, from: usize) -> (r: bool)
    requires
        from <= t.len(),
    ensures
        r == header_rest(t@.skip(from as int)),
{
    let rest = crate::text::slice_from(t.as_slice(), from);
    assert(rest@ == t@.skip(from as int));
    let n = chars_of("の一部を次のように改正する。").len();
    if !(rest.len() > n && chars_end_with(&rest, "の一部を次のように改正する。")) {
        return false;
    }
    let mut i: usize = 0;
    while i < rest.len()
        invariant
            i <= rest.len(),
            rest@ == t@.skip(from as int),
            forall|k: int| 0 <= k < i ==> rest@[k] != '\n',
        decreases rest.len() - i,
    {
        if rest[i] == '\n' {
            assert(!lacks(rest@, '\n'));
            return false;
        }
        i = i + 1;
    }
    true
}

/// The preamble of an amending ordinance: the article it is written as, if any, and the rest.
fn header(t: &Vec<char>) -> (r: Option<(Option<Vec<char>>, Vec<char>)>)
    ensures
        match r {
            Some((a, rest)) => spec_header(t@) == Some((
                match a {
                    Some(x) => Some(x@),
                    None => None::<Seq<char>>,
                },
                rest@,
            )),
            None => spec_header(t@) is None,
        },
{
    proof {
        lemma_digit_run_end(t@, 0);
        if t@.len() >= 1 {
            lemma_digit_run_end(t@, 1);
        }
    }
    let w = article_word(t);
    let d = run_end(t, 0);
    match w {
        Some(w) => {
            if w < t.len() && t[w] == '\u{3000}' && is_header_rest(t, w + 1) {
                return Some((Some(crate::text::slice_to(t.as_slice(), w)), crate::text::slice_from(t.as_slice(), w + 1)));
            }
            if is_header_rest(t, w) {
                return Some((Some(crate::text::slice_to(t.as_slice(), w)), crate::text::slice_from(t.as_slice(), w)));
            }
        },
        None => {},
    }
    if d > 0 && d < t.len() && t[d] == '\u{3000}' && is_header_rest(t, d + 1) {
        return Some((None, crate::text::slice_from(t.as_slice(), d + 1)));
    }
    assert(t@.skip(0) =~= t@);
    if is_header_rest(t, 0) {
        return Some((None, crate::text::slice_from(t.as_slice(), 0)));
    }
    None
}

/// A white space character (Unicode `White_Space`, as `char::is_whitespace`).
pub open spec fn is_white_space(c: char) -> bool {
    ||| '\t' <= c <= '\r'
    ||| c == ' '
    ||| c == '\u{85}'
    ||| c == '\u{a0}'
    ||| c == '\u{1680}'
    ||| '\u{2000}' <= c <= '\u{200a}'
    ||| c == '\u{2028}'
    ||| c == '\u{2029}'
    ||| c == '\u{202f}'
    ||| c == '\u{205f}'
    ||| c == '\u{3000}'
}

pub(crate) fn white_space(c: char) -> (r: bool)
    ensures
        r == is_white_space(c),
{
    (c >= '\t' && c <= '\r') || c == ' ' || c == '\u{85}' || c == '\u{a0}' || c == '\u{1680}'
        || (c >= '\u{2000}' && c <= '\u{200a}') || c == '\u{2028}' || c == '\u{2029}' || c == '\u{202f}'
        || c == '\u{205f}' || c == '\u{3000}'
}

/// The number of leading ideographic and ASCII spaces.
pub open spec fn lead_len(s: Seq<char>) -> nat
    decreases s.len(),
{
    if s.len() > 0 && (s[0] == '\u{3000}' || s[0] == ' ') {
        1 + lead_len(s.drop_first())
    } else {
        0
    }
}

/// Trailing white space removed.
pub open spec fn trim_end(s: Seq<char>) -> Seq<char>
    decreases s.len(),
{
    if s.len() > 0 && is_white_space(s.last()) {
        trim_end(s.drop_last())
    } else {
        s
    }
}

/// A line without its indentation (ideographic and ASCII spaces) and trailing white space.
pub open spec fn trimmed(s: Seq<char>) -> Seq<char> {
    trim_end(s.skip(lead_len(s) as int))
}

proof fn lemma_lead_len(s: Seq<char>, i: int)
    requires
        0 <= i <= s.len(),
        forall|k: int| 0 <= k < i ==> s[k] == '\u{3000}' || s[k] == ' ',
    ensures
        lead_len(s) == i + lead_len(s.skip(i)),
    decreases i,
{
    if i > 0 {
        lemma_lead_len(s.drop_first(), i - 1);
        assert(s.drop_first().skip(i - 1) == s.skip(i));
    } else {
        assert(s.skip(0) == s);
    }
}

pub proof fn lemma_trim_end(s: Seq<char>, j: int)
    requires
        0 <= j <= s.len(),
        forall|k: int| j <= k < s.len() ==> is_white_space(s[k]),
    ensures
        trim_end(s) == trim_end(s.take(j)),
    decreases s.len() - j,
{
    if j < s.len() {
        assert(s.drop_last().take(j) == s.take(j));
        lemma_trim_end(s.drop_last(), j);
    } else {
        assert(s.take(j) == s);
    }
}

fn trim_line(s: &str) -> (r: Vec<char>)
    ensures
        r@ == trimmed(s@),
{
    let cs = chars_of(s);
    let mut i: usize = 0;
    while i < cs.len() && (cs[i] == '\u{3000}' || cs[i] == ' ')
        invariant
            i <= cs.len(),
            cs@ == s@,
            forall|k: int| 0 <= k < i ==> s@[k] == '\u{3000}' || s@[k] == ' ',
        decreases cs.len() - i,
    {
        i = i + 1;
    }
    proof {
        lemma_lead_len(s@, i as int);
        if i < cs.len() {
            assert(lead_len(s@.skip(i as int)) == 0);
        } else {
            assert(s@.skip(i as int).len() == 0);
        }
    }
    let rest = crate::text::slice_from(cs.as_slice(), i);
    let mut j: usize = rest.len();
    assert(rest@.take(j as int) == rest@);
    while j > 0 && white_space(rest[j - 1])
        invariant
            j <= rest.len(),
            forall|k: int| j <= k < rest.len() ==> is_white_space(rest@[k]),
            trim_end(rest@) == trim_end(rest@.take(j as int)),
        decreases j,
    {
        proof {
            lemma_trim_end(rest@, (j - 1) as int);
        }
        j = j - 1;
    }
    proof {
        assert(rest@.take(j as int) == rest@ ==> true);
        if j > 0 {
            assert(!is_white_space(rest@.take(j as int).last()));
        }
    }
    crate::text::slice_to(rest.as_slice(), j)
}

/// `付則` (spelling of some municipalities) made `附則`.
pub open spec fn fusoku_to_fusoku(s: Seq<char>) -> Seq<char> {
    Seq::new(s.len(), |i: int| if s[i] == '付' && i + 1 < s.len() && s[i + 1] == '則' { '附' } else { s[i] })
}

/// One line in statute style: the preamble (first line) with the article of the amending
/// ordinance (`第一条` when it has none); an instruction with kanji numerals outside quotes
/// and `附則` for `付則`; any other line as a line of the provisions being added.
pub open spec fn law_line(first: bool, raw: Seq<char>) -> Seq<char> {
    let t = trimmed(raw);
    if first && spec_header(t) is Some {
        let (art, rest) = spec_header(t).unwrap();
        (match art {
            Some(a) => spec_kanji_outside_quotes(a),
            None => "第一条"@,
        }) + seq!['\u{3000}'] + spec_kanji_outside_quotes(rest)
    } else if spec_is_instruction(t) {
        fusoku_to_fusoku(spec_kanji_outside_quotes(t))
    } else {
        spec_content_line(t)
    }
}

/// Lines joined by line breaks.
pub open spec fn join_lines(ls: Seq<Seq<char>>) -> Seq<char>
    decreases ls.len(),
{
    if ls.len() == 0 {
        Seq::empty()
    } else if ls.len() == 1 {
        ls[0]
    } else {
        join_lines(ls.drop_last()) + seq!['\n'] + ls.last()
    }
}

/// The statute-style text of an ordinance's instructions (preamble first, one line per paragraph).
pub open spec fn spec_to_law_style(lines: Seq<Seq<char>>) -> Seq<char> {
    join_lines(Seq::new(lines.len(), |i: int| law_line(i == 0, lines[i])))
}

fn replace_fusoku(s: &String) -> (r: String)
    ensures
        r@ == fusoku_to_fusoku(s@),
{
    let cs = chars_of(s.as_str());
    let mut r = String::new();
    let mut i: usize = 0;
    while i < cs.len()
        invariant
            i <= cs.len(),
            cs@ == s@,
            r@ == fusoku_to_fusoku(s@).take(i as int),
        decreases cs.len() - i,
    {
        let c = if cs[i] == '付' && i + 1 < cs.len() && cs[i + 1] == '則' { '附' } else { cs[i] };
        push_char(&mut r, c);
        assert(fusoku_to_fusoku(s@).take(i + 1) == fusoku_to_fusoku(s@).take(i as int).push(c));
        i = i + 1;
    }
    assert(fusoku_to_fusoku(s@).take(cs.len() as int) == fusoku_to_fusoku(s@));
    r
}

fn law_line_of(first: bool, raw: &str) -> (r: String)
    ensures
        r@ == law_line(first, raw@),
{
    let t = trim_line(raw);
    if first {
        match header(&t) {
            Some((art, rest)) => {
                let mut out = match art {
                    Some(a) => kanji_outside_quotes(string_of(a.as_slice()).as_str()),
                    None => {
                        let mut x = String::new();
                        push_str(&mut x, "第一条");
                        x
                    },
                };
                push_char(&mut out, '\u{3000}');
                let k = kanji_outside_quotes(string_of(rest.as_slice()).as_str());
                push_string(&mut out, &k);
                return out;
            },
            None => {},
        }
    }
    if is_instruction(&t) {
        let k = kanji_outside_quotes(string_of(t.as_slice()).as_str());
        replace_fusoku(&k)
    } else {
        content_line(&t)
    }
}

/// Rewrites the instructions of an ordinance (from the preamble, one line per paragraph) in
/// the style of statutes, so that the statute instruction reader can read them.
pub fn to_law_style(lines: &[&str]) -> (r: String)
    ensures
        r@ == spec_to_law_style(lines@.map_values(|l: &str| l@)),
{
    let ghost ls = lines@.map_values(|l: &str| l@);
    let ghost all = Seq::new(ls.len(), |i: int| law_line(i == 0, ls[i]));
    let mut out = String::new();
    let mut i: usize = 0;
    while i < lines.len()
        invariant
            i <= lines.len(),
            ls == lines@.map_values(|l: &str| l@),
            all == Seq::new(ls.len(), |i: int| law_line(i == 0, ls[i])),
            out@ == join_lines(all.take(i as int)),
        decreases lines.len() - i,
    {
        let line = law_line_of(i == 0, lines[i]);
        assert(all.take(i + 1).drop_last() == all.take(i as int));
        assert(all.take(i + 1).last() == line@);
        if i > 0 {
            push_char(&mut out, '\n');
        } else {
            assert(all.take(i + 1) == seq![line@]);
        }
        push_string(&mut out, &line);
        i = i + 1;
    }
    assert(all.take(lines.len() as int) == all);
    out
}

} // verus!
