//! The lines of an amending law: what an instruction looks like, what added provisions look
//! like, the bare article lines (`第六条　削除`) that stand for an instruction, and the
//! normalization of the published text.

use vstd::prelude::*;
use crate::segments::is_num_kanji;
use crate::text::{chars_end_with, chars_of, ends_with, has_at, starts_with, string_of};

verus! {

/// The end of the run of kanji numerals that starts at `i`.
pub open spec fn n_run_end(t: Seq<char>, i: int) -> int
    decreases t.len() - i,
{
    if 0 <= i < t.len() && is_num_kanji(t[i]) {
        n_run_end(t, i + 1)
    } else {
        i
    }
}

pub proof fn lemma_n_run_end(t: Seq<char>, i: int)
    requires
        0 <= i <= t.len(),
    ensures
        i <= n_run_end(t, i) <= t.len(),
    decreases t.len() - i,
{
    if i < t.len() && is_num_kanji(t[i]) {
        lemma_n_run_end(t, i + 1);
    }
}

/// The end of the branch numbers (`の二の三`; with `kata`, also `ノ二`) that start at `i`.
pub open spec fn branches_end(t: Seq<char>, i: int, kata: bool) -> int
    decreases t.len() - i,
{
    if 0 <= i < t.len() && (t[i] == 'の' || (kata && t[i] == 'ノ')) && n_run_end(t, i + 1) > i + 1 {
        proof {
            lemma_n_run_end(t, i + 1);
        }
        branches_end(t, n_run_end(t, i + 1), kata)
    } else {
        i
    }
}

pub proof fn lemma_branches_end(t: Seq<char>, i: int, kata: bool)
    requires
        0 <= i <= t.len(),
    ensures
        i <= branches_end(t, i, kata) <= t.len(),
    decreases t.len() - i,
{
    if i < t.len() && (t[i] == 'の' || (kata && t[i] == 'ノ')) && n_run_end(t, i + 1) > i + 1 {
        lemma_n_run_end(t, i + 1);
        lemma_branches_end(t, n_run_end(t, i + 1), kata);
    }
}

/// The first `）` from `j` on, or -1.
pub open spec fn close_from(t: Seq<char>, j: int) -> int
    decreases t.len() - j,
{
    if j < 0 || j >= t.len() {
        -1
    } else if t[j] == '）' {
        j
    } else {
        close_from(t, j + 1)
    }
}

proof fn lemma_close_from(t: Seq<char>, j: int)
    requires
        0 <= j,
    ensures
        close_from(t, j) == -1 || (j <= close_from(t, j) < t.len() && t[close_from(t, j)] == '）'),
    decreases t.len() - j,
{
    if j < t.len() && t[j] != '）' {
        lemma_close_from(t, j + 1);
    }
}

/// After an optional caption in brackets (`（見出し）`) that starts at `i`.
pub open spec fn opt_paren_end(t: Seq<char>, i: int) -> int {
    if 0 <= i < t.len() && t[i] == '（' && close_from(t, i + 1) >= 0 {
        close_from(t, i + 1) + 1
    } else {
        i
    }
}

/// A space, full- or half-width.
pub open spec fn is_space(c: char) -> bool {
    c == '　' || c == ' '
}

/// A unit that has a number (`条`, `編`, `章`, `節`, `款`, `目`).
pub open spec fn is_numbered_unit(c: char) -> bool {
    c == '条' || c == '編' || c == '章' || c == '節' || c == '款' || c == '目'
}

/// The line starts as an added article or division does: `第N条`, `第N章`… with branch
/// numbers (with `kata`, also written `ノ`), an optional caption in brackets, and a space.
pub open spec fn article_line(t: Seq<char>, kata: bool) -> bool {
    let a = n_run_end(t, 1);
    let b = branches_end(t, a + 1, kata);
    let c = opt_paren_end(t, b);
    &&& t.len() > 0 && t[0] == '第'
    &&& a > 1 && a < t.len() && is_numbered_unit(t[a])
    &&& c < t.len() && is_space(t[c])
}

/// A character that the subject of a table place (`…表中`) cannot hold.
pub open spec fn table_head_char(c: char) -> bool {
    !(c == '「' || c == '」' || c == '、' || c == '。' || c == '第' || c == '同' || c == 'こ' || c == '　' || c == ' ')
}

/// `…表中` or `…表を` at `k` (from 1 to 40), every character before it allowed.
pub open spec fn table_head_from(t: Seq<char>, k: int) -> bool
    decreases 41 - k,
{
    if k < 1 || k > 40 || k + 1 >= t.len() || !table_head_char(t[k - 1]) {
        false
    } else if t[k] == '表' && (t[k + 1] == '中' || t[k + 1] == 'を') {
        true
    } else {
        table_head_from(t, k + 1)
    }
}

/// The line starts at a place of the amended law.
pub open spec fn instruction_head(t: Seq<char>) -> bool {
    ||| t.len() >= 2 && t[0] == '第' && is_num_kanji(t[1])
    ||| t.len() >= 2 && t[0] == '同' && (t[1] == '条' || t[1] == '項' || t[1] == '号' || t[1] == '章' || t[1] == '節'
        || t[1] == '款' || t[1] == '編' || t[1] == '表')
    ||| starts_with(t, "附則"@) || starts_with(t, "目次"@) || starts_with(t, "別表"@) || starts_with(t, "題名"@)
        || starts_with(t, "本則"@) || starts_with(t, "「"@) || starts_with(t, "前条"@) || starts_with(t, "次条"@)
        || starts_with(t, "章名"@) || starts_with(t, "節名"@) || starts_with(t, "この法律に"@) || starts_with(t, "備考を"@)
        || starts_with(t, "備考中"@) || starts_with(t, "目録"@)
    ||| table_head_from(t, 1)
}

/// The line ends with the verb of an instruction and a full stop.
pub open spec fn instruction_end(t: Seq<char>) -> bool {
    ||| ends_with(t, "改める。"@) || ends_with(t, "加える。"@) || ends_with(t, "削る。"@) || ends_with(t, "とする。"@)
    ||| ends_with(t, "付する。"@) || ends_with(t, "附する。"@) || ends_with(t, "繰り下げる。"@) || ends_with(t, "繰り上げる。"@)
    ||| ends_with(t, "繰下げる。"@) || ends_with(t, "繰上げる。"@) || ends_with(t, "掲げる。"@) || ends_with(t, "移す。"@)
    ||| ends_with(t, "移る。"@)
}

/// The text outside `「」` (an unmatched `」` is dropped) after the first `n` characters,
/// and the depth of `「」`.
pub open spec fn unquoted_state(t: Seq<char>, n: int) -> (Seq<char>, int)
    decreases n,
{
    if n <= 0 {
        (Seq::empty(), 0)
    } else {
        let (plain, depth) = unquoted_state(t, n - 1);
        let c = t[n - 1];
        if c == '「' {
            (plain, depth + 1)
        } else if c == '」' {
            (plain, if depth > 0 { depth - 1 } else { 0 })
        } else if depth == 0 {
            (plain.push(c), depth)
        } else {
            (plain, depth)
        }
    }
}

/// `は、` stands outside the phrases: the line is a sentence with a subject (a provision).
pub open spec fn has_subject(t: Seq<char>) -> bool {
    let plain = unquoted_state(t, t.len() as int).0;
    exists|i: int| 0 <= i && i + 1 < plain.len() && plain[i] == 'は' && #[trigger] plain[i + 1] == '、'
}

/// Whether a line (of a page without indentation) is an instruction rather than added
/// provisions: it starts at a place, ends with the verb of an instruction, is no article
/// line, and has no subject outside its phrases.
pub open spec fn spec_looks_like_instruction(t: Seq<char>) -> bool {
    &&& ends_with(t, "。"@)
    &&& instruction_head(t)
    &&& !article_line(t, false)
    &&& instruction_end(t)
    &&& !has_subject(t)
}

fn is_num_kanji_char(c: char) -> (r: bool)
    ensures
        r == is_num_kanji(c),
{
    c == '一' || c == '二' || c == '三' || c == '四' || c == '五' || c == '六' || c == '七' || c == '八'
        || c == '九' || c == '十' || c == '百' || c == '千'
}

fn n_run_end_at(t: &Vec<char>, i: usize) -> (r: usize)
    requires
        i <= t.len(),
    ensures
        r == n_run_end(t@, i as int),
        i <= r <= t.len(),
{
    proof {
        lemma_n_run_end(t@, i as int);
    }
    let mut k = i;
    while k < t.len() && is_num_kanji_char(t[k])
        invariant
            i <= k <= t.len(),
            n_run_end(t@, k as int) == n_run_end(t@, i as int),
        decreases t.len() - k,
    {
        k = k + 1;
    }
    k
}

fn branches_end_at(t: &Vec<char>, i: usize, kata: bool) -> (r: usize)
    requires
        i <= t.len(),
    ensures
        r == branches_end(t@, i as int, kata),
        i <= r <= t.len(),
{
    proof {
        lemma_branches_end(t@, i as int, kata);
    }
    let mut k = i;
    while k < t.len() && (t[k] == 'の' || (kata && t[k] == 'ノ')) && n_run_end_at(t, k + 1) > k + 1
        invariant
            i <= k <= t.len(),
            branches_end(t@, k as int, kata) == branches_end(t@, i as int, kata),
        decreases t.len() - k,
    {
        k = n_run_end_at(t, k + 1);
    }
    k
}

fn opt_paren_end_at(t: &Vec<char>, i: usize) -> (r: usize)
    requires
        i <= t.len(),
    ensures
        r == opt_paren_end(t@, i as int),
        i <= r <= t.len(),
{
    if i < t.len() && t[i] == '（' {
        let mut k = i + 1;
        while k < t.len() && t[k] != '）'
            invariant
                i + 1 <= k <= t.len(),
                close_from(t@, k as int) == close_from(t@, i + 1),
            decreases t.len() - k,
        {
            k = k + 1;
        }
        if k < t.len() {
            return k + 1;
        }
        assert(close_from(t@, k as int) == -1);
    }
    i
}

fn article_line_of(t: &Vec<char>, kata: bool) -> (r: bool)
    ensures
        r == article_line(t@, kata),
{
    if t.len() == 0 || t[0] != '第' {
        return false;
    }
    let a = n_run_end_at(t, 1);
    if !(a > 1 && a < t.len() && (t[a] == '条' || t[a] == '編' || t[a] == '章' || t[a] == '節' || t[a] == '款' || t[a] == '目')) {
        return false;
    }
    let b = branches_end_at(t, a + 1, kata);
    let c = opt_paren_end_at(t, b);
    c < t.len() && (t[c] == '　' || t[c] == ' ')
}

fn table_head_of(t: &Vec<char>) -> (r: bool)
    ensures
        r == table_head_from(t@, 1),
{
    let mut k: usize = 1;
    while k <= 40
        invariant
            1 <= k <= 41,
            table_head_from(t@, k as int) == table_head_from(t@, 1),
        decreases 41 - k,
    {
        if k + 1 >= t.len() {
            return false;
        }
        let c = t[k - 1];
        if c == '「' || c == '」' || c == '、' || c == '。' || c == '第' || c == '同' || c == 'こ' || c == '　' || c == ' ' {
            return false;
        }
        if t[k] == '表' && (t[k + 1] == '中' || t[k + 1] == 'を') {
            return true;
        }
        k = k + 1;
    }
    false
}

fn instruction_head_of(t: &Vec<char>) -> (r: bool)
    ensures
        r == instruction_head(t@),
{
    let g = t.as_slice();
    assert(t@.skip(0) == t@);
    if t.len() >= 2 && t[0] == '第' && is_num_kanji_char(t[1]) {
        return true;
    }
    if t.len() >= 2 && t[0] == '同' && (t[1] == '条' || t[1] == '項' || t[1] == '号' || t[1] == '章' || t[1] == '節'
        || t[1] == '款' || t[1] == '編' || t[1] == '表') {
        return true;
    }
    if has_at(g, 0, "附則") || has_at(g, 0, "目次") || has_at(g, 0, "別表") || has_at(g, 0, "題名") || has_at(g, 0, "本則")
        || has_at(g, 0, "「") || has_at(g, 0, "前条") || has_at(g, 0, "次条") || has_at(g, 0, "章名") || has_at(g, 0, "節名")
        || has_at(g, 0, "この法律に") || has_at(g, 0, "備考を") || has_at(g, 0, "備考中") || has_at(g, 0, "目録") {
        return true;
    }
    table_head_of(t)
}

fn instruction_end_of(t: &Vec<char>) -> (r: bool)
    ensures
        r == instruction_end(t@),
{
    let g = t.as_slice();
    chars_end_with(g, "改める。") || chars_end_with(g, "加える。") || chars_end_with(g, "削る。") || chars_end_with(g, "とする。")
        || chars_end_with(g, "付する。") || chars_end_with(g, "附する。") || chars_end_with(g, "繰り下げる。")
        || chars_end_with(g, "繰り上げる。") || chars_end_with(g, "繰下げる。") || chars_end_with(g, "繰上げる。")
        || chars_end_with(g, "掲げる。") || chars_end_with(g, "移す。") || chars_end_with(g, "移る。")
}

fn has_subject_of(t: &Vec<char>) -> (r: bool)
    ensures
        r == has_subject(t@),
{
    let mut plain: Vec<char> = Vec::new();
    let mut depth: usize = 0;
    let mut i: usize = 0;
    while i < t.len()
        invariant
            i <= t.len(),
            depth <= i,
            (plain@, depth as int) == unquoted_state(t@, i as int),
        decreases t.len() - i,
    {
        let c = t[i];
        if c == '「' {
            depth = depth + 1;
        } else if c == '」' {
            if depth > 0 {
                depth = depth - 1;
            }
        } else if depth == 0 {
            plain.push(c);
        }
        i = i + 1;
    }
    let ghost pv = plain@;
    assert(pv == unquoted_state(t@, t@.len() as int).0);
    let mut j: usize = 0;
    while plain.len() > 1 && j < plain.len() - 1
        invariant
            pv == plain@,
            pv == unquoted_state(t@, t@.len() as int).0,
            j <= plain.len(),
            forall|k: int| 0 <= k < j && k + 1 < pv.len() ==> !(pv[k] == 'は' && #[trigger] pv[k + 1] == '、'),
        decreases plain.len() - j,
    {
        if plain[j] == 'は' && plain[j + 1] == '、' {
            assert(pv[j as int] == 'は' && pv[j + 1] == '、');
            return true;
        }
        j = j + 1;
    }
    assert(!has_subject(t@)) by {
        if has_subject(t@) {
            let k = choose|k: int| 0 <= k && k + 1 < pv.len() && pv[k] == 'は' && #[trigger] pv[k + 1] == '、';
            assert(k < j || k + 1 >= plain.len());
        }
    }
    false
}

/// Whether a line (of a page without indentation) is an instruction rather than added
/// provisions (see [`spec_looks_like_instruction`]).
pub fn looks_like_instruction(line: &str) -> (r: bool)
    ensures
        r == spec_looks_like_instruction(line@),
{
    let t = chars_of(line);
    chars_end_with(t.as_slice(), "。") && instruction_head_of(&t) && !article_line_of(&t, false) && instruction_end_of(&t)
        && !has_subject_of(&t)
}

/// A decimal digit, half- or full-width.
pub open spec fn is_any_digit(c: char) -> bool {
    ('0' <= c <= '9') || ('０' <= c <= '９')
}

/// A character of a bracketed item number: a digit or `一`–`十`.
pub open spec fn is_item_num(c: char) -> bool {
    is_any_digit(c) || c == '一' || c == '二' || c == '三' || c == '四' || c == '五' || c == '六' || c == '七'
        || c == '八' || c == '九' || c == '十'
}

/// The end of the run of characters with `f` that starts at `i`.
pub open spec fn run_end(t: Seq<char>, i: int, f: spec_fn(char) -> bool) -> int
    decreases t.len() - i,
{
    if 0 <= i < t.len() && f(t[i]) {
        run_end(t, i + 1, f)
    } else {
        i
    }
}

pub proof fn lemma_run_end(t: Seq<char>, i: int, f: spec_fn(char) -> bool)
    requires
        0 <= i <= t.len(),
    ensures
        i <= run_end(t, i, f) <= t.len(),
    decreases t.len() - i,
{
    if i < t.len() && f(t[i]) {
        lemma_run_end(t, i + 1, f);
    }
}

/// Whether a line starts as added provisions do: an article or division (`第五十六条　`,
/// branch numbers also with `ノ`), a paragraph (`２　`), an item (`一　`), remarks (`備考　`),
/// or a bracketed item number (`（３）`).
pub open spec fn spec_starts_like_content(t: Seq<char>) -> bool {
    let d = run_end(t, 0, |c: char| is_any_digit(c));
    let n = n_run_end(t, 0);
    let m = run_end(t, 1, |c: char| is_item_num(c));
    ||| article_line(t, true)
    ||| d > 0 && d < t.len() && is_space(t[d])
    ||| n > 0 && n < t.len() && is_space(t[n])
    ||| t.len() >= 3 && t[0] == '備' && t[1] == '考' && is_space(t[2])
    ||| t.len() > 0 && (t[0] == '（' || t[0] == '(') && m > 1 && m < t.len() && (t[m] == '）' || t[m] == ')')
}

fn run_end_digits(t: &Vec<char>, i: usize) -> (r: usize)
    requires
        i <= t.len(),
    ensures
        r == run_end(t@, i as int, |c: char| is_any_digit(c)),
        i <= r <= t.len(),
{
    proof {
        lemma_run_end(t@, i as int, |c: char| is_any_digit(c));
    }
    let mut k = i;
    while k < t.len() && ((t[k] >= '0' && t[k] <= '9') || (t[k] >= '０' && t[k] <= '９'))
        invariant
            i <= k <= t.len(),
            run_end(t@, k as int, |c: char| is_any_digit(c)) == run_end(t@, i as int, |c: char| is_any_digit(c)),
        decreases t.len() - k,
    {
        k = k + 1;
    }
    k
}

fn run_end_item_nums(t: &Vec<char>, i: usize) -> (r: usize)
    requires
        i <= t.len(),
    ensures
        r == run_end(t@, i as int, |c: char| is_item_num(c)),
        i <= r <= t.len(),
{
    proof {
        lemma_run_end(t@, i as int, |c: char| is_item_num(c));
    }
    let mut k = i;
    while k < t.len() && ((t[k] >= '0' && t[k] <= '9') || (t[k] >= '０' && t[k] <= '９') || t[k] == '一' || t[k] == '二'
        || t[k] == '三' || t[k] == '四' || t[k] == '五' || t[k] == '六' || t[k] == '七' || t[k] == '八' || t[k] == '九'
        || t[k] == '十')
        invariant
            i <= k <= t.len(),
            run_end(t@, k as int, |c: char| is_item_num(c)) == run_end(t@, i as int, |c: char| is_item_num(c)),
        decreases t.len() - k,
    {
        k = k + 1;
    }
    k
}

/// Whether a line starts as added provisions do (see [`spec_starts_like_content`]).
pub fn starts_like_content(line: &str) -> (r: bool)
    ensures
        r == spec_starts_like_content(line@),
{
    let t = chars_of(line);
    if article_line_of(&t, true) {
        return true;
    }
    let d = run_end_digits(&t, 0);
    if d > 0 && d < t.len() && (t[d] == '　' || t[d] == ' ') {
        return true;
    }
    let n = n_run_end_at(&t, 0);
    if n > 0 && n < t.len() && (t[n] == '　' || t[n] == ' ') {
        return true;
    }
    if t.len() >= 3 && t[0] == '備' && t[1] == '考' && (t[2] == '　' || t[2] == ' ') {
        return true;
    }
    if t.len() > 0 && (t[0] == '（' || t[0] == '(') {
        let m = run_end_item_nums(&t, 1);
        return m > 1 && m < t.len() && (t[m] == '）' || t[m] == ')');
    }
    false
}

/// The end of `第N条` (with branch numbers, also written `ノ`) at `i`, or -1.
pub open spec fn article_unit_end(t: Seq<char>, i: int) -> int {
    let a = n_run_end(t, i + 1);
    if 0 <= i < t.len() && t[i] == '第' && a > i + 1 && a < t.len() && t[a] == '条' {
        branches_end(t, a + 1, true)
    } else {
        -1
    }
}

/// The end of a separator of articles at `i` (`及び`, `及`, `、`, `乃至`, `から`), or -1.
pub open spec fn sep_end(t: Seq<char>, i: int) -> int {
    if i < 0 || i > t.len() {
        -1
    } else if starts_with(t.skip(i), "及び"@) {
        i + 2
    } else if starts_with(t.skip(i), "及"@) || starts_with(t.skip(i), "、"@) {
        i + 1
    } else if starts_with(t.skip(i), "乃至"@) || starts_with(t.skip(i), "から"@) {
        i + 2
    } else {
        -1
    }
}

pub proof fn lemma_article_unit_end(t: Seq<char>, i: int)
    ensures
        article_unit_end(t, i) == -1 || (i < article_unit_end(t, i) <= t.len()),
{
    if 0 <= i < t.len() {
        lemma_n_run_end(t, i + 1);
        let a = n_run_end(t, i + 1);
        if a > i + 1 && a < t.len() && t[a] == '条' {
            lemma_branches_end(t, a + 1, true);
        }
    }
}

/// The end of the list of articles (`、第十条`, `乃至第十二条`, `から第九条まで`…) that
/// continues at `i`.
pub open spec fn list_end(t: Seq<char>, i: int) -> int
    decreases t.len() - i,
{
    let s = sep_end(t, i);
    let u = article_unit_end(t, s);
    if 0 <= i && s > i && u >= 0 {
        proof {
            lemma_article_unit_end(t, s);
        }
        let v = if starts_with(t.skip(u), "まで"@) && u + 2 <= t.len() { u + 2 } else { u };
        list_end(t, v)
    } else {
        i
    }
}

/// The end of the articles of a bare article line (`第六条　削除`, `第七十三条乃至第七十六条　削除`,
/// `第十条ノ三及第十条ノ四（見出し）　削除`), or -1 when the line is none.
pub open spec fn bare_nums_end(t: Seq<char>) -> int {
    let f = article_unit_end(t, 0);
    let e = list_end(t, f);
    let c = opt_paren_end(t, e);
    if f >= 0 && c < t.len() && is_space(t[c]) {
        e
    } else {
        -1
    }
}

/// `ノ` written `の`.
pub open spec fn kata_no(x: Seq<char>) -> Seq<char> {
    x.map_values(|c: char| if c == 'ノ' { 'の' } else { c })
}

/// The first `乃至` from `j` on, or -1.
pub open spec fn first_naishi(x: Seq<char>, j: int) -> int
    decreases x.len() - j,
{
    if j < 0 || j + 1 >= x.len() {
        -1
    } else if x[j] == '乃' && x[j + 1] == '至' {
        j
    } else {
        first_naishi(x, j + 1)
    }
}

/// The first `A乃至B` written `AからBまで`.
pub open spec fn range_form(x: Seq<char>) -> Seq<char> {
    let i = first_naishi(x, 0);
    if i >= 0 {
        x.take(i) + "から"@ + x.skip(i + 2) + "まで"@
    } else {
        x
    }
}

/// `及` written `及び` (from `i` on).
pub open spec fn oyobi_from(x: Seq<char>, i: int) -> Seq<char>
    decreases x.len() - i,
{
    if i < 0 || i >= x.len() {
        Seq::empty()
    } else if x[i] == '及' {
        "及び"@ + oyobi_from(x, if i + 1 < x.len() && x[i + 1] == 'び' { i + 2 } else { i + 1 })
    } else {
        seq![x[i]] + oyobi_from(x, i + 1)
    }
}

/// The instruction that a bare article line stands for: `第N条を次のように改める。` with
/// the articles as they are written today (`の`, `から…まで`, `及び`); `None` when the line is
/// no bare article line.
pub open spec fn spec_bare_article_instruction(t: Seq<char>) -> Option<Seq<char>> {
    let e = bare_nums_end(t);
    if e < 0 {
        None
    } else {
        Some(oyobi_from(range_form(kata_no(t.take(e))), 0) + "を次のように改める。"@)
    }
}

fn article_unit_end_at(t: &Vec<char>, i: usize) -> (r: Option<usize>)
    requires
        i <= t.len(),
    ensures
        match r {
            Some(e) => e as int == article_unit_end(t@, i as int) && i < e <= t.len(),
            None => article_unit_end(t@, i as int) == -1,
        },
{
    proof {
        lemma_article_unit_end(t@, i as int);
    }
    if i < t.len() && t[i] == '第' {
        let a = n_run_end_at(t, i + 1);
        if a > i + 1 && a < t.len() && t[a] == '条' {
            return Some(branches_end_at(t, a + 1, true));
        }
    }
    None
}

fn sep_end_at(t: &Vec<char>, i: usize) -> (r: Option<usize>)
    requires
        i <= t.len(),
    ensures
        match r {
            Some(e) => e as int == sep_end(t@, i as int) && i < e <= t.len(),
            None => sep_end(t@, i as int) == -1,
        },
{
    proof {
        reveal_strlit("及び");
        reveal_strlit("及");
        reveal_strlit("、");
        reveal_strlit("乃至");
        reveal_strlit("から");
    }
    let g = t.as_slice();
    if has_at(g, i, "及び") {
        Some(i + 2)
    } else if has_at(g, i, "及") || has_at(g, i, "、") {
        Some(i + 1)
    } else if has_at(g, i, "乃至") || has_at(g, i, "から") {
        Some(i + 2)
    } else {
        None
    }
}

fn bare_nums_end_of(t: &Vec<char>) -> (r: Option<usize>)
    ensures
        match r {
            Some(e) => e as int == bare_nums_end(t@) && e <= t.len(),
            None => bare_nums_end(t@) == -1,
        },
{
    let f = match article_unit_end_at(t, 0) {
        Some(f) => f,
        None => {
            return None;
        },
    };
    let mut e = f;
    loop
        invariant
            f <= e <= t.len(),
            list_end(t@, e as int) == list_end(t@, f as int),
        ensures
            f <= e <= t.len(),
            list_end(t@, e as int) == list_end(t@, f as int),
            list_end(t@, e as int) == e as int,
        decreases t.len() - e,
    {
        match sep_end_at(t, e) {
            None => {
                assert(list_end(t@, e as int) == e as int);
                break;
            },
            Some(s) => match article_unit_end_at(t, s) {
                None => {
                    assert(list_end(t@, e as int) == e as int);
                    break;
                },
                Some(u) => {
                    proof {
                        reveal_strlit("まで");
                    }
                    if has_at(t.as_slice(), u, "まで") && u + 2 <= t.len() {
                        e = u + 2;
                    } else {
                        e = u;
                    }
                },
            },
        }
    }
    let c = opt_paren_end_at(t, e);
    if c < t.len() && (t[c] == '　' || t[c] == ' ') {
        Some(e)
    } else {
        None
    }
}

/// The instruction that a bare article line stands for (see
/// [`spec_bare_article_instruction`]).
pub fn bare_article_instruction(line: &str) -> (r: Option<String>)
    ensures
        match r {
            Some(x) => spec_bare_article_instruction(line@) == Some(x@),
            None => spec_bare_article_instruction(line@) is None,
        },
{
    let t = chars_of(line);
    let e = match bare_nums_end_of(&t) {
        Some(e) => e,
        None => {
            return None;
        },
    };
    let ghost nums = t@.take(e as int);
    // ノ becomes の
    let mut x: Vec<char> = Vec::new();
    let mut i: usize = 0;
    while i < e
        invariant
            i <= e <= t.len(),
            nums == t@.take(e as int),
            x@ == kata_no(nums).take(i as int),
        decreases e - i,
    {
        x.push(if t[i] == 'ノ' { 'の' } else { t[i] });
        assert(kata_no(nums).take(i + 1) == kata_no(nums).take(i as int).push(kata_no(nums)[i as int]));
        i = i + 1;
    }
    assert(kata_no(nums).take(e as int) == kata_no(nums));
    // the first 乃至 becomes から…まで
    let mut j: usize = 0;
    while x.len() > 1 && j < x.len() - 1 && !(x[j] == '乃' && x[j + 1] == '至')
        invariant
            j <= x.len(),
            first_naishi(x@, j as int) == first_naishi(x@, 0),
        decreases x.len() - j,
    {
        j = j + 1;
    }
    let y: Vec<char> = if x.len() > 1 && j < x.len() - 1 {
        let mut y = crate::text::slice_to(x.as_slice(), j);
        y.push('か');
        y.push('ら');
        let rest = crate::text::slice_from(x.as_slice(), j + 2);
        let mut k: usize = 0;
        let ghost y0 = y@;
        while k < rest.len()
            invariant
                k <= rest.len(),
                y@ == y0 + rest@.take(k as int),
            decreases rest.len() - k,
        {
            y.push(rest[k]);
            assert(rest@.take(k + 1) == rest@.take(k as int).push(rest@[k as int]));
            k = k + 1;
        }
        assert(rest@.take(rest.len() as int) == rest@);
        y.push('ま');
        y.push('で');
        proof {
            reveal_strlit("から");
            reveal_strlit("まで");
        }
        assert(y@ =~= x@.take(j as int) + "から"@ + x@.skip(j + 2) + "まで"@);
        y
    } else {
        assert(first_naishi(x@, j as int) == -1);
        x
    };
    assert(y@ == range_form(kata_no(nums)));
    // 及 becomes 及び
    let mut out = String::new();
    let mut k: usize = 0;
    while k < y.len()
        invariant
            k <= y.len(),
            out@ + oyobi_from(y@, k as int) == oyobi_from(y@, 0),
        decreases y.len() - k,
    {
        let ghost o0 = out@;
        if y[k] == '及' {
            crate::text::push_str(&mut out, "及び");
            if k + 1 < y.len() && y[k + 1] == 'び' {
                k = k + 2;
            } else {
                k = k + 1;
            }
        } else {
            crate::text::push_char(&mut out, y[k]);
            k = k + 1;
        }
    }
    assert(oyobi_from(y@, k as int) == Seq::<char>::empty());
    crate::text::push_str(&mut out, "を次のように改める。");
    Some(out)
}

/// A small hiragana to `ゖ` (the reading of a ruby).
pub open spec fn is_hira(c: char) -> bool {
    'ぁ' <= c <= 'ゖ'
}

/// The end of a ruby `(かな)` at `i`, or -1.
pub open spec fn ruby_end(t: Seq<char>, i: int) -> int {
    let h = run_end(t, i + 1, |c: char| is_hira(c));
    if 0 <= i < t.len() && t[i] == '(' && h > i + 1 && h < t.len() && t[h] == ')' {
        h + 1
    } else {
        -1
    }
}

/// The text from `i` on without its rubies.
pub open spec fn strip_ruby_from(t: Seq<char>, i: int) -> Seq<char>
    decreases t.len() - i,
{
    if i < 0 || i >= t.len() {
        Seq::empty()
    } else {
        let r = ruby_end(t, i);
        if r > i {
            strip_ruby_from(t, r)
        } else {
            seq![t[i]] + strip_ruby_from(t, i + 1)
        }
    }
}

/// The character as e-Gov writes it: `剥` is `剝`, and the half-width punctuation
/// `｡`, `､`, `｢`, `｣` is full-width.
pub open spec fn egov_char(c: char) -> char {
    if c == '剥' {
        '剝'
    } else if c == '｡' {
        '。'
    } else if c == '､' {
        '、'
    } else if c == '｢' {
        '「'
    } else if c == '｣' {
        '」'
    } else {
        c
    }
}

/// The text of an enacted law as e-Gov writes it: the rubies (`瑕(か)疵(し)`) dropped and
/// the characters Shift_JIS lacks restored.
pub open spec fn spec_normalize_source_text(s: Seq<char>) -> Seq<char> {
    strip_ruby_from(s, 0).map_values(|c: char| egov_char(c))
}

fn run_end_hira(t: &Vec<char>, i: usize) -> (r: usize)
    requires
        i <= t.len(),
    ensures
        r == run_end(t@, i as int, |c: char| is_hira(c)),
        i <= r <= t.len(),
{
    proof {
        lemma_run_end(t@, i as int, |c: char| is_hira(c));
    }
    let mut k = i;
    while k < t.len() && t[k] >= 'ぁ' && t[k] <= 'ゖ'
        invariant
            i <= k <= t.len(),
            run_end(t@, k as int, |c: char| is_hira(c)) == run_end(t@, i as int, |c: char| is_hira(c)),
        decreases t.len() - k,
    {
        k = k + 1;
    }
    k
}

/// Normalizes the text of an enacted law (see [`spec_normalize_source_text`]).
pub fn normalize_source_text(s: &str) -> (r: String)
    ensures
        r@ == spec_normalize_source_text(s@),
{
    let t = chars_of(s);
    let mut out = String::new();
    let mut i: usize = 0;
    while i < t.len()
        invariant
            i <= t.len(),
            t@ == s@,
            out@ + strip_ruby_from(t@, i as int).map_values(|c: char| egov_char(c)) == spec_normalize_source_text(s@),
        decreases t.len() - i,
    {
        let mut r: usize = 0;
        if t[i] == '(' {
            let h = run_end_hira(&t, i + 1);
            if h > i + 1 && h < t.len() && t[h] == ')' {
                r = h + 1;
            }
        }
        if r > 0 {
            i = r;
        } else {
            let c = t[i];
            let d = if c == '剥' {
                '剝'
            } else if c == '｡' {
                '。'
            } else if c == '､' {
                '、'
            } else if c == '｢' {
                '「'
            } else if c == '｣' {
                '」'
            } else {
                c
            };
            let ghost rest = strip_ruby_from(t@, i + 1);
            assert((seq![c] + rest).map_values(|c: char| egov_char(c)) =~= seq![d] + rest.map_values(
                |c: char| egov_char(c),
            ));
            crate::text::push_char(&mut out, d);
            i = i + 1;
        }
    }
    assert(strip_ruby_from(t@, i as int) == Seq::<char>::empty());
    assert(Seq::<char>::empty().map_values(|c: char| egov_char(c)) =~= Seq::<char>::empty());
    out
}

} // verus!
