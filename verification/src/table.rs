//! Where a table is, and the position within it, as an instruction names them
//! (`別表第四表名称の欄` is the table `別表第四表` and the position `名称の欄`; `同表中第十二号`
//! is the table before and `第十二号`; `第十三条第一項の表中A及びBの項` is the table of an
//! article and `A及びBの項`).

use vstd::prelude::*;
use crate::locs::{
    Ante, AnteModel, PlaceError, error_is, loc, spec_loc, zero_article, zero_article_exec,
};
use crate::op::{Loc, LocModel, TableRef, TableRefModel};
use crate::parse::{ParseError, kana_seq};
use crate::phrase::lemma_first_at;
use crate::place::{
    branch_end, branch_step, is_kana, is_numeral, lemma_branch_end, lemma_numeral_end, numeral_end,
    numeral_end_at,
};
use crate::text::{chars_of, has_at, push_str, starts_with, string_of};

verus! {

/// `c` without all the copies of `ch` it starts with.
pub open spec fn trim_start_all(c: Seq<char>, ch: char) -> Seq<char>
    decreases c.len(),
{
    if c.len() > 0 && c[0] == ch {
        trim_start_all(c.drop_first(), ch)
    } else {
        c
    }
}

/// `c` without all the copies of `ch` it ends with.
pub open spec fn trim_end_all(c: Seq<char>, ch: char) -> Seq<char>
    decreases c.len(),
{
    if c.len() > 0 && c.last() == ch {
        trim_end_all(c.drop_last(), ch)
    } else {
        c
    }
}

/// The position within a table as written after the table: without the `、`, `中` and `の`
/// it starts with and the `中` it ends with.
pub open spec fn path_of(r: Seq<char>) -> Seq<char> {
    trim_end_all(trim_start_all(trim_start_all(trim_start_all(r, '、'), '中'), 'の'), '中')
}

pub(crate) fn trim_start_chars(c: Vec<char>, ch: char) -> (r: Vec<char>)
    ensures
        r@ == trim_start_all(c@, ch),
{
    let mut i: usize = 0;
    assert(c@.skip(0) =~= c@);
    while i < c.len() && c[i] == ch
        invariant
            i <= c.len(),
            trim_start_all(c@, ch) == trim_start_all(c@.skip(i as int), ch),
        decreases c.len() - i,
    {
        assert(c@.skip(i as int).drop_first() =~= c@.skip(i + 1));
        i = i + 1;
    }
    crate::text::slice_from(c.as_slice(), i)
}

fn trim_end_chars(c: Vec<char>, ch: char) -> (r: Vec<char>)
    ensures
        r@ == trim_end_all(c@, ch),
{
    let mut n: usize = c.len();
    assert(c@.take(c.len() as int) =~= c@);
    while n > 0 && c[n - 1] == ch
        invariant
            n <= c.len(),
            trim_end_all(c@, ch) == trim_end_all(c@.take(n as int), ch),
        decreases n,
    {
        assert(c@.take(n as int).drop_last() =~= c@.take(n - 1));
        n = n - 1;
    }
    crate::text::slice_to(c.as_slice(), n)
}

/// The position as written after a table (see [`path_of`]).
pub fn path_of_exec(r: &Vec<char>) -> (p: String)
    ensures
        p@ == path_of(r@),
{
    let a = trim_start_chars(r.clone(), '、');
    let b = trim_start_chars(a, '中');
    let c = trim_start_chars(b, 'の');
    let d = trim_end_chars(c, '中');
    string_of(d.as_slice())
}

// ---------------------------------------------------------------------------------------
// The rows of an article that is a table (`第二条海の日の項`)

/// A character that cannot start the row after the article (`第`, `の`, `同`, `中`, `、`,
/// `「`, `」`).
pub open spec fn row_excluded(ch: char) -> bool {
    ch == '第' || ch == 'の' || ch == '同' || ch == '中' || ch == '、' || ch == '「' || ch == '」'
}

/// `「`, `」` or `、`.
pub open spec fn quote_or_comma(ch: char) -> bool {
    ch == '「' || ch == '」' || ch == '、'
}

/// From `k` on, `の項` comes before any `「`, `」` or `、`.
pub open spec fn row_scan(c: Seq<char>, k: int) -> bool
    decreases c.len() - k,
{
    if k < 0 || k >= c.len() {
        false
    } else if starts_with(c.skip(k), "の項"@) {
        true
    } else if quote_or_comma(c[k]) {
        false
    } else {
        row_scan(c, k + 1)
    }
}

/// A row (`海の日の項`) starts at `h`: a character that may start it, then `の項` before any
/// bracket or comma.
pub open spec fn row_at(c: Seq<char>, h: int) -> bool {
    0 <= h < c.len() && !row_excluded(c[h]) && row_scan(c, h + 1)
}

fn row_scan_exec(c: &Vec<char>, k: usize) -> (r: bool)
    requires
        k <= c.len(),
    ensures
        r == row_scan(c@, k as int),
{
    let mut j = k;
    while j < c.len()
        invariant
            k <= j <= c.len(),
            row_scan(c@, k as int) == row_scan(c@, j as int),
        decreases c.len() - j,
    {
        if has_at(c.as_slice(), j, "の項") {
            return true;
        }
        if c[j] == '「' || c[j] == '」' || c[j] == '、' {
            return false;
        }
        j = j + 1;
    }
    false
}

fn row_at_exec(c: &Vec<char>, h: usize) -> (r: bool)
    ensures
        r == row_at(c@, h as int),
{
    if h >= c.len() {
        return false;
    }
    let ch = c[h];
    if ch == '第' || ch == 'の' || ch == '同' || ch == '中' || ch == '、' || ch == '「' || ch == '」' {
        return false;
    }
    row_scan_exec(c, h + 1)
}

/// `hi`, `hi - 1`, ..., `lo`.
pub open spec fn down_from(hi: int, lo: int) -> Seq<int>
    decreases hi - lo + 1,
{
    if hi < lo {
        Seq::empty()
    } else {
        seq![hi] + down_from(hi - 1, lo)
    }
}

/// The positions where the branch numbers from `q` (`の二の三`) may end, in the order a
/// backtracking reader tries them: all the branches, each last number cut shorter, then
/// fewer branches.
pub open spec fn branch_ends(c: Seq<char>, q: int) -> Seq<int>
    decreases c.len() - q,
{
    if branch_step(c, q) {
        proof {
            lemma_numeral_end(c, q + 1);
        }
        let e = numeral_end(c, q + 1);
        branch_ends(c, e) + down_from(e - 1, q + 2) + seq![q]
    } else {
        seq![q]
    }
}

/// `第`, a numeral and `kind` (`条`, `項`) stand at `p`: the position after them, or `-1`.
pub open spec fn numbered_end(c: Seq<char>, p: int, kind: char) -> int {
    if 0 <= p < c.len() && c[p] == '第' && numeral_end(c, p + 1) > p + 1 && numeral_end(c, p + 1)
        < c.len() && c[numeral_end(c, p + 1)] == kind {
        numeral_end(c, p + 1) + 1
    } else {
        -1
    }
}

/// Where an article (`第十条の二`, or `同条`) that starts at `p` may end, in the order a
/// backtracking reader tries them; empty when none starts there.
pub open spec fn article_ends(c: Seq<char>, p: int) -> Seq<int> {
    let j = numbered_end(c, p, '条');
    if j >= 0 {
        branch_ends(c, j)
    } else if starts_with(c.skip(p), "同条"@) {
        seq![p + 2]
    } else {
        Seq::empty()
    }
}

/// Names a row of an article that is a table (`第二条海の日の項`), or a table of an
/// article, paragraph or item (`第十三条第一項の表`, `同項の表`; not `表以外の部分`).
pub open spec fn has_article_table(c: Seq<char>) -> bool {
    let ends = article_ends(c, 0);
    ||| exists|k: int| 0 <= k < ends.len() && row_at(c, #[trigger] ends[k])
    ||| exists|i: int| #[trigger] table_mention_at(c, i)
}

/// A character that may stand before `の表` of a table in an article: `条`, `項`, `号`, a
/// numeral or an iroha symbol.
pub open spec fn table_owner(ch: char) -> bool {
    ch == '条' || ch == '項' || ch == '号' || is_numeral(ch) || kana_seq().contains(ch)
}

/// `の表` at `i` names a table in an article.
pub open spec fn table_mention_at(c: Seq<char>, i: int) -> bool {
    &&& 0 < i < c.len()
    &&& starts_with(c.skip(i), "の表"@)
    &&& table_owner(c[i - 1])
    &&& !starts_with(c.skip(i + 2), "以外"@)
}

/// `hi`, `hi - 1`, ..., `lo`, appended to `v` (see [`down_from`]).
fn push_down_from(v: &mut Vec<usize>, hi: usize, lo: usize)
    requires
        lo >= 1,
        hi + 1 >= lo,
    ensures
        final(v)@.map_values(|x: usize| x as int) == old(v)@.map_values(|x: usize| x as int)
            + down_from(hi as int, lo as int),
{
    let mut k = hi;
    let ghost v0 = v@.map_values(|x: usize| x as int);
    while k >= lo
        invariant
            lo >= 1,
            k + 1 >= lo,
            k <= hi,
            v0 + down_from(hi as int, lo as int) == v@.map_values(|x: usize| x as int) + down_from(
                k as int,
                lo as int,
            ),
        decreases k,
    {
        let ghost before = v@.map_values(|x: usize| x as int);
        v.push(k);
        assert(v@.map_values(|x: usize| x as int) =~= before.push(k as int));
        assert(down_from(k as int, lo as int) == seq![k as int] + down_from(k - 1, lo as int));
        assert(v@.map_values(|x: usize| x as int) + down_from(k - 1, lo as int) =~= before + down_from(
            k as int,
            lo as int,
        ));
        k = k - 1;
    }
    assert(down_from(k as int, lo as int) =~= Seq::<int>::empty());
    assert(v@.map_values(|x: usize| x as int) + Seq::<int>::empty() =~= v@.map_values(
        |x: usize| x as int,
    ));
}

/// The positions where branch numbers from `q` may end (see [`branch_ends`]).
fn branch_ends_exec(c: &Vec<char>, q: usize) -> (r: Vec<usize>)
    requires
        q <= c.len(),
    ensures
        r@.map_values(|x: usize| x as int) == branch_ends(c@, q as int),
        forall|k: int| 0 <= k < r@.len() ==> #[trigger] r@[k] <= c.len(),
    decreases c.len() - q,
{
    if q < c.len() && c[q] == 'の' && numeral_end_at(c, q + 1) > q + 1 {
        let e = numeral_end_at(c, q + 1);
        proof {
            lemma_numeral_end(c@, q + 1);
        }
        let mut r = branch_ends_exec(c, e);
        push_down_from(&mut r, e - 1, q + 2);
        let ghost before = r@.map_values(|x: usize| x as int);
        r.push(q);
        assert(r@.map_values(|x: usize| x as int) =~= before.push(q as int));
        assert forall|k: int| 0 <= k < r@.len() implies #[trigger] r@[k] <= c.len() by {
            assert(r@.map_values(|x: usize| x as int)[k] == r@[k] as int);
            assert(r@[k] as int == branch_ends(c@, q as int)[k]);
            lemma_branch_ends_bound(c@, q as int);
        }
        r
    } else {
        vec![q]
    }
}

/// Every end lies between `q` and the end of the text.
proof fn lemma_branch_ends_bound(c: Seq<char>, q: int)
    requires
        0 <= q <= c.len(),
    ensures
        forall|k: int| 0 <= k < branch_ends(c, q).len() ==> q <= #[trigger] branch_ends(c, q)[k] <= c.len(),
    decreases c.len() - q,
{
    if branch_step(c, q) {
        lemma_numeral_end(c, q + 1);
        let e = numeral_end(c, q + 1);
        lemma_branch_ends_bound(c, e);
        lemma_down_from(e - 1, q + 2);
        let a = branch_ends(c, e);
        let b = down_from(e - 1, q + 2);
        assert forall|k: int| 0 <= k < branch_ends(c, q).len() implies q <= #[trigger] branch_ends(c, q)[k] <= c.len() by {
            if k < a.len() {
                assert(branch_ends(c, q)[k] == a[k]);
            } else if k < a.len() + b.len() {
                assert(branch_ends(c, q)[k] == b[k - a.len()]);
            }
        }
    }
}

proof fn lemma_down_from(hi: int, lo: int)
    ensures
        forall|k: int| 0 <= k < down_from(hi, lo).len() ==> lo <= #[trigger] down_from(hi, lo)[k] <= hi,
        down_from(hi, lo).len() == if hi < lo { 0 } else { hi - lo + 1 },
    decreases hi - lo + 1,
{
    if hi >= lo {
        lemma_down_from(hi - 1, lo);
        assert forall|k: int| 0 <= k < down_from(hi, lo).len() implies lo <= #[trigger] down_from(hi, lo)[k] <= hi by {
            if k > 0 {
                assert(down_from(hi, lo)[k] == down_from(hi - 1, lo)[k - 1]);
            }
        }
    }
}

/// `第`, a numeral and `kind` at `p` (see [`numbered_end`]).
fn numbered_end_exec(c: &Vec<char>, p: usize, kind: char) -> (r: Option<usize>)
    ensures
        match r {
            Some(j) => numbered_end(c@, p as int, kind) == j as int && j <= c.len(),
            None => numbered_end(c@, p as int, kind) == -1,
        },
{
    if p < c.len() && c[p] == '第' {
        let e = numeral_end_at(c, p + 1);
        if e > p + 1 && e < c.len() && c[e] == kind {
            return Some(e + 1);
        }
    }
    None
}

/// Where an article that starts at `p` may end (see [`article_ends`]).
fn article_ends_exec(c: &Vec<char>, p: usize) -> (r: Vec<usize>)
    requires
        p <= c.len(),
    ensures
        r@.map_values(|x: usize| x as int) == article_ends(c@, p as int),
        forall|k: int| 0 <= k < r@.len() ==> #[trigger] r@[k] <= c.len(),
{
    match numbered_end_exec(c, p, '条') {
        Some(j) => branch_ends_exec(c, j),
        None => {
            if has_at(c.as_slice(), p, "同条") {
                proof {
                    reveal_strlit("同条");
                }
                let r = vec![p + 2];
                assert(r@.map_values(|x: usize| x as int) =~= seq![p + 2]);
                r
            } else {
                let r: Vec<usize> = Vec::new();
                assert(r@.map_values(|x: usize| x as int) =~= Seq::<int>::empty());
                r
            }
        },
    }
}

fn table_owner_exec(ch: char) -> (r: bool)
    ensures
        r == table_owner(ch),
{
    ch == '条' || ch == '項' || ch == '号' || ch == '一' || ch == '二' || ch == '三' || ch == '四'
        || ch == '五' || ch == '六' || ch == '七' || ch == '八' || ch == '九' || ch == '十' || ch
        == '百' || ch == '千' || is_kana(ch)
}

/// Whether the text names a table or a row of an article (see [`has_article_table`]).
pub fn has_article_table_exec(c: &Vec<char>) -> (r: bool)
    ensures
        r == has_article_table(c@),
{
    let ends = article_ends_exec(c, 0);
    let ghost ev = ends@.map_values(|x: usize| x as int);
    let mut k: usize = 0;
    while k < ends.len()
        invariant
            k <= ends.len(),
            ev == ends@.map_values(|x: usize| x as int),
            ev == article_ends(c@, 0),
            forall|j: int| 0 <= j < k ==> !row_at(c@, #[trigger] ev[j]),
        decreases ends.len() - k,
    {
        if row_at_exec(c, ends[k]) {
            assert(row_at(c@, ev[k as int]));
            return true;
        }
        k = k + 1;
    }
    let mut i: usize = 1;
    while i < c.len()
        invariant
            1 <= i,
            forall|j: int| 0 <= j < i ==> !#[trigger] table_mention_at(c@, j),
            forall|j: int| 0 <= j < ev.len() ==> !row_at(c@, #[trigger] ev[j]),
            ev == article_ends(c@, 0),
        decreases c.len() - i,
    {
        proof {
            reveal_strlit("の表");
        }
        if has_at(c.as_slice(), i, "の表") && table_owner_exec(c[i - 1]) {
            if !has_at(c.as_slice(), i + 2, "以外") {
                assert(table_mention_at(c@, i as int));
                return true;
            }
        }
        i = i + 1;
    }
    assert forall|j: int| !#[trigger] table_mention_at(c@, j) by {
        if j >= c@.len() || j <= 0 {
        }
    }
    false
}


// ---------------------------------------------------------------------------------------
// The names of appended tables and forms

/// `一` to `十`: a numeral of a branch of a table's number.
pub open spec fn small_numeral(ch: char) -> bool {
    is_numeral(ch) && ch != '百' && ch != '千'
}

/// The end of the run of small numerals from `i`.
pub open spec fn small_end(c: Seq<char>, i: int) -> int
    decreases c.len() - i,
{
    if 0 <= i < c.len() && small_numeral(c[i]) {
        small_end(c, i + 1)
    } else {
        i
    }
}

pub proof fn lemma_small_end(c: Seq<char>, i: int)
    requires
        0 <= i <= c.len(),
    ensures
        i <= small_end(c, i) <= c.len(),
    decreases c.len() - i,
{
    if i < c.len() && small_numeral(c[i]) {
        lemma_small_end(c, i + 1);
    }
}

/// A numeral, after an optional `第`, at `i`: where it ends, or `-1`.
pub open spec fn dai_num_end(c: Seq<char>, i: int) -> int {
    if 0 <= i < c.len() && c[i] == '第' && numeral_end(c, i + 1) > i + 1 {
        numeral_end(c, i + 1)
    } else if 0 <= i < c.len() && numeral_end(c, i) > i {
        numeral_end(c, i)
    } else {
        -1
    }
}

/// After `p` when it stands at `i`, else `i`.
pub open spec fn skip_lit(c: Seq<char>, i: int, p: Seq<char>) -> int {
    if 0 <= i && starts_with(c.skip(i), p) {
        i + p.len()
    } else {
        i
    }
}

/// After an optional `号表` or `表` at `i`.
pub open spec fn hyo_end(c: Seq<char>, i: int) -> int {
    if 0 <= i && starts_with(c.skip(i), "号表"@) {
        i + 2
    } else if 0 <= i < c.len() && c[i] == '表' {
        i + 1
    } else {
        i
    }
}

/// After an optional branch (`の二`, `ノ二`) at `i`.
pub open spec fn small_branch_end(c: Seq<char>, i: int) -> int {
    if 0 <= i < c.len() && (c[i] == 'の' || c[i] == 'ノ') && small_end(c, i + 1) > i + 1 {
        small_end(c, i + 1)
    } else {
        i
    }
}

/// A capital latin letter, narrow or wide.
pub open spec fn latin_upper(ch: char) -> bool {
    ('A' <= ch && ch <= 'Z') || ('Ａ' <= ch && ch <= 'Ｚ')
}

/// After an optional bracketed capital letter (`（Ａ）`) at `i`.
pub open spec fn letter_end(c: Seq<char>, i: int) -> int {
    if 0 <= i && i + 2 < c.len() && (c[i] == '(' || c[i] == '（') && latin_upper(c[i + 1]) && (
    c[i + 2] == ')' || c[i + 2] == '）') {
        i + 3
    } else {
        i
    }
}

/// `甲`, `乙`, `丙`, `丁`, `戊`, `己`, `庚` or `辛`.
pub open spec fn is_kou(ch: char) -> bool {
    ch == '甲' || ch == '乙' || ch == '丙' || ch == '丁' || ch == '戊' || ch == '己' || ch == '庚'
        || ch == '辛'
}

/// After the number of an appended table at `i`: `第一`, `一`, `第一号表`, `第一表の二`,
/// `第一（Ａ）`, or `甲号`, `乙表`; `i` when none stands there.
pub open spec fn appdx_num_end(c: Seq<char>, i: int) -> int {
    let d = dai_num_end(c, i);
    if d >= 0 {
        letter_end(c, small_branch_end(c, hyo_end(c, d)))
    } else if 0 <= i && i + 1 < c.len() && is_kou(c[i]) && (c[i + 1] == '号' || c[i + 1] == '表') {
        i + 2
    } else {
        i
    }
}

pub proof fn lemma_ends_bound(c: Seq<char>, i: int)
    requires
        0 <= i <= c.len(),
    ensures
        dai_num_end(c, i) >= 0 ==> i < dai_num_end(c, i) <= c.len(),
        i <= hyo_end(c, i) <= c.len(),
        i <= small_branch_end(c, i) <= c.len(),
        i <= letter_end(c, i) <= c.len(),
        forall|p: Seq<char>| #![trigger skip_lit(c, i, p)] i <= skip_lit(c, i, p) <= c.len(),
{
    reveal_strlit("号表");
    lemma_numeral_end(c, i);
    if i < c.len() {
        lemma_numeral_end(c, i + 1);
        lemma_small_end(c, i + 1);
    }
}

/// After the members that follow the first appended table in a list (`及び第二`,
/// `、別表第三`, `から第五まで`), from `i`.
pub open spec fn appdx_more_end(c: Seq<char>, i: int) -> int
    decreases c.len() - i,
{
    let s = if 0 <= i && starts_with(c.skip(i), "及び"@) {
        i + 2
    } else if 0 <= i < c.len() && c[i] == '、' {
        i + 1
    } else if 0 <= i && starts_with(c.skip(i), "から"@) {
        i + 2
    } else {
        -1
    };
    if s < 0 || i < 0 || i > c.len() {
        i
    } else {
        let d = if starts_with(c.skip(s), "別表"@) && dai_num_end(c, s + 2) >= 0 {
            dai_num_end(c, s + 2)
        } else {
            dai_num_end(c, s)
        };
        if d < 0 {
            i
        } else {
            proof {
                reveal_strlit("及び");
                reveal_strlit("から");
                reveal_strlit("別表");
                lemma_ends_bound(c, s);
                if s + 2 <= c.len() {
                    lemma_ends_bound(c, s + 2);
                }
                lemma_ends_bound(c, d);
                lemma_ends_bound(c, hyo_end(c, d));
            }
            appdx_more_end(c, skip_lit(c, hyo_end(c, d), "まで"@))
        }
    }
}

/// After the name of an appended table that `c` starts with (`別表第一`, `附則別表第二`,
/// `別表第一から第三まで`).
pub open spec fn appdx_name_end(c: Seq<char>) -> int {
    appdx_more_end(c, appdx_num_end(c, skip_lit(c, 0, "附則"@) + 2))
}

/// After the number of an annexed table (`第二号`, `一`) at the start of `r`.
pub open spec fn annex_num_end(r: Seq<char>) -> int {
    let d = dai_num_end(r, 0);
    if d >= 0 {
        skip_lit(r, d, "号"@)
    } else {
        0
    }
}

/// After the name of a form that `c` starts with (`様式第二号`, `附則様式第一の二`).
pub open spec fn form_name_end(c: Seq<char>) -> int {
    let q = skip_lit(c, 0, "附則"@) + 2;
    if 0 <= q < c.len() && c[q] == '第' && numeral_end(c, q + 1) > q + 1 {
        branch_end(c, skip_lit(c, numeral_end(c, q + 1), "号"@))
    } else {
        q
    }
}

fn small_numeral_exec(ch: char) -> (r: bool)
    ensures
        r == small_numeral(ch),
{
    ch == '一' || ch == '二' || ch == '三' || ch == '四' || ch == '五' || ch == '六' || ch == '七'
        || ch == '八' || ch == '九' || ch == '十'
}

fn small_end_exec(c: &Vec<char>, i: usize) -> (r: usize)
    requires
        i <= c.len(),
    ensures
        r == small_end(c@, i as int),
        i <= r <= c.len(),
{
    let mut j = i;
    while j < c.len() && small_numeral_exec(c[j])
        invariant
            i <= j <= c.len(),
            small_end(c@, i as int) == small_end(c@, j as int),
        decreases c.len() - j,
    {
        j = j + 1;
    }
    j
}

fn dai_num_end_exec(c: &Vec<char>, i: usize) -> (r: Option<usize>)
    ensures
        match r {
            Some(d) => dai_num_end(c@, i as int) == d as int && i < d <= c.len(),
            None => dai_num_end(c@, i as int) == -1,
        },
{
    if i < c.len() && c[i] == '第' && numeral_end_at(c, i + 1) > i + 1 {
        Some(numeral_end_at(c, i + 1))
    } else if i < c.len() && numeral_end_at(c, i) > i {
        Some(numeral_end_at(c, i))
    } else {
        None
    }
}

fn skip_lit_exec(c: &Vec<char>, i: usize, p: &str) -> (r: usize)
    requires
        i <= c.len(),
    ensures
        r == skip_lit(c@, i as int, p@),
        i <= r <= c.len(),
{
    if has_at(c.as_slice(), i, p) {
        i + chars_of(p).len()
    } else {
        i
    }
}

fn hyo_end_exec(c: &Vec<char>, i: usize) -> (r: usize)
    requires
        i <= c.len(),
    ensures
        r == hyo_end(c@, i as int),
        i <= r <= c.len(),
{
    proof {
        reveal_strlit("号表");
    }
    if has_at(c.as_slice(), i, "号表") {
        i + 2
    } else if i < c.len() && c[i] == '表' {
        i + 1
    } else {
        i
    }
}

fn appdx_num_end_exec(c: &Vec<char>, i: usize) -> (r: usize)
    requires
        i <= c.len(),
    ensures
        r == appdx_num_end(c@, i as int),
        i <= r <= c.len(),
{
    match dai_num_end_exec(c, i) {
        Some(d) => {
            let h = hyo_end_exec(c, d);
            let b = if h < c.len() && (c[h] == 'の' || c[h] == 'ノ') && small_end_exec(c, h + 1) > h + 1 {
                small_end_exec(c, h + 1)
            } else {
                h
            };
            if b < c.len() && c.len() - b > 2 && (c[b] == '(' || c[b] == '（') && (('A' <= c[b + 1] && c[b + 1] <= 'Z')
                || ('Ａ' <= c[b + 1] && c[b + 1] <= 'Ｚ')) && (c[b + 2] == ')' || c[b + 2] == '）') {
                b + 3
            } else {
                b
            }
        },
        None => {
            if i < c.len() && c.len() - i > 1 && (c[i] == '甲' || c[i] == '乙' || c[i] == '丙' || c[i] == '丁' || c[i]
                == '戊' || c[i] == '己' || c[i] == '庚' || c[i] == '辛') && (c[i + 1] == '号' || c[i
                + 1] == '表') {
                i + 2
            } else {
                i
            }
        },
    }
}

fn appdx_more_end_exec(c: &Vec<char>, i: usize) -> (r: usize)
    requires
        i <= c.len(),
    ensures
        r == appdx_more_end(c@, i as int),
        i <= r <= c.len(),
    decreases c.len() - i,
{
    proof {
        reveal_strlit("及び");
        reveal_strlit("から");
        reveal_strlit("別表");
    }
    let s = if has_at(c.as_slice(), i, "及び") {
        i + 2
    } else if i < c.len() && c[i] == '、' {
        i + 1
    } else if has_at(c.as_slice(), i, "から") {
        i + 2
    } else {
        return i;
    };
    let d = if has_at(c.as_slice(), s, "別表") && dai_num_end_exec(c, s + 2).is_some() {
        dai_num_end_exec(c, s + 2)
    } else {
        dai_num_end_exec(c, s)
    };
    match d {
        None => i,
        Some(d) => {
            let h = hyo_end_exec(c, d);
            let n = skip_lit_exec(c, h, "まで");
            appdx_more_end_exec(c, n)
        },
    }
}

/// After the name of an appended table (see [`appdx_name_end`]).
fn appdx_name_end_exec(c: &Vec<char>) -> (r: usize)
    requires
        c.len() >= 2,
        skip_lit(c@, 0, "附則"@) + 2 <= c.len(),
    ensures
        r == appdx_name_end(c@),
        r <= c.len(),
{
    let p = skip_lit_exec(c, 0, "附則");
    let q = appdx_num_end_exec(c, p + 2);
    appdx_more_end_exec(c, q)
}

/// After the number of an annexed table (see [`annex_num_end`]).
fn annex_num_end_exec(r: &Vec<char>) -> (e: usize)
    ensures
        e == annex_num_end(r@),
        e <= r.len(),
{
    match dai_num_end_exec(r, 0) {
        Some(d) => skip_lit_exec(r, d, "号"),
        None => 0,
    }
}

/// After the name of a form (see [`form_name_end`]).
fn form_name_end_exec(c: &Vec<char>) -> (e: usize)
    requires
        skip_lit(c@, 0, "附則"@) + 2 <= c.len(),
    ensures
        e == form_name_end(c@),
        e <= c.len(),
{
    let q = skip_lit_exec(c, 0, "附則") + 2;
    if q < c.len() && c[q] == '第' && numeral_end_at(c, q + 1) > q + 1 {
        let n = numeral_end_at(c, q + 1);
        let g = skip_lit_exec(c, n, "号");
        crate::place::branch_scan_end(c, g)
    } else {
        q
    }
}


// ---------------------------------------------------------------------------------------
// Tables named by their own names, and rows of articles

/// A character that may stand in the name of a table (not `の`, `「`, `」`, `第`, `同`).
pub open spec fn named_char(ch: char) -> bool {
    !(ch == 'の' || ch == '「' || ch == '」' || ch == '第' || ch == '同')
}

/// The end of the run of characters that may stand in a name, from `i`.
pub open spec fn named_run_end(c: Seq<char>, i: int) -> int
    decreases c.len() - i,
{
    if 0 <= i < c.len() && named_char(c[i]) {
        named_run_end(c, i + 1)
    } else {
        i
    }
}

/// The last `表` in `c[lo..k]`, or `-1`.
pub open spec fn last_hyo(c: Seq<char>, lo: int, k: int) -> int
    decreases k - lo,
{
    if k <= lo {
        -1
    } else if 0 <= k - 1 < c.len() && c[k - 1] == '表' {
        k - 1
    } else {
        last_hyo(c, lo, k - 1)
    }
}

/// After the name of a table at `i` (characters that may stand in a name, at least one,
/// up to the last `表` among them), or `-1`.
pub open spec fn named_end(c: Seq<char>, i: int) -> int {
    let h = last_hyo(c, i + 1, named_run_end(c, i));
    if h >= 0 {
        h + 1
    } else {
        -1
    }
}

/// Where a paragraph (`第二項`, `同項`) after `q` may end, in the order a backtracking
/// reader tries them (none at all last).
pub open spec fn para_opts(c: Seq<char>, q: int) -> Seq<int> {
    let j = numbered_end(c, q, '項');
    if j >= 0 {
        seq![j, q]
    } else if 0 <= q && starts_with(c.skip(q), "同項"@) {
        seq![q + 2, q]
    } else {
        seq![q]
    }
}

/// The ends of a paragraph after each of the ends `hs` of an article, in turn.
pub open spec fn with_paras(c: Seq<char>, hs: Seq<int>) -> Seq<int>
    decreases hs.len(),
{
    if hs.len() == 0 {
        Seq::empty()
    } else {
        para_opts(c, hs[0]) + with_paras(c, hs.drop_first())
    }
}

/// Where a place before the name of a table (`附則第三条第二項`) may end, in the order a
/// backtracking reader tries them: with `附則` first, each article end with and then
/// without a paragraph, and no article last.
pub open spec fn loc_opts(c: Seq<char>) -> Seq<int> {
    (if starts_with(c, "附則"@) {
        with_paras(c, article_ends(c, 2) + seq![2])
    } else {
        Seq::empty()
    }) + with_paras(c, article_ends(c, 0) + seq![0])
}

/// `の` and the name of a table follow the end `h` of a place.
pub open spec fn named_after(c: Seq<char>, h: int) -> bool {
    0 <= h < c.len() && c[h] == 'の' && named_end(c, h + 1) >= 0
}

/// The first of the ends `hs[k..]` after which `の` and the name of a table follow.
pub open spec fn first_named(c: Seq<char>, hs: Seq<int>, k: int) -> Option<int>
    decreases hs.len() - k,
{
    if k < 0 || k >= hs.len() {
        None
    } else if named_after(c, hs[k]) {
        Some(hs[k])
    } else {
        first_named(c, hs, k + 1)
    }
}

/// A table named by its own name at the start of `c` (`政府製造たばこ価格表`,
/// `第十条の計算表`): where the place before it ends (when one is written), and where the
/// name starts and ends.
pub open spec fn spec_named(c: Seq<char>) -> Option<(Option<int>, int, int)> {
    match first_named(c, loc_opts(c), 0) {
        Some(h) => Some((Some(h), h + 1, named_end(c, h + 1))),
        None => if named_end(c, 0) >= 0 {
            Some((None, 0, named_end(c, 0)))
        } else {
            None
        },
    }
}

/// An `の項` at `m` ends a row that starts after `h`: no bracket or comma before it, no
/// line break after it.
pub open spec fn row_end_at(c: Seq<char>, h: int, m: int) -> bool {
    &&& h < m
    &&& m + 2 <= c.len()
    &&& starts_with(c.skip(m), "の項"@)
    &&& forall|k: int| h < k < m ==> !quote_or_comma(#[trigger] c[k])
    &&& !c.skip(m + 2).contains('\n')
}

/// A row that runs to the end of the text starts at `h` (`海の日の項`).
pub open spec fn row_to_end(c: Seq<char>, h: int) -> bool {
    0 <= h < c.len() && !row_excluded(c[h]) && exists|m: int| #[trigger] row_end_at(c, h, m)
}

/// The first of the ends `hs[k..]` of an article after which a row runs to the end.
pub open spec fn first_row(c: Seq<char>, hs: Seq<int>, k: int) -> Option<int>
    decreases hs.len() - k,
{
    if k < 0 || k >= hs.len() {
        None
    } else if row_to_end(c, hs[k]) {
        Some(hs[k])
    } else {
        first_row(c, hs, k + 1)
    }
}

fn named_char_exec(ch: char) -> (r: bool)
    ensures
        r == named_char(ch),
{
    !(ch == 'の' || ch == '「' || ch == '」' || ch == '第' || ch == '同')
}

/// After the name of a table at `i` (see [`named_end`]).
fn named_end_exec(c: &Vec<char>, i: usize) -> (r: Option<usize>)
    requires
        i <= c.len(),
    ensures
        match r {
            Some(e) => named_end(c@, i as int) == e as int && i < e <= c.len(),
            None => named_end(c@, i as int) == -1,
        },
{
    let mut j = i;
    while j < c.len() && named_char_exec(c[j])
        invariant
            i <= j <= c.len(),
            named_run_end(c@, i as int) == named_run_end(c@, j as int),
        decreases c.len() - j,
    {
        j = j + 1;
    }
    let ghost r = j as int;
    let mut k = j;
    while k >= 1 && k - 1 > i && c[k - 1] != '表'
        invariant
            i + 1 <= k + 1,
            k <= j <= c.len(),
            last_hyo(c@, i + 1, r) == last_hyo(c@, i + 1, k as int),
        decreases k,
    {
        k = k - 1;
    }
    if k >= 1 && k - 1 > i {
        Some(k)
    } else {
        None
    }
}

/// Where a paragraph after `q` may end (see [`para_opts`]), appended to `v`.
fn push_para_opts(c: &Vec<char>, q: usize, v: &mut Vec<usize>)
    requires
        q <= c.len(),
    ensures
        final(v)@.map_values(|x: usize| x as int) == old(v)@.map_values(|x: usize| x as int)
            + para_opts(c@, q as int),
        forall|k: int| 0 <= k < final(v)@.len() ==> #[trigger] final(v)@[k] <= c.len() || (0 <= k
            < old(v)@.len() && final(v)@[k] == old(v)@[k]),
{
    proof {
        reveal_strlit("同項");
    }
    let ghost v0 = v@;
    match numbered_end_exec(c, q, '項') {
        Some(j) => {
            v.push(j);
            v.push(q);
        },
        None => {
            if has_at(c.as_slice(), q, "同項") {
                v.push(q + 2);
                v.push(q);
            } else {
                v.push(q);
            }
        },
    }
    assert(v@.map_values(|x: usize| x as int) =~= v0.map_values(|x: usize| x as int) + para_opts(
        c@,
        q as int,
    ));
}

/// Where a place before the name of a table may end (see [`loc_opts`]).
fn loc_opts_exec(c: &Vec<char>) -> (r: Vec<usize>)
    ensures
        r@.map_values(|x: usize| x as int) == loc_opts(c@),
{
    let mut r: Vec<usize> = Vec::new();
    let ghost first: Seq<int> = if starts_with(c@, "附則"@) {
        with_paras(c@, article_ends(c@, 2) + seq![2])
    } else {
        Seq::empty()
    };
    proof {
        reveal_strlit("附則");
    }
    assert(c@.skip(0) =~= c@);
    if has_at(c.as_slice(), 0, "附則") {
        let mut hs = article_ends_exec(c, 2);
        hs.push(2);
        let ghost hv = hs@.map_values(|x: usize| x as int);
        assert(hv =~= article_ends(c@, 2) + seq![2]);
        push_all_paras(c, &hs, &mut r);
        assert(r@.map_values(|x: usize| x as int) =~= first);
    } else {
        assert(r@.map_values(|x: usize| x as int) =~= first);
    }
    let mut hs = article_ends_exec(c, 0);
    hs.push(0);
    let ghost hv = hs@.map_values(|x: usize| x as int);
    assert(hv =~= article_ends(c@, 0) + seq![0]);
    push_all_paras(c, &hs, &mut r);
    r
}

/// The ends of a paragraph after each of the ends `hs` (see [`with_paras`]), appended to `v`.
fn push_all_paras(c: &Vec<char>, hs: &Vec<usize>, v: &mut Vec<usize>)
    requires
        forall|k: int| 0 <= k < hs@.len() ==> #[trigger] hs@[k] <= c.len(),
    ensures
        final(v)@.map_values(|x: usize| x as int) == old(v)@.map_values(|x: usize| x as int)
            + with_paras(c@, hs@.map_values(|x: usize| x as int)),
{
    let ghost v0 = v@.map_values(|x: usize| x as int);
    let ghost hv = hs@.map_values(|x: usize| x as int);
    let mut k: usize = 0;
    assert(hv.skip(0) =~= hv);
    assert(v0 + Seq::<int>::empty() =~= v0);
    while k < hs.len()
        invariant
            k <= hs.len(),
            hv == hs@.map_values(|x: usize| x as int),
            forall|j: int| 0 <= j < hs@.len() ==> #[trigger] hs@[j] <= c.len(),
            v0 + with_paras(c@, hv) == v@.map_values(|x: usize| x as int) + with_paras(c@, hv.skip(k as int)),
        decreases hs.len() - k,
    {
        let ghost before = v@.map_values(|x: usize| x as int);
        push_para_opts(c, hs[k], v);
        assert(hv.skip(k as int).drop_first() =~= hv.skip(k + 1));
        assert(hv.skip(k as int)[0] == hs@[k as int] as int);
        assert(with_paras(c@, hv.skip(k as int)) == para_opts(c@, hs@[k as int] as int) + with_paras(
            c@,
            hv.skip(k + 1),
        ));
        assert(v@.map_values(|x: usize| x as int) + with_paras(c@, hv.skip(k + 1)) =~= before + (
        para_opts(c@, hs@[k as int] as int) + with_paras(c@, hv.skip(k + 1))));
        k = k + 1;
    }
    assert(with_paras(c@, hv.skip(k as int)) =~= Seq::<int>::empty());
    assert(v@.map_values(|x: usize| x as int) + Seq::<int>::empty() =~= v@.map_values(
        |x: usize| x as int,
    ));
}

/// A table named by its own name at the start of `c` (see [`spec_named`]).
fn named_exec(c: &Vec<char>) -> (r: Option<(Option<usize>, usize, usize)>)
    ensures
        match spec_named(c@) {
            Some((lh, ns, ne)) => r matches Some((l, s, e)) && ns == s && ne == e && s <= e <= c.len()
                && match lh {
                Some(h) => l == Some(h as usize) && 0 <= h <= c.len(),
                None => l is None,
            },
            None => r is None,
        },
{
    let hs = loc_opts_exec(c);
    let ghost hv = hs@.map_values(|x: usize| x as int);
    let mut k: usize = 0;
    while k < hs.len()
        invariant
            k <= hs.len(),
            hv == hs@.map_values(|x: usize| x as int),
            hv == loc_opts(c@),
            first_named(c@, hv, 0) == first_named(c@, hv, k as int),
        decreases hs.len() - k,
    {
        let h = hs[k];
        assert(hv[k as int] == h as int);
        if h < c.len() && c[h] == 'の' {
            match named_end_exec(c, h + 1) {
                Some(e) => {
                    return Some((Some(h), h + 1, e));
                },
                None => {},
            }
        }
        k = k + 1;
    }
    match named_end_exec(c, 0) {
        Some(e) => Some((None, 0, e)),
        None => None,
    }
}

/// Whether `c` holds a line break from `i` on.
fn newline_from(c: &Vec<char>, i: usize) -> (r: bool)
    requires
        i <= c.len(),
    ensures
        r == c@.skip(i as int).contains('\n'),
{
    let mut j = i;
    while j < c.len()
        invariant
            i <= j <= c.len(),
            forall|k: int| i <= k < j ==> c@[k] != '\n',
        decreases c.len() - j,
    {
        if c[j] == '\n' {
            assert(c@.skip(i as int)[j - i] == '\n');
            return true;
        }
        j = j + 1;
    }
    assert forall|k: int| 0 <= k < c@.skip(i as int).len() implies c@.skip(i as int)[k] != '\n' by {
        assert(c@.skip(i as int)[k] == c@[i + k]);
    }
    false
}

/// Whether a row runs to the end after `h` (see [`row_to_end`]).
fn row_to_end_exec(c: &Vec<char>, h: usize) -> (r: bool)
    ensures
        r == row_to_end(c@, h as int),
{
    if h >= c.len() {
        return false;
    }
    let ch = c[h];
    if ch == '第' || ch == 'の' || ch == '同' || ch == '中' || ch == '、' || ch == '「' || ch == '」' {
        return false;
    }
    proof {
        reveal_strlit("の項");
    }
    let mut m = h + 1;
    while m < c.len()
        invariant
            h < m <= c.len(),
            !row_excluded(c@[h as int]),
            forall|k: int| h < k < m ==> !quote_or_comma(#[trigger] c@[k]),
            forall|x: int| h < x < m ==> !#[trigger] row_end_at(c@, h as int, x),
        decreases c.len() - m,
    {
        proof {
            reveal_strlit("の項");
        }
        if has_at(c.as_slice(), m, "の項") {
            if !newline_from(c, m + 2) {
                assert(row_end_at(c@, h as int, m as int));
                assert(!row_excluded(c@[h as int]));
                assert(row_to_end(c@, h as int));
                return true;
            }
        }
        if c[m] == '「' || c[m] == '」' || c[m] == '、' {
            assert forall|x: int| #[trigger] row_end_at(c@, h as int, x) implies false by {
                if x > m {
                    assert(quote_or_comma(c@[m as int]));
                } else if x == m {
                    assert(c@.skip(m as int)[0] == c@[m as int]);
                }
            }
            return false;
        }
        m = m + 1;
    }
    false
}

/// The first end of an article after which a row runs to the end (see [`first_row`]).
fn first_row_exec(c: &Vec<char>) -> (r: Option<usize>)
    ensures
        match first_row(c@, article_ends(c@, 0), 0) {
            Some(h) => r == Some(h as usize) && 0 <= h <= c.len(),
            None => r is None,
        },
{
    let hs = article_ends_exec(c, 0);
    let ghost hv = hs@.map_values(|x: usize| x as int);
    let mut k: usize = 0;
    while k < hs.len()
        invariant
            k <= hs.len(),
            hv == hs@.map_values(|x: usize| x as int),
            hv == article_ends(c@, 0),
            forall|j: int| 0 <= j < hs@.len() ==> #[trigger] hs@[j] <= c.len(),
            first_row(c@, hv, 0) == first_row(c@, hv, k as int),
        decreases hs.len() - k,
    {
        assert(hv[k as int] == hs@[k as int] as int);
        if row_to_end_exec(c, hs[k]) {
            return Some(hs[k]);
        }
        k = k + 1;
    }
    None
}


// ---------------------------------------------------------------------------------------
// The table and the position within it

/// A table and the position within it, as written, by value.
pub open spec fn target_view(o: Option<(TableRef, String)>) -> Option<(TableRefModel, Seq<char>)> {
    match o {
        Some((t, p)) => Some((t@, p@)),
        None => None,
    }
}

/// The table of the position before.
pub open spec fn tedit_table(a: AnteModel) -> Option<TableRefModel> {
    match a.tedit {
        Some((t, _)) => Some(t),
        None => None,
    }
}

/// The table that `同表` names: the table of the position before, or the appended table of
/// the row before.
pub open spec fn same_table(a: AnteModel) -> Option<TableRefModel> {
    match a.tedit {
        Some((t, _)) => Some(t),
        None => match a.appdx {
            Some((t, _)) => Some(TableRefModel::Appdx(t)),
            None => None,
        },
    }
}

/// The row of a position (up to its first `の項`, or all of it when it ends in `項`).
pub open spec fn row_of(p: Seq<char>) -> Option<Seq<char>> {
    let i = first_at_seq(p, "の項"@);
    if i < p.len() {
        Some(p.take(i + 2))
    } else if crate::text::ends_with(p, "項"@) {
        Some(p)
    } else {
        None
    }
}

/// The first position of `q` in `p`, or the length of `p`.
pub open spec fn first_at_seq(p: Seq<char>, q: Seq<char>) -> int {
    crate::locs::first_at(p, q, 0)
}

/// `同項…` after a table: the row before (of the position before, or of the appended
/// table before) and the position within it.
pub open spec fn same_row(t: Seq<char>, a: AnteModel) -> Option<(TableRefModel, Seq<char>)> {
    let rest = path_of(t.skip(2));
    match a.tedit {
        Some((tb, p)) if row_of(p) is Some => Some((tb, row_of(p)->0 + rest)),
        _ => match a.appdx {
            Some((tb, r)) if r.len() > 0 => Some((TableRefModel::Appdx(tb), r + "の項"@ + rest)),
            _ => None,
        },
    }
}

/// The table before is in an item (`第十一条第一項第三号の表`).
pub open spec fn item_table(a: AnteModel) -> bool {
    a.tedit matches Some((TableRefModel::InArticle(at), _)) && at.item is Some
}

/// The head `付表`, `附録` or `付録` that `t` starts with.
pub open spec fn annex_head(t: Seq<char>) -> Option<Seq<char>> {
    if starts_with(t, "付表"@) {
        Some("付表"@)
    } else if starts_with(t, "附録"@) {
        Some("附録"@)
    } else if starts_with(t, "付録"@) {
        Some("付録"@)
    } else {
        None
    }
}

/// The place without a number that stands for provisions without articles.
pub open spec fn zero_loc() -> LocModel {
    LocModel { article: zero_article(), paragraph: None, item: None, part: None, suppl: false, sub: None }
}

/// What reading where a table is gives: the table and the position within it (none when
/// the text names no table) and the places left for the next; or why a place could not
/// be read.
pub type TableRead = Result<(Option<(TableRefModel, Seq<char>)>, AnteModel), PlaceError>;

/// A table in the article read from `l` (see [`spec_loc`]), with the position `p`.
pub open spec fn in_article(l: Seq<char>, p: Seq<char>, a: AnteModel) -> TableRead {
    match spec_loc(l, a) {
        Ok((at, a1)) => Ok((Some((TableRefModel::InArticle(at), p)), a1)),
        Err(e) => Err(e),
    }
}

/// Where a table is, and the position within it, as the text `t` names them after the
/// places `a`, tried in this order:
/// - `同号`, `その`: the position before; `同号…`, `同欄…` (naming no table of an article):
///   the table before, with the position as written;
/// - `同項…` (unless the table before is in an item): the row before (see [`same_row`]);
/// - `同注…`: the note of the table before; `同表…`: the table before (an error without
///   one); `備考…`: the notes of the table before;
/// - `付表`, `附録`, `付録` with their number, `様式…`, `別表…`: that table, the rest being
///   the position;
/// - `表`, `表中…`: the table of the main provisions without articles;
/// - a table named by its own name (`政府製造たばこ価格表`), after an optional place;
/// - the row of an article that is a table (`第二条海の日の項`);
/// - `…の式`: the formula of a place; `…の表…`: the table of a place, the rest being the
///   position;
/// - otherwise no table.
pub open spec fn spec_split_table_target(t: Seq<char>, a: AnteModel) -> TableRead {
    if (t == "同号"@ || t == "その"@) && a.tedit is Some {
        Ok((a.tedit, a))
    } else if (starts_with(t, "同号"@) || starts_with(t, "同欄"@)) && a.tedit is Some
        && !has_article_table(t) {
        Ok((Some((tedit_table(a)->0, t)), a))
    } else if !item_table(a) && starts_with(t, "同項"@) && same_row(t, a) is Some {
        Ok((same_row(t, a), a))
    } else if starts_with(t, "同注"@) {
        Ok(
            (
                match a.tedit {
                    Some((tb, _)) => Some((tb, "注"@ + t.skip(2))),
                    None => None,
                },
                a,
            ),
        )
    } else if starts_with(t, "同表"@) {
        match same_table(a) {
            Some(tb) => Ok((Some((tb, path_of(t.skip(2)))), a)),
            None => Err(PlaceError::NoAntecedent(t)),
        }
    } else if starts_with(t, "備考"@) {
        Ok(
            (
                match same_table(a) {
                    Some(tb) => Some((tb, t)),
                    None => None,
                },
                a,
            ),
        )
    } else if annex_head(t) is Some {
        let r = t.skip(2);
        let e = annex_num_end(r);
        Ok((Some((TableRefModel::Appdx(annex_head(t)->0 + r.take(e)), path_of(r.skip(e)))), a))
    } else if starts_with(t, "様式"@) || starts_with(t, "附則様式"@) {
        let e = form_name_end(t);
        Ok((Some((TableRefModel::Appdx(t.take(e)), path_of(t.skip(e)))), a))
    } else if starts_with(t, "別表"@) || starts_with(t, "附則別表"@) {
        let e = appdx_name_end(t);
        Ok((Some((TableRefModel::Appdx(t.take(e)), path_of(t.skip(e)))), a))
    } else if t == "表"@ || starts_with(t, "表中"@) {
        Ok((Some((TableRefModel::InArticle(zero_loc()), path_of(t.skip(1)))), a))
    } else {
        named_or_row(t, a)
    }
}

/// The later readings of [`spec_split_table_target`]: a table named by its own name, the
/// row of an article, a formula, the table of a place.
pub open spec fn named_or_row(t: Seq<char>, a: AnteModel) -> TableRead {
    match spec_named(t) {
        Some((lh, ns, ne)) => {
            let name = t.subrange(ns, ne);
            match lh {
                Some(h) if h > 0 => in_article(t.take(h), name + path_of(t.skip(ne)), a),
                _ => Ok((Some((TableRefModel::Appdx(name), path_of(t.skip(ne)))), a)),
            }
        },
        None => match first_row(t, article_ends(t, 0), 0) {
            Some(h) => in_article(t.take(h), t.skip(h), a),
            None => if crate::text::ends_with(t, "の式"@) {
                in_article(t.take(t.len() - 2), "式"@, a)
            } else {
                let i = first_at_seq(t, "の表"@);
                if i < t.len() {
                    in_article(t.take(i), path_of(t.skip(i + 2)), a)
                } else {
                    Ok((None, a))
                }
            },
        },
    }
}

/// A copy of a table and a position.
pub(crate) fn copy_target(o: &Option<(TableRef, String)>) -> (r: Option<(TableRef, String)>)
    ensures
        target_view(r) == target_view(*o),
{
    match o {
        Some((t, p)) => Some((t.copy(), p.clone())),
        None => None,
    }
}

/// The table that `同表` names (see [`same_table`]).
fn same_table_exec(ante: &Ante) -> (r: Option<TableRef>)
    ensures
        match same_table(ante@) {
            Some(t) => r is Some && r->0@ == t,
            None => r is None,
        },
{
    match &ante.tedit {
        Some((t, _)) => Some(t.copy()),
        None => match &ante.appdx {
            Some((t, _)) => Some(TableRef::Appdx(t.clone())),
            None => None,
        },
    }
}

/// The row of a position (see [`row_of`]).
fn row_of_exec(p: &String) -> (r: Option<String>)
    ensures
        match row_of(p@) {
            Some(x) => r is Some && r->0@ == x,
            None => r is None,
        },
{
    let c = chars_of(p.as_str());
    let i = crate::locs::first_at_exec(&c, "の項");
    proof {
        lemma_first_at(c@, "の項"@, 0);
        reveal_strlit("の項");
    }
    if i < c.len() {
        Some(string_of(crate::text::slice_to(c.as_slice(), i + 2).as_slice()))
    } else if crate::text::chars_end_with(c.as_slice(), "項") {
        Some(p.clone())
    } else {
        None
    }
}

/// `同項…` after a table (see [`same_row`]).
fn same_row_exec(c: &Vec<char>, ante: &Ante) -> (r: Option<(TableRef, String)>)
    requires
        c.len() >= 2,
    ensures
        target_view(r) == same_row(c@, ante@),
{
    let rest = path_of_exec(&crate::text::slice_from(c.as_slice(), 2));
    match &ante.tedit {
        Some((tb, p)) => {
            match row_of_exec(p) {
                Some(row) => {
                    let mut x = row;
                    push_str(&mut x, rest.as_str());
                    return Some((tb.copy(), x));
                },
                None => {},
            }
        },
        None => {},
    }
    match &ante.appdx {
        Some((tb, r)) => {
            if chars_of(r.as_str()).len() > 0 {
                let mut x = r.clone();
                push_str(&mut x, "の項");
                push_str(&mut x, rest.as_str());
                proof {
                    reveal_strlit("の項");
                }
                assert(x@ =~= r@ + "の項"@ + rest@);
                Some((TableRef::Appdx(tb.clone()), x))
            } else {
                None
            }
        },
        None => None,
    }
}


/// A table in the article read from `c[..h]`, with the position `p` (see [`in_article`]).
fn in_article_exec(c: &Vec<char>, h: usize, p: String, ante: &mut Ante) -> (r: Result<
    Option<(TableRef, String)>,
    ParseError,
>)
    requires
        h <= c.len(),
    ensures
        match in_article(c@.take(h as int), p@, old(ante)@) {
            Ok((o, a)) => r is Ok && target_view(r->Ok_0) == o && final(ante)@ == a,
            Err(e) => r is Err && error_is(r->Err_0, e) && final(ante)@ == old(ante)@,
        },
{
    let l = string_of(crate::text::slice_to(c.as_slice(), h).as_slice());
    match loc(l.as_str(), ante) {
        Ok(at) => Ok(Some((TableRef::InArticle(at), p))),
        Err(e) => Err(e),
    }
}

/// Where a table is, and the position within it (see [`spec_split_table_target`]).
pub fn split_table_target(target: &str, ante: &mut Ante) -> (r: Result<
    Option<(TableRef, String)>,
    ParseError,
>)
    ensures
        match spec_split_table_target(target@, old(ante)@) {
            Ok((o, a)) => r is Ok && target_view(r->Ok_0) == o && final(ante)@ == a,
            Err(e) => r is Err && error_is(r->Err_0, e) && final(ante)@ == old(ante)@,
        },
{
    proof {
        reveal_strlit("同号");
        reveal_strlit("その");
        reveal_strlit("同欄");
        reveal_strlit("同項");
        reveal_strlit("同注");
        reveal_strlit("同表");
        reveal_strlit("備考");
        reveal_strlit("付表");
        reveal_strlit("附録");
        reveal_strlit("付録");
        reveal_strlit("様式");
        reveal_strlit("附則様式");
        reveal_strlit("別表");
        reveal_strlit("附則別表");
        reveal_strlit("附則");
        reveal_strlit("表");
        reveal_strlit("表中");
        reveal_strlit("注");
    }
    let c = chars_of(target);
    assert(c@.skip(0) =~= c@);
    let has_tedit = ante.tedit.is_some();
    if (str_eq_chars(&c, "同号") || str_eq_chars(&c, "その")) && has_tedit {
        return Ok(copy_target(&ante.tedit));
    }
    if (has_at(c.as_slice(), 0, "同号") || has_at(c.as_slice(), 0, "同欄")) && has_tedit
        && !has_article_table_exec(&c) {
        match &ante.tedit {
            Some((t, _)) => {
                return Ok(Some((t.copy(), target.to_string())));
            },
            None => {},
        }
    }
    let item_tab = match &ante.tedit {
        Some((TableRef::InArticle(at), _)) => at.item.is_some(),
        _ => false,
    };
    if !item_tab && has_at(c.as_slice(), 0, "同項") {
        let hit = same_row_exec(&c, ante);
        if hit.is_some() {
            return Ok(hit);
        }
    }
    if has_at(c.as_slice(), 0, "同注") {
        return Ok(
            match &ante.tedit {
                Some((t, _)) => {
                    let mut x = String::new();
                    push_str(&mut x, "注");
                    let r = string_of(crate::text::slice_from(c.as_slice(), 2).as_slice());
                    push_str(&mut x, r.as_str());
                    Some((t.copy(), x))
                },
                None => None,
            },
        );
    }
    if has_at(c.as_slice(), 0, "同表") {
        return match same_table_exec(ante) {
            Some(t) => Ok(Some((t, path_of_exec(&crate::text::slice_from(c.as_slice(), 2))))),
            None => Err(ParseError::NoAntecedent(target.to_string())),
        };
    }
    if has_at(c.as_slice(), 0, "備考") {
        return Ok(
            match same_table_exec(ante) {
                Some(t) => Some((t, target.to_string())),
                None => None,
            },
        );
    }
    let head = if has_at(c.as_slice(), 0, "付表") {
        Some("付表")
    } else if has_at(c.as_slice(), 0, "附録") {
        Some("附録")
    } else if has_at(c.as_slice(), 0, "付録") {
        Some("付録")
    } else {
        None
    };
    match head {
        Some(hd) => {
            let r = crate::text::slice_from(c.as_slice(), 2);
            let e = annex_num_end_exec(&r);
            let mut name = String::new();
            push_str(&mut name, hd);
            let n = string_of(crate::text::slice_to(r.as_slice(), e).as_slice());
            push_str(&mut name, n.as_str());
            let rest = path_of_exec(&crate::text::slice_from(r.as_slice(), e));
            return Ok(Some((TableRef::Appdx(name), rest)));
        },
        None => {},
    }
    if has_at(c.as_slice(), 0, "様式") || has_at(c.as_slice(), 0, "附則様式") {
        let e = form_name_end_exec(&c);
        let name = string_of(crate::text::slice_to(c.as_slice(), e).as_slice());
        let rest = path_of_exec(&crate::text::slice_from(c.as_slice(), e));
        return Ok(Some((TableRef::Appdx(name), rest)));
    }
    if has_at(c.as_slice(), 0, "別表") || has_at(c.as_slice(), 0, "附則別表") {
        let e = appdx_name_end_exec(&c);
        let name = string_of(crate::text::slice_to(c.as_slice(), e).as_slice());
        let rest = path_of_exec(&crate::text::slice_from(c.as_slice(), e));
        return Ok(Some((TableRef::Appdx(name), rest)));
    }
    if str_eq_chars(&c, "表") || has_at(c.as_slice(), 0, "表中") {
        let at = Loc::new(zero_article_exec(), None);
        let rest = path_of_exec(&crate::text::slice_from(c.as_slice(), 1));
        return Ok(Some((TableRef::InArticle(at), rest)));
    }
    named_or_row_exec(&c, ante)
}

/// The characters `c` are the text `p`.
fn str_eq_chars(c: &Vec<char>, p: &str) -> (r: bool)
    ensures
        r == (c@ == p@),
{
    let s = string_of(c.as_slice());
    crate::text::str_eq(s.as_str(), p)
}

/// The later readings (see [`named_or_row`]).
fn named_or_row_exec(c: &Vec<char>, ante: &mut Ante) -> (r: Result<Option<(TableRef, String)>, ParseError>)
    ensures
        match named_or_row(c@, old(ante)@) {
            Ok((o, a)) => r is Ok && target_view(r->Ok_0) == o && final(ante)@ == a,
            Err(e) => r is Err && error_is(r->Err_0, e) && final(ante)@ == old(ante)@,
        },
{
    let nm = named_exec(c);
    if let Some((lh, ns, ne)) = nm {
        let name = string_of(crate::text::slice_range(c.as_slice(), ns, ne).as_slice());
        let rest = path_of_exec(&crate::text::slice_from(c.as_slice(), ne));
        let h: usize = match lh {
            Some(h) => h,
            None => 0,
        };
        if h > 0 {
            let mut p = name;
            push_str(&mut p, rest.as_str());
            return in_article_exec(c, h, p, ante);
        }
        return Ok(Some((TableRef::Appdx(name), rest)));
    }
    match first_row_exec(c) {
        Some(h) => {
            let row = string_of(crate::text::slice_from(c.as_slice(), h).as_slice());
            return in_article_exec(c, h, row, ante);
        },
        None => {},
    }
    proof {
        reveal_strlit("の式");
        reveal_strlit("式");
        reveal_strlit("の表");
    }
    if crate::text::chars_end_with(c.as_slice(), "の式") {
        let mut p = String::new();
        push_str(&mut p, "式");
        return in_article_exec(c, c.len() - 2, p, ante);
    }
    let i = crate::locs::first_at_exec(c, "の表");
    proof {
        lemma_first_at(c@, "の表"@, 0);
    }
    if i < c.len() {
        let p = path_of_exec(&crate::text::slice_from(c.as_slice(), i + 2));
        return in_article_exec(c, i, p, ante);
    }
    Ok(None)
}

} // verus!
