//! The grammar of a place named in an amendment instruction, such as
//! `附則第三条の二第一項第五号ロ(1)ただし書`, `同条第二項` or `同号`, and the kanji numerals
//! (with `十`, `百` and `千`) that number its article, paragraph and item.
//!
//! A place is read left to right, each part optional:
//! `附則`, then the article (`第N条` with branches `のN`, or `同条`), the paragraph (`第N項`
//! or `同項`), the item (`第N号` with branches, or `同号`), the sub-item (an iroha symbol
//! followed by bracketed labels, or bracketed labels alone, each label of one to six
//! characters), and last `各号` and/or the part of the sentence (`ただし書`,
//! `各号列記以外の部分`, `本文`, `前段`, `後段`). Every part is taken where the text allows
//! it, and the text must end after the last.

use vstd::prelude::*;
use crate::numeral::kanji_value;
use crate::op::SentencePart;
use crate::parse::kana_seq;
use crate::text::{chars_of, has_at, starts_with};

verus! {

/// A character of a kanji numeral: a digit `一`–`九` or a unit `十`, `百`, `千`.
pub open spec fn is_numeral(ch: char) -> bool {
    kanji_value(ch) > 0 || ch == '十' || ch == '百' || ch == '千'
}

/// `m` times the unit `ch` (`十`, `百`, or else `千`).
pub open spec fn scaled(m: int, ch: char) -> int {
    if ch == '十' {
        m * 10
    } else if ch == '百' {
        m * 100
    } else {
        m * 1000
    }
}

/// The state `(total, pending digit)` after reading `t`: a unit adds itself times the
/// pending digit (once when there is none) to the total and clears the digit; a digit
/// replaces the pending digit.
pub open spec fn numeral_state(t: Seq<char>) -> (int, int)
    decreases t.len(),
{
    if t.len() == 0 {
        (0, 0)
    } else {
        let (n, cur) = numeral_state(t.drop_last());
        let ch = t.last();
        if ch == '十' || ch == '百' || ch == '千' {
            (n + scaled(if cur == 0 { 1 } else { cur }, ch), 0)
        } else {
            (n, kanji_value(ch))
        }
    }
}

/// The value of a kanji numeral (`百二十三` is 123, `千` is 1000), as a `u32` holds it:
/// a numeral worth more than `u32::MAX` reads as `u32::MAX`.
pub open spec fn numeral_value(t: Seq<char>) -> nat {
    let v = numeral_state(t).0 + numeral_state(t).1;
    if v > u32::MAX {
        u32::MAX as nat
    } else {
        v as nat
    }
}

/// Reading one more character never lowers the total.
proof fn lemma_numeral_total_grows(t: Seq<char>)
    requires
        t.len() > 0,
    ensures
        numeral_state(t.drop_last()).0 <= numeral_state(t).0,
{
    lemma_numeral_state(t.drop_last());
}

/// A numeral of `k` characters is worth at most `9000 k + 9`.
pub proof fn lemma_numeral_state(t: Seq<char>)
    ensures
        0 <= numeral_state(t).1 <= 9,
        0 <= numeral_state(t).0 <= 9000 * t.len(),
    decreases t.len(),
{
    if t.len() > 0 {
        lemma_numeral_state(t.drop_last());
    }
}

/// The end of the run of numeral characters that starts at `i`.
pub open spec fn numeral_end(c: Seq<char>, i: int) -> int
    decreases c.len() - i,
{
    if 0 <= i < c.len() && is_numeral(c[i]) {
        numeral_end(c, i + 1)
    } else {
        i
    }
}

pub proof fn lemma_numeral_end(c: Seq<char>, i: int)
    requires
        0 <= i <= c.len(),
    ensures
        i <= numeral_end(c, i) <= c.len(),
        forall|k: int| i <= k < numeral_end(c, i) ==> is_numeral(#[trigger] c[k]),
        numeral_end(c, i) == c.len() || !is_numeral(c[numeral_end(c, i)]),
    decreases c.len() - i,
{
    if i < c.len() && is_numeral(c[i]) {
        lemma_numeral_end(c, i + 1);
    }
}

/// At `i` stands `の` and a numeral: one more branch number.
pub open spec fn branch_step(c: Seq<char>, i: int) -> bool {
    0 <= i < c.len() && c[i] == 'の' && numeral_end(c, i + 1) > i + 1
}

/// The end of the branch numbers (`の二の三`) that start at `i`.
pub open spec fn branch_end(c: Seq<char>, i: int) -> int
    decreases c.len() - i,
{
    if branch_step(c, i) {
        proof {
            lemma_numeral_end(c, i + 1);
        }
        branch_end(c, numeral_end(c, i + 1))
    } else {
        i
    }
}

/// The values of the branch numbers that start at `i`.
pub open spec fn branch_values(c: Seq<char>, i: int) -> Seq<nat>
    decreases c.len() - i,
{
    if branch_step(c, i) {
        proof {
            lemma_numeral_end(c, i + 1);
        }
        seq![numeral_value(c.subrange(i + 1, numeral_end(c, i + 1)))] + branch_values(
            c,
            numeral_end(c, i + 1),
        )
    } else {
        Seq::empty()
    }
}

pub proof fn lemma_branch_end(c: Seq<char>, i: int)
    requires
        0 <= i <= c.len(),
    ensures
        i <= branch_end(c, i) <= c.len(),
    decreases c.len() - i,
{
    if branch_step(c, i) {
        lemma_numeral_end(c, i + 1);
        lemma_branch_end(c, numeral_end(c, i + 1));
    }
}

/// `c[p]` is `a` and `c[p + 1]` is `b`.
pub open spec fn pair_at(c: Seq<char>, p: int, a: char, b: char) -> bool {
    0 <= p && p + 1 < c.len() && c[p] == a && c[p + 1] == b
}

/// At `p` stands `第`, a numeral and the character `kind` (`条`, `項`, `号`, `章`…).
pub open spec fn numbered_at(c: Seq<char>, p: int, kind: char) -> bool {
    &&& 0 <= p < c.len()
    &&& c[p] == '第'
    &&& numeral_end(c, p + 1) > p + 1
    &&& numeral_end(c, p + 1) < c.len()
    &&& c[numeral_end(c, p + 1)] == kind
}

/// The value of the numeral after the `第` at `p`.
pub open spec fn number_at(c: Seq<char>, p: int) -> nat {
    numeral_value(c.subrange(p + 1, numeral_end(c, p + 1)))
}

/// The position after the numeral and the character that follows it.
pub open spec fn after_number(c: Seq<char>, p: int) -> int {
    numeral_end(c, p + 1) + 1
}

/// `(` or `（`.
pub open spec fn is_opener(ch: char) -> bool {
    ch == '(' || ch == '（'
}

/// `)` or `）`.
pub open spec fn is_closer(ch: char) -> bool {
    ch == ')' || ch == '）'
}

/// A character that cannot stand inside a bracketed label.
pub open spec fn is_label_stop(ch: char) -> bool {
    is_closer(ch) || ch == '「' || ch == '」' || ch == '、'
}

/// The first position from `j` on that holds a character that cannot stand in a label.
pub open spec fn label_stop(c: Seq<char>, j: int) -> int
    decreases c.len() - j,
{
    if 0 <= j < c.len() && !is_label_stop(c[j]) {
        label_stop(c, j + 1)
    } else {
        j
    }
}

pub proof fn lemma_label_stop(c: Seq<char>, j: int)
    requires
        0 <= j <= c.len(),
    ensures
        j <= label_stop(c, j) <= c.len(),
    decreases c.len() - j,
{
    if j < c.len() && !is_label_stop(c[j]) {
        lemma_label_stop(c, j + 1);
    }
}

/// The end of the bracketed label (`(1)`, `（ｉ）`) that starts at `i`, or -1 when none
/// does.
pub open spec fn label_end(c: Seq<char>, i: int) -> int {
    if 0 <= i < c.len() && is_opener(c[i]) && label_stop(c, i + 1) < c.len() && is_closer(
        c[label_stop(c, i + 1)],
    ) && 2 <= label_stop(c, i + 1) - i <= 7 {
        label_stop(c, i + 1) + 1
    } else {
        -1
    }
}

pub proof fn lemma_label_end(c: Seq<char>, i: int)
    requires
        0 <= i <= c.len(),
    ensures
        label_end(c, i) == -1 || i < label_end(c, i) <= c.len(),
{
    if i < c.len() {
        lemma_label_stop(c, i + 1);
    }
}

/// The end of the bracketed labels that follow each other from `i`.
pub open spec fn labels_end(c: Seq<char>, i: int) -> int
    decreases c.len() - i,
{
    if 0 <= i <= c.len() && label_end(c, i) >= 0 {
        proof {
            lemma_label_end(c, i);
        }
        labels_end(c, label_end(c, i))
    } else {
        i
    }
}

pub proof fn lemma_labels_end(c: Seq<char>, i: int)
    requires
        0 <= i <= c.len(),
    ensures
        i <= labels_end(c, i) <= c.len(),
    decreases c.len() - i,
{
    if label_end(c, i) >= 0 {
        lemma_label_end(c, i);
        lemma_labels_end(c, label_end(c, i));
    }
}

/// The end of the sub-item reference that starts at `i` (`ロ`, `ロ(1)(i)`, `(3)`), or `i`
/// when none does.
pub open spec fn sub_end(c: Seq<char>, i: int) -> int {
    if 0 <= i < c.len() && kana_seq().contains(c[i]) {
        labels_end(c, i + 1)
    } else if 0 <= i <= c.len() && label_end(c, i) >= 0 {
        labels_end(c, i)
    } else {
        i
    }
}

pub proof fn lemma_sub_end(c: Seq<char>, i: int)
    requires
        0 <= i <= c.len(),
    ensures
        i <= sub_end(c, i) <= c.len(),
{
    if i < c.len() && kana_seq().contains(c[i]) {
        lemma_labels_end(c, i + 1);
    } else {
        lemma_labels_end(c, i);
    }
}

/// The part of the sentence that `t` names.
pub open spec fn part_named(t: Seq<char>) -> Option<SentencePart> {
    if t == "ただし書"@ {
        Some(SentencePart::Proviso)
    } else if t == "各号列記以外の部分"@ {
        Some(SentencePart::Chapeau)
    } else if t == "本文"@ {
        Some(SentencePart::Main)
    } else if t == "前段"@ {
        Some(SentencePart::Front)
    } else if t == "後段"@ {
        Some(SentencePart::Back)
    } else {
        None
    }
}

/// What may end a place: nothing, `各号`, a part of the sentence, or `各号` and a part.
/// `None` when `t` is none of these.
pub open spec fn tail_part(t: Seq<char>) -> Option<Option<SentencePart>> {
    if t.len() == 0 || t == "各号"@ {
        Some(None)
    } else if part_named(t) is Some {
        Some(part_named(t))
    } else if starts_with(t, "各号"@) && part_named(t.skip(2)) is Some {
        Some(part_named(t.skip(2)))
    } else {
        None
    }
}

/// Where the article starts (after `附則`).
pub open spec fn pos_article(c: Seq<char>) -> int {
    if pair_at(c, 0, '附', '則') {
        2
    } else {
        0
    }
}

/// Where the paragraph starts.
pub open spec fn pos_para(c: Seq<char>) -> int {
    let p = pos_article(c);
    if numbered_at(c, p, '条') {
        branch_end(c, after_number(c, p))
    } else if pair_at(c, p, '同', '条') {
        p + 2
    } else {
        p
    }
}

/// Where the item starts.
pub open spec fn pos_item(c: Seq<char>) -> int {
    let p = pos_para(c);
    if numbered_at(c, p, '項') {
        after_number(c, p)
    } else if pair_at(c, p, '同', '項') {
        p + 2
    } else {
        p
    }
}

/// Where the sub-item starts.
pub open spec fn pos_sub(c: Seq<char>) -> int {
    let p = pos_item(c);
    if numbered_at(c, p, '号') {
        branch_end(c, after_number(c, p))
    } else if pair_at(c, p, '同', '号') {
        p + 2
    } else {
        p
    }
}

/// Where the sub-item ends.
pub open spec fn pos_tail(c: Seq<char>) -> int {
    sub_end(c, pos_sub(c))
}

pub proof fn lemma_positions(c: Seq<char>)
    ensures
        0 <= pos_article(c) <= pos_para(c) <= pos_item(c) <= pos_sub(c) <= pos_tail(c) <= c.len(),
{
    let p = pos_article(c);
    if numbered_at(c, p, '条') {
        lemma_numeral_end(c, p + 1);
        lemma_branch_end(c, after_number(c, p));
    }
    let q = pos_para(c);
    if numbered_at(c, q, '項') {
        lemma_numeral_end(c, q + 1);
    }
    let r = pos_item(c);
    if numbered_at(c, r, '号') {
        lemma_numeral_end(c, r + 1);
        lemma_branch_end(c, after_number(c, r));
    }
    lemma_sub_end(c, pos_sub(c));
}

/// How a place names its paragraph.
pub enum ParaForm {
    Absent,
    /// `同項`.
    Same,
    Num(nat),
}

/// How a place names its item.
pub enum ItemForm {
    Absent,
    /// `同号`.
    Same,
    /// `第五号の二` is `[5, 2]`.
    Num(Seq<nat>),
}

/// What a place says, part by part.
pub struct PlaceForm {
    /// It starts with `附則`.
    pub suppl: bool,
    /// `第N条の…` as its number and branch numbers; `None` for `同条` or no article.
    pub article: Option<(nat, Seq<nat>)>,
    pub para: ParaForm,
    pub item: ItemForm,
    pub sub: Option<Seq<char>>,
    pub part: Option<SentencePart>,
}

/// What the place `c` says, or `None` when `c` is not a place.
pub open spec fn place_form(c: Seq<char>) -> Option<PlaceForm> {
    match tail_part(c.skip(pos_tail(c))) {
        None => None,
        Some(part) => Some(
            PlaceForm {
                suppl: pos_article(c) == 2,
                article: if numbered_at(c, pos_article(c), '条') {
                    Some(
                        (
                            number_at(c, pos_article(c)),
                            branch_values(c, after_number(c, pos_article(c))),
                        ),
                    )
                } else {
                    None
                },
                para: if numbered_at(c, pos_para(c), '項') {
                    ParaForm::Num(number_at(c, pos_para(c)))
                } else if pair_at(c, pos_para(c), '同', '項') {
                    ParaForm::Same
                } else {
                    ParaForm::Absent
                },
                item: if numbered_at(c, pos_item(c), '号') {
                    ItemForm::Num(
                        seq![number_at(c, pos_item(c))] + branch_values(
                            c,
                            after_number(c, pos_item(c)),
                        ),
                    )
                } else if pair_at(c, pos_item(c), '同', '号') {
                    ItemForm::Same
                } else {
                    ItemForm::Absent
                },
                sub: if pos_tail(c) > pos_sub(c) {
                    Some(c.subrange(pos_sub(c), pos_tail(c)))
                } else {
                    None
                },
                part,
            },
        ),
    }
}

// ---------------------------------------------------------------------------------------
// Executable scanners

pub(crate) fn numeral_char(ch: char) -> (r: bool)
    ensures
        r == is_numeral(ch),
{
    ch == '一' || ch == '二' || ch == '三' || ch == '四' || ch == '五' || ch == '六' || ch == '七'
        || ch == '八' || ch == '九' || ch == '十' || ch == '百' || ch == '千'
}

/// The end of the run of numeral characters from `i`.
pub fn numeral_end_at(c: &Vec<char>, i: usize) -> (e: usize)
    requires
        i <= c.len(),
    ensures
        e == numeral_end(c@, i as int),
        i <= e <= c.len(),
{
    let mut j = i;
    while j < c.len() && numeral_char(c[j])
        invariant
            i <= j <= c.len(),
            numeral_end(c@, i as int) == numeral_end(c@, j as int),
        decreases c.len() - j,
    {
        j = j + 1;
    }
    j
}

/// The value of the numeral `c[lo..hi]`, read with `u64` arithmetic and capped at
/// `u32::MAX`.
pub fn kanji_to_u32(c: &Vec<char>, lo: usize, hi: usize) -> (v: u32)
    requires
        lo <= hi <= c.len(),
    ensures
        v == numeral_value(c@.subrange(lo as int, hi as int)),
{
    let mut n: u64 = 0;
    let mut cur: u64 = 0;
    let mut over = false;
    let mut k = lo;
    assert(c@.subrange(lo as int, lo as int) =~= Seq::<char>::empty());
    while k < hi
        invariant
            lo <= k <= hi <= c.len(),
            !over ==> (n as int, cur as int) == numeral_state(c@.subrange(lo as int, k as int)),
            over ==> numeral_state(c@.subrange(lo as int, k as int)).0 > u32::MAX,
            n <= u32::MAX,
            cur <= 9,
        decreases hi - k,
    {
        let ch = c[k];
        let ghost pre = c@.subrange(lo as int, k as int);
        let ghost ext = c@.subrange(lo as int, k + 1);
        assert(ext.drop_last() =~= pre);
        assert(ext.last() == ch);
        proof {
            lemma_numeral_total_grows(ext);
        }
        if !over {
            if ch == '十' || ch == '百' || ch == '千' {
                let m: u64 = if cur == 0 { 1 } else { cur };
                let add: u64 = if ch == '十' { m * 10 } else if ch == '百' { m * 100 } else { m * 1000 };
                if n + add > 4294967295 {
                    over = true;
                } else {
                    n = n + add;
                }
                cur = 0;
            } else {
                cur = if ch == '一' { 1 } else if ch == '二' { 2 } else if ch == '三' { 3 } else if ch
                    == '四' { 4 } else if ch == '五' { 5 } else if ch == '六' { 6 } else if ch == '七' {
                    7
                } else if ch == '八' { 8 } else if ch == '九' { 9 } else { 0 };
            }
        }
        k = k + 1;
    }
    proof {
        lemma_numeral_state(c@.subrange(lo as int, hi as int));
    }
    if over || n + cur > 4294967295 {
        4294967295
    } else {
        (n + cur) as u32
    }
}

/// The end and the values of the branch numbers from `i`.
pub fn branch_scan(c: &Vec<char>, i: usize) -> (r: (usize, Vec<u32>))
    requires
        i <= c.len(),
    ensures
        r.0 == branch_end(c@, i as int),
        r.1@.map_values(|x: u32| x as nat) == branch_values(c@, i as int),
{
    let mut j = i;
    let mut vals: Vec<u32> = Vec::new();
    while j < c.len() && c[j] == 'の' && numeral_end_at(c, j + 1) > j + 1
        invariant
            i <= j <= c.len(),
            branch_end(c@, i as int) == branch_end(c@, j as int),
            branch_values(c@, i as int) == vals@.map_values(|x: u32| x as nat) + branch_values(
                c@,
                j as int,
            ),
        decreases c.len() - j,
    {
        let e = numeral_end_at(c, j + 1);
        let v = kanji_to_u32(c, j + 1, e);
        let ghost old_vals = vals@;
        vals.push(v);
        assert(vals@.map_values(|x: u32| x as nat) =~= old_vals.map_values(|x: u32| x as nat)
            + seq![v as nat]);
        assert(branch_values(c@, j as int) == seq![v as nat] + branch_values(c@, e as int));
        assert(branch_values(c@, i as int) =~= vals@.map_values(|x: u32| x as nat)
            + branch_values(c@, e as int));
        j = e;
    }
    (j, vals)
}

/// Whether `c[p..]` starts with `a`, `b`.
pub(crate) fn pair_at_exec(c: &Vec<char>, p: usize, a: char, b: char) -> (r: bool)
    ensures
        r == pair_at(c@, p as int, a, b),
{
    p < c.len() && p + 1 < c.len() && c[p] == a && c[p + 1] == b
}

/// Whether `第`, a numeral and `kind` stand at `p`; and where the numeral ends.
pub fn numbered_at_exec(c: &Vec<char>, p: usize, kind: char) -> (r: (bool, usize))
    requires
        p <= c.len(),
    ensures
        r.0 == numbered_at(c@, p as int, kind),
        r.0 ==> r.1 == numeral_end(c@, p + 1) && r.1 < c.len(),
{
    if p < c.len() && c[p] == '第' {
        let e = numeral_end_at(c, p + 1);
        (e > p + 1 && e < c.len() && c[e] == kind, e)
    } else {
        (false, p)
    }
}

/// Whether the characters from `p` on are exactly `lit`.
pub fn rest_is(c: &Vec<char>, p: usize, lit: &str) -> (r: bool)
    requires
        p <= c.len(),
    ensures
        r == (c@.skip(p as int) == lit@),
{
    let n = chars_of(lit).len();
    if c.len() - p != n {
        return false;
    }
    let r = has_at(c.as_slice(), p, lit);
    assert(c@.skip(p as int).take(n as int) =~= c@.skip(p as int));
    r
}

fn label_end_at(c: &Vec<char>, i: usize) -> (r: usize)
    requires
        i <= c.len(),
    ensures
        label_end(c@, i as int) >= 0 ==> r == label_end(c@, i as int),
        label_end(c@, i as int) < 0 ==> r == i,
{
    if i < c.len() && (c[i] == '(' || c[i] == '（') {
        let mut j = i + 1;
        while j < c.len() && !(c[j] == ')' || c[j] == '）' || c[j] == '「' || c[j] == '」' || c[j]
            == '、')
            invariant
                i < j <= c.len(),
                label_stop(c@, i + 1) == label_stop(c@, j as int),
            decreases c.len() - j,
        {
            j = j + 1;
        }
        if j < c.len() && (c[j] == ')' || c[j] == '）') && 2 <= j - i && j - i <= 7 {
            j + 1
        } else {
            i
        }
    } else {
        i
    }
}

fn labels_end_at(c: &Vec<char>, i: usize) -> (r: usize)
    requires
        i <= c.len(),
    ensures
        r == labels_end(c@, i as int),
{
    let mut j = i;
    while j < c.len() && label_end_at(c, j) > j
        invariant
            i <= j <= c.len(),
            labels_end(c@, i as int) == labels_end(c@, j as int),
        decreases c.len() - j,
    {
        proof {
            lemma_label_end(c@, j as int);
        }
        j = label_end_at(c, j);
    }
    proof {
        lemma_label_end(c@, j as int);
        if j == c.len() {
            assert(label_end(c@, j as int) == -1);
        }
    }
    j
}

pub(crate) fn is_kana(ch: char) -> (r: bool)
    ensures
        r == kana_seq().contains(ch),
{
    let ks = crate::parse::kana_table();
    let mut i: usize = 0;
    while i < ks.len()
        invariant
            i <= ks.len(),
            ks@ == kana_seq(),
            forall|k: int| 0 <= k < i ==> ks@[k] != ch,
        decreases ks.len() - i,
    {
        if ks[i] == ch {
            assert(kana_seq()[i as int] == ch);
            return true;
        }
        i = i + 1;
    }
    false
}

fn sub_end_at(c: &Vec<char>, i: usize) -> (r: usize)
    requires
        i <= c.len(),
    ensures
        r == sub_end(c@, i as int),
{
    if i < c.len() && is_kana(c[i]) {
        labels_end_at(c, i + 1)
    } else if label_end_at(c, i) > i {
        proof {
            lemma_label_end(c@, i as int);
        }
        labels_end_at(c, i)
    } else {
        proof {
            lemma_label_end(c@, i as int);
        }
        i
    }
}

fn part_named_at(c: &Vec<char>, p: usize) -> (r: Option<SentencePart>)
    requires
        p <= c.len(),
    ensures
        r == part_named(c@.skip(p as int)),
{
    if rest_is(c, p, "ただし書") {
        Some(SentencePart::Proviso)
    } else if rest_is(c, p, "各号列記以外の部分") {
        Some(SentencePart::Chapeau)
    } else if rest_is(c, p, "本文") {
        Some(SentencePart::Main)
    } else if rest_is(c, p, "前段") {
        Some(SentencePart::Front)
    } else if rest_is(c, p, "後段") {
        Some(SentencePart::Back)
    } else {
        None
    }
}

fn tail_part_at(c: &Vec<char>, p: usize) -> (r: Option<Option<SentencePart>>)
    requires
        p <= c.len(),
    ensures
        r == tail_part(c@.skip(p as int)),
{
    proof {
        reveal_strlit("各号");
    }
    if p == c.len() || rest_is(c, p, "各号") {
        return Some(None);
    }
    let named = part_named_at(c, p);
    if named.is_some() {
        return Some(named);
    }
    if has_at(c.as_slice(), p, "各号") {
        assert(c@.skip(p as int).skip(2) =~= c@.skip(p + 2));
        let after = part_named_at(c, p + 2);
        if after.is_some() {
            return Some(after);
        }
    }
    None
}

/// The positions at which the parts of the place `c` start, and how it ends.
pub struct PlaceScan {
    pub article: usize,
    pub para: usize,
    pub item: usize,
    pub sub: usize,
    pub tail: usize,
    pub part: Option<Option<SentencePart>>,
}

/// Reads the place `c` part by part (see [`place_form`]).
pub fn scan_place(c: &Vec<char>) -> (r: PlaceScan)
    ensures
        r.article == pos_article(c@),
        r.para == pos_para(c@),
        r.item == pos_item(c@),
        r.sub == pos_sub(c@),
        r.tail == pos_tail(c@),
        r.part == tail_part(c@.skip(pos_tail(c@))),
{
    proof {
        lemma_positions(c@);
    }
    let pa: usize = if pair_at_exec(c, 0, '附', '則') { 2 } else { 0 };
    let (art, ae) = numbered_at_exec(c, pa, '条');
    let pp: usize = if art {
        proof {
            lemma_numeral_end(c@, pa + 1);
        }
        branch_scan_end(c, ae + 1)
    } else if pair_at_exec(c, pa, '同', '条') {
        pa + 2
    } else {
        pa
    };
    let (para, pe) = numbered_at_exec(c, pp, '項');
    let pi: usize = if para {
        pe + 1
    } else if pair_at_exec(c, pp, '同', '項') {
        pp + 2
    } else {
        pp
    };
    let (item, ie) = numbered_at_exec(c, pi, '号');
    let ps: usize = if item {
        branch_scan_end(c, ie + 1)
    } else if pair_at_exec(c, pi, '同', '号') {
        pi + 2
    } else {
        pi
    };
    let pt = sub_end_at(c, ps);
    let part = tail_part_at(c, pt);
    PlaceScan { article: pa, para: pp, item: pi, sub: ps, tail: pt, part }
}

/// The end of the branch numbers from `i` (their values unread).
pub(crate) fn branch_scan_end(c: &Vec<char>, i: usize) -> (r: usize)
    requires
        i <= c.len(),
    ensures
        r == branch_end(c@, i as int),
        i <= r <= c.len(),
{
    proof {
        lemma_branch_end(c@, i as int);
    }
    let mut j = i;
    while j < c.len() && c[j] == 'の' && numeral_end_at(c, j + 1) > j + 1
        invariant
            i <= j <= c.len(),
            branch_end(c@, i as int) == branch_end(c@, j as int),
        decreases c.len() - j,
    {
        j = numeral_end_at(c, j + 1);
    }
    j
}

} // verus!
