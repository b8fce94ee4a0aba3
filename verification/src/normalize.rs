//! Old ways of writing amendment instructions brought to the present ones, outside the
//! quoted phrases (those are the text of the amended statute and stay as they are):
//! `第二十七条ノ二` becomes `第二十七条の二`, `但書` becomes `ただし書`, `左の` becomes `次の`,
//! `乃至` becomes `から…まで`, half-width punctuation becomes full-width, and so on.

use vstd::prelude::*;
use crate::locs::{container_end, lemma_container_end};
use crate::parse::kana_seq;
use crate::place::{
    branch_end, branch_scan_end, is_closer, is_kana, is_opener, lemma_branch_end, lemma_numeral_end,
    numeral_end, numeral_end_at, pair_at,
};
use crate::rewrite::{
    push_range, push_text, remove_chars, replace_all, replace_chain, replace_each, spec_replace,
    without_chars,
};
use crate::text::{chars_of, starts_with};

verus! {

/// `条`, `項` or `号` at `p`.
pub open spec fn kind_at(s: Seq<char>, p: int) -> bool {
    0 <= p < s.len() && (s[p] == '条' || s[p] == '項' || s[p] == '号')
}

/// A kanji numeral starts at `p`.
pub open spec fn num_at(s: Seq<char>, p: int) -> bool {
    0 <= p <= s.len() && numeral_end(s, p) > p
}

/// The end of `第N条`, `第N項` or `第N号` with its branch numbers (`の二`) at `p`, or -1.
pub open spec fn numbered_ref_end(s: Seq<char>, p: int) -> int {
    if 0 <= p < s.len() && s[p] == '第' && num_at(s, p + 1) && kind_at(s, numeral_end(s, p + 1)) {
        branch_end(s, numeral_end(s, p + 1) + 1)
    } else {
        -1
    }
}

pub proof fn lemma_numbered_ref_end(s: Seq<char>, p: int)
    ensures
        numbered_ref_end(s, p) == -1 || p < numbered_ref_end(s, p) <= s.len(),
{
    if 0 <= p < s.len() && s[p] == '第' && num_at(s, p + 1) {
        lemma_numeral_end(s, p + 1);
        if kind_at(s, numeral_end(s, p + 1)) {
            lemma_branch_end(s, numeral_end(s, p + 1) + 1);
        }
    }
}

/// At `j` stands `ノ` or `の` and a numeral.
pub open spec fn kbranch_step(s: Seq<char>, j: int) -> bool {
    0 <= j < s.len() && (s[j] == 'ノ' || s[j] == 'の') && numeral_end(s, j + 1) > j + 1
}

/// The end of the branch numbers written with `ノ` or `の` from `j`.
pub open spec fn kbranch_end(s: Seq<char>, j: int) -> int
    decreases s.len() - j,
{
    if kbranch_step(s, j) {
        proof {
            lemma_numeral_end(s, j + 1);
        }
        kbranch_end(s, numeral_end(s, j + 1))
    } else {
        j
    }
}

pub proof fn lemma_kbranch_end(s: Seq<char>, j: int)
    requires
        0 <= j <= s.len(),
    ensures
        j <= kbranch_end(s, j) <= s.len(),
    decreases s.len() - j,
{
    if kbranch_step(s, j) {
        lemma_numeral_end(s, j + 1);
        lemma_kbranch_end(s, numeral_end(s, j + 1));
    }
}

/// `ノ` written as `の`.
pub open spec fn no_of(c: char) -> char {
    if c == 'ノ' {
        'の'
    } else {
        c
    }
}

/// The text with each `ノ` written as `の`.
pub open spec fn no_forms(t: Seq<char>) -> Seq<char> {
    t.map_values(|c: char| no_of(c))
}

/// The rewriting rules applied to the text outside the quoted phrases.
#[derive(Clone, Copy)]
pub enum Rule {
    /// `第二項乃至第四項` becomes `第二項から第四項まで`.
    Through,
    /// `及第` becomes `及び第` (also before `同`, `附則`, `別表`).
    OldAnd,
    /// `第二十八ノ二を` becomes `第二十八条の二を` (an article whose `条` was left out).
    BranchWithoutJo,
    /// `第六ノ六ノ二号` becomes `第六号の六の二`.
    ItemBranch,
    /// `第三項を第二項に改め` becomes `第三項を第二項とし` (a renumbering).
    Renumbering,
    /// `条の二見出し` becomes `条の二の見出し`.
    BranchCaption,
    /// `同条十二号` becomes `同条第十二号`.
    SameWithoutDai,
    /// `まで二項ずつ繰り` becomes `までを二項ずつ繰り`.
    ShiftWithoutWo,
    /// `第九十四条及び九十五条` becomes `第九十四条及び第九十五条`.
    AndWithoutDai,
    /// `を六章と` becomes `を第六章と`.
    ContainerWithoutDai,
    /// `第二頂` becomes `第二項`.
    TypoParagraph,
    /// `号（イ）` becomes `号イ`.
    BracketedSubItem,
    /// `加う`, `改む` at the end become `加える`, `改める`.
    OldVerb,
    /// A hiragana `へ` that stands for the sub-item `ヘ` becomes `ヘ`.
    KanaHe,
    /// `」を、「A」に` becomes `」を「A」に`.
    CommaAfterWo,
}

/// `を`, `の`, `中`, `号`, `ニ`, `ホ`, `、`, `及`, `び`: what may stand before a sub-item `へ`.
pub open spec fn before_he(c: char) -> bool {
    c == 'を' || c == 'の' || c == '中' || c == '号' || c == 'ニ' || c == 'ホ' || c == '、' || c == '及'
        || c == 'び'
}

/// `を`, `と`, `か`, `の`, `中`: what may stand after a sub-item `へ`.
pub open spec fn after_he(c: char) -> bool {
    c == 'を' || c == 'と' || c == 'か' || c == 'の' || c == '中'
}

/// The end of a sub-item `へ` at `p` (and of the character after it), or -1.
pub open spec fn he_end(s: Seq<char>, p: int) -> int {
    if 0 <= p < s.len() && s[p] == 'へ' {
        if p + 1 == s.len() {
            p + 1
        } else if after_he(s[p + 1]) {
            p + 2
        } else {
            -1
        }
    } else {
        -1
    }
}

/// The end of `第N[ノの]Nを` at `p`, or -1.
pub open spec fn jo_tail_end(s: Seq<char>, p: int) -> int {
    if 0 <= p < s.len() && s[p] == '第' && num_at(s, p + 1) {
        let n1 = numeral_end(s, p + 1);
        if n1 < s.len() && (s[n1] == 'ノ' || s[n1] == 'の') && num_at(s, n1 + 1) {
            let n2 = numeral_end(s, n1 + 1);
            if n2 < s.len() && s[n2] == 'を' {
                n2 + 1
            } else {
                -1
            }
        } else {
            -1
        }
    } else {
        -1
    }
}

/// What `第N[ノの]Nを` at `p` becomes: `第N条のNを`.
pub open spec fn jo_tail_text(s: Seq<char>, p: int) -> Seq<char> {
    let n1 = numeral_end(s, p + 1);
    let n2 = numeral_end(s, n1 + 1);
    "第"@ + s.subrange(p + 1, n1) + "条の"@ + s.subrange(n1 + 1, n2) + "を"@
}

/// The first position from `j` on that holds a quote mark (`「` or `」`).
pub open spec fn quote_stop(s: Seq<char>, j: int) -> int
    decreases s.len() - j,
{
    if 0 <= j < s.len() && s[j] != '「' && s[j] != '」' {
        quote_stop(s, j + 1)
    } else {
        j
    }
}

/// The match of the rule `r` that starts at `i`: where it ends and what replaces it.
pub open spec fn rule_match(r: Rule, s: Seq<char>, i: int) -> Option<(int, Seq<char>)> {
    match r {
        Rule::Through => if pair_at(s, i, '乃', '至') && numbered_ref_end(s, i + 2) >= 0 {
            Some(
                (
                    numbered_ref_end(s, i + 2),
                    "から"@ + s.subrange(i + 2, numbered_ref_end(s, i + 2)) + "まで"@,
                ),
            )
        } else {
            None
        },
        Rule::OldAnd => if 0 <= i && i + 1 < s.len() && s[i] == '及' && (s[i + 1] == '第' || s[i
            + 1] == '同') {
            Some((i + 2, "及び"@ + seq![s[i + 1]]))
        } else if 0 <= i < s.len() && s[i] == '及' && (pair_at(s, i + 1, '附', '則') || pair_at(
            s,
            i + 1,
            '別',
            '表',
        )) {
            Some((i + 3, "及び"@ + s.subrange(i + 1, i + 3)))
        } else {
            None
        },
        Rule::BranchWithoutJo => if i == 0 && jo_tail_end(s, 0) >= 0 {
            Some((jo_tail_end(s, 0), jo_tail_text(s, 0)))
        } else if 0 <= i < s.len() && !(s[i] == '条' || s[i] == '項' || s[i] == '号' || s[i] == '表')
            && jo_tail_end(s, i + 1) >= 0 {
            Some((jo_tail_end(s, i + 1), seq![s[i]] + jo_tail_text(s, i + 1)))
        } else {
            None
        },
        Rule::ItemBranch => if 0 <= i < s.len() && s[i] == '第' && num_at(s, i + 1) {
            let n1 = numeral_end(s, i + 1);
            let kb = kbranch_end(s, n1);
            if kb > n1 && kb < s.len() && s[kb] == '号' {
                Some(
                    (
                        kb + 1,
                        "第"@ + s.subrange(i + 1, n1) + "号"@ + no_forms(s.subrange(n1, kb)),
                    ),
                )
            } else {
                None
            }
        } else {
            None
        },
        Rule::Renumbering => {
            let e1 = numbered_ref_end(s, i);
            if e1 >= 0 && e1 < s.len() && s[e1] == 'を' {
                let p = e1 + 1;
                let q = if pair_at(s, p, '同', '条') || pair_at(s, p, '同', '項') {
                    p + 2
                } else {
                    p
                };
                let e2 = numbered_ref_end(s, q);
                if e2 >= 0 && e2 + 2 < s.len() && s[e2] == 'に' && s[e2 + 1] == '改' && s[e2 + 2]
                    == 'め' {
                    let ru = e2 + 3 < s.len() && s[e2 + 3] == 'る';
                    Some(
                        (
                            if ru {
                                e2 + 4
                            } else {
                                e2 + 3
                            },
                            s.subrange(i, e1) + "を"@ + s.subrange(p, e2) + if ru {
                                "とする"@
                            } else {
                                "とし"@
                            },
                        ),
                    )
                } else {
                    None
                }
            } else {
                None
            }
        },
        Rule::BranchCaption => if pair_at(s, i, '条', 'の') && num_at(s, i + 2) && numeral_end(
            s,
            i + 2,
        ) + 2 < s.len() && s[numeral_end(s, i + 2)] == '見' && s[numeral_end(s, i + 2) + 1] == '出'
            && s[numeral_end(s, i + 2) + 2] == 'し' {
            Some((numeral_end(s, i + 2) + 3, s.subrange(i, numeral_end(s, i + 2)) + "の見出し"@))
        } else {
            None
        },
        Rule::SameWithoutDai => if (pair_at(s, i, '同', '条') || pair_at(s, i, '同', '項')) && num_at(
            s,
            i + 2,
        ) && numeral_end(s, i + 2) < s.len() && (s[numeral_end(s, i + 2)] == '号' || s[numeral_end(
            s,
            i + 2,
        )] == '項') {
            Some(
                (
                    numeral_end(s, i + 2) + 1,
                    s.subrange(i, i + 2) + "第"@ + s.subrange(i + 2, numeral_end(s, i + 2) + 1),
                ),
            )
        } else {
            None
        },
        Rule::ShiftWithoutWo => {
            let ne = numeral_end(s, i + 2);
            if pair_at(s, i, 'ま', 'で') && num_at(s, i + 2) && kind_at(s, ne) && ne + 4 < s.len()
                && s[ne + 1] == 'ず' && s[ne + 2] == 'つ' && s[ne + 3] == '繰' && s[ne + 4] == 'り' {
                Some((ne + 5, "までを"@ + s.subrange(i + 2, ne + 5)))
            } else {
                None
            }
        },
        Rule::AndWithoutDai => {
            let e1 = numbered_ref_end(s, i);
            if e1 >= 0 && pair_at(s, e1, '及', 'び') && num_at(s, e1 + 2) && kind_at(
                s,
                numeral_end(s, e1 + 2),
            ) {
                Some(
                    (
                        numeral_end(s, e1 + 2) + 1,
                        s.subrange(i, e1) + "及び第"@ + s.subrange(e1 + 2, numeral_end(s, e1 + 2) + 1),
                    ),
                )
            } else {
                None
            }
        },
        Rule::ContainerWithoutDai => {
            let ne = numeral_end(s, i + 1);
            if 0 <= i < s.len() && s[i] == 'を' && num_at(s, i + 1) && ne + 1 < s.len() && (s[ne]
                == '章' || s[ne] == '節' || s[ne] == '款') && s[ne + 1] == 'と' {
                Some((ne + 2, "を第"@ + s.subrange(i + 1, ne + 1) + "と"@))
            } else {
                None
            }
        },
        Rule::TypoParagraph => {
            let ne = numeral_end(s, i + 1);
            if 0 <= i < s.len() && s[i] == '第' && num_at(s, i + 1) && ne < s.len() && s[ne] == '頂' {
                Some((ne + 1, "第"@ + s.subrange(i + 1, ne) + "項"@))
            } else {
                None
            }
        },
        Rule::BracketedSubItem => if 0 <= i && i + 3 < s.len() && s[i] == '号' && is_opener(s[i + 1])
            && kana_seq().contains(s[i + 2]) && is_closer(s[i + 3]) {
            Some((i + 4, "号"@ + seq![s[i + 2]]))
        } else {
            None
        },
        Rule::OldVerb => if 0 <= i && i + 2 == s.len() && (s[i] == '加' || s[i] == '改') && (s[i + 1]
            == 'う' || s[i + 1] == 'む') {
            Some(
                (
                    i + 2,
                    if s[i] == '加' {
                        "加える"@
                    } else {
                        "改める"@
                    },
                ),
            )
        } else {
            None
        },
        Rule::KanaHe => if i == 0 && he_end(s, 0) >= 0 {
            Some((he_end(s, 0), "ヘ"@ + s.subrange(1, he_end(s, 0))))
        } else if 0 <= i < s.len() && before_he(s[i]) && he_end(s, i + 1) >= 0 {
            Some((he_end(s, i + 1), seq![s[i]] + "ヘ"@ + s.subrange(i + 2, he_end(s, i + 1))))
        } else {
            None
        },
        Rule::CommaAfterWo => {
            let q = quote_stop(s, i + 4);
            if 0 <= i && i + 3 < s.len() && s[i] == '」' && s[i + 1] == 'を' && s[i + 2] == '、'
                && s[i + 3] == '「' && q + 1 < s.len() && s[q] == '」' && s[q + 1] == 'に' {
                Some((q + 2, "」を「"@ + s.subrange(i + 4, q) + "」に"@))
            } else {
                None
            }
        },
    }
}

/// `s` from `i` on with the matches of the rule `r` replaced, taken from left to right
/// without overlapping (as `Regex::replace_all`).
pub open spec fn rewrite_from(r: Rule, s: Seq<char>, i: int) -> Seq<char>
    decreases s.len() - i,
{
    if i < 0 || i >= s.len() {
        Seq::empty()
    } else {
        let m = rule_match(r, s, i);
        if m is Some && i < m.unwrap().0 <= s.len() {
            m.unwrap().1 + rewrite_from(r, s, m.unwrap().0)
        } else {
            seq![s[i]] + rewrite_from(r, s, i + 1)
        }
    }
}

/// `s` with the matches of the rule `r` replaced.
pub open spec fn rewrite(r: Rule, s: Seq<char>) -> Seq<char> {
    rewrite_from(r, s, 0)
}

// ---------------------------------------------------------------------------------------
// Executable matching

/// The exec match `r` is the match `m`.
pub open spec fn match_is(r: Option<(usize, Vec<char>)>, m: Option<(int, Seq<char>)>) -> bool {
    match r {
        Some((e, v)) => m == Some((e as int, v@)),
        None => m is None,
    }
}

fn numbered_ref_end_exec(s: &Vec<char>, p: usize) -> (r: Option<usize>)
    ensures
        match r {
            Some(e) => numbered_ref_end(s@, p as int) == e as int && e <= s.len(),
            None => numbered_ref_end(s@, p as int) == -1,
        },
{
    if p < s.len() && s[p] == '第' {
        let ne = numeral_end_at(s, p + 1);
        if ne > p + 1 && ne < s.len() && (s[ne] == '条' || s[ne] == '項' || s[ne] == '号') {
            return Some(branch_scan_end(s, ne + 1));
        }
    }
    None
}

fn kbranch_end_exec(s: &Vec<char>, j: usize) -> (r: usize)
    requires
        j <= s.len(),
    ensures
        r == kbranch_end(s@, j as int),
        j <= r <= s.len(),
{
    proof {
        lemma_kbranch_end(s@, j as int);
    }
    let mut k = j;
    while k < s.len() && (s[k] == 'ノ' || s[k] == 'の') && numeral_end_at(s, k + 1) > k + 1
        invariant
            j <= k <= s.len(),
            kbranch_end(s@, j as int) == kbranch_end(s@, k as int),
        decreases s.len() - k,
    {
        k = numeral_end_at(s, k + 1);
    }
    k
}

fn quote_stop_exec(s: &Vec<char>, j: usize) -> (r: usize)
    requires
        j <= s.len(),
    ensures
        r == quote_stop(s@, j as int),
        j <= r <= s.len(),
{
    let mut k = j;
    while k < s.len() && s[k] != '「' && s[k] != '」'
        invariant
            j <= k <= s.len(),
            quote_stop(s@, j as int) == quote_stop(s@, k as int),
        decreases s.len() - k,
    {
        k = k + 1;
    }
    k
}

fn he_end_exec(s: &Vec<char>, p: usize) -> (r: Option<usize>)
    ensures
        match r {
            Some(e) => he_end(s@, p as int) == e as int && e <= s.len(),
            None => he_end(s@, p as int) == -1,
        },
{
    if p < s.len() && s[p] == 'へ' {
        if p + 1 == s.len() {
            Some(p + 1)
        } else {
            let c = s[p + 1];
            if c == 'を' || c == 'と' || c == 'か' || c == 'の' || c == '中' {
                Some(p + 2)
            } else {
                None
            }
        }
    } else {
        None
    }
}

fn jo_tail_end_exec(s: &Vec<char>, p: usize) -> (r: Option<(usize, usize, usize)>)
    ensures
        match r {
            Some((e, n1, n2)) => jo_tail_end(s@, p as int) == e as int && n1 == numeral_end(s@, p + 1)
                && n2 == numeral_end(s@, n1 + 1) && p < n1 < n2 < e <= s.len(),
            None => jo_tail_end(s@, p as int) == -1,
        },
{
    if p < s.len() && s[p] == '第' {
        let n1 = numeral_end_at(s, p + 1);
        if n1 > p + 1 && n1 < s.len() && (s[n1] == 'ノ' || s[n1] == 'の') {
            let n2 = numeral_end_at(s, n1 + 1);
            if n2 > n1 + 1 && n2 < s.len() && s[n2] == 'を' {
                return Some((n2 + 1, n1, n2));
            }
        }
    }
    None
}

fn jo_tail_text_exec(s: &Vec<char>, out: &mut Vec<char>, p: usize, n1: usize, n2: usize)
    requires
        p < n1 < n2 <= s.len(),
        n1 == numeral_end(s@, p + 1),
        n2 == numeral_end(s@, n1 + 1),
    ensures
        final(out)@ == old(out)@ + jo_tail_text(s@, p as int),
{
    let ghost o = out@;
    push_text(out, "第");
    push_range(out, s, p + 1, n1);
    push_text(out, "条の");
    push_range(out, s, n1 + 1, n2);
    push_text(out, "を");
    assert(out@ =~= o + jo_tail_text(s@, p as int));
}

fn push_no_forms(out: &mut Vec<char>, s: &Vec<char>, lo: usize, hi: usize)
    requires
        lo <= hi <= s.len(),
    ensures
        final(out)@ == old(out)@ + no_forms(s@.subrange(lo as int, hi as int)),
{
    let ghost o = old(out)@;
    let mut k = lo;
    while k < hi
        invariant
            lo <= k <= hi <= s.len(),
            out@ == o + no_forms(s@.subrange(lo as int, k as int)),
        decreases hi - k,
    {
        let c = s[k];
        out.push(if c == 'ノ' { 'の' } else { c });
        assert(no_forms(s@.subrange(lo as int, k + 1)) =~= no_forms(s@.subrange(lo as int, k as int))
            + seq![no_of(c)]);
        k = k + 1;
    }
}

fn match_through(s: &Vec<char>, i: usize) -> (r: Option<(usize, Vec<char>)>)
    ensures
        match_is(r, rule_match(Rule::Through, s@, i as int)),
{
    if i < s.len() && s.len() - i > 1 && s[i] == '乃' && s[i + 1] == '至' {
        if let Some(e) = numbered_ref_end_exec(s, i + 2) {
            proof {
                lemma_numbered_ref_end(s@, i + 2);
            }
            let mut v: Vec<char> = Vec::new();
            push_text(&mut v, "から");
            push_range(&mut v, s, i + 2, e);
            push_text(&mut v, "まで");
            assert(v@ =~= "から"@ + s@.subrange(i + 2, e as int) + "まで"@);
            return Some((e, v));
        }
    }
    None
}

fn match_old_and(s: &Vec<char>, i: usize) -> (r: Option<(usize, Vec<char>)>)
    ensures
        match_is(r, rule_match(Rule::OldAnd, s@, i as int)),
{
    if i < s.len() && s[i] == '及' && s.len() - i > 1 {
        let c = s[i + 1];
        if c == '第' || c == '同' {
            let mut v: Vec<char> = Vec::new();
            push_text(&mut v, "及び");
            v.push(c);
            assert(v@ =~= "及び"@ + seq![c]);
            return Some((i + 2, v));
        }
        if s.len() - i > 2 && ((c == '附' && s[i + 2] == '則') || (c == '別' && s[i + 2] == '表')) {
            let mut v: Vec<char> = Vec::new();
            push_text(&mut v, "及び");
            push_range(&mut v, s, i + 1, i + 3);
            assert(v@ =~= "及び"@ + s@.subrange(i + 1, i + 3));
            return Some((i + 3, v));
        }
    }
    None
}

fn match_branch_without_jo(s: &Vec<char>, i: usize) -> (r: Option<(usize, Vec<char>)>)
    requires
        i < s.len(),
    ensures
        match_is(r, rule_match(Rule::BranchWithoutJo, s@, i as int)),
{
    if i == 0 {
        if let Some((e, n1, n2)) = jo_tail_end_exec(s, 0) {
            let mut v: Vec<char> = Vec::new();
            jo_tail_text_exec(s, &mut v, 0, n1, n2);
            assert(v@ =~= jo_tail_text(s@, 0));
            return Some((e, v));
        }
    }
    let c = s[i];
    if !(c == '条' || c == '項' || c == '号' || c == '表') {
        if let Some((e, n1, n2)) = jo_tail_end_exec(s, i + 1) {
            let mut v: Vec<char> = Vec::new();
            v.push(c);
            jo_tail_text_exec(s, &mut v, i + 1, n1, n2);
            assert(v@ =~= seq![c] + jo_tail_text(s@, i + 1));
            return Some((e, v));
        }
    }
    None
}

fn match_item_branch(s: &Vec<char>, i: usize) -> (r: Option<(usize, Vec<char>)>)
    requires
        i < s.len(),
    ensures
        match_is(r, rule_match(Rule::ItemBranch, s@, i as int)),
{
    if s[i] == '第' {
        let n1 = numeral_end_at(s, i + 1);
        if n1 > i + 1 {
            let kb = kbranch_end_exec(s, n1);
            if kb > n1 && kb < s.len() && s[kb] == '号' {
                let mut v: Vec<char> = Vec::new();
                push_text(&mut v, "第");
                push_range(&mut v, s, i + 1, n1);
                push_text(&mut v, "号");
                push_no_forms(&mut v, s, n1, kb);
                assert(v@ =~= "第"@ + s@.subrange(i + 1, n1 as int) + "号"@ + no_forms(
                    s@.subrange(n1 as int, kb as int),
                ));
                return Some((kb + 1, v));
            }
        }
    }
    None
}

fn match_renumbering(s: &Vec<char>, i: usize) -> (r: Option<(usize, Vec<char>)>)
    requires
        i < s.len(),
    ensures
        match_is(r, rule_match(Rule::Renumbering, s@, i as int)),
{
    proof {
        lemma_numbered_ref_end(s@, i as int);
    }
    let e1 = match numbered_ref_end_exec(s, i) {
        Some(e) => e,
        None => {
            return None;
        },
    };
    if !(e1 < s.len() && s[e1] == 'を') {
        return None;
    }
    let p = e1 + 1;
    let q = if s.len() - p > 1 && s[p] == '同' && (s[p + 1] == '条' || s[p + 1] == '項') {
        p + 2
    } else {
        p
    };
    proof {
        lemma_numbered_ref_end(s@, q as int);
    }
    let e2 = match numbered_ref_end_exec(s, q) {
        Some(e) => e,
        None => {
            return None;
        },
    };
    if !(e2 < s.len() && s.len() - e2 > 2 && s[e2] == 'に' && s[e2 + 1] == '改' && s[e2 + 2] == 'め') {
        return None;
    }
    let ru = s.len() - e2 > 3 && s[e2 + 3] == 'る';
    let mut v: Vec<char> = Vec::new();
    push_range(&mut v, s, i, e1);
    push_text(&mut v, "を");
    push_range(&mut v, s, p, e2);
    if ru {
        push_text(&mut v, "とする");
    } else {
        push_text(&mut v, "とし");
    }
    assert(v@ =~= s@.subrange(i as int, e1 as int) + "を"@ + s@.subrange(p as int, e2 as int) + if ru {
        "とする"@
    } else {
        "とし"@
    });
    Some((if ru { e2 + 4 } else { e2 + 3 }, v))
}

fn match_branch_caption(s: &Vec<char>, i: usize) -> (r: Option<(usize, Vec<char>)>)
    requires
        i < s.len(),
    ensures
        match_is(r, rule_match(Rule::BranchCaption, s@, i as int)),
{
    if s.len() - i > 1 && s[i] == '条' && s[i + 1] == 'の' {
        let ne = numeral_end_at(s, i + 2);
        if ne > i + 2 && ne < s.len() && s.len() - ne > 2 && s[ne] == '見' && s[ne + 1] == '出' && s[ne
            + 2] == 'し' {
            let mut v: Vec<char> = Vec::new();
            push_range(&mut v, s, i, ne);
            push_text(&mut v, "の見出し");
            assert(v@ =~= s@.subrange(i as int, ne as int) + "の見出し"@);
            return Some((ne + 3, v));
        }
    }
    None
}

fn match_same_without_dai(s: &Vec<char>, i: usize) -> (r: Option<(usize, Vec<char>)>)
    requires
        i < s.len(),
    ensures
        match_is(r, rule_match(Rule::SameWithoutDai, s@, i as int)),
{
    if s.len() - i > 1 && s[i] == '同' && (s[i + 1] == '条' || s[i + 1] == '項') {
        let ne = numeral_end_at(s, i + 2);
        if ne > i + 2 && ne < s.len() && (s[ne] == '号' || s[ne] == '項') {
            let mut v: Vec<char> = Vec::new();
            push_range(&mut v, s, i, i + 2);
            push_text(&mut v, "第");
            push_range(&mut v, s, i + 2, ne + 1);
            assert(v@ =~= s@.subrange(i as int, i + 2) + "第"@ + s@.subrange(i + 2, ne + 1));
            return Some((ne + 1, v));
        }
    }
    None
}

fn match_shift_without_wo(s: &Vec<char>, i: usize) -> (r: Option<(usize, Vec<char>)>)
    requires
        i < s.len(),
    ensures
        match_is(r, rule_match(Rule::ShiftWithoutWo, s@, i as int)),
{
    if s.len() - i > 1 && s[i] == 'ま' && s[i + 1] == 'で' {
        let ne = numeral_end_at(s, i + 2);
        if ne > i + 2 && ne < s.len() && (s[ne] == '条' || s[ne] == '項' || s[ne] == '号') && s.len() - ne
            > 4 && s[ne + 1] == 'ず' && s[ne + 2] == 'つ' && s[ne + 3] == '繰' && s[ne + 4] == 'り' {
            let mut v: Vec<char> = Vec::new();
            push_text(&mut v, "までを");
            push_range(&mut v, s, i + 2, ne + 5);
            assert(v@ =~= "までを"@ + s@.subrange(i + 2, ne + 5));
            return Some((ne + 5, v));
        }
    }
    None
}

fn match_and_without_dai(s: &Vec<char>, i: usize) -> (r: Option<(usize, Vec<char>)>)
    requires
        i < s.len(),
    ensures
        match_is(r, rule_match(Rule::AndWithoutDai, s@, i as int)),
{
    proof {
        lemma_numbered_ref_end(s@, i as int);
    }
    if let Some(e1) = numbered_ref_end_exec(s, i) {
        if e1 < s.len() && s.len() - e1 > 1 && s[e1] == '及' && s[e1 + 1] == 'び' {
            let ne = numeral_end_at(s, e1 + 2);
            if ne > e1 + 2 && ne < s.len() && (s[ne] == '条' || s[ne] == '項' || s[ne] == '号') {
                let mut v: Vec<char> = Vec::new();
                push_range(&mut v, s, i, e1);
                push_text(&mut v, "及び第");
                push_range(&mut v, s, e1 + 2, ne + 1);
                assert(v@ =~= s@.subrange(i as int, e1 as int) + "及び第"@ + s@.subrange(e1 + 2, ne + 1));
                return Some((ne + 1, v));
            }
        }
    }
    None
}

fn match_container_without_dai(s: &Vec<char>, i: usize) -> (r: Option<(usize, Vec<char>)>)
    requires
        i < s.len(),
    ensures
        match_is(r, rule_match(Rule::ContainerWithoutDai, s@, i as int)),
{
    if s[i] == 'を' {
        let ne = numeral_end_at(s, i + 1);
        if ne > i + 1 && ne < s.len() && s.len() - ne > 1 && (s[ne] == '章' || s[ne] == '節' || s[ne]
            == '款') && s[ne + 1] == 'と' {
            let mut v: Vec<char> = Vec::new();
            push_text(&mut v, "を第");
            push_range(&mut v, s, i + 1, ne + 1);
            push_text(&mut v, "と");
            assert(v@ =~= "を第"@ + s@.subrange(i + 1, ne + 1) + "と"@);
            return Some((ne + 2, v));
        }
    }
    None
}

fn match_typo_paragraph(s: &Vec<char>, i: usize) -> (r: Option<(usize, Vec<char>)>)
    requires
        i < s.len(),
    ensures
        match_is(r, rule_match(Rule::TypoParagraph, s@, i as int)),
{
    if s[i] == '第' {
        let ne = numeral_end_at(s, i + 1);
        if ne > i + 1 && ne < s.len() && s[ne] == '頂' {
            let mut v: Vec<char> = Vec::new();
            push_text(&mut v, "第");
            push_range(&mut v, s, i + 1, ne);
            push_text(&mut v, "項");
            assert(v@ =~= "第"@ + s@.subrange(i + 1, ne as int) + "項"@);
            return Some((ne + 1, v));
        }
    }
    None
}

fn match_bracketed_sub_item(s: &Vec<char>, i: usize) -> (r: Option<(usize, Vec<char>)>)
    requires
        i < s.len(),
    ensures
        match_is(r, rule_match(Rule::BracketedSubItem, s@, i as int)),
{
    if s.len() - i > 3 && s[i] == '号' && (s[i + 1] == '(' || s[i + 1] == '（') && is_kana(s[i + 2]) && (
    s[i + 3] == ')' || s[i + 3] == '）') {
        let mut v: Vec<char> = Vec::new();
        push_text(&mut v, "号");
        v.push(s[i + 2]);
        assert(v@ =~= "号"@ + seq![s@[i + 2]]);
        return Some((i + 4, v));
    }
    None
}

fn match_old_verb(s: &Vec<char>, i: usize) -> (r: Option<(usize, Vec<char>)>)
    requires
        i < s.len(),
    ensures
        match_is(r, rule_match(Rule::OldVerb, s@, i as int)),
{
    if s.len() - i == 2 && (s[i] == '加' || s[i] == '改') && (s[i + 1] == 'う' || s[i + 1] == 'む') {
        let mut v: Vec<char> = Vec::new();
        if s[i] == '加' {
            push_text(&mut v, "加える");
            assert(v@ =~= "加える"@);
        } else {
            push_text(&mut v, "改める");
            assert(v@ =~= "改める"@);
        }
        return Some((i + 2, v));
    }
    None
}

fn match_kana_he(s: &Vec<char>, i: usize) -> (r: Option<(usize, Vec<char>)>)
    requires
        i < s.len(),
    ensures
        match_is(r, rule_match(Rule::KanaHe, s@, i as int)),
{
    if i == 0 {
        if let Some(e) = he_end_exec(s, 0) {
            let mut v: Vec<char> = Vec::new();
            push_text(&mut v, "ヘ");
            push_range(&mut v, s, 1, e);
            assert(v@ =~= "ヘ"@ + s@.subrange(1, e as int));
            return Some((e, v));
        }
    }
    let c = s[i];
    if c == 'を' || c == 'の' || c == '中' || c == '号' || c == 'ニ' || c == 'ホ' || c == '、' || c == '及'
        || c == 'び' {
        if let Some(e) = he_end_exec(s, i + 1) {
            let mut v: Vec<char> = Vec::new();
            v.push(c);
            push_text(&mut v, "ヘ");
            push_range(&mut v, s, i + 2, e);
            assert(v@ =~= seq![c] + "ヘ"@ + s@.subrange(i + 2, e as int));
            return Some((e, v));
        }
    }
    None
}

fn match_comma_after_wo(s: &Vec<char>, i: usize) -> (r: Option<(usize, Vec<char>)>)
    requires
        i < s.len(),
    ensures
        match_is(r, rule_match(Rule::CommaAfterWo, s@, i as int)),
{
    if s.len() - i > 3 && s[i] == '」' && s[i + 1] == 'を' && s[i + 2] == '、' && s[i + 3] == '「' {
        let q = quote_stop_exec(s, i + 4);
        if q < s.len() && s.len() - q > 1 && s[q] == '」' && s[q + 1] == 'に' {
            let mut v: Vec<char> = Vec::new();
            push_text(&mut v, "」を「");
            push_range(&mut v, s, i + 4, q);
            push_text(&mut v, "」に");
            assert(v@ =~= "」を「"@ + s@.subrange(i + 4, q as int) + "」に"@);
            return Some((q + 2, v));
        }
    }
    None
}

/// The match of the rule `r` at `i` (see [`rule_match`]).
fn match_rule(r: Rule, s: &Vec<char>, i: usize) -> (m: Option<(usize, Vec<char>)>)
    requires
        i < s.len(),
    ensures
        match_is(m, rule_match(r, s@, i as int)),
{
    match r {
        Rule::Through => match_through(s, i),
        Rule::OldAnd => match_old_and(s, i),
        Rule::BranchWithoutJo => match_branch_without_jo(s, i),
        Rule::ItemBranch => match_item_branch(s, i),
        Rule::Renumbering => match_renumbering(s, i),
        Rule::BranchCaption => match_branch_caption(s, i),
        Rule::SameWithoutDai => match_same_without_dai(s, i),
        Rule::ShiftWithoutWo => match_shift_without_wo(s, i),
        Rule::AndWithoutDai => match_and_without_dai(s, i),
        Rule::ContainerWithoutDai => match_container_without_dai(s, i),
        Rule::TypoParagraph => match_typo_paragraph(s, i),
        Rule::BracketedSubItem => match_bracketed_sub_item(s, i),
        Rule::OldVerb => match_old_verb(s, i),
        Rule::KanaHe => match_kana_he(s, i),
        Rule::CommaAfterWo => match_comma_after_wo(s, i),
    }
}

/// Replaces the matches of the rule `r` in `s` (see [`rewrite`]).
pub fn rewrite_exec(r: Rule, s: &Vec<char>) -> (t: Vec<char>)
    ensures
        t@ == rewrite(r, s@),
{
    let mut out: Vec<char> = Vec::new();
    let mut i: usize = 0;
    while i < s.len()
        invariant
            i <= s.len(),
            rewrite(r, s@) == out@ + rewrite_from(r, s@, i as int),
        decreases s.len() - i,
    {
        let m = match_rule(r, s, i);
        let ghost o = out@;
        match m {
            Some((e, v)) => {
                if i < e && e <= s.len() {
                    let mut v = v;
                    out.append(&mut v);
                    assert(out@ + rewrite_from(r, s@, e as int) =~= o + rewrite_from(r, s@, i as int));
                    i = e;
                } else {
                    out.push(s[i]);
                    assert(out@ + rewrite_from(r, s@, i + 1) =~= o + rewrite_from(r, s@, i as int));
                    i = i + 1;
                }
            },
            None => {
                out.push(s[i]);
                assert(out@ + rewrite_from(r, s@, i + 1) =~= o + rewrite_from(r, s@, i as int));
                i = i + 1;
            },
        }
    }
    assert(out@ + rewrite_from(r, s@, i as int) =~= out@);
    out
}

// ---------------------------------------------------------------------------------------
// The whole normalization

/// The fixed phrases replaced in the text outside the quoted phrases, in order.
pub open spec fn span_fixes() -> Seq<(Seq<char>, Seq<char>)> {
    seq![
        ("までの中"@, "まで中"@),
        ("を次のように改正する"@, "を次のように改める"@),
        ("までの各条中"@, "まで中"@),
        ("号へ中"@, "号ヘ中"@),
        ("号へを"@, "号ヘを"@),
        ("から同条第"@, "から第"@),
        ("から同項第"@, "から第"@),
        ("づつ"@, "ずつ"@),
        ("を削除し"@, "を削り"@),
        ("を削除する"@, "を削る"@),
        ("に、次の"@, "に次の"@),
        ("として、"@, "として"@),
        ("中見出し"@, "の見出し"@),
        ("章の標題"@, "章の章名"@),
        ("章標題"@, "章の章名"@),
        ("繰下げ"@, "繰り下げ"@),
        ("繰上げ"@, "繰り上げ"@),
        ("加へ"@, "加え"@),
        ("中、"@, "中"@),
        ("項表以外の部分"@, "項の表以外の部分"@),
        ("までの各号"@, "まで"@),
        ("までの各項"@, "まで"@),
        ("その次に次のように加え"@, "同号の次に次のように加え"@),
        ("その前に次のように加え"@, "同号の前に次のように加え"@),
        ("，"@, "、"@),
        ("条の第"@, "条第"@),
        ("本則中、別に定める場合を除き、"@, "本則中"@),
        ("の前の次の"@, "の前に次の"@),
        ("のうち「"@, "中「"@),
        ("見出中"@, "見出し中"@),
        ("（同条の前の見出しを含まないものとする。）"@, ""@),
        ("（同条の前の見出しを除く。）"@, ""@),
        ("の次に一条を加え"@, "の次に次の一条を加え"@),
        ("に一項を加え"@, "に次の一項を加え"@),
        ("イの("@, "イ("@),
        ("ロの("@, "ロ("@),
        ("ハの("@, "ハ("@),
        ("同条の第"@, "同条第"@),
        ("項項"@, "項"@),
        ("の欄の"@, "の欄中"@),
        ("節の標題"@, "節の節名"@),
        ("の各号列記以外の部分"@, "各号列記以外の部分"@),
        ("並に"@, "並びに"@)
    ]
}

fn span_fixes_exec() -> (v: Vec<(&'static str, &'static str)>)
    ensures
        crate::rewrite::pairs_view(v@) == span_fixes(),
{
    let v = vec![
        ("までの中", "まで中"),
        ("を次のように改正する", "を次のように改める"),
        ("までの各条中", "まで中"),
        ("号へ中", "号ヘ中"),
        ("号へを", "号ヘを"),
        ("から同条第", "から第"),
        ("から同項第", "から第"),
        ("づつ", "ずつ"),
        ("を削除し", "を削り"),
        ("を削除する", "を削る"),
        ("に、次の", "に次の"),
        ("として、", "として"),
        ("中見出し", "の見出し"),
        ("章の標題", "章の章名"),
        ("章標題", "章の章名"),
        ("繰下げ", "繰り下げ"),
        ("繰上げ", "繰り上げ"),
        ("加へ", "加え"),
        ("中、", "中"),
        ("項表以外の部分", "項の表以外の部分"),
        ("までの各号", "まで"),
        ("までの各項", "まで"),
        ("その次に次のように加え", "同号の次に次のように加え"),
        ("その前に次のように加え", "同号の前に次のように加え"),
        ("，", "、"),
        ("条の第", "条第"),
        ("本則中、別に定める場合を除き、", "本則中"),
        ("の前の次の", "の前に次の"),
        ("のうち「", "中「"),
        ("見出中", "見出し中"),
        ("（同条の前の見出しを含まないものとする。）", ""),
        ("（同条の前の見出しを除く。）", ""),
        ("の次に一条を加え", "の次に次の一条を加え"),
        ("に一項を加え", "に次の一項を加え"),
        ("イの(", "イ("),
        ("ロの(", "ロ("),
        ("ハの(", "ハ("),
        ("同条の第", "同条第"),
        ("項項", "項"),
        ("の欄の", "の欄中"),
        ("節の標題", "節の節名"),
        ("の各号列記以外の部分", "各号列記以外の部分"),
        ("並に", "並びに")
    ];
    assert(crate::rewrite::pairs_view(v@) =~= span_fixes());
    v
}

/// The fixed phrases replaced in the whole text at the end, in order.
pub open spec fn final_fixes() -> Seq<(Seq<char>, Seq<char>)> {
    seq![
        ("」の下に、「"@, "」の下に「"@),
        ("」の次に「"@, "」の下に「"@),
        ("」改め"@, "」に改め"@),
        ("」にに改め"@, "」に改め"@),
        ("」加え"@, "」を加え"@),
        ("」ヲ「"@, "」を「"@),
        ("」をを加え"@, "」を加え"@),
        ("」加う。"@, "」を加える。"@)
    ]
}

fn final_fixes_exec() -> (v: Vec<(&'static str, &'static str)>)
    ensures
        crate::rewrite::pairs_view(v@) == final_fixes(),
{
    let v = vec![
        ("」の下に、「", "」の下に「"),
        ("」の次に「", "」の下に「"),
        ("」改め", "」に改め"),
        ("」にに改め", "」に改め"),
        ("」加え", "」を加え"),
        ("」ヲ「", "」を「"),
        ("」をを加え", "」を加え"),
        ("」加う。", "」を加える。")
    ];
    assert(crate::rewrite::pairs_view(v@) =~= final_fixes());
    v
}

/// A text outside the quotes that names a paragraph or an item and ends there
/// (`第三十八条の三第一項`) lacks its `中`.
pub open spec fn lacks_naka(t: Seq<char>) -> bool {
    &&& t.len() > 0
    &&& t[0] == '第'
    &&& (t.last() == '項' || t.last() == '号')
    &&& !t.contains('を')
    &&& !t.contains('に')
}

/// The text between quoted phrases brought to the present way of writing.
#[verifier::opaque]
pub open spec fn span_fix(t: Seq<char>) -> Seq<char> {
    let t1 = rewrite(Rule::Through, t);
    let t2 = rewrite(Rule::OldAnd, t1);
    let t3 = rewrite(Rule::BranchWithoutJo, t2);
    let t4 = rewrite(Rule::ItemBranch, t3);
    let t5 = rewrite(Rule::Renumbering, t4);
    let t6 = rewrite(Rule::BranchCaption, t5);
    let t7 = rewrite(Rule::SameWithoutDai, t6);
    let t8 = rewrite(Rule::ShiftWithoutWo, t7);
    let t9 = rewrite(Rule::AndWithoutDai, t8);
    let t10 = rewrite(Rule::ContainerWithoutDai, t9);
    let t11 = spec_replace(spec_replace(t10, "項頂"@, "項"@), "条第二頂"@, "条第二項"@);
    let t12 = rewrite(Rule::TypoParagraph, t11);
    let t13 = rewrite(Rule::BracketedSubItem, t12);
    let t14 = rewrite(Rule::OldVerb, t13);
    let t15 = if lacks_naka(t14) {
        t14 + "中"@
    } else {
        t14
    };
    let t16 = rewrite(Rule::KanaHe, t15);
    without_chars(replace_chain(t16, span_fixes()), '\u{3000}', ' ')
}

fn contains_ch(s: &Vec<char>, ch: char) -> (r: bool)
    ensures
        r == s@.contains(ch),
{
    let mut i: usize = 0;
    while i < s.len()
        invariant
            i <= s.len(),
            forall|k: int| 0 <= k < i ==> s@[k] != ch,
        decreases s.len() - i,
    {
        if s[i] == ch {
            assert(s@[i as int] == ch);
            return true;
        }
        i = i + 1;
    }
    false
}

fn span_fix_exec(t: &Vec<char>) -> (r: Vec<char>)
    ensures
        r@ == span_fix(t@),
{
    proof {
        reveal(span_fix);
    }
    let t1 = rewrite_exec(Rule::Through, t);
    let t2 = rewrite_exec(Rule::OldAnd, &t1);
    let t3 = rewrite_exec(Rule::BranchWithoutJo, &t2);
    let t4 = rewrite_exec(Rule::ItemBranch, &t3);
    let t5 = rewrite_exec(Rule::Renumbering, &t4);
    let t6 = rewrite_exec(Rule::BranchCaption, &t5);
    let t7 = rewrite_exec(Rule::SameWithoutDai, &t6);
    let t8 = rewrite_exec(Rule::ShiftWithoutWo, &t7);
    let t9 = rewrite_exec(Rule::AndWithoutDai, &t8);
    let t10 = rewrite_exec(Rule::ContainerWithoutDai, &t9);
    let t11a = replace_all(&t10, "項頂", "項");
    let t11 = replace_all(&t11a, "条第二頂", "条第二項");
    let t12 = rewrite_exec(Rule::TypoParagraph, &t11);
    let t13 = rewrite_exec(Rule::BracketedSubItem, &t12);
    let mut t14 = rewrite_exec(Rule::OldVerb, &t13);
    let ghost g14 = t14@;
    if t14.len() > 0 && t14[0] == '第' && (t14[t14.len() - 1] == '項' || t14[t14.len() - 1] == '号')
        && !contains_ch(&t14, 'を') && !contains_ch(&t14, 'に') {
        push_text(&mut t14, "中");
    }
    assert(t14@ == if lacks_naka(g14) {
        g14 + "中"@
    } else {
        g14
    });
    let t16 = rewrite_exec(Rule::KanaHe, &t14);
    let fixes = span_fixes_exec();
    let t17 = replace_each(t16, &fixes);
    remove_chars(&t17, '\u{3000}', ' ')
}

/// The state `(depth of quotes, text done, text outside quotes not yet fixed)` after the
/// first `i` characters of `s`: the text outside the quotes is fixed a stretch at a time,
/// each stretch ending at an opening quote; a closing quote outside any quote belongs to
/// the stretch.
pub open spec fn unquoted_state(s: Seq<char>, i: int) -> (int, Seq<char>, Seq<char>)
    decreases i,
{
    if i <= 0 {
        (0, Seq::empty(), Seq::empty())
    } else {
        let (d, out, span) = unquoted_state(s, i - 1);
        let c = s[i - 1];
        if c == '「' {
            if d == 0 {
                (1, out + span_fix(span) + seq!['「'], Seq::empty())
            } else {
                (d + 1, out + seq!['「'], span)
            }
        } else if c == '」' && d > 0 {
            (d - 1, out + seq!['」'], span)
        } else if d > 0 {
            (d, out + seq![c], span)
        } else {
            (d, out, span.push(c))
        }
    }
}

/// `s` with the text outside the quoted phrases brought to the present way of writing.
pub open spec fn fix_unquoted(s: Seq<char>) -> Seq<char> {
    let (_, out, span) = unquoted_state(s, s.len() as int);
    out + span_fix(span)
}

fn fix_unquoted_exec(s: &Vec<char>) -> (r: Vec<char>)
    ensures
        r@ == fix_unquoted(s@),
{
    let mut out: Vec<char> = Vec::new();
    let mut span: Vec<char> = Vec::new();
    let mut depth: usize = 0;
    let mut i: usize = 0;
    while i < s.len()
        invariant
            i <= s.len(),
            depth <= i,
            (depth as int, out@, span@) == unquoted_state(s@, i as int),
        decreases s.len() - i,
    {
        let c = s[i];
        if c == '「' {
            if depth == 0 {
                let mut f = span_fix_exec(&span);
                out.append(&mut f);
                out.push(c);
                span = Vec::new();
                depth = 1;
            } else {
                out.push(c);
                depth = depth + 1;
            }
        } else if c == '」' && depth > 0 {
            out.push(c);
            depth = depth - 1;
        } else if depth > 0 {
            out.push(c);
        } else {
            span.push(c);
        }
        i = i + 1;
    }
    let mut f = span_fix_exec(&span);
    out.append(&mut f);
    out
}

/// The depth of quotes after the first `i` characters (a closing quote outside any quote
/// changes nothing).
pub open spec fn quote_depth(c: Seq<char>, i: int) -> int
    decreases i,
{
    if i <= 0 {
        0
    } else {
        let d = quote_depth(c, i - 1);
        if c[i - 1] == '「' {
            d + 1
        } else if c[i - 1] == '」' {
            if d > 0 {
                d - 1
            } else {
                0
            }
        } else {
            d
        }
    }
}

/// `条`, `項`, `号`, `編`, `章`, `節`, `款`, `目`.
pub open spec fn is_unit_kind(ch: char) -> bool {
    ch == '条' || ch == '項' || ch == '号' || ch == '編' || ch == '章' || ch == '節' || ch == '款' || ch == '目'
}

/// An old `ノ` of a branch number at `i` (`第二十七条ノ二`).
pub open spec fn old_no_at(c: Seq<char>, i: int) -> bool {
    &&& 0 < i
    &&& i + 1 < c.len()
    &&& c[i] == 'ノ'
    &&& (is_unit_kind(c[i - 1]) || crate::place::is_numeral(c[i - 1]))
    &&& crate::place::is_numeral(c[i + 1])
}

/// `c` from `i` on with, outside the quotes, the old `ノ` of branch numbers written `の`,
/// `但書` written `ただし書`, and `左の` written `次の`.
pub open spec fn old_forms_from(c: Seq<char>, i: int) -> Seq<char>
    decreases c.len() - i,
{
    if i < 0 || i >= c.len() {
        Seq::empty()
    } else if quote_depth(c, i + 1) == 0 && old_no_at(c, i) {
        seq!['の'] + old_forms_from(c, i + 1)
    } else if quote_depth(c, i + 1) == 0 && pair_at(c, i, '但', '書') {
        "ただし書"@ + old_forms_from(c, i + 2)
    } else if quote_depth(c, i + 1) == 0 && pair_at(c, i, '左', 'の') {
        "次の"@ + old_forms_from(c, i + 2)
    } else {
        seq![c[i]] + old_forms_from(c, i + 1)
    }
}

fn is_numeral_ch(ch: char) -> (r: bool)
    ensures
        r == crate::place::is_numeral(ch),
{
    ch == '一' || ch == '二' || ch == '三' || ch == '四' || ch == '五' || ch == '六' || ch == '七'
        || ch == '八' || ch == '九' || ch == '十' || ch == '百' || ch == '千'
}

fn old_forms_exec(c: &Vec<char>) -> (r: Vec<char>)
    ensures
        r@ == old_forms_from(c@, 0),
{
    let mut out: Vec<char> = Vec::new();
    let mut depth: usize = 0;
    let mut i: usize = 0;
    while i < c.len()
        invariant
            i <= c.len(),
            depth <= i,
            depth == quote_depth(c@, i as int),
            old_forms_from(c@, 0) == out@ + old_forms_from(c@, i as int),
        decreases c.len() - i,
    {
        let ch = c[i];
        if ch == '「' {
            depth = depth + 1;
        } else if ch == '」' {
            depth = if depth > 0 { depth - 1 } else { 0 };
        }
        assert(depth == quote_depth(c@, i + 1));
        let ghost o = out@;
        if depth == 0 {
            if ch == 'ノ' && i > 0 && c.len() - i > 1 && {
                let p = c[i - 1];
                p == '条' || p == '項' || p == '号' || p == '編' || p == '章' || p == '節' || p == '款'
                    || p == '目' || is_numeral_ch(p)
            } && is_numeral_ch(c[i + 1]) {
                out.push('の');
                assert(out@ + old_forms_from(c@, i + 1) =~= o + old_forms_from(c@, i as int));
                i = i + 1;
                continue;
            }
            if c.len() - i > 1 && ch == '但' && c[i + 1] == '書' {
                push_text(&mut out, "ただし書");
                assert(out@ + old_forms_from(c@, i + 2) =~= o + old_forms_from(c@, i as int));
                assert(quote_depth(c@, i + 2) == depth);
                i = i + 2;
                continue;
            }
            if c.len() - i > 1 && ch == '左' && c[i + 1] == 'の' {
                push_text(&mut out, "次の");
                assert(out@ + old_forms_from(c@, i + 2) =~= o + old_forms_from(c@, i as int));
                i = i + 2;
                continue;
            }
        }
        out.push(ch);
        assert(out@ + old_forms_from(c@, i + 1) =~= o + old_forms_from(c@, i as int));
        i = i + 1;
    }
    assert(out@ + old_forms_from(c@, i as int) =~= out@);
    out
}

/// `十二条の二中` (the `第` of the first article left out) becomes `第十二条の二中`.
pub open spec fn add_dai_head(c: Seq<char>) -> Seq<char> {
    if numeral_end(c, 0) > 0 && numeral_end(c, 0) < c.len() && c[numeral_end(c, 0)] == '条' {
        seq!['第'] + c
    } else {
        c
    }
}

/// `目録` (the old word for the table of contents) becomes `目次`.
pub open spec fn old_toc_word(c: Seq<char>) -> Seq<char> {
    if pair_at(c, 0, '目', '録') {
        "目次"@ + c.skip(2)
    } else {
        c
    }
}

/// Where the phrase starts in `目次中第二章中「` or `目次第二章第一節第三款中「` (a place
/// within the table of contents, read as a phrase of the table of contents), or -1.
pub open spec fn toc_path_end(c: Seq<char>) -> int {
    if pair_at(c, 0, '目', '次') {
        let p = if 2 < c.len() && c[2] == '中' {
            3
        } else {
            2
        };
        let j = container_end(c, p);
        if j > p && pair_at(c, j, '中', '「') {
            j + 2
        } else {
            -1
        }
    } else {
        -1
    }
}

/// A place within the table of contents dropped: `目次中「…`.
pub open spec fn toc_path(c: Seq<char>) -> Seq<char> {
    if toc_path_end(c) >= 0 {
        "目次中「"@ + c.skip(toc_path_end(c))
    } else {
        c
    }
}

/// `この法律中「` (with or without `別に定める場合を除き、`) is the whole of the main
/// provisions: `本則中「`.
pub open spec fn whole_law(c: Seq<char>) -> Seq<char> {
    let long = "この法律中別に定める場合を除き、"@;
    let short = "この法律中"@;
    let rest = if starts_with(c, long) {
        Some(c.skip(long.len() as int))
    } else if starts_with(c, short) {
        Some(c.skip(short.len() as int))
    } else {
        None
    };
    match rest {
        Some(t) => if t.len() > 0 && t[0] == '「' {
            "本則中"@ + t
        } else {
            c
        },
        None => c,
    }
}

/// Half-width punctuation written full-width.
pub open spec fn punct_of(ch: char) -> char {
    if ch == '｡' {
        '。'
    } else if ch == '､' {
        '、'
    } else if ch == '｢' {
        '「'
    } else if ch == '｣' {
        '」'
    } else {
        ch
    }
}

/// The text with full-width punctuation.
pub open spec fn full_punct(c: Seq<char>) -> Seq<char> {
    c.map_values(|ch: char| punct_of(ch))
}

/// An instruction written the present way: the head fixed (`第` added before the first
/// article, `目録`, places within the table of contents, `この法律中`), punctuation made
/// full-width, old forms replaced outside the quotes, the text between quotes fixed
/// stretch by stretch, and last the fixes around the quotes.
pub open spec fn spec_normalize_instruction(line: Seq<char>) -> Seq<char> {
    let n = full_punct(whole_law(toc_path(old_toc_word(add_dai_head(line)))));
    replace_chain(rewrite(Rule::CommaAfterWo, fix_unquoted(old_forms_from(n, 0))), final_fixes())
}

fn head_fixes(line: &str) -> (r: Vec<char>)
    ensures
        r@ == whole_law(toc_path(old_toc_word(add_dai_head(line@)))),
{
    let c0 = chars_of(line);
    let ne = numeral_end_at(&c0, 0);
    let c1 = if ne > 0 && ne < c0.len() && c0[ne] == '条' {
        let mut v: Vec<char> = Vec::new();
        v.push('第');
        push_range(&mut v, &c0, 0, c0.len());
        assert(v@ =~= seq!['第'] + c0@);
        v
    } else {
        c0
    };
    let c2 = if c1.len() > 1 && c1[0] == '目' && c1[1] == '録' {
        let mut v: Vec<char> = Vec::new();
        push_text(&mut v, "目次");
        push_range(&mut v, &c1, 2, c1.len());
        assert(v@ =~= "目次"@ + c1@.skip(2));
        v
    } else {
        c1
    };
    assert(c2@ == old_toc_word(add_dai_head(line@)));
    let c3 = match toc_path_end_exec(&c2) {
        Some(e) => {
            let mut v: Vec<char> = Vec::new();
            push_text(&mut v, "目次中「");
            push_range(&mut v, &c2, e, c2.len());
            assert(v@ =~= "目次中「"@ + c2@.skip(e as int));
            v
        },
        None => c2,
    };
    assert(c3@ == toc_path(c2@));
    whole_law_exec(c3)
}

fn toc_path_end_exec(c: &Vec<char>) -> (r: Option<usize>)
    ensures
        match r {
            Some(e) => toc_path_end(c@) == e as int && e <= c.len(),
            None => toc_path_end(c@) == -1,
        },
{
    if !(c.len() > 1 && c[0] == '目' && c[1] == '次') {
        return None;
    }
    let p: usize = if c.len() > 2 && c[2] == '中' { 3 } else { 2 };
    let mut j = p;
    let mut more = crate::locs::container_at_exec(c, j);
    while more.0
        invariant
            p <= j <= c.len(),
            container_end(c@, p as int) == container_end(c@, j as int),
            more.0 == crate::locs::container_at(c@, j as int),
            more.0 ==> more.1 == numeral_end(c@, j + 1) && more.1 < c.len(),
        decreases c.len() - j,
    {
        proof {
            lemma_numeral_end(c@, j + 1);
            lemma_branch_end(c@, more.1 + 1);
        }
        j = branch_scan_end(c, more.1 + 1);
        more = crate::locs::container_at_exec(c, j);
    }
    assert(container_end(c@, j as int) == j);
    if j > p && j < c.len() && c.len() - j > 1 && c[j] == '中' && c[j + 1] == '「' {
        Some(j + 2)
    } else {
        None
    }
}

fn whole_law_exec(c: Vec<char>) -> (r: Vec<char>)
    ensures
        r@ == whole_law(c@),
{
    assert(c@.skip(0) =~= c@);
    let long = "この法律中別に定める場合を除き、";
    let short = "この法律中";
    let n = if crate::text::has_at(c.as_slice(), 0, long) {
        chars_of(long).len()
    } else if crate::text::has_at(c.as_slice(), 0, short) {
        chars_of(short).len()
    } else {
        return c;
    };
    if n < c.len() && c[n] == '「' {
        let mut v: Vec<char> = Vec::new();
        push_text(&mut v, "本則中");
        push_range(&mut v, &c, n, c.len());
        assert(v@ =~= "本則中"@ + c@.skip(n as int));
        v
    } else {
        c
    }
}

fn full_punct_exec(c: &Vec<char>) -> (r: Vec<char>)
    ensures
        r@ == full_punct(c@),
{
    let mut out: Vec<char> = Vec::new();
    let mut i: usize = 0;
    while i < c.len()
        invariant
            i <= c.len(),
            out@ == full_punct(c@.take(i as int)),
        decreases c.len() - i,
    {
        let ch = c[i];
        let p = if ch == '｡' {
            '。'
        } else if ch == '､' {
            '、'
        } else if ch == '｢' {
            '「'
        } else if ch == '｣' {
            '」'
        } else {
            ch
        };
        out.push(p);
        assert(full_punct(c@.take(i + 1)) =~= full_punct(c@.take(i as int)).push(punct_of(ch)));
        i = i + 1;
    }
    assert(c@.take(c.len() as int) =~= c@);
    out
}

/// Brings an amendment instruction written the old way to the present way of writing (see
/// [`spec_normalize_instruction`]).
pub fn normalize_instruction(line: &str) -> (r: String)
    ensures
        r@ == spec_normalize_instruction(line@),
{
    let h = head_fixes(line);
    let n = full_punct_exec(&h);
    let o = old_forms_exec(&n);
    let u = fix_unquoted_exec(&o);
    let w = rewrite_exec(Rule::CommaAfterWo, &u);
    let fixes = final_fixes_exec();
    let r = replace_each(w, &fixes);
    crate::text::string_of(r.as_slice())
}

// ---------------------------------------------------------------------------------------
// The quoted phrases are kept

/// The depth of quotes after the character `c` read at depth `d` (a closing quote outside
/// any quote changes nothing).
pub open spec fn depth_step(d: int, c: char) -> int {
    if c == '「' {
        d + 1
    } else if c == '」' {
        if d > 0 {
            d - 1
        } else {
            0
        }
    } else {
        d
    }
}

/// The characters of `s`, read from the depth `d`, that stand within quoted phrases
/// (their quote marks included).
pub open spec fn quoted_from(s: Seq<char>, d: int) -> Seq<char>
    decreases s.len(),
{
    if s.len() == 0 {
        Seq::empty()
    } else {
        (if d > 0 || depth_step(d, s[0]) > 0 {
            seq![s[0]]
        } else {
            Seq::empty()
        }) + quoted_from(s.drop_first(), depth_step(d, s[0]))
    }
}

/// The depth of quotes after reading `s` from the depth `d`.
pub open spec fn depth_after(s: Seq<char>, d: int) -> int
    decreases s.len(),
{
    if s.len() == 0 {
        d
    } else {
        depth_after(s.drop_first(), depth_step(d, s[0]))
    }
}

/// The quoted phrases of `s`, one after the other, with their quote marks.
pub open spec fn quoted_text(s: Seq<char>) -> Seq<char> {
    quoted_from(s, 0)
}

/// `s` holds no opening quote.
pub open spec fn no_open(s: Seq<char>) -> bool {
    !s.contains('「')
}

pub(crate) proof fn lemma_quoted_concat(a: Seq<char>, b: Seq<char>, d: int)
    ensures
        quoted_from(a + b, d) == quoted_from(a, d) + quoted_from(b, depth_after(a, d)),
        depth_after(a + b, d) == depth_after(b, depth_after(a, d)),
    decreases a.len(),
{
    if a.len() == 0 {
        assert(a + b =~= b);
    } else {
        assert((a + b).drop_first() =~= a.drop_first() + b);
        lemma_quoted_concat(a.drop_first(), b, depth_step(d, a[0]));
    }
}

pub(crate) proof fn lemma_quoted_plain(t: Seq<char>)
    requires
        no_open(t),
    ensures
        quoted_from(t, 0) == Seq::<char>::empty(),
        depth_after(t, 0) == 0,
    decreases t.len(),
{
    if t.len() > 0 {
        assert(t[0] != '「') by {
            assert(t.contains(t[0]));
        }
        assert(no_open(t.drop_first())) by {
            if t.drop_first().contains('「') {
                let k = choose|k: int| 0 <= k < t.drop_first().len() && t.drop_first()[k] == '「';
                assert(t[k + 1] == '「');
            }
        }
        lemma_quoted_plain(t.drop_first());
    }
}

pub(crate) proof fn lemma_no_open_concat(a: Seq<char>, b: Seq<char>)
    requires
        no_open(a),
        no_open(b),
    ensures
        no_open(a + b),
{
    if (a + b).contains('「') {
        let k = choose|k: int| 0 <= k < (a + b).len() && (a + b)[k] == '「';
        if k < a.len() {
            assert(a[k] == '「');
        } else {
            assert(b[k - a.len()] == '「');
        }
    }
}

proof fn lemma_no_open_sub(s: Seq<char>, lo: int, hi: int)
    requires
        no_open(s),
        0 <= lo <= hi <= s.len(),
    ensures
        no_open(s.subrange(lo, hi)),
{
    if s.subrange(lo, hi).contains('「') {
        let k = choose|k: int| 0 <= k < hi - lo && s.subrange(lo, hi)[k] == '「';
        assert(s[lo + k] == '「');
    }
}

proof fn lemma_no_open_char(s: Seq<char>, i: int)
    requires
        no_open(s),
        0 <= i < s.len(),
    ensures
        no_open(seq![s[i]]),
        s[i] != '「',
{
    assert(s.contains(s[i]));
    if seq![s[i]].contains('「') {
        assert(seq![s[i]][0] == '「');
    }
}

pub(crate) proof fn lemma_no_open_lit(t: Seq<char>)
    requires
        forall|k: int| 0 <= k < t.len() ==> t[k] != '「',
    ensures
        no_open(t),
{
}

/// The words the rules write hold no opening quote.
proof fn lemma_rule_literals()
    ensures
        no_open("から"@),
        no_open("まで"@),
        no_open("及び"@),
        no_open("第"@),
        no_open("条の"@),
        no_open("を"@),
        no_open("号"@),
        no_open("とする"@),
        no_open("とし"@),
        no_open("の見出し"@),
        no_open("までを"@),
        no_open("及び第"@),
        no_open("を第"@),
        no_open("と"@),
        no_open("項"@),
        no_open("加える"@),
        no_open("改める"@),
        no_open("ヘ"@),
        no_open("中"@),
        no_open("ただし書"@),
        no_open("次の"@),
{
    reveal_strlit("から");
    assert(no_open("から"@)) by { lemma_no_open_lit("から"@); }
    reveal_strlit("まで");
    assert(no_open("まで"@)) by { lemma_no_open_lit("まで"@); }
    reveal_strlit("及び");
    assert(no_open("及び"@)) by { lemma_no_open_lit("及び"@); }
    reveal_strlit("第");
    assert(no_open("第"@)) by { lemma_no_open_lit("第"@); }
    reveal_strlit("条の");
    assert(no_open("条の"@)) by { lemma_no_open_lit("条の"@); }
    reveal_strlit("を");
    assert(no_open("を"@)) by { lemma_no_open_lit("を"@); }
    reveal_strlit("号");
    assert(no_open("号"@)) by { lemma_no_open_lit("号"@); }
    reveal_strlit("とする");
    assert(no_open("とする"@)) by { lemma_no_open_lit("とする"@); }
    reveal_strlit("とし");
    assert(no_open("とし"@)) by { lemma_no_open_lit("とし"@); }
    reveal_strlit("の見出し");
    assert(no_open("の見出し"@)) by { lemma_no_open_lit("の見出し"@); }
    reveal_strlit("までを");
    assert(no_open("までを"@)) by { lemma_no_open_lit("までを"@); }
    reveal_strlit("及び第");
    assert(no_open("及び第"@)) by { lemma_no_open_lit("及び第"@); }
    reveal_strlit("を第");
    assert(no_open("を第"@)) by { lemma_no_open_lit("を第"@); }
    reveal_strlit("と");
    assert(no_open("と"@)) by { lemma_no_open_lit("と"@); }
    reveal_strlit("項");
    assert(no_open("項"@)) by { lemma_no_open_lit("項"@); }
    reveal_strlit("加える");
    assert(no_open("加える"@)) by { lemma_no_open_lit("加える"@); }
    reveal_strlit("改める");
    assert(no_open("改める"@)) by { lemma_no_open_lit("改める"@); }
    reveal_strlit("ヘ");
    assert(no_open("ヘ"@)) by { lemma_no_open_lit("ヘ"@); }
    reveal_strlit("中");
    assert(no_open("中"@)) by { lemma_no_open_lit("中"@); }
    reveal_strlit("ただし書");
    assert(no_open("ただし書"@)) by { lemma_no_open_lit("ただし書"@); }
    reveal_strlit("次の");
    assert(no_open("次の"@)) by { lemma_no_open_lit("次の"@); }
}

proof fn lemma_no_forms_no_open(t: Seq<char>)
    requires
        no_open(t),
    ensures
        no_open(no_forms(t)),
{
    if no_forms(t).contains('「') {
        let k = choose|k: int| 0 <= k < no_forms(t).len() && no_forms(t)[k] == '「';
        assert(t[k] == '「');
    }
}

/// A rule other than the one for commas writes no opening quote into a text that has none.
proof fn lemma_rule_rep_no_open(r: Rule, s: Seq<char>, i: int)
    requires
        no_open(s),
        0 <= i < s.len(),
        !(r is CommaAfterWo),
        rule_match(r, s, i) is Some,
    ensures
        no_open(rule_match(r, s, i).unwrap().1),
{
    lemma_rule_literals();
    let rep = rule_match(r, s, i).unwrap().1;
    match r {
        Rule::Through => {
            lemma_numbered_ref_end(s, i + 2);
            let e = numbered_ref_end(s, i + 2);
            lemma_no_open_sub(s, i + 2, e);
            lemma_no_open_concat("から"@, s.subrange(i + 2, e));
            lemma_no_open_concat("から"@ + s.subrange(i + 2, e), "まで"@);
        },
        Rule::OldAnd => {
            if i + 1 < s.len() && s[i] == '及' && (s[i + 1] == '第' || s[i + 1] == '同') {
                lemma_no_open_char(s, i + 1);
                lemma_no_open_concat("及び"@, seq![s[i + 1]]);
            } else {
                lemma_no_open_sub(s, i + 1, i + 3);
                lemma_no_open_concat("及び"@, s.subrange(i + 1, i + 3));
            }
        },
        Rule::BranchWithoutJo => {
            let p = if i == 0 && jo_tail_end(s, 0) >= 0 {
                0
            } else {
                i + 1
            };
            lemma_numeral_end(s, p + 1);
            let n1 = numeral_end(s, p + 1);
            lemma_numeral_end(s, n1 + 1);
            let n2 = numeral_end(s, n1 + 1);
            lemma_no_open_sub(s, p + 1, n1);
            lemma_no_open_sub(s, n1 + 1, n2);
            let t = jo_tail_text(s, p);
            lemma_no_open_concat("第"@, s.subrange(p + 1, n1));
            lemma_no_open_concat("第"@ + s.subrange(p + 1, n1), "条の"@);
            lemma_no_open_concat("第"@ + s.subrange(p + 1, n1) + "条の"@, s.subrange(n1 + 1, n2));
            lemma_no_open_concat("第"@ + s.subrange(p + 1, n1) + "条の"@ + s.subrange(n1 + 1, n2), "を"@);
            if !(i == 0 && jo_tail_end(s, 0) >= 0) {
                lemma_no_open_char(s, i);
                lemma_no_open_concat(seq![s[i]], t);
            }
        },
        Rule::ItemBranch => {
            lemma_numeral_end(s, i + 1);
            let n1 = numeral_end(s, i + 1);
            lemma_kbranch_end(s, n1);
            let kb = kbranch_end(s, n1);
            lemma_no_open_sub(s, i + 1, n1);
            lemma_no_open_sub(s, n1, kb);
            lemma_no_forms_no_open(s.subrange(n1, kb));
            lemma_no_open_concat("第"@, s.subrange(i + 1, n1));
            lemma_no_open_concat("第"@ + s.subrange(i + 1, n1), "号"@);
            lemma_no_open_concat("第"@ + s.subrange(i + 1, n1) + "号"@, no_forms(s.subrange(n1, kb)));
        },
        Rule::Renumbering => {
            lemma_numbered_ref_end(s, i);
            let e1 = numbered_ref_end(s, i);
            let p = e1 + 1;
            let q = if pair_at(s, p, '同', '条') || pair_at(s, p, '同', '項') {
                p + 2
            } else {
                p
            };
            lemma_numbered_ref_end(s, q);
            let e2 = numbered_ref_end(s, q);
            lemma_no_open_sub(s, i, e1);
            lemma_no_open_sub(s, p, e2);
            lemma_no_open_concat(s.subrange(i, e1), "を"@);
            lemma_no_open_concat(s.subrange(i, e1) + "を"@, s.subrange(p, e2));
            lemma_no_open_concat(s.subrange(i, e1) + "を"@ + s.subrange(p, e2), "とする"@);
            lemma_no_open_concat(s.subrange(i, e1) + "を"@ + s.subrange(p, e2), "とし"@);
        },
        Rule::BranchCaption => {
            lemma_numeral_end(s, i + 2);
            let ne = numeral_end(s, i + 2);
            lemma_no_open_sub(s, i, ne);
            lemma_no_open_concat(s.subrange(i, ne), "の見出し"@);
        },
        Rule::SameWithoutDai => {
            lemma_numeral_end(s, i + 2);
            let ne = numeral_end(s, i + 2);
            lemma_no_open_sub(s, i, i + 2);
            lemma_no_open_sub(s, i + 2, ne + 1);
            lemma_no_open_concat(s.subrange(i, i + 2), "第"@);
            lemma_no_open_concat(s.subrange(i, i + 2) + "第"@, s.subrange(i + 2, ne + 1));
        },
        Rule::ShiftWithoutWo => {
            lemma_numeral_end(s, i + 2);
            let ne = numeral_end(s, i + 2);
            lemma_no_open_sub(s, i + 2, ne + 5);
            lemma_no_open_concat("までを"@, s.subrange(i + 2, ne + 5));
        },
        Rule::AndWithoutDai => {
            lemma_numbered_ref_end(s, i);
            let e1 = numbered_ref_end(s, i);
            lemma_numeral_end(s, e1 + 2);
            let ne = numeral_end(s, e1 + 2);
            lemma_no_open_sub(s, i, e1);
            lemma_no_open_sub(s, e1 + 2, ne + 1);
            lemma_no_open_concat(s.subrange(i, e1), "及び第"@);
            lemma_no_open_concat(s.subrange(i, e1) + "及び第"@, s.subrange(e1 + 2, ne + 1));
        },
        Rule::ContainerWithoutDai => {
            lemma_numeral_end(s, i + 1);
            let ne = numeral_end(s, i + 1);
            lemma_no_open_sub(s, i + 1, ne + 1);
            lemma_no_open_concat("を第"@, s.subrange(i + 1, ne + 1));
            lemma_no_open_concat("を第"@ + s.subrange(i + 1, ne + 1), "と"@);
        },
        Rule::TypoParagraph => {
            lemma_numeral_end(s, i + 1);
            let ne = numeral_end(s, i + 1);
            lemma_no_open_sub(s, i + 1, ne);
            lemma_no_open_concat("第"@, s.subrange(i + 1, ne));
            lemma_no_open_concat("第"@ + s.subrange(i + 1, ne), "項"@);
        },
        Rule::BracketedSubItem => {
            lemma_no_open_char(s, i + 2);
            lemma_no_open_concat("号"@, seq![s[i + 2]]);
        },
        Rule::OldVerb => {
        },
        Rule::KanaHe => {
            if i == 0 && he_end(s, 0) >= 0 {
                let e = he_end(s, 0);
                lemma_no_open_sub(s, 1, e);
                lemma_no_open_concat("ヘ"@, s.subrange(1, e));
            } else {
                let e = he_end(s, i + 1);
                lemma_no_open_char(s, i);
                lemma_no_open_sub(s, i + 2, e);
                lemma_no_open_concat(seq![s[i]], "ヘ"@);
                lemma_no_open_concat(seq![s[i]] + "ヘ"@, s.subrange(i + 2, e));
            }
        },
        Rule::CommaAfterWo => {
        },
    }
}

proof fn lemma_rewrite_no_open(r: Rule, s: Seq<char>, i: int)
    requires
        no_open(s),
        !(r is CommaAfterWo),
    ensures
        no_open(rewrite_from(r, s, i)),
    decreases s.len() - i,
{
    if 0 <= i < s.len() {
        let m = rule_match(r, s, i);
        if m is Some && i < m.unwrap().0 <= s.len() {
            lemma_rule_rep_no_open(r, s, i);
            lemma_rewrite_no_open(r, s, m.unwrap().0);
            lemma_no_open_concat(m.unwrap().1, rewrite_from(r, s, m.unwrap().0));
        } else {
            lemma_no_open_char(s, i);
            lemma_rewrite_no_open(r, s, i + 1);
            lemma_no_open_concat(seq![s[i]], rewrite_from(r, s, i + 1));
        }
    }
}

proof fn lemma_replace_no_open(s: Seq<char>, p: Seq<char>, q: Seq<char>, i: int)
    requires
        no_open(s),
        no_open(q) || p.contains('「'),
    ensures
        no_open(crate::rewrite::replace_from(s, p, q, i)),
    decreases s.len() - i,
{
    if 0 <= i < s.len() {
        if p.len() > 0 && starts_with(s.skip(i), p) {
            if p.contains('「') {
                let k = choose|k: int| 0 <= k < p.len() && p[k] == '「';
                assert(s.skip(i).take(p.len() as int)[k] == '「');
                assert(s[i + k] == '「');
                assert(s.contains('「'));
            }
            lemma_replace_no_open(s, p, q, i + p.len());
            lemma_no_open_concat(q, crate::rewrite::replace_from(s, p, q, i + p.len()));
        } else {
            lemma_no_open_char(s, i);
            lemma_replace_no_open(s, p, q, i + 1);
            lemma_no_open_concat(seq![s[i]], crate::rewrite::replace_from(s, p, q, i + 1));
        }
    }
}

/// The replacement keeps a text free of opening quotes.
pub open spec fn keeps_no_open(pair: (Seq<char>, Seq<char>)) -> bool {
    no_open(pair.1) || pair.0.contains('「')
}

proof fn lemma_chain_no_open(s: Seq<char>, pairs: Seq<(Seq<char>, Seq<char>)>)
    requires
        no_open(s),
        forall|k: int| 0 <= k < pairs.len() ==> keeps_no_open(#[trigger] pairs[k]),
    ensures
        no_open(replace_chain(s, pairs)),
    decreases pairs.len(),
{
    if pairs.len() > 0 {
        assert forall|k: int| 0 <= k < pairs.drop_last().len() implies keeps_no_open(
            #[trigger] pairs.drop_last()[k],
        ) by {
            assert(pairs.drop_last()[k] == pairs[k]);
        }
        lemma_chain_no_open(s, pairs.drop_last());
        assert(keeps_no_open(pairs[pairs.len() - 1]));
        lemma_replace_no_open(replace_chain(s, pairs.drop_last()), pairs.last().0, pairs.last().1, 0);
    }
}

proof fn lemma_without_chars_no_open(s: Seq<char>, x: char, y: char)
    requires
        no_open(s),
    ensures
        no_open(without_chars(s, x, y)),
    decreases s.len(),
{
    if s.len() > 0 {
        assert(no_open(s.drop_last())) by {
            if s.drop_last().contains('「') {
                let k = choose|k: int| 0 <= k < s.drop_last().len() && s.drop_last()[k] == '「';
                assert(s[k] == '「');
            }
        }
        lemma_without_chars_no_open(s.drop_last(), x, y);
        lemma_no_open_char(s, s.len() - 1);
        if s.last() != x && s.last() != y {
            lemma_no_open_concat(without_chars(s.drop_last(), x, y), seq![s.last()]);
        } else {
            assert(without_chars(s, x, y) =~= without_chars(s.drop_last(), x, y));
        }
    }
}

/// Each fixed replacement outside the quotes keeps a text free of opening quotes.
proof fn lemma_span_fixes_keep()
    ensures
        forall|k: int| 0 <= k < span_fixes().len() ==> keeps_no_open(#[trigger] span_fixes()[k]),
{
    reveal_strlit("まで中");
    lemma_no_open_lit("まで中"@);
    assert(keeps_no_open(span_fixes()[0]));
    reveal_strlit("を次のように改める");
    lemma_no_open_lit("を次のように改める"@);
    assert(keeps_no_open(span_fixes()[1]));
    reveal_strlit("まで中");
    lemma_no_open_lit("まで中"@);
    assert(keeps_no_open(span_fixes()[2]));
    reveal_strlit("号ヘ中");
    lemma_no_open_lit("号ヘ中"@);
    assert(keeps_no_open(span_fixes()[3]));
    reveal_strlit("号ヘを");
    lemma_no_open_lit("号ヘを"@);
    assert(keeps_no_open(span_fixes()[4]));
    reveal_strlit("から第");
    lemma_no_open_lit("から第"@);
    assert(keeps_no_open(span_fixes()[5]));
    reveal_strlit("から第");
    lemma_no_open_lit("から第"@);
    assert(keeps_no_open(span_fixes()[6]));
    reveal_strlit("ずつ");
    lemma_no_open_lit("ずつ"@);
    assert(keeps_no_open(span_fixes()[7]));
    reveal_strlit("を削り");
    lemma_no_open_lit("を削り"@);
    assert(keeps_no_open(span_fixes()[8]));
    reveal_strlit("を削る");
    lemma_no_open_lit("を削る"@);
    assert(keeps_no_open(span_fixes()[9]));
    reveal_strlit("に次の");
    lemma_no_open_lit("に次の"@);
    assert(keeps_no_open(span_fixes()[10]));
    reveal_strlit("として");
    lemma_no_open_lit("として"@);
    assert(keeps_no_open(span_fixes()[11]));
    reveal_strlit("の見出し");
    lemma_no_open_lit("の見出し"@);
    assert(keeps_no_open(span_fixes()[12]));
    reveal_strlit("章の章名");
    lemma_no_open_lit("章の章名"@);
    assert(keeps_no_open(span_fixes()[13]));
    reveal_strlit("章の章名");
    lemma_no_open_lit("章の章名"@);
    assert(keeps_no_open(span_fixes()[14]));
    reveal_strlit("繰り下げ");
    lemma_no_open_lit("繰り下げ"@);
    assert(keeps_no_open(span_fixes()[15]));
    reveal_strlit("繰り上げ");
    lemma_no_open_lit("繰り上げ"@);
    assert(keeps_no_open(span_fixes()[16]));
    reveal_strlit("加え");
    lemma_no_open_lit("加え"@);
    assert(keeps_no_open(span_fixes()[17]));
    reveal_strlit("中");
    lemma_no_open_lit("中"@);
    assert(keeps_no_open(span_fixes()[18]));
    reveal_strlit("項の表以外の部分");
    lemma_no_open_lit("項の表以外の部分"@);
    assert(keeps_no_open(span_fixes()[19]));
    reveal_strlit("まで");
    lemma_no_open_lit("まで"@);
    assert(keeps_no_open(span_fixes()[20]));
    reveal_strlit("まで");
    lemma_no_open_lit("まで"@);
    assert(keeps_no_open(span_fixes()[21]));
    reveal_strlit("同号の次に次のように加え");
    lemma_no_open_lit("同号の次に次のように加え"@);
    assert(keeps_no_open(span_fixes()[22]));
    reveal_strlit("同号の前に次のように加え");
    lemma_no_open_lit("同号の前に次のように加え"@);
    assert(keeps_no_open(span_fixes()[23]));
    reveal_strlit("、");
    lemma_no_open_lit("、"@);
    assert(keeps_no_open(span_fixes()[24]));
    reveal_strlit("条第");
    lemma_no_open_lit("条第"@);
    assert(keeps_no_open(span_fixes()[25]));
    reveal_strlit("本則中");
    lemma_no_open_lit("本則中"@);
    assert(keeps_no_open(span_fixes()[26]));
    reveal_strlit("の前に次の");
    lemma_no_open_lit("の前に次の"@);
    assert(keeps_no_open(span_fixes()[27]));
    reveal_strlit("のうち「");
    assert(span_fixes()[28].0[3] == '「');
    assert(keeps_no_open(span_fixes()[28]));
    reveal_strlit("見出し中");
    lemma_no_open_lit("見出し中"@);
    assert(keeps_no_open(span_fixes()[29]));
    reveal_strlit("");
    lemma_no_open_lit(""@);
    assert(keeps_no_open(span_fixes()[30]));
    reveal_strlit("");
    lemma_no_open_lit(""@);
    assert(keeps_no_open(span_fixes()[31]));
    reveal_strlit("の次に次の一条を加え");
    lemma_no_open_lit("の次に次の一条を加え"@);
    assert(keeps_no_open(span_fixes()[32]));
    reveal_strlit("に次の一項を加え");
    lemma_no_open_lit("に次の一項を加え"@);
    assert(keeps_no_open(span_fixes()[33]));
    reveal_strlit("イ(");
    lemma_no_open_lit("イ("@);
    assert(keeps_no_open(span_fixes()[34]));
    reveal_strlit("ロ(");
    lemma_no_open_lit("ロ("@);
    assert(keeps_no_open(span_fixes()[35]));
    reveal_strlit("ハ(");
    lemma_no_open_lit("ハ("@);
    assert(keeps_no_open(span_fixes()[36]));
    reveal_strlit("同条第");
    lemma_no_open_lit("同条第"@);
    assert(keeps_no_open(span_fixes()[37]));
    reveal_strlit("項");
    lemma_no_open_lit("項"@);
    assert(keeps_no_open(span_fixes()[38]));
    reveal_strlit("の欄中");
    lemma_no_open_lit("の欄中"@);
    assert(keeps_no_open(span_fixes()[39]));
    reveal_strlit("節の節名");
    lemma_no_open_lit("節の節名"@);
    assert(keeps_no_open(span_fixes()[40]));
    reveal_strlit("各号列記以外の部分");
    lemma_no_open_lit("各号列記以外の部分"@);
    assert(keeps_no_open(span_fixes()[41]));
    reveal_strlit("並びに");
    lemma_no_open_lit("並びに"@);
    assert(keeps_no_open(span_fixes()[42]));
}

/// Fixing a stretch outside the quotes writes no opening quote.
proof fn lemma_span_fix_no_open(t: Seq<char>)
    requires
        no_open(t),
    ensures
        no_open(span_fix(t)),
{
    reveal(span_fix);
    lemma_rule_literals();
    let t1 = rewrite(Rule::Through, t);
    lemma_rewrite_no_open(Rule::Through, t, 0);
    let t2 = rewrite(Rule::OldAnd, t1);
    lemma_rewrite_no_open(Rule::OldAnd, t1, 0);
    let t3 = rewrite(Rule::BranchWithoutJo, t2);
    lemma_rewrite_no_open(Rule::BranchWithoutJo, t2, 0);
    let t4 = rewrite(Rule::ItemBranch, t3);
    lemma_rewrite_no_open(Rule::ItemBranch, t3, 0);
    let t5 = rewrite(Rule::Renumbering, t4);
    lemma_rewrite_no_open(Rule::Renumbering, t4, 0);
    let t6 = rewrite(Rule::BranchCaption, t5);
    lemma_rewrite_no_open(Rule::BranchCaption, t5, 0);
    let t7 = rewrite(Rule::SameWithoutDai, t6);
    lemma_rewrite_no_open(Rule::SameWithoutDai, t6, 0);
    let t8 = rewrite(Rule::ShiftWithoutWo, t7);
    lemma_rewrite_no_open(Rule::ShiftWithoutWo, t7, 0);
    let t9 = rewrite(Rule::AndWithoutDai, t8);
    lemma_rewrite_no_open(Rule::AndWithoutDai, t8, 0);
    let t10 = rewrite(Rule::ContainerWithoutDai, t9);
    lemma_rewrite_no_open(Rule::ContainerWithoutDai, t9, 0);
    reveal_strlit("項");
    reveal_strlit("条第二項");
    lemma_no_open_lit("条第二項"@);
    let t11a = spec_replace(t10, "項頂"@, "項"@);
    lemma_replace_no_open(t10, "項頂"@, "項"@, 0);
    let t11 = spec_replace(t11a, "条第二頂"@, "条第二項"@);
    lemma_replace_no_open(t11a, "条第二頂"@, "条第二項"@, 0);
    let t12 = rewrite(Rule::TypoParagraph, t11);
    lemma_rewrite_no_open(Rule::TypoParagraph, t11, 0);
    let t13 = rewrite(Rule::BracketedSubItem, t12);
    lemma_rewrite_no_open(Rule::BracketedSubItem, t12, 0);
    let t14 = rewrite(Rule::OldVerb, t13);
    lemma_rewrite_no_open(Rule::OldVerb, t13, 0);
    let t15 = if lacks_naka(t14) {
        t14 + "中"@
    } else {
        t14
    };
    lemma_no_open_concat(t14, "中"@);
    let t16 = rewrite(Rule::KanaHe, t15);
    lemma_rewrite_no_open(Rule::KanaHe, t15, 0);
    lemma_span_fixes_keep();
    lemma_chain_no_open(t16, span_fixes());
    lemma_without_chars_no_open(replace_chain(t16, span_fixes()), '\u{3000}', ' ');
}

proof fn lemma_chain_empty(pairs: Seq<(Seq<char>, Seq<char>)>)
    ensures
        replace_chain(Seq::empty(), pairs) == Seq::<char>::empty(),
    decreases pairs.len(),
{
    if pairs.len() > 0 {
        lemma_chain_empty(pairs.drop_last());
    }
}

/// Nothing to fix gives nothing.
proof fn lemma_span_fix_empty()
    ensures
        span_fix(Seq::empty()) == Seq::<char>::empty(),
{
    reveal(span_fix);
    lemma_chain_empty(span_fixes());
}

pub(crate) proof fn lemma_one(c: char, d: int)
    ensures
        quoted_from(seq![c], d) == if d > 0 || depth_step(d, c) > 0 {
            seq![c]
        } else {
            Seq::<char>::empty()
        },
        depth_after(seq![c], d) == depth_step(d, c),
{
    let e = seq![c].drop_first();
    assert(e =~= Seq::<char>::empty());
    assert(e.len() == 0);
    assert(quoted_from(e, depth_step(d, c)) == Seq::<char>::empty());
    assert(depth_after(e, depth_step(d, c)) == depth_step(d, c));
    assert(seq![c][0] == c);
    assert(quoted_from(seq![c], d) =~= if d > 0 || depth_step(d, c) > 0 {
        seq![c]
    } else {
        Seq::<char>::empty()
    });
}

proof fn lemma_old_forms_quotes(s: Seq<char>, i: int)
    requires
        0 <= i <= s.len(),
    ensures
        quoted_from(old_forms_from(s, i), quote_depth(s, i)) == quoted_from(s.skip(i), quote_depth(s, i)),
        depth_after(old_forms_from(s, i), quote_depth(s, i)) == depth_after(s.skip(i), quote_depth(s, i)),
    decreases s.len() - i,
{
    if i < s.len() {
        let d = quote_depth(s, i);
        assert(quote_depth(s, i + 1) == depth_step(d, s[i]));
        assert(s.skip(i) =~= seq![s[i]] + s.skip(i + 1));
        lemma_quoted_concat(seq![s[i]], s.skip(i + 1), d);
        lemma_one(s[i], d);
        lemma_rule_literals();
        if quote_depth(s, i + 1) == 0 && old_no_at(s, i) {
            lemma_old_forms_quotes(s, i + 1);
            lemma_quoted_concat(seq!['の'], old_forms_from(s, i + 1), d);
            lemma_one('の', d);
            assert(d == 0);
            assert(quoted_from(old_forms_from(s, i), d) =~= quoted_from(old_forms_from(s, i + 1), 0));
            assert(quoted_from(s.skip(i), d) =~= quoted_from(s.skip(i + 1), 0));
        } else if quote_depth(s, i + 1) == 0 && pair_at(s, i, '但', '書') {
            assert(d == 0);
            assert(quote_depth(s, i + 2) == depth_step(0, s[i + 1]));
            assert(quote_depth(s, i + 2) == 0);
            lemma_old_forms_quotes(s, i + 2);
            assert(s.skip(i) =~= seq![s[i], s[i + 1]] + s.skip(i + 2));
            lemma_quoted_concat(seq![s[i], s[i + 1]], s.skip(i + 2), 0);
            lemma_quoted_concat("ただし書"@, old_forms_from(s, i + 2), 0);
            assert(no_open(seq![s[i], s[i + 1]])) by {
                lemma_no_open_lit(seq![s[i], s[i + 1]]);
            }
            lemma_quoted_plain(seq![s[i], s[i + 1]]);
            lemma_quoted_plain("ただし書"@);
            assert(quoted_from(old_forms_from(s, i), d) =~= quoted_from(old_forms_from(s, i + 2), 0));
            assert(quoted_from(s.skip(i), d) =~= quoted_from(s.skip(i + 2), 0));
        } else if quote_depth(s, i + 1) == 0 && pair_at(s, i, '左', 'の') {
            assert(d == 0);
            assert(quote_depth(s, i + 2) == depth_step(0, s[i + 1]));
            assert(quote_depth(s, i + 2) == 0);
            lemma_old_forms_quotes(s, i + 2);
            assert(s.skip(i) =~= seq![s[i], s[i + 1]] + s.skip(i + 2));
            lemma_quoted_concat(seq![s[i], s[i + 1]], s.skip(i + 2), 0);
            lemma_quoted_concat("次の"@, old_forms_from(s, i + 2), 0);
            assert(no_open(seq![s[i], s[i + 1]])) by {
                lemma_no_open_lit(seq![s[i], s[i + 1]]);
            }
            lemma_quoted_plain(seq![s[i], s[i + 1]]);
            lemma_quoted_plain("次の"@);
            assert(quoted_from(old_forms_from(s, i), d) =~= quoted_from(old_forms_from(s, i + 2), 0));
            assert(quoted_from(s.skip(i), d) =~= quoted_from(s.skip(i + 2), 0));
        } else {
            lemma_old_forms_quotes(s, i + 1);
            lemma_quoted_concat(seq![s[i]], old_forms_from(s, i + 1), d);
        }
    }
}

/// Writing the old forms the present way (`ノ`, `但書`, `左の`) keeps every quoted
/// phrase as it is.
pub proof fn law_old_forms_keep_quotes(s: Seq<char>)
    ensures
        quoted_text(old_forms_from(s, 0)) == quoted_text(s),
{
    lemma_old_forms_quotes(s, 0);
    assert(s.skip(0) =~= s);
}

proof fn lemma_unquoted_quotes(s: Seq<char>, i: int)
    requires
        0 <= i <= s.len(),
    ensures
        ({
            let (d, out, span) = unquoted_state(s, i);
            &&& d == quote_depth(s, i)
            &&& d >= 0
            &&& depth_after(s.take(i), 0) == d
            &&& depth_after(out, 0) == d
            &&& (d > 0 ==> span.len() == 0)
            &&& no_open(span)
            &&& quoted_from(s.take(i), 0) == quoted_from(out, 0)
        }),
    decreases i,
{
    if i == 0 {
        assert(s.take(0) =~= Seq::<char>::empty());
        assert(no_open(Seq::<char>::empty()));
    } else {
        lemma_unquoted_quotes(s, i - 1);
        let (d, out, span) = unquoted_state(s, i - 1);
        let c = s[i - 1];
        assert(s.take(i) =~= s.take(i - 1) + seq![c]);
        lemma_quoted_concat(s.take(i - 1), seq![c], 0);
        lemma_one(c, d);
        assert(quote_depth(s, i) == depth_step(d, c));
        if c == '「' {
            if d == 0 {
                lemma_span_fix_no_open(span);
                lemma_quoted_plain(span_fix(span));
                lemma_quoted_concat(out, span_fix(span), 0);
                lemma_quoted_concat(out + span_fix(span), seq!['「'], 0);
                assert(no_open(Seq::<char>::empty()));
                assert(quoted_from(out + span_fix(span), 0) =~= quoted_from(out, 0));
            } else {
                lemma_quoted_concat(out, seq!['「'], 0);
            }
        } else if c == '」' && d > 0 {
            lemma_quoted_concat(out, seq!['」'], 0);
        } else if d > 0 {
            lemma_quoted_concat(out, seq![c], 0);
        } else {
            assert(quoted_from(s.take(i), 0) =~= quoted_from(s.take(i - 1), 0));
            assert(no_open(span.push(c))) by {
                if span.push(c).contains('「') {
                    let k = choose|k: int| 0 <= k < span.push(c).len() && span.push(c)[k] == '「';
                    if k < span.len() {
                        assert(span[k] == '「');
                    }
                }
            }
        }
    }
}

/// Fixing the text between the quoted phrases keeps every quoted phrase as it is.
pub proof fn law_unquoted_fixes_keep_quotes(s: Seq<char>)
    ensures
        quoted_text(fix_unquoted(s)) == quoted_text(s),
{
    lemma_unquoted_quotes(s, s.len() as int);
    let (d, out, span) = unquoted_state(s, s.len() as int);
    assert(s.take(s.len() as int) =~= s);
    lemma_quoted_concat(out, span_fix(span), 0);
    if d == 0 {
        lemma_span_fix_no_open(span);
        lemma_quoted_plain(span_fix(span));
    } else {
        assert(span =~= Seq::<char>::empty());
        lemma_span_fix_empty();
    }
    assert(quoted_from(span_fix(span), d) =~= Seq::<char>::empty()) by {
        if d > 0 {
            assert(span_fix(span) =~= Seq::<char>::empty());
        }
    }
}

} // verus!
