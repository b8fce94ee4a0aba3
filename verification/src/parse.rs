//! Pieces of the reader of amendment instructions: its errors, the iroha order of the
//! sub-items (`イ`, `ロ`, …), quoted phrases, and completed sub-item references.

use vstd::prelude::*;
use crate::text::{chars_of, push_char, push_str, push_string, string_of};

verus! {

/// Why an instruction could not be read.
#[derive(Debug, PartialEq, Eq)]
pub enum ParseError {
    /// A segment of an instruction that matches no known form.
    Unrecognized(String),
    /// `同条`, `同項` (the same article, paragraph) without an antecedent.
    NoAntecedent(String),
    /// No preamble line (`第N条　X法…の一部を次のように改正する。`).
    NoHeader,
    /// The sentence (one instruction) that could not be read, and why.
    InSentence { line: String, err: Box<ParseError> },
}

/// The cause of an error: the error itself, or, for an error in a sentence, the cause of
/// the error it wraps.
pub open spec fn spec_cause(e: ParseError) -> ParseError
    decreases e,
{
    match e {
        ParseError::InSentence { err, .. } => spec_cause(*err),
        _ => e,
    }
}

/// The message of an error (what `Display` shows).
pub open spec fn spec_message(e: ParseError) -> Seq<char>
    decreases e,
{
    match e {
        ParseError::Unrecognized(s) => "unrecognized instruction segment: "@ + s@,
        ParseError::NoAntecedent(s) => "「同条」「同項」の先行詞が無い: "@ + s@,
        ParseError::NoHeader => "no header line (第N条　X法…の一部を次のように改正する。)"@,
        ParseError::InSentence { line, err } => spec_message(*err) + "（"@ + line@ + "）"@,
    }
}

impl ParseError {
    /// The cause with the sentences unwrapped.
    pub fn cause(&self) -> (r: &ParseError)
        ensures
            *r == spec_cause(*self),
        decreases self,
    {
        match self {
            ParseError::InSentence { err, .. } => err.cause(),
            e => e,
        }
    }

    /// The error, placed in the sentence `line` (an error already placed in a sentence stays
    /// as it is).
    pub fn in_sentence(self, line: &str) -> (r: ParseError)
        ensures
            r == (match self {
                ParseError::InSentence { .. } => self,
                _ => ParseError::InSentence { line: r->line, err: Box::new(self) },
            }),
            !(self is InSentence) ==> r->line@ == line@,
    {
        match self {
            ParseError::InSentence { line, err } => ParseError::InSentence { line, err },
            e => {
                let mut l = String::new();
                push_str(&mut l, line);
                ParseError::InSentence { line: l, err: Box::new(e) }
            },
        }
    }

    /// The message of the error, as `Display` shows it.
    pub fn message(&self) -> (r: String)
        ensures
            r@ == spec_message(*self),
        decreases self,
    {
        let mut r = String::new();
        match self {
            ParseError::Unrecognized(s) => {
                push_str(&mut r, "unrecognized instruction segment: ");
                push_string(&mut r, s);
            },
            ParseError::NoAntecedent(s) => {
                push_str(&mut r, "「同条」「同項」の先行詞が無い: ");
                push_string(&mut r, s);
            },
            ParseError::NoHeader => {
                push_str(&mut r, "no header line (第N条　X法…の一部を次のように改正する。)");
            },
            ParseError::InSentence { line, err } => {
                r = err.message();
                push_str(&mut r, "（");
                push_string(&mut r, line);
                push_str(&mut r, "）");
            },
        }
        r
    }
}

/// The symbols of the sub-items of an item, in iroha order.
pub open spec fn kana_seq() -> Seq<char> {
    seq![
        'イ', 'ロ', 'ハ', 'ニ', 'ホ', 'ヘ', 'ト', 'チ', 'リ', 'ヌ', 'ル', 'ヲ', 'ワ', 'カ', 'ヨ', 'タ', 'レ',
        'ソ', 'ツ', 'ネ', 'ナ', 'ラ', 'ム', 'ウ', 'ヰ', 'ノ', 'オ', 'ク', 'ヤ', 'マ', 'ケ', 'フ', 'コ', 'エ',
        'テ', 'ア', 'サ', 'キ', 'ユ', 'メ', 'ミ', 'シ', 'ヱ', 'ヒ', 'モ', 'セ', 'ス',
    ]
}

pub(crate) fn kana_table() -> (r: Vec<char>)
    ensures
        r@ == kana_seq(),
{
    let r = vec![
        'イ', 'ロ', 'ハ', 'ニ', 'ホ', 'ヘ', 'ト', 'チ', 'リ', 'ヌ', 'ル', 'ヲ', 'ワ', 'カ', 'ヨ', 'タ', 'レ',
        'ソ', 'ツ', 'ネ', 'ナ', 'ラ', 'ム', 'ウ', 'ヰ', 'ノ', 'オ', 'ク', 'ヤ', 'マ', 'ケ', 'フ', 'コ', 'エ',
        'テ', 'ア', 'サ', 'キ', 'ユ', 'メ', 'ミ', 'シ', 'ヱ', 'ヒ', 'モ', 'セ', 'ス',
    ];
    assert(r@ =~= kana_seq());
    r
}

/// The place (from 1) of the first symbol in iroha order that `k` starts with; 0 when `k`
/// starts with none (`ロ` is 2).
pub open spec fn spec_kana_index(k: Seq<char>) -> nat {
    if k.len() > 0 && kana_seq().contains(k[0]) {
        (choose|i: int| 0 <= i < kana_seq().len() && kana_seq()[i] == k[0] && forall|j: int|
            0 <= j < i ==> kana_seq()[j] != k[0]) as nat + 1
    } else {
        0
    }
}

/// The `n`-th symbol in iroha order (from 1; nothing for 0 or past the last).
pub open spec fn spec_kana_of(n: nat) -> Seq<char> {
    let i: int = if n == 0 { 0 } else { n - 1 };
    if i < kana_seq().len() {
        seq![kana_seq()[i]]
    } else {
        Seq::empty()
    }
}

/// `ロ` → 2: the place in iroha order of the symbol `k` starts with, 0 when none.
pub fn kana_index(k: &str) -> (r: u32)
    ensures
        r == spec_kana_index(k@),
        r <= 47,
{
    let ks = kana_table();
    let cs = chars_of(k);
    if cs.len() == 0 {
        return 0;
    }
    let c = cs[0];
    let mut i: usize = 0;
    while i < ks.len()
        invariant
            i <= ks.len(),
            ks@ == kana_seq(),
            cs@ == k@,
            k@.len() > 0,
            c == k@[0],
            forall|j: int| 0 <= j < i ==> kana_seq()[j] != c,
        decreases ks.len() - i,
    {
        if ks[i] == c {
            let ghost w = choose|m: int| 0 <= m < kana_seq().len() && kana_seq()[m] == c && forall|j: int|
                0 <= j < m ==> kana_seq()[j] != c;
            assert(kana_seq().contains(c));
            assert(0 <= w < kana_seq().len() && kana_seq()[w] == c && forall|j: int| 0 <= j < w ==> kana_seq()[j] != c) by {
                assert(exists|m: int| 0 <= m < kana_seq().len() && kana_seq()[m] == c && forall|j: int|
                    0 <= j < m ==> kana_seq()[j] != c) by {
                    assert(kana_seq()[i as int] == c);
                }
            }
            proof {
                if w > i as int {
                    assert(kana_seq()[i as int] != c);
                }
                if w < i as int {
                    assert(kana_seq()[w] != c);
                }
                assert(w == i as int);
            }
            return (i + 1) as u32;
        }
        i = i + 1;
    }
    assert(!kana_seq().contains(c));
    0
}

/// 2 → `ロ`: the `n`-th symbol in iroha order (0 counts as 1; empty past the last).
pub fn kana_of(n: u32) -> (r: String)
    ensures
        r@ == spec_kana_of(n as nat),
{
    let ks = kana_table();
    let mut r = String::new();
    let i: usize = if n == 0 { 0 } else { (n - 1) as usize };
    if i < ks.len() {
        push_char(&mut r, ks[i]);
    }
    r
}

/// The symbols are distinct, so the place of the `n`-th symbol is `n`.
pub proof fn law_kana_index_of_kana(n: nat)
    requires
        1 <= n <= 47,
    ensures
        spec_kana_index(spec_kana_of(n)) == n,
{
    let ks = kana_seq();
    assert(ks.len() == 47);
    let c = ks[n - 1];
    assert forall|j: int| 0 <= j < n - 1 implies ks[j] != c by {
        assert(ks[0] == 'イ' && ks[1] == 'ロ' && ks[2] == 'ハ' && ks[3] == 'ニ' && ks[4] == 'ホ');
    }
    let s = spec_kana_of(n);
    assert(s[0] == c);
    assert(ks.contains(c));
    let w = choose|i: int| 0 <= i < ks.len() && ks[i] == c && forall|j: int| 0 <= j < i ==> ks[j] != c;
    assert(exists|i: int| 0 <= i < ks.len() && ks[i] == c && forall|j: int| 0 <= j < i ==> ks[j] != c) by {
        assert(ks[n - 1] == c);
    }
    if w < n - 1 {
        assert(ks[w] != c);
    } else if w > n - 1 {
        assert(ks[n - 1] != c);
    }
}


/// The position of the `」` that closes the phrase, reading `r` from `i` at quote depth `depth`.
pub open spec fn close_scan(r: Seq<char>, i: int, depth: int) -> Option<int>
    decreases r.len() - i,
{
    if i < 0 || i >= r.len() {
        None
    } else if r[i] == '「' {
        close_scan(r, i + 1, depth + 1)
    } else if r[i] == '」' {
        if depth - 1 == 0 { Some(i) } else { close_scan(r, i + 1, depth - 1) }
    } else {
        close_scan(r, i + 1, depth)
    }
}

/// The end of the run of `」` that starts at `i`.
pub open spec fn closer_run_end(r: Seq<char>, i: int) -> int
    decreases r.len() - i,
{
    if 0 <= i < r.len() && r[i] == '」' {
        closer_run_end(r, i + 1)
    } else {
        i
    }
}

proof fn lemma_closer_run_end(r: Seq<char>, i: int)
    requires
        0 <= i <= r.len(),
    ensures
        i <= closer_run_end(r, i) <= r.len(),
    decreases r.len() - i,
{
    if i < r.len() && r[i] == '」' {
        lemma_closer_run_end(r, i + 1);
    }
}

proof fn lemma_close_scan(r: Seq<char>, i: int, depth: int)
    requires
        0 <= i <= r.len(),
    ensures
        close_scan(r, i, depth) matches Some(k) ==> i <= k < r.len(),
    decreases r.len() - i,
{
    if i < r.len() {
        if r[i] == '「' {
            lemma_close_scan(r, i + 1, depth + 1);
        } else if r[i] == '」' {
            if depth - 1 != 0 {
                lemma_close_scan(r, i + 1, depth - 1);
            }
        } else {
            lemma_close_scan(r, i + 1, depth);
        }
    }
}

/// The quoted phrase at the start of `s` and what follows it. The phrase ends at the `」`
/// that balances the opening `「`; when more `」` follow it directly, the phrase itself ends
/// in `」` (a phrase that quotes), and only the last of them closes it. `None` when `s` does
/// not start with `「` or the phrase is not closed.
pub open spec fn spec_take_quoted(s: Seq<char>) -> Option<(Seq<char>, Seq<char>)> {
    if s.len() > 0 && s[0] == '「' {
        let r = s.drop_first();
        match close_scan(r, 0, 1) {
            Some(i) => {
                let j = closer_run_end(r, i + 1);
                Some((r.take(j - 1), r.skip(j)))
            },
            None => None,
        }
    } else {
        None
    }
}

/// A quoted phrase and what follows it are at least two characters shorter than the text.
pub proof fn lemma_take_quoted_len(s: Seq<char>)
    ensures
        spec_take_quoted(s) matches Some((q, r)) ==> q.len() + r.len() + 2 <= s.len(),
{
    if s.len() > 0 && s[0] == '「' {
        let r = s.drop_first();
        lemma_close_scan(r, 0, 1);
        if let Some(i) = close_scan(r, 0, 1) {
            lemma_closer_run_end(r, i + 1);
        }
    }
}

/// Reads the quoted phrase at the start of `s`: the phrase, and the rest after its closing `」`.
pub fn take_quoted(s: &str) -> (r: Option<(String, &str)>)
    ensures
        match r {
            Some((q, rest)) => spec_take_quoted(s@) == Some((q@, rest@)),
            None => spec_take_quoted(s@) is None,
        },
{
    let cs = chars_of(s);
    if cs.len() == 0 || cs[0] != '「' {
        return None;
    }
    let ghost r = s@.drop_first();
    let mut depth: usize = 1;
    let mut i: usize = 1;
    while i < cs.len()
        invariant
            1 <= i <= cs.len(),
            cs@ == s@,
            s@.len() > 0 && s@[0] == '「',
            r == s@.drop_first(),
            depth >= 1,
            depth <= i,
            close_scan(r, 0, 1) == close_scan(r, i - 1, depth as int),
        decreases cs.len() - i,
    {
        let c = cs[i];
        assert(r[i - 1] == c);
        if c == '「' {
            depth = depth + 1;
        } else if c == '」' {
            if depth == 1 {
                let mut j = i + 1;
                while j < cs.len() && cs[j] == '」'
                    invariant
                        i + 1 <= j <= cs.len(),
                        cs@ == s@,
                        r == s@.drop_first(),
                        closer_run_end(r, i as int) == closer_run_end(r, j - 1),
                    decreases cs.len() - j,
                {
                    j = j + 1;
                }
                proof {
                    lemma_closer_run_end(r, i as int);
                    assert(close_scan(r, i - 1, depth as int) == Some((i - 1) as int));
                    if j < cs.len() {
                        assert(r[j - 1] != '」');
                    }
                    assert(closer_run_end(r, j - 1) == j - 1);
                }
                let q = string_of(crate::text::slice_range(cs.as_slice(), 1, j - 1).as_slice());
                assert(q@ =~= r.take(j - 2));
                let rest = s.substring_char(j, cs.len());
                assert(rest@ =~= r.skip(j - 1));
                assert(close_scan(r, 0, 1) == Some((i - 1) as int));
                assert(closer_run_end(r, (i - 1) + 1) == j - 1);
                assert(spec_take_quoted(s@) == Some((r.take(j - 2), r.skip(j - 1))));
                return Some((q, rest));
            }
            depth = depth - 1;
        }
        i = i + 1;
    }
    None
}

/// A character that stands in for a `「` inside a phrase.
pub open spec fn mask_open() -> char {
    '\u{E030}'
}

/// A character that stands in for a `」` inside a phrase.
pub open spec fn mask_close() -> char {
    '\u{E031}'
}

/// The masked brackets of a phrase restored.
pub open spec fn spec_unmask(s: Seq<char>) -> Seq<char> {
    s.map_values(|c: char| if c == mask_open() { '「' } else if c == mask_close() { '」' } else { c })
}

/// Restores the brackets that were masked inside phrases.
pub fn unmask(s: &str) -> (r: String)
    ensures
        r@ == spec_unmask(s@),
{
    let cs = chars_of(s);
    let mut r = String::new();
    let mut i: usize = 0;
    while i < cs.len()
        invariant
            i <= cs.len(),
            cs@ == s@,
            r@ == spec_unmask(s@).take(i as int),
        decreases cs.len() - i,
    {
        let c = cs[i];
        let d = if c == '\u{E030}' { '「' } else if c == '\u{E031}' { '」' } else { c };
        push_char(&mut r, d);
        assert(spec_unmask(s@).take(i + 1) == spec_unmask(s@).take(i as int).push(d));
        i = i + 1;
    }
    assert(spec_unmask(s@).take(cs.len() as int) == spec_unmask(s@));
    r
}

/// An opening bracket, half- or full-width.
pub open spec fn is_open_paren(c: char) -> bool {
    c == '(' || c == '（'
}

/// A closing bracket, half- or full-width.
pub open spec fn is_close_paren(c: char) -> bool {
    c == ')' || c == '）'
}

/// The end of the group that starts at `i`: just after the first closing bracket from `i`
/// on, or the end of the text.
pub open spec fn group_end(c: Seq<char>, i: int) -> int
    decreases c.len() - i,
{
    if i >= c.len() {
        c.len() as int
    } else if is_close_paren(c[i]) {
        i + 1
    } else {
        group_end(c, i + 1)
    }
}

pub proof fn lemma_group_end(c: Seq<char>, i: int)
    requires
        0 <= i < c.len(),
    ensures
        i < group_end(c, i) <= c.len(),
    decreases c.len() - i,
{
    if !is_close_paren(c[i]) {
        if i + 1 < c.len() {
            lemma_group_end(c, i + 1);
        } else {
            assert(group_end(c, i + 1) == c.len());
        }
    }
}

/// The first opening bracket in `[i, e)`, or `e` when there is none.
pub open spec fn first_open(c: Seq<char>, i: int, e: int) -> int
    decreases e - i,
{
    if i >= e {
        e
    } else if is_open_paren(c[i]) {
        i
    } else {
        first_open(c, i + 1, e)
    }
}

pub proof fn lemma_first_open(c: Seq<char>, i: int, e: int)
    requires
        i <= e,
    ensures
        i <= first_open(c, i, e) <= e,
    decreases e - i,
{
    if i < e && !is_open_paren(c[i]) {
        lemma_first_open(c, i + 1, e);
    }
}

/// The way a bracketed number is written: 0 for digits (half- or full-width), 1 for roman
/// numerals (`i`, `v`, `x`), 2 for anything else.
pub open spec fn style_of(c: char) -> int {
    if ('0' <= c <= '9') || ('０' <= c <= '９') {
        0
    } else if c == 'i' || c == 'v' || c == 'x' || c == 'ｉ' || c == 'ｖ' || c == 'ｘ' {
        1
    } else {
        2
    }
}

/// The first index from `i` on that holds no opening bracket.
pub open spec fn opens_end(p: Seq<char>, i: int) -> int
    decreases p.len() - i,
{
    if 0 <= i < p.len() && is_open_paren(p[i]) {
        opens_end(p, i + 1)
    } else {
        i
    }
}

/// The style of a bracketed group: that of its first character after the opening
/// brackets (a space when there is none).
pub open spec fn paren_style(p: Seq<char>) -> int {
    let k = opens_end(p, 0);
    style_of(if k < p.len() { p[k] } else { ' ' })
}

/// What stays of the reference `c` (from `i` on) before a sub-item of style `st` is added:
/// the groups before the first one whose bracket has that style, and that group up to its
/// bracket.
pub open spec fn kept_from(c: Seq<char>, i: int, st: int) -> Seq<char>
    decreases c.len() - i,
{
    if i < 0 || i >= c.len() {
        Seq::empty()
    } else {
        proof {
            lemma_group_end(c, i);
        }
        let e = group_end(c, i);
        let o = first_open(c, i, e);
        if o < e && paren_style(c.subrange(o, e)) == st {
            c.subrange(i, o)
        } else {
            c.subrange(i, e) + kept_from(c, e, st)
        }
    }
}

/// A sub-item reference `(3)` completed from the one before (`ロ(2)`): a bracket written
/// in the same style as the last one of the reference before replaces it (`ロ(3)`), one
/// of another style goes below it (`ロ(2)(i)`). A reference that does not start with a
/// bracket, or has nothing before it, stays as it is.
pub open spec fn spec_full_sub(s: Seq<char>, ctx: Option<Seq<char>>) -> Seq<char> {
    if s.len() > 0 && is_open_paren(s[0]) {
        match ctx {
            Some(c) => kept_from(c, 0, paren_style(s.subrange(0, group_end(s, 0)))) + s,
            None => s,
        }
    } else {
        s
    }
}

fn group_end_at(c: &Vec<char>, i: usize) -> (e: usize)
    requires
        i <= c.len(),
    ensures
        e == group_end(c@, i as int),
{
    let mut k = i;
    while k < c.len() && c[k] != ')' && c[k] != '）'
        invariant
            i <= k <= c.len(),
            group_end(c@, k as int) == group_end(c@, i as int),
        decreases c.len() - k,
    {
        k = k + 1;
    }
    if k < c.len() {
        k + 1
    } else {
        k
    }
}

fn first_open_in(c: &Vec<char>, i: usize, e: usize) -> (o: usize)
    requires
        i <= e <= c.len(),
    ensures
        o == first_open(c@, i as int, e as int),
{
    let mut k = i;
    while k < e && c[k] != '(' && c[k] != '（'
        invariant
            i <= k <= e,
            e <= c.len(),
            first_open(c@, k as int, e as int) == first_open(c@, i as int, e as int),
        decreases e - k,
    {
        k = k + 1;
    }
    k
}

fn paren_style_of(c: &Vec<char>, o: usize, e: usize) -> (st: u8)
    requires
        o <= e <= c.len(),
    ensures
        st == paren_style(c@.subrange(o as int, e as int)),
{
    let ghost p = c@.subrange(o as int, e as int);
    let mut k = o;
    while k < e && (c[k] == '(' || c[k] == '（')
        invariant
            o <= k <= e,
            e <= c.len(),
            p == c@.subrange(o as int, e as int),
            opens_end(p, k - o) == opens_end(p, 0),
        decreases e - k,
    {
        assert(p[k - o] == c@[k as int]);
        k = k + 1;
    }
    proof {
        if k < e {
            assert(p[k - o] == c@[k as int]);
        }
    }
    let inner = if k < e { c[k] } else { ' ' };
    if (inner >= '0' && inner <= '9') || (inner >= '０' && inner <= '９') {
        0
    } else if inner == 'i' || inner == 'v' || inner == 'x' || inner == 'ｉ' || inner == 'ｖ' || inner == 'ｘ' {
        1
    } else {
        2
    }
}

/// Completes a sub-item reference `(3)` from the one before it (see [`spec_full_sub`]).
pub fn full_sub(s: &str, ctx: Option<&str>) -> (r: String)
    ensures
        r@ == spec_full_sub(s@, match ctx { Some(c) => Some(c@), None => None }),
{
    let sc = chars_of(s);
    if !(sc.len() > 0 && (sc[0] == '(' || sc[0] == '（')) {
        return String::from_str(s);
    }
    let c = match ctx {
        Some(c) => c,
        None => {
            return String::from_str(s);
        },
    };
    let fe = group_end_at(&sc, 0);
    proof {
        lemma_group_end(sc@, 0);
    }
    let st = paren_style_of(&sc, 0, fe);
    let cc = chars_of(c);
    let mut keep: Vec<char> = Vec::new();
    let mut i: usize = 0;
    while i < cc.len()
        invariant
            i <= cc.len(),
            keep@ + kept_from(cc@, i as int, st as int) == kept_from(cc@, 0, st as int),
        decreases cc.len() - i,
    {
        let e = group_end_at(&cc, i);
        proof {
            lemma_group_end(cc@, i as int);
            lemma_first_open(cc@, i as int, e as int);
        }
        let o = first_open_in(&cc, i, e);
        if o < e && paren_style_of(&cc, o, e) == st {
            let ghost before = keep@;
            let mut k = i;
            while k < o
                invariant
                    i <= k <= o <= cc.len(),
                    keep@ == before + cc@.subrange(i as int, k as int),
                decreases o - k,
            {
                keep.push(cc[k]);
                k = k + 1;
                assert(cc@.subrange(i as int, k as int) == cc@.subrange(i as int, k - 1).push(cc@[k - 1]));
            }
            assert(kept_from(cc@, i as int, st as int) == cc@.subrange(i as int, o as int));
            assert(keep@ == kept_from(cc@, 0, st as int)) by {
                assert(kept_from(cc@, 0, st as int) == before + cc@.subrange(i as int, o as int));
            }
            i = cc.len();
            assert(kept_from(cc@, i as int, st as int) == Seq::<char>::empty());
            assert(keep@ + kept_from(cc@, i as int, st as int) == keep@);
        } else {
            let ghost before = keep@;
            let mut k = i;
            while k < e
                invariant
                    i <= k <= e <= cc.len(),
                    keep@ == before + cc@.subrange(i as int, k as int),
                decreases e - k,
            {
                keep.push(cc[k]);
                k = k + 1;
                assert(cc@.subrange(i as int, k as int) == cc@.subrange(i as int, k - 1).push(cc@[k - 1]));
            }
            assert(kept_from(cc@, i as int, st as int) == cc@.subrange(i as int, e as int) + kept_from(cc@, e as int, st as int));
            assert(keep@ + kept_from(cc@, e as int, st as int) == before + kept_from(cc@, i as int, st as int));
            i = e;
        }
    }
    assert(kept_from(cc@, i as int, st as int) == Seq::<char>::empty());
    assert(keep@ == kept_from(cc@, 0, st as int));
    let mut r = string_of(keep.as_slice());
    push_str(&mut r, s);
    r
}

} // verus!
