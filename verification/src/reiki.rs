//! Municipal ordinances and rules (horizontal writing) and their amendment instructions,
//! rewritten in the style of statutes.
//!
//! Ordinance instructions write numbers in Arabic digits (`第34条の７第２項中`, `次の１条を加える`)
//! and items as `(1)` or `⑴`. Only positions and counts are rewritten in statute style; the
//! quoted phrases and the text of added provisions stay as they are, so that they can be
//! matched against the ordinance before amendment.

use vstd::prelude::*;
use crate::numeral::{
    ones_part, unit_part, is_ascii_digit, is_wide_digit, kanji, spec_digits, spec_kanji, digits, wide_digit, wide_digit_char,
    ascii_value, push_decimal, spec_decimal,
};
use crate::text::{chars_of, push_char, push_str, push_string, starts_with, starts_with_str, string_of};

verus! {

/// A character in canonical width: ASCII digits, brackets, commas and periods become
/// full-width; anything else is unchanged.
pub open spec fn canonical_char(c: char) -> char {
    if is_ascii_digit(c) {
        wide_digit(ascii_value(c))
    } else if c == '(' {
        '（'
    } else if c == ')' {
        '）'
    } else if c == ',' {
        '，'
    } else if c == '.' {
        '．'
    } else {
        c
    }
}

/// The text in canonical width.
pub open spec fn spec_canonical(s: Seq<char>) -> Seq<char> {
    s.map_values(|c: char| canonical_char(c))
}

/// Unifies the width of digits, brackets and separators (published instructions write them
/// full-width, the ordinance collections write numbers of two or more digits half-width),
/// so that phrases can be matched between instructions and provisions.
pub fn canonical(s: &str) -> (r: String)
    ensures
        r@ == spec_canonical(s@),
{
    let cs = chars_of(s);
    let mut r = String::new();
    let mut i: usize = 0;
    while i < cs.len()
        invariant
            i <= cs.len(),
            cs@ == s@,
            r@ == spec_canonical(s@).take(i as int),
        decreases cs.len() - i,
    {
        let c = cs[i];
        let d = if c >= '0' && c <= '9' {
            wide_digit_char((c as u32) - ('0' as u32))
        } else if c == '(' {
            '（'
        } else if c == ')' {
            '）'
        } else if c == ',' {
            '，'
        } else if c == '.' {
            '．'
        } else {
            c
        };
        assert(d == canonical_char(s@[i as int]));
        push_char(&mut r, d);
        assert(spec_canonical(s@).take(i + 1) == spec_canonical(s@).take(i as int).push(d));
        i = i + 1;
    }
    assert(spec_canonical(s@).take(cs.len() as int) == spec_canonical(s@));
    r
}

/// The XML escape of one character: `&`, `<` and `>` become entities.
pub open spec fn esc_char(c: char) -> Seq<char> {
    if c == '&' {
        "&amp;"@
    } else if c == '<' {
        "&lt;"@
    } else if c == '>' {
        "&gt;"@
    } else {
        seq![c]
    }
}

/// The XML escape of a text, character by character.
pub open spec fn spec_esc(s: Seq<char>) -> Seq<char>
    decreases s.len(),
{
    if s.len() == 0 {
        Seq::empty()
    } else {
        spec_esc(s.drop_last()) + esc_char(s.last())
    }
}

/// Appends the XML escape of `t`.
pub fn push_esc(out: &mut String, t: &str)
    ensures
        final(out)@ == old(out)@ + spec_esc(t@),
{
    let cs = chars_of(t);
    let mut i: usize = 0;
    while i < cs.len()
        invariant
            i <= cs.len(),
            cs@ == t@,
            out@ == old(out)@ + spec_esc(t@.take(i as int)),
        decreases cs.len() - i,
    {
        let c = cs[i];
        assert(t@.take(i + 1).drop_last() == t@.take(i as int));
        if c == '&' {
            push_str(out, "&amp;");
        } else if c == '<' {
            push_str(out, "&lt;");
        } else if c == '>' {
            push_str(out, "&gt;");
        } else {
            push_char(out, c);
        }
        i = i + 1;
    }
    assert(t@.take(cs.len() as int) == t@);
}

/// The XML escape of a text: `&`, `<` and `>` become entities.
pub fn esc(s: &str) -> (r: String)
    ensures
        r@ == spec_esc(s@),
{
    let mut r = String::new();
    push_esc(&mut r, s);
    r
}

/// The state `(finished sentences, current sentence, bracket depth)` after reading `t`:
/// every character joins the current sentence; `「` and `（` open, `」` and `）` close, and a
/// `。` outside brackets ends the sentence.
pub open spec fn sentences_state(t: Seq<char>) -> (Seq<Seq<char>>, Seq<char>, int)
    decreases t.len(),
{
    if t.len() == 0 {
        (Seq::empty(), Seq::empty(), 0)
    } else {
        let (out, cur, depth) = sentences_state(t.drop_last());
        let c = t.last();
        let cur = cur.push(c);
        if c == '「' || c == '（' {
            (out, cur, depth + 1)
        } else if c == '」' || c == '）' {
            (out, cur, depth - 1)
        } else if c == '。' && depth <= 0 {
            (out.push(cur), Seq::empty(), depth)
        } else {
            (out, cur, depth)
        }
    }
}

/// The sentences of a text: split after each `。` that stands outside `「」` and `（）`; a
/// last sentence without `。` is kept.
pub open spec fn spec_split_sentences(t: Seq<char>) -> Seq<Seq<char>> {
    let (out, cur, _) = sentences_state(t);
    if cur.len() > 0 { out.push(cur) } else { out }
}

proof fn lemma_sentences_depth(t: Seq<char>)
    ensures
        -(t.len() as int) <= sentences_state(t).2 <= t.len(),
    decreases t.len(),
{
    if t.len() > 0 {
        lemma_sentences_depth(t.drop_last());
    }
}

/// The texts of a vector of strings.
pub open spec fn strings_view(v: Seq<String>) -> Seq<Seq<char>> {
    v.map_values(|s: String| s@)
}

proof fn lemma_strings_view_push(a: Seq<String>, x: String)
    ensures
        strings_view(a.push(x)) == strings_view(a).push(x@),
{
    assert(strings_view(a.push(x)) =~= strings_view(a).push(x@));
}

/// Splits a text into sentences at each `。` outside `「」` and `（）`.
pub fn split_sentences(t: &str) -> (r: Vec<String>)
    ensures
        strings_view(r@) == spec_split_sentences(t@),
{
    let cs = chars_of(t);
    let mut out: Vec<String> = Vec::new();
    let mut cur = String::new();
    let mut depth: i128 = 0;
    let mut i: usize = 0;
    while i < cs.len()
        invariant
            i <= cs.len(),
            cs@ == t@,
            (strings_view(out@), cur@, depth as int) == sentences_state(t@.take(i as int)),
        decreases cs.len() - i,
    {
        let c = cs[i];
        assert(t@.take(i + 1).drop_last() == t@.take(i as int));
        proof {
            lemma_sentences_depth(t@.take(i as int));
        }
        push_char(&mut cur, c);
        if c == '「' || c == '（' {
            depth = depth + 1;
        } else if c == '」' || c == '）' {
            depth = depth - 1;
        } else if c == '。' && depth <= 0 {
            let done = cur;
            cur = String::new();
            let ghost o0 = out@;
            out.push(done);
            proof {
                lemma_strings_view_push(o0, done);
            }
        }
        i = i + 1;
    }
    assert(t@.take(cs.len() as int) == t@);
    if !cur.as_str().is_empty() {
        let ghost o0 = out@;
        let last = cur;
        out.push(last);
        proof {
            lemma_strings_view_push(o0, last);
        }
    }
    out
}


/// The position of the first sentence that starts with `ただし` (a proviso).
pub open spec fn first_proviso(parts: Seq<Seq<char>>) -> Option<int>
    decreases parts.len(),
{
    if parts.len() == 0 {
        None
    } else {
        match first_proviso(parts.drop_last()) {
            Some(i) => Some(i),
            None => if starts_with(parts.last(), "ただし"@) {
                Some(parts.len() - 1)
            } else {
                None
            },
        }
    }
}

/// The `Function` attribute of sentence `i`: the proviso and what follows it are
/// `proviso`, what precedes it `main`; without a proviso there is none.
pub open spec fn function_attr(proviso: Option<int>, i: int) -> Seq<char> {
    match proviso {
        Some(at) => if i >= at { " Function=\"proviso\""@ } else { " Function=\"main\""@ },
        None => Seq::empty(),
    }
}

/// The `<Sentence>` elements of the first `n` sentences, numbered from 1.
pub open spec fn sentence_elems(parts: Seq<Seq<char>>, proviso: Option<int>, n: nat) -> Seq<char>
    decreases n,
{
    if n == 0 {
        Seq::empty()
    } else {
        sentence_elems(parts, proviso, (n - 1) as nat) + one_sentence_elem(parts[n - 1], proviso, n - 1)
    }
}

/// The element `tag` holding the sentences of `t` in the form of e-Gov statute data.
pub open spec fn spec_sentence(tag: Seq<char>, t: Seq<char>) -> Seq<char> {
    let parts = spec_split_sentences(t);
    "<"@ + tag + ">"@ + sentence_elems(parts, first_proviso(parts), parts.len())
        + (if parts.len() == 0 { "<Sentence></Sentence>"@ } else { Seq::empty() }) + "</"@ + tag + ">"@
}

/// The `<Sentence>` element of the sentence `part`, numbered `i + 1`.
pub open spec fn one_sentence_elem(part: Seq<char>, proviso: Option<int>, i: int) -> Seq<char> {
    "<Sentence Num=\""@ + spec_decimal((i + 1) as nat) + "\""@ + function_attr(proviso, i) + ">"@ + spec_esc(part)
        + "</Sentence>"@
}

fn sentence_elem(i: usize, proviso: Option<usize>, part: &str) -> (e: String)
    requires
        i < usize::MAX,
    ensures
        e@ == one_sentence_elem(
            part@,
            match proviso {
                Some(at) => Some(at as int),
                None => None,
            },
            i as int,
        ),
{
    let mut x = String::new();
    push_str(&mut x, "<Sentence Num=\"");
    push_decimal(&mut x, (i + 1) as u64);
    push_str(&mut x, "\"");
    match proviso {
        Some(at) => {
            if i >= at {
                push_str(&mut x, " Function=\"proviso\"");
            } else {
                push_str(&mut x, " Function=\"main\"");
            }
        },
        None => {},
    }
    push_str(&mut x, ">");
    push_esc(&mut x, part);
    push_str(&mut x, "</Sentence>");
    x
}

/// A text as an element `tag` of sentences in the form of e-Gov statute data: from the
/// first sentence that starts with `ただし` on, the sentences are the proviso
/// (`Function="proviso"`) and those before it the main text; without a proviso, two or more
/// sentences are only numbered.
pub fn sentence(tag: &str, t: &str) -> (x: String)
    ensures
        x@ == spec_sentence(tag@, t@),
{
    let parts = split_sentences(t);
    let ghost ps = strings_view(parts@);
    let mut proviso: Option<usize> = None;
    let mut k: usize = 0;
    while k < parts.len()
        invariant
            k <= parts.len(),
            ps == strings_view(parts@),
            match proviso {
                Some(at) => first_proviso(ps.take(k as int)) == Some(at as int),
                None => first_proviso(ps.take(k as int)) is None,
            },
        decreases parts.len() - k,
    {
        assert(ps.take(k + 1).drop_last() == ps.take(k as int));
        if proviso.is_none() && starts_with_str(parts[k].as_str(), "ただし") {
            proviso = Some(k);
        }
        k = k + 1;
    }
    assert(ps.take(parts.len() as int) == ps);
    let ghost fp = first_proviso(ps);
    let mut x = String::new();
    push_str(&mut x, "<");
    push_str(&mut x, tag);
    push_str(&mut x, ">");
    let ghost head = x@;
    let mut i: usize = 0;
    while i < parts.len()
        invariant
            i <= parts.len(),
            ps == strings_view(parts@),
            fp == first_proviso(ps),
            match proviso {
                Some(at) => fp == Some(at as int),
                None => fp is None,
            },
            x@ == head + sentence_elems(ps, fp, i as nat),
        decreases parts.len() - i,
    {
        let e = sentence_elem(i, proviso, parts[i].as_str());
        let ghost before = x@;
        push_string(&mut x, &e);
        proof {
            assert(sentence_elems(ps, fp, (i + 1) as nat) == sentence_elems(ps, fp, i as nat) + one_sentence_elem(
                ps[i as int],
                fp,
                i as int,
            ));
            assert(x@ =~= head + sentence_elems(ps, fp, (i + 1) as nat));
        }
        i = i + 1;
    }
    if parts.len() == 0 {
        push_str(&mut x, "<Sentence></Sentence>");
    }
    push_str(&mut x, "</");
    push_str(&mut x, tag);
    push_str(&mut x, ">");
    x
}

/// The cells of a row as `<TableColumn>` elements.
pub open spec fn cells_xml(r: Seq<Seq<char>>) -> Seq<char>
    decreases r.len(),
{
    if r.len() == 0 {
        Seq::empty()
    } else {
        cells_xml(r.drop_last()) + "<TableColumn><Sentence>"@ + spec_esc(r.last()) + "</Sentence></TableColumn>"@
    }
}

/// The rows as `<TableRow>` elements.
pub open spec fn rows_xml(rows: Seq<Seq<Seq<char>>>) -> Seq<char>
    decreases rows.len(),
{
    if rows.len() == 0 {
        Seq::empty()
    } else {
        rows_xml(rows.drop_last()) + "<TableRow>"@ + cells_xml(rows.last()) + "</TableRow>"@
    }
}

/// The texts of the rows of a table.
pub open spec fn rows_view(rows: Seq<Vec<String>>) -> Seq<Seq<Seq<char>>> {
    rows.map_values(|r: Vec<String>| strings_view(r@))
}

/// A table in the form of e-Gov statute data.
pub open spec fn spec_table_xml(rows: Seq<Seq<Seq<char>>>) -> Seq<char> {
    "<TableStruct><Table>"@ + rows_xml(rows) + "</Table></TableStruct>"@
}

/// Appends a table in the form of e-Gov statute data.
pub fn push_table_xml(x: &mut String, rows: &[Vec<String>])
    ensures
        final(x)@ == old(x)@ + spec_table_xml(rows_view(rows@)),
{
    let ghost rv = rows_view(rows@);
    push_str(x, "<TableStruct><Table>");
    let ghost head = x@;
    let mut i: usize = 0;
    while i < rows.len()
        invariant
            i <= rows.len(),
            rv == rows_view(rows@),
            head == old(x)@ + "<TableStruct><Table>"@,
            x@ == head + rows_xml(rv.take(i as int)),
        decreases rows.len() - i,
    {
        assert(rv.take(i + 1).drop_last() == rv.take(i as int));
        let r = &rows[i];
        let ghost rs = strings_view(r@);
        assert(rv.take(i + 1).last() == rs);
        let ghost before = x@;
        push_str(x, "<TableRow>");
        let ghost row_head = x@;
        let mut j: usize = 0;
        while j < r.len()
            invariant
                j <= r.len(),
                rs == strings_view(r@),
                x@ == row_head + cells_xml(rs.take(j as int)),
            decreases r.len() - j,
        {
            assert(rs.take(j + 1).drop_last() == rs.take(j as int));
            push_str(x, "<TableColumn><Sentence>");
            push_esc(x, r[j].as_str());
            push_str(x, "</Sentence></TableColumn>");
            j = j + 1;
        }
        assert(rs.take(r.len() as int) == rs);
        push_str(x, "</TableRow>");
        i = i + 1;
    }
    assert(rv.take(rows.len() as int) == rv);
    push_str(x, "</Table></TableStruct>");
}

/// A table in the form of e-Gov statute data.
pub fn table_xml(rows: &[Vec<String>]) -> (x: String)
    ensures
        x@ == spec_table_xml(rows_view(rows@)),
{
    let mut x = String::new();
    push_table_xml(&mut x, rows);
    x
}


/// A half- or full-width decimal digit.
pub open spec fn is_digit(c: char) -> bool {
    is_ascii_digit(c) || is_wide_digit(c)
}

/// A run of digits as written out: its kanji numeral when it is a number below 10000,
/// otherwise the digits themselves.
pub open spec fn flush_run(run: Seq<char>) -> Seq<char> {
    if run.len() == 0 {
        Seq::empty()
    } else {
        match spec_digits(run) {
            Some(n) => if n < 10000 { spec_kanji(n as nat) } else { run },
            None => run,
        }
    }
}

/// `t[k]` and `t[k+1]` (as many of them as there are).
pub open spec fn two_from(t: Seq<char>, k: int) -> Seq<char> {
    t.subrange(k, if k + 2 <= t.len() { k + 2 } else { t.len() as int })
}

/// The state `(output, pending run of digits, quote depth)` after reading the first `i`
/// characters of `t`: a digit outside quotes joins the run; any other character first
/// writes the run out (as digits when it is followed by `の項` or `の部`, the number of a
/// row of a table; else as a kanji numeral), then updates the depth of `「」` and is copied.
pub open spec fn koq_state(t: Seq<char>, i: nat) -> (Seq<char>, Seq<char>, int)
    decreases i,
{
    if i == 0 || i > t.len() {
        (Seq::empty(), Seq::empty(), 0)
    } else {
        let (out, run, depth) = koq_state(t, (i - 1) as nat);
        let k = i - 1;
        let c = t[k];
        if is_digit(c) && depth == 0 {
            (out, run.push(c), depth)
        } else {
            let rest = two_from(t, k);
            let raw = run.len() > 0 && (rest == seq!['の', '項'] || rest == seq!['の', '部']);
            let out = if raw { out + run } else { out + flush_run(run) };
            let depth = if c == '「' {
                depth + 1
            } else if c == '」' {
                if depth > 0 { depth - 1 } else { 0 }
            } else {
                depth
            };
            (out.push(c), Seq::empty(), depth)
        }
    }
}

/// Digits outside `「」` as kanji numerals; quoted text (the wording of the ordinance) and
/// the numbers of table rows (`３７の項`, `２の部`) stay as written.
pub open spec fn spec_kanji_outside_quotes(t: Seq<char>) -> Seq<char> {
    let (out, run, _) = koq_state(t, t.len());
    out + flush_run(run)
}

proof fn lemma_koq_depth(t: Seq<char>, i: nat)
    requires
        i <= t.len(),
    ensures
        0 <= koq_state(t, i).2 <= i,
    decreases i,
{
    if i > 0 {
        lemma_koq_depth(t, (i - 1) as nat);
    }
}

fn push_run(out: &mut String, run: &Vec<char>)
    ensures
        final(out)@ == old(out)@ + flush_run(run@),
{
    if run.len() == 0 {
        return;
    }
    let s = string_of(run.as_slice());
    match digits(s.as_str()) {
        Some(n) => {
            if n < 10000 {
                let k = kanji(n);
                push_string(out, &k);
            } else {
                push_string(out, &s);
            }
        },
        None => {
            push_string(out, &s);
        },
    }
}

/// Writes the digits outside `「」` as kanji numerals (the quoted wording of the ordinance,
/// and the numbers of table rows such as `３７の項`, stay as written).
pub fn kanji_outside_quotes(line: &str) -> (out: String)
    ensures
        out@ == spec_kanji_outside_quotes(line@),
{
    let chars = chars_of(line);
    let mut out = String::new();
    let mut depth: usize = 0;
    let mut run: Vec<char> = Vec::new();
    let mut i: usize = 0;
    while i < chars.len()
        invariant
            i <= chars.len(),
            chars@ == line@,
            (out@, run@, depth as int) == koq_state(line@, i as nat),
        decreases chars.len() - i,
    {
        let c = chars[i];
        proof {
            lemma_koq_depth(line@, i as nat);
        }
        let digit = (c >= '0' && c <= '9') || (c >= '０' && c <= '９');
        if digit && depth == 0 {
            run.push(c);
        } else {
            let two = i + 1 < chars.len();
            let raw = run.len() > 0 && two && chars[i] == 'の' && (chars[i + 1] == '項' || chars[i + 1] == '部');
            proof {
                let rest = two_from(line@, i as int);
                if two {
                    assert(rest == seq![line@[i as int], line@[i + 1]]);
                } else {
                    assert(rest.len() < 2);
                }
            }
            if raw {
                let s = string_of(run.as_slice());
                push_string(&mut out, &s);
            } else {
                push_run(&mut out, &run);
            }
            run = Vec::new();
            if c == '「' {
                depth = depth + 1;
            } else if c == '」' {
                if depth > 0 {
                    depth = depth - 1;
                }
            }
            push_char(&mut out, c);
        }
        i = i + 1;
    }
    push_run(&mut out, &run);
    out
}

/// The numbers of `の`-separated fields that read as numbers.
pub open spec fn number_fields(f: Seq<Seq<char>>) -> Seq<u32>
    decreases f.len(),
{
    if f.len() == 0 {
        Seq::empty()
    } else {
        let p = number_fields(f.drop_last());
        match spec_digits(f.last()) {
            Some(n) => p.push(n),
            None => p,
        }
    }
}

/// The numbers in decimal, joined by `_` (`5_2`).
pub open spec fn joined_decimals(p: Seq<u32>) -> Seq<char>
    decreases p.len(),
{
    if p.len() == 0 {
        Seq::empty()
    } else if p.len() == 1 {
        spec_decimal(p[0] as nat)
    } else {
        joined_decimals(p.drop_last()) + seq!['_'] + spec_decimal(p.last() as nat)
    }
}

/// `第五条の二` for `[5, 2]` (`第` alone when there is no number).
pub open spec fn statute_title(p: Seq<u32>) -> Seq<char>
    decreases p.len(),
{
    if p.len() == 0 {
        seq!['第']
    } else if p.len() == 1 {
        seq!['第'] + spec_kanji(p[0] as nat) + seq!['条']
    } else {
        statute_title(p.drop_last()) + seq!['の'] + spec_kanji(p.last() as nat)
    }
}

/// The number of an ordinance article (`5_2` for `５の２`) and its title in statute style
/// (`第五条の二`): the `の`-separated fields that read as numbers.
pub fn article_num(nums: &str) -> (r: (String, String))
    ensures
        ({
            let p = number_fields(crate::text::split_on(nums@, 'の'));
            r.0@ == joined_decimals(p) && r.1@ == statute_title(p)
        }),
{
    let cs = chars_of(nums);
    let fields = crate::text::split_chars(cs.as_slice(), 'の');
    let ghost f = crate::text::split_on(nums@, 'の');
    let mut num = String::new();
    let mut title = String::new();
    push_char(&mut title, '第');
    let mut count: usize = 0;
    let ghost mut parts: Seq<u32> = Seq::empty();
    let mut i: usize = 0;
    while i < fields.len()
        invariant
            i <= fields.len(),
            crate::text::seqs_of(fields@) == f,
            f == crate::text::split_on(nums@, 'の'),
            parts == number_fields(f.take(i as int)),
            count == parts.len(),
            count <= i,
            num@ == joined_decimals(parts),
            title@ == statute_title(parts),
        decreases fields.len() - i,
    {
        assert(f.take(i + 1).drop_last() == f.take(i as int));
        assert(f.take(i + 1).last() == fields@[i as int]@);
        let s = string_of(fields[i].as_slice());
        match digits(s.as_str()) {
            Some(n) => {
                if count > 0 {
                    push_char(&mut num, '_');
                    push_char(&mut title, 'の');
                }
                push_decimal(&mut num, n as u64);
                let k = kanji(n);
                push_string(&mut title, &k);
                if count == 0 {
                    push_char(&mut title, '条');
                }
                proof {
                    parts = parts.push(n);
                    assert(parts.drop_last() == number_fields(f.take(i as int)));
                }
                count = count + 1;
            },
            None => {},
        }
        i = i + 1;
    }
    assert(f.take(fields.len() as int) == f);
    (num, title)
}

/// Why an amendment of an ordinance could not be confirmed.
#[derive(Debug, Clone, PartialEq, Eq)]
pub enum CheckFailure {
    /// The provisions could not be written in the form of e-Gov statute data.
    Document(String),
    /// The instructions could not be read.
    Parse(String),
    /// Read, but could not be applied (`unsupported` when the form is not supported).
    Apply { unsupported: bool, detail: String },
    /// The result differs from the amended ordinance (around the first difference).
    Mismatch(String),
}

impl CheckFailure {
    /// The kind of failure: `doc_error`, `parse_error`, `unsupported`, `apply_error` or `mismatch`.
    pub fn kind(&self) -> (r: &'static str)
        ensures
            r@ == match self {
                CheckFailure::Document(_) => "doc_error"@,
                CheckFailure::Parse(_) => "parse_error"@,
                CheckFailure::Apply { unsupported: true, .. } => "unsupported"@,
                CheckFailure::Apply { .. } => "apply_error"@,
                CheckFailure::Mismatch(_) => "mismatch"@,
            },
    {
        match self {
            CheckFailure::Document(_) => "doc_error",
            CheckFailure::Parse(_) => "parse_error",
            CheckFailure::Apply { unsupported: true, .. } => "unsupported",
            CheckFailure::Apply { .. } => "apply_error",
            CheckFailure::Mismatch(_) => "mismatch",
        }
    }

    /// The detail of the failure.
    pub fn detail(&self) -> (r: &str)
        ensures
            r@ == match self {
                CheckFailure::Document(d) => d@,
                CheckFailure::Parse(d) => d@,
                CheckFailure::Mismatch(d) => d@,
                CheckFailure::Apply { detail, .. } => detail@,
            },
    {
        match self {
            CheckFailure::Document(d) | CheckFailure::Parse(d) | CheckFailure::Mismatch(d) => d.as_str(),
            CheckFailure::Apply { detail, .. } => detail.as_str(),
        }
    }
}

proof fn lemma_kanji_no_open(n: nat)
    ensures
        crate::normalize::no_open(spec_kanji(n)),
{
    reveal(spec_kanji);
    let a = unit_part((n / 1000 % 10) as int, '千');
    let b = unit_part((n / 100 % 10) as int, '百');
    let c = unit_part((n / 10 % 10) as int, '十');
    let d = ones_part((n % 10) as int);
    assert forall|x: int, u: char| u != '「' implies crate::normalize::no_open(#[trigger] unit_part(x, u)) by {
        crate::normalize::lemma_no_open_lit(unit_part(x, u));
    }
    assert forall|x: int| crate::normalize::no_open(#[trigger] ones_part(x)) by {
        crate::normalize::lemma_no_open_lit(ones_part(x));
    }
    if n == 0 {
        crate::normalize::lemma_no_open_lit(seq!['〇']);
    } else {
        crate::normalize::lemma_no_open_concat(a, b);
        crate::normalize::lemma_no_open_concat(a + b, c);
        crate::normalize::lemma_no_open_concat(a + b + c, d);
    }
}

proof fn lemma_flush_no_open(run: Seq<char>)
    requires
        crate::normalize::no_open(run),
    ensures
        crate::normalize::no_open(flush_run(run)),
{
    if run.len() > 0 {
        match spec_digits(run) {
            Some(n) => if n < 10000 {
                lemma_kanji_no_open(n as nat);
            },
            None => {},
        }
    }
}

proof fn lemma_koq_quotes(t: Seq<char>, i: nat)
    requires
        i <= t.len(),
    ensures
        ({
            let (out, run, d) = koq_state(t, i);
            &&& d >= 0
            &&& crate::normalize::depth_after(t.take(i as int), 0) == d
            &&& crate::normalize::depth_after(out, 0) == d
            &&& (d > 0 ==> run.len() == 0)
            &&& crate::normalize::no_open(run)
            &&& crate::normalize::quoted_from(t.take(i as int), 0) == crate::normalize::quoted_from(out, 0)
        }),
    decreases i,
{
    if i == 0 {
        assert(t.take(0) =~= Seq::<char>::empty());
        crate::normalize::lemma_no_open_lit(Seq::<char>::empty());
    } else {
        lemma_koq_quotes(t, (i - 1) as nat);
        let (out, run, d) = koq_state(t, (i - 1) as nat);
        let k = i - 1;
        let c = t[k];
        assert(t.take(i as int) =~= t.take(k) + seq![c]);
        crate::normalize::lemma_quoted_concat(t.take(k), seq![c], 0);
        crate::normalize::lemma_one(c, d);
        if is_digit(c) && d == 0 {
            assert(c != '「' && c != '」');
            crate::normalize::lemma_no_open_lit(seq![c]);
            crate::normalize::lemma_no_open_concat(run, seq![c]);
            assert(run.push(c) =~= run + seq![c]);
            assert(crate::normalize::quoted_from(t.take(i as int), 0) =~= crate::normalize::quoted_from(t.take(k), 0));
        } else {
            let rest = two_from(t, k);
            let raw = run.len() > 0 && (rest == seq!['の', '項'] || rest == seq!['の', '部']);
            let w = if raw { run } else { flush_run(run) };
            lemma_flush_no_open(run);
            assert(crate::normalize::no_open(w));
            crate::normalize::lemma_quoted_concat(out, w, 0);
            crate::normalize::lemma_quoted_concat(out + w, seq![c], 0);
            if run.len() > 0 {
                crate::normalize::lemma_quoted_plain(w);
                assert(crate::normalize::quoted_from(out + w, 0) =~= crate::normalize::quoted_from(out, 0));
            } else {
                assert(w =~= Seq::<char>::empty());
                assert(out + w =~= out);
            }
            assert((out + w).push(c) =~= out + w + seq![c]);
            crate::normalize::lemma_no_open_lit(Seq::<char>::empty());
        }
    }
}

/// Writing digits as kanji numerals keeps every quoted phrase (the wording of the
/// ordinance) as it is.
pub proof fn law_kanji_keeps_quoted_phrases(t: Seq<char>)
    ensures
        crate::normalize::quoted_text(spec_kanji_outside_quotes(t)) == crate::normalize::quoted_text(t),
{
    lemma_koq_quotes(t, t.len());
    let (out, run, d) = koq_state(t, t.len());
    assert(t.take(t.len() as int) =~= t);
    lemma_flush_no_open(run);
    crate::normalize::lemma_quoted_concat(out, flush_run(run), 0);
    if run.len() > 0 {
        crate::normalize::lemma_quoted_plain(flush_run(run));
    } else {
        assert(flush_run(run) =~= Seq::<char>::empty());
    }
    assert(crate::normalize::quoted_from(flush_run(run), d) =~= Seq::<char>::empty()) by {
        if run.len() == 0 {
            assert(flush_run(run).len() == 0);
        }
    }
}

/// How a character moves the bracket depth: `「` and `（` open, `」` and `）` close.
pub open spec fn bracket_step(c: char) -> int {
    if c == '「' || c == '（' {
        1
    } else if c == '」' || c == '）' {
        -1
    } else {
        0
    }
}

/// The brackets a text leaves open: its openings less its closings.
pub open spec fn bracket_balance(s: Seq<char>) -> int
    decreases s.len(),
{
    if s.len() == 0 {
        0
    } else {
        bracket_balance(s.drop_last()) + bracket_step(s.last())
    }
}

/// No start of the text closes more brackets than it opens.
pub open spec fn never_over_closed(t: Seq<char>) -> bool {
    forall|i: int| 0 <= i <= t.len() ==> bracket_balance(#[trigger] t.take(i)) >= 0
}

/// The brackets of a text are well nested: none closes before it opens, and all are closed.
pub open spec fn well_nested(t: Seq<char>) -> bool {
    never_over_closed(t) && bracket_balance(t) == 0
}

/// Texts written one after another.
pub open spec fn concat_texts(ps: Seq<Seq<char>>) -> Seq<char>
    decreases ps.len(),
{
    if ps.len() == 0 {
        Seq::empty()
    } else {
        concat_texts(ps.drop_last()) + ps.last()
    }
}

/// Every `。` inside `s` but its last character stands inside brackets.
pub open spec fn inner_stops_bracketed(s: Seq<char>) -> bool {
    forall|i: int| 0 < i < s.len() && s[i - 1] == '。' ==> bracket_balance(#[trigger] s.take(i)) > 0
}

proof fn lemma_sentences_state_parts(t: Seq<char>)
    ensures
        ({
            let (out, cur, d) = sentences_state(t);
            &&& concat_texts(out) + cur == t
            &&& d == bracket_balance(t)
            &&& forall|j: int| 0 <= j < out.len() ==> (#[trigger] out[j]).len() > 0 && out[j].last() == '。'
            &&& never_over_closed(t) ==> {
                &&& bracket_balance(cur) == d
                &&& never_over_closed(cur)
                &&& forall|i: int| 0 < i <= cur.len() && cur[i - 1] == '。' ==> bracket_balance(
                    #[trigger] cur.take(i),
                ) > 0
                &&& forall|j: int| 0 <= j < out.len() ==> well_nested(#[trigger] out[j]) && inner_stops_bracketed(out[j])
            }
        }),
    decreases t.len(),
{
    if t.len() == 0 {
        assert(concat_texts(Seq::<Seq<char>>::empty()) + Seq::<char>::empty() =~= t);
        if never_over_closed(t) {
            assert forall|i: int| 0 <= i <= 0 implies bracket_balance(#[trigger] Seq::<char>::empty().take(i)) >= 0 by {
                assert(Seq::<char>::empty().take(i) =~= Seq::<char>::empty());
            }
        }
    } else {
        let p = t.drop_last();
        let c = t.last();
        lemma_sentences_state_parts(p);
        let (out0, cur0, d0) = sentences_state(p);
        let (out, cur, d) = sentences_state(t);
        let cc = cur0.push(c);
        assert(cc.drop_last() =~= cur0);
        assert(bracket_balance(cc) == bracket_balance(cur0) + bracket_step(c));
        assert(t.drop_last() == p);
        assert forall|i: int| 0 <= i <= cur0.len() implies #[trigger] cc.take(i) == cur0.take(i) by {
            assert(cc.take(i) =~= cur0.take(i));
        }
        assert(cc.take(cc.len() as int) =~= cc);
        assert(concat_texts(out0) + cc =~= t) by {
            assert(t =~= p.push(c));
        }
        if never_over_closed(t) {
            assert forall|i: int| 0 <= i <= p.len() implies bracket_balance(#[trigger] p.take(i)) >= 0 by {
                assert(p.take(i) =~= t.take(i));
            }
            assert(t.take(t.len() as int) =~= t);
            assert(bracket_balance(t) >= 0);
            assert(never_over_closed(cc)) by {
                assert forall|i: int| 0 <= i <= cc.len() implies bracket_balance(#[trigger] cc.take(i)) >= 0 by {
                    if i <= cur0.len() {
                        assert(cc.take(i) == cur0.take(i));
                    }
                }
            }
        }
        if c == '。' && d0 <= 0 && bracket_step(c) == 0 {
            let o = out0.push(cc);
            assert(o.drop_last() =~= out0);
            assert(concat_texts(o) + Seq::<char>::empty() =~= concat_texts(out0) + cc);
            assert forall|j: int| 0 <= j < o.len() implies (#[trigger] o[j]).len() > 0 && o[j].last() == '。' by {
                if j < out0.len() {
                    assert(o[j] == out0[j]);
                }
            }
            if never_over_closed(t) {
                assert(bracket_balance(cc) == 0);
                assert(inner_stops_bracketed(cc)) by {
                    assert forall|i: int| 0 < i < cc.len() && cc[i - 1] == '。' implies bracket_balance(
                        #[trigger] cc.take(i),
                    ) > 0 by {
                        assert(cc.take(i) == cur0.take(i));
                        assert(cur0[i - 1] == cc[i - 1]);
                    }
                }
                assert forall|j: int| 0 <= j < o.len() implies well_nested(#[trigger] o[j]) && inner_stops_bracketed(o[j]) by {
                    if j < out0.len() {
                        assert(o[j] == out0[j]);
                    }
                }
                assert(never_over_closed(Seq::<char>::empty())) by {
                    assert forall|i: int| 0 <= i <= 0 implies bracket_balance(#[trigger] Seq::<char>::empty().take(i)) >= 0 by {
                        assert(Seq::<char>::empty().take(i) =~= Seq::<char>::empty());
                    }
                }
            }
        } else {
            assert(cur == cc);
            assert(out == out0);
            if never_over_closed(t) {
                assert forall|i: int| 0 < i <= cc.len() && cc[i - 1] == '。' implies bracket_balance(
                    #[trigger] cc.take(i),
                ) > 0 by {
                    if i <= cur0.len() {
                        assert(cc.take(i) == cur0.take(i));
                        assert(cur0[i - 1] == cc[i - 1]);
                    }
                }
            }
        }
    }
}

/// The sentences of a text are the text cut into pieces: written one after another they
/// give the text back, none is empty, and each but the last ends with `。`. Where the
/// text's brackets `「」` and `（）` are well nested, so are those of every sentence, and a
/// `。` within a sentence stands inside brackets: a `。` inside a quotation never ends a
/// sentence, and one outside all brackets always does.
pub proof fn law_sentences_break_outside_brackets(t: Seq<char>)
    ensures
        concat_texts(spec_split_sentences(t)) == t,
        forall|j: int| 0 <= j < spec_split_sentences(t).len() ==> (#[trigger] spec_split_sentences(t)[j]).len() > 0,
        forall|j: int|
            0 <= j < spec_split_sentences(t).len() - 1 ==> (#[trigger] spec_split_sentences(t)[j]).last() == '。',
        well_nested(t) ==> forall|j: int| 0 <= j < spec_split_sentences(t).len() ==> well_nested(
            #[trigger] spec_split_sentences(t)[j],
        ) && inner_stops_bracketed(spec_split_sentences(t)[j]),
{
    lemma_sentences_state_parts(t);
    let (out, cur, d) = sentences_state(t);
    let r = spec_split_sentences(t);
    if cur.len() > 0 {
        assert(r == out.push(cur));
        assert(out.push(cur).drop_last() =~= out);
        assert forall|j: int| 0 <= j < r.len() - 1 implies (#[trigger] r[j]).last() == '。' by {
            assert(r[j] == out[j]);
        }
        assert forall|j: int| 0 <= j < r.len() implies (#[trigger] r[j]).len() > 0 by {
            if j < out.len() {
                assert(r[j] == out[j]);
            }
        }
        if well_nested(t) {
            assert forall|j: int| 0 <= j < r.len() implies well_nested(#[trigger] r[j]) && inner_stops_bracketed(r[j]) by {
                if j < out.len() {
                    assert(r[j] == out[j]);
                } else {
                    assert(r[j] == cur);
                }
            }
        }
    } else {
        assert(cur =~= Seq::<char>::empty());
        assert(concat_texts(out) + cur =~= concat_texts(out));
    }
}

} // verus!
