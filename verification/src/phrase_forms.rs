//! The forms of the places of phrase instructions: a row of an appended table
//! (`別表第二X法の項ホ`), a row after `同項` (`同項ニ`), a table of a place with a row
//! (`第三十八条の表第七十条第二項の項`), a division with places left out
//! (`第三章（第四十九条を除く。）`), and divisions within the table of contents.

use vstd::prelude::*;
use crate::locs::{container_at, container_end, first_at, lemma_container_end};
use crate::parse::kana_seq;
use crate::phrase::lemma_first_at;
use crate::place::{branch_end, lemma_branch_end, lemma_numeral_end, numeral_end, numeral_end_at};
use crate::table::down_from;
use crate::text::{chars_end_with, ends_with, has_at, starts_with};

verus! {

/// `(` or `（`.
pub open spec fn opener(ch: char) -> bool {
    ch == '(' || ch == '（'
}

/// `)` or `）`.
pub open spec fn closer(ch: char) -> bool {
    ch == ')' || ch == '）'
}

/// One of the first 23 iroha symbols (`イ` to `ム`), that label the sub-items of the rows
/// of appended tables.
pub open spec fn row_kana(ch: char) -> bool {
    kana_seq().take(23).contains(ch)
}

/// A bracketed label of one to four characters (`（１）`, `(ii)`).
pub open spec fn paren_ok(p: Seq<char>) -> bool {
    &&& 3 <= p.len() <= 6
    &&& opener(p[0])
    &&& closer(p.last())
    &&& forall|k: int| 1 <= k < p.len() - 1 ==> !closer(#[trigger] p[k])
}

/// The label of a sub-item of a row, or nothing: an iroha symbol with an optional bracketed
/// label, or a bracketed label alone.
pub open spec fn sub_ok(s: Seq<char>) -> bool {
    ||| s.len() == 0
    ||| s.len() > 0 && row_kana(s[0]) && (s.len() == 1 || paren_ok(s.skip(1)))
    ||| paren_ok(s)
}

/// `同項` with an optional sub-item label (`同項ニ`), after a row of an appended table: the
/// label, if any.
pub open spec fn appdx_same(l: Seq<char>) -> Option<Option<Seq<char>>> {
    if starts_with(l, "同項"@) && sub_ok(l.skip(2)) {
        Some(
            if l.len() == 2 {
                None
            } else {
                Some(l.skip(2))
            },
        )
    } else {
        None
    }
}

/// Where the name of the appended table at the start of `l` may end (`別表第十二` may also
/// be `別表第十`, `別表第一` or `別表`), in the order a backtracking reader tries them.
pub open spec fn table_opts(l: Seq<char>) -> Seq<int> {
    if starts_with(l, "同表"@) {
        seq![2]
    } else if starts_with(l, "別表"@) {
        if l.len() > 3 && l[2] == '第' && numeral_end(l, 3) > 3 {
            down_from(numeral_end(l, 3), 4) + seq![2]
        } else {
            seq![2]
        }
    } else {
        Seq::empty()
    }
}

/// Where the row may start after the table's name ends at `q`: after an `の` or `中`
/// there, then at `q`.
pub open spec fn sep_opts(l: Seq<char>, q: int) -> Seq<int> {
    if 0 <= q < l.len() && (l[q] == 'の' || l[q] == '中') {
        seq![q + 1, q]
    } else {
        seq![q]
    }
}

/// The shortest row from `p`, at least up to `m`, with no line break in it: an `の項` ends
/// it, and all after that is the label of a sub-item.
pub open spec fn row_search(l: Seq<char>, p: int, m: int) -> Option<int>
    decreases l.len() - m,
{
    if m < 1 || m + 2 > l.len() || l[m - 1] == '\n' {
        None
    } else if starts_with(l.skip(m), "の項"@) && sub_ok(l.skip(m + 2)) {
        Some(m)
    } else {
        row_search(l, p, m + 1)
    }
}

/// The first start `ps[k..]` of a row after which a row is found: the start and where the
/// row ends.
pub open spec fn seps_search(l: Seq<char>, ps: Seq<int>, k: int) -> Option<(int, int)>
    decreases ps.len() - k,
{
    if k < 0 || k >= ps.len() {
        None
    } else {
        match row_search(l, ps[k], ps[k] + 1) {
            Some(m) => Some((ps[k], m)),
            None => seps_search(l, ps, k + 1),
        }
    }
}

/// The first end `qs[k..]` of the table's name after which a row is found.
pub open spec fn tables_search(l: Seq<char>, qs: Seq<int>, k: int) -> Option<(int, int, int)>
    decreases qs.len() - k,
{
    if k < 0 || k >= qs.len() {
        None
    } else {
        match seps_search(l, sep_opts(l, qs[k]), 0) {
            Some((p, m)) => Some((qs[k], p, m)),
            None => tables_search(l, qs, k + 1),
        }
    }
}

/// A row of an appended table (`別表第二X法（…）の項`, `同表の一の項ホ`): the table's name,
/// the row (its first column) and the label of a sub-item, if any.
pub open spec fn appdx_row(l: Seq<char>) -> Option<(Seq<char>, Seq<char>, Option<Seq<char>>)> {
    match tables_search(l, table_opts(l), 0) {
        Some((q, p, m)) => Some(
            (
                l.take(q),
                l.subrange(p, m),
                if m + 2 == l.len() {
                    None
                } else {
                    Some(l.skip(m + 2))
                },
            ),
        ),
        None => None,
    }
}

/// The table of one place with at most one row (`第二十四条第一項の表`,
/// `第三十八条の表第七十条第二項の項`): no `表` before the first `の表`, and after it
/// nothing or a row without a comma.
pub open spec fn trow_one(l: Seq<char>) -> bool {
    let j = first_at(l, "表"@, 0);
    &&& 2 <= j < l.len()
    &&& l[j - 1] == 'の'
    &&& {
        let y = l.skip(j + 1);
        y.len() == 0 || (y.len() >= 3 && ends_with(y, "の項"@) && !y.take(y.len() - 2).contains('、'))
    }
}

/// A scope of phrases: the main provisions or divisions (`第三章第二節`), with the places
/// left out (`（第四十九条を除く。）`): the path as written and what is left out.
pub open spec fn cont_form(l: Seq<char>) -> Option<(Seq<char>, Option<Seq<char>>)> {
    let e = if starts_with(l, "本則"@) {
        2
    } else {
        container_end(l, 0)
    };
    if e <= 0 {
        None
    } else {
        let rem = l.skip(e);
        if rem.len() == 0 {
            Some((l.take(e), None))
        } else if rem.len() >= 7 && rem[0] == '（' && ends_with(rem, "を除く。）"@) && !rem.subrange(
            1,
            rem.len() - 5,
        ).contains('\n') {
            Some((l.take(e), Some(rem.subrange(1, rem.len() - 5))))
        } else {
            None
        }
    }
}

/// `編`, `章`, `節` or `款`.
pub open spec fn same_kind(ch: char) -> bool {
    ch == '編' || ch == '章' || ch == '節' || ch == '款'
}

/// Divisions alone (`第二章第一節`, `同章第三節`): a place within the table of contents.
pub open spec fn toc_divisions(l: Seq<char>) -> bool {
    let p = if l.len() >= 2 && l[0] == '同' && same_kind(l[1]) {
        2
    } else {
        0
    };
    l.len() > p && container_end(l, p) == l.len()
}

/// What may follow the first `の表` of the table of a place: nothing, or a row ending in
/// `の項` with no line break before that.
pub open spec fn trow_rest_ok(r: Seq<char>) -> bool {
    r.len() == 0 || (r.len() >= 3 && ends_with(r, "の項"@) && !r.take(r.len() - 2).contains('\n'))
}

/// The shortest place, at least up to `i`, with no line break in it, after which the table
/// of that place and at most one row follow.
pub open spec fn trow_search(l: Seq<char>, i: int) -> Option<int>
    decreases l.len() - i,
{
    if i < 1 || i + 2 > l.len() || l[i - 1] == '\n' {
        None
    } else if starts_with(l.skip(i), "の表"@) && trow_rest_ok(l.skip(i + 2)) {
        Some(i)
    } else {
        trow_search(l, i + 1)
    }
}

/// The table of a place (`第二十四条第一項の表`), with a row (`第三十八条の表第七十条第二項の項`):
/// the place, and the row without its `の項`.
pub open spec fn trow(l: Seq<char>) -> Option<(Seq<char>, Option<Seq<char>>)> {
    match trow_search(l, 1) {
        Some(i) => {
            let r = l.skip(i + 2);
            Some(
                (
                    l.take(i),
                    if r.len() == 0 {
                        None
                    } else {
                        Some(r.take(r.len() - 2))
                    },
                ),
            )
        },
        None => None,
    }
}

// ---------------------------------------------------------------------------------------
// Reading the forms

fn row_kana_exec(ch: char) -> (r: bool)
    ensures
        r == row_kana(ch),
{
    let ks = crate::parse::kana_table();
    let mut i: usize = 0;
    while i < 23
        invariant
            i <= 23,
            ks@ == kana_seq(),
            forall|k: int| 0 <= k < i ==> ks@[k] != ch,
        decreases 23 - i,
    {
        if ks[i] == ch {
            assert(kana_seq().take(23)[i as int] == ch);
            return true;
        }
        i = i + 1;
    }
    assert(!kana_seq().take(23).contains(ch)) by {
        assert forall|k: int| 0 <= k < 23 implies kana_seq().take(23)[k] != ch by {
            assert(kana_seq().take(23)[k] == ks@[k]);
        }
    }
    false
}

fn paren_ok_exec(p: &[char]) -> (r: bool)
    ensures
        r == paren_ok(p@),
{
    if p.len() < 3 || p.len() > 6 {
        return false;
    }
    if !(p[0] == '(' || p[0] == '（') || !(p[p.len() - 1] == ')' || p[p.len() - 1] == '）') {
        return false;
    }
    let mut k: usize = 1;
    while k < p.len() - 1
        invariant
            1 <= k <= p.len() - 1,
            3 <= p.len() <= 6,
            forall|j: int| 1 <= j < k ==> !closer(#[trigger] p@[j]),
        decreases p.len() - k,
    {
        if p[k] == ')' || p[k] == '）' {
            return false;
        }
        k = k + 1;
    }
    true
}

fn sub_ok_exec(s: &[char]) -> (r: bool)
    ensures
        r == sub_ok(s@),
{
    if s.len() == 0 {
        return true;
    }
    if row_kana_exec(s[0]) {
        if s.len() == 1 {
            return true;
        }
        let t = crate::text::slice_from(s, 1);
        if paren_ok_exec(t.as_slice()) {
            return true;
        }
    }
    paren_ok_exec(s)
}

/// `同項` with an optional sub-item label (see [`appdx_same`]).
pub fn appdx_same_exec(l: &Vec<char>) -> (r: Option<Option<Vec<char>>>)
    ensures
        match appdx_same(l@) {
            Some(None) => r == Some(None::<Vec<char>>),
            Some(Some(k)) => r matches Some(Some(x)) && x@ == k,
            None => r is None,
        },
{
    proof {
        reveal_strlit("同項");
    }
    assert(l@.skip(0) =~= l@);
    if !has_at(l.as_slice(), 0, "同項") {
        return None;
    }
    let t = crate::text::slice_from(l.as_slice(), 2);
    if !sub_ok_exec(t.as_slice()) {
        return None;
    }
    if l.len() == 2 {
        Some(None)
    } else {
        Some(Some(t))
    }
}

/// The shortest row from `p` (see [`row_search`]).
fn row_search_exec(l: &Vec<char>, p: usize) -> (r: Option<usize>)
    requires
        p < l.len(),
    ensures
        match row_search(l@, p as int, p + 1) {
            Some(m) => r == Some(m as usize) && p < m && m + 2 <= l.len(),
            None => r is None,
        },
{
    let mut m = p + 1;
    while m < l.len() && l.len() - m >= 2 && l[m - 1] != '\n'
        invariant
            p < m <= l.len(),
            row_search(l@, p as int, p + 1) == row_search(l@, p as int, m as int),
        decreases l.len() - m,
    {
        proof {
            reveal_strlit("の項");
        }
        if has_at(l.as_slice(), m, "の項") {
            let t = crate::text::slice_from(l.as_slice(), m + 2);
            if sub_ok_exec(t.as_slice()) {
                return Some(m);
            }
        }
        m = m + 1;
    }
    None
}

/// The name's ends of the appended table at the start of `l` (see [`table_opts`]).
fn table_opts_exec(l: &Vec<char>) -> (r: Vec<usize>)
    ensures
        r@.map_values(|x: usize| x as int) == table_opts(l@),
        forall|k: int| 0 <= k < r@.len() ==> #[trigger] r@[k] <= l.len(),
{
    proof {
        reveal_strlit("同表");
        reveal_strlit("別表");
    }
    assert(l@.skip(0) =~= l@);
    let mut r: Vec<usize> = Vec::new();
    if has_at(l.as_slice(), 0, "同表") {
        r.push(2);
    } else if has_at(l.as_slice(), 0, "別表") {
        if l.len() > 3 && l[2] == '第' && numeral_end_at(l, 3) > 3 {
            let e = numeral_end_at(l, 3);
            let mut k = e;
            while k >= 4
                invariant
                    3 <= k <= e <= l.len(),
                    e == numeral_end(l@, 3),
                    r@.map_values(|x: usize| x as int) + down_from(k as int, 4) == down_from(e as int, 4),
                    forall|j: int| 0 <= j < r@.len() ==> #[trigger] r@[j] <= l.len(),
                decreases k,
            {
                let ghost before = r@.map_values(|x: usize| x as int);
                r.push(k);
                assert(r@.map_values(|x: usize| x as int) =~= before.push(k as int));
                assert(down_from(k as int, 4) == seq![k as int] + down_from(k - 1, 4));
                assert(r@.map_values(|x: usize| x as int) + down_from(k - 1, 4) =~= before + down_from(
                    k as int,
                    4,
                ));
                k = k - 1;
            }
            assert(down_from(k as int, 4) =~= Seq::<int>::empty());
            assert(r@.map_values(|x: usize| x as int) + Seq::<int>::empty() =~= r@.map_values(
                |x: usize| x as int,
            ));
            let ghost before = r@.map_values(|x: usize| x as int);
            r.push(2);
            assert(r@.map_values(|x: usize| x as int) =~= before.push(2));
        } else {
            r.push(2);
        }
    }
    assert(r@.map_values(|x: usize| x as int) =~= table_opts(l@));
    r
}

/// A row of an appended table (see [`appdx_row`]): the ends of the name, of the row's
/// start and of the row.
pub fn appdx_row_exec(l: &Vec<char>) -> (r: Option<(usize, usize, usize)>)
    ensures
        match tables_search(l@, table_opts(l@), 0) {
            Some((q, p, m)) => r == Some((q as usize, p as usize, m as usize)) && 0 <= q <= p < m
                && m + 2 <= l.len(),
            None => r is None,
        },
{
    let qs = table_opts_exec(l);
    let ghost qv = qs@.map_values(|x: usize| x as int);
    let mut k: usize = 0;
    while k < qs.len()
        invariant
            k <= qs.len(),
            qv == qs@.map_values(|x: usize| x as int),
            qv == table_opts(l@),
            forall|j: int| 0 <= j < qs@.len() ==> #[trigger] qs@[j] <= l.len(),
            tables_search(l@, qv, 0) == tables_search(l@, qv, k as int),
        decreases qs.len() - k,
    {
        let q = qs[k];
        assert(qv[k as int] == q as int);
        let two = q < l.len() && (l[q] == 'の' || l[q] == '中');
        let ghost sv = sep_opts(l@, q as int);
        // the row after the separator, then at `q`
        if two {
            if q + 1 < l.len() {
                match row_search_exec(l, q + 1) {
                    Some(m) => {
                        assert(seps_search(l@, sv, 0) == Some((q + 1, m as int)));
                        return Some((q, q + 1, m));
                    },
                    None => {},
                }
            } else {
                assert(row_search(l@, q + 1, q + 2) is None);
            }
            assert(seps_search(l@, sv, 0) == seps_search(l@, sv, 1));
        }
        let ghost k0: int = if two { 1 } else { 0 };
        assert(sv[k0] == q as int);
        if q < l.len() {
            match row_search_exec(l, q) {
                Some(m) => {
                    assert(seps_search(l@, sv, k0) == Some((q as int, m as int)));
                    return Some((q, q, m));
                },
                None => {},
            }
        } else {
            assert(row_search(l@, q as int, q + 1) is None);
        }
        assert(seps_search(l@, sv, k0) == seps_search(l@, sv, k0 + 1));
        assert(seps_search(l@, sv, k0 + 1) is None);
        k = k + 1;
    }
    None
}

/// Whether the text names the table of one place with at most one row (see [`trow_one`]).
pub fn trow_one_exec(l: &Vec<char>) -> (r: bool)
    ensures
        r == trow_one(l@),
{
    let j = crate::locs::first_at_exec(l, "表");
    proof {
        lemma_first_at(l@, "表"@, 0);
        reveal_strlit("表");
        reveal_strlit("の項");
    }
    if j < 2 || j >= l.len() || l[j - 1] != 'の' {
        return false;
    }
    let y = crate::text::slice_from(l.as_slice(), j + 1);
    if y.len() == 0 {
        return true;
    }
    if y.len() < 3 || !chars_end_with(y.as_slice(), "の項") {
        return false;
    }
    let z = crate::text::slice_to(y.as_slice(), y.len() - 2);
    assert(z@.subrange(0, z.len() as int) =~= z@);
    !char_in(&z, 0, z.len(), '、')
}

/// Whether `c[lo..hi]` holds a line break.
fn newline_in(c: &Vec<char>, lo: usize, hi: usize) -> (r: bool)
    requires
        lo <= hi <= c.len(),
    ensures
        r == c@.subrange(lo as int, hi as int).contains('\n'),
{
    char_in(c, lo, hi, '\n')
}

/// Whether `c[lo..hi]` holds `ch`.
fn char_in(c: &Vec<char>, lo: usize, hi: usize, ch: char) -> (r: bool)
    requires
        lo <= hi <= c.len(),
    ensures
        r == c@.subrange(lo as int, hi as int).contains(ch),
{
    let mut j = lo;
    while j < hi
        invariant
            lo <= j <= hi <= c.len(),
            forall|k: int| lo <= k < j ==> c@[k] != ch,
        decreases hi - j,
    {
        if c[j] == ch {
            assert(c@.subrange(lo as int, hi as int)[j - lo] == ch);
            return true;
        }
        j = j + 1;
    }
    assert forall|k: int| 0 <= k < hi - lo implies c@.subrange(lo as int, hi as int)[k] != ch by {
        assert(c@.subrange(lo as int, hi as int)[k] == c@[lo + k]);
    }
    false
}

/// A scope of phrases (see [`cont_form`]): the end of the path, and the bounds of what is
/// left out.
pub fn cont_form_exec(l: &Vec<char>) -> (r: Option<(usize, Option<(usize, usize)>)>)
    ensures
        match cont_form(l@) {
            Some((path, None)) => r matches Some((e, None)) && e <= l.len() && path == l@.take(e as int),
            Some((path, Some(ex))) => r matches Some((e, Some((x0, x1)))) && e <= l.len() && path
                == l@.take(e as int) && x0 <= x1 <= l.len() && ex == l@.subrange(x0 as int, x1 as int),
            None => r is None,
        },
{
    proof {
        reveal_strlit("本則");
        reveal_strlit("を除く。）");
    }
    assert(l@.skip(0) =~= l@);
    let e = if has_at(l.as_slice(), 0, "本則") {
        2
    } else {
        let mut j: usize = 0;
        let mut more = crate::locs::container_at_exec(l, 0);
        while more.0
            invariant
                j <= l.len(),
                container_end(l@, 0) == container_end(l@, j as int),
                more.0 == container_at(l@, j as int),
                more.0 ==> more.1 == numeral_end(l@, j + 1) && more.1 < l.len(),
            decreases l.len() - j,
        {
            proof {
                lemma_numeral_end(l@, j + 1);
            }
            let b = crate::place::branch_scan_end(l, more.1 + 1);
            proof {
                lemma_branch_end(l@, more.1 + 1);
            }
            j = b;
            more = crate::locs::container_at_exec(l, j);
        }
        j
    };
    if e == 0 {
        return None;
    }
    let n = l.len() - e;
    if n == 0 {
        assert(l@.skip(e as int).len() == 0);
        return Some((e, None));
    }
    let rem = crate::text::slice_from(l.as_slice(), e);
    if n >= 7 && rem[0] == '（' && chars_end_with(rem.as_slice(), "を除く。）") && !newline_in(
        l,
        e + 1,
        l.len() - 5,
    ) {
        assert(rem@.subrange(1, rem@.len() - 5) =~= l@.subrange(e + 1, l.len() - 5));
        return Some((e, Some((e + 1, l.len() - 5))));
    }
    if n >= 7 && rem[0] == '（' && chars_end_with(rem.as_slice(), "を除く。）") {
        assert(rem@.subrange(1, rem@.len() - 5) =~= l@.subrange(e + 1, l.len() - 5));
    }
    None
}

/// Whether the text is divisions alone (see [`toc_divisions`]).
pub fn toc_divisions_exec(l: &Vec<char>) -> (r: bool)
    ensures
        r == toc_divisions(l@),
{
    let p: usize = if l.len() >= 2 && l[0] == '同' && (l[1] == '編' || l[1] == '章' || l[1] == '節'
        || l[1] == '款') {
        2
    } else {
        0
    };
    if l.len() <= p {
        return false;
    }
    let mut j: usize = p;
    let mut more = crate::locs::container_at_exec(l, p);
    while more.0
        invariant
            p <= j <= l.len(),
            container_end(l@, p as int) == container_end(l@, j as int),
            more.0 == container_at(l@, j as int),
            more.0 ==> more.1 == numeral_end(l@, j + 1) && more.1 < l.len(),
        decreases l.len() - j,
    {
        proof {
            lemma_numeral_end(l@, j + 1);
        }
        let b = crate::place::branch_scan_end(l, more.1 + 1);
        proof {
            lemma_branch_end(l@, more.1 + 1);
        }
        j = b;
        more = crate::locs::container_at_exec(l, j);
    }
    j == l.len()
}

/// The table of a place with a row (see [`trow`]): the end of the place.
pub fn trow_exec(l: &Vec<char>) -> (r: Option<usize>)
    ensures
        match trow_search(l@, 1) {
            Some(i) => r == Some(i as usize) && 1 <= i && i + 2 <= l.len() && trow_rest_ok(l@.skip(i + 2)),
            None => r is None,
        },
{
    let mut i: usize = 1;
    while i <= l.len() && l.len() - i >= 2 && l[i - 1] != '\n'
        invariant
            1 <= i,
            trow_search(l@, 1) == trow_search(l@, i as int),
        decreases l.len() - i,
    {
        proof {
            reveal_strlit("の表");
            reveal_strlit("の項");
        }
        if has_at(l.as_slice(), i, "の表") {
            let n = l.len() - (i + 2);
            let ok = if n == 0 {
                true
            } else if n >= 3 && chars_end_with(
                crate::text::slice_from(l.as_slice(), i + 2).as_slice(),
                "の項",
            ) {
                let bad = newline_in(l, i + 2, l.len() - 2);
                assert(l@.skip(i + 2).take(l@.skip(i + 2).len() - 2) =~= l@.subrange(
                    i + 2,
                    l.len() - 2,
                ));
                !bad
            } else {
                false
            };
            if ok {
                assert(trow_rest_ok(l@.skip(i + 2))) by {
                    if n > 0 {
                        assert(l@.skip(i + 2).take(l@.skip(i + 2).len() - 2) =~= l@.subrange(
                            i + 2,
                            l.len() - 2,
                        ));
                    }
                }
                return Some(i);
            }
        }
        i = i + 1;
    }
    None
}

} // verus!
