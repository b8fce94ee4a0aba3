//! An instruction split at its commas into segments (`「…」を「…」に改め、同条…`): only the
//! commas outside brackets split; fragments that are only places or only phrases join the
//! segment after them; the descriptions of amending provisions (`…を加え、…とする改正規定`)
//! are not split.

use vstd::prelude::*;
use crate::reiki::strings_view;
use crate::text::{chars_end_with, chars_of, ends_with, has_at, starts_with, string_of};

verus! {

/// The text without its trailing full stops.
pub open spec fn trim_stops(s: Seq<char>) -> Seq<char>
    decreases s.len(),
{
    if s.len() > 0 && s.last() == '。' {
        trim_stops(s.drop_last())
    } else {
        s
    }
}

/// The text without its trailing commas.
pub open spec fn trim_commas(s: Seq<char>) -> Seq<char>
    decreases s.len(),
{
    if s.len() > 0 && s.last() == '、' {
        trim_commas(s.drop_last())
    } else {
        s
    }
}

/// How many times `c` occurs in `s`.
pub open spec fn count_of(s: Seq<char>, c: char) -> nat
    decreases s.len(),
{
    if s.len() == 0 {
        0
    } else {
        count_of(s.drop_last(), c) + if s.last() == c { 1nat } else { 0nat }
    }
}

/// A comma between the end of one instruction and the start of the next, where the
/// brackets cannot be trusted: before it `」に`, `」を` or a verb, after it a phrase, `同条`,
/// `同項`, `同号` or `第`.
pub open spec fn boundary(before: Seq<char>, after: Seq<char>) -> bool {
    &&& ends_with(before, "」に"@) || ends_with(before, "」を"@) || ends_with(before, "改め"@) || ends_with(
        before,
        "加え"@,
    ) || ends_with(before, "削り"@) || ends_with(before, "とし"@) || ends_with(before, "とする"@) || ends_with(
        before,
        "改める"@,
    ) || ends_with(before, "加える"@) || ends_with(before, "削る"@)
    &&& starts_with(after, "「"@) || starts_with(after, "同条"@) || starts_with(after, "同項"@) || starts_with(
        after,
        "同号"@,
    ) || starts_with(after, "第"@)
}

/// A comma after a verb and before a place (`…に改め、同条…`).
pub open spec fn verb_boundary(before: Seq<char>, after: Seq<char>) -> bool {
    &&& ends_with(before, "改め"@) || ends_with(before, "加え"@) || ends_with(before, "削り"@) || ends_with(
        before,
        "とし"@,
    )
    &&& starts_with(after, "同条"@) || starts_with(after, "同項"@) || starts_with(after, "同号"@) || starts_with(
        after,
        "同表"@,
    ) || starts_with(after, "第"@) || starts_with(after, "附則"@) || starts_with(after, "別表"@)
}

/// The state of the split: the finished segments, the current one, and the depths of
/// `「」` and (outside phrases) `（）`.
pub type SplitState = (Seq<Seq<char>>, Seq<char>, int, int);

/// One character of the split: brackets change the depths; a comma splits when both depths
/// are 0, or at a boundary when the brackets do not balance, or (when `strict`) after a
/// verb and before a place; every other character joins the current segment.
pub open spec fn split_step(body: Seq<char>, unbalanced: bool, strict: bool, st: SplitState, i: int) -> SplitState {
    let (out, cur, q, p) = st;
    let c = body[i];
    let after = body.skip(i + 1);
    if c == '「' {
        (out, cur.push(c), q + 1, p)
    } else if c == '」' {
        (out, cur.push(c), if q > 0 { q - 1 } else { 0 }, p)
    } else if c == '（' && q == 0 {
        (out, cur.push(c), q, p + 1)
    } else if c == '）' && q == 0 {
        (out, cur.push(c), q, if p > 0 { p - 1 } else { 0 })
    } else if c == '、' && ((q == 0 && p == 0) || (unbalanced && boundary(cur, after)) || (strict && verb_boundary(
        cur,
        after,
    ))) {
        (out.push(cur), Seq::empty(), 0, p)
    } else {
        (out, cur.push(c), q, p)
    }
}

/// The split after the first `n` characters.
pub open spec fn split_fold(body: Seq<char>, unbalanced: bool, strict: bool, n: int) -> SplitState
    decreases n,
{
    if n <= 0 {
        (Seq::empty(), Seq::empty(), 0, 0)
    } else {
        split_step(body, unbalanced, strict, split_fold(body, unbalanced, strict, n - 1), n - 1)
    }
}

/// The segments of an instruction (its trailing full stops dropped), before joining.
pub open spec fn split_plain(s: Seq<char>, strict: bool) -> Seq<Seq<char>> {
    let body = trim_stops(s);
    let unbalanced = count_of(body, '「') != count_of(body, '」');
    let st = split_fold(body, unbalanced, strict, body.len() as int);
    if st.1.len() > 0 {
        st.0.push(st.1)
    } else {
        st.0
    }
}

fn trim_stops_of(s: &Vec<char>) -> (r: Vec<char>)
    ensures
        r@ == trim_stops(s@),
{
    let mut n = s.len();
    assert(s@.take(n as int) == s@);
    while n > 0 && s[n - 1] == '。'
        invariant
            n <= s.len(),
            trim_stops(s@.take(n as int)) == trim_stops(s@),
        decreases n,
    {
        assert(s@.take(n as int).drop_last() == s@.take(n - 1));
        n = n - 1;
    }
    assert(s@.take(n as int) == trim_stops(s@.take(n as int)));
    crate::text::slice_to(s.as_slice(), n)
}

fn count_char(s: &Vec<char>, c: char) -> (n: usize)
    ensures
        n == count_of(s@, c),
{
    let mut n: usize = 0;
    let mut i: usize = 0;
    while i < s.len()
        invariant
            i <= s.len(),
            n == count_of(s@.take(i as int), c),
            n <= i,
        decreases s.len() - i,
    {
        assert(s@.take(i + 1).drop_last() == s@.take(i as int));
        if s[i] == c {
            n = n + 1;
        }
        i = i + 1;
    }
    assert(s@.take(i as int) == s@);
    n
}

fn boundary_at(cur: &Vec<char>, body: &Vec<char>, at: usize) -> (r: bool)
    requires
        at <= body.len(),
    ensures
        r == boundary(cur@, body@.skip(at as int)),
{
    let c = cur.as_slice();
    let b = body.as_slice();
    (chars_end_with(c, "」に") || chars_end_with(c, "」を") || chars_end_with(c, "改め") || chars_end_with(c, "加え")
        || chars_end_with(c, "削り") || chars_end_with(c, "とし") || chars_end_with(c, "とする") || chars_end_with(
        c,
        "改める",
    ) || chars_end_with(c, "加える") || chars_end_with(c, "削る")) && (has_at(b, at, "「") || has_at(b, at, "同条")
        || has_at(b, at, "同項") || has_at(b, at, "同号") || has_at(b, at, "第"))
}

fn verb_boundary_at(cur: &Vec<char>, body: &Vec<char>, at: usize) -> (r: bool)
    requires
        at <= body.len(),
    ensures
        r == verb_boundary(cur@, body@.skip(at as int)),
{
    let c = cur.as_slice();
    let b = body.as_slice();
    (chars_end_with(c, "改め") || chars_end_with(c, "加え") || chars_end_with(c, "削り") || chars_end_with(c, "とし"))
        && (has_at(b, at, "同条") || has_at(b, at, "同項") || has_at(b, at, "同号") || has_at(b, at, "同表")
        || has_at(b, at, "第") || has_at(b, at, "附則") || has_at(b, at, "別表"))
}

/// The texts of vectors of characters.
pub open spec fn char_seqs(v: Seq<Vec<char>>) -> Seq<Seq<char>> {
    v.map_values(|x: Vec<char>| x@)
}

fn split_plain_of(s: &Vec<char>, strict: bool) -> (r: Vec<Vec<char>>)
    ensures
        char_seqs(r@) == split_plain(s@, strict),
{
    let body = trim_stops_of(s);
    let unbalanced = count_char(&body, '「') != count_char(&body, '」');
    let mut out: Vec<Vec<char>> = Vec::new();
    let mut cur: Vec<char> = Vec::new();
    let mut q: usize = 0;
    let mut p: usize = 0;
    let mut i: usize = 0;
    while i < body.len()
        invariant
            i <= body.len(),
            q <= i,
            p <= i,
            (char_seqs(out@), cur@, q as int, p as int) == split_fold(body@, unbalanced, strict, i as int),
        decreases body.len() - i,
    {
        let c = body[i];
        let ghost o0 = out@;
        if c == '「' {
            q = q + 1;
            cur.push(c);
        } else if c == '」' {
            if q > 0 {
                q = q - 1;
            }
            cur.push(c);
        } else if c == '（' && q == 0 {
            p = p + 1;
            cur.push(c);
        } else if c == '）' && q == 0 {
            if p > 0 {
                p = p - 1;
            }
            cur.push(c);
        } else if c == '、' && ((q == 0 && p == 0) || (unbalanced && boundary_at(&cur, &body, i + 1)) || (strict
            && verb_boundary_at(&cur, &body, i + 1))) {
            let done = cur;
            out.push(done);
            assert(char_seqs(out@) =~= char_seqs(o0).push(done@));
            cur = Vec::new();
            q = 0;
        } else {
            cur.push(c);
        }
        i = i + 1;
    }
    if cur.len() > 0 {
        let ghost o0 = out@;
        let done = cur;
        out.push(done);
        assert(char_seqs(out@) =~= char_seqs(o0).push(done@));
    }
    out
}

/// A kanji digit or unit of a number (`一`–`九`, `十`, `百`, `千`).
pub open spec fn is_num_kanji(c: char) -> bool {
    c == '一' || c == '二' || c == '三' || c == '四' || c == '五' || c == '六' || c == '七' || c == '八'
        || c == '九' || c == '十' || c == '百' || c == '千'
}

/// A unit of provisions that can be counted (`条`, `編`, `章`, `節`, `款`, `目`, `項`, `号`).
pub open spec fn is_piece_unit(c: char) -> bool {
    c == '条' || c == '編' || c == '章' || c == '節' || c == '款' || c == '目' || c == '項' || c == '号'
}

/// A division that has a name (`編`, `章`, `節`, `款`, `目`).
pub open spec fn is_division(c: char) -> bool {
    c == '編' || c == '章' || c == '節' || c == '款' || c == '目'
}

/// A piece of structure that an instruction adds (`二条`, `一章`, `章名`, `見出し`).
pub open spec fn struct_piece(t: Seq<char>) -> bool {
    ||| t.len() >= 2 && (forall|i: int| 0 <= i < t.len() - 1 ==> is_num_kanji(#[trigger] t[i])) && is_piece_unit(t.last())
    ||| t.len() == 2 && is_division(t[0]) && t[1] == '名'
    ||| t == "見出し"@
}

/// `次の` starts at `i`.
pub open spec fn tsugi_at(s: Seq<char>, i: int) -> bool {
    0 <= i && i + 2 <= s.len() && s[i] == '次' && s[i + 1] == 'の'
}

/// The last place at or before `i` where `次の` starts, or -1.
pub open spec fn last_tsugi(s: Seq<char>, i: int) -> int
    decreases i + 1,
{
    if i < 0 {
        -1
    } else if tsugi_at(s, i) {
        i
    } else {
        last_tsugi(s, i - 1)
    }
}

/// A segment that lists pieces of structure to be added (`次の二条`, `一章`), without phrases.
pub open spec fn listing(seg: Seq<char>) -> bool {
    let t = last_tsugi(seg, seg.len() - 2);
    &&& !seg.contains('「')
    &&& (t >= 0 && struct_piece(seg.skip(t + 2))) || struct_piece(seg)
}

/// A segment that is only a place (no phrase, no verb at its end).
pub open spec fn loc_only(seg: Seq<char>) -> bool {
    &&& starts_with(seg, "第"@) || starts_with(seg, "同"@) || starts_with(seg, "附則"@) || starts_with(seg, "別表"@)
        || ends_with(seg, "の項"@) || ends_with(seg, "のうち"@) || ends_with(seg, "改正規定"@) || starts_with(
        seg,
        "同法"@,
    )
    &&& !seg.contains('「')
    &&& !(ends_with(seg, "し"@) || ends_with(seg, "る"@) || ends_with(seg, "め"@) || ends_with(seg, "え"@)
        || ends_with(seg, "り"@) || ends_with(seg, "げ"@)) || ends_with(seg, "見出し"@)
}

/// One segment of the joining: a listing without a verb at its end, a place only, or a
/// phrase only waits (with its comma) for the next segment; any other segment takes what
/// waits before it.
pub open spec fn merge_step(st: (Seq<Seq<char>>, Seq<char>), seg: Seq<char>) -> (Seq<Seq<char>>, Seq<char>) {
    let (merged, pending) = st;
    if listing(seg) && !(ends_with(seg, "え"@) || ends_with(seg, "る"@)) {
        (merged, pending + seg.push('、'))
    } else if loc_only(seg) || ends_with(seg, "」"@) {
        (merged, pending + seg.push('、'))
    } else {
        (merged.push(pending + seg), Seq::empty())
    }
}

/// The joining of the first `n` segments.
pub open spec fn merge_fold(segs: Seq<Seq<char>>, n: int) -> (Seq<Seq<char>>, Seq<char>)
    decreases n,
{
    if n <= 0 {
        (Seq::empty(), Seq::empty())
    } else {
        merge_step(merge_fold(segs, n - 1), segs[n - 1])
    }
}

/// The segments joined; what still waits at the end is a segment of its own, without its
/// trailing commas.
pub open spec fn merged(segs: Seq<Seq<char>>) -> Seq<Seq<char>> {
    let (m, pending) = merge_fold(segs, segs.len() as int);
    if pending.len() > 0 {
        m.push(trim_commas(pending))
    } else {
        m
    }
}

fn has_char(s: &Vec<char>, c: char) -> (r: bool)
    ensures
        r == s@.contains(c),
{
    let mut i: usize = 0;
    while i < s.len()
        invariant
            i <= s.len(),
            forall|k: int| 0 <= k < i ==> s@[k] != c,
        decreases s.len() - i,
    {
        if s[i] == c {
            assert(s@[i as int] == c);
            return true;
        }
        i = i + 1;
    }
    false
}

fn is_num_kanji_char(c: char) -> (r: bool)
    ensures
        r == is_num_kanji(c),
{
    c == '一' || c == '二' || c == '三' || c == '四' || c == '五' || c == '六' || c == '七' || c == '八'
        || c == '九' || c == '十' || c == '百' || c == '千'
}

fn struct_piece_of(t: &Vec<char>) -> (r: bool)
    ensures
        r == struct_piece(t@),
{
    if t.len() >= 2 {
        let last = t[t.len() - 1];
        if last == '条' || last == '編' || last == '章' || last == '節' || last == '款' || last == '目' || last == '項'
            || last == '号' {
            let mut i: usize = 0;
            let mut all = true;
            while i < t.len() - 1
                invariant
                    i <= t.len() - 1,
                    t.len() >= 2,
                    all == (forall|k: int| 0 <= k < i ==> is_num_kanji(#[trigger] t@[k])),
                decreases t.len() - 1 - i,
            {
                if !is_num_kanji_char(t[i]) {
                    all = false;
                }
                i = i + 1;
            }
            if all {
                return true;
            }
        }
    }
    if t.len() == 2 && (t[0] == '編' || t[0] == '章' || t[0] == '節' || t[0] == '款' || t[0] == '目') && t[1] == '名' {
        return true;
    }
    let r = t.len() == 3 && t[0] == '見' && t[1] == '出' && t[2] == 'し';
    proof {
        reveal_strlit("見出し");
        if r {
            assert(t@ =~= "見出し"@);
        }
        if t@ == "見出し"@ {
            assert(t@.len() == 3 && t@[0] == '見' && t@[1] == '出' && t@[2] == 'し');
        }
    }
    r
}

fn last_tsugi_of(s: &Vec<char>) -> (r: Option<usize>)
    ensures
        match r {
            Some(t) => t as int == last_tsugi(s@, s.len() - 2),
            None => last_tsugi(s@, s.len() - 2) < 0,
        },
{
    if s.len() < 2 {
        assert(last_tsugi(s@, s.len() - 2) == -1) by {
            if s.len() == 1 {
                assert(!tsugi_at(s@, -1));
                assert(last_tsugi(s@, -1) == -1);
            }
        }
        return None;
    }
    let mut i: usize = s.len() - 1;
    // i is one past the place being looked at
    while i > 0
        invariant
            i <= s.len() - 1,
            s.len() >= 2,
            last_tsugi(s@, i - 1) == last_tsugi(s@, s.len() - 2),
        decreases i,
    {
        if s[i - 1] == '次' && s[i] == 'の' {
            return Some(i - 1);
        }
        i = i - 1;
    }
    None
}

fn listing_of(seg: &Vec<char>) -> (r: bool)
    ensures
        r == listing(seg@),
{
    if has_char(seg, '「') {
        return false;
    }
    let t = last_tsugi_of(seg);
    proof {
        lemma_last_tsugi(seg@, seg.len() - 2);
    }
    match t {
        Some(t) => {
            let after = crate::text::slice_from(seg.as_slice(), t + 2);
            if struct_piece_of(&after) {
                return true;
            }
        },
        None => {},
    }
    struct_piece_of(seg)
}

proof fn lemma_last_tsugi(s: Seq<char>, i: int)
    ensures
        last_tsugi(s, i) >= 0 ==> tsugi_at(s, last_tsugi(s, i)) && last_tsugi(s, i) <= i,
        last_tsugi(s, i) >= -1,
    decreases i + 1,
{
    if i >= 0 && !tsugi_at(s, i) {
        lemma_last_tsugi(s, i - 1);
    }
}

fn loc_only_of(seg: &Vec<char>) -> (r: bool)
    ensures
        r == loc_only(seg@),
{
    let g = seg.as_slice();
    assert(seg@.skip(0) == seg@);
    (has_at(g, 0, "第") || has_at(g, 0, "同") || has_at(g, 0, "附則") || has_at(g, 0, "別表") || chars_end_with(g, "の項")
        || chars_end_with(g, "のうち") || chars_end_with(g, "改正規定") || has_at(g, 0, "同法")) && !has_char(seg, '「')
        && (!(chars_end_with(g, "し") || chars_end_with(g, "る") || chars_end_with(g, "め") || chars_end_with(g, "え")
        || chars_end_with(g, "り") || chars_end_with(g, "げ")) || chars_end_with(g, "見出し"))
}

fn trim_commas_of(s: &Vec<char>) -> (r: Vec<char>)
    ensures
        r@ == trim_commas(s@),
{
    let mut n = s.len();
    assert(s@.take(n as int) == s@);
    while n > 0 && s[n - 1] == '、'
        invariant
            n <= s.len(),
            trim_commas(s@.take(n as int)) == trim_commas(s@),
        decreases n,
    {
        assert(s@.take(n as int).drop_last() == s@.take(n - 1));
        n = n - 1;
    }
    assert(s@.take(n as int) == trim_commas(s@.take(n as int)));
    crate::text::slice_to(s.as_slice(), n)
}

fn append_chars(a: &mut Vec<char>, b: &Vec<char>)
    ensures
        final(a)@ == old(a)@ + b@,
{
    let mut i: usize = 0;
    let ghost a0 = a@;
    while i < b.len()
        invariant
            i <= b.len(),
            a@ == a0 + b@.take(i as int),
        decreases b.len() - i,
    {
        a.push(b[i]);
        assert(b@.take(i + 1) == b@.take(i as int).push(b@[i as int]));
        i = i + 1;
    }
    assert(b@.take(b.len() as int) == b@);
}

fn merged_of(segs: &Vec<Vec<char>>) -> (r: Vec<Vec<char>>)
    ensures
        char_seqs(r@) == merged(char_seqs(segs@)),
{
    let ghost sv = char_seqs(segs@);
    let mut m: Vec<Vec<char>> = Vec::new();
    let mut pending: Vec<char> = Vec::new();
    let mut i: usize = 0;
    while i < segs.len()
        invariant
            i <= segs.len(),
            sv == char_seqs(segs@),
            (char_seqs(m@), pending@) == merge_fold(sv, i as int),
        decreases segs.len() - i,
    {
        let seg = &segs[i];
        assert(sv[i as int] == seg@);
        let ends_e = chars_end_with(seg.as_slice(), "え");
        let ends_ru = chars_end_with(seg.as_slice(), "る");
        if listing_of(seg) && !(ends_e || ends_ru) {
            append_chars(&mut pending, seg);
            pending.push('、');
        } else if loc_only_of(seg) || chars_end_with(seg.as_slice(), "」") {
            append_chars(&mut pending, seg);
            pending.push('、');
        } else {
            let ghost m0 = m@;
            let mut joined = pending;
            append_chars(&mut joined, seg);
            m.push(joined);
            assert(char_seqs(m@) =~= char_seqs(m0).push(joined@));
            pending = Vec::new();
        }
        i = i + 1;
    }
    assert(sv.len() == segs.len());
    if pending.len() > 0 {
        let ghost m0 = m@;
        let last = trim_commas_of(&pending);
        m.push(last);
        assert(char_seqs(m@) =~= char_seqs(m0).push(last@));
    }
    m
}

/// The mark that stands in for a comma that must not split.
pub open spec fn keep_mark() -> char {
    '\u{E010}'
}

/// `改正規定` (an amending provision) starts at `i`.
pub open spec fn rule_at(s: Seq<char>, i: int) -> bool {
    0 <= i && i + 4 <= s.len() && s.subrange(i, i + 4) == "改正規定"@
}

/// The first place from `i` on where `改正規定` starts, or -1.
pub open spec fn next_rule(s: Seq<char>, i: int) -> int
    decreases s.len() - i,
{
    if i < 0 || i + 4 > s.len() {
        -1
    } else if rule_at(s, i) {
        i
    } else {
        next_rule(s, i + 1)
    }
}

pub proof fn lemma_next_rule(s: Seq<char>, i: int)
    requires
        0 <= i,
    ensures
        next_rule(s, i) == -1 || (i <= next_rule(s, i) && rule_at(s, next_rule(s, i))),
    decreases s.len() - i,
{
    if i + 4 <= s.len() && !rule_at(s, i) {
        lemma_next_rule(s, i + 1);
    }
}

/// The last place of `」`, or -1.
pub open spec fn last_close(h: Seq<char>, i: int) -> int
    decreases i + 1,
{
    if i < 0 {
        -1
    } else if i < h.len() && h[i] == '」' {
        i
    } else {
        last_close(h, i - 1)
    }
}

/// The first place of `、` from `j` on, or -1.
pub open spec fn comma_from(h: Seq<char>, j: int) -> int
    decreases h.len() - j,
{
    if j < 0 || j >= h.len() {
        -1
    } else if h[j] == '、' {
        j
    } else {
        comma_from(h, j + 1)
    }
}

/// Where the description before an amending provision starts: after the first comma after
/// the last phrase (the end when there is none), or at the start when there is no phrase.
pub open spec fn desc_start(h: Seq<char>) -> int {
    let j = last_close(h, h.len() - 1);
    if j < 0 {
        0
    } else {
        let k = comma_from(h, j);
        if k < 0 { h.len() as int } else { k + 1 }
    }
}

/// The commas of a text marked as not splitting.
pub open spec fn keep_commas(x: Seq<char>) -> Seq<char> {
    x.map_values(|c: char| if c == '、' { keep_mark() } else { c })
}

/// The marks of a text made commas again.
pub open spec fn unkeep(x: Seq<char>) -> Seq<char> {
    x.map_values(|c: char| if c == keep_mark() { '、' } else { c })
}

/// The text before an amending provision with the commas of its description protected,
/// when the description has no phrase, has a comma and ends with a verb (`る`, `す`).
pub open spec fn protect_head(h: Seq<char>) -> (Seq<char>, bool) {
    let st = desc_start(h);
    let desc = h.skip(st);
    if !desc.contains('「') && desc.contains('、') && (ends_with(desc, "る"@) || ends_with(desc, "す"@)) {
        (h.take(st) + keep_commas(desc), true)
    } else {
        (h, false)
    }
}

/// The text from `last` on with the descriptions before the amending provisions from `from`
/// on protected, and whether any was.
pub open spec fn protect_from(s: Seq<char>, last: int, from: int) -> (Seq<char>, bool)
    decreases s.len() - from,
{
    let i = next_rule(s, from);
    if from < 0 || i < 0 {
        (s.subrange(last, s.len() as int), false)
    } else {
        proof {
            lemma_next_rule(s, from);
        }
        let (h, c1) = protect_head(s.subrange(last, i));
        let (r, c2) = protect_from(s, i, i + 4);
        (h + r, c1 || c2)
    }
}

proof fn lemma_count_add(a: Seq<char>, b: Seq<char>, c: char)
    ensures
        count_of(a + b, c) == count_of(a, c) + count_of(b, c),
    decreases b.len(),
{
    if b.len() == 0 {
        assert(a + b == a);
    } else {
        assert((a + b).drop_last() == a + b.drop_last());
        lemma_count_add(a, b.drop_last(), c);
    }
}

proof fn lemma_count_keep(x: Seq<char>)
    ensures
        count_of(keep_commas(x), '、') == 0,
    decreases x.len(),
{
    if x.len() > 0 {
        assert(keep_commas(x).drop_last() == keep_commas(x.drop_last()));
        lemma_count_keep(x.drop_last());
    }
}

proof fn lemma_count_contains(x: Seq<char>, c: char)
    requires
        x.contains(c),
    ensures
        count_of(x, c) >= 1,
    decreases x.len(),
{
    if x.last() != c {
        let i = choose|i: int| 0 <= i < x.len() && x[i] == c;
        assert(x.drop_last()[i] == c);
        lemma_count_contains(x.drop_last(), c);
    }
}

proof fn lemma_protect_head_count(h: Seq<char>)
    ensures
        count_of(protect_head(h).0, '、') + (if protect_head(h).1 { 1nat } else { 0nat }) <= count_of(h, '、'),
{
    let st = desc_start(h);
    let desc = h.skip(st);
    if protect_head(h).1 {
        assert(0 <= st <= h.len()) by {
            let j = last_close(h, h.len() - 1);
            lemma_last_close(h, h.len() - 1);
            if j >= 0 {
                lemma_comma_from(h, j);
            }
        }
        assert(h == h.take(st) + desc);
        lemma_count_add(h.take(st), desc, '、');
        lemma_count_add(h.take(st), keep_commas(desc), '、');
        lemma_count_keep(desc);
        lemma_count_contains(desc, '、');
    }
}

/// The description starts within the text.
pub proof fn lemma_desc_start(h: Seq<char>)
    ensures
        0 <= desc_start(h) <= h.len(),
{
    let j = last_close(h, h.len() - 1);
    lemma_last_close(h, h.len() - 1);
    if j >= 0 {
        lemma_comma_from(h, j);
    }
}

proof fn lemma_last_close(h: Seq<char>, i: int)
    requires
        -1 <= i < h.len(),
    ensures
        -1 <= last_close(h, i) <= i,
        last_close(h, i) >= 0 ==> h[last_close(h, i)] == '」',
    decreases i + 1,
{
    if i >= 0 && h[i] != '」' {
        lemma_last_close(h, i - 1);
    }
}

proof fn lemma_comma_from(h: Seq<char>, j: int)
    requires
        0 <= j,
    ensures
        comma_from(h, j) == -1 || (j <= comma_from(h, j) < h.len() && h[comma_from(h, j)] == '、'),
    decreases h.len() - j,
{
    if j < h.len() && h[j] != '、' {
        lemma_comma_from(h, j + 1);
    }
}

pub proof fn lemma_protect_count(s: Seq<char>, last: int, from: int)
    requires
        0 <= last <= from <= s.len(),
    ensures
        count_of(protect_from(s, last, from).0, '、') + (if protect_from(s, last, from).1 { 1nat } else { 0nat })
            <= count_of(s.subrange(last, s.len() as int), '、'),
    decreases s.len() - from,
{
    let i = next_rule(s, from);
    lemma_next_rule(s, from);
    if i >= 0 {
        lemma_protect_count(s, i, i + 4);
        lemma_protect_head_count(s.subrange(last, i));
        let (h, c1) = protect_head(s.subrange(last, i));
        let (r, c2) = protect_from(s, i, i + 4);
        lemma_count_add(h, r, '、');
        assert(s.subrange(last, s.len() as int) == s.subrange(last, i) + s.subrange(i, s.len() as int));
        lemma_count_add(s.subrange(last, i), s.subrange(i, s.len() as int), '、');
    }
}

/// The segments of an instruction (see the module documentation); when `strict`, a comma
/// after a verb and before a place also splits, whatever the depth of the brackets.
pub open spec fn spec_split_segments_with(s: Seq<char>, strict: bool) -> Seq<Seq<char>>
    decreases count_of(s, '、'),
{
    let (ps, changed) = protect_from(s, 0, 0);
    if changed {
        proof {
            lemma_protect_count(s, 0, 0);
            assert(s.subrange(0, s.len() as int) == s);
        }
        spec_split_segments_with(ps, strict).map_values(|x: Seq<char>| unkeep(x))
    } else {
        merged(split_plain(s, strict))
    }
}

fn next_rule_of(s: &Vec<char>, from: usize) -> (r: Option<usize>)
    ensures
        match r {
            Some(i) => i == next_rule(s@, from as int) && i + 4 <= s.len(),
            None => next_rule(s@, from as int) == -1,
        },
{
    proof {
        reveal_strlit("改正規定");
    }
    let mut i = from;
    while i <= s.len() && s.len() - i >= 4
        invariant
            from <= i,
            next_rule(s@, i as int) == next_rule(s@, from as int),
        decreases s.len() - i,
    {
        proof {
            reveal_strlit("改正規定");
        }
        if has_at(s.as_slice(), i, "改正規定") {
            assert("改正規定"@.len() == 4);
            assert(s@.subrange(i as int, i + 4) =~= s@.skip(i as int).take(4));
            assert(rule_at(s@, i as int));
            return Some(i);
        }
        assert(!rule_at(s@, i as int)) by {
            if rule_at(s@, i as int) {
                assert(s@.subrange(i as int, i + 4) =~= s@.skip(i as int).take(4));
            }
        }
        i = i + 1;
    }
    None
}

fn protect_head_of(h: &Vec<char>) -> (r: (Vec<char>, bool))
    ensures
        (r.0@, r.1) == protect_head(h@),
{
    // the last closing bracket
    let mut j = h.len();
    while j > 0 && h[j - 1] != '」'
        invariant
            j <= h.len(),
            last_close(h@, j - 1) == last_close(h@, h.len() - 1),
        decreases j,
    {
        j = j - 1;
    }
    let st: usize = if j == 0 {
        assert(last_close(h@, -1) == -1);
        0
    } else {
        let mut k = j - 1;
        while k < h.len() && h[k] != '、'
            invariant
                j - 1 <= k <= h.len(),
                comma_from(h@, k as int) == comma_from(h@, j - 1),
            decreases h.len() - k,
        {
            k = k + 1;
        }
        if k < h.len() {
            k + 1
        } else {
            h.len()
        }
    };
    assert(st == desc_start(h@));
    let desc = crate::text::slice_from(h.as_slice(), st);
    assert(desc@ == h@.skip(st as int));
    if !has_char(&desc, '「') && has_char(&desc, '、') && (chars_end_with(desc.as_slice(), "る") || chars_end_with(
        desc.as_slice(),
        "す",
    )) {
        let mut out = crate::text::slice_to(h.as_slice(), st);
        let ghost o0 = out@;
        let mut i: usize = 0;
        while i < desc.len()
            invariant
                i <= desc.len(),
                out@ == o0 + keep_commas(desc@).take(i as int),
            decreases desc.len() - i,
        {
            let c = desc[i];
            out.push(if c == '、' { '\u{E010}' } else { c });
            assert(keep_commas(desc@).take(i + 1) == keep_commas(desc@).take(i as int).push(keep_commas(desc@)[i as int]));
            i = i + 1;
        }
        assert(keep_commas(desc@).take(desc.len() as int) == keep_commas(desc@));
        (out, true)
    } else {
        (crate::text::slice_from(h.as_slice(), 0), false)
    }
}

fn protect_of(s: &Vec<char>) -> (r: (Vec<char>, bool))
    ensures
        (r.0@, r.1) == protect_from(s@, 0, 0),
{
    let mut out: Vec<char> = Vec::new();
    let mut changed = false;
    let mut last: usize = 0;
    let mut from: usize = 0;
    loop
        invariant
            last <= from <= s.len(),
            out@ + protect_from(s@, last as int, from as int).0 == protect_from(s@, 0, 0).0,
            (changed || protect_from(s@, last as int, from as int).1) == protect_from(s@, 0, 0).1,
        decreases s.len() - from,
    {
        proof {
            lemma_next_rule(s@, from as int);
        }
        match next_rule_of(s, from) {
            None => {
                let rest = crate::text::slice_range(s.as_slice(), last, s.len());
                append_chars(&mut out, &rest);
                return (out, changed);
            },
            Some(i) => {
                let head = crate::text::slice_range(s.as_slice(), last, i);
                let (h, c) = protect_head_of(&head);
                let ghost o0 = out@;
                append_chars(&mut out, &h);
                assert(out@ + protect_from(s@, i as int, i + 4).0 == o0 + protect_from(s@, last as int, from as int).0);
                changed = changed || c;
                last = i;
                from = i + 4;
            },
        }
    }
}

fn unkeep_string(x: &String) -> (r: String)
    ensures
        r@ == unkeep(x@),
{
    let cs = chars_of(x.as_str());
    let mut out: Vec<char> = Vec::new();
    let mut i: usize = 0;
    while i < cs.len()
        invariant
            i <= cs.len(),
            cs@ == x@,
            out@ == unkeep(x@).take(i as int),
        decreases cs.len() - i,
    {
        let c = cs[i];
        out.push(if c == '\u{E010}' { '、' } else { c });
        assert(unkeep(x@).take(i + 1) == unkeep(x@).take(i as int).push(unkeep(x@)[i as int]));
        i = i + 1;
    }
    assert(unkeep(x@).take(cs.len() as int) == unkeep(x@));
    string_of(out.as_slice())
}

/// Splits an instruction into its segments (see the module documentation); when `strict`,
/// a comma after a verb and before a place also splits, whatever the depth of the brackets
/// (for instructions whose phrases hold brackets themselves).
pub fn split_segments_with(s: &str, strict: bool) -> (r: Vec<String>)
    ensures
        strings_view(r@) == spec_split_segments_with(s@, strict),
    decreases count_of(s@, '、'),
{
    let cs = chars_of(s);
    let (ps, changed) = protect_of(&cs);
    if changed {
        proof {
            lemma_protect_count(s@, 0, 0);
            assert(s@.subrange(0, s@.len() as int) == s@);
        }
        let pstr = string_of(ps.as_slice());
        let inner = split_segments_with(pstr.as_str(), strict);
        let ghost iv = strings_view(inner@);
        let mut out: Vec<String> = Vec::new();
        let mut i: usize = 0;
        while i < inner.len()
            invariant
                i <= inner.len(),
                iv == strings_view(inner@),
                strings_view(out@) == iv.take(i as int).map_values(|x: Seq<char>| unkeep(x)),
            decreases inner.len() - i,
        {
            let ghost o0 = out@;
            let u = unkeep_string(&inner[i]);
            out.push(u);
            assert(strings_view(out@) =~= strings_view(o0).push(u@));
            assert(iv.take(i + 1).map_values(|x: Seq<char>| unkeep(x)) =~= iv.take(i as int).map_values(
                |x: Seq<char>| unkeep(x),
            ).push(unkeep(iv[i as int])));
            i = i + 1;
        }
        assert(iv.take(inner.len() as int) == iv);
        return out;
    }
    let segs = split_plain_of(&cs, strict);
    let m = merged_of(&segs);
    let ghost mv = char_seqs(m@);
    let mut out: Vec<String> = Vec::new();
    let mut i: usize = 0;
    while i < m.len()
        invariant
            i <= m.len(),
            mv == char_seqs(m@),
            strings_view(out@) == mv.take(i as int),
        decreases m.len() - i,
    {
        let ghost o0 = out@;
        let t = string_of(m[i].as_slice());
        out.push(t);
        assert(strings_view(out@) =~= strings_view(o0).push(t@));
        assert(mv.take(i + 1) == mv.take(i as int).push(mv[i as int]));
        i = i + 1;
    }
    assert(mv.take(m.len() as int) == mv);
    out
}

/// Splits an instruction at the commas outside brackets (see the module documentation).
pub fn split_segments(s: &str) -> (r: Vec<String>)
    ensures
        strings_view(r@) == spec_split_segments_with(s@, false),
{
    split_segments_with(s, false)
}

} // verus!
