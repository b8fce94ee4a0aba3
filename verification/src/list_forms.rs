//! The forms of place lists in instructions: lists of divisions, lists ending in items, and
//! places named together with their captions.

use vstd::prelude::*;
use crate::place::{is_numeral, numeral_char, numeral_end, numeral_end_at};
use crate::locs::{container_end, container_end_from};
use crate::rewrite::{replace_all, spec_replace};
use crate::text::{chars_of, ends_with, has_at, starts_with, slice_to, slice_from, string_of};

verus! {

// ---------------------------------------------------------------------------------------
// Lists ending in items

/// The start of the run of numerals that ends `s`.
pub open spec fn numeral_run_start(s: Seq<char>) -> int
    decreases s.len(),
{
    if s.len() > 0 && is_numeral(s.last()) {
        numeral_run_start(s.drop_last())
    } else {
        s.len() as int
    }
}

pub proof fn lemma_numeral_run_start(s: Seq<char>)
    ensures
        0 <= numeral_run_start(s) <= s.len(),
        forall|q: int| numeral_run_start(s) <= q < s.len() ==> is_numeral(s[q]),
        numeral_run_start(s) > 0 ==> !is_numeral(s[numeral_run_start(s) - 1]),
    decreases s.len(),
{
    if s.len() > 0 && is_numeral(s.last()) {
        lemma_numeral_run_start(s.drop_last());
        assert forall|q: int| numeral_run_start(s) <= q < s.len() implies is_numeral(s[q]) by {
            if q < s.len() - 1 {
                assert(s[q] == s.drop_last()[q]);
            }
        }
        if numeral_run_start(s) > 0 {
            assert(s[numeral_run_start(s) - 1] == s.drop_last()[numeral_run_start(s) - 1]);
        }
    }
}

/// `s` without the branch numbers (`の二`, `の三`…) that end it.
pub open spec fn strip_branches(s: Seq<char>) -> Seq<char>
    decreases s.len(),
{
    let k = numeral_run_start(s);
    if 0 < k < s.len() && s[k - 1] == 'の' {
        proof {
            lemma_numeral_run_start(s);
        }
        strip_branches(s.take(k - 1))
    } else {
        s
    }
}

/// `s` ends with an item number `第N号` and its branches.
pub open spec fn ends_with_item(s: Seq<char>) -> bool {
    let t = strip_branches(s);
    let u = if t.len() > 0 { t.drop_last() } else { t };
    let k = numeral_run_start(u);
    &&& t.len() > 0
    &&& t.last() == '号'
    &&& k < u.len()
    &&& k > 0
    &&& u[k - 1] == '第'
}

/// A list of places that ends in items (`第三号及び第四号`, `第六号から第八号まで`).
pub open spec fn spec_item_list_tail(l: Seq<char>) -> bool {
    ends_with_item(if ends_with(l, "まで"@) { l.take(l.len() - 2) } else { l })
}

fn run_start(s: &Vec<char>, n: usize) -> (k: usize)
    requires
        n <= s.len(),
    ensures
        k == numeral_run_start(s@.take(n as int)),
        k <= n,
{
    let mut k = n;
    while k > 0 && numeral_char(s[k - 1])
        invariant
            k <= n <= s.len(),
            numeral_run_start(s@.take(n as int)) == numeral_run_start(s@.take(k as int)),
        decreases k,
    {
        assert(s@.take(k as int).drop_last() =~= s@.take(k - 1));
        k = k - 1;
    }
    proof {
        if k > 0 {
            assert(s@.take(k as int).last() == s@[k - 1]);
        }
    }
    k
}

/// Whether a list of places ends in items (see [`spec_item_list_tail`]).
pub fn item_list_tail(l: &str) -> (r: bool)
    ensures
        r == spec_item_list_tail(l@),
{
    let c = chars_of(l);
    proof {
        reveal_strlit("まで");
    }
    let mut n = c.len();
    if n >= 2 && c[n - 2] == 'ま' && c[n - 1] == 'で' {
        n = n - 2;
        assert(ends_with(l@, "まで"@)) by {
            assert(l@.skip(l@.len() - 2) =~= "まで"@);
        }
    } else {
        assert(!ends_with(l@, "まで"@)) by {
            if ends_with(l@, "まで"@) {
                assert(l@.skip(l@.len() - 2)[0] == 'ま');
                assert(l@.skip(l@.len() - 2)[1] == 'で');
            }
        }
        assert(l@.take(n as int) =~= l@);
    }
    let ghost s0 = c@.take(n as int);
    // strip the branches
    loop
        invariant
            n <= c.len(),
            strip_branches(s0) == strip_branches(c@.take(n as int)),
        ensures
            n <= c.len(),
            strip_branches(s0) == c@.take(n as int),
        decreases n,
    {
        let k = run_start(&c, n);
        let ghost s = c@.take(n as int);
        if 0 < k && k < n && c[k - 1] == 'の' {
            assert(s.take(k - 1) =~= c@.take(k - 1));
            n = k - 1;
        } else {
            assert(strip_branches(s) == s);
            break;
        }
    }
    let ghost t = c@.take(n as int);
    assert(strip_branches(s0) == t);
    if n == 0 || c[n - 1] != '号' {
        return false;
    }
    let m = n - 1;
    assert(t.drop_last() =~= c@.take(m as int));
    let k = run_start(&c, m);
    k < m && k > 0 && c[k - 1] == '第'
}

// ---------------------------------------------------------------------------------------
// Lists of divisions

/// Where a connecting word (`及び`, `、`, `から`) at `i` ends, or -1.
pub open spec fn connector_end(c: Seq<char>, i: int) -> int {
    if 0 <= i <= c.len() && starts_with(c.skip(i), "及び"@) {
        i + 2
    } else if 0 <= i <= c.len() && starts_with(c.skip(i), "から"@) {
        i + 2
    } else if 0 <= i < c.len() && c[i] == '、' {
        i + 1
    } else {
        -1
    }
}

pub proof fn lemma_connector_end(c: Seq<char>, i: int)
    ensures
        connector_end(c, i) >= 0 ==> 0 <= i < connector_end(c, i) <= c.len(),
{
    reveal_strlit("及び");
    reveal_strlit("から");
}

/// The rest of `c` from `i` is groups of a connecting word and divisions, a group
/// perhaps closed by `まで`.
pub open spec fn division_groups(c: Seq<char>, i: int) -> bool
    decreases c.len() - i,
{
    if i < 0 || i > c.len() {
        false
    } else if i == c.len() {
        true
    } else {
        let j = connector_end(c, i);
        if j < 0 {
            false
        } else {
            proof {
                lemma_connector_end(c, i);
                lemma_container_end_grows(c, j);
                reveal_strlit("まで");
            }
            let u = container_end(c, j);
            if u <= j {
                false
            } else if starts_with(c.skip(u), "まで"@) {
                division_groups(c, u + 2)
            } else {
                division_groups(c, u)
            }
        }
    }
}

/// A list of divisions (`第四章及び第五章`, `第二章の二`, `第三章第二節から第四節まで`;
/// `中第` read as `第`).
pub open spec fn spec_is_container_list(l: Seq<char>) -> bool {
    let m = spec_replace(l, "中第"@, "第"@);
    let u = container_end(m, 0);
    u > 0 && division_groups(m, u)
}

pub proof fn lemma_container_end_grows(c: Seq<char>, i: int)
    requires
        0 <= i <= c.len(),
    ensures
        i <= container_end(c, i) <= c.len(),
    decreases c.len() - i,
{
    if crate::locs::container_at(c, i) {
        crate::place::lemma_numeral_end(c, i + 1);
        crate::place::lemma_branch_end(c, crate::place::after_number(c, i));
        lemma_container_end_grows(c, crate::place::branch_end(c, crate::place::after_number(c, i)));
    }
}

/// Whether the text is a list of divisions (see [`spec_is_container_list`]).
pub fn is_container_list(l: &str) -> (r: bool)
    ensures
        r == spec_is_container_list(l@),
{
    let c0 = chars_of(l);
    let m = replace_all(&c0, "中第", "第");
    let u = container_end_from(&m, 0);
    assert(c0@ == l@);
    if u == 0 {
        return false;
    }
    proof {
        reveal_strlit("及び");
        reveal_strlit("から");
        reveal_strlit("まで");
    }
    let mut i = u;
    loop
        invariant
            0 < u <= i <= m.len(),
            division_groups(m@, u as int) == division_groups(m@, i as int),
            spec_is_container_list(l@) == division_groups(m@, u as int),
        ensures
            division_groups(m@, u as int),
        decreases m.len() - i,
    {
        if i == m.len() {
            break;
        }
        proof {
            reveal_strlit("及び");
            reveal_strlit("から");
            reveal_strlit("まで");
            lemma_connector_end(m@, i as int);
        }
        let s = m.as_slice();
        let j: usize = if has_at(s, i, "及び") || has_at(s, i, "から") {
            i + 2
        } else if m[i] == '、' {
            i + 1
        } else {
            assert(connector_end(m@, i as int) == -1);
            return false;
        };
        assert(j as int == connector_end(m@, i as int));
        proof {
            lemma_container_end_grows(m@, j as int);
        }
        let v = container_end_from(&m, j);
        if v <= j {
            return false;
        }
        if has_at(s, v, "まで") {
            i = v + 2;
        } else {
            i = v;
        }
    }
    true
}

// ---------------------------------------------------------------------------------------
// Places named with their captions

/// The length of the mention of a caption together with `同条` or `同項` at `p`
/// (`の見出し及び同条`, `の前の見出し及び同項`…), 0 when none stands there.
pub open spec fn mention_at(t: Seq<char>, p: int) -> int {
    let s = t.skip(p);
    if starts_with(s, "の見出し及び同条"@) || starts_with(s, "の見出し及び同項"@) {
        8
    } else if starts_with(s, "の前の見出し及び同条"@) || starts_with(s, "の前の見出し及び同項"@) {
        10
    } else {
        0
    }
}

/// The first place from `p` on where such a mention stands, or -1.
pub open spec fn first_mention(t: Seq<char>, p: int) -> int
    decreases t.len() - p,
{
    if p < 0 || p >= t.len() {
        -1
    } else if mention_at(t, p) > 0 {
        p
    } else {
        first_mention(t, p + 1)
    }
}

/// The length of the caption mention that ends `t` (`及び同条の見出し`,
/// `及び同項の前の見出し`…), 0 when none does.
pub open spec fn tail_mention(t: Seq<char>) -> int {
    if ends_with(t, "及び同条の見出し"@) || ends_with(t, "及び同項の見出し"@) {
        8
    } else if ends_with(t, "及び同条の前の見出し"@) || ends_with(t, "及び同項の前の見出し"@) {
        10
    } else {
        0
    }
}

/// The place named together with its caption, without the caption: `Xの見出し及び同条…`
/// is `X…` (at the first such mention after the first character), `X及び同条の見出し` is `X`
/// (a line with a line break is neither), and otherwise `（見出しを含む。）` is taken out.
pub open spec fn spec_without_caption_mention(t: Seq<char>) -> Seq<char> {
    let p = first_mention(t, 1);
    let k = tail_mention(t);
    if !t.contains('\n') && p >= 1 {
        t.take(p) + t.skip(p + mention_at(t, p))
    } else if !t.contains('\n') && k > 0 && t.len() > k {
        t.take(t.len() - k)
    } else {
        spec_replace(t, "（見出しを含む。）"@, ""@)
    }
}

fn mention_at_exec(c: &Vec<char>, p: usize) -> (r: usize)
    requires
        p <= c.len(),
    ensures
        r == mention_at(c@, p as int),
{
    let s = c.as_slice();
    if has_at(s, p, "の見出し及び同条") || has_at(s, p, "の見出し及び同項") {
        8
    } else if has_at(s, p, "の前の見出し及び同条") || has_at(s, p, "の前の見出し及び同項") {
        10
    } else {
        0
    }
}

fn tail_mention_exec(c: &Vec<char>) -> (r: usize)
    ensures
        r == tail_mention(c@),
{
    let s = c.as_slice();
    if crate::text::chars_end_with(s, "及び同条の見出し") || crate::text::chars_end_with(s, "及び同項の見出し") {
        8
    } else if crate::text::chars_end_with(s, "及び同条の前の見出し") || crate::text::chars_end_with(s, "及び同項の前の見出し") {
        10
    } else {
        0
    }
}

/// The place without the mention of its caption (see [`spec_without_caption_mention`]).
pub fn without_caption_mention(l: &str) -> (r: String)
    ensures
        r@ == spec_without_caption_mention(l@),
{
    let c = chars_of(l);
    let mut nl = false;
    let mut q: usize = 0;
    while q < c.len()
        invariant
            q <= c.len(),
            nl == exists|x: int| 0 <= x < q && c@[x] == '\n',
        decreases c.len() - q,
    {
        if c[q] == '\n' {
            nl = true;
        }
        q = q + 1;
    }
    assert(nl == c@.contains('\n'));
    proof {
        reveal_strlit("の見出し及び同条");
        reveal_strlit("の前の見出し及び同条");
    }
    let mut p: usize = 1;
    let mut found = false;
    while p < c.len()
        invariant
            1 <= p,
            c@ == l@,
            first_mention(c@, 1) == (if p <= c.len() { first_mention(c@, p as int) } else { -1 }),
            found ==> p < c.len() && mention_at(c@, p as int) > 0,
        ensures
            1 <= p,
            first_mention(c@, 1) == (if found { p as int } else { -1 }),
            found ==> p < c.len() && mention_at(c@, p as int) > 0,
        decreases c.len() - p,
    {
        if mention_at_exec(&c, p) > 0 {
            found = true;
            break;
        }
        p = p + 1;
    }
    if !nl && found {
        let k = mention_at_exec(&c, p);
        proof {
            if c@.len() < p + k {
                assert(c@.skip(p as int).len() < k);
            }
        }
        assert(p + k <= c.len()) by {
            assert(starts_with(c@.skip(p as int), "の見出し及び同条"@) || starts_with(c@.skip(p as int), "の見出し及び同項"@)
                || starts_with(c@.skip(p as int), "の前の見出し及び同条"@) || starts_with(c@.skip(p as int), "の前の見出し及び同項"@));
            reveal_strlit("の見出し及び同項");
            reveal_strlit("の前の見出し及び同項");
        }
        let mut out = slice_to(c.as_slice(), p);
        let rest = slice_from(c.as_slice(), p + k);
        let mut z: usize = 0;
        let ghost o = out@;
        while z < rest.len()
            invariant
                z <= rest.len(),
                out@ == o + rest@.take(z as int),
            decreases rest.len() - z,
        {
            out.push(rest[z]);
            assert(rest@.take(z + 1) =~= rest@.take(z as int).push(rest@[z as int]));
            z = z + 1;
        }
        assert(rest@.take(rest.len() as int) =~= rest@);
        return string_of(out.as_slice());
    }
    let k = tail_mention_exec(&c);
    if !nl && k > 0 && c.len() > k {
        return string_of(slice_to(c.as_slice(), c.len() - k).as_slice());
    }
    string_of(replace_all(&c, "（見出しを含む。）", "").as_slice())
}

} // verus!
