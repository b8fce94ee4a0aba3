//! Divisions named in instructions: ranges of them, and paths completed by the divisions
//! named before.

use vstd::prelude::*;
use crate::hane::{find_from, find_in};
use crate::hane_cands::parse_u32_chars;
use crate::locs::{container_path, spec_container_path, trim_suffix_all, trim_suffix_all_chars, Ante, AnteModel};
use crate::numeral::{push_decimal, spec_decimal, spec_parse_u32};
use crate::op::{copy_path, path_view, ContainerKind, Op, TableRef, TableRefModel};
use crate::text::{chars_of, slice_from, slice_to};

verus! {

/// The divisions that `AからBまで` names (`第三章第二節から第四節まで` is sections two to
/// four of chapter three); a range whose ends do not read as plain numbers names its two
/// ends; anything else names its one path.
pub open spec fn spec_container_range(t: Seq<char>) -> Seq<Seq<(ContainerKind, Seq<char>)>> {
    let k = find_from(t, "から"@, 0);
    if k < 0 {
        seq![spec_container_path(t)]
    } else {
        let pa = spec_container_path(t.take(k));
        let pb = spec_container_path(trim_suffix_all(t.skip(k + 2), "まで"@));
        if pa.len() == 0 || pb.len() == 0 {
            seq![pa]
        } else {
            match (spec_parse_u32(pa.last().1), spec_parse_u32(pb.last().1)) {
                (Some(x), Some(y)) => Seq::new(
                    if y >= x { (y - x + 1) as nat } else { 0 },
                    |i: int| pa.drop_last().push((pa.last().0, spec_decimal((x + i) as nat))),
                ),
                _ => seq![pa, pb],
            }
        }
    }
}

pub open spec fn paths_view(v: Seq<Vec<(ContainerKind, String)>>) -> Seq<Seq<(ContainerKind, Seq<char>)>> {
    v.map_values(|p: Vec<(ContainerKind, String)>| path_view(p@))
}

/// The divisions a range names (see [`spec_container_range`]).
pub fn container_range(t: &str) -> (r: Vec<Vec<(ContainerKind, String)>>)
    ensures
        paths_view(r@) == spec_container_range(t@),
{
    let c = chars_of(t);
    let kara = chars_of("から");
    let k = match find_in(&c, &kara) {
        None => {
            let p = container_path(&c);
            let r = vec![p];
            assert(paths_view(r@) =~= spec_container_range(t@));
            return r;
        },
        Some(k) => k,
    };
    proof {
        reveal_strlit("から");
    }
    assert(kara@.len() == 2);
    let a = slice_to(c.as_slice(), k);
    let b = trim_suffix_all_chars(slice_from(c.as_slice(), k + 2), "まで");
    let pa = container_path(&a);
    let pb = container_path(&b);
    if pa.len() == 0 || pb.len() == 0 {
        let r = vec![pa];
        assert(paths_view(r@) =~= spec_container_range(t@));
        return r;
    }
    let ka = pa[pa.len() - 1].0;
    let na = chars_of(pa[pa.len() - 1].1.as_str());
    let nb = chars_of(pb[pb.len() - 1].1.as_str());
    let (x, y) = match (parse_u32_chars(&na), parse_u32_chars(&nb)) {
        (Some(x), Some(y)) => (x, y),
        _ => {
            let r = vec![pa, pb];
            assert(paths_view(r@) =~= spec_container_range(t@));
            return r;
        },
    };
    if y < x {
        let r: Vec<Vec<(ContainerKind, String)>> = Vec::new();
        assert(paths_view(r@) =~= spec_container_range(t@));
        return r;
    }
    let ghost pav = path_view(pa@);
    let mut parent = copy_path(&pa);
    let _ = parent.pop();
    assert(path_view(parent@) =~= pav.drop_last());
    let ghost want = spec_container_range(t@);
    let mut r: Vec<Vec<(ContainerKind, String)>> = Vec::new();
    let mut n: u64 = x as u64;
    while n <= y as u64
        invariant
            x as u64 <= n <= y as u64 + 1,
            pav == path_view(pa@),
            path_view(parent@) == pav.drop_last(),
            pav.len() > 0,
            ka == pav.last().0,
            spec_parse_u32(pav.last().1) == Some(x),
            paths_view(r@) == want.take((n - x) as int),
            want.len() == (if y >= x { (y - x + 1) as nat } else { 0 }),
            want == Seq::new(
                if y >= x { (y - x + 1) as nat } else { 0 },
                |i: int| pav.drop_last().push((pav.last().0, spec_decimal((x + i) as nat))),
            ),
        decreases y as u64 + 1 - n,
    {
        let mut p = copy_path(&parent);
        let mut s = String::new();
        push_decimal(&mut s, n);
        let ghost pp = path_view(p@);
        p.push((ka, s));
        assert(path_view(p@) =~= pp.push((ka, spec_decimal(n as nat))));
        let ghost before = r@;
        r.push(p);
        assert(paths_view(r@) =~= paths_view(before).push(path_view(p@)));
        assert(want[(n - x) as int] == pav.drop_last().push((pav.last().0, spec_decimal(n as nat))));
        assert(want.take((n + 1 - x) as int) =~= want.take((n - x) as int).push(want[(n - x) as int]));
        n = n + 1;
    }
    assert(want.take((n - x) as int) =~= want);
    r
}

/// The depth of a kind of division: `編` outermost.
pub open spec fn depth(k: ContainerKind) -> int {
    match k {
        ContainerKind::Part => 0,
        ContainerKind::Chapter => 1,
        ContainerKind::Section => 2,
        ContainerKind::Subsection => 3,
        ContainerKind::Division => 4,
    }
}

/// The depth of a kind of division (see [`depth`]).
pub fn container_depth(k: ContainerKind) -> (d: u8)
    ensures
        d == depth(k),
{
    match k {
        ContainerKind::Part => 0,
        ContainerKind::Chapter => 1,
        ContainerKind::Section => 2,
        ContainerKind::Subsection => 3,
        ContainerKind::Division => 4,
    }
}

/// The leading divisions of `c` that lie outside the depth `d`.
pub open spec fn outer_prefix(c: Seq<(ContainerKind, Seq<char>)>, d: int) -> Seq<(ContainerKind, Seq<char>)>
    decreases c.len(),
{
    if c.len() > 0 && depth(c[0].0) < d {
        seq![c[0]] + outer_prefix(c.drop_first(), d)
    } else {
        Seq::empty()
    }
}

/// The path that `pre` (`第一章中`) and `path` (`第八節`) name together, and the places
/// named before after it: `pre`, when it names divisions, becomes what later `同章` refers
/// to; a path named without `pre` lies within the divisions named before that are outside
/// its own first division.
pub open spec fn spec_container_path_with_ante(pre: Seq<char>, path: Seq<char>, a: AnteModel) -> (Seq<(ContainerKind, Seq<char>)>, AnteModel) {
    let full = spec_container_path(pre);
    let a2 = if full.len() > 0 { AnteModel { container: full, ..a } } else { a };
    let own = spec_container_path(path);
    let head = if full.len() == 0 && own.len() > 0 { outer_prefix(a2.container, depth(own[0].0)) } else { full };
    (head + own, a2)
}

/// The path named by `pre` and `path` (see [`spec_container_path_with_ante`]).
pub fn container_path_with_ante(pre: &str, path: &str, ante: &mut Ante) -> (r: Vec<(ContainerKind, String)>)
    ensures
        (path_view(r@), final(ante)@) == spec_container_path_with_ante(pre@, path@, old(ante)@),
{
    let full = container_path(&chars_of(pre));
    if full.len() > 0 {
        ante.container = copy_path(&full);
    }
    let own = container_path(&chars_of(path));
    let mut head: Vec<(ContainerKind, String)> = if full.len() == 0 && own.len() > 0 {
        let d = container_depth(own[0].0);
        let mut h: Vec<(ContainerKind, String)> = Vec::new();
        let mut i: usize = 0;
        let ghost cv = path_view(ante.container@);
        assert(cv.skip(0) =~= cv);
        while i < ante.container.len() && container_depth(ante.container[i].0) < d
            invariant
                i <= ante.container.len(),
                cv == path_view(ante.container@),
                outer_prefix(cv, d as int) == path_view(h@) + outer_prefix(cv.skip(i as int), d as int),
            decreases ante.container.len() - i,
        {
            let ghost before = path_view(h@);
            h.push((ante.container[i].0, ante.container[i].1.clone()));
            assert(path_view(h@) =~= before.push(cv[i as int]));
            assert(cv.skip(i as int).drop_first() =~= cv.skip(i + 1));
            assert(seq![cv[i as int]] + outer_prefix(cv.skip(i + 1), d as int) == outer_prefix(cv.skip(i as int), d as int));
            assert(path_view(h@) + outer_prefix(cv.skip(i + 1), d as int) =~= before + (seq![cv[i as int]] + outer_prefix(cv.skip(i + 1), d as int)));
            i = i + 1;
        }
        h
    } else {
        full
    };
    let ghost hv = path_view(head@);
    let mut j: usize = 0;
    while j < own.len()
        invariant
            j <= own.len(),
            path_view(head@) == hv + path_view(own@).take(j as int),
        decreases own.len() - j,
    {
        let ghost before = path_view(head@);
        head.push((own[j].0, own[j].1.clone()));
        assert(path_view(head@) =~= before.push(path_view(own@)[j as int]));
        assert(path_view(own@).take(j + 1) =~= path_view(own@).take(j as int).push(path_view(own@)[j as int]));
        assert(path_view(head@) =~= hv + path_view(own@).take(j + 1));
        j = j + 1;
    }
    assert(path_view(own@).take(own.len() as int) =~= path_view(own@));
    head
}

/// The appended table that `同表` means: that of the row named before, or the table
/// edited before when it is an appended table.
pub open spec fn spec_same_appdx(a: AnteModel) -> Option<Seq<char>> {
    match (a.appdx, a.tedit) {
        (Some((t, _)), _) => Some(t),
        (None, Some((TableRefModel::Appdx(t), _))) => Some(t),
        _ => None,
    }
}

/// The appended table that `同表` means (see [`spec_same_appdx`]).
pub fn same_appdx(ante: &Ante) -> (r: Option<String>)
    ensures
        match r {
            Some(t) => spec_same_appdx(ante@) == Some(t@),
            None => spec_same_appdx(ante@) is None,
        },
{
    match (&ante.appdx, &ante.tedit) {
        (Some((t, _)), _) => Some(t.clone()),
        (None, Some((TableRef::Appdx(t), _))) => Some(t.clone()),
        _ => None,
    }
}

/// The number of lines of content an operation takes that comes out of a list of places
/// (a sentence, a paragraph or an item added), `None` for any other.
pub open spec fn spec_content_len(op: Op) -> Option<nat> {
    match op {
        Op::AppendSentence { text, .. } => Some(text@.len()),
        Op::AppendParagraph { text, .. } => Some(text@.len()),
        Op::InsertParagraphAfter { text, .. } => Some(text@.len()),
        Op::AppendItem { text, .. } => Some(text@.len()),
        _ => None,
    }
}

/// The number of lines of content an operation takes (see [`spec_content_len`]).
pub fn content_len(op: &Op) -> (r: Option<usize>)
    ensures
        match r {
            Some(n) => spec_content_len(*op) == Some(n as nat),
            None => spec_content_len(*op) is None,
        },
{
    match op {
        Op::AppendSentence { text, .. } => Some(text.len()),
        Op::AppendParagraph { text, .. } => Some(text.len()),
        Op::InsertParagraphAfter { text, .. } => Some(text.len()),
        Op::AppendItem { text, .. } => Some(text.len()),
        _ => None,
    }
}

} // verus!
