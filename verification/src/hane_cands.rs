//! The references that an amendment moves: each reference resolved before it, whose target
//! paragraph gets another number or whose distance changes, with its generated fix and
//! whether the instruction already fixes it.

use vstd::prelude::*;
use crate::article_num::{same_num, spec_parse, ArticleNum};
use crate::body::RefForm;
use crate::hane::{find_from, find_in, fixes_to, holds, render_fix, spec_fixes_to, spec_render_fix};
use crate::numeral::{decimal_u32, spec_parse_u32};
use crate::op::{AmendUnit, Loc, LocModel, Op, ParaRef, SentencePart};
use crate::body::opt_nat;
use crate::article_num::spec_num_string;
use crate::text::str_eq;
use crate::text::{chars_of, slice_from, slice_to, string_of};

verus! {

/// A reference in a sentence before the amendment, as resolution reads it.
#[derive(Debug, Clone, PartialEq, Eq)]
pub struct ResolvedRef {
    /// The id of the sentence that holds it.
    pub sentence: String,
    /// Its wording (`前項`, `第三十八条第二項`).
    pub text: String,
    /// How it is written; `None` for `同項`, `同条` and `前各項`, which follow what they
    /// refer back to.
    pub form: Option<RefForm>,
    /// The ids of the provisions it resolves to.
    pub targets: Vec<String>,
}

/// A reference moved by an amendment.
#[derive(Debug, PartialEq, Eq)]
pub struct HaneCandidate {
    /// The sentence that holds the reference.
    pub sentence: String,
    /// The wording of the reference.
    pub text: String,
    /// Its target before the amendment.
    pub target: String,
    /// The paragraph it should point at after the amendment (`None` when deleted).
    pub new_target_paragraph: Option<u32>,
    /// The generated fix: the wording to put in place of the reference (`None` for a
    /// deleted target, left to a person).
    pub fix: Option<String>,
    /// The fix as a replacement in the sentence's paragraph (numbers before the amendment).
    pub fix_op: Option<Op>,
    /// The instruction already points the reference at the right paragraph, or rewrites
    /// wording around it.
    pub handled: bool,
    /// What the instruction replaces the reference by, if it does.
    pub found_to: Option<String>,
}

pub struct RefModel {
    pub sentence: Seq<char>,
    pub text: Seq<char>,
    pub form: Option<RefForm>,
    pub targets: Seq<Seq<char>>,
}

pub open spec fn ref_view(r: ResolvedRef) -> RefModel {
    RefModel {
        sentence: r.sentence@,
        text: r.text@,
        form: r.form,
        targets: r.targets@.map_values(|t: String| t@),
    }
}

pub struct CandModel {
    pub sentence: Seq<char>,
    pub text: Seq<char>,
    pub target: Seq<char>,
    pub new_tp: Option<u32>,
    pub fix: Option<Seq<char>>,
    pub fix_op: Option<(LocModel, Seq<char>, Seq<char>)>,
    pub handled: bool,
    pub found_to: Option<Seq<char>>,
}

pub open spec fn opt_chars(o: Option<String>) -> Option<Seq<char>> {
    match o {
        Some(s) => Some(s@),
        None => None,
    }
}

/// A replacement as `(place, from, to)`; any other operation as `None`.
pub open spec fn replace_view(o: Option<Op>) -> Option<(LocModel, Seq<char>, Seq<char>)> {
    match o {
        Some(Op::Replace { at, from, to }) => Some((at@, from@, to@)),
        _ => None,
    }
}

pub open spec fn cand_view(c: HaneCandidate) -> CandModel {
    CandModel {
        sentence: c.sentence@,
        text: c.text@,
        target: c.target@,
        new_tp: c.new_target_paragraph,
        fix: opt_chars(c.fix),
        fix_op: replace_view(c.fix_op),
        handled: c.handled,
        found_to: opt_chars(c.found_to),
    }
}

pub open spec fn cands_view(v: Seq<HaneCandidate>) -> Seq<CandModel> {
    v.map_values(|c: HaneCandidate| cand_view(c))
}

// ---------------------------------------------------------------------------------------
// Ids

/// The text up to the first `/` (all of it when there is none).
pub open spec fn upto_slash(rest: Seq<char>) -> Seq<char> {
    let j = find_from(rest, seq!['/'], 0);
    if j < 0 {
        rest
    } else {
        rest.take(j)
    }
}

/// The field of the id `id` after the first `m`, up to the next `/` (`None` when `m` does
/// not occur): `a/art:5/para:2` gives `2` after `/para:`.
pub open spec fn field_of(id: Seq<char>, m: Seq<char>) -> Option<Seq<char>> {
    let i = find_from(id, m, 0);
    if i < 0 {
        None
    } else {
        Some(upto_slash(id.skip(i + m.len())))
    }
}

/// The paragraph number in an id.
pub open spec fn para_of(id: Seq<char>) -> Option<u32> {
    match field_of(id, "/para:"@) {
        Some(f) => spec_parse_u32(f),
        None => None,
    }
}

/// `/art:N/`.
pub open spec fn art_seg(art: Seq<char>) -> Seq<char> {
    "/art:"@ + art + seq!['/']
}

fn field_of_exec(id: &Vec<char>, m: &str) -> (r: Option<Vec<char>>)
    ensures
        match r {
            Some(f) => field_of(id@, m@) == Some(f@),
            None => field_of(id@, m@) is None,
        },
{
    let mc = chars_of(m);
    match find_in(id, &mc) {
        None => None,
        Some(i) => {
            let rest = slice_from(id.as_slice(), i + mc.len());
            let slash = vec!['/'];
            assert(slash@ =~= seq!['/']);
            match find_in(&rest, &slash) {
                None => Some(rest),
                Some(j) => Some(slice_to(rest.as_slice(), j)),
            }
        },
    }
}

pub(crate) fn parse_u32_chars(f: &Vec<char>) -> (r: Option<u32>)
    ensures
        r == spec_parse_u32(f@),
{
    if f.len() > 0 && f[0] == '+' {
        let body = slice_from(f.as_slice(), 1);
        assert(body@ == f@.drop_first());
        decimal_u32(&body)
    } else {
        decimal_u32(f)
    }
}

fn para_of_exec(id: &Vec<char>) -> (r: Option<u32>)
    ensures
        r == para_of(id@),
{
    proof {
        reveal_strlit("/para:");
    }
    match field_of_exec(id, "/para:") {
        Some(f) => parse_u32_chars(&f),
        None => None,
    }
}

// ---------------------------------------------------------------------------------------
// The unit's edits

/// The replacements among the operations: `(place, from, to)`.
pub open spec fn replacements_in(ops: Seq<Op>) -> Seq<(LocModel, Seq<char>, Seq<char>)>
    decreases ops.len(),
{
    if ops.len() == 0 {
        Seq::empty()
    } else {
        replacements_in(ops.drop_last()) + match ops.last() {
            Op::Replace { at, from, to } => seq![(at@, from@, to@)],
            _ => Seq::empty(),
        }
    }
}

/// The replacements of all the instructions of a unit, in order.
pub open spec fn unit_replacements(ins: Seq<crate::op::Instruction>) -> Seq<(LocModel, Seq<char>, Seq<char>)>
    decreases ins.len(),
{
    if ins.len() == 0 {
        Seq::empty()
    } else {
        unit_replacements(ins.drop_last()) + replacements_in(ins.last().ops@)
    }
}

/// The article whose paragraphs an operation moves: shifting, renumbering, inserting or
/// deleting a paragraph.
pub open spec fn moved_by(op: Op) -> Option<crate::article_num::ArticleNumModel> {
    match op {
        Op::ShiftParagraphs { article, .. } => Some(article@),
        Op::RenumberParagraph { article, .. } => Some(article@),
        Op::InsertParagraphAfter { article, .. } => Some(article@),
        Op::Delete { at } => if at.paragraph is Some { Some(at.article@) } else { None },
        _ => None,
    }
}

/// Some of the first `n` operations moves the paragraphs of article `a`.
pub open spec fn ops_move(ops: Seq<Op>, n: int, a: crate::article_num::ArticleNumModel) -> bool {
    exists|y: int| 0 <= y < n && y < ops.len() && #[trigger] moved_by(ops[y]) == Some(a)
}

/// Some operation of the first `n` instructions moves the paragraphs of article `a`.
pub open spec fn instructions_move(ins: Seq<crate::op::Instruction>, n: int, a: crate::article_num::ArticleNumModel) -> bool {
    exists|x: int| 0 <= x < n && x < ins.len() && #[trigger] ops_move(ins[x].ops@, ins[x].ops@.len() as int, a)
}

/// Some operation of the unit moves the paragraphs of article `a`.
pub open spec fn unit_moves(ins: Seq<crate::op::Instruction>, a: crate::article_num::ArticleNumModel) -> bool {
    instructions_move(ins, ins.len() as int, a)
}

/// `a` is among the articles `v`.
pub open spec fn listed(v: Seq<ArticleNum>, a: crate::article_num::ArticleNumModel) -> bool {
    exists|k: int| 0 <= k < v.len() && #[trigger] v[k]@ == a
}

fn push_replacements(out: &mut Vec<(Loc, String, String)>, ops: &Vec<Op>)
    ensures
        final(out)@.map_values(|t: (Loc, String, String)| (t.0@, t.1@, t.2@))
            == old(out)@.map_values(|t: (Loc, String, String)| (t.0@, t.1@, t.2@)) + replacements_in(ops@),
{
    let ghost o = old(out)@.map_values(|t: (Loc, String, String)| (t.0@, t.1@, t.2@));
    let mut k: usize = 0;
    while k < ops.len()
        invariant
            k <= ops.len(),
            out@.map_values(|t: (Loc, String, String)| (t.0@, t.1@, t.2@)) == o + replacements_in(ops@.take(k as int)),
        decreases ops.len() - k,
    {
        assert(ops@.take(k + 1).drop_last() =~= ops@.take(k as int));
        match &ops[k] {
            Op::Replace { at, from, to } => {
                let ghost before = out@;
                out.push((at.copy(), from.clone(), to.clone()));
                assert(out@.map_values(|t: (Loc, String, String)| (t.0@, t.1@, t.2@)) =~= before.map_values(
                    |t: (Loc, String, String)| (t.0@, t.1@, t.2@),
                ).push((at@, from@, to@)));
            },
            _ => {},
        }
        k = k + 1;
    }
    assert(ops@.take(ops.len() as int) =~= ops@);
}

/// The replacements of the unit's instructions, in order: `(place, from, to)`.
pub fn replacements_of(unit: &AmendUnit) -> (r: Vec<(Loc, String, String)>)
    ensures
        r@.map_values(|t: (Loc, String, String)| (t.0@, t.1@, t.2@)) == unit_replacements(unit.instructions@),
{
    let mut out: Vec<(Loc, String, String)> = Vec::new();
    let mut i: usize = 0;
    assert(out@.map_values(|t: (Loc, String, String)| (t.0@, t.1@, t.2@)) =~= Seq::<(LocModel, Seq<char>, Seq<char>)>::empty());
    while i < unit.instructions.len()
        invariant
            i <= unit.instructions.len(),
            out@.map_values(|t: (Loc, String, String)| (t.0@, t.1@, t.2@)) == unit_replacements(
                unit.instructions@.take(i as int),
            ),
        decreases unit.instructions.len() - i,
    {
        assert(unit.instructions@.take(i + 1).drop_last() =~= unit.instructions@.take(i as int));
        push_replacements(&mut out, &unit.instructions[i].ops);
        i = i + 1;
    }
    assert(unit.instructions@.take(unit.instructions.len() as int) =~= unit.instructions@);
    out
}

/// The articles whose paragraphs the unit moves, each once, in the order they are first
/// named.
pub fn moved_articles(unit: &AmendUnit) -> (r: Vec<ArticleNum>)
    ensures
        forall|a: crate::article_num::ArticleNumModel| #![trigger listed(r@, a)] #![trigger unit_moves(unit.instructions@, a)]
            unit_moves(unit.instructions@, a) <==> listed(r@, a),
        forall|k: int, l: int| 0 <= k < l < r.len() ==> #[trigger] r@[k]@ != #[trigger] r@[l]@,
{
    let ins = &unit.instructions;
    let mut out: Vec<ArticleNum> = Vec::new();
    let mut i: usize = 0;
    while i < ins.len()
        invariant
            i <= ins.len(),
            forall|a: crate::article_num::ArticleNumModel| #![trigger listed(out@, a)] #![trigger instructions_move(ins@, i as int, a)]
                instructions_move(ins@, i as int, a) <==> listed(out@, a),
            forall|k: int, l: int| 0 <= k < l < out.len() ==> #[trigger] out@[k]@ != #[trigger] out@[l]@,
        decreases ins.len() - i,
    {
        let ops = &ins[i].ops;
        let mut j: usize = 0;
        while j < ops.len()
            invariant
                i < ins.len(),
                ops == ins@[i as int].ops,
                j <= ops.len(),
                forall|a: crate::article_num::ArticleNumModel| #![trigger listed(out@, a)]
                    (instructions_move(ins@, i as int, a) || ops_move(ops@, j as int, a)) <==> listed(out@, a),
                forall|k: int, l: int| 0 <= k < l < out.len() ==> #[trigger] out@[k]@ != #[trigger] out@[l]@,
            decreases ops.len() - j,
        {
            let art: Option<&ArticleNum> = match &ops[j] {
                Op::ShiftParagraphs { article, .. } => Some(article),
                Op::RenumberParagraph { article, .. } => Some(article),
                Op::InsertParagraphAfter { article, .. } => Some(article),
                Op::Delete { at } => if at.paragraph.is_some() { Some(&at.article) } else { None },
                _ => None,
            };
            let ghost m = moved_by(ops@[j as int]);
            assert(m == match art { Some(a) => Some(a@), None => None::<crate::article_num::ArticleNumModel> });
            let ghost out0 = out@;
            match art {
                Some(a) => {
                    let mut seen = false;
                    let mut k: usize = 0;
                    while k < out.len()
                        invariant
                            k <= out.len(),
                            out@ == out0,
                            seen == exists|q: int| 0 <= q < k && #[trigger] out@[q]@ == a@,
                        decreases out.len() - k,
                    {
                        if same_num(&out[k], a) {
                            seen = true;
                        }
                        k = k + 1;
                    }
                    if !seen {
                        out.push(a.copy());
                        assert(out@[out.len() - 1]@ == a@);
                        assert forall|k: int, l: int| 0 <= k < l < out.len() implies #[trigger] out@[k]@ != #[trigger] out@[l]@ by {
                            if l == out.len() - 1 {
                                assert(out@[k] == out0[k]);
                            } else {
                                assert(out@[k] == out0[k] && out@[l] == out0[l]);
                            }
                        }
                    }
                    assert(listed(out@, a@));
                },
                None => {},
            }
            assert forall|b: crate::article_num::ArticleNumModel| #![trigger listed(out@, b)]
                (instructions_move(ins@, i as int, b) || ops_move(ops@, j + 1, b)) <==> listed(out@, b) by {
                if ops_move(ops@, j + 1, b) && !ops_move(ops@, j as int, b) {
                    let y = choose|y: int| 0 <= y < j + 1 && y < ops@.len() && #[trigger] moved_by(ops@[y]) == Some(b);
                    assert(y == j);
                }
                if ops_move(ops@, j as int, b) {
                    let y = choose|y: int| 0 <= y < j && y < ops@.len() && #[trigger] moved_by(ops@[y]) == Some(b);
                    assert(ops_move(ops@, j + 1, b));
                }
                if m == Some(b) {
                    assert(ops_move(ops@, j + 1, b));
                }
                if listed(out0, b) {
                    let k = choose|k: int| 0 <= k < out0.len() && #[trigger] out0[k]@ == b;
                    assert(out@[k] == out0[k]);
                }
                if listed(out@, b) && !listed(out0, b) {
                    let k = choose|k: int| 0 <= k < out@.len() && #[trigger] out@[k]@ == b;
                    if k < out0.len() {
                        assert(out@[k] == out0[k]);
                    }
                }
            }
            j = j + 1;
        }
        assert forall|b: crate::article_num::ArticleNumModel| #![trigger listed(out@, b)] #![trigger instructions_move(ins@, i + 1, b)]
            instructions_move(ins@, i + 1, b) <==> listed(out@, b) by {
            if instructions_move(ins@, i + 1, b) && !instructions_move(ins@, i as int, b) {
                let x = choose|x: int| 0 <= x < i + 1 && x < ins@.len() && #[trigger] ops_move(ins@[x].ops@, ins@[x].ops@.len() as int, b);
                assert(x == i);
            }
            if instructions_move(ins@, i as int, b) {
                let x = choose|x: int| 0 <= x < i && x < ins@.len() && #[trigger] ops_move(ins@[x].ops@, ins@[x].ops@.len() as int, b);
                assert(instructions_move(ins@, i + 1, b));
            }
            if ops_move(ops@, ops.len() as int, b) {
                assert(ops_move(ins@[i as int].ops@, ins@[i as int].ops@.len() as int, b));
                assert(instructions_move(ins@, i + 1, b));
            }
        }
        i = i + 1;
    }
    out
}

// ---------------------------------------------------------------------------------------
// Judging one reference

/// The number that the map gives `k` (its first pair with key `k`).
pub open spec fn map_get(m: Seq<(u32, u32)>, k: u32) -> Option<u32>
    decreases m.len(),
{
    if m.len() == 0 {
        None
    } else if m[0].0 == k {
        Some(m[0].1)
    } else {
        map_get(m.drop_first(), k)
    }
}

/// Some paragraph changes its number.
pub open spec fn any_changed(m: Seq<(u32, u32)>) -> bool {
    exists|i: int| 0 <= i < m.len() && #[trigger] m[i].0 != m[i].1
}

/// A replacement stands at the article `src_art` and at the paragraph `sp` (or names no
/// paragraph).
pub open spec fn at_here(l: LocModel, src_art: Seq<char>, sp: Option<u32>) -> bool {
    spec_num_string(l.article) == src_art && match l.paragraph {
        Some(n) => sp == Some(n),
        None => true,
    }
}

/// What the replacements there make of the wording `text` itself, in order.
pub open spec fn found_tos(rep: Seq<(LocModel, Seq<char>, Seq<char>)>, src_art: Seq<char>, sp: Option<u32>, text: Seq<char>) -> Seq<Seq<char>>
    decreases rep.len(),
{
    if rep.len() == 0 {
        Seq::empty()
    } else {
        let (l, f, t) = rep.last();
        found_tos(rep.drop_last(), src_art, sp, text) + if at_here(l, src_art, sp) && f == text {
            seq![t]
        } else {
            Seq::empty()
        }
    }
}

/// A replacement there rewrites wording that holds the reference.
pub open spec fn rewrites_around(rep: Seq<(LocModel, Seq<char>, Seq<char>)>, src_art: Seq<char>, sp: Option<u32>, text: Seq<char>) -> bool {
    exists|k: int| 0 <= k < rep.len() && #[trigger] at_here(rep[k].0, src_art, sp) && rep[k].1 != text && holds(rep[k].1, text)
}

/// One of the replacements found points the reference at the right paragraph.
pub open spec fn any_fixes(found: Seq<Seq<char>>, new_tp: Option<u32>, new_sp: Option<u32>) -> bool {
    exists|k: int| 0 <= k < found.len() && #[trigger] spec_fixes_to(found[k], opt_nat(new_tp), opt_nat(new_sp))
}

/// The form of a reference that is judged (`同項` and the like are not).
pub open spec fn form_of(f: Option<RefForm>) -> RefForm {
    match f {
        Some(x) => x,
        None => RefForm::Absolute,
    }
}

/// `前N項` and `次項`.
pub open spec fn is_relative(f: Option<RefForm>) -> bool {
    f matches Some(RefForm::Prev(_)) || f matches Some(RefForm::Next)
}

/// The candidate for the reference `r`, its target `t` and the article `art` whose
/// paragraphs move by the map `map` (old number to new), or `None` when the target is not
/// in that article, is no paragraph, or keeps what the reference means: an absolute
/// reference its number, a relative one (from the same article) its distance.
pub open spec fn cand_for(
    rep: Seq<(LocModel, Seq<char>, Seq<char>)>,
    art: Seq<char>,
    map: Seq<(u32, u32)>,
    r: RefModel,
    t: Seq<char>,
) -> Option<CandModel> {
    let seg = art_seg(art);
    if !holds(t, seg) {
        None
    } else {
        match para_of(t) {
            None => None,
            Some(tp) => {
                let new_tp = map_get(map, tp);
                let sp_here: Option<u32> = if holds(r.sentence, seg) { para_of(r.sentence) } else { None };
                let relative = is_relative(r.form);
                if relative && sp_here is None {
                    None
                } else {
                    let affected = if relative {
                        match (map_get(map, sp_here.unwrap()), new_tp) {
                            (Some(ns), Some(nt)) => ns - nt != sp_here.unwrap() - tp,
                            _ => true,
                        }
                    } else {
                        new_tp != Some(tp)
                    };
                    if !affected {
                        None
                    } else {
                        let sp = para_of(r.sentence);
                        let new_sp = match sp_here {
                            Some(s) => map_get(map, s),
                            None => None,
                        };
                        let src_art = match field_of(r.sentence, "/art:"@) {
                            Some(a) => a,
                            None => Seq::empty(),
                        };
                        let found = found_tos(rep, src_art, sp, r.text);
                        let handled = rewrites_around(rep, src_art, sp, r.text) || any_fixes(found, new_tp, new_sp);
                        let fix = match new_tp {
                            Some(nt) => Some(spec_render_fix(r.text, form_of(r.form), tp as nat, nt as nat, opt_nat(new_sp))),
                            None => None,
                        };
                        let fix_op = match (fix, sp) {
                            (Some(f), Some(p)) => Some(
                                (
                                    LocModel {
                                        article: spec_parse(src_art),
                                        paragraph: Some(p),
                                        item: field_of(r.sentence, "/item:"@),
                                        part: None,
                                        suppl: false,
                                        sub: None,
                                    },
                                    r.text,
                                    f,
                                ),
                            ),
                            _ => None,
                        };
                        Some(
                            CandModel {
                                sentence: r.sentence,
                                text: r.text,
                                target: t,
                                new_tp,
                                fix,
                                fix_op,
                                handled,
                                found_to: if found.len() > 0 { Some(found[0]) } else { None },
                            },
                        )
                    }
                }
            },
        }
    }
}

fn map_get_exec(m: &Vec<(u32, u32)>, k: u32) -> (r: Option<u32>)
    ensures
        r == map_get(m@, k),
{
    let mut i: usize = 0;
    assert(m@.skip(0) =~= m@);
    while i < m.len()
        invariant
            i <= m.len(),
            map_get(m@, k) == map_get(m@.skip(i as int), k),
        decreases m.len() - i,
    {
        assert(m@.skip(i as int).drop_first() =~= m@.skip(i + 1));
        if m[i].0 == k {
            return Some(m[i].1);
        }
        i = i + 1;
    }
    None
}

fn holds_exec(t: &Vec<char>, p: &Vec<char>) -> (r: bool)
    ensures
        r == holds(t@, p@),
{
    find_in(t, p).is_some()
}

fn at_here_exec(l: &Loc, src_art: &Vec<char>, sp: Option<u32>) -> (r: bool)
    ensures
        r == at_here(l@, src_art@, sp),
{
    let a = l.article.to_num_string();
    let ac = chars_of(a.as_str());
    if !crate::hane::chars_eq(&ac, src_art) {
        return false;
    }
    match &l.paragraph {
        Some(ParaRef::Num(n)) => sp == Some(*n),
        None => true,
    }
}

/// The replacements found for the wording, whether one rewrites around it, and whether
/// one of the found ones fixes it.
fn judge_replacements(
    rep: &Vec<(Loc, String, String)>,
    src_art: &Vec<char>,
    sp: Option<u32>,
    text: &Vec<char>,
    new_tp: Option<u32>,
    new_sp: Option<u32>,
) -> (r: (Option<String>, bool))
    ensures
        ({
            let rv = rep@.map_values(|t: (Loc, String, String)| (t.0@, t.1@, t.2@));
            let found = found_tos(rv, src_art@, sp, text@);
            &&& r.0 matches Some(f) ==> found.len() > 0 && f@ == found[0]
            &&& r.0 is None ==> found.len() == 0
            &&& r.1 == (rewrites_around(rv, src_art@, sp, text@) || any_fixes(found, new_tp, new_sp))
        }),
{
    let ghost rv = rep@.map_values(|t: (Loc, String, String)| (t.0@, t.1@, t.2@));
    let mut first: Option<String> = None;
    let mut rewritten = false;
    let mut fixes = false;
    let mut i: usize = 0;
    while i < rep.len()
        invariant
            i <= rep.len(),
            rv == rep@.map_values(|t: (Loc, String, String)| (t.0@, t.1@, t.2@)),
            first matches Some(f) ==> found_tos(rv.take(i as int), src_art@, sp, text@).len() > 0
                && f@ == found_tos(rv.take(i as int), src_art@, sp, text@)[0],
            first is None ==> found_tos(rv.take(i as int), src_art@, sp, text@).len() == 0,
            rewritten == rewrites_around(rv.take(i as int), src_art@, sp, text@),
            fixes == any_fixes(found_tos(rv.take(i as int), src_art@, sp, text@), new_tp, new_sp),
        decreases rep.len() - i,
    {
        let ghost p = rv.take(i as int);
        let ghost q = rv.take(i + 1);
        assert(q.drop_last() =~= p);
        assert(q.last() == rv[i as int]);
        let ghost fp = found_tos(p, src_art@, sp, text@);
        let ghost fq = found_tos(q, src_art@, sp, text@);
        let here = at_here_exec(&rep[i].0, src_art, sp);
        let from = chars_of(rep[i].1.as_str());
        let same = crate::hane::chars_eq(&from, text);
        if here && same {
            assert(fq == fp.push(rep@[i as int].2@));
            if first.is_none() {
                first = Some(rep[i].2.clone());
            } else {
                assert(fq[0] == fp[0]);
            }
            let ok = fixes_to(rep[i].2.as_str(), new_tp, new_sp);
            proof {
                if fixes || ok {
                    if fixes {
                        let k = choose|k: int| 0 <= k < fp.len() && #[trigger] spec_fixes_to(fp[k], opt_nat(new_tp), opt_nat(new_sp));
                        assert(fq[k] == fp[k]);
                    } else {
                        assert(fq[fp.len() as int] == rep@[i as int].2@);
                    }
                    assert(any_fixes(fq, new_tp, new_sp));
                }
                if any_fixes(fq, new_tp, new_sp) {
                    let k = choose|k: int| 0 <= k < fq.len() && #[trigger] spec_fixes_to(fq[k], opt_nat(new_tp), opt_nat(new_sp));
                    if k < fp.len() {
                        assert(fq[k] == fp[k]);
                    }
                }
            }
            fixes = fixes || ok;
        } else {
            assert(fq == fp);
        }
        let around = here && !same && holds_exec(&from, text);
        proof {
            if rewritten || around {
                if rewritten {
                    let k = choose|k: int| 0 <= k < p.len() && #[trigger] at_here(p[k].0, src_art@, sp) && p[k].1 != text@ && holds(p[k].1, text@);
                    assert(q[k] == p[k]);
                } else {
                    assert(q[i as int] == rv[i as int]);
                }
                assert(rewrites_around(q, src_art@, sp, text@));
            }
            if rewrites_around(q, src_art@, sp, text@) {
                let k = choose|k: int| 0 <= k < q.len() && #[trigger] at_here(q[k].0, src_art@, sp) && q[k].1 != text@ && holds(q[k].1, text@);
                if k < p.len() {
                    assert(q[k] == p[k]);
                }
            }
        }
        rewritten = rewritten || around;
        i = i + 1;
    }
    assert(rv.take(rep.len() as int) =~= rv);
    (first, rewritten || fixes)
}

fn form_exec(f: &Option<RefForm>) -> (r: RefForm)
    ensures
        r == form_of(*f),
{
    match f {
        Some(RefForm::Absolute) => RefForm::Absolute,
        Some(RefForm::AbsoluteArt) => RefForm::AbsoluteArt,
        Some(RefForm::Prev(k)) => RefForm::Prev(*k),
        Some(RefForm::Next) => RefForm::Next,
        None => RefForm::Absolute,
    }
}

/// The candidate for one reference, target and moving article (see [`cand_for`]).
fn cand_exec(
    rep: &Vec<(Loc, String, String)>,
    art: &String,
    map: &Vec<(u32, u32)>,
    r: &ResolvedRef,
    t: &String,
) -> (c: Option<HaneCandidate>)
    ensures
        match c {
            Some(x) => cand_for(rep@.map_values(|q: (Loc, String, String)| (q.0@, q.1@, q.2@)), art@, map@, ref_view(*r), t@)
                == Some(cand_view(x)),
            None => cand_for(rep@.map_values(|q: (Loc, String, String)| (q.0@, q.1@, q.2@)), art@, map@, ref_view(*r), t@) is None,
        },
{
    let ghost rv = rep@.map_values(|q: (Loc, String, String)| (q.0@, q.1@, q.2@));
    let mut seg = chars_of("/art:");
    let ac = chars_of(art.as_str());
    let mut k: usize = 0;
    let ghost s0 = seg@;
    while k < ac.len()
        invariant
            k <= ac.len(),
            seg@ == s0 + ac@.take(k as int),
        decreases ac.len() - k,
    {
        seg.push(ac[k]);
        assert(ac@.take(k + 1) == ac@.take(k as int).push(ac@[k as int]));
        k = k + 1;
    }
    seg.push('/');
    assert(ac@.take(ac.len() as int) == ac@);
    assert(seg@ == art_seg(art@));
    let tc = chars_of(t.as_str());
    if !holds_exec(&tc, &seg) {
        return None;
    }
    let tp = match para_of_exec(&tc) {
        Some(x) => x,
        None => {
            return None;
        },
    };
    let new_tp = map_get_exec(map, tp);
    let sc = chars_of(r.sentence.as_str());
    let in_art = holds_exec(&sc, &seg);
    let sp_here: Option<u32> = if in_art { para_of_exec(&sc) } else { None };
    let relative = match &r.form {
        Some(RefForm::Prev(_)) => true,
        Some(RefForm::Next) => true,
        _ => false,
    };
    assert(relative == is_relative(r.form));
    if relative && sp_here.is_none() {
        return None;
    }
    let affected = if relative {
        let s = sp_here.unwrap();
        match (map_get_exec(map, s), new_tp) {
            (Some(ns), Some(nt)) => (ns as i64 - nt as i64) != (s as i64 - tp as i64),
            _ => true,
        }
    } else {
        new_tp != Some(tp)
    };
    if !affected {
        return None;
    }
    let sp = para_of_exec(&sc);
    let new_sp = match sp_here {
        Some(s) => map_get_exec(map, s),
        None => None,
    };
    let src_art: Vec<char> = match field_of_exec(&sc, "/art:") {
        Some(a) => a,
        None => Vec::new(),
    };
    assert(src_art@ == match field_of(r.sentence@, "/art:"@) { Some(a) => a, None => Seq::<char>::empty() });
    let text = chars_of(r.text.as_str());
    let (found_to, handled) = judge_replacements(rep, &src_art, sp, &text, new_tp, new_sp);
    let form = form_exec(&r.form);
    let fix: Option<String> = match new_tp {
        Some(nt) => Some(render_fix(r.text.as_str(), &form, tp, nt, new_sp)),
        None => None,
    };
    let fix_op: Option<Op> = match (&fix, sp) {
        (Some(f), Some(p)) => {
            let sa = string_of(src_art.as_slice());
            let item = match field_of_exec(&sc, "/item:") {
                Some(x) => Some(string_of(x.as_slice())),
                None => None,
            };
            let mut at = Loc::new(ArticleNum::parse(sa.as_str()), Some(ParaRef::Num(p)));
            at.item = item;
            Some(Op::Replace { at, from: r.text.clone(), to: f.clone() })
        },
        _ => None,
    };
    let c = HaneCandidate {
        sentence: r.sentence.clone(),
        text: r.text.clone(),
        target: t.clone(),
        new_target_paragraph: new_tp,
        fix,
        fix_op,
        handled,
        found_to,
    };
    assert(cand_view(c).fix_op == cand_for(rv, art@, map@, ref_view(*r), t@).unwrap().fix_op);
    Some(c)
}

// ---------------------------------------------------------------------------------------
// All references

/// The candidates of a reference and target over the moving articles, in their order.
pub open spec fn cands_maps(
    rep: Seq<(LocModel, Seq<char>, Seq<char>)>,
    maps: Seq<(Seq<char>, Seq<(u32, u32)>)>,
    r: RefModel,
    t: Seq<char>,
) -> Seq<CandModel>
    decreases maps.len(),
{
    if maps.len() == 0 {
        Seq::empty()
    } else {
        cands_maps(rep, maps.drop_last(), r, t) + match cand_for(rep, maps.last().0, maps.last().1, r, t) {
            Some(c) => seq![c],
            None => Seq::empty(),
        }
    }
}

/// The candidates of a reference over its targets.
pub open spec fn cands_targets(
    rep: Seq<(LocModel, Seq<char>, Seq<char>)>,
    maps: Seq<(Seq<char>, Seq<(u32, u32)>)>,
    r: RefModel,
    ts: Seq<Seq<char>>,
) -> Seq<CandModel>
    decreases ts.len(),
{
    if ts.len() == 0 {
        Seq::empty()
    } else {
        cands_targets(rep, maps, r, ts.drop_last()) + cands_maps(rep, maps, r, ts.last())
    }
}

/// The candidates of all the references, in order; `同項`, `同条` and `前各項` are passed
/// over.
pub open spec fn cands_refs(
    rep: Seq<(LocModel, Seq<char>, Seq<char>)>,
    maps: Seq<(Seq<char>, Seq<(u32, u32)>)>,
    refs: Seq<RefModel>,
) -> Seq<CandModel>
    decreases refs.len(),
{
    if refs.len() == 0 {
        Seq::empty()
    } else {
        cands_refs(rep, maps, refs.drop_last()) + if refs.last().form is None {
            Seq::empty()
        } else {
            cands_targets(rep, maps, refs.last(), refs.last().targets)
        }
    }
}

/// A sequence with each run of equal neighbours kept once.
pub open spec fn dedup_seq<A>(s: Seq<A>) -> Seq<A>
    decreases s.len(),
{
    if s.len() <= 1 {
        s
    } else if s.last() == s[s.len() - 2] {
        dedup_seq(s.drop_last())
    } else {
        dedup_seq(s.drop_last()).push(s.last())
    }
}

proof fn lemma_dedup_last<A>(s: Seq<A>)
    requires
        s.len() > 0,
    ensures
        dedup_seq(s).len() > 0,
        dedup_seq(s).last() == s.last(),
    decreases s.len(),
{
    if s.len() > 1 {
        lemma_dedup_last(s.drop_last());
    }
}

/// The articles that move, with their maps from old to new paragraph numbers.
pub open spec fn maps_view(m: Seq<(String, Vec<(u32, u32)>)>) -> Seq<(Seq<char>, Seq<(u32, u32)>)> {
    m.map_values(|e: (String, Vec<(u32, u32)>)| (e.0@, e.1@))
}

pub open spec fn refs_view(v: Seq<ResolvedRef>) -> Seq<RefModel> {
    v.map_values(|r: ResolvedRef| ref_view(r))
}

/// The maps in which some paragraph changes its number.
pub open spec fn active_maps(maps: Seq<(Seq<char>, Seq<(u32, u32)>)>) -> Seq<(Seq<char>, Seq<(u32, u32)>)> {
    maps.filter(|m: (Seq<char>, Seq<(u32, u32)>)| any_changed(m.1))
}

/// The references that an amendment moves (see [`cand_for`]): for each reference, each
/// of its targets and each article whose paragraph numbers change, in that order; equal
/// neighbours once.
pub open spec fn spec_hane_candidates(
    rep: Seq<(LocModel, Seq<char>, Seq<char>)>,
    maps: Seq<(Seq<char>, Seq<(u32, u32)>)>,
    refs: Seq<RefModel>,
) -> Seq<CandModel> {
    dedup_seq(cands_refs(rep, active_maps(maps), refs))
}

/// The maps are those of a sorted map: keys ascending, and the old numbers of each
/// ascending.
pub open spec fn maps_sorted(m: Seq<(String, Vec<(u32, u32)>)>) -> bool {
    &&& forall|i: int, j: int| 0 <= i < j < m.len() ==> crate::compare::key_before(#[trigger] m[i].0@, #[trigger] m[j].0@)
    &&& forall|i: int, k: int, l: int| 0 <= i < m.len() && 0 <= k < l < m[i].1.len() ==> #[trigger] m[i].1@[k].0 < #[trigger] m[i].1@[l].0
}

fn opt_str_eq(a: &Option<String>, b: &Option<String>) -> (r: bool)
    ensures
        r == (opt_chars(*a) == opt_chars(*b)),
{
    match (a, b) {
        (Some(x), Some(y)) => str_eq(x.as_str(), y.as_str()),
        (None, None) => true,
        _ => false,
    }
}

fn part_eq(a: &Option<SentencePart>, b: &Option<SentencePart>) -> (r: bool)
    ensures
        r == (*a == *b),
{
    match (a, b) {
        (None, None) => true,
        (Some(SentencePart::Front), Some(SentencePart::Front)) => true,
        (Some(SentencePart::Back), Some(SentencePart::Back)) => true,
        (Some(SentencePart::Proviso), Some(SentencePart::Proviso)) => true,
        (Some(SentencePart::Main), Some(SentencePart::Main)) => true,
        (Some(SentencePart::Chapeau), Some(SentencePart::Chapeau)) => true,
        _ => false,
    }
}

fn loc_eq(a: &Loc, b: &Loc) -> (r: bool)
    ensures
        r == (a@ == b@),
{
    let pe = match (&a.paragraph, &b.paragraph) {
        (Some(ParaRef::Num(x)), Some(ParaRef::Num(y))) => *x == *y,
        (None, None) => true,
        _ => false,
    };
    same_num(&a.article, &b.article) && pe && opt_str_eq(&a.item, &b.item) && part_eq(&a.part, &b.part)
        && a.suppl == b.suppl && opt_str_eq(&a.sub, &b.sub)
}

fn replace_eq(a: &Option<Op>, b: &Option<Op>) -> (r: bool)
    ensures
        r == (replace_view(*a) == replace_view(*b)),
{
    let x = match a {
        Some(Op::Replace { at, from, to }) => Some((at, from, to)),
        _ => None,
    };
    let y = match b {
        Some(Op::Replace { at, from, to }) => Some((at, from, to)),
        _ => None,
    };
    match (x, y) {
        (Some((l1, f1, t1)), Some((l2, f2, t2))) => loc_eq(l1, l2) && str_eq(f1.as_str(), f2.as_str())
            && str_eq(t1.as_str(), t2.as_str()),
        (None, None) => true,
        _ => false,
    }
}

fn same_cand(a: &HaneCandidate, b: &HaneCandidate) -> (r: bool)
    ensures
        r == (cand_view(*a) == cand_view(*b)),
{
    str_eq(a.sentence.as_str(), b.sentence.as_str()) && str_eq(a.text.as_str(), b.text.as_str()) && str_eq(
        a.target.as_str(),
        b.target.as_str(),
    ) && a.new_target_paragraph == b.new_target_paragraph && opt_str_eq(&a.fix, &b.fix) && replace_eq(
        &a.fix_op,
        &b.fix_op,
    ) && a.handled == b.handled && opt_str_eq(&a.found_to, &b.found_to)
}

fn push_dedup(out: &mut Vec<HaneCandidate>, c: HaneCandidate, Ghost(raw): Ghost<Seq<CandModel>>)
    requires
        cands_view(old(out)@) == dedup_seq(raw),
    ensures
        cands_view(final(out)@) == dedup_seq(raw.push(cand_view(c))),
{
    let ghost r2 = raw.push(cand_view(c));
    assert(r2.drop_last() =~= raw);
    proof {
        if raw.len() > 0 {
            lemma_dedup_last(raw);
        }
    }
    if out.len() > 0 && same_cand(&out[out.len() - 1], &c) {
        assert(cand_view(out@[out.len() - 1]) == cands_view(out@).last());
    } else {
        let ghost o = out@;
        out.push(c);
        assert(cands_view(out@) =~= cands_view(o).push(cand_view(c)));
        proof {
            if raw.len() == 0 {
                assert(r2 =~= seq![cand_view(c)]);
            } else {
                assert(cand_view(o[o.len() - 1]) == cands_view(o).last());
            }
        }
    }
}

fn any_changed_exec(m: &Vec<(u32, u32)>) -> (r: bool)
    ensures
        r == any_changed(m@),
{
    let mut i: usize = 0;
    while i < m.len()
        invariant
            i <= m.len(),
            forall|k: int| 0 <= k < i ==> !(#[trigger] m@[k].0 != m@[k].1),
        decreases m.len() - i,
    {
        if m[i].0 != m[i].1 {
            return true;
        }
        i = i + 1;
    }
    false
}

/// The references that the unit moves: each reference resolved before the amendment
/// (`refs`, in the order of the sentences), whose target paragraph in an article of
/// `mappings` (the articles whose paragraphs the unit moves, with their old and new
/// paragraph numbers, sorted by key) gets another number, or whose distance changes; with
/// the generated fix and whether the unit's replacements already make it (see
/// [`spec_hane_candidates`]).
pub fn hane_candidates(
    unit: &AmendUnit,
    mappings: &[(String, Vec<(u32, u32)>)],
    refs: &[ResolvedRef],
) -> (r: Vec<HaneCandidate>)
    requires
        maps_sorted(mappings@),
    ensures
        cands_view(r@) == spec_hane_candidates(
            unit_replacements(unit.instructions@),
            maps_view(mappings@),
            refs_view(refs@),
        ),
{
    let rep = replacements_of(unit);
    let ghost rv = rep@.map_values(|q: (Loc, String, String)| (q.0@, q.1@, q.2@));
    let ghost mv = maps_view(mappings@);
    // The articles whose numbers change, by index.
    let mut act: Vec<usize> = Vec::new();
    let mut m: usize = 0;
    while m < mappings.len()
        invariant
            m <= mappings.len(),
            mv == maps_view(mappings@),
            forall|k: int| 0 <= k < act.len() ==> #[trigger] act@[k] < mappings.len(),
            act@.map_values(|x: usize| mv[x as int]) == active_maps(mv.take(m as int)),
        decreases mappings.len() - m,
    {
        assert(mv.take(m + 1).drop_last() =~= mv.take(m as int));
        reveal(Seq::filter);
        let ghost a0 = act@;
        if any_changed_exec(&mappings[m].1) {
            act.push(m);
            assert(act@.map_values(|x: usize| mv[x as int]) =~= a0.map_values(|x: usize| mv[x as int]).push(mv[m as int]));
        }
        m = m + 1;
    }
    assert(mv.take(mappings.len() as int) =~= mv);
    let ghost av = act@.map_values(|x: usize| mv[x as int]);
    let ghost fv = refs_view(refs@);
    let mut out: Vec<HaneCandidate> = Vec::new();
    let ghost mut raw: Seq<CandModel> = Seq::empty();
    let mut i: usize = 0;
    while i < refs.len()
        invariant
            i <= refs.len(),
            rv == rep@.map_values(|q: (Loc, String, String)| (q.0@, q.1@, q.2@)),
            rv == unit_replacements(unit.instructions@),
            mv == maps_view(mappings@),
            av == act@.map_values(|x: usize| mv[x as int]),
            av == active_maps(mv),
            forall|k: int| 0 <= k < act.len() ==> #[trigger] act@[k] < mappings.len(),
            fv == refs_view(refs@),
            raw == cands_refs(rv, av, fv.take(i as int)),
            cands_view(out@) == dedup_seq(raw),
        decreases refs.len() - i,
    {
        assert(fv.take(i + 1).drop_last() =~= fv.take(i as int));
        assert(fv.take(i + 1).last() == ref_view(refs@[i as int]));
        let r = &refs[i];
        if r.form.is_some() {
            let ghost base = raw;
            let mut j: usize = 0;
            let ghost ts = ref_view(*r).targets;
            while j < r.targets.len()
                invariant
                    i < refs.len(),
                    r == refs@[i as int],
                    j <= r.targets.len(),
                    ts == ref_view(*r).targets,
                    rv == rep@.map_values(|q: (Loc, String, String)| (q.0@, q.1@, q.2@)),
                    mv == maps_view(mappings@),
                    av == act@.map_values(|x: usize| mv[x as int]),
                    forall|k: int| 0 <= k < act.len() ==> #[trigger] act@[k] < mappings.len(),
                    raw == base + cands_targets(rv, av, ref_view(*r), ts.take(j as int)),
                    cands_view(out@) == dedup_seq(raw),
                decreases r.targets.len() - j,
            {
                assert(ts.take(j + 1).drop_last() =~= ts.take(j as int));
                assert(ts.take(j + 1).last() == r.targets@[j as int]@);
                let base2 = Ghost(raw);
                let t = &r.targets[j];
                let mut k: usize = 0;
                while k < act.len()
                    invariant
                        i < refs.len(),
                        r == refs@[i as int],
                        j < r.targets.len(),
                        t == r.targets@[j as int],
                        k <= act.len(),
                        rv == rep@.map_values(|q: (Loc, String, String)| (q.0@, q.1@, q.2@)),
                        mv == maps_view(mappings@),
                        av == act@.map_values(|x: usize| mv[x as int]),
                        forall|q: int| 0 <= q < act.len() ==> #[trigger] act@[q] < mappings.len(),
                        raw == base2@ + cands_maps(rv, av.take(k as int), ref_view(*r), t@),
                        cands_view(out@) == dedup_seq(raw),
                    decreases act.len() - k,
                {
                    assert(av.take(k + 1).drop_last() =~= av.take(k as int));
                    let x = act[k];
                    assert(av.take(k + 1).last() == mv[x as int]);
                    let c = cand_exec(&rep, &mappings[x].0, &mappings[x].1, r, t);
                    match c {
                        Some(cv) => {
                            let ghost old_raw = raw;
                            push_dedup(&mut out, cv, Ghost(raw));
                            proof {
                                raw = raw.push(cand_view(cv));
                                assert(raw =~= base2@ + cands_maps(rv, av.take(k + 1), ref_view(*r), t@));
                            }
                        },
                        None => {
                            assert(raw =~= base2@ + cands_maps(rv, av.take(k + 1), ref_view(*r), t@));
                        },
                    }
                    k = k + 1;
                }
                assert(av.take(act.len() as int) =~= av);
                proof {
                    assert(raw =~= base + cands_targets(rv, av, ref_view(*r), ts.take(j + 1)));
                }
                j = j + 1;
            }
            assert(ts.take(r.targets.len() as int) =~= ts);
            assert(raw =~= cands_refs(rv, av, fv.take(i + 1)));
        } else {
            assert(raw =~= cands_refs(rv, av, fv.take(i + 1)));
        }
        i = i + 1;
    }
    assert(fv.take(refs.len() as int) =~= fv);
    out
}

} // verus!


