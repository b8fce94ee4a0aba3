//! Reading a phrase instruction (`第七条第二項中「A」を「B」に改め`, `別表第二X法の項中「A」を削り`,
//! `目次中「A」の下に「B」を加え`, `題名及び第一条中「A」を「B」に改める`) into operations on
//! phrases, after the places read before it.

use vstd::prelude::*;
use crate::article_num::ArticleNumModel;
use crate::locs::{
    AnteModel, PlaceError, first_at, kind_of, list_items, list_items_from, sep_len,
    spec_container_path, spec_expand_locs, spec_loc, zero_article,
};
use crate::article_num::ArticleNum;
use crate::locs::{Ante, error_is, expand_locs, loc};
use crate::op::{
    CaptionEdit, ContainerKind, Loc, LocModel, Op, TableAction, TableRef, TableRefModel, copy_path,
    copy_text, opt_text, path_view, spec_in_suppl,
};
use crate::parse::{ParseError, take_quoted};
use crate::phrase::{
    TailText, ante_loc, opt_ops_view, phrase_ops_view, phrase_tail, pairs_view, read_tail,
    texts_view,
};
use crate::text::{chars_end_with, chars_of, push_str, str_eq, string_of};
use crate::parse::spec_take_quoted;
use crate::phrase::{
    PhraseOpModel, PhraseRead, Tail, add_end, phrase_list, replace_end, seg_parts, spec_ante_loc,
    spec_phrase_tail, spec_tail, tail_to,
};
use crate::phrase_forms::{
    appdx_row, appdx_row_exec, appdx_same, appdx_same_exec, cont_form, cont_form_exec, toc_divisions,
    toc_divisions_exec, trow, trow_exec, trow_one, trow_one_exec, tables_search, table_opts,
};
use crate::rewrite::{replace_from, spec_replace};
use crate::table::{
    has_article_table, has_article_table_exec, split_table_target, spec_split_table_target,
    target_view, trim_start_all,
};
use crate::text::{ends_with, starts_with};

verus! {

// ---------------------------------------------------------------------------------------
// Where the operations on phrases go

/// Where the operations made of the phrases go.
pub enum Target {
    /// A row (and sub-item) of an appended table.
    AppdxRow { table: Seq<char>, row: Seq<char>, sub: Option<Seq<char>> },
    /// The note of an article.
    Note(ArticleNumModel),
    /// A position in a table.
    Table(TableRefModel, Seq<char>),
    /// An amending provision of an article.
    Amend(ArticleNumModel, Seq<char>),
    /// The whole main provisions.
    All,
    /// The title.
    Title,
    /// The table of contents.
    Toc,
    /// A division, places left out.
    InContainer(Seq<(ContainerKind, Seq<char>)>, Seq<LocModel>),
    /// A row of the table of a place.
    TableRow(LocModel, Seq<char>),
    /// The title of a division.
    ContainerTitle(Seq<(ContainerKind, Seq<char>)>),
    /// The caption of the article or paragraph of a place.
    Caption(LocModel),
}

/// The caption operation at the place `l`: of the paragraph when one is named, else of
/// the article; on the original supplementary provisions when the place is there.
pub open spec fn caption_model(l: LocModel, from: Seq<char>, to: Seq<char>) -> PhraseOpModel {
    if l.suppl {
        PhraseOpModel::InSuppl(
            Box::new(
                if l.paragraph is Some {
                    PhraseOpModel::ParaCaption { at: LocModel { suppl: false, ..l }, from, to }
                } else {
                    PhraseOpModel::Caption { article: l.article, from, to }
                },
            ),
        )
    } else if l.paragraph is Some {
        PhraseOpModel::ParaCaption { at: l, from, to }
    } else {
        PhraseOpModel::Caption { article: l.article, from, to }
    }
}

/// The operation that makes the phrase `from` into `to` at the target `t`.
pub open spec fn target_op(t: Target, from: Seq<char>, to: Seq<char>) -> PhraseOpModel {
    match t {
        Target::AppdxRow { table, row, sub } => PhraseOpModel::AppdxRow { table, row, sub, from, to },
        Target::Note(article) => PhraseOpModel::Note { article, from, to },
        Target::Table(table, path) => PhraseOpModel::Table { table, path, from, to },
        Target::Amend(article, target) => PhraseOpModel::InAmendment { article, target, from, to },
        Target::All => PhraseOpModel::All { from, to },
        Target::Title => PhraseOpModel::Title { from, to },
        Target::Toc => PhraseOpModel::Toc { from, to },
        Target::InContainer(path, except) => PhraseOpModel::InContainer { path, except, from, to },
        Target::TableRow(at, row) => PhraseOpModel::TableRow { at, row, from, to },
        Target::ContainerTitle(path) => PhraseOpModel::ContainerTitle { path, from, to },
        Target::Caption(l) => caption_model(l, from, to),
    }
}

/// The operations at the target `t` that the tail `rest` makes of the phrases (see
/// [`spec_phrase_tail`]).
pub open spec fn tail_ops(t: Target, rest: Seq<char>, ps: Seq<Seq<char>>) -> Option<Seq<PhraseOpModel>> {
    match spec_phrase_tail(rest, ps) {
        Some(pairs) => Some(
            pairs.map_values(|p: (Seq<char>, Seq<char>)| target_op(t, p.0, p.1)),
        ),
        None => None,
    }
}

/// The same, when the tail `の上に「B」を加え` is not read.
pub open spec fn tail_ops_below(t: Target, rest: Seq<char>, ps: Seq<Seq<char>>) -> Option<
    Seq<PhraseOpModel>,
> {
    match spec_tail(rest) {
        Some(Tail::Above(_)) => None,
        _ => tail_ops(t, rest, ps),
    }
}

/// The operations at each target in turn; `None` when the tail is not read.
pub open spec fn multi_ops(ts: Seq<Target>, rest: Seq<char>, ps: Seq<Seq<char>>) -> Option<
    Seq<PhraseOpModel>,
>
    decreases ts.len(),
{
    if ts.len() == 0 {
        Some(Seq::empty())
    } else {
        match (multi_ops(ts.drop_last(), rest, ps), tail_ops(ts.last(), rest, ps)) {
            (Some(v), Some(w)) => Some(v + w),
            _ => None,
        }
    }
}

// ---------------------------------------------------------------------------------------
// Text

/// `p` occurs in `s`.
pub open spec fn occurs(s: Seq<char>, p: Seq<char>) -> bool {
    first_at(s, p, 0) < s.len()
}

/// `s` without all the copies of `p` it starts with.
pub open spec fn trim_prefix_all(s: Seq<char>, p: Seq<char>) -> Seq<char>
    decreases s.len(),
{
    if p.len() > 0 && starts_with(s, p) {
        trim_prefix_all(s.skip(p.len() as int), p)
    } else {
        s
    }
}

/// The texts joined by `及び`.
pub open spec fn join_and(v: Seq<Seq<char>>) -> Seq<char>
    decreases v.len(),
{
    if v.len() == 0 {
        Seq::empty()
    } else if v.len() == 1 {
        v[0]
    } else {
        join_and(v.drop_last()) + "及び"@ + v.last()
    }
}

/// The weight of a text: its length, a `、` counting twice. A phrase instruction read
/// again after its place is shortened weighs less.
pub open spec fn weight(s: Seq<char>) -> int
    decreases s.len(),
{
    if s.len() == 0 {
        0
    } else {
        weight(s.drop_last()) + if s.last() == '、' {
            2int
        } else {
            1int
        }
    }
}


/// One character weighs one, a `、` two.
pub proof fn lemma_weight_one(ch: char)
    ensures
        weight(seq![ch]) == if ch == '、' { 2int } else { 1int },
{
    assert(seq![ch].drop_last() =~= Seq::<char>::empty());
    assert(weight(Seq::<char>::empty()) == 0);
}

/// The weight of a text joined from two is the sum of their weights.
pub proof fn lemma_weight_concat(a: Seq<char>, b: Seq<char>)
    ensures
        weight(a + b) == weight(a) + weight(b),
    decreases b.len(),
{
    if b.len() == 0 {
        assert(a + b =~= a);
    } else {
        lemma_weight_concat(a, b.drop_last());
        assert((a + b).drop_last() =~= a + b.drop_last());
    }
}

/// A text weighs at least its length.
pub proof fn lemma_weight_len(s: Seq<char>)
    ensures
        weight(s) >= s.len(),
    decreases s.len(),
{
    if s.len() > 0 {
        lemma_weight_len(s.drop_last());
    }
}

/// The weight of a part of a text is that of the text less the weights of the parts
/// around it.
pub proof fn lemma_weight_split(s: Seq<char>, i: int)
    requires
        0 <= i <= s.len(),
    ensures
        weight(s) == weight(s.take(i)) + weight(s.skip(i)),
{
    assert(s =~= s.take(i) + s.skip(i));
    lemma_weight_concat(s.take(i), s.skip(i));
}

/// Removing occurrences of a phrase never adds weight.
pub proof fn lemma_weight_remove(s: Seq<char>, p: Seq<char>, i: int)
    requires
        0 <= i <= s.len(),
    ensures
        weight(replace_from(s, p, Seq::empty(), i)) <= weight(s.skip(i)),
    decreases s.len() - i,
{
    if i >= s.len() {
        assert(s.skip(i).len() == 0);
    } else if p.len() > 0 && starts_with(s.skip(i), p) {
        lemma_weight_remove(s, p, i + p.len());
        let t = s.skip(i);
        lemma_weight_split(t, p.len() as int);
        assert(t.skip(p.len() as int) =~= s.skip(i + p.len()));
        lemma_weight_len(t.take(p.len() as int));
        assert(Seq::<char>::empty() + replace_from(s, p, Seq::empty(), i + p.len()) =~= replace_from(
            s,
            p,
            Seq::empty(),
            i + p.len(),
        ));
    } else {
        lemma_weight_remove(s, p, i + 1);
        let t = s.skip(i);
        lemma_weight_split(t, 1);
        assert(t.skip(1) =~= s.skip(i + 1));
        assert(t.take(1) =~= seq![s[i]]);
        lemma_weight_concat(seq![s[i]], replace_from(s, p, Seq::empty(), i + 1));
    }
}

/// The sum of the weights of the texts.
pub open spec fn sum_weights(v: Seq<Seq<char>>) -> int
    decreases v.len(),
{
    if v.len() == 0 {
        0
    } else {
        sum_weights(v.drop_last()) + weight(v.last())
    }
}

pub proof fn lemma_sum_weights_concat(a: Seq<Seq<char>>, b: Seq<Seq<char>>)
    ensures
        sum_weights(a + b) == sum_weights(a) + sum_weights(b),
    decreases b.len(),
{
    if b.len() == 0 {
        assert(a + b =~= a);
    } else {
        lemma_sum_weights_concat(a, b.drop_last());
        assert((a + b).drop_last() =~= a + b.drop_last());
    }
}

/// The members of a list weigh less than the list, by at least two for each separator.
pub proof fn lemma_items_weight(c: Seq<char>, i: int, start: int)
    requires
        0 <= start <= i <= c.len(),
    ensures
        weight(c.subrange(start, c.len() as int)) >= sum_weights(list_items_from(c, i, start)) + 2 * (
        list_items_from(c, i, start).len() - 1),
        list_items_from(c, i, start).len() >= 1,
    decreases c.len() - i,
{
    if i >= c.len() {
        assert(list_items_from(c, i, start) =~= seq![c.subrange(start, c.len() as int)]);
        assert(seq![c.subrange(start, c.len() as int)].drop_last() =~= Seq::<Seq<char>>::empty());
        assert(sum_weights(Seq::<Seq<char>>::empty()) == 0);
    } else if sep_len(c, i) > 0 {
        let n = sep_len(c, i);
        lemma_items_weight(c, i + n, i + n);
        let rest = list_items_from(c, i + n, i + n);
        let first = c.subrange(start, i);
        assert(list_items_from(c, i, start) == seq![first] + rest);
        lemma_sum_weights_concat(seq![first], rest);
        assert(seq![first].drop_last() =~= Seq::<Seq<char>>::empty());
        let whole = c.subrange(start, c.len() as int);
        lemma_weight_split(whole, i - start);
        assert(whole.take(i - start) =~= first);
        let after = whole.skip(i - start);
        lemma_weight_split(after, n);
        assert(after.skip(n) =~= c.subrange(i + n, c.len() as int));
        let sep = after.take(n);
        if n == 1 {
            assert(sep =~= seq!['、']);
            lemma_weight_one('、');
        } else {
            lemma_weight_len(sep);
        }
        assert(weight(sep) >= 2);
        assert(weight(whole) == weight(first) + weight(sep) + weight(c.subrange(i + n, c.len() as int)));
        assert(sum_weights(seq![first]) == weight(first)) by {
            assert(seq![first].drop_last() =~= Seq::<Seq<char>>::empty());
            assert(sum_weights(Seq::<Seq<char>>::empty()) == 0);
        }
        assert(sum_weights(list_items_from(c, i, start)) == weight(first) + sum_weights(rest));
        assert(list_items_from(c, i, start).len() == 1 + rest.len());
    } else {
        lemma_items_weight(c, i + 1, start);
    }
}

/// Joined by `及び`, texts weigh their sum and two for each `及び`.
pub proof fn lemma_join_weight(v: Seq<Seq<char>>)
    requires
        v.len() >= 1,
    ensures
        weight(join_and(v)) == sum_weights(v) + 2 * (v.len() - 1),
    decreases v.len(),
{
    if v.len() == 1 {
        assert(v.drop_last() =~= Seq::<Seq<char>>::empty());
        assert(sum_weights(Seq::<Seq<char>>::empty()) == 0);
    } else {
        lemma_join_weight(v.drop_last());
        let j = join_and(v.drop_last());
        lemma_weight_concat(j, "及び"@);
        lemma_weight_concat(j + "及び"@, v.last());
        reveal_strlit("及び");
        let w = "及び"@;
        assert(w =~= seq!['及'] + seq!['び']);
        lemma_weight_concat(seq!['及'], seq!['び']);
        lemma_weight_one('及');
        lemma_weight_one('び');
        assert(weight(w) == 2);
        assert(join_and(v) == j + w + v.last());
        assert(sum_weights(v) == sum_weights(v.drop_last()) + weight(v.last()));
    }
}


// ---------------------------------------------------------------------------------------
// The members of a list of places that name titles, captions and the table of contents

/// The divisions of a title (`第三章の章名` is `第三章`).
pub open spec fn title_base(t: Seq<char>) -> Option<Seq<char>> {
    if ends_with(t, "の章名"@) || ends_with(t, "の節名"@) || ends_with(t, "の款名"@) || ends_with(
        t,
        "の編名"@,
    ) || ends_with(t, "の目名"@) {
        Some(t.take(t.len() - 3))
    } else {
        None
    }
}

/// The place of a caption (`第二条の見出し`, `第五条の前の見出し` are `第二条`, `第五条`).
pub open spec fn caption_base(t: Seq<char>) -> Option<Seq<char>> {
    if ends_with(t, "の前の見出し"@) {
        Some(t.take(t.len() - 6))
    } else if ends_with(t, "の見出し"@) {
        Some(t.take(t.len() - 4))
    } else {
        None
    }
}

/// A member that names the table of contents, a title or a caption.
pub open spec fn special_token(t: Seq<char>) -> bool {
    t == "目次"@ || title_base(t) is Some || caption_base(t) is Some
}

/// The members that name places (not the table of contents, a title or a caption).
pub open spec fn plain_tokens(v: Seq<Seq<char>>) -> Seq<Seq<char>>
    decreases v.len(),
{
    if v.len() == 0 {
        Seq::empty()
    } else {
        plain_tokens(v.drop_last()) + if special_token(v.last()) {
            Seq::<Seq<char>>::empty()
        } else {
            seq![v.last()]
        }
    }
}

/// The divisions before, up to the first of the kind `k` (`同節第一款`: up to the section).
pub open spec fn ante_upto(c: Seq<(ContainerKind, Seq<char>)>, k: ContainerKind) -> Seq<
    (ContainerKind, Seq<char>),
>
    decreases c.len(),
{
    if c.len() == 0 {
        Seq::empty()
    } else if c[0].0 == k {
        seq![c[0]]
    } else {
        seq![c[0]] + ante_upto(c.drop_first(), k)
    }
}

/// The path of the divisions of a title: `同章第一節` continues the divisions before; a
/// bare `同` names none.
pub open spec fn title_path(base: Seq<char>, a: AnteModel) -> Result<
    Seq<(ContainerKind, Seq<char>)>,
    PlaceError,
> {
    if starts_with(base, "同"@) {
        let r = base.skip(1);
        if r.len() == 0 {
            Err(PlaceError::Unrecognized(base))
        } else {
            Ok(ante_upto(a.container, kind_of(r[0])) + spec_container_path(r.skip(1)))
        }
    } else {
        Ok(spec_container_path(base))
    }
}

/// The first `k` members read in turn: the targets of those that name the table of
/// contents, a title or a caption (the divisions of a title are left for the next), the
/// other members, and the places left; or why a caption's place could not be read.
pub open spec fn extras(toks: Seq<Seq<char>>, k: int, a: AnteModel) -> Result<
    (Seq<Target>, Seq<Seq<char>>, AnteModel),
    PlaceError,
>
    decreases k,
{
    if k <= 0 {
        Ok((Seq::empty(), Seq::empty(), a))
    } else {
        match extras(toks, k - 1, a) {
            Err(e) => Err(e),
            Ok((ts, rs, a1)) => {
                let t = toks[k - 1];
                if t == "目次"@ {
                    Ok((ts.push(Target::Toc), rs, a1))
                } else {
                    match title_base(t) {
                        Some(base) => match title_path(base, a1) {
                            Err(e) => Err(e),
                            Ok(path) => Ok(
                                (
                                    ts.push(Target::ContainerTitle(path)),
                                    rs,
                                    AnteModel { container: path, ..a1 },
                                ),
                            ),
                        },
                        None => match caption_base(t) {
                            Some(base) => match spec_loc(base, a1) {
                                Err(e) => Err(e),
                                Ok((l, a2)) => Ok((ts.push(Target::Caption(l)), rs, a2)),
                            },
                            None => Ok((ts, rs.push(t), a1)),
                        },
                    }
                }
            },
        }
    }
}

/// Read in turn, the members give a target for each that names the table of contents, a
/// title or a caption, and keep the others.
pub proof fn lemma_extras_shape(toks: Seq<Seq<char>>, k: int, a: AnteModel)
    requires
        0 <= k <= toks.len(),
    ensures
        extras(toks, k, a) matches Ok((ts, rs, _)) ==> rs == plain_tokens(toks.take(k)) && ts.len()
            + rs.len() == k,
    decreases k,
{
    if k > 0 {
        lemma_extras_shape(toks, k - 1, a);
        assert(toks.take(k).drop_last() =~= toks.take(k - 1));
        assert(toks.take(k).last() == toks[k - 1]);
        reveal_strlit("目次");
    }
}

/// The members that name places weigh no more than all the members, and are fewer by the
/// number of the others.
pub proof fn lemma_plain_weight(v: Seq<Seq<char>>)
    ensures
        sum_weights(plain_tokens(v)) <= sum_weights(v),
        plain_tokens(v).len() <= v.len(),
    decreases v.len(),
{
    if v.len() > 0 {
        lemma_plain_weight(v.drop_last());
        let p = plain_tokens(v.drop_last());
        if special_token(v.last()) {
            assert(p + Seq::<Seq<char>>::empty() =~= p);
            lemma_weight_len(v.last());
        } else {
            lemma_sum_weights_concat(p, seq![v.last()]);
            assert(sum_weights(seq![v.last()]) == weight(v.last())) by {
                assert(seq![v.last()].drop_last() =~= Seq::<Seq<char>>::empty());
                assert(sum_weights(Seq::<Seq<char>>::empty()) == 0);
            }
        }
    }
}


// ---------------------------------------------------------------------------------------
// Reading a phrase instruction

/// The place of a phrase instruction, if written (see [`seg_parts`]).
pub open spec fn lp_of(seg: Seq<char>) -> Option<Seq<char>> {
    match seg_parts(seg) {
        Some((lp, _)) => lp,
        None => None,
    }
}

/// The rest of a phrase instruction from its first `「` (see [`seg_parts`]).
pub open spec fn full_of(seg: Seq<char>) -> Seq<char> {
    match seg_parts(seg) {
        Some((_, f)) => f,
        None => Seq::empty(),
    }
}

/// A phrase instruction with a place is the place, `中` and the rest.
pub proof fn lemma_seg_parts(seg: Seq<char>)
    ensures
        lp_of(seg) matches Some(l) ==> seg == l + "中"@ + full_of(seg),
{
    if let Some(l) = lp_of(seg) {
        let i = first_at(seg, "中「"@, 0);
        crate::phrase::lemma_first_at(seg, "中「"@, 0);
        reveal_strlit("中「");
        reveal_strlit("中");
        assert(starts_with(seg.skip(i), "中「"@));
        assert("中「"@[0] == '中');
        assert(seg.skip(i).take(2)[0] == seg.skip(i)[0]);
        assert(seg.skip(i)[0] == '中');
        assert(seg =~= seg.take(i) + "中"@ + seg.skip(i + 1));
    }
}

/// Reading the place `l` again with the same rest weighs less when `l` weighs less than
/// the place of `seg`.
pub proof fn lemma_lighter(seg: Seq<char>, l: Seq<char>)
    requires
        lp_of(seg) matches Some(p) && weight(l) < weight(p),
    ensures
        weight(l + "中"@ + full_of(seg)) < weight(seg),
{
    lemma_seg_parts(seg);
    let p = lp_of(seg)->0;
    lemma_weight_concat(l + "中"@, full_of(seg));
    lemma_weight_concat(l, "中"@);
    lemma_weight_concat(p + "中"@, full_of(seg));
    lemma_weight_concat(p, "中"@);
}

/// Reading a list of phrase instructions joined by `本則及び` or `題名及び`: the text after
/// it weighs less.
pub proof fn lemma_after_four(p: Seq<char>)
    requires
        p.len() >= 4,
        !p.take(4).contains('、'),
    ensures
        weight(p.skip(4)) < weight(p),
{
    lemma_weight_split(p, 4);
    lemma_weight_len(p.take(4));
}

/// The operations `v`, followed by those that reading the other places gives (`r`).
pub open spec fn combine(v: Seq<PhraseOpModel>, r: PhraseRead) -> PhraseRead {
    match r {
        Err(e) => Err(e),
        Ok((None, a2)) => Ok((None, a2)),
        Ok((Some(w), a2)) => Ok((Some(v + w), a2)),
    }
}

/// What a phrase instruction `seg` (`第七条第二項中「A」を「B」に改め`, `「A」、「B」及び「C」を削り`)
/// does after the places `a`: its place is read, then the quoted phrases (listed after
/// `、` or `及び`), then the tail (see [`spec_tail`]). What the place names is tried in this
/// order: a row of an appended table ([`po_appdx`]); the note of an article, the
/// preamble, an amending provision, the tables of several places, a position in a table
/// ([`po_note`]); the main provisions and more places, the title ([`po_honsoku`]); the table
/// of contents, a division, the main provisions, the table of a place ([`po_toc`]);
/// captions, titles and places ([`po_places`]). `None` when `seg` is not of this form; an
/// error when a place cannot be read.
pub open spec fn spec_phrase_op(seg: Seq<char>, a: AnteModel) -> PhraseRead
    decreases weight(seg), 10int,
{
    match seg_parts(seg) {
        None => Ok((None, a)),
        Some((lp, full)) => match spec_take_quoted(full) {
            None => Ok((None, a)),
            Some((q, r1)) => {
                let (ps, rest) = phrase_list(r1);
                po_appdx(seg, rest, seq![q] + ps, a)
            },
        },
    }
}

/// A row of an appended table: after one, `同項` with a sub-item label (`同項ニ中`); or a
/// row named (`別表第二X法（…）の項中`, `同表の一の項ホ中`), `同表` being the appended table
/// before; or, without a place and after no article, the row before. The row and its
/// sub-item are left for the next. No `の上に`.
pub open spec fn po_appdx(seg: Seq<char>, rest: Seq<char>, ps: Seq<Seq<char>>, a: AnteModel) -> PhraseRead
    decreases weight(seg), 9int,
{
    let lp = lp_of(seg);
    let same_ops = match (lp, a.appdx) {
        (Some(l), Some((t, r))) => if a.article is None && appdx_same(l) is Some {
            tail_ops_below(Target::AppdxRow { table: t, row: r, sub: appdx_same(l)->0 }, rest, ps)
        } else {
            None
        },
        _ => None,
    };
    if same_ops is Some {
        Ok((same_ops, a))
    } else {
        let row: Option<(Seq<char>, Seq<char>, Option<Seq<char>>)> = match lp {
            Some(l) => match appdx_row(l) {
                Some((tb, r, sub)) => if tb == "同表"@ {
                    match (a.appdx, a.tedit) {
                        (Some((t, _)), _) => Some((t, r, sub)),
                        (None, Some((TableRefModel::Appdx(t), _))) => Some((t, r, sub)),
                        (None, Some(_)) => None,
                        (None, None) => Some((Seq::empty(), r, sub)),
                    }
                } else {
                    Some((tb, r, sub))
                },
                None => None,
            },
            None => if a.article is None && !a.toc {
                match a.appdx {
                    Some((t, r)) => Some((t, r, a.sub)),
                    None => None,
                }
            } else {
                None
            },
        };
        match row {
            Some((t, r, sub)) => Ok(
                (
                    tail_ops_below(Target::AppdxRow { table: t, row: r, sub }, rest, ps),
                    AnteModel { sub, appdx: Some((t, r)), article: None, ..a },
                ),
            ),
            None => po_note(seg, rest, ps, a),
        }
    }
}

/// The article of a note (`第七十一条の付記`, `…の各付記`).
pub open spec fn note_base(l: Seq<char>) -> Option<Seq<char>> {
    if ends_with(l, "の付記"@) {
        Some(l.take(l.len() - 3))
    } else if ends_with(l, "の各付記"@) {
        Some(l.take(l.len() - 4))
    } else {
        None
    }
}

/// A list of places (with `及び`, `、` or `まで`).
pub open spec fn listed(l: Seq<char>) -> bool {
    occurs(l, "及び"@) || l.contains('、') || occurs(l, "まで"@)
}

/// The note of an article, of several articles, or without a place the note before (left
/// for the next); else the preamble and what follows it.
pub open spec fn po_note(seg: Seq<char>, rest: Seq<char>, ps: Seq<Seq<char>>, a: AnteModel) -> PhraseRead
    decreases weight(seg), 8int,
{
    let lp = lp_of(seg);
    match lp {
        Some(l) if note_base(l) is Some => {
            let x = note_base(l)->0;
            if listed(x) {
                match spec_expand_locs(spec_replace(x, "の付記"@, Seq::empty()), a) {
                    Err(e) => Err(e),
                    Ok((ls, a1)) => Ok(
                        (multi_ops(ls.map_values(|at: LocModel| Target::Note(at.article)), rest, ps), a1),
                    ),
                }
            } else {
                match spec_loc(x, a) {
                    Err(e) => Err(e),
                    Ok((at, a1)) => Ok(
                        (
                            tail_ops(Target::Note(at.article), rest, ps),
                            AnteModel { note: Some(at.article), ..a1 },
                        ),
                    ),
                }
            }
        },
        None if a.note is Some => Ok(
            (tail_ops(Target::Note(a.note->0), rest, ps), a),
        ),
        _ => po_amend(seg, rest, ps, a),
    }
}

/// The preamble (`前文のうち第五項中`: the position as written, left for the next); an
/// amending provision (`…の改正規定中`, `同改正規定中`; without a place the one before, left
/// for the next); an amending provision of an article (`第二条のうち、…の改正規定中`).
pub open spec fn po_amend(seg: Seq<char>, rest: Seq<char>, ps: Seq<Seq<char>>, a: AnteModel) -> PhraseRead
    decreases weight(seg), 7int,
{
    let lp = lp_of(seg);
    match lp {
        Some(l) if starts_with(l, "前文"@) => {
            let path = trim_prefix_all(l.skip(2), "のうち"@);
            Ok(
                (
                    tail_ops(Target::Table(TableRefModel::Preamble, path), rest, ps),
                    AnteModel { tedit: Some((TableRefModel::Preamble, path)), ..a },
                ),
            )
        },
        None if a.amend is Some => Ok(
            (tail_ops(Target::Amend(zero_article(), a.amend->0), rest, ps), a),
        ),
        Some(l) if occurs(l, "改正規定"@) => {
            let target = if starts_with(l, "同改正規定"@) {
                match a.amend {
                    Some(t) => t.take(first_at(t, "のうち"@, 0)) + l.skip(5),
                    None => l,
                }
            } else {
                l
            };
            Ok(
                (
                    tail_ops(Target::Amend(zero_article(), target), rest, ps),
                    AnteModel { amend: Some(target), ..a },
                ),
            )
        },
        Some(l) if occurs(l, "のうち"@) => {
            let i = first_at(l, "のうち"@, 0);
            match spec_loc(l.take(i), a) {
                Err(e) => Err(e),
                Ok((at, a1)) => Ok(
                    (
                        tail_ops(Target::Amend(at.article, trim_start_all(l.skip(i + 3), '、')), rest, ps),
                        a1,
                    ),
                ),
            }
        },
        _ => po_table(seg, rest, ps, a),
    }
}

/// A place that is read as a position in a table (see [`spec_split_table_target`]).
pub open spec fn table_place(l: Seq<char>, a: AnteModel) -> bool {
    ||| has_article_table(l) && !occurs(l, "の表"@)
    ||| (starts_with(l, "同欄"@) || starts_with(l, "同注"@)) && a.tedit is Some
    ||| starts_with(l, "同項"@) && (a.tedit matches Some((_, p)) && occurs(p, "の項"@))
    ||| starts_with(l, "同号"@) && a.tedit is Some
    ||| starts_with(l, "別表"@) || starts_with(l, "付表"@) || starts_with(l, "附録"@)
        || starts_with(l, "付録"@) || starts_with(l, "様式"@) || starts_with(l, "附則様式"@)
        || starts_with(l, "附則別表"@) || starts_with(l, "備考"@) || starts_with(l, "同表"@)
    ||| l == "表"@
    ||| ends_with(l, "表"@) && !occurs(l, "の表"@)
    ||| occurs(l, "の表"@) && !(trow_one(l) && !occurs(l, "及び"@))
}

/// The tables of several places (`第三十四条第一項及び同条第二項の表中`: the last left for the
/// next); a position in a table (or without a place the one before), left for the next;
/// else the main provisions and what follows them.
pub open spec fn po_table(seg: Seq<char>, rest: Seq<char>, ps: Seq<Seq<char>>, a: AnteModel) -> PhraseRead
    decreases weight(seg), 6int,
{
    let lp = lp_of(seg);
    let tl = match lp {
        Some(l) => {
            let i = first_at(l, "の表"@, 0);
            if i < l.len() && (occurs(l.take(i), "及び"@) || l.take(i).contains('、')) {
                Some((l.take(i), l.skip(i + 2)))
            } else {
                None
            }
        },
        None => None,
    };
    match tl {
        Some((locs, rp)) => match spec_expand_locs(locs, a) {
            Err(e) => Err(e),
            Ok((ats, a1)) => {
                let path = trim_start_all(trim_start_all(rp, '中'), 'の');
                match multi_ops(
                    ats.map_values(|at: LocModel| Target::Table(TableRefModel::InArticle(at), path)),
                    rest,
                    ps,
                ) {
                    None => Ok((None, a1)),
                    Some(v) => Ok(
                        (
                            Some(v),
                            if ats.len() > 0 {
                                AnteModel {
                                    tedit: Some((TableRefModel::InArticle(ats.last()), path)),
                                    ..a1
                                }
                            } else {
                                a1
                            },
                        ),
                    ),
                }
            },
        },
        None => {
            let generic = match lp {
                Some(l) => if table_place(l, a) {
                    spec_split_table_target(l, a)
                } else {
                    Ok((None, a))
                },
                None => Ok((a.tedit, a)),
            };
            match generic {
                Err(e) => Err(e),
                Ok((Some((tb, path)), a1)) => Ok(
                    (
                        tail_ops(Target::Table(tb, path), rest, ps),
                        AnteModel { appdx: None, tedit: Some((tb, path)), ..a1 },
                    ),
                ),
                Ok((None, a1)) => po_honsoku(seg, rest, ps, a1),
            }
        },
    }
}

/// The main provisions and the other places (`本則及び別表第一中`); the title
/// (`題名中`, without a place after the title, left for the next) and the other places
/// (`題名及び第一条中`); else the table of contents and what follows.
pub open spec fn po_honsoku(seg: Seq<char>, rest: Seq<char>, ps: Seq<Seq<char>>, a: AnteModel) -> PhraseRead
    decreases weight(seg), 5int,
{
    let lp = lp_of(seg);
    match lp {
        Some(l) if starts_with(l, "本則及び"@) => {
            proof {
                reveal_strlit("本則及び");
                assert(l.take(4) == "本則及び"@);
                assert(!"本則及び"@.contains('、')) by {
                    assert forall|k: int| 0 <= k < 4 implies "本則及び"@[k] != '、' by {}
                }
                lemma_after_four(l);
                lemma_lighter(seg, l.skip(4));
                lemma_weight_len(l.skip(4) + "中"@ + full_of(seg));
            }
            match tail_ops(Target::All, rest, ps) {
                None => Ok((None, a)),
                Some(v) => combine(v, spec_phrase_op(l.skip(4) + "中"@ + full_of(seg), a)),
            }
        },
        _ => {
            let title_and = match lp {
                Some(l) if starts_with(l, "題名及び"@) => Some(l.skip(4)),
                _ => None,
            };
            if lp == Some("題名"@) || title_and is Some || (lp is None && a.title) {
                match title_and {
                    None => match tail_ops(Target::Title, rest, ps) {
                        None => Ok((None, a)),
                        Some(v) => Ok((Some(v), AnteModel { title: true, ..a })),
                    },
                    Some(l2) => {
                        proof {
                            let l = lp->0;
                            reveal_strlit("題名及び");
                            assert(l.take(4) == "題名及び"@);
                            assert(!"題名及び"@.contains('、')) by {
                                assert forall|k: int| 0 <= k < 4 implies "題名及び"@[k] != '、' by {}
                            }
                            lemma_after_four(l);
                            lemma_lighter(seg, l.skip(4));
                            lemma_weight_len(l.skip(4) + "中"@ + full_of(seg));
                        }
                        match tail_ops(Target::Title, rest, ps) {
                            None => Ok((None, a)),
                            Some(v) => combine(
                                v,
                                spec_phrase_op(l2 + "中"@ + full_of(seg), AnteModel { title: false, ..a }),
                            ),
                        }
                    },
                }
            } else {
                po_toc(seg, rest, ps, AnteModel { title: false, ..a })
            }
        },
    }
}


/// The table of contents (`目次中`, or without a place after it, or divisions within it
/// after it), left for the next; no `の上に`. Else a division and what follows.
pub open spec fn po_toc(seg: Seq<char>, rest: Seq<char>, ps: Seq<Seq<char>>, a: AnteModel) -> PhraseRead
    decreases weight(seg), 4int,
{
    let lp = lp_of(seg);
    let toc_cont = a.toc && (lp matches Some(l) && toc_divisions(l));
    if lp == Some("目次"@) || (lp is None && a.toc) || toc_cont {
        Ok((tail_ops_below(Target::Toc, rest, ps), AnteModel { toc: true, ..a }))
    } else {
        po_scope(seg, rest, ps, a)
    }
}

/// The scope that a place names (a division or the main provisions with places left
/// out), or without a place the scope before; and the places left.
pub open spec fn scope_of(lp: Option<Seq<char>>, a: AnteModel) -> Result<
    (Option<(Seq<(ContainerKind, Seq<char>)>, Seq<LocModel>)>, AnteModel),
    PlaceError,
> {
    match lp {
        Some(l) => match cont_form(l) {
            Some((path, ex)) => if path != "本則"@ || ex is Some {
                match ex {
                    Some(x) => match spec_expand_locs(x, a) {
                        Err(e) => Err(e),
                        Ok((ls, a1)) => Ok((Some((spec_container_path(path), ls)), a1)),
                    },
                    None => Ok((Some((spec_container_path(path), Seq::empty())), a)),
                }
            } else {
                Ok((None, a))
            },
            None => Ok((None, a)),
        },
        None => Ok((a.scope, a)),
    }
}

/// A division or the main provisions with places left out (`第三章中`,
/// `本則（第九条を除く。）中`), or without a place the one before: left for the next, the
/// divisions too, and no article. Else the main provisions and what follows.
pub open spec fn po_scope(seg: Seq<char>, rest: Seq<char>, ps: Seq<Seq<char>>, a: AnteModel) -> PhraseRead
    decreases weight(seg), 3int,
{
    let sc = scope_of(lp_of(seg), a);
    match sc {
        Err(e) => Err(e),
        Ok((Some((path, except)), a1)) => Ok(
            (
                tail_ops(Target::InContainer(path, except), rest, ps),
                AnteModel {
                    container: if path.len() > 0 {
                        path
                    } else {
                        a1.container
                    },
                    article: None,
                    scope: Some((path, except)),
                    ..a1
                },
            ),
        ),
        Ok((None, a1)) => po_whole(seg, rest, ps, a1),
    }
}

/// The whole main provisions (`本則中`, or without a place at the start of a sentence or
/// after the whole main provisions), left for the next with no article; no `の上に`. Else
/// the table of a place with a row (`第三十八条の表第七十条第二項の項中`), left for the next;
/// else captions, titles and places.
pub open spec fn po_whole(seg: Seq<char>, rest: Seq<char>, ps: Seq<Seq<char>>, a: AnteModel) -> PhraseRead
    decreases weight(seg), 2int,
{
    let lp = lp_of(seg);
    if lp == Some("本則"@) || (lp is None && (a.fresh || a.whole)) {
        Ok((tail_ops_below(Target::All, rest, ps), AnteModel { article: None, whole: true, ..a }))
    } else {
        match lp {
            Some(l) if trow(l) is Some => {
                let (pl, row) = trow(l)->0;
                match spec_loc(pl, a) {
                    Err(e) => Err(e),
                    Ok((at, a1)) => {
                        let r = match row {
                            Some(x) => x,
                            None => Seq::empty(),
                        };
                        let path = match row {
                            Some(x) => x + "の項"@,
                            None => Seq::empty(),
                        };
                        Ok(
                            (
                                tail_ops(Target::TableRow(at, r), rest, ps),
                                AnteModel { tedit: Some((TableRefModel::InArticle(at), path)), ..a1 },
                            ),
                        )
                    },
                }
            },
            _ => po_places(seg, rest, ps, a),
        }
    }
}

/// `（見出しを含む。）`: the captions too.
pub open spec fn with_caps() -> Seq<char> {
    "（見出しを含む。）"@
}

/// The articles whose captions the members marked `（見出しを含む。）` name, each read after
/// the places `a`; or why one could not be read.
pub open spec fn caption_arts(toks: Seq<Seq<char>>, a: AnteModel) -> Result<Seq<ArticleNumModel>, PlaceError>
    decreases toks.len(),
{
    if toks.len() == 0 {
        Ok(Seq::empty())
    } else {
        match caption_arts(toks.drop_last(), a) {
            Err(e) => Err(e),
            Ok(v) => {
                let t = toks.last();
                if ends_with(t, with_caps()) {
                    match spec_loc(t.take(t.len() - 9), a) {
                        Err(e) => Err(e),
                        Ok((l, _)) => Ok(v.push(l.article)),
                    }
                } else {
                    Ok(v)
                }
            },
        }
    }
}

/// The place without a trailing `（見出しを含む。）`.
pub open spec fn lp1_of(seg: Seq<char>) -> Option<Seq<char>> {
    match lp_of(seg) {
        Some(l) if ends_with(l, with_caps()) => Some(l.take(l.len() - 9)),
        lp => lp,
    }
}

/// The place without any `（見出しを含む。）`.
pub open spec fn lp2_of(seg: Seq<char>) -> Option<Seq<char>> {
    match lp1_of(seg) {
        Some(l) if occurs(l, with_caps()) => Some(spec_replace(l, with_caps(), Seq::empty())),
        lp => lp,
    }
}

/// A list of places that names the table of contents, titles or captions.
pub open spec fn names_extras(l: Seq<char>) -> bool {
    &&& occurs(l, "及び"@) || l.contains('、') || occurs(l, "並びに"@)
    &&& occurs(l, "目次"@) || l.contains('名') || occurs(l, "見出し"@)
}

/// The places of the members that name the table of contents, titles or captions, read
/// again with the same phrases, weigh less than the instruction.
pub proof fn lemma_extra_lighter(seg: Seq<char>, a: AnteModel)
    requires
        lp2_of(seg) is Some,
        extras(list_items(lp2_of(seg)->0), list_items(lp2_of(seg)->0).len() as int, a) matches Ok(
            (ts, rs, _),
        ) && ts.len() > 0 && rs.len() > 0,
    ensures
        extras(list_items(lp2_of(seg)->0), list_items(lp2_of(seg)->0).len() as int, a) matches Ok(
            (_, rs, _),
        ) && weight(join_and(rs) + "中"@ + full_of(seg)) < weight(seg),
{
    let l = lp_of(seg)->0;
    let l1 = lp1_of(seg)->0;
    let l2 = lp2_of(seg)->0;
    reveal_strlit("（見出しを含む。）");
    if ends_with(l, with_caps()) {
        lemma_weight_split(l, l.len() - 9);
        lemma_weight_len(l.skip(l.len() - 9));
    }
    assert(weight(l1) <= weight(l));
    if occurs(l1, with_caps()) {
        lemma_weight_remove(l1, with_caps(), 0);
        assert(l1.skip(0) =~= l1);
    }
    assert(weight(l2) <= weight(l1));
    let toks = list_items(l2);
    lemma_items_weight(l2, 0, 0);
    assert(l2.subrange(0, l2.len() as int) =~= l2);
    lemma_extras_shape(toks, toks.len() as int, a);
    assert(toks.take(toks.len() as int) =~= toks);
    lemma_plain_weight(toks);
    let rs = plain_tokens(toks);
    lemma_join_weight(rs);
    lemma_lighter(seg, join_and(rs));
}

/// Captions (`（見出しを含む。）`), then the table of contents, titles of divisions and
/// captions among a list of places (the divisions of a title left for the next), with
/// the other places read again with the same phrases; else the places.
pub open spec fn po_places(seg: Seq<char>, rest: Seq<char>, ps: Seq<Seq<char>>, a: AnteModel) -> PhraseRead
    decreases weight(seg), 1int,
{
    let with_caption = lp_of(seg) matches Some(l) && ends_with(l, with_caps());
    let caps = match lp1_of(seg) {
        Some(l) if occurs(l, with_caps()) => caption_arts(list_items(l), a),
        _ => Ok(Seq::empty()),
    };
    match caps {
        Err(e) => Err(e),
        Ok(cap_arts) => match lp2_of(seg) {
            Some(l) if names_extras(l) => {
                let toks = list_items(l);
                match extras(toks, toks.len() as int, a) {
                    Err(e) => Err(e),
                    Ok((ts, rs, a1)) => if ts.len() == 0 {
                        po_ats(seg, lp2_of(seg), with_caption, cap_arts, rest, ps, a1)
                    } else {
                        match multi_ops(ts, rest, ps) {
                            None => Ok((None, a1)),
                            Some(v) => if rs.len() == 0 {
                                Ok((Some(v), a1))
                            } else {
                                proof {
                                    lemma_extra_lighter(seg, a);
                                    lemma_weight_len(join_and(rs) + "中"@ + full_of(seg));
                                }
                                combine(v, spec_phrase_op(join_and(rs) + "中"@ + full_of(seg), a1))
                            },
                        }
                    },
                }
            },
            _ => po_ats(seg, lp2_of(seg), with_caption, cap_arts, rest, ps, a),
        },
    }
}

/// Each phrase at each place, in turn.
pub open spec fn cross_at(
    ats: Seq<LocModel>,
    ps: Seq<Seq<char>>,
    f: spec_fn(LocModel, Seq<char>) -> PhraseOpModel,
) -> Seq<PhraseOpModel>
    decreases ats.len(),
{
    if ats.len() == 0 {
        Seq::empty()
    } else {
        cross_at(ats.drop_last(), ps, f) + ps.map_values(|p: Seq<char>| f(ats.last(), p))
    }
}

/// Each phrase of the caption of each article, deleted, in turn.
pub open spec fn cross_captions(arts: Seq<ArticleNumModel>, ps: Seq<Seq<char>>) -> Seq<PhraseOpModel>
    decreases arts.len(),
{
    if arts.len() == 0 {
        Seq::empty()
    } else {
        cross_captions(arts.drop_last(), ps) + ps.map_values(
            |p: Seq<char>| PhraseOpModel::Caption { article: arts.last(), from: p, to: Seq::empty() },
        )
    }
}

/// What a phrase becomes at a place: deleted (`0`), replaced by `b` (`1`), replaced by `b`
/// in the caption of the article (`2`), with `b` before it (`3`), with `b` after it (`4`).
pub open spec fn at_kind(k: int, b: Seq<char>) -> spec_fn(LocModel, Seq<char>) -> PhraseOpModel {
    |at: LocModel, f: Seq<char>|
        if k == 0 {
            PhraseOpModel::At { at, from: f, to: Seq::empty() }
        } else if k == 1 {
            PhraseOpModel::At { at, from: f, to: b }
        } else if k == 2 {
            PhraseOpModel::Caption { article: at.article, from: f, to: b }
        } else if k == 3 {
            PhraseOpModel::At { at, from: f, to: b + f }
        } else {
            PhraseOpModel::After { at, anchor: f, text: b }
        }
}

/// The operations at the places `ats`: `を削り` deletes each phrase at each place (and in
/// the captions of the articles `caps`); `を「B」に改め` replaces each (in the captions of the
/// places too with `wc`); `の上に「B」を加え` puts `B` before each; `の下に「B」を加え` adds
/// `B` after each. `None` for any other tail.
pub open spec fn at_ops(
    ats: Seq<LocModel>,
    wc: bool,
    caps: Seq<ArticleNumModel>,
    rest: Seq<char>,
    ps: Seq<Seq<char>>,
) -> Option<Seq<PhraseOpModel>> {
    if starts_with(rest, "を"@) {
        let r = rest.skip(1);
        if r == "削り"@ || r == "削る"@ {
            Some(cross_captions(caps, ps) + cross_at(ats, ps, at_kind(0, Seq::empty())))
        } else {
            match spec_take_quoted(r) {
                Some((b, t)) => if replace_end(t) {
                    Some(
                        (if wc {
                            cross_at(ats, ps, at_kind(2, b))
                        } else {
                            Seq::empty()
                        }) + cross_at(ats, ps, at_kind(1, b)),
                    )
                } else {
                    None
                },
                None => None,
            }
        }
    } else if starts_with(rest, "の上に"@) {
        match spec_take_quoted(rest.skip(3)) {
            Some((b, t)) => if add_end(t) {
                Some(cross_at(ats, ps, at_kind(3, b)))
            } else {
                None
            },
            None => None,
        }
    } else if starts_with(rest, "の下に"@) {
        match spec_take_quoted(rest.skip(3)) {
            Some((b, t)) => if add_end(t) {
                Some(cross_at(ats, ps, at_kind(4, b)))
            } else {
                None
            },
            None => None,
        }
    } else {
        None
    }
}

/// The places: a list (`同条第四項及び第六項中`, left for the next), one place, or without a
/// place the list before (of more than one) or the place before.
pub open spec fn po_ats(
    seg: Seq<char>,
    lp2: Option<Seq<char>>,
    wc: bool,
    caps: Seq<ArticleNumModel>,
    rest: Seq<char>,
    ps: Seq<Seq<char>>,
    a: AnteModel,
) -> PhraseRead {
    let ats: Result<(Seq<LocModel>, AnteModel), PlaceError> = match lp2 {
        Some(l) => if listed(l) {
            match spec_expand_locs(l, a) {
                Err(e) => Err(e),
                Ok((v, a1)) => Ok((v, AnteModel { locs: v, ..a1 })),
            }
        } else {
            match spec_loc(l, a) {
                Err(e) => Err(e),
                Ok((at, a1)) => Ok((seq![at], a1)),
            }
        },
        None => if a.locs.len() > 1 {
            Ok((a.locs, a))
        } else {
            match spec_ante_loc(a, seg) {
                Err(e) => Err(e),
                Ok(at) => Ok((seq![at], a)),
            }
        },
    };
    match ats {
        Err(e) => Err(e),
        Ok((v, a1)) => Ok((at_ops(v, wc, caps, rest, ps), a1)),
    }
}


// ---------------------------------------------------------------------------------------
// Making the operations

/// The caption operation that `edit` asks for at the place `l`: of the paragraph when one
/// is named, else of the article.
pub open spec fn spec_caption_op(l: Loc, edit: CaptionEdit) -> Op {
    if l.paragraph is Some {
        Op::ParagraphCaption { at: l, edit }
    } else {
        match edit {
            CaptionEdit::Replace { from, to } => Op::ReplaceCaption { article: l.article, from, to },
            CaptionEdit::SetText(text) => Op::SetCaption { article: l.article, text },
            CaptionEdit::Attach(text) => Op::AttachCaption { article: l.article, text },
            CaptionEdit::Delete => Op::DeleteCaption { article: l.article },
        }
    }
}

/// The caption operation at a place (see [`spec_caption_op`]).
pub fn caption_op(l: Loc, edit: CaptionEdit) -> (r: Op)
    ensures
        r == spec_caption_op(l, edit),
{
    if l.paragraph.is_some() {
        return Op::ParagraphCaption { at: l, edit };
    }
    let article = l.article;
    match edit {
        CaptionEdit::Replace { from, to } => Op::ReplaceCaption { article, from, to },
        CaptionEdit::SetText(text) => Op::SetCaption { article, text },
        CaptionEdit::Attach(text) => Op::AttachCaption { article, text },
        CaptionEdit::Delete => Op::DeleteCaption { article },
    }
}

/// Where the operations go, as read.
pub enum TargetText {
    AppdxRow(String, String, Option<String>),
    Note(ArticleNum),
    Table(TableRef, String),
    Amend(ArticleNum, String),
    All,
    Title,
    Toc,
    InContainer(Vec<(ContainerKind, String)>, Vec<Loc>),
    TableRow(Loc, String),
    ContainerTitle(Vec<(ContainerKind, String)>),
    Caption(Loc),
}

impl View for TargetText {
    type V = Target;

    open spec fn view(&self) -> Target {
        match self {
            TargetText::AppdxRow(t, r, s) => Target::AppdxRow { table: t@, row: r@, sub: opt_text(*s) },
            TargetText::Note(a) => Target::Note(a@),
            TargetText::Table(t, p) => Target::Table(t@, p@),
            TargetText::Amend(a, t) => Target::Amend(a@, t@),
            TargetText::All => Target::All,
            TargetText::Title => Target::Title,
            TargetText::Toc => Target::Toc,
            TargetText::InContainer(p, e) => Target::InContainer(
                path_view(p@),
                e@.map_values(|l: Loc| l@),
            ),
            TargetText::TableRow(at, r) => Target::TableRow(at@, r@),
            TargetText::ContainerTitle(p) => Target::ContainerTitle(path_view(p@)),
            TargetText::Caption(l) => Target::Caption(l@),
        }
    }
}

fn copy_locs(v: &Vec<Loc>) -> (r: Vec<Loc>)
    ensures
        r@.map_values(|l: Loc| l@) == v@.map_values(|l: Loc| l@),
{
    let mut r: Vec<Loc> = Vec::new();
    let mut i: usize = 0;
    while i < v.len()
        invariant
            i <= v.len(),
            r@.len() == i,
            forall|k: int| 0 <= k < i ==> (#[trigger] r@[k])@ == v@[k]@,
        decreases v.len() - i,
    {
        r.push(v[i].copy());
        i = i + 1;
    }
    assert(r@.map_values(|l: Loc| l@) =~= v@.map_values(|l: Loc| l@));
    r
}

/// The operation that makes the phrase `from` into `to` at the target `t` (see
/// [`target_op`]).
pub fn make_op(t: &TargetText, from: String, to: String) -> (r: Op)
    ensures
        crate::phrase::phrase_op_view(r) == target_op(t@, from@, to@),
{
    match t {
        TargetText::AppdxRow(tb, row, sub) => Op::ReplaceAppdxRow {
            table: tb.clone(),
            row: row.clone(),
            sub: copy_text(sub),
            from,
            to,
        },
        TargetText::Note(a) => Op::ReplaceSupplNote { article: a.copy(), from, to },
        TargetText::Table(tb, p) => Op::TableEdit {
            table: tb.copy(),
            path: p.clone(),
            action: TableAction::Phrase { from, to },
        },
        TargetText::Amend(a, target) => Op::ReplaceInAmendment {
            article: a.copy(),
            target: target.clone(),
            from,
            to,
        },
        TargetText::All => Op::ReplaceAll { from, to },
        TargetText::Title => Op::ReplaceTitle { from, to },
        TargetText::Toc => Op::ReplaceToc { from, to },
        TargetText::InContainer(p, e) => Op::ReplaceInContainer {
            path: copy_path(p),
            except: copy_locs(e),
            except_titles: Vec::new(),
            from,
            to,
        },
        TargetText::TableRow(at, row) => Op::ReplaceTableRow { at: at.copy(), row: row.clone(), from, to },
        TargetText::ContainerTitle(p) => Op::ReplaceContainerTitle { path: copy_path(p), from, to },
        TargetText::Caption(l) => {
            let l2 = l.copy();
            let suppl = l2.suppl;
            let ghost lg = l2;
            let ghost fv = from@;
            let ghost tv = to@;
            let e = CaptionEdit::Replace { from, to };
            let ghost eg = e;
            let c = caption_op(l2, e);
            let r = c.in_suppl(suppl);
            proof {
                if lg.paragraph is Some {
                    assert(c == Op::ParagraphCaption { at: lg, edit: eg });
                    assert(crate::op::spec_op_loc(c) == Some(lg));
                    assert(crate::op::spec_op_article(c) == Some(lg.article));
                    if lg.suppl {
                        let inner = crate::op::op_with_loc(c, Loc { suppl: false, ..lg });
                        assert(inner == Op::ParagraphCaption { at: Loc { suppl: false, ..lg }, edit: eg });
                        assert(r == Op::Suppl(Box::new(inner)));
                        assert((Loc { suppl: false, ..lg })@ == LocModel { suppl: false, ..l@ });
                        assert(crate::phrase::phrase_op_view(inner) == PhraseOpModel::ParaCaption {
                            at: LocModel { suppl: false, ..l@ },
                            from: fv,
                            to: tv,
                        });
                    } else {
                        assert(r == c);
                    }
                } else {
                    assert(c == Op::ReplaceCaption { article: lg.article, from: eg->from, to: eg->to });
                    assert(crate::op::spec_op_loc(c) is None);
                    assert(crate::op::spec_op_article(c) == Some(lg.article));
                    if lg.suppl {
                        assert(r == Op::Suppl(Box::new(c)));
                        assert(crate::phrase::phrase_op_view(c) == PhraseOpModel::Caption {
                            article: l@.article,
                            from: fv,
                            to: tv,
                        });
                    } else {
                        assert(r == c);
                    }
                }
                assert(t@ == Target::Caption(l@));
                assert(crate::phrase::phrase_op_view(r) == caption_model(l@, fv, tv));
            }
            r
        },
    }
}

/// The operations at the target `t` that the tail `rest` makes of the phrases (see
/// [`tail_ops`]).
fn tail_ops_exec(t: &TargetText, rest: &str, ps: &Vec<String>) -> (r: Option<Vec<Op>>)
    ensures
        opt_ops_view(r) == tail_ops(t@, rest@, texts_view(ps@)),
{
    let pairs = match phrase_tail(rest, ps) {
        Some(v) => v,
        None => {
            return None;
        },
    };
    let ghost pv = pairs_view(pairs@);
    let mut out: Vec<Op> = Vec::new();
    let mut i: usize = 0;
    while i < pairs.len()
        invariant
            i <= pairs.len(),
            pv == pairs_view(pairs@),
            out@.len() == i,
            forall|k: int|
                0 <= k < i ==> crate::phrase::phrase_op_view(#[trigger] out@[k]) == target_op(
                    t@,
                    pv[k].0,
                    pv[k].1,
                ),
        decreases pairs.len() - i,
    {
        let (f, to) = (pairs[i].0.clone(), pairs[i].1.clone());
        out.push(make_op(t, f, to));
        i = i + 1;
    }
    assert(phrase_ops_view(out@) =~= pv.map_values(
        |p: (Seq<char>, Seq<char>)| target_op(t@, p.0, p.1),
    ));
    Some(out)
}

/// The same without `の上に` (see [`tail_ops_below`]).
fn tail_ops_below_exec(t: &TargetText, rest: &str, ps: &Vec<String>) -> (r: Option<Vec<Op>>)
    ensures
        opt_ops_view(r) == tail_ops_below(t@, rest@, texts_view(ps@)),
{
    match read_tail(rest) {
        Some(TailText::Above(_)) => None,
        _ => tail_ops_exec(t, rest, ps),
    }
}

/// The operations at each target in turn (see [`multi_ops`]).
fn multi_ops_exec(ts: &Vec<TargetText>, rest: &str, ps: &Vec<String>) -> (r: Option<Vec<Op>>)
    ensures
        opt_ops_view(r) == multi_ops(ts@.map_values(|t: TargetText| t@), rest@, texts_view(ps@)),
{
    let ghost tv = ts@.map_values(|t: TargetText| t@);
    let mut out: Vec<Op> = Vec::new();
    let mut i: usize = 0;
    assert(tv.take(0) =~= Seq::<Target>::empty());
    assert(phrase_ops_view(out@) =~= Seq::<PhraseOpModel>::empty());
    while i < ts.len()
        invariant
            i <= ts.len(),
            tv == ts@.map_values(|t: TargetText| t@),
            multi_ops(tv.take(i as int), rest@, texts_view(ps@)) == Some(phrase_ops_view(out@)),
        decreases ts.len() - i,
    {
        assert(tv.take(i + 1).drop_last() =~= tv.take(i as int));
        assert(tv.take(i + 1).last() == ts@[i as int]@);
        match tail_ops_exec(&ts[i], rest, ps) {
            Some(w) => {
                let ghost before = out@;
                let ghost wv = w@;
                let mut w = w;
                out.append(&mut w);
                assert(phrase_ops_view(out@) =~= phrase_ops_view(before) + phrase_ops_view(wv));
            },
            None => {
                proof {
                    lemma_multi_stops(tv, rest@, texts_view(ps@), i + 1);
                }
                assert(tv.take(ts.len() as int) =~= tv);
                return None;
            },
        }
        i = i + 1;
    }
    assert(tv.take(ts.len() as int) =~= tv);
    Some(out)
}

/// Once a target's operations are not read, none are.
proof fn lemma_multi_stops(ts: Seq<Target>, rest: Seq<char>, ps: Seq<Seq<char>>, k: int)
    requires
        1 <= k <= ts.len(),
        multi_ops(ts.take(k), rest, ps) is None,
    ensures
        multi_ops(ts, rest, ps) is None,
    decreases ts.len() - k,
{
    if k < ts.len() {
        assert(ts.take(k + 1).drop_last() =~= ts.take(k));
        lemma_multi_stops(ts, rest, ps, k + 1);
    } else {
        assert(ts.take(k) =~= ts);
    }
}


// ---------------------------------------------------------------------------------------
// Reading a phrase instruction

/// The result `r`, with the places `a` left, is what `s` says.
pub open spec fn read_as(r: Result<Option<Vec<Op>>, ParseError>, a: AnteModel, s: PhraseRead) -> bool {
    match s {
        Ok((o, a2)) => r is Ok && opt_ops_view(r->Ok_0) == o && a == a2,
        Err(e) => r is Err && error_is(r->Err_0, e),
    }
}

/// The text `s` holds `p`.
fn occurs_exec(s: &Vec<char>, p: &str) -> (r: bool)
    ensures
        r == occurs(s@, p@),
{
    crate::locs::first_at_exec(s, p) < s.len()
}

/// The text `s` holds `ch`.
fn holds_char(s: &Vec<char>, ch: char) -> (r: bool)
    ensures
        r == s@.contains(ch),
{
    let mut i: usize = 0;
    while i < s.len()
        invariant
            i <= s.len(),
            forall|k: int| 0 <= k < i ==> s@[k] != ch,
        decreases s.len() - i,
    {
        if s[i] == ch {
            return true;
        }
        i = i + 1;
    }
    false
}

/// The characters `c` are the text `p`.
fn chars_are(c: &Vec<char>, p: &str) -> (r: bool)
    ensures
        r == (c@ == p@),
{
    let s = string_of(c.as_slice());
    str_eq(s.as_str(), p)
}

/// What the parts of a phrase instruction are, as read.
pub open spec fn parts_read(seg: Seq<char>, lp: Option<String>, full: String) -> bool {
    &&& opt_text(lp) == lp_of(seg)
    &&& full@ == full_of(seg)
    &&& seg_parts(seg) is Some
}

/// The places of a phrase instruction are no longer than it.
proof fn lemma_parts_len(seg: Seq<char>)
    ensures
        lp_of(seg) matches Some(l) ==> l.len() <= seg.len(),
        seg.len() <= weight(seg),
{
    lemma_weight_len(seg);
    lemma_seg_parts(seg);
}

/// A row of an appended table (see [`po_appdx`]).
fn po_appdx_exec(
    seg: &str,
    lp: &Option<String>,
    full: &String,
    rest: &str,
    ps: &Vec<String>,
    ante: &mut Ante,
) -> (r: Result<Option<Vec<Op>>, ParseError>)
    requires
        parts_read(seg@, *lp, *full),
    ensures
        read_as(r, final(ante)@, po_appdx(seg@, rest@, texts_view(ps@), old(ante)@)),
    decreases weight(seg@), 9int,
{
    proof {
        lemma_parts_len(seg@);
    }
    let lc: Option<Vec<char>> = match lp {
        Some(l) => Some(chars_of(l.as_str())),
        None => None,
    };
    if ante.article.is_none() {
        match (&lc, &ante.appdx) {
            (Some(l), Some((t, r))) => match appdx_same_exec(l) {
                Some(sub) => {
                    let tgt = TargetText::AppdxRow(
                        t.clone(),
                        r.clone(),
                        match sub {
                            Some(x) => Some(string_of(x.as_slice())),
                            None => None,
                        },
                    );
                    let v = tail_ops_below_exec(&tgt, rest, ps);
                    if v.is_some() {
                        return Ok(v);
                    }
                },
                None => {},
            },
            _ => {},
        }
    }
    let row: Option<(String, String, Option<String>)> = match &lc {
        Some(l) => match appdx_row_exec(l) {
            Some((q, p, m)) => {
                let tb = crate::text::slice_to(l.as_slice(), q);
                let rw = string_of(crate::text::slice_range(l.as_slice(), p, m).as_slice());
                let sub = if m + 2 == l.len() {
                    None
                } else {
                    Some(string_of(crate::text::slice_from(l.as_slice(), m + 2).as_slice()))
                };
                if chars_are(&tb, "同表") {
                    match (&ante.appdx, &ante.tedit) {
                        (Some((t, _)), _) => Some((t.clone(), rw, sub)),
                        (None, Some((TableRef::Appdx(t), _))) => Some((t.clone(), rw, sub)),
                        (None, Some(_)) => None,
                        (None, None) => Some((String::new(), rw, sub)),
                    }
                } else {
                    Some((string_of(tb.as_slice()), rw, sub))
                }
            },
            None => None,
        },
        None => {
            if ante.article.is_none() && !ante.toc {
                match &ante.appdx {
                    Some((t, r)) => Some((t.clone(), r.clone(), copy_text(&ante.sub))),
                    None => None,
                }
            } else {
                None
            }
        },
    };
    match row {
        Some((t, r, sub)) => {
            let tgt = TargetText::AppdxRow(t.clone(), r.clone(), copy_text(&sub));
            let v = tail_ops_below_exec(&tgt, rest, ps);
            ante.sub = sub;
            ante.appdx = Some((t, r));
            ante.article = None;
            Ok(v)
        },
        None => po_note_exec(seg, lp, full, rest, ps, ante),
    }
}


/// A part of a text weighs no more than the text.
pub proof fn lemma_sub_weight(s: Seq<char>, i: int, j: int)
    requires
        0 <= i <= j <= s.len(),
    ensures
        weight(s.subrange(i, j)) <= weight(s),
        s.subrange(i, j).len() <= weight(s),
{
    lemma_weight_split(s, j);
    lemma_weight_split(s.take(j), i);
    assert(s.take(j).skip(i) =~= s.subrange(i, j));
    lemma_weight_len(s.take(j).take(i));
    lemma_weight_len(s.skip(j));
    lemma_weight_len(s.subrange(i, j));
}

/// The place of a phrase instruction weighs no more than the instruction.
pub proof fn lemma_place_weight(seg: Seq<char>)
    ensures
        lp_of(seg) matches Some(l) ==> weight(l) <= weight(seg) && l.len() <= weight(seg),
{
    if let Some(l) = lp_of(seg) {
        lemma_seg_parts(seg);
        lemma_weight_concat(l + "中"@, full_of(seg));
        lemma_weight_concat(l, "中"@);
        lemma_weight_len("中"@);
        lemma_weight_len(full_of(seg));
        lemma_weight_len(l);
    }
}

/// The operations `v`, followed by those of the other places (see [`combine`]).
fn combine_exec(v: Vec<Op>, r: Result<Option<Vec<Op>>, ParseError>) -> (x: Result<Option<Vec<Op>>, ParseError>)
    ensures
        match r {
            Err(e) => x == Err::<Option<Vec<Op>>, ParseError>(e),
            Ok(None) => x == Ok::<Option<Vec<Op>>, ParseError>(None),
            Ok(Some(w)) => x matches Ok(Some(z)) && phrase_ops_view(z@) == phrase_ops_view(v@) + phrase_ops_view(w@),
        },
{
    match r {
        Err(e) => Err(e),
        Ok(None) => Ok(None),
        Ok(Some(w)) => {
            let ghost wv = w@;
            let mut out = v;
            let ghost vv = out@;
            let mut w = w;
            out.append(&mut w);
            assert(phrase_ops_view(out@) =~= phrase_ops_view(vv) + phrase_ops_view(wv));
            Ok(Some(out))
        },
    }
}

/// The note of an article (see [`po_note`]).
#[verifier::rlimit(60)]
fn po_note_exec(
    seg: &str,
    lp: &Option<String>,
    full: &String,
    rest: &str,
    ps: &Vec<String>,
    ante: &mut Ante,
) -> (r: Result<Option<Vec<Op>>, ParseError>)
    requires
        parts_read(seg@, *lp, *full),
    ensures
        read_as(r, final(ante)@, po_note(seg@, rest@, texts_view(ps@), old(ante)@)),
    decreases weight(seg@), 8int,
{
    proof {
        lemma_place_weight(seg@);
        reveal_strlit("の付記");
        reveal_strlit("の各付記");
    }
    match lp {
        Some(l) => {
            let lc = chars_of(l.as_str());
            let nb: Option<Vec<char>> = if chars_end_with(lc.as_slice(), "の付記") {
                Some(crate::text::slice_to(lc.as_slice(), lc.len() - 3))
            } else if chars_end_with(lc.as_slice(), "の各付記") {
                Some(crate::text::slice_to(lc.as_slice(), lc.len() - 4))
            } else {
                None
            };
            match nb {
                Some(x) => {
                    proof {
                        lemma_sub_weight(lc@, 0, x@.len() as int);
                        assert(x@ == lc@.subrange(0, x@.len() as int));
                    }
                    if occurs_exec(&x, "及び") || holds_char(&x, '、') || occurs_exec(&x, "まで") {
                        let y = crate::rewrite::replace_all(&x, "の付記", "");
                        proof {
                            reveal_strlit("");
                            assert(""@ =~= Seq::<char>::empty());
                            lemma_weight_remove(x@, "の付記"@, 0);
                            assert(x@.skip(0) =~= x@);
                            lemma_weight_len(y@);
                        }
                        let ys = string_of(y.as_slice());
                        match expand_locs(ys.as_str(), ante) {
                            Err(e) => Err(e),
                            Ok(ls) => {
                                let mut ts: Vec<TargetText> = Vec::new();
                                let mut i: usize = 0;
                                while i < ls.len()
                                    invariant
                                        i <= ls.len(),
                                        ts@.len() == i,
                                        forall|k: int|
                                            0 <= k < i ==> (#[trigger] ts@[k])@ == Target::Note(ls@[k]@.article),
                                    decreases ls.len() - i,
                                {
                                    ts.push(TargetText::Note(ls[i].article.copy()));
                                    i = i + 1;
                                }
                                assert(ts@.map_values(|t: TargetText| t@) =~= crate::locs::locs_view(ls@).map_values(
                                    |at: LocModel| Target::Note(at.article),
                                ));
                                Ok(multi_ops_exec(&ts, rest, ps))
                            },
                        }
                    } else {
                        let xs = string_of(x.as_slice());
                        match loc(xs.as_str(), ante) {
                            Err(e) => Err(e),
                            Ok(at) => {
                                let art = at.article;
                                let v = tail_ops_exec(&TargetText::Note(art.copy()), rest, ps);
                                ante.note = Some(art);
                                Ok(v)
                            },
                        }
                    }
                },
                None => po_amend_exec(seg, lp, full, rest, ps, ante),
            }
        },
        None => {
            match &ante.note {
                Some(a) => {
                    let art = a.copy();
                    return Ok(tail_ops_exec(&TargetText::Note(art), rest, ps));
                },
                None => {},
            }
            po_amend_exec(seg, lp, full, rest, ps, ante)
        },
    }
}

/// `s` without all the copies of `p` it starts with (see [`trim_prefix_all`]).
fn trim_prefix_all_exec(s: Vec<char>, p: &str) -> (r: Vec<char>)
    ensures
        r@ == trim_prefix_all(s@, p@),
{
    let n = chars_of(p).len();
    let mut cur = s;
    if n == 0 {
        return cur;
    }
    while has_at_start(&cur, p)
        invariant
            n == p@.len(),
            n > 0,
            trim_prefix_all(s@, p@) == trim_prefix_all(cur@, p@),
        decreases cur@.len(),
    {
        cur = crate::text::slice_from(cur.as_slice(), n);
    }
    cur
}

fn has_at_start(c: &Vec<char>, p: &str) -> (r: bool)
    ensures
        r == starts_with(c@, p@),
{
    assert(c@.skip(0) =~= c@);
    crate::text::has_at(c.as_slice(), 0, p)
}

/// The preamble, an amending provision (see [`po_amend`]).
fn po_amend_exec(
    seg: &str,
    lp: &Option<String>,
    full: &String,
    rest: &str,
    ps: &Vec<String>,
    ante: &mut Ante,
) -> (r: Result<Option<Vec<Op>>, ParseError>)
    requires
        parts_read(seg@, *lp, *full),
    ensures
        read_as(r, final(ante)@, po_amend(seg@, rest@, texts_view(ps@), old(ante)@)),
    decreases weight(seg@), 7int,
{
    proof {
        lemma_place_weight(seg@);
        reveal_strlit("前文");
        reveal_strlit("同改正規定");
        reveal_strlit("のうち");
    }
    match lp {
        Some(l) => {
            let lc = chars_of(l.as_str());
            if has_at_start(&lc, "前文") {
                let path = string_of(trim_prefix_all_exec(crate::text::slice_from(lc.as_slice(), 2), "のうち").as_slice());
                let v = tail_ops_exec(&TargetText::Table(TableRef::Preamble, path.clone()), rest, ps);
                ante.tedit = Some((TableRef::Preamble, path));
                return Ok(v);
            }
            if occurs_exec(&lc, "改正規定") {
                let target: String = if has_at_start(&lc, "同改正規定") {
                    match &ante.amend {
                        Some(t) => {
                            let tc = chars_of(t.as_str());
                            let i = crate::locs::first_at_exec(&tc, "のうち");
                            proof {
                                crate::phrase::lemma_first_at(tc@, "のうち"@, 0);
                            }
                            let mut x = string_of(crate::text::slice_to(tc.as_slice(), i).as_slice());
                            let y = string_of(crate::text::slice_from(lc.as_slice(), 5).as_slice());
                            push_str(&mut x, y.as_str());
                            x
                        },
                        None => l.clone(),
                    }
                } else {
                    l.clone()
                };
                let v = tail_ops_exec(&TargetText::Amend(crate::locs::zero_article_exec(), target.clone()), rest, ps);
                ante.amend = Some(target);
                return Ok(v);
            }
            if occurs_exec(&lc, "のうち") {
                let i = crate::locs::first_at_exec(&lc, "のうち");
                proof {
                    crate::phrase::lemma_first_at(lc@, "のうち"@, 0);
                    lemma_sub_weight(lc@, 0, i as int);
                }
                let a0 = string_of(crate::text::slice_to(lc.as_slice(), i).as_slice());
                return match loc(a0.as_str(), ante) {
                    Err(e) => Err(e),
                    Ok(at) => {
                        let tgt = string_of(
                            crate::table::trim_start_chars(crate::text::slice_from(lc.as_slice(), i + 3), '、').as_slice(),
                        );
                        Ok(tail_ops_exec(&TargetText::Amend(at.article, tgt), rest, ps))
                    },
                };
            }
            po_table_exec(seg, lp, full, rest, ps, ante)
        },
        None => {
            match &ante.amend {
                Some(t) => {
                    let tt = t.clone();
                    return Ok(tail_ops_exec(&TargetText::Amend(crate::locs::zero_article_exec(), tt), rest, ps));
                },
                None => {},
            }
            po_table_exec(seg, lp, full, rest, ps, ante)
        },
    }
}

/// Whether a place is read as a position in a table (see [`table_place`]).
fn table_place_exec(l: &Vec<char>, ante: &Ante) -> (r: bool)
    ensures
        r == table_place(l@, ante@),
{
    proof {
        reveal_strlit("表");
    }
    let tedit_some = ante.tedit.is_some();
    let same_row = match &ante.tedit {
        Some((_, p)) => occurs_exec(&chars_of(p.as_str()), "の項"),
        None => false,
    };
    (has_article_table_exec(l) && !occurs_exec(l, "の表"))
        || ((has_at_start(l, "同欄") || has_at_start(l, "同注")) && tedit_some)
        || (has_at_start(l, "同項") && same_row)
        || (has_at_start(l, "同号") && tedit_some)
        || has_at_start(l, "別表") || has_at_start(l, "付表") || has_at_start(l, "附録")
        || has_at_start(l, "付録") || has_at_start(l, "様式") || has_at_start(l, "附則様式")
        || has_at_start(l, "附則別表") || has_at_start(l, "備考") || has_at_start(l, "同表")
        || chars_are(l, "表")
        || (chars_end_with(l.as_slice(), "表") && !occurs_exec(l, "の表"))
        || (occurs_exec(l, "の表") && !(trow_one_exec(l) && !occurs_exec(l, "及び")))
}

/// The tables of several places, a position in a table (see [`po_table`]).
#[verifier::rlimit(60)]
fn po_table_exec(
    seg: &str,
    lp: &Option<String>,
    full: &String,
    rest: &str,
    ps: &Vec<String>,
    ante: &mut Ante,
) -> (r: Result<Option<Vec<Op>>, ParseError>)
    requires
        parts_read(seg@, *lp, *full),
    ensures
        read_as(r, final(ante)@, po_table(seg@, rest@, texts_view(ps@), old(ante)@)),
    decreases weight(seg@), 6int,
{
    proof {
        lemma_place_weight(seg@);
        reveal_strlit("の表");
    }
    let tl: Option<(Vec<char>, Vec<char>)> = match lp {
        Some(l) => {
            let lc = chars_of(l.as_str());
            let i = crate::locs::first_at_exec(&lc, "の表");
            proof {
                crate::phrase::lemma_first_at(lc@, "の表"@, 0);
            }
            if i < lc.len() {
                let pre = crate::text::slice_to(lc.as_slice(), i);
                proof {
                    lemma_sub_weight(lc@, 0, i as int);
                    assert(pre@ == lc@.subrange(0, i as int));
                }
                if occurs_exec(&pre, "及び") || holds_char(&pre, '、') {
                    Some((pre, crate::text::slice_from(lc.as_slice(), i + 2)))
                } else {
                    None
                }
            } else {
                None
            }
        },
        None => None,
    };
    match tl {
        Some((locs, rp)) => {
            let ls = string_of(locs.as_slice());
            match expand_locs(ls.as_str(), ante) {
                Err(e) => Err(e),
                Ok(ats) => {
                    let path = string_of(
                        crate::table::trim_start_chars(crate::table::trim_start_chars(rp, '中'), 'の').as_slice(),
                    );
                    let mut ts: Vec<TargetText> = Vec::new();
                    let mut i: usize = 0;
                    while i < ats.len()
                        invariant
                            i <= ats.len(),
                            ts@.len() == i,
                            forall|k: int|
                                0 <= k < i ==> (#[trigger] ts@[k])@ == Target::Table(
                                    TableRefModel::InArticle(ats@[k]@),
                                    path@,
                                ),
                        decreases ats.len() - i,
                    {
                        ts.push(TargetText::Table(TableRef::InArticle(ats[i].copy()), path.clone()));
                        i = i + 1;
                    }
                    assert(ts@.map_values(|t: TargetText| t@) =~= crate::locs::locs_view(ats@).map_values(
                        |at: LocModel| Target::Table(TableRefModel::InArticle(at), path@),
                    ));
                    match multi_ops_exec(&ts, rest, ps) {
                        None => Ok(None),
                        Some(v) => {
                            if ats.len() > 0 {
                                ante.tedit = Some((TableRef::InArticle(ats[ats.len() - 1].copy()), path));
                            }
                            Ok(Some(v))
                        },
                    }
                },
            }
        },
        None => {
            let generic: Result<Option<(TableRef, String)>, ParseError> = match lp {
                Some(l) => {
                    let lc = chars_of(l.as_str());
                    if table_place_exec(&lc, ante) {
                        split_table_target(l.as_str(), ante)
                    } else {
                        Ok(None)
                    }
                },
                None => Ok(crate::table::copy_target(&ante.tedit)),
            };
            match generic {
                Err(e) => Err(e),
                Ok(Some((tb, path))) => {
                    let v = tail_ops_exec(&TargetText::Table(tb.copy(), path.clone()), rest, ps);
                    ante.appdx = None;
                    ante.tedit = Some((tb, path));
                    Ok(v)
                },
                Ok(None) => po_honsoku_exec(seg, lp, full, rest, ps, ante),
            }
        },
    }
}


/// The rest after a place read again: `l`, `中` and the rest of the instruction.
fn again(l: &Vec<char>, full: &String) -> (r: String)
    ensures
        r@ == l@ + "中"@ + full@,
{
    let mut s = string_of(l.as_slice());
    push_str(&mut s, "中");
    push_str(&mut s, full.as_str());
    s
}

/// The main provisions and more places, the title (see [`po_honsoku`]).
#[verifier::rlimit(60)]
fn po_honsoku_exec(
    seg: &str,
    lp: &Option<String>,
    full: &String,
    rest: &str,
    ps: &Vec<String>,
    ante: &mut Ante,
) -> (r: Result<Option<Vec<Op>>, ParseError>)
    requires
        parts_read(seg@, *lp, *full),
    ensures
        read_as(r, final(ante)@, po_honsoku(seg@, rest@, texts_view(ps@), old(ante)@)),
    decreases weight(seg@), 5int,
{
    proof {
        reveal_strlit("本則及び");
        reveal_strlit("題名及び");
        reveal_strlit("題名");
    }
    let lc: Option<Vec<char>> = match lp {
        Some(l) => Some(chars_of(l.as_str())),
        None => None,
    };
    match &lc {
        Some(l) => {
            if has_at_start(l, "本則及び") {
                return match tail_ops_exec(&TargetText::All, rest, ps) {
                    None => Ok(None),
                    Some(v) => {
                        let s2 = again(&crate::text::slice_from(l.as_slice(), 4), full);
                        proof {
                            assert(l@.take(4) == "本則及び"@);
                            assert(!"本則及び"@.contains('、')) by {
                                assert forall|k: int| 0 <= k < 4 implies "本則及び"@[k] != '、' by {}
                            }
                            lemma_after_four(l@);
                            lemma_lighter(seg@, l@.skip(4));
                            lemma_weight_len(s2@);
                        }
                        combine_exec(v, phrase_op_in(s2.as_str(), ante))
                    },
                };
            }
        },
        None => {},
    }
    let title_and: Option<Vec<char>> = match &lc {
        Some(l) => if has_at_start(l, "題名及び") {
            Some(crate::text::slice_from(l.as_slice(), 4))
        } else {
            None
        },
        None => None,
    };
    let is_title = match &lc {
        Some(l) => chars_are(l, "題名"),
        None => ante.title,
    } || title_and.is_some();
    if is_title {
        match tail_ops_exec(&TargetText::Title, rest, ps) {
            None => Ok(None),
            Some(v) => match title_and {
                None => {
                    ante.title = true;
                    Ok(Some(v))
                },
                Some(l2) => {
                    ante.title = false;
                    let s2 = again(&l2, full);
                    proof {
                        let l = lc->0;
                        assert(l@.take(4) == "題名及び"@);
                        assert(!"題名及び"@.contains('、')) by {
                            assert forall|k: int| 0 <= k < 4 implies "題名及び"@[k] != '、' by {}
                        }
                        lemma_after_four(l@);
                        lemma_lighter(seg@, l@.skip(4));
                        lemma_weight_len(s2@);
                    }
                    combine_exec(v, phrase_op_in(s2.as_str(), ante))
                },
            },
        }
    } else {
        ante.title = false;
        po_toc_exec(seg, lp, full, rest, ps, ante)
    }
}

/// The table of contents (see [`po_toc`]).
fn po_toc_exec(
    seg: &str,
    lp: &Option<String>,
    full: &String,
    rest: &str,
    ps: &Vec<String>,
    ante: &mut Ante,
) -> (r: Result<Option<Vec<Op>>, ParseError>)
    requires
        parts_read(seg@, *lp, *full),
    ensures
        read_as(r, final(ante)@, po_toc(seg@, rest@, texts_view(ps@), old(ante)@)),
    decreases weight(seg@), 4int,
{
    let is_toc = match lp {
        Some(l) => {
            let lc = chars_of(l.as_str());
            chars_are(&lc, "目次") || (ante.toc && toc_divisions_exec(&lc))
        },
        None => ante.toc,
    };
    if is_toc {
        let v = tail_ops_below_exec(&TargetText::Toc, rest, ps);
        ante.toc = true;
        Ok(v)
    } else {
        po_scope_exec(seg, lp, full, rest, ps, ante)
    }
}

/// The scope that a place names (see [`scope_of`]).
fn scope_of_exec(lp: &Option<String>, ante: &mut Ante) -> (r: Result<Option<(Vec<(ContainerKind, String)>, Vec<Loc>)>, ParseError>)
    ensures
        match scope_of(opt_text(*lp), old(ante)@) {
            Ok((o, a)) => r is Ok && final(ante)@ == a && match o {
                Some((p, e)) => r->Ok_0 matches Some((x, y)) && path_view(x@) == p && crate::locs::locs_view(y@) == e,
                None => r->Ok_0 is None,
            },
            Err(e) => r is Err && error_is(r->Err_0, e),
        },
{
    match lp {
        Some(l) => {
            let lc = chars_of(l.as_str());
            match cont_form_exec(&lc) {
                Some((e, ex)) => {
                    let pathc = crate::text::slice_to(lc.as_slice(), e);
                    if !chars_are(&pathc, "本則") || ex.is_some() {
                        let path = crate::locs::container_path(&pathc);
                        match ex {
                            Some((x0, x1)) => {
                                proof {
                                    lemma_sub_weight(lc@, x0 as int, x1 as int);
                                }
                                let xs = string_of(crate::text::slice_range(lc.as_slice(), x0, x1).as_slice());
                                match expand_locs(xs.as_str(), ante) {
                                    Err(e) => Err(e),
                                    Ok(ls) => Ok(Some((path, ls))),
                                }
                            },
                            None => Ok(Some((path, Vec::new()))),
                        }
                    } else {
                        Ok(None)
                    }
                },
                None => Ok(None),
            }
        },
        None => Ok(
            match &ante.scope {
                Some((p, e)) => Some((copy_path(p), crate::locs::copy_loc_list(e))),
                None => None,
            },
        ),
    }
}

/// A division with places left out (see [`po_scope`]).
#[verifier::rlimit(60)]
fn po_scope_exec(
    seg: &str,
    lp: &Option<String>,
    full: &String,
    rest: &str,
    ps: &Vec<String>,
    ante: &mut Ante,
) -> (r: Result<Option<Vec<Op>>, ParseError>)
    requires
        parts_read(seg@, *lp, *full),
    ensures
        read_as(r, final(ante)@, po_scope(seg@, rest@, texts_view(ps@), old(ante)@)),
    decreases weight(seg@), 3int,
{
    proof {
        lemma_place_weight(seg@);
    }
    let sc = scope_of_exec(lp, ante);
    match sc {
        Err(e) => Err(e),
        Ok(Some((path, except))) => {
            let v = tail_ops_exec(&TargetText::InContainer(copy_path(&path), copy_locs(&except)), rest, ps);
            if path.len() > 0 {
                ante.container = copy_path(&path);
            }
            ante.article = None;
            ante.scope = Some((path, except));
            Ok(v)
        },
        Ok(None) => po_whole_exec(seg, lp, full, rest, ps, ante),
    }
}

/// The whole main provisions, the table of a place (see [`po_whole`]).
fn po_whole_exec(
    seg: &str,
    lp: &Option<String>,
    full: &String,
    rest: &str,
    ps: &Vec<String>,
    ante: &mut Ante,
) -> (r: Result<Option<Vec<Op>>, ParseError>)
    requires
        parts_read(seg@, *lp, *full),
    ensures
        read_as(r, final(ante)@, po_whole(seg@, rest@, texts_view(ps@), old(ante)@)),
    decreases weight(seg@), 2int,
{
    proof {
        lemma_place_weight(seg@);
        reveal_strlit("の項");
    }
    let whole = match lp {
        Some(l) => str_eq(l.as_str(), "本則"),
        None => ante.fresh || ante.whole,
    };
    if whole {
        let v = tail_ops_below_exec(&TargetText::All, rest, ps);
        ante.article = None;
        ante.whole = true;
        return Ok(v);
    }
    match lp {
        Some(l) => {
            let lc = chars_of(l.as_str());
            match trow_exec(&lc) {
                Some(i) => {
                    proof {
                        lemma_sub_weight(lc@, 0, i as int);
                    }
                    let pl = string_of(crate::text::slice_to(lc.as_slice(), i).as_slice());
                    let rr = crate::text::slice_from(lc.as_slice(), i + 2);
                    let (row, path) = if rr.len() == 0 {
                        (String::new(), String::new())
                    } else {
                        let r0 = string_of(crate::text::slice_to(rr.as_slice(), rr.len() - 2).as_slice());
                        let mut p = r0.clone();
                        push_str(&mut p, "の項");
                        (r0, p)
                    };
                    match loc(pl.as_str(), ante) {
                        Err(e) => Err(e),
                        Ok(at) => {
                            let v = tail_ops_exec(&TargetText::TableRow(at.copy(), row), rest, ps);
                            ante.tedit = Some((TableRef::InArticle(at), path));
                            Ok(v)
                        },
                    }
                },
                None => po_places_exec(seg, lp, full, rest, ps, ante),
            }
        },
        None => po_places_exec(seg, lp, full, rest, ps, ante),
    }
}


/// The kinds `a` and `b` are the same.
fn same_kind_exec(a: ContainerKind, b: ContainerKind) -> (r: bool)
    ensures
        r == (a == b),
{
    match (a, b) {
        (ContainerKind::Part, ContainerKind::Part) => true,
        (ContainerKind::Chapter, ContainerKind::Chapter) => true,
        (ContainerKind::Section, ContainerKind::Section) => true,
        (ContainerKind::Subsection, ContainerKind::Subsection) => true,
        (ContainerKind::Division, ContainerKind::Division) => true,
        _ => false,
    }
}

/// The divisions before, up to the first of the kind `k` (see [`ante_upto`]).
fn ante_upto_exec(c: &Vec<(ContainerKind, String)>, k: ContainerKind) -> (r: Vec<(ContainerKind, String)>)
    ensures
        path_view(r@) == ante_upto(path_view(c@), k),
{
    let ghost cv = path_view(c@);
    let mut out: Vec<(ContainerKind, String)> = Vec::new();
    let mut i: usize = 0;
    assert(cv.skip(0) =~= cv);
    assert(path_view(out@) + ante_upto(cv.skip(0), k) =~= ante_upto(cv, k));
    while i < c.len()
        invariant
            i <= c.len(),
            cv == path_view(c@),
            path_view(out@) + ante_upto(cv.skip(i as int), k) == ante_upto(cv, k),
        decreases c.len() - i,
    {
        let kind = c[i].0;
        let name = c[i].1.clone();
        let ghost before = path_view(out@);
        out.push((kind, name));
        assert(path_view(out@) =~= before.push(cv[i as int]));
        let ghost tail = cv.skip(i as int);
        assert(tail[0] == cv[i as int]);
        assert(tail.drop_first() =~= cv.skip(i + 1));
        if same_kind_exec(kind, k) {
            assert(ante_upto(tail, k) == seq![cv[i as int]]);
            return out;
        }
        assert(ante_upto(tail, k) == seq![cv[i as int]] + ante_upto(cv.skip(i + 1), k));
        assert(path_view(out@) + ante_upto(cv.skip(i + 1), k) =~= before + (seq![cv[i as int]]
            + ante_upto(cv.skip(i + 1), k)));
        i = i + 1;
    }
    assert(ante_upto(cv.skip(i as int), k) =~= Seq::<(ContainerKind, Seq<char>)>::empty());
    assert(path_view(out@) + Seq::<(ContainerKind, Seq<char>)>::empty() =~= path_view(out@));
    out
}

/// The path of the divisions of a title (see [`title_path`]).
fn title_path_exec(base: &Vec<char>, ante: &Ante) -> (r: Result<Vec<(ContainerKind, String)>, ParseError>)
    ensures
        match title_path(base@, ante@) {
            Ok(p) => r is Ok && path_view(r->Ok_0@) == p,
            Err(e) => r is Err && error_is(r->Err_0, e),
        },
{
    proof {
        reveal_strlit("同");
    }
    if has_at_start(base, "同") {
        if base.len() == 1 {
            return Err(ParseError::Unrecognized(string_of(base.as_slice())));
        }
        let mut p = ante_upto_exec(&ante.container, crate::locs::kind_exec(base[1]));
        let r1 = crate::text::slice_from(base.as_slice(), 1);
        let r2 = crate::text::slice_from(base.as_slice(), 2);
        assert(r2@ == r1@.skip(1));
        let mut q = crate::locs::container_path(&r2);
        let ghost pv = path_view(p@);
        let ghost qv = path_view(q@);
        p.append(&mut q);
        assert(path_view(p@) =~= pv + qv);
        Ok(p)
    } else {
        Ok(crate::locs::container_path(base))
    }
}

/// The articles whose captions are marked (see [`caption_arts`]).
fn caption_arts_exec(toks: &Vec<Vec<char>>, ante: &Ante) -> (r: Result<Vec<ArticleNum>, ParseError>)
    ensures
        match caption_arts(crate::text::seqs_of(toks@), ante@) {
            Ok(v) => r is Ok && r->Ok_0@.map_values(|x: ArticleNum| x@) == v,
            Err(e) => r is Err && error_is(r->Err_0, e),
        },
{
    proof {
        reveal_strlit("（見出しを含む。）");
    }
    let ghost tv = crate::text::seqs_of(toks@);
    let mut out: Vec<ArticleNum> = Vec::new();
    let mut i: usize = 0;
    assert(tv.take(0) =~= Seq::<Seq<char>>::empty());
    assert(out@.map_values(|x: ArticleNum| x@) =~= Seq::<ArticleNumModel>::empty());
    while i < toks.len()
        invariant
            i <= toks.len(),
            tv == crate::text::seqs_of(toks@),
            caption_arts(tv.take(i as int), ante@) == Ok::<Seq<ArticleNumModel>, PlaceError>(
                out@.map_values(|x: ArticleNum| x@),
            ),
        decreases toks.len() - i,
    {
        assert(tv.take(i + 1).drop_last() =~= tv.take(i as int));
        assert(tv.take(i + 1).last() == toks@[i as int]@);
        proof {
            reveal_strlit("（見出しを含む。）");
        }
        let t = &toks[i];
        if chars_end_with(t.as_slice(), "（見出しを含む。）") {
            let base = string_of(crate::text::slice_to(t.as_slice(), t.len() - 9).as_slice());
            let mut probe = ante.copy();
            match loc(base.as_str(), &mut probe) {
                Err(e) => {
                    proof {
                        lemma_caption_arts_stops(tv, ante@, i + 1);
                    }
                    return Err(e);
                },
                Ok(l) => {
                    let ghost before = out@.map_values(|x: ArticleNum| x@);
                    out.push(l.article);
                    assert(out@.map_values(|x: ArticleNum| x@) =~= before.push(l@.article));
                },
            }
        }
        i = i + 1;
    }
    assert(tv.take(toks.len() as int) =~= tv);
    Ok(out)
}

/// Once a marked article cannot be read, the list is not read.
proof fn lemma_caption_arts_stops(toks: Seq<Seq<char>>, a: AnteModel, k: int)
    requires
        1 <= k <= toks.len(),
        caption_arts(toks.take(k), a) is Err,
    ensures
        caption_arts(toks, a) == caption_arts(toks.take(k), a),
    decreases toks.len() - k,
{
    if k < toks.len() {
        assert(toks.take(k + 1).drop_last() =~= toks.take(k));
        lemma_caption_arts_stops(toks, a, k + 1);
    } else {
        assert(toks.take(k) =~= toks);
    }
}

/// The members read in turn (see [`extras`]).
fn extras_exec(toks: &Vec<Vec<char>>, ante: &mut Ante) -> (r: Result<(Vec<TargetText>, Vec<Vec<char>>), ParseError>)
    ensures
        match extras(crate::text::seqs_of(toks@), toks@.len() as int, old(ante)@) {
            Ok((ts, rs, a)) => r matches Ok((x, y)) && x@.map_values(|t: TargetText| t@) == ts
                && crate::text::seqs_of(y@) == rs && final(ante)@ == a,
            Err(e) => r is Err && error_is(r->Err_0, e),
        },
{
    proof {
        reveal_strlit("の章名");
        reveal_strlit("の節名");
        reveal_strlit("の款名");
        reveal_strlit("の編名");
        reveal_strlit("の目名");
        reveal_strlit("の前の見出し");
        reveal_strlit("の見出し");
    }
    let ghost tv = crate::text::seqs_of(toks@);
    let ghost a0 = ante@;
    let mut ts: Vec<TargetText> = Vec::new();
    let mut rs: Vec<Vec<char>> = Vec::new();
    let mut i: usize = 0;
    assert(ts@.map_values(|t: TargetText| t@) =~= Seq::<Target>::empty());
    assert(crate::text::seqs_of(rs@) =~= Seq::<Seq<char>>::empty());
    while i < toks.len()
        invariant
            i <= toks.len(),
            tv == crate::text::seqs_of(toks@),
            a0 == old(ante)@,
            extras(tv, i as int, a0) == Ok::<(Seq<Target>, Seq<Seq<char>>, AnteModel), PlaceError>(
                (ts@.map_values(|t: TargetText| t@), crate::text::seqs_of(rs@), ante@),
            ),
        decreases toks.len() - i,
    {
        proof {
            reveal_strlit("の章名");
            reveal_strlit("の節名");
            reveal_strlit("の款名");
            reveal_strlit("の編名");
            reveal_strlit("の目名");
            reveal_strlit("の前の見出し");
            reveal_strlit("の見出し");
            reveal_strlit("目次");
        }
        let t = &toks[i];
        assert(tv[i as int] == t@);
        let ghost tsv = ts@.map_values(|t: TargetText| t@);
        let ghost rsv = crate::text::seqs_of(rs@);
        if chars_are(t, "目次") {
            ts.push(TargetText::Toc);
            assert(ts@.map_values(|t: TargetText| t@) =~= tsv.push(Target::Toc));
        } else if chars_end_with(t.as_slice(), "の章名") || chars_end_with(t.as_slice(), "の節名")
            || chars_end_with(t.as_slice(), "の款名") || chars_end_with(t.as_slice(), "の編名")
            || chars_end_with(t.as_slice(), "の目名") {
            let base = crate::text::slice_to(t.as_slice(), t.len() - 3);
            match title_path_exec(&base, ante) {
                Err(e) => {
                    proof {
                        lemma_extras_stops(tv, a0, i + 1);
                    }
                    return Err(e);
                },
                Ok(path) => {
                    ts.push(TargetText::ContainerTitle(copy_path(&path)));
                    assert(ts@.map_values(|t: TargetText| t@) =~= tsv.push(Target::ContainerTitle(path_view(path@))));
                    ante.container = path;
                },
            }
        } else if chars_end_with(t.as_slice(), "の前の見出し") || chars_end_with(t.as_slice(), "の見出し") {
            let n: usize = if chars_end_with(t.as_slice(), "の前の見出し") {
                6
            } else {
                4
            };
            let base = string_of(crate::text::slice_to(t.as_slice(), t.len() - n).as_slice());
            match loc(base.as_str(), ante) {
                Err(e) => {
                    proof {
                        lemma_extras_stops(tv, a0, i + 1);
                    }
                    return Err(e);
                },
                Ok(l) => {
                    let ghost lv = l@;
                    ts.push(TargetText::Caption(l));
                    assert(ts@.map_values(|t: TargetText| t@) =~= tsv.push(Target::Caption(lv)));
                },
            }
        } else {
            rs.push(t.clone());
            assert(crate::text::seqs_of(rs@) =~= rsv.push(t@));
        }
        i = i + 1;
    }
    assert(toks@.len() == i);
    Ok((ts, rs))
}

/// Once a member cannot be read, the list is not read.
proof fn lemma_extras_stops(toks: Seq<Seq<char>>, a: AnteModel, k: int)
    requires
        1 <= k <= toks.len(),
        extras(toks, k, a) is Err,
    ensures
        extras(toks, toks.len() as int, a) == extras(toks, k, a),
    decreases toks.len() - k,
{
    if k < toks.len() {
        lemma_extras_stops(toks, a, k + 1);
    }
}

/// Whether a list of places names the table of contents, titles or captions (see
/// [`names_extras`]).
fn names_extras_exec(l: &Vec<char>) -> (r: bool)
    ensures
        r == names_extras(l@),
{
    (occurs_exec(l, "及び") || holds_char(l, '、') || occurs_exec(l, "並びに")) && (occurs_exec(l, "目次")
        || holds_char(l, '名') || occurs_exec(l, "見出し"))
}

/// The texts joined by `及び` (see [`join_and`]).
fn join_and_exec(v: &Vec<Vec<char>>) -> (r: Vec<char>)
    ensures
        r@ == join_and(crate::text::seqs_of(v@)),
{
    let ghost sv = crate::text::seqs_of(v@);
    let mut out: Vec<char> = Vec::new();
    let mut i: usize = 0;
    assert(sv.take(0) =~= Seq::<Seq<char>>::empty());
    while i < v.len()
        invariant
            i <= v.len(),
            sv == crate::text::seqs_of(v@),
            out@ == join_and(sv.take(i as int)),
        decreases v.len() - i,
    {
        assert(sv.take(i + 1).drop_last() =~= sv.take(i as int));
        assert(sv.take(i + 1).last() == v@[i as int]@);
        let ghost before = out@;
        if i > 0 {
            out.push('及');
            out.push('び');
        }
        let mut k: usize = 0;
        let ghost mid = out@;
        while k < v[i].len()
            invariant
                i < v.len(),
                k <= v@[i as int]@.len(),
                out@ == mid + v@[i as int]@.take(k as int),
            decreases v@[i as int]@.len() - k,
        {
            out.push(v[i][k]);
            assert(v@[i as int]@.take(k + 1) =~= v@[i as int]@.take(k as int).push(v@[i as int]@[k as int]));
            k = k + 1;
        }
        assert(v@[i as int]@.take(k as int) =~= v@[i as int]@);
        proof {
            reveal_strlit("及び");
            if i > 0 {
                assert(mid =~= before + "及び"@);
            } else {
                assert(before =~= Seq::<char>::empty());
                assert(sv.take(1) =~= seq![sv[0]]);
                assert(mid =~= before);
            }
        }
        i = i + 1;
    }
    assert(sv.take(v.len() as int) =~= sv);
    out
}


/// The optional text, by value.
pub open spec fn opt_chars(o: Option<Vec<char>>) -> Option<Seq<char>> {
    match o {
        Some(v) => Some(v@),
        None => None,
    }
}

/// Captions, titles and places (see [`po_places`]).
#[verifier::rlimit(60)]
fn po_places_exec(
    seg: &str,
    lp: &Option<String>,
    full: &String,
    rest: &str,
    ps: &Vec<String>,
    ante: &mut Ante,
) -> (r: Result<Option<Vec<Op>>, ParseError>)
    requires
        parts_read(seg@, *lp, *full),
    ensures
        read_as(r, final(ante)@, po_places(seg@, rest@, texts_view(ps@), old(ante)@)),
    decreases weight(seg@), 1int,
{
    proof {
        reveal_strlit("（見出しを含む。）");
        lemma_place_weight(seg@);
    }
    let lc0: Option<Vec<char>> = match lp {
        Some(l) => Some(chars_of(l.as_str())),
        None => None,
    };
    let with_caption = match &lc0 {
        Some(l) => chars_end_with(l.as_slice(), "（見出しを含む。）"),
        None => false,
    };
    let lp1: Option<Vec<char>> = match lc0 {
        Some(l) => if with_caption {
            Some(crate::text::slice_to(l.as_slice(), l.len() - 9))
        } else {
            Some(l)
        },
        None => None,
    };
    assert(opt_chars(lp1) == lp1_of(seg@));
    let mut caps: Vec<ArticleNum> = Vec::new();
    let lp2: Option<Vec<char>> = match lp1 {
        Some(l) => {
            proof {
                lemma_sub_weight(lp_of(seg@)->0, 0, l@.len() as int);
            }
            if occurs_exec(&l, "（見出しを含む。）") {
                let toks = crate::locs::list_items_of(&l);
                match caption_arts_exec(&toks, ante) {
                    Err(e) => {
                        return Err(e);
                    },
                    Ok(c) => {
                        caps = c;
                    },
                }
                let y = crate::rewrite::replace_all(&l, "（見出しを含む。）", "");
                proof {
                    reveal_strlit("");
                    assert(""@ =~= Seq::<char>::empty());
                    lemma_weight_remove(l@, "（見出しを含む。）"@, 0);
                    assert(l@.skip(0) =~= l@);
                    lemma_weight_len(y@);
                    lemma_weight_len(l@);
                }
                Some(y)
            } else {
                Some(l)
            }
        },
        None => None,
    };
    assert(opt_chars(lp2) == lp2_of(seg@));
    match &lp2 {
        Some(l) => {
            if names_extras_exec(l) {
                let toks = crate::locs::list_items_of(l);
                let ghost a0 = ante@;
                match extras_exec(&toks, ante) {
                    Err(e) => {
                        return Err(e);
                    },
                    Ok((ts, rs)) => {
                        if ts.len() == 0 {
                            return po_ats_exec(seg, &lp2, with_caption, &caps, rest, ps, ante);
                        }
                        match multi_ops_exec(&ts, rest, ps) {
                            None => {
                                return Ok(None);
                            },
                            Some(v) => {
                                if rs.len() == 0 {
                                    return Ok(Some(v));
                                }
                                let joined = join_and_exec(&rs);
                                let s2 = again(&joined, full);
                                proof {
                                    lemma_extra_lighter(seg@, a0);
                                    lemma_weight_len(s2@);
                                }
                                return combine_exec(v, phrase_op_in(s2.as_str(), ante));
                            },
                        }
                    },
                }
            }
        },
        None => {},
    }
    po_ats_exec(seg, &lp2, with_caption, &caps, rest, ps, ante)
}

/// Each phrase at each place, made as `k` says (see [`cross_at`], [`at_kind`]).
fn cross_at_exec(ats: &Vec<Loc>, ps: &Vec<String>, k: u8, b: &String) -> (r: Vec<Op>)
    ensures
        phrase_ops_view(r@) == cross_at(crate::locs::locs_view(ats@), texts_view(ps@), at_kind(k as int, b@)),
{
    let ghost av = crate::locs::locs_view(ats@);
    let ghost pv = texts_view(ps@);
    let ghost f = at_kind(k as int, b@);
    let mut out: Vec<Op> = Vec::new();
    let mut i: usize = 0;
    assert(av.take(0) =~= Seq::<LocModel>::empty());
    assert(phrase_ops_view(out@) =~= Seq::<PhraseOpModel>::empty());
    while i < ats.len()
        invariant
            i <= ats.len(),
            av == crate::locs::locs_view(ats@),
            pv == texts_view(ps@),
            f == at_kind(k as int, b@),
            phrase_ops_view(out@) == cross_at(av.take(i as int), pv, f),
        decreases ats.len() - i,
    {
        let ghost base = phrase_ops_view(out@);
        let mut j: usize = 0;
        assert(base + pv.take(0).map_values(|p: Seq<char>| f(av[i as int], p)) =~= base);
        while j < ps.len()
            invariant
                j <= ps.len(),
                i < ats.len(),
                av == crate::locs::locs_view(ats@),
                pv == texts_view(ps@),
                f == at_kind(k as int, b@),
                phrase_ops_view(out@) == base + pv.take(j as int).map_values(|p: Seq<char>| f(av[i as int], p)),
            decreases ps.len() - j,
        {
            let at = ats[i].copy();
            let p = ps[j].clone();
            let op = if k == 0 {
                Op::Replace { at, from: p, to: String::new() }
            } else if k == 1 {
                Op::Replace { at, from: p, to: b.clone() }
            } else if k == 2 {
                Op::ReplaceCaption { article: at.article, from: p, to: b.clone() }
            } else if k == 3 {
                let mut t = b.clone();
                push_str(&mut t, ps[j].as_str());
                Op::Replace { at, from: p, to: t }
            } else {
                Op::InsertAfterPhrase { at, anchor: p, text: b.clone() }
            };
            assert(crate::phrase::phrase_op_view(op) == f(av[i as int], pv[j as int]));
            let ghost prev = phrase_ops_view(out@);
            out.push(op);
            assert(phrase_ops_view(out@) =~= prev.push(f(av[i as int], pv[j as int])));
            assert(pv.take(j + 1).map_values(|p: Seq<char>| f(av[i as int], p)) =~= pv.take(
                j as int,
            ).map_values(|p: Seq<char>| f(av[i as int], p)).push(f(av[i as int], pv[j as int])));
            j = j + 1;
        }
        assert(pv.take(ps.len() as int) =~= pv);
        assert(av.take(i + 1).drop_last() =~= av.take(i as int));
        assert(av.take(i + 1).last() == av[i as int]);
        i = i + 1;
    }
    assert(av.take(ats.len() as int) =~= av);
    out
}

/// Each phrase of the caption of each article, deleted (see [`cross_captions`]).
fn cross_captions_exec(arts: &Vec<ArticleNum>, ps: &Vec<String>) -> (r: Vec<Op>)
    ensures
        phrase_ops_view(r@) == cross_captions(arts@.map_values(|x: ArticleNum| x@), texts_view(ps@)),
{
    let ghost av = arts@.map_values(|x: ArticleNum| x@);
    let ghost pv = texts_view(ps@);
    let mut out: Vec<Op> = Vec::new();
    let mut i: usize = 0;
    assert(av.take(0) =~= Seq::<ArticleNumModel>::empty());
    assert(phrase_ops_view(out@) =~= Seq::<PhraseOpModel>::empty());
    while i < arts.len()
        invariant
            i <= arts.len(),
            av == arts@.map_values(|x: ArticleNum| x@),
            pv == texts_view(ps@),
            phrase_ops_view(out@) == cross_captions(av.take(i as int), pv),
        decreases arts.len() - i,
    {
        let ghost base = phrase_ops_view(out@);
        let ghost g = |p: Seq<char>|
            PhraseOpModel::Caption { article: av[i as int], from: p, to: Seq::<char>::empty() };
        let mut j: usize = 0;
        assert(base + pv.take(0).map_values(g) =~= base);
        while j < ps.len()
            invariant
                j <= ps.len(),
                i < arts.len(),
                av == arts@.map_values(|x: ArticleNum| x@),
                pv == texts_view(ps@),
                g == (|p: Seq<char>|
                    PhraseOpModel::Caption { article: av[i as int], from: p, to: Seq::<char>::empty() }),
                phrase_ops_view(out@) == base + pv.take(j as int).map_values(g),
            decreases ps.len() - j,
        {
            let op = Op::ReplaceCaption { article: arts[i].copy(), from: ps[j].clone(), to: String::new() };
            let ghost prev = phrase_ops_view(out@);
            out.push(op);
            assert(phrase_ops_view(out@) =~= prev.push(g(pv[j as int])));
            assert(pv.take(j + 1).map_values(g) =~= pv.take(j as int).map_values(g).push(g(pv[j as int])));
            j = j + 1;
        }
        assert(pv.take(ps.len() as int) =~= pv);
        assert(av.take(i + 1).drop_last() =~= av.take(i as int));
        assert(av.take(i + 1).last() == av[i as int]);
        assert(pv.map_values(g) =~= pv.map_values(
            |p: Seq<char>| PhraseOpModel::Caption { article: av.take(i + 1).last(), from: p, to: Seq::empty() },
        ));
        i = i + 1;
    }
    assert(av.take(arts.len() as int) =~= av);
    out
}

/// The operations at the places (see [`at_ops`]).
fn at_ops_exec(ats: &Vec<Loc>, wc: bool, caps: &Vec<ArticleNum>, rest: &str, ps: &Vec<String>) -> (r: Option<Vec<Op>>)
    ensures
        opt_ops_view(r) == at_ops(
            crate::locs::locs_view(ats@),
            wc,
            caps@.map_values(|x: ArticleNum| x@),
            rest@,
            texts_view(ps@),
        ),
{
    proof {
        reveal_strlit("を");
        reveal_strlit("の上に");
        reveal_strlit("の下に");
    }
    let empty = String::new();
    if crate::text::starts_with_str(rest, "を") {
        let r = string_of(crate::text::slice_from(chars_of(rest).as_slice(), 1).as_slice());
        if str_eq(r.as_str(), "削り") || str_eq(r.as_str(), "削る") {
            let mut v = cross_captions_exec(caps, ps);
            let ghost vv = phrase_ops_view(v@);
            let mut w = cross_at_exec(ats, ps, 0, &empty);
            assert(empty@ =~= Seq::<char>::empty());
            let ghost wv = phrase_ops_view(w@);
            let ghost v0 = v@;
            let ghost w0 = w@;
            v.append(&mut w);
            assert(phrase_ops_view(v@) =~= phrase_ops_view(v0) + phrase_ops_view(w0));
            return Some(v);
        }
        return match take_quoted(r.as_str()) {
            Some((b, t)) => {
                if str_eq(t, "に") || str_eq(t, "に改め") || str_eq(t, "に改める") {
                    let mut v: Vec<Op> = if wc {
                        cross_at_exec(ats, ps, 2, &b)
                    } else {
                        Vec::new()
                    };
                    let mut w = cross_at_exec(ats, ps, 1, &b);
                    let ghost v0 = v@;
                    let ghost w0 = w@;
                    v.append(&mut w);
                    assert(phrase_ops_view(v@) =~= phrase_ops_view(v0) + phrase_ops_view(w0));
                    if !wc {
                        assert(phrase_ops_view(v0) =~= Seq::<PhraseOpModel>::empty());
                    }
                    Some(v)
                } else {
                    None
                }
            },
            None => None,
        };
    }
    if crate::text::starts_with_str(rest, "の上に") {
        let r = string_of(crate::text::slice_from(chars_of(rest).as_slice(), 3).as_slice());
        return match take_quoted(r.as_str()) {
            Some((b, t)) => {
                if str_eq(t, "を") || str_eq(t, "を加え") || str_eq(t, "を加える") {
                    Some(cross_at_exec(ats, ps, 3, &b))
                } else {
                    None
                }
            },
            None => None,
        };
    }
    if crate::text::starts_with_str(rest, "の下に") {
        let r = string_of(crate::text::slice_from(chars_of(rest).as_slice(), 3).as_slice());
        return match take_quoted(r.as_str()) {
            Some((b, t)) => {
                if str_eq(t, "を") || str_eq(t, "を加え") || str_eq(t, "を加える") {
                    Some(cross_at_exec(ats, ps, 4, &b))
                } else {
                    None
                }
            },
            None => None,
        };
    }
    None
}

/// The places (see [`po_ats`]).
fn po_ats_exec(
    seg: &str,
    lp2: &Option<Vec<char>>,
    wc: bool,
    caps: &Vec<ArticleNum>,
    rest: &str,
    ps: &Vec<String>,
    ante: &mut Ante,
) -> (r: Result<Option<Vec<Op>>, ParseError>)
    ensures
        read_as(
            r,
            final(ante)@,
            po_ats(seg@, opt_chars(*lp2), wc, caps@.map_values(|x: ArticleNum| x@), rest@, texts_view(ps@), old(ante)@),
        ),
{
    let ats: Vec<Loc> = match lp2 {
        Some(l) => {
            let ls = string_of(l.as_slice());
            if occurs_exec(l, "及び") || holds_char(l, '、') || occurs_exec(l, "まで") {
                match expand_locs(ls.as_str(), ante) {
                    Err(e) => {
                        return Err(e);
                    },
                    Ok(v) => {
                        ante.locs = crate::locs::copy_loc_list(&v);
                        v
                    },
                }
            } else {
                match loc(ls.as_str(), ante) {
                    Err(e) => {
                        return Err(e);
                    },
                    Ok(at) => {
                        let v = vec![at];
                        assert(crate::locs::locs_view(v@) =~= seq![v@[0]@]);
                        v
                    },
                }
            }
        },
        None => {
            if ante.locs.len() > 1 {
                crate::locs::copy_loc_list(&ante.locs)
            } else {
                match ante_loc(ante, seg) {
                    Err(e) => {
                        return Err(e);
                    },
                    Ok(at) => {
                        let v = vec![at];
                        assert(crate::locs::locs_view(v@) =~= seq![v@[0]@]);
                        v
                    },
                }
            }
        },
    };
    Ok(at_ops_exec(&ats, wc, caps, rest, ps))
}

/// Reads a phrase instruction of a bounded weight (see [`spec_phrase_op`]).
fn phrase_op_in(seg: &str, ante: &mut Ante) -> (r: Result<Option<Vec<Op>>, ParseError>)
    ensures
        read_as(r, final(ante)@, spec_phrase_op(seg@, old(ante)@)),
    decreases weight(seg@), 10int,
{
    match crate::phrase::seg_parts_exec(seg) {
        None => Ok(None),
        Some((lp, full)) => match take_quoted(full.as_str()) {
            None => Ok(None),
            Some((q, r1)) => {
                let (more, rest) = crate::phrase::phrase_list_exec(r1.to_string());
                let mut ps: Vec<String> = vec![q];
                let ghost qv = q@;
                let ghost mv = texts_view(more@);
                let mut more = more;
                ps.append(&mut more);
                assert(texts_view(ps@) =~= seq![qv] + mv);
                po_appdx_exec(seg, &lp, &full, rest.as_str(), &ps, ante)
            },
        },
    }
}

/// A text weighs at most twice its length.
pub proof fn lemma_weight_double(s: Seq<char>)
    ensures
        weight(s) <= 2 * s.len(),
    decreases s.len(),
{
    if s.len() > 0 {
        lemma_weight_double(s.drop_last());
    }
}

/// Reads a phrase instruction after the places `ante` (see [`spec_phrase_op`]), and
/// leaves its places for the next.
pub fn parse_phrase_op(seg: &str, ante: &mut Ante) -> (r: Result<Option<Vec<Op>>, ParseError>)
    ensures
        read_as(r, final(ante)@, spec_phrase_op(seg@, old(ante)@)),
{
    proof {
        lemma_weight_double(seg@);
    }
    phrase_op_in(seg, ante)
}

} // verus!
