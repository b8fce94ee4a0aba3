//! Reading phrase instructions (`第七条中「A」を「B」に改め`, `「A」の下に「B」を加え`,
//! `「A」を削り`) into operations, after the places read before them.

use vstd::prelude::*;
use crate::article_num::ArticleNumModel;
use crate::locs::{
    Ante, AnteModel, PlaceError, error_is, first_at, first_at_exec, item_string, loc, opt_item_text,
    spec_loc,
};
use crate::op::{
    CaptionEdit, ContainerKind, Loc, LocModel, Op, ParaRef, TableAction, TableRefModel, copy_text,
    opt_text, path_view,
};
use crate::parse::{ParseError, lemma_take_quoted_len, spec_take_quoted, take_quoted};
use crate::text::{chars_end_with, chars_of, ends_with, has_at, push_str, starts_with, str_eq, string_of};

verus! {

/// What an operation on phrases does, by value: the phrase `from` becomes `to` (or the
/// text `text` follows the phrase `anchor`) at a place.
pub enum PhraseOpModel {
    /// In the table of contents.
    Toc { from: Seq<char>, to: Seq<char> },
    /// In the whole main provisions.
    All { from: Seq<char>, to: Seq<char> },
    /// In the title.
    Title { from: Seq<char>, to: Seq<char> },
    /// At a place.
    At { at: LocModel, from: Seq<char>, to: Seq<char> },
    /// Text after a phrase at a place.
    After { at: LocModel, anchor: Seq<char>, text: Seq<char> },
    /// In the caption of an article.
    Caption { article: ArticleNumModel, from: Seq<char>, to: Seq<char> },
    /// In the caption of a paragraph.
    ParaCaption { at: LocModel, from: Seq<char>, to: Seq<char> },
    /// In the title of a division.
    ContainerTitle { path: Seq<(ContainerKind, Seq<char>)>, from: Seq<char>, to: Seq<char> },
    /// In a division (the main provisions when `path` is empty), places left out.
    InContainer {
        path: Seq<(ContainerKind, Seq<char>)>,
        except: Seq<LocModel>,
        from: Seq<char>,
        to: Seq<char>,
    },
    /// In the note of an article.
    Note { article: ArticleNumModel, from: Seq<char>, to: Seq<char> },
    /// In an amending provision.
    InAmendment { article: ArticleNumModel, target: Seq<char>, from: Seq<char>, to: Seq<char> },
    /// At a position in a table.
    Table { table: TableRefModel, path: Seq<char>, from: Seq<char>, to: Seq<char> },
    /// In a row of a table in an article.
    TableRow { at: LocModel, row: Seq<char>, from: Seq<char>, to: Seq<char> },
    /// In a row (and sub-item) of an appended table.
    AppdxRow {
        table: Seq<char>,
        row: Seq<char>,
        sub: Option<Seq<char>>,
        from: Seq<char>,
        to: Seq<char>,
    },
    /// The operation on the original supplementary provisions.
    InSuppl(Box<PhraseOpModel>),
    /// Anything else.
    Other,
}

/// The value of an operation on phrases.
pub open spec fn phrase_op_view(op: Op) -> PhraseOpModel
    decreases op,
{
    match op {
        Op::ReplaceToc { from, to } => PhraseOpModel::Toc { from: from@, to: to@ },
        Op::ReplaceAll { from, to } => PhraseOpModel::All { from: from@, to: to@ },
        Op::ReplaceTitle { from, to } => PhraseOpModel::Title { from: from@, to: to@ },
        Op::Replace { at, from, to } => PhraseOpModel::At { at: at@, from: from@, to: to@ },
        Op::InsertAfterPhrase { at, anchor, text } => PhraseOpModel::After {
            at: at@,
            anchor: anchor@,
            text: text@,
        },
        Op::ReplaceCaption { article, from, to } => PhraseOpModel::Caption {
            article: article@,
            from: from@,
            to: to@,
        },
        Op::ParagraphCaption { at, edit } => match edit {
            CaptionEdit::Replace { from, to } => PhraseOpModel::ParaCaption {
                at: at@,
                from: from@,
                to: to@,
            },
            _ => PhraseOpModel::Other,
        },
        Op::ReplaceContainerTitle { path, from, to } => PhraseOpModel::ContainerTitle {
            path: path_view(path@),
            from: from@,
            to: to@,
        },
        Op::ReplaceInContainer { path, except, except_titles, from, to } => if except_titles@.len()
            == 0 {
            PhraseOpModel::InContainer {
                path: path_view(path@),
                except: except@.map_values(|l: Loc| l@),
                from: from@,
                to: to@,
            }
        } else {
            PhraseOpModel::Other
        },
        Op::ReplaceSupplNote { article, from, to } => PhraseOpModel::Note {
            article: article@,
            from: from@,
            to: to@,
        },
        Op::ReplaceInAmendment { article, target, from, to } => PhraseOpModel::InAmendment {
            article: article@,
            target: target@,
            from: from@,
            to: to@,
        },
        Op::TableEdit { table, path, action } => match action {
            TableAction::Phrase { from, to } => PhraseOpModel::Table {
                table: table@,
                path: path@,
                from: from@,
                to: to@,
            },
            _ => PhraseOpModel::Other,
        },
        Op::ReplaceTableRow { at, row, from, to } => PhraseOpModel::TableRow {
            at: at@,
            row: row@,
            from: from@,
            to: to@,
        },
        Op::ReplaceAppdxRow { table, row, sub, from, to } => PhraseOpModel::AppdxRow {
            table: table@,
            row: row@,
            sub: opt_text(sub),
            from: from@,
            to: to@,
        },
        Op::Suppl(inner) => PhraseOpModel::InSuppl(Box::new(phrase_op_view(*inner))),
        _ => PhraseOpModel::Other,
    }
}

/// The values of operations on phrases.
pub open spec fn phrase_ops_view(v: Seq<Op>) -> Seq<PhraseOpModel> {
    v.map_values(|o: Op| phrase_op_view(o))
}

/// The characters of each text.
pub open spec fn texts_view(v: Seq<String>) -> Seq<Seq<char>> {
    v.map_values(|t: String| t@)
}

/// The characters of each pair of texts.
pub open spec fn pairs_view(v: Seq<(String, String)>) -> Seq<(Seq<char>, Seq<char>)> {
    v.map_values(|p: (String, String)| (p.0@, p.1@))
}

// ---------------------------------------------------------------------------------------
// The parts of a phrase instruction

/// A phrase instruction split into its place (the text before the first `中「`; none when
/// it starts with `「`) and the rest from the `「` on; `None` when it has neither form.
pub open spec fn seg_parts(seg: Seq<char>) -> Option<(Option<Seq<char>>, Seq<char>)> {
    if starts_with(seg, "「"@) {
        Some((None, seg))
    } else {
        let i = first_at(seg, "中「"@, 0);
        if i < seg.len() {
            Some((Some(seg.take(i)), seg.skip(i + 1)))
        } else {
            None
        }
    }
}

/// The first position of `p` in `t` is a position where `p` starts, or the length of `t`.
pub proof fn lemma_first_at(t: Seq<char>, p: Seq<char>, i: int)
    requires
        0 <= i <= t.len(),
    ensures
        i <= first_at(t, p, i) <= t.len(),
        first_at(t, p, i) < t.len() ==> starts_with(t.skip(first_at(t, p, i)), p),
        forall|k: int| i <= k < first_at(t, p, i) ==> !starts_with(#[trigger] t.skip(k), p),
    decreases t.len() - i,
{
    if i < t.len() && !starts_with(t.skip(i), p) {
        lemma_first_at(t, p, i + 1);
    }
}

/// Splits a phrase instruction (see [`seg_parts`]).
pub(crate) fn seg_parts_exec(seg: &str) -> (r: Option<(Option<String>, String)>)
    ensures
        match seg_parts(seg@) {
            Some((lp, rest)) => r matches Some((l, t)) && opt_text(l) == lp && t@ == rest,
            None => r is None,
        },
{
    let c = chars_of(seg);
    assert(c@.skip(0) =~= c@);
    if has_at(c.as_slice(), 0, "「") {
        return Some((None, seg.to_string()));
    }
    let i = first_at_exec(&c, "中「");
    proof {
        lemma_first_at(c@, "中「"@, 0);
    }
    if i < c.len() {
        let lp = string_of(crate::text::slice_to(c.as_slice(), i).as_slice());
        let rest = string_of(crate::text::slice_from(c.as_slice(), i + 1).as_slice());
        Some((Some(lp), rest))
    } else {
        None
    }
}

/// The place before: the article, paragraph, item, sub-item and part read last.
pub open spec fn spec_ante_loc(a: AnteModel, seg: Seq<char>) -> Result<LocModel, PlaceError> {
    match a.article {
        None => Err(PlaceError::NoAntecedent(seg)),
        Some(art) => Ok(
            LocModel {
                article: art,
                sub: a.sub,
                paragraph: a.paragraph,
                item: opt_item_text(a.item),
                part: a.part,
                suppl: a.suppl,
            },
        ),
    }
}

/// The place before (see [`spec_ante_loc`]); the instruction `seg` names the error.
pub fn ante_loc(ante: &Ante, seg: &str) -> (r: Result<Loc, ParseError>)
    ensures
        match spec_ante_loc(ante@, seg@) {
            Ok(l) => r is Ok && r->Ok_0@ == l,
            Err(e) => r is Err && error_is(r->Err_0, e),
        },
{
    match &ante.article {
        None => Err(ParseError::NoAntecedent(seg.to_string())),
        Some(a) => Ok(
            Loc {
                article: a.copy(),
                sub: copy_text(&ante.sub),
                paragraph: match ante.paragraph {
                    Some(n) => Some(ParaRef::Num(n)),
                    None => None,
                },
                item: match &ante.item {
                    Some(p) => Some(item_string(p)),
                    None => None,
                },
                part: ante.part,
                suppl: ante.suppl,
            },
        ),
    }
}

/// The place a phrase instruction works at: the place it names, or without one the place
/// before; and what it leaves for the next.
pub open spec fn spec_place_of(lp: Option<Seq<char>>, seg: Seq<char>, a: AnteModel) -> Result<
    (LocModel, AnteModel),
    PlaceError,
> {
    match lp {
        Some(l) => spec_loc(l, a),
        None => match spec_ante_loc(a, seg) {
            Ok(l) => Ok((l, a)),
            Err(e) => Err(e),
        },
    }
}

/// Reads the place of a phrase instruction (see [`spec_place_of`]).
fn place_of(lp: &Option<String>, seg: &str, ante: &mut Ante) -> (r: Result<Loc, ParseError>)
    ensures
        match spec_place_of(opt_text(*lp), seg@, old(ante)@) {
            Ok((l, a)) => r is Ok && r->Ok_0@ == l && final(ante)@ == a,
            Err(e) => r is Err && error_is(r->Err_0, e) && final(ante)@ == old(ante)@,
        },
{
    match lp {
        Some(l) => loc(l.as_str(), ante),
        None => ante_loc(ante, seg),
    }
}


// ---------------------------------------------------------------------------------------
// The tail of a phrase instruction

/// What the tail of a phrase instruction does to each phrase.
pub enum Tail {
    /// `を削り`: the phrase is deleted.
    Delete,
    /// `を「B」に改め`: the phrase becomes `B`.
    Replace(Seq<char>),
    /// `の下に「B」を加え`: `B` follows the phrase.
    Below(Seq<char>),
    /// `の上に「B」を加え`: `B` comes before the phrase.
    Above(Seq<char>),
}

/// `t` is `に`, `に改め` or `に改める`.
pub open spec fn replace_end(t: Seq<char>) -> bool {
    t == "に"@ || t == "に改め"@ || t == "に改める"@
}

/// `t` is `を`, `を加え` or `を加える`.
pub open spec fn add_end(t: Seq<char>) -> bool {
    t == "を"@ || t == "を加え"@ || t == "を加える"@
}

/// The tail `rest` after the quoted phrases: `を削り` (or `を削る`), `を「B」に改め`,
/// `の下に「B」を加え`, `の上に「B」を加え` (each verb may be left off or end the
/// sentence); `None` for any other.
pub open spec fn spec_tail(rest: Seq<char>) -> Option<Tail> {
    if starts_with(rest, "を"@) {
        let r = rest.skip(1);
        if r == "削り"@ || r == "削る"@ {
            Some(Tail::Delete)
        } else {
            match spec_take_quoted(r) {
                Some((b, t)) => if replace_end(t) {
                    Some(Tail::Replace(b))
                } else {
                    None
                },
                None => None,
            }
        }
    } else if starts_with(rest, "の下に"@) {
        match spec_take_quoted(rest.skip(3)) {
            Some((b, t)) => if add_end(t) {
                Some(Tail::Below(b))
            } else {
                None
            },
            None => None,
        }
    } else if starts_with(rest, "の上に"@) {
        match spec_take_quoted(rest.skip(3)) {
            Some((b, t)) => if add_end(t) {
                Some(Tail::Above(b))
            } else {
                None
            },
            None => None,
        }
    } else {
        None
    }
}

/// What the phrase `f` becomes under the tail `t`.
pub open spec fn tail_to(t: Tail, f: Seq<char>) -> Seq<char> {
    match t {
        Tail::Delete => Seq::empty(),
        Tail::Replace(b) => b,
        Tail::Below(b) => f + b,
        Tail::Above(b) => b + f,
    }
}

/// Each phrase with what it becomes under the tail `rest` (see [`spec_tail`]).
pub open spec fn spec_phrase_tail(rest: Seq<char>, phrases: Seq<Seq<char>>) -> Option<
    Seq<(Seq<char>, Seq<char>)>,
> {
    match spec_tail(rest) {
        Some(t) => Some(phrases.map_values(|f: Seq<char>| (f, tail_to(t, f)))),
        None => None,
    }
}

/// The tail of a phrase instruction, as read.
pub enum TailText {
    Delete,
    Replace(String),
    Below(String),
    Above(String),
}

impl View for TailText {
    type V = Tail;

    open spec fn view(&self) -> Tail {
        match self {
            TailText::Delete => Tail::Delete,
            TailText::Replace(b) => Tail::Replace(b@),
            TailText::Below(b) => Tail::Below(b@),
            TailText::Above(b) => Tail::Above(b@),
        }
    }
}

/// The rest of a text after its first `n` characters.
fn after(s: &str, n: usize) -> (r: String)
    requires
        n <= s@.len(),
    ensures
        r@ == s@.skip(n as int),
{
    let c = chars_of(s);
    string_of(crate::text::slice_from(c.as_slice(), n).as_slice())
}

/// Reads the tail of a phrase instruction (see [`spec_tail`]).
pub fn read_tail(rest: &str) -> (r: Option<TailText>)
    ensures
        match spec_tail(rest@) {
            Some(t) => r is Some && r->0@ == t,
            None => r is None,
        },
{
    proof {
        reveal_strlit("を");
        reveal_strlit("の下に");
        reveal_strlit("の上に");
    }
    if crate::text::starts_with_str(rest, "を") {
        let r = after(rest, 1);
        if str_eq(r.as_str(), "削り") || str_eq(r.as_str(), "削る") {
            return Some(TailText::Delete);
        }
        match take_quoted(r.as_str()) {
            Some((b, t)) => {
                if str_eq(t, "に") || str_eq(t, "に改め") || str_eq(t, "に改める") {
                    Some(TailText::Replace(b))
                } else {
                    None
                }
            },
            None => None,
        }
    } else if crate::text::starts_with_str(rest, "の下に") {
        let r = after(rest, 3);
        match take_quoted(r.as_str()) {
            Some((b, t)) => {
                if str_eq(t, "を") || str_eq(t, "を加え") || str_eq(t, "を加える") {
                    Some(TailText::Below(b))
                } else {
                    None
                }
            },
            None => None,
        }
    } else if crate::text::starts_with_str(rest, "の上に") {
        let r = after(rest, 3);
        match take_quoted(r.as_str()) {
            Some((b, t)) => {
                if str_eq(t, "を") || str_eq(t, "を加え") || str_eq(t, "を加える") {
                    Some(TailText::Above(b))
                } else {
                    None
                }
            },
            None => None,
        }
    } else {
        None
    }
}

/// What the phrase `f` becomes under the tail `t` (see [`tail_to`]).
fn tail_text(t: &TailText, f: &String) -> (r: String)
    ensures
        r@ == tail_to(t@, f@),
{
    match t {
        TailText::Delete => String::new(),
        TailText::Replace(b) => b.clone(),
        TailText::Below(b) => {
            let mut r = f.clone();
            push_str(&mut r, b.as_str());
            r
        },
        TailText::Above(b) => {
            let mut r = b.clone();
            push_str(&mut r, f.as_str());
            r
        },
    }
}

/// Each phrase with what it becomes under the tail `rest` (see [`spec_phrase_tail`]).
pub fn phrase_tail(rest: &str, phrases: &Vec<String>) -> (r: Option<Vec<(String, String)>>)
    ensures
        match spec_phrase_tail(rest@, texts_view(phrases@)) {
            Some(v) => r is Some && pairs_view(r->0@) == v,
            None => r is None,
        },
{
    let t = match read_tail(rest) {
        Some(t) => t,
        None => {
            return None;
        },
    };
    let mut out: Vec<(String, String)> = Vec::new();
    let mut i: usize = 0;
    while i < phrases.len()
        invariant
            i <= phrases.len(),
            out@.len() == i,
            forall|k: int|
                0 <= k < i ==> (#[trigger] out@[k]).0@ == phrases@[k]@ && out@[k].1@ == tail_to(
                    t@,
                    phrases@[k]@,
                ),
        decreases phrases.len() - i,
    {
        let to = tail_text(&t, &phrases[i]);
        out.push((phrases[i].clone(), to));
        i = i + 1;
    }
    assert(pairs_view(out@) =~= texts_view(phrases@).map_values(
        |f: Seq<char>| (f, tail_to(t@, f)),
    ));
    Some(out)
}

// ---------------------------------------------------------------------------------------
// Lists of phrases

/// The quoted phrases that follow, each after `、` or `及び` (`「A」、「B」及び「C」を削り`),
/// and the text after the last of them.
pub open spec fn phrase_list(rest: Seq<char>) -> (Seq<Seq<char>>, Seq<char>)
    decreases rest.len(),
{
    let r = if starts_with(rest, "、"@) {
        Some(rest.skip(1))
    } else if starts_with(rest, "及び"@) {
        Some(rest.skip(2))
    } else {
        None
    };
    match r {
        Some(r) => match spec_take_quoted(r) {
            Some((b, r2)) => {
                proof {
                    reveal_strlit("、");
                    reveal_strlit("及び");
                    lemma_take_quoted_len(r);
                }
                let (ps, t) = phrase_list(r2);
                (seq![b] + ps, t)
            },
            None => (Seq::empty(), rest),
        },
        None => (Seq::empty(), rest),
    }
}

/// Reads the quoted phrases that follow (see [`phrase_list`]).
pub(crate) fn phrase_list_exec(rest: String) -> (r: (Vec<String>, String))
    ensures
        (texts_view(r.0@), r.1@) == phrase_list(rest@),
{
    let mut out: Vec<String> = Vec::new();
    let mut cur = rest;
    loop
        invariant
            phrase_list(rest@) == (texts_view(out@) + phrase_list(cur@).0, phrase_list(cur@).1),
        decreases cur@.len(),
    {
        proof {
            reveal_strlit("、");
            reveal_strlit("及び");
        }
        let ghost c0 = cur@;
        let r = if crate::text::starts_with_str(cur.as_str(), "、") {
            Some(after(cur.as_str(), 1))
        } else if crate::text::starts_with_str(cur.as_str(), "及び") {
            Some(after(cur.as_str(), 2))
        } else {
            None
        };
        match r {
            Some(r) => match take_quoted(r.as_str()) {
                Some((b, r2)) => {
                    proof {
                        lemma_take_quoted_len(r@);
                    }
                    let ghost before = out@;
                    out.push(b);
                    assert(texts_view(out@) =~= texts_view(before).push(b@));
                    assert(texts_view(out@) + phrase_list(r2@).0 =~= texts_view(before) + (seq![b@]
                        + phrase_list(r2@).0));
                    cur = r2.to_string();
                },
                None => {
                    assert(texts_view(out@) + Seq::<Seq<char>>::empty() =~= texts_view(out@));
                    return (out, cur);
                },
            },
            None => {
                assert(texts_view(out@) + Seq::<Seq<char>>::empty() =~= texts_view(out@));
                return (out, cur);
            },
        }
    }
}


// ---------------------------------------------------------------------------------------
// Phrases with unbalanced brackets

/// What a phrase instruction with unbalanced brackets does: delete a phrase, replace it,
/// or add text after it.
pub enum LooseOp {
    Delete(Seq<char>),
    Replace(Seq<char>, Seq<char>),
    Insert(Seq<char>, Seq<char>),
}

/// `b_part` without the first of the suffixes `p1`, `p2`, `p3` it ends with.
pub open spec fn strip_first_suffix(b_part: Seq<char>, p1: Seq<char>, p2: Seq<char>, p3: Seq<char>) -> Option<
    Seq<char>,
> {
    if ends_with(b_part, p1) {
        Some(b_part.take(b_part.len() - p1.len()))
    } else if ends_with(b_part, p2) {
        Some(b_part.take(b_part.len() - p2.len()))
    } else if ends_with(b_part, p3) {
        Some(b_part.take(b_part.len() - p3.len()))
    } else {
        None
    }
}

/// The phrases of `inner` (the text after the first `「`) split at the first `sep`, the
/// second without the first of the suffixes `p1`, `p2`, `p3`.
pub open spec fn split_pair(inner: Seq<char>, sep: Seq<char>, p1: Seq<char>, p2: Seq<char>, p3: Seq<char>) -> Option<
    (Seq<char>, Seq<char>),
> {
    let i = first_at(inner, sep, 0);
    if i < inner.len() {
        match strip_first_suffix(inner.skip(i + sep.len()), p1, p2, p3) {
            Some(b) => Some((inner.take(i), b)),
            None => None,
        }
    } else {
        None
    }
}

/// What the text `inner` after the first `「` asks for, the phrases split at the first
/// `」を「` or `」の下に「` and the second ending at the last `」`: `A」を削り`,
/// `A」を「B」に改め`, `A」の下に「B」を加え`.
pub open spec fn loose_op(inner: Seq<char>) -> Option<LooseOp> {
    if ends_with(inner, "」を削り"@) || ends_with(inner, "」を削る"@) {
        Some(LooseOp::Delete(inner.take(inner.len() - 4)))
    } else {
        match split_pair(inner, "」を「"@, "」に改める"@, "」に改め"@, "」に"@) {
            Some((a, b)) => Some(LooseOp::Replace(a, b)),
            None => match split_pair(inner, "」の下に「"@, "」を加える"@, "」を加え"@, "」を"@) {
                Some((a, b)) => Some(LooseOp::Insert(a, b)),
                None => None,
            },
        }
    }
}

/// The operation that `op` asks for at the place `l`.
pub open spec fn loose_model(op: LooseOp, l: LocModel) -> PhraseOpModel {
    match op {
        LooseOp::Delete(a) => PhraseOpModel::At { at: l, from: a, to: Seq::empty() },
        LooseOp::Replace(a, b) => PhraseOpModel::At { at: l, from: a, to: b },
        LooseOp::Insert(a, b) => PhraseOpModel::After { at: l, anchor: a, text: b },
    }
}

/// The result of reading a phrase instruction: the operations (none when it is not of
/// the form) and the places it leaves for the next; or why its place could not be read.
pub type PhraseRead = Result<(Option<Seq<PhraseOpModel>>, AnteModel), PlaceError>;

/// The optional operations, by value.
pub open spec fn opt_ops_view(r: Option<Vec<Op>>) -> Option<Seq<PhraseOpModel>> {
    match r {
        Some(v) => Some(phrase_ops_view(v@)),
        None => None,
    }
}

/// A phrase instruction whose phrases hold unbalanced brackets
/// (`「規約」を「同条第六項ただし書中「規約」に`), read by splitting at the first `」を「`
/// or `」の下に「` and ending the second phrase at the last `」`. Not read in the table of
/// contents. The place is the one named, or without one the place before.
pub open spec fn spec_phrase_op_loose(seg: Seq<char>, a: AnteModel) -> PhraseRead {
    match seg_parts(seg) {
        None => Ok((None, a)),
        Some((lp, rest)) => if lp == Some("目次"@) || (lp is None && a.toc) {
            Ok((None, a))
        } else {
            match loose_op(rest.skip(1)) {
                None => Ok((None, a)),
                Some(op) => match spec_place_of(lp, seg, a) {
                    Err(e) => Err(e),
                    Ok((l, a1)) => Ok((Some(seq![loose_model(op, l)]), a1)),
                },
            }
        },
    }
}

/// `b_part` without the first of the suffixes `p1`, `p2`, `p3` (see [`strip_first_suffix`]).
fn strip_first_suffix_exec(b_part: &Vec<char>, p1: &str, p2: &str, p3: &str) -> (r: Option<String>)
    ensures
        match strip_first_suffix(b_part@, p1@, p2@, p3@) {
            Some(b) => r is Some && r->0@ == b,
            None => r is None,
        },
{
    let n1 = chars_of(p1).len();
    let n2 = chars_of(p2).len();
    let n3 = chars_of(p3).len();
    if chars_end_with(b_part.as_slice(), p1) {
        Some(string_of(crate::text::slice_to(b_part.as_slice(), b_part.len() - n1).as_slice()))
    } else if chars_end_with(b_part.as_slice(), p2) {
        Some(string_of(crate::text::slice_to(b_part.as_slice(), b_part.len() - n2).as_slice()))
    } else if chars_end_with(b_part.as_slice(), p3) {
        Some(string_of(crate::text::slice_to(b_part.as_slice(), b_part.len() - n3).as_slice()))
    } else {
        None
    }
}

/// The phrases split at the first `sep` (see [`split_pair`]).
fn split_pair_exec(inner: &Vec<char>, sep: &str, p1: &str, p2: &str, p3: &str) -> (r: Option<
    (String, String),
>)
    ensures
        match split_pair(inner@, sep@, p1@, p2@, p3@) {
            Some((a, b)) => r matches Some((x, y)) && x@ == a && y@ == b,
            None => r is None,
        },
{
    let i = first_at_exec(inner, sep);
    proof {
        lemma_first_at(inner@, sep@, 0);
    }
    if i < inner.len() {
        let n = chars_of(sep).len();
        let b_part = crate::text::slice_from(inner.as_slice(), i + n);
        match strip_first_suffix_exec(&b_part, p1, p2, p3) {
            Some(b) => Some((string_of(crate::text::slice_to(inner.as_slice(), i).as_slice()), b)),
            None => None,
        }
    } else {
        None
    }
}

/// What a phrase instruction asks for, as read.
pub enum LooseText {
    Delete(String),
    Replace(String, String),
    Insert(String, String),
}

impl View for LooseText {
    type V = LooseOp;

    open spec fn view(&self) -> LooseOp {
        match self {
            LooseText::Delete(a) => LooseOp::Delete(a@),
            LooseText::Replace(a, b) => LooseOp::Replace(a@, b@),
            LooseText::Insert(a, b) => LooseOp::Insert(a@, b@),
        }
    }
}

/// Reads what the text after the first `「` asks for (see [`loose_op`]).
fn loose_op_exec(inner: &Vec<char>) -> (r: Option<LooseText>)
    ensures
        match loose_op(inner@) {
            Some(op) => r is Some && r->0@ == op,
            None => r is None,
        },
{
    proof {
        reveal_strlit("」を削り");
        reveal_strlit("」を削る");
    }
    if chars_end_with(inner.as_slice(), "」を削り") || chars_end_with(inner.as_slice(), "」を削る") {
        return Some(
            LooseText::Delete(
                string_of(crate::text::slice_to(inner.as_slice(), inner.len() - 4).as_slice()),
            ),
        );
    }
    match split_pair_exec(inner, "」を「", "」に改める", "」に改め", "」に") {
        Some((a, b)) => Some(LooseText::Replace(a, b)),
        None => match split_pair_exec(inner, "」の下に「", "」を加える", "」を加え", "」を") {
            Some((a, b)) => Some(LooseText::Insert(a, b)),
            None => None,
        },
    }
}

/// Reads a phrase instruction whose phrases hold unbalanced brackets (see
/// [`spec_phrase_op_loose`]).
pub fn parse_phrase_op_loose(seg: &str, ante: &mut Ante) -> (r: Result<Option<Vec<Op>>, ParseError>)
    ensures
        match spec_phrase_op_loose(seg@, old(ante)@) {
            Ok((o, a)) => r is Ok && opt_ops_view(r->Ok_0) == o && final(ante)@ == a,
            Err(e) => r is Err && error_is(r->Err_0, e) && final(ante)@ == old(ante)@,
        },
{
    proof {
        reveal_strlit("目次");
    }
    let (lp, rest) = match seg_parts_exec(seg) {
        Some(p) => p,
        None => {
            return Ok(None);
        },
    };
    proof {
        lemma_first_at(seg@, "中「"@, 0);
        reveal_strlit("中「");
        reveal_strlit("「");
    }
    assert(rest@.len() > 0);
    let toc_place = match &lp {
        Some(l) => str_eq(l.as_str(), "目次"),
        None => ante.toc,
    };
    if toc_place {
        return Ok(None);
    }
    let rc = chars_of(rest.as_str());
    let inner = crate::text::slice_from(rc.as_slice(), 1);
    assert(inner@ == rest@.skip(1));
    let op = match loose_op_exec(&inner) {
        Some(op) => op,
        None => {
            return Ok(None);
        },
    };
    let at = match place_of(&lp, seg, ante) {
        Ok(l) => l,
        Err(e) => {
            return Err(e);
        },
    };
    let ghost l = at@;
    let o = match op {
        LooseText::Delete(a) => Op::Replace { at, from: a, to: String::new() },
        LooseText::Replace(a, b) => Op::Replace { at, from: a, to: b },
        LooseText::Insert(a, b) => Op::InsertAfterPhrase { at, anchor: a, text: b },
    };
    let v = vec![o];
    assert(phrase_ops_view(v@) =~= seq![loose_model(op@, l)]);
    Ok(Some(v))
}


/// A list of phrase instructions (`「A」を「B」に、「C」を「D」に改め`) cut into pieces after
/// each `」に、「` and `」に改め、「` (whichever comes first), each piece but the last ending
/// in `」に`.
pub open spec fn loose_pieces(rest: Seq<char>) -> Seq<Seq<char>>
    decreases rest.len(),
{
    let i = first_at(rest, "」に、「"@, 0);
    let j = first_at(rest, "」に改め、「"@, 0);
    proof {
        reveal_strlit("」に、「");
        reveal_strlit("」に改め、「");
        lemma_first_at(rest, "」に、「"@, 0);
        lemma_first_at(rest, "」に改め、「"@, 0);
    }
    if i >= rest.len() && j >= rest.len() {
        seq![rest]
    } else if i < j {
        seq![rest.take(i) + "」に"@] + loose_pieces(rest.skip(i + 3))
    } else {
        seq![rest.take(j) + "」に"@] + loose_pieces(rest.skip(j + 5))
    }
}

/// The operations of the first `k` pieces, read in turn: `None` once a piece is no phrase
/// instruction or its place cannot be read; and the places left for the next.
pub open spec fn loose_fold(ps: Seq<Seq<char>>, k: int, a: AnteModel) -> (Option<Seq<PhraseOpModel>>, AnteModel)
    decreases k,
{
    if k <= 0 {
        (Some(Seq::empty()), a)
    } else {
        let (v, a1) = loose_fold(ps, k - 1, a);
        match v {
            None => (None, a1),
            Some(v) => match spec_phrase_op_loose(ps[k - 1], a1) {
                Ok((Some(w), a2)) => (Some(v + w), a2),
                _ => (None, a1),
            },
        }
    }
}

/// A list of phrase instructions whose phrases hold unbalanced brackets, read piece by
/// piece (see [`loose_pieces`], [`spec_phrase_op_loose`]); `None` when a piece is not read.
pub open spec fn spec_phrase_list_loose(merged: Seq<char>, a: AnteModel) -> (Option<Seq<PhraseOpModel>>, AnteModel) {
    let ps = loose_pieces(merged);
    loose_fold(ps, ps.len() as int, a)
}

/// Once a piece is not read, the rest are not read.
proof fn lemma_loose_fold_stops(ps: Seq<Seq<char>>, k: int, j: int, a: AnteModel)
    requires
        0 <= k <= j,
        loose_fold(ps, k, a).0 is None,
    ensures
        loose_fold(ps, j, a) == loose_fold(ps, k, a),
    decreases j - k,
{
    if j > k {
        lemma_loose_fold_stops(ps, k, j - 1, a);
    }
}

/// Each piece is no longer than the list.
proof fn lemma_loose_pieces_len(rest: Seq<char>)
    ensures
        forall|k: int| 0 <= k < loose_pieces(rest).len() ==> (#[trigger] loose_pieces(rest)[k]).len() <= rest.len(),
    decreases rest.len(),
{
    let i = first_at(rest, "」に、「"@, 0);
    let j = first_at(rest, "」に改め、「"@, 0);
    reveal_strlit("」に、「");
    reveal_strlit("」に改め、「");
    reveal_strlit("」に");
    lemma_first_at(rest, "」に、「"@, 0);
    lemma_first_at(rest, "」に改め、「"@, 0);
    if i >= rest.len() && j >= rest.len() {
    } else if i < j {
        lemma_loose_pieces_len(rest.skip(i + 3));
        let ps = loose_pieces(rest);
        assert forall|k: int| 0 <= k < ps.len() implies (#[trigger] ps[k]).len() <= rest.len() by {
            if k > 0 {
                assert(ps[k] == loose_pieces(rest.skip(i + 3))[k - 1]);
            }
        }
    } else {
        lemma_loose_pieces_len(rest.skip(j + 5));
        let ps = loose_pieces(rest);
        assert forall|k: int| 0 <= k < ps.len() implies (#[trigger] ps[k]).len() <= rest.len() by {
            if k > 0 {
                assert(ps[k] == loose_pieces(rest.skip(j + 5))[k - 1]);
            }
        }
    }
}

/// Cuts a list of phrase instructions into pieces (see [`loose_pieces`]).
fn loose_pieces_exec(merged: &Vec<char>) -> (r: Vec<Vec<char>>)
    ensures
        crate::text::seqs_of(r@) == loose_pieces(merged@),
{
    let mut out: Vec<Vec<char>> = Vec::new();
    let mut rest = merged.clone();
    assert(rest@ == merged@);
    loop
        invariant
            loose_pieces(merged@) == crate::text::seqs_of(out@) + loose_pieces(rest@),
        decreases rest@.len(),
    {
        proof {
            reveal_strlit("」に、「");
            reveal_strlit("」に改め、「");
            lemma_first_at(rest@, "」に、「"@, 0);
            lemma_first_at(rest@, "」に改め、「"@, 0);
        }
        let i = first_at_exec(&rest, "」に、「");
        let j = first_at_exec(&rest, "」に改め、「");
        let ghost before = crate::text::seqs_of(out@);
        if i >= rest.len() && j >= rest.len() {
            out.push(rest);
            assert(crate::text::seqs_of(out@) =~= before + loose_pieces(rest@));
            return out;
        }
        let (k, n) = if i < j {
            (i, 3)
        } else {
            (j, 5)
        };
        let mut piece = crate::text::slice_to(rest.as_slice(), k);
        piece.push('」');
        piece.push('に');
        proof {
            reveal_strlit("」に");
        }
        assert(piece@ =~= rest@.take(k as int) + "」に"@);
        out.push(piece);
        assert(crate::text::seqs_of(out@) =~= before.push(piece@));
        let next = crate::text::slice_from(rest.as_slice(), k + n);
        assert(loose_pieces(rest@) == seq![piece@] + loose_pieces(next@));
        assert(crate::text::seqs_of(out@) + loose_pieces(next@) =~= before + (seq![piece@] + loose_pieces(next@)));
        rest = next;
    }
}

/// Reads a list of phrase instructions whose phrases hold unbalanced brackets (see
/// [`spec_phrase_list_loose`]).
pub fn parse_phrase_list_loose(merged: &str, ante: &mut Ante) -> (r: Option<Vec<Op>>)
    ensures
        (opt_ops_view(r), final(ante)@) == spec_phrase_list_loose(merged@, old(ante)@),
{
    let pieces = loose_pieces_exec(&chars_of(merged));
    let ghost ps = loose_pieces(merged@);
    proof {
        lemma_loose_pieces_len(merged@);
    }
    let ghost a0 = ante@;
    let mut out: Vec<Op> = Vec::new();
    let mut k: usize = 0;
    assert(phrase_ops_view(out@) =~= Seq::<PhraseOpModel>::empty());
    while k < pieces.len()
        invariant
            k <= pieces.len(),
            ps == crate::text::seqs_of(pieces@),
            ps == loose_pieces(merged@),
            a0 == old(ante)@,
            forall|m: int| 0 <= m < ps.len() ==> (#[trigger] ps[m]).len() <= merged@.len(),
            loose_fold(ps, k as int, a0) == (Some(phrase_ops_view(out@)), ante@),
        decreases pieces.len() - k,
    {
        let p = string_of(pieces[k].as_slice());
        assert(p@ == ps[k as int]);
        let ghost a1 = ante@;
        match parse_phrase_op_loose(p.as_str(), ante) {
            Ok(Some(w)) => {
                let ghost before = out@;
                let ghost wv = w@;
                let mut w = w;
                out.append(&mut w);
                assert(out@ == before + wv);
                assert(phrase_ops_view(out@) =~= phrase_ops_view(before) + phrase_ops_view(wv));
            },
            _ => {
                assert(loose_fold(ps, k + 1, a0) == (None::<Seq<PhraseOpModel>>, a1));
                assert(ante@ == a1);
                proof {
                    lemma_loose_fold_stops(ps, k + 1, ps.len() as int, a0);
                }
                return None;
            },
        }
        k = k + 1;
    }
    Some(out)
}

} // verus!
