//! Reading places (`第七条第一項`, `同条第二項`, `同号ロ`) into [`Loc`]s: what `同条`, `同項`
//! and `同号` refer to, lists and ranges of places (`第七条第一項及び第二項`,
//! `第一号から第四号まで`), and the places named by the list of amending provisions in a
//! clause of the supplementary provisions (`医師法第十六条の十一第一項の改正規定及び同法第十七条の改正規定`).

use vstd::prelude::*;
use crate::article_num::{ArticleNum, ArticleNumModel};
use crate::numeral::{push_decimal, spec_decimal};
use crate::op::{
    ContainerKind, Loc, LocModel, ParaRef, SentencePart, TableRef, TableRefModel, copy_text, opt_text,
    path_view,
};
use crate::parse::{ParseError, full_sub, kana_seq, spec_full_sub};
use crate::place::{
    ItemForm, ParaForm, PlaceForm, PlaceScan, after_number, branch_end, branch_scan, branch_values,
    is_numeral, kanji_to_u32, lemma_branch_end, lemma_numeral_end, lemma_numeral_state, lemma_positions,
    number_at, numbered_at, numbered_at_exec, numeral_end, numeral_end_at, numeral_state, numeral_value,
    is_kana, pair_at, place_form, branch_scan_end, pos_article, pos_item, pos_para, pos_sub, pos_tail, rest_is, scan_place,
    tail_part,
};
use crate::text::{
    chars_end_with, chars_of, ends_with, has_at, push_char, slice_from, slice_range, slice_to,
    starts_with, string_of,
};

verus! {

/// What the places read so far leave for `同条`, `同項`, `同号` and a bare sub-item to
/// refer to.
pub struct Ante {
    pub article: Option<ArticleNum>,
    pub paragraph: Option<u32>,
    /// The item, as its number and branch numbers (`第五号の二` is `[5, 2]`).
    pub item: Option<Vec<u32>>,
    /// The article is one of the supplementary provisions.
    pub suppl: bool,
    pub sub: Option<String>,
    /// The place before was the table of contents (`目次中「A」を「B」に、「C」を「D」に改める`).
    pub toc: bool,
    /// The divisions named before (`第一章中第六節を第八節とし、第五節の次に…`: the chapter
    /// around `第五節`).
    pub container: Vec<(ContainerKind, String)>,
    /// The part of the sentence of the place before (`同項ただし書中「A」を「B」に、「C」を「D」に改め`).
    pub part: Option<SentencePart>,
    /// The list of places before (`第九十四条第一項及び第三項中`): a continuation without a
    /// place applies to each of them.
    pub locs: Vec<Loc>,
    /// The row of an appended table before: the table and the first column of the row.
    pub appdx: Option<(String, String)>,
    /// The first segment of a sentence: a phrase without a place is in the whole main
    /// provisions.
    pub fresh: bool,
    /// The phrase before was in the whole main provisions (`本則中「A」を「B」に、…`).
    pub whole: bool,
    /// The phrase before was in the title (`題名中「A」を「B」に、…`).
    pub title: bool,
    /// The place before was within a table: the table and the position as written.
    pub tedit: Option<(TableRef, String)>,
    /// The scope of the phrase before: the divisions and the places left out
    /// (`第三章（第四十九条を除く。）中「A」を「B」に、…`).
    pub scope: Option<(Vec<(ContainerKind, String)>, Vec<Loc>)>,
    /// The phrase before was in the note of this article (`第七十一条の付記中…`).
    pub note: Option<ArticleNum>,
    /// The amending provision before (`同改正規定中`).
    pub amend: Option<String>,
}

/// The mathematical value of an [`Ante`].
pub struct AnteModel {
    pub article: Option<ArticleNumModel>,
    pub paragraph: Option<u32>,
    pub item: Option<Seq<nat>>,
    pub suppl: bool,
    pub sub: Option<Seq<char>>,
    pub toc: bool,
    pub container: Seq<(ContainerKind, Seq<char>)>,
    pub part: Option<SentencePart>,
    pub locs: Seq<LocModel>,
    pub appdx: Option<(Seq<char>, Seq<char>)>,
    pub fresh: bool,
    pub whole: bool,
    pub title: bool,
    pub tedit: Option<(TableRefModel, Seq<char>)>,
    pub scope: Option<(Seq<(ContainerKind, Seq<char>)>, Seq<LocModel>)>,
    pub note: Option<ArticleNumModel>,
    pub amend: Option<Seq<char>>,
}

/// The numbers as naturals.
pub open spec fn nats(v: Seq<u32>) -> Seq<nat> {
    v.map_values(|x: u32| x as nat)
}

impl View for Ante {
    type V = AnteModel;

    open spec fn view(&self) -> AnteModel {
        AnteModel {
            article: match self.article {
                Some(a) => Some(a@),
                None => None,
            },
            paragraph: self.paragraph,
            item: match self.item {
                Some(v) => Some(nats(v@)),
                None => None,
            },
            suppl: self.suppl,
            sub: opt_text(self.sub),
            toc: self.toc,
            container: path_view(self.container@),
            part: self.part,
            locs: locs_view(self.locs@),
            appdx: match self.appdx {
                Some((t, r)) => Some((t@, r@)),
                None => None,
            },
            fresh: self.fresh,
            whole: self.whole,
            title: self.title,
            tedit: match self.tedit {
                Some((t, p)) => Some((t@, p@)),
                None => None,
            },
            scope: match self.scope {
                Some((p, e)) => Some((path_view(p@), locs_view(e@))),
                None => None,
            },
            note: match self.note {
                Some(a) => Some(a@),
                None => None,
            },
            amend: opt_text(self.amend),
        }
    }
}

/// Nothing read yet.
pub open spec fn empty_ante() -> AnteModel {
    AnteModel {
        article: None,
        paragraph: None,
        item: None,
        suppl: false,
        sub: None,
        toc: false,
        container: Seq::empty(),
        part: None,
        locs: Seq::empty(),
        appdx: None,
        fresh: false,
        whole: false,
        title: false,
        tedit: None,
        scope: None,
        note: None,
        amend: None,
    }
}

impl Ante {
    /// Nothing read yet.
    pub fn empty() -> (a: Ante)
        ensures
            a@ == empty_ante(),
    {
        let a = Ante {
            article: None,
            paragraph: None,
            item: None,
            suppl: false,
            sub: None,
            toc: false,
            container: Vec::new(),
            part: None,
            locs: Vec::new(),
            appdx: None,
            fresh: false,
            whole: false,
            title: false,
            tedit: None,
            scope: None,
            note: None,
            amend: None,
        };
        assert(a@.container =~= Seq::<(ContainerKind, Seq<char>)>::empty());
        assert(a@.locs =~= Seq::<LocModel>::empty());
        a
    }
}

impl Ante {
    /// A copy of the places read.
    pub fn copy(&self) -> (r: Ante)
        ensures
            r@ == self@,
    {
        let r = Ante {
            article: match &self.article {
                Some(a) => Some(a.copy()),
                None => None,
            },
            paragraph: self.paragraph,
            item: match &self.item {
                Some(v) => Some(v.clone()),
                None => None,
            },
            suppl: self.suppl,
            sub: copy_text(&self.sub),
            toc: self.toc,
            container: crate::op::copy_path(&self.container),
            part: self.part,
            locs: copy_loc_list(&self.locs),
            appdx: match &self.appdx {
                Some((t, w)) => Some((t.clone(), w.clone())),
                None => None,
            },
            fresh: self.fresh,
            whole: self.whole,
            title: self.title,
            tedit: match &self.tedit {
                Some((t, p)) => Some((t.copy(), p.clone())),
                None => None,
            },
            scope: match &self.scope {
                Some((p, e)) => Some((crate::op::copy_path(p), copy_loc_list(e))),
                None => None,
            },
            note: match &self.note {
                Some(a) => Some(a.copy()),
                None => None,
            },
            amend: copy_text(&self.amend),
        };
        assert(r@.item == self@.item) by {
            if self.item is Some {
                assert(r.item->0@ =~= self.item->0@);
            }
        }
        r
    }
}

/// A copy of a list of places.
pub fn copy_loc_list(v: &Vec<Loc>) -> (r: Vec<Loc>)
    ensures
        locs_view(r@) == locs_view(v@),
{
    let mut r: Vec<Loc> = Vec::new();
    let mut i: usize = 0;
    while i < v.len()
        invariant
            i <= v.len(),
            r@.len() == i,
            forall|k: int| 0 <= k < i ==> (#[trigger] r@[k])@ == v@[k]@,
        decreases v.len() - i,
    {
        r.push(v[i].copy());
        i = i + 1;
    }
    assert(locs_view(r@) =~= locs_view(v@));
    r
}

/// Why a place could not be read.
pub enum PlaceError {
    Unrecognized(Seq<char>),
    NoAntecedent(Seq<char>),
}

/// The error `e` is `m`.
pub open spec fn error_is(e: ParseError, m: PlaceError) -> bool {
    match e {
        ParseError::Unrecognized(t) => m == PlaceError::Unrecognized(t@),
        ParseError::NoAntecedent(t) => m == PlaceError::NoAntecedent(t@),
        _ => false,
    }
}

/// The article without a number, that stands for provisions without articles
/// (`本則第二項`, `附則第三項`).
pub open spec fn zero_article() -> ArticleNumModel {
    ArticleNumModel::Single { base: 0, branch: Seq::empty() }
}

/// `5_2` for the item `[5, 2]`: the numbers in decimal, joined by `_`.
pub open spec fn item_text(parts: Seq<nat>) -> Seq<char>
    decreases parts.len(),
{
    if parts.len() == 0 {
        Seq::empty()
    } else if parts.len() == 1 {
        spec_decimal(parts[0])
    } else {
        item_text(parts.drop_last()) + seq!['_'] + spec_decimal(parts.last())
    }
}

/// The item text of an optional item.
pub open spec fn opt_item_text(parts: Option<Seq<nat>>) -> Option<Seq<char>> {
    match parts {
        Some(p) => Some(item_text(p)),
        None => None,
    }
}

/// The article a place resolves to, and what is left for the next place: a number given
/// is taken; `附則` alone is the supplementary provisions without articles; a paragraph
/// or item given before any article is the main provisions without articles; otherwise
/// the article before. An article taken anew ends a run in the table of contents.
pub open spec fn resolve_article(f: PlaceForm, a: AnteModel) -> AnteModel {
    let suppl = f.suppl || (f.article is None && a.suppl);
    match f.article {
        Some((b, br)) => AnteModel {
            article: Some(ArticleNumModel::Single { base: b, branch: br }),
            suppl: suppl,
            toc: false,
            ..a
        },
        None => if f.suppl {
            AnteModel { article: Some(zero_article()), suppl: true, toc: false, ..a }
        } else if (f.para is Num || f.item is Num) && a.article is None && !a.suppl {
            AnteModel { article: Some(zero_article()), toc: false, ..a }
        } else {
            a
        },
    }
}

/// The paragraph of a place and what is left for the next: `同項` is the paragraph
/// before, or the first when the article before named none; an article given without a
/// paragraph leaves none.
pub open spec fn resolve_para(f: PlaceForm, a: AnteModel) -> (Option<u32>, AnteModel) {
    match f.para {
        ParaForm::Num(n) => (Some(n as u32), AnteModel { paragraph: Some(n as u32), ..a }),
        ParaForm::Same => (
            Some(
                match a.paragraph {
                    Some(p) => p,
                    None => 1u32,
                },
            ),
            a,
        ),
        ParaForm::Absent => (
            None,
            if f.article is Some {
                AnteModel { paragraph: None, ..a }
            } else {
                a
            },
        ),
    }
}

/// The item of a place and what is left for the next: `同号` is the item before; an
/// article or paragraph given without an item leaves none.
pub open spec fn resolve_item(f: PlaceForm, a: AnteModel) -> (Option<Seq<char>>, AnteModel) {
    match f.item {
        ItemForm::Num(parts) => (Some(item_text(parts)), AnteModel { item: Some(parts), ..a }),
        ItemForm::Same => (opt_item_text(a.item), a),
        ItemForm::Absent => (
            None,
            if f.article is Some || f.para is Num {
                AnteModel { item: None, ..a }
            } else {
                a
            },
        ),
    }
}

/// The sub-item of a place: a bracketed label alone (`(3)`) continues the sub-item before
/// unless an item is given; no sub-item keeps the one before unless an item is given.
pub open spec fn resolve_sub(f: PlaceForm, a: AnteModel) -> Option<Seq<char>> {
    match f.sub {
        Some(k) => if f.item is Num {
            Some(k)
        } else {
            Some(spec_full_sub(k, a.sub))
        },
        None => if f.item is Num {
            None
        } else {
            a.sub
        },
    }
}

/// The place that the form `f` (read from the text `s`) names after the places `a`, and
/// what it leaves for the next. A place named anew ends whatever the phrases before
/// continued: the whole main provisions, a table, a scope, a note, an amending provision,
/// a list of places and a row of an appended table; the part of its sentence is the one
/// continued.
pub open spec fn resolve_place(f: PlaceForm, s: Seq<char>, a: AnteModel) -> Result<
    (LocModel, AnteModel),
    PlaceError,
> {
    let suppl = f.suppl || (f.article is None && a.suppl);
    let a1 = resolve_article(f, a);
    match a1.article {
        None => Err(PlaceError::NoAntecedent(s)),
        Some(art) => {
            let (para, a2) = resolve_para(f, a1);
            let (item, a3) = resolve_item(f, a2);
            let para2 = if para is None && item is Some && f.article is None {
                a3.paragraph
            } else {
                para
            };
            let sub = resolve_sub(f, a3);
            Ok(
                (
                    LocModel { article: art, paragraph: para2, item, part: f.part, suppl, sub },
                    AnteModel {
                        sub: sub,
                        whole: false,
                        tedit: None,
                        scope: None,
                        note: None,
                        amend: None,
                        part: f.part,
                        locs: Seq::empty(),
                        appdx: None,
                        ..a3
                    },
                ),
            )
        },
    }
}

/// `c` without the suffix `p`, when it ends with it.
pub open spec fn strip_suffix(c: Seq<char>, p: Seq<char>) -> Seq<char> {
    if ends_with(c, p) {
        c.take(c.len() - p.len())
    } else {
        c
    }
}

/// `編`, `章`, `節`, `款` or `目`.
pub open spec fn is_container_kind(ch: char) -> bool {
    ch == '編' || ch == '章' || ch == '節' || ch == '款' || ch == '目'
}

/// At `i` stands a part, chapter, section, subsection or division (`第二章`).
pub open spec fn container_at(c: Seq<char>, i: int) -> bool {
    &&& 0 <= i < c.len()
    &&& c[i] == '第'
    &&& numeral_end(c, i + 1) > i + 1
    &&& numeral_end(c, i + 1) < c.len()
    &&& is_container_kind(c[numeral_end(c, i + 1)])
}

/// The end of the containers (`第二章第三節`, with branches) that start at `i`.
pub open spec fn container_end(c: Seq<char>, i: int) -> int
    decreases c.len() - i,
{
    if container_at(c, i) {
        proof {
            lemma_numeral_end(c, i + 1);
            lemma_branch_end(c, after_number(c, i));
        }
        container_end(c, branch_end(c, after_number(c, i)))
    } else {
        i
    }
}

/// The kind of division that `ch` names.
pub open spec fn kind_of(ch: char) -> ContainerKind {
    if ch == '編' {
        ContainerKind::Part
    } else if ch == '章' {
        ContainerKind::Chapter
    } else if ch == '節' {
        ContainerKind::Section
    } else if ch == '款' {
        ContainerKind::Subsection
    } else {
        ContainerKind::Division
    }
}

/// The divisions written in `c` from `i`, wherever they stand: each `第`, number, kind and
/// branch numbers, with the number as decimal text (`第二章の二` is chapter `2_2`).
pub open spec fn containers_from(c: Seq<char>, i: int) -> Seq<(ContainerKind, Seq<char>)>
    decreases c.len() - i,
{
    if i < 0 || i >= c.len() {
        Seq::empty()
    } else if container_at(c, i) {
        proof {
            lemma_numeral_end(c, i + 1);
            lemma_branch_end(c, after_number(c, i));
        }
        let e = numeral_end(c, i + 1);
        seq![
            (
                kind_of(c[e]),
                item_text(seq![numeral_value(c.subrange(i + 1, e))] + branch_values(c, e + 1)),
            ),
        ] + containers_from(c, branch_end(c, e + 1))
    } else {
        containers_from(c, i + 1)
    }
}

/// The path of divisions written in `c` (`第一章第八節` is chapter `1`, section `8`).
pub open spec fn spec_container_path(c: Seq<char>) -> Seq<(ContainerKind, Seq<char>)> {
    containers_from(c, 0)
}

/// The divisions that the place `s` is named within (`第五章中第三十五条`), if any.
pub open spec fn place_container(s: Seq<char>) -> Option<Seq<(ContainerKind, Seq<char>)>> {
    let s1 = strip_suffix(strip_suffix(s, "中"@), "の規定"@);
    match container_rest(s1) {
        Some(_) => Some(spec_container_path(s1.take(container_end(s1, 0)))),
        None => None,
    }
}

/// `第五章中第三十五条` names an article within a chapter: the article (`第三十五条`…),
/// when `c` is of that form.
pub open spec fn container_rest(c: Seq<char>) -> Option<Seq<char>> {
    let j = container_end(c, 0);
    if j > 0 && j < c.len() && c.len() - j > 2 && c[j] == '中' && c[j + 1] == '第' && !c.skip(j + 2).contains(
        '\n',
    ) {
        Some(c.skip(j + 1))
    } else {
        None
    }
}

/// A character before which a `中` joins a place to a place within it (`第十四条第三項中第五号`).
pub open spec fn joins_before(ch: char) -> bool {
    ||| ch == '第'
    ||| ch == '同'
    ||| ch == 'た'
    ||| ch == 'だ'
    ||| ch == '本'
    ||| ch == '前'
    ||| ch == '後'
    ||| ch == '各'
    ||| ch == '（'
    ||| ch == '('
    ||| kana_seq().contains(ch)
}

/// The character at `k` is kept when `c` is joined.
pub open spec fn kept_at(c: Seq<char>, k: int) -> bool {
    !(c[k] == '中' && k + 1 < c.len() && joins_before(c[k + 1]))
}

/// The first `i` characters of `c`, without the `中` that join places.
pub open spec fn joined_upto(c: Seq<char>, i: int) -> Seq<char>
    decreases i,
{
    if i <= 0 {
        Seq::empty()
    } else {
        joined_upto(c, i - 1) + if kept_at(c, i - 1) {
            seq![c[i - 1]]
        } else {
            Seq::empty()
        }
    }
}

/// `c` without the `中` that join places.
pub open spec fn joined(c: Seq<char>) -> Seq<char> {
    joined_upto(c, c.len() as int)
}

/// A part of a sentence of the main provisions without articles (`本則ただし書`).
pub open spec fn honsoku_part(r: Seq<char>) -> bool {
    r == "ただし書"@ || r == "本文"@ || r == "前段"@ || r == "後段"@
}

/// The text of a place after its framing is read: without a trailing `中` and `の規定`,
/// without the chapter it is named within, and without `の表以外の部分`.
pub open spec fn place_text(s: Seq<char>) -> Seq<char> {
    let s1 = strip_suffix(strip_suffix(s, "中"@), "の規定"@);
    let s2 = match container_rest(s1) {
        Some(r) => r,
        None => s1,
    };
    strip_suffix(s2, "の表以外の部分"@)
}

/// `本則` before a paragraph (`本則第二項`).
pub open spec fn honsoku_plain(s3: Seq<char>) -> bool {
    let r = s3.skip(2);
    starts_with(s3, "本則"@) && r.len() > 0 && r[0] == '第' && !r.contains('条')
}

/// `本則` before a part of a sentence (`本則ただし書`).
pub open spec fn honsoku_sentence(s3: Seq<char>) -> bool {
    starts_with(s3, "本則"@) && !honsoku_plain(s3) && honsoku_part(s3.skip(2))
}

/// The text without a leading `本則` before a paragraph or a part of a sentence.
pub open spec fn without_honsoku(s3: Seq<char>) -> Seq<char> {
    if honsoku_plain(s3) || honsoku_sentence(s3) {
        s3.skip(2)
    } else {
        s3
    }
}

/// What the place `s4` names: the text as it is, or when it is no place, without the `中`
/// that join places.
pub open spec fn read_place_text(s4: Seq<char>, a: AnteModel) -> Result<(LocModel, AnteModel), PlaceError> {
    let s5 = if place_form(s4) is None && s4.contains('中') {
        joined(s4)
    } else {
        s4
    };
    match place_form(s5) {
        None => Err(PlaceError::Unrecognized(s5)),
        Some(f) => resolve_place(f, s5, a),
    }
}

/// What the place `s` names after the places `a`, and what it leaves for the next place;
/// or why it names none. `本則` is the main provisions without articles; `本則` before a
/// paragraph or a part of a sentence is dropped (before a part, the main provisions
/// without articles become the article before); a text that is no place is read again
/// without the `中` that join places. The divisions a place is named within
/// (`第五章中第三十五条`) are left for the places that follow.
#[verifier::opaque]
pub open spec fn spec_loc(s: Seq<char>, a: AnteModel) -> Result<(LocModel, AnteModel), PlaceError> {
    match (read_loc(s, a), place_container(s)) {
        (Ok((l, a1)), Some(p)) => Ok((l, AnteModel { container: p, ..a1 })),
        (r, _) => r,
    }
}

/// The place `s` without the divisions it is named within (see [`spec_loc`]).
pub open spec fn read_loc(s: Seq<char>, a: AnteModel) -> Result<(LocModel, AnteModel), PlaceError> {
    let s3 = place_text(s);
    if s3 == "本則"@ {
        Ok(
            (
                LocModel {
                    article: zero_article(),
                    paragraph: None,
                    item: None,
                    part: None,
                    suppl: false,
                    sub: None,
                },
                AnteModel {
                    article: Some(zero_article()),
                    paragraph: None,
                    suppl: false,
                    toc: false,
                    ..a
                },
            ),
        )
    } else {
        read_place_text(
            without_honsoku(s3),
            if honsoku_sentence(s3) {
                AnteModel { article: Some(zero_article()), paragraph: None, suppl: false, ..a }
            } else {
                a
            },
        )
    }
}

// ---------------------------------------------------------------------------------------
// Executable reading

proof fn lemma_joined_len(c: Seq<char>, i: int)
    requires
        0 <= i <= c.len(),
    ensures
        joined_upto(c, i).len() <= i,
    decreases i,
{
    if i > 0 {
        lemma_joined_len(c, i - 1);
    }
}

pub proof fn lemma_container_end(c: Seq<char>, i: int)
    requires
        0 <= i <= c.len(),
    ensures
        i <= container_end(c, i) <= c.len(),
    decreases c.len() - i,
{
    if container_at(c, i) {
        lemma_numeral_end(c, i + 1);
        lemma_branch_end(c, after_number(c, i));
        lemma_container_end(c, branch_end(c, after_number(c, i)));
    }
}

fn strip_suffix_chars(c: Vec<char>, p: &str) -> (r: Vec<char>)
    ensures
        r@ == strip_suffix(c@, p@),
        r@.len() <= c@.len(),
{
    if chars_end_with(c.as_slice(), p) {
        let n = chars_of(p).len();
        slice_to(c.as_slice(), c.len() - n)
    } else {
        c
    }
}

fn contains_char(c: &Vec<char>, ch: char) -> (r: bool)
    ensures
        r == c@.contains(ch),
{
    let mut i: usize = 0;
    while i < c.len()
        invariant
            i <= c.len(),
            forall|k: int| 0 <= k < i ==> c@[k] != ch,
        decreases c.len() - i,
    {
        if c[i] == ch {
            assert(c@[i as int] == ch);
            return true;
        }
        i = i + 1;
    }
    false
}

pub(crate) fn container_at_exec(c: &Vec<char>, j: usize) -> (r: (bool, usize))
    requires
        j <= c.len(),
    ensures
        r.0 == container_at(c@, j as int),
        r.0 ==> r.1 == numeral_end(c@, j + 1) && r.1 < c.len(),
{
    if j < c.len() && c[j] == '第' {
        let e = numeral_end_at(c, j + 1);
        let k = e > j + 1 && e < c.len() && (c[e] == '編' || c[e] == '章' || c[e] == '節' || c[e]
            == '款' || c[e] == '目');
        (k, e)
    } else {
        (false, j)
    }
}

pub(crate) fn kind_exec(ch: char) -> (k: ContainerKind)
    ensures
        k == kind_of(ch),
{
    if ch == '編' {
        ContainerKind::Part
    } else if ch == '章' {
        ContainerKind::Chapter
    } else if ch == '節' {
        ContainerKind::Section
    } else if ch == '款' {
        ContainerKind::Subsection
    } else {
        ContainerKind::Division
    }
}

/// The number and branch numbers of a division as one list.
fn number_parts(first: u32, br: &Vec<u32>) -> (parts: Vec<u32>)
    ensures
        nats(parts@) == seq![first as nat] + br@.map_values(|x: u32| x as nat),
{
    let mut parts: Vec<u32> = Vec::new();
    parts.push(first);
    let mut k: usize = 0;
    while k < br.len()
        invariant
            k <= br.len(),
            parts@ == seq![first] + br@.take(k as int),
        decreases br.len() - k,
    {
        parts.push(br[k]);
        assert(br@.take(k + 1) == br@.take(k as int).push(br@[k as int]));
        k = k + 1;
    }
    assert(br@.take(br.len() as int) =~= br@);
    assert(nats(parts@) =~= seq![first as nat] + br@.map_values(|x: u32| x as nat));
    parts
}

/// The path of divisions written in `c` (see [`spec_container_path`]).
pub fn container_path(c: &Vec<char>) -> (r: Vec<(ContainerKind, String)>)
    ensures
        path_view(r@) == spec_container_path(c@),
{
    let mut r: Vec<(ContainerKind, String)> = Vec::new();
    let mut i: usize = 0;
    assert(path_view(r@) =~= Seq::<(ContainerKind, Seq<char>)>::empty());
    while i < c.len()
        invariant
            i <= c.len(),
            spec_container_path(c@) == path_view(r@) + containers_from(c@, i as int),
        decreases c.len() - i,
    {
        let (at, e) = container_at_exec(c, i);
        if at {
            proof {
                lemma_numeral_end(c@, i + 1);
            }
            let v = kanji_to_u32(c, i + 1, e);
            let (b, br) = branch_scan(c, e + 1);
            proof {
                lemma_branch_end(c@, e + 1);
            }
            let parts = number_parts(v, &br);
            let t = item_string(&parts);
            let ghost before = path_view(r@);
            r.push((kind_exec(c[e]), t));
            assert(path_view(r@) =~= before.push((kind_of(c@[e as int]), t@)));
            i = b;
        } else {
            i = i + 1;
        }
    }
    assert(containers_from(c@, i as int) =~= Seq::<(ContainerKind, Seq<char>)>::empty());
    assert(path_view(r@) + Seq::<(ContainerKind, Seq<char>)>::empty() =~= path_view(r@));
    r
}

/// Where the divisions at the start of `c` end (see [`container_end`]).
fn container_end_of(c: &Vec<char>) -> (j: usize)
    ensures
        j == container_end(c@, 0),
        j <= c.len(),
{
    container_end_from(c, 0)
}

/// The end of the divisions that start at `i` (see [`container_end`]).
pub(crate) fn container_end_from(c: &Vec<char>, i: usize) -> (j: usize)
    requires
        i <= c.len(),
    ensures
        j == container_end(c@, i as int),
        i <= j <= c.len(),
{
    let mut j: usize = i;
    let mut more = container_at_exec(c, i);
    while more.0
        invariant
            i <= j <= c.len(),
            container_end(c@, i as int) == container_end(c@, j as int),
            more.0 == container_at(c@, j as int),
            more.0 ==> more.1 == numeral_end(c@, j + 1) && more.1 < c.len(),
        decreases c.len() - j,
    {
        proof {
            lemma_numeral_end(c@, j + 1);
        }
        let b = branch_scan_end(c, more.1 + 1);
        proof {
            lemma_branch_end(c@, more.1 + 1);
        }
        j = b;
        more = container_at_exec(c, j);
    }
    j
}

/// The divisions that the place `s` is named within (see [`place_container`]).
fn place_container_of(s: &str) -> (r: Option<Vec<(ContainerKind, String)>>)
    ensures
        match place_container(s@) {
            Some(p) => r is Some && path_view(r->0@) == p,
            None => r is None,
        },
{
    let c0 = chars_of(s);
    let c1 = strip_suffix_chars(c0, "中");
    let c2 = strip_suffix_chars(c1, "の規定");
    match container_rest_of(&c2) {
        Some(_) => {
            let j = container_end_of(&c2);
            let pre = slice_to(c2.as_slice(), j);
            assert(pre@ == c2@.take(j as int));
            Some(container_path(&pre))
        },
        None => None,
    }
}

fn container_rest_of(c: &Vec<char>) -> (r: Option<Vec<char>>)
    ensures
        match container_rest(c@) {
            Some(t) => r is Some && r->0@ == t,
            None => r is None,
        },
        r is Some ==> r->0@.len() <= c@.len(),
{
    let mut j: usize = 0;
    let mut more = container_at_exec(c, 0);
    while more.0
        invariant
            j <= c.len(),
            container_end(c@, 0) == container_end(c@, j as int),
            more.0 == container_at(c@, j as int),
            more.0 ==> more.1 == numeral_end(c@, j + 1) && more.1 < c.len(),
        decreases c.len() - j,
    {
        proof {
            lemma_numeral_end(c@, j + 1);
        }
        let b = branch_scan_end(c, more.1 + 1);
        proof {
            lemma_branch_end(c@, more.1 + 1);
        }
        j = b;
        more = container_at_exec(c, j);
    }
    assert(container_end(c@, j as int) == j);
    if j > 0 && j < c.len() && c.len() - j > 2 && c[j] == '中' && c[j + 1] == '第' {
        let rest = slice_from(c.as_slice(), j + 2);
        if contains_char(&rest, '\n') {
            return None;
        }
        Some(slice_from(c.as_slice(), j + 1))
    } else {
        None
    }
}

fn joins_before_exec(ch: char) -> (r: bool)
    ensures
        r == joins_before(ch),
{
    ch == '第' || ch == '同' || ch == 'た' || ch == 'だ' || ch == '本' || ch == '前' || ch == '後'
        || ch == '各' || ch == '（' || ch == '(' || is_kana(ch)
}

fn joined_chars(c: &Vec<char>) -> (r: Vec<char>)
    ensures
        r@ == joined(c@),
{
    let mut out: Vec<char> = Vec::new();
    let mut k: usize = 0;
    while k < c.len()
        invariant
            k <= c.len(),
            out@ == joined_upto(c@, k as int),
        decreases c.len() - k,
    {
        let keep = !(c[k] == '中' && k + 1 < c.len() && joins_before_exec(c[k + 1]));
        if keep {
            out.push(c[k]);
        }
        assert(joined_upto(c@, k + 1) == joined_upto(c@, k as int) + if kept_at(c@, k as int) {
            seq![c@[k as int]]
        } else {
            Seq::empty()
        });
        assert(out@ =~= joined_upto(c@, k + 1));
        k = k + 1;
    }
    out
}

/// The decimal text of an item (`5_2`).
pub fn item_string(parts: &Vec<u32>) -> (r: String)
    ensures
        r@ == item_text(nats(parts@)),
{
    let mut r = String::new();
    let mut i: usize = 0;
    assert(nats(parts@.take(0)) =~= Seq::<nat>::empty());
    while i < parts.len()
        invariant
            i <= parts.len(),
            r@ == item_text(nats(parts@.take(i as int))),
        decreases parts.len() - i,
    {
        let ghost before = nats(parts@.take(i as int));
        if i > 0 {
            push_char(&mut r, '_');
        }
        push_decimal(&mut r, parts[i] as u64);
        let ghost now = nats(parts@.take(i + 1));
        assert(now.drop_last() =~= before);
        assert(now.last() == parts@[i as int] as nat);
        if i == 0 {
            assert(now =~= seq![parts@[0] as nat]);
        }
        i = i + 1;
    }
    assert(parts@.take(parts.len() as int) =~= parts@);
    r
}

pub(crate) fn zero_article_exec() -> (n: ArticleNum)
    ensures
        n@ == zero_article(),
{
    let n = ArticleNum::Single { base: 0, branch: Vec::new() };
    assert(n@ =~= zero_article()) by {
        assert(crate::article_num::branch_model(Seq::<u32>::empty()) =~= Seq::<nat>::empty());
    }
    n
}

/// A place named anew ends the runs of the phrases before (see [`resolve_place`]).
fn end_runs(ante: &mut Ante, part: Option<SentencePart>)
    ensures
        final(ante)@ == (AnteModel {
            whole: false,
            tedit: None,
            scope: None,
            note: None,
            amend: None,
            part: part,
            locs: Seq::empty(),
            appdx: None,
            ..old(ante)@
        }),
{
    ante.whole = false;
    ante.tedit = None;
    ante.scope = None;
    ante.note = None;
    ante.amend = None;
    ante.part = part;
    ante.locs = Vec::new();
    ante.appdx = None;
    assert(ante@.locs =~= Seq::<LocModel>::empty());
}

/// What the scan `sc` of `c` found.
pub open spec fn scanned(c: Seq<char>, sc: PlaceScan) -> bool {
    &&& sc.article == pos_article(c)
    &&& sc.para == pos_para(c)
    &&& sc.item == pos_item(c)
    &&& sc.sub == pos_sub(c)
    &&& sc.tail == pos_tail(c)
    &&& tail_part(c.skip(pos_tail(c))) is Some
}

/// The article of the place read by `sc` from `c` (see [`resolve_article`]): `None` when
/// none is named and none stands before.
fn resolve_article_exec(c: &Vec<char>, sc: &PlaceScan, ante: &mut Ante) -> (r: Option<ArticleNum>)
    requires
        scanned(c@, *sc),
    ensures
        place_form(c@) is Some,
        final(ante)@ == resolve_article(place_form(c@)->0, old(ante)@),
        match final(ante)@.article {
            Some(a) => r is Some && r->0@ == a,
            None => r is None,
        },
{
    proof {
        lemma_positions(c@);
    }
    let ghost f = place_form(c@)->0;
    let g_suppl = sc.article == 2;
    let (art_num, ae) = numbered_at_exec(c, sc.article, '条');
    let suppl = g_suppl || (!art_num && ante.suppl);
    let (para_num, pe) = numbered_at_exec(c, sc.para, '項');
    let (item_num, ie) = numbered_at_exec(c, sc.item, '号');
    assert(g_suppl == f.suppl);
    assert(art_num == f.article is Some);
    assert(para_num == f.para is Num);
    assert(item_num == f.item is Num);
    if art_num {
        proof {
            lemma_numeral_end(c@, sc.article + 1);
        }
        let base = kanji_to_u32(c, sc.article + 1, ae);
        let (_, br) = branch_scan(c, ae + 1);
        let n = ArticleNum::Single { base, branch: br };
        assert(n@ == ArticleNumModel::Single { base: f.article.unwrap().0, branch: f.article.unwrap().1 });
        ante.article = Some(n.copy());
        ante.suppl = suppl;
        ante.toc = false;
        Some(n)
    } else if g_suppl {
        ante.article = Some(zero_article_exec());
        ante.suppl = true;
        ante.toc = false;
        Some(zero_article_exec())
    } else if (para_num || item_num) && ante.article.is_none() && !ante.suppl {
        ante.article = Some(zero_article_exec());
        ante.toc = false;
        Some(zero_article_exec())
    } else {
        match &ante.article {
            Some(a) => Some(a.copy()),
            None => None,
        }
    }
}

/// The paragraph of the place read by `sc` from `c` (see [`resolve_para`]).
fn resolve_para_exec(c: &Vec<char>, sc: &PlaceScan, ante: &mut Ante) -> (r: Option<u32>)
    requires
        scanned(c@, *sc),
    ensures
        place_form(c@) is Some,
        (r, final(ante)@) == resolve_para(place_form(c@)->0, old(ante)@),
{
    proof {
        lemma_positions(c@);
    }
    let ghost f = place_form(c@)->0;
    let (art_num, ae) = numbered_at_exec(c, sc.article, '条');
    let (para_num, pe) = numbered_at_exec(c, sc.para, '項');
    let same_para = !para_num && sc.para < c.len() && sc.para + 1 < c.len() && c[sc.para] == '同' && c[sc.para + 1] == '項';
    assert(art_num == f.article is Some);
    assert(para_num == f.para is Num);
    assert(same_para == f.para is Same);
    if para_num {
        proof {
            lemma_numeral_end(c@, sc.para + 1);
        }
        let n = kanji_to_u32(c, sc.para + 1, pe);
        ante.paragraph = Some(n);
        Some(n)
    } else if same_para {
        Some(
            match ante.paragraph {
                Some(p) => p,
                None => 1,
            },
        )
    } else {
        if art_num {
            ante.paragraph = None;
        }
        None
    }
}

/// The item of the place read by `sc` from `c` (see [`resolve_item`]).
fn resolve_item_exec(c: &Vec<char>, sc: &PlaceScan, ante: &mut Ante) -> (r: Option<String>)
    requires
        scanned(c@, *sc),
    ensures
        place_form(c@) is Some,
        opt_text(r) == resolve_item(place_form(c@)->0, old(ante)@).0,
        final(ante)@ == resolve_item(place_form(c@)->0, old(ante)@).1,
{
    proof {
        lemma_positions(c@);
    }
    let ghost f = place_form(c@)->0;
    let (art_num, ae) = numbered_at_exec(c, sc.article, '条');
    let (para_num, pe) = numbered_at_exec(c, sc.para, '項');
    let (item_num, ie) = numbered_at_exec(c, sc.item, '号');
    let same_item = !item_num && sc.item < c.len() && sc.item + 1 < c.len() && c[sc.item] == '同' && c[sc.item + 1] == '号';
    assert(art_num == f.article is Some);
    assert(para_num == f.para is Num);
    assert(item_num == f.item is Num);
    assert(same_item == f.item is Same);
    if item_num {
        proof {
            lemma_numeral_end(c@, sc.item + 1);
        }
        let first = kanji_to_u32(c, sc.item + 1, ie);
        let (_, br) = branch_scan(c, ie + 1);
        let parts = number_parts(first, &br);
        let t = item_string(&parts);
        ante.item = Some(parts);
        Some(t)
    } else if same_item {
        match &ante.item {
            Some(p) => Some(item_string(p)),
            None => None,
        }
    } else {
        if art_num || para_num {
            ante.item = None;
        }
        None
    }
}

/// Resolves the place read by `sc` from `c` (see [`resolve_place`]).
fn resolve(c: &Vec<char>, sc: &PlaceScan, part: Option<SentencePart>, ante: &mut Ante) -> (r: Result<
    Loc,
    ParseError,
>)
    requires
        sc.article == pos_article(c@),
        sc.para == pos_para(c@),
        sc.item == pos_item(c@),
        sc.sub == pos_sub(c@),
        sc.tail == pos_tail(c@),
        tail_part(c@.skip(pos_tail(c@))) == Some(part),
    ensures
        place_form(c@) is Some,
        match resolve_place(place_form(c@)->0, c@, old(ante)@) {
            Ok((l, a)) => r is Ok && r->Ok_0@ == l && final(ante)@ == a,
            Err(e) => r is Err && error_is(r->Err_0, e) && final(ante)@ == old(ante)@,
        },
{
    proof {
        lemma_positions(c@);
    }
    let ghost f = place_form(c@)->0;
    let ghost a0 = ante@;
    assert(f.part == part);
    let g_suppl = sc.article == 2;
    let (art_num, ae) = numbered_at_exec(c, sc.article, '条');
    let (item_num, ie) = numbered_at_exec(c, sc.item, '号');
    assert(g_suppl == f.suppl);
    assert(art_num == f.article is Some);
    assert(item_num == f.item is Num);
    let suppl = g_suppl || (!art_num && ante.suppl);
    let article = match resolve_article_exec(c, sc, ante) {
        Some(a) => a,
        None => {
            return Err(ParseError::NoAntecedent(string_of(c.as_slice())));
        },
    };
    let ghost a1 = ante@;
    let para = resolve_para_exec(c, sc, ante);
    let ghost a2 = ante@;
    let item = resolve_item_exec(c, sc, ante);
    let ghost a3 = ante@;
    let para2 = if para.is_none() && item.is_some() && !art_num {
        ante.paragraph
    } else {
        para
    };
    // the sub-item
    let sub: Option<String> = if sc.tail > sc.sub {
        let k = string_of(slice_range(c.as_slice(), sc.sub, sc.tail).as_slice());
        if !item_num {
            match &ante.sub {
                Some(t) => Some(full_sub(k.as_str(), Some(t.as_str()))),
                None => Some(full_sub(k.as_str(), None)),
            }
        } else {
            Some(k)
        }
    } else if item_num {
        None
    } else {
        copy_text(&ante.sub)
    };
    assert(opt_text(sub) == resolve_sub(f, a3));
    ante.sub = copy_text(&sub);
    end_runs(ante, part);
    let paragraph = match para2 {
        Some(n) => Some(ParaRef::Num(n)),
        None => None,
    };
    Ok(Loc { article, paragraph, item, part, suppl, sub })
}

fn place_chars(s: &str) -> (c: Vec<char>)
    ensures
        c@ == place_text(s@),
        c@.len() <= s@.len(),
{
    let c0 = chars_of(s);
    let c1 = strip_suffix_chars(c0, "中");
    let c2 = strip_suffix_chars(c1, "の規定");
    let c3 = match container_rest_of(&c2) {
        Some(r) => r,
        None => c2,
    };
    strip_suffix_chars(c3, "の表以外の部分")
}

/// Drops a leading `本則` before a paragraph or a part of a sentence.
fn drop_honsoku(c: Vec<char>, ante: &mut Ante) -> (r: Vec<char>)
    ensures
        r@ == without_honsoku(c@),
        r@.len() <= c@.len(),
        final(ante)@ == if honsoku_sentence(c@) {
            AnteModel { article: Some(zero_article()), paragraph: None, suppl: false, ..old(ante)@ }
        } else {
            old(ante)@
        },
{
    proof {
        reveal_strlit("本則");
    }
    assert(c@.skip(0) =~= c@);
    if has_at(c.as_slice(), 0, "本則") {
        let r = slice_from(c.as_slice(), 2);
        assert(r@ == c@.skip(2));
        assert(r@.skip(0) =~= r@);
        if r.len() > 0 && r[0] == '第' && !contains_char(&r, '条') {
            return r;
        } else if rest_is(&r, 0, "ただし書") || rest_is(&r, 0, "本文") || rest_is(&r, 0, "前段")
            || rest_is(&r, 0, "後段") {
            ante.article = Some(zero_article_exec());
            ante.paragraph = None;
            ante.suppl = false;
            return r;
        }
    }
    c
}

/// Reads the place `c` (see [`read_place_text`]).
fn read_place_chars(c: Vec<char>, ante: &mut Ante) -> (r: Result<Loc, ParseError>)
    ensures
        match read_place_text(c@, old(ante)@) {
            Ok((l, a)) => r is Ok && r->Ok_0@ == l && final(ante)@ == a,
            Err(e) => r is Err && error_is(r->Err_0, e) && final(ante)@ == old(ante)@,
        },
{
    proof {
        lemma_joined_len(c@, c@.len() as int);
    }
    let scan0 = scan_place(&c);
    let c6 = if scan0.part.is_none() && contains_char(&c, '中') {
        joined_chars(&c)
    } else {
        c
    };
    let sc = scan_place(&c6);
    match sc.part {
        None => Err(ParseError::Unrecognized(string_of(c6.as_slice()))),
        Some(part) => resolve(&c6, &sc, part, ante),
    }
}

/// Reads the place `s` after the places `ante` and updates `ante` (see [`spec_loc`]).
pub fn loc(s: &str, ante: &mut Ante) -> (r: Result<Loc, ParseError>)
    ensures
        match spec_loc(s@, old(ante)@) {
            Ok((l, a)) => r is Ok && r->Ok_0@ == l && final(ante)@ == a,
            Err(e) => r is Err && error_is(r->Err_0, e) && final(ante)@ == old(ante)@,
        },
{
    proof {
        reveal(spec_loc);
    }
    let pc = place_container_of(s);
    let r = read_loc_exec(s, ante);
    match (&r, pc) {
        (Ok(_), Some(p)) => {
            ante.container = p;
        },
        _ => {},
    }
    r
}

/// Reads the place `s` without the divisions it is named within (see [`read_loc`]).
fn read_loc_exec(s: &str, ante: &mut Ante) -> (r: Result<Loc, ParseError>)
    ensures
        match read_loc(s@, old(ante)@) {
            Ok((l, a)) => r is Ok && r->Ok_0@ == l && final(ante)@ == a,
            Err(e) => r is Err && error_is(r->Err_0, e) && final(ante)@ == old(ante)@,
        },
{
    let c = place_chars(s);
    if rest_is(&c, 0, "本則") {
        assert(c@.skip(0) =~= c@);
        let n = zero_article_exec();
        ante.article = Some(zero_article_exec());
        ante.paragraph = None;
        ante.suppl = false;
        ante.toc = false;
        return Ok(Loc::new(n, None));
    }
    assert(c@.skip(0) =~= c@);
    let ghost a0 = ante@;
    let c5 = drop_honsoku(c, ante);
    proof {
        if honsoku_sentence(c@) {
            lemma_sentence_part_reads(c5@, ante@);
        }
    }
    read_place_chars(c5, ante)
}

/// A part of a sentence alone (`ただし書`) is a place, read without error once an article
/// stands before it.
proof fn lemma_sentence_part_reads(r: Seq<char>, a: AnteModel)
    requires
        honsoku_part(r),
        a.article is Some,
    ensures
        read_place_text(r, a) is Ok,
{
    reveal_strlit("ただし書");
    reveal_strlit("本文");
    reveal_strlit("前段");
    reveal_strlit("後段");
    assert(r.len() >= 2);
    assert(r[0] == 'た' || r[0] == '本' || r[0] == '前' || r[0] == '後');
    assert(!kana_seq().contains(r[0])) by {
        if kana_seq().contains(r[0]) {
            let k = choose|k: int| 0 <= k < kana_seq().len() && kana_seq()[k] == r[0];
            assert(kana_seq()[k] == r[0]);
        }
    }
    assert(pos_article(r) == 0);
    assert(pos_para(r) == 0);
    assert(pos_item(r) == 0);
    assert(pos_sub(r) == 0);
    assert(crate::place::label_end(r, 0) == -1);
    assert(pos_tail(r) == 0);
    assert(r.skip(0) =~= r);
    assert(crate::place::part_named(r) is Some);
    assert(place_form(r) is Some);
}

// ---------------------------------------------------------------------------------------
// Lists and ranges of places

/// The length of the separator of a list (`並びに`, `及び`, `、`) at `i`; 0 when none stands
/// there.
pub open spec fn sep_len(c: Seq<char>, i: int) -> int {
    if 0 <= i && i + 2 < c.len() && c[i] == '並' && c[i + 1] == 'び' && c[i + 2] == 'に' {
        3
    } else if pair_at(c, i, '及', 'び') {
        2
    } else if 0 <= i < c.len() && c[i] == '、' {
        1
    } else {
        0
    }
}

/// The members of a list that started at `start`, read on from `i`.
pub open spec fn list_items_from(c: Seq<char>, i: int, start: int) -> Seq<Seq<char>>
    decreases c.len() - i,
{
    if i >= c.len() {
        seq![c.subrange(start, c.len() as int)]
    } else if sep_len(c, i) > 0 {
        seq![c.subrange(start, i)] + list_items_from(c, i + sep_len(c, i), i + sep_len(c, i))
    } else {
        list_items_from(c, i + 1, start)
    }
}

/// The members of a list (`甲並びに乙及び丙、丁` is `甲`, `乙`, `丙`, `丁`).
pub open spec fn list_items(c: Seq<char>) -> Seq<Seq<char>> {
    list_items_from(c, 0, 0)
}

/// `c` without all the copies of the suffix `p` it ends with.
pub open spec fn trim_suffix_all(c: Seq<char>, p: Seq<char>) -> Seq<char>
    decreases c.len(),
{
    if p.len() > 0 && ends_with(c, p) {
        trim_suffix_all(c.take(c.len() - p.len()), p)
    } else {
        c
    }
}

/// `t` is a range `AからBまで` whose `から` stands at `k` (`A` and `B` not empty, neither
/// holding a line break).
pub open spec fn range_split_at(t: Seq<char>, k: int) -> bool {
    &&& 1 <= k
    &&& k + 2 < t.len() - 2
    &&& t[t.len() - 2] == 'ま'
    &&& t[t.len() - 1] == 'で'
    &&& pair_at(t, k, 'か', 'ら')
    &&& !t.take(k).contains('\n')
    &&& !t.subrange(k + 2, t.len() - 2).contains('\n')
}

/// The first `から` from `k` on that splits `t` as a range.
pub open spec fn first_range_from(t: Seq<char>, k: int) -> Option<int>
    decreases t.len() - k,
{
    if k >= t.len() {
        None
    } else if range_split_at(t, k) {
        Some(k)
    } else {
        first_range_from(t, k + 1)
    }
}

/// `t` ends with an iroha symbol.
pub open spec fn kana_end(t: Seq<char>) -> bool {
    t.len() > 0 && kana_seq().contains(t.last())
}

/// The places of a range of sub-items (`同号イからハまで`): `la` with each sub-item from the
/// first to the last in iroha order.
pub open spec fn kana_range(la: LocModel, ka: nat, kb: nat) -> Seq<LocModel> {
    Seq::new(
        if kb >= ka {
            (kb - ka + 1) as nat
        } else {
            0
        },
        |k: int| LocModel { sub: Some(crate::parse::spec_kana_of((ka + k) as nat)), ..la },
    )
}

/// The places of a range of items (`第十六号から第十九号の二まで`): the first item when it
/// has branches, the items numbered from the first (after it, when it has branches) to the
/// number of the last, and the last when it has branches. (An item without numbers counts
/// as number 0.)
pub open spec fn item_range(la: LocModel, pa: Seq<nat>, pb: Seq<nat>) -> Seq<LocModel> {
    let bra: nat = if pa.len() > 1 {
        1
    } else {
        0
    };
    let from = (if pa.len() > 0 {
        pa[0]
    } else {
        0
    }) + bra;
    let to = if pb.len() > 0 {
        pb[0]
    } else {
        0
    };
    (if pa.len() > 1 {
        seq![LocModel { item: Some(item_text(pa)), ..la }]
    } else {
        Seq::empty()
    }) + Seq::new(
        if to + 1 >= from {
            (to + 1 - from) as nat
        } else {
            0
        },
        |k: int| LocModel { item: Some(spec_decimal((from + k) as nat)), ..la },
    ) + (if pb.len() > 1 {
        seq![LocModel { item: Some(item_text(pb)), ..la }]
    } else {
        Seq::empty()
    })
}

/// The places of a range of paragraphs (`第一項から第三項まで`), each the whole paragraph.
pub open spec fn para_range(art: ArticleNumModel, p: u32, q: u32) -> Seq<LocModel> {
    Seq::new(
        if q >= p {
            (q - p + 1) as nat
        } else {
            0
        },
        |k: int| LocModel {
            article: art,
            paragraph: Some((p + k) as u32),
            item: None,
            part: None,
            suppl: false,
            sub: None,
        },
    )
}

/// The places of the range `tok` from `la` (read from `x`) to `lb` (read from `y`); `pa`
/// and `pb` are their items as numbers. Sub-items when both ends end in one; else items
/// when both name one; else paragraphs when both name one; else the range of the articles
/// when neither names a paragraph.
#[verifier::opaque]
pub open spec fn range_locs(
    tok: Seq<char>,
    x: Seq<char>,
    y: Seq<char>,
    la: LocModel,
    lb: LocModel,
    pa: Option<Seq<nat>>,
    pb: Option<Seq<nat>>,
) -> Result<Seq<LocModel>, PlaceError> {
    if la.sub is Some && lb.sub is Some && kana_end(x) && kana_end(y) {
        Ok(
            kana_range(
                la,
                crate::parse::spec_kana_index(la.sub->0),
                crate::parse::spec_kana_index(lb.sub->0),
            ),
        )
    } else if la.item is Some && lb.item is Some {
        Ok(item_range(la, pa->0, pb->0))
    } else {
        match (la.paragraph, lb.paragraph) {
            (Some(p), Some(q)) => Ok(para_range(la.article, p, q)),
            (None, None) => Ok(
                seq![
                    LocModel {
                        article: ArticleNumModel::Range {
                            from: Box::new(la.article),
                            to: Box::new(lb.article),
                        },
                        paragraph: None,
                        item: None,
                        part: None,
                        suppl: false,
                        sub: None,
                    },
                ],
            ),
            _ => Err(PlaceError::Unrecognized(tok)),
        }
    }
}

/// The places one member of a list names, after the places `a`.
#[verifier::opaque]
pub open spec fn token_locs(tok0: Seq<char>, a: AnteModel) -> Result<
    (Seq<LocModel>, AnteModel),
    PlaceError,
> {
    let tok = trim_suffix_all(tok0, "の規定"@);
    if tok.len() == 0 {
        Ok((Seq::empty(), a))
    } else {
        match first_range_from(tok, 1) {
            Some(k) => {
                let x = tok.take(k);
                let y = tok.subrange(k + 2, tok.len() - 2);
                match spec_loc(x, a) {
                    Err(e) => Err(e),
                    Ok((la, a1)) => match spec_loc(y, a1) {
                        Err(e) => Err(e),
                        Ok((lb, a2)) => match range_locs(tok, x, y, la, lb, a1.item, a2.item) {
                            Err(e) => Err(e),
                            Ok(ls) => Ok((ls, a2)),
                        },
                    },
                }
            },
            None => match spec_loc(tok, a) {
                Err(e) => Err(e),
                Ok((l, a1)) => Ok((seq![l], a1)),
            },
        }
    }
}

/// The places the first `i` members of a list name, after the places `a`.
pub open spec fn expand_upto(toks: Seq<Seq<char>>, i: int, a: AnteModel) -> Result<
    (Seq<LocModel>, AnteModel),
    PlaceError,
>
    decreases i,
{
    if i <= 0 {
        Ok((Seq::empty(), a))
    } else {
        match expand_upto(toks, i - 1, a) {
            Err(e) => Err(e),
            Ok((out, a1)) => match token_locs(toks[i - 1], a1) {
                Err(e) => Err(e),
                Ok((ls, a2)) => Ok((out + ls, a2)),
            },
        }
    }
}

/// The places a list of places (`第七条第一項及び第二項並びに第八条`) names, after the places
/// `a`: each member in turn, without `の規定`.
pub open spec fn spec_expand_locs(s: Seq<char>, a: AnteModel) -> Result<
    (Seq<LocModel>, AnteModel),
    PlaceError,
> {
    let toks = list_items(trim_suffix_all(s, "の規定"@));
    expand_upto(toks, toks.len() as int, a)
}

/// The values of the places.
pub open spec fn locs_view(v: Seq<Loc>) -> Seq<LocModel> {
    v.map_values(|l: Loc| l@)
}

pub(crate) fn list_items_of(c: &Vec<char>) -> (r: Vec<Vec<char>>)
    ensures
        crate::text::seqs_of(r@) == list_items(c@),
        forall|k: int| 0 <= k < r@.len() ==> (#[trigger] r@[k])@.len() <= c@.len(),
{
    let mut out: Vec<Vec<char>> = Vec::new();
    let mut start: usize = 0;
    let mut i: usize = 0;
    while i < c.len()
        invariant
            start <= i <= c.len(),
            list_items(c@) == crate::text::seqs_of(out@) + list_items_from(c@, i as int, start as int),
            forall|k: int| 0 <= k < out@.len() ==> (#[trigger] out@[k])@.len() <= c@.len(),
        decreases c.len() - i,
    {
        let n: usize = if c.len() - i > 2 && c[i] == '並' && c[i + 1] == 'び' && c[i + 2] == 'に' {
            3
        } else if c.len() - i > 1 && c[i] == '及' && c[i + 1] == 'び' {
            2
        } else if c[i] == '、' {
            1
        } else {
            0
        };
        assert(n == sep_len(c@, i as int));
        if n > 0 {
            let piece = slice_range(c.as_slice(), start, i);
            let ghost before = out@;
            out.push(piece);
            assert(crate::text::seqs_of(out@) =~= crate::text::seqs_of(before) + seq![piece@]);
            i = i + n;
            start = i;
        } else {
            i = i + 1;
        }
    }
    let piece = slice_range(c.as_slice(), start, c.len());
    let ghost before = out@;
    out.push(piece);
    assert(crate::text::seqs_of(out@) =~= crate::text::seqs_of(before) + seq![piece@]);
    out
}

pub(crate) fn trim_suffix_all_chars(c: Vec<char>, p: &str) -> (r: Vec<char>)
    ensures
        r@ == trim_suffix_all(c@, p@),
        r@.len() <= c@.len(),
{
    let n = chars_of(p).len();
    let mut t = c;
    while n > 0 && chars_end_with(t.as_slice(), p)
        invariant
            n == p@.len(),
            trim_suffix_all(c@, p@) == trim_suffix_all(t@, p@),
            t@.len() <= c@.len(),
        decreases t.len(),
    {
        t = slice_to(t.as_slice(), t.len() - n);
    }
    t
}

fn no_newline(c: &Vec<char>, lo: usize, hi: usize) -> (r: bool)
    requires
        lo <= hi <= c.len(),
    ensures
        r == !c@.subrange(lo as int, hi as int).contains('\n'),
{
    let mut k = lo;
    while k < hi
        invariant
            lo <= k <= hi <= c.len(),
            forall|j: int| lo <= j < k ==> c@[j] != '\n',
        decreases hi - k,
    {
        if c[k] == '\n' {
            assert(c@.subrange(lo as int, hi as int)[k - lo] == '\n');
            return false;
        }
        k = k + 1;
    }
    assert forall|j: int| 0 <= j < hi - lo implies c@.subrange(lo as int, hi as int)[j] != '\n' by {
        assert(c@.subrange(lo as int, hi as int)[j] == c@[lo + j]);
    }
    true
}

fn first_range(t: &Vec<char>) -> (r: Option<usize>)
    ensures
        match r {
            Some(k) => first_range_from(t@, 1) == Some(k as int) && range_split_at(t@, k as int),
            None => first_range_from(t@, 1) is None,
        },
{
    let mut k: usize = 1;
    while k < t.len()
        invariant
            1 <= k,
            first_range_from(t@, 1) == first_range_from(t@, k as int),
        decreases t.len() - k,
    {
        let ok = t.len() >= 5 && k < t.len() - 4 && t[t.len() - 2] == 'ま' && t[t.len() - 1] == 'で'
            && t[k] == 'か' && t[k + 1] == 'ら' && no_newline(t, 0, k) && no_newline(t, k + 2, t.len() - 2);
        assert(t@.take(k as int) == t@.subrange(0, k as int));
        if ok {
            assert(range_split_at(t@, k as int));
            return Some(k);
        }
        assert(!range_split_at(t@, k as int));
        k = k + 1;
    }
    None
}

/// After a place is read, an item it names is the item left for the next place.
proof fn lemma_loc_item(s: Seq<char>, a: AnteModel)
    ensures
        spec_loc(s, a) matches Ok((l, a1)) ==> (l.item is Some ==> a1.item is Some && l.item == Some(
            item_text(a1.item->0),
        )),
{
    reveal(spec_loc);
}

fn kana_range_exec(la: &Loc, ka: u32, kb: u32) -> (r: Vec<Loc>)
    requires
        ka <= 47,
        kb <= 47,
    ensures
        locs_view(r@) == kana_range(la@, ka as nat, kb as nat),
{
    let mut out: Vec<Loc> = Vec::new();
    let mut k = ka;
    while k <= kb
        invariant
            ka <= k <= 48,
            k <= kb + 1 || k == ka,
            kb <= 47,
            out@.len() == k - ka,
            forall|j: int| 0 <= j < out@.len() ==> (#[trigger] out@[j])@ == (LocModel {
                sub: Some(crate::parse::spec_kana_of((ka + j) as nat)),
                ..la@
            }),
        decreases 48 - k,
    {
        let mut l = la.copy();
        l.sub = Some(crate::parse::kana_of(k));
        out.push(l);
        k = k + 1;
    }
    assert(locs_view(out@) =~= kana_range(la@, ka as nat, kb as nat));
    out
}

fn para_range_exec(art: &ArticleNum, p: u32, q: u32) -> (r: Vec<Loc>)
    ensures
        locs_view(r@) == para_range(art@, p, q),
{
    let mut out: Vec<Loc> = Vec::new();
    let mut n: u64 = p as u64;
    while n <= q as u64
        invariant
            p <= n <= q as u64 + 1 || n == p,
            out@.len() == n - p,
            forall|j: int| 0 <= j < out@.len() ==> (#[trigger] out@[j])@ == (LocModel {
                article: art@,
                paragraph: Some((p + j) as u32),
                item: None,
                part: None,
                suppl: false,
                sub: None,
            }),
        decreases q as u64 + 1 - n,
    {
        let l = Loc {
            article: art.copy(),
            paragraph: Some(ParaRef::Num(n as u32)),
            item: None,
            part: None,
            suppl: false,
            sub: None,
        };
        out.push(l);
        n = n + 1;
    }
    assert(locs_view(out@) =~= para_range(art@, p, q));
    out
}

fn append_locs(out: &mut Vec<Loc>, ls: Vec<Loc>)
    ensures
        locs_view(final(out)@) == locs_view(old(out)@) + locs_view(ls@),
{
    let mut ls = ls;
    let ghost o = out@;
    let ghost l = ls@;
    out.append(&mut ls);
    assert(locs_view(out@) =~= locs_view(o) + locs_view(l));
}

/// The places `la` with each item numbered from `from` to `to`.
fn item_run(la: &Loc, from: u64, to: u64) -> (r: Vec<Loc>)
    requires
        to <= u32::MAX,
    ensures
        locs_view(r@) == Seq::new(
            if to + 1 >= from {
                (to + 1 - from) as nat
            } else {
                0
            },
            |k: int| LocModel { item: Some(spec_decimal((from + k) as nat)), ..la@ },
        ),
{
    let mut out: Vec<Loc> = Vec::new();
    let mut n: u64 = from;
    while n <= to
        invariant
            from <= n <= to + 1 || n == from,
            to <= u32::MAX,
            out@.len() == n - from,
            forall|j: int| 0 <= j < out@.len() ==> (#[trigger] out@[j])@ == (LocModel {
                item: Some(spec_decimal((from + j) as nat)),
                ..la@
            }),
        decreases to + 1 - n,
    {
        let mut l = la.copy();
        let mut t = String::new();
        push_decimal(&mut t, n);
        assert(t@ =~= spec_decimal(n as nat));
        l.item = Some(t);
        out.push(l);
        n = n + 1;
    }
    let ghost expect = Seq::new(
        if to + 1 >= from {
            (to + 1 - from) as nat
        } else {
            0
        },
        |k: int| LocModel { item: Some(spec_decimal((from + k) as nat)), ..la@ },
    );
    assert(locs_view(out@) =~= expect);
    out
}

/// `la` with the item `parts`, or nothing when `parts` has no branch.
fn branched_item(la: &Loc, parts: &Vec<u32>) -> (r: Vec<Loc>)
    ensures
        locs_view(r@) == if parts@.len() > 1 {
            seq![LocModel { item: Some(item_text(nats(parts@))), ..la@ }]
        } else {
            Seq::empty()
        },
{
    let mut out: Vec<Loc> = Vec::new();
    if parts.len() > 1 {
        let mut l = la.copy();
        l.item = Some(item_string(parts));
        out.push(l);
    }
    assert(locs_view(out@) =~= if parts@.len() > 1 {
        seq![LocModel { item: Some(item_text(nats(parts@))), ..la@ }]
    } else {
        Seq::empty()
    });
    out
}

fn item_range_exec(la: &Loc, pa: &Vec<u32>, pb: &Vec<u32>) -> (r: Vec<Loc>)
    ensures
        locs_view(r@) == item_range(la@, nats(pa@), nats(pb@)),
{
    let ghost spa = nats(pa@);
    let ghost spb = nats(pb@);
    assert(spa.len() == pa@.len() && spb.len() == pb@.len());
    assert(pa@.len() > 0 ==> spa[0] == pa@[0] as nat);
    assert(pb@.len() > 0 ==> spb[0] == pb@[0] as nat);
    let mut out = branched_item(la, pa);
    let bra: u64 = if pa.len() > 1 { 1 } else { 0 };
    let from: u64 = (if pa.len() > 0 { pa[0] } else { 0 }) as u64 + bra;
    let to: u64 = (if pb.len() > 0 { pb[0] } else { 0 }) as u64;
    append_locs(&mut out, item_run(la, from, to));
    append_locs(&mut out, branched_item(la, pb));
    out
}

/// The items, as numbers, of an optional item.
fn copy_parts(o: &Option<Vec<u32>>) -> (r: Option<Vec<u32>>)
    ensures
        match (r, *o) {
            (Some(x), Some(y)) => x@ == y@,
            (None, None) => true,
            _ => false,
        },
{
    match o {
        Some(v) => Some(v.clone()),
        None => None,
    }
}

fn range_locs_exec(
    tok: &Vec<char>,
    x: &Vec<char>,
    y: &Vec<char>,
    la: Loc,
    lb: Loc,
    pa: &Option<Vec<u32>>,
    pb: &Option<Vec<u32>>,
) -> (r: Result<Vec<Loc>, ParseError>)
    requires
        la@.item is Some ==> pa is Some,
        lb@.item is Some ==> pb is Some,
    ensures
        match range_locs(
            tok@,
            x@,
            y@,
            la@,
            lb@,
            match *pa {
                Some(v) => Some(nats(v@)),
                None => None,
            },
            match *pb {
                Some(v) => Some(nats(v@)),
                None => None,
            },
        ) {
            Ok(ls) => r is Ok && locs_view(r->Ok_0@) == ls,
            Err(e) => r is Err && error_is(r->Err_0, e),
        },
{
    proof {
        reveal(range_locs);
    }
    let xk = x.len() > 0 && is_kana(x[x.len() - 1]);
    let yk = y.len() > 0 && is_kana(y[y.len() - 1]);
    if la.sub.is_some() && lb.sub.is_some() && xk && yk {
        let ka = match &la.sub {
            Some(t) => crate::parse::kana_index(t.as_str()),
            None => 0,
        };
        let kb = match &lb.sub {
            Some(t) => crate::parse::kana_index(t.as_str()),
            None => 0,
        };
        return Ok(kana_range_exec(&la, ka, kb));
    }
    if la.item.is_some() && lb.item.is_some() {
        match (pa, pb) {
            (Some(va), Some(vb)) => {
                return Ok(item_range_exec(&la, va, vb));
            },
            _ => {
                return Ok(Vec::new());
            },
        }
    }
    match (&la.paragraph, &lb.paragraph) {
        (Some(ParaRef::Num(p)), Some(ParaRef::Num(q))) => Ok(para_range_exec(&la.article, *p, *q)),
        (None, None) => {
            let l = Loc {
                article: ArticleNum::Range { from: Box::new(la.article), to: Box::new(lb.article) },
                paragraph: None,
                item: None,
                part: None,
                suppl: false,
                sub: None,
            };
            let v = vec![l];
            assert(locs_view(v@) =~= seq![l@]);
            Ok(v)
        },
        _ => Err(ParseError::Unrecognized(string_of(tok.as_slice()))),
    }
}

/// The places one member of a list names (see [`token_locs`]).
fn token_locs_exec(tok0: Vec<char>, ante: &mut Ante) -> (r: Result<Vec<Loc>, ParseError>)
    ensures
        match token_locs(tok0@, old(ante)@) {
            Ok((ls, a)) => r is Ok && locs_view(r->Ok_0@) == ls && final(ante)@ == a,
            Err(e) => r is Err && error_is(r->Err_0, e),
        },
{
    proof {
        reveal(token_locs);
    }
    let tok = trim_suffix_all_chars(tok0, "の規定");
    if tok.len() == 0 {
        let v: Vec<Loc> = Vec::new();
        assert(locs_view(v@) =~= Seq::<LocModel>::empty());
        return Ok(v);
    }
    match first_range(&tok) {
        Some(k) => {
            let x = slice_to(tok.as_slice(), k);
            let y = slice_range(tok.as_slice(), k + 2, tok.len() - 2);
            let xs = string_of(x.as_slice());
            let ys = string_of(y.as_slice());
            proof {
                lemma_loc_item(x@, ante@);
            }
            let la = match loc(xs.as_str(), ante) {
                Ok(l) => l,
                Err(e) => {
                    return Err(e);
                },
            };
            let pa = copy_parts(&ante.item);
            proof {
                lemma_loc_item(y@, ante@);
            }
            let lb = match loc(ys.as_str(), ante) {
                Ok(l) => l,
                Err(e) => {
                    return Err(e);
                },
            };
            let pb = copy_parts(&ante.item);
            range_locs_exec(&tok, &x, &y, la, lb, &pa, &pb)
        },
        None => {
            let ts = string_of(tok.as_slice());
            match loc(ts.as_str(), ante) {
                Ok(l) => {
                    let v = vec![l];
                    assert(locs_view(v@) =~= seq![l@]);
                    Ok(v)
                },
                Err(e) => Err(e),
            }
        },
    }
}

/// An error while reading a member of a list is the error of the whole list.
proof fn lemma_expand_error(toks: Seq<Seq<char>>, i: int, j: int, a: AnteModel)
    requires
        0 <= i <= j,
        expand_upto(toks, i, a) is Err,
    ensures
        expand_upto(toks, j, a) == expand_upto(toks, i, a),
    decreases j - i,
{
    if j > i {
        lemma_expand_error(toks, i, j - 1, a);
    }
}

/// Reads the list of places `s` after the places `ante` and updates `ante` (see
/// [`spec_expand_locs`]).
pub fn expand_locs(s: &str, ante: &mut Ante) -> (r: Result<Vec<Loc>, ParseError>)
    ensures
        match spec_expand_locs(s@, old(ante)@) {
            Ok((ls, a)) => r is Ok && locs_view(r->Ok_0@) == ls && final(ante)@ == a,
            Err(e) => r is Err && error_is(r->Err_0, e),
        },
{
    let c = trim_suffix_all_chars(chars_of(s), "の規定");
    let toks = list_items_of(&c);
    let ghost ts = crate::text::seqs_of(toks@);
    let ghost a0 = ante@;
    let mut out: Vec<Loc> = Vec::new();
    let mut i: usize = 0;
    assert(locs_view(out@) =~= Seq::<LocModel>::empty());
    while i < toks.len()
        invariant
            i <= toks.len(),
            ts == crate::text::seqs_of(toks@),
            ts == list_items(c@),
            c@ == trim_suffix_all(s@, "の規定"@),
            a0 == old(ante)@,
            forall|k: int| 0 <= k < toks@.len() ==> (#[trigger] toks@[k])@.len() <= c@.len(),
            expand_upto(ts, i as int, a0) == Ok::<(Seq<LocModel>, AnteModel), PlaceError>(
                (locs_view(out@), ante@),
            ),
        decreases toks.len() - i,
    {
        let t = toks[i].clone();
        assert(t@ == ts[i as int]);
        let ghost before = ante@;
        match token_locs_exec(t, ante) {
            Ok(ls) => {
                append_locs(&mut out, ls);
            },
            Err(e) => {
                proof {
                    assert(token_locs(ts[i as int], before) is Err);
                    assert(expand_upto(ts, i + 1, a0) == token_locs(ts[i as int], before));
                    lemma_expand_error(ts, i + 1, ts.len() as int, a0);
                }
                return Err(e);
            },
        }
        i = i + 1;
    }
    assert(ts.len() == toks@.len());
    Ok(out)
}

// ---------------------------------------------------------------------------------------
// The amending provisions named by a clause of the supplementary provisions

/// The first position from `i` on where `p` starts in `t`, or the length of `t`.
pub open spec fn first_at(t: Seq<char>, p: Seq<char>, i: int) -> int
    decreases t.len() - i,
{
    if i >= t.len() {
        t.len() as int
    } else if starts_with(t.skip(i), p) {
        i
    } else {
        first_at(t, p, i + 1)
    }
}

/// Where the place in the name of an amending provision starts: at the first `附則第`,
/// `第` or `同条` (the name of the statute before it is dropped).
pub open spec fn scope_start(t: Seq<char>) -> int {
    let a = first_at(t, "附則第"@, 0);
    let b = first_at(t, "第"@, 0);
    let c = first_at(t, "同条"@, 0);
    let m = if a <= b {
        a
    } else {
        b
    };
    if m <= c {
        m
    } else {
        c
    }
}

/// The end of the place at the head of `t` (`附則第九条第二項第三号の二`, `同条第一項`), or -1
/// when `t` starts with none.
pub open spec fn head_end(t: Seq<char>) -> int {
    let q = if pair_at(t, 0, '附', '則') {
        2
    } else {
        0
    };
    if numbered_at(t, q, '条') {
        let e1 = branch_end(t, after_number(t, q));
        let e2 = if numbered_at(t, e1, '項') {
            after_number(t, e1)
        } else {
            e1
        };
        if numbered_at(t, e2, '号') {
            branch_end(t, after_number(t, e2))
        } else {
            e2
        }
    } else if pair_at(t, 0, '同', '条') {
        if numbered_at(t, 2, '項') {
            after_number(t, 2)
        } else {
            2
        }
    } else {
        -1
    }
}

/// The place that a member of the list of amending provisions names: for a member that
/// ends with `改正規定`, from its first `附則第`, `第` or `同条` on, the text before
/// `の改正規定`, or else the place at its head (`第九条に一項を加える改正規定` names
/// `第九条`). `None` for any other member.
pub open spec fn scope_place(tok: Seq<char>) -> Option<Seq<char>> {
    let t = crate::op::trim_ws(tok);
    if !ends_with(t, "改正規定"@) {
        None
    } else {
        let t2 = t.skip(scope_start(t));
        let t3 = if ends_with(t2, "の改正規定"@) {
            strip_suffix(t2, "の改正規定"@)
        } else if head_end(t2) >= 0 {
            t2.take(head_end(t2))
        } else {
            Seq::empty()
        };
        if t3.len() == 0 {
            None
        } else {
            Some(t3)
        }
    }
}

/// The places the first `i` members of the list of amending provisions name.
pub open spec fn scope_upto(items: Seq<Seq<char>>, i: int) -> Result<(Seq<LocModel>, AnteModel), PlaceError>
    decreases i,
{
    if i <= 0 {
        Ok((Seq::empty(), empty_ante()))
    } else {
        match scope_upto(items, i - 1) {
            Err(e) => Err(e),
            Ok((out, a)) => match scope_place(items[i - 1]) {
                None => Ok((out, a)),
                Some(t) => match spec_expand_locs(t, a) {
                    Err(e) => Err(e),
                    Ok((ls, a2)) => Ok((out + ls, a2)),
                },
            },
        }
    }
}

/// The places that a list of amending provisions
/// (`医師法第十六条の十一第一項の改正規定及び同法第十七条の改正規定`) names, in order; members
/// that are no amending provision are passed over.
pub open spec fn spec_parse_scope_locs(scope: Seq<char>) -> Result<Seq<LocModel>, PlaceError> {
    let items = list_items(scope);
    match scope_upto(items, items.len() as int) {
        Ok((out, _)) => Ok(out),
        Err(e) => Err(e),
    }
}

pub(crate) fn first_at_exec(t: &Vec<char>, p: &str) -> (r: usize)
    ensures
        r == first_at(t@, p@, 0),
{
    let mut i: usize = 0;
    while i < t.len()
        invariant
            i <= t.len(),
            first_at(t@, p@, 0) == first_at(t@, p@, i as int),
        decreases t.len() - i,
    {
        if has_at(t.as_slice(), i, p) {
            return i;
        }
        i = i + 1;
    }
    i
}

fn head_end_exec(t: &Vec<char>) -> (r: Option<usize>)
    ensures
        match r {
            Some(e) => head_end(t@) == e as int,
            None => head_end(t@) == -1,
        },
        r matches Some(e) ==> e <= t@.len(),
{
    let q: usize = if crate::place::pair_at_exec(t, 0, '附', '則') { 2 } else { 0 };
    let (art, ae) = numbered_at_exec(t, q, '条');
    if art {
        let e1 = branch_scan_end(t, ae + 1);
        let (para, pe) = numbered_at_exec(t, e1, '項');
        let e2 = if para { pe + 1 } else { e1 };
        let (item, ie) = numbered_at_exec(t, e2, '号');
        if item {
            Some(branch_scan_end(t, ie + 1))
        } else {
            Some(e2)
        }
    } else if crate::place::pair_at_exec(t, 0, '同', '条') {
        let (para, pe) = numbered_at_exec(t, 2, '項');
        if para {
            Some(pe + 1)
        } else {
            Some(2)
        }
    } else {
        None
    }
}

fn scope_place_of(tok: &Vec<char>) -> (r: Option<Vec<char>>)
    ensures
        match scope_place(tok@) {
            Some(t) => r is Some && r->0@ == t,
            None => r is None,
        },
        r matches Some(t) ==> t@.len() <= tok@.len(),
{
    let ts = string_of(tok.as_slice());
    let tr = crate::op::trim_string(&ts);
    let t = chars_of(tr.as_str());
    proof {
        crate::op::lemma_trim_ws_len(tok@);
    }
    if !chars_end_with(t.as_slice(), "改正規定") {
        return None;
    }
    let a = first_at_exec(&t, "附則第");
    let b = first_at_exec(&t, "第");
    let c = first_at_exec(&t, "同条");
    let m = if a <= b { a } else { b };
    let start = if m <= c { m } else { c };
    proof {
        lemma_first_at(t@, "附則第"@, 0);
        lemma_first_at(t@, "第"@, 0);
        lemma_first_at(t@, "同条"@, 0);
    }
    let t2 = slice_from(t.as_slice(), start);
    let t3 = if chars_end_with(t2.as_slice(), "の改正規定") {
        strip_suffix_chars(t2, "の改正規定")
    } else {
        match head_end_exec(&t2) {
            Some(e) => slice_to(t2.as_slice(), e),
            None => Vec::new(),
        }
    };
    if t3.len() == 0 {
        None
    } else {
        Some(t3)
    }
}

proof fn lemma_first_at(t: Seq<char>, p: Seq<char>, i: int)
    requires
        0 <= i <= t.len(),
    ensures
        i <= first_at(t, p, i) <= t.len(),
    decreases t.len() - i,
{
    if i < t.len() && !starts_with(t.skip(i), p) {
        lemma_first_at(t, p, i + 1);
    }
}

/// An error while reading a member of the list is the error of the whole list.
proof fn lemma_scope_error(items: Seq<Seq<char>>, i: int, j: int)
    requires
        0 <= i <= j,
        scope_upto(items, i) is Err,
    ensures
        scope_upto(items, j) == scope_upto(items, i),
    decreases j - i,
{
    if j > i {
        lemma_scope_error(items, i, j - 1);
    }
}

/// Reads the places that a list of amending provisions names (see
/// [`spec_parse_scope_locs`]).
pub fn parse_scope_locs(scope: &str) -> (r: Result<Vec<Loc>, ParseError>)
    ensures
        match spec_parse_scope_locs(scope@) {
            Ok(ls) => r is Ok && locs_view(r->Ok_0@) == ls,
            Err(e) => r is Err && error_is(r->Err_0, e),
        },
{
    let c = chars_of(scope);
    let items = list_items_of(&c);
    let ghost its = crate::text::seqs_of(items@);
    let mut ante = Ante::empty();
    let mut out: Vec<Loc> = Vec::new();
    let mut i: usize = 0;
    assert(locs_view(out@) =~= Seq::<LocModel>::empty());
    while i < items.len()
        invariant
            i <= items.len(),
            its == crate::text::seqs_of(items@),
            its == list_items(scope@),
            c@ == scope@,
            forall|k: int| 0 <= k < items@.len() ==> (#[trigger] items@[k])@.len() <= c@.len(),
            scope_upto(its, i as int) == Ok::<(Seq<LocModel>, AnteModel), PlaceError>(
                (locs_view(out@), ante@),
            ),
        decreases items.len() - i,
    {
        assert(items@[i as int]@ == its[i as int]);
        let ghost before = ante@;
        match scope_place_of(&items[i]) {
            None => {},
            Some(t) => {
                let ts = string_of(t.as_slice());
                match expand_locs(ts.as_str(), &mut ante) {
                    Ok(ls) => {
                        append_locs(&mut out, ls);
                    },
                    Err(e) => {
                        proof {
                            assert(scope_upto(its, i + 1) == spec_expand_locs(t@, before));
                            lemma_scope_error(its, i + 1, its.len() as int);
                        }
                        return Err(e);
                    },
                }
            },
        }
        i = i + 1;
    }
    assert(its.len() == items@.len());
    Ok(out)
}

} // verus!
