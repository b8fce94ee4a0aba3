//! The vocabulary of amendment instructions: where an instruction points, and what it does
//! to captions, tables and the parts of a sentence.

use vstd::prelude::*;
use crate::article_num::ArticleNum;
use crate::reiki_style::{is_white_space, lemma_trim_end, trim_end, white_space};
use crate::text::{chars_of, string_of};

verus! {

/// How a paragraph is pointed at. Within one instruction, by its number before the
/// amendment (before any renumbering).
#[derive(Debug, Clone, PartialEq, Eq)]
pub enum ParaRef {
    Num(u32),
}

/// A part of the sentences of a paragraph.
#[derive(Debug, Clone, Copy, PartialEq, Eq)]
pub enum SentencePart {
    /// The first sentence (`前段`).
    Front,
    /// The second sentence (`後段`).
    Back,
    /// The proviso (`ただし書`).
    Proviso,
    /// The main text, without the proviso (`本文`).
    Main,
    /// The text of the paragraph apart from its items (`各号列記以外の部分`).
    Chapeau,
}

/// The place an instruction amends.
#[derive(Debug, PartialEq, Eq)]
pub struct Loc {
    pub article: ArticleNum,
    pub paragraph: Option<ParaRef>,
    /// The item (`第三号の二` is `3_2`). When given, phrases are replaced only in that item
    /// (and the items below it).
    pub item: Option<String>,
    /// The part of the sentence (`ただし書`, `本文`, `前段`, `後段`, `各号列記以外の部分`).
    /// When given, phrases are replaced only in that part.
    pub part: Option<SentencePart>,
    /// An article of the original supplementary provisions (`附則第七条第六項`), amended in
    /// the document only.
    pub suppl: bool,
    /// The sub-item below the item (`同号ロ` is `ロ`). When given, phrases are replaced only in
    /// that sub-item.
    pub sub: Option<String>,
}

/// The mathematical value of a [`Loc`].
pub struct LocModel {
    pub article: crate::article_num::ArticleNumModel,
    pub paragraph: Option<u32>,
    pub item: Option<Seq<char>>,
    pub part: Option<SentencePart>,
    pub suppl: bool,
    pub sub: Option<Seq<char>>,
}

/// The characters of an optional text.
pub open spec fn opt_text(o: Option<String>) -> Option<Seq<char>> {
    match o {
        Some(s) => Some(s@),
        None => None,
    }
}

/// The number of a paragraph reference.
pub open spec fn para_ref_num(p: Option<ParaRef>) -> Option<u32> {
    match p {
        Some(ParaRef::Num(n)) => Some(n),
        None => None,
    }
}

impl View for Loc {
    type V = LocModel;

    open spec fn view(&self) -> LocModel {
        LocModel {
            article: self.article@,
            paragraph: para_ref_num(self.paragraph),
            item: opt_text(self.item),
            part: self.part,
            suppl: self.suppl,
            sub: opt_text(self.sub),
        }
    }
}

/// A copy of the optional text.
pub(crate) fn copy_text(o: &Option<String>) -> (r: Option<String>)
    ensures
        opt_text(r) == opt_text(*o),
{
    match o {
        Some(s) => Some(s.clone()),
        None => None,
    }
}

impl Loc {
    /// A copy of the place.
    pub fn copy(&self) -> (r: Loc)
        ensures
            r@ == self@,
    {
        Loc {
            article: self.article.copy(),
            paragraph: match &self.paragraph {
                Some(ParaRef::Num(n)) => Some(ParaRef::Num(*n)),
                None => None,
            },
            item: copy_text(&self.item),
            part: self.part,
            suppl: self.suppl,
            sub: copy_text(&self.sub),
        }
    }

    /// The place `article` (and `paragraph`), with no item, part or sub-item, in the main
    /// provisions.
    pub fn new(article: ArticleNum, paragraph: Option<ParaRef>) -> (l: Loc)
        ensures
            l.article == article,
            l.paragraph == paragraph,
            l.item is None,
            l.part is None,
            !l.suppl,
            l.sub is None,
    {
        Loc { article, paragraph, item: None, part: None, suppl: false, sub: None }
    }
}

/// What an instruction does to a caption (of an article or a paragraph).
#[derive(Debug, Clone, PartialEq, Eq)]
pub enum CaptionEdit {
    /// `見出し中「A」を「B」に改め` (deletion has an empty `to`; `の下に` has `to = A + B`).
    Replace { from: String, to: String },
    /// `見出しを「（X）」に改め`, or `見出しを次のように改める` followed by `（X）`.
    SetText(String),
    /// `見出しとして「（X）」を付する`.
    Attach(String),
    /// `見出しを削る`.
    Delete,
}

/// Where a table is.
#[derive(Debug, PartialEq, Eq)]
pub enum TableRef {
    /// An appended table (`別表第一`, `別表甲号`, `別表第一号表`; an enumeration such as
    /// `別表第一から第四まで` as written).
    Appdx(String),
    /// A table in an article or paragraph (`第十三条第一項の表`).
    InArticle(Loc),
    /// The preamble (`前文のうち第五項中`): no table, amended by position in the text.
    Preamble,
}

/// The mathematical value of a [`TableRef`].
pub enum TableRefModel {
    Appdx(Seq<char>),
    InArticle(LocModel),
    Preamble,
}

impl View for TableRef {
    type V = TableRefModel;

    open spec fn view(&self) -> TableRefModel {
        match self {
            TableRef::Appdx(t) => TableRefModel::Appdx(t@),
            TableRef::InArticle(l) => TableRefModel::InArticle(l@),
            TableRef::Preamble => TableRefModel::Preamble,
        }
    }
}

impl TableRef {
    /// A copy of the table reference.
    pub fn copy(&self) -> (r: TableRef)
        ensures
            r@ == self@,
    {
        match self {
            TableRef::Appdx(t) => TableRef::Appdx(t.clone()),
            TableRef::InArticle(l) => TableRef::InArticle(l.copy()),
            TableRef::Preamble => TableRef::Preamble,
        }
    }
}

/// What an instruction does at a place in a table.
#[derive(Debug, Clone, PartialEq, Eq)]
pub enum TableAction {
    /// `中「A」を「B」に改め` (deletion has an empty `to`; `の下に「B」を加え` has `to = A + B`).
    Phrase { from: String, to: String },
    /// `を次のように改める` with the new content.
    Replace { text: Vec<String> },
    /// `を削る`.
    Delete,
    /// `の次に次の…を加える` with the content.
    InsertAfter { text: Vec<String> },
    /// `の前に次の…を加える` with the content.
    InsertBefore { text: Vec<String> },
    /// `に次の…を加える`, `に次のように加える` with the content.
    Append { text: Vec<String> },
    /// `を…とする`.
    Renumber { to: String },
    /// `第三号から第五号までを一号ずつ繰り上げる`: the numbers of the range move by `by`.
    Shift { by: i32 },
}


/// A kind of division of a statute.
#[derive(Debug, Clone, Copy, PartialEq, Eq)]
pub enum ContainerKind {
    /// `編`
    Part,
    /// `章`
    Chapter,
    /// `節`
    Section,
    /// `款`
    Subsection,
    /// `目`
    Division,
}

/// The divisions of a path, each with its number as text.
pub open spec fn path_view(p: Seq<(ContainerKind, String)>) -> Seq<(ContainerKind, Seq<char>)> {
    p.map_values(|e: (ContainerKind, String)| (e.0, e.1@))
}

/// A copy of a path of divisions.
pub fn copy_path(p: &Vec<(ContainerKind, String)>) -> (r: Vec<(ContainerKind, String)>)
    ensures
        path_view(r@) == path_view(p@),
{
    let mut r: Vec<(ContainerKind, String)> = Vec::new();
    let mut i: usize = 0;
    while i < p.len()
        invariant
            i <= p.len(),
            r@.len() == i,
            forall|j: int| 0 <= j < i ==> (#[trigger] r@[j]).0 == p@[j].0 && r@[j].1@ == p@[j].1@,
        decreases p.len() - i,
    {
        let k = p[i].0;
        let n = p[i].1.clone();
        r.push((k, n));
        i = i + 1;
    }
    assert(path_view(r@) =~= path_view(p@));
    r
}

/// An operation of an instruction.
#[derive(Debug, PartialEq, Eq)]
pub enum Op {
    /// `目次中「A」を「B」に改める`: a phrase of the table of contents.
    ReplaceToc {
        from: String,
        to: String,
    },
    /// `本則中「A」を「B」に改める` (or an old instruction without a place): a phrase in every article of the main provisions.
    ReplaceAll {
        from: String,
        to: String,
    },
    /// `第N条[第M項]中「A」を「B」に改める`: every occurrence of a phrase at the place.
    Replace {
        at: Loc,
        from: String,
        to: String,
    },
    /// `第N条[第M項]中「A」の下に「B」を加える`: text after a phrase.
    InsertAfterPhrase {
        at: Loc,
        anchor: String,
        text: String,
    },
    /// `第N条に次の一項を加える`: a paragraph at the end of an article.
    AppendParagraph {
        article: ArticleNum,
        text: Vec<String>,
    },
    /// `第N条第M項の次に次の一項を加える`: a paragraph after another.
    InsertParagraphAfter {
        article: ArticleNum,
        after: ParaRef,
        text: Vec<String>,
    },
    /// `同条に第一項として次の一項を加える`: a paragraph at the start of an article.
    InsertParagraphFirst {
        article: ArticleNum,
        text: Vec<String>,
    },
    /// `第N章に次の一条を加える`: articles at the end of a division (`path` from the outside).
    AppendArticle {
        path: Vec<(ContainerKind, String)>,
        text: Vec<String>,
    },
    /// `附則に次の二条を加える`: articles at the end of the original supplementary provisions.
    AppendSupplArticles {
        text: Vec<String>,
    },
    /// `本則に次の一章を加える`: divisions at the end of the main provisions (empty `path`) or of a division.
    AppendContainers {
        path: Vec<(ContainerKind, String)>,
        text: Vec<String>,
    },
    /// `第N条の前に次の三条を加える`: articles before an article.
    InsertArticleBefore {
        before: ArticleNum,
        text: Vec<String>,
        suppl: bool,
    },
    /// `第三十八条の表第七十条第二項の項中「A」を「B」に改め`: a phrase in a row (its first column `row`) of a table in an article.
    ReplaceTableRow {
        at: Loc,
        row: String,
        from: String,
        to: String,
    },
    /// `同項に次の表を加える`: a table at the end of a paragraph.
    AppendTable {
        at: Loc,
        text: Vec<String>,
    },
    /// `別表第一及び別表第二を削る`.
    DeleteAppdx {
        tables: Vec<String>,
    },
    /// `同項後段を削る`, `同項ただし書を削る`.
    DeleteSentencePart {
        at: Loc,
        part: SentencePart,
    },
    /// `第N章の章名中「A」を「B」に改める`: a phrase of the title of a division.
    ReplaceContainerTitle {
        path: Vec<(ContainerKind, String)>,
        from: String,
        to: String,
    },
    /// `第N章の次に次の一章を加える`: divisions after a division.
    InsertContainersAfter {
        path: Vec<(ContainerKind, String)>,
        text: Vec<String>,
    },
    /// `同節の前に次の一節を加える`: divisions before a division.
    InsertContainersBefore {
        path: Vec<(ContainerKind, String)>,
        text: Vec<String>,
    },
    /// `第N章を第M章とする`: a division renumbered (`2`, `2_2`).
    RenumberContainer {
        path: Vec<(ContainerKind, String)>,
        to: String,
    },
    /// `第N条の次に次の一条を加える` (`suppl`: in the original supplementary provisions).
    InsertArticleAfter {
        after: ArticleNum,
        text: Vec<String>,
        suppl: bool,
    },
    /// `第N条第M項に後段として次のように加える`: a sentence at the end of a paragraph.
    AppendSentence {
        at: Loc,
        text: Vec<String>,
    },
    /// `第N条を次のように改める`.
    ReplaceArticle {
        article: ArticleNum,
        text: Vec<String>,
    },
    /// `第N条第M項を次のように改める`: the whole text of a paragraph (with its items).
    ReplaceParagraph {
        at: Loc,
        text: Vec<String>,
    },
    /// `同項第三号を次のように改める`: a whole item (with its sub-items).
    ReplaceItem {
        at: Loc,
        text: Vec<String>,
    },
    /// `題名を次のように改める`.
    SetTitle {
        text: Vec<String>,
    },
    /// `題名中「A」を「B」に改める` (`の下に` has `to = A + B`).
    ReplaceTitle {
        from: String,
        to: String,
    },
    /// `目次を削る`.
    DeleteToc,
    /// `題名及び目次を次のように改める`.
    SetTitleAndToc {
        text: Vec<String>,
    },
    /// `題名を削る`.
    DeleteTitle,
    /// `附則第一項を附則第一条とし`: a paragraph of supplementary provisions made an article (or a paragraph `para` of one).
    ParagraphToArticle {
        from: u32,
        to: ArticleNum,
        para: Option<u32>,
    },
    /// `第二章の二を削る`: one division (the last of `path`).
    DeleteContainer {
        path: Vec<(ContainerKind, String)>,
    },
    /// `第六章を第七章とし、以下順次一章ずつ繰り下げ`: the numbers of a range of divisions of `kind` move by `by`.
    ShiftContainers {
        path: Vec<(ContainerKind, String)>,
        kind: ContainerKind,
        from: u32,
        to: u32,
        by: i32,
    },
    /// `第十三条の十一から第十三条の十五までを一条ずつ繰り下げ`: the branch numbers of a range of articles move by `by`.
    ShiftBranchArticles {
        base: u32,
        from: u32,
        to: u32,
        by: i32,
    },
    /// `第三章中「A」を「B」に改める`: a phrase in a division (the main provisions when `path` is empty), `except` and `except_titles` left out.
    ReplaceInContainer {
        path: Vec<(ContainerKind, String)>,
        except: Vec<Loc>,
        except_titles: Vec<Vec<(ContainerKind, String)>>,
        from: String,
        to: String,
    },
    /// `第四章の章名及び同章第一節の節名を次のように改める`: the titles of several divisions in turn.
    SetContainerTitles {
        paths: Vec<Vec<(ContainerKind, String)>>,
        text: Vec<String>,
    },
    /// `第一条の条名を削る`: the number of the one remaining article dropped.
    DeleteArticleTitle {
        article: ArticleNum,
    },
    /// `第七十一条の付記中「A」を「B」に改める`: a phrase of the note of an article.
    ReplaceSupplNote {
        article: ArticleNum,
        from: String,
        to: String,
    },
    /// `第百一条の付記を削る`.
    DeleteSupplNote {
        article: ArticleNum,
    },
    /// `同条を第四章第三節中第三十六条とする`: an article moved to another division and renumbered.
    MoveArticle {
        from: ArticleNum,
        path: Vec<(ContainerKind, String)>,
        to: ArticleNum,
    },
    /// `第四章の二第三節を第四章の三第一節とする`: a division moved into another.
    MoveContainer {
        from: Vec<(ContainerKind, String)>,
        to: Vec<(ContainerKind, String)>,
    },
    /// `同条第二項を第百十三条の二の六とする`: a paragraph made an article (or a paragraph of one).
    MoveParagraph {
        article: ArticleNum,
        paragraph: u32,
        to: String,
    },
    /// `第二編第三章の章名及び第八十一条から第八十八条までを次のように改める`: places of several kinds at once (`scope` as written).
    ReplaceStructure {
        scope: String,
        text: Vec<String>,
    },
    /// `第六十五条の付記を次のように改める`.
    SetSupplNote {
        article: ArticleNum,
        text: Vec<String>,
    },
    /// `第五号の二から第五号の四までを一号ずつ繰り下げ`: the branch numbers of a range of items move by `by`.
    ShiftBranchItems {
        at: Loc,
        base: u32,
        from: u32,
        to: u32,
        by: i32,
    },
    /// `…の改正規定を次のように改める`: an amending provision of an amending law itself (`target` as written).
    AmendmentEdit {
        target: String,
        action: TableAction,
    },
    /// `第二条のうち、X法目次の改正規定中「A」を「B」に改める`: a phrase of an amending provision.
    ReplaceInAmendment {
        article: ArticleNum,
        target: String,
        from: String,
        to: String,
    },
    /// `題名の次に次の目次を付する` (`replace`: `目次を次のように改める`).
    SetToc {
        text: Vec<String>,
        replace: bool,
    },
    /// `第三章の章名を削る`: the division joins the one before it.
    DeleteContainerTitle {
        path: Vec<(ContainerKind, String)>,
    },
    /// `第三章第二節から第五節までを削る`.
    DeleteContainers {
        path: Vec<(ContainerKind, String)>,
        kind: ContainerKind,
        from: u32,
        to: u32,
    },
    /// `第百二条及び第百三条を次のように改める`: several articles made one (`削除`).
    ReplaceArticles {
        articles: Vec<ArticleNum>,
        text: Vec<String>,
    },
    /// `別表第二X法（…）の項中「A」を「B」に改める`: a phrase in a row (starting with `row`) of an appended table (`sub`: only that sub-item).
    ReplaceAppdxRow {
        table: String,
        row: String,
        sub: Option<String>,
        from: String,
        to: String,
    },
    /// `別表第一の八の項を次のように改める`: a whole row of an appended table.
    ReplaceAppdxRowWhole {
        table: String,
        row: String,
        text: Vec<String>,
    },
    /// `別表第一中九の項及び一〇の項を削り` (an uncountable range is `A〜B`).
    DeleteAppdxRows {
        table: String,
        rows: Vec<String>,
    },
    /// `同表中一二の項を一一の項とし`: a row of an appended table renumbered.
    RenumberAppdxRow {
        table: String,
        from: String,
        to: String,
    },
    /// `四十四の三の項の次に次のように加える`: rows after a row.
    InsertAppdxRowsAfter {
        table: String,
        after: String,
        text: Vec<String>,
    },
    /// `附則の次に次の別表を加える`.
    AppendAppdx {
        text: Vec<String>,
    },
    /// `同表を別表第三とし`: an appended table renamed.
    RenameAppdx {
        from: String,
        to: String,
    },
    /// `別表第一の次に次の一表を加える`.
    InsertAppdxAfter {
        after: String,
        text: Vec<String>,
    },
    /// `同表の一一の二の項中ハを削り`: a sub-item of a row of an appended table.
    DeleteAppdxRowSub {
        table: String,
        row: String,
        sub: String,
    },
    /// `ニをハとし`: a sub-item of a row of an appended table renumbered.
    RenumberAppdxRowSub {
        table: String,
        row: String,
        from: String,
        to: String,
    },
    /// `第四章及び第五章を次のように改める`.
    ReplaceContainers {
        paths: Vec<Vec<(ContainerKind, String)>>,
        text: Vec<String>,
    },
    /// `第二章の章名を次のように改める`.
    SetContainerTitle {
        path: Vec<(ContainerKind, String)>,
        text: Vec<String>,
    },
    /// `同項中第二十一号を第三十七号とし`: an item renumbered (`3`, `3_2`).
    RenumberItem {
        at: Loc,
        from: String,
        to: String,
    },
    /// `第十二号から第二十号までを十六号ずつ繰り下げ`.
    ShiftItems {
        at: Loc,
        from: u32,
        to: u32,
        by: i32,
    },
    /// `同項第一号の次に次の一号を加える`.
    InsertItemAfter {
        at: Loc,
        after: String,
        text: Vec<String>,
    },
    /// `同号の前に次の一号を加える`.
    InsertItemBefore {
        at: Loc,
        before: String,
        text: Vec<String>,
    },
    /// `同項に次の一号を加える`.
    AppendItem {
        at: Loc,
        text: Vec<String>,
    },
    /// `同項に第一号として次の一号を加える`.
    InsertItemFirst {
        at: Loc,
        text: Vec<String>,
    },
    /// `同項各号を次のように改める`: all the items.
    ReplaceItems {
        at: Loc,
        text: Vec<String>,
    },
    /// `同号ロを同号ハとし`: a sub-item renumbered.
    RenumberSubitem {
        at: Loc,
        from: String,
        to: String,
    },
    /// `ハからホまでをニからヘまでとし`: a range of sub-items moved by `by`.
    ShiftSubitems {
        at: Loc,
        from: String,
        to: String,
        by: i32,
    },
    /// `同号イの次に次のように加える`.
    InsertSubitemAfter {
        at: Loc,
        after: String,
        text: Vec<String>,
    },
    /// `第A号及び第B号を次のように改める`: the items listed (`range`: written `から…まで`).
    ReplaceItemSet {
        at: Loc,
        items: Vec<String>,
        range: bool,
        text: Vec<String>,
    },
    /// `第N条中第P項を第Q項とし`, `同項を同条第D項とし`.
    RenumberParagraph {
        article: ArticleNum,
        from: ParaRef,
        to: u32,
    },
    /// `第A項から第B項までをK項ずつ繰り下げ`.
    ShiftParagraphs {
        article: ArticleNum,
        from: u32,
        to: u32,
        by: i32,
    },
    /// `第N条[第M項]を削る`.
    Delete {
        at: Loc,
    },
    /// `第N条を第M条とする`: an article renumbered, its text untouched (`suppl`: in the original supplementary provisions).
    RenumberArticle {
        from: ArticleNum,
        to: ArticleNum,
        suppl: bool,
    },
    /// `第N条から第M条までをK条ずつ繰り下げ`: the base numbers of a range of articles move by `by`.
    ShiftArticles {
        from: u32,
        to: u32,
        by: i32,
    },
    /// `第N条の見出し中「A」を「B」に改め`.
    ReplaceCaption {
        article: ArticleNum,
        from: String,
        to: String,
    },
    /// `第N条の見出しを「（X）」に改め` (empty until the caption line follows).
    SetCaption {
        article: ArticleNum,
        text: String,
    },
    /// `第N条の前に見出しとして「（X）」を付し`.
    AttachCaption {
        article: ArticleNum,
        text: String,
    },
    /// `第N条の見出しを削り`.
    DeleteCaption {
        article: ArticleNum,
    },
    /// `第N条第M項後段を次のように改める`: a part of the sentences of a paragraph.
    ReplaceSentencePart {
        at: Loc,
        part: SentencePart,
        text: Vec<String>,
    },
    /// An operation on the original supplementary provisions, applied as if they were the main provisions.
    Suppl(Box<Op>),
    /// `同項（第三号を除く。）…中「A」を「B」に改める`: an operation on phrases with places left out.
    Except {
        op: Box<Op>,
        except: Vec<Loc>,
    },
    /// `第八条の次に次の二章を加える`: divisions after an article.
    InsertContainersAfterArticle {
        after: ArticleNum,
        text: Vec<String>,
    },
    /// `第一条の前に次の章名を加える`: titles of divisions before an article (`after`: after it; `None`: at the start).
    InsertHeadingsBefore {
        before: Option<ArticleNum>,
        after: bool,
        with_toc: bool,
        text: Vec<String>,
    },
    /// `同号イからニまでを次のように改める`, `同号イ及びロを削る` (`text` is `None` for a deletion).
    SubitemsEdit {
        at: Loc,
        subs: Vec<String>,
        text: Option<Vec<String>>,
    },
    /// `…次の表の上欄に掲げる字句を同表の下欄に掲げる字句に改める`: a table of phrase pairs (`scope` as written).
    ReplacePairs {
        scope: String,
        text: Vec<String>,
    },
    /// `附則第十四項の見出し中「A」を「B」に改め`: the caption of a paragraph.
    ParagraphCaption {
        at: Loc,
        edit: CaptionEdit,
    },
    /// An operation at a place in a table (`path` as written; empty for the whole table).
    TableEdit {
        table: TableRef,
        path: String,
        action: TableAction,
    },
}

/// The article of the amended law that an operation touches (none for the table of
/// contents, for additions at the end of a division, and the like).
pub open spec fn spec_op_article(op: Op) -> Option<ArticleNum> {
        match op {
            Op::ReplaceToc { .. }
            | Op::ReplaceAll { .. }
            | Op::SetToc { .. }
            | Op::AppendSupplArticles { .. }
            | Op::AppendContainers { .. }
            | Op::AppendArticle { .. }
            | Op::InsertContainersAfter { .. }
            | Op::InsertContainersBefore { .. }
            | Op::RenumberContainer { .. }
            | Op::ReplaceContainerTitle { .. }
            | Op::SetTitle { .. }
            | Op::ReplaceTitle { .. }
            | Op::SetContainerTitle { .. }
            | Op::DeleteContainerTitle { .. }
            | Op::DeleteContainers { .. }
            | Op::ReplaceContainers { .. }
            | Op::ReplaceAppdxRow { .. }
            | Op::ReplaceAppdxRowWhole { .. }
            | Op::DeleteAppdxRows { .. }
            | Op::RenumberAppdxRow { .. }
            | Op::InsertAppdxRowsAfter { .. }
            | Op::AppendAppdx { .. }
            | Op::RenameAppdx { .. }
            | Op::InsertAppdxAfter { .. }
            | Op::DeleteAppdxRowSub { .. }
            | Op::RenumberAppdxRowSub { .. }
            | Op::DeleteAppdx { .. }
            | Op::InsertHeadingsBefore { .. }
            | Op::DeleteToc
            | Op::MoveContainer { .. }
            | Op::ReplaceStructure { .. }
            | Op::AmendmentEdit { .. }
            | Op::SetTitleAndToc { .. }
            | Op::ReplacePairs { .. }
            | Op::DeleteTitle
            | Op::ParagraphToArticle { .. }
            | Op::DeleteContainer { .. }
            | Op::ShiftBranchArticles { .. }
            | Op::ShiftContainers { .. }
            | Op::ReplaceInContainer { .. }
            | Op::SetContainerTitles { .. }
            | Op::Suppl(_)
            | Op::Except { .. } => None,
            Op::InsertContainersAfterArticle { after, .. } => Some(after),
            Op::MoveArticle { from, .. } => Some(from),
            Op::DeleteArticleTitle { article }
            | Op::DeleteSupplNote { article }
            | Op::MoveParagraph { article, .. }
            | Op::SetSupplNote { article, .. }
            | Op::ReplaceSupplNote { article, .. }
            | Op::ReplaceInAmendment { article, .. } => Some(article),
            Op::TableEdit { table, .. } => match table {
                TableRef::InArticle(at) => Some(at.article),
                TableRef::Appdx(_) | TableRef::Preamble => None,
            },
            Op::ReplaceArticles { articles, .. } => if articles@.len() > 0 { Some(articles@[0]) } else { None },
            Op::Replace { at, .. }
            | Op::InsertAfterPhrase { at, .. }
            | Op::AppendSentence { at, .. }
            | Op::Delete { at } => Some(at.article),
            Op::AppendParagraph { article, .. }
            | Op::InsertParagraphAfter { article, .. }
            | Op::InsertParagraphFirst { article, .. }
            | Op::ReplaceArticle { article, .. }
            | Op::RenumberParagraph { article, .. }
            | Op::ShiftParagraphs { article, .. } => Some(article),
            Op::InsertArticleAfter { after, .. } => Some(after),
            Op::InsertArticleBefore { before, .. } => Some(before),
            Op::RenumberArticle { from, .. } => Some(from),
            Op::ShiftArticles { .. } => None,
            Op::ReplaceCaption { article, .. }
            | Op::SetCaption { article, .. }
            | Op::AttachCaption { article, .. }
            | Op::DeleteCaption { article } => Some(article),
            Op::ReplaceSentencePart { at, .. }
            | Op::DeleteSentencePart { at, .. }
            | Op::ReplaceParagraph { at, .. }
            | Op::ReplaceItem { at, .. }
            | Op::RenumberItem { at, .. }
            | Op::ShiftItems { at, .. }
            | Op::InsertItemAfter { at, .. }
            | Op::InsertItemBefore { at, .. }
            | Op::AppendItem { at, .. }
            | Op::InsertItemFirst { at, .. }
            | Op::ReplaceItems { at, .. }
            | Op::ReplaceItemSet { at, .. }
            | Op::ReplaceTableRow { at, .. }
            | Op::AppendTable { at, .. }
            | Op::RenumberSubitem { at, .. }
            | Op::ShiftSubitems { at, .. }
            | Op::InsertSubitemAfter { at, .. }
            | Op::SubitemsEdit { at, .. }
            | Op::ShiftBranchItems { at, .. }
            | Op::ParagraphCaption { at, .. } => Some(at.article),
        }
    }

/// The paragraph that an operation touches (its place names one).
pub open spec fn spec_op_paragraph(op: Op) -> Option<u32> {
        match op {
            Op::Replace { at, .. }
            | Op::InsertAfterPhrase { at, .. }
            | Op::AppendSentence { at, .. }
            | Op::Delete { at }
            | Op::ReplaceSentencePart { at, .. }
            | Op::DeleteSentencePart { at, .. }
            | Op::ReplaceParagraph { at, .. }
            | Op::ReplaceItem { at, .. }
            | Op::RenumberItem { at, .. }
            | Op::ShiftItems { at, .. }
            | Op::InsertItemAfter { at, .. }
            | Op::InsertItemBefore { at, .. }
            | Op::AppendItem { at, .. }
            | Op::InsertItemFirst { at, .. }
            | Op::ReplaceItems { at, .. }
            | Op::ReplaceItemSet { at, .. }
            | Op::ReplaceTableRow { at, .. }
            | Op::AppendTable { at, .. }
            | Op::RenumberSubitem { at, .. }
            | Op::ShiftSubitems { at, .. }
            | Op::InsertSubitemAfter { at, .. } => match at.paragraph {
                Some(ParaRef::Num(n)) => Some(n),
                _ => None,
            },
            _ => None,
        }
    }

impl Op {
    /// The article of the amended law that the operation touches.
    pub fn article(&self) -> (r: Option<&ArticleNum>)
        ensures
            match r {
                Some(a) => spec_op_article(*self) == Some(*a),
                None => spec_op_article(*self) is None,
            },
    {
        match self {
            Op::ReplaceToc { .. }
            | Op::ReplaceAll { .. }
            | Op::SetToc { .. }
            | Op::AppendSupplArticles { .. }
            | Op::AppendContainers { .. }
            | Op::AppendArticle { .. }
            | Op::InsertContainersAfter { .. }
            | Op::InsertContainersBefore { .. }
            | Op::RenumberContainer { .. }
            | Op::ReplaceContainerTitle { .. }
            | Op::SetTitle { .. }
            | Op::ReplaceTitle { .. }
            | Op::SetContainerTitle { .. }
            | Op::DeleteContainerTitle { .. }
            | Op::DeleteContainers { .. }
            | Op::ReplaceContainers { .. }
            | Op::ReplaceAppdxRow { .. }
            | Op::ReplaceAppdxRowWhole { .. }
            | Op::DeleteAppdxRows { .. }
            | Op::RenumberAppdxRow { .. }
            | Op::InsertAppdxRowsAfter { .. }
            | Op::AppendAppdx { .. }
            | Op::RenameAppdx { .. }
            | Op::InsertAppdxAfter { .. }
            | Op::DeleteAppdxRowSub { .. }
            | Op::RenumberAppdxRowSub { .. }
            | Op::DeleteAppdx { .. }
            | Op::InsertHeadingsBefore { .. }
            | Op::DeleteToc
            | Op::MoveContainer { .. }
            | Op::ReplaceStructure { .. }
            | Op::AmendmentEdit { .. }
            | Op::SetTitleAndToc { .. }
            | Op::ReplacePairs { .. }
            | Op::DeleteTitle
            | Op::ParagraphToArticle { .. }
            | Op::DeleteContainer { .. }
            | Op::ShiftBranchArticles { .. }
            | Op::ShiftContainers { .. }
            | Op::ReplaceInContainer { .. }
            | Op::SetContainerTitles { .. }
            | Op::Suppl(_)
            | Op::Except { .. } => None,
            Op::InsertContainersAfterArticle { after, .. } => Some(after),
            Op::MoveArticle { from, .. } => Some(from),
            Op::DeleteArticleTitle { article }
            | Op::DeleteSupplNote { article }
            | Op::MoveParagraph { article, .. }
            | Op::SetSupplNote { article, .. }
            | Op::ReplaceSupplNote { article, .. }
            | Op::ReplaceInAmendment { article, .. } => Some(article),
            Op::TableEdit { table, .. } => match table {
                TableRef::InArticle(at) => Some(&at.article),
                TableRef::Appdx(_) | TableRef::Preamble => None,
            },
            Op::ReplaceArticles { articles, .. } => if articles.len() > 0 { Some(&articles[0]) } else { None },
            Op::Replace { at, .. }
            | Op::InsertAfterPhrase { at, .. }
            | Op::AppendSentence { at, .. }
            | Op::Delete { at } => Some(&at.article),
            Op::AppendParagraph { article, .. }
            | Op::InsertParagraphAfter { article, .. }
            | Op::InsertParagraphFirst { article, .. }
            | Op::ReplaceArticle { article, .. }
            | Op::RenumberParagraph { article, .. }
            | Op::ShiftParagraphs { article, .. } => Some(article),
            Op::InsertArticleAfter { after, .. } => Some(after),
            Op::InsertArticleBefore { before, .. } => Some(before),
            Op::RenumberArticle { from, .. } => Some(from),
            Op::ShiftArticles { .. } => None,
            Op::ReplaceCaption { article, .. }
            | Op::SetCaption { article, .. }
            | Op::AttachCaption { article, .. }
            | Op::DeleteCaption { article } => Some(article),
            Op::ReplaceSentencePart { at, .. }
            | Op::DeleteSentencePart { at, .. }
            | Op::ReplaceParagraph { at, .. }
            | Op::ReplaceItem { at, .. }
            | Op::RenumberItem { at, .. }
            | Op::ShiftItems { at, .. }
            | Op::InsertItemAfter { at, .. }
            | Op::InsertItemBefore { at, .. }
            | Op::AppendItem { at, .. }
            | Op::InsertItemFirst { at, .. }
            | Op::ReplaceItems { at, .. }
            | Op::ReplaceItemSet { at, .. }
            | Op::ReplaceTableRow { at, .. }
            | Op::AppendTable { at, .. }
            | Op::RenumberSubitem { at, .. }
            | Op::ShiftSubitems { at, .. }
            | Op::InsertSubitemAfter { at, .. }
            | Op::SubitemsEdit { at, .. }
            | Op::ShiftBranchItems { at, .. }
            | Op::ParagraphCaption { at, .. } => Some(&at.article),
        }
    }

    /// The paragraph that the operation touches.
    pub fn paragraph(&self) -> (r: Option<u32>)
        ensures
            r == spec_op_paragraph(*self),
    {
        match self {
            Op::Replace { at, .. }
            | Op::InsertAfterPhrase { at, .. }
            | Op::AppendSentence { at, .. }
            | Op::Delete { at }
            | Op::ReplaceSentencePart { at, .. }
            | Op::DeleteSentencePart { at, .. }
            | Op::ReplaceParagraph { at, .. }
            | Op::ReplaceItem { at, .. }
            | Op::RenumberItem { at, .. }
            | Op::ShiftItems { at, .. }
            | Op::InsertItemAfter { at, .. }
            | Op::InsertItemBefore { at, .. }
            | Op::AppendItem { at, .. }
            | Op::InsertItemFirst { at, .. }
            | Op::ReplaceItems { at, .. }
            | Op::ReplaceItemSet { at, .. }
            | Op::ReplaceTableRow { at, .. }
            | Op::AppendTable { at, .. }
            | Op::RenumberSubitem { at, .. }
            | Op::ShiftSubitems { at, .. }
            | Op::InsertSubitemAfter { at, .. } => match at.paragraph {
                Some(ParaRef::Num(n)) => Some(n),
                _ => None,
            },
            _ => None,
        }
    }
}


/// The place of an operation that has one.
pub open spec fn spec_op_loc(op: Op) -> Option<Loc> {
    match op {
        Op::Replace { at, .. } => Some(at),
        Op::InsertAfterPhrase { at, .. } => Some(at),
        Op::AppendSentence { at, .. } => Some(at),
        Op::Delete { at, .. } => Some(at),
        Op::ReplaceSentencePart { at, .. } => Some(at),
        Op::DeleteSentencePart { at, .. } => Some(at),
        Op::ReplaceParagraph { at, .. } => Some(at),
        Op::ReplaceItem { at, .. } => Some(at),
        Op::RenumberItem { at, .. } => Some(at),
        Op::ShiftItems { at, .. } => Some(at),
        Op::InsertItemAfter { at, .. } => Some(at),
        Op::InsertItemBefore { at, .. } => Some(at),
        Op::AppendItem { at, .. } => Some(at),
        Op::InsertItemFirst { at, .. } => Some(at),
        Op::ReplaceItems { at, .. } => Some(at),
        Op::ReplaceItemSet { at, .. } => Some(at),
        Op::ReplaceTableRow { at, .. } => Some(at),
        Op::AppendTable { at, .. } => Some(at),
        Op::RenumberSubitem { at, .. } => Some(at),
        Op::ShiftSubitems { at, .. } => Some(at),
        Op::InsertSubitemAfter { at, .. } => Some(at),
        Op::SubitemsEdit { at, .. } => Some(at),
        Op::ShiftBranchItems { at, .. } => Some(at),
        Op::ParagraphCaption { at, .. } => Some(at),
        Op::TableEdit { table: TableRef::InArticle(at), .. } => Some(at),
        _ => None,
    }
}

/// The operation with its place replaced by `l` (unchanged when it has none).
pub open spec fn op_with_loc(op: Op, l: Loc) -> Op {
    match op {
        Op::Replace { from, to, .. } => Op::Replace { at: l, from, to },
        Op::InsertAfterPhrase { anchor, text, .. } => Op::InsertAfterPhrase { at: l, anchor, text },
        Op::AppendSentence { text, .. } => Op::AppendSentence { at: l, text },
        Op::Delete { .. } => Op::Delete { at: l },
        Op::ReplaceSentencePart { part, text, .. } => Op::ReplaceSentencePart { at: l, part, text },
        Op::DeleteSentencePart { part, .. } => Op::DeleteSentencePart { at: l, part },
        Op::ReplaceParagraph { text, .. } => Op::ReplaceParagraph { at: l, text },
        Op::ReplaceItem { text, .. } => Op::ReplaceItem { at: l, text },
        Op::RenumberItem { from, to, .. } => Op::RenumberItem { at: l, from, to },
        Op::ShiftItems { from, to, by, .. } => Op::ShiftItems { at: l, from, to, by },
        Op::InsertItemAfter { after, text, .. } => Op::InsertItemAfter { at: l, after, text },
        Op::InsertItemBefore { before, text, .. } => Op::InsertItemBefore { at: l, before, text },
        Op::AppendItem { text, .. } => Op::AppendItem { at: l, text },
        Op::InsertItemFirst { text, .. } => Op::InsertItemFirst { at: l, text },
        Op::ReplaceItems { text, .. } => Op::ReplaceItems { at: l, text },
        Op::ReplaceItemSet { items, range, text, .. } => Op::ReplaceItemSet { at: l, items, range, text },
        Op::ReplaceTableRow { row, from, to, .. } => Op::ReplaceTableRow { at: l, row, from, to },
        Op::AppendTable { text, .. } => Op::AppendTable { at: l, text },
        Op::RenumberSubitem { from, to, .. } => Op::RenumberSubitem { at: l, from, to },
        Op::ShiftSubitems { from, to, by, .. } => Op::ShiftSubitems { at: l, from, to, by },
        Op::InsertSubitemAfter { after, text, .. } => Op::InsertSubitemAfter { at: l, after, text },
        Op::SubitemsEdit { subs, text, .. } => Op::SubitemsEdit { at: l, subs, text },
        Op::ShiftBranchItems { base, from, to, by, .. } => Op::ShiftBranchItems { at: l, base, from, to, by },
        Op::ParagraphCaption { edit, .. } => Op::ParagraphCaption { at: l, edit },
        Op::TableEdit { table: TableRef::InArticle(_), path, action } => Op::TableEdit { table: TableRef::InArticle(l), path, action },
        _ => op,
    }
}

impl Op {
    /// The place of the operation, to be changed in place.
    pub fn loc_mut(&mut self) -> (r: Option<&mut Loc>)
        ensures
            match r {
                Some(l) => spec_op_loc(*old(self)) == Some(*l) && *final(self) == op_with_loc(*old(self), *final(l)),
                None => spec_op_loc(*old(self)) is None && *final(self) == *old(self),
            },
    {
        match self {
            Op::Replace { at, .. } => Some(at),
            Op::InsertAfterPhrase { at, .. } => Some(at),
            Op::AppendSentence { at, .. } => Some(at),
            Op::Delete { at, .. } => Some(at),
            Op::ReplaceSentencePart { at, .. } => Some(at),
            Op::DeleteSentencePart { at, .. } => Some(at),
            Op::ReplaceParagraph { at, .. } => Some(at),
            Op::ReplaceItem { at, .. } => Some(at),
            Op::RenumberItem { at, .. } => Some(at),
            Op::ShiftItems { at, .. } => Some(at),
            Op::InsertItemAfter { at, .. } => Some(at),
            Op::InsertItemBefore { at, .. } => Some(at),
            Op::AppendItem { at, .. } => Some(at),
            Op::InsertItemFirst { at, .. } => Some(at),
            Op::ReplaceItems { at, .. } => Some(at),
            Op::ReplaceItemSet { at, .. } => Some(at),
            Op::ReplaceTableRow { at, .. } => Some(at),
            Op::AppendTable { at, .. } => Some(at),
            Op::RenumberSubitem { at, .. } => Some(at),
            Op::ShiftSubitems { at, .. } => Some(at),
            Op::InsertSubitemAfter { at, .. } => Some(at),
            Op::SubitemsEdit { at, .. } => Some(at),
            Op::ShiftBranchItems { at, .. } => Some(at),
            Op::ParagraphCaption { at, .. } => Some(at),
            Op::TableEdit { table: TableRef::InArticle(at), .. } => Some(at),
            _ => None,
        }
    }
}


/// A table action that takes the content lines that follow.
pub open spec fn action_takes_content(a: TableAction) -> bool {
    a is Replace || a is InsertAfter || a is InsertBefore || a is Append
}

/// The operation takes the content lines that follow it (the lines of provisions to add,
/// a caption, a table…).
pub open spec fn spec_takes_content(op: Op) -> bool
    decreases op,
{
    match op {
        Op::Suppl(inner) => spec_takes_content(*inner),
        Op::SetCaption { text, .. } => text@.len() == 0,
        Op::SubitemsEdit { text, .. } => text is Some,
        Op::ReplacePairs { .. } | Op::SetSupplNote { .. } | Op::SetTitleAndToc { .. } | Op::ReplaceStructure { .. } => true,
        Op::ParagraphCaption { edit: CaptionEdit::SetText(text), .. } => text@.len() == 0,
        Op::TableEdit { action, .. } | Op::AmendmentEdit { action, .. } => action_takes_content(action),
        Op::AppendParagraph { .. } | Op::InsertParagraphAfter { .. } | Op::InsertParagraphFirst { .. } | Op::AppendArticle { .. } | Op::InsertContainersAfter { .. } | Op::InsertContainersBefore { .. } | Op::InsertArticleAfter { .. } | Op::AppendSentence { .. } | Op::ReplaceArticle { .. } | Op::ReplaceParagraph { .. } | Op::ReplaceItem { .. } | Op::InsertItemAfter { .. } | Op::InsertItemBefore { .. } | Op::AppendItem { .. } | Op::InsertItemFirst { .. } | Op::ReplaceItems { .. } | Op::ReplaceItemSet { .. } | Op::InsertSubitemAfter { .. } | Op::AppendSupplArticles { .. } | Op::AppendContainers { .. } | Op::InsertArticleBefore { .. } | Op::AppendTable { .. } | Op::ReplaceAppdxRowWhole { .. } | Op::InsertAppdxRowsAfter { .. } | Op::AppendAppdx { .. } | Op::InsertAppdxAfter { .. } | Op::SetTitle { .. } | Op::SetToc { .. } | Op::SetContainerTitle { .. } | Op::ReplaceArticles { .. } | Op::ReplaceContainers { .. } | Op::ReplaceSentencePart { .. } | Op::InsertContainersAfterArticle { .. } | Op::InsertHeadingsBefore { .. } | Op::SetContainerTitles { .. } => true,
        _ => false,
    }
}

impl Op {
    /// Whether the operation takes the content lines that follow it.
    pub fn takes_content(&self) -> (r: bool)
        ensures
            r == spec_takes_content(*self),
        decreases self,
    {
        match self {
            Op::Suppl(inner) => inner.takes_content(),
            Op::SetCaption { text, .. } => text.as_str().is_empty(),
            Op::SubitemsEdit { text, .. } => text.is_some(),
            Op::ReplacePairs { .. } | Op::SetSupplNote { .. } | Op::SetTitleAndToc { .. } | Op::ReplaceStructure { .. } => true,
            Op::ParagraphCaption { edit: CaptionEdit::SetText(text), .. } => text.as_str().is_empty(),
            Op::TableEdit { action, .. } | Op::AmendmentEdit { action, .. } => match action {
                TableAction::Replace { .. } | TableAction::InsertAfter { .. } | TableAction::InsertBefore { .. }
                | TableAction::Append { .. } => true,
                _ => false,
            },
            Op::AppendParagraph { .. } | Op::InsertParagraphAfter { .. } | Op::InsertParagraphFirst { .. } | Op::AppendArticle { .. } | Op::InsertContainersAfter { .. } | Op::InsertContainersBefore { .. } | Op::InsertArticleAfter { .. } | Op::AppendSentence { .. } | Op::ReplaceArticle { .. } | Op::ReplaceParagraph { .. } | Op::ReplaceItem { .. } | Op::InsertItemAfter { .. } | Op::InsertItemBefore { .. } | Op::AppendItem { .. } | Op::InsertItemFirst { .. } | Op::ReplaceItems { .. } | Op::ReplaceItemSet { .. } | Op::InsertSubitemAfter { .. } | Op::AppendSupplArticles { .. } | Op::AppendContainers { .. } | Op::InsertArticleBefore { .. } | Op::AppendTable { .. } | Op::ReplaceAppdxRowWhole { .. } | Op::InsertAppdxRowsAfter { .. } | Op::AppendAppdx { .. } | Op::InsertAppdxAfter { .. } | Op::SetTitle { .. } | Op::SetToc { .. } | Op::SetContainerTitle { .. } | Op::ReplaceArticles { .. } | Op::ReplaceContainers { .. } | Op::ReplaceSentencePart { .. } | Op::InsertContainersAfterArticle { .. } | Op::InsertHeadingsBefore { .. } | Op::SetContainerTitles { .. } => true,
            _ => false,
        }
    }
}


/// The text without leading and trailing white space (as `str::trim`).
pub open spec fn trim_start(s: Seq<char>) -> Seq<char>
    decreases s.len(),
{
    if s.len() > 0 && is_white_space(s[0]) {
        trim_start(s.drop_first())
    } else {
        s
    }
}

/// The text without leading and trailing white space.
pub open spec fn trim_ws(s: Seq<char>) -> Seq<char> {
    trim_end(trim_start(s))
}

proof fn lemma_trim_start_len(s: Seq<char>)
    ensures
        trim_start(s).len() <= s.len(),
    decreases s.len(),
{
    if s.len() > 0 && is_white_space(s[0]) {
        lemma_trim_start_len(s.drop_first());
    }
}

proof fn lemma_trim_end_len(s: Seq<char>)
    ensures
        trim_end(s).len() <= s.len(),
    decreases s.len(),
{
    if s.len() > 0 && is_white_space(s.last()) {
        lemma_trim_end_len(s.drop_last());
    }
}

/// Trimming never lengthens a text.
pub proof fn lemma_trim_ws_len(s: Seq<char>)
    ensures
        trim_ws(s).len() <= s.len(),
{
    lemma_trim_start_len(s);
    lemma_trim_end_len(trim_start(s));
}

pub(crate) fn trim_string(s: &String) -> (r: String)
    ensures
        r@ == trim_ws(s@),
{
    let cs = chars_of(s.as_str());
    let mut i: usize = 0;
    assert(cs@.skip(0) == cs@);
    while i < cs.len() && white_space(cs[i])
        invariant
            i <= cs.len(),
            cs@ == s@,
            trim_start(cs@.skip(i as int)) == trim_start(s@),
        decreases cs.len() - i,
    {
        assert(cs@.skip(i as int).drop_first() == cs@.skip(i + 1));
        i = i + 1;
    }
    let rest = crate::text::slice_from(cs.as_slice(), i);
    assert(rest@ == cs@.skip(i as int));
    assert(trim_start(rest@) == rest@);
    let mut j: usize = rest.len();
    assert(rest@.take(j as int) == rest@);
    while j > 0 && white_space(rest[j - 1])
        invariant
            j <= rest.len(),
            forall|k: int| j <= k < rest.len() ==> is_white_space(rest@[k]),
            trim_end(rest@) == trim_end(rest@.take(j as int)),
        decreases j,
    {
        proof {
            lemma_trim_end(rest@, (j - 1) as int);
        }
        j = j - 1;
    }
    proof {
        if j > 0 {
            assert(!is_white_space(rest@.take(j as int).last()));
        }
    }
    string_of(crate::text::slice_to(rest.as_slice(), j).as_slice())
}

/// How deeply an operation is wrapped (in `Suppl` or `Except`).
pub open spec fn op_depth(op: Op) -> nat
    decreases op,
{
    match op {
        Op::Suppl(inner) => 1 + op_depth(*inner),
        Op::Except { op, .. } => 1 + op_depth(*op),
        _ => 0,
    }
}

/// `b` is the table action `a` with the line `line` added to its content.
pub open spec fn action_pushed(a: TableAction, b: TableAction, line: String) -> bool {
    match a {
        TableAction::Replace { text } => b matches TableAction::Replace { text: text_2 } && text_2@ == text@.push(line),
        TableAction::InsertAfter { text } => b matches TableAction::InsertAfter { text: text_2 } && text_2@ == text@.push(line),
        TableAction::InsertBefore { text } => b matches TableAction::InsertBefore { text: text_2 } && text_2@ == text@.push(line),
        TableAction::Append { text } => b matches TableAction::Append { text: text_2 } && text_2@ == text@.push(line),
        _ => b == a,
    }
}

/// `b` is the operation `a` with the content line `line` added: to its content lines, or as
/// its caption (trimmed) while it has none; an operation that takes no content is unchanged.
pub open spec fn spec_pushed(a: Op, b: Op, line: String) -> bool
    decreases a,
{
    match a {
        Op::AppendParagraph { article, text } => b matches Op::AppendParagraph { article: article_2, text: text_2 } && article_2 == article && text_2@ == text@.push(line),
        Op::InsertParagraphAfter { article, after, text } => b matches Op::InsertParagraphAfter { article: article_2, after: after_2, text: text_2 } && article_2 == article && after_2 == after && text_2@ == text@.push(line),
        Op::InsertParagraphFirst { article, text } => b matches Op::InsertParagraphFirst { article: article_2, text: text_2 } && article_2 == article && text_2@ == text@.push(line),
        Op::AppendArticle { path, text } => b matches Op::AppendArticle { path: path_2, text: text_2 } && path_2 == path && text_2@ == text@.push(line),
        Op::InsertContainersAfter { path, text } => b matches Op::InsertContainersAfter { path: path_2, text: text_2 } && path_2 == path && text_2@ == text@.push(line),
        Op::InsertContainersBefore { path, text } => b matches Op::InsertContainersBefore { path: path_2, text: text_2 } && path_2 == path && text_2@ == text@.push(line),
        Op::InsertArticleAfter { after, text, suppl } => b matches Op::InsertArticleAfter { after: after_2, text: text_2, suppl: suppl_2 } && after_2 == after && suppl_2 == suppl && text_2@ == text@.push(line),
        Op::AppendSentence { at, text } => b matches Op::AppendSentence { at: at_2, text: text_2 } && at_2 == at && text_2@ == text@.push(line),
        Op::ReplaceArticle { article, text } => b matches Op::ReplaceArticle { article: article_2, text: text_2 } && article_2 == article && text_2@ == text@.push(line),
        Op::ReplaceParagraph { at, text } => b matches Op::ReplaceParagraph { at: at_2, text: text_2 } && at_2 == at && text_2@ == text@.push(line),
        Op::ReplaceItem { at, text } => b matches Op::ReplaceItem { at: at_2, text: text_2 } && at_2 == at && text_2@ == text@.push(line),
        Op::InsertItemAfter { at, after, text } => b matches Op::InsertItemAfter { at: at_2, after: after_2, text: text_2 } && at_2 == at && after_2 == after && text_2@ == text@.push(line),
        Op::InsertItemBefore { at, before, text } => b matches Op::InsertItemBefore { at: at_2, before: before_2, text: text_2 } && at_2 == at && before_2 == before && text_2@ == text@.push(line),
        Op::AppendItem { at, text } => b matches Op::AppendItem { at: at_2, text: text_2 } && at_2 == at && text_2@ == text@.push(line),
        Op::InsertItemFirst { at, text } => b matches Op::InsertItemFirst { at: at_2, text: text_2 } && at_2 == at && text_2@ == text@.push(line),
        Op::ReplaceItems { at, text } => b matches Op::ReplaceItems { at: at_2, text: text_2 } && at_2 == at && text_2@ == text@.push(line),
        Op::ReplaceItemSet { at, items, range, text } => b matches Op::ReplaceItemSet { at: at_2, items: items_2, range: range_2, text: text_2 } && at_2 == at && items_2 == items && range_2 == range && text_2@ == text@.push(line),
        Op::InsertSubitemAfter { at, after, text } => b matches Op::InsertSubitemAfter { at: at_2, after: after_2, text: text_2 } && at_2 == at && after_2 == after && text_2@ == text@.push(line),
        Op::AppendSupplArticles { text } => b matches Op::AppendSupplArticles { text: text_2 } && text_2@ == text@.push(line),
        Op::AppendContainers { path, text } => b matches Op::AppendContainers { path: path_2, text: text_2 } && path_2 == path && text_2@ == text@.push(line),
        Op::InsertArticleBefore { before, text, suppl } => b matches Op::InsertArticleBefore { before: before_2, text: text_2, suppl: suppl_2 } && before_2 == before && suppl_2 == suppl && text_2@ == text@.push(line),
        Op::AppendTable { at, text } => b matches Op::AppendTable { at: at_2, text: text_2 } && at_2 == at && text_2@ == text@.push(line),
        Op::ReplaceAppdxRowWhole { table, row, text } => b matches Op::ReplaceAppdxRowWhole { table: table_2, row: row_2, text: text_2 } && table_2 == table && row_2 == row && text_2@ == text@.push(line),
        Op::InsertAppdxRowsAfter { table, after, text } => b matches Op::InsertAppdxRowsAfter { table: table_2, after: after_2, text: text_2 } && table_2 == table && after_2 == after && text_2@ == text@.push(line),
        Op::AppendAppdx { text } => b matches Op::AppendAppdx { text: text_2 } && text_2@ == text@.push(line),
        Op::InsertAppdxAfter { after, text } => b matches Op::InsertAppdxAfter { after: after_2, text: text_2 } && after_2 == after && text_2@ == text@.push(line),
        Op::SetTitle { text } => b matches Op::SetTitle { text: text_2 } && text_2@ == text@.push(line),
        Op::SetToc { text, replace } => b matches Op::SetToc { text: text_2, replace: replace_2 } && replace_2 == replace && text_2@ == text@.push(line),
        Op::SetContainerTitle { path, text } => b matches Op::SetContainerTitle { path: path_2, text: text_2 } && path_2 == path && text_2@ == text@.push(line),
        Op::ReplaceArticles { articles, text } => b matches Op::ReplaceArticles { articles: articles_2, text: text_2 } && articles_2 == articles && text_2@ == text@.push(line),
        Op::ReplaceContainers { paths, text } => b matches Op::ReplaceContainers { paths: paths_2, text: text_2 } && paths_2 == paths && text_2@ == text@.push(line),
        Op::ReplaceSentencePart { at, part, text } => b matches Op::ReplaceSentencePart { at: at_2, part: part_2, text: text_2 } && at_2 == at && part_2 == part && text_2@ == text@.push(line),
        Op::ReplacePairs { scope, text } => b matches Op::ReplacePairs { scope: scope_2, text: text_2 } && scope_2 == scope && text_2@ == text@.push(line),
        Op::SetSupplNote { article, text } => b matches Op::SetSupplNote { article: article_2, text: text_2 } && article_2 == article && text_2@ == text@.push(line),
        Op::SetTitleAndToc { text } => b matches Op::SetTitleAndToc { text: text_2 } && text_2@ == text@.push(line),
        Op::ReplaceStructure { scope, text } => b matches Op::ReplaceStructure { scope: scope_2, text: text_2 } && scope_2 == scope && text_2@ == text@.push(line),
        Op::InsertContainersAfterArticle { after, text } => b matches Op::InsertContainersAfterArticle { after: after_2, text: text_2 } && after_2 == after && text_2@ == text@.push(line),
        Op::InsertHeadingsBefore { before, after, with_toc, text } => b matches Op::InsertHeadingsBefore { before: before_2, after: after_2, with_toc: with_toc_2, text: text_2 } && before_2 == before && after_2 == after && with_toc_2 == with_toc && text_2@ == text@.push(line),
        Op::SetContainerTitles { paths, text } => b matches Op::SetContainerTitles { paths: paths_2, text: text_2 } && paths_2 == paths && text_2@ == text@.push(line),
        Op::Suppl(inner) => b matches Op::Suppl(inner_2) && spec_pushed(*inner, *inner_2, line),
        Op::SetCaption { article, text } => if text@.len() == 0 {
            b matches Op::SetCaption { article: article_2, text: text_2 } && article_2 == article && text_2@ == trim_ws(line@)
        } else {
            b == a
        },
        Op::SubitemsEdit { at, subs, text } => match text {
            Some(t) => b matches Op::SubitemsEdit { at: at_2, subs: subs_2, text: Some(t_2) } && at_2 == at && subs_2 == subs
                && t_2@ == t@.push(line),
            None => b == a,
        },
        Op::ParagraphCaption { at, edit } => match edit {
            CaptionEdit::SetText(t) => if t@.len() == 0 {
                b matches Op::ParagraphCaption { at: at_2, edit: CaptionEdit::SetText(t_2) } && at_2 == at && t_2@ == trim_ws(line@)
            } else {
                b == a
            },
            _ => b == a,
        },
        Op::TableEdit { table, path, action } => b matches Op::TableEdit { table: table_2, path: path_2, action: action_2 }
            && table_2 == table && path_2 == path && action_pushed(action, action_2, line),
        Op::AmendmentEdit { target, action } => b matches Op::AmendmentEdit { target: target_2, action: action_2 }
            && target_2 == target && action_pushed(action, action_2, line),
        _ => b == a,
    }
}

impl Op {
    /// Adds a content line: to the content lines of the operation, or as its caption while it
    /// has none.
    pub fn push_content(&mut self, line: String)
        ensures
            spec_pushed(*old(self), *final(self), line),
        decreases op_depth(*old(self)),
    {
        match self {
            Op::AppendParagraph { text, .. } => text.push(line),
            Op::InsertParagraphAfter { text, .. } => text.push(line),
            Op::InsertParagraphFirst { text, .. } => text.push(line),
            Op::AppendArticle { text, .. } => text.push(line),
            Op::InsertContainersAfter { text, .. } => text.push(line),
            Op::InsertContainersBefore { text, .. } => text.push(line),
            Op::InsertArticleAfter { text, .. } => text.push(line),
            Op::AppendSentence { text, .. } => text.push(line),
            Op::ReplaceArticle { text, .. } => text.push(line),
            Op::ReplaceParagraph { text, .. } => text.push(line),
            Op::ReplaceItem { text, .. } => text.push(line),
            Op::InsertItemAfter { text, .. } => text.push(line),
            Op::InsertItemBefore { text, .. } => text.push(line),
            Op::AppendItem { text, .. } => text.push(line),
            Op::InsertItemFirst { text, .. } => text.push(line),
            Op::ReplaceItems { text, .. } => text.push(line),
            Op::ReplaceItemSet { text, .. } => text.push(line),
            Op::InsertSubitemAfter { text, .. } => text.push(line),
            Op::AppendSupplArticles { text, .. } => text.push(line),
            Op::AppendContainers { text, .. } => text.push(line),
            Op::InsertArticleBefore { text, .. } => text.push(line),
            Op::AppendTable { text, .. } => text.push(line),
            Op::ReplaceAppdxRowWhole { text, .. } => text.push(line),
            Op::InsertAppdxRowsAfter { text, .. } => text.push(line),
            Op::AppendAppdx { text, .. } => text.push(line),
            Op::InsertAppdxAfter { text, .. } => text.push(line),
            Op::SetTitle { text, .. } => text.push(line),
            Op::SetToc { text, .. } => text.push(line),
            Op::SetContainerTitle { text, .. } => text.push(line),
            Op::ReplaceArticles { text, .. } => text.push(line),
            Op::ReplaceContainers { text, .. } => text.push(line),
            Op::ReplaceSentencePart { text, .. } => text.push(line),
            Op::ReplacePairs { text, .. } => text.push(line),
            Op::SetSupplNote { text, .. } => text.push(line),
            Op::SetTitleAndToc { text, .. } => text.push(line),
            Op::ReplaceStructure { text, .. } => text.push(line),
            Op::InsertContainersAfterArticle { text, .. } => text.push(line),
            Op::InsertHeadingsBefore { text, .. } => text.push(line),
            Op::SetContainerTitles { text, .. } => text.push(line),
            Op::Suppl(inner) => inner.push_content(line),
            Op::SetCaption { text, .. } => {
                if text.as_str().is_empty() {
                    *text = trim_string(&line);
                }
            },
            Op::SubitemsEdit { text, .. } => match text {
                Some(t) => t.push(line),
                None => {},
            },
            Op::ParagraphCaption { edit, .. } => match edit {
                CaptionEdit::SetText(t) => {
                    if t.as_str().is_empty() {
                        *t = trim_string(&line);
                    }
                },
                _ => {},
            },
            Op::TableEdit { action, .. } => push_action(action, line),
            Op::AmendmentEdit { action, .. } => push_action(action, line),
            _ => {},
        }
    }
}

fn push_action(a: &mut TableAction, line: String)
    ensures
        action_pushed(*old(a), *final(a), line),
{
    match a {
        TableAction::Replace { text } => text.push(line),
        TableAction::InsertAfter { text } => text.push(line),
        TableAction::InsertBefore { text } => text.push(line),
        TableAction::Append { text } => text.push(line),
        _ => {},
    }
}


/// An operation aimed at the original supplementary provisions wrapped in `Suppl` (its
/// place no longer marked): the place decides when the operation has one, otherwise
/// `suppl`. Operations without an article, and those that handle the supplementary
/// provisions themselves (phrases, added articles, renumbered articles), stay as they are.
pub open spec fn spec_in_suppl(op: Op, suppl: bool) -> Op {
    let s = match spec_op_loc(op) {
        Some(l) => l.suppl,
        None => suppl,
    };
    if !s || spec_op_article(op) is None {
        op
    } else if op is Replace || op is InsertAfterPhrase || op is InsertArticleAfter || op is InsertArticleBefore
        || op is RenumberArticle {
        op
    } else {
        Op::Suppl(
            Box::new(
                match spec_op_loc(op) {
                    Some(l) => op_with_loc(op, Loc { suppl: false, ..l }),
                    None => op,
                },
            ),
        )
    }
}

proof fn lemma_with_own_loc(op: Op)
    requires
        spec_op_loc(op) is Some,
    ensures
        op_with_loc(op, spec_op_loc(op)->0) == op,
{
}

impl Op {
    /// The operation, aimed at the original supplementary provisions when its place (or
    /// `suppl`) says so (see [`spec_in_suppl`]).
    pub fn in_suppl(self, suppl: bool) -> (r: Op)
        ensures
            r == spec_in_suppl(self, suppl),
    {
        let ghost op0 = self;
        let mut op = self;
        let s = match op.loc_mut() {
            Some(l) => l.suppl,
            None => suppl,
        };
        proof {
            if spec_op_loc(op0) is Some {
                lemma_with_own_loc(op0);
            }
        }
        assert(op == op0);
        if !s || op.article().is_none() {
            return op;
        }
        match op {
            Op::Replace { .. } | Op::InsertAfterPhrase { .. } | Op::InsertArticleAfter { .. }
            | Op::InsertArticleBefore { .. } | Op::RenumberArticle { .. } => op,
            _ => {
                let mut inner = op;
                match inner.loc_mut() {
                    Some(l) => {
                        l.suppl = false;
                    },
                    None => {},
                }
                Op::Suppl(Box::new(inner))
            },
        }
    }
}

/// One sentence of amendment instructions (operations joined by commas). The paragraph
/// numbers within one sentence are those before the amendment.
#[derive(Debug, PartialEq, Eq)]
pub struct Instruction {
    pub text: String,
    pub ops: Vec<Op>,
}

/// The instructions of one amending article for one amended law.
#[derive(Debug, PartialEq, Eq)]
pub struct AmendUnit {
    /// The article of the amending law (`第三十五条`).
    pub article_of_amending_law: String,
    /// The title of the amended law (`借地借家法`).
    pub target_title: String,
    pub instructions: Vec<Instruction>,
}

/// The operation hits the place: the same article and, when the place names a paragraph
/// and the operation has one, the same paragraph.
pub open spec fn loc_hits(op: Op, l: Loc) -> bool {
    &&& spec_op_article(op) matches Some(a) && a@ == l.article@
    &&& match (l.paragraph, spec_op_paragraph(op)) {
        (Some(ParaRef::Num(p)), Some(q)) => p == q,
        _ => true,
    }
}

/// The instructions that hit one of the places (or, when `hit` is false, those that do not).
pub open spec fn hits_pred(locs: Seq<Loc>, hit: bool) -> spec_fn(Instruction) -> bool {
    |ins: Instruction| ins_hits(ins, locs) == hit
}

/// Some operation of the instruction hits one of the places.
pub open spec fn ins_hits(ins: Instruction, locs: Seq<Loc>) -> bool {
    exists|i: int, j: int| 0 <= i < ins.ops.len() && 0 <= j < locs.len() && loc_hits(#[trigger] ins.ops@[i], #[trigger] locs[j])
}

fn loc_hits_of(op: &Op, l: &Loc) -> (r: bool)
    ensures
        r == loc_hits(*op, *l),
{
    match op.article() {
        Some(a) => {
            if !crate::article_num::same_num(a, &l.article) {
                return false;
            }
            match (&l.paragraph, op.paragraph()) {
                (Some(ParaRef::Num(p)), Some(q)) => *p == q,
                _ => true,
            }
        },
        None => false,
    }
}

fn ins_hits_of(ins: &Instruction, locs: &[Loc]) -> (r: bool)
    ensures
        r == ins_hits(*ins, locs@),
{
    let mut i: usize = 0;
    while i < ins.ops.len()
        invariant
            i <= ins.ops.len(),
            forall|a: int, b: int| 0 <= a < i && 0 <= b < locs.len() ==> !loc_hits(#[trigger] ins.ops@[a], #[trigger] locs@[b]),
        decreases ins.ops.len() - i,
    {
        let mut j: usize = 0;
        while j < locs.len()
            invariant
                i < ins.ops.len(),
                j <= locs.len(),
                forall|a: int, b: int| 0 <= a < i && 0 <= b < locs.len() ==> !loc_hits(#[trigger] ins.ops@[a], #[trigger] locs@[b]),
                forall|b: int| 0 <= b < j ==> !loc_hits(ins.ops@[i as int], #[trigger] locs@[b]),
            decreases locs.len() - j,
        {
            if loc_hits_of(&ins.ops[i], &locs[j]) {
                assert(loc_hits(ins.ops@[i as int], locs@[j as int]));
                return true;
            }
            j = j + 1;
        }
        i = i + 1;
    }
    false
}

impl AmendUnit {
    /// Splits the unit into the instructions that hit one of `locs` (the places of an
    /// item of supplementary provisions, `…の改正規定`, that comes into force on another day)
    /// and the others, both in their order.
    pub fn split_by_locs(self, locs: &[Loc]) -> (r: (AmendUnit, AmendUnit))
        ensures
            r.0.article_of_amending_law == self.article_of_amending_law,
            r.0.target_title == self.target_title,
            r.1.article_of_amending_law == self.article_of_amending_law,
            r.1.target_title == self.target_title,
            r.0.instructions@ == self.instructions@.filter(hits_pred(locs@, true)),
            r.1.instructions@ == self.instructions@.filter(hits_pred(locs@, false)),
    {
        let ghost all = self.instructions@;
        let AmendUnit { article_of_amending_law, target_title, instructions } = self;
        let mut rest = instructions;
        assert(rest@ == all);
        assert(all.len() == rest.len());
        assert(all.skip(0) == all);
        proof {
            reveal(Seq::filter);
        }
        let mut hit: Vec<Instruction> = Vec::new();
        let mut other: Vec<Instruction> = Vec::new();
        let mut k: usize = 0;
        while rest.len() > 0
            invariant
                k + rest.len() == all.len(),
                all.len() <= usize::MAX,
                rest@ == all.skip(k as int),
                hit@ == all.take(k as int).filter(hits_pred(locs@, true)),
                other@ == all.take(k as int).filter(hits_pred(locs@, false)),
            decreases rest.len(),
        {
            let ins = rest.remove(0);
            assert(all.take(k + 1).drop_last() == all.take(k as int));
            assert(all.take(k + 1).last() == ins);
            let h = ins_hits_of(&ins, locs);
            let ghost t = all.take(k + 1);
            proof {
                reveal(Seq::filter);
            }
            assert(t.filter(hits_pred(locs@, true)) == if hits_pred(locs@, true)(t.last()) {
                t.drop_last().filter(hits_pred(locs@, true)).push(t.last())
            } else {
                t.drop_last().filter(hits_pred(locs@, true))
            });
            assert(t.filter(hits_pred(locs@, false)) == if hits_pred(locs@, false)(t.last()) {
                t.drop_last().filter(hits_pred(locs@, false)).push(t.last())
            } else {
                t.drop_last().filter(hits_pred(locs@, false))
            });
            if h {
                hit.push(ins);
            } else {
                other.push(ins);
            }
            k = k + 1;
            assert(rest@ =~= all.skip(k as int));
        }
        assert(all.take(k as int) == all);
        proof {
            reveal(Seq::filter);
        }
        (
            AmendUnit {
                article_of_amending_law: article_of_amending_law.clone(),
                target_title: target_title.clone(),
                instructions: hit,
            },
            AmendUnit { article_of_amending_law, target_title, instructions: other },
        )
    }
}


/// Splitting a unit by places loses no instruction and repeats none: the instructions of
/// both sides together are those of the unit.
pub proof fn law_split_keeps_every_instruction(all: Seq<Instruction>, locs: Seq<Loc>)
    ensures
        all.filter(hits_pred(locs, true)).to_multiset().add(all.filter(hits_pred(locs, false)).to_multiset())
            == all.to_multiset(),
    decreases all.len(),
{
    reveal(Seq::filter);
    broadcast use vstd::seq_lib::group_to_multiset_ensures;
    if all.len() == 0 {
        assert(all.filter(hits_pred(locs, true)) =~= Seq::<Instruction>::empty());
        assert(all.filter(hits_pred(locs, false)) =~= Seq::<Instruction>::empty());
        assert(all.to_multiset() =~= vstd::multiset::Multiset::empty());
        assert(Seq::<Instruction>::empty().to_multiset() =~= vstd::multiset::Multiset::empty());
    } else {
        law_split_keeps_every_instruction(all.drop_last(), locs);
        assert(all == all.drop_last().push(all.last()));
        assert(all.to_multiset() == all.drop_last().to_multiset().insert(all.last()));
        let a = all.drop_last().filter(hits_pred(locs, true));
        let b = all.drop_last().filter(hits_pred(locs, false));
        if ins_hits(all.last(), locs) {
            assert(hits_pred(locs, true)(all.last()));
            assert(!hits_pred(locs, false)(all.last()));
            assert(all.filter(hits_pred(locs, true)).to_multiset() == a.to_multiset().insert(all.last()));
            assert(a.to_multiset().insert(all.last()).add(b.to_multiset()) =~= a.to_multiset().add(b.to_multiset()).insert(all.last()));
        } else {
            assert(!hits_pred(locs, true)(all.last()));
            assert(hits_pred(locs, false)(all.last()));
            assert(all.filter(hits_pred(locs, false)).to_multiset() == b.to_multiset().insert(all.last()));
            assert(a.to_multiset().add(b.to_multiset().insert(all.last())) =~= a.to_multiset().add(b.to_multiset()).insert(all.last()));
        }
    }
}

} // verus!
