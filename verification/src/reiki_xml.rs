//! A whole ordinance (its title first, then its provisions as structured plain text) in the
//! form of e-Gov statute data: table of contents, main provisions, supplementary provisions
//! and appended tables. Line numbers are written as statutes write them, the wording in
//! canonical width.

use vstd::prelude::*;
use crate::numeral::lemma_from_kanji_bound;
use crate::reiki::{
    canonical, kanji_outside_quotes, push_esc, push_table_xml, rows_view, spec_canonical, spec_esc,
    spec_kanji_outside_quotes, spec_table_xml, strings_view,
};
use crate::reiki_doc::{
    b_close_to, b_table, builder_line, doc_article, doc_caption, doc_item, is_doc_caption, item_fits,
    kanji_run_end, lemma_builder_line_para_num, lemma_kanji_run_end, lemma_table_para_num,
    lemma_wide_branches_end, lemma_wide_run_end, match_article, spec_builder_line, wide_branches,
    wide_branches_end, wide_run, wide_run_end, Block, Builder, BuilderModel,
};
use crate::text::{chars_of, push_str, push_string, slice_from, slice_to, string_of};

verus! {

/// The part of the ordinance that the lines being read belong to.
#[derive(PartialEq, Eq, Structural)]
pub enum DocPart {
    Toc,
    Main,
    Suppl,
    Appdx,
}

/// What has been written while reading the provisions.
pub struct DocState {
    pub part: DocPart,
    /// The chapters of the table of contents.
    pub toc: Seq<char>,
    pub main: BuilderModel,
    pub suppl: BuilderModel,
    /// The appended tables.
    pub appdx: Seq<char>,
    /// Whether an appended table is open.
    pub appdx_open: bool,
}

/// A builder with nothing written.
pub open spec fn empty_builder() -> BuilderModel {
    BuilderModel { out: Seq::empty(), open: Seq::empty(), caption: None, para_num: 0 }
}

/// Before the first line of provisions: in the main provisions, nothing written.
pub open spec fn doc_start() -> DocState {
    DocState {
        part: DocPart::Main,
        toc: Seq::empty(),
        main: empty_builder(),
        suppl: empty_builder(),
        appdx: Seq::empty(),
        appdx_open: false,
    }
}

/// The text without its full-width spaces.
pub open spec fn without_wide_spaces(t: Seq<char>) -> Seq<char>
    decreases t.len(),
{
    if t.len() == 0 {
        t
    } else if t.last() == '\u{3000}' {
        without_wide_spaces(t.drop_last())
    } else {
        without_wide_spaces(t.drop_last()).push(t.last())
    }
}

/// The heading of the supplementary provisions, `附則` or `付則` (spaced or not).
pub open spec fn is_suppl_heading(t: Seq<char>) -> bool {
    let p = without_wide_spaces(t);
    p == seq!['附', '則'] || p == seq!['付', '則']
}

/// The title of an appended table or form: a short line that starts with `別表`, `様式`
/// or `別記`.
pub open spec fn is_appdx_heading(t: Seq<char>) -> bool {
    &&& 2 <= t.len() < 60
    &&& t.take(2) == seq!['別', '表'] || t.take(2) == seq!['様', '式'] || t.take(2) == seq!['別', '記']
}

/// The end of the number of an appended table (`別表第１の２`), or 0 when it has none.
pub open spec fn numbered_end(t: Seq<char>) -> int {
    if t.len() > 2 && t[2] == '第' && wide_run_end(t, 3) > 3 {
        wide_branches_end(t, wide_run_end(t, 3))
    } else {
        0
    }
}

/// The title of an appended table with its number written as statutes write it
/// (`別表第１（第２条関係）` becomes `別表第一（第２条関係）`).
pub open spec fn appdx_title(t: Seq<char>) -> Seq<char> {
    let e = numbered_end(t);
    if e > 0 {
        spec_kanji_outside_quotes(t.take(e)) + t.skip(e)
    } else {
        t
    }
}

/// A chapter of the table of contents.
pub open spec fn toc_entry(t: Seq<char>) -> Seq<char> {
    "<TOCChapter><ChapterTitle>"@ + spec_esc(t) + "</ChapterTitle></TOCChapter>"@
}

/// What a line (in canonical width) does: `目次` opens the table of contents, whose
/// chapters run to the first article or caption; any other line is content.
pub open spec fn doc_line(s: DocState, t: Seq<char>) -> DocState {
    if t == seq!['目', '次'] {
        DocState { part: DocPart::Toc, ..s }
    } else if s.part == DocPart::Toc {
        if doc_article(t) is Some || doc_caption(t) {
            doc_content(DocState { part: DocPart::Main, ..s }, t)
        } else {
            DocState { toc: s.toc + toc_entry(t), ..s }
        }
    } else {
        doc_content(s, t)
    }
}

/// What a line of content does: the heading of the supplementary provisions starts them;
/// the title of an appended table starts it (closing the one before); within appended
/// tables a line is a remark; otherwise the line goes to the supplementary or main
/// provisions (the first line of the supplementary provisions may be their first paragraph).
pub open spec fn doc_content(s: DocState, t: Seq<char>) -> DocState {
    if is_suppl_heading(t) {
        DocState { part: DocPart::Suppl, ..s }
    } else if is_appdx_heading(t) {
        DocState {
            appdx: s.appdx + (if s.appdx_open { "</AppdxTable>"@ } else { Seq::empty() })
                + "<AppdxTable><AppdxTableTitle>"@ + spec_esc(appdx_title(t)) + "</AppdxTableTitle>"@,
            appdx_open: true,
            part: DocPart::Appdx,
            ..s
        }
    } else if s.part == DocPart::Appdx {
        DocState { appdx: s.appdx + "<Remarks><Sentence>"@ + spec_esc(t) + "</Sentence></Remarks>"@, ..s }
    } else if s.part == DocPart::Suppl {
        DocState { suppl: spec_builder_line(s.suppl, t, s.suppl.out.len() == 0), ..s }
    } else {
        DocState { main: spec_builder_line(s.main, t, false), ..s }
    }
}

/// What a table does: it joins the appended table, or the current paragraph of the
/// supplementary or main provisions.
pub open spec fn doc_table(s: DocState, rows: Seq<Seq<Seq<char>>>) -> DocState {
    if s.part == DocPart::Appdx {
        DocState { appdx: s.appdx + spec_table_xml(rows), ..s }
    } else if s.part == DocPart::Suppl {
        DocState { suppl: b_table(s.suppl, rows), ..s }
    } else {
        DocState { main: b_table(s.main, rows), ..s }
    }
}

/// The cells of a table in canonical width.
pub open spec fn canonical_rows(rows: Seq<Seq<Seq<char>>>) -> Seq<Seq<Seq<char>>> {
    rows.map_values(|r: Seq<Seq<char>>| r.map_values(|c: Seq<char>| spec_canonical(c)))
}

/// What a block does, its text in canonical width.
pub open spec fn doc_block(s: DocState, b: Block) -> DocState {
    match b {
        Block::Paragraph(t) => doc_line(s, spec_canonical(t@)),
        Block::Table(rows) => doc_table(s, canonical_rows(rows_view(rows@))),
    }
}

/// What the blocks do, one after the other.
pub open spec fn doc_blocks(bs: Seq<Block>) -> DocState
    decreases bs.len(),
{
    if bs.len() == 0 {
        doc_start()
    } else {
        doc_block(doc_blocks(bs.drop_last()), bs.last())
    }
}

/// The statute data: the title, the table of contents when it has chapters, the main
/// provisions, the supplementary provisions when there are any, and the appended tables,
/// every open element closed.
pub open spec fn law_xml(title: Seq<char>, s: DocState) -> Seq<char> {
    let main = b_close_to(s.main, 0).out;
    let suppl = b_close_to(s.suppl, 0).out;
    "<Law Era=\"Reiwa\" Year=\"1\" Num=\"1\" LawType=\"Ordinance\" Lang=\"ja\"><LawNum></LawNum><LawBody><LawTitle>"@
        + spec_esc(title) + "</LawTitle>"@
        + (if s.toc.len() > 0 { "<TOC><TOCLabel>目次</TOCLabel>"@ + s.toc + "</TOC>"@ } else { Seq::empty() })
        + "<MainProvision>"@ + main + "</MainProvision>"@
        + (if suppl.len() > 0 {
            "<SupplProvision><SupplProvisionLabel>附　則</SupplProvisionLabel>"@ + suppl + "</SupplProvision>"@
        } else {
            Seq::empty()
        })
        + s.appdx + (if s.appdx_open { "</AppdxTable>"@ } else { Seq::empty() })
        + "</LawBody></Law>"@
}

/// The statute data of the blocks, whose first is the title; `None` when the first block
/// is no line of text.
pub open spec fn spec_document(blocks: Seq<Block>) -> Option<Seq<char>> {
    if blocks.len() == 0 {
        None
    } else {
        match blocks[0] {
            Block::Paragraph(t) => Some(law_xml(spec_canonical(t@), doc_blocks(blocks.skip(1)))),
            Block::Table(_) => None,
        }
    }
}

/// A line whose item number, once in canonical width, fits in `u32` (a table always). A
/// number in full-width digits that does not fit reads as 0; only a kanji item number
/// beyond `u32::MAX` is left out, where adding up its digits overflows.
pub open spec fn block_fits(b: Block) -> bool {
    match b {
        Block::Paragraph(t) => item_fits(crate::reiki::spec_canonical(t@)),
        Block::Table(_) => true,
    }
}

/// Each block adds at most one paragraph to the main and to the supplementary provisions.
proof fn lemma_doc_block_para_num(s: DocState, b: Block)
    ensures
        doc_block(s, b).main.para_num <= s.main.para_num + 1,
        doc_block(s, b).suppl.para_num <= s.suppl.para_num + 1,
{
    match b {
        Block::Paragraph(t) => {
            let c = spec_canonical(t@);
            lemma_builder_line_para_num(s.main, c, false);
            lemma_builder_line_para_num(s.suppl, c, s.suppl.out.len() == 0);
        },
        Block::Table(rows) => {
            let r = canonical_rows(rows_view(rows@));
            lemma_table_para_num(s.main, r);
            lemma_table_para_num(s.suppl, r);
        },
    }
}

/// Whether the line is the heading of the supplementary provisions.
fn suppl_heading(t: &Vec<char>) -> (r: bool)
    ensures
        r == is_suppl_heading(t@),
{
    let mut p: Vec<char> = Vec::new();
    let mut i: usize = 0;
    while i < t.len()
        invariant
            i <= t.len(),
            p@ == without_wide_spaces(t@.take(i as int)),
        decreases t.len() - i,
    {
        assert(t@.take(i + 1).drop_last() == t@.take(i as int));
        if t[i] != '\u{3000}' {
            p.push(t[i]);
        }
        i = i + 1;
    }
    assert(t@.take(t.len() as int) == t@);
    let r = p.len() == 2 && (p[0] == '附' || p[0] == '付') && p[1] == '則';
    proof {
        if r {
            assert(p@ =~= seq!['附', '則'] || p@ =~= seq!['付', '則']);
        }
        if p@ == seq!['附', '則'] || p@ == seq!['付', '則'] {
            assert(p@.len() == 2 && p@[1] == '則');
        }
    }
    r
}

/// Whether the line is the title of an appended table or form.
fn appdx_heading(t: &Vec<char>) -> (r: bool)
    ensures
        r == is_appdx_heading(t@),
{
    if t.len() < 2 || t.len() >= 60 {
        return false;
    }
    let r = (t[0] == '別' && t[1] == '表') || (t[0] == '様' && t[1] == '式') || (t[0] == '別' && t[1] == '記');
    proof {
        let h = t@.take(2);
        assert(h =~= seq![t@[0], t@[1]]);
    }
    r
}

/// The title of an appended table with its number written as statutes write it.
fn appdx_title_of(t: &Vec<char>) -> (r: String)
    ensures
        r@ == appdx_title(t@),
{
    let mut e: usize = 0;
    if t.len() > 2 && t[2] == '第' {
        let w = wide_run(t, 3);
        if w > 3 {
            e = wide_branches(t, w);
        }
    }
    if e > 0 {
        let head = string_of(slice_to(t.as_slice(), e).as_slice());
        let mut r = kanji_outside_quotes(head.as_str());
        let rest = string_of(slice_from(t.as_slice(), e).as_slice());
        push_string(&mut r, &rest);
        r
    } else {
        string_of(t.as_slice())
    }
}

/// The cells of a table in canonical width.
fn canonical_table(rows: &Vec<Vec<String>>) -> (r: Vec<Vec<String>>)
    ensures
        rows_view(r@) == canonical_rows(rows_view(rows@)),
{
    let mut r: Vec<Vec<String>> = Vec::new();
    let mut i: usize = 0;
    while i < rows.len()
        invariant
            i <= rows.len(),
            r.len() == i,
            forall|k: int| 0 <= k < i ==> strings_view(#[trigger] r@[k]@)
                == strings_view(rows@[k]@).map_values(|c: Seq<char>| spec_canonical(c)),
        decreases rows.len() - i,
    {
        let row = &rows[i];
        let mut cr: Vec<String> = Vec::new();
        let mut j: usize = 0;
        while j < row.len()
            invariant
                j <= row.len(),
                cr.len() == j,
                forall|k: int| 0 <= k < j ==> (#[trigger] cr@[k])@ == spec_canonical(row@[k]@),
            decreases row.len() - j,
        {
            cr.push(canonical(row[j].as_str()));
            j = j + 1;
        }
        assert(strings_view(cr@) =~= strings_view(row@).map_values(|c: Seq<char>| spec_canonical(c)));
        r.push(cr);
        i = i + 1;
    }
    assert(rows_view(r@) =~= canonical_rows(rows_view(rows@)));
    r
}

/// The writer of the statute data while the provisions are read.
struct DocWriter {
    part: DocPart,
    toc: String,
    main: Builder,
    suppl: Builder,
    appdx: String,
    appdx_open: bool,
}

impl DocWriter {
    closed spec fn state(&self) -> DocState {
        DocState {
            part: self.part,
            toc: self.toc@,
            main: self.main@,
            suppl: self.suppl@,
            appdx: self.appdx@,
            appdx_open: self.appdx_open,
        }
    }

    fn new() -> (w: DocWriter)
        ensures
            w.state() == doc_start(),
    {
        DocWriter {
            part: DocPart::Main,
            toc: String::new(),
            main: Builder::new(),
            suppl: Builder::new(),
            appdx: String::new(),
            appdx_open: false,
        }
    }

    /// Reads a line of content.
    fn content(&mut self, t: &Vec<char>)
        requires
            old(self).state().main.para_num < u32::MAX,
            old(self).state().suppl.para_num < u32::MAX,
            item_fits(t@),
        ensures
            final(self).state() == doc_content(old(self).state(), t@),
    {
        if suppl_heading(t) {
            self.part = DocPart::Suppl;
            return;
        }
        if appdx_heading(t) {
            if self.appdx_open {
                push_str(&mut self.appdx, "</AppdxTable>");
            }
            push_str(&mut self.appdx, "<AppdxTable><AppdxTableTitle>");
            let title = appdx_title_of(t);
            push_esc(&mut self.appdx, title.as_str());
            push_str(&mut self.appdx, "</AppdxTableTitle>");
            self.appdx_open = true;
            self.part = DocPart::Appdx;
            proof {
                let s = old(self).state();
                assert(self.appdx@ =~= s.appdx + (if s.appdx_open { "</AppdxTable>"@ } else { Seq::empty() })
                    + "<AppdxTable><AppdxTableTitle>"@ + spec_esc(appdx_title(t@)) + "</AppdxTableTitle>"@);
            }
            return;
        }
        if self.part == DocPart::Appdx {
            push_str(&mut self.appdx, "<Remarks><Sentence>");
            let ts = string_of(t.as_slice());
            push_esc(&mut self.appdx, ts.as_str());
            push_str(&mut self.appdx, "</Sentence></Remarks>");
            proof {
                let s = old(self).state();
                assert(self.appdx@ =~= s.appdx + "<Remarks><Sentence>"@ + spec_esc(t@) + "</Sentence></Remarks>"@);
            }
            return;
        }
        if self.part == DocPart::Suppl {
            let first = self.suppl.output().as_str().is_empty();
            builder_line(&mut self.suppl, t, first);
        } else {
            builder_line(&mut self.main, t, false);
        }
    }

    /// Reads a line (in canonical width).
    fn line(&mut self, t: &Vec<char>)
        requires
            old(self).state().main.para_num < u32::MAX,
            old(self).state().suppl.para_num < u32::MAX,
            item_fits(t@),
        ensures
            final(self).state() == doc_line(old(self).state(), t@),
    {
        if t.len() == 2 && t[0] == '目' && t[1] == '次' {
            assert(t@ =~= seq!['目', '次']);
            self.part = DocPart::Toc;
            return;
        }
        assert(t@ != seq!['目', '次']) by {
            if t@ == seq!['目', '次'] {
                assert(t@.len() == 2 && t@[0] == '目' && t@[1] == '次');
            }
        }
        if self.part == DocPart::Toc {
            if !(match_article(t).is_some() || is_doc_caption(t)) {
                push_str(&mut self.toc, "<TOCChapter><ChapterTitle>");
                let ts = string_of(t.as_slice());
                push_esc(&mut self.toc, ts.as_str());
                push_str(&mut self.toc, "</ChapterTitle></TOCChapter>");
                proof {
                    let s = old(self).state();
                    assert(self.toc@ =~= s.toc + toc_entry(t@));
                }
                return;
            }
            self.part = DocPart::Main;
        }
        self.content(t);
    }

    /// Reads a table (its cells in canonical width).
    fn table(&mut self, rows: &Vec<Vec<String>>)
        requires
            old(self).state().main.para_num < u32::MAX,
            old(self).state().suppl.para_num < u32::MAX,
        ensures
            final(self).state() == doc_table(old(self).state(), rows_view(rows@)),
    {
        if self.part == DocPart::Appdx {
            push_table_xml(&mut self.appdx, rows.as_slice());
        } else if self.part == DocPart::Suppl {
            self.suppl.table(rows.as_slice());
        } else {
            self.main.table(rows.as_slice());
        }
    }

    /// The statute data with the given title (in canonical width).
    fn finish(self, title: &String) -> (x: String)
        ensures
            x@ == law_xml(title@, self.state()),
    {
        let ghost s = self.state();
        let mut main = self.main;
        main.close_to(0);
        let mut suppl = self.suppl;
        suppl.close_to(0);
        let mut x = String::new();
        push_str(&mut x, "<Law Era=\"Reiwa\" Year=\"1\" Num=\"1\" LawType=\"Ordinance\" Lang=\"ja\"><LawNum></LawNum><LawBody><LawTitle>");
        push_esc(&mut x, title.as_str());
        push_str(&mut x, "</LawTitle>");
        let ghost x1 = x@;
        if !self.toc.as_str().is_empty() {
            push_str(&mut x, "<TOC><TOCLabel>目次</TOCLabel>");
            push_string(&mut x, &self.toc);
            push_str(&mut x, "</TOC>");
        }
        let ghost x2 = x@;
        assert(x2 =~= x1 + (if s.toc.len() > 0 { "<TOC><TOCLabel>目次</TOCLabel>"@ + s.toc + "</TOC>"@ } else { Seq::empty() }));
        push_str(&mut x, "<MainProvision>");
        push_string(&mut x, main.output());
        push_str(&mut x, "</MainProvision>");
        let ghost x3 = x@;
        if !suppl.output().as_str().is_empty() {
            push_str(&mut x, "<SupplProvision><SupplProvisionLabel>附　則</SupplProvisionLabel>");
            push_string(&mut x, suppl.output());
            push_str(&mut x, "</SupplProvision>");
        }
        let ghost x4 = x@;
        let ghost so = b_close_to(s.suppl, 0).out;
        assert(x4 =~= x3 + (if so.len() > 0 {
            "<SupplProvision><SupplProvisionLabel>附　則</SupplProvisionLabel>"@ + so + "</SupplProvision>"@
        } else {
            Seq::empty()
        }));
        push_string(&mut x, &self.appdx);
        if self.appdx_open {
            push_str(&mut x, "</AppdxTable>");
        }
        let ghost x5 = x@;
        assert(x5 =~= x4 + s.appdx + (if s.appdx_open { "</AppdxTable>"@ } else { Seq::empty() }));
        push_str(&mut x, "</LawBody></Law>");
        assert(x@ =~= law_xml(title@, s));
        x
    }
}

/// Reads an ordinance (the title first, then its provisions as structured plain text) as
/// e-Gov statute data: line numbers as statutes write them (article `第五条の二`, item `一`),
/// the wording in canonical width. `Err("no title")` when the first block is no line.
pub fn document(blocks: &[Block]) -> (r: Result<String, String>)
    requires
        blocks.len() < u32::MAX,
        forall|i: int| 0 <= i < blocks.len() ==> block_fits(#[trigger] blocks[i]),
    ensures
        match r {
            Ok(x) => spec_document(blocks@) == Some(x@),
            Err(e) => spec_document(blocks@) is None && e@ == "no title"@,
        },
{
    if blocks.len() == 0 {
        return Err(String::from_str("no title"));
    }
    let title = match &blocks[0] {
        Block::Paragraph(t) => canonical(t.as_str()),
        Block::Table(_) => {
            return Err(String::from_str("no title"));
        },
    };
    let mut w = DocWriter::new();
    let mut i: usize = 1;
    while i < blocks.len()
        invariant
            1 <= i <= blocks.len(),
            blocks.len() < u32::MAX,
            forall|k: int| 0 <= k < blocks.len() ==> block_fits(#[trigger] blocks[k]),
            w.state() == doc_blocks(blocks@.subrange(1, i as int)),
            w.state().main.para_num < i,
            w.state().suppl.para_num < i,
        decreases blocks.len() - i,
    {
        let ghost before = w.state();
        assert(blocks@.subrange(1, i + 1).drop_last() == blocks@.subrange(1, i as int));
        assert(blocks@.subrange(1, i + 1).last() == blocks@[i as int]);
        proof {
            lemma_doc_block_para_num(before, blocks@[i as int]);
        }
        match &blocks[i] {
            Block::Paragraph(t) => {
                assert(block_fits(blocks@[i as int]));
                let c = canonical(t.as_str());
                let cs = chars_of(c.as_str());
                w.line(&cs);
            },
            Block::Table(rows) => {
                let cr = canonical_table(rows);
                w.table(&cr);
            },
        }
        i = i + 1;
    }
    assert(blocks@.subrange(1, blocks.len() as int) == blocks@.skip(1));
    Ok(w.finish(&title))
}

} // verus!
