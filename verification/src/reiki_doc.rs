//! Writing an ordinance (provisions in structured plain text) in the form of e-Gov statute
//! data: articles, paragraphs, items and sub-items are nested and closed as they follow
//! each other.

use vstd::prelude::*;
use crate::numeral::{kanji, spec_kanji, spec_decimal, push_decimal};
use crate::reiki::{
    article_num, canonical, joined_decimals, kanji_outside_quotes, number_fields, push_esc, push_table_xml, rows_view,
    sentence, spec_canonical, spec_esc, spec_kanji_outside_quotes, spec_sentence, spec_table_xml, statute_title,
};
use crate::numeral::{digits, from_kanji, spec_digits, spec_from_kanji};
use crate::text::{chars_of, lacks, push_char, push_str, push_string, split_on, starts_with, str_eq, string_of};

verus! {

/// The value of a [`Builder`]: the text written so far, the open elements (outermost first),
/// the caption waiting for the next article or paragraph, and the number of the last paragraph.
pub struct BuilderModel {
    pub out: Seq<char>,
    pub open: Seq<Seq<char>>,
    pub caption: Option<Seq<char>>,
    pub para_num: nat,
}

/// Nests and closes the elements of articles, paragraphs, items and sub-items.
pub struct Builder {
    out: String,
    /// The open elements, outermost first: `Article`, `Paragraph`, `Item`, `Subitem1`, `Subitem2`.
    open: Vec<&'static str>,
    caption: Option<String>,
    para_num: u32,
}

/// The texts of the open elements.
pub open spec fn tags_view(v: Seq<&'static str>) -> Seq<Seq<char>> {
    v.map_values(|t: &'static str| t@)
}

impl View for Builder {
    type V = BuilderModel;

    closed spec fn view(&self) -> BuilderModel {
        BuilderModel {
            out: self.out@,
            open: tags_view(self.open@),
            caption: match self.caption {
                Some(c) => Some(c@),
                None => None,
            },
            para_num: self.para_num as nat,
        }
    }
}

/// The end tags of the open elements above `depth`, innermost first.
pub open spec fn close_tags(open: Seq<Seq<char>>, depth: nat) -> Seq<char>
    decreases open.len(),
{
    if open.len() <= depth {
        Seq::empty()
    } else {
        "</"@ + open.last() + ">"@ + close_tags(open.drop_last(), depth)
    }
}

/// The builder with the elements above `depth` closed.
pub open spec fn b_close_to(b: BuilderModel, depth: nat) -> BuilderModel {
    BuilderModel {
        out: b.out + close_tags(b.open, depth),
        open: if b.open.len() > depth { b.open.take(depth as int) } else { b.open },
        ..b
    }
}

/// The depth of the first open element `tag`, or the number of open elements when none is.
pub open spec fn b_depth_of(b: BuilderModel, tag: Seq<char>) -> nat {
    if exists|i: int| 0 <= i < b.open.len() && b.open[i] == tag {
        (choose|i: int| 0 <= i < b.open.len() && b.open[i] == tag && forall|j: int| 0 <= j < i ==> b.open[j] != tag) as nat
    } else {
        b.open.len()
    }
}

/// Some open element is `tag`.
pub open spec fn b_has_open(b: BuilderModel, tag: Seq<char>) -> bool {
    b.open.contains(tag)
}

/// A new paragraph: the elements down to the open paragraph are closed, the number counts
/// up, and a waiting caption becomes the paragraph's caption when no article is open (the
/// paragraphs of an ordinance or supplementary provision without articles).
#[verifier::opaque]
pub open spec fn b_paragraph(b: BuilderModel, label: Seq<char>, body: Seq<char>) -> BuilderModel {
    let b1 = b_close_to(b, b_depth_of(b, "Paragraph"@));
    let pn = b1.para_num + 1;
    let cap_xml = if b1.open.len() == 0 && b1.caption is Some {
        "<ParagraphCaption>"@ + spec_esc(b1.caption.unwrap()) + "</ParagraphCaption>"@
    } else {
        Seq::empty()
    };
    let cap = if b1.open.len() == 0 { None } else { b1.caption };
    BuilderModel {
        out: b1.out + "<Paragraph Num=\""@ + spec_decimal(pn) + "\">"@ + cap_xml + "<ParagraphNum>"@ + spec_esc(label)
            + "</ParagraphNum>"@ + spec_sentence("ParagraphSentence"@, body),
        open: b1.open.push("Paragraph"@),
        caption: cap,
        para_num: pn,
    }
}

/// A new article: everything is closed, the waiting caption becomes its caption, the
/// paragraph numbers start again, and the body is its first paragraph.
#[verifier::opaque]
pub open spec fn b_article(b: BuilderModel, num: Seq<char>, title: Seq<char>, body: Seq<char>) -> BuilderModel {
    let b1 = b_close_to(b, 0);
    let cap_xml = match b1.caption {
        Some(c) => "<ArticleCaption>"@ + spec_esc(c) + "</ArticleCaption>"@,
        None => Seq::empty(),
    };
    let b2 = BuilderModel {
        out: b1.out + "<Article Num=\""@ + num + "\">"@ + cap_xml + "<ArticleTitle>"@ + spec_esc(title) + "</ArticleTitle>"@,
        open: b1.open.push("Article"@),
        caption: None,
        para_num: 0,
    };
    b_paragraph(b2, Seq::empty(), body)
}

/// A paragraph is open (an empty one is opened when none is).
#[verifier::opaque]
pub open spec fn b_ensure_paragraph(b: BuilderModel) -> BuilderModel {
    if b_has_open(b, "Paragraph"@) { b } else { b_paragraph(b, Seq::empty(), Seq::empty()) }
}

/// A new item `n` with its kanji title.
#[verifier::opaque]
pub open spec fn b_item(b: BuilderModel, n: u32, body: Seq<char>) -> BuilderModel {
    let b1 = b_ensure_paragraph(b);
    let b2 = b_close_to(b1, b_depth_of(b1, "Item"@));
    BuilderModel {
        out: b2.out + "<Item Num=\""@ + spec_decimal(n as nat) + "\"><ItemTitle>"@ + spec_kanji(n as nat)
            + "</ItemTitle>"@ + spec_sentence("ItemSentence"@, body),
        open: b2.open.push("Item"@),
        ..b2
    }
}

/// A line without number (headings of tables, remarks): it continues the current paragraph.
#[verifier::opaque]
pub open spec fn b_text(b: BuilderModel, t: Seq<char>) -> BuilderModel {
    let b1 = b_ensure_paragraph(b);
    let b2 = b_close_to(b1, b_depth_of(b1, "Paragraph"@) + 1);
    BuilderModel {
        out: b2.out + "<List><ListSentence><Sentence>"@ + spec_esc(t) + "</Sentence></ListSentence></List>"@,
        ..b2
    }
}

/// A table in the current paragraph.
#[verifier::opaque]
pub open spec fn b_table(b: BuilderModel, rows: Seq<Seq<Seq<char>>>) -> BuilderModel {
    let b1 = b_ensure_paragraph(b);
    let b2 = b_close_to(b1, b_depth_of(b1, "Paragraph"@) + 1);
    BuilderModel { out: b2.out + spec_table_xml(rows), ..b2 }
}

/// A sub-item of level 1 (under an item) or 2 (under a sub-item); without the level above,
/// the line continues the paragraph as text.
#[verifier::opaque]
pub open spec fn b_subitem(b: BuilderModel, level: u8, n: u32, title: Seq<char>, body: Seq<char>) -> BuilderModel {
    let tag = if level == 1 { "Subitem1"@ } else { "Subitem2"@ };
    let parent = if level == 1 { "Item"@ } else { "Subitem1"@ };
    if !b_has_open(b, parent) {
        b_text(b, title + seq!['\u{3000}'] + body)
    } else {
        let b1 = b_close_to(b, b_depth_of(b, tag));
        BuilderModel {
            out: b1.out + "<"@ + tag + " Num=\""@ + spec_decimal(n as nat) + "\"><"@ + tag + "Title>"@ + spec_esc(title)
                + "</"@ + tag + "Title>"@ + spec_sentence(tag + "Sentence"@, body),
            open: b1.open.push(tag),
            ..b1
        }
    }
}

proof fn lemma_tags_push(v: Seq<&'static str>, t: &'static str)
    ensures
        tags_view(v.push(t)) == tags_view(v).push(t@),
{
    assert(tags_view(v.push(t)) =~= tags_view(v).push(t@));
}

impl Builder {
    /// An empty builder.
    pub fn new() -> (b: Builder)
        ensures
            b@ == (BuilderModel { out: Seq::empty(), open: Seq::empty(), caption: None, para_num: 0 }),
    {
        let b = Builder { out: String::new(), open: Vec::new(), caption: None, para_num: 0 };
        assert(tags_view(b.open@) =~= Seq::<Seq<char>>::empty());
        b
    }

    /// The text written so far.
    pub fn output(&self) -> (r: &String)
        ensures
            r@ == self@.out,
    {
        &self.out
    }

    /// Sets the caption waiting for the next article or paragraph.
    pub fn set_caption(&mut self, c: String)
        ensures
            final(self)@ == (BuilderModel { caption: Some(c@), ..old(self)@ }),
    {
        self.caption = Some(c);
    }

    /// Closes the open elements above `depth`, innermost first.
    pub fn close_to(&mut self, depth: usize)
        ensures
            final(self)@ == b_close_to(old(self)@, depth as nat),
    {
        let ghost start = self@;
        while self.open.len() > depth
            invariant
                b_close_to(start, depth as nat) == b_close_to(self@, depth as nat),
            decreases self.open.len(),
        {
            let ghost before = self@;
            let tag = self.open.pop().unwrap();
            push_str(&mut self.out, "</");
            push_str(&mut self.out, tag);
            push_str(&mut self.out, ">");
            proof {
                assert(tags_view(self.open@) == before.open.drop_last());
                assert(before.open.last() == tag@);
                assert(close_tags(before.open, depth as nat) == "</"@ + tag@ + ">"@ + close_tags(self@.open, depth as nat));
                assert(before.open.take(depth as int) == self@.open.take(depth as int)) by {
                    assert(before.open.take(depth as int) =~= before.open.drop_last().take(depth as int));
                }
                if self@.open.len() <= depth {
                    assert(self@.open.take(depth as int) =~= self@.open);
                }
                assert(self@.out == before.out + "</"@ + tag@ + ">"@);
                assert(b_close_to(before, depth as nat).out =~= b_close_to(self@, depth as nat).out);
                assert(b_close_to(before, depth as nat).open =~= b_close_to(self@, depth as nat).open);
            }
        }
        proof {
            assert(close_tags(self@.open, depth as nat) == Seq::<char>::empty());
        }
    }

    /// The depth of the first open element `tag`, or the number of open elements.
    pub fn depth_of(&self, tag: &str) -> (d: usize)
        ensures
            d == b_depth_of(self@, tag@),
    {
        let ghost v = self@.open;
        let mut i: usize = 0;
        while i < self.open.len()
            invariant
                i <= self.open.len(),
                v == self@.open,
                v.len() == self.open.len(),
                forall|j: int| 0 <= j < i ==> v[j] != tag@,
            decreases self.open.len() - i,
        {
            if str_eq(self.open[i], tag) {
                proof {
                    assert(v[i as int] == tag@);
                    let w = choose|k: int| 0 <= k < v.len() && v[k] == tag@ && forall|j: int| 0 <= j < k ==> v[j] != tag@;
                    assert(exists|k: int| 0 <= k < v.len() && v[k] == tag@ && forall|j: int| 0 <= j < k ==> v[j] != tag@);
                    if w < i as int {
                        assert(v[w] != tag@);
                    }
                    if w > i as int {
                        assert(v[i as int] != tag@);
                    }
                }
                return i;
            }
            i = i + 1;
        }
        i
    }

    fn has_open(&self, tag: &str) -> (r: bool)
        ensures
            r == b_has_open(self@, tag@),
    {
        let d = self.depth_of(tag);
        proof {
            let v = self@.open;
            if exists|i: int| 0 <= i < v.len() && v[i] == tag@ {
                let w = choose|k: int| 0 <= k < v.len() && v[k] == tag@ && forall|j: int| 0 <= j < k ==> v[j] != tag@;
                let i = choose|i: int| 0 <= i < v.len() && v[i] == tag@;
                assert(exists|k: int| 0 <= k < v.len() && v[k] == tag@ && forall|j: int| 0 <= j < k ==> v[j] != tag@) by {
                    crate::reiki_doc::lemma_first_index(v, tag@, i);
                }
            }
        }
        d < self.open.len()
    }
}

/// The element of a paragraph numbered `pn`: its caption, number as written and sentences.
fn paragraph_xml(pn: u32, cap: &String, label: Option<&str>, body: &str) -> (p: String)
    ensures
        p@ == "<Paragraph Num=\""@ + spec_decimal(pn as nat) + "\">"@ + cap@ + "<ParagraphNum>"@ + spec_esc(
            match label {
                Some(l) => l@,
                None => Seq::<char>::empty(),
            },
        ) + "</ParagraphNum>"@ + spec_sentence("ParagraphSentence"@, body@),
{
    let mut p = String::new();
    push_str(&mut p, "<Paragraph Num=\"");
    push_decimal(&mut p, pn as u64);
    push_str(&mut p, "\">");
    push_string(&mut p, cap);
    push_str(&mut p, "<ParagraphNum>");
    match label {
        Some(l) => push_esc(&mut p, l),
        None => {},
    }
    assert(crate::reiki::spec_esc(Seq::<char>::empty()) == Seq::<char>::empty());
    push_str(&mut p, "</ParagraphNum>");
    let x = sentence("ParagraphSentence", body);
    push_string(&mut p, &x);
    assert(p@ =~= "<Paragraph Num=\""@ + spec_decimal(pn as nat) + "\">"@ + cap@ + "<ParagraphNum>"@ + spec_esc(
        match label {
            Some(l) => l@,
            None => Seq::<char>::empty(),
        },
    ) + "</ParagraphNum>"@ + spec_sentence("ParagraphSentence"@, body@));
    p
}

impl Builder {
    /// A new paragraph (`label` is its number as written, if any).
    pub fn paragraph(&mut self, label: Option<&str>, body: &str)
        requires
            old(self)@.para_num < u32::MAX,
        ensures
            final(self)@ == b_paragraph(old(self)@, match label {
                Some(l) => l@,
                None => Seq::empty(),
            }, body@),
    {
        reveal(b_paragraph);
        let ghost lab = match label {
            Some(l) => l@,
            None => Seq::<char>::empty(),
        };
        let d = self.depth_of("Paragraph");
        self.close_to(d);
        let ghost b1 = self@;
        self.para_num = self.para_num + 1;
        let top = self.open.len() == 0;
        let mut cap = String::new();
        if top {
            match self.caption.take() {
                Some(c) => {
                    push_str(&mut cap, "<ParagraphCaption>");
                    push_esc(&mut cap, c.as_str());
                    push_str(&mut cap, "</ParagraphCaption>");
                },
                None => {},
            }
        }
        assert(cap@ == (if b1.open.len() == 0 && b1.caption is Some {
            "<ParagraphCaption>"@ + spec_esc(b1.caption.unwrap()) + "</ParagraphCaption>"@
        } else {
            Seq::<char>::empty()
        })) by {
            if !(b1.open.len() == 0 && b1.caption is Some) {
                assert(cap@ =~= Seq::<char>::empty());
            }
        }
        let p = paragraph_xml(self.para_num, &cap, label, body);
        assert(p@ == "<Paragraph Num=\""@ + spec_decimal(b1.para_num + 1) + "\">"@ + cap@ + "<ParagraphNum>"@
            + spec_esc(lab) + "</ParagraphNum>"@ + spec_sentence("ParagraphSentence"@, body@));
        push_string(&mut self.out, &p);
        let ghost o0 = self.open@;
        self.open.push("Paragraph");
        proof {
            lemma_tags_push(o0, "Paragraph");
        }
        assert(self@.out =~= b_paragraph(old(self)@, lab, body@).out);
    }

    /// A new article: its number attribute, title, and the first paragraph's body.
    pub fn article(&mut self, num: &str, title: &str, body: &str)
        ensures
            final(self)@ == b_article(old(self)@, num@, title@, body@),
    {
        reveal(b_article);
        self.close_to(0);
        let ghost b1 = self@;
        let mut p = String::new();
        push_str(&mut p, "<Article Num=\"");
        push_str(&mut p, num);
        push_str(&mut p, "\">");
        let mut cap = String::new();
        match self.caption.take() {
            Some(c) => {
                push_str(&mut cap, "<ArticleCaption>");
                push_esc(&mut cap, c.as_str());
                push_str(&mut cap, "</ArticleCaption>");
            },
            None => {},
        }
        assert(cap@ == match b1.caption {
            Some(c) => "<ArticleCaption>"@ + spec_esc(c) + "</ArticleCaption>"@,
            None => Seq::<char>::empty(),
        }) by {
            if b1.caption is None {
                assert(cap@ =~= Seq::<char>::empty());
            }
        }
        push_string(&mut p, &cap);
        push_str(&mut p, "<ArticleTitle>");
        push_esc(&mut p, title);
        push_str(&mut p, "</ArticleTitle>");
        let ghost piece = "<Article Num=\""@ + num@ + "\">"@ + cap@ + "<ArticleTitle>"@ + spec_esc(title@) + "</ArticleTitle>"@;
        assert(p@ =~= piece);
        push_string(&mut self.out, &p);
        let ghost o0 = self.open@;
        self.open.push("Article");
        proof {
            lemma_tags_push(o0, "Article");
        }
        self.para_num = 0;
        let ghost cap_xml = cap@;
        assert(self@ == (BuilderModel {
            out: b1.out + "<Article Num=\""@ + num@ + "\">"@ + cap_xml + "<ArticleTitle>"@ + spec_esc(title@) + "</ArticleTitle>"@,
            open: b1.open.push("Article"@),
            caption: None,
            para_num: 0,
        })) by {
            assert(self@.out =~= b1.out + "<Article Num=\""@ + num@ + "\">"@ + cap_xml + "<ArticleTitle>"@ + spec_esc(title@) + "</ArticleTitle>"@);
        }
        self.paragraph(None, body);
    }

    /// Opens an empty paragraph when none is open.
    pub fn ensure_paragraph(&mut self)
        requires
            old(self)@.para_num < u32::MAX,
        ensures
            final(self)@ == b_ensure_paragraph(old(self)@),
    {
        reveal(b_ensure_paragraph);
        if !self.has_open("Paragraph") {
            proof {
                reveal_strlit("");
                assert(""@ =~= Seq::<char>::empty());
            }
            self.paragraph(None, "");
        }
    }

    /// A new item `n`.
    pub fn item(&mut self, n: u32, body: &str)
        requires
            old(self)@.para_num < u32::MAX,
        ensures
            final(self)@ == b_item(old(self)@, n, body@),
    {
        reveal(b_item);
        self.ensure_paragraph();
        let d = self.depth_of("Item");
        self.close_to(d);
        push_str(&mut self.out, "<Item Num=\"");
        push_decimal(&mut self.out, n as u64);
        push_str(&mut self.out, "\"><ItemTitle>");
        let k = kanji(n);
        push_string(&mut self.out, &k);
        push_str(&mut self.out, "</ItemTitle>");
        let x = sentence("ItemSentence", body);
        push_string(&mut self.out, &x);
        let ghost o0 = self.open@;
        self.open.push("Item");
        proof {
            lemma_tags_push(o0, "Item");
        }
    }

    /// A line without number: it continues the current paragraph.
    pub fn text(&mut self, t: &str)
        requires
            old(self)@.para_num < u32::MAX,
        ensures
            final(self)@ == b_text(old(self)@, t@),
    {
        reveal(b_text);
        self.ensure_paragraph();
        let d = self.depth_of("Paragraph");
        proof {
            lemma_paragraph_open_depth(old(self)@);
        }
        assert(self@ == b_ensure_paragraph(old(self)@));
        assert(d < self@.open.len());
        assert(self@.open.len() == self.open.len());
        self.close_to(d + 1);
        push_str(&mut self.out, "<List><ListSentence><Sentence>");
        push_esc(&mut self.out, t);
        push_str(&mut self.out, "</Sentence></ListSentence></List>");
    }

    /// A table in the current paragraph.
    pub fn table(&mut self, rows: &[Vec<String>])
        requires
            old(self)@.para_num < u32::MAX,
        ensures
            final(self)@ == b_table(old(self)@, rows_view(rows@)),
    {
        reveal(b_table);
        self.ensure_paragraph();
        let d = self.depth_of("Paragraph");
        proof {
            lemma_paragraph_open_depth(old(self)@);
        }
        assert(self@ == b_ensure_paragraph(old(self)@));
        assert(d < self@.open.len());
        assert(self@.open.len() == self.open.len());
        self.close_to(d + 1);
        push_table_xml(&mut self.out, rows);
    }

    /// A sub-item of level 1 or 2 (`title` as written, `n` its place in the katakana order).
    pub fn subitem(&mut self, level: u8, n: u32, title: &str, body: &str)
        requires
            old(self)@.para_num < u32::MAX,
        ensures
            final(self)@ == b_subitem(old(self)@, level, n, title@, body@),
    {
        reveal(b_subitem);
        let (tag, parent) = if level == 1 { ("Subitem1", "Item") } else { ("Subitem2", "Subitem1") };
        if !self.has_open(parent) {
            let mut t = String::new();
            push_str(&mut t, title);
            push_char(&mut t, '\u{3000}');
            push_str(&mut t, body);
            assert(t@ =~= title@ + seq!['\u{3000}'] + body@);
            self.text(t.as_str());
            return;
        }
        let d = self.depth_of(tag);
        self.close_to(d);
        push_str(&mut self.out, "<");
        push_str(&mut self.out, tag);
        push_str(&mut self.out, " Num=\"");
        push_decimal(&mut self.out, n as u64);
        push_str(&mut self.out, "\"><");
        push_str(&mut self.out, tag);
        push_str(&mut self.out, "Title>");
        push_esc(&mut self.out, title);
        push_str(&mut self.out, "</");
        push_str(&mut self.out, tag);
        push_str(&mut self.out, "Title>");
        let mut stag = String::new();
        push_str(&mut stag, tag);
        push_str(&mut stag, "Sentence");
        let x = sentence(stag.as_str(), body);
        push_string(&mut self.out, &x);
        let ghost o0 = self.open@;
        self.open.push(tag);
        proof {
            lemma_tags_push(o0, tag);
        }
    }
}

/// After a paragraph is ensured, the paragraph is open, below the depth of the open elements.
proof fn lemma_paragraph_open_depth(b: BuilderModel)
    ensures
        b_depth_of(b_ensure_paragraph(b), "Paragraph"@) < b_ensure_paragraph(b).open.len(),
{
    reveal(b_ensure_paragraph);
    reveal(b_paragraph);
    let e = b_ensure_paragraph(b);
    let v = e.open;
    let t = "Paragraph"@;
    if !b_has_open(b, t) {
        assert(v.last() == t);
        assert(v[v.len() - 1] == t);
    }
    assert(v.contains(t));
    let i = choose|i: int| 0 <= i < v.len() && v[i] == t;
    lemma_first_index(v, t, i);
}

/// Where some element equals `x`, there is a first one.
pub proof fn lemma_first_index(v: Seq<Seq<char>>, x: Seq<char>, i: int)
    requires
        0 <= i < v.len(),
        v[i] == x,
    ensures
        exists|k: int| 0 <= k < v.len() && v[k] == x && forall|j: int| 0 <= j < k ==> v[j] != x,
    decreases i,
{
    if exists|j: int| 0 <= j < i && v[j] == x {
        let j = choose|j: int| 0 <= j < i && v[j] == x;
        lemma_first_index(v, x, j);
    } else {
        assert(forall|j: int| 0 <= j < i ==> v[j] != x);
    }
}


/// A full-width decimal digit.
pub open spec fn is_wide(c: char) -> bool {
    '０' <= c <= '９'
}

/// The end of the run of full-width digits that starts at `i`.
pub open spec fn wide_run_end(t: Seq<char>, i: int) -> int
    decreases t.len() - i,
{
    if 0 <= i < t.len() && is_wide(t[i]) { wide_run_end(t, i + 1) } else { i }
}

pub proof fn lemma_wide_run_end(t: Seq<char>, i: int)
    requires
        0 <= i <= t.len(),
    ensures
        i <= wide_run_end(t, i) <= t.len(),
        wide_run_end(t, i) < t.len() ==> !is_wide(t[wide_run_end(t, i)]),
    decreases t.len() - i,
{
    if i < t.len() && is_wide(t[i]) {
        lemma_wide_run_end(t, i + 1);
    }
}

/// The end of the branch numbers `の５の２` (full-width digits) that start at `i`.
pub open spec fn wide_branches_end(t: Seq<char>, i: int) -> int
    decreases t.len() - i,
{
    if 0 <= i < t.len() && t[i] == 'の' && wide_run_end(t, i + 1) > i + 1 {
        proof {
            lemma_wide_run_end(t, i + 1);
        }
        wide_branches_end(t, wide_run_end(t, i + 1))
    } else {
        i
    }
}

pub proof fn lemma_wide_branches_end(t: Seq<char>, i: int)
    requires
        0 <= i <= t.len(),
    ensures
        i <= wide_branches_end(t, i) <= t.len(),
    decreases t.len() - i,
{
    if i < t.len() && t[i] == 'の' && wide_run_end(t, i + 1) > i + 1 {
        lemma_wide_run_end(t, i + 1);
        lemma_wide_branches_end(t, wide_run_end(t, i + 1));
    }
}

pub(crate) fn wide_run(t: &Vec<char>, i: usize) -> (r: usize)
    requires
        i <= t.len(),
    ensures
        r == wide_run_end(t@, i as int),
        i <= r <= t.len(),
{
    proof {
        lemma_wide_run_end(t@, i as int);
    }
    let mut k = i;
    while k < t.len() && t[k] >= '０' && t[k] <= '９'
        invariant
            i <= k <= t.len(),
            wide_run_end(t@, k as int) == wide_run_end(t@, i as int),
        decreases t.len() - k,
    {
        k = k + 1;
    }
    k
}

pub(crate) fn wide_branches(t: &Vec<char>, i: usize) -> (r: usize)
    requires
        i <= t.len(),
    ensures
        r == wide_branches_end(t@, i as int),
        i <= r <= t.len(),
{
    proof {
        lemma_wide_branches_end(t@, i as int);
    }
    let mut k = i;
    while k < t.len() && t[k] == 'の' && wide_run(t, k + 1) > k + 1
        invariant
            i <= k <= t.len(),
            wide_branches_end(t@, k as int) == wide_branches_end(t@, i as int),
        decreases t.len() - k,
    {
        k = wide_run(t, k + 1);
    }
    k
}

/// Whether the characters from `i` on hold no line break.
fn no_break_from(t: &Vec<char>, i: usize) -> (r: bool)
    requires
        i <= t.len(),
    ensures
        r == lacks(t@.skip(i as int), '\n'),
{
    let mut k = i;
    while k < t.len()
        invariant
            i <= k <= t.len(),
            forall|j: int| i <= j < k ==> t@[j] != '\n',
        decreases t.len() - k,
    {
        if t[k] == '\n' {
            assert(t@.skip(i as int)[k - i] == '\n');
            return false;
        }
        k = k + 1;
    }
    assert forall|j: int| 0 <= j < t@.skip(i as int).len() implies t@.skip(i as int)[j] != '\n' by {
        assert(t@.skip(i as int)[j] == t@[i + j]);
    }
    true
}

/// An article line `第Ｎ条[の…]　本文` (full-width digits; the body may be absent):
/// the digits, the branch numbers and the body.
pub open spec fn doc_article(t: Seq<char>) -> Option<(Seq<char>, Seq<char>, Seq<char>)> {
    let e = wide_run_end(t, 1);
    if t.len() > 0 && t[0] == '第' && e > 1 && e < t.len() && t[e] == '条' {
        let b = wide_branches_end(t, e + 1);
        if b == t.len() {
            Some((t.subrange(1, e), t.subrange(e + 1, b), Seq::empty()))
        } else if t[b] == '\u{3000}' && lacks(t.skip(b + 1), '\n') {
            Some((t.subrange(1, e), t.subrange(e + 1, b), t.skip(b + 1)))
        } else {
            None
        }
    } else {
        None
    }
}

/// A caption line: `（…）` holding one to sixty characters and no bracket.
pub open spec fn doc_caption(t: Seq<char>) -> bool {
    &&& 3 <= t.len() <= 62
    &&& t[0] == '（'
    &&& t.last() == '）'
    &&& forall|i: int| 1 <= i < t.len() - 1 ==> t[i] != '（' && t[i] != '）'
}

/// A paragraph line `Ｎ　本文`: its number as written and its body.
pub open spec fn doc_para(t: Seq<char>) -> Option<(Seq<char>, Seq<char>)> {
    let e = wide_run_end(t, 0);
    if e > 0 && e < t.len() && t[e] == '\u{3000}' && lacks(t.skip(e + 1), '\n') {
        Some((t.take(e), t.skip(e + 1)))
    } else {
        None
    }
}

/// A kanji digit of an item number (`一`–`九`, `十`).
pub open spec fn is_item_kanji(c: char) -> bool {
    c == '一' || c == '二' || c == '三' || c == '四' || c == '五' || c == '六' || c == '七' || c == '八' || c == '九'
        || c == '十'
}

/// The end of the run of item kanji that starts at `i`.
pub open spec fn kanji_run_end(t: Seq<char>, i: int) -> int
    decreases t.len() - i,
{
    if 0 <= i < t.len() && is_item_kanji(t[i]) { kanji_run_end(t, i + 1) } else { i }
}

pub proof fn lemma_kanji_run_end(t: Seq<char>, i: int)
    requires
        0 <= i <= t.len(),
    ensures
        i <= kanji_run_end(t, i) <= t.len(),
    decreases t.len() - i,
{
    if i < t.len() && is_item_kanji(t[i]) {
        lemma_kanji_run_end(t, i + 1);
    }
}

/// An item line `（Ｎ）　本文` or `Ｎ（kanji）　本文`: the item number (0 when full-width digits
/// do not fit) and its body. `None` for an item of kanji whose value does not fit.
pub open spec fn doc_item(t: Seq<char>) -> Option<(int, Seq<char>)> {
    let e = wide_run_end(t, 1);
    let k = kanji_run_end(t, 0);
    if t.len() > 0 && t[0] == '（' {
        if e > 1 && e < t.len() && t.len() - e > 1 && t[e] == '）' && t[e + 1] == '\u{3000}' && lacks(t.skip(e + 2), '\n') {
            Some((match spec_digits(t.subrange(1, e)) {
                Some(n) => n as int,
                None => 0,
            }, t.skip(e + 2)))
        } else {
            None
        }
    } else if k > 0 && k < t.len() && t[k] == '\u{3000}' && lacks(t.skip(k + 1), '\n') {
        Some((spec_from_kanji(t.take(k)), t.skip(k + 1)))
    } else {
        None
    }
}

/// A katakana from `ア` to `ン`.
pub open spec fn is_katakana(c: char) -> bool {
    'ア' <= c <= 'ン'
}

/// A sub-item line of level 1, `ア　本文`: its symbol and body.
pub open spec fn doc_sub1(t: Seq<char>) -> Option<(char, Seq<char>)> {
    if t.len() >= 2 && is_katakana(t[0]) && t[1] == '\u{3000}' && lacks(t.skip(2), '\n') {
        Some((t[0], t.skip(2)))
    } else {
        None
    }
}

/// A sub-item line of level 2, `（ア）　本文`: its symbol and body.
pub open spec fn doc_sub2(t: Seq<char>) -> Option<(char, Seq<char>)> {
    if t.len() >= 4 && t[0] == '（' && is_katakana(t[1]) && t[2] == '）' && t[3] == '\u{3000}' && lacks(t.skip(4), '\n') {
        Some((t[1], t.skip(4)))
    } else {
        None
    }
}

/// The katakana in the order in which ordinances number sub-items.
pub open spec fn katakana_order() -> Seq<char> {
    seq![
        'ア', 'イ', 'ウ', 'エ', 'オ', 'カ', 'キ', 'ク', 'ケ', 'コ', 'サ', 'シ', 'ス', 'セ', 'ソ', 'タ', 'チ',
        'ツ', 'テ', 'ト', 'ナ', 'ニ', 'ヌ', 'ネ', 'ノ', 'ハ', 'ヒ', 'フ', 'ヘ', 'ホ', 'マ', 'ミ', 'ム', 'メ',
        'モ', 'ヤ', 'ユ', 'ヨ', 'ラ', 'リ', 'ル', 'レ', 'ロ', 'ワ', 'ヲ', 'ン',
    ]
}

/// The place (from 1) of a katakana in that order, 0 when it has none.
pub open spec fn katakana_place(c: char) -> nat {
    if katakana_order().contains(c) {
        (choose|i: int| 0 <= i < katakana_order().len() && katakana_order()[i] == c && forall|j: int|
            0 <= j < i ==> katakana_order()[j] != c) as nat + 1
    } else {
        0
    }
}

fn katakana_place_of(c: char) -> (n: u32)
    ensures
        n == katakana_place(c),
{
    let ks = vec![
        'ア', 'イ', 'ウ', 'エ', 'オ', 'カ', 'キ', 'ク', 'ケ', 'コ', 'サ', 'シ', 'ス', 'セ', 'ソ', 'タ', 'チ',
        'ツ', 'テ', 'ト', 'ナ', 'ニ', 'ヌ', 'ネ', 'ノ', 'ハ', 'ヒ', 'フ', 'ヘ', 'ホ', 'マ', 'ミ', 'ム', 'メ',
        'モ', 'ヤ', 'ユ', 'ヨ', 'ラ', 'リ', 'ル', 'レ', 'ロ', 'ワ', 'ヲ', 'ン',
    ];
    assert(ks@ =~= katakana_order());
    let mut i: usize = 0;
    while i < ks.len()
        invariant
            i <= ks.len(),
            ks@ == katakana_order(),
            forall|j: int| 0 <= j < i ==> katakana_order()[j] != c,
        decreases ks.len() - i,
    {
        if ks[i] == c {
            proof {
                let o = katakana_order();
                assert(o.contains(c));
                assert(exists|m: int| 0 <= m < o.len() && o[m] == c && forall|j: int| 0 <= j < m ==> o[j] != c) by {
                    assert(o[i as int] == c);
                }
                let w = choose|m: int| 0 <= m < o.len() && o[m] == c && forall|j: int| 0 <= j < m ==> o[j] != c;
                if w < i as int {
                    assert(o[w] != c);
                }
                if w > i as int {
                    assert(o[i as int] != c);
                }
            }
            return (i + 1) as u32;
        }
        i = i + 1;
    }
    0
}


/// A block of an ordinance in structured plain text: a line, or a table of rows of cells.
#[derive(Debug, Clone, PartialEq, Eq)]
pub enum Block {
    Paragraph(String),
    Table(Vec<Vec<String>>),
}

/// An item line whose number fits in `u32` (or a line that is no item).
pub open spec fn item_fits(t: Seq<char>) -> bool {
    doc_item(t) matches Some((n, _)) ==> n <= u32::MAX
}

/// What one line of provisions does to the builder: a caption waits for what follows; an
/// article, item, paragraph or sub-item opens its element; the first line of supplementary
/// provisions without number is their first paragraph; any other line is text.
pub open spec fn spec_builder_line(b: BuilderModel, t: Seq<char>, first_in_suppl: bool) -> BuilderModel {
    if doc_caption(t) {
        BuilderModel { caption: Some(t), ..b_close_to(b, 0) }
    } else if doc_article(t) is Some {
        let (d, br, body) = doc_article(t).unwrap();
        let p = number_fields(split_on(d + br, 'の'));
        b_article(b, joined_decimals(p), statute_title(p), body)
    } else if doc_item(t) is Some {
        let (n, body) = doc_item(t).unwrap();
        b_item(b, n as u32, body)
    } else if doc_para(t) is Some {
        let (lab, body) = doc_para(t).unwrap();
        b_paragraph(b, lab, body)
    } else if doc_sub2(t) is Some {
        let (x, body) = doc_sub2(t).unwrap();
        b_subitem(b, 2, katakana_place(x) as u32, seq!['（', x, '）'], body)
    } else if doc_sub1(t) is Some {
        let (x, body) = doc_sub1(t).unwrap();
        b_subitem(b, 1, katakana_place(x) as u32, seq![x], body)
    } else if first_in_suppl {
        b_paragraph(b, Seq::empty(), t)
    } else {
        b_text(b, t)
    }
}

/// Each line adds at most one paragraph (an article starts the count again).
pub proof fn lemma_builder_line_para_num(b: BuilderModel, t: Seq<char>, first: bool)
    ensures
        spec_builder_line(b, t, first).para_num <= b.para_num + 1,
{
    reveal(b_article);
    reveal(b_paragraph);
    reveal(b_ensure_paragraph);
    reveal(b_item);
    reveal(b_text);
    reveal(b_subitem);
}

/// What a table does to the builder.
pub proof fn lemma_table_para_num(b: BuilderModel, rows: Seq<Seq<Seq<char>>>)
    ensures
        b_table(b, rows).para_num <= b.para_num + 1,
{
    reveal(b_table);
    reveal(b_ensure_paragraph);
    reveal(b_paragraph);
}

pub(crate) fn builder_line(b: &mut Builder, t: &Vec<char>, first_in_suppl: bool)
    requires
        old(b)@.para_num < u32::MAX,
        item_fits(t@),
    ensures
        final(b)@ == spec_builder_line(old(b)@, t@, first_in_suppl),
{
    let ts = string_of(t.as_slice());
    if is_doc_caption(t) {
        b.close_to(0);
        b.set_caption(ts);
        return;
    }
    match match_article(t) {
        Some((d, br, body)) => {
            let mut nums = string_of(d.as_slice());
            let brs = string_of(br.as_slice());
            push_string(&mut nums, &brs);
            let (num, title) = article_num(nums.as_str());
            let bs = string_of(body.as_slice());
            b.article(num.as_str(), title.as_str(), bs.as_str());
            return;
        },
        None => {},
    }
    match match_item(t) {
        Some((n, body)) => {
            let bs = string_of(body.as_slice());
            b.item(n, bs.as_str());
            return;
        },
        None => {},
    }
    match match_para(t) {
        Some((lab, body)) => {
            let ls = string_of(lab.as_slice());
            let bs = string_of(body.as_slice());
            b.paragraph(Some(ls.as_str()), bs.as_str());
            return;
        },
        None => {},
    }
    if t.len() >= 4 && t[0] == '（' && t[1] >= 'ア' && t[1] <= 'ン' && t[2] == '）' && t[3] == '\u{3000}' && no_break_from(t, 4) {
        let n = katakana_place_of(t[1]);
        let title = string_of(crate::text::slice_to(t.as_slice(), 3).as_slice());
        assert(title@ =~= seq!['（', t@[1], '）']);
        let bs = string_of(crate::text::slice_from(t.as_slice(), 4).as_slice());
        b.subitem(2, n, title.as_str(), bs.as_str());
        return;
    }
    if t.len() >= 2 && t[0] >= 'ア' && t[0] <= 'ン' && t[1] == '\u{3000}' && no_break_from(t, 2) {
        let n = katakana_place_of(t[0]);
        let title = string_of(crate::text::slice_to(t.as_slice(), 1).as_slice());
        assert(title@ =~= seq![t@[0]]);
        let bs = string_of(crate::text::slice_from(t.as_slice(), 2).as_slice());
        b.subitem(1, n, title.as_str(), bs.as_str());
        return;
    }
    if first_in_suppl {
        b.paragraph(None, ts.as_str());
    } else {
        b.text(ts.as_str());
    }
}

pub(crate) fn is_doc_caption(t: &Vec<char>) -> (r: bool)
    ensures
        r == doc_caption(t@),
{
    if !(t.len() >= 3 && t.len() <= 62 && t[0] == '（' && t[t.len() - 1] == '）') {
        return false;
    }
    let mut i: usize = 1;
    while i < t.len() - 1
        invariant
            1 <= i <= t.len() - 1,
            t.len() >= 3,
            forall|j: int| 1 <= j < i ==> t@[j] != '（' && t@[j] != '）',
        decreases t.len() - i,
    {
        if t[i] == '（' || t[i] == '）' {
            return false;
        }
        i = i + 1;
    }
    true
}

pub(crate) fn match_article(t: &Vec<char>) -> (r: Option<(Vec<char>, Vec<char>, Vec<char>)>)
    ensures
        match r {
            Some((d, br, body)) => doc_article(t@) == Some((d@, br@, body@)),
            None => doc_article(t@) is None,
        },
{
    if t.len() == 0 || t[0] != '第' {
        return None;
    }
    let e = wide_run(t, 1);
    if !(e > 1 && e < t.len() && t[e] == '条') {
        return None;
    }
    let b = wide_branches(t, e + 1);
    let d = crate::text::slice_range(t.as_slice(), 1, e);
    let br = crate::text::slice_range(t.as_slice(), e + 1, b);
    if b == t.len() {
        return Some((d, br, Vec::new()));
    }
    if t[b] == '\u{3000}' && no_break_from(t, b + 1) {
        return Some((d, br, crate::text::slice_from(t.as_slice(), b + 1)));
    }
    None
}

fn match_item(t: &Vec<char>) -> (r: Option<(u32, Vec<char>)>)
    requires
        item_fits(t@),
    ensures
        match r {
            Some((n, body)) => doc_item(t@) matches Some((m, b)) && m == n as int && b == body@,
            None => doc_item(t@) is None,
        },
{
    if t.len() > 0 && t[0] == '（' {
        let e = wide_run(t, 1);
        if e > 1 && e < t.len() && t.len() - e > 1 && t[e] == '）' && t[e + 1] == '\u{3000}' && no_break_from(t, e + 2) {
            let ds = string_of(crate::text::slice_range(t.as_slice(), 1, e).as_slice());
            let n = match digits(ds.as_str()) {
                Some(n) => n,
                None => 0,
            };
            return Some((n, crate::text::slice_from(t.as_slice(), e + 2)));
        }
        return None;
    }
    proof {
        lemma_kanji_run_end(t@, 0);
    }
    let mut k: usize = 0;
    while k < t.len() && (t[k] == '一' || t[k] == '二' || t[k] == '三' || t[k] == '四' || t[k] == '五' || t[k] == '六'
        || t[k] == '七' || t[k] == '八' || t[k] == '九' || t[k] == '十')
        invariant
            k <= t.len(),
            kanji_run_end(t@, k as int) == kanji_run_end(t@, 0),
        decreases t.len() - k,
    {
        k = k + 1;
    }
    if k > 0 && k < t.len() && t[k] == '\u{3000}' && no_break_from(t, k + 1) {
        let ks = string_of(crate::text::slice_to(t.as_slice(), k).as_slice());
        let n = from_kanji(ks.as_str());
        return Some((n, crate::text::slice_from(t.as_slice(), k + 1)));
    }
    None
}

fn match_para(t: &Vec<char>) -> (r: Option<(Vec<char>, Vec<char>)>)
    ensures
        match r {
            Some((lab, body)) => doc_para(t@) == Some((lab@, body@)),
            None => doc_para(t@) is None,
        },
{
    let e = wide_run(t, 0);
    if e > 0 && e < t.len() && t[e] == '\u{3000}' && no_break_from(t, e + 1) {
        return Some((crate::text::slice_to(t.as_slice(), e), crate::text::slice_from(t.as_slice(), e + 1)));
    }
    None
}

} // verus!
