use lawean_amend::reiki::{article_num, canonical, esc, kanji_outside_quotes, sentence, split_sentences, table_xml, CheckFailure};
use lawean_amend::reiki_doc::{Block, Builder};
use lawean_amend::reiki_style::{content_line, is_instruction, to_law_style};
use lawean_amend::reiki_xml::document;

#[test]
fn positions_become_kanji_but_quoted_phrases_stay() {
    let s = to_law_style(&[
        "伊勢崎市市税条例（平成１７年伊勢崎市条例第７５号）の一部を次のように改正する。",
        "第34条の７第２項中「附則第５条の６第２項」を「附則第５条の６第３項」に改める。",
    ]);
    assert_eq!(
        s,
        "第一条　伊勢崎市市税条例（平成十七年伊勢崎市条例第七十五号）の一部を次のように改正する。\n\
         第三十四条の七第二項中「附則第５条の６第２項」を「附則第５条の６第３項」に改める。"
    );
}

#[test]
fn an_added_article_ending_like_an_instruction_is_content() {
    let s = to_law_style(&[
        "X条例（平成１７年X市条例第１号）の一部を次のように改正する。",
        "第２０条の３を次のように改める。",
        "第２０条の３　育児休業法第１９条第２項の条例で定める期間は、１年とする。",
    ]);
    assert_eq!(
        s.lines().nth(2),
        Some("第二十条の三　育児休業法第１９条第２項の条例で定める期間は、１年とする。")
    );
}

#[test]
fn added_provisions_keep_their_text_and_get_law_style_labels() {
    let s = to_law_style(&[
        "第２条　X条例（平成１７年X市条例第１号）の一部を次のように改正する。",
        "第５条の次に次の１条を加える。",
        "（特例）",
        "第５条の２　市長は、100分の３を減ずることができる。",
        "２　前項の規定は、次に掲げる場合に適用する。",
        "(1)　災害の場合",
        "⑵　その他市長が定める場合",
    ]);
    let lines: Vec<&str> = s.lines().collect();
    assert_eq!(lines[1], "第五条の次に次の一条を加える。");
    assert_eq!(lines[3], "第五条の二　市長は、100分の３を減ずることができる。");
    assert_eq!(lines[4], "２　前項の規定は、次に掲げる場合に適用する。");
    assert_eq!(lines[5], "一　災害の場合");
    assert_eq!(lines[6], "二　その他市長が定める場合");
}

#[test]
fn a_supplementary_heading_is_written_as_in_statutes() {
    let s = to_law_style(&["X条例の一部を次のように改正する。", "付則第２項中「A」を「B」に改める。"]);
    assert_eq!(s, "第一条　X条例の一部を次のように改正する。\n附則第二項中「A」を「B」に改める。");
}

#[test]
fn canonical_widens_digits_brackets_and_separators() {
    assert_eq!(canonical("第34条(1),2.5"), "第３４条（１），２．５");
    assert_eq!(canonical("第３４条"), "第３４条");
}

#[test]
fn esc_writes_entities() {
    assert_eq!(esc("a<b&c>d"), "a&lt;b&amp;c&gt;d");
}

#[test]
fn kanji_outside_quotes_keeps_phrases_and_row_numbers() {
    assert_eq!(kanji_outside_quotes("第34条中「第５条」"), "第三十四条中「第５条」");
    assert_eq!(kanji_outside_quotes("別表３７の項中"), "別表３７の項中");
    assert_eq!(kanji_outside_quotes("第12345条"), "第12345条");
}

#[test]
fn sentences_split_at_full_stops_outside_brackets() {
    assert_eq!(split_sentences("甲とする。乙（丙。）とする。丁"), vec!["甲とする。", "乙（丙。）とする。", "丁"]);
    assert!(split_sentences("").is_empty());
}

#[test]
fn a_proviso_is_marked() {
    assert_eq!(
        sentence("ParagraphSentence", "許可する。ただし、この限りでない。"),
        "<ParagraphSentence><Sentence Num=\"1\" Function=\"main\">許可する。</Sentence>\
         <Sentence Num=\"2\" Function=\"proviso\">ただし、この限りでない。</Sentence></ParagraphSentence>"
    );
    assert_eq!(
        sentence("ItemSentence", "前段。後段。"),
        "<ItemSentence><Sentence Num=\"1\">前段。</Sentence><Sentence Num=\"2\">後段。</Sentence></ItemSentence>"
    );
    assert_eq!(sentence("ItemSentence", ""), "<ItemSentence><Sentence></Sentence></ItemSentence>");
}

#[test]
fn tables_are_rows_of_columns() {
    let rows = vec![vec!["区分".to_string(), "a<b".to_string()]];
    assert_eq!(
        table_xml(&rows),
        "<TableStruct><Table><TableRow><TableColumn><Sentence>区分</Sentence></TableColumn>\
         <TableColumn><Sentence>a&lt;b</Sentence></TableColumn></TableRow></Table></TableStruct>"
    );
}

#[test]
fn article_numbers_get_both_forms() {
    assert_eq!(article_num("５の２"), ("5_2".to_string(), "第五条の二".to_string()));
    assert_eq!(article_num("12"), ("12".to_string(), "第十二条".to_string()));
}

#[test]
fn check_failures_name_their_kind() {
    let d = CheckFailure::Document("x".into());
    assert_eq!((d.kind(), d.detail()), ("doc_error", "x"));
    assert_eq!(CheckFailure::Parse("p".into()).kind(), "parse_error");
    let u = CheckFailure::Apply { unsupported: true, detail: "u".into() };
    assert_eq!((u.kind(), u.detail()), ("unsupported", "u"));
    assert_eq!(CheckFailure::Apply { unsupported: false, detail: "a".into() }.kind(), "apply_error");
    assert_eq!(CheckFailure::Mismatch("m".into()).kind(), "mismatch");
}

fn lines(ls: &[&str]) -> Vec<Block> {
    ls.iter().map(|l| Block::Paragraph(l.to_string())).collect()
}

const HEAD: &str = "<Law Era=\"Reiwa\" Year=\"1\" Num=\"1\" LawType=\"Ordinance\" Lang=\"ja\"><LawNum></LawNum><LawBody>";

#[test]
fn an_ordinance_with_supplementary_provisions() {
    let x = document(&lines(&[
        "X条例",
        "第1条　この条例は、Xについて定める。",
        "附　則",
        "この条例は、平成17年1月1日から施行する。",
    ]))
    .unwrap();
    let want = format!(
        "{HEAD}<LawTitle>X条例</LawTitle><MainProvision><Article Num=\"1\"><ArticleTitle>第一条</ArticleTitle>\
         <Paragraph Num=\"1\"><ParagraphNum></ParagraphNum><ParagraphSentence><Sentence Num=\"1\">この条例は、Xについて定める。</Sentence>\
         </ParagraphSentence></Paragraph></Article></MainProvision><SupplProvision><SupplProvisionLabel>附　則</SupplProvisionLabel>\
         <Paragraph Num=\"1\"><ParagraphNum></ParagraphNum><ParagraphSentence><Sentence Num=\"1\">この条例は、平成１７年１月１日から施行する。\
         </Sentence></ParagraphSentence></Paragraph></SupplProvision></LawBody></Law>"
    );
    assert_eq!(x, want);
}

#[test]
fn paragraphs_and_items_nest() {
    let x = document(&lines(&[
        "X条例",
        "第１条　本文。",
        "２　前項の規定は、次に掲げる場合に適用する。",
        "(1)　災害の場合",
        "二　その他",
    ]))
    .unwrap();
    let want = format!(
        "{HEAD}<LawTitle>X条例</LawTitle><MainProvision><Article Num=\"1\"><ArticleTitle>第一条</ArticleTitle>\
         <Paragraph Num=\"1\"><ParagraphNum></ParagraphNum><ParagraphSentence><Sentence Num=\"1\">本文。</Sentence></ParagraphSentence></Paragraph>\
         <Paragraph Num=\"2\"><ParagraphNum>２</ParagraphNum><ParagraphSentence><Sentence Num=\"1\">前項の規定は、次に掲げる場合に適用する。</Sentence></ParagraphSentence>\
         <Item Num=\"1\"><ItemTitle>一</ItemTitle><ItemSentence><Sentence Num=\"1\">災害の場合</Sentence></ItemSentence></Item>\
         <Item Num=\"2\"><ItemTitle>二</ItemTitle><ItemSentence><Sentence Num=\"1\">その他</Sentence></ItemSentence></Item>\
         </Paragraph></Article></MainProvision></LawBody></Law>"
    );
    assert_eq!(x, want);
}

#[test]
fn the_table_of_contents_runs_to_the_first_caption() {
    let x = document(&lines(&["X条例", "目次", "第１章　総則", "（目的）", "第１条　目的を定める。"])).unwrap();
    let want = format!(
        "{HEAD}<LawTitle>X条例</LawTitle><TOC><TOCLabel>目次</TOCLabel><TOCChapter><ChapterTitle>第１章　総則</ChapterTitle></TOCChapter></TOC>\
         <MainProvision><Article Num=\"1\"><ArticleCaption>（目的）</ArticleCaption><ArticleTitle>第一条</ArticleTitle>\
         <Paragraph Num=\"1\"><ParagraphNum></ParagraphNum><ParagraphSentence><Sentence Num=\"1\">目的を定める。</Sentence></ParagraphSentence>\
         </Paragraph></Article></MainProvision></LawBody></Law>"
    );
    assert_eq!(x, want);
}

#[test]
fn appended_tables_get_law_style_numbers() {
    let mut blocks = lines(&["X条例", "第１条　手数料は、別表第１のとおりとする。", "別表第１（第１条関係）"]);
    blocks.push(Block::Table(vec![vec!["一般".to_string(), "300円".to_string()]]));
    blocks.push(Block::Paragraph("備考　消費税を含む。".to_string()));
    let x = document(&blocks).unwrap();
    assert!(x.contains(
        "<AppdxTable><AppdxTableTitle>別表第一（第１条関係）</AppdxTableTitle><TableStruct><Table><TableRow>\
         <TableColumn><Sentence>一般</Sentence></TableColumn><TableColumn><Sentence>３００円</Sentence></TableColumn>\
         </TableRow></Table></TableStruct><Remarks><Sentence>備考　消費税を含む。</Sentence></Remarks></AppdxTable></LawBody></Law>"
    ));
}

#[test]
fn a_document_needs_a_title() {
    assert_eq!(document(&[]), Err("no title".to_string()));
    assert_eq!(document(&[Block::Table(vec![])]), Err("no title".to_string()));
}

#[test]
fn content_lines_get_law_style_labels() {
    let c = |s: &str| content_line(&s.chars().collect());
    assert_eq!(c("⑶　その他"), "三　その他");
    assert_eq!(c("（３）　その他"), "三　その他");
    assert_eq!(c("第５条の２　本文"), "第五条の二　本文");
    assert_eq!(c("別表第２（第１３条関係）"), "別表第二（第１３条関係）");
    assert_eq!(c("２　前項"), "２　前項");
}

#[test]
fn instructions_start_at_a_place_and_end_with_a_verb() {
    let i = |s: &str| is_instruction(&s.chars().collect());
    assert!(i("第５条中「A」を「B」に改める。"));
    assert!(i("附則第２項を削る。"));
    assert!(!i("第５条の２　本文とする。"));
    assert!(!i("市長は、許可を改める。"));
}

#[test]
fn a_builder_nests_and_closes() {
    let mut b = Builder::new();
    b.article("1", "第一条", "本文。");
    b.item(1, "号。");
    b.close_to(0);
    assert_eq!(
        b.output(),
        "<Article Num=\"1\"><ArticleTitle>第一条</ArticleTitle><Paragraph Num=\"1\"><ParagraphNum></ParagraphNum>\
         <ParagraphSentence><Sentence Num=\"1\">本文。</Sentence></ParagraphSentence><Item Num=\"1\"><ItemTitle>一</ItemTitle>\
         <ItemSentence><Sentence Num=\"1\">号。</Sentence></ItemSentence></Item></Paragraph></Article>"
    );
}

#[test]
fn an_item_number_too_long_for_u32_reads_as_zero() {
    let x = document(&lines(&["X条例", "第1条　次に掲げる。", "（１２３４５６７８９０１）　本文"])).unwrap();
    assert!(x.contains("<Item Num=\"0\">"));
}
