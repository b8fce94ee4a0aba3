use lawean_amend::parse::{full_sub, kana_index, kana_of, take_quoted, unmask, ParseError};

#[test]
fn kana_follow_the_iroha_order() {
    assert_eq!(kana_index("イ"), 1);
    assert_eq!(kana_index("ロ"), 2);
    assert_eq!(kana_index("ロ(1)"), 2);
    assert_eq!(kana_index("ス"), 47);
    assert_eq!(kana_index("ア"), 36);
    assert_eq!(kana_index("x"), 0);
    assert_eq!(kana_index(""), 0);
    assert_eq!(kana_of(2), "ロ");
    assert_eq!(kana_of(0), "イ");
    assert_eq!(kana_of(48), "");
    for n in 1..=47 {
        assert_eq!(kana_index(&kana_of(n)), n);
    }
}

#[test]
fn quoted_phrases_count_nested_brackets() {
    assert_eq!(take_quoted("「甲」を「乙」に"), Some(("甲".to_string(), "を「乙」に")));
    assert_eq!(take_quoted("「「A」とする」を"), Some(("「A」とする".to_string(), "を")));
    assert_eq!(take_quoted("「の売買の相手方」」を"), Some(("の売買の相手方」".to_string(), "を")));
    assert_eq!(take_quoted("甲"), None);
    assert_eq!(take_quoted("「甲"), None);
}

#[test]
fn masked_brackets_are_restored() {
    assert_eq!(unmask("\u{E030}A\u{E031}とする"), "「A」とする");
    assert_eq!(unmask("plain"), "plain");
}

#[test]
fn sub_items_are_completed_from_the_one_before() {
    assert_eq!(full_sub("(3)", Some("ロ(2)")), "ロ(3)");
    assert_eq!(full_sub("（3）", Some("ロ(2)")), "ロ（3）");
    assert_eq!(full_sub("(i)", Some("ロ(2)")), "ロ(2)(i)");
    assert_eq!(full_sub("(ii)", Some("ロ(2)(i)")), "ロ(2)(ii)");
    assert_eq!(full_sub("ハ", Some("ロ(2)")), "ハ");
    assert_eq!(full_sub("(3)", None), "(3)");
}

#[test]
fn errors_unwrap_to_their_cause() {
    let e = ParseError::Unrecognized("x".into()).in_sentence("文");
    assert_eq!(
        e,
        ParseError::InSentence { line: "文".into(), err: Box::new(ParseError::Unrecognized("x".into())) }
    );
    assert_eq!(e.cause(), &ParseError::Unrecognized("x".into()));
    // an error already in a sentence keeps its sentence
    let again = ParseError::Unrecognized("x".into()).in_sentence("文").in_sentence("別");
    assert_eq!(again, e);
    assert_eq!(ParseError::NoHeader.cause(), &ParseError::NoHeader);
}

#[test]
fn messages_read_as_displayed() {
    assert_eq!(ParseError::Unrecognized("x".into()).message(), "unrecognized instruction segment: x");
    assert_eq!(ParseError::NoAntecedent("同条".into()).message(), "「同条」「同項」の先行詞が無い: 同条");
    assert_eq!(
        ParseError::NoHeader.in_sentence("L").message(),
        "no header line (第N条　X法…の一部を次のように改正する。)（L）"
    );
}
