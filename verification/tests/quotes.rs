use lawean_amend::quotes::mask_inner_quotes;

#[test]
fn a_plain_instruction_has_one_reading() {
    let r = mask_inner_quotes("第一条中「甲」を「乙」に改める。", 64);
    assert_eq!(r, vec!["第一条中「甲」を「乙」に改める。".to_string()]);
}

#[test]
fn quotes_inside_a_phrase_are_masked() {
    let r = mask_inner_quotes("第一条中「「附則第五条第二項」と」を「「附則第六条」と」に改める。", 64);
    assert_eq!(
        r,
        vec!["第一条中「\u{E030}附則第五条第二項\u{E031}と」を「\u{E030}附則第六条\u{E031}と」に改める。".to_string()]
    );
}

#[test]
fn readings_come_earlier_closing_first_and_stop_at_the_limit() {
    let line = "第一条中「A」を「B」に改め」を「C」に改める。";
    let first = "第一条中「A」を「B\u{E031}に改め\u{E031}を\u{E030}C」に改める。".to_string();
    let second = "第一条中「A\u{E031}を\u{E030}B\u{E031}に改め」を「C」に改める。".to_string();
    assert_eq!(mask_inner_quotes(line, 64), vec![first.clone(), second]);
    assert_eq!(mask_inner_quotes(line, 1), vec![first]);
    assert_eq!(mask_inner_quotes(line, 0), Vec::<String>::new());
}

#[test]
fn a_closing_quote_outside_any_phrase_leaves_no_reading() {
    assert_eq!(mask_inner_quotes("第一条」中「A」を「B」に改める。", 64), Vec::<String>::new());
}

#[test]
fn a_phrase_that_closes_nowhere_keeps_its_quote_as_a_character() {
    assert_eq!(mask_inner_quotes("第一条中「A", 64), vec!["第一条中「A".to_string()]);
}

#[test]
fn unmasking_any_reading_gives_the_line_back() {
    let line = "第一条中「A」を「B」に改め」を「C」に改める。";
    for r in mask_inner_quotes(line, 64) {
        assert_eq!(lawean_amend::parse::unmask(&r), line);
    }
    let nested = "第一条中「「附則第五条第二項」と」を「「附則第六条」と」に改める。";
    for r in mask_inner_quotes(nested, 64) {
        assert_eq!(lawean_amend::parse::unmask(&r), nested);
    }
}
