use lawean_amend::content_lines::{split_item_title, split_leading_number, split_paren_number};

#[test]
fn item_heads_are_split_from_their_text() {
    let letters = "一二三四五六七八九十の";
    assert_eq!(split_item_title("九の二\u{3000}本文", letters), Some(("九の二".to_string(), "本文".to_string())));
    assert_eq!(split_item_title("イ\u{3000}本文", "イロハ"), Some(("イ".to_string(), "本文".to_string())));
    assert_eq!(split_item_title("第一条\u{3000}本文", letters), None);
    assert_eq!(split_item_title("\u{3000}本文", letters), None);
    assert_eq!(split_item_title("一本文", letters), None);
}

#[test]
fn bracketed_numbers_are_split_from_their_text() {
    assert_eq!(split_paren_number("(1)\u{3000}本文"), Some(("(1)".to_string(), "本文".to_string())));
    assert_eq!(split_paren_number("（１２）\u{3000}本文"), Some(("（１２）".to_string(), "本文".to_string())));
    assert_eq!(split_paren_number("(a)\u{3000}本文"), None);
    assert_eq!(split_paren_number("()\u{3000}本文"), None);
    assert_eq!(split_paren_number("(1)本文"), None);
}

#[test]
fn a_paragraph_number_leads_its_line() {
    assert_eq!(split_leading_number("２\u{3000}本文"), (Some(2), "本文".to_string()));
    assert_eq!(split_leading_number("12 \u{3000}本文"), (Some(12), "本文".to_string()));
    assert_eq!(split_leading_number("本文"), (None, "本文".to_string()));
}
