use lawean_amend::numeral::{digits, from_kanji, kanji, to_kanji};

#[test]
fn kanji_numerals_of_four_positions() {
    assert_eq!(kanji(0), "〇");
    assert_eq!(kanji(1), "一");
    assert_eq!(kanji(10), "十");
    assert_eq!(kanji(11), "十一");
    assert_eq!(kanji(23), "二十三");
    assert_eq!(kanji(105), "百五");
    assert_eq!(kanji(2024), "二千二十四");
    assert_eq!(kanji(9999), "九千九百九十九");
}

#[test]
fn kanji_numerals_of_any_size() {
    assert_eq!(to_kanji(0), "〇");
    assert_eq!(to_kanji(153), "百五十三");
    assert_eq!(to_kanji(10001), "一万一");
    assert_eq!(to_kanji(12000), "一万二千");
    assert_eq!(to_kanji(100000000), "一億");
}

#[test]
fn small_kanji_numerals_read_back() {
    assert_eq!(from_kanji("二十三"), 23);
    assert_eq!(from_kanji("十"), 10);
    assert_eq!(from_kanji("十五"), 15);
    assert_eq!(from_kanji("九"), 9);
    assert_eq!(from_kanji(""), 0);
    for n in 1..100 {
        assert_eq!(from_kanji(&kanji(n)), n);
    }
}

#[test]
fn digits_of_either_width() {
    assert_eq!(digits("34"), Some(34));
    assert_eq!(digits("３４"), Some(34));
    assert_eq!(digits("+7"), Some(7));
    assert_eq!(digits(""), None);
    assert_eq!(digits("3a"), None);
    assert_eq!(digits("4294967295"), Some(u32::MAX));
    assert_eq!(digits("4294967296"), None);
}
