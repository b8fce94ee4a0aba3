use lawean_amend::lines::{bare_article_instruction, looks_like_instruction, normalize_source_text, starts_like_content};

#[test]
fn instructions_start_at_a_place_and_end_with_their_verb() {
    assert!(looks_like_instruction("第十条第一項中「A」を「B」に改める。"));
    assert!(looks_like_instruction("別表第一中「A」を「B」に改める。"));
    assert!(looks_like_instruction("手数料表中「A」を削る。"));
    assert!(looks_like_instruction("第三条中「甲は、乙」を「丙」に改める。"));
    assert!(looks_like_instruction("同条第二項中「A」を「B」に改め、同項を同条第三項とする。"));
}

#[test]
fn provisions_are_not_instructions() {
    assert!(!looks_like_instruction("第十条の二　市長は、許可する。"));
    assert!(!looks_like_instruction("市長は、これを改める。"));
    assert!(!looks_like_instruction("第三条の規定は、適用しないものとする。"));
    assert!(!looks_like_instruction("第十条第一項中「A」を「B」に改める"));
}

#[test]
fn added_provisions_start_with_their_number() {
    assert!(starts_like_content("第五十六条　本文"));
    assert!(starts_like_content("第十条ノ三（見出し）　本文"));
    assert!(starts_like_content("２　前項"));
    assert!(starts_like_content("一　災害"));
    assert!(starts_like_content("備考　注"));
    assert!(starts_like_content("（３）その他"));
    assert!(starts_like_content("(1)その他"));
    assert!(!starts_like_content("市長は"));
    assert!(!starts_like_content("第五条中「A」を削る。"));
}

#[test]
fn bare_article_lines_stand_for_a_replacement() {
    assert_eq!(bare_article_instruction("第六条　削除").as_deref(), Some("第六条を次のように改める。"));
    assert_eq!(
        bare_article_instruction("第七十三条乃至第七十六条　削除").as_deref(),
        Some("第七十三条から第七十六条までを次のように改める。")
    );
    assert_eq!(
        bare_article_instruction("第十条ノ三及第十条ノ四　削除").as_deref(),
        Some("第十条の三及び第十条の四を次のように改める。")
    );
    assert_eq!(bare_article_instruction("第五条（見出し）　削除").as_deref(), Some("第五条を次のように改める。"));
    assert_eq!(
        bare_article_instruction("第一条から第三条まで　削除").as_deref(),
        Some("第一条から第三条までを次のように改める。")
    );
    assert_eq!(bare_article_instruction("第五条中「A」を「B」に改める。"), None);
    assert_eq!(bare_article_instruction("附則"), None);
}

#[test]
fn enacted_text_loses_its_rubies() {
    assert_eq!(normalize_source_text("瑕(か)疵(し)"), "瑕疵");
    assert_eq!(normalize_source_text("剥奪｡"), "剝奪。");
    assert_eq!(normalize_source_text("(A)"), "(A)");
    assert_eq!(normalize_source_text("｢甲｣､乙"), "「甲」、乙");
    assert_eq!(normalize_source_text("()"), "()");
}
