use lawean_amend::normalize::normalize_instruction;

fn norm(s: &str) -> String {
    normalize_instruction(s)
}

#[test]
fn old_branch_and_proviso_forms() {
    assert_eq!(norm("第二十七条ノ二中「A」を「B」に改める。"), "第二十七条の二中「A」を「B」に改める。");
    assert_eq!(norm("第五条但書中「甲」を「乙」に改める。"), "第五条ただし書中「甲」を「乙」に改める。");
    assert_eq!(norm("第三条に左の一項を加える。"), "第三条に次の一項を加える。");
}

#[test]
fn quoted_phrases_stay_as_they_are() {
    assert_eq!(norm("第一条中「但書」を「左の」に改める。"), "第一条中「但書」を「左の」に改める。");
    assert_eq!(norm("第一条中「第二項乃至第四項」を「甲」に改める。"), "第一条中「第二項乃至第四項」を「甲」に改める。");
}

#[test]
fn ranges_and_lists_of_the_old_style() {
    assert_eq!(norm("第二項乃至第四項を削る。"), "第二項から第四項までを削る。");
    assert_eq!(norm("第九十四条及九十五条を削る。"), "第九十四条及九十五条を削る。");
    assert_eq!(norm("第九十四条及第九十五条を削る。"), "第九十四条及び第九十五条を削る。");
    assert_eq!(norm("第九十四条及び九十五条を削る。"), "第九十四条及び第九十五条を削る。");
}

#[test]
fn half_width_punctuation_becomes_full_width() {
    assert_eq!(norm("第一条中｢甲｣を｢乙｣に改める｡"), "第一条中「甲」を「乙」に改める。");
}

#[test]
fn the_head_of_an_instruction() {
    assert_eq!(norm("十二条の二中「A」を「B」に改める。"), "第十二条の二中「A」を「B」に改める。");
    assert_eq!(norm("目録中「A」を「B」に改める。"), "目次中「A」を「B」に改める。");
    assert_eq!(norm("目次中第二章中「A」を「B」に改める。"), "目次中「A」を「B」に改める。");
    assert_eq!(norm("目次第二章第一節第三款中「A」を「B」に改める。"), "目次中「A」を「B」に改める。");
    assert_eq!(norm("この法律中「A」を「B」に改める。"), "本則中「A」を「B」に改める。");
    assert_eq!(
        norm("この法律中別に定める場合を除き、「A」を「B」に改める。"),
        "本則中「A」を「B」に改める。"
    );
}

#[test]
fn renumbering_written_as_a_change() {
    assert_eq!(norm("同条第三項を第二項に改める。"), "同条第三項を第二項とする。");
    assert_eq!(norm("第三項を同条第二項に改め、"), "第三項を同条第二項とし、");
}

#[test]
fn missing_dai_and_naka() {
    assert_eq!(norm("第三十八条の三第一項「A」を「B」に改める。"), "第三十八条の三第一項中「A」を「B」に改める。");
    assert_eq!(norm("同条十二号を削る。"), "同条第十二号を削る。");
    assert_eq!(norm("第二章を三章とする。"), "第二章を第三章とする。");
    assert_eq!(norm("第二十八ノ二を削る。"), "第二十八条の二を削る。");
    assert_eq!(norm("第四条第二頂中「A」を「B」に改める。"), "第四条第二項中「A」を「B」に改める。");
}

#[test]
fn items_and_sub_items_of_the_old_style() {
    assert_eq!(norm("第六ノ六ノ二号を削る。"), "第六号の六の二を削る。");
    assert_eq!(norm("第二条第一項第一号（イ）中「A」を「B」に改める。"), "第二条第一項第一号イ中「A」を「B」に改める。");
    assert_eq!(norm("同号へを削る。"), "同号ヘを削る。");
}

#[test]
fn old_verbs_and_commas_around_quotes() {
    assert_eq!(norm("第五条中「A」を「B」に改む"), "第五条中「A」を「B」に改める");
    assert_eq!(norm("第一条中「A」を、「B」に改める。"), "第一条中「A」を「B」に改める。");
    assert_eq!(norm("第一条中「A」の下に、「B」を加える。"), "第一条中「A」の下に「B」を加える。");
    assert_eq!(norm("第一条中「A」を「B」改める。"), "第一条中「A」を「B」に改める。");
}

#[test]
fn spaces_outside_quotes_are_dropped() {
    assert_eq!(norm("第一条中　「A　B」を「C」に改める。"), "第一条中「A　B」を「C」に改める。");
    assert_eq!(norm("第十条を削除する。"), "第十条を削る。");
}

#[test]
fn only_the_text_outside_the_quotes_changes() {
    assert_eq!(norm("第三条ノ二中「第五条ノ二」を「但書」に改む"), "第三条の二中「第五条ノ二」を「但書」に改める");
    assert_eq!(norm("第二項乃至第四項中「乃至」を「から」に改める。"), "第二項から第四項まで中「乃至」を「から」に改める。");
}
