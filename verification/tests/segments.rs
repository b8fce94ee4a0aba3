use lawean_amend::segments::{split_segments, split_segments_with};

#[test]
fn commas_in_phrases_do_not_split() {
    assert_eq!(split_segments("第一条中「甲、乙」を「丙」に改める。"), vec!["第一条中「甲、乙」を「丙」に改める"]);
}

#[test]
fn instructions_split_at_commas_outside_brackets() {
    assert_eq!(
        split_segments("第四十三条第二項中「甲」を「乙」に改め、同条第四項及び第六項中「、丙」を削る。"),
        vec!["第四十三条第二項中「甲」を「乙」に改め", "同条第四項及び第六項中「、丙」を削る"]
    );
}

#[test]
fn listed_places_join_the_segment_after_them() {
    assert_eq!(
        split_segments("第五条第一項第五号、第十八条第一項第六号及び第五十二条第七号ロ中「A」を「B」に改める。"),
        vec!["第五条第一項第五号、第十八条第一項第六号及び第五十二条第七号ロ中「A」を「B」に改める"]
    );
}

#[test]
fn listed_pieces_to_add_stay_together() {
    assert_eq!(
        split_segments("同条の次に次の二条、一章、章名及び一条を加える。"),
        vec!["同条の次に次の二条、一章、章名及び一条を加える"]
    );
}

#[test]
fn descriptions_of_amending_provisions_are_not_split() {
    assert_eq!(
        split_segments("第百四十九条第四項にただし書を加え、同項を同条第六項とする改正規定中「A」を「B」に改める。"),
        vec!["第百四十九条第四項にただし書を加え、同項を同条第六項とする改正規定中「A」を「B」に改める"]
    );
}

#[test]
fn strict_splits_after_a_verb_inside_brackets() {
    let s = "第一条中「甲に改め、同条」を「乙」に改める。";
    assert_eq!(split_segments_with(s, false), vec!["第一条中「甲に改め、同条」を「乙」に改める"]);
    assert_eq!(split_segments_with(s, true), vec!["第一条中「甲に改め", "同条」を「乙」に改める"]);
}

#[test]
fn an_empty_instruction_has_no_segments() {
    assert!(split_segments("").is_empty());
    assert!(split_segments("。").is_empty());
}

#[test]
fn segments_join_back_to_the_instruction() {
    for line in [
        "第一条中「A」を「B」に改め、同条第二項中「C、D」を「E」に改める。",
        "第五条第一項第五号、第十八条第一項第六号及び第五十二条第七号ロ中「A」を「B」に改める。",
        "第百四十九条第四項にただし書を加え、同項を同条第六項とする改正規定中「A」を「B」に改める。",
    ] {
        for strict in [false, true] {
            let segs = lawean_amend::segments::split_segments_with(line, strict);
            assert_eq!(segs.join("、"), line.trim_end_matches('。'));
        }
    }
}
