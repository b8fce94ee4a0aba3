use lawean_amend::list_forms::{is_container_list, item_list_tail, without_caption_mention};

#[test]
fn lists_ending_in_items() {
    assert!(item_list_tail("第三号及び第四号"));
    assert!(item_list_tail("第一号及び第一号の二"));
    assert!(item_list_tail("第六号から第八号まで"));
    assert!(!item_list_tail("第三条"));
    assert!(!item_list_tail("第三号の"));
    assert!(!item_list_tail("号"));
}

#[test]
fn lists_of_divisions() {
    assert!(is_container_list("第四章及び第五章"));
    assert!(is_container_list("第二章の二"));
    assert!(is_container_list("第三章第二節から第四節まで"));
    assert!(is_container_list("第三章中第二節"));
    assert!(is_container_list("第一章、第二章"));
    assert!(!is_container_list("第四章及び"));
    assert!(!is_container_list("第四条"));
}

#[test]
fn places_named_with_their_captions() {
    assert_eq!(without_caption_mention("第百三十二条の前の見出し及び同条"), "第百三十二条");
    assert_eq!(without_caption_mention("第六条及び同条の前の見出し"), "第六条");
    assert_eq!(without_caption_mention("附則第四項の前の見出し及び同項から附則第九項まで"), "附則第四項から附則第九項まで");
    assert_eq!(without_caption_mention("第十一条（見出しを含む。）"), "第十一条");
    assert_eq!(without_caption_mention("第十一条"), "第十一条");
}
