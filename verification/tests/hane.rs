use lawean_amend::body::RefForm;
use lawean_amend::hane::{fixes_to, render_fix};

#[test]
fn relative_references_keep_or_change_their_form() {
    // the distance grew from 1 to 2: the absolute form
    assert_eq!(render_fix("前項の規定", &RefForm::Prev(1), 2, 3, Some(5)), "第三項の規定");
    // the distance is the same: unchanged
    assert_eq!(render_fix("前二項", &RefForm::Prev(2), 1, 2, Some(4)), "前二項");
    // the distance became 1
    assert_eq!(render_fix("前二項", &RefForm::Prev(2), 1, 3, Some(4)), "前項");
    // in another article: the absolute form
    assert_eq!(render_fix("前項", &RefForm::Prev(1), 2, 3, None), "第三項");
    assert_eq!(render_fix("次項", &RefForm::Next, 3, 4, Some(3)), "次項");
    assert_eq!(render_fix("次項", &RefForm::Next, 3, 5, Some(3)), "第五項");
}

#[test]
fn absolute_references_get_the_new_number() {
    assert_eq!(render_fix("第三十八条第二項", &RefForm::AbsoluteArt, 2, 3, None), "第三十八条第三項");
    assert_eq!(render_fix("第二項及び第二項", &RefForm::Absolute, 2, 4, None), "第四項及び第二項");
    assert_eq!(render_fix("同項", &RefForm::Absolute, 2, 4, None), "同項");
}

#[test]
fn replacements_are_checked_against_the_new_target() {
    assert!(fixes_to("第三項", Some(3), Some(5)));
    assert!(fixes_to("前二項", Some(3), Some(5)));
    assert!(fixes_to("同条前二項", Some(3), Some(5)));
    assert!(!fixes_to("前項", Some(3), Some(5)));
    assert!(fixes_to("何でも", None, Some(5)));
    assert!(fixes_to("次項", Some(4), Some(3)));
    assert!(!fixes_to("次項", Some(5), Some(3)));
    assert!(!fixes_to("第二項", Some(3), None));
}
