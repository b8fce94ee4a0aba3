use lawean_amend::compare::compare_snapshots;
use lawean_amend::reiki::CheckFailure;

fn snap(entries: &[(&str, &[(u32, &str)])]) -> Vec<(String, Vec<(u32, String)>)> {
    entries
        .iter()
        .map(|(k, ps)| (k.to_string(), ps.iter().map(|(n, t)| (*n, t.to_string())).collect()))
        .collect()
}

#[test]
fn the_same_snapshots_agree() {
    let a = snap(&[("第一条", &[(1, "甲は乙")]), ("第二条", &[(1, "丙"), (2, "丁")])]);
    assert_eq!(compare_snapshots(&a, &a.clone()), Ok(()));
}

#[test]
fn the_first_differing_key_is_reported_around_the_difference() {
    let got = snap(&[("第一条", &[(1, "甲は乙")])]);
    let want = snap(&[("第一条", &[(1, "甲は丙")])]);
    assert_eq!(
        compare_snapshots(&got, &want),
        Err(CheckFailure::Mismatch("第一条: [1]甲は乙 ≠ [1]甲は丙".to_string()))
    );
}

#[test]
fn a_key_missing_from_the_result_is_reported() {
    let got = snap(&[]);
    let want = snap(&[("第二条", &[(1, "A")])]);
    assert_eq!(compare_snapshots(&got, &want), Err(CheckFailure::Mismatch("第二条:  ≠ [1]A".to_string())));
}

#[test]
fn only_the_text_near_the_difference_is_shown() {
    let long_a = format!("{}X{}", "あ".repeat(30), "い".repeat(40));
    let long_b = format!("{}Y{}", "あ".repeat(30), "い".repeat(40));
    let got = snap(&[("第三条", &[(1, long_a.as_str())])]);
    let want = snap(&[("第三条", &[(1, long_b.as_str())])]);
    let shown_a: String = format!("[1]{}", long_a).chars().skip(33 - 12).take(36).collect();
    let shown_b: String = format!("[1]{}", long_b).chars().skip(33 - 12).take(36).collect();
    assert_eq!(
        compare_snapshots(&got, &want),
        Err(CheckFailure::Mismatch(format!("第三条: {} ≠ {}", shown_a, shown_b)))
    );
}
