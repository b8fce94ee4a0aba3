use lawean_amend::op::AmendUnit;
use lawean_amend::scenario::{application_orders, permutations, text_lt_exec, Enforcement, Stage};

fn stage(label: &str, e: Enforcement) -> Stage {
    Stage {
        label: label.to_string(),
        unit: AmendUnit { article_of_amending_law: String::new(), target_title: String::new(), instructions: vec![] },
        enforcement: e,
    }
}

fn fixed(d: &str) -> Enforcement {
    Enforcement::Fixed(d.to_string())
}

fn open() -> Enforcement {
    Enforcement::Undetermined { note: "政令で定める日".to_string() }
}

#[test]
fn permutations_come_in_order() {
    assert_eq!(
        permutations(&vec![1, 2, 3]),
        vec![vec![1, 2, 3], vec![1, 3, 2], vec![2, 1, 3], vec![2, 3, 1], vec![3, 1, 2], vec![3, 2, 1]]
    );
    assert_eq!(permutations(&vec![]), vec![Vec::<usize>::new()]);
}

#[test]
fn fixed_dates_give_one_order_by_date() {
    let stages = vec![stage("A", fixed("2024-04-01")), stage("B", fixed("2023-10-01"))];
    assert_eq!(application_orders(&stages), vec![vec![1, 0]]);
    let ties = vec![stage("A", fixed("2024-01-01")), stage("B", fixed("2024-01-01"))];
    assert_eq!(application_orders(&ties), vec![vec![0, 1]]);
}

#[test]
fn an_undetermined_unit_is_tried_at_every_place() {
    let stages = vec![stage("A", fixed("2024-04-01")), stage("B", fixed("2023-10-01")), stage("C", open())];
    assert_eq!(application_orders(&stages), vec![vec![2, 1, 0], vec![1, 2, 0], vec![1, 0, 2]]);
}

#[test]
fn each_sequence_of_labels_is_tried_once() {
    let stages = vec![stage("C", open()), stage("D", open())];
    assert_eq!(application_orders(&stages), vec![vec![1, 0], vec![0, 1]]);
    let same = vec![stage("X", open()), stage("X", open())];
    assert_eq!(application_orders(&same), vec![vec![1, 0]]);
}

#[test]
fn dates_compare_as_texts() {
    assert!(text_lt_exec("2023-10-01", "2024-04-01"));
    assert!(!text_lt_exec("2024-04-01", "2024-04-01"));
    assert!(text_lt_exec("2024", "2024-01"));
}

#[test]
fn every_order_holds_each_stage_once_with_fixed_dates_in_order() {
    let stages = vec![
        stage("A", fixed("2024-04-01")),
        stage("B", fixed("2023-10-01")),
        stage("C", open()),
        stage("D", open()),
    ];
    let orders = application_orders(&stages);
    assert_eq!(orders.len(), 12);
    for o in &orders {
        let mut sorted = o.clone();
        sorted.sort();
        assert_eq!(sorted, vec![0, 1, 2, 3]);
        let fixed_part: Vec<usize> = o.iter().copied().filter(|&k| k < 2).collect();
        assert_eq!(fixed_part, vec![1, 0]);
    }
    for i in 0..orders.len() {
        for j in i + 1..orders.len() {
            assert_ne!(orders[i], orders[j]);
        }
    }
}
