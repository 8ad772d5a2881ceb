use world_builder::utils::{choose_weighted, pick_weighted};

#[test]
fn all_zero_weights_give_no_choice() {
    let items = ['a', 'b'];
    for _ in 0..100 {
        assert_eq!(choose_weighted(&items, &[0, 0]), None);
    }
    let none: [char; 0] = [];
    assert_eq!(choose_weighted(&none, &[]), None);
}

#[test]
fn zero_weight_items_are_never_chosen() {
    let items = ['a', 'b', 'c'];
    for _ in 0..1000 {
        assert_eq!(choose_weighted(&items, &[0, 5, 0]), Some(&'b'));
    }
}

#[test]
fn weights_one_to_three_split_one_to_three() {
    let items = [0usize, 1usize];
    let mut counts = [0u32; 2];
    let trials = 200_000;
    for _ in 0..trials {
        let chosen = choose_weighted(&items, &[1, 3]).unwrap();
        counts[*chosen] += 1;
    }
    let share = counts[0] as f64 / trials as f64;
    assert!((share - 0.25).abs() < 0.01, "share of the first item: {share}");
}

#[test]
fn each_draw_selects_by_running_total() {
    let weights = [1, 3, 0, 2];
    assert_eq!(pick_weighted(&weights, 0), Some(0));
    assert_eq!(pick_weighted(&weights, 1), Some(1));
    assert_eq!(pick_weighted(&weights, 3), Some(1));
    assert_eq!(pick_weighted(&weights, 4), Some(3));
    assert_eq!(pick_weighted(&weights, 5), Some(3));
    assert_eq!(pick_weighted(&weights, 6), None);
    assert_eq!(pick_weighted(&[u64::MAX, u64::MAX], u64::MAX as u128), Some(1));
}
