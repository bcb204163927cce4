use vocab_quiz::tools::weighted_list::{pick_at, pick_by_weight, sum_weights};

#[test]
fn draw_falls_on_the_first_item_whose_running_weight_exceeds_it() {
    let list = [(1u64, 'a'), (3, 'b')];
    assert_eq!(sum_weights(&list), 4);
    assert_eq!(pick_at(&list, 0), 0);
    assert_eq!(pick_at(&list, 1), 1);
    assert_eq!(pick_at(&list, 2), 1);
    assert_eq!(pick_at(&list, 3), 1);
}

#[test]
fn items_without_weight_are_passed_over() {
    let list = [(0u64, 'a'), (2, 'b'), (0, 'c'), (0, 'd'), (5, 'e'), (0, 'f')];
    let picks: Vec<usize> = (0..7).map(|draw| pick_at(&list, draw)).collect();
    assert_eq!(picks, vec![1, 1, 4, 4, 4, 4, 4]);
    for _ in 0..200 {
        let i = pick_by_weight(&list);
        assert!(i == 1 || i == 4);
    }
}

#[test]
fn great_weights_do_not_overflow() {
    let list = [(u64::MAX, 0u8), (u64::MAX, 1), (u64::MAX, 2)];
    assert_eq!(sum_weights(&list), 3 * (u64::MAX as u128));
    assert_eq!(pick_at(&list, u64::MAX as u128 - 1), 0);
    assert_eq!(pick_at(&list, u64::MAX as u128), 1);
    assert_eq!(pick_at(&list, 3 * (u64::MAX as u128) - 1), 2);
    assert!(pick_by_weight(&list) < 3);
}

#[test]
fn single_item_is_always_drawn() {
    for _ in 0..50 {
        assert_eq!(pick_by_weight(&[(7u64, "only")]), 0);
    }
}

#[test]
fn weights_one_and_three_draw_the_second_three_times_in_four() {
    let list = [(1u64, "rare"), (3, "common")];
    let n = 20_000;
    let mut second = 0;
    for _ in 0..n {
        if pick_by_weight(&list) == 1 {
            second += 1;
        }
    }
    let share = second as f64 / n as f64;
    assert!((share - 0.75).abs() < 0.02, "{}", share);
}

#[test]
fn every_draw_below_the_total_is_one_item_and_each_item_has_its_weight_in_draws() {
    let list = [(4u64, ()), (1, ()), (7, ()), (2, ())];
    let mut counts = [0u64; 4];
    for draw in 0..14 {
        counts[pick_at(&list, draw)] += 1;
    }
    assert_eq!(counts, [4, 1, 7, 2]);
}
