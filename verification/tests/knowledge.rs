use vocab_quiz::program::PracticeDirection;
use vocab_quiz::words::curve::{
    recall_estimate, updated_half_life, FIRST_HALF_LIFE, MIN_HALF_LIFE, RECALL_SCALE,
    STEEP_HALF_LIFE,
};
use vocab_quiz::words::word_knowledge::v0_2;
use vocab_quiz::words::{Dictionary, Knowledge, ObscurityMode, Word, WordID, WordKnowledge};

fn dictionary(n: u32) -> Dictionary {
    let words = (0..n)
        .map(|i| Word {
            text: format!("w{}", i),
            definition: format!("d{}", i),
            pronunciation: None,
            obscurity: i + 1,
        })
        .collect();
    Dictionary::create(words, "test".to_string(), ObscurityMode::Manual)
}

fn exact_recall(elapsed: f64, half_life: f64) -> f64 {
    (2.0f64).powf(-elapsed / half_life)
}

#[test]
fn fresh_knowledge_has_every_word_unseen() {
    let dict = dictionary(5);
    let k = Knowledge::create(&dict);
    assert_eq!(k.len(), 5);
    assert_eq!(k.get_active_words(), 0);
    assert_eq!(k.get_dict().get_name(), "test");
    for i in 0..5 {
        let w = k.get_word_knowledge(WordID::from(i));
        assert_eq!(
            *w,
            WordKnowledge {
                word_id: WordID::from(i),
                last_practice: None,
                last_practice_reverse: None,
                half_life: MIN_HALF_LIFE,
                half_life_reverse: MIN_HALF_LIFE,
            }
        );
    }
}

#[test]
fn constants_are_ten_minutes_and_two_days() {
    assert_eq!(MIN_HALF_LIFE, 10 * 60);
    assert_eq!(FIRST_HALF_LIFE, 2 * 24 * 60 * 60);
    assert_eq!(RECALL_SCALE, 1_000_000);
}

#[test]
fn first_practice_correct_gives_two_days_and_certainty() {
    let dict = dictionary(3);
    let mut k = Knowledge::create(&dict);
    let now = 1_700_000_000;
    k.practice_at(WordID::from(1), PracticeDirection::Forward, true, now);
    let w = k.get_word_knowledge(WordID::from(1));
    assert_eq!(w.half_life, FIRST_HALF_LIFE);
    assert_eq!(w.last_practice, Some(now));
    assert_eq!(w.calculate_p_value_forward(now), 1_000_000);
    // the other direction and the other words are as they were
    assert_eq!(w.half_life_reverse, MIN_HALF_LIFE);
    assert_eq!(w.last_practice_reverse, None);
    assert_eq!(w.calculate_p_value_backward(now), 0);
    assert_eq!(*k.get_word_knowledge(WordID::from(0)), WordKnowledge::new(WordID::from(0)));
}

#[test]
fn first_practice_wrong_gives_ten_minutes() {
    let dict = dictionary(3);
    let mut k = Knowledge::create(&dict);
    k.practice_at(WordID::from(2), PracticeDirection::Backward, false, 77);
    let w = k.get_word_knowledge(WordID::from(2));
    assert_eq!(w.half_life_reverse, MIN_HALF_LIFE);
    assert_eq!(w.last_practice_reverse, Some(77));
    assert_eq!(w.last_practice, None);
}

#[test]
fn wrong_answer_after_one_half_life_halves_the_half_life() {
    let dict = dictionary(1);
    let mut k = Knowledge::create(&dict);
    let start = 1_000;
    k.practice_at(WordID::from(0), PracticeDirection::Forward, true, start);
    let old = k.get_word_knowledge(WordID::from(0)).half_life;
    assert_eq!(old, 172_800);
    k.practice_at(WordID::from(0), PracticeDirection::Forward, false, start + old as i64);
    let w = k.get_word_knowledge(WordID::from(0));
    assert_eq!(w.half_life, 86_400);
    assert_eq!(w.half_life, std::cmp::max(old / 2, MIN_HALF_LIFE));
    assert_eq!(w.last_practice, Some(start + 172_800));
}

#[test]
fn wrong_answer_never_goes_below_ten_minutes() {
    assert_eq!(updated_half_life(Some(0), 600, 600, false), 600);
    assert_eq!(updated_half_life(Some(0), 900, 900, false), 600);
    assert_eq!(updated_half_life(Some(0), 1400, 1380, false), 705);
    assert_eq!(updated_half_life(Some(0), 0, 0, false), 600);
}

#[test]
fn right_answer_adds_the_elapsed_time() {
    assert_eq!(updated_half_life(Some(0), 600, 0, true), 600);
    assert_eq!(updated_half_life(Some(0), 600, 59, true), 659);
    assert_eq!(updated_half_life(Some(0), 600, 60, true), 660);
    assert_eq!(updated_half_life(Some(100), 5000, 100 + 3 * 3600 + 59, true), 5000 + 3 * 3600 + 59);
    assert_eq!(updated_half_life(Some(0), u64::MAX, i64::MAX, true), u64::MAX);
}

#[test]
fn wrong_answer_one_half_life_later_halves_any_half_life() {
    // the elapsed time counts to the second: the factor is 1, the multiplier one half
    assert_eq!(updated_half_life(Some(0), 100_059, 100_059, false), 50_029);
    assert_eq!(updated_half_life(Some(7), 100_058, 100_065, false), 50_029);
    assert_eq!(updated_half_life(Some(-5), 1_201, 1_196, false), 600);
    assert_eq!(updated_half_life(Some(0), 1_199, 1_199, false), 600);
    for half_life in [600u64, 601, 1_234, 86_399, 172_800, 1 << 40] {
        let next = updated_half_life(Some(1_000), half_life, 1_000 + half_life as i64, false);
        assert_eq!(next, std::cmp::max(half_life / 2, MIN_HALF_LIFE));
    }
}

#[test]
fn half_life_follows_the_multiplier_formula() {
    for &(half_life, elapsed) in &[
        (600u64, 60i64),
        (600, 601),
        (4000, 431),
        (172_800, 172_800),
        (172_800, 6_007),
        (1_000_000, 3_000_001),
        (100_059, 100_059),
    ] {
        let factor = elapsed as f64 / half_life as f64;
        let multiplier = 1.0 + factor;
        let right = (half_life as f64 * multiplier).max(600.0);
        let wrong = (half_life as f64 / multiplier).max(600.0);
        let got_right = updated_half_life(Some(0), half_life, elapsed, true);
        let got_wrong = updated_half_life(Some(0), half_life, elapsed, false);
        assert!((got_right as f64 - right).abs() < 1.0, "{} {}", got_right, right);
        assert!((got_wrong as f64 - wrong).abs() <= 1.0, "{} {}", got_wrong, wrong);
    }
}

#[test]
fn clock_that_ran_backwards_shortens_a_right_answer_and_lengthens_a_wrong_one() {
    assert_eq!(updated_half_life(Some(6000), 5000, 0, true), 600);
    assert_eq!(updated_half_life(Some(1200), 5000, 0, true), 3800);
    assert_eq!(updated_half_life(Some(1200), 5000, 0, false), 5000 * 5000 / 3800);
    assert_eq!(updated_half_life(Some(5000), 5000, 20, false), 5000 * 5000 / 20);
    assert_eq!(updated_half_life(Some(6000), 5000, 0, false), 600);
    assert_eq!(updated_half_life(Some(i64::MAX), 5000, i64::MIN, true), 600);
}

#[test]
fn recall_is_nothing_when_never_practised() {
    assert_eq!(recall_estimate(None, 600, 0), 0);
    assert_eq!(recall_estimate(None, 172_800, i64::MAX), 0);
    let w = WordKnowledge::new(WordID::from(0));
    assert_eq!(w.calculate_p_value_forward(5), 0);
    assert_eq!(w.calculate_p_value_backward(5), 0);
}

#[test]
fn recall_halves_with_each_half_life() {
    assert_eq!(recall_estimate(Some(100), 600, 100), 1_000_000);
    assert_eq!(recall_estimate(Some(100), 600, 700), 500_000);
    assert_eq!(recall_estimate(Some(100), 600, 1300), 250_000);
    assert_eq!(recall_estimate(Some(100), 600, 1900), 125_000);
    assert_eq!(recall_estimate(Some(0), 600, 600 * 19), 1);
    assert_eq!(recall_estimate(Some(0), 600, 600 * 20), 0);
    assert_eq!(recall_estimate(Some(0), 1, i64::MAX), 0);
    assert_eq!(recall_estimate(Some(i64::MIN), u64::MAX, i64::MAX), 500_000);
}

#[test]
fn recall_passes_through_the_sixteenths_of_the_curve() {
    let points = [
        1_000_000, 957_603, 917_004, 878_126, 840_896, 805_245, 771_105, 738_413, 707_107,
        677_128, 648_420, 620_929, 594_604, 569_394, 545_254, 522_137, 500_000,
    ];
    for (k, &p) in points.iter().enumerate() {
        assert_eq!(recall_estimate(Some(0), 1600, 100 * k as i64), p);
        let exact = 1e6 * exact_recall(k as f64, 16.0);
        assert!((p as f64 - exact).abs() <= 0.5, "{} {}", p, exact);
    }
    // half way between two points
    assert_eq!(recall_estimate(Some(0), 1600, 50), 1_000_000 - 21_198);
}

#[test]
fn recall_stays_close_to_the_exact_curve() {
    for &half_life in &[600u64, 601, 7_777, 172_800, 10_000_000] {
        for step in 0..400u64 {
            let elapsed = half_life * step / 37;
            let got = recall_estimate(Some(0), half_life, elapsed as i64) as f64 / 1e6;
            let exact = exact_recall(elapsed as f64, half_life as f64);
            assert!((got - exact).abs() < 3e-4, "{} {} {} {}", half_life, elapsed, got, exact);
        }
    }
}

#[test]
fn recall_is_bounded_and_never_rises() {
    for &half_life in &[0u64, 1, 600, 5_000, 172_800, u64::MAX] {
        let mut last = u32::MAX;
        for &elapsed in &[-5i64, 0, 1, 2, 59, 60, 599, 600, 601, 5_000, 86_400, 172_800, 1 << 40] {
            let p = recall_estimate(Some(0), half_life, elapsed);
            assert!(p <= RECALL_SCALE);
            assert!(p <= last);
            last = p;
        }
    }
}

#[test]
fn recall_falls_strictly_over_a_half_life() {
    let half_life = 4_000i64;
    let mut elapsed = 0;
    let mut last = recall_estimate(Some(0), half_life as u64, 0);
    while last > 0 {
        elapsed += half_life;
        let p = recall_estimate(Some(0), half_life as u64, elapsed);
        assert!(p < last);
        last = p;
    }
}

#[test]
fn time_that_has_not_passed_is_certainty() {
    assert_eq!(recall_estimate(Some(500), 600, 400), 1_000_000);
    assert_eq!(recall_estimate(Some(500), 0, 500), 1_000_000);
    assert_eq!(recall_estimate(Some(500), 0, 501), 0);
}

#[test]
fn each_direction_has_its_own_curve() {
    let mut w = WordKnowledge::new(WordID::from(4));
    w.practice(PracticeDirection::Forward, true, 0);
    w.practice(PracticeDirection::Backward, false, 1_000);
    assert_eq!(w.half_life, 172_800);
    assert_eq!(w.half_life_reverse, 600);
    assert_eq!(w.calculate_p_value_forward(172_800), 500_000);
    assert_eq!(w.calculate_p_value_backward(1_600), 500_000);
    assert_eq!(w.calculate_p_value_backward(1_000), 1_000_000);
}

#[test]
fn practice_records_the_time_of_the_clock() {
    let dict = dictionary(2);
    let mut k = Knowledge::create(&dict);
    let before = chrono::Utc::now().timestamp();
    k.practice(WordID::from(0), PracticeDirection::Forward, true);
    let after = chrono::Utc::now().timestamp();
    let w = k.get_word_knowledge(WordID::from(0));
    let recorded = w.last_practice.unwrap();
    assert!(before <= recorded && recorded <= after);
    assert!(recorded > 1_600_000_000);
    assert_eq!(w.half_life, FIRST_HALF_LIFE);
}

#[test]
fn active_words_is_a_plain_counter() {
    let dict = dictionary(2);
    let mut k = Knowledge::create(&dict);
    k.set_active_words(35);
    assert_eq!(k.get_active_words(), 35);
    k.practice_at(WordID::from(0), PracticeDirection::Forward, true, 1);
    assert_eq!(k.get_active_words(), 35);
}

#[test]
fn old_record_is_brought_forward() {
    let old = v0_2::WordKnowledge { word_id: WordID::from(3), last_practice: Some(9), half_life: 1_001 };
    let new = old.convert_to();
    assert_eq!(
        new,
        WordKnowledge {
            word_id: WordID::from(3),
            last_practice: Some(9),
            last_practice_reverse: None,
            half_life: 1_001,
            half_life_reverse: 800,
        }
    );
    let top = v0_2::WordKnowledge { word_id: WordID::from(0), last_practice: None, half_life: u64::MAX };
    assert_eq!(top.convert_to().half_life_reverse, (1u64 << 63) + 299);
}

#[test]
fn recall_falls_with_every_second_of_the_first_half_life() {
    for &half_life in &[600u64, 172_800, STEEP_HALF_LIFE] {
        let step = if half_life > 10_000 { 997 } else { 1 };
        let mut last = recall_estimate(Some(0), half_life, 0);
        assert_eq!(last, 1_000_000);
        let mut elapsed = 1;
        while elapsed < half_life {
            let p = recall_estimate(Some(0), half_life, elapsed as i64);
            assert!(p < last, "{} {}", half_life, elapsed);
            assert!(recall_estimate(Some(0), half_life, elapsed as i64 - 1) > p);
            last = p;
            elapsed += step;
        }
    }
    // a half-life so long that a second is too little to show
    assert_eq!(recall_estimate(Some(0), 1_000_000_000, 1), 1_000_000);
}
