use vocab_quiz::program::session::{
    build_candidates, large_round_position, position_by_obscurity, select_pool, shortlist_at,
    small_round_position,
};
use vocab_quiz::program::{PracticeDirection, PracticeSession};
use vocab_quiz::words::{Dictionary, Knowledge, ObscurityMode, Word, WordID};

fn dictionary(n: u32) -> Dictionary {
    let words = (0..n)
        .map(|i| Word {
            text: format!("w{}", i),
            definition: format!("d{}", i),
            pronunciation: None,
            obscurity: i + 1,
        })
        .collect();
    Dictionary::create(words, "test".to_string(), ObscurityMode::Manual)
}

fn pairs(first: usize, last: usize) -> Vec<(WordID, PracticeDirection)> {
    let mut out = Vec::new();
    for i in first..=last {
        out.push((WordID::from(i), PracticeDirection::Forward));
        out.push((WordID::from(i), PracticeDirection::Backward));
    }
    out
}

fn drain(session: &mut PracticeSession) -> Vec<(WordID, PracticeDirection)> {
    let mut out = Vec::new();
    while session.get_pool_size() > 0 {
        out.push(session.pick_word());
    }
    out
}

fn all_different(pool: &[(WordID, PracticeDirection)]) -> bool {
    (0..pool.len()).all(|i| (0..i).all(|j| pool[i] != pool[j]))
}

#[test]
fn fifteen_candidates_all_enter_the_pool() {
    // words 0..=6 never practised: both directions due, 14 candidates;
    // word 7 practised forward just now: only backward due; word 8 is beyond the cutoff
    let dict = dictionary(9);
    let mut knowledge = Knowledge::create(&dict);
    let now = 1_000_000;
    knowledge.practice_at(WordID::from(7), PracticeDirection::Forward, true, now);
    let candidates = build_candidates(&dict, &knowledge, 8, now);
    assert_eq!(candidates.len(), 15);
    let mut expected = pairs(0, 6);
    expected.push((WordID::from(7), PracticeDirection::Backward));
    let mut session = PracticeSession::new_at(&dict, knowledge, 8, now);
    assert_eq!(session.get_pool_size(), 15);
    assert_eq!(session.get_start_time(), now);
    for (i, expected) in expected.iter().enumerate() {
        assert_eq!(candidates[i].1, *expected);
        assert_eq!(candidates[i].0, 1_000_000);
    }
    let mut drawn = drain(&mut session);
    assert!(all_different(&drawn));
    drawn.sort_by_key(|(id, direction)| (WordID::into(*id), *direction == PracticeDirection::Backward));
    assert_eq!(drawn, expected);
}

#[test]
fn pick_word_on_a_pool_of_one_returns_it_and_empties_the_pool() {
    let dict = dictionary(1);
    let mut knowledge = Knowledge::create(&dict);
    knowledge.practice_at(WordID::from(0), PracticeDirection::Backward, true, 50);
    let mut session = PracticeSession::new_at(&dict, knowledge, 1, 50);
    assert_eq!(session.get_pool_size(), 1);
    assert_eq!(session.pick_word(), (WordID::from(0), PracticeDirection::Forward));
    assert_eq!(session.get_pool_size(), 0);
}

#[test]
fn pick_word_at_takes_the_chosen_word() {
    let dict = dictionary(3);
    let knowledge = Knowledge::create(&dict);
    let mut session = PracticeSession::new_at(&dict, knowledge, 3, 0);
    assert_eq!(session.get_pool_size(), 6);
    assert_eq!(session.pick_word_at(3), (WordID::from(1), PracticeDirection::Backward));
    assert_eq!(session.pick_word_at(0), (WordID::from(0), PracticeDirection::Forward));
    assert_eq!(session.pick_word_at(3), (WordID::from(2), PracticeDirection::Backward));
    assert_eq!(session.get_pool_size(), 3);
}

#[test]
fn candidates_are_the_directions_whose_recall_is_below_six_tenths() {
    let dict = dictionary(4);
    let mut knowledge = Knowledge::create(&dict);
    // half-life 172800 s; recall is 0.6 after about 0.737 half-lives
    knowledge.practice_at(WordID::from(0), PracticeDirection::Forward, true, 0);
    knowledge.practice_at(WordID::from(1), PracticeDirection::Forward, true, 0);
    knowledge.practice_at(WordID::from(1), PracticeDirection::Backward, true, 0);
    knowledge.practice_at(WordID::from(2), PracticeDirection::Backward, true, 100_000);
    let early = build_candidates(&dict, &knowledge, 4, 127_000);
    let items: Vec<(WordID, PracticeDirection)> = early.iter().map(|c| c.1).collect();
    assert_eq!(
        items,
        vec![
            (WordID::from(0), PracticeDirection::Backward),
            (WordID::from(2), PracticeDirection::Forward),
            (WordID::from(3), PracticeDirection::Forward),
            (WordID::from(3), PracticeDirection::Backward),
        ]
    );
    let late = build_candidates(&dict, &knowledge, 4, 128_000);
    let items: Vec<(WordID, PracticeDirection)> = late.iter().map(|c| c.1).collect();
    assert_eq!(
        items,
        vec![
            (WordID::from(0), PracticeDirection::Forward),
            (WordID::from(0), PracticeDirection::Backward),
            (WordID::from(1), PracticeDirection::Forward),
            (WordID::from(1), PracticeDirection::Backward),
            (WordID::from(2), PracticeDirection::Forward),
            (WordID::from(3), PracticeDirection::Forward),
            (WordID::from(3), PracticeDirection::Backward),
        ]
    );
    // the weight is what the recall lacks to certainty
    let p = knowledge.get_word_knowledge(WordID::from(0)).calculate_p_value_forward(128_000);
    assert!(p < 600_000 && p > 598_000);
    assert_eq!(late[0].0, (1_000_000 - p) as u64);
    assert_eq!(late[1].0, 1_000_000);
}

#[test]
fn words_beyond_the_cutoff_are_no_candidates() {
    let dict = dictionary(30);
    let knowledge = Knowledge::create(&dict);
    assert_eq!(build_candidates(&dict, &knowledge, 0, 0).len(), 0);
    assert_eq!(build_candidates(&dict, &knowledge, 7, 0).len(), 14);
    let session = PracticeSession::new_at(&dict, knowledge, 0, 0);
    assert_eq!(session.get_pool_size(), 0);
}

#[test]
fn twenty_candidates_still_all_enter_the_pool() {
    let dict = dictionary(10);
    let knowledge = Knowledge::create(&dict);
    let mut session = PracticeSession::new_at(&dict, knowledge, 10, 0);
    assert_eq!(session.get_pool_size(), 20);
    let mut drawn = drain(&mut session);
    drawn.sort_by_key(|(id, direction)| (WordID::into(*id), *direction == PracticeDirection::Backward));
    assert_eq!(drawn, pairs(0, 9));
}

#[test]
fn of_more_candidates_twenty_different_ones_are_drawn() {
    for &n in &[11u32, 30, 49] {
        let dict = dictionary(n);
        let knowledge = Knowledge::create(&dict);
        let candidates = build_candidates(&dict, &knowledge, u32::MAX, 0);
        assert_eq!(candidates.len(), 2 * n as usize);
        let pool = select_pool(candidates.clone(), &dict);
        assert_eq!(pool.len(), 20);
        assert!(all_different(&pool));
        for item in &pool {
            assert!(candidates.iter().any(|c| c.1 == *item));
        }
    }
}

#[test]
fn of_a_hundred_candidates_and_more_twenty_different_ones_are_drawn() {
    for &n in &[50u32, 51, 200] {
        let dict = dictionary(n);
        let knowledge = Knowledge::create(&dict);
        let mut session = PracticeSession::new_at(&dict, knowledge, u32::MAX, 0);
        assert_eq!(session.get_pool_size(), 20);
        let drawn = drain(&mut session);
        assert!(all_different(&drawn));
        for (id, _) in drawn {
            assert!(WordID::into(id) < n as usize);
        }
    }
}

#[test]
fn small_pools_are_drawn_by_weight() {
    // 21 candidates: word 0 forward was practised a while ago and weighs little more than
    // four tenths, all others weigh one; one candidate is left out each time
    let dict = dictionary(11);
    let mut knowledge = Knowledge::create(&dict);
    knowledge.practice_at(WordID::from(0), PracticeDirection::Forward, true, 0);
    knowledge.practice_at(WordID::from(0), PracticeDirection::Backward, true, 1_000_000);
    let now = 130_000;
    let candidates = build_candidates(&dict, &knowledge, u32::MAX, now);
    assert_eq!(candidates.len(), 21);
    assert!(candidates[0].0 < 410_000);
    let rounds = 3_000;
    let mut light_left_out = 0;
    for _ in 0..rounds {
        let pool = select_pool(candidates.clone(), &dict);
        assert_eq!(pool.len(), 20);
        if !pool.contains(&candidates[0].1) {
            light_left_out += 1;
        }
    }
    // with equal weights the light one would be left out once in 21 times
    let share = light_left_out as f64 / rounds as f64;
    assert!(share > 1.5 / 21.0, "{}", share);
}

#[test]
fn large_pools_favour_the_more_common_of_ten() {
    // the weight within the ten is one more than the obscurity lacks to the greatest of
    // the ten, so low obscurities weigh more
    let dict = dictionary(100);
    let knowledge = Knowledge::create(&dict);
    let candidates = build_candidates(&dict, &knowledge, u32::MAX, 0);
    assert_eq!(candidates.len(), 200);
    let rounds = 300;
    let mut low = 0usize;
    let mut all = 0usize;
    for _ in 0..rounds {
        for (id, _) in select_pool(candidates.clone(), &dict) {
            all += 1;
            if WordID::into(id) < 50 {
                low += 1;
            }
        }
    }
    assert_eq!(all, 20 * rounds);
    let share = low as f64 / all as f64;
    assert!(share > 0.6, "{}", share);
}

#[test]
fn pick_word_is_even_handed() {
    let dict = dictionary(2);
    let rounds = 4_000;
    let mut first_counts = [0usize; 4];
    for _ in 0..rounds {
        let knowledge = Knowledge::create(&dict);
        let mut session = PracticeSession::new_at(&dict, knowledge, 2, 0);
        let (id, direction) = session.pick_word();
        let slot = 2 * WordID::into(id) + (direction == PracticeDirection::Backward) as usize;
        first_counts[slot] += 1;
        assert_eq!(session.get_pool_size(), 3);
    }
    for count in first_counts {
        let share = count as f64 / rounds as f64;
        assert!((share - 0.25).abs() < 0.04, "{}", share);
    }
}

#[test]
fn session_keeps_and_returns_the_knowledge() {
    let dict = dictionary(3);
    let mut knowledge = Knowledge::create(&dict);
    knowledge.set_active_words(3);
    let before = chrono::Utc::now().timestamp();
    let mut session = PracticeSession::new(&dict, knowledge, 3);
    let after = chrono::Utc::now().timestamp();
    assert!(before <= session.get_start_time() && session.get_start_time() <= after);
    assert_eq!(session.get_pool_size(), 6);
    let (word, direction) = session.pick_word();
    session.practice(word, direction, true);
    assert_eq!(session.get_knowledge().get_active_words(), 3);
    let knowledge = session.recover_knowledge();
    let w = knowledge.get_word_knowledge(word);
    match direction {
        PracticeDirection::Forward => assert!(w.last_practice.is_some()),
        PracticeDirection::Backward => assert!(w.last_practice_reverse.is_some()),
    }
}

fn forward(weights: &[u64]) -> Vec<(u64, (WordID, PracticeDirection))> {
    weights
        .iter()
        .enumerate()
        .map(|(i, w)| (*w, (WordID::from(i), PracticeDirection::Forward)))
        .collect()
}

fn ranked(obscurities: &[u32]) -> Dictionary {
    let words = obscurities
        .iter()
        .enumerate()
        .map(|(i, o)| Word {
            text: format!("w{}", i),
            definition: String::new(),
            pronunciation: None,
            obscurity: *o,
        })
        .collect();
    Dictionary::create(words, "ranked".to_string(), ObscurityMode::Manual)
}

#[test]
fn small_round_takes_the_candidate_the_draw_falls_on() {
    let pool = forward(&[5, 3, 2, 4]);
    let positions: Vec<usize> = (0..14).map(|draw| small_round_position(&pool, draw)).collect();
    assert_eq!(positions, vec![0, 0, 0, 0, 0, 1, 1, 1, 2, 2, 3, 3, 3, 3]);
}

#[test]
fn shortlist_draws_each_candidate_once() {
    let pool = forward(&[5, 3, 2, 4]);
    assert_eq!(shortlist_at(&pool, &[]), Vec::<usize>::new());
    assert_eq!(shortlist_at(&pool, &[6]), vec![1]);
    // after position 1 the weights left are 5 0 2 4, after position 0 they are 0 0 2 4
    assert_eq!(shortlist_at(&pool, &[6, 0, 3]), vec![1, 0, 3]);
    assert_eq!(shortlist_at(&pool, &[6, 0, 3, 1]), vec![1, 0, 3, 2]);
    assert_eq!(shortlist_at(&pool, &[13, 9, 7, 4]), vec![3, 2, 1, 0]);
}

#[test]
fn second_draw_weighs_by_what_the_obscurity_lacks_to_the_greatest() {
    let pool = forward(&[5, 3, 2, 4]);
    let dict = ranked(&[10, 4, 1, 7]);
    // the weights of the positions 1, 0, 3 are 7, 1, 4
    let shortlist = vec![1, 0, 3];
    let positions: Vec<usize> =
        (0..12).map(|draw| position_by_obscurity(&pool, &shortlist, &dict, draw)).collect();
    assert_eq!(positions, vec![1, 1, 1, 1, 1, 1, 1, 0, 3, 3, 3, 3]);
    // one position alone has the weight 1
    assert_eq!(position_by_obscurity(&pool, &vec![2], &dict, 0), 2);
}

#[test]
fn large_round_is_fixed_by_the_numbers_drawn() {
    let pool = forward(&[1; 12]);
    let dict = ranked(&[1, 2, 3, 4, 5, 6, 7, 8, 9, 10, 11, 12]);
    // draws of 0 take the positions 0 to 9 in turn; their weights are 10 down to 1
    let first = [0u128; 10];
    assert_eq!(large_round_position(&pool, &dict, &first, 0), 0);
    assert_eq!(large_round_position(&pool, &dict, &first, 9), 0);
    assert_eq!(large_round_position(&pool, &dict, &first, 10), 1);
    assert_eq!(large_round_position(&pool, &dict, &first, 54), 9);
    // the greatest draws take the positions 11 down to 2; their weights are 1 up to 10
    let last = [11u128, 10, 9, 8, 7, 6, 5, 4, 3, 2];
    assert_eq!(large_round_position(&pool, &dict, &last, 0), 11);
    assert_eq!(large_round_position(&pool, &dict, &last, 1), 10);
    assert_eq!(large_round_position(&pool, &dict, &last, 2), 10);
    assert_eq!(large_round_position(&pool, &dict, &last, 54), 2);
}
