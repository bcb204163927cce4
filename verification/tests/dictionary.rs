use std::collections::{BTreeMap, BTreeSet};

use vocab_quiz::words::obscurity_index::{entries_up_to, insert_obs};
use vocab_quiz::words::{Dictionary, ObscurityMode, Word, WordError, WordID};

fn word(text: &str, obscurity: u32) -> Word {
    Word {
        text: text.to_string(),
        definition: format!("meaning of {}", text),
        pronunciation: None,
        obscurity,
    }
}

fn ten_words() -> Vec<Word> {
    (1..=10u32).map(|i| word(&format!("w{}", i), i)).collect()
}

fn positions(ids: &[WordID]) -> Vec<usize> {
    ids.iter().map(|id| WordID::into(*id)).collect()
}

#[test]
fn leq_score_returns_the_five_lowest() {
    let dict = Dictionary::create(ten_words(), "ten".to_string(), ObscurityMode::Manual);
    let ids = dict.get_words_leq_score(5);
    assert_eq!(positions(&ids), vec![0, 1, 2, 3, 4]);
    for id in ids {
        assert!(dict.get_word_from_id(id).obscurity <= 5);
    }
}

#[test]
fn leq_score_orders_by_obscurity_then_position() {
    let words = vec![word("c", 7), word("a", 2), word("d", 7), word("b", 2), word("e", 1)];
    let dict = Dictionary::create(words, "mixed".to_string(), ObscurityMode::Manual);
    assert_eq!(positions(&dict.get_words_leq_score(0)), Vec::<usize>::new());
    assert_eq!(positions(&dict.get_words_leq_score(1)), vec![4]);
    assert_eq!(positions(&dict.get_words_leq_score(6)), vec![4, 1, 3]);
    assert_eq!(positions(&dict.get_words_leq_score(7)), vec![4, 1, 3, 0, 2]);
    assert_eq!(positions(&dict.get_words_leq_score(u32::MAX)), vec![4, 1, 3, 0, 2]);
}

#[test]
fn leq_score_grows_with_the_score() {
    let words: Vec<Word> = (0..40u32).map(|i| word(&format!("w{}", i), (i * 7) % 13)).collect();
    let dict = Dictionary::create(words, "grow".to_string(), ObscurityMode::Manual);
    for low in 0..14u32 {
        let below = positions(&dict.get_words_leq_score(low));
        let above = positions(&dict.get_words_leq_score(low + 1));
        for id in &below {
            assert!(above.contains(id));
        }
    }
}

#[test]
fn linear_mode_ranks_by_position() {
    let dict = Dictionary::create(ten_words(), "lin".to_string(), ObscurityMode::Linear(3));
    let ranks: Vec<u32> =
        dict.get_word_ids().into_iter().map(|id| dict.get_word_from_id(id).obscurity).collect();
    assert_eq!(ranks, vec![1, 4, 7, 10, 13, 16, 19, 22, 25, 28]);
}

#[test]
fn exponential_mode_ranks_by_powers_and_stops_at_the_top() {
    let words: Vec<Word> = (0..40u32).map(|i| word(&format!("w{}", i), 0)).collect();
    let dict = Dictionary::create(words, "exp".to_string(), ObscurityMode::Exponential(2));
    let ranks: Vec<u32> =
        dict.get_word_ids().into_iter().map(|id| dict.get_word_from_id(id).obscurity).collect();
    assert_eq!(&ranks[..5], &[1, 2, 4, 8, 16]);
    assert_eq!(ranks[31], 1 << 31);
    assert_eq!(ranks[32], u32::MAX);
    assert_eq!(ranks[39], u32::MAX);
    assert_eq!(positions(&dict.get_words_leq_score(8)), vec![0, 1, 2, 3]);
}

#[test]
fn manual_mode_keeps_the_given_ranks() {
    let dict = Dictionary::create(ten_words(), "man".to_string(), ObscurityMode::Manual);
    assert_eq!(dict.get_title(), "man");
    assert_eq!(dict.len(), 10);
    assert_eq!(dict.get_word_from_id(WordID::from(9)).obscurity, 10);
    assert_eq!(dict.get_word_from_id(WordID::from(9)).text, "w10");
}

#[test]
fn find_word_gives_the_last_word_with_that_text() {
    let words = vec![word("a", 1), word("b", 2), word("a", 3)];
    let dict = Dictionary::create(words, "dup".to_string(), ObscurityMode::Manual);
    assert_eq!(dict.find_word("a".to_string()), Some(WordID::from(2)));
    assert_eq!(dict.find_word("b".to_string()), Some(WordID::from(1)));
    assert_eq!(dict.find_word("c".to_string()), None);
}

#[test]
fn ids_follow_the_word_list() {
    let dict = Dictionary::create(ten_words(), "ids".to_string(), ObscurityMode::Manual);
    assert_eq!(positions(&dict.get_word_ids()), (0..10).collect::<Vec<usize>>());
    assert_eq!(dict.get_id_from_index(9), Some(WordID::from(9)));
    assert_eq!(dict.get_id_from_index(10), None);
}

#[test]
fn insert_obs_files_a_word_under_its_obscurity() {
    let mut index: BTreeMap<u32, BTreeSet<usize>> = BTreeMap::new();
    insert_obs(&mut index, WordID::from(4), 7);
    insert_obs(&mut index, WordID::from(1), 7);
    insert_obs(&mut index, WordID::from(9), 2);
    let mut expected: BTreeMap<u32, BTreeSet<usize>> = BTreeMap::new();
    expected.insert(2, BTreeSet::from([9]));
    expected.insert(7, BTreeSet::from([1, 4]));
    assert_eq!(index, expected);
    // a word that is filed already changes nothing
    insert_obs(&mut index, WordID::from(4), 7);
    assert_eq!(index, expected);
    // the same word under another obscurity leaves the other sets as they are
    insert_obs(&mut index, WordID::from(4), 0);
    expected.insert(0, BTreeSet::from([4]));
    assert_eq!(index, expected);
}

#[test]
fn entries_are_listed_in_order_up_to_the_score() {
    let mut index: BTreeMap<u32, BTreeSet<usize>> = BTreeMap::new();
    for (id, obs) in [(5, 9), (0, 3), (7, 3), (2, 0), (1, 9), (3, u32::MAX)] {
        insert_obs(&mut index, WordID::from(id), obs);
    }
    assert_eq!(entries_up_to(&index, 2), vec![(0, 2)]);
    assert_eq!(entries_up_to(&index, 3), vec![(0, 2), (3, 0), (3, 7)]);
    assert_eq!(entries_up_to(&index, 8), vec![(0, 2), (3, 0), (3, 7)]);
    assert_eq!(entries_up_to(&index, 9), vec![(0, 2), (3, 0), (3, 7), (9, 1), (9, 5)]);
    assert_eq!(entries_up_to(&index, u32::MAX).len(), 6);
    assert_eq!(entries_up_to(&BTreeMap::new(), 5), vec![]);
}

#[test]
fn word_error_is_the_error_of_the_library() {
    let e: WordError = WordError::new(vocab_quiz::error::ErrorKind::Decode, "bad word");
    assert_eq!(e.msg(), "bad word");
    assert_eq!(e.take_msg(), "bad word".to_string());
}
