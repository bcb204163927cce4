use vocab_quiz::error::ErrorKind;
use vocab_quiz::program::{Application, DictID, PracticeDirection, User, UserID};
use vocab_quiz::tools::dict_map::DictMap;
use vocab_quiz::words::{Dictionary, FileVersion, Knowledge, ObscurityMode, Word, WordID};

fn dictionary(title: &str, n: u32) -> Dictionary {
    let words = (0..n)
        .map(|i| Word {
            text: format!("w{}", i),
            definition: format!("d{}", i),
            pronunciation: None,
            obscurity: i + 1,
        })
        .collect();
    Dictionary::create(words, title.to_string(), ObscurityMode::Manual)
}

fn ready(words: u32, active: usize) -> Application {
    let mut app = Application::new();
    app.add_dictionary(dictionary("lang", words));
    app.create_user("Ada".to_string()).unwrap();
    app.set_dict(DictID::new("lang".to_string()));
    app.set_active_words(active);
    app
}

#[test]
fn new_application_has_nothing() {
    let app = Application::new();
    assert!(app.get_dict_list().is_empty());
    assert!(app.get_users().is_empty());
    assert!(app.get_current_user().is_none());
    assert_eq!(app.get_active_words(), 0);
    assert_eq!(app.get_pool_size(DictID::new("x".to_string())), 0);
    assert_eq!(app.get_session_len().unwrap_err().kind(), ErrorKind::Domain);
    assert_eq!(app.get_current_word().unwrap_err().kind(), ErrorKind::Domain);
}

#[test]
fn user_needs_a_new_name_that_is_not_empty() {
    let mut app = Application::new();
    let e = app.create_user(String::new()).unwrap_err();
    assert_eq!(e.kind(), ErrorKind::Domain);
    assert_eq!(e.msg(), "Must provide a name!");
    app.create_user("Ada".to_string()).unwrap();
    assert_eq!(app.get_current_user().unwrap().get_name(), "Ada");
    let e = app.create_user("Ada".to_string()).unwrap_err();
    assert_eq!(e.kind(), ErrorKind::Domain);
    assert_eq!(e.msg(), "User with this name already exists!");
    app.create_user("Bob".to_string()).unwrap();
    assert_eq!(app.get_current_user().unwrap().get_name(), "Bob");
    let names: Vec<String> = app.get_users().iter().map(|u| u.get_name().to_string()).collect();
    assert_eq!(names, vec!["Ada".to_string(), "Bob".to_string()]);
    assert_eq!(app.get_user_id("Ada".to_string()).unwrap().get_name(), "Ada");
    assert!(app.get_user_id("Eve".to_string()).is_none());
}

#[test]
fn dictionaries_are_listed_by_title() {
    let mut app = Application::new();
    assert!(app.add_dictionary(dictionary("a", 1)).is_none());
    assert!(app.add_dictionary(dictionary("b", 1)).is_none());
    assert!(app.add_dictionary(dictionary("a", 2)).is_some());
    let titles: Vec<String> =
        app.get_dict_list().iter().map(|d| d.get_name().to_string()).collect();
    assert_eq!(titles, vec!["a".to_string(), "b".to_string()]);
}

#[test]
fn active_words_belong_to_the_user_and_the_dictionary() {
    let mut app = Application::new();
    app.add_dictionary(dictionary("a", 3));
    app.add_dictionary(dictionary("b", 3));
    app.set_active_words(5);
    assert_eq!(app.get_active_words(), 0);
    app.create_user("Ada".to_string()).unwrap();
    app.set_active_words(5);
    assert_eq!(app.get_active_words(), 0);
    app.set_dict(DictID::new("a".to_string()));
    assert_eq!(app.get_active_words(), 0);
    app.set_active_words(5);
    assert_eq!(app.get_active_words(), 5);
    app.set_dict(DictID::new("b".to_string()));
    assert_eq!(app.get_active_words(), 0);
    app.set_active_words(7);
    app.set_dict(DictID::new("a".to_string()));
    assert_eq!(app.get_active_words(), 5);
    app.set_active_words(6);
    assert_eq!(app.get_active_words(), 6);
    app.create_user("Bob".to_string()).unwrap();
    assert_eq!(app.get_active_words(), 0);
    app.set_dict(DictID::new("nowhere".to_string()));
    app.set_active_words(9);
    assert_eq!(app.get_active_words(), 0);
}

#[test]
fn pool_size_counts_the_words_due_forward() {
    let mut app = ready(10, 4);
    let lang = DictID::new("lang".to_string());
    assert_eq!(app.get_pool_size_at(&lang, 0), 4);
    assert_eq!(app.get_pool_size(lang.clone()), 4);
    assert_eq!(app.get_pool_size_at(&DictID::new("other".to_string()), 0), 0);
    app.set_active_words(0);
    assert_eq!(app.get_pool_size_at(&lang, 0), 0);
    app.set_active_words(u32::MAX as usize);
    assert_eq!(app.get_pool_size_at(&lang, 0), 10);
    app.set_current_user(None);
    assert_eq!(app.get_pool_size_at(&lang, 0), 0);
    app.set_current_user(Some(UserID::new("Nobody".to_string())));
    assert_eq!(app.get_pool_size_at(&lang, 0), 0);
}

#[test]
fn pool_size_leaves_out_what_is_remembered() {
    let mut app = Application::new();
    let dict = dictionary("lang", 3);
    let mut knowledge = Knowledge::create(&dict);
    knowledge.set_active_words(3);
    knowledge.practice_at(WordID::from(0), PracticeDirection::Forward, true, 1_000);
    knowledge.practice_at(WordID::from(1), PracticeDirection::Backward, true, 1_000);
    let mut user = User::create("Ada".to_string());
    user.add_knowledge(knowledge);
    app.add_dictionary(dict);
    assert!(app.add_user(user).is_none());
    app.set_current_user(app.get_user_id("Ada".to_string()));
    let lang = DictID::new("lang".to_string());
    assert_eq!(app.get_pool_size_at(&lang, 1_000), 2);
    assert_eq!(app.get_pool_size_at(&lang, 1_000 + 127_000), 2);
    assert_eq!(app.get_pool_size_at(&lang, 1_000 + 128_000), 3);
}

#[test]
fn session_needs_a_user_and_a_dictionary() {
    let mut app = Application::new();
    assert_eq!(app.start_practice_session().unwrap_err().kind(), ErrorKind::Domain);
    app.create_user("Ada".to_string()).unwrap();
    assert_eq!(app.start_practice_session().unwrap_err().msg(), "No dictionary selected!");
    app.set_dict(DictID::new("lang".to_string()));
    assert_eq!(app.start_practice_session().unwrap_err().msg(), "Dictionary not found!");
    app.add_dictionary(dictionary("lang", 3));
    app.set_current_user(None);
    assert_eq!(app.start_practice_session().unwrap_err().msg(), "No user selected!");
    app.set_current_user(Some(UserID::new("Eve".to_string())));
    assert_eq!(app.start_practice_session().unwrap_err().msg(), "User not found!");
}

#[test]
fn session_without_words_does_not_start() {
    let mut app = ready(5, 0);
    let e = app.start_practice_session().unwrap_err();
    assert_eq!(e.kind(), ErrorKind::Domain);
    assert_eq!(e.msg(), "No words to practice!");
    assert!(app.get_session_len().is_err());
    // the knowledge is still with the user
    assert_eq!(app.get_active_words(), 0);
    app.set_active_words(20);
    assert_eq!(app.get_active_words(), 20);
    app.start_practice_session().unwrap();
    assert_eq!(app.get_session_len().unwrap(), 10);
}

#[test]
fn session_runs_from_start_to_conclusion() {
    let mut app = ready(4, 2);
    let lang = DictID::new("lang".to_string());
    assert_eq!(app.get_pool_size_at(&lang, 0), 2);
    app.start_practice_session().unwrap();
    assert_eq!(app.get_session_len().unwrap(), 4);
    // the knowledge is with the session
    assert_eq!(app.get_active_words(), 0);
    assert_eq!(app.start_practice_session().unwrap_err().msg(), "A practice session is already running!");
    assert!(app.get_current_word().unwrap().is_none());
    assert_eq!(app.practice_current_word(true).unwrap_err().kind(), ErrorKind::Domain);

    let mut asked = Vec::new();
    while app.get_session_len().unwrap() > 0 {
        app.pick_next_word();
        let (word, direction) = app.get_current_word().unwrap().unwrap();
        assert!(word.obscurity <= 2);
        asked.push((word.text.clone(), direction));
        app.practice_current_word(direction == PracticeDirection::Forward).unwrap();
    }
    asked.sort_by_key(|(text, direction)| (text.clone(), *direction == PracticeDirection::Backward));
    assert_eq!(
        asked,
        vec![
            ("w0".to_string(), PracticeDirection::Forward),
            ("w0".to_string(), PracticeDirection::Backward),
            ("w1".to_string(), PracticeDirection::Forward),
            ("w1".to_string(), PracticeDirection::Backward),
        ]
    );
    app.pick_next_word();
    assert!(app.get_current_word().unwrap().is_none());

    app.conclude_session().unwrap();
    assert!(app.get_session_len().is_err());
    assert_eq!(app.conclude_session().unwrap_err().kind(), ErrorKind::Domain);
    assert_eq!(app.get_active_words(), 2);
    // forward answers were right: nothing is due forward for two days
    assert_eq!(app.get_pool_size(lang), 0);
    // every answer was given just now: nothing is due in either direction
    assert_eq!(app.start_practice_session().unwrap_err().msg(), "No words to practice!");
    assert_eq!(app.get_active_words(), 2);
}

#[test]
fn current_word_needs_its_dictionary() {
    let mut app = ready(3, 3);
    app.start_practice_session().unwrap();
    app.pick_next_word();
    assert!(app.get_current_word().unwrap().is_some());
    app.set_dict(DictID::new("gone".to_string()));
    assert_eq!(app.get_current_word().unwrap_err().msg(), "Dictionary not found!");
    app.add_dictionary(dictionary("gone", 0));
    assert_eq!(app.get_current_word().unwrap_err().msg(), "Word not found!");
}

#[test]
fn knowledge_that_does_not_cover_the_dictionary_starts_no_session() {
    let mut app = ready(3, 3);
    // the dictionary grows after the user has practised it
    app.add_dictionary(dictionary("lang", 4));
    let e = app.start_practice_session().unwrap_err();
    assert_eq!(e.kind(), ErrorKind::Domain);
    assert_eq!(app.get_active_words(), 3);
    assert_eq!(app.get_pool_size_at(&DictID::new("lang".to_string()), 0), 0);
}

#[test]
fn selected_user_is_saved_and_loaded() {
    let mut app = ready(4, 3);
    app.start_practice_session().unwrap();
    app.pick_next_word();
    let (_, direction) = app.get_current_word().unwrap().unwrap();
    app.practice_current_word(true).unwrap();
    app.conclude_session().unwrap();
    let due = if direction == PracticeDirection::Forward { 2 } else { 3 };
    let mut stored = vec![1, 2];
    let n = app.save_current_user(&mut stored).unwrap();
    assert_eq!(stored.len(), n + 2);

    let mut other = Application::new();
    let e = other.load_user(&stored[2..]).unwrap_err();
    assert_eq!(e.kind(), ErrorKind::Domain);
    other.add_dictionary(dictionary("lang", 4));
    assert!(matches!(other.load_user(&stored[2..]).unwrap(), FileVersion::Current));
    assert!(matches!(other.load_user(&stored[2..]).unwrap(), FileVersion::Current));
    assert_eq!(other.get_users().len(), 1);
    other.set_current_user(other.get_user_id("Ada".to_string()));
    other.set_dict(DictID::new("lang".to_string()));
    assert_eq!(other.get_active_words(), 3);
    assert_eq!(other.get_pool_size(DictID::new("lang".to_string())), due);

    app.set_current_user(None);
    assert_eq!(app.save_current_user(&mut stored).unwrap_err().kind(), ErrorKind::Domain);
}

#[test]
fn dictionary_is_loaded_from_its_stored_form() {
    let mut stored = Vec::new();
    dictionary("lang", 6).save_to(&mut stored).unwrap();
    let mut app = Application::new();
    assert!(matches!(app.load_dictionary(&stored).unwrap(), FileVersion::Current));
    assert_eq!(app.get_dict_list()[0].get_name(), "lang");
    stored.truncate(10);
    assert_eq!(app.load_dictionary(&stored).unwrap_err().kind(), ErrorKind::Decode);
    assert_eq!(app.get_dict_list().len(), 1);
    let _ = DictMap::new();
}

#[test]
fn cutoff_set_during_a_session_gives_way_to_what_the_session_returns() {
    let mut app = ready(4, 2);
    app.start_practice_session().unwrap();
    // the knowledge is with the session: the user gets a fresh one
    app.set_active_words(9);
    assert_eq!(app.get_active_words(), 9);
    app.conclude_session().unwrap();
    assert_eq!(app.get_active_words(), 2);
}

#[test]
fn user_with_the_name_of_another_takes_its_place() {
    let mut app = Application::new();
    app.create_user("Ada".to_string()).unwrap();
    app.create_user("Bob".to_string()).unwrap();
    assert!(app.add_user(User::create("Ada".to_string())).is_some());
    assert!(app.add_user(User::create("Eve".to_string())).is_none());
    let names: Vec<String> = app.get_users().iter().map(|u| u.get_name().to_string()).collect();
    assert_eq!(names, vec!["Ada".to_string(), "Bob".to_string(), "Eve".to_string()]);
}
