use vocab_quiz::tools::dict_map::DictMap;
use vocab_quiz::words::{Dictionary, ObscurityMode, Word};

fn dictionary(title: &str, n: u32) -> Dictionary {
    let words = (0..n)
        .map(|i| Word {
            text: format!("w{}", i),
            definition: String::new(),
            pronunciation: None,
            obscurity: i,
        })
        .collect();
    Dictionary::create(words, title.to_string(), ObscurityMode::Manual)
}

#[test]
fn new_map_is_empty() {
    let dicts = DictMap::new();
    assert_eq!(dicts.len(), 0);
    assert!(dicts.keys().is_empty());
    assert!(dicts.values().is_empty());
    assert!(dicts.get(&"a".to_string()).is_none());
}

#[test]
fn dictionaries_are_found_by_title() {
    let mut dicts = DictMap::new();
    assert!(dicts.insert(dictionary("a", 1)).is_none());
    assert!(dicts.insert(dictionary("b", 2)).is_none());
    assert!(dicts.insert(dictionary("", 3)).is_none());
    assert_eq!(dicts.len(), 3);
    assert_eq!(dicts.get(&"b".to_string()).unwrap().len(), 2);
    assert_eq!(dicts.get(&"".to_string()).unwrap().len(), 3);
    assert!(dicts.get(&"c".to_string()).is_none());
    assert_eq!(dicts.keys(), vec!["a".to_string(), "b".to_string(), "".to_string()]);
    let sizes: Vec<usize> = dicts.values().iter().map(|d| d.len()).collect();
    assert_eq!(sizes, vec![1, 2, 3]);
}

#[test]
fn dictionary_with_the_same_title_gives_way() {
    let mut dicts = DictMap::new();
    dicts.insert(dictionary("a", 1));
    dicts.insert(dictionary("b", 2));
    dicts.insert(dictionary("c", 3));
    let replaced = dicts.insert(dictionary("a", 9)).unwrap();
    assert_eq!(replaced.get_title(), "a");
    assert_eq!(replaced.len(), 1);
    assert_eq!(dicts.len(), 3);
    assert_eq!(dicts.get(&"a".to_string()).unwrap().len(), 9);
    assert_eq!(dicts.keys(), vec!["a".to_string(), "b".to_string(), "c".to_string()]);
}
