use vocab_quiz::error::ErrorKind;
use vocab_quiz::program::filemanager::{read_file, save_file};
use vocab_quiz::program::PracticeDirection;
use vocab_quiz::tools::crypt_string::{decrypt_string, encrypt_string, PermutedString};
use vocab_quiz::tools::dict_map::DictMap;
use vocab_quiz::words::dictionary_file::DictData;
use vocab_quiz::words::{Dictionary, FileVersion, Knowledge, ObscurityMode, Word, WordID};

fn word(text: &str, definition: &str, pronunciation: Option<&str>, obscurity: u32) -> Word {
    Word {
        text: text.to_string(),
        definition: definition.to_string(),
        pronunciation: pronunciation.map(|p| p.to_string()),
        obscurity,
    }
}

fn sample_dictionary() -> Dictionary {
    let words = vec![
        word("haus", "house", Some("hows"), 3),
        word("straße", "street", None, 1),
        word("", "", Some(""), 70000),
        word("日本語", "Japanese", Some("nihongo"), u32::MAX),
    ];
    Dictionary::create(words, "Deutsch".to_string(), ObscurityMode::Manual)
}

fn same_dictionary(a: &Dictionary, b: &Dictionary) {
    assert_eq!(a.get_title(), b.get_title());
    assert_eq!(a.len(), b.len());
    for i in 0..a.len() {
        let x = a.get_word_from_id(WordID::from(i));
        let y = b.get_word_from_id(WordID::from(i));
        assert_eq!(x.text, y.text);
        assert_eq!(x.definition, y.definition);
        assert_eq!(x.pronunciation, y.pronunciation);
        assert_eq!(x.obscurity, y.obscurity);
    }
}

#[test]
fn permuting_inverts_and_turns_by_half_a_byte() {
    assert_eq!(encrypt_string("A".to_string()), vec![0xEB]);
    assert_eq!(encrypt_string("AB".to_string()), vec![0xEB, 0xDB]);
    assert_eq!(encrypt_string("1.0".to_string()), vec![0xED, 0x1C, 0xFC]);
    assert_eq!(encrypt_string(String::new()), Vec::<u8>::new());
}

#[test]
fn restoring_gives_back_the_text() {
    for text in ["A", "AB", "1.0", "", "straße", "日本語", "DICTINARYDATA"] {
        let stored = encrypt_string(text.to_string());
        assert_eq!(stored.len(), text.len());
        assert_eq!(decrypt_string(&stored), Some(text.to_string()));
    }
}

#[test]
fn restoring_refuses_what_is_no_text() {
    // the plain bytes would be 0xFF 0xFF
    assert_eq!(decrypt_string(&[0x00, 0x00]), None);
}

#[test]
fn permuted_string_hands_out_its_text() {
    let s = PermutedString::from("straße".to_string());
    assert_eq!(s.as_str(), "straße");
    assert_eq!(s.len(), 7);
    assert_eq!(s.clone().to_string(), "straße".to_string());
}

#[test]
fn envelope_has_the_layout_of_its_three_fields() {
    let mut out = vec![0xAA];
    let n = save_file(&mut out, "AB".to_string(), "A".to_string(), vec![1, 2, 3]).unwrap();
    assert_eq!(out, vec![0xAA, 2, b'A', b'B', 1, 0xEB, 3, 1, 2, 3]);
    assert_eq!(n, 9);
}

#[test]
fn envelope_is_what_postcard_writes_for_the_same_fields() {
    let data: Vec<u8> = (0..300u32).map(|i| (i % 251) as u8).collect();
    let mut out = Vec::new();
    save_file(&mut out, "USER_FILE".to_string(), "0.1".to_string(), data.clone()).unwrap();
    let version = encrypt_string("0.1".to_string());
    let expected = postcard::to_allocvec(&("USER_FILE", version, data)).unwrap();
    assert_eq!(out, expected);
}

#[test]
fn envelope_round_trip() {
    let mut out = Vec::new();
    save_file(&mut out, "HEAD".to_string(), "9.9".to_string(), vec![7; 200]).unwrap();
    out.extend_from_slice(&[1, 2, 3]);
    let file = read_file(&out).unwrap();
    assert_eq!(file.header, "HEAD");
    assert_eq!(file.version.as_str(), "9.9");
    assert_eq!(file.data, vec![7; 200]);
}

#[test]
fn envelope_that_ends_early_does_not_decode() {
    let mut out = Vec::new();
    save_file(&mut out, "HEAD".to_string(), "9.9".to_string(), vec![7; 200]).unwrap();
    out.truncate(out.len() - 1);
    let e = read_file(&out).unwrap_err();
    assert_eq!(e.kind(), ErrorKind::Decode);
    assert_eq!(read_file(&[]).unwrap_err().kind(), ErrorKind::Decode);
    assert_eq!(read_file(&[0x80]).unwrap_err().msg(), "Hit the end of buffer, expected more data");
}

#[test]
fn dictionary_round_trip() {
    let dict = sample_dictionary();
    let mut out = Vec::new();
    dict.save_to(&mut out).unwrap();
    let (loaded, version) = Dictionary::load_from(&out).unwrap();
    assert!(matches!(version, FileVersion::Current));
    same_dictionary(&dict, &loaded);
    assert_eq!(loaded.find_word("haus".to_string()), Some(WordID::from(0)));
    let ids: Vec<usize> = loaded.get_words_leq_score(3).into_iter().map(|id| id.into()).collect();
    assert_eq!(ids, vec![1, 0]);
}

#[test]
fn dictionary_is_what_postcard_writes_for_the_same_fields() {
    let dict = sample_dictionary();
    let mut out = Vec::new();
    dict.save_to(&mut out).unwrap();
    let rows: Vec<(Vec<u8>, Vec<u8>, Option<Vec<u8>>, u32)> = (0..dict.len())
        .map(|i| {
            let w = dict.get_word_from_id(WordID::from(i));
            (
                encrypt_string(w.text.clone()),
                encrypt_string(w.definition.clone()),
                w.pronunciation.clone().map(encrypt_string),
                w.obscurity,
            )
        })
        .collect();
    let words = postcard::to_allocvec(&rows).unwrap();
    let payload = postcard::to_allocvec(&(encrypt_string("Deutsch".to_string()), words)).unwrap();
    let expected =
        postcard::to_allocvec(&("DICTINARYDATA", encrypt_string("1.0".to_string()), payload))
            .unwrap();
    assert_eq!(out, expected);
}

#[test]
fn dictionary_with_wrong_header_has_wrong_format() {
    let mut out = Vec::new();
    save_file(&mut out, "KNOWLEDGEDATA".to_string(), "1.0".to_string(), vec![]).unwrap();
    let e = Dictionary::load_from(&out).unwrap_err();
    assert_eq!(e.kind(), ErrorKind::Format);
    assert_eq!(e.msg(), "Invalid File Header!");
}

#[test]
fn dictionary_with_unknown_version_has_wrong_format() {
    let mut out = Vec::new();
    save_file(&mut out, "DICTINARYDATA".to_string(), "0.9".to_string(), vec![]).unwrap();
    let e = Dictionary::load_from(&out).unwrap_err();
    assert_eq!(e.kind(), ErrorKind::Format);
    assert_eq!(e.take_msg(), "Unknown File Version!".to_string());
}

#[test]
fn dictionary_with_broken_payload_does_not_decode() {
    let mut out = Vec::new();
    save_file(&mut out, "DICTINARYDATA".to_string(), "1.0".to_string(), vec![5, 1, 2]).unwrap();
    assert_eq!(Dictionary::load_from(&out).unwrap_err().kind(), ErrorKind::Decode);
}

fn practiced_knowledge(dict: &Dictionary) -> Knowledge {
    let mut k = Knowledge::create(dict);
    k.set_active_words(40);
    k.practice_at(WordID::from(0), PracticeDirection::Forward, true, 1_700_000_000);
    k.practice_at(WordID::from(0), PracticeDirection::Backward, false, -5);
    k.practice_at(WordID::from(2), PracticeDirection::Forward, true, i64::MAX);
    k.practice_at(WordID::from(3), PracticeDirection::Backward, true, i64::MIN);
    k
}

fn same_knowledge(a: &Knowledge, b: &Knowledge) {
    assert_eq!(a.get_dict().get_name(), b.get_dict().get_name());
    assert_eq!(a.get_active_words(), b.get_active_words());
    assert_eq!(a.len(), b.len());
    for i in 0..a.len() {
        assert_eq!(a.get_word_knowledge(WordID::from(i)), b.get_word_knowledge(WordID::from(i)));
    }
}

#[test]
fn knowledge_round_trip() {
    let dict = sample_dictionary();
    let k = practiced_knowledge(&dict);
    let mut dicts = DictMap::new();
    dicts.insert(dict);
    let mut out = Vec::new();
    let n = k.save_to(&mut out).unwrap();
    assert_eq!(n, out.len());
    let (loaded, version) = Knowledge::load_from(&out, &dicts).unwrap();
    assert!(matches!(version, FileVersion::Current));
    same_knowledge(&k, &loaded);
}

#[test]
fn knowledge_rows_are_what_postcard_writes_for_the_same_fields() {
    let dict = sample_dictionary();
    let k = practiced_knowledge(&dict);
    let mut out = Vec::new();
    k.save_to(&mut out).unwrap();
    let rows: Vec<(usize, Option<i64>, Option<i64>, u64, u64)> = (0..k.len())
        .map(|i| {
            let w = k.get_word_knowledge(WordID::from(i));
            (i, w.last_practice, w.last_practice_reverse, w.half_life, w.half_life_reverse)
        })
        .collect();
    let rows = postcard::to_allocvec(&rows).unwrap();
    let payload =
        postcard::to_allocvec(&(encrypt_string("Deutsch".to_string()), 40usize, rows)).unwrap();
    let expected =
        postcard::to_allocvec(&("KNOWLEDGEDATA", encrypt_string("0.3".to_string()), payload))
            .unwrap();
    assert_eq!(out, expected);
}

#[test]
fn knowledge_of_a_dictionary_that_is_not_loaded_is_refused() {
    let dict = sample_dictionary();
    let k = practiced_knowledge(&dict);
    let mut out = Vec::new();
    k.save_to(&mut out).unwrap();
    let e = Knowledge::load_from(&out, &DictMap::new()).unwrap_err();
    assert_eq!(e.kind(), ErrorKind::Domain);
    assert_eq!(e.msg(), "Dict not found!");
}

fn old_knowledge_file() -> Vec<u8> {
    let rows: Vec<(usize, Option<i64>, u64)> =
        vec![(0, Some(1_600_000_000), 5000), (1, None, 600), (2, Some(-7), 601), (3, None, 0)];
    let rows = postcard::to_allocvec(&rows).unwrap();
    let payload =
        postcard::to_allocvec(&(encrypt_string("Deutsch".to_string()), 12usize, rows)).unwrap();
    let mut out = Vec::new();
    save_file(&mut out, "KNOWLEDGEDATA".to_string(), "0.2".to_string(), payload).unwrap();
    out
}

#[test]
fn old_knowledge_is_brought_forward() {
    let mut dicts = DictMap::new();
    dicts.insert(sample_dictionary());
    let (k, version) = Knowledge::load_from(&old_knowledge_file(), &dicts).unwrap();
    match version {
        FileVersion::Old(tag) => assert_eq!(tag, "0.2"),
        FileVersion::Current => panic!("an old record was taken for a current one"),
    }
    assert_eq!(k.get_active_words(), 12);
    assert_eq!(k.len(), 4);
    let first = k.get_word_knowledge(WordID::from(0));
    assert_eq!(first.last_practice, Some(1_600_000_000));
    assert_eq!(first.last_practice_reverse, None);
    assert_eq!(first.half_life, 5000);
    assert_eq!(first.half_life_reverse, 2800);
    assert_eq!(k.get_word_knowledge(WordID::from(1)).half_life_reverse, 600);
    assert_eq!(k.get_word_knowledge(WordID::from(2)).half_life_reverse, 600);
    assert_eq!(k.get_word_knowledge(WordID::from(3)).half_life_reverse, 300);
}

#[test]
fn bringing_forward_happens_once() {
    let mut dicts = DictMap::new();
    dicts.insert(sample_dictionary());
    let (upgraded, _) = Knowledge::load_from(&old_knowledge_file(), &dicts).unwrap();
    let mut saved = Vec::new();
    upgraded.save_to(&mut saved).unwrap();
    let (again, version) = Knowledge::load_from(&saved, &dicts).unwrap();
    assert!(matches!(version, FileVersion::Current));
    same_knowledge(&upgraded, &again);
    let mut saved_again = Vec::new();
    again.save_to(&mut saved_again).unwrap();
    assert_eq!(saved, saved_again);
}

#[test]
fn knowledge_of_unknown_version_has_wrong_format() {
    let mut out = Vec::new();
    save_file(&mut out, "KNOWLEDGEDATA".to_string(), "0.1".to_string(), vec![]).unwrap();
    let e = Knowledge::load_from(&out, &DictMap::new()).unwrap_err();
    assert_eq!(e.kind(), ErrorKind::Format);
    assert_eq!(e.msg(), "Unknown File Version!");
    let mut out = Vec::new();
    save_file(&mut out, "USER_FILE".to_string(), "0.3".to_string(), vec![]).unwrap();
    let e = Knowledge::load_from(&out, &DictMap::new()).unwrap_err();
    assert_eq!(e.msg(), "Invalid File Header!");
}

#[test]
fn payload_size_is_bounded_by_its_estimate() {
    let data = DictData { name: PermutedString::from("straße".to_string()), data: vec![0; 300] };
    assert_eq!(data.size_of(), 7 + 300 + 20);
    let stored = postcard::to_allocvec(&(encrypt_string("straße".to_string()), vec![0u8; 300])).unwrap();
    assert_eq!(stored.len(), 1 + 7 + 2 + 300);
    assert!(stored.len() <= data.size_of());
}

#[test]
fn knowledge_size_is_bounded_by_its_estimate() {
    let dict = sample_dictionary();
    let mut k = practiced_knowledge(&dict);
    assert_eq!(k.estimate_serialized_size(), 10 + 4 * 52);
    // the longest record: every number at its greatest
    k.practice_at(WordID::from(1), PracticeDirection::Forward, true, i64::MIN);
    k.practice_at(WordID::from(1), PracticeDirection::Forward, true, i64::MAX);
    k.practice_at(WordID::from(1), PracticeDirection::Backward, true, i64::MIN);
    k.practice_at(WordID::from(1), PracticeDirection::Backward, true, i64::MAX);
    let w = k.get_word_knowledge(WordID::from(1));
    assert_eq!(w.half_life, u64::MAX);
    let row = postcard::to_allocvec(&(
        usize::MAX,
        w.last_practice,
        w.last_practice_reverse,
        w.half_life,
        w.half_life_reverse,
    ))
    .unwrap();
    assert_eq!(row.len(), 52);
}
