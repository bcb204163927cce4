//! How a dictionary is stored and read back.

use vstd::prelude::*;
use vstd::utf8::encode_utf8;
use crate::error::{Error, ErrorKind};
use crate::program::filemanager::{
    envelope,
    header_error,
    lemma_parse_envelope,
    parse_envelope,
    read_file,
    save_file,
    version_error,
};
use crate::tools::text::same_text;
use crate::tools::crypt_string::{
    lemma_parse_permuted_text,
    parse_permuted_text,
    permuted_text,
    put_permuted,
    take_permuted,
    PermutedString,
};
use crate::tools::wire::{
    byte_string,
    decode_error,
    joined,
    lemma_list_bytes_push,
    lemma_parse_byte_string,
    lemma_parse_list,
    lemma_parse_list_step,
    lemma_parse_varint,
    lemma_varint_len_bound,
    list_bytes,
    parse_byte_string,
    parse_list,
    parse_varint,
    put_bytes,
    put_varint,
    take_bytes,
    take_varint,
    varint,
};
use crate::words::dictionary::{Dictionary, DictionaryView, FileVersion, ObscurityMode, WordID};
use crate::words::word::{Word, WordView};

verus! {

/// The header of a stored dictionary.
pub const DICT_HEADER: &'static str = "DICTINARYDATA";

/// The version of the layout in which dictionaries are stored.
pub const DICT_VERSION: &'static str = "1.0";

/// An optional text as it is stored: the byte 0 for none, or the byte 1 and
/// the text, permuted.
pub open spec fn optional_text(text: Option<Seq<char>>) -> Seq<u8> {
    match text {
        None => seq![0u8],
        Some(t) => seq![1u8] + permuted_text(t),
    }
}

/// The optional text that stands at the front of `bytes`, and the bytes
/// after it.
pub open spec fn parse_optional_text(bytes: Seq<u8>) -> Option<(Option<Seq<char>>, Seq<u8>)> {
    if bytes.len() == 0 {
        None
    } else if bytes[0] == 0 {
        Some((None, bytes.skip(1)))
    } else if bytes[0] == 1 {
        match parse_permuted_text(bytes.skip(1)) {
            Some((text, rest)) => Some((Some(text), rest)),
            None => None,
        }
    } else {
        None
    }
}

/// A word as it is stored: text, definition and pronunciation, permuted, and
/// the obscurity.
pub open spec fn word_bytes(w: WordView) -> Seq<u8> {
    permuted_text(w.text) + permuted_text(w.definition) + optional_text(w.pronunciation) + varint(
        w.obscurity as nat,
    )
}

/// The word that stands at the front of `bytes`, and the bytes after it.
pub open spec fn parse_word(bytes: Seq<u8>) -> Option<(WordView, Seq<u8>)> {
    match parse_permuted_text(bytes) {
        Some((text, after_text)) => match parse_permuted_text(after_text) {
            Some((definition, after_definition)) => match parse_optional_text(after_definition) {
                Some((pronunciation, after_pronunciation)) => match parse_varint(
                    after_pronunciation,
                ) {
                    Some((obscurity, rest)) => if obscurity <= u32::MAX {
                        Some(
                            (
                                WordView {
                                    text,
                                    definition,
                                    pronunciation,
                                    obscurity: obscurity as u32,
                                },
                                rest,
                            ),
                        )
                    } else {
                        None
                    },
                    None => None,
                },
                None => None,
            },
            None => None,
        },
        None => None,
    }
}

/// How a word is written, as a function.
pub open spec fn word_writer() -> spec_fn(WordView) -> Seq<u8> {
    |w: WordView| word_bytes(w)
}

/// How a word is read, as a function.
pub open spec fn word_reader() -> spec_fn(Seq<u8>) -> Option<(WordView, Seq<u8>)> {
    |bytes: Seq<u8>| parse_word(bytes)
}

/// A list of words as it is stored: their number, then the words.
pub open spec fn words_bytes(words: Seq<WordView>) -> Seq<u8> {
    varint(words.len()) + list_bytes(words, word_writer())
}

/// The list of words that stands at the front of `bytes`.
pub open spec fn parse_words(bytes: Seq<u8>) -> Option<Seq<WordView>> {
    match parse_varint(bytes) {
        Some((count, rest)) => match parse_list(rest, count as nat, word_reader()) {
            Some((words, _)) => Some(words),
            None => None,
        },
        None => None,
    }
}

/// The payload of a stored dictionary: the title, permuted, and the list of
/// words as a byte string.
pub open spec fn dictionary_payload(d: DictionaryView) -> Seq<u8> {
    permuted_text(d.title) + byte_string(words_bytes(d.words))
}

/// The dictionary whose payload stands at the front of `bytes`.
pub open spec fn parse_dictionary_payload(bytes: Seq<u8>) -> Option<DictionaryView> {
    match parse_permuted_text(bytes) {
        Some((title, rest)) => match parse_byte_string(rest) {
            Some((data, _)) => match parse_words(data) {
                Some(words) => Some(DictionaryView { title, words }),
                None => None,
            },
            None => None,
        },
        None => None,
    }
}

/// A dictionary as it is stored.
pub open spec fn dictionary_bytes(d: DictionaryView) -> Seq<u8> {
    envelope(DICT_HEADER@, DICT_VERSION@, dictionary_payload(d))
}

/// What reading a stored dictionary from `bytes` gives: the dictionary, or
/// the kind of error. Bytes that are no record, or whose payload is no
/// dictionary, do not decode; a record of another kind or of a version that
/// is not the current one has the wrong format.
pub open spec fn parse_dictionary(bytes: Seq<u8>) -> Result<DictionaryView, ErrorKind> {
    match parse_envelope(bytes) {
        None => Err(ErrorKind::Decode),
        Some(file) => if file.header != DICT_HEADER@ || file.version != DICT_VERSION@ {
            Err(ErrorKind::Format)
        } else {
            match parse_dictionary_payload(file.data) {
                Some(d) => Ok(d),
                None => Err(ErrorKind::Decode),
            }
        },
    }
}

/// The texts of the word are short enough for their lengths to be stored.
pub open spec fn word_storable(w: WordView) -> bool {
    &&& encode_utf8(w.text).len() <= u64::MAX
    &&& encode_utf8(w.definition).len() <= u64::MAX
    &&& w.pronunciation matches Some(p) ==> encode_utf8(p).len() <= u64::MAX
}

/// The dictionary is small enough for every length in its stored form to be
/// stored. This holds of every dictionary that fits in memory.
pub open spec fn dictionary_storable(d: DictionaryView) -> bool {
    &&& encode_utf8(d.title).len() <= u64::MAX
    &&& d.words.len() <= u64::MAX
    &&& forall|i: int| 0 <= i < d.words.len() ==> word_storable(#[trigger] d.words[i])
    &&& words_bytes(d.words).len() <= u64::MAX
    &&& dictionary_payload(d).len() <= u64::MAX
}

/// Reading gives back a word that was written, and what followed it.
pub proof fn lemma_parse_word(w: WordView, after: Seq<u8>)
    requires
        word_storable(w),
    ensures
        parse_word(word_bytes(w) + after) == Some((w, after)),
{
    let tail3 = varint(w.obscurity as nat) + after;
    let tail2 = optional_text(w.pronunciation) + tail3;
    let tail1 = permuted_text(w.definition) + tail2;
    assert(word_bytes(w) + after =~= permuted_text(w.text) + tail1);
    lemma_parse_permuted_text(w.text, tail1);
    lemma_parse_permuted_text(w.definition, tail2);
    match w.pronunciation {
        None => {
            assert(tail2.skip(1) =~= tail3);
        },
        Some(p) => {
            assert(tail2.skip(1) =~= permuted_text(p) + tail3);
            lemma_parse_permuted_text(p, tail3);
        },
    }
    lemma_parse_varint(w.obscurity as u64, after);
}

/// The header and the version are short.
proof fn lemma_dictionary_tags()
    ensures
        encode_utf8(DICT_HEADER@).len() <= u64::MAX,
        encode_utf8(DICT_VERSION@).len() <= u64::MAX,
{
    reveal_strlit("DICTINARYDATA");
    reveal_strlit("1.0");
    vstd::utf8::is_ascii_chars_encode_utf8(DICT_HEADER@);
    vstd::utf8::is_ascii_chars_encode_utf8(DICT_VERSION@);
}

/// Reading gives back a list of words that was written.
pub proof fn lemma_parse_words(words: Seq<WordView>)
    requires
        words.len() <= u64::MAX,
        forall|i: int| 0 <= i < words.len() ==> word_storable(#[trigger] words[i]),
    ensures
        parse_words(words_bytes(words)) == Some(words),
{
    let rows = list_bytes(words, word_writer());
    lemma_parse_varint(words.len() as u64, rows);
    assert forall|i: int, tail: Seq<u8>| 0 <= i < words.len() implies #[trigger] word_reader()(
        word_writer()(words[i]) + tail,
    ) == Some((words[i], tail)) by {
        lemma_parse_word(words[i], tail);
    }
    lemma_parse_list(words, word_writer(), word_reader(), Seq::empty());
    assert(rows + Seq::<u8>::empty() =~= rows);
}

/// Reading gives back a dictionary whose payload was written.
pub proof fn lemma_parse_dictionary_payload(d: DictionaryView)
    requires
        dictionary_storable(d),
    ensures
        parse_dictionary_payload(dictionary_payload(d)) == Some(d),
{
    let stored_words = words_bytes(d.words);
    lemma_parse_permuted_text(d.title, byte_string(stored_words));
    lemma_parse_byte_string(stored_words, Seq::empty());
    assert(byte_string(stored_words) + Seq::<u8>::empty() =~= byte_string(stored_words));
    lemma_parse_words(d.words);
}

/// Reading a dictionary that was stored gives back the dictionary.
pub proof fn lemma_dictionary_round_trip(d: DictionaryView)
    requires
        dictionary_storable(d),
    ensures
        parse_dictionary(dictionary_bytes(d)) == Ok::<DictionaryView, ErrorKind>(d),
{
    lemma_dictionary_tags();
    let payload = dictionary_payload(d);
    lemma_parse_envelope(DICT_HEADER@, DICT_VERSION@, payload, Seq::empty());
    assert(dictionary_bytes(d) + Seq::<u8>::empty() =~= dictionary_bytes(d));
    lemma_parse_dictionary_payload(d);
}

/// Appends `text` as an optional text.
fn put_optional_text(out: &mut Vec<u8>, text: &Option<String>) -> (r: Result<(), Error>)
    ensures
        r is Ok,
        final(out)@ == old(out)@ + optional_text(
            match *text {
                Some(t) => Some(t@),
                None => None,
            },
        ),
        *text matches Some(t) ==> encode_utf8(t@).len() <= usize::MAX,
{
    match text {
        None => {
            out.push(0u8);
            assert(out@ =~= old(out)@ + seq![0u8]);
            Ok(())
        },
        Some(t) => {
            out.push(1u8);
            put_permuted(out, t.as_str())?;
            assert(out@ =~= old(out)@ + (seq![1u8] + permuted_text(t@)));
            Ok(())
        },
    }
}

/// Reads the optional text at the front of `bytes`.
fn take_optional_text<'a>(bytes: &'a [u8]) -> (r: Result<(Option<String>, &'a [u8]), Error>)
    ensures
        match parse_optional_text(bytes@) {
            Some((text, rest)) => r matches Ok((t, after)) && after@ == rest && match t {
                Some(s) => text == Some(s@),
                None => text is None,
            },
            None => r matches Err(e) && e.spec_kind() == ErrorKind::Decode,
        },
{
    if bytes.len() == 0 {
        return Err(decode_error("Hit the end of buffer, expected more data"));
    }
    let tag = bytes[0];
    let rest = vstd::slice::slice_subrange(bytes, 1, bytes.len());
    assert(rest@ =~= bytes@.skip(1));
    if tag == 0 {
        Ok((None, rest))
    } else if tag == 1 {
        let (text, after) = take_permuted(rest)?;
        Ok((Some(text), after))
    } else {
        Err(decode_error("Found an Option discriminant that wasn't 0 or 1"))
    }
}

/// Appends `w` as a word.
fn put_word(out: &mut Vec<u8>, w: &Word) -> (r: Result<(), Error>)
    ensures
        r is Ok,
        final(out)@ == old(out)@ + word_bytes(w@),
        word_storable(w@),
{
    put_permuted(out, w.text.as_str())?;
    put_permuted(out, w.definition.as_str())?;
    put_optional_text(out, &w.pronunciation)?;
    put_varint(out, w.obscurity as u64)?;
    assert(out@ =~= old(out)@ + word_bytes(w@));
    Ok(())
}

/// Reads the word at the front of `bytes`.
fn take_word<'a>(bytes: &'a [u8]) -> (r: Result<(Word, &'a [u8]), Error>)
    ensures
        match parse_word(bytes@) {
            Some((w, rest)) => r matches Ok((word, after)) && word@ == w && after@ == rest,
            None => r matches Err(e) && e.spec_kind() == ErrorKind::Decode,
        },
{
    let (text, rest) = take_permuted(bytes)?;
    let (definition, rest) = take_permuted(rest)?;
    let (pronunciation, rest) = take_optional_text(rest)?;
    let (obscurity, rest) = take_varint(rest)?;
    if obscurity > u32::MAX as u64 {
        return Err(decode_error("Found a varint that didn't terminate."));
    }
    Ok((Word { text, definition, pronunciation, obscurity: obscurity as u32 }, rest))
}

/// The payload of a stored dictionary: the title, and the encoded list of
/// words.
#[derive(Debug)]
pub struct DictData {
    pub name: PermutedString,
    pub data: Vec<u8>,
}

/// The most bytes that a length takes when stored.
pub const MAX_LENGTH_BYTES: usize = 10;

impl DictData {
    /// The bytes of this payload as it is stored.
    pub open spec fn stored(&self) -> Seq<u8> {
        permuted_text(self.name@) + byte_string(self.data@)
    }

    /// The bytes of the title and of the list and two lengths at their
    /// longest.
    pub open spec fn size_bound(&self) -> int {
        encode_utf8(self.name@).len() + self.data@.len() + 2 * MAX_LENGTH_BYTES
    }

    /// An upper bound on the number of bytes that the stored payload takes,
    /// for setting room aside; no more than `usize::MAX` where the bound is
    /// beyond it.
    pub fn size_of(&self) -> (size: usize)
        ensures
            size == if self.size_bound() <= usize::MAX {
                self.size_bound()
            } else {
                usize::MAX as int
            },
            self.stored().len() <= self.size_bound(),
    {
        let name_len: usize = self.name.len();
        let data_len: usize = self.data.len();
        proof {
            lemma_varint_len_bound(name_len as nat, 0);
            lemma_varint_len_bound(data_len as nat, 0);
        }
        let size: u128 = name_len as u128 + data_len as u128 + 2 * (MAX_LENGTH_BYTES as u128);
        if size > usize::MAX as u128 {
            usize::MAX
        } else {
            size as usize
        }
    }
}

/// The views of a list of words.
pub open spec fn word_views(words: Seq<Word>) -> Seq<WordView> {
    Seq::new(words.len(), |i: int| words[i]@)
}

/// Reads the list of words at the front of `bytes`.
fn take_words(bytes: &[u8]) -> (r: Result<Vec<Word>, Error>)
    ensures
        match parse_words(bytes@) {
            Some(words) => r matches Ok(ws) && word_views(ws@) == words,
            None => r matches Err(e) && e.spec_kind() == ErrorKind::Decode,
        },
{
    let (count, start) = take_varint(bytes)?;
    let mut words: Vec<Word> = Vec::new();
    let mut rest = start;
    let mut i: u64 = 0;
    while i < count
        invariant
            i <= count,
            parse_varint(bytes@) == Some((count, start@)),
            joined(word_views(words@), parse_list(rest@, (count - i) as nat, word_reader()))
                == parse_list(start@, count as nat, word_reader()),
        decreases count - i,
    {
        proof {
            lemma_parse_list_step(word_views(words@), rest@, (count - i) as nat, word_reader());
        }
        let ghost before = word_views(words@);
        assert(word_reader()(rest@) == parse_word(rest@));
        let (w, after) = match take_word(rest) {
            Ok(found) => found,
            Err(e) => {
                return Err(e);
            },
        };
        words.push(w);
        assert(word_views(words@) =~= before.push(w@));
        rest = after;
        i += 1;
    }
    assert(word_views(words@) + Seq::<WordView>::empty() =~= word_views(words@));
    Ok(words)
}

impl Dictionary {
    /// Appends the stored form of the dictionary to `writable`. What is
    /// written reads back as this dictionary.
    pub fn save_to(&self, writable: &mut Vec<u8>) -> (r: Result<(), Error>)
        ensures
            r is Ok,
            final(writable)@ == old(writable)@ + dictionary_bytes(self@),
            parse_dictionary(dictionary_bytes(self@)) == Ok::<DictionaryView, ErrorKind>(self@),
    {
        let n = self.len();
        let mut rows: Vec<u8> = Vec::new();
        put_varint(&mut rows, n as u64)?;
        let mut i: usize = 0;
        while i < n
            invariant
                i <= n,
                n == self@.words.len(),
                rows@ == varint(n as nat) + list_bytes(self@.words.take(i as int), word_writer()),
                forall|j: int| 0 <= j < i ==> word_storable(#[trigger] self@.words[j]),
            decreases n - i,
        {
            proof {
                WordID::lemma_view_at(i);
            }
            let w = self.get_word_from_id(WordID::from(i));
            let ghost sofar = rows@;
            put_word(&mut rows, w)?;
            proof {
                lemma_list_bytes_push(self@.words.take(i as int), self@.words[i as int], word_writer());
                assert(self@.words.take(i + 1) =~= self@.words.take(i as int).push(
                    self@.words[i as int],
                ));
                assert(rows@ =~= varint(n as nat) + list_bytes(
                    self@.words.take(i + 1),
                    word_writer(),
                ));
            }
            i += 1;
        }
        assert(self@.words.take(n as int) =~= self@.words);
        let rows_len: usize = rows.len();
        let data = DictData { name: PermutedString::from(self.get_title().to_owned()), data: rows };
        let mut payload: Vec<u8> = Vec::new();
        // room for the payload is set aside where it can be had
        let _ = payload.try_reserve(data.size_of());
        put_permuted(&mut payload, data.name.as_str())?;
        put_bytes(&mut payload, data.data.as_slice())?;
        assert(payload@ =~= dictionary_payload(self@));
        let payload_len: usize = payload.len();
        proof {
            assert(data.data@ =~= words_bytes(self@.words));
            assert(words_bytes(self@.words).len() == rows_len);
            assert(dictionary_payload(self@).len() == payload_len);
            lemma_dictionary_round_trip(self@);
        }
        save_file(writable, DICT_HEADER.to_owned(), DICT_VERSION.to_owned(), payload)?;
        Ok(())
    }

    /// Reads a stored dictionary from `readable`, and says in which version
    /// it was stored.
    pub fn load_from(readable: &[u8]) -> (r: Result<(Dictionary, FileVersion), Error>)
        ensures
            match parse_dictionary(readable@) {
                Ok(d) => r matches Ok((dict, version)) && dict@ == d && version is Current,
                Err(kind) => r matches Err(e) && e.spec_kind() == kind,
            },
            r matches Err(e) ==> (e.spec_kind() == ErrorKind::Format ==> e.spec_msg() == (
            if parse_envelope(readable@)->0.header != DICT_HEADER@ {
                "Invalid File Header!"@
            } else {
                "Unknown File Version!"@
            })),
    {
        let file = read_file(readable)?;
        if !same_text(file.header.as_str(), DICT_HEADER) {
            return Err(header_error());
        }
        if !same_text(file.version.as_str(), DICT_VERSION) {
            return Err(version_error());
        }
        let (name, rest) = take_permuted(file.data.as_slice())?;
        let (data, _) = take_bytes(rest)?;
        let words = take_words(data)?;
        let ghost views = word_views(words@);
        let dict = Dictionary::create(words, name, ObscurityMode::Manual);
        assert(dict@.words =~= views);
        Ok((dict, FileVersion::Current))
    }
}

} // verus!
