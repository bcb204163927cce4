//! How the knowledge of one dictionary is stored and read back, in the
//! current layout and in the one before it.

use vstd::prelude::*;
use vstd::utf8::encode_utf8;
use crate::error::{Error, ErrorKind};
use crate::program::filemanager::{
    envelope,
    header_error,
    lemma_parse_envelope,
    parse_envelope,
    read_file,
    save_file,
    version_error,
};
use crate::tools::text::same_text;
use crate::tools::crypt_string::{
    lemma_parse_permuted_text,
    parse_permuted_text,
    permuted_text,
    put_permuted,
    take_permuted,
};
use crate::tools::dict_map::{has_title, DictMap};
use crate::tools::wire::{
    byte_string,
    decode_error,
    joined,
    lemma_list_bytes_push,
    lemma_parse_byte_string,
    lemma_parse_list,
    lemma_parse_list_step,
    lemma_parse_time,
    lemma_parse_varint,
    lemma_varint_len_bound,
    list_bytes,
    parse_byte_string,
    parse_list,
    parse_time,
    parse_varint,
    put_bytes,
    put_time,
    put_varint,
    take_bytes,
    take_time,
    take_usize,
    take_varint,
    time_bytes,
    varint,
    zigzag,
};
use crate::words::dictionary::{DictionaryView, FileVersion, WordID};
use crate::words::knowledge::{Knowledge, KnowledgeView};
use crate::words::word_knowledge::v0_2;
use crate::words::word_knowledge::v0_2::KnowledgeData;
use crate::words::word_knowledge::v0_3::WordKnowledge;

verus! {

/// The header of a stored knowledge.
pub const KNOW_HEADER: &'static str = "KNOWLEDGEDATA";

/// The version of the layout in which knowledge is stored.
pub const KNOW_VERSION: &'static str = "0.3";

/// The version of the layout before the current one.
pub const KNOW_VERSION_BEFORE: &'static str = "0.2";

/// The layouts in which the records of words have been stored.
#[derive(Clone, Copy, Debug, PartialEq, Eq, Structural)]
pub enum Layout {
    /// The current layout, with both directions of practice.
    V0_3,
    /// The layout before, with one direction of practice.
    V0_2,
}

/// The layout that a version tag stands for, if it is one that is known.
pub open spec fn layout_of(version: Seq<char>) -> Option<Layout> {
    if version == KNOW_VERSION@ {
        Some(Layout::V0_3)
    } else if version == KNOW_VERSION_BEFORE@ {
        Some(Layout::V0_2)
    } else {
        None
    }
}

/// The layout that the version tag `version` stands for, if it is one that is
/// known.
pub fn layout_for(version: &str) -> (layout: Option<Layout>)
    ensures
        layout == layout_of(version@),
{
    if same_text(version, KNOW_VERSION) {
        Some(Layout::V0_3)
    } else if same_text(version, KNOW_VERSION_BEFORE) {
        Some(Layout::V0_2)
    } else {
        None
    }
}

/// The record of one word as it is stored: the position of the word, the
/// times of the last practice forward and backward, and the two half-lives.
pub open spec fn row_bytes(k: WordKnowledge) -> Seq<u8> {
    varint(k.word_id@ as nat) + time_bytes(k.last_practice) + time_bytes(k.last_practice_reverse)
        + varint(k.half_life as nat) + varint(k.half_life_reverse as nat)
}

/// The record that stands at the front of `bytes`, and the bytes after it.
pub open spec fn parse_row(bytes: Seq<u8>) -> Option<(WordKnowledge, Seq<u8>)> {
    match parse_varint(bytes) {
        Some((id, after_id)) => match parse_time(after_id) {
            Some((last_practice, after_last)) => match parse_time(after_last) {
                Some((last_practice_reverse, after_reverse)) => match parse_varint(after_reverse) {
                    Some((half_life, after_half_life)) => match parse_varint(after_half_life) {
                        Some((half_life_reverse, rest)) => if id <= usize::MAX {
                            Some(
                                (
                                    WordKnowledge {
                                        word_id: WordID::at(id as usize),
                                        last_practice,
                                        last_practice_reverse,
                                        half_life,
                                        half_life_reverse,
                                    },
                                    rest,
                                ),
                            )
                        } else {
                            None
                        },
                        None => None,
                    },
                    None => None,
                },
                None => None,
            },
            None => None,
        },
        None => None,
    }
}

/// The record of one word as it was stored in the layout before: the
/// position of the word, the time of the last practice, and the half-life.
pub open spec fn old_row_bytes(k: v0_2::WordKnowledge) -> Seq<u8> {
    varint(k.word_id@ as nat) + time_bytes(k.last_practice) + varint(k.half_life as nat)
}

/// The record in the layout before that stands at the front of `bytes`, and
/// the bytes after it.
pub open spec fn parse_old_row(bytes: Seq<u8>) -> Option<(v0_2::WordKnowledge, Seq<u8>)> {
    match parse_varint(bytes) {
        Some((id, after_id)) => match parse_time(after_id) {
            Some((last_practice, after_last)) => match parse_varint(after_last) {
                Some((half_life, rest)) => if id <= usize::MAX {
                    Some(
                        (
                            v0_2::WordKnowledge {
                                word_id: WordID::at(id as usize),
                                last_practice,
                                half_life,
                            },
                            rest,
                        ),
                    )
                } else {
                    None
                },
                None => None,
            },
            None => None,
        },
        None => None,
    }
}

/// How a record is written, as a function.
pub open spec fn row_writer() -> spec_fn(WordKnowledge) -> Seq<u8> {
    |k: WordKnowledge| row_bytes(k)
}

/// How a record is read, as a function: in the current layout, or in the
/// layout before and brought forward.
pub open spec fn row_reader(layout: Layout) -> spec_fn(Seq<u8>) -> Option<
    (WordKnowledge, Seq<u8>),
> {
    |bytes: Seq<u8>|
        match layout {
            Layout::V0_3 => parse_row(bytes),
            Layout::V0_2 => match parse_old_row(bytes) {
                Some((k, rest)) => Some((k.converted(), rest)),
                None => None,
            },
        }
}

/// A list of records as it is stored: their number, then the records.
pub open spec fn rows_bytes(rows: Seq<WordKnowledge>) -> Seq<u8> {
    varint(rows.len()) + list_bytes(rows, row_writer())
}

/// The list of records that stands at the front of `bytes`, read in the
/// current layout or in the one before.
pub open spec fn parse_rows(bytes: Seq<u8>, layout: Layout) -> Option<Seq<WordKnowledge>> {
    match parse_varint(bytes) {
        Some((count, rest)) => match parse_list(rest, count as nat, row_reader(layout)) {
            Some((rows, _)) => Some(rows),
            None => None,
        },
        None => None,
    }
}

/// What a [`KnowledgeData`] holds, as mathematical values.
pub struct KnowledgeDataView {
    pub dict_title: Seq<char>,
    pub active_words: usize,
    pub knowledge_data: Seq<u8>,
}

impl View for KnowledgeData {
    type V = KnowledgeDataView;

    open spec fn view(&self) -> KnowledgeDataView {
        KnowledgeDataView {
            dict_title: self.dict_title@,
            active_words: self.active_words,
            knowledge_data: self.knowledge_data@,
        }
    }
}

/// The payload of a stored knowledge: the title of the dictionary, permuted,
/// the cutoff, and the list of records as a byte string.
pub open spec fn payload_bytes(data: KnowledgeDataView) -> Seq<u8> {
    permuted_text(data.dict_title) + varint(data.active_words as nat) + byte_string(
        data.knowledge_data,
    )
}

/// The payload that stands at the front of `bytes`.
pub open spec fn parse_payload(bytes: Seq<u8>) -> Option<KnowledgeDataView> {
    match parse_permuted_text(bytes) {
        Some((dict_title, after_title)) => match parse_varint(after_title) {
            Some((active_words, after_active)) => match parse_byte_string(after_active) {
                Some((knowledge_data, _)) => if active_words <= usize::MAX {
                    Some(
                        KnowledgeDataView {
                            dict_title,
                            active_words: active_words as usize,
                            knowledge_data,
                        },
                    )
                } else {
                    None
                },
                None => None,
            },
            None => None,
        },
        None => None,
    }
}

/// The payload of the knowledge `k`.
pub open spec fn knowledge_data(k: KnowledgeView) -> KnowledgeDataView {
    KnowledgeDataView {
        dict_title: k.dict_title,
        active_words: k.active_words,
        knowledge_data: rows_bytes(k.knowledge),
    }
}

/// A knowledge as it is stored.
#[verifier::opaque]
pub open spec fn knowledge_bytes(k: KnowledgeView) -> Seq<u8> {
    envelope(KNOW_HEADER@, KNOW_VERSION@, payload_bytes(knowledge_data(k)))
}

/// What reading a payload in the current layout, or in the one before, gives
/// when the dictionaries `dicts` are loaded: the knowledge, or the kind of
/// error. A payload that names a dictionary that is not loaded is out of
/// place.
pub open spec fn parse_knowledge_payload(
    bytes: Seq<u8>,
    layout: Layout,
    dicts: Seq<DictionaryView>,
) -> Result<KnowledgeView, ErrorKind> {
    match parse_payload(bytes) {
        None => Err(ErrorKind::Decode),
        Some(data) => if !has_title(dicts, data.dict_title) {
            Err(ErrorKind::Domain)
        } else {
            match parse_rows(data.knowledge_data, layout) {
                Some(rows) => Ok(
                    KnowledgeView {
                        dict_title: data.dict_title,
                        knowledge: rows,
                        active_words: data.active_words,
                    },
                ),
                None => Err(ErrorKind::Decode),
            }
        },
    }
}

/// What reading a stored knowledge from `bytes` gives when the dictionaries
/// `dicts` are loaded: the knowledge and whether it was brought forward from
/// the layout before, or the kind of error. Bytes that are no record, or
/// whose payload is no knowledge, do not decode; a record of another kind or
/// of a version that nobody knows has the wrong format.
#[verifier::opaque]
pub open spec fn parse_knowledge(bytes: Seq<u8>, dicts: Seq<DictionaryView>) -> Result<
    (KnowledgeView, bool),
    ErrorKind,
> {
    match parse_envelope(bytes) {
        None => Err(ErrorKind::Decode),
        Some(file) => if file.header != KNOW_HEADER@ {
            Err(ErrorKind::Format)
        } else {
            match layout_of(file.version) {
                None => Err(ErrorKind::Format),
                Some(layout) => match parse_knowledge_payload(file.data, layout, dicts) {
                    Ok(k) => Ok((k, layout != Layout::V0_3)),
                    Err(kind) => Err(kind),
                },
            }
        },
    }
}

/// The knowledge is small enough for every length in its stored form to be
/// stored. This holds of every knowledge that fits in memory.
pub open spec fn knowledge_storable(k: KnowledgeView) -> bool {
    &&& encode_utf8(k.dict_title).len() <= u64::MAX
    &&& k.knowledge.len() <= u64::MAX
    &&& rows_bytes(k.knowledge).len() <= u64::MAX
    &&& payload_bytes(knowledge_data(k)).len() <= u64::MAX
}

/// Reading gives back a record that was written, and what followed it.
pub proof fn lemma_parse_row(k: WordKnowledge, after: Seq<u8>)
    ensures
        parse_row(row_bytes(k) + after) == Some((k, after)),
{
    let tail4 = varint(k.half_life_reverse as nat) + after;
    let tail3 = varint(k.half_life as nat) + tail4;
    let tail2 = time_bytes(k.last_practice_reverse) + tail3;
    let tail1 = time_bytes(k.last_practice) + tail2;
    assert(row_bytes(k) + after =~= varint(k.word_id@ as nat) + tail1);
    lemma_parse_varint(k.word_id@ as u64, tail1);
    lemma_parse_time(k.last_practice, tail2);
    lemma_parse_time(k.last_practice_reverse, tail3);
    lemma_parse_varint(k.half_life, tail4);
    lemma_parse_varint(k.half_life_reverse, after);
    WordID::lemma_at_view(k.word_id);
}

/// Reading gives back a record of the layout before that was written, and
/// what followed it.
pub proof fn lemma_parse_old_row(k: v0_2::WordKnowledge, after: Seq<u8>)
    ensures
        parse_old_row(old_row_bytes(k) + after) == Some((k, after)),
{
    let tail2 = varint(k.half_life as nat) + after;
    let tail1 = time_bytes(k.last_practice) + tail2;
    assert(old_row_bytes(k) + after =~= varint(k.word_id@ as nat) + tail1);
    lemma_parse_varint(k.word_id@ as u64, tail1);
    lemma_parse_time(k.last_practice, tail2);
    lemma_parse_varint(k.half_life, after);
    WordID::lemma_at_view(k.word_id);
}

/// Reading gives back a list of records that was written.
pub proof fn lemma_parse_rows(rows: Seq<WordKnowledge>)
    requires
        rows.len() <= u64::MAX,
    ensures
        parse_rows(rows_bytes(rows), Layout::V0_3) == Some(rows),
{
    let stored = list_bytes(rows, row_writer());
    lemma_parse_varint(rows.len() as u64, stored);
    assert forall|i: int, tail: Seq<u8>| 0 <= i < rows.len() implies #[trigger] row_reader(Layout::V0_3)(
        row_writer()(rows[i]) + tail,
    ) == Some((rows[i], tail)) by {
        lemma_parse_row(rows[i], tail);
    }
    lemma_parse_list(rows, row_writer(), row_reader(Layout::V0_3), Seq::empty());
    assert(stored + Seq::<u8>::empty() =~= stored);
}

/// Reading gives back a payload that was written.
pub proof fn lemma_parse_payload(data: KnowledgeDataView)
    requires
        encode_utf8(data.dict_title).len() <= u64::MAX,
        data.knowledge_data.len() <= u64::MAX,
    ensures
        parse_payload(payload_bytes(data)) == Some(data),
{
    let tail2 = byte_string(data.knowledge_data);
    let tail1 = varint(data.active_words as nat) + tail2;
    assert(payload_bytes(data) =~= permuted_text(data.dict_title) + tail1);
    lemma_parse_permuted_text(data.dict_title, tail1);
    lemma_parse_varint(data.active_words as u64, tail2);
    lemma_parse_byte_string(data.knowledge_data, Seq::empty());
    assert(tail2 + Seq::<u8>::empty() =~= tail2);
}

/// The header and the version are short.
proof fn lemma_knowledge_tags()
    ensures
        encode_utf8(KNOW_HEADER@).len() <= u64::MAX,
        encode_utf8(KNOW_VERSION@).len() <= u64::MAX,
{
    reveal_strlit("KNOWLEDGEDATA");
    reveal_strlit("0.3");
    vstd::utf8::is_ascii_chars_encode_utf8(KNOW_HEADER@);
    vstd::utf8::is_ascii_chars_encode_utf8(KNOW_VERSION@);
}

/// Reading a knowledge that was stored gives back the knowledge, and says
/// that it was stored in the current layout, where its dictionary is loaded.
pub proof fn lemma_knowledge_round_trip(k: KnowledgeView, dicts: Seq<DictionaryView>)
    requires
        knowledge_storable(k),
        has_title(dicts, k.dict_title),
    ensures
        parse_knowledge(knowledge_bytes(k), dicts) == Ok::<(KnowledgeView, bool), ErrorKind>(
            (k, false),
        ),
{
    reveal(knowledge_bytes);
    reveal(parse_knowledge);
    lemma_knowledge_tags();
    let data = knowledge_data(k);
    lemma_parse_envelope(KNOW_HEADER@, KNOW_VERSION@, payload_bytes(data), Seq::empty());
    assert(knowledge_bytes(k) + Seq::<u8>::empty() =~= knowledge_bytes(k));
    lemma_parse_payload(data);
    lemma_parse_rows(k.knowledge);
}

/// A knowledge that was read, from whatever layout, and is stored again reads
/// back as the same knowledge, now in the current layout: bringing a record
/// forward happens once.
pub proof fn lemma_migration_settles(bytes: Seq<u8>, dicts: Seq<DictionaryView>, k: KnowledgeView)
    requires
        parse_knowledge(bytes, dicts) matches Ok((found, _)) && found == k,
        knowledge_storable(k),
    ensures
        parse_knowledge(knowledge_bytes(k), dicts) == Ok::<(KnowledgeView, bool), ErrorKind>(
            (k, false),
        ),
{
    reveal(parse_knowledge);
    lemma_knowledge_round_trip(k, dicts);
}

/// The most bytes that the record of one word takes when stored.
pub const MAX_ROW_BYTES: usize = 52;

/// The most bytes that a number takes when stored.
pub const MAX_NUMBER_BYTES: usize = 10;

/// A stored record is no longer than `MAX_ROW_BYTES`.
pub proof fn lemma_row_len(k: WordKnowledge)
    ensures
        row_bytes(k).len() <= MAX_ROW_BYTES,
{
    lemma_varint_len_bound(k.word_id@ as nat, 0);
    lemma_varint_len_bound(k.half_life as nat, 0);
    lemma_varint_len_bound(k.half_life_reverse as nat, 0);
    if let Some(t) = k.last_practice {
        lemma_varint_len_bound(zigzag(t) as nat, 0);
    }
    if let Some(t) = k.last_practice_reverse {
        lemma_varint_len_bound(zigzag(t) as nat, 0);
    }
}

/// A stored list of records is no longer than a number and as many records
/// at their longest.
pub proof fn lemma_rows_len(rows: Seq<WordKnowledge>)
    requires
        rows.len() <= u64::MAX,
    ensures
        rows_bytes(rows).len() <= MAX_NUMBER_BYTES + MAX_ROW_BYTES * rows.len(),
{
    lemma_varint_len_bound(rows.len(), 0);
    lemma_list_len(rows);
}

/// Stored records, one after the other, are no longer than as many records
/// at their longest.
proof fn lemma_list_len(rows: Seq<WordKnowledge>)
    ensures
        list_bytes(rows, row_writer()).len() <= MAX_ROW_BYTES * rows.len(),
    decreases rows.len(),
{
    if rows.len() > 0 {
        lemma_row_len(rows[0]);
        lemma_list_len(rows.skip(1));
        assert(MAX_ROW_BYTES * rows.len() == MAX_ROW_BYTES * (rows.len() - 1) + MAX_ROW_BYTES)
            by (nonlinear_arith);
    }
}

/// Appends `k` as a record.
fn put_row(out: &mut Vec<u8>, k: &WordKnowledge) -> (r: Result<(), Error>)
    ensures
        r is Ok,
        final(out)@ == old(out)@ + row_bytes(*k),
{
    put_varint(out, k.word_id.into() as u64)?;
    put_time(out, k.last_practice)?;
    put_time(out, k.last_practice_reverse)?;
    put_varint(out, k.half_life)?;
    put_varint(out, k.half_life_reverse)?;
    assert(out@ =~= old(out)@ + row_bytes(*k));
    Ok(())
}

/// Reads the record at the front of `bytes`, in the current layout or in the
/// one before; a record of the layout before is brought forward.
fn take_row<'a>(bytes: &'a [u8], layout: Layout) -> (r: Result<(WordKnowledge, &'a [u8]), Error>)
    ensures
        match row_reader(layout)(bytes@) {
            Some((k, rest)) => r matches Ok((found, after)) && found == k && after@ == rest,
            None => r matches Err(e) && e.spec_kind() == ErrorKind::Decode,
        },
{
    let (id, rest) = take_varint(bytes)?;
    let (last_practice, rest) = take_time(rest)?;
    if layout == Layout::V0_2 {
        let (half_life, rest) = take_varint(rest)?;
        if id > usize::MAX as u64 {
            return Err(decode_error("Found a number that is too big for this platform"));
        }
        let before = v0_2::WordKnowledge {
            word_id: WordID::from(id as usize),
            last_practice,
            half_life,
        };
        Ok((before.convert_to(), rest))
    } else {
        let (last_practice_reverse, rest) = take_time(rest)?;
        let (half_life, rest) = take_varint(rest)?;
        let (half_life_reverse, rest) = take_varint(rest)?;
        if id > usize::MAX as u64 {
            return Err(decode_error("Found a number that is too big for this platform"));
        }
        Ok(
            (
                WordKnowledge {
                    word_id: WordID::from(id as usize),
                    last_practice,
                    last_practice_reverse,
                    half_life,
                    half_life_reverse,
                },
                rest,
            ),
        )
    }
}

/// Reads the list of records at the front of `bytes`, in the current layout
/// or in the one before.
fn take_rows(bytes: &[u8], layout: Layout) -> (r: Result<Vec<WordKnowledge>, Error>)
    ensures
        match parse_rows(bytes@, layout) {
            Some(rows) => r matches Ok(found) && found@ == rows,
            None => r matches Err(e) && e.spec_kind() == ErrorKind::Decode,
        },
{
    let (count, start) = take_varint(bytes)?;
    let mut rows: Vec<WordKnowledge> = Vec::new();
    let mut rest = start;
    let mut i: u64 = 0;
    while i < count
        invariant
            i <= count,
            parse_varint(bytes@) == Some((count, start@)),
            joined(rows@, parse_list(rest@, (count - i) as nat, row_reader(layout)))
                == parse_list(start@, count as nat, row_reader(layout)),
        decreases count - i,
    {
        proof {
            lemma_parse_list_step(rows@, rest@, (count - i) as nat, row_reader(layout));
        }
        let (k, after) = match take_row(rest, layout) {
            Ok(found) => found,
            Err(e) => {
                return Err(e);
            },
        };
        rows.push(k);
        rest = after;
        i += 1;
    }
    assert(rows@ + Seq::<WordKnowledge>::empty() =~= rows@);
    Ok(rows)
}

/// Reads the payload at the front of `bytes`.
fn take_payload(bytes: &[u8]) -> (r: Result<KnowledgeData, Error>)
    ensures
        match parse_payload(bytes@) {
            Some(data) => r matches Ok(found) && found@ == data,
            None => r matches Err(e) && e.spec_kind() == ErrorKind::Decode,
        },
{
    let (dict_title, rest) = take_permuted(bytes)?;
    let (active_words, rest) = take_usize(rest)?;
    let (data, _) = take_bytes(rest)?;
    Ok(KnowledgeData { dict_title, active_words, knowledge_data: vstd::slice::slice_to_vec(data) })
}

/// The error for a knowledge of a dictionary that is not loaded.
pub fn dict_not_found() -> (e: Error)
    ensures
        e.spec_kind() == ErrorKind::Domain,
        e.spec_msg() == "Dict not found!"@,
{
    Error::new(ErrorKind::Domain, "Dict not found!")
}

/// Reads a payload in the current layout or in the one before.
fn load_payload(bytes: &[u8], layout: Layout, container: &DictMap) -> (r: Result<Knowledge, Error>)
    ensures
        match parse_knowledge_payload(bytes@, layout, container@) {
            Ok(k) => r matches Ok(found) && found@ == k,
            Err(kind) => r matches Err(e) && e.spec_kind() == kind,
        },
{
    let data = take_payload(bytes)?;
    if container.get(&data.dict_title).is_none() {
        return Err(dict_not_found());
    }
    let rows = take_rows(data.knowledge_data.as_slice(), layout)?;
    Ok(Knowledge::from_parts(data.dict_title, rows, data.active_words))
}

impl Knowledge {
    /// An upper bound on the number of bytes that the stored list of records
    /// takes, for setting room aside: no more than `usize::MAX` where the
    /// bound is beyond it.
    pub fn estimate_serialized_size(&self) -> (size: usize)
        ensures
            size == if MAX_NUMBER_BYTES + MAX_ROW_BYTES * self@.knowledge.len() <= usize::MAX {
                MAX_NUMBER_BYTES + MAX_ROW_BYTES * self@.knowledge.len()
            } else {
                usize::MAX as int
            },
            rows_bytes(self@.knowledge).len() <= MAX_NUMBER_BYTES + MAX_ROW_BYTES
                * self@.knowledge.len(),
    {
        let n = self.len();
        proof {
            lemma_rows_len(self@.knowledge);
            assert(MAX_ROW_BYTES * n <= 52 * 0xffff_ffff_ffff_ffff) by (nonlinear_arith)
                requires
                    n <= 0xffff_ffff_ffff_ffff,
                    MAX_ROW_BYTES == 52,
            ;
        }
        let bound: u128 = MAX_NUMBER_BYTES as u128 + (MAX_ROW_BYTES as u128) * (n as u128);
        if bound > usize::MAX as u128 {
            usize::MAX
        } else {
            bound as usize
        }
    }

    /// Appends the stored form of the knowledge to `writable` and returns the
    /// number of bytes it took.
    pub fn save_to(&self, writable: &mut Vec<u8>) -> (r: Result<usize, Error>)
        ensures
            r matches Ok(n) && n == knowledge_bytes(self@).len(),
            final(writable)@ == old(writable)@ + knowledge_bytes(self@),
            knowledge_storable(self@),
            forall|dicts: Seq<DictionaryView>|
                has_title(dicts, self@.dict_title) ==> #[trigger] parse_knowledge(
                    knowledge_bytes(self@),
                    dicts,
                ) == Ok::<(KnowledgeView, bool), ErrorKind>((self@, false)),
    {
        proof {
            reveal(knowledge_bytes);
        }
        let n = self.len();
        let mut rows: Vec<u8> = Vec::new();
        // room for the records is set aside where it can be had
        let _ = rows.try_reserve(self.estimate_serialized_size());
        put_varint(&mut rows, n as u64)?;
        let mut i: usize = 0;
        while i < n
            invariant
                i <= n,
                n == self@.knowledge.len(),
                rows@ == varint(n as nat) + list_bytes(self@.knowledge.take(i as int), row_writer()),
            decreases n - i,
        {
            proof {
                WordID::lemma_view_at(i);
            }
            let k = self.get_word_knowledge(WordID::from(i));
            put_row(&mut rows, k)?;
            proof {
                lemma_list_bytes_push(
                    self@.knowledge.take(i as int),
                    self@.knowledge[i as int],
                    row_writer(),
                );
                assert(self@.knowledge.take(i + 1) =~= self@.knowledge.take(i as int).push(
                    self@.knowledge[i as int],
                ));
                assert(rows@ =~= varint(n as nat) + list_bytes(
                    self@.knowledge.take(i + 1),
                    row_writer(),
                ));
            }
            i += 1;
        }
        assert(self@.knowledge.take(n as int) =~= self@.knowledge);
        let dict = self.get_dict();
        let mut payload: Vec<u8> = Vec::new();
        put_permuted(&mut payload, dict.get_name())?;
        put_varint(&mut payload, self.get_active_words() as u64)?;
        put_bytes(&mut payload, rows.as_slice())?;
        assert(payload@ =~= payload_bytes(knowledge_data(self@)));
        let rows_len: usize = rows.len();
        let payload_len: usize = payload.len();
        assert(rows_bytes(self@.knowledge).len() == rows_len);
        proof {
            assert forall|dicts: Seq<DictionaryView>|
                has_title(dicts, self@.dict_title) implies #[trigger] parse_knowledge(
                knowledge_bytes(self@),
                dicts,
            ) == Ok::<(KnowledgeView, bool), ErrorKind>((self@, false)) by {
                lemma_knowledge_round_trip(self@, dicts);
            }
        }
        save_file(writable, KNOW_HEADER.to_owned(), KNOW_VERSION.to_owned(), payload)
    }

    /// Reads a stored knowledge from `readable`, and says in which version it
    /// was stored. The dictionary it belongs to must be in `container`.
    pub fn load_from(readable: &[u8], container: &DictMap) -> (r: Result<
        (Knowledge, FileVersion),
        Error,
    >)
        ensures
            match parse_knowledge(readable@, container@) {
                Ok((k, migrated)) => r matches Ok((found, version)) && found@ == k && match version {
                    FileVersion::Current => !migrated,
                    FileVersion::Old(tag) => migrated && tag@ == KNOW_VERSION_BEFORE@,
                },
                Err(kind) => r matches Err(e) && e.spec_kind() == kind,
            },
    {
        proof {
            reveal(parse_knowledge);
        }
        let file = read_file(readable)?;
        if !same_text(file.header.as_str(), KNOW_HEADER) {
            return Err(header_error());
        }
        match layout_for(file.version.as_str()) {
            None => Err(version_error()),
            Some(Layout::V0_3) => {
                let k = load_payload(file.data.as_slice(), Layout::V0_3, container)?;
                Ok((k, FileVersion::Current))
            },
            Some(Layout::V0_2) => {
                let k = load_payload(file.data.as_slice(), Layout::V0_2, container)?;
                Ok((k, FileVersion::Old(KNOW_VERSION_BEFORE.to_owned())))
            },
        }
    }
}

} // verus!
