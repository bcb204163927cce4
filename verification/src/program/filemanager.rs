//! The envelope that every stored record is wrapped in: a header that names
//! the kind of record, the version of its layout, and the payload.

use vstd::prelude::*;
use vstd::utf8::encode_utf8;
use crate::error::{Error, ErrorKind};
use crate::tools::crypt_string::{
    lemma_parse_permuted_text,
    parse_permuted_text,
    permuted_text,
    put_permuted,
    take_permuted,
    PermutedString,
};
use crate::tools::wire::{
    byte_string,
    lemma_parse_byte_string,
    lemma_parse_text,
    parse_byte_string,
    parse_text,
    put_bytes,
    put_text,
    take_bytes,
    take_text,
    text_string,
};

verus! {

/// A stored record, unwrapped.
#[derive(Debug)]
pub struct AppFile {
    /// The kind of record.
    pub header: String,
    /// The version of the layout of the payload.
    pub version: PermutedString,
    /// The payload.
    pub data: Vec<u8>,
}

/// What an [`AppFile`] holds, as mathematical values.
pub struct AppFileView {
    pub header: Seq<char>,
    pub version: Seq<char>,
    pub data: Seq<u8>,
}

impl View for AppFile {
    type V = AppFileView;

    open spec fn view(&self) -> AppFileView {
        AppFileView { header: self.header@, version: self.version@, data: self.data@ }
    }
}

/// A record as it is stored: the header as text, the version as permuted
/// text, the payload as a byte string.
pub open spec fn envelope(header: Seq<char>, version: Seq<char>, data: Seq<u8>) -> Seq<u8> {
    text_string(header) + permuted_text(version) + byte_string(data)
}

/// The record that stands at the front of `bytes`. What follows it is left
/// unread.
pub open spec fn parse_envelope(bytes: Seq<u8>) -> Option<AppFileView> {
    match parse_text(bytes) {
        Some((header, after_header)) => match parse_permuted_text(after_header) {
            Some((version, after_version)) => match parse_byte_string(after_version) {
                Some((data, _)) => Some(AppFileView { header, version, data }),
                None => None,
            },
            None => None,
        },
        None => None,
    }
}

/// The three parts can be stored: none is longer than a length can say.
pub open spec fn storable(header: Seq<char>, version: Seq<char>, data: Seq<u8>) -> bool {
    &&& encode_utf8(header).len() <= u64::MAX
    &&& encode_utf8(version).len() <= u64::MAX
    &&& data.len() <= u64::MAX
}

/// Unwrapping gives back the header, the version and the payload that were
/// wrapped, whatever follows the record.
pub proof fn lemma_parse_envelope(
    header: Seq<char>,
    version: Seq<char>,
    data: Seq<u8>,
    after: Seq<u8>,
)
    requires
        storable(header, version, data),
    ensures
        parse_envelope(envelope(header, version, data) + after) == Some(
            AppFileView { header, version, data },
        ),
{
    let tail2 = byte_string(data) + after;
    let tail1 = permuted_text(version) + tail2;
    assert(envelope(header, version, data) + after =~= text_string(header) + tail1);
    lemma_parse_text(header, tail1);
    lemma_parse_permuted_text(version, tail2);
    lemma_parse_byte_string(data, after);
}

/// Unwraps the record at the front of `readable`.
pub fn read_file(readable: &[u8]) -> (r: Result<AppFile, Error>)
    ensures
        match parse_envelope(readable@) {
            Some(file) => r matches Ok(f) && f@ == file,
            None => r matches Err(e) && e.spec_kind() == ErrorKind::Decode,
        },
{
    let (header, rest) = take_text(readable)?;
    let (version, rest) = take_permuted(rest)?;
    let (data, _) = take_bytes(rest)?;
    Ok(AppFile { header, version: PermutedString::from(version), data: vstd::slice::slice_to_vec(data) })
}

/// Wraps `data` under `header` and `version`, appends the record to
/// `writable` and returns the number of bytes it took.
pub fn save_file(writable: &mut Vec<u8>, header: String, version: String, data: Vec<u8>) -> (r: Result<
    usize,
    Error,
>)
    ensures
        r matches Ok(n) && n == envelope(header@, version@, data@).len(),
        final(writable)@ == old(writable)@ + envelope(header@, version@, data@),
{
    let mut record: Vec<u8> = Vec::new();
    put_text(&mut record, header.as_str())?;
    put_permuted(&mut record, version.as_str())?;
    put_bytes(&mut record, data.as_slice())?;
    assert(record@ =~= envelope(header@, version@, data@));
    let n = record.len();
    crate::tools::wire::append(writable, record.as_slice());
    Ok(n)
}

/// The error for a record of the wrong kind.
pub fn header_error() -> (e: Error)
    ensures
        e.spec_kind() == ErrorKind::Format,
        e.spec_msg() == "Invalid File Header!"@,
{
    Error::new(ErrorKind::Format, "Invalid File Header!")
}

/// The error for a record of a version that nobody knows.
pub fn version_error() -> (e: Error)
    ensures
        e.spec_kind() == ErrorKind::Format,
        e.spec_msg() == "Unknown File Version!"@,
{
    Error::new(ErrorKind::Format, "Unknown File Version!")
}

} // verus!
