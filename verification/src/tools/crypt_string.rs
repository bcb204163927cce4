//! Text that is stored so that a casual look at the file does not show it:
//! every byte is inverted and the whole is turned by half a byte. This keeps
//! nothing secret from anyone who wants to read it.

use vstd::prelude::*;
use vstd::utf8::{decode_utf8, encode_utf8, valid_utf8};
use crate::error::{Error, ErrorKind};
use crate::tools::wire::{
    byte_string,
    decode_error,
    lemma_parse_byte_string,
    parse_byte_string,
    put_bytes,
    take_bytes,
};

verus! {

/// The stored byte at a place: the low half of the inverted byte of that
/// place, then the high half of the inverted byte of the next place.
pub open spec fn permute_byte(here: u8, next: u8) -> u8 {
    ((!here) << 4) | ((!next) >> 4)
}

/// The bytes as they are stored: each byte takes the place half a byte
/// further to the front, inverted, and the first half byte goes to the end.
pub open spec fn permuted(bytes: Seq<u8>) -> Seq<u8> {
    Seq::new(
        bytes.len(),
        |i: int| permute_byte(bytes[i], bytes[(i + 1) % (bytes.len() as int)]),
    )
}

/// The plain byte at a place: the low half of the inverted stored byte before
/// it, then the high half of the inverted stored byte of that place.
pub open spec fn restore_byte(here: u8, previous: u8) -> u8 {
    ((!here) >> 4) | ((!previous) << 4)
}

/// The plain bytes of stored bytes.
pub open spec fn restored(bytes: Seq<u8>) -> Seq<u8> {
    Seq::new(
        bytes.len(),
        |i: int|
            restore_byte(bytes[i], bytes[(i + bytes.len() - 1) % (bytes.len() as int)]),
    )
}

/// Restoring gives back the bytes that were stored.
pub proof fn lemma_restored_permuted(bytes: Seq<u8>)
    ensures
        restored(permuted(bytes)) == bytes,
{
    let n = bytes.len() as int;
    let stored = permuted(bytes);
    assert forall|i: int| 0 <= i < n implies restored(stored)[i] == bytes[i] by {
        let before = (i + n - 1) % n;
        let after = (i + 1) % n;
        assert(before == if i == 0 {
            n - 1
        } else {
            i - 1
        }) by {
            if i == 0 {
                vstd::arithmetic::div_mod::lemma_small_mod((n - 1) as nat, n as nat);
            } else {
                vstd::arithmetic::div_mod::lemma_fundamental_div_mod_converse(i + n - 1, n, 1, i - 1);
            }
        }
        assert((before + 1) % n == i) by {
            if i == 0 {
                vstd::arithmetic::div_mod::lemma_fundamental_div_mod_converse(n, n, 1, 0);
            } else {
                vstd::arithmetic::div_mod::lemma_small_mod(i as nat, n as nat);
            }
        }
        let a = bytes[i];
        let p = bytes[before];
        let q = bytes[after];
        assert(stored[i] == permute_byte(a, q));
        assert(stored[before] == permute_byte(p, a));
        assert((!(((!a) << 4) | ((!q) >> 4)) >> 4) | (!(((!p) << 4) | ((!a) >> 4)) << 4) == a)
            by (bit_vector);
    }
    assert(restored(stored) =~= bytes);
}

/// The stored form of `string`.
pub fn encrypt_string(string: String) -> (bytes: Vec<u8>)
    ensures
        bytes@ == permuted(encode_utf8(string@)),
{
    let plain = string.as_str().as_bytes();
    let n = plain.len();
    let mut bytes: Vec<u8> = Vec::new();
    let mut i: usize = 0;
    while i < n
        invariant
            i <= n,
            n == plain.len(),
            bytes.len() == i,
            forall|j: int|
                0 <= j < i ==> #[trigger] bytes[j] == permute_byte(plain[j], plain[(j + 1) % (n as int)]),
        decreases n - i,
    {
        let next: usize = if i + 1 == n {
            0
        } else {
            i + 1
        };
        proof {
            if i + 1 == n {
                vstd::arithmetic::div_mod::lemma_fundamental_div_mod_converse(n as int, n as int, 1, 0);
            } else {
                vstd::arithmetic::div_mod::lemma_small_mod((i + 1) as nat, n as nat);
            }
        }
        bytes.push(((!plain[i]) << 4) | ((!plain[next]) >> 4));
        i += 1;
    }
    assert(bytes@ =~= permuted(plain@));
    bytes
}

/// The text whose stored form `string` is, where there is one: the plain
/// bytes must be UTF-8.
pub fn decrypt_string(string: &[u8]) -> (text: Option<String>)
    ensures
        match text {
            Some(t) => valid_utf8(restored(string@)) && t@ == decode_utf8(restored(string@)),
            None => !valid_utf8(restored(string@)),
        },
{
    let n = string.len();
    let mut plain: Vec<u8> = Vec::new();
    let mut i: usize = 0;
    while i < n
        invariant
            i <= n,
            n == string.len(),
            plain.len() == i,
            forall|j: int|
                0 <= j < i ==> #[trigger] plain[j] == restore_byte(
                    string[j],
                    string[(j + n - 1) % (n as int)],
                ),
        decreases n - i,
    {
        let previous: usize = if i == 0 {
            n - 1
        } else {
            i - 1
        };
        proof {
            if i == 0 {
                vstd::arithmetic::div_mod::lemma_small_mod((n - 1) as nat, n as nat);
            } else {
                vstd::arithmetic::div_mod::lemma_fundamental_div_mod_converse(
                    i + n - 1,
                    n as int,
                    1,
                    i - 1,
                );
            }
        }
        plain.push(((!string[i]) >> 4) | ((!string[previous]) << 4));
        i += 1;
    }
    assert(plain@ =~= restored(string@));
    match String::from_utf8(plain) {
        Ok(text) => Some(text),
        Err(_) => None,
    }
}

/// A text that is stored in its permuted form.
#[derive(Debug)]
pub struct PermutedString {
    string: String,
}

impl View for PermutedString {
    type V = Seq<char>;

    closed spec fn view(&self) -> Seq<char> {
        self.string@
    }
}

impl Clone for PermutedString {
    fn clone(&self) -> (s: PermutedString)
        ensures
            s@ == self@,
    {
        PermutedString { string: self.string.clone() }
    }
}

impl PermutedString {
    /// Wraps `string`.
    pub fn from(string: String) -> (s: PermutedString)
        ensures
            s@ == string@,
    {
        PermutedString { string }
    }

    /// The text, taken out.
    pub fn to_string(self) -> (string: String)
        ensures
            string@ == self@,
    {
        self.string
    }

    /// The text, borrowed.
    pub fn as_str(&self) -> (string: &str)
        ensures
            string@ == self@,
    {
        self.string.as_str()
    }

    /// The length of the text in bytes.
    pub fn len(&self) -> (n: usize)
        ensures
            n == encode_utf8(self@).len(),
    {
        self.string.as_str().as_bytes().len()
    }
}

/// A permuted text as it is stored: the byte string of its permuted UTF-8
/// form.
pub open spec fn permuted_text(text: Seq<char>) -> Seq<u8> {
    byte_string(permuted(encode_utf8(text)))
}

/// The permuted text that stands at the front of `bytes`, and the bytes after
/// it.
pub open spec fn parse_permuted_text(bytes: Seq<u8>) -> Option<(Seq<char>, Seq<u8>)> {
    match parse_byte_string(bytes) {
        Some((data, rest)) => if valid_utf8(restored(data)) {
            Some((decode_utf8(restored(data)), rest))
        } else {
            None
        },
        None => None,
    }
}

/// Parsing gives back a permuted text that was written, and what followed it.
pub proof fn lemma_parse_permuted_text(text: Seq<char>, after: Seq<u8>)
    requires
        encode_utf8(text).len() <= u64::MAX,
    ensures
        parse_permuted_text(permuted_text(text) + after) == Some((text, after)),
{
    lemma_parse_byte_string(permuted(encode_utf8(text)), after);
    lemma_restored_permuted(encode_utf8(text));
    vstd::utf8::encode_utf8_valid_utf8(text);
    vstd::utf8::encode_utf8_decode_utf8(text);
}

/// Appends `text` as a permuted text.
pub fn put_permuted(out: &mut Vec<u8>, text: &str) -> (r: Result<(), Error>)
    ensures
        r is Ok,
        final(out)@ == old(out)@ + permuted_text(text@),
        encode_utf8(text@).len() <= usize::MAX,
{
    let stored = encrypt_string(text.to_owned());
    let n: usize = stored.len();
    assert(encode_utf8(text@).len() == n);
    put_bytes(out, stored.as_slice())
}

/// Reads the permuted text at the front of `bytes`.
pub fn take_permuted<'a>(bytes: &'a [u8]) -> (r: Result<(String, &'a [u8]), Error>)
    ensures
        match parse_permuted_text(bytes@) {
            Some((text, rest)) => r matches Ok((t, after)) && t@ == text && after@ == rest,
            None => r matches Err(e) && e.spec_kind() == ErrorKind::Decode,
        },
{
    let (data, rest) = take_bytes(bytes)?;
    match decrypt_string(data) {
        Some(text) => Ok((text, rest)),
        None => Err(decode_error("Tried to parse invalid utf-8")),
    }
}

} // verus!
