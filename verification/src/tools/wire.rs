//! The byte layout of stored values: whole numbers as variable-length
//! integers, byte strings and text with their length in front, optional
//! times with a tag in front. Records are their fields one after the other.

use vstd::prelude::*;
use vstd::slice::slice_subrange;
use vstd::utf8::{decode_utf8, encode_utf8, valid_utf8};
use crate::error::{Error, ErrorKind};
use crate::tools::postcard_calls::{postcard_take_u64, postcard_u64};

verus! {

/// `value` as a variable-length integer: seven bits to a byte, the lowest
/// first, and the top bit set on every byte but the last.
pub open spec fn varint(value: nat) -> Seq<u8>
    decreases value,
{
    if value < 128 {
        seq![value as u8]
    } else {
        seq![(value % 128 + 128) as u8] + varint(value / 128)
    }
}

/// What is read as a variable-length integer from `bytes`, starting at the
/// byte `at`, which is the byte number `at` of the integer: the value of
/// the bytes from there on and their number. Nothing is read where the bytes
/// end before a byte without the top bit, where there are more than ten
/// bytes, or where the tenth byte is more than 1.
pub open spec fn read_varint(bytes: Seq<u8>, at: int) -> Option<(nat, int)>
    decreases 10 - at,
{
    if at < 0 || at >= 10 || at >= bytes.len() {
        None
    } else if bytes[at] < 128 {
        if at == 9 && bytes[at] > 1 {
            None
        } else {
            Some((bytes[at] as nat, 1))
        }
    } else {
        match read_varint(bytes, at + 1) {
            Some((rest, count)) => Some(((bytes[at] - 128 + 128 * rest) as nat, count + 1)),
            None => None,
        }
    }
}

/// The number that stands at the front of `bytes` as a variable-length
/// integer, and the bytes after it.
pub open spec fn parse_varint(bytes: Seq<u8>) -> Option<(u64, Seq<u8>)> {
    match read_varint(bytes, 0) {
        Some((value, count)) => Some((value as u64, bytes.skip(count))),
        None => None,
    }
}

/// The bound on the value that the bytes of a variable-length integer hold
/// from byte number `at` on, when the whole is below 2^64.
pub open spec fn varint_limit(at: int) -> int {
    if at <= 0 {
        0x1_0000_0000_0000_0000
    } else if at == 1 {
        0x200_0000_0000_0000
    } else if at == 2 {
        0x4_0000_0000_0000
    } else if at == 3 {
        0x800_0000_0000
    } else if at == 4 {
        0x10_0000_0000
    } else if at == 5 {
        0x2000_0000
    } else if at == 6 {
        0x40_0000
    } else if at == 7 {
        0x8000
    } else if at == 8 {
        0x100
    } else {
        2
    }
}

/// A variable-length integer has at least one byte.
proof fn lemma_varint_len(value: nat)
    ensures
        varint(value).len() >= 1,
    decreases value,
{
    if value >= 128 {
        lemma_varint_len(value / 128);
    }
}

/// The bytes of a number from byte number `at` on are no more than the ten
/// that a number below 2^64 can have.
pub proof fn lemma_varint_len_bound(value: nat, at: int)
    requires
        0 <= at <= 9,
        value < varint_limit(at),
    ensures
        1 <= varint(value).len() <= 10 - at,
    decreases value,
{
    if value >= 128 {
        lemma_varint_len_bound(value / 128, at + 1);
    }
}

/// Reading finds a number where it was written, whatever stands before and
/// after it.
proof fn lemma_read_varint(before: Seq<u8>, value: nat, after: Seq<u8>)
    requires
        0 <= before.len() <= 9,
        value < varint_limit(before.len() as int),
    ensures
        read_varint(before + varint(value) + after, before.len() as int) == Some(
            (value, varint(value).len() as int),
        ),
    decreases value,
{
    let at = before.len() as int;
    let bytes = before + varint(value) + after;
    lemma_varint_len(value);
    assert(bytes[at] == varint(value)[0]);
    if value >= 128 {
        let head = seq![(value % 128 + 128) as u8];
        let longer = before + head;
        assert(bytes =~= longer + varint(value / 128) + after);
        lemma_read_varint(longer, value / 128, after);
    }
}

/// Parsing gives back a number that was written, and what followed it.
pub proof fn lemma_parse_varint(value: u64, after: Seq<u8>)
    ensures
        parse_varint(varint(value as nat) + after) == Some((value, after)),
{
    lemma_read_varint(Seq::empty(), value as nat, after);
    assert(Seq::<u8>::empty() + varint(value as nat) + after =~= varint(value as nat) + after);
    assert((varint(value as nat) + after).skip(varint(value as nat).len() as int) =~= after);
}

/// What is read as a number is below the bound for its place, and its bytes
/// are no more than ten and all there.
pub proof fn lemma_read_varint_bounds(bytes: Seq<u8>, at: int)
    ensures
        match read_varint(bytes, at) {
            Some((value, count)) => value < varint_limit(at) && 1 <= count <= 10 - at && at + count
                <= bytes.len(),
            None => true,
        },
    decreases 10 - at,
{
    if 0 <= at < 10 && at < bytes.len() && bytes[at] >= 128 {
        lemma_read_varint_bounds(bytes, at + 1);
    }
}

/// A whole number that may be negative, folded onto the numbers from zero:
/// 0, -1, 1, -2, 2 and so on.
pub open spec fn zigzag(value: i64) -> u64 {
    if value >= 0 {
        (2 * value) as u64
    } else {
        (-2 * value - 1) as u64
    }
}

/// The number that `folded` stands for.
pub open spec fn unzigzag(folded: u64) -> i64 {
    if folded % 2 == 0 {
        (folded / 2) as i64
    } else {
        (-(folded / 2) - 1) as i64
    }
}

/// Unfolding gives back what was folded.
pub proof fn lemma_zigzag(value: i64)
    ensures
        unzigzag(zigzag(value)) == value,
{
}

/// A byte string as it is stored: its length, then its bytes.
pub open spec fn byte_string(data: Seq<u8>) -> Seq<u8> {
    varint(data.len()) + data
}

/// The byte string that stands at the front of `bytes`, and the bytes after
/// it.
pub open spec fn parse_byte_string(bytes: Seq<u8>) -> Option<(Seq<u8>, Seq<u8>)> {
    match parse_varint(bytes) {
        Some((len, rest)) => if len <= rest.len() {
            Some((rest.take(len as int), rest.skip(len as int)))
        } else {
            None
        },
        None => None,
    }
}

/// Parsing gives back a byte string that was written, and what followed it.
pub proof fn lemma_parse_byte_string(data: Seq<u8>, after: Seq<u8>)
    requires
        data.len() <= u64::MAX,
    ensures
        parse_byte_string(byte_string(data) + after) == Some((data, after)),
{
    lemma_parse_varint(data.len() as u64, data + after);
    assert(byte_string(data) + after =~= varint(data.len()) + (data + after));
    assert((data + after).take(data.len() as int) =~= data);
    assert((data + after).skip(data.len() as int) =~= after);
}

/// Text as it is stored: the byte string of its UTF-8 form.
pub open spec fn text_string(text: Seq<char>) -> Seq<u8> {
    byte_string(encode_utf8(text))
}

/// The text that stands at the front of `bytes`, and the bytes after it.
pub open spec fn parse_text(bytes: Seq<u8>) -> Option<(Seq<char>, Seq<u8>)> {
    match parse_byte_string(bytes) {
        Some((data, rest)) => if valid_utf8(data) {
            Some((decode_utf8(data), rest))
        } else {
            None
        },
        None => None,
    }
}

/// Parsing gives back a text that was written, and what followed it.
pub proof fn lemma_parse_text(text: Seq<char>, after: Seq<u8>)
    requires
        encode_utf8(text).len() <= u64::MAX,
    ensures
        parse_text(text_string(text) + after) == Some((text, after)),
{
    lemma_parse_byte_string(encode_utf8(text), after);
    vstd::utf8::encode_utf8_valid_utf8(text);
    vstd::utf8::encode_utf8_decode_utf8(text);
}

/// An optional time as it is stored: the byte 0 for none, or the byte 1 and
/// the time, folded, as a variable-length integer.
pub open spec fn time_bytes(time: Option<i64>) -> Seq<u8> {
    match time {
        None => seq![0u8],
        Some(t) => seq![1u8] + varint(zigzag(t) as nat),
    }
}

/// The optional time that stands at the front of `bytes`, and the bytes
/// after it.
pub open spec fn parse_time(bytes: Seq<u8>) -> Option<(Option<i64>, Seq<u8>)> {
    if bytes.len() == 0 {
        None
    } else if bytes[0] == 0 {
        Some((None, bytes.skip(1)))
    } else if bytes[0] == 1 {
        match parse_varint(bytes.skip(1)) {
            Some((folded, rest)) => Some((Some(unzigzag(folded)), rest)),
            None => None,
        }
    } else {
        None
    }
}

/// Parsing gives back an optional time that was written, and what followed
/// it.
pub proof fn lemma_parse_time(time: Option<i64>, after: Seq<u8>)
    ensures
        parse_time(time_bytes(time) + after) == Some((time, after)),
{
    let bytes = time_bytes(time) + after;
    match time {
        None => {
            assert(bytes.skip(1) =~= after);
        },
        Some(t) => {
            assert(bytes.skip(1) =~= varint(zigzag(t) as nat) + after);
            lemma_parse_varint(zigzag(t), after);
            lemma_zigzag(t);
        },
    }
}

/// The items of a list as they are stored: one after the other, each as
/// `write` stores it.
pub open spec fn list_bytes<T>(items: Seq<T>, write: spec_fn(T) -> Seq<u8>) -> Seq<u8>
    decreases items.len(),
{
    if items.len() == 0 {
        Seq::empty()
    } else {
        write(items[0]) + list_bytes(items.skip(1), write)
    }
}

/// The list of `count` items that stands at the front of `bytes`, each read by
/// `read`, and the bytes after it.
pub open spec fn parse_list<T>(
    bytes: Seq<u8>,
    count: nat,
    read: spec_fn(Seq<u8>) -> Option<(T, Seq<u8>)>,
) -> Option<(Seq<T>, Seq<u8>)>
    decreases count,
{
    if count == 0 {
        Some((Seq::empty(), bytes))
    } else {
        match read(bytes) {
            Some((item, rest)) => match parse_list(rest, (count - 1) as nat, read) {
                Some((items, after)) => Some((seq![item] + items, after)),
                None => None,
            },
            None => None,
        }
    }
}

/// A list that was read, with `done` before it.
pub open spec fn joined<T>(done: Seq<T>, read: Option<(Seq<T>, Seq<u8>)>) -> Option<
    (Seq<T>, Seq<u8>),
> {
    match read {
        Some((items, after)) => Some((done + items, after)),
        None => None,
    }
}

/// Reading one more item: what the list is after an item was read from the
/// front, and that there is no list where no item can be read.
pub proof fn lemma_parse_list_step<T>(
    done: Seq<T>,
    bytes: Seq<u8>,
    count: nat,
    read: spec_fn(Seq<u8>) -> Option<(T, Seq<u8>)>,
)
    requires
        count > 0,
    ensures
        match read(bytes) {
            Some((item, rest)) => joined(done, parse_list(bytes, count, read)) == joined(
                done.push(item),
                parse_list(rest, (count - 1) as nat, read),
            ),
            None => parse_list(bytes, count, read) is None,
        },
{
    if let Some((item, rest)) = read(bytes) {
        if let Some((items, after)) = parse_list(rest, (count - 1) as nat, read) {
            assert(done + (seq![item] + items) =~= done.push(item) + items);
        }
    }
}

/// A list with one more item is stored as the list and then the item.
pub proof fn lemma_list_bytes_push<T>(items: Seq<T>, item: T, write: spec_fn(T) -> Seq<u8>)
    ensures
        list_bytes(items.push(item), write) == list_bytes(items, write) + write(item),
    decreases items.len(),
{
    let longer = items.push(item);
    if items.len() == 0 {
        assert(longer.skip(1) =~= Seq::<T>::empty());
        assert(list_bytes(longer, write) =~= write(item) + list_bytes(longer.skip(1), write));
        assert(list_bytes(longer, write) =~= list_bytes(items, write) + write(item));
    } else {
        assert(longer.skip(1) =~= items.skip(1).push(item));
        lemma_list_bytes_push(items.skip(1), item, write);
        assert(list_bytes(longer, write) =~= list_bytes(items, write) + write(item));
    }
}

/// Parsing gives back a list that was written, and what followed it, where
/// reading gives back each of its items.
pub proof fn lemma_parse_list<T>(
    items: Seq<T>,
    write: spec_fn(T) -> Seq<u8>,
    read: spec_fn(Seq<u8>) -> Option<(T, Seq<u8>)>,
    after: Seq<u8>,
)
    requires
        forall|i: int, tail: Seq<u8>|
            0 <= i < items.len() ==> #[trigger] read(write(items[i]) + tail) == Some(
                (items[i], tail),
            ),
    ensures
        parse_list(list_bytes(items, write) + after, items.len(), read) == Some((items, after)),
    decreases items.len(),
{
    if items.len() == 0 {
        assert(list_bytes(items, write) + after =~= after);
        assert(items =~= Seq::<T>::empty());
    } else {
        let rest = items.skip(1);
        let tail = list_bytes(rest, write) + after;
        assert(list_bytes(items, write) + after =~= write(items[0]) + tail);
        assert(read(write(items[0]) + tail) == Some((items[0], tail)));
        assert forall|i: int, t: Seq<u8>| 0 <= i < rest.len() implies #[trigger] read(
            write(rest[i]) + t,
        ) == Some((rest[i], t)) by {
            assert(rest[i] == items[i + 1]);
        }
        lemma_parse_list(rest, write, read, after);
        assert(seq![items[0]] + rest =~= items);
    }
}

/// The error of `String::from_utf8`, which this library only tells from
/// success.
#[verifier::external_type_specification]
#[verifier::external_body]
pub struct ExFromUtf8Error(std::string::FromUtf8Error);

/// `String::from_utf8` gives the text whose UTF-8 form the bytes are, and an
/// error where the bytes are not UTF-8.
pub assume_specification[ String::from_utf8 ](vec: Vec<u8>) -> (r: Result<
    String,
    std::string::FromUtf8Error,
>)
    ensures
        r is Ok <==> valid_utf8(vec@),
        r matches Ok(text) ==> text@ == decode_utf8(vec@),
;

/// The error for bytes that do not have the layout they should have.
pub fn decode_error(message: &str) -> (e: Error)
    ensures
        e.spec_kind() == ErrorKind::Decode,
        e.spec_msg() == message@,
{
    Error::new(ErrorKind::Decode, message)
}

/// The decode error that carries a message of `postcard`.
fn from_postcard(message: String) -> (err: Error)
    ensures
        err.spec_kind() == ErrorKind::Decode,
        err.spec_msg() == message@,
{
    Error::with_message(ErrorKind::Decode, message)
}

/// Appends `data` to `out`.
pub fn append(out: &mut Vec<u8>, data: &[u8])
    ensures
        final(out)@ == old(out)@ + data@,
{
    let mut i: usize = 0;
    while i < data.len()
        invariant
            i <= data.len(),
            out@ == old(out)@ + data@.take(i as int),
        decreases data.len() - i,
    {
        out.push(data[i]);
        assert(data@.take(i + 1) =~= data@.take(i as int).push(data@[i as int]));
        i += 1;
    }
    assert(data@.take(data.len() as int) =~= data@);
}

/// Appends `value` as a variable-length integer.
pub fn put_varint(out: &mut Vec<u8>, value: u64) -> (r: Result<(), Error>)
    ensures
        r is Ok,
        final(out)@ == old(out)@ + varint(value as nat),
{
    match postcard_u64(value) {
        Ok(bytes) => {
            append(out, bytes.as_slice());
            Ok(())
        },
        Err(e) => Err(from_postcard(e)),
    }
}

/// Appends `data` as a byte string.
pub fn put_bytes(out: &mut Vec<u8>, data: &[u8]) -> (r: Result<(), Error>)
    ensures
        r is Ok,
        final(out)@ == old(out)@ + byte_string(data@),
{
    put_varint(out, data.len() as u64)?;
    append(out, data);
    assert(out@ =~= old(out)@ + byte_string(data@));
    Ok(())
}

/// Appends `text` as a text.
pub fn put_text(out: &mut Vec<u8>, text: &str) -> (r: Result<(), Error>)
    ensures
        r is Ok,
        final(out)@ == old(out)@ + text_string(text@),
        encode_utf8(text@).len() <= usize::MAX,
{
    let data = text.as_bytes();
    let n: usize = data.len();
    assert(encode_utf8(text@).len() == n);
    put_bytes(out, data)
}

/// Appends `time` as an optional time.
pub fn put_time(out: &mut Vec<u8>, time: Option<i64>) -> (r: Result<(), Error>)
    ensures
        r is Ok,
        final(out)@ == old(out)@ + time_bytes(time),
{
    match time {
        None => {
            out.push(0u8);
            assert(out@ =~= old(out)@ + time_bytes(time));
            Ok(())
        },
        Some(t) => {
            out.push(1u8);
            let folded: u64 = if t >= 0 {
                (t as u64) * 2
            } else {
                ((-(t + 1)) as u64) * 2 + 1
            };
            put_varint(out, folded)?;
            assert(out@ =~= old(out)@ + time_bytes(time));
            Ok(())
        },
    }
}

/// Reads the number at the front of `bytes`.
pub fn take_varint<'a>(bytes: &'a [u8]) -> (r: Result<(u64, &'a [u8]), Error>)
    ensures
        match parse_varint(bytes@) {
            Some((value, rest)) => r matches Ok((v, after)) && v == value && after@ == rest,
            None => r matches Err(e) && e.spec_kind() == ErrorKind::Decode,
        },
{
    match postcard_take_u64(bytes) {
        Ok(found) => Ok(found),
        Err(e) => Err(from_postcard(e)),
    }
}

/// Reads the number at the front of `bytes`, which must fit a `usize`.
pub fn take_usize<'a>(bytes: &'a [u8]) -> (r: Result<(usize, &'a [u8]), Error>)
    ensures
        match parse_varint(bytes@) {
            Some((value, rest)) => if value <= usize::MAX {
                r matches Ok((v, after)) && v == value && after@ == rest
            } else {
                r matches Err(e) && e.spec_kind() == ErrorKind::Decode
            },
            None => r matches Err(e) && e.spec_kind() == ErrorKind::Decode,
        },
{
    let (value, rest) = take_varint(bytes)?;
    if value > usize::MAX as u64 {
        return Err(decode_error("Found a number that is too big for this platform"));
    }
    Ok((value as usize, rest))
}

/// Reads the byte string at the front of `bytes`.
pub fn take_bytes<'a>(bytes: &'a [u8]) -> (r: Result<(&'a [u8], &'a [u8]), Error>)
    ensures
        match parse_byte_string(bytes@) {
            Some((data, rest)) => r matches Ok((d, after)) && d@ == data && after@ == rest,
            None => r matches Err(e) && e.spec_kind() == ErrorKind::Decode,
        },
{
    let (len, rest) = take_varint(bytes)?;
    if len > rest.len() as u64 {
        return Err(decode_error("Hit the end of buffer, expected more data"));
    }
    let n = len as usize;
    let data = slice_subrange(rest, 0, n);
    let after = slice_subrange(rest, n, rest.len());
    assert(data@ =~= rest@.take(n as int));
    assert(after@ =~= rest@.skip(n as int));
    Ok((data, after))
}

/// Reads the text at the front of `bytes`.
pub fn take_text<'a>(bytes: &'a [u8]) -> (r: Result<(String, &'a [u8]), Error>)
    ensures
        match parse_text(bytes@) {
            Some((text, rest)) => r matches Ok((t, after)) && t@ == text && after@ == rest,
            None => r matches Err(e) && e.spec_kind() == ErrorKind::Decode,
        },
{
    let (data, rest) = take_bytes(bytes)?;
    match String::from_utf8(vstd::slice::slice_to_vec(data)) {
        Ok(text) => Ok((text, rest)),
        Err(_) => Err(decode_error("Tried to parse invalid utf-8")),
    }
}

/// Reads the optional time at the front of `bytes`.
pub fn take_time<'a>(bytes: &'a [u8]) -> (r: Result<(Option<i64>, &'a [u8]), Error>)
    ensures
        match parse_time(bytes@) {
            Some((time, rest)) => r matches Ok((t, after)) && t == time && after@ == rest,
            None => r matches Err(e) && e.spec_kind() == ErrorKind::Decode,
        },
{
    if bytes.len() == 0 {
        return Err(decode_error("Hit the end of buffer, expected more data"));
    }
    let tag = bytes[0];
    let rest = slice_subrange(bytes, 1, bytes.len());
    assert(rest@ =~= bytes@.skip(1));
    if tag == 0 {
        Ok((None, rest))
    } else if tag == 1 {
        let (folded, after) = take_varint(rest)?;
        let time: i64 = if folded % 2 == 0 {
            (folded / 2) as i64
        } else {
            -((folded / 2) as i64) - 1
        };
        Ok((Some(time), after))
    } else {
        Err(decode_error("Found an Option discriminant that wasn't 0 or 1"))
    }
}

} // verus!
