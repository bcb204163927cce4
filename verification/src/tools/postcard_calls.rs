//! The calls into `postcard`, which writes and reads the variable-length
//! integers of the stored layout.

use vstd::prelude::*;
use crate::tools::wire::{parse_varint, varint};

verus! {

/// `postcard::to_allocvec` on a `u64`: the number as a variable-length
/// integer. The call writes into a vector that grows as needed and cannot
/// fail for a number, so success is claimed. An error would come as its
/// message.
#[verifier::external_body]
pub(crate) fn postcard_u64(value: u64) -> (r: Result<Vec<u8>, String>)
    ensures
        r is Ok,
        r matches Ok(bytes) ==> bytes@ == varint(value as nat),
{
    postcard::to_allocvec(&value).map_err(|e| e.to_string())
}

/// `postcard::take_from_bytes` for a `u64`: the number that stands at the
/// front of `bytes` as a variable-length integer, and the bytes after it; the
/// message of the error where no number stands there.
#[verifier::external_body]
pub(crate) fn postcard_take_u64<'a>(bytes: &'a [u8]) -> (r: Result<(u64, &'a [u8]), String>)
    ensures
        r is Ok <==> parse_varint(bytes@) is Some,
        r matches Ok((value, after)) ==> parse_varint(bytes@) == Some((value, after@)),
{
    postcard::take_from_bytes::<u64>(bytes).map_err(|e| e.to_string())
}

} // verus!
