//! Trusted boundary to the outside computations the codec leans on: the
//! CRC-32/IEEE checksum, lower-casing of names, and UTF-8 validation when a
//! name string is rebuilt from buffer bytes.

use vstd::prelude::*;
use vstd::utf8::{encode_utf8, valid_utf8};

verus! {

/// The CRC-32/IEEE checksum of a byte sequence.
pub uninterp spec fn crc32_of(bytes: Seq<u8>) -> u32;

/// Relies on crc::crc32::checksum_ieee: the CRC-32/IEEE checksum, a function
/// of the input bytes alone.
#[verifier::external_body]
pub(crate) fn crc32(bytes: &[u8]) -> (r: u32)
    ensures
        r == crc32_of(bytes@),
{
    crc::crc32::checksum_ieee(bytes)
}

/// The Unicode lowercase mapping of a character sequence.
pub uninterp spec fn lower_of(s: Seq<char>) -> Seq<char>;

/// Relies on str::to_lowercase: the result depends on the characters alone.
#[verifier::external_body]
pub(crate) fn lowercase(s: &str) -> (r: String)
    ensures
        r@ == lower_of(s@),
{
    s.to_lowercase()
}

/// Relies on String::from_utf8: it succeeds exactly when the bytes are valid
/// UTF-8, and then the returned string's UTF-8 encoding is the input bytes.
#[verifier::external_body]
pub(crate) fn string_from_bytes(v: Vec<u8>) -> (r: Option<String>)
    ensures
        r is Some <==> valid_utf8(v@),
        r is Some ==> encode_utf8(r->0@) == v@,
{
    String::from_utf8(v).ok()
}

} // verus!
