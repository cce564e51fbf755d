//! Trusted bindings for the content hash, the CRC32 code and zlib inflation.
//!
//! The results of these outside calls are functions of their input bytes
//! alone; each is given a name that the rest of the crate's contracts use.

use vstd::prelude::*;

verus! {

/// The 20-byte SHA-1 digest of a byte sequence.
pub uninterp spec fn sha1_of(data: Seq<u8>) -> Seq<u8>;

/// The CRC32 (IEEE) code of a byte sequence.
pub uninterp spec fn crc32_of(data: Seq<u8>) -> u32;

/// The bytes a zlib stream inflates to, if it is well-formed.
pub uninterp spec fn inflated_of(data: Seq<u8>) -> Option<Seq<u8>>;

/// Relies on `sha1::Sha1::digest` (through the `digest::Digest` trait): the
/// digest is 20 bytes and depends on the input bytes alone.
#[verifier::external_body]
pub(crate) fn sha1_digest(data: &[u8]) -> (r: Vec<u8>)
    ensures
        r@ == sha1_of(data@),
        r@.len() == 20,
{
    <sha1::Sha1 as sha1::Digest>::digest(data).to_vec()
}

/// Relies on `crc32fast::hash`: the CRC32 code depends on the input bytes
/// alone.
#[verifier::external_body]
pub(crate) fn crc32(data: &[u8]) -> (r: u32)
    ensures
        r == crc32_of(data@),
{
    crc32fast::hash(data)
}

/// Relies on `miniz_oxide::inflate::decompress_to_vec_zlib`: the result is a
/// function of the input bytes alone; a malformed stream yields an error.
#[verifier::external_body]
pub(crate) fn inflate(data: &[u8]) -> (r: Option<Vec<u8>>)
    ensures
        match r {
            Some(v) => inflated_of(data@) == Some(v@),
            None => inflated_of(data@) is None,
        },
{
    miniz_oxide::inflate::decompress_to_vec_zlib(data).ok()
}

} // verus!
