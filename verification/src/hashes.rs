//! Stable hashing services: the 64-bit and 32-bit CityHash family used for
//! content hashes, token hashes and bucket hashes, the 16-bit folded path
//! hash, and the MD5 hex digest used to name output files.
//!
//! The hash values themselves come from outside crates; each is given a name
//! (an uninterpreted spec function of the input bytes alone), so every caller
//! can state its result exactly. That the functions depend on their input
//! alone is what makes the hashes stable across runs and processes.
use vstd::prelude::*;

verus! {

use vstd::utf8::encode_utf8;

/// CityHash32 of a byte sequence, as computed by `cityhasher::hash::<u32>`.
pub uninterp spec fn city32(data: Seq<u8>) -> u32;

/// CityHash64 of a byte sequence, as computed by `cityhasher::hash::<u64>`.
pub uninterp spec fn city64(data: Seq<u8>) -> u64;

/// Relies on `cityhasher::hash::<u32>`: CityHash32, a deterministic function
/// of the input bytes alone.
#[verifier::external_body]
pub(crate) fn city_hash_32(data: &[u8]) -> (r: u32)
    ensures
        r == city32(data@),
{
    cityhasher::hash::<u32>(data)
}

/// Relies on `cityhasher::hash::<u64>`: CityHash64, a deterministic function
/// of the input bytes alone.
#[verifier::external_body]
pub(crate) fn city_hash_64(data: &[u8]) -> (r: u64)
    ensures
        r == city64(data@),
{
    cityhasher::hash::<u64>(data)
}

/// The 64-bit content hash of a row's exact text: CityHash64 of its UTF-8
/// bytes. Equal text always gives an equal content hash.
pub open spec fn content_hash_of(text: Seq<char>) -> u64 {
    city64(encode_utf8(text))
}

/// The 32-bit hash of one token, fed to the MinHash permutation family.
pub open spec fn token_hash_of(token: Seq<char>) -> u32 {
    city32(encode_utf8(token))
}

/// Folds a 32-bit hash into 16 bits: high half XOR low half.
pub open spec fn fold16(x: u32) -> u16 {
    ((x >> 16) ^ (x & 0xFFFF)) as u16
}

/// The 16-bit path hash of a canonicalized input path.
pub open spec fn path_hash_of(path: Seq<char>) -> u16 {
    fold16(city32(encode_utf8(path)))
}

/// Computes the content hash of a row's text.
pub fn content_hash(text: &str) -> (r: u64)
    ensures
        r == content_hash_of(text@),
{
    city_hash_64(text.as_bytes())
}

/// Computes the token hash fed to the MinHash permutation family.
pub fn token_hash(token: &str) -> (r: u32)
    ensures
        r == token_hash_of(token@),
{
    city_hash_32(token.as_bytes())
}

/// Computes the 16-bit path hash of a (canonicalized) path.
pub fn hash_path(path: &str) -> (r: u16)
    ensures
        r == path_hash_of(path@),
{
    let x = city_hash_32(path.as_bytes());
    assert(((x >> 16) ^ (x & 0xFFFF)) < 0x10000) by (bit_vector);
    ((x >> 16) ^ (x & 0xFFFF)) as u16
}

/// MD5 digest of a byte sequence, rendered as 32 lowercase hex characters.
pub uninterp spec fn md5_hex_of(data: Seq<u8>) -> Seq<char>;

/// Relies on `md5::compute`: the MD5 digest is a deterministic function of
/// the input bytes alone; its `LowerHex` rendering is 32 hex characters.
#[verifier::external_body]
pub(crate) fn md5_hex(data: &[u8]) -> (r: String)
    ensures
        r@ == md5_hex_of(data@),
        r@.len() == 32,
{
    format!("{:x}", md5::compute(data))
}

} // verus!
