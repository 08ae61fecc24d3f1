//! zstd framing for everything the pipeline writes to disk: run files, meta
//! files, the duplicates-groups file and filter files.
use vstd::prelude::*;

verus! {

/// What `zstd::stream::decode_all` returns for a byte sequence: the payload
/// of a valid frame sequence, nothing otherwise.
pub uninterp spec fn zstd_unframed(data: Seq<u8>) -> Option<Seq<u8>>;

/// Relies on `zstd::stream::encode_all`: compression is lossless, so
/// `decode_all` recovers exactly the compressed payload.
#[verifier::external_body]
pub(crate) fn zstd_compress(data: &Vec<u8>, level: i32) -> (r: Option<Vec<u8>>)
    ensures
        r matches Some(v) ==> zstd_unframed(v@) == Some(data@),
{
    zstd::stream::encode_all(data.as_slice(), level).ok()
}

/// Relies on `zstd::stream::decode_all`: decompression is a deterministic
/// function of the frame bytes, and fails exactly on invalid frames.
#[verifier::external_body]
pub(crate) fn zstd_decompress(data: &Vec<u8>) -> (r: Option<Vec<u8>>)
    ensures
        r matches Some(v) ==> zstd_unframed(data@) == Some(v@),
        r is None ==> zstd_unframed(data@) is None,
{
    zstd::stream::decode_all(data.as_slice()).ok()
}

} // verus!
