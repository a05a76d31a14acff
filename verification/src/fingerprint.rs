//! Content fingerprints.
//!
//! A file's fingerprint is the lowercase hex rendering of the MD5 digest of
//! its raw bytes. It is used only for cheap equality testing against the
//! persisted index — collision resistance is not a security requirement
//! here. The digest itself is computed by an outside crate; the library
//! names its result and reasons about it purely as a function of the bytes.
use vstd::prelude::*;

verus! {

/// The lowercase hex fingerprint of a byte string, as the MD5 digest
/// determines it. A function of the bytes alone.
pub uninterp spec fn md5_hex_of(bytes: Seq<u8>) -> Seq<u8>;

/// Relies on md5::compute and the `{:x}` rendering of its digest: 32
/// lowercase hex characters determined by the input bytes alone.
#[verifier::external_body]
pub(crate) fn md5_hex(bytes: &Vec<u8>) -> (r: Vec<u8>)
    ensures
        r@ == md5_hex_of(bytes@),
{
    format!("{:x}", md5::compute(bytes.as_slice())).into_bytes()
}

} // verus!
