//! The content digest used for addresses and transaction identifiers.

use vstd::prelude::*;

verus! {

/// The 32-byte BLAKE3 digest of a byte string. The digest itself is left
/// unspecified: it depends on the input alone, and everything downstream is
/// stated in terms of this name.
pub uninterp spec fn blake3_of(input: Seq<u8>) -> Seq<u8>;

/// Relies on blake3::hash: a pure function of the input bytes, always
/// returning a 32-byte digest.
#[verifier::external_body]
pub(crate) fn blake3_hash32(input: &[u8]) -> (r: [u8; 32])
    ensures
        r@ == blake3_of(input@),
{
    *blake3::hash(input).as_bytes()
}

} // verus!
