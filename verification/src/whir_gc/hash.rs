//! The byte hash of the transcripts, the Merkle trees and the label PRF.
use vstd::prelude::*;

verus! {

/// The Blake3 digest of `input`, in the default (unkeyed) hash mode.
pub uninterp spec fn digest(input: Seq<u8>) -> Seq<u8>;

/// `blake3::hash`: 32 bytes that depend on `input` alone.
#[verifier::external_body]
pub(crate) fn blake3_digest(input: &[u8]) -> (d: [u8; 32])
    ensures
        d@ == digest(input@),
{
    *::blake3::hash(input).as_bytes()
}

} // verus!
