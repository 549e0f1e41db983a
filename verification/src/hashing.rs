//! Keccak-256 hashing, the node map's key function.

use vstd::prelude::*;

use tiny_keccak::Hasher;

verus! {

/// The Keccak-256 digest of a byte sequence. The digest is a pure function of
/// the input bytes; nothing further is assumed about its value.
pub uninterp spec fn keccak_of(data: Seq<u8>) -> Seq<u8>;

/// Relies on tiny_keccak's Keccak-256: the digest depends on the input bytes
/// alone and always fills exactly 32 bytes.
#[verifier::external_body]
pub fn keccak256(data: &[u8]) -> (r: Vec<u8>)
    ensures
        r@ == keccak_of(data@),
        r@.len() == 32,
{
    let mut state = tiny_keccak::Keccak::v256();
    state.update(data);
    let mut out = [0u8; 32];
    state.finalize(&mut out);
    out.to_vec()
}

} // verus!
