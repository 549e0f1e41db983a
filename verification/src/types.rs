//! Plain byte-level data model: addresses are 20 raw bytes, hashes, storage
//! keys and 256-bit words are 32 raw bytes, big-endian on the wire.

use vstd::prelude::*;

verus! {

/// A 20-byte account address.
pub open spec fn is_address(s: Seq<u8>) -> bool {
    s.len() == 20
}

/// A 32-byte value: a hash, a storage key, or a big-endian 256-bit word.
pub open spec fn is_word(s: Seq<u8>) -> bool {
    s.len() == 32
}

/// The all-zero 256-bit word.
pub open spec fn zero_word() -> Seq<u8> {
    Seq::new(32, |i: int| 0u8)
}

/// The 32-byte big-endian encoding of a 64-bit value.
pub open spec fn word_of_u64(n: u64) -> Seq<u8> {
    Seq::new(
        32,
        |i: int| if i < 24 { 0u8 } else { ((n >> (((31 - i) * 8) as u64)) & 0xff) as u8 },
    )
}

/// Builds the all-zero word.
pub fn make_zero_word() -> (r: Vec<u8>)
    ensures
        r@ == zero_word(),
{
    let mut r: Vec<u8> = Vec::new();
    let mut i: usize = 0;
    while i < 32
        invariant
            i <= 32,
            r@.len() == i,
            forall|j: int| 0 <= j < i ==> r@[j] == 0u8,
        decreases 32 - i,
    {
        r.push(0u8);
        i = i + 1;
    }
    proof {
        assert(r@ =~= zero_word());
    }
    r
}

/// Builds the 32-byte big-endian word that carries a 64-bit value.
pub fn make_word_of_u64(n: u64) -> (r: Vec<u8>)
    ensures
        r@ == word_of_u64(n),
{
    let mut r: Vec<u8> = Vec::new();
    let mut i: usize = 0;
    while i < 24
        invariant
            i <= 24,
            r@.len() == i,
            forall|j: int| 0 <= j < i ==> r@[j] == 0u8,
        decreases 24 - i,
    {
        r.push(0u8);
        i = i + 1;
    }
    let mut i: usize = 24;
    while i < 32
        invariant
            24 <= i <= 32,
            r@.len() == i,
            forall|j: int| 0 <= j < 24 ==> r@[j] == 0u8,
            forall|j: int|
                24 <= j < i ==> r@[j] == ((n >> (((31 - j) * 8) as u64)) & 0xff) as u8,
        decreases 32 - i,
    {
        let shift: u64 = ((31 - i) * 8) as u64;
        r.push(((n >> shift) & 0xff) as u8);
        i = i + 1;
    }
    proof {
        assert(r@ =~= word_of_u64(n));
    }
    r
}

/// True when a word is all zero, as `eth_getProof`'s `storage_hash` is for an
/// account without storage.
pub fn is_zero_bytes(b: &Vec<u8>) -> (r: bool)
    ensures
        r == (forall|i: int| 0 <= i < b@.len() ==> b@[i] == 0u8),
{
    let mut i: usize = 0;
    while i < b.len()
        invariant
            i <= b@.len(),
            forall|j: int| 0 <= j < i ==> b@[j] == 0u8,
        decreases b@.len() - i,
    {
        if *vstd::slice::slice_index_get(b.as_slice(), i) != 0u8 {
            return false;
        }
        i = i + 1;
    }
    true
}

} // verus!
