//! Conversions between wire-level values and the witness model.

use vstd::prelude::*;

use crate::metadata::bloom_to_words;
use crate::types::word_of_u64;

verus! {

/// Conversion from a wire-level value into the form the witness model keeps.
pub trait ToPrimitive<Out> {
    /// When the conversion is defined.
    spec fn to_primitive_req(&self) -> bool;

    /// What the converted value is.
    spec fn converts_to(&self, out: &Out) -> bool;

    fn to_primitive(self) -> (r: Out)
        requires
            self.to_primitive_req(),
        ensures
            self.converts_to(&r),
    ;
}

/// A 256-byte logs bloom unpacks into eight 256-bit big-endian words.
impl ToPrimitive<Vec<Vec<u8>>> for Vec<u8> {
    open spec fn to_primitive_req(&self) -> bool {
        self@.len() == 256
    }

    open spec fn converts_to(&self, out: &Vec<Vec<u8>>) -> bool {
        &&& out@.len() == 8
        &&& forall|i: int|
            0 <= i < 8 ==> #[trigger] out@[i]@ == self@.subrange(32 * i, 32 * i + 32)
    }

    fn to_primitive(self) -> (r: Vec<Vec<u8>>) {
        bloom_to_words(&self)
    }
}

/// A 64-bit scalar widens into a 256-bit big-endian word.
impl ToPrimitive<Vec<u8>> for u64 {
    open spec fn to_primitive_req(&self) -> bool {
        true
    }

    open spec fn converts_to(&self, out: &Vec<u8>) -> bool {
        out@ == word_of_u64(*self)
    }

    fn to_primitive(self) -> (r: Vec<u8>) {
        crate::types::make_word_of_u64(self)
    }
}

/// Conversion from the witness model back to the wire-level form.
pub trait ToAlloy<Out> {
    /// When the conversion is defined.
    spec fn to_alloy_req(&self) -> bool;

    /// What the converted value is.
    spec fn converts_to_alloy(&self, out: &Out) -> bool;

    fn to_alloy(self) -> (r: Out)
        requires
            self.to_alloy_req(),
        ensures
            self.converts_to_alloy(&r),
    ;
}

/// An address or a 32-byte value goes onto the wire as its raw bytes,
/// unchanged.
impl ToAlloy<Vec<u8>> for Vec<u8> {
    open spec fn to_alloy_req(&self) -> bool {
        self@.len() == 20 || self@.len() == 32
    }

    open spec fn converts_to_alloy(&self, out: &Vec<u8>) -> bool {
        out@ == self@
    }

    fn to_alloy(self) -> (r: Vec<u8>) {
        self
    }
}

} // verus!
