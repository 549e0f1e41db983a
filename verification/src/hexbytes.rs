//! Hex decoding of the `0x`-prefixed code strings carried by prestate traces.

use vstd::prelude::*;

verus! {

/// An ASCII hex digit.
pub open spec fn is_hex_digit(b: u8) -> bool {
    (0x30 <= b <= 0x39) || (0x41 <= b <= 0x46) || (0x61 <= b <= 0x66)
}

/// The value of an ASCII hex digit.
pub open spec fn hex_val(b: u8) -> int {
    if 0x30 <= b <= 0x39 {
        b - 0x30
    } else if 0x41 <= b <= 0x46 {
        b - 0x41 + 10
    } else {
        b - 0x61 + 10
    }
}

/// An even-length string of hex digits.
pub open spec fn valid_hex(s: Seq<u8>) -> bool {
    s.len() % 2 == 0 && (forall|i: int| 0 <= i < s.len() ==> is_hex_digit(#[trigger] s[i]))
}

/// The bytes a valid hex string denotes, two digits per byte.
pub open spec fn hex_decoded(s: Seq<u8>) -> Seq<u8> {
    Seq::new(s.len() / 2, |i: int| (hex_val(s[2 * i]) * 16 + hex_val(s[2 * i + 1])) as u8)
}

/// Relies on hex::decode: it succeeds exactly on an even-length string of hex
/// digits (upper or lower case) and returns the pairwise-decoded bytes.
#[verifier::external_body]
pub fn hex_decode(data: &Vec<u8>) -> (r: Option<Vec<u8>>)
    ensures
        match r {
            Some(v) => valid_hex(data@) && v@ == hex_decoded(data@),
            None => !valid_hex(data@),
        },
{
    match hex::decode(data) {
        Ok(v) => Some(v),
        Err(_) => None,
    }
}

/// A `0x`-prefixed string of hex digits: how a prestate trace carries code.
pub open spec fn code_hex_ok(s: Seq<u8>) -> bool {
    s.len() >= 2 && s[0] == 0x30u8 && s[1] == 0x78u8 && valid_hex(s.skip(2))
}

/// The code bytes a well-formed code string denotes.
pub open spec fn code_bytes(s: Seq<u8>) -> Seq<u8> {
    hex_decoded(s.skip(2))
}

/// Checks the `0x` prefix and decodes the rest.
pub fn decode_code_string(s: &Vec<u8>) -> (r: Option<Vec<u8>>)
    ensures
        match r {
            Some(v) => code_hex_ok(s@) && v@ == code_bytes(s@),
            None => !code_hex_ok(s@),
        },
{
    if s.len() < 2 || s[0] != 0x30u8 || s[1] != 0x78u8 {
        return None;
    }
    let mut rest: Vec<u8> = Vec::new();
    let mut i: usize = 2;
    while i < s.len()
        invariant
            2 <= i <= s@.len(),
            rest@ =~= s@.subrange(2, i as int),
        decreases s@.len() - i,
    {
        rest.push(s[i]);
        i = i + 1;
    }
    proof {
        assert(rest@ =~= s@.skip(2));
    }
    hex_decode(&rest)
}

} // verus!
