//! RLP, the node wire format: byte-string encoding, and canonical decoding of
//! a node's outer list into its items.
//!
//! An item of a node list is either a byte string (its payload is kept) or a
//! nested list (its whole raw encoding is kept, so an inlined child node can
//! be decoded recursively).

use vstd::prelude::*;

verus! {

/// 256 to the k-th power.
pub open spec fn pow256(k: nat) -> nat
    decreases k,
{
    if k == 0 {
        1
    } else {
        256 * pow256((k - 1) as nat)
    }
}

/// The minimal big-endian digits of a number: no leading zero.
pub open spec fn be_bytes(n: nat) -> Seq<u8>
    decreases n,
{
    if n == 0 {
        Seq::empty()
    } else {
        be_bytes(n / 256).push((n % 256) as u8)
    }
}

/// The number a big-endian digit string denotes.
pub open spec fn be_val(s: Seq<u8>) -> nat
    decreases s.len(),
{
    if s.len() == 0 {
        0
    } else {
        be_val(s.drop_last()) * 256 + (s.last() as nat)
    }
}

pub proof fn lemma_be_val_lower(s: Seq<u8>)
    requires
        s.len() > 0,
        s[0] != 0,
    ensures
        be_val(s) >= pow256((s.len() - 1) as nat),
    decreases s.len(),
{
    if s.len() == 1 {
    } else {
        lemma_be_val_lower(s.drop_last());
    }
}

pub proof fn lemma_be_bytes_len(n: nat, k: nat)
    requires
        n < pow256(k),
    ensures
        be_bytes(n).len() <= k,
    decreases n,
{
    if n > 0 {
        assert(k > 0);
        lemma_be_bytes_len(n / 256, (k - 1) as nat);
    }
}

/// A digit string without a leading zero is the minimal encoding of its value.
pub proof fn lemma_be_val_bytes(s: Seq<u8>)
    requires
        s.len() > 0,
        s[0] != 0,
    ensures
        be_bytes(be_val(s)) == s,
    decreases s.len(),
{
    if s.len() == 1 {
        assert(s.drop_last() =~= Seq::<u8>::empty());
        assert(be_val(Seq::<u8>::empty()) == 0);
        assert(be_val(s) == be_val(s.drop_last()) * 256 + (s.last() as nat));
        assert(be_val(s) == s[0]);
        assert((s[0] as nat) / 256 == 0 && (s[0] as nat) % 256 == s[0] as nat);
        assert(be_bytes(s[0] as nat) =~= s) by {
            reveal_with_fuel(be_bytes, 2);
        }
    } else {
        lemma_be_val_bytes(s.drop_last());
        lemma_be_val_lower(s.drop_last());
        let n = be_val(s);
        assert(n == be_val(s.drop_last()) * 256 + s.last());
        assert(n / 256 == be_val(s.drop_last())) by (nonlinear_arith)
            requires
                n == be_val(s.drop_last()) * 256 + s.last(),
                0 <= s.last() < 256,
        ;
        assert(n % 256 == s.last()) by (nonlinear_arith)
            requires
                n == be_val(s.drop_last()) * 256 + s.last(),
                0 <= s.last() < 256,
        ;
        assert(n > 0);
        assert(be_bytes(n) =~= s);
    }
}

/// RLP encoding of a byte string.
pub open spec fn rlp_str(p: Seq<u8>) -> Seq<u8> {
    if p.len() == 1 && p[0] < 0x80 {
        p
    } else if p.len() <= 55 {
        seq![(0x80 + p.len()) as u8] + p
    } else {
        seq![(0xb7 + be_bytes(p.len() as nat).len()) as u8] + be_bytes(p.len() as nat) + p
    }
}

/// RLP encoding of a list, given its already-encoded payload.
pub open spec fn rlp_list(payload: Seq<u8>) -> Seq<u8> {
    if payload.len() <= 55 {
        seq![(0xc0 + payload.len()) as u8] + payload
    } else {
        seq![(0xf7 + be_bytes(payload.len() as nat).len()) as u8] + be_bytes(
            payload.len() as nat,
        ) + payload
    }
}

/// Builds the minimal big-endian digits of a 64-bit value.
pub fn be_bytes_u64(n: u64) -> (r: Vec<u8>)
    ensures
        r@ == be_bytes(n as nat),
    decreases n,
{
    if n == 0 {
        Vec::new()
    } else {
        let mut r = be_bytes_u64(n / 256);
        r.push((n % 256) as u8);
        r
    }
}

/// Encodes a byte string in RLP.
pub fn rlp_encode_str(p: &Vec<u8>) -> (r: Vec<u8>)
    requires
        p@.len() < 0xffff_ffff_ffff_0000u64,
    ensures
        r@ == rlp_str(p@),
{
    if p.len() == 1 && p[0] < 0x80 {
        let mut r: Vec<u8> = Vec::new();
        r.push(p[0]);
        proof {
            assert(r@ =~= rlp_str(p@));
        }
        r
    } else if p.len() <= 55 {
        let mut r: Vec<u8> = Vec::new();
        r.push(0x80 + p.len() as u8);
        let mut i: usize = 0;
        while i < p.len()
            invariant
                p@.len() <= 55,
                i <= p@.len(),
                r@.len() == 1 + i,
                r@[0] == 0x80 + p@.len(),
                forall|j: int| 0 <= j < i ==> r@[j + 1] == p@[j],
            decreases p@.len() - i,
        {
            r.push(p[i]);
            i = i + 1;
        }
        proof {
            assert(r@ =~= rlp_str(p@));
        }
        r
    } else {
        let len64: u64 = p.len() as u64;
        let lb = be_bytes_u64(len64);
        proof {
            assert(pow256(8) == 0x1_0000_0000_0000_0000) by {
                reveal_with_fuel(pow256, 9);
            }
            lemma_be_bytes_len(len64 as nat, 8);
        }
        let mut r: Vec<u8> = Vec::new();
        r.push(0xb7 + lb.len() as u8);
        let mut i: usize = 0;
        while i < lb.len()
            invariant
                lb@.len() <= 8,
                i <= lb@.len(),
                r@.len() == 1 + i,
                r@[0] == 0xb7 + lb@.len(),
                forall|j: int| 0 <= j < i ==> r@[j + 1] == lb@[j],
            decreases lb@.len() - i,
        {
            r.push(lb[i]);
            i = i + 1;
        }
        let mut i: usize = 0;
        while i < p.len()
            invariant
                lb@.len() <= 8,
                i <= p@.len(),
                r@.len() == 1 + lb@.len() + i,
                r@[0] == 0xb7 + lb@.len(),
                forall|j: int| 0 <= j < lb@.len() ==> r@[j + 1] == lb@[j],
                forall|j: int| 0 <= j < i ==> r@[j + 1 + lb@.len()] == p@[j],
            decreases p@.len() - i,
        {
            r.push(p[i]);
            i = i + 1;
        }
        proof {
            assert(r@ =~= rlp_str(p@));
        }
        r
    }
}

pub proof fn lemma_pow256_le(a: nat, b: nat)
    requires
        a <= b,
    ensures
        pow256(a) <= pow256(b),
    decreases b,
{
    if a < b {
        lemma_pow256_le(a, (b - 1) as nat);
    }
}

/// An item of a decoded node list: a byte string's payload, or a nested
/// list's whole raw encoding (an inlined child node).
#[derive(Debug, PartialEq, Eq)]
pub enum RlpItem {
    Str(Vec<u8>),
    List(Vec<u8>),
}

/// The mathematical shape of an item: is-string, and its bytes.
pub open spec fn item_view(it: RlpItem) -> (bool, Seq<u8>) {
    match it {
        RlpItem::Str(v) => (true, v@),
        RlpItem::List(v) => (false, v@),
    }
}

pub open spec fn items_view(s: Seq<RlpItem>) -> Seq<(bool, Seq<u8>)> {
    Seq::new(s.len(), |i: int| item_view(s[i]))
}

/// The item starting at `pos`: is-string, payload or raw encoding, and the
/// position after it. Nothing when ill-formed or not canonically encoded.
pub open spec fn spec_item_at(b: Seq<u8>, pos: int) -> Option<(bool, Seq<u8>, int)> {
    if pos < 0 || pos >= b.len() {
        None
    } else {
        let x = b[pos];
        if x < 0x80 {
            Some((true, seq![x], pos + 1))
        } else if x <= 0xb7 {
            let n: int = x as int - 0x80;
            if pos + 1 + n > b.len() {
                None
            } else if n == 1 && b[pos + 1] < 0x80 {
                None
            } else {
                Some((true, b.subrange(pos + 1, pos + 1 + n), pos + 1 + n))
            }
        } else if x <= 0xbf {
            let ll: int = x as int - 0xb7;
            if pos + 1 + ll > b.len() {
                None
            } else {
                let lb = b.subrange(pos + 1, pos + 1 + ll);
                let n: int = be_val(lb) as int;
                if lb[0] == 0 || n <= 55 || pos + 1 + ll + n > b.len() {
                    None
                } else {
                    Some((true, b.subrange(pos + 1 + ll, pos + 1 + ll + n), pos + 1 + ll + n))
                }
            }
        } else if x <= 0xf7 {
            let n: int = x as int - 0xc0;
            if pos + 1 + n > b.len() {
                None
            } else {
                Some((false, b.subrange(pos, pos + 1 + n), pos + 1 + n))
            }
        } else {
            let ll: int = x as int - 0xf7;
            if pos + 1 + ll > b.len() {
                None
            } else {
                let lb = b.subrange(pos + 1, pos + 1 + ll);
                let n: int = be_val(lb) as int;
                if lb[0] == 0 || n <= 55 || pos + 1 + ll + n > b.len() {
                    None
                } else {
                    Some((false, b.subrange(pos, pos + 1 + ll + n), pos + 1 + ll + n))
                }
            }
        }
    }
}

/// The items filling `b` from `pos` up to exactly `endp`.
pub open spec fn spec_items(b: Seq<u8>, pos: int, endp: int) -> Option<Seq<(bool, Seq<u8>)>>
    decreases endp - pos,
{
    if pos == endp {
        Some(Seq::empty())
    } else if pos > endp {
        None
    } else {
        match spec_item_at(b, pos) {
            None => None,
            Some((is_str, data, endi)) => if endi <= pos || endi > endp {
                None
            } else {
                match spec_items(b, endi, endp) {
                    None => None,
                    Some(rest) => Some(seq![(is_str, data)] + rest),
                }
            },
        }
    }
}

/// The item list of a node's RLP: the bytes must form one list, consumed
/// exactly.
pub open spec fn spec_node_items(b: Seq<u8>) -> Option<Seq<(bool, Seq<u8>)>> {
    if b.len() == 0 {
        None
    } else {
        let x = b[0];
        if x < 0xc0 {
            None
        } else if x <= 0xf7 {
            let n: int = x as int - 0xc0;
            if 1 + n != b.len() {
                None
            } else {
                spec_items(b, 1, b.len() as int)
            }
        } else {
            let ll: int = x as int - 0xf7;
            if 1 + ll > b.len() {
                None
            } else {
                let lb = b.subrange(1, 1 + ll);
                let n: int = be_val(lb) as int;
                if lb[0] == 0 || n <= 55 || 1 + ll + n != b.len() {
                    None
                } else {
                    spec_items(b, 1 + ll, b.len() as int)
                }
            }
        }
    }
}

/// The encoding an item denotes: a string re-encodes as a byte string, a
/// nested list is already its own encoding.
pub open spec fn item_encoding(it: (bool, Seq<u8>)) -> Seq<u8> {
    if it.0 {
        rlp_str(it.1)
    } else {
        it.1
    }
}

/// The concatenated encodings of a list of items.
pub open spec fn cat_items(items: Seq<(bool, Seq<u8>)>) -> Seq<u8>
    decreases items.len(),
{
    if items.len() == 0 {
        Seq::empty()
    } else {
        item_encoding(items[0]) + cat_items(items.drop_first())
    }
}

/// A decoded item re-encodes to exactly the bytes it came from.
pub proof fn lemma_item_reencode(b: Seq<u8>, pos: int)
    requires
        spec_item_at(b, pos) is Some,
    ensures
        ({
            let (is_str, data, endi) = spec_item_at(b, pos).unwrap();
            item_encoding((is_str, data)) == b.subrange(pos, endi)
        }),
{
    let (is_str, data, endi) = spec_item_at(b, pos).unwrap();
    let x = b[pos];
    if x < 0x80 {
        assert(rlp_str(data) =~= b.subrange(pos, endi));
    } else if x <= 0xb7 {
        let n: int = x as int - 0x80;
        assert(data =~= b.subrange(pos + 1, pos + 1 + n));
        assert(data.len() == n <= 55);
        assert(!(data.len() == 1 && data[0] < 0x80));
        assert(rlp_str(data) =~= b.subrange(pos, endi));
    } else if x <= 0xbf {
        let ll: int = x as int - 0xb7;
        let lb = b.subrange(pos + 1, pos + 1 + ll);
        let n: int = be_val(lb) as int;
        lemma_be_val_bytes(lb);
        assert(data.len() == n > 55);
        assert(be_bytes(data.len() as nat) == lb);
        assert(rlp_str(data) =~= b.subrange(pos, endi));
    } else {
        assert(data =~= b.subrange(pos, endi));
    }
}

/// A decoded item run re-encodes to exactly the bytes it came from.
pub proof fn lemma_items_reencode(b: Seq<u8>, pos: int, endp: int)
    requires
        0 <= pos,
        spec_items(b, pos, endp) is Some,
        endp <= b.len(),
    ensures
        cat_items(spec_items(b, pos, endp).unwrap()) == b.subrange(pos, endp),
    decreases endp - pos,
{
    if pos == endp {
        assert(cat_items(Seq::empty()) =~= b.subrange(pos, endp));
    } else {
        let (is_str, data, endi) = spec_item_at(b, pos).unwrap();
        let rest = spec_items(b, endi, endp).unwrap();
        lemma_item_reencode(b, pos);
        lemma_items_reencode(b, endi, endp);
        let items = spec_items(b, pos, endp).unwrap();
        assert(items =~= seq![(is_str, data)] + rest);
        assert(items.drop_first() =~= rest);
        assert(items[0] == (is_str, data));
        assert(cat_items(items) == item_encoding((is_str, data)) + cat_items(rest));
        assert(b.subrange(pos, endi) + b.subrange(endi, endp) =~= b.subrange(pos, endp));
    }
}

/// Node codec round trip: the items a node's bytes decode to re-encode, as
/// one RLP list, to exactly those bytes.
pub proof fn lemma_node_reencode(b: Seq<u8>)
    requires
        spec_node_items(b) is Some,
    ensures
        rlp_list(cat_items(spec_node_items(b).unwrap())) == b,
{
    let x = b[0];
    if x <= 0xf7 {
        let n: int = x as int - 0xc0;
        lemma_items_reencode(b, 1, b.len() as int);
        let payload = b.subrange(1, b.len() as int);
        assert(payload.len() == n <= 55);
        assert(rlp_list(payload) =~= b);
    } else {
        let ll: int = x as int - 0xf7;
        let lb = b.subrange(1, 1 + ll);
        let n: int = be_val(lb) as int;
        lemma_be_val_bytes(lb);
        lemma_items_reencode(b, 1 + ll, b.len() as int);
        let payload = b.subrange(1 + ll, b.len() as int);
        assert(payload.len() == n > 55);
        assert(be_bytes(payload.len() as nat) == lb);
        assert(rlp_list(payload) =~= b);
    }
}

/// Copies `b[from..to]`.
pub fn copy_range(b: &Vec<u8>, from: usize, to: usize) -> (r: Vec<u8>)
    requires
        from <= to <= b@.len(),
    ensures
        r@ == b@.subrange(from as int, to as int),
{
    let mut r: Vec<u8> = Vec::new();
    let mut i: usize = from;
    while i < to
        invariant
            from <= i <= to <= b@.len(),
            r@ =~= b@.subrange(from as int, i as int),
        decreases to - i,
    {
        r.push(b[i]);
        i = i + 1;
    }
    proof {
        assert(r@ =~= b@.subrange(from as int, to as int));
    }
    r
}

/// Reads the big-endian value of `b[from..to]`, at most 8 digits.
fn read_be_val(b: &Vec<u8>, from: usize, to: usize) -> (r: u64)
    requires
        from <= to <= b@.len(),
        to - from <= 8,
    ensures
        r == be_val(b@.subrange(from as int, to as int)),
{
    proof {
        reveal_with_fuel(pow256, 9);
    }
    let mut r: u64 = 0;
    let mut i: usize = from;
    while i < to
        invariant
            from <= i <= to <= b@.len(),
            to - from <= 8,
            r == be_val(b@.subrange(from as int, i as int)),
            r < pow256((i - from) as nat),
        decreases to - i,
    {
        proof {
            lemma_pow256_le((i - from + 1) as nat, 8);
            reveal_with_fuel(pow256, 9);
            assert(b@.subrange(from as int, i as int + 1).drop_last() =~= b@.subrange(
                from as int,
                i as int,
            ));
        }
        r = r * 256 + (b[i] as u64);
        i = i + 1;
    }
    r
}

/// Parses the item starting at `pos`.
pub fn parse_item(b: &Vec<u8>, pos: usize) -> (r: Option<(RlpItem, usize)>)
    ensures
        match r {
            Some((it, endi)) => spec_item_at(b@, pos as int) == Some(
                (item_view(it).0, item_view(it).1, endi as int),
            ) && pos < endi <= b@.len(),
            None => spec_item_at(b@, pos as int) is None,
        },
{
    if pos >= b.len() {
        return None;
    }
    let x = b[pos];
    if x < 0x80 {
        let mut v: Vec<u8> = Vec::new();
        v.push(x);
        proof {
            assert(v@ =~= seq![x]);
        }
        Some((RlpItem::Str(v), pos + 1))
    } else if x <= 0xb7 {
        let n = (x - 0x80) as usize;
        if n > b.len() - pos - 1 {
            return None;
        }
        if n == 1 && b[pos + 1] < 0x80 {
            return None;
        }
        Some((RlpItem::Str(copy_range(b, pos + 1, pos + 1 + n)), pos + 1 + n))
    } else if x <= 0xbf {
        let ll = (x - 0xb7) as usize;
        if ll > b.len() - pos - 1 {
            return None;
        }
        let n64 = read_be_val(b, pos + 1, pos + 1 + ll);
        if b[pos + 1] == 0 || n64 <= 55 {
            return None;
        }
        if n64 > (b.len() - pos - 1 - ll) as u64 {
            return None;
        }
        let n = n64 as usize;
        Some((RlpItem::Str(copy_range(b, pos + 1 + ll, pos + 1 + ll + n)), pos + 1 + ll + n))
    } else if x <= 0xf7 {
        let n = (x - 0xc0) as usize;
        if n > b.len() - pos - 1 {
            return None;
        }
        Some((RlpItem::List(copy_range(b, pos, pos + 1 + n)), pos + 1 + n))
    } else {
        let ll = (x - 0xf7) as usize;
        if ll > b.len() - pos - 1 {
            return None;
        }
        let n64 = read_be_val(b, pos + 1, pos + 1 + ll);
        if b[pos + 1] == 0 || n64 <= 55 {
            return None;
        }
        if n64 > (b.len() - pos - 1 - ll) as u64 {
            return None;
        }
        let n = n64 as usize;
        Some((RlpItem::List(copy_range(b, pos, pos + 1 + ll + n)), pos + 1 + ll + n))
    }
}

/// Decodes a node's RLP into its items: the bytes must form one list,
/// consumed exactly, every item canonically encoded.
pub fn decode_node_items(b: &Vec<u8>) -> (r: Option<Vec<RlpItem>>)
    ensures
        match r {
            Some(items) => spec_node_items(b@) == Some(items_view(items@)),
            None => spec_node_items(b@) is None,
        },
{
    if b.len() == 0 {
        return None;
    }
    let x = b[0];
    let start: usize;
    if x < 0xc0 {
        return None;
    } else if x <= 0xf7 {
        let n = (x - 0xc0) as usize;
        if 1 + n != b.len() {
            return None;
        }
        start = 1;
    } else {
        let ll = (x - 0xf7) as usize;
        if ll > b.len() - 1 {
            return None;
        }
        let n64 = read_be_val(b, 1, 1 + ll);
        if b[1] == 0 || n64 <= 55 {
            return None;
        }
        if n64 != (b.len() - 1 - ll) as u64 {
            return None;
        }
        start = 1 + ll;
    }
    let ghost endp = b@.len() as int;
    let mut items: Vec<RlpItem> = Vec::new();
    let mut pos: usize = start;
    while pos < b.len()
        invariant
            start <= pos <= b@.len(),
            endp == b@.len() as int,
            spec_node_items(b@) == spec_items(b@, start as int, endp),
            spec_items(b@, start as int, endp) == (match spec_items(b@, pos as int, endp) {
                Some(rest) => Some(items_view(items@) + rest),
                None => None::<Seq<(bool, Seq<u8>)>>,
            }),
        decreases b@.len() - pos,
    {
        let ghost items0 = items@;
        match parse_item(b, pos) {
            Some((it, endi)) => {
                let ghost itv = item_view(it);
                items.push(it);
                proof {
                    assert(items@ =~= items0.push(items@[items@.len() - 1]));
                    assert(items_view(items@) =~= items_view(items0).push(itv));
                    assert forall|rest: Seq<(bool, Seq<u8>)>|
                        items_view(items0) + (seq![(itv.0, itv.1)] + rest) =~= items_view(
                            items@,
                        ) + rest by {}
                }
                pos = endi;
            },
            None => {
                return None;
            },
        }
    }
    proof {
        assert(spec_items(b@, pos as int, endp) == Some(Seq::<(bool, Seq<u8>)>::empty()));
        assert(items_view(items@) + Seq::<(bool, Seq<u8>)>::empty() =~= items_view(items@));
    }
    Some(items)
}

} // verus!
