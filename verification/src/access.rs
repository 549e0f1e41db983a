//! The block-wide access set: which accounts were touched, and which storage
//! keys of each account were read or written. One proof request per touched
//! account is issued from it, carrying exactly the recorded keys.
//!
//! The same shape also carries a parsed EIP-2930 access list, which is a
//! per-transaction set of pre-declared (address, storage key) pairs.

use vstd::prelude::*;

use crate::collections::{bytes_eq, distinct_bytes, has_bytes, BytesSet};

verus! {

/// Copies a byte vector.
pub fn clone_bytes(a: &Vec<u8>) -> (r: Vec<u8>)
    ensures
        r@ == a@,
{
    let mut r: Vec<u8> = Vec::new();
    let mut i: usize = 0;
    while i < a.len()
        invariant
            i <= a@.len(),
            r@ =~= a@.subrange(0, i as int),
        decreases a@.len() - i,
    {
        r.push(a[i]);
        i = i + 1;
    }
    proof {
        assert(r@ =~= a@);
    }
    r
}

/// Membership of an (address, key) pair in a pair list.
pub open spec fn has_pair(s: Seq<(Vec<u8>, Vec<u8>)>, a: Seq<u8>, k: Seq<u8>) -> bool {
    exists|i: int| 0 <= i < s.len() && s[i].0@ == a && s[i].1@ == k
}

/// Pairwise-distinct (address, key) pairs.
pub open spec fn distinct_pairs(s: Seq<(Vec<u8>, Vec<u8>)>) -> bool {
    forall|i: int, j: int|
        0 <= i < j < s.len() ==> !(s[i].0@ == s[j].0@ && s[i].1@ == s[j].1@)
}

/// Accounts touched during a block, each with the storage keys that were read
/// or written under it.
pub struct AccessSet {
    /// The touched addresses, pairwise distinct.
    pub addrs: BytesSet,
    /// The recorded (address, storage key) pairs, pairwise distinct.
    pub pairs: Vec<(Vec<u8>, Vec<u8>)>,
}

impl AccessSet {
    pub open spec fn wf(&self) -> bool {
        &&& self.addrs.wf()
        &&& distinct_pairs(self.pairs@)
        &&& forall|i: int|
            0 <= i < self.pairs@.len() ==> self.addrs.has(#[trigger] self.pairs@[i].0@)
    }

    /// The address was touched.
    pub open spec fn touched(&self, a: Seq<u8>) -> bool {
        self.addrs.has(a)
    }

    /// The storage key was recorded under the address.
    pub open spec fn has_key(&self, a: Seq<u8>, k: Seq<u8>) -> bool {
        has_pair(self.pairs@, a, k)
    }

    pub fn new() -> (r: Self)
        ensures
            r.wf(),
            forall|a: Seq<u8>| !r.touched(a),
            forall|a: Seq<u8>, k: Seq<u8>| !r.has_key(a, k),
            r.addrs.items@.len() == 0,
    {
        AccessSet { addrs: BytesSet::new(), pairs: Vec::new() }
    }

    /// Records an account-level touch: the address joins the set even when no
    /// storage key is ever recorded for it, so that an account proof is still
    /// requested.
    pub fn touch(&mut self, a: Vec<u8>)
        requires
            old(self).wf(),
        ensures
            final(self).wf(),
            final(self).touched(a@),
            forall|a2: Seq<u8>|
                final(self).touched(a2) == (old(self).touched(a2) || a2 == a@),
            final(self).pairs@ == old(self).pairs@,
            forall|a2: Seq<u8>, k2: Seq<u8>|
                final(self).has_key(a2, k2) == old(self).has_key(a2, k2),
    {
        self.addrs.insert(a);
    }

    /// Records a storage key under an address, touching the address as well.
    pub fn add_key(&mut self, a: Vec<u8>, k: Vec<u8>)
        requires
            old(self).wf(),
        ensures
            final(self).wf(),
            final(self).touched(a@),
            final(self).has_key(a@, k@),
            forall|a2: Seq<u8>|
                final(self).touched(a2) == (old(self).touched(a2) || a2 == a@),
            forall|a2: Seq<u8>, k2: Seq<u8>|
                final(self).has_key(a2, k2) == (old(self).has_key(a2, k2) || (a2 == a@ && k2
                    == k@)),
    {
        let a2 = clone_bytes(&a);
        self.addrs.insert(a2);
        if !self.contains_pair(&a, &k) {
            let ghost s = self.pairs@;
            let ghost e = (a, k);
            self.pairs.push((a, k));
            proof {
                assert forall|a2: Seq<u8>, k2: Seq<u8>| #[trigger] has_pair(s.push(e), a2, k2)
                    == (has_pair(s, a2, k2) || (a2 == a@ && k2 == k@)) by {
                    if has_pair(s, a2, k2) {
                        let i = choose|i: int| 0 <= i < s.len() && s[i].0@ == a2 && s[i].1@
                            == k2;
                        assert(s.push(e)[i].0@ == a2 && s.push(e)[i].1@ == k2);
                    }
                    if a2 == a@ && k2 == k@ {
                        assert(s.push(e)[s.len() as int].0@ == a2);
                    }
                    if has_pair(s.push(e), a2, k2) {
                        let i = choose|i: int|
                            0 <= i < s.push(e).len() && s.push(e)[i].0@ == a2 && s.push(e)[i].1@
                                == k2;
                        if i < s.len() {
                            assert(s[i].0@ == a2 && s[i].1@ == k2);
                        }
                    }
                }
            }
        }
    }

    /// Whether the pair is recorded.
    pub fn contains_pair(&self, a: &Vec<u8>, k: &Vec<u8>) -> (r: bool)
        ensures
            r == self.has_key(a@, k@),
    {
        let mut i: usize = 0;
        while i < self.pairs.len()
            invariant
                i <= self.pairs@.len(),
                forall|j: int|
                    0 <= j < i ==> !(self.pairs@[j].0@ == a@ && self.pairs@[j].1@ == k@),
            decreases self.pairs@.len() - i,
        {
            if bytes_eq(&self.pairs[i].0, a) && bytes_eq(&self.pairs[i].1, k) {
                return true;
            }
            i = i + 1;
        }
        false
    }

    /// The storage keys recorded under one address, pairwise distinct.
    pub fn keys_of(&self, a: &Vec<u8>) -> (r: Vec<Vec<u8>>)
        requires
            self.wf(),
        ensures
            distinct_bytes(r@),
            forall|k: Seq<u8>| has_bytes(r@, k) == self.has_key(a@, k),
    {
        let mut r: Vec<Vec<u8>> = Vec::new();
        let mut i: usize = 0;
        while i < self.pairs.len()
            invariant
                self.wf(),
                i <= self.pairs@.len(),
                distinct_bytes(r@),
                forall|k: Seq<u8>|
                    has_bytes(r@, k) == has_pair(self.pairs@.subrange(0, i as int), a@, k),
            decreases self.pairs@.len() - i,
        {
            let ghost rpre = r@;
            let ghost pre = self.pairs@.subrange(0, i as int);
            let ghost cur = self.pairs@.subrange(0, i as int + 1);
            let ghost e = self.pairs@[i as int];
            proof {
                assert(cur =~= pre.push(e));
            }
            let matched = bytes_eq(&self.pairs[i].0, a);
            if matched {
                r.push(clone_bytes(&self.pairs[i].1));
                proof {
                    assert(r@[r@.len() - 1]@ == e.1@);
                    assert forall|x: int, y: int| 0 <= x < y < r@.len() implies r@[x]@
                        != r@[y]@ by {
                        if y == r@.len() - 1 {
                            assert(r@[x] == rpre[x]);
                            assert(has_bytes(rpre, r@[x]@));
                            assert(has_pair(pre, a@, r@[x]@));
                            let j2 = choose|j2: int|
                                0 <= j2 < pre.len() && pre[j2].0@ == a@ && pre[j2].1@ == r@[x]@;
                            assert(self.pairs@[j2].0@ == a@ && self.pairs@[j2].1@ == r@[x]@);
                            assert(!(self.pairs@[j2].0@ == e.0@ && self.pairs@[j2].1@ == e.1@));
                        } else {
                            assert(rpre[x]@ != rpre[y]@);
                        }
                    }
                }
            }
            proof {
                assert forall|k: Seq<u8>| #[trigger] has_bytes(r@, k) == has_pair(cur, a@, k) by {
                    if has_bytes(r@, k) {
                        let j = choose|j: int| 0 <= j < r@.len() && r@[j]@ == k;
                        if j < rpre.len() {
                            assert(r@[j] == rpre[j]);
                            assert(has_bytes(rpre, k));
                            assert(has_pair(pre, a@, k));
                            let j2 = choose|j2: int|
                                0 <= j2 < pre.len() && pre[j2].0@ == a@ && pre[j2].1@ == k;
                            assert(cur[j2].0@ == a@ && cur[j2].1@ == k);
                        } else {
                            assert(matched);
                            assert(cur[i as int].0@ == a@ && cur[i as int].1@ == k);
                        }
                    }
                    if has_pair(cur, a@, k) {
                        let j = choose|j: int|
                            0 <= j < cur.len() && cur[j].0@ == a@ && cur[j].1@ == k;
                        if j < pre.len() {
                            assert(has_pair(pre, a@, k));
                            assert(has_bytes(rpre, k));
                            let j2 = choose|j2: int| 0 <= j2 < rpre.len() && rpre[j2]@ == k;
                            assert(r@[j2] == rpre[j2]);
                            assert(r@[j2]@ == k);
                        } else {
                            assert(e.0@ == a@ && e.1@ == k);
                            assert(r@[r@.len() - 1]@ == k);
                        }
                    }
                }
            }
            i = i + 1;
        }
        proof {
            assert(self.pairs@.subrange(0, self.pairs@.len() as int) =~= self.pairs@);
        }
        r
    }
}

} // verus!
