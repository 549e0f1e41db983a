//! Small association containers over raw byte keys.
//!
//! JSON objects arrive as key/value lists; the library keeps them that way and
//! reasons about a first-match lookup function. Every container preserves the
//! invariant that keys are pairwise distinct, so the first match is the only
//! match.

use vstd::prelude::*;

verus! {

/// First-match lookup in an association list.
pub open spec fn plookup<V>(s: Seq<(Vec<u8>, V)>, k: Seq<u8>) -> Option<V>
    decreases s.len(),
{
    if s.len() == 0 {
        None
    } else if s[0].0@ == k {
        Some(s[0].1)
    } else {
        plookup(s.drop_first(), k)
    }
}

/// Membership of a byte string in a list of byte strings.
pub open spec fn has_bytes(s: Seq<Vec<u8>>, k: Seq<u8>) -> bool {
    exists|i: int| 0 <= i < s.len() && s[i]@ == k
}

/// Pairwise-distinct byte strings.
pub open spec fn distinct_bytes(s: Seq<Vec<u8>>) -> bool {
    forall|i: int, j: int| 0 <= i < j < s.len() ==> s[i]@ != s[j]@
}

/// Pairwise-distinct keys of an association list.
pub open spec fn distinct_keys<V>(s: Seq<(Vec<u8>, V)>) -> bool {
    forall|i: int, j: int| 0 <= i < j < s.len() ==> s[i].0@ != s[j].0@
}

/// A key found at an index past which nothing matched earlier is what the
/// lookup returns.
pub proof fn lemma_plookup_index<V>(s: Seq<(Vec<u8>, V)>, k: Seq<u8>, i: int)
    requires
        0 <= i < s.len(),
        s[i].0@ == k,
        forall|j: int| 0 <= j < i ==> s[j].0@ != k,
    ensures
        plookup(s, k) == Some(s[i].1),
    decreases i,
{
    if i == 0 {
    } else {
        lemma_plookup_index(s.drop_first(), k, i - 1);
    }
}

/// A key that matches no entry is not found.
pub proof fn lemma_plookup_none<V>(s: Seq<(Vec<u8>, V)>, k: Seq<u8>)
    requires
        forall|j: int| 0 <= j < s.len() ==> s[j].0@ != k,
    ensures
        plookup(s, k) is None,
    decreases s.len(),
{
    if s.len() > 0 {
        lemma_plookup_none(s.drop_first(), k);
    }
}

/// Appending an entry changes the lookup only for a key that was absent.
pub proof fn lemma_plookup_push<V>(s: Seq<(Vec<u8>, V)>, e: (Vec<u8>, V), k: Seq<u8>)
    ensures
        plookup(s.push(e), k) == (if plookup(s, k) is Some {
            plookup(s, k)
        } else if e.0@ == k {
            Some(e.1)
        } else {
            None
        }),
    decreases s.len(),
{
    if s.len() == 0 {
        assert(s.push(e).drop_first() =~= s);
    } else {
        assert(s.push(e).drop_first() =~= s.drop_first().push(e));
        lemma_plookup_push(s.drop_first(), e, k);
    }
}

/// A key is found exactly when some entry carries it.
pub proof fn lemma_plookup_exists<V>(s: Seq<(Vec<u8>, V)>, k: Seq<u8>)
    ensures
        (plookup(s, k) is Some) == (exists|j: int| 0 <= j < s.len() && s[j].0@ == k),
    decreases s.len(),
{
    if s.len() > 0 {
        lemma_plookup_exists(s.drop_first(), k);
        if s[0].0@ == k {
            assert(s[0].0@ == k);
        } else {
            if plookup(s.drop_first(), k) is Some {
                let j = choose|j: int|
                    0 <= j < s.drop_first().len() && s.drop_first()[j].0@ == k;
                assert(s[j + 1].0@ == k);
            }
            if exists|j: int| 0 <= j < s.len() && s[j].0@ == k {
                let j = choose|j: int| 0 <= j < s.len() && s[j].0@ == k;
                assert(s.drop_first()[j - 1].0@ == k);
            }
        }
    }
}

/// Removing the first entry that carries a key leaves every other key's
/// lookup unchanged.
pub proof fn lemma_plookup_remove<V>(s: Seq<(Vec<u8>, V)>, i: int, k: Seq<u8>)
    requires
        0 <= i < s.len(),
        forall|j: int| 0 <= j < i ==> s[j].0@ != s[i].0@,
        k != s[i].0@,
    ensures
        plookup(s.remove(i), k) == plookup(s, k),
    decreases i,
{
    if i == 0 {
        assert(s.remove(0) =~= s.drop_first());
    } else {
        assert(s.remove(i).drop_first() =~= s.drop_first().remove(i - 1));
        if s[0].0@ == k {
        } else {
            lemma_plookup_remove(s.drop_first(), i - 1, k);
        }
    }
}

/// Appending an element extends membership by exactly that element.
pub proof fn lemma_has_bytes_push(s: Seq<Vec<u8>>, e: Vec<u8>, k: Seq<u8>)
    ensures
        has_bytes(s.push(e), k) == (has_bytes(s, k) || e@ == k),
{
    if has_bytes(s, k) {
        let i = choose|i: int| 0 <= i < s.len() && s[i]@ == k;
        assert(s.push(e)[i]@ == k);
    }
    if e@ == k {
        assert(s.push(e)[s.len() as int]@ == k);
    }
    if has_bytes(s.push(e), k) {
        let i = choose|i: int| 0 <= i < s.push(e).len() && s.push(e)[i]@ == k;
        if i < s.len() {
            assert(s[i]@ == k);
        }
    }
}

/// Byte-for-byte equality of two byte vectors.
pub fn bytes_eq(a: &Vec<u8>, b: &Vec<u8>) -> (r: bool)
    ensures
        r == (a@ == b@),
{
    if a.len() != b.len() {
        return false;
    }
    let mut i: usize = 0;
    while i < a.len()
        invariant
            a@.len() == b@.len(),
            i <= a@.len(),
            forall|j: int| 0 <= j < i ==> a@[j] == b@[j],
        decreases a@.len() - i,
    {
        if a[i] != b[i] {
            return false;
        }
        i = i + 1;
    }
    proof {
        assert(a@ =~= b@);
    }
    true
}

/// A set of byte strings: storage keys read, addresses touched.
#[derive(Debug)]
pub struct BytesSet {
    pub items: Vec<Vec<u8>>,
}

impl BytesSet {
    /// No element occurs twice.
    pub open spec fn wf(&self) -> bool {
        distinct_bytes(self.items@)
    }

    /// Membership.
    pub open spec fn has(&self, k: Seq<u8>) -> bool {
        has_bytes(self.items@, k)
    }

    pub fn new() -> (r: Self)
        ensures
            r.wf(),
            r.items@.len() == 0,
            forall|k: Seq<u8>| !r.has(k),
    {
        BytesSet { items: Vec::new() }
    }

    pub fn len(&self) -> (r: usize)
        ensures
            r == self.items@.len(),
    {
        self.items.len()
    }

    pub fn is_empty(&self) -> (r: bool)
        ensures
            r == (self.items@.len() == 0),
    {
        self.items.len() == 0
    }

    pub fn contains(&self, k: &Vec<u8>) -> (r: bool)
        ensures
            r == self.has(k@),
    {
        let mut i: usize = 0;
        while i < self.items.len()
            invariant
                i <= self.items@.len(),
                forall|j: int| 0 <= j < i ==> self.items@[j]@ != k@,
            decreases self.items@.len() - i,
        {
            if bytes_eq(&self.items[i], k) {
                return true;
            }
            i = i + 1;
        }
        false
    }

    /// Inserts every element of a list.
    pub fn insert_all(&mut self, items: &Vec<Vec<u8>>)
        requires
            old(self).wf(),
        ensures
            final(self).wf(),
            forall|x: Seq<u8>|
                final(self).has(x) == (old(self).has(x) || has_bytes(items@, x)),
    {
        let mut i: usize = 0;
        while i < items.len()
            invariant
                self.wf(),
                i <= items@.len(),
                forall|x: Seq<u8>|
                    self.has(x) == (old(self).has(x) || has_bytes(
                        items@.subrange(0, i as int),
                        x,
                    )),
            decreases items@.len() - i,
        {
            let ghost pre = items@.subrange(0, i as int);
            let ghost e = items@[i as int];
            let mut copy: Vec<u8> = Vec::new();
            let mut j: usize = 0;
            while j < items[i].len()
                invariant
                    i < items@.len(),
                    j <= items@[i as int]@.len(),
                    copy@ =~= items@[i as int]@.subrange(0, j as int),
                decreases items@[i as int]@.len() - j,
            {
                copy.push(items[i][j]);
                j = j + 1;
            }
            proof {
                assert(copy@ =~= items@[i as int]@);
            }
            self.insert(copy);
            proof {
                assert(items@.subrange(0, i as int + 1) =~= pre.push(e));
                assert forall|x: Seq<u8>| #[trigger] self.has(x) == (old(self).has(x)
                    || has_bytes(pre.push(e), x)) by {
                    lemma_has_bytes_push(pre, e, x);
                }
            }
            i = i + 1;
        }
        proof {
            assert(items@.subrange(0, items@.len() as int) =~= items@);
        }
    }

    /// Inserts the key of every entry of an association list.
    pub fn insert_keys_of<V>(&mut self, items: &Vec<(Vec<u8>, V)>)
        requires
            old(self).wf(),
        ensures
            final(self).wf(),
            forall|x: Seq<u8>|
                final(self).has(x) == (old(self).has(x) || exists|j: int|
                    0 <= j < items@.len() && items@[j].0@ == x),
    {
        let mut i: usize = 0;
        while i < items.len()
            invariant
                self.wf(),
                i <= items@.len(),
                forall|x: Seq<u8>|
                    self.has(x) == (old(self).has(x) || exists|j: int|
                        0 <= j < i && items@[j].0@ == x),
            decreases items@.len() - i,
        {
            let ghost set0 = *self;
            let mut copy: Vec<u8> = Vec::new();
            let mut j: usize = 0;
            while j < items[i].0.len()
                invariant
                    i < items@.len(),
                    j <= items@[i as int].0@.len(),
                    copy@ =~= items@[i as int].0@.subrange(0, j as int),
                decreases items@[i as int].0@.len() - j,
            {
                copy.push(items[i].0[j]);
                j = j + 1;
            }
            proof {
                assert(copy@ =~= items@[i as int].0@);
            }
            self.insert(copy);
            proof {
                let e = items@[i as int];
                assert forall|x: Seq<u8>| #[trigger] self.has(x) == (old(self).has(x) || exists|
                    j: int,
                |
                    0 <= j < i + 1 && items@[j].0@ == x) by {
                    if x == e.0@ {
                        assert(items@[i as int].0@ == x);
                    } else {
                        if exists|j: int| 0 <= j < i + 1 && items@[j].0@ == x {
                            let j = choose|j: int| 0 <= j < i + 1 && items@[j].0@ == x;
                            assert(0 <= j < i && items@[j].0@ == x);
                        }
                    }
                }
            }
            i = i + 1;
        }
    }

    /// Inserts an element; a no-op when it is already present.
    pub fn insert(&mut self, k: Vec<u8>) -> (added: bool)
        requires
            old(self).wf(),
        ensures
            final(self).wf(),
            final(self).has(k@),
            forall|k2: Seq<u8>| final(self).has(k2) == (old(self).has(k2) || k2 == k@),
            added == !old(self).has(k@),
            added ==> final(self).items@ == old(self).items@.push(k),
            !added ==> final(self).items@ == old(self).items@,
    {
        if self.contains(&k) {
            return false;
        }
        let ghost s = self.items@;
        self.items.push(k);
        proof {
            assert forall|k2: Seq<u8>| #[trigger] has_bytes(s.push(k), k2) == (has_bytes(s, k2)
                || k2 == k@) by {
                if has_bytes(s, k2) {
                    let i = choose|i: int| 0 <= i < s.len() && s[i]@ == k2;
                    assert(s.push(k)[i]@ == k2);
                }
                if k2 == k@ {
                    assert(s.push(k)[s.len() as int]@ == k2);
                }
                if has_bytes(s.push(k), k2) {
                    let i = choose|i: int| 0 <= i < s.push(k).len() && s.push(k)[i]@ == k2;
                    if i < s.len() {
                        assert(s[i]@ == k2);
                    }
                }
            }
        }
        true
    }
}

/// A map from byte-string keys to byte-string values: the code database, the
/// hash-keyed node store, a per-account storage write map.
#[derive(Debug)]
pub struct BytesMap {
    pub items: Vec<(Vec<u8>, Vec<u8>)>,
}

impl BytesMap {
    /// No key occurs twice.
    pub open spec fn wf(&self) -> bool {
        distinct_keys(self.items@)
    }

    /// The value bound to a key, as a byte sequence.
    pub open spec fn spec_get(&self, k: Seq<u8>) -> Option<Seq<u8>> {
        match plookup(self.items@, k) {
            Some(v) => Some(v@),
            None => None,
        }
    }

    /// Key membership.
    pub open spec fn has_key(&self, k: Seq<u8>) -> bool {
        self.spec_get(k) is Some
    }

    pub fn new() -> (r: Self)
        ensures
            r.wf(),
            r.items@.len() == 0,
            forall|k: Seq<u8>| r.spec_get(k) is None,
    {
        BytesMap { items: Vec::new() }
    }

    pub fn len(&self) -> (r: usize)
        ensures
            r == self.items@.len(),
    {
        self.items.len()
    }

    pub fn is_empty(&self) -> (r: bool)
        ensures
            r == (self.items@.len() == 0),
    {
        self.items.len() == 0
    }

    fn find(&self, k: &Vec<u8>) -> (r: Option<usize>)
        ensures
            match r {
                Some(i) => i < self.items@.len() && self.items@[i as int].0@ == k@
                    && plookup(self.items@, k@) == Some(self.items@[i as int].1),
                None => plookup(self.items@, k@) is None && (forall|j: int|
                    0 <= j < self.items@.len() ==> self.items@[j].0@ != k@),
            },
    {
        let mut i: usize = 0;
        while i < self.items.len()
            invariant
                i <= self.items@.len(),
                forall|j: int| 0 <= j < i ==> self.items@[j].0@ != k@,
            decreases self.items@.len() - i,
        {
            if bytes_eq(&self.items[i].0, k) {
                proof {
                    lemma_plookup_index(self.items@, k@, i as int);
                }
                return Some(i);
            }
            i = i + 1;
        }
        proof {
            lemma_plookup_none(self.items@, k@);
        }
        None
    }

    pub fn get(&self, k: &Vec<u8>) -> (r: Option<&Vec<u8>>)
        ensures
            match r {
                Some(v) => self.spec_get(k@) == Some(v@),
                None => self.spec_get(k@) is None,
            },
    {
        match self.find(k) {
            Some(i) => Some(&self.items[i].1),
            None => None,
        }
    }

    pub fn contains_key(&self, k: &Vec<u8>) -> (r: bool)
        ensures
            r == self.has_key(k@),
    {
        match self.find(k) {
            Some(_) => true,
            None => false,
        }
    }

    /// Binds a key to a value; a no-op when the key is already bound, which
    /// is the insertion discipline of both the code database and the
    /// hash-keyed node store.
    pub fn insert_if_absent(&mut self, k: Vec<u8>, v: Vec<u8>) -> (added: bool)
        requires
            old(self).wf(),
        ensures
            final(self).wf(),
            added == !old(self).has_key(k@),
            final(self).spec_get(k@) == (if old(self).has_key(k@) {
                old(self).spec_get(k@)
            } else {
                Some(v@)
            }),
            forall|k2: Seq<u8>| k2 != k@ ==> final(self).spec_get(k2) == old(self).spec_get(k2),
            forall|k2: Seq<u8>|
                final(self).has_key(k2) == (old(self).has_key(k2) || k2 == k@),
            added ==> final(self).items@ == old(self).items@.push((k, v)),
            !added ==> final(self).items@ == old(self).items@,
    {
        match self.find(&k) {
            Some(_) => false,
            None => {
                let ghost s = self.items@;
                let ghost e = (k, v);
                proof {
                    assert forall|k2: Seq<u8>| true implies #[trigger] plookup(s.push(e), k2)
                        == (if plookup(s, k2) is Some {
                            plookup(s, k2)
                        } else if e.0@ == k2 {
                            Some(e.1)
                        } else {
                            None
                        }) by {
                        lemma_plookup_push(s, e, k2);
                    }
                }
                self.items.push((k, v));
                proof {
                    assert(self.items@ =~= s.push(e));
                }
                true
            },
        }
    }
}

} // verus!
