//! The state witness builder: one proof request per touched account against
//! the parent block, and the folding of the returned proofs into the state
//! trie builder and per-account storage trie builders.

use vstd::prelude::*;

use crate::access::{clone_bytes, AccessSet};
use crate::collections::{
    bytes_eq, distinct_bytes, distinct_keys, has_bytes, lemma_plookup_index, lemma_plookup_none,
    lemma_plookup_push, lemma_plookup_remove, plookup, BytesMap,
};
use crate::errors::WitnessError;
use crate::hashing::{keccak256, keccak_of};
use crate::trie::{build_fuel, node_view, spec_construct, PartialTrieBuilder, TrieNode};

verus! {

/// One `eth_getProof` request: an account, the storage keys recorded for it,
/// and the block to prove against.
pub struct ProofRequest {
    pub address: Vec<u8>,
    pub storage_keys: Vec<Vec<u8>>,
    pub block_number: u64,
}

/// One `eth_getProof` response, as plain values: the account's proof nodes,
/// its storage root, and one proof per requested storage key.
pub struct ProofResponse {
    pub address: Vec<u8>,
    pub storage_hash: Vec<u8>,
    pub account_proof: Vec<Vec<u8>>,
    pub storage_proof: Vec<(Vec<u8>, Vec<Vec<u8>>)>,
}

/// The account set every proof request must come from: the access set, after
/// the beneficiary and the withdrawal addresses joined it.
///
/// Seeds the access set for a block: the beneficiary and every withdrawal
/// address are touched with no storage keys, since fees and withdrawals
/// change account leaves no transaction trace mentions.
pub fn init_access_set(author: Option<Vec<u8>>, withdrawal_addrs: &Vec<Vec<u8>>) -> (r: Result<
    AccessSet,
    WitnessError,
>)
    ensures
        match r {
            Ok(acc) => {
                &&& author is Some
                &&& acc.wf()
                &&& forall|a: Seq<u8>|
                    acc.touched(a) == (a == author.unwrap()@ || has_bytes(withdrawal_addrs@, a))
                &&& forall|a: Seq<u8>, k: Seq<u8>| !acc.has_key(a, k)
            },
            Err(e) => e == WitnessError::MissingAuthor && author is None,
        },
{
    let author = match author {
        Some(a) => a,
        None => {
            return Err(WitnessError::MissingAuthor);
        },
    };
    let mut acc = AccessSet::new();
    acc.addrs.insert_all(withdrawal_addrs);
    acc.touch(author);
    Ok(acc)
}

/// What one proof request must say: the recorded keys for its account,
/// proven against the parent block.
pub open spec fn request_ok(
    req: ProofRequest,
    addr: Seq<u8>,
    access: AccessSet,
    block_number: u64,
) -> bool {
    &&& req.address@ == addr
    &&& req.block_number == block_number - 1
    &&& distinct_bytes(req.storage_keys@)
    &&& forall|k: Seq<u8>| has_bytes(req.storage_keys@, k) == access.has_key(req.address@, k)
}

/// Emits the proof requests for an access set: one per touched account,
/// carrying exactly the storage keys recorded for it, always against the
/// parent block. The first block has no parent to prove against.
pub fn proof_requests(access: &AccessSet, block_number: u64) -> (r: Result<
    Vec<ProofRequest>,
    WitnessError,
>)
    requires
        access.wf(),
    ensures
        match r {
            Ok(v) => {
                &&& block_number >= 1
                &&& v@.len() == access.addrs.items@.len()
                &&& forall|i: int| #![trigger v@[i]]
                    0 <= i < v@.len() ==> request_ok(
                        v@[i],
                        access.addrs.items@[i]@,
                        *access,
                        block_number,
                    )
            },
            Err(e) => e == WitnessError::GenesisHasNoParent && block_number == 0,
        },
{
    if block_number == 0 {
        return Err(WitnessError::GenesisHasNoParent);
    }
    let mut v: Vec<ProofRequest> = Vec::new();
    let mut i: usize = 0;
    while i < access.addrs.items.len()
        invariant
            access.wf(),
            block_number >= 1,
            i <= access.addrs.items@.len(),
            v@.len() == i,
            forall|x: int| #![trigger v@[x]]
                0 <= x < i ==> request_ok(v@[x], access.addrs.items@[x]@, *access, block_number),
        decreases access.addrs.items@.len() - i,
    {
        let address = clone_bytes(&access.addrs.items[i]);
        let storage_keys = access.keys_of(&address);
        let ghost v0 = v@;
        let req = ProofRequest { address, storage_keys, block_number: block_number - 1 };
        let ghost reqg = req;
        v.push(req);
        proof {
            assert(v@ == v0.push(reqg));
            assert(request_ok(reqg, access.addrs.items@[i as int]@, *access, block_number));
            assert forall|x: int| #![trigger v@[x]]
                0 <= x < i + 1 implies request_ok(
                v@[x],
                access.addrs.items@[x]@,
                *access,
                block_number,
            ) by {
                if x < i {
                    assert(v@[x] == v0[x]);
                } else {
                    assert(v@[x] == reqg);
                }
            }
        }
        i = i + 1;
    }
    Ok(v)
}

/// The storage-trie builders of a block, keyed by the hash of each account's
/// address.
pub struct StorageBuilders {
    pub items: Vec<(Vec<u8>, PartialTrieBuilder)>,
}

impl StorageBuilders {
    pub open spec fn wf(&self) -> bool {
        &&& distinct_keys(self.items@)
        &&& forall|i: int| 0 <= i < self.items@.len() ==> (#[trigger] self.items@[i].1).wf()
    }

    pub open spec fn spec_get(&self, k: Seq<u8>) -> Option<PartialTrieBuilder> {
        plookup(self.items@, k)
    }

    pub fn new() -> (r: Self)
        ensures
            r.wf(),
            r.items@.len() == 0,
            forall|k: Seq<u8>| r.spec_get(k) is None,
    {
        StorageBuilders { items: Vec::new() }
    }

    fn find(&self, k: &Vec<u8>) -> (r: Option<usize>)
        ensures
            match r {
                Some(i) => i < self.items@.len() && self.items@[i as int].0@ == k@ && (forall|
                    j: int,
                |
                    0 <= j < i ==> self.items@[j].0@ != k@) && plookup(self.items@, k@) == Some(
                    self.items@[i as int].1,
                ),
                None => plookup(self.items@, k@) is None && (forall|j: int|
                    0 <= j < self.items@.len() ==> self.items@[j].0@ != k@),
            },
    {
        let mut i: usize = 0;
        while i < self.items.len()
            invariant
                i <= self.items@.len(),
                forall|j: int| 0 <= j < i ==> self.items@[j].0@ != k@,
            decreases self.items@.len() - i,
        {
            if bytes_eq(&self.items[i].0, k) {
                proof {
                    lemma_plookup_index(self.items@, k@, i as int);
                }
                return Some(i);
            }
            i = i + 1;
        }
        proof {
            lemma_plookup_none(self.items@, k@);
        }
        None
    }

    /// Folds one account's storage proofs into the builder stored under the
    /// hashed address, creating it with the response's storage root when the
    /// account has none yet.
    pub fn insert_proofs(
        &mut self,
        hashed_addr: Vec<u8>,
        storage_hash: &Vec<u8>,
        proofs: &Vec<(Vec<u8>, Vec<Vec<u8>>)>,
    )
        requires
            old(self).wf(),
        ensures
            final(self).wf(),
            forall|k: Seq<u8>|
                k != hashed_addr@ ==> final(self).spec_get(k) == old(self).spec_get(k),
            final(self).spec_get(hashed_addr@) is Some,
            ({
                let b = final(self).spec_get(hashed_addr@).unwrap();
                &&& b.root@ == (match old(self).spec_get(hashed_addr@) {
                    Some(ob) => ob.root@,
                    None => storage_hash@,
                })
                &&& forall|p: int, q: int|
                    0 <= p < proofs@.len() && 0 <= q < proofs@[p].1@.len() ==> b.nodes.has_key(
                        keccak_of(#[trigger] proofs@[p].1@[q]@),
                    )
                &&& match old(self).spec_get(hashed_addr@) {
                    Some(ob) => forall|h: Seq<u8>|
                        ob.nodes.has_key(h) ==> b.nodes.has_key(h),
                    None => true,
                }
                &&& forall|h: Seq<u8>|
                    #[trigger] b.nodes.has_key(h) ==> ((match old(self).spec_get(hashed_addr@) {
                        Some(ob) => ob.nodes.has_key(h),
                        None => false,
                    }) || exists|p: int, q: int|
                        0 <= p < proofs@.len() && 0 <= q < proofs@[p].1@.len() && h == keccak_of(
                            proofs@[p].1@[q]@,
                        ))
            }),
    {
        let found = self.find(&hashed_addr);
        let ghost items0 = self.items@;
        let mut builder: PartialTrieBuilder = match found {
            Some(i) => {
                let entry = self.items.remove(i);
                proof {
                    assert forall|k: Seq<u8>| k != hashed_addr@ implies plookup(
                        self.items@,
                        k,
                    ) == plookup(items0, k) by {
                        lemma_plookup_remove(items0, found.unwrap() as int, k);
                    }
                    assert forall|j: int| 0 <= j < self.items@.len()
                        implies #[trigger] self.items@[j].0@ != hashed_addr@ by {
                        if j < found.unwrap() as int {
                            assert(self.items@[j] == items0[j]);
                        } else {
                            assert(self.items@[j] == items0[j + 1]);
                        }
                    }
                    lemma_plookup_none(self.items@, hashed_addr@);
                }
                entry.1
            },
            None => PartialTrieBuilder::new(clone_bytes(storage_hash), BytesMap::new()),
        };
        let ghost b0 = builder;
        let mut p: usize = 0;
        while p < proofs.len()
            invariant
                builder.wf(),
                builder.root == b0.root,
                p <= proofs@.len(),
                forall|h: Seq<u8>| b0.nodes.has_key(h) ==> builder.nodes.has_key(h),
                forall|x: int, q: int|
                    0 <= x < p && 0 <= q < proofs@[x].1@.len() ==> builder.nodes.has_key(
                        keccak_of(#[trigger] proofs@[x].1@[q]@),
                    ),
                forall|h: Seq<u8>|
                    #[trigger] builder.nodes.has_key(h) ==> (b0.nodes.has_key(h) || exists|
                        x: int,
                        q: int,
                    |
                        0 <= x < p && 0 <= q < proofs@[x].1@.len() && h == keccak_of(
                            proofs@[x].1@[q]@,
                        )),
            decreases proofs@.len() - p,
        {
            let ghost bin = builder;
            builder.insert_proof(&proofs[p].1);
            proof {
                assert forall|h: Seq<u8>| #[trigger] builder.nodes.has_key(h) implies (
                b0.nodes.has_key(h) || exists|x: int, q: int|
                    0 <= x < p + 1 && 0 <= q < proofs@[x].1@.len() && h == keccak_of(
                        proofs@[x].1@[q]@,
                    )) by {
                    if !b0.nodes.has_key(h) {
                        if bin.nodes.has_key(h) {
                            let (x, q) = choose|x: int, q: int|
                                0 <= x < p && 0 <= q < proofs@[x].1@.len() && h == keccak_of(
                                    proofs@[x].1@[q]@,
                                );
                            assert(0 <= x < p + 1 && 0 <= q < proofs@[x].1@.len() && h
                                == keccak_of(proofs@[x].1@[q]@));
                        } else {
                            let q = choose|q: int|
                                0 <= q < proofs@[p as int].1@.len() && h == keccak_of(
                                    proofs@[p as int].1@[q]@,
                                );
                            assert(0 <= p < p + 1 && 0 <= q < proofs@[p as int].1@.len() && h
                                == keccak_of(proofs@[p as int].1@[q]@));
                        }
                    }
                }
            }
            p = p + 1;
        }
        let ghost items1 = self.items@;
        let ghost e = (hashed_addr, builder);
        self.items.push((hashed_addr, builder));
        proof {
            assert forall|k: Seq<u8>| true implies #[trigger] plookup(items1.push(e), k) == (
            if plookup(items1, k) is Some {
                plookup(items1, k)
            } else if e.0@ == k {
                Some(e.1)
            } else {
                None
            }) by {
                lemma_plookup_push(items1, e, k);
            }
            assert(self.items@ =~= items1.push(e));
        }
    }
}


/// Whether a response calls for a storage trie: it lists storage proofs and
/// its storage root is not the absent all-zero marker.
pub open spec fn wants_storage(r: ProofResponse) -> bool {
    r.storage_proof@.len() > 0 && !all_zero(r.storage_hash@)
}

/// The storage root of the first storage-bearing response whose hashed
/// address is `h`: the root the account's storage builder is created with.
pub open spec fn first_storage_root(responses: Seq<ProofResponse>, h: Seq<u8>) -> Option<Seq<u8>>
    decreases responses.len(),
{
    if responses.len() == 0 {
        None
    } else if wants_storage(responses[0]) && keccak_of(responses[0].address@) == h {
        Some(responses[0].storage_hash@)
    } else {
        first_storage_root(responses.drop_first(), h)
    }
}

/// A node hash held by the storage builder stored under a hashed address.
pub open spec fn storage_node_at(storage: StorageBuilders, h: Seq<u8>, h2: Seq<u8>) -> bool {
    match plookup(storage.items@, h) {
        Some(b) => b.nodes.has_key(h2),
        None => false,
    }
}

/// One storage-proof node of one response, held under the response's hashed
/// address.
pub open spec fn covered_node(storage: StorageBuilders, r: ProofResponse, p: int, q: int) -> bool {
    storage.spec_get(keccak_of(r.address@)) is Some && storage_node_at(
        storage,
        keccak_of(r.address@),
        keccak_of(r.storage_proof@[p].1@[q]@),
    )
}

/// Coverage: every storage-proof node of the first `n` storage-bearing
/// responses sits in the builder stored under the account's hashed address.
pub open spec fn storage_covered(
    storage: StorageBuilders,
    responses: Seq<ProofResponse>,
    n: int,
) -> bool {
    forall|x: int, p: int, q: int| #![trigger covered_node(storage, responses[x], p, q)]
        0 <= x < n && wants_storage(responses[x]) && 0 <= p < responses[x].storage_proof@.len()
            && 0 <= q < responses[x].storage_proof@[p].1@.len() ==> covered_node(
            storage,
            responses[x],
            p,
            q,
        )
}

/// Origin: every node any storage builder holds is a storage-proof node of
/// one of the first `n` responses, under that response's hashed address.
pub open spec fn storage_from(
    storage: StorageBuilders,
    responses: Seq<ProofResponse>,
    n: int,
) -> bool {
    forall|h: Seq<u8>, h2: Seq<u8>|
        #[trigger] storage_node_at(storage, h, h2) ==> exists|x: int, p: int, q: int|
            #![trigger responses[x].storage_proof@[p].1@[q]]
            0 <= x < n && wants_storage(responses[x]) && keccak_of(responses[x].address@) == h
                && 0 <= p < responses[x].storage_proof@.len() && 0 <= q
                < responses[x].storage_proof@[p].1@.len() && h2 == keccak_of(
                responses[x].storage_proof@[p].1@[q]@,
            )
}

/// Appending a response changes the first storage root only for a hashed
/// address that had none.
proof fn lemma_first_storage_root_push(s: Seq<ProofResponse>, e: ProofResponse, h: Seq<u8>)
    ensures
        first_storage_root(s.push(e), h) == (if first_storage_root(s, h) is Some {
            first_storage_root(s, h)
        } else if wants_storage(e) && keccak_of(e.address@) == h {
            Some(e.storage_hash@)
        } else {
            None
        }),
    decreases s.len(),
{
    if s.len() == 0 {
        assert(s.push(e).drop_first() =~= s);
    } else {
        assert(s.push(e).drop_first() =~= s.drop_first().push(e));
        lemma_first_storage_root_push(s.drop_first(), e, h);
    }
}

/// A node attributed to one of the first `n` responses is attributed to one
/// of the first `m` as well.
proof fn lemma_storage_from_widen(
    storage: StorageBuilders,
    responses: Seq<ProofResponse>,
    n: int,
    m: int,
)
    requires
        storage_from(storage, responses, n),
        n <= m,
    ensures
        storage_from(storage, responses, m),
{
    assert forall|h: Seq<u8>, h2: Seq<u8>| #[trigger] storage_node_at(storage, h, h2)
        implies exists|x: int, p: int, q: int|
        #![trigger responses[x].storage_proof@[p].1@[q]]
        0 <= x < m && wants_storage(responses[x]) && keccak_of(responses[x].address@) == h && 0
            <= p < responses[x].storage_proof@.len() && 0 <= q
            < responses[x].storage_proof@[p].1@.len() && h2 == keccak_of(
            responses[x].storage_proof@[p].1@[q]@,
        ) by {
        let (x, p, q) = choose|x: int, p: int, q: int|
            #![trigger responses[x].storage_proof@[p].1@[q]]
            0 <= x < n && wants_storage(responses[x]) && keccak_of(responses[x].address@) == h
                && 0 <= p < responses[x].storage_proof@.len() && 0 <= q
                < responses[x].storage_proof@[p].1@.len() && h2 == keccak_of(
                responses[x].storage_proof@[p].1@[q]@,
            );
        assert(0 <= x < m && wants_storage(responses[x]) && keccak_of(responses[x].address@)
            == h && 0 <= p < responses[x].storage_proof@.len() && 0 <= q
            < responses[x].storage_proof@[p].1@.len() && h2 == keccak_of(
            responses[x].storage_proof@[p].1@[q]@,
        ));
    }
}

/// Folds every proof response into the state trie builder and the storage
/// trie builders: each account proof joins the state builder; an account
/// whose response lists storage proofs under a non-zero storage root gets a
/// storage builder rooted there, keyed by the hash of its address.
pub fn generate_state_witness(prev_state_root: Vec<u8>, responses: &Vec<ProofResponse>) -> (r: (
    PartialTrieBuilder,
    StorageBuilders,
))
    ensures
        ({
            let (state, storage) = r;
            &&& state.wf()
            &&& state.root@ == prev_state_root@
            &&& forall|i: int, j: int|
                0 <= i < responses@.len() && 0 <= j < responses@[i].account_proof@.len()
                    ==> state.nodes.has_key(keccak_of(#[trigger] responses@[i].account_proof@[j]@))
            &&& forall|h: Seq<u8>|
                #[trigger] state.nodes.has_key(h) ==> exists|i: int, j: int|
                    0 <= i < responses@.len() && 0 <= j < responses@[i].account_proof@.len() && h
                        == keccak_of(responses@[i].account_proof@[j]@)
            &&& storage.wf()
            &&& forall|h: Seq<u8>| #![trigger storage.spec_get(h)]
                (storage.spec_get(h) is Some) == (first_storage_root(responses@, h) is Some)
            &&& forall|h: Seq<u8>| #![trigger storage.spec_get(h)]
                storage.spec_get(h) is Some ==> Some(storage.spec_get(h).unwrap().root@)
                    == first_storage_root(responses@, h)
            &&& storage_covered(storage, responses@, responses@.len() as int)
            &&& storage_from(storage, responses@, responses@.len() as int)
        }),
{
    let mut state = PartialTrieBuilder::new(prev_state_root, BytesMap::new());
    let mut storage = StorageBuilders::new();
    let ghost state0 = state;
    let mut i: usize = 0;
    while i < responses.len()
        invariant
            state.wf(),
            state.root == state0.root,
            storage.wf(),
            i <= responses@.len(),
            forall|x: int, j: int|
                0 <= x < i && 0 <= j < responses@[x].account_proof@.len()
                    ==> state.nodes.has_key(
                    keccak_of(#[trigger] responses@[x].account_proof@[j]@),
                ),
            forall|h: Seq<u8>|
                #[trigger] state.nodes.has_key(h) ==> exists|x: int, j: int|
                    0 <= x < i && 0 <= j < responses@[x].account_proof@.len() && h == keccak_of(
                        responses@[x].account_proof@[j]@,
                    ),
            forall|h: Seq<u8>| #![trigger storage.spec_get(h)]
                (storage.spec_get(h) is Some) == (first_storage_root(
                    responses@.subrange(0, i as int),
                    h,
                ) is Some),
            forall|h: Seq<u8>| #![trigger storage.spec_get(h)]
                storage.spec_get(h) is Some ==> Some(storage.spec_get(h).unwrap().root@)
                    == first_storage_root(responses@.subrange(0, i as int), h),
            storage_covered(storage, responses@, i as int),
            storage_from(storage, responses@, i as int),
        decreases responses@.len() - i,
    {
        let ghost statein = state;
        let ghost storagein = storage;
        state.insert_proof(&responses[i].account_proof);
        proof {
            assert forall|h: Seq<u8>| #[trigger] state.nodes.has_key(h) implies exists|
                x: int,
                j: int,
            |
                0 <= x < i + 1 && 0 <= j < responses@[x].account_proof@.len() && h == keccak_of(
                    responses@[x].account_proof@[j]@,
                ) by {
                if statein.nodes.has_key(h) {
                    let (x, j) = choose|x: int, j: int|
                        0 <= x < i && 0 <= j < responses@[x].account_proof@.len() && h
                            == keccak_of(responses@[x].account_proof@[j]@);
                    assert(0 <= x < i + 1 && 0 <= j < responses@[x].account_proof@.len() && h
                        == keccak_of(responses@[x].account_proof@[j]@));
                } else {
                    let j = choose|j: int|
                        0 <= j < responses@[i as int].account_proof@.len() && h == keccak_of(
                            responses@[i as int].account_proof@[j]@,
                        );
                    assert(0 <= i < i + 1 && 0 <= j < responses@[i as int].account_proof@.len()
                        && h == keccak_of(responses@[i as int].account_proof@[j]@));
                }
            }
        }
        let ghost pre = responses@.subrange(0, i as int);
        let ghost e = responses@[i as int];
        proof {
            assert(responses@.subrange(0, i as int + 1) =~= pre.push(e));
        }
        if responses[i].storage_proof.len() > 0 && !crate::types::is_zero_bytes(
            &responses[i].storage_hash,
        ) {
            let hashed_addr = keccak256(responses[i].address.as_slice());
            let ghost ha = hashed_addr@;
            storage.insert_proofs(
                hashed_addr,
                &responses[i].storage_hash,
                &responses[i].storage_proof,
            );
            proof {
                assert(wants_storage(e));
                assert(ha == keccak_of(e.address@));
                assert forall|h: Seq<u8>| #![trigger storage.spec_get(h)]
                    (storage.spec_get(h) is Some) == (first_storage_root(
                    pre.push(e),
                    h,
                ) is Some) by {
                    lemma_first_storage_root_push(pre, e, h);
                    if h != ha {
                        assert(storage.spec_get(h) == storagein.spec_get(h));
                    }
                }
                assert forall|h: Seq<u8>| #![trigger storage.spec_get(h)]
                    storage.spec_get(h) is Some implies Some(
                    storage.spec_get(h).unwrap().root@,
                ) == first_storage_root(pre.push(e), h) by {
                    lemma_first_storage_root_push(pre, e, h);
                    if h != ha {
                        assert(storage.spec_get(h) == storagein.spec_get(h));
                    }
                }
                assert(storage_covered(storage, responses@, i as int + 1)) by {
                    assert forall|x: int, p: int, q: int|
                        #![trigger covered_node(storage, responses@[x], p, q)]
                        0 <= x < i + 1 && wants_storage(responses@[x]) && 0 <= p
                            < responses@[x].storage_proof@.len() && 0 <= q
                            < responses@[x].storage_proof@[p].1@.len() implies covered_node(
                        storage,
                        responses@[x],
                        p,
                        q,
                    ) by {
                        let hx = keccak_of(responses@[x].address@);
                        if x < i {
                            assert(storage_covered(storagein, responses@, i as int));
                            assert(covered_node(storagein, responses@[x], p, q));
                            if hx != ha {
                                assert(storage.spec_get(hx) == storagein.spec_get(hx));
                            }
                        }
                    }
                }
                assert(storage_from(storage, responses@, i as int + 1)) by {
                    assert forall|h: Seq<u8>, h2: Seq<u8>| #[trigger] storage_node_at(
                        storage,
                        h,
                        h2,
                    ) implies exists|x: int, p: int, q: int|
                        #![trigger responses@[x].storage_proof@[p].1@[q]]
                        0 <= x < i + 1 && wants_storage(responses@[x]) && keccak_of(
                            responses@[x].address@,
                        ) == h && 0 <= p < responses@[x].storage_proof@.len() && 0 <= q
                            < responses@[x].storage_proof@[p].1@.len() && h2 == keccak_of(
                            responses@[x].storage_proof@[p].1@[q]@,
                        ) by {
                        if h == ha {
                            if match storagein.spec_get(h) {
                                Some(ob) => ob.nodes.has_key(h2),
                                None => false,
                            } {
                                assert(storage_node_at(storagein, h, h2));
                                assert(storage_from(storagein, responses@, i as int));
                                let (x, p, q) = choose|x: int, p: int, q: int|
                                    #![trigger responses@[x].storage_proof@[p].1@[q]]
                                    0 <= x < i && wants_storage(responses@[x]) && keccak_of(
                                        responses@[x].address@,
                                    ) == h && 0 <= p < responses@[x].storage_proof@.len() && 0
                                        <= q < responses@[x].storage_proof@[p].1@.len() && h2
                                        == keccak_of(responses@[x].storage_proof@[p].1@[q]@);
                                assert(0 <= x < i + 1 && wants_storage(responses@[x])
                                    && keccak_of(responses@[x].address@) == h && 0 <= p
                                    < responses@[x].storage_proof@.len() && 0 <= q
                                    < responses@[x].storage_proof@[p].1@.len() && h2
                                    == keccak_of(responses@[x].storage_proof@[p].1@[q]@));
                            } else {
                                let (p, q) = choose|p: int, q: int|
                                    0 <= p < responses@[i as int].storage_proof@.len() && 0 <= q
                                        < responses@[i as int].storage_proof@[p].1@.len() && h2
                                        == keccak_of(
                                        responses@[i as int].storage_proof@[p].1@[q]@,
                                    );
                                assert(0 <= i < i + 1 && wants_storage(responses@[i as int])
                                    && keccak_of(responses@[i as int].address@) == h && 0 <= p
                                    < responses@[i as int].storage_proof@.len() && 0 <= q
                                    < responses@[i as int].storage_proof@[p].1@.len() && h2
                                    == keccak_of(responses@[i as int].storage_proof@[p].1@[q]@));
                            }
                        } else {
                            assert(storage.spec_get(h) == storagein.spec_get(h));
                            assert(storage_node_at(storagein, h, h2));
                            assert(storage_from(storagein, responses@, i as int));
                            let (x, p, q) = choose|x: int, p: int, q: int|
                                #![trigger responses@[x].storage_proof@[p].1@[q]]
                                0 <= x < i && wants_storage(responses@[x]) && keccak_of(
                                    responses@[x].address@,
                                ) == h && 0 <= p < responses@[x].storage_proof@.len() && 0 <= q
                                    < responses@[x].storage_proof@[p].1@.len() && h2
                                    == keccak_of(responses@[x].storage_proof@[p].1@[q]@);
                            assert(0 <= x < i + 1 && wants_storage(responses@[x]) && keccak_of(
                                responses@[x].address@,
                            ) == h && 0 <= p < responses@[x].storage_proof@.len() && 0 <= q
                                < responses@[x].storage_proof@[p].1@.len() && h2 == keccak_of(
                                responses@[x].storage_proof@[p].1@[q]@,
                            ));
                        }
                    }
                }
            }
        } else {
            proof {
                assert(!wants_storage(e));
                assert forall|h: Seq<u8>| #![trigger storage.spec_get(h)]
                    (storage.spec_get(h) is Some) == (first_storage_root(
                    pre.push(e),
                    h,
                ) is Some) by {
                    lemma_first_storage_root_push(pre, e, h);
                }
                assert forall|h: Seq<u8>| #![trigger storage.spec_get(h)]
                    storage.spec_get(h) is Some implies Some(
                    storage.spec_get(h).unwrap().root@,
                ) == first_storage_root(pre.push(e), h) by {
                    lemma_first_storage_root_push(pre, e, h);
                }
                assert(storage_covered(storage, responses@, i as int + 1)) by {
                    assert forall|x: int, p: int, q: int|
                        #![trigger covered_node(storage, responses@[x], p, q)]
                        0 <= x < i + 1 && wants_storage(responses@[x]) && 0 <= p
                            < responses@[x].storage_proof@.len() && 0 <= q
                            < responses@[x].storage_proof@[p].1@.len() implies covered_node(
                        storage,
                        responses@[x],
                        p,
                        q,
                    ) by {
                        if x < i {
                            assert(storage_covered(storage, responses@, i as int));
                            assert(covered_node(storage, responses@[x], p, q));
                        } else {
                            assert(responses@[x] == e);
                            assert(wants_storage(e));
                        }
                    }
                }
                lemma_storage_from_widen(storage, responses@, i as int, i as int + 1);
            }
        }
        i = i + 1;
    }
    proof {
        assert(responses@.subrange(0, responses@.len() as int) =~= responses@);
    }
    (state, storage)
}

/// Every byte is zero: how an absent storage root is reported.
pub open spec fn all_zero(s: Seq<u8>) -> bool {
    forall|i: int| 0 <= i < s.len() ==> s[i] == 0u8
}

/// The separate trie pre-images of a block: the state trie, and the storage
/// tries keyed by hashed account address.
pub struct SeparateTriePreImages {
    pub state: TrieNode,
    pub storage: Vec<(Vec<u8>, TrieNode)>,
}

/// Materializes every builder. A malformed proof node anywhere is fatal.
pub fn build_pre_images(state: &PartialTrieBuilder, storage: &StorageBuilders) -> (r: Result<
    SeparateTriePreImages,
    WitnessError,
>)
    ensures
        match r {
            Ok(p) => {
                &&& spec_construct(
                    state.root@,
                    state.nodes.items@,
                    build_fuel(state.nodes.items@.len()),
                ) == Some(node_view(p.state))
                &&& p.storage@.len() == storage.items@.len()
                &&& forall|i: int|
                    0 <= i < storage.items@.len() ==> #[trigger] p.storage@[i].0@
                        == storage.items@[i].0@ && spec_construct(
                        storage.items@[i].1.root@,
                        storage.items@[i].1.nodes.items@,
                        build_fuel(storage.items@[i].1.nodes.items@.len()),
                    ) == Some(node_view(p.storage@[i].1))
            },
            Err(e) => e == WitnessError::MalformedNode && (spec_construct(
                state.root@,
                state.nodes.items@,
                build_fuel(state.nodes.items@.len()),
            ) is None || exists|i: int|
                0 <= i < storage.items@.len() && spec_construct(
                    (#[trigger] storage.items@[i]).1.root@,
                    storage.items@[i].1.nodes.items@,
                    build_fuel(storage.items@[i].1.nodes.items@.len()),
                ) is None),
        },
{
    let state_trie = match state.build() {
        Ok(n) => n,
        Err(e) => {
            return Err(e);
        },
    };
    let mut tries: Vec<(Vec<u8>, TrieNode)> = Vec::new();
    let mut i: usize = 0;
    while i < storage.items.len()
        invariant
            i <= storage.items@.len(),
            tries@.len() == i,
            forall|x: int|
                0 <= x < i ==> #[trigger] tries@[x].0@ == storage.items@[x].0@ && spec_construct(
                    storage.items@[x].1.root@,
                    storage.items@[x].1.nodes.items@,
                    build_fuel(storage.items@[x].1.nodes.items@.len()),
                ) == Some(node_view(tries@[x].1)),
        decreases storage.items@.len() - i,
    {
        let t = match storage.items[i].1.build() {
            Ok(n) => n,
            Err(e) => {
                proof {
                    assert(spec_construct(
                        storage.items@[i as int].1.root@,
                        storage.items@[i as int].1.nodes.items@,
                        build_fuel(storage.items@[i as int].1.nodes.items@.len()),
                    ) is None);
                }
                return Err(e);
            },
        };
        let ghost t0 = tries@;
        tries.push((clone_bytes(&storage.items[i].0), t));
        proof {
            assert forall|x: int| 0 <= x < i + 1 implies #[trigger] tries@[x].0@
                == storage.items@[x].0@ && spec_construct(
                storage.items@[x].1.root@,
                storage.items@[x].1.nodes.items@,
                build_fuel(storage.items@[x].1.nodes.items@.len()),
            ) == Some(node_view(tries@[x].1)) by {
                if x < i {
                    assert(tries@[x] == t0[x]);
                } else {
                    assert(tries@[x] == tries@[tries@.len() - 1]);
                }
            }
        }
        i = i + 1;
    }
    Ok(SeparateTriePreImages { state: state_trie, storage: tries })
}

} // verus!
