//! The access reconciler: merges one transaction's read trace, diff trace and
//! EIP-2930 access list into per-address trace records, and accumulates the
//! block-wide access set and code database.

use vstd::prelude::*;

use crate::access::{clone_bytes, AccessSet};
use crate::collections::{bytes_eq, distinct_keys, plookup, BytesMap, BytesSet};
use crate::errors::WitnessError;
use crate::hashing::{keccak256, keccak_of};
use crate::hexbytes::{code_bytes, code_hex_ok, decode_code_string};
use crate::types::{word_of_u64, zero_word};

verus! {

/// One account's entry in a prestate-tracer frame. Numeric fields are 256-bit
/// big-endian words; `code` is the `0x`-prefixed hex string as received.
pub struct AccountState {
    pub balance: Option<Vec<u8>>,
    pub nonce: Option<Vec<u8>>,
    pub code: Option<Vec<u8>>,
    pub storage: Option<BytesMap>,
}

/// A prestate-tracer frame: accounts keyed by address.
pub struct AccountMap {
    pub items: Vec<(Vec<u8>, AccountState)>,
}

impl AccountMap {
    /// Addresses are pairwise distinct, as keys of a JSON object are.
    pub open spec fn wf(&self) -> bool {
        distinct_keys(self.items@)
    }

    /// The account stored under an address.
    pub open spec fn spec_get(&self, a: Seq<u8>) -> Option<AccountState> {
        plookup(self.items@, a)
    }

    pub fn new() -> (r: Self)
        ensures
            r.wf(),
            r.items@.len() == 0,
            forall|a: Seq<u8>| r.spec_get(a) is None,
    {
        AccountMap { items: Vec::new() }
    }

    pub fn get(&self, a: &Vec<u8>) -> (r: Option<&AccountState>)
        ensures
            match r {
                Some(st) => self.spec_get(a@) == Some(*st),
                None => self.spec_get(a@) is None,
            },
    {
        let mut i: usize = 0;
        while i < self.items.len()
            invariant
                i <= self.items@.len(),
                forall|j: int| 0 <= j < i ==> self.items@[j].0@ != a@,
            decreases self.items@.len() - i,
        {
            if bytes_eq(&self.items[i].0, a) {
                proof {
                    crate::collections::lemma_plookup_index(self.items@, a@, i as int);
                }
                return Some(&self.items[i].1);
            }
            i = i + 1;
        }
        proof {
            crate::collections::lemma_plookup_none(self.items@, a@);
        }
        None
    }
}

/// How a transaction used an account's code: invoked unchanged (by hash) or
/// created / rewritten (full bytes).
#[derive(Debug, PartialEq, Eq)]
pub enum CodeUsage {
    Read(Vec<u8>),
    Write(Vec<u8>),
}

/// One transaction's effect on one account. Absent fields mean "unchanged" or
/// "not involved".
#[derive(Debug)]
pub struct TxnTrace {
    pub balance: Option<Vec<u8>>,
    pub nonce: Option<Vec<u8>>,
    pub storage_read: Option<BytesSet>,
    pub storage_written: Option<BytesMap>,
    pub code_usage: Option<CodeUsage>,
    pub self_destructed: Option<bool>,
}

/// A byte-vector option seen as a sequence option.
pub open spec fn ov(o: Option<Vec<u8>>) -> Option<Seq<u8>> {
    match o {
        Some(v) => Some(v@),
        None => None,
    }
}

/// The code string an account entry carries, if any.
pub open spec fn code_of(o: Option<AccountState>) -> Option<Seq<u8>> {
    match o {
        Some(st) => ov(st.code),
        None => None,
    }
}

/// Whether an account entry's storage object binds a key.
pub open spec fn acct_storage_has(o: Option<AccountState>, k: Seq<u8>) -> bool {
    match o {
        Some(st) => match st.storage {
            Some(m) => m.has_key(k),
            None => false,
        },
        None => false,
    }
}

/// The value an account entry's storage object binds to a key.
pub open spec fn acct_storage_get(o: Option<AccountState>, k: Seq<u8>) -> Option<Seq<u8>> {
    match o {
        Some(st) => match st.storage {
            Some(m) => m.spec_get(k),
            None => None,
        },
        None => None,
    }
}

/// The account's code strings cannot be decoded: the post entry's if present,
/// otherwise the read entry's if present.
pub open spec fn bad_code(post_c: Option<Seq<u8>>, read_c: Option<Seq<u8>>) -> bool {
    match post_c {
        Some(c) => !code_hex_ok(c),
        None => match read_c {
            Some(c) => !code_hex_ok(c),
            None => false,
        },
    }
}

/// The code-usage rule: `Write` of the decoded post bytes when the diff lists
/// code, else `Read` of the hash of the decoded read bytes, else absent.
pub open spec fn code_usage_ok(
    post_c: Option<Seq<u8>>,
    read_c: Option<Seq<u8>>,
    cu: Option<CodeUsage>,
) -> bool {
    match post_c {
        Some(c) => match cu {
            Some(CodeUsage::Write(b)) => b@ == code_bytes(c),
            _ => false,
        },
        None => match read_c {
            Some(c) => match cu {
                Some(CodeUsage::Read(h)) => h@ == keccak_of(code_bytes(c)),
                _ => false,
            },
            None => cu is None,
        },
    }
}

/// The code string the reconciler decodes for an account: the post entry's
/// when the diff lists code, otherwise the read entry's, otherwise none.
pub open spec fn effective_code(post_c: Option<Seq<u8>>, read_c: Option<Seq<u8>>) -> Option<
    Seq<u8>,
> {
    match post_c {
        Some(c) => Some(c),
        None => read_c,
    }
}

/// Self-destruct rule: set exactly when the address is in the pre half of the
/// diff but not in the post half.
pub open spec fn self_destruct_spec(
    pre: Option<AccountState>,
    post: Option<AccountState>,
) -> Option<bool> {
    if pre is Some && post is None {
        Some(true)
    } else {
        None
    }
}

/// Emits the self-destruct marker for one account.
pub fn process_self_destruct(
    post_state: Option<&AccountState>,
    pre_state: Option<&AccountState>,
) -> (r: Option<bool>)
    ensures
        r == (if pre_state is Some && post_state is None {
            Some(true)
        } else {
            None::<bool>
        }),
{
    if post_state.is_none() && pre_state.is_some() {
        Some(true)
    } else {
        None
    }
}

/// Decodes and records code for one account: a diff-listed code string becomes
/// `Write` of its bytes, an unchanged-but-read code string becomes `Read` of
/// its hash; either way the bytes join the code database under their hash.
pub fn process_code(
    post_state: Option<&AccountState>,
    read_state: Option<&AccountState>,
    code_db: &mut BytesMap,
) -> (r: Result<Option<CodeUsage>, WitnessError>)
    requires
        old(code_db).wf(),
    ensures
        final(code_db).wf(),
        forall|k: Seq<u8>|
            old(code_db).has_key(k) ==> final(code_db).spec_get(k) == old(code_db).spec_get(k),
        forall|k: Seq<u8>| old(code_db).has_key(k) ==> final(code_db).has_key(k),
        match r {
            Ok(cu) => {
                &&& !bad_code(opt_code(post_state), opt_code(read_state))
                &&& code_usage_ok(opt_code(post_state), opt_code(read_state), cu)
                &&& match cu {
                    Some(CodeUsage::Write(b)) => final(code_db).has_key(keccak_of(b@)),
                    Some(CodeUsage::Read(h)) => final(code_db).has_key(h@),
                    None => final(code_db).items@ == old(code_db).items@,
                }
                &&& match effective_code(opt_code(post_state), opt_code(read_state)) {
                    Some(c) => {
                        &&& final(code_db).has_key(keccak_of(code_bytes(c)))
                        &&& (!old(code_db).has_key(keccak_of(code_bytes(c)))
                            ==> final(code_db).spec_get(keccak_of(code_bytes(c))) == Some(
                            code_bytes(c),
                        ))
                        &&& forall|h2: Seq<u8>|
                            #[trigger] final(code_db).has_key(h2) ==> (old(code_db).has_key(h2)
                                || h2 == keccak_of(code_bytes(c)))
                    },
                    None => final(code_db).items@ == old(code_db).items@,
                }
                &&& forall|h2: Seq<u8>|
                    #[trigger] final(code_db).has_key(h2) && !old(code_db).has_key(h2)
                        ==> final(code_db).spec_get(h2) is Some && h2 == keccak_of(
                        final(code_db).spec_get(h2).unwrap(),
                    )
            },
            Err(e) => e == WitnessError::InvalidCodeHex && bad_code(
                opt_code(post_state),
                opt_code(read_state),
            ) && final(code_db).items@ == old(code_db).items@,
        },
{
    let post_code: Option<&Vec<u8>> = match post_state {
        Some(st) => match &st.code {
            Some(c) => Some(c),
            None => None,
        },
        None => None,
    };
    match post_code {
        Some(c) => {
            match decode_code_string(c) {
                Some(code) => {
                    let hash = keccak256(code.as_slice());
                    let code2 = clone_bytes(&code);
                    code_db.insert_if_absent(hash, code2);
                    Ok(Some(CodeUsage::Write(code)))
                },
                None => Err(WitnessError::InvalidCodeHex),
            }
        },
        None => {
            let read_code: Option<&Vec<u8>> = match read_state {
                Some(st) => match &st.code {
                    Some(c) => Some(c),
                    None => None,
                },
                None => None,
            };
            match read_code {
                Some(c) => {
                    match decode_code_string(c) {
                        Some(code) => {
                            let hash = keccak256(code.as_slice());
                            let hash2 = clone_bytes(&hash);
                            code_db.insert_if_absent(hash, code);
                            Ok(Some(CodeUsage::Read(hash2)))
                        },
                        None => Err(WitnessError::InvalidCodeHex),
                    }
                },
                None => Ok(None),
            }
        },
    }
}

/// The code string carried by an optional account reference.
pub open spec fn opt_code(o: Option<&AccountState>) -> Option<Seq<u8>> {
    match o {
        Some(st) => ov(st.code),
        None => None,
    }
}

/// Whether an optional account reference's storage object binds a key.
pub open spec fn opt_storage_has(o: Option<&AccountState>, k: Seq<u8>) -> bool {
    match o {
        Some(st) => match st.storage {
            Some(m) => m.has_key(k),
            None => false,
        },
        None => false,
    }
}

/// The value an optional account reference's storage object binds to a key.
pub open spec fn opt_storage_get(o: Option<&AccountState>, k: Seq<u8>) -> Option<Seq<u8>> {
    match o {
        Some(st) => match st.storage {
            Some(m) => m.spec_get(k),
            None => None,
        },
        None => None,
    }
}

/// A key counts as read when the access list pre-declares it for the address
/// (even if execution never touches it) or the read trace lists it.
pub open spec fn read_key_pred(
    al: AccessSet,
    a: Seq<u8>,
    read_state: Option<&AccountState>,
    k: Seq<u8>,
) -> bool {
    al.has_key(a, k) || opt_storage_has(read_state, k)
}

/// The written value of a key: the post half of the diff if it lists the key,
/// else zero for a key the pre half lists (a slot cleared to zero is a logical
/// write the post map omits), else nothing.
pub open spec fn write_val(
    post_state: Option<&AccountState>,
    pre_state: Option<&AccountState>,
    k: Seq<u8>,
) -> Option<Seq<u8>> {
    if opt_storage_get(post_state, k) is Some {
        opt_storage_get(post_state, k)
    } else if opt_storage_has(pre_state, k) {
        Some(zero_word())
    } else {
        None
    }
}

/// Merges one account's storage reads and writes, records every key in the
/// block-wide access set, and returns the per-transaction read set and write
/// map (absent when empty).
pub fn process_storage(
    access: &mut AccessSet,
    a: &Vec<u8>,
    al: &AccessSet,
    read_state: Option<&AccountState>,
    post_state: Option<&AccountState>,
    pre_state: Option<&AccountState>,
) -> (r: (Option<BytesSet>, Option<BytesMap>))
    requires
        old(access).wf(),
        old(access).touched(a@),
        al.wf(),
    ensures
        final(access).wf(),
        forall|a2: Seq<u8>| final(access).touched(a2) == old(access).touched(a2),
        forall|a2: Seq<u8>, k2: Seq<u8>|
            final(access).has_key(a2, k2) == (old(access).has_key(a2, k2) || (a2 == a@ && (
            read_key_pred(*al, a@, read_state, k2) || write_val(post_state, pre_state, k2)
                is Some))),
        match r.0 {
            Some(s) => s.wf() && s.items@.len() > 0 && (forall|k: Seq<u8>|
                s.has(k) == read_key_pred(*al, a@, read_state, k)),
            None => forall|k: Seq<u8>| !read_key_pred(*al, a@, read_state, k),
        },
        match r.1 {
            Some(m) => m.wf() && m.items@.len() > 0 && (forall|k: Seq<u8>|
                m.spec_get(k) == write_val(post_state, pre_state, k)),
            None => forall|k: Seq<u8>| write_val(post_state, pre_state, k) is None,
        },
{
    // The storage keys the transaction read: access-listed keys first.
    let mut rs = BytesSet::new();
    let al_keys = al.keys_of(a);
    let mut i: usize = 0;
    while i < al_keys.len()
        invariant
            rs.wf(),
            i <= al_keys@.len(),
            forall|k: Seq<u8>|
                rs.has(k) == crate::collections::has_bytes(
                    al_keys@.subrange(0, i as int),
                    k,
                ),
        decreases al_keys@.len() - i,
    {
        let ghost pre = al_keys@.subrange(0, i as int);
        let ghost e = al_keys@[i as int];
        rs.insert(clone_bytes(&al_keys[i]));
        proof {
            assert(al_keys@.subrange(0, i as int + 1) =~= pre.push(e));
            assert forall|k: Seq<u8>| #[trigger] rs.has(k) == crate::collections::has_bytes(
                pre.push(e),
                k,
            ) by {
                crate::collections::lemma_has_bytes_push(pre, e, k);
            }
        }
        i = i + 1;
    }
    proof {
        assert(al_keys@.subrange(0, al_keys@.len() as int) =~= al_keys@);
        assert(forall|k: Seq<u8>| rs.has(k) == al.has_key(a@, k));
    }
    // Union with the keys the read trace's storage object lists.
    match read_state {
        Some(st) => match &st.storage {
            Some(m) => {
                let mut j: usize = 0;
                while j < m.items.len()
                    invariant
                        rs.wf(),
                        j <= m.items@.len(),
                        forall|k: Seq<u8>|
                            rs.has(k) == (al.has_key(a@, k) || exists|x: int|
                                0 <= x < j && m.items@[x].0@ == k),
                    decreases m.items@.len() - j,
                {
                    let ghost rs0 = rs;
                    rs.insert(clone_bytes(&m.items[j].0));
                    proof {
                        let e = m.items@[j as int].0;
                        assert forall|k: Seq<u8>| #[trigger] rs.has(k) == (al.has_key(a@, k)
                            || exists|x: int| 0 <= x < j + 1 && m.items@[x].0@ == k) by {
                            assert(rs.has(k) == (rs0.has(k) || k == e@));
                            if rs.has(k) {
                                if rs0.has(k) {
                                    if !al.has_key(a@, k) {
                                        let x = choose|x: int|
                                            0 <= x < j && m.items@[x].0@ == k;
                                        assert(0 <= x < j + 1 && m.items@[x].0@ == k);
                                    }
                                } else {
                                    assert(m.items@[j as int].0@ == k);
                                }
                            }
                            if (al.has_key(a@, k) || exists|x: int|
                                0 <= x < j + 1 && m.items@[x].0@ == k) {
                                if !al.has_key(a@, k) {
                                    let x = choose|x: int|
                                        0 <= x < j + 1 && m.items@[x].0@ == k;
                                    if x < j {
                                        assert(rs0.has(k));
                                    } else {
                                        assert(k == e@);
                                    }
                                }
                            }
                        }
                    }
                    j = j + 1;
                }
                proof {
                    assert forall|k: Seq<u8>| #[trigger] rs.has(k) == read_key_pred(
                        *al,
                        a@,
                        read_state,
                        k,
                    ) by {
                        crate::collections::lemma_plookup_exists(m.items@, k);
                    }
                }
            },
            None => {},
        },
        None => {},
    }
    assert(forall|k: Seq<u8>| rs.has(k) == read_key_pred(*al, a@, read_state, k));

    // The storage keys the transaction wrote: the post half of the diff first.
    let mut wm = BytesMap::new();
    match post_state {
        Some(st) => match &st.storage {
            Some(m) => {
                let mut j: usize = 0;
                while j < m.items.len()
                    invariant
                        wm.wf(),
                        j <= m.items@.len(),
                        forall|k: Seq<u8>|
                            wm.spec_get(k) == (match plookup(
                                m.items@.subrange(0, j as int),
                                k,
                            ) {
                                Some(v) => Some(v@),
                                None => None,
                            }),
                    decreases m.items@.len() - j,
                {
                    let ghost pre = m.items@.subrange(0, j as int);
                    let ghost e = m.items@[j as int];
                    let key = clone_bytes(&m.items[j].0);
                    let val = clone_bytes(&m.items[j].1);
                    wm.insert_if_absent(key, val);
                    proof {
                        assert(m.items@.subrange(0, j as int + 1) =~= pre.push(e));
                        assert forall|k: Seq<u8>| #[trigger] wm.spec_get(k) == (match plookup(
                            pre.push(e),
                            k,
                        ) {
                            Some(v) => Some(v@),
                            None => None,
                        }) by {
                            crate::collections::lemma_plookup_push(pre, e, k);
                        }
                    }
                    j = j + 1;
                }
                proof {
                    assert(m.items@.subrange(0, m.items@.len() as int) =~= m.items@);
                }
            },
            None => {},
        },
        None => {},
    }
    assert(forall|k: Seq<u8>| wm.spec_get(k) == opt_storage_get(post_state, k));

    // A key the pre half lists but the post half omits was cleared: write zero.
    match pre_state {
        Some(st) => match &st.storage {
            Some(m) => {
                let mut j: usize = 0;
                while j < m.items.len()
                    invariant
                        wm.wf(),
                        j <= m.items@.len(),
                        forall|k: Seq<u8>|
                            wm.spec_get(k) == (if opt_storage_get(post_state, k) is Some {
                                opt_storage_get(post_state, k)
                            } else if exists|x: int| 0 <= x < j && m.items@[x].0@ == k {
                                Some(zero_word())
                            } else {
                                None
                            }),
                    decreases m.items@.len() - j,
                {
                    let key = clone_bytes(&m.items[j].0);
                    let zero = crate::types::make_zero_word();
                    wm.insert_if_absent(key, zero);
                    proof {
                        let e = m.items@[j as int];
                        assert forall|k: Seq<u8>| #[trigger] wm.spec_get(k) == (if opt_storage_get(
                            post_state,
                            k,
                        ) is Some {
                            opt_storage_get(post_state, k)
                        } else if exists|x: int| 0 <= x < j + 1 && m.items@[x].0@ == k {
                            Some(zero_word())
                        } else {
                            None
                        }) by {
                            if k == e.0@ {
                                assert(m.items@[j as int].0@ == k);
                            } else {
                                if exists|x: int| 0 <= x < j + 1 && m.items@[x].0@ == k {
                                    let x = choose|x: int|
                                        0 <= x < j + 1 && m.items@[x].0@ == k;
                                    assert(0 <= x < j && m.items@[x].0@ == k);
                                }
                            }
                        }
                    }
                    j = j + 1;
                }
                proof {
                    assert forall|k: Seq<u8>| #[trigger] wm.spec_get(k) == write_val(
                        post_state,
                        pre_state,
                        k,
                    ) by {
                        crate::collections::lemma_plookup_exists(m.items@, k);
                    }
                }
            },
            None => {},
        },
        None => {},
    }
    assert(forall|k: Seq<u8>| wm.spec_get(k) == write_val(post_state, pre_state, k));

    // Every key read or written joins the block-wide access set under `a`.
    let ghost acc0 = *access;
    let mut j: usize = 0;
    while j < rs.items.len()
        invariant
            access.wf(),
            access.touched(a@),
            rs.wf(),
            j <= rs.items@.len(),
            forall|a2: Seq<u8>| access.touched(a2) == acc0.touched(a2),
            forall|a2: Seq<u8>, k2: Seq<u8>| #![trigger access.has_key(a2, k2)]
                access.has_key(a2, k2) == (acc0.has_key(a2, k2) || (a2 == a@
                    && crate::collections::has_bytes(rs.items@.subrange(0, j as int), k2))),
        decreases rs.items@.len() - j,
    {
        let ghost pre = rs.items@.subrange(0, j as int);
        let ghost e = rs.items@[j as int];
        access.add_key(clone_bytes(a), clone_bytes(&rs.items[j]));
        proof {
            assert(rs.items@.subrange(0, j as int + 1) =~= pre.push(e));
            assert forall|a2: Seq<u8>, k2: Seq<u8>| #[trigger] access.has_key(a2, k2) == (
            acc0.has_key(a2, k2) || (a2 == a@ && crate::collections::has_bytes(
                pre.push(e),
                k2,
            ))) by {
                crate::collections::lemma_has_bytes_push(pre, e, k2);
            }
        }
        j = j + 1;
    }
    proof {
        assert(rs.items@.subrange(0, rs.items@.len() as int) =~= rs.items@);
    }
    let ghost acc1 = *access;
    let mut j: usize = 0;
    while j < wm.items.len()
        invariant
            access.wf(),
            access.touched(a@),
            wm.wf(),
            j <= wm.items@.len(),
            forall|a2: Seq<u8>| access.touched(a2) == acc1.touched(a2),
            forall|a2: Seq<u8>, k2: Seq<u8>| #![trigger access.has_key(a2, k2)]
                access.has_key(a2, k2) == (acc1.has_key(a2, k2) || (a2 == a@ && exists|x: int|
                    0 <= x < j && wm.items@[x].0@ == k2)),
        decreases wm.items@.len() - j,
    {
        access.add_key(clone_bytes(a), clone_bytes(&wm.items[j].0));
        proof {
            let e = wm.items@[j as int];
            assert forall|a2: Seq<u8>, k2: Seq<u8>| #[trigger] access.has_key(a2, k2) == (
            acc1.has_key(a2, k2) || (a2 == a@ && exists|x: int|
                0 <= x < j + 1 && wm.items@[x].0@ == k2)) by {
                if k2 == e.0@ {
                    assert(wm.items@[j as int].0@ == k2);
                } else {
                    if exists|x: int| 0 <= x < j + 1 && wm.items@[x].0@ == k2 {
                        let x = choose|x: int| 0 <= x < j + 1 && wm.items@[x].0@ == k2;
                        assert(0 <= x < j && wm.items@[x].0@ == k2);
                    }
                }
            }
        }
        j = j + 1;
    }
    proof {
        assert forall|a2: Seq<u8>, k2: Seq<u8>| #[trigger] access.has_key(a2, k2) == (
        acc0.has_key(a2, k2) || (a2 == a@ && (read_key_pred(*al, a@, read_state, k2) || write_val(
            post_state,
            pre_state,
            k2,
        ) is Some))) by {
            crate::collections::lemma_plookup_exists(wm.items@, k2);
            assert(access.has_key(a2, k2) == (acc1.has_key(a2, k2) || (a2 == a@ && exists|x: int|
                0 <= x < wm.items@.len() && wm.items@[x].0@ == k2)));
            assert(acc1.has_key(a2, k2) == (acc0.has_key(a2, k2) || (a2 == a@
                && crate::collections::has_bytes(rs.items@, k2))));
            assert(crate::collections::has_bytes(rs.items@, k2) == rs.has(k2));
            assert(rs.has(k2) == read_key_pred(*al, a@, read_state, k2));
            assert(wm.has_key(k2) == (write_val(post_state, pre_state, k2) is Some));
        }
        if rs.items@.len() == 0 {
            assert forall|k: Seq<u8>| !read_key_pred(*al, a@, read_state, k) by {
                assert(!rs.has(k));
            }
        }
        if wm.items@.len() == 0 {
            assert forall|k: Seq<u8>| write_val(post_state, pre_state, k) is None by {
                assert(wm.spec_get(k) is None);
            }
        }
    }

    let read_part = if rs.is_empty() {
        None
    } else {
        Some(rs)
    };
    let written_part = if wm.is_empty() {
        None
    } else {
        Some(wm)
    };
    (read_part, written_part)
}

/// A key counts as read, stated over looked-up account entries.
pub open spec fn read_key(al: AccessSet, a: Seq<u8>, read_o: Option<AccountState>, k: Seq<u8>) -> bool {
    al.has_key(a, k) || acct_storage_has(read_o, k)
}

/// The written value of a key, stated over looked-up account entries.
pub open spec fn written_val(
    post_o: Option<AccountState>,
    pre_o: Option<AccountState>,
    k: Seq<u8>,
) -> Option<Seq<u8>> {
    if acct_storage_get(post_o, k) is Some {
        acct_storage_get(post_o, k)
    } else if acct_storage_has(pre_o, k) {
        Some(zero_word())
    } else {
        None
    }
}

/// An address belongs to a transaction's universe when any of the read trace,
/// the diff halves, or the access list mentions it.
pub open spec fn in_universe(
    a: Seq<u8>,
    read: AccountMap,
    pre: AccountMap,
    post: AccountMap,
    al: AccessSet,
) -> bool {
    read.spec_get(a) is Some || post.spec_get(a) is Some || pre.spec_get(a) is Some
        || al.touched(a)
}

/// The address's code strings cannot be decoded.
pub open spec fn bad_code_at(a: Seq<u8>, read: AccountMap, post: AccountMap) -> bool {
    bad_code(code_of(post.spec_get(a)), code_of(read.spec_get(a)))
}

/// The code string the reconciler decodes for an address: the post entry's
/// when the diff lists code, otherwise the read entry's.
pub open spec fn account_code(a: Seq<u8>, read: AccountMap, post: AccountMap) -> Option<Seq<u8>> {
    effective_code(code_of(post.spec_get(a)), code_of(read.spec_get(a)))
}

/// What one emitted trace record must say about its address.
pub open spec fn trace_ok(
    a: Seq<u8>,
    tr: TxnTrace,
    read: AccountMap,
    pre: AccountMap,
    post: AccountMap,
    al: AccessSet,
) -> bool {
    let read_o = read.spec_get(a);
    let pre_o = pre.spec_get(a);
    let post_o = post.spec_get(a);
    &&& ov(tr.balance) == (match post_o {
        Some(st) => ov(st.balance),
        None => None,
    })
    &&& ov(tr.nonce) == (match post_o {
        Some(st) if st.nonce is Some => ov(st.nonce),
        _ => if code_of(post_o) is Some {
            Some(word_of_u64(1))
        } else {
            None
        },
    })
    &&& match tr.storage_read {
        Some(s) => s.wf() && s.items@.len() > 0 && (forall|k: Seq<u8>|
            s.has(k) == read_key(al, a, read_o, k)),
        None => forall|k: Seq<u8>| !read_key(al, a, read_o, k),
    }
    &&& match tr.storage_written {
        Some(m) => m.wf() && m.items@.len() > 0 && (forall|k: Seq<u8>|
            m.spec_get(k) == written_val(post_o, pre_o, k)),
        None => forall|k: Seq<u8>| written_val(post_o, pre_o, k) is None,
    }
    &&& code_usage_ok(code_of(post_o), code_of(read_o), tr.code_usage)
    &&& tr.self_destructed == self_destruct_spec(pre_o, post_o)
}

/// Access coverage: every address of a trace list is touched in the access
/// set, and every storage key a trace reads or writes is recorded under its
/// address.
pub open spec fn access_covers(acc: AccessSet, traces: Seq<(Vec<u8>, TxnTrace)>) -> bool {
    &&& forall|j: int| 0 <= j < traces.len() ==> acc.touched(#[trigger] traces[j].0@)
    &&& forall|j: int, k: Seq<u8>| #![trigger acc.has_key(traces[j].0@, k)]
        0 <= j < traces.len() ==> ((match traces[j].1.storage_read {
            Some(s) => s.has(k),
            None => false,
        }) ==> acc.has_key(traces[j].0@, k))
    &&& forall|j: int, k: Seq<u8>| #![trigger acc.has_key(traces[j].0@, k)]
        0 <= j < traces.len() ==> ((match traces[j].1.storage_written {
            Some(m) => m.has_key(k),
            None => false,
        }) ==> acc.has_key(traces[j].0@, k))
}

/// Access coverage survives growth: a transaction's trace records, once
/// covered by the access set, stay covered while later transactions of the
/// block extend it.
pub proof fn lemma_access_coverage_monotone(
    acc1: AccessSet,
    acc2: AccessSet,
    traces: Seq<(Vec<u8>, TxnTrace)>,
)
    requires
        access_covers(acc1, traces),
        forall|a: Seq<u8>| acc1.touched(a) ==> acc2.touched(a),
        forall|a: Seq<u8>, k: Seq<u8>| acc1.has_key(a, k) ==> acc2.has_key(a, k),
    ensures
        access_covers(acc2, traces),
{
    assert forall|j: int| 0 <= j < traces.len() implies acc2.touched(#[trigger] traces[j].0@) by {
        assert(acc1.touched(traces[j].0@));
    }
    assert forall|j: int, k: Seq<u8>| #![trigger acc2.has_key(traces[j].0@, k)]
        0 <= j < traces.len() implies ((match traces[j].1.storage_read {
        Some(s) => s.has(k),
        None => false,
    }) ==> acc2.has_key(traces[j].0@, k)) by {
        if 0 <= j < traces.len() {
            if match traces[j].1.storage_read {
                Some(s) => s.has(k),
                None => false,
            } {
                assert(acc1.has_key(traces[j].0@, k));
            }
        }
    }
    assert forall|j: int, k: Seq<u8>| #![trigger acc2.has_key(traces[j].0@, k)]
        0 <= j < traces.len() implies ((match traces[j].1.storage_written {
        Some(m) => m.has_key(k),
        None => false,
    }) ==> acc2.has_key(traces[j].0@, k)) by {
        if 0 <= j < traces.len() {
            if match traces[j].1.storage_written {
                Some(m) => m.has_key(k),
                None => false,
            } {
                assert(acc1.has_key(traces[j].0@, k));
            }
        }
    }
}

/// A trace list is exactly one record per universe address, each correct.
pub open spec fn traces_exact(
    traces: Seq<(Vec<u8>, TxnTrace)>,
    read: AccountMap,
    pre: AccountMap,
    post: AccountMap,
    al: AccessSet,
) -> bool {
    &&& forall|j: int|
        0 <= j < traces.len() ==> in_universe(#[trigger] traces[j].0@, read, pre, post, al)
    &&& forall|a2: Seq<u8>|
        in_universe(a2, read, pre, post, al) ==> exists|j: int|
            0 <= j < traces.len() && traces[j].0@ == a2
    &&& forall|i: int, j: int| 0 <= i < j < traces.len() ==> traces[i].0@ != traces[j].0@
    &&& forall|j: int|
        0 <= j < traces.len() ==> trace_ok(
            #[trigger] traces[j].0@,
            traces[j].1,
            read,
            pre,
            post,
            al,
        )
}

/// Reconciles one transaction: merges its read trace, diff trace and access
/// list into one trace record per touched address, while growing the
/// block-wide access set and code database.
pub fn process_tx_traces(
    access: &mut AccessSet,
    code_db: &mut BytesMap,
    al: &AccessSet,
    read: &AccountMap,
    pre: &AccountMap,
    post: &AccountMap,
) -> (r: Result<Vec<(Vec<u8>, TxnTrace)>, WitnessError>)
    requires
        old(access).wf(),
        old(code_db).wf(),
        al.wf(),
    ensures
        final(access).wf(),
        final(code_db).wf(),
        forall|a2: Seq<u8>| old(access).touched(a2) ==> final(access).touched(a2),
        forall|a2: Seq<u8>, k2: Seq<u8>|
            old(access).has_key(a2, k2) ==> final(access).has_key(a2, k2),
        forall|h: Seq<u8>|
            old(code_db).has_key(h) ==> final(code_db).spec_get(h) == old(code_db).spec_get(h),
        forall|h: Seq<u8>|
            #[trigger] final(code_db).has_key(h) ==> (old(code_db).has_key(h) || exists|
                a2: Seq<u8>,
            |
                in_universe(a2, *read, *pre, *post, *al) && (match account_code(
                    a2,
                    *read,
                    *post,
                ) {
                    Some(c) => h == keccak_of(code_bytes(c)),
                    None => false,
                })),
        forall|h: Seq<u8>|
            #[trigger] final(code_db).has_key(h) && !old(code_db).has_key(h)
                ==> final(code_db).spec_get(h) is Some && h == keccak_of(
                final(code_db).spec_get(h).unwrap(),
            ),
        match r {
            Ok(traces) => {
                &&& traces_exact(traces@, *read, *pre, *post, *al)
                &&& access_covers(*final(access), traces@)
                &&& forall|j: int|
                    0 <= j < traces@.len() ==> in_universe(
                        #[trigger] traces@[j].0@,
                        *read,
                        *pre,
                        *post,
                        *al,
                    )
                &&& forall|a2: Seq<u8>|
                    in_universe(a2, *read, *pre, *post, *al) ==> exists|j: int|
                        0 <= j < traces@.len() && traces@[j].0@ == a2
                &&& forall|i: int, j: int|
                    0 <= i < j < traces@.len() ==> traces@[i].0@ != traces@[j].0@
                &&& forall|j: int|
                    0 <= j < traces@.len() ==> trace_ok(
                        #[trigger] traces@[j].0@,
                        traces@[j].1,
                        *read,
                        *pre,
                        *post,
                        *al,
                    )
                &&& forall|j: int|
                    0 <= j < traces@.len() ==> final(access).touched(#[trigger] traces@[j].0@)
                &&& forall|j: int, k: Seq<u8>| #![trigger final(access).has_key(traces@[j].0@, k)]
                    0 <= j < traces@.len() ==> ((match traces@[j].1.storage_read {
                        Some(s) => s.has(k),
                        None => false,
                    }) ==> final(access).has_key(traces@[j].0@, k))
                &&& forall|j: int, k: Seq<u8>| #![trigger final(access).has_key(traces@[j].0@, k)]
                    0 <= j < traces@.len() ==> ((match traces@[j].1.storage_written {
                        Some(m) => m.has_key(k),
                        None => false,
                    }) ==> final(access).has_key(traces@[j].0@, k))
                &&& forall|a2: Seq<u8>| #![trigger final(access).touched(a2)]
                    final(access).touched(a2) == (old(access).touched(a2) || in_universe(
                        a2,
                        *read,
                        *pre,
                        *post,
                        *al,
                    ))
                &&& forall|a2: Seq<u8>, k2: Seq<u8>| #![trigger final(access).has_key(a2, k2)]
                    final(access).has_key(a2, k2) == (old(access).has_key(a2, k2) || (
                    in_universe(a2, *read, *pre, *post, *al) && (read_key(
                        *al,
                        a2,
                        read.spec_get(a2),
                        k2,
                    ) || written_val(post.spec_get(a2), pre.spec_get(a2), k2) is Some)))
                &&& forall|j: int|
                    0 <= j < traces@.len() ==> (match #[trigger] traces@[j].1.code_usage {
                        Some(CodeUsage::Write(b)) => final(code_db).has_key(keccak_of(b@)),
                        Some(CodeUsage::Read(h)) => final(code_db).has_key(h@),
                        None => true,
                    })
                &&& forall|a2: Seq<u8>|
                    in_universe(a2, *read, *pre, *post, *al) ==> !bad_code_at(a2, *read, *post)
            },
            Err(e) => e == WitnessError::InvalidCodeHex && (exists|a2: Seq<u8>|
                in_universe(a2, *read, *pre, *post, *al) && bad_code_at(a2, *read, *post)),
        },
{
    // The address universe of this transaction.
    let mut uni = BytesSet::new();
    uni.insert_keys_of(&read.items);
    uni.insert_keys_of(&post.items);
    uni.insert_keys_of(&pre.items);
    uni.insert_all(&al.addrs.items);
    proof {
        assert forall|x: Seq<u8>| #[trigger] uni.has(x) == in_universe(x, *read, *pre, *post, *al)
            by {
            crate::collections::lemma_plookup_exists(read.items@, x);
            crate::collections::lemma_plookup_exists(post.items@, x);
            crate::collections::lemma_plookup_exists(pre.items@, x);
        }
    }

    let ghost acc0 = *access;
    let ghost db0 = *code_db;
    let mut traces: Vec<(Vec<u8>, TxnTrace)> = Vec::new();
    let mut i: usize = 0;
    while i < uni.items.len()
        invariant
            access.wf(),
            code_db.wf(),
            al.wf(),
            uni.wf(),
            acc0 == *old(access),
            db0 == *old(code_db),
            i <= uni.items@.len(),
            forall|x: Seq<u8>| #[trigger] uni.has(x) == in_universe(x, *read, *pre, *post, *al),
            traces@.len() == i,
            forall|j: int| 0 <= j < i ==> #[trigger] traces@[j].0@ == uni.items@[j]@,
            forall|j: int|
                0 <= j < i ==> trace_ok(
                    #[trigger] traces@[j].0@,
                    traces@[j].1,
                    *read,
                    *pre,
                    *post,
                    *al,
                ),
            forall|j: int| 0 <= j < i ==> access.touched(#[trigger] traces@[j].0@),
            forall|j: int, k: Seq<u8>| #![trigger access.has_key(traces@[j].0@, k)]
                0 <= j < i ==> ((match traces@[j].1.storage_read {
                    Some(s) => s.has(k),
                    None => false,
                }) ==> access.has_key(traces@[j].0@, k)),
            forall|j: int, k: Seq<u8>| #![trigger access.has_key(traces@[j].0@, k)]
                0 <= j < i ==> ((match traces@[j].1.storage_written {
                    Some(m) => m.has_key(k),
                    None => false,
                }) ==> access.has_key(traces@[j].0@, k)),
            forall|a2: Seq<u8>| #![trigger access.touched(a2)]
                access.touched(a2) == (acc0.touched(a2) || crate::collections::has_bytes(
                    uni.items@.subrange(0, i as int),
                    a2,
                )),
            forall|a2: Seq<u8>, k2: Seq<u8>| #![trigger access.has_key(a2, k2)]
                access.has_key(a2, k2) == (acc0.has_key(a2, k2) || (
                crate::collections::has_bytes(uni.items@.subrange(0, i as int), a2) && (
                read_key(*al, a2, read.spec_get(a2), k2) || written_val(
                    post.spec_get(a2),
                    pre.spec_get(a2),
                    k2,
                ) is Some))),
            forall|h: Seq<u8>|
                db0.has_key(h) ==> code_db.spec_get(h) == db0.spec_get(h),
            forall|h: Seq<u8>|
                #[trigger] code_db.has_key(h) ==> (db0.has_key(h) || exists|x: int|
                    0 <= x < i && (match account_code(#[trigger] uni.items@[x]@, *read, *post) {
                        Some(c) => h == keccak_of(code_bytes(c)),
                        None => false,
                    })),
            forall|h: Seq<u8>|
                #[trigger] code_db.has_key(h) && !db0.has_key(h)
                    ==> code_db.spec_get(h) is Some && h == keccak_of(
                    code_db.spec_get(h).unwrap(),
                ),
            forall|j: int|
                0 <= j < i ==> (match #[trigger] traces@[j].1.code_usage {
                    Some(CodeUsage::Write(b)) => code_db.has_key(keccak_of(b@)),
                    Some(CodeUsage::Read(h)) => code_db.has_key(h@),
                    None => true,
                }),
            forall|j: int| 0 <= j < i ==> !bad_code_at(#[trigger] uni.items@[j]@, *read, *post),
        decreases uni.items@.len() - i,
    {
        let a = clone_bytes(&uni.items[i]);
        let ghost acc_in = *access;
        access.touch(clone_bytes(&a));
        let read_st = read.get(&a);
        let pre_st = pre.get(&a);
        let post_st = post.get(&a);
        let ghost acc_mid = *access;
        let (storage_read, storage_written) = process_storage(
            access,
            &a,
            al,
            read_st,
            post_st,
            pre_st,
        );
        let ghost db_in = *code_db;
        let code_usage = match process_code(post_st, read_st, code_db) {
            Ok(cu) => cu,
            Err(e) => {
                proof {
                    assert(uni.items@[i as int]@ == a@);
                    assert(uni.has(a@));
                    assert(in_universe(a@, *read, *pre, *post, *al));
                    assert(bad_code_at(a@, *read, *post));
                    assert forall|a2: Seq<u8>| acc0.touched(a2) implies access.touched(
                        a2,
                    ) by {
                        assert(acc_in.touched(a2));
                        assert(acc_mid.touched(a2));
                    }
                    assert forall|a2: Seq<u8>, k2: Seq<u8>|
                        acc0.has_key(a2, k2) implies access.has_key(a2, k2) by {
                        assert(acc_in.has_key(a2, k2));
                        assert(acc_mid.has_key(a2, k2));
                    }
                    assert forall|h: Seq<u8>| db0.has_key(h) implies code_db.spec_get(h)
                        == db0.spec_get(h) by {
                        assert(db_in.spec_get(h) == db0.spec_get(h));
                        assert(db_in.has_key(h));
                    }
                    assert(code_db.items@ == db_in.items@);
                    assert forall|h: Seq<u8>| #[trigger] code_db.has_key(h) implies (
                    db0.has_key(h) || exists|a2: Seq<u8>|
                        in_universe(a2, *read, *pre, *post, *al) && (match account_code(
                            a2,
                            *read,
                            *post,
                        ) {
                            Some(c) => h == keccak_of(code_bytes(c)),
                            None => false,
                        })) by {
                        assert(db_in.has_key(h));
                        if !db0.has_key(h) {
                            let x = choose|x: int|
                                0 <= x < i && (match account_code(
                                    #[trigger] uni.items@[x]@,
                                    *read,
                                    *post,
                                ) {
                                    Some(c) => h == keccak_of(code_bytes(c)),
                                    None => false,
                                });
                            assert(uni.has(uni.items@[x]@));
                            assert(in_universe(uni.items@[x]@, *read, *pre, *post, *al));
                        }
                    }
                    assert forall|h: Seq<u8>|
                        #[trigger] code_db.has_key(h) && !db0.has_key(h)
                            implies code_db.spec_get(h) is Some && h == keccak_of(
                        code_db.spec_get(h).unwrap(),
                    ) by {
                        assert(db_in.has_key(h));
                    }
                }
                return Err(e);
            },
        };
        proof {
            assert(account_code(a@, *read, *post) == effective_code(
                opt_code(post_st),
                opt_code(read_st),
            ));
            assert(uni.items@[i as int]@ == a@);
            assert forall|h: Seq<u8>| #[trigger] code_db.has_key(h) implies (db0.has_key(h)
                || exists|x: int|
                0 <= x < i + 1 && (match account_code(#[trigger] uni.items@[x]@, *read, *post) {
                    Some(c) => h == keccak_of(code_bytes(c)),
                    None => false,
                })) by {
                if !db0.has_key(h) {
                    if db_in.has_key(h) {
                        let x = choose|x: int|
                            0 <= x < i && (match account_code(
                                #[trigger] uni.items@[x]@,
                                *read,
                                *post,
                            ) {
                                Some(c) => h == keccak_of(code_bytes(c)),
                                None => false,
                            });
                        assert(0 <= x < i + 1 && (match account_code(
                            uni.items@[x]@,
                            *read,
                            *post,
                        ) {
                            Some(c) => h == keccak_of(code_bytes(c)),
                            None => false,
                        }));
                    } else {
                        assert(match account_code(uni.items@[i as int]@, *read, *post) {
                            Some(c) => h == keccak_of(code_bytes(c)),
                            None => false,
                        });
                    }
                }
            }
            assert forall|h: Seq<u8>| #[trigger] code_db.has_key(h) && !db0.has_key(h)
                implies code_db.spec_get(h) is Some && h == keccak_of(
                code_db.spec_get(h).unwrap(),
            ) by {
                if db_in.has_key(h) {
                    assert(db_in.spec_get(h) is Some && h == keccak_of(
                        db_in.spec_get(h).unwrap(),
                    ));
                    assert(code_db.spec_get(h) == db_in.spec_get(h));
                }
            }
        }
        let balance = match post_st {
            Some(st) => match &st.balance {
                Some(b) => Some(clone_bytes(b)),
                None => None,
            },
            None => None,
        };
        let nonce = match post_st {
            Some(st) => match &st.nonce {
                Some(n) => Some(clone_bytes(n)),
                None => None,
            },
            None => None,
        };
        let nonce = match nonce {
            Some(n) => Some(n),
            None => match &code_usage {
                Some(CodeUsage::Write(_)) => Some(crate::types::make_word_of_u64(1)),
                _ => None,
            },
        };
        let self_destructed = process_self_destruct(post_st, pre_st);
        let tr = TxnTrace {
            balance,
            nonce,
            storage_read,
            storage_written,
            code_usage,
            self_destructed,
        };
        proof {
            assert forall|k: Seq<u8>| #![trigger read_key(*al, a@, read.spec_get(a@), k)]
                read_key_pred(*al, a@, read_st, k) == read_key(
                *al,
                a@,
                read.spec_get(a@),
                k,
            ) by {}
            assert forall|k: Seq<u8>| #![trigger written_val(post.spec_get(a@), pre.spec_get(a@), k)]
                write_val(post_st, pre_st, k) == written_val(
                post.spec_get(a@),
                pre.spec_get(a@),
                k,
            ) by {}
            assert(trace_ok(a@, tr, *read, *pre, *post, *al));
        }
        let ghost traces0 = traces@;
        traces.push((a, tr));
        proof {
            assert(traces@ =~= traces0.push((traces@[i as int].0, tr)));
            assert(uni.items@.subrange(0, i as int + 1) =~= uni.items@.subrange(
                0,
                i as int,
            ).push(uni.items@[i as int]));
            assert forall|a2: Seq<u8>| #[trigger] access.touched(a2) == (acc0.touched(a2)
                || crate::collections::has_bytes(uni.items@.subrange(0, i as int + 1), a2)) by {
                crate::collections::lemma_has_bytes_push(
                    uni.items@.subrange(0, i as int),
                    uni.items@[i as int],
                    a2,
                );
            }
            assert forall|a2: Seq<u8>, k2: Seq<u8>| #[trigger] access.has_key(a2, k2) == (
            acc0.has_key(a2, k2) || (crate::collections::has_bytes(
                uni.items@.subrange(0, i as int + 1),
                a2,
            ) && (read_key(*al, a2, read.spec_get(a2), k2) || written_val(
                post.spec_get(a2),
                pre.spec_get(a2),
                k2,
            ) is Some))) by {
                crate::collections::lemma_has_bytes_push(
                    uni.items@.subrange(0, i as int),
                    uni.items@[i as int],
                    a2,
                );
            }
        }
        i = i + 1;
    }
    proof {
        assert(uni.items@.subrange(0, uni.items@.len() as int) =~= uni.items@);
        assert forall|a2: Seq<u8>|
            in_universe(a2, *read, *pre, *post, *al) implies exists|j: int|
                0 <= j < traces@.len() && traces@[j].0@ == a2 by {
            assert(uni.has(a2));
            let j = choose|j: int| 0 <= j < uni.items@.len() && uni.items@[j]@ == a2;
            assert(traces@[j].0@ == a2);
        }
        assert forall|a2: Seq<u8>|
            in_universe(a2, *read, *pre, *post, *al) implies !bad_code_at(a2, *read, *post) by {
            assert(uni.has(a2));
            let j = choose|j: int| 0 <= j < uni.items@.len() && uni.items@[j]@ == a2;
            assert(!bad_code_at(uni.items@[j]@, *read, *post));
        }
        assert forall|h: Seq<u8>| #[trigger] code_db.has_key(h) implies (db0.has_key(h)
            || exists|a2: Seq<u8>|
            in_universe(a2, *read, *pre, *post, *al) && (match account_code(a2, *read, *post) {
                Some(c) => h == keccak_of(code_bytes(c)),
                None => false,
            })) by {
            if !db0.has_key(h) {
                let x = choose|x: int|
                    0 <= x < i && (match account_code(#[trigger] uni.items@[x]@, *read, *post) {
                        Some(c) => h == keccak_of(code_bytes(c)),
                        None => false,
                    });
                assert(uni.has(uni.items@[x]@));
                assert(in_universe(uni.items@[x]@, *read, *pre, *post, *al));
            }
        }
    }
    Ok(traces)
}

} // verus!
