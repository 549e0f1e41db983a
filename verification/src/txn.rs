//! Per-transaction processing: metadata bytes, typed-receipt leaf encoding,
//! access-list parsing, and the reconciliation of one transaction's traces.

use vstd::prelude::*;

use crate::access::{clone_bytes, AccessSet};
use crate::collections::BytesMap;
use crate::errors::WitnessError;
use crate::reconcile::{
    access_covers, account_code, bad_code_at, in_universe, process_tx_traces, traces_exact,
    AccountMap, TxnTrace,
};
use crate::hashing::keccak_of;
use crate::hexbytes::code_bytes;
use crate::rlp::{rlp_encode_str, rlp_str};

verus! {

/// Per-transaction byte material handed to the prover: the RLP-encoded
/// transaction (both as bytecode and as the new transaction-trie leaf), the
/// receipt-trie leaf, and the gas the transaction consumed.
pub struct TxnMeta {
    pub byte_code: Vec<u8>,
    pub new_txn_trie_node_byte: Vec<u8>,
    pub new_receipt_trie_node_byte: Vec<u8>,
    pub gas_used: u64,
}

/// Everything recorded about one transaction.
pub struct TxnInfo {
    pub meta: TxnMeta,
    pub traces: Vec<(Vec<u8>, TxnTrace)>,
}

/// A prestate-tracer answer: the flat read-mode map, or the diff-mode pair
/// (pre, post).
pub enum TraceFrame {
    Flat(AccountMap),
    Diff(AccountMap, AccountMap),
}

/// The receipt-trie leaf bytes: a legacy (type-0) receipt's leaf is its RLP
/// as is; a typed receipt's leaf is the type byte prepended to that RLP, the
/// whole wrapped as an RLP byte string.
pub open spec fn receipt_leaf(receipt_rlp: Seq<u8>, tx_type: Option<u64>) -> Seq<u8> {
    match tx_type {
        Some(t) => if t != 0 {
            rlp_str(seq![(t & 0xff) as u8] + receipt_rlp)
        } else {
            receipt_rlp
        },
        None => receipt_rlp,
    }
}

/// Encodes the receipt-trie leaf for a receipt's RLP and transaction type.
pub fn compute_receipt_bytes(receipt_rlp: &Vec<u8>, tx_type: Option<u64>) -> (r: Vec<u8>)
    requires
        receipt_rlp@.len() < 0xffff_ffff_ffff_0000u64 - 1,
    ensures
        r@ == receipt_leaf(receipt_rlp@, tx_type),
{
    match tx_type {
        Some(t) => {
            if t != 0 {
                let mut prefixed: Vec<u8> = Vec::new();
                prefixed.push((t & 0xff) as u8);
                let mut i: usize = 0;
                while i < receipt_rlp.len()
                    invariant
                        i <= receipt_rlp@.len(),
                        prefixed@.len() == 1 + i,
                        prefixed@[0] == (t & 0xff) as u8,
                        forall|j: int| 0 <= j < i ==> prefixed@[j + 1] == receipt_rlp@[j],
                    decreases receipt_rlp@.len() - i,
                {
                    prefixed.push(receipt_rlp[i]);
                    i = i + 1;
                }
                proof {
                    assert(prefixed@ =~= seq![(t & 0xff) as u8] + receipt_rlp@);
                }
                rlp_encode_str(&prefixed)
            } else {
                clone_bytes(receipt_rlp)
            }
        },
        None => clone_bytes(receipt_rlp),
    }
}

/// Parses an EIP-2930 access list into per-address key sets; duplicate
/// entries for one address merge.
pub fn parse_access_list(list: &Vec<(Vec<u8>, Vec<Vec<u8>>)>) -> (r: AccessSet)
    ensures
        r.wf(),
        forall|a: Seq<u8>|
            r.touched(a) == exists|i: int| 0 <= i < list@.len() && list@[i].0@ == a,
        forall|a: Seq<u8>, k: Seq<u8>|
            r.has_key(a, k) == exists|i: int, j: int|
                0 <= i < list@.len() && list@[i].0@ == a && 0 <= j < list@[i].1@.len()
                    && list@[i].1@[j]@ == k,
{
    let mut r = AccessSet::new();
    let mut i: usize = 0;
    while i < list.len()
        invariant
            r.wf(),
            i <= list@.len(),
            forall|a: Seq<u8>|
                r.touched(a) == exists|x: int| 0 <= x < i && list@[x].0@ == a,
            forall|a: Seq<u8>, k: Seq<u8>|
                r.has_key(a, k) == exists|x: int, y: int|
                    0 <= x < i && list@[x].0@ == a && 0 <= y < list@[x].1@.len()
                        && list@[x].1@[y]@ == k,
        decreases list@.len() - i,
    {
        let ghost r_outer = r;
        r.touch(clone_bytes(&list[i].0));
        proof {
            assert forall|a: Seq<u8>| #[trigger] r.touched(a) == exists|x: int|
                0 <= x < i + 1 && list@[x].0@ == a by {
                if r.touched(a) {
                    if r_outer.touched(a) {
                        let x = choose|x: int| 0 <= x < i && list@[x].0@ == a;
                        assert(0 <= x < i + 1 && list@[x].0@ == a);
                    } else {
                        assert(list@[i as int].0@ == a);
                    }
                } else {
                    if exists|x: int| 0 <= x < i + 1 && list@[x].0@ == a {
                        let x = choose|x: int| 0 <= x < i + 1 && list@[x].0@ == a;
                        if x < i {
                            assert(r_outer.touched(a));
                        }
                    }
                }
            }
        }
        let ghost r_row = r;
        let mut j: usize = 0;
        while j < list[i].1.len()
            invariant
                r.wf(),
                i < list@.len(),
                j <= list@[i as int].1@.len(),
                r.touched(list@[i as int].0@),
                forall|a: Seq<u8>| r.touched(a) == r_row.touched(a),
                forall|a: Seq<u8>, k: Seq<u8>| #![trigger r.has_key(a, k)]
                    r.has_key(a, k) == (r_row.has_key(a, k) || (a == list@[i as int].0@
                        && exists|y: int|
                        0 <= y < j && list@[i as int].1@[y]@ == k)),
            decreases list@[i as int].1@.len() - j,
        {
            let ghost r_in = r;
            r.add_key(clone_bytes(&list[i].0), clone_bytes(&list[i].1[j]));
            proof {
                assert forall|a: Seq<u8>, k: Seq<u8>| #[trigger] r.has_key(a, k) == (
                r_row.has_key(a, k) || (a == list@[i as int].0@ && exists|y: int|
                    0 <= y < j + 1 && list@[i as int].1@[y]@ == k)) by {
                    if a == list@[i as int].0@ && k == list@[i as int].1@[j as int]@ {
                        assert(list@[i as int].1@[j as int]@ == k);
                    } else {
                        if exists|y: int| 0 <= y < j + 1 && list@[i as int].1@[y]@ == k {
                            let y = choose|y: int|
                                0 <= y < j + 1 && list@[i as int].1@[y]@ == k;
                            if y < j {
                                assert(0 <= y < j && list@[i as int].1@[y]@ == k);
                            }
                        }
                    }
                }
            }
            j = j + 1;
        }
        proof {
            assert forall|a: Seq<u8>, k: Seq<u8>| #[trigger] r.has_key(a, k) == exists|
                x: int,
                y: int,
            |
                0 <= x < i + 1 && list@[x].0@ == a && 0 <= y < list@[x].1@.len()
                    && list@[x].1@[y]@ == k by {
                if r.has_key(a, k) {
                    if r_outer.has_key(a, k) {
                        let (x, y) = choose|x: int, y: int|
                            0 <= x < i && list@[x].0@ == a && 0 <= y < list@[x].1@.len()
                                && list@[x].1@[y]@ == k;
                        assert(0 <= x < i + 1 && list@[x].0@ == a && 0 <= y
                            < list@[x].1@.len() && list@[x].1@[y]@ == k);
                    } else {
                        let y = choose|y: int|
                            0 <= y < list@[i as int].1@.len() && list@[i as int].1@[y]@ == k;
                        assert(0 <= i < i + 1 && list@[i as int].0@ == a && 0 <= y
                            < list@[i as int].1@.len() && list@[i as int].1@[y]@ == k);
                    }
                } else {
                    if exists|x: int, y: int|
                        0 <= x < i + 1 && list@[x].0@ == a && 0 <= y < list@[x].1@.len()
                            && list@[x].1@[y]@ == k {
                        let (x, y) = choose|x: int, y: int|
                            0 <= x < i + 1 && list@[x].0@ == a && 0 <= y < list@[x].1@.len()
                                && list@[x].1@[y]@ == k;
                        if x < i {
                            assert(r_outer.has_key(a, k));
                        } else {
                            assert(a == list@[i as int].0@ && 0 <= y < list@[i as int].1@.len()
                                && list@[i as int].1@[y]@ == k);
                        }
                    }
                }
            }
        }
        i = i + 1;
    }
    r
}

/// Processes one transaction: builds its metadata bytes and reconciles its
/// traces, under the block-wide access set and code database.
pub fn process_transaction(
    tx_rlp: Vec<u8>,
    receipt_rlp: Vec<u8>,
    tx_type: Option<u64>,
    gas_used: Option<u64>,
    access_list: &AccessSet,
    pre_trace: &TraceFrame,
    diff_trace: &TraceFrame,
    accounts_state: &mut AccessSet,
    code_db: &mut BytesMap,
) -> (r: Result<TxnInfo, WitnessError>)
    requires
        old(accounts_state).wf(),
        old(code_db).wf(),
        access_list.wf(),
        receipt_rlp@.len() < 0xffff_ffff_ffff_0000u64 - 1,
    ensures
        final(accounts_state).wf(),
        final(code_db).wf(),
        forall|a2: Seq<u8>|
            old(accounts_state).touched(a2) ==> final(accounts_state).touched(a2),
        forall|a2: Seq<u8>, k2: Seq<u8>|
            old(accounts_state).has_key(a2, k2) ==> final(accounts_state).has_key(a2, k2),
        forall|h: Seq<u8>|
            old(code_db).has_key(h) ==> final(code_db).spec_get(h) == old(code_db).spec_get(h),
        forall|h: Seq<u8>|
            #[trigger] final(code_db).has_key(h) && !old(code_db).has_key(h)
                ==> final(code_db).spec_get(h) is Some && h == keccak_of(
                final(code_db).spec_get(h).unwrap(),
            ),
        pre_trace matches TraceFrame::Flat(read) ==> (diff_trace matches TraceFrame::Diff(
            pre,
            post,
        ) ==> (forall|h: Seq<u8>|
            #[trigger] final(code_db).has_key(h) ==> (old(code_db).has_key(h) || exists|
                a2: Seq<u8>,
            |
                in_universe(a2, *read, *pre, *post, *access_list) && (match account_code(
                    a2,
                    *read,
                    *post,
                ) {
                    Some(c) => h == keccak_of(code_bytes(c)),
                    None => false,
                })))),
        !(pre_trace matches TraceFrame::Flat(_) && diff_trace matches TraceFrame::Diff(_, _))
            ==> final(code_db).items@ == old(code_db).items@,
        match r {
            Ok(info) => {
                &&& gas_used == Some(info.meta.gas_used)
                &&& info.meta.byte_code@ == tx_rlp@
                &&& info.meta.new_txn_trie_node_byte@ == tx_rlp@
                &&& info.meta.new_receipt_trie_node_byte@ == receipt_leaf(receipt_rlp@, tx_type)
                &&& pre_trace matches TraceFrame::Flat(read)
                &&& diff_trace matches TraceFrame::Diff(pre, post)
                &&& (pre_trace matches TraceFrame::Flat(read) && diff_trace
                    matches TraceFrame::Diff(pre, post) ==> traces_exact(
                    info.traces@,
                    *read,
                    *pre,
                    *post,
                    *access_list,
                ) && access_covers(*final(accounts_state), info.traces@) && (forall|a2: Seq<u8>|
                    in_universe(a2, *read, *pre, *post, *access_list) ==> !bad_code_at(
                        a2,
                        *read,
                        *post,
                    )))
            },
            Err(e) => {
                ||| (e == WitnessError::MissingGasUsed && gas_used is None)
                ||| (e == WitnessError::TraceShapeMismatch && !(pre_trace
                    matches TraceFrame::Flat(_) && diff_trace matches TraceFrame::Diff(_, _)))
                ||| (e == WitnessError::InvalidCodeHex && (pre_trace matches TraceFrame::Flat(
                    read,
                ) && diff_trace matches TraceFrame::Diff(pre, post) && exists|a2: Seq<u8>|
                    in_universe(a2, *read, *pre, *post, *access_list) && bad_code_at(
                        a2,
                        *read,
                        *post,
                    )))
            },
        },
{
    let gas = match gas_used {
        Some(g) => g,
        None => {
            return Err(WitnessError::MissingGasUsed);
        },
    };
    let new_receipt_trie_node_byte = compute_receipt_bytes(&receipt_rlp, tx_type);
    let byte_code = clone_bytes(&tx_rlp);
    let meta = TxnMeta {
        byte_code,
        new_txn_trie_node_byte: tx_rlp,
        new_receipt_trie_node_byte,
        gas_used: gas,
    };
    match (pre_trace, diff_trace) {
        (TraceFrame::Flat(read), TraceFrame::Diff(pre, post)) => {
            let traces = process_tx_traces(accounts_state, code_db, access_list, read, pre, post)?;
            Ok(TxnInfo { meta, traces })
        },
        _ => Err(WitnessError::TraceShapeMismatch),
    }
}

} // verus!
