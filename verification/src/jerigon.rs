//! The node-side bundled tracer: one call returns, interleaved, the
//! per-transaction records and the block witness. Collecting them must keep
//! transaction order and find exactly one witness.

use vstd::prelude::*;

use crate::errors::WitnessError;
use crate::txn::TxnInfo;

verus! {

/// One entry of a bundled trace: a transaction's record, or the block
/// witness as compact trie pre-image bytes.
pub enum JerigonItem {
    TxnResult(TxnInfo),
    BlockWitness(Vec<u8>),
}

/// A block trace in the bundled shape: transaction records in block order,
/// and the compact pre-image bytes.
pub struct JerigonBlockTrace {
    pub txn_info: Vec<TxnInfo>,
    pub trie_pre_images: Vec<u8>,
}

/// The transaction records of an entry list, in order.
pub open spec fn txn_results(items: Seq<JerigonItem>) -> Seq<TxnInfo>
    decreases items.len(),
{
    if items.len() == 0 {
        Seq::empty()
    } else {
        let rest = txn_results(items.drop_last());
        match items.last() {
            JerigonItem::TxnResult(t) => rest.push(t),
            JerigonItem::BlockWitness(_) => rest,
        }
    }
}

/// The last block witness of an entry list, if any.
pub open spec fn last_witness(items: Seq<JerigonItem>) -> Option<Vec<u8>>
    decreases items.len(),
{
    if items.len() == 0 {
        None
    } else {
        match items.last() {
            JerigonItem::BlockWitness(w) => Some(w),
            JerigonItem::TxnResult(_) => last_witness(items.drop_last()),
        }
    }
}

/// Collects a bundled trace: transaction records in the order they came,
/// and the block witness. A trace without a witness is fatal.
pub fn collect_block_trace(items: Vec<JerigonItem>) -> (r: Result<
    JerigonBlockTrace,
    WitnessError,
>)
    ensures
        match r {
            Ok(bt) => bt.txn_info@ == txn_results(items@) && Some(bt.trie_pre_images)
                == last_witness(items@),
            Err(e) => e == WitnessError::MissingBlockWitness && last_witness(items@) is None,
        },
{
    let ghost orig = items@;
    let mut items = items;
    let mut txn_info: Vec<TxnInfo> = Vec::new();
    let mut witness: Option<Vec<u8>> = None;
    let ghost mut k: int = 0;
    while items.len() > 0
        invariant
            0 <= k <= orig.len(),
            items@ =~= orig.skip(k),
            txn_info@ == txn_results(orig.take(k)),
            witness == last_witness(orig.take(k)),
        decreases items@.len(),
    {
        let it = items.remove(0);
        proof {
            assert(it == orig[k]);
            assert(items@ =~= orig.skip(k + 1));
            assert(orig.take(k + 1).drop_last() =~= orig.take(k));
            assert(orig.take(k + 1).last() == orig[k]);
        }
        match it {
            JerigonItem::TxnResult(t) => {
                txn_info.push(t);
            },
            JerigonItem::BlockWitness(w) => {
                witness = Some(w);
            },
        }
        proof {
            k = k + 1;
        }
    }
    proof {
        assert(orig.take(orig.len() as int) =~= orig);
    }
    match witness {
        Some(w) => Ok(JerigonBlockTrace { txn_info, trie_pre_images: w }),
        None => Err(WitnessError::MissingBlockWitness),
    }
}

} // verus!
