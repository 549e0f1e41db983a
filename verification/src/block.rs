//! Block-trace assembly: the per-transaction records in canonical block
//! order, the code database (omitted when empty), and the trie pre-images.

use vstd::prelude::*;

use crate::collections::BytesMap;
use crate::txn::TxnInfo;
use crate::witness::SeparateTriePreImages;

verus! {

/// The witness of one block, handed to the prover.
pub struct BlockTrace {
    pub txn_info: Vec<TxnInfo>,
    pub code_db: Option<BytesMap>,
    pub trie_pre_images: SeparateTriePreImages,
}

/// Assembles the block trace: transaction records stay in the order given,
/// which callers keep canonical, and an empty code database is omitted.
pub fn assemble_block_trace(
    txn_info: Vec<TxnInfo>,
    code_db: BytesMap,
    trie_pre_images: SeparateTriePreImages,
) -> (r: BlockTrace)
    ensures
        r.txn_info == txn_info,
        code_db.items@.len() == 0 ==> r.code_db is None,
        code_db.items@.len() > 0 ==> r.code_db == Some(code_db),
        r.trie_pre_images == trie_pre_images,
{
    let code_db = if code_db.is_empty() {
        None
    } else {
        Some(code_db)
    };
    BlockTrace { txn_info, code_db, trie_pre_images }
}

} // verus!
