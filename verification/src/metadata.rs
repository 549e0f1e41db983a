//! Block metadata assembly: the 256-slot ancestor-hash array, the unpacked
//! logs bloom, and the block-level record handed to the prover.

use vstd::prelude::*;

use crate::errors::WitnessError;
use crate::types::{word_of_u64, zero_word};

verus! {

/// A block header's fields, as plain values. Optional fields are ones the
/// node may omit, which is fatal where the witness needs them.
pub struct BlockHeaderData {
    pub number: Option<u64>,
    pub hash: Option<Vec<u8>>,
    pub parent_hash: Vec<u8>,
    pub miner: Vec<u8>,
    pub state_root: Vec<u8>,
    pub timestamp: u64,
    pub difficulty: Vec<u8>,
    pub mix_hash: Option<Vec<u8>>,
    pub gas_limit: u64,
    pub gas_used: u64,
    pub base_fee_per_gas: Option<u64>,
    pub logs_bloom: Vec<u8>,
    pub withdrawals: Vec<(Vec<u8>, u64)>,
}

/// Block-level scalars as 256-bit big-endian words.
pub struct BlockMetadata {
    pub block_beneficiary: Vec<u8>,
    pub block_timestamp: Vec<u8>,
    pub block_number: Vec<u8>,
    pub block_difficulty: Vec<u8>,
    pub block_random: Vec<u8>,
    pub block_gaslimit: Vec<u8>,
    pub block_chain_id: Vec<u8>,
    pub block_base_fee: Vec<u8>,
    pub block_gas_used: Vec<u8>,
    pub block_bloom: Vec<Vec<u8>>,
}

/// The 256 ancestor hashes and the target block's own hash.
pub struct BlockHashes {
    pub prev_hashes: Vec<Vec<u8>>,
    pub cur_hash: Vec<u8>,
}

pub struct BlockLevelData {
    pub b_meta: BlockMetadata,
    pub b_hashes: BlockHashes,
    pub withdrawals: Vec<(Vec<u8>, Vec<u8>)>,
}

/// Everything the prover needs beside the block trace itself.
pub struct OtherBlockData {
    pub b_data: BlockLevelData,
    pub checkpoint_state_trie_root: Vec<u8>,
}

/// First-match lookup of a parent hash by block height.
pub open spec fn parent_of(s: Seq<(u64, Vec<u8>)>, h: u64) -> Option<Seq<u8>>
    decreases s.len(),
{
    if s.len() == 0 {
        None
    } else if s[0].0 == h {
        Some(s[0].1@)
    } else {
        parent_of(s.drop_first(), h)
    }
}

/// Unpacks a 256-byte logs bloom into eight 256-bit big-endian words.
pub fn bloom_to_words(bloom: &Vec<u8>) -> (r: Vec<Vec<u8>>)
    requires
        bloom@.len() == 256,
    ensures
        r@.len() == 8,
        forall|i: int|
            0 <= i < 8 ==> #[trigger] r@[i]@ == bloom@.subrange(32 * i, 32 * i + 32),
{
    let mut r: Vec<Vec<u8>> = Vec::new();
    let mut i: usize = 0;
    while i < 8
        invariant
            bloom@.len() == 256,
            i <= 8,
            r@.len() == i,
            forall|x: int|
                0 <= x < i ==> #[trigger] r@[x]@ == bloom@.subrange(32 * x, 32 * x + 32),
        decreases 8 - i,
    {
        r.push(crate::rlp::copy_range(bloom, 32 * i, 32 * i + 32));
        i = i + 1;
    }
    r
}

fn find_parent(parents: &Vec<(u64, Vec<u8>)>, h: u64) -> (r: Option<&Vec<u8>>)
    ensures
        match r {
            Some(v) => parent_of(parents@, h) == Some(v@),
            None => parent_of(parents@, h) is None,
        },
{
    let mut i: usize = 0;
    while i < parents.len()
        invariant
            i <= parents@.len(),
            forall|j: int| 0 <= j < i ==> parents@[j].0 != h,
        decreases parents@.len() - i,
    {
        if parents[i].0 == h {
            proof {
                lemma_parent_of_index(parents@, h, i as int);
            }
            return Some(&parents[i].1);
        }
        i = i + 1;
    }
    proof {
        lemma_parent_of_none(parents@, h);
    }
    None
}

proof fn lemma_parent_of_index(s: Seq<(u64, Vec<u8>)>, h: u64, i: int)
    requires
        0 <= i < s.len(),
        s[i].0 == h,
        forall|j: int| 0 <= j < i ==> s[j].0 != h,
    ensures
        parent_of(s, h) == Some(s[i].1@),
    decreases i,
{
    if i > 0 {
        lemma_parent_of_index(s.drop_first(), h, i - 1);
    }
}

proof fn lemma_parent_of_none(s: Seq<(u64, Vec<u8>)>, h: u64)
    requires
        forall|j: int| 0 <= j < s.len() ==> s[j].0 != h,
    ensures
        parent_of(s, h) is None,
    decreases s.len(),
{
    if s.len() > 0 {
        lemma_parent_of_none(s.drop_first(), h);
    }
}

/// Lays the ancestor hashes out by height: slot `i` holds the parent hash of
/// block `number - i` when that block exists, and zero otherwise. A height
/// whose parent hash was not supplied is fatal.
pub fn prev_hashes_layout(block_number: u64, parents: &Vec<(u64, Vec<u8>)>) -> (r: Result<
    Vec<Vec<u8>>,
    WitnessError,
>)
    ensures
        match r {
            Ok(v) => v@.len() == 256 && (forall|i: int|
                0 <= i < 256 ==> #[trigger] v@[i]@ == (if block_number > i {
                    parent_of(parents@, (block_number - i) as u64).unwrap()
                } else {
                    zero_word()
                })) && (forall|i: int|
                0 <= i < 256 && block_number > i ==> #[trigger] parent_of(
                    parents@,
                    (block_number - i) as u64,
                ) is Some),
            Err(e) => e == WitnessError::MissingBlock && (exists|i: int|
                0 <= i < 256 && block_number > i && #[trigger] parent_of(
                    parents@,
                    (block_number - i) as u64,
                ) is None),
        },
{
    let mut v: Vec<Vec<u8>> = Vec::new();
    let mut i: usize = 0;
    while i < 256
        invariant
            i <= 256,
            v@.len() == i,
            forall|x: int|
                0 <= x < i ==> #[trigger] v@[x]@ == (if block_number > x {
                    parent_of(parents@, (block_number - x) as u64).unwrap()
                } else {
                    zero_word()
                }),
            forall|x: int|
                0 <= x < i && block_number > x ==> #[trigger] parent_of(
                    parents@,
                    (block_number - x) as u64,
                ) is Some,
        decreases 256 - i,
    {
        if block_number > i as u64 {
            match find_parent(parents, block_number - i as u64) {
                Some(h) => {
                    v.push(crate::access::clone_bytes(h));
                },
                None => {
                    return Err(WitnessError::MissingBlock);
                },
            }
        } else {
            v.push(crate::types::make_zero_word());
        }
        i = i + 1;
    }
    Ok(v)
}

/// Assembles the prover's block-level record from the target header, the
/// chain id, the checkpoint block's state root and the laid-out ancestor
/// hashes. A header missing a needed field is fatal.
pub fn assemble_other_block_data(
    header: &BlockHeaderData,
    chain_id: u64,
    checkpoint_state_trie_root: Vec<u8>,
    prev_hashes: Vec<Vec<u8>>,
) -> (r: Result<OtherBlockData, WitnessError>)
    requires
        header.logs_bloom@.len() == 256,
        prev_hashes@.len() == 256,
    ensures
        match r {
            Ok(o) => {
                &&& o.b_data.b_hashes.prev_hashes@.len() == 256
                &&& header.number is Some
                &&& header.mix_hash is Some
                &&& header.base_fee_per_gas is Some
                &&& header.hash is Some
                &&& o.b_data.b_meta.block_beneficiary@ == header.miner@
                &&& o.b_data.b_meta.block_timestamp@ == word_of_u64(header.timestamp)
                &&& o.b_data.b_meta.block_number@ == word_of_u64(header.number.unwrap())
                &&& o.b_data.b_meta.block_difficulty@ == header.difficulty@
                &&& o.b_data.b_meta.block_random@ == header.mix_hash.unwrap()@
                &&& o.b_data.b_meta.block_gaslimit@ == word_of_u64(header.gas_limit)
                &&& o.b_data.b_meta.block_chain_id@ == word_of_u64(chain_id)
                &&& o.b_data.b_meta.block_base_fee@ == word_of_u64(
                    header.base_fee_per_gas.unwrap(),
                )
                &&& o.b_data.b_meta.block_gas_used@ == word_of_u64(header.gas_used)
                &&& o.b_data.b_meta.block_bloom@.len() == 8
                &&& forall|i: int|
                    0 <= i < 8 ==> #[trigger] o.b_data.b_meta.block_bloom@[i]@
                        == header.logs_bloom@.subrange(32 * i, 32 * i + 32)
                &&& o.b_data.b_hashes.prev_hashes == prev_hashes
                &&& o.b_data.b_hashes.cur_hash@ == header.hash.unwrap()@
                &&& o.b_data.withdrawals@.len() == header.withdrawals@.len()
                &&& forall|i: int|
                    0 <= i < header.withdrawals@.len()
                        ==> #[trigger] o.b_data.withdrawals@[i].0@ == header.withdrawals@[i].0@
                        && o.b_data.withdrawals@[i].1@ == word_of_u64(header.withdrawals@[i].1)
                &&& o.checkpoint_state_trie_root == checkpoint_state_trie_root
            },
            Err(e) => {
                ||| (e == WitnessError::MissingBlockNumber && header.number is None)
                ||| (e == WitnessError::MissingMixHash && header.mix_hash is None)
                ||| (e == WitnessError::MissingBaseFee && header.base_fee_per_gas is None)
                ||| (e == WitnessError::MissingBlockHash && header.hash is None)
            },
        },
{
    let number = match header.number {
        Some(n) => n,
        None => {
            return Err(WitnessError::MissingBlockNumber);
        },
    };
    let mix_hash = match &header.mix_hash {
        Some(h) => crate::access::clone_bytes(h),
        None => {
            return Err(WitnessError::MissingMixHash);
        },
    };
    let base_fee = match header.base_fee_per_gas {
        Some(f) => f,
        None => {
            return Err(WitnessError::MissingBaseFee);
        },
    };
    let cur_hash = match &header.hash {
        Some(h) => crate::access::clone_bytes(h),
        None => {
            return Err(WitnessError::MissingBlockHash);
        },
    };
    let b_meta = BlockMetadata {
        block_beneficiary: crate::access::clone_bytes(&header.miner),
        block_timestamp: crate::types::make_word_of_u64(header.timestamp),
        block_number: crate::types::make_word_of_u64(number),
        block_difficulty: crate::access::clone_bytes(&header.difficulty),
        block_random: mix_hash,
        block_gaslimit: crate::types::make_word_of_u64(header.gas_limit),
        block_chain_id: crate::types::make_word_of_u64(chain_id),
        block_base_fee: crate::types::make_word_of_u64(base_fee),
        block_gas_used: crate::types::make_word_of_u64(header.gas_used),
        block_bloom: bloom_to_words(&header.logs_bloom),
    };
    let mut withdrawals: Vec<(Vec<u8>, Vec<u8>)> = Vec::new();
    let mut i: usize = 0;
    while i < header.withdrawals.len()
        invariant
            i <= header.withdrawals@.len(),
            withdrawals@.len() == i,
            forall|x: int|
                0 <= x < i ==> #[trigger] withdrawals@[x].0@ == header.withdrawals@[x].0@
                    && withdrawals@[x].1@ == word_of_u64(header.withdrawals@[x].1),
        decreases header.withdrawals@.len() - i,
    {
        withdrawals.push(
            (
                crate::access::clone_bytes(&header.withdrawals[i].0),
                crate::types::make_word_of_u64(header.withdrawals[i].1),
            ),
        );
        i = i + 1;
    }
    Ok(
        OtherBlockData {
            b_data: BlockLevelData {
                b_meta,
                b_hashes: BlockHashes { prev_hashes, cur_hash },
                withdrawals,
            },
            checkpoint_state_trie_root,
        },
    )
}

} // verus!
