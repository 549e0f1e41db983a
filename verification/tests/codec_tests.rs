//! Tests for the RLP codec, the trie builder, receipt leaves, block metadata
//! and the wire conversions.

use rpc::collections::BytesMap;
use tiny_keccak::Hasher;
use rpc::compat::{ToAlloy, ToPrimitive};
use rpc::errors::WitnessError;
use rpc::metadata::{assemble_other_block_data, prev_hashes_layout, BlockHeaderData};
use rpc::rlp::{decode_node_items, rlp_encode_str, RlpItem};
use rpc::jerigon::{collect_block_trace, JerigonItem};
use rpc::trie::{is_extension_node, is_leaf_node, PartialTrieBuilder, TrieNode};
use rpc::txn::{TxnInfo, TxnMeta};
use rpc::txn::compute_receipt_bytes;
use rpc::witness::{generate_state_witness, ProofResponse};

fn keccak(data: &[u8]) -> Vec<u8> {
    let mut state = tiny_keccak::Keccak::v256();
    state.update(data);
    let mut out = [0u8; 32];
    state.finalize(&mut out);
    out.to_vec()
}

fn word(n: u8) -> Vec<u8> {
    let mut v = vec![0u8; 32];
    v[31] = n;
    v
}

fn addr(n: u8) -> Vec<u8> {
    let mut v = vec![0u8; 20];
    v[19] = n;
    v
}

#[test]
fn bloom() {
    let zero_bloom: Vec<u8> = vec![0u8; 256];
    let _did_not_panic: Vec<Vec<u8>> = zero_bloom.to_primitive();
}

#[test]
fn bloom_words_are_big_endian_chunks() {
    let mut bloom = vec![0u8; 256];
    bloom[0] = 0xaa;
    bloom[32] = 0xbb;
    bloom[255] = 0xcc;
    let words: Vec<Vec<u8>> = bloom.to_primitive();
    assert_eq!(words.len(), 8);
    assert_eq!(words[0][0], 0xaa);
    assert_eq!(words[1][0], 0xbb);
    assert_eq!(words[7][31], 0xcc);
}

#[test]
fn u64_widens_to_word() {
    let w: Vec<u8> = 0x0102u64.to_primitive();
    let mut expect = vec![0u8; 32];
    expect[30] = 1;
    expect[31] = 2;
    assert_eq!(w, expect);
}

#[test]
fn address_wire_form_is_identity() {
    let a = addr(4);
    let wire: Vec<u8> = a.clone().to_alloy();
    assert_eq!(wire, a);
}

#[test]
fn rlp_string_encodings() {
    assert_eq!(rlp_encode_str(&vec![]), vec![0x80]);
    assert_eq!(rlp_encode_str(&vec![0x7f]), vec![0x7f]);
    assert_eq!(rlp_encode_str(&vec![0x80]), vec![0x81, 0x80]);
    let long = vec![7u8; 56];
    let mut expect = vec![0xb8, 56];
    expect.extend_from_slice(&long);
    assert_eq!(rlp_encode_str(&long), expect);
}

#[test]
fn rlp_decode_list_of_strings() {
    // [ "\x3a", "\x01" ]
    let node = vec![0xc2, 0x3a, 0x01];
    let items = decode_node_items(&node).expect("well-formed list");
    assert_eq!(items, vec![RlpItem::Str(vec![0x3a]), RlpItem::Str(vec![0x01])]);
    // Not a list.
    assert!(decode_node_items(&vec![0x81, 0x80]).is_none());
    // Trailing bytes beyond the declared payload.
    assert!(decode_node_items(&vec![0xc1, 0x01, 0x02]).is_none());
    // Non-canonical: a one-byte string below 0x80 wrapped in a header.
    assert!(decode_node_items(&vec![0xc2, 0x81, 0x01]).is_none());
}

#[test]
fn node_flags_follow_first_nibble() {
    assert!(is_extension_node(&vec![0x00]));
    assert!(is_extension_node(&vec![0x1a]));
    assert!(!is_extension_node(&vec![0x20]));
    assert!(is_leaf_node(&vec![0x20]));
    assert!(is_leaf_node(&vec![0x3a]));
    assert!(!is_leaf_node(&vec![0x1a]));
}

#[test]
fn builder_resolves_leaf_node() {
    // Leaf with odd path nibble 0xa and value 0x01: RLP [ "\x3a", "\x01" ].
    let node = vec![0xc2, 0x3a, 0x01];
    let root = keccak(&node);
    let mut builder = PartialTrieBuilder::new(root, BytesMap::new());
    builder.insert_proof(&vec![node]);
    let trie = builder.build().expect("decodes");
    assert_eq!(trie, TrieNode::Leaf { nibbles: vec![0x0a], value: vec![0x01] });
}

#[test]
fn builder_without_nodes_yields_hash_stub() {
    let root = word(0x77);
    let builder = PartialTrieBuilder::new(root.clone(), BytesMap::new());
    let trie = builder.build().expect("stub");
    assert_eq!(trie, TrieNode::Hash(root));
}

#[test]
fn builder_resolves_extension_to_stub_child() {
    // Extension with odd path nibble 0x0 over a 32-byte hash child.
    let child_hash = word(0x55);
    let mut node = vec![0xe2, 0x10, 0xa0];
    node.extend_from_slice(&child_hash);
    let root = keccak(&node);
    let mut builder = PartialTrieBuilder::new(root, BytesMap::new());
    builder.insert_proof(&vec![node]);
    let trie = builder.build().expect("decodes");
    assert_eq!(
        trie,
        TrieNode::Extension { nibbles: vec![0x00], child: Box::new(TrieNode::Hash(child_hash)) }
    );
}

#[test]
fn builder_resolves_empty_branch() {
    // A branch of sixteen absent children and an empty value.
    let mut node = vec![0xd1];
    node.extend_from_slice(&[0x80; 17]);
    let root = keccak(&node);
    let mut builder = PartialTrieBuilder::new(root, BytesMap::new());
    builder.insert_proof(&vec![node]);
    let trie = builder.build().expect("decodes");
    match trie {
        TrieNode::Branch { children, value } => {
            assert_eq!(children.len(), 16);
            for c in &children {
                assert_eq!(*c, TrieNode::Empty);
            }
            assert!(value.is_empty());
        },
        other => panic!("expected a branch, got {:?}", other),
    }
}

#[test]
fn malformed_root_node_is_fatal() {
    // A three-item list is no trie node.
    let node = vec![0xc3, 0x01, 0x02, 0x03];
    let root = keccak(&node);
    let mut builder = PartialTrieBuilder::new(root, BytesMap::new());
    builder.insert_proof(&vec![node]);
    assert_eq!(builder.build().err(), Some(WitnessError::MalformedNode));
}

#[test]
fn reinserting_a_node_is_a_no_op() {
    let node = vec![0xc2, 0x3a, 0x01];
    let mut builder = PartialTrieBuilder::new(keccak(&node), BytesMap::new());
    builder.insert_proof(&vec![node.clone(), node.clone()]);
    builder.insert_proof(&vec![node]);
    assert_eq!(builder.nodes.len(), 1);
}

#[test]
fn receipt_leaf_legacy_unchanged() {
    let receipt_rlp = vec![0xc3, 0x01, 0x02, 0x03];
    assert_eq!(compute_receipt_bytes(&receipt_rlp, Some(0)), receipt_rlp);
    assert_eq!(compute_receipt_bytes(&receipt_rlp, None), receipt_rlp);
}

#[test]
fn receipt_leaf_typed_wraps_prefixed_bytes() {
    let receipt_rlp = vec![0xc3, 0x01, 0x02, 0x03];
    let leaf = compute_receipt_bytes(&receipt_rlp, Some(2));
    assert_eq!(leaf, vec![0x85, 0x02, 0xc3, 0x01, 0x02, 0x03]);
}

#[test]
fn prev_hashes_fill_by_height_with_zero_padding() {
    let h2 = word(0xd2);
    let h1 = word(0xd1);
    let parents = vec![(2u64, h2.clone()), (1u64, h1.clone())];
    let v = prev_hashes_layout(2, &parents).expect("all parents known");
    assert_eq!(v.len(), 256);
    assert_eq!(v[0], h2);
    assert_eq!(v[1], h1);
    for i in 2..256 {
        assert_eq!(v[i], vec![0u8; 32]);
    }
}

#[test]
fn prev_hashes_missing_height_is_fatal() {
    let parents = vec![(2u64, word(0xd2))];
    assert_eq!(prev_hashes_layout(2, &parents).err(), Some(WitnessError::MissingBlock));
}

#[test]
fn genesis_prev_hashes_are_all_zero() {
    let v = prev_hashes_layout(0, &vec![]).expect("nothing to fetch");
    assert_eq!(v.len(), 256);
    for h in &v {
        assert_eq!(*h, vec![0u8; 32]);
    }
}

fn sample_header() -> BlockHeaderData {
    BlockHeaderData {
        number: Some(7),
        hash: Some(word(0xaa)),
        parent_hash: word(0xab),
        miner: addr(3),
        state_root: word(0xac),
        timestamp: 1000,
        difficulty: word(0x02),
        mix_hash: Some(word(0xad)),
        gas_limit: 30_000_000,
        gas_used: 21_000,
        base_fee_per_gas: Some(7),
        logs_bloom: vec![0u8; 256],
        withdrawals: vec![(addr(9), 12)],
    }
}

#[test]
fn other_block_data_assembles_fields() {
    let header = sample_header();
    let prev = vec![vec![0u8; 32]; 256];
    let o = assemble_other_block_data(&header, 1, word(0xae), prev).expect("complete header");
    assert_eq!(o.b_data.b_meta.block_beneficiary, addr(3));
    assert_eq!(o.b_data.b_meta.block_number, word(7));
    assert_eq!(o.b_data.b_meta.block_random, word(0xad));
    assert_eq!(o.b_data.b_meta.block_chain_id, word(1));
    assert_eq!(o.b_data.b_meta.block_base_fee, word(7));
    assert_eq!(o.b_data.b_meta.block_bloom.len(), 8);
    assert_eq!(o.b_data.b_hashes.cur_hash, word(0xaa));
    assert_eq!(o.b_data.withdrawals, vec![(addr(9), word(12))]);
    assert_eq!(o.checkpoint_state_trie_root, word(0xae));
}

#[test]
fn missing_header_fields_are_fatal() {
    let mut header = sample_header();
    header.number = None;
    let r = assemble_other_block_data(&header, 1, word(0), vec![vec![0u8; 32]; 256]);
    assert_eq!(r.err(), Some(WitnessError::MissingBlockNumber));

    let mut header = sample_header();
    header.mix_hash = None;
    let r = assemble_other_block_data(&header, 1, word(0), vec![vec![0u8; 32]; 256]);
    assert_eq!(r.err(), Some(WitnessError::MissingMixHash));

    let mut header = sample_header();
    header.base_fee_per_gas = None;
    let r = assemble_other_block_data(&header, 1, word(0), vec![vec![0u8; 32]; 256]);
    assert_eq!(r.err(), Some(WitnessError::MissingBaseFee));

    let mut header = sample_header();
    header.hash = None;
    let r = assemble_other_block_data(&header, 1, word(0), vec![vec![0u8; 32]; 256]);
    assert_eq!(r.err(), Some(WitnessError::MissingBlockHash));
}

#[test]
fn witness_folds_account_and_storage_proofs() {
    let account_node = vec![0xc2, 0x3a, 0x01];
    let storage_node = vec![0xc2, 0x20, 0x07];
    let a = addr(1);
    let storage_hash = keccak(&storage_node);
    let resp = ProofResponse {
        address: a.clone(),
        storage_hash: storage_hash.clone(),
        account_proof: vec![account_node.clone()],
        storage_proof: vec![(word(1), vec![storage_node.clone()])],
    };
    let state_root = keccak(&account_node);
    let (state, storage) = generate_state_witness(state_root, &vec![resp]);
    assert!(state.nodes.contains_key(&keccak(&account_node)));
    assert_eq!(storage.items.len(), 1);
    assert_eq!(storage.items[0].0, keccak(&a));
    assert_eq!(storage.items[0].1.root, storage_hash);
    assert!(storage.items[0].1.nodes.contains_key(&keccak(&storage_node)));

    let images = rpc::witness::build_pre_images(&state, &storage).expect("builds");
    assert_eq!(images.state, TrieNode::Leaf { nibbles: vec![0x0a], value: vec![0x01] });
    assert_eq!(images.storage.len(), 1);
    assert_eq!(images.storage[0].1, TrieNode::Leaf { nibbles: vec![], value: vec![0x07] });
}

#[test]
fn witness_skips_storage_for_zero_root() {
    let account_node = vec![0xc2, 0x3a, 0x01];
    let resp = ProofResponse {
        address: addr(2),
        storage_hash: vec![0u8; 32],
        account_proof: vec![account_node.clone()],
        storage_proof: vec![(word(1), vec![])],
    };
    let (_, storage) = generate_state_witness(keccak(&account_node), &vec![resp]);
    assert!(storage.items.is_empty());
}

fn info(tag: u8) -> TxnInfo {
    TxnInfo {
        meta: TxnMeta {
            byte_code: vec![tag],
            new_txn_trie_node_byte: vec![tag],
            new_receipt_trie_node_byte: vec![tag],
            gas_used: tag as u64,
        },
        traces: vec![],
    }
}

#[test]
fn jerigon_trace_keeps_order_and_needs_witness() {
    let items = vec![
        JerigonItem::TxnResult(info(1)),
        JerigonItem::BlockWitness(vec![0xde]),
        JerigonItem::TxnResult(info(2)),
    ];
    let bt = collect_block_trace(items).expect("has a witness");
    assert_eq!(bt.txn_info.len(), 2);
    assert_eq!(bt.txn_info[0].meta.gas_used, 1);
    assert_eq!(bt.txn_info[1].meta.gas_used, 2);
    assert_eq!(bt.trie_pre_images, vec![0xde]);

    let r = collect_block_trace(vec![JerigonItem::TxnResult(info(3))]);
    assert_eq!(r.err(), Some(WitnessError::MissingBlockWitness));
}

#[test]
fn genesis_has_no_proof_target() {
    let access = rpc::access::AccessSet::new();
    let r = rpc::witness::proof_requests(&access, 0);
    assert_eq!(r.err(), Some(WitnessError::GenesisHasNoParent));
}

#[test]
fn block_without_author_is_fatal() {
    let r = rpc::witness::init_access_set(None, &vec![addr(1)]);
    assert_eq!(r.err(), Some(WitnessError::MissingAuthor));
}

#[test]
fn builder_resolves_inlined_child() {
    // A branch whose first child is an inlined leaf (a nested list shorter
    // than 32 bytes) and whose other slots are absent.
    let mut node = vec![0xd3, 0xc2, 0x20, 0x07];
    node.extend_from_slice(&[0x80; 16]);
    let root = keccak(&node);
    let mut builder = PartialTrieBuilder::new(root, BytesMap::new());
    builder.insert_proof(&vec![node]);
    let trie = builder.build().expect("decodes");
    match trie {
        TrieNode::Branch { children, value } => {
            assert_eq!(children[0], TrieNode::Leaf { nibbles: vec![], value: vec![0x07] });
            for c in &children[1..] {
                assert_eq!(*c, TrieNode::Empty);
            }
            assert!(value.is_empty());
        },
        other => panic!("expected a branch, got {:?}", other),
    }
}

#[test]
fn witness_merges_storage_proofs_per_account() {
    let node_a = vec![0xc2, 0x3a, 0x01];
    let node_b = vec![0xc2, 0x20, 0x07];
    let a = addr(5);
    let storage_hash = keccak(&node_a);
    let first = ProofResponse {
        address: a.clone(),
        storage_hash: storage_hash.clone(),
        account_proof: vec![],
        storage_proof: vec![(word(1), vec![node_a.clone()])],
    };
    let second = ProofResponse {
        address: a.clone(),
        storage_hash: word(0x99),
        account_proof: vec![],
        storage_proof: vec![(word(2), vec![node_b.clone()])],
    };
    let (_, storage) = generate_state_witness(word(0), &vec![first, second]);
    assert_eq!(storage.items.len(), 1);
    assert_eq!(storage.items[0].0, keccak(&a));
    // The builder keeps the root it was created with: the first response's.
    assert_eq!(storage.items[0].1.root, storage_hash);
    assert!(storage.items[0].1.nodes.contains_key(&keccak(&node_a)));
    assert!(storage.items[0].1.nodes.contains_key(&keccak(&node_b)));
}

#[test]
fn builder_resolves_even_leaf_path() {
    // Leaf with an even two-nibble path 0xab: RLP [ "\x20\xab", "\x01" ].
    let node = vec![0xc4, 0x82, 0x20, 0xab, 0x01];
    let root = keccak(&node);
    let mut builder = PartialTrieBuilder::new(root, BytesMap::new());
    builder.insert_proof(&vec![node]);
    let trie = builder.build().expect("decodes");
    assert_eq!(trie, TrieNode::Leaf { nibbles: vec![0x0a, 0x0b], value: vec![0x01] });
}
