//! Scenario tests for the access reconciler and the transaction processor.

use rpc::access::AccessSet;
use rpc::block::assemble_block_trace;
use rpc::collections::BytesMap;
use tiny_keccak::Hasher;
use rpc::errors::WitnessError;
use rpc::reconcile::{process_tx_traces, AccountMap, AccountState, CodeUsage, TxnTrace};
use rpc::trie::TrieNode;
use rpc::txn::{parse_access_list, process_transaction, TraceFrame};
use rpc::witness::SeparateTriePreImages;

fn keccak(data: &[u8]) -> Vec<u8> {
    let mut state = tiny_keccak::Keccak::v256();
    state.update(data);
    let mut out = [0u8; 32];
    state.finalize(&mut out);
    out.to_vec()
}

fn addr(n: u8) -> Vec<u8> {
    let mut v = vec![0u8; 20];
    v[19] = n;
    v
}

fn word(n: u8) -> Vec<u8> {
    let mut v = vec![0u8; 32];
    v[31] = n;
    v
}

fn plain_account(balance: Option<Vec<u8>>, nonce: Option<Vec<u8>>) -> AccountState {
    AccountState { balance, nonce, code: None, storage: None }
}

fn storage_account(slots: Vec<(Vec<u8>, Vec<u8>)>) -> AccountState {
    AccountState {
        balance: None,
        nonce: None,
        code: None,
        storage: Some(BytesMap { items: slots }),
    }
}

fn find_trace<'a>(traces: &'a [(Vec<u8>, TxnTrace)], a: &[u8]) -> &'a TxnTrace {
    &traces.iter().find(|(x, _)| x.as_slice() == a).expect("address missing").1
}

#[test]
fn pure_transfer_touches_three_accounts() {
    // A plain value transfer: sender, recipient and beneficiary are touched,
    // no storage keys, no code, and the block trace omits the code database.
    let sender = addr(1);
    let recipient = addr(2);
    let beneficiary = addr(3);
    let read = AccountMap {
        items: vec![
            (sender.clone(), plain_account(Some(word(9)), Some(word(1)))),
            (recipient.clone(), plain_account(Some(word(0)), None)),
        ],
    };
    let pre = AccountMap {
        items: vec![
            (sender.clone(), plain_account(Some(word(9)), Some(word(1)))),
            (recipient.clone(), plain_account(Some(word(0)), None)),
        ],
    };
    let post = AccountMap {
        items: vec![
            (sender.clone(), plain_account(Some(word(8)), Some(word(2)))),
            (recipient.clone(), plain_account(Some(word(1)), None)),
        ],
    };
    let al = AccessSet::new();
    let mut access =
        rpc::witness::init_access_set(Some(beneficiary.clone()), &vec![]).expect("author given");
    let mut code_db = BytesMap::new();
    let traces =
        process_tx_traces(&mut access, &mut code_db, &al, &read, &pre, &post).expect("reconciles");

    assert_eq!(traces.len(), 2);
    assert_eq!(access.addrs.items.len(), 3);
    assert!(access.addrs.contains(&sender));
    assert!(access.addrs.contains(&recipient));
    assert!(access.addrs.contains(&beneficiary));
    assert_eq!(access.pairs.len(), 0);
    assert!(code_db.is_empty());

    let t = find_trace(&traces, &sender);
    assert_eq!(t.balance, Some(word(8)));
    assert_eq!(t.nonce, Some(word(2)));
    assert!(t.storage_read.is_none());
    assert!(t.storage_written.is_none());
    assert!(t.code_usage.is_none());
    assert!(t.self_destructed.is_none());

    let pre_images = SeparateTriePreImages { state: TrieNode::Hash(word(0)), storage: vec![] };
    let bt = assemble_block_trace(vec![], code_db, pre_images);
    assert!(bt.code_db.is_none());
}

#[test]
fn sload_then_sstore() {
    // A slot read then written: it shows up in both the read set and the
    // write map.
    let a = addr(5);
    let k = word(1);
    let read = AccountMap {
        items: vec![(a.clone(), storage_account(vec![(k.clone(), word(0))]))],
    };
    let pre = AccountMap {
        items: vec![(a.clone(), storage_account(vec![(k.clone(), word(0))]))],
    };
    let post = AccountMap {
        items: vec![(a.clone(), storage_account(vec![(k.clone(), word(0x42))]))],
    };
    let al = AccessSet::new();
    let mut access = AccessSet::new();
    let mut code_db = BytesMap::new();
    let traces =
        process_tx_traces(&mut access, &mut code_db, &al, &read, &pre, &post).expect("reconciles");

    let t = find_trace(&traces, &a);
    let rs = t.storage_read.as_ref().expect("read set present");
    assert_eq!(rs.items.len(), 1);
    assert!(rs.contains(&k));
    let wm = t.storage_written.as_ref().expect("write map present");
    assert_eq!(wm.items.len(), 1);
    assert_eq!(wm.get(&k), Some(&word(0x42)));
    assert!(t.balance.is_none());
    assert!(t.self_destructed.is_none());
    assert!(access.contains_pair(&a, &k));
}

#[test]
fn sstore_to_zero_emits_zero_write() {
    // A slot cleared to zero is absent from the post half; the pre half
    // recovers it as a zero write.
    let a = addr(6);
    let k = word(2);
    let read = AccountMap { items: vec![] };
    let pre = AccountMap {
        items: vec![(a.clone(), storage_account(vec![(k.clone(), word(7))]))],
    };
    let post = AccountMap { items: vec![(a.clone(), storage_account(vec![]))] };
    let al = AccessSet::new();
    let mut access = AccessSet::new();
    let mut code_db = BytesMap::new();
    let traces =
        process_tx_traces(&mut access, &mut code_db, &al, &read, &pre, &post).expect("reconciles");

    let t = find_trace(&traces, &a);
    let wm = t.storage_written.as_ref().expect("write map present");
    assert_eq!(wm.get(&k), Some(&word(0)));
    assert!(t.storage_read.is_none());
}

#[test]
fn contract_creation_writes_code_and_nonce() {
    // CREATE: code usage is a write of the decoded bytes, the nonce falls
    // back to one, and the code database holds the bytes under their hash.
    let a = addr(7);
    let code_bytes = vec![0x60u8, 0xff];
    let post_acct = AccountState {
        balance: None,
        nonce: None,
        code: Some(b"0x60ff".to_vec()),
        storage: None,
    };
    let read = AccountMap { items: vec![] };
    let pre = AccountMap { items: vec![] };
    let post = AccountMap { items: vec![(a.clone(), post_acct)] };
    let al = AccessSet::new();
    let mut access = AccessSet::new();
    let mut code_db = BytesMap::new();
    let traces =
        process_tx_traces(&mut access, &mut code_db, &al, &read, &pre, &post).expect("reconciles");

    let t = find_trace(&traces, &a);
    assert_eq!(t.code_usage, Some(CodeUsage::Write(code_bytes.clone())));
    assert_eq!(t.nonce, Some(word(1)));
    assert_eq!(code_db.get(&keccak(&code_bytes)), Some(&code_bytes));
}

#[test]
fn code_read_records_hash() {
    // A call into unchanged code: code usage is a read of the code hash.
    let a = addr(8);
    let code_bytes = vec![0x00u8, 0x01];
    let read_acct = AccountState {
        balance: None,
        nonce: None,
        code: Some(b"0x0001".to_vec()),
        storage: None,
    };
    let read = AccountMap { items: vec![(a.clone(), read_acct)] };
    let pre = AccountMap { items: vec![] };
    let post = AccountMap { items: vec![] };
    let al = AccessSet::new();
    let mut access = AccessSet::new();
    let mut code_db = BytesMap::new();
    let traces =
        process_tx_traces(&mut access, &mut code_db, &al, &read, &pre, &post).expect("reconciles");

    let t = find_trace(&traces, &a);
    assert_eq!(t.code_usage, Some(CodeUsage::Read(keccak(&code_bytes))));
    assert_eq!(code_db.get(&keccak(&code_bytes)), Some(&code_bytes));
}

#[test]
fn self_destruct_marked() {
    // An address in the pre half but not the post half self-destructed.
    let a = addr(9);
    let read = AccountMap { items: vec![] };
    let pre = AccountMap { items: vec![(a.clone(), plain_account(Some(word(1)), None))] };
    let post = AccountMap { items: vec![] };
    let al = AccessSet::new();
    let mut access = AccessSet::new();
    let mut code_db = BytesMap::new();
    let traces =
        process_tx_traces(&mut access, &mut code_db, &al, &read, &pre, &post).expect("reconciles");

    let t = find_trace(&traces, &a);
    assert_eq!(t.self_destructed, Some(true));
}

#[test]
fn self_destruct_unset_when_recreated() {
    // Present in both halves: destroyed and recreated in one transaction, so
    // the marker stays unset.
    let a = addr(10);
    let read = AccountMap { items: vec![] };
    let pre = AccountMap { items: vec![(a.clone(), plain_account(Some(word(1)), None))] };
    let post = AccountMap { items: vec![(a.clone(), plain_account(Some(word(2)), None))] };
    let al = AccessSet::new();
    let mut access = AccessSet::new();
    let mut code_db = BytesMap::new();
    let traces =
        process_tx_traces(&mut access, &mut code_db, &al, &read, &pre, &post).expect("reconciles");

    let t = find_trace(&traces, &a);
    assert!(t.self_destructed.is_none());
}

#[test]
fn access_list_slot_never_read_still_counts() {
    // An EIP-2930 entry the EVM never touches is still a read, and still
    // forces a storage proof through the access set.
    let a = addr(11);
    let k = word(3);
    let al = parse_access_list(&vec![(a.clone(), vec![k.clone()])]);
    let read = AccountMap { items: vec![] };
    let pre = AccountMap { items: vec![] };
    let post = AccountMap { items: vec![] };
    let mut access = AccessSet::new();
    let mut code_db = BytesMap::new();
    let traces =
        process_tx_traces(&mut access, &mut code_db, &al, &read, &pre, &post).expect("reconciles");

    let t = find_trace(&traces, &a);
    let rs = t.storage_read.as_ref().expect("read set present");
    assert!(rs.contains(&k));
    assert!(t.storage_written.is_none());
    assert!(access.contains_pair(&a, &k));

    let requests = rpc::witness::proof_requests(&access, 100).expect("block has a parent");
    assert_eq!(requests.len(), 1);
    assert_eq!(requests[0].address, a);
    assert_eq!(requests[0].storage_keys, vec![k]);
    assert_eq!(requests[0].block_number, 99);
}

#[test]
fn access_list_merges_duplicate_addresses() {
    let a = addr(12);
    let al = parse_access_list(&vec![
        (a.clone(), vec![word(1)]),
        (a.clone(), vec![word(2), word(1)]),
    ]);
    assert!(al.contains_pair(&a, &word(1)));
    assert!(al.contains_pair(&a, &word(2)));
    assert_eq!(al.addrs.items.len(), 1);
    assert_eq!(al.pairs.len(), 2);
}

#[test]
fn bad_code_hex_is_fatal() {
    let a = addr(13);
    let post_acct = AccountState {
        balance: None,
        nonce: None,
        code: Some(b"0xzz".to_vec()),
        storage: None,
    };
    let read = AccountMap { items: vec![] };
    let pre = AccountMap { items: vec![] };
    let post = AccountMap { items: vec![(a.clone(), post_acct)] };
    let al = AccessSet::new();
    let mut access = AccessSet::new();
    let mut code_db = BytesMap::new();
    let r = process_tx_traces(&mut access, &mut code_db, &al, &read, &pre, &post);
    assert_eq!(r.err(), Some(WitnessError::InvalidCodeHex));
}

#[test]
fn transaction_without_gas_used_is_fatal() {
    let al = AccessSet::new();
    let read = AccountMap { items: vec![] };
    let pre = AccountMap { items: vec![] };
    let post = AccountMap { items: vec![] };
    let pre_trace = TraceFrame::Flat(read);
    let diff_trace = TraceFrame::Diff(pre, post);
    let mut access = AccessSet::new();
    let mut code_db = BytesMap::new();
    let r = process_transaction(
        vec![1, 2],
        vec![3, 4],
        Some(0),
        None,
        &al,
        &pre_trace,
        &diff_trace,
        &mut access,
        &mut code_db,
    );
    assert_eq!(r.err(), Some(WitnessError::MissingGasUsed));
}

#[test]
fn wrong_trace_shape_is_fatal() {
    let al = AccessSet::new();
    let pre_trace = TraceFrame::Flat(AccountMap { items: vec![] });
    let diff_trace = TraceFrame::Flat(AccountMap { items: vec![] });
    let mut access = AccessSet::new();
    let mut code_db = BytesMap::new();
    let r = process_transaction(
        vec![1, 2],
        vec![3, 4],
        None,
        Some(21000),
        &al,
        &pre_trace,
        &diff_trace,
        &mut access,
        &mut code_db,
    );
    assert_eq!(r.err(), Some(WitnessError::TraceShapeMismatch));
}

#[test]
fn transaction_meta_carries_tx_bytes() {
    let al = AccessSet::new();
    let pre_trace = TraceFrame::Flat(AccountMap { items: vec![] });
    let diff_trace = TraceFrame::Diff(
        AccountMap { items: vec![] },
        AccountMap { items: vec![] },
    );
    let mut access = AccessSet::new();
    let mut code_db = BytesMap::new();
    let info = process_transaction(
        vec![0xc1, 0x80],
        vec![0xc2, 0x01, 0x02],
        Some(0),
        Some(21000),
        &al,
        &pre_trace,
        &diff_trace,
        &mut access,
        &mut code_db,
    )
    .expect("processes");
    assert_eq!(info.meta.byte_code, vec![0xc1, 0x80]);
    assert_eq!(info.meta.new_txn_trie_node_byte, vec![0xc1, 0x80]);
    assert_eq!(info.meta.new_receipt_trie_node_byte, vec![0xc2, 0x01, 0x02]);
    assert_eq!(info.meta.gas_used, 21000);
    assert!(info.traces.is_empty());
}
