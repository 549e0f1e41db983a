//! Witness extraction core for an Ethereum-compatible execution node.
//!
//! The library reconstructs the complete witness a downstream prover needs to
//! re-execute one block: per-transaction access traces merged into account and
//! storage access sets, Merkle-Patricia proof nodes folded into sparse partial
//! tries, typed-receipt leaf bytes, and the surrounding block metadata.
//! All network traffic stays outside the library; callers hand in the plain
//! values each RPC response carries and receive plain values back.

pub mod types;
pub mod hashing;
pub mod collections;
pub mod access;
pub mod errors;
pub mod hexbytes;
pub mod reconcile;
pub mod rlp;
pub mod txn;
pub mod metadata;
pub mod trie;
pub mod witness;
pub mod block;
pub mod jerigon;
pub mod compat;
