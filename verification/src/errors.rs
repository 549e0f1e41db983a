//! Fatal error taxonomy. Every error aborts the witness build for the block;
//! there is no partial success.

use vstd::prelude::*;

verus! {

/// Why a witness build was abandoned.
#[derive(Debug, Clone, Copy, PartialEq, Eq, Structural)]
pub enum WitnessError {
    /// The target block carries no `number` field.
    MissingBlockNumber,
    /// The target block carries no `hash` field.
    MissingBlockHash,
    /// The target block carries no `mix_hash` field.
    MissingMixHash,
    /// The target block carries no `base_fee_per_gas` field.
    MissingBaseFee,
    /// The target block carries no author (beneficiary) field.
    MissingAuthor,
    /// The receipt carries no `gas_used` field.
    MissingGasUsed,
    /// No block exists at a height whose parent hash is needed.
    MissingBlock,
    /// The first block has no parent to prove against.
    GenesisHasNoParent,
    /// The prestate tracer answered in the wrong mode.
    TraceShapeMismatch,
    /// A proof node's RLP is not a 2- or 17-item list, a path-nibble prefix is
    /// out of range, or a child reference is neither a 32-byte hash nor an
    /// inlined short node.
    MalformedNode,
    /// An account's code string is not 0x-prefixed hex.
    InvalidCodeHex,
    /// A node-side bundled trace carried no block witness.
    MissingBlockWitness,
}

} // verus!
