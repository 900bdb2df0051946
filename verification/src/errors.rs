//! Error types surfaced by the core primitives.

use vstd::prelude::*;

verus! {

/// Reed–Solomon failure cause, mirroring the erasure crate's conditions.
#[derive(Clone, Copy, Debug, PartialEq, Eq, Structural)]
pub enum RsError {
    /// The code needs at least one data shard.
    TooFewDataShards,
    /// The code needs at least one parity shard.
    TooFewParityShards,
    /// More than 256 shards cannot be represented in GF(2^8).
    TooManyShards,
    /// The shard list handed in holds fewer slots than the code has shards.
    TooFewShards,
    /// Shards must hold at least one byte.
    EmptyShard,
    /// All shards must be equally long.
    IncorrectShardSize,
    /// Fewer than `data_shards` shards survive, so nothing can be rebuilt.
    TooFewShardsPresent,
}

/// Canonical error type exposed by the core primitives.
#[derive(Clone, Copy, Debug)]
pub enum S3pError {
    /// Encryption or decryption failure in the symmetric primitives.
    Encryption(&'static str),
    /// Invalid nonce material supplied to the crypto helpers.
    InvalidNonce,
    /// Reed–Solomon erasure coding failure.
    ReedSolomon(RsError),
    /// Merkle tree builder failure.
    Merkle(&'static str),
    /// Fountain coding failure.
    Fountain(&'static str),
}

impl S3pError {
    /// A short description of the failure, for callers that print errors.
    pub fn describe(&self) -> (r: &'static str) {
        match self {
            S3pError::Encryption(m) => m,
            S3pError::InvalidNonce => "invalid nonce length",
            S3pError::ReedSolomon(_) => "reed-solomon error",
            S3pError::Merkle(m) => m,
            S3pError::Fountain(m) => m,
        }
    }
}

/// Accounting failures raised by the ledger state machine.
#[derive(Clone, Debug)]
pub enum LedgerError {
    /// The account exists but does not hold `amount`.
    InsufficientAccountFunds { account: String },
    /// The budget exists but does not hold the requested total.
    InsufficientBudgetFunds { budget_id: String },
    /// No account under this identifier.
    UnknownAccount { account: String },
    /// No budget under this identifier.
    UnknownBudget { budget_id: String },
    /// The receipt was applied before.
    DuplicateReceipt,
}

/// Committee receipt verification failures.
#[derive(Clone, Debug)]
pub enum VerificationError {
    /// A signature names a member outside the committee.
    UnknownMember(String),
    /// A member's signature bytes are not a signature at all.
    MalformedSignature(String),
    /// A member's signature does not verify against the receipt digest.
    InvalidSignature(String),
    /// Fewer distinct valid signers than the quorum demands.
    InsufficientQuorum { expected: usize, actual: usize },
}

} // verus!
