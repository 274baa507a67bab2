use vstd::prelude::*;
use crate::digest::{BlockHash, CiphertextId, Commitment, LedgerRoot, SerialNumber, TransactionId, TransitionId};

verus! {

/// Why an operation of the ledger failed.
#[derive(Clone, Copy, Debug, PartialEq, Eq, Structural)]
pub enum LedgerError {
    /// The transaction is already in storage.
    TransactionExists(TransactionId),
    /// The transaction is not in storage.
    TransactionNotFound(TransactionId),
    /// The transition is not in storage.
    TransitionNotFound(TransitionId),
    /// No transition in storage holds the ciphertext ID.
    CiphertextNotFound(CiphertextId),
    /// The transition that the ciphertext ID points to does not hold it.
    CiphertextMissing(CiphertextId),
    /// No block hash is stored for the height.
    BlockHeightNotFound(u32),
    /// No block header is stored for the block hash.
    BlockHeaderNotFound(BlockHash),
    /// No transaction list is stored for the block hash.
    BlockTransactionsNotFound(BlockHash),
    /// A block is already stored at the height.
    BlockExists(u32),
    /// The genesis block cannot be removed.
    GenesisRemoval,
    /// The starting height is above the ending height.
    InvalidHeightRange(u32, u32),
    /// The block does not pass its own validity check.
    InvalidBlock(u32),
    /// The block's height is not the next one: (found, expected).
    UnexpectedHeight(u32, u32),
    /// The block does not extend the latest block.
    WrongPreviousBlockHash(u32),
    /// The block's timestamp is too far in the future.
    TimestampTooFarAhead(i64),
    /// The block's timestamp is not after the latest block's.
    TimestampNotIncreasing(i64),
    /// The block's difficulty target is not the expected one: (found, expected).
    WrongDifficultyTarget(u64, u64),
    /// The block's hash is already in the ledger.
    BlockHashExists(u32),
    /// The block's ledger root is not the current one.
    WrongLedgerRoot(u32),
    /// The serial number was already spent.
    SerialNumberExists(SerialNumber),
    /// The commitment was already created.
    CommitmentExists(Commitment),
    /// A transaction of the block refers to an unknown ledger root.
    UnknownLedgerRoot(TransactionId, LedgerRoot),
    /// The ledger root of the block at the height is missing from storage.
    LedgerRootMissing(u32),
    /// The ledger root of the block at the height is stored for another height:
    /// (expected, found).
    LedgerRootHeightMismatch(u32, u32),
    /// The ledger tree does not match the ledger root of the block at the height.
    LedgerTreeMismatch(u32),
    /// The ledger tree refused a block hash.
    LedgerTreeRefused(BlockHash),
    /// The ledger tree could not be built.
    LedgerTreeFailure,
    /// The number of blocks to remove is 0 or above the maximum fork depth.
    InvalidRemovalCount(u32),
    /// No transition in storage holds the commitment.
    CommitmentNotFound(Commitment),
    /// The transaction does not occur exactly once in its block.
    TransactionIndexNotUnique(TransactionId),
    /// The ledger tree gives no inclusion proof for the block hash.
    LedgerInclusionProofFailure(BlockHash),
}

} // verus!
