//! What can go wrong.

use crate::block_id::{id_text, BlockId};
use vstd::prelude::*;
use vstd::string::StringExecFns;

verus! {

/// Bytes that are not a written record.
#[derive(Clone, Copy, Debug, PartialEq, Eq)]
pub struct MalformedRecord;

/// A failure of publishing, of walking or of the checkpoint.
#[derive(Clone, Copy, Debug, PartialEq, Eq)]
pub enum ChainError {
    /// The data source gave no usable payload; the cycle is skipped.
    DataSourceError,
    /// The ledger could not be reached.
    LedgerUnavailable,
    /// The ledger refused what was submitted.
    LedgerRejected,
    /// The ledger holds no record under this identifier.
    NotFound(BlockId),
    /// The record under this identifier cannot be read.
    MalformedRecord(BlockId),
    /// This identifier came up a second time on the way to the first record.
    CycleDetected(BlockId),
    /// The stored checkpoint names no identifier.
    CheckpointCorrupt,
    /// The record was published under this identifier, but the checkpoint
    /// could not be saved.
    CheckpointSaveFailed(BlockId),
}

/// What a failure is reported as: what went wrong and, where an identifier is
/// at fault or is to be kept, its text.
pub open spec fn message_spec(e: ChainError) -> Seq<char> {
    match e {
        ChainError::DataSourceError => "the data source gave no game"@,
        ChainError::LedgerUnavailable => "the ledger could not be reached"@,
        ChainError::LedgerRejected => "the ledger refused the record"@,
        ChainError::NotFound(id) => "the ledger holds no record under "@ + id_text(id@),
        ChainError::MalformedRecord(id) => "malformed record under "@ + id_text(id@),
        ChainError::CycleDetected(id) => "cycle detected at "@ + id_text(id@),
        ChainError::CheckpointCorrupt => "the checkpoint names no identifier"@,
        ChainError::CheckpointSaveFailed(id) => "checkpoint not saved for the record published under "@
            + id_text(id@),
    }
}

impl ChainError {
    /// Whether the run ends on this failure. A failure of the data source
    /// costs one cycle; every other failure ends the run.
    pub fn ends_run(&self) -> (r: bool)
        ensures
            r == !(*self is DataSourceError),
    {
        match self {
            ChainError::DataSourceError => false,
            _ => true,
        }
    }

    /// The identifier that the failure names, if it names one.
    pub fn identifier(&self) -> (r: Option<BlockId>)
        ensures
            r == match *self {
                ChainError::NotFound(id) => Some(id),
                ChainError::MalformedRecord(id) => Some(id),
                ChainError::CycleDetected(id) => Some(id),
                ChainError::CheckpointSaveFailed(id) => Some(id),
                _ => None,
            },
    {
        match self {
            ChainError::NotFound(id) => Some(*id),
            ChainError::MalformedRecord(id) => Some(*id),
            ChainError::CycleDetected(id) => Some(*id),
            ChainError::CheckpointSaveFailed(id) => Some(*id),
            _ => None,
        }
    }

    /// What the failure is reported as.
    pub fn message(&self) -> (text: String)
        ensures
            text@ == message_spec(*self),
    {
        match self {
            ChainError::DataSourceError => String::from_str("the data source gave no game"),
            ChainError::LedgerUnavailable => String::from_str("the ledger could not be reached"),
            ChainError::LedgerRejected => String::from_str("the ledger refused the record"),
            ChainError::NotFound(id) => String::from_str(
                "the ledger holds no record under ",
            ).concat(id.to_string().as_str()),
            ChainError::MalformedRecord(id) => String::from_str("malformed record under ").concat(
                id.to_string().as_str(),
            ),
            ChainError::CycleDetected(id) => String::from_str("cycle detected at ").concat(
                id.to_string().as_str(),
            ),
            ChainError::CheckpointCorrupt => String::from_str(
                "the checkpoint names no identifier",
            ),
            ChainError::CheckpointSaveFailed(id) => String::from_str(
                "checkpoint not saved for the record published under ",
            ).concat(id.to_string().as_str()),
        }
    }
}

} // verus!
