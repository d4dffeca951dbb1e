//! The checkpoint: the identifier of the newest record, kept as text between
//! runs.

use crate::block_id::{id_text, lemma_text_round_trip, parse_id_text, BlockId};
use crate::error::ChainError;
use vstd::prelude::*;

verus! {

/// What a stored checkpoint says: no tip where nothing is stored, the tip
/// that the stored text names, or `CheckpointCorrupt` where it names none.
pub open spec fn checkpoint_spec(stored: Option<Seq<char>>) -> Result<Option<BlockId>, ChainError> {
    match stored {
        None => Ok(None),
        Some(text) => match parse_id_text(text) {
            Some(id) => Ok(Some(id)),
            None => Err(ChainError::CheckpointCorrupt),
        },
    }
}

/// Reads the tip from what is stored; `stored` is `None` where no checkpoint
/// exists yet.
pub fn read_checkpoint(stored: Option<&str>) -> (r: Result<Option<BlockId>, ChainError>)
    ensures
        r == checkpoint_spec(
            match stored {
                Some(text) => Some(text@),
                None => None,
            },
        ),
{
    match stored {
        None => Ok(None),
        Some(text) => match BlockId::from_str(text) {
            Some(id) => Ok(Some(id)),
            None => Err(ChainError::CheckpointCorrupt),
        },
    }
}

/// The text to store for the tip `id`.
pub fn write_checkpoint(id: &BlockId) -> (text: String)
    ensures
        text@ == id_text(id@),
{
    id.to_string()
}

/// A checkpoint that was written for a tip reads as that tip.
pub proof fn lemma_checkpoint_round_trip(id: BlockId)
    ensures
        checkpoint_spec(Some(id_text(id@))) == Ok::<Option<BlockId>, ChainError>(Some(id)),
{
    lemma_text_round_trip(id);
}

} // verus!
