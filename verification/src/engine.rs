//! What the persistence engine reports of a write, and what a flush makes
//! of the report.
use crate::error::{DatabaseError, DatabaseResult, EngineError};
use vstd::prelude::*;

verus! {

/// What came of one write that was issued to the engine.
#[derive(Debug, Clone, PartialEq, Eq)]
pub enum WriteOutcome {
    /// The write is staged.
    Done,
    /// The value could not be turned into bytes, and nothing was written.
    EncodeFailed,
    /// The engine refused the write.
    Failed(EngineError),
}

/// What a flush makes of the outcome of one write. Where the write was a
/// `Delete`, that the engine found nothing to delete is no failure. Every
/// other failure is the flush's failure: of the codec where the value could
/// not be encoded, else of the engine, with the engine's own error.
pub open spec fn settled(deleting: bool, outcome: WriteOutcome) -> DatabaseResult<()> {
    match outcome {
        WriteOutcome::Done => Ok(()),
        WriteOutcome::EncodeFailed => Err(DatabaseError::EncodingError),
        WriteOutcome::Failed(e) => if deleting && e == EngineError::NotFound {
            Ok(())
        } else {
            Err(DatabaseError::EngineError(e))
        },
    }
}

/// What a flush makes of the outcome of a `Put`, or of a request to empty
/// the table: every failure is the flush's failure.
pub fn settle_write(outcome: WriteOutcome) -> (r: DatabaseResult<()>)
    ensures
        r == settled(false, outcome),
{
    match outcome {
        WriteOutcome::Done => Ok(()),
        WriteOutcome::EncodeFailed => Err(DatabaseError::EncodingError),
        WriteOutcome::Failed(e) => Err(DatabaseError::EngineError(e)),
    }
}

/// What a flush makes of the outcome of a `Delete`: that the engine found
/// nothing to delete is no failure, every other failure is the flush's.
pub fn settle_delete(outcome: WriteOutcome) -> (r: DatabaseResult<()>)
    ensures
        r == settled(true, outcome),
{
    match outcome {
        WriteOutcome::Done => Ok(()),
        WriteOutcome::EncodeFailed => Err(DatabaseError::EncodingError),
        WriteOutcome::Failed(EngineError::NotFound) => Ok(()),
        WriteOutcome::Failed(e) => Err(DatabaseError::EngineError(e)),
    }
}

} // verus!
