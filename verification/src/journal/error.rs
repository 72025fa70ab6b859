use vstd::prelude::*;

use std::io;

use super::JournalId;
use crate::lsn::LsnRange;

verus! {

pub type JournalResult<T> = Result<T, JournalError>;

/// Why a journal operation failed.
#[derive(Debug)]
pub enum JournalError {
    /// refusing to sync from empty partial
    EmptyPartial,
    /// failed to open journal
    FailedToOpenJournal(String),
    /// io error
    IoError(io::Error),
    /// journal range does not intersect or preceed partial range
    RangesMustBeContiguous { journal_debug: String, partial_range: LsnRange },
    /// failed to serialize object
    SerializationError(io::Error),
    /// refusing to sync from journal id `partial_id` into journal id `self_id`
    WrongJournal { partial_id: JournalId, self_id: JournalId },
}

} // verus!
