pub mod cursor;
pub mod error;
pub mod journal;
pub mod journalid;
pub mod memory;
pub mod sync;

pub use cursor::{Cursor, Scannable};
pub use error::{JournalError, JournalResult};
pub use journal::{Journal, JournalFactory};
pub use journalid::{JournalId, JournalIdParseError};
pub use memory::{MemoryJournal, MemoryJournalFactory};
pub use sync::JournalPartial;
