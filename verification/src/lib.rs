pub mod chksum;
pub mod coordinator;
pub mod iter;
pub mod journal;
pub mod local;
pub mod lsn;
pub mod lsn_laws;
pub mod page;
pub mod pagevfs;
pub mod positioned_io;
pub mod reactive_query;
pub mod replication;
pub mod serialization;
pub mod shm;
pub mod storage;
pub mod storage_laws;
pub mod text;
pub mod timeline;

pub use journal::{
    Cursor, Journal, JournalError, JournalFactory, JournalId, JournalIdParseError, JournalPartial,
    JournalResult, MemoryJournal, MemoryJournalFactory, Scannable,
};
pub use lsn::{Lsn, LsnRange};
pub use page::PageIdx;
pub use reactive_query::ReactiveQuery;
pub use serialization::{Deserializable, Serializable};
pub use storage::StorageChange;
