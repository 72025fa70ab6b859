use vstd::prelude::*;

use super::{JournalId, JournalResult, Scannable};
use crate::lsn::{Lsn, LsnRange};
use crate::serialization::Serializable;

verus! {

/// An append-only log of entries, one per lsn, that can drop its prefix.
pub trait Journal: Scannable {
    /// The journal's id.
    spec fn spec_id(&self) -> JournalId;

    /// Appending an entry that serializes without failure never fails.
    spec fn appends_infallible(&self) -> bool;

    /// Dropping a prefix never fails.
    spec fn drops_infallible(&self) -> bool;

    /// this journal's id
    fn id(&self) -> (r: JournalId)
        requires
            self.scannable_wf(),
        ensures
            r == self.spec_id(),
    ;

    /// this journal's range
    fn range(&self) -> (r: LsnRange)
        requires
            self.scannable_wf(),
        ensures
            r == self.lsns(),
    ;

    /// append a new journal entry, and then write to it
    fn append<T: Serializable>(&mut self, obj: T) -> (r: JournalResult<()>)
        requires
            old(self).scannable_wf(),
            obj.serializable(),
            old(self).lsns().hi() < u64::MAX,
        ensures
            final(self).scannable_wf(),
            final(self).spec_id() == old(self).spec_id(),
            final(self).appends_infallible() == old(self).appends_infallible(),
            final(self).drops_infallible() == old(self).drops_infallible(),
            final(self).gets_infallible() == old(self).gets_infallible(),
            old(self).appends_infallible() && obj.serialize_infallible() ==> r is Ok,
            r is Ok ==> final(self).lsns() == old(self).lsns().spec_extend_by(1),
            r is Ok ==> final(self).entry(old(self).lsns().hi()) == obj.serialized(),
            r is Err ==> final(self).lsns() == old(self).lsns(),
            forall|lsn: int|
                old(self).lsns().has(lsn) ==> #[trigger] final(self).entry(lsn) == old(
                    self,
                ).entry(lsn),
    ;

    /// drop the journal's prefix
    fn drop_prefix(&mut self, up_to: Lsn) -> (r: JournalResult<()>)
        requires
            old(self).scannable_wf(),
            old(self).lsns().can_trim_prefix(up_to),
        ensures
            final(self).scannable_wf(),
            final(self).spec_id() == old(self).spec_id(),
            final(self).appends_infallible() == old(self).appends_infallible(),
            final(self).drops_infallible() == old(self).drops_infallible(),
            final(self).gets_infallible() == old(self).gets_infallible(),
            old(self).drops_infallible() ==> r is Ok,
            r is Ok ==> final(self).lsns() == old(self).lsns().spec_trim_prefix(up_to),
            r is Err ==> final(self).lsns() == old(self).lsns(),
            forall|lsn: int|
                final(self).lsns().has(lsn) ==> #[trigger] final(self).entry(lsn) == old(
                    self,
                ).entry(lsn),
    ;
}

/// Opens journals by id.
pub trait JournalFactory<J: Journal> {
    fn open(&self, id: JournalId) -> (r: JournalResult<J>)
        ensures
            r is Ok ==> r->Ok_0.scannable_wf() && r->Ok_0.spec_id() == id && r->Ok_0.lsns()
                == (LsnRange::Empty { nextlsn: 0 }),
    ;
}

} // verus!
