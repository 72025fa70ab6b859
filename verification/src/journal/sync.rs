use vstd::prelude::*;

use super::JournalId;
use crate::lsn::LsnRange;
use crate::positioned_io::{PositionedCursor, PositionedReader};

verus! {

/// A contiguous run of a journal's entries, on its way to another copy of
/// the journal: the journal's id, the lsns it covers, and a cursor over the
/// entries.
pub struct JournalPartial<C> {
    id: JournalId,
    range: LsnRange,
    cursor: C,
}

impl<C> JournalPartial<C> {
    pub closed spec fn spec_id(self) -> JournalId {
        self.id
    }

    pub closed spec fn spec_range(self) -> LsnRange {
        self.range
    }

    pub closed spec fn cursor(self) -> C {
        self.cursor
    }

    pub fn new(id: JournalId, range: LsnRange, cursor: C) -> (p: Self)
        ensures
            p.spec_id() == id,
            p.spec_range() == range,
            p.cursor() == cursor,
    {
        Self { id, range, cursor }
    }

    pub fn id(&self) -> (r: JournalId)
        ensures
            r == self.spec_id(),
    {
        self.id
    }

    pub fn range(&self) -> (r: LsnRange)
        ensures
            r == self.spec_range(),
    {
        self.range
    }

    /// The number of lsns the partial covers.
    pub fn len(&self) -> (n: usize)
        requires
            self.spec_range().wf(),
            self.spec_range().len_fits(),
        ensures
            n == self.spec_range().count(),
    {
        self.range.len()
    }

    pub fn into_cursor(self) -> (c: C)
        ensures
            c == self.cursor(),
    {
        self.cursor
    }
}

// conversion from JournalPartial<PositionedReader> into JournalPartial<io::Read>
// useful for testing and local end-to-end demos
impl<T: PositionedReader> JournalPartial<T> {
    pub fn into_read_partial(self) -> (p: JournalPartial<PositionedCursor<T>>)
        ensures
            p.spec_id() == self.spec_id(),
            p.spec_range() == self.spec_range(),
            p.cursor().inner() == self.cursor(),
            p.cursor().position() == 0,
    {
        JournalPartial::new(self.id, self.range, PositionedCursor::new(self.cursor))
    }
}

} // verus!
