use vstd::prelude::*;

use std::io;

use super::{
    Cursor, Journal, JournalError, JournalFactory, JournalId, JournalPartial, JournalResult, Scannable,
};
use crate::lsn::{range_text, spec_max, spec_min, Lsn, LsnRange};
use super::journalid::base58_encoded;
use vstd::string::StringExecFns;
use crate::replication::{accepted_range, ReplicationDestination, ReplicationError, ReplicationSource};
use crate::serialization::Serializable;

verus! {

/// A journal held in memory: one byte vector per lsn of its range.
#[derive(Debug)]
pub struct MemoryJournal {
    id: JournalId,
    range: LsnRange,
    data: Vec<Vec<u8>>,
}

impl MemoryJournal {
    pub closed spec fn spec_journal_id(self) -> JournalId {
        self.id
    }

    /// The range of lsns the journal holds.
    pub closed spec fn spec_range(self) -> LsnRange {
        self.range
    }

    /// The entries, in lsn order: entry `i` is at lsn `lo + i`.
    pub closed spec fn entries(self) -> Seq<Seq<u8>> {
        self.data@.map_values(|v: Vec<u8>| v@)
    }

    /// The journal's range is well formed and ends before `u64::MAX`, and it
    /// holds one entry per lsn of the range.
    pub closed spec fn inv(self) -> bool {
        &&& self.range.wf()
        &&& self.range.has_next()
        &&& self.data@.len() == self.range.count()
    }

    pub proof fn lemma_inv(self)
        requires
            self.inv(),
        ensures
            self.spec_range().wf(),
            self.spec_range().has_next(),
            self.spec_range().len_fits(),
            self.entries().len() == self.spec_range().count(),
    {
        assert(self.data@.len() == self.data.len());
    }

    pub fn open(id: JournalId) -> (r: JournalResult<Self>)
        ensures
            r matches Ok(_),
            r->Ok_0.inv(),
            r->Ok_0.spec_journal_id() == id,
            r->Ok_0.spec_range() == (LsnRange::Empty { nextlsn: 0 }),
            r->Ok_0.entries() == Seq::<Seq<u8>>::empty(),
    {
        let j = MemoryJournal { id, range: LsnRange::empty(), data: Vec::new() };
        proof {
            assert(j.entries() =~= Seq::<Seq<u8>>::empty());
        }
        Ok(j)
    }
}

fn copy_bytes(v: &Vec<u8>) -> (r: Vec<u8>)
    ensures
        r@ == v@,
{
    let mut r: Vec<u8> = Vec::new();
    let mut i: usize = 0;
    while i < v.len()
        invariant
            0 <= i <= v@.len(),
            r@ == v@.subrange(0, i as int),
        decreases v@.len() - i,
    {
        r.push(v[i]);
        i = i + 1;
        proof {
            assert(r@ =~= v@.subrange(0, i as int));
        }
    }
    assert(v@.subrange(0, v@.len() as int) =~= v@);
    r
}

/// Opens empty in-memory journals.
pub struct MemoryJournalFactory;

impl JournalFactory<MemoryJournal> for MemoryJournalFactory {
    fn open(&self, id: JournalId) -> (r: JournalResult<MemoryJournal>)
        ensures
            r is Ok,
    {
        MemoryJournal::open(id)
    }
}

impl Scannable for MemoryJournal {
    open spec fn scannable_wf(&self) -> bool {
        self.inv()
    }

    open spec fn lsns(&self) -> LsnRange {
        self.spec_range()
    }

    open spec fn entry(&self, lsn: int) -> Seq<u8> {
        self.entries()[lsn - self.spec_range().lo()]
    }

    open spec fn gets_infallible(&self) -> bool {
        true
    }

    proof fn lemma_scannable_wf(&self) {
        self.lemma_inv();
    }

    fn scan<'a>(&'a self) -> (c: Cursor<'a, Self>) {
        Cursor::over(self, self.range)
    }

    fn scan_range<'a>(&'a self, range: LsnRange) -> (c: Cursor<'a, Self>) {
        let intersection = self.range.intersect(&range);
        Cursor::over(self, intersection)
    }

    fn get<'a>(&'a self, lsn: Lsn) -> (r: io::Result<Option<&'a [u8]>>) {
        proof {
            self.lemma_inv();
        }
        match self.range.offset(lsn) {
            Some(offset) => Ok(Some(self.data[offset].as_slice())),
            None => Ok(None),
        }
    }
}

impl Journal for MemoryJournal {
    open spec fn spec_id(&self) -> JournalId {
        self.spec_journal_id()
    }

    open spec fn appends_infallible(&self) -> bool {
        true
    }

    open spec fn drops_infallible(&self) -> bool {
        true
    }

    fn id(&self) -> (r: JournalId) {
        self.id
    }

    fn range(&self) -> (r: LsnRange) {
        self.range
    }

    fn append<T: Serializable>(&mut self, obj: T) -> (r: JournalResult<()>)
        ensures
            obj.serialize_infallible() ==> r is Ok,
            r matches Err(e) ==> e is SerializationError,
    {
        // serialize the entry
        let mut entry: Vec<u8> = Vec::new();
        match obj.serialize_into(&mut entry) {
            Ok(()) => {},
            Err(err) => {
                return Err(JournalError::SerializationError(err));
            },
        }
        let ghost old_entries = self.entries();
        // update the journal
        self.data.push(entry);
        self.range = self.range.extend_by(1);
        proof {
            assert(self.entries() =~= old_entries.push(obj.serialized()));
        }
        Ok(())
    }

    fn drop_prefix(&mut self, up_to: Lsn) -> (r: JournalResult<()>)
        ensures
            r is Ok,
    {
        proof {
            self.lemma_inv();
        }
        let remaining_range = self.range.trim_prefix(up_to);
        let offsets = self.range.intersection_offsets(&remaining_range);
        let ghost old_self = *self;
        let mut kept: Vec<Vec<u8>> = Vec::new();
        let mut i: usize = offsets.start;
        while i < offsets.end
            invariant
                offsets.start <= i <= offsets.end <= old_self.data@.len(),
                self.data@ == old_self.data@,
                kept@.map_values(|v: Vec<u8>| v@) == old_self.entries().subrange(
                    offsets.start as int,
                    i as int,
                ),
                old_self.entries() == old_self.data@.map_values(|v: Vec<u8>| v@),
            decreases offsets.end - i,
        {
            let c = copy_bytes(&self.data[i]);
            assert(c@ == old_self.entries()[i as int]);
            let ghost before = kept@;
            kept.push(c);
            assert(kept@.map_values(|v: Vec<u8>| v@) =~= before.map_values(|v: Vec<u8>| v@).push(
                c@,
            ));
            i = i + 1;
            proof {
                assert(kept@.map_values(|v: Vec<u8>| v@) =~= old_self.entries().subrange(
                    offsets.start as int,
                    i as int,
                ));
            }
        }
        self.data = kept;
        self.range = remaining_range;
        proof {
            assert forall|lsn: int| self.lsns().has(lsn) implies #[trigger] self.entry(lsn)
                == old_self.entry(lsn) by {
                assert(old_self.range.has(lsn));
            }
        }
        Ok(())
    }
}

impl ReplicationSource for MemoryJournal {
    open spec fn source_wf(&self) -> bool {
        self.inv()
    }

    open spec fn source_view_id(&self) -> JournalId {
        self.spec_journal_id()
    }

    open spec fn source_lsns(&self) -> LsnRange {
        self.spec_range()
    }

    open spec fn source_entry(&self, lsn: int) -> Seq<u8> {
        self.entry(lsn)
    }

    open spec fn source_reads_infallible(&self) -> bool {
        true
    }

    proof fn lemma_source_wf(&self) {
    }

    fn source_id(&self) -> (r: JournalId) {
        self.id
    }

    fn source_range(&self) -> (r: LsnRange) {
        self.range
    }

    fn read_lsn<'a>(&'a self, lsn: Lsn) -> (r: io::Result<Option<&'a [u8]>>) {
        proof {
            self.lemma_inv();
        }
        match self.range.offset(lsn) {
            None => Ok(None),
            Some(offset) => Ok(Some(self.data[offset].as_slice())),
        }
    }
}

impl ReplicationDestination for MemoryJournal {
    open spec fn dest_wf(&self) -> bool {
        self.inv()
    }

    open spec fn dest_range(&self, id: JournalId) -> Option<LsnRange> {
        if id == self.spec_journal_id() {
            Some(self.spec_range())
        } else {
            None
        }
    }

    open spec fn dest_entry(&self, id: JournalId, lsn: int) -> Seq<u8> {
        self.entry(lsn)
    }

    fn range(&mut self, id: JournalId) -> (r: Result<LsnRange, ReplicationError>)
        ensures
            *final(self) == *old(self),
            match r {
                Ok(range) => id == old(self).spec_journal_id() && range == old(self).spec_range(),
                Err(e) => id != old(self).spec_journal_id() && e == ReplicationError::UnknownJournal(
                    id,
                ),
            },
    {
        if !id.same_id(&self.id) {
            return Err(ReplicationError::UnknownJournal(id));
        }
        Ok(self.range)
    }

    fn write_lsn(&mut self, id: JournalId, lsn: Lsn, frame: Vec<u8>) -> (r: Result<
        (),
        ReplicationError,
    >)
        ensures
            final(self).spec_journal_id() == old(self).spec_journal_id(),
            match r {
                Ok(()) => {
                    let accepted = accepted_range(old(self).spec_range(), lsn);
                    &&& id == old(self).spec_journal_id()
                    &&& accepted.has(lsn as int)
                    &&& if old(self).spec_range().has(lsn as int) {
                        &&& final(self).spec_range() == old(self).spec_range()
                        &&& final(self).entries() == old(self).entries().update(
                            lsn - old(self).spec_range().lo(),
                            frame@,
                        )
                    } else {
                        &&& final(self).spec_range() == accepted
                        &&& final(self).entries() == old(self).entries().push(frame@)
                    }
                },
                Err(ReplicationError::UnknownJournal(bad)) => {
                    &&& bad == id
                    &&& id != old(self).spec_journal_id()
                    &&& *final(self) == *old(self)
                },
                Err(ReplicationError::NonContiguousLsn { received, range }) => {
                    &&& id == old(self).spec_journal_id()
                    &&& received == lsn
                    &&& range == accepted_range(old(self).spec_range(), lsn)
                    &&& !range.has(lsn as int)
                    &&& *final(self) == *old(self)
                },
                Err(_) => false,
            },
    {
        if !id.same_id(&self.id) {
            return Err(ReplicationError::UnknownJournal(id));
        }
        proof {
            self.lemma_inv();
        }

        let accepted_range = if self.range.is_empty() {
            // if we have no range, then we reset to the incoming lsn
            LsnRange::new(lsn, lsn)
        } else {
            // accept any lsn in our current range or immediately following
            self.range.extend_by(1)
        };

        if accepted_range.contains(lsn) {
            let frame_data = frame;
            let ghost old_entries = self.entries();
            // store frame into self.data
            match self.range.offset(lsn) {
                Some(offset) => {
                    self.data.set(offset, frame_data);
                    // no need to update range since this was an intersection
                    proof {
                        assert(self.entries() =~= old_entries.update(offset as int, frame_data@));
                    }
                },
                None => {
                    self.data.push(frame_data);
                    // update our range to include the new lsn
                    self.range = accepted_range;
                    proof {
                        assert(self.entries() =~= old_entries.push(frame_data@));
                    }
                },
            }
            Ok(())
        } else {
            Err(ReplicationError::NonContiguousLsn { received: lsn, range: accepted_range })
        }
    }
}

/// The range from the lower first lsn of two ranges to the higher last one.
pub open spec fn spec_covering(a: LsnRange, b: LsnRange) -> LsnRange {
    LsnRange::from_bounds(spec_min(a.lo(), b.lo()), spec_max(a.hi(), b.hi()))
}

fn covering(a: &LsnRange, b: &LsnRange) -> (r: LsnRange)
    requires
        a is NonEmpty,
        b is NonEmpty,
        a.wf(),
        b.wf(),
    ensures
        r == spec_covering(*a, *b),
{
    match (a, b) {
        (
            LsnRange::NonEmpty { first: a_first, last: a_last },
            LsnRange::NonEmpty { first: b_first, last: b_last },
        ) => {
            let first = if *a_first < *b_first {
                *a_first
            } else {
                *b_first
            };
            let last = if *a_last < *b_last {
                *b_last
            } else {
                *a_last
            };
            LsnRange::new(first, last)
        },
        (_, _) => *a,
    }
}

impl MemoryJournal {
    /// The journal's debug text: `MemoryJournal(<id>, <range>)`, the id in
    /// base58 and the range as `range_text` writes it.
    pub fn debug_text(&self) -> (s: String)
        ensures
            s@ == "MemoryJournal("@ + base58_encoded(self.spec_journal_id().bytes_view()) + ", "@
                + range_text(self.spec_range()) + ")"@,
    {
        let mut s = "MemoryJournal(".to_owned();
        s.append(self.id.to_base58().as_str());
        s.append(", ");
        s.append(self.range.debug_text().as_str());
        s.append(")");
        s
    }
}

/// A partial of this journal can be received: it starts at the journal's
/// next lsn when the journal is empty, and otherwise overlaps the journal or
/// follows it directly.
pub open spec fn receivable(range: LsnRange, partial: LsnRange) -> bool {
    if range is Empty {
        partial.has(range.lo())
    } else {
        range.spec_intersects(partial) || range.spec_immediately_preceeds(partial)
    }
}

/// The entries of a non-empty journal with lsns `range` and entries `old`
/// after the partial's entries `incoming` (at lsns `p`) were put in place:
/// the old entries before the partial, the partial, the old entries after it.
pub open spec fn received_entries(
    range: LsnRange,
    p: LsnRange,
    old: Seq<Seq<u8>>,
    incoming: Seq<Seq<u8>>,
) -> Seq<Seq<u8>> {
    let before = if p.lo() > range.lo() {
        p.lo() - range.lo()
    } else {
        0
    };
    let after = if p.hi() < range.hi() {
        p.hi() - range.lo()
    } else {
        old.len() as int
    };
    old.take(before) + incoming + old.skip(after)
}

impl MemoryJournal {
    /// Receives a run of entries of this journal from another copy of it:
    /// they are put in place at their lsns (replacing what the journal held
    /// there), the journal's other entries are kept, and the journal's range
    /// grows to cover them.
    pub fn sync_receive(&mut self, partial: JournalPartial<Vec<Vec<u8>>>) -> (r: JournalResult<
        LsnRange,
    >)
        requires
            old(self).inv(),
            partial.spec_range().wf(),
            partial.spec_range().has_next(),
            partial.cursor()@.len() == partial.spec_range().count(),
        ensures
            final(self).inv(),
            final(self).spec_journal_id() == old(self).spec_journal_id(),
            ({
                let range = old(self).spec_range();
                let p = partial.spec_range();
                let incoming = partial.cursor()@.map_values(|v: Vec<u8>| v@);
                match r {
                    Ok(new_range) => {
                        &&& partial.spec_id() == old(self).spec_journal_id()
                        &&& receivable(range, p)
                        &&& new_range == final(self).spec_range()
                        &&& new_range == if range is Empty {
                            p
                        } else {
                            spec_covering(range, p)
                        }
                        &&& final(self).entries() == if range is Empty {
                            incoming
                        } else {
                            received_entries(range, p, old(self).entries(), incoming)
                        }
                    },
                    Err(JournalError::WrongJournal { partial_id, self_id }) => {
                        &&& partial_id == partial.spec_id()
                        &&& self_id == old(self).spec_journal_id()
                        &&& partial.spec_id() != old(self).spec_journal_id()
                        &&& *final(self) == *old(self)
                    },
                    Err(JournalError::RangesMustBeContiguous { partial_range, .. }) => {
                        &&& partial.spec_id() == old(self).spec_journal_id()
                        &&& partial_range == p
                        &&& !receivable(range, p)
                        &&& *final(self) == *old(self)
                    },
                    Err(_) => false,
                }
            }),
    {
        proof {
            self.lemma_inv();
        }
        let partial_id = partial.id();
        if !partial_id.same_id(&self.id) {
            return Err(JournalError::WrongJournal { partial_id, self_id: self.id });
        }

        let partial_range = partial.range();
        let ghost old_entries = self.entries();
        let ghost incoming = partial.cursor()@.map_values(|v: Vec<u8>| v@);
        match self.range {
            LsnRange::Empty { nextlsn } => {
                // ensure that nextlsn is contained by partial.range()
                if !partial_range.contains(nextlsn) {
                    return Err(
                        JournalError::RangesMustBeContiguous {
                            journal_debug: self.debug_text(),
                            partial_range,
                        },
                    );
                }
                self.range = partial_range;
                self.data = partial.into_cursor();
                Ok(partial_range)
            },
            LsnRange::NonEmpty { .. } => {
                let range = self.range;
                if !(range.intersects(&partial_range) || range.immediately_preceeds(&partial_range)) {
                    return Err(
                        JournalError::RangesMustBeContiguous {
                            journal_debug: self.debug_text(),
                            partial_range,
                        },
                    );
                }

                // insert partial.data into the journal at the correct position:
                // the entries before the partial, the partial, the entries after it
                let (first, last) = match range {
                    LsnRange::NonEmpty { first, last } => (first, last),
                    LsnRange::Empty { nextlsn } => (nextlsn, nextlsn),
                };
                let (pfirst, plast) = match partial_range {
                    LsnRange::NonEmpty { first, last } => (first, last),
                    LsnRange::Empty { nextlsn } => (nextlsn, nextlsn),
                };
                let len = self.data.len();
                let before: usize = if pfirst <= first {
                    0
                } else {
                    match range.offset(pfirst) {
                        Some(o) => o,
                        None => len,
                    }
                };
                let after: usize = if plast >= last {
                    len
                } else {
                    range.offset(plast + 1).unwrap()
                };
                let mut incoming_data = partial.into_cursor();
                let ghost old_data = self.data@;
                let mut tail = self.data.split_off(after);
                self.data.truncate(before);
                self.data.append(&mut incoming_data);
                self.data.append(&mut tail);

                // update the range
                self.range = covering(&range, &partial_range);
                proof {
                    let b = if partial_range.lo() > range.lo() { partial_range.lo() - range.lo() } else { 0 };
                    let a = if partial_range.hi() < range.hi() { partial_range.hi() - range.lo() } else { old_entries.len() as int };
                    assert(before == b);
                    assert(after == a);
                    assert(self.data@ =~= old_data.take(before as int) + partial.cursor()@ + old_data.skip(after as int));
                    assert(self.entries() =~= received_entries(range, partial_range, old_entries, incoming));
                }

                // return our new range
                Ok(self.range)
            },
        }
    }
}


/// After a partial was received, the journal holds the partial's entries at
/// the partial's lsns, and keeps its own entries at every other lsn it held,
/// before the partial and after it.
pub proof fn lemma_sync_receive_then_read(
    before: MemoryJournal,
    after: MemoryJournal,
    partial_range: LsnRange,
    incoming: Seq<Seq<u8>>,
)
    requires
        before.inv(),
        after.inv(),
        partial_range.wf(),
        incoming.len() == partial_range.count(),
        receivable(before.spec_range(), partial_range),
        after.spec_range() == if before.spec_range() is Empty {
            partial_range
        } else {
            spec_covering(before.spec_range(), partial_range)
        },
        after.entries() == if before.spec_range() is Empty {
            incoming
        } else {
            received_entries(before.spec_range(), partial_range, before.entries(), incoming)
        },
    ensures
        forall|lsn: int|
            partial_range.has(lsn) ==> after.lsns().has(lsn) && #[trigger] after.entry(lsn)
                == incoming[lsn - partial_range.lo()],
        forall|lsn: int|
            before.lsns().has(lsn) && !partial_range.has(lsn) ==> after.lsns().has(lsn)
                && #[trigger] after.entry(lsn) == before.entry(lsn),
{
    before.lemma_inv();
    after.lemma_inv();
}

/// A frame that `write_lsn` accepted is what the journal then holds at its
/// lsn, and every other lsn the journal held keeps its entry.
pub proof fn lemma_write_lsn_then_read(before: MemoryJournal, after: MemoryJournal, lsn: Lsn, frame: Seq<u8>)
    requires
        before.inv(),
        after.inv(),
        accepted_range(before.spec_range(), lsn).has(lsn as int),
        if before.spec_range().has(lsn as int) {
            &&& after.spec_range() == before.spec_range()
            &&& after.entries() == before.entries().update(lsn - before.spec_range().lo(), frame)
        } else {
            &&& after.spec_range() == accepted_range(before.spec_range(), lsn)
            &&& after.entries() == before.entries().push(frame)
        },
    ensures
        after.lsns().has(lsn as int),
        after.entry(lsn as int) == frame,
        forall|other: int|
            other != lsn && before.lsns().has(other) ==> after.lsns().has(other) && #[trigger] after.entry(
                other,
            ) == before.entry(other),
{
    before.lemma_inv();
    after.lemma_inv();
}

} // verus!
