use vstd::prelude::*;

use std::collections::VecDeque;

use crate::journal::JournalId;
use crate::lsn::{Lsn, LsnRange};

verus! {

/// A run of lsns received for one timeline journal, waiting to be applied.
#[derive(Clone, Copy, Debug)]
pub struct ReceiveQueueEntry {
    pub id: JournalId,
    pub range: LsnRange,
}

/// The timeline lsns a coordinator has received and not applied yet, in the
/// order they arrived.
pub struct ReceiveQueue {
    entries: VecDeque<ReceiveQueueEntry>,
}

impl View for ReceiveQueue {
    type V = Seq<(JournalId, LsnRange)>;

    closed spec fn view(&self) -> Seq<(JournalId, LsnRange)> {
        self.entries@.map_values(|e: ReceiveQueueEntry| (e.id, e.range))
    }
}

/// The queue after lsn `lsn` of journal `id` was received: an entry at the
/// back for the same journal takes the lsn in (it is there already, or it
/// follows the entry's range); otherwise a new entry holding just the lsn
/// joins the back.
pub open spec fn spec_mark_received(q: Seq<(JournalId, LsnRange)>, id: JournalId, lsn: Lsn) -> Seq<
    (JournalId, LsnRange),
> {
    if q.len() > 0 && q.last().0 == id {
        let range = q.last().1;
        q.drop_last().push(
            (
                id,
                if range.has(lsn as int) {
                    range
                } else {
                    range.spec_extend_by(1)
                },
            ),
        )
    } else {
        q.push((id, LsnRange::NonEmpty { first: lsn, last: lsn }))
    }
}

impl ReceiveQueue {
    /// Every queued range is well formed.
    pub open spec fn wf(&self) -> bool {
        forall|i: int| 0 <= i < self@.len() ==> (#[trigger] self@[i]).1.wf()
    }

    /// Receiving `lsn` for journal `id` keeps the queue's order: the lsn
    /// either lies in the range at the back of the queue for `id`, or
    /// follows it.
    pub open spec fn can_mark(&self, id: JournalId, lsn: Lsn) -> bool {
        self@.len() > 0 && self@.last().0 == id ==> {
            let range = self@.last().1;
            range.has(lsn as int) || lsn == range.hi()
        }
    }

    pub fn new() -> (q: Self)
        ensures
            q@ == Seq::<(JournalId, LsnRange)>::empty(),
            q.wf(),
    {
        let q = ReceiveQueue { entries: VecDeque::new() };
        proof {
            assert(q@ =~= Seq::<(JournalId, LsnRange)>::empty());
        }
        q
    }

    pub fn has_pending_work(&self) -> (r: bool)
        ensures
            r == (self@.len() > 0),
    {
        self.entries.len() > 0
    }

    pub fn mark_received(&mut self, id: JournalId, lsn: Lsn)
        requires
            old(self).wf(),
            old(self).can_mark(id, lsn),
        ensures
            final(self).wf(),
            final(self)@ == spec_mark_received(old(self)@, id, lsn),
    {
        let ghost q = self@;
        match self.entries.pop_back() {
            // coalesce this update if the queue already ends with an entry for this journal
            Some(entry) => {
                proof {
                    assert(self@ =~= q.drop_last());
                }
                if entry.id.same_id(&id) {
                    let mut entry = entry;
                    if !entry.range.contains(lsn) {
                        entry.range = entry.range.append(lsn);
                    }
                    self.entries.push_back(entry);
                    proof {
                        assert(self@ =~= spec_mark_received(q, id, lsn));
                    }
                } else {
                    self.entries.push_back(entry);
                    self.entries.push_back(ReceiveQueueEntry { id, range: LsnRange::new(lsn, lsn) });
                    proof {
                        assert(q.drop_last().push(q.last()) =~= q);
                        assert(self@ =~= spec_mark_received(q, id, lsn));
                    }
                }
            },
            // otherwise, just push a new entry
            None => {
                self.entries.push_back(ReceiveQueueEntry { id, range: LsnRange::new(lsn, lsn) });
                proof {
                    assert(self@ =~= spec_mark_received(q, id, lsn));
                }
            },
        }
    }

    /// Takes the entry that arrived first off the queue.
    pub fn pop_front(&mut self) -> (r: Option<ReceiveQueueEntry>)
        requires
            old(self).wf(),
        ensures
            final(self).wf(),
            old(self)@.len() == 0 ==> r is None && final(self)@ == old(self)@,
            old(self)@.len() > 0 ==> r is Some && (r->0.id, r->0.range) == old(self)@[0]
                && final(self)@ == old(self)@.drop_first(),
    {
        let ghost q = self@;
        let r = self.entries.pop_front();
        proof {
            if q.len() > 0 {
                assert(self@ =~= q.drop_first());
            } else {
                assert(self@ =~= q);
            }
        }
        r
    }
}

/// Receiving an lsn of the journal that the queue's back entry is for never
/// adds an entry, however many lsns that entry holds: the queue keeps its
/// length and its other entries, and the back entry's range grows (from the
/// same first lsn) to hold the lsn. Receiving an lsn of another journal, or
/// into an empty queue, adds one entry holding just that lsn.
pub proof fn lemma_mark_received_coalesces(q: Seq<(JournalId, LsnRange)>, id: JournalId, lsn: Lsn)
    requires
        q.len() > 0 ==> q.last().1.wf() && q.last().1.has_next(),
        q.len() > 0 && q.last().0 == id ==> (q.last().1.has(lsn as int) || lsn == q.last().1.hi()),
    ensures
        ({
            let r = spec_mark_received(q, id, lsn);
            &&& q.len() > 0 && q.last().0 == id ==> {
                &&& r.len() == q.len()
                &&& r.drop_last() == q.drop_last()
                &&& r.last().0 == id
                &&& r.last().1.has(lsn as int)
                &&& forall|l: int| #[trigger] q.last().1.has(l) ==> r.last().1.has(l)
                &&& (q.last().1.count() > 0 ==> r.last().1.lo() == q.last().1.lo())
                &&& r.last().1.hi() == crate::lsn::spec_max(q.last().1.hi(), lsn + 1)
            }
            &&& !(q.len() > 0 && q.last().0 == id) ==> r == q.push(
                (id, LsnRange::NonEmpty { first: lsn, last: lsn }),
            )
        }),
{
    if q.len() > 0 && q.last().0 == id {
        let r = spec_mark_received(q, id, lsn);
        assert(r.drop_last() =~= q.drop_last());
    }
}

} // verus!
