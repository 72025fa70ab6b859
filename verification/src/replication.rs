use vstd::prelude::*;

use std::io;

use crate::journal::{JournalError, JournalId};
use crate::lsn::{Lsn, LsnRange};

verus! {

// maximum number of frames we will send without receiving an acknowledgement
// note: this does not affect durability, as we keep don't truncate the source journal until rebase
pub const MAX_OUTSTANDING_FRAMES: usize = 5;

/// A message of the replication protocol.
#[derive(Clone, Debug)]
pub enum ReplicationMsg {
    /// request the lsn range of the specified journal
    RangeRequest { id: JournalId },
    /// reply to a RangeRequest with the range of the specified journal
    Range { range: LsnRange },
    /// send one LSN frame from the specified journal; the frame's `len` bytes
    /// follow the message
    Frame { id: JournalId, lsn: Lsn, len: u64 },
}

/// Why replication failed.
#[derive(Debug)]
pub enum ReplicationError {
    Io(io::Error),
    /// unknown journal id
    UnknownJournal(JournalId),
    JournalError(JournalError),
    /// replication must be contiguous: lsn `received` arrived, but the next
    /// lsn had to lie in `range`
    NonContiguousLsn { received: Lsn, range: LsnRange },
}

/// The range a journal accepts a frame in: any lsn when it is empty (it then
/// restarts at that lsn), otherwise an lsn it holds or the one right after.
pub open spec fn accepted_range(range: LsnRange, lsn: Lsn) -> LsnRange {
    if range is Empty {
        LsnRange::NonEmpty { first: lsn, last: lsn }
    } else {
        range.spec_extend_by(1)
    }
}

/// A journal that frames can be replicated from.
pub trait ReplicationSource {
    /// The source is in a consistent state.
    spec fn source_wf(&self) -> bool;

    spec fn source_view_id(&self) -> JournalId;

    /// The lsns the source holds.
    spec fn source_lsns(&self) -> LsnRange;

    /// The bytes of the frame at `lsn`.
    spec fn source_entry(&self, lsn: int) -> Seq<u8>;

    /// Reading a frame never fails.
    spec fn source_reads_infallible(&self) -> bool;

    /// A consistent source's range is well formed with a representable next
    /// lsn.
    proof fn lemma_source_wf(&self)
        requires
            self.source_wf(),
        ensures
            self.source_lsns().wf(),
            self.source_lsns().has_next(),
    ;

    /// the id of the source journal
    fn source_id(&self) -> (r: JournalId)
        requires
            self.source_wf(),
        ensures
            r == self.source_view_id(),
    ;

    /// the range of the source journal
    fn source_range(&self) -> (r: LsnRange)
        requires
            self.source_wf(),
        ensures
            r == self.source_lsns(),
    ;

    /// read the given lsn from the source journal if it exists
    fn read_lsn<'a>(&'a self, lsn: Lsn) -> (r: io::Result<Option<&'a [u8]>>)
        requires
            self.source_wf(),
        ensures
            self.source_reads_infallible() ==> r is Ok,
            r is Ok ==> (r->Ok_0 is Some <==> self.source_lsns().has(lsn as int)),
            r is Ok && r->Ok_0 is Some ==> r->Ok_0->0@ == self.source_entry(lsn as int),
    ;
}

/// A refusal of a range request for journal `id` is explained by the
/// destination: an unknown journal is the one asked for, and the destination
/// holds no journal with that id.
pub open spec fn range_refusal(dest: Option<LsnRange>, id: JournalId, e: ReplicationError) -> bool {
    &&& dest is None
    &&& e matches ReplicationError::UnknownJournal(bad) ==> bad == id
}

/// A refusal of frame `lsn` of journal `id` is explained by the destination
/// (whose journal with that id has the range `dest`, if any): an unknown
/// journal is one the destination does not hold, and a non-contiguous lsn
/// is one outside the range the journal accepts. Other errors (I/O, the
/// journal's own) are passed on from the journal.
pub open spec fn write_refusal(
    dest: Option<LsnRange>,
    id: JournalId,
    lsn: Lsn,
    e: ReplicationError,
) -> bool {
    match e {
        ReplicationError::UnknownJournal(bad) => bad == id && dest is None,
        ReplicationError::NonContiguousLsn { received, range } => {
            &&& received == lsn
            &&& dest matches Some(rg)
            &&& range == accepted_range(rg, lsn)
            &&& !range.has(lsn as int)
        },
        _ => true,
    }
}

/// A set of journals that frames can be replicated into.
pub trait ReplicationDestination {
    /// The destination is in a consistent state.
    spec fn dest_wf(&self) -> bool;

    /// The range of the journal with this id, when the destination has one.
    spec fn dest_range(&self, id: JournalId) -> Option<LsnRange>;

    /// The frame the journal with this id holds at `lsn`.
    spec fn dest_entry(&self, id: JournalId, lsn: int) -> Seq<u8>;

    /// the range of the journal with this id
    fn range(&mut self, id: JournalId) -> (r: Result<LsnRange, ReplicationError>)
        requires
            old(self).dest_wf(),
        ensures
            final(self).dest_wf(),
            r is Ok ==> final(self).dest_range(id) == Some(r->Ok_0),
            old(self).dest_range(id) is Some ==> final(self).dest_range(id) == old(
                self,
            ).dest_range(id),
            old(self).dest_range(id) is Some ==> r == Ok::<LsnRange, ReplicationError>(
                old(self).dest_range(id)->0,
            ),
            forall|i: JournalId, l: int| #[trigger]
                final(self).dest_entry(i, l) == old(self).dest_entry(i, l),
            r matches Err(e) ==> range_refusal(old(self).dest_range(id), id, e),
    ;

    /// write the given lsn to the destination journal
    fn write_lsn(&mut self, id: JournalId, lsn: Lsn, frame: Vec<u8>) -> (r: Result<
        (),
        ReplicationError,
    >)
        requires
            old(self).dest_wf(),
            lsn < u64::MAX,
        ensures
            final(self).dest_wf(),
            r is Ok ==> final(self).dest_range(id) is Some && final(self).dest_range(id)->0.has(
                lsn as int,
            ),
            old(self).dest_range(id) matches Some(range) && accepted_range(range, lsn).has(
                lsn as int,
            ) ==> r is Ok,
            r is Ok ==> final(self).dest_entry(id, lsn as int) == frame@,
            r matches Err(e) ==> write_refusal(old(self).dest_range(id), id, lsn, e),
    ;
}

/// The sending side's state: which frames were sent but not yet
/// acknowledged.
#[derive(Debug)]
pub struct ReplicationProtocol {
    // outstanding lsn frames sent to the destination but awaiting acknowledgement
    // this is an Option because we need the to initialize it from the initial RangeRequest
    outstanding_range: Option<LsnRange>,
}

/// The outstanding range after the destination reports `range`: the first
/// report starts the window right after it, later reports drop every frame
/// the destination now holds.
pub open spec fn spec_on_range(outstanding: Option<LsnRange>, range: LsnRange) -> LsnRange {
    match outstanding {
        None => LsnRange::Empty { nextlsn: range.hi() as u64 },
        Some(o) => o.spec_trim_prefix((range.hi() - 1) as u64),
    }
}

/// `sync` may send a frame: the destination reported its range and fewer
/// than `MAX_OUTSTANDING_FRAMES` frames await acknowledgement.
pub open spec fn window_open(outstanding: Option<LsnRange>) -> bool {
    outstanding matches Some(o) && o.count() < MAX_OUTSTANDING_FRAMES
}

/// The outstanding window after handling `msg`: only a `Range` report moves
/// it.
pub open spec fn window_after(outstanding: Option<LsnRange>, msg: ReplicationMsg) -> Option<LsnRange> {
    match msg {
        ReplicationMsg::Range { range } => Some(spec_on_range(outstanding, range)),
        _ => outstanding,
    }
}

/// A protocol that `new` just made sends no frame before the destination
/// reports its range: its window is not open, and handling any other message
/// leaves it so.
pub proof fn lemma_no_frame_before_range(msg: ReplicationMsg)
    ensures
        !window_open(None),
        !(msg is Range) ==> window_after(None, msg) is None && !window_open(window_after(None, msg)),
{
}

impl ReplicationProtocol {
    /// The frames sent but not acknowledged; `None` before the destination
    /// first reports its range.
    pub closed spec fn outstanding(self) -> Option<LsnRange> {
        self.outstanding_range
    }

    /// The outstanding window is well formed and holds at most
    /// `MAX_OUTSTANDING_FRAMES` frames.
    pub closed spec fn wf(self) -> bool {
        match self.outstanding_range {
            Some(o) => o.wf() && o.has_next() && o.count() <= MAX_OUTSTANDING_FRAMES,
            None => true,
        }
    }

    pub fn new() -> (p: Self)
        ensures
            p.wf(),
            p.outstanding() is None,
    {
        Self { outstanding_range: None }
    }

    /// The frames sent but not acknowledged yet.
    pub fn outstanding_range(&self) -> (r: Option<LsnRange>)
        ensures
            r == self.outstanding(),
    {
        self.outstanding_range
    }

    /// start replication, must be called on both sides of the connection
    pub fn start<D: ReplicationSource>(&self, doc: &D) -> (msg: ReplicationMsg)
        requires
            doc.source_wf(),
        ensures
            msg == (ReplicationMsg::RangeRequest { id: doc.source_view_id() }),
    {
        // before we can start sending frames to the destination, we need to know
        // what frames the destination already has
        ReplicationMsg::RangeRequest { id: doc.source_id() }
    }

    /// sync a frame from the source journal to the destination
    /// the protocol layer will need to send the replication msg
    /// followed by the contents of the reader to the destination
    pub fn sync<'a, D: ReplicationSource>(&mut self, doc: &'a D) -> (r: Result<
        Option<(ReplicationMsg, &'a [u8])>,
        ReplicationError,
    >)
        requires
            old(self).wf(),
            doc.source_wf(),
        ensures
            final(self).wf(),
            doc.source_reads_infallible() ==> r is Ok,
            r matches Err(e) ==> e is Io,
            !window_open(old(self).outstanding()) ==> (r matches Ok(None)) && final(self).outstanding()
                == old(self).outstanding(),
            match old(self).outstanding() {
                None => r matches Ok(None) && final(self).outstanding() == old(self).outstanding(),
                Some(o) => {
                    if o.count() >= MAX_OUTSTANDING_FRAMES {
                        r matches Ok(None) && final(self).outstanding() == old(self).outstanding()
                    } else {
                        let lsn = o.hi();
                        match r {
                            Ok(Some((msg, data))) => {
                                &&& doc.source_lsns().has(lsn)
                                &&& data@ == doc.source_entry(lsn)
                                &&& msg == (ReplicationMsg::Frame {
                                    id: doc.source_view_id(),
                                    lsn: lsn as u64,
                                    len: data@.len() as u64,
                                })
                                &&& final(self).outstanding() == Some(o.spec_extend_by(1))
                            },
                            Ok(None) => {
                                &&& !doc.source_lsns().has(lsn)
                                &&& final(self).outstanding() == old(self).outstanding()
                            },
                            Err(_) => final(self).outstanding() == old(self).outstanding(),
                        }
                    }
                },
            },
    {
        if let Some(outstanding_range) = self.outstanding_range {
            if outstanding_range.len() >= MAX_OUTSTANDING_FRAMES {
                // we have too many outstanding frames, so we can't send any more
                return Ok(None);
            }
            let lsn = outstanding_range.next();
            let got = match doc.read_lsn(lsn) {
                Ok(got) => got,
                Err(e) => {
                    return Err(ReplicationError::Io(e));
                },
            };
            if let Some(data) = got {
                proof {
                    doc.lemma_source_wf();
                }
                // update outstanding
                self.outstanding_range = Some(outstanding_range.append(lsn));

                // send frame
                return Ok(
                    Some(
                        (
                            ReplicationMsg::Frame {
                                id: doc.source_id(),
                                lsn,
                                len: data.len() as u64,
                            },
                            data,
                        ),
                    ),
                );
            }
        }
        Ok(None)
    }

    /// handle a replication message from the remote side
    /// `frame` holds the bytes that follow a `Frame` message on the
    /// connection (it is ignored for the other messages)
    pub fn handle<D: ReplicationDestination>(
        &mut self,
        doc: &mut D,
        msg: ReplicationMsg,
        frame: Vec<u8>,
    ) -> (r: Result<Option<ReplicationMsg>, ReplicationError>)
        requires
            old(self).wf(),
            old(doc).dest_wf(),
            msg matches ReplicationMsg::Range { range } ==> range.has_next() && (old(
                self,
            ).outstanding() is Some ==> range.hi() > 0 && old(self).outstanding()->0.can_trim_prefix(
                (range.hi() - 1) as u64,
            )),
            msg matches ReplicationMsg::Frame { lsn, .. } ==> lsn < u64::MAX,
        ensures
            final(self).wf(),
            final(doc).dest_wf(),
            final(self).outstanding() == window_after(old(self).outstanding(), msg),
            match msg {
                ReplicationMsg::RangeRequest { id } => {
                    &&& final(self).outstanding() == old(self).outstanding()
                    &&& (old(doc).dest_range(id) matches Some(rg) ==> r == Ok::<
                        Option<ReplicationMsg>,
                        ReplicationError,
                    >(Some(ReplicationMsg::Range { range: rg })))
                    &&& match r {
                        Ok(Some(ReplicationMsg::Range { range })) => final(doc).dest_range(id)
                            == Some(range),
                        Ok(_) => false,
                        Err(e) => range_refusal(old(doc).dest_range(id), id, e),
                    }
                },
                ReplicationMsg::Range { range } => {
                    &&& r matches Ok(None)
                    &&& final(self).outstanding() == Some(
                        spec_on_range(old(self).outstanding(), range),
                    )
                    &&& *final(doc) == *old(doc)
                },
                ReplicationMsg::Frame { id, lsn, .. } => {
                    &&& final(self).outstanding() == old(self).outstanding()
                    &&& (old(doc).dest_range(id) matches Some(rg) && accepted_range(rg, lsn).has(
                        lsn as int,
                    ) ==> r is Ok)
                    &&& match r {
                        Ok(Some(ReplicationMsg::Range { range })) => {
                            &&& final(doc).dest_range(id) == Some(range)
                            &&& range.has(lsn as int)
                            &&& final(doc).dest_entry(id, lsn as int) == frame@
                        },
                        Ok(_) => false,
                        Err(e) => write_refusal(old(doc).dest_range(id), id, lsn, e),
                    }
                },
            },
    {
        match msg {
            ReplicationMsg::RangeRequest { id } => {
                let range = doc.range(id)?;
                Ok(Some(ReplicationMsg::Range { range }))
            },
            ReplicationMsg::Range { range } => {
                self.outstanding_range =
                    match self.outstanding_range {
                        // first range response, initialize outstanding_range from destination range
                        None => Some(LsnRange::empty_following(&range)),
                        // subsequent range response, update outstanding range
                        Some(outstanding_range) => {
                            let next = range.next();
                            assert(next > 0);
                            Some(outstanding_range.trim_prefix(next - 1))
                        },
                    };
                Ok(None)
            },
            ReplicationMsg::Frame { id, lsn, len } => {
                doc.write_lsn(id, lsn, frame)?;
                let range = doc.range(id)?;
                Ok(Some(ReplicationMsg::Range { range }))
            },
        }
    }
}

} // verus!
