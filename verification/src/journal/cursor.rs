use vstd::prelude::*;

use std::io;

use crate::lsn::{Lsn, LsnRange};
use crate::positioned_io::{read_result, PositionedReader};

verus! {

/// A collection of entries, one per lsn of a contiguous range, that can be
/// read back by lsn.
pub trait Scannable: Sized {
    /// The object is in a consistent state.
    spec fn scannable_wf(&self) -> bool;

    /// The lsns that have an entry.
    spec fn lsns(&self) -> LsnRange;

    /// The bytes of the entry at `lsn`.
    spec fn entry(&self, lsn: int) -> Seq<u8>;

    /// Looking up an entry never fails.
    spec fn gets_infallible(&self) -> bool;

    /// A consistent object's range is well formed, has a representable next
    /// lsn, and its length fits a `usize`.
    proof fn lemma_scannable_wf(&self)
        requires
            self.scannable_wf(),
        ensures
            self.lsns().wf(),
            self.lsns().has_next(),
            self.lsns().len_fits(),
    ;

    /// A cursor over every entry, in increasing lsn order.
    fn scan<'a>(&'a self) -> (c: Cursor<'a, Self>)
        requires
            self.scannable_wf(),
        ensures
            c.source() == *self,
            c.remaining() == self.lsns(),
            !c.reversed(),
            c.current() is None,
    ;

    /// A cursor over the entries whose lsns lie in `range`.
    fn scan_range<'a>(&'a self, range: LsnRange) -> (c: Cursor<'a, Self>)
        requires
            self.scannable_wf(),
            range.wf(),
        ensures
            c.source() == *self,
            c.remaining() == self.lsns().spec_intersect(range),
            !c.reversed(),
            c.current() is None,
    ;

    /// The entry at `lsn`, if there is one.
    fn get<'a>(&'a self, lsn: Lsn) -> (r: io::Result<Option<&'a [u8]>>)
        requires
            self.scannable_wf(),
        ensures
            self.gets_infallible() ==> r is Ok,
            r is Ok ==> (r->Ok_0 is Some <==> self.lsns().has(lsn as int)),
            r is Ok && r->Ok_0 is Some ==> r->Ok_0->0@ == self.entry(lsn as int),
    ;
}

/// `inner` holds every lsn of `r` (trivially so when `r` is empty).
pub open spec fn covers(outer: LsnRange, r: LsnRange) -> bool {
    r.count() > 0 ==> outer.lo() <= r.lo() && r.hi() <= outer.hi()
}

/// Walks the entries of a `Scannable` over a range of lsns, forwards or
/// backwards.
pub struct Cursor<'a, S> {
    inner: &'a S,
    remaining: LsnRange,
    reversed: bool,
    state: Option<(Lsn, &'a [u8])>,
}

impl<'a, S> Cursor<'a, S> {
    pub closed spec fn source(self) -> S {
        *self.inner
    }

    /// The lsns not yet visited.
    pub closed spec fn remaining(self) -> LsnRange {
        self.remaining
    }

    /// The cursor walks from the last lsn to the first.
    pub closed spec fn reversed(self) -> bool {
        self.reversed
    }

    /// The lsn the cursor points at, with its entry's bytes.
    pub closed spec fn current(self) -> Option<(Lsn, Seq<u8>)> {
        match self.state {
            Some((lsn, reader)) => Some((lsn, reader@)),
            None => None,
        }
    }


    /// A cursor over `lsns` of `inner` that points at nothing yet.
    pub(crate) fn over(inner: &'a S, lsns: LsnRange) -> (c: Self)
        ensures
            c.source() == *inner,
            c.remaining() == lsns,
            !c.reversed(),
            c.current() is None,
    {
        Self { inner, remaining: lsns, reversed: false, state: None }
    }
}

impl<'a, S: Scannable> Cursor<'a, S> {
    pub closed spec fn wf(self) -> bool {
        &&& self.inner.scannable_wf()
        &&& self.remaining.wf()
        &&& self.remaining.has_next()
        &&& covers(self.inner.lsns(), self.remaining)
        &&& match self.state {
            Some((lsn, reader)) => self.inner.lsns().has(lsn as int) && reader@
                == self.inner.entry(lsn as int),
            None => true,
        }
    }

    pub fn new(inner: &'a S, lsns: LsnRange) -> (c: Self)
        requires
            inner.scannable_wf(),
            lsns.wf(),
            lsns.has_next(),
            covers(inner.lsns(), lsns),
        ensures
            c.wf(),
            c.source() == *inner,
            c.remaining() == lsns,
            !c.reversed(),
            c.current() is None,
    {
        Self::over(inner, lsns)
    }

    /// advance the cursor
    /// Note: you must call advance() once to start reading the first entry
    ///
    /// example:
    ///     let mut cursor = journal.scan();
    ///     while cursor.advance()? {
    ///         ... cursor.read_at(...)
    ///     }
    pub fn advance(&mut self) -> (r: io::Result<bool>)
        requires
            old(self).wf(),
        ensures
            final(self).wf(),
            final(self).source() == old(self).source(),
            final(self).reversed() == old(self).reversed(),
            old(self).source().gets_infallible() ==> r is Ok,
            final(self).remaining().count() == if old(self).remaining().count() > 0 {
                old(self).remaining().count() - 1
            } else {
                0
            },
            ({
                let rem = old(self).remaining();
                let lsn = if old(self).reversed() {
                    rem.hi() - 1
                } else {
                    rem.lo()
                };
                &&& rem.count() == 0 ==> final(self).remaining() == rem
                &&& rem.count() > 0 ==> final(self).remaining().has(lsn) == false
                &&& rem.count() > 0 && !old(self).reversed() ==> final(self).remaining().lo()
                    == lsn + 1 && final(self).remaining().hi() == rem.hi()
                &&& rem.count() > 0 && old(self).reversed() ==> final(self).remaining().lo()
                    == rem.lo() && final(self).remaining().hi() == lsn
                &&& match r {
                    Ok(true) => {
                        &&& rem.count() > 0
                        &&& final(self).current() == Some(
                            (lsn as u64, old(self).source().entry(lsn)),
                        )
                    },
                    Ok(false) => rem.count() == 0 && final(self).current() == old(
                        self,
                    ).current(),
                    Err(_) => rem.count() > 0 && final(self).current() == old(self).current(),
                }
            }),
    {
        let lsn = match self.remaining {
            LsnRange::Empty { .. } => {
                return Ok(false);
            },
            LsnRange::NonEmpty { first, last } => {
                if !self.reversed {
                    self.remaining = if first == last {
                        LsnRange::Empty { nextlsn: last + 1 }
                    } else {
                        LsnRange::NonEmpty { first: first + 1, last }
                    };
                    first
                } else {
                    self.remaining = if first == last {
                        LsnRange::Empty { nextlsn: first }
                    } else {
                        LsnRange::NonEmpty { first, last: last - 1 }
                    };
                    last
                }
            },
        };
        let got = self.inner.get(lsn)?;
        let reader = got.unwrap();
        self.state = Some((lsn, reader));
        Ok(true)
    }

    /// return the lsn the cursor is currently pointing at
    pub fn lsn(&mut self) -> (r: Option<Lsn>)
        ensures
            *final(self) == *old(self),
            r == match old(self).current() {
                Some((lsn, _)) => Some(lsn),
                None => None,
            },
    {
        match self.state {
            Some((lsn, _)) => Some(lsn),
            None => None,
        }
    }

    /// reverse this cursor
    pub fn into_rev(self) -> (c: Cursor<'a, S>)
        requires
            self.wf(),
        ensures
            c.wf(),
            c.source() == self.source(),
            c.remaining() == self.remaining(),
            c.reversed() == !self.reversed(),
            c.current() is None,
    {
        Cursor { inner: self.inner, remaining: self.remaining, reversed: !self.reversed, state: None }
    }
}

impl<'a, S: Scannable> PositionedReader for Cursor<'a, S> {
    /// The bytes of the entry the cursor points at (none before the first
    /// `advance`).
    closed spec fn contents(&self) -> Seq<u8> {
        match self.state {
            Some((_, reader)) => reader@,
            None => Seq::empty(),
        }
    }

    /// A cursor reads from entries held in memory: its reads never fail.
    open spec fn reads_infallible(&self) -> bool {
        true
    }

    proof fn lemma_reads_infallible(&self) {
        match self.state {
            Some((_, reader)) => {
                vstd::slice::axiom_spec_len(reader);
            },
            None => {},
        }
    }

    fn read_at(&self, pos: usize, buf: &mut [u8]) -> (r: io::Result<usize>) {
        match self.state {
            None => {
                proof {
                    assert(buf@.subrange(0, buf@.len() as int) =~= buf@);
                }
                Ok(0)
            },
            Some((_, ref reader)) => reader.read_at(pos, buf),
        }
    }

    fn size(&self) -> (r: io::Result<usize>) {
        match self.state {
            None => Ok(0),
            Some((_, ref reader)) => reader.size(),
        }
    }
}

impl<'a, S: Scannable> Cursor<'a, S> {
    /// A cursor that points at nothing yet, over lsns that its consistent
    /// source holds, is consistent.
    pub proof fn lemma_fresh_wf(self)
        requires
            self.source().scannable_wf(),
            self.remaining().wf(),
            self.remaining().has_next(),
            covers(self.source().lsns(), self.remaining()),
            self.current() is None,
        ensures
            self.wf(),
    {
    }

    /// A cursor that points at no entry yet (as `new`, `scan` and `into_rev`
    /// leave it) holds no bytes: every read of it reads nothing, and its size
    /// is zero.
    pub proof fn lemma_unstarted_reads_nothing(self)
        requires
            self.current() is None,
        ensures
            self.contents().len() == 0,
            forall|pos: int, old_buf: Seq<u8>, new_buf: Seq<u8>, n: int|
                #[trigger] read_result(self.contents(), pos, old_buf, new_buf, n) && pos >= 0
                    ==> n == 0,
    {
    }

    /// As a byte source, a cursor holds the entry it points at.
    pub proof fn lemma_contents(self)
        ensures
            self.contents() == match self.current() {
                Some((_, bytes)) => bytes,
                None => Seq::empty(),
            },
    {
    }
}

} // verus!
