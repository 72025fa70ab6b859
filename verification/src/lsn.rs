use vstd::prelude::*;

use std::ops::Range;

use vstd::string::StringExecFns;

use crate::text::{decimal, push_decimal};

verus! {

/// A log sequence number: the position of one entry in a journal.
pub type Lsn = u64;

/// A contiguous range of lsns.
///
/// An empty range still remembers where it sits in the journal: `nextlsn` is
/// the lsn that the next entry appended to the range will take.
#[derive(Clone, Copy, PartialEq, Eq, Structural, Debug)]
pub enum LsnRange {
    Empty {
        /// nextlsn is the next lsn in the range
        nextlsn: Lsn,
    },
    NonEmpty {
        /// first marks the beginning of the range, inclusive.
        first: Lsn,
        /// last marks the end of the range, inclusive.
        last: Lsn,
    },
}

impl LsnRange {
    /// A range is well formed when a non-empty range does not end before it
    /// starts.
    pub open spec fn wf(self) -> bool {
        match self {
            LsnRange::Empty { .. } => true,
            LsnRange::NonEmpty { first, last } => first <= last,
        }
    }

    /// The lsn that follows the range can be represented (a non-empty range
    /// does not end at `u64::MAX`).
    pub open spec fn has_next(self) -> bool {
        match self {
            LsnRange::Empty { .. } => true,
            LsnRange::NonEmpty { last, .. } => last < u64::MAX,
        }
    }

    /// The number of lsns in the range can be represented as a `usize`.
    pub open spec fn len_fits(self) -> bool {
        match self {
            LsnRange::Empty { .. } => true,
            LsnRange::NonEmpty { first, last } => last - first < usize::MAX,
        }
    }

    /// The first lsn of the range; for an empty range, the lsn that it would
    /// start at.
    pub open spec fn lo(self) -> int {
        match self {
            LsnRange::Empty { nextlsn } => nextlsn as int,
            LsnRange::NonEmpty { first, .. } => first as int,
        }
    }

    /// One past the last lsn of the range: the range is the half-open
    /// interval `[lo, hi)`.
    pub open spec fn hi(self) -> int {
        match self {
            LsnRange::Empty { nextlsn } => nextlsn as int,
            LsnRange::NonEmpty { last, .. } => last + 1,
        }
    }

    /// Membership of an lsn in the range.
    pub open spec fn has(self, lsn: int) -> bool {
        self.lo() <= lsn < self.hi()
    }

    /// The number of lsns in the range.
    pub open spec fn count(self) -> int {
        self.hi() - self.lo()
    }

    /// The range with `lo` and `hi` as its bounds: the inverse of the view
    /// `(lo, hi)` on well-formed ranges.
    pub open spec fn from_bounds(lo: int, hi: int) -> LsnRange {
        if lo >= hi {
            LsnRange::Empty { nextlsn: hi as u64 }
        } else {
            LsnRange::NonEmpty { first: lo as u64, last: (hi - 1) as u64 }
        }
    }

    pub fn new(first: Lsn, last: Lsn) -> (r: Self)
        requires
            first <= last,
        ensures
            r == (LsnRange::NonEmpty { first, last }),
            r.wf(),
    {
        LsnRange::NonEmpty { first, last }
    }

    pub fn empty() -> (r: Self)
        ensures
            r == (LsnRange::Empty { nextlsn: 0 }),
    {
        LsnRange::Empty { nextlsn: 0 }
    }

    pub fn empty_following(range: &LsnRange) -> (r: Self)
        requires
            range.has_next(),
        ensures
            r == (LsnRange::Empty { nextlsn: range.hi() as u64 }),
            r.lo() == range.hi(),
    {
        LsnRange::Empty { nextlsn: range.next() }
    }

    pub fn is_empty(&self) -> (b: bool)
        ensures
            b == (*self is Empty),
            self.wf() ==> (b <==> self.count() == 0),
    {
        match self {
            LsnRange::Empty { .. } => true,
            LsnRange::NonEmpty { .. } => false,
        }
    }

    pub fn is_non_empty(&self) -> (b: bool)
        ensures
            b == (*self is NonEmpty),
            self.wf() ==> (b <==> self.count() > 0),
    {
        !self.is_empty()
    }

    pub fn len(&self) -> (n: usize)
        requires
            self.wf(),
            self.len_fits(),
        ensures
            n == self.count(),
    {
        match self {
            LsnRange::Empty { .. } => 0,
            LsnRange::NonEmpty { first, last } => (*last - *first + 1) as usize,
        }
    }

    pub fn last(&self) -> (r: Option<Lsn>)
        ensures
            r == (match *self {
                LsnRange::Empty { .. } => None,
                LsnRange::NonEmpty { last, .. } => Some(last),
            }),
            self.wf() ==> (r is Some <==> self.count() > 0),
            r is Some ==> r->0 == self.hi() - 1,
    {
        match self {
            LsnRange::Empty { .. } => None,
            LsnRange::NonEmpty { last, .. } => Some(*last),
        }
    }

    pub fn next(&self) -> (n: Lsn)
        requires
            self.has_next(),
        ensures
            n == self.hi(),
    {
        match self {
            LsnRange::Empty { nextlsn } => *nextlsn,
            LsnRange::NonEmpty { last, .. } => *last + 1,
        }
    }

    pub fn contains(&self, lsn: Lsn) -> (b: bool)
        ensures
            b == self.has(lsn as int),
    {
        match self {
            LsnRange::Empty { .. } => false,
            LsnRange::NonEmpty { first, last } => *first <= lsn && lsn <= *last,
        }
    }

    /// Both ranges are non-empty and share at least one lsn.
    pub open spec fn spec_intersects(self, other: LsnRange) -> bool {
        &&& self is NonEmpty
        &&& other is NonEmpty
        &&& self.lo() < other.hi()
        &&& other.lo() < self.hi()
    }

    pub fn intersects(&self, other: &Self) -> (b: bool)
        ensures
            b == self.spec_intersects(*other),
    {
        match (self, other) {
            (LsnRange::Empty { .. }, _) => false,
            (_, LsnRange::Empty { .. }) => false,
            (
                LsnRange::NonEmpty { first: self_first, last: self_last },
                LsnRange::NonEmpty { first: other_first, last: other_last },
            ) => *self_last >= *other_first && *self_first <= *other_last,
        }
    }

    /// `other` starts exactly where `self` ends.
    pub open spec fn spec_immediately_preceeds(self, other: LsnRange) -> bool {
        other is NonEmpty && self.hi() == other.lo()
    }

    pub fn immediately_preceeds(&self, other: &Self) -> (b: bool)
        requires
            other is NonEmpty ==> self.has_next(),
        ensures
            b == self.spec_immediately_preceeds(*other),
    {
        match (self, other) {
            (_, LsnRange::Empty { .. }) => false,
            (LsnRange::Empty { nextlsn }, LsnRange::NonEmpty { first, .. }) => *nextlsn == *first,
            (LsnRange::NonEmpty { last, .. }, LsnRange::NonEmpty { first, .. }) => *last + 1
                == *first,
        }
    }

    pub fn immediately_follows(&self, other: &Self) -> (b: bool)
        requires
            self is NonEmpty ==> other.has_next(),
        ensures
            b == other.spec_immediately_preceeds(*self),
    {
        other.immediately_preceeds(self)
    }

    pub fn offset(&self, lsn: Lsn) -> (r: Option<usize>)
        requires
            self.len_fits(),
        ensures
            r is Some <==> self.has(lsn as int),
            r is Some ==> r->0 == lsn - self.lo(),
    {
        if self.contains(lsn) {
            match self {
                LsnRange::Empty { .. } => None,
                LsnRange::NonEmpty { first, .. } => {
                    let d: u64 = if lsn >= *first {
                        lsn - *first
                    } else {
                        0
                    };
                    Some(d as usize)
                },
            }
        } else {
            None
        }
    }

    /// The positions within `self` of the lsns that `self` shares with
    /// `other`, as a half-open range of offsets (`0..0` when they share none).
    pub open spec fn spec_intersection_offsets(self, other: LsnRange) -> (int, int) {
        if self.spec_intersects(other) {
            (
                spec_max(self.lo(), other.lo()) - self.lo(),
                spec_min(self.hi(), other.hi()) - self.lo(),
            )
        } else {
            (0, 0)
        }
    }

    pub fn intersection_offsets(&self, other: &Self) -> (r: Range<usize>)
        requires
            self.wf(),
            other.wf(),
            self.len_fits(),
        ensures
            r.start == self.spec_intersection_offsets(*other).0,
            r.end == self.spec_intersection_offsets(*other).1,
            r.start <= r.end <= self.count(),
    {
        if self.intersects(other) {
            match (self, other) {
                (
                    LsnRange::NonEmpty { first: self_first, last: self_last },
                    LsnRange::NonEmpty { first: other_first, last: other_last },
                ) => {
                    let start = lsn_max(*self_first, *other_first) - *self_first;
                    let end = lsn_min(*self_last, *other_last) - *self_first + 1;
                    (start as usize)..(end as usize)
                },
                (_, _) => 0..0,
            }
        } else {
            0..0
        }
    }

    /// Whether `trim_prefix(up_to)` is defined: the result's next lsn,
    /// `up_to + 1`, must be representable, and an empty range must not be
    /// moved backwards past its own next lsn.
    pub open spec fn can_trim_prefix(self, up_to: Lsn) -> bool {
        match self {
            LsnRange::Empty { nextlsn } => up_to + 1 >= nextlsn && up_to < u64::MAX,
            LsnRange::NonEmpty { first, last } => up_to < first || up_to < last || up_to
                < u64::MAX,
        }
    }

    /// Whether `trim_prefix(up_to)` can be computed (its cut plus one is an
    /// lsn).
    pub fn can_trim(&self, up_to: Lsn) -> (b: bool)
        ensures
            b == self.can_trim_prefix(up_to),
    {
        match self {
            LsnRange::Empty { nextlsn } => up_to < u64::MAX && up_to + 1 >= *nextlsn,
            LsnRange::NonEmpty { first, last } => up_to < *first || up_to < *last || up_to < u64::MAX,
        }
    }

    /// The range with every lsn `<= up_to` removed; its next lsn is at least
    /// `up_to + 1`.
    pub open spec fn spec_trim_prefix(self, up_to: Lsn) -> LsnRange {
        LsnRange::from_bounds(spec_max(self.lo(), up_to + 1), spec_max(self.hi(), up_to + 1))
    }

    // returns a new LsnRange with all lsns <= up_to removed
    pub fn trim_prefix(&self, up_to: Lsn) -> (r: LsnRange)
        requires
            self.wf(),
            self.can_trim_prefix(up_to),
        ensures
            r.wf(),
            r == self.spec_trim_prefix(up_to),
            r.lo() == spec_max(self.lo(), up_to + 1),
            r.hi() == spec_max(self.hi(), up_to + 1),
    {
        match self {
            LsnRange::Empty { nextlsn } => {
                let min_val = if *nextlsn > 0 {
                    *nextlsn - 1
                } else {
                    0
                };
                assert(up_to >= min_val);
                LsnRange::Empty { nextlsn: up_to + 1 }
            },
            LsnRange::NonEmpty { first, last } => {
                if up_to >= *last {
                    LsnRange::Empty { nextlsn: up_to + 1 }
                } else if up_to < *first {
                    *self
                } else {
                    LsnRange::new(up_to + 1, *last)
                }
            },
        }
    }

    /// The range grown by `len` lsns at its end.
    pub open spec fn spec_extend_by(self, len: int) -> LsnRange {
        LsnRange::from_bounds(self.lo(), self.hi() + len)
    }

    pub fn extend_by(&self, len: u64) -> (r: LsnRange)
        requires
            len > 0,
            self.wf(),
            self.hi() + len - 1 <= u64::MAX,
            self is Empty ==> self.hi() + len <= u64::MAX,
        ensures
            r == self.spec_extend_by(len as int),
            r is NonEmpty,
            r.wf(),
            r.lo() == self.lo(),
            r.hi() == self.hi() + len,
    {
        match self {
            LsnRange::Empty { nextlsn } => LsnRange::new(*nextlsn, *nextlsn + len - 1),
            LsnRange::NonEmpty { first, last } => LsnRange::new(*first, *last + len),
        }
    }

    /// append the lsn to the range, panics if lsn is not the next lsn
    pub fn append(&self, lsn: Lsn) -> (r: LsnRange)
        requires
            self.wf(),
            self.has_next(),
            lsn == self.hi(),
        ensures
            r == self.spec_extend_by(1),
            r is NonEmpty,
            r.wf(),
            r.lo() == self.lo(),
            r.hi() == self.hi() + 1,
    {
        match self {
            LsnRange::Empty { nextlsn } => { LsnRange::new(*nextlsn, *nextlsn) },
            LsnRange::NonEmpty { first, last } => { LsnRange::new(*first, *last + 1) },
        }
    }

    /// The intersection of two ranges. When the ranges share no lsn the
    /// result is empty, positioned at the next lsn of `self`.
    pub open spec fn spec_intersect(self, other: LsnRange) -> LsnRange {
        if self is Empty {
            self
        } else if self.spec_intersects(other) {
            LsnRange::NonEmpty {
                first: spec_max(self.lo(), other.lo()) as u64,
                last: (spec_min(self.hi(), other.hi()) - 1) as u64,
            }
        } else {
            LsnRange::Empty { nextlsn: self.hi() as u64 }
        }
    }

    /// intersect returns the intersection between two ranges
    /// if the result is empty, nextlsn will be set to self.last + 1
    pub fn intersect(&self, other: &Self) -> (r: LsnRange)
        requires
            self.wf(),
            other.wf(),
            self.has_next(),
        ensures
            r == self.spec_intersect(*other),
            r.wf(),
    {
        match (self, other) {
            (LsnRange::Empty { .. }, _) => *self,
            (LsnRange::NonEmpty { last, .. }, LsnRange::Empty { .. }) => {
                LsnRange::Empty { nextlsn: *last + 1 }
            },
            (
                LsnRange::NonEmpty { first, last },
                LsnRange::NonEmpty { first: other_first, last: other_last },
            ) => {
                if self.intersects(other) {
                    LsnRange::new(lsn_max(*first, *other_first), lsn_min(*last, *other_last))
                } else {
                    LsnRange::Empty { nextlsn: *last + 1 }
                }
            },
        }
    }
}

pub open spec fn spec_max(a: int, b: int) -> int {
    if a >= b {
        a
    } else {
        b
    }
}

pub open spec fn spec_min(a: int, b: int) -> int {
    if a <= b {
        a
    } else {
        b
    }
}

fn lsn_max(a: Lsn, b: Lsn) -> (r: Lsn)
    ensures
        r == spec_max(a as int, b as int),
{
    if a >= b {
        a
    } else {
        b
    }
}

fn lsn_min(a: Lsn, b: Lsn) -> (r: Lsn)
    ensures
        r == spec_min(a as int, b as int),
{
    if a <= b {
        a
    } else {
        b
    }
}

/// The debug text of a range: `LsnRange::E(n)` for an empty range whose
/// next lsn is `n`, `LsnRange(f, l)` for the lsns `f` to `l`.
pub open spec fn range_text(r: LsnRange) -> Seq<char> {
    match r {
        LsnRange::Empty { nextlsn } => "LsnRange::E("@ + decimal(nextlsn as nat) + ")"@,
        LsnRange::NonEmpty { first, last } => "LsnRange("@ + decimal(first as nat) + ", "@
            + decimal(last as nat) + ")"@,
    }
}

impl LsnRange {
    /// The range's debug text: see `range_text`.
    pub fn debug_text(&self) -> (s: String)
        ensures
            s@ == range_text(*self),
    {
        match self {
            LsnRange::Empty { nextlsn } => {
                let mut s = "LsnRange::E(".to_owned();
                push_decimal(&mut s, *nextlsn);
                s.append(")");
                s
            },
            LsnRange::NonEmpty { first, last } => {
                let mut s = "LsnRange(".to_owned();
                push_decimal(&mut s, *first);
                s.append(", ");
                push_decimal(&mut s, *last);
                s.append(")");
                s
            },
        }
    }
}

} // verus!
