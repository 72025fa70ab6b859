use vstd::prelude::*;

use crate::lsn::{spec_max, Lsn, LsnRange};

verus! {

/// A well-formed range is determined by its bounds: rebuilding a range from
/// `(lo, hi)` gives back the same range.
pub proof fn lemma_range_from_its_bounds(r: LsnRange)
    requires
        r.wf(),
        r.has_next(),
    ensures
        LsnRange::from_bounds(r.lo(), r.hi()) == r,
        r.lo() <= r.hi(),
{
}

/// Two ranges intersect exactly when some lsn lies in both of them.
pub proof fn lemma_intersects_iff_shared_lsn(a: LsnRange, b: LsnRange)
    requires
        a.wf(),
        b.wf(),
    ensures
        a.spec_intersects(b) <==> exists|lsn: int| a.has(lsn) && b.has(lsn),
{
    if a.spec_intersects(b) {
        let w = spec_max(a.lo(), b.lo());
        assert(a.has(w) && b.has(w));
    }
}

/// Intersection does not depend on the order of its operands.
pub proof fn lemma_intersects_symmetric(a: LsnRange, b: LsnRange)
    ensures
        a.spec_intersects(b) == b.spec_intersects(a),
{
}

/// An lsn lies in the intersection of two ranges exactly when it lies in
/// both of them; the intersection of a non-empty range with a range it does
/// not meet is empty and sits at the first range's next lsn.
pub proof fn lemma_intersect_contents(a: LsnRange, b: LsnRange, lsn: int)
    requires
        a.wf(),
        b.wf(),
        a.has_next(),
    ensures
        a.spec_intersect(b).wf(),
        a.spec_intersect(b).has(lsn) <==> (a.has(lsn) && b.has(lsn)),
        a is NonEmpty && !a.spec_intersects(b) ==> a.spec_intersect(b) == (LsnRange::Empty {
            nextlsn: a.hi() as u64,
        }),
{
}

/// `intersection_offsets` locates the intersection inside the first range:
/// the offsets span exactly the lsns that `intersect` returns, they lie
/// within the first range, and they are empty (`0..0`) exactly when the
/// ranges do not intersect.
pub proof fn lemma_intersection_offsets_locate_intersect(a: LsnRange, b: LsnRange)
    requires
        a.wf(),
        b.wf(),
        a.has_next(),
    ensures
        ({
            let (start, end) = a.spec_intersection_offsets(b);
            let i = a.spec_intersect(b);
            &&& end - start == i.count()
            &&& i.count() > 0 ==> start == i.lo() - a.lo() && end == i.hi() - a.lo()
            &&& !a.spec_intersects(b) ==> start == 0 && end == 0
            &&& (start == end <==> !a.spec_intersects(b))
            &&& 0 <= start <= end <= a.count()
        }),
{
}

/// Removing a prefix keeps exactly the lsns above the cut, and the range
/// that remains is followed by an lsn no smaller than `up_to + 1`.
pub proof fn lemma_trim_prefix_contents(r: LsnRange, up_to: Lsn, lsn: int)
    requires
        r.wf(),
        r.can_trim_prefix(up_to),
    ensures
        r.spec_trim_prefix(up_to).wf(),
        r.spec_trim_prefix(up_to).has(lsn) <==> (r.has(lsn) && lsn > up_to),
        r.spec_trim_prefix(up_to).hi() == spec_max(r.hi(), up_to + 1),
{
}

/// Trimming twice is trimming once at the larger cut.
pub proof fn lemma_trim_prefix_twice(r: LsnRange, a: Lsn, b: Lsn)
    requires
        r.wf(),
        r.can_trim_prefix(a),
        r.spec_trim_prefix(a).can_trim_prefix(b),
    ensures
        r.spec_trim_prefix(a).spec_trim_prefix(b) == r.spec_trim_prefix(
            spec_max(a as int, b as int) as u64,
        ),
{
}

/// Appending the next lsn is extending the range by one.
pub proof fn lemma_append_is_extend_by_one(r: LsnRange)
    requires
        r.wf(),
        r.has_next(),
    ensures
        r.spec_extend_by(1).lo() == r.lo(),
        r.spec_extend_by(1).hi() == r.hi() + 1,
        r.spec_extend_by(1).has(r.hi()),
{
}

/// Extending by `m` and then by `n` is extending by `m + n`.
pub proof fn lemma_extend_by_twice(r: LsnRange, m: int, n: int)
    requires
        r.wf(),
        m > 0,
        n > 0,
        r.hi() + m + n - 1 <= u64::MAX,
    ensures
        r.spec_extend_by(m).spec_extend_by(n) == r.spec_extend_by(m + n),
{
}

/// `a` immediately precedes `b` exactly when `b` immediately follows `a`,
/// and then the two ranges share no lsn.
pub proof fn lemma_preceeds_disjoint(a: LsnRange, b: LsnRange)
    requires
        a.wf(),
        b.wf(),
        a.spec_immediately_preceeds(b),
    ensures
        !a.spec_intersects(b),
        a.spec_extend_by(b.count()).hi() == b.hi(),
{
}

/// An lsn of a range sits at offset `lsn - lo`, which is below the range's
/// length; distinct lsns sit at distinct offsets.
pub proof fn lemma_offset_in_bounds(r: LsnRange, lsn: int)
    requires
        r.wf(),
        r.has(lsn),
    ensures
        0 <= lsn - r.lo() < r.count(),
        r.has(r.lo() + (lsn - r.lo())),
{
}

/// The empty range that follows a range starts where that range ends and
/// meets no range.
pub proof fn lemma_empty_following(r: LsnRange, other: LsnRange)
    requires
        r.wf(),
        r.has_next(),
    ensures
        (LsnRange::Empty { nextlsn: r.hi() as u64 }).count() == 0,
        !(LsnRange::Empty { nextlsn: r.hi() as u64 }).spec_intersects(other),
        (LsnRange::Empty { nextlsn: r.hi() as u64 }).spec_extend_by(1).lo() == r.hi(),
{
}

} // verus!
