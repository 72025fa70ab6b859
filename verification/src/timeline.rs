use vstd::prelude::*;

use crate::journal::{Journal, JournalResult};
use crate::lsn::{Lsn, LsnRange};

verus! {

/// The lsns of a timeline still to be applied to the database after the
/// timeline's lsns up to `applied` (the last lsn recorded as applied) were:
/// those of `range` after `applied`, or all of `range` when nothing was
/// recorded yet. This keeps a mutation from being applied twice.
pub open spec fn spec_timeline_range_to_apply(range: LsnRange, applied: Option<Lsn>) -> LsnRange {
    match applied {
        Some(a) => range.spec_trim_prefix(a),
        None => range,
    }
}

/// Which lsns of `range` to apply, given the last lsn recorded as applied:
/// see `spec_timeline_range_to_apply`.
pub fn timeline_range_to_apply(range: LsnRange, applied: Option<Lsn>) -> (r: LsnRange)
    requires
        range.wf(),
        applied matches Some(a) ==> range.can_trim_prefix(a),
    ensures
        r.wf(),
        r == spec_timeline_range_to_apply(range, applied),
{
    match applied {
        Some(a) => range.trim_prefix(a),
        None => range,
    }
}

/// The lsn to record as applied once the lsns of `range` were applied: its
/// last lsn, or nothing when there was nothing to apply.
pub fn timeline_applied_lsn(range: LsnRange) -> (r: Option<Lsn>)
    requires
        range.wf(),
    ensures
        r == (if range.count() > 0 {
            Some((range.hi() - 1) as Lsn)
        } else {
            None
        }),
{
    range.last()
}

/// Rebases a timeline onto the database state that records `applied` as the
/// last lsn applied: drops the timeline's lsns up to `applied`, which the
/// database already holds, and returns the lsns to apply again (all that
/// remain).
pub fn rebase_timeline<J: Journal>(timeline: &mut J, applied: Option<Lsn>) -> (r: JournalResult<LsnRange>)
    requires
        old(timeline).scannable_wf(),
        applied matches Some(a) ==> old(timeline).lsns().can_trim_prefix(a),
    ensures
        final(timeline).scannable_wf(),
        final(timeline).spec_id() == old(timeline).spec_id(),
        applied is None ==> r == Ok::<LsnRange, crate::journal::JournalError>(old(timeline).lsns())
            && *final(timeline) == *old(timeline),
        old(timeline).drops_infallible() ==> r is Ok,
        r is Err ==> final(timeline).lsns() == old(timeline).lsns(),
        r matches Ok(rg) ==> rg == final(timeline).lsns() && rg == spec_timeline_range_to_apply(
            old(timeline).lsns(),
            applied,
        ),
        forall|lsn: int|
            final(timeline).lsns().has(lsn) ==> #[trigger] final(timeline).entry(lsn) == old(
                timeline,
            ).entry(lsn),
{
    if let Some(a) = applied {
        timeline.drop_prefix(a)?;
    }
    Ok(timeline.range())
}

/// Applying the lsns that `timeline_range_to_apply` gives, and recording the
/// last of them, leaves nothing to apply when the timeline has not grown:
/// no mutation is applied twice.
pub proof fn lemma_apply_once(range: LsnRange, applied: Option<Lsn>)
    requires
        range.wf(),
        range.has_next(),
        applied matches Some(a) ==> range.can_trim_prefix(a),
        spec_timeline_range_to_apply(range, applied).count() > 0,
    ensures
        ({
            let r = spec_timeline_range_to_apply(range, applied);
            let next = (r.hi() - 1) as Lsn;
            &&& range.can_trim_prefix(next)
            &&& spec_timeline_range_to_apply(range, Some(next)).count() == 0
        }),
        forall|lsn: int|
            spec_timeline_range_to_apply(range, applied).has(lsn) ==> range.has(lsn) && (
            applied matches Some(a) ==> lsn > a),
{
    let r = spec_timeline_range_to_apply(range, applied);
    if let Some(a) = applied {
        assert forall|lsn: int| r.has(lsn) implies range.has(lsn) && lsn > a by {
            crate::lsn_laws::lemma_trim_prefix_contents(range, a, lsn);
        }
        crate::lsn_laws::lemma_trim_prefix_contents(range, a, r.lo());
    }
    assert(r.hi() == range.hi());
    let next = (r.hi() - 1) as Lsn;
    assert(range.can_trim_prefix(next));
    assert forall|lsn: int| !range.spec_trim_prefix(next).has(lsn) by {
        crate::lsn_laws::lemma_trim_prefix_contents(range, next, lsn);
    }
    crate::lsn_laws::lemma_trim_prefix_contents(range, next, range.spec_trim_prefix(next).lo());
}

} // verus!
