use sqlsync::journal::{Journal, JournalId, MemoryJournal};
use sqlsync::timeline::{rebase_timeline, timeline_applied_lsn, timeline_range_to_apply};
use sqlsync::LsnRange;

#[test]
fn timeline_range_skips_applied_lsns() {
    let range = LsnRange::new(3, 9);
    assert_eq!(timeline_range_to_apply(range, None), range);
    assert_eq!(timeline_range_to_apply(range, Some(5)), LsnRange::new(6, 9));
    assert!(timeline_range_to_apply(range, Some(9)).len() == 0);
    assert_eq!(timeline_range_to_apply(range, Some(1)), range);
}

#[test]
fn timeline_applied_lsn_is_last_of_range() {
    assert_eq!(timeline_applied_lsn(LsnRange::new(3, 9)), Some(9));
    assert_eq!(timeline_applied_lsn(LsnRange::empty()), None);
}

#[test]
fn timeline_applying_twice_applies_nothing() {
    let range = LsnRange::new(0, 4);
    let first = timeline_range_to_apply(range, Some(1));
    let recorded = timeline_applied_lsn(first);
    assert_eq!(recorded, Some(4));
    assert!(timeline_range_to_apply(range, recorded).len() == 0);
}

#[test]
fn rebase_drops_applied_prefix() {
    let id = JournalId::try_from(&[3u8; 16]).unwrap();
    let mut t = MemoryJournal::open(id).unwrap();
    for m in [b"m0".as_slice(), b"m1", b"m2", b"m3"] {
        t.append(m).unwrap();
    }
    assert_eq!(rebase_timeline(&mut t, None).unwrap(), LsnRange::new(0, 3));
    assert_eq!(rebase_timeline(&mut t, Some(1)).unwrap(), LsnRange::new(2, 3));
    assert_eq!(t.range(), LsnRange::new(2, 3));
}
