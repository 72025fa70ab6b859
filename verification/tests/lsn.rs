use sqlsync::LsnRange;

#[test]
fn lsnrange_len() {
    assert_eq!(LsnRange::new(0, 0).len(), 1);
    assert_eq!(LsnRange::new(0, 1).len(), 2);
    assert_eq!(LsnRange::new(5, 10).len(), 6);
}

#[test]
fn lsnrange_contains() {
    let range = LsnRange::new(5, 10);

    assert!(!range.contains(0));
    assert!(range.contains(5));
    assert!(range.contains(6));
    assert!(range.contains(10));
    assert!(!range.contains(11));
}

fn check_intersection(
    range: &LsnRange,
    other: LsnRange,
    intersection: LsnRange,
    offsets: std::ops::Range<usize>,
) {
    assert_eq!(
        !range.intersects(&other),
        offsets.is_empty(),
        "checking intersects: {:?}, {:?}",
        range,
        other
    );
    assert_eq!(
        range.intersect(&other),
        intersection,
        "checking intersection: {:?}, {:?}",
        range,
        other
    );
    assert_eq!(
        range.intersection_offsets(&other),
        offsets,
        "checking intersection_offsets: {:?}, {:?}",
        range,
        other
    );
}

#[test]
fn lsnrange_intersects() {
    let range = LsnRange::new(5, 10);
    let r = |first: u64, last: u64| LsnRange::new(first, last);
    let empty = |nextlsn: u64| LsnRange::Empty { nextlsn };

    check_intersection(&range, r(0, 4), empty(11), 0..0);
    check_intersection(&range, r(0, 5), r(5, 5), 0..1);
    check_intersection(&range, r(0, 6), r(5, 6), 0..2);
    check_intersection(&range, r(0, 10), r(5, 10), 0..6);
    check_intersection(&range, r(0, 11), r(5, 10), 0..6);
    check_intersection(&range, r(5, 5), r(5, 5), 0..1);
    check_intersection(&range, r(5, 6), r(5, 6), 0..2);
    check_intersection(&range, r(5, 10), r(5, 10), 0..6);
    check_intersection(&range, r(5, 11), r(5, 10), 0..6);
    check_intersection(&range, r(9, 10), r(9, 10), 4..6);
    check_intersection(&range, r(10, 10), r(10, 10), 5..6);
    check_intersection(&range, r(10, 11), r(10, 10), 5..6);
    check_intersection(&range, r(11, 11), empty(11), 0..0);
    check_intersection(&range, r(20, 30), empty(11), 0..0);
}

#[test]
fn lsnrange_offset() {
    let range = LsnRange::new(5, 10);

    assert_eq!(range.offset(0), None);
    assert_eq!(range.offset(4), None);
    assert_eq!(range.offset(5), Some(0));
    assert_eq!(range.offset(6), Some(1));
    assert_eq!(range.offset(10), Some(5));
    assert_eq!(range.offset(11), None);
}

#[test]
fn lsnrange_preceeds_follows() {
    let range = LsnRange::new(5, 10);

    let t = |other: LsnRange, result: bool| {
        assert_eq!(range.immediately_preceeds(&other), result);
        assert_eq!(other.immediately_follows(&range), result);
    };

    t(LsnRange::new(0, 4), false);
    t(LsnRange::new(0, 5), false);
    t(LsnRange::new(0, 6), false);
    t(LsnRange::new(9, 10), false);
    t(LsnRange::new(10, 10), false);
    t(LsnRange::new(10, 11), false);
    t(LsnRange::new(11, 11), true);
    t(LsnRange::new(11, 12), true);
    t(LsnRange::new(12, 12), false);
}

#[test]
fn lsnrange_trim_prefix() {
    let range = LsnRange::new(5, 10);

    assert_eq!(range.trim_prefix(0), range);
    assert_eq!(range.trim_prefix(4), range);
    assert_eq!(range.trim_prefix(5), LsnRange::new(6, 10));
    assert_eq!(range.trim_prefix(6), LsnRange::new(7, 10));
    assert_eq!(range.trim_prefix(7), LsnRange::new(8, 10));
    assert_eq!(range.trim_prefix(8), LsnRange::new(9, 10));
    assert_eq!(range.trim_prefix(9), LsnRange::new(10, 10));
    assert_eq!(range.trim_prefix(10), LsnRange::Empty { nextlsn: 11 });
    assert_eq!(range.trim_prefix(20), LsnRange::Empty { nextlsn: 21 });
}

#[test]
fn lsnrange_extend() {
    let range = LsnRange::new(5, 10);
    assert_eq!(range.extend_by(1), LsnRange::new(5, 11));
    assert_eq!(range.extend_by(2), LsnRange::new(5, 12));

    let range = LsnRange::empty();
    assert_eq!(range.extend_by(1), LsnRange::new(0, 0));
    assert_eq!(range.extend_by(2), LsnRange::new(0, 1));

    let range = LsnRange::Empty { nextlsn: 5 };
    assert_eq!(range.extend_by(1), LsnRange::new(5, 5));
    assert_eq!(range.extend_by(2), LsnRange::new(5, 6));
}

#[test]
fn lsnrange_append() {
    let range = LsnRange::new(5, 10);
    assert_eq!(range.append(11), LsnRange::new(5, 11));
    let range = LsnRange::empty();
    assert_eq!(range.append(0), LsnRange::new(0, 0));
    let range = LsnRange::Empty { nextlsn: 3 };
    assert_eq!(range.append(3), LsnRange::new(3, 3));
}

// laws of LsnRange, on concrete values

#[test]
fn lsnrange_intersect_is_symmetric_in_membership() {
    let a = LsnRange::new(3, 8);
    let b = LsnRange::new(6, 12);
    assert_eq!(a.intersect(&b), LsnRange::new(6, 8));
    assert_eq!(b.intersect(&a), LsnRange::new(6, 8));
    assert_eq!(a.intersects(&b), b.intersects(&a));
    for lsn in 0..15 {
        assert_eq!(
            a.intersect(&b).contains(lsn),
            a.contains(lsn) && b.contains(lsn)
        );
    }
}

#[test]
fn lsnrange_trim_prefix_twice_is_trim_to_max() {
    let r = LsnRange::new(5, 20);
    assert_eq!(r.trim_prefix(7).trim_prefix(12), r.trim_prefix(12));
    assert_eq!(r.trim_prefix(12).trim_prefix(7), r.trim_prefix(12));
}

#[test]
fn lsnrange_append_is_extend_by_one() {
    let r = LsnRange::new(2, 4);
    assert_eq!(r.append(5), r.extend_by(1));
    assert_eq!(r.extend_by(2).extend_by(3), r.extend_by(5));
}

#[test]
fn lsnrange_preceeding_ranges_are_disjoint() {
    let a = LsnRange::new(0, 4);
    let b = LsnRange::new(5, 9);
    assert!(a.immediately_preceeds(&b));
    assert!(!a.intersects(&b));
}

#[test]
fn lsnrange_empty_following() {
    let r = LsnRange::new(5, 10);
    assert_eq!(LsnRange::empty_following(&r), LsnRange::Empty { nextlsn: 11 });
    assert_eq!(r.next(), 11);
    assert_eq!(LsnRange::empty_following(&r).next(), 11);
    assert_eq!(r.last(), Some(10));
    assert_eq!(LsnRange::empty().last(), None);
    assert!(LsnRange::empty().is_empty());
    assert!(r.is_non_empty());
}
