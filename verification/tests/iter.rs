use sqlsync::iter::has_sorted_intersection;

#[test]
fn test_has_sorted_intersection() {
    // write a simple test for has_sorted_intersection
    let empty: [u32; 0] = [0; 0];

    assert!(has_sorted_intersection(&[0], &[0]));
    assert!(has_sorted_intersection(&[0, 1], &[1, 2]),);
    assert!(has_sorted_intersection(&[1, 2, 3], &[1, 2, 3]));
    assert!(has_sorted_intersection(&[0, 0], &[0, 1]));
    assert!(has_sorted_intersection(&[1, 2, 2, 3], &[0, 0, 0, 3]));

    assert!(!has_sorted_intersection(&[1, 2], &[3, 4]));
    assert!(!has_sorted_intersection(&[1, 2], &[10]));
    assert!(!has_sorted_intersection(&[1, 2, 2, 3], &[0]));

    assert!(!has_sorted_intersection(&[1, 2], &empty));
    assert!(!has_sorted_intersection(&empty, &empty));
    assert!(!has_sorted_intersection(&empty, &[1, 2]));
}

#[test]
fn sorted_intersection_finds_late_match() {
    assert!(has_sorted_intersection(&[1, 5, 9, 200], &[2, 3, 4, 200]));
    assert!(!has_sorted_intersection(&[1, 5, 9, 199], &[2, 3, 4, 200]));
}
