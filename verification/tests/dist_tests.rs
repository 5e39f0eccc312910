use knnrs::dist::{distance_sqr, distance_sqr_checked};

#[test]
fn distance_symmetry_and_identity() {
    let a = vec![1, 2, 3];
    let b = vec![4, 6, 8];
    assert_eq!(distance_sqr(&a, &b), distance_sqr(&b, &a));
    assert_eq!(distance_sqr(&a, &a), 0);
    assert_eq!(distance_sqr(&b, &b), 0);
}

#[test]
fn distance_exact_value() {
    // (1-4)^2 + (2-6)^2 + (3-8)^2 = 9 + 16 + 25
    assert_eq!(distance_sqr(&vec![1, 2, 3], &vec![4, 6, 8]), 50);
    assert_eq!(distance_sqr(&vec![-2, 0], &vec![2, -3]), 25);
    assert_eq!(distance_sqr(&vec![], &vec![]), 0);
}

#[test]
fn distance_truncates_to_shorter() {
    // pairing stops at the shorter vector
    assert_eq!(distance_sqr(&vec![1, 2, 3], &vec![1, 2]), 0);
    assert_eq!(distance_sqr(&vec![5], &vec![1, 100, 100]), 16);
    assert_eq!(distance_sqr(&vec![7, 7], &vec![]), 0);
}

#[test]
fn distance_checked_matches_and_detects_overflow() {
    let a = vec![1, 2, 3];
    let b = vec![4, 6, 8];
    assert_eq!(distance_sqr_checked(&a, &b), Some(50));
    // one widest-possible term still fits in a u64 ...
    let big = distance_sqr_checked(&vec![i32::MAX], &vec![i32::MIN]);
    assert_eq!(big, Some(u64::MAX - (1u64 << 33) + 2));
    // ... but two of them overflow it
    let over = distance_sqr_checked(&vec![i32::MAX, i32::MAX], &vec![i32::MIN, i32::MIN]);
    assert_eq!(over, None);
}
