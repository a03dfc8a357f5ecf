use guard_patrol::search::{lower_bound, sorted_contains, upper_bound};

#[test]
fn lower_bound_basic() {
    let xs: Vec<usize> = vec![2, 7, 7, 7, 10, 12];
    assert_eq!(lower_bound(&xs, 3), Some(2));
    assert_eq!(lower_bound(&xs, 7), Some(2));
    assert_eq!(lower_bound(&xs, 15), Some(12));
    assert_eq!(lower_bound(&xs, 1), None);
    assert_eq!(lower_bound(&xs, 2), None);
}

#[test]
fn upper_bound_basic() {
    let xs: Vec<usize> = vec![2, 7, 7, 7, 10, 12];
    assert_eq!(upper_bound(&xs, 3), Some(7));
    assert_eq!(upper_bound(&xs, 7), Some(10));
    assert_eq!(upper_bound(&xs, 15), None);
    assert_eq!(upper_bound(&xs, 1), Some(2));
    assert_eq!(upper_bound(&xs, 12), None);
}

#[test]
fn bounds_on_empty_array() {
    let xs: Vec<usize> = Vec::new();
    assert_eq!(lower_bound(&xs, 5), None);
    assert_eq!(upper_bound(&xs, 5), None);
}

#[test]
fn sorted_contains_basic() {
    let xs: Vec<usize> = vec![2, 7, 7, 7, 10, 12];
    assert!(sorted_contains(&xs, 7));
    assert!(sorted_contains(&xs, 2));
    assert!(sorted_contains(&xs, 12));
    assert!(!sorted_contains(&xs, 3));
    assert!(!sorted_contains(&xs, 0));
    assert!(!sorted_contains(&xs, 15));
}
