use npuzzle::utils::is_in_bounds;

#[test]
fn bounds() {
    assert!(is_in_bounds(3, 3, (0, 0), (5, 5)));
    assert!(is_in_bounds(3.0, 3.0, (0.0, 0.1), (5.3, 5.2)));
    assert!(!is_in_bounds(-3.0, 3.0, (0.0, 0.1), (5.3, 5.2)));
}

#[test]
fn bounds_are_inclusive() {
    assert!(is_in_bounds(0, 5, (0, 0), (5, 5)));
    assert!(is_in_bounds(5, 0, (0, 0), (5, 5)));
    assert!(!is_in_bounds(6, 0, (0, 0), (5, 5)));
    assert!(!is_in_bounds(0, 6, (0, 0), (5, 5)));
    assert!(!is_in_bounds(0, -1, (0, 0), (5, 5)));
    assert!(!is_in_bounds(0, 0, (1, 0), (0, 5)));
}
