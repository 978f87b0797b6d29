use gossip::quorum::has_quorum;

#[test]
fn quorum_is_a_strict_majority_of_an_odd_population() {
    assert!(!has_quorum(0, 3));
    assert!(!has_quorum(1, 3));
    assert!(has_quorum(2, 3));
    assert!(has_quorum(3, 3));
}

#[test]
fn quorum_is_a_strict_majority_of_an_even_population() {
    assert!(!has_quorum(1, 4));
    assert!(!has_quorum(2, 4));
    assert!(has_quorum(3, 4));
    assert!(has_quorum(4, 4));
}

#[test]
fn quorum_in_a_population_of_one() {
    assert!(!has_quorum(0, 1));
    assert!(has_quorum(1, 1));
}

#[test]
fn quorum_agrees_with_twice_the_count() {
    for n in 1usize..60 {
        for k in 0usize..(n + 3) {
            assert_eq!(has_quorum(k, n), 2 * k > n, "k = {}, n = {}", k, n);
        }
    }
}

#[test]
fn quorum_of_counts_too_large_to_double() {
    let max = usize::MAX;
    assert!(has_quorum(max, max));
    assert!(has_quorum(max / 2 + 1, max));
    assert!(!has_quorum(max / 2, max));
    assert!(has_quorum(max / 2 + 1, max - 1));
    assert!(!has_quorum(max / 2, max - 1));
    assert!(has_quorum(max, 1));
}
