use shredstream_proxy::bits::{is_power_of_two, next_power_of_two};

#[test]
fn powers_of_two_are_recognised() {
    let powers: Vec<usize> = (0..usize::BITS).map(|e| 1usize << e).collect();
    for p in &powers {
        assert!(is_power_of_two(*p));
    }
    for n in [0, 3, 5, 6, 7, 1000, usize::MAX] {
        assert!(!is_power_of_two(n));
    }
}

#[test]
fn numbers_are_rounded_up_to_powers_of_two() {
    for (n, p) in [(0, 1), (1, 1), (2, 2), (3, 4), (1000, 1024), (1025, 2048)] {
        assert_eq!(next_power_of_two(n), p);
    }
    let top = 1usize << (usize::BITS - 1);
    assert_eq!(next_power_of_two(top), top);
    assert_eq!(next_power_of_two(top - 1), top);
}
