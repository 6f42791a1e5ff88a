use pi_digits::primes::{is_prime, next_prime};

/// Reference trial division: true iff `n` has a divisor in `[2, n)`.
fn has_factor(n: i32) -> bool {
    (2..n).any(|d| n % d == 0)
}

#[test]
fn is_prime_agrees_with_trial_division_below_10000() {
    assert!(is_prime(2));
    for n in (4..10_000).step_by(2) {
        assert!(!is_prime(n));
    }
    for n in (3..10_000).step_by(2) {
        assert_eq!(is_prime(n), !has_factor(n));
    }
}

#[test]
fn is_prime_on_known_lists() {
    for &p in &[2i32, 3, 5, 7, 11, 13, 17, 19, 23, 97, 101, 997, 7919, 9973] {
        assert!(is_prime(p));
    }
    for &c in &[9i32, 15, 21, 25, 33, 49, 91, 121, 9999, 9991] {
        assert!(!is_prime(c));
    }
}

#[test]
fn next_prime_returns_least_prime_above() {
    let samples = [
        (2i32, 3i32),
        (3, 5),
        (5, 7),
        (7, 11),
        (13, 17),
        (14, 17),
        (23, 29),
        (30, 31),
        (89, 97),
        (96, 97),
        (100, 101),
        (1000, 1009),
        (7900, 7901),
        (9972, 9973),
    ];
    for &(n, expect) in &samples {
        assert_eq!(next_prime(n), expect);
    }
}

#[test]
fn next_prime_chain_from_two() {
    let mut a = 2i32;
    let expected = [3i32, 5, 7, 11, 13, 17, 19, 23, 29, 31, 37, 41, 43, 47, 53];
    for &p in &expected {
        a = next_prime(a);
        assert_eq!(a, p);
    }
}
