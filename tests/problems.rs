use euler::problems::{p0001, p0002, p0003, p0031};

#[test]
fn is_prime_works() {
    const N: usize = 20;
    const EXPECTED: [bool; N] = [
        true, true, true, false, true, false, true, false, false, false, true, false, true,
        false, false, false, true, false, true, false,
    ];

    for i in 0..N {
        let n = (i + 1) as i64;
        assert_eq!(p0003::is_prime(n), EXPECTED[i], "Failed at n = {}", n);
    }
}

#[test]
fn max_consecutive_primes_for_quadratic_works() {
    const PAIRS: [(i64, i64); 2] = [(1, 41), (-79, 1601)];
    const EXPECTED: [u64; 2] = [40, 80];

    for (i, pair) in PAIRS.iter().enumerate() {
        assert_eq!(
            p0003::max_consecutive_primes_for_quadratic(pair.0, pair.1),
            EXPECTED[i],
            "Failed at a = {}, b = {}",
            pair.0,
            pair.1
        );
    }
}

#[test]
fn is_prime_edges() {
    assert!(p0003::is_prime(0));
    assert!(!p0003::is_prime(-7));
    assert!(p0003::is_prime(7919));
    assert!(!p0003::is_prime(7919 * 7907));
    assert!(!p0003::is_prime(49));
}

#[test]
fn quadratic_with_composite_start() {
    assert_eq!(p0003::max_consecutive_primes_for_quadratic(0, 4), 0);
    assert_eq!(p0003::max_consecutive_primes_for_quadratic(0, -1), 0);
}

#[test]
fn multiples_of_three_or_five() {
    assert_eq!(p0001::solve(), 233168);
}

#[test]
fn even_fibonacci_sum() {
    assert_eq!(p0002::solve(), 4613732);
}

#[test]
fn pence_of_packed_counts() {
    assert_eq!(p0031::pence(0), 0);
    // two 1p, one 5p, one £2
    let combo: u64 = 2 | (1 << 16) | (1 << 56);
    assert_eq!(p0031::pence(combo), 207);
}

#[test]
fn increment_coin_adds_one_coin() {
    let combo = p0031::increment_coin(0, 3);
    assert_eq!(combo, 1 << 24);
    assert_eq!(p0031::pence(combo), 10);
    let again = p0031::increment_coin(combo, 3);
    assert_eq!(p0031::pence(again), 20);
}

#[test]
fn coin_combinations_for_two_pounds() {
    assert_eq!(p0031::solve(), 73682);
}
