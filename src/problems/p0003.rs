//! The product of the coefficients `a` and `b` whose quadratic
//! `n^2 + a*n + b` gives the longest run of primes from `n = 0`.
use vstd::prelude::*;
use std::collections::HashSet;

verus! {

broadcast use vstd::std_specs::hash::group_hash_axioms;

/// The bound on the coefficients searched: `a` lies strictly inside it,
/// `b` inside or on it.
pub const COEF_MAX: i64 = 1000;

/// The length at which a run of primes stops being followed.
pub const RUN_LIMIT: u64 = 0x8000_0000;

/// The bound on the magnitude of `a` under which a quadratic is evaluated
/// without overflow.
pub const A_BOUND: i64 = 0x4000_0000;

/// The bound on the magnitude of `b` under which a quadratic is evaluated
/// without overflow.
pub const B_BOUND: i64 = 0x2000_0000_0000_0000;

/// Whether `n` has no divisor strictly between 1 and itself. Negative
/// numbers fail the test; 0 and 1 pass it.
pub open spec fn is_prime_spec(n: int) -> bool {
    n >= 0 && forall|d: int| 2 <= d < n ==> #[trigger] (n % d) != 0
}

/// Whether `i` is a candidate divisor of `n` that the search tries: at
/// least 2 and at most the square root of `n` rounded up, and `d` is `i` or
/// its cofactor.
pub open spec fn found(n: u64, i: u64, d: u64) -> bool {
    &&& 2 <= i
    &&& (i - 1) * (i - 1) < n
    &&& n % i == 0
    &&& (d == i || d == n / i)
}

/// The value of `n^2 + a*n + b`.
pub open spec fn quadratic(a: int, b: int, n: int) -> int {
    n * n + a * n + b
}

/// The first `m` from `n` on at which the quadratic is not prime, or
/// `RUN_LIMIT` if there is none below it.
pub open spec fn run_from(a: int, b: int, n: nat) -> nat
    decreases RUN_LIMIT - n,
{
    if n >= RUN_LIMIT || !is_prime_spec(quadratic(a, b, n as int)) {
        n
    } else {
        run_from(a, b, n + 1)
    }
}

/// The number of consecutive primes that the quadratic gives from `n = 0`,
/// followed up to `RUN_LIMIT`.
pub open spec fn consecutive_primes(a: int, b: int) -> nat {
    run_from(a, b, 0)
}

/// The factors of `n`: 1, `n`, and each divisor `i` from 2 up to the square
/// root of `n` rounded up, with its cofactor `n / i`.
fn factors(n: u64) -> (r: HashSet<u64>)
    ensures
        r@.finite(),
        forall|d: u64|
            #![trigger r@.contains(d)]
            r@.contains(d) <==> (d == 1 || d == n || exists|i: u64| #[trigger] found(n, i, d)),
{
    let mut factors: HashSet<u64> = HashSet::new();
    factors.insert(1);
    factors.insert(n);
    let mut i: u64 = 2;
    while ((i - 1) as u128) * ((i - 1) as u128) < n as u128
        invariant
            2 <= i,
            i <= n + 1 || i == 2,
            i - 1 <= 0x1_0000_0000,
            (i - 1) * (i - 1) <= 0x1_0000_0000_0000_0000,
            factors@.finite(),
            forall|d: u64|
                #![trigger factors@.contains(d)]
                factors@.contains(d) <==> (d == 1 || d == n || exists|j: u64|
                    #[trigger] found(n, j, d) && j < i),
        decreases n + 1 - i,
    {
        proof {
            assert((i - 1) * (i - 1) < n);
            assert(i - 1 < 0x1_0000_0000) by (nonlinear_arith)
                requires
                    (i - 1) * (i - 1) < n,
                    n < 0x1_0000_0000_0000_0000,
            ;
        }
        if n % i == 0 {
            factors.insert(i);
            factors.insert(n / i);
        }
        proof {
            assert forall|d: u64|
                #![trigger factors@.contains(d)]
                factors@.contains(d) <==> (d == 1 || d == n || exists|j: u64|
                    #[trigger] found(n, j, d) && j < i + 1) by {
                if factors@.contains(d) && d != 1 && d != n {
                    if n % i == 0 && (d == i || d == n / i) {
                        assert(found(n, i, d));
                    }
                }
                if exists|j: u64| #[trigger] found(n, j, d) && j < i + 1 {
                    let j = choose|j: u64| #[trigger] found(n, j, d) && j < i + 1;
                    if j < i {
                        assert(found(n, j, d) && j < i);
                    }
                }
            }
            assert(i <= n) by (nonlinear_arith)
                requires
                    (i - 1) * (i - 1) < n,
                    i >= 2,
            ;
            assert(i * i <= 0x1_0000_0000_0000_0000) by (nonlinear_arith)
                requires
                    i - 1 < 0x1_0000_0000,
                    i >= 2,
            ;
        }
        i = i + 1;
    }
    proof {
        assert forall|d: u64|
            #![trigger factors@.contains(d)]
            factors@.contains(d) <==> (d == 1 || d == n || exists|j: u64| #[trigger] found(n, j, d)) by {
            if exists|j: u64| #[trigger] found(n, j, d) {
                let j = choose|j: u64| #[trigger] found(n, j, d);
                assert(j < i) by (nonlinear_arith)
                    requires
                        (j - 1) * (j - 1) < n,
                        (i - 1) * (i - 1) >= n,
                        j >= 2,
                        i >= 2,
                ;
                assert(found(n, j, d) && j < i);
            }
        }
    }
    factors
}

/// Whether `n` is prime, counting 0 and 1 as prime: `n` is not negative and
/// has no more than two factors.
pub fn is_prime(n: i64) -> (r: bool)
    ensures
        r == is_prime_spec(n as int),
{
    if n < 0 {
        return false;
    }
    let f = factors(n as u64);
    let r = f.len() <= 2;
    proof {
        lemma_factor_count(n as u64, f@);
    }
    r
}

/// Two factors at most exactly when no number strictly between 1 and `n`
/// divides it.
proof fn lemma_factor_count(n: u64, f: Set<u64>)
    requires
        f.finite(),
        forall|d: u64|
            #![trigger f.contains(d)]
            f.contains(d) <==> (d == 1 || d == n || exists|i: u64| #[trigger] found(n, i, d)),
    ensures
        f.len() <= 2 <==> is_prime_spec(n as int),
{
    if is_prime_spec(n as int) {
        assert(f.subset_of(set![1u64, n])) by {
            assert forall|d: u64| f.contains(d) implies set![1u64, n].contains(d) by {
                if d != 1 && d != n {
                    let i = choose|i: u64| #[trigger] found(n, i, d);
                    assert(i <= n) by (nonlinear_arith)
                        requires
                            2 <= i,
                            (i - 1) * (i - 1) < n,
                    ;
                    if i < n {
                        assert((n as int) % (i as int) != 0);
                    } else {
                        assert(n / i == 1) by (nonlinear_arith)
                            requires
                                i == n,
                                n >= 2,
                        ;
                    }
                }
            }
        }
        vstd::set_lib::lemma_len_subset(f, set![1u64, n]);
        assert(set![1u64, n].len() <= 2) by {
            assert(set![1u64, n] == Set::<u64>::empty().insert(1u64).insert(n));
        }
    } else {
        let d = choose|d: int| 2 <= d < n && #[trigger] ((n as int) % d) == 0;
        let q = (n as int) / d;
        vstd::arithmetic::div_mod::lemma_fundamental_div_mod(n as int, d);
        assert(n == d * q);
        assert(q >= 2 && q < n) by (nonlinear_arith)
            requires
                n == d * q,
                2 <= d < n,
        ;
        let p: int = if d <= q {
            d
        } else {
            q
        };
        assert(p * p <= n) by (nonlinear_arith)
            requires
                n == d * q,
                p == d || p == q,
                p <= d,
                p <= q,
                p >= 2,
        ;
        assert((n as int) % p == 0) by (nonlinear_arith)
            requires
                n == d * q,
                p == d || p == q,
                d >= 2,
                q >= 2,
        ;
        let pu = p as u64;
        assert((pu - 1) * (pu - 1) < n) by (nonlinear_arith)
            requires
                p * p <= n,
                p >= 2,
                pu == p,
        ;
        assert(found(n, pu, pu));
        assert(f.contains(pu));
        assert(f.contains(1u64));
        assert(f.contains(n));
        let three = set![1u64, n, pu];
        assert(three.subset_of(f));
        assert(three.len() == 3) by {
            assert(three == Set::<u64>::empty().insert(1u64).insert(n).insert(pu));
        }
        vstd::set_lib::lemma_len_subset(three, f);
    }
}

/// Whether the search tries `(a2, b2)` before `(a, b)`: by `a`, then by `b`.
pub open spec fn tried_before(a2: int, b2: int, a: int, b: int) -> bool {
    a2 < a || (a2 == a && b2 < b)
}

/// The coefficients that the search tries: `-COEF_MAX < a < COEF_MAX` and
/// `-COEF_MAX <= b <= COEF_MAX`.
pub open spec fn in_search(a: int, b: int) -> bool {
    -COEF_MAX < a < COEF_MAX && -COEF_MAX <= b <= COEF_MAX
}

/// The number of consecutive primes that `n^2 + a*n + b` gives for
/// `n = 0, 1, ...`, followed up to `RUN_LIMIT`.
pub fn max_consecutive_primes_for_quadratic(a: i64, b: i64) -> (r: u64)
    requires
        -A_BOUND < a < A_BOUND,
        -B_BOUND < b < B_BOUND,
    ensures
        r == consecutive_primes(a as int, b as int),
{
    let mut n: u64 = 0;
    loop
        invariant
            n <= RUN_LIMIT,
            -A_BOUND < a < A_BOUND,
            -B_BOUND < b < B_BOUND,
            run_from(a as int, b as int, n as nat) == consecutive_primes(a as int, b as int),
        ensures
            n == consecutive_primes(a as int, b as int),
        decreases RUN_LIMIT - n,
    {
        if n >= RUN_LIMIT {
            break;
        }
        let m = n as i64;
        proof {
            assert(m * m < 0x4000_0000_0000_0000) by (nonlinear_arith)
                requires
                    0 <= m < 0x8000_0000,
            ;
            assert(-0x2000_0000_0000_0000 < a * m < 0x2000_0000_0000_0000) by (nonlinear_arith)
                requires
                    0 <= m < 0x8000_0000,
                    -0x4000_0000 < a < 0x4000_0000,
            ;
        }
        let value = m * m + a * m + b;
        if !is_prime(value) {
            break;
        }
        n = n + 1;
    }
    n
}

/// The product `a * b` of the coefficients in the search range whose
/// quadratic gives the longest run of primes, the first such pair in search
/// order, or `None` where no quadratic gives a prime at all.
pub fn solve() -> (r: Option<i64>)
    ensures
        r is None ==> forall|a: int, b: int|
            in_search(a, b) ==> #[trigger] consecutive_primes(a, b) == 0,
        r matches Some(p) ==> exists|a: int, b: int|
            {
                &&& in_search(a, b)
                &&& p == a * b
                &&& #[trigger] consecutive_primes(a, b) > 0
                &&& forall|a2: int, b2: int|
                    in_search(a2, b2) ==> #[trigger] consecutive_primes(a2, b2)
                        <= consecutive_primes(a, b)
                &&& forall|a2: int, b2: int|
                    in_search(a2, b2) && tried_before(a2, b2, a, b) ==> #[trigger] consecutive_primes(
                        a2,
                        b2,
                    ) < consecutive_primes(a, b)
            },
{
    let mut max: u64 = 0;
    let mut max_pair: Option<(i64, i64)> = None;
    let mut a: i64 = -COEF_MAX + 1;
    while a < COEF_MAX
        invariant
            -COEF_MAX + 1 <= a <= COEF_MAX,
            max_pair is None <==> max == 0,
            max_pair matches Some(pair) ==> in_search(pair.0 as int, pair.1 as int)
                && consecutive_primes(pair.0 as int, pair.1 as int) == max
                && tried_before(pair.0 as int, pair.1 as int, a as int, -COEF_MAX as int)
                && forall|a2: int, b2: int|
                    in_search(a2, b2) && tried_before(a2, b2, pair.0 as int, pair.1 as int)
                        ==> #[trigger] consecutive_primes(a2, b2) < max,
            forall|a2: int, b2: int|
                in_search(a2, b2) && a2 < a ==> #[trigger] consecutive_primes(a2, b2) <= max,
        decreases COEF_MAX - a,
    {
        let mut b: i64 = -COEF_MAX;
        while b < COEF_MAX + 1
            invariant
                -COEF_MAX + 1 <= a < COEF_MAX,
                -COEF_MAX <= b <= COEF_MAX + 1,
                max_pair is None <==> max == 0,
                max_pair matches Some(pair) ==> in_search(pair.0 as int, pair.1 as int)
                    && consecutive_primes(pair.0 as int, pair.1 as int) == max
                    && tried_before(pair.0 as int, pair.1 as int, a as int, b as int)
                    && forall|a2: int, b2: int|
                        in_search(a2, b2) && tried_before(a2, b2, pair.0 as int, pair.1 as int)
                            ==> #[trigger] consecutive_primes(a2, b2) < max,
                forall|a2: int, b2: int|
                    in_search(a2, b2) && (a2 < a || (a2 == a && b2 < b)) ==> #[trigger] consecutive_primes(
                        a2,
                        b2,
                    ) <= max,
            decreases COEF_MAX + 1 - b,
        {
            let result = max_consecutive_primes_for_quadratic(a, b);
            if result > max {
                max = result;
                max_pair = Some((a, b));
            }
            b = b + 1;
        }
        a = a + 1;
    }
    match max_pair {
        Some(pair) => {
            proof {
                assert(-1000 < pair.0 < 1000 && -1000 <= pair.1 <= 1000);
                assert(-1_000_000 <= pair.0 * pair.1 <= 1_000_000) by (nonlinear_arith)
                    requires
                        -1000 < pair.0 < 1000,
                        -1000 <= pair.1 <= 1000,
                ;
                assert(in_search(pair.0 as int, pair.1 as int));
            }
            Some(pair.0 * pair.1)
        },
        None => None,
    }
}

} // verus!
