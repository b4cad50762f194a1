//! The sum of the even Fibonacci numbers below four million.
use vstd::prelude::*;

verus! {

/// The bound below which Fibonacci numbers are summed.
pub const MAX: u64 = 4_000_000;

/// The sum of the even terms, below `max`, of the Fibonacci-like sequence
/// that continues `prev, cur` by adding the last two terms.
pub open spec fn even_terms_sum(prev: int, cur: int, max: int) -> int
    decreases (if cur >= max {
        0
    } else {
        2 * max - prev - cur
    }),
{
    if prev < 0 || cur <= 0 || prev > cur || cur >= max {
        0
    } else {
        (if cur % 2 == 0 {
            cur
        } else {
            0
        }) + even_terms_sum(cur, prev + cur, max)
    }
}

/// The sum of the even Fibonacci numbers `1, 2, 3, 5, 8, ...` below four
/// million.
pub fn solve() -> (r: u64)
    ensures
        r == even_terms_sum(0, 1, MAX as int),
{
    let mut back_two: u64 = 0;
    let mut back_one: u64 = 1;
    let mut sum: u64 = 0;
    while back_one < MAX
        invariant
            back_two <= back_one,
            back_one >= 1,
            back_one <= 2 * MAX,
            sum <= back_one + back_two,
            sum + even_terms_sum(back_two as int, back_one as int, MAX as int) == even_terms_sum(
                0,
                1,
                MAX as int,
            ),
        decreases (if back_one >= MAX {
            0
        } else {
            2 * MAX - back_two - back_one
        }),
    {
        if back_one % 2 == 0 {
            sum = sum + back_one;
        }
        let next = back_one + back_two;
        back_two = back_one;
        back_one = next;
    }
    proof {
        assert(even_terms_sum(back_two as int, back_one as int, MAX as int) == 0);
    }
    sum
}

} // verus!
