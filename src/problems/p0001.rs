//! The sum of the numbers below one thousand that are multiples of 3 or 5.
use vstd::prelude::*;
use std::collections::HashSet;

verus! {

broadcast use vstd::std_specs::hash::group_hash_axioms;

/// The bound below which multiples are summed.
pub const MAX: u64 = 1000;

/// The sum of the numbers below `n` that are multiples of 3 or of 5.
pub open spec fn multiples_sum(n: nat) -> nat
    decreases n,
{
    if n == 0 {
        0
    } else {
        let x = (n - 1) as nat;
        multiples_sum(x) + if x % 3 == 0 || x % 5 == 0 {
            x
        } else {
            0
        }
    }
}

/// Between two consecutive multiples of `of` there is no other.
proof fn lemma_next_multiple(of: int, t: int, x: int)
    requires
        of > 0,
        t >= 0,
        x >= 0,
        t % of == 0,
        x % of == 0,
        t <= x < t + of,
    ensures
        x == t,
{
    vstd::arithmetic::div_mod::lemma_fundamental_div_mod(t, of);
    vstd::arithmetic::div_mod::lemma_fundamental_div_mod(x, of);
    let qt = t / of;
    let qx = x / of;
    assert(qt == qx) by (nonlinear_arith)
        requires
            of > 0,
            t == of * qt,
            x == of * qx,
            t <= x < t + of,
    {
        if qx > qt {
            assert(of * qx >= of * (qt + 1));
        } else if qx < qt {
            assert(of * qt >= of * (qx + 1));
        }
    }
}

/// The multiples of `of` that are greater than zero and less than `n`.
fn multiples_under(of: u64, n: u64) -> (r: HashSet<u64>)
    requires
        of > 0,
        n + of <= u64::MAX,
    ensures
        r@.finite(),
        forall|x: u64| #[trigger] r@.contains(x) <==> 0 < x < n && x % of == 0,
{
    let mut set: HashSet<u64> = HashSet::new();
    let mut temp: u64 = of;
    proof {
        vstd::arithmetic::div_mod::lemma_mod_self_0(of as int);
        vstd::arithmetic::div_mod::lemma_small_mod(0, of as nat);
        assert forall|x: u64| #[trigger] set@.contains(x) <==> 0 < x < temp && x % of == 0 by {
            if 0 < x < of {
                vstd::arithmetic::div_mod::lemma_small_mod(x as nat, of as nat);
            }
        }
    }
    while temp < n
        invariant
            of > 0,
            n + of <= u64::MAX,
            of <= temp,
            temp % of == 0,
            (temp - of) % (of as int) == 0,
            temp == of || temp < n + of,
            set@.finite(),
            forall|x: u64| #[trigger] set@.contains(x) <==> 0 < x < temp && x % of == 0,
        decreases n + of - temp,
    {
        set.insert(temp);
        proof {
            vstd::arithmetic::div_mod::lemma_mod_adds(temp as int, of as int, of as int);
            vstd::arithmetic::div_mod::lemma_mod_self_0(of as int);
            assert forall|x: u64| #[trigger] set@.contains(x) <==> 0 < x < temp + of && x % of
                == 0 by {
                if temp <= x < temp + of && x % of == 0 {
                    lemma_next_multiple(of as int, temp as int, x as int);
                }
            }
        }
        temp = temp + of;
    }
    proof {
        assert forall|x: u64| #[trigger] set@.contains(x) <==> 0 < x < n && x % of == 0 by {
            if n <= x < temp && x % of == 0 {
                if temp == of {
                    vstd::arithmetic::div_mod::lemma_small_mod(x as nat, of as nat);
                } else {
                    lemma_next_multiple(of as int, (temp - of) as int, x as int);
                    vstd::arithmetic::div_mod::lemma_mod_adds((temp - of) as int, of as int, of as int);
                    vstd::arithmetic::div_mod::lemma_mod_self_0(of as int);
                }
            }
        }
    }
    set
}

/// The sum of the numbers below one thousand that are multiples of 3 or 5:
/// the sum of the union of the two sets of multiples.
pub fn solve() -> (r: u64)
    ensures
        r == multiples_sum(MAX as nat),
{
    let threes = multiples_under(3, MAX);
    let fives = multiples_under(5, MAX);
    let mut sum: u64 = 0;
    let mut x: u64 = 0;
    while x < MAX
        invariant
            x <= MAX,
            forall|y: u64| #[trigger] threes@.contains(y) <==> 0 < y < MAX && y % 3 == 0,
            forall|y: u64| #[trigger] fives@.contains(y) <==> 0 < y < MAX && y % 5 == 0,
            sum == multiples_sum(x as nat),
            sum <= x * x,
        decreases MAX - x,
    {
        proof {
            assert(x * x <= 1_000_000) by (nonlinear_arith)
                requires
                    x < 1000,
            ;
        }
        if threes.contains(&x) || fives.contains(&x) {
            sum = sum + x;
        }
        proof {
            assert(x * x + x <= (x + 1) * (x + 1)) by (nonlinear_arith);
        }
        x = x + 1;
    }
    sum
}

} // verus!
