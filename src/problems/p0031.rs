//! The number of ways to make two pounds out of British coins.
//!
//! A combination of coins is packed into a `u64`: byte `k` (from the least
//! significant) counts the coins of the `k`-th denomination.
use vstd::prelude::*;
use std::collections::HashSet;

verus! {

broadcast use vstd::std_specs::hash::group_hash_axioms;

/// The number of denominations.
pub const N_COINS: usize = 8;

/// The amount to make, in pence.
pub const TARGET: usize = 200;

/// The value in pence of the `k`-th denomination: 1, 2, 5, 10, 20, 50,
/// 100 and 200.
pub open spec fn coin_spec(k: nat) -> nat {
    if k == 0 {
        1
    } else if k == 1 {
        2
    } else if k == 2 {
        5
    } else if k == 3 {
        10
    } else if k == 4 {
        20
    } else if k == 5 {
        50
    } else if k == 6 {
        100
    } else {
        200
    }
}

/// The number of coins of the `k`-th denomination in `combo`.
pub open spec fn count(combo: u64, k: nat) -> nat {
    ((combo >> (8 * k) as u64) & 0xFF) as nat
}

/// The value in pence of the coins of the first `n` denominations.
pub open spec fn pence_upto(combo: u64, n: nat) -> nat
    decreases n,
{
    if n == 0 {
        0
    } else {
        pence_upto(combo, (n - 1) as nat) + count(combo, (n - 1) as nat) * coin_spec(
            (n - 1) as nat,
        )
    }
}

/// The value in pence of a combination.
pub open spec fn pence_spec(combo: u64) -> nat {
    pence_upto(combo, 8)
}

/// `combo` with one more coin of the `k`-th denomination, carried in its byte.
pub open spec fn next(combo: u64, k: nat) -> u64 {
    let s = (8 * k) as u64;
    (combo & !(0xFFu64 << s)) | ((((combo >> s) & 0xFF) + 1) as u64) << s
}

/// Every combination in `seen` that is worth less than two pounds and is not
/// in `open` has each of its one-coin extensions in `seen` too.
pub open spec fn closed(seen: Set<u64>, open: Set<u64>) -> bool {
    forall|c: u64, k: nat|
        #![trigger seen.contains(c), next(c, k)]
        seen.contains(c) && !open.contains(c) && pence_spec(c) < 200 && k < 8 ==> seen.contains(
            next(c, k),
        )
}

/// Every packed combination worth exactly two pounds.
pub open spec fn two_pound_combos() -> Set<u64> {
    Set::new(|c: u64| pence_spec(c) == 200)
}

/// The combinations in `s` that make exactly two pounds.
pub open spec fn hits(s: Set<u64>) -> nat {
    s.filter(|c: u64| pence_spec(c) == 200).len()
}

/// The value in pence of the `idx`-th denomination.
fn coin(idx: usize) -> (r: usize)
    requires
        idx < N_COINS,
    ensures
        r == coin_spec(idx as nat),
{
    if idx == 0 {
        1
    } else if idx == 1 {
        2
    } else if idx == 2 {
        5
    } else if idx == 3 {
        10
    } else if idx == 4 {
        20
    } else if idx == 5 {
        50
    } else if idx == 6 {
        100
    } else {
        200
    }
}

proof fn lemma_shift_step(x: u64, s: u64)
    requires
        s <= 56,
    ensures
        (x >> s) >> 8u64 == x >> ((s + 8) as u64),
{
    assert((x >> s) >> 8u64 == x >> ((s + 8) as u64)) by (bit_vector)
        requires
            s <= 56,
    ;
}

proof fn lemma_increment_bytes(c: u64, n: u64, s: u64, t: u64)
    requires
        s <= 56,
        t <= 56,
        s % 8 == 0,
        t % 8 == 0,
        n == ((c >> s) & 0xFF) + 1,
        n < 256,
    ensures
        ((((c & !(0xFFu64 << s)) | (n << s)) >> s) & 0xFF) == n,
        s != t ==> ((((c & !(0xFFu64 << s)) | (n << s)) >> t) & 0xFF) == ((c >> t) & 0xFF),
{
    assert(((((c & !(0xFFu64 << s)) | (n << s)) >> s) & 0xFF) == n) by (bit_vector)
        requires
            s <= 56,
            n < 256,
    ;
    assert(s != t ==> ((((c & !(0xFFu64 << s)) | (n << s)) >> t) & 0xFF) == ((c >> t) & 0xFF))
        by (bit_vector)
        requires
            s <= 56,
            t <= 56,
            s % 8 == 0,
            t % 8 == 0,
            n < 256,
    ;
}

/// A combination is determined by its eight counts.
proof fn lemma_counts_determine(x: u64, y: u64)
    requires
        forall|k: nat| k < 8 ==> count(x, k) == count(y, k),
    ensures
        x == y,
{
    assert(count(x, 0) == count(y, 0));
    assert(count(x, 1) == count(y, 1));
    assert(count(x, 2) == count(y, 2));
    assert(count(x, 3) == count(y, 3));
    assert(count(x, 4) == count(y, 4));
    assert(count(x, 5) == count(y, 5));
    assert(count(x, 6) == count(y, 6));
    assert(count(x, 7) == count(y, 7));
    assert(x == y) by (bit_vector)
        requires
            ((x >> 0u64) & 0xFF) == ((y >> 0u64) & 0xFF),
            ((x >> 8u64) & 0xFF) == ((y >> 8u64) & 0xFF),
            ((x >> 16u64) & 0xFF) == ((y >> 16u64) & 0xFF),
            ((x >> 24u64) & 0xFF) == ((y >> 24u64) & 0xFF),
            ((x >> 32u64) & 0xFF) == ((y >> 32u64) & 0xFF),
            ((x >> 40u64) & 0xFF) == ((y >> 40u64) & 0xFF),
            ((x >> 48u64) & 0xFF) == ((y >> 48u64) & 0xFF),
            ((x >> 56u64) & 0xFF) == ((y >> 56u64) & 0xFF),
    ;
}

proof fn lemma_remove_coin_bytes(c: u64, s: u64, t: u64)
    requires
        s <= 56,
        t <= 56,
        s % 8 == 0,
        t % 8 == 0,
        ((c >> s) & 0xFF) > 0,
    ensures
        c >= (1u64 << s),
        (((c - (1u64 << s)) as u64 >> s) & 0xFF) == ((c >> s) & 0xFF) - 1,
        s != t ==> (((c - (1u64 << s)) as u64 >> t) & 0xFF) == ((c >> t) & 0xFF),
{
    assert(c >= (1u64 << s)) by (bit_vector)
        requires
            s <= 56,
            ((c >> s) & 0xFF) > 0,
    ;
    assert((((c - (1u64 << s)) as u64 >> s) & 0xFF) == ((c >> s) & 0xFF) - 1) by (bit_vector)
        requires
            s <= 56,
            ((c >> s) & 0xFF) > 0,
    ;
    assert(s != t ==> (((c - (1u64 << s)) as u64 >> t) & 0xFF) == ((c >> t) & 0xFF))
        by (bit_vector)
        requires
            s <= 56,
            t <= 56,
            s % 8 == 0,
            t % 8 == 0,
            ((c >> s) & 0xFF) > 0,
    ;
}

/// The one-coin extension changes only the count of its denomination.
proof fn lemma_next_counts(c: u64, idx: nat)
    requires
        idx < 8,
        count(c, idx) < 255,
    ensures
        count(next(c, idx), idx) == count(c, idx) + 1,
        forall|k: nat| k < 8 && k != idx ==> count(next(c, idx), k) == count(c, k),
{
    let s = (8 * idx) as u64;
    let n = (((c >> s) & 0xFF) + 1) as u64;
    assert forall|k: nat| k < 8 implies (k == idx ==> count(next(c, idx), k) == count(c, k) + 1)
        && (k != idx ==> count(next(c, idx), k) == count(c, k)) by {
        lemma_increment_bytes(c, n, s, (8 * k) as u64);
    }
}

/// In a closed set that holds the empty combination, every combination worth
/// at most two pounds is found.
proof fn lemma_closed_complete(seen: Set<u64>, c: u64)
    requires
        seen.contains(0),
        closed(seen, Set::empty()),
        pence_spec(c) <= 200,
    ensures
        seen.contains(c),
    decreases pence_spec(c),
{
    if c != 0 {
        if forall|k: nat| k < 8 ==> count(c, k) == 0 {
            assert forall|k: nat| k < 8 implies count(c, k) == count(0, k) by {
                let s = (8 * k) as u64;
                assert((0u64 >> s) & 0xFF == 0) by (bit_vector);
            }
            lemma_counts_determine(c, 0);
        }
        let k = choose|k: nat| k < 8 && count(c, k) != 0;
        let s = (8 * k) as u64;
        lemma_remove_coin_bytes(c, s, s);
        assert(((c >> s) & 0xFF) <= 255) by (bit_vector);
        let p = (c - (1u64 << s)) as u64;
        assert forall|j: nat| j < 8 implies (j == k ==> count(p, j) + 1 == count(c, j)) && (j != k
            ==> count(p, j) == count(c, j)) by {
            lemma_remove_coin_bytes(c, s, (8 * j) as u64);
        }
        lemma_pence_increment(p, c, k, 8);
        lemma_closed_complete(seen, p);
        lemma_next_counts(p, k);
        assert forall|j: nat| j < 8 implies count(next(p, k), j) == count(c, j) by {}
        lemma_counts_determine(next(p, k), c);
        assert(seen.contains(next(p, k)));
    }
}

/// Adding one coin of denomination `idx` adds its value to the first `n`
/// denominations' value when `idx` is among them.
proof fn lemma_pence_increment(c: u64, r: u64, idx: nat, n: nat)
    requires
        idx < 8,
        n <= 8,
        count(r, idx) == count(c, idx) + 1,
        forall|k: nat| k < 8 && k != idx ==> count(r, k) == count(c, k),
    ensures
        pence_upto(r, n) == pence_upto(c, n) + (if idx < n {
            coin_spec(idx)
        } else {
            0
        }),
    decreases n,
{
    if n > 0 {
        let k = (n - 1) as nat;
        lemma_pence_increment(c, r, idx, k);
        if k == idx {
            assert(count(r, k) * coin_spec(k) == count(c, k) * coin_spec(k) + coin_spec(k))
                by (nonlinear_arith)
                requires
                    count(r, k) == count(c, k) + 1,
            ;
        } else {
            assert(count(r, k) == count(c, k));
        }
    }
}

/// Each denomination's coins are worth no more than the whole combination.
proof fn lemma_pence_bounds_count(c: u64, k: nat, n: nat)
    requires
        k < n <= 8,
    ensures
        count(c, k) * coin_spec(k) <= pence_upto(c, n),
    decreases n,
{
    if k < n - 1 {
        lemma_pence_bounds_count(c, k, (n - 1) as nat);
    }
}

/// `combo` with one more coin of the `coin_idx`-th denomination.
pub fn increment_coin(combo: u64, coin_idx: usize) -> (r: u64)
    requires
        coin_idx < N_COINS,
    ensures
        r == next(combo, coin_idx as nat),
        count(combo, coin_idx as nat) < 255 ==> {
            &&& count(r, coin_idx as nat) == count(combo, coin_idx as nat) + 1
            &&& forall|k: nat| k < 8 && k != coin_idx ==> count(r, k) == count(combo, k)
        },
{
    let shift: u64 = 8 * coin_idx as u64;
    let mut combo = combo;
    let ghost c0 = combo;
    let mut count: u64 = (combo >> shift) & 0xFF;
    assert(count <= 255) by (bit_vector)
        requires
            count == (combo >> shift) & 0xFF,
    ;
    count = count + 1;
    combo = combo & !(0xFFu64 << shift);
    combo = combo | (count << shift);
    proof {
        if self::count(c0, coin_idx as nat) < 255 {
            assert forall|k: nat| k < 8 implies (k == coin_idx ==> self::count(combo, k)
                == self::count(c0, k) + 1) && (k != coin_idx ==> self::count(combo, k)
                == self::count(c0, k)) by {
                lemma_increment_bytes(c0, count, shift, (8 * k) as u64);
            }
        }
    }
    combo
}

/// The value of a combination, in pence.
pub fn pence(combo: u64) -> (r: usize)
    ensures
        r == pence_spec(combo),
{
    let mut combo = combo;
    let ghost c0 = combo;
    let mut pence: usize = 0;
    let mut coin_idx: usize = 0;
    assert(c0 >> 0u64 == c0) by (bit_vector);
    while coin_idx < N_COINS
        invariant
            coin_idx <= N_COINS,
            combo == c0 >> (8 * coin_idx) as u64,
            pence == pence_upto(c0, coin_idx as nat),
            pence <= 51000 * coin_idx,
        decreases N_COINS - coin_idx,
    {
        let byte: u64 = combo & 0xFF;
        assert(byte <= 255) by (bit_vector)
            requires
                byte == combo & 0xFF,
        ;
        let n = byte as usize;
        let value = coin(coin_idx);
        proof {
            assert(n * value <= 51000) by (nonlinear_arith)
                requires
                    n <= 255,
                    value <= 200,
            ;
            lemma_shift_step(c0, (8 * coin_idx) as u64);
        }
        let worth = n * value;
        pence = pence + worth;
        combo = combo >> 8u64;
        coin_idx = coin_idx + 1;
    }
    pence
}

/// Visits every combination reachable from `combo` by adding coins while
/// the value stays below two pounds, skipping those already in `seen`, and
/// adds to `ways` one for each newly seen combination worth exactly two
/// pounds. `open` holds the combinations whose visits are under way.
fn solve_inner(combo: u64, seen: &mut HashSet<u64>, ways: &mut usize, open: Ghost<Set<u64>>)
    requires
        old(seen)@.finite(),
        *old(ways) <= hits(old(seen)@),
        open@ <= old(seen)@,
        closed(old(seen)@, open@),
    ensures
        final(seen)@.finite(),
        old(seen)@ <= final(seen)@,
        final(seen)@.contains(combo),
        closed(final(seen)@, open@),
        *final(ways) <= hits(final(seen)@),
        *final(ways) - *old(ways) == hits(final(seen)@) - hits(old(seen)@),
    decreases (if pence_spec(combo) > 200 {
        0
    } else {
        201 - pence_spec(combo)
    }),
{
    if seen.contains(&combo) {
        return;
    }
    let ghost before = seen@;
    seen.insert(combo);
    let pence = pence(combo);
    proof {
        let f = |c: u64| pence_spec(c) == 200;
        before.lemma_len_filter(f);
        seen@.lemma_len_filter(f);
        if pence == 200 {
            assert(seen@.filter(f) =~= before.filter(f).insert(combo));
            assert(!before.filter(f).contains(combo));
        } else {
            assert(seen@.filter(f) =~= before.filter(f));
        }
        assert(vstd::std_specs::hash::spec_hash_set_len(&*seen) == seen@.len());
    }
    if pence == TARGET {
        *ways = *ways + 1;
        return;
    }
    if pence > TARGET {
        return;
    }
    let ghost inner = open@.insert(combo);
    let mut idx: usize = 0;
    while idx < N_COINS
        invariant
            idx <= N_COINS,
            pence == pence_spec(combo),
            pence < 200,
            seen@.finite(),
            before <= seen@,
            seen@.contains(combo),
            inner == open@.insert(combo),
            inner <= seen@,
            closed(seen@, inner),
            forall|j: nat| j < idx ==> seen@.contains(#[trigger] next(combo, j)),
            *ways <= hits(seen@),
            *ways - *old(ways) == hits(seen@) - hits(before),
        decreases N_COINS - idx,
    {
        let child = increment_coin(combo, idx);
        proof {
            lemma_pence_bounds_count(combo, idx as nat, 8);
            assert(count(combo, idx as nat) <= 200) by (nonlinear_arith)
                requires
                    count(combo, idx as nat) * coin_spec(idx as nat) <= pence_spec(combo),
                    pence_spec(combo) < 200,
                    coin_spec(idx as nat) >= 1,
            ;
            lemma_pence_increment(combo, child, idx as nat, 8);
        }
        solve_inner(child, seen, ways, Ghost(inner));
        idx = idx + 1;
    }
    proof {
        assert forall|c: u64, k: nat|
            #![trigger seen@.contains(c), next(c, k)]
            seen@.contains(c) && !open@.contains(c) && pence_spec(c) < 200 && k < 8
                implies seen@.contains(next(c, k)) by {
            if c != combo {
                assert(!inner.contains(c));
            }
        }
    }
}

/// The number of ways to make two pounds out of any number of 1p, 2p, 5p,
/// 10p, 20p, 50p, £1 and £2 coins: the number of combinations, with at most
/// 255 coins of each denomination, worth exactly two pounds.
pub fn solve() -> (r: usize)
    ensures
        r == two_pound_combos().len(),
{
    let mut combos: usize = 0;
    let mut seen: HashSet<u64> = HashSet::new();
    proof {
        assert(Set::<u64>::empty().filter(|c: u64| pence_spec(c) == 200) =~= Set::<u64>::empty());
    }
    solve_inner(0, &mut seen, &mut combos, Ghost(Set::empty()));
    proof {
        let f = |c: u64| pence_spec(c) == 200;
        assert forall|c: u64| two_pound_combos().contains(c) implies seen@.contains(c) by {
            lemma_closed_complete(seen@, c);
        }
        assert(seen@.filter(f) =~= two_pound_combos());
    }
    combos
}

} // verus!
