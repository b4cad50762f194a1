//! Algebraic laws of `BigNum`, proved from the contracts of its operations.
//!
//! Each law takes the operands and the results that the operations return,
//! described by those operations' `ensures`, and concludes that two results
//! hold the same digits. Canonical form makes equal values equal digits.
use vstd::prelude::*;
use crate::big_num::{
    BigNum,
    all_digits,
    lemma_canonical_unique,
    lemma_value_push,
    lemma_value_single,
    power,
    render,
    value_of,
};

verus! {

/// `n` zeros.
pub open spec fn zeros(n: nat) -> Seq<nat> {
    Seq::new(n, |_i: int| 0nat)
}

/// Zeros in the most significant places do not change a number's value.
pub proof fn lemma_value_trailing_zeros(s: Seq<nat>, k: nat)
    ensures
        value_of(s + zeros(k)) == value_of(s),
    decreases k,
{
    if k > 0 {
        lemma_value_trailing_zeros(s, (k - 1) as nat);
        assert(s + zeros(k) =~= (s + zeros((k - 1) as nat)).push(0));
        lemma_value_push(s + zeros((k - 1) as nat), 0);
    } else {
        assert(s + zeros(0) =~= s);
    }
}

/// Building a number from digits followed by zeros gives the same number as
/// building it from the digits alone: `[0, 5, 1, 0, 0]` and `[0, 5, 1]` are
/// both one hundred and fifty.
pub proof fn law_from_digits_ignores_trailing_zeros(
    s: Seq<nat>,
    k: nat,
    padded: BigNum,
    plain: BigNum,
)
    requires
        all_digits(s),
        padded.wf(),
        plain.wf(),
        padded.value() == value_of(s + zeros(k)),
        plain.value() == value_of(s),
    ensures
        padded@ == plain@,
{
    lemma_value_trailing_zeros(s, k);
    lemma_canonical_unique(padded@, plain@);
}

/// Addition is commutative: `a + b` and `b + a` are the same number.
pub proof fn law_add_commutative(a: BigNum, b: BigNum, ab: BigNum, ba: BigNum)
    requires
        a.wf(),
        b.wf(),
        ab.wf(),
        ba.wf(),
        ab.value() == a.value() + b.value(),
        ba.value() == b.value() + a.value(),
    ensures
        ab@ == ba@,
{
    lemma_canonical_unique(ab@, ba@);
}

/// Addition is associative: `(a + b) + c` and `a + (b + c)` are the same
/// number.
pub proof fn law_add_associative(
    a: BigNum,
    b: BigNum,
    c: BigNum,
    ab: BigNum,
    ab_c: BigNum,
    bc: BigNum,
    a_bc: BigNum,
)
    requires
        a.wf(),
        b.wf(),
        c.wf(),
        ab.wf(),
        ab_c.wf(),
        bc.wf(),
        a_bc.wf(),
        ab.value() == a.value() + b.value(),
        ab_c.value() == ab.value() + c.value(),
        bc.value() == b.value() + c.value(),
        a_bc.value() == a.value() + bc.value(),
    ensures
        ab_c@ == a_bc@,
{
    lemma_canonical_unique(ab_c@, a_bc@);
}

/// Zero is neutral for addition: `a + zero()` is `a`.
pub proof fn law_add_zero(a: BigNum, z: BigNum, sum: BigNum)
    requires
        a.wf(),
        z.wf(),
        sum.wf(),
        z.value() == 0,
        sum.value() == a.value() + z.value(),
    ensures
        sum@ == a@,
{
    lemma_canonical_unique(sum@, a@);
}

/// Multiplication distributes over addition: `a * (b + c)` and
/// `a * b + a * c` are the same number.
pub proof fn law_mul_distributes_over_add(
    a: BigNum,
    b: BigNum,
    c: BigNum,
    bc: BigNum,
    a_bc: BigNum,
    ab: BigNum,
    ac: BigNum,
    ab_ac: BigNum,
)
    requires
        a.wf(),
        b.wf(),
        c.wf(),
        bc.wf(),
        a_bc.wf(),
        ab.wf(),
        ac.wf(),
        ab_ac.wf(),
        bc.value() == b.value() + c.value(),
        a_bc.value() == a.value() * bc.value(),
        ab.value() == a.value() * b.value(),
        ac.value() == a.value() * c.value(),
        ab_ac.value() == ab.value() + ac.value(),
    ensures
        a_bc@ == ab_ac@,
{
    let x = a.value();
    let y = b.value();
    let z = c.value();
    assert(x * (y + z) == x * y + x * z) by (nonlinear_arith);
    lemma_canonical_unique(a_bc@, ab_ac@);
}

/// One is neutral for multiplication: `a * one()` is `a`.
pub proof fn law_mul_one(a: BigNum, o: BigNum, prod: BigNum)
    requires
        a.wf(),
        o.wf(),
        prod.wf(),
        o.value() == 1,
        prod.value() == a.value() * o.value(),
    ensures
        prod@ == a@,
{
    lemma_canonical_unique(prod@, a@);
}

/// Zero absorbs multiplication: `a * zero()` is `zero()`.
pub proof fn law_mul_zero(a: BigNum, z: BigNum, prod: BigNum)
    requires
        a.wf(),
        z.wf(),
        prod.wf(),
        z.value() == 0,
        prod.value() == a.value() * z.value(),
    ensures
        prod@ == z@,
{
    assert(a.value() * 0 == 0);
    lemma_canonical_unique(prod@, z@);
}

/// Any number to the power zero, zero included, is `one()`.
pub proof fn law_pow_zero(a: BigNum, o: BigNum, p: BigNum)
    requires
        a.wf(),
        o.wf(),
        p.wf(),
        o.value() == 1,
        p.value() == power(a.value(), 0),
    ensures
        p@ == o@,
{
    lemma_canonical_unique(p@, o@);
}

/// Any number to the power one is itself.
pub proof fn law_pow_one(a: BigNum, p: BigNum)
    requires
        a.wf(),
        p.wf(),
        p.value() == power(a.value(), 1),
    ensures
        p@ == a@,
{
    assert(power(a.value(), 1) == a.value() * power(a.value(), 0));
    assert(power(a.value(), 0) == 1);
    assert(a.value() * 1 == a.value());
    lemma_canonical_unique(p@, a@);
}

/// Zero, built from the machine integer `0`, is written `"0"`.
pub proof fn law_zero_renders_as_zero(z: BigNum)
    requires
        z.wf(),
        z.value() == 0,
    ensures
        render(z@) == seq!['0'],
{
    lemma_value_single(0);
    lemma_canonical_unique(z@, seq![0nat]);
    reveal_with_fuel(crate::big_num::grouped, 2);
    assert(render(z@) =~= seq!['0']);
}

} // verus!
