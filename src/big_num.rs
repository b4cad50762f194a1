//! Non-negative integers of any size, stored as decimal digits, least
//! significant first.
use vstd::prelude::*;

verus! {

/// Ten to the power `n`.
pub open spec fn pow10(n: nat) -> nat
    decreases n,
{
    if n == 0 {
        1
    } else {
        10 * pow10((n - 1) as nat)
    }
}

/// `b` raised to the power `e`, with `power(b, 0) == 1` for every `b`.
pub open spec fn power(b: nat, e: nat) -> nat
    decreases e,
{
    if e == 0 {
        1
    } else {
        b * power(b, (e - 1) as nat)
    }
}

/// The number that a sequence of decimal digits writes, least significant first.
pub open spec fn value_of(s: Seq<nat>) -> nat
    decreases s.len(),
{
    if s.len() == 0 {
        0
    } else {
        value_of(s.drop_last()) + s.last() * pow10((s.len() - 1) as nat)
    }
}

/// Every entry is a decimal digit.
pub open spec fn all_digits(s: Seq<nat>) -> bool {
    forall|i: int| 0 <= i < s.len() ==> #[trigger] s[i] < 10
}

/// Canonical form: at least one digit, and no zero in the most significant
/// place unless the number is zero itself, written as a single `0`.
pub open spec fn is_canonical(s: Seq<nat>) -> bool {
    &&& s.len() >= 1
    &&& all_digits(s)
    &&& (s.len() == 1 || s.last() != 0)
}

/// Powers of ten are positive.
pub proof fn lemma_pow10_positive(n: nat)
    ensures
        pow10(n) >= 1,
    decreases n,
{
    if n > 0 {
        lemma_pow10_positive((n - 1) as nat);
    }
}

/// Ten to a sum is the product of the two powers.
pub proof fn lemma_pow10_add(a: nat, b: nat)
    ensures
        pow10(a + b) == pow10(a) * pow10(b),
    decreases a,
{
    if a > 0 {
        lemma_pow10_add((a - 1) as nat, b);
        let x = pow10((a - 1) as nat);
        let y = pow10(b);
        assert(((a - 1) as nat + b) as nat == (a + b - 1) as nat);
        assert(pow10(a + b) == 10 * pow10(((a - 1) as nat + b) as nat));
        assert(pow10(a) == 10 * x);
        assert(10 * (x * y) == (10 * x) * y) by (nonlinear_arith);
    } else {
        assert(pow10(a) == 1);
    }
}

/// Powers of ten grow with the exponent.
pub proof fn lemma_pow10_monotone(a: nat, b: nat)
    requires
        a <= b,
    ensures
        pow10(a) <= pow10(b),
    decreases b,
{
    if a < b {
        lemma_pow10_monotone(a, (b - 1) as nat);
        lemma_pow10_positive((b - 1) as nat);
    }
}

/// Appending a digit in the most significant place adds it times a power of ten.
pub proof fn lemma_value_push(s: Seq<nat>, d: nat)
    ensures
        value_of(s.push(d)) == value_of(s) + d * pow10(s.len()),
{
    assert(s.push(d).drop_last() =~= s);
}

/// A single digit is worth itself.
pub proof fn lemma_value_single(d: nat)
    ensures
        value_of(seq![d]) == d,
{
    assert(seq![d] =~= Seq::<nat>::empty().push(d));
    lemma_value_push(Seq::<nat>::empty(), d);
    assert(value_of(Seq::<nat>::empty()) == 0);
    assert(pow10(0) == 1);
    assert(d * 1 == d);
}

/// The value of a prefix grows by the next digit times its place.
pub proof fn lemma_value_take(s: Seq<nat>, i: int)
    requires
        0 <= i < s.len(),
    ensures
        value_of(s.take(i + 1)) == value_of(s.take(i)) + s[i] * pow10(i as nat),
{
    assert(s.take(i + 1) =~= s.take(i).push(s[i]));
    lemma_value_push(s.take(i), s[i]);
}

/// A number of `n` digits is less than ten to the `n`.
pub proof fn lemma_value_bound(s: Seq<nat>)
    requires
        all_digits(s),
    ensures
        value_of(s) < pow10(s.len()),
    decreases s.len(),
{
    if s.len() > 0 {
        let t = s.drop_last();
        assert(all_digits(t)) by {
            assert forall|i: int| 0 <= i < t.len() implies t[i] < 10 by {
                assert(t[i] == s[i]);
            }
        }
        lemma_value_bound(t);
        let p = pow10(t.len());
        let d = s.last();
        assert(d < 10) by {
            assert(s[s.len() - 1] < 10);
        }
        assert(value_of(t) + d * p < 10 * p) by (nonlinear_arith)
            requires
                value_of(t) < p,
                d < 10,
        ;
    }
}

/// A canonical number of two or more digits is at least ten to the number
/// of its digits less one.
pub proof fn lemma_value_lower_bound(s: Seq<nat>)
    requires
        is_canonical(s),
        s.len() >= 2,
    ensures
        value_of(s) >= pow10((s.len() - 1) as nat),
{
    let p = pow10((s.len() - 1) as nat);
    let d = s.last();
    assert(d * p >= p) by (nonlinear_arith)
        requires
            d >= 1,
    ;
}

/// Digit sequences of one length with one value are the same sequence.
pub proof fn lemma_same_length_unique(s: Seq<nat>, t: Seq<nat>)
    requires
        all_digits(s),
        all_digits(t),
        s.len() == t.len(),
        value_of(s) == value_of(t),
    ensures
        s == t,
    decreases s.len(),
{
    if s.len() > 0 {
        let s0 = s.drop_last();
        let t0 = t.drop_last();
        assert(all_digits(s0)) by {
            assert forall|i: int| 0 <= i < s0.len() implies s0[i] < 10 by {
                assert(s0[i] == s[i]);
            }
        }
        assert(all_digits(t0)) by {
            assert forall|i: int| 0 <= i < t0.len() implies t0[i] < 10 by {
                assert(t0[i] == t[i]);
            }
        }
        lemma_value_bound(s0);
        lemma_value_bound(t0);
        let p = pow10(s0.len());
        let x = value_of(s0);
        let y = value_of(t0);
        let a = s.last();
        let b = t.last();
        assert(a == b) by (nonlinear_arith)
            requires
                x < p,
                y < p,
                x + a * p == y + b * p,
        {
            if a < b {
                assert(a * p + p <= b * p);
            } else if b < a {
                assert(b * p + p <= a * p);
            }
        }
        lemma_same_length_unique(s0, t0);
        assert(s =~= s0.push(a));
        assert(t =~= t0.push(b));
    }
}

/// Canonical form is unique: two canonical sequences with one value are equal.
pub proof fn lemma_canonical_unique(s: Seq<nat>, t: Seq<nat>)
    requires
        is_canonical(s),
        is_canonical(t),
        value_of(s) == value_of(t),
    ensures
        s == t,
{
    if s.len() < t.len() {
        lemma_value_bound(s);
        lemma_value_lower_bound(t);
        lemma_pow10_monotone(s.len(), (t.len() - 1) as nat);
    } else if t.len() < s.len() {
        lemma_value_bound(t);
        lemma_value_lower_bound(s);
        lemma_pow10_monotone(t.len(), (s.len() - 1) as nat);
    } else {
        lemma_same_length_unique(s, t);
    }
}

/// A single decimal digit, from 0 to 9.
#[derive(Clone, Copy, Debug, Hash, PartialEq, Eq, PartialOrd, Ord)]
pub struct Digit(u8);

impl View for Digit {
    type V = nat;

    closed spec fn view(&self) -> nat {
        self.0 as nat
    }
}

impl Digit {
    #[verifier::type_invariant]
    spec fn inv(self) -> bool {
        self.0 < 10
    }

    /// The digit with the given value.
    pub fn new(value: u8) -> (r: Digit)
        requires
            value < 10,
        ensures
            r@ == value,
    {
        Digit(value)
    }

    /// The value of the digit.
    pub fn value(self) -> (r: u8)
        ensures
            r == self@,
            r < 10,
    {
        proof {
            use_type_invariant(&self);
        }
        self.0
    }

    /// Adds two digits: the last digit of the sum, and the carry.
    pub fn plus(self, other: Digit) -> (r: (Digit, Digit))
        ensures
            r.0@ == (self@ + other@) % 10,
            r.1@ == (self@ + other@) / 10,
            r.0@ + 10 * r.1@ == self@ + other@,
            r.0@ < 10,
            r.1@ <= 1,
    {
        proof {
            use_type_invariant(&self);
            use_type_invariant(&other);
        }
        let mut sum: u8 = self.0 + other.0;
        let mut carry: u8 = 0;
        if sum >= 10 {
            sum = sum - 10;
            carry = 1;
        }
        (Digit(sum), Digit(carry))
    }

    /// Multiplies two digits: the last digit of the product, and the carry.
    pub fn times(self, other: Digit) -> (r: (Digit, Digit))
        ensures
            r.0@ == (self@ * other@) % 10,
            r.1@ == (self@ * other@) / 10,
            r.0@ + 10 * r.1@ == self@ * other@,
            r.0@ < 10,
            r.1@ <= 8,
            self@ * other@ <= 81,
    {
        proof {
            use_type_invariant(&self);
            use_type_invariant(&other);
        }
        let a = self.0;
        let b = other.0;
        assert(self@ * other@ == a * b);
        assert(a * b <= 81) by (nonlinear_arith)
            requires
                a < 10,
                b < 10,
        ;
        let prod: u8 = a * b;
        let digit: u8 = prod % 10;
        let carry: u8 = prod / 10;
        (Digit(digit), Digit(carry))
    }
}

/// The values of a sequence of digits.
spec fn digit_values(s: Seq<Digit>) -> Seq<nat> {
    s.map_values(|d: Digit| d@)
}

proof fn lemma_digit_values_push(s: Seq<Digit>, d: Digit)
    ensures
        digit_values(s.push(d)) == digit_values(s).push(d@),
{
    assert(digit_values(s.push(d)) =~= digit_values(s).push(d@));
}

proof fn lemma_digit_values_drop_last(s: Seq<Digit>)
    requires
        s.len() >= 1,
    ensures
        digit_values(s.drop_last()) == digit_values(s).drop_last(),
{
    assert(digit_values(s.drop_last()) =~= digit_values(s).drop_last());
}

/// A non-negative integer of any size, in decimal digits, least significant
/// first: `[0, 0, 1]` is one hundred.
///
/// The digits are always in canonical form (see `is_canonical`), so two
/// numbers are equal exactly when their values are.
#[derive(Debug, Hash, PartialEq, Eq)]
pub struct BigNum(Vec<Digit>);

impl View for BigNum {
    type V = Seq<nat>;

    closed spec fn view(&self) -> Seq<nat> {
        digit_values(self.0@)
    }
}

impl BigNum {
    #[verifier::type_invariant]
    spec fn inv(self) -> bool {
        is_canonical(self@)
    }

    /// The digits are in canonical form.
    pub open spec fn wf(self) -> bool {
        is_canonical(self@)
    }

    /// The number that the digits write.
    pub open spec fn value(self) -> nat {
        value_of(self@)
    }

    /// The number of digits.
    pub fn digits(&self) -> (r: usize)
        ensures
            r == self@.len(),
    {
        self.0.len()
    }

    /// Zero, written as the single digit `0`.
    pub fn zero() -> (r: BigNum)
        ensures
            r.wf(),
            r@ == seq![0nat],
            r.value() == 0,
    {
        let v = vec![Digit(0)];
        assert(digit_values(v@) =~= seq![0nat]);
        proof {
            lemma_value_single(0);
        }
        BigNum(v)
    }

    /// One, written as the single digit `1`.
    pub fn one() -> (r: BigNum)
        ensures
            r.wf(),
            r@ == seq![1nat],
            r.value() == 1,
    {
        let v = vec![Digit(1)];
        assert(digit_values(v@) =~= seq![1nat]);
        proof {
            lemma_value_single(1);
        }
        BigNum(v)
    }

    /// Appends zeros in the most significant places until there are `length`
    /// digits.
    fn pad_to(digits: &mut Vec<Digit>, length: usize)
        requires
            old(digits)@.len() <= length,
            all_digits(digit_values(old(digits)@)),
        ensures
            final(digits)@.len() == length,
            all_digits(digit_values(final(digits)@)),
            value_of(digit_values(final(digits)@)) == value_of(digit_values(old(digits)@)),
    {
        let ghost start = digit_values(digits@);
        let extra = length - digits.len();
        let mut k: usize = 0;
        while k < extra
            invariant
                k <= extra,
                extra == length - start.len(),
                digits@.len() == start.len() + k,
                all_digits(digit_values(digits@)),
                value_of(digit_values(digits@)) == value_of(start),
            decreases extra - k,
        {
            proof {
                lemma_digit_values_push(digits@, Digit(0));
                lemma_value_push(digit_values(digits@), 0);
            }
            digits.push(Digit(0));
            k = k + 1;
        }
    }

    /// Drops zeros from the most significant end while more than one digit
    /// is left, which restores canonical form.
    fn trim_leading_zeros(digits: &mut Vec<Digit>)
        requires
            old(digits)@.len() >= 1,
            all_digits(digit_values(old(digits)@)),
        ensures
            is_canonical(digit_values(final(digits)@)),
            value_of(digit_values(final(digits)@)) == value_of(digit_values(old(digits)@)),
    {
        let ghost start = value_of(digit_values(digits@));
        while digits.len() > 1 && digits[digits.len() - 1].0 == 0
            invariant
                digits@.len() >= 1,
                all_digits(digit_values(digits@)),
                value_of(digit_values(digits@)) == start,
            decreases digits@.len(),
        {
            proof {
                lemma_digit_values_drop_last(digits@);
                let s = digit_values(digits@);
                let d = s.last();
                let p = pow10((s.len() - 1) as nat);
                assert(d == 0);
                assert(d * p == 0) by (nonlinear_arith)
                    requires
                        d == 0,
                ;
                assert(all_digits(s.drop_last())) by {
                    assert forall|i: int| 0 <= i < s.len() - 1 implies #[trigger] s.drop_last()[i]
                        < 10 by {
                        assert(s.drop_last()[i] == s[i]);
                    }
                }
            }
            digits.pop();
        }
        proof {
            let s = digit_values(digits@);
            if s.len() > 1 {
                assert(s.last() == digits@[s.len() - 1]@);
            }
        }
    }

    /// Adds two digit sequences by the schoolbook method.
    ///
    /// The carry into each place is 0 or 1: where the two digits already
    /// carry, their last digit is at most 8, so adding the incoming carry
    /// cannot carry again, and the larger of the two carries is their sum.
    fn add_digits(a: Vec<Digit>, b: Vec<Digit>) -> (r: Vec<Digit>)
        requires
            a@.len() >= 1,
            all_digits(digit_values(a@)),
            all_digits(digit_values(b@)),
        ensures
            is_canonical(digit_values(r@)),
            value_of(digit_values(r@)) == value_of(digit_values(a@)) + value_of(digit_values(b@)),
    {
        let mut a = a;
        let mut b = b;
        let length = if a.len() >= b.len() {
            a.len()
        } else {
            b.len()
        };
        let ghost total = value_of(digit_values(a@)) + value_of(digit_values(b@));
        Self::pad_to(&mut a, length);
        Self::pad_to(&mut b, length);
        let mut out: Vec<Digit> = Vec::new();
        let mut carry = Digit(0);
        let mut idx: usize = 0;
        assert(digit_values(out@) =~= Seq::<nat>::empty());
        assert(digit_values(a@).take(0) =~= Seq::<nat>::empty());
        assert(digit_values(b@).take(0) =~= Seq::<nat>::empty());
        while idx < length
            invariant
                a@.len() == length,
                b@.len() == length,
                idx <= length,
                out@.len() == idx,
                all_digits(digit_values(a@)),
                all_digits(digit_values(b@)),
                all_digits(digit_values(out@)),
                carry@ <= 1,
                total == value_of(digit_values(a@)) + value_of(digit_values(b@)),
                value_of(digit_values(out@)) + carry@ * pow10(idx as nat) == value_of(
                    digit_values(a@).take(idx as int),
                ) + value_of(digit_values(b@).take(idx as int)),
            decreases length - idx,
        {
            let (sum, carry1) = a[idx].plus(b[idx]);
            let (sum, carry2) = sum.plus(carry);
            let ghost x = digit_values(a@)[idx as int];
            let ghost y = digit_values(b@)[idx as int];
            proof {
                assert(x == a@[idx as int]@);
                assert(y == b@[idx as int]@);
                assert(x < 10 && y < 10);
                lemma_value_take(digit_values(a@), idx as int);
                lemma_value_take(digit_values(b@), idx as int);
                lemma_digit_values_push(out@, sum);
                lemma_value_push(digit_values(out@), sum@);
                let p = pow10(idx as nat);
                let c = carry1@ + carry2@;
                assert(sum@ + 10 * c == x + y + carry@);
                assert(sum@ * p + c * (10 * p) == x * p + y * p + carry@ * p) by (nonlinear_arith)
                    requires
                        sum@ + 10 * c == x + y + carry@,
                ;
            }
            out.push(sum);
            carry = if carry1.0 >= carry2.0 {
                carry1
            } else {
                carry2
            };
            idx = idx + 1;
        }
        assert(digit_values(a@).take(length as int) =~= digit_values(a@));
        assert(digit_values(b@).take(length as int) =~= digit_values(b@));
        if carry.0 == 1 {
            proof {
                lemma_digit_values_push(out@, Digit(1));
                lemma_value_push(digit_values(out@), 1);
            }
            out.push(Digit(1));
        } else {
            assert(carry@ == 0);
        }
        Self::trim_leading_zeros(&mut out);
        out
    }
}

/// The character of a decimal digit.
pub open spec fn digit_char(d: nat) -> char {
    if d == 0 {
        '0'
    } else if d == 1 {
        '1'
    } else if d == 2 {
        '2'
    } else if d == 3 {
        '3'
    } else if d == 4 {
        '4'
    } else if d == 5 {
        '5'
    } else if d == 6 {
        '6'
    } else if d == 7 {
        '7'
    } else if d == 8 {
        '8'
    } else {
        '9'
    }
}

/// The text of the `n` lowest digits of `s`, most significant first, with a
/// comma after each digit whose place is a non-zero multiple of three.
pub open spec fn grouped(s: Seq<nat>, n: nat) -> Seq<char>
    decreases n,
{
    if n == 0 {
        Seq::empty()
    } else {
        let i = (n - 1) as nat;
        let sep: Seq<char> = if i != 0 && i % 3 == 0 {
            seq![',']
        } else {
            Seq::empty()
        };
        seq![digit_char(s[i as int])] + sep + grouped(s, i)
    }
}

/// The decimal text of a number, with commas between groups of three digits
/// counted from the least significant end: `1,787,292`.
pub open spec fn render(s: Seq<nat>) -> Seq<char> {
    grouped(s, s.len())
}

/// Relies on `String::push`: the character is appended at the end.
#[verifier::external_body]
fn push_char(s: &mut String, c: char)
    ensures
        final(s)@ == old(s)@.push(c),
{
    s.push(c);
}

impl Clone for BigNum {
    /// A number with the same digits.
    fn clone(&self) -> (r: BigNum)
        ensures
            r@ == self@,
    {
        proof {
            use_type_invariant(self);
        }
        let mut v: Vec<Digit> = Vec::new();
        let mut i: usize = 0;
        while i < self.0.len()
            invariant
                i <= self.0@.len(),
                v@ == self.0@.take(i as int),
            decreases self.0@.len() - i,
        {
            v.push(self.0[i]);
            i = i + 1;
            assert(v@ =~= self.0@.take(i as int));
        }
        assert(v@ =~= self.0@);
        BigNum(v)
    }
}

impl BigNum {
    /// The number whose digits, least significant first, are `digits`;
    /// zeros in the most significant places are dropped, and no digits at
    /// all make zero.
    pub fn from_iter(digits: Vec<u8>) -> (r: BigNum)
        requires
            forall|i: int| 0 <= i < digits@.len() ==> #[trigger] digits@[i] < 10,
        ensures
            r.wf(),
            r.value() == value_of(digits@.map_values(|d: u8| d as nat)),
    {
        let ghost target = digits@.map_values(|d: u8| d as nat);
        let mut v: Vec<Digit> = Vec::new();
        let mut i: usize = 0;
        while i < digits.len()
            invariant
                i <= digits@.len(),
                target == digits@.map_values(|d: u8| d as nat),
                forall|k: int| 0 <= k < digits@.len() ==> #[trigger] digits@[k] < 10,
                digit_values(v@) == target.take(i as int),
            decreases digits@.len() - i,
        {
            let d = Digit(digits[i]);
            proof {
                lemma_digit_values_push(v@, d);
            }
            v.push(d);
            i = i + 1;
            assert(digit_values(v@) =~= target.take(i as int));
        }
        assert(target.take(i as int) =~= target);
        assert(all_digits(target));
        if v.len() == 0 {
            proof {
                lemma_digit_values_push(v@, Digit(0));
                lemma_value_push(digit_values(v@), 0);
                assert(target.len() == 0);
            }
            v.push(Digit(0));
        }
        Self::trim_leading_zeros(&mut v);
        BigNum(v)
    }

    /// The number `value`; zero is the single digit `0`.
    pub fn from_u32(value: u32) -> (r: BigNum)
        ensures
            r.wf(),
            r.value() == value,
    {
        let mut n: u32 = value;
        let mut v: Vec<Digit> = Vec::new();
        assert(digit_values(v@) =~= Seq::<nat>::empty());
        assert(value_of(Seq::<nat>::empty()) == 0);
        assert(pow10(0) == 1);
        assert(n * 1 == n);
        while n > 0
            invariant
                all_digits(digit_values(v@)),
                value_of(digit_values(v@)) + n * pow10(v@.len()) == value,
                v@.len() > 0 && n == 0 ==> digit_values(v@).last() != 0,
            decreases n,
        {
            let d = Digit((n % 10) as u8);
            proof {
                lemma_digit_values_push(v@, d);
                lemma_value_push(digit_values(v@), d@);
                let p = pow10(v@.len());
                assert(pow10(v@.len() + 1) == 10 * p);
                let m = n as nat;
                assert(m * p == (m % 10) * p + (m / 10) * (10 * p)) by (nonlinear_arith);
            }
            v.push(d);
            n = n / 10;
        }
        if v.len() == 0 {
            proof {
                lemma_digit_values_push(v@, Digit(0));
                lemma_value_push(digit_values(v@), 0);
            }
            v.push(Digit(0));
        }
        BigNum(v)
    }

    /// `self` raised to the power `exponent`, by repeated multiplication;
    /// any number to the power zero is one.
    pub fn pow(self, exponent: usize) -> (r: BigNum)
        ensures
            r.wf(),
            r.value() == power(self.value(), exponent as nat),
    {
        proof {
            use_type_invariant(&self);
        }
        if exponent == 0 {
            return BigNum::one();
        }
        let mut result = self.clone();
        let mut k: usize = 1;
        proof {
            assert(power(self.value(), 0) == 1);
            assert(power(self.value(), 1) == self.value() * 1);
        }
        while k < exponent
            invariant
                1 <= k <= exponent,
                is_canonical(self@),
                result.wf(),
                result.value() == power(self.value(), k as nat),
            decreases exponent - k,
        {
            result = result * self.clone();
            proof {
                let b = self.value();
                let t = power(b, k as nat);
                assert(power(b, (k + 1) as nat) == b * t);
                assert(t * b == b * t) by (nonlinear_arith);
            }
            k = k + 1;
        }
        result
    }

    /// The decimal text of the number, with a comma before each group of
    /// three digits after the first: `1,073,741,824`.
    pub fn to_string(&self) -> (r: String)
        ensures
            r@ == render(self@),
    {
        let mut out = String::new();
        let mut n: usize = self.0.len();
        while n > 0
            invariant
                n <= self@.len(),
                out@ + grouped(self@, n as nat) == render(self@),
            decreases n,
        {
            let idx = n - 1;
            let d = self.0[idx];
            let c = Self::digit_char_of(d);
            let ghost before = out@;
            push_char(&mut out, c);
            if idx != 0 && idx % 3 == 0 {
                push_char(&mut out, ',');
            }
            proof {
                let sep: Seq<char> = if idx != 0 && idx % 3 == 0 {
                    seq![',']
                } else {
                    Seq::empty()
                };
                assert(self@[idx as int] == d@);
                assert(out@ =~= before + (seq![c] + sep));
                assert(grouped(self@, n as nat) == seq![c] + sep + grouped(self@, idx as nat));
                assert(before + grouped(self@, n as nat) =~= out@ + grouped(self@, idx as nat));
            }
            n = idx;
        }
        assert(out@ =~= out@ + grouped(self@, 0));
        out
    }

    fn digit_char_of(d: Digit) -> (c: char)
        ensures
            c == digit_char(d@),
    {
        let v = d.value();
        if v == 0 {
            '0'
        } else if v == 1 {
            '1'
        } else if v == 2 {
            '2'
        } else if v == 3 {
            '3'
        } else if v == 4 {
            '4'
        } else if v == 5 {
            '5'
        } else if v == 6 {
            '6'
        } else if v == 7 {
            '7'
        } else if v == 8 {
            '8'
        } else {
            '9'
        }
    }
}

impl std::ops::Add for BigNum {
    type Output = BigNum;

    /// The sum of two numbers.
    fn add(self, rhs: BigNum) -> (r: BigNum)
        ensures
            r.wf(),
            r.value() == self.value() + rhs.value(),
    {
        proof {
            use_type_invariant(&self);
            use_type_invariant(&rhs);
        }
        BigNum(Self::add_digits(self.0, rhs.0))
    }
}

impl vstd::std_specs::ops::AddSpecImpl for BigNum {
    open spec fn obeys_add_spec() -> bool {
        false
    }

    open spec fn add_req(self, rhs: BigNum) -> bool {
        true
    }

    open spec fn add_spec(self, rhs: BigNum) -> BigNum {
        self
    }
}

impl std::ops::Mul for BigNum {
    type Output = BigNum;

    /// The product of two numbers, by schoolbook long multiplication.
    ///
    /// Each row multiplies the left number by one digit of the right one,
    /// shifted by that digit's place. Within a row the carry is at most 8:
    /// a digit times a digit is at most 81, and with a carry of at most 8
    /// the place holds at most 89, so combining the two carries never
    /// carries again.
    fn mul(self, rhs: BigNum) -> (r: BigNum)
        ensures
            r.wf(),
            r.value() == self.value() * rhs.value(),
    {
        proof {
            use_type_invariant(&self);
            use_type_invariant(&rhs);
            lemma_value_single(0);
            assert(rhs@.take(0) =~= Seq::<nat>::empty());
            assert(value_of(Seq::<nat>::empty()) == 0);
            assert(self.value() * 0 == 0);
        }
        let mut acc: Vec<Digit> = vec![Digit(0)];
        assert(digit_values(acc@) =~= seq![0nat]);
        let mut i: usize = 0;
        while i < rhs.0.len()
            invariant
                is_canonical(self@),
                is_canonical(rhs@),
                i <= rhs@.len(),
                is_canonical(digit_values(acc@)),
                value_of(digit_values(acc@)) == self.value() * value_of(rhs@.take(i as int)),
            decreases rhs@.len() - i,
        {
            let rd = rhs.0[i];
            let ghost q = pow10(i as nat);
            let mut intermediate: Vec<Digit> = Vec::new();
            let mut k: usize = 0;
            assert(digit_values(intermediate@) =~= Seq::<nat>::empty());
            while k < i
                invariant
                    k <= i,
                    intermediate@.len() == k,
                    all_digits(digit_values(intermediate@)),
                    value_of(digit_values(intermediate@)) == 0,
                decreases i - k,
            {
                proof {
                    lemma_digit_values_push(intermediate@, Digit(0));
                    lemma_value_push(digit_values(intermediate@), 0);
                }
                intermediate.push(Digit(0));
                k = k + 1;
            }
            let mut carry = Digit(0);
            let mut j: usize = 0;
            proof {
                assert(self@.take(0) =~= Seq::<nat>::empty());
                assert(rd@ * 0 * q == 0) by (nonlinear_arith);
                assert(i + 0 == i);
            }
            while j < self.0.len()
                invariant
                    is_canonical(self@),
                    j <= self@.len(),
                    q == pow10(i as nat),
                    intermediate@.len() == i + j,
                    all_digits(digit_values(intermediate@)),
                    carry@ <= 8,
                    value_of(digit_values(intermediate@)) + carry@ * pow10((i + j) as nat) == rd@
                        * value_of(self@.take(j as int)) * q,
                decreases self@.len() - j,
            {
                let (digit, carry1) = rd.times(self.0[j]);
                let (digit, carry2) = digit.plus(carry);
                let ghost x = self@[j as int];
                proof {
                    assert(x == self.0@[j as int]@);
                    lemma_value_take(self@, j as int);
                    lemma_pow10_add(i as nat, j as nat);
                    lemma_digit_values_push(intermediate@, digit);
                    lemma_value_push(digit_values(intermediate@), digit@);
                    let p = pow10((i + j) as nat);
                    assert(pow10((i + j + 1) as nat) == 10 * p);
                    let c = carry1@ + carry2@;
                    assert(digit@ + 10 * c == rd@ * x + carry@);
                    assert(c <= 8);
                    let v = value_of(digit_values(intermediate@));
                    let t = value_of(self@.take(j as int));
                    let w = pow10(j as nat);
                    let d = digit@;
                    let r = rd@;
                    let cin = carry@;
                    assert(d * p + c * (10 * p) == (d + 10 * c) * p) by (nonlinear_arith);
                    assert((r * x + cin) * p == r * x * p + cin * p) by (nonlinear_arith);
                    assert(r * x * p == r * (x * w) * q) by (nonlinear_arith)
                        requires
                            p == q * w,
                    ;
                    assert(r * (t + x * w) * q == r * t * q + r * (x * w) * q) by (nonlinear_arith);
                    assert(v + d * p + c * (10 * p) == r * (t + x * w) * q);
                }
                intermediate.push(digit);
                carry = carry1.plus(carry2).0;
                j = j + 1;
            }
            proof {
                assert(self@.take(self@.len() as int) =~= self@);
            }
            if carry.0 != 0 {
                proof {
                    lemma_digit_values_push(intermediate@, carry);
                    lemma_value_push(digit_values(intermediate@), carry@);
                }
                intermediate.push(carry);
            } else {
                assert(carry@ == 0);
            }
            proof {
                lemma_value_take(rhs@, i as int);
                assert(rd@ == rhs@[i as int]);
                let a = self.value();
                let t = value_of(rhs@.take(i as int));
                assert(a * t + rd@ * a * q == a * (t + rd@ * q)) by (nonlinear_arith);
            }
            acc = Self::add_digits(acc, intermediate);
            i = i + 1;
        }
        proof {
            assert(rhs@.take(rhs@.len() as int) =~= rhs@);
        }
        BigNum(acc)
    }
}

impl vstd::std_specs::ops::MulSpecImpl for BigNum {
    open spec fn obeys_mul_spec() -> bool {
        false
    }

    open spec fn mul_req(self, rhs: BigNum) -> bool {
        true
    }

    open spec fn mul_spec(self, rhs: BigNum) -> BigNum {
        self
    }
}

} // verus!
