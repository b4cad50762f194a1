use euler::big_num::{BigNum, Digit};

fn num(digits: &[u8]) -> BigNum {
    BigNum::from_iter(digits.to_vec())
}

#[test]
fn from_iter_removes_leading_zeros() {
    let num = BigNum::from_iter(vec![0, 5, 1, 0, 0]);
    let expected = BigNum::from_iter(vec![0, 5, 1]);
    assert_eq!(num, expected);
}

#[test]
fn add_no_carry() {
    let a = BigNum::from_iter(vec![3, 6]);
    let b = BigNum::from_iter(vec![6, 3]);
    let expected = BigNum::from_iter(vec![9, 9]);
    assert_eq!(a + b, expected);
}

#[test]
fn add_with_carry() {
    let a = BigNum::from_iter(vec![4, 6]);
    let b = BigNum::from_iter(vec![6, 3]);
    let expected = BigNum::from_iter(vec![0, 0, 1]);
    assert_eq!(a + b, expected);
}

#[test]
fn add_more_digits_lhs() {
    let a = BigNum::from_iter(vec![2, 9, 4, 5]);
    let b = BigNum::from_iter(vec![9, 9]);
    let expected = BigNum::from_iter(vec![1, 9, 5, 5]);
    assert_eq!(a + b, expected);
}

#[test]
fn add_more_digits_rhs() {
    let a = BigNum::from_iter(vec![7, 8, 5]);
    let b = BigNum::from_iter(vec![4, 7, 0, 3, 9]);
    let expected = BigNum::from_iter(vec![1, 6, 6, 3, 9]);
    assert_eq!(a + b, expected);
}

#[test]
fn mul() {
    let a = BigNum::from_iter(vec![8, 3, 6, 7]);
    let b = BigNum::from_iter(vec![4, 3, 2]);
    let expected = BigNum::from_iter(vec![2, 9, 2, 7, 8, 7, 1]);
    assert_eq!(a * b, expected);
}

#[test]
fn pow_zero() {
    let a = BigNum::from_iter(vec![2]);
    let e = 0;
    let expected = BigNum::from_iter(vec![1]);
    assert_eq!(a.pow(e), expected);
}

#[test]
fn pow_one() {
    let a = BigNum::from_iter(vec![2]);
    let e = 1;
    let expected = BigNum::from_iter(vec![2]);
    assert_eq!(a.pow(e), expected);
}

#[test]
fn pow_two() {
    let a = BigNum::from_iter(vec![2]);
    let e = 2;
    let expected = BigNum::from_iter(vec![4]);
    assert_eq!(a.pow(e), expected);
}

#[test]
fn pow_big() {
    let a = BigNum::from_iter(vec![2]);
    let e = 30;
    let expected = BigNum::from_iter(vec![4, 2, 8, 1, 4, 7, 3, 7, 0, 1]);
    assert_eq!(a.pow(e), expected);
}

#[test]
fn digit_plus_every_pair() {
    for a in 0..10u8 {
        for b in 0..10u8 {
            let (digit, carry) = Digit::new(a).plus(Digit::new(b));
            assert_eq!(digit.value() + 10 * carry.value(), a + b);
            assert!(carry.value() <= 1);
        }
    }
}

#[test]
fn digit_times_every_pair() {
    for a in 0..10u8 {
        for b in 0..10u8 {
            let (digit, carry) = Digit::new(a).times(Digit::new(b));
            assert_eq!(digit.value() + 10 * carry.value(), a * b);
            assert!(carry.value() <= 8);
        }
    }
}

#[test]
fn digit_times_largest() {
    let (digit, carry) = Digit::new(9).times(Digit::new(9));
    assert_eq!(digit.value(), 1);
    assert_eq!(carry.value(), 8);
}

#[test]
fn from_iter_of_zeros_is_zero() {
    assert_eq!(BigNum::from_iter(vec![0, 0, 0]), BigNum::zero());
    assert_eq!(BigNum::from_iter(vec![]), BigNum::zero());
    assert_eq!(BigNum::from_iter(vec![0, 0, 0]).digits(), 1);
}

#[test]
fn add_is_commutative_and_associative() {
    let a = num(&[9, 9, 9]);
    let b = num(&[1]);
    let c = num(&[5, 4, 3, 2, 1]);
    assert_eq!(a.clone() + b.clone(), b.clone() + a.clone());
    assert_eq!((a.clone() + b.clone()) + c.clone(), a.clone() + (b + c));
    assert_eq!(a.clone() + BigNum::zero(), a);
}

#[test]
fn add_zero_to_zero() {
    assert_eq!(BigNum::zero() + BigNum::zero(), BigNum::zero());
    assert_eq!((BigNum::zero() + BigNum::zero()).digits(), 1);
}

#[test]
fn mul_distributes_and_has_identities() {
    let a = num(&[7, 2, 9]);
    let b = num(&[3, 8]);
    let c = num(&[6, 0, 0, 4]);
    assert_eq!(
        a.clone() * (b.clone() + c.clone()),
        a.clone() * b + a.clone() * c
    );
    assert_eq!(a.clone() * BigNum::one(), a.clone());
    assert_eq!(a.clone() * BigNum::zero(), BigNum::zero());
    assert_eq!(BigNum::zero() * a, BigNum::zero());
}

#[test]
fn pow_of_zero() {
    assert_eq!(BigNum::zero().pow(0), BigNum::one());
    assert_eq!(BigNum::zero().pow(3), BigNum::zero());
    let a = num(&[3, 1]);
    assert_eq!(a.clone().pow(1), a);
}

#[test]
fn from_u32_values() {
    assert_eq!(BigNum::from_u32(0), BigNum::zero());
    assert_eq!(BigNum::from_u32(150), num(&[0, 5, 1]));
    assert_eq!(
        BigNum::from_u32(u32::MAX),
        num(&[5, 9, 2, 7, 6, 9, 4, 9, 2, 4])
    );
}

#[test]
fn zero_renders_as_zero() {
    assert_eq!(BigNum::from_u32(0).to_string(), "0");
}

#[test]
fn render_groups_digits() {
    assert_eq!(num(&[2, 9, 2, 7, 8, 7, 1]).to_string(), "1,787,292");
    assert_eq!(num(&[1, 6, 6, 3, 9]).to_string(), "93,661");
    assert_eq!(BigNum::from_u32(999).to_string(), "999");
    assert_eq!(BigNum::from_u32(1000).to_string(), "1,000");
    let text = BigNum::from_u32(1234567).to_string();
    assert_eq!(text.matches(',').count(), 2);
}

#[test]
fn pow_two_thirty_renders() {
    let p = BigNum::from_u32(2).pow(30);
    assert_eq!(p.to_string(), "1,073,741,824");
    assert_eq!(p, BigNum::from_u32(1_073_741_824));
}

#[test]
fn add_scenario_forty_six_and_sixty_three() {
    let sum = BigNum::from_u32(46) + BigNum::from_u32(63);
    assert_eq!(sum, num(&[9, 0, 1]));
}

#[test]
fn mul_scenario_long_multiplication() {
    let prod = BigNum::from_u32(7638) * BigNum::from_u32(234);
    assert_eq!(prod, BigNum::from_u32(1_787_292));
    assert_eq!(prod.digits(), 7);
}

#[test]
fn clone_keeps_digits() {
    let a = num(&[1, 2, 3]);
    assert_eq!(a.clone(), a);
}
