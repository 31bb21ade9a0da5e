use life_npv::rational::Rat;

#[test]
fn new_keeps_numerator_and_denominator() {
    let r = Rat::new(3, 4);
    assert_eq!(r.num, 3);
    assert_eq!(r.den, 4);
}

#[test]
fn from_int_is_a_whole_number() {
    let r = Rat::from_int(-7);
    assert_eq!(r.num, -7);
    assert_eq!(r.den, 1);
}

#[test]
fn zero_and_one() {
    assert_eq!(Rat::zero().num, 0);
    assert_eq!(Rat::zero().den, 1);
    assert_eq!(Rat::one().num, 1);
    assert_eq!(Rat::one().den, 1);
}

#[test]
fn add_exact() {
    let r = Rat::new(1, 2).checked_add(Rat::new(1, 3)).unwrap();
    assert_eq!(r.num, 5);
    assert_eq!(r.den, 6);
}

#[test]
fn add_reduces_to_lowest_terms() {
    let r = Rat::new(1, 4).checked_add(Rat::new(1, 4)).unwrap();
    assert_eq!(r.num, 1);
    assert_eq!(r.den, 2);
}

#[test]
fn sub_can_go_negative() {
    let r = Rat::new(1, 4).checked_sub(Rat::new(1, 2)).unwrap();
    assert_eq!(r.num, -1);
    assert_eq!(r.den, 4);
}

#[test]
fn mul_cross_reduces() {
    let r = Rat::new(2, 3).checked_mul(Rat::new(3, 4)).unwrap();
    assert_eq!(r.num, 1);
    assert_eq!(r.den, 2);
}

#[test]
fn neg_flips_the_sign() {
    let r = Rat::new(3, 4).neg();
    assert_eq!(r.num, -3);
    assert_eq!(r.den, 4);
}

#[test]
fn reduce_divides_out_common_factors() {
    let r = Rat::new(50, 100).reduce();
    assert_eq!(r.num, 1);
    assert_eq!(r.den, 2);
}

#[test]
fn recip_swaps_numerator_and_denominator() {
    let r = Rat::new(3, 4).recip().unwrap();
    assert_eq!(r.num, 4);
    assert_eq!(r.den, 3);
}

#[test]
fn recip_of_negative_keeps_denominator_positive() {
    let r = Rat::new(-3, 4).recip().unwrap();
    assert_eq!(r.num, -4);
    assert_eq!(r.den, 3);
}

#[test]
fn recip_of_zero_is_none() {
    assert!(Rat::zero().recip().is_none());
}

#[test]
fn mul_overflow_is_none() {
    let big = Rat::from_int(i64::MAX);
    // One squaring still fits in an i128; a further factor does not.
    let sq = big.checked_mul(big).unwrap();
    assert!(sq.checked_mul(big).is_none());
}

#[test]
fn add_overflow_is_none() {
    // The two denominators are coprime, so the common denominator would
    // exceed the representable range.
    let a = Rat::new(1, u64::MAX);
    let b = Rat::new(1, u64::MAX - 1);
    assert!(a.checked_add(b).is_none());
}
