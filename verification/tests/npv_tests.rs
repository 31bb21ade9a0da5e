use life_npv::npv;
use life_npv::projection::inforce_path;
use life_npv::rational::Rat;

fn sample_mortality() -> Vec<Rat> {
    vec![
        Rat::new(1, 1000),
        Rat::new(2, 1000),
        Rat::new(3, 1000),
        Rat::new(3, 1000),
        Rat::new(4, 1000),
        Rat::new(4, 1000),
        Rat::new(5, 1000),
        Rat::new(7, 1000),
        Rat::new(9, 1000),
        Rat::new(11, 1000),
    ]
}

fn sample_lapse() -> Vec<Rat> {
    vec![
        Rat::new(5, 100),
        Rat::new(7, 100),
        Rat::new(8, 100),
        Rat::new(10, 100),
        Rat::new(14, 100),
        Rat::new(20, 100),
        Rat::new(20, 100),
        Rat::new(20, 100),
        Rat::new(10, 100),
        Rat::new(4, 100),
    ]
}

fn as_f64(r: Rat) -> f64 {
    r.num as f64 / r.den as f64
}

#[test]
fn empty_schedule_returns_zero() {
    let empty: Vec<Rat> = vec![];
    let r = npv(
        &empty,
        &empty,
        Rat::new(2, 100),
        Rat::from_int(25000),
        Rat::from_int(100),
        Rat::one(),
        None,
    )
    .unwrap();
    assert_eq!(r.num, 0);
}

#[test]
fn empty_schedule_ignores_degenerate_interest() {
    // Even an interest rate of -1, for which no discount factor exists,
    // gives zero over an empty schedule.
    let empty: Vec<Rat> = vec![];
    let r = npv(
        &empty,
        &empty,
        Rat::from_int(-1),
        Rat::from_int(25000),
        Rat::from_int(100),
        Rat::one(),
        Some(10),
    )
    .unwrap();
    assert_eq!(r.num, 0);
}

#[test]
fn one_empty_schedule_is_enough_for_zero() {
    let empty: Vec<Rat> = vec![];
    let r = npv(
        &sample_mortality(),
        &empty,
        Rat::new(2, 100),
        Rat::from_int(25000),
        Rat::from_int(100),
        Rat::one(),
        None,
    )
    .unwrap();
    assert_eq!(r.num, 0);
}

#[test]
fn interest_of_minus_one_is_rejected() {
    let r = npv(
        &sample_mortality(),
        &sample_lapse(),
        Rat::from_int(-1),
        Rat::from_int(25000),
        Rat::from_int(100),
        Rat::one(),
        None,
    );
    assert!(r.is_none());
}

#[test]
fn zero_rates_give_a_discounted_annuity() {
    // Three years of zero decrements at 2% interest, premium 50 on 2
    // starting policies: 2 * 50 * (1 + v + v^2) with v = 50/51, which is
    // exactly 765100 / 2601.
    let zeros = vec![Rat::zero(), Rat::zero(), Rat::zero()];
    let r = npv(
        &zeros,
        &zeros,
        Rat::new(2, 100),
        Rat::from_int(25000),
        Rat::from_int(50),
        Rat::from_int(2),
        None,
    )
    .unwrap();
    assert_eq!(r.num, 765100);
    assert_eq!(r.den, 2601);
}

#[test]
fn zero_rates_keep_inforce_constant() {
    let zeros = vec![Rat::zero(), Rat::zero(), Rat::zero()];
    let path = inforce_path(&zeros, &zeros, Rat::from_int(2), None).unwrap();
    assert_eq!(path.len(), 4);
    for r in path {
        assert_eq!(r.num, 2);
        assert_eq!(r.den, 1);
    }
}

#[test]
fn inforce_decays_monotonically() {
    // Mortality 1/10 and lapse 1/5 each year: the in-force count is
    // multiplied by 7/10 each year and strictly falls.
    let q = vec![Rat::new(1, 10); 4];
    let w = vec![Rat::new(1, 5); 4];
    let path = inforce_path(&q, &w, Rat::one(), None).unwrap();
    let expected: [(i128, u128); 5] = [(1, 1), (7, 10), (49, 100), (343, 1000), (2401, 10000)];
    assert_eq!(path.len(), 5);
    for (r, (n, d)) in path.iter().zip(expected.iter()) {
        assert_eq!(r.num, *n);
        assert_eq!(r.den, *d);
    }
    // Non-increasing, compared as exact fractions.
    for pair in path.windows(2) {
        assert!(pair[1].num * pair[0].den as i128 <= pair[0].num * pair[1].den as i128);
    }
}

#[test]
fn term_cutoff_freezes_inforce() {
    let q = vec![Rat::new(1, 10); 4];
    let w = vec![Rat::new(1, 5); 4];
    let path = inforce_path(&q, &w, Rat::one(), Some(2)).unwrap();
    let expected: [(i128, u128); 5] = [(1, 1), (7, 10), (49, 100), (49, 100), (49, 100)];
    assert_eq!(path.len(), 5);
    for (r, (n, d)) in path.iter().zip(expected.iter()) {
        assert_eq!(r.num, *n);
        assert_eq!(r.den, *d);
    }
}

#[test]
fn term_none_equals_full_length_term() {
    let q = sample_mortality();
    let w = sample_lapse();
    let i = Rat::new(2, 100);
    let sa = Rat::from_int(25000);
    let p = Rat::from_int(100);
    let with_none = npv(&q, &w, i, sa, p, Rat::one(), None).unwrap();
    let with_len = npv(&q, &w, i, sa, p, Rat::one(), Some(10)).unwrap();
    assert_eq!(with_none.num, with_len.num);
    assert_eq!(with_none.den, with_len.den);
}

#[test]
fn concrete_scenario_reproduces_reference_value() {
    let r = npv(
        &sample_mortality(),
        &sample_lapse(),
        Rat::new(2, 100),
        Rat::from_int(25000),
        Rat::from_int(100),
        Rat::one(),
        Some(10),
    )
    .unwrap();
    assert_eq!(r.num, 17750488390500678712691i128);
    assert_eq!(r.den, 345802247865252000000u128);
    let reference: f64 = 51.33132737013754;
    assert!((as_f64(r) - reference).abs() / reference < 1e-9);
}

#[test]
fn term_zero_collects_undecremented_premiums() {
    // With a term of zero no decrement is ever applied, so the value is
    // a ten-year discounted annuity of premiums on one policy.
    let r = npv(
        &sample_mortality(),
        &sample_lapse(),
        Rat::new(2, 100),
        Rat::from_int(25000),
        Rat::from_int(100),
        Rat::one(),
        Some(0),
    )
    .unwrap();
    assert_eq!(r.num, 2138617382761300100i128);
    assert_eq!(r.den, 2334165173090451u128);
}

#[test]
fn schedules_truncate_to_the_shorter() {
    let q = sample_mortality();
    let w = sample_lapse();
    let long_q = vec![q[0], q[1], q[2]];
    let short_w = vec![w[0], w[1]];
    let trimmed_q = vec![q[0], q[1]];
    let i = Rat::new(2, 100);
    let sa = Rat::from_int(25000);
    let p = Rat::from_int(100);
    let a = npv(&long_q, &short_w, i, sa, p, Rat::one(), Some(3)).unwrap();
    let b = npv(&trimmed_q, &short_w, i, sa, p, Rat::one(), Some(3)).unwrap();
    assert_eq!(a.num, b.num);
    assert_eq!(a.den, b.den);
    assert_eq!(a.num, 12395);
    assert_eq!(a.den, 102);
}

#[test]
fn repeated_calls_return_identical_results() {
    let q = sample_mortality();
    let w = sample_lapse();
    let i = Rat::new(2, 100);
    let sa = Rat::from_int(25000);
    let p = Rat::from_int(100);
    let a = npv(&q, &w, i, sa, p, Rat::one(), None).unwrap();
    let b = npv(&q, &w, i, sa, p, Rat::one(), None).unwrap();
    assert_eq!(a.num, b.num);
    assert_eq!(a.den, b.den);
}

#[test]
fn npv_reports_exhausted_range_as_none() {
    // Coprime huge denominators force the in-force update onto a common
    // denominator beyond the representable range.
    let q = vec![Rat::new(1, u64::MAX)];
    let w = vec![Rat::new(1, u64::MAX - 1)];
    let r = npv(
        &q,
        &w,
        Rat::new(2, 100),
        Rat::from_int(25000),
        Rat::from_int(100),
        Rat::one(),
        None,
    );
    assert!(r.is_none());
}
