//! Exact rational arithmetic.
//!
//! The mathematical model is the type `Q`: a fraction of unbounded
//! integers with a positive denominator.  Two fractions are equal as
//! rational numbers when they cross-multiply to the same product, which
//! `q_eq` states; the arithmetic on `Q` is the textbook arithmetic on
//! pairs.
//!
//! The executable type is `Rat`: an `i128` numerator over a `u128`
//! denominator, kept inside the ranges that `Rat::wf` states.  Operations
//! reduce by greatest common divisors and check every machine operation,
//! returning `None` when a value would leave the representable range.
//! Each operation's contract ties the returned representation to the
//! model arithmetic on `Q` up to `q_eq`.

use vstd::arithmetic::div_mod::{
    lemma_div_pos_is_pos, lemma_fundamental_div_mod, lemma_fundamental_div_mod_converse_div,
    lemma_mod_multiples_basic, lemma_mod_self_0,
};
use vstd::prelude::*;

verus! {

/// A rational number as a pair of unbounded integers, `n / d`.
pub struct Q {
    pub n: int,
    pub d: int,
}

/// A well-formed fraction has a positive denominator.
pub open spec fn q_wf(a: Q) -> bool {
    a.d > 0
}

/// Equality of fractions as rational numbers: `a.n/a.d == b.n/b.d`.
pub open spec fn q_eq(a: Q, b: Q) -> bool {
    a.n * b.d == b.n * a.d
}

/// Order on fractions as rational numbers: `a.n/a.d <= b.n/b.d`,
/// meaningful when both are well formed.
pub open spec fn q_le(a: Q, b: Q) -> bool {
    a.n * b.d <= b.n * a.d
}

pub open spec fn q_zero() -> Q {
    Q { n: 0, d: 1 }
}

pub open spec fn q_one() -> Q {
    Q { n: 1, d: 1 }
}

pub open spec fn q_add(a: Q, b: Q) -> Q {
    Q { n: a.n * b.d + b.n * a.d, d: a.d * b.d }
}

pub open spec fn q_neg(a: Q) -> Q {
    Q { n: -a.n, d: a.d }
}

pub open spec fn q_sub(a: Q, b: Q) -> Q {
    q_add(a, q_neg(b))
}

pub open spec fn q_mul(a: Q, b: Q) -> Q {
    Q { n: a.n * b.n, d: a.d * b.d }
}

/// The reciprocal, with the sign moved into the numerator so that a
/// well-formed nonzero input gives a well-formed output.
pub open spec fn q_inv(a: Q) -> Q {
    if a.n >= 0 {
        Q { n: a.d, d: a.n }
    } else {
        Q { n: -a.d, d: -a.n }
    }
}

/// The greatest common divisor, by Euclid's recursion.
pub open spec fn spec_gcd(a: nat, b: nat) -> nat
    decreases b,
{
    if b == 0 {
        a
    } else {
        spec_gcd(b, a % b)
    }
}

pub open spec fn q_abs(n: int) -> int {
    if n >= 0 {
        n
    } else {
        -n
    }
}

/// The fraction in lowest terms: both parts divided by their greatest
/// common divisor.  This is the representation every `Rat` operation
/// returns, which makes the operations deterministic functions of their
/// arguments' representations.
pub open spec fn reduced_of(a: Q) -> Q {
    let g = spec_gcd(q_abs(a.n) as nat, a.d as nat) as int;
    Q { n: a.n / g, d: a.d / g }
}

pub open spec fn fits_i128(x: int) -> bool {
    i128::MIN <= x <= i128::MAX
}

/// The unreduced sum over the least common denominator, exactly as the
/// machine addition forms it before reducing.
pub open spec fn add_raw(a: Q, b: Q) -> Q {
    let g = spec_gcd(a.d as nat, b.d as nat) as int;
    Q { n: a.n * (b.d / g) + b.n * (a.d / g), d: a.d * (b.d / g) }
}

/// Whether every machine word formed while adding stays representable:
/// the two scaled numerators, their sum (which must also avoid the one
/// `i128` value whose negation overflows), and the common denominator.
pub open spec fn add_fits(a: Q, b: Q) -> bool {
    let g = spec_gcd(a.d as nat, b.d as nat) as int;
    let da = a.d / g;
    let db = b.d / g;
    &&& fits_i128(a.n * db)
    &&& fits_i128(b.n * da)
    &&& fits_i128(a.n * db + b.n * da)
    &&& a.n * db + b.n * da != i128::MIN
    &&& a.d * db <= i128::MAX
}

/// What `Rat::checked_add` returns, at the level of representations.
pub open spec fn spec_checked_add(a: Q, b: Q) -> Option<Q> {
    if add_fits(a, b) {
        Option::Some(reduced_of(add_raw(a, b)))
    } else {
        Option::None
    }
}

/// The cross-reduced product, exactly as the machine multiplication
/// forms it: each numerator is first reduced against the opposite
/// denominator.
pub open spec fn mul_raw(a: Q, b: Q) -> Q {
    let g1 = spec_gcd(q_abs(a.n) as nat, b.d as nat) as int;
    let g2 = spec_gcd(q_abs(b.n) as nat, a.d as nat) as int;
    let nm = (q_abs(a.n) / g1) * (q_abs(b.n) / g2);
    Q {
        n: if (a.n < 0) != (b.n < 0) {
            -nm
        } else {
            nm
        },
        d: (a.d / g2) * (b.d / g1),
    }
}

/// Whether the cross-reduced numerator and denominator magnitudes stay
/// representable.
pub open spec fn mul_fits(a: Q, b: Q) -> bool {
    let g1 = spec_gcd(q_abs(a.n) as nat, b.d as nat) as int;
    let g2 = spec_gcd(q_abs(b.n) as nat, a.d as nat) as int;
    &&& (q_abs(a.n) / g1) * (q_abs(b.n) / g2) <= i128::MAX
    &&& (a.d / g2) * (b.d / g1) <= i128::MAX
}

/// What `Rat::checked_mul` returns, at the level of representations.
pub open spec fn spec_checked_mul(a: Q, b: Q) -> Option<Q> {
    if mul_fits(a, b) {
        Option::Some(reduced_of(mul_raw(a, b)))
    } else {
        Option::None
    }
}

/// What `Rat::checked_sub` returns: the checked addition of the
/// negation.
pub open spec fn spec_checked_sub(a: Q, b: Q) -> Option<Q> {
    spec_checked_add(a, q_neg(b))
}

/// `q_eq` is transitive on well-formed fractions.
pub proof fn lemma_q_eq_trans(a: Q, b: Q, c: Q)
    by (nonlinear_arith)
    requires
        q_wf(a),
        q_wf(b),
        q_wf(c),
        q_eq(a, b),
        q_eq(b, c),
    ensures
        q_eq(a, c),
{
}

/// Product of two positives is positive.
proof fn lemma_pos_mul(x: int, y: int)
    by (nonlinear_arith)
    requires
        x > 0,
        y > 0,
    ensures
        x * y > 0,
{
}

proof fn lemma_assoc_raw(x: int, y: int, z: int)
    by (nonlinear_arith)
    ensures
        (x * y) * z == x * (y * z),
{
}

proof fn lemma_swap_raw(x: int, y: int, z: int)
    by (nonlinear_arith)
    ensures
        x * (y * z) == y * (x * z),
{
}

proof fn lemma_pull_raw(p: int, y: int, z: int)
    by (nonlinear_arith)
    ensures
        p * (y * z) == y * (p * z),
{
}

proof fn lemma_mul_sum_raw(x: int, p: int, q: int)
    by (nonlinear_arith)
    ensures
        x * (p + q) == x * p + x * q,
{
}

proof fn lemma_scale_raw(k: int, n: int, d: int)
    by (nonlinear_arith)
    ensures
        n * (k * d) == (k * n) * d,
{
}

proof fn lemma_neg_raw(x: int, y: int, u: int, v: int)
    by (nonlinear_arith)
    requires
        x * y == u * v,
    ensures
        (-x) * y == (-u) * v,
{
}

proof fn lemma_comm_raw(x: int, y: int)
    by (nonlinear_arith)
    ensures
        x * y == y * x,
{
}

proof fn lemma_rmul_sum_raw(p: int, q: int, x: int)
    by (nonlinear_arith)
    ensures
        (p + q) * x == p * x + q * x,
{
}

proof fn lemma_mul4a_raw(w: int, x: int, y: int, z: int)
    by (nonlinear_arith)
    ensures
        (w * x) * (y * z) == (w * y) * (x * z),
{
}

proof fn lemma_mul4b_raw(w: int, x: int, y: int, z: int)
    by (nonlinear_arith)
    ensures
        (w * x) * (y * z) == (w * z) * (x * y),
{
}

proof fn lemma_add_expand_a(an: int, ad: int, bn: int, bd: int, a2d: int, b2d: int)
    ensures
        (an * bd + bn * ad) * (a2d * b2d) == (an * a2d) * (bd * b2d) + (bn * b2d) * (ad * a2d),
{
    lemma_rmul_sum_raw(an * bd, bn * ad, a2d * b2d);
    lemma_mul4a_raw(an, bd, a2d, b2d);
    lemma_mul4b_raw(bn, ad, a2d, b2d);
}

proof fn lemma_add_expand_b(a2n: int, a2d: int, b2n: int, b2d: int, ad: int, bd: int)
    ensures
        (a2n * b2d + b2n * a2d) * (ad * bd) == (a2n * ad) * (bd * b2d) + (b2n * bd) * (ad * a2d),
{
    lemma_rmul_sum_raw(a2n * b2d, b2n * a2d, ad * bd);
    lemma_mul4a_raw(a2n, b2d, ad, bd);
    lemma_comm_raw(b2d, bd);
    lemma_mul4b_raw(b2n, a2d, ad, bd);
    lemma_comm_raw(a2d, ad);
}

proof fn lemma_add_cong_raw(
    an: int,
    ad: int,
    a2n: int,
    a2d: int,
    bn: int,
    bd: int,
    b2n: int,
    b2d: int,
)
    requires
        an * a2d == a2n * ad,
        bn * b2d == b2n * bd,
    ensures
        (an * bd + bn * ad) * (a2d * b2d) == (a2n * b2d + b2n * a2d) * (ad * bd),
{
    lemma_add_expand_a(an, ad, bn, bd, a2d, b2d);
    lemma_add_expand_b(a2n, a2d, b2n, b2d, ad, bd);
}

proof fn lemma_mul_cong_raw(
    an: int,
    ad: int,
    a2n: int,
    a2d: int,
    bn: int,
    bd: int,
    b2n: int,
    b2d: int,
)
    by (nonlinear_arith)
    requires
        an * a2d == a2n * ad,
        bn * b2d == b2n * bd,
    ensures
        (an * bn) * (a2d * b2d) == (a2n * b2n) * (ad * bd),
{
}

/// Addition respects rational equality.
pub proof fn lemma_q_add_congruence(a: Q, a2: Q, b: Q, b2: Q)
    requires
        q_wf(a),
        q_wf(a2),
        q_wf(b),
        q_wf(b2),
        q_eq(a, a2),
        q_eq(b, b2),
    ensures
        q_eq(q_add(a, b), q_add(a2, b2)),
        q_wf(q_add(a, b)),
{
    lemma_add_cong_raw(a.n, a.d, a2.n, a2.d, b.n, b.d, b2.n, b2.d);
    lemma_pos_mul(a.d, b.d);
}

/// Multiplication respects rational equality.
pub proof fn lemma_q_mul_congruence(a: Q, a2: Q, b: Q, b2: Q)
    requires
        q_wf(a),
        q_wf(a2),
        q_wf(b),
        q_wf(b2),
        q_eq(a, a2),
        q_eq(b, b2),
    ensures
        q_eq(q_mul(a, b), q_mul(a2, b2)),
        q_wf(q_mul(a, b)),
{
    lemma_mul_cong_raw(a.n, a.d, a2.n, a2.d, b.n, b.d, b2.n, b2.d);
    lemma_pos_mul(a.d, b.d);
}

/// Subtraction respects rational equality.
pub proof fn lemma_q_sub_congruence(a: Q, a2: Q, b: Q, b2: Q)
    requires
        q_wf(a),
        q_wf(a2),
        q_wf(b),
        q_wf(b2),
        q_eq(a, a2),
        q_eq(b, b2),
    ensures
        q_eq(q_sub(a, b), q_sub(a2, b2)),
        q_wf(q_sub(a, b)),
{
    lemma_neg_raw(b.n, b2.d, b2.n, b.d);
    lemma_add_cong_raw(a.n, a.d, a2.n, a2.d, -b.n, b.d, -b2.n, b2.d);
    lemma_pos_mul(a.d, b.d);
}

/// Sums of well-formed fractions are well formed.
pub proof fn lemma_q_add_wf(a: Q, b: Q)
    requires
        q_wf(a),
        q_wf(b),
    ensures
        q_wf(q_add(a, b)),
{
    lemma_pos_mul(a.d, b.d);
}

/// Differences of well-formed fractions are well formed.
pub proof fn lemma_q_sub_wf(a: Q, b: Q)
    requires
        q_wf(a),
        q_wf(b),
    ensures
        q_wf(q_sub(a, b)),
{
    lemma_pos_mul(a.d, b.d);
}

/// Products of well-formed fractions are well formed.
pub proof fn lemma_q_mul_wf(a: Q, b: Q)
    requires
        q_wf(a),
        q_wf(b),
    ensures
        q_wf(q_mul(a, b)),
{
    lemma_pos_mul(a.d, b.d);
}

/// Subtracting zero changes nothing, even representationally.
pub proof fn lemma_q_sub_zero(a: Q)
    ensures
        q_sub(a, q_zero()) == a,
{
    let z = q_neg(q_zero());
    assert(z.n == 0);
    assert(z.d == 1);
    lemma_mul_eq_raw(z.d, 1, a.n);
    lemma_mul_eq_raw(z.n, 0, a.d);
    lemma_mul_eq_raw(z.d, 1, a.d);
    assert(q_sub(a, q_zero()).n == a.n);
    assert(q_sub(a, q_zero()).d == a.d);
}

/// Adding a zero-valued fraction does not change the value.
pub proof fn lemma_q_add_zero_value(a: Q, z: Q)
    by (nonlinear_arith)
    requires
        q_wf(a),
        q_wf(z),
        z.n == 0,
    ensures
        q_eq(q_add(a, z), a),
        q_wf(q_add(a, z)),
{
}

/// Subtracting a zero-valued fraction does not change the value.
pub proof fn lemma_q_sub_zero_value(a: Q, z: Q)
    requires
        q_wf(a),
        q_wf(z),
        z.n == 0,
    ensures
        q_eq(q_sub(a, z), a),
        q_wf(q_sub(a, z)),
{
    lemma_q_add_zero_value(a, q_neg(z));
}

/// The reciprocal respects rational equality on nonzero values.
pub proof fn lemma_q_inv_congruence(a: Q, b: Q)
    by (nonlinear_arith)
    requires
        q_wf(a),
        q_wf(b),
        q_eq(a, b),
        a.n != 0,
    ensures
        b.n != 0,
        q_wf(q_inv(a)),
        q_wf(q_inv(b)),
        q_eq(q_inv(a), q_inv(b)),
{
}

/// Multiplying out a sum: `a * (b + c) == a * b + a * c` as rationals.
pub proof fn lemma_q_distrib(a: Q, b: Q, c: Q)
    requires
        q_wf(a),
        q_wf(b),
        q_wf(c),
    ensures
        q_eq(q_mul(a, q_add(b, c)), q_add(q_mul(a, b), q_mul(a, c))),
{
    let lhs = q_mul(a, q_add(b, c));
    let rhs = q_add(q_mul(a, b), q_mul(a, c));
    // Both numerators and denominators are the same monomials up to a
    // shared factor a.d in rhs.
    let n0 = (a.n * b.n) * c.d + (a.n * c.n) * b.d;
    let d0 = b.d * (a.d * c.d);
    lemma_mul_sum_raw(a.n, b.n * c.d, c.n * b.d);
    lemma_assoc_raw(a.n, b.n, c.d);
    lemma_assoc_raw(a.n, c.n, b.d);
    lemma_swap_raw(a.d, b.d, c.d);
    assert(lhs.n == n0);
    assert(lhs.d == d0);
    lemma_pull_raw(a.n * b.n, a.d, c.d);
    lemma_pull_raw(a.n * c.n, a.d, b.d);
    lemma_mul_sum_raw(a.d, (a.n * b.n) * c.d, (a.n * c.n) * b.d);
    assert(rhs.n == a.d * n0);
    lemma_assoc_raw(a.d, b.d, a.d * c.d);
    lemma_swap_raw(b.d, a.d, c.d);
    assert(rhs.d == a.d * d0);
    lemma_scale_raw(a.d, n0, d0);
    assert(n0 * rhs.d == rhs.n * d0);
}

proof fn lemma_mul_ge_raw(g: int, q: int)
    by (nonlinear_arith)
    requires
        g >= 1,
        q >= 0,
    ensures
        g * q >= q,
{
}

/// An exact division: when `g` divides `x`, the quotient recovers `x` as
/// a product and never exceeds `x`.
proof fn lemma_exact_div(x: int, g: int)
    requires
        g > 0,
        x >= 0,
        x % g == 0,
    ensures
        x == g * (x / g),
        0 <= x / g <= x,
        x > 0 ==> x / g >= 1,
{
    lemma_fundamental_div_mod(x, g);
    lemma_div_pos_is_pos(x, g);
    lemma_mul_ge_raw(g, x / g);
    if x > 0 && x / g == 0 {
        assert(x == g * 0 + x % g);
    }
}

proof fn lemma_add_red_t1(x: int, y: int, g: int, w: int)
    by (nonlinear_arith)
    ensures
        (x * y) * ((g * w) * (g * y)) == (x * (g * y)) * ((g * w) * y),
{
}

proof fn lemma_add_red_t2(x: int, y: int, g: int, w: int)
    by (nonlinear_arith)
    ensures
        (x * y) * ((g * y) * (g * w)) == (x * (g * y)) * ((g * y) * w),
{
}

proof fn lemma_add_reduce_raw(an: int, bn: int, g: int, da: int, db: int)
    ensures
        (an * db + bn * da) * ((g * da) * (g * db)) == (an * (g * db) + bn * (g * da)) * ((g * da)
            * db),
{
    lemma_rmul_sum_raw(an * db, bn * da, (g * da) * (g * db));
    lemma_rmul_sum_raw(an * (g * db), bn * (g * da), (g * da) * db);
    lemma_add_red_t1(an, db, g, da);
    lemma_add_red_t2(bn, da, g, db);
}

proof fn lemma_mul_eq_raw(x: int, y: int, z: int)
    by (nonlinear_arith)
    requires
        x == y,
    ensures
        z * x == z * y,
{
}

proof fn lemma_mul_eq2_raw(x1: int, y1: int, x2: int, y2: int)
    by (nonlinear_arith)
    requires
        x1 == y1,
        x2 == y2,
    ensures
        x1 * x2 == y1 * y2,
{
}

proof fn lemma_mul_reduce_raw(ma2: int, mb2: int, da2: int, db2: int, g1: int, g2: int)
    ensures
        (ma2 * mb2) * ((g2 * da2) * (g1 * db2)) == ((g1 * ma2) * (g2 * mb2)) * (da2 * db2),
{
    lemma_mul4a_raw(g1, ma2, g2, mb2);
    lemma_assoc_raw(g1 * g2, ma2 * mb2, da2 * db2);
    lemma_mul4a_raw(g2, da2, g1, db2);
    lemma_comm_raw(g2, g1);
    lemma_swap_raw(ma2 * mb2, g1 * g2, da2 * db2);
}

proof fn lemma_nonneg_mul_raw(x: int, y: int)
    by (nonlinear_arith)
    requires
        x >= 0,
        y >= 0,
    ensures
        x * y >= 0,
{
}

proof fn lemma_neg_mul_raw(x: int, y: int)
    by (nonlinear_arith)
    ensures
        (-x) * y == -(x * y),
{
}

proof fn lemma_mul_sub_raw(x: int, p: int, q: int, r: int)
    by (nonlinear_arith)
    ensures
        x * (p - (q + r)) == x * p - (x * q + x * r),
{
}

proof fn lemma_decrement_factor_raw(an: int, ad: int, qn: int, qd: int, wn: int, wd: int)
    ensures
        (an * (ad * qd) + (-(an * qn)) * ad) * (ad * wd) + (-(an * wn)) * (ad * (ad * qd)) == (an
            * (ad * ad)) * ((qd * wd) - (qn * wd + wn * qd)),
{
    let s = an * (ad * ad);
    lemma_rmul_sum_raw(an * (ad * qd), (-(an * qn)) * ad, ad * wd);
    // first summand
    lemma_assoc_raw(an, ad * qd, ad * wd);
    lemma_mul4a_raw(ad, qd, ad, wd);
    lemma_assoc_raw(an, ad * ad, qd * wd);
    assert((an * (ad * qd)) * (ad * wd) == s * (qd * wd));
    // second summand
    lemma_neg_mul_raw(an * qn, ad);
    lemma_neg_mul_raw((an * qn) * ad, ad * wd);
    lemma_assoc_raw(an * qn, ad, ad * wd);
    lemma_assoc_raw(ad, ad, wd);
    lemma_mul4a_raw(an, qn, ad * ad, wd);
    assert(((-(an * qn)) * ad) * (ad * wd) == -(s * (qn * wd)));
    // third summand
    lemma_neg_mul_raw(an * wn, ad * (ad * qd));
    lemma_assoc_raw(ad, ad, qd);
    lemma_mul4a_raw(an, wn, ad * ad, qd);
    assert((-(an * wn)) * (ad * (ad * qd)) == -(s * (wn * qd)));
    // right-hand side
    lemma_mul_sub_raw(s, qd * wd, qn * wd, wn * qd);
}

/// The order is transitive on well-formed fractions.
pub proof fn lemma_q_le_trans(a: Q, b: Q, c: Q)
    by (nonlinear_arith)
    requires
        q_wf(a),
        q_wf(b),
        q_wf(c),
        q_le(a, b),
        q_le(b, c),
    ensures
        q_le(a, c),
{
}

/// A product of non-negative fractions is non-negative.
pub proof fn lemma_q_mul_nonneg(a: Q, b: Q)
    requires
        q_wf(a),
        q_wf(b),
        q_le(q_zero(), a),
        q_le(q_zero(), b),
    ensures
        q_le(q_zero(), q_mul(a, b)),
{
    lemma_nonneg_mul_raw(a.n, b.n);
}

/// Subtracting a non-negative fraction cannot increase the value.
pub proof fn lemma_q_sub_le(a: Q, b: Q)
    by (nonlinear_arith)
    requires
        q_wf(a),
        q_wf(b),
        q_le(q_zero(), b),
    ensures
        q_le(q_sub(a, b), a),
{
}

/// One decrement year keeps a non-negative count non-negative when the
/// rates are non-negative and together at most one.
pub proof fn lemma_q_decrement_nonneg(a: Q, qv: Q, wv: Q)
    requires
        q_wf(a),
        q_wf(qv),
        q_wf(wv),
        q_le(q_zero(), a),
        q_le(q_zero(), qv),
        q_le(q_zero(), wv),
        q_le(q_add(qv, wv), q_one()),
    ensures
        q_le(q_zero(), q_sub(q_sub(a, q_mul(a, qv)), q_mul(a, wv))),
{
    let f = q_sub(q_sub(a, q_mul(a, qv)), q_mul(a, wv));
    assert(f.n == (a.n * (a.d * qv.d) + (-(a.n * qv.n)) * a.d) * (a.d * wv.d) + (-(a.n * wv.n)) * (
    a.d * (a.d * qv.d)));
    lemma_decrement_factor_raw(a.n, a.d, qv.n, qv.d, wv.n, wv.d);
    lemma_nonneg_mul_raw(a.d, a.d);
    lemma_nonneg_mul_raw(a.n, a.d * a.d);
    lemma_nonneg_mul_raw(a.n * (a.d * a.d), (qv.d * wv.d) - (qv.n * wv.d + wv.n * qv.d));
}

/// An exact rational number held in machine words.
#[derive(Clone, Copy, Debug)]
pub struct Rat {
    pub num: i128,
    pub den: u128,
}

impl View for Rat {
    type V = Q;

    open spec fn view(&self) -> Q {
        Q { n: self.num as int, d: self.den as int }
    }
}

impl DeepView for Rat {
    type V = Q;

    open spec fn deep_view(&self) -> Q {
        self.view()
    }
}

impl Rat {
    /// The representation invariant: a positive denominator, and both
    /// words within the symmetric range where negation cannot overflow.
    pub open spec fn wf(self) -> bool {
        &&& 0 < self.den as int
        &&& self.den as int <= i128::MAX as int
        &&& -(i128::MAX as int) <= self.num as int
    }

    /// Builds the fraction `num / den`.
    pub fn new(num: i64, den: u64) -> (r: Rat)
        requires
            den > 0,
        ensures
            r.wf(),
            r@ == (Q { n: num as int, d: den as int }),
    {
        Rat { num: num as i128, den: den as u128 }
    }

    /// The whole number `n`.
    pub fn from_int(n: i64) -> (r: Rat)
        ensures
            r.wf(),
            r@ == (Q { n: n as int, d: 1 }),
    {
        Rat { num: n as i128, den: 1 }
    }

    pub fn zero() -> (r: Rat)
        ensures
            r.wf(),
            r@ == q_zero(),
    {
        Rat { num: 0, den: 1 }
    }

    pub fn one() -> (r: Rat)
        ensures
            r.wf(),
            r@ == q_one(),
    {
        Rat { num: 1, den: 1 }
    }

    /// The additive inverse; exact, and total on well-formed inputs.
    pub fn neg(self) -> (r: Rat)
        requires
            self.wf(),
        ensures
            r.wf(),
            r@ == q_neg(self@),
    {
        Rat { num: -self.num, den: self.den }
    }

    /// Divides numerator and denominator by their greatest common
    /// divisor.  The value is unchanged and the result is the lowest-term
    /// representation `reduced_of`; the representation can only shrink,
    /// so this never overflows.
    pub fn reduce(self) -> (r: Rat)
        requires
            self.wf(),
        ensures
            r.wf(),
            q_eq(r@, self@),
            r@ == reduced_of(self@),
    {
        let m: u128 = if self.num >= 0 {
            self.num as u128
        } else {
            (-self.num) as u128
        };
        let g: u128 = gcd_u(m, self.den);
        let m2: u128 = m / g;
        let d2: u128 = self.den / g;
        proof {
            lemma_exact_div(m as int, g as int);
            lemma_exact_div(self.den as int, g as int);
            lemma_scale_raw(g as int, m2 as int, d2 as int);
            assert(m as int == q_abs(self@.n));
            if self.num < 0 {
                lemma_neg_raw(m2 as int, self.den as int, m as int, d2 as int);
                // The signed quotient of an exact division is the negated
                // magnitude quotient.
                lemma_neg_mul_raw(m2 as int, g as int);
                lemma_comm_raw(m2 as int, g as int);
                assert(self@.n == (-(m2 as int)) * (g as int) + 0);
                lemma_fundamental_div_mod_converse_div(self@.n, g as int, -(m2 as int), 0);
            }
        }
        let n2: i128 = if self.num >= 0 {
            m2 as i128
        } else {
            -(m2 as i128)
        };
        Rat { num: n2, den: d2 }
    }

    /// Exact rational addition.  The result is `None` exactly when a
    /// machine word formed along the way would leave the representable
    /// range (`add_fits`); otherwise it is the sum in lowest terms, a
    /// function of the two representations alone.
    pub fn checked_add(self, other: Rat) -> (r: Option<Rat>)
        requires
            self.wf(),
            other.wf(),
        ensures
            r is Some <==> spec_checked_add(self@, other@) is Some,
            r matches Some(x) ==> Some(x@) == spec_checked_add(self@, other@) && x.wf() && q_eq(
                x@,
                q_add(self@, other@),
            ),
    {
        let g: u128 = gcd_u(self.den, other.den);
        let da: u128 = self.den / g;
        let db: u128 = other.den / g;
        proof {
            lemma_exact_div(self.den as int, g as int);
            lemma_exact_div(other.den as int, g as int);
        }
        let x: i128 = match self.num.checked_mul(db as i128) {
            Some(v) => v,
            None => return None,
        };
        let y: i128 = match other.num.checked_mul(da as i128) {
            Some(v) => v,
            None => return None,
        };
        let n: i128 = match x.checked_add(y) {
            Some(v) => v,
            None => return None,
        };
        if n == i128::MIN {
            return None;
        }
        let d: u128 = match self.den.checked_mul(db) {
            Some(v) => v,
            None => return None,
        };
        if d > i128::MAX as u128 {
            return None;
        }
        let combined = Rat { num: n, den: d };
        proof {
            lemma_pos_mul(self.den as int, db as int);
            lemma_add_reduce_raw(
                self.num as int,
                other.num as int,
                g as int,
                da as int,
                db as int,
            );
            assert(q_eq(combined@, q_add(self@, other@)));
            assert(combined@ == add_raw(self@, other@));
            assert(add_fits(self@, other@));
        }
        let reduced = combined.reduce();
        proof {
            lemma_pos_mul(self@.d, other@.d);
            lemma_q_eq_trans(reduced@, combined@, q_add(self@, other@));
        }
        Some(reduced)
    }

    /// Exact rational multiplication.  Numerators are first reduced
    /// against the opposite denominators, which keeps intermediate
    /// products small; the result is `None` exactly when the reduced
    /// numerator or denominator magnitude would still not fit
    /// (`mul_fits`), and otherwise the product in lowest terms.
    pub fn checked_mul(self, other: Rat) -> (r: Option<Rat>)
        requires
            self.wf(),
            other.wf(),
        ensures
            r is Some <==> spec_checked_mul(self@, other@) is Some,
            r matches Some(x) ==> Some(x@) == spec_checked_mul(self@, other@) && x.wf() && q_eq(
                x@,
                q_mul(self@, other@),
            ),
    {
        let ma: u128 = if self.num >= 0 {
            self.num as u128
        } else {
            (-self.num) as u128
        };
        let mb: u128 = if other.num >= 0 {
            other.num as u128
        } else {
            (-other.num) as u128
        };
        let g1: u128 = gcd_u(ma, other.den);
        let g2: u128 = gcd_u(mb, self.den);
        let ma2: u128 = ma / g1;
        let mb2: u128 = mb / g2;
        let da2: u128 = self.den / g2;
        let db2: u128 = other.den / g1;
        proof {
            lemma_exact_div(ma as int, g1 as int);
            lemma_exact_div(mb as int, g2 as int);
            lemma_exact_div(self.den as int, g2 as int);
            lemma_exact_div(other.den as int, g1 as int);
        }
        let nm: u128 = match ma2.checked_mul(mb2) {
            Some(v) => v,
            None => return None,
        };
        if nm > i128::MAX as u128 {
            return None;
        }
        let d: u128 = match da2.checked_mul(db2) {
            Some(v) => v,
            None => return None,
        };
        if d > i128::MAX as u128 {
            return None;
        }
        let negative: bool = (self.num < 0) != (other.num < 0);
        let n: i128 = if negative {
            -(nm as i128)
        } else {
            nm as i128
        };
        let combined = Rat { num: n, den: d };
        proof {
            let sa: int = if self.num < 0 { -1 } else { 1 };
            let sb: int = if other.num < 0 { -1 } else { 1 };
            let mai = ma as int;
            let mbi = mb as int;
            let ma2i = ma2 as int;
            let mb2i = mb2 as int;
            let da2i = da2 as int;
            let db2i = db2 as int;
            let g1i = g1 as int;
            let g2i = g2 as int;
            lemma_pos_mul(da2i, db2i);
            assert(combined@.d == da2i * db2i);
            if negative {
                assert(sa * sb == -1);
                assert(combined@.n == -(ma2i * mb2i));
            } else {
                assert(sa * sb == 1);
                assert(combined@.n == ma2i * mb2i);
            }
            assert(combined@.n == (sa * sb) * (ma2i * mb2i));
            assert(self@.n == sa * mai);
            assert(other@.n == sb * mbi);
            // Left side of the cross-multiplied equality.
            lemma_mul_eq2_raw(self@.d, g2i * da2i, other@.d, g1i * db2i);
            lemma_mul_eq2_raw(
                combined@.n,
                (sa * sb) * (ma2i * mb2i),
                self@.d * other@.d,
                (g2i * da2i) * (g1i * db2i),
            );
            lemma_assoc_raw(sa * sb, ma2i * mb2i, (g2i * da2i) * (g1i * db2i));
            lemma_mul_reduce_raw(ma2i, mb2i, da2i, db2i, g1i, g2i);
            lemma_mul_eq_raw(
                (ma2i * mb2i) * ((g2i * da2i) * (g1i * db2i)),
                ((g1i * ma2i) * (g2i * mb2i)) * (da2i * db2i),
                sa * sb,
            );
            // Right side.
            lemma_mul_eq2_raw(self@.n, sa * mai, other@.n, sb * mbi);
            lemma_mul4a_raw(sa, mai, sb, mbi);
            lemma_mul_eq2_raw(mai, g1i * ma2i, mbi, g2i * mb2i);
            lemma_mul_eq_raw(mai * mbi, (g1i * ma2i) * (g2i * mb2i), sa * sb);
            lemma_mul_eq2_raw(
                self@.n * other@.n,
                (sa * sb) * ((g1i * ma2i) * (g2i * mb2i)),
                combined@.d,
                da2i * db2i,
            );
            lemma_assoc_raw(sa * sb, (g1i * ma2i) * (g2i * mb2i), da2i * db2i);
            assert(q_eq(combined@, q_mul(self@, other@)));
            assert(mai == q_abs(self@.n));
            assert(mbi == q_abs(other@.n));
            assert(combined@ == mul_raw(self@, other@));
            assert(mul_fits(self@, other@));
        }
        let reduced = combined.reduce();
        proof {
            lemma_pos_mul(self@.d, other@.d);
            lemma_q_eq_trans(reduced@, combined@, q_mul(self@, other@));
        }
        Some(reduced)
    }

    /// Exact rational subtraction: the checked addition of the negation,
    /// with the same exact success characterization.
    pub fn checked_sub(self, other: Rat) -> (r: Option<Rat>)
        requires
            self.wf(),
            other.wf(),
        ensures
            r is Some <==> spec_checked_sub(self@, other@) is Some,
            r matches Some(x) ==> Some(x@) == spec_checked_sub(self@, other@) && x.wf() && q_eq(
                x@,
                q_sub(self@, other@),
            ),
    {
        self.checked_add(other.neg())
    }

    /// The reciprocal; `None` exactly when the value is zero.
    pub fn recip(self) -> (r: Option<Rat>)
        requires
            self.wf(),
        ensures
            self@.n == 0 <==> r is None,
            r matches Some(x) ==> x.wf() && x@ == q_inv(self@),
    {
        if self.num == 0 {
            None
        } else if self.num > 0 {
            Some(Rat { num: self.den as i128, den: self.num as u128 })
        } else {
            Some(Rat { num: -(self.den as i128), den: (-self.num) as u128 })
        }
    }
}

/// The greatest common divisor by Euclid's algorithm.  The contract only
/// states what the callers need: the result is positive and divides both
/// arguments.
fn gcd_u(a: u128, b: u128) -> (g: u128)
    requires
        b > 0,
    ensures
        g > 0,
        a as int % g as int == 0,
        b as int % g as int == 0,
        g as nat == spec_gcd(a as nat, b as nat),
{
    let mut x: u128 = a;
    let mut y: u128 = b;
    while y != 0
        invariant
            x != 0 || y != 0,
            spec_gcd(x as nat, y as nat) == spec_gcd(a as nat, b as nat),
            forall|c: int|
                1 <= c && #[trigger] (x as int % c) == 0 && y as int % c == 0 ==> a as int % c == 0
                    && b as int % c == 0,
        decreases y,
    {
        let t: u128 = x % y;
        proof {
            assert(spec_gcd(x as nat, y as nat) == spec_gcd(y as nat, t as nat));
        }
        proof {
            let xi = x as int;
            let yi = y as int;
            let ti = t as int;
            assert forall|c: int| 1 <= c && #[trigger] (yi % c) == 0 && ti % c == 0 implies xi % c
                == 0 by {
                lemma_fundamental_div_mod(xi, yi);
                lemma_fundamental_div_mod(yi, c);
                lemma_fundamental_div_mod(ti, c);
                assert(xi == c * ((yi / c) * (xi / yi) + ti / c)) by (nonlinear_arith)
                    requires
                        yi != 0,
                        xi == yi * (xi / yi) + ti,
                        yi == c * (yi / c),
                        ti == c * (ti / c),
                ;
                lemma_mod_multiples_basic((yi / c) * (xi / yi) + ti / c, c);
            }
        }
        x = y;
        y = t;
    }
    proof {
        lemma_mod_self_0(x as int);
        assert(0int % x as int == 0);
    }
    x
}

} // verus!
