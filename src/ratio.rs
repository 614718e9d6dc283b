//! Exact rational arithmetic on `num::BigRational`, and its mathematical model.
//!
//! A `BigRational` is seen by the proofs through `frac_of`: the numerator and
//! denominator it holds, as a `Frac`. Every value this library makes has a
//! positive denominator (`is_normal`); two values are the same number when
//! `Frac::eqv` holds, whatever their representations.
use vstd::prelude::*;
use num::rational::Ratio;
use num::traits::Signed;
use num::traits::{One, Zero};
use num::{BigInt, BigRational};

verus! {

#[verifier::external_type_specification]
#[verifier::external_body]
#[verifier::reject_recursive_types(T)]
pub struct ExRatio<T>(Ratio<T>);

#[verifier::external_type_specification]
#[verifier::external_body]
pub struct ExBigInt(BigInt);

/// A rational number written as `num / den`.
pub struct Frac {
    pub num: int,
    pub den: int,
}

impl Frac {
    pub open spec fn valid(self) -> bool {
        self.den > 0
    }

    pub open spec fn of_int(n: int) -> Frac {
        Frac { num: n, den: 1 }
    }

    pub open spec fn zero() -> Frac {
        Frac::of_int(0)
    }

    pub open spec fn one() -> Frac {
        Frac::of_int(1)
    }

    /// The same number.
    pub open spec fn eqv(self, o: Frac) -> bool {
        self.num * o.den == o.num * self.den
    }

    pub open spec fn lt(self, o: Frac) -> bool {
        self.num * o.den < o.num * self.den
    }

    pub open spec fn le(self, o: Frac) -> bool {
        self.num * o.den <= o.num * self.den
    }

    pub open spec fn is_zero(self) -> bool {
        self.num == 0
    }

    pub open spec fn is_neg(self) -> bool {
        self.num < 0
    }

    pub open spec fn is_pos(self) -> bool {
        self.num > 0
    }

    pub open spec fn neg(self) -> Frac {
        Frac { num: -self.num, den: self.den }
    }

    pub open spec fn abs(self) -> Frac {
        if self.num < 0 {
            self.neg()
        } else {
            self
        }
    }

    pub open spec fn plus(self, o: Frac) -> Frac {
        Frac { num: self.num * o.den + o.num * self.den, den: self.den * o.den }
    }

    pub open spec fn minus(self, o: Frac) -> Frac {
        Frac { num: self.num * o.den - o.num * self.den, den: self.den * o.den }
    }

    pub open spec fn times(self, o: Frac) -> Frac {
        Frac { num: self.num * o.num, den: self.den * o.den }
    }

    /// `self / o`, for `o` not zero; the denominator keeps its sign positive.
    pub open spec fn over(self, o: Frac) -> Frac {
        if o.num < 0 {
            Frac { num: -(self.num * o.den), den: -(self.den * o.num) }
        } else {
            Frac { num: self.num * o.den, den: self.den * o.num }
        }
    }
}

/// The numerator and the denominator that a `BigRational` holds
/// (`Ratio::numer`, `Ratio::denom`).
pub uninterp spec fn ratio_parts(r: BigRational) -> (int, int);

/// The number that `r` holds.
pub open spec fn frac_of(r: BigRational) -> Frac {
    Frac { num: ratio_parts(r).0, den: ratio_parts(r).1 }
}

/// `r` has a positive denominator, as every `Ratio` made by `num`'s constructors
/// and operators has.
pub open spec fn is_normal(r: BigRational) -> bool {
    ratio_parts(r).1 > 0
}

/// Relies on `Zero::zero` for `Ratio`, which is `0 / 1`.
#[verifier::external_body]
pub(crate) fn rat_zero() -> (r: BigRational)
    ensures
        ratio_parts(r) == (0int, 1int),
{
    BigRational::zero()
}

/// Relies on `One::one` for `Ratio`, which is `1 / 1`.
#[verifier::external_body]
pub(crate) fn rat_one() -> (r: BigRational)
    ensures
        ratio_parts(r) == (1int, 1int),
{
    BigRational::one()
}

/// Relies on `Ratio::from_integer`, which is `n / 1`.
#[verifier::external_body]
pub(crate) fn rat_from_u64(n: u64) -> (r: BigRational)
    ensures
        ratio_parts(r) == (n as int, 1int),
{
    BigRational::from_integer(BigInt::from(n))
}

/// Relies on `Clone` for `Ratio`, which copies the numerator and the denominator.
#[verifier::external_body]
pub(crate) fn rat_clone(a: &BigRational) -> (r: BigRational)
    ensures
        ratio_parts(r) == ratio_parts(*a),
{
    a.clone()
}

/// Relies on `Add for &Ratio`: the exact sum, reduced by `Ratio::new` to a
/// positive denominator.
#[verifier::external_body]
pub(crate) fn rat_add(a: &BigRational, b: &BigRational) -> (r: BigRational)
    requires
        is_normal(*a),
        is_normal(*b),
    ensures
        is_normal(r),
        frac_of(r).eqv(frac_of(*a).plus(frac_of(*b))),
{
    a + b
}

/// Relies on `Sub for &Ratio`: the exact difference, reduced by `Ratio::new` to a
/// positive denominator.
#[verifier::external_body]
pub(crate) fn rat_sub(a: &BigRational, b: &BigRational) -> (r: BigRational)
    requires
        is_normal(*a),
        is_normal(*b),
    ensures
        is_normal(r),
        frac_of(r).eqv(frac_of(*a).minus(frac_of(*b))),
{
    a - b
}

/// Relies on `Mul for &Ratio`: the exact product, reduced by `Ratio::new` to a
/// positive denominator.
#[verifier::external_body]
pub(crate) fn rat_mul(a: &BigRational, b: &BigRational) -> (r: BigRational)
    requires
        is_normal(*a),
        is_normal(*b),
    ensures
        is_normal(r),
        frac_of(r).eqv(frac_of(*a).times(frac_of(*b))),
{
    a * b
}

/// Relies on `Div for &Ratio`: the exact quotient, reduced by `Ratio::new` to a
/// positive denominator. It panics on a zero divisor, which is left out.
#[verifier::external_body]
pub(crate) fn rat_div(a: &BigRational, b: &BigRational) -> (r: BigRational)
    requires
        is_normal(*a),
        is_normal(*b),
        !frac_of(*b).is_zero(),
    ensures
        is_normal(r),
        frac_of(r).eqv(frac_of(*a).over(frac_of(*b))),
{
    a / b
}

/// Relies on `Signed::abs` for `Ratio`: the numerator's sign is dropped, the
/// denominator kept.
#[verifier::external_body]
pub(crate) fn rat_abs(a: &BigRational) -> (r: BigRational)
    requires
        is_normal(*a),
    ensures
        ratio_parts(r) == (frac_of(*a).abs().num, frac_of(*a).abs().den),
{
    a.abs()
}

/// Relies on `PartialOrd::lt` for `Ratio`, which compares the numbers held.
#[verifier::external_body]
pub(crate) fn rat_lt(a: &BigRational, b: &BigRational) -> (r: bool)
    requires
        is_normal(*a),
        is_normal(*b),
    ensures
        r == frac_of(*a).lt(frac_of(*b)),
{
    a < b
}

/// Relies on `PartialOrd::le` for `Ratio`, which compares the numbers held.
#[verifier::external_body]
pub(crate) fn rat_le(a: &BigRational, b: &BigRational) -> (r: bool)
    requires
        is_normal(*a),
        is_normal(*b),
    ensures
        r == frac_of(*a).le(frac_of(*b)),
{
    a <= b
}

/// Relies on `PartialEq::eq` for `Ratio`, which compares the numbers held.
#[verifier::external_body]
pub(crate) fn rat_eq(a: &BigRational, b: &BigRational) -> (r: bool)
    requires
        is_normal(*a),
        is_normal(*b),
    ensures
        r == frac_of(*a).eqv(frac_of(*b)),
{
    a == b
}

// Facts about `Frac`. A value is valid when its denominator is positive; the
// operations keep validity, and `eqv` is an equivalence that they respect.

pub proof fn lemma_valid_ops(a: Frac, b: Frac)
    requires
        a.valid(),
        b.valid(),
    ensures
        a.plus(b).valid(),
        a.minus(b).valid(),
        a.times(b).valid(),
        a.neg().valid(),
        a.abs().valid(),
        !b.is_zero() ==> a.over(b).valid(),
{
    assert(a.den * b.den > 0) by (nonlinear_arith)
        requires
            a.den > 0,
            b.den > 0,
    ;
    if b.num < 0 {
        assert(-(a.den * b.num) > 0) by (nonlinear_arith)
            requires
                a.den > 0,
                b.num < 0,
        ;
    } else if b.num > 0 {
        assert(a.den * b.num > 0) by (nonlinear_arith)
            requires
                a.den > 0,
                b.num > 0,
        ;
    }
}

pub proof fn lemma_eqv_refl(a: Frac)
    ensures
        a.eqv(a),
{
}

pub proof fn lemma_eqv_sym(a: Frac, b: Frac)
    ensures
        a.eqv(b) == b.eqv(a),
{
}

pub proof fn lemma_eqv_trans(a: Frac, b: Frac, c: Frac)
    requires
        b.valid(),
        a.eqv(b),
        b.eqv(c),
    ensures
        a.eqv(c),
{
    assert(a.num * c.den * b.den == c.num * a.den * b.den) by (nonlinear_arith)
        requires
            a.num * b.den == b.num * a.den,
            b.num * c.den == c.num * b.den,
    ;
    assert(a.num * c.den == c.num * a.den) by (nonlinear_arith)
        requires
            a.num * c.den * b.den == c.num * a.den * b.den,
            b.den > 0,
    ;
}

/// Zero and the signs are kept by `eqv`.
pub proof fn lemma_eqv_sign(a: Frac, b: Frac)
    requires
        a.valid(),
        b.valid(),
        a.eqv(b),
    ensures
        a.is_zero() == b.is_zero(),
        a.is_neg() == b.is_neg(),
        a.is_pos() == b.is_pos(),
{
    assert((a.num > 0) == (b.num > 0) && (a.num < 0) == (b.num < 0)) by (nonlinear_arith)
        requires
            a.num * b.den == b.num * a.den,
            a.den > 0,
            b.den > 0,
    ;
}

/// Regrouping a product of four factors.
pub proof fn lemma_mul4(w: int, x: int, y: int, z: int)
    ensures
        (w * x) * (y * z) == (w * y) * (x * z),
        (w * x) * (y * z) == (w * z) * (x * y),
        (w * x) * (y * z) == (w * z) * (y * x),
{
    assert((w * x) * (y * z) == (w * y) * (x * z)) by (nonlinear_arith);
    assert((w * x) * (y * z) == (w * z) * (x * y)) by (nonlinear_arith);
    assert((w * x) * (y * z) == (w * z) * (y * x)) by (nonlinear_arith);
}

/// The two cross products of `eqv` survive a change of both operands.
proof fn lemma_cross_terms(a: Frac, a2: Frac, b: Frac, b2: Frac)
    requires
        a.eqv(a2),
        b.eqv(b2),
    ensures
        (a.num * b.den) * (a2.den * b2.den) == (a2.num * b2.den) * (a.den * b.den),
        (b.num * a.den) * (a2.den * b2.den) == (b2.num * a2.den) * (a.den * b.den),
{
    lemma_mul4(a.num, b.den, a2.den, b2.den);
    lemma_mul4(a2.num, a.den, b.den, b2.den);
    lemma_mul4(b.num, a.den, a2.den, b2.den);
    lemma_mul4(b2.num, b.den, a.den, a2.den);
    lemma_mul4(b2.num, a2.den, a.den, b.den);
    assert((a.num * a2.den) * (b.den * b2.den) == (a2.num * a.den) * (b.den * b2.den));
    assert((b.num * b2.den) * (a.den * a2.den) == (b2.num * b.den) * (a.den * a2.den));
    assert(b.den * a.den == a.den * b.den) by (nonlinear_arith);
}

pub proof fn lemma_plus_congr(a: Frac, a2: Frac, b: Frac, b2: Frac)
    requires
        a.eqv(a2),
        b.eqv(b2),
    ensures
        a.plus(b).eqv(a2.plus(b2)),
        a.minus(b).eqv(a2.minus(b2)),
{
    lemma_cross_terms(a, a2, b, b2);
    let (x, y, u, v) = (a.num * b.den, b.num * a.den, a2.num * b2.den, b2.num * a2.den);
    let (p, q) = (a2.den * b2.den, a.den * b.den);
    assert((x + y) * p == (u + v) * q && (x - y) * p == (u - v) * q) by (nonlinear_arith)
        requires
            x * p == u * q,
            y * p == v * q,
    ;
}

pub proof fn lemma_times_congr(a: Frac, a2: Frac, b: Frac, b2: Frac)
    requires
        a.eqv(a2),
        b.eqv(b2),
    ensures
        a.times(b).eqv(a2.times(b2)),
{
    assert((a.num * b.num) * (a2.den * b2.den) == (a2.num * b2.num) * (a.den * b.den))
        by (nonlinear_arith)
        requires
            a.num * a2.den == a2.num * a.den,
            b.num * b2.den == b2.num * b.den,
    ;
}

pub proof fn lemma_over_congr(a: Frac, a2: Frac, b: Frac, b2: Frac)
    requires
        a.eqv(a2),
        b.eqv(b2),
        b.valid(),
        b2.valid(),
    ensures
        a.over(b).eqv(a2.over(b2)),
{
    lemma_eqv_sign(b, b2);
    assert((a.num * b.den) * (a2.den * b2.num) == (a2.num * b2.den) * (a.den * b.num))
        by (nonlinear_arith)
        requires
            a.num * a2.den == a2.num * a.den,
            b.num * b2.den == b2.num * b.den,
    ;
    assert((-(a.num * b.den)) * (-(a2.den * b2.num)) == (a.num * b.den) * (a2.den * b2.num))
        by (nonlinear_arith);
    assert((-(a2.num * b2.den)) * (-(a.den * b.num)) == (a2.num * b2.den) * (a.den * b.num))
        by (nonlinear_arith);
}

pub proof fn lemma_abs_congr(a: Frac, a2: Frac)
    requires
        a.valid(),
        a2.valid(),
        a.eqv(a2),
    ensures
        a.abs().eqv(a2.abs()),
{
    lemma_eqv_sign(a, a2);
    assert((-a.num) * a2.den == (-a2.num) * a.den) by (nonlinear_arith)
        requires
            a.num * a2.den == a2.num * a.den,
    ;
}

pub proof fn lemma_order_congr(a: Frac, a2: Frac, b: Frac, b2: Frac)
    requires
        a.valid(),
        a2.valid(),
        b.valid(),
        b2.valid(),
        a.eqv(a2),
        b.eqv(b2),
    ensures
        a.lt(b) == a2.lt(b2),
        a.le(b) == a2.le(b2),
        a.eqv(b) == a2.eqv(b2),
{
    // compare both sides after multiplying by the positive a2.den * b2.den
    assert((a.num * b.den) * (a2.den * b2.den) == (a2.num * b2.den) * (a.den * b.den))
        by (nonlinear_arith)
        requires
            a.num * a2.den == a2.num * a.den,
    ;
    assert((b.num * a.den) * (a2.den * b2.den) == (b2.num * a2.den) * (a.den * b.den))
        by (nonlinear_arith)
        requires
            b.num * b2.den == b2.num * b.den,
    ;
    assert(a2.den * b2.den > 0 && a.den * b.den > 0) by (nonlinear_arith)
        requires
            a.den > 0,
            a2.den > 0,
            b.den > 0,
            b2.den > 0,
    ;
    let x = a.num * b.den;
    let y = b.num * a.den;
    let x2 = a2.num * b2.den;
    let y2 = b2.num * a2.den;
    let p = a2.den * b2.den;
    let q = a.den * b.den;
    assert((x < y) == (x2 < y2) && (x <= y) == (x2 <= y2) && (x == y) == (x2 == y2))
        by (nonlinear_arith)
        requires
            x * p == x2 * q,
            y * p == y2 * q,
            p > 0,
            q > 0,
    ;
}

pub proof fn lemma_lt_trans(a: Frac, b: Frac, c: Frac)
    requires
        a.valid(),
        b.valid(),
        c.valid(),
    ensures
        a.lt(b) && b.le(c) ==> a.lt(c),
        a.le(b) && b.lt(c) ==> a.lt(c),
        a.le(b) && b.le(c) ==> a.le(c),
        a.eqv(b) && b.lt(c) ==> a.lt(c),
        a.lt(b) && b.eqv(c) ==> a.lt(c),
{
    assert(a.num * b.den * c.den <= b.num * a.den * c.den ==> a.num * c.den * b.den <= c.num * a.den * b.den
        || b.num * c.den * a.den > c.num * b.den * a.den) by (nonlinear_arith);
    assert((a.num * b.den <= b.num * a.den) == (a.num * b.den * c.den <= b.num * a.den * c.den)
        && (a.num * b.den < b.num * a.den) == (a.num * b.den * c.den < b.num * a.den * c.den))
        by (nonlinear_arith)
        requires
            c.den > 0,
    ;
    assert((b.num * c.den <= c.num * b.den) == (b.num * c.den * a.den <= c.num * b.den * a.den)
        && (b.num * c.den < c.num * b.den) == (b.num * c.den * a.den < c.num * b.den * a.den))
        by (nonlinear_arith)
        requires
            a.den > 0,
    ;
    assert((a.num * c.den <= c.num * a.den) == (a.num * c.den * b.den <= c.num * a.den * b.den)
        && (a.num * c.den < c.num * a.den) == (a.num * c.den * b.den < c.num * a.den * b.den))
        by (nonlinear_arith)
        requires
            b.den > 0,
    ;
    assert(a.num * b.den * c.den == a.num * c.den * b.den) by (nonlinear_arith);
    assert(b.num * a.den * c.den == b.num * c.den * a.den) by (nonlinear_arith);
    assert(c.num * b.den * a.den == c.num * a.den * b.den) by (nonlinear_arith);
}

// Identities of the field operations, each up to `eqv`. Each is shown by
// writing both sides as multiples of one fraction `p / q`.

proof fn lemma_same_form(x: Frac, y: Frac, p: int, q: int, k1: int, k2: int)
    requires
        x.num == k1 * p,
        x.den == k1 * q,
        y.num == k2 * p,
        y.den == k2 * q,
    ensures
        x.eqv(y),
{
    assert((k1 * p) * (k2 * q) == (k2 * p) * (k1 * q)) by (nonlinear_arith);
}

pub proof fn lemma_times_over_cancel(t: Frac, x: Frac)
    requires
        !t.is_zero(),
    ensures
        t.times(x.over(t)).eqv(x),
        t.times(x).over(t).eqv(x),
{
    let (a, b, c, d) = (t.num, t.den, x.num, x.den);
    if a < 0 {
        assert(a * -(c * b) == (-(a * b)) * c && b * -(d * a) == (-(a * b)) * d) by (nonlinear_arith);
        assert(-((a * c) * b) == (-(a * b)) * c && -((b * d) * a) == (-(a * b)) * d) by (nonlinear_arith);
    } else {
        assert(a * (c * b) == (a * b) * c && b * (d * a) == (a * b) * d) by (nonlinear_arith);
        assert((a * c) * b == (a * b) * c && (b * d) * a == (a * b) * d) by (nonlinear_arith);
    }
    lemma_same_form(t.times(x.over(t)), x, c, d, if a < 0 { -(a * b) } else { a * b }, 1);
    lemma_same_form(t.times(x).over(t), x, c, d, if a < 0 { -(a * b) } else { a * b }, 1);
}

/// `eqv` between valid values is transitive in a chain of three steps.
pub proof fn lemma_eqv_chain(a: Frac, b: Frac, c: Frac, d: Frac)
    requires
        b.valid(),
        c.valid(),
        a.eqv(b),
        b.eqv(c),
        c.eqv(d),
    ensures
        a.eqv(d),
{
    lemma_eqv_trans(a, b, c);
    lemma_eqv_trans(a, c, d);
}

// Small steps of integer algebra, over at most four variables each, from
// which the identities of `Frac` below are assembled.

proof fn lemma_mul3(x: int, y: int, z: int)
    ensures
        x * (y * z) == (x * y) * z,
        (x * y) * z == (x * z) * y,
        (x * y) * z == (y * z) * x,
        x * y == y * x,
{
    assert(x * (y * z) == (x * y) * z) by (nonlinear_arith);
    assert((x * y) * z == (x * z) * y) by (nonlinear_arith);
    assert((x * y) * z == (y * z) * x) by (nonlinear_arith);
    assert(x * y == y * x) by (nonlinear_arith);
}

proof fn lemma_distrib(x: int, y: int, z: int)
    ensures
        x * (y + z) == x * y + x * z,
        x * (y - z) == x * y - x * z,
        (y + z) * x == y * x + z * x,
        (y - z) * x == y * x - z * x,
        (-y) * x == -(y * x),
        x * (-y) == -(x * y),
{
    assert(x * (y + z) == x * y + x * z) by (nonlinear_arith);
    assert(x * (y - z) == x * y - x * z) by (nonlinear_arith);
    assert((y + z) * x == y * x + z * x) by (nonlinear_arith);
    assert((y - z) * x == y * x - z * x) by (nonlinear_arith);
    assert((-y) * x == -(y * x)) by (nonlinear_arith);
    assert(x * (-y) == -(x * y)) by (nonlinear_arith);
}

/// Two fractions with equal numerators and equal denominators.
proof fn lemma_same_parts(x: Frac, y: Frac)
    requires
        x.num == y.num,
        x.den == y.den,
    ensures
        x.eqv(y),
{
}

pub proof fn lemma_plus_comm(x: Frac, y: Frac)
    ensures
        x.plus(y).eqv(y.plus(x)),
{
    lemma_mul3(x.den, y.den, 1);
    lemma_same_parts(x.plus(y), y.plus(x));
}

pub proof fn lemma_plus_assoc(x: Frac, y: Frac, z: Frac)
    ensures
        x.plus(y).plus(z).eqv(x.plus(y.plus(z))),
{
    let (a, b, c, d, e, f) = (x.num, x.den, y.num, y.den, z.num, z.den);
    lemma_distrib(f, a * d, c * b);
    lemma_distrib(b, c * f, e * d);
    lemma_mul3(a, d, f);
    lemma_mul3(c, b, f);
    lemma_mul3(c, f, b);
    lemma_mul3(e, b, d);
    lemma_mul3(e, d, b);
    lemma_mul3(b, d, f);
    lemma_same_parts(x.plus(y).plus(z), x.plus(y.plus(z)));
}

/// `x - y` is `x + (-y)`.
pub proof fn lemma_minus_is_plus_neg(x: Frac, y: Frac)
    ensures
        x.minus(y).eqv(x.plus(y.neg())),
{
    lemma_distrib(x.den, y.num, 0);
    lemma_same_parts(x.minus(y), x.plus(y.neg()));
}

/// Adding and taking away the same value.
pub proof fn lemma_plus_minus_cancel(x: Frac, y: Frac)
    requires
        y.valid(),
    ensures
        x.plus(y).minus(y).eqv(x),
        x.minus(y).plus(y).eqv(x),
{
    let (a, b, c, d) = (x.num, x.den, y.num, y.den);
    lemma_distrib(d, a * d, c * b);
    lemma_mul3(c, b, d);
    lemma_mul3(c, d, b);
    // both sides are a * d * d over b * d * d
    assert(x.plus(y).minus(y).num == (a * d) * d);
    assert(x.minus(y).plus(y).num == (a * d) * d);
    lemma_mul4(a, d, b, d);
    lemma_mul3(a, d, b);
    lemma_mul3(b, d, d);
    lemma_mul3(a, b, d);
    assert(((a * d) * d) * b == a * ((b * d) * d)) by (nonlinear_arith);
}

pub proof fn lemma_times_distrib(t: Frac, x: Frac, y: Frac)
    ensures
        t.times(x.plus(y)).eqv(t.times(x).plus(t.times(y))),
        t.times(x.minus(y)).eqv(t.times(x).minus(t.times(y))),
{
    let (a, b, c, d, e, f) = (t.num, t.den, x.num, x.den, y.num, y.den);
    // the right-hand sides are the left-hand sides scaled by b
    lemma_distrib(a, c * f, e * d);
    lemma_distrib(b, a * (c * f), a * (e * d));
    lemma_mul4(a, c, b, f);
    lemma_mul3(b, a, c * f);
    lemma_mul3(a, c, f);
    lemma_mul4(a, e, b, d);
    lemma_mul3(b, a, e * d);
    lemma_mul3(a, e, d);
    lemma_mul4(b, d, b, f);
    lemma_mul3(b, b, d * f);
    assert((a * c) * (b * f) == b * (a * (c * f))) by (nonlinear_arith);
    assert((a * e) * (b * d) == b * (a * (e * d))) by (nonlinear_arith);
    assert((b * d) * (b * f) == b * (b * (d * f))) by (nonlinear_arith);
    lemma_same_form(t.times(x.plus(y)), t.times(x).plus(t.times(y)), a * (c * f + e * d), b * (d * f), 1, b);
    lemma_same_form(t.times(x.minus(y)), t.times(x).minus(t.times(y)), a * (c * f - e * d), b * (d * f), 1, b);
}

pub proof fn lemma_times_comm(x: Frac, y: Frac)
    ensures
        x.times(y).eqv(y.times(x)),
{
    lemma_mul3(x.num, y.num, 1);
    lemma_mul3(x.den, y.den, 1);
    lemma_same_parts(x.times(y), y.times(x));
}

/// Adding a value whose numerator is zero.
pub proof fn lemma_plus_zero_valued(x: Frac, z: Frac)
    requires
        z.is_zero(),
    ensures
        x.plus(z).eqv(x),
        x.minus(z).eqv(x),
{
    lemma_mul3(x.num, z.den, x.den);
    lemma_mul3(x.den, z.den, 1);
    lemma_distrib(x.den, 0, 0);
    assert(x.plus(z).num == x.num * z.den);
    assert(x.minus(z).num == x.num * z.den);
    lemma_same_form(x.plus(z), x, x.num, x.den, z.den, 1);
    lemma_same_form(x.minus(z), x, x.num, x.den, z.den, 1);
}

/// `(x - y) + z` is `x - (y - z)`.
pub proof fn lemma_minus_plus(x: Frac, y: Frac, z: Frac)
    ensures
        x.minus(y).plus(z).eqv(x.minus(y.minus(z))),
{
    let (a, b, c, d, e, f) = (x.num, x.den, y.num, y.den, z.num, z.den);
    lemma_distrib(f, a * d, c * b);
    lemma_distrib(b, c * f, e * d);
    lemma_mul3(a, d, f);
    lemma_mul3(c, b, f);
    lemma_mul3(e, b, d);
    lemma_mul3(e, d, b);
    lemma_mul3(b, d, f);
    lemma_same_parts(x.minus(y).plus(z), x.minus(y.minus(z)));
}

/// `(p - d) + (r - p)` is `r - d`.
pub proof fn lemma_minus_telescope(p: Frac, r: Frac, d: Frac)
    ensures
        p.minus(d).plus(r.minus(p)).eqv(r.minus(d)),
{
    let (pn, q, rn, s, u, v) = (p.num, p.den, r.num, r.den, d.num, d.den);
    let lhs = p.minus(d).plus(r.minus(p));
    // lhs is (r - d) scaled by q * q
    lemma_distrib(s * q, pn * v, u * q);
    lemma_distrib(q * v, rn * q, pn * s);
    assert((pn * v) * (s * q) == (pn * s) * (q * v)) by (nonlinear_arith);
    assert((u * q) * (s * q) == (q * q) * (u * s)) by (nonlinear_arith);
    assert((rn * q) * (q * v) == (q * q) * (rn * v)) by (nonlinear_arith);
    lemma_distrib(q * q, rn * v, u * s);
    assert(lhs.num == (q * q) * (rn * v - u * s));
    assert((q * v) * (s * q) == (q * q) * (s * v)) by (nonlinear_arith);
    lemma_same_form(lhs, r.minus(d), rn * v - u * s, s * v, q * q, 1);
}

/// A sum of two values of one strict sign, or of zero and such a value, has that sign.
pub proof fn lemma_sum_sign(a: Frac, b: Frac)
    requires
        a.valid(),
        b.valid(),
    ensures
        !a.is_neg() && b.is_pos() ==> a.plus(b).is_pos(),
        !a.is_pos() && b.is_neg() ==> a.plus(b).is_neg(),
{
    assert(a.num >= 0 && b.num > 0 ==> a.num * b.den + b.num * a.den > 0) by (nonlinear_arith)
        requires
            a.den > 0,
            b.den > 0,
    ;
    assert(a.num <= 0 && b.num < 0 ==> a.num * b.den + b.num * a.den < 0) by (nonlinear_arith)
        requires
            a.den > 0,
            b.den > 0,
    ;
}


/// `(a + b) + (y + z)` is `(a + y) + (b + z)`.
pub proof fn lemma_swap_middle(a: Frac, b: Frac, y: Frac, z: Frac)
    requires
        a.valid(),
        b.valid(),
        y.valid(),
        z.valid(),
    ensures
        a.plus(b).plus(y.plus(z)).eqv(a.plus(y).plus(b.plus(z))),
{
    lemma_valid_ops(a, b);
    lemma_valid_ops(y, z);
    lemma_valid_ops(b, y);
    lemma_valid_ops(y, b);
    lemma_valid_ops(b, z);
    lemma_valid_ops(a, y);
    lemma_valid_ops(b.plus(y), z);
    lemma_valid_ops(y.plus(b), z);
    lemma_valid_ops(b, y.plus(z));
    lemma_valid_ops(y, b.plus(z));
    // a + (b + (y + z))
    lemma_plus_assoc(a, b, y.plus(z));
    // b + (y + z) ~ (b + y) + z ~ (y + b) + z ~ y + (b + z)
    lemma_plus_assoc(b, y, z);
    lemma_eqv_sym(b.plus(y).plus(z), b.plus(y.plus(z)));
    lemma_plus_comm(b, y);
    lemma_plus_congr(b.plus(y), y.plus(b), z, z);
    lemma_plus_assoc(y, b, z);
    lemma_eqv_chain(b.plus(y.plus(z)), b.plus(y).plus(z), y.plus(b).plus(z), y.plus(b.plus(z)));
    lemma_plus_congr(a, a, b.plus(y.plus(z)), y.plus(b.plus(z)));
    lemma_valid_ops(a, b.plus(y.plus(z)));
    lemma_eqv_trans(a.plus(b).plus(y.plus(z)), a.plus(b.plus(y.plus(z))), a.plus(y.plus(b.plus(z))));
    lemma_plus_assoc(a, y, b.plus(z));
    lemma_eqv_sym(a.plus(y).plus(b.plus(z)), a.plus(y.plus(b.plus(z))));
    lemma_valid_ops(a, y.plus(b.plus(z)));
    lemma_eqv_trans(a.plus(b).plus(y.plus(z)), a.plus(y.plus(b.plus(z))), a.plus(y).plus(b.plus(z)));
}

/// `x - y` is `(x + z) - (y + z)`.
pub proof fn lemma_shift_both(x: Frac, y: Frac, z: Frac)
    ensures
        x.minus(y).eqv(x.plus(z).minus(y.plus(z))),
{
    let (a, b, c, d, e, f) = (x.num, x.den, y.num, y.den, z.num, z.den);
    let rhs = x.plus(z).minus(y.plus(z));
    lemma_distrib(d * f, a * f, e * b);
    lemma_distrib(b * f, c * f, e * d);
    assert((e * b) * (d * f) == (e * d) * (b * f)) by (nonlinear_arith);
    assert((a * f) * (d * f) == (f * f) * (a * d)) by (nonlinear_arith);
    assert((c * f) * (b * f) == (f * f) * (c * b)) by (nonlinear_arith);
    lemma_distrib(f * f, a * d, c * b);
    assert(rhs.num == (f * f) * (a * d - c * b));
    assert((b * f) * (d * f) == (f * f) * (b * d)) by (nonlinear_arith);
    lemma_same_form(x.minus(y), rhs, a * d - c * b, b * d, 1, f * f);
}

pub proof fn lemma_additive_zero(x: Frac)
    ensures
        Frac::zero().plus(x).eqv(x),
{
    lemma_mul3(x.num, 1, 1);
    lemma_mul3(x.den, 1, 1);
    assert(Frac::zero().plus(x).num == x.num);
    assert(Frac::zero().plus(x).den == x.den);
}

pub proof fn lemma_times_one(x: Frac)
    ensures
        x.times(Frac::one()).eqv(x),
{
    assert(x.times(Frac::one()).num == x.num);
    assert(x.times(Frac::one()).den == x.den);
}

/// From `v + x ~ v + y` follows `x ~ y`.
pub proof fn lemma_cancel_left(v: Frac, x: Frac, y: Frac)
    requires
        v.valid(),
        x.valid(),
        y.valid(),
        v.plus(x).eqv(v.plus(y)),
    ensures
        x.eqv(y),
{
    lemma_valid_ops(v, x);
    lemma_valid_ops(v, y);
    lemma_valid_ops(x, v);
    lemma_valid_ops(y, v);
    lemma_plus_congr(v.plus(x), v.plus(y), v, v);
    lemma_plus_comm(x, v);
    lemma_plus_comm(y, v);
    lemma_plus_congr(x.plus(v), v.plus(x), v, v);
    lemma_plus_congr(y.plus(v), v.plus(y), v, v);
    lemma_plus_minus_cancel(x, v);
    lemma_plus_minus_cancel(y, v);
    lemma_valid_ops(x.plus(v), v);
    lemma_valid_ops(y.plus(v), v);
    lemma_valid_ops(v.plus(x), v);
    lemma_valid_ops(v.plus(y), v);
    // x ~ (x + v) - v ~ (v + x) - v ~ (v + y) - v ~ (y + v) - v ~ y
    lemma_eqv_sym(x.plus(v).minus(v), x);
    lemma_eqv_chain(x, x.plus(v).minus(v), v.plus(x).minus(v), v.plus(y).minus(v));
    lemma_eqv_sym(y.plus(v).minus(v), v.plus(y).minus(v));
    lemma_eqv_chain(x, v.plus(y).minus(v), y.plus(v).minus(v), y);
}

pub proof fn lemma_nonneg_times(x: Frac, y: Frac)
    requires
        !x.is_neg(),
        !y.is_neg(),
    ensures
        !x.times(y).is_neg(),
{
    assert(x.num * y.num >= 0) by (nonlinear_arith)
        requires
            x.num >= 0,
            y.num >= 0,
    ;
}

pub proof fn lemma_nonneg_over(x: Frac, y: Frac)
    requires
        x.valid(),
        y.valid(),
        !x.is_neg(),
        y.is_pos(),
    ensures
        !x.over(y).is_neg(),
{
    assert(x.num * y.den >= 0) by (nonlinear_arith)
        requires
            x.num >= 0,
            y.den > 0,
    ;
}

/// Adding a value that is not negative does not lower.
pub proof fn lemma_le_plus_nonneg(d: Frac, q: Frac)
    requires
        d.valid(),
        q.valid(),
        !q.is_neg(),
    ensures
        d.le(d.plus(q)),
{
    let (a, b, e, f) = (d.num, d.den, q.num, q.den);
    lemma_distrib(b, a * f, e * b);
    assert(a * (b * f) == (a * f) * b) by (nonlinear_arith);
    assert((e * b) * b >= 0) by (nonlinear_arith)
        requires
            e >= 0,
    ;
}

/// Taking away more leaves less.
pub proof fn lemma_minus_anti(l: Frac, x: Frac, y: Frac)
    requires
        l.valid(),
        x.valid(),
        y.valid(),
        x.lt(y),
    ensures
        l.minus(y).lt(l.minus(x)),
{
    let (a, b, c, d, e, f) = (l.num, l.den, x.num, x.den, y.num, y.den);
    // l - y = (a f - e b) / (b f), l - x = (a d - c b) / (b d)
    lemma_distrib(b * d, a * f, e * b);
    lemma_distrib(b * f, a * d, c * b);
    assert((a * f) * (b * d) == (a * d) * (b * f)) by (nonlinear_arith);
    assert((e * b) * (b * d) == (b * b) * (e * d)) by (nonlinear_arith);
    assert((c * b) * (b * f) == (b * b) * (c * f)) by (nonlinear_arith);
    assert(b * b > 0) by (nonlinear_arith)
        requires
            b > 0,
    ;
    assert((b * b) * (c * f) < (b * b) * (e * d)) by (nonlinear_arith)
        requires
            b * b > 0,
            c * f < e * d,
    ;
}

pub proof fn lemma_neg_sum(x: Frac, y: Frac)
    ensures
        x.neg().plus(y.neg()).eqv(x.plus(y).neg()),
{
    lemma_distrib(y.den, x.num, 0);
    lemma_distrib(x.den, y.num, 0);
    lemma_same_parts(x.neg().plus(y.neg()), x.plus(y).neg());
}

} // verus!
