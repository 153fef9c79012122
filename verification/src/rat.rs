//! Exact rational numbers with checked, gcd-normalized arithmetic.
//!
//! An executable rational `Rat` keeps an `i64` numerator and a positive `i64`
//! denominator.  Its mathematical value is the ghost fraction `Frac`, a pair
//! of unbounded integers compared by cross multiplication, so that two
//! representations of the same rational are related by `frac_eq` rather than
//! by structural equality.

use vstd::arithmetic::div_mod::lemma_div_is_ordered_by_denominator;
use vstd::arithmetic::div_mod::lemma_fundamental_div_mod;
use vstd::prelude::*;

verus! {

/// The mathematical value of a rational: an unbounded numerator `n` over an
/// unbounded denominator `d`.  Wherever a `Frac` stands for the value of an
/// executable `Rat`, `d >= 1` holds; intermediate results of the spec-level
/// operators may carry any nonzero denominator.
pub ghost struct Frac {
    pub n: int,
    pub d: int,
}

/// A denominator fit for comparisons: strictly positive.
pub open spec fn frac_wf(a: Frac) -> bool {
    a.d >= 1
}

/// `a` lies within the symmetric bound `bb`: `|n| <= bb` and `1 <= d <= bb`.
pub open spec fn frac_in(a: Frac, bb: int) -> bool {
    -bb <= a.n <= bb && 1 <= a.d <= bb
}

/// Value equality of two fractions, by cross multiplication.
pub open spec fn frac_eq(a: Frac, b: Frac) -> bool {
    a.n * b.d == b.n * a.d
}

/// `a <= b`, valid when both denominators are positive.
pub open spec fn frac_le(a: Frac, b: Frac) -> bool {
    a.n * b.d <= b.n * a.d
}

/// `a < b`, valid when both denominators are positive.
pub open spec fn frac_lt(a: Frac, b: Frac) -> bool {
    a.n * b.d < b.n * a.d
}

pub open spec fn frac_zero() -> Frac {
    Frac { n: 0, d: 1 }
}

pub open spec fn frac_one() -> Frac {
    Frac { n: 1, d: 1 }
}

pub open spec fn frac_add(a: Frac, b: Frac) -> Frac {
    Frac { n: a.n * b.d + b.n * a.d, d: a.d * b.d }
}

pub open spec fn frac_sub(a: Frac, b: Frac) -> Frac {
    Frac { n: a.n * b.d - b.n * a.d, d: a.d * b.d }
}

pub open spec fn frac_mul(a: Frac, b: Frac) -> Frac {
    Frac { n: a.n * b.n, d: a.d * b.d }
}

/// Division as multiplication by the reciprocal.  The result's denominator
/// carries the sign of `b`, so it is compared with `frac_eq` only.
pub open spec fn frac_div(a: Frac, b: Frac) -> Frac {
    Frac { n: a.n * b.d, d: a.d * b.n }
}

pub open spec fn frac_neg(a: Frac) -> Frac {
    Frac { n: -a.n, d: a.d }
}

/// An executable rational number.  The denominator is always at least 1.
#[derive(Clone, Copy)]
pub struct Rat {
    num: i64,
    den: i64,
}

impl View for Rat {
    type V = Frac;

    closed spec fn view(&self) -> Frac {
        Frac { n: self.num as int, d: self.den as int }
    }
}

/// The product of two positive integers is positive.
pub proof fn lemma_pos_mul(a: int, b: int)
    by (nonlinear_arith)
    requires
        a >= 1,
        b >= 1,
    ensures
        a * b >= 1,
{
}

/// The product of two nonzero integers is nonzero.
pub proof fn lemma_nonzero_mul(a: int, b: int)
    by (nonlinear_arith)
    requires
        a != 0,
        b != 0,
    ensures
        a * b != 0,
{
}

/// `frac_eq` is transitive across a fraction with a nonzero denominator.
pub proof fn lemma_frac_eq_trans(a: Frac, b: Frac, c: Frac)
    by (nonlinear_arith)
    requires
        frac_eq(a, b),
        frac_eq(b, c),
        b.d != 0,
    ensures
        frac_eq(a, c),
{
}

/// A product of two factors bounded by `bb` is bounded by `bb * bb`.
proof fn lemma_abs_mul_bound(x: int, y: int, bb: int)
    by (nonlinear_arith)
    requires
        1 <= bb,
        -bb <= x <= bb,
        -bb <= y <= bb,
    ensures
        -(bb * bb) <= x * y <= bb * bb,
{
}

/// The central exchange: cross multiplying equal values against each other's
/// denominators gives equal products.
proof fn lemma_cross_swap(a: Frac, a2: Frac, b: Frac, b2: Frac)
    requires
        frac_eq(a, a2),
        frac_eq(b, b2),
    ensures
        (a.n * b.d) * (a2.d * b2.d) == (a2.n * b2.d) * (a.d * b.d),
{
    assert((a.n * b.d) * (a2.d * b2.d) == (a.n * a2.d) * (b.d * b2.d)) by (nonlinear_arith);
    assert((a2.n * a.d) * (b.d * b2.d) == (a2.n * b2.d) * (a.d * b.d)) by (nonlinear_arith)
        requires
            b.n * b2.d == b2.n * b.d,
    ;
}

/// Addition respects value equality.
pub proof fn lemma_frac_add_congr(a: Frac, a2: Frac, b: Frac, b2: Frac)
    requires
        frac_eq(a, a2),
        frac_eq(b, b2),
    ensures
        frac_eq(frac_add(a, b), frac_add(a2, b2)),
{
    lemma_cross_swap(a, a2, b, b2);
    lemma_cross_swap(b, b2, a, a2);
    assert((a.n * b.d + b.n * a.d) * (a2.d * b2.d) == (a.n * b.d) * (a2.d * b2.d) + (b.n * a.d)
        * (a2.d * b2.d)) by (nonlinear_arith);
    assert((b.n * a.d) * (a2.d * b2.d) == (b.n * a.d) * (b2.d * a2.d)) by (nonlinear_arith);
    assert((b2.n * a2.d) * (b.d * a.d) == (b2.n * a2.d) * (a.d * b.d)) by (nonlinear_arith);
    assert((a2.n * b2.d + b2.n * a2.d) * (a.d * b.d) == (a2.n * b2.d) * (a.d * b.d) + (b2.n
        * a2.d) * (a.d * b.d)) by (nonlinear_arith);
}

/// Subtraction respects value equality.
pub proof fn lemma_frac_sub_congr(a: Frac, a2: Frac, b: Frac, b2: Frac)
    requires
        frac_eq(a, a2),
        frac_eq(b, b2),
    ensures
        frac_eq(frac_sub(a, b), frac_sub(a2, b2)),
{
    lemma_cross_swap(a, a2, b, b2);
    lemma_cross_swap(b, b2, a, a2);
    assert((a.n * b.d - b.n * a.d) * (a2.d * b2.d) == (a.n * b.d) * (a2.d * b2.d) - (b.n * a.d)
        * (a2.d * b2.d)) by (nonlinear_arith);
    assert((b.n * a.d) * (a2.d * b2.d) == (b.n * a.d) * (b2.d * a2.d)) by (nonlinear_arith);
    assert((b2.n * a2.d) * (b.d * a.d) == (b2.n * a2.d) * (a.d * b.d)) by (nonlinear_arith);
    assert((a2.n * b2.d - b2.n * a2.d) * (a.d * b.d) == (a2.n * b2.d) * (a.d * b.d) - (b2.n
        * a2.d) * (a.d * b.d)) by (nonlinear_arith);
}

/// Multiplication respects value equality.
pub proof fn lemma_frac_mul_congr(a: Frac, a2: Frac, b: Frac, b2: Frac)
    requires
        frac_eq(a, a2),
        frac_eq(b, b2),
    ensures
        frac_eq(frac_mul(a, b), frac_mul(a2, b2)),
{
    assert((a.n * b.n) * (a2.d * b2.d) == (a.n * a2.d) * (b.n * b2.d)) by (nonlinear_arith);
    assert((a2.n * a.d) * (b2.n * b.d) == (a2.n * b2.n) * (a.d * b.d)) by (nonlinear_arith);
}

/// Division respects value equality.
pub proof fn lemma_frac_div_congr(a: Frac, a2: Frac, b: Frac, b2: Frac)
    requires
        frac_eq(a, a2),
        frac_eq(b, b2),
    ensures
        frac_eq(frac_div(a, b), frac_div(a2, b2)),
{
    assert((a.n * b.d) * (a2.d * b2.n) == (a.n * a2.d) * (b2.n * b.d)) by (nonlinear_arith);
    assert((a2.n * a.d) * (b.n * b2.d) == (a2.n * b2.d) * (a.d * b.n)) by (nonlinear_arith);
    assert((a.n * a2.d) * (b2.n * b.d) == (a.n * a2.d) * (b.n * b2.d)) by (nonlinear_arith)
        requires
            b.n * b2.d == b2.n * b.d,
    ;
}

/// Comparisons respect value equality, for positive denominators.
pub proof fn lemma_frac_cmp_congr(a: Frac, a2: Frac, b: Frac, b2: Frac)
    requires
        frac_eq(a, a2),
        frac_eq(b, b2),
        a.d >= 1,
        b.d >= 1,
        a2.d >= 1,
        b2.d >= 1,
    ensures
        frac_le(a, b) == frac_le(a2, b2),
        frac_lt(a, b) == frac_lt(a2, b2),
        frac_eq(a, b) == frac_eq(a2, b2),
{
    lemma_cross_swap(a, a2, b, b2);
    lemma_cross_swap(b, b2, a, a2);
    lemma_cross_swap(a2, a, b2, b);
    lemma_cross_swap(b2, b, a2, a);
    lemma_pos_mul(a2.d, b2.d);
    lemma_pos_mul(a.d, b.d);
    assert((b.n * a.d) * (a2.d * b2.d) == (b.n * a.d) * (b2.d * a2.d)) by (nonlinear_arith);
    assert((b2.n * a2.d) * (b.d * a.d) == (b2.n * a2.d) * (a.d * b.d)) by (nonlinear_arith);
    assert((b2.n * a2.d) * (a.d * b.d) == (b2.n * a2.d) * (b.d * a.d)) by (nonlinear_arith);
    assert((b.n * a.d) * (b2.d * a2.d) == (b.n * a.d) * (a2.d * b2.d)) by (nonlinear_arith);
    if frac_le(a, b) {
        vstd::arithmetic::mul::lemma_mul_inequality(a.n * b.d, b.n * a.d, a2.d * b2.d);
        vstd::arithmetic::mul::lemma_mul_inequality_converse(
            a2.n * b2.d,
            b2.n * a2.d,
            a.d * b.d,
        );
    }
    if frac_le(a2, b2) {
        vstd::arithmetic::mul::lemma_mul_inequality(a2.n * b2.d, b2.n * a2.d, a.d * b.d);
        vstd::arithmetic::mul::lemma_mul_inequality_converse(
            a.n * b.d,
            b.n * a.d,
            a2.d * b2.d,
        );
    }
    assert((a.n * b.d) * (b2.d * a2.d) == (a.n * b.d) * (a2.d * b2.d)) by (nonlinear_arith);
    assert((a2.n * b2.d) * (b.d * a.d) == (a2.n * b2.d) * (a.d * b.d)) by (nonlinear_arith);
    if frac_le(b, a) {
        vstd::arithmetic::mul::lemma_mul_inequality(b.n * a.d, a.n * b.d, b2.d * a2.d);
        vstd::arithmetic::mul::lemma_mul_inequality_converse(
            b2.n * a2.d,
            a2.n * b2.d,
            a.d * b.d,
        );
    }
    if frac_le(b2, a2) {
        vstd::arithmetic::mul::lemma_mul_inequality(b2.n * a2.d, a2.n * b2.d, b.d * a.d);
        vstd::arithmetic::mul::lemma_mul_inequality_converse(
            b.n * a.d,
            a.n * b.d,
            a2.d * b2.d,
        );
    }
}

/// A strict bound carries through a non-strict one, for positive denominators.
pub proof fn lemma_frac_lt_le_trans(a: Frac, b: Frac, c: Frac)
    by (nonlinear_arith)
    requires
        frac_lt(a, b),
        frac_le(b, c),
        a.d >= 1,
        b.d >= 1,
        c.d >= 1,
    ensures
        frac_lt(a, c),
{
}

/// The product of an `i64` and an `i64` of reduced magnitude stays well
/// inside the `i128` range, far enough in for two such products to be added.
proof fn lemma_i64_mul_fits_i128(a: int, b: int)
    by (nonlinear_arith)
    requires
        -0x8000_0000_0000_0000 <= a <= 0x7fff_ffff_ffff_ffff,
        -0x7fff_ffff_ffff_ffff <= b <= 0x7fff_ffff_ffff_ffff,
    ensures
        -0x3fff_ffff_ffff_ffff_8000_0000_0000_0000 <= a * b
            <= 0x3fff_ffff_ffff_ffff_8000_0000_0000_0000,
{
}

/// Widening product of two `i64` values, the second not `i64::MIN`.
fn wide_mul(a: i64, b: i64) -> (r: i128)
    requires
        b > i64::MIN,
    ensures
        r == a as int * b as int,
        -0x3fff_ffff_ffff_ffff_8000_0000_0000_0000 <= r
            <= 0x3fff_ffff_ffff_ffff_8000_0000_0000_0000,
{
    proof {
        lemma_i64_mul_fits_i128(a as int, b as int);
    }
    (a as i128) * (b as i128)
}

/// Widening product of two arbitrary `i64` values.
fn wide_mul_full(a: i64, b: i64) -> (r: i128)
    ensures
        r == a as int * b as int,
        -0x4000_0000_0000_0000_0000_0000_0000_0000 <= r
            <= 0x4000_0000_0000_0000_0000_0000_0000_0000,
{
    proof {
        assert(-0x4000_0000_0000_0000_0000_0000_0000_0000 <= a as int * b as int
            <= 0x4000_0000_0000_0000_0000_0000_0000_0000) by (nonlinear_arith)
            requires
                -0x8000_0000_0000_0000 <= a as int <= 0x7fff_ffff_ffff_ffff
                    && -0x8000_0000_0000_0000 <= b as int <= 0x7fff_ffff_ffff_ffff,
        ;
    }
    (a as i128) * (b as i128)
}

/// A common divisor of a pair stays a common divisor of what Euclid's step
/// leaves of it.
proof fn lemma_common_divisor_step(a: int, b: int, g: int)
    requires
        b >= 1,
        g >= 1,
        b % g == 0,
        (a % b) % g == 0,
    ensures
        a % g == 0,
{
    let q = a / b;
    let r = a % b;
    let kb = b / g;
    let kr = r / g;
    lemma_fundamental_div_mod(a, b);
    lemma_fundamental_div_mod(b, g);
    lemma_fundamental_div_mod(r, g);
    assert(q * (g * kb) + g * kr == (q * kb + kr) * g) by (nonlinear_arith);
    vstd::arithmetic::div_mod::lemma_mod_multiples_basic(q * kb + kr, g);
}

/// Greatest-common-divisor search by Euclid's algorithm.  Only divisibility
/// is promised: the result is a positive common divisor of `a` and `b`.
fn gcd_u128(a: u128, b: u128) -> (g: u128)
    requires
        b >= 1,
    ensures
        1 <= g <= b,
        a as int % g as int == 0,
        b as int % g as int == 0,
{
    let mut x: u128 = a;
    let mut y: u128 = b;
    while y != 0
        invariant
            y >= 1 ==> y <= b,
            y == 0 ==> 1 <= x <= b,
            forall|d: int|
                1 <= d && #[trigger] (x as int % d) == 0 && y as int % d == 0 ==> a as int % d
                    == 0 && b as int % d == 0,
        decreases y,
    {
        let r = x % y;
        proof {
            assert forall|d: int|
                1 <= d && #[trigger] (y as int % d) == 0 && r as int % d == 0 implies a as int % d
                == 0 && b as int % d == 0 by {
                lemma_common_divisor_step(x as int, y as int, d);
            }
        }
        x = y;
        y = r;
    }
    proof {
        vstd::arithmetic::div_mod::lemma_mod_self_0(x as int);
    }
    x
}

/// Exact division by a common divisor keeps the value of the fraction.
proof fn lemma_reduce_keeps_value(n: int, d: int, g: int, qn: int, qd: int)
    by (nonlinear_arith)
    requires
        g >= 1,
        d >= 1,
        n >= 0,
        n == g * qn,
        d == g * qd,
    ensures
        qn * d == n * qd,
        qn >= 0,
        qd >= 1,
{
}

/// Normalize a raw fraction `n / d` with positive `d` into a `Rat` if its
/// reduced form fits the `i64` fields.  A raw value that already fits is
/// always accepted.
fn reduce(n: i128, d: i128) -> (r: Option<Rat>)
    requires
        d >= 1,
    ensures
        r matches Some(x) ==> x.wf() && frac_eq(x@, Frac { n: n as int, d: d as int }),
        -0x8000_0000_0000_0000 <= n <= 0x7fff_ffff_ffff_ffff && d <= 0x7fff_ffff_ffff_ffff
            ==> r is Some,
        r matches Some(x) ==> x@.d <= d,
        r matches Some(x) ==> if n >= 0 {
            0 <= x@.n <= n
        } else {
            n <= x@.n < 0 || x@.n == 0
        },
{
    let neg = n < 0;
    let na: u128 = if neg {
        ((-(n + 1)) as u128) + 1
    } else {
        n as u128
    };
    let da: u128 = d as u128;
    let g = gcd_u128(na, da);
    let qn: u128 = na / g;
    let qd: u128 = da / g;
    proof {
        lemma_fundamental_div_mod(na as int, g as int);
        lemma_fundamental_div_mod(da as int, g as int);
        lemma_reduce_keeps_value(
            na as int,
            da as int,
            g as int,
            qn as int,
            qd as int,
        );
        lemma_div_is_ordered_by_denominator(na as int, 1, g as int);
        lemma_div_is_ordered_by_denominator(da as int, 1, g as int);
    }
    if neg {
        if qn <= 0x8000_0000_0000_0000 && qd <= 0x7fff_ffff_ffff_ffff {
            let num: i64 = if qn == 0x8000_0000_0000_0000 {
                i64::MIN
            } else {
                -(qn as i64)
            };
            let r = Rat { num, den: qd as i64 };
            proof {
                assert((-(qn as int)) * d == -(qn as int * d)) by (nonlinear_arith);
                assert(n * (qd as int) == -((na as int) * qd as int)) by (nonlinear_arith)
                    requires
                        n == -(na as int),
                ;
            }
            Some(r)
        } else {
            None
        }
    } else {
        if qn <= 0x7fff_ffff_ffff_ffff && qd <= 0x7fff_ffff_ffff_ffff {
            Some(Rat { num: qn as i64, den: qd as i64 })
        } else {
            None
        }
    }
}

impl Rat {
    /// The representation invariant: a strictly positive denominator.
    pub open spec fn wf(self) -> bool {
        frac_wf(self@)
    }

    /// The integer `v` as a rational.
    pub fn from_int(v: i64) -> (r: Rat)
        ensures
            r.wf(),
            r@ == (Frac { n: v as int, d: 1 }),
    {
        Rat { num: v, den: 1 }
    }

    /// The numerator of the stored (normalized) representation.
    pub fn num(&self) -> (r: i64)
        ensures
            r as int == self@.n,
    {
        self.num
    }

    /// The denominator of the stored (normalized) representation.
    pub fn den(&self) -> (r: i64)
        ensures
            r as int == self@.d,
    {
        self.den
    }

    /// Whether the value is exactly zero.
    pub fn is_zero(&self) -> (r: bool)
        ensures
            r == (self@.n == 0),
    {
        self.num == 0
    }

    /// Value equality.
    pub fn eq_value(&self, other: &Rat) -> (r: bool)
        requires
            self.wf(),
            other.wf(),
        ensures
            r == frac_eq(self@, other@),
    {
        wide_mul(self.num, other.den) == wide_mul(other.num, self.den)
    }

    /// Strict order on values; meaningful for well-formed rationals.
    pub fn lt(&self, other: &Rat) -> (r: bool)
        requires
            self.wf(),
            other.wf(),
        ensures
            r == frac_lt(self@, other@),
    {
        wide_mul(self.num, other.den) < wide_mul(other.num, self.den)
    }

    /// Non-strict order on values; meaningful for well-formed rationals.
    pub fn le(&self, other: &Rat) -> (r: bool)
        requires
            self.wf(),
            other.wf(),
        ensures
            r == frac_le(self@, other@),
    {
        wide_mul(self.num, other.den) <= wide_mul(other.num, self.den)
    }

    /// The rational `num / den`.  Fails exactly on a zero denominator or
    /// when the reduced fraction leaves the `i64` range; any fraction whose
    /// denominator is positive and whose parts are above `i64::MIN` fits.
    pub fn new(num: i64, den: i64) -> (r: Option<Rat>)
        ensures
            den == 0 ==> r is None,
            r matches Some(x) ==> x.wf() && den != 0 && frac_eq(
                x@,
                Frac { n: num as int, d: den as int },
            ),
            den >= 1 ==> r is Some,
            den < 0 && den > i64::MIN && num > i64::MIN ==> r is Some,
    {
        if den == 0 {
            None
        } else if den >= 1 {
            if num == i64::MIN {
                Some(Rat { num, den })
            } else {
                reduce(num as i128, den as i128)
            }
        } else {
            if num == i64::MIN || den == i64::MIN {
                let n = -(num as i128);
                let d = -(den as i128);
                proof {
                    assert(n * den as int == num as int * d) by (nonlinear_arith)
                        requires
                            n == -(num as int) && d == -(den as int),
                    ;
                }
                match reduce(n, d) {
                    Some(x) => {
                        proof {
                            lemma_frac_eq_trans(
                                x@,
                                Frac { n: n as int, d: d as int },
                                Frac { n: num as int, d: den as int },
                            );
                        }
                        Some(x)
                    },
                    None => None,
                }
            } else {
                let n = -num;
                let d = -den;
                proof {
                    assert((n as int) * (den as int) == (num as int) * (d as int))
                        by (nonlinear_arith)
                        requires
                            n as int == -(num as int) && d as int == -(den as int),
                    ;
                }
                match reduce(n as i128, d as i128) {
                    Some(x) => {
                        proof {
                            lemma_frac_eq_trans(
                                x@,
                                Frac { n: n as int, d: d as int },
                                Frac { n: num as int, d: den as int },
                            );
                        }
                        Some(x)
                    },
                    None => None,
                }
            }
        }
    }

    /// Checked addition: on success, the exact sum.
    pub fn checked_add(&self, other: &Rat) -> (r: Option<Rat>)
        requires
            self.wf(),
            other.wf(),
        ensures
            r matches Some(x) ==> x.wf() && frac_eq(x@, frac_add(self@, other@)),
            forall|bb: int|
                1 <= bb && frac_in(self@, bb) && frac_in(other@, bb) && bb * bb
                    <= 0x3fff_ffff_ffff_ffff ==> r is Some && (r matches Some(x) ==> frac_in(
                    x@,
                    bb * bb + bb * bb,
                )),
    {
        let n = wide_mul(self.num, other.den) + wide_mul(other.num, self.den);
        let d = wide_mul(self.den, other.den);
        proof {
            lemma_pos_mul(self@.d, other@.d);
        }
        let r = reduce(n, d);
        proof {
            assert forall|bb: int|
                1 <= bb && frac_in(self@, bb) && frac_in(other@, bb) && bb * bb
                    <= 0x3fff_ffff_ffff_ffff implies r is Some && (r matches Some(x)
                ==> frac_in(x@, bb * bb + bb * bb)) by {
                lemma_abs_mul_bound(self@.n, other@.d, bb);
                lemma_abs_mul_bound(other@.n, self@.d, bb);
                lemma_abs_mul_bound(self@.d, other@.d, bb);
            }
        }
        r
    }

    /// Checked subtraction: on success, the exact difference.
    pub fn checked_sub(&self, other: &Rat) -> (r: Option<Rat>)
        requires
            self.wf(),
            other.wf(),
        ensures
            r matches Some(x) ==> x.wf() && frac_eq(x@, frac_sub(self@, other@)),
            forall|bb: int|
                1 <= bb && frac_in(self@, bb) && frac_in(other@, bb) && bb * bb
                    <= 0x3fff_ffff_ffff_ffff ==> r is Some && (r matches Some(x) ==> frac_in(
                    x@,
                    bb * bb + bb * bb,
                )),
    {
        let n = wide_mul(self.num, other.den) - wide_mul(other.num, self.den);
        let d = wide_mul(self.den, other.den);
        proof {
            lemma_pos_mul(self@.d, other@.d);
        }
        let r = reduce(n, d);
        proof {
            assert forall|bb: int|
                1 <= bb && frac_in(self@, bb) && frac_in(other@, bb) && bb * bb
                    <= 0x3fff_ffff_ffff_ffff implies r is Some && (r matches Some(x)
                ==> frac_in(x@, bb * bb + bb * bb)) by {
                lemma_abs_mul_bound(self@.n, other@.d, bb);
                lemma_abs_mul_bound(other@.n, self@.d, bb);
                lemma_abs_mul_bound(self@.d, other@.d, bb);
            }
        }
        r
    }

    /// Checked multiplication: on success, the exact product.
    pub fn checked_mul(&self, other: &Rat) -> (r: Option<Rat>)
        requires
            self.wf(),
            other.wf(),
        ensures
            r matches Some(x) ==> x.wf() && frac_eq(x@, frac_mul(self@, other@)),
            forall|bb: int|
                1 <= bb && frac_in(self@, bb) && frac_in(other@, bb) && bb * bb
                    <= 0x7fff_ffff_ffff_ffff ==> r is Some && (r matches Some(x) ==> frac_in(
                    x@,
                    bb * bb,
                )),
    {
        let n = wide_mul_full(self.num, other.num);
        let d = wide_mul(self.den, other.den);
        proof {
            lemma_pos_mul(self@.d, other@.d);
        }
        let r = reduce(n, d);
        proof {
            assert forall|bb: int|
                1 <= bb && frac_in(self@, bb) && frac_in(other@, bb) && bb * bb
                    <= 0x7fff_ffff_ffff_ffff implies r is Some && (r matches Some(x)
                ==> frac_in(x@, bb * bb)) by {
                lemma_abs_mul_bound(self@.n, other@.n, bb);
                lemma_abs_mul_bound(self@.d, other@.d, bb);
            }
        }
        r
    }

    /// Checked division: on success, the exact quotient.
    pub fn checked_div(&self, other: &Rat) -> (r: Option<Rat>)
        requires
            self.wf(),
            other.wf(),
            other@.n != 0,
        ensures
            r matches Some(x) ==> x.wf() && frac_eq(x@, frac_div(self@, other@)),
            forall|bb: int|
                1 <= bb && frac_in(self@, bb) && frac_in(other@, bb) && bb * bb
                    <= 0x7fff_ffff_ffff_ffff ==> r is Some && (r matches Some(x) ==> frac_in(
                    x@,
                    bb * bb,
                )),
    {
        let n = wide_mul(self.num, other.den);
        let d = wide_mul_full(self.den, other.num);
        if d >= 1 {
            let rr = reduce(n, d);
            proof {
                assert forall|bb: int|
                    1 <= bb && frac_in(self@, bb) && frac_in(other@, bb) && bb * bb
                        <= 0x7fff_ffff_ffff_ffff implies rr is Some && (rr matches Some(x)
                    ==> frac_in(x@, bb * bb)) by {
                    lemma_abs_mul_bound(self@.n, other@.d, bb);
                    lemma_abs_mul_bound(self@.d, other@.n, bb);
                }
            }
            match rr {
                Some(x) => {
                    proof {
                        lemma_frac_eq_trans(
                            x@,
                            Frac { n: n as int, d: d as int },
                            frac_div(self@, other@),
                        );
                    }
                    Some(x)
                },
                None => None,
            }
        } else {
            proof {
                assert(d as int != 0 && (-(n as int)) * (d as int) == (n as int) * (-(d as int)))
                    by (nonlinear_arith)
                    requires
                        self@.d >= 1 && other@.n != 0 && d == self@.d * other@.n,
                ;
            }
            let rr = reduce(-n, -d);
            proof {
                assert forall|bb: int|
                    1 <= bb && frac_in(self@, bb) && frac_in(other@, bb) && bb * bb
                        <= 0x7fff_ffff_ffff_ffff implies rr is Some && (rr matches Some(x)
                    ==> frac_in(x@, bb * bb)) by {
                    lemma_abs_mul_bound(self@.n, other@.d, bb);
                    lemma_abs_mul_bound(self@.d, other@.n, bb);
                }
            }
            match rr {
                Some(x) => {
                    proof {
                        lemma_frac_eq_trans(
                            x@,
                            Frac { n: -(n as int), d: -(d as int) },
                            frac_div(self@, other@),
                        );
                    }
                    Some(x)
                },
                None => None,
            }
        }
    }

    /// Whether the value is strictly below the negation of `other`.
    /// Computed directly so that no negated rational has to be constructed.
    pub fn lt_neg(&self, other: &Rat) -> (r: bool)
        requires
            self.wf(),
            other.wf(),
        ensures
            r == frac_lt(self@, frac_neg(other@)),
    {
        proof {
            assert((-(other@.n)) * self@.d == -(other@.n * self@.d)) by (nonlinear_arith);
        }
        wide_mul(self.num, other.den) < -wide_mul(other.num, self.den)
    }
}

} // verus!
