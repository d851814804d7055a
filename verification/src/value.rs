//! Runtime values and the exact rational numbers they carry.
//!
//! A number is kept as a fraction `num / den` of two machine integers, so the
//! result of every arithmetic instruction can be stated exactly. Operations
//! that would leave the machine range report that instead of wrapping.

use vstd::prelude::*;

verus! {

/// An exact rational number `num / den`. A well-formed rational keeps
/// `den > 0`; the sign lives in the numerator.
#[derive(Clone, Copy, Debug, PartialEq, Eq, Structural)]
pub struct Rational {
    pub num: i64,
    pub den: i64,
}

/// A runtime value. Currently numbers only; the enumeration is the point
/// where further variants (booleans, nil, ...) would be added.
#[derive(Clone, Copy, Debug, PartialEq, Eq, Structural)]
pub enum Value {
    Number(Rational),
}

/// Well-formedness of a rational: a positive denominator.
pub open spec fn rat_wf(r: Rational) -> bool {
    r.den > 0
}

/// Well-formedness of a value.
pub open spec fn value_wf(v: Value) -> bool {
    match v {
        Value::Number(r) => rat_wf(r),
    }
}

/// Two rationals denote the same number exactly when cross-multiplication
/// agrees (for well-formed rationals this is the usual fraction equality).
pub open spec fn rat_same(a: Rational, b: Rational) -> bool {
    a.num * b.den == b.num * a.den
}

/// The mathematical value of `a + b` as an unreduced (numerator, denominator)
/// pair over the unbounded integers.
pub open spec fn rat_add_exact(a: Rational, b: Rational) -> (int, int) {
    (a.num * b.den + b.num * a.den, a.den * b.den)
}

/// The mathematical value of `a - b`.
pub open spec fn rat_sub_exact(a: Rational, b: Rational) -> (int, int) {
    (a.num * b.den - b.num * a.den, a.den * b.den)
}

/// The mathematical value of `a * b`.
pub open spec fn rat_mul_exact(a: Rational, b: Rational) -> (int, int) {
    (a.num * b.num, a.den * b.den)
}

/// The mathematical value of `a / b`, with the denominator kept positive by
/// moving `b`'s sign into the numerator. Meaningful only for `b.num != 0`.
pub open spec fn rat_div_exact(a: Rational, b: Rational) -> (int, int) {
    if b.num >= 0 {
        (a.num * b.den, a.den * b.num)
    } else {
        (-(a.num * b.den), -(a.den * b.num))
    }
}

/// The mathematical value of `-a`.
pub open spec fn rat_neg_exact(a: Rational) -> (int, int) {
    (-(a.num as int), a.den as int)
}

/// Whether an unbounded integer fits the numerator/denominator field type.
pub open spec fn fits_i64(x: int) -> bool {
    i64::MIN <= x <= i64::MAX
}

/// Whether an exact (numerator, denominator) pair fits the field type.
pub open spec fn pair_fits(p: (int, int)) -> bool {
    fits_i64(p.0) && fits_i64(p.1)
}

/// The rational holding a mathematical pair that fits the machine range.
pub open spec fn rat_of_pair(p: (int, int)) -> Rational {
    Rational { num: p.0 as i64, den: p.1 as i64 }
}

/// `r` holds exactly the mathematical pair `p`.
pub open spec fn rat_is_exactly(r: Rational, p: (int, int)) -> bool {
    r.num == p.0 && r.den == p.1
}

/// The product of two `i64`s stays within `2^126` in magnitude, so it always
/// fits an `i128`.
proof fn lemma_prod_in_range(a: int, b: int)
    requires
        -0x8000_0000_0000_0000 <= a <= 0x7fff_ffff_ffff_ffff,
        -0x8000_0000_0000_0000 <= b <= 0x7fff_ffff_ffff_ffff,
    ensures
        -0x4000_0000_0000_0000_0000_0000_0000_0000 <= a * b
            <= 0x4000_0000_0000_0000_0000_0000_0000_0000,
{
    assert(-0x4000_0000_0000_0000_0000_0000_0000_0000 <= a * b
        <= 0x4000_0000_0000_0000_0000_0000_0000_0000) by (nonlinear_arith)
        requires
            -0x8000_0000_0000_0000 <= a <= 0x7fff_ffff_ffff_ffff,
            -0x8000_0000_0000_0000 <= b <= 0x7fff_ffff_ffff_ffff,
    ;
}

/// Sign facts about a product, for the well-formedness of result denominators.
proof fn lemma_den_signs(a: int, b: int)
    ensures
        a > 0 && b > 0 ==> a * b > 0,
        a > 0 && b < 0 ==> a * b < 0,
{
    assert((a > 0 && b > 0 ==> a * b > 0) && (a > 0 && b < 0 ==> a * b < 0))
        by (nonlinear_arith);
}

/// Clamp-free narrowing of an `i128` into an `i64`, reporting whether it fit.
fn narrow_i64(x: i128) -> (r: Option<i64>)
    ensures
        match r {
            Some(v) => v as int == x as int,
            None => !fits_i64(x as int),
        },
        r is Some <==> fits_i64(x as int),
{
    if x >= i64::MIN as i128 && x <= i64::MAX as i128 {
        Some(x as i64)
    } else {
        None
    }
}

/// Sum of two products of `i64`s, each bounded by `2^126` in magnitude, so
/// the only way the mathematical sum can escape `i128` is by being far
/// outside `i64` as well; `None` is returned in that case.
fn checked_sum_i128(a: i128, b: i128) -> (r: Option<i128>)
    requires
        -0x4000_0000_0000_0000_0000_0000_0000_0000 <= a as int
            <= 0x4000_0000_0000_0000_0000_0000_0000_0000,
        -0x4000_0000_0000_0000_0000_0000_0000_0000 <= b as int
            <= 0x4000_0000_0000_0000_0000_0000_0000_0000,
    ensures
        match r {
            Some(v) => v as int == a as int + b as int,
            None => !fits_i64(a as int + b as int),
        },
        r is Some ==> r->0 as int == a as int + b as int,
{
    if a >= 0 && b > i128::MAX - a {
        None
    } else if a < 0 && b < i128::MIN - a {
        None
    } else {
        Some(a + b)
    }
}

impl Rational {
    /// The rational denoting the whole number `n`.
    pub fn whole(n: i64) -> (r: Rational)
        ensures
            r.num == n,
            r.den == 1,
            rat_wf(r),
    {
        Rational { num: n, den: 1 }
    }

    /// Exact addition; `None` exactly when the unreduced result leaves the
    /// machine range.
    pub fn checked_add(self, other: Rational) -> (r: Option<Rational>)
        ensures
            r is Some <==> pair_fits(rat_add_exact(self, other)),
            r matches Some(v) ==> rat_is_exactly(v, rat_add_exact(self, other)),
            r matches Some(v) ==> (rat_wf(self) && rat_wf(other) ==> rat_wf(v)),
    {
        proof {
            lemma_prod_in_range(self.num as int, other.den as int);
            lemma_prod_in_range(other.num as int, self.den as int);
            lemma_prod_in_range(self.den as int, other.den as int);
            lemma_den_signs(self.den as int, other.den as int);
        }
        let p1: i128 = (self.num as i128) * (other.den as i128);
        let p2: i128 = (other.num as i128) * (self.den as i128);
        let d: i128 = (self.den as i128) * (other.den as i128);
        match checked_sum_i128(p1, p2) {
            None => None,
            Some(n) => match (narrow_i64(n), narrow_i64(d)) {
                (Some(num), Some(den)) => Some(Rational { num, den }),
                _ => None,
            },
        }
    }

    /// Exact subtraction; `None` exactly when the unreduced result leaves the
    /// machine range.
    pub fn checked_sub(self, other: Rational) -> (r: Option<Rational>)
        ensures
            r is Some <==> pair_fits(rat_sub_exact(self, other)),
            r matches Some(v) ==> rat_is_exactly(v, rat_sub_exact(self, other)),
            r matches Some(v) ==> (rat_wf(self) && rat_wf(other) ==> rat_wf(v)),
    {
        proof {
            lemma_prod_in_range(self.num as int, other.den as int);
            lemma_prod_in_range(other.num as int, self.den as int);
            lemma_prod_in_range(self.den as int, other.den as int);
            lemma_den_signs(self.den as int, other.den as int);
        }
        let p1: i128 = (self.num as i128) * (other.den as i128);
        let p2: i128 = -((other.num as i128) * (self.den as i128));
        let d: i128 = (self.den as i128) * (other.den as i128);
        match checked_sum_i128(p1, p2) {
            None => None,
            Some(n) => match (narrow_i64(n), narrow_i64(d)) {
                (Some(num), Some(den)) => Some(Rational { num, den }),
                _ => None,
            },
        }
    }

    /// Exact multiplication; `None` exactly when the unreduced result leaves
    /// the machine range.
    pub fn checked_mul(self, other: Rational) -> (r: Option<Rational>)
        ensures
            r is Some <==> pair_fits(rat_mul_exact(self, other)),
            r matches Some(v) ==> rat_is_exactly(v, rat_mul_exact(self, other)),
            r matches Some(v) ==> (rat_wf(self) && rat_wf(other) ==> rat_wf(v)),
    {
        proof {
            lemma_prod_in_range(self.num as int, other.num as int);
            lemma_prod_in_range(self.den as int, other.den as int);
            lemma_den_signs(self.den as int, other.den as int);
        }
        let n: i128 = (self.num as i128) * (other.num as i128);
        let d: i128 = (self.den as i128) * (other.den as i128);
        match (narrow_i64(n), narrow_i64(d)) {
            (Some(num), Some(den)) => Some(Rational { num, den }),
            _ => None,
        }
    }

    /// Exact division; the divisor must not denote zero (division by zero is
    /// rejected before anything is computed). `None` exactly when the
    /// unreduced result leaves the machine range.
    pub fn checked_div(self, other: Rational) -> (r: Option<Rational>)
        requires
            other.num != 0,
        ensures
            r is Some <==> pair_fits(rat_div_exact(self, other)),
            r matches Some(v) ==> rat_is_exactly(v, rat_div_exact(self, other)),
            r matches Some(v) ==> (rat_wf(self) && rat_wf(other) ==> rat_wf(v)),
    {
        proof {
            lemma_prod_in_range(self.num as int, other.den as int);
            lemma_prod_in_range(self.den as int, other.num as int);
            lemma_den_signs(self.den as int, other.num as int);
        }
        let n0: i128 = (self.num as i128) * (other.den as i128);
        let d0: i128 = (self.den as i128) * (other.num as i128);
        let (n, d): (i128, i128) = if other.num >= 0 { (n0, d0) } else { (-n0, -d0) };
        match (narrow_i64(n), narrow_i64(d)) {
            (Some(num), Some(den)) => Some(Rational { num, den }),
            _ => None,
        }
    }

    /// Exact negation; `None` only for the one numerator with no negation in
    /// range.
    pub fn checked_neg(self) -> (r: Option<Rational>)
        ensures
            r is Some <==> pair_fits(rat_neg_exact(self)),
            r matches Some(v) ==> rat_is_exactly(v, rat_neg_exact(self)),
            r matches Some(v) ==> (rat_wf(self) ==> rat_wf(v)),
    {
        match narrow_i64(-(self.num as i128)) {
            Some(num) => Some(Rational { num, den: self.den }),
            None => None,
        }
    }

    /// Whether two rationals denote the same number (`1/2` equals `2/4`).
    pub fn same_value(self, other: Rational) -> (r: bool)
        ensures
            r == rat_same(self, other),
    {
        proof {
            lemma_prod_in_range(self.num as int, other.den as int);
            lemma_prod_in_range(other.num as int, self.den as int);
        }
        (self.num as i128) * (other.den as i128) == (other.num as i128) * (self.den as i128)
    }

    /// Whether this rational denotes zero.
    pub fn is_zero(self) -> (r: bool)
        ensures
            r == (self.num == 0),
    {
        self.num == 0
    }
}

} // verus!
