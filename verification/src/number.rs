//! Exact rational numbers with `i64` components.
//!
//! Every value the pipeline computes with is a fraction `num / den`
//! with a positive denominator. Results whose components fall outside
//! the `i64` range are rejected rather than rounded.

use crate::error::CalcError;
use vstd::prelude::*;

verus! {

/// An exact rational number `num / den`.
///
/// The fraction is not kept reduced; equality of mathematical values is
/// expressed through cross-multiplication where it is needed.
#[derive(Clone, Copy, Debug, PartialEq, Eq, Structural)]
pub struct Number {
    pub num: i64,
    pub den: i64,
}

/// Both components of a pair lie in the range that `Number` accepts:
/// the numerator avoids `i64::MIN` so that negation cannot overflow,
/// and the denominator is positive.
pub open spec fn fits_pair(p: (int, int)) -> bool {
    &&& -(i64::MAX as int) <= p.0 <= i64::MAX as int
    &&& 1 <= p.1 <= i64::MAX as int
}

/// The exact sum of two fractions, on unbounded integers.
pub open spec fn add_pair(a: (int, int), b: (int, int)) -> (int, int) {
    (a.0 * b.1 + b.0 * a.1, a.1 * b.1)
}

/// The exact difference of two fractions, on unbounded integers.
pub open spec fn sub_pair(a: (int, int), b: (int, int)) -> (int, int) {
    (a.0 * b.1 - b.0 * a.1, a.1 * b.1)
}

/// The exact product of two fractions, on unbounded integers.
pub open spec fn mul_pair(a: (int, int), b: (int, int)) -> (int, int) {
    (a.0 * b.0, a.1 * b.1)
}

/// The reciprocal of a nonzero fraction, with the sign moved into the
/// numerator so that the denominator stays positive.
pub open spec fn inv_pair(b: (int, int)) -> (int, int) {
    if b.0 < 0 {
        (-b.1, -b.0)
    } else {
        (b.1, b.0)
    }
}

/// The exact quotient of two fractions: multiplication by the reciprocal.
pub open spec fn div_pair(a: (int, int), b: (int, int)) -> (int, int) {
    mul_pair(a, inv_pair(b))
}

/// The exact `m`-th power of a fraction, by repeated multiplication.
pub open spec fn pow_pair(b: (int, int), m: nat) -> (int, int)
    decreases m,
{
    if m == 0 {
        (1int, 1int)
    } else {
        mul_pair(pow_pair(b, (m - 1) as nat), b)
    }
}

impl Number {
    /// Well-formedness: positive denominator, and a numerator that
    /// excludes `i64::MIN`.
    pub open spec fn wf(self) -> bool {
        1 <= self.den && -i64::MAX <= self.num
    }

    /// The fraction as a pair of unbounded integers.
    pub open spec fn ratio(self) -> (int, int) {
        (self.num as int, self.den as int)
    }

    /// This fraction denotes zero.
    pub open spec fn is_zero(self) -> bool {
        self.num == 0
    }

    /// Builds the fraction `num / den`.
    pub fn new(num: i64, den: i64) -> (r: Number)
        requires
            1 <= den,
            -i64::MAX <= num,
        ensures
            r == (Number { num, den }),
            r.wf(),
    {
        Number { num, den }
    }

    /// Builds the whole number `n / 1`.
    pub fn from_integer(n: i64) -> (r: Number)
        requires
            -i64::MAX <= n,
        ensures
            r == (Number { num: n, den: 1i64 }),
            r.wf(),
    {
        Number { num: n, den: 1 }
    }

    /// The additive inverse; exact and always representable.
    pub fn neg(self) -> (r: Number)
        requires
            self.wf(),
        ensures
            r.wf(),
            r.ratio() == (-self.ratio().0, self.ratio().1),
    {
        Number { num: -self.num, den: self.den }
    }

    /// The reciprocal of a nonzero fraction; exact and always representable.
    pub fn inv(self) -> (r: Number)
        requires
            self.wf(),
            !self.is_zero(),
        ensures
            r.wf(),
            r.ratio() == inv_pair(self.ratio()),
    {
        if self.num < 0 {
            Number { num: -self.den, den: -self.num }
        } else {
            Number { num: self.den, den: self.num }
        }
    }

    /// The exact sum, or `NotRepresentable` when a component leaves the
    /// `i64` range.
    pub fn try_add(self, other: Number) -> (r: Result<Number, CalcError>)
        requires
            self.wf(),
            other.wf(),
        ensures
            match r {
                Ok(c) => {
                    &&& c.wf()
                    &&& fits_pair(add_pair(self.ratio(), other.ratio()))
                    &&& c.ratio() == add_pair(self.ratio(), other.ratio())
                },
                Err(e) => {
                    &&& !fits_pair(add_pair(self.ratio(), other.ratio()))
                    &&& e is NotRepresentable
                },
            },
    {
        let an = self.num as i128;
        let ad = self.den as i128;
        let bn = other.num as i128;
        let bd = other.den as i128;
        proof {
            lemma_mag_mul(an as int, bd as int, i64::MAX as int);
            lemma_mag_mul(bn as int, ad as int, i64::MAX as int);
            lemma_den_mul(ad as int, bd as int, i64::MAX as int);
        }
        let n = an * bd + bn * ad;
        let d = ad * bd;
        let max = i64::MAX as i128;
        if n > max || n < -max || d > max {
            Err(CalcError::NotRepresentable)
        } else {
            Ok(Number { num: n as i64, den: d as i64 })
        }
    }

    /// The exact difference, or `NotRepresentable` when a component
    /// leaves the `i64` range.
    pub fn try_sub(self, other: Number) -> (r: Result<Number, CalcError>)
        requires
            self.wf(),
            other.wf(),
        ensures
            match r {
                Ok(c) => {
                    &&& c.wf()
                    &&& fits_pair(sub_pair(self.ratio(), other.ratio()))
                    &&& c.ratio() == sub_pair(self.ratio(), other.ratio())
                },
                Err(e) => {
                    &&& !fits_pair(sub_pair(self.ratio(), other.ratio()))
                    &&& e is NotRepresentable
                },
            },
    {
        let an = self.num as i128;
        let ad = self.den as i128;
        let bn = other.num as i128;
        let bd = other.den as i128;
        proof {
            lemma_mag_mul(an as int, bd as int, i64::MAX as int);
            lemma_mag_mul(bn as int, ad as int, i64::MAX as int);
            lemma_den_mul(ad as int, bd as int, i64::MAX as int);
        }
        let n = an * bd - bn * ad;
        let d = ad * bd;
        let max = i64::MAX as i128;
        if n > max || n < -max || d > max {
            Err(CalcError::NotRepresentable)
        } else {
            Ok(Number { num: n as i64, den: d as i64 })
        }
    }

    /// The exact product, or `NotRepresentable` when a component leaves
    /// the `i64` range.
    pub fn try_mul(self, other: Number) -> (r: Result<Number, CalcError>)
        requires
            self.wf(),
            other.wf(),
        ensures
            match r {
                Ok(c) => {
                    &&& c.wf()
                    &&& fits_pair(mul_pair(self.ratio(), other.ratio()))
                    &&& c.ratio() == mul_pair(self.ratio(), other.ratio())
                },
                Err(e) => {
                    &&& !fits_pair(mul_pair(self.ratio(), other.ratio()))
                    &&& e is NotRepresentable
                },
            },
    {
        let an = self.num as i128;
        let ad = self.den as i128;
        let bn = other.num as i128;
        let bd = other.den as i128;
        proof {
            lemma_mag_mul(an as int, bn as int, i64::MAX as int);
            lemma_den_mul(ad as int, bd as int, i64::MAX as int);
        }
        let n = an * bn;
        let d = ad * bd;
        let max = i64::MAX as i128;
        if n > max || n < -max || d > max {
            Err(CalcError::NotRepresentable)
        } else {
            Ok(Number { num: n as i64, den: d as i64 })
        }
    }

    /// The exact quotient of this fraction by a nonzero one, or
    /// `NotRepresentable` when a component leaves the `i64` range.
    /// The caller is responsible for rejecting a zero divisor first.
    pub fn try_div(self, other: Number) -> (r: Result<Number, CalcError>)
        requires
            self.wf(),
            other.wf(),
            !other.is_zero(),
        ensures
            match r {
                Ok(c) => {
                    &&& c.wf()
                    &&& fits_pair(div_pair(self.ratio(), other.ratio()))
                    &&& c.ratio() == div_pair(self.ratio(), other.ratio())
                },
                Err(e) => {
                    &&& !fits_pair(div_pair(self.ratio(), other.ratio()))
                    &&& e is NotRepresentable
                },
            },
    {
        self.try_mul(other.inv())
    }
}

/// The absolute value of an unbounded integer.
pub open spec fn abs_val(x: int) -> int {
    if x < 0 {
        -x
    } else {
        x
    }
}

/// Outcome of raising a fraction `a` to the rational exponent `e`.
/// `None` means the exact result is not representable: the exponent is
/// not a whole number, zero is raised to a negative power, or a
/// component of the result leaves the `i64` range.
pub open spec fn spec_try_pow(a: (int, int), e: (int, int)) -> Option<(int, int)> {
    if abs_val(e.0) % e.1 != 0 {
        None
    } else {
        let m = (abs_val(e.0) / e.1) as nat;
        if m == 0 {
            Some((1int, 1int))
        } else if a.0 == 0 {
            if e.0 < 0 {
                None
            } else {
                Some((0int, 1int))
            }
        } else if a.0 == a.1 {
            Some((1int, 1int))
        } else if a.0 == -a.1 {
            if m % 2 == 0 {
                Some((1int, 1int))
            } else {
                Some((-1int, 1int))
            }
        } else {
            let b = if e.0 < 0 {
                inv_pair(a)
            } else {
                a
            };
            if fits_pair(pow_pair(b, m)) {
                Some(pow_pair(b, m))
            } else {
                None
            }
        }
    }
}

/// The `m`-th power of `b` when every component fits the `i64` range,
/// and `None` otherwise.
pub open spec fn pow_checked(b: (int, int), m: nat) -> Option<(int, int)> {
    if fits_pair(pow_pair(b, m)) {
        Some(pow_pair(b, m))
    } else {
        None
    }
}

impl Number {
    /// The exact power with a whole-number exponent, or
    /// `NotRepresentable` for a fractional exponent, for zero raised to
    /// a negative power, and for results outside the `i64` range.
    pub fn try_pow(self, exp: Number) -> (r: Result<Number, CalcError>)
        requires
            self.wf(),
            exp.wf(),
        ensures
            match r {
                Ok(c) => {
                    &&& c.wf()
                    &&& spec_try_pow(self.ratio(), exp.ratio()) == Some(c.ratio())
                },
                Err(e) => {
                    &&& spec_try_pow(self.ratio(), exp.ratio()) is None
                    &&& e is NotRepresentable
                },
            },
    {
        let pn: u64 = if exp.num < 0 {
            (-exp.num) as u64
        } else {
            exp.num as u64
        };
        let pd: u64 = exp.den as u64;
        if pn % pd != 0 {
            return Err(CalcError::NotRepresentable);
        }
        let m: u64 = pn / pd;
        if m == 0 {
            return Ok(Number { num: 1, den: 1 });
        }
        if self.num == 0 {
            if exp.num < 0 {
                return Err(CalcError::NotRepresentable);
            }
            return Ok(Number { num: 0, den: 1 });
        }
        if self.num == self.den {
            return Ok(Number { num: 1, den: 1 });
        }
        if self.num == -self.den {
            return Ok(Number { num: if m % 2 == 0 { 1 } else { -1 }, den: 1 });
        }
        let base = if exp.num < 0 {
            self.inv()
        } else {
            self
        };
        let ghost bp = base.ratio();
        proof {
            lemma_pow_pair_shape(bp, 0);
            assert(spec_try_pow(self.ratio(), exp.ratio()) == pow_checked(bp, m as nat));
        }
        let mut acc = Number { num: 1i64, den: 1i64 };
        let mut i: u64 = 0;
        while i < m
            invariant
                base.wf(),
                bp == base.ratio(),
                bp.0 != 0,
                acc.wf(),
                0 <= i <= m,
                fits_pair(pow_pair(bp, i as nat)),
                acc.ratio() == pow_pair(bp, i as nat),
                spec_try_pow(self.ratio(), exp.ratio()) == pow_checked(bp, m as nat),
            decreases m - i,
        {
            match acc.try_mul(base) {
                Ok(c) => {
                    proof {
                        lemma_pow_pair_shape(bp, (i + 1) as nat);
                    }
                    acc = c;
                },
                Err(_) => {
                    proof {
                        if fits_pair(pow_pair(bp, m as nat)) {
                            lemma_pow_fits_monotone(bp, (i + 1) as nat, m as nat);
                        }
                    }
                    return Err(CalcError::NotRepresentable);
                },
            }
            i = i + 1;
        }
        Ok(acc)
    }
}

/// For a base with a nonzero numerator and a positive denominator, every
/// power keeps a nonzero numerator and a positive denominator.
proof fn lemma_pow_pair_shape(b: (int, int), m: nat)
    requires
        b.0 != 0,
        1 <= b.1,
    ensures
        pow_pair(b, m).0 != 0,
        1 <= pow_pair(b, m).1,
    decreases m,
{
    if m > 0 {
        lemma_pow_pair_shape(b, (m - 1) as nat);
        let p = pow_pair(b, (m - 1) as nat);
        assert(p.0 * b.0 != 0) by (nonlinear_arith)
            requires
                p.0 != 0,
                b.0 != 0,
        ;
        assert(1 <= p.1 * b.1) by (nonlinear_arith)
            requires
                1 <= p.1,
                1 <= b.1,
        ;
    }
}

/// The component magnitudes of successive powers never shrink, so a
/// power that fits guarantees that every earlier power fits too.
proof fn lemma_pow_fits_monotone(b: (int, int), i: nat, j: nat)
    requires
        b.0 != 0,
        1 <= b.1,
        i <= j,
        fits_pair(pow_pair(b, j)),
    ensures
        fits_pair(pow_pair(b, i)),
    decreases j - i,
{
    if i < j {
        let p = pow_pair(b, (j - 1) as nat);
        let q = pow_pair(b, j);
        lemma_pow_pair_shape(b, (j - 1) as nat);
        assert(abs_val(p.0) <= abs_val(p.0 * b.0)) by (nonlinear_arith)
            requires
                p.0 != 0,
                b.0 != 0,
        ;
        assert(p.1 <= p.1 * b.1) by (nonlinear_arith)
            requires
                1 <= p.1,
                1 <= b.1,
        ;
        assert(fits_pair(p));
        lemma_pow_fits_monotone(b, i, (j - 1) as nat);
    }
}

/// Magnitude bound for a product: if `|x| <= m` and `|y| <= m` then
/// `|x * y| <= m * m`.
proof fn lemma_mag_mul(x: int, y: int, m: int)
    requires
        0 <= m,
        -m <= x <= m,
        -m <= y <= m,
    ensures
        -(m * m) <= x * y <= m * m,
{
    assert(-(m * m) <= x * y <= m * m) by (nonlinear_arith)
        requires
            0 <= m,
            -m <= x <= m,
            -m <= y <= m,
    ;
}

/// A product of positive bounded denominators is positive and bounded.
proof fn lemma_den_mul(x: int, y: int, m: int)
    requires
        1 <= x <= m,
        1 <= y <= m,
    ensures
        1 <= x * y <= m * m,
{
    assert(1 <= x * y <= m * m) by (nonlinear_arith)
        requires
            1 <= x <= m,
            1 <= y <= m,
    ;
}

} // verus!
