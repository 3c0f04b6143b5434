//! Rational numbers kept in lowest terms with a positive denominator.

use vstd::prelude::*;
use vstd::arithmetic::div_mod::lemma_fundamental_div_mod;
use crate::math::{gcd, lcm, spec_gcd, spec_lcm, lemma_gcd_divides, lemma_div_by_gcd_coprime};

verus! {

/// The magnitude of a signed number, as a mathematical integer.
pub open spec fn spec_abs(n: int) -> int {
    if n < 0 {
        -n
    } else {
        n
    }
}

/// A fraction in base form: numerator and positive denominator share no
/// common divisor beyond one.
#[derive(Clone, Copy)]
pub struct Fract {
    pub num: i64,
    pub den: u64,
}

impl Fract {
    /// Lowest terms: positive denominator, numerator and denominator
    /// coprime.
    pub open spec fn wf(self) -> bool {
        self.den > 0 && spec_gcd(spec_abs(self.num as int) as nat, self.den as nat) == 1
    }

    /// The fraction `self` and the quotient `n / d` denote the same
    /// rational, stated by cross-multiplication.
    pub open spec fn is_ratio_of(self, n: int, d: int) -> bool {
        self.num * d == n * self.den
    }

    /// Builds the fraction `num / den` in base form.
    pub fn new(num: i64, den: i64) -> (r: Self)
        requires
            den != 0,
            num != i64::MIN,
            den != i64::MIN,
        ensures
            r.wf(),
            r.is_ratio_of(num as int, den as int),
    {
        let (n, d) = Self::base_form(num, den);
        Self { num: n, den: d }
    }

    /// Reduces `num / den` to base form: the returned numerator and
    /// denominator are coprime, the denominator is positive, and the
    /// quotient is unchanged.
    pub fn base_form(num: i64, den: i64) -> (r: (i64, u64))
        requires
            den != 0,
            num != i64::MIN,
            den != i64::MIN,
        ensures
            r.1 > 0,
            spec_gcd(spec_abs(r.0 as int) as nat, r.1 as nat) == 1,
            r.0 * den == num * r.1,
    {
        let na: u64 = if num < 0 {
            (-num) as u64
        } else {
            num as u64
        };
        let da: u64 = if den < 0 {
            (-den) as u64
        } else {
            den as u64
        };
        let g = gcd(na, da);
        proof {
            lemma_gcd_divides(na as nat, da as nat);
            assert(g > 0);
            lemma_div_by_gcd_coprime(na as nat, da as nat);
            lemma_fundamental_div_mod(na as int, g as int);
            lemma_fundamental_div_mod(da as int, g as int);
        }
        let nr: u64 = na / g;
        let dr: u64 = da / g;
        proof {
            assert(dr >= 1) by (nonlinear_arith)
                requires
                    da as int == (g as int) * (dr as int) && da > 0 && g > 0,
            ;
        }
        let negative = (num < 0) != (den < 0);
        let num_out: i64 = if negative {
            -(nr as i64)
        } else {
            nr as i64
        };
        proof {
            let ni = num as int;
            let di = den as int;
            let nai = na as int;
            let dai = da as int;
            let nri = nr as int;
            let dri = dr as int;
            let gi = g as int;
            assert(nai == gi * nri && dai == gi * dri);
            assert(nri * dai == nai * dri) by (nonlinear_arith)
                requires
                    nai == gi * nri && dai == gi * dri,
            ;
            assert(spec_abs(num_out as int) == nri);
            if num >= 0 && den > 0 {
                assert(num_out * di == ni * dri) by (nonlinear_arith)
                    requires
                        num_out == nri && ni == nai && di == dai && nri * dai == nai * dri,
                ;
            } else if num < 0 && den > 0 {
                assert(num_out * di == ni * dri) by (nonlinear_arith)
                    requires
                        num_out == -nri && ni == -nai && di == dai && nri * dai == nai * dri,
                ;
            } else if num >= 0 && den < 0 {
                assert(num_out * di == ni * dri) by (nonlinear_arith)
                    requires
                        num_out == -nri && ni == nai && di == -dai && nri * dai == nai * dri,
                ;
            } else {
                assert(num_out * di == ni * dri) by (nonlinear_arith)
                    requires
                        num_out == nri && ni == -nai && di == -dai && nri * dai == nai * dri,
                ;
            }
        }
        (num_out, dr)
    }

    /// The sum of two fractions, in base form; stated by
    /// cross-multiplication against the common denominator.
    pub fn add(self, rhs: Self) -> (r: Self)
        requires
            self.wf(),
            rhs.wf(),
            spec_lcm(self.den as nat, rhs.den as nat) <= i64::MAX,
            -(i64::MAX as int) <= self.num * (spec_lcm(self.den as nat, rhs.den as nat)
                / self.den as int) <= i64::MAX,
            -(i64::MAX as int) <= rhs.num * (spec_lcm(self.den as nat, rhs.den as nat)
                / rhs.den as int) <= i64::MAX,
            -(i64::MAX as int) <= self.num * (spec_lcm(self.den as nat, rhs.den as nat)
                / self.den as int) + rhs.num * (spec_lcm(self.den as nat, rhs.den as nat)
                / rhs.den as int) <= i64::MAX,
        ensures
            r.wf(),
            r.num * (self.den * rhs.den) == (self.num * rhs.den + rhs.num * self.den) * r.den,
    {
        let cden = lcm(self.den, rhs.den);
        proof {
            lemma_gcd_divides(self.den as nat, rhs.den as nat);
            let g = spec_gcd(self.den as nat, rhs.den as nat) as int;
            lemma_fundamental_div_mod(self.den as int, g);
            assert(self.den as int / g >= 1) by (nonlinear_arith)
                requires
                    self.den as int == g * (self.den as int / g) && self.den >= 1 && g >= 1,
            ;
            assert(cden >= 1) by (nonlinear_arith)
                requires
                    cden as int == (self.den as int / g) * (rhs.den as int) && self.den as int / g
                        >= 1 && rhs.den >= 1,
            ;
        }
        let scale_self = cden / self.den;
        let scale_rhs = cden / rhs.den;
        proof {
            lemma_fundamental_div_mod(cden as int, self.den as int);
            lemma_fundamental_div_mod(cden as int, rhs.den as int);
            assert(cden as int == (self.den as int) * (scale_self as int));
            assert(cden as int == (rhs.den as int) * (scale_rhs as int));
        }
        let num_self = self.num * (scale_self as i64);
        let num_rhs = rhs.num * (scale_rhs as i64);
        let r = Self::new(num_self + num_rhs, cden as i64);
        proof {
            let n1 = self.num as int;
            let n2 = rhs.num as int;
            let d1 = self.den as int;
            let d2 = rhs.den as int;
            let c = cden as int;
            let s1 = scale_self as int;
            let s2 = scale_rhs as int;
            let total = n1 * s1 + n2 * s2;
            assert(n1 * s1 * (d1 * d2) == n1 * d2 * c) by (nonlinear_arith)
                requires
                    c == d1 * s1,
            ;
            assert(n2 * s2 * (d1 * d2) == n2 * d1 * c) by (nonlinear_arith)
                requires
                    c == d2 * s2,
            ;
            assert(total * (d1 * d2) == n1 * s1 * (d1 * d2) + n2 * s2 * (d1 * d2))
                by (nonlinear_arith)
                requires
                    total == n1 * s1 + n2 * s2,
            ;
            assert((n1 * d2 + n2 * d1) * c == n1 * d2 * c + n2 * d1 * c) by (nonlinear_arith);
            assert(total * (d1 * d2) == (n1 * d2 + n2 * d1) * c);
            assert(r.num * c == total * r.den);
            assert((r.num * (d1 * d2)) * c == ((n1 * d2 + n2 * d1) * r.den) * c)
                by (nonlinear_arith)
                requires
                    r.num * c == total * r.den && total * (d1 * d2) == (n1 * d2 + n2 * d1) * c,
            ;
            assert(r.num * (d1 * d2) == (n1 * d2 + n2 * d1) * r.den) by (nonlinear_arith)
                requires
                    (r.num * (d1 * d2)) * c == ((n1 * d2 + n2 * d1) * r.den) * c && c > 0,
            ;
        }
        r
    }

    /// The difference of two fractions, in base form; stated by
    /// cross-multiplication against the common denominator.
    pub fn sub(self, rhs: Self) -> (r: Self)
        requires
            self.wf(),
            rhs.wf(),
            spec_lcm(self.den as nat, rhs.den as nat) <= i64::MAX,
            -(i64::MAX as int) <= self.num * (spec_lcm(self.den as nat, rhs.den as nat)
                / self.den as int) <= i64::MAX,
            -(i64::MAX as int) <= rhs.num * (spec_lcm(self.den as nat, rhs.den as nat)
                / rhs.den as int) <= i64::MAX,
            -(i64::MAX as int) <= self.num * (spec_lcm(self.den as nat, rhs.den as nat)
                / self.den as int) - rhs.num * (spec_lcm(self.den as nat, rhs.den as nat)
                / rhs.den as int) <= i64::MAX,
        ensures
            r.wf(),
            r.num * (self.den * rhs.den) == (self.num * rhs.den - rhs.num * self.den) * r.den,
    {
        let cden = lcm(self.den, rhs.den);
        proof {
            lemma_gcd_divides(self.den as nat, rhs.den as nat);
            let g = spec_gcd(self.den as nat, rhs.den as nat) as int;
            lemma_fundamental_div_mod(self.den as int, g);
            assert(self.den as int / g >= 1) by (nonlinear_arith)
                requires
                    self.den as int == g * (self.den as int / g) && self.den >= 1 && g >= 1,
            ;
            assert(cden >= 1) by (nonlinear_arith)
                requires
                    cden as int == (self.den as int / g) * (rhs.den as int) && self.den as int / g
                        >= 1 && rhs.den >= 1,
            ;
        }
        let scale_self = cden / self.den;
        let scale_rhs = cden / rhs.den;
        proof {
            lemma_fundamental_div_mod(cden as int, self.den as int);
            lemma_fundamental_div_mod(cden as int, rhs.den as int);
            assert(cden as int == (self.den as int) * (scale_self as int));
            assert(cden as int == (rhs.den as int) * (scale_rhs as int));
        }
        let num_self = self.num * (scale_self as i64);
        let num_rhs = rhs.num * (scale_rhs as i64);
        let r = Self::new(num_self - num_rhs, cden as i64);
        proof {
            let n1 = self.num as int;
            let n2 = rhs.num as int;
            let d1 = self.den as int;
            let d2 = rhs.den as int;
            let c = cden as int;
            let s1 = scale_self as int;
            let s2 = scale_rhs as int;
            let total = n1 * s1 - n2 * s2;
            assert(n1 * s1 * (d1 * d2) == n1 * d2 * c) by (nonlinear_arith)
                requires
                    c == d1 * s1,
            ;
            assert(n2 * s2 * (d1 * d2) == n2 * d1 * c) by (nonlinear_arith)
                requires
                    c == d2 * s2,
            ;
            assert(total * (d1 * d2) == n1 * s1 * (d1 * d2) - n2 * s2 * (d1 * d2))
                by (nonlinear_arith)
                requires
                    total == n1 * s1 - n2 * s2,
            ;
            assert((n1 * d2 - n2 * d1) * c == n1 * d2 * c - n2 * d1 * c) by (nonlinear_arith);
            assert(total * (d1 * d2) == (n1 * d2 - n2 * d1) * c);
            assert(r.num * c == total * r.den);
            assert((r.num * (d1 * d2)) * c == ((n1 * d2 - n2 * d1) * r.den) * c)
                by (nonlinear_arith)
                requires
                    r.num * c == total * r.den && total * (d1 * d2) == (n1 * d2 - n2 * d1) * c,
            ;
            assert(r.num * (d1 * d2) == (n1 * d2 - n2 * d1) * r.den) by (nonlinear_arith)
                requires
                    (r.num * (d1 * d2)) * c == ((n1 * d2 - n2 * d1) * r.den) * c && c > 0,
            ;
        }
        r
    }

    /// The product of two fractions, in base form.
    pub fn mul(self, rhs: Self) -> (r: Self)
        requires
            self.wf(),
            rhs.wf(),
            -(i64::MAX as int) <= self.num * rhs.num <= i64::MAX,
            self.den * rhs.den <= i64::MAX,
        ensures
            r.wf(),
            r.num * (self.den * rhs.den) == (self.num * rhs.num) * r.den,
    {
        proof {
            assert(self.den * rhs.den >= 1) by (nonlinear_arith)
                requires
                    self.den >= 1 && rhs.den >= 1,
            ;
        }
        let num = self.num * rhs.num;
        let den = self.den * rhs.den;
        Self::new(num, den as i64)
    }

    /// The quotient of two fractions, in base form; the divisor must
    /// not be zero.
    pub fn div(self, rhs: Self) -> (r: Self)
        requires
            self.wf(),
            rhs.wf(),
            rhs.num != 0,
            self.den <= i64::MAX,
            rhs.den <= i64::MAX,
            -(i64::MAX as int) <= self.num * rhs.den <= i64::MAX,
            -(i64::MAX as int) <= self.den * rhs.num <= i64::MAX,
        ensures
            r.wf(),
            r.num * (self.den * rhs.num) == (self.num * rhs.den) * r.den,
    {
        proof {
            assert(self.den * rhs.num != 0) by (nonlinear_arith)
                requires
                    self.den > 0 && rhs.num != 0,
            ;
        }
        let num = self.num * (rhs.den as i64);
        let den = (self.den as i64) * rhs.num;
        Self::new(num, den)
    }

    /// In-place sum.
    pub fn add_assign(&mut self, rhs: Self)
        requires
            old(self).wf(),
            rhs.wf(),
            spec_lcm(old(self).den as nat, rhs.den as nat) <= i64::MAX,
            -(i64::MAX as int) <= old(self).num * (spec_lcm(old(self).den as nat, rhs.den as nat)
                / old(self).den as int) <= i64::MAX,
            -(i64::MAX as int) <= rhs.num * (spec_lcm(old(self).den as nat, rhs.den as nat)
                / rhs.den as int) <= i64::MAX,
            -(i64::MAX as int) <= old(self).num * (spec_lcm(old(self).den as nat, rhs.den as nat)
                / old(self).den as int) + rhs.num * (spec_lcm(old(self).den as nat, rhs.den as nat)
                / rhs.den as int) <= i64::MAX,
        ensures
            final(self).wf(),
            final(self).num * (old(self).den * rhs.den) == (old(self).num * rhs.den + rhs.num
                * old(self).den) * final(self).den,
    {
        *self = (*self).add(rhs);
    }

    /// In-place difference.
    pub fn sub_assign(&mut self, rhs: Self)
        requires
            old(self).wf(),
            rhs.wf(),
            spec_lcm(old(self).den as nat, rhs.den as nat) <= i64::MAX,
            -(i64::MAX as int) <= old(self).num * (spec_lcm(old(self).den as nat, rhs.den as nat)
                / old(self).den as int) <= i64::MAX,
            -(i64::MAX as int) <= rhs.num * (spec_lcm(old(self).den as nat, rhs.den as nat)
                / rhs.den as int) <= i64::MAX,
            -(i64::MAX as int) <= old(self).num * (spec_lcm(old(self).den as nat, rhs.den as nat)
                / old(self).den as int) - rhs.num * (spec_lcm(old(self).den as nat, rhs.den as nat)
                / rhs.den as int) <= i64::MAX,
        ensures
            final(self).wf(),
            final(self).num * (old(self).den * rhs.den) == (old(self).num * rhs.den - rhs.num
                * old(self).den) * final(self).den,
    {
        *self = (*self).sub(rhs);
    }

    /// In-place product.
    pub fn mul_assign(&mut self, rhs: Self)
        requires
            old(self).wf(),
            rhs.wf(),
            -(i64::MAX as int) <= old(self).num * rhs.num <= i64::MAX,
            old(self).den * rhs.den <= i64::MAX,
        ensures
            final(self).wf(),
            final(self).num * (old(self).den * rhs.den) == (old(self).num * rhs.num) * final(self).den,
    {
        *self = (*self).mul(rhs);
    }

    /// In-place quotient.
    pub fn div_assign(&mut self, rhs: Self)
        requires
            old(self).wf(),
            rhs.wf(),
            rhs.num != 0,
            old(self).den <= i64::MAX,
            rhs.den <= i64::MAX,
            -(i64::MAX as int) <= old(self).num * rhs.den <= i64::MAX,
            -(i64::MAX as int) <= old(self).den * rhs.num <= i64::MAX,
        ensures
            final(self).wf(),
            final(self).num * (old(self).den * rhs.num) == (old(self).num * rhs.den) * final(self).den,
    {
        *self = (*self).div(rhs);
    }
}

} // verus!
