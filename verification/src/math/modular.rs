//! Modular arithmetic over a compile-time modulus: 64-bit and 128-bit
//! residue types with addition, subtraction, multiplication,
//! exponentiation and multiplicative inverses.

use vstd::prelude::*;
use vstd::arithmetic::div_mod::{
    lemma_fundamental_div_mod_converse_mod,
    lemma_mod_add_multiples_vanish,
    lemma_mod_multiples_vanish,
    lemma_mul_mod_noop_general,
    lemma_small_mod,
};

verus! {

/// A residue modulo `MODULUS`, stored as its canonical representative.
#[derive(Copy, Clone)]
pub struct MInt<const MODULUS: u64> {
    pub value: u64,
}

impl<const MODULUS: u64> MInt<MODULUS> {
    /// The stored representative is canonical: strictly below the
    /// modulus.
    pub open spec fn wf(self) -> bool {
        self.value < MODULUS
    }

    /// The residue one; canonical whenever the modulus exceeds one.
    pub fn one() -> (r: Self)
        ensures
            r.value == 1,
            MODULUS > 1 ==> r.wf(),
    {
        Self { value: 1 }
    }

    /// The residue zero.
    pub fn zero() -> (r: Self)
        ensures
            r.value == 0,
            MODULUS > 0 ==> r.wf(),
    {
        Self { value: 0 }
    }

    /// Reduces an arbitrary 64-bit value to its canonical residue.
    pub fn new(value: u64) -> (r: Self)
        requires
            MODULUS > 0,
        ensures
            r.wf(),
            r.value == value as int % MODULUS as int,
    {
        Self { value: value % MODULUS }
    }

    /// Residue addition: the canonical representative of the sum.
    pub fn add(self, rhs: Self) -> (r: Self)
        requires
            self.wf(),
            rhs.wf(),
            2 * (MODULUS as int) <= u64::MAX + 1,
        ensures
            r.wf(),
            r.value == (self.value + rhs.value) % (MODULUS as int),
    {
        let mut value = self.value + rhs.value;
        if value >= MODULUS {
            value = value - MODULUS;
        }
        proof {
            let m = MODULUS as int;
            let s = self.value + rhs.value;
            if s < m {
                lemma_small_mod(s as nat, m as nat);
            } else {
                lemma_fundamental_div_mod_converse_mod(s, m, 1, s - m);
            }
        }
        Self { value }
    }

    /// Residue subtraction: the canonical representative of the
    /// difference.
    pub fn sub(self, rhs: Self) -> (r: Self)
        requires
            self.wf(),
            rhs.wf(),
            2 * (MODULUS as int) <= u64::MAX + 1,
        ensures
            r.wf(),
            r.value == (self.value - rhs.value) % (MODULUS as int),
    {
        let mut value = self.value + MODULUS - rhs.value;
        if value >= MODULUS {
            value = value - MODULUS;
        }
        proof {
            let m = MODULUS as int;
            let d = self.value - rhs.value;
            if self.value >= rhs.value {
                lemma_fundamental_div_mod_converse_mod(d, m, 0, d);
            } else {
                lemma_fundamental_div_mod_converse_mod(d, m, -1, d + m);
            }
        }
        Self { value }
    }

    /// Residue multiplication: the canonical representative of the
    /// product.
    pub fn mul(self, rhs: Self) -> (r: Self)
        requires
            self.wf(),
            rhs.wf(),
            MODULUS > 0,
            (MODULUS - 1) * (MODULUS - 1) <= u64::MAX,
        ensures
            r.wf(),
            r.value == (self.value * rhs.value) % (MODULUS as int),
    {
        proof {
            assert(self.value * rhs.value <= (MODULUS - 1) * (MODULUS - 1)) by (nonlinear_arith)
                requires
                    self.value <= MODULUS - 1 && rhs.value <= MODULUS - 1,
            ;
        }
        Self { value: (self.value * rhs.value) % MODULUS }
    }

    /// Residue exponentiation by squaring: the canonical representative
    /// of `self` raised to `n`.
    pub fn pow(self, n: u64) -> (r: Self)
        requires
            self.wf(),
            MODULUS > 1,
            (MODULUS - 1) * (MODULUS - 1) <= u64::MAX,
        ensures
            r.wf(),
            r.value == vstd::arithmetic::power::pow(self.value as int, n as nat) % (
            MODULUS as int),
    {
        let ghost m = MODULUS as int;
        let ghost pw = |b: int, e: nat| vstd::arithmetic::power::pow(b, e);
        let mut result = Self::one();
        let mut base = self;
        let mut exponent = n;
        while exponent > 0
            invariant
                MODULUS > 1,
                (MODULUS - 1) * (MODULUS - 1) <= u64::MAX,
                m == MODULUS as int,
                pw == (|b: int, e: nat| vstd::arithmetic::power::pow(b, e)),
                base.wf(),
                result.wf(),
                (result.value * pw(base.value as int, exponent as nat)) % m == pw(
                    self.value as int,
                    n as nat,
                ) % m,
            decreases exponent,
        {
            let ghost old_result = result.value as int;
            let ghost old_base = base.value as int;
            let ghost old_exp = exponent as nat;
            let odd = exponent % 2 == 1;
            if odd {
                result = result.mul(base);
            }
            base = base.mul(base);
            exponent = exponent / 2;
            proof {
                let half = exponent as nat;
                vstd::arithmetic::power::lemma_square_is_pow2(old_base);
                vstd::arithmetic::power::lemma_pow_multiplies(old_base, 2, half);
                assert(pw(old_base * old_base, half) == pw(old_base, 2 * half));
                vstd::arithmetic::power::lemma_pow_mod_noop(old_base * old_base, half, m);
                assert(base.value == (old_base * old_base) % m);
                assert(pw(base.value as int, half) % m == pw(old_base * old_base, half) % m);
                if odd {
                    assert(old_exp == 2 * half + 1);
                    vstd::arithmetic::power::lemma_pow_adds(old_base, 1, 2 * half);
                    vstd::arithmetic::power::lemma_pow1(old_base);
                    assert(pw(old_base, old_exp) == old_base * pw(old_base, 2 * half));
                    assert(result.value == (old_result * old_base) % m);
                    assert((result.value * pw(base.value as int, half)) % m == ((old_result
                        * old_base) * pw(old_base * old_base, half)) % m) by {
                        lemma_mul_mod_noop_general(
                            old_result * old_base,
                            pw(old_base * old_base, half),
                            m,
                        );
                        lemma_mul_mod_noop_general(
                            (old_result * old_base) % m,
                            pw(old_base * old_base, half) % m,
                            m,
                        );
                        lemma_mul_mod_noop_general(
                            result.value as int,
                            pw(base.value as int, half),
                            m,
                        );
                        lemma_small_mod(result.value as nat, MODULUS as nat);
                    }
                    assert((old_result * old_base) * pw(old_base * old_base, half) == old_result
                        * pw(old_base, old_exp)) by (nonlinear_arith)
                        requires
                            pw(old_base * old_base, half) == pw(old_base, 2 * half) && pw(
                                old_base,
                                old_exp,
                            ) == old_base * pw(old_base, 2 * half),
                    ;
                } else {
                    assert(old_exp == 2 * half);
                    assert(result.value == old_result);
                    assert((result.value * pw(base.value as int, half)) % m == (old_result * pw(
                        old_base * old_base,
                        half,
                    )) % m) by {
                        lemma_mul_mod_noop_general(old_result, pw(old_base * old_base, half), m);
                        lemma_mul_mod_noop_general(
                            old_result % m,
                            pw(old_base * old_base, half) % m,
                            m,
                        );
                        lemma_mul_mod_noop_general(
                            result.value as int,
                            pw(base.value as int, half),
                            m,
                        );
                        lemma_small_mod(result.value as nat, MODULUS as nat);
                    }
                }
            }
        }
        proof {
            vstd::arithmetic::power::lemma_pow0(base.value as int);
            lemma_small_mod(result.value as nat, MODULUS as nat);
        }
        result
    }

    /// The extended Euclidean algorithm: the divisor together with
    /// Bezout coefficients `x`, `y` with `a * x + b * y` equal to it;
    /// both coefficients stay within the other argument's magnitude.
    fn extended_gcd(a: i64, b: i64) -> (r: (i64, i64, i64))
        requires
            0 <= a,
            a <= b,
            b <= 0x3fff_ffff_ffff_ffff,
        ensures
            r.0 == crate::math::spec_gcd(a as nat, b as nat),
            a * r.1 + b * r.2 == r.0,
            a == 0 ==> r.1 == 0 && r.2 == 1,
            -crate::math::spec_max1(b as int) <= r.1 <= crate::math::spec_max1(b as int),
            -crate::math::spec_max1(a as int) <= r.2 <= crate::math::spec_max1(a as int),
        decreases a,
    {
        if a == 0 {
            (b, 0, 1)
        } else {
            let rem = b % a;
            let quot = b / a;
            let (g, x, y) = Self::extended_gcd(rem, a);
            proof {
                vstd::arithmetic::div_mod::lemma_fundamental_div_mod(b as int, a as int);
                assert(quot * a <= b) by (nonlinear_arith)
                    requires
                        b == quot * a + rem && rem >= 0,
                ;
                assert(quot >= 0) by (nonlinear_arith)
                    requires
                        b == quot * a + rem && rem < a && a >= 1 && b >= a,
                ;
                assert(-(quot * a) <= quot * x <= quot * a) by (nonlinear_arith)
                    requires
                        quot >= 0 && -a <= x <= a,
                ;
                if rem == 0 {
                    assert(x == 0 && y == 1);
                } else {
                    assert(-rem <= y <= rem);
                }
                let nx = y - quot * x;
                assert(a * nx + b * x == g) by (nonlinear_arith)
                    requires
                        nx == y - quot * x && b == quot * a + rem && rem * x + a * y == g,
                ;
            }
            (g, y - quot * x, x)
        }
    }

    /// The multiplicative inverse of a residue coprime with the
    /// modulus, through the extended Euclidean algorithm.
    pub fn inv(self) -> (r: Self)
        requires
            self.wf(),
            MODULUS as int <= 0x3fff_ffff_ffff_ffff,
            crate::math::spec_gcd(self.value as nat, MODULUS as nat) == 1,
        ensures
            r.wf(),
            (r.value * self.value) % (MODULUS as int) == 1int % (MODULUS as int),
    {
        let (g0, x, y0) = Self::extended_gcd(self.value as i64, MODULUS as i64);
        let r = Self::new((x + MODULUS as i64) as u64);
        proof {
            let m = MODULUS as int;
            let v = self.value as int;
            let xi = x as int;
            let yi = y0 as int;
            assert(g0 == 1);
            assert(v * xi + m * yi == 1);
            lemma_mod_add_multiples_vanish(xi, m);
            assert(r.value == xi % m);
            lemma_mul_mod_noop_general(xi, v, m);
            assert((xi % m * v) % m == (xi * v) % m);
            assert(m * yi + xi * v == 1) by (nonlinear_arith)
                requires
                    v * xi + m * yi == 1,
            ;
            lemma_mod_multiples_vanish(yi, xi * v, m);
            assert((m * yi + xi * v) % m == (xi * v) % m);
            lemma_mul_mod_noop_general(r.value as int, v, m);
        }
        r
    }

    /// Residue division: multiplication by the divisor's inverse, so
    /// the result times the divisor gives back the dividend's residue.
    pub fn div(self, rhs: Self) -> (r: Self)
        requires
            self.wf(),
            rhs.wf(),
            MODULUS > 1,
            (MODULUS - 1) * (MODULUS - 1) <= u64::MAX,
            MODULUS as int <= 0x3fff_ffff_ffff_ffff,
            crate::math::spec_gcd(rhs.value as nat, MODULUS as nat) == 1,
        ensures
            r.wf(),
            (r.value * rhs.value) % (MODULUS as int) == self.value as int % (MODULUS as int),
    {
        let iv = rhs.inv();
        let r = self.mul(iv);
        proof {
            let m = MODULUS as int;
            let s = self.value as int;
            let b = rhs.value as int;
            let i = iv.value as int;
            assert(r.value == (s * i) % m);
            assert((i * b) % m == 1int % m);
            assert(1int % m == 1) by {
                lemma_small_mod(1nat, MODULUS as nat);
            }
            assert(((s * i) % m * b) % m == ((s * i) * b) % m) by {
                lemma_mul_mod_noop_general(s * i, b, m);
            }
            assert((s * i) * b == s * (i * b)) by (nonlinear_arith);
            assert((s * (i * b)) % m == (s * ((i * b) % m)) % m) by {
                lemma_mul_mod_noop_general(s, i * b, m);
                lemma_mul_mod_noop_general(s, (i * b) % m, m);
            }
            assert(s * 1 == s);
        }
        r
    }

    /// In-place residue addition.
    pub fn add_assign(&mut self, rhs: Self)
        requires
            old(self).wf(),
            rhs.wf(),
            2 * (MODULUS as int) <= u64::MAX + 1,
        ensures
            final(self).wf(),
            final(self).value == (old(self).value + rhs.value) % (MODULUS as int),
    {
        *self = (*self).add(rhs);
    }

    /// In-place residue subtraction.
    pub fn sub_assign(&mut self, rhs: Self)
        requires
            old(self).wf(),
            rhs.wf(),
            2 * (MODULUS as int) <= u64::MAX + 1,
        ensures
            final(self).wf(),
            final(self).value == (old(self).value - rhs.value) % (MODULUS as int),
    {
        *self = (*self).sub(rhs);
    }

    /// In-place residue multiplication.
    pub fn mul_assign(&mut self, rhs: Self)
        requires
            old(self).wf(),
            rhs.wf(),
            MODULUS > 0,
            (MODULUS - 1) * (MODULUS - 1) <= u64::MAX,
        ensures
            final(self).wf(),
            final(self).value == (old(self).value * rhs.value) % (MODULUS as int),
    {
        *self = (*self).mul(rhs);
    }

    /// In-place residue division.
    pub fn div_assign(&mut self, rhs: Self)
        requires
            old(self).wf(),
            rhs.wf(),
            MODULUS > 1,
            (MODULUS - 1) * (MODULUS - 1) <= u64::MAX,
            MODULUS as int <= 0x3fff_ffff_ffff_ffff,
            crate::math::spec_gcd(rhs.value as nat, MODULUS as nat) == 1,
        ensures
            final(self).wf(),
            (final(self).value * rhs.value) % (MODULUS as int) == old(self).value as int % (
            MODULUS as int),
    {
        *self = (*self).div(rhs);
    }
}

/// A 128-bit residue modulo `MODULUS`, stored as its canonical
/// representative.
#[derive(Copy, Clone)]
pub struct MInt128<const MODULUS: u128> {
    pub value: u128,
}

impl<const MODULUS: u128> MInt128<MODULUS> {
    /// The stored representative is canonical: strictly below the
    /// modulus.
    pub open spec fn wf(self) -> bool {
        self.value < MODULUS
    }

    /// The residue one; canonical whenever the modulus exceeds one.
    pub fn one() -> (r: Self)
        ensures
            r.value == 1,
            MODULUS > 1 ==> r.wf(),
    {
        Self { value: 1 }
    }

    /// The residue zero.
    pub fn zero() -> (r: Self)
        ensures
            r.value == 0,
            MODULUS > 0 ==> r.wf(),
    {
        Self { value: 0 }
    }

    /// Reduces an arbitrary 64-bit value to its canonical residue.
    pub fn new(value: u128) -> (r: Self)
        requires
            MODULUS > 0,
        ensures
            r.wf(),
            r.value == value as int % MODULUS as int,
    {
        Self { value: value % MODULUS }
    }

    /// Residue addition: the canonical representative of the sum.
    pub fn add(self, rhs: Self) -> (r: Self)
        requires
            self.wf(),
            rhs.wf(),
            2 * (MODULUS as int) <= u128::MAX + 1,
        ensures
            r.wf(),
            r.value == (self.value + rhs.value) % (MODULUS as int),
    {
        let mut value = self.value + rhs.value;
        if value >= MODULUS {
            value = value - MODULUS;
        }
        proof {
            let m = MODULUS as int;
            let s = self.value + rhs.value;
            if s < m {
                lemma_small_mod(s as nat, m as nat);
            } else {
                lemma_fundamental_div_mod_converse_mod(s, m, 1, s - m);
            }
        }
        Self { value }
    }

    /// Residue subtraction: the canonical representative of the
    /// difference.
    pub fn sub(self, rhs: Self) -> (r: Self)
        requires
            self.wf(),
            rhs.wf(),
            2 * (MODULUS as int) <= u128::MAX + 1,
        ensures
            r.wf(),
            r.value == (self.value - rhs.value) % (MODULUS as int),
    {
        let mut value = self.value + MODULUS - rhs.value;
        if value >= MODULUS {
            value = value - MODULUS;
        }
        proof {
            let m = MODULUS as int;
            let d = self.value - rhs.value;
            if self.value >= rhs.value {
                lemma_fundamental_div_mod_converse_mod(d, m, 0, d);
            } else {
                lemma_fundamental_div_mod_converse_mod(d, m, -1, d + m);
            }
        }
        Self { value }
    }

    /// Residue multiplication: the canonical representative of the
    /// product.
    pub fn mul(self, rhs: Self) -> (r: Self)
        requires
            self.wf(),
            rhs.wf(),
            MODULUS > 0,
            (MODULUS - 1) * (MODULUS - 1) <= u128::MAX,
        ensures
            r.wf(),
            r.value == (self.value * rhs.value) % (MODULUS as int),
    {
        proof {
            assert(self.value * rhs.value <= (MODULUS - 1) * (MODULUS - 1)) by (nonlinear_arith)
                requires
                    self.value <= MODULUS - 1 && rhs.value <= MODULUS - 1,
            ;
        }
        Self { value: (self.value * rhs.value) % MODULUS }
    }

    /// Residue exponentiation by squaring: the canonical representative
    /// of `self` raised to `n`.
    pub fn pow(self, n: u128) -> (r: Self)
        requires
            self.wf(),
            MODULUS > 1,
            (MODULUS - 1) * (MODULUS - 1) <= u128::MAX,
        ensures
            r.wf(),
            r.value == vstd::arithmetic::power::pow(self.value as int, n as nat) % (
            MODULUS as int),
    {
        let ghost m = MODULUS as int;
        let ghost pw = |b: int, e: nat| vstd::arithmetic::power::pow(b, e);
        let mut result = Self::one();
        let mut base = self;
        let mut exponent = n;
        while exponent > 0
            invariant
                MODULUS > 1,
                (MODULUS - 1) * (MODULUS - 1) <= u128::MAX,
                m == MODULUS as int,
                pw == (|b: int, e: nat| vstd::arithmetic::power::pow(b, e)),
                base.wf(),
                result.wf(),
                (result.value * pw(base.value as int, exponent as nat)) % m == pw(
                    self.value as int,
                    n as nat,
                ) % m,
            decreases exponent,
        {
            let ghost old_result = result.value as int;
            let ghost old_base = base.value as int;
            let ghost old_exp = exponent as nat;
            let odd = exponent % 2 == 1;
            if odd {
                result = result.mul(base);
            }
            base = base.mul(base);
            exponent = exponent / 2;
            proof {
                let half = exponent as nat;
                vstd::arithmetic::power::lemma_square_is_pow2(old_base);
                vstd::arithmetic::power::lemma_pow_multiplies(old_base, 2, half);
                assert(pw(old_base * old_base, half) == pw(old_base, 2 * half));
                vstd::arithmetic::power::lemma_pow_mod_noop(old_base * old_base, half, m);
                assert(base.value == (old_base * old_base) % m);
                assert(pw(base.value as int, half) % m == pw(old_base * old_base, half) % m);
                if odd {
                    assert(old_exp == 2 * half + 1);
                    vstd::arithmetic::power::lemma_pow_adds(old_base, 1, 2 * half);
                    vstd::arithmetic::power::lemma_pow1(old_base);
                    assert(pw(old_base, old_exp) == old_base * pw(old_base, 2 * half));
                    assert(result.value == (old_result * old_base) % m);
                    assert((result.value * pw(base.value as int, half)) % m == ((old_result
                        * old_base) * pw(old_base * old_base, half)) % m) by {
                        lemma_mul_mod_noop_general(
                            old_result * old_base,
                            pw(old_base * old_base, half),
                            m,
                        );
                        lemma_mul_mod_noop_general(
                            (old_result * old_base) % m,
                            pw(old_base * old_base, half) % m,
                            m,
                        );
                        lemma_mul_mod_noop_general(
                            result.value as int,
                            pw(base.value as int, half),
                            m,
                        );
                        lemma_small_mod(result.value as nat, MODULUS as nat);
                    }
                    assert((old_result * old_base) * pw(old_base * old_base, half) == old_result
                        * pw(old_base, old_exp)) by (nonlinear_arith)
                        requires
                            pw(old_base * old_base, half) == pw(old_base, 2 * half) && pw(
                                old_base,
                                old_exp,
                            ) == old_base * pw(old_base, 2 * half),
                    ;
                } else {
                    assert(old_exp == 2 * half);
                    assert(result.value == old_result);
                    assert((result.value * pw(base.value as int, half)) % m == (old_result * pw(
                        old_base * old_base,
                        half,
                    )) % m) by {
                        lemma_mul_mod_noop_general(old_result, pw(old_base * old_base, half), m);
                        lemma_mul_mod_noop_general(
                            old_result % m,
                            pw(old_base * old_base, half) % m,
                            m,
                        );
                        lemma_mul_mod_noop_general(
                            result.value as int,
                            pw(base.value as int, half),
                            m,
                        );
                        lemma_small_mod(result.value as nat, MODULUS as nat);
                    }
                }
            }
        }
        proof {
            vstd::arithmetic::power::lemma_pow0(base.value as int);
            lemma_small_mod(result.value as nat, MODULUS as nat);
        }
        result
    }

    /// The extended Euclidean algorithm: the divisor together with
    /// Bezout coefficients `x`, `y` with `a * x + b * y` equal to it;
    /// both coefficients stay within the other argument's magnitude.
    fn extended_gcd(a: i128, b: i128) -> (r: (i128, i128, i128))
        requires
            0 <= a,
            a <= b,
            b <= 0x3fff_ffff_ffff_ffff_ffff_ffff_ffff_ffff,
        ensures
            r.0 == crate::math::spec_gcd(a as nat, b as nat),
            a * r.1 + b * r.2 == r.0,
            a == 0 ==> r.1 == 0 && r.2 == 1,
            -crate::math::spec_max1(b as int) <= r.1 <= crate::math::spec_max1(b as int),
            -crate::math::spec_max1(a as int) <= r.2 <= crate::math::spec_max1(a as int),
        decreases a,
    {
        if a == 0 {
            (b, 0, 1)
        } else {
            let rem = b % a;
            let quot = b / a;
            let (g, x, y) = Self::extended_gcd(rem, a);
            proof {
                vstd::arithmetic::div_mod::lemma_fundamental_div_mod(b as int, a as int);
                assert(quot * a <= b) by (nonlinear_arith)
                    requires
                        b == quot * a + rem && rem >= 0,
                ;
                assert(quot >= 0) by (nonlinear_arith)
                    requires
                        b == quot * a + rem && rem < a && a >= 1 && b >= a,
                ;
                assert(-(quot * a) <= quot * x <= quot * a) by (nonlinear_arith)
                    requires
                        quot >= 0 && -a <= x <= a,
                ;
                if rem == 0 {
                    assert(x == 0 && y == 1);
                } else {
                    assert(-rem <= y <= rem);
                }
                let nx = y - quot * x;
                assert(a * nx + b * x == g) by (nonlinear_arith)
                    requires
                        nx == y - quot * x && b == quot * a + rem && rem * x + a * y == g,
                ;
            }
            (g, y - quot * x, x)
        }
    }

    /// The multiplicative inverse of a residue coprime with the
    /// modulus, through the extended Euclidean algorithm.
    pub fn inv(self) -> (r: Self)
        requires
            self.wf(),
            MODULUS as int <= 0x3fff_ffff_ffff_ffff_ffff_ffff_ffff_ffff,
            crate::math::spec_gcd(self.value as nat, MODULUS as nat) == 1,
        ensures
            r.wf(),
            (r.value * self.value) % (MODULUS as int) == 1int % (MODULUS as int),
    {
        let (g0, x, y0) = Self::extended_gcd(self.value as i128, MODULUS as i128);
        let r = Self::new((x + MODULUS as i128) as u128);
        proof {
            let m = MODULUS as int;
            let v = self.value as int;
            let xi = x as int;
            let yi = y0 as int;
            assert(g0 == 1);
            assert(v * xi + m * yi == 1);
            lemma_mod_add_multiples_vanish(xi, m);
            assert(r.value == xi % m);
            lemma_mul_mod_noop_general(xi, v, m);
            assert((xi % m * v) % m == (xi * v) % m);
            assert(m * yi + xi * v == 1) by (nonlinear_arith)
                requires
                    v * xi + m * yi == 1,
            ;
            lemma_mod_multiples_vanish(yi, xi * v, m);
            assert((m * yi + xi * v) % m == (xi * v) % m);
            lemma_mul_mod_noop_general(r.value as int, v, m);
        }
        r
    }

    /// Residue division: multiplication by the divisor's inverse, so
    /// the result times the divisor gives back the dividend's residue.
    pub fn div(self, rhs: Self) -> (r: Self)
        requires
            self.wf(),
            rhs.wf(),
            MODULUS > 1,
            (MODULUS - 1) * (MODULUS - 1) <= u128::MAX,
            MODULUS as int <= 0x3fff_ffff_ffff_ffff_ffff_ffff_ffff_ffff,
            crate::math::spec_gcd(rhs.value as nat, MODULUS as nat) == 1,
        ensures
            r.wf(),
            (r.value * rhs.value) % (MODULUS as int) == self.value as int % (MODULUS as int),
    {
        let iv = rhs.inv();
        let r = self.mul(iv);
        proof {
            let m = MODULUS as int;
            let s = self.value as int;
            let b = rhs.value as int;
            let i = iv.value as int;
            assert(r.value == (s * i) % m);
            assert((i * b) % m == 1int % m);
            assert(1int % m == 1) by {
                lemma_small_mod(1nat, MODULUS as nat);
            }
            assert(((s * i) % m * b) % m == ((s * i) * b) % m) by {
                lemma_mul_mod_noop_general(s * i, b, m);
            }
            assert((s * i) * b == s * (i * b)) by (nonlinear_arith);
            assert((s * (i * b)) % m == (s * ((i * b) % m)) % m) by {
                lemma_mul_mod_noop_general(s, i * b, m);
                lemma_mul_mod_noop_general(s, (i * b) % m, m);
            }
            assert(s * 1 == s);
        }
        r
    }

    /// In-place residue addition.
    pub fn add_assign(&mut self, rhs: Self)
        requires
            old(self).wf(),
            rhs.wf(),
            2 * (MODULUS as int) <= u128::MAX + 1,
        ensures
            final(self).wf(),
            final(self).value == (old(self).value + rhs.value) % (MODULUS as int),
    {
        *self = (*self).add(rhs);
    }

    /// In-place residue subtraction.
    pub fn sub_assign(&mut self, rhs: Self)
        requires
            old(self).wf(),
            rhs.wf(),
            2 * (MODULUS as int) <= u128::MAX + 1,
        ensures
            final(self).wf(),
            final(self).value == (old(self).value - rhs.value) % (MODULUS as int),
    {
        *self = (*self).sub(rhs);
    }

    /// In-place residue multiplication.
    pub fn mul_assign(&mut self, rhs: Self)
        requires
            old(self).wf(),
            rhs.wf(),
            MODULUS > 0,
            (MODULUS - 1) * (MODULUS - 1) <= u128::MAX,
        ensures
            final(self).wf(),
            final(self).value == (old(self).value * rhs.value) % (MODULUS as int),
    {
        *self = (*self).mul(rhs);
    }

    /// In-place residue division.
    pub fn div_assign(&mut self, rhs: Self)
        requires
            old(self).wf(),
            rhs.wf(),
            MODULUS > 1,
            (MODULUS - 1) * (MODULUS - 1) <= u128::MAX,
            MODULUS as int <= 0x3fff_ffff_ffff_ffff_ffff_ffff_ffff_ffff,
            crate::math::spec_gcd(rhs.value as nat, MODULUS as nat) == 1,
        ensures
            final(self).wf(),
            (final(self).value * rhs.value) % (MODULUS as int) == old(self).value as int % (
            MODULUS as int),
    {
        *self = (*self).div(rhs);
    }
}

} // verus!
