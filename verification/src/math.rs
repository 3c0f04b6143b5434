//! Number-theoretic utilities: greatest common divisor and least common
//! multiple, with the divisibility facts the other math modules build on.

use vstd::prelude::*;
use vstd::arithmetic::div_mod::{
    lemma_fundamental_div_mod,
    lemma_fundamental_div_mod_converse_mod,
    lemma_mod_multiples_vanish,
};

pub mod fractions;
pub mod modular;
pub mod primes;

verus! {

/// The greatest common divisor, by Euclid's recursion; zero exactly
/// when both arguments are zero.
pub open spec fn spec_gcd(a: nat, b: nat) -> nat
    decreases a,
{
    if a == 0 {
        b
    } else {
        spec_gcd(b % a, a)
    }
}

/// `n`, floored at one; the bound the Bezout coefficients obey.
pub open spec fn spec_max1(n: int) -> int {
    if n < 1 {
        1
    } else {
        n
    }
}

/// The divisor computed by Euclid's recursion divides both arguments,
/// and vanishes only when both do.
pub proof fn lemma_gcd_divides(a: nat, b: nat)
    ensures
        spec_gcd(a, b) == 0 ==> a == 0 && b == 0,
        spec_gcd(a, b) > 0 ==> a % spec_gcd(a, b) == 0 && b % spec_gcd(a, b) == 0,
    decreases a,
{
    let g = spec_gcd(a, b);
    if a == 0 {
        if b > 0 {
            assert(b % b == 0) by (nonlinear_arith)
                requires
                    b > 0,
            ;
            assert(0nat % b == 0) by (nonlinear_arith)
                requires
                    b > 0,
            ;
        }
    } else {
        lemma_gcd_divides(b % a, a);
        assert(g > 0);
        lemma_fundamental_div_mod(b as int, a as int);
        lemma_fundamental_div_mod(a as int, g as int);
        let q = b as int / a as int;
        let k = a as int / g as int;
        assert(a == g * k);
        assert(b == a * q + (b % a));
        assert(a * q == g * (k * q)) by (nonlinear_arith)
            requires
                a == g * k,
        ;
        lemma_mod_multiples_vanish(k * q, (b % a) as int, g as int);
        assert(b as int % (g as int) == (b % a) as int % (g as int));
    }
}

/// Every common divisor of `a` and `b` divides their greatest common
/// divisor; in particular none exceeds it.
pub proof fn lemma_common_divisor_divides_gcd(a: nat, b: nat, d: nat)
    requires
        d > 0,
        a % d == 0,
        b % d == 0,
    ensures
        spec_gcd(a, b) % d == 0,
    decreases a,
{
    if a == 0 {
    } else {
        lemma_fundamental_div_mod(b as int, a as int);
        lemma_fundamental_div_mod(a as int, d as int);
        let q = b as int / a as int;
        let k = a as int / d as int;
        assert(a == d * k);
        assert(b == a * q + (b % a));
        assert(a * q == d * (k * q)) by (nonlinear_arith)
            requires
                a == d * k,
        ;
        lemma_mod_multiples_vanish(k * q, (b % a) as int, d as int);
        assert((b % a) as int % (d as int) == b as int % (d as int));
        lemma_common_divisor_divides_gcd(b % a, a, d);
    }
}

/// A positive multiple of `d` is at least `d`.
pub proof fn lemma_divisor_le(n: nat, d: nat)
    requires
        d > 0,
        n > 0,
        n % d == 0,
    ensures
        d <= n,
{
    lemma_fundamental_div_mod(n as int, d as int);
    let k = n as int / d as int;
    assert(n == d * k);
    assert(k >= 1 ==> d * k >= d) by (nonlinear_arith);
    assert(k >= 1) by (nonlinear_arith)
        requires
            n == d * k && n > 0 && d > 0,
    ;
}

/// Dividing two numbers by their greatest common divisor leaves them
/// coprime.
pub proof fn lemma_div_by_gcd_coprime(a: nat, b: nat)
    requires
        spec_gcd(a, b) > 0,
    ensures
        spec_gcd(a / spec_gcd(a, b), b / spec_gcd(a, b)) == 1,
{
    let g = spec_gcd(a, b);
    let a1 = a / g;
    let b1 = b / g;
    lemma_gcd_divides(a, b);
    lemma_fundamental_div_mod(a as int, g as int);
    lemma_fundamental_div_mod(b as int, g as int);
    assert(a == g * a1);
    assert(b == g * b1);
    let g1 = spec_gcd(a1, b1);
    lemma_gcd_divides(a1, b1);
    if g1 == 0 {
        assert(a1 == 0 && b1 == 0);
        assert(a == 0 && b == 0) by (nonlinear_arith)
            requires
                a == g * a1 && b == g * b1 && a1 == 0 && b1 == 0,
        ;
        assert(spec_gcd(0, 0) == 0);
        assert(false);
    }
    lemma_fundamental_div_mod(a1 as int, g1 as int);
    lemma_fundamental_div_mod(b1 as int, g1 as int);
    let ka = a1 / g1;
    let kb = b1 / g1;
    assert(a1 == g1 * ka);
    assert(b1 == g1 * kb);
    assert(a == (g * g1) * ka) by (nonlinear_arith)
        requires
            a == g * a1 && a1 == g1 * ka,
    ;
    assert(b == (g * g1) * kb) by (nonlinear_arith)
        requires
            b == g * b1 && b1 == g1 * kb,
    ;
    let gg = g * g1;
    assert(gg > 0) by (nonlinear_arith)
        requires
            gg == g * g1 && g > 0 && g1 > 0,
    ;
    assert(a as int == (ka as int) * (gg as int) + 0) by (nonlinear_arith)
        requires
            a == (g * g1) * ka && gg == g * g1,
    ;
    assert(b as int == (kb as int) * (gg as int) + 0) by (nonlinear_arith)
        requires
            b == (g * g1) * kb && gg == g * g1,
    ;
    lemma_fundamental_div_mod_converse_mod(a as int, gg as int, ka as int, 0);
    lemma_fundamental_div_mod_converse_mod(b as int, gg as int, kb as int, 0);
    lemma_common_divisor_divides_gcd(a, b, gg);
    lemma_divisor_le(g, gg);
    assert(g1 <= 1) by (nonlinear_arith)
        requires
            gg <= g && gg == g * g1 && g > 0 && g1 > 0,
    ;
}

/// Euclid's swapping step does not change the divisor: the recursion is
/// symmetric in its arguments.
pub proof fn lemma_gcd_symmetric(a: nat, b: nat)
    ensures
        spec_gcd(a, b) == spec_gcd(b, a),
{
    if a == 0 && b == 0 {
    } else if a == 0 {
        assert(spec_gcd(b, a) == spec_gcd(a % b, b));
        assert(0nat % b == 0) by (nonlinear_arith)
            requires
                b > 0,
        ;
    } else if b == 0 {
        assert(spec_gcd(a, b) == spec_gcd(b % a, a));
        assert(0nat % a == 0) by (nonlinear_arith)
            requires
                a > 0,
        ;
    } else if a < b {
        assert(spec_gcd(b, a) == spec_gcd(a % b, b));
        assert(a % b == a) by (nonlinear_arith)
            requires
                0 < a < b,
        ;
    } else if b < a {
        assert(spec_gcd(a, b) == spec_gcd(b % a, a));
        assert(b % a == b) by (nonlinear_arith)
            requires
                0 < b < a,
        ;
    } else {
        assert(spec_gcd(a, b) == spec_gcd(b % a, a));
        assert(b % a == 0) by (nonlinear_arith)
            requires
                a == b && a > 0,
        ;
        assert(spec_gcd(b, a) == spec_gcd(a % b, b));
        assert(a % b == 0) by (nonlinear_arith)
            requires
                a == b && b > 0,
        ;
    }
}

/// Euclid's algorithm on 64-bit unsigned integers.
pub fn gcd(a: u64, b: u64) -> (r: u64)
    ensures
        r == spec_gcd(a as nat, b as nat),
{
    let mut x = a;
    let mut y = b;
    if x > y {
        let tmp = x;
        x = y;
        y = tmp;
        proof {
            lemma_gcd_symmetric(a as nat, b as nat);
        }
    }
    while x != 0
        invariant
            spec_gcd(x as nat, y as nat) == spec_gcd(a as nat, b as nat),
        decreases x,
    {
        let r = y % x;
        y = x;
        x = r;
    }
    y
}

/// The least common multiple as a mathematical value: the first
/// argument divided by the greatest common divisor, times the second.
pub open spec fn spec_lcm(a: nat, b: nat) -> int {
    (a as int / spec_gcd(a, b) as int) * b
}

/// The least common multiple, computed as `a / gcd(a, b) * b`; the
/// result is a common multiple of both arguments.
pub fn lcm(a: u64, b: u64) -> (r: u64)
    requires
        a > 0 || b > 0,
        spec_lcm(a as nat, b as nat) <= u64::MAX,
    ensures
        r == spec_lcm(a as nat, b as nat),
        a > 0 ==> r % a == 0,
        b > 0 ==> r % b == 0,
{
    let g = gcd(a, b);
    proof {
        lemma_gcd_divides(a as nat, b as nat);
    }
    let r = a / g * b;
    proof {
        let gi = g as int;
        lemma_fundamental_div_mod(a as int, gi);
        lemma_fundamental_div_mod(b as int, gi);
        let a1 = a as int / gi;
        let b1 = b as int / gi;
        assert(a == gi * a1);
        assert(b == gi * b1);
        if b > 0 {
            lemma_fundamental_div_mod_converse_mod(r as int, b as int, a1, 0);
        }
        if a > 0 {
            assert(r == a * b1) by (nonlinear_arith)
                requires
                    r == a1 * b && a == gi * a1 && b == gi * b1,
            ;
            lemma_fundamental_div_mod_converse_mod(r as int, a as int, b1, 0);
        }
    }
    r
}

} // verus!
