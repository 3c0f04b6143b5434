//! Primality testing, prime factorization and a prime sieve.

use vstd::prelude::*;
use vstd::arithmetic::div_mod::{
    lemma_fundamental_div_mod,
    lemma_fundamental_div_mod_converse_mod,
};

verus! {

/// No integer strictly between one and `n` divides `n`.
pub open spec fn spec_is_prime(n: int) -> bool {
    n >= 2 && forall|d: int| 2 <= d < n ==> #[trigger] (n % d) != 0
}

/// The product of the elements of `s`, one for the empty sequence.
pub open spec fn seq_product(s: Seq<int>) -> int
    decreases s.len(),
{
    if s.len() == 0 {
        1
    } else {
        seq_product(s.drop_last()) * s.last()
    }
}

/// Transitivity of divisibility: a divisor of `b` divides every
/// multiple of `b`.
proof fn lemma_divides_transitive(a: int, b: int, c: int)
    requires
        a > 0,
        b > 0,
        b % a == 0,
        c % b == 0,
        c >= 0,
    ensures
        c % a == 0,
{
    lemma_fundamental_div_mod(b, a);
    lemma_fundamental_div_mod(c, b);
    let k = b / a;
    let q = c / b;
    assert(c == a * (k * q) + 0) by (nonlinear_arith)
        requires
            b == a * k && c == b * q,
    ;
    assert(k * q >= 0) by (nonlinear_arith)
        requires
            a > 0 && b > 0 && c >= 0 && b == a * k && c == b * q,
    ;
    lemma_fundamental_div_mod_converse_mod(c, a, k * q, 0);
}

/// A divisor of `n` pairs with the complementary divisor `n / d`; if
/// `d` is at least the square root, the partner is at most it.
proof fn lemma_divisor_pair(n: int, d: int)
    requires
        n >= 2,
        2 <= d < n,
        n % d == 0,
        d * d > n,
    ensures
        2 <= n / d,
        (n / d) * (n / d) <= n,
        n % (n / d) == 0,
        n / d < d,
{
    lemma_fundamental_div_mod(n, d);
    let e = n / d;
    assert(n == d * e);
    assert(e >= 1) by (nonlinear_arith)
        requires
            n == d * e && n >= 2 && d >= 2,
    ;
    assert(e != 1) by (nonlinear_arith)
        requires
            n == d * e && d < n,
    ;
    assert(e < d) by (nonlinear_arith)
        requires
            n == d * e && d * d > n && d > 0 && e > 0,
    ;
    assert(e * e <= n) by (nonlinear_arith)
        requires
            n == d * e && e < d && e > 0,
    ;
    assert(n == e * d + 0) by (nonlinear_arith)
        requires
            n == d * e,
    ;
    lemma_fundamental_div_mod_converse_mod(n, e, d, 0);
}

/// Trial division is complete: a number at least two with no divisor
/// below `c`, where `c` squared exceeds it, is prime.
pub proof fn lemma_no_small_divisor_prime(n: int, c: int)
    requires
        n >= 2,
        c >= 2,
        c * c > n,
        forall|d: int| 2 <= d < c ==> #[trigger] (n % d) != 0,
    ensures
        spec_is_prime(n),
{
    assert forall|d: int| 2 <= d < n implies #[trigger] (n % d) != 0 by {
        if n % d == 0 {
            if d < c {
            } else {
                assert(d * d >= c * c) by (nonlinear_arith)
                    requires
                        d >= c && c >= 2,
                ;
                lemma_divisor_pair(n, d);
                let e = n / d;
                assert(e < c) by (nonlinear_arith)
                    requires
                        e * e <= n && n < c * c && e >= 0 && c >= 0,
                ;
                assert(n % e != 0);
            }
        }
    }
}

/// A number with a nontrivial divisor has one whose square does not
/// exceed it.
proof fn lemma_small_divisor_exists(n: int, d: int)
    requires
        n >= 2,
        2 <= d < n,
        n % d == 0,
    ensures
        exists|e: int| 2 <= e < n && #[trigger] (n % e) == 0 && e * e <= n,
{
    if d * d <= n {
        assert(2 <= d < n && n % d == 0 && d * d <= n);
    } else {
        lemma_divisor_pair(n, d);
        let e = n / d;
        assert(2 <= e < n && n % e == 0 && e * e <= n) by (nonlinear_arith)
            requires
                2 <= e && e < d && d < n && n % e == 0 && e * e <= n,
        ;
    }
}

/// No candidate below `c` both divides `v` and has a square not
/// exceeding `v`: the sieve has found no witness against `v` yet.
pub open spec fn no_marker(v: int, c: int) -> bool {
    forall|d: int| 2 <= d < c && d * d <= v ==> #[trigger] (v % d) != 0
}

/// A number clear of markers below itself is prime.
proof fn lemma_no_marker_prime(v: int)
    requires
        v >= 2,
        no_marker(v, v),
    ensures
        spec_is_prime(v),
{
    assert forall|d: int| 2 <= d < v implies #[trigger] (v % d) != 0 by {
        if v % d == 0 {
            lemma_small_divisor_exists(v, d);
            let e = choose|e: int| 2 <= e < v && #[trigger] (v % e) == 0 && e * e <= v;
            assert(v % e != 0);
        }
    }
}

/// Two distinct multiples of `i` lie at least `i` apart.
proof fn lemma_multiple_spacing(v: int, j: int, i: int)
    requires
        i > 0,
        v % i == 0,
        j % i == 0,
        j < v,
    ensures
        v >= j + i,
{
    lemma_fundamental_div_mod(v, i);
    lemma_fundamental_div_mod(j, i);
    let a = v / i;
    let b = j / i;
    assert(v >= j + i) by (nonlinear_arith)
        requires
            v == i * a && j == i * b && j < v && i > 0,
    ;
}

/// Extending the sieve bound by one splits off the new candidate.
proof fn lemma_no_marker_step(v: int, c: int)
    requires
        c >= 2,
    ensures
        no_marker(v, c + 1) <==> (no_marker(v, c) && (c * c <= v ==> v % c != 0)),
{
    if no_marker(v, c) && (c * c <= v ==> v % c != 0) {
        assert forall|d: int| 2 <= d < c + 1 && d * d <= v implies #[trigger] (v % d) != 0 by {
            if d < c {
            } else {
                assert(d == c);
            }
        }
    }
}

/// The sieve of Eratosthenes: every prime up to `n`, in increasing
/// order, and nothing else.
pub fn find_primes(n: usize) -> (r: Vec<u64>)
    requires
        n <= 0x7fff_ffff,
    ensures
        forall|t: int| 0 <= t < r@.len() ==> spec_is_prime(#[trigger] r@[t] as int),
        forall|t: int| 0 <= t < r@.len() ==> 2 <= #[trigger] r@[t] <= n,
        forall|s: int, t: int| 0 <= s < t < r@.len() ==> r@[s] < r@[t],
        forall|p: int|
            2 <= p <= n && spec_is_prime(p) ==> exists|t: int|
                0 <= t < r@.len() && #[trigger] r@[t] as int == p,
{
    let mut sieve: Vec<bool> = Vec::new();
    while sieve.len() < n + 1
        invariant
            n <= 0x7fff_ffff,
            sieve@.len() <= n + 1,
            forall|t: int| 0 <= t < sieve@.len() ==> #[trigger] sieve@[t],
        decreases n + 1 - sieve@.len(),
    {
        sieve.push(true);
    }
    let mut primes: Vec<u64> = Vec::new();
    let mut i: usize = 2;
    while i <= n
        invariant
            n <= 0x7fff_ffff,
            sieve@.len() == n + 1,
            2 <= i,
            i <= n + 1 || i == 2,
            forall|v: int| 2 <= v <= n ==> (#[trigger] sieve@[v] <==> no_marker(v, i as int)),
            forall|t: int|
                0 <= t < primes@.len() ==> 2 <= #[trigger] primes@[t] && primes@[t] < i
                    && spec_is_prime(primes@[t] as int),
            forall|s: int, t: int| 0 <= s < t < primes@.len() ==> primes@[s] < primes@[t],
            forall|p: int|
                2 <= p < i && spec_is_prime(p) ==> exists|t: int|
                    0 <= t < primes@.len() && #[trigger] primes@[t] as int == p,
        decreases n + 1 - i,
    {
        let ghost old_primes = primes@;
        let is_candidate = sieve[i];
        if is_candidate {
            proof {
                assert(no_marker(i as int, i as int)) by {
                    assert forall|d: int|
                        2 <= d < i && d * d <= i implies #[trigger] ((i as int) % d) != 0 by {
                        assert(no_marker(i as int, i as int) == sieve@[i as int]);
                    }
                }
                lemma_no_marker_prime(i as int);
            }
            primes.push(i as u64);
            proof {
                assert(primes@ =~= old_primes.push(i as u64));
                assert forall|p: int|
                    2 <= p < i + 1 && spec_is_prime(p) implies exists|t: int|
                    0 <= t < primes@.len() && #[trigger] primes@[t] as int == p by {
                    if p < i {
                        let t = choose|t: int|
                            0 <= t < old_primes.len() && #[trigger] old_primes[t] as int == p;
                        assert(primes@[t] as int == p);
                    } else {
                        assert(primes@[primes@.len() - 1] as int == p);
                    }
                }
            }
            if i <= n / i {
                proof {
                    lemma_fundamental_div_mod(n as int, i as int);
                    assert(i * i <= n) by (nonlinear_arith)
                        requires
                            i <= n / i && n == i * (n / i) + n % i && 0 <= n % i && i >= 2,
                    ;
                }
                let mut j: usize = i * i;
                proof {
                    lemma_fundamental_div_mod_converse_mod((i * i) as int, i as int, i as int, 0);
                }
                while j <= n
                    invariant
                        n <= 0x7fff_ffff,
                        sieve@.len() == n + 1,
                        2 <= i <= n,
                        i * i <= j,
                        j as int % (i as int) == 0,
                        forall|v: int|
                            2 <= v <= n ==> (#[trigger] sieve@[v] <==> (no_marker(v, i as int) && !(
                            v % (i as int) == 0 && i * i <= v < j))),
                    decreases n + i - j,
                {
                    let ghost old_sieve = sieve@;
                    sieve.set(j, false);
                    proof {
                        assert(sieve@ =~= old_sieve.update(j as int, false));
                        assert forall|v: int|
                            2 <= v <= n implies (#[trigger] sieve@[v] <==> (no_marker(v, i as int)
                            && !(v % (i as int) == 0 && i * i <= v < j + i))) by {
                            if v == j {
                                assert(!sieve@[v]);
                            } else {
                                assert(sieve@[v] == old_sieve[v]);
                                if v % (i as int) == 0 && i * i <= v && j <= v && v < j + i {
                                    lemma_multiple_spacing(v, j as int, i as int);
                                }
                            }
                        }
                    }
                    let ghost jprev = j as int;
                    j = j + i;
                    proof {
                        vstd::arithmetic::div_mod::lemma_mod_add_multiples_vanish(
                            jprev,
                            i as int,
                        );
                    }
                }
                proof {
                    assert forall|v: int|
                        2 <= v <= n implies (#[trigger] sieve@[v] <==> no_marker(v, i + 1)) by {
                        lemma_no_marker_step(v, i as int);
                        if v % (i as int) == 0 && i * i <= v {
                            assert(v < j);
                        }
                    }
                }
            } else {
                proof {
                    lemma_fundamental_div_mod(n as int, i as int);
                    assert(i * i > n) by (nonlinear_arith)
                        requires
                            i > n / i && n == i * (n / i) + n % i && n % i < i && i >= 2,
                    ;
                    assert forall|v: int|
                        2 <= v <= n implies (#[trigger] sieve@[v] <==> no_marker(v, i + 1)) by {
                        lemma_no_marker_step(v, i as int);
                    }
                }
            }
        } else {
            proof {
                assert(!no_marker(i as int, i as int));
                let d0 = choose|d: int|
                    2 <= d < i && d * d <= i && #[trigger] ((i as int) % d) == 0;
                assert forall|v: int|
                    2 <= v <= n implies (#[trigger] sieve@[v] <==> no_marker(v, i + 1)) by {
                    lemma_no_marker_step(v, i as int);
                    if no_marker(v, i as int) && i * i <= v && v % (i as int) == 0 {
                        lemma_divides_transitive(d0, i as int, v);
                        assert(d0 * d0 <= v) by (nonlinear_arith)
                            requires
                                d0 * d0 <= i && i * i <= v && 2 <= d0 && 2 <= i,
                        ;
                        assert(v % d0 != 0);
                        assert(false);
                    }
                }
                assert forall|p: int|
                    2 <= p < i + 1 && spec_is_prime(p) implies exists|t: int|
                    0 <= t < primes@.len() && #[trigger] primes@[t] as int == p by {
                    if p == i {
                        assert((i as int) % d0 == 0);
                        assert(d0 < i);
                        assert(false);
                    }
                }
            }
        }
        i = i + 1;
    }
    primes
}

/// Numbers an integer type can test for primality and factor.
pub trait PrimeExt: Sized {
    /// The mathematical integer this value stands for.
    spec fn as_number(&self) -> int;

    /// Whether the number is prime, by trial division up to its square
    /// root.
    fn is_prime(&self) -> (r: bool)
        requires
            self.as_number() >= 0,
            self.as_number() < 3037000499 * 3037000499,
        ensures
            r == spec_is_prime(self.as_number()),
    ;

    /// The prime factors in nondecreasing order, each counted with its
    /// multiplicity, so that their product restores the number; numbers
    /// below two have no factors.
    fn factorize(&self) -> (r: Vec<Self>)
        requires
            self.as_number() >= 0,
            self.as_number() < 3037000499 * 3037000499,
        ensures
            forall|i: int|
                0 <= i < r@.len() ==> #[trigger] spec_is_prime(r@[i].as_number()),
            forall|i: int, j: int|
                0 <= i <= j < r@.len() ==> r@[i].as_number() <= r@[j].as_number(),
            self.as_number() >= 1 ==> seq_product(
                r@.map_values(|v: Self| v.as_number()),
            ) == self.as_number(),
            self.as_number() <= 1 ==> r@.len() == 0,
    ;
}

impl PrimeExt for i64 {
    open spec fn as_number(&self) -> int {
        *self as int
    }

    fn is_prime(&self) -> (r: bool)
    {
        let n = *self;
        if n == 0 || n == 1 {
            return false;
        }
        let mut cur: i64 = 2;
        while cur * cur <= n
            invariant
                n == *self,
                2 <= cur,
                n >= 2,
                n < 3037000499 * 3037000499,
                cur * cur <= 0x7fff_ffff_ffff_ffff,
                forall|d: int| 2 <= d < cur ==> #[trigger] (n as int % d) != 0,
            decreases n - cur,
        {
            if n % cur == 0 {
                proof {
                    assert(cur < n) by (nonlinear_arith)
                        requires
                            cur * cur <= n && cur >= 2,
                    ;
                    assert(n as int % (cur as int) == 0);
                }
                return false;
            }
            proof {
                assert(cur < n) by (nonlinear_arith)
                    requires
                        cur * cur <= n && cur >= 2,
                ;
                assert((cur + 1) * (cur + 1) <= 3037000499 * 3037000499) by (nonlinear_arith)
                    requires
                        cur * cur <= n && n < 3037000499 * 3037000499 && cur >= 2,
                ;
            }
            cur = cur + 1;
        }
        proof {
            lemma_no_small_divisor_prime(n as int, cur as int);
        }
        true
    }

    fn factorize(&self) -> (r: Vec<i64>)
    {
        let n0 = *self;
        let mut result: Vec<i64> = Vec::new();
        let mut k: i64 = 2;
        let mut n = n0;
        while k * k <= n0
            invariant
                n0 == *self,
                2 <= k,
                0 <= n <= n0,
                n0 < 3037000499 * 3037000499,
                k * k <= 0x7fff_ffff_ffff_ffff,
                n0 == 0 ==> n == 0 && result@.len() == 0,
                n0 <= 3 ==> result@.len() == 0 && n == n0,
                n0 >= 1 ==> n >= 1 && seq_product(result@.map_values(|v: i64| v as int)) * n
                    == n0,
                forall|d: int| 2 <= d < k ==> #[trigger] (n as int % d) != 0,
                forall|i: int|
                    0 <= i < result@.len() ==> #[trigger] spec_is_prime(result@[i] as int),
                forall|i: int| 0 <= i < result@.len() ==> 2 <= #[trigger] result@[i] <= k,
                forall|i: int, j: int|
                    0 <= i <= j < result@.len() ==> #[trigger] result@[i] <= #[trigger] result@[j],
            decreases n0 - k, n,
        {
            proof {
                assert(n0 >= 4) by (nonlinear_arith)
                    requires
                        k * k <= n0 && k >= 2,
                ;
            }
            if n % k == 0 {
                proof {
                    assert(n >= 1);
                    assert(spec_is_prime(k as int)) by {
                        assert forall|d: int| 2 <= d < k implies #[trigger] ((k as int) % d)
                            != 0 by {
                            if (k as int) % d == 0 {
                                lemma_divides_transitive(d, k as int, n as int);
                            }
                        }
                        assert(k >= 2);
                    }
                    lemma_fundamental_div_mod(n as int, k as int);
                    assert(n / k >= 1 && n / k < n && k * (n / k) == n) by (nonlinear_arith)
                        requires
                            n as int % (k as int) == 0 && n >= 1 && k >= 2 && n == (k as int) * (
                            n as int / (k as int)) + n as int % (k as int),
                    ;
                }
                let ghost old_nums = result@.map_values(|v: i64| v as int);
                let ghost old_res = result@;
                let ghost old_n = n as int;
                result.push(k);
                n = n / k;
                proof {
                    assert(result@ =~= old_res.push(k));
                    assert forall|i: int, j: int|
                        0 <= i <= j < result@.len() implies #[trigger] result@[i]
                        <= #[trigger] result@[j] by {
                        if j < result@.len() - 1 {
                            assert(result@[i] == old_res[i] && result@[j] == old_res[j]);
                        } else {
                            assert(result@[j] == k);
                            if i < result@.len() - 1 {
                                assert(result@[i] == old_res[i]);
                            }
                        }
                    }
                    let nums = result@.map_values(|v: i64| v as int);
                    assert(nums =~= old_nums.push(k as int));
                    assert(nums.drop_last() =~= old_nums);
                    assert(seq_product(nums) == seq_product(old_nums) * k);
                    assert(seq_product(old_nums) * k * n == seq_product(old_nums) * old_n)
                        by (nonlinear_arith)
                        requires
                            old_n == k * n,
                    ;
                    lemma_fundamental_div_mod_converse_mod(old_n, n as int, k as int, 0);
                    assert(old_n % (n as int) == 0);
                    assert forall|d: int| 2 <= d < k implies #[trigger] (n as int % d) != 0 by {
                        if n as int % d == 0 {
                            lemma_divides_transitive(d, n as int, old_n);
                        }
                    }
                }
            } else {
                proof {
                    assert(k < n0) by (nonlinear_arith)
                        requires
                            k * k <= n0 && k >= 2,
                    ;
                    assert((k + 1) * (k + 1) <= 3037000499 * 3037000499) by (nonlinear_arith)
                        requires
                            k * k <= n0 && n0 < 3037000499 * 3037000499 && k >= 2,
                    ;
                }
                k = k + 1;
            }
        }
        if n > 1 {
            proof {
                assert(n >= k) by {
                    if n < k {
                        assert(n as int % (n as int) == 0) by (nonlinear_arith)
                            requires
                                n >= 2,
                        ;
                    }
                }
                assert(k * k > n0 >= n);
                lemma_no_small_divisor_prime(n as int, k as int);
                let ghost old_nums = result@.map_values(|v: i64| v as int);
                assert(seq_product(old_nums.push(n as int)) == seq_product(old_nums) * n) by {
                    assert(old_nums.push(n as int).drop_last() =~= old_nums);
                }
            }
            let ghost old_nums = result@.map_values(|v: i64| v as int);
            let ghost old_res = result@;
            result.push(n);
            proof {
                assert(result@ =~= old_res.push(n));
                assert forall|i: int, j: int|
                    0 <= i <= j < result@.len() implies result@[i] <= result@[j] by {
                    if j < result@.len() - 1 {
                        assert(result@[i] == old_res[i] && result@[j] == old_res[j]);
                    } else {
                        assert(result@[j] == n);
                        if i < result@.len() - 1 {
                            assert(result@[i] == old_res[i]);
                            assert(old_res[i] <= k);
                        }
                    }
                }
                let nums = result@.map_values(|v: i64| v as int);
                assert(nums =~= old_nums.push(n as int));
                assert(nums.drop_last() =~= old_nums);
            }
        }
        proof {
            assert(result@.map_values(|v: i64| v.as_number()) =~= result@.map_values(
                |v: i64| v as int,
            ));
        }
        result
    }
}

} // verus!
