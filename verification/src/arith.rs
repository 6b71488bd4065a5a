//! Divisibility, primality and integer square roots: the mathematical
//! vocabulary that the sieve contracts are stated in.
use vstd::prelude::*;

verus! {

/// `d` divides `n`.
pub open spec fn divides(d: int, n: int) -> bool {
    exists|k: int| n == #[trigger] (d * k)
}

/// `n` is prime: at least 2, and no number strictly between 1 and `n`
/// divides it.
pub open spec fn prime(n: int) -> bool {
    2 <= n && forall|d: int| 2 <= d < n ==> !divides(d, n)
}

/// A zero remainder witnesses divisibility.
pub proof fn lemma_mod_divides(d: int, n: int)
    requires
        d >= 1,
        n >= 0,
        n % d == 0,
    ensures
        divides(d, n),
{
    vstd::arithmetic::div_mod::lemma_fundamental_div_mod(n, d);
    assert(n == d * (n / d));
}

/// Divisibility forces a zero remainder.
pub proof fn lemma_divides_mod(d: int, n: int)
    requires
        d >= 1,
        divides(d, n),
    ensures
        n % d == 0,
{
    let k = choose|k: int| n == #[trigger] (d * k);
    vstd::arithmetic::div_mod::lemma_mod_multiples_basic(k, d);
    assert(d * k == k * d) by (nonlinear_arith);
}

/// Divisibility is transitive.
pub proof fn lemma_divides_transitive(a: int, b: int, c: int)
    requires
        divides(a, b),
        divides(b, c),
    ensures
        divides(a, c),
{
    let k1 = choose|k: int| b == #[trigger] (a * k);
    let k2 = choose|k: int| c == #[trigger] (b * k);
    assert(c == a * (k1 * k2)) by (nonlinear_arith)
        requires
            b == a * k1,
            c == b * k2;
}

/// A divisor of a positive number is no larger than it.
pub proof fn lemma_divisor_le(d: int, n: int)
    requires
        1 <= d,
        1 <= n,
        divides(d, n),
    ensures
        d <= n,
{
    let k = choose|k: int| n == #[trigger] (d * k);
    assert(d <= n) by (nonlinear_arith)
        requires
            n == d * k,
            1 <= d,
            1 <= n;
}

/// A proper divisor is at most half of the number it divides.
pub proof fn lemma_proper_divisor_bound(d: int, n: int)
    requires
        2 <= d < n,
        divides(d, n),
    ensures
        2 * d <= n,
{
    let k = choose|k: int| n == #[trigger] (d * k);
    assert(2 * d <= n) by (nonlinear_arith)
        requires
            n == d * k,
            2 <= d < n;
}

/// Every number at least 2 has a prime divisor.
pub proof fn lemma_exists_prime_factor(n: int)
    requires
        2 <= n,
    ensures
        exists|p: int| prime(p) && divides(p, n) && p <= n,
    decreases n,
{
    if prime(n) {
        assert(n == n * 1);
        assert(divides(n, n));
    } else {
        let d = choose|d: int| 2 <= d < n && divides(d, n);
        lemma_exists_prime_factor(d);
        let p = choose|p: int| prime(p) && divides(p, d) && p <= d;
        lemma_divides_transitive(p, d, n);
        assert(prime(p) && divides(p, n) && p <= n);
    }
}

/// A composite number has a divisor no larger than its square root.
pub proof fn lemma_composite_small_factor(n: int)
    requires
        2 <= n,
        !prime(n),
    ensures
        exists|d: int| 2 <= d && d * d <= n && divides(d, n),
{
    let a = choose|a: int| 2 <= a < n && divides(a, n);
    let k = choose|k: int| n == #[trigger] (a * k);
    assert(2 <= k) by (nonlinear_arith)
        requires
            n == a * k,
            2 <= a < n;
    if a * a <= n {
        assert(2 <= a && a * a <= n && divides(a, n));
    } else {
        assert(k * k <= n && n == k * a) by (nonlinear_arith)
            requires
                n == a * k,
                2 <= a,
                2 <= k,
                a * a > n;
        assert(divides(k, n));
        assert(2 <= k && k * k <= n && divides(k, n));
    }
}

/// A composite number has a prime divisor no larger than its square root.
pub proof fn lemma_composite_small_prime_factor(n: int)
    requires
        2 <= n,
        !prime(n),
    ensures
        exists|p: int| prime(p) && p * p <= n && divides(p, n),
{
    lemma_composite_small_factor(n);
    let d = choose|d: int| 2 <= d && d * d <= n && divides(d, n);
    lemma_exists_prime_factor(d);
    let p = choose|p: int| prime(p) && divides(p, d) && p <= d;
    lemma_divides_transitive(p, d, n);
    assert(p * p <= d * d) by (nonlinear_arith)
        requires
            2 <= p <= d;
    assert(prime(p) && p * p <= n && divides(p, n));
}

/// Two multiples of `i` lie at least `i` apart.
pub proof fn lemma_multiple_spacing(i: int, a: int, b: int)
    requires
        1 <= i,
        divides(i, a),
        divides(i, b),
        a < b,
    ensures
        a + i <= b,
{
    let k1 = choose|k: int| a == #[trigger] (i * k);
    let k2 = choose|k: int| b == #[trigger] (i * k);
    assert(a + i <= b) by (nonlinear_arith)
        requires
            a == i * k1,
            b == i * k2,
            1 <= i,
            a < b;
}

/// `r` is the integer square root of `n`, rounded up: the least
/// number whose square reaches `n`.
pub open spec fn is_ceil_sqrt(n: int, r: int) -> bool {
    &&& 0 <= r
    &&& n <= r * r
    &&& r >= 1 ==> (r - 1) * (r - 1) < n
}

/// Only one number satisfies `is_ceil_sqrt` for a given `n`.
pub proof fn lemma_ceil_sqrt_unique(n: int, a: int, b: int)
    requires
        is_ceil_sqrt(n, a),
        is_ceil_sqrt(n, b),
    ensures
        a == b,
{
    if a < b {
        assert((b - 1) * (b - 1) >= a * a) by (nonlinear_arith)
            requires
                0 <= a <= b - 1;
    }
    if b < a {
        assert((a - 1) * (a - 1) >= b * b) by (nonlinear_arith)
            requires
                0 <= b <= a - 1;
    }
}

/// Computes the integer square root of `n`, rounded up.
pub fn sqrt_ceiling(n: usize) -> (r: usize)
    ensures
        is_ceil_sqrt(n as int, r as int),
        n >= 2 ==> 2 <= r <= n,
{
    if n <= 1 {
        proof {
            assert(0int <= 0int * 0int);
            assert(1int <= 1int * 1int);
            assert(0int * 0int < 1);
        }
        return n;
    }
    let mut s: usize = 1;
    while s + 1 <= n / (s + 1)
        invariant
            1 <= s <= n,
            s < usize::MAX,
            2 <= n,
            s * s <= n,
        decreases n - s,
    {
        proof {
            let si = s as int;
            let ni = n as int;
            vstd::arithmetic::div_mod::lemma_fundamental_div_mod(ni, si + 1);
            assert((si + 1) * (si + 1) <= ni) by (nonlinear_arith)
                requires
                    si + 1 <= ni / (si + 1),
                    1 <= si,
                    (si + 1) * (ni / (si + 1)) + ni % (si + 1) == ni,
                    0 <= ni % (si + 1);
            assert(si + 2 <= ni) by (nonlinear_arith)
                requires
                    (si + 1) * (si + 1) <= ni,
                    1 <= si;
        }
        s = s + 1;
    }
    proof {
        let si = s as int;
        let ni = n as int;
        vstd::arithmetic::div_mod::lemma_fundamental_div_mod(ni, si + 1);
        assert(ni < (si + 1) * (si + 1)) by (nonlinear_arith)
            requires
                !(si + 1 <= ni / (si + 1)),
                (si + 1) * (ni / (si + 1)) + ni % (si + 1) == ni,
                ni % (si + 1) < si + 1,
                0 <= ni % (si + 1),
                1 <= si;
        if s >= 2 {
            assert(si + 1 <= si * si) by (nonlinear_arith)
                requires
                    2 <= si;
        }
    }
    if s * s == n {
        proof {
            assert((s - 1) * (s - 1) < s * s) by (nonlinear_arith)
                requires
                    1 <= s as int;
        }
        s
    } else {
        s + 1
    }
}

} // verus!
