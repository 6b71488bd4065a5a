//! Primes by direct trial division: a baseline against the sieves.
use vstd::prelude::*;
use rayon::iter::{IntoParallelIterator, ParallelIterator};
use crate::arith::{
    divides, prime, lemma_mod_divides, lemma_divides_mod, lemma_proper_divisor_bound,
};
use crate::listing::{strictly_ascending, prime_listing, lemma_push_contains};

verus! {

/// Trial division by 2, 3 and then every `6k ± 1` candidate up to `n / 2`.
pub fn is_prime(n: usize) -> (r: bool)
    ensures
        r == prime(n as int),
{
    if n <= 3 {
        proof {
            if n > 1 {
                assert forall|d: int| 2 <= d < n implies !divides(d, n as int) by {
                    if divides(d, n as int) {
                        lemma_divides_mod(d, n as int);
                    }
                }
            }
        }
        return n > 1;
    }
    if n % 2 == 0 || n % 3 == 0 {
        proof {
            if n % 2 == 0 {
                lemma_mod_divides(2, n as int);
            } else {
                lemma_mod_divides(3, n as int);
            }
        }
        return false;
    }
    proof {
        assert forall|d: int| 2 <= d < 5 implies !divides(d, n as int) by {
            if divides(d, n as int) {
                if d == 2 || d == 3 {
                    lemma_divides_mod(d, n as int);
                } else {
                    assert(d == 4);
                    assert(d == 2 * 2);
                    assert(divides(2, d));
                    crate::arith::lemma_divides_transitive(2, d, n as int);
                    lemma_divides_mod(2, n as int);
                }
            }
        }
    }
    let mut i: usize = 5;
    while i <= n / 2
        invariant
            5 <= i,
            i % 6 == 5,
            3 < n <= usize::MAX,
            n % 2 != 0,
            n % 3 != 0,
            forall|d: int| 2 <= d < i ==> !divides(d, n as int),
        decreases n - i,
    {
        if n % i == 0 {
            proof {
                lemma_mod_divides(i as int, n as int);
            }
            return false;
        }
        if n % (i + 2) == 0 {
            proof {
                lemma_mod_divides(i as int + 2, n as int);
            }
            return false;
        }
        proof {
            let m = i as int / 6;
            vstd::arithmetic::div_mod::lemma_fundamental_div_mod(i as int, 6);
            assert(i as int == 6 * m + 5);
            assert forall|d: int| 2 <= d < i + 6 implies !divides(d, n as int) by {
                if d >= i && divides(d, n as int) {
                    if d == i as int {
                        lemma_divides_mod(d, n as int);
                    } else if d == i as int + 1 {
                        assert(d == 2 * (3 * m + 3));
                        assert(divides(2, d));
                        crate::arith::lemma_divides_transitive(2, d, n as int);
                        lemma_divides_mod(2, n as int);
                    } else if d == i as int + 2 {
                        lemma_divides_mod(d, n as int);
                    } else if d == i as int + 3 {
                        assert(d == 2 * (3 * m + 4));
                        assert(divides(2, d));
                        crate::arith::lemma_divides_transitive(2, d, n as int);
                        lemma_divides_mod(2, n as int);
                    } else if d == i as int + 4 {
                        assert(d == 3 * (2 * m + 3));
                        assert(divides(3, d));
                        crate::arith::lemma_divides_transitive(3, d, n as int);
                        lemma_divides_mod(3, n as int);
                    } else {
                        assert(d == i as int + 5);
                        assert(d == 2 * (3 * m + 5));
                        assert(divides(2, d));
                        crate::arith::lemma_divides_transitive(2, d, n as int);
                        lemma_divides_mod(2, n as int);
                    }
                }
            }
        }
        i += 6;
    }
    proof {
        assert forall|d: int| 2 <= d < n implies !divides(d, n as int) by {
            if d >= i && divides(d, n as int) {
                lemma_proper_divisor_bound(d, n as int);
                assert(2 * (n as int / 2) >= n - 1);
            }
        }
    }
    true
}

/// All primes in `[2, limit)`, found one candidate at a time.
pub fn sequential_primality(limit: usize) -> (r: Vec<usize>)
    ensures
        prime_listing(r@, limit as int - 1),
{
    let mut v: Vec<usize> = Vec::new();
    let mut n: usize = 2;
    while n < limit
        invariant
            2 <= n,
            n <= limit || n == 2,
            strictly_ascending(v@),
            forall|x: usize| #[trigger] v@.contains(x) <==> 2 <= x < n && prime(x as int),
            forall|k: int| 0 <= k < v@.len() ==> v@[k] < n,
        decreases limit - n,
    {
        let p = is_prime(n);
        if p {
            let ghost old_v = v@;
            v.push(n);
            proof {
                assert forall|x: usize| #[trigger] v@.contains(x) <==> (2 <= x < n + 1 && prime(
                    x as int,
                )) by {
                    lemma_push_contains(old_v, n, x);
                }
            }
        }
        n += 1;
    }
    v
}

/// All primes in `[2, limit)`, tested in parallel.
///
/// Relies on rayon's `into_par_iter`, `filter` and `collect` over an integer
/// range: the collected `Vec` holds exactly the elements the filter accepted,
/// in the order of the original range (rayon's `filter` documentation asserts
/// the ordered result of collecting a filtered range into a `Vec`). The
/// filter closure only calls the verified `is_prime`, so the members are
/// exactly the primes of the range.
#[verifier::external_body]
pub fn rayon_primality(limit: usize) -> (r: Vec<usize>)
    ensures
        prime_listing(r@, limit as int - 1),
{
    (2..limit).into_par_iter().filter(|&n| is_prime(n)).collect()
}

} // verus!
