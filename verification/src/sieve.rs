//! The sieve of Eratosthenes: a contiguous sieve up to a bound, and a
//! segmented form that cuts the range into chunks and sieves each chunk
//! against shared base primes — sequentially or in parallel.
use vstd::prelude::*;
use vstd::pervasive::VecAdditionalExecFns;
use rayon::iter::{IntoParallelRefIterator, ParallelIterator};
use crate::arith::{
    divides, prime, is_ceil_sqrt, lemma_ceil_sqrt_unique, lemma_divides_transitive,
    lemma_divisor_le, lemma_composite_small_prime_factor, lemma_multiple_spacing, sqrt_ceiling,
};
use crate::listing::{
    strictly_ascending, prime_listing, lemma_push_contains, lemma_prime_listing_extend,
    lemma_listing_members_prime,
};

verus! {

/// Some number in `[2, bound)` whose square is at most `m` divides `m`.
pub open spec fn has_factor_below(m: int, bound: int) -> bool {
    exists|d: int| 2 <= d < bound && d * d <= m && #[trigger] divides(d, m)
}

/// One of the first `t` listed numbers divides `x`.
pub open spec fn some_listed_divides(ps: Seq<usize>, t: int, x: int) -> bool {
    exists|k: int| 0 <= k < t && #[trigger] divides(ps[k] as int, x)
}

/// A buffer of `len` entries, all `true`.
fn make_true_buf(len: usize) -> (r: Vec<bool>)
    ensures
        r@.len() == len,
        forall|k: int| 0 <= k < len ==> r@[k] == true,
{
    let v: Vec<bool> = vec![true; len];
    proof {
        assert forall|k: int| 0 <= k < len implies v@[k] == true by {
            assert(cloned(true, v@[k]));
        }
    }
    v
}

/// Appends a copy of `src` to `dst`.
fn push_all(dst: &mut Vec<usize>, src: &Vec<usize>)
    ensures
        final(dst)@ == old(dst)@ + src@,
{
    let mut k: usize = 0;
    while k < src.len()
        invariant
            k <= src@.len(),
            dst@ == old(dst)@ + src@.subrange(0, k as int),
        decreases src@.len() - k,
    {
        let ghost prev = dst@;
        dst.push(src[k]);
        proof {
            assert(dst@ =~= old(dst)@ + src@.subrange(0, k as int + 1));
        }
        k += 1;
    }
    proof {
        assert(src@.subrange(0, src@.len() as int) =~= src@);
    }
}

/// All primes up to `upper_bound`, ascending, by the plain sieve of
/// Eratosthenes: mark every multiple of every number whose square is in
/// range, keep the unmarked.
pub fn sequential_sieve(upper_bound: usize) -> (r: Vec<usize>)
    requires
        upper_bound < usize::MAX,
    ensures
        prime_listing(r@, upper_bound as int),
{
    if upper_bound < 2 {
        let r: Vec<usize> = Vec::new();
        return r;
    }
    let ghost ub = upper_bound as int;
    let mut buf: Vec<bool> = make_true_buf(upper_bound + 1);
    buf.set(0, false);
    buf.set(1, false);
    let mut i: usize = 2;
    while i <= upper_bound / i
        invariant
            2 <= i,
            2 <= upper_bound < usize::MAX,
            buf@.len() == upper_bound + 1,
            forall|m: int|
                #![trigger buf@[m]]
                0 <= m <= upper_bound as int ==> (buf@[m] <==> (2 <= m && !has_factor_below(
                    m,
                    i as int,
                ))),
        decreases upper_bound - i,
    {
        let ghost ii = i as int;
        proof {
            vstd::arithmetic::div_mod::lemma_fundamental_div_mod(ub, ii);
            assert(ii * ii <= ub) by (nonlinear_arith)
                requires
                    ii <= ub / ii,
                    2 <= ii,
                    ii * (ub / ii) + ub % ii == ub,
                    0 <= ub % ii;
            assert(ii < ii * ii) by (nonlinear_arith)
                requires
                    2 <= ii;
        }
        if buf[i] {
            let ghost pre = buf@;
            let mut j: usize = i * i;
            proof {
                assert(divides(ii, ii * ii)) by {
                    assert(ii * ii == ii * ii);
                }
            }
            #[verifier::loop_isolation(true)]
            loop
                invariant_except_break
                    2 <= i <= upper_bound,
                    upper_bound < usize::MAX,
                    i * i <= j <= upper_bound,
                    divides(i as int, j as int),
                    buf@.len() == upper_bound + 1,
                    pre.len() == upper_bound + 1,
                    forall|m: int|
                        #![trigger buf@[m]]
                        0 <= m <= upper_bound as int ==> (buf@[m] <==> (pre[m] && !(divides(
                            i as int,
                            m,
                        ) && i * i <= m < j))),
                ensures
                    2 <= i <= upper_bound < usize::MAX,
                    buf@.len() == upper_bound + 1,
                    forall|m: int|
                        #![trigger buf@[m]]
                        0 <= m <= upper_bound as int ==> (buf@[m] <==> (pre[m] && !(divides(
                            i as int,
                            m,
                        ) && i * i <= m))),
                decreases upper_bound - j,
            {
                buf.set(j, false);
                if j > upper_bound - i {
                    proof {
                        assert forall|m: int|
                            0 <= m <= upper_bound as int implies (buf@[m] <==> (pre[m] && !(
                        divides(i as int, m) && i * i <= m))) by {
                            if divides(i as int, m) && i * i <= m && m > j as int {
                                lemma_multiple_spacing(i as int, j as int, m);
                            }
                        }
                    }
                    break ;
                }
                let ghost jold = j as int;
                j += i;
                proof {
                    let iv = i as int;
                    let k = choose|k: int| jold == #[trigger] (iv * k);
                    assert(j as int == iv * (k + 1)) by (nonlinear_arith)
                        requires
                            jold == iv * k,
                            j as int == jold + iv;
                    assert(divides(iv, j as int));
                    assert forall|m: int|
                        0 <= m <= upper_bound as int implies (buf@[m] <==> (pre[m] && !(divides(
                        iv,
                        m,
                    ) && i * i <= m < j))) by {
                        if divides(iv, m) && i * i <= m && jold < m < j as int {
                            lemma_multiple_spacing(iv, jold, m);
                        }
                    }
                }
            }
            proof {
                assert forall|m: int|
                    0 <= m <= ub implies (buf@[m] <==> (2 <= m && !has_factor_below(
                    m,
                    ii + 1,
                ))) by {
                    if has_factor_below(m, ii) {
                        let d = choose|d: int|
                            2 <= d < ii && d * d <= m && #[trigger] divides(d, m);
                        assert(has_factor_below(m, ii + 1));
                    }
                    if has_factor_below(m, ii + 1) && !has_factor_below(m, ii) {
                        let d = choose|d: int|
                            2 <= d < ii + 1 && d * d <= m && #[trigger] divides(d, m);
                        assert(d == ii);
                        assert(divides(ii, m) && ii * ii <= m);
                    }
                    if divides(ii, m) && ii * ii <= m {
                        assert(has_factor_below(m, ii + 1));
                    }
                }
            }
        } else {
            proof {
                assert(buf@[ii] == false);
                assert(has_factor_below(ii, ii));
                let d = choose|d: int| 2 <= d < ii && d * d <= ii && #[trigger] divides(d, ii);
                assert forall|m: int|
                    0 <= m <= ub implies (buf@[m] <==> (2 <= m && !has_factor_below(
                    m,
                    ii + 1,
                ))) by {
                    if has_factor_below(m, ii) {
                        let e = choose|e: int|
                            2 <= e < ii && e * e <= m && #[trigger] divides(e, m);
                        assert(has_factor_below(m, ii + 1));
                    }
                    if has_factor_below(m, ii + 1) && !has_factor_below(m, ii) {
                        let e = choose|e: int|
                            2 <= e < ii + 1 && e * e <= m && #[trigger] divides(e, m);
                        assert(e == ii);
                        lemma_divides_transitive(d, ii, m);
                        assert(d * d <= m);
                        assert(has_factor_below(m, ii));
                    }
                }
            }
        }
        i += 1;
    }
    proof {
        let ii = i as int;
        vstd::arithmetic::div_mod::lemma_fundamental_div_mod(ub, ii);
        assert(ub < ii * ii) by (nonlinear_arith)
            requires
                !(ii <= ub / ii),
                2 <= ii,
                ii * (ub / ii) + ub % ii == ub,
                0 <= ub % ii < ii;
        assert forall|m: int| 0 <= m <= ub implies (buf@[m] <==> prime(m)) by {
            if 2 <= m {
                if buf@[m] && !prime(m) {
                    lemma_composite_small_prime_factor(m);
                    let p = choose|p: int| prime(p) && p * p <= m && divides(p, m);
                    assert(p < ii) by (nonlinear_arith)
                        requires
                            p * p <= m,
                            m <= ub,
                            ub < ii * ii,
                            0 <= p,
                            0 <= ii;
                    assert(has_factor_below(m, ii));
                }
                if !buf@[m] {
                    assert(has_factor_below(m, ii));
                    let d = choose|d: int| 2 <= d < ii && d * d <= m && #[trigger] divides(d, m);
                    assert(d < m) by (nonlinear_arith)
                        requires
                            2 <= d,
                            d * d <= m;
                    assert(!prime(m));
                }
            }
        }
    }
    let mut v: Vec<usize> = Vec::new();
    let mut k: usize = 0;
    while k <= upper_bound
        invariant
            k <= upper_bound + 1,
            upper_bound < usize::MAX,
            buf@.len() == upper_bound + 1,
            forall|m: int| #![trigger buf@[m]] 0 <= m <= upper_bound as int ==> (buf@[m] <==> prime(m)),
            strictly_ascending(v@),
            forall|x: usize| #[trigger] v@.contains(x) <==> (x as int) < k && prime(x as int),
            forall|t: int| 0 <= t < v@.len() ==> v@[t] < k,
        decreases upper_bound + 1 - k,
    {
        if buf[k] {
            let ghost old_v = v@;
            v.push(k);
            proof {
                assert forall|x: usize| #[trigger] v@.contains(x) <==> ((x as int) < k + 1
                    && prime(x as int)) by {
                    lemma_push_contains(old_v, k, x);
                }
            }
        }
        k += 1;
    }
    v
}

/// The cut points that divide `[start, end]` into `n` chunks: `n + 1`
/// boundaries beginning at `start` and ending at `end`, each chunk
/// `(end - start) / n` wide, the first `(end - start) % n` chunks one
/// wider.
pub open spec fn partition_shape(r: Seq<usize>, start: int, end: int, n: int) -> bool {
    let span = end - start;
    &&& r.len() == n + 1
    &&& r[0] == start
    &&& r[n] == end
    &&& forall|i: int|
        #![trigger r[i + 1]]
        0 <= i < n ==> r[i + 1] as int == r[i] as int + span / n + (if i < span % n {
            1int
        } else {
            0int
        })
}

/// The boundary sequence that cuts `[start, end]` into `num_chunks`
/// near-equal chunks, larger chunks first.
pub fn get_partition_indices(start: usize, end: usize, num_chunks: usize) -> (r: Vec<usize>)
    requires
        num_chunks >= 1,
        start <= end,
    ensures
        partition_shape(r@, start as int, end as int, num_chunks as int),
{
    let ghost n = num_chunks as int;
    let ghost span = end as int - start as int;
    let dist = end - start;
    let div = dist / num_chunks;
    let modulus = dist % num_chunks;
    proof {
        vstd::arithmetic::div_mod::lemma_fundamental_div_mod(span, n);
    }
    let mut v: Vec<usize> = Vec::new();
    v.push(start);
    let mut cumsum = start;
    let mut t: usize = 0;
    while t < modulus
        invariant
            t <= modulus,
            num_chunks >= 1,
            start <= end,
            dist == span,
            span == end - start,
            div as int == span / n,
            modulus as int == span % n,
            0 <= modulus < num_chunks,
            n * (div as int) + modulus == span,
            v@.len() == t + 1,
            v@[0] == start,
            cumsum == v@[t as int],
            cumsum as int == start as int + t * (div as int + 1),
            forall|i: int|
                #![trigger v@[i + 1]]
                0 <= i < t ==> v@[i + 1] as int == v@[i] as int + span / n + (if i < span % n {
                    1int
                } else {
                    0int
                }),
        decreases modulus - t,
    {
        proof {
            let ti = t as int;
            let dv = div as int;
            let md = modulus as int;
            assert((ti + 1) * (dv + 1) <= span) by (nonlinear_arith)
                requires
                    ti + 1 <= md,
                    md < n,
                    0 <= dv,
                    n * dv + md == span;
            assert((ti + 1) * (dv + 1) == ti * (dv + 1) + (dv + 1)) by (nonlinear_arith);
        }
        cumsum = cumsum + div + 1;
        v.push(cumsum);
        t += 1;
    }
    let mut u: usize = 0;
    while u < num_chunks - modulus
        invariant
            u <= num_chunks - modulus,
            num_chunks >= 1,
            start <= end,
            span == end - start,
            div as int == span / n,
            modulus as int == span % n,
            0 <= modulus < num_chunks,
            n * (div as int) + modulus == span,
            v@.len() == modulus + u + 1,
            v@[0] == start,
            cumsum == v@[modulus as int + u],
            cumsum as int == start as int + modulus * (div as int + 1) + u * (div as int),
            forall|i: int|
                #![trigger v@[i + 1]]
                0 <= i < modulus + u ==> v@[i + 1] as int == v@[i] as int + span / n + (if i < span
                    % n {
                    1int
                } else {
                    0int
                }),
        decreases num_chunks - modulus - u,
    {
        proof {
            let ui = u as int;
            let dv = div as int;
            let md = modulus as int;
            assert(md * (dv + 1) + (ui + 1) * dv <= span) by (nonlinear_arith)
                requires
                    ui + 1 <= n - md,
                    0 <= md,
                    0 <= dv,
                    n * dv + md == span;
            assert((ui + 1) * dv == ui * dv + dv) by (nonlinear_arith);
        }
        cumsum = cumsum + div;
        v.push(cumsum);
        u += 1;
    }
    proof {
        let dv = div as int;
        let md = modulus as int;
        assert(md * (dv + 1) + (n - md) * dv == n * dv + md) by (nonlinear_arith);
        assert(cumsum == end);
    }
    v
}

/// In a partition whose span is at least its chunk count, boundaries
/// strictly increase, every chunk is within one of every other, and no
/// chunk is wider than an earlier one.
pub proof fn lemma_partition_properties(r: Seq<usize>, start: int, end: int, n: int)
    requires
        partition_shape(r, start, end, n),
        1 <= n <= end - start,
    ensures
        forall|i: int, j: int| 0 <= i < j <= n ==> r[i] < r[j],
        forall|i: int, j: int|
            #![trigger r[i + 1], r[j + 1]]
            0 <= i <= j < n ==> r[j + 1] as int - r[j] as int <= r[i + 1] as int - r[i] as int
                <= r[j + 1] as int - r[j] as int + 1,
{
    let span = end - start;
    vstd::arithmetic::div_mod::lemma_fundamental_div_mod(span, n);
    assert(span / n >= 1) by (nonlinear_arith)
        requires
            n * (span / n) + span % n == span,
            0 <= span % n < n,
            1 <= n <= span;
    assert forall|i: int, j: int| 0 <= i < j <= n implies r[i] < r[j] by {
        lemma_boundaries_spread(r, start, end, n, i, j);
        assert((j - i) * (span / n) >= 1) by (nonlinear_arith)
            requires
                1 <= j - i,
                1 <= span / n;
    }
    assert forall|i: int, j: int|
        #![trigger r[i + 1], r[j + 1]]
        0 <= i <= j < n implies r[j + 1] as int - r[j] as int <= r[i + 1] as int - r[i] as int <= r[
        j + 1] as int - r[j] as int + 1 by {
        assert(r[i + 1] as int == r[i] as int + span / n + (if i < span % n {
            1int
        } else {
            0int
        }));
        assert(r[j + 1] as int == r[j] as int + span / n + (if j < span % n {
            1int
        } else {
            0int
        }));
    }
}

/// Boundaries grow by at least the chunk width: `r[b] - r[a]` is at least
/// `(b - a)` times `(end - start) / n`.
pub proof fn lemma_boundaries_spread(r: Seq<usize>, start: int, end: int, n: int, a: int, b: int)
    requires
        partition_shape(r, start, end, n),
        0 <= a <= b <= n,
        (end - start) / n >= 1,
    ensures
        r[a] as int + (b - a) * ((end - start) / n) <= r[b] as int,
    decreases b - a,
{
    let d = (end - start) / n;
    if a == b {
        assert((b - a) * d == 0) by (nonlinear_arith)
            requires
                a == b;
    } else {
        lemma_boundaries_spread(r, start, end, n, a, b - 1);
        let i0 = b - 1;
        assert(r[i0 + 1] as int == r[i0] as int + d + (if i0 < (end - start) % n {
            1int
        } else {
            0int
        }));
        assert(r[b] as int >= r[b - 1] as int + d);
        assert((b - a) * d == (b - 1 - a) * d + d) by (nonlinear_arith);
    }
}

/// Sieves the inclusive range `[start, end]` by the listed trial
/// divisors: the survivors are exactly the primes of the range that are
/// not themselves listed. Complete when the list holds every prime whose
/// square is at most `end`.
pub fn single_segment_sieve(primes: &Vec<usize>, start: usize, end: usize) -> (r: Vec<usize>)
    requires
        2 <= start < end,
        end < usize::MAX,
        forall|k: int| 0 <= k < primes@.len() ==> prime(#[trigger] primes@[k] as int),
        forall|p: usize|
            prime(p as int) && (p as int) * (p as int) <= end as int ==> primes@.contains(p),
    ensures
        strictly_ascending(r@),
        forall|x: usize|
            #[trigger] r@.contains(x) <==> (start <= x <= end && prime(x as int)
                && !primes@.contains(x)),
{
    let size = end - start + 1;
    let mut buf: Vec<bool> = make_true_buf(size);
    let ghost st = start as int;
    let ghost en = end as int;
    let mut t: usize = 0;
    while t < primes.len()
        invariant
            t <= primes@.len(),
            2 <= start < end,
            end < usize::MAX,
            size == end - start + 1,
            buf@.len() == size,
            forall|k: int| 0 <= k < primes@.len() ==> prime(#[trigger] primes@[k] as int),
            forall|m: int|
                #![trigger buf@[m]]
                0 <= m < size as int ==> (buf@[m] <==> !some_listed_divides(
                    primes@,
                    t as int,
                    start as int + m,
                )),
        decreases primes@.len() - t,
    {
        let p = primes[t];
        let ghost pi = p as int;
        proof {
            assert(prime(primes@[t as int] as int));
        }
        if p <= end {
            let q = start / p;
            proof {
                vstd::arithmetic::div_mod::lemma_fundamental_div_mod(st, pi);
                assert(q as int * pi == pi * (st / pi)) by (nonlinear_arith)
                    requires
                        q as int == st / pi;
            }
            let c0 = q * p;
            proof {
                assert(divides(pi, c0 as int)) by {
                    assert(c0 as int == pi * (q as int));
                }
                assert(c0 <= start);
                assert(st < c0 as int + pi);
            }
            let mut c: usize;
            let mut in_range: bool = true;
            if c0 < start {
                if c0 > end - p {
                    in_range = false;
                    c = c0;
                } else {
                    c = c0 + p;
                    proof {
                        assert(divides(pi, c as int)) by {
                            assert(c as int == pi * (q as int + 1)) by (nonlinear_arith)
                                requires
                                    c0 as int == pi * (q as int),
                                    c as int == c0 as int + pi;
                        }
                    }
                }
            } else {
                c = c0;
            }
            if in_range {
                proof {
                    assert(start as int <= c as int <= end as int);
                    assert forall|x: int| st <= x && divides(pi, x) implies c as int <= x by {
                        if x < c && c0 < start {
                            lemma_multiple_spacing(pi, x, c as int);
                            assert(x <= c0);
                        }
                    }
                }
                #[verifier::loop_isolation(true)]
                loop
                    invariant_except_break
                        2 <= start < end,
                        end < usize::MAX,
                        2 <= p <= end,
                        size == end - start + 1,
                        buf@.len() == size,
                        start <= c <= end,
                        divides(p as int, c as int),
                        forall|m: int|
                            #![trigger buf@[m]]
                            0 <= m < size as int ==> (buf@[m] <==> (!some_listed_divides(
                                primes@,
                                t as int,
                                start as int + m,
                            ) && !(divides(p as int, start as int + m) && start as int + m
                                < c as int))),
                    ensures
                        buf@.len() == size,
                        2 <= start < end,
                        forall|m: int|
                            #![trigger buf@[m]]
                            0 <= m < size as int ==> (buf@[m] <==> (!some_listed_divides(
                                primes@,
                                t as int,
                                start as int + m,
                            ) && !divides(p as int, start as int + m))),
                    decreases end - c,
                {
                    buf.set(c - start, false);
                    if c > end - p {
                        proof {
                            assert forall|m: int|
                                0 <= m < size as int implies (buf@[m] <==> (!some_listed_divides(
                                primes@,
                                t as int,
                                start as int + m,
                            ) && !divides(p as int, start as int + m))) by {
                                let x = start as int + m;
                                if divides(p as int, x) && x > c as int {
                                    lemma_multiple_spacing(p as int, c as int, x);
                                }
                            }
                        }
                        break ;
                    }
                    let ghost cold = c as int;
                    c += p;
                    proof {
                        let pv = p as int;
                        let k = choose|k: int| cold == #[trigger] (pv * k);
                        assert(c as int == pv * (k + 1)) by (nonlinear_arith)
                            requires
                                cold == pv * k,
                                c as int == cold + pv;
                        assert(divides(pv, c as int));
                        assert forall|m: int|
                            0 <= m < size as int implies (buf@[m] <==> (!some_listed_divides(
                            primes@,
                            t as int,
                            start as int + m,
                        ) && !(divides(pv, start as int + m) && start as int + m
                            < c as int))) by {
                            let x = start as int + m;
                            if divides(pv, x) && cold < x < c as int {
                                lemma_multiple_spacing(pv, cold, x);
                            }
                        }
                    }
                }
            } else {
                proof {
                    assert forall|x: int| start as int <= x <= end as int implies !divides(
                        pi,
                        x,
                    ) by {
                        if divides(pi, x) {
                            if x > c0 as int {
                                lemma_multiple_spacing(pi, c0 as int, x);
                            }
                        }
                    }
                }
            }
        } else {
            proof {
                assert forall|x: int| start as int <= x <= end as int implies !divides(
                    pi,
                    x,
                ) by {
                    if divides(pi, x) && x >= 1 {
                        lemma_divisor_le(pi, x);
                    }
                }
            }
        }
        proof {
            assert forall|m: int|
                0 <= m < size as int implies (buf@[m] <==> !some_listed_divides(
                primes@,
                t as int + 1,
                start as int + m,
            )) by {
                let x = start as int + m;
                if some_listed_divides(primes@, t as int + 1, x) && !some_listed_divides(
                    primes@,
                    t as int,
                    x,
                ) {
                    let k = choose|k: int|
                        0 <= k < t as int + 1 && #[trigger] divides(primes@[k] as int, x);
                    assert(k == t as int);
                    assert(divides(pi, x));
                }
                if divides(pi, x) {
                    assert(divides(primes@[t as int] as int, x));
                    assert(some_listed_divides(primes@, t as int + 1, x));
                }
            }
        }
        t += 1;
    }
    proof {
        assert forall|m: int|
            0 <= m < size as int implies (buf@[m] <==> (prime(st + m) && !primes@.contains(
            (st + m) as usize,
        ))) by {
            let x = st + m;
            let xu = (st + m) as usize;
            if buf@[m] {
                if !prime(x) {
                    lemma_composite_small_prime_factor(x);
                    let pf = choose|pf: int| prime(pf) && pf * pf <= x && divides(pf, x);
                    assert(pf <= pf * pf) by (nonlinear_arith)
                        requires
                            2 <= pf;
                    assert((pf as usize) as int == pf);
                    assert(primes@.contains(pf as usize));
                    let k = choose|k: int| 0 <= k < primes@.len() && primes@[k] == pf as usize;
                    assert(divides(primes@[k] as int, x));
                    assert(some_listed_divides(primes@, primes@.len() as int, x));
                }
                if primes@.contains(xu) {
                    let k = choose|k: int| 0 <= k < primes@.len() && primes@[k] == xu;
                    assert(x == x * 1);
                    assert(divides(x, x));
                    assert(divides(primes@[k] as int, x));
                    assert(some_listed_divides(primes@, primes@.len() as int, x));
                }
            } else {
                let k = choose|k: int|
                    0 <= k < primes@.len() && #[trigger] divides(primes@[k] as int, x);
                let pk = primes@[k] as int;
                if prime(x) && !primes@.contains(xu) {
                    lemma_divisor_le(pk, x);
                    if pk < x {
                        assert(!divides(pk, x));
                    } else {
                        assert(pk == x);
                        assert(primes@[k] == xu);
                    }
                }
            }
        }
    }
    let mut v: Vec<usize> = Vec::new();
    let mut k: usize = 0;
    while k < size
        invariant
            k <= size,
            2 <= start < end,
            end < usize::MAX,
            size == end - start + 1,
            buf@.len() == size,
            forall|m: int|
                #![trigger buf@[m]]
                0 <= m < size as int ==> (buf@[m] <==> (prime(start as int + m)
                    && !primes@.contains((start as int + m) as usize))),
            strictly_ascending(v@),
            forall|x: usize|
                #[trigger] v@.contains(x) <==> (start <= x && (x as int) < start as int + k
                    && prime(x as int) && !primes@.contains(x)),
            forall|q: int| 0 <= q < v@.len() ==> (v@[q] as int) < start as int + k,
        decreases size - k,
    {
        if buf[k] {
            let ghost old_v = v@;
            v.push(start + k);
            proof {
                assert forall|x: usize|
                    #[trigger] v@.contains(x) <==> (start <= x && (x as int) < start as int + k + 1
                        && prime(x as int) && !primes@.contains(x)) by {
                    lemma_push_contains(old_v, (start + k) as usize, x);
                }
            }
        }
        k += 1;
    }
    v
}

/// The bound up to which the accumulated result lists primes once the
/// first `s` segments are appended after the base primes.
pub open spec fn covered_to(ix: Seq<usize>, sb: int, s: int) -> int {
    if s == 0 {
        sb
    } else {
        ix[s] as int - 1
    }
}

/// A segment count fits a limit when every chunk of the range from the
/// rounded-up square root of the limit to `limit + 1` can be at least
/// two wide.
pub open spec fn valid_segmentation(limit: int, n: int) -> bool {
    &&& 1 <= n
    &&& limit >= 2 ==> forall|s: int| #[trigger] is_ceil_sqrt(limit, s) ==> s + 2 * n <= limit + 1
}

/// Decides, for every input, whether the segmented sieves accept it:
/// true exactly when the chunk count is at least 1, the limit leaves
/// room for the successor bound, and every chunk of the sieved range
/// can be at least two wide.
pub fn segmentation_fits(limit: usize, num_segments: usize) -> (r: bool)
    ensures
        r == (limit < usize::MAX && valid_segmentation(
            limit as int,
            num_segments as int,
        )),
{
    if num_segments == 0 {
        return false;
    }
    if limit == usize::MAX {
        return false;
    }
    if limit <= 1 {
        return true;
    }
    let sb = sqrt_ceiling(limit);
    let room = limit + 1 - sb;
    let fits = num_segments <= room / 2;
    proof {
        vstd::arithmetic::div_mod::lemma_fundamental_div_mod(room as int, 2);
        if fits {
            assert forall|s: int| #[trigger] is_ceil_sqrt(limit as int, s) implies s + 2 * (
            num_segments as int) <= limit as int + 1 by {
                lemma_ceil_sqrt_unique(limit as int, s, sb as int);
            }
        } else {
            assert(!(sb as int + 2 * (num_segments as int) <= limit as int + 1));
        }
    }
    fits
}

/// All primes up to `limit`: the base sieve finds the primes up to the
/// rounded-up square root, the rest of the range is cut into
/// `num_segments` chunks and each chunk is sieved in turn against the
/// base primes, results appended in chunk order.
pub fn sequential_segmented_sieve(limit: usize, num_segments: usize) -> (r: Vec<usize>)
    requires
        limit < usize::MAX,
        valid_segmentation(limit as int, num_segments as int),
    ensures
        prime_listing(r@, limit as int),
{
    if limit <= 1 {
        let r: Vec<usize> = Vec::new();
        return r;
    }
    let ghost li = limit as int;
    let ghost n = num_segments as int;
    let sb = sqrt_ceiling(limit);
    proof {
        assert(is_ceil_sqrt(li, sb as int));
        assert(sb as int + 2 * n <= li + 1);
    }
    let base = sequential_sieve(sb);
    proof {
        lemma_listing_members_prime(base@, sb as int);
    }
    let indices = get_partition_indices(sb, limit + 1, num_segments);
    let ghost span = li + 1 - sb as int;
    let ghost dv = span / n;
    proof {
        vstd::arithmetic::div_mod::lemma_fundamental_div_mod(span, n);
        assert(dv >= 2) by (nonlinear_arith)
            requires
                n * dv + span % n == span,
                0 <= span % n < n,
                1 <= n,
                2 * n <= span;
    }
    let mut result: Vec<usize> = Vec::new();
    push_all(&mut result, &base);
    proof {
        assert(Seq::<usize>::empty() + base@ =~= base@);
    }
    let mut s: usize = 0;
    while s < num_segments
        invariant
            s <= num_segments,
            2 <= limit < usize::MAX,
            2 <= sb <= limit,
            is_ceil_sqrt(limit as int, sb as int),
            n == num_segments as int,
            1 <= n,
            span == limit as int + 1 - sb as int,
            dv == span / n,
            dv >= 2,
            partition_shape(indices@, sb as int, limit as int + 1, n),
            prime_listing(base@, sb as int),
            prime_listing(result@, covered_to(indices@, sb as int, s as int)),
        decreases num_segments - s,
    {
        proof {
            lemma_boundaries_spread(indices@, sb as int, li + 1, n, 0, s as int);
            lemma_boundaries_spread(indices@, sb as int, li + 1, n, s as int, s as int + 1);
            lemma_boundaries_spread(indices@, sb as int, li + 1, n, s as int + 1, n);
            assert((s as int) * dv >= s as int) by (nonlinear_arith)
                requires
                    0 <= s as int,
                    2 <= dv;
            assert(1 * dv == dv) by (nonlinear_arith);
            assert((n - (s as int + 1)) * dv >= 0) by (nonlinear_arith)
                requires
                    s as int + 1 <= n,
                    2 <= dv;
        }
        let start = indices[s];
        let end = indices[s + 1] - 1;
        proof {
            assert(2 <= start < end <= limit);
            assert forall|p: usize|
                prime(p as int) && (p as int) * (p as int) <= end as int implies base@.contains(
                p,
            ) by {
                assert(li <= (sb as int) * (sb as int));
                assert(p as int <= sb as int) by (nonlinear_arith)
                    requires
                        (p as int) * (p as int) <= (sb as int) * (sb as int),
                        0 <= p as int,
                        0 <= sb as int;
            }
        }
        let mut seg = single_segment_sieve(&base, start, end);
        let ghost mid = covered_to(indices@, sb as int, s as int);
        let ghost hi = end as int;
        proof {
            assert forall|x: usize| #[trigger] seg@.contains(x) <==> (mid < x as int && x as int
                <= hi && prime(x as int)) by {
                if seg@.contains(x) {
                    assert(start <= x <= end && prime(x as int) && !base@.contains(x));
                    if s == 0 {
                        if x as int == sb as int {
                            assert(base@.contains(x));
                        }
                    }
                }
                if mid < x as int && x as int <= hi && prime(x as int) {
                    assert(x as int > sb as int);
                    assert(start <= x <= end);
                    assert(!base@.contains(x));
                }
            }
            lemma_prime_listing_extend(result@, seg@, mid, hi);
        }
        result.append(&mut seg);
        s += 1;
    }
    result
}

/// Sieves every listed chunk against the shared base primes, one rayon
/// task per chunk.
///
/// Relies on rayon's `par_iter`, `map` and `collect` on a `Vec`: the
/// collected vector holds, at each index, the image of the pair at that
/// index — rayon documents that collecting an indexed parallel iterator
/// into a `Vec` keeps the original order (see its `collect_into_vec` and
/// `map` documentation). The closure only reads the pair's fields and
/// calls the verified `single_segment_sieve`, whose preconditions are
/// required here, per chunk, and whose postcondition is stated of each
/// element of the result.
#[verifier::external_body]
fn sieve_segments_parallel(primes: &Vec<usize>, bounds: &Vec<(usize, usize)>) -> (r: Vec<
    Vec<usize>,
>)
    requires
        forall|k: int|
            0 <= k < bounds@.len() ==> 2 <= (#[trigger] bounds@[k]).0 && bounds@[k].0
                < bounds@[k].1 && bounds@[k].1 < usize::MAX,
        forall|k: int| 0 <= k < primes@.len() ==> prime(#[trigger] primes@[k] as int),
        forall|k: int, p: usize|
            #![trigger bounds@[k], primes@.contains(p)]
            0 <= k < bounds@.len() && prime(p as int) && (p as int) * (p as int)
                <= bounds@[k].1 as int ==> primes@.contains(p),
    ensures
        r@.len() == bounds@.len(),
        forall|k: int| 0 <= k < r@.len() ==> strictly_ascending((#[trigger] r@[k])@),
        forall|k: int, x: usize|
            #![trigger r@[k]@.contains(x)]
            0 <= k < r@.len() ==> (r@[k]@.contains(x) <==> (bounds@[k].0 <= x <= bounds@[k].1
                && prime(x as int) && !primes@.contains(x))),
{
    bounds.par_iter().map(|b| single_segment_sieve(primes, b.0, b.1)).collect()
}

/// All primes up to `limit`, as `sequential_segmented_sieve` finds them,
/// but with the chunks sieved in parallel and the results appended in
/// chunk order, not completion order.
pub fn rayon_segmented_sieve(limit: usize, num_segments: usize) -> (r: Vec<usize>)
    requires
        limit < usize::MAX,
        valid_segmentation(limit as int, num_segments as int),
    ensures
        prime_listing(r@, limit as int),
{
    if limit <= 1 {
        let r: Vec<usize> = Vec::new();
        return r;
    }
    let ghost li = limit as int;
    let ghost n = num_segments as int;
    let sb = sqrt_ceiling(limit);
    proof {
        assert(is_ceil_sqrt(li, sb as int));
        assert(sb as int + 2 * n <= li + 1);
    }
    let base = sequential_sieve(sb);
    proof {
        lemma_listing_members_prime(base@, sb as int);
    }
    let indices = get_partition_indices(sb, limit + 1, num_segments);
    let ghost span = li + 1 - sb as int;
    let ghost dv = span / n;
    proof {
        vstd::arithmetic::div_mod::lemma_fundamental_div_mod(span, n);
        assert(dv >= 2) by (nonlinear_arith)
            requires
                n * dv + span % n == span,
                0 <= span % n < n,
                1 <= n,
                2 * n <= span;
    }
    let mut bounds: Vec<(usize, usize)> = Vec::new();
    let mut s: usize = 0;
    while s < num_segments
        invariant
            s <= num_segments,
            2 <= limit < usize::MAX,
            2 <= sb <= limit,
            n == num_segments as int,
            1 <= n,
            span == limit as int + 1 - sb as int,
            dv == span / n,
            dv >= 2,
            partition_shape(indices@, sb as int, limit as int + 1, n),
            bounds@.len() == s as int,
            forall|k: int|
                0 <= k < s as int ==> (#[trigger] bounds@[k]).0 == indices@[k]
                    && bounds@[k].1 as int == indices@[k + 1] as int - 1,
        decreases num_segments - s,
    {
        proof {
            lemma_boundaries_spread(indices@, sb as int, li + 1, n, 0, s as int);
            lemma_boundaries_spread(indices@, sb as int, li + 1, n, s as int, s as int + 1);
            lemma_boundaries_spread(indices@, sb as int, li + 1, n, s as int + 1, n);
            assert((s as int) * dv >= 0) by (nonlinear_arith)
                requires
                    0 <= s as int,
                    2 <= dv;
            assert(1 * dv == dv) by (nonlinear_arith);
            assert((n - (s as int + 1)) * dv >= 0) by (nonlinear_arith)
                requires
                    s as int + 1 <= n,
                    2 <= dv;
        }
        let pair = (indices[s], indices[s + 1] - 1);
        bounds.push(pair);
        s += 1;
    }
    proof {
        assert forall|k: int|
            0 <= k < bounds@.len() implies 2 <= (#[trigger] bounds@[k]).0 && bounds@[k].0
            < bounds@[k].1 && bounds@[k].1 < usize::MAX by {
            lemma_boundaries_spread(indices@, sb as int, li + 1, n, 0, k);
            lemma_boundaries_spread(indices@, sb as int, li + 1, n, k, k + 1);
            lemma_boundaries_spread(indices@, sb as int, li + 1, n, k + 1, n);
            assert(k * dv >= 0) by (nonlinear_arith)
                requires
                    0 <= k,
                    2 <= dv;
            assert(1 * dv == dv) by (nonlinear_arith);
            assert((n - (k + 1)) * dv >= 0) by (nonlinear_arith)
                requires
                    k + 1 <= n,
                    2 <= dv;
        }
        assert forall|k: int, p: usize|
            #![trigger bounds@[k], base@.contains(p)]
            0 <= k < bounds@.len() && prime(p as int) && (p as int) * (p as int)
                <= bounds@[k].1 as int implies base@.contains(p) by {
            lemma_boundaries_spread(indices@, sb as int, li + 1, n, k + 1, n);
            assert((n - (k + 1)) * dv >= 0) by (nonlinear_arith)
                requires
                    k + 1 <= n,
                    2 <= dv;
            assert(bounds@[k].1 as int <= li);
            assert(li <= (sb as int) * (sb as int));
            assert(p as int <= sb as int) by (nonlinear_arith)
                requires
                    (p as int) * (p as int) <= (sb as int) * (sb as int),
                    0 <= p as int,
                    0 <= sb as int;
        }
    }
    let segs = sieve_segments_parallel(&base, &bounds);
    let mut result: Vec<usize> = Vec::new();
    push_all(&mut result, &base);
    proof {
        assert(Seq::<usize>::empty() + base@ =~= base@);
    }
    let mut s2: usize = 0;
    while s2 < num_segments
        invariant
            s2 <= num_segments,
            2 <= limit < usize::MAX,
            2 <= sb <= limit,
            is_ceil_sqrt(limit as int, sb as int),
            n == num_segments as int,
            1 <= n,
            span == limit as int + 1 - sb as int,
            dv == span / n,
            dv >= 2,
            partition_shape(indices@, sb as int, limit as int + 1, n),
            prime_listing(base@, sb as int),
            bounds@.len() == n,
            forall|k: int|
                0 <= k < n ==> (#[trigger] bounds@[k]).0 == indices@[k] && bounds@[k].1 as int
                    == indices@[k + 1] as int - 1,
            segs@.len() == n,
            forall|k: int| 0 <= k < n ==> strictly_ascending((#[trigger] segs@[k])@),
            forall|k: int, x: usize|
                #![trigger segs@[k]@.contains(x)]
                0 <= k < n ==> (segs@[k]@.contains(x) <==> (bounds@[k].0 <= x <= bounds@[k].1
                    && prime(x as int) && !base@.contains(x))),
            prime_listing(result@, covered_to(indices@, sb as int, s2 as int)),
        decreases num_segments - s2,
    {
        let ghost mid = covered_to(indices@, sb as int, s2 as int);
        let ghost hi = indices@[s2 as int + 1] as int - 1;
        proof {
            lemma_boundaries_spread(indices@, sb as int, li + 1, n, 0, s2 as int);
            lemma_boundaries_spread(indices@, sb as int, li + 1, n, s2 as int, s2 as int + 1);
            lemma_boundaries_spread(indices@, sb as int, li + 1, n, s2 as int + 1, n);
            assert((s2 as int) * dv >= s2 as int) by (nonlinear_arith)
                requires
                    0 <= s2 as int,
                    2 <= dv;
            assert(1 * dv == dv) by (nonlinear_arith);
            assert((n - (s2 as int + 1)) * dv >= 0) by (nonlinear_arith)
                requires
                    s2 as int + 1 <= n,
                    2 <= dv;
            assert forall|x: usize| #[trigger] segs@[s2 as int]@.contains(x) <==> (mid < x as int
                && x as int <= hi && prime(x as int)) by {
                let start = bounds@[s2 as int].0;
                let end = bounds@[s2 as int].1;
                if segs@[s2 as int]@.contains(x) {
                    assert(start <= x <= end && prime(x as int) && !base@.contains(x));
                    if s2 == 0 {
                        if x as int == sb as int {
                            assert(base@.contains(x));
                        }
                    }
                }
                if mid < x as int && x as int <= hi && prime(x as int) {
                    assert(x as int > sb as int);
                    assert(start <= x <= end);
                    assert(!base@.contains(x));
                }
            }
            lemma_prime_listing_extend(result@, segs@[s2 as int]@, mid, hi);
        }
        push_all(&mut result, &segs[s2]);
        s2 += 1;
    }
    result
}

} // verus!
