//! What it means for a sequence to list the primes of a range, and the
//! facts that make such listings unique.
use vstd::prelude::*;
use crate::arith::prime;

verus! {

/// The elements grow strictly from left to right.
pub open spec fn strictly_ascending(s: Seq<usize>) -> bool {
    forall|i: int, j: int| 0 <= i < j < s.len() ==> s[i] < s[j]
}

/// `s` lists, in ascending order, exactly the primes `p` with
/// `2 <= p <= bound`.
pub open spec fn prime_listing(s: Seq<usize>, bound: int) -> bool {
    &&& strictly_ascending(s)
    &&& forall|n: usize| #[trigger] s.contains(n) <==> 2 <= n && n as int <= bound && prime(
        n as int,
    )
}

/// Membership in a pushed sequence: the old members, plus the new element.
pub proof fn lemma_push_contains(s: Seq<usize>, x: usize, y: usize)
    ensures
        s.push(x).contains(y) <==> s.contains(y) || y == x,
{
    if s.contains(y) {
        let i = choose|i: int| 0 <= i < s.len() && s[i] == y;
        assert(s.push(x)[i] == y);
    }
    if y == x {
        assert(s.push(x)[s.len() as int] == y);
    }
    if s.push(x).contains(y) {
        let i = choose|i: int| 0 <= i < s.push(x).len() && s.push(x)[i] == y;
        if i < s.len() {
            assert(s[i] == y);
        }
    }
}

/// Two strictly ascending sequences with the same members are equal.
pub proof fn lemma_ascending_same_members_equal(a: Seq<usize>, b: Seq<usize>)
    requires
        strictly_ascending(a),
        strictly_ascending(b),
        forall|n: usize| a.contains(n) <==> b.contains(n),
    ensures
        a == b,
    decreases a.len(),
{
    if a.len() == 0 {
        if b.len() > 0 {
            assert(b.contains(b[0]));
            assert(a.contains(b[0]));
        }
        assert(a =~= b);
    } else {
        assert(a.contains(a[0]));
        assert(b.contains(a[0]));
        let i = choose|i: int| 0 <= i < b.len() && b[i] == a[0];
        assert(b[0] <= b[i]);
        assert(b.contains(b[0]));
        assert(a.contains(b[0]));
        let j = choose|j: int| 0 <= j < a.len() && a[j] == b[0];
        assert(a[0] <= a[j]);
        assert(a[0] == b[0]);
        let a1 = a.drop_first();
        let b1 = b.drop_first();
        assert forall|n: usize| a1.contains(n) implies b1.contains(n) by {
            let k = choose|k: int| 0 <= k < a1.len() && a1[k] == n;
            assert(a[k + 1] == n);
            assert(a.contains(n));
            assert(n > a[0]);
            assert(b.contains(n));
            let m = choose|m: int| 0 <= m < b.len() && b[m] == n;
            assert(m != 0);
            assert(b1[m - 1] == n);
        }
        assert forall|n: usize| b1.contains(n) implies a1.contains(n) by {
            let k = choose|k: int| 0 <= k < b1.len() && b1[k] == n;
            assert(b[k + 1] == n);
            assert(b.contains(n));
            assert(n > b[0]);
            assert(a.contains(n));
            let m = choose|m: int| 0 <= m < a.len() && a[m] == n;
            assert(m != 0);
            assert(a1[m - 1] == n);
        }
        lemma_ascending_same_members_equal(a1, b1);
        assert(a =~= b) by {
            assert(a.len() == b.len());
            assert forall|k: int| 0 <= k < a.len() implies a[k] == b[k] by {
                if k > 0 {
                    assert(a1[k - 1] == b1[k - 1]);
                }
            }
        }
    }
}

/// Two listings of the primes up to the same bound are the same sequence.
/// In particular every sieve variant, run any number of times and cut into
/// any number of segments, returns one and the same sequence.
pub proof fn lemma_prime_listing_unique(a: Seq<usize>, b: Seq<usize>, bound: int)
    requires
        prime_listing(a, bound),
        prime_listing(b, bound),
    ensures
        a == b,
{
    lemma_ascending_same_members_equal(a, b);
}

/// Below 2 there are no primes: such a listing is empty.
pub proof fn lemma_prime_listing_empty(s: Seq<usize>, bound: int)
    requires
        prime_listing(s, bound),
        bound < 2,
    ensures
        s == Seq::<usize>::empty(),
{
    if s.len() > 0 {
        assert(s.contains(s[0]));
    }
    assert(s =~= Seq::<usize>::empty());
}

/// A listing up to `mid`, extended by the primes of `(mid, hi]` in
/// ascending order, is a listing up to `hi`.
pub proof fn lemma_prime_listing_extend(a: Seq<usize>, b: Seq<usize>, mid: int, hi: int)
    requires
        prime_listing(a, mid),
        strictly_ascending(b),
        forall|n: usize| #[trigger] b.contains(n) <==> mid < n as int && n as int <= hi && prime(
            n as int,
        ),
        mid <= hi,
    ensures
        prime_listing(a + b, hi),
{
    let c = a + b;
    assert forall|i: int, j: int| 0 <= i < j < c.len() implies c[i] < c[j] by {
        if i < a.len() && j >= a.len() {
            assert(a.contains(a[i]));
            assert(b.contains(b[j - a.len()]));
            assert(c[i] == a[i]);
            assert(c[j] == b[j - a.len()]);
        }
    }
    assert forall|n: usize| #[trigger] c.contains(n) implies 2 <= n && n as int <= hi && prime(
        n as int,
    ) by {
        let i = choose|i: int| 0 <= i < c.len() && c[i] == n;
        if i < a.len() {
            assert(a.contains(n));
        } else {
            assert(b.contains(n));
        }
    }
    assert forall|n: usize| 2 <= n && n as int <= hi && prime(n as int) implies #[trigger] c.contains(
        n,
    ) by {
        if n as int <= mid {
            assert(a.contains(n));
            let i = choose|i: int| 0 <= i < a.len() && a[i] == n;
            assert(c[i] == n);
        } else {
            assert(b.contains(n));
            let i = choose|i: int| 0 <= i < b.len() && b[i] == n;
            assert(c[a.len() + i] == n);
        }
    }
}

/// Every member of a prime listing is prime.
pub proof fn lemma_listing_members_prime(s: Seq<usize>, bound: int)
    requires
        prime_listing(s, bound),
    ensures
        forall|k: int| 0 <= k < s.len() ==> prime(#[trigger] s[k] as int),
{
    assert forall|k: int| 0 <= k < s.len() implies prime(#[trigger] s[k] as int) by {
        assert(s.contains(s[k]));
    }
}

} // verus!
