//! The model of the prime table: the primes in ascending order, each at the
//! index that counts the primes below it.

use vstd::prelude::*;
use crate::divisibility::{divides, is_prime};

verus! {

/// The number of primes below `n`.
pub open spec fn primes_below(n: nat) -> nat
    decreases n,
{
    if n == 0 {
        0
    } else if is_prime((n - 1) as nat) {
        primes_below((n - 1) as nat) + 1
    } else {
        primes_below((n - 1) as nat)
    }
}

/// `p` is the prime with the zero-based index `i`: the prime that has `i`
/// primes below it.
pub open spec fn is_nth_prime(p: nat, i: nat) -> bool {
    is_prime(p) && primes_below(p) == i
}

/// `s` holds the first `s.len()` primes in ascending order.
pub open spec fn is_prime_table(s: Seq<u64>) -> bool {
    forall|i: int| 0 <= i < s.len() ==> is_nth_prime(#[trigger] s[i] as nat, i as nat)
}

/// No prime above `m` fits in a `u64`.
pub open spec fn no_prime_above(m: u64) -> bool {
    forall|q: nat| m < q <= u64::MAX ==> !#[trigger] is_prime(q)
}

/// The largest `r` whose square does not exceed `n`.
pub open spec fn isqrt(n: nat) -> nat
    decreases n,
{
    if n == 0 {
        0
    } else {
        let r = isqrt((n - 1) as nat);
        if (r + 1) * (r + 1) <= n {
            r + 1
        } else {
            r
        }
    }
}

/// `after` is the table `before`, grown one prime at a time for as long as
/// its last entry was below `limit` and a further prime fitted in a `u64`.
pub open spec fn grown_to_bound(before: Seq<u64>, after: Seq<u64>, limit: nat) -> bool {
    &&& before.len() >= 2
    &&& is_prime_table(after)
    &&& before.is_prefix_of(after)
    &&& after.len() > before.len() ==> after[after.len() - 2] < limit
    &&& after.last() >= limit || no_prime_above(after.last())
}

/// `after` is the table `before`, grown one prime at a time for as long as
/// it did not reach the index `n` and a further prime fitted in a `u64`.
pub open spec fn grown_to_index(before: Seq<u64>, after: Seq<u64>, n: usize) -> bool {
    &&& before.len() >= 2
    &&& is_prime_table(after)
    &&& before.is_prefix_of(after)
    &&& after.len() > before.len() ==> after.len() <= n + 1
    &&& after.len() > n || no_prime_above(after.last())
}

/// The number lies between the square of its square root and the square of
/// the next number.
pub proof fn lemma_isqrt(n: nat)
    ensures
        isqrt(n) * isqrt(n) <= n < (isqrt(n) + 1) * (isqrt(n) + 1),
    decreases n,
{
    let s = isqrt(n);
    if n == 0 {
        assert(s * s <= n < (s + 1) * (s + 1)) by (nonlinear_arith)
            requires
                s == 0,
                n == 0,
        ;
    } else {
        lemma_isqrt((n - 1) as nat);
        let r = isqrt((n - 1) as nat);
        if (r + 1) * (r + 1) <= n {
            assert(s * s <= n < (s + 1) * (s + 1)) by (nonlinear_arith)
                requires
                    s == r + 1,
                    (r + 1) * (r + 1) <= n,
                    n - 1 < (r + 1) * (r + 1),
            ;
        } else {
            assert(s * s <= n < (s + 1) * (s + 1)) by (nonlinear_arith)
                requires
                    s == r,
                    r * r <= n - 1,
                    n < (r + 1) * (r + 1),
            ;
        }
    }
}

/// The square root is the only number between whose square and whose
/// successor's square `n` lies.
pub proof fn lemma_isqrt_unique(n: nat, r: nat)
    requires
        r * r <= n < (r + 1) * (r + 1),
    ensures
        r == isqrt(n),
{
    lemma_isqrt(n);
    let s = isqrt(n);
    if r < s {
        assert((r + 1) * (r + 1) <= s * s) by (nonlinear_arith)
            requires
                r + 1 <= s,
        ;
    } else if s < r {
        assert((s + 1) * (s + 1) <= r * r) by (nonlinear_arith)
            requires
                s + 1 <= r,
        ;
    }
}

/// A number whose square does not exceed `n` is at most the square root.
pub proof fn lemma_isqrt_bounds(n: nat, p: nat)
    ensures
        p * p <= n <==> p <= isqrt(n),
{
    lemma_isqrt(n);
    let s = isqrt(n);
    if p <= s {
        assert(p * p <= s * s) by (nonlinear_arith)
            requires
                p <= s,
        ;
    } else {
        assert((s + 1) * (s + 1) <= p * p) by (nonlinear_arith)
            requires
                s + 1 <= p,
        ;
    }
}

/// The count of the primes below a bound grows with the bound: not at all
/// over a stretch without a prime, and strictly over one that holds a prime.
pub proof fn lemma_primes_below_monotone(a: nat, b: nat)
    requires
        a <= b,
    ensures
        primes_below(a) <= primes_below(b),
        (forall|q: nat| a <= q < b ==> !#[trigger] is_prime(q)) ==> primes_below(a) == primes_below(
            b,
        ),
        (exists|q: nat| a <= q < b && #[trigger] is_prime(q)) ==> primes_below(a) < primes_below(b),
    decreases b,
{
    if a < b {
        lemma_primes_below_monotone(a, (b - 1) as nat);
        if exists|q: nat| a <= q < b && #[trigger] is_prime(q) {
            let q = choose|q: nat| a <= q < b && #[trigger] is_prime(q);
            if q < b - 1 {
                assert(a <= q < b - 1 && is_prime(q));
            }
        }
    }
}

/// Only one prime has a given index.
pub proof fn lemma_nth_prime_unique(p: nat, q: nat, i: nat)
    requires
        is_nth_prime(p, i),
        is_nth_prime(q, i),
    ensures
        p == q,
{
    if p < q {
        assert(p <= p < q && is_prime(p));
        lemma_primes_below_monotone(p, q);
    } else if q < p {
        assert(q <= q < p && is_prime(q));
        lemma_primes_below_monotone(q, p);
    }
}

/// Two and three are the first two primes.
pub proof fn lemma_first_primes()
    ensures
        is_nth_prime(2, 0),
        is_nth_prime(3, 1),
        is_prime_table(seq![2u64, 3u64]),
{
    assert(is_prime(2));
    assert(is_prime(3)) by {
        assert forall|d: nat| 1 < d < 3 implies !#[trigger] divides(d, 3) by {
            assert(d == 2);
        }
    }
    assert(!is_prime(0));
    assert(!is_prime(1));
    assert(primes_below(2) == 0) by {
        reveal_with_fuel(primes_below, 3);
    }
    assert(primes_below(3) == 1) by {
        reveal_with_fuel(primes_below, 4);
    }
    let s = seq![2u64, 3u64];
    assert forall|i: int| 0 <= i < s.len() implies is_nth_prime(
        #[trigger] s[i] as nat,
        i as nat,
    ) by {
        if i == 0 {
        } else {
            assert(i == 1);
        }
    }
}

/// A table of two or more primes starts with two, and its last entry is an
/// odd number from three on.
pub proof fn lemma_table_last_odd(s: Seq<u64>)
    requires
        is_prime_table(s),
        s.len() >= 2,
    ensures
        s[0] == 2,
        s.last() >= 3,
        s.last() % 2 == 1,
        is_prime(s.last() as nat),
{
    lemma_first_primes();
    assert(is_nth_prime(s[0] as nat, 0));
    lemma_nth_prime_unique(s[0] as nat, 2, 0);
    lemma_table_ascending(s, 0, s.len() - 1);
    assert(is_nth_prime(s[s.len() - 1] as nat, (s.len() - 1) as nat));
    if s.last() % 2 == 0 {
        lemma_even_not_prime(s.last() as nat);
    }
}

/// A table is strictly ascending.
pub proof fn lemma_table_ascending(s: Seq<u64>, i: int, j: int)
    requires
        is_prime_table(s),
        0 <= i < j < s.len(),
    ensures
        s[i] < s[j],
{
    if s[i] >= s[j] {
        lemma_primes_below_monotone(s[j] as nat, s[i] as nat);
    }
}

/// A table holds every prime up to its last entry.
pub proof fn lemma_table_complete(s: Seq<u64>, q: nat) -> (i: int)
    requires
        is_prime_table(s),
        s.len() >= 1,
        is_prime(q),
        q <= s.last(),
    ensures
        0 <= i < s.len(),
        s[i] == q,
{
    let i = primes_below(q) as int;
    let last = s.last() as nat;
    assert(is_nth_prime(s[s.len() - 1] as nat, (s.len() - 1) as nat));
    lemma_primes_below_monotone(q, last);
    let p = s[i] as nat;
    assert(is_nth_prime(p, i as nat));
    lemma_nth_prime_unique(p, q, i as nat);
    i
}

/// A prime below an entry of a table is at most the entry before it.
pub proof fn lemma_table_gap(s: Seq<u64>, k: int, q: nat)
    requires
        is_prime_table(s),
        0 <= k < s.len(),
        is_prime(q),
        q < s[k],
    ensures
        k >= 1,
        q <= s[k - 1],
{
    lemma_table_ascending_weak(s, k, s.len() - 1);
    let j = lemma_table_complete(s, q);
    if j >= k {
        lemma_table_ascending_weak(s, k, j);
    }
    lemma_table_ascending_weak(s, j, k - 1);
}

/// A table is ascending.
pub proof fn lemma_table_ascending_weak(s: Seq<u64>, i: int, j: int)
    requires
        is_prime_table(s),
        0 <= i <= j < s.len(),
    ensures
        s[i] <= s[j],
{
    if i < j {
        lemma_table_ascending(s, i, j);
    }
}

/// A table grows by the next prime after its last entry.
pub proof fn lemma_table_push(s: Seq<u64>, c: u64)
    requires
        is_prime_table(s),
        s.len() >= 1,
        is_prime(c as nat),
        s.last() < c,
        forall|q: nat| s.last() < q < c ==> !#[trigger] is_prime(q),
    ensures
        is_prime_table(s.push(c)),
{
    let last = s.last() as nat;
    assert(is_nth_prime(s[s.len() - 1] as nat, (s.len() - 1) as nat));
    lemma_primes_below_monotone(last + 1, c as nat);
    assert(primes_below(last + 1) == primes_below(last) + 1);
    let t = s.push(c);
    assert forall|i: int| 0 <= i < t.len() implies is_nth_prime(
        #[trigger] t[i] as nat,
        i as nat,
    ) by {
        if i < s.len() {
            assert(t[i] == s[i]);
        }
    }
}

/// Where no further prime fits in a `u64`, the table holds all that do.
pub proof fn lemma_table_exhausted(s: Seq<u64>)
    requires
        is_prime_table(s),
        s.len() >= 1,
        no_prime_above(s.last()),
    ensures
        primes_below((u64::MAX + 1) as nat) == s.len(),
{
    let last = s.last() as nat;
    assert(is_nth_prime(s[s.len() - 1] as nat, (s.len() - 1) as nat));
    lemma_primes_below_monotone(last + 1, (u64::MAX + 1) as nat);
    assert(primes_below(last + 1) == primes_below(last) + 1);
}

/// An even number above two is no prime.
pub proof fn lemma_even_not_prime(n: nat)
    requires
        n > 2,
        n % 2 == 0,
    ensures
        !is_prime(n),
{
    assert(divides(2, n));
}

/// A number from two on that no prime up to its square root divides is
/// prime.
pub proof fn lemma_trial_division(n: nat)
    requires
        n >= 2,
        forall|p: nat| is_prime(p) && p * p <= n ==> !#[trigger] divides(p, n),
    ensures
        is_prime(n),
{
    if !is_prime(n) {
        let p = crate::divisibility::lemma_small_prime_divisor(n);
        assert(divides(p, n));
    }
}

} // verus!
