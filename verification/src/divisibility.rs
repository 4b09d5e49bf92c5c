//! Divisibility and primality over the natural numbers.

use vstd::prelude::*;
use vstd::arithmetic::div_mod::{lemma_fundamental_div_mod, lemma_mod_multiples_basic};

verus! {

/// `d` is a positive divisor of `n`.
pub open spec fn divides(d: nat, n: nat) -> bool {
    d > 0 && n % d == 0
}

/// `n` has exactly two positive divisors, one and itself.
pub open spec fn is_prime(n: nat) -> bool {
    n >= 2 && forall|d: nat| 1 < d < n ==> !#[trigger] divides(d, n)
}

/// A multiple of `d` is divisible by `d`.
pub proof fn lemma_divides_multiple(d: nat, k: nat)
    requires
        d > 0,
    ensures
        divides(d, d * k),
        divides(d, k * d),
        (d * k) / d == k,
{
    lemma_mod_multiples_basic(k as int, d as int);
    vstd::arithmetic::div_mod::lemma_div_multiples_vanish(k as int, d as int);
    assert(d * k == k * d) by (nonlinear_arith);
}

/// A divisor splits its multiple into itself and the quotient.
pub proof fn lemma_divides_quotient(d: nat, n: nat)
    requires
        divides(d, n),
    ensures
        n == d * (n / d),
        n == (n / d) * d,
        n > 0 ==> n / d >= 1,
        n > 0 ==> d <= n,
{
    lemma_fundamental_div_mod(n as int, d as int);
    let q = n / d;
    assert(d * q == q * d) by (nonlinear_arith);
    if n > 0 {
        assert(q >= 1) by (nonlinear_arith)
            requires
                n == d * q,
                n > 0,
                d > 0,
                q >= 0,
        ;
        assert(d <= d * q) by (nonlinear_arith)
            requires
                q >= 1,
                d > 0,
        ;
    }
}

/// Divisibility is transitive.
pub proof fn lemma_divides_transitive(a: nat, b: nat, c: nat)
    requires
        divides(a, b),
        divides(b, c),
    ensures
        divides(a, c),
{
    lemma_divides_quotient(a, b);
    lemma_divides_quotient(b, c);
    let x = b / a;
    let y = c / b;
    assert(c == a * (x * y)) by (nonlinear_arith)
        requires
            b == a * x,
            c == b * y,
    ;
    lemma_divides_multiple(a, x * y);
}

/// Every number from two on has a prime divisor.
pub proof fn lemma_prime_divisor(n: nat) -> (p: nat)
    requires
        n >= 2,
    ensures
        is_prime(p),
        divides(p, n),
        p <= n,
    decreases n,
{
    if is_prime(n) {
        lemma_divides_multiple(n, 1);
        n
    } else {
        let d = choose|d: nat| 1 < d < n && #[trigger] divides(d, n);
        let p = lemma_prime_divisor(d);
        lemma_divides_transitive(p, d, n);
        p
    }
}

/// A composite number has a prime divisor whose square does not exceed it.
pub proof fn lemma_small_prime_divisor(n: nat) -> (p: nat)
    requires
        n >= 2,
        !is_prime(n),
    ensures
        is_prime(p),
        divides(p, n),
        p * p <= n,
{
    let d = choose|d: nat| 1 < d < n && #[trigger] divides(d, n);
    lemma_divides_quotient(d, n);
    let e = n / d;
    assert(1 < e < n) by (nonlinear_arith)
        requires
            n == d * e,
            1 < d < n,
    ;
    lemma_divides_multiple(e, d);
    let a = if d <= e { d } else { e };
    assert(divides(a, n));
    assert(a * a <= n) by (nonlinear_arith)
        requires
            n == d * e,
            a == d || a == e,
            a <= d,
            a <= e,
    ;
    let p = lemma_prime_divisor(a);
    lemma_divides_transitive(p, a, n);
    assert(p * p <= a * a) by (nonlinear_arith)
        requires
            p <= a,
    ;
    p
}

/// A prime that divides a product, the first factor smaller than the prime,
/// divides the second factor.
proof fn lemma_euclid_reduced(p: nat, a: nat, b: nat)
    requires
        is_prime(p),
        0 < a < p,
        divides(p, a * b),
    ensures
        divides(p, b),
    decreases a,
{
    if a == 1 {
        assert(a * b == b) by (nonlinear_arith)
            requires
                a == 1,
        ;
    } else {
        let q = p / a;
        let r = p % a;
        lemma_fundamental_div_mod(p as int, a as int);
        assert(r != 0) by {
            if r == 0 {
                assert(divides(a, p));
            }
        }
        // r * b == p * b - q * (a * b), and both terms are multiples of p.
        lemma_divides_quotient(p, a * b);
        let k = (a * b) / p;
        assert(q * k <= b) by (nonlinear_arith)
            requires
                p == a * q + r,
                a * b == p * k,
                r >= 0,
                a > 0,
                p > 0,
        ;
        let c = (b - q * k) as nat;
        assert(r * b == p * c) by (nonlinear_arith)
            requires
                p == a * q + r,
                a * b == p * k,
                c == b - q * k,
        ;
        lemma_divides_multiple(p, c);
        lemma_euclid_reduced(p, r, b);
    }
}

/// Euclid's lemma: a prime that divides a product divides one of the factors.
pub proof fn lemma_euclid(p: nat, a: nat, b: nat)
    requires
        is_prime(p),
        divides(p, a * b),
    ensures
        divides(p, a) || divides(p, b),
{
    if !divides(p, a) {
        let r = a % p;
        let q = a / p;
        lemma_fundamental_div_mod(a as int, p as int);
        lemma_divides_quotient(p, a * b);
        let k = (a * b) / p;
        assert(q * b <= k) by (nonlinear_arith)
            requires
                a == p * q + r,
                a * b == p * k,
                r >= 0,
                b >= 0,
                p > 0,
        ;
        let c = (k - q * b) as nat;
        assert(r * b == p * c) by (nonlinear_arith)
            requires
                a == p * q + r,
                a * b == p * k,
                c == k - q * b,
        ;
        lemma_divides_multiple(p, c);
        lemma_euclid_reduced(p, r, b);
    }
}

} // verus!
