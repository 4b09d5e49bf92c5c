//! Powers, the multiplicity of a prime in a number, and the prime
//! factorization as a map from prime to exponent.

use vstd::prelude::*;
use crate::divisibility::{
    divides, is_prime, lemma_divides_multiple, lemma_divides_quotient, lemma_euclid,
    lemma_prime_divisor,
};

verus! {

/// `b` raised to the power `e`.
pub open spec fn power(b: nat, e: nat) -> nat
    decreases e,
{
    if e == 0 {
        1
    } else {
        b * power(b, (e - 1) as nat)
    }
}

/// The largest `e` such that `p` to the `e` divides `n`; zero where `p < 2`
/// or `n == 0`.
pub open spec fn multiplicity(p: nat, n: nat) -> nat
    decreases n,
    when p >= 2
    via multiplicity_decreases
{
    if p >= 2 && n >= 1 && n % p == 0 {
        1 + multiplicity(p, n / p)
    } else {
        0
    }
}

/// The quotient by `p` is smaller than the number.
#[via_fn]
proof fn multiplicity_decreases(p: nat, n: nat) {
    if p >= 2 && n >= 1 && n % p == 0 {
        lemma_divides_quotient(p, n);
        let q = n / p;
        assert(q < n) by (nonlinear_arith)
            requires
                n == p * q,
                p >= 2,
                n >= 1,
        ;
    }
}

/// The prime factorization of `n`: its prime divisors, each with its
/// multiplicity in `n`.
pub open spec fn factorization(n: u64) -> Map<u64, usize> {
    Map::new(
        |p: u64| is_prime(p as nat) && divides(p as nat, n as nat),
        |p: u64| multiplicity(p as nat, n as nat) as usize,
    )
}

/// The product of `p` to the `f[p]` over the keys `p` of `f` up to `bound`.
pub open spec fn prime_power_product(f: Map<u64, usize>, bound: nat) -> nat
    decreases bound,
{
    if bound == 0 {
        1
    } else if bound <= u64::MAX && f.contains_key(bound as u64) {
        power(bound, f[bound as u64] as nat) * prime_power_product(f, (bound - 1) as nat)
    } else {
        prime_power_product(f, (bound - 1) as nat)
    }
}

/// The powers of a positive base are positive.
pub proof fn lemma_power_positive(b: nat, e: nat)
    requires
        b >= 1,
    ensures
        power(b, e) >= 1,
    decreases e,
{
    if e > 0 {
        lemma_power_positive(b, (e - 1) as nat);
        assert(b * power(b, (e - 1) as nat) >= 1) by (nonlinear_arith)
            requires
                b >= 1,
                power(b, (e - 1) as nat) >= 1,
        ;
    }
}

/// Exponents add when powers of one base are multiplied.
pub proof fn lemma_power_adds(b: nat, e1: nat, e2: nat)
    ensures
        power(b, e1 + e2) == power(b, e1) * power(b, e2),
    decreases e1,
{
    if e1 == 0 {
        assert(power(b, e1) * power(b, e2) == power(b, e2)) by (nonlinear_arith)
            requires
                power(b, e1) == 1,
        ;
    } else {
        lemma_power_adds(b, (e1 - 1) as nat, e2);
        let x = power(b, (e1 - 1) as nat);
        let y = power(b, e2);
        assert((e1 + e2 - 1) as nat == (e1 - 1) as nat + e2);
        assert(b * (x * y) == (b * x) * y) by (nonlinear_arith);
    }
}

/// A power with a larger exponent is a multiple of one with a smaller.
pub proof fn lemma_power_divides(b: nat, e1: nat, e2: nat)
    requires
        b >= 1,
        e1 <= e2,
    ensures
        divides(power(b, e1), power(b, e2)),
        power(b, e1) <= power(b, e2),
{
    lemma_power_adds(b, e1, (e2 - e1) as nat);
    lemma_power_positive(b, e1);
    lemma_power_positive(b, e2);
    lemma_divides_multiple(power(b, e1), power(b, (e2 - e1) as nat));
    lemma_divides_quotient(power(b, e1), power(b, e2));
}

/// What one step of the definition of `multiplicity` says.
pub proof fn lemma_multiplicity_step(p: nat, n: nat)
    requires
        p >= 2,
        n >= 1,
    ensures
        divides(p, n) ==> multiplicity(p, n) == 1 + multiplicity(p, n / p),
        !divides(p, n) ==> multiplicity(p, n) == 0,
        multiplicity(p, n) >= 1 <==> divides(p, n),
{
}

/// The multiplicity in a multiple of `p` is one more than in the cofactor.
pub proof fn lemma_multiplicity_times_prime(p: nat, m: nat)
    requires
        p >= 2,
        m >= 1,
    ensures
        multiplicity(p, p * m) == 1 + multiplicity(p, m),
{
    lemma_divides_multiple(p, m);
    assert(p * m >= 1) by (nonlinear_arith)
        requires
            p >= 2,
            m >= 1,
    ;
}

/// The multiplicity of a prime in a product is the sum of its
/// multiplicities in the factors.
pub proof fn lemma_multiplicity_product(p: nat, a: nat, b: nat)
    requires
        is_prime(p),
        a >= 1,
        b >= 1,
    ensures
        multiplicity(p, a * b) == multiplicity(p, a) + multiplicity(p, b),
    decreases a + b,
{
    assert(a * b >= 1) by (nonlinear_arith)
        requires
            a >= 1,
            b >= 1,
    ;
    if divides(p, a) {
        lemma_divides_quotient(p, a);
        let a1 = a / p;
        assert(a1 < a) by (nonlinear_arith)
            requires
                a == p * a1,
                p >= 2,
                a >= 1,
        ;
        lemma_multiplicity_product(p, a1, b);
        assert(a * b == p * (a1 * b)) by (nonlinear_arith)
            requires
                a == p * a1,
        ;
        assert(a1 * b >= 1) by (nonlinear_arith)
            requires
                a1 >= 1,
                b >= 1,
        ;
        lemma_multiplicity_times_prime(p, a1 * b);
    } else if divides(p, b) {
        lemma_divides_quotient(p, b);
        let b1 = b / p;
        assert(b1 < b) by (nonlinear_arith)
            requires
                b == p * b1,
                p >= 2,
                b >= 1,
        ;
        lemma_multiplicity_product(p, a, b1);
        assert(a * b == p * (a * b1)) by (nonlinear_arith)
            requires
                b == p * b1,
        ;
        assert(a * b1 >= 1) by (nonlinear_arith)
            requires
                a >= 1,
                b1 >= 1,
        ;
        lemma_multiplicity_times_prime(p, a * b1);
    } else {
        if divides(p, a * b) {
            lemma_euclid(p, a, b);
        }
    }
}

/// A prime has multiplicity `e` in its own `e`-th power.
pub proof fn lemma_multiplicity_own_power(p: nat, e: nat)
    requires
        p >= 2,
    ensures
        multiplicity(p, power(p, e)) == e,
    decreases e,
{
    if e == 0 {
        assert(1nat % p == 1) by {
            vstd::arithmetic::div_mod::lemma_small_mod(1, p);
        }
    } else {
        lemma_multiplicity_own_power(p, (e - 1) as nat);
        lemma_power_positive(p, (e - 1) as nat);
        lemma_multiplicity_times_prime(p, power(p, (e - 1) as nat));
    }
}

/// A prime has multiplicity zero in the powers of another prime.
pub proof fn lemma_multiplicity_other_power(q: nat, p: nat, e: nat)
    requires
        is_prime(q),
        is_prime(p),
        q != p,
    ensures
        multiplicity(q, power(p, e)) == 0,
    decreases e,
{
    if e == 0 {
        assert(1nat % q == 1) by {
            vstd::arithmetic::div_mod::lemma_small_mod(1, q);
        }
    } else {
        lemma_multiplicity_other_power(q, p, (e - 1) as nat);
        lemma_power_positive(p, (e - 1) as nat);
        lemma_multiplicity_product(q, p, power(p, (e - 1) as nat));
        if divides(q, p) {
            lemma_divides_quotient(q, p);
        }
    }
}

/// A divisor holds each prime at most as often as its multiple does.
pub proof fn lemma_multiplicity_of_divisor(p: nat, d: nat, n: nat)
    requires
        is_prime(p),
        n >= 1,
        divides(d, n),
    ensures
        multiplicity(p, d) <= multiplicity(p, n),
        multiplicity(p, n) == multiplicity(p, d) + multiplicity(p, n / d),
{
    lemma_divides_quotient(d, n);
    lemma_multiplicity_product(p, d, n / d);
}

/// `p` to its multiplicity in `n` divides `n`.
pub proof fn lemma_multiplicity_power_divides(p: nat, n: nat)
    requires
        p >= 2,
        n >= 1,
    ensures
        divides(power(p, multiplicity(p, n)), n),
        !divides(p, n / power(p, multiplicity(p, n))),
        n / power(p, multiplicity(p, n)) >= 1,
    decreases n,
{
    if divides(p, n) {
        lemma_divides_quotient(p, n);
        let n1 = n / p;
        assert(n1 < n) by (nonlinear_arith)
            requires
                n == p * n1,
                p >= 2,
                n >= 1,
        ;
        lemma_multiplicity_power_divides(p, n1);
        let e1 = multiplicity(p, n1);
        let pw1 = power(p, e1);
        lemma_divides_quotient(pw1, n1);
        let c = n1 / pw1;
        let pw = power(p, e1 + 1);
        assert(pw == p * pw1);
        assert(n == pw * c) by (nonlinear_arith)
            requires
                n == p * n1,
                n1 == pw1 * c,
                pw == p * pw1,
        ;
        lemma_power_positive(p, e1 + 1);
        lemma_divides_multiple(pw, c);
    } else {
        assert(power(p, 0) == 1);
        assert(n % 1 == 0);
        assert(n / 1 == n);
    }
}

/// Two positive numbers in which every prime has the same multiplicity are
/// equal.
pub proof fn lemma_equal_multiplicities(a: nat, b: nat)
    requires
        a >= 1,
        b >= 1,
        forall|q: nat| is_prime(q) ==> #[trigger] multiplicity(q, a) == multiplicity(q, b),
    ensures
        a == b,
    decreases a,
{
    if a == 1 {
        if b >= 2 {
            let q = lemma_prime_divisor(b);
            assert(multiplicity(q, a) == multiplicity(q, b));
            assert(1nat % q == 1) by {
                vstd::arithmetic::div_mod::lemma_small_mod(1, q);
            }
        }
    } else {
        let q = lemma_prime_divisor(a);
        assert(multiplicity(q, a) == multiplicity(q, b));
        lemma_divides_quotient(q, a);
        lemma_divides_quotient(q, b);
        let a1 = a / q;
        let b1 = b / q;
        assert(a1 < a) by (nonlinear_arith)
            requires
                a == q * a1,
                q >= 2,
                a >= 1,
        ;
        assert forall|r: nat| is_prime(r) implies #[trigger] multiplicity(r, a1) == multiplicity(
            r,
            b1,
        ) by {
            assert(multiplicity(r, a) == multiplicity(r, b));
            lemma_multiplicity_product(r, q, a1);
            lemma_multiplicity_product(r, q, b1);
        }
        lemma_equal_multiplicities(a1, b1);
    }
}

/// A power grows with its base.
pub proof fn lemma_power_base_monotone(a: nat, b: nat, e: nat)
    requires
        a <= b,
    ensures
        power(a, e) <= power(b, e),
    decreases e,
{
    if e > 0 {
        lemma_power_base_monotone(a, b, (e - 1) as nat);
        let x = power(a, (e - 1) as nat);
        let y = power(b, (e - 1) as nat);
        assert(a * x <= b * y) by (nonlinear_arith)
            requires
                a <= b,
                x <= y,
        ;
    }
}

/// Two to the 64th power is one more than the largest `u64`.
pub proof fn lemma_power_two_64()
    ensures
        power(2, 64) == u64::MAX + 1,
{
    assert(power(2, 2) == 4) by {
        reveal_with_fuel(power, 3);
    }
    lemma_power_square(2, 2, 4);
    lemma_power_square(2, 4, 16);
    lemma_power_square(2, 8, 256);
    lemma_power_square(2, 16, 65536);
    lemma_power_square(2, 32, 4294967296);
}

/// Doubling the exponent squares the power.
proof fn lemma_power_square(b: nat, e: nat, x: nat)
    requires
        power(b, e) == x,
    ensures
        power(b, 2 * e) == x * x,
{
    lemma_power_adds(b, e, e);
    assert(e + e == 2 * e);
}

/// No prime occurs 64 times or more in a number that fits in 64 bits.
pub proof fn lemma_multiplicity_bound(p: nat, n: nat)
    requires
        p >= 2,
        1 <= n <= u64::MAX,
    ensures
        multiplicity(p, n) < 64,
        power(p, multiplicity(p, n)) <= n,
{
    let e = multiplicity(p, n);
    lemma_multiplicity_power_divides(p, n);
    lemma_divides_quotient(power(p, e), n);
    if e >= 64 {
        lemma_power_divides(p, 64, e);
        lemma_power_base_monotone(2, p, 64);
        lemma_power_two_64();
    }
}

/// Every prime has, in the product of the prime powers up to `bound`, the
/// multiplicity it has in `n` where it is within the bound, and none where
/// it is beyond.
pub proof fn lemma_product_multiplicity(n: u64, bound: nat, q: nat)
    requires
        n >= 1,
        bound <= u64::MAX,
        is_prime(q),
    ensures
        prime_power_product(factorization(n), bound) >= 1,
        multiplicity(q, prime_power_product(factorization(n), bound)) == if q <= bound {
            multiplicity(q, n as nat)
        } else {
            0
        },
    decreases bound,
{
    let f = factorization(n);
    if bound == 0 {
        assert(1nat % q == 1) by {
            vstd::arithmetic::div_mod::lemma_small_mod(1, q);
        }
    } else {
        let rest = prime_power_product(f, (bound - 1) as nat);
        lemma_product_multiplicity(n, (bound - 1) as nat, q);
        if f.contains_key(bound as u64) {
            let e = multiplicity(bound, n as nat);
            lemma_multiplicity_bound(bound, n as nat);
            assert(f[bound as u64] as nat == e);
            let pw = power(bound, e);
            lemma_power_positive(bound, e);
            lemma_multiplicity_product(q, pw, rest);
            assert(pw * rest >= 1) by (nonlinear_arith)
                requires
                    pw >= 1,
                    rest >= 1,
            ;
            if q == bound {
                lemma_multiplicity_own_power(bound, e);
            } else {
                lemma_multiplicity_other_power(q, bound, e);
            }
        } else {
            if q == bound {
                assert(!divides(q, n as nat));
            }
        }
    }
}

/// The prime factorization of a positive number multiplies back to it: the
/// product of each prime divisor raised to its exponent is the number.
pub proof fn lemma_factorization_product(n: u64)
    requires
        n >= 1,
    ensures
        prime_power_product(factorization(n), n as nat) == n,
{
    let product = prime_power_product(factorization(n), n as nat);
    lemma_product_multiplicity(n, n as nat, 2);
    assert forall|q: nat| is_prime(q) implies #[trigger] multiplicity(q, product) == multiplicity(
        q,
        n as nat,
    ) by {
        lemma_product_multiplicity(n, n as nat, q);
        if q > n {
            if divides(q, n as nat) {
                lemma_divides_quotient(q, n as nat);
            }
        }
    }
    lemma_equal_multiplicities(product, n as nat);
}

/// Where `f` has no key above `a` and up to `b`, the product up to `b` is
/// the product up to `a`.
pub proof fn lemma_product_gap(f: Map<u64, usize>, a: nat, b: nat)
    requires
        a <= b,
        forall|q: u64| a < q <= b ==> !#[trigger] f.contains_key(q),
    ensures
        prime_power_product(f, b) == prime_power_product(f, a),
    decreases b,
{
    if a < b {
        lemma_product_gap(f, a, (b - 1) as nat);
        if b <= u64::MAX {
            assert(!f.contains_key(b as u64));
        }
    }
}

/// The product of the prime powers up to a bound divides the product up to
/// a larger bound.
pub proof fn lemma_product_divides(n: u64, a: nat, b: nat)
    requires
        n >= 1,
        a <= b <= u64::MAX,
    ensures
        divides(prime_power_product(factorization(n), a), prime_power_product(factorization(n), b)),
    decreases b,
{
    let f = factorization(n);
    let pa = prime_power_product(f, a);
    lemma_product_multiplicity(n, a, 2);
    if a == b {
        lemma_divides_multiple(pa, 1);
        assert(pa * 1 == pa);
    } else {
        let rest = prime_power_product(f, (b - 1) as nat);
        lemma_product_divides(n, a, (b - 1) as nat);
        if f.contains_key(b as u64) {
            let pw = power(b, f[b as u64] as nat);
            lemma_product_multiplicity(n, (b - 1) as nat, 2);
            lemma_divides_multiple(rest, pw);
            assert(rest * pw == pw * rest) by (nonlinear_arith);
            crate::divisibility::lemma_divides_transitive(pa, rest, pw * rest);
        }
    }
}

} // verus!
