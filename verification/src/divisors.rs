//! The divisors of a number: the set, its size and its sum, and how both
//! follow from the prime factorization.

use vstd::prelude::*;
use crate::divisibility::{
    divides, is_prime, lemma_divides_multiple, lemma_divides_quotient, lemma_divides_transitive,
};
use crate::multiplicity::{
    factorization, lemma_factorization_product, lemma_multiplicity_bound,
    lemma_multiplicity_of_divisor, lemma_multiplicity_own_power, lemma_multiplicity_power_divides,
    lemma_multiplicity_product, lemma_multiplicity_step, lemma_power_positive,
    lemma_product_divides, lemma_product_gap, lemma_product_multiplicity, multiplicity, power,
    prime_power_product,
};

verus! {

/// The positive divisors of `n`.
pub open spec fn divisors(n: u64) -> Set<u64> {
    Set::new(|d: u64| divides(d as nat, n as nat))
}

/// The number of positive divisors of `n`.
pub open spec fn divisor_count(n: u64) -> nat {
    divisors(n).len()
}

/// The sum of the members of `s` from 1 to `bound`.
pub open spec fn sum_upto(s: Set<u64>, bound: nat) -> nat
    decreases bound,
{
    if bound == 0 {
        0
    } else if bound <= u64::MAX && s.contains(bound as u64) {
        sum_upto(s, (bound - 1) as nat) + bound
    } else {
        sum_upto(s, (bound - 1) as nat)
    }
}

/// The sum of the positive divisors of `n`.
pub open spec fn divisor_sum(n: u64) -> nat {
    sum_upto(divisors(n), n as nat)
}

/// The sum of the powers of `p` from the zeroth to the `e`-th.
pub open spec fn geometric_sum(p: nat, e: nat) -> nat
    decreases e,
{
    if e == 0 {
        1
    } else {
        geometric_sum(p, (e - 1) as nat) + power(p, e)
    }
}

/// Over the numbers from 1 to `k` that satisfy `f`: how many they are
/// (`unit`), or their sum.
pub open spec fn tally(f: spec_fn(nat) -> bool, unit: bool, k: nat) -> nat
    decreases k,
{
    if k == 0 {
        0
    } else if f(k) {
        tally(f, unit, (k - 1) as nat) + if unit {
            1
        } else {
            k
        }
    } else {
        tally(f, unit, (k - 1) as nat)
    }
}

/// The predicate "divides `n`".
pub open spec fn divisor_of(n: nat) -> spec_fn(nat) -> bool {
    |d: nat| divides(d, n)
}

/// The number (`unit`) or the sum of the divisors of `n`, over the natural
/// numbers.
pub open spec fn divisor_tally(n: nat, unit: bool) -> nat {
    tally(divisor_of(n), unit, n)
}

/// What a prime power contributes to the divisor count (`unit`) or sum.
pub open spec fn prime_power_factor(p: nat, e: nat, unit: bool) -> nat {
    if unit {
        e + 1
    } else {
        geometric_sum(p, e)
    }
}

/// A weaker predicate gives at least as large a tally.
proof fn lemma_tally_monotone(
    f: spec_fn(nat) -> bool,
    g: spec_fn(nat) -> bool,
    unit: bool,
    k: nat,
)
    requires
        forall|d: nat| 1 <= d <= k && #[trigger] f(d) ==> g(d),
    ensures
        tally(f, unit, k) <= tally(g, unit, k),
    decreases k,
{
    if k > 0 {
        lemma_tally_monotone(f, g, unit, (k - 1) as nat);
    }
}

/// The tally of a predicate that two others split between them is the sum
/// of their tallies.
proof fn lemma_tally_split(
    f: spec_fn(nat) -> bool,
    g: spec_fn(nat) -> bool,
    h: spec_fn(nat) -> bool,
    unit: bool,
    k: nat,
)
    requires
        forall|d: nat| 1 <= d <= k ==> (#[trigger] f(d) <==> g(d) || h(d)),
        forall|d: nat| 1 <= d <= k ==> !(#[trigger] g(d) && h(d)),
    ensures
        tally(f, unit, k) == tally(g, unit, k) + tally(h, unit, k),
    decreases k,
{
    if k > 0 {
        lemma_tally_split(f, g, h, unit, (k - 1) as nat);
        assert(f(k) <==> g(k) || h(k));
        assert(!(g(k) && h(k)));
    }
}

/// A tally grows with its bound, and not at all over a stretch in which
/// nothing satisfies the predicate.
proof fn lemma_tally_grows(f: spec_fn(nat) -> bool, unit: bool, k1: nat, k2: nat)
    requires
        k1 <= k2,
    ensures
        tally(f, unit, k1) <= tally(f, unit, k2),
        (forall|d: nat| k1 < d <= k2 ==> !#[trigger] f(d)) ==> tally(f, unit, k1) == tally(
            f,
            unit,
            k2,
        ),
    decreases k2,
{
    if k1 < k2 {
        lemma_tally_grows(f, unit, k1, (k2 - 1) as nat);
    }
}

/// Between two consecutive multiples of `c` no number is a multiple of `c`.
proof fn lemma_no_multiple_between(c: nat, k: nat, d: nat)
    requires
        c >= 1,
        c * k < d < c * (k + 1),
    ensures
        d % c != 0,
{
    if d % c == 0 {
        lemma_divides_quotient(c, d);
        let q = d / c;
        assert(false) by (nonlinear_arith)
            requires
                d == c * q,
                c * k < d < c * (k + 1),
                c >= 1,
        ;
    }
}

/// The multiples of `c` whose quotient satisfies `h` are as many as the
/// numbers that satisfy `h`, and their sum is `c` times as large.
proof fn lemma_tally_scale(
    h: spec_fn(nat) -> bool,
    g: spec_fn(nat) -> bool,
    c: nat,
    unit: bool,
    k: nat,
)
    requires
        c >= 1,
        forall|d: nat| d >= 1 ==> (#[trigger] g(d) <==> d % c == 0 && h(d / c)),
    ensures
        tally(g, unit, c * k) == (if unit {
            1
        } else {
            c
        }) * tally(h, unit, k),
    decreases k,
{
    if k == 0 {
        assert(c * k == 0) by (nonlinear_arith)
            requires
                k == 0,
        ;
    } else {
        let k1 = (k - 1) as nat;
        lemma_tally_scale(h, g, c, unit, k1);
        let top = c * k;
        assert(top == c * k1 + c && top >= 1 && c * k1 <= top - 1) by (nonlinear_arith)
            requires
                top == c * k,
                k1 == k - 1,
                c >= 1,
                k >= 1,
        ;
        assert forall|d: nat| c * k1 < d <= (top - 1) as nat implies !#[trigger] g(d) by {
            assert(c * (k1 + 1) == top) by (nonlinear_arith)
                requires
                    top == c * k1 + c,
            ;
            lemma_no_multiple_between(c, k1, d);
        }
        lemma_tally_grows(g, unit, c * k1, (top - 1) as nat);
        lemma_divides_multiple(c, k);
        assert(g(top) <==> h(k));
        let w: nat = if unit {
            1
        } else {
            c
        };
        let t1 = tally(h, unit, k1);
        if h(k) {
            if unit {
                assert(w * (t1 + 1) == w * t1 + 1) by (nonlinear_arith)
                    requires
                        w == 1,
                ;
            } else {
                assert(w * (t1 + k) == w * t1 + c * k) by (nonlinear_arith)
                    requires
                        w == c,
                ;
            }
        }
    }
}

/// The divisors of `p^e * m`, for a prime `p` that does not divide `m`, are
/// the divisors of `p^(e-1) * m` and, apart from them, `p^e` times the
/// divisors of `m`.
proof fn lemma_divisor_split(p: nat, e: nat, m: nat, d: nat)
    requires
        is_prime(p),
        e >= 1,
        m >= 1,
        !divides(p, m),
        d >= 1,
    ensures
        divides(d, power(p, e) * m) <==> divides(d, power(p, (e - 1) as nat) * m) || (d % power(
            p,
            e,
        ) == 0 && divides(d / power(p, e), m)),
        !(divides(d, power(p, (e - 1) as nat) * m) && d % power(p, e) == 0),
{
    let c = power(p, e);
    let c1 = power(p, (e - 1) as nat);
    let big = c * m;
    let small = c1 * m;
    lemma_power_positive(p, e);
    lemma_power_positive(p, (e - 1) as nat);
    assert(c == p * c1);
    assert(big == p * small) by (nonlinear_arith)
        requires
            big == c * m,
            small == c1 * m,
            c == p * c1,
    ;
    assert(big >= 1 && small >= 1) by (nonlinear_arith)
        requires
            big == c * m,
            small == c1 * m,
            c >= 1,
            c1 >= 1,
            m >= 1,
    ;
    lemma_multiplicity_step(p, m);
    lemma_multiplicity_own_power(p, e);
    lemma_multiplicity_own_power(p, (e - 1) as nat);
    lemma_multiplicity_product(p, c, m);
    lemma_multiplicity_product(p, c1, m);
    assert(multiplicity(p, big) == e);
    assert(multiplicity(p, small) == e - 1);
    if divides(d, small) {
        lemma_divides_multiple(small, p);
        assert(small * p == big) by (nonlinear_arith)
            requires
                big == p * small,
        ;
        lemma_divides_transitive(d, small, big);
        lemma_multiplicity_of_divisor(p, d, small);
        if d % c == 0 {
            lemma_multiplicity_of_divisor(p, c, d);
        }
    }
    if d % c == 0 && divides(d / c, m) {
        let d1 = d / c;
        lemma_divides_quotient(c, d);
        lemma_divides_quotient(d1, m);
        let x = m / d1;
        assert(big == d * x) by (nonlinear_arith)
            requires
                big == c * m,
                d == c * d1,
                m == d1 * x,
        ;
        lemma_divides_multiple(d, x);
    }
    if divides(d, big) {
        lemma_divides_quotient(d, big);
        let x = big / d;
        lemma_multiplicity_of_divisor(p, d, big);
        let v = multiplicity(p, d);
        lemma_multiplicity_power_divides(p, d);
        if v == e {
            lemma_divides_quotient(c, d);
            let d1 = d / c;
            assert(m == d1 * x) by (nonlinear_arith)
                requires
                    big == c * m,
                    big == d * x,
                    d == c * d1,
                    c >= 1,
            ;
            lemma_divides_multiple(d1, x);
        } else {
            assert(x >= 1);
            lemma_multiplicity_step(p, x);
            lemma_divides_quotient(p, x);
            let x1 = x / p;
            assert(small == d * x1) by (nonlinear_arith)
                requires
                    big == p * small,
                    big == d * x,
                    x == p * x1,
                    p >= 2,
            ;
            lemma_divides_multiple(d, x1);
        }
    }
}

/// The divisor count, or sum, of `p^e * m`, for a prime `p` that does not
/// divide `m`, is that of `m` times what the prime power contributes.
pub proof fn lemma_divisor_tally_prime_power(p: nat, e: nat, m: nat, unit: bool)
    requires
        is_prime(p),
        m >= 1,
        !divides(p, m),
    ensures
        divisor_tally(power(p, e) * m, unit) == prime_power_factor(p, e, unit) * divisor_tally(
            m,
            unit,
        ),
    decreases e,
{
    let c = power(p, e);
    let big = c * m;
    let tm = divisor_tally(m, unit);
    if e == 0 {
        assert(big == m) by (nonlinear_arith)
            requires
                big == c * m,
                c == 1,
        ;
        assert(prime_power_factor(p, e, unit) == 1);
        assert(1 * tm == tm);
    } else {
        let e1 = (e - 1) as nat;
        let c1 = power(p, e1);
        let small = c1 * m;
        lemma_divisor_tally_prime_power(p, e1, m, unit);
        lemma_power_positive(p, e);
        lemma_power_positive(p, e1);
        assert(small >= 1 && small <= big) by (nonlinear_arith)
            requires
                big == c * m,
                small == c1 * m,
                c == p * c1,
                c1 >= 1,
                m >= 1,
                p >= 2,
        ;
        let f = divisor_of(big);
        let g = divisor_of(small);
        let h = divisor_of(m);
        let hs = |d: nat| d % c == 0 && h(d / c);
        assert forall|d: nat| 1 <= d <= big implies (#[trigger] f(d) <==> g(d) || hs(d)) by {
            lemma_divisor_split(p, e, m, d);
        }
        assert forall|d: nat| 1 <= d <= big implies !(#[trigger] g(d) && hs(d)) by {
            lemma_divisor_split(p, e, m, d);
        }
        lemma_tally_split(f, g, hs, unit, big);
        assert forall|d: nat| small < d <= big implies !#[trigger] g(d) by {
            if divides(d, small) {
                lemma_divides_quotient(d, small);
            }
        }
        lemma_tally_grows(g, unit, small, big);
        lemma_tally_scale(h, hs, c, unit, m);
        let w: nat = if unit {
            1
        } else {
            c
        };
        let f1 = prime_power_factor(p, e1, unit);
        assert(prime_power_factor(p, e, unit) == f1 + w);
        assert((f1 + w) * tm == f1 * tm + w * tm) by (nonlinear_arith);
    }
}

/// The divisors of `n` up to `k`.
spec fn divisors_upto(n: u64, k: nat) -> Set<u64> {
    Set::new(|d: u64| d <= k && divides(d as nat, n as nat))
}

/// The divisors up to `k` are finitely many, and the tally counts them.
proof fn lemma_divisors_upto(n: u64, k: nat)
    requires
        k <= u64::MAX,
    ensures
        divisors_upto(n, k).finite(),
        divisors_upto(n, k).len() == tally(divisor_of(n as nat), true, k),
    decreases k,
{
    if k == 0 {
        assert(divisors_upto(n, k) =~= Set::<u64>::empty());
    } else {
        lemma_divisors_upto(n, (k - 1) as nat);
        let below = divisors_upto(n, (k - 1) as nat);
        if divides(k, n as nat) {
            assert(divisors_upto(n, k) =~= below.insert(k as u64));
        } else {
            assert(divisors_upto(n, k) =~= below);
        }
    }
}

/// The divisors of a positive number are finitely many, and none exceeds
/// the number.
pub proof fn lemma_divisors_finite(n: u64)
    requires
        n >= 1,
    ensures
        divisors(n).finite(),
        divisors(n).len() == divisor_tally(n as nat, true),
        divisors(n).contains(1),
        divisors(n).contains(n),
        forall|d: u64| #[trigger] divisors(n).contains(d) ==> 1 <= d <= n,
{
    lemma_divisors_upto(n, n as nat);
    assert forall|d: u64| #[trigger] divisors(n).contains(d) implies 1 <= d <= n by {
        lemma_divides_quotient(d as nat, n as nat);
    }
    assert(divisors(n) =~= divisors_upto(n, n as nat));
    lemma_divides_multiple(n as nat, 1);
    assert(divides(1, n as nat));
}

/// The sum of the divisors up to `k` is their tally.
proof fn lemma_sum_upto_is_tally(n: u64, k: nat)
    requires
        k <= u64::MAX,
    ensures
        sum_upto(divisors(n), k) == tally(divisor_of(n as nat), false, k),
    decreases k,
{
    if k > 0 {
        lemma_sum_upto_is_tally(n, (k - 1) as nat);
    }
}

/// The divisor sum of a `u64` is the divisor sum over the natural numbers.
pub proof fn lemma_divisor_sum_is_tally(n: u64)
    ensures
        divisor_sum(n) == divisor_tally(n as nat, false),
{
    lemma_sum_upto_is_tally(n, n as nat);
}

/// The divisor sum leaves no divisor out: a larger bound adds nothing to it.
pub proof fn lemma_divisor_sum_complete(n: u64, bound: nat)
    requires
        n >= 1,
        n <= bound <= u64::MAX,
    ensures
        sum_upto(divisors(n), bound) == divisor_sum(n),
{
    lemma_sum_upto_is_tally(n, bound);
    lemma_sum_upto_is_tally(n, n as nat);
    assert forall|d: nat| n < d <= bound implies !#[trigger] divisor_of(n as nat)(d) by {
        if divides(d, n as nat) {
            lemma_divides_quotient(d, n as nat);
        }
    }
    lemma_tally_grows(divisor_of(n as nat), false, n as nat, bound);
}

/// The closed form of the geometric sum: `(p^(e+1) - 1) / (p - 1)`.
pub proof fn lemma_geometric_sum(p: nat, e: nat)
    requires
        p >= 2,
    ensures
        geometric_sum(p, e) * (p - 1) + 1 == power(p, e + 1),
        geometric_sum(p, e) == (power(p, e + 1) - 1) / (p - 1),
        geometric_sum(p, e) >= 1,
    decreases e,
{
    let g = geometric_sum(p, e);
    if e == 0 {
        assert(power(p, 1) == p) by {
            reveal_with_fuel(power, 2);
            assert(p * 1 == p);
        }
        assert(g * (p - 1) + 1 == p) by (nonlinear_arith)
            requires
                g == 1,
        ;
    } else {
        lemma_geometric_sum(p, (e - 1) as nat);
        let g1 = geometric_sum(p, (e - 1) as nat);
        let pe = power(p, e);
        assert(power(p, e + 1) == p * pe);
        assert(g * (p - 1) + 1 == p * pe) by (nonlinear_arith)
            requires
                g == g1 + pe,
                g1 * (p - 1) + 1 == pe,
        ;
    }
    let q = (p - 1) as int;
    let t = power(p, e + 1) - 1;
    assert(t == q * g) by (nonlinear_arith)
        requires
            g * (p - 1) + 1 == power(p, e + 1),
            q == p - 1,
            t == power(p, e + 1) - 1,
    ;
    vstd::arithmetic::div_mod::lemma_div_multiples_vanish(g as int, q);
    assert(q * g == g * q) by (nonlinear_arith);
}

/// A divisor has at most as many divisors as its multiple, and at most as
/// large a divisor sum.
pub proof fn lemma_divisor_tally_of_divisor(a: nat, n: nat, unit: bool)
    requires
        n >= 1,
        divides(a, n),
    ensures
        divisor_tally(a, unit) <= divisor_tally(n, unit),
{
    lemma_divides_quotient(a, n);
    assert forall|d: nat| 1 <= d <= a && #[trigger] divisor_of(a)(d) implies divisor_of(n)(d) by {
        lemma_divides_transitive(d, a, n);
    }
    lemma_tally_monotone(divisor_of(a), divisor_of(n), unit, a);
    lemma_tally_grows(divisor_of(n), unit, a, n);
}

/// A positive number is among its own divisors, so that both its divisor
/// count and its divisor sum are positive.
pub proof fn lemma_divisor_tally_positive(n: nat, unit: bool)
    requires
        n >= 1,
    ensures
        divisor_tally(n, unit) >= 1,
{
    lemma_divides_multiple(n, 1);
    assert(divisor_of(n)(n));
}

/// No tally up to `k` exceeds the tally of all the numbers up to `k`.
proof fn lemma_tally_bound(f: spec_fn(nat) -> bool, unit: bool, k: nat)
    ensures
        unit ==> tally(f, unit, k) <= k,
        !unit ==> 2 * tally(f, unit, k) <= k * (k + 1),
    decreases k,
{
    if k > 0 {
        lemma_tally_bound(f, unit, (k - 1) as nat);
        assert((k - 1) * k + 2 * k == k * (k + 1)) by (nonlinear_arith);
    }
}

/// A number has at most as many divisors as it counts, and their sum is at
/// most the sum of the numbers up to it.
pub proof fn lemma_divisor_bounds(n: u64)
    requires
        n >= 1,
    ensures
        divisor_count(n) <= n,
        2 * divisor_sum(n) <= n * (n + 1),
{
    lemma_divisors_finite(n);
    lemma_divisor_sum_is_tally(n);
    lemma_tally_bound(divisor_of(n as nat), true, n as nat);
    lemma_tally_bound(divisor_of(n as nat), false, n as nat);
}

/// A number is prime exactly when it has two divisors.
pub proof fn lemma_prime_iff_two_divisors(n: u64)
    ensures
        is_prime(n as nat) <==> n >= 1 && divisor_count(n) == 2,
{
    if n >= 1 {
        lemma_divisors_finite(n);
        let all = divisors(n);
        if n == 1 {
            assert(all =~= set![1u64]);
        } else if is_prime(n as nat) {
            assert(all =~= set![1u64, n]);
        } else {
            let d = choose|d: nat| 1 < d < n && #[trigger] divides(d, n as nat);
            let three = set![1u64, n, d as u64];
            assert(three.subset_of(all));
            vstd::set_lib::lemma_len_subset(three, all);
        }
    }
}

/// What the prime divisor `p` of `n` adds to the product of the prime
/// powers of `n` up to `a`, where no prime divisor of `n` lies between `a`
/// and `p`: the product grows by the power of `p`, and its divisor count,
/// or sum, by what that power contributes.
pub proof fn lemma_tally_next_prime(n: u64, a: nat, p: u64, unit: bool)
    requires
        n >= 1,
        is_prime(p as nat),
        divides(p as nat, n as nat),
        a < p,
        forall|q: u64| a < q < p ==> !#[trigger] factorization(n).contains_key(q),
    ensures
        prime_power_product(factorization(n), a) >= 1,
        prime_power_product(factorization(n), p as nat) == power(
            p as nat,
            multiplicity(p as nat, n as nat),
        ) * prime_power_product(factorization(n), a),
        divisor_tally(prime_power_product(factorization(n), p as nat), unit) == prime_power_factor(
            p as nat,
            multiplicity(p as nat, n as nat),
            unit,
        ) * divisor_tally(prime_power_product(factorization(n), a), unit),
        divisor_tally(prime_power_product(factorization(n), p as nat), unit) <= divisor_tally(
            n as nat,
            unit,
        ),
{
    let f = factorization(n);
    let e = multiplicity(p as nat, n as nat);
    let below = prime_power_product(f, a);
    lemma_product_gap(f, a, (p - 1) as nat);
    lemma_product_multiplicity(n, a, p as nat);
    lemma_multiplicity_bound(p as nat, n as nat);
    assert(f.contains_key(p));
    assert(f[p] as nat == e);
    lemma_multiplicity_step(p as nat, below);
    lemma_divisor_tally_prime_power(p as nat, e, below, unit);
    lemma_divides_quotient(p as nat, n as nat);
    lemma_product_divides(n, p as nat, n as nat);
    lemma_factorization_product(n);
    lemma_divisor_tally_of_divisor(prime_power_product(f, p as nat), n as nat, unit);
}

/// Where no prime divisor of `n` lies above `a`, the product of the prime
/// powers of `n` up to `a` is `n`.
pub proof fn lemma_tally_last_prime(n: u64, a: nat)
    requires
        n >= 1,
        a <= n,
        forall|q: u64| a < q ==> !#[trigger] factorization(n).contains_key(q),
    ensures
        prime_power_product(factorization(n), a) == n,
{
    lemma_product_gap(factorization(n), a, n as nat);
    lemma_factorization_product(n);
}

/// The one divisor of one is one.
pub proof fn lemma_unit_tally(unit: bool)
    ensures
        prime_power_product(factorization(1), 0) == 1,
        divisor_tally(1, unit) == 1,
{
    reveal_with_fuel(tally, 2);
    assert(divides(1, 1));
    assert(divisor_of(1)(1));
}

} // verus!
