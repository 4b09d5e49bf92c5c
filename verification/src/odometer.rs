//! The divisors of a number in odometer order: each divisor is told by its
//! digits, the multiplicities in it of the prime divisors of the number, the
//! first prime being the fastest digit.

use vstd::prelude::*;
use crate::divisibility::{
    divides, is_prime, lemma_divides_multiple, lemma_divides_quotient, lemma_divides_transitive,
};
use crate::multiplicity::{
    factorization, lemma_equal_multiplicities, lemma_multiplicity_bound,
    lemma_multiplicity_of_divisor, lemma_multiplicity_other_power, lemma_multiplicity_own_power,
    lemma_multiplicity_power_divides, lemma_multiplicity_product, lemma_multiplicity_step,
    lemma_power_positive, multiplicity, power,
};

verus! {

/// `list` holds the entries of `f`, ascending by key.
pub open spec fn lists_entries(list: Seq<(u64, usize)>, f: Map<u64, usize>) -> bool {
    &&& forall|j: int|
        0 <= j < list.len() ==> f.contains_key(#[trigger] list[j].0) && f[list[j].0] == list[j].1
    &&& forall|q: u64|
        f.contains_key(q) ==> exists|j: int| 0 <= j < list.len() && #[trigger] list[j].0 == q
    &&& forall|j: int, k: int| 0 <= j < k < list.len() ==> list[j].0 < list[k].0
}

/// The digit of `d` at the place `j`: the multiplicity in `d` of the prime
/// of the `j`-th entry.
pub open spec fn digit(list: Seq<(u64, usize)>, d: nat, j: int) -> nat {
    multiplicity(list[j].0 as nat, d)
}

/// The first `k` digits of `d` are `exps`.
pub open spec fn has_digits(list: Seq<(u64, usize)>, exps: Seq<usize>, d: nat, k: int) -> bool {
    forall|j: int| 0 <= j < k ==> #[trigger] digit(list, d, j) == exps[j]
}

/// By its first `k` digits, `d` comes before the number with the digits
/// `exps`: the highest digit in which the two differ is smaller in `d`.
pub open spec fn precedes(list: Seq<(u64, usize)>, exps: Seq<usize>, d: nat, k: int) -> bool
    decreases k,
{
    if k <= 0 {
        false
    } else {
        digit(list, d, k - 1) < exps[k - 1] || (digit(list, d, k - 1) == exps[k - 1] && precedes(
            list,
            exps,
            d,
            k - 1,
        ))
    }
}

/// The listed primes are primes that divide `n`, each listed with its
/// multiplicity in `n`, and no two of them are equal.
pub proof fn lemma_listed_prime(list: Seq<(u64, usize)>, n: u64, j: int)
    requires
        n >= 1,
        lists_entries(list, factorization(n)),
        0 <= j < list.len(),
    ensures
        is_prime(list[j].0 as nat),
        divides(list[j].0 as nat, n as nat),
        list[j].1 == multiplicity(list[j].0 as nat, n as nat),
        list[j].1 >= 1,
        power(list[j].0 as nat, list[j].1 as nat) <= n,
        forall|k: int| 0 <= k < list.len() && k != j ==> list[k].0 != list[j].0,
{
    let p = list[j].0;
    assert(factorization(n).contains_key(p));
    lemma_multiplicity_bound(p as nat, n as nat);
    lemma_multiplicity_step(p as nat, n as nat);
    assert forall|k: int| 0 <= k < list.len() && k != j implies list[k].0 != list[j].0 by {
        if k < j {
            assert(list[k].0 < list[j].0);
        } else {
            assert(list[j].0 < list[k].0);
        }
    }
}

/// No digit of a divisor of `n` exceeds the digit of `n`.
pub proof fn lemma_digit_bound(list: Seq<(u64, usize)>, n: u64, d: nat, j: int)
    requires
        n >= 1,
        lists_entries(list, factorization(n)),
        divides(d, n as nat),
        0 <= j < list.len(),
    ensures
        digit(list, d, j) <= list[j].1,
{
    lemma_listed_prime(list, n, j);
    lemma_multiplicity_of_divisor(list[j].0 as nat, d, n as nat);
}

/// Two divisors of `n` with the same digits are equal.
pub proof fn lemma_digits_unique(list: Seq<(u64, usize)>, n: u64, exps: Seq<usize>, c: nat, d: nat)
    requires
        n >= 1,
        lists_entries(list, factorization(n)),
        divides(c, n as nat),
        divides(d, n as nat),
        has_digits(list, exps, c, list.len() as int),
        has_digits(list, exps, d, list.len() as int),
    ensures
        c == d,
{
    lemma_divides_quotient(c, n as nat);
    lemma_divides_quotient(d, n as nat);
    assert forall|q: nat| is_prime(q) implies #[trigger] multiplicity(q, c) == multiplicity(
        q,
        d,
    ) by {
        if divides(q, n as nat) {
            lemma_divides_quotient(q, n as nat);
            assert(factorization(n).contains_key(q as u64));
            let j = choose|j: int| 0 <= j < list.len() && #[trigger] list[j].0 == q as u64;
            assert(digit(list, c, j) == exps[j]);
            assert(digit(list, d, j) == exps[j]);
        } else {
            lemma_multiplicity_step(q, c);
            lemma_multiplicity_step(q, d);
            if divides(q, c) {
                lemma_divides_transitive(q, c, n as nat);
            }
            if divides(q, d) {
                lemma_divides_transitive(q, d, n as nat);
            }
        }
    }
    lemma_equal_multiplicities(c, d);
}

/// Every digit of one is zero.
pub proof fn lemma_digits_of_one(list: Seq<(u64, usize)>, n: u64, exps: Seq<usize>)
    requires
        n >= 1,
        lists_entries(list, factorization(n)),
        forall|j: int| 0 <= j < list.len() ==> exps[j] == 0,
    ensures
        has_digits(list, exps, 1, list.len() as int),
        divides(1, n as nat),
{
    assert forall|j: int| 0 <= j < list.len() implies #[trigger] digit(list, 1, j) == exps[j] by {
        lemma_listed_prime(list, n, j);
        let p = list[j].0 as nat;
        assert(1nat % p == 1) by {
            vstd::arithmetic::div_mod::lemma_small_mod(1, p);
        }
    }
}

/// Multiplying a divisor of `n` by a listed prime that it holds less often
/// than `n` gives a divisor of `n`, with that digit raised by one and the
/// others unchanged.
pub proof fn lemma_digit_raised(list: Seq<(u64, usize)>, n: u64, d: nat, i: int)
    requires
        n >= 1,
        lists_entries(list, factorization(n)),
        divides(d, n as nat),
        0 <= i < list.len(),
        digit(list, d, i) < list[i].1,
    ensures
        divides(d * (list[i].0 as nat), n as nat),
        2 <= d * (list[i].0 as nat) <= n,
        forall|j: int|
            0 <= j < list.len() ==> #[trigger] digit(list, d * (list[i].0 as nat), j) == if j == i {
                digit(list, d, j) + 1
            } else {
                digit(list, d, j)
            },
{
    let p = list[i].0 as nat;
    lemma_listed_prime(list, n, i);
    lemma_divides_quotient(d, n as nat);
    let x = n as nat / d;
    lemma_multiplicity_product(p, d, x);
    lemma_multiplicity_step(p, x);
    lemma_divides_quotient(p, x);
    let x1 = x / p;
    assert(n == (d * p) * x1) by (nonlinear_arith)
        requires
            n == d * x,
            x == p * x1,
    ;
    assert(d * p >= 2) by (nonlinear_arith)
        requires
            d >= 1,
            p >= 2,
    ;
    lemma_divides_multiple(d * p, x1);
    lemma_divides_quotient(d * p, n as nat);
    assert forall|j: int| 0 <= j < list.len() implies #[trigger] digit(
        list,
        d * (list[i].0 as nat),
        j,
    ) == if j == i {
        digit(list, d, j) + 1
    } else {
        digit(list, d, j)
    } by {
        lemma_listed_prime(list, n, j);
        let q = list[j].0 as nat;
        lemma_multiplicity_product(q, d, p);
        assert(power(p, 1) == p) by {
            reveal_with_fuel(power, 2);
            assert(p * 1 == p);
        }
        if j == i {
            lemma_multiplicity_own_power(p, 1);
        } else {
            lemma_multiplicity_other_power(q, p, 1);
        }
    }
}

/// Dividing a divisor of `n` by the full power in it of a listed prime
/// gives a divisor of `n`, with that digit zero and the others unchanged.
pub proof fn lemma_digit_cleared(list: Seq<(u64, usize)>, n: u64, d: nat, i: int)
    requires
        n >= 1,
        lists_entries(list, factorization(n)),
        divides(d, n as nat),
        0 <= i < list.len(),
        digit(list, d, i) == list[i].1,
    ensures
        power(list[i].0 as nat, list[i].1 as nat) >= 1,
        divides(d / power(list[i].0 as nat, list[i].1 as nat), n as nat),
        forall|j: int|
            0 <= j < list.len() ==> #[trigger] digit(
                list,
                d / power(list[i].0 as nat, list[i].1 as nat),
                j,
            ) == if j == i {
                0
            } else {
                digit(list, d, j)
            },
{
    let p = list[i].0 as nat;
    let e = list[i].1 as nat;
    let pw = power(p, e);
    lemma_listed_prime(list, n, i);
    lemma_divides_quotient(d, n as nat);
    lemma_power_positive(p, e);
    lemma_multiplicity_power_divides(p, d);
    lemma_divides_quotient(pw, d);
    let rest = d / pw;
    lemma_divides_multiple(rest, pw);
    lemma_divides_transitive(rest, d, n as nat);
    assert forall|j: int| 0 <= j < list.len() implies #[trigger] digit(list, rest, j) == if j
        == i {
        0
    } else {
        digit(list, d, j)
    } by {
        lemma_listed_prime(list, n, j);
        let q = list[j].0 as nat;
        if j == i {
            lemma_multiplicity_step(p, rest);
        } else {
            lemma_multiplicity_product(q, pw, rest);
            lemma_multiplicity_other_power(q, p, e);
        }
    }
}

/// Below the place that the odometer raises, where the digits were at their
/// largest and are now zero: nothing comes before the new digits, and
/// everything within the digits' range came before the old ones or had them.
pub proof fn lemma_odometer_low(
    list: Seq<(u64, usize)>,
    before: Seq<usize>,
    after: Seq<usize>,
    d: nat,
    i: int,
    k: int,
)
    requires
        0 <= k <= i <= list.len(),
        before.len() == list.len(),
        after.len() == list.len(),
        forall|j: int| 0 <= j < i ==> before[j] == list[j].1 && after[j] == 0,
        forall|j: int| 0 <= j < list.len() ==> digit(list, d, j) <= list[j].1,
    ensures
        !precedes(list, after, d, k),
        precedes(list, before, d, k) || has_digits(list, before, d, k),
    decreases k,
{
    if k > 0 {
        lemma_odometer_low(list, before, after, d, i, k - 1);
        assert(digit(list, d, k - 1) <= list[k - 1].1);
    }
}

/// One step of the odometer: what comes before the new digits is what came
/// before the old digits, and the number with the old digits.
pub proof fn lemma_odometer_step(
    list: Seq<(u64, usize)>,
    before: Seq<usize>,
    after: Seq<usize>,
    d: nat,
    i: int,
    k: int,
)
    requires
        0 <= i < k <= list.len(),
        before.len() == list.len(),
        after.len() == list.len(),
        forall|j: int| 0 <= j < i ==> before[j] == list[j].1 && after[j] == 0,
        after[i] == before[i] + 1,
        forall|j: int| i < j < list.len() ==> after[j] == before[j],
        forall|j: int| 0 <= j < list.len() ==> digit(list, d, j) <= list[j].1,
    ensures
        precedes(list, after, d, k) <==> precedes(list, before, d, k) || has_digits(
            list,
            before,
            d,
            k,
        ),
    decreases k,
{
    if k == i + 1 {
        lemma_odometer_low(list, before, after, d, i, i);
    } else {
        lemma_odometer_step(list, before, after, d, i, k - 1);
    }
    assert(has_digits(list, before, d, k) <==> has_digits(list, before, d, k - 1) && digit(
        list,
        d,
        k - 1,
    ) == before[k - 1]) by {
        if has_digits(list, before, d, k - 1) && digit(list, d, k - 1) == before[k - 1] {
            assert forall|j: int| 0 <= j < k implies #[trigger] digit(list, d, j) == before[j] by {
                if j < k - 1 {
                }
            }
        }
        if has_digits(list, before, d, k) {
            assert(digit(list, d, k - 1) == before[k - 1]);
        }
    }
}

/// Between two neighbours in the ascending list of a map's entries, and
/// below the first, the map has no key.
pub proof fn lemma_no_entry_between(factors: Map<u64, usize>, list: Seq<(u64, usize)>, i: int)
    requires
        0 <= i < list.len(),
        lists_entries(list, factors),
    ensures
        i > 0 ==> list[i - 1].0 < list[i].0,
        forall|q: u64|
            (if i == 0 {
                0
            } else {
                list[i - 1].0
            }) < q < list[i].0 ==> !#[trigger] factors.contains_key(q),
{
    assert forall|q: u64|
        (if i == 0 {
            0
        } else {
            list[i - 1].0
        }) < q < list[i].0 implies !#[trigger] factors.contains_key(q) by {
        if factors.contains_key(q) {
            let j = choose|j: int| 0 <= j < list.len() && #[trigger] list[j].0 == q;
            if j < i {
                if j < i - 1 {
                    assert(list[j].0 < list[i - 1].0);
                }
            } else if j > i {
                assert(list[i].0 < list[j].0);
            }
        }
    }
}

/// Above the last of the ascending list of a map's entries the map has no
/// key.
pub proof fn lemma_no_entry_above(factors: Map<u64, usize>, list: Seq<(u64, usize)>)
    requires
        lists_entries(list, factors),
    ensures
        forall|q: u64|
            (if list.len() == 0 {
                0
            } else {
                list.last().0
            }) < q ==> !#[trigger] factors.contains_key(q),
{
    assert forall|q: u64|
        (if list.len() == 0 {
            0
        } else {
            list.last().0
        }) < q implies !#[trigger] factors.contains_key(q) by {
        if factors.contains_key(q) {
            let j = choose|j: int| 0 <= j < list.len() && #[trigger] list[j].0 == q;
            if j < list.len() - 1 {
                assert(list[j].0 < list[list.len() - 1].0);
            }
        }
    }
}

/// Nothing comes before the number whose digits are zero.
pub proof fn lemma_nothing_before_zero(list: Seq<(u64, usize)>, exps: Seq<usize>, d: nat, k: int)
    requires
        0 <= k <= list.len(),
        forall|j: int| 0 <= j < k ==> exps[j] == 0,
    ensures
        !precedes(list, exps, d, k),
    decreases k,
{
    if k > 0 {
        lemma_nothing_before_zero(list, exps, d, k - 1);
    }
}

/// No number comes before the number that has its own digits.
pub proof fn lemma_not_before_itself(list: Seq<(u64, usize)>, exps: Seq<usize>, d: nat, k: int)
    requires
        0 <= k <= list.len(),
        has_digits(list, exps, d, list.len() as int),
    ensures
        !precedes(list, exps, d, k),
    decreases k,
{
    if k > 0 {
        lemma_not_before_itself(list, exps, d, k - 1);
        assert(digit(list, d, k - 1) == exps[k - 1]);
    }
}

} // verus!
