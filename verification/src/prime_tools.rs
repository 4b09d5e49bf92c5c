//! The prime table and the queries answered from it.

use std::collections::{BTreeMap, BTreeSet};
use vstd::prelude::*;
use vstd::std_specs::cmp::OrdSpec;
use vstd::std_specs::iter::IteratorSpec;
use crate::divisibility::{
    divides, is_prime, lemma_divides_multiple, lemma_divides_quotient, lemma_divides_transitive,
    lemma_prime_divisor,
};
use crate::divisors::{
    divisor_count, divisor_sum, divisor_tally, divisors, geometric_sum, lemma_divisor_bounds,
    lemma_divisor_sum_is_tally, lemma_divisor_tally_positive, lemma_divisors_finite,
    lemma_geometric_sum, lemma_tally_last_prime, lemma_tally_next_prime, lemma_unit_tally,
};
use crate::multiplicity::{
    factorization, lemma_multiplicity_bound, lemma_multiplicity_other_power,
    lemma_multiplicity_own_power, lemma_multiplicity_product, lemma_multiplicity_step,
    lemma_power_positive, multiplicity, power, prime_power_product,
};
use crate::numeric::{int_pow, int_sqrt};
use crate::odometer::{
    digit, has_digits, lemma_digit_bound, lemma_digit_cleared, lemma_digit_raised,
    lemma_digits_of_one, lemma_digits_unique, lemma_listed_prime, lemma_no_entry_above,
    lemma_no_entry_between, lemma_not_before_itself, lemma_nothing_before_zero,
    lemma_odometer_low, lemma_odometer_step, lists_entries, precedes,
};
use crate::table::{
    grown_to_bound, grown_to_index, is_nth_prime, is_prime_table, isqrt, lemma_even_not_prime,
    lemma_first_primes, lemma_isqrt_bounds, lemma_isqrt_unique, lemma_table_ascending,
    lemma_table_complete, lemma_table_exhausted, lemma_table_gap, lemma_table_last_odd,
    lemma_table_push, lemma_trial_division, no_prime_above, primes_below,
};

verus! {

/// Why a query gave no result.
#[derive(Debug, Clone, Copy, PartialEq, Eq, Structural)]
pub enum PrimeError {
    /// The number is zero, which has no prime factorization.
    InvalidInput,
    /// The result does not fit in the integer type that holds it.
    Overflow,
}

/// A table of the first primes that grows on demand.
pub struct PrimeTools {
    primes: Vec<u64>,
}

impl View for PrimeTools {
    type V = Seq<u64>;

    /// The primes that the table holds, in ascending order.
    closed spec fn view(&self) -> Seq<u64> {
        self.primes@
    }
}

/// The table that holds two and three.
fn seed() -> (primes: Vec<u64>)
    ensures
        primes@ == seq![2u64, 3u64],
{
    let one: u64 = 1;
    let two: u64 = one + one;
    let three: u64 = one + two;
    let mut primes: Vec<u64> = Vec::new();
    primes.push(two);
    primes.push(three);
    assert(primes@ =~= seq![2u64, 3u64]);
    primes
}

/// Whether none of `primes` divides `n`.
fn indivisible(primes: &Vec<u64>, n: u64) -> (r: bool)
    requires
        forall|i: int| 0 <= i < primes.len() ==> primes[i] != 0,
    ensures
        r <==> forall|i: int| 0 <= i < primes.len() ==> n % #[trigger] primes[i] != 0,
{
    let mut k: usize = 0;
    while k < primes.len()
        invariant
            k <= primes.len(),
            forall|i: int| 0 <= i < primes.len() ==> primes[i] != 0,
            forall|i: int| 0 <= i < k ==> n % #[trigger] primes[i] != 0,
        decreases primes.len() - k,
    {
        if n % primes[k] == 0 {
            return false;
        }
        k += 1;
    }
    true
}

/// Whether `n` is among `primes`.
fn contains(primes: &Vec<u64>, n: u64) -> (r: bool)
    ensures
        r <==> exists|i: int| 0 <= i < primes.len() && primes[i] == n,
{
    let mut k: usize = 0;
    while k < primes.len()
        invariant
            k <= primes.len(),
            forall|i: int| 0 <= i < k ==> primes[i] != n,
        decreases primes.len() - k,
    {
        if primes[k] == n {
            return true;
        }
        k += 1;
    }
    false
}

/// Enters the prime `p` with the exponent `e` in `factors`.
fn record(factors: &mut BTreeMap<u64, usize>, p: u64, e: usize)
    ensures
        final(factors)@ == old(factors)@.insert(p, e),
{
    broadcast use vstd::laws_cmp::group_laws_cmp;

    factors.insert(p, e);
}

/// Adds `d` to `found`.
fn remember(found: &mut BTreeSet<u64>, d: u64)
    ensures
        final(found)@ == old(found)@.insert(d),
{
    broadcast use vstd::laws_cmp::group_laws_cmp;

    found.insert(d);
}

/// `len` zeros.
fn zeros(len: usize) -> (list: Vec<usize>)
    ensures
        list@.len() == len,
        forall|j: int| 0 <= j < len ==> list@[j] == 0,
{
    let mut list: Vec<usize> = Vec::new();
    while list.len() < len
        invariant
            list@.len() <= len,
            forall|j: int| 0 <= j < list@.len() ==> list@[j] == 0,
        decreases len - list@.len(),
    {
        list.push(0);
    }
    list
}

/// The entries of `factors`, ascending by prime.
fn entries(factors: &BTreeMap<u64, usize>) -> (list: Vec<(u64, usize)>)
    ensures
        lists_entries(list@, factors@),
{
    broadcast use vstd::laws_cmp::group_laws_cmp;

    let mut list: Vec<(u64, usize)> = Vec::new();
    let iter = factors.iter();
    let ghost keys = iter.remaining().map_values(|kv: (&u64, &usize)| *kv.0);
    proof {
        assert(vstd::std_specs::btree::increasing_seq(keys));
        assert forall|i: int, j: int|
            0 <= i < j < iter.remaining().len() implies *iter.remaining()[i].0
            < *iter.remaining()[j].0 by {
            assert(keys[i] == *iter.remaining()[i].0);
            assert(keys[j] == *iter.remaining()[j].0);
            vstd::std_specs::btree::axiom_increasing_seq_meaning(keys);
            assert(keys[i].cmp_spec(&keys[j]) is Less);
        }
    }
    for entry in it: iter
        invariant
            list@.len() == it.index(),
            forall|i: int, j: int| 0 <= i < j < it.seq().len() ==> *it.seq()[i].0 < *it.seq()[j].0,
            forall|i: int|
                0 <= i < list@.len() ==> list@[i].0 == *it.seq()[i].0 && list@[i].1
                    == *it.seq()[i].1,
    {
        let (p, e) = entry;
        list.push((*p, *e));
    }
    list
}

impl PrimeTools {
    /// The table holds the first primes in order, two and three among them.
    #[verifier::type_invariant]
    spec fn valid(self) -> bool {
        self.primes@.len() >= 2 && is_prime_table(self.primes@)
    }

    /// A table that holds the first two primes, two and three.
    pub fn new() -> (r: Self)
        ensures
            r@ == seq![2u64, 3u64],
    {
        let primes = seed();
        proof {
            lemma_first_primes();
        }
        PrimeTools { primes }
    }

    /// The largest prime in the table.
    fn last(&self) -> (r: u64)
        ensures
            self@.len() >= 2,
            is_prime_table(self@),
            r == self@.last(),
    {
        proof {
            use_type_invariant(self);
        }
        self.primes[self.primes.len() - 1]
    }

    /// Appends `next`, the next prime after the last entry. The table is
    /// valid at every step, so the vector leaves it for a seed while it
    /// grows.
    fn push(&mut self, next: u64)
        requires
            is_prime(next as nat),
            old(self)@.last() < next,
            forall|q: nat| old(self)@.last() < q < next ==> !#[trigger] is_prime(q),
        ensures
            final(self)@ == old(self)@.push(next),
            is_prime_table(final(self)@),
    {
        proof {
            use_type_invariant(&*self);
            lemma_table_push(self@, next);
            lemma_first_primes();
        }
        let mut primes = seed();
        std::mem::swap(&mut self.primes, &mut primes);
        primes.push(next);
        self.primes = primes;
    }

    /// Appends the next prime after the last entry, if it fits in a `u64`,
    /// and says whether it did.
    fn add_prime(&mut self) -> (grown: bool)
        ensures
            final(self)@.len() >= 2,
            is_prime_table(final(self)@),
            grown ==> final(self)@.drop_last() == old(self)@,
            !grown ==> final(self)@ == old(self)@ && no_prime_above(old(self)@.last()),
    {
        proof {
            use_type_invariant(&*self);
        }
        let two: u64 = 2;
        let last = self.last();
        let ghost table = self@;
        proof {
            lemma_table_last_odd(table);
        }
        let mut next = last;
        loop
            invariant
                self@ == table,
                old(self)@ == table,
                table.len() >= 2,
                is_prime_table(table),
                last == table.last(),
                last <= next,
                last >= 3,
                next % 2 == 1,
                two == 2,
                forall|q: nat| last < q <= next ==> !#[trigger] is_prime(q),
            decreases u64::MAX - next,
        {
            next = match next.checked_add(two) {
                Some(c) => c,
                None => {
                    assert(no_prime_above(last));
                    return false;
                },
            };
            proof {
                lemma_even_not_prime((next - 1) as nat);
                assert forall|i: int| 0 <= i < table.len() implies table[i] != 0 by {
                    assert(is_nth_prime(table[i] as nat, i as nat));
                }
            }
            if indivisible(&self.primes, next) {
                proof {
                    if !is_prime(next as nat) {
                        let p = lemma_prime_divisor(next as nat);
                        lemma_divides_quotient(p, next as nat);
                        assert(p != next);
                        let i = lemma_table_complete(table, p);
                        assert(next % table[i] == 0);
                    }
                }
                self.push(next);
                assert(self@.drop_last() =~= table);
                return true;
            }
            proof {
                let i = choose|i: int| 0 <= i < table.len() && next % #[trigger] table[i] == 0;
                assert(is_nth_prime(table[i] as nat, i as nat));
                if i < table.len() - 1 {
                    lemma_table_ascending(table, i, table.len() - 1);
                }
                assert(divides(table[i] as nat, next as nat));
            }
        }
    }

    /// Grows the table, one prime at a time, until it holds the index `n`.
    fn fill_n_primes(&mut self, n: usize)
        ensures
            grown_to_index(old(self)@, final(self)@, n),
    {
        proof {
            use_type_invariant(&*self);
        }
        while self.primes.len() <= n
            invariant_except_break
                old(self)@.len() >= 2,
                self@.len() >= 2,
                is_prime_table(self@),
                old(self)@.is_prefix_of(self@),
                self@.len() > old(self)@.len() ==> self@.len() <= n + 1,
                self@ == self.primes@,
            ensures
                grown_to_index(old(self)@, self@, n),
            decreases n + 1 - self.primes.len(),
        {
            if !self.add_prime() {
                break;
            }
        }
    }

    /// Grows the table, one prime at a time, until its last entry is at
    /// least `n`.
    fn fill_till_n(&mut self, n: u64)
        ensures
            grown_to_bound(old(self)@, final(self)@, n as nat),
    {
        proof {
            use_type_invariant(&*self);
        }
        while self.last() < n
            invariant_except_break
                old(self)@.len() >= 2,
                self@.len() >= 2,
                is_prime_table(self@),
                old(self)@.is_prefix_of(self@),
                self@.len() > old(self)@.len() ==> self@[self@.len() - 2] < n,
            ensures
                grown_to_bound(old(self)@, self@, n as nat),
            decreases u64::MAX - self@.last(),
        {
            let ghost before = self@;
            if !self.add_prime() {
                break;
            }
            proof {
                assert(self@.drop_last() == before);
                assert(self@[self@.len() - 2] == before.last());
                lemma_table_ascending(self@, self@.len() - 2, self@.len() - 1);
            }
        }
    }

    /// The prime with the zero-based index `n`, or `None` where it does not
    /// fit in a `u64`. The table grows until it holds that index.
    pub fn get_prime(&mut self, n: usize) -> (r: Option<u64>)
        ensures
            grown_to_index(old(self)@, final(self)@, n),
            final(self)@.len() <= usize::MAX,
            match r {
                Some(p) => n < final(self)@.len() && p == final(self)@[n as int] && is_nth_prime(
                    p as nat,
                    n as nat,
                ),
                None => final(self)@.len() <= n && primes_below((u64::MAX + 1) as nat) <= n,
            },
    {
        self.fill_n_primes(n);
        proof {
            use_type_invariant(&*self);
        }
        if n < self.primes.len() {
            Some(self.primes[n])
        } else {
            proof {
                lemma_table_exhausted(self@);
            }
            None
        }
    }

    /// Whether `n` is prime. Where the table's last entry is below `n`, the
    /// table first grows until its last entry reaches the square root of
    /// `n`.
    pub fn is_prime(&mut self, n: &u64) -> (r: bool)
        ensures
            r == is_prime(*n as nat),
            if old(self)@.last() >= *n {
                final(self)@ == old(self)@
            } else {
                grown_to_bound(old(self)@, final(self)@, isqrt(*n as nat))
            },
    {
        let n = *n;
        if self.last() < n {
            let root = int_sqrt(n);
            proof {
                lemma_isqrt_unique(n as nat, root as nat);
            }
            self.fill_till_n(root);
        }
        let last = self.last();
        let ghost table = self@;
        proof {
            use_type_invariant(&*self);
            assert forall|i: int| 0 <= i < table.len() implies table[i] != 0 by {
                assert(is_nth_prime(table[i] as nat, i as nat));
            }
        }
        if last >= n {
            let found = contains(&self.primes, n);
            proof {
                if is_prime(n as nat) {
                    let i = lemma_table_complete(table, n as nat);
                }
                if found {
                    let i = choose|i: int| 0 <= i < table.len() && table[i] == n;
                    assert(is_nth_prime(table[i] as nat, i as nat));
                }
            }
            found
        } else {
            let free = indivisible(&self.primes, n);
            proof {
                if free {
                    assert forall|p: nat| is_prime(p) && p * p <= n implies !#[trigger] divides(
                        p,
                        n as nat,
                    ) by {
                        lemma_isqrt_bounds(n as nat, p);
                        let i = lemma_table_complete(table, p);
                        assert(n % table[i] != 0);
                    }
                    lemma_trial_division(n as nat);
                } else {
                    let i = choose|i: int| 0 <= i < table.len() && n % #[trigger] table[i] == 0;
                    assert(is_nth_prime(table[i] as nat, i as nat));
                    if i < table.len() - 1 {
                        lemma_table_ascending(table, i, table.len() - 1);
                    }
                    assert(divides(table[i] as nat, n as nat));
                }
            }
            free
        }
    }

    /// The prime factorization of `n`: each prime divisor with its
    /// exponent. Zero has none. The table first grows until its last entry
    /// reaches the square root of `n`.
    pub fn prime_factorization(&mut self, n: &u64) -> (r: Result<BTreeMap<u64, usize>, PrimeError>)
        ensures
            match r {
                Ok(f) => *n >= 1 && f@ == factorization(*n) && grown_to_bound(
                    old(self)@,
                    final(self)@,
                    isqrt(*n as nat),
                ),
                Err(e) => *n == 0 && e == PrimeError::InvalidInput && final(self)@ == old(self)@,
            },
    {
        let n = *n;
        if n == 0 {
            return Err(PrimeError::InvalidInput);
        }
        let mut m = n;
        let mut sqrt_m = int_sqrt(m);
        proof {
            lemma_isqrt_unique(m as nat, sqrt_m as nat);
        }
        self.fill_till_n(sqrt_m);
        let ghost table = self@;
        let ghost bound: nat = 0;
        proof {
            use_type_invariant(&*self);
            lemma_divides_multiple(n as nat, 1);
        }
        let mut prime_factors: BTreeMap<u64, usize> = BTreeMap::new();
        let mut k: usize = 0;
        while k < self.primes.len()
            invariant_except_break
                bound == if k == 0 {
                    0
                } else {
                    table[k - 1] + 1
                },
            invariant
                self@ == table,
                self.primes@ == table,
                table.len() >= 2,
                is_prime_table(table),
                table.last() >= isqrt(n as nat) || no_prime_above(table.last()),
                k <= table.len(),
                n >= 1,
                1 <= m <= n,
                divides(m as nat, n as nat),
                sqrt_m == isqrt(m as nat),
                forall|q: nat| is_prime(q) && q < bound ==> !#[trigger] divides(q, m as nat),
                forall|q: nat|
                    is_prime(q) && q >= bound ==> #[trigger] multiplicity(q, m as nat)
                        == multiplicity(q, n as nat),
                forall|q: u64| #[trigger]
                    prime_factors@.contains_key(q) <==> q < bound && is_prime(q as nat) && divides(
                        q as nat,
                        n as nat,
                    ),
                forall|q: u64| #[trigger]
                    prime_factors@.contains_key(q) ==> prime_factors@[q] == multiplicity(
                        q as nat,
                        n as nat,
                    ),
            ensures
                k < table.len() ==> forall|q: nat| is_prime(q) && q * q <= m ==> q < bound,
                k == table.len() ==> bound == table.last() + 1,
            decreases table.len() - k,
        {
            let p = self.primes[k];
            let ghost m0 = m;
            proof {
                assert(is_nth_prime(table[k as int] as nat, k as nat));
                assert forall|q: nat| is_prime(q) && q < p implies !#[trigger] divides(
                    q,
                    m as nat,
                ) by {
                    lemma_table_gap(table, k as int, q);
                }
                if k > 0 {
                    lemma_table_ascending(table, k - 1, k as int);
                }
                assert(bound <= p);
                assert forall|q: u64| bound <= q < p implies !is_prime(q as nat) by {
                    if is_prime(q as nat) {
                        lemma_table_gap(table, k as int, q as nat);
                    }
                }
                lemma_multiplicity_step(p as nat, m as nat);
                lemma_multiplicity_step(p as nat, n as nat);
            }
            if m % p == 0 {
                let mut exp: usize = 1;
                m = m / p;
                proof {
                    lemma_divides_quotient(p as nat, m0 as nat);
                    assert(power(p as nat, 1) == p) by {
                        reveal_with_fuel(power, 2);
                        assert(p * 1 == p);
                    }
                }
                while m % p == 0
                    invariant
                        p >= 2,
                        m >= 1,
                        exp >= 1,
                        m0 == m * power(p as nat, exp as nat),
                        1 <= m0 <= u64::MAX,
                        exp <= multiplicity(p as nat, m0 as nat),
                        is_prime(p as nat),
                    decreases m,
                {
                    proof {
                        lemma_multiplicity_bound(p as nat, m0 as nat);
                        lemma_divides_quotient(p as nat, m as nat);
                        let m1 = (m / p) as nat;
                        let pw = power(p as nat, exp as nat);
                        assert(m0 == m1 * power(p as nat, (exp + 1) as nat)) by {
                            assert(power(p as nat, (exp + 1) as nat) == p * pw);
                            assert(m1 * (p * pw) == (p * m1) * pw) by (nonlinear_arith);
                        }
                        lemma_power_positive(p as nat, (exp + 1) as nat);
                        lemma_multiplicity_product(
                            p as nat,
                            m1,
                            power(p as nat, (exp + 1) as nat),
                        );
                        lemma_multiplicity_own_power(p as nat, (exp + 1) as nat);
                        assert(m1 < m) by (nonlinear_arith)
                            requires
                                m == p * m1,
                                p >= 2,
                                m >= 1,
                        ;
                    }
                    exp += 1;
                    m = m / p;
                }
                proof {
                    let pw = power(p as nat, exp as nat);
                    lemma_power_positive(p as nat, exp as nat);
                    lemma_multiplicity_own_power(p as nat, exp as nat);
                    lemma_multiplicity_product(p as nat, m as nat, pw);
                    lemma_multiplicity_step(p as nat, m as nat);
                    assert(exp == multiplicity(p as nat, n as nat));
                    lemma_divides_multiple(m as nat, pw);
                    lemma_divides_transitive(m as nat, m0 as nat, n as nat);
                    lemma_divides_quotient(m as nat, m0 as nat);
                    assert forall|q: nat| is_prime(q) && q != p implies #[trigger] multiplicity(
                        q,
                        m as nat,
                    ) == multiplicity(q, m0 as nat) by {
                        lemma_multiplicity_product(q, m as nat, pw);
                        lemma_multiplicity_other_power(q, p as nat, exp as nat);
                    }
                    assert forall|q: nat| is_prime(q) && q < p implies !#[trigger] divides(
                        q,
                        m as nat,
                    ) by {
                        assert(multiplicity(q, m as nat) == multiplicity(q, m0 as nat));
                        lemma_multiplicity_step(q, m as nat);
                        lemma_multiplicity_step(q, m0 as nat);
                    }
                    lemma_divides_transitive(p as nat, m0 as nat, n as nat);
                }
                record(&mut prime_factors, p, exp);
                sqrt_m = int_sqrt(m);
                proof {
                    lemma_isqrt_unique(m as nat, sqrt_m as nat);
                }
            }
            proof {
                bound = (p + 1) as nat;
                assert(multiplicity(p as nat, m0 as nat) == multiplicity(p as nat, n as nat));
                assert(divides(p as nat, n as nat) <==> divides(p as nat, m0 as nat));
                assert forall|q: u64| #[trigger]
                    prime_factors@.contains_key(q) <==> q < bound && is_prime(q as nat) && divides(
                        q as nat,
                        n as nat,
                    ) by {}
            }
            if p > sqrt_m {
                proof {
                    assert forall|q: nat| is_prime(q) && q * q <= m implies q < bound by {
                        lemma_isqrt_bounds(m as nat, q);
                    }
                }
                break;
            }
            k += 1;
        }
        proof {
            if k == table.len() {
                assert forall|q: nat| is_prime(q) && q * q <= m implies q < bound by {
                    lemma_isqrt_bounds(n as nat, q);
                    assert(q * q <= n);
                }
            }
            assert(forall|q: nat| is_prime(q) && q * q <= m ==> q < bound);
        }
        if m != 1 {
            proof {
                assert forall|q: nat| is_prime(q) && q * q <= m implies !#[trigger] divides(
                    q,
                    m as nat,
                ) by {}
                lemma_trial_division(m as nat);
                lemma_divides_multiple(m as nat, 1);
                assert(divides(m as nat, m as nat));
                lemma_multiplicity_own_power(m as nat, 1);
                assert(power(m as nat, 1) == m) by {
                    reveal_with_fuel(power, 2);
                    assert(m * 1 == m);
                }
            }
            record(&mut prime_factors, m, 1);
        }
        proof {
            let f = factorization(n);
            assert forall|q: u64| f.contains_key(q) implies #[trigger] prime_factors@.contains_key(
                q,
            ) by {
                if q >= bound {
                    lemma_multiplicity_step(q as nat, n as nat);
                    lemma_multiplicity_step(q as nat, m as nat);
                    assert(multiplicity(q as nat, m as nat) == multiplicity(q as nat, n as nat));
                    if m != 1 {
                        lemma_divides_quotient(q as nat, m as nat);
                    } else {
                        lemma_divides_quotient(q as nat, 1);
                    }
                }
            }
            assert forall|q: u64| #[trigger] prime_factors@.contains_key(q) implies f.contains_key(
                q,
            ) && prime_factors@[q] == f[q] by {
                lemma_multiplicity_bound(q as nat, n as nat);
                if m != 1 && q == m {
                    assert(multiplicity(q as nat, m as nat) == multiplicity(q as nat, n as nat));
                }
            }
            assert(prime_factors@ =~= f);
        }
        Ok(prime_factors)
    }

    /// The positive divisors of `n`, from its prime factorization: every
    /// product of the prime divisors, each raised to an exponent from zero to
    /// its own, generated as an odometer generates its readings.
    pub fn factors(&mut self, n: &u64) -> (r: Result<BTreeSet<u64>, PrimeError>)
        ensures
            match r {
                Ok(found) => *n >= 1 && found@ == divisors(*n) && found@.contains(1)
                    && found@.contains(*n),
                Err(e) => *n == 0 && e == PrimeError::InvalidInput,
            },
            if *n == 0 {
                final(self)@ == old(self)@
            } else {
                grown_to_bound(old(self)@, final(self)@, isqrt(*n as nat))
            },
    {
        let prime_factors = match self.prime_factorization(n) {
            Ok(f) => f,
            Err(e) => {
                return Err(e);
            },
        };
        let list = entries(&prime_factors);
        let mut current_exps = zeros(list.len());
        let mut factors: BTreeSet<u64> = BTreeSet::new();
        let mut current_factor: u64 = 1;
        proof {
            lemma_divisors_finite(*n);
            lemma_digits_of_one(list@, *n, current_exps@);
            assert forall|d: u64| !precedes(
                list@,
                current_exps@,
                d as nat,
                list@.len() as int,
            ) by {
                lemma_nothing_before_zero(list@, current_exps@, d as nat, list@.len() as int);
            }
        }
        loop
            invariant_except_break
                forall|j: int| 0 <= j < list@.len() ==> #[trigger] current_exps@[j] <= list@[j].1,
                current_factor >= 1,
                divides(current_factor as nat, *n as nat),
                has_digits(list@, current_exps@, current_factor as nat, list@.len() as int),
                forall|d: u64| #[trigger]
                    factors@.contains(d) <==> divides(d as nat, *n as nat) && precedes(
                        list@,
                        current_exps@,
                        d as nat,
                        list@.len() as int,
                    ),
            invariant
                *n >= 1,
                lists_entries(list@, factorization(*n)),
                current_exps@.len() == list@.len(),
                factors@.finite(),
                divisors(*n).finite(),
            ensures
                factors@ == divisors(*n),
            decreases divisors(*n).len() - factors@.len(),
        {
            let ghost before = current_exps@;
            let ghost reading = current_factor;
            let ghost found = factors@;
            remember(&mut factors, current_factor);
            proof {
                lemma_not_before_itself(list@, before, reading as nat, list@.len() as int);
                assert(!found.contains(reading));
                assert(divisors(*n).contains(reading));
            }
            let mut i: usize = 0;
            while i < list.len()
                invariant_except_break
                    forall|j: int| 0 <= j < i ==> #[trigger] current_exps@[j] == 0,
                    forall|j: int| 0 <= j < i ==> #[trigger] before[j] == list@[j].1,
                    forall|j: int|
                        i <= j < list@.len() ==> #[trigger] current_exps@[j] == before[j],
                invariant
                    *n >= 1,
                    lists_entries(list@, factorization(*n)),
                    current_exps@.len() == list@.len(),
                    before.len() == list@.len(),
                    i <= list@.len(),
                    forall|j: int| 0 <= j < list@.len() ==> #[trigger] before[j] <= list@[j].1,
                    current_factor >= 1,
                    divides(current_factor as nat, *n as nat),
                    has_digits(list@, current_exps@, current_factor as nat, list@.len() as int),
                ensures
                    forall|j: int| 0 <= j < i ==> #[trigger] current_exps@[j] == 0,
                    forall|j: int| 0 <= j < i ==> #[trigger] before[j] == list@[j].1,
                    i < list@.len() ==> {
                        &&& current_exps@[i as int] == before[i as int] + 1
                        &&& current_exps@[i as int] <= list@[i as int].1
                        &&& forall|j: int|
                            i < j < list@.len() ==> #[trigger] current_exps@[j] == before[j]
                        &&& current_factor >= 2
                    },
                decreases list@.len() - i,
            {
                let prime = list[i].0;
                let exp = list[i].1;
                let ghost digits = current_exps@;
                let ghost whole = current_factor;
                proof {
                    lemma_listed_prime(list@, *n, i as int);
                    assert(digit(list@, whole as nat, i as int) == digits[i as int]);
                    assert(digits[i as int] == before[i as int]);
                    assert(before[i as int] <= list@[i as int].1);
                }
                if current_exps[i] < exp {
                    proof {
                        lemma_digit_raised(list@, *n, whole as nat, i as int);
                    }
                    current_factor = current_factor * prime;
                    let raised = current_exps[i] + 1;
                    current_exps.set(i, raised);
                    proof {
                        assert forall|j: int| 0 <= j < list@.len() implies #[trigger] digit(
                            list@,
                            current_factor as nat,
                            j,
                        ) == current_exps@[j] by {
                            assert(digit(list@, whole as nat, j) == digits[j]);
                            assert(digit(list@, whole as nat * (list@[i as int].0 as nat), j)
                                == if j == i {
                                digit(list@, whole as nat, j) + 1
                            } else {
                                digit(list@, whole as nat, j)
                            });
                        }
                    }
                    break;
                } else {
                    proof {
                        lemma_digit_cleared(list@, *n, whole as nat, i as int);
                    }
                    let full = int_pow(prime as u128, exp);
                    current_factor = current_factor / (full as u64);
                    current_exps.set(i, 0);
                    proof {
                        assert forall|j: int| 0 <= j < list@.len() implies #[trigger] digit(
                            list@,
                            current_factor as nat,
                            j,
                        ) == current_exps@[j] by {
                            assert(digit(list@, whole as nat, j) == digits[j]);
                        }
                        lemma_divides_quotient(current_factor as nat, *n as nat);
                    }
                }
                i += 1;
            }
            proof {
                let place = i as int;
                let len = list@.len() as int;
                assert forall|d: u64| divides(d as nat, *n as nat) implies (precedes(
                    list@,
                    before,
                    d as nat,
                    len,
                ) || has_digits(list@, before, d as nat, len) <==> found.contains(d) || d
                    == reading) by {
                    if has_digits(list@, before, d as nat, len) {
                        lemma_digits_unique(list@, *n, before, reading as nat, d as nat);
                    }
                }
                if place < len {
                    assert forall|d: u64| #[trigger]
                        factors@.contains(d) <==> divides(d as nat, *n as nat) && precedes(
                            list@,
                            current_exps@,
                            d as nat,
                            len,
                        ) by {
                        if divides(d as nat, *n as nat) {
                            assert forall|j: int| 0 <= j < len implies digit(list@, d as nat, j)
                                <= list@[j].1 by {
                                lemma_digit_bound(list@, *n, d as nat, j);
                            }
                            lemma_odometer_step(list@, before, current_exps@, d as nat, place, len);
                        }
                    }
                    vstd::set_lib::lemma_len_subset(factors@, divisors(*n));
                } else {
                    assert forall|d: u64| #[trigger]
                        factors@.contains(d) <==> divides(d as nat, *n as nat) by {
                        if divides(d as nat, *n as nat) {
                            assert forall|j: int| 0 <= j < len implies digit(list@, d as nat, j)
                                <= list@[j].1 by {
                                lemma_digit_bound(list@, *n, d as nat, j);
                            }
                            lemma_odometer_low(list@, before, current_exps@, d as nat, len, len);
                        }
                    }
                    assert(factors@ =~= divisors(*n));
                    assert forall|j: int| 0 <= j < list@.len() implies current_exps@[j] == 0 by {}
                    lemma_digits_of_one(list@, *n, current_exps@);
                    lemma_digits_unique(list@, *n, current_exps@, current_factor as nat, 1);
                }
            }
            if current_factor == 1 {
                break;
            }
        }
        Ok(factors)
    }

    /// The primes in ascending order, from the first on, read from this
    /// table.
    pub fn iter_primes(&mut self) -> (r: PrimeIterator<'_>)
        ensures
            r.position() == 0,
            r.table() == old(self)@,
            final(self)@ == (*final(r.pt))@,
    {
        PrimeIterator { pt: self, pos: 0 }
    }

    /// The number of positive divisors of `n`, from its prime
    /// factorization: the product of each exponent plus one.
    pub fn factor_count(&mut self, n: &u64) -> (r: Result<usize, PrimeError>)
        ensures
            match r {
                Ok(c) => *n >= 1 && c == divisor_count(*n),
                Err(e) => if *n == 0 {
                    e == PrimeError::InvalidInput
                } else {
                    e == PrimeError::Overflow && divisor_count(*n) > usize::MAX
                },
            },
            1 <= *n <= usize::MAX ==> r is Ok,
            if *n == 0 {
                final(self)@ == old(self)@
            } else {
                grown_to_bound(old(self)@, final(self)@, isqrt(*n as nat))
            },
    {
        let factors = match self.prime_factorization(n) {
            Ok(f) => f,
            Err(e) => {
                return Err(e);
            },
        };
        let list = entries(&factors);
        let mut count: usize = 1;
        let ghost below: nat = 0;
        proof {
            lemma_divisors_finite(*n);
            lemma_divisor_bounds(*n);
            lemma_unit_tally(true);
        }
        let mut i: usize = 0;
        while i < list.len()
            invariant
                *n >= 1,
                factors@ == factorization(*n),
                lists_entries(list@, factors@),
                i <= list.len(),
                below == if i == 0 {
                    0
                } else {
                    list@[i - 1].0
                },
                below <= *n,
                count == divisor_tally(prime_power_product(factorization(*n), below), true),
                divisor_count(*n) == divisor_tally(*n as nat, true),
                divisor_count(*n) <= *n,
                grown_to_bound(old(self)@, self@, isqrt(*n as nat)),
            decreases list.len() - i,
        {
            let exp = list[i].1;
            let ghost prime = list@[i as int].0;
            proof {
                assert(factors@.contains_key(prime));
                lemma_multiplicity_bound(prime as nat, *n as nat);
                lemma_no_entry_between(factors@, list@, i as int);
                lemma_tally_next_prime(*n, below, prime, true);
                lemma_divides_quotient(prime as nat, *n as nat);
                assert(exp == multiplicity(prime as nat, *n as nat));
                assert(divisor_tally(
                    prime_power_product(factorization(*n), prime as nat),
                    true,
                ) == count * (exp + 1)) by (nonlinear_arith)
                    requires
                        divisor_tally(
                            prime_power_product(factorization(*n), prime as nat),
                            true,
                        ) == (exp + 1) * count,
                ;
            }
            count = match count.checked_mul(exp + 1) {
                Some(c) => c,
                None => {
                    return Err(PrimeError::Overflow);
                },
            };
            proof {
                below = prime as nat;
            }
            i += 1;
        }
        proof {
            lemma_no_entry_above(factors@, list@);
            lemma_tally_last_prime(*n, below);
        }
        Ok(count)
    }

    /// The sum of the positive divisors of `n`, from its prime
    /// factorization: the product, over the prime powers `p^e`, of
    /// `(p^(e+1) - 1) / (p - 1)`.
    pub fn factor_sum(&mut self, n: &u64) -> (r: Result<u64, PrimeError>)
        ensures
            match r {
                Ok(s) => *n >= 1 && s == divisor_sum(*n),
                Err(e) => if *n == 0 {
                    e == PrimeError::InvalidInput
                } else {
                    e == PrimeError::Overflow && divisor_sum(*n) > u64::MAX
                },
            },
            1 <= *n <= u32::MAX ==> r is Ok,
            if *n == 0 {
                final(self)@ == old(self)@
            } else {
                grown_to_bound(old(self)@, final(self)@, isqrt(*n as nat))
            },
    {
        let factors = match self.prime_factorization(n) {
            Ok(f) => f,
            Err(e) => {
                return Err(e);
            },
        };
        let list = entries(&factors);
        let mut sum: u64 = 1;
        let ghost below: nat = 0;
        proof {
            lemma_divisor_sum_is_tally(*n);
            lemma_divisor_bounds(*n);
            assert(*n <= u32::MAX ==> *n * (*n + 1) <= 2 * u64::MAX) by (nonlinear_arith);
            lemma_unit_tally(false);
        }
        let mut i: usize = 0;
        while i < list.len()
            invariant
                *n >= 1,
                factors@ == factorization(*n),
                lists_entries(list@, factors@),
                i <= list.len(),
                below == if i == 0 {
                    0
                } else {
                    list@[i - 1].0
                },
                below <= *n,
                sum == divisor_tally(prime_power_product(factorization(*n), below), false),
                divisor_sum(*n) == divisor_tally(*n as nat, false),
                *n <= u32::MAX ==> divisor_sum(*n) <= u64::MAX,
                grown_to_bound(old(self)@, self@, isqrt(*n as nat)),
            decreases list.len() - i,
        {
            let prime = list[i].0;
            let exp = list[i].1;
            let ghost part = prime_power_product(factorization(*n), below);
            proof {
                assert(factors@.contains_key(prime));
                lemma_multiplicity_bound(prime as nat, *n as nat);
                lemma_no_entry_between(factors@, list@, i as int);
                lemma_tally_next_prime(*n, below, prime, false);
                lemma_divides_quotient(prime as nat, *n as nat);
                lemma_geometric_sum(prime as nat, exp as nat);
                lemma_divisor_tally_positive(part, false);
                let pw = power(prime as nat, exp as nat);
                assert(power(prime as nat, (exp + 1) as nat) == prime * pw);
                assert(prime * pw <= u128::MAX) by (nonlinear_arith)
                    requires
                        prime <= 0xffff_ffff_ffff_ffff,
                        pw <= 0xffff_ffff_ffff_ffff,
                        u128::MAX == 0xffff_ffff_ffff_ffff_ffff_ffff_ffff_ffff,
                ;
                lemma_power_positive(prime as nat, (exp + 1) as nat);
            }
            let top: u128 = int_pow(prime as u128, exp + 1);
            let series: u128 = (top - 1) / (prime as u128 - 1);
            assert(series == geometric_sum(prime as nat, exp as nat));
            let ghost whole = divisor_tally(
                prime_power_product(factorization(*n), prime as nat),
                false,
            );
            assert(whole == series * sum);
            if series > u64::MAX as u128 {
                proof {
                    assert(series * sum >= series) by (nonlinear_arith)
                        requires
                            sum >= 1,
                            series >= 0,
                    ;
                }
                return Err(PrimeError::Overflow);
            }
            proof {
                assert(series * sum <= u128::MAX) by (nonlinear_arith)
                    requires
                        0 <= series <= 0xffff_ffff_ffff_ffff,
                        0 <= sum <= 0xffff_ffff_ffff_ffff,
                        u128::MAX == 0xffff_ffff_ffff_ffff_ffff_ffff_ffff_ffff,
                ;
                assert(series * sum == sum * series) by (nonlinear_arith);
            }
            let product: u128 = sum as u128 * series;
            if product > u64::MAX as u128 {
                return Err(PrimeError::Overflow);
            }
            sum = product as u64;
            proof {
                below = prime as nat;
            }
            i += 1;
        }
        proof {
            lemma_no_entry_above(factors@, list@);
            lemma_tally_last_prime(*n, below);
        }
        Ok(sum)
    }
}

impl Default for PrimeTools {
    /// A table that holds the first two primes, two and three.
    fn default() -> (r: Self)
        ensures
            r@ == seq![2u64, 3u64],
    {
        Self::new()
    }
}

/// The primes in ascending order, read from a table that grows as the
/// sequence advances.
pub struct PrimeIterator<'pt> {
    /// The table that the sequence reads from and grows.
    pub pt: &'pt mut PrimeTools,
    /// The index of the prime that comes next.
    pub pos: usize,
}

impl<'pt> PrimeIterator<'pt> {
    /// The index of the prime that comes next.
    pub open spec fn position(&self) -> usize {
        self.pos
    }

    /// The table that the sequence reads from, as it stands.
    pub open spec fn table(&self) -> Seq<u64> {
        (*self.pt)@
    }

    /// The next prime of the sequence, or `None` where it does not fit in a
    /// `u64`. The table grows until it holds the prime.
    pub fn next(&mut self) -> (r: Option<u64>)
        ensures
            grown_to_index(old(self).table(), final(self).table(), old(self).position()),
            *final(final(self).pt) == *final(old(self).pt),
            match r {
                Some(p) => final(self).position() == old(self).position() + 1 && is_nth_prime(
                    p as nat,
                    old(self).position() as nat,
                ),
                None => final(self).position() == old(self).position() && primes_below(
                    (u64::MAX + 1) as nat,
                ) <= old(self).position(),
            },
    {
        let found = self.pt.get_prime(self.pos);
        if found.is_some() {
            self.pos += 1;
        }
        found
    }
}

} // verus!
