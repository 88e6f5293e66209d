//! The linear (smallest-prime-factor) sieve: one pass that records for every
//! number its least factor, yielding the prime list and an immediate
//! factorisation routine.

use vstd::prelude::*;

verus! {

use crate::primes::{
    is_prime, prime_seq, lemma_composite_has_small_factor, lemma_divisor_of_odd_is_odd,
    lemma_product_is_composite, lemma_least_factor_of_product,
};
use crate::gen_prime::{GenPrime, filter_at_least, lemma_even_not_prime};
use crate::sieve_of_eratosthenes::lemma_divides_transitive;
use vstd::arithmetic::div_mod::{
    lemma_fundamental_div_mod, lemma_fundamental_div_mod_converse_mod, lemma_mod_bound,
};
use core::ops::Range;

/// `f` is the smallest factor of `m` above 1.
pub open spec fn is_least_factor(f: int, m: int) -> bool {
    &&& 2 <= f <= m
    &&& m % f == 0
    &&& forall|d: int| 2 <= d < f ==> #[trigger] (m % d) != 0
}

/// The least factor is prime.
pub proof fn lemma_least_factor_is_prime(f: int, m: int)
    requires
        is_least_factor(f, m),
    ensures
        is_prime(f as nat),
{
    assert forall|d: nat| 2 <= d < f implies #[trigger] ((f as nat) % d) != 0 by {
        if (f as nat) % d == 0 {
            lemma_divides_transitive(d as int, f, m);
            assert(m % (d as int) != 0);
            assert((f as nat) % d == f % (d as int));
        }
    }
}

/// A prime is its own least factor.
pub proof fn lemma_prime_is_least_factor(m: int)
    requires
        m >= 2,
        is_prime(m as nat),
    ensures
        is_least_factor(m, m),
{
    vstd::arithmetic::div_mod::lemma_mod_self_0(m);
    assert forall|d: int| 2 <= d < m implies #[trigger] (m % d) != 0 by {
        assert((m as nat) % (d as nat) != 0);
    }
}

/// The running product of a factor list.
pub open spec fn seq_product(s: Seq<usize>) -> int
    decreases s.len(),
{
    if s.len() == 0 {
        1
    } else {
        seq_product(s.drop_last()) * (s.last() as int)
    }
}

/// The in-progress table: evens hold 2, odd entries hold their least factor
/// once written and the untouched sentinel 2 before that.
pub open spec fn table_partial(t: Seq<usize>, top: int) -> bool {
    &&& forall|m: int| 2 <= m < top && m % 2 == 0 ==> #[trigger] t[m] == 2
    &&& forall|m: int|
        3 <= m < top && m % 2 == 1 ==> #[trigger] t[m] == 2 || is_least_factor(t[m] as int, m)
}

#[derive(Clone, PartialEq, Eq, Hash, Debug)]
/// Generates primes with the linear sieve, keeping the least-factor table.
pub struct LinearSieve {
    /// Generation ceiling used by the next `gen` call.
    pub max: usize,
    /// Least factor of every index below the last generated bound.
    pub smallest_prime_factors: Vec<usize>,
}

impl LinearSieve {
    /// Creates a new sieve with a zero bound and an empty table.
    pub fn new() -> (s: Self)
        ensures
            s.bound() == 0,
            s.smallest_prime_factors@.len() == 0,
    {
        LinearSieve { max: 0, smallest_prime_factors: Vec::new() }
    }

    /// Hands out the least-factor table of the last generation.
    pub fn smallest_prime_factors(&mut self) -> (r: &mut Vec<usize>)
        ensures
            *r == old(self).smallest_prime_factors,
            *final(self) == (LinearSieve {
                smallest_prime_factors: *final(r),
                ..*old(self)
            }),
    {
        &mut self.smallest_prime_factors
    }

    /// The least-factor decomposition of `n`: prime factors in non-decreasing
    /// order whose product restores `n`; empty below 2.
    pub fn prime_factorization(n: usize) -> (r: Vec<usize>)
        requires
            n < usize::MAX,
        ensures
            n < 2 ==> r@.len() == 0,
            n >= 2 ==> seq_product(r@) == n as int,
            forall|i: int| 0 <= i < r@.len() ==> is_prime(#[trigger] r@[i] as nat),
            forall|i: int, j: int| 0 <= i <= j < r@.len() ==> r@[i] <= r@[j],
    {
        let mut r: Vec<usize> = Vec::new();
        if n < 2 {
            return r;
        }
        let mut sieve: LinearSieve = LinearSieve::new();
        let primes: Vec<usize> = sieve.gen_range(0..n + 1);
        let mut cur: usize = n;
        while cur != 1
            invariant
                n >= 2,
                1 <= cur <= n,
                sieve.smallest_prime_factors@.len() == n + 1,
                forall|m: int|
                    2 <= m < n + 1 ==> is_least_factor(
                        #[trigger] sieve.smallest_prime_factors@[m] as int, m),
                seq_product(r@) * cur == n as int,
                forall|i: int| 0 <= i < r@.len() ==> is_prime(#[trigger] r@[i] as nat),
                forall|i: int, j: int| 0 <= i <= j < r@.len() ==> r@[i] <= r@[j],
                forall|i: int, d: int|
                    0 <= i < r@.len() && 2 <= d && #[trigger] (cur as int % d) == 0
                        ==> #[trigger] r@[i] <= d,
            decreases cur,
        {
            let f: usize = sieve.smallest_prime_factors[cur];
            proof {
                assert(is_least_factor(f as int, cur as int));
                lemma_least_factor_is_prime(f as int, cur as int);
                lemma_fundamental_div_mod(cur as int, f as int);
            }
            let ghost rold: Seq<usize> = r@;
            let ghost curold: usize = cur;
            r.push(f);
            cur = cur / f;
            proof {
                assert(r@ == rold.push(f));
                assert(r@.drop_last() == rold);
                assert(seq_product(r@) == seq_product(rold) * (f as int));
                assert(curold as int == (f as int) * (cur as int));
                assert(seq_product(rold) * (f as int) * (cur as int) == seq_product(rold) * (
                curold as int)) by (nonlinear_arith)
                    requires curold as int == (f as int) * (cur as int);
                assert(cur >= 1) by (nonlinear_arith)
                    requires curold as int == (f as int) * (cur as int), curold >= 2, f >= 2;
                assert(cur < curold) by (nonlinear_arith)
                    requires curold as int == (f as int) * (cur as int), cur >= 1, f >= 2;
                // Divisors of the quotient divide the old value, so later
                // factors cannot shrink.
                assert forall|i: int, d: int|
                    0 <= i < r@.len() && 2 <= d && #[trigger] (cur as int % d) == 0
                    implies #[trigger] r@[i] <= d by {
                    if cur == 1 {
                        vstd::arithmetic::div_mod::lemma_small_mod(1, d as nat);
                    } else {
                        lemma_fundamental_div_mod(cur as int, d);
                        assert(curold as int == ((f as int) * ((cur as int) / d)) * d)
                            by (nonlinear_arith)
                            requires
                                curold as int == (f as int) * (cur as int),
                                cur as int == d * ((cur as int) / d),
                        ;
                        lemma_fundamental_div_mod_converse_mod(
                            curold as int, d, (f as int) * ((cur as int) / d), 0);
                        if i < rold.len() {
                            assert(rold[i] <= d);
                        } else {
                            assert(r@[i] == f);
                            assert(d >= f || (curold as int) % d != 0);
                        }
                    }
                }
            }
        }
        proof {
            assert(seq_product(r@) == n as int);
        }
        r
    }
}


/// A product of primes is at least 2 once the list is nonempty.
pub proof fn lemma_prime_product_at_least_two(r: Seq<usize>)
    requires
        r.len() >= 1,
        forall|i: int| 0 <= i < r.len() ==> is_prime(#[trigger] r[i] as nat),
    ensures
        seq_product(r) >= 2,
    decreases r.len(),
{
    let last: int = r.last() as int;
    assert(is_prime(r[r.len() - 1] as nat));
    if r.len() == 1 {
        assert(seq_product(r.drop_last()) == 1);
    } else {
        lemma_prime_product_at_least_two(r.drop_last());
        assert(forall|i: int|
            0 <= i < r.drop_last().len() ==> is_prime(#[trigger] r.drop_last()[i] as nat));
    }
    assert(seq_product(r) >= 2) by (nonlinear_arith)
        requires
            seq_product(r) == seq_product(r.drop_last()) * last,
            seq_product(r.drop_last()) >= 1,
            last >= 2,
    ;
}

/// A list of primes whose product is itself prime holds exactly that prime:
/// the factorisation of a prime is the one-element list.
pub proof fn lemma_factorization_of_prime(r: Seq<usize>, n: nat)
    requires
        is_prime(n),
        seq_product(r) == n,
        forall|i: int| 0 <= i < r.len() ==> is_prime(#[trigger] r[i] as nat),
    ensures
        r.len() == 1,
        r[0] as nat == n,
{
    if r.len() == 0 {
        assert(seq_product(r) == 1);
    } else if r.len() >= 2 {
        let a: int = seq_product(r.drop_last());
        let b: int = r.last() as int;
        lemma_prime_product_at_least_two(r.drop_last());
        assert(is_prime(r[r.len() - 1] as nat));
        crate::primes::lemma_product_is_composite(a as nat, b as nat);
        assert((a as nat) * (b as nat) == n) by (nonlinear_arith)
            requires a * b == n, a >= 2, b >= 2;
    } else {
        assert(seq_product(r.drop_last()) == 1);
        assert(seq_product(r) == 1 * (r.last() as int));
    }
}

impl GenPrime for LinearSieve {
    open spec fn bound(&self) -> nat {
        self.max as nat
    }

    fn gen(&mut self) -> (r: Vec<usize>)
        ensures
            prime_seq(r@, 0, old(self).max as nat),
            old(self).max >= 3 ==> final(self).smallest_prime_factors@.len() == old(
                self).max as int && final(self).smallest_prime_factors@[0] == 0 && final(
                self).smallest_prime_factors@[1] == 0 && forall|m: int|
                2 <= m < old(self).max ==> is_least_factor(
                    #[trigger] final(self).smallest_prime_factors@[m] as int, m),
    {
        let max: usize = self.max;
        if max <= 2 {
            proof {
                assert forall|p: usize| is_prime(p as nat) && (p as nat) < max as nat && 0 <= p
                    implies Seq::<usize>::empty().contains(p) by {
                    assert(p as nat >= 2);
                }
            }
            let r: Vec<usize> = Vec::new();
            return r;
        }
        let mut spf: Vec<usize> = Vec::new();
        while spf.len() < max
            invariant
                spf@.len() <= max,
                forall|p: int| 0 <= p < spf@.len() ==> spf@[p] == 2,
            decreases max - spf@.len(),
        {
            spf.push(2);
        }
        spf.set(0, 0);
        spf.set(1, 0);
        let mut primes: Vec<usize> = Vec::new();
        primes.push(2);
        proof {
            assert(is_prime(2));
            assert forall|m: int| 2 <= m < max && m % 2 == 0 implies #[trigger] spf@[m] == 2 by {}
            assert forall|p: usize| is_prime(p as nat) && (p as int) < 3
                implies primes@.contains(p) by {
                assert(p as nat >= 2);
                assert(p == 2);
                assert(primes@[0] == p);
            }
        }
        let mut i: usize = 3;
        proof {
            assert forall|m: int, f: int, c: int|
                3 <= m < max && m % 2 == 1 && is_least_factor(f, m) && m == #[trigger] (f * c)
                    && c < 3 && !is_prime(m as nat)
                implies #[trigger] spf@[m] != 2 by {
                if c <= 0 {
                    assert(f * c <= 0) by (nonlinear_arith)
                        requires c <= 0, f >= 2;
                } else if c == 1 {
                    assert(m == f * 1);
                    assert(m == f);
                    assert(is_prime(m as nat));
                } else {
                    assert(c == 2);
                    lemma_fundamental_div_mod_converse_mod(m, 2, f, 1 - 1);
                    assert(m == f * 2);
                    assert(m == 2 * f + 0) by (nonlinear_arith)
                        requires m == f * 2;
                    lemma_fundamental_div_mod_converse_mod(m, 2, f, 0);
                }
            }
        }
        while i < max
            invariant
                3 <= max,
                spf@.len() == max as int,
                3 <= i,
                i % 2 == 1,
                prime_seq(primes@, 0, i as nat),
                forall|k: int| 0 <= k < primes@.len() ==> (#[trigger] primes@[k] as int) < max,
                primes@.len() >= 1,
                primes@[0] == 2,
                spf@[0] == 0,
                spf@[1] == 0,
                table_partial(spf@, max as int),
                // soundness: an odd entry off the sentinel is composite
                forall|m: int|
                    3 <= m < max && m % 2 == 1 && #[trigger] spf@[m] != 2 ==> !is_prime(m as nat)
                        || spf@[m] == m,
                // primes found so far are recorded as their own factor
                forall|m: int|
                    3 <= m < i && m % 2 == 1 && is_prime(m as nat) && m < max ==> #[trigger] spf@[m] == m,
                // primes not yet reached still hold the sentinel
                forall|m: int|
                    i <= m < max && m % 2 == 1 && is_prime(m as nat) ==> #[trigger] spf@[m] == 2,
                // completeness: odd composites whose cofactor is past are marked
                forall|m: int, f: int, c: int|
                    3 <= m < max && m % 2 == 1 && is_least_factor(f, m) && m == #[trigger] (f * c) && c < i
                        && !is_prime(m as nat) ==> #[trigger] spf@[m] != 2,
            decreases max + 2 - i,
        {
            if spf[i] == 2 {
                proof {
                    // Unreached sentinel plus completeness means i is prime.
                    assert(is_prime(i as nat)) by {
                        if !is_prime(i as nat) {
                            lemma_composite_has_small_factor(i as nat);
                            let a = choose|a: nat|
                                2 <= a < i as nat && a * a <= i as nat && #[trigger] ((
                                i as nat) % a) == 0;
                            lemma_divisor_of_odd_is_odd(a, i as nat);
                            // take the least factor of i
                            let f = least_factor_of(i as int);
                            lemma_least_factor_exists(i as int);
                            let c = i as int / f;
                            lemma_fundamental_div_mod(i as int, f);
                            lemma_least_factor_is_prime(f, i as int);
                            assert(f >= 3) by {
                                if f == 2 {
                                    lemma_divisor_of_odd_is_odd(2, i as nat);
                                }
                            }
                            assert(c >= 2) by {
                                if c <= 1 {
                                    if c == 1 {
                                        assert(i as int == f * 1);
                                        assert(i as int == f);
                                        assert(is_prime(i as nat));
                                    } else {
                                        assert(f * c <= 0) by (nonlinear_arith)
                                            requires c <= 0, f >= 2;
                                    }
                                }
                            }
                            assert(c < i) by (nonlinear_arith)
                                requires i as int == f * c, f >= 3, c >= 1;
                            assert(spf@[i as int] != 2);
                        }
                    }
                }
                let ghost pprev: Seq<usize> = primes@;
                spf.set(i, i);
                primes.push(i);
                proof {
                    lemma_prime_is_least_factor(i as int);
                    assert(primes@ == pprev.push(i));
                    assert forall|p: usize| is_prime(p as nat) && (p as int) < i + 2
                        implies primes@.contains(p) by {
                        if (p as int) < i as int {
                            assert(pprev.contains(p));
                            let ii = choose|ii: int|
                                0 <= ii < pprev.len() && pprev[ii] == p;
                            assert(primes@[ii] == p);
                        } else if p as int == i as int {
                            assert(primes@[primes@.len() - 1] == p);
                        } else {
                            assert(p as int == i + 1);
                            assert(p as nat % 2 == 0) by {
                                lemma_fundamental_div_mod(i as int + 1, 2);
                            }
                            lemma_even_not_prime(p as nat);
                        }
                    }
                    assert forall|ii: int, jj: int| 0 <= ii < jj < primes@.len()
                        implies primes@[ii] < primes@[jj] by {
                        if jj == primes@.len() - 1 {
                            assert(pprev[ii] == primes@[ii]);
                            assert((primes@[ii] as nat) < i as nat);
                        }
                    }
                }
            }
            // Mark i * p for the known primes p up to the first divisor of i.
            let ghost dfirst: int = least_factor_of(i as int);
            proof {
                lemma_least_factor_exists(i as int);
                lemma_least_factor_is_prime(dfirst, i as int);
                assert(dfirst >= 3) by {
                    if dfirst == 2 {
                        lemma_divisor_of_odd_is_odd(2, i as nat);
                    }
                }
                assert(primes@.contains((dfirst as usize))) by {
                    assert(is_prime((dfirst as usize) as nat));
                    assert(dfirst <= i as int);
                    if dfirst < i as int {
                    } else {
                        assert(dfirst == i as int);
                    }
                    assert(((dfirst as usize) as nat) < ((i + 1) as nat));
                    assert(prime_seq(primes@, 0, (i + 1) as nat)) by {
                        assert forall|p: usize|
                            is_prime(p as nat) && 0 <= p && (p as nat) < (i + 1) as nat
                            implies primes@.contains(p) by {
                            if (p as int) <= i as int {
                                if p as int == i as int {
                                    assert(primes@[primes@.len() - 1] == p);
                                }
                            }
                        }
                    }
                }
            }
            let ghost jd: int = choose|jd: int|
                0 <= jd < primes@.len() && primes@[jd] == dfirst as usize;
            let plen: usize = primes.len();
            let mut j: usize = 0;
            loop
                invariant
                    3 <= max,
                    spf@.len() == max as int,
                    3 <= i < max,
                    i % 2 == 1,
                    prime_seq(primes@, 0, (i + 1) as nat),
                    is_least_factor(dfirst, i as int),
                    plen as nat == primes@.len(),
                    spf@[0] == 0,
                    spf@[1] == 0,
                    0 <= jd < primes@.len(),
                    primes@[jd] == dfirst as usize,
                    0 <= j <= jd,
                    forall|jj: int| 0 <= jj < j ==> (i as int) % ((#[trigger] primes@[jj]) as int) != 0,
                    table_partial(spf@, max as int),
                    forall|m: int|
                        3 <= m < max && m % 2 == 1 && #[trigger] spf@[m] != 2 ==> !is_prime(
                        m as nat) || spf@[m] == m,
                    forall|m: int|
                        3 <= m <= i && m % 2 == 1 && is_prime(m as nat) && m < max
                            ==> #[trigger] spf@[m] == m,
                    forall|m: int|
                        i < m < max && m % 2 == 1 && is_prime(m as nat) ==> #[trigger] spf@[m]
                            == 2,
                    forall|m: int, f: int, c: int|
                        3 <= m < max && m % 2 == 1 && is_least_factor(f, m) && m == #[trigger] (f
                            * c) && c < i && !is_prime(m as nat) ==> #[trigger] spf@[m] != 2,
                    // progress: already-visited primes have their product marked
                    forall|jj: int|
                        0 <= jj < j && (i as int) * ((#[trigger] primes@[jj]) as int) < max
                            ==> spf@[(i as int) * (primes@[jj] as int)] == primes@[jj],
                ensures
                    spf@.len() == max as int,
                    spf@[0] == 0,
                    spf@[1] == 0,
                    table_partial(spf@, max as int),
                    forall|m: int|
                        3 <= m < max && m % 2 == 1 && #[trigger] spf@[m] != 2 ==> !is_prime(
                        m as nat) || spf@[m] == m,
                    forall|m: int|
                        3 <= m <= i && m % 2 == 1 && is_prime(m as nat) && m < max
                            ==> #[trigger] spf@[m] == m,
                    forall|m: int|
                        i < m < max && m % 2 == 1 && is_prime(m as nat) ==> #[trigger] spf@[m]
                            == 2,
                    forall|m: int, f: int, c: int|
                        3 <= m < max && m % 2 == 1 && is_least_factor(f, m) && m == #[trigger] (f
                            * c) && c < i && !is_prime(m as nat) ==> #[trigger] spf@[m] != 2,
                    // the whole reachable prefix of primes is marked
                    forall|f: int|
                        2 <= f <= dfirst && is_prime(f as nat) && #[trigger] ((i as int) * f)
                            < max ==> spf@[(i as int) * f] == f,
                decreases jd - j,
            {
                let pj: usize = primes[j];
                proof {
                    assert(is_prime(pj as nat));
                    assert(pj <= dfirst) by {
                        if (pj as int) > dfirst {
                            assert(primes@[jd] < primes@[j as int] || jd == j);
                        }
                    }
                }
                let prod_ok: bool = {
                    proof {
                        assert((i as u128) * (pj as u128) < 0xffff_ffff_ffff_ffff_ffff_ffff_ffff_ffff)
                            by (nonlinear_arith)
                            requires
                                (i as u128) <= 0xffff_ffff_ffff_ffff,
                                (pj as u128) <= 0xffff_ffff_ffff_ffff,
                        ;
                    }
                    (i as u128) * (pj as u128) < max as u128
                };
                if !prod_ok {
                    proof {
                        // Larger primes only increase the product.
                        assert forall|f: int|
                            2 <= f <= dfirst && is_prime(f as nat) && #[trigger] ((i as int) * f)
                                < max
                            implies spf@[(i as int) * f] == f by {
                            assert(((f as usize) as nat) < ((i + 1) as nat)) by {
                                assert(f <= dfirst <= i as int);
                            }
                            assert(primes@.contains((f as usize)));
                            let jf = choose|jf: int|
                                0 <= jf < primes@.len() && primes@[jf] == f as usize;
                            assert(jf < j) by {
                                if jf >= j {
                                    assert(primes@[j as int] <= primes@[jf] || jf == j);
                                    assert((i as int) * (primes@[j as int] as int) <= (i as int)
                                        * f) by (nonlinear_arith)
                                        requires
                                            (primes@[j as int] as int) <= f,
                                            i >= 1,
                                    ;
                                }
                            }
                        }
                    }
                    break;
                }
                let m: usize = i * pj;
                let ghost sold: Seq<usize> = spf@;
                spf.set(m, pj);
                let divides: bool = i % pj == 0;
                proof {
                    // The written value is the least factor of the product.
                    assert(is_least_factor(pj as int, m as int)) by {
                        assert forall|q: int|
                            2 <= q && is_prime(q as nat) && #[trigger] ((i as int) % q) == 0
                            implies q >= pj as int by {
                            if q < pj as int {
                                assert(((q as usize) as nat) < ((i + 1) as nat));
                                assert(primes@.contains((q as usize)));
                                let jq = choose|jq: int|
                                    0 <= jq < primes@.len() && primes@[jq] == q as usize;
                                assert(jq < j) by {
                                    if jq >= j {
                                        assert(primes@[j as int] <= primes@[jq] || jq == j);
                                    }
                                }
                            }
                        }
                        lemma_least_factor_of_product(pj as int, i as int);
                        assert(m as int == (pj as int) * (i as int)) by (nonlinear_arith)
                            requires m as int == (i as int) * (pj as int);
                        assert(2 <= pj as int <= m as int) by (nonlinear_arith)
                            requires m as int == (i as int) * (pj as int), i >= 3, pj >= 2;
                    }
                    // The product is composite, so soundness survives.
                    lemma_product_is_composite(i as nat, pj as nat);
                    assert((i as nat) * (pj as nat) == m as nat);
                    assert(!is_prime(m as nat));
                    assert(m >= 3);
                    // Parity of the written slot.
                    assert(m % 2 == (pj * 1) % 2) by {
                        lemma_fundamental_div_mod(i as int, 2);
                        if pj % 2 == 0 {
                            lemma_fundamental_div_mod(pj as int, 2);
                            assert(m as int == 2 * ((pj / 2) as int * (i as int)))
                                by (nonlinear_arith)
                                requires
                                    m as int == (i as int) * (pj as int),
                                    pj as int == 2 * ((pj / 2) as int),
                            ;
                            lemma_fundamental_div_mod_converse_mod(
                                m as int, 2, (pj / 2) as int * (i as int), 0);
                        } else {
                            lemma_fundamental_div_mod(pj as int, 2);
                            assert(m as int == 2 * ((i / 2) as int * (pj as int) + (pj
                                / 2) as int) + 1) by (nonlinear_arith)
                                requires
                                    m as int == (i as int) * (pj as int),
                                    i as int == 2 * ((i / 2) as int) + 1,
                                    pj as int == 2 * ((pj / 2) as int) + 1,
                            ;
                            lemma_fundamental_div_mod_converse_mod(
                                m as int, 2, (i / 2) as int * (pj as int) + (pj / 2) as int, 1);
                        }
                    }
                    // All the table facts survive a write of a least factor.
                    assert forall|m2: int| 2 <= m2 < max && m2 % 2 == 0
                        implies #[trigger] spf@[m2] == 2 by {
                        if m2 != m as int {
                            assert(spf@[m2] == sold[m2]);
                        } else {
                            assert(pj == 2) by {
                                if pj % 2 == 1 {
                                    assert(m % 2 == 1);
                                }
                            }
                        }
                    }
                    assert forall|m2: int| 3 <= m2 < max && m2 % 2 == 1
                        implies #[trigger] spf@[m2] == 2 || is_least_factor(spf@[m2] as int, m2) by {
                        if m2 != m as int {
                            assert(spf@[m2] == sold[m2]);
                        }
                    }
                    assert forall|m2: int|
                        3 <= m2 < max && m2 % 2 == 1 && #[trigger] spf@[m2] != 2
                        implies !is_prime(m2 as nat) || spf@[m2] == m2 by {
                        if m2 != m as int {
                            assert(spf@[m2] == sold[m2]);
                        }
                    }
                    assert forall|m2: int|
                        3 <= m2 <= i && m2 % 2 == 1 && is_prime(m2 as nat) && m2 < max
                        implies #[trigger] spf@[m2] == m2 by {
                        if m2 != m as int {
                            assert(spf@[m2] == sold[m2]);
                        } else {
                            assert(!is_prime(m2 as nat));
                        }
                    }
                    assert forall|m2: int|
                        i < m2 < max && m2 % 2 == 1 && is_prime(m2 as nat)
                        implies #[trigger] spf@[m2] == 2 by {
                        if m2 != m as int {
                            assert(spf@[m2] == sold[m2]);
                        } else {
                            assert(!is_prime(m2 as nat));
                        }
                    }
                    assert forall|m2: int, f: int, c: int|
                        3 <= m2 < max && m2 % 2 == 1 && is_least_factor(f, m2) && m2
                            == #[trigger] (f * c) && c < i && !is_prime(m2 as nat)
                        implies #[trigger] spf@[m2] != 2 by {
                        if m2 != m as int {
                            assert(spf@[m2] == sold[m2]);
                        } else {
                            assert(spf@[m2] == pj);
                            assert(pj >= 3) by {
                                if pj == 2 {
                                    assert(m % 2 == 0);
                                }
                            }
                        }
                    }
                    assert forall|jj: int|
                        0 <= jj < j + 1 && (i as int) * ((#[trigger] primes@[jj]) as int) < max
                        implies spf@[(i as int) * (primes@[jj] as int)] == primes@[jj] by {
                        if jj < j {
                            let mjj: int = (i as int) * (primes@[jj] as int);
                            assert(sold[mjj] == primes@[jj]);
                            if mjj != m as int {
                                assert(spf@[mjj] == sold[mjj]);
                            } else {
                                assert(primes@[jj] < primes@[j as int] && (i as int)
                                    * (primes@[jj] as int) < (i as int)
                                    * (primes@[j as int] as int)) by (nonlinear_arith)
                                    requires
                                        (primes@[jj] as int) < (primes@[j as int] as int),
                                        i >= 3,
                                        primes@[jj] < primes@[j as int],
                                ;
                            }
                        }
                    }
                }
                if divides {
                    proof {
                        // pj divides i and nothing smaller does: pj == dfirst.
                        assert(pj as int == dfirst) by {
                            if (pj as int) < dfirst {
                                assert((i as int) % (pj as int) != 0);
                            }
                        }
                        assert forall|f: int|
                            2 <= f <= dfirst && is_prime(f as nat) && #[trigger] ((i as int) * f)
                                < max
                            implies spf@[(i as int) * f] == f by {
                            assert(((f as usize) as nat) < ((i + 1) as nat));
                            assert(primes@.contains((f as usize)));
                            let jf = choose|jf: int|
                                0 <= jf < primes@.len() && primes@[jf] == f as usize;
                            assert(jf <= j) by {
                                if jf > j {
                                    assert(primes@[j as int] < primes@[jf]);
                                }
                            }
                        }
                    }
                    break;
                }
                proof {
                    assert(j < jd) by {
                        if j == jd {
                            assert(pj == primes@[jd]);
                            assert(pj as int == dfirst);
                            assert((i as int) % dfirst == 0);
                            assert(i % pj == 0);
                        }
                    }
                }
                j = j + 1;
            }
            i = i + 2;
            proof {
                assert forall|m: int, f: int, c: int|
                    3 <= m < max && m % 2 == 1 && is_least_factor(f, m) && m == #[trigger] (f
                        * c) && c < i && !is_prime(m as nat)
                    implies #[trigger] spf@[m] != 2 by {
                    if c >= i - 2 {
                        // c == i - 2 is the round just finished; the cofactor
                        // of an odd number is odd.
                        assert(c % 2 == 1) by {
                            if c % 2 == 0 {
                                lemma_fundamental_div_mod(c, 2);
                                assert(m == 2 * (f * (c / 2))) by (nonlinear_arith)
                                    requires m == f * c, c == 2 * (c / 2);
                                lemma_fundamental_div_mod_converse_mod(m, 2, f * (c / 2), 0);
                            }
                        }
                        assert(c == i - 2) by {
                            if c == i - 1 {
                                lemma_fundamental_div_mod(i as int - 1, 2);
                            }
                        }
                        lemma_least_factor_is_prime(f, m);
                        assert(f <= dfirst) by {
                            if f > dfirst {
                                // dfirst divides c, and c divides m: so the
                                // least factor of m is at most dfirst.
                                assert(m == f * (i as int - 2));
                                assert(m == (i as int - 2) * f) by (nonlinear_arith)
                                    requires m == f * (i as int - 2);
                                lemma_fundamental_div_mod_converse_mod(m, i as int - 2, f, 0);
                                lemma_divides_transitive(dfirst, i as int - 2, m);
                            }
                        }
                        assert((i as int - 2) * f == m) by (nonlinear_arith)
                            requires m == f * c, c == i - 2;
                        assert(spf@[m] == f);
                        assert(f != 2) by {
                            if f == 2 {
                                lemma_divisor_of_odd_is_odd(2, m as nat);
                            }
                        }
                    }
                }
                assert forall|p: usize| is_prime(p as nat) && 0 <= p && (p as nat) < i as nat
                    implies primes@.contains(p) by {
                    if (p as int) < i - 2 {
                    } else if p as int == i - 2 {
                    } else {
                        assert(p as int == i - 1);
                        assert(p as nat % 2 == 0) by {
                            lemma_fundamental_div_mod(i as int - 1, 2);
                        }
                        lemma_even_not_prime(p as nat);
                    }
                }
            }
        }
        self.smallest_prime_factors = spf;
        proof {
            // Every entry of the finished table is a least factor.
            assert forall|m: int| 2 <= m < max
                implies is_least_factor(
                    #[trigger] self.smallest_prime_factors@[m] as int, m) by {
                if m % 2 == 0 {
                    assert(self.smallest_prime_factors@[m] == 2);
                    lemma_fundamental_div_mod_converse_mod(m, 2, m / 2, 0);
                    lemma_fundamental_div_mod(m, 2);
                } else if m >= 3 {
                    if is_prime(m as nat) {
                        assert(self.smallest_prime_factors@[m] == m);
                        lemma_prime_is_least_factor(m);
                    } else {
                        let f = least_factor_of(m);
                        lemma_least_factor_exists(m);
                        let c = m / f;
                        lemma_fundamental_div_mod(m, f);
                        lemma_least_factor_is_prime(f, m);
                        assert(f >= 3) by {
                            if f == 2 {
                                lemma_divisor_of_odd_is_odd(2, m as nat);
                            }
                        }
                        assert(m == f * c);
                        assert(c >= 2) by {
                            if c <= 1 {
                                if c == 1 {
                                    assert(m == f * 1);
                                    assert(m == f);
                                    assert(is_prime(m as nat));
                                } else {
                                    assert(f * c <= 0) by (nonlinear_arith)
                                        requires c <= 0, f >= 2;
                                }
                            }
                        }
                        assert(c < m) by (nonlinear_arith)
                            requires m == f * c, f >= 3, c >= 1;
                        assert(c < i);
                        assert(self.smallest_prime_factors@[m] != 2);
                        assert(is_least_factor(self.smallest_prime_factors@[m] as int, m));
                    }
                }
            }
            // The final prime list covers everything below max.
            assert forall|p: usize| is_prime(p as nat) && 0 <= p && (p as nat) < max as nat
                implies primes@.contains(p) by {
                assert((p as nat) < i as nat);
            }
        }
        primes
    }

    fn gen_range(&mut self, range: Range<usize>) -> (r: Vec<usize>)
        ensures
            prime_seq(r@, range.start as nat, range.end as nat),
            range.end >= 3 ==> final(self).smallest_prime_factors@.len() == range.end as int
                && final(self).smallest_prime_factors@[0] == 0 && final(
                self).smallest_prime_factors@[1] == 0 && forall|m: int|
                2 <= m < range.end ==> is_least_factor(
                    #[trigger] final(self).smallest_prime_factors@[m] as int, m),
    {
        self.max = range.end;
        let v: Vec<usize> = self.gen();
        let r: Vec<usize> = filter_at_least(&v, range.start);
        proof {
            assert forall|p: usize|
                is_prime(p as nat) && range.start as nat <= p as nat && (p as nat) < range.end as nat
                implies r@.contains(p) by {
                assert(v@.contains(p));
                let kk = choose|kk: int| 0 <= kk < v@.len() && v@[kk] == p;
                assert(v@[kk] >= range.start);
            }
            assert forall|i: int| 0 <= i < r@.len()
                implies is_prime(#[trigger] r@[i] as nat) && range.start <= r@[i] && (r@[i] as nat)
                    < range.end as nat by {
                assert(v@.contains(r@[i]));
                let kk = choose|kk: int| 0 <= kk < v@.len() && v@[kk] == r@[i];
            }
        }
        r
    }
}

/// The least factor of `m`, as a chosen witness.
pub open spec fn least_factor_of(m: int) -> int {
    choose|f: int| is_least_factor(f, m)
}

/// Every number of at least 2 has a least factor.
pub proof fn lemma_least_factor_exists(m: int)
    requires
        m >= 2,
    ensures
        is_least_factor(least_factor_of(m), m),
    decreases m,
{
    if is_prime(m as nat) {
        lemma_prime_is_least_factor(m);
        assert(is_least_factor(m, m));
    } else {
        let d = choose|d: nat| 2 <= d < m && #[trigger] ((m as nat) % d) == 0;
        // walk down to the smallest divisor
        lemma_smallest_divisor_below(m, d as int);
    }
}

/// Below any divisor there is a least one.
proof fn lemma_smallest_divisor_below(m: int, d: int)
    requires
        m >= 2,
        2 <= d <= m,
        m % d == 0,
    ensures
        is_least_factor(least_factor_of(m), m),
    decreases d,
{
    if forall|e: int| 2 <= e < d ==> #[trigger] (m % e) != 0 {
        assert(is_least_factor(d, m));
        assert(is_least_factor(least_factor_of(m), m)) by {
            assert(exists|f: int| is_least_factor(f, m));
        }
    } else {
        let e = choose|e: int| 2 <= e < d && #[trigger] (m % e) == 0;
        lemma_smallest_divisor_below(m, e);
    }
}

} // verus!
