//! The common face of the sieve strategies: a `GenPrime` generator produces
//! the primes below a bound, and a shared range adapter narrows the result to
//! a half-open window. The trait contract carries what every strategy
//! guarantees; each implementation strengthens it to the exact prime
//! characterisation it proves.

use vstd::prelude::*;

verus! {

use crate::primes::{is_prime, prime_seq};
use vstd::arithmetic::div_mod::{lemma_fundamental_div_mod, lemma_fundamental_div_mod_converse_mod};
use core::ops::Range;

/// A prime generator over a stored bound.
pub trait GenPrime: Sized {
    /// The generation ceiling the next `gen` call will use.
    spec fn bound(&self) -> nat;

    /// Produces primes strictly below the stored bound, strictly increasing.
    fn gen(&mut self) -> (r: Vec<usize>)
        ensures
            forall|i: int, j: int| 0 <= i < j < r@.len() ==> r@[i] < r@[j],
            forall|i: int|
                0 <= i < r@.len() ==> 2 <= #[trigger] r@[i] && (r@[i] as nat) < old(self).bound(),
    ;

    /// Produces the primes in `[range.start, range.end)`, strictly increasing.
    fn gen_range(&mut self, range: Range<usize>) -> (r: Vec<usize>)
        ensures
            forall|i: int, j: int| 0 <= i < j < r@.len() ==> r@[i] < r@[j],
            forall|i: int|
                0 <= i < r@.len() ==> 2 <= #[trigger] r@[i] && range.start <= r@[i] && r@[i]
                    < range.end,
    ;
}

/// Keeps, in order, the elements of a strictly increasing sequence that reach
/// the lower cutoff. This is the shared range adapter of every strategy.
pub fn filter_at_least(v: &Vec<usize>, min: usize) -> (r: Vec<usize>)
    requires
        forall|i: int, j: int| 0 <= i < j < v@.len() ==> v@[i] < v@[j],
    ensures
        forall|i: int, j: int| 0 <= i < j < r@.len() ==> r@[i] < r@[j],
        forall|i: int|
            0 <= i < r@.len() ==> #[trigger] r@[i] >= min && v@.contains(r@[i]),
        forall|k: int| 0 <= k < v@.len() && #[trigger] v@[k] >= min ==> r@.contains(v@[k]),
{
    let mut r: Vec<usize> = Vec::new();
    let mut k: usize = 0;
    while k < v.len()
        invariant
            k <= v@.len(),
            forall|i: int, j: int| 0 <= i < j < v@.len() ==> v@[i] < v@[j],
            forall|i: int, j: int| 0 <= i < j < r@.len() ==> r@[i] < r@[j],
            forall|i: int| 0 <= i < r@.len() ==> #[trigger] r@[i] >= min && v@.contains(r@[i]),
            forall|i: int|
                0 <= i < r@.len() ==> exists|kk: int| 0 <= kk < k && v@[kk] == #[trigger] r@[i],
            forall|kk: int| 0 <= kk < k && #[trigger] v@[kk] >= min ==> r@.contains(v@[kk]),
        decreases v@.len() - k,
    {
        let x: usize = v[k];
        if x >= min {
            let ghost rold: Seq<usize> = r@;
            proof {
                assert forall|i: int| 0 <= i < rold.len() implies rold[i] < x by {
                    let kk = choose|kk: int| 0 <= kk < k && v@[kk] == rold[i];
                }
                assert(v@.contains(x)) by {
                    assert(v@[k as int] == x);
                }
            }
            r.push(x);
            proof {
                assert(r@ == rold.push(x));
                assert forall|kk: int| 0 <= kk < k + 1 && #[trigger] v@[kk] >= min
                    implies r@.contains(v@[kk]) by {
                    if kk < k {
                        let ii = choose|ii: int| 0 <= ii < rold.len() && rold[ii] == v@[kk];
                        assert(r@[ii] == v@[kk]);
                    } else {
                        assert(r@[rold.len() as int] == x);
                    }
                }
                assert forall|i: int| 0 <= i < r@.len()
                    implies exists|kk: int| 0 <= kk < k + 1 && v@[kk] == #[trigger] r@[i] by {
                    if i < rold.len() {
                        let kk = choose|kk: int| 0 <= kk < k && v@[kk] == rold[i];
                    } else {
                        assert(v@[k as int] == r@[i]);
                    }
                }
            }
        }
        k = k + 1;
    }
    r
}

/// The byte sieve over odd candidates decides primality: for odd `c` in
/// `[3, max)`, entry `c / 2` is zero exactly when `c` is prime.
pub open spec fn sieve_decides(s: Seq<u8>, max: int) -> bool {
    forall|c: int|
        3 <= c < max && c % 2 == 1 ==> (#[trigger] s[c / 2] == 0 <==> is_prime(c as nat))
}

/// An even number above 2 is not prime.
pub proof fn lemma_even_not_prime(c: nat)
    requires
        c > 2,
        c % 2 == 0,
    ensures
        !is_prime(c),
{
    assert(2 <= 2 < c && c % 2 == 0);
}

/// Collects `2` and the odd survivors of a deciding sieve, producing exactly
/// the ordered primes below `max`.
pub fn collect_odd_primes(sieve: &Vec<u8>, max: usize) -> (r: Vec<usize>)
    requires
        max >= 3,
        sieve@.len() >= max as int / 2,
        sieve_decides(sieve@, max as int),
    ensures
        prime_seq(r@, 0, max as nat),
{
    let mut r: Vec<usize> = Vec::new();
    r.push(2);
    proof {
        assert(is_prime(2));
    }
    let half: usize = max / 2;
    let mut idx: usize = 1;
    proof {
        assert forall|p: usize| is_prime(p as nat) && (p as int) < 2 * 1 + 1
            implies r@.contains(p) by {
            assert(p as nat >= 2);
            assert(p == 2);
            assert(r@[0] == p);
        }
    }
    while idx < half
        invariant
            max >= 3,
            half == max / 2,
            idx >= 1,
            idx <= half,
            sieve@.len() >= max as int / 2,
            sieve_decides(sieve@, max as int),
            r@.len() >= 1,
            r@[0] == 2,
            forall|i: int, j: int| 0 <= i < j < r@.len() ==> r@[i] < r@[j],
            forall|i: int|
                0 <= i < r@.len() ==> is_prime(#[trigger] r@[i] as nat) && (r@[i] as int)
                    < max && r@[i] < 2 * idx + 1,
            forall|p: usize|
                is_prime(p as nat) && (p as int) < 2 * idx + 1 ==> r@.contains(p),
        decreases half - idx,
    {
        let c: usize = 2 * idx + 1;
        proof {
            assert(c < max) by {
                lemma_fundamental_div_mod(max as int, 2);
            }
        }
        let ghost rold: Seq<usize> = r@;
        if sieve[idx] == 0 {
            proof {
                assert(c as int / 2 == idx);
                assert(is_prime(c as nat));
            }
            r.push(c);
            proof {
                assert(r@ == rold.push(c));
            }
        } else {
            proof {
                assert(c as int / 2 == idx);
                assert(!is_prime(c as nat));
            }
        }
        idx = idx + 1;
        proof {
            assert forall|p: usize| is_prime(p as nat) && (p as int) < 2 * idx + 1
                implies r@.contains(p) by {
                if (p as int) < 2 * (idx - 1) + 1 {
                    assert(rold.contains(p));
                    let ii = choose|ii: int| 0 <= ii < rold.len() && rold[ii] == p;
                    assert(r@[ii] == p);
                } else {
                    // p is c - 1 + 1 or c: the even one is not prime.
                    if p as int == 2 * (idx - 1) + 1 {
                        assert(r@[r@.len() - 1] == p);
                    } else {
                        assert(p as int == 2 * idx);
                        assert(p as nat % 2 == 0) by {
                            lemma_fundamental_div_mod_converse_mod(p as int, 2, idx as int, 0);
                        }
                        lemma_even_not_prime(p as nat);
                    }
                }
            }
        }
    }
    proof {
        assert forall|p: usize| is_prime(p as nat) && (p as nat) < max as nat
            implies r@.contains(p) by {
            assert((p as int) < 2 * (max as int / 2) + 1) by {
                lemma_fundamental_div_mod(max as int, 2);
                if p as int == max as int && max % 2 == 0 {
                    lemma_even_not_prime(p as nat);
                    lemma_fundamental_div_mod_converse_mod(p as int, 2, max as int / 2, 0);
                }
            }
        }
    }
    r
}

} // verus!
