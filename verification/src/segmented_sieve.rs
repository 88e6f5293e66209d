//! The segmented sieve: a small base sieve up to the square root of the bound
//! feeds successive fixed-size windows, each marked with the base primes'
//! multiples.

use vstd::prelude::*;

verus! {

use crate::primes::{is_prime, prime_seq, lemma_composite_has_small_factor};
use crate::gen_prime::{GenPrime, filter_at_least};
use crate::bitwise_sieve::BitwiseSieve;
use crate::isqrt::isqrt64f;
use core::ops::Range;
use vstd::arithmetic::div_mod::{
    lemma_fundamental_div_mod, lemma_fundamental_div_mod_converse_mod, lemma_mod_bound,
};

/// Every number of at least 2 has a prime divisor; a composite has one whose
/// square does not exceed it.
pub proof fn lemma_has_prime_factor(c: nat)
    requires
        c >= 2,
    ensures
        exists|p: nat| is_prime(p) && (c as int % (p as int)) == 0 && p <= c,
    decreases c,
{
    if is_prime(c) {
        vstd::arithmetic::div_mod::lemma_mod_self_0(c as int);
        assert(is_prime(c) && (c as int % (c as int)) == 0 && c <= c);
    } else {
        let d = choose|d: nat| 2 <= d < c && #[trigger] ((c as nat) % d) == 0;
        lemma_has_prime_factor(d);
        let p = choose|p: nat| is_prime(p) && #[trigger] ((d as int) % (p as int)) == 0 && p <= d;
        crate::sieve_of_eratosthenes::lemma_divides_transitive(p as int, d as int, c as int);
        assert(is_prime(p) && (c as int % (p as int)) == 0 && p <= c);
    }
}

/// A composite number has a prime divisor whose square does not exceed it.
pub proof fn lemma_composite_has_small_prime_factor(c: nat)
    requires
        c >= 2,
        !is_prime(c),
    ensures
        exists|p: nat|
            is_prime(p) && (c as int % (p as int)) == 0 && #[trigger] (p * p) <= c && p < c,
{
    lemma_composite_has_small_factor(c);
    let a = choose|a: nat| 2 <= a < c && a * a <= c && #[trigger] ((c as nat) % a) == 0;
    lemma_has_prime_factor(a);
    let p = choose|p: nat| is_prime(p) && #[trigger] ((a as int) % (p as int)) == 0 && p <= a;
    crate::sieve_of_eratosthenes::lemma_divides_transitive(p as int, a as int, c as int);
    assert(p * p <= a * a) by (nonlinear_arith)
        requires p <= a, p >= 0;
    assert(is_prime(p) && (c as int % (p as int)) == 0 && p * p <= c && p < c);
}

#[derive(Clone, Copy, PartialEq, Eq, Hash, Debug)]
/// Generates primes window by window above a bitwise base sieve.
pub struct SegmentedSieve {
    /// Generation ceiling used by the next `gen` call.
    pub max: usize,
}

impl SegmentedSieve {
    /// Creates a new sieve with a zero bound.
    pub fn new() -> (s: Self)
        ensures
            s.bound() == 0,
    {
        SegmentedSieve { max: 0 }
    }
}

impl GenPrime for SegmentedSieve {
    open spec fn bound(&self) -> nat {
        self.max as nat
    }

    fn gen(&mut self) -> (r: Vec<usize>)
        ensures
            prime_seq(r@, 0, old(self).max as nat),
    {
        let max: usize = self.max;
        if max <= 2 {
            proof {
                assert forall|p: usize| is_prime(p as nat) && (p as nat) < max as nat && 0 <= p
                    implies Seq::<usize>::empty().contains(p) by {
                    assert(p as nat >= 2);
                }
            }
            let r: Vec<usize> = Vec::new();
            return r;
        }
        // Base sieve up to the integer square root of max.
        let n: usize = isqrt64f(max).0;
        proof {
            assert(n >= 1) by (nonlinear_arith)
                requires
                    n as int * n as int <= max as int,
                    (max as int) < (n as int + 1) * (n as int + 1),
                    max >= 3,
            ;
            assert(n < max) by (nonlinear_arith)
                requires n as int * n as int <= max as int, max >= 3, n >= 1;
        }
        let mut base_gen: BitwiseSieve = BitwiseSieve::new();
        let mut result: Vec<usize> = base_gen.gen_range(0..n + 1);
        let bp: Vec<usize> = {
            let mut inner: BitwiseSieve = BitwiseSieve::new();
            inner.gen_range(0..n + 1)
        };
        let mut low: usize = n + 1;
        while low < max
            invariant
                max >= 3,
                1 <= n < max,
                n as int * n as int <= max as int,
                (max as int) < (n as int + 1) * (n as int + 1),
                n + 1 <= low,
                prime_seq(bp@, 0, (n + 1) as nat),
                prime_seq(result@, 0, (if low <= max { low } else { max }) as nat),
                forall|i: int| 0 <= i < result@.len() ==> #[trigger] result@[i] < low,
            decreases max - low,
        {
            let high: usize = if max - low > n { low + n } else { max };
            let wlen: usize = high - low;
            proof {
                assert(wlen >= 1);
            }
            let mut w: Vec<u8> = Vec::new();
            while w.len() < wlen
                invariant
                    wlen <= usize::MAX,
                    w@.len() <= wlen,
                    forall|p: int| 0 <= p < w@.len() ==> w@[p] == 0,
                decreases wlen - w@.len(),
            {
                w.push(0);
            }
            // Mark the multiples of every prime up to n.
            let mut bi: usize = 0;
            while bi < bp.len()
                invariant
                    max >= 3,
                    1 <= n < max,
                    n + 1 <= low < high <= max,
                    high <= low + n,
                    wlen == high - low,
                    w@.len() == wlen,
                    prime_seq(bp@, 0, (n + 1) as nat),
                    bi <= bp@.len(),
                    // soundness: a mark means some base prime divides it
                    forall|x: int|
                        0 <= x < wlen && #[trigger] w@[x] != 0 ==> exists|p: int|
                            2 <= p <= n && is_prime(p as nat) && #[trigger] ((low + x) % p) == 0,
                    // completeness for the primes already processed
                    forall|k: int, c: int|
                        0 <= k < bi && low <= c < high && #[trigger] (c % (bp@[k] as int)) == 0
                            ==> #[trigger] w@[c - low] != 0,
                decreases bp@.len() - bi,
            {
                let p: usize = bp[bi];
                proof {
                    assert(is_prime(p as nat) && 2 <= p && p <= n);
                    lemma_fundamental_div_mod(low as int, p as int);
                    lemma_mod_bound(low as int, p as int);
                    assert(((low / p) as int) * (p as int) <= low as int);
                }
                let jm: usize = (low / p) * p;
                proof {
                    assert(jm as int == (p as int) * ((low / p) as int));
                    lemma_fundamental_div_mod_converse_mod(
                        jm as int, p as int, (low / p) as int, 0);
                    assert(jm % p == 0);
                    assert(low as int - (p as int) < jm as int <= low as int);
                    // Multiples of p below jm + p and above jm do not exist.
                    assert forall|c: int| (jm as int) < c < jm as int + p as int
                        && #[trigger] (c % (p as int)) == 0 implies false by {
                        lemma_fundamental_div_mod(c, p as int);
                        assert(false) by (nonlinear_arith)
                            requires
                                c == (p as int) * (c / (p as int)),
                                jm as int == (p as int) * ((low / p) as int),
                                (jm as int) < c,
                                c < jm as int + p as int,
                                p >= 2,
                        ;
                    }
                }
                if jm < low && high - jm <= p {
                    proof {
                        // The first multiple at or above low already clears
                        // the window: nothing to mark for this prime.
                        assert forall|c: int| low <= c < high && #[trigger] (c % (p as int)) == 0
                            implies w@[c - low] != 0 by {
                            assert((jm as int) < c < jm as int + p as int);
                        }
                    }
                    bi = bi + 1;
                    continue;
                }
                let mut j: usize = if jm < low {
                    jm + p
                } else {
                    jm
                };
                proof {
                    assert(j % p == 0) by {
                        if jm < low {
                            vstd::arithmetic::div_mod::lemma_mod_add_multiples_vanish(
                                jm as int, p as int);
                        }
                    }
                    assert(low <= j);
                    assert(j < high);
                    // no multiple of p in [low, j)
                    assert forall|c: int| low <= c < j && #[trigger] (c % (p as int)) == 0
                        implies false by {
                        assert((jm as int) < c < jm as int + p as int);
                    }
                }
                while j < high
                    invariant_except_break
                        max >= 3,
                        2 <= p <= n,
                        is_prime(p as nat),
                        n + 1 <= low < high <= max,
                        wlen == high - low,
                        w@.len() == wlen,
                        low <= j,
                        j % p == 0,
                        forall|x: int|
                            0 <= x < wlen && #[trigger] w@[x] != 0 ==> exists|pp: int|
                                2 <= pp <= n && is_prime(pp as nat) && #[trigger] ((low + x) % pp)
                                    == 0,
                        forall|k2: int, c: int|
                            0 <= k2 < bi && low <= c < high && #[trigger] (c % (bp@[k2] as int))
                                == 0 ==> #[trigger] w@[c - low] != 0,
                        forall|c: int|
                            low <= c < j && #[trigger] (c % (p as int)) == 0 ==> w@[c - low] != 0,
                    ensures
                        w@.len() == wlen,
                        forall|x: int|
                            0 <= x < wlen && #[trigger] w@[x] != 0 ==> exists|pp: int|
                                2 <= pp <= n && is_prime(pp as nat) && #[trigger] ((low + x) % pp)
                                    == 0,
                        forall|k2: int, c: int|
                            0 <= k2 < bi && low <= c < high && #[trigger] (c % (bp@[k2] as int))
                                == 0 ==> #[trigger] w@[c - low] != 0,
                        forall|c: int|
                            low <= c < high && #[trigger] (c % (p as int)) == 0 ==> w@[c - low]
                                != 0,
                    decreases high - j,
                {
                    let ghost wold: Seq<u8> = w@;
                    w.set(j - low, 1);
                    proof {
                        assert forall|x: int|
                            0 <= x < wlen && #[trigger] w@[x] != 0
                            implies exists|pp: int|
                                2 <= pp <= n && is_prime(pp as nat) && #[trigger] ((low + x) % pp)
                                    == 0 by {
                            if x == j - low {
                                assert(((low + x) % (p as int)) == 0);
                                assert(2 <= p as int <= n && is_prime((p as int) as nat) && ((low
                                    + x) % (p as int)) == 0);
                            } else {
                                assert(w@[x] == wold[x]);
                            }
                        }
                        // coverage grows to j + p
                        assert forall|c: int|
                            low <= c < j + p && #[trigger] (c % (p as int)) == 0
                            implies w@[c - low] != 0 by {
                            if c < j as int {
                                assert(wold[c - low] != 0);
                                if c - low != j - low {
                                    assert(w@[c - low] == wold[c - low]);
                                }
                            } else if c == j as int {
                            } else {
                                lemma_fundamental_div_mod(c, p as int);
                                lemma_fundamental_div_mod(j as int, p as int);
                                assert(false) by (nonlinear_arith)
                                    requires
                                        c == (p as int) * (c / (p as int)),
                                        j as int == (p as int) * ((j as int) / (p as int)),
                                        (j as int) < c,
                                        c < (j as int) + (p as int),
                                        p >= 2,
                                ;
                            }
                        }
                    }
                    if high - j > p {
                        let ghost jold: int = j as int;
                        j = j + p;
                        proof {
                            vstd::arithmetic::div_mod::lemma_mod_add_multiples_vanish(
                                jold, p as int);
                            assert((jold + p as int) % (p as int) == 0);
                        }
                    } else {
                        proof {
                            assert forall|c: int|
                                low <= c < high && #[trigger] (c % (p as int)) == 0
                                implies w@[c - low] != 0 by {
                                if c > j as int {
                                    lemma_fundamental_div_mod(c, p as int);
                                    lemma_fundamental_div_mod(j as int, p as int);
                                    assert(false) by (nonlinear_arith)
                                        requires
                                            c == (p as int) * (c / (p as int)),
                                            j as int == (p as int) * ((j as int) / (p as int)),
                                            (j as int) < c,
                                            c < high,
                                            (high as int) - (j as int) <= (p as int),
                                            p >= 2,
                                    ;
                                }
                            }
                        }
                        break;
                    }
                }
                bi = bi + 1;
            }
            // The window now decides: unmarked entries are exactly the primes.
            proof {
                assert forall|c: int| low <= c < high
                    implies (#[trigger] w@[c - low] == 0 <==> is_prime(c as nat)) by {
                    if w@[c - low] != 0 {
                        let pp = choose|pp: int|
                            2 <= pp <= n && is_prime(pp as nat) && #[trigger] ((low + (c - low))
                                % pp) == 0;
                        assert(c % pp == 0);
                        assert(pp < c);
                        assert(!is_prime(c as nat)) by {
                            assert(2 <= pp < c && (c as nat) % (pp as nat) == 0);
                        }
                    } else {
                        if !is_prime(c as nat) {
                            lemma_composite_has_small_prime_factor(c as nat);
                            let pp = choose|pp: nat|
                                is_prime(pp) && (c % (pp as int)) == 0 && #[trigger] (pp * pp)
                                    <= c && pp < c;
                            assert(pp <= n) by (nonlinear_arith)
                                requires
                                    pp * pp <= c,
                                    c < max,
                                    (max as int) < (n as int + 1) * (n as int + 1),
                                    n >= 1,
                                    pp >= 2,
                            ;
                            assert(bp@.contains((pp as usize))) by {
                                assert(is_prime((pp as usize) as nat) && (pp as nat) < (n
                                    + 1) as nat);
                            }
                            let k = choose|k: int| 0 <= k < bp@.len() && bp@[k] == pp as usize;
                            assert(w@[c - low] != 0);
                        }
                    }
                }
            }
            // Collect the window's survivors.
            let ghost rprev: Seq<usize> = result@;
            let mut c: usize = low;
            while c < high
                invariant
                    max >= 3,
                    n + 1 <= low <= c <= high <= max,
                    wlen == high - low,
                    w@.len() == wlen,
                    forall|c2: int|
                        low <= c2 < high ==> (#[trigger] w@[c2 - low] == 0 <==> is_prime(
                            c2 as nat)),
                    prime_seq(result@, 0, c as nat),
                    forall|i: int| 0 <= i < result@.len() ==> #[trigger] result@[i] < c,
                decreases high - c,
            {
                let ghost rold: Seq<usize> = result@;
                if w[c - low] == 0 {
                    proof {
                        assert(is_prime(c as nat));
                    }
                    result.push(c);
                    proof {
                        assert(result@ == rold.push(c));
                    }
                }
                c = c + 1;
                proof {
                    assert forall|p2: usize| is_prime(p2 as nat) && (p2 as nat) < c as nat
                        implies result@.contains(p2) by {
                        if (p2 as int) < c - 1 {
                            assert(rold.contains(p2));
                            let ii = choose|ii: int| 0 <= ii < rold.len() && rold[ii] == p2;
                            assert(result@[ii] == p2);
                        } else {
                            assert(p2 as int == c - 1);
                            assert(result@[result@.len() - 1] == p2);
                        }
                    }
                }
            }
            low = high;
        }
        result
    }

    fn gen_range(&mut self, range: Range<usize>) -> (r: Vec<usize>)
        ensures
            prime_seq(r@, range.start as nat, range.end as nat),
    {
        self.max = range.end;
        let v: Vec<usize> = self.gen();
        let r: Vec<usize> = filter_at_least(&v, range.start);
        proof {
            assert forall|p: usize|
                is_prime(p as nat) && range.start as nat <= p as nat && (p as nat) < range.end as nat
                implies r@.contains(p) by {
                assert(v@.contains(p));
                let kk = choose|kk: int| 0 <= kk < v@.len() && v@[kk] == p;
                assert(v@[kk] >= range.start);
            }
            assert forall|i: int| 0 <= i < r@.len()
                implies is_prime(#[trigger] r@[i] as nat) && range.start <= r@[i] && (r@[i] as nat)
                    < range.end as nat by {
                assert(v@.contains(r@[i]));
                let kk = choose|kk: int| 0 <= kk < v@.len() && v@[kk] == r@[i];
            }
        }
        r
    }
}

} // verus!
