//! The sieve of Eratosthenes with residues packed into machine words: one bit
//! per odd candidate, 32 odd residues per 64-number block.

use vstd::prelude::*;

verus! {

use crate::primes::{
    is_prime, prime_seq, lemma_composite_has_small_factor, lemma_divisor_of_odd_is_odd,
    lemma_product_is_composite,
};
use crate::gen_prime::{GenPrime, filter_at_least, lemma_even_not_prime};
use crate::sieve_of_eratosthenes::{lemma_divides_transitive, lemma_odd_multiple_position};
use vstd::arithmetic::div_mod::{
    lemma_fundamental_div_mod, lemma_fundamental_div_mod_converse_mod, lemma_div_denominator,
};
use core::ops::Range;

/// Bit `k % 32` of word `k / 32` holds the mark for the odd number `2k + 1`.
pub open spec fn bw_marked(s: Seq<u64>, k: int) -> bool {
    ((s[k / 32] >> ((k % 32) as u64)) & 1u64) == 1u64
}

/// Marked bits stand for odd composites below `max`.
pub open spec fn bw_sound(s: Seq<u64>, max: int) -> bool {
    forall|c: int| 3 <= c < max && c % 2 == 1 && bw_marked(s, #[trigger] (c / 2)) ==> !is_prime(
        c as nat)
}

/// Every odd composite below `max` with an odd divisor below `bound` whose
/// square does not exceed it is marked.
pub open spec fn bw_complete(s: Seq<u64>, max: int, bound: int) -> bool {
    forall|c: int, q: int|
        3 <= c < max && c % 2 == 1 && 3 <= q < bound && q % 2 == 1 && q * q <= c && #[trigger] (c
            % q) == 0 && c != q ==> bw_marked(s, #[trigger] (c / 2))
}

/// Setting one bit leaves every other bit alone.
proof fn lemma_set_bit(w: u64, b: u64, b2: u64)
    requires
        b < 32,
        b2 < 32,
    ensures
        b2 == b ==> ((w | (1u64 << b)) >> b2) & 1u64 == 1u64,
        b2 != b ==> ((w | (1u64 << b)) >> b2) & 1u64 == (w >> b2) & 1u64,
{
    assert(b2 == b ==> ((w | (1u64 << b)) >> b2) & 1u64 == 1u64) by (bit_vector)
        requires b < 32, b2 < 32;
    assert(b2 != b ==> ((w | (1u64 << b)) >> b2) & 1u64 == (w >> b2) & 1u64) by (bit_vector)
        requires b < 32, b2 < 32;
}

/// The word and bit position of an odd candidate.
proof fn lemma_bit_position(j: int)
    requires
        j >= 0,
        j % 2 == 1,
    ensures
        j / 64 == (j / 2) / 32,
        0 <= (j / 2) % 32 < 32,
{
    lemma_div_denominator(j, 2, 32);
    vstd::arithmetic::div_mod::lemma_mod_bound(j / 2, 32);
}

#[derive(Clone, Copy, PartialEq, Eq, Hash, Debug)]
/// Generates primes using a bit-packed sieve of Eratosthenes.
pub struct BitwiseSieve {
    /// Generation ceiling used by the next `gen` call.
    pub max: usize,
}

impl BitwiseSieve {
    /// Creates a new sieve with a zero bound.
    pub fn new() -> (s: Self)
        ensures
            s.bound() == 0,
    {
        BitwiseSieve { max: 0 }
    }
}

/// Reads the mark of the odd candidate `n` out of the packed words.
fn not_prime(sieve: &Vec<u64>, n: usize) -> (r: u64)
    requires
        n % 2 == 1,
        n as int / 64 < sieve@.len(),
    ensures
        (r != 0) == bw_marked(sieve@, n as int / 2),
{
    proof {
        lemma_bit_position(n as int);
        assert((n >> 1) & 31 == (n / 2) % 32) by (bit_vector);
        assert(((n / 2) % 32) as u64 == ((n as int / 2) % 32) as u64);
    }
    let w: u64 = sieve[n / 64];
    let r: u64 = w & (1u64 << ((n >> 1) & 31) as u64);
    proof {
        let b: u64 = ((n as int / 2) % 32) as u64;
        assert((w & (1u64 << b) != 0) == ((w >> b) & 1u64 == 1u64)) by (bit_vector)
            requires b < 32;
    }
    r
}

impl GenPrime for BitwiseSieve {
    open spec fn bound(&self) -> nat {
        self.max as nat
    }

    fn gen(&mut self) -> (r: Vec<usize>)
        ensures
            prime_seq(r@, 0, old(self).max as nat),
    {
        let max: usize = self.max;
        if max <= 2 {
            proof {
                assert forall|p: usize| is_prime(p as nat) && (p as nat) < max as nat && 0 <= p
                    implies Seq::<usize>::empty().contains(p) by {
                    assert(p as nat >= 2);
                }
            }
            let r: Vec<usize> = Vec::new();
            return r;
        }
        let words: usize = max / 64 + 1;
        let mut sieve: Vec<u64> = Vec::new();
        while sieve.len() < words
            invariant
                words <= usize::MAX,
                sieve@.len() <= words,
                forall|p: int| 0 <= p < sieve@.len() ==> sieve@[p] == 0,
            decreases words - sieve@.len(),
        {
            sieve.push(0);
        }
        proof {
            assert forall|c: int| 3 <= c < max && c % 2 == 1
                implies !bw_marked(sieve@, #[trigger] (c / 2)) by {
                lemma_bit_position(c);
                assert(c / 64 < words as int) by {
                    vstd::arithmetic::div_mod::lemma_div_is_ordered(c, max as int, 64);
                }
                let w: u64 = sieve@[(c / 2) / 32];
                let b: u64 = ((c / 2) % 32) as u64;
                assert(w == 0);
                assert(((0u64 >> b) & 1u64) != 1u64) by (bit_vector);
            }
        }
        let mut i: usize = 3;
        while i <= (max - 1) / i
            invariant
                max >= 3,
                words == max / 64 + 1,
                sieve@.len() == words,
                3 <= i,
                i % 2 == 1,
                bw_sound(sieve@, max as int),
                bw_complete(sieve@, max as int, i as int),
            decreases max - i,
        {
            proof {
                assert((i as int * i as int) < max as int) by {
                    lemma_fundamental_div_mod((max - 1) as int, i as int);
                    assert(i as int * i as int <= (i as int) * (((max - 1) as int) / (i as int)))
                        by (nonlinear_arith)
                        requires i as int <= ((max - 1) as int) / (i as int), i >= 3;
                }
                assert(3 * (i as int) <= i as int * i as int) by (nonlinear_arith)
                    requires i >= 3;
                assert(i < max);
                assert((i as int) / 64 < words as int) by {
                    vstd::arithmetic::div_mod::lemma_div_is_ordered(i as int, max as int, 64);
                }
            }
            if not_prime(&sieve, i) == 0 {
                proof {
                    lemma_fundamental_div_mod(i as int, 2);
                    assert(i as int * i as int == 2 * (2 * ((i / 2) as int) * ((i / 2) as int)
                        + 2 * ((i / 2) as int)) + 1) by (nonlinear_arith)
                        requires i as int == 2 * ((i / 2) as int) + 1;
                    lemma_fundamental_div_mod_converse_mod(
                        i as int * i as int, 2,
                        2 * ((i / 2) as int) * ((i / 2) as int) + 2 * ((i / 2) as int), 1);
                }
                let mut j: usize = i * i;
                let step: usize = 2 * i;
                let ghost mut t: int = 0;
                while j < max
                    invariant_except_break
                        max >= 3,
                        words == max / 64 + 1,
                        sieve@.len() == words,
                        3 <= i < max,
                        i % 2 == 1,
                        j % 2 == 1,
                        step == 2 * i,
                        t >= 0,
                        j as int == i as int * i as int + 2 * (i as int) * t,
                        bw_sound(sieve@, max as int),
                        bw_complete(sieve@, max as int, i as int),
                        forall|c: int|
                            c % 2 == 1 && i as int * i as int <= c < j as int && #[trigger] (c % (
                            i as int)) == 0 ==> bw_marked(sieve@, c / 2),
                    ensures
                        sieve@.len() == words,
                        bw_sound(sieve@, max as int),
                        bw_complete(sieve@, max as int, i as int),
                        forall|c: int|
                            c % 2 == 1 && i as int * i as int <= c < max as int && #[trigger] (c
                                % (i as int)) == 0 ==> bw_marked(sieve@, c / 2),
                    decreases max - j,
                {
                    proof {
                        lemma_bit_position(j as int);
                        assert((j as int) / 64 < words as int) by {
                            vstd::arithmetic::div_mod::lemma_div_is_ordered(
                                j as int, max as int, 64);
                        }
                        assert((j >> 1) & 31 == (j / 2) % 32) by (bit_vector);
                    }
                    let ghost sold: Seq<u64> = sieve@;
                    let wi: usize = j / 64;
                    let wv: u64 = sieve[wi];
                    sieve.set(wi, wv | (1u64 << ((j >> 1) & 31) as u64));
                    proof {
                        let kj: int = j as int / 2;
                        assert(bw_marked(sieve@, kj)) by {
                            lemma_set_bit(wv, (kj % 32) as u64, (kj % 32) as u64);
                        }
                        // Every other odd candidate keeps its old mark.
                        assert forall|c: int|
                            3 <= c < max && c % 2 == 1 && c != j as int
                            implies bw_marked(sieve@, #[trigger] (c / 2)) == bw_marked(sold, c / 2) by {
                            lemma_bit_position(c);
                            let kc: int = c / 2;
                            assert(kc != kj) by {
                                lemma_fundamental_div_mod(c, 2);
                                lemma_fundamental_div_mod(j as int, 2);
                            }
                            if kc / 32 == kj / 32 {
                                assert((kc % 32) != (kj % 32)) by {
                                    lemma_fundamental_div_mod(kc, 32);
                                    lemma_fundamental_div_mod(kj, 32);
                                }
                                lemma_set_bit(wv, (kj % 32) as u64, (kc % 32) as u64);
                            } else {
                                assert(sieve@[kc / 32] == sold[kc / 32]);
                            }
                        }
                        // The new mark is composite.
                        assert(j as int == (i as int) * (i as int + 2 * t)) by (nonlinear_arith)
                            requires j as int == i as int * i as int + 2 * (i as int) * t;
                        lemma_product_is_composite(i as nat, (i + 2 * t) as nat);
                        assert(bw_sound(sieve@, max as int));
                        assert(bw_complete(sieve@, max as int, i as int));
                        assert forall|c: int|
                            c % 2 == 1 && i as int * i as int <= c < j as int + 2 * (i as int)
                                && #[trigger] (c % (i as int)) == 0
                            implies bw_marked(sieve@, c / 2) by {
                            assert(c >= 3) by (nonlinear_arith)
                                requires c >= i as int * i as int, i >= 3;
                            if c < j as int {
                                assert(c < max);
                                assert(bw_marked(sold, c / 2));
                            } else if c == j as int {
                            } else {
                                lemma_odd_multiple_position(i as int, c);
                                let tc = choose|tc: int|
                                    0 <= tc && c == i as int * i as int + 2 * (i as int)
                                        * #[trigger] (tc * 1);
                                assert(false) by (nonlinear_arith)
                                    requires
                                        c == i as int * i as int + 2 * (i as int) * tc,
                                        j as int == i as int * i as int + 2 * (i as int) * t,
                                        j < c,
                                        c < j as int + 2 * (i as int),
                                        i >= 3,
                                        t >= 0,
                                        tc >= 0,
                                ;
                            }
                        }
                    }
                    if max - j > step {
                        let ghost jold: int = j as int;
                        j = j + step;
                        proof {
                            t = t + 1;
                            assert(j as int == i as int * i as int + 2 * (i as int) * t)
                                by (nonlinear_arith)
                                requires
                                    j as int == jold + 2 * (i as int),
                                    jold == i as int * i as int + 2 * (i as int) * (t - 1),
                            ;
                            assert(j % 2 == 1) by {
                                vstd::arithmetic::div_mod::lemma_mod_multiples_vanish(
                                    i as int, jold, 2);
                            }
                        }
                    } else {
                        proof {
                            assert forall|c: int|
                                c % 2 == 1 && i as int * i as int <= c < max as int
                                    && #[trigger] (c % (i as int)) == 0
                                implies bw_marked(sieve@, c / 2) by {
                                if c > j as int {
                                    lemma_odd_multiple_position(i as int, c);
                                    let tc = choose|tc: int|
                                        0 <= tc && c == i as int * i as int + 2 * (i as int)
                                            * #[trigger] (tc * 1);
                                    assert(false) by (nonlinear_arith)
                                        requires
                                            c == i as int * i as int + 2 * (i as int) * tc,
                                            j as int == i as int * i as int + 2 * (i as int) * t,
                                            j < c,
                                            c < max,
                                            max - j <= 2 * (i as int),
                                            i >= 3,
                                            t >= 0,
                                            tc >= 0,
                                    ;
                                }
                            }
                        }
                        break;
                    }
                }
                proof {
                    assert(bw_complete(sieve@, max as int, i as int + 2)) by {
                        assert forall|c: int, q: int|
                            3 <= c < max && c % 2 == 1 && 3 <= q < i as int + 2 && q % 2 == 1 && q
                                * q <= c && #[trigger] (c % q) == 0 && c != q
                            implies bw_marked(sieve@, #[trigger] (c / 2)) by {
                            if q >= i as int {
                                assert(q == i as int);
                                assert(c >= i as int * i as int);
                            }
                        }
                    }
                }
            } else {
                proof {
                    assert(!is_prime(i as nat));
                    lemma_composite_has_small_factor(i as nat);
                    let a = choose|a: nat|
                        2 <= a < i as nat && a * a <= i as nat && #[trigger] ((i as nat) % a) == 0;
                    lemma_divisor_of_odd_is_odd(a, i as nat);
                    assert(bw_complete(sieve@, max as int, i as int + 2)) by {
                        assert forall|c: int, q: int|
                            3 <= c < max && c % 2 == 1 && 3 <= q < i as int + 2 && q % 2 == 1 && q
                                * q <= c && #[trigger] (c % q) == 0 && c != q
                            implies bw_marked(sieve@, #[trigger] (c / 2)) by {
                            if q >= i as int {
                                assert(q == i as int);
                                lemma_divides_transitive(a as int, i as int, c);
                                assert(a as int * a as int <= c) by (nonlinear_arith)
                                    requires
                                        a as int * a as int <= i as int,
                                        i as int * i as int <= c,
                                        i >= 3,
                                ;
                                assert(c != a as int) by (nonlinear_arith)
                                    requires
                                        c >= i as int * i as int,
                                        (a as int) < i as int,
                                        i >= 3,
                                ;
                            }
                        }
                    }
                }
            }
            i = i + 2;
        }
        proof {
            assert(i as int * i as int >= max as int) by {
                lemma_fundamental_div_mod((max - 1) as int, i as int);
                assert(i as int * i as int > (max - 1) as int) by (nonlinear_arith)
                    requires
                        i as int > ((max - 1) as int) / (i as int),
                        (max - 1) as int == (i as int) * (((max - 1) as int) / (i as int)) + (max
                            - 1) as int % (i as int),
                        ((max - 1) as int % (i as int)) < i as int,
                        i >= 3,
                ;
            }
            // Unmarked odd candidates below max are prime.
            assert forall|c: int| 3 <= c < max && c % 2 == 1 && !bw_marked(sieve@, #[trigger] (c / 2))
                implies is_prime(c as nat) by {
                if !is_prime(c as nat) {
                    lemma_composite_has_small_factor(c as nat);
                    let a = choose|a: nat|
                        2 <= a < c as nat && a * a <= c as nat && #[trigger] ((c as nat) % a) == 0;
                    lemma_divisor_of_odd_is_odd(a, c as nat);
                    assert((a as int) < i as int) by (nonlinear_arith)
                        requires
                            a as int * a as int <= c,
                            c < max,
                            max as int <= i as int * i as int,
                            a >= 2,
                            i >= 3,
                    ;
                }
            }
        }
        // Collect 2 and the unmarked odd candidates.
        let mut r: Vec<usize> = Vec::new();
        r.push(2);
        proof {
            assert(is_prime(2));
            assert forall|p: usize| is_prime(p as nat) && (p as int) < 2 * 1 + 1
                implies r@.contains(p) by {
                assert(p as nat >= 2);
                assert(p == 2);
                assert(r@[0] == p);
            }
        }
        let half: usize = max / 2;
        let mut idx: usize = 1;
        while idx < half
            invariant
                max >= 3,
                half == max / 2,
                words == max / 64 + 1,
                sieve@.len() == words,
                1 <= idx <= half,
                bw_sound(sieve@, max as int),
                forall|c: int|
                    3 <= c < max && c % 2 == 1 && !bw_marked(sieve@, #[trigger] (c / 2))
                        ==> is_prime(c as nat),
                r@.len() >= 1,
                r@[0] == 2,
                forall|i2: int, j2: int| 0 <= i2 < j2 < r@.len() ==> r@[i2] < r@[j2],
                forall|i2: int|
                    0 <= i2 < r@.len() ==> is_prime(#[trigger] r@[i2] as nat) && (r@[i2] as int)
                        < max && r@[i2] < 2 * idx + 1,
                forall|p: usize|
                    is_prime(p as nat) && (p as int) < 2 * idx + 1 ==> r@.contains(p),
            decreases half - idx,
        {
            let c: usize = 2 * idx + 1;
            proof {
                assert(c < max) by {
                    lemma_fundamental_div_mod(max as int, 2);
                }
                assert(c % 2 == 1);
                assert((c as int) / 64 < words as int) by {
                    vstd::arithmetic::div_mod::lemma_div_is_ordered(c as int, max as int, 64);
                }
                assert(c as int / 2 == idx);
            }
            let ghost rold: Seq<usize> = r@;
            if not_prime(&sieve, c) == 0 {
                proof {
                    assert(is_prime(c as nat));
                }
                r.push(c);
                proof {
                    assert(r@ == rold.push(c));
                }
            } else {
                proof {
                    assert(!is_prime(c as nat));
                }
            }
            idx = idx + 1;
            proof {
                assert forall|p: usize| is_prime(p as nat) && (p as int) < 2 * idx + 1
                    implies r@.contains(p) by {
                    if (p as int) < 2 * (idx - 1) + 1 {
                        assert(rold.contains(p));
                        let ii = choose|ii: int| 0 <= ii < rold.len() && rold[ii] == p;
                        assert(r@[ii] == p);
                    } else {
                        if p as int == 2 * (idx - 1) + 1 {
                            assert(r@[r@.len() - 1] == p);
                        } else {
                            assert(p as int == 2 * idx);
                            assert(p as nat % 2 == 0) by {
                                lemma_fundamental_div_mod_converse_mod(p as int, 2, idx as int, 0);
                            }
                            lemma_even_not_prime(p as nat);
                        }
                    }
                }
            }
        }
        proof {
            assert forall|p: usize| is_prime(p as nat) && (p as nat) < max as nat
                implies r@.contains(p) by {
                assert((p as int) < 2 * (max as int / 2) + 1) by {
                    lemma_fundamental_div_mod(max as int, 2);
                    if p as int == max as int && max % 2 == 0 {
                        lemma_even_not_prime(p as nat);
                        lemma_fundamental_div_mod_converse_mod(p as int, 2, max as int / 2, 0);
                    }
                }
            }
        }
        r
    }

    fn gen_range(&mut self, range: Range<usize>) -> (r: Vec<usize>)
        ensures
            prime_seq(r@, range.start as nat, range.end as nat),
    {
        self.max = range.end;
        let v: Vec<usize> = self.gen();
        let r: Vec<usize> = filter_at_least(&v, range.start);
        proof {
            assert forall|p: usize|
                is_prime(p as nat) && range.start as nat <= p as nat && (p as nat) < range.end as nat
                implies r@.contains(p) by {
                assert(v@.contains(p));
                let kk = choose|kk: int| 0 <= kk < v@.len() && v@[kk] == p;
                assert(v@[kk] >= range.start);
            }
            assert forall|i: int| 0 <= i < r@.len()
                implies is_prime(#[trigger] r@[i] as nat) && range.start <= r@[i] && (r@[i] as nat)
                    < range.end as nat by {
                assert(v@.contains(r@[i]));
                let kk = choose|kk: int| 0 <= kk < v@.len() && v@[kk] == r@[i];
            }
        }
        r
    }
}

} // verus!
