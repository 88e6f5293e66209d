//! The sieve of Eratosthenes over odd candidates: one byte per odd number,
//! crossing off odd multiples of each surviving candidate starting at its
//! square.

use vstd::prelude::*;

verus! {

use crate::primes::{
    is_prime, prime_seq, lemma_composite_has_small_factor, lemma_divisor_of_odd_is_odd,
    lemma_product_is_composite,
};
use crate::gen_prime::{GenPrime, filter_at_least, collect_odd_primes, sieve_decides};
use vstd::arithmetic::div_mod::{
    lemma_fundamental_div_mod, lemma_fundamental_div_mod_converse_mod,
};
use core::ops::Range;

/// Marked entries are composite.
pub open spec fn erat_sound(s: Seq<u8>, max: int) -> bool {
    forall|c: int| 3 <= c < max && c % 2 == 1 && #[trigger] s[c / 2] != 0 ==> !is_prime(c as nat)
}

/// Every odd composite below `max` with an odd divisor below `bound` whose
/// square does not exceed it is already marked.
pub open spec fn erat_complete(s: Seq<u8>, max: int, bound: int) -> bool {
    forall|c: int, q: int|
        3 <= c < max && c % 2 == 1 && 3 <= q < bound && q % 2 == 1 && q * q <= c && #[trigger] (c
            % q) == 0 && c != q ==> #[trigger] s[c / 2] != 0
}

/// Divisibility is transitive.
pub proof fn lemma_divides_transitive(a: int, b: int, c: int)
    requires
        a >= 1,
        b >= 1,
        c >= 1,
        b % a == 0,
        c % b == 0,
    ensures
        c % a == 0,
{
    lemma_fundamental_div_mod(b, a);
    lemma_fundamental_div_mod(c, b);
    let k1 = b / a;
    let k2 = c / b;
    assert(c == (k2 * k1) * a) by (nonlinear_arith)
        requires b == a * k1, c == b * k2;
    assert(k2 * k1 >= 0) by (nonlinear_arith)
        requires k1 >= 0, k2 >= 0;
    assert(k1 >= 0 && k2 >= 0) by {
        vstd::arithmetic::div_mod::lemma_div_pos_is_pos(b, a);
        vstd::arithmetic::div_mod::lemma_div_pos_is_pos(c, b);
    }
    lemma_fundamental_div_mod_converse_mod(c, a, k2 * k1, 0);
}

/// An odd multiple of an odd `i`, at least `i^2`, sits in the arithmetic
/// progression `i^2, i^2 + 2i, ...`.
pub proof fn lemma_odd_multiple_position(i: int, c: int)
    requires
        i >= 3,
        i % 2 == 1,
        c % 2 == 1,
        c % i == 0,
        i * i <= c,
    ensures
        exists|t: int| 0 <= t && c == i * i + 2 * i * #[trigger] (t * 1),
{
    let m = c / i;
    lemma_fundamental_div_mod(c, i);
    assert(c == i * m);
    assert(m >= i) by (nonlinear_arith)
        requires c == i * m, i * i <= c, i >= 3;
    assert(m % 2 == 1) by {
        if m % 2 == 0 {
            lemma_fundamental_div_mod(m, 2);
            assert(c == 2 * (i * (m / 2))) by (nonlinear_arith)
                requires c == i * m, m == 2 * (m / 2);
            lemma_fundamental_div_mod_converse_mod(c, 2, i * (m / 2), 0);
        }
    }
    let t = (m - i) / 2;
    lemma_fundamental_div_mod(m - i, 2);
    assert((m - i) % 2 == 0) by {
        lemma_fundamental_div_mod(m, 2);
        lemma_fundamental_div_mod(i, 2);
        lemma_fundamental_div_mod_converse_mod(m - i, 2, m / 2 - i / 2, 0);
    }
    assert(c == i * i + 2 * i * (t * 1)) by (nonlinear_arith)
        requires c == i * m, m - i == 2 * t;
    assert(0 <= t && c == i * i + 2 * i * (t * 1));
}


/// Builds the odd-candidate marking table of the sieve of Eratosthenes: the
/// finished table decides primality of every odd number below `max`. The
/// Atkin strategy borrows it to confirm its quadratic-form survivors.
pub fn odd_composite_marks(max: usize) -> (sieve: Vec<u8>)
    requires
        max >= 3,
    ensures
        sieve@.len() == max as int / 2,
        sieve_decides(sieve@, max as int),
{
    let mut sieve: Vec<u8> = Vec::new();
    let half: usize = max / 2;
    while sieve.len() < half
        invariant
            sieve@.len() <= half,
            forall|p: int| 0 <= p < sieve@.len() ==> sieve@[p] == 0,
        decreases half - sieve@.len(),
    {
        sieve.push(0);
    }
    let mut i: usize = 3;
    while i <= (max - 1) / i
        invariant
            max >= 3,
            half == max / 2,
            sieve@.len() == half,
            3 <= i,
            i % 2 == 1,
            erat_sound(sieve@, max as int),
            erat_complete(sieve@, max as int, i as int),
        decreases max - i,
    {
        proof {
            assert((i as int * i as int) < max as int) by {
                lemma_fundamental_div_mod((max - 1) as int, i as int);
                assert(i as int * i as int <= (i as int) * (((max - 1) as int) / (i as int)))
                    by (nonlinear_arith)
                    requires i as int <= ((max - 1) as int) / (i as int), i >= 3;
            }
            assert(3 * (i as int) <= i as int * i as int) by (nonlinear_arith)
                requires i >= 3;
            assert(i < max);
            assert((i as int) / 2 < max as int / 2) by {
                lemma_fundamental_div_mod(i as int, 2);
                lemma_fundamental_div_mod(max as int, 2);
            }
        }
        if sieve[i / 2] == 0 {
            // i survived, so it is prime by completeness; mark its odd
            // multiples from i^2 on.
            proof {
                lemma_fundamental_div_mod(i as int, 2);
                assert(i as int * i as int == 2 * (2 * ((i / 2) as int) * ((i / 2) as int)
                    + 2 * ((i / 2) as int)) + 1) by (nonlinear_arith)
                    requires i as int == 2 * ((i / 2) as int) + 1;
                lemma_fundamental_div_mod_converse_mod(
                    i as int * i as int, 2,
                    2 * ((i / 2) as int) * ((i / 2) as int) + 2 * ((i / 2) as int), 1);
            }
            let mut j: usize = i * i;
            let step: usize = 2 * i;
            let ghost mut t: int = 0;
            while j < max
                invariant_except_break
                    max >= 3,
                    half == max / 2,
                    sieve@.len() == half,
                    3 <= i < max,
                    i % 2 == 1,
                    j % 2 == 1,
                    step == 2 * i,
                    t >= 0,
                    j as int == i as int * i as int + 2 * (i as int) * t,
                    erat_sound(sieve@, max as int),
                    erat_complete(sieve@, max as int, i as int),
                    forall|c: int|
                        c % 2 == 1 && i as int * i as int <= c < j as int && #[trigger] (c % (
                        i as int)) == 0 ==> sieve@[c / 2] != 0,
                ensures
                    sieve@.len() == half,
                    erat_sound(sieve@, max as int),
                    erat_complete(sieve@, max as int, i as int),
                    forall|c: int|
                        c % 2 == 1 && i as int * i as int <= c < max as int && #[trigger] (c
                            % (i as int)) == 0 ==> sieve@[c / 2] != 0,
                decreases max - j,
            {
                proof {
                    assert((j as int) / 2 < max as int / 2) by {
                        lemma_fundamental_div_mod(j as int, 2);
                        lemma_fundamental_div_mod(max as int, 2);
                    }
                }
                let ghost sold: Seq<u8> = sieve@;
                sieve.set(j / 2, 1);
                proof {
                    // The mark is sound: j = i * (i + 2t) is composite.
                    assert(j as int == (i as int) * (i as int + 2 * t)) by (nonlinear_arith)
                        requires j as int == i as int * i as int + 2 * (i as int) * t;
                    lemma_product_is_composite(i as nat, (i + 2 * t) as nat);
                    assert(!is_prime(j as nat));
                    // Soundness and completeness persist: only one entry
                    // changed, and it went from anything to marked.
                    assert forall|c: int|
                        3 <= c < max && c % 2 == 1 && #[trigger] sieve@[c / 2] != 0
                        implies !is_prime(c as nat) by {
                        if c / 2 == j as int / 2 {
                            assert(c == j) by {
                                lemma_fundamental_div_mod(c, 2);
                                lemma_fundamental_div_mod(j as int, 2);
                            }
                        } else {
                            assert(sieve@[c / 2] == sold[c / 2]);
                        }
                    }
                    assert(erat_complete(sieve@, max as int, i as int)) by {
                        assert forall|c: int, q: int|
                            3 <= c < max && c % 2 == 1 && 3 <= q < i && q % 2 == 1 && q * q
                                <= c && #[trigger] (c % q) == 0 && c != q
                            implies #[trigger] sieve@[c / 2] != 0 by {
                            assert(sold[c / 2] != 0);
                            if c / 2 != j as int / 2 {
                                assert(sieve@[c / 2] == sold[c / 2]);
                            }
                        }
                    }
                    // Marked multiples now reach j + 2i.
                    assert(sieve@[j as int / 2] != 0);
                    assert forall|c: int|
                        c % 2 == 1 && i as int * i as int <= c < j as int + 2 * (i as int)
                            && #[trigger] (c % (i as int)) == 0
                        implies sieve@[c / 2] != 0 by {
                        if c < j as int {
                            assert(sold[c / 2] != 0);
                            if c / 2 != j as int / 2 {
                                assert(sieve@[c / 2] == sold[c / 2]);
                            }
                        } else if c == j as int {
                        } else {
                            // No odd multiple of i sits strictly between
                            // j and j + 2i.
                            lemma_odd_multiple_position(i as int, c);
                            let tc = choose|tc: int|
                                0 <= tc && c == i as int * i as int + 2 * (i as int) * #[trigger] (tc * 1);
                            assert(c == i as int * i as int + 2 * (i as int) * tc);
                            assert(false) by (nonlinear_arith)
                                requires
                                    c == i as int * i as int + 2 * (i as int) * tc,
                                    j as int == i as int * i as int + 2 * (i as int) * t,
                                    j < c,
                                    c < j as int + 2 * (i as int),
                                    i >= 3,
                                    t >= 0,
                                    tc >= 0,
                            ;
                        }
                    }
                }
                // Step to the next odd multiple, or stop cleanly at max.
                if max - j > step {
                    let ghost jold: int = j as int;
                    j = j + step;
                    proof {
                        t = t + 1;
                        assert(j as int == i as int * i as int + 2 * (i as int) * t)
                            by (nonlinear_arith)
                            requires
                                j as int == jold + 2 * (i as int),
                                jold == i as int * i as int + 2 * (i as int) * (t - 1),
                        ;
                        assert(j % 2 == 1) by {
                            vstd::arithmetic::div_mod::lemma_mod_multiples_vanish(
                                i as int, jold, 2);
                        }
                    }
                } else {
                    proof {
                        assert forall|c: int|
                            c % 2 == 1 && i as int * i as int <= c < max as int
                                && #[trigger] (c % (i as int)) == 0
                            implies sieve@[c / 2] != 0 by {
                            if c > j as int {
                                lemma_odd_multiple_position(i as int, c);
                                let tc = choose|tc: int|
                                    0 <= tc && c == i as int * i as int + 2 * (i as int)
                                        * #[trigger] (tc * 1);
                                assert(false) by (nonlinear_arith)
                                    requires
                                        c == i as int * i as int + 2 * (i as int) * tc,
                                        j as int == i as int * i as int + 2 * (i as int) * t,
                                        j < c,
                                        c < max,
                                        max - j <= 2 * (i as int),
                                        i >= 3,
                                        t >= 0,
                                        tc >= 0,
                                ;
                            }
                        }
                    }
                    break;
                }
            }
            proof {
                // Whether by exhaustion or by the early stop, all odd
                // multiples of i in [i^2, max) are marked.
                assert forall|c: int|
                    c % 2 == 1 && i as int * i as int <= c < max as int && #[trigger] (c % (
                    i as int)) == 0 implies sieve@[c / 2] != 0 by {}
                assert(erat_complete(sieve@, max as int, i as int + 2)) by {
                    assert forall|c: int, q: int|
                        3 <= c < max && c % 2 == 1 && 3 <= q < i as int + 2 && q % 2 == 1 && q
                            * q <= c && #[trigger] (c % q) == 0 && c != q
                        implies #[trigger] sieve@[c / 2] != 0 by {
                        if q < i as int {
                        } else {
                            assert(q == i as int);
                            assert(c >= i as int * i as int);
                        }
                    }
                }
            }
        } else {
            proof {
                // i is already known composite: any multiple of i has a
                // smaller odd divisor that marked it earlier.
                assert(!is_prime(i as nat));
                lemma_composite_has_small_factor(i as nat);
                let a = choose|a: nat|
                    2 <= a < i as nat && a * a <= i as nat && #[trigger] ((i as nat) % a) == 0;
                lemma_divisor_of_odd_is_odd(a, i as nat);
                assert(erat_complete(sieve@, max as int, i as int + 2)) by {
                    assert forall|c: int, q: int|
                        3 <= c < max && c % 2 == 1 && 3 <= q < i as int + 2 && q % 2 == 1 && q
                            * q <= c && #[trigger] (c % q) == 0 && c != q
                        implies #[trigger] sieve@[c / 2] != 0 by {
                        if q >= i as int {
                            assert(q == i as int);
                            lemma_divides_transitive(a as int, i as int, c);
                            assert(a as int * a as int <= c) by (nonlinear_arith)
                                requires
                                    a as int * a as int <= i as int,
                                    i as int * i as int <= c,
                                    i >= 3,
                            ;
                            assert(c != a as int) by (nonlinear_arith)
                                requires
                                    c >= i as int * i as int,
                                    (a as int) < i as int,
                                    i >= 3,
                            ;
                        }
                    }
                }
            }
        }
        i = i + 2;
    }
    proof {
        // The sieve now decides primality below max.
        assert(i as int * i as int >= max as int) by {
            lemma_fundamental_div_mod((max - 1) as int, i as int);
            assert(i as int * i as int > (max - 1) as int) by (nonlinear_arith)
                requires
                    i as int > ((max - 1) as int) / (i as int),
                    (max - 1) as int == (i as int) * (((max - 1) as int) / (i as int)) + (max
                        - 1) as int % (i as int),
                    ((max - 1) as int % (i as int)) < i as int,
                    i >= 3,
            ;
        }
        assert(sieve_decides(sieve@, max as int)) by {
            assert forall|c: int| 3 <= c < max && c % 2 == 1
                implies (#[trigger] sieve@[c / 2] == 0 <==> is_prime(c as nat)) by {
                if sieve@[c / 2] == 0 {
                    if !is_prime(c as nat) {
                        lemma_composite_has_small_factor(c as nat);
                        let a = choose|a: nat|
                            2 <= a < c as nat && a * a <= c as nat && #[trigger] ((c as nat)
                                % a) == 0;
                        lemma_divisor_of_odd_is_odd(a, c as nat);
                        assert((a as int) < i as int) by (nonlinear_arith)
                            requires
                                a as int * a as int <= c,
                                c < max,
                                max as int <= i as int * i as int,
                                a >= 2,
                                i >= 3,
                        ;
                        assert(sieve@[c / 2] != 0);
                    }
                }
            }
        }
    }
    sieve
}

#[derive(Clone, Copy, PartialEq, Eq, Hash, Debug)]
/// Generates primes with the classic odd-only sieve of Eratosthenes.
pub struct SieveOfEratosthenes {
    /// Generation ceiling used by the next `gen` call.
    pub max: usize,
}

impl SieveOfEratosthenes {
    /// Creates a new sieve with a zero bound.
    pub fn new() -> (s: Self)
        ensures
            s.bound() == 0,
    {
        SieveOfEratosthenes { max: 0 }
    }
}

impl GenPrime for SieveOfEratosthenes {
    open spec fn bound(&self) -> nat {
        self.max as nat
    }

    fn gen(&mut self) -> (r: Vec<usize>)
        ensures
            prime_seq(r@, 0, old(self).max as nat),
    {
        let max: usize = self.max;
        if max <= 2 {
            proof {
                assert forall|p: usize| is_prime(p as nat) && (p as nat) < max as nat && 0 <= p
                    implies Seq::<usize>::empty().contains(p) by {
                    assert(p as nat >= 2);
                }
            }
            let r: Vec<usize> = Vec::new();
            return r;
        }
        let sieve: Vec<u8> = odd_composite_marks(max);
        let r: Vec<usize> = collect_odd_primes(&sieve, max);
        r
    }

    fn gen_range(&mut self, range: Range<usize>) -> (r: Vec<usize>)
        ensures
            prime_seq(r@, range.start as nat, range.end as nat),
    {
        self.max = range.end;
        let v: Vec<usize> = self.gen();
        let r: Vec<usize> = filter_at_least(&v, range.start);
        proof {
            assert forall|p: usize|
                is_prime(p as nat) && range.start as nat <= p as nat && (p as nat) < range.end as nat
                implies r@.contains(p) by {
                assert(v@.contains(p));
                let kk = choose|kk: int| 0 <= kk < v@.len() && v@[kk] == p;
                assert(v@[kk] >= range.start);
            }
            assert forall|i: int| 0 <= i < r@.len()
                implies is_prime(#[trigger] r@[i] as nat) && range.start <= r@[i] && (r@[i] as nat)
                    < range.end as nat by {
                assert(v@.contains(r@[i]));
                let kk = choose|kk: int| 0 <= kk < v@.len() && v@[kk] == r@[i];
            }
        }
        r
    }
}

} // verus!
