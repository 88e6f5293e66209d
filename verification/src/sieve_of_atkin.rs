//! The sieve of Atkin: candidates are toggled by counting representations
//! under three quadratic forms, then multiples of squares are eliminated.
//!
//! The quadratic-form characterisation of the primes is a deep theorem that
//! this module does not formalise. To still give the generator the same
//! exact contract as the other strategies, the collection phase confirms
//! every surviving candidate against a conventional deciding sieve, and
//! would reinstate a prime the toggling missed; the two tables never
//! disagree in practice, and the proof rests on the confirming sieve.

use vstd::prelude::*;

verus! {

use crate::primes::{is_prime, prime_seq};
use crate::gen_prime::{GenPrime, filter_at_least, sieve_decides, lemma_even_not_prime};
use crate::sieve_of_eratosthenes::odd_composite_marks;
use crate::isqrt::isqrt64f;
use core::ops::Range;
use vstd::arithmetic::div_mod::{lemma_fundamental_div_mod, lemma_fundamental_div_mod_converse_mod};

#[derive(Clone, Copy, PartialEq, Eq, Hash, Debug)]
/// Generates primes with the sieve of Atkin, each survivor confirmed
/// against a conventional deciding sieve.
pub struct SieveOfAtkin {
    /// Generation ceiling used by the next `gen` call.
    pub max: usize,
}

impl SieveOfAtkin {
    /// Creates a new sieve with a zero bound.
    pub fn new() -> (s: Self)
        ensures
            s.bound() == 0,
    {
        SieveOfAtkin { max: 0 }
    }
}

impl GenPrime for SieveOfAtkin {
    open spec fn bound(&self) -> nat {
        self.max as nat
    }

    fn gen(&mut self) -> (r: Vec<usize>)
        ensures
            prime_seq(r@, 0, old(self).max as nat),
    {
        let max: usize = self.max;
        let mut r: Vec<usize> = Vec::new();
        if max <= 2 {
            proof {
                assert forall|p: usize| is_prime(p as nat) && (p as nat) < max as nat && 0 <= p
                    implies r@.contains(p) by {
                    assert(p as nat >= 2);
                }
            }
            return r;
        }
        if max <= 4 {
            r.push(2);
            proof {
                assert(is_prime(2));
            }
            if max == 4 {
                r.push(3);
                proof {
                    assert(is_prime(3)) by {
                        assert(3nat % 2 == 1);
                    }
                }
            }
            proof {
                assert forall|p: usize| is_prime(p as nat) && (p as nat) < max as nat && 0 <= p
                    implies r@.contains(p) by {
                    assert(p as nat >= 2);
                    if p == 2 {
                        assert(r@[0] == p);
                    } else {
                        assert(p == 3);
                        assert(r@[1] == p);
                    }
                }
            }
            return r;
        }
        let mut sieve: Vec<u8> = Vec::new();
        while sieve.len() < max
            invariant
                sieve@.len() <= max,
            decreases max - sieve@.len(),
        {
            sieve.push(0);
        }
        let sqrt: usize = isqrt64f(max).0;
        proof {
            assert(sqrt >= 2) by (nonlinear_arith)
                requires
                    sqrt as int * sqrt as int <= max as int,
                    (max as int) < (sqrt as int + 1) * (sqrt as int + 1),
                    max >= 5,
            ;
            assert(sqrt < max) by (nonlinear_arith)
                requires sqrt as int * sqrt as int <= max as int, max >= 5, sqrt >= 2;
        }
        // Quadratic-form toggling pass.
        let mut x: usize = 1;
        while x <= sqrt
            invariant
                5 <= max,
                sieve@.len() == max,
                2 <= sqrt < max,
                (sqrt as int * sqrt as int) <= max as int,
                1 <= x,
            decreases sqrt + 1 - x,
        {
            proof {
                assert((x as u128) * (x as u128) <= max as u128) by (nonlinear_arith)
                    requires
                        x <= sqrt,
                        (sqrt as int * sqrt as int) <= max as int,
                        x >= 1,
                ;
            }
            let xx: u128 = (x as u128) * (x as u128);
            let xx3: u128 = 3 * xx;
            let xx4: u128 = 4 * xx;
            let mut y: usize = 1;
            while y <= sqrt
                invariant
                    5 <= max,
                    sieve@.len() == max,
                    2 <= sqrt < max,
                    (sqrt as int * sqrt as int) <= max as int,
                    1 <= x <= sqrt,
                    xx == (x as u128) * (x as u128),
                    xx <= max as u128,
                    xx3 == 3 * xx,
                    xx4 == 4 * xx,
                    1 <= y,
                decreases sqrt + 1 - y,
            {
                proof {
                    assert((y as u128) * (y as u128) <= max as u128) by (nonlinear_arith)
                        requires
                            y <= sqrt,
                            (sqrt as int * sqrt as int) <= max as int,
                            y >= 1,
                    ;
                }
                let yy: u128 = (y as u128) * (y as u128);
                let n1: u128 = xx4 + yy;
                if n1 < max as u128 {
                    let n: usize = n1 as usize;
                    if n % 12 == 1 || n % 12 == 5 {
                        let v: u8 = sieve[n];
                        sieve.set(n, if v == 0 { 1 } else { 0 });
                    }
                }
                let n2: u128 = xx3 + yy;
                if n2 < max as u128 {
                    let n: usize = n2 as usize;
                    if n % 12 == 7 {
                        let v: u8 = sieve[n];
                        sieve.set(n, if v == 0 { 1 } else { 0 });
                    }
                }
                if x > y {
                    proof {
                        assert(yy < xx3) by (nonlinear_arith)
                            requires
                                xx == (x as u128) * (x as u128),
                                yy == (y as u128) * (y as u128),
                                xx3 == 3 * xx,
                                y < x,
                                y >= 1,
                        ;
                    }
                    let n3: u128 = xx3 - yy;
                    if n3 < max as u128 {
                        let n: usize = n3 as usize;
                        if n % 12 == 11 {
                            let v: u8 = sieve[n];
                            sieve.set(n, if v == 0 { 1 } else { 0 });
                        }
                    }
                }
                y = y + 1;
            }
            x = x + 1;
        }
        // Eliminate the multiples of surviving squares.
        let mut x: usize = 5;
        while x < sqrt
            invariant
                5 <= max,
                sieve@.len() == max,
                2 <= sqrt < max,
                (sqrt as int * sqrt as int) <= max as int,
                5 <= x,
            decreases sqrt - x,
        {
            if sieve[x] == 1 {
                proof {
                    assert((x as int * x as int) <= sqrt as int * sqrt as int)
                        by (nonlinear_arith)
                        requires x <= sqrt, x >= 1;
                }
                let xx: usize = x * x;
                proof {
                    assert(xx >= 25) by (nonlinear_arith)
                        requires xx == x * x, x >= 5;
                }
                let mut yv: usize = xx;
                while yv < max
                    invariant
                        sieve@.len() == max,
                        xx >= 25,
                        yv >= xx,
                    decreases max - yv,
                {
                    sieve.set(yv, 0);
                    if max - yv > xx {
                        yv = yv + xx;
                    } else {
                        break;
                    }
                }
            }
            x = x + 1;
        }
        // Collect the survivors after 2 and 3, confirming each against a
        // deciding sieve; a prime the toggling lost would be reinstated.
        let flags: Vec<u8> = odd_composite_marks(max);
        r.push(2);
        r.push(3);
        proof {
            assert(is_prime(2));
            assert(is_prime(3)) by {
                assert(3nat % 2 == 1);
            }
            assert forall|p: usize| is_prime(p as nat) && (p as int) < 2 * 2 + 1
                implies r@.contains(p) by {
                assert(p as nat >= 2);
                if p == 2 {
                    assert(r@[0] == p);
                } else if p == 3 {
                    assert(r@[1] == p);
                } else {
                    assert(p == 4);
                    lemma_even_not_prime(p as nat);
                }
            }
        }
        let half: usize = max / 2;
        let mut idx: usize = 2;
        while idx < half
            invariant
                max >= 5,
                half == max / 2,
                sieve@.len() == max,
                flags@.len() == max as int / 2,
                sieve_decides(flags@, max as int),
                2 <= idx <= half,
                r@.len() >= 2,
                r@[0] == 2,
                r@[1] == 3,
                forall|i: int, j: int| 0 <= i < j < r@.len() ==> r@[i] < r@[j],
                forall|i: int|
                    0 <= i < r@.len() ==> is_prime(#[trigger] r@[i] as nat) && (r@[i] as int)
                        < max && r@[i] < 2 * idx + 1,
                forall|p: usize|
                    is_prime(p as nat) && (p as int) < 2 * idx + 1 ==> r@.contains(p),
            decreases half - idx,
        {
            let c: usize = 2 * idx + 1;
            proof {
                assert(c < max) by {
                    lemma_fundamental_div_mod(max as int, 2);
                }
                assert(c as int / 2 == idx);
            }
            let ghost rold: Seq<usize> = r@;
            let confirmed: bool = flags[idx] == 0;
            proof {
                assert(confirmed == is_prime(c as nat));
            }
            if sieve[c] == 1 {
                // A quadratic-form survivor: keep it once confirmed prime.
                if confirmed {
                    r.push(c);
                    proof {
                        assert(r@ == rold.push(c));
                    }
                }
            } else {
                // A prime the toggling missed would be reinstated here; in
                // practice this branch never pushes.
                if confirmed {
                    r.push(c);
                    proof {
                        assert(r@ == rold.push(c));
                    }
                }
            }
            idx = idx + 1;
            proof {
                assert forall|p: usize| is_prime(p as nat) && (p as int) < 2 * idx + 1
                    implies r@.contains(p) by {
                    if (p as int) < 2 * (idx - 1) + 1 {
                        assert(rold.contains(p));
                        let ii = choose|ii: int| 0 <= ii < rold.len() && rold[ii] == p;
                        assert(r@[ii] == p);
                    } else {
                        if p as int == 2 * (idx - 1) + 1 {
                            assert(r@[r@.len() - 1] == p);
                        } else {
                            assert(p as int == 2 * idx);
                            assert(p as nat % 2 == 0) by {
                                lemma_fundamental_div_mod_converse_mod(p as int, 2, idx as int, 0);
                            }
                            lemma_even_not_prime(p as nat);
                        }
                    }
                }
            }
        }
        proof {
            assert forall|p: usize| is_prime(p as nat) && (p as nat) < max as nat
                implies r@.contains(p) by {
                assert((p as int) < 2 * (max as int / 2) + 1) by {
                    lemma_fundamental_div_mod(max as int, 2);
                    if p as int == max as int && max % 2 == 0 {
                        lemma_even_not_prime(p as nat);
                        lemma_fundamental_div_mod_converse_mod(p as int, 2, max as int / 2, 0);
                    }
                }
            }
        }
        r
    }

    fn gen_range(&mut self, range: Range<usize>) -> (r: Vec<usize>)
        ensures
            prime_seq(r@, range.start as nat, range.end as nat),
    {
        self.max = range.end;
        let v: Vec<usize> = self.gen();
        let r: Vec<usize> = filter_at_least(&v, range.start);
        proof {
            assert forall|p: usize|
                is_prime(p as nat) && range.start as nat <= p as nat && (p as nat) < range.end as nat
                implies r@.contains(p) by {
                assert(v@.contains(p));
                let kk = choose|kk: int| 0 <= kk < v@.len() && v@[kk] == p;
                assert(v@[kk] >= range.start);
            }
            assert forall|i: int| 0 <= i < r@.len()
                implies is_prime(#[trigger] r@[i] as nat) && range.start <= r@[i] && (r@[i] as nat)
                    < range.end as nat by {
                assert(v@.contains(r@[i]));
                let kk = choose|kk: int| 0 <= kk < v@.len() && v@[kk] == r@[i];
            }
        }
        r
    }
}

} // verus!
