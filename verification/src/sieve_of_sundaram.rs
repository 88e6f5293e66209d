//! The sieve of Sundaram: cross off every `i + j + 2ij`, and what survives at
//! position `k` corresponds to the odd prime `2k + 1`.

use vstd::prelude::*;

verus! {

use crate::primes::{
    is_prime, prime_seq, lemma_composite_has_small_factor, lemma_divisor_of_odd_is_odd,
    lemma_product_is_composite,
};
use crate::gen_prime::{GenPrime, filter_at_least, collect_odd_primes, sieve_decides};
use vstd::arithmetic::div_mod::{lemma_fundamental_div_mod, lemma_fundamental_div_mod_converse_mod};
use core::ops::Range;

/// Every Sundaram position with factors `a, b` below the processed range is
/// marked.
pub open spec fn sund_complete(s: Seq<u8>, limit: int, bound_i: int) -> bool {
    forall|a: int, b: int|
        1 <= a < bound_i && a <= b && a + b + 2 * a * b <= limit ==> #[trigger] s[a + b + 2 * a
            * b] != 0
}

/// Marked Sundaram positions stand for odd composites.
pub open spec fn sund_sound(s: Seq<u8>, limit: int) -> bool {
    forall|k: int| 1 <= k <= limit && #[trigger] s[k] != 0 ==> !is_prime((2 * k + 1) as nat)
}

#[derive(Clone, Copy, PartialEq, Eq, Hash, Debug)]
/// Generates primes with the sieve of Sundaram.
pub struct SieveOfSundaram {
    /// Generation ceiling used by the next `gen` call.
    pub max: usize,
}

impl SieveOfSundaram {
    /// Creates a new sieve with a zero bound.
    pub fn new() -> (s: Self)
        ensures
            s.bound() == 0,
    {
        SieveOfSundaram { max: 0 }
    }
}

impl GenPrime for SieveOfSundaram {
    open spec fn bound(&self) -> nat {
        self.max as nat
    }

    fn gen(&mut self) -> (r: Vec<usize>)
        ensures
            prime_seq(r@, 0, old(self).max as nat),
    {
        let max: usize = self.max;
        if max <= 2 {
            proof {
                assert forall|p: usize| is_prime(p as nat) && (p as nat) < max as nat && 0 <= p
                    implies Seq::<usize>::empty().contains(p) by {
                    assert(p as nat >= 2);
                }
            }
            let r: Vec<usize> = Vec::new();
            return r;
        }
        let limit: usize = (max - 1) / 2;
        let mut sieve: Vec<u8> = Vec::new();
        while sieve.len() < limit + 1
            invariant
                limit < usize::MAX,
                sieve@.len() <= limit + 1,
                forall|p: int| 0 <= p < sieve@.len() ==> sieve@[p] == 0,
            decreases limit + 1 - sieve@.len(),
        {
            sieve.push(0);
        }
        let mut i: usize = 1;
        while i <= limit
            invariant
                max >= 3,
                limit == ((max - 1) / 2) as usize,
                limit < usize::MAX,
                sieve@.len() == limit + 1,
                1 <= i,
                sund_sound(sieve@, limit as int),
                sund_complete(sieve@, limit as int, i as int),
            decreases limit + 1 - i,
        {
            let step: usize = 2 * i + 1;
            proof {
                assert((limit as u128) < 0x8000_0000_0000_0000) by {
                    vstd::arithmetic::div_mod::lemma_div_is_ordered(
                        (max - 1) as int, 0xffff_ffff_ffff_fffe, 2);
                }
                assert((i as u128 + i as u128 + 2 * (i as u128) * (i as u128))
                    < 0xffff_ffff_ffff_ffff_ffff_ffff_ffff_ffff) by (nonlinear_arith)
                    requires (i as u128) < 0x8000_0000_0000_0000;
            }
            let start128: u128 = i as u128 + i as u128 + 2 * (i as u128) * (i as u128);
            if start128 > limit as u128 {
                proof {
                    // Positions only grow with the second factor, so this i
                    // marks nothing inside the table.
                    assert forall|b: int|
                        i as int <= b && i as int + b + 2 * (i as int) * b <= limit as int
                        implies #[trigger] sieve@[i as int + b + 2 * (i as int) * b] != 0 by {
                        assert(i as int + b + 2 * (i as int) * b >= i as int + i as int + 2 * (
                        i as int) * (i as int)) by (nonlinear_arith)
                            requires b >= i as int, i >= 1;
                    }
                }
            } else {
                let mut idx: usize = start128 as usize;
                let ghost mut j: int = i as int;
                loop
                    invariant
                        max >= 3,
                        limit == ((max - 1) / 2) as usize,
                        limit < usize::MAX,
                        sieve@.len() == limit + 1,
                        1 <= i <= limit,
                        step == 2 * i + 1,
                        i as int <= j,
                        idx as int == i as int + j + 2 * (i as int) * j,
                        idx <= limit,
                        sund_sound(sieve@, limit as int),
                        sund_complete(sieve@, limit as int, i as int),
                        forall|b: int|
                            i as int <= b < j && i as int + b + 2 * (i as int) * b
                                <= limit as int ==> #[trigger] sieve@[i as int + b + 2 * (
                            i as int) * b] != 0,
                    ensures
                        sieve@.len() == limit + 1,
                        sund_sound(sieve@, limit as int),
                        sund_complete(sieve@, limit as int, i as int),
                        forall|b: int|
                            i as int <= b && i as int + b + 2 * (i as int) * b <= limit as int
                                ==> #[trigger] sieve@[i as int + b + 2 * (i as int) * b] != 0,
                    decreases limit - idx,
                {
                    let ghost sold: Seq<u8> = sieve@;
                    sieve.set(idx, 1);
                    proof {
                        // 2*idx + 1 factors as (2i+1)(2j+1): composite.
                        assert(2 * (idx as int) + 1 == (2 * (i as int) + 1) * (2 * j + 1))
                            by (nonlinear_arith)
                            requires idx as int == i as int + j + 2 * (i as int) * j;
                        assert(j <= limit) by (nonlinear_arith)
                            requires
                                idx as int == i as int + j + 2 * (i as int) * j,
                                idx <= limit,
                                i >= 1,
                                j >= 1,
                        ;
                        assert((2 * (i as int) + 1) * (2 * j + 1) == ((2 * i + 1) as nat) * ((2
                            * (j as usize) + 1) as nat)) by (nonlinear_arith)
                            requires 1 <= j <= limit, limit < usize::MAX;
                        lemma_product_is_composite((2 * i + 1) as nat, (2 * (j as usize)
                            + 1) as nat);
                        assert forall|k: int| 1 <= k <= limit && #[trigger] sieve@[k] != 0
                            implies !is_prime((2 * k + 1) as nat) by {
                            if k != idx as int {
                                assert(sieve@[k] == sold[k]);
                            }
                        }
                        assert forall|a: int, b: int|
                            1 <= a < i as int && a <= b && a + b + 2 * a * b <= limit as int
                            implies #[trigger] sieve@[a + b + 2 * a * b] != 0 by {
                            assert(a + b + 2 * a * b >= 0) by (nonlinear_arith)
                                requires a >= 1, b >= 1;
                            if a + b + 2 * a * b != idx as int {
                                assert(sieve@[a + b + 2 * a * b] == sold[a + b + 2 * a * b]);
                            }
                        }
                        assert forall|b: int|
                            i as int <= b < j + 1 && i as int + b + 2 * (i as int) * b
                                <= limit as int
                            implies #[trigger] sieve@[i as int + b + 2 * (i as int) * b] != 0 by {
                            assert(i as int + b + 2 * (i as int) * b >= 0) by (nonlinear_arith)
                                requires i as int >= 1, b >= 1;
                            if b < j {
                                assert(sold[i as int + b + 2 * (i as int) * b] != 0);
                                if i as int + b + 2 * (i as int) * b != idx as int {
                                    assert(sieve@[i as int + b + 2 * (i as int) * b]
                                        == sold[i as int + b + 2 * (i as int) * b]);
                                }
                            }
                        }
                    }
                    if limit - idx >= step {
                        let ghost idxold: int = idx as int;
                        idx = idx + step;
                        proof {
                            j = j + 1;
                            assert(idx as int == i as int + j + 2 * (i as int) * j)
                                by (nonlinear_arith)
                                requires
                                    idx as int == idxold + 2 * (i as int) + 1,
                                    idxold == i as int + (j - 1) + 2 * (i as int) * (j - 1),
                            ;
                        }
                    } else {
                        proof {
                            // Any later position exceeds the table.
                            assert forall|b: int|
                                i as int <= b && i as int + b + 2 * (i as int) * b
                                    <= limit as int
                                implies #[trigger] sieve@[i as int + b + 2 * (i as int) * b]
                                    != 0 by {
                                if b > j {
                                    assert(i as int + b + 2 * (i as int) * b >= i as int + (j
                                        + 1) + 2 * (i as int) * (j + 1)) by (nonlinear_arith)
                                        requires b >= j + 1, i >= 1;
                                    assert(i as int + (j + 1) + 2 * (i as int) * (j + 1)
                                        == idx as int + 2 * (i as int) + 1) by (nonlinear_arith)
                                        requires idx as int == i as int + j + 2 * (i as int) * j;
                                }
                            }
                        }
                        break;
                    }
                }
            }
            proof {
                assert(sund_complete(sieve@, limit as int, i as int + 1)) by {
                    assert forall|a: int, b: int|
                        1 <= a < i as int + 1 && a <= b && a + b + 2 * a * b <= limit as int
                        implies #[trigger] sieve@[a + b + 2 * a * b] != 0 by {
                        if a == i as int {
                            assert(sieve@[i as int + b + 2 * (i as int) * b] != 0);
                        }
                    }
                }
            }
            i = i + 1;
        }
        // The sieve decides primality of the odd numbers below max.
        proof {
            assert(sieve_decides(sieve@, max as int)) by {
                assert forall|c: int| 3 <= c < max && c % 2 == 1
                    implies (#[trigger] sieve@[c / 2] == 0 <==> is_prime(c as nat)) by {
                    let k = c / 2;
                    lemma_fundamental_div_mod(c, 2);
                    assert(c == 2 * k + 1);
                    assert(1 <= k <= limit) by {
                        lemma_fundamental_div_mod((max - 1) as int, 2);
                    }
                    if sieve@[k] == 0 {
                        if !is_prime(c as nat) {
                            // An odd composite factors as (2a'+1)(2b'+1).
                            lemma_composite_has_small_factor(c as nat);
                            let a = choose|a: nat|
                                2 <= a < c as nat && a * a <= c as nat && #[trigger] ((c as nat)
                                    % a) == 0;
                            lemma_divisor_of_odd_is_odd(a, c as nat);
                            let b: int = c / (a as int);
                            lemma_fundamental_div_mod(c, a as int);
                            assert(c == (a as int) * b);
                            assert((a as int) <= b) by (nonlinear_arith)
                                requires
                                    c == (a as int) * b,
                                    (a as int) * (a as int) <= c,
                                    a >= 2,
                            ;
                            assert(b % 2 == 1) by {
                                if b % 2 == 0 {
                                    lemma_fundamental_div_mod(b, 2);
                                    assert(c == 2 * ((a as int) * (b / 2))) by (nonlinear_arith)
                                        requires c == (a as int) * b, b == 2 * (b / 2);
                                    lemma_fundamental_div_mod_converse_mod(
                                        c, 2, (a as int) * (b / 2), 0);
                                }
                            }
                            let a0: int = (a as int - 1) / 2;
                            let b0: int = (b - 1) / 2;
                            lemma_fundamental_div_mod(a as int - 1, 2);
                            lemma_fundamental_div_mod(b - 1, 2);
                            assert(a as int == 2 * a0 + 1 && b == 2 * b0 + 1) by {
                                lemma_fundamental_div_mod_converse_mod(a as int - 1, 2, a0, 0);
                                lemma_fundamental_div_mod_converse_mod(b - 1, 2, b0, 0);
                            }
                            assert(k == a0 + b0 + 2 * a0 * b0) by (nonlinear_arith)
                                requires
                                    c == (a as int) * b,
                                    a as int == 2 * a0 + 1,
                                    b == 2 * b0 + 1,
                                    c == 2 * k + 1,
                            ;
                            assert(1 <= a0 && a0 <= b0);
                            assert(sieve@[a0 + b0 + 2 * a0 * b0] != 0);
                        }
                    }
                }
            }
        }
        let r: Vec<usize> = collect_odd_primes(&sieve, max);
        r
    }

    fn gen_range(&mut self, range: Range<usize>) -> (r: Vec<usize>)
        ensures
            prime_seq(r@, range.start as nat, range.end as nat),
    {
        self.max = range.end;
        let v: Vec<usize> = self.gen();
        let r: Vec<usize> = filter_at_least(&v, range.start);
        proof {
            assert forall|p: usize|
                is_prime(p as nat) && range.start as nat <= p as nat && (p as nat) < range.end as nat
                implies r@.contains(p) by {
                assert(v@.contains(p));
                let kk = choose|kk: int| 0 <= kk < v@.len() && v@[kk] == p;
                assert(v@[kk] >= range.start);
            }
            assert forall|i: int| 0 <= i < r@.len()
                implies is_prime(#[trigger] r@[i] as nat) && range.start <= r@[i] && (r@[i] as nat)
                    < range.end as nat by {
                assert(v@.contains(r@[i]));
                let kk = choose|kk: int| 0 <= kk < v@.len() && v@[kk] == r@[i];
            }
        }
        r
    }
}

} // verus!
