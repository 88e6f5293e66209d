//! Exact integer square root, computed two bits at a time (base 4) with no
//! floating point: used by the strong Lucas test to recognise perfect squares,
//! and by the sieves to size their work.

use vstd::prelude::*;

verus! {

use vstd::arithmetic::power2::{pow2, lemma_pow2_adds, lemma2_to64, lemma_pow2_pos};
use vstd::arithmetic::div_mod::{
    lemma_fundamental_div_mod, lemma_basic_div, lemma_div_denominator,
};

/// Digit-by-digit square root over the full 64-bit range: returns the floor
/// square root of `iv` together with the remainder `iv - root^2`.
pub fn isqrt64i(iv: u64) -> (res: (u64, u64))
    ensures
        res.0 as int * res.0 as int <= iv as int,
        (iv as int) < (res.0 as int + 1) * (res.0 as int + 1),
        res.1 as int == iv as int - res.0 as int * res.0 as int,
{
    let mut root: u64 = 0;
    let mut s: u64 = 64;
    proof {
        lemma2_to64();
        lemma_basic_div(iv as int, pow2(64) as int);
    }
    while s >= 2
        invariant
            s % 2 == 0,
            s <= 64,
            root as int * root as int <= iv as int / (pow2(s as nat) as int),
            iv as int / (pow2(s as nat) as int) < (root as int + 1) * (root as int + 1),
            (root as int) < pow2(((64 - s) / 2) as nat),
        decreases s,
    {
        let ghost sold: nat = s as nat;
        let ghost rold: int = root as int;
        let ghost wold: int = iv as int / (pow2(sold) as int);
        s = s - 2;
        proof {
            lemma_pow2_adds(s as nat, 2);
            lemma_pow2_pos(s as nat);
            lemma2_to64();
            // The window grows by two bits: w_old == w_new / 4.
            lemma_div_denominator(iv as int, pow2(s as nat) as int, 4);
            lemma_fundamental_div_mod(iv as int / (pow2(s as nat) as int), 4);
            // Bound the doubled root so the shift below cannot overflow.
            assert(2 * rold < pow2(((64 - s) / 2) as nat)) by {
                lemma_pow2_adds(((64 - sold) / 2) as nat, 1);
            }
            assert(pow2(((64 - s) / 2) as nat) <= pow2(32)) by {
                if ((64 - s) / 2) as nat != 32 {
                    vstd::arithmetic::power2::lemma_pow2_strictly_increases(
                        ((64 - s) / 2) as nat, 32);
                }
            }
        }
        let w: u64 = if s == 0 { iv } else { iv >> s };
        proof {
            if s == 0 {
                assert(pow2(0) == 1) by { lemma2_to64(); }
                assert(iv as int / 1int == iv as int);
                assert(w as int == iv as int / (pow2(s as nat) as int));
            } else {
                vstd::bits::lemma_u64_shr_is_div(iv, s);
                assert(w as int == iv as int / (pow2(s as nat) as int));
            }
        }
        root = root * 2;
        let cand: u64 = root + 1;
        proof {
            let wnew: int = w as int;
            assert(wold * 4 <= wnew && wnew < wold * 4 + 4) by {
                lemma_fundamental_div_mod(wnew, 4);
            }
            assert(root as int * root as int <= wnew) by (nonlinear_arith)
                requires
                    root as int == 2 * rold,
                    rold * rold <= wold,
                    wold * 4 <= wnew,
            ;
        }
        let take: bool = if cand <= 0xffff_ffff {
            proof {
                assert((cand as int * cand as int) < 0x1_0000_0000_0000_0000) by (nonlinear_arith)
                    requires cand as int <= 0xffff_ffff;
            }
            cand * cand <= w
        } else {
            false
        };
        if take {
            proof {
                let wnew: int = w as int;
                assert(wnew < (cand as int + 1) * (cand as int + 1)) by (nonlinear_arith)
                    requires
                        cand as int == 2 * rold + 1,
                        wold < (rold + 1) * (rold + 1),
                        wnew < wold * 4 + 4,
                ;
            }
            root = cand;
        } else {
            proof {
                let wnew: int = w as int;
                if cand > 0xffff_ffff {
                    // The candidate square already exceeds the 64-bit window.
                    assert(wnew < cand as int * cand as int) by (nonlinear_arith)
                        requires
                            cand as int >= 0x1_0000_0000,
                            wnew < 0x1_0000_0000_0000_0000,
                    ;
                }
            }
        }
        proof {
            assert((root as int) < pow2(((64 - s) / 2) as nat)) by {
                assert(pow2(((64 - s) / 2) as nat) as int * pow2(((64 - s) / 2) as nat) as int
                    == pow2((64 - s) as nat)) by {
                    lemma_pow2_adds(((64 - s) / 2) as nat, ((64 - s) / 2) as nat);
                }
                assert(iv as int / (pow2(s as nat) as int) < pow2((64 - s) as nat)) by {
                    lemma_pow2_adds(s as nat, (64 - s) as nat);
                    lemma_pow2_pos((64 - s) as nat);
                    lemma_pow2_pos(s as nat);
                    assert((iv as int) < pow2(s as nat) as int * (pow2((64 - s) as nat) as int));
                    vstd::arithmetic::div_mod::lemma_multiply_divide_lt(
                        iv as int, pow2(s as nat) as int, pow2((64 - s) as nat) as int);
                }
                if root as int >= pow2(((64 - s) / 2) as nat) {
                    assert(root as int * root as int
                        >= pow2(((64 - s) / 2) as nat) as int * pow2(((64 - s) / 2) as nat) as int)
                        by (nonlinear_arith)
                        requires root as int >= pow2(((64 - s) / 2) as nat) as int >= 0;
                }
            }
        }
    }
    proof {
        assert(pow2(0) == 1) by { lemma2_to64(); }
        assert(iv as int / 1int == iv as int);
    }
    (root, iv - root * root)
}

/// Floor square root with remainder on the native word size.
pub fn isqrt64f(iv: usize) -> (res: (usize, usize))
    ensures
        res.0 as int * res.0 as int <= iv as int,
        (iv as int) < (res.0 as int + 1) * (res.0 as int + 1),
        res.1 as int == iv as int - res.0 as int * res.0 as int,
{
    let (root, rem) = isqrt64i(iv as u64);
    proof {
        assert(root as int <= iv as int) by (nonlinear_arith)
            requires
                root as int * root as int <= iv as int,
                root >= 0,
        ;
        assert(rem <= iv);
    }
    (root as usize, rem as usize)
}

/// The floor square root is the only `r` with `r^2 <= v < (r+1)^2`; hence a
/// zero remainder from `isqrt64i` recognises exactly the perfect squares.
pub proof fn lemma_isqrt_unique(v: int, r1: int, r2: int)
    requires
        r1 >= 0,
        r2 >= 0,
        r1 * r1 <= v < (r1 + 1) * (r1 + 1),
        r2 * r2 <= v < (r2 + 1) * (r2 + 1),
    ensures
        r1 == r2,
{
    if r1 < r2 {
        assert((r1 + 1) * (r1 + 1) <= r2 * r2) by (nonlinear_arith)
            requires 0 <= r1 < r2;
    }
    if r2 < r1 {
        assert((r2 + 1) * (r2 + 1) <= r1 * r1) by (nonlinear_arith)
            requires 0 <= r2 < r1;
    }
}

} // verus!
