//! Montgomery modular arithmetic for a fixed odd modulus: residues are kept in
//! a transformed domain where multiplication needs no division. All public
//! contracts are stated over ordinary integers modulo `n`; the transformed
//! representation shows up in contracts only through the factor `2^64`.

use vstd::prelude::*;

verus! {

use vstd::arithmetic::div_mod::{
    lemma_fundamental_div_mod, lemma_fundamental_div_mod_converse_mod, lemma_mod_division_less_than_divisor,
    lemma_mod_mod, lemma_mod_equivalence, lemma_mul_mod_noop, lemma_mul_mod_noop_right,
    lemma_sub_mod_noop_right, lemma_mod_multiples_vanish, lemma_small_mod,
    lemma_mod_sub_multiples_vanish, lemma_mod_bound, lemma_mul_mod_noop_general,
    lemma_mul_mod_noop_left, lemma_div_denominator, lemma_mod_breakdown,
};
use vstd::arithmetic::power2::{pow2, lemma_pow2_adds, lemma_pow2_pos, lemma2_to64, lemma_pow2_strictly_increases};
use vstd::arithmetic::power::{pow, lemma_pow_adds, lemma_pow0, lemma_pow1};
use vstd::wrapping::u64_specs;

/// If doubles are congruent modulo an odd `m`, so are the halves.
pub proof fn lemma_cancel_two_mod(a: int, b: int, m: int)
    requires
        m % 2 == 1,
        m > 0,
        (2 * a) % m == (2 * b) % m,
    ensures
        a % m == b % m,
{
    lemma_mod_equivalence(2 * a, 2 * b, m);
    let q = (2 * a - 2 * b) / m;
    lemma_fundamental_div_mod(2 * a - 2 * b, m);
    assert(2 * (a - b) == q * m);
    assert(q % 2 == 0) by {
        if q % 2 == 1 {
            let qh = q / 2;
            lemma_fundamental_div_mod(q, 2);
            let mh = m / 2;
            lemma_fundamental_div_mod(m, 2);
            assert(2 * (a - b) == (2 * qh + 1) * (2 * mh + 1)) by (nonlinear_arith)
                requires 2 * (a - b) == q * m, q == 2 * qh + 1, m == 2 * mh + 1;
            assert((2 * qh + 1) * (2 * mh + 1) == 2 * (2 * qh * mh + qh + mh) + 1) by (nonlinear_arith);
        }
    }
    let qh = q / 2;
    lemma_fundamental_div_mod(q, 2);
    assert(2 * (a - b) == 2 * (qh * m)) by (nonlinear_arith)
        requires 2 * (a - b) == q * m, q == 2 * qh;
    assert(a - b == qh * m);
    lemma_fundamental_div_mod_converse_mod(a - b, m, qh, 0);
    lemma_mod_equivalence(a, b, m);
}

/// Congruence modulo an odd `m` can be cancelled by any power of two.
pub proof fn lemma_cancel_pow2_mod(a: int, b: int, k: nat, m: int)
    requires
        m % 2 == 1,
        m > 0,
        (a * pow2(k)) % m == (b * pow2(k)) % m,
    ensures
        a % m == b % m,
    decreases k,
{
    if k == 0 {
        assert(pow2(0) == 1) by { lemma2_to64(); }
        assert(a * pow2(k) == a) by (nonlinear_arith)
            requires k == 0, pow2(0nat) == 1;
        assert(b * pow2(k) == b) by (nonlinear_arith)
            requires k == 0, pow2(0nat) == 1;
    } else {
        lemma_pow2_adds((k - 1) as nat, 1);
        assert(pow2(1) == 2) by { lemma2_to64(); }
        assert(a * pow2(k) == (2 * a) * pow2((k - 1) as nat)) by (nonlinear_arith)
            requires pow2(k) == pow2((k - 1) as nat) * 2;
        assert(b * pow2(k) == (2 * b) * pow2((k - 1) as nat)) by (nonlinear_arith)
            requires pow2(k) == pow2((k - 1) as nat) * 2;
        lemma_cancel_pow2_mod(2 * a, 2 * b, (k - 1) as nat, m);
        lemma_cancel_two_mod(a, b, m);
    }
}


/// Multiplication respects congruence modulo `m`.
pub proof fn lemma_mod_mul_cong(a: int, a2: int, b: int, b2: int, m: int)
    requires
        m > 0,
        a % m == a2 % m,
        b % m == b2 % m,
    ensures
        (a * b) % m == (a2 * b2) % m,
{
    lemma_mul_mod_noop_general(a, b, m);
    lemma_mul_mod_noop_general(a2, b2, m);
}

/// Precomputed context for arithmetic modulo an odd `n > 2`.
pub struct MontgomeryMultiplication {
    /// The modulus.
    pub n: u64,
    /// Inverse of `n` modulo `2^64`, from Newton iteration.
    pub ni: u64,
    /// `(n + 1) / 2`, the offset used to halve odd residues.
    pub nh: u64,
    /// `2^64 mod n`: the Montgomery image of 1.
    pub r: u64,
    /// `n - r`: the Montgomery image of `n - 1`.
    pub rn: u64,
    /// `2^128 mod n`, used to lift a value into the Montgomery domain.
    pub r2: u64,
    /// Odd part of `n - 1`.
    pub d: u64,
    /// Power of two in `n - 1 = d * 2^k`.
    pub k: u32,
}

impl MontgomeryMultiplication {
    /// The derived fields really are the stated functions of the modulus.
    pub open spec fn wf(&self) -> bool {
        &&& self.n % 2 == 1
        &&& self.n > 2
        &&& (self.n as int * self.ni as int) % (pow2(64) as int) == 1
        &&& self.nh == (self.n + 1) / 2
        &&& self.r == pow2(64) as int % (self.n as int)
        &&& self.rn == self.n - self.r
        &&& self.r2 == pow2(128) as int % (self.n as int)
        &&& self.d % 2 == 1
        &&& self.k < 64
        &&& self.n - 1 == self.d * pow2(self.k as nat)
    }

    pub fn new(n: u64) -> (m: Self)
        requires
            n % 2 == 1,
            n > 2,
        ensures
            m.wf(),
            m.n == n,
    {
        proof {
            lemma2_to64();
            // Seed: n * n == 1 (mod 8) for every odd n.
            let w: int = (n % 8) as int;
            lemma_mod_mod(n as int, 2, 4);
            assert(w == 1 || w == 3 || w == 5 || w == 7);
            lemma_mul_mod_noop(n as int, n as int, 8);
            assert((n as int * n as int) % 8 == 1);
        }
        let mut ni: u64 = n;
        proof { lemma_newton_step(n, ni, 3); }
        ni = ni.wrapping_mul(2u64.wrapping_sub(n.wrapping_mul(ni)));
        proof { lemma_newton_step(n, ni, 6); }
        ni = ni.wrapping_mul(2u64.wrapping_sub(n.wrapping_mul(ni)));
        proof { lemma_newton_step(n, ni, 12); }
        ni = ni.wrapping_mul(2u64.wrapping_sub(n.wrapping_mul(ni)));
        proof { lemma_newton_step(n, ni, 24); }
        ni = ni.wrapping_mul(2u64.wrapping_sub(n.wrapping_mul(ni)));
        proof { lemma_newton_step(n, ni, 48); }
        ni = ni.wrapping_mul(2u64.wrapping_sub(n.wrapping_mul(ni)));
        assert((n as int * ni as int) % (pow2(64) as int) == 1);

        proof {
            assert(n >> 1 == n / 2) by (bit_vector);
        }
        let nh: u64 = (n >> 1) + 1;
        proof {
            lemma_fundamental_div_mod(n as int, 2);
            vstd::arithmetic::div_mod::lemma_fundamental_div_mod_converse_div(
                n as int + 1, 2, n as int / 2 + 1, 0);
            assert(nh as int == (n + 1) as int / 2);
        }

        let r: u64 = 0u64.wrapping_sub(n) % n;
        proof {
            assert(u64_specs::wrapping_sub(0u64, n) as int == pow2(64) - n);
            lemma_mod_sub_multiples_vanish(pow2(64) as int, n as int);
            assert(r as int == pow2(64) as int % (n as int));
        }
        let rn: u64 = n - r;
        proof {
            lemma_mod_division_less_than_divisor(pow2(64) as int, n as int);
        }

        let r2: u64 = (0u128.wrapping_sub(n as u128) % (n as u128)) as u64;
        proof {
            assert(0u128.wrapping_sub(n as u128) as int == pow2(128) - n) by {
                lemma_pow2_adds(64, 64);
                lemma2_to64();
                assert(u128::MAX as int + 1 == pow2(128));
            }
            lemma_mod_sub_multiples_vanish(pow2(128) as int, n as int);
            lemma_mod_division_less_than_divisor(pow2(128) as int, n as int);
            assert(r2 as int == pow2(128) as int % (n as int));
        }

        let mut d: u64 = n - 1;
        let mut k: u32 = 0;
        proof {
            assert(pow2(0) == 1) by { lemma2_to64(); }
        }
        while d % 2 == 0
            invariant
                1 <= d,
                k < 64,
                n - 1 == d * pow2(k as nat),
                n > 2,
            decreases d,
        {
            proof {
                lemma_pow2_adds(k as nat, 1);
                assert(pow2(1) == 2) by { lemma2_to64(); }
                lemma_fundamental_div_mod(d as int, 2);
                assert((d / 2) as int * pow2((k + 1) as nat) == d as int * pow2(k as nat)) by (nonlinear_arith)
                    requires
                        d as int == 2 * ((d / 2) as int),
                        pow2((k + 1) as nat) == pow2(k as nat) * 2,
                ;
                assert(k + 1 < 64) by {
                    if k + 1 >= 64 {
                        assert(k == 63);
                        assert(d / 2 >= 1);
                        assert((d / 2) as int * pow2(64) >= pow2(64)) by (nonlinear_arith)
                            requires (d / 2) as int >= 1;
                        assert(pow2(64) > u64::MAX) by { lemma2_to64(); }
                    }
                }
            }
            d = d / 2;
            k = k + 1;
        }

        MontgomeryMultiplication { n, ni, nh, r, rn, r2, d, k }
    }

    /// Modular addition of residues.
    pub fn add(&self, a: u64, b: u64) -> (r: u64)
        requires
            self.wf(),
            a < self.n,
            b < self.n,
        ensures
            r < self.n,
            r as int == (a as int + b as int) % (self.n as int),
    {
        let n128: u128 = self.n as u128;
        let s: u128 = a as u128 + b as u128;
        if s >= n128 {
            proof {
                lemma_mod_sub_multiples_vanish(s as int, self.n as int);
                lemma_small_mod((s - n128) as nat, self.n as nat);
            }
            (s - n128) as u64
        } else {
            proof {
                lemma_small_mod(s as nat, self.n as nat);
            }
            s as u64
        }
    }

    /// Modular subtraction of residues.
    pub fn sub(&self, a: u64, b: u64) -> (r: u64)
        requires
            self.wf(),
            a < self.n,
            b < self.n,
        ensures
            r < self.n,
            r as int == (a as int - b as int) % (self.n as int),
    {
        if a >= b {
            proof {
                lemma_small_mod((a - b) as nat, self.n as nat);
            }
            a - b
        } else {
            proof {
                lemma_mod_multiples_vanish(1, a as int - b as int, self.n as int);
                lemma_small_mod((a + self.n - b) as nat, self.n as nat);
            }
            a + (self.n - b)
        }
    }

    /// Halves a residue modulo the odd modulus.
    pub fn div2(&self, ar: u64) -> (r: u64)
        requires
            self.wf(),
            ar < self.n,
        ensures
            r < self.n,
            (2 * r as int) % (self.n as int) == ar as int % (self.n as int),
    {
        if ar % 2 == 0 {
            proof {
                lemma_fundamental_div_mod(ar as int, 2);
                lemma_small_mod(ar as nat, self.n as nat);
            }
            ar / 2
        } else {
            proof {
                lemma_fundamental_div_mod(ar as int, 2);
                assert(ar as int == 2 * ((ar / 2) as int) + 1);
                assert(self.n as int == 2 * ((self.nh - 1) as int) + 1);
                assert(ar / 2 + self.nh < self.n);
                assert(2 * ((ar / 2 + self.nh) as int) == ar + self.n);
                lemma_mod_multiples_vanish(1, ar as int, self.n as int);
                lemma_small_mod((ar / 2 + self.nh) as nat, self.n as nat);
                lemma_small_mod(ar as nat, self.n as nat);
            }
            ar / 2 + self.nh
        }
    }

    /// REDC multiplication: for residues `ar`, `br` returns the residue
    /// congruent to `ar * br / 2^64` modulo `n`, without any division by `n`.
    pub fn mrmul(&self, ar: u64, br: u64) -> (r: u64)
        requires
            self.wf(),
            (ar as int * br as int) < (self.n as int) * pow2(64),
        ensures
            r < self.n,
            (r as int * pow2(64)) % (self.n as int) == (ar as int * br as int) % (self.n as int),
    {
        proof { lemma2_to64(); }
        let ghost bigp: int = pow2(64) as int;
        let ghost ni_: int = self.n as int;
        let n: u64 = self.n;
        let t: u128 = (ar as u128) * (br as u128);
        let ghost ti: int = t as int;
        let ghost lo: int = ti % bigp;
        let tl: u64 = #[verifier::truncate] (t as u64);
        let m: u64 = tl.wrapping_mul(self.ni);
        proof {
            assert(#[verifier::truncate] (t as u64) as u128 == t % 0x1_0000_0000_0000_0000u128)
                by (bit_vector);
            assert(tl as int == ti % bigp);
            assert(m as int == (lo * self.ni as int) % bigp);
        }
        proof {
            assert((m as int) * (n as int) < pow2(64) as int * pow2(64) as int) by (nonlinear_arith)
                requires (m as int) < pow2(64), (n as int) < pow2(64), pow2(64) > 0;
            assert(pow2(64) as int * pow2(64) as int == pow2(128)) by { lemma_pow2_adds(64, 64); }
            assert(pow2(128) == u128::MAX as int + 1);
        }
        let mn: u128 = (m as u128) * (n as u128);
        let ht: u64 = (t >> 64) as u64;
        let hm: u64 = (mn >> 64) as u64;
        proof {
            vstd::bits::lemma_u128_shr_is_div(t, 64);
            vstd::bits::lemma_u128_shr_is_div(mn, 64);
            assert(pow2(64) < pow2(128)) by { lemma_pow2_strictly_increases(64, 128); }
            assert(ht as int == ti / bigp);
            assert(hm as int == mn as int / bigp);
            // The low word of m*n equals the low word of t.
            assert(mn as int % bigp == lo) by {
                let nii: int = self.ni as int;
                lemma_mul_mod_noop_left(lo * nii, ni_, bigp);
                assert((m as int * ni_) % bigp == ((lo * nii) * ni_) % bigp);
                assert((lo * nii) * ni_ == lo * (ni_ * nii)) by (nonlinear_arith);
                lemma_mul_mod_noop_right(lo, ni_ * nii, bigp);
                assert((lo * (ni_ * nii)) % bigp == (lo * ((ni_ * nii) % bigp)) % bigp);
                assert(lo * 1 == lo);
                lemma_small_mod(lo as nat, bigp as nat);
            }
            // Hence t - m*n is an exact multiple of 2^64.
            lemma_fundamental_div_mod(ti, bigp);
            lemma_fundamental_div_mod(mn as int, bigp);
            assert(ti - mn as int == bigp * (ht as int - hm as int));
            // Quotient bounds.
            assert(ht < n) by {
                if ht as int >= ni_ {
                    assert(ti >= bigp * ni_) by (nonlinear_arith)
                        requires ti == bigp * (ht as int) + lo, ht as int >= ni_, lo >= 0, bigp > 0;
                }
            }
            assert(hm < n) by {
                assert((mn as int) < bigp * ni_) by (nonlinear_arith)
                    requires mn as int == m as int * ni_, (m as int) < bigp, ni_ > 0;
                if hm as int >= ni_ {
                    assert(mn as int >= bigp * ni_) by (nonlinear_arith)
                        requires mn as int == bigp * (hm as int) + (mn as int % bigp), hm as int >= ni_, (mn as int % bigp) >= 0, bigp > 0;
                }
            }
            // t - m*n is congruent to t modulo n.
            assert((ti - mn as int) % ni_ == ti % ni_) by {
                assert(ti - mn as int == ni_ * (-(m as int)) + ti) by (nonlinear_arith)
                    requires mn as int == m as int * ni_;
                lemma_mod_multiples_vanish(-(m as int), ti, ni_);
            }
        }
        let r: u64 = if ht >= hm {
            ht - hm
        } else {
            ht + (n - hm)
        };
        proof {
            let diff: int = ht as int - hm as int;
            assert(r as int % ni_ == diff % ni_) by {
                if ht >= hm {
                    lemma_small_mod(r as nat, ni_ as nat);
                } else {
                    lemma_mod_multiples_vanish(1, diff, ni_);
                    lemma_small_mod(r as nat, ni_ as nat);
                }
            }
            assert((r as int * bigp) % ni_ == (diff * bigp) % ni_) by {
                lemma_mod_mul_cong(r as int, diff, bigp, bigp, ni_);
            }
            assert(diff * bigp == ti - mn as int) by (nonlinear_arith)
                requires ti - mn as int == bigp * diff;
            assert((r as int * bigp) % ni_ == ti % ni_);
            assert(ti == ar as int * br as int);
        }
        r
    }

    /// Lifts an ordinary value into the Montgomery domain: the result is the
    /// residue congruent to `a * 2^64` modulo `n`.
    pub fn ar(&self, a: u64) -> (r: u64)
        requires
            self.wf(),
            a <= self.n,
        ensures
            r < self.n,
            r as int % (self.n as int) == (a as int * pow2(64)) % (self.n as int),
    {
        proof {
            assert((self.r2 as int) < self.n as int) by {
                lemma_mod_division_less_than_divisor(pow2(128) as int, self.n as int);
            }
            assert((self.n as int) < pow2(64)) by { lemma2_to64(); }
            assert((a as int * self.r2 as int) < (self.n as int) * pow2(64)) by (nonlinear_arith)
                requires
                    a <= self.n,
                    (self.r2 as int) < self.n as int,
                    (self.n as int) < pow2(64),
                    self.n > 2,
            ;
        }
        let r: u64 = self.mrmul(a, self.r2);
        proof {
            let ni_: int = self.n as int;
            let bigp: int = pow2(64) as int;
            // a * r2 is congruent to a * 2^64 * 2^64.
            assert((a as int * self.r2 as int) % ni_ == (a as int * (bigp * bigp)) % ni_) by {
                lemma_pow2_adds(64, 64);
                assert(pow2(128) as int == bigp * bigp);
                lemma_mul_mod_noop_right(a as int, bigp * bigp, ni_);
                lemma_mul_mod_noop_right(a as int, self.r2 as int, ni_);
                lemma_small_mod(self.r2 as nat, ni_ as nat);
            }
            assert((r as int * bigp) % ni_ == ((a as int * bigp) * bigp) % ni_) by {
                assert(a as int * (bigp * bigp) == (a as int * bigp) * bigp) by (nonlinear_arith);
            }
            lemma_cancel_pow2_mod(r as int, a as int * bigp, 64, ni_);
            lemma_small_mod(r as nat, ni_ as nat);
        }
        r
    }

    /// Montgomery-domain exponentiation by a binary ladder: for a residue
    /// `ar0` and exponent `b0`, the result `t` satisfies
    /// `t * 2^(64*b0) == ar0^b0 * 2^64 (mod n)`, i.e. it is the Montgomery
    /// image of the `b0`-th power of whatever `ar0` is the image of.
    pub fn powir(&self, ar0: u64, b0: u64) -> (t: u64)
        requires
            self.wf(),
            ar0 < self.n,
        ensures
            t < self.n,
            (t as int * pow(pow2(64) as int, b0 as nat)) % (self.n as int)
                == (pow(ar0 as int, b0 as nat) * pow2(64)) % (self.n as int),
    {
        proof { lemma2_to64(); }
        let ghost ni_: int = self.n as int;
        let ghost rr: int = pow2(64) as int;
        proof {
            lemma_mod_division_less_than_divisor(rr, ni_);
            assert(self.r < self.n);
        }
        let mut ar: u64 = ar0;
        let mut b: u64 = b0;
        let mut t: u64 = if b & 1 == 0 { self.r } else { ar };
        proof {
            assert(b & 1 == b % 2) by (bit_vector);
        }
        b = b >> 1;
        let ghost mut i: nat = 1;
        let ghost mut e: nat = (b0 as nat) % 2;
        proof {
            vstd::bits::lemma_u64_shr_is_div(b0, 1);
            assert(pow2(1) == 2);
            assert(b as int == b0 as int / pow2(i) as int);
            assert(e == (b0 as nat) % pow2(i));
            // Initial ladder invariants.
            lemma_pow1(ar0 as int);
            lemma_pow0(ar0 as int);
            lemma_pow1(rr);
            lemma_pow0(rr);
            if b0 % 2 == 0 {
                assert(t == self.r);
                assert((t as int * pow(rr, e)) % ni_ == (pow(ar0 as int, e) * rr) % ni_) by {
                    assert(e == 0);
                    assert(t as int * pow(rr, 0) == t as int);
                    assert(pow(ar0 as int, 0) * rr == rr);
                    vstd::arithmetic::div_mod::lemma_mod_twice(rr, ni_);
                }
            } else {
                assert(t == ar0);
                assert(e == 1);
                assert(t as int * pow(rr, 1) == ar0 as int * rr);
                assert(pow(ar0 as int, 1) * rr == ar0 as int * rr);
            }
            assert(pow2((i - 1) as nat) == 1);
            assert((ar as int * pow(rr, (pow2((i - 1) as nat) - 1) as nat)) % ni_
                == pow(ar0 as int, pow2((i - 1) as nat)) % ni_) by {
                assert(ar as int * pow(rr, 0) == ar as int);
            }
        }
        while b != 0
            invariant
                self.wf(),
                ni_ == self.n as int,
                rr == pow2(64) as int,
                ar < self.n,
                t < self.n,
                ar0 < self.n,
                1 <= i <= 64,
                b as int == b0 as int / pow2(i) as int,
                e == (b0 as nat) % pow2(i),
                (ar as int * pow(rr, (pow2((i - 1) as nat) - 1) as nat)) % ni_
                    == pow(ar0 as int, pow2((i - 1) as nat)) % ni_,
                (t as int * pow(rr, e)) % ni_ == (pow(ar0 as int, e) * rr) % ni_,
            decreases b,
    {
            proof {
                assert(ni_ < rr) by { lemma2_to64(); }
                assert((ar as int * ar as int) < ni_ * rr) by (nonlinear_arith)
                    requires (ar as int) < ni_, ni_ < rr, ni_ > 0;
            }
            let arn: u64 = self.mrmul(ar, ar);
            proof {
                let ghost g: nat = pow2((i - 1) as nat);
                let ghost gm1: nat = (g - 1) as nat;
                lemma_pow2_pos((i - 1) as nat);
                // Square the ar-invariant congruence.
                lemma_mod_mul_cong(
                    ar as int * pow(rr, gm1), pow(ar0 as int, g),
                    ar as int * pow(rr, gm1), pow(ar0 as int, g), ni_);
                lemma_pow_adds(rr, gm1, gm1);
                lemma_pow_adds(ar0 as int, g, g);
                assert((ar as int * pow(rr, gm1)) * (ar as int * pow(rr, gm1))
                    == (ar as int * ar as int) * pow(rr, (gm1 + gm1) as nat)) by (nonlinear_arith)
                    requires pow(rr, (gm1 + gm1) as nat) == pow(rr, gm1) * pow(rr, gm1);
                // Multiply the mrmul congruence by rr^(2g-2).
                lemma_mod_mul_cong(
                    arn as int * rr, ar as int * ar as int,
                    pow(rr, (gm1 + gm1) as nat), pow(rr, (gm1 + gm1) as nat), ni_);
                assert(pow2(i) == 2 * g) by { lemma_pow2_adds(1, (i - 1) as nat); lemma2_to64(); }
                assert((arn as int * rr) * pow(rr, (gm1 + gm1) as nat)
                    == arn as int * pow(rr, (pow2(i) - 1) as nat)) by {
                    lemma_pow_adds(rr, 1, (gm1 + gm1) as nat);
                    lemma_pow1(rr);
                    assert(1 + (gm1 + gm1) == pow2(i) - 1);
                    assert((arn as int * rr) * pow(rr, (gm1 + gm1) as nat)
                        == arn as int * (rr * pow(rr, (gm1 + gm1) as nat))) by (nonlinear_arith);
                }
                assert((arn as int * pow(rr, (pow2(i) - 1) as nat)) % ni_
                    == pow(ar0 as int, pow2(i)) % ni_);
            }
            ar = arn;
            let odd: bool = b & 1 != 0;
            proof {
                assert(b & 1 == b % 2) by (bit_vector);
            }
            let mul_in: u64 = if odd { ar } else { self.r };
            proof {
                assert((mul_in as int) < rr) by { lemma2_to64(); }
                assert((t as int * mul_in as int) < ni_ * rr) by (nonlinear_arith)
                    requires (t as int) < ni_, (mul_in as int) < rr, ni_ > 0;
            }
            let tn: u64 = self.mrmul(t, mul_in);
            let ghost bit: nat = (b as nat) % 2;
            let ghost en: nat = e + bit * pow2(i);
            proof {
                lemma_pow2_pos(i);
                // e tracking: b0 % 2^(i+1) == e + bit * 2^i.
                assert(pow2((i + 1) as nat) == pow2(i) * 2) by {
                    lemma_pow2_adds(i, 1);
                    lemma2_to64();
                }
                let q: int = b0 as int / pow2(i) as int;
                lemma_fundamental_div_mod(b0 as int, pow2(i) as int);
                assert(b0 as int == pow2(i) as int * q + e);
                lemma_fundamental_div_mod(q, 2);
                assert(q == 2 * (q / 2) + bit);
                assert(b0 as int == (pow2((i + 1) as nat) as int) * (q / 2) + en) by (nonlinear_arith)
                    requires
                        b0 as int == pow2(i) as int * q + e,
                        q == 2 * (q / 2) + bit,
                        en as int == e + bit * (pow2(i) as int),
                        pow2((i + 1) as nat) as int == pow2(i) as int * 2,
                ;
                assert(en < pow2((i + 1) as nat)) by (nonlinear_arith)
                    requires
                        en as int == e + bit * (pow2(i) as int),
                        e < pow2(i),
                        bit <= 1,
                        pow2((i + 1) as nat) as int == pow2(i) as int * 2,
                        pow2(i) >= 1,
                ;
                lemma_fundamental_div_mod_converse_mod(
                    b0 as int, pow2((i + 1) as nat) as int, q / 2, en as int);
                assert(en == (b0 as nat) % pow2((i + 1) as nat));
                if odd {
                    assert(bit == 1);
                    assert(en >= 1);
                    // tn*rr == t*ar (mod n); fold into the exponent bookkeeping.
                    lemma_pow_adds(rr, e, (pow2(i) - 1) as nat);
                    lemma_pow_adds(rr, 1, (en - 1) as nat);
                    lemma_pow1(rr);
                    lemma_pow_adds(ar0 as int, e, pow2(i));
                    lemma_mod_mul_cong(
                        tn as int * rr, t as int * ar as int,
                        pow(rr, (en - 1) as nat), pow(rr, (en - 1) as nat), ni_);
                    assert((tn as int * rr) * pow(rr, (en - 1) as nat)
                        == tn as int * pow(rr, en)) by (nonlinear_arith)
                        requires pow(rr, en) == rr * pow(rr, (en - 1) as nat);
                    assert((t as int * ar as int) * pow(rr, (en - 1) as nat)
                        == (t as int * pow(rr, e)) * (ar as int * pow(rr, (pow2(i) - 1) as nat)))
                        by (nonlinear_arith)
                        requires pow(rr, (en - 1) as nat) == pow(rr, e) * pow(rr, (pow2(i) - 1) as nat);
                    lemma_mod_mul_cong(
                        t as int * pow(rr, e), pow(ar0 as int, e) * rr,
                        ar as int * pow(rr, (pow2(i) - 1) as nat), pow(ar0 as int, pow2(i)), ni_);
                    assert((pow(ar0 as int, e) * rr) * pow(ar0 as int, pow2(i))
                        == pow(ar0 as int, en) * rr) by (nonlinear_arith)
                        requires pow(ar0 as int, en) == pow(ar0 as int, e) * pow(ar0 as int, pow2(i));
                    assert((tn as int * pow(rr, en)) % ni_ == (pow(ar0 as int, en) * rr) % ni_);
                } else {
                    // tn*rr == t*r and r == rr (mod n), so tn == t (mod n).
                    assert(en == e);
                    assert((t as int * self.r as int) % ni_ == (t as int * rr) % ni_) by {
                        vstd::arithmetic::div_mod::lemma_mod_twice(rr, ni_);
                        lemma_mod_mul_cong(t as int, t as int, self.r as int, rr, ni_);
                    }
                    assert((tn as int * rr) % ni_ == (t as int * rr) % ni_);
                    lemma_cancel_pow2_mod(tn as int, t as int, 64, ni_);
                    lemma_mod_mul_cong(tn as int, t as int, pow(rr, e), pow(rr, e), ni_);
                    assert((tn as int * pow(rr, en)) % ni_ == (pow(ar0 as int, en) * rr) % ni_);
                }
            }
            t = tn;
            proof {
                assert(i < 64) by {
                    if i >= 64 {
                        assert(pow2(i) > b0 as nat) by {
                            assert(pow2(64) > u64::MAX as nat) by { lemma2_to64(); }
                            if i > 64 {
                                lemma_pow2_strictly_increases(64, i);
                            }
                        }
                        vstd::arithmetic::div_mod::lemma_basic_div(b0 as int, pow2(i) as int);
                    }
                }
            }
            b = b >> 1;
            proof {
                vstd::bits::lemma_u64_shr_is_div((b0 as int / pow2(i) as int) as u64, 1);
                // b0 / 2^i / 2 == b0 / 2^(i+1)
                lemma_pow2_pos(i);
                lemma_div_denominator(b0 as int, pow2(i) as int, 2);
                lemma_pow2_adds(i, 1);
                assert(pow2(1) == 2) by { lemma2_to64(); }
                i = i + 1;
                e = en;
            }
        }
        proof {
            // b0 / 2^i == 0 means b0 < 2^i, so e == b0.
            lemma_pow2_pos(i);
            assert(b0 as int / pow2(i) as int == 0);
            vstd::arithmetic::div_mod::lemma_fundamental_div_mod(b0 as int, pow2(i) as int);
            assert(e == b0 as nat);
        }
        t
    }
}

/// One Newton step for the inverse of `n` modulo a power of two: a correct
/// inverse modulo `2^j` becomes one modulo `2^min(2j, 64)`.
proof fn lemma_newton_step(n: u64, x: u64, j: nat)
    requires
        n % 2 == 1,
        1 <= j <= 64,
        (n as int * x as int) % (pow2(j) as int) == 1,
    ensures
        (n as int * u64_specs::wrapping_mul(x, u64_specs::wrapping_sub(2u64, u64_specs::wrapping_mul(n, x))) as int)
            % (pow2(if 2 * j <= 64 { 2 * j } else { 64 }) as int) == 1,
{
    let min: nat = if 2 * j <= 64 { 2 * j } else { 64 };
    lemma2_to64();
    let bigp: int = pow2(64) as int;
    let p: int = pow2(j) as int;
    let m: int = pow2(min) as int;
    lemma_pow2_pos(64);
    lemma_pow2_pos(j);
    lemma_pow2_pos(min);
    lemma_pow2_adds((64 - min) as nat, min);
    lemma_pow2_adds((2 * j - min) as nat, min);
    lemma_pow2_adds(j, j);
    let ni: int = n as int;
    let xi: int = x as int;
    let z: int = u64_specs::wrapping_mul(n, x) as int;
    assert(z == (ni * xi) % bigp);
    let y: int = u64_specs::wrapping_sub(2u64, u64_specs::wrapping_mul(n, x)) as int;
    assert(y == (2 - z) % bigp) by {
        lemma_mod_bound(ni * xi, bigp);
        if 2 - z < 0 {
            lemma_mod_multiples_vanish(1, 2 - z, bigp);
            lemma_small_mod((2 - z + bigp) as nat, bigp as nat);
        } else {
            lemma_small_mod((2 - z) as nat, bigp as nat);
        }
    }
    assert(y == (2 - ni * xi) % bigp) by {
        lemma_sub_mod_noop_right(2, ni * xi, bigp);
    }
    let xp: int = u64_specs::wrapping_mul(x, u64_specs::wrapping_sub(2u64, u64_specs::wrapping_mul(n, x))) as int;
    assert(xp == (xi * (2 - ni * xi)) % bigp) by {
        lemma_mul_mod_noop_right(xi, 2 - ni * xi, bigp);
    }
    // Move everything down to modulus m, which divides 2^64.
    let u: int = xi * (2 - ni * xi);
    assert(bigp == m * (pow2((64 - min) as nat) as int));
    assert((ni * xp) % m == (ni * u) % m) by {
        lemma_mod_mod(u, m, pow2((64 - min) as nat) as int);
        assert((u % bigp) % m == u % m);
        assert(xp % m == u % m);
        lemma_mul_mod_noop_right(ni, xp, m);
        lemma_mul_mod_noop_right(ni, u % m, m);
        lemma_mul_mod_noop_right(ni, u, m);
        assert((ni * xp) % m == (ni * (xp % m)) % m);
        assert((ni * (u % m)) % m == (ni * u) % m);
    }
    // The algebraic heart: n*(x*(2 - n*x)) == 1 - (n*x - 1)^2.
    let e: int = ni * xi - 1;
    assert(ni * u == 1 - e * e) by (nonlinear_arith)
        requires e == ni * xi - 1, u == xi * (2 - ni * xi);
    // p divides e, so p*p divides e*e, and m divides p*p.
    let a: int = e / p;
    assert(e % p == 0) by {
        lemma_mod_equivalence(ni * xi, 1, p);
        lemma_small_mod(1, p as nat);
    }
    lemma_fundamental_div_mod(e, p);
    assert(e == a * p);
    assert(e * e == (a * a * (pow2((2 * j - min) as nat) as int)) * m) by (nonlinear_arith)
        requires
            e == a * p,
            p * p == (pow2((2 * j - min) as nat) as int) * m,
    ;
    let c: int = a * a * (pow2((2 * j - min) as nat) as int);
    assert((1 - e * e) % m == 1) by {
        assert(1 - e * e == m * (-c) + 1) by (nonlinear_arith)
            requires e * e == c * m;
        lemma_mod_multiples_vanish(-c, 1, m);
        assert(m >= 2) by {
            lemma_pow2_strictly_increases(0, min);
            lemma2_to64();
        }
        lemma_small_mod(1, m as nat);
    }
}

} // verus!
