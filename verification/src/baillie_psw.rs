//! The Baillie-PSW primality test: a base-2 Miller-Rabin strong probable
//! prime test composed with a strong Lucas test using Selfridge's parameter
//! search. Both tests run entirely in Montgomery arithmetic; their contracts
//! are stated over plain modular arithmetic, with the Montgomery factor
//! `2^64` cancelled away.

use vstd::prelude::*;

verus! {

use crate::montgomery::{
    MontgomeryMultiplication, lemma_cancel_pow2_mod, lemma_cancel_two_mod, lemma_mod_mul_cong,
};
use crate::jacobi::{jacobi, jacobi_symbol};
use crate::isqrt::{isqrt64i, lemma_isqrt_unique};
use vstd::arithmetic::power::{
    pow, lemma_pow_adds, lemma_pow0, lemma_pow1, lemma_pow_mod_noop, lemma_pow_distributes,
    lemma_pow_multiplies,
};
use vstd::arithmetic::power2::{pow2, lemma_pow2, lemma_pow2_adds, lemma2_to64, lemma_pow2_pos};
use vstd::arithmetic::div_mod::{
    lemma_fundamental_div_mod, lemma_fundamental_div_mod_converse_mod, lemma_small_mod,
    lemma_mod_division_less_than_divisor, lemma_mod_twice, lemma_mul_mod_noop_left,
    lemma_mul_mod_noop_right, lemma_mod_multiples_vanish, lemma_mod_bound,
};

/// The odd part of `m`: what remains after dividing out every factor of two.
pub open spec fn odd_part(m: nat) -> nat
    decreases m,
{
    if m == 0 {
        0
    } else if m % 2 == 1 {
        m
    } else {
        odd_part((m / 2) as nat)
    }
}

/// The 2-adic valuation of `m`: how many factors of two `m` holds.
pub open spec fn two_adic(m: nat) -> nat
    decreases m,
{
    if m == 0 {
        0
    } else if m % 2 == 1 {
        0
    } else {
        two_adic((m / 2) as nat) + 1
    }
}

/// Every positive number is its odd part times the matching power of two.
pub proof fn lemma_odd_decomposition(m: nat)
    requires
        m > 0,
    ensures
        odd_part(m) % 2 == 1,
        odd_part(m) > 0,
        m == odd_part(m) * pow2(two_adic(m)),
    decreases m,
{
    if m % 2 == 1 {
        assert(pow2(0) == 1) by { lemma2_to64(); }
        assert(m == odd_part(m) * pow2(two_adic(m))) by (nonlinear_arith)
            requires odd_part(m) == m, pow2(two_adic(m)) == 1;
    } else {
        lemma_odd_decomposition((m / 2) as nat);
        lemma_fundamental_div_mod(m as int, 2);
        lemma_pow2_adds(two_adic((m / 2) as nat), 1);
        assert(pow2(1) == 2) by { lemma2_to64(); }
        assert(m == odd_part(m) * pow2(two_adic(m))) by (nonlinear_arith)
            requires
                m == 2 * (m / 2),
                m / 2 == odd_part((m / 2) as nat) * pow2(two_adic((m / 2) as nat)),
                odd_part(m) == odd_part((m / 2) as nat),
                pow2(two_adic(m)) == pow2(two_adic((m / 2) as nat)) * 2,
        ;
    }
}

/// The decomposition into an odd part and a power of two is unique.
pub proof fn lemma_odd_decomposition_unique(m: nat, d: nat, k: nat)
    requires
        d % 2 == 1,
        m == d * pow2(k),
    ensures
        d == odd_part(m),
        k == two_adic(m),
    decreases k,
{
    lemma_pow2_pos(k);
    assert(m > 0) by (nonlinear_arith)
        requires m == d * pow2(k), d >= 1, pow2(k) >= 1;
    if k == 0 {
        assert(pow2(0) == 1) by { lemma2_to64(); }
        assert(m == d);
    } else {
        lemma_pow2_adds((k - 1) as nat, 1);
        assert(pow2(1) == 2) by { lemma2_to64(); }
        let h: nat = (d * pow2((k - 1) as nat)) as nat;
        assert(m == 2 * h) by (nonlinear_arith)
            requires
                m == d * pow2(k),
                pow2(k) == pow2((k - 1) as nat) * 2,
                h == d * pow2((k - 1) as nat),
        ;
        assert(m % 2 == 0 && m / 2 == h);
        lemma_odd_decomposition_unique(h, d, (k - 1) as nat);
    }
}

/// `n` is a base-2 strong probable prime: with `n - 1 = d * 2^k` and `d` odd,
/// either `2^d == 1 (mod n)`, or some repeated squaring of `2^d` before the
/// `k`-th hits `n - 1`.
pub open spec fn is_sprp2(n: nat) -> bool
    recommends
        n % 2 == 1,
        n > 2,
{
    let d = odd_part((n - 1) as nat);
    let k = two_adic((n - 1) as nat);
    ||| pow(2, d) % (n as int) == 1
    ||| exists|i: nat| i < k && pow(2, (d * pow2(i)) as nat) % (n as int) == n - 1
}

/// `xm` is the Montgomery image of `xs` modulo `n`.
pub open spec fn mont_rep(n: int, xm: int, xs: int) -> bool {
    xm % n == ((xs % n) * (pow2(64) as int)) % n
}

/// The image of a Montgomery product represents the product of the images.
pub proof fn lemma_mont_mul(n: int, zm: int, xm: int, ym: int, xs: int, ys: int)
    requires
        n % 2 == 1,
        n > 2,
        (zm * pow2(64)) % n == (xm * ym) % n,
        mont_rep(n, xm, xs),
        mont_rep(n, ym, ys),
    ensures
        mont_rep(n, zm, xs * ys),
{
    let rr: int = pow2(64) as int;
    lemma_mod_mul_cong(xm, (xs % n) * rr, ym, (ys % n) * rr, n);
    assert(((xs % n) * rr) * ((ys % n) * rr) == (((xs % n) * (ys % n)) * rr) * rr)
        by (nonlinear_arith);
    assert((zm * rr) % n == ((((xs % n) * (ys % n)) * rr) * rr) % n);
    lemma_cancel_pow2_mod(zm, ((xs % n) * (ys % n)) * rr, 64, n);
    // Reduce the inner product.
    lemma_mul_mod_noop_left((xs % n) * (ys % n), rr, n);
    vstd::arithmetic::div_mod::lemma_mul_mod_noop_general(xs, ys, n);
    lemma_mul_mod_noop_left((xs * ys) % n, rr, n);
    lemma_mul_mod_noop_left(xs * ys, rr, n);
}

/// Two reduced Montgomery images are equal exactly when the represented
/// residues agree.
pub proof fn lemma_mont_eq(n: int, xm: int, ym: int, xs: int, ys: int)
    requires
        n % 2 == 1,
        n > 2,
        0 <= xm < n,
        0 <= ym < n,
        mont_rep(n, xm, xs),
        mont_rep(n, ym, ys),
    ensures
        (xm == ym) <==> (xs % n == ys % n),
{
    let rr: int = pow2(64) as int;
    lemma_small_mod(xm as nat, n as nat);
    lemma_small_mod(ym as nat, n as nat);
    if xm == ym {
        assert(((xs % n) * rr) % n == ((ys % n) * rr) % n);
        lemma_cancel_pow2_mod(xs % n, ys % n, 64, n);
        lemma_mod_twice(xs, n);
        lemma_mod_twice(ys, n);
    }
}

/// The context fields `r` and `rn` are the Montgomery images of 1 and n-1,
/// and `r` is never zero.
pub proof fn lemma_r_facts(m: &MontgomeryMultiplication)
    requires
        m.wf(),
    ensures
        mont_rep(m.n as int, m.r as int, 1),
        mont_rep(m.n as int, m.rn as int, m.n as int - 1),
        1 <= m.r < m.n,
        1 <= m.rn < m.n,
{
    let n: int = m.n as int;
    let rr: int = pow2(64) as int;
    lemma_mod_division_less_than_divisor(rr, n);
    assert(m.r as int == rr % n);
    assert(m.r as int >= 1) by {
        if rr % n == 0 {
            // then 1 * 2^64 == 0 * 2^64 (mod n), so n divides 1.
            lemma_mod_multiples_vanish(0, 0, n);
            assert((1 * rr) % n == (0 * rr) % n) by {
                assert(1 * rr == rr);
                assert(0 * rr == 0);
                lemma_small_mod(0, n as nat);
            }
            lemma_cancel_pow2_mod(1, 0, 64, n);
            lemma_small_mod(1, n as nat);
            lemma_small_mod(0, n as nat);
        }
    }
    assert(mont_rep(n, m.r as int, 1)) by {
        lemma_mod_twice(rr, n);
        lemma_small_mod(1, n as nat);
        assert((1int % n) * rr == rr);
    }
    assert(mont_rep(n, m.rn as int, n - 1)) by {
        let q: int = rr / n;
        lemma_fundamental_div_mod(rr, n);
        // (n-1)*rr == n*(q*n + r - q - rr/n ... directly: (n-1)*rr = n*(rr - q) + (n - r) ... check:
        // n*(rr - q) + (n - m.r) == n*rr - n*q + n - m.r == n*rr - (rr - m.r) + n - m.r == n*rr - rr + n == (n-1)*rr + n.
        // Use instead: (n-1)*rr == n*(rr - q - 1) + (n - m.r):
        //   n*rr - n*q - n + n - m.r == n*rr - (rr - m.r) - m.r == n*rr - rr == (n-1)*rr.
        assert((n - 1) * rr == n * (rr - q - 1) + (n - m.r)) by (nonlinear_arith)
            requires rr == n * q + m.r;
        lemma_fundamental_div_mod_converse_mod((n - 1) * rr, n, rr - q - 1, n - m.r);
        lemma_small_mod(m.rn as nat, n as nat);
        lemma_mod_twice(n - 1, n);
        lemma_small_mod((n - 1) as nat, n as nat);
        lemma_mul_mod_noop_left(n - 1, rr, n);
    }
}

/// Base-2 strong probable prime test on a prepared Montgomery context.
pub fn miller_rabin_base_2(mont: &MontgomeryMultiplication) -> (r: bool)
    requires
        mont.wf(),
    ensures
        r == is_sprp2(mont.n as nat),
{
    let ghost n: int = mont.n as int;
    let ghost rr: int = pow2(64) as int;
    let ghost d: nat = mont.d as nat;
    let ghost k: nat = mont.k as nat;
    proof {
        lemma_odd_decomposition_unique((mont.n - 1) as nat, d, k);
        lemma_r_facts(mont);
        lemma2_to64();
    }
    let a2: u64 = mont.add(mont.r, mont.r);
    proof {
        assert(mont_rep(n, a2 as int, 2)) by {
            vstd::arithmetic::div_mod::lemma_add_mod_noop(mont.r as int, mont.r as int, n);
            lemma_mod_twice(rr, n);
            assert((a2 as int) % n == (2 * rr) % n) by {
                lemma_small_mod(a2 as nat, n as nat);
                assert(mont.r as int + mont.r as int == 2 * (rr % n));
                lemma_mul_mod_noop_right(2, rr, n);
                lemma_mul_mod_noop_right(2, rr % n, n);
            }
            lemma_small_mod(2, n as nat);
        }
    }
    let br0: u64 = mont.powir(a2, mont.d);
    proof {
        // br0 represents 2^d.
        assert(mont_rep(n, br0 as int, pow(2, d))) by {
            lemma_mont_pow(n, br0 as int, a2 as int, 2, d);
        }
    }
    if br0 == mont.r {
        proof {
            lemma_mont_eq(n, br0 as int, mont.r as int, pow(2, d), 1);
            lemma_small_mod(1, n as nat);
            lemma_mod_twice(pow(2, d), n);
        }
        return true;
    }
    if br0 == mont.rn {
        proof {
            lemma_mont_eq(n, br0 as int, mont.rn as int, pow(2, d), n - 1);
            lemma_small_mod((n - 1) as nat, n as nat);
            lemma_mod_twice(pow(2, d), n);
            assert(pow2(0) == 1) by { lemma2_to64(); }
            assert(d * pow2(0) == d);
            assert(k >= 1) by {
                if k == 0 {
                    // n odd means n - 1 is even, so its 2-adic valuation is positive.
                    assert((mont.n - 1) as nat % 2 == 0);
                }
            }
            assert(exists|i: nat| i < k && pow(2, (d * pow2(i)) as nat) % n == n - 1) by {
                assert(0 < k && pow(2, (d * pow2(0)) as nat) % n == n - 1);
            }
        }
        return true;
    }
    let mut br: u64 = br0;
    let mut i: u32 = 1;
    proof {
        lemma_mont_eq(n, br0 as int, mont.r as int, pow(2, d), 1);
        lemma_mont_eq(n, br0 as int, mont.rn as int, pow(2, d), n - 1);
        lemma_small_mod(1, n as nat);
        lemma_small_mod((n - 1) as nat, n as nat);
        lemma_mod_twice(pow(2, d), n);
        assert(pow2(0) == 1) by { lemma2_to64(); }
    }
    while i < mont.k
        invariant
            mont.wf(),
            n == mont.n as int,
            rr == pow2(64) as int,
            d == mont.d as nat,
            k == mont.k as nat,
            1 <= i as nat <= k,
            d == odd_part((mont.n - 1) as nat),
            k == two_adic((mont.n - 1) as nat),
            br < mont.n,
            mont_rep(n, br as int, pow(2, (d * pow2((i - 1) as nat)) as nat)),
            pow(2, d) % n != 1,
            forall|j: nat| j < i as nat ==> pow(2, (d * #[trigger] pow2(j)) as nat) % n != n - 1,
        decreases k - i as nat,
    {
        proof {
            assert(n < rr) by { lemma2_to64(); }
            assert((br as int * br as int) < n * rr) by (nonlinear_arith)
                requires (br as int) < n, n < rr, n > 0;
        }
        let brn: u64 = mont.mrmul(br, br);
        proof {
            let e: nat = (d * pow2((i - 1) as nat)) as nat;
            lemma_mont_mul(n, brn as int, br as int, br as int, pow(2, e), pow(2, e));
            lemma_pow_adds(2, e, e);
            assert(e + e == d * pow2(i as nat)) by {
                lemma_pow2_adds((i - 1) as nat, 1);
                assert(pow2(1) == 2) by { lemma2_to64(); }
                assert(d * pow2(i as nat) == 2 * (d * pow2((i - 1) as nat))) by (nonlinear_arith)
                    requires pow2(i as nat) == pow2((i - 1) as nat) * 2;
            }
            assert(mont_rep(n, brn as int, pow(2, (d * pow2(i as nat)) as nat)));
        }
        br = brn;
        proof {
            lemma_r_facts(mont);
            lemma_mont_eq(n, br as int, mont.rn as int,
                pow(2, (d * pow2(i as nat)) as nat), n - 1);
            lemma_small_mod((n - 1) as nat, n as nat);
            lemma_mod_twice(pow(2, (d * pow2(i as nat)) as nat), n);
        }
        if br == mont.rn {
            proof {
                assert((i as nat) < k && pow(2, (d * pow2(i as nat)) as nat) % n == n - 1);
            }
            return true;
        }
        i = i + 1;
    }
    proof {
        assert(!is_sprp2(mont.n as nat));
    }
    false
}

/// A Montgomery power represents the power of the represented base.
pub proof fn lemma_mont_pow(n: int, tm: int, bm: int, bs: int, e: nat)
    requires
        n % 2 == 1,
        n > 2,
        (tm * pow(pow2(64) as int, e)) % n == (pow(bm, e) * pow2(64)) % n,
        mont_rep(n, bm, bs),
    ensures
        mont_rep(n, tm, pow(bs, e)),
{
    let rr: int = pow2(64) as int;
    // pow(bm, e) == pow((bs % n) * rr, e) modulo n.
    lemma_pow_mod_noop(bm, e, n);
    lemma_pow_mod_noop((bs % n) * rr, e, n);
    assert(pow(bm % n, e) == pow(((bs % n) * rr) % n, e));
    lemma_pow_distributes(bs % n, rr, e);
    // So tm * rr^e == pow(bs%n, e) * rr^e * rr modulo n.
    lemma_mod_mul_cong(pow(bm, e), pow((bs % n) * rr, e), rr, rr, n);
    assert((tm * pow(rr, e)) % n == ((pow(bs % n, e) * pow(rr, e)) * rr) % n) by {
        assert(pow((bs % n) * rr, e) * rr == (pow(bs % n, e) * pow(rr, e)) * rr);
    }
    // rr^e is a power of two: cancel it.
    lemma_pow2(64);
    lemma_pow_multiplies(2, 64, e);
    lemma_pow2((64 * e) as nat);
    assert(pow(rr, e) == pow2((64 * e) as nat) as int);
    assert((pow(bs % n, e) * pow(rr, e)) * rr == (pow(bs % n, e) * rr) * pow(rr, e))
        by (nonlinear_arith);
    lemma_cancel_pow2_mod(tm, pow(bs % n, e) * rr, (64 * e) as nat, n);
    // Undo the inner reduction.
    lemma_pow_mod_noop(bs, e, n);
    lemma_mul_mod_noop_left(pow(bs % n, e), rr, n);
    lemma_mul_mod_noop_left(pow(bs, e) % n, rr, n);
    lemma_mul_mod_noop_left(pow(bs, e), rr, n);
    assert(pow(bs % n, e) % n == pow(bs, e) % n);
}

/// Absolute value on mathematical integers.
pub open spec fn abs_of(x: int) -> int {
    if x >= 0 { x } else { -x }
}

/// `n` is a perfect square.
pub open spec fn is_square(n: nat) -> bool {
    exists|r: nat| #[trigger] (r * r) == n
}

/// The next Selfridge candidate: 5, -7, 9, -11, ...
pub open spec fn next_d(dd: int, i: nat) -> int {
    if i % 2 == 1 { 2 - dd } else { -(dd + 2) }
}

/// Selfridge's Method A from step `i` with candidate `dd`: the first `D` in
/// the alternating sequence whose Jacobi symbol is -1; `None` when a shared
/// factor or a perfect square proves `n` composite on the way. After 64
/// fruitless steps the search stops with the current candidate.
pub open spec fn selfridge_from(n: nat, i: nat, dd: int) -> Option<int>
    decreases 64 - i,
{
    if i >= 64 {
        Some(dd)
    } else if jacobi(dd, n) == -1 {
        Some(dd)
    } else if jacobi(dd, n) == 0 && abs_of(dd) < n {
        None
    } else if i == 32 && is_square(n) {
        None
    } else {
        selfridge_from(n, (i + 1) as nat, next_d(dd, i))
    }
}

/// Halving modulo an odd `n`, for a residue already in `[0, n)`.
pub open spec fn half_mod(x: int, n: nat) -> int {
    if x % 2 == 0 { x / 2 } else { (x + n) / 2 }
}

/// One index-doubling step of the Lucas sequence triple `(U, V, Q^j)`.
pub open spec fn lucas_double(n: nat, t: (int, int, int)) -> (int, int, int) {
    ((t.0 * t.1) % (n as int), (t.1 * t.1 - 2 * t.2) % (n as int), (t.2 * t.2) % (n as int))
}

/// One index-increment step, using `P = 1` and the discriminant `dd`.
pub open spec fn lucas_add(n: nat, qq: int, dd: int, t: (int, int, int)) -> (int, int, int) {
    (half_mod((t.0 + t.1) % (n as int), n),
     half_mod((dd * t.0 + t.1) % (n as int), n),
     (t.2 * qq) % (n as int))
}

/// The triple `(U_x, V_x, Q^x) mod n` computed by the binary ladder over the
/// bits of `x`, most significant first.
pub open spec fn lucas_ladder(n: nat, qq: int, dd: int, x: nat) -> (int, int, int)
    decreases x,
{
    if x <= 1 {
        (1int % (n as int), 1int % (n as int), qq % (n as int))
    } else {
        let prev = lucas_ladder(n, qq, dd, x / 2);
        let dbl = lucas_double(n, prev);
        if x % 2 == 1 {
            lucas_add(n, qq, dd, dbl)
        } else {
            dbl
        }
    }
}

/// Continued doubling of the `V` component: true when some of the next `t`
/// doublings reaches `V == 0 (mod n)`.
pub open spec fn lucas_vchain(n: nat, v: int, q: int, t: nat) -> bool
    decreases t,
{
    if t == 0 {
        false
    } else {
        let v2 = (v * v - 2 * q) % (n as int);
        v2 == 0 || lucas_vchain(n, v2, (q * q) % (n as int), (t - 1) as nat)
    }
}

/// The strong Lucas test with Selfridge parameters, exactly as performed:
/// find `D`, form `Q = (1 - D)/4`, run the ladder to the odd part of `n + 1`,
/// accept on `U == 0` or `V == 0` there or on a zero `V` while doubling out
/// the remaining power of two.
pub open spec fn lucas_accept(n: nat) -> bool
    recommends
        n % 2 == 1,
        n > 2,
{
    match selfridge_from(n, 0, 5) {
        Option::None => false,
        Option::Some(dd) => {
            let qq = (1 - dd) / 4;
            let dodd = odd_part((n + 1) as nat);
            let s = two_adic((n + 1) as nat);
            let t = lucas_ladder(n, qq, dd, dodd);
            t.0 == 0 || t.1 == 0 || lucas_vchain(n, t.1, t.2, s)
        },
    }
}

/// The Baillie-PSW oracle: 2 is prime, other even numbers and 0, 1 are not,
/// and an odd candidate must pass both the base-2 strong probable prime test
/// and the strong Lucas test.
pub open spec fn baillie_psw_spec(n: nat) -> bool {
    if n == 2 {
        true
    } else if n < 2 || n % 2 == 0 {
        false
    } else {
        is_sprp2(n) && lucas_accept(n)
    }
}

/// The components of a ladder triple are reduced residues.
pub proof fn lemma_ladder_bounds(n: nat, qq: int, dd: int, x: nat)
    requires
        n >= 3,
        n % 2 == 1,
    ensures
        0 <= lucas_ladder(n, qq, dd, x).0 < n,
        0 <= lucas_ladder(n, qq, dd, x).1 < n,
        0 <= lucas_ladder(n, qq, dd, x).2 < n,
    decreases x,
{
    if x <= 1 {
        lemma_mod_bound(1, n as int);
        lemma_mod_bound(qq, n as int);
    } else {
        lemma_ladder_bounds(n, qq, dd, (x / 2) as nat);
        let prev = lucas_ladder(n, qq, dd, (x / 2) as nat);
        let dbl = lucas_double(n, prev);
        lemma_mod_bound(prev.0 * prev.1, n as int);
        lemma_mod_bound(prev.1 * prev.1 - 2 * prev.2, n as int);
        lemma_mod_bound(prev.2 * prev.2, n as int);
        if x % 2 == 1 {
            lemma_mod_bound(dbl.0 + dbl.1, n as int);
            lemma_mod_bound(dd * dbl.0 + dbl.1, n as int);
            lemma_mod_bound(dbl.2 * qq, n as int);
            lemma_half_mod_bounds((dbl.0 + dbl.1) % (n as int), n);
            lemma_half_mod_bounds((dd * dbl.0 + dbl.1) % (n as int), n);
        }
    }
}

/// Halving keeps a reduced residue reduced, and doubles back correctly.
pub proof fn lemma_half_mod_bounds(x: int, n: nat)
    requires
        n % 2 == 1,
        n >= 3,
        0 <= x < n,
    ensures
        0 <= half_mod(x, n) < n,
        (2 * half_mod(x, n)) % (n as int) == x,
{
    lemma_fundamental_div_mod(x, 2);
    if x % 2 == 0 {
        lemma_small_mod((x / 2) as nat, n as nat);
        assert((2 * (x / 2)) % (n as int) == x % (n as int)) by {
            lemma_small_mod(x as nat, n as nat);
        }
        lemma_small_mod(x as nat, n as nat);
    } else {
        lemma_fundamental_div_mod(x + n, 2);
        assert((x + n) % 2 == 0) by {
            lemma_fundamental_div_mod(n as int, 2);
        }
        assert(2 * ((x + n) / 2) == x + n);
        assert((x + n) % (n as int) == x) by {
            lemma_mod_multiples_vanish(1, x, n as int);
            lemma_small_mod(x as nat, n as nat);
        }
    }
}

/// A Montgomery sum represents the sum of what its inputs represent.
pub proof fn lemma_mont_add(n: int, zm: int, xm: int, ym: int, xs: int, ys: int)
    requires
        n % 2 == 1,
        n > 2,
        zm == (xm + ym) % n,
        mont_rep(n, xm, xs),
        mont_rep(n, ym, ys),
    ensures
        mont_rep(n, zm, xs + ys),
{
    let rr: int = pow2(64) as int;
    vstd::arithmetic::div_mod::lemma_add_mod_noop(xm, ym, n);
    vstd::arithmetic::div_mod::lemma_add_mod_noop((xs % n) * rr, (ys % n) * rr, n);
    assert((xs % n) * rr + (ys % n) * rr == ((xs % n) + (ys % n)) * rr) by (nonlinear_arith);
    lemma_mod_twice(xm + ym, n);
    // Reduce the inner sum to xs + ys.
    vstd::arithmetic::div_mod::lemma_add_mod_noop(xs, ys, n);
    lemma_mul_mod_noop_left((xs % n) + (ys % n), rr, n);
    lemma_mul_mod_noop_left((xs + ys) % n, rr, n);
    lemma_mul_mod_noop_left(xs + ys, rr, n);
}

/// A Montgomery difference represents the difference.
pub proof fn lemma_mont_sub(n: int, zm: int, xm: int, ym: int, xs: int, ys: int)
    requires
        n % 2 == 1,
        n > 2,
        zm == (xm - ym) % n,
        mont_rep(n, xm, xs),
        mont_rep(n, ym, ys),
    ensures
        mont_rep(n, zm, xs - ys),
{
    let rr: int = pow2(64) as int;
    vstd::arithmetic::div_mod::lemma_sub_mod_noop(xm, ym, n);
    vstd::arithmetic::div_mod::lemma_sub_mod_noop((xs % n) * rr, (ys % n) * rr, n);
    assert((xs % n) * rr - (ys % n) * rr == ((xs % n) - (ys % n)) * rr) by (nonlinear_arith);
    lemma_mod_twice(xm - ym, n);
    vstd::arithmetic::div_mod::lemma_sub_mod_noop(xs, ys, n);
    lemma_mul_mod_noop_left((xs % n) - (ys % n), rr, n);
    lemma_mul_mod_noop_left((xs - ys) % n, rr, n);
    lemma_mul_mod_noop_left(xs - ys, rr, n);
}

/// A Montgomery halving represents the halved residue.
pub proof fn lemma_mont_half(n: int, hm: int, xm: int, xs: int)
    requires
        n % 2 == 1,
        n > 2,
        0 <= hm < n,
        (2 * hm) % n == xm % n,
        mont_rep(n, xm, xs),
    ensures
        mont_rep(n, hm, half_mod(xs % n, n as nat)),
{
    let rr: int = pow2(64) as int;
    let h: int = half_mod(xs % n, n as nat);
    lemma_mod_bound(xs, n);
    lemma_half_mod_bounds(xs % n, n as nat);
    // 2*h == xs (mod n), so 2*h*rr == xs*rr == xm (mod n) == 2*hm (mod n).
    lemma_mod_twice(xs, n);
    lemma_mul_mod_noop_left((2 * h) % n, rr, n);
    lemma_mul_mod_noop_left(2 * h, rr, n);
    lemma_mul_mod_noop_left(xs % n, rr, n);
    assert(((2 * h) * rr) % n == ((xs % n) * rr) % n);
    assert((2 * (h * rr)) % n == (2 * hm) % n) by {
        assert((2 * h) * rr == 2 * (h * rr)) by (nonlinear_arith);
        lemma_mod_twice((xs % n) * rr, n);
        assert((xm % n) % n == xm % n) by { lemma_mod_twice(xm, n); }
    }
    lemma_cancel_two_mod(h * rr, hm, n);
    lemma_small_mod(h as nat, n as nat);
    lemma_mul_mod_noop_left(h % n, rr, n);
    lemma_mul_mod_noop_left(h, rr, n);
}

/// Strong Lucas probable prime test on a prepared Montgomery context.
pub fn lucas_primality_test(mont: &MontgomeryMultiplication) -> (r: bool)
    requires
        mont.wf(),
    ensures
        r == lucas_accept(mont.n as nat),
{
    let n: u64 = mont.n;
    let ghost nn: nat = n as nat;
    let ghost ni: int = n as int;
    let ghost rr: int = pow2(64) as int;
    proof { lemma2_to64(); }

    // --- Selfridge parameter search (Method A). ---
    let mut dd: i64 = 5;
    let mut i: u64 = 0;
    let mut found: bool = false;
    while !found && i < 64
        invariant
            mont.wf(),
            n == mont.n,
            nn == n as nat,
            i <= 64,
            !found ==> selfridge_from(nn, 0, 5) == selfridge_from(nn, i as nat, dd as int),
            !found ==> (i % 2 == 0 ==> dd as int == 5 + 2 * (i as int)),
            !found ==> (i % 2 == 1 ==> dd as int == -(5 + 2 * (i as int))),
            found ==> selfridge_from(nn, 0, 5) == Option::Some(dd as int),
            -133 <= dd <= 133,
            (dd as int) % 4 == 1,
            dd != 0,
        decreases 64 - i, (if found { 0int } else { 1int }),
    {
        let jj: i32 = jacobi_symbol(dd, n);
        if jj == -1 {
            found = true;
        } else {
            let ad: u64 = if dd >= 0 { dd as u64 } else { (-dd) as u64 };
            proof {
                assert(ad as int == abs_of(dd as int));
            }
            if jj == 0 && ad < n {
                proof {
                    assert(selfridge_from(nn, i as nat, dd as int) == Option::None::<int>);
                }
                return false;
            }
            if i == 32 {
                let rt: (u64, u64) = isqrt64i(n);
                if rt.1 == 0 {
                    proof {
                        assert((rt.0 as nat) * (rt.0 as nat) == nn);
                        assert(is_square(nn));
                        assert(selfridge_from(nn, i as nat, dd as int) == Option::None::<int>);
                    }
                    return false;
                }
                proof {
                    assert(!is_square(nn)) by {
                        if is_square(nn) {
                            let root = choose|r0: nat| #[trigger] (r0 * r0) == nn;
                            assert((root + 1) * (root + 1) > root * root) by (nonlinear_arith);
                            lemma_isqrt_unique(nn as int, root as int, rt.0 as int);
                        }
                    }
                }
            }
            let ghost iold: u64 = i;
            let ghost dold: i64 = dd;
            dd = if i % 2 == 1 { 2 - dd } else { -(dd + 2) };
            i = i + 1;
            proof {
                assert(dd as int == next_d(dold as int, iold as nat));
                assert(selfridge_from(nn, iold as nat, dold as int)
                    == selfridge_from(nn, i as nat, dd as int));
            }
        }
    }
    proof {
        if !found {
            assert(i == 64);
            assert(selfridge_from(nn, 64, dd as int) == Option::Some(dd as int));
        }
        assert(selfridge_from(nn, 0, 5) == Option::Some(dd as int));
    }
    let ghost ddi: int = dd as int;
    let ghost qq: int = (1 - ddi) / 4;

    // --- Residues of Q = (1 - D)/4 and of D, lifted into the domain. ---
    let q_res: u64 = if dd < 0 {
        (((1 - dd) as u64) / 4) % n
    } else {
        n - ((((dd - 1) as u64) / 4) % n)
    };
    proof {
        lemma_q_res(ddi, ni, q_res as int);
    }
    let d_res: u64 = if dd < 0 {
        n - (((-dd) as u64) % n)
    } else {
        (dd as u64) % n
    };
    proof {
        lemma_d_res(ddi, ni, d_res as int);
    }
    let qm: u64 = mont.ar(q_res);
    let dm: u64 = mont.ar(d_res);
    proof {
        assert(mont_rep(ni, qm as int, qq)) by {
            lemma_mul_mod_noop_left(q_res as int, rr, ni);
            lemma_mul_mod_noop_left(qq % ni, rr, ni);
            lemma_mul_mod_noop_left(qq, rr, ni);
            lemma_mod_twice(q_res as int, ni);
        }
        assert(mont_rep(ni, dm as int, ddi)) by {
            lemma_mul_mod_noop_left(d_res as int, rr, ni);
            lemma_mul_mod_noop_left(ddi % ni, rr, ni);
            lemma_mul_mod_noop_left(ddi, rr, ni);
            lemma_mod_twice(d_res as int, ni);
        }
    }

    // --- Decompose n + 1 = dodd * 2^s with dodd odd. ---
    let m2: u64 = (n - 1) / 2 + 1;
    proof {
        lemma_fundamental_div_mod((n - 1) as int, 2);
        assert(pow2(1) == 2) by { lemma2_to64(); }
        assert(nn + 1 == (m2 as nat) * pow2(1)) by (nonlinear_arith)
            requires
                nn == n as nat,
                n >= 3,
                m2 as int == (n - 1) as int / 2 + 1,
                (n - 1) as int == 2 * ((n - 1) as int / 2),
                pow2(1) == 2,
        ;
    }
    let mut dodd: u64 = m2;
    let mut s: u64 = 1;
    while dodd % 2 == 0
        invariant
            nn == n as nat,
            n >= 3,
            1 <= dodd,
            1 <= s <= 64,
            nn + 1 == (dodd as nat) * pow2(s as nat),
        decreases dodd,
    {
        proof {
            lemma_pow2_adds(s as nat, 1);
            assert(pow2(1) == 2) by { lemma2_to64(); }
            lemma_fundamental_div_mod(dodd as int, 2);
            assert((dodd / 2) as nat * pow2((s + 1) as nat) == (dodd as nat) * pow2(s as nat))
                by (nonlinear_arith)
                requires
                    dodd as int == 2 * ((dodd / 2) as int),
                    pow2((s + 1) as nat) == pow2(s as nat) * 2,
            ;
            assert(s + 1 <= 64) by {
                if s >= 64 {
                    assert(pow2(s as nat) >= pow2(64)) by {
                        if s as nat != 64 {
                            vstd::arithmetic::power2::lemma_pow2_strictly_increases(64, s as nat);
                        }
                    }
                    assert((dodd as nat) * pow2(s as nat) >= 2 * pow2(64)) by (nonlinear_arith)
                        requires dodd >= 2, pow2(s as nat) >= pow2(64);
                    assert(pow2(64) == 0x10000000000000000) by { lemma2_to64(); }
                }
            }
        }
        dodd = dodd / 2;
        s = s + 1;
    }
    proof {
        lemma_odd_decomposition_unique((nn + 1) as nat, dodd as nat, s as nat);
    }

    // --- Highest bit of the odd part. ---
    let mut hi: u64 = 0;
    let mut tmp: u64 = dodd;
    proof {
        assert(pow2(0) == 1) by { lemma2_to64(); }
        assert(dodd as int / 1int == dodd as int);
    }
    while tmp > 1
        invariant
            tmp as int == dodd as int / (pow2(hi as nat) as int),
            hi <= 64,
            dodd >= 1,
            tmp >= 1,
        decreases tmp,
    {
        proof {
            lemma_pow2_pos(hi as nat);
            lemma_div_denominator_local(dodd as int, pow2(hi as nat) as int, 2);
            lemma_pow2_adds(hi as nat, 1);
            assert(pow2(1) == 2) by { lemma2_to64(); }
            assert(hi + 1 <= 64) by {
                if hi >= 64 {
                    assert(pow2(hi as nat) >= pow2(64)) by {
                        if hi as nat != 64 {
                            vstd::arithmetic::power2::lemma_pow2_strictly_increases(64, hi as nat);
                        }
                    }
                    assert(pow2(64) == 0x10000000000000000) by { lemma2_to64(); }
                    assert(dodd as int / (pow2(hi as nat) as int) == 0) by {
                        vstd::arithmetic::div_mod::lemma_basic_div(
                            dodd as int, pow2(hi as nat) as int);
                    }
                }
            }
        }
        tmp = tmp / 2;
        hi = hi + 1;
    }

    // --- Binary ladder over the bits of dodd, most significant first. ---
    let mut um: u64 = mont.r;
    let mut vm: u64 = mont.r;
    let mut qn: u64 = qm;
    let mut bitpos: u64 = hi;
    let ghost mut pfx: nat = 1;
    proof {
        assert(tmp == 1);
        assert(pfx as int == dodd as int / (pow2(hi as nat) as int));
        lemma_r_facts(mont);
        lemma_ladder_bounds(nn, qq, ddi, 1);
        assert(lucas_ladder(nn, qq, ddi, 1) == (1int % ni, 1int % ni, qq % ni));
        lemma_small_mod(1, nn);
        assert(mont_rep(ni, um as int, lucas_ladder(nn, qq, ddi, 1).0)) by {
            lemma_mod_twice(1, ni);
        }
        assert(mont_rep(ni, qn as int, lucas_ladder(nn, qq, ddi, 1).2)) by {
            lemma_mod_twice(qq, ni);
            lemma_mul_mod_noop_left(qq % ni, rr, ni);
            lemma_mul_mod_noop_left((qq % ni) % ni, rr, ni);
        }
    }
    while bitpos > 0
        invariant
            mont.wf(),
            n == mont.n,
            nn == n as nat,
            ni == n as int,
            rr == pow2(64) as int,
            n >= 3,
            um < n,
            vm < n,
            qn < n,
            qm < n,
            dm < n,
            bitpos <= hi <= 64,
            pfx as int == dodd as int / (pow2(bitpos as nat) as int),
            pfx >= 1,
            mont_rep(ni, qm as int, qq),
            mont_rep(ni, dm as int, ddi),
            mont_rep(ni, um as int, lucas_ladder(nn, qq, ddi, pfx).0),
            mont_rep(ni, vm as int, lucas_ladder(nn, qq, ddi, pfx).1),
            mont_rep(ni, qn as int, lucas_ladder(nn, qq, ddi, pfx).2),
        decreases bitpos,
    {
        let ghost bpold: u64 = bitpos;
        let ghost pfxold: nat = pfx;
        let ghost told: (int, int, int) = lucas_ladder(nn, qq, ddi, pfxold);
        bitpos = bitpos - 1;
        let bit: u64 = (dodd >> bitpos) & 1;
        proof {
            vstd::bits::lemma_u64_shr_is_div(dodd, bitpos);
            assert((dodd >> bitpos) & 1 == (dodd >> bitpos) % 2) by (bit_vector);
            lemma_pow2_pos(bitpos as nat);
            lemma_div_denominator_local(dodd as int, pow2(bitpos as nat) as int, 2);
            lemma_pow2_adds(bitpos as nat, 1);
            assert(pow2(1) == 2) by { lemma2_to64(); }
            lemma_fundamental_div_mod(dodd as int / (pow2(bitpos as nat) as int), 2);
            pfx = (2 * pfxold + bit as nat) as nat;
            assert(pfx as int == dodd as int / (pow2(bitpos as nat) as int));
            lemma_ladder_bounds(nn, qq, ddi, pfxold);
        }
        // Index doubling.
        proof {
            assert(ni < rr) by { lemma2_to64(); }
            assert((um as int * vm as int) < ni * rr && (vm as int * vm as int) < ni * rr
                && (qn as int * qn as int) < ni * rr) by (nonlinear_arith)
                requires (um as int) < ni, (vm as int) < ni, (qn as int) < ni, 0 < ni < rr;
        }
        let u2: u64 = mont.mrmul(um, vm);
        let t1: u64 = mont.mrmul(vm, vm);
        let t2: u64 = mont.add(qn, qn);
        let v2: u64 = mont.sub(t1, t2);
        let q2: u64 = mont.mrmul(qn, qn);
        let ghost dbl: (int, int, int) = lucas_double(nn, told);
        proof {
            lemma_mont_mul(ni, u2 as int, um as int, vm as int, told.0, told.1);
            lemma_mont_mul(ni, t1 as int, vm as int, vm as int, told.1, told.1);
            lemma_mont_add(ni, t2 as int, qn as int, qn as int, told.2, told.2);
            lemma_mont_sub(ni, v2 as int, t1 as int, t2 as int, told.1 * told.1, told.2 + told.2);
            lemma_mont_mul(ni, q2 as int, qn as int, qn as int, told.2, told.2);
            // Identify with the reduced spec values.
            lemma_mod_twice(told.0 * told.1, ni);
            lemma_mod_twice(told.1 * told.1 - 2 * told.2, ni);
            lemma_mod_twice(told.2 * told.2, ni);
            lemma_mul_mod_noop_left((told.0 * told.1) % ni, rr, ni);
            lemma_mul_mod_noop_left(told.0 * told.1, rr, ni);
            assert(told.1 * told.1 - (told.2 + told.2) == told.1 * told.1 - 2 * told.2);
            lemma_mul_mod_noop_left((told.1 * told.1 - 2 * told.2) % ni, rr, ni);
            lemma_mul_mod_noop_left(told.1 * told.1 - 2 * told.2, rr, ni);
            lemma_mul_mod_noop_left((told.2 * told.2) % ni, rr, ni);
            lemma_mul_mod_noop_left(told.2 * told.2, rr, ni);
            assert(mont_rep(ni, u2 as int, dbl.0));
            assert(mont_rep(ni, v2 as int, dbl.1));
            assert(mont_rep(ni, q2 as int, dbl.2));
        }
        if bit == 1 {
            let a1: u64 = mont.add(u2, v2);
            let uu: u64 = mont.div2(a1);
            proof {
                assert(ni < rr) by { lemma2_to64(); }
                assert((dm as int * u2 as int) < ni * rr) by (nonlinear_arith)
                    requires (dm as int) < ni, (u2 as int) < ni, 0 < ni < rr;
            }
            let m1: u64 = mont.mrmul(dm, u2);
            let a2v: u64 = mont.add(m1, v2);
            let vv: u64 = mont.div2(a2v);
            proof {
                assert((q2 as int * qm as int) < ni * rr) by (nonlinear_arith)
                    requires (q2 as int) < ni, (qm as int) < ni, 0 < ni < rr;
            }
            let q3: u64 = mont.mrmul(q2, qm);
            proof {
                let tnew: (int, int, int) = lucas_add(nn, qq, ddi, dbl);
                lemma_mont_add(ni, a1 as int, u2 as int, v2 as int, dbl.0, dbl.1);
                lemma_mont_half(ni, uu as int, a1 as int, dbl.0 + dbl.1);
                lemma_mod_twice(dbl.0 + dbl.1, ni);
                assert(mont_rep(ni, uu as int, tnew.0)) by {
                    assert(half_mod((dbl.0 + dbl.1) % ni, nn) == tnew.0);
                    lemma_mod_bound(dbl.0 + dbl.1, ni);
                    lemma_half_mod_bounds((dbl.0 + dbl.1) % ni, nn);
                    lemma_small_mod(tnew.0 as nat, nn);
                }
                lemma_mont_mul(ni, m1 as int, dm as int, u2 as int, ddi, dbl.0);
                lemma_mont_add(ni, a2v as int, m1 as int, v2 as int, ddi * dbl.0, dbl.1);
                lemma_mont_half(ni, vv as int, a2v as int, ddi * dbl.0 + dbl.1);
                assert(mont_rep(ni, vv as int, tnew.1));
                lemma_mont_mul(ni, q3 as int, q2 as int, qm as int, dbl.2, qq);
                lemma_mod_twice(dbl.2 * qq, ni);
                lemma_mul_mod_noop_left((dbl.2 * qq) % ni, rr, ni);
                lemma_mul_mod_noop_left(dbl.2 * qq, rr, ni);
                assert(mont_rep(ni, q3 as int, tnew.2));
                assert(lucas_ladder(nn, qq, ddi, pfx) == tnew) by {
                    assert(pfx == 2 * pfxold + 1);
                    assert(pfx / 2 == pfxold && pfx % 2 == 1);
                }
            }
            um = uu;
            vm = vv;
            qn = q3;
        } else {
            proof {
                assert(lucas_ladder(nn, qq, ddi, pfx) == dbl) by {
                    assert(pfx == 2 * pfxold);
                    assert(pfx / 2 == pfxold && pfx % 2 == 0);
                    assert(pfx >= 2);
                }
            }
            um = u2;
            vm = v2;
            qn = q2;
        }
    }
    proof {
        assert(pow2(0) == 1) by { lemma2_to64(); }
        assert(pfx == dodd as nat);
    }
    let ghost lt: (int, int, int) = lucas_ladder(nn, qq, ddi, dodd as nat);
    proof {
        lemma_ladder_bounds(nn, qq, ddi, dodd as nat);
        lemma_mont_zero(ni);
        lemma_mont_eq(ni, um as int, 0, lt.0, 0);
        lemma_mont_eq(ni, vm as int, 0, lt.1, 0);
        lemma_small_mod(lt.0 as nat, nn);
        lemma_small_mod(lt.1 as nat, nn);
        lemma_small_mod(0, nn);
    }
    if um == 0 || vm == 0 {
        return true;
    }
    // --- Double out the remaining factor of two, watching V. ---
    let mut t_rem: u64 = s;
    proof {
        assert(lucas_vchain(nn, lt.1, lt.2, s as nat) == lucas_vchain(nn, lt.1, lt.2, s as nat));
    }
    let ghost mut vc: int = lt.1;
    let ghost mut qc: int = lt.2;
    while t_rem > 0
        invariant
            mont.wf(),
            n == mont.n,
            nn == n as nat,
            ni == n as int,
            rr == pow2(64) as int,
            n >= 3,
            vm < n,
            qn < n,
            0 <= vc < ni,
            0 <= qc < ni,
            mont_rep(ni, vm as int, vc),
            mont_rep(ni, qn as int, qc),
            lucas_vchain(nn, lt.1, lt.2, s as nat) == lucas_vchain(nn, vc, qc, t_rem as nat),
            selfridge_from(nn, 0, 5) == Option::Some(ddi),
            qq == (1 - ddi) / 4,
            dodd as nat == odd_part((nn + 1) as nat),
            s as nat == two_adic((nn + 1) as nat),
            lt == lucas_ladder(nn, qq, ddi, dodd as nat),
            nn % 2 == 1,
        decreases t_rem,
    {
        proof {
            assert(ni < rr) by { lemma2_to64(); }
            assert((vm as int * vm as int) < ni * rr && (qn as int * qn as int) < ni * rr)
                by (nonlinear_arith)
                requires (vm as int) < ni, (qn as int) < ni, 0 < ni < rr;
        }
        let t1: u64 = mont.mrmul(vm, vm);
        let t2: u64 = mont.add(qn, qn);
        let v2: u64 = mont.sub(t1, t2);
        let ghost vnext: int = (vc * vc - 2 * qc) % ni;
        proof {
            lemma_mont_mul(ni, t1 as int, vm as int, vm as int, vc, vc);
            lemma_mont_add(ni, t2 as int, qn as int, qn as int, qc, qc);
            lemma_mont_sub(ni, v2 as int, t1 as int, t2 as int, vc * vc, qc + qc);
            assert(vc * vc - (qc + qc) == vc * vc - 2 * qc);
            lemma_mod_twice(vc * vc - 2 * qc, ni);
            lemma_mul_mod_noop_left(vnext, rr, ni);
            lemma_mul_mod_noop_left(vc * vc - 2 * qc, rr, ni);
            assert(mont_rep(ni, v2 as int, vnext));
            lemma_mod_bound(vc * vc - 2 * qc, ni);
            lemma_mont_zero(ni);
            lemma_mont_eq(ni, v2 as int, 0, vnext, 0);
            lemma_small_mod(vnext as nat, nn);
            lemma_small_mod(0, nn);
        }
        if v2 == 0 {
            return true;
        }
        let q2: u64 = mont.mrmul(qn, qn);
        proof {
            lemma_mont_mul(ni, q2 as int, qn as int, qn as int, qc, qc);
            let qnext: int = (qc * qc) % ni;
            lemma_mod_twice(qc * qc, ni);
            lemma_mul_mod_noop_left(qnext, rr, ni);
            lemma_mul_mod_noop_left(qc * qc, rr, ni);
            lemma_mod_bound(qc * qc, ni);
            vc = vnext;
            qc = qnext;
        }
        vm = v2;
        qn = q2;
        t_rem = t_rem - 1;
    }
    proof {
        assert(!lucas_vchain(nn, lt.1, lt.2, s as nat));
    }
    false
}

/// Zero is its own Montgomery image.
pub proof fn lemma_mont_zero(n: int)
    requires
        n > 2,
    ensures
        mont_rep(n, 0, 0),
{
    let rr: int = pow2(64) as int;
    lemma_small_mod(0, n as nat);
    assert((0int % n) * rr == 0);
}

/// The computed residue of `Q = (1 - dd)/4` is congruent to it and in range.
proof fn lemma_q_res(ddi: int, ni: int, qv: int)
    requires
        ni > 2,
        ddi % 4 == 1,
        -133 <= ddi <= 133,
        ddi != 0,
        ddi < 0 ==> qv == ((1 - ddi) / 4) % ni,
        ddi > 0 ==> qv == ni - (((ddi - 1) / 4) % ni),
    ensures
        0 <= qv <= ni,
        qv % ni == ((1 - ddi) / 4) % ni,
{
    let qq: int = (1 - ddi) / 4;
    if ddi < 0 {
        lemma_mod_bound(qq, ni);
        lemma_mod_twice(qq, ni);
    } else {
        let m4: int = (ddi - 1) / 4;
        assert((ddi - 1) % 4 == 0) by {
            lemma_fundamental_div_mod(ddi, 4);
        }
        lemma_fundamental_div_mod(ddi - 1, 4);
        assert(1 - ddi == 4 * (-m4));
        assert(qq == -m4) by {
            lemma_fundamental_div_mod_converse_local(1 - ddi, 4, -m4, 0);
        }
        lemma_mod_bound(m4, ni);
        if m4 % ni == 0 {
            lemma_fundamental_div_mod(m4, ni);
            assert(-m4 == (-(m4 / ni)) * ni + 0) by (nonlinear_arith)
                requires m4 == ni * (m4 / ni);
            lemma_fundamental_div_mod_converse_mod(-m4, ni, -(m4 / ni), 0);
            assert(qv == ni);
            assert(qv % ni == 0) by {
                lemma_mod_multiples_vanish(1, 0, ni);
                lemma_small_mod(0, ni as nat);
            }
        } else {
            lemma_fundamental_div_mod(m4, ni);
            assert(-m4 == (-(m4 / ni) - 1) * ni + (ni - m4 % ni)) by (nonlinear_arith)
                requires m4 == ni * (m4 / ni) + m4 % ni;
            lemma_fundamental_div_mod_converse_mod(-m4, ni, -(m4 / ni) - 1, ni - m4 % ni);
            lemma_small_mod(qv as nat, ni as nat);
        }
    }
}

/// The computed residue of `D` is congruent to it and in range.
proof fn lemma_d_res(ddi: int, ni: int, dv: int)
    requires
        ni > 2,
        -133 <= ddi <= 133,
        ddi != 0,
        ddi < 0 ==> dv == ni - ((-ddi) % ni),
        ddi >= 0 ==> dv == ddi % ni,
    ensures
        0 <= dv <= ni,
        dv % ni == ddi % ni,
    {
    if ddi < 0 {
        lemma_mod_bound(-ddi, ni);
        if (-ddi) % ni == 0 {
            lemma_fundamental_div_mod(-ddi, ni);
            assert(ddi == (-((-ddi) / ni)) * ni + 0) by (nonlinear_arith)
                requires -ddi == ni * ((-ddi) / ni);
            lemma_fundamental_div_mod_converse_mod(ddi, ni, -((-ddi) / ni), 0);
            assert(dv == ni);
            lemma_mod_multiples_vanish(1, 0, ni);
            lemma_small_mod(0, ni as nat);
        } else {
            lemma_fundamental_div_mod(-ddi, ni);
            assert(ddi == (-((-ddi) / ni) - 1) * ni + (ni - (-ddi) % ni)) by (nonlinear_arith)
                requires -ddi == ni * ((-ddi) / ni) + (-ddi) % ni;
            lemma_fundamental_div_mod_converse_mod(ddi, ni, -((-ddi) / ni) - 1, ni - (-ddi) % ni);
            lemma_small_mod(dv as nat, ni as nat);
        }
    } else {
        lemma_mod_twice(ddi, ni);
        lemma_mod_bound(ddi, ni);
    }
}

/// Exact division restated for quotients given with a zero remainder.
proof fn lemma_fundamental_div_mod_converse_local(x: int, d: int, q: int, r: int)
    requires
        d > 0,
        0 <= r < d,
        x == q * d + r,
    ensures
        x / d == q,
        x % d == r,
{
    lemma_fundamental_div_mod_converse_mod(x, d, q, r);
    vstd::arithmetic::div_mod::lemma_fundamental_div_mod_converse_div(x, d, q, r);
}

/// Nested division collapses: `(x / c) / d == x / (c * d)`.
proof fn lemma_div_denominator_local(x: int, c: int, d: int)
    requires
        x >= 0,
        c > 0,
        d > 0,
    ensures
        (x / c) / d == x / (c * d),
{
    vstd::arithmetic::div_mod::lemma_div_denominator(x, c, d);
}

/// The Baillie-PSW primality oracle.
pub fn baillie_psw(n: usize) -> (r: bool)
    ensures
        r == baillie_psw_spec(n as nat),
{
    if n == 2 {
        return true;
    }
    if n < 2 || n % 2 == 0 {
        return false;
    }
    let n64: u64 = n as u64;
    let mont: MontgomeryMultiplication = MontgomeryMultiplication::new(n64);
    let mr: bool = miller_rabin_base_2(&mont);
    if !mr {
        return false;
    }
    lucas_primality_test(&mont)
}

} // verus!
