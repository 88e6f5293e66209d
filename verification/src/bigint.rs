//! The Lucas-Lehmer test for Mersenne numbers `2^p - 1`. The arbitrary
//! precision arithmetic comes from an outside big-integer crate through
//! trusted wrappers; each wrapper's contract states what the operation does
//! to the held natural number, and the recurrence itself is verified against
//! those contracts.

use vstd::prelude::*;
use num_bigint::BigUint;

verus! {

use crate::baillie_psw::{baillie_psw, baillie_psw_spec};
use vstd::arithmetic::power2::{pow2, lemma_pow2_pos, lemma_pow2_strictly_increases, lemma2_to64};
use vstd::arithmetic::div_mod::{
    lemma_fundamental_div_mod, lemma_small_mod, lemma_mod_multiples_vanish,
    lemma_mod_bound, lemma_add_mod_noop,
    lemma_mod_twice,
};

#[verifier::external_type_specification]
#[verifier::external_body]
pub struct ExBigUint(BigUint);

/// The natural number a big integer holds.
pub uninterp spec fn big_nat(b: BigUint) -> nat;

/// Relies on `num_bigint::BigUint::from(u64)`: builds the big integer holding
/// exactly the given value.
#[verifier::external_body]
fn big_from(x: u64) -> (r: BigUint)
    ensures
        big_nat(r) == x as nat,
{
    BigUint::from(x)
}

/// Relies on `BigUint`'s `Shl` impl: shifting left by `k` multiplies the held
/// value by `2^k`.
#[verifier::external_body]
fn big_shl(a: &BigUint, k: usize) -> (r: BigUint)
    ensures
        big_nat(r) == big_nat(*a) * pow2(k as nat),
{
    a << k
}

/// Relies on `BigUint`'s `Shr` impl: shifting right by `k` divides the held
/// value by `2^k`, discarding the remainder.
#[verifier::external_body]
fn big_shr(a: &BigUint, k: usize) -> (r: BigUint)
    ensures
        big_nat(r) == big_nat(*a) / pow2(k as nat),
{
    a >> k
}

/// Relies on `BigUint`'s `Mul` impl: exact product of the held values.
#[verifier::external_body]
fn big_mul(a: &BigUint, b: &BigUint) -> (r: BigUint)
    ensures
        big_nat(r) == big_nat(*a) * big_nat(*b),
{
    a * b
}

/// Relies on `BigUint`'s `Add` impl: exact sum of the held values.
#[verifier::external_body]
fn big_add(a: &BigUint, b: &BigUint) -> (r: BigUint)
    ensures
        big_nat(r) == big_nat(*a) + big_nat(*b),
{
    a + b
}

/// Relies on `BigUint`'s `Sub` impl: exact difference; the subtrahend must
/// not exceed the minuend, since the outside type has no negative values.
#[verifier::external_body]
fn big_sub(a: &BigUint, b: &BigUint) -> (r: BigUint)
    requires
        big_nat(*b) <= big_nat(*a),
    ensures
        big_nat(r) == big_nat(*a) - big_nat(*b),
{
    a - b
}

/// Relies on `BigUint`'s `BitAnd` impl: masking with an all-ones value
/// `2^k - 1` keeps exactly the low `k` bits, the remainder modulo `2^k`.
#[verifier::external_body]
fn big_and_mask(a: &BigUint, mask: &BigUint) -> (r: BigUint)
    requires
        exists|k: nat| big_nat(*mask) + 1 == pow2(k),
    ensures
        big_nat(r) == big_nat(*a) % (big_nat(*mask) + 1),
{
    a & mask
}

/// Relies on `BigUint`'s `Ord` impl: comparison agrees with the held values.
#[verifier::external_body]
fn big_ge(a: &BigUint, b: &BigUint) -> (r: bool)
    ensures
        r == (big_nat(*a) >= big_nat(*b)),
{
    a >= b
}

/// Relies on `BigUint`'s `PartialEq` impl: equality agrees with the held
/// values; used only to recognise zero.
#[verifier::external_body]
fn big_is_zero(a: &BigUint) -> (r: bool)
    ensures
        r == (big_nat(*a) == 0),
{
    *a == BigUint::from(0u64)
}

/// The Lucas-Lehmer sequence modulo `2^p - 1`: `s_0 = 4` and
/// `s_{j+1} = s_j^2 - 2`, reduced at every step.
pub open spec fn lucas_lehmer_seq(p: nat, j: nat) -> nat
    recommends
        p >= 3,
    decreases j,
{
    let m = (pow2(p) - 1) as nat;
    if j == 0 {
        4
    } else {
        let prev = lucas_lehmer_seq(p, (j - 1) as nat);
        ((prev * prev + (m - 2)) % (m as int)) as nat
    }
}

/// What the Lucas-Lehmer test decides: `2^n - 1` for `n = 2` is prime, an
/// exponent failing the Baillie-PSW filter is rejected, and otherwise the
/// classical recurrence must end at zero after `n - 2` steps.
pub open spec fn lucas_lehmer_spec(n: nat) -> bool {
    if n == 2 {
        true
    } else if !baillie_psw_spec(n) {
        false
    } else {
        lucas_lehmer_seq(n, (n - 2) as nat) == 0
    }
}

/// Lucas-Lehmer primality test for the Mersenne number `2^n - 1`.
pub fn lucas_lehmer(n: usize) -> (r: Option<bool>)
    ensures
        r == Option::Some(lucas_lehmer_spec(n as nat)),
{
    if n == 2 {
        return Option::Some(true);
    }
    if !baillie_psw(n) {
        return Option::Some(false);
    }
    proof {
        // An exponent passing the filter is odd and at least 3.
        assert(n >= 3 && n % 2 == 1);
    }
    let ghost p: nat = n as nat;
    let ghost mval: int = pow2(p) - 1;
    proof {
        assert(pow2(p) >= pow2(3)) by {
            if p != 3 {
                lemma_pow2_strictly_increases(3, p);
            }
        }
        assert(pow2(3) == 8) by { lemma2_to64(); }
    }
    let one: BigUint = big_from(1);
    let two_p: BigUint = big_shl(&one, n);
    let m: BigUint = big_sub(&two_p, &one);
    let two: BigUint = big_from(2);
    let mm2: BigUint = big_sub(&m, &two);
    let mut s: BigUint = big_from(4);
    proof {
        assert(big_nat(m) == mval);
        assert(big_nat(s) == lucas_lehmer_seq(p, 0));
        assert(big_nat(s) < mval);
    }
    let mut it: usize = 2;
    while it < n
        invariant
            3 <= n,
            2 <= it <= n,
            p == n as nat,
            mval == pow2(p) - 1,
            mval >= 7,
            big_nat(m) == mval,
            big_nat(two) == 2,
            big_nat(mm2) == mval - 2,
            big_nat(s) == lucas_lehmer_seq(p, (it - 2) as nat),
            big_nat(s) < mval,
        decreases n - it,
    {
        let ss: BigUint = big_mul(&s, &s);
        let low: BigUint = big_and_mask(&ss, &m);
        let hi: BigUint = big_shr(&ss, n);
        proof {
            assert(exists|k: nat| big_nat(m) + 1 == pow2(k)) by {
                assert(big_nat(m) + 1 == pow2(p));
            }
            lemma_pow2_pos(p);
        }
        let mut t: BigUint = big_add(&low, &hi);
        proof {
            let sv: int = big_nat(s) as int;
            let ssv: int = sv * sv;
            let pp: int = pow2(p) as int;
            lemma_fundamental_div_mod(ssv, pp);
            // Modulo m = 2^p - 1 the two halves just add up.
            assert(big_nat(t) as int == ssv / pp + ssv % pp);
            assert(ssv == mval * (ssv / pp) + (ssv / pp + ssv % pp)) by (nonlinear_arith)
                requires
                    ssv == pp * (ssv / pp) + ssv % pp,
                    mval == pp - 1,
            ;
            assert((big_nat(t) as int) % mval == ssv % mval) by {
                lemma_mod_multiples_vanish(ssv / pp, ssv / pp + ssv % pp, mval);
            }
            // And the sum is below 2m.
            assert(ssv / pp < mval) by {
                assert(ssv < pp * mval) by (nonlinear_arith)
                    requires sv < mval, ssv == sv * sv, mval == pp - 1, pp >= 8, sv >= 0;
                vstd::arithmetic::div_mod::lemma_multiply_divide_lt(ssv, pp, mval);
            }
            assert(ssv % pp <= mval) by {
                lemma_mod_bound(ssv, pp);
            }
            assert((big_nat(t) as int) < 2 * mval);
        }
        if big_ge(&t, &m) {
            t = big_sub(&t, &m);
            proof {
                lemma_mod_multiples_vanish(1, big_nat(t) as int, mval);
                lemma_small_mod(big_nat(t), mval as nat);
            }
        } else {
            proof {
                lemma_small_mod(big_nat(t), mval as nat);
            }
        }
        proof {
            // t now holds ss mod m exactly.
            let sv: int = big_nat(s) as int;
            lemma_mod_twice(sv * sv, mval);
            assert(big_nat(t) as int == (sv * sv) % mval);
            lemma_mod_bound(sv * sv, mval);
        }
        let snext: BigUint = if big_ge(&t, &two) {
            big_sub(&t, &two)
        } else {
            big_add(&t, &mm2)
        };
        proof {
            // Subtracting 2 modulo m matches the specification's step.
            let sv: int = big_nat(s) as int;
            let tv: int = big_nat(t) as int;
            assert(big_nat(snext) as int == (tv + (mval - 2)) % mval) by {
                if tv >= 2 {
                    lemma_mod_multiples_vanish(1, tv - 2, mval);
                    lemma_small_mod((tv - 2) as nat, mval as nat);
                } else {
                    lemma_small_mod((tv + mval - 2) as nat, mval as nat);
                }
            }
            assert((tv + (mval - 2)) % mval == (sv * sv + (mval - 2)) % mval) by {
                lemma_add_mod_noop(sv * sv, mval - 2, mval);
                lemma_add_mod_noop(tv, mval - 2, mval);
                lemma_mod_twice(mval - 2, mval);
                lemma_small_mod((mval - 2) as nat, mval as nat);
            }
            assert(big_nat(snext) == lucas_lehmer_seq(p, (it - 1) as nat));
            lemma_mod_bound(sv * sv + (mval - 2), mval);
        }
        s = snext;
        it = it + 1;
    }
    Option::Some(big_is_zero(&s))
}

} // verus!
