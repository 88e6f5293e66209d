//! The Jacobi symbol, computed by the binary reciprocity algorithm using only
//! shifts, subtraction and swaps. The specification is the standard recursive
//! definition: periodicity in the numerator, the supplement for the factor 2,
//! quadratic reciprocity for the swap, and the supplement for -1.

use vstd::prelude::*;

verus! {

use vstd::arithmetic::div_mod::{
    lemma_mod_bound, lemma_fundamental_div_mod, lemma_fundamental_div_mod_converse_mod,
    lemma_small_mod,
};
use crate::primes::lemma_divisor_of_odd_is_odd;

/// The Jacobi symbol `(a / n)` for `a >= 0` and odd `n >= 1`, defined by the
/// classical recurrences.
pub open spec fn jacobi_nonneg(a: nat, n: nat) -> int
    recommends
        n % 2 == 1,
        n >= 1,
    decreases n, a,
{
    if n <= 1 {
        1
    } else if a >= n {
        jacobi_nonneg(a % n, n)
    } else if a == 0 {
        0
    } else if a % 2 == 0 {
        (if n % 8 == 3 || n % 8 == 5 { -1int } else { 1int }) * jacobi_nonneg(a / 2, n)
    } else {
        (if a % 4 == 3 && n % 4 == 3 { -1int } else { 1int }) * jacobi_nonneg(n, a)
    }
}

/// The Jacobi symbol extended to negative numerators by the supplement
/// `(-1 / n) = -1` exactly when `n = 3 (mod 4)`.
pub open spec fn jacobi(a: int, n: nat) -> int
    recommends
        n % 2 == 1,
        n >= 1,
{
    if a >= 0 {
        jacobi_nonneg(a as nat, n)
    } else {
        (if n % 4 == 3 { -1int } else { 1int }) * jacobi_nonneg((-a) as nat, n)
    }
}

/// Computes the Jacobi symbol `(a / n)` for odd `n`. A result of 0 reveals a
/// factor shared by `a` and `n`.
pub fn jacobi_symbol(a: i64, n: u64) -> (r: i32)
    requires
        n % 2 == 1,
        n >= 1,
        a != i64::MIN,
    ensures
        r as int == jacobi(a as int, n as nat),
        -1 <= r <= 1,
{
    let mut j: i32 = 1;
    let mut aa: u64;
    if a >= 0 {
        aa = a as u64;
    } else {
        if n % 4 == 3 {
            j = -1;
        }
        aa = (-a) as u64;
    }
    let mut nn: u64 = n;
    let ghost j0: int = jacobi(a as int, n as nat);
    proof {
        assert(j0 == j * jacobi_nonneg(aa as nat, nn as nat));
    }
    loop
        invariant
            nn % 2 == 1,
            nn >= 1,
            j == 1 || j == -1i32,
            j0 == jacobi(a as int, n as nat),
            j0 == j * jacobi_nonneg(aa as nat, nn as nat),
        decreases nn,
    {
        proof {
            if nn > 1 {
                lemma_mod_bound(aa as int, nn as int);
                if aa >= nn {
                    assert(jacobi_nonneg(aa as nat, nn as nat)
                        == jacobi_nonneg((aa % nn) as nat, nn as nat));
                } else {
                    vstd::arithmetic::div_mod::lemma_small_mod(aa as nat, nn as nat);
                }
            } else {
                assert(jacobi_nonneg(aa as nat, nn as nat) == 1);
                assert(jacobi_nonneg((aa % nn) as nat, nn as nat) == 1);
            }
        }
        aa = aa % nn;
        if aa == 0 {
            if nn == 1 {
                proof {
                    assert(jacobi_nonneg(aa as nat, nn as nat) == 1);
                }
                return j;
            } else {
                proof {
                    assert(jacobi_nonneg(aa as nat, nn as nat) == 0);
                }
                return 0;
            }
        }
        proof {
            assert(nn > 1) by {
                if nn == 1 {
                    assert(aa % 1 == 0) by (bit_vector);
                }
            }
            assert(nn >= 3);
        }
        while aa % 2 == 0
            invariant
                nn % 2 == 1,
                nn >= 3,
                1 <= aa < nn,
                j == 1 || j == -1i32,
                j0 == j * jacobi_nonneg(aa as nat, nn as nat),
            decreases aa,
        {
            proof {
                assert(jacobi_nonneg(aa as nat, nn as nat)
                    == (if nn % 8 == 3 || nn % 8 == 5 { -1int } else { 1int })
                        * jacobi_nonneg((aa / 2) as nat, nn as nat));
            }
            let ghost jold: int = j as int;
            let ghost aold: nat = aa as nat;
            if nn % 8 == 3 || nn % 8 == 5 {
                j = -j;
            }
            aa = aa / 2;
            proof {
                let sgn: int = if nn % 8 == 3 || nn % 8 == 5 { -1int } else { 1int };
                assert(j as int == jold * sgn);
                assert(j0 == jold * (sgn * jacobi_nonneg(aa as nat, nn as nat)));
                assert(jold * (sgn * jacobi_nonneg(aa as nat, nn as nat))
                    == (jold * sgn) * jacobi_nonneg(aa as nat, nn as nat)) by (nonlinear_arith);
            }
        }
        // Quadratic reciprocity, then swap and continue with the smaller pair.
        proof {
            assert(jacobi_nonneg(aa as nat, nn as nat)
                == (if aa % 4 == 3 && nn % 4 == 3 { -1int } else { 1int })
                    * jacobi_nonneg(nn as nat, aa as nat));
        }
        let ghost jold: int = j as int;
        if aa % 4 == 3 && nn % 4 == 3 {
            j = -j;
        }
        proof {
            let sgn: int = if aa % 4 == 3 && nn % 4 == 3 { -1int } else { 1int };
            assert(j as int == jold * sgn);
            assert(jold * (sgn * jacobi_nonneg(nn as nat, aa as nat))
                == (jold * sgn) * jacobi_nonneg(nn as nat, aa as nat)) by (nonlinear_arith);
        }
        let t: u64 = aa;
        aa = nn;
        nn = t;
    }
}

/// The greatest common divisor, by Euclid's recursion.
pub open spec fn gcd(a: nat, b: nat) -> nat
    decreases b,
{
    if b == 0 {
        a
    } else {
        gcd(b, a % b)
    }
}

/// A common divisor of `a` and `b` divides `a % b`.
proof fn lemma_divides_mod(d: int, a: int, b: int)
    requires
        d >= 1,
        a >= 0,
        b >= 1,
        a % d == 0,
        b % d == 0,
    ensures
        (a % b) % d == 0,
{
    lemma_fundamental_div_mod(a, d);
    lemma_fundamental_div_mod(b, d);
    lemma_fundamental_div_mod(a, b);
    let q = a / b;
    assert(a % b == d * ((a / d) - q * (b / d))) by (nonlinear_arith)
        requires
            a == d * (a / d),
            b == d * (b / d),
            a == b * q + a % b,
    ;
    lemma_fundamental_div_mod_converse_mod(a % b, d, (a / d) - q * (b / d), 0);
}

/// A divisor of `b` and of `a % b` divides `a`.
proof fn lemma_divides_unmod(d: int, a: int, b: int)
    requires
        d >= 1,
        a >= 0,
        b >= 1,
        b % d == 0,
        (a % b) % d == 0,
    ensures
        a % d == 0,
{
    lemma_fundamental_div_mod(b, d);
    lemma_fundamental_div_mod(a % b, d);
    lemma_fundamental_div_mod(a, b);
    let q = a / b;
    assert(a == d * (q * (b / d) + (a % b) / d)) by (nonlinear_arith)
        requires
            b == d * (b / d),
            a % b == d * ((a % b) / d),
            a == b * q + a % b,
    ;
    lemma_fundamental_div_mod_converse_mod(a, d, q * (b / d) + (a % b) / d, 0);
}

/// Euclid's recursion computes a common divisor of its arguments, and any
/// common divisor divides it.
proof fn lemma_gcd_facts(a: nat, b: nat)
    ensures
        a as int % (gcd(a, b) as int) == 0 || (a == 0 && b == 0),
        b as int % (gcd(a, b) as int) == 0 || (a == 0 && b == 0),
        gcd(a, b) >= 1 || (a == 0 && b == 0),
        forall|d: int|
            1 <= d && a as int % d == 0 && #[trigger] (b as int % d) == 0 ==> (gcd(
                a, b) as int) % d == 0,
    decreases b,
{
    if b == 0 {
        if a > 0 {
            vstd::arithmetic::div_mod::lemma_mod_self_0(a as int);
        }
        assert forall|d: int|
            1 <= d && a as int % d == 0 && #[trigger] (b as int % d) == 0
            implies (gcd(a, b) as int) % d == 0 by {}
    } else {
        lemma_mod_bound(a as int, b as int);
        lemma_gcd_facts(b, (a as int % b as int) as nat);
        let g = gcd(b, (a as int % b as int) as nat);
        assert(g >= 1);
        // g divides b and a % b, hence a.
        lemma_divides_unmod(g as int, a as int, b as int);
        // any common divisor d of a and b divides a % b, hence divides g.
        assert forall|d: int|
            1 <= d && a as int % d == 0 && #[trigger] (b as int % d) == 0
            implies (gcd(a, b) as int) % d == 0 by {
            lemma_divides_mod(d, a as int, b as int);
        }
    }
}

/// An odd number dividing a double divides the half.
proof fn lemma_odd_divides_half(d: int, x: int)
    requires
        d >= 1,
        d % 2 == 1,
        x >= 0,
        (2 * x) % d == 0,
    ensures
        x % d == 0,
{
    lemma_fundamental_div_mod(2 * x, d);
    let q = (2 * x) / d;
    assert(q % 2 == 0) by {
        if q % 2 == 1 {
            lemma_fundamental_div_mod(q, 2);
            lemma_fundamental_div_mod(d, 2);
            assert(2 * x == 2 * (2 * (q / 2) * (d / 2) + q / 2 + d / 2) + 1) by (nonlinear_arith)
                requires
                    2 * x == q * d,
                    q == 2 * (q / 2) + 1,
                    d == 2 * (d / 2) + 1,
            ;
            lemma_fundamental_div_mod_converse_mod(
                2 * x, 2, 2 * (q / 2) * (d / 2) + q / 2 + d / 2, 1);
        }
    }
    lemma_fundamental_div_mod(q, 2);
    assert(x == (q / 2) * d + 0) by (nonlinear_arith)
        requires 2 * x == q * d, q == 2 * (q / 2);
    lemma_fundamental_div_mod_converse_mod(x, d, q / 2, 0);
}

/// The Jacobi symbol is zero exactly on shared-factor inputs: for odd `n`,
/// `(a / n) == 0` precisely when `a` and `n` have a common divisor above 1.
pub proof fn lemma_jacobi_zero_iff_shared_factor(a: nat, n: nat)
    requires
        n % 2 == 1,
        n >= 1,
    ensures
        (jacobi_nonneg(a, n) == 0) <==> (gcd(a, n) != 1),
    decreases n, a,
{
    lemma_gcd_facts(a, n);
    if n <= 1 {
        // jacobi is 1, and gcd(a, 1) recurses to gcd(1, 0) == 1.
        assert(a as int % 1int == 0) by {
            lemma_fundamental_div_mod_converse_mod(a as int, 1, a as int, 0);
        }
        assert(gcd(a, 1) == gcd(1, (a as int % 1int) as nat));
        assert(gcd(a, 1) == 1);
    } else if a >= n {
        lemma_mod_bound(a as int, n as int);
        lemma_jacobi_zero_iff_shared_factor((a as int % n as int) as nat, n);
        // gcd is unchanged by reducing the first argument modulo the second.
        let r = (a as int % n as int) as nat;
        assert(gcd(a, n) == gcd(n, r));
        assert(gcd(r, n) == gcd(n, (r as int % n as int) as nat));
        lemma_small_mod(r, n);
    } else if a == 0 {
        // jacobi is 0 and gcd(0, n) == n > 1.
        assert(0int % (n as int) == 0) by {
            lemma_small_mod(0, n);
        }
        assert(gcd(0, n) == gcd(n, 0));
    } else if a % 2 == 0 {
        lemma_jacobi_zero_iff_shared_factor((a / 2) as nat, n);
        let s: int = if n % 8 == 3 || n % 8 == 5 { -1int } else { 1int };
        assert(jacobi_nonneg(a, n) == s * jacobi_nonneg((a / 2) as nat, n));
        assert((jacobi_nonneg(a, n) == 0) <==> (jacobi_nonneg((a / 2) as nat, n) == 0))
            by (nonlinear_arith)
            requires
                jacobi_nonneg(a, n) == s * jacobi_nonneg((a / 2) as nat, n),
                s == -1 || s == 1,
        ;
        // gcd(a, n) and gcd(a/2, n) exceed 1 together, since n is odd.
        let g1 = gcd(a, n);
        let g2 = gcd((a / 2) as nat, n);
        lemma_gcd_facts((a / 2) as nat, n);
        lemma_fundamental_div_mod(a as int, 2);
        if g2 != 1 {
            // g2 divides a/2, hence a, hence divides gcd(a, n).
            assert(a as int % (g2 as int) == 0) by {
                lemma_fundamental_div_mod((a / 2) as int, g2 as int);
                assert(a as int == (g2 as int) * (2 * (((a / 2) as int) / (g2 as int))))
                    by (nonlinear_arith)
                    requires
                        a as int == 2 * ((a / 2) as int),
                        (a / 2) as int == (g2 as int) * (((a / 2) as int) / (g2 as int)),
                ;
                lemma_fundamental_div_mod_converse_mod(
                    a as int, g2 as int, 2 * (((a / 2) as int) / (g2 as int)), 0);
            }
            assert((g1 as int) % (g2 as int) == 0);
            lemma_fundamental_div_mod(g1 as int, g2 as int);
            assert(g1 >= g2) by (nonlinear_arith)
                requires
                    g1 as int == (g2 as int) * ((g1 as int) / (g2 as int)),
                    g1 >= 1,
                    g2 >= 1,
            ;
            assert(g1 != 1) by {
                if g1 == 1 {
                    assert(g2 <= 1);
                }
            }
        }
        if g1 != 1 {
            // g1 divides n, so it is odd; it divides a == 2*(a/2), so it
            // divides a/2, hence divides gcd(a/2, n).
            assert(g1 >= 2) by {
                assert(g1 != 0);
            }
            lemma_fundamental_div_mod(n as int, g1 as int);
            assert(g1 <= n) by (nonlinear_arith)
                requires
                    n as int == (g1 as int) * ((n as int) / (g1 as int)),
                    g1 >= 1,
                    n >= 1,
            ;
            lemma_divisor_of_odd_is_odd(g1, n);
            lemma_odd_divides_half(g1 as int, (a / 2) as int);
            assert((g2 as int) % (g1 as int) == 0);
            assert(g2 != 1) by {
                if g2 == 1 {
                    assert(1int % (g1 as int) == 0);
                    lemma_small_mod(1, g1 as nat);
                }
            }
        }
        assert((g1 != 1) <==> (g2 != 1));
    } else {
        // reciprocity swaps the arguments; so does the gcd.
        lemma_jacobi_zero_iff_shared_factor(n, a);
        let s: int = if a % 4 == 3 && n % 4 == 3 { -1int } else { 1int };
        assert(jacobi_nonneg(a, n) == s * jacobi_nonneg(n, a));
        assert((jacobi_nonneg(a, n) == 0) <==> (jacobi_nonneg(n, a) == 0)) by (nonlinear_arith)
            requires
                jacobi_nonneg(a, n) == s * jacobi_nonneg(n, a),
                s == -1 || s == 1,
        ;
        assert(gcd(n, a) == gcd(a, (n as int % a as int) as nat));
        assert(gcd(a, n) == gcd(n, (a as int % n as int) as nat));
        lemma_small_mod(a, n);
    }
}

/// The signed symbol is zero exactly when the numerator's magnitude shares a
/// factor with the modulus: the form `jacobi_symbol`'s contract exposes.
pub proof fn lemma_jacobi_symbol_zero_iff_shared_factor(a: int, n: nat)
    requires
        n % 2 == 1,
        n >= 1,
    ensures
        (jacobi(a, n) == 0) <==> (gcd((if a >= 0 { a } else { -a }) as nat, n) != 1),
{
    if a >= 0 {
        lemma_jacobi_zero_iff_shared_factor(a as nat, n);
    } else {
        lemma_jacobi_zero_iff_shared_factor((-a) as nat, n);
        let s: int = if n % 4 == 3 { -1int } else { 1int };
        assert(jacobi(a, n) == s * jacobi_nonneg((-a) as nat, n));
        assert((jacobi(a, n) == 0) <==> (jacobi_nonneg((-a) as nat, n) == 0)) by (nonlinear_arith)
            requires
                jacobi(a, n) == s * jacobi_nonneg((-a) as nat, n),
                s == -1 || s == 1,
        ;
    }
}

} // verus!
