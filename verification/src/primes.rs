//! The mathematical model shared by the primality tests and the sieves:
//! what a prime is, what a correctly generated prime sequence looks like,
//! and the facts about divisors that the sieve proofs rest on.

use vstd::prelude::*;

verus! {

use vstd::arithmetic::div_mod::{
    lemma_fundamental_div_mod, lemma_fundamental_div_mod_converse_mod, lemma_mod_division_less_than_divisor,
};
use vstd::arithmetic::mul::lemma_mul_strictly_positive;

/// A natural number is prime when it is at least 2 and no number strictly
/// between 1 and itself divides it.
pub open spec fn is_prime(n: nat) -> bool {
    n >= 2 && forall|d: nat| 2 <= d < n ==> #[trigger] (n % d) != 0
}

/// `s` lists, in strictly increasing order, exactly the primes `p` with
/// `min <= p < max`. This is the common contract of every sieve strategy.
pub open spec fn prime_seq(s: Seq<usize>, min: nat, max: nat) -> bool {
    &&& forall|i: int, j: int| 0 <= i < j < s.len() ==> s[i] < s[j]
    &&& forall|i: int|
        0 <= i < s.len() ==> is_prime(#[trigger] s[i] as nat) && min <= s[i] && (s[i] as nat) < max
    &&& forall|p: usize| is_prime(p as nat) && min <= p && (p as nat) < max ==> s.contains(p)
}

/// The primes strictly below `max`, with no lower cutoff.
pub open spec fn prime_seq_below(s: Seq<usize>, max: nat) -> bool {
    prime_seq(s, 0, max)
}

/// If `d` divides `n` and 2 divides `d`, then 2 divides `n`; stated for the
/// contrapositive use "a divisor of an odd number is odd".
pub proof fn lemma_divisor_of_odd_is_odd(d: nat, n: nat)
    requires
        2 <= d <= n,
        n % d == 0,
        n % 2 == 1,
    ensures
        d % 2 == 1,
{
    if d % 2 == 0 {
        let k: int = n as int / d as int;
        lemma_fundamental_div_mod(n as int, d as int);
        let h: int = d as int / 2;
        lemma_fundamental_div_mod(d as int, 2);
        assert(n as int == (k * h) * 2) by (nonlinear_arith)
            requires n as int == k * (d as int), d as int == 2 * h;
        lemma_fundamental_div_mod_converse_mod(n as int, 2, k * h, 0);
    }
}

/// Every composite number has a divisor no larger than its square root.
pub proof fn lemma_composite_has_small_factor(c: nat)
    requires
        c >= 2,
        !is_prime(c),
    ensures
        exists|a: nat| 2 <= a < c && a * a <= c && #[trigger] (c % a) == 0,
{
    let d = choose|d: nat| 2 <= d < c && #[trigger] (c % d) == 0;
    let q = c as int / d as int;
    lemma_fundamental_div_mod(c as int, d as int);
    lemma_mod_division_less_than_divisor(c as int, d as int);
    assert(c == q * d);
    assert(q >= 2) by (nonlinear_arith)
        requires
            c as int == q * (d as int),
            2 <= d < c,
    ;
    assert(q < c) by {
        assert(q * d >= q * 2) by (nonlinear_arith)
            requires d >= 2, q >= 2;
    }
    if q <= d {
        // c % q == 0 since c == d * q
        lemma_fundamental_div_mod_converse_mod(c as int, q, d as int, 0);
        assert(q * q <= q * d) by (nonlinear_arith)
            requires q <= d, q >= 2;
        assert(c % (q as nat) == 0);
        assert(2 <= (q as nat) && (q as nat) < c && (q as nat) * (q as nat) <= c && c % (q as nat)
            == 0);
    } else {
        assert(d * d <= d * q) by (nonlinear_arith)
            requires d < q, d >= 2;
        assert(d * q == q * d) by (nonlinear_arith);
        assert(2 <= d < c && d * d <= c && c % d == 0);
    }
}

/// A product of two factors, each at least 2, is composite.
pub proof fn lemma_product_is_composite(a: nat, b: nat)
    requires
        a >= 2,
        b >= 2,
    ensures
        !is_prime(a * b),
        a * b >= 2 * b,
{
    lemma_mul_strictly_positive(a as int, b as int);
    assert(a * b >= 2 * b) by (nonlinear_arith)
        requires a >= 2, b >= 1;
    assert(b < a * b) by (nonlinear_arith)
        requires a >= 2, b >= 2;
    lemma_fundamental_div_mod_converse_mod((a * b) as int, b as int, a as int, 0);
    assert((a * b) % b == 0);
    assert(2 <= b < a * b && (a * b) % b == 0);
}

/// Euclid's lemma: a prime dividing a product divides one of the factors.
/// Proven by strong induction on the smaller residue, with no appeal to
/// Bezout coefficients.
pub proof fn lemma_euclid(p: int, a: int, b: int)
    requires
        p >= 2,
        is_prime(p as nat),
        a >= 0,
        b >= 0,
        (a * b) % p == 0,
    ensures
        a % p == 0 || b % p == 0,
{
    lemma_mod_division_less_than_divisor(a, p);
    let ar = a % p;
    if ar != 0 {
        // a*b == (p*(a/p) + ar)*b, so p | ar*b.
        lemma_fundamental_div_mod(a, p);
        lemma_fundamental_div_mod(a * b, p);
        let k = (a * b) / p;
        assert(ar * b == p * (k - (a / p) * b)) by (nonlinear_arith)
            requires
                a == p * (a / p) + ar,
                a * b == p * k,
        ;
        lemma_fundamental_div_mod_converse_mod(ar * b, p, k - (a / p) * b, 0);
        assert(ar * b >= 0) by (nonlinear_arith)
            requires ar >= 0, b >= 0;
        lemma_euclid_small(p, ar, b);
    }
}

/// The inductive core of Euclid's lemma, for `0 < a < p`.
proof fn lemma_euclid_small(p: int, a: int, b: int)
    requires
        is_prime(p as nat),
        0 < a < p,
        b >= 0,
        (a * b) % p == 0,
    ensures
        b % p == 0,
    decreases a,
{
    if a == 1 {
        assert(1 * b == b);
    } else {
        // p == q*a + r with 0 < r < a, since a cannot divide the prime p.
        let q = p / a;
        let r = p % a;
        lemma_fundamental_div_mod(p, a);
        lemma_mod_division_less_than_divisor(p, a);
        assert(r != 0) by {
            if r == 0 {
                assert(p % a == 0);
                assert((p as nat) % (a as nat) == 0);
                assert(2 <= a < p);
            }
        }
        // r*b = p*b - q*(a*b) is a multiple of p.
        lemma_fundamental_div_mod(a * b, p);
        let k = (a * b) / p;
        assert(r * b == p * (b - q * k)) by (nonlinear_arith)
            requires
                p == a * q + r,
                a * b == p * k,
        ;
        lemma_fundamental_div_mod_converse_mod(r * b, p, b - q * k, 0);
        assert(r * b >= 0) by (nonlinear_arith)
            requires r >= 0, b >= 0;
        lemma_euclid_small(p, r, b);
    }
}

/// A prime at or below every prime factor of `i` is the least factor of
/// `p * i`.
pub proof fn lemma_least_factor_of_product(p: int, i: int)
    requires
        p >= 2,
        is_prime(p as nat),
        i >= 1,
        forall|q: int|
            2 <= q && is_prime(q as nat) && #[trigger] (i % q) == 0 ==> q >= p,
    ensures
        forall|d: int| 2 <= d < p ==> #[trigger] ((p * i) % d) != 0,
        (p * i) % p == 0,
        p * i >= 2,
{
    assert(p * i >= 2) by (nonlinear_arith)
        requires p >= 2, i >= 1;
    assert((p * i) % p == 0) by {
        assert(p * i == i * p) by (nonlinear_arith);
        lemma_fundamental_div_mod_converse_mod(p * i, p, i, 0);
    }
    assert forall|d: int| 2 <= d < p implies #[trigger] ((p * i) % d) != 0 by {
        if (p * i) % d == 0 {
            // d has a prime factor q < p which then divides p*i.
            crate::segmented_sieve::lemma_has_prime_factor(d as nat);
            let q = choose|q: nat|
                is_prime(q) && #[trigger] ((d as int) % (q as int)) == 0 && q <= d;
            crate::sieve_of_eratosthenes::lemma_divides_transitive(q as int, d, p * i);
            assert(p * i >= 1) by (nonlinear_arith)
                requires p >= 2, i >= 1;
            assert(q as int >= 2);
            lemma_euclid(q as int, p, i);
            if p % (q as int) == 0 {
                // q divides the prime p and is smaller: impossible.
                assert(2 <= q as int && (q as int) < p);
                assert((p as nat) % (q as nat) == 0);
            } else {
                assert(i % (q as int) == 0);
                assert(q as int >= p);
            }
        }
    }
}

/// Two strictly increasing sequences holding the same elements are equal.
pub proof fn lemma_sorted_same_elements_equal(a: Seq<usize>, b: Seq<usize>)
    requires
        forall|i: int, j: int| 0 <= i < j < a.len() ==> a[i] < a[j],
        forall|i: int, j: int| 0 <= i < j < b.len() ==> b[i] < b[j],
        forall|x: usize| a.contains(x) <==> b.contains(x),
    ensures
        a =~= b,
    decreases a.len(),
{
    if a.len() == 0 {
        if b.len() > 0 {
            assert(b.contains(b[0]));
            assert(a.contains(b[0]));
        }
    } else {
        assert(a.contains(a[0]));
        assert(b.contains(a[0]));
        if b.len() == 0 {
            assert(!b.contains(a[0]));
        }
        let ia = choose|i: int| 0 <= i < b.len() && b[i] == a[0];
        assert(b[0] <= a[0]);
        assert(b.contains(b[0]));
        assert(a.contains(b[0]));
        let ib = choose|i: int| 0 <= i < a.len() && a[i] == b[0];
        assert(a[0] <= b[0]);
        let at = a.drop_first();
        let bt = b.drop_first();
        assert forall|x: usize| at.contains(x) implies bt.contains(x) by {
            let i = choose|i: int| 0 <= i < at.len() && at[i] == x;
            assert(a[i + 1] == x);
            assert(a.contains(x));
            assert(b.contains(x));
            let j = choose|j: int| 0 <= j < b.len() && b[j] == x;
            assert(x > a[0]);
            assert(j > 0);
            assert(bt[j - 1] == x);
            assert(bt.contains(x));
        }
        assert forall|x: usize| bt.contains(x) implies at.contains(x) by {
            let i = choose|i: int| 0 <= i < bt.len() && bt[i] == x;
            assert(b[i + 1] == x);
            assert(b.contains(x));
            assert(a.contains(x));
            let j = choose|j: int| 0 <= j < a.len() && a[j] == x;
            assert(x > b[0]);
            assert(j > 0);
            assert(at[j - 1] == x);
            assert(at.contains(x));
        }
        lemma_sorted_same_elements_equal(at, bt);
        assert(a =~= b) by {
            assert(a.len() == b.len());
            assert(forall|i: int| 1 <= i < a.len() ==> a[i] == at[i - 1] && b[i] == bt[i - 1]);
        }
    }
}

/// Cross-strategy agreement: two sequences that both meet the shared sieve
/// contract for the same window are identical. Since the contract is also
/// insensitive to everything but the arguments, the same fact makes repeated
/// generation reproducible.
pub proof fn lemma_generators_agree(a: Seq<usize>, b: Seq<usize>, min: nat, max: nat)
    requires
        prime_seq(a, min, max),
        prime_seq(b, min, max),
    ensures
        a == b,
{
    assert forall|x: usize| a.contains(x) implies b.contains(x) by {
        let i = choose|i: int| 0 <= i < a.len() && a[i] == x;
        assert(is_prime(a[i] as nat));
    }
    assert forall|x: usize| b.contains(x) implies a.contains(x) by {
        let i = choose|i: int| 0 <= i < b.len() && b[i] == x;
        assert(is_prime(b[i] as nat));
    }
    lemma_sorted_same_elements_equal(a, b);
    assert(a =~= b);
}

} // verus!
