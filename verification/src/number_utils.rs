//! Pascal's triangle, built row by row from the additive recurrence of the
//! binomial coefficients.

use vstd::prelude::*;

verus! {

/// The binomial coefficient, by Pascal's recurrence.
pub open spec fn binom(n: nat, k: nat) -> nat
    decreases n, k,
{
    if k == 0 {
        1
    } else if k > n {
        0
    } else {
        binom((n - 1) as nat, (k - 1) as nat) + binom((n - 1) as nat, k)
    }
}

/// Offset of row `i` inside the flattened triangle: `0 + 1 + ... + i`.
pub open spec fn tri_off(i: nat) -> nat
    decreases i,
{
    if i == 0 {
        0
    } else {
        tri_off((i - 1) as nat) + i
    }
}

/// Row ends are monotone in the row index.
pub proof fn lemma_tri_off_mono(a: nat, b: nat)
    requires
        a <= b,
    ensures
        tri_off(a) + a <= tri_off(b) + b,
    decreases b,
{
    if a < b {
        lemma_tri_off_mono(a, (b - 1) as nat);
        assert(tri_off(b) == tri_off((b - 1) as nat) + b);
    }
}


/// The first `rows` rows are correctly laid out in `s`.
pub open spec fn rows_ok(s: Seq<usize>, rows: int) -> bool {
    &&& tri_off((if rows >= 1 { rows - 1 } else { 0 }) as nat) + rows <= s.len()
    &&& forall|i2: nat, k2: nat|
        i2 < rows && k2 <= i2 ==> s[(tri_off(i2) + k2) as int] == #[trigger] binom(i2, k2)
}

/// The diagonal of the triangle is all ones.
pub proof fn lemma_binom_diag(n: nat)
    ensures
        binom(n, n) == 1,
    decreases n,
{
    if n > 0 {
        lemma_binom_diag((n - 1) as nat);
        assert(binom((n - 1) as nat, n) == 0);
        assert(binom(n, n) == binom((n - 1) as nat, (n - 1) as nat) + binom((n - 1) as nat, n));
    }
}

/// The first `n` rows of Pascal's triangle, flattened row by row: the entry
/// at `tri_off(i) + k` is the binomial coefficient of `i` over `k`. With a
/// zero row count, the apex row is still produced.
#[verifier::rlimit(60)]
#[verifier::loop_isolation(false)]
pub fn pascals_triangle(n: usize) -> (r: Vec<usize>)
    requires
        forall|i: nat, k: nat| i < n && k <= i ==> #[trigger] binom(i, k) <= usize::MAX,
    ensures
        n == 0 ==> r@.len() == 1 && r@[0] == 1,
        n >= 1 ==> r@.len() == tri_off((n - 1) as nat) + n,
        rows_ok(r@, n as int),
{
    let mut r: Vec<usize> = Vec::new();
    r.push(1);
    proof {
        assert(binom(0, 0) == 1);
        assert(rows_ok(r@, 1)) by {
            assert forall|i2: nat, k2: nat| i2 < 1 && k2 <= i2
                implies r@[(tri_off(i2) + k2) as int] == #[trigger] binom(i2, k2) by {
                assert(i2 == 0 && k2 == 0);
                assert(r@[0] == 1);
            }
        }
    }
    let mut i: usize = 1;
    let mut row_start: usize = 0;
    while i < n
        invariant
            1 <= i,
            n >= 1 ==> i <= n,
            n == 0 ==> i == 1,
            row_start as nat == tri_off((i - 1) as nat),
            r@.len() == tri_off((i - 1) as nat) + i,
            rows_ok(r@, i as int),
            forall|i2: nat, k: nat| i2 < n && k <= i2 ==> #[trigger] binom(i2, k) <= usize::MAX,
        decreases n - i,
    {
        let new_start: usize = r.len();
        proof {
            assert(new_start as nat == tri_off(i as nat)) by {
                assert(tri_off(i as nat) == tri_off((i - 1) as nat) + i);
            }
            assert(binom(i as nat, 0) == 1);
        }
        let ghost r0: Seq<usize> = r@;
        r.push(1);
        proof {
            assert(r@ == r0.push(1));
            assert forall|idx: int| 0 <= idx < r0.len() implies r@[idx] == r0[idx] by {
                assert(r@[idx] == r0.push(1)[idx]);
            }
            assert(rows_ok(r@, i as int)) by {
                assert forall|i2: nat, k2: nat| i2 < i as int && k2 <= i2
                    implies r@[(tri_off(i2) + k2) as int] == #[trigger] binom(i2, k2) by {
                    lemma_tri_off_mono(i2, (i - 1) as nat);
                    assert(tri_off(i2) + k2 < r0.len());
                    assert(r@[(tri_off(i2) + k2) as int] == r0[(tri_off(i2) + k2) as int]);
                }
            }
        }
        let mut k: usize = 1;
        while k < i
            invariant
                1 <= k <= i < n,
                row_start as nat == tri_off((i - 1) as nat),
                new_start as nat == tri_off(i as nat),
                new_start == row_start + i,
                r@.len() == tri_off(i as nat) + k,
                rows_ok(r@, i as int),
                forall|k2: nat|
                    k2 < k ==> tri_off(i as nat) + k2 < r@.len() && r@[(tri_off(i as nat)
                        + k2) as int] == #[trigger] binom(i as nat, k2),
                forall|i2: nat, k2: nat|
                    i2 < n && k2 <= i2 ==> #[trigger] binom(i2, k2) <= usize::MAX,
            decreases i - k,
        {
            proof {
                assert(r@[(row_start + k - 1) as int] == binom((i - 1) as nat, (k - 1) as nat));
                assert(r@[(row_start + k) as int] == binom((i - 1) as nat, k as nat));
                assert(binom(i as nat, k as nat) == binom((i - 1) as nat, (k - 1) as nat) + binom(
                    (i - 1) as nat, k as nat));
                assert(binom(i as nat, k as nat) <= usize::MAX);
            }
            let v: usize = r[row_start + k - 1] + r[row_start + k];
            let ghost r1: Seq<usize> = r@;
            r.push(v);
            k = k + 1;
            proof {
                assert(r@ == r1.push(v));
                assert forall|idx: int| 0 <= idx < r1.len() implies r@[idx] == r1[idx] by {
                    assert(r@[idx] == r1.push(v)[idx]);
                }
                assert(rows_ok(r@, i as int)) by {
                    assert forall|i2: nat, k2: nat| i2 < i && k2 <= i2
                        implies r@[(tri_off(i2) + k2) as int] == #[trigger] binom(i2, k2) by {
                        lemma_tri_off_mono(i2, (i - 1) as nat);
                        assert(tri_off(i2) + k2 < r1.len()) by {
                            assert(r1.len() >= tri_off(i as nat) + 1);
                            assert(tri_off(i as nat) == tri_off((i - 1) as nat) + i);
                        }
                        assert(r@[(tri_off(i2) + k2) as int] == r1[(tri_off(i2) + k2) as int]);
                    }
                }
                assert forall|k2: nat| k2 < k
                    implies tri_off(i as nat) + k2 < r@.len() && r@[(tri_off(i as nat)
                        + k2) as int] == #[trigger] binom(i as nat, k2) by {
                    if k2 < k - 1 {
                        assert(r@[(tri_off(i as nat) + k2) as int] == r1[(tri_off(i as nat)
                            + k2) as int]);
                    } else {
                        assert(r@[r@.len() - 1] == v);
                    }
                }
            }
        }
        proof {
            lemma_binom_diag(i as nat);
        }
        let ghost r2: Seq<usize> = r@;
        r.push(1);
        row_start = new_start;
        i = i + 1;
        proof {
            assert(r@ == r2.push(1));
            assert forall|idx: int| 0 <= idx < r2.len() implies r@[idx] == r2[idx] by {
                assert(r@[idx] == r2.push(1)[idx]);
            }
            assert(r@.len() == tri_off((i - 1) as nat) + i) by {
                assert(tri_off((i - 1) as nat) == tri_off((i - 2) as nat) + (i - 1));
            }
            assert(rows_ok(r@, i as int)) by {
            assert(tri_off((i - 1) as nat) + i <= r@.len());
            assert forall|i2: nat, k2: nat| i2 < i && k2 <= i2
                implies r@[(tri_off(i2) + k2) as int] == #[trigger] binom(i2, k2) by {
                lemma_tri_off_mono(i2, (i - 1) as nat);
                assert(tri_off(i2) + k2 <= tri_off((i - 1) as nat) + (i - 1));
                if i2 == (i - 1) as nat {
                    if k2 == i2 {
                        assert(r@[r@.len() - 1] == 1);
                        assert(tri_off(i2) + k2 == r@.len() - 1) by {
                            assert(tri_off(i2) == tri_off((i2 - 1) as nat) + i2 || i2 == 0);
                        }
                    } else {
                        lemma_tri_off_mono(i2, i2);
                        assert(tri_off(i2) + k2 < r2.len()) by {
                            assert(tri_off(i2) == tri_off((i2 - 1) as nat) + i2 || i2 == 0);
                        }
                        assert(r@[(tri_off(i2) + k2) as int] == r2[(tri_off(i2) + k2) as int]);
                    }
                } else {
                    lemma_tri_off_mono(i2, (i - 2) as nat);
                    assert(tri_off(i2) + k2 < r2.len()) by {
                        assert(tri_off((i - 1) as nat) == tri_off((i - 2) as nat) + (i - 1));
                    }
                    assert(r@[(tri_off(i2) + k2) as int] == r2[(tri_off(i2) + k2) as int]);
                }
            }
            }
        }
    }
    proof {
        if n == 0 {
            assert(rows_ok(r@, 0));
        }
    }
    r
}

} // verus!
