//! Binomial coefficients: the textbook (Pascal) definition as the
//! specification, and an executable computation by the standard
//! multiplicative formula `result = result * (n - i) / (i + 1)`.

use vstd::prelude::*;

verus! {

/// `C(n, k)` by Pascal's rule; `0` whenever `k > n`.
pub open spec fn spec_binomial(n: nat, k: nat) -> nat
    decreases n, k,
{
    if k == 0 {
        1
    } else if n == 0 {
        0
    } else {
        spec_binomial((n - 1) as nat, (k - 1) as nat) + spec_binomial((n - 1) as nat, k)
    }
}

/// Above the diagonal the coefficient vanishes.
pub proof fn lemma_binomial_zero(n: nat, k: nat)
    requires
        k > n,
    ensures
        spec_binomial(n, k) == 0,
    decreases n,
{
    if n > 0 {
        lemma_binomial_zero((n - 1) as nat, (k - 1) as nat);
        lemma_binomial_zero((n - 1) as nat, k);
    }
}

/// On and below the diagonal the coefficient is positive.
pub proof fn lemma_binomial_pos(n: nat, k: nat)
    requires
        k <= n,
    ensures
        spec_binomial(n, k) >= 1,
    decreases n,
{
    if k > 0 {
        lemma_binomial_pos((n - 1) as nat, (k - 1) as nat);
    }
}

/// `C(n, n) == 1`.
pub proof fn lemma_binomial_diag(n: nat)
    ensures
        spec_binomial(n, n) == 1,
    decreases n,
{
    if n > 0 {
        lemma_binomial_diag((n - 1) as nat);
        lemma_binomial_zero((n - 1) as nat, n);
    }
}

/// `C(n, 1) == n`.
pub proof fn lemma_binomial_one(n: nat)
    ensures
        spec_binomial(n, 1) == n,
    decreases n,
{
    if n > 0 {
        lemma_binomial_one((n - 1) as nat);
        assert(spec_binomial((n - 1) as nat, 0) == 1);
    }
}

/// `C(n, n - 1) == n`.
pub proof fn lemma_binomial_penult(n: nat)
    requires
        n >= 1,
    ensures
        spec_binomial(n, (n - 1) as nat) == n,
    decreases n,
{
    if n > 1 {
        lemma_binomial_penult((n - 1) as nat);
        lemma_binomial_diag((n - 1) as nat);
    }
}

/// The absorption identity `(i + 1) * C(n, i + 1) == (n - i) * C(n, i)`,
/// which justifies one step of the multiplicative formula.
pub proof fn lemma_binomial_absorb(n: nat, i: nat)
    requires
        i < n,
    ensures
        (i + 1) * spec_binomial(n, i + 1) == (n - i) * spec_binomial(n, i),
    decreases n,
{
    if i == 0 {
        lemma_binomial_one(n);
        assert(spec_binomial(n, 0) == 1);
        assert((i + 1) * spec_binomial(n, i + 1) == (n - i) * spec_binomial(n, i))
            by (nonlinear_arith)
            requires
                i == 0,
                spec_binomial(n, i + 1) == n,
                spec_binomial(n, i) == 1,
        ;
    } else if i == n - 1 {
        lemma_binomial_diag(n);
        lemma_binomial_penult(n);
        assert(spec_binomial(n, i + 1) == 1);
        assert(spec_binomial(n, i) == n);
        assert((i + 1) * spec_binomial(n, i + 1) == (n - i) * spec_binomial(n, i))
            by (nonlinear_arith)
            requires
                i == n - 1,
                n >= 1,
                spec_binomial(n, i + 1) == 1,
                spec_binomial(n, i) == n,
        ;
    } else {
        // 1 <= i <= n - 2, so both inductive instances are in range.
        let a = spec_binomial((n - 1) as nat, (i - 1) as nat);
        let b = spec_binomial((n - 1) as nat, i);
        let c = spec_binomial((n - 1) as nat, i + 1);
        lemma_binomial_absorb((n - 1) as nat, i);
        lemma_binomial_absorb((n - 1) as nat, (i - 1) as nat);
        assert(spec_binomial(n, i + 1) == b + c);
        assert(spec_binomial(n, i) == a + b);
        // (i + 1) * (b + c) == (i + 1) * b + (n - 1 - i) * b == n * b
        // (n - i) * (a + b) == i * b + (n - i) * b == n * b
        assert((i + 1) * spec_binomial(n, i + 1) == (n - i) * spec_binomial(n, i)) by (nonlinear_arith)
            requires
                spec_binomial(n, i + 1) == b + c,
                spec_binomial(n, i) == a + b,
                (i + 1) * c == ((n - 1) - i) * b,
                i * b == ((n - 1) - (i - 1)) * a,
                1 <= i,
                i <= n - 2,
        ;
    }
}

/// Symmetry: `C(n, k) == C(n, n - k)` for `k <= n`.
pub proof fn lemma_binomial_sym(n: nat, k: nat)
    requires
        k <= n,
    ensures
        spec_binomial(n, k) == spec_binomial(n, (n - k) as nat),
    decreases n,
{
    if k == 0 {
        lemma_binomial_diag(n);
    } else if k == n {
        lemma_binomial_diag(n);
    } else {
        lemma_binomial_sym((n - 1) as nat, (k - 1) as nat);
        lemma_binomial_sym((n - 1) as nat, k);
        assert(spec_binomial(n, (n - k) as nat) == spec_binomial((n - 1) as nat, (n - k - 1) as nat)
            + spec_binomial((n - 1) as nat, (n - k) as nat));
    }
}

/// On the rising half of a row the coefficients do not decrease.
pub proof fn lemma_binomial_rising(n: nat, i: nat)
    requires
        2 * (i + 1) <= n + 1,
        i < n,
    ensures
        spec_binomial(n, i) <= spec_binomial(n, i + 1),
{
    lemma_binomial_absorb(n, i);
    lemma_binomial_pos(n, i);
    // (i + 1) * C(n, i + 1) == (n - i) * C(n, i) >= (i + 1) * C(n, i)
    assert(spec_binomial(n, i) <= spec_binomial(n, i + 1)) by (nonlinear_arith)
        requires
            (i + 1) * spec_binomial(n, i + 1) == (n - i) * spec_binomial(n, i),
            n - i >= i + 1,
            spec_binomial(n, i) >= 1,
    ;
}

/// Every coefficient up the rising half is bounded by the one at the top.
pub proof fn lemma_binomial_rising_chain(n: nat, i: nat, j: nat)
    requires
        i <= j,
        2 * j <= n,
    ensures
        spec_binomial(n, i) <= spec_binomial(n, j),
    decreases j - i,
{
    if i < j {
        lemma_binomial_rising(n, i);
        lemma_binomial_rising_chain(n, i + 1, j);
    }
}

/// `C(n, k)` by the multiplicative formula, over `u64`.
///
/// Returns `Overflow` exactly when the coefficient does not fit in a `u64`;
/// intermediate products are carried in `u128`, so only the value itself
/// decides.
pub fn binomial(n: u64, k: u64) -> (r: Result<u64, crate::errors::SearchError>)
    ensures
        match r {
            Ok(c) => c == spec_binomial(n as nat, k as nat) && spec_binomial(n as nat, k as nat)
                <= u64::MAX,
            Err(e) => e == crate::errors::SearchError::Overflow && spec_binomial(
                n as nat,
                k as nat,
            ) > u64::MAX,
        },
{
    if k > n {
        proof {
            lemma_binomial_zero(n as nat, k as nat);
        }
        return Ok(0);
    }
    let kk: u64 = if k <= n - k {
        k
    } else {
        n - k
    };
    proof {
        lemma_binomial_sym(n as nat, k as nat);
    }
    let mut result: u64 = 1;
    let mut i: u64 = 0;
    while i < kk
        invariant
            i <= kk,
            2 * kk <= n,
            result == spec_binomial(n as nat, i as nat),
            spec_binomial(n as nat, kk as nat) == spec_binomial(n as nat, k as nat),
        decreases kk - i,
    {
        let nmi: u64 = n - i;
        proof {
            assert((result as int) * (nmi as int) < u128::MAX as int) by (nonlinear_arith)
                requires
                    result as int <= u64::MAX as int,
                    nmi as int <= u64::MAX as int,
            ;
        }
        let prod: u128 = (result as u128) * (nmi as u128);
        let ip1: u64 = i + 1;
        let quot: u128 = prod / (ip1 as u128);
        proof {
            lemma_binomial_absorb(n as nat, i as nat);
            assert(prod as int == ((i + 1) as int) * spec_binomial(n as nat, (i + 1) as nat))
                by (nonlinear_arith)
                requires
                    prod as int == (result as int) * (nmi as int),
                    result as int == spec_binomial(n as nat, i as nat),
                    nmi as int == n - i,
                    i < n,
                    (i + 1) * spec_binomial(n as nat, (i + 1) as nat) == (n - i) * spec_binomial(
                        n as nat,
                        i as nat,
                    ),
            ;
            assert(quot as int == spec_binomial(n as nat, (i + 1) as nat)) by (nonlinear_arith)
                requires
                    prod as int == ((i + 1) as int) * spec_binomial(n as nat, (i + 1) as nat),
                    quot as int == (prod as int) / ((ip1 as u128) as int),
                    ip1 as int == i + 1,
                    0 < i + 1,
            ;
        }
        if quot > u64::MAX as u128 {
            proof {
                lemma_binomial_rising_chain(n as nat, (i + 1) as nat, kk as nat);
            }
            return Err(crate::errors::SearchError::Overflow);
        }
        result = quot as u64;
        i = i + 1;
    }
    Ok(result)
}

} // verus!
