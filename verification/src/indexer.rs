//! The combinatorial indexer: maps a linear rank in `[0, C(n, k))` to the
//! corresponding ordered k-subset of `{0, .., n - 1}` (unranking in the
//! combinatorial number system) and back, without stepping through the
//! combination sequence.

use vstd::prelude::*;

use crate::binomial::{
    binomial, lemma_binomial_zero, spec_binomial,
};
use crate::errors::SearchError;

verus! {

/// The elements of `s` grow strictly from left to right.
pub open spec fn strictly_increasing(s: Seq<u64>) -> bool {
    forall|i: int, j: int| 0 <= i < j < s.len() ==> s[i] < s[j]
}

/// `s` is an ordered subset of the `m` consecutive values starting at `base`.
pub open spec fn is_combination_at(base: u64, m: nat, s: Seq<u64>) -> bool {
    strictly_increasing(s) && (forall|i: int|
        0 <= i < s.len() ==> base <= s[i] && (s[i] as int) < base + m)
}

/// `s` is an ordered subset of `{0, .., n - 1}`.
pub open spec fn is_combination(n: u64, s: Seq<u64>) -> bool {
    is_combination_at(0, n as nat, s)
}

/// The k-subset of the `m` consecutive values starting at `base` that has
/// lexicographic rank `r`.
pub open spec fn spec_unrank_at(base: u64, m: nat, k: nat, r: nat) -> Seq<u64>
    decreases m,
{
    if k == 0 || m == 0 {
        Seq::empty()
    } else if r < spec_binomial((m - 1) as nat, (k - 1) as nat) {
        seq![base] + spec_unrank_at((base + 1) as u64, (m - 1) as nat, (k - 1) as nat, r)
    } else {
        spec_unrank_at(
            (base + 1) as u64,
            (m - 1) as nat,
            k,
            (r - spec_binomial((m - 1) as nat, (k - 1) as nat)) as nat,
        )
    }
}

/// The lexicographic rank of an ordered subset `s` of the `m` consecutive
/// values starting at `base`.
pub open spec fn spec_rank_at(base: u64, m: nat, s: Seq<u64>) -> nat
    decreases m,
{
    if s.len() == 0 || m == 0 {
        0
    } else if s[0] == base {
        spec_rank_at((base + 1) as u64, (m - 1) as nat, s.drop_first())
    } else {
        spec_binomial((m - 1) as nat, (s.len() - 1) as nat) + spec_rank_at(
            (base + 1) as u64,
            (m - 1) as nat,
            s,
        )
    }
}

/// The k-subset of `{0, .., n - 1}` with lexicographic rank `r`.
pub open spec fn spec_unrank(n: u64, k: nat, r: nat) -> Seq<u64> {
    spec_unrank_at(0, n as nat, k, r)
}

/// The lexicographic rank of an ordered subset of `{0, .., n - 1}`.
pub open spec fn spec_rank(n: u64, s: Seq<u64>) -> nat {
    spec_rank_at(0, n as nat, s)
}

/// In a strictly increasing sequence, positions grow at least as fast as
/// indices.
proof fn lemma_increasing_gap(s: Seq<u64>, i: int, j: int)
    requires
        strictly_increasing(s),
        0 <= i <= j < s.len(),
    ensures
        s[j] as int >= s[i] as int + (j - i),
    decreases j - i,
{
    if j > i {
        lemma_increasing_gap(s, i, j - 1);
    }
}

/// An ordered subset of `m` consecutive values has at most `m` elements.
pub proof fn lemma_combination_len(base: u64, m: nat, s: Seq<u64>)
    requires
        is_combination_at(base, m, s),
    ensures
        s.len() <= m,
{
    if s.len() > 0 {
        lemma_increasing_gap(s, 0, s.len() - 1);
    }
}

/// Unranking a valid rank yields a valid k-subset, and ranking it gives the
/// rank back.
pub proof fn lemma_rank_of_unrank(base: u64, m: nat, k: nat, r: nat)
    requires
        k <= m,
        r < spec_binomial(m, k),
        base as int + m <= u64::MAX as int + 1,
    ensures
        is_combination_at(base, m, spec_unrank_at(base, m, k, r)),
        spec_unrank_at(base, m, k, r).len() == k,
        spec_rank_at(base, m, spec_unrank_at(base, m, k, r)) == r,
    decreases m,
{
    let s = spec_unrank_at(base, m, k, r);
    if k == 0 {
        assert(s =~= Seq::<u64>::empty());
    } else {
        let c = spec_binomial((m - 1) as nat, (k - 1) as nat);
        if r < c {
            let nb = (base + 1) as u64;
            let rest = spec_unrank_at(nb, (m - 1) as nat, (k - 1) as nat, r);
            lemma_rank_of_unrank(nb, (m - 1) as nat, (k - 1) as nat, r);
            assert(s == seq![base] + rest);
            assert(s[0] == base);
            assert(forall|i: int| 1 <= i < s.len() ==> s[i] == rest[i - 1]);
            assert(strictly_increasing(s)) by {
                assert forall|i: int, j: int| 0 <= i < j < s.len() implies s[i] < s[j] by {
                    if i > 0 {
                        assert(rest[i - 1] < rest[j - 1]);
                    }
                }
            }
            assert(s.drop_first() =~= rest);
        } else {
            if k > m - 1 {
                lemma_binomial_zero((m - 1) as nat, k);
            }
            let nb = (base + 1) as u64;
            let rr = (r - c) as nat;
            lemma_rank_of_unrank(nb, (m - 1) as nat, k, rr);
            assert(s == spec_unrank_at(nb, (m - 1) as nat, k, rr));
            assert(s.len() == k > 0);
            assert(s[0] != base);
            assert(spec_rank_at(base, m, s) == c + rr);
        }
    }
}

/// Ranking a valid k-subset yields a rank inside `[0, C(m, k))`, and
/// unranking it gives the subset back.
pub proof fn lemma_unrank_of_rank(base: u64, m: nat, s: Seq<u64>)
    requires
        is_combination_at(base, m, s),
        base as int + m <= u64::MAX as int + 1,
    ensures
        spec_rank_at(base, m, s) < spec_binomial(m, s.len()),
        spec_unrank_at(base, m, s.len(), spec_rank_at(base, m, s)) == s,
    decreases m,
{
    let k = s.len();
    lemma_combination_len(base, m, s);
    if k == 0 {
        assert(spec_unrank_at(base, m, 0, 0) =~= s);
    } else {
        let c = spec_binomial((m - 1) as nat, (k - 1) as nat);
        let nb = (base + 1) as u64;
        if s[0] == base {
            let t = s.drop_first();
            assert(is_combination_at(nb, (m - 1) as nat, t)) by {
                assert(forall|i: int| 0 <= i < t.len() ==> t[i] == s[i + 1]);
                assert forall|i: int| 0 <= i < t.len() implies nb <= t[i] && (t[i] as int) < nb
                    as int + (m - 1) by {
                    assert(s[0] < s[i + 1]);
                }
            }
            lemma_unrank_of_rank(nb, (m - 1) as nat, t);
            let r = spec_rank_at(base, m, s);
            assert(r == spec_rank_at(nb, (m - 1) as nat, t));
            assert(r < c);
            assert(spec_unrank_at(base, m, k, r) == seq![base] + spec_unrank_at(
                nb,
                (m - 1) as nat,
                (k - 1) as nat,
                r,
            ));
            assert(seq![base] + t =~= s);
        } else {
            assert(is_combination_at(nb, (m - 1) as nat, s)) by {
                assert forall|i: int| 0 <= i < s.len() implies nb <= s[i] && (s[i] as int) < nb
                    as int + (m - 1) by {
                    if i > 0 {
                        assert(s[0] < s[i]);
                    }
                }
            }
            lemma_unrank_of_rank(nb, (m - 1) as nat, s);
            let rr = spec_rank_at(nb, (m - 1) as nat, s);
            assert(spec_rank_at(base, m, s) == c + rr);
            assert((c + rr - c) as nat == rr);
        }
    }
}

/// `rank` undoes `unrank`: every valid rank names one valid k-subset, and
/// ranking that subset restores the rank.
pub proof fn lemma_unrank_then_rank(n: u64, k: nat, r: nat)
    requires
        r < spec_binomial(n as nat, k),
    ensures
        is_combination(n, spec_unrank(n, k, r)),
        spec_unrank(n, k, r).len() == k,
        spec_rank(n, spec_unrank(n, k, r)) == r,
{
    if k > n as nat {
        lemma_binomial_zero(n as nat, k);
    }
    lemma_rank_of_unrank(0, n as nat, k, r);
}

/// `unrank` undoes `rank`: every ordered subset of the universe is restored
/// from its own rank.
pub proof fn lemma_rank_then_unrank(n: u64, s: Seq<u64>)
    requires
        is_combination(n, s),
    ensures
        spec_rank(n, s) < spec_binomial(n as nat, s.len()),
        spec_unrank(n, s.len(), spec_rank(n, s)) == s,
{
    lemma_unrank_of_rank(0, n as nat, s);
}

/// Enumerating `unrank(n, k, r)` over all valid ranks yields each ordered
/// k-subset of the universe exactly once: distinct ranks give distinct
/// subsets, and every subset is reached.
pub proof fn lemma_unrank_bijective(n: u64, k: nat)
    ensures
        forall|r: nat|
            r < spec_binomial(n as nat, k) ==> is_combination(n, #[trigger] spec_unrank(n, k, r))
                && spec_unrank(n, k, r).len() == k,
        forall|r1: nat, r2: nat|
            r1 < spec_binomial(n as nat, k) && r2 < spec_binomial(n as nat, k) && spec_unrank(
                n,
                k,
                r1,
            ) == spec_unrank(n, k, r2) ==> r1 == r2,
        forall|s: Seq<u64>|
            is_combination(n, s) && s.len() == k ==> exists|r: nat|
                r < spec_binomial(n as nat, k) && #[trigger] spec_unrank(n, k, r) == s,
{
    assert forall|r: nat| r < spec_binomial(n as nat, k) implies is_combination(
        n,
        #[trigger] spec_unrank(n, k, r),
    ) && spec_unrank(n, k, r).len() == k by {
        lemma_unrank_then_rank(n, k, r);
    }
    assert forall|r1: nat, r2: nat|
        r1 < spec_binomial(n as nat, k) && r2 < spec_binomial(n as nat, k) && spec_unrank(
            n,
            k,
            r1,
        ) == spec_unrank(n, k, r2) implies r1 == r2 by {
        lemma_unrank_then_rank(n, k, r1);
        lemma_unrank_then_rank(n, k, r2);
    }
    assert forall|s: Seq<u64>| is_combination(n, s) && s.len() == k implies exists|r: nat|
        r < spec_binomial(n as nat, k) && #[trigger] spec_unrank(n, k, r) == s by {
        lemma_rank_then_unrank(n, s);
        let r0 = spec_rank(n, s);
        assert(r0 < spec_binomial(n as nat, k) && spec_unrank(n, k, r0) == s);
    }
}

/// Unrank `r` into the k-subset of `{0, .., n - 1}` at lexicographic rank
/// `r`, directly, without enumerating earlier combinations.
///
/// Succeeds exactly when `C(n, k)` is representable and `r` lies below it.
pub fn unrank(n: u64, k: u64, r: u64) -> (res: Result<Vec<u64>, SearchError>)
    ensures
        match res {
            Ok(s) => spec_binomial(n as nat, k as nat) <= u64::MAX && (r as nat) < spec_binomial(
                n as nat,
                k as nat,
            ) && s@ == spec_unrank(n, k as nat, r as nat) && is_combination(n, s@) && s@.len()
                == k,
            Err(e) => (e == SearchError::OutOfRange && spec_binomial(n as nat, k as nat)
                <= u64::MAX && (r as nat) >= spec_binomial(n as nat, k as nat)) || (e
                == SearchError::Overflow && spec_binomial(n as nat, k as nat) > u64::MAX),
        },
{
    let total = match binomial(n, k) {
        Ok(t) => t,
        Err(e) => {
            return Err(e);
        },
    };
    if r >= total {
        return Err(SearchError::OutOfRange);
    }
    proof {
        lemma_unrank_then_rank(n, k as nat, r as nat);
        if k > n {
            lemma_binomial_zero(n as nat, k as nat);
        }
    }
    let ghost target = spec_unrank(n, k as nat, r as nat);
    let mut out: Vec<u64> = Vec::new();
    let mut base: u64 = 0;
    let mut m: u64 = n;
    let mut kk: u64 = k;
    let mut rr: u64 = r;
    proof {
        assert(out@ + spec_unrank_at(base, m as nat, kk as nat, rr as nat) =~= target);
    }
    while kk > 0
        invariant
            kk <= m,
            base as int + m as int == n as int,
            spec_binomial(m as nat, kk as nat) <= u64::MAX,
            (rr as nat) < spec_binomial(m as nat, kk as nat),
            out@ + spec_unrank_at(base, m as nat, kk as nat, rr as nat) == target,
        decreases m,
    {
        let c = match binomial(m - 1, kk - 1) {
            Ok(c) => c,
            Err(e) => {
                proof {
                    assert(spec_binomial(m as nat, kk as nat) == spec_binomial(
                        (m - 1) as nat,
                        (kk - 1) as nat,
                    ) + spec_binomial((m - 1) as nat, kk as nat));
                    assert(false);
                }
                return Err(e);
            },
        };
        let ghost before = spec_unrank_at(base, m as nat, kk as nat, rr as nat);
        if rr < c {
            let ghost rest = spec_unrank_at(
                (base + 1) as u64,
                (m - 1) as nat,
                (kk - 1) as nat,
                rr as nat,
            );
            proof {
                assert(before == seq![base] + rest);
                assert(out@.push(base) + rest =~= out@ + before);
            }
            out.push(base);
            kk = kk - 1;
        } else {
            proof {
                if kk > m - 1 {
                    lemma_binomial_zero((m - 1) as nat, kk as nat);
                }
                assert(before == spec_unrank_at(
                    (base + 1) as u64,
                    (m - 1) as nat,
                    kk as nat,
                    (rr - c) as nat,
                ));
            }
            rr = rr - c;
        }
        base = base + 1;
        m = m - 1;
    }
    proof {
        assert(spec_unrank_at(base, m as nat, 0, rr as nat) =~= Seq::<u64>::empty());
        assert(out@ + Seq::<u64>::empty() =~= out@);
    }
    Ok(out)
}

/// Rank an ordered subset of `{0, .., n - 1}`: the inverse of `unrank`.
///
/// Rejects a sequence that is not such a subset with `OutOfRange`, and a
/// universe whose combination count is unrepresentable with `Overflow`.
pub fn rank(n: u64, s: &Vec<u64>) -> (res: Result<u64, SearchError>)
    ensures
        match res {
            Ok(rr) => is_combination(n, s@) && spec_binomial(n as nat, s@.len()) <= u64::MAX && rr
                == spec_rank(n, s@) && (rr as nat) < spec_binomial(n as nat, s@.len()),
            Err(e) => (e == SearchError::OutOfRange && !is_combination(n, s@)) || (e
                == SearchError::Overflow && is_combination(n, s@) && spec_binomial(
                n as nat,
                s@.len(),
            ) > u64::MAX),
        },
{
    let len = s.len();
    let mut idx: usize = 0;
    while idx < len
        invariant
            idx <= len,
            len == s@.len(),
            forall|t: int| 0 <= t < idx ==> (#[trigger] s@[t] as int) < n as int,
            forall|t: int| 0 <= t < idx && t + 1 < len ==> s@[t] < #[trigger] s@[t + 1],
        decreases len - idx,
    {
        if s[idx] >= n {
            assert(!is_combination(n, s@));
            return Err(SearchError::OutOfRange);
        }
        if idx + 1 < len && s[idx] >= s[idx + 1] {
            assert(!is_combination(n, s@));
            return Err(SearchError::OutOfRange);
        }
        idx = idx + 1;
    }
    proof {
        assert forall|i: int, j: int| 0 <= i < j < s@.len() implies s@[i] < s@[j] by {
            lemma_increasing_adjacent(s@, i, j);
        }
        assert(is_combination(n, s@));
        lemma_rank_then_unrank(n, s@);
        lemma_combination_len(0, n as nat, s@);
    }
    let klen: u64 = len as u64;
    match binomial(n, klen) {
        Ok(_) => (),
        Err(e) => {
            return Err(e);
        },
    }
    let ghost total_rank = spec_rank(n, s@);
    let mut acc: u64 = 0;
    let mut base: u64 = 0;
    let mut m: u64 = n;
    let mut j: usize = 0;
    proof {
        assert(s@.skip(0) =~= s@);
    }
    while j < len
        invariant
            j <= len,
            len == s@.len(),
            base as int + m as int == n as int,
            is_combination_at(base, m as nat, s@.skip(j as int)),
            acc as int + spec_rank_at(base, m as nat, s@.skip(j as int)) == total_rank,
            total_rank < spec_binomial(n as nat, s@.len()),
            spec_binomial(n as nat, s@.len()) <= u64::MAX,
        decreases m,
    {
        let ghost rest = s@.skip(j as int);
        proof {
            lemma_combination_len(base, m as nat, rest);
            assert(rest.len() == len - j >= 1);
        }
        let e = s[j];
        assert(e == rest[0]);
        if e == base {
            proof {
                assert(rest.drop_first() =~= s@.skip(j as int + 1));
            }
            j = j + 1;
        } else {
            let c = match binomial(m - 1, (len - j - 1) as u64) {
                Ok(c) => c,
                Err(e2) => {
                    proof {
                        assert(spec_rank_at(base, m as nat, rest) >= spec_binomial(
                            (m - 1) as nat,
                            (rest.len() - 1) as nat,
                        ));
                        assert(false);
                    }
                    return Err(e2);
                },
            };
            acc = acc + c;
        }
        base = base + 1;
        m = m - 1;
    }
    proof {
        assert(s@.skip(len as int) =~= Seq::<u64>::empty());
    }
    Ok(acc)
}

/// Pairwise growth follows from growth at each adjacent pair.
proof fn lemma_increasing_adjacent(s: Seq<u64>, i: int, j: int)
    requires
        forall|t: int| 0 <= t < s.len() && t + 1 < s.len() ==> s[t] < #[trigger] s[t + 1],
        0 <= i < j < s.len(),
    ensures
        s[i] < s[j],
    decreases j - i,
{
    if j > i + 1 {
        lemma_increasing_adjacent(s, i, j - 1);
        assert(s[j - 1] < s[j - 1 + 1]);
    } else {
        assert(s[i] < s[i + 1]);
    }
}

} // verus!
