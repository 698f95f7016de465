//! The work partitioner: splits a combinatorial index range `[0, total)`
//! into contiguous, near-equal, half-open sub-ranges, one per worker, the
//! final worker absorbing the remainder.

use vstd::prelude::*;

use vstd::arithmetic::div_mod::lemma_fundamental_div_mod;

use crate::errors::SearchError;

verus! {

/// `v` is a contiguous cover of `[0, total)` by half-open ranges.
pub open spec fn is_partition(v: Seq<(u64, u64)>, total: u64) -> bool {
    v.len() >= 1 && v[0].0 == 0 && v[v.len() - 1].1 == total && (forall|i: int|
        0 <= i < v.len() - 1 ==> (#[trigger] v[i]).1 == v[i + 1].0) && (forall|i: int|
        0 <= i < v.len() ==> (#[trigger] v[i]).0 <= v[i].1)
}

/// Split `[0, total)` into `workers` contiguous ranges: each of size
/// `total / workers`, except the final one, which also takes the remainder.
///
/// Rejects a zero-size worker pool, and nothing else.
pub fn partition(total: u64, workers: usize) -> (res: Result<Vec<(u64, u64)>, SearchError>)
    ensures
        match res {
            Ok(v) => workers >= 1 && v@.len() == workers && is_partition(v@, total) && (forall|
                i: int,
            |
                0 <= i < workers - 1 ==> (#[trigger] v@[i]).1 - v@[i].0 == total as int
                    / workers as int) && v@[workers - 1].1 - v@[workers - 1].0 == total as int
                / workers as int + total as int % workers as int,
            Err(e) => e == SearchError::InvalidConfig && workers == 0,
        },
{
    if workers == 0 {
        return Err(SearchError::InvalidConfig);
    }
    let chunk: u64 = total / (workers as u64);
    proof {
        lemma_fundamental_div_mod(total as int, workers as int);
        assert(total as int / (workers as u64) as int == total as int / workers as int);
    }
    let mut v: Vec<(u64, u64)> = Vec::new();
    let mut start: u64 = 0;
    let mut i: usize = 0;
    while i < workers - 1
        invariant
            workers >= 1,
            i <= workers - 1,
            v@.len() == i,
            chunk as int == total as int / workers as int,
            start as int == i as int * chunk as int,
            start <= total,
            total as int == workers as int * chunk as int + total as int % workers as int,
            0 <= total as int % workers as int,
            forall|t: int|
                0 <= t < i ==> (#[trigger] v@[t]).0 == t * chunk as int && v@[t].1 == (t + 1)
                    * chunk as int,
        decreases workers - 1 - i,
    {
        proof {
            assert((i as int + 1) * chunk as int <= workers as int * chunk as int && (i as int + 1)
                * chunk as int == i as int * chunk as int + chunk as int) by (nonlinear_arith)
                requires
                    i as int + 1 <= workers as int,
                    chunk as int >= 0,
            ;
            assert(workers as int * chunk as int <= total as int);
        }
        let next: u64 = start + chunk;
        v.push((start, next));
        start = next;
        i = i + 1;
    }
    proof {
        assert((workers - 1) as int * chunk as int + chunk as int == workers as int
            * chunk as int) by (nonlinear_arith);
        assert(start as int <= total as int);
    }
    v.push((start, total));
    proof {
        assert(v@[workers - 1].0 == (workers - 1) as int * chunk as int);
        assert(v@[workers - 1].1 - v@[workers - 1].0 == total as int / workers as int + total as int
            % workers as int) by (nonlinear_arith)
            requires
                v@[workers - 1].1 == total,
                v@[workers - 1].0 == (workers - 1) as int * chunk as int,
                chunk as int == total as int / workers as int,
                total as int == workers as int * chunk as int + total as int % workers as int,
        ;
        assert forall|t: int| 0 <= t < workers - 1 implies (#[trigger] v@[t]).1 - v@[t].0
            == total as int / workers as int && v@[t].0 <= v@[t].1 by {
            assert((t + 1) * chunk as int - t * chunk as int == chunk as int && t * chunk as int
                <= (t + 1) * chunk as int) by (nonlinear_arith)
                requires
                    chunk as int >= 0,
            ;
        }
        assert(v@[0].0 == 0);
        assert forall|t: int| 0 <= t < workers - 1 implies (#[trigger] v@[t]).1 == v@[t + 1].0 by {
            if t + 1 < workers - 1 {
                assert(v@[t + 1].0 == (t + 1) * chunk as int);
            }
        }
    }
    Ok(v)
}

/// Within a contiguous cover, every earlier range ends no later than a later
/// one starts.
proof fn lemma_range_order(v: Seq<(u64, u64)>, total: u64, i: int, j: int)
    requires
        is_partition(v, total),
        0 <= i < j < v.len(),
    ensures
        v[i].1 <= v[j].0,
    decreases j - i,
{
    if j > i + 1 {
        lemma_range_order(v, total, i, j - 1);
    }
}

/// Every range of a partition ends at or before `total`.
pub proof fn lemma_range_end_bound(v: Seq<(u64, u64)>, total: u64, i: int)
    requires
        is_partition(v, total),
        0 <= i < v.len(),
    ensures
        v[i].1 <= total,
{
    if i < v.len() - 1 {
        lemma_range_order(v, total, i, v.len() - 1);
    }
}

/// Every index below `v[last].1` and at or above `v[first].0` falls in some
/// range.
proof fn lemma_cover_from(v: Seq<(u64, u64)>, total: u64, x: u64)
    requires
        is_partition(v, total),
        v[0].0 <= x < v[v.len() - 1].1,
    ensures
        exists|i: int| 0 <= i < v.len() && (#[trigger] v[i]).0 <= x < v[i].1,
    decreases v.len(),
{
    let last = v.len() - 1;
    if v[last].0 <= x {
        assert(v[last].0 <= x < v[last].1);
    } else {
        let w = v.drop_last();
        assert(is_partition(w, v[last - 1].1)) by {
            assert(forall|i: int| 0 <= i < w.len() ==> w[i] == v[i]);
        }
        lemma_cover_from(w, v[last - 1].1, x);
        let i = choose|i: int| 0 <= i < w.len() && (#[trigger] w[i]).0 <= x < w[i].1;
        assert(v[i].0 <= x < v[i].1);
    }
}

/// A partition covers `[0, total)` exactly: every index in it lies in one
/// and only one of the ranges.
pub proof fn lemma_partition_covers(v: Seq<(u64, u64)>, total: u64, x: u64)
    requires
        is_partition(v, total),
        x < total,
    ensures
        exists|i: int| 0 <= i < v.len() && (#[trigger] v[i]).0 <= x < v[i].1,
        forall|i: int, j: int|
            0 <= i < v.len() && 0 <= j < v.len() && (#[trigger] v[i]).0 <= x < v[i].1 && (
            #[trigger] v[j]).0 <= x < v[j].1 ==> i == j,
{
    lemma_cover_from(v, total, x);
    assert forall|i: int, j: int|
        0 <= i < v.len() && 0 <= j < v.len() && (#[trigger] v[i]).0 <= x < v[i].1 && (
        #[trigger] v[j]).0 <= x < v[j].1 implies i == j by {
        if i < j {
            lemma_range_order(v, total, i, j);
        }
        if j < i {
            lemma_range_order(v, total, j, i);
        }
    }
}

} // verus!
