//! The round executor: evaluates every k-expansion of a seed over a
//! remaining universe, through an injected scoring function, collecting the
//! K best candidates. The index space is split by the work partitioner and
//! each sub-range is evaluated by an independent call of `evaluate_range`,
//! whose results merge into one collector — in any order, with one outcome.

use vstd::prelude::*;

use crate::binomial::{binomial, spec_binomial};
use crate::errors::SearchError;
use crate::indexer::{
    lemma_unrank_then_rank, spec_unrank, strictly_increasing, unrank,
};
use crate::partition::{is_partition, partition};
use crate::seqs::{
    copy_values, merge_exec, merge_sorted, lemma_merge_sorted_props, select, select_exec,
    seq_disjoint,
};
use crate::topk::{Entry, EntryView, TopK};

verus! {

/// The scorer accepts every candidate handed to it.
pub open spec fn total_scorer<F: Fn(Vec<u64>) -> Option<i64>>(f: F) -> bool {
    forall|c: Vec<u64>| #[trigger] call_requires(f, (c,))
}

/// The scorer is a pure function of the candidate's contents: any two calls
/// on equal contents return equal results.
pub open spec fn deterministic_scorer<F: Fn(Vec<u64>) -> Option<i64>>(f: F) -> bool {
    forall|c1: Vec<u64>, c2: Vec<u64>, v1: Option<i64>, v2: Option<i64>|
        c1@ == c2@ && #[trigger] call_ensures(f, (c1,), v1) && #[trigger] call_ensures(
            f,
            (c2,),
            v2,
        ) ==> v1 == v2
}

/// The scorer can return `v` on a candidate with contents `c`.
pub open spec fn scores_to<F: Fn(Vec<u64>) -> Option<i64>>(f: F, c: Seq<u64>, v: Option<i64>) -> bool {
    exists|cv: Vec<u64>| cv@ == c && #[trigger] call_ensures(f, (cv,), v)
}

/// The scorer accepts the candidate with contents `c` with some fitness.
pub open spec fn scored_some<F: Fn(Vec<u64>) -> Option<i64>>(f: F, c: Seq<u64>) -> bool {
    exists|v: i64| scores_to(f, c, Some(v))
}

/// The candidate at rank `r`: the seed joined, in order, with the `r`-th
/// k-subset of the remaining universe.
pub open spec fn cand_at(seed: Seq<u64>, universe: Seq<u64>, k: u64, r: nat) -> Seq<u64> {
    merge_sorted(seed, select(universe, spec_unrank(universe.len() as u64, k as nat, r)))
}

/// The views a scorer `f` assigns to the candidates of ranks `[lo, hi)`.
pub open spec fn eval_set<F: Fn(Vec<u64>) -> Option<i64>>(
    f: F,
    seed: Seq<u64>,
    universe: Seq<u64>,
    k: u64,
    lo: nat,
    hi: nat,
) -> Set<EntryView> {
    Set::new(
        |ev: EntryView|
            exists|r: nat|
                lo <= r < hi && ev.1 == cand_at(seed, universe, k, r) && scores_to(
                    f,
                    ev.1,
                    Some(ev.0),
                ),
    )
}

/// The views a scorer assigns over the whole combination space of one seed.
pub open spec fn full_set<F: Fn(Vec<u64>) -> Option<i64>>(
    f: F,
    seed: Seq<u64>,
    universe: Seq<u64>,
    k: u64,
) -> Set<EntryView> {
    eval_set(f, seed, universe, k, 0, spec_binomial(universe.len(), k as nat))
}

/// A deterministic scorer gives each candidate contents one result.
pub proof fn lemma_scores_functional<F: Fn(Vec<u64>) -> Option<i64>>(
    f: F,
    c: Seq<u64>,
    v1: Option<i64>,
    v2: Option<i64>,
)
    requires
        deterministic_scorer(f),
        scores_to(f, c, v1),
        scores_to(f, c, v2),
    ensures
        v1 == v2,
{
    let cv1 = choose|cv: Vec<u64>| cv@ == c && #[trigger] call_ensures(f, (cv,), v1);
    let cv2 = choose|cv: Vec<u64>| cv@ == c && #[trigger] call_ensures(f, (cv,), v2);
    assert(cv1@ == cv2@);
}

/// Candidates of valid ranks are ordered sequences of `|seed| + k` values.
pub proof fn lemma_candidate_valid(seed: Seq<u64>, universe: Seq<u64>, k: u64, r: nat)
    requires
        strictly_increasing(seed),
        strictly_increasing(universe),
        seq_disjoint(seed, universe),
        universe.len() <= u64::MAX,
        r < spec_binomial(universe.len(), k as nat),
    ensures
        strictly_increasing(cand_at(seed, universe, k, r)),
        cand_at(seed, universe, k, r).len() == seed.len() + k,
{
    let n = universe.len() as u64;
    lemma_unrank_then_rank(n, k as nat, r);
    let combo = spec_unrank(n, k as nat, r);
    let picked = select(universe, combo);
    assert(picked.len() == k);
    assert(forall|i: int| 0 <= i < picked.len() ==> picked[i] == universe[combo[i] as int]);
    assert(strictly_increasing(picked)) by {
        assert forall|i: int, j: int| 0 <= i < j < picked.len() implies picked[i] < picked[j] by {
            assert(combo[i] < combo[j]);
            assert(universe[combo[i] as int] < universe[combo[j] as int]);
        }
    }
    assert forall|x: u64| picked.contains(x) implies universe.contains(x) by {
        let i = choose|i: int| 0 <= i < picked.len() && picked[i] == x;
        assert(universe[combo[i] as int] == x);
    }
    assert(seq_disjoint(seed, picked));
    lemma_merge_sorted_props(seed, picked);
}

/// Extending the evaluated range by one rank extends the view set by that
/// rank's entry.
proof fn lemma_eval_set_extend<F: Fn(Vec<u64>) -> Option<i64>>(
    f: F,
    seed: Seq<u64>,
    universe: Seq<u64>,
    k: u64,
    lo: nat,
    r: nat,
    fit: i64,
)
    requires
        deterministic_scorer(f),
        lo <= r,
        scores_to(f, cand_at(seed, universe, k, r), Some(fit)),
    ensures
        eval_set(f, seed, universe, k, lo, r + 1) == eval_set(f, seed, universe, k, lo, r).insert(
            (fit, cand_at(seed, universe, k, r)),
        ),
{
    let c = cand_at(seed, universe, k, r);
    let small = eval_set(f, seed, universe, k, lo, r);
    let big = eval_set(f, seed, universe, k, lo, r + 1);
    assert forall|ev: EntryView| big.contains(ev) implies small.insert((fit, c)).contains(ev) by {
        let t = choose|t: nat|
            lo <= t < r + 1 && ev.1 == cand_at(seed, universe, k, t) && scores_to(
                f,
                ev.1,
                Some(ev.0),
            );
        if t == r {
            lemma_scores_functional(f, c, Some(ev.0), Some(fit));
        }
    }
    assert forall|ev: EntryView| small.insert((fit, c)).contains(ev) implies big.contains(ev) by {
        if ev == (fit, c) {
            assert(lo <= r < r + 1 && ev.1 == cand_at(seed, universe, k, r) && scores_to(
                f,
                ev.1,
                Some(ev.0),
            ));
        } else {
            let t = choose|t: nat|
                lo <= t < r && ev.1 == cand_at(seed, universe, k, t) && scores_to(
                    f,
                    ev.1,
                    Some(ev.0),
                );
            assert(lo <= t < r + 1 && ev.1 == cand_at(seed, universe, k, t));
        }
    }
    assert(big =~= small.insert((fit, c)));
}

/// Contiguous evaluated ranges union into one evaluated range.
proof fn lemma_eval_set_union<F: Fn(Vec<u64>) -> Option<i64>>(
    f: F,
    seed: Seq<u64>,
    universe: Seq<u64>,
    k: u64,
    lo: nat,
    mid: nat,
    hi: nat,
)
    requires
        lo <= mid <= hi,
    ensures
        eval_set(f, seed, universe, k, lo, hi) == eval_set(f, seed, universe, k, lo, mid).union(
            eval_set(f, seed, universe, k, mid, hi),
        ),
{
    let a = eval_set(f, seed, universe, k, lo, mid);
    let b = eval_set(f, seed, universe, k, mid, hi);
    let w = eval_set(f, seed, universe, k, lo, hi);
    assert forall|ev: EntryView| w.contains(ev) implies a.union(b).contains(ev) by {
        let t = choose|t: nat|
            lo <= t < hi && ev.1 == cand_at(seed, universe, k, t) && scores_to(
                f,
                ev.1,
                Some(ev.0),
            );
        if t < mid {
            assert(a.contains(ev));
        } else {
            assert(b.contains(ev));
        }
    }
    assert(w =~= a.union(b));
}

/// Two successful runs over one seed, universe, expansion, scorer and
/// capacity hold the same entries, whatever their worker counts and
/// whatever order their workers finished in: the evaluated record is the
/// whole combination space either way, and the best `k` of one record is
/// unique.
pub proof fn lemma_run_deterministic<F: Fn(Vec<u64>) -> Option<i64>>(
    f: F,
    seed: Seq<u64>,
    universe: Seq<u64>,
    k: u64,
    a: TopK,
    b: TopK,
)
    requires
        a.wf(),
        b.wf(),
        a.capacity == b.capacity,
        a.offered@ == full_set(f, seed, universe, k),
        b.offered@ == full_set(f, seed, universe, k),
    ensures
        a.held() == b.held(),
{
    crate::topk::lemma_collectors_agree(a, b);
}

/// Evaluate the candidates of ranks `[lo, hi)` against the scorer, keeping
/// the best `capacity` of them in a fresh collector.
///
/// This is the work of one worker: independent calls over disjoint ranges
/// share nothing and may run in any order, and `TopK::merge` combines their
/// results into the same outcome as one sequential pass.
pub fn evaluate_range<F: Fn(Vec<u64>) -> Option<i64> + Copy>(
    seed: &Vec<u64>,
    universe: &Vec<u64>,
    k: u64,
    scorer: F,
    lo: u64,
    hi: u64,
    capacity: usize,
) -> (res: Result<TopK, SearchError>)
    requires
        total_scorer(scorer),
        deterministic_scorer(scorer),
        spec_binomial(universe@.len(), k as nat) <= u64::MAX,
        lo <= hi,
        hi as nat <= spec_binomial(universe@.len(), k as nat),
    ensures
        match res {
            Ok(tk) => tk.wf() && tk.capacity == capacity && tk.offered@ == eval_set(
                scorer,
                seed@,
                universe@,
                k,
                lo as nat,
                hi as nat,
            ) && (forall|r: nat|
                lo <= r < hi ==> scored_some(scorer, #[trigger] cand_at(seed@, universe@, k, r))),
            Err(e) => e == SearchError::ScorerFailure && (exists|r: nat|
                lo <= r < hi && scores_to(
                    scorer,
                    #[trigger] cand_at(seed@, universe@, k, r),
                    None,
                )),
        },
{
    let n: u64 = universe.len() as u64;
    let mut tk = TopK::new(capacity);
    let mut r: u64 = lo;
    proof {
        assert(tk.offered@ =~= eval_set(scorer, seed@, universe@, k, lo as nat, lo as nat));
    }
    while r < hi
        invariant
            total_scorer(scorer),
            deterministic_scorer(scorer),
            spec_binomial(universe@.len(), k as nat) <= u64::MAX,
            n == universe@.len(),
            lo <= r <= hi,
            hi as nat <= spec_binomial(universe@.len(), k as nat),
            tk.wf(),
            tk.capacity == capacity,
            tk.offered@ == eval_set(scorer, seed@, universe@, k, lo as nat, r as nat),
            forall|t: nat|
                lo <= t < r ==> scored_some(scorer, #[trigger] cand_at(seed@, universe@, k, t)),
        decreases hi - r,
    {
        let combo = match unrank(n, k, r) {
            Ok(c) => c,
            Err(_) => {
                proof {
                    assert(false);
                }
                return Err(SearchError::ScorerFailure);
            },
        };
        let picked = select_exec(universe, &combo);
        let cand = merge_exec(seed, &picked);
        proof {
            assert(cand@ == cand_at(seed@, universe@, k, r as nat));
        }
        let arg = copy_values(&cand);
        let verdict = scorer(arg);
        match verdict {
            Some(fit) => {
                proof {
                    assert(scores_to(scorer, cand@, Some(fit)));
                    lemma_eval_set_extend(
                        scorer,
                        seed@,
                        universe@,
                        k,
                        lo as nat,
                        r as nat,
                        fit,
                    );
                }
                tk.offer(Entry { fitness: fit, candidate: cand });
            },
            None => {
                proof {
                    assert(scores_to(scorer, cand@, None));
                }
                return Err(SearchError::ScorerFailure);
            },
        }
        r = r + 1;
    }
    Ok(tk)
}

/// Run one seed's expansion round: count the space, partition it across
/// `workers` ranges, evaluate each range into its own collector, and merge
/// the collectors into one.
///
/// Succeeds with the top `capacity` entries of the whole space whenever the
/// configuration is usable, the count representable, and the scorer accepts
/// every candidate; any worker failure aborts the whole call with no
/// partial result.
pub fn run<F: Fn(Vec<u64>) -> Option<i64> + Copy>(
    seed: &Vec<u64>,
    universe: &Vec<u64>,
    k: u64,
    scorer: F,
    workers: usize,
    capacity: usize,
) -> (res: Result<TopK, SearchError>)
    requires
        total_scorer(scorer),
        deterministic_scorer(scorer),
    ensures
        match res {
            Ok(tk) => workers >= 1 && k as nat <= universe@.len() && spec_binomial(
                universe@.len(),
                k as nat,
            ) <= u64::MAX && tk.wf() && tk.capacity == capacity && tk.offered@ == full_set(
                scorer,
                seed@,
                universe@,
                k,
            ) && (forall|r: nat|
                r < spec_binomial(universe@.len(), k as nat) ==> scored_some(
                    scorer,
                    #[trigger] cand_at(seed@, universe@, k, r),
                )),
            Err(e) => (e == SearchError::InvalidConfig && (workers == 0 || k as nat
                > universe@.len())) || (e == SearchError::Overflow && workers >= 1 && k as nat
                <= universe@.len() && spec_binomial(universe@.len(), k as nat) > u64::MAX) || (e
                == SearchError::ScorerFailure && (exists|r: nat|
                r < spec_binomial(universe@.len(), k as nat) && scores_to(
                    scorer,
                    #[trigger] cand_at(seed@, universe@, k, r),
                    None,
                ))),
        },
{
    if workers == 0 {
        return Err(SearchError::InvalidConfig);
    }
    let n: u64 = universe.len() as u64;
    if k > n {
        return Err(SearchError::InvalidConfig);
    }
    let total = match binomial(n, k) {
        Ok(t) => t,
        Err(_) => {
            return Err(SearchError::Overflow);
        },
    };
    let parts = match partition(total, workers) {
        Ok(p) => p,
        Err(_) => {
            proof {
                assert(false);
            }
            return Err(SearchError::InvalidConfig);
        },
    };
    let mut global = TopK::new(capacity);
    let mut w: usize = 0;
    proof {
        assert(global.offered@ =~= eval_set(scorer, seed@, universe@, k, 0, 0));
        assert(parts@[0].0 == 0);
    }
    while w < parts.len()
        invariant
            total_scorer(scorer),
            deterministic_scorer(scorer),
            spec_binomial(universe@.len(), k as nat) <= u64::MAX,
            n == universe@.len(),
            total == spec_binomial(universe@.len(), k as nat),
            is_partition(parts@, total),
            w <= parts@.len(),
            global.wf(),
            global.capacity == capacity,
            global.offered@ == eval_set(
                scorer,
                seed@,
                universe@,
                k,
                0,
                if w == 0 {
                    0
                } else {
                    parts@[w - 1].1 as nat
                },
            ),
            forall|t: nat|
                t < (if w == 0 {
                    0
                } else {
                    parts@[w - 1].1 as nat
                }) ==> scored_some(scorer, #[trigger] cand_at(seed@, universe@, k, t)),
        decreases parts@.len() - w,
    {
        let (lo, hi) = parts[w];
        proof {
            if w > 0 {
                assert(parts@[w - 1].1 == parts@[w as int].0);
            }
            assert(parts@[w as int].1 <= total) by {
                crate::partition::lemma_range_end_bound(parts@, total, w as int);
            }
        }
        let local = match evaluate_range(seed, universe, k, scorer, lo, hi, capacity) {
            Ok(tk) => tk,
            Err(e) => {
                return Err(e);
            },
        };
        proof {
            lemma_eval_set_union(
                scorer,
                seed@,
                universe@,
                k,
                0,
                lo as nat,
                hi as nat,
            );
        }
        global.merge(local);
        w = w + 1;
    }
    proof {
        assert(parts@[parts@.len() - 1].1 == total);
    }
    Ok(global)
}

} // verus!
