//! The refinement driver: a greedy, capacity-bounded beam search over
//! successive rounds. Round one scores the configured seeds themselves
//! (expansion zero, nothing pruned); each later round expands every seed of
//! the previous round's survivors by a configured number of categories and
//! keeps a global top-K, whose candidates become the next round's seeds.

use vstd::prelude::*;

use crate::binomial::spec_binomial;
use crate::errors::SearchError;
use crate::executor::{
    cand_at, deterministic_scorer, full_set, lemma_candidate_valid, run, scored_some, scores_to,
    total_scorer,
};
use crate::indexer::strictly_increasing;
use crate::seqs::{
    copy_values, diff, diff_exec, lemma_diff_increasing, lemma_diff_len, lemma_diff_membership,
    seq_disjoint,
};
use crate::topk::{is_topk, lemma_held_membership, ranked, views_of, Entry, EntryView, TopK};

verus! {

/// The contents of a list of seed vectors.
pub open spec fn seed_views(s: Seq<Vec<u64>>) -> Seq<Seq<u64>> {
    s.map_values(|v: Vec<u64>| v@)
}

/// Every seed is an ordered sequence.
pub open spec fn valid_seeds(ss: Seq<Seq<u64>>) -> bool {
    forall|j: int| 0 <= j < ss.len() ==> strictly_increasing(#[trigger] ss[j])
}

/// Everything one expansion round evaluates across a list of seeds: for
/// each seed, the whole combination space of the universe minus that seed.
pub open spec fn round_union<F: Fn(Vec<u64>) -> Option<i64>>(
    f: F,
    universe: Seq<u64>,
    seeds: Seq<Seq<u64>>,
    k: u64,
) -> Set<EntryView> {
    Set::new(
        |ev: EntryView|
            exists|j: int|
                0 <= j < seeds.len() && full_set(
                    f,
                    #[trigger] seeds[j],
                    diff(universe, seeds[j]),
                    k,
                ).contains(ev),
    )
}

/// One expansion round over `seeds` succeeded and retained exactly `held`.
pub open spec fn round_ok<F: Fn(Vec<u64>) -> Option<i64>>(
    f: F,
    universe: Seq<u64>,
    seeds: Seq<Seq<u64>>,
    k: u64,
    cap: nat,
    held: Set<EntryView>,
) -> bool {
    &&& (forall|j: int|
        0 <= j < seeds.len() ==> k as nat <= diff(universe, #[trigger] seeds[j]).len())
    &&& (forall|j: int|
        0 <= j < seeds.len() ==> spec_binomial(diff(universe, #[trigger] seeds[j]).len(), k as nat)
            <= u64::MAX)
    &&& (forall|j: int, r: nat|
        0 <= j < seeds.len() && r < spec_binomial(diff(universe, seeds[j]).len(), k as nat)
            ==> scored_some(f, #[trigger] cand_at(seeds[j], diff(universe, seeds[j]), k, r)))
    &&& is_topk(held, round_union(f, universe, seeds, k), cap)
}

/// One expansion round over `seeds` failed with `e`.
pub open spec fn round_fails<F: Fn(Vec<u64>) -> Option<i64>>(
    f: F,
    universe: Seq<u64>,
    seeds: Seq<Seq<u64>>,
    k: u64,
    e: SearchError,
) -> bool {
    ||| (e == SearchError::InvalidConfig && (exists|j: int|
        0 <= j < seeds.len() && k as nat > diff(universe, #[trigger] seeds[j]).len()))
    ||| (e == SearchError::Overflow && (exists|j: int|
        0 <= j < seeds.len() && spec_binomial(diff(universe, #[trigger] seeds[j]).len(), k as nat)
            > u64::MAX))
    ||| (e == SearchError::ScorerFailure && (exists|j: int, r: nat|
        0 <= j < seeds.len() && r < spec_binomial(diff(universe, seeds[j]).len(), k as nat)
            && scores_to(f, #[trigger] cand_at(seeds[j], diff(universe, seeds[j]), k, r), None)))
}

/// Some view in `held` carries the candidate `c`.
pub open spec fn view_listed(held: Set<EntryView>, c: Seq<u64>) -> bool {
    exists|ev: EntryView| #[trigger] held.contains(ev) && ev.1 == c
}

/// Some entry of `ns` is the candidate `c`.
pub open spec fn candidate_listed(ns: Seq<Seq<u64>>, c: Seq<u64>) -> bool {
    exists|j: int| 0 <= j < ns.len() && #[trigger] ns[j] == c
}

/// `ns` lists exactly the candidates of the views in `held`.
pub open spec fn survivors_of(ns: Seq<Seq<u64>>, held: Set<EntryView>) -> bool {
    &&& (forall|j: int| 0 <= j < ns.len() ==> view_listed(held, #[trigger] ns[j]))
    &&& (forall|ev: EntryView| #[trigger] held.contains(ev) ==> candidate_listed(ns, ev.1))
}

/// How a chain of expansion rounds starting from `seeds` relates to an
/// outcome: each round's survivors seed the next, the last round's held set
/// is the final result, and a failed round ends the chain with its error.
pub open spec fn rounds_rel<F: Fn(Vec<u64>) -> Option<i64>>(
    f: F,
    universe: Seq<u64>,
    seeds: Seq<Seq<u64>>,
    exps: Seq<u64>,
    cap: nat,
    outcome: Result<Set<EntryView>, SearchError>,
) -> bool
    decreases exps.len(),
{
    if exps.len() == 0 {
        outcome == Ok::<Set<EntryView>, SearchError>(Set::empty())
    } else {
        let k = exps[0];
        match outcome {
            Ok(fin) => {
                if exps.len() == 1 {
                    round_ok(f, universe, seeds, k, cap, fin)
                } else {
                    exists|held: Set<EntryView>, ns: Seq<Seq<u64>>|
                        round_ok(f, universe, seeds, k, cap, held) && #[trigger] survivors_of(
                            ns,
                            held,
                        ) && rounds_rel(f, universe, ns, exps.drop_first(), cap, outcome)
                }
            },
            Err(e) => {
                ||| round_fails(f, universe, seeds, k, e)
                ||| (exists|held: Set<EntryView>, ns: Seq<Seq<u64>>|
                    round_ok(f, universe, seeds, k, cap, held) && #[trigger] survivors_of(ns, held)
                        && rounds_rel(f, universe, ns, exps.drop_first(), cap, outcome))
            },
        }
    }
}

/// What a finished search reports: the fitness of every initial seed, and
/// the final top-K of the last round, both best first.
pub struct RunOutcome {
    pub round_one: Vec<Entry>,
    pub best: Vec<Entry>,
}

/// For each seed, the universe minus that seed, rejecting an expansion that
/// cannot fit in what remains.
fn compute_rems(universe: &Vec<u64>, cur: &Vec<Vec<u64>>, k: u64) -> (res: Result<
    Vec<Vec<u64>>,
    SearchError,
>)
    ensures
        match res {
            Ok(rems) => rems@.len() == cur@.len() && (forall|j: int|
                0 <= j < cur@.len() ==> (#[trigger] rems@[j])@ == diff(
                    universe@,
                    seed_views(cur@)[j],
                ) && k as nat <= rems@[j]@.len()),
            Err(e) => e == SearchError::InvalidConfig && (exists|j: int|
                0 <= j < cur@.len() && k as nat > diff(
                    universe@,
                    #[trigger] seed_views(cur@)[j],
                ).len()),
        },
{
    let mut rems: Vec<Vec<u64>> = Vec::new();
    let mut j: usize = 0;
    while j < cur.len()
        invariant
            j <= cur@.len(),
            rems@.len() == j,
            forall|t: int|
                0 <= t < j ==> (#[trigger] rems@[t])@ == diff(universe@, seed_views(cur@)[t])
                    && k as nat <= rems@[t]@.len(),
        decreases cur@.len() - j,
    {
        let rem = diff_exec(universe, &cur[j]);
        if (rem.len() as u64) < k {
            proof {
                assert(seed_views(cur@)[j as int] == cur@[j as int]@);
                assert(k as nat > diff(universe@, seed_views(cur@)[j as int]).len());
            }
            return Err(SearchError::InvalidConfig);
        }
        rems.push(rem);
        j = j + 1;
    }
    Ok(rems)
}

/// The union over one more seed extends the round's evaluated set.
proof fn lemma_round_union_extend<F: Fn(Vec<u64>) -> Option<i64>>(
    f: F,
    universe: Seq<u64>,
    ss: Seq<Seq<u64>>,
    k: u64,
    j: int,
)
    requires
        0 <= j < ss.len(),
    ensures
        round_union(f, universe, ss.take(j + 1), k) == round_union(f, universe, ss.take(j), k)
            .union(full_set(f, ss[j], diff(universe, ss[j]), k)),
{
    let small = round_union(f, universe, ss.take(j), k);
    let one = full_set(f, ss[j], diff(universe, ss[j]), k);
    let big = round_union(f, universe, ss.take(j + 1), k);
    assert(forall|t: int| 0 <= t < j + 1 ==> ss.take(j + 1)[t] == ss[t]);
    assert(forall|t: int| 0 <= t < j ==> ss.take(j)[t] == ss[t]);
    assert forall|ev: EntryView| big.contains(ev) implies small.union(one).contains(ev) by {
        let t = choose|t: int|
            0 <= t < ss.take(j + 1).len() && full_set(
                f,
                #[trigger] ss.take(j + 1)[t],
                diff(universe, ss.take(j + 1)[t]),
                k,
            ).contains(ev);
        if t < j {
            assert(full_set(f, ss.take(j)[t], diff(universe, ss.take(j)[t]), k).contains(ev));
        }
    }
    assert forall|ev: EntryView| small.union(one).contains(ev) implies big.contains(ev) by {
        if small.contains(ev) {
            let t = choose|t: int|
                0 <= t < ss.take(j).len() && full_set(
                    f,
                    #[trigger] ss.take(j)[t],
                    diff(universe, ss.take(j)[t]),
                    k,
                ).contains(ev);
            assert(full_set(f, ss.take(j + 1)[t], diff(universe, ss.take(j + 1)[t]), k).contains(
                ev,
            ));
        } else {
            assert(full_set(f, ss.take(j + 1)[j], diff(universe, ss.take(j + 1)[j]), k).contains(
                ev,
            ));
        }
    }
    assert(big =~= small.union(one));
}

/// A vector list carrying the candidates of the drained entries lists the
/// survivors of their held set.
proof fn lemma_survivors(drained: Seq<Entry>, ns: Seq<Vec<u64>>, held: Set<EntryView>)
    requires
        held == views_of(drained).to_set(),
        ns.len() == drained.len(),
        forall|w: int| 0 <= w < ns.len() ==> (#[trigger] ns[w])@ == drained[w].candidate@,
    ensures
        survivors_of(seed_views(ns), held),
{
    let nsv = seed_views(ns);
    assert(forall|w: int| 0 <= w < nsv.len() ==> #[trigger] nsv[w] == ns[w]@);
    assert forall|j: int| 0 <= j < nsv.len() implies view_listed(held, #[trigger] nsv[j]) by {
        lemma_held_membership(drained, drained[j]@);
        assert(held.contains(drained[j]@) && drained[j]@.1 == nsv[j]);
    }
    assert forall|ev: EntryView| #[trigger] held.contains(ev) implies candidate_listed(
        nsv,
        ev.1,
    ) by {
        lemma_held_membership(drained, ev);
        let i = choose|i: int| 0 <= i < drained.len() && (#[trigger] drained[i])@ == ev;
        assert(nsv[i] == ev.1);
    }
}

/// Survivor candidates of a round over ordered seeds are themselves ordered
/// seeds.
proof fn lemma_survivor_seeds_valid<F: Fn(Vec<u64>) -> Option<i64>>(
    f: F,
    universe: Seq<u64>,
    cviews: Seq<Seq<u64>>,
    k: u64,
    held: Set<EntryView>,
    nsv: Seq<Seq<u64>>,
)
    requires
        valid_seeds(cviews),
        strictly_increasing(universe),
        universe.len() <= u64::MAX,
        held.subset_of(round_union(f, universe, cviews, k)),
        survivors_of(nsv, held),
    ensures
        valid_seeds(nsv),
{
    assert forall|j: int| 0 <= j < nsv.len() implies strictly_increasing(#[trigger] nsv[j]) by {
        let ev = choose|ev: EntryView| held.contains(ev) && ev.1 == nsv[j];
        assert(round_union(f, universe, cviews, k).contains(ev));
        let sj = choose|sj: int|
            0 <= sj < cviews.len() && full_set(
                f,
                #[trigger] cviews[sj],
                diff(universe, cviews[sj]),
                k,
            ).contains(ev);
        let rem = diff(universe, cviews[sj]);
        let r = choose|r: nat|
            0 <= r < spec_binomial(rem.len(), k as nat) && ev.1 == cand_at(cviews[sj], rem, k, r)
                && scores_to(f, ev.1, Some(ev.0));
        lemma_diff_increasing(universe, cviews[sj]);
        lemma_diff_membership(universe, cviews[sj]);
        lemma_diff_len(universe, cviews[sj]);
        assert(seq_disjoint(cviews[sj], rem)) by {
            assert forall|x: u64| !(cviews[sj].contains(x) && rem.contains(x)) by {
                if rem.contains(x) {
                    assert(!cviews[sj].contains(x));
                }
            }
        }
        lemma_candidate_valid(cviews[sj], rem, k, r);
    }
}

/// Run one full round: every seed against the universe minus itself, all
/// results merged into one collector of capacity `capacity`.
fn run_round<F: Fn(Vec<u64>) -> Option<i64> + Copy>(
    universe: &Vec<u64>,
    cur: &Vec<Vec<u64>>,
    rems: &Vec<Vec<u64>>,
    k: u64,
    scorer: F,
    workers: usize,
    capacity: usize,
) -> (res: Result<TopK, SearchError>)
    requires
        total_scorer(scorer),
        deterministic_scorer(scorer),
        workers >= 1,
        rems@.len() == cur@.len(),
        forall|j: int|
            0 <= j < cur@.len() ==> (#[trigger] rems@[j])@ == diff(universe@, seed_views(cur@)[j])
                && k as nat <= rems@[j]@.len(),
    ensures
        match res {
            Ok(tk) => tk.wf() && tk.capacity == capacity && tk.offered@ == round_union(
                scorer,
                universe@,
                seed_views(cur@),
                k,
            ) && round_ok(scorer, universe@, seed_views(cur@), k, capacity as nat, tk.held()),
            Err(e) => round_fails(scorer, universe@, seed_views(cur@), k, e),
        },
{
    let ghost cviews = seed_views(cur@);
    let mut global = TopK::new(capacity);
    let mut j: usize = 0;
    proof {
        assert(global.offered@ =~= round_union(scorer, universe@, cviews.take(0), k)) by {
            assert forall|ev: EntryView|
                !round_union(scorer, universe@, cviews.take(0), k).contains(ev) by {
                assert(cviews.take(0).len() == 0);
            }
        }
    }
    while j < cur.len()
        invariant
            total_scorer(scorer),
            deterministic_scorer(scorer),
            workers >= 1,
            j <= cur@.len(),
            cviews == seed_views(cur@),
            rems@.len() == cur@.len(),
            forall|t: int|
                0 <= t < cur@.len() ==> (#[trigger] rems@[t])@ == diff(universe@, cviews[t])
                    && k as nat <= rems@[t]@.len(),
            global.wf(),
            global.capacity == capacity,
            global.offered@ == round_union(scorer, universe@, cviews.take(j as int), k),
            forall|t: int|
                0 <= t < j ==> spec_binomial(diff(universe@, #[trigger] cviews[t]).len(), k as nat)
                    <= u64::MAX,
            forall|t: int, r: nat|
                0 <= t < j && r < spec_binomial(diff(universe@, cviews[t]).len(), k as nat)
                    ==> scored_some(
                    scorer,
                    #[trigger] cand_at(cviews[t], diff(universe@, cviews[t]), k, r),
                ),
        decreases cur@.len() - j,
    {
        let tk = match run(&cur[j], &rems[j], k, scorer, workers, capacity) {
            Ok(tk) => tk,
            Err(e) => {
                proof {
                    assert(rems@[j as int]@ == diff(universe@, cviews[j as int]));
                    assert(e != SearchError::InvalidConfig);
                }
                return Err(e);
            },
        };
        proof {
            lemma_round_union_extend(scorer, universe@, cviews, k, j as int);
        }
        global.merge(tk);
        j = j + 1;
    }
    proof {
        assert(cviews.take(cur@.len() as int) =~= cviews);
        assert(global.offered@ == round_union(scorer, universe@, cviews, k));
        assert forall|t: int| 0 <= t < cur@.len() implies k as nat <= diff(
            universe@,
            #[trigger] cviews[t],
        ).len() by {
            assert(rems@[t]@ == diff(universe@, cviews[t]));
        }
        assert(round_ok(scorer, universe@, cviews, k, capacity as nat, global.held()));
    }
    Ok(global)
}

/// Run the whole multi-round search.
///
/// Round one scores every initial seed by itself (expansion zero) and
/// reports all of them, pruning nothing. Each entry of `expansions` then
/// drives one expansion round over the previous round's survivors — the
/// initial seeds, for the first — merging every seed's results into one
/// global collector of capacity `capacity`; its candidates seed the next
/// round, and after the last round its entries, best first, are the final
/// result. A zero-size worker pool is rejected before anything runs; an
/// expansion that cannot fit its round's remaining universe, a combination
/// count beyond `u64`, or a scorer refusal aborts the run with no partial
/// result.
#[verifier::rlimit(50)]
pub fn refine<F: Fn(Vec<u64>) -> Option<i64> + Copy>(
    universe: &Vec<u64>,
    seeds: Vec<Vec<u64>>,
    expansions: &Vec<u64>,
    capacity: usize,
    workers: usize,
    scorer: F,
) -> (res: Result<RunOutcome, SearchError>)
    requires
        total_scorer(scorer),
        deterministic_scorer(scorer),
        strictly_increasing(universe@),
        valid_seeds(seed_views(seeds@)),
    ensures
        match res {
            Ok(out) => {
                &&& workers >= 1
                &&& ranked(out.round_one@)
                &&& out.round_one@.len() <= seeds@.len()
                &&& is_topk(
                    views_of(out.round_one@).to_set(),
                    round_union(scorer, universe@, seed_views(seeds@), 0),
                    seeds@.len(),
                )
                &&& ranked(out.best@)
                &&& out.best@.len() <= capacity
                &&& rounds_rel(
                    scorer,
                    universe@,
                    seed_views(seeds@),
                    expansions@,
                    capacity as nat,
                    Ok(views_of(out.best@).to_set()),
                )
            },
            Err(e) => {
                ||| (e == SearchError::InvalidConfig && workers == 0)
                ||| round_fails(scorer, universe@, seed_views(seeds@), 0, e)
                ||| rounds_rel(
                    scorer,
                    universe@,
                    seed_views(seeds@),
                    expansions@,
                    capacity as nat,
                    Err(e),
                )
            },
        },
{
    if workers == 0 {
        return Err(SearchError::InvalidConfig);
    }
    let ghost cap = capacity as nat;
    let ul: usize = universe.len();
    let rems0 = match compute_rems(universe, &seeds, 0) {
        Ok(r) => r,
        Err(e) => {
            proof {
                assert(false);
            }
            return Err(e);
        },
    };
    let round1 = match run_round(universe, &seeds, &rems0, 0, scorer, workers, seeds.len()) {
        Ok(tk) => tk,
        Err(e) => {
            return Err(e);
        },
    };
    let round_one = round1.drain_sorted();
    if expansions.len() == 0 {
        let best: Vec<Entry> = Vec::new();
        proof {
            assert(views_of(best@).to_set() =~= Set::<EntryView>::empty());
        }
        return Ok(RunOutcome { round_one, best });
    }
    let mut cur: Vec<Vec<u64>> = seeds;
    let mut best: Vec<Entry> = Vec::new();
    let mut ri: usize = 0;
    proof {
        assert(expansions@.skip(0) =~= expansions@);
    }
    while ri < expansions.len()
        invariant
            total_scorer(scorer),
            deterministic_scorer(scorer),
            strictly_increasing(universe@),
            universe@.len() == ul,
            workers >= 1,
            cap == capacity as nat,
            ri <= expansions@.len(),
            valid_seeds(seed_views(cur@)),
            ri < expansions@.len() ==> (forall|out: Result<Set<EntryView>, SearchError>|
                #[trigger] rounds_rel(
                    scorer,
                    universe@,
                    seed_views(cur@),
                    expansions@.skip(ri as int),
                    cap,
                    out,
                ) ==> rounds_rel(scorer, universe@, seed_views(seeds@), expansions@, cap, out)),
            ri == expansions@.len() && expansions@.len() > 0 ==> (ranked(best@) && best@.len()
                <= capacity && rounds_rel(
                scorer,
                universe@,
                seed_views(seeds@),
                expansions@,
                cap,
                Ok(views_of(best@).to_set()),
            )),
        decreases expansions@.len() - ri,
    {
        let k = expansions[ri];
        let ghost cviews = seed_views(cur@);
        let ghost restexps = expansions@.skip(ri as int);
        proof {
            assert(restexps[0] == expansions@[ri as int]);
            assert(restexps.drop_first() =~= expansions@.skip(ri as int + 1));
        }
        let rems = match compute_rems(universe, &cur, k) {
            Ok(r) => r,
            Err(e) => {
                proof {
                    assert(round_fails(scorer, universe@, cviews, k, e));
                    assert(rounds_rel(
                        scorer,
                        universe@,
                        seed_views(cur@),
                        expansions@.skip(ri as int),
                        cap,
                        Err::<Set<EntryView>, SearchError>(e),
                    ));
                    assert(rounds_rel(
                        scorer,
                        universe@,
                        seed_views(seeds@),
                        expansions@,
                        cap,
                        Err::<Set<EntryView>, SearchError>(e),
                    ));
                }
                return Err(e);
            },
        };
        let global = match run_round(universe, &cur, &rems, k, scorer, workers, capacity) {
            Ok(tk) => tk,
            Err(e) => {
                proof {
                    assert(rounds_rel(
                        scorer,
                        universe@,
                        seed_views(cur@),
                        expansions@.skip(ri as int),
                        cap,
                        Err::<Set<EntryView>, SearchError>(e),
                    ));
                    assert(rounds_rel(
                        scorer,
                        universe@,
                        seed_views(seeds@),
                        expansions@,
                        cap,
                        Err::<Set<EntryView>, SearchError>(e),
                    ));
                }
                return Err(e);
            },
        };
        let ghost held = global.held();
        let ghost offered = global.offered@;
        let drained = global.drain_sorted();
        let mut ns: Vec<Vec<u64>> = Vec::new();
        let mut t: usize = 0;
        while t < drained.len()
            invariant
                t <= drained@.len(),
                ns@.len() == t,
                forall|w: int| 0 <= w < t ==> (#[trigger] ns@[w])@ == drained@[w].candidate@,
            decreases drained@.len() - t,
        {
            let c = copy_values(&drained[t].candidate);
            ns.push(c);
            t = t + 1;
        }
        let ghost nsv = seed_views(ns@);
        proof {
            lemma_survivors(drained@, ns@, held);
            lemma_survivor_seeds_valid(scorer, universe@, cviews, k, held, nsv);
            if ri + 1 == expansions@.len() {
                assert(restexps.len() == 1);
                assert(rounds_rel(
                    scorer,
                    universe@,
                    cviews,
                    restexps,
                    cap,
                    Ok::<Set<EntryView>, SearchError>(held),
                ));
                assert(rounds_rel(scorer, universe@, seed_views(seeds@), expansions@, cap, Ok::<
                    Set<EntryView>,
                    SearchError,
                >(held)));
                assert(views_of(drained@).to_set() == held);
            } else {
                assert forall|out: Result<Set<EntryView>, SearchError>|
                    #[trigger] rounds_rel(
                        scorer,
                        universe@,
                        nsv,
                        restexps.drop_first(),
                        cap,
                        out,
                    ) implies rounds_rel(scorer, universe@, seed_views(seeds@), expansions@, cap, out) by {
                    assert(round_ok(scorer, universe@, cviews, k, cap, held) && survivors_of(
                        nsv,
                        held,
                    ) && rounds_rel(scorer, universe@, nsv, restexps.drop_first(), cap, out));
                    assert(rounds_rel(scorer, universe@, cviews, restexps, cap, out));
                }
            }
        }
        best = drained;
        cur = ns;
        ri = ri + 1;
        proof {
            if ri < expansions@.len() {
                assert(seed_views(cur@) == nsv);
                assert forall|out: Result<Set<EntryView>, SearchError>|
                    #[trigger] rounds_rel(
                        scorer,
                        universe@,
                        seed_views(cur@),
                        expansions@.skip(ri as int),
                        cap,
                        out,
                    ) implies rounds_rel(
                    scorer,
                    universe@,
                    seed_views(seeds@),
                    expansions@,
                    cap,
                    out,
                ) by {
                    assert(expansions@.skip(ri as int) =~= restexps.drop_first());
                    assert(rounds_rel(scorer, universe@, nsv, restexps.drop_first(), cap, out));
                }
            }
        }
    }
    Ok(RunOutcome { round_one, best })
}

} // verus!
