use combsearch::driver::refine;
use combsearch::errors::SearchError;
use combsearch::executor::{evaluate_range, run};
use combsearch::topk::TopK;

/// Six categories A..F as ids 0..5, valued 1..6: a candidate's fitness is
/// the sum of its category values.
fn value_sum(c: Vec<u64>) -> Option<i64> {
    Some(c.iter().map(|&x| (x + 1) as i64).sum())
}

fn pairs(tk: TopK) -> Vec<(i64, Vec<u64>)> {
    tk.drain_sorted().into_iter().map(|e| (e.fitness, e.candidate)).collect()
}

#[test]
fn empty_seed_expand_two_keep_three() {
    let universe: Vec<u64> = (0..6).collect();
    let seed: Vec<u64> = vec![];
    let tk = run(&seed, &universe, 2, value_sum, 3, 3).unwrap();
    let out = pairs(tk);
    assert_eq!(
        out,
        vec![(11, vec![4, 5]), (10, vec![3, 5]), (9, vec![3, 4])]
    );
}

#[test]
fn seeded_expand_one_keep_one() {
    // seed already holds F (value 6); one more category, best is E
    let universe: Vec<u64> = (0..5).collect();
    let seed: Vec<u64> = vec![5];
    let tk = run(&seed, &universe, 1, value_sum, 2, 1).unwrap();
    let out = pairs(tk);
    assert_eq!(out, vec![(11, vec![4, 5])]);
}

#[test]
fn multi_round_refinement_suppresses_duplicates() {
    let universe: Vec<u64> = (0..6).collect();
    let outcome = refine(&universe, vec![vec![]], &vec![1, 1], 2, 2, value_sum).unwrap();
    // round one scores the empty seed itself
    let round_one: Vec<(i64, Vec<u64>)> =
        outcome.round_one.into_iter().map(|e| (e.fitness, e.candidate)).collect();
    assert_eq!(round_one, vec![(0, vec![])]);
    // first expansion keeps {F}=6 and {E}=5; the second expands both, the
    // combined candidate {E,F}=11 appears once, then {D,F}=10
    let best: Vec<(i64, Vec<u64>)> =
        outcome.best.into_iter().map(|e| (e.fitness, e.candidate)).collect();
    assert_eq!(best, vec![(11, vec![4, 5]), (10, vec![3, 5])]);
}

#[test]
fn result_is_independent_of_worker_count() {
    let universe: Vec<u64> = (0..6).collect();
    let seed: Vec<u64> = vec![];
    let reference = pairs(run(&seed, &universe, 3, value_sum, 1, 4).unwrap());
    for workers in 2..8usize {
        let out = pairs(run(&seed, &universe, 3, value_sum, workers, 4).unwrap());
        assert_eq!(out, reference, "workers {}", workers);
    }
}

#[test]
fn per_range_evaluation_merges_to_the_full_run() {
    let universe: Vec<u64> = (0..6).collect();
    let seed: Vec<u64> = vec![];
    // C(6, 2) == 15, split by hand into [0, 7) and [7, 15)
    let mut left = evaluate_range(&seed, &universe, 2, value_sum, 0, 7, 3).unwrap();
    let right = evaluate_range(&seed, &universe, 2, value_sum, 7, 15, 3).unwrap();
    left.merge(right);
    let whole = run(&seed, &universe, 2, value_sum, 4, 3).unwrap();
    assert_eq!(pairs(left), pairs(whole));
}

#[test]
fn zero_workers_fail_before_anything_runs() {
    let universe: Vec<u64> = (0..6).collect();
    assert_eq!(
        run(&vec![], &universe, 2, value_sum, 0, 3).err().unwrap(),
        SearchError::InvalidConfig
    );
    assert_eq!(
        refine(&universe, vec![vec![]], &vec![1], 2, 0, value_sum).err().unwrap(),
        SearchError::InvalidConfig
    );
}

#[test]
fn oversized_expansion_is_invalid() {
    let universe: Vec<u64> = (0..4).collect();
    assert_eq!(
        run(&vec![], &universe, 5, value_sum, 2, 3).err().unwrap(),
        SearchError::InvalidConfig
    );
    // in the driver, the check counts the universe left after the seed
    assert_eq!(
        refine(&universe, vec![vec![0, 1]], &vec![3], 2, 2, value_sum).err().unwrap(),
        SearchError::InvalidConfig
    );
}

#[test]
fn huge_spaces_overflow_instead_of_wrapping() {
    let universe: Vec<u64> = (0..70).collect();
    assert_eq!(
        run(&vec![], &universe, 35, value_sum, 4, 3).err().unwrap(),
        SearchError::Overflow
    );
}

#[test]
fn scorer_refusal_aborts_the_whole_run() {
    let universe: Vec<u64> = (0..6).collect();
    let picky = |c: Vec<u64>| {
        if c.contains(&3) {
            None
        } else {
            Some(c.len() as i64)
        }
    };
    assert_eq!(
        run(&vec![], &universe, 2, picky, 2, 3).err().unwrap(),
        SearchError::ScorerFailure
    );
    assert_eq!(
        refine(&universe, vec![vec![3]], &vec![1], 2, 2, picky).err().unwrap(),
        SearchError::ScorerFailure
    );
}

#[test]
fn refine_without_expansion_rounds_reports_seeds_only() {
    let universe: Vec<u64> = (0..6).collect();
    let outcome =
        refine(&universe, vec![vec![1], vec![4]], &vec![], 3, 2, value_sum).unwrap();
    let round_one: Vec<(i64, Vec<u64>)> =
        outcome.round_one.into_iter().map(|e| (e.fitness, e.candidate)).collect();
    assert_eq!(round_one, vec![(5, vec![4]), (2, vec![1])]);
    assert!(outcome.best.is_empty());
}
