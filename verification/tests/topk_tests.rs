use combsearch::topk::{Entry, TopK};

fn entry(fitness: i64, candidate: &[u64]) -> Entry {
    Entry { fitness, candidate: candidate.to_vec() }
}

fn sample_entries() -> Vec<Entry> {
    let mut v = Vec::new();
    for i in 0..20u64 {
        // fitness values collide in pairs so tie-breaking is exercised
        v.push(entry((i / 2) as i64, &[i, i + 1]));
    }
    v
}

fn drain_pairs(tk: TopK) -> Vec<(i64, Vec<u64>)> {
    tk.drain_sorted().into_iter().map(|e| (e.fitness, e.candidate)).collect()
}

struct Lcg(u64);

impl Lcg {
    fn next(&mut self) -> u64 {
        self.0 = self.0.wrapping_mul(6364136223846793005).wrapping_add(1442695040888963407);
        self.0 >> 33
    }
}

fn shuffled(entries: &[Entry], rng: &mut Lcg) -> Vec<Entry> {
    let mut idx: Vec<usize> = (0..entries.len()).collect();
    for i in (1..idx.len()).rev() {
        let j = (rng.next() % (i as u64 + 1)) as usize;
        idx.swap(i, j);
    }
    idx.iter()
        .map(|&i| Entry { fitness: entries[i].fitness, candidate: entries[i].candidate.clone() })
        .collect()
}

#[test]
fn top_k_is_independent_of_offer_order() {
    let entries = sample_entries();
    let mut direct = TopK::new(5);
    for e in sample_entries() {
        direct.offer(e);
    }
    let expected = drain_pairs(direct);
    assert_eq!(expected.len(), 5);

    let mut rng = Lcg(42);
    for _ in 0..100 {
        let mut tk = TopK::new(5);
        for e in shuffled(&entries, &mut rng) {
            tk.offer(e);
        }
        assert_eq!(drain_pairs(tk), expected);
    }
}

#[test]
fn top_k_keeps_exactly_the_best() {
    let mut tk = TopK::new(3);
    tk.offer(entry(10, &[1]));
    tk.offer(entry(30, &[2]));
    tk.offer(entry(20, &[3]));
    tk.offer(entry(40, &[4]));
    tk.offer(entry(5, &[5]));
    let out = drain_pairs(tk);
    assert_eq!(out, vec![(40, vec![4]), (30, vec![2]), (20, vec![3])]);
}

#[test]
fn ties_break_by_candidate_not_by_arrival() {
    let mut a = TopK::new(1);
    a.offer(entry(7, &[0, 3]));
    a.offer(entry(7, &[0, 2]));
    let mut b = TopK::new(1);
    b.offer(entry(7, &[0, 2]));
    b.offer(entry(7, &[0, 3]));
    let out_a = drain_pairs(a);
    assert_eq!(out_a, drain_pairs(b));
    assert_eq!(out_a, vec![(7, vec![0, 3])]);
}

#[test]
fn merging_any_split_equals_offering_directly() {
    let entries = sample_entries();
    let mut direct = TopK::new(4);
    for e in sample_entries() {
        direct.offer(e);
    }
    let expected = drain_pairs(direct);

    // several ways of splitting the list over sub-collectors, merged in
    // different pairwise orders
    for chunk in [1usize, 2, 3, 7, 20] {
        let mut parts: Vec<TopK> = Vec::new();
        let mut it = entries.iter();
        loop {
            let mut tk = TopK::new(4);
            let mut took = 0;
            for e in it.by_ref().take(chunk) {
                tk.offer(Entry { fitness: e.fitness, candidate: e.candidate.clone() });
                took += 1;
            }
            parts.push(tk);
            if took < chunk {
                break;
            }
        }
        // fold left to right
        let mut acc = TopK::new(4);
        let mut rest = Vec::new();
        for (i, p) in parts.into_iter().enumerate() {
            if i % 2 == 0 {
                acc.merge(p);
            } else {
                rest.push(p);
            }
        }
        // merge the held-back collectors in reverse order
        let mut acc2 = TopK::new(4);
        for p in rest.into_iter().rev() {
            acc2.merge(p);
        }
        acc.merge(acc2);
        assert_eq!(drain_pairs(acc), expected, "chunk {}", chunk);
    }
}

#[test]
fn zero_capacity_collector_holds_nothing() {
    let mut tk = TopK::new(0);
    tk.offer(entry(100, &[1]));
    tk.offer(entry(200, &[2]));
    assert_eq!(drain_pairs(tk), vec![]);
}

#[test]
fn duplicate_entries_are_absorbed() {
    let mut tk = TopK::new(2);
    tk.offer(entry(9, &[4, 5]));
    tk.offer(entry(9, &[4, 5]));
    tk.offer(entry(3, &[1, 2]));
    let out = drain_pairs(tk);
    assert_eq!(out, vec![(9, vec![4, 5]), (3, vec![1, 2])]);
}

#[test]
fn fewer_entries_than_capacity_are_all_kept() {
    let mut tk = TopK::new(10);
    tk.offer(entry(1, &[0]));
    tk.offer(entry(2, &[1]));
    let out = drain_pairs(tk);
    assert_eq!(out, vec![(2, vec![1]), (1, vec![0])]);
}
