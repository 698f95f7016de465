//! Ordered-sequence helpers for candidate construction: membership,
//! difference, selection by index, and sorted merge, each with the spec
//! functions the engine's contracts are written over.

use vstd::prelude::*;

use crate::indexer::strictly_increasing;

verus! {

/// No value occurs in both sequences.
pub open spec fn seq_disjoint(a: Seq<u64>, b: Seq<u64>) -> bool {
    forall|x: u64| !(a.contains(x) && b.contains(x))
}

/// The elements of `u`, in order, that do not occur in `s`.
pub open spec fn diff(u: Seq<u64>, s: Seq<u64>) -> Seq<u64>
    decreases u.len(),
{
    if u.len() == 0 {
        Seq::empty()
    } else {
        let rest = diff(u.drop_first(), s);
        if s.contains(u[0]) {
            rest
        } else {
            seq![u[0]] + rest
        }
    }
}

/// The values of `universe` picked out by the index sequence `combo`.
pub open spec fn select(universe: Seq<u64>, combo: Seq<u64>) -> Seq<u64> {
    combo.map_values(|i: u64| universe[i as int])
}

/// Merge two ordered sequences into one ordered sequence.
pub open spec fn merge_sorted(a: Seq<u64>, b: Seq<u64>) -> Seq<u64>
    decreases a.len() + b.len(),
{
    if a.len() == 0 {
        b
    } else if b.len() == 0 {
        a
    } else if a[0] <= b[0] {
        seq![a[0]] + merge_sorted(a.drop_first(), b)
    } else {
        seq![b[0]] + merge_sorted(a, b.drop_first())
    }
}

/// What `diff` keeps: exactly the elements of `u` outside `s`.
pub proof fn lemma_diff_membership(u: Seq<u64>, s: Seq<u64>)
    ensures
        forall|x: u64| #[trigger] diff(u, s).contains(x) <==> (u.contains(x) && !s.contains(x)),
    decreases u.len(),
{
    if u.len() > 0 {
        let t = u.drop_first();
        lemma_diff_membership(t, s);
        assert(forall|i: int| 0 <= i < t.len() ==> t[i] == u[i + 1]);
        assert forall|x: u64| #[trigger] diff(u, s).contains(x) implies (u.contains(x)
            && !s.contains(x)) by {
            let d = diff(u, s);
            let i = choose|i: int| 0 <= i < d.len() && d[i] == x;
            if s.contains(u[0]) {
                assert(diff(t, s).contains(x));
                let j = choose|j: int| 0 <= j < t.len() && t[j] == x;
                assert(u[j + 1] == x);
            } else {
                if i == 0 {
                    assert(u[0] == x);
                } else {
                    assert(diff(t, s)[i - 1] == x);
                    assert(diff(t, s).contains(x));
                    let j = choose|j: int| 0 <= j < t.len() && t[j] == x;
                    assert(u[j + 1] == x);
                }
            }
        }
        assert forall|x: u64| u.contains(x) && !s.contains(x) implies #[trigger] diff(
            u,
            s,
        ).contains(x) by {
            let i = choose|i: int| 0 <= i < u.len() && u[i] == x;
            if i == 0 {
                assert(diff(u, s)[0] == x);
            } else {
                assert(t[i - 1] == x);
                assert(t.contains(x));
                assert(diff(t, s).contains(x));
                let j = choose|j: int| 0 <= j < diff(t, s).len() && diff(t, s)[j] == x;
                if s.contains(u[0]) {
                } else {
                    assert(diff(u, s)[j + 1] == x);
                }
            }
        }
    }
}

/// `diff` keeps at most as many elements as it was given.
pub proof fn lemma_diff_len(u: Seq<u64>, s: Seq<u64>)
    ensures
        diff(u, s).len() <= u.len(),
    decreases u.len(),
{
    if u.len() > 0 {
        lemma_diff_len(u.drop_first(), s);
    }
}

/// `diff` of an ordered sequence is ordered.
pub proof fn lemma_diff_increasing(u: Seq<u64>, s: Seq<u64>)
    requires
        strictly_increasing(u),
    ensures
        strictly_increasing(diff(u, s)),
    decreases u.len(),
{
    if u.len() > 0 {
        let t = u.drop_first();
        assert(forall|i: int| 0 <= i < t.len() ==> t[i] == u[i + 1]);
        lemma_diff_increasing(t, s);
        lemma_diff_membership(t, s);
        if !s.contains(u[0]) {
            let d = diff(u, s);
            let r = diff(t, s);
            assert forall|i: int, j: int| 0 <= i < j < d.len() implies d[i] < d[j] by {
                if i == 0 {
                    assert(d[j] == r[j - 1]);
                    assert(r.contains(r[j - 1]));
                    assert(t.contains(r[j - 1]));
                    let w = choose|w: int| 0 <= w < t.len() && t[w] == r[j - 1];
                    assert(u[0] < u[w + 1]);
                } else {
                    assert(d[i] == r[i - 1] && d[j] == r[j - 1]);
                }
            }
        }
    }
}

/// Merging ordered, disjoint sequences yields an ordered sequence holding
/// exactly the elements of both.
pub proof fn lemma_merge_sorted_props(a: Seq<u64>, b: Seq<u64>)
    requires
        strictly_increasing(a),
        strictly_increasing(b),
        seq_disjoint(a, b),
    ensures
        strictly_increasing(merge_sorted(a, b)),
        merge_sorted(a, b).len() == a.len() + b.len(),
        forall|x: u64| #[trigger] merge_sorted(a, b).contains(x) <==> (a.contains(x) || b.contains(
            x,
        )),
    decreases a.len() + b.len(),
{
    let m = merge_sorted(a, b);
    if a.len() == 0 || b.len() == 0 {
    } else {
        let (h, ra, rb) = if a[0] <= b[0] {
            (a[0], a.drop_first(), b)
        } else {
            (b[0], a, b.drop_first())
        };
        assert(forall|i: int| 0 <= i < a.drop_first().len() ==> a.drop_first()[i] == a[i + 1]);
        assert(forall|i: int| 0 <= i < b.drop_first().len() ==> b.drop_first()[i] == b[i + 1]);
        assert(seq_disjoint(ra, rb)) by {
            assert forall|x: u64| !(ra.contains(x) && rb.contains(x)) by {
                if ra.contains(x) && rb.contains(x) {
                    if a[0] <= b[0] {
                        let i = choose|i: int| 0 <= i < ra.len() && ra[i] == x;
                        assert(a[i + 1] == x);
                        assert(a.contains(x));
                    } else {
                        let i = choose|i: int| 0 <= i < rb.len() && rb[i] == x;
                        assert(b[i + 1] == x);
                        assert(b.contains(x));
                    }
                }
            }
        }
        lemma_merge_sorted_props(ra, rb);
        let rest = merge_sorted(ra, rb);
        assert(m == seq![h] + rest);
        assert(m[0] == h);
        assert(forall|i: int| 0 <= i < rest.len() ==> m[i + 1] == rest[i]);
        // every element of the merged tail lies strictly above the head
        assert forall|x: u64| rest.contains(x) implies h < x by {
            if ra.contains(x) {
                let i = choose|i: int| 0 <= i < ra.len() && ra[i] == x;
                if a[0] <= b[0] {
                    assert(a[i + 1] == x);
                } else {
                    // h == b[0] < a[0] <= every element of a
                    if i > 0 {
                        assert(a[0] < a[i]);
                    }
                    assert(b.contains(h) && a.contains(x));
                }
            } else {
                let i = choose|i: int| 0 <= i < rb.len() && rb[i] == x;
                if a[0] <= b[0] {
                    // h == a[0]; x is an element of b, so x >= b[0] >= h, and
                    // disjointness rules out equality
                    if i > 0 {
                        assert(b[0] < b[i]);
                    }
                    assert(a.contains(h) && b.contains(x));
                } else {
                    assert(b[i + 1] == x);
                }
            }
        }
        assert(strictly_increasing(m)) by {
            assert forall|i: int, j: int| 0 <= i < j < m.len() implies m[i] < m[j] by {
                if i == 0 {
                    assert(rest.contains(rest[j - 1]));
                } else {
                    assert(m[i] == rest[i - 1] && m[j] == rest[j - 1]);
                }
            }
        }
        assert forall|x: u64| #[trigger] m.contains(x) implies (a.contains(x) || b.contains(
            x,
        )) by {
            let i = choose|i: int| 0 <= i < m.len() && m[i] == x;
            if i == 0 {
            } else {
                assert(rest[i - 1] == x);
                assert(rest.contains(x));
                if ra.contains(x) {
                    let w = choose|w: int| 0 <= w < ra.len() && ra[w] == x;
                    if a[0] <= b[0] {
                        assert(a[w + 1] == x);
                    }
                } else {
                    assert(rb.contains(x));
                    let w = choose|w: int| 0 <= w < rb.len() && rb[w] == x;
                    if !(a[0] <= b[0]) {
                        assert(b[w + 1] == x);
                    }
                }
            }
        }
        assert forall|x: u64| a.contains(x) || b.contains(x) implies #[trigger] m.contains(x) by {
            if x == h {
                assert(m[0] == x);
            } else {
                assert(rest.contains(x)) by {
                    if a.contains(x) {
                        let w = choose|w: int| 0 <= w < a.len() && a[w] == x;
                        if a[0] <= b[0] {
                            assert(w != 0);
                            assert(ra[w - 1] == x);
                            assert(ra.contains(x));
                        } else {
                            assert(ra.contains(x));
                        }
                    } else {
                        let w = choose|w: int| 0 <= w < b.len() && b[w] == x;
                        if a[0] <= b[0] {
                            assert(rb.contains(x));
                        } else {
                            assert(w != 0);
                            assert(rb[w - 1] == x);
                            assert(rb.contains(x));
                        }
                    }
                }
                let w = choose|w: int| 0 <= w < rest.len() && rest[w] == x;
                assert(m[w + 1] == x);
            }
        }
    }
}

/// Decide membership of `x` in `v`.
pub fn contains_value(v: &Vec<u64>, x: u64) -> (r: bool)
    ensures
        r == v@.contains(x),
{
    let mut i: usize = 0;
    while i < v.len()
        invariant
            i <= v@.len(),
            forall|t: int| 0 <= t < i ==> v@[t] != x,
        decreases v@.len() - i,
    {
        if v[i] == x {
            return true;
        }
        i = i + 1;
    }
    false
}

/// Duplicate a vector of plain values.
pub fn copy_values(v: &Vec<u64>) -> (out: Vec<u64>)
    ensures
        out@ == v@,
{
    let mut out: Vec<u64> = Vec::new();
    let mut i: usize = 0;
    while i < v.len()
        invariant
            i <= v@.len(),
            out@ == v@.take(i as int),
        decreases v@.len() - i,
    {
        out.push(v[i]);
        proof {
            assert(v@.take(i as int).push(v@[i as int]) =~= v@.take(i as int + 1));
        }
        i = i + 1;
    }
    proof {
        assert(v@.take(v@.len() as int) =~= v@);
    }
    out
}

/// The elements of `u` that do not occur in `s`, in their order in `u`.
pub fn diff_exec(u: &Vec<u64>, s: &Vec<u64>) -> (out: Vec<u64>)
    ensures
        out@ == diff(u@, s@),
{
    let mut out: Vec<u64> = Vec::new();
    let mut i: usize = 0;
    proof {
        assert(u@.skip(0) =~= u@);
        assert(Seq::<u64>::empty() + diff(u@, s@) =~= diff(u@, s@));
    }
    while i < u.len()
        invariant
            i <= u@.len(),
            out@ + diff(u@.skip(i as int), s@) == diff(u@, s@),
        decreases u@.len() - i,
    {
        let ghost pre = u@.skip(i as int);
        proof {
            assert(pre[0] == u@[i as int]);
            assert(pre.drop_first() =~= u@.skip(i as int + 1));
        }
        if !contains_value(s, u[i]) {
            out.push(u[i]);
            proof {
                assert(diff(pre, s@) == seq![u@[i as int]] + diff(u@.skip(i as int + 1), s@));
                assert(out@ + diff(u@.skip(i as int + 1), s@) =~= (out@.drop_last() + seq![
                    u@[i as int],
                ]) + diff(u@.skip(i as int + 1), s@));
                assert(out@.drop_last() =~= out@.subrange(0, out@.len() - 1));
                assert((out@.drop_last() + seq![u@[i as int]] + diff(u@.skip(i as int + 1), s@))
                    =~= out@.drop_last() + (seq![u@[i as int]] + diff(u@.skip(i as int + 1), s@)));
            }
        } else {
            proof {
                assert(diff(pre, s@) == diff(u@.skip(i as int + 1), s@));
            }
        }
        i = i + 1;
    }
    proof {
        assert(u@.skip(u@.len() as int) =~= Seq::<u64>::empty());
        assert(out@ + Seq::<u64>::empty() =~= out@);
    }
    out
}

/// Pick the values of `universe` named by the index sequence `combo`.
pub fn select_exec(universe: &Vec<u64>, combo: &Vec<u64>) -> (out: Vec<u64>)
    requires
        forall|i: int| 0 <= i < combo@.len() ==> (#[trigger] combo@[i] as int) < universe@.len(),
    ensures
        out@ == select(universe@, combo@),
{
    let mut out: Vec<u64> = Vec::new();
    let mut i: usize = 0;
    let ul: usize = universe.len();
    while i < combo.len()
        invariant
            i <= combo@.len(),
            universe@.len() == ul,
            forall|t: int| 0 <= t < combo@.len() ==> (#[trigger] combo@[t] as int)
                < universe@.len(),
            out@.len() == i,
            forall|t: int| 0 <= t < i ==> out@[t] == universe@[combo@[t] as int],
        decreases combo@.len() - i,
    {
        let idx = combo[i];
        proof {
            assert(universe@.len() <= usize::MAX);
            assert((idx as usize) as int == idx as int);
        }
        out.push(universe[idx as usize]);
        i = i + 1;
    }
    proof {
        assert(out@ =~= select(universe@, combo@));
    }
    out
}

/// Merge two ordered vectors.
pub fn merge_exec(a: &Vec<u64>, b: &Vec<u64>) -> (out: Vec<u64>)
    ensures
        out@ == merge_sorted(a@, b@),
{
    let mut out: Vec<u64> = Vec::new();
    let mut i: usize = 0;
    let mut j: usize = 0;
    proof {
        assert(a@.skip(0) =~= a@);
        assert(b@.skip(0) =~= b@);
        assert(Seq::<u64>::empty() + merge_sorted(a@, b@) =~= merge_sorted(a@, b@));
    }
    while i < a.len() || j < b.len()
        invariant
            i <= a@.len(),
            j <= b@.len(),
            out@ + merge_sorted(a@.skip(i as int), b@.skip(j as int)) == merge_sorted(a@, b@),
        decreases a@.len() - i + b@.len() - j,
    {
        let ghost ra = a@.skip(i as int);
        let ghost rb = b@.skip(j as int);
        proof {
            if i < a@.len() {
                assert(ra[0] == a@[i as int]);
                assert(ra.drop_first() =~= a@.skip(i as int + 1));
            }
            if j < b@.len() {
                assert(rb[0] == b@[j as int]);
                assert(rb.drop_first() =~= b@.skip(j as int + 1));
            }
        }
        let take_a = if j >= b.len() {
            true
        } else if i >= a.len() {
            false
        } else {
            a[i] <= b[j]
        };
        if take_a {
            out.push(a[i]);
            proof {
                if rb.len() == 0 {
                    assert(merge_sorted(ra, rb) == ra);
                    assert(ra =~= seq![a@[i as int]] + a@.skip(i as int + 1));
                    assert(merge_sorted(a@.skip(i as int + 1), rb) == a@.skip(i as int + 1));
                } else {
                    assert(merge_sorted(ra, rb) == seq![a@[i as int]] + merge_sorted(
                        a@.skip(i as int + 1),
                        rb,
                    ));
                }
                assert(out@ + merge_sorted(a@.skip(i as int + 1), rb) =~= out@.drop_last() + (seq![
                    a@[i as int],
                ] + merge_sorted(a@.skip(i as int + 1), rb)));
                assert(out@.drop_last() =~= out@.subrange(0, out@.len() - 1));
            }
            i = i + 1;
        } else {
            out.push(b[j]);
            proof {
                if ra.len() == 0 {
                    assert(merge_sorted(ra, rb) == rb);
                    assert(rb =~= seq![b@[j as int]] + b@.skip(j as int + 1));
                    assert(merge_sorted(ra, b@.skip(j as int + 1)) == b@.skip(j as int + 1));
                } else {
                    assert(merge_sorted(ra, rb) == seq![b@[j as int]] + merge_sorted(
                        ra,
                        b@.skip(j as int + 1),
                    ));
                }
                assert(out@ + merge_sorted(ra, b@.skip(j as int + 1)) =~= out@.drop_last() + (seq![
                    b@[j as int],
                ] + merge_sorted(ra, b@.skip(j as int + 1))));
                assert(out@.drop_last() =~= out@.subrange(0, out@.len() - 1));
            }
            j = j + 1;
        }
    }
    proof {
        assert(a@.skip(a@.len() as int) =~= Seq::<u64>::empty());
        assert(b@.skip(b@.len() as int) =~= Seq::<u64>::empty());
        assert(merge_sorted(Seq::<u64>::empty(), Seq::<u64>::empty()) =~= Seq::<u64>::empty());
        assert(out@ + Seq::<u64>::empty() =~= out@);
    }
    out
}

} // verus!
