//! The bounded top-K collector: a fixed-capacity structure that ingests
//! (fitness, candidate) entries and keeps exactly the K best seen so far,
//! under a total order that breaks fitness ties by the candidate's own
//! representation — so the retained set never depends on arrival order.

use vstd::prelude::*;

use vstd::set_lib::lemma_len_subset;
use vstd::set_lib::lemma_subset_equality;

verus! {

/// The mathematical shadow of an entry: its fitness and candidate contents.
pub type EntryView = (i64, Seq<u64>);

/// A scored candidate held by the collector.
pub struct Entry {
    pub fitness: i64,
    pub candidate: Vec<u64>,
}

impl View for Entry {
    type V = EntryView;

    open spec fn view(&self) -> EntryView {
        (self.fitness, self.candidate@)
    }
}

/// Strict lexicographic order on candidate contents.
pub open spec fn lex_less(a: Seq<u64>, b: Seq<u64>) -> bool
    decreases a.len(),
{
    if b.len() == 0 {
        false
    } else if a.len() == 0 {
        true
    } else if a[0] < b[0] {
        true
    } else if a[0] > b[0] {
        false
    } else {
        lex_less(a.drop_first(), b.drop_first())
    }
}

/// The collector's total order: `a` beats `b` when its fitness is strictly
/// higher, or equal with a lexicographically larger candidate.
pub open spec fn beats(a: EntryView, b: EntryView) -> bool {
    a.0 > b.0 || (a.0 == b.0 && lex_less(b.1, a.1))
}

/// Nothing is lexicographically below itself.
pub proof fn lemma_lex_irreflexive(a: Seq<u64>)
    ensures
        !lex_less(a, a),
    decreases a.len(),
{
    if a.len() > 0 {
        lemma_lex_irreflexive(a.drop_first());
    }
}

/// Two candidate sequences are equal or strictly ordered one way.
pub proof fn lemma_lex_total(a: Seq<u64>, b: Seq<u64>)
    ensures
        lex_less(a, b) || lex_less(b, a) || a == b,
    decreases a.len(),
{
    if a.len() > 0 && b.len() > 0 && a[0] == b[0] {
        lemma_lex_total(a.drop_first(), b.drop_first());
        if !lex_less(a, b) && !lex_less(b, a) {
            assert(a.drop_first() == b.drop_first());
            assert(a =~= b) by {
                assert(forall|i: int| 1 <= i < a.len() ==> a[i] == a.drop_first()[i - 1]);
                assert(forall|i: int| 1 <= i < b.len() ==> b[i] == b.drop_first()[i - 1]);
            }
        }
    }
}

/// At most one of `lex_less(a, b)` and `lex_less(b, a)` holds.
pub proof fn lemma_lex_asymmetric(a: Seq<u64>, b: Seq<u64>)
    ensures
        !(lex_less(a, b) && lex_less(b, a)),
    decreases a.len(),
{
    if a.len() > 0 && b.len() > 0 && a[0] == b[0] {
        lemma_lex_asymmetric(a.drop_first(), b.drop_first());
    }
}

/// Lexicographic order chains.
pub proof fn lemma_lex_transitive(a: Seq<u64>, b: Seq<u64>, c: Seq<u64>)
    requires
        lex_less(a, b),
        lex_less(b, c),
    ensures
        lex_less(a, c),
    decreases a.len(),
{
    if a.len() > 0 && b.len() > 0 && c.len() > 0 && a[0] == b[0] && b[0] == c[0] {
        lemma_lex_transitive(a.drop_first(), b.drop_first(), c.drop_first());
    }
}

/// `beats` never relates a view to itself.
pub proof fn lemma_beats_irreflexive(a: EntryView)
    ensures
        !beats(a, a),
{
    lemma_lex_irreflexive(a.1);
}

/// Distinct views are ordered one way or the other.
pub proof fn lemma_beats_total(a: EntryView, b: EntryView)
    ensures
        a == b || beats(a, b) || beats(b, a),
{
    if a.0 == b.0 {
        lemma_lex_total(a.1, b.1);
    }
}

/// At most one of `beats(a, b)` and `beats(b, a)` holds.
pub proof fn lemma_beats_asymmetric(a: EntryView, b: EntryView)
    ensures
        !(beats(a, b) && beats(b, a)),
{
    lemma_lex_asymmetric(a.1, b.1);
}

/// The collector's order chains.
pub proof fn lemma_beats_transitive(a: EntryView, b: EntryView, c: EntryView)
    requires
        beats(a, b),
        beats(b, c),
    ensures
        beats(a, c),
{
    if a.0 == b.0 && b.0 == c.0 {
        lemma_lex_transitive(c.1, b.1, a.1);
    }
}

/// Decide `lex_less` on candidate vectors.
fn lex_less_exec(a: &Vec<u64>, b: &Vec<u64>) -> (r: bool)
    ensures
        r == lex_less(a@, b@),
{
    let mut i: usize = 0;
    proof {
        assert(a@.skip(0) =~= a@);
        assert(b@.skip(0) =~= b@);
    }
    while i < a.len() && i < b.len()
        invariant
            i <= a.len(),
            i <= b.len(),
            lex_less(a@, b@) == lex_less(a@.skip(i as int), b@.skip(i as int)),
        decreases a.len() - i,
    {
        let ghost sa = a@.skip(i as int);
        let ghost sb = b@.skip(i as int);
        if a[i] < b[i] {
            assert(sa[0] < sb[0]);
            return true;
        }
        if a[i] > b[i] {
            assert(sa[0] > sb[0]);
            return false;
        }
        proof {
            assert(sa[0] == sb[0]);
            assert(sa.drop_first() =~= a@.skip(i as int + 1));
            assert(sb.drop_first() =~= b@.skip(i as int + 1));
        }
        i = i + 1;
    }
    proof {
        if a.len() <= b.len() {
            assert(a@.skip(i as int).len() == 0);
        } else {
            assert(b@.skip(i as int).len() == 0);
            assert(a@.skip(i as int).len() > 0);
        }
    }
    a.len() < b.len()
}

/// Decide `beats` on entries.
fn beats_exec(a: &Entry, b: &Entry) -> (r: bool)
    ensures
        r == beats(a@, b@),
{
    if a.fitness > b.fitness {
        true
    } else if a.fitness < b.fitness {
        false
    } else {
        lex_less_exec(&b.candidate, &a.candidate)
    }
}

/// Decide view equality on entries.
fn entry_same(a: &Entry, b: &Entry) -> (r: bool)
    ensures
        r == (a@ == b@),
{
    if a.fitness != b.fitness {
        return false;
    }
    if a.candidate.len() != b.candidate.len() {
        assert(a@.1.len() != b@.1.len());
        return false;
    }
    let mut i: usize = 0;
    while i < a.candidate.len()
        invariant
            i <= a.candidate.len(),
            a.candidate@.len() == b.candidate@.len(),
            a.fitness == b.fitness,
            forall|t: int| 0 <= t < i ==> a.candidate@[t] == b.candidate@[t],
        decreases a.candidate.len() - i,
    {
        if a.candidate[i] != b.candidate[i] {
            assert(a@.1[i as int] != b@.1[i as int]);
            return false;
        }
        i = i + 1;
    }
    proof {
        assert(a.candidate@ =~= b.candidate@);
    }
    true
}

/// The views of a sequence of entries.
pub open spec fn views_of(s: Seq<Entry>) -> Seq<EntryView> {
    s.map_values(|e: Entry| e.view())
}

/// Entries stand in strictly descending order of the collector's total
/// order.
pub open spec fn ranked(s: Seq<Entry>) -> bool {
    forall|i: int, j: int| 0 <= i < j < s.len() ==> beats(s[i]@, s[j]@)
}

/// `held` is exactly the best `k` of the `offered` views (or all of them,
/// when fewer than `k` were ever offered): it is a subset of the right size
/// of which every member beats every offered view left outside.
pub open spec fn is_topk(held: Set<EntryView>, offered: Set<EntryView>, k: nat) -> bool {
    &&& held.finite()
    &&& offered.finite()
    &&& held.subset_of(offered)
    &&& held.len() == if offered.len() <= k {
        offered.len()
    } else {
        k
    }
    &&& forall|h: EntryView, o: EntryView|
        held.contains(h) && offered.contains(o) && !held.contains(o) ==> beats(h, o)
}

/// A strictly ranked sequence has pairwise distinct views, and as many of
/// them as elements.
proof fn lemma_ranked_card(s: Seq<Entry>)
    requires
        ranked(s),
    ensures
        views_of(s).to_set().finite(),
        views_of(s).to_set().len() == s.len(),
        forall|i: int, j: int| 0 <= i < j < s.len() ==> s[i]@ != s[j]@,
{
    broadcast use vstd::seq_lib::seq_to_set_is_finite;

    let vs = views_of(s);
    assert forall|i: int, j: int| 0 <= i < j < s.len() implies s[i]@ != s[j]@ by {
        lemma_beats_irreflexive(s[i]@);
    }
    assert(vs.no_duplicates()) by {
        assert forall|i: int, j: int| 0 <= i < j < vs.len() implies vs[i] != vs[j] by {
            assert(vs[i] == s[i]@ && vs[j] == s[j]@);
        }
    }
    vs.unique_seq_to_set();
}

/// A view lies in the held set exactly when some entry carries it.
pub proof fn lemma_held_membership(s: Seq<Entry>, x: EntryView)
    ensures
        views_of(s).to_set().contains(x) <==> exists|i: int|
            0 <= i < s.len() && (#[trigger] s[i])@ == x,
{
    let vs = views_of(s);
    if vs.contains(x) {
        let i = choose|i: int| 0 <= i < vs.len() && vs[i] == x;
        assert(s[i]@ == x);
    }
    if exists|i: int| 0 <= i < s.len() && (#[trigger] s[i])@ == x {
        let i = choose|i: int| 0 <= i < s.len() && (#[trigger] s[i])@ == x;
        assert(vs[i] == x);
    }
}

/// A collector below capacity holds everything it was offered.
proof fn lemma_topk_saturated(held: Set<EntryView>, offered: Set<EntryView>, k: nat)
    requires
        is_topk(held, offered, k),
        held.len() < k,
    ensures
        held == offered,
{
    lemma_subset_equality(held, offered);
}

/// A view beaten at its insertion point, or beaten everywhere, is not held.
proof fn lemma_scan_not_held(s: Seq<Entry>, ev: EntryView, pos: int)
    requires
        ranked(s),
        0 <= pos <= s.len(),
        forall|t: int| 0 <= t < pos ==> beats((#[trigger] s[t])@, ev),
        pos < s.len() ==> (s[pos]@ != ev && !beats(s[pos]@, ev)),
    ensures
        !views_of(s).to_set().contains(ev),
{
    if views_of(s).to_set().contains(ev) {
        lemma_held_membership(s, ev);
        let i = choose|i: int| 0 <= i < s.len() && (#[trigger] s[i])@ == ev;
        if i < pos {
            lemma_beats_irreflexive(ev);
        } else if i > pos {
            assert(beats(s[pos]@, s[i]@));
        }
        assert(false);
    }
}

/// Past its insertion point, a new view beats every entry.
proof fn lemma_scan_beats_tail(s: Seq<Entry>, ev: EntryView, pos: int)
    requires
        ranked(s),
        0 <= pos < s.len(),
        !beats(s[pos]@, ev),
        s[pos]@ != ev,
    ensures
        forall|t: int| pos <= t < s.len() ==> beats(ev, (#[trigger] s[t])@),
{
    lemma_beats_total(ev, s[pos]@);
    assert forall|t: int| pos <= t < s.len() implies beats(ev, (#[trigger] s[t])@) by {
        if t > pos {
            lemma_beats_transitive(ev, s[pos]@, s[t]@);
        }
    }
}

/// Inserting at the scan position preserves strict ranking.
proof fn lemma_insert_ranked(s: Seq<Entry>, e: Entry, pos: int)
    requires
        ranked(s),
        0 <= pos <= s.len(),
        forall|t: int| 0 <= t < pos ==> beats((#[trigger] s[t])@, e@),
        forall|t: int| pos <= t < s.len() ==> beats(e@, (#[trigger] s[t])@),
    ensures
        ranked(s.insert(pos, e)),
{
    let s2 = s.insert(pos, e);
    assert(forall|t: int| 0 <= t < pos ==> s2[t] == s[t]);
    assert(s2[pos] == e);
    assert(forall|t: int| pos < t < s2.len() ==> s2[t] == s[t - 1]);
    assert forall|i: int, j: int| 0 <= i < j < s2.len() implies beats(s2[i]@, s2[j]@) by {
        if i < pos && j < pos {
        } else if i < pos && j == pos {
        } else if i == pos {
            assert(beats(e@, s[j - 1]@));
        } else if i < pos && j > pos {
            assert(beats(s[i]@, s[j - 1]@));
        } else if i > pos {
            assert(beats(s[i - 1]@, s[j - 1]@));
        }
    }
}

/// Offering a new view to a collector below capacity inserts it.
proof fn lemma_offer_insert(s: Seq<Entry>, off: Set<EntryView>, k: nat, e: Entry, pos: int)
    requires
        ranked(s),
        is_topk(views_of(s).to_set(), off, k),
        s.len() < k,
        0 <= pos <= s.len(),
        forall|t: int| 0 <= t < pos ==> beats((#[trigger] s[t])@, e@),
        pos < s.len() ==> (s[pos]@ != e@ && !beats(s[pos]@, e@)),
    ensures
        ranked(s.insert(pos, e)),
        is_topk(views_of(s.insert(pos, e)).to_set(), off.insert(e@), k),
{
    lemma_ranked_card(s);
    lemma_topk_saturated(views_of(s).to_set(), off, k);
    lemma_scan_not_held(s, e@, pos);
    if pos < s.len() {
        lemma_scan_beats_tail(s, e@, pos);
    }
    lemma_insert_ranked(s, e, pos);
    let s2 = s.insert(pos, e);
    lemma_ranked_card(s2);
    assert(views_of(s2).to_set() =~= off.insert(e@)) by {
        lemma_held_membership(s2, e@);
        assert forall|x: EntryView| views_of(s2).to_set().contains(x) implies off.insert(
            e@,
        ).contains(x) by {
            lemma_held_membership(s2, x);
            let i = choose|i: int| 0 <= i < s2.len() && (#[trigger] s2[i])@ == x;
            if i != pos {
                lemma_held_membership(s, x);
                let t = if i < pos {
                    i
                } else {
                    i - 1
                };
                assert(s[t]@ == x);
            }
        }
        assert forall|x: EntryView| off.insert(e@).contains(x) implies views_of(
            s2,
        ).to_set().contains(x) by {
            if x == e@ {
                assert(s2[pos]@ == x);
                lemma_held_membership(s2, x);
            } else {
                lemma_held_membership(s, x);
                let t = choose|t: int| 0 <= t < s.len() && (#[trigger] s[t])@ == x;
                let i = if t < pos {
                    t
                } else {
                    t + 1
                };
                assert(s2[i]@ == x);
                lemma_held_membership(s2, x);
            }
        }
    }
}

/// Offering a winning view to a full collector evicts the worst entry.
proof fn lemma_offer_evict(s: Seq<Entry>, off: Set<EntryView>, k: nat, e: Entry, pos: int)
    requires
        ranked(s),
        is_topk(views_of(s).to_set(), off, k),
        s.len() == k,
        k >= 1,
        0 <= pos < s.len(),
        forall|t: int| 0 <= t < pos ==> beats((#[trigger] s[t])@, e@),
        s[pos]@ != e@,
        !beats(s[pos]@, e@),
    ensures
        ranked(s.insert(pos, e).drop_last()),
        s.insert(pos, e).drop_last().len() == k,
        is_topk(views_of(s.insert(pos, e).drop_last()).to_set(), off.insert(e@), k),
{
    lemma_ranked_card(s);
    lemma_scan_not_held(s, e@, pos);
    lemma_scan_beats_tail(s, e@, pos);
    lemma_insert_ranked(s, e, pos);
    let s2 = s.insert(pos, e);
    let s3 = s2.drop_last();
    let w = s[k - 1];
    assert(forall|t: int| 0 <= t < s3.len() ==> s3[t] == s2[t]);
    assert(forall|t: int| 0 <= t < pos ==> s2[t] == s[t]);
    assert(s2[pos] == e);
    assert(forall|t: int| pos < t < s2.len() ==> s2[t] == s[t - 1]);
    assert(s2[k as int] == w);
    lemma_ranked_card(s2);
    lemma_ranked_card(s3);
    let held = views_of(s).to_set();
    let held3 = views_of(s3).to_set();
    // e@ was never offered before: otherwise the entry at the scan position
    // would have to beat it.
    assert(!off.contains(e@)) by {
        if off.contains(e@) {
            lemma_held_membership(s, s[pos]@);
            assert(views_of(s).to_set().contains(s[pos]@));
            assert(beats(s[pos]@, e@));
        }
    }
    assert(held3 =~= held.insert(e@).remove(w@)) by {
        assert forall|x: EntryView| held3.contains(x) implies held.insert(e@).remove(w@).contains(
            x,
        ) by {
            lemma_held_membership(s3, x);
            let i = choose|i: int| 0 <= i < s3.len() && (#[trigger] s3[i])@ == x;
            if i == pos {
                assert(x == e@);
                assert(e@ != w@) by {
                    lemma_held_membership(s, w@);
                }
            } else {
                let t = if i < pos {
                    i
                } else {
                    i - 1
                };
                assert(s[t]@ == x);
                lemma_held_membership(s, x);
                assert(t < k - 1);
                assert(x != w@);
            }
        }
        assert forall|x: EntryView| held.insert(e@).remove(w@).contains(x) implies held3.contains(
            x,
        ) by {
            if x == e@ {
                assert(s3[pos]@ == x);
                lemma_held_membership(s3, x);
            } else {
                lemma_held_membership(s, x);
                let t = choose|t: int| 0 <= t < s.len() && (#[trigger] s[t])@ == x;
                assert(t != k - 1);
                let i = if t < pos {
                    t
                } else {
                    t + 1
                };
                assert(s2[i]@ == x);
                assert(i < s3.len());
                lemma_held_membership(s3, x);
            }
        }
    }
    assert(held.contains(w@)) by {
        lemma_held_membership(s, w@);
    }
    assert(beats(e@, w@)) by {
        lemma_beats_total(e@, s[pos]@);
        if pos < k - 1 {
            lemma_beats_transitive(e@, s[pos]@, w@);
        }
    }
    assert forall|h: EntryView, o: EntryView|
        held3.contains(h) && off.insert(e@).contains(o) && !held3.contains(o) implies beats(
        h,
        o,
    ) by {
        lemma_held_membership(s3, h);
        assert(o != e@);
        if o == w@ {
            let i = choose|i: int| 0 <= i < s3.len() && (#[trigger] s3[i])@ == h;
            if i == pos {
                assert(beats(e@, w@));
            } else {
                let t = if i < pos {
                    i
                } else {
                    i - 1
                };
                assert(s[t]@ == h && t < k - 1);
                assert(beats(s[t]@, s[k - 1]@));
            }
        } else {
            // o was already outside the old collector
            assert(off.contains(o) && !held.contains(o)) by {
                lemma_held_membership(s, o);
                if held.contains(o) {
                    let t = choose|t: int| 0 <= t < s.len() && (#[trigger] s[t])@ == o;
                    assert(t == k - 1);
                }
            }
            let i = choose|i: int| 0 <= i < s3.len() && (#[trigger] s3[i])@ == h;
            if i == pos {
                assert(beats(w@, o));
                lemma_beats_transitive(e@, w@, o);
            } else {
                let t = if i < pos {
                    i
                } else {
                    i - 1
                };
                assert(s[t]@ == h);
                lemma_held_membership(s, h);
                assert(held.contains(h));
                assert(beats(h, o));
            }
        }
    }
}

/// A view beaten throughout a full collector is discarded.
proof fn lemma_offer_discard(s: Seq<Entry>, off: Set<EntryView>, k: nat, e: Entry)
    requires
        ranked(s),
        is_topk(views_of(s).to_set(), off, k),
        s.len() == k,
        forall|t: int| 0 <= t < s.len() ==> beats((#[trigger] s[t])@, e@),
    ensures
        is_topk(views_of(s).to_set(), off.insert(e@), k),
{
    lemma_ranked_card(s);
    lemma_scan_not_held(s, e@, s.len() as int);
    let held = views_of(s).to_set();
    assert forall|h: EntryView, o: EntryView|
        held.contains(h) && off.insert(e@).contains(o) && !held.contains(o) implies beats(
        h,
        o,
    ) by {
        if o == e@ {
            lemma_held_membership(s, h);
            let i = choose|i: int| 0 <= i < s.len() && (#[trigger] s[i])@ == h;
            assert(beats(s[i]@, e@));
        }
    }
}

/// Find where a new entry belongs in a ranked vector: the first position
/// whose entry does not beat it.
fn find_pos(entries: &Vec<Entry>, e: &Entry) -> (pos: usize)
    requires
        ranked(entries@),
    ensures
        pos <= entries@.len(),
        forall|t: int| 0 <= t < pos ==> beats((#[trigger] entries@[t])@, e@),
        pos < entries@.len() ==> !beats(entries@[pos as int]@, e@),
{
    let mut i: usize = 0;
    while i < entries.len()
        invariant
            i <= entries@.len(),
            forall|t: int| 0 <= t < i ==> beats((#[trigger] entries@[t])@, e@),
        decreases entries@.len() - i,
    {
        if !beats_exec(&entries[i], e) {
            return i;
        }
        i = i + 1;
    }
    i
}

/// A bounded collector of the K best entries seen so far.
///
/// `offered` is the ghost record of every view ever offered; `wf` ties the
/// held entries to exactly the best `capacity` of them.
pub struct TopK {
    pub capacity: usize,
    pub entries: Vec<Entry>,
    pub offered: Ghost<Set<EntryView>>,
}

impl TopK {
    /// The set of views currently held.
    pub open spec fn held(self) -> Set<EntryView> {
        views_of(self.entries@).to_set()
    }

    /// The collector's invariant: entries are strictly ranked, fit the
    /// capacity, and are exactly the best of everything offered.
    pub open spec fn wf(self) -> bool {
        &&& self.offered@.finite()
        &&& self.entries@.len() <= self.capacity
        &&& ranked(self.entries@)
        &&& is_topk(self.held(), self.offered@, self.capacity as nat)
    }

    /// An empty collector with capacity `capacity`.
    pub fn new(capacity: usize) -> (c: TopK)
        ensures
            c.wf(),
            c.capacity == capacity,
            c.offered@ == Set::<EntryView>::empty(),
            c.entries@.len() == 0,
    {
        let c = TopK { capacity, entries: Vec::new(), offered: Ghost(Set::empty()) };
        proof {
            assert(views_of(c.entries@).to_set() =~= Set::<EntryView>::empty());
        }
        c
    }

    /// Offer one entry: insert it if the collector is below capacity,
    /// replace the worst held entry if the new one beats it, drop it
    /// otherwise. A view already held is absorbed without effect.
    pub fn offer(&mut self, e: Entry)
        requires
            old(self).wf(),
        ensures
            final(self).wf(),
            final(self).capacity == old(self).capacity,
            final(self).offered@ == old(self).offered@.insert(e@),
    {
        let ghost oldoff = self.offered@;
        if self.capacity == 0 {
            proof {
                assert(views_of(self.entries@).to_set() =~= Set::<EntryView>::empty());
            }
            self.offered = Ghost(oldoff.insert(e@));
            return ;
        }
        let pos = find_pos(&self.entries, &e);
        if pos < self.entries.len() {
            if entry_same(&self.entries[pos], &e) {
                proof {
                    lemma_held_membership(self.entries@, e@);
                    assert(self.held().contains(e@));
                    assert(oldoff.insert(e@) =~= oldoff);
                }
                self.offered = Ghost(oldoff.insert(e@));
                return ;
            }
        }
        if self.entries.len() < self.capacity {
            proof {
                lemma_offer_insert(self.entries@, oldoff, self.capacity as nat, e, pos as int);
            }
            self.entries.insert(pos, e);
            self.offered = Ghost(oldoff.insert(e@));
        } else if pos < self.entries.len() {
            proof {
                lemma_offer_evict(self.entries@, oldoff, self.capacity as nat, e, pos as int);
            }
            let ghost s2 = self.entries@.insert(pos as int, e);
            self.entries.insert(pos, e);
            let _ = self.entries.pop();
            proof {
                assert(self.entries@ =~= s2.drop_last());
            }
            self.offered = Ghost(oldoff.insert(e@));
        } else {
            proof {
                lemma_offer_discard(self.entries@, oldoff, self.capacity as nat, e);
            }
            self.offered = Ghost(oldoff.insert(e@));
        }
    }

    /// Fold every entry of `other` into `self`.
    ///
    /// The result accounts for everything either collector was ever offered,
    /// not merely for what `other` still held.
    pub fn merge(&mut self, other: TopK)
        requires
            old(self).wf(),
            other.wf(),
            old(self).capacity == other.capacity,
        ensures
            final(self).wf(),
            final(self).capacity == old(self).capacity,
            final(self).offered@ == old(self).offered@.union(other.offered@),
    {
        let ghost oldoff = self.offered@;
        let ghost othoff = other.offered@;
        let ghost othheld = other.held();
        let ghost k = self.capacity as nat;
        let TopK { capacity: _, entries: mut rem, offered: _ } = other;
        let ghost orig = rem@;
        proof {
            assert(orig.skip(orig.len() as int) =~= Seq::<Entry>::empty());
            assert(views_of(Seq::<Entry>::empty()).to_set() =~= Set::<EntryView>::empty());
            assert(oldoff.union(Set::<EntryView>::empty()) =~= oldoff);
            assert(rem@ =~= orig.take(rem@.len() as int));
        }
        while rem.len() > 0
            invariant
                self.wf(),
                self.capacity as nat == k,
                rem@.len() <= orig.len(),
                rem@ == orig.take(rem@.len() as int),
                self.offered@ == oldoff.union(
                    views_of(orig.skip(rem@.len() as int)).to_set(),
                ),
            decreases rem@.len(),
        {
            let ghost len0 = rem@.len() as int;
            let e = match rem.pop() {
                Some(e) => e,
                None => {
                    proof {
                        assert(false);
                    }
                    return ;
                },
            };
            proof {
                assert(e == orig[len0 - 1]);
                assert(rem@ =~= orig.take(len0 - 1));
                assert(orig.skip(len0 - 1)[0] == orig[len0 - 1]);
            }
            self.offer(e);
            proof {
                assert(views_of(orig.skip(len0 - 1)).to_set() =~= views_of(
                    orig.skip(len0),
                ).to_set().insert(e@)) by {
                    let sa = orig.skip(len0 - 1);
                    let sb = orig.skip(len0);
                    assert(forall|t: int| 0 <= t < sb.len() ==> sb[t] == sa[t + 1]);
                    assert forall|x: EntryView| views_of(sa).to_set().contains(x) implies views_of(
                        sb,
                    ).to_set().insert(e@).contains(x) by {
                        lemma_held_membership(sa, x);
                        let i = choose|i: int| 0 <= i < sa.len() && (#[trigger] sa[i])@ == x;
                        if i > 0 {
                            assert(sb[i - 1]@ == x);
                            lemma_held_membership(sb, x);
                        }
                    }
                    assert forall|x: EntryView| views_of(sb).to_set().insert(e@).contains(
                        x,
                    ) implies views_of(sa).to_set().contains(x) by {
                        if x == e@ {
                            assert(sa[0]@ == x);
                        } else {
                            lemma_held_membership(sb, x);
                            let i = choose|i: int| 0 <= i < sb.len() && (#[trigger] sb[i])@ == x;
                            assert(sa[i + 1]@ == x);
                        }
                        lemma_held_membership(sa, x);
                    }
                }
                assert(self.offered@ =~= oldoff.union(
                    views_of(orig.skip(rem@.len() as int)).to_set(),
                ));
            }
        }
        proof {
            assert(orig.skip(0) =~= orig);
            assert(self.offered@ == oldoff.union(othheld));
            lemma_topk_absorb(self.held(), oldoff, othheld, othoff, k);
            assert(oldoff.union(othheld).subset_of(oldoff.union(othoff))) by {
                assert(othheld.subset_of(othoff));
            }
        }
        self.offered = Ghost(oldoff.union(othoff));
    }

    /// Surrender the held entries, best first.
    pub fn drain_sorted(self) -> (out: Vec<Entry>)
        requires
            self.wf(),
        ensures
            ranked(out@),
            out@.len() <= self.capacity,
            views_of(out@).to_set() == self.held(),
            is_topk(views_of(out@).to_set(), self.offered@, self.capacity as nat),
    {
        self.entries
    }
}

/// Everything a full collector ever dropped was beaten: absorbing the whole
/// offered record of a merged-in collector preserves the top-K property.
proof fn lemma_topk_absorb(
    h2: Set<EntryView>,
    s1: Set<EntryView>,
    ho: Set<EntryView>,
    so: Set<EntryView>,
    k: nat,
)
    requires
        is_topk(h2, s1.union(ho), k),
        is_topk(ho, so, k),
    ensures
        is_topk(h2, s1.union(so), k),
{
    broadcast use vstd::set::group_set_axioms;

    let u1 = s1.union(ho);
    let u2 = s1.union(so);
    assert(u1.subset_of(u2)) by {
        assert(ho.subset_of(so));
    }
    assert(s1.subset_of(u1));
    vstd::set_lib::lemma_set_subset_finite(u1, s1);
    lemma_len_subset(u1, u2);
    if u1.len() < k {
        lemma_topk_saturated(h2, u1, k);
        if ho.len() < k {
            lemma_topk_saturated(ho, so, k);
            assert(u1 =~= u2);
        } else {
            lemma_len_subset(ho, u1);
            assert(false);
        }
    } else {
        // h2 stays a full collector over the larger record
        assert(h2.len() == k);
        assert forall|h: EntryView, o: EntryView|
            h2.contains(h) && u2.contains(o) && !h2.contains(o) implies beats(h, o) by {
            if u1.contains(o) {
            } else {
                assert(so.contains(o) && !ho.contains(o));
                if ho.len() < k {
                    lemma_topk_saturated(ho, so, k);
                    assert(false);
                }
                if !beats(h, o) {
                    lemma_beats_total(h, o);
                    assert(beats(o, h));
                    assert forall|g: EntryView| ho.contains(g) implies h2.contains(g) && g
                        != h by {
                        assert(beats(g, o));
                        lemma_beats_transitive(g, o, h);
                        if !h2.contains(g) {
                            assert(u1.contains(g));
                            assert(beats(h, g));
                            lemma_beats_asymmetric(h, g);
                        }
                        if g == h {
                            lemma_beats_irreflexive(h);
                        }
                    }
                    assert(ho.subset_of(h2.remove(h)));
                    lemma_len_subset(ho, h2.remove(h));
                    assert(false);
                }
            }
        }
    }
}

/// One offered record, one capacity, one held set: the best `k` of a set of
/// views is unique, so a collector's content never depends on the order in
/// which entries arrived or partial collectors were merged.
pub proof fn lemma_topk_unique(a: Set<EntryView>, b: Set<EntryView>, s: Set<EntryView>, k: nat)
    requires
        is_topk(a, s, k),
        is_topk(b, s, k),
    ensures
        a == b,
{
    if !a.subset_of(b) {
        let x = choose|x: EntryView| a.contains(x) && !b.contains(x);
        if b.subset_of(a) {
            lemma_subset_equality(b, a);
            assert(false);
        }
        let y = choose|y: EntryView| b.contains(y) && !a.contains(y);
        assert(beats(x, y));
        assert(beats(y, x));
        lemma_beats_asymmetric(x, y);
        assert(false);
    }
    lemma_subset_equality(a, b);
}

/// Collectors that saw the same offered record under the same capacity hold
/// the same entries, whatever the interleaving of offers and merges.
pub proof fn lemma_collectors_agree(a: TopK, b: TopK)
    requires
        a.wf(),
        b.wf(),
        a.capacity == b.capacity,
        a.offered@ == b.offered@,
    ensures
        a.held() == b.held(),
{
    lemma_topk_unique(a.held(), b.held(), a.offered@, a.capacity as nat);
}

} // verus!
