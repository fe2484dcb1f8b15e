//! The running five-nearest-neighbour list.
//!
//! A candidate is a triple `(squared distance, dataset position, label)`.
//! Candidates are ordered by `(distance, position)`: the smaller distance
//! wins, and on equal distances the smaller dataset position wins.
use vstd::prelude::*;

verus! {

/// `(squared distance, dataset position, label)`.
pub type Cand = (u64, u32, u8);

/// `(da, ia)` comes strictly before `(db, ib)` in the neighbour order.
pub open spec fn key_lt(da: u64, ia: u32, db: u64, ib: u32) -> bool {
    da < db || (da == db && ia < ib)
}

/// Candidate `a` is strictly nearer than candidate `b` (labels play no part).
pub open spec fn better(a: Cand, b: Cand) -> bool {
    key_lt(a.0, a.1, b.0, b.1)
}

/// The value of an empty slot.
pub open spec fn sentinel() -> Cand {
    (u64::MAX, u32::MAX, 0u8)
}

/// Abstract state of the list: five slots and the index of the farthest one.
pub struct Ranking {
    pub slots: Seq<Cand>,
    pub worst: int,
}

/// Index of the farthest slot, found by the same left-to-right tournament
/// that the executable code runs.
pub open spec fn worst_of(s: Seq<Cand>) -> int {
    let w1 = if better(s[0], s[1]) { 1int } else { 0int };
    let w2 = if better(s[w1], s[2]) { 2int } else { w1 };
    let w3 = if better(s[w2], s[3]) { 3int } else { w2 };
    if better(s[w3], s[4]) { 4int } else { w3 }
}

/// Five slots, `worst` names a slot, and no slot is farther than it.
pub open spec fn ranking_wf(m: Ranking) -> bool {
    &&& m.slots.len() == 5
    &&& 0 <= m.worst < 5
    &&& forall|k: int| 0 <= k < 5 ==> !#[trigger] better(m.slots[m.worst], m.slots[k])
}

/// The farthest kept candidate.
pub open spec fn worst_cand(m: Ranking) -> Cand {
    m.slots[m.worst]
}

/// Offer one candidate: it replaces the farthest slot when it is strictly
/// nearer than it, and the farthest slot is then recomputed.
pub open spec fn knn_insert(m: Ranking, c: Cand) -> Ranking {
    if better(c, m.slots[m.worst]) {
        let s2 = m.slots.update(m.worst, c);
        Ranking { slots: s2, worst: worst_of(s2) }
    } else {
        m
    }
}

/// Offer every candidate of `cs`, in order.
pub open spec fn knn_insert_all(m: Ranking, cs: Seq<Cand>) -> Ranking
    decreases cs.len(),
{
    if cs.len() == 0 {
        m
    } else {
        knn_insert(knn_insert_all(m, cs.drop_last()), cs.last())
    }
}

/// Number of fraud labels (label 1) among the slots.
pub open spec fn fraud_count(s: Seq<Cand>) -> int
    decreases s.len(),
{
    if s.len() == 0 {
        0
    } else {
        fraud_count(s.drop_last()) + if s.last().2 == 1 { 1int } else { 0int }
    }
}

/// The running list of the five nearest candidates seen so far.
#[derive(Clone, Copy)]
pub struct Top5 {
    pub best_d: [u64; 5],
    pub best_id: [u32; 5],
    pub best_l: [u8; 5],
    pub worst: usize,
    pub worst_d: u64,
    pub worst_id: u32,
}

impl Top5 {
    /// The five slots as candidates.
    pub open spec fn model(self) -> Ranking {
        Ranking {
            slots: Seq::new(5, |k: int| (self.best_d[k], self.best_id[k], self.best_l[k])),
            worst: self.worst as int,
        }
    }

    /// The cached farthest key matches the farthest slot.
    pub open spec fn wf(self) -> bool {
        &&& ranking_wf(self.model())
        &&& self.worst_d == self.best_d[self.worst as int]
        &&& self.worst_id == self.best_id[self.worst as int]
    }

    /// An empty list: every slot holds the sentinel.
    pub fn new() -> (t: Self)
        ensures
            t.wf(),
            t.model().slots == Seq::new(5, |k: int| sentinel()),
            t.model().worst == 0,
    {
        let t = Top5 {
            best_d: [u64::MAX, u64::MAX, u64::MAX, u64::MAX, u64::MAX],
            best_id: [u32::MAX, u32::MAX, u32::MAX, u32::MAX, u32::MAX],
            best_l: [0, 0, 0, 0, 0],
            worst: 0,
            worst_d: u64::MAX,
            worst_id: u32::MAX,
        };
        assert(t.model().slots =~= Seq::new(5, |k: int| sentinel()));
        t
    }

    /// Number of kept candidates labelled fraud.
    pub fn frauds(&self) -> (n: i32)
        ensures
            n == fraud_count(self.model().slots),
            0 <= n <= 5,
    {
        let ghost s = self.model().slots;
        let mut n: i32 = 0;
        let mut i: usize = 0;
        while i < 5
            invariant
                0 <= i <= 5,
                s == self.model().slots,
                n == fraud_count(s.subrange(0, i as int)),
                0 <= n <= i,
            decreases 5 - i,
        {
            assert(s.subrange(0, i + 1).drop_last() =~= s.subrange(0, i as int));
            if self.best_l[i] == 1 {
                n += 1;
            }
            i += 1;
        }
        assert(s.subrange(0, 5) =~= s);
        n
    }

    /// Offer `(d, label, oid)`: it replaces the farthest slot when it is
    /// strictly nearer than it.
    pub fn try_insert(&mut self, d: u64, label: u8, oid: u32)
        requires
            old(self).wf(),
        ensures
            final(self).wf(),
            final(self).model() == knn_insert(old(self).model(), (d, oid, label)),
    {
        if !is_better(d, oid, self.worst_d, self.worst_id) {
            return;
        }
        let ghost m0 = self.model();
        let w = self.worst;
        self.best_d[w] = d;
        self.best_l[w] = label;
        self.best_id[w] = oid;
        let ghost s2 = m0.slots.update(w as int, (d, oid, label));
        assert(self.model().slots =~= s2);
        let nw = find_worst(&self.best_d, &self.best_id);
        self.worst = nw;
        self.worst_d = self.best_d[nw];
        self.worst_id = self.best_id[nw];
        proof {
            lemma_worst_of_is_farthest(s2);
        }
        assert(self.model().slots =~= s2);
    }
}

/// `(da, ia)` is strictly nearer than `(db, ib)`.
pub fn is_better(da: u64, ia: u32, db: u64, ib: u32) -> (r: bool)
    ensures
        r == key_lt(da, ia, db, ib),
{
    da < db || (da == db && ia < ib)
}

/// `(da, ia)` is strictly farther than `(db, ib)`.
pub fn is_worse(da: u64, ia: u32, db: u64, ib: u32) -> (r: bool)
    ensures
        r == key_lt(db, ib, da, ia),
{
    da > db || (da == db && ia > ib)
}

fn find_worst(d: &[u64; 5], id: &[u32; 5]) -> (w: usize)
    ensures
        w as int == worst_of(Seq::new(5, |k: int| (d[k], id[k], 0u8))),
        w < 5,
{
    let mut w: usize = 0;
    if is_worse(d[1], id[1], d[w], id[w]) {
        w = 1;
    }
    if is_worse(d[2], id[2], d[w], id[w]) {
        w = 2;
    }
    if is_worse(d[3], id[3], d[w], id[w]) {
        w = 3;
    }
    if is_worse(d[4], id[4], d[w], id[w]) {
        w = 4;
    }
    w
}

/// The tournament picks a slot that no other slot is farther than.
pub proof fn lemma_worst_of_is_farthest(s: Seq<Cand>)
    requires
        s.len() == 5,
    ensures
        0 <= worst_of(s) < 5,
        forall|k: int| 0 <= k < 5 ==> !#[trigger] better(s[worst_of(s)], s[k]),
{
}


/// Candidates at different positions have different keys.
pub open spec fn distinct_keys(all: Seq<Cand>) -> bool {
    forall|i: int, j: int|
        0 <= i < all.len() && 0 <= j < all.len() && i != j ==> (#[trigger] all[i].0 != all[j].0
            || all[i].1 != #[trigger] all[j].1)
}

/// No candidate is as far as an empty slot.
pub open spec fn below_sentinel(all: Seq<Cand>) -> bool {
    forall|i: int| 0 <= i < all.len() ==> #[trigger] all[i].0 < u64::MAX
}

/// `m` keeps the nearest candidates among the positions `seen` of `all`:
/// every slot is empty or holds a seen candidate, the occupied slots are
/// pairwise different, and every seen candidate is kept or is no nearer
/// than the farthest kept one.
pub open spec fn keeps_best(m: Ranking, all: Seq<Cand>, seen: Set<int>) -> bool {
    &&& ranking_wf(m)
    &&& forall|k: int|
        0 <= k < 5 ==> #[trigger] m.slots[k] == sentinel() || exists|i: int|
            seen.contains(i) && 0 <= i < all.len() && m.slots[k] == all[i]
    &&& forall|i: int|
        #[trigger] seen.contains(i) ==> 0 <= i < all.len() && (m.slots.contains(all[i])
            || !better(all[i], worst_cand(m)))
    &&& forall|k1: int, k2: int|
        0 <= k1 < 5 && 0 <= k2 < 5 && k1 != k2 && m.slots[k1] != sentinel() ==> #[trigger] m.slots[k1]
            != #[trigger] m.slots[k2]
}

/// Offering a candidate never makes the farthest kept candidate farther,
/// and keeps the list well formed.
pub proof fn lemma_insert_never_farther(m: Ranking, c: Cand)
    requires
        ranking_wf(m),
    ensures
        ranking_wf(knn_insert(m, c)),
        !better(worst_cand(m), worst_cand(knn_insert(m, c))),
{
    if better(c, m.slots[m.worst]) {
        let s2 = m.slots.update(m.worst, c);
        lemma_worst_of_is_farthest(s2);
        let w2 = worst_of(s2);
        if w2 != m.worst {
            assert(!better(m.slots[m.worst], m.slots[w2]));
        }
    }
}

/// Offering every candidate of a sequence never makes the farthest kept
/// candidate farther.
pub proof fn lemma_insert_all_never_farther(m: Ranking, cs: Seq<Cand>)
    requires
        ranking_wf(m),
    ensures
        ranking_wf(knn_insert_all(m, cs)),
        !better(worst_cand(m), worst_cand(knn_insert_all(m, cs))),
    decreases cs.len(),
{
    if cs.len() > 0 {
        lemma_insert_all_never_farther(m, cs.drop_last());
        lemma_insert_never_farther(knn_insert_all(m, cs.drop_last()), cs.last());
    }
}

/// The empty list keeps the best of nothing.
pub proof fn lemma_empty_keeps_best(all: Seq<Cand>)
    ensures
        keeps_best(
            Ranking { slots: Seq::new(5, |k: int| sentinel()), worst: 0 },
            all,
            Set::empty(),
        ),
{
}

/// A candidate that is no nearer than the farthest kept one may be passed
/// over without breaking `keeps_best`.
pub proof fn lemma_skip_keeps_best(m: Ranking, all: Seq<Cand>, seen: Set<int>, i: int)
    requires
        keeps_best(m, all, seen),
        0 <= i < all.len(),
        !better(all[i], worst_cand(m)),
    ensures
        keeps_best(m, all, seen.insert(i)),
{
    assert forall|k: int| 0 <= k < 5 && #[trigger] m.slots[k] != sentinel() implies exists|j: int|
        seen.insert(i).contains(j) && 0 <= j < all.len() && m.slots[k] == all[j] by {
        let j = choose|j: int| seen.contains(j) && 0 <= j < all.len() && m.slots[k] == all[j];
        assert(seen.insert(i).contains(j));
    }
}

/// Offering a candidate at a fresh position keeps `keeps_best`, with that
/// position now seen.
pub proof fn lemma_insert_keeps_best(m: Ranking, all: Seq<Cand>, seen: Set<int>, i: int)
    requires
        keeps_best(m, all, seen),
        distinct_keys(all),
        below_sentinel(all),
        0 <= i < all.len(),
        !seen.contains(i),
    ensures
        keeps_best(knn_insert(m, all[i]), all, seen.insert(i)),
{
    let c = all[i];
    let m2 = knn_insert(m, c);
    lemma_insert_never_farther(m, c);
    if !better(c, m.slots[m.worst]) {
        lemma_skip_keeps_best(m, all, seen, i);
    } else {
        let w = m.worst;
        let s2 = m2.slots;
        assert(s2 == m.slots.update(w, c));
        let seen2 = seen.insert(i);
        // Every slot is empty or holds a seen candidate.
        assert forall|k: int| 0 <= k < 5 && #[trigger] s2[k] != sentinel() implies exists|j: int|
            seen2.contains(j) && 0 <= j < all.len() && s2[k] == all[j] by {
            if k == w {
                assert(seen2.contains(i));
            } else {
                assert(s2[k] == m.slots[k]);
                let j = choose|j: int| seen.contains(j) && 0 <= j < all.len() && m.slots[k] == all[j];
                assert(seen2.contains(j));
            }
        }
        // Every seen candidate is kept or no nearer than the farthest one.
        assert forall|j: int| #[trigger] seen2.contains(j) implies 0 <= j < all.len() && (
        s2.contains(all[j]) || !better(all[j], worst_cand(m2))) by {
            if j == i {
                assert(s2[w] == all[i]);
            } else {
                assert(seen.contains(j));
                if m.slots.contains(all[j]) {
                    let k = choose|k: int| 0 <= k < m.slots.len() && m.slots[k] == all[j];
                    if k != w {
                        assert(s2[k] == all[j]);
                    }
                }
            }
        }
        // Occupied slots stay pairwise different.
        assert forall|k1: int, k2: int|
            0 <= k1 < 5 && 0 <= k2 < 5 && k1 != k2 && s2[k1] != sentinel() implies #[trigger] s2[k1]
            != #[trigger] s2[k2] by {
            if k1 == w {
                if s2[k2] != sentinel() {
                    let j = choose|j: int|
                        seen.contains(j) && 0 <= j < all.len() && m.slots[k2] == all[j];
                    assert(j != i);
                }
            } else if k2 == w {
                let j = choose|j: int| seen.contains(j) && 0 <= j < all.len() && m.slots[k1] == all[j];
                assert(j != i);
            } else {
                assert(s2[k1] == m.slots[k1]);
                assert(s2[k2] == m.slots[k2]);
            }
        }
    }
}

/// Offering the candidates at positions `lo..hi`, none of them seen yet,
/// keeps `keeps_best` with those positions added.
pub proof fn lemma_insert_range_keeps_best(
    m: Ranking,
    all: Seq<Cand>,
    seen: Set<int>,
    lo: int,
    hi: int,
)
    requires
        keeps_best(m, all, seen),
        distinct_keys(all),
        below_sentinel(all),
        0 <= lo <= hi <= all.len(),
        forall|i: int| lo <= i < hi ==> !#[trigger] seen.contains(i),
    ensures
        keeps_best(
            knn_insert_all(m, all.subrange(lo, hi)),
            all,
            seen.union(Set::new(|i: int| lo <= i < hi)),
        ),
    decreases hi - lo,
{
    if hi == lo {
        assert(seen.union(Set::new(|i: int| lo <= i < hi)) =~= seen);
    } else {
        lemma_insert_range_keeps_best(m, all, seen, lo, hi - 1);
        let cs = all.subrange(lo, hi);
        assert(cs.drop_last() =~= all.subrange(lo, hi - 1));
        let prev = seen.union(Set::new(|i: int| lo <= i < hi - 1));
        lemma_insert_keeps_best(knn_insert_all(m, cs.drop_last()), all, prev, hi - 1);
        assert(prev.insert(hi - 1) =~= seen.union(Set::new(|i: int| lo <= i < hi)));
    }
}

/// Offering every candidate of `all`, in order, to an empty list leaves
/// it keeping the five nearest of them: the brute-force k-nearest search.
pub proof fn lemma_brute_force_keeps_best(all: Seq<Cand>)
    requires
        distinct_keys(all),
        below_sentinel(all),
    ensures
        keeps_best(
            knn_insert_all(Ranking { slots: Seq::new(5, |k: int| sentinel()), worst: 0 }, all),
            all,
            Set::new(|i: int| 0 <= i < all.len()),
        ),
{
    let m0 = Ranking { slots: Seq::new(5, |k: int| sentinel()), worst: 0 };
    lemma_empty_keeps_best(all);
    lemma_insert_range_keeps_best(m0, all, Set::empty(), 0, all.len() as int);
    assert(all.subrange(0, all.len() as int) =~= all);
    assert(Set::<int>::empty().union(Set::new(|i: int| 0 <= i < all.len())) =~= Set::new(
        |i: int| 0 <= i < all.len(),
    ));
}


/// The kept candidates labelled fraud.
pub open spec fn fraud_set(s: Seq<Cand>) -> Set<Cand> {
    Set::new(|c: Cand| s.contains(c) && c.2 == 1)
}

/// With no fraud-labelled candidate kept twice, the fraud count is the
/// size of the set of kept fraud-labelled candidates.
proof fn lemma_fraud_count_is_set_len(s: Seq<Cand>)
    requires
        forall|a: int, b: int|
            0 <= a < b < s.len() && s[a].2 == 1 ==> #[trigger] s[a] != #[trigger] s[b],
    ensures
        fraud_set(s).finite(),
        fraud_count(s) == fraud_set(s).len(),
    decreases s.len(),
{
    if s.len() == 0 {
        assert(fraud_set(s) =~= Set::empty());
    } else {
        let p = s.drop_last();
        let x = s.last();
        assert forall|a: int, b: int| 0 <= a < b < p.len() && p[a].2 == 1 implies #[trigger] p[a]
            != #[trigger] p[b] by {
            assert(p[a] == s[a] && p[b] == s[b]);
        }
        lemma_fraud_count_is_set_len(p);
        assert forall|c: Cand| s.contains(c) <==> (p.contains(c) || c == x) by {
            if s.contains(c) {
                let a = choose|a: int| 0 <= a < s.len() && s[a] == c;
                if a < p.len() {
                    assert(p[a] == c);
                }
            }
            if p.contains(c) {
                let a = choose|a: int| 0 <= a < p.len() && p[a] == c;
                assert(s[a] == c);
            }
            if c == x {
                assert(s[s.len() - 1] == c);
            }
        }
        if x.2 == 1 {
            assert(fraud_set(s) =~= fraud_set(p).insert(x));
            if fraud_set(p).contains(x) {
                let a = choose|a: int| 0 <= a < p.len() && p[a] == x;
                assert(s[a] == s[s.len() - 1]);
            }
        } else {
            assert(fraud_set(s) =~= fraud_set(p));
        }
    }
}

/// A candidate that one ranking keeping the best of all of `all` holds, a
/// second such ranking holds as well.
proof fn lemma_kept_by_both(m1: Ranking, m2: Ranking, all: Seq<Cand>, c: Cand)
    requires
        distinct_keys(all),
        below_sentinel(all),
        keeps_best(m1, all, Set::new(|i: int| 0 <= i < all.len())),
        keeps_best(m2, all, Set::new(|i: int| 0 <= i < all.len())),
        c != sentinel(),
        m1.slots.contains(c),
    ensures
        m2.slots.contains(c),
{
    let full = Set::new(|i: int| 0 <= i < all.len());
    let kc = choose|k: int| 0 <= k < m1.slots.len() && m1.slots[k] == c;
    assert(m1.slots[kc] != sentinel());
    let ic = choose|i: int| full.contains(i) && 0 <= i < all.len() && m1.slots[kc] == all[i];
    if !m2.slots.contains(c) {
        assert(full.contains(ic));
        let w2 = worst_cand(m2);
        let w1 = worst_cand(m1);
        assert(!better(c, w2));
        assert(all[ic].0 < u64::MAX);
        // The farthest slot of `m2` is occupied, and strictly nearer than `c`.
        assert(w2 != sentinel());
        let kw = m2.worst;
        let iw = choose|i: int| full.contains(i) && 0 <= i < all.len() && m2.slots[kw] == all[i];
        assert(iw != ic);
        assert(better(w2, c));
        assert(!better(w1, c));
        // Every slot of `m2` is occupied and also a slot of `m1`.
        assert forall|k2: int| 0 <= k2 < 5 implies #[trigger] m2.slots[k2] != sentinel()
            && m1.slots.contains(m2.slots[k2]) by {
            assert(!better(w2, m2.slots[k2]));
            assert(all[iw].0 < u64::MAX);
            let e = m2.slots[k2];
            assert(e != sentinel());
            let ie = choose|i: int| full.contains(i) && 0 <= i < all.len() && e == all[i];
            if !m1.slots.contains(e) {
                assert(!better(all[ie], w1));
            }
        }
        let f0 = choose|k: int| 0 <= k < 5 && m1.slots[k] == m2.slots[0];
        let f1 = choose|k: int| 0 <= k < 5 && m1.slots[k] == m2.slots[1];
        let f2 = choose|k: int| 0 <= k < 5 && m1.slots[k] == m2.slots[2];
        let f3 = choose|k: int| 0 <= k < 5 && m1.slots[k] == m2.slots[3];
        let f4 = choose|k: int| 0 <= k < 5 && m1.slots[k] == m2.slots[4];
        assert(m2.slots[0] != m2.slots[1] && m2.slots[0] != m2.slots[2] && m2.slots[0] != m2.slots[3]
            && m2.slots[0] != m2.slots[4] && m2.slots[1] != m2.slots[2] && m2.slots[1] != m2.slots[3]
            && m2.slots[1] != m2.slots[4] && m2.slots[2] != m2.slots[3] && m2.slots[2] != m2.slots[4]
            && m2.slots[3] != m2.slots[4]);
        assert(m2.slots[0] != c && m2.slots[1] != c && m2.slots[2] != c && m2.slots[3] != c
            && m2.slots[4] != c);
        assert(false);
    }
}

/// Two rankings that both keep the five nearest of the same candidates,
/// all at different keys, hold the same occupied slots and the same number
/// of fraud labels: the five nearest neighbours are determined by the
/// candidates alone.
pub proof fn lemma_keeps_best_unique(m1: Ranking, m2: Ranking, all: Seq<Cand>)
    requires
        distinct_keys(all),
        below_sentinel(all),
        keeps_best(m1, all, Set::new(|i: int| 0 <= i < all.len())),
        keeps_best(m2, all, Set::new(|i: int| 0 <= i < all.len())),
    ensures
        forall|c: Cand| c != sentinel() ==> (m1.slots.contains(c) <==> m2.slots.contains(c)),
        fraud_count(m1.slots) == fraud_count(m2.slots),
{
    assert forall|c: Cand| c != sentinel() implies (m1.slots.contains(c) <==> m2.slots.contains(c)) by {
        if m1.slots.contains(c) {
            lemma_kept_by_both(m1, m2, all, c);
        }
        if m2.slots.contains(c) {
            lemma_kept_by_both(m2, m1, all, c);
        }
    }
    assert forall|a: int, b: int| 0 <= a < b < m1.slots.len() && m1.slots[a].2 == 1 implies #[trigger] m1.slots[a]
        != #[trigger] m1.slots[b] by {
        assert(m1.slots[a] != sentinel());
    }
    assert forall|a: int, b: int| 0 <= a < b < m2.slots.len() && m2.slots[a].2 == 1 implies #[trigger] m2.slots[a]
        != #[trigger] m2.slots[b] by {
        assert(m2.slots[a] != sentinel());
    }
    lemma_fraud_count_is_set_len(m1.slots);
    lemma_fraud_count_is_set_len(m2.slots);
    assert(fraud_set(m1.slots) =~= fraud_set(m2.slots));
}


/// Keeping the best of all of a candidate sequence depends only on which
/// candidates the sequence holds, not on their order or repetition.
proof fn lemma_keeps_best_same_candidates(m: Ranking, a: Seq<Cand>, b: Seq<Cand>)
    requires
        keeps_best(m, a, Set::new(|i: int| 0 <= i < a.len())),
        forall|c: Cand| a.contains(c) <==> b.contains(c),
    ensures
        keeps_best(m, b, Set::new(|i: int| 0 <= i < b.len())),
{
    let fa = Set::new(|i: int| 0 <= i < a.len());
    let fb = Set::new(|i: int| 0 <= i < b.len());
    assert forall|k: int| 0 <= k < 5 && #[trigger] m.slots[k] != sentinel() implies exists|j: int|
        fb.contains(j) && 0 <= j < b.len() && m.slots[k] == b[j] by {
        let i = choose|i: int| fa.contains(i) && 0 <= i < a.len() && m.slots[k] == a[i];
        assert(a.contains(a[i]));
        let j = choose|j: int| 0 <= j < b.len() && b[j] == a[i];
        assert(fb.contains(j));
    }
    assert forall|j: int| #[trigger] fb.contains(j) implies 0 <= j < b.len() && (m.slots.contains(b[j])
        || !better(b[j], worst_cand(m))) by {
        assert(b.contains(b[j]));
        let i = choose|i: int| 0 <= i < a.len() && a[i] == b[j];
        assert(fa.contains(i));
    }
}

/// Every candidate of `cs` offered, in order, to an empty list.
pub open spec fn nearest_of(cs: Seq<Cand>) -> Ranking {
    knn_insert_all(Ranking { slots: Seq::new(5, |k: int| sentinel()), worst: 0 }, cs)
}

/// Offering the same candidates, all at different keys, to an empty list
/// in any order keeps the same five nearest (the same occupied slots) and
/// the same number of fraud labels.
pub proof fn lemma_insert_order_irrelevant(a: Seq<Cand>, b: Seq<Cand>)
    requires
        distinct_keys(a),
        distinct_keys(b),
        below_sentinel(a),
        below_sentinel(b),
        forall|c: Cand| a.contains(c) <==> b.contains(c),
    ensures
        forall|c: Cand|
            c != sentinel() ==> (#[trigger] nearest_of(a).slots.contains(c) <==> nearest_of(
                b,
            ).slots.contains(c)),
        fraud_count(nearest_of(a).slots) == fraud_count(nearest_of(b).slots),
{
    let e = Ranking { slots: Seq::new(5, |k: int| sentinel()), worst: 0 };
    lemma_brute_force_keeps_best(a);
    lemma_brute_force_keeps_best(b);
    lemma_keeps_best_same_candidates(knn_insert_all(e, b), b, a);
    lemma_keeps_best_unique(knn_insert_all(e, a), knn_insert_all(e, b), a);
}

}
