//! The IVF index of quantized reference vectors and the exact search over it.
//!
//! The index holds `n` vectors of `D` int16 coordinates, stored column-major
//! (`dims_buf[j * n + i]` is coordinate `j` of vector `i`), sorted by
//! cluster: cluster `c` is the range `offsets[c] .. offsets[c + 1]`. Each
//! cluster has a per-coordinate bounding box `bbox_min[c * D + j] ..=
//! bbox_max[c * D + j]`. The cluster centroids are kept as the raw bit
//! patterns of their little-endian `f32` values.
//!
//! The search scans the clusters named by a probe list, then every other
//! non-empty cluster whose bounding box could still hold a vector nearer
//! than the farthest of the current five nearest.
use vstd::prelude::*;
use crate::top5::{
    Cand, Ranking, Top5, better, below_sentinel, distinct_keys, fraud_count, keeps_best,
    knn_insert_all, lemma_brute_force_keeps_best, lemma_insert_range_keeps_best,
    lemma_keeps_best_unique, lemma_skip_keeps_best, sentinel, worst_cand,
};
use crate::scan::{lemma_sq_dist_bounds, range_cands, scan_range_scalar, sq, sq_dist};

verus! {

/// Coordinates per vector.
pub const D: usize = 14;
/// Number of clusters.
pub const K: usize = 256;

pub struct Index {
    pub n: usize,
    pub dims_buf: Vec<i16>,
    pub labels: Vec<u8>,
    pub orig_ids: Vec<u32>,
    pub centroid_bits: Vec<u32>,
    pub bbox_min: Vec<i16>,
    pub bbox_max: Vec<i16>,
    pub offsets: Vec<u32>,
}

/// How much of the index one search looked at.
#[derive(Clone, Copy)]
pub struct SearchStats {
    pub scanned_clusters: u32,
    pub scanned_vectors: u32,
}

/// Abstract state of a search: the ranking and the two counters.
pub struct Trace {
    pub ranking: Ranking,
    pub clusters: u32,
    pub vectors: u32,
}

/// Squared distance from `q` to the nearest point of cluster `c`'s
/// bounding box, summed over the first `k` coordinates.
pub open spec fn gap(x: i16, lo: i16, hi: i16) -> int {
    if x < lo {
        lo - x
    } else if x > hi {
        x - hi
    } else {
        0
    }
}

pub open spec fn bbox_lb_prefix(q: Seq<i16>, bmin: Seq<i16>, bmax: Seq<i16>, c: int, k: int) -> int
    decreases k,
{
    if k <= 0 {
        0
    } else {
        bbox_lb_prefix(q, bmin, bmax, c, k - 1) + gap(q[k - 1], bmin[c * 14 + k - 1], bmax[c * 14 + k - 1])
            * gap(q[k - 1], bmin[c * 14 + k - 1], bmax[c * 14 + k - 1])
    }
}

/// Squared distance from `q` to cluster `c`'s bounding box.
pub open spec fn bbox_lb(q: Seq<i16>, bmin: Seq<i16>, bmax: Seq<i16>, c: int) -> int {
    bbox_lb_prefix(q, bmin, bmax, c, 14)
}

impl Index {
    /// Every buffer is long enough for `n` vectors, `K` clusters and `D`
    /// coordinates (longer buffers are allowed; the rest is unused).
    pub open spec fn wf(&self) -> bool {
        &&& self.dims_buf@.len() >= 14 * self.n
        &&& self.labels@.len() >= self.n
        &&& self.orig_ids@.len() >= self.n
        &&& self.centroid_bits@.len() >= 256 * 14
        &&& self.bbox_min@.len() >= 256 * 14
        &&& self.bbox_max@.len() >= 256 * 14
        &&& self.offsets@.len() >= 257
    }

    /// Every cluster boundary lies within the vectors, and `n` fits the
    /// signed 32-bit arithmetic the search does on boundaries.
    pub open spec fn searchable(&self) -> bool {
        &&& self.wf()
        &&& self.n <= i32::MAX
        &&& forall|c: int| 0 <= c < 257 ==> #[trigger] self.offsets@[c] <= self.n
    }

    pub open spec fn cl_start(&self, c: int) -> int {
        self.offsets@[c] as int
    }

    pub open spec fn cl_end(&self, c: int) -> int {
        self.offsets@[c + 1] as int
    }

    pub open spec fn nonempty(&self, c: int) -> bool {
        self.cl_start(c) < self.cl_end(c)
    }

    /// The candidates that all `n` vectors make for query `q`.
    pub open spec fn all_cands(&self, q: Seq<i16>) -> Seq<Cand> {
        range_cands(self.dims_buf@, self.n as int, q, self.labels@, self.orig_ids@, 0, self.n as int)
    }

    /// The candidates of cluster `c`.
    pub open spec fn cluster_cands(&self, q: Seq<i16>, c: int) -> Seq<Cand> {
        range_cands(
            self.dims_buf@,
            self.n as int,
            q,
            self.labels@,
            self.orig_ids@,
            self.cl_start(c),
            self.cl_end(c),
        )
    }

    /// Returns coordinate `j` of every vector.
    pub fn dim(&self, j: usize) -> (r: &[i16])
        requires
            j < usize::MAX,
            (j + 1) * self.n <= self.dims_buf@.len(),
        ensures
            r@ == self.dims_buf@.subrange(j * self.n, (j + 1) * self.n),
    {
        let len = self.dims_buf.len();
        proof {
            assert(j * self.n <= (j + 1) * self.n) by (nonlinear_arith);
        }
        let lo = j * self.n;
        let hi = (j + 1) * self.n;
        let s = self.dims_buf.as_slice();
        slice_range(s, lo, hi)
    }

    /// Whether `searchable` holds.
    pub fn is_searchable(&self) -> (r: bool)
        requires
            self.wf(),
        ensures
            r == self.searchable(),
    {
        if self.n > i32::MAX as usize {
            return false;
        }
        let mut c: usize = 0;
        while c < 257
            invariant
                self.wf(),
                c <= 257,
                forall|k: int| 0 <= k < c ==> #[trigger] self.offsets@[k] <= self.n,
            decreases 257 - c,
        {
            if self.offsets[c] as usize > self.n {
                return false;
            }
            c += 1;
        }
        true
    }
}

fn slice_range(s: &[i16], lo: usize, hi: usize) -> (r: &[i16])
    requires
        lo <= hi <= s@.len(),
    ensures
        r@ == s@.subrange(lo as int, hi as int),
{
    &s[lo..hi]
}

/// Whether probe list `probes` names non-empty cluster `c`, so that the
/// probe pass scans it.
pub open spec fn probed(idx: &Index, probes: Seq<i32>, c: int) -> bool {
    idx.nonempty(c) && exists|k: int| 0 <= k < probes.len() && probes[k] == c
}

/// Scan cluster `c` into a trace.
pub open spec fn scan_trace(idx: &Index, q: Seq<i16>, tr: Trace, c: int) -> Trace {
    Trace {
        ranking: knn_insert_all(tr.ranking, idx.cluster_cands(q, c)),
        clusters: vstd::wrapping::u32_specs::wrapping_add(tr.clusters, 1),
        vectors: vstd::wrapping::u32_specs::wrapping_add(
            tr.vectors,
            (idx.cl_end(c) - idx.cl_start(c)) as u32,
        ),
    }
}

pub open spec fn empty_ranking() -> Ranking {
    Ranking { slots: Seq::new(5, |k: int| sentinel()), worst: 0 }
}

/// The probe pass: scan each named non-empty cluster, in list order.
pub open spec fn probe_pass(idx: &Index, q: Seq<i16>, probes: Seq<i32>) -> Trace
    decreases probes.len(),
{
    if probes.len() == 0 {
        Trace { ranking: empty_ranking(), clusters: 0, vectors: 0 }
    } else {
        let tr = probe_pass(idx, q, probes.drop_last());
        let c = probes.last() as int;
        if c < 0 || !idx.nonempty(c) {
            tr
        } else {
            scan_trace(idx, q, tr, c)
        }
    }
}

/// The repair pass over clusters `0 .. upto`: scan every non-empty cluster
/// that the probe pass left whose bounding box is no farther than the
/// farthest kept candidate.
pub open spec fn repair_pass(idx: &Index, q: Seq<i16>, probes: Seq<i32>, upto: int) -> Trace
    decreases upto,
{
    if upto <= 0 {
        probe_pass(idx, q, probes)
    } else {
        let tr = repair_pass(idx, q, probes, upto - 1);
        let c = upto - 1;
        if !probed(idx, probes, c) && idx.nonempty(c) && bbox_lb(
            q,
            idx.bbox_min@,
            idx.bbox_max@,
            c,
        ) <= worst_cand(tr.ranking).0 {
            scan_trace(idx, q, tr, c)
        } else {
            tr
        }
    }
}

/// The whole search.
pub open spec fn search_trace(idx: &Index, q: Seq<i16>, probes: Seq<i32>) -> Trace {
    repair_pass(idx, q, probes, 256)
}

/// The number of clusters a search probes first: `nprobe` clamped to
/// `1 ..= K`.
pub fn probe_count(nprobe: u32) -> (r: usize)
    ensures
        r == (if nprobe < 1 {
            1
        } else if nprobe > 256 {
            256
        } else {
            nprobe as int
        }),
{
    if nprobe < 1 {
        1
    } else if nprobe > 256 {
        256
    } else {
        nprobe as usize
    }
}

/// Squared distance from `q` to cluster `c`'s bounding box.
pub fn bbox_lower_bound(q: &[i16; 14], bbox_min: &[i16], bbox_max: &[i16], c: usize) -> (s: u64)
    requires
        c * 14 + 14 <= bbox_min@.len(),
        c * 14 + 14 <= bbox_max@.len(),
    ensures
        s == bbox_lb(q@, bbox_min@, bbox_max@, c as int),
{
    let len_min = bbox_min.len();
    let len_max = bbox_max.len();
    let base = c * 14;
    let mut s: u64 = 0;
    let mut j: usize = 0;
    while j < 14
        invariant
            j <= 14,
            base == c * 14,
            base + 14 <= bbox_min@.len(),
            base + 14 <= bbox_max@.len(),
            len_min == bbox_min@.len(),
            len_max == bbox_max@.len(),
            s == bbox_lb_prefix(q@, bbox_min@, bbox_max@, c as int, j as int),
            s <= j * 4294836225,
        decreases 14 - j,
    {
        let x = q[j];
        let lo = bbox_min[base + j];
        let hi = bbox_max[base + j];
        let d: i32 = if x < lo {
            lo as i32 - x as i32
        } else if x > hi {
            x as i32 - hi as i32
        } else {
            0
        };
        proof {
            assert(d == gap(x, lo, hi));
            assert(0 <= d <= 65535);
            assert(0 <= d * d <= 4294836225) by (nonlinear_arith)
                requires
                    0 <= d <= 65535,
            ;
        }
        let dd = (d as i64 * d as i64) as u64;
        assert(dd == gap(x, lo, hi) * gap(x, lo, hi));
        s += dd;
        j += 1;
    }
    s
}


/// The trace of an exec search state.
pub open spec fn trace_of(t: Top5, clusters: u32, vectors: u32) -> Trace {
    Trace { ranking: t.model(), clusters: clusters, vectors: vectors }
}

fn scan_cluster(idx: &Index, q: &[i16; 14], start: usize, end: usize, t: &mut Top5)
    requires
        idx.searchable(),
        old(t).wf(),
        start < end <= idx.n,
    ensures
        final(t).wf(),
        final(t).model() == knn_insert_all(
            old(t).model(),
            range_cands(
                idx.dims_buf@,
                idx.n as int,
                q@,
                idx.labels@,
                idx.orig_ids@,
                start as int,
                end as int,
            ),
        ),
{
    scan_range_scalar(
        idx.dims_buf.as_slice(),
        idx.n,
        start,
        end,
        q,
        idx.labels.as_slice(),
        idx.orig_ids.as_slice(),
        t,
    );
}

/// Search the five nearest vectors to the quantized query `q`: scan the
/// clusters named by `probes` (negative entries name none), then every
/// other non-empty cluster whose bounding box is no farther than the
/// farthest of the five kept so far.
pub fn search_probed(idx: &Index, q: &[i16; 14], probes: &[i32]) -> (res: (Top5, SearchStats))
    requires
        idx.searchable(),
        forall|k: int| 0 <= k < probes@.len() ==> #[trigger] probes@[k] < 256,
    ensures
        res.0.wf(),
        trace_of(res.0, res.1.scanned_clusters, res.1.scanned_vectors) == search_trace(
            idx,
            q@,
            probes@,
        ),
{
    let mut t = Top5::new();
    let mut clusters: u32 = 0;
    let mut vectors: u32 = 0;
    let mut scanned: Vec<bool> = Vec::new();
    let mut c: usize = 0;
    while c < 256
        invariant
            c <= 256,
            scanned@.len() == c,
            forall|k: int| 0 <= k < c ==> !#[trigger] scanned@[k],
        decreases 256 - c,
    {
        scanned.push(false);
        c += 1;
    }
    assert(t.model() == empty_ranking());
    assert(probes@.subrange(0, 0) =~= Seq::<i32>::empty());
    let mut pi: usize = 0;
    while pi < probes.len()
        invariant
            idx.searchable(),
            forall|k: int| 0 <= k < probes@.len() ==> #[trigger] probes@[k] < 256,
            pi <= probes@.len(),
            scanned@.len() == 256,
            t.wf(),
            trace_of(t, clusters, vectors) == probe_pass(idx, q@, probes@.subrange(0, pi as int)),
            forall|k: int|
                0 <= k < 256 ==> #[trigger] scanned@[k] == probed(
                    idx,
                    probes@.subrange(0, pi as int),
                    k,
                ),
        decreases probes@.len() - pi,
    {
        let ghost pre = probes@.subrange(0, pi as int);
        let ghost post = probes@.subrange(0, pi + 1);
        assert(post.drop_last() =~= pre);
        let cp = probes[pi];
        proof {
            assert forall|k: int| 0 <= k < 256 && k != cp implies #[trigger] probed(idx, post, k)
                == probed(idx, pre, k) by {
                if probed(idx, post, k) {
                    let j = choose|j: int| 0 <= j < post.len() && post[j] == k;
                    assert(pre[j] == k);
                }
                if probed(idx, pre, k) {
                    let j = choose|j: int| 0 <= j < pre.len() && pre[j] == k;
                    assert(post[j] == k);
                }
            }
        }
        if cp < 0 {
            pi += 1;
            continue;
        }
        let cu = cp as usize;
        let start = idx.offsets[cu] as i32;
        let end = idx.offsets[cu + 1] as i32;
        if end <= start {
            proof {
                if probed(idx, post, cp as int) {
                    assert(idx.nonempty(cp as int));
                }
            }
            assert(scanned@[cu as int] == probed(idx, post, cp as int)) by {
                if probed(idx, pre, cp as int) {
                    let j = choose|j: int| 0 <= j < pre.len() && pre[j] == cp;
                    assert(post[j] == cp);
                }
            }
            pi += 1;
            continue;
        }
        scanned.set(cu, true);
        assert(probed(idx, post, cp as int)) by {
            assert(post[pi as int] == cp);
        }
        scan_cluster(idx, q, start as usize, end as usize, &mut t);
        clusters = clusters.wrapping_add(1);
        vectors = vectors.wrapping_add((end - start) as u32);
        pi += 1;
    }
    assert(probes@.subrange(0, probes@.len() as int) =~= probes@);
    let mut c: usize = 0;
    while c < 256
        invariant
            idx.searchable(),
            c <= 256,
            scanned@.len() == 256,
            t.wf(),
            trace_of(t, clusters, vectors) == repair_pass(idx, q@, probes@, c as int),
            forall|k: int| 0 <= k < 256 ==> #[trigger] scanned@[k] == probed(idx, probes@, k),
        decreases 256 - c,
    {
        if scanned[c] {
            c += 1;
            continue;
        }
        let start = idx.offsets[c] as i32;
        let end = idx.offsets[c + 1] as i32;
        if end <= start {
            c += 1;
            continue;
        }
        if bbox_lower_bound(q, idx.bbox_min.as_slice(), idx.bbox_max.as_slice(), c) <= t.worst_d {
            scan_cluster(idx, q, start as usize, end as usize, &mut t);
            clusters = clusters.wrapping_add(1);
            vectors = vectors.wrapping_add((end - start) as u32);
        }
        c += 1;
    }
    (t, SearchStats { scanned_clusters: clusters, scanned_vectors: vectors })
}


impl Index {
    /// Cluster ranges start at 0, end at `n` and never go backwards.
    pub open spec fn clusters_partition(&self) -> bool {
        &&& self.offsets@[0] == 0
        &&& self.offsets@[256] == self.n
        &&& forall|a: int, b: int|
            0 <= a <= b < 257 ==> #[trigger] self.offsets@[a] <= #[trigger] self.offsets@[b]
    }

    /// Every vector lies inside its cluster's bounding box.
    pub open spec fn boxes_bound(&self) -> bool {
        forall|c: int, i: int, j: int|
            0 <= c < 256 && self.cl_start(c) <= i < self.cl_end(c) && 0 <= j < 14 ==> #[trigger] self.bbox_min@[c
                * 14 + j] <= #[trigger] self.dims_buf@[j * self.n + i] <= self.bbox_max@[c * 14 + j]
    }

    /// No two vectors share an dataset position.
    pub open spec fn ids_distinct(&self) -> bool {
        forall|a: int, b: int|
            0 <= a < self.n && 0 <= b < self.n && a != b ==> #[trigger] self.orig_ids@[a]
                != #[trigger] self.orig_ids@[b]
    }

    /// The vectors of the clusters in `cs`.
    pub open spec fn covered(&self, cs: Set<int>) -> Set<int> {
        Set::new(
            |i: int|
                0 <= i < self.n && exists|c: int|
                    #![trigger cs.contains(c)]
                    0 <= c < 256 && cs.contains(c) && self.cl_start(c) <= i < self.cl_end(c),
        )
    }
}

/// No non-negative cluster is named twice.
pub open spec fn probes_distinct(probes: Seq<i32>) -> bool {
    forall|a: int, b: int|
        0 <= a < probes.len() && 0 <= b < probes.len() && a != b && probes[a] >= 0 ==> #[trigger] probes[a]
            != #[trigger] probes[b]
}

/// The clusters that the probe list leads the search to scan.
pub open spec fn probed_set(idx: &Index, probes: Seq<i32>) -> Set<int> {
    Set::new(|c: int| 0 <= c < 256 && probed(idx, probes, c))
}

/// Sum of the squared coordinate differences over the first `k` coordinates.
pub open spec fn dist_prefix(dims: Seq<i16>, n: int, q: Seq<i16>, i: int, k: int) -> int
    decreases k,
{
    if k <= 0 {
        0
    } else {
        dist_prefix(dims, n, q, i, k - 1) + sq(q[k - 1], dims[(k - 1) * n + i])
    }
}

proof fn lemma_gap_below_sq(x: i16, lo: i16, hi: i16, v: i16)
    requires
        lo <= v <= hi,
    ensures
        gap(x, lo, hi) * gap(x, lo, hi) <= sq(x, v),
{
    let g = gap(x, lo, hi);
    let d = x - v;
    if x < lo {
        assert(0 <= g <= -d);
        assert(g * g <= d * d) by (nonlinear_arith)
            requires
                0 <= g <= -d,
        ;
    } else if x > hi {
        assert(0 <= g <= d);
        assert(g * g <= d * d) by (nonlinear_arith)
            requires
                0 <= g <= d,
        ;
    } else {
        assert(0 <= d * d) by (nonlinear_arith);
    }
}

proof fn lemma_bbox_prefix_below(idx: &Index, q: Seq<i16>, c: int, i: int, k: int)
    requires
        idx.wf(),
        idx.boxes_bound(),
        0 <= c < 256,
        idx.cl_start(c) <= i < idx.cl_end(c),
        0 <= k <= 14,
    ensures
        bbox_lb_prefix(q, idx.bbox_min@, idx.bbox_max@, c, k) <= dist_prefix(
            idx.dims_buf@,
            idx.n as int,
            q,
            i,
            k,
        ),
    decreases k,
{
    if k > 0 {
        lemma_bbox_prefix_below(idx, q, c, i, k - 1);
        let j = k - 1;
        let v = idx.dims_buf@[j * idx.n + i];
        assert(idx.bbox_min@[c * 14 + j] <= v <= idx.bbox_max@[c * 14 + j]);
        lemma_gap_below_sq(q[j], idx.bbox_min@[c * 14 + j], idx.bbox_max@[c * 14 + j], v);
    }
}

/// The bounding-box distance of a cluster never exceeds the distance of
/// any vector inside that cluster.
pub proof fn lemma_bbox_lower_bound(idx: &Index, q: Seq<i16>, c: int, i: int)
    requires
        idx.wf(),
        idx.boxes_bound(),
        0 <= c < 256,
        idx.cl_start(c) <= i < idx.cl_end(c),
    ensures
        bbox_lb(q, idx.bbox_min@, idx.bbox_max@, c) <= sq_dist(idx.dims_buf@, idx.n as int, q, i),
{
    lemma_bbox_prefix_below(idx, q, c, i, 14);
    let dims = idx.dims_buf@;
    let n = idx.n as int;
    assert(dist_prefix(dims, n, q, i, 14) == sq_dist(dims, n, q, i)) by {
        reveal_with_fuel(dist_prefix, 15);
    }
}

proof fn lemma_all_cands_props(idx: &Index, q: Seq<i16>)
    requires
        idx.wf(),
        idx.ids_distinct(),
    ensures
        distinct_keys(idx.all_cands(q)),
        below_sentinel(idx.all_cands(q)),
        idx.all_cands(q).len() == idx.n,
{
    let all = idx.all_cands(q);
    assert forall|i: int| 0 <= i < all.len() implies #[trigger] all[i].0 < u64::MAX by {
        lemma_sq_dist_bounds(idx.dims_buf@, idx.n as int, q, i);
    }
    assert forall|a: int, b: int|
        0 <= a < all.len() && 0 <= b < all.len() && a != b implies (#[trigger] all[a].0 != all[b].0
        || all[a].1 != #[trigger] all[b].1) by {
        assert(idx.orig_ids@[a] != idx.orig_ids@[b]);
    }
}

proof fn lemma_cluster_cands_subrange(idx: &Index, q: Seq<i16>, c: int)
    requires
        idx.searchable(),
        0 <= c < 256,
        idx.nonempty(c),
    ensures
        idx.cluster_cands(q, c) == idx.all_cands(q).subrange(idx.cl_start(c), idx.cl_end(c)),
        0 <= idx.cl_start(c) <= idx.cl_end(c) <= idx.n,
{
    assert(idx.offsets@[c] <= idx.n);
    assert(idx.offsets@[c + 1] <= idx.n);
    assert(idx.cluster_cands(q, c) =~= idx.all_cands(q).subrange(idx.cl_start(c), idx.cl_end(c)));
}

/// Adding cluster `c` to a set of clusters adds exactly its vectors.
proof fn lemma_covered_insert(idx: &Index, cs: Set<int>, c: int)
    requires
        idx.searchable(),
        0 <= c < 256,
    ensures
        idx.covered(cs.insert(c)) == idx.covered(cs).union(
            Set::new(|i: int| idx.cl_start(c) <= i < idx.cl_end(c)),
        ),
{
    assert(idx.offsets@[c + 1] <= idx.n);
    let lhs = idx.covered(cs.insert(c));
    let rhs = idx.covered(cs).union(Set::new(|i: int| idx.cl_start(c) <= i < idx.cl_end(c)));
    assert forall|i: int| lhs.contains(i) implies rhs.contains(i) by {
        let c2 = choose|c2: int|
            #![trigger cs.insert(c).contains(c2)]
            0 <= c2 < 256 && cs.insert(c).contains(c2) && idx.cl_start(c2) <= i < idx.cl_end(c2);
        if c2 != c {
            assert(cs.contains(c2));
        }
    }
    assert forall|i: int| rhs.contains(i) implies lhs.contains(i) by {
        if idx.cl_start(c) <= i < idx.cl_end(c) {
            assert(cs.insert(c).contains(c));
        } else {
            let c2 = choose|c2: int|
                #![trigger cs.contains(c2)]
                0 <= c2 < 256 && cs.contains(c2) && idx.cl_start(c2) <= i < idx.cl_end(c2);
            assert(cs.insert(c).contains(c2));
        }
    }
    assert(lhs =~= rhs);
}

/// The vectors of a cluster outside `cs` are disjoint from those of `cs`.
proof fn lemma_cluster_fresh(idx: &Index, cs: Set<int>, c: int)
    requires
        idx.searchable(),
        idx.clusters_partition(),
        0 <= c < 256,
        !cs.contains(c),
    ensures
        forall|i: int| idx.cl_start(c) <= i < idx.cl_end(c) ==> !#[trigger] idx.covered(cs).contains(i),
{
    assert forall|i: int| idx.cl_start(c) <= i < idx.cl_end(c) implies !#[trigger] idx.covered(
        cs,
    ).contains(i) by {
        if idx.covered(cs).contains(i) {
            let c2 = choose|c2: int|
                #![trigger cs.contains(c2)]
                0 <= c2 < 256 && cs.contains(c2) && idx.cl_start(c2) <= i < idx.cl_end(c2);
            if c2 < c {
                assert(idx.offsets@[c2 + 1] <= idx.offsets@[c]);
            } else {
                assert(idx.offsets@[c + 1] <= idx.offsets@[c2]);
            }
        }
    }
}

/// Every vector of a skipped cluster can be passed over.
proof fn lemma_skip_cluster(idx: &Index, q: Seq<i16>, m: Ranking, cs: Set<int>, c: int)
    requires
        idx.searchable(),
        idx.boxes_bound(),
        0 <= c < 256,
        keeps_best(m, idx.all_cands(q), idx.covered(cs)),
        bbox_lb(q, idx.bbox_min@, idx.bbox_max@, c) > worst_cand(m).0,
    ensures
        keeps_best(m, idx.all_cands(q), idx.covered(cs.insert(c))),
{
    lemma_covered_insert(idx, cs, c);
    lemma_skip_range(idx, q, m, cs, c, idx.cl_end(c));
}

proof fn lemma_skip_range(idx: &Index, q: Seq<i16>, m: Ranking, cs: Set<int>, c: int, hi: int)
    requires
        idx.searchable(),
        idx.boxes_bound(),
        0 <= c < 256,
        keeps_best(m, idx.all_cands(q), idx.covered(cs)),
        bbox_lb(q, idx.bbox_min@, idx.bbox_max@, c) > worst_cand(m).0,
        hi <= idx.cl_end(c),
    ensures
        keeps_best(
            m,
            idx.all_cands(q),
            idx.covered(cs).union(Set::new(|i: int| idx.cl_start(c) <= i < hi)),
        ),
    decreases hi - idx.cl_start(c),
{
    let all = idx.all_cands(q);
    if hi <= idx.cl_start(c) {
        assert(idx.covered(cs).union(Set::new(|i: int| idx.cl_start(c) <= i < hi)) =~= idx.covered(
            cs,
        ));
    } else {
        lemma_skip_range(idx, q, m, cs, c, hi - 1);
        let i = hi - 1;
        assert(idx.offsets@[c + 1] <= idx.n);
        lemma_bbox_lower_bound(idx, q, c, i);
        lemma_sq_dist_bounds(idx.dims_buf@, idx.n as int, q, i);
        assert(all[i].0 > worst_cand(m).0);
        let prev = idx.covered(cs).union(Set::new(|k: int| idx.cl_start(c) <= k < hi - 1));
        lemma_skip_keeps_best(m, all, prev, i);
        assert(prev.insert(i) =~= idx.covered(cs).union(
            Set::new(|k: int| idx.cl_start(c) <= k < hi),
        ));
    }
}

/// Scanning a cluster outside `cs` keeps the best with its vectors added.
proof fn lemma_scan_cluster(idx: &Index, q: Seq<i16>, m: Ranking, cs: Set<int>, c: int)
    requires
        idx.searchable(),
        idx.clusters_partition(),
        idx.ids_distinct(),
        0 <= c < 256,
        idx.nonempty(c),
        !cs.contains(c),
        keeps_best(m, idx.all_cands(q), idx.covered(cs)),
    ensures
        keeps_best(
            knn_insert_all(m, idx.cluster_cands(q, c)),
            idx.all_cands(q),
            idx.covered(cs.insert(c)),
        ),
{
    lemma_all_cands_props(idx, q);
    lemma_cluster_cands_subrange(idx, q, c);
    lemma_cluster_fresh(idx, cs, c);
    lemma_insert_range_keeps_best(
        m,
        idx.all_cands(q),
        idx.covered(cs),
        idx.cl_start(c),
        idx.cl_end(c),
    );
    lemma_covered_insert(idx, cs, c);
}

/// An empty cluster adds no vectors.
proof fn lemma_covered_empty(idx: &Index, cs: Set<int>, c: int)
    requires
        idx.searchable(),
        0 <= c < 256,
        !idx.nonempty(c),
    ensures
        idx.covered(cs.insert(c)) == idx.covered(cs),
{
    lemma_covered_insert(idx, cs, c);
    assert(idx.covered(cs).union(Set::new(|i: int| idx.cl_start(c) <= i < idx.cl_end(c)))
        =~= idx.covered(cs));
}

proof fn lemma_probe_pass(idx: &Index, q: Seq<i16>, probes: Seq<i32>)
    requires
        idx.searchable(),
        idx.clusters_partition(),
        idx.ids_distinct(),
        probes_distinct(probes),
        forall|k: int| 0 <= k < probes.len() ==> #[trigger] probes[k] < 256,
    ensures
        keeps_best(
            probe_pass(idx, q, probes).ranking,
            idx.all_cands(q),
            idx.covered(probed_set(idx, probes)),
        ),
    decreases probes.len(),
{
    let all = idx.all_cands(q);
    if probes.len() == 0 {
        crate::top5::lemma_empty_keeps_best(all);
        assert(idx.covered(probed_set(idx, probes)) =~= Set::<int>::empty());
    } else {
        let pre = probes.drop_last();
        assert forall|a: int, b: int|
            0 <= a < pre.len() && 0 <= b < pre.len() && a != b && pre[a] >= 0 implies #[trigger] pre[a]
            != #[trigger] pre[b] by {
            assert(pre[a] == probes[a] && pre[b] == probes[b]);
        }
        assert forall|k: int| 0 <= k < pre.len() implies #[trigger] pre[k] < 256 by {
            assert(pre[k] == probes[k]);
        }
        lemma_probe_pass(idx, q, pre);
        let c = probes.last() as int;
        let ps_pre = probed_set(idx, pre);
        let ps = probed_set(idx, probes);
        let m = probe_pass(idx, q, pre).ranking;
        // Clusters named before the last probe are still named.
        assert forall|c2: int| ps_pre.contains(c2) implies ps.contains(c2) by {
            let j = choose|j: int| 0 <= j < pre.len() && pre[j] == c2;
            assert(probes[j] == c2);
        }
        if c < 0 || !idx.nonempty(c) {
            assert forall|c2: int| ps.contains(c2) implies ps_pre.contains(c2) by {
                let j = choose|j: int| 0 <= j < probes.len() && probes[j] == c2;
                if j < pre.len() {
                    assert(pre[j] == c2);
                }
            }
            assert(ps =~= ps_pre);
        } else {
            assert(!ps_pre.contains(c)) by {
                if ps_pre.contains(c) {
                    let j = choose|j: int| 0 <= j < pre.len() && pre[j] == c;
                    assert(probes[j] == probes[probes.len() - 1]);
                }
            }
            assert forall|c2: int| ps.contains(c2) implies ps_pre.insert(c).contains(c2) by {
                let j = choose|j: int| 0 <= j < probes.len() && probes[j] == c2;
                if j < pre.len() {
                    assert(pre[j] == c2);
                }
            }
            assert(ps.contains(c)) by {
                assert(probes[probes.len() - 1] == c);
            }
            assert(ps =~= ps_pre.insert(c));
            lemma_scan_cluster(idx, q, m, ps_pre, c);
        }
    }
}

/// The set of clusters accounted for after the repair pass over `0..upto`.
pub open spec fn repaired_set(idx: &Index, probes: Seq<i32>, upto: int) -> Set<int> {
    Set::new(|c: int| 0 <= c < 256 && (probed(idx, probes, c) || c < upto))
}

proof fn lemma_repair_pass(idx: &Index, q: Seq<i16>, probes: Seq<i32>, upto: int)
    requires
        idx.searchable(),
        idx.clusters_partition(),
        idx.boxes_bound(),
        idx.ids_distinct(),
        probes_distinct(probes),
        forall|k: int| 0 <= k < probes.len() ==> #[trigger] probes[k] < 256,
        0 <= upto <= 256,
    ensures
        keeps_best(
            repair_pass(idx, q, probes, upto).ranking,
            idx.all_cands(q),
            idx.covered(repaired_set(idx, probes, upto)),
        ),
    decreases upto,
{
    if upto == 0 {
        lemma_probe_pass(idx, q, probes);
        assert(repaired_set(idx, probes, 0) =~= probed_set(idx, probes));
    } else {
        lemma_repair_pass(idx, q, probes, upto - 1);
        let c = upto - 1;
        let pre = repaired_set(idx, probes, upto - 1);
        let m = repair_pass(idx, q, probes, upto - 1).ranking;
        if probed(idx, probes, c) {
            assert(repaired_set(idx, probes, upto) =~= pre);
        } else {
            assert(repaired_set(idx, probes, upto) =~= pre.insert(c));
            assert(!pre.contains(c));
            if !idx.nonempty(c) {
                lemma_covered_empty(idx, pre, c);
            } else if bbox_lb(q, idx.bbox_min@, idx.bbox_max@, c) <= worst_cand(m).0 {
                lemma_scan_cluster(idx, q, m, pre, c);
            } else {
                lemma_skip_cluster(idx, q, m, pre, c);
            }
        }
    }
}

proof fn lemma_find_cluster(idx: &Index, i: int, c: int) -> (r: int)
    requires
        idx.searchable(),
        idx.clusters_partition(),
        0 <= c < 256,
        idx.offsets@[c] <= i < idx.n,
    ensures
        0 <= r < 256,
        idx.cl_start(r) <= i < idx.cl_end(r),
    decreases 256 - c,
{
    if i < idx.offsets@[c + 1] {
        c
    } else {
        lemma_find_cluster(idx, i, c + 1)
    }
}

/// The search finds the exact five nearest vectors: when the clusters
/// partition the vectors, every vector lies inside its cluster's bounding
/// box, dataset positions are unique and no cluster is probed twice, the
/// ranking the search returns keeps the best of all `n` vectors, the same
/// list a brute-force scan keeps.
pub proof fn lemma_search_exact(idx: &Index, q: Seq<i16>, probes: Seq<i32>)
    requires
        idx.searchable(),
        idx.clusters_partition(),
        idx.boxes_bound(),
        idx.ids_distinct(),
        probes_distinct(probes),
        forall|k: int| 0 <= k < probes.len() ==> #[trigger] probes[k] < 256,
    ensures
        keeps_best(
            search_trace(idx, q, probes).ranking,
            idx.all_cands(q),
            Set::new(|i: int| 0 <= i < idx.n),
        ),
{
    lemma_repair_pass(idx, q, probes, 256);
    let all_set = repaired_set(idx, probes, 256);
    assert forall|i: int| 0 <= i < idx.n implies #[trigger] idx.covered(all_set).contains(i) by {
        let c = lemma_find_cluster(idx, i, 0);
        assert(all_set.contains(c));
    }
    assert(idx.covered(all_set) =~= Set::new(|i: int| 0 <= i < idx.n));
}


/// The pruned search keeps the same five nearest neighbours as offering
/// every vector of the index, in order, to an empty list (the brute-force
/// search), and so counts the same number of fraud labels.
pub proof fn lemma_search_matches_brute_force(idx: &Index, q: Seq<i16>, probes: Seq<i32>)
    requires
        idx.searchable(),
        idx.clusters_partition(),
        idx.boxes_bound(),
        idx.ids_distinct(),
        probes_distinct(probes),
        forall|k: int| 0 <= k < probes.len() ==> #[trigger] probes[k] < 256,
    ensures
        forall|c: Cand|
            c != sentinel() ==> (search_trace(idx, q, probes).ranking.slots.contains(c)
                <==> knn_insert_all(empty_ranking(), idx.all_cands(q)).slots.contains(c)),
        fraud_count(search_trace(idx, q, probes).ranking.slots) == fraud_count(
            knn_insert_all(empty_ranking(), idx.all_cands(q)).slots,
        ),
{
    let all = idx.all_cands(q);
    lemma_all_cands_props(idx, q);
    lemma_search_exact(idx, q, probes);
    lemma_brute_force_keeps_best(all);
    assert(Set::new(|i: int| 0 <= i < idx.n) =~= Set::new(|i: int| 0 <= i < all.len()));
    lemma_keeps_best_unique(search_trace(idx, q, probes).ranking, knn_insert_all(empty_ranking(), all), all);
}


/// Number of vectors of cluster `c`.
pub open spec fn cluster_size(idx: &Index, c: int) -> int {
    idx.cl_end(c) - idx.cl_start(c)
}

/// Total size of the clusters below `u` that are not in `s`.
pub open spec fn unscanned_size(idx: &Index, s: Set<int>, u: int) -> int
    decreases u,
{
    if u <= 0 {
        0
    } else {
        unscanned_size(idx, s, u - 1) + if s.contains(u - 1) {
            0
        } else {
            cluster_size(idx, u - 1)
        }
    }
}

/// Number of the clusters below `u` that are not in `s`.
pub open spec fn unscanned_count(s: Set<int>, u: int) -> int
    decreases u,
{
    if u <= 0 {
        0
    } else {
        unscanned_count(s, u - 1) + if s.contains(u - 1) {
            0int
        } else {
            1int
        }
    }
}

proof fn lemma_unscanned_insert(idx: &Index, s: Set<int>, c: int, u: int)
    requires
        idx.clusters_partition(),
        0 <= c < 256,
        !s.contains(c),
        0 <= u <= 256,
    ensures
        0 <= unscanned_size(idx, s.insert(c), u),
        0 <= unscanned_count(s.insert(c), u),
        c < u ==> unscanned_size(idx, s.insert(c), u) == unscanned_size(idx, s, u) - cluster_size(
            idx,
            c,
        ),
        c < u ==> unscanned_count(s.insert(c), u) == unscanned_count(s, u) - 1,
        c >= u ==> unscanned_size(idx, s.insert(c), u) == unscanned_size(idx, s, u),
        c >= u ==> unscanned_count(s.insert(c), u) == unscanned_count(s, u),
    decreases u,
{
    if u > 0 {
        lemma_unscanned_insert(idx, s, c, u - 1);
        assert(idx.offsets@[u - 1] <= idx.offsets@[u]);
    }
}

proof fn lemma_unscanned_full(idx: &Index, u: int)
    requires
        idx.clusters_partition(),
        0 <= u <= 256,
    ensures
        unscanned_size(idx, Set::empty(), u) == idx.offsets@[u] - idx.offsets@[0],
        unscanned_count(Set::<int>::empty(), u) == u,
    decreases u,
{
    if u > 0 {
        lemma_unscanned_full(idx, u - 1);
    }
}

/// The counters after scanning or passing over a cluster outside `s`
/// keep within what is left.
proof fn lemma_count_step(idx: &Index, q: Seq<i16>, tr: Trace, s: Set<int>, c: int)
    requires
        idx.searchable(),
        idx.clusters_partition(),
        0 <= c < 256,
        !s.contains(c),
        tr.vectors + unscanned_size(idx, s, 256) <= idx.n,
        tr.clusters + unscanned_count(s, 256) <= 256,
    ensures
        scan_trace(idx, q, tr, c).vectors + unscanned_size(idx, s.insert(c), 256) <= idx.n,
        scan_trace(idx, q, tr, c).clusters + unscanned_count(s.insert(c), 256) <= 256,
        tr.vectors + unscanned_size(idx, s.insert(c), 256) <= idx.n,
        tr.clusters + unscanned_count(s.insert(c), 256) <= 256,
{
    lemma_unscanned_insert(idx, s, c, 256);
    assert(idx.offsets@[c] <= idx.offsets@[c + 1]);
    assert(idx.offsets@[c + 1] <= idx.n);
}

proof fn lemma_probe_counts(idx: &Index, q: Seq<i16>, probes: Seq<i32>)
    requires
        idx.searchable(),
        idx.clusters_partition(),
        probes_distinct(probes),
        forall|k: int| 0 <= k < probes.len() ==> #[trigger] probes[k] < 256,
    ensures
        probe_pass(idx, q, probes).vectors + unscanned_size(idx, probed_set(idx, probes), 256)
            <= idx.n,
        probe_pass(idx, q, probes).clusters + unscanned_count(probed_set(idx, probes), 256) <= 256,
    decreases probes.len(),
{
    if probes.len() == 0 {
        assert(probed_set(idx, probes) =~= Set::<int>::empty());
        lemma_unscanned_full(idx, 256);
    } else {
        let pre = probes.drop_last();
        assert forall|a: int, b: int|
            0 <= a < pre.len() && 0 <= b < pre.len() && a != b && pre[a] >= 0 implies #[trigger] pre[a]
            != #[trigger] pre[b] by {
            assert(pre[a] == probes[a] && pre[b] == probes[b]);
        }
        assert forall|k: int| 0 <= k < pre.len() implies #[trigger] pre[k] < 256 by {
            assert(pre[k] == probes[k]);
        }
        lemma_probe_counts(idx, q, pre);
        let c = probes.last() as int;
        let ps_pre = probed_set(idx, pre);
        let ps = probed_set(idx, probes);
        assert forall|c2: int| ps_pre.contains(c2) implies ps.contains(c2) by {
            let j = choose|j: int| 0 <= j < pre.len() && pre[j] == c2;
            assert(probes[j] == c2);
        }
        if c < 0 || !idx.nonempty(c) {
            assert forall|c2: int| ps.contains(c2) implies ps_pre.contains(c2) by {
                let j = choose|j: int| 0 <= j < probes.len() && probes[j] == c2;
                if j < pre.len() {
                    assert(pre[j] == c2);
                }
            }
            assert(ps =~= ps_pre);
        } else {
            assert(!ps_pre.contains(c)) by {
                if ps_pre.contains(c) {
                    let j = choose|j: int| 0 <= j < pre.len() && pre[j] == c;
                    assert(probes[j] == probes[probes.len() - 1]);
                }
            }
            assert forall|c2: int| ps.contains(c2) implies ps_pre.insert(c).contains(c2) by {
                let j = choose|j: int| 0 <= j < probes.len() && probes[j] == c2;
                if j < pre.len() {
                    assert(pre[j] == c2);
                }
            }
            assert(ps.contains(c)) by {
                assert(probes[probes.len() - 1] == c);
            }
            assert(ps =~= ps_pre.insert(c));
            lemma_count_step(idx, q, probe_pass(idx, q, pre), ps_pre, c);
        }
    }
}

proof fn lemma_repair_counts(idx: &Index, q: Seq<i16>, probes: Seq<i32>, upto: int)
    requires
        idx.searchable(),
        idx.clusters_partition(),
        probes_distinct(probes),
        forall|k: int| 0 <= k < probes.len() ==> #[trigger] probes[k] < 256,
        0 <= upto <= 256,
    ensures
        repair_pass(idx, q, probes, upto).vectors + unscanned_size(
            idx,
            repaired_set(idx, probes, upto),
            256,
        ) <= idx.n,
        repair_pass(idx, q, probes, upto).clusters + unscanned_count(
            repaired_set(idx, probes, upto),
            256,
        ) <= 256,
    decreases upto,
{
    if upto == 0 {
        lemma_probe_counts(idx, q, probes);
        assert(repaired_set(idx, probes, 0) =~= probed_set(idx, probes));
    } else {
        lemma_repair_counts(idx, q, probes, upto - 1);
        let c = upto - 1;
        let pre = repaired_set(idx, probes, upto - 1);
        if probed(idx, probes, c) {
            assert(repaired_set(idx, probes, upto) =~= pre);
        } else {
            assert(repaired_set(idx, probes, upto) =~= pre.insert(c));
            assert(!pre.contains(c));
            lemma_count_step(idx, q, repair_pass(idx, q, probes, upto - 1), pre, c);
        }
    }
}

/// With no cluster probed twice, the search scans at most the 256
/// clusters once each and at most the `n` vectors, so its counters never
/// wrap: they count the clusters and the vectors it scanned.
pub proof fn lemma_search_counts(idx: &Index, q: Seq<i16>, probes: Seq<i32>)
    requires
        idx.searchable(),
        idx.clusters_partition(),
        probes_distinct(probes),
        forall|k: int| 0 <= k < probes.len() ==> #[trigger] probes[k] < 256,
    ensures
        search_trace(idx, q, probes).clusters <= 256,
        search_trace(idx, q, probes).vectors <= idx.n,
{
    lemma_repair_counts(idx, q, probes, 256);
    let s = repaired_set(idx, probes, 256);
    assert(s =~= Set::new(|c: int| 0 <= c < 256));
    lemma_unscanned_nonneg(idx, s, 256);
}

proof fn lemma_unscanned_nonneg(idx: &Index, s: Set<int>, u: int)
    requires
        idx.clusters_partition(),
        0 <= u <= 256,
    ensures
        0 <= unscanned_size(idx, s, u),
        0 <= unscanned_count(s, u),
    decreases u,
{
    if u > 0 {
        lemma_unscanned_nonneg(idx, s, u - 1);
        assert(idx.offsets@[u - 1] <= idx.offsets@[u]);
    }
}

}
