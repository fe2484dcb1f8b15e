//! Scalar scan of a range of column-major quantized vectors into a `Top5`.
//!
//! Column `j` of `dims_buf` holds dimension `j` of every vector:
//! `dims_buf[j * n + i]` is dimension `j` of vector `i`. Dimensions are
//! accumulated in the order 5, 6, 2, 0, 7, 8, 11, 12, 9, 10, 1, 13, 3, 4
//! and a vector is dropped as soon as its partial sum is already farther
//! than the farthest kept candidate.
use vstd::prelude::*;
use crate::top5::{
    Cand, Top5, below_sentinel, distinct_keys, is_better, keeps_best, key_lt, knn_insert,
    knn_insert_all, lemma_brute_force_keeps_best, nearest_of,
};

verus! {

/// Squared difference of two quantized coordinates.
pub open spec fn sq(a: i16, b: i16) -> int {
    (a - b) * (a - b)
}

/// Squared Euclidean distance between `q` and vector `i` of the
/// column-major buffer `dims` with `n` vectors per column.
pub open spec fn sq_dist(dims: Seq<i16>, n: int, q: Seq<i16>, i: int) -> int {
    sq(q[0], dims[0 * n + i]) + sq(q[1], dims[1 * n + i]) + sq(q[2], dims[2 * n + i]) + sq(
        q[3],
        dims[3 * n + i],
    ) + sq(q[4], dims[4 * n + i]) + sq(q[5], dims[5 * n + i]) + sq(q[6], dims[6 * n + i]) + sq(
        q[7],
        dims[7 * n + i],
    ) + sq(q[8], dims[8 * n + i]) + sq(q[9], dims[9 * n + i]) + sq(q[10], dims[10 * n + i]) + sq(
        q[11],
        dims[11 * n + i],
    ) + sq(q[12], dims[12 * n + i]) + sq(q[13], dims[13 * n + i])
}

/// The candidate that vector `i` makes for query `q`.
pub open spec fn cand_at(
    dims: Seq<i16>,
    n: int,
    q: Seq<i16>,
    labels: Seq<u8>,
    ids: Seq<u32>,
    i: int,
) -> Cand {
    (sq_dist(dims, n, q, i) as u64, ids[i], labels[i])
}

/// The candidates of vectors `start..end`, in order (none when
/// `end <= start`).
pub open spec fn range_cands(
    dims: Seq<i16>,
    n: int,
    q: Seq<i16>,
    labels: Seq<u8>,
    ids: Seq<u32>,
    start: int,
    end: int,
) -> Seq<Cand> {
    Seq::new(if start < end { (end - start) as nat } else { 0 }, |k: int| cand_at(dims, n, q, labels, ids, start + k))
}

/// One squared coordinate difference lies in `0 ..= 65535²`.
pub proof fn lemma_sq_bounds(a: i16, b: i16)
    ensures
        0 <= sq(a, b) <= 65535 * 65535,
{
    let d = a - b;
    assert(-65535 <= d <= 65535);
    assert(0 <= d * d <= 65535 * 65535) by (nonlinear_arith)
        requires
            -65535 <= d <= 65535,
    ;
}

/// A full distance is nonnegative and far below `u64::MAX`.
pub proof fn lemma_sq_dist_bounds(dims: Seq<i16>, n: int, q: Seq<i16>, i: int)
    ensures
        0 <= sq_dist(dims, n, q, i) <= 14 * 65535 * 65535,
{
    lemma_sq_bounds(q[0], dims[0 * n + i]);
    lemma_sq_bounds(q[1], dims[1 * n + i]);
    lemma_sq_bounds(q[2], dims[2 * n + i]);
    lemma_sq_bounds(q[3], dims[3 * n + i]);
    lemma_sq_bounds(q[4], dims[4 * n + i]);
    lemma_sq_bounds(q[5], dims[5 * n + i]);
    lemma_sq_bounds(q[6], dims[6 * n + i]);
    lemma_sq_bounds(q[7], dims[7 * n + i]);
    lemma_sq_bounds(q[8], dims[8 * n + i]);
    lemma_sq_bounds(q[9], dims[9 * n + i]);
    lemma_sq_bounds(q[10], dims[10 * n + i]);
    lemma_sq_bounds(q[11], dims[11 * n + i]);
    lemma_sq_bounds(q[12], dims[12 * n + i]);
    lemma_sq_bounds(q[13], dims[13 * n + i]);
}

fn sqd(a: i16, b: i16) -> (r: u64)
    ensures
        r == sq(a, b),
{
    proof {
        lemma_sq_bounds(a, b);
    }
    let d = a as i32 - b as i32;
    (d as i64 * d as i64) as u64
}

/// Offer vectors `start..end` to `t`, skipping those whose partial
/// distance already exceeds the farthest kept one. The outcome is the
/// same as offering every vector of the range with its full distance.
pub fn scan_range_scalar(
    dims_buf: &[i16],
    n_per_dim: usize,
    start: usize,
    end: usize,
    q: &[i16; 14],
    labels: &[u8],
    ids: &[u32],
    t: &mut Top5,
)
    requires
        old(t).wf(),
        14 * n_per_dim <= dims_buf@.len(),
        start < end ==> end <= n_per_dim && end <= labels@.len() && end <= ids@.len(),
    ensures
        final(t).wf(),
        final(t).model() == knn_insert_all(
            old(t).model(),
            range_cands(dims_buf@, n_per_dim as int, q@, labels@, ids@, start as int, end as int),
        ),
{
    let n = n_per_dim;
    let ghost dims = dims_buf@;
    let len = dims_buf.len();
    let ghost m0 = t.model();
    let o1 = n;
    let o2 = 2 * n;
    let o3 = 3 * n;
    let o4 = 4 * n;
    let o5 = 5 * n;
    let o6 = 6 * n;
    let o7 = 7 * n;
    let o8 = 8 * n;
    let o9 = 9 * n;
    let o10 = 10 * n;
    let o11 = 11 * n;
    let o12 = 12 * n;
    let o13 = 13 * n;

    let q0 = q[0];
    let q1 = q[1];
    let q2 = q[2];
    let q3 = q[3];
    let q4 = q[4];
    let q5 = q[5];
    let q6 = q[6];
    let q7 = q[7];
    let q8 = q[8];
    let q9 = q[9];
    let q10 = q[10];
    let q11 = q[11];
    let q12 = q[12];
    let q13 = q[13];

    if start >= end {
        assert(range_cands(dims, n as int, q@, labels@, ids@, start as int, end as int) =~= Seq::<Cand>::empty());
        return;
    }
    let mut i = start;
    while i < end
        invariant
            start <= i <= end <= n,
            end <= labels@.len(),
            end <= ids@.len(),
            14 * n <= dims.len(),
            len == dims.len(),
            dims == dims_buf@,
            o1 == n,
            o2 == 2 * n,
            o3 == 3 * n,
            o4 == 4 * n,
            o5 == 5 * n,
            o6 == 6 * n,
            o7 == 7 * n,
            o8 == 8 * n,
            o9 == 9 * n,
            o10 == 10 * n,
            o11 == 11 * n,
            o12 == 12 * n,
            o13 == 13 * n,
            q0 == q[0],
            q1 == q[1],
            q2 == q[2],
            q3 == q[3],
            q4 == q[4],
            q5 == q[5],
            q6 == q[6],
            q7 == q[7],
            q8 == q[8],
            q9 == q[9],
            q10 == q[10],
            q11 == q[11],
            q12 == q[12],
            q13 == q[13],
            t.wf(),
            t.model() == knn_insert_all(m0, range_cands(dims, n as int, q@, labels@, ids@, start as int, i as int)),
        decreases end - i,
    {
        let ghost before = t.model();
        let ghost c = cand_at(dims, n as int, q@, labels@, ids@, i as int);
        proof {
            lemma_sq_dist_bounds(dims, n as int, q@, i as int);
            assert(range_cands(dims, n as int, q@, labels@, ids@, start as int, i + 1).drop_last() =~= range_cands(dims, n as int, q@, labels@, ids@, start as int, i as int));
            assert(range_cands(dims, n as int, q@, labels@, ids@, start as int, i + 1).last() == c);
            lemma_sq_bounds(q[0], dims[0 * n + i]);
            lemma_sq_bounds(q[1], dims[1 * n + i]);
            lemma_sq_bounds(q[2], dims[2 * n + i]);
            lemma_sq_bounds(q[3], dims[3 * n + i]);
            lemma_sq_bounds(q[4], dims[4 * n + i]);
            lemma_sq_bounds(q[5], dims[5 * n + i]);
            lemma_sq_bounds(q[6], dims[6 * n + i]);
            lemma_sq_bounds(q[7], dims[7 * n + i]);
            lemma_sq_bounds(q[8], dims[8 * n + i]);
            lemma_sq_bounds(q[9], dims[9 * n + i]);
            lemma_sq_bounds(q[10], dims[10 * n + i]);
            lemma_sq_bounds(q[11], dims[11 * n + i]);
            lemma_sq_bounds(q[12], dims[12 * n + i]);
            lemma_sq_bounds(q[13], dims[13 * n + i]);
        }
        let mut dist: u64 = 0;
        dist += sqd(q5, dims_buf[o5 + i]);
        if dist > t.worst_d {
            i += 1;
            continue;
        }
        dist += sqd(q6, dims_buf[o6 + i]);
        if dist > t.worst_d {
            i += 1;
            continue;
        }
        dist += sqd(q2, dims_buf[o2 + i]);
        if dist > t.worst_d {
            i += 1;
            continue;
        }
        dist += sqd(q0, dims_buf[i]);
        if dist > t.worst_d {
            i += 1;
            continue;
        }
        dist += sqd(q7, dims_buf[o7 + i]);
        if dist > t.worst_d {
            i += 1;
            continue;
        }
        dist += sqd(q8, dims_buf[o8 + i]);
        if dist > t.worst_d {
            i += 1;
            continue;
        }
        dist += sqd(q11, dims_buf[o11 + i]);
        if dist > t.worst_d {
            i += 1;
            continue;
        }
        dist += sqd(q12, dims_buf[o12 + i]);
        if dist > t.worst_d {
            i += 1;
            continue;
        }
        dist += sqd(q9, dims_buf[o9 + i]);
        if dist > t.worst_d {
            i += 1;
            continue;
        }
        dist += sqd(q10, dims_buf[o10 + i]);
        if dist > t.worst_d {
            i += 1;
            continue;
        }
        dist += sqd(q1, dims_buf[o1 + i]);
        if dist > t.worst_d {
            i += 1;
            continue;
        }
        dist += sqd(q13, dims_buf[o13 + i]);
        if dist > t.worst_d {
            i += 1;
            continue;
        }
        dist += sqd(q3, dims_buf[o3 + i]);
        if dist > t.worst_d {
            i += 1;
            continue;
        }
        dist += sqd(q4, dims_buf[o4 + i]);
        assert(dist == sq_dist(dims, n as int, q@, i as int));
        let oid = ids[i];
        if is_better(dist, oid, t.worst_d, t.worst_id) {
            t.try_insert(dist, labels[i], oid);
        }
        i += 1;
    }
}


/// A scan of vectors `start..end` into an empty list, with their dataset
/// positions all different, keeps the five nearest of that range.
pub proof fn lemma_fresh_scan_keeps_best(
    dims: Seq<i16>,
    n: int,
    q: Seq<i16>,
    labels: Seq<u8>,
    ids: Seq<u32>,
    start: int,
    end: int,
)
    requires
        forall|a: int, b: int|
            start <= a < end && start <= b < end && a != b ==> #[trigger] ids[a] != #[trigger] ids[b],
    ensures
        keeps_best(
            nearest_of(range_cands(dims, n, q, labels, ids, start, end)),
            range_cands(dims, n, q, labels, ids, start, end),
            Set::new(|i: int| 0 <= i < range_cands(dims, n, q, labels, ids, start, end).len()),
        ),
{
    let rc = range_cands(dims, n, q, labels, ids, start, end);
    assert forall|i: int| 0 <= i < rc.len() implies #[trigger] rc[i].0 < u64::MAX by {
        lemma_sq_dist_bounds(dims, n, q, start + i);
    }
    assert forall|a: int, b: int|
        0 <= a < rc.len() && 0 <= b < rc.len() && a != b implies (#[trigger] rc[a].0 != rc[b].0
        || rc[a].1 != #[trigger] rc[b].1) by {
        assert(ids[start + a] != ids[start + b]);
    }
    assert(distinct_keys(rc));
    assert(below_sentinel(rc));
    lemma_brute_force_keeps_best(rc);
}

}
