use sketchy::index::{bbox_lower_bound, probe_count, search_probed, Index};
use sketchy::scan::scan_range_scalar;
use sketchy::top5::{is_better, is_worse, Top5};

/// Build an index from rows grouped by cluster: `groups[c]` holds the
/// rows of cluster `c` as `(coordinates, label, dataset position)`.
fn make_index(groups: &[Vec<([i16; 14], u8, u32)>]) -> Index {
    let rows: Vec<&([i16; 14], u8, u32)> = groups.iter().flat_map(|g| g.iter()).collect();
    let n = rows.len();
    let mut dims_buf = vec![0i16; 14 * n];
    for (i, r) in rows.iter().enumerate() {
        for j in 0..14 {
            dims_buf[j * n + i] = r.0[j];
        }
    }
    let labels: Vec<u8> = rows.iter().map(|r| r.1).collect();
    let orig_ids: Vec<u32> = rows.iter().map(|r| r.2).collect();
    let mut bbox_min = vec![0i16; 256 * 14];
    let mut bbox_max = vec![0i16; 256 * 14];
    let mut offsets = vec![0u32; 257];
    let mut at = 0u32;
    for c in 0..256 {
        offsets[c] = at;
        if c < groups.len() {
            for j in 0..14 {
                let lo = groups[c].iter().map(|r| r.0[j]).min().unwrap_or(0);
                let hi = groups[c].iter().map(|r| r.0[j]).max().unwrap_or(0);
                bbox_min[c * 14 + j] = lo;
                bbox_max[c * 14 + j] = hi;
            }
            at += groups[c].len() as u32;
        }
    }
    offsets[256] = at;
    Index {
        n,
        dims_buf,
        labels,
        orig_ids,
        centroid_bits: vec![0u32; 256 * 14],
        bbox_min,
        bbox_max,
        offsets,
    }
}

fn point(x: i16, y: i16) -> [i16; 14] {
    let mut p = [0i16; 14];
    p[0] = x;
    p[1] = y;
    p
}

fn sqdist(a: &[i16; 14], b: &[i16; 14]) -> u64 {
    (0..14).map(|j| {
        let d = a[j] as i64 - b[j] as i64;
        (d * d) as u64
    }).sum()
}

/// The five nearest by (distance, dataset position) and their fraud count.
fn brute_force(groups: &[Vec<([i16; 14], u8, u32)>], q: &[i16; 14]) -> (Vec<(u64, u32)>, i32) {
    let mut all: Vec<(u64, u32, u8)> = groups
        .iter()
        .flat_map(|g| g.iter())
        .map(|r| (sqdist(&r.0, q), r.2, r.1))
        .collect();
    all.sort_by_key(|c| (c.0, c.1));
    all.truncate(5);
    let frauds = all.iter().filter(|c| c.2 == 1).count() as i32;
    let mut keys: Vec<(u64, u32)> = all.iter().map(|c| (c.0, c.1)).collect();
    keys.sort();
    (keys, frauds)
}

fn kept(t: &Top5) -> Vec<(u64, u32)> {
    let mut keys: Vec<(u64, u32)> = (0..5)
        .filter(|&k| t.best_d[k] != u64::MAX)
        .map(|k| (t.best_d[k], t.best_id[k]))
        .collect();
    keys.sort();
    keys
}

fn three_clusters() -> Vec<Vec<([i16; 14], u8, u32)>> {
    let near: Vec<([i16; 14], u8, u32)> = (0..6)
        .map(|k| (point(10 * k as i16, -5 * k as i16), (k % 2) as u8, 100 + k as u32))
        .collect();
    let mid: Vec<([i16; 14], u8, u32)> = (0..6)
        .map(|k| (point(5000 + 3 * k as i16, 5000 - 2 * k as i16), 1, 200 + k as u32))
        .collect();
    let far: Vec<([i16; 14], u8, u32)> = (0..6)
        .map(|k| (point(-9000 - k as i16, -9000), 0, 300 + k as u32))
        .collect();
    vec![near, mid, far]
}

#[test]
fn new_top5_is_empty() {
    let t = Top5::new();
    assert_eq!(t.frauds(), 0);
    assert_eq!(t.worst, 0);
    assert_eq!(t.worst_d, u64::MAX);
    assert_eq!(t.worst_id, u32::MAX);
    for k in 0..5 {
        assert_eq!(t.best_d[k], u64::MAX);
        assert_eq!(t.best_id[k], u32::MAX);
        assert_eq!(t.best_l[k], 0);
    }
}

#[test]
fn tie_break_prefers_smaller_position() {
    assert!(is_better(5, 1, 5, 2));
    assert!(!is_better(5, 2, 5, 1));
    assert!(!is_better(5, 2, 5, 2));
    assert!(is_better(4, 9, 5, 0));
    assert!(is_worse(5, 2, 5, 1));
    assert!(is_worse(6, 0, 5, 9));
    assert!(!is_worse(5, 1, 5, 1));
}

#[test]
fn try_insert_keeps_five_nearest() {
    let mut t = Top5::new();
    let offers: [(u64, u8, u32); 8] = [
        (50, 1, 7),
        (10, 0, 3),
        (30, 1, 9),
        (30, 0, 2),
        (70, 1, 1),
        (20, 1, 4),
        (30, 1, 1),
        (90, 0, 0),
    ];
    for &(d, l, id) in offers.iter() {
        t.try_insert(d, l, id);
    }
    // Nearest five by (distance, position): (10,3) (20,4) (30,1) (30,2) (30,9).
    assert_eq!(kept(&t), vec![(10, 3), (20, 4), (30, 1), (30, 2), (30, 9)]);
    assert_eq!(t.frauds(), 3);
    assert_eq!((t.worst_d, t.worst_id), (30, 9));
}

#[test]
fn try_insert_ignores_equal_key() {
    let mut t = Top5::new();
    for id in 0..5u32 {
        t.try_insert(100, 1, id);
    }
    assert_eq!((t.worst_d, t.worst_id), (100, 4));
    // Same key as the farthest: not strictly nearer, so not taken.
    t.try_insert(100, 0, 4);
    assert_eq!(t.frauds(), 5);
    // Same distance, smaller position: taken in place of position 4.
    t.try_insert(100, 0, 3);
    assert_eq!(t.frauds(), 4);
}

#[test]
fn scan_range_matches_full_offers() {
    let groups = three_clusters();
    let idx = make_index(&groups);
    let q = point(7, 3);
    let mut t = Top5::new();
    scan_range_scalar(&idx.dims_buf, idx.n, 0, idx.n, &q, &idx.labels, &idx.orig_ids, &mut t);
    let (keys, frauds) = brute_force(&groups, &q);
    assert_eq!(kept(&t), keys);
    assert_eq!(t.frauds(), frauds);

    // An empty range changes nothing.
    let mut u = Top5::new();
    scan_range_scalar(&idx.dims_buf, idx.n, 5, 5, &q, &idx.labels, &idx.orig_ids, &mut u);
    assert_eq!(kept(&u), vec![]);
}

#[test]
fn bbox_lower_bound_exact_values() {
    let mut bmin = vec![0i16; 256 * 14];
    let mut bmax = vec![0i16; 256 * 14];
    for j in 0..14 {
        bmin[14 + j] = -10;
        bmax[14 + j] = 10;
    }
    bmin[14] = 100;
    bmax[14] = 200;
    bmin[15] = -300;
    bmax[15] = -200;
    let mut q = [0i16; 14];
    q[0] = 50; // 50 below the box: 50^2
    q[1] = 0; // 200 above the box: 200^2
    q[2] = 5; // inside: 0
    q[3] = -30; // 20 below: 20^2
    assert_eq!(bbox_lower_bound(&q, &bmin, &bmax, 1), 2500 + 40000 + 400);
    assert_eq!(bbox_lower_bound(&q, &bmin, &bmax, 0), 2500 + 25 + 900);
}

#[test]
fn search_probe_near_cluster_prunes_the_rest() {
    let groups = three_clusters();
    let idx = make_index(&groups);
    assert!(idx.is_searchable());
    let q = point(0, 0);
    let (t, stats) = search_probed(&idx, &q, &[0]);
    let (keys, frauds) = brute_force(&groups, &q);
    assert_eq!(kept(&t), keys);
    assert_eq!(t.frauds(), frauds);
    assert_eq!(frauds, 2);
    assert_eq!(stats.scanned_clusters, 1);
    assert_eq!(stats.scanned_vectors, 6);
}

#[test]
fn search_repairs_a_wrong_probe() {
    let groups = three_clusters();
    let idx = make_index(&groups);
    let q = point(0, 0);
    // Probing the middle cluster first still finds the nearest ones.
    let (t, stats) = search_probed(&idx, &q, &[1]);
    let (keys, frauds) = brute_force(&groups, &q);
    assert_eq!(kept(&t), keys);
    assert_eq!(t.frauds(), frauds);
    assert_eq!(stats.scanned_clusters, 2);
    assert_eq!(stats.scanned_vectors, 12);
    // Only negative and empty entries: the repair pass scans the first
    // cluster while slots are empty, then prunes the other two.
    let (t2, stats2) = search_probed(&idx, &q, &[-1, 200]);
    assert_eq!(kept(&t2), keys);
    assert_eq!(stats2.scanned_clusters, 1);
    assert_eq!(stats2.scanned_vectors, 6);
}

#[test]
fn search_matches_brute_force_on_many_queries() {
    let mut groups: Vec<Vec<([i16; 14], u8, u32)>> = Vec::new();
    let mut seed: u32 = 12345;
    let mut next = || {
        seed = seed.wrapping_mul(1103515245).wrapping_add(12345);
        ((seed >> 16) % 2001) as i16 - 1000
    };
    let mut id = 0u32;
    for c in 0..8 {
        let cx = (c as i16 - 4) * 2000;
        let mut g = Vec::new();
        for _ in 0..7 {
            let mut p = [0i16; 14];
            for j in 0..14 {
                p[j] = next() / 4;
            }
            p[0] = p[0].saturating_add(cx);
            // Positions interleave across clusters; labels follow a pattern.
            g.push((p, (id % 3 == 0) as u8, (id * 7919) % 1000));
            id += 1;
        }
        groups.push(g);
    }
    // Add an exact duplicate with a different position to exercise ties.
    let dup = groups[2][0].0;
    groups[5].push((dup, 1, 999_999));
    let idx = make_index(&groups);
    assert!(idx.is_searchable());
    for k in 0..40 {
        let mut q = [0i16; 14];
        for j in 0..14 {
            q[j] = next() / 2;
        }
        q[0] = q[0].saturating_add(((k % 9) as i16 - 4) * 1900);
        let probes = [(k % 8) as i32, ((k + 3) % 8) as i32];
        let (t, _) = search_probed(&idx, &q, &probes);
        let (keys, frauds) = brute_force(&groups, &q);
        assert_eq!(kept(&t), keys);
        assert_eq!(t.frauds(), frauds);
    }
    // A query equal to the duplicated point keeps both copies.
    let (t, _) = search_probed(&idx, &dup, &[0]);
    let (keys, _) = brute_force(&groups, &dup);
    assert_eq!(kept(&t), keys);
    assert_eq!(keys[0].0, 0);
    assert_eq!(keys[1].0, 0);
}

#[test]
fn search_on_fewer_than_five_vectors() {
    let groups = vec![vec![(point(1, 1), 1, 5), (point(2, 2), 1, 6)], vec![], vec![(point(-3, 0), 0, 7)]];
    let idx = make_index(&groups);
    let (t, stats) = search_probed(&idx, &point(0, 0), &[0]);
    assert_eq!(kept(&t), vec![(2, 5), (8, 6), (9, 7)]);
    assert_eq!(t.frauds(), 2);
    assert_eq!(stats.scanned_clusters, 2);
    assert_eq!(stats.scanned_vectors, 3);
}

#[test]
fn dim_returns_one_coordinate_column() {
    let groups = three_clusters();
    let idx = make_index(&groups);
    let col0 = idx.dim(0);
    assert_eq!(col0.len(), 18);
    assert_eq!(col0[1], 10);
    assert_eq!(idx.dim(1)[2], -10);
    assert_eq!(idx.dim(13)[17], 0);
}

#[test]
fn bbox_bound_never_exceeds_member_distance() {
    let groups = three_clusters();
    let idx = make_index(&groups);
    let queries = [point(0, 0), point(4000, 6000), point(-9100, -8000), point(25, -30)];
    for q in queries.iter() {
        for (c, g) in groups.iter().enumerate() {
            let lb = bbox_lower_bound(q, &idx.bbox_min, &idx.bbox_max, c);
            for r in g.iter() {
                assert!(lb <= sqdist(&r.0, q));
            }
        }
    }
}

#[test]
fn farthest_kept_never_gets_farther() {
    let mut t = Top5::new();
    let mut last = (t.worst_d, t.worst_id);
    let mut seed: u64 = 99;
    for _ in 0..200 {
        seed = seed.wrapping_mul(6364136223846793005).wrapping_add(1442695040888963407);
        let d = (seed >> 40) % 1000;
        let id = ((seed >> 20) % 50) as u32;
        t.try_insert(d, (id % 2) as u8, id);
        let now = (t.worst_d, t.worst_id);
        assert!(!is_better(last.0, last.1, now.0, now.1));
        last = now;
    }
}

#[test]
fn probe_count_is_clamped() {
    assert_eq!(probe_count(0), 1);
    assert_eq!(probe_count(1), 1);
    assert_eq!(probe_count(17), 17);
    assert_eq!(probe_count(256), 256);
    assert_eq!(probe_count(257), 256);
    assert_eq!(probe_count(u32::MAX), 256);
}

#[test]
fn insertion_order_does_not_matter() {
    let offers: Vec<(u64, u8, u32)> = (0..12u32)
        .map(|k| (((k * 37) % 11) as u64, (k % 3 == 0) as u8, k))
        .collect();
    let mut forward = Top5::new();
    for &(d, l, id) in offers.iter() {
        forward.try_insert(d, l, id);
    }
    let mut backward = Top5::new();
    for &(d, l, id) in offers.iter().rev() {
        backward.try_insert(d, l, id);
    }
    let mut shuffled = Top5::new();
    for k in 0..12 {
        let (d, l, id) = offers[(k * 5) % 12];
        shuffled.try_insert(d, l, id);
    }
    assert_eq!(kept(&forward), kept(&backward));
    assert_eq!(kept(&forward), kept(&shuffled));
    assert_eq!(forward.frauds(), backward.frauds());
    assert_eq!(forward.frauds(), shuffled.frauds());
}

#[test]
fn search_accepts_longer_buffers() {
    let groups = three_clusters();
    let mut idx = make_index(&groups);
    idx.labels.extend_from_slice(&[1, 1, 1]);
    idx.orig_ids.extend_from_slice(&[0, 0, 0]);
    idx.dims_buf.extend_from_slice(&[0; 14]);
    idx.bbox_min.extend_from_slice(&[0; 14]);
    idx.bbox_max.extend_from_slice(&[0; 14]);
    idx.offsets.push(99);
    idx.centroid_bits.push(0);
    assert!(idx.is_searchable());
    let q = point(0, 0);
    let (t, stats) = search_probed(&idx, &q, &[0]);
    let (keys, frauds) = brute_force(&groups, &q);
    assert_eq!(kept(&t), keys);
    assert_eq!(t.frauds(), frauds);
    assert_eq!(stats.scanned_vectors, 6);
}
