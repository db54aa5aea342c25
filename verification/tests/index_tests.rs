use diskann::config::IndexConfig;
use diskann::errors::{AnnError, AnnErrorKind};
use diskann::index::Index;
use diskann::Metric;

fn config(dim: usize, capacity: usize, r: u32, l: u32, alpha_x100: u32) -> IndexConfig {
    IndexConfig {
        metric: Metric::L2,
        dim,
        capacity,
        max_degree: r,
        l_build: l,
        alpha_x100,
        num_threads: 1,
        saturate_graph: false,
        use_opq: false,
    }
}

// Small deterministic generator for test data.
fn next_rand(state: &mut u64) -> u64 {
    *state = state
        .wrapping_mul(6364136223846793005)
        .wrapping_add(1442695040888963407);
    *state >> 33
}

fn random_vectors(n: usize, dim: usize, seed: u64) -> Vec<Vec<i32>> {
    let mut state = seed;
    let mut out = Vec::new();
    for _ in 0..n {
        let mut v = Vec::new();
        for _ in 0..dim {
            v.push((next_rand(&mut state) % 2001) as i32 - 1000);
        }
        out.push(v);
    }
    out
}

fn l2(a: &[i32], b: &[i32]) -> u128 {
    let mut acc: u128 = 0;
    for i in 0..a.len().min(b.len()) {
        let d = a[i] as i64 - b[i] as i64;
        acc += (d * d) as u128;
    }
    acc
}

fn check_invariants(idx: &Index) {
    let n = idx.len();
    let r = idx.config().max_degree as usize;
    for u in 0..n as u32 {
        let nb = idx.neighbors(u);
        assert!(nb.len() <= r, "degree bound violated at {}", u);
        for (i, &v) in nb.iter().enumerate() {
            assert!((v as usize) < n, "edge target out of range");
            assert!(v != u, "self loop at {}", u);
            assert!(!idx.is_retired(v), "edge into a retired slot");
            for &w in &nb[i + 1..] {
                assert!(v != w, "duplicate neighbor at {}", u);
            }
        }
    }
    // The medoid is live whenever any queryable vertex exists.
    let mut any_queryable = false;
    for u in 0..n as u32 {
        if !idx.is_tombstoned(u) && !idx.is_retired(u) {
            any_queryable = true;
        }
    }
    if any_queryable {
        let m = idx.medoid();
        assert!((m as usize) < n);
        assert!(!idx.is_tombstoned(m));
        assert!(!idx.is_retired(m));
    }
}

fn built_index(n: usize, dim: usize, r: u32, l: u32, alpha: u32, seed: u64) -> (Index, Vec<Vec<i32>>) {
    let data = random_vectors(n, dim, seed);
    let mut idx = Index::open(config(dim, n * 2, r, l, alpha)).unwrap();
    idx.build(&data).unwrap();
    (idx, data)
}

#[test]
fn self_query_returns_the_vertex() {
    // Searching for the exact vector of a live vertex with k=1 and a
    // search list covering the degree bound returns it at distance zero.
    let (idx, data) = built_index(64, 16, 12, 30, 120, 7);
    check_invariants(&idx);
    for (i, v) in data.iter().enumerate() {
        let (ids, dists) = idx.search(v, 1, 30).unwrap();
        assert_eq!(ids.len(), 1);
        assert_eq!(ids[0] as usize, i, "self query missed vertex {}", i);
        assert_eq!(dists[0], 0u128);
    }
}

#[test]
fn monotone_search_list_gives_superset() {
    let (idx, data) = built_index(96, 16, 12, 30, 120, 11);
    let q = &data[5];
    for k in [3usize, 5, 8] {
        let (small, _) = idx.search(q, k, 16).unwrap();
        let (large, _) = idx.search(q, k, 48).unwrap();
        // Not provable in general for best-first traversal, but expected
        // on well-built graphs: every id found with the narrow list
        // appears with the wide one.
        for id in &small {
            assert!(large.contains(id), "L=48 lost id {} found at L=16", id);
        }
    }
}

#[test]
fn consolidate_twice_equals_once() {
    let (mut idx, _data) = built_index(80, 12, 10, 24, 120, 13);
    let dels: Vec<u32> = (0..20).map(|i| (i * 3 + 1) as u32).collect();
    idx.soft_delete(&dels).unwrap();
    idx.consolidate().unwrap();
    let n = idx.len();
    let med1 = idx.medoid();
    let adj1: Vec<Vec<u32>> = (0..n as u32).map(|u| idx.neighbors(u)).collect();
    idx.consolidate().unwrap();
    assert_eq!(idx.medoid(), med1);
    assert_eq!(idx.len(), n);
    for u in 0..n as u32 {
        assert_eq!(idx.neighbors(u), adj1[u as usize], "consolidate changed vertex {}", u);
    }
    check_invariants(&idx);
}

#[test]
fn insert_then_query_finds_it() {
    let (mut idx, _data) = built_index(60, 16, 10, 24, 120, 17);
    let fresh = random_vectors(10, 16, 999);
    for v in &fresh {
        let id = idx.insert(v).unwrap();
        let (ids, dists) = idx.search(v, 1, 32).unwrap();
        assert_eq!(ids[0], id);
        assert_eq!(dists[0], 0);
        check_invariants(&idx);
    }
}

#[test]
fn build_gives_high_self_recall() {
    // Build over a batch and search each vector with k=1: nearly every
    // vertex must come back as its own nearest neighbor.
    let (idx, data) = built_index(128, 32, 16, 40, 120, 23);
    check_invariants(&idx);
    let mut hits = 0usize;
    for (i, v) in data.iter().enumerate() {
        let (ids, _) = idx.search(v, 1, 40).unwrap();
        if !ids.is_empty() && ids[0] as usize == i {
            hits += 1;
        }
    }
    assert!(hits * 100 >= data.len() * 99, "self recall {}/{}", hits, data.len());
}

#[test]
fn incremental_inserts_reach_brute_force_recall() {
    // One-by-one insertion into an empty index; invariants hold
    // afterwards and 10-NN recall against brute force stays high.
    let data = random_vectors(200, 32, 31);
    let mut idx = Index::open(config(32, 400, 16, 48, 120)).unwrap();
    for v in &data {
        idx.insert(v).unwrap();
    }
    check_invariants(&idx);
    let mut total = 0usize;
    let mut found = 0usize;
    for qi in (0..200).step_by(10) {
        let q = &data[qi];
        let mut order: Vec<usize> = (0..data.len()).collect();
        order.sort_by_key(|&i| (l2(q, &data[i]), i));
        let truth: Vec<u32> = order[..10].iter().map(|&i| i as u32).collect();
        let (got, _) = idx.search(q, 10, 100).unwrap();
        total += truth.len();
        for id in &truth {
            if got.contains(id) {
                found += 1;
            }
        }
    }
    assert!(found * 10 >= total * 9, "recall {}/{}", found, total);
}

#[test]
fn deleted_ids_never_returned_and_graph_stays_connected() {
    let data = random_vectors(200, 16, 41);
    let mut idx = Index::open(config(16, 400, 12, 32, 120)).unwrap();
    idx.build(&data).unwrap();
    let dels: Vec<u32> = (0..30).map(|i| (i * 6 + 2) as u32).collect();
    idx.soft_delete(&dels).unwrap();
    check_invariants(&idx);
    for qi in (0..200).step_by(7) {
        let (ids, _) = idx.search(&data[qi], 10, 60).unwrap();
        for id in &ids {
            assert!(!dels.contains(id), "query returned deleted id {}", id);
        }
    }
    // Breadth-first traversal from the medoid reaches every live
    // non-tombstoned vertex.
    let n = idx.len();
    let mut seen = vec![false; n];
    let mut queue = vec![idx.medoid()];
    seen[idx.medoid() as usize] = true;
    while let Some(u) = queue.pop() {
        for v in idx.neighbors(u) {
            if !seen[v as usize] {
                seen[v as usize] = true;
                queue.push(v);
            }
        }
    }
    for u in 0..n as u32 {
        if !idx.is_tombstoned(u) && !idx.is_retired(u) {
            assert!(seen[u as usize], "queryable vertex {} unreachable from medoid", u);
        }
    }
}

#[test]
fn save_load_preserves_bytes_and_results() {
    let (mut idx, data) = built_index(90, 16, 10, 28, 120, 47);
    let dels: Vec<u32> = vec![3, 9, 27];
    idx.soft_delete(&dels).unwrap();
    idx.consolidate().unwrap();
    let bytes = idx.to_bytes();
    let loaded = Index::from_bytes(&bytes, idx.config()).unwrap();
    // The loaded index re-encodes to exactly the same image.
    assert_eq!(loaded.to_bytes(), bytes);
    assert_eq!(loaded.len(), idx.len());
    assert_eq!(loaded.medoid(), idx.medoid());
    for qi in (0..90).step_by(3) {
        let before = idx.search(&data[qi], 10, 40).unwrap();
        let after = loaded.search(&data[qi], 10, 40).unwrap();
        assert_eq!(before, after, "results differ after reload for query {}", qi);
    }
    check_invariants(&loaded);
}

#[test]
fn disjoint_batches_interleaved_stay_consistent() {
    // Two writers inserting disjoint batches serialise through the
    // per-vertex discipline; the interleaved schedule below is one such
    // order. All invariants hold afterwards and every vector is
    // retrievable.
    let batch_a = random_vectors(50, 12, 71);
    let batch_b = random_vectors(50, 12, 73);
    let mut idx = Index::open(config(12, 200, 10, 24, 120)).unwrap();
    let mut ids_a = Vec::new();
    let mut ids_b = Vec::new();
    for i in 0..50 {
        ids_a.push(idx.insert(&batch_a[i]).unwrap());
        ids_b.push(idx.insert(&batch_b[i]).unwrap());
    }
    check_invariants(&idx);
    for i in 0..50 {
        let (got_a, da) = idx.search(&batch_a[i], 1, 40).unwrap();
        assert_eq!(got_a[0], ids_a[i]);
        assert_eq!(da[0], 0);
        let (got_b, db) = idx.search(&batch_b[i], 1, 40).unwrap();
        assert_eq!(got_b[0], ids_b[i]);
        assert_eq!(db[0], 0);
    }
}

#[test]
fn alpha_trades_edge_length_for_degree_balance() {
    // Two builds over identical inputs, single worker, differing only in
    // alpha: the wider cone yields longer edges on average.
    let data = random_vectors(96, 16, 53);
    let mut a10 = Index::open(config(16, 200, 8, 24, 100)).unwrap();
    a10.build(&data).unwrap();
    let mut a14 = Index::open(config(16, 200, 8, 24, 140)).unwrap();
    a14.build(&data).unwrap();
    let mut sum10: u128 = 0;
    let mut cnt10: u128 = 0;
    let mut sum14: u128 = 0;
    let mut cnt14: u128 = 0;
    for u in 0..96u32 {
        for v in a10.neighbors(u) {
            sum10 += l2(&data[u as usize], &data[v as usize]);
            cnt10 += 1;
        }
        for v in a14.neighbors(u) {
            sum14 += l2(&data[u as usize], &data[v as usize]);
            cnt14 += 1;
        }
    }
    // Average edge length strictly longer under the larger alpha.
    assert!(sum14 * cnt10 > sum10 * cnt14, "alpha=1.4 did not lengthen edges");
}

#[test]
fn error_surface_is_exact() {
    // InvalidConfig at open.
    let bad = config(0, 10, 4, 8, 120);
    match Index::open(bad) {
        Err(e) => assert!(matches!(e.kind(), AnnErrorKind::InvalidConfig)),
        Ok(_) => panic!("zero dimension was accepted"),
    }
    let bad_alpha = config(4, 10, 4, 8, 99);
    match Index::open(bad_alpha) {
        Err(e) => assert!(matches!(e.kind(), AnnErrorKind::InvalidConfig)),
        Ok(_) => panic!("alpha below one was accepted"),
    }
    // IndexEmpty from search on an empty index, and from an empty build.
    let mut idx = Index::open(config(4, 3, 2, 4, 120)).unwrap();
    assert!(matches!(idx.search(&vec![0, 0, 0, 0], 1, 4).unwrap_err().kind(), AnnErrorKind::IndexEmpty));
    assert!(matches!(idx.build(&Vec::new()).unwrap_err().kind(), AnnErrorKind::IndexEmpty));
    // DimensionMismatch from a short vector.
    assert!(matches!(idx.insert(&vec![1, 2]).unwrap_err().kind(), AnnErrorKind::DimensionMismatch));
    // Capacity once the store is full.
    idx.insert(&vec![1, 0, 0, 0]).unwrap();
    idx.insert(&vec![0, 1, 0, 0]).unwrap();
    idx.insert(&vec![0, 0, 1, 0]).unwrap();
    assert!(matches!(idx.insert(&vec![0, 0, 0, 1]).unwrap_err().kind(), AnnErrorKind::Capacity));
    // InvalidConfig when the search list cannot cover k.
    assert!(matches!(idx.search(&vec![0, 0, 0, 0], 5, 2).unwrap_err().kind(), AnnErrorKind::InvalidConfig));
    // Internal from deleting an unallocated id.
    assert!(matches!(idx.soft_delete(&vec![99]).unwrap_err().kind(), AnnErrorKind::Internal));
    // Internal from building over a non-empty index.
    assert!(matches!(idx.build(&vec![vec![0, 0, 0, 0]]).unwrap_err().kind(), AnnErrorKind::Internal));
    // Internal from consolidating an index with nothing queryable left.
    idx.soft_delete(&vec![0, 1, 2]).unwrap();
    assert!(matches!(idx.consolidate().unwrap_err().kind(), AnnErrorKind::Internal));
    // Corrupt from a damaged image.
    let garbage: Vec<u8> = vec![1, 2, 3, 4, 5];
    match Index::from_bytes(&garbage, config(4, 3, 2, 4, 120)) {
        Err(e) => assert!(matches!(e.kind(), AnnErrorKind::Corrupt)),
        Ok(_) => panic!("garbage image was accepted"),
    }
}

#[test]
fn medoid_reselected_when_deleted() {
    let (mut idx, _data) = built_index(40, 8, 6, 16, 120, 61);
    let old = idx.medoid();
    idx.soft_delete(&vec![old]).unwrap();
    let new = idx.medoid();
    assert_ne!(new, old);
    assert!(!idx.is_tombstoned(new));
    check_invariants(&idx);
}

#[test]
fn describe_reports_each_kind() {
    let e = AnnError::Capacity;
    assert_eq!(e.describe(), "index capacity reached");
    assert_eq!(AnnError::IndexEmpty.describe(), "index is empty");
    assert_eq!(AnnError::DimensionMismatch.describe(), "vector dimension mismatch");
}

#[test]
fn empty_index_image_round_trips() {
    let cfg = config(4, 8, 2, 4, 120);
    let idx = Index::open(cfg).unwrap();
    let bytes = idx.to_bytes();
    let loaded = Index::from_bytes(&bytes, cfg).unwrap();
    assert_eq!(loaded.len(), 0);
    assert_eq!(loaded.to_bytes(), bytes);
    assert!(matches!(
        loaded.search(&vec![0, 0, 0, 0], 1, 4).unwrap_err().kind(),
        AnnErrorKind::IndexEmpty
    ));
}
