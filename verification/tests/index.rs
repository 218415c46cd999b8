//! Behavior of the vector index: lifecycle, duplicate rejection, recall
//! on orthogonal vectors, persistence round trip, and hydration.

use mini_recsys::hnsw::{Graph, HnswConfig, IndexError};
use mini_recsys::hydrate::load_or_rebuild;

/// Fixed-point representation of 1.0 used throughout the tests.
const S: i64 = 65536;

fn config(dim: usize, max_elements: usize) -> HnswConfig {
    HnswConfig { dim, max_elements, m: 16, ef_construction: 100, ef_search: 50 }
}

#[test]
fn test_cpp_add() {
    assert_eq!(mini_recsys::add(2, 3), 5);
    assert_eq!(mini_recsys::add(-1, 1), 0);
}

#[test]
fn test_dot_product() {
    let a = vec![1 * S, 2 * S, 3 * S];
    let b = vec![4 * S, 5 * S, 6 * S];
    let result = mini_recsys::compute_dot_product(&a, &b);
    assert!(result.is_some());
    assert_eq!(result.unwrap(), 32 * (S as i128) * (S as i128));
}

#[test]
fn test_hnsw_lifecycle() {
    let config = HnswConfig { dim: 3, max_elements: 100, m: 16, ef_construction: 100, ef_search: 50 };
    let mut graph = Graph::init(&config).unwrap();

    assert!(graph.insert(1, vec![S, 0, 0]).is_ok());
    assert!(graph.insert(2, vec![0, S, 0]).is_ok());
    assert!(graph.insert(3, vec![S / 2, S / 2, 0]).is_ok());

    assert_eq!(graph.count(), 3);

    let results = graph.search(&vec![S, 0, 0], 2);
    assert_eq!(results.len(), 2);
    assert_eq!(results[0].0, 1);

    graph.destroy();
    assert_eq!(graph.count(), 0);
}

#[test]
fn test_init_rejects_bad_config() {
    assert_eq!(
        Graph::init(&config(0, 10)).unwrap_err(),
        IndexError::InvalidConfig
    );
    assert_eq!(
        Graph::init(&config(3, 0)).unwrap_err(),
        IndexError::InvalidConfig
    );
}

#[test]
fn test_insert_rejects_dimension_mismatch() {
    let mut graph = Graph::init(&config(3, 10)).unwrap();
    assert_eq!(
        graph.insert(1, vec![S, 0]).unwrap_err(),
        IndexError::DimensionMismatch
    );
    assert_eq!(graph.count(), 0);
}

#[test]
fn test_insert_rejects_when_full() {
    let mut graph = Graph::init(&config(2, 1)).unwrap();
    assert!(graph.insert(1, vec![S, 0]).is_ok());
    assert_eq!(
        graph.insert(2, vec![0, S]).unwrap_err(),
        IndexError::CapacityExceeded
    );
    assert_eq!(graph.count(), 1);
}

#[test]
fn test_duplicate_insert_rejected_and_count_unchanged() {
    let mut graph = Graph::init(&config(2, 10)).unwrap();
    assert!(graph.insert(7, vec![S, 0]).is_ok());
    let before = graph.count();
    let second = graph.insert(7, vec![0, S]);
    assert_eq!(second.unwrap_err(), IndexError::DuplicateId);
    assert_eq!(graph.count(), before);
}

#[test]
fn test_search_recall_on_orthogonal_vectors() {
    let n = 8usize;
    let mut graph = Graph::init(&config(n, 100)).unwrap();
    graph.set_seed(42);
    for i in 0..n {
        let mut v = vec![0i64; n];
        v[i] = S;
        graph.insert(i as u64 + 1, v).unwrap();
    }
    for i in 0..n {
        let mut q = vec![0i64; n];
        q[i] = S;
        let results = graph.search(&q, 1);
        assert_eq!(results.len(), 1);
        assert_eq!(results[0].0, i as u64 + 1);
        // unit vector against itself: similarity is exactly 1.0 in fixed
        // point, far within a 1e-5 tolerance
        assert_eq!(results[0].1, (S as i128) * (S as i128));
    }
}

#[test]
fn test_search_on_empty_graph_or_zero_k() {
    let graph = Graph::init(&config(2, 10)).unwrap();
    assert!(graph.search(&vec![S, 0], 5).is_empty());
    let mut graph = graph;
    graph.insert(1, vec![S, 0]).unwrap();
    assert!(graph.search(&vec![S, 0], 0).is_empty());
}

#[test]
fn test_save_load_round_trip() {
    let cfg = config(4, 50);
    let mut graph = Graph::init(&cfg).unwrap();
    graph.set_seed(7);
    let vectors: Vec<Vec<i64>> = vec![
        vec![S, 0, 0, 0],
        vec![0, S, 0, 0],
        vec![0, 0, S, 0],
        vec![0, 0, 0, S],
        vec![S / 2, S / 2, S / 2, S / 2],
    ];
    for (i, v) in vectors.iter().enumerate() {
        graph.insert(i as u64 + 10, v.clone()).unwrap();
    }
    let blob = graph.save();
    let loaded = Graph::load(&blob, &cfg).expect("a saved graph loads");
    assert_eq!(loaded.count(), graph.count());
    for (i, v) in vectors.iter().enumerate() {
        let results = loaded.search(v, 1);
        assert_eq!(results.len(), 1);
        assert_eq!(results[0].0, i as u64 + 10);
    }
    // and the loaded graph re-saves to the identical blob
    assert_eq!(loaded.save(), blob);
}

#[test]
fn test_load_rejects_corrupt_blob() {
    let cfg = config(4, 50);
    let mut graph = Graph::init(&cfg).unwrap();
    graph.insert(1, vec![S, 0, 0, 0]).unwrap();
    let blob = graph.save();

    let mut truncated = blob.clone();
    truncated.pop();
    assert!(Graph::load(&truncated, &cfg).is_none());

    let mut wrong_dim = blob.clone();
    wrong_dim[0] = wrong_dim[0].wrapping_add(1);
    assert!(Graph::load(&wrong_dim, &cfg).is_none());

    assert!(Graph::load(&vec![1, 2, 3], &cfg).is_none());
}

#[test]
fn test_hydration_keeps_consistent_index() {
    let cfg = config(2, 50);
    let mut graph = Graph::init(&cfg).unwrap();
    let items: Vec<(u64, Vec<i64>)> = vec![(1, vec![S, 0]), (2, vec![0, S]), (3, vec![S, S])];
    for (id, v) in &items {
        graph.insert(*id, v.clone()).unwrap();
    }
    let (kept, report) = load_or_rebuild(Some(graph), &items, &cfg).unwrap();
    assert!(!report.rebuilt);
    assert_eq!(report.success_count, 3);
    assert_eq!(kept.count(), 3);
}

#[test]
fn test_hydration_rebuild_trigger() {
    // a loaded index holding 3 nodes against a store of 5 items must be
    // rebuilt, and the rebuilt index holds all 5
    let cfg = config(2, 50);
    let mut stale = Graph::init(&cfg).unwrap();
    for id in 0..3u64 {
        stale.insert(id, vec![S, id as i64]).unwrap();
    }
    assert_eq!(stale.count(), 3);
    let store: Vec<(u64, Vec<i64>)> =
        (0..5u64).map(|id| (id, vec![S, id as i64])).collect();
    let (rebuilt, report) = load_or_rebuild(Some(stale), &store, &cfg).unwrap();
    assert!(report.rebuilt);
    assert_eq!(report.success_count, 5);
    assert_eq!(rebuilt.count(), 5);
}

#[test]
fn test_hydration_fresh_index_rebuilds() {
    let cfg = config(2, 50);
    let store: Vec<(u64, Vec<i64>)> = vec![(8, vec![S, 0]), (9, vec![0, S])];
    let (graph, report) = load_or_rebuild(None, &store, &cfg).unwrap();
    assert!(report.rebuilt);
    assert_eq!(report.success_count, 2);
    assert_eq!(graph.count(), 2);
}

#[test]
fn test_hydration_counts_individual_failures() {
    // a duplicated id in the store is counted out, not fatal
    let cfg = config(2, 50);
    let store: Vec<(u64, Vec<i64>)> = vec![(1, vec![S, 0]), (1, vec![0, S]), (2, vec![S, S])];
    let (graph, report) = load_or_rebuild(None, &store, &cfg).unwrap();
    assert!(report.rebuilt);
    assert_eq!(report.success_count, 2);
    assert_eq!(graph.count(), 2);
}

#[test]
fn test_search_on_denser_graph() {
    let dim = 40usize;
    let mut graph = Graph::init(&config(dim, 100)).unwrap();
    graph.set_seed(1234);
    // forty mutually orthogonal unit vectors, layers drawn by the
    // seeded generator
    for i in 0..40u64 {
        let mut v = vec![0i64; dim];
        v[i as usize] = S;
        graph.insert(i, v).unwrap();
    }
    assert_eq!(graph.count(), 40);
    graph.set_search_width(64);
    let mut q = vec![0i64; dim];
    q[21] = S;
    // the query equals node 21's vector exactly
    let results = graph.search(&q, 5);
    assert_eq!(results.len(), 5);
    assert_eq!(results[0].0, 21);
    assert_eq!(results[0].1, (S as i128) * (S as i128));
    for w in results.windows(2) {
        assert!(w[0].1 >= w[1].1);
    }
}

#[test]
fn test_load_rejects_mismatched_config() {
    let cfg = config(4, 50);
    let mut graph = Graph::init(&cfg).unwrap();
    graph.insert(1, vec![S, 0, 0, 0]).unwrap();
    let blob = graph.save();
    // a different dimension or a tighter degree bound is refused
    assert!(Graph::load(&blob, &config(5, 50)).is_none());
    let tight = HnswConfig { dim: 4, max_elements: 0, m: 16, ef_construction: 100, ef_search: 50 };
    assert!(Graph::load(&blob, &tight).is_none());
}

#[test]
fn test_insert_with_level_is_deterministic() {
    let cfg = config(2, 10);
    let mut a = Graph::init(&cfg).unwrap();
    let mut b = Graph::init(&cfg).unwrap();
    for (id, v, level) in [(1u64, vec![S, 0], 2usize), (2, vec![0, S], 0)] {
        a.insert_with_level(id, v.clone(), level).unwrap();
        b.insert_with_level(id, v, level).unwrap();
    }
    assert_eq!(a.save(), b.save());
}

#[test]
fn test_seeded_builds_are_reproducible() {
    let cfg = config(3, 50);
    let mut a = Graph::init(&cfg).unwrap();
    let mut b = Graph::init(&cfg).unwrap();
    a.set_seed(5);
    b.set_seed(5);
    for id in 0..6u64 {
        let v = vec![S, id as i64, -(id as i64)];
        a.insert(id, v.clone()).unwrap();
        b.insert(id, v).unwrap();
    }
    assert_eq!(a.save(), b.save());
}
