//! Behavior of the retrieval pipeline around the index: the seen-item
//! filter, reciprocal rank fusion, the ranking pipeline with fallback,
//! and the exhaustive-recall service.

use mini_recsys::filter::{SeenFilter, FILTER_BYTES};
use mini_recsys::fusion::rrf_merge;
use mini_recsys::model::{Category, Item, User, category_base_vector};
use mini_recsys::rank::recommend_rank;
use mini_recsys::service::{recommend_recall, RecommendationService};

/// Fixed-point representation of 1.0 used throughout the tests.
const S: i64 = 65536;

fn demo_items() -> Vec<Item> {
    vec![
        Item::new(1, "Item A".to_string(), vec![S, 0, 0]),
        Item::new(2, "Item B".to_string(), vec![0, S, 0]),
        Item::new(3, "Item C".to_string(), vec![S / 2, S / 2, 0]),
    ]
}

#[test]
fn test_recommend_recall() {
    let user_emb = vec![S, 0, 0];
    let items = demo_items();
    let results = recommend_recall(&user_emb, &items, 2);
    assert_eq!(results.len(), 2);
    assert_eq!(results[0].0, 1);
    assert_eq!(results[0].1, (S as i128) * (S as i128));
}

#[test]
fn test_recommendation_service() {
    let items = demo_items();
    let service = RecommendationService::new(items);
    let user = User::new(1, vec![S, 0, 0]);
    let recommendations = service.recommend(&user, 2);
    assert_eq!(recommendations.len(), 2);
    assert_eq!(service.items[recommendations[0].0].name, "Item A");
    assert_eq!(service.items[recommendations[1].0].name, "Item C");
}

#[test]
fn test_rrf_determinism() {
    // fusing [(1, 0.9), (2, 0.5)] with keyword list [3, 1] at K = 60:
    // id 1 scores 1/61 + 1/62, id 2 scores 1/62, id 3 scores 1/61,
    // descending, ties by ascending id
    let vector_results: Vec<(u32, i64)> = vec![(1, (9 * S / 10)), (2, S / 2)];
    let keyword_results: Vec<u32> = vec![3, 1];
    let merged = rrf_merge(vector_results.clone(), keyword_results.clone());
    assert_eq!(merged.len(), 3);

    assert_eq!(merged[0].id, 1);
    assert_eq!(merged[0].score_num, 61 + 62);
    assert_eq!(merged[0].score_den, 61 * 62);

    assert_eq!(merged[1].id, 3);
    assert_eq!(merged[1].score_num, 1);
    assert_eq!(merged[1].score_den, 61);

    assert_eq!(merged[2].id, 2);
    assert_eq!(merged[2].score_num, 1);
    assert_eq!(merged[2].score_den, 62);

    // bit-for-bit reproducible
    let again = rrf_merge(vector_results, keyword_results);
    assert_eq!(again, merged);
}

#[test]
fn test_rrf_tie_broken_by_ascending_id() {
    // two ids at the same rank of the two lists tie exactly; the smaller
    // id must come first
    let merged = rrf_merge(vec![(9, S)], vec![4]);
    assert_eq!(merged.len(), 2);
    assert_eq!(merged[0].id, 4);
    assert_eq!(merged[1].id, 9);
    assert_eq!(merged[0].score_num, merged[1].score_num);
    assert_eq!(merged[0].score_den, merged[1].score_den);
}

#[test]
fn test_rrf_empty_inputs() {
    assert!(rrf_merge(vec![], vec![]).is_empty());
    let only_keyword = rrf_merge(vec![], vec![5, 6]);
    assert_eq!(only_keyword.len(), 2);
    assert_eq!(only_keyword[0].id, 5);
}

#[test]
fn test_seen_filter_no_false_negatives() {
    let mut filter = SeenFilter::new();
    // a spread-out batch of ids, driven by a small linear generator
    let mut ids: Vec<u64> = Vec::new();
    let mut x: u64 = 12345;
    for _ in 0..10_000 {
        x = x.wrapping_mul(6364136223846793005).wrapping_add(1442695040888963407);
        ids.push(x);
    }
    filter.add_all(&ids);
    for id in &ids {
        assert!(filter.might_contain(*id));
    }
}

#[test]
fn test_seen_filter_persistence_round_trip() {
    let mut filter = SeenFilter::new();
    filter.add(99);
    filter.add(100);
    let bytes = filter.to_bytes();
    assert_eq!(bytes.len(), FILTER_BYTES);
    let restored = SeenFilter::from_bytes(bytes).unwrap();
    assert!(restored.might_contain(99));
    assert!(restored.might_contain(100));
    assert!(SeenFilter::from_bytes(vec![0u8; 3]).is_none());
}

#[test]
fn test_seen_filter_mostly_empty() {
    let filter = SeenFilter::new();
    let mut hits = 0usize;
    for id in 0..1000u64 {
        if filter.might_contain(id) {
            hits += 1;
        }
    }
    // a fresh filter contains nothing at all
    assert_eq!(hits, 0);
}

fn catalog_with_popularity() -> Vec<Item> {
    let mut items = Vec::new();
    for i in 0..10u64 {
        let mut it = Item::new(i, format!("item-{}", i), vec![S, i as i64]);
        // popularity decreasing with id: item 0 is the most popular
        it.popularity = S - (i as i64) * 1000;
        items.push(it);
    }
    items
}

#[test]
fn test_fallback_guarantee() {
    // the user has seen every recall candidate: the pipeline still
    // returns five items, all unseen catalog items, most popular first
    let items = catalog_with_popularity();
    let mut seen = SeenFilter::new();
    let candidates: Vec<(u64, i64)> = (0..5u64).map(|id| (id, S - id as i64)).collect();
    for (id, _) in &candidates {
        seen.add(*id);
    }
    let (recs, filtered) = recommend_rank(&candidates, &items, &seen, 10);
    assert_eq!(filtered, 5);
    assert_eq!(recs.len(), 5);
    for r in &recs {
        // drawn from the unseen part of the catalog
        assert!(r.item_id >= 5);
        assert!(!seen.might_contain(r.item_id));
        // backfilled entries carry no similarity; the blended score is
        // three tenths of popularity (times the fixed ten)
        assert_eq!(r.sim_score, 0);
        assert_eq!(r.final_score, 3 * r.popularity);
    }
    // descending popularity == descending final score here
    for w in recs.windows(2) {
        assert!(w[0].final_score >= w[1].final_score);
    }
    assert_eq!(recs[0].item_id, 5);
}

#[test]
fn test_recommend_rank_blends_and_sorts() {
    let items = catalog_with_popularity();
    let seen = SeenFilter::new();
    let candidates: Vec<(u64, i64)> = vec![(3, S / 2), (7, S)];
    let (recs, filtered) = recommend_rank(&candidates, &items, &seen, 10);
    assert_eq!(filtered, 0);
    // both candidates survive; the pipeline backfills up to five
    assert_eq!(recs.len(), 5);
    for r in &recs {
        let item = items.iter().find(|it| it.id == r.item_id).unwrap();
        assert_eq!(r.popularity, item.popularity);
        assert_eq!(r.final_score, 7 * r.sim_score + 3 * r.popularity);
    }
    // the strong full-similarity match ranks first
    assert_eq!(recs[0].item_id, 7);
    for w in recs.windows(2) {
        assert!(
            w[0].final_score > w[1].final_score
                || (w[0].final_score == w[1].final_score && w[0].item_id < w[1].item_id)
        );
    }
}

#[test]
fn test_recommend_rank_truncates_to_limit() {
    let items = catalog_with_popularity();
    let seen = SeenFilter::new();
    let candidates: Vec<(u64, i64)> = (0..10u64).map(|id| (id, S - id as i64)).collect();
    let (recs, _) = recommend_rank(&candidates, &items, &seen, 3);
    assert_eq!(recs.len(), 3);
}

#[test]
fn test_recommend_rank_exhausted_catalog() {
    // when every catalog item is seen, fewer than the minimum come back
    // rather than an error
    let items = catalog_with_popularity();
    let mut seen = SeenFilter::new();
    for it in &items {
        seen.add(it.id);
    }
    let (recs, _) = recommend_rank(&vec![], &items, &seen, 10);
    assert!(recs.is_empty());
}

#[test]
fn test_category_base_vectors_are_orthogonal() {
    let e = category_base_vector(&Category::Electronics);
    let b = category_base_vector(&Category::Books);
    assert_eq!(e.len(), 64);
    assert_eq!(b.len(), 64);
    let dot = mini_recsys::compute_dot_product(&e, &b).unwrap();
    assert_eq!(dot, 0);
    let self_dot = mini_recsys::compute_dot_product(&e, &e).unwrap();
    assert_eq!(self_dot, 16 * (S as i128) * (S as i128));
}
