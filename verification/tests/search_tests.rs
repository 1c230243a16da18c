use std::collections::HashSet;
use turboquant::score::score_key;
use turboquant::search::{
    best_centroid, eligible, flat_top_hits, index_candidates, index_result_hits, merge_new_hits, probe_clusters, rank_hits,
    rank_index_candidates, scan_ranges, scan_rows, tq_unified_search,
};

fn b(v: &[f32]) -> Vec<u32> {
    v.iter().map(|x| x.to_bits()).collect()
}

#[test]
fn probes_lists_with_largest_inner_products() {
    let ip = b(&[0.1, 0.9, -0.3, 0.5, 0.7]);
    let mut lists = probe_clusters(&ip, 2);
    lists.sort();
    assert_eq!(lists, vec![1, 4]);
    let mut all = probe_clusters(&ip, 10);
    all.sort();
    assert_eq!(all, vec![0, 1, 2, 3, 4]);
    assert!(probe_clusters(&ip, 0).is_empty());
}

#[test]
fn scan_ranges_skip_unprobed_and_empty_lists() {
    let offsets = vec![0, 3, 3, 7, 10];
    let ranges = scan_ranges(&offsets, &[3, 1, 0]);
    let got: Vec<(usize, usize, usize)> = ranges.iter().map(|r| (r.cluster, r.start, r.end)).collect();
    assert_eq!(got, vec![(0, 0, 3), (3, 7, 10)]);
    assert_eq!(scan_rows(&ranges), vec![0, 1, 2, 7, 8, 9]);
}

#[test]
fn eligibility_floor() {
    assert!(eligible(0.0f32.to_bits()));
    assert!(eligible((-1.0e38f32).to_bits()));
    assert!(!eligible(f32::MIN.to_bits()));
    assert!(!eligible(f32::NEG_INFINITY.to_bits()));
    assert!(eligible(f32::NAN.to_bits()));
}

#[test]
fn index_candidates_drop_ineligible_rows() {
    let rows = vec![4usize, 5, 6];
    let scores = b(&[1.0, f32::MIN, 2.0]);
    let c = index_candidates(&rows, &scores);
    assert_eq!(c, vec![(score_key(1.0f32.to_bits()), 4), (score_key(2.0f32.to_bits()), 6)]);
}

#[test]
fn index_hits_best_first_and_padded() {
    let vector_ids = vec![100i64, 101, 102, 103];
    let cands = vec![
        (score_key(0.5f32.to_bits()), 0u64),
        (score_key(2.0f32.to_bits()), 1),
        (score_key(1.5f32.to_bits()), 2),
        (score_key((-1.0f32).to_bits()), 3),
    ];
    let hits = rank_index_candidates(&cands, &vector_ids, 3);
    assert_eq!(hits.ids, vec![101, 102, 100]);
    assert_eq!(hits.scores, b(&[2.0, 1.5, 0.5]));
    let hits = rank_index_candidates(&cands[..1], &vector_ids, 3);
    assert_eq!(hits.ids, vec![100, -1, -1]);
    assert_eq!(hits.scores, b(&[0.5, 0.0, 0.0]));
}

#[test]
fn best_centroid_picks_first_maximum() {
    assert_eq!(best_centroid(&b(&[0.1, 0.7, 0.7, 0.2])), 1);
    assert_eq!(best_centroid(&b(&[f32::NAN, 0.3])), 1);
    assert_eq!(best_centroid(&b(&[f32::MIN, f32::NEG_INFINITY])), 0);
    assert_eq!(best_centroid(&[]), 0);
    assert_eq!(best_centroid(&b(&[-0.0, 0.0])), 0);
}

#[test]
fn flat_top_keeps_best() {
    let scored = vec![(7u64, 1.0f32.to_bits()), (8, 3.0f32.to_bits()), (9, 2.0f32.to_bits())];
    let mut hits = flat_top_hits(&scored, 2);
    hits.sort();
    assert_eq!(hits, vec![(8, 3.0f32.to_bits()), (9, 2.0f32.to_bits())]);
    assert!(flat_top_hits(&[], 0).is_empty());
}

#[test]
fn merge_drops_duplicate_ids() {
    let indexed = vec![(1u64, 5u32), (2, 6)];
    let flat = vec![(2u64, 9u32), (3, 1), (3, 2)];
    assert_eq!(merge_new_hits(&indexed, &flat), vec![(1, 5), (2, 6), (3, 1)]);
}

#[test]
fn ranking_is_stable_and_truncated() {
    let hits = vec![
        (1u64, 1.0f32.to_bits()),
        (2, 3.0f32.to_bits()),
        (3, 1.0f32.to_bits()),
        (4, (-0.0f32).to_bits()),
        (5, 0.0f32.to_bits()),
        (6, 2.0f32.to_bits()),
    ];
    let ids: Vec<u64> = rank_hits(&hits, 10).into_iter().map(|h| h.0).collect();
    assert_eq!(ids, vec![2, 6, 1, 3, 4, 5]);
    let ids: Vec<u64> = rank_hits(&hits, 3).into_iter().map(|h| h.0).collect();
    assert_eq!(ids, vec![2, 6, 1]);
    assert!(rank_hits(&hits, 0).is_empty());
}

#[test]
fn unified_search_probes_scores_and_ranks() {
    // three lists: rows 0..2, 2..3, 3..6; the query is closest to lists 2 and 0
    let ip = b(&[0.5, -1.0, 0.9]);
    let offsets = vec![0, 2, 3, 6];
    let vector_ids = vec![10i64, 11, 12, 13, 14, 15];
    let row_scores = [0.1f32, 0.4, 9.0, 0.3, f32::MIN, 0.2];
    let score = |c: usize, i: usize| (row_scores[i] + f32::from_bits(ip[c])).to_bits();
    let hits = tq_unified_search(&ip, &offsets, &vector_ids, 2, 3, score, None).unwrap();
    assert_eq!(hits.ids, vec![13, 15, 11]);
    assert_eq!(hits.scores, b(&[0.3 + 0.9, 0.2 + 0.9, 0.4 + 0.5]));
    // more results than rows: padded
    let hits = tq_unified_search(&ip, &offsets, &vector_ids, 1, 5, score, None).unwrap();
    assert_eq!(hits.ids, vec![13, 15, -1, -1, -1]);
    // no list probed: nothing to rank, even for zero results
    let hits = tq_unified_search(&ip, &offsets, &vector_ids, 0, 0, score, None).unwrap();
    assert!(hits.ids.is_empty());
    // zero results with rows to rank: no report
    assert!(tq_unified_search(&ip, &offsets, &vector_ids, 3, 0, score, None).is_none());
}

#[test]
fn index_results_use_exact_scores_when_reranking() {
    let live = vec![(2usize, 40u64, (0usize, 4usize)), (0, 41, (4, 8))];
    let index_scores = b(&[0.5, 0.6, 0.7]);
    let exact = b(&[9.0, 8.0]);
    assert_eq!(index_result_hits(&live, &index_scores, false, &[]), vec![(40, 0.7f32.to_bits()), (41, 0.5f32.to_bits())]);
    assert_eq!(index_result_hits(&live, &index_scores, true, &exact), vec![(40, 9.0f32.to_bits()), (41, 8.0f32.to_bits())]);
}

#[test]
fn ranked_scores_never_rise() {
    let scores = [0.3f32, -2.0, 7.5, 0.0, -0.0, 7.5, 1.0e-3];
    let hits: Vec<(u64, u32)> = scores.iter().enumerate().map(|(i, s)| (i as u64, s.to_bits())).collect();
    let out = rank_hits(&hits, 5);
    assert_eq!(out.len(), 5);
    for w in out.windows(2) {
        assert!(f32::from_bits(w[0].1) >= f32::from_bits(w[1].1));
    }
}

#[test]
fn merged_ids_stay_distinct() {
    let indexed = vec![(1u64, 0u32), (2, 0)];
    let flat = vec![(2u64, 1u32), (3, 1), (1, 1), (4, 1), (3, 5)];
    let m = merge_new_hits(&indexed, &flat);
    let mut ids: Vec<u64> = m.iter().map(|h| h.0).collect();
    ids.sort();
    ids.dedup();
    assert_eq!(ids.len(), m.len());
    assert_eq!(m, vec![(1, 0), (2, 0), (3, 1), (4, 1)]);
}

#[test]
fn unified_search_skips_rows_the_filter_holds_back() {
    // one probed list holding ids 10 and 20; id 10 scores higher
    let ip = b(&[1.0]);
    let offsets = vec![0, 2];
    let vector_ids = vec![10i64, 20];
    let row_scores = [5.0f32, -2.0];
    let scored = std::cell::Cell::new(0usize);
    let score = |c: usize, i: usize| {
        scored.set(scored.get() + 1);
        assert_eq!(i, 1, "a row the filter holds back is never scored");
        (row_scores[i] + f32::from_bits(ip[c])).to_bits()
    };
    let allowed: HashSet<i64> = [20i64].into_iter().collect();
    let hits = tq_unified_search(&ip, &offsets, &vector_ids, 1, 3, score, Some(&allowed)).unwrap();
    assert_eq!(hits.ids, vec![20, -1, -1]);
    assert_eq!(hits.scores, b(&[-1.0, 0.0, 0.0]));
    assert_eq!(scored.get(), 1);
    // a filter without any stored id leaves nothing
    let none: HashSet<i64> = [99i64].into_iter().collect();
    let hits = tq_unified_search(&ip, &offsets, &vector_ids, 1, 3, |_c: usize, _i: usize| 0u32, Some(&none)).unwrap();
    assert_eq!(hits.ids, vec![-1, -1, -1]);
}

#[test]
fn unified_search_filter_holding_every_id_changes_nothing() {
    let ip = b(&[0.5, -1.0, 0.9]);
    let offsets = vec![0, 2, 3, 6];
    let vector_ids = vec![10i64, 11, 12, 13, 14, 15];
    let row_scores = [0.1f32, 0.4, 9.0, 0.3, 0.25, 0.2];
    let score = |c: usize, i: usize| (row_scores[i] + f32::from_bits(ip[c])).to_bits();
    let all: HashSet<i64> = vector_ids.iter().copied().collect();
    for (n_probe, top_k) in [(1usize, 2usize), (2, 3), (3, 6), (3, 8)] {
        let plain = tq_unified_search(&ip, &offsets, &vector_ids, n_probe, top_k, score, None).unwrap();
        let filtered = tq_unified_search(&ip, &offsets, &vector_ids, n_probe, top_k, score, Some(&all)).unwrap();
        assert_eq!(plain.ids, filtered.ids);
        assert_eq!(plain.scores, filtered.scores);
    }
}
