use turboquant::config::ConfigReq;
use turboquant::engine::{IndexedSegment, TQEngine};
use turboquant::params::resolve_params;
use turboquant::params::SearchParams;
use turboquant::search::{merge_new_hits, rank_hits, IndexHits};

fn segment(offsets: Vec<i32>, rows: usize, d: usize) -> IndexedSegment {
    IndexedSegment {
        n_vectors: rows,
        rot_op: vec![0; d * d],
        sq_centroids: vec![0; 8],
        sq_flat: vec![0; rows * d / 2],
        signs_flat: vec![0; rows * d / 8],
        norms_sl: vec![0; rows],
        res_norms: vec![0; rows],
        vector_ids: (0..rows as i64).collect(),
        coarse_view: vec![0; (offsets.len() - 1) * d],
        offsets_sl: offsets,
    }
}

#[test]
fn fresh_engine_is_empty() {
    let e = TQEngine::new();
    assert!(e.vector_offsets.is_empty());
    assert!(e.payload_offsets.is_empty());
    assert!(e.unindexed_ids.is_empty());
    assert!(e.indexed_segment.is_none());
    assert_eq!(e.dim, 0);
    assert_eq!(e.index_config.quantize_bits, 4);
    assert_eq!(e.raw_file_path, "data/tq_index/raw_vectors.bin");
    assert_eq!(e.payload_file_path, "data/tq_index/payloads.bin");
    assert!(!e.should_build_index());
}

#[test]
fn added_vectors_read_back_in_arrival_order() {
    let mut e = TQEngine::new();
    e.add(7, 4, None);
    e.add(3, 4, Some((0, 10)));
    e.add(9, 4, Some((10, 0)));
    assert_eq!(e.dim, 4);
    assert_eq!(e.vector_range(7, 12), Some((0, 4)));
    assert_eq!(e.vector_range(3, 12), Some((4, 8)));
    assert_eq!(e.vector_range(9, 12), Some((8, 12)));
    // the raw file is shorter than the last row
    assert_eq!(e.vector_range(9, 11), None);
    assert_eq!(e.vector_range(1, 12), None);
    assert_eq!(e.payload_range(3, 10), Some((0, 10)));
    assert_eq!(e.payload_range(3, 9), None);
    // an empty payload is not recorded
    assert_eq!(e.payload_range(9, 100), None);
    assert_eq!(e.payload_range(7, 100), None);
    assert!(e.should_build_index());
}

#[test]
fn first_vector_fixes_dimension() {
    let mut e = TQEngine::new();
    e.add(1, 3, None);
    e.add(2, 5, None);
    assert_eq!(e.dim, 3);
}

#[test]
fn readding_an_id_moves_it_to_a_new_row_number() {
    // the row given is the count of known ids, so re-adding id 7 points it at
    // row 1, which the next new id also gets
    let mut e = TQEngine::new();
    e.add(7, 2, None);
    e.add(7, 2, None);
    e.add(8, 2, None);
    assert_eq!(e.vector_offsets.get(&7), Some(&1));
    assert_eq!(e.vector_offsets.get(&8), Some(&1));
}

#[test]
fn deleted_ids_are_gone() {
    let mut e = TQEngine::new();
    e.add(1, 2, Some((0, 5)));
    e.add(2, 2, None);
    e.delete(1);
    assert_eq!(e.vector_range(1, 100), None);
    assert_eq!(e.payload_range(1, 100), None);
    assert!(!e.unindexed_ids.contains(&1));
    assert_eq!(e.vector_range(2, 100), Some((2, 4)));
}

#[test]
fn clear_forgets_everything() {
    let mut e = TQEngine::new();
    e.add(1, 2, Some((0, 5)));
    e.install_index(segment(vec![0, 0], 0, 8));
    e.clear();
    assert!(e.vector_offsets.is_empty());
    assert!(e.payload_offsets.is_empty());
    assert!(e.unindexed_ids.is_empty());
    assert!(e.indexed_segment.is_none());
    assert_eq!(e.dim, 2);
}

#[test]
fn reset_index_marks_all_pending_and_install_clears() {
    let mut e = TQEngine::new();
    for id in 0..5u64 {
        e.add(id, 8, None);
    }
    e.install_index(segment(vec![0, 5], 5, 8));
    assert!(e.unindexed_ids.is_empty());
    assert!(!e.should_build_index());
    e.reset_index();
    assert!(e.indexed_segment.is_none());
    assert_eq!(e.unindexed_ids.len(), 5);
    assert!(e.should_build_index());
}

#[test]
fn rebuild_threshold() {
    let mut e = TQEngine::new();
    e.install_index(segment(vec![0, 0], 0, 8));
    for id in 0..1000u64 {
        e.unindexed_ids.insert(id);
    }
    assert!(!e.should_build_index());
    e.unindexed_ids.insert(1000);
    assert!(e.should_build_index());
}

#[test]
fn configure_resets_index() {
    let mut e = TQEngine::new();
    e.add(1, 8, None);
    e.install_index(segment(vec![0, 1], 1, 8));
    e.configure(&ConfigReq { n_list: Some(4), quantize_bits: 2, max_training_samples: Some(10) });
    assert_eq!(e.index_config.n_list, Some(4));
    assert_eq!(e.index_config.quantize_bits, 2);
    assert_eq!(e.index_config.max_training_samples, Some(10));
    assert!(e.indexed_segment.is_none());
    assert!(e.unindexed_ids.contains(&1));
}

#[test]
fn flat_candidates_cover_pending_or_all() {
    let mut e = TQEngine::new();
    e.add(1, 2, None);
    e.add(2, 2, None);
    e.install_index(segment(vec![0, 2], 2, 8));
    e.add(3, 2, None);
    let mut pending: Vec<u64> = e.flat_candidates(false, 100).into_iter().map(|c| c.0).collect();
    pending.sort();
    assert_eq!(pending, vec![3]);
    let mut all: Vec<(u64, (usize, usize))> = e.flat_candidates(true, 100);
    all.sort();
    assert_eq!(all, vec![(1, (0, 2)), (2, (2, 4)), (3, (4, 6))]);
    // rows past the raw file are skipped
    let mut short: Vec<u64> = e.flat_candidates(true, 4).into_iter().map(|c| c.0).collect();
    short.sort();
    assert_eq!(short, vec![1, 2]);
}

#[test]
fn index_hits_skip_padding_and_deleted() {
    let mut e = TQEngine::new();
    e.add(10, 2, None);
    e.add(11, 2, None);
    e.delete(11);
    let hits = e.index_hits(&[11, 10, -1], 100);
    assert_eq!(hits, vec![(1, 10, (0, 2))]);
}

#[test]
fn point_ranges_list_every_id() {
    let mut e = TQEngine::new();
    e.add(5, 2, None);
    e.add(6, 2, None);
    let mut p = e.point_ranges(2);
    p.sort();
    assert_eq!(p, vec![(5, Some((0, 2))), (6, None)]);
}

#[test]
fn ids_by_row_inverts_dense_rows() {
    let mut e = TQEngine::new();
    e.add(40, 2, None);
    e.add(41, 2, None);
    e.add(42, 2, None);
    assert_eq!(e.ids_by_row(), Some(vec![40, 41, 42]));
    // after deleting the first id the last row lies past the id count
    e.delete(40);
    assert_eq!(e.ids_by_row(), None);
}

#[test]
fn index_scan_plan() {
    let mut e = TQEngine::new();
    e.add(1, 8, None);
    let none = resolve_params(&None);
    assert!(e.index_scan(8, 5, &none).is_none());
    e.install_index(segment(vec![0, 0, 1], 1, 8));
    let s = e.index_scan(8, 5, &none).unwrap();
    assert_eq!((s.n_list, s.n_probe, s.retrieve_k, s.mse_bits), (2, 2, 5, 3));
    let rr = resolve_params(&Some(SearchParams {
        exact: None,
        n_probe: Some(1),
        rerank: Some(true),
        rerank_factor: None,
        with_vector: None,
    }));
    let s = e.index_scan(8, 5, &rr).unwrap();
    assert_eq!((s.n_probe, s.retrieve_k), (1, 50));
    assert!(e.index_scan(7, 5, &none).is_none());
    let exact = resolve_params(&Some(SearchParams {
        exact: Some(true),
        n_probe: None,
        rerank: None,
        rerank_factor: None,
        with_vector: None,
    }));
    assert!(e.index_scan(8, 5, &exact).is_none());
}

#[test]
fn segment_fit_checks() {
    let seg = segment(vec![0, 2, 4], 4, 16);
    assert!(seg.fits(16, 3));
    assert!(seg.fits(16, 1));
    let mut bad = segment(vec![0, 2, 5], 4, 16);
    assert!(!bad.fits(16, 3));
    bad.offsets_sl = vec![0, -1, 4];
    assert!(!bad.fits(16, 3));
    bad.offsets_sl = vec![];
    assert!(!bad.fits(16, 3));
}

fn pending_and_payloads_stored(e: &TQEngine) -> bool {
    e.unindexed_ids.iter().all(|id| e.vector_offsets.contains_key(id))
        && e.payload_offsets.keys().all(|id| e.vector_offsets.contains_key(id))
}

#[test]
fn pending_and_payload_ids_stay_stored() {
    let mut e = TQEngine::new();
    assert!(pending_and_payloads_stored(&e));
    e.add(1, 4, Some((0, 3)));
    e.add(2, 4, None);
    e.add(3, 4, Some((3, 9)));
    assert!(pending_and_payloads_stored(&e));
    e.delete(3);
    assert!(pending_and_payloads_stored(&e));
    e.reset_index();
    assert!(pending_and_payloads_stored(&e));
    e.install_index(segment(vec![0, 2], 2, 8));
    assert!(pending_and_payloads_stored(&e));
    e.clear();
    assert!(pending_and_payloads_stored(&e));
}

#[test]
fn search_never_returns_deleted_ids() {
    let mut e = TQEngine::new();
    e.add(1, 2, None);
    e.add(2, 2, None);
    e.add(3, 2, None);
    e.delete(2);
    let live = e.index_hits(&[2, 3, 1, -1], 100);
    let indexed: Vec<(u64, u32)> = live.iter().map(|h| (h.1, 1.0f32.to_bits())).collect();
    let flat: Vec<(u64, u32)> = e.flat_candidates(true, 100).iter().map(|c| (c.0, 0.5f32.to_bits())).collect();
    let out = rank_hits(&merge_new_hits(&indexed, &flat), 10);
    assert!(out.iter().all(|h| h.0 != 2));
    assert_eq!(out.len(), 2);
}

#[test]
fn whole_search_skips_deleted_ids_and_merges() {
    let mut e = TQEngine::new();
    for id in 1..=4u64 {
        e.add(id, 2, None);
    }
    // the index covers ids 1..=3; id 4 awaits indexing
    e.install_index(segment(vec![0, 3], 3, 2));
    e.add(4, 2, None);
    e.delete(2);
    let p = resolve_params(&None);
    let scan = |n_probe: usize, retrieve_k: usize, mse_bits: usize| {
        assert_eq!((n_probe, mse_bits), (1, 3));
        assert!(retrieve_k == 3 || retrieve_k == 0);
        IndexHits { scores: vec![3.0f32.to_bits(), 2.0f32.to_bits(), 1.0f32.to_bits()], ids: vec![2, 1, 3] }
    };
    let exact = |_s: usize, _e: usize| 0u32;
    let flat = |s: usize, _e: usize| (s as f32).to_bits();
    let out = e.search_hits(2, 3, &p, 100, scan, exact, flat).unwrap();
    // id 2 was deleted: gone although the index ranked it first; id 4 (row 4, range 8..10) comes from the flat scan
    assert_eq!(out, vec![(4, 8.0f32.to_bits()), (1, 2.0f32.to_bits()), (3, 1.0f32.to_bits())]);
    // zero results with flat hits: no result
    assert!(e.search_hits(2, 0, &p, 100, scan, exact, flat).is_none());
}

#[test]
fn whole_search_reranks_with_exact_scores() {
    let mut e = TQEngine::new();
    e.add(1, 2, None);
    e.add(2, 2, None);
    e.install_index(segment(vec![0, 2], 2, 2));
    let p = resolve_params(&Some(SearchParams {
        exact: None,
        n_probe: None,
        rerank: Some(true),
        rerank_factor: Some(2),
        with_vector: None,
    }));
    let scan = |_n: usize, retrieve_k: usize, _m: usize| {
        assert_eq!(retrieve_k, 2);
        IndexHits { scores: vec![5.0f32.to_bits(), 4.0f32.to_bits()], ids: vec![0, 1] }
    };
    let exact = |s: usize, _e: usize| (10.0f32 - s as f32).to_bits();
    let flat = |_s: usize, _e: usize| 0u32;
    // segment ids are rows 0 and 1; only stored id 1 is live (id 0 is not stored)
    let out = e.search_hits(2, 1, &p, 100, scan, exact, flat).unwrap();
    assert_eq!(out, vec![(1, 10.0f32.to_bits())]);
    // a NaN among merged hits: no result
    let nan_exact = |_s: usize, _e: usize| f32::NAN.to_bits();
    let mut e2 = TQEngine::new();
    e2.add(0, 2, None);
    e2.add(1, 2, None);
    e2.install_index(segment(vec![0, 2], 2, 2));
    assert!(e2.search_hits(2, 1, &p, 100, scan, nan_exact, flat).is_none());
}

#[test]
fn batch_add_equals_adds_in_order() {
    let points = vec![(5u64, 3usize, Some((0u64, 4u32))), (6, 7, None), (5, 3, Some((4, 0))), (8, 3, Some((4, 2)))];
    let mut batch = TQEngine::new();
    batch.add_batch(&points);
    let mut one_by_one = TQEngine::new();
    for &(id, len, payload) in &points {
        one_by_one.add(id, len, payload);
    }
    assert_eq!(batch.vector_offsets, one_by_one.vector_offsets);
    assert_eq!(batch.payload_offsets, one_by_one.payload_offsets);
    assert_eq!(batch.unindexed_ids, one_by_one.unindexed_ids);
    assert_eq!(batch.dim, 3);
    assert_eq!(batch.dim, one_by_one.dim);
    // id 5 was added twice: it holds the row numbered by the count at its second arrival
    assert_eq!(batch.vector_offsets[&5], 2);
    assert_eq!(batch.payload_offsets.get(&5), Some(&(0, 4)));
}
