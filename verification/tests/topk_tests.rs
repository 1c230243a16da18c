use turboquant::topk::{order_by_rank, select_top_k};

fn keys_of(cands: &[(u32, u64)], pos: &[usize]) -> Vec<u32> {
    let mut k: Vec<u32> = pos.iter().map(|&p| cands[p].0).collect();
    k.sort();
    k
}

#[test]
fn keeps_the_best_k() {
    let cands = vec![(5, 0), (1, 1), (9, 2), (7, 3), (3, 4), (8, 5)];
    let pos = select_top_k(&cands, 3, true);
    assert_eq!(pos.len(), 3);
    assert_eq!(keys_of(&cands, &pos), vec![7, 8, 9]);
}

#[test]
fn fewer_candidates_than_k() {
    let cands = vec![(5, 0), (1, 1)];
    let mut pos = select_top_k(&cands, 10, true);
    pos.sort();
    assert_eq!(pos, vec![0, 1]);
    assert!(select_top_k(&cands, 0, true).is_empty());
    assert!(select_top_k(&[], 4, false).is_empty());
}

#[test]
fn equal_keys_evict_by_item_order() {
    // k = 2: (5,a) and (5,b) kept, then (6,d) arrives; the lowest-ranked kept
    // candidate leaves: with larger items first the smaller item leaves
    let cands = vec![(5, 10), (5, 20), (5, 30), (6, 40)];
    let mut pos = select_top_k(&cands, 2, true);
    pos.sort();
    assert_eq!(pos, vec![1, 3]);
    // with smaller items first the larger item leaves
    let mut pos = select_top_k(&cands, 2, false);
    pos.sort();
    assert_eq!(pos, vec![0, 3]);
}

#[test]
fn orders_by_key_then_item() {
    let cands = vec![(5, 1), (9, 2), (5, 3), (7, 4)];
    let all = vec![0, 1, 2, 3];
    assert_eq!(order_by_rank(&cands, &all, true), vec![1, 3, 2, 0]);
    assert_eq!(order_by_rank(&cands, &all, false), vec![1, 3, 0, 2]);
    assert_eq!(order_by_rank(&cands, &vec![2, 0], true), vec![2, 0]);
}
