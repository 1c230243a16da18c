use turboquant::layout::{ids_in_slots, list_layout};

#[test]
fn rows_grouped_by_list() {
    let assign = vec![2usize, 0, 2, 1, 0, 2];
    let l = list_layout(&assign, 4);
    assert_eq!(l.offsets, vec![0, 2, 3, 6, 6]);
    assert_eq!(l.order, vec![1, 4, 3, 0, 2, 5]);
    assert_eq!(ids_in_slots(&l.order, &[10, 11, 12, 13, 14, 15]), vec![11, 14, 13, 10, 12, 15]);
}

#[test]
fn empty_layout() {
    let l = list_layout(&[], 3);
    assert_eq!(l.offsets, vec![0, 0, 0, 0]);
    assert!(l.order.is_empty());
}

#[test]
fn layout_is_a_permutation() {
    let assign: Vec<usize> = (0..1000).map(|i| (i * 37 + 11) % 13).collect();
    let l = list_layout(&assign, 13);
    let mut seen = l.order.clone();
    seen.sort();
    assert_eq!(seen, (0..1000).collect::<Vec<usize>>());
    for c in 0..13 {
        let (s, e) = (l.offsets[c] as usize, l.offsets[c + 1] as usize);
        for p in s..e {
            assert_eq!(assign[l.order[p]], c);
            if p + 1 < e {
                assert!(l.order[p] < l.order[p + 1]);
            }
        }
    }
}

#[test]
fn offsets_never_decrease_and_end_at_the_row_count() {
    let assign: Vec<usize> = (0..500).map(|i| (i * i + 3) % 17).collect();
    let l = list_layout(&assign, 20);
    assert_eq!(l.offsets.len(), 21);
    assert_eq!(l.offsets[0], 0);
    assert!(l.offsets.windows(2).all(|w| w[0] <= w[1]));
    assert_eq!(*l.offsets.last().unwrap(), 500);
}
