use std::collections::HashSet;
use turboquant::config::IndexConfig;
use turboquant::sampling::{kmeans_seed_rows, lloyd_sample_positions, training_rows, LLOYD_SAMPLE_LIMIT};

#[test]
fn training_rows_are_distinct_and_bounded() {
    let mut rng = rand::rng();
    let mut c = IndexConfig::default();
    c.max_training_samples = Some(50);
    let rows = training_rows(&mut rng, &c, 200);
    assert_eq!(rows.len(), 50);
    assert_eq!(rows.iter().collect::<HashSet<_>>().len(), 50);
    assert!(rows.iter().all(|&r| r < 200));
    let rows = training_rows(&mut rng, &c, 20);
    let mut sorted = rows.clone();
    sorted.sort();
    assert_eq!(sorted, (0..20).collect::<Vec<usize>>());
}

#[test]
fn kmeans_seeds_are_distinct() {
    let mut rng = rand::rng();
    let rows = kmeans_seed_rows(&mut rng, 30, 30);
    let mut sorted = rows.clone();
    sorted.sort();
    assert_eq!(sorted, (0..30).collect::<Vec<usize>>());
    let rows = kmeans_seed_rows(&mut rng, 1000, 16);
    assert_eq!(rows.len(), 16);
    assert_eq!(rows.iter().collect::<HashSet<_>>().len(), 16);
    assert!(rows.iter().all(|&r| r < 1000));
}

#[test]
fn lloyd_positions() {
    let mut rng = rand::rng();
    assert_eq!(lloyd_sample_positions(&mut rng, 5), vec![0, 1, 2, 3, 4]);
    assert!(lloyd_sample_positions(&mut rng, 0).is_empty());
    let p = lloyd_sample_positions(&mut rng, LLOYD_SAMPLE_LIMIT + 7);
    assert_eq!(p.len(), LLOYD_SAMPLE_LIMIT);
    assert!(p.iter().all(|&i| i < LLOYD_SAMPLE_LIMIT + 7));
}

#[test]
fn random_choices_are_not_fixed() {
    let mut rng = rand::rng();
    let first: Vec<usize> = (0..16).collect();
    assert!((0..5).any(|_| kmeans_seed_rows(&mut rng, 1000, 16) != first));
    let mut c = IndexConfig::default();
    c.max_training_samples = Some(50);
    let prefix: Vec<usize> = (0..50).collect();
    assert!((0..5).any(|_| {
        let mut r = training_rows(&mut rng, &c, 100000);
        r.sort();
        r != prefix
    }));
    let p = lloyd_sample_positions(&mut rng, 3 * LLOYD_SAMPLE_LIMIT);
    assert!(p.iter().any(|&i| i >= LLOYD_SAMPLE_LIMIT));
    assert!(p.iter().collect::<HashSet<_>>().len() > 1000);
}
