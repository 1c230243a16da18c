use turboquant::params::{resolve_params, SearchParams};

#[test]
fn defaults_apply() {
    let r = resolve_params(&None);
    assert!(!r.exact && !r.rerank && !r.with_vector);
    assert_eq!(r.rerank_factor, 10);
    assert_eq!(r.n_probe, None);
    let r = resolve_params(&Some(SearchParams { exact: None, n_probe: Some(3), rerank: None, rerank_factor: None, with_vector: Some(true) }));
    assert!(!r.exact && !r.rerank && r.with_vector);
    assert_eq!(r.rerank_factor, 10);
    assert_eq!(r.n_probe, Some(3));
    let r = resolve_params(&Some(SearchParams { exact: Some(true), n_probe: None, rerank: Some(true), rerank_factor: Some(2), with_vector: None }));
    assert!(r.exact && r.rerank);
    assert_eq!(r.rerank_factor, 2);
}
