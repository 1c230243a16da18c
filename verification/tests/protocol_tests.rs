use turboquant::protocol::{encode_batch_response, parse_batch_request, RequestError, ResultRecord, QUERY_DIM};

fn header(n: u32, top_k: u32, n_probe: u32, rerank: u8, factor: u32, with_vector: u8) -> Vec<u8> {
    let mut b = Vec::new();
    b.extend_from_slice(&n.to_le_bytes());
    b.extend_from_slice(&top_k.to_le_bytes());
    b.extend_from_slice(&n_probe.to_le_bytes());
    b.push(rerank);
    b.extend_from_slice(&factor.to_le_bytes());
    b.push(with_vector);
    b
}

#[test]
fn short_payload_is_refused() {
    assert_eq!(parse_batch_request(&[0u8; 17]).err(), Some(RequestError::InvalidLength));
    assert_eq!(parse_batch_request(&[]).err(), Some(RequestError::InvalidLength));
}

#[test]
fn truncated_payload_is_refused() {
    let mut b = header(2, 16, 8, 1, 4, 0);
    b.extend(std::iter::repeat(0u8).take(QUERY_DIM * 4 * 2 - 1));
    assert_eq!(parse_batch_request(&b).err(), Some(RequestError::Truncated));
}

#[test]
fn header_and_queries_decode() {
    let mut b = header(2, 16, 8, 1, 4, 0);
    for q in 0..2 {
        for i in 0..QUERY_DIM {
            b.extend_from_slice(&((q * 1000 + i) as f32).to_le_bytes());
        }
    }
    b.push(99); // trailing bytes are ignored
    let r = parse_batch_request(&b).unwrap();
    assert_eq!((r.n_queries, r.top_k, r.n_probe, r.rerank, r.rerank_factor, r.with_vector), (2, 16, 8, true, 4, false));
    assert_eq!(r.queries.len(), 2);
    assert_eq!(f32::from_bits(r.queries[1][5]), 1005.0);
    assert_eq!(f32::from_bits(r.queries[0][383]), 383.0);
    let p = r.search_params();
    assert_eq!(p.exact, Some(false));
    assert_eq!(p.n_probe, Some(8));
    assert_eq!(p.rerank, Some(true));
    assert_eq!(p.rerank_factor, Some(4));
    assert_eq!(p.with_vector, Some(false));
}

#[test]
fn empty_batch_decodes() {
    let r = parse_batch_request(&header(0, 1, 1, 0, 0, 7)).unwrap();
    assert!(r.queries.is_empty());
    assert!(r.with_vector);
}

#[test]
fn response_layout() {
    let results = vec![
        vec![
            ResultRecord { id: 5, score: 1.5f32.to_bits(), vector: None },
            ResultRecord { id: 0x0102030405060708, score: 2.0f32.to_bits(), vector: Some(vec![0.25f32.to_bits()]) },
        ],
        vec![],
    ];
    let out = encode_batch_response(&results);
    let mut want = Vec::new();
    want.extend_from_slice(&2u32.to_le_bytes());
    want.extend_from_slice(&5u64.to_le_bytes());
    want.extend_from_slice(&1.5f32.to_le_bytes());
    want.push(0);
    want.extend_from_slice(&0x0102030405060708u64.to_le_bytes());
    want.extend_from_slice(&2.0f32.to_le_bytes());
    want.push(1);
    want.extend_from_slice(&0.25f32.to_le_bytes());
    want.extend_from_slice(&0u32.to_le_bytes());
    assert_eq!(out, want);
}
