//! The binary batch-search protocol.
//!
//! A request is an 18-byte header (`n_queries: u32`, `top_k: u32`,
//! `n_probe: u32`, `rerank: u8`, `rerank_factor: u32`, `with_vector: u8`,
//! little endian) followed by `n_queries` vectors of `QUERY_DIM` little-endian
//! `f32` values. A response holds, per query, the hit count (`u32`) and per
//! hit the id (`u64`), the score (`f32`), a flag byte, and when the flag is 1
//! the stored vector's `f32` values.
use vstd::prelude::*;
use crate::params::SearchParams;
use vstd::bytes::{lemma_auto_spec_u32_to_from_le_bytes, spec_u32_from_le_bytes, spec_u32_to_le_bytes, spec_u64_to_le_bytes, u32_from_le_bytes, u32_to_le_bytes, u64_to_le_bytes};

verus! {

/// Length of a request header in bytes.
pub const HEADER_LEN: usize = 18;

/// Dimension of every query vector in a binary request.
pub const QUERY_DIM: usize = 384;

/// A decoded batch-search request; query values are `f32` bit patterns.
pub struct BatchRequest {
    pub n_queries: u32,
    pub top_k: u32,
    pub n_probe: u32,
    pub rerank: bool,
    pub rerank_factor: u32,
    pub with_vector: bool,
    pub queries: Vec<Vec<u32>>,
}

/// Why a binary request is refused.
#[derive(PartialEq, Eq, Structural, Debug)]
pub enum RequestError {
    /// Shorter than a header.
    InvalidLength,
    /// Shorter than the header and the announced query vectors.
    Truncated,
}

/// The `u32` stored little-endian at byte `at`.
pub open spec fn le_u32_at(bytes: Seq<u8>, at: int) -> u32 {
    spec_u32_from_le_bytes(bytes.subrange(at, at + 4))
}

/// Bytes a request with `n` queries must have.
pub open spec fn request_len(n: int) -> int {
    HEADER_LEN + n * QUERY_DIM * 4
}

/// Value `i` of query `q` in a request, as `f32` bits.
pub open spec fn query_value(bytes: Seq<u8>, q: int, i: int) -> u32 {
    le_u32_at(bytes, HEADER_LEN + 4 * (q * QUERY_DIM + i))
}

/// Decodes a binary batch-search request.
pub fn parse_batch_request(bytes: &[u8]) -> (r: Result<BatchRequest, RequestError>)
    ensures
        bytes.len() < HEADER_LEN ==> r == Err::<BatchRequest, RequestError>(RequestError::InvalidLength),
        bytes.len() >= HEADER_LEN && bytes.len() < request_len(le_u32_at(bytes@, 0) as int) ==> r
            == Err::<BatchRequest, RequestError>(RequestError::Truncated),
        bytes.len() >= HEADER_LEN && bytes.len() >= request_len(le_u32_at(bytes@, 0) as int) ==> r is Ok,
        r matches Ok(req) ==> {
            &&& req.n_queries == le_u32_at(bytes@, 0)
            &&& req.top_k == le_u32_at(bytes@, 4)
            &&& req.n_probe == le_u32_at(bytes@, 8)
            &&& req.rerank == (bytes@[12] != 0)
            &&& req.rerank_factor == le_u32_at(bytes@, 13)
            &&& req.with_vector == (bytes@[17] != 0)
            &&& req.queries.len() == req.n_queries
            &&& forall|q: int|
                0 <= q < req.queries.len() ==> {
                    &&& (#[trigger] req.queries@[q]).len() == QUERY_DIM
                    &&& forall|i: int| 0 <= i < QUERY_DIM ==> #[trigger] req.queries@[q]@[i] == query_value(bytes@, q, i)
                }
        },
{
    if bytes.len() < HEADER_LEN {
        return Err(RequestError::InvalidLength);
    }
    let n_queries = u32_from_le_bytes(&bytes[0..4]);
    let top_k = u32_from_le_bytes(&bytes[4..8]);
    let n_probe = u32_from_le_bytes(&bytes[8..12]);
    let rerank = bytes[12] != 0;
    let rerank_factor = u32_from_le_bytes(&bytes[13..17]);
    let with_vector = bytes[17] != 0;
    let needed: u64 = HEADER_LEN as u64 + (n_queries as u64) * (QUERY_DIM as u64) * 4;
    if (bytes.len() as u64) < needed {
        return Err(RequestError::Truncated);
    }
    let mut queries: Vec<Vec<u32>> = Vec::new();
    let mut offset: usize = HEADER_LEN;
    let mut q: u32 = 0;
    while q < n_queries
        invariant
            q <= n_queries,
            n_queries == le_u32_at(bytes@, 0),
            bytes.len() >= request_len(n_queries as int),
            offset == HEADER_LEN + 4 * QUERY_DIM * q,
            queries.len() == q,
            forall|t: int|
                0 <= t < q ==> {
                    &&& (#[trigger] queries@[t]).len() == QUERY_DIM
                    &&& forall|i: int| 0 <= i < QUERY_DIM ==> #[trigger] queries@[t]@[i] == query_value(bytes@, t, i)
                },
        decreases n_queries - q,
    {
        let mut v: Vec<u32> = Vec::new();
        let mut i: usize = 0;
        while i < QUERY_DIM
            invariant
                q < n_queries,
                bytes.len() >= request_len(n_queries as int),
                i <= QUERY_DIM,
                offset == HEADER_LEN + 4 * QUERY_DIM * q + 4 * i,
                v.len() == i,
                forall|t: int| 0 <= t < i ==> #[trigger] v@[t] == query_value(bytes@, q as int, t),
            decreases QUERY_DIM - i,
        {
            proof {
                assert(offset + 4 <= bytes.len()) by (nonlinear_arith)
                    requires
                        offset == HEADER_LEN + 4 * QUERY_DIM * q + 4 * i,
                        i < QUERY_DIM,
                        q < n_queries,
                        bytes.len() >= HEADER_LEN + n_queries * QUERY_DIM * 4,
                        QUERY_DIM == 384,
                        HEADER_LEN == 18,
                ;
            }
            v.push(u32_from_le_bytes(&bytes[offset..offset + 4]));
            proof {
                assert(offset == HEADER_LEN + 4 * (q * QUERY_DIM + i)) by (nonlinear_arith)
                    requires offset == HEADER_LEN + 4 * QUERY_DIM * q + 4 * i;
            }
            offset = offset + 4;
            i = i + 1;
        }
        proof {
            assert(offset == HEADER_LEN + 4 * QUERY_DIM * (q + 1)) by (nonlinear_arith)
                requires offset == HEADER_LEN + 4 * QUERY_DIM * q + 4 * QUERY_DIM;
        }
        queries.push(v);
        q = q + 1;
    }
    Ok(BatchRequest { n_queries, top_k, n_probe, rerank, rerank_factor, with_vector, queries })
}

/// One hit of a binary response: id, score bits, and the stored vector when asked for.
pub struct ResultRecord {
    pub id: u64,
    pub score: u32,
    pub vector: Option<Vec<u32>>,
}

/// The little-endian bytes of a sequence of `f32` bit patterns.
pub open spec fn encode_values(v: Seq<u32>) -> Seq<u8>
    decreases v.len(),
{
    if v.len() == 0 {
        Seq::empty()
    } else {
        encode_values(v.drop_last()) + spec_u32_to_le_bytes(v.last())
    }
}

/// The bytes of one hit.
pub open spec fn encode_hit(h: ResultRecord) -> Seq<u8> {
    spec_u64_to_le_bytes(h.id) + spec_u32_to_le_bytes(h.score) + match h.vector {
        Some(v) => seq![1u8] + encode_values(v@),
        None => seq![0u8],
    }
}

/// The bytes of a sequence of hits.
pub open spec fn encode_hits(hs: Seq<ResultRecord>) -> Seq<u8>
    decreases hs.len(),
{
    if hs.len() == 0 {
        Seq::empty()
    } else {
        encode_hits(hs.drop_last()) + encode_hit(hs.last())
    }
}

/// The bytes of the results of a batch: per query, the hit count then the hits.
pub open spec fn encode_batch(rs: Seq<Vec<ResultRecord>>) -> Seq<u8>
    decreases rs.len(),
{
    if rs.len() == 0 {
        Seq::empty()
    } else {
        let last = rs.last();
        encode_batch(rs.drop_last()) + spec_u32_to_le_bytes(last.len() as u32) + encode_hits(last@)
    }
}

fn append(out: &mut Vec<u8>, bytes: Vec<u8>)
    ensures
        final(out)@ == old(out)@ + bytes@,
{
    let mut i: usize = 0;
    let ghost start = out@;
    while i < bytes.len()
        invariant
            i <= bytes.len(),
            out@ == start + bytes@.subrange(0, i as int),
        decreases bytes.len() - i,
    {
        out.push(bytes[i]);
        i = i + 1;
        assert(out@ == start + bytes@.subrange(0, i as int));
    }
    assert(bytes@.subrange(0, bytes.len() as int) == bytes@);
}

/// Encodes the results of a batch search as a binary response.
pub fn encode_batch_response(results: &[Vec<ResultRecord>]) -> (out: Vec<u8>)
    ensures
        out@ == encode_batch(results@),
{
    let mut out: Vec<u8> = Vec::new();
    let mut q: usize = 0;
    while q < results.len()
        invariant
            q <= results.len(),
            out@ == encode_batch(results@.subrange(0, q as int)),
        decreases results.len() - q,
    {
        let hits = &results[q];
        let ghost before = out@;
        append(&mut out, u32_to_le_bytes(hits.len() as u32));
        let mut h: usize = 0;
        while h < hits.len()
            invariant
                h <= hits.len(),
                out@ == before + spec_u32_to_le_bytes(hits.len() as u32) + encode_hits(hits@.subrange(0, h as int)),
            decreases hits.len() - h,
        {
            let hit = &hits[h];
            let ghost mid = out@;
            append(&mut out, u64_to_le_bytes(hit.id));
            append(&mut out, u32_to_le_bytes(hit.score));
            match &hit.vector {
                Some(v) => {
                    out.push(1u8);
                    let ghost vstart = out@;
                    let mut k: usize = 0;
                    while k < v.len()
                        invariant
                            k <= v.len(),
                            out@ == vstart + encode_values(v@.subrange(0, k as int)),
                        decreases v.len() - k,
                    {
                        append(&mut out, u32_to_le_bytes(v[k]));
                        proof {
                            let pre = v@.subrange(0, k + 1);
                            assert(pre.drop_last() == v@.subrange(0, k as int));
                            assert(pre.last() == v@[k as int]);
                        }
                        k = k + 1;
                    }
                    proof {
                        assert(v@.subrange(0, v.len() as int) == v@);
                        assert(out@ == mid + encode_hit(*hit));
                    }
                },
                None => {
                    out.push(0u8);
                    proof {
                        assert(out@ == mid + encode_hit(*hit));
                    }
                },
            }
            proof {
                let pre = hits@.subrange(0, h + 1);
                assert(pre.drop_last() == hits@.subrange(0, h as int));
                assert(pre.last() == *hit);
            }
            h = h + 1;
        }
        proof {
            assert(hits@.subrange(0, hits.len() as int) == hits@);
            let pre = results@.subrange(0, q + 1);
            assert(pre.drop_last() == results@.subrange(0, q as int));
            assert(pre.last() == *hits);
        }
        q = q + 1;
    }
    assert(results@.subrange(0, results.len() as int) == results@);
    out
}

impl BatchRequest {
    /// The parameters a binary request searches with: never exact, with its
    /// probe count, re-ranking choice and factor, and vector choice.
    pub fn search_params(&self) -> (p: SearchParams)
        ensures
            p.exact == Some(false),
            p.n_probe == Some(self.n_probe as usize),
            p.rerank == Some(self.rerank),
            p.rerank_factor == Some(self.rerank_factor as usize),
            p.with_vector == Some(self.with_vector),
    {
        SearchParams {
            exact: Some(false),
            n_probe: Some(self.n_probe as usize),
            rerank: Some(self.rerank),
            rerank_factor: Some(self.rerank_factor as usize),
            with_vector: Some(self.with_vector),
        }
    }
}

/// An encoded vector is its values in stored order, four little-endian
/// bytes each: value `j` takes bytes `4 * j .. 4 * j + 4`, and nothing else
/// is written.
pub proof fn lemma_encoded_values_in_order(v: Seq<u32>)
    ensures
        encode_values(v).len() == 4 * v.len(),
        forall|j: int|
            0 <= j < v.len() ==> #[trigger] encode_values(v).subrange(4 * j, 4 * j + 4) == spec_u32_to_le_bytes(
                v[j],
            ),
    decreases v.len(),
{
    lemma_auto_spec_u32_to_from_le_bytes();
    if v.len() > 0 {
        let p = v.drop_last();
        lemma_encoded_values_in_order(p);
        let e = encode_values(v);
        assert(e == encode_values(p) + spec_u32_to_le_bytes(v.last()));
        assert forall|j: int| 0 <= j < v.len() implies #[trigger] e.subrange(4 * j, 4 * j + 4)
            == spec_u32_to_le_bytes(v[j]) by {
            if j < p.len() {
                assert(e.subrange(4 * j, 4 * j + 4) =~= encode_values(p).subrange(4 * j, 4 * j + 4));
                assert(v[j] == p[j]);
            } else {
                assert(e.subrange(4 * j, 4 * j + 4) =~= spec_u32_to_le_bytes(v.last()));
            }
        }
    }
}

} // verus!
