//! Search parameters as a request gives them, and with defaults applied.
use vstd::prelude::*;

verus! {

/// Default number of candidates retrieved per requested result when re-ranking.
pub const DEFAULT_RERANK_FACTOR: usize = 10;

/// Optional knobs of a search request.
pub struct SearchParams {
    /// Scan every stored vector instead of the index.
    pub exact: Option<bool>,
    /// IVF lists to probe (all of them by default).
    pub n_probe: Option<usize>,
    /// Re-score index hits with exact inner products.
    pub rerank: Option<bool>,
    /// Candidates retrieved per requested result when re-ranking.
    pub rerank_factor: Option<usize>,
    /// Return the stored vectors with the hits.
    pub with_vector: Option<bool>,
}

/// Search parameters with defaults applied.
pub struct ResolvedParams {
    pub exact: bool,
    pub n_probe: Option<usize>,
    pub rerank: bool,
    pub rerank_factor: usize,
    pub with_vector: bool,
}

/// Applies the defaults: no exact scan, no re-ranking, factor 10, no vectors.
pub fn resolve_params(params: &Option<SearchParams>) -> (r: ResolvedParams)
    ensures
        r.exact == (match params {
            Some(p) => match p.exact { Some(b) => b, None => false },
            None => false,
        }),
        r.n_probe == (match params {
            Some(p) => p.n_probe,
            None => None,
        }),
        r.rerank == (match params {
            Some(p) => match p.rerank { Some(b) => b, None => false },
            None => false,
        }),
        r.rerank_factor == (match params {
            Some(p) => match p.rerank_factor { Some(f) => f, None => DEFAULT_RERANK_FACTOR },
            None => DEFAULT_RERANK_FACTOR,
        }),
        r.with_vector == (match params {
            Some(p) => match p.with_vector { Some(b) => b, None => false },
            None => false,
        }),
{
    match params {
        Some(p) => ResolvedParams {
            exact: match p.exact { Some(b) => b, None => false },
            n_probe: p.n_probe,
            rerank: match p.rerank { Some(b) => b, None => false },
            rerank_factor: match p.rerank_factor { Some(f) => f, None => DEFAULT_RERANK_FACTOR },
            with_vector: match p.with_vector { Some(b) => b, None => false },
        },
        None => ResolvedParams {
            exact: false,
            n_probe: None,
            rerank: false,
            rerank_factor: DEFAULT_RERANK_FACTOR,
            with_vector: false,
        },
    }
}

impl Clone for SearchParams {
    fn clone(&self) -> (r: Self)
        ensures
            r == *self,
    {
        SearchParams {
            exact: self.exact,
            n_probe: self.n_probe,
            rerank: self.rerank,
            rerank_factor: self.rerank_factor,
            with_vector: self.with_vector,
        }
    }
}

} // verus!
