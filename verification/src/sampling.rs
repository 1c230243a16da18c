//! Random choices made while building an index: which vectors train the
//! coarse quantizer, which vectors seed k-means, and which values train the
//! SQ codebook. The randomness comes from the `rand` crate; what holds of
//! every outcome is stated and the rest is proved.
use vstd::prelude::*;
use rand::rngs::ThreadRng;
use rand::seq::IteratorRandom;
use rand::seq::SliceRandom;
use rand::RngExt;
use crate::config::IndexConfig;

verus! {

/// Values past which the SQ codebook is trained on a random sample.
pub const LLOYD_SAMPLE_LIMIT: usize = 1000000;

#[verifier::external_type_specification]
#[verifier::external_body]
pub struct ExThreadRng(ThreadRng);

/// `IteratorRandom::choose_multiple` on `0..n`: a reservoir sample of
/// `min(amount, n)` distinct values below `n` (in no particular order).
#[verifier::external_body]
#[allow(deprecated)]
fn sample_below(rng: &mut ThreadRng, n: usize, amount: usize) -> (r: Vec<usize>)
    ensures
        r.len() == (if amount < n { amount } else { n }),
        r@.no_duplicates(),
        forall|i: int| 0 <= i < r.len() ==> #[trigger] r@[i] < n,
{
    (0..n).choose_multiple(rng, amount)
}

/// `SliceRandom::shuffle`: permutes the vector in place.
#[verifier::external_body]
fn shuffle_in_place(rng: &mut ThreadRng, v: &mut Vec<usize>)
    ensures
        final(v)@.to_multiset() == old(v)@.to_multiset(),
        final(v)@.len() == old(v)@.len(),
{
    v.shuffle(rng)
}

/// `RngExt::random_range` on `lo..hi`: some value in that range; the range
/// must not be empty.
#[verifier::external_body]
fn random_in_range(rng: &mut ThreadRng, lo: usize, hi: usize) -> (r: usize)
    requires
        lo < hi,
    ensures
        lo <= r < hi,
{
    rng.random_range(lo..hi)
}

/// The vectors that train the coarse centroids: as many distinct rows below
/// `n` as the configuration's training limit allows.
pub fn training_rows(rng: &mut ThreadRng, config: &IndexConfig, n: usize) -> (rows: Vec<usize>)
    ensures
        rows.len() == (match config.max_training_samples {
            Some(m) => if n < m { n } else { m },
            None => if n < crate::config::DEFAULT_TRAINING_SAMPLES { n } else { crate::config::DEFAULT_TRAINING_SAMPLES },
        }),
        rows@.no_duplicates(),
        forall|i: int| 0 <= i < rows.len() ==> #[trigger] rows@[i] < n,
{
    let size = config.training_sample_size(n);
    sample_below(rng, n, size)
}

/// The rows whose vectors seed k-means: the first `n_list` entries of a
/// random permutation of `0..n`, hence `n_list` distinct rows below `n`.
pub fn kmeans_seed_rows(rng: &mut ThreadRng, n: usize, n_list: usize) -> (rows: Vec<usize>)
    requires
        n_list <= n,
    ensures
        rows.len() == n_list,
        rows@.no_duplicates(),
        forall|i: int| 0 <= i < rows.len() ==> #[trigger] rows@[i] < n,
{
    let mut idxs: Vec<usize> = Vec::new();
    let mut i: usize = 0;
    while i < n
        invariant
            i <= n,
            idxs.len() == i,
            forall|t: int| 0 <= t < i ==> #[trigger] idxs@[t] == t,
        decreases n - i,
    {
        idxs.push(i);
        i = i + 1;
    }
    proof {
        assert(idxs@.no_duplicates());
        idxs@.lemma_multiset_has_no_duplicates();
    }
    let ghost before = idxs@;
    shuffle_in_place(rng, &mut idxs);
    proof {
        idxs@.lemma_multiset_has_no_duplicates_conv();
        assert forall|t: int| 0 <= t < idxs.len() implies #[trigger] idxs@[t] < n by {
            idxs@.to_multiset_ensures();
            assert(idxs@.contains(idxs@[t]));
            assert(idxs@.to_multiset().count(idxs@[t]) > 0);
            assert(before.to_multiset().count(idxs@[t]) > 0);
            before.to_multiset_ensures();
            assert(before.contains(idxs@[t]));
        }
    }
    let mut rows: Vec<usize> = Vec::new();
    let mut j: usize = 0;
    while j < n_list
        invariant
            j <= n_list,
            n_list <= n,
            idxs.len() == n,
            idxs@.no_duplicates(),
            forall|t: int| 0 <= t < idxs.len() ==> #[trigger] idxs@[t] < n,
            rows@ == idxs@.subrange(0, j as int),
        decreases n_list - j,
    {
        rows.push(idxs[j]);
        j = j + 1;
        assert(rows@ == idxs@.subrange(0, j as int));
    }
    rows
}

/// The positions of the values that train the SQ codebook: all of them up
/// to `LLOYD_SAMPLE_LIMIT` values, otherwise `LLOYD_SAMPLE_LIMIT` random
/// positions (drawn with replacement).
pub fn lloyd_sample_positions(rng: &mut ThreadRng, total: usize) -> (pos: Vec<usize>)
    ensures
        total <= LLOYD_SAMPLE_LIMIT ==> pos@ == Seq::new(total as nat, |i: int| i as usize),
        total > LLOYD_SAMPLE_LIMIT ==> pos.len() == LLOYD_SAMPLE_LIMIT,
        forall|i: int| 0 <= i < pos.len() ==> #[trigger] pos@[i] < total,
{
    let mut pos: Vec<usize> = Vec::new();
    if total <= LLOYD_SAMPLE_LIMIT {
        let mut i: usize = 0;
        while i < total
            invariant
                i <= total,
                pos@ == Seq::new(i as nat, |t: int| t as usize),
            decreases total - i,
        {
            pos.push(i);
            i = i + 1;
            assert(pos@ == Seq::new(i as nat, |t: int| t as usize));
        }
    } else {
        let mut i: usize = 0;
        while i < LLOYD_SAMPLE_LIMIT
            invariant
                i <= LLOYD_SAMPLE_LIMIT,
                total > LLOYD_SAMPLE_LIMIT,
                pos.len() == i,
                forall|t: int| 0 <= t < i ==> #[trigger] pos@[t] < total,
            decreases LLOYD_SAMPLE_LIMIT - i,
        {
            let p = random_in_range(rng, 0, total);
            pos.push(p);
            i = i + 1;
        }
    }
    pos
}

} // verus!
