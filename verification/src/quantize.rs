//! Index-time scalar quantization of rotated residuals: each coordinate is
//! assigned the SQ bucket it falls into, and the sign of what is left over.
//! Values travel as `f32` bit patterns; comparisons follow IEEE-754.
use vstd::prelude::*;
use crate::score::{is_nan, is_nan_bits, ieee_lt, rank_key, lemma_rank_key_orders_floats};
use crate::packing::{
    codes_fit, index_sign_width, index_sq_width, is_sign_packing, is_sq_packing, pack_signs,
    pack_sq_codes,
};

verus! {

/// Bit pattern of `f32::NEG_INFINITY`.
pub const NEG_INFINITY_BITS: u32 = 0xff80_0000;

/// Bit pattern of `f32::INFINITY`.
pub const INFINITY_BITS: u32 = 0x7f80_0000;

/// Why a quantization request is refused.
#[derive(PartialEq, Eq, Structural, Debug)]
pub enum QuantizeError {
    /// Only 1 or 3 SQ bits are supported.
    UnsupportedBits(usize),
    /// The codebook must have `2^bits` centroids.
    CentroidCount { expected: usize, bits: usize, got: usize },
}

/// IEEE-754 `a >= b` on bit patterns (false when either is NaN).
pub open spec fn float_ge(a: u32, b: u32) -> bool {
    !is_nan_bits(a) && !is_nan_bits(b) && !ieee_lt(a, b)
}

/// IEEE-754 `a > b` on bit patterns (false when either is NaN).
pub open spec fn float_gt(a: u32, b: u32) -> bool {
    !is_nan_bits(a) && !is_nan_bits(b) && ieee_lt(b, a)
}

/// `a >= b` as floats.
pub fn ge_bits(a: u32, b: u32) -> (r: bool)
    ensures
        r == float_ge(a, b),
{
    if is_nan(a) || is_nan(b) {
        false
    } else {
        proof {
            lemma_rank_key_orders_floats(a, b);
        }
        rank_key(a) >= rank_key(b)
    }
}

/// `a > b` as floats.
pub fn gt_bits(a: u32, b: u32) -> (r: bool)
    ensures
        r == float_gt(a, b),
{
    if is_nan(a) || is_nan(b) {
        false
    } else {
        proof {
            lemma_rank_key_orders_floats(b, a);
        }
        rank_key(a) > rank_key(b)
    }
}

/// `i` is the bucket of `v` among `bounds`: `v` is at or above the bucket's
/// lower bound (the first bucket has none) and not at or above the next bound
/// (the last bucket has none).
pub open spec fn is_bucket(v: u32, bounds: Seq<u32>, i: int) -> bool {
    &&& 0 <= i <= bounds.len() - 2
    &&& i == 0 || float_ge(v, bounds[i])
    &&& i == bounds.len() - 2 || !float_ge(v, bounds[i + 1])
}

/// Bounds are numbers (no NaN) and never decrease, as floats.
pub open spec fn bounds_sorted(bounds: Seq<u32>) -> bool {
    &&& forall|i: int| 0 <= i < bounds.len() ==> !is_nan_bits(#[trigger] bounds[i])
    &&& forall|i: int, j: int| 0 <= i < j < bounds.len() ==> !float_gt(#[trigger] bounds[i], #[trigger] bounds[j])
}

/// Binary search for the bucket of `v`; `bounds` holds `k + 1` bounds for `k` buckets.
pub fn quant_bin(v: u32, bounds: &[u32]) -> (i: usize)
    requires
        bounds.len() >= 2,
    ensures
        is_bucket(v, bounds@, i as int),
{
    let mut lo: usize = 0;
    let mut hi: usize = bounds.len() - 1;
    while lo + 1 < hi
        invariant
            bounds.len() >= 2,
            lo < hi <= bounds.len() - 1,
            lo == 0 || float_ge(v, bounds@[lo as int]),
            hi == bounds.len() - 1 || !float_ge(v, bounds@[hi as int]),
        decreases hi - lo,
    {
        let mid = lo + (hi - lo) / 2;
        if ge_bits(v, bounds[mid]) {
            lo = mid;
        } else {
            hi = mid;
        }
    }
    lo
}

/// The result of quantizing `n` rows of `d` rotated values.
pub struct QuantizedRows {
    /// The bucket of every value, row-major.
    pub codes: Vec<u8>,
    /// The codes, packed row by row.
    pub sq_codes: Vec<u8>,
    /// One bit per value: whether it lies above its bucket's centroid.
    pub signs: Vec<bool>,
    /// The sign bits, packed row by row.
    pub qjl_signs: Vec<u8>,
}

/// The bucket bounds: minus infinity, the midpoints between neighbouring
/// centroids, plus infinity.
pub open spec fn spec_bounds(midpoints: Seq<u32>) -> Seq<u32> {
    seq![NEG_INFINITY_BITS] + midpoints + seq![INFINITY_BITS]
}

/// Checks the SQ bit width and the codebook size, answering the number of buckets.
pub fn check_quantize_params(sq_bits: usize, n_centroids: usize) -> (r: Result<usize, QuantizeError>)
    ensures
        sq_bits != 1 && sq_bits != 3 ==> r == Err::<usize, QuantizeError>(QuantizeError::UnsupportedBits(sq_bits)),
        (sq_bits == 1 || sq_bits == 3) && n_centroids != (if sq_bits == 1 { 2usize } else { 8usize })
            ==> r == Err::<usize, QuantizeError>(QuantizeError::CentroidCount {
                expected: if sq_bits == 1 { 2usize } else { 8usize },
                bits: sq_bits,
                got: n_centroids,
            }),
        (sq_bits == 1 || sq_bits == 3) && n_centroids == (if sq_bits == 1 { 2usize } else { 8usize })
            ==> r == Ok::<usize, QuantizeError>(n_centroids),
{
    if sq_bits != 1 && sq_bits != 3 {
        return Err(QuantizeError::UnsupportedBits(sq_bits));
    }
    let k: usize = if sq_bits == 1 { 2 } else { 8 };
    if n_centroids != k {
        return Err(QuantizeError::CentroidCount { expected: k, bits: sq_bits, got: n_centroids });
    }
    Ok(k)
}

/// The bit widths the quantizer supports, each with its codebook of
/// `2^sq_bits` centroids.
pub open spec fn params_accepted(sq_bits: int, n_centroids: int) -> bool {
    (sq_bits == 1 && n_centroids == 2) || (sq_bits == 3 && n_centroids == 8)
}

/// Quantizes `n` rows of `d` rotated values (`x_rot`, row-major, as `f32`
/// bits) against a codebook of `2^sq_bits` centroids, whose neighbouring
/// midpoints are given. Every value gets the bucket that the binary search
/// finds among [-inf, midpoints..., +inf], and a sign bit that tells whether
/// it lies above its bucket's centroid; codes and signs are packed per row.
pub fn tq_quantize_rotated(
    x_rot: &[u32],
    n: usize,
    d: usize,
    sq_centroids: &[u32],
    midpoints: &[u32],
    sq_bits: usize,
) -> (r: Result<QuantizedRows, QuantizeError>)
    requires
        params_accepted(sq_bits as int, sq_centroids.len() as int) ==> {
            &&& n * d <= x_rot.len()
            &&& midpoints.len() + 1 == sq_centroids.len()
            &&& n * index_sq_width(d as int, sq_bits as int) <= usize::MAX
            &&& n * index_sign_width(d as int) <= usize::MAX
        },
    ensures
        sq_bits != 1 && sq_bits != 3 ==> r == Err::<QuantizedRows, QuantizeError>(QuantizeError::UnsupportedBits(sq_bits)),
        (sq_bits == 1 || sq_bits == 3) && sq_centroids.len() != (if sq_bits == 1 { 2usize } else { 8usize })
            ==> r == Err::<QuantizedRows, QuantizeError>(QuantizeError::CentroidCount {
                expected: if sq_bits == 1 { 2usize } else { 8usize },
                bits: sq_bits,
                got: sq_centroids.len(),
            }),
        (sq_bits == 1 || sq_bits == 3) && sq_centroids.len() == (if sq_bits == 1 { 2usize } else { 8usize })
            ==> r is Ok,
        r matches Ok(q) ==> {
            &&& q.codes.len() == n * d
            &&& q.signs.len() == n * d
            &&& forall|i: int|
                0 <= i < n * d ==> {
                    &&& is_bucket(#[trigger] x_rot@[i], spec_bounds(midpoints@), q.codes@[i] as int)
                    &&& q.signs@[i] == float_gt(x_rot@[i], sq_centroids@[q.codes@[i] as int])
                }
            &&& is_sq_packing(q.sq_codes@, q.codes@, n as int, d as int, sq_bits as int)
            &&& is_sign_packing(q.qjl_signs@, q.signs@, n as int, d as int)
        },
{
    let k = match check_quantize_params(sq_bits, sq_centroids.len()) {
        Ok(k) => k,
        Err(e) => return Err(e),
    };
    let mut bounds: Vec<u32> = Vec::new();
    bounds.push(NEG_INFINITY_BITS);
    let mut i: usize = 0;
    while i < midpoints.len()
        invariant
            i <= midpoints.len(),
            bounds@ == seq![NEG_INFINITY_BITS] + midpoints@.subrange(0, i as int),
        decreases midpoints.len() - i,
    {
        bounds.push(midpoints[i]);
        i = i + 1;
        assert(bounds@ == seq![NEG_INFINITY_BITS] + midpoints@.subrange(0, i as int));
    }
    bounds.push(INFINITY_BITS);
    assert(midpoints@.subrange(0, midpoints.len() as int) == midpoints@);
    assert(bounds@ == spec_bounds(midpoints@));
    let total = n * d;
    let mut codes: Vec<u8> = Vec::new();
    let mut signs: Vec<bool> = Vec::new();
    let mut j: usize = 0;
    while j < total
        invariant
            j <= total,
            total == n * d,
            total <= x_rot.len(),
            bounds@ == spec_bounds(midpoints@),
            bounds.len() == k + 1,
            sq_centroids.len() == k,
            k == 2 || k == 8,
            sq_bits == 1 ==> k == 2,
            sq_bits == 3 ==> k == 8,
            codes.len() == j,
            signs.len() == j,
            codes_fit(codes@, sq_bits as int),
            forall|t: int|
                0 <= t < j ==> {
                    &&& is_bucket(#[trigger] x_rot@[t], bounds@, codes@[t] as int)
                    &&& signs@[t] == float_gt(x_rot@[t], sq_centroids@[codes@[t] as int])
                },
        decreases total - j,
    {
        let v = x_rot[j];
        let b = quant_bin(v, &bounds);
        let code = b as u8;
        codes.push(code);
        signs.push(gt_bits(v, sq_centroids[b]));
        j = j + 1;
    }
    let sq_codes = pack_sq_codes(&codes, n, d, sq_bits);
    let qjl_signs = pack_signs(&signs, n, d);
    Ok(QuantizedRows { codes, sq_codes, signs, qjl_signs })
}

/// With bounds sorted as floats, a value has exactly one bucket: the search
/// result is determined.
pub proof fn lemma_bucket_unique(v: u32, bounds: Seq<u32>, i: int, j: int)
    requires
        bounds_sorted(bounds),
        is_bucket(v, bounds, i),
        is_bucket(v, bounds, j),
    ensures
        i == j,
{
    if i < j {
        // v >= bounds[j] >= bounds[i + 1] contradicts v < bounds[i + 1]
        let a = bounds[i + 1];
        let b = bounds[j];
        assert(float_ge(v, b));
        assert(!float_ge(v, a));
        if i + 1 < j {
            assert(!float_gt(a, b));
        }
        lemma_float_ge_trans(v, b, a);
    } else if j < i {
        let a = bounds[j + 1];
        let b = bounds[i];
        assert(float_ge(v, b));
        assert(!float_ge(v, a));
        if j + 1 < i {
            assert(!float_gt(a, b));
        }
        lemma_float_ge_trans(v, b, a);
    }
}

/// `v >= b` and `b` not above `a` give `v >= a` (for non-NaN `a`).
proof fn lemma_float_ge_trans(v: u32, b: u32, a: u32)
    requires
        float_ge(v, b),
        !float_gt(a, b),
        !is_nan_bits(a),
    ensures
        float_ge(v, a),
{
    lemma_rank_key_orders_floats(v, b);
    lemma_rank_key_orders_floats(a, b);
    lemma_rank_key_orders_floats(b, a);
    lemma_rank_key_orders_floats(v, a);
}

} // verus!
