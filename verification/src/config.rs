//! Index configuration: how many IVF lists to build, how many bits each
//! coordinate is quantized to, and how many vectors train the coarse quantizer.
use vstd::prelude::*;

verus! {

/// Training sample size used when no limit is configured.
pub const DEFAULT_TRAINING_SAMPLES: usize = 50000;

/// Bits per coordinate used by a fresh engine (3 SQ bits plus 1 sign bit).
pub const DEFAULT_QUANTIZE_BITS: usize = 4;

/// How an index is built.
pub struct IndexConfig {
    /// Number of IVF lists; `None` picks the power of two nearest to 2*sqrt(N).
    pub n_list: Option<usize>,
    /// Total bits per coordinate: 2 (1 SQ bit) or 4 (3 SQ bits), each with one sign bit.
    pub quantize_bits: usize,
    /// Upper bound on the number of vectors that train the coarse centroids.
    pub max_training_samples: Option<usize>,
}

/// A request to reconfigure the index.
pub struct ConfigReq {
    pub n_list: Option<usize>,
    pub quantize_bits: usize,
    pub max_training_samples: Option<usize>,
}

impl Clone for IndexConfig {
    fn clone(&self) -> (r: Self)
        ensures
            r == *self,
    {
        IndexConfig {
            n_list: self.n_list,
            quantize_bits: self.quantize_bits,
            max_training_samples: self.max_training_samples,
        }
    }
}

impl Default for IndexConfig {
    fn default() -> (r: Self)
        ensures
            r.n_list is None,
            r.quantize_bits == DEFAULT_QUANTIZE_BITS,
            r.max_training_samples is None,
    {
        IndexConfig { n_list: None, quantize_bits: DEFAULT_QUANTIZE_BITS, max_training_samples: None }
    }
}

/// `p` is 1, 2, 4, 8, ...
pub open spec fn is_power_of_two(p: int) -> bool
    decreases p,
{
    if p <= 0 {
        false
    } else if p == 1 {
        true
    } else {
        p % 2 == 0 && is_power_of_two(p / 2)
    }
}

proof fn lemma_double_power_of_two(p: int)
    requires
        is_power_of_two(p),
    ensures
        is_power_of_two(2 * p),
{
    assert((2 * p) / 2 == p);
}

/// The largest power of two `q >= p` (reached by doubling `p`) with `q * q <= m`.
pub open spec fn largest_pow2_sq_le(m: int, p: int) -> int
    decreases m - p when p >= 1
{
    if 4 * p * p <= m {
        proof {
            assert(2 * p <= 4 * p * p) by (nonlinear_arith) requires p >= 1;
        }
        largest_pow2_sq_le(m, 2 * p)
    } else {
        p
    }
}

/// The power of two at or just below 2*sqrt(n).
pub open spec fn pow2_below_twice_sqrt(n: int) -> int {
    largest_pow2_sq_le(4 * n, 1)
}

/// The power of two at or just above 2*sqrt(n).
pub open spec fn pow2_above_twice_sqrt(n: int) -> int {
    let lo = pow2_below_twice_sqrt(n);
    if lo * lo == 4 * n { lo } else { 2 * lo }
}

/// The default number of IVF lists for `n` vectors: 1 below two vectors,
/// otherwise whichever of the two powers of two around 2*sqrt(n) lies nearer;
/// on a tie the larger one.  `2*sqrt(n) - lo < hi - 2*sqrt(n)` is
/// `16 * n < (lo + hi)^2` in integers.
pub open spec fn spec_default_n_list(n: int) -> int {
    if n < 2 {
        1
    } else {
        let lo = pow2_below_twice_sqrt(n);
        let hi = pow2_above_twice_sqrt(n);
        if 16 * n < (lo + hi) * (lo + hi) { lo } else { hi }
    }
}

/// `p` is no farther from 2*sqrt(n) than `q` is: `|2 sqrt(n) - p| <= |2 sqrt(n) - q|`,
/// written without roots for non-negative `p` and `q`.
pub open spec fn no_farther_from_twice_sqrt(n: int, p: int, q: int) -> bool {
    &&& q < p ==> (p + q) * (p + q) <= 16 * n
    &&& p < q ==> (p + q) * (p + q) >= 16 * n
}

proof fn lemma_largest_pow2_sq_le(m: int, p: int)
    requires
        p >= 1,
        is_power_of_two(p),
        p * p <= m,
    ensures
        is_power_of_two(largest_pow2_sq_le(m, p)),
        largest_pow2_sq_le(m, p) >= p,
        largest_pow2_sq_le(m, p) * largest_pow2_sq_le(m, p) <= m,
        m < 4 * largest_pow2_sq_le(m, p) * largest_pow2_sq_le(m, p),
    decreases m - p,
{
    if 4 * p * p <= m {
        assert(2 * p <= 4 * p * p) by (nonlinear_arith) requires p >= 1;
        assert((2 * p) * (2 * p) == 4 * p * p) by (nonlinear_arith);
        lemma_double_power_of_two(p);
        lemma_largest_pow2_sq_le(m, 2 * p);
    }
}

/// Between two powers of two there is a factor of two: `p < q` gives `2 * p <= q`.
proof fn lemma_pow2_gap(p: int, q: int)
    requires
        is_power_of_two(p),
        is_power_of_two(q),
        p < q,
    ensures
        2 * p <= q,
    decreases q,
{
    if p == 1 {
        assert(q != 1);
        assert(q % 2 == 0);
    } else {
        assert(q != 1);
        lemma_pow2_gap(p / 2, q / 2);
    }
}

proof fn lemma_pow2_pos(p: int)
    requires
        is_power_of_two(p),
    ensures
        p >= 1,
{
}

/// The two powers of two that bracket 2*sqrt(n), for `n >= 1`.
proof fn lemma_bracket(n: int)
    requires
        n >= 1,
    ensures
        is_power_of_two(pow2_below_twice_sqrt(n)),
        is_power_of_two(pow2_above_twice_sqrt(n)),
        pow2_below_twice_sqrt(n) * pow2_below_twice_sqrt(n) <= 4 * n,
        n < pow2_below_twice_sqrt(n) * pow2_below_twice_sqrt(n),
        pow2_below_twice_sqrt(n) >= 2,
{
    lemma_largest_pow2_sq_le(4 * n, 1);
    let lo = pow2_below_twice_sqrt(n);
    assert(n < lo * lo) by (nonlinear_arith) requires 4 * n < 4 * lo * lo;
    if lo == 1 {
        assert(false);
    }
    if lo * lo != 4 * n {
        lemma_double_power_of_two(lo);
    }
}

/// The default list count lies no farther from 2*sqrt(n) than any power of
/// two does, for every `n >= 2` (below two vectors a single list is used).
pub proof fn lemma_default_n_list_is_nearest_pow2(n: int, p: int)
    requires
        n >= 2,
        is_power_of_two(p),
    ensures
        is_power_of_two(spec_default_n_list(n)),
        no_farther_from_twice_sqrt(n, spec_default_n_list(n), p),
{
    lemma_bracket(n);
    lemma_pow2_pos(p);
    let lo = pow2_below_twice_sqrt(n);
    let hi = pow2_above_twice_sqrt(n);
    let r = spec_default_n_list(n);
    if p < lo {
        lemma_pow2_gap(p, lo);
    }
    if lo < p {
        lemma_pow2_gap(lo, p);
    }
    if hi < p {
        lemma_pow2_gap(hi, p);
    }
    if p < hi && hi != lo {
        lemma_pow2_gap(p, hi);
        if p != lo {
            lemma_pow2_gap(p, lo);
        }
    }
    if r == lo {
        if p < r {
            assert((r + p) * (r + p) <= 16 * n) by (nonlinear_arith)
                requires
                    2 * p <= r,
                    p >= 1,
                    r * r <= 4 * n,
            ;
        }
        if r < p {
            if hi == lo {
                assert((r + p) * (r + p) >= 16 * n) by (nonlinear_arith)
                    requires
                        2 * r <= p,
                        r * r == 4 * n,
                        r >= 1,
                ;
            } else {
                let a = r + hi;
                let b = r + p;
                assert(a * a <= b * b) by (nonlinear_arith)
                    requires
                        0 <= a <= b,
                ;
            }
        }
    } else {
        assert(hi == 2 * lo);
        if p < r {
            assert((r + p) * (r + p) <= 16 * n) by (nonlinear_arith)
                requires
                    p <= lo,
                    r == 2 * lo,
                    16 * n >= (lo + r) * (lo + r),
                    p >= 1,
            ;
        }
        if r < p {
            assert((r + p) * (r + p) >= 16 * n) by (nonlinear_arith)
                requires
                    2 * r <= p,
                    r == 2 * lo,
                    n < lo * lo,
                    lo >= 1,
            ;
        }
    }
}

/// The default number of IVF lists for `n` vectors (see `spec_default_n_list`).
pub fn default_n_list(n: usize) -> (r: usize)
    ensures
        r == spec_default_n_list(n as int),
{
    if n < 2 {
        return 1;
    }
    let four_n: u128 = 4 * (n as u128);
    let mut lo: u128 = 1;
    while lo * lo <= n as u128
        invariant
            n >= 2,
            four_n == 4 * n,
            lo >= 1,
            is_power_of_two(lo as int),
            lo * lo <= four_n,
            largest_pow2_sq_le(four_n as int, lo as int) == pow2_below_twice_sqrt(n as int),
        decreases four_n - lo,
    {
        assert(lo * lo <= 0x1_0000_0000_0000_0000) by (nonlinear_arith)
            requires lo * lo <= n, n <= 0xffff_ffff_ffff_ffff;
        assert(lo <= 0x1_0000_0000) by (nonlinear_arith)
            requires lo * lo <= 0x1_0000_0000_0000_0000, lo >= 1;
        assert(4 * lo * lo <= four_n) by (nonlinear_arith) requires lo * lo <= n, four_n == 4 * n;
        assert(2 * lo <= 4 * lo * lo) by (nonlinear_arith) requires lo >= 1;
        proof {
            lemma_double_power_of_two(lo as int);
        }
        assert((2 * lo) * (2 * lo) == 4 * lo * lo) by (nonlinear_arith);
        lo = 2 * lo;
    }
    proof {
        assert(!(4 * lo * lo <= four_n)) by (nonlinear_arith)
            requires !(lo * lo <= n), four_n == 4 * n;
        assert(largest_pow2_sq_le(four_n as int, lo as int) == lo);
        assert(lo * lo <= 0x4_0000_0000_0000_0000) by (nonlinear_arith)
            requires lo * lo <= four_n, four_n <= 0x4_0000_0000_0000_0000;
        assert(lo <= 0x2_0000_0000) by (nonlinear_arith)
            requires lo * lo <= 0x4_0000_0000_0000_0000, lo >= 1;
    }
    let hi: u128 = if lo * lo == four_n { lo } else { 2 * lo };
    proof {
        assert((lo + hi) * (lo + hi) <= 0x100_0000_0000_0000_0000) by (nonlinear_arith)
            requires lo <= 0x2_0000_0000, hi <= 2 * lo;
        assert(lo * lo <= four_n);
        assert(lo <= four_n) by (nonlinear_arith) requires lo * lo <= four_n, lo >= 1;
    }
    proof {
        let m = usize::MAX as int;
        assert(m >= 0xffff_ffff);
        assert(hi * hi <= 16 * n) by (nonlinear_arith)
            requires lo * lo <= 4 * n, hi == lo || hi == 2 * lo, lo >= 1;
        assert(hi <= m) by (nonlinear_arith)
            requires hi * hi <= 16 * n, n <= m, m >= 0xffff_ffff, hi >= 1;
        assert(lo <= hi);
    }
    if 16 * (n as u128) < (lo + hi) * (lo + hi) {
        lo as usize
    } else {
        hi as usize
    }
}

impl IndexConfig {
    /// Number of IVF lists for `n` vectors: the configured count, or the
    /// default, never more than `n`.
    pub open spec fn spec_effective_n_list(&self, n: int) -> int {
        let want = match self.n_list {
            Some(k) => k as int,
            None => spec_default_n_list(n),
        };
        if want < n { want } else { n }
    }

    pub fn effective_n_list(&self, n: usize) -> (r: usize)
        ensures
            r == self.spec_effective_n_list(n as int),
            r <= n,
    {
        let want = match self.n_list {
            Some(k) => k,
            None => default_n_list(n),
        };
        if want < n { want } else { n }
    }

    /// Number of vectors that train the coarse centroids: all of them, up to
    /// the configured (or default) limit.
    pub fn training_sample_size(&self, n: usize) -> (r: usize)
        ensures
            r == (match self.max_training_samples {
                Some(m) => if n < m { n } else { m },
                None => if n < DEFAULT_TRAINING_SAMPLES { n } else { DEFAULT_TRAINING_SAMPLES },
            }),
    {
        let limit = match self.max_training_samples {
            Some(m) => m,
            None => DEFAULT_TRAINING_SAMPLES,
        };
        if n < limit { n } else { limit }
    }

    /// SQ bits per coordinate: one of the configured bits carries the sign.
    pub fn sq_bits(&self) -> (r: usize)
        requires
            self.quantize_bits >= 1,
        ensures
            r == self.quantize_bits - 1,
    {
        self.quantize_bits - 1
    }

    /// Number of SQ codebook entries: two to the power of the SQ bits.
    pub fn sq_levels(&self) -> (k: usize)
        requires
            1 <= self.quantize_bits <= usize::BITS,
        ensures
            k == 1usize << (self.quantize_bits - 1) as usize,
    {
        let b = self.quantize_bits - 1;
        1usize << b
    }

    /// Replaces the list count and bit width; the training limit changes only
    /// when the request names one.
    pub fn apply(&mut self, req: &ConfigReq)
        ensures
            final(self).n_list == req.n_list,
            final(self).quantize_bits == req.quantize_bits,
            final(self).max_training_samples == (match req.max_training_samples {
                Some(m) => Some(m),
                None => old(self).max_training_samples,
            }),
    {
        self.n_list = req.n_list;
        self.quantize_bits = req.quantize_bits;
        if req.max_training_samples.is_some() {
            self.max_training_samples = req.max_training_samples;
        }
    }
}

/// A configured list count is used as given, capped only at the number of
/// vectors `n`; the default count matters only when none is configured.
pub proof fn lemma_configured_n_list_is_kept(cfg: IndexConfig, k: usize, n: int)
    requires
        cfg.n_list == Some(k),
        n >= 0,
    ensures
        cfg.spec_effective_n_list(n) == (if (k as int) <= n { k as int } else { n }),
        cfg.spec_effective_n_list(n) <= n,
        (k as int) <= n ==> cfg.spec_effective_n_list(n) == k,
{
}

/// Without a configured list count, the list count is the default one for
/// `n` vectors, capped at `n`.
pub proof fn lemma_default_n_list_applies_when_unset(cfg: IndexConfig, n: int)
    requires
        cfg.n_list is None,
        n >= 0,
    ensures
        cfg.spec_effective_n_list(n) == (if spec_default_n_list(n) <= n { spec_default_n_list(n) } else { n }),
{
}

} // verus!
