//! Scores are `f32` values carried as their IEEE-754 bit patterns. This module
//! maps a bit pattern to an unsigned key whose integer order is the order of
//! the float values, and back.
use vstd::prelude::*;

verus! {

/// The sign bit of an `f32` bit pattern.
pub const SIGN_BIT: u32 = 0x8000_0000;

/// Bit pattern of `f32::MIN`, the lowest finite value.
pub const F32_MIN_BITS: u32 = 0xff7f_ffff;

/// Key of a score: negative values are bit-inverted, non-negative ones get the
/// sign bit set, so that unsigned order follows the float order.
pub open spec fn spec_score_key(bits: u32) -> u32 {
    if bits & SIGN_BIT != 0 { !bits } else { bits | SIGN_BIT }
}

/// The bit pattern that a key stands for.
pub open spec fn spec_key_bits(key: u32) -> u32 {
    if key & SIGN_BIT == 0 { !key } else { key & 0x7fff_ffff }
}

/// Key used when results are ranked by value: `-0.0` ranks as `+0.0`, since the
/// two compare equal as floats.
pub open spec fn spec_rank_key(bits: u32) -> u32 {
    if bits == SIGN_BIT { SIGN_BIT } else { spec_score_key(bits) }
}

/// The bit pattern is a NaN: all exponent bits set and a non-zero fraction.
pub open spec fn is_nan_bits(bits: u32) -> bool {
    &&& bits & 0x7f80_0000 == 0x7f80_0000
    &&& bits & 0x007f_ffff != 0
}

/// IEEE-754 `<` on two non-NaN bit patterns, by sign and magnitude: the
/// magnitude of a pattern is its value's absolute size, and zeros of either
/// sign are equal.
pub open spec fn ieee_lt(a: u32, b: u32) -> bool {
    let ma = a & 0x7fff_ffff;
    let mb = b & 0x7fff_ffff;
    let na = a & SIGN_BIT != 0;
    let nb = b & SIGN_BIT != 0;
    if ma == 0 && mb == 0 {
        false
    } else if !na && !nb {
        ma < mb
    } else if na && nb {
        mb < ma
    } else {
        na
    }
}

/// IEEE-754 `==` on two non-NaN bit patterns.
pub open spec fn ieee_eq(a: u32, b: u32) -> bool {
    a == b || (a & 0x7fff_ffff == 0 && b & 0x7fff_ffff == 0)
}

/// The key of a score.
pub fn score_key(bits: u32) -> (k: u32)
    ensures
        k == spec_score_key(bits),
{
    if bits & SIGN_BIT != 0 { !bits } else { bits | SIGN_BIT }
}

/// The score bits that a key stands for.
pub fn key_bits(key: u32) -> (b: u32)
    ensures
        b == spec_key_bits(key),
{
    if key & SIGN_BIT == 0 { !key } else { key & 0x7fff_ffff }
}

/// The ranking key of a score.
pub fn rank_key(bits: u32) -> (k: u32)
    ensures
        k == spec_rank_key(bits),
{
    if bits == SIGN_BIT { SIGN_BIT } else { score_key(bits) }
}

/// Whether a score's bit pattern is a NaN.
pub fn is_nan(bits: u32) -> (r: bool)
    ensures
        r == is_nan_bits(bits),
{
    bits & 0x7f80_0000 == 0x7f80_0000 && bits & 0x007f_ffff != 0
}

/// Turning a score into its key and back gives the same bit pattern, for every pattern.
pub proof fn lemma_key_bits_of_score_key(bits: u32)
    ensures
        spec_key_bits(spec_score_key(bits)) == bits,
{
    assert(spec_key_bits(spec_score_key(bits)) == bits) by (bit_vector);
}

/// Every key is the key of the bit pattern that it stands for.
pub proof fn lemma_score_key_of_key_bits(key: u32)
    ensures
        spec_score_key(spec_key_bits(key)) == key,
{
    assert(spec_score_key(spec_key_bits(key)) == key) by (bit_vector);
}

/// Keys follow the float order: on non-NaN scores, a smaller value has a
/// smaller key. The two zeros are the one exception (`-0.0` keys below `+0.0`).
pub proof fn lemma_score_key_monotone(a: u32, b: u32)
    requires
        !is_nan_bits(a),
        !is_nan_bits(b),
    ensures
        ieee_lt(a, b) ==> spec_score_key(a) < spec_score_key(b),
        spec_score_key(a) < spec_score_key(b) ==> ieee_lt(a, b) || (ieee_eq(a, b) && a != b),
{
    assert(ieee_lt(a, b) ==> spec_score_key(a) < spec_score_key(b)) by (bit_vector);
    assert(spec_score_key(a) < spec_score_key(b) ==> ieee_lt(a, b) || (ieee_eq(a, b) && a != b))
        by (bit_vector);
}

/// Ranking keys follow the float order exactly on non-NaN scores: `<` on
/// values is `<` on keys and `==` on values is `==` on keys.
pub proof fn lemma_rank_key_orders_floats(a: u32, b: u32)
    requires
        !is_nan_bits(a),
        !is_nan_bits(b),
    ensures
        ieee_lt(a, b) <==> spec_rank_key(a) < spec_rank_key(b),
        ieee_eq(a, b) <==> spec_rank_key(a) == spec_rank_key(b),
{
    assert(ieee_lt(a, b) <==> spec_rank_key(a) < spec_rank_key(b)) by (bit_vector);
    assert(ieee_eq(a, b) <==> spec_rank_key(a) == spec_rank_key(b)) by (bit_vector);
}

} // verus!
