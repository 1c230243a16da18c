//! Bit packing of quantization codes.
//!
//! At index time each row of `d` SQ codes is packed 8 per byte (1-bit codes,
//! code `j` at bit `j % 8` of byte `j / 8`) or 2 per byte (3-bit codes, code `j`
//! at bits `3 * (j % 2)` of byte `j / 2`), and the sign bits 8 per byte.
//! Rows take `ceil(d / per_byte)` bytes each. At search time a row is read
//! back with `d / per_byte` bytes per row and only its first `8 * (d / 8)`
//! coordinates are scored.
use vstd::prelude::*;

verus! {

/// Codes stored per byte for a given SQ bit width.
pub open spec fn codes_per_byte(bits: int) -> int {
    if bits == 1 { 8 } else { 2 }
}

/// Bytes per row of packed SQ codes, as written at index time.
pub open spec fn index_sq_width(d: int, bits: int) -> int {
    (d + codes_per_byte(bits) - 1) / codes_per_byte(bits)
}

/// Bytes per row of packed sign bits, as written at index time.
pub open spec fn index_sign_width(d: int) -> int {
    (d + 7) / 8
}

/// Bytes per row of packed SQ codes, as read at search time.
pub open spec fn search_sq_width(d: int, bits: int) -> int {
    if bits == 1 { d / 8 } else { d / 2 }
}

/// Bytes per row of packed sign bits, as read at search time.
pub open spec fn search_sign_width(d: int) -> int {
    d / 8
}

/// Number of coordinates of a row that the search scores.
pub open spec fn scored_coords(d: int) -> int {
    8 * (d / 8)
}

/// The code of coordinate `j` of `row` in a flat row-major table, 0 past the row's end.
pub open spec fn code_at(codes: Seq<u8>, d: int, row: int, j: int) -> u8 {
    if j < d { codes[row * d + j] } else { 0 }
}

/// The sign bit of coordinate `j` of `row`, 0 past the row's end.
pub open spec fn sign_at(signs: Seq<bool>, d: int, row: int, j: int) -> u8 {
    if j < d && signs[row * d + j] { 1 } else { 0 }
}

/// Byte `b` of a packed row holds exactly the codes that belong to it, and
/// every bit not used by a code is zero.
pub open spec fn sq_byte_holds(byte: u8, codes: Seq<u8>, d: int, row: int, b: int, bits: int) -> bool {
    if bits == 1 {
        forall|m: u8| m < 8 ==> #[trigger] ((byte >> m) & 1u8) == code_at(codes, d, row, 8 * b + m)
    } else {
        &&& byte & 7u8 == code_at(codes, d, row, 2 * b)
        &&& (byte >> 3u8) & 7u8 == code_at(codes, d, row, 2 * b + 1)
        &&& byte >> 6u8 == 0
    }
}

/// Byte `b` of a packed sign row holds exactly the sign bits that belong to it.
pub open spec fn sign_byte_holds(byte: u8, signs: Seq<bool>, d: int, row: int, b: int) -> bool {
    forall|m: u8| m < 8 ==> #[trigger] ((byte >> m) & 1u8) == sign_at(signs, d, row, 8 * b + m)
}

/// `packed` is the index-time packing of `n` rows of `d` SQ codes.
pub open spec fn is_sq_packing(packed: Seq<u8>, codes: Seq<u8>, n: int, d: int, bits: int) -> bool {
    let w = index_sq_width(d, bits);
    &&& packed.len() == n * w
    &&& forall|row: int, b: int|
        0 <= row < n && 0 <= b < w ==> #[trigger] sq_byte_holds(
            packed[row * w + b],
            codes,
            d,
            row,
            b,
            bits,
        )
}

/// `packed` is the index-time packing of `n` rows of `d` sign bits.
pub open spec fn is_sign_packing(packed: Seq<u8>, signs: Seq<bool>, n: int, d: int) -> bool {
    let w = index_sign_width(d);
    &&& packed.len() == n * w
    &&& forall|row: int, b: int|
        0 <= row < n && 0 <= b < w ==> #[trigger] sign_byte_holds(packed[row * w + b], signs, d, row, b)
}

/// Every code fits in `bits` bits.
pub open spec fn codes_fit(codes: Seq<u8>, bits: int) -> bool {
    forall|i: int| 0 <= i < codes.len() ==> (#[trigger] codes[i] as int) < (if bits == 1 { 2int } else { 8int })
}

/// The SQ code of coordinate `c` of `row`, as the search reads it.
pub open spec fn search_sq_code(packed: Seq<u8>, row: int, c: int, d: int, bits: int) -> u8 {
    let w = search_sq_width(d, bits);
    if bits == 1 {
        (packed[row * w + c / 8] >> ((c % 8) as u8)) & 1u8
    } else {
        (packed[row * w + c / 2] >> ((3 * (c % 2)) as u8)) & 7u8
    }
}

/// The sign bit of coordinate `c` of `row`, as the search reads it.
pub open spec fn search_sign(packed: Seq<u8>, row: int, c: int, d: int) -> bool {
    (packed[row * search_sign_width(d) + c / 8] >> ((c % 8) as u8)) & 1u8 == 1u8
}

proof fn lemma_set_bit(x: u8, c: u8, m: u8, i: u8)
    requires
        c < 2,
        m < 8,
        i < 8,
        (x >> m) & 1u8 == 0,
    ensures
        ((x | (c << m)) >> i) & 1u8 == (if i == m { c } else { (x >> i) & 1u8 }),
{
    assert(c < 2 && m < 8 && i < 8 && (x >> m) & 1u8 == 0 ==> ((x | (c << m)) >> i) & 1u8 == (if i
        == m {
        c
    } else {
        (x >> i) & 1u8
    })) by (bit_vector);
}

proof fn lemma_zero_bits(i: u8)
    requires
        i < 8,
    ensures
        (0u8 >> i) & 1u8 == 0,
{
    assert((0u8 >> i) & 1u8 == 0) by (bit_vector);
}

/// Packs 8 one-bit values (`vals(m)` for bit `m`, 0 past `count`) into a byte.
fn pack_bits_byte(vals: &[u8], start: usize, count: usize) -> (byte: u8)
    requires
        count <= 8,
        start + count <= vals.len(),
        forall|i: int| start <= i < start + count ==> vals[i] < 2,
    ensures
        forall|m: u8| m < 8 ==> #[trigger] ((byte >> m) & 1u8) == (if (m as int) < count {
            vals[start + m]
        } else {
            0u8
        }),
{
    let mut byte: u8 = 0;
    let mut m: u8 = 0;
    proof {
        assert forall|i: u8| i < 8 implies #[trigger] ((byte >> i) & 1u8) == 0u8 by {
            lemma_zero_bits(i);
        }
    }
    while m < 8
        invariant
            m <= 8,
            count <= 8,
            start + count <= vals.len(),
            forall|i: int| start <= i < start + count ==> vals[i] < 2,
            forall|i: u8| i < 8 ==> #[trigger] ((byte >> i) & 1u8) == (if i < m && (i as int) < count {
                vals[start + i]
            } else {
                0u8
            }),
        decreases 8 - m,
    {
        if (m as usize) < count {
            let c = vals[start + m as usize];
            let ghost old_byte = byte;
            assert((byte >> m) & 1u8 == 0);
            byte = byte | (c << m);
            proof {
                assert forall|i: u8| i < 8 implies #[trigger] ((byte >> i) & 1u8) == (if i < m + 1
                    && (i as int) < count {
                    vals[start + i]
                } else {
                    0u8
                }) by {
                    lemma_set_bit(old_byte, c, m, i);
                }
            }
        }
        m = m + 1;
    }
    byte
}

/// Packs two 3-bit codes into a byte: `lo` at bits 0..3, `hi` at bits 3..6.
fn pack_pair_byte(lo: u8, hi: u8) -> (byte: u8)
    requires
        lo < 8,
        hi < 8,
    ensures
        byte & 7u8 == lo,
        (byte >> 3u8) & 7u8 == hi,
        byte >> 6u8 == 0,
{
    let byte = lo | (hi << 3u8);
    assert(lo < 8 && hi < 8 ==> (lo | (hi << 3u8)) & 7u8 == lo && ((lo | (hi << 3u8)) >> 3u8) & 7u8
        == hi && (lo | (hi << 3u8)) >> 6u8 == 0) by (bit_vector);
    byte
}

/// Packs `n` rows of `d` SQ codes (row-major in `codes`), `bits` 1 or 3.
pub fn pack_sq_codes(codes: &[u8], n: usize, d: usize, bits: usize) -> (packed: Vec<u8>)
    requires
        bits == 1 || bits == 3,
        codes.len() == n * d,
        codes_fit(codes@, bits as int),
        n * index_sq_width(d as int, bits as int) <= usize::MAX,
    ensures
        is_sq_packing(packed@, codes@, n as int, d as int, bits as int),
{
    let per: usize = if bits == 1 { 8 } else { 2 };
    let w: usize = d / per + if d % per != 0 { 1 } else { 0 };
    assert(w == index_sq_width(d as int, bits as int)) by (nonlinear_arith)
        requires per == codes_per_byte(bits as int), w == d / per + if d % per != 0 { 1int } else { 0int }, per > 0;
    let mut packed: Vec<u8> = Vec::new();
    let mut row: usize = 0;
    while row < n
        invariant
            row <= n,
            bits == 1 || bits == 3,
            per == codes_per_byte(bits as int),
            w == index_sq_width(d as int, bits as int),
            codes.len() == n * d,
            codes_fit(codes@, bits as int),
            n * w <= usize::MAX,
            packed.len() == row * w,
            forall|r: int, b: int|
                0 <= r < row && 0 <= b < w ==> #[trigger] sq_byte_holds(
                    packed[r * w + b],
                    codes@,
                    d as int,
                    r,
                    b,
                    bits as int,
                ),
        decreases n - row,
    {
        proof {
            assert(row * d + d <= n * d) by (nonlinear_arith) requires row < n;
            assert(row * w + w <= n * w) by (nonlinear_arith) requires row < n;
        }
        let base = row * d;
        let mut b: usize = 0;
        while b < w
            invariant
                row < n,
                b <= w,
                bits == 1 || bits == 3,
                per == codes_per_byte(bits as int),
                w == index_sq_width(d as int, bits as int),
                codes.len() == n * d,
                base == row * d,
                base + d <= codes.len(),
                codes_fit(codes@, bits as int),
                row * w + w <= n * w,
                n * w <= usize::MAX,
                packed.len() == row * w + b,
                forall|r: int, bb: int|
                    0 <= r < row && 0 <= bb < w ==> #[trigger] sq_byte_holds(
                        packed[r * w + bb],
                        codes@,
                        d as int,
                        r,
                        bb,
                        bits as int,
                    ),
                forall|bb: int|
                    0 <= bb < b ==> #[trigger] sq_byte_holds(
                        packed[row * w + bb],
                        codes@,
                        d as int,
                        row as int,
                        bb,
                        bits as int,
                    ),
            decreases w - b,
        {
            proof {
                assert(per * b < d) by (nonlinear_arith)
                    requires b < w, w == (d + per - 1) as int / per as int, per > 0;
            }
            let first = per * b;
            let byte: u8 = if bits == 1 {
                let count: usize = if d - first < 8 { d - first } else { 8 };
                let byte = pack_bits_byte(codes, base + first, count);
                proof {
                    assert forall|m: u8| m < 8 implies #[trigger] ((byte >> m) & 1u8) == code_at(
                        codes@,
                        d as int,
                        row as int,
                        8 * b + m,
                    ) by {
                        if (m as int) < count {
                            assert(base + first + m == row * d + (8 * b + m));
                        }
                    }
                }
                byte
            } else {
                let lo = codes[base + first];
                let hi = if first + 1 < d { codes[base + first + 1] } else { 0 };
                let byte = pack_pair_byte(lo, hi);
                proof {
                    assert(base + first == row * d + 2 * b);
                }
                byte
            };
            let ghost before = packed@;
            packed.push(byte);
            proof {
                assert forall|r: int, bb: int|
                    0 <= r < row && 0 <= bb < w implies #[trigger] sq_byte_holds(
                    packed[r * w + bb],
                    codes@,
                    d as int,
                    r,
                    bb,
                    bits as int,
                ) by {
                    assert(r * w + bb < row * w) by (nonlinear_arith) requires r < row, bb < w, r >= 0, bb >= 0;
                    assert(packed[r * w + bb] == before[r * w + bb]);
                }
                assert forall|bb: int|
                    0 <= bb < b + 1 implies #[trigger] sq_byte_holds(
                    packed[row * w + bb],
                    codes@,
                    d as int,
                    row as int,
                    bb,
                    bits as int,
                ) by {
                    if bb < b {
                        assert(packed[row * w + bb] == before[row * w + bb]);
                    }
                }
            }
            b = b + 1;
        }
        row = row + 1;
        proof {
            assert(packed.len() == row * w) by (nonlinear_arith)
                requires packed.len() == (row - 1) * w + w;
        }
    }
    packed
}

/// Packs 8 sign bits (`signs[start + m]` for bit `m`, 0 past `count`) into a byte.
fn pack_sign_byte(signs: &[bool], start: usize, count: usize) -> (byte: u8)
    requires
        count <= 8,
        start + count <= signs.len(),
    ensures
        forall|m: u8| m < 8 ==> #[trigger] ((byte >> m) & 1u8) == (if (m as int) < count
            && signs[start + m] {
            1u8
        } else {
            0u8
        }),
{
    let mut byte: u8 = 0;
    let mut m: u8 = 0;
    proof {
        assert forall|i: u8| i < 8 implies #[trigger] ((byte >> i) & 1u8) == 0u8 by {
            lemma_zero_bits(i);
        }
    }
    while m < 8
        invariant
            m <= 8,
            count <= 8,
            start + count <= signs.len(),
            forall|i: u8| i < 8 ==> #[trigger] ((byte >> i) & 1u8) == (if i < m && (i as int) < count
                && signs[start + i] {
                1u8
            } else {
                0u8
            }),
        decreases 8 - m,
    {
        if (m as usize) < count {
            let c: u8 = if signs[start + m as usize] { 1 } else { 0 };
            let ghost old_byte = byte;
            byte = byte | (c << m);
            proof {
                assert forall|i: u8| i < 8 implies #[trigger] ((byte >> i) & 1u8) == (if i < m + 1
                    && (i as int) < count && signs[start + i] {
                    1u8
                } else {
                    0u8
                }) by {
                    lemma_set_bit(old_byte, c, m, i);
                }
            }
        }
        m = m + 1;
    }
    byte
}

/// Packs `n` rows of `d` sign bits (row-major in `signs`), 8 per byte.
pub fn pack_signs(signs: &[bool], n: usize, d: usize) -> (packed: Vec<u8>)
    requires
        signs.len() == n * d,
        n * index_sign_width(d as int) <= usize::MAX,
    ensures
        is_sign_packing(packed@, signs@, n as int, d as int),
{
    let w: usize = d / 8 + if d % 8 != 0 { 1 } else { 0 };
    assert(w == index_sign_width(d as int));
    let mut packed: Vec<u8> = Vec::new();
    let mut row: usize = 0;
    while row < n
        invariant
            row <= n,
            w == index_sign_width(d as int),
            signs.len() == n * d,
            n * w <= usize::MAX,
            packed.len() == row * w,
            forall|r: int, b: int|
                0 <= r < row && 0 <= b < w ==> #[trigger] sign_byte_holds(
                    packed[r * w + b],
                    signs@,
                    d as int,
                    r,
                    b,
                ),
        decreases n - row,
    {
        proof {
            assert(row * d + d <= n * d) by (nonlinear_arith) requires row < n;
            assert(row * w + w <= n * w) by (nonlinear_arith) requires row < n;
        }
        let base = row * d;
        let mut b: usize = 0;
        while b < w
            invariant
                row < n,
                b <= w,
                w == index_sign_width(d as int),
                signs.len() == n * d,
                base == row * d,
                base + d <= signs.len(),
                row * w + w <= n * w,
                n * w <= usize::MAX,
                packed.len() == row * w + b,
                forall|r: int, bb: int|
                    0 <= r < row && 0 <= bb < w ==> #[trigger] sign_byte_holds(
                        packed[r * w + bb],
                        signs@,
                        d as int,
                        r,
                        bb,
                    ),
                forall|bb: int|
                    0 <= bb < b ==> #[trigger] sign_byte_holds(
                        packed[row * w + bb],
                        signs@,
                        d as int,
                        row as int,
                        bb,
                    ),
            decreases w - b,
        {
            let first = 8 * b;
            let count: usize = if d - first < 8 { d - first } else { 8 };
            let byte = pack_sign_byte(signs, base + first, count);
            proof {
                assert forall|m: u8| m < 8 implies #[trigger] ((byte >> m) & 1u8) == sign_at(
                    signs@,
                    d as int,
                    row as int,
                    8 * b + m,
                ) by {
                    if (m as int) < count {
                        assert(base + first + m == row * d + (8 * b + m));
                    }
                }
            }
            let ghost before = packed@;
            packed.push(byte);
            proof {
                assert forall|r: int, bb: int|
                    0 <= r < row && 0 <= bb < w implies #[trigger] sign_byte_holds(
                    packed[r * w + bb],
                    signs@,
                    d as int,
                    r,
                    bb,
                ) by {
                    assert(r * w + bb < row * w) by (nonlinear_arith) requires r < row, bb < w, r >= 0, bb >= 0;
                    assert(packed[r * w + bb] == before[r * w + bb]);
                }
                assert forall|bb: int|
                    0 <= bb < b + 1 implies #[trigger] sign_byte_holds(
                    packed[row * w + bb],
                    signs@,
                    d as int,
                    row as int,
                    bb,
                ) by {
                    if bb < b {
                        assert(packed[row * w + bb] == before[row * w + bb]);
                    }
                }
            }
            b = b + 1;
        }
        row = row + 1;
        proof {
            assert(packed.len() == row * w) by (nonlinear_arith)
                requires packed.len() == (row - 1) * w + w;
        }
    }
    packed
}

/// The SQ codes of the scored coordinates of `row`, read as the search reads them.
pub fn row_sq_codes(packed: &[u8], row: usize, d: usize, bits: usize) -> (codes: Vec<u8>)
    requires
        (row + 1) * search_sq_width(d as int, bits as int) <= packed.len(),
    ensures
        codes.len() == scored_coords(d as int),
        forall|c: int|
            0 <= c < codes.len() ==> #[trigger] codes[c] == search_sq_code(
                packed@,
                row as int,
                c,
                d as int,
                bits as int,
            ),
{
    let w: usize = if bits == 1 { d / 8 } else { d / 2 };
    proof {
        assert(row * w + w <= packed.len()) by (nonlinear_arith)
            requires (row + 1) * w <= packed.len();
    }
    let base = row * w;
    let total = 8 * (d / 8);
    let mut codes: Vec<u8> = Vec::new();
    let mut c: usize = 0;
    while c < total
        invariant
            c <= total,
            total == scored_coords(d as int),
            w == search_sq_width(d as int, bits as int),
            base == row * w,
            base + w <= packed.len(),
            codes.len() == c,
            forall|i: int|
                0 <= i < c ==> #[trigger] codes[i] == search_sq_code(
                    packed@,
                    row as int,
                    i,
                    d as int,
                    bits as int,
                ),
        decreases total - c,
    {
        let code = if bits == 1 {
            (packed[base + c / 8] >> ((c % 8) as u8)) & 1u8
        } else {
            (packed[base + c / 2] >> ((3 * (c % 2)) as u8)) & 7u8
        };
        codes.push(code);
        c = c + 1;
    }
    codes
}

/// The sign bits of the scored coordinates of `row`, read as the search reads them.
pub fn row_signs(packed: &[u8], row: usize, d: usize) -> (signs: Vec<bool>)
    requires
        (row + 1) * search_sign_width(d as int) <= packed.len(),
    ensures
        signs.len() == scored_coords(d as int),
        forall|c: int|
            0 <= c < signs.len() ==> #[trigger] signs[c] == search_sign(packed@, row as int, c, d as int),
{
    let w: usize = d / 8;
    proof {
        assert(row * w + w <= packed.len()) by (nonlinear_arith)
            requires (row + 1) * w <= packed.len();
    }
    let base = row * w;
    let total = 8 * (d / 8);
    let mut signs: Vec<bool> = Vec::new();
    let mut c: usize = 0;
    while c < total
        invariant
            c <= total,
            total == scored_coords(d as int),
            w == search_sign_width(d as int),
            base == row * w,
            base + w <= packed.len(),
            signs.len() == c,
            forall|i: int|
                0 <= i < c ==> #[trigger] signs[i] == search_sign(packed@, row as int, i, d as int),
        decreases total - c,
    {
        let bit = (packed[base + c / 8] >> ((c % 8) as u8)) & 1u8;
        signs.push(bit == 1u8);
        c = c + 1;
    }
    signs
}

/// What the index packs, the search reads back: for a dimension that is a
/// multiple of 8, the code the search decodes for any coordinate of any row
/// is the code that was packed there.
pub proof fn lemma_search_reads_packed_codes(
    packed: Seq<u8>,
    codes: Seq<u8>,
    n: int,
    d: int,
    bits: int,
    row: int,
    c: int,
)
    requires
        bits == 1 || bits == 3,
        d % 8 == 0,
        is_sq_packing(packed, codes, n, d, bits),
        0 <= row < n,
        0 <= c < d,
    ensures
        search_sq_code(packed, row, c, d, bits) == codes[row * d + c],
{
    let w = index_sq_width(d, bits);
    assert(w == search_sq_width(d, bits));
    if bits == 1 {
        let b = c / 8;
        assert(sq_byte_holds(packed[row * w + b], codes, d, row, b, bits));
        let m = (c % 8) as u8;
        assert(8 * b + m == c);
        assert(((packed[row * w + b] >> m) & 1u8) == code_at(codes, d, row, 8 * b + m));
    } else {
        let b = c / 2;
        assert(sq_byte_holds(packed[row * w + b], codes, d, row, b, bits));
        let byte = packed[row * w + b];
        if c % 2 == 0 {
            assert(byte >> 0u8 == byte) by (bit_vector);
            assert(2 * b == c);
        } else {
            assert(2 * b + 1 == c);
        }
    }
}

/// What the index packs, the search reads back, for sign bits: for a
/// dimension that is a multiple of 8, the sign the search decodes for any
/// coordinate of any row is the one that was packed there.
pub proof fn lemma_search_reads_packed_signs(
    packed: Seq<u8>,
    signs: Seq<bool>,
    n: int,
    d: int,
    row: int,
    c: int,
)
    requires
        d % 8 == 0,
        is_sign_packing(packed, signs, n, d),
        0 <= row < n,
        0 <= c < d,
    ensures
        search_sign(packed, row, c, d) == signs[row * d + c],
{
    let w = index_sign_width(d);
    assert(w == search_sign_width(d));
    let b = c / 8;
    assert(sign_byte_holds(packed[row * w + b], signs, d, row, b));
    let m = (c % 8) as u8;
    assert(8 * b + m == c);
    assert(((packed[row * w + b] >> m) & 1u8) == sign_at(signs, d, row, 8 * b + m));
}

} // verus!
