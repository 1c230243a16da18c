use turboquant::packing::{pack_signs, pack_sq_codes, row_signs, row_sq_codes};

#[test]
fn one_bit_codes_pack_eight_per_byte() {
    // row 0: bits 1,0,1,1,0,0,0,1 -> 0b1000_1101; row 1: all ones
    let codes = vec![1u8, 0, 1, 1, 0, 0, 0, 1, 1, 1, 1, 1, 1, 1, 1, 1];
    let packed = pack_sq_codes(&codes, 2, 8, 1);
    assert_eq!(packed, vec![0b1000_1101, 0xff]);
}

#[test]
fn three_bit_codes_pack_two_per_byte() {
    let codes = vec![5u8, 3, 7, 0];
    let packed = pack_sq_codes(&codes, 1, 4, 3);
    assert_eq!(packed, vec![5 | (3 << 3), 7]);
}

#[test]
fn odd_dimension_pads_rows() {
    // d = 3, 3-bit codes: two bytes per row, the last one half used
    let codes = vec![1u8, 2, 3, 4, 5, 6];
    let packed = pack_sq_codes(&codes, 2, 3, 3);
    assert_eq!(packed, vec![1 | (2 << 3), 3, 4 | (5 << 3), 6]);
    // d = 10, 1-bit codes: two bytes per row
    let codes: Vec<u8> = (0..20).map(|i| (i % 2) as u8).collect();
    let packed = pack_sq_codes(&codes, 2, 10, 1);
    assert_eq!(packed.len(), 4);
    assert_eq!(packed[0], 0b1010_1010);
    assert_eq!(packed[1], 0b10);
}

#[test]
fn signs_pack_eight_per_byte() {
    let signs = vec![true, false, false, false, false, false, false, true, true];
    let packed = pack_signs(&signs, 1, 9);
    assert_eq!(packed, vec![0b1000_0001, 0b1]);
}

#[test]
fn search_reads_back_packed_codes() {
    let d = 16;
    let n = 3;
    for bits in [1usize, 3] {
        let max = if bits == 1 { 2 } else { 8 };
        let codes: Vec<u8> = (0..n * d).map(|i| ((i * 7 + 3) % max) as u8).collect();
        let packed = pack_sq_codes(&codes, n, d, bits);
        for row in 0..n {
            let back = row_sq_codes(&packed, row, d, bits);
            assert_eq!(back, codes[row * d..(row + 1) * d].to_vec());
        }
    }
    let signs: Vec<bool> = (0..n * d).map(|i| i % 3 == 0).collect();
    let packed = pack_signs(&signs, n, d);
    for row in 0..n {
        assert_eq!(row_signs(&packed, row, d), signs[row * d..(row + 1) * d].to_vec());
    }
}

#[test]
fn search_scores_only_whole_groups_of_eight() {
    // with d = 12 the index writes 2 bytes per row of 1-bit codes but the
    // search reads 1 byte per row and only the first 8 coordinates
    let codes: Vec<u8> = vec![1; 24];
    let packed = pack_sq_codes(&codes, 2, 12, 1);
    assert_eq!(packed.len(), 4);
    assert_eq!(row_sq_codes(&packed, 1, 12, 1).len(), 8);
    // row 1 is read from the second byte of row 0: its codes 8..12 and padding
    assert_eq!(row_sq_codes(&packed, 1, 12, 1), vec![1, 1, 1, 1, 0, 0, 0, 0]);
}
