use turboquant::quantize::{check_quantize_params, ge_bits, gt_bits, quant_bin, tq_quantize_rotated, QuantizeError};

fn b(v: &[f32]) -> Vec<u32> {
    v.iter().map(|x| x.to_bits()).collect()
}

#[test]
fn float_comparisons() {
    assert!(ge_bits(1.0f32.to_bits(), 1.0f32.to_bits()));
    assert!(ge_bits(0.0f32.to_bits(), (-0.0f32).to_bits()));
    assert!(!gt_bits(0.0f32.to_bits(), (-0.0f32).to_bits()));
    assert!(gt_bits(2.0f32.to_bits(), 1.5f32.to_bits()));
    assert!(!ge_bits(f32::NAN.to_bits(), 1.0f32.to_bits()));
    assert!(!gt_bits(1.0f32.to_bits(), f32::NAN.to_bits()));
}

#[test]
fn quant_bin_finds_buckets() {
    let bounds = b(&[f32::NEG_INFINITY, -1.0, 0.0, 1.0, f32::INFINITY]);
    assert_eq!(quant_bin((-5.0f32).to_bits(), &bounds), 0);
    assert_eq!(quant_bin((-1.0f32).to_bits(), &bounds), 1);
    assert_eq!(quant_bin((-0.5f32).to_bits(), &bounds), 1);
    assert_eq!(quant_bin(0.0f32.to_bits(), &bounds), 2);
    assert_eq!(quant_bin(0.99f32.to_bits(), &bounds), 2);
    assert_eq!(quant_bin(1.0f32.to_bits(), &bounds), 3);
    assert_eq!(quant_bin(f32::INFINITY.to_bits(), &bounds), 3);
    assert_eq!(quant_bin(f32::NAN.to_bits(), &bounds), 0);
}

#[test]
fn unsupported_bits_are_refused() {
    assert_eq!(check_quantize_params(2, 4), Err(QuantizeError::UnsupportedBits(2)));
    let r = tq_quantize_rotated(&[], 0, 4, &b(&[0.0; 4]), &b(&[0.0; 3]), 2);
    assert_eq!(r.err(), Some(QuantizeError::UnsupportedBits(2)));
}

#[test]
fn wrong_codebook_size_is_refused() {
    assert_eq!(check_quantize_params(3, 4), Err(QuantizeError::CentroidCount { expected: 8, bits: 3, got: 4 }));
    let r = tq_quantize_rotated(&[], 0, 4, &b(&[0.0; 3]), &b(&[0.0; 2]), 1);
    assert_eq!(r.err(), Some(QuantizeError::CentroidCount { expected: 2, bits: 1, got: 3 }));
    assert_eq!(check_quantize_params(1, 2), Ok(2));
}

#[test]
fn quantize_two_rows_one_bit() {
    let cent = [-0.5f32, 0.5];
    let mid = [0.0f32];
    // two rows of 8 values
    let x: Vec<f32> = vec![-0.7, -0.2, 0.1, 0.9, -0.5, 0.5, 0.0, -0.0, 1.0, 1.0, 1.0, 1.0, -1.0, -1.0, -1.0, -1.0];
    let q = tq_quantize_rotated(&b(&x), 2, 8, &b(&cent), &b(&mid), 1).unwrap();
    assert_eq!(q.codes, vec![0, 0, 1, 1, 0, 1, 1, 1, 1, 1, 1, 1, 0, 0, 0, 0]);
    // above the centroid: -0.2 > -0.5, 0.9 > 0.5, 1.0 > 0.5
    assert_eq!(q.signs, vec![false, true, false, true, false, false, false, false, true, true, true, true, false, false, false, false]);
    assert_eq!(q.sq_codes, vec![0b1110_1100, 0b0000_1111]);
    assert_eq!(q.qjl_signs, vec![0b0000_1010, 0b0000_1111]);
}

#[test]
fn quantize_three_bit_codebook() {
    let cent: Vec<f32> = (0..8).map(|i| i as f32).collect();
    let mid: Vec<f32> = (0..7).map(|i| i as f32 + 0.5).collect();
    let x = vec![0.2f32, 7.9, 3.5, 3.49];
    let q = tq_quantize_rotated(&b(&x), 1, 4, &b(&cent), &b(&mid), 3).unwrap();
    assert_eq!(q.codes, vec![0, 7, 4, 3]);
    assert_eq!(q.signs, vec![true, true, false, true]);
    assert_eq!(q.sq_codes, vec![0 | (7 << 3), 4 | (3 << 3)]);
}

#[test]
fn refused_parameters_never_read_the_values() {
    // more rows than values: refused parameters are reported before any value is read
    let r = tq_quantize_rotated(&[], 5, 4, &b(&[0.0; 4]), &[], 2);
    assert!(matches!(r, Err(QuantizeError::UnsupportedBits(2))));
    let r = tq_quantize_rotated(&[], 5, 4, &b(&[0.0; 4]), &[], 3);
    assert!(matches!(r, Err(QuantizeError::CentroidCount { expected: 8, bits: 3, got: 4 })));
}
