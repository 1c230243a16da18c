use turboquant::score::{is_nan, key_bits, rank_key, score_key};

fn samples() -> Vec<f32> {
    vec![
        f32::NEG_INFINITY, f32::MIN, -1.0e30, -3.5, -1.0, -1.0e-30, -f32::MIN_POSITIVE, -0.0, 0.0,
        f32::MIN_POSITIVE, 1.0e-30, 0.5, 1.0, 2.0, 1.0e30, f32::MAX, f32::INFINITY,
    ]
}

#[test]
fn score_key_round_trips() {
    for v in samples() {
        assert_eq!(key_bits(score_key(v.to_bits())), v.to_bits());
    }
    for k in [0u32, 1, 0x7fff_ffff, 0x8000_0000, 0xffff_ffff, 12345678] {
        assert_eq!(score_key(key_bits(k)), k);
    }
}

#[test]
fn score_key_known_values() {
    assert_eq!(score_key(1.0f32.to_bits()), 0x3f80_0000 | 0x8000_0000);
    assert_eq!(score_key((-1.0f32).to_bits()), !0xbf80_0000u32);
    assert_eq!(score_key(0.0f32.to_bits()), 0x8000_0000);
    assert_eq!(score_key((-0.0f32).to_bits()), 0x7fff_ffff);
}

#[test]
fn keys_follow_float_order() {
    let s = samples();
    for &a in &s {
        for &b in &s {
            let (ka, kb) = (rank_key(a.to_bits()), rank_key(b.to_bits()));
            assert_eq!(a < b, ka < kb, "{} {}", a, b);
            assert_eq!(a == b, ka == kb, "{} {}", a, b);
            if !(a == 0.0 && b == 0.0) {
                assert_eq!(a < b, score_key(a.to_bits()) < score_key(b.to_bits()));
            }
        }
    }
}

#[test]
fn zeros_rank_equal() {
    assert_eq!(rank_key((-0.0f32).to_bits()), rank_key(0.0f32.to_bits()));
    assert!(score_key((-0.0f32).to_bits()) < score_key(0.0f32.to_bits()));
}

#[test]
fn nan_detection() {
    assert!(is_nan(f32::NAN.to_bits()));
    assert!(is_nan((-f32::NAN).to_bits()));
    assert!(!is_nan(f32::INFINITY.to_bits()));
    assert!(!is_nan(1.0f32.to_bits()));
}
