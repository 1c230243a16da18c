use turboquant::config::{default_n_list, ConfigReq, IndexConfig};

/// The list count computed directly in floating point: 2*sqrt(n), then the nearer power of two.
fn float_default_n_list(n: usize) -> usize {
    if n < 2 {
        return 1;
    }
    let target = 2.0 * (n as f64).sqrt();
    let log2_target = target.log2();
    let p_lower = 2usize.pow(log2_target.floor() as u32);
    let p_upper = 2usize.pow(log2_target.ceil() as u32);
    if (target - p_lower as f64).abs() < (target - p_upper as f64).abs() {
        p_lower
    } else {
        p_upper
    }
}

#[test]
fn default_n_list_readme_example() {
    // 2 * sqrt(12450) ~ 223.16, nearest power of two 256
    assert_eq!(default_n_list(12450), 256);
}

#[test]
fn default_n_list_small_inputs() {
    assert_eq!(default_n_list(0), 1);
    assert_eq!(default_n_list(1), 1);
    assert_eq!(default_n_list(2), 2);
    assert_eq!(default_n_list(3), 4);
    assert_eq!(default_n_list(4), 4);
    // 2 * sqrt(9) = 6 lies halfway between 4 and 8: the larger one wins
    assert_eq!(default_n_list(9), 8);
    assert_eq!(default_n_list(100), 16);
    assert_eq!(default_n_list(10000), 256);
    assert_eq!(default_n_list(482021), 1024);
}

#[test]
fn default_n_list_matches_float_formula() {
    for n in 0..200000usize {
        assert_eq!(default_n_list(n), float_default_n_list(n), "n = {}", n);
    }
}

#[test]
fn default_n_list_is_nearest_power_of_two() {
    for n in 2..50000usize {
        let r = default_n_list(n);
        assert!(r.is_power_of_two());
        let t = 2.0 * (n as f64).sqrt();
        let mut p = 1usize;
        while p < (1 << 20) {
            assert!((t - r as f64).abs() <= (t - p as f64).abs() + 1e-9, "n = {}, r = {}, p = {}", n, r, p);
            p *= 2;
        }
    }
}

#[test]
fn effective_n_list_caps_at_n() {
    let mut c = IndexConfig::default();
    assert_eq!(c.effective_n_list(12450), 256);
    assert_eq!(c.effective_n_list(3), 3);
    c.n_list = Some(5);
    assert_eq!(c.effective_n_list(3), 3);
    assert_eq!(c.effective_n_list(100), 5);
}

#[test]
fn training_sample_size_limits() {
    let mut c = IndexConfig::default();
    assert_eq!(c.training_sample_size(10), 10);
    assert_eq!(c.training_sample_size(60000), 50000);
    c.max_training_samples = Some(100);
    assert_eq!(c.training_sample_size(60000), 100);
    assert_eq!(c.training_sample_size(7), 7);
}

#[test]
fn sq_bits_and_levels() {
    let mut c = IndexConfig::default();
    assert_eq!(c.quantize_bits, 4);
    assert_eq!(c.sq_bits(), 3);
    assert_eq!(c.sq_levels(), 8);
    c.quantize_bits = 2;
    assert_eq!(c.sq_bits(), 1);
    assert_eq!(c.sq_levels(), 2);
}

#[test]
fn apply_keeps_training_limit_when_absent() {
    let mut c = IndexConfig::default();
    c.max_training_samples = Some(123);
    c.apply(&ConfigReq { n_list: Some(64), quantize_bits: 2, max_training_samples: None });
    assert_eq!(c.n_list, Some(64));
    assert_eq!(c.quantize_bits, 2);
    assert_eq!(c.max_training_samples, Some(123));
    c.apply(&ConfigReq { n_list: None, quantize_bits: 4, max_training_samples: Some(7) });
    assert_eq!(c.n_list, None);
    assert_eq!(c.max_training_samples, Some(7));
}
