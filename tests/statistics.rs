use wasm_frame::float_bits::count_to_f64_bits;
use wasm_frame::statistics::{count_non_null_f64, max_f64, min_f64};

fn bits(xs: &[f64]) -> Vec<u64> {
    xs.iter().map(|x| x.to_bits()).collect()
}

#[test]
fn count_skips_nan() {
    assert_eq!(count_non_null_f64(&bits(&[1.0, f64::NAN, 3.0])), 2);
    assert_eq!(count_non_null_f64(&[]), 0);
}

#[test]
fn min_and_max_skip_nan() {
    let data = bits(&[f64::NAN, 2.5, -7.0, 9.25, f64::NAN]);
    assert_eq!(f64::from_bits(min_f64(&data)), -7.0);
    assert_eq!(f64::from_bits(max_f64(&data)), 9.25);
}

#[test]
fn min_and_max_of_all_null_are_nan() {
    assert!(f64::from_bits(min_f64(&bits(&[f64::NAN]))).is_nan());
    assert!(f64::from_bits(max_f64(&[])).is_nan());
}

#[test]
fn min_handles_infinities() {
    let data = bits(&[f64::INFINITY, f64::NEG_INFINITY]);
    assert_eq!(f64::from_bits(min_f64(&data)), f64::NEG_INFINITY);
    assert_eq!(f64::from_bits(max_f64(&data)), f64::INFINITY);
}

#[test]
fn counts_convert_to_exact_doubles() {
    for n in [0u64, 1, 2, 3, 5, 1000, (1u64 << 53) - 1] {
        assert_eq!(count_to_f64_bits(n), (n as f64).to_bits());
    }
    assert_eq!(f64::from_bits(count_to_f64_bits(1u64 << 60)), (1u64 << 60) as f64);
}
