use wasm_frame::registry::{
    engine_create_series_f64, engine_create_series_i32, EngineState, INVALID_HANDLE,
};
use wasm_frame::series::engine_series_to_vec_f64;
use wasm_frame::sorting::{
    engine_sort_indices_f64, engine_sort_indices_i32, engine_sort_two_columns_indices_f64,
    engine_sort_two_columns_indices_i32, engine_sort_values_f64, sort_single_column_f64,
    sort_single_column_i32, sort_two_columns_f64, sort_two_columns_i32,
};

fn bits(xs: &[f64]) -> Vec<u64> {
    xs.iter().map(|x| x.to_bits()).collect()
}

#[test]
fn sort_nan_last_is_stable() {
    let data = bits(&[3.0, f64::NAN, 1.0, f64::NAN, 2.0]);
    assert_eq!(sort_single_column_f64(&data, true, true), vec![2, 4, 0, 1, 3]);
}

#[test]
fn sort_nan_first_is_stable() {
    let data = bits(&[3.0, f64::NAN, 1.0, f64::NAN, 2.0]);
    assert_eq!(sort_single_column_f64(&data, true, false), vec![1, 3, 2, 4, 0]);
}

#[test]
fn sort_descending_keeps_null_placement() {
    let data = bits(&[3.0, f64::NAN, 1.0, f64::NAN, 2.0]);
    assert_eq!(sort_single_column_f64(&data, false, true), vec![0, 4, 2, 1, 3]);
    assert_eq!(sort_single_column_f64(&data, false, false), vec![1, 3, 0, 4, 2]);
}

#[test]
fn sort_values_materializes_sorted_series() {
    let mut eng = EngineState::new();
    let id = engine_create_series_f64(&mut eng, &bits(&[3.0, f64::NAN, 1.0, f64::NAN, 2.0]));
    let out = engine_sort_values_f64(&mut eng, id, 1, 1);
    let vals: Vec<f64> = engine_series_to_vec_f64(&eng, out).into_iter().map(f64::from_bits).collect();
    assert_eq!(&vals[..3], &[1.0, 2.0, 3.0]);
    assert!(vals[3].is_nan() && vals[4].is_nan());
}

#[test]
fn sort_values_of_empty_or_absent_gives_sentinel() {
    let mut eng = EngineState::new();
    let id = engine_create_series_f64(&mut eng, &[]);
    assert_eq!(engine_sort_values_f64(&mut eng, id, 1, 1), INVALID_HANDLE);
    assert_eq!(engine_sort_values_f64(&mut eng, 42, 1, 1), INVALID_HANDLE);
}

#[test]
fn sort_treats_signed_zeros_and_infinities_numerically() {
    let data = bits(&[0.0, f64::INFINITY, -0.0, f64::NEG_INFINITY, -1.5]);
    assert_eq!(sort_single_column_f64(&data, true, true), vec![3, 4, 0, 2, 1]);
}

#[test]
fn sort_i32_uses_min_as_null() {
    let data = [5, i32::MIN, -2, 5, i32::MIN];
    assert_eq!(sort_single_column_i32(&data, true, true), vec![2, 0, 3, 1, 4]);
    assert_eq!(sort_single_column_i32(&data, true, false), vec![1, 4, 2, 0, 3]);
    assert_eq!(sort_single_column_i32(&data, false, true), vec![0, 3, 2, 1, 4]);
}

#[test]
fn sort_two_columns_breaks_ties_with_second() {
    let c1 = [1, 2, 1, 2, 1];
    let c2 = [9, 8, 7, 8, 9];
    assert_eq!(sort_two_columns_i32(&c1, &c2, 1, 1, 1), vec![2, 0, 4, 1, 3]);
    assert_eq!(sort_two_columns_i32(&c1, &c2, 1, 0, 1), vec![0, 4, 2, 1, 3]);
    assert_eq!(sort_two_columns_i32(&c1, &c2, 0, 1, 1), vec![1, 3, 2, 0, 4]);
}

#[test]
fn sort_two_columns_f64_nulls() {
    let c1 = bits(&[1.0, f64::NAN, 1.0, 0.5]);
    let c2 = bits(&[f64::NAN, 2.0, 3.0, 4.0]);
    assert_eq!(sort_two_columns_f64(&c1, &c2, 1, 1, 1), vec![3, 2, 0, 1]);
    assert_eq!(sort_two_columns_f64(&c1, &c2, 1, 1, 0), vec![1, 3, 0, 2]);
}

#[test]
fn sort_two_columns_length_mismatch_is_empty() {
    assert!(sort_two_columns_i32(&[1, 2], &[1], 1, 1, 1).is_empty());
    assert!(sort_two_columns_f64(&bits(&[1.0]), &[], 1, 1, 1).is_empty());
}

#[test]
fn engine_sort_indices_variants() {
    let mut eng = EngineState::new();
    let a = engine_create_series_f64(&mut eng, &bits(&[2.0, 1.0, 2.0]));
    let b = engine_create_series_f64(&mut eng, &bits(&[1.0, 5.0, 0.0]));
    let c = engine_create_series_f64(&mut eng, &bits(&[1.0]));
    assert_eq!(engine_sort_indices_f64(&eng, a, 1, 1), vec![1, 0, 2]);
    assert_eq!(engine_sort_two_columns_indices_f64(&eng, a, b, 1, 1, 1), vec![1, 2, 0]);
    assert!(engine_sort_two_columns_indices_f64(&eng, a, c, 1, 1, 1).is_empty());
    assert!(engine_sort_indices_f64(&eng, 77, 1, 1).is_empty());
    let x = engine_create_series_i32(&mut eng, &[3, 1, 2]);
    let y = engine_create_series_i32(&mut eng, &[0, 0, 0]);
    assert_eq!(engine_sort_indices_i32(&eng, x, 0, 1), vec![0, 2, 1]);
    assert_eq!(engine_sort_two_columns_indices_i32(&eng, y, x, 1, 1, 1), vec![1, 2, 0]);
    assert!(engine_sort_indices_i32(&eng, a, 1, 1).is_empty());
}
