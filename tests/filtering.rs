use wasm_frame::filtering::{engine_filter_f64, filter_f64};
use wasm_frame::registry::{engine_create_series_f64, EngineState, INVALID_HANDLE};
use wasm_frame::series::engine_series_to_vec_f64;

fn bits(xs: &[f64]) -> Vec<u64> {
    xs.iter().map(|x| x.to_bits()).collect()
}

#[test]
fn filter_keeps_masked_elements_in_order() {
    let mut eng = EngineState::new();
    let id = engine_create_series_f64(&mut eng, &bits(&[1.0, 2.0, 3.0, 4.0]));
    let out = engine_filter_f64(&mut eng, id, &[1, 0, 1, 0]);
    assert_ne!(out, INVALID_HANDLE);
    assert_eq!(engine_series_to_vec_f64(&eng, out), bits(&[1.0, 3.0]));
}

#[test]
fn filter_treats_any_nonzero_byte_as_true() {
    let mut eng = EngineState::new();
    let id = engine_create_series_f64(&mut eng, &bits(&[1.0, 2.0, 3.0]));
    let out = engine_filter_f64(&mut eng, id, &[0, 7, 255]);
    assert_eq!(engine_series_to_vec_f64(&eng, out), bits(&[2.0, 3.0]));
}

#[test]
fn filter_mismatched_mask_gives_sentinel() {
    let mut eng = EngineState::new();
    let id = engine_create_series_f64(&mut eng, &bits(&[1.0, 2.0, 3.0, 4.0]));
    assert_eq!(engine_filter_f64(&mut eng, id, &[1, 0, 1]), INVALID_HANDLE);
}

#[test]
fn filter_empty_series_gives_sentinel() {
    let mut eng = EngineState::new();
    let id = engine_create_series_f64(&mut eng, &[]);
    assert_eq!(engine_filter_f64(&mut eng, id, &[]), INVALID_HANDLE);
}

#[test]
fn filter_absent_series_gives_sentinel() {
    let mut eng = EngineState::new();
    assert_eq!(engine_filter_f64(&mut eng, 3, &[1]), INVALID_HANDLE);
}

#[test]
fn filter_direct() {
    let data = bits(&[1.0, f64::NAN, 3.0, 4.0]);
    assert_eq!(filter_f64(&data, &[0, 1, 1, 0]), vec![data[1], data[2]]);
    assert!(filter_f64(&data, &[1, 1]).is_empty());
}
