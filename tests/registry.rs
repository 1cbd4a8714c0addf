use wasm_frame::registry::{
    engine_create_series_f64, engine_create_series_i32, engine_flush, engine_free_series,
    engine_free_series_i32, engine_memory_usage, engine_series_count, EngineState, INVALID_HANDLE,
};
use wasm_frame::series::{
    engine_series_count_f64, engine_series_len_f64, engine_series_len_i32, engine_series_max_f64,
    engine_series_min_f64, engine_series_to_vec_f64, engine_series_to_vec_i32,
};

fn bits(xs: &[f64]) -> Vec<u64> {
    xs.iter().map(|x| x.to_bits()).collect()
}

#[test]
fn handle_round_trip() {
    let mut eng = EngineState::new();
    let data = bits(&[1.5, f64::NAN, -2.0]);
    let id = engine_create_series_f64(&mut eng, &data);
    assert_eq!(engine_series_to_vec_f64(&eng, id), data);
    assert_eq!(engine_series_len_f64(&eng, id), 3);
    engine_free_series(&mut eng, id);
    assert_eq!(engine_series_len_f64(&eng, id), 0);
    assert!(engine_series_to_vec_f64(&eng, id).is_empty());
    assert_eq!(engine_series_count_f64(&eng, id), 0);
    assert!(f64::from_bits(engine_series_min_f64(&eng, id)).is_nan());
    assert!(f64::from_bits(engine_series_max_f64(&eng, id)).is_nan());
}

#[test]
fn handle_round_trip_i32() {
    let mut eng = EngineState::new();
    let id = engine_create_series_i32(&mut eng, &[7, -3, i32::MIN]);
    assert_eq!(engine_series_to_vec_i32(&eng, id), vec![7, -3, i32::MIN]);
    assert_eq!(engine_series_len_i32(&eng, id), 3);
    engine_free_series_i32(&mut eng, id);
    assert_eq!(engine_series_len_i32(&eng, id), 0);
    assert!(engine_series_to_vec_i32(&eng, id).is_empty());
}

#[test]
fn flush_clears_state() {
    let mut eng = EngineState::new();
    engine_create_series_f64(&mut eng, &bits(&[1.0, 2.0]));
    engine_create_series_i32(&mut eng, &[1, 2, 3]);
    assert_eq!(engine_series_count(&eng), 2);
    engine_flush(&mut eng);
    assert_eq!(engine_series_count(&eng), 0);
    assert_eq!(engine_memory_usage(&eng), 0);
    assert_eq!(engine_create_series_f64(&mut eng, &bits(&[4.0])), 0);
}

#[test]
fn handles_are_shared_across_tables() {
    let mut eng = EngineState::new();
    assert_eq!(engine_create_series_f64(&mut eng, &bits(&[1.0])), 0);
    assert_eq!(engine_create_series_i32(&mut eng, &[1]), 1);
    assert_eq!(engine_create_series_f64(&mut eng, &bits(&[2.0])), 2);
    assert_eq!(engine_series_len_i32(&eng, 0), 0);
    assert_eq!(engine_series_len_f64(&eng, 1), 0);
}

#[test]
fn zero_length_allocation_is_valid() {
    let mut eng = EngineState::new();
    let id = engine_create_series_f64(&mut eng, &[]);
    assert_ne!(id, INVALID_HANDLE);
    assert_eq!(engine_series_count(&eng), 1);
    assert_eq!(engine_series_len_f64(&eng, id), 0);
    assert_eq!(engine_memory_usage(&eng), 0);
}

#[test]
fn memory_usage_counts_element_sizes() {
    let mut eng = EngineState::new();
    let a = engine_create_series_f64(&mut eng, &bits(&[1.0, 2.0, 3.0]));
    engine_create_series_i32(&mut eng, &[1, 2]);
    assert_eq!(engine_memory_usage(&eng), 3 * 8 + 2 * 4);
    engine_free_series(&mut eng, a);
    assert_eq!(engine_memory_usage(&eng), 8);
}

#[test]
fn free_of_absent_handle_is_noop() {
    let mut eng = EngineState::new();
    let a = engine_create_series_f64(&mut eng, &bits(&[1.0]));
    engine_free_series(&mut eng, 99);
    engine_free_series_i32(&mut eng, a);
    assert_eq!(engine_series_count(&eng), 1);
    engine_free_series(&mut eng, a);
    engine_free_series(&mut eng, a);
    assert_eq!(engine_series_count(&eng), 0);
}

#[test]
fn series_scalars_skip_nan() {
    let mut eng = EngineState::new();
    let id = engine_create_series_f64(&mut eng, &bits(&[3.0, f64::NAN, -1.0, 8.0]));
    assert_eq!(engine_series_count_f64(&eng, id), 3);
    assert_eq!(f64::from_bits(engine_series_min_f64(&eng, id)), -1.0);
    assert_eq!(f64::from_bits(engine_series_max_f64(&eng, id)), 8.0);
    let all_nan = engine_create_series_f64(&mut eng, &bits(&[f64::NAN, f64::NAN]));
    assert_eq!(engine_series_count_f64(&eng, all_nan), 0);
    assert!(f64::from_bits(engine_series_min_f64(&eng, all_nan)).is_nan());
}

#[test]
fn buffers_copy_their_input() {
    let mut eng = EngineState::new();
    let data = bits(&[1.0, 2.0]);
    let buf = eng.alloc_f64_buffer(&data);
    assert_eq!(buf, data);
    eng.free_f64_buffer(buf);
    let ibuf = eng.alloc_i32_buffer(&[5, 6]);
    assert_eq!(ibuf, vec![5, 6]);
    eng.free_i32_buffer(ibuf);
    assert_eq!(engine_series_count(&eng), 0);
}
