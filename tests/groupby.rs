use wasm_frame::groupby::{
    engine_groupby_count_f64, engine_groupby_max_f64, engine_groupby_mean_f64,
    engine_groupby_min_f64, engine_groupby_multi_f64, engine_groupby_std_f64,
    engine_groupby_sum_f64, engine_groupby_var_f64, groupby_aggregate, groupby_multi,
    parse_group_keys, Agg,
};
use wasm_frame::registry::{engine_create_series_f64, EngineState, INVALID_HANDLE};
use wasm_frame::series::engine_series_to_vec_f64;

fn bits(xs: &[f64]) -> Vec<u64> {
    xs.iter().map(|x| x.to_bits()).collect()
}

fn reduce(agg: Agg, g: &Vec<u64>) -> u64 {
    let xs: Vec<f64> = g.iter().map(|b| f64::from_bits(*b)).collect();
    let n = xs.len() as f64;
    let sum: f64 = xs.iter().sum();
    let mean = sum / n;
    let var = xs.iter().map(|x| (x - mean) * (x - mean)).sum::<f64>() / (n - 1.0);
    match agg {
        Agg::Sum => sum.to_bits(),
        Agg::Mean => mean.to_bits(),
        Agg::Std => var.sqrt().to_bits(),
        Agg::Var => var.to_bits(),
        _ => f64::NAN.to_bits(),
    }
}

fn read(eng: &EngineState, id: u32) -> Vec<f64> {
    engine_series_to_vec_f64(eng, id).into_iter().map(f64::from_bits).collect()
}

fn run(eng: &mut EngineState, f: impl FnOnce(&mut EngineState) -> u32) -> Vec<f64> {
    let id = f(eng);
    read(eng, id)
}

fn setup() -> (EngineState, u32) {
    let mut eng = EngineState::new();
    let id = engine_create_series_f64(&mut eng, &bits(&[10.0, 20.0, 30.0, 40.0]));
    (eng, id)
}

const KEYS: &str = r#"["b","a","b","a"]"#;

#[test]
fn groupby_sum_orders_keys() {
    let (mut eng, id) = setup();
    let out = engine_groupby_sum_f64(&mut eng, id, KEYS, reduce);
    assert_eq!(read(&eng, out), vec![60.0, 40.0]);
}

#[test]
fn groupby_mean_and_count() {
    let (mut eng, id) = setup();
    let mean = engine_groupby_mean_f64(&mut eng, id, KEYS, reduce);
    assert_eq!(read(&eng, mean), vec![30.0, 20.0]);
    let count = engine_groupby_count_f64(&mut eng, id, KEYS);
    assert_eq!(read(&eng, count), vec![2.0, 2.0]);
}

#[test]
fn groupby_std_and_var() {
    let mut eng = EngineState::new();
    let id = engine_create_series_f64(&mut eng, &bits(&[10.0, 20.0, 30.0, 40.0]));
    let keys = r#"["x","x","y","x"]"#;
    let std = run(&mut eng, |e| engine_groupby_std_f64(e, id, keys, reduce));
    let var = run(&mut eng, |e| engine_groupby_var_f64(e, id, keys, reduce));
    assert!((var[0] - 700.0 / 3.0).abs() < 1e-9);
    assert!((std[0] - (700.0f64 / 3.0).sqrt()).abs() < 1e-9);
    assert!(std[1].is_nan() && var[1].is_nan());
}

#[test]
fn groupby_min_and_max() {
    let (mut eng, id) = setup();
    assert_eq!(run(&mut eng, |e| engine_groupby_min_f64(e, id, KEYS)), vec![20.0, 10.0]);
    assert_eq!(run(&mut eng, |e| engine_groupby_max_f64(e, id, KEYS)), vec![40.0, 30.0]);
}

#[test]
fn groupby_all_null_key_policies() {
    let mut eng = EngineState::new();
    let id = engine_create_series_f64(&mut eng, &bits(&[1.0, f64::NAN, 2.0]));
    let keys = r#"["k","n","k"]"#;
    assert_eq!(run(&mut eng, |e| engine_groupby_sum_f64(e, id, keys, reduce)), vec![3.0, 0.0]);
    assert_eq!(run(&mut eng, |e| engine_groupby_count_f64(e, id, keys)), vec![2.0, 0.0]);
    assert_eq!(run(&mut eng, |e| engine_groupby_mean_f64(e, id, keys, reduce)), vec![1.5]);
    assert_eq!(run(&mut eng, |e| engine_groupby_min_f64(e, id, keys)), vec![1.0]);
}

#[test]
fn groupby_length_mismatch_gives_sentinel() {
    let (mut eng, id) = setup();
    assert_eq!(engine_groupby_sum_f64(&mut eng, id, r#"["a"]"#, reduce), INVALID_HANDLE);
    assert_eq!(engine_groupby_count_f64(&mut eng, 99, KEYS), INVALID_HANDLE);
}

#[test]
fn groupby_malformed_keys_give_sentinel() {
    let (mut eng, id) = setup();
    assert_eq!(engine_groupby_count_f64(&mut eng, id, "not json"), INVALID_HANDLE);
    assert_eq!(engine_groupby_sum_f64(&mut eng, id, "[1,2,3,4]", reduce), INVALID_HANDLE);
    assert!(engine_groupby_multi_f64(&mut eng, id, "{", 127, reduce).is_empty());
}

#[test]
fn parse_group_keys_reads_string_arrays() {
    assert_eq!(parse_group_keys(r#"["b","a"]"#), vec!["b".to_string(), "a".to_string()]);
    assert!(parse_group_keys("[1]").is_empty());
    assert!(parse_group_keys("").is_empty());
}

#[test]
fn groupby_multi_matches_single() {
    let (mut eng, id) = setup();
    let ids = engine_groupby_multi_f64(&mut eng, id, KEYS, 127, reduce);
    assert_eq!(ids.len(), 7);
    assert_eq!(ids[0] + 1, ids[1]);
    let single = [
        engine_groupby_sum_f64(&mut eng, id, KEYS, reduce),
        engine_groupby_mean_f64(&mut eng, id, KEYS, reduce),
        engine_groupby_count_f64(&mut eng, id, KEYS),
        engine_groupby_min_f64(&mut eng, id, KEYS),
        engine_groupby_max_f64(&mut eng, id, KEYS),
        engine_groupby_std_f64(&mut eng, id, KEYS, reduce),
        engine_groupby_var_f64(&mut eng, id, KEYS, reduce),
    ];
    for k in 0..7 {
        assert_eq!(engine_series_to_vec_f64(&eng, ids[k]), engine_series_to_vec_f64(&eng, single[k]));
    }
}

#[test]
fn groupby_multi_selects_by_mask_in_bit_order() {
    let (mut eng, id) = setup();
    let keys: Vec<String> = vec!["b".into(), "a".into(), "b".into(), "a".into()];
    let ids = groupby_multi(&mut eng, id, &keys, 4 | 16, reduce);
    assert_eq!(ids.len(), 2);
    assert_eq!(read(&eng, ids[0]), vec![2.0, 2.0]);
    assert_eq!(read(&eng, ids[1]), vec![40.0, 30.0]);
    assert!(groupby_multi(&mut eng, id, &keys, 0, reduce).is_empty());
    let one = groupby_aggregate(&mut eng, id, &keys, Agg::Sum, reduce);
    assert_eq!(read(&eng, one), vec![60.0, 40.0]);
}

#[test]
fn groupby_orders_keys_by_bytes() {
    let mut eng = EngineState::new();
    let id = engine_create_series_f64(&mut eng, &bits(&[1.0, 2.0, 3.0, 4.0]));
    let keys = r#"["b","B","ab","a"]"#;
    assert_eq!(run(&mut eng, |e| engine_groupby_count_f64(e, id, keys)), vec![1.0; 4]);
    assert_eq!(run(&mut eng, |e| engine_groupby_max_f64(e, id, keys)), vec![2.0, 4.0, 3.0, 1.0]);
}

#[test]
fn groupby_multi_keeps_keys_without_values_for_sum_and_count() {
    let mut eng = EngineState::new();
    let id = engine_create_series_f64(&mut eng, &bits(&[1.0, f64::NAN]));
    let keys = r#"["a","b"]"#;
    let ids = engine_groupby_multi_f64(&mut eng, id, keys, 1 | 2 | 4 | 8, reduce);
    assert_eq!(read(&eng, ids[0]), vec![1.0, 0.0]);
    assert_eq!(read(&eng, ids[1]), vec![1.0]);
    assert_eq!(read(&eng, ids[2]), vec![1.0, 0.0]);
    assert_eq!(read(&eng, ids[3]), vec![1.0]);
    assert_eq!(run(&mut eng, |e| engine_groupby_count_f64(e, id, keys)), vec![1.0, 0.0]);
    assert_eq!(run(&mut eng, |e| engine_groupby_sum_f64(e, id, keys, reduce)), vec![1.0, 0.0]);
}

#[test]
fn groupby_multi_count_of_single_null_row() {
    let mut eng = EngineState::new();
    let id = engine_create_series_f64(&mut eng, &bits(&[f64::NAN]));
    let ids = engine_groupby_multi_f64(&mut eng, id, r#"["k"]"#, 4, reduce);
    assert_eq!(read(&eng, ids[0]), vec![0.0]);
}
