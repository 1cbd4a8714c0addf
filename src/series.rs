//! Read-only accessors over registered series.
use vstd::prelude::*;
use vstd::math::min;
use crate::float_bits::NAN_BITS;
use crate::registry::EngineState;
use crate::statistics::{count_non_null_f64, max_f64, max_of, min_f64, min_of, non_null};

verus! {

/// What float64 series `id` holds; empty when it is not live.
pub open spec fn contents_f64(eng: EngineState, id: u32) -> Seq<u64> {
    if eng.f64_series().contains_key(id) {
        eng.f64_series()[id]
    } else {
        Seq::empty()
    }
}

/// What int32 series `id` holds; empty when it is not live.
pub open spec fn contents_i32(eng: EngineState, id: u32) -> Seq<i32> {
    if eng.i32_series().contains_key(id) {
        eng.i32_series()[id]
    } else {
        Seq::empty()
    }
}

/// A series reads back as it was created, and reads as absent once freed:
/// no contents, length 0, no non-NaN value, NaN minimum and maximum.
pub proof fn lemma_handle_round_trip(
    before: EngineState,
    created: EngineState,
    id: u32,
    x: Seq<u64>,
    freed: EngineState,
)
    requires
        created.f64_series() == before.f64_series().insert(id, x),
        freed.f64_series() == created.f64_series().remove(id),
    ensures
        contents_f64(created, id) == x,
        contents_f64(freed, id) == Seq::<u64>::empty(),
        contents_f64(freed, id).len() == 0,
        non_null(contents_f64(freed, id)).len() == 0,
        min_of(contents_f64(freed, id)) == NAN_BITS,
        max_of(contents_f64(freed, id)) == NAN_BITS,
{
}

/// An int32 series reads back as it was created, and reads as absent once
/// freed.
pub proof fn lemma_handle_round_trip_i32(
    before: EngineState,
    created: EngineState,
    id: u32,
    x: Seq<i32>,
    freed: EngineState,
)
    requires
        created.i32_series() == before.i32_series().insert(id, x),
        freed.i32_series() == created.i32_series().remove(id),
    ensures
        contents_i32(created, id) == x,
        contents_i32(freed, id) == Seq::<i32>::empty(),
{
}

/// Length of float64 series `series_id`; 0 if it is not live.
pub fn engine_series_len_f64(eng: &EngineState, series_id: u32) -> (r: usize)
    requires
        eng.wf(),
    ensures
        r == contents_f64(*eng, series_id).len(),
{
    match eng.get_f64(series_id) {
        Some(v) => v.len(),
        None => 0,
    }
}

/// Length of int32 series `series_id`; 0 if it is not live.
pub fn engine_series_len_i32(eng: &EngineState, series_id: u32) -> (r: usize)
    requires
        eng.wf(),
    ensures
        r == contents_i32(*eng, series_id).len(),
{
    match eng.get_i32(series_id) {
        Some(v) => v.len(),
        None => 0,
    }
}

/// A copy of float64 series `series_id`; empty if it is not live.
pub fn engine_series_to_vec_f64(eng: &EngineState, series_id: u32) -> (r: Vec<u64>)
    requires
        eng.wf(),
    ensures
        r@ == contents_f64(*eng, series_id),
{
    match eng.get_f64(series_id) {
        Some(v) => v.clone(),
        None => Vec::new(),
    }
}

/// A copy of int32 series `series_id`; empty if it is not live.
pub fn engine_series_to_vec_i32(eng: &EngineState, series_id: u32) -> (r: Vec<i32>)
    requires
        eng.wf(),
    ensures
        r@ == contents_i32(*eng, series_id),
{
    match eng.get_i32(series_id) {
        Some(v) => v.clone(),
        None => Vec::new(),
    }
}

/// Number of non-NaN elements of float64 series `series_id` (capped at
/// `u32::MAX`); 0 if it is not live.
pub fn engine_series_count_f64(eng: &EngineState, series_id: u32) -> (r: u32)
    requires
        eng.wf(),
    ensures
        r == min(non_null(contents_f64(*eng, series_id)).len() as int, u32::MAX as int),
{
    match eng.get_f64(series_id) {
        Some(v) => {
            let n = count_non_null_f64(v.as_slice());
            if n > u32::MAX as usize {
                u32::MAX
            } else {
                n as u32
            }
        },
        None => 0,
    }
}

/// Least non-NaN element of float64 series `series_id`; NaN if there is
/// none or the series is not live.
pub fn engine_series_min_f64(eng: &EngineState, series_id: u32) -> (r: u64)
    requires
        eng.wf(),
    ensures
        r == min_of(contents_f64(*eng, series_id)),
{
    match eng.get_f64(series_id) {
        Some(v) => min_f64(v.as_slice()),
        None => NAN_BITS,
    }
}

/// Greatest non-NaN element of float64 series `series_id`; NaN if there is
/// none or the series is not live.
pub fn engine_series_max_f64(eng: &EngineState, series_id: u32) -> (r: u64)
    requires
        eng.wf(),
    ensures
        r == max_of(contents_f64(*eng, series_id)),
{
    match eng.get_f64(series_id) {
        Some(v) => max_f64(v.as_slice()),
        None => NAN_BITS,
    }
}

} // verus!
