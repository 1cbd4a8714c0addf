//! Boolean-mask filtering, on a registered series or directly on an array.
use vstd::prelude::*;
use crate::registry::{next_handle, EngineState, INVALID_HANDLE};

verus! {

/// The elements of `data` whose mask byte is nonzero, in order.
pub open spec fn masked(data: Seq<u64>, mask: Seq<u8>) -> Seq<u64>
    decreases data.len(),
{
    if data.len() == 0 || mask.len() < data.len() {
        Seq::empty()
    } else {
        let kept = masked(data.drop_last(), mask.take(data.len() - 1));
        if mask[data.len() - 1] != 0 {
            kept.push(data.last())
        } else {
            kept
        }
    }
}

fn select_masked(data: &[u64], mask: &[u8]) -> (r: Vec<u64>)
    requires
        data@.len() == mask@.len(),
    ensures
        r@ == masked(data@, mask@),
{
    let mut out: Vec<u64> = Vec::new();
    let mut i: usize = 0;
    while i < data.len()
        invariant
            i <= data@.len(),
            data@.len() == mask@.len(),
            out@ == masked(data@.take(i as int), mask@.take(i as int)),
        decreases data.len() - i,
    {
        assert(data@.take(i as int + 1).drop_last() == data@.take(i as int));
        assert(mask@.take(i as int + 1).take(i as int) == mask@.take(i as int));
        if mask[i] != 0 {
            out.push(data[i]);
        }
        i = i + 1;
    }
    assert(data@.take(i as int) == data@);
    assert(mask@.take(i as int) == mask@);
    out
}

/// The elements of `data` whose mask byte is nonzero, in order; empty when
/// the lengths differ.
pub fn filter_f64(data: &[u64], mask: &[u8]) -> (r: Vec<u64>)
    ensures
        r@ == (if data@.len() == mask@.len() {
            masked(data@, mask@)
        } else {
            Seq::empty()
        }),
{
    if data.len() != mask.len() {
        return Vec::new();
    }
    select_masked(data, mask)
}

/// Registers the elements of float64 series `series_id` whose mask byte is
/// nonzero as a new series. Returns `INVALID_HANDLE`, changing nothing, when
/// the series is not live, is empty, or differs in length from the mask.
pub fn engine_filter_f64(eng: &mut EngineState, series_id: u32, mask: &[u8]) -> (r: u32)
    requires
        old(eng).wf(),
    ensures
        final(eng).wf(),
        ({
            let src = old(eng).f64_series();
            if !src.contains_key(series_id) || src[series_id].len() == 0 || src[series_id].len()
                != mask@.len() {
                r == INVALID_HANDLE && *final(eng) == *old(eng)
            } else {
                r == old(eng).next_id() && final(eng).next_id() == next_handle(r)
                    && final(eng).f64_series() == src.insert(r, masked(src[series_id], mask@))
                    && final(eng).i32_series() == old(eng).i32_series()
            }
        }),
{
    let out = match eng.get_f64(series_id) {
        Some(src) => {
            if src.len() == 0 || src.len() != mask.len() {
                return INVALID_HANDLE;
            }
            select_masked(src.as_slice(), mask)
        },
        None => {
            return INVALID_HANDLE;
        },
    };
    eng.register_f64(out)
}

} // verus!
