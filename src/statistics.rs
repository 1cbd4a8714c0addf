//! Direct NaN-aware reductions over float64 arrays, without the registry.
use vstd::prelude::*;
use crate::float_bits::{is_nan, is_nan_bits, order_key, order_key_of, NAN_BITS};

verus! {

/// The non-NaN elements of `s`, in order.
pub open spec fn non_null(s: Seq<u64>) -> Seq<u64>
    decreases s.len(),
{
    if s.len() == 0 {
        Seq::empty()
    } else if is_nan(s.last()) {
        non_null(s.drop_last())
    } else {
        non_null(s.drop_last()).push(s.last())
    }
}

/// The first element of least numeric value among the non-NaN elements of
/// `s`; NaN when there is none.
pub open spec fn min_of(s: Seq<u64>) -> u64
    decreases s.len(),
{
    if s.len() == 0 {
        NAN_BITS
    } else {
        let m = min_of(s.drop_last());
        if is_nan(s.last()) {
            m
        } else if is_nan(m) || order_key(s.last()) < order_key(m) {
            s.last()
        } else {
            m
        }
    }
}

/// The first element of greatest numeric value among the non-NaN elements
/// of `s`; NaN when there is none.
pub open spec fn max_of(s: Seq<u64>) -> u64
    decreases s.len(),
{
    if s.len() == 0 {
        NAN_BITS
    } else {
        let m = max_of(s.drop_last());
        if is_nan(s.last()) {
            m
        } else if is_nan(m) || order_key(s.last()) > order_key(m) {
            s.last()
        } else {
            m
        }
    }
}

/// Number of non-NaN values.
pub fn count_non_null_f64(data: &[u64]) -> (r: usize)
    ensures
        r == non_null(data@).len(),
{
    let mut cnt: usize = 0;
    let mut i: usize = 0;
    while i < data.len()
        invariant
            i <= data@.len(),
            cnt == non_null(data@.take(i as int)).len(),
            cnt <= i,
        decreases data.len() - i,
    {
        assert(data@.take(i as int + 1).drop_last() == data@.take(i as int));
        if !is_nan_bits(data[i]) {
            cnt = cnt + 1;
        }
        i = i + 1;
    }
    assert(data@.take(i as int) == data@);
    cnt
}

/// Least non-NaN value (the first of equal ones); NaN when there is none.
pub fn min_f64(data: &[u64]) -> (r: u64)
    ensures
        r == min_of(data@),
{
    let mut m: u64 = NAN_BITS;
    let mut i: usize = 0;
    while i < data.len()
        invariant
            i <= data@.len(),
            m == min_of(data@.take(i as int)),
        decreases data.len() - i,
    {
        assert(data@.take(i as int + 1).drop_last() == data@.take(i as int));
        let v = data[i];
        if !is_nan_bits(v) {
            if is_nan_bits(m) || order_key_of(v) < order_key_of(m) {
                m = v;
            }
        }
        i = i + 1;
    }
    assert(data@.take(i as int) == data@);
    m
}

/// Greatest non-NaN value (the first of equal ones); NaN when there is none.
pub fn max_f64(data: &[u64]) -> (r: u64)
    ensures
        r == max_of(data@),
{
    let mut m: u64 = NAN_BITS;
    let mut i: usize = 0;
    while i < data.len()
        invariant
            i <= data@.len(),
            m == max_of(data@.take(i as int)),
        decreases data.len() - i,
    {
        assert(data@.take(i as int + 1).drop_last() == data@.take(i as int));
        let v = data[i];
        if !is_nan_bits(v) {
            if is_nan_bits(m) || order_key_of(v) > order_key_of(m) {
                m = v;
            }
        }
        i = i + 1;
    }
    assert(data@.take(i as int) == data@);
    m
}

} // verus!
