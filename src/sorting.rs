//! Stable null-aware sorting: permutation indices over one or two columns,
//! and a value-materializing variant over a registered series.
use vstd::prelude::*;
use crate::float_bits::{is_nan, is_nan_bits, lemma_order_key_range, order_key, order_key_of};
use crate::registry::{next_handle, EngineState, INVALID_HANDLE};

verus! {

/// Comparison of two cells of one column: negative, zero or positive.
/// Two nulls are equal; a null sorts after a value when `nulls_last`, else
/// before it, whatever the direction; values compare numerically, reversed
/// when not `ascending`.
pub open spec fn cell_cmp(
    a_null: bool,
    a: int,
    b_null: bool,
    b: int,
    ascending: bool,
    nulls_last: bool,
) -> int {
    if a_null && b_null {
        0
    } else if a_null {
        if nulls_last {
            1
        } else {
            -1
        }
    } else if b_null {
        if nulls_last {
            -1
        } else {
            1
        }
    } else {
        let c = if a < b {
            -1
        } else if a > b {
            1
        } else {
            0
        };
        if ascending {
            c
        } else {
            -c
        }
    }
}

/// Cell comparison of two float64 values; NaN is null.
pub open spec fn f64_cmp(a: u64, b: u64, ascending: bool, nulls_last: bool) -> int {
    cell_cmp(is_nan(a), order_key(a), is_nan(b), order_key(b), ascending, nulls_last)
}

/// Cell comparison of two int32 values; `i32::MIN` is null.
pub open spec fn i32_cmp(a: i32, b: i32, ascending: bool, nulls_last: bool) -> int {
    cell_cmp(a == i32::MIN, a as int, b == i32::MIN, b as int, ascending, nulls_last)
}

/// Two-column comparison: the first column decides unless it ties.
pub open spec fn then_cmp(first: int, second: int) -> int {
    if first != 0 {
        first
    } else {
        second
    }
}

/// Row `a` comes before row `b`: it compares lower, or equal from an
/// earlier position.
pub open spec fn comes_before(c: int, a: int, b: int) -> bool {
    c < 0 || (c == 0 && a < b)
}

/// `order` holds the row positions `0..n`, each once, ordered by `cmp`,
/// rows that compare equal keeping their input order.
pub open spec fn is_stable_order(order: Seq<usize>, n: int, cmp: spec_fn(int, int) -> int) -> bool {
    &&& order.len() == n
    &&& forall|i: int| 0 <= i < n ==> order[i] < n
    &&& forall|i: int, j: int|
        0 <= i < j < n ==> comes_before(
            #[trigger] cmp(order[i] as int, order[j] as int),
            order[i] as int,
            order[j] as int,
        )
}

/// Position of a cell on one line: nulls outside every value's range.
spec fn cell_rank(null: bool, v: int, ascending: bool, nulls_last: bool) -> int {
    if null {
        if nulls_last {
            0x1_0000_0000_0000_0000
        } else {
            -0x1_0000_0000_0000_0000
        }
    } else if ascending {
        v
    } else {
        -v
    }
}

spec fn int_cmp(a: int, b: int) -> int {
    if a < b {
        -1
    } else if a > b {
        1
    } else {
        0
    }
}

spec fn rank_cmp(r: Seq<(i128, i128)>, a: int, b: int) -> int {
    then_cmp(int_cmp(r[a].0 as int, r[b].0 as int), int_cmp(r[a].1 as int, r[b].1 as int))
}

proof fn lemma_cell_rank(
    a_null: bool,
    a: int,
    b_null: bool,
    b: int,
    ascending: bool,
    nulls_last: bool,
)
    requires
        -0x8000_0000_0000_0000 <= a < 0x8000_0000_0000_0000,
        -0x8000_0000_0000_0000 <= b < 0x8000_0000_0000_0000,
    ensures
        cell_cmp(a_null, a, b_null, b, ascending, nulls_last) == int_cmp(
            cell_rank(a_null, a, ascending, nulls_last),
            cell_rank(b_null, b, ascending, nulls_last),
        ),
{
}

fn rank_of(null: bool, v: i64, ascending: bool, nulls_last: bool) -> (r: i128)
    ensures
        r == cell_rank(null, v as int, ascending, nulls_last),
{
    if null {
        if nulls_last {
            0x1_0000_0000_0000_0000
        } else {
            -0x1_0000_0000_0000_0000
        }
    } else if ascending {
        v as i128
    } else {
        -(v as i128)
    }
}

fn f64_rank(b: u64, ascending: bool, nulls_last: bool) -> (r: i128)
    ensures
        r == cell_rank(is_nan(b), order_key(b), ascending, nulls_last),
{
    rank_of(is_nan_bits(b), order_key_of(b), ascending, nulls_last)
}

fn i32_rank(v: i32, ascending: bool, nulls_last: bool) -> (r: i128)
    ensures
        r == cell_rank(v == i32::MIN, v as int, ascending, nulls_last),
{
    rank_of(v == i32::MIN, v as i64, ascending, nulls_last)
}

fn rank_le(x: (i128, i128), y: (i128, i128)) -> (r: bool)
    ensures
        r == (x.0 < y.0 || (x.0 == y.0 && x.1 <= y.1)),
{
    x.0 < y.0 || (x.0 == y.0 && x.1 <= y.1)
}

/// Stable sort of the positions `0..n` by rank pair.
fn sort_by_ranks(ranks: &Vec<(i128, i128)>) -> (order: Vec<usize>)
    ensures
        is_stable_order(order@, ranks@.len() as int, |a: int, b: int| rank_cmp(ranks@, a, b)),
{
    let ghost r = ranks@;
    let n = ranks.len();
    let mut order: Vec<usize> = Vec::new();
    let mut k: usize = 0;
    while k < n
        invariant
            n == r.len(),
            r == ranks@,
            k <= n,
            order@.len() == k,
            forall|i: int| 0 <= i < k ==> order@[i] < k,
            forall|i: int, j: int|
                0 <= i < j < k ==> comes_before(
                    #[trigger] rank_cmp(r, order@[i] as int, order@[j] as int),
                    order@[i] as int,
                    order@[j] as int,
                ),
        decreases n - k,
    {
        let key = ranks[k];
        let mut lo: usize = 0;
        let mut hi: usize = k;
        while lo < hi
            invariant
                n == r.len(),
                r == ranks@,
                k < n,
                key == r[k as int],
                0 <= lo <= hi <= k,
                order@.len() == k,
                forall|i: int| 0 <= i < k ==> order@[i] < k,
                forall|i: int, j: int|
                    0 <= i < j < k ==> comes_before(
                        #[trigger] rank_cmp(r, order@[i] as int, order@[j] as int),
                        order@[i] as int,
                        order@[j] as int,
                    ),
                forall|p: int| 0 <= p < lo ==> rank_cmp(r, #[trigger] order@[p] as int, k as int) <= 0,
                forall|p: int| hi <= p < k ==> rank_cmp(r, k as int, #[trigger] order@[p] as int) < 0,
            decreases hi - lo,
        {
            let mid = lo + (hi - lo) / 2;
            if rank_le(ranks[order[mid]], key) {
                assert forall|p: int| 0 <= p < mid + 1 implies rank_cmp(
                    r,
                    #[trigger] order@[p] as int,
                    k as int,
                ) <= 0 by {
                    if p < mid {
                        assert(rank_cmp(r, order@[p] as int, order@[mid as int] as int) <= 0);
                    }
                }
                lo = mid + 1;
            } else {
                assert forall|p: int| mid <= p < k implies rank_cmp(
                    r,
                    k as int,
                    #[trigger] order@[p] as int,
                ) < 0 by {
                    if p > mid {
                        assert(rank_cmp(r, order@[mid as int] as int, order@[p] as int) <= 0);
                    }
                }
                hi = mid;
            }
        }
        let ghost before = order@;
        order.insert(lo, k);
        assert forall|i: int, j: int| 0 <= i < j < k + 1 implies comes_before(
            #[trigger] rank_cmp(r, order@[i] as int, order@[j] as int),
            order@[i] as int,
            order@[j] as int,
        ) by {
            if j < lo {
                assert(order@[i] == before[i] && order@[j] == before[j]);
            } else if j == lo {
                assert(order@[i] == before[i]);
            } else if i < lo {
                assert(order@[i] == before[i] && order@[j] == before[j - 1]);
            } else if i == lo {
                assert(order@[j] == before[j - 1]);
            } else {
                assert(order@[i] == before[i - 1] && order@[j] == before[j - 1]);
            }
        }
        k = k + 1;
    }
    order
}

/// A stable order for `cmp` is one for any comparison that agrees with it in
/// sign.
proof fn lemma_order_transfer(
    order: Seq<usize>,
    n: int,
    cmp1: spec_fn(int, int) -> int,
    cmp2: spec_fn(int, int) -> int,
)
    requires
        is_stable_order(order, n, cmp1),
        forall|a: int, b: int|
            0 <= a < n && 0 <= b < n ==> (#[trigger] cmp1(a, b) < 0 <==> cmp2(a, b) < 0) && (
            cmp1(a, b) == 0 <==> cmp2(a, b) == 0),
    ensures
        is_stable_order(order, n, cmp2),
{
    assert forall|i: int, j: int| 0 <= i < j < n implies comes_before(
        #[trigger] cmp2(order[i] as int, order[j] as int),
        order[i] as int,
        order[j] as int,
    ) by {
        assert(comes_before(cmp1(order[i] as int, order[j] as int), order[i] as int, order[j] as int));
    }
}

fn f64_ranks(data: &[u64], ascending: bool, nulls_last: bool) -> (r: Vec<i128>)
    ensures
        r@.len() == data@.len(),
        forall|a: int|
            0 <= a < data@.len() ==> #[trigger] r@[a] == cell_rank(
                is_nan(data@[a]),
                order_key(data@[a]),
                ascending,
                nulls_last,
            ),
{
    let mut r: Vec<i128> = Vec::new();
    let mut i: usize = 0;
    while i < data.len()
        invariant
            i <= data@.len(),
            r@.len() == i,
            forall|a: int|
                0 <= a < i ==> #[trigger] r@[a] == cell_rank(
                    is_nan(data@[a]),
                    order_key(data@[a]),
                    ascending,
                    nulls_last,
                ),
        decreases data.len() - i,
    {
        r.push(f64_rank(data[i], ascending, nulls_last));
        i = i + 1;
    }
    r
}

fn i32_ranks(data: &[i32], ascending: bool, nulls_last: bool) -> (r: Vec<i128>)
    ensures
        r@.len() == data@.len(),
        forall|a: int|
            0 <= a < data@.len() ==> #[trigger] r@[a] == cell_rank(
                data@[a] == i32::MIN,
                data@[a] as int,
                ascending,
                nulls_last,
            ),
{
    let mut r: Vec<i128> = Vec::new();
    let mut i: usize = 0;
    while i < data.len()
        invariant
            i <= data@.len(),
            r@.len() == i,
            forall|a: int|
                0 <= a < i ==> #[trigger] r@[a] == cell_rank(
                    data@[a] == i32::MIN,
                    data@[a] as int,
                    ascending,
                    nulls_last,
                ),
        decreases data.len() - i,
    {
        r.push(i32_rank(data[i], ascending, nulls_last));
        i = i + 1;
    }
    r
}

fn zip_ranks(first: &Vec<i128>, second: &Vec<i128>) -> (r: Vec<(i128, i128)>)
    requires
        first@.len() == second@.len(),
    ensures
        r@.len() == first@.len(),
        forall|a: int| 0 <= a < r@.len() ==> #[trigger] r@[a] == (first@[a], second@[a]),
{
    let mut r: Vec<(i128, i128)> = Vec::new();
    let mut i: usize = 0;
    while i < first.len()
        invariant
            i <= first@.len(),
            first@.len() == second@.len(),
            r@.len() == i,
            forall|a: int| 0 <= a < i ==> #[trigger] r@[a] == (first@[a], second@[a]),
        decreases first.len() - i,
    {
        r.push((first[i], second[i]));
        i = i + 1;
    }
    r
}

/// Stable permutation of the rows of `data`, ordered by `f64_cmp`.
pub fn sort_single_column_f64(data: &[u64], ascending: bool, nulls_last: bool) -> (r: Vec<usize>)
    ensures
        is_stable_order(
            r@,
            data@.len() as int,
            |a: int, b: int| f64_cmp(data@[a], data@[b], ascending, nulls_last),
        ),
{
    let col = f64_ranks(data, ascending, nulls_last);
    let ranks = zip_ranks(&col, &col);
    let order = sort_by_ranks(&ranks);
    proof {
        let n = data@.len() as int;
        assert forall|a: int, b: int| 0 <= a < n && 0 <= b < n implies #[trigger] rank_cmp(
            ranks@,
            a,
            b,
        ) == f64_cmp(data@[a], data@[b], ascending, nulls_last) by {
            lemma_order_key_range(data@[a]);
            lemma_order_key_range(data@[b]);
            lemma_cell_rank(
                is_nan(data@[a]),
                order_key(data@[a]),
                is_nan(data@[b]),
                order_key(data@[b]),
                ascending,
                nulls_last,
            );
        }
        lemma_order_transfer(
            order@,
            n,
            |a: int, b: int| rank_cmp(ranks@, a, b),
            |a: int, b: int| f64_cmp(data@[a], data@[b], ascending, nulls_last),
        );
    }
    order
}

/// Stable permutation of the rows of `data`, ordered by `i32_cmp`.
pub fn sort_single_column_i32(data: &[i32], ascending: bool, nulls_last: bool) -> (r: Vec<usize>)
    ensures
        is_stable_order(
            r@,
            data@.len() as int,
            |a: int, b: int| i32_cmp(data@[a], data@[b], ascending, nulls_last),
        ),
{
    let col = i32_ranks(data, ascending, nulls_last);
    let ranks = zip_ranks(&col, &col);
    let order = sort_by_ranks(&ranks);
    proof {
        let n = data@.len() as int;
        assert forall|a: int, b: int| 0 <= a < n && 0 <= b < n implies #[trigger] rank_cmp(
            ranks@,
            a,
            b,
        ) == i32_cmp(data@[a], data@[b], ascending, nulls_last) by {
            lemma_cell_rank(
                data@[a] == i32::MIN,
                data@[a] as int,
                data@[b] == i32::MIN,
                data@[b] as int,
                ascending,
                nulls_last,
            );
        }
        lemma_order_transfer(
            order@,
            n,
            |a: int, b: int| rank_cmp(ranks@, a, b),
            |a: int, b: int| i32_cmp(data@[a], data@[b], ascending, nulls_last),
        );
    }
    order
}

/// Stable permutation of the rows of two float64 columns, ordered by the
/// first column and then by the second. A flag byte means "yes" when it is
/// 1. Empty when the columns differ in length.
pub fn sort_two_columns_f64(col1: &[u64], col2: &[u64], asc1: u8, asc2: u8, nulls_last: u8) -> (r:
    Vec<usize>)
    ensures
        col1@.len() != col2@.len() ==> r@.len() == 0,
        col1@.len() == col2@.len() ==> is_stable_order(
            r@,
            col1@.len() as int,
            |a: int, b: int|
                then_cmp(
                    f64_cmp(col1@[a], col1@[b], asc1 == 1, nulls_last == 1),
                    f64_cmp(col2@[a], col2@[b], asc2 == 1, nulls_last == 1),
                ),
        ),
{
    if col1.len() != col2.len() {
        return Vec::new();
    }
    let nl = nulls_last == 1;
    let first = f64_ranks(col1, asc1 == 1, nl);
    let second = f64_ranks(col2, asc2 == 1, nl);
    let ranks = zip_ranks(&first, &second);
    let order = sort_by_ranks(&ranks);
    proof {
        let n = col1@.len() as int;
        assert forall|a: int, b: int| 0 <= a < n && 0 <= b < n implies #[trigger] rank_cmp(
            ranks@,
            a,
            b,
        ) == then_cmp(
            f64_cmp(col1@[a], col1@[b], asc1 == 1, nl),
            f64_cmp(col2@[a], col2@[b], asc2 == 1, nl),
        ) by {
            lemma_order_key_range(col1@[a]);
            lemma_order_key_range(col1@[b]);
            lemma_order_key_range(col2@[a]);
            lemma_order_key_range(col2@[b]);
            lemma_cell_rank(
                is_nan(col1@[a]),
                order_key(col1@[a]),
                is_nan(col1@[b]),
                order_key(col1@[b]),
                asc1 == 1,
                nl,
            );
            lemma_cell_rank(
                is_nan(col2@[a]),
                order_key(col2@[a]),
                is_nan(col2@[b]),
                order_key(col2@[b]),
                asc2 == 1,
                nl,
            );
        }
        lemma_order_transfer(
            order@,
            n,
            |a: int, b: int| rank_cmp(ranks@, a, b),
            |a: int, b: int|
                then_cmp(
                    f64_cmp(col1@[a], col1@[b], asc1 == 1, nl),
                    f64_cmp(col2@[a], col2@[b], asc2 == 1, nl),
                ),
        );
    }
    order
}

/// Stable permutation of the rows of two int32 columns, ordered by the
/// first column and then by the second. A flag byte means "yes" when it is
/// 1. Empty when the columns differ in length.
pub fn sort_two_columns_i32(col1: &[i32], col2: &[i32], asc1: u8, asc2: u8, nulls_last: u8) -> (r:
    Vec<usize>)
    ensures
        col1@.len() != col2@.len() ==> r@.len() == 0,
        col1@.len() == col2@.len() ==> is_stable_order(
            r@,
            col1@.len() as int,
            |a: int, b: int|
                then_cmp(
                    i32_cmp(col1@[a], col1@[b], asc1 == 1, nulls_last == 1),
                    i32_cmp(col2@[a], col2@[b], asc2 == 1, nulls_last == 1),
                ),
        ),
{
    if col1.len() != col2.len() {
        return Vec::new();
    }
    let nl = nulls_last == 1;
    let first = i32_ranks(col1, asc1 == 1, nl);
    let second = i32_ranks(col2, asc2 == 1, nl);
    let ranks = zip_ranks(&first, &second);
    let order = sort_by_ranks(&ranks);
    proof {
        let n = col1@.len() as int;
        assert forall|a: int, b: int| 0 <= a < n && 0 <= b < n implies #[trigger] rank_cmp(
            ranks@,
            a,
            b,
        ) == then_cmp(
            i32_cmp(col1@[a], col1@[b], asc1 == 1, nl),
            i32_cmp(col2@[a], col2@[b], asc2 == 1, nl),
        ) by {
            lemma_cell_rank(
                col1@[a] == i32::MIN,
                col1@[a] as int,
                col1@[b] == i32::MIN,
                col1@[b] as int,
                asc1 == 1,
                nl,
            );
            lemma_cell_rank(
                col2@[a] == i32::MIN,
                col2@[a] as int,
                col2@[b] == i32::MIN,
                col2@[b] as int,
                asc2 == 1,
                nl,
            );
        }
        lemma_order_transfer(
            order@,
            n,
            |a: int, b: int| rank_cmp(ranks@, a, b),
            |a: int, b: int|
                then_cmp(
                    i32_cmp(col1@[a], col1@[b], asc1 == 1, nl),
                    i32_cmp(col2@[a], col2@[b], asc2 == 1, nl),
                ),
        );
    }
    order
}

/// `vals` lists the elements of `src` at the positions `order` gives.
pub open spec fn permuted(vals: Seq<u64>, src: Seq<u64>, order: Seq<usize>) -> bool {
    &&& vals.len() == order.len()
    &&& forall|i: int| 0 <= i < order.len() ==> #[trigger] vals[i] == src[order[i] as int]
}

/// `r` holds the positions of `order`, each cast to 32 bits.
pub open spec fn positions_u32(r: Seq<u32>, order: Seq<usize>) -> bool {
    &&& r.len() == order.len()
    &&& forall|i: int| 0 <= i < order.len() ==> #[trigger] r[i] == order[i] as u32
}

fn to_u32_positions(order: &Vec<usize>) -> (r: Vec<u32>)
    ensures
        positions_u32(r@, order@),
{
    let mut r: Vec<u32> = Vec::new();
    let mut i: usize = 0;
    while i < order.len()
        invariant
            i <= order@.len(),
            r@.len() == i,
            forall|a: int| 0 <= a < i ==> #[trigger] r@[a] == order@[a] as u32,
        decreases order.len() - i,
    {
        r.push(order[i] as u32);
        i = i + 1;
    }
    r
}

fn gather(src: &[u64], order: &Vec<usize>) -> (r: Vec<u64>)
    requires
        forall|i: int| 0 <= i < order@.len() ==> order@[i] < src@.len(),
    ensures
        permuted(r@, src@, order@),
{
    let mut r: Vec<u64> = Vec::new();
    let mut i: usize = 0;
    while i < order.len()
        invariant
            i <= order@.len(),
            forall|a: int| 0 <= a < order@.len() ==> order@[a] < src@.len(),
            r@.len() == i,
            forall|a: int| 0 <= a < i ==> #[trigger] r@[a] == src@[order@[a] as int],
        decreases order.len() - i,
    {
        r.push(src[order[i]]);
        i = i + 1;
    }
    r
}

/// Registers the values of float64 series `series_id` in stable sorted
/// order (a flag byte means "yes" when nonzero) as a new series. Returns
/// `INVALID_HANDLE`, changing nothing, when the series is not live or empty.
pub fn engine_sort_values_f64(eng: &mut EngineState, series_id: u32, ascending: u8, nulls_last: u8) -> (r: u32)
    requires
        old(eng).wf(),
    ensures
        final(eng).wf(),
        ({
            let src = old(eng).f64_series();
            if !src.contains_key(series_id) || src[series_id].len() == 0 {
                r == INVALID_HANDLE && *final(eng) == *old(eng)
            } else {
                let data = src[series_id];
                &&& r == old(eng).next_id()
                &&& final(eng).next_id() == next_handle(r)
                &&& final(eng).f64_series().dom() == src.dom().insert(r)
                &&& forall|h: u32| h != r && src.contains_key(h) ==> #[trigger] final(eng).f64_series()[h] == src[h]
                &&& exists|order: Seq<usize>|
                    is_stable_order(
                        order,
                        data.len() as int,
                        |a: int, b: int| f64_cmp(data[a], data[b], ascending != 0, nulls_last != 0),
                    ) && permuted(final(eng).f64_series()[r], data, order)
                &&& final(eng).i32_series() == old(eng).i32_series()
            }
        }),
{
    let sorted = match eng.get_f64(series_id) {
        Some(src) => {
            if src.len() == 0 {
                return INVALID_HANDLE;
            }
            let order = sort_single_column_f64(src.as_slice(), ascending != 0, nulls_last != 0);
            let vals = gather(src.as_slice(), &order);
            assert(permuted(vals@, src@, order@));
            vals
        },
        None => {
            return INVALID_HANDLE;
        },
    };
    let id = eng.register_f64(sorted);
    assert(eng.f64_series()[id] == sorted@);
    id
}

/// Stable sort positions of float64 series `series_id` (a flag byte means
/// "yes" when nonzero); empty when the series is not live or empty.
pub fn engine_sort_indices_f64(eng: &EngineState, series_id: u32, ascending: u8, nulls_last: u8) -> (r: Vec<u32>)
    requires
        eng.wf(),
    ensures
        ({
            let src = eng.f64_series();
            if !src.contains_key(series_id) || src[series_id].len() == 0 {
                r@.len() == 0
            } else {
                let data = src[series_id];
                exists|order: Seq<usize>|
                    is_stable_order(
                        order,
                        data.len() as int,
                        |a: int, b: int| f64_cmp(data[a], data[b], ascending != 0, nulls_last != 0),
                    ) && positions_u32(r@, order)
            }
        }),
{
    match eng.get_f64(series_id) {
        Some(src) => {
            if src.len() == 0 {
                return Vec::new();
            }
            let order = sort_single_column_f64(src.as_slice(), ascending != 0, nulls_last != 0);
            to_u32_positions(&order)
        },
        None => Vec::new(),
    }
}

/// Stable sort positions of int32 series `series_id` (a flag byte means
/// "yes" when nonzero); empty when the series is not live or empty.
pub fn engine_sort_indices_i32(eng: &EngineState, series_id: u32, ascending: u8, nulls_last: u8) -> (r: Vec<u32>)
    requires
        eng.wf(),
    ensures
        ({
            let src = eng.i32_series();
            if !src.contains_key(series_id) || src[series_id].len() == 0 {
                r@.len() == 0
            } else {
                let data = src[series_id];
                exists|order: Seq<usize>|
                    is_stable_order(
                        order,
                        data.len() as int,
                        |a: int, b: int| i32_cmp(data[a], data[b], ascending != 0, nulls_last != 0),
                    ) && positions_u32(r@, order)
            }
        }),
{
    match eng.get_i32(series_id) {
        Some(src) => {
            if src.len() == 0 {
                return Vec::new();
            }
            let order = sort_single_column_i32(src.as_slice(), ascending != 0, nulls_last != 0);
            to_u32_positions(&order)
        },
        None => Vec::new(),
    }
}

/// Stable sort positions by two float64 series, the first deciding unless
/// it ties (a flag byte means "yes" when it is 1); empty when either series
/// is not live, the first is empty, or their lengths differ.
pub fn engine_sort_two_columns_indices_f64(
    eng: &EngineState,
    series1_id: u32,
    series2_id: u32,
    asc1: u8,
    asc2: u8,
    nulls_last: u8,
) -> (r: Vec<u32>)
    requires
        eng.wf(),
    ensures
        ({
            let src = eng.f64_series();
            if !src.contains_key(series1_id) || !src.contains_key(series2_id)
                || src[series1_id].len() == 0 || src[series1_id].len() != src[series2_id].len() {
                r@.len() == 0
            } else {
                let c1 = src[series1_id];
                let c2 = src[series2_id];
                exists|order: Seq<usize>|
                    is_stable_order(
                        order,
                        c1.len() as int,
                        |a: int, b: int|
                            then_cmp(
                                f64_cmp(c1[a], c1[b], asc1 == 1, nulls_last == 1),
                                f64_cmp(c2[a], c2[b], asc2 == 1, nulls_last == 1),
                            ),
                    ) && positions_u32(r@, order)
            }
        }),
{
    let c1 = match eng.get_f64(series1_id) {
        Some(v) => v,
        None => {
            return Vec::new();
        },
    };
    let c2 = match eng.get_f64(series2_id) {
        Some(v) => v,
        None => {
            return Vec::new();
        },
    };
    if c1.len() == 0 || c1.len() != c2.len() {
        return Vec::new();
    }
    let order = sort_two_columns_f64(c1.as_slice(), c2.as_slice(), asc1, asc2, nulls_last);
    to_u32_positions(&order)
}

/// Stable sort positions by two int32 series, the first deciding unless it
/// ties (a flag byte means "yes" when it is 1); empty when either series is
/// not live, the first is empty, or their lengths differ.
pub fn engine_sort_two_columns_indices_i32(
    eng: &EngineState,
    series1_id: u32,
    series2_id: u32,
    asc1: u8,
    asc2: u8,
    nulls_last: u8,
) -> (r: Vec<u32>)
    requires
        eng.wf(),
    ensures
        ({
            let src = eng.i32_series();
            if !src.contains_key(series1_id) || !src.contains_key(series2_id)
                || src[series1_id].len() == 0 || src[series1_id].len() != src[series2_id].len() {
                r@.len() == 0
            } else {
                let c1 = src[series1_id];
                let c2 = src[series2_id];
                exists|order: Seq<usize>|
                    is_stable_order(
                        order,
                        c1.len() as int,
                        |a: int, b: int|
                            then_cmp(
                                i32_cmp(c1[a], c1[b], asc1 == 1, nulls_last == 1),
                                i32_cmp(c2[a], c2[b], asc2 == 1, nulls_last == 1),
                            ),
                    ) && positions_u32(r@, order)
            }
        }),
{
    let c1 = match eng.get_i32(series1_id) {
        Some(v) => v,
        None => {
            return Vec::new();
        },
    };
    let c2 = match eng.get_i32(series2_id) {
        Some(v) => v,
        None => {
            return Vec::new();
        },
    };
    if c1.len() == 0 || c1.len() != c2.len() {
        return Vec::new();
    }
    let order = sort_two_columns_i32(c1.as_slice(), c2.as_slice(), asc1, asc2, nulls_last);
    to_u32_positions(&order)
}

} // verus!
