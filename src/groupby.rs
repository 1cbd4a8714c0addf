//! Group-by aggregation: rows of a float64 series are partitioned by a
//! parallel vector of string keys, and each aggregate gives one value per
//! distinct key, in ascending byte order of the keys.
//!
//! Counts, minima and maxima are computed here. Sums, means, standard
//! deviations and variances need floating-point arithmetic, which the caller
//! supplies as a reduction `reduce(agg, values)` over the non-NaN values of
//! one group; this module decides which groups exist, which values each one
//! holds, and when a result is fixed without any arithmetic.
use vstd::prelude::*;
use vstd::arithmetic::power2::pow2;
use vstd::utf8::encode_utf8;
use crate::float_bits::{count_to_f64_bits, integer_f64_bits, is_nan, is_nan_bits, NAN_BITS};
use crate::keys::{
    has_key, insert_key, lemma_lex_irreflexive, lemma_lex_transitive, lex_lt, locate_key,
    strictly_sorted, utf8_key,
};
use crate::registry::{next_handle, EngineState, INVALID_HANDLE};
use crate::statistics::{max_f64, max_of, min_f64, min_of};

verus! {

/// An aggregate of a group-by.
#[derive(Clone, Copy, Debug, PartialEq, Eq, Structural)]
pub enum Agg {
    Sum,
    Mean,
    Count,
    Min,
    Max,
    Std,
    Var,
}

/// The UTF-8 encodings of a key vector.
pub open spec fn utf8_keys(keys: Seq<Seq<char>>) -> Seq<Seq<u8>> {
    keys.map_values(|s: Seq<char>| encode_utf8(s))
}

/// The character sequences of a vector of strings.
pub open spec fn string_views(keys: Seq<String>) -> Seq<Seq<char>> {
    keys.map_values(|s: String| s@)
}

/// The byte sequences of a vector of byte vectors.
pub open spec fn byte_views(ks: Seq<Vec<u8>>) -> Seq<Seq<u8>> {
    ks.map_values(|v: Vec<u8>| v@)
}

/// The non-NaN values of the rows among the first `n` whose key is `k`, in
/// row order.
pub open spec fn group_values(vals: Seq<u64>, keys: Seq<Seq<u8>>, k: Seq<u8>, n: int) -> Seq<u64>
    decreases n,
{
    if n <= 0 {
        Seq::empty()
    } else {
        let before = group_values(vals, keys, k, n - 1);
        if keys[n - 1] == k && !is_nan(vals[n - 1]) {
            before.push(vals[n - 1])
        } else {
            before
        }
    }
}

/// Some row among the first `n` has key `k` (and, when `observed_only`, a
/// non-NaN value).
pub open spec fn key_seen(
    vals: Seq<u64>,
    keys: Seq<Seq<u8>>,
    k: Seq<u8>,
    n: int,
    observed_only: bool,
) -> bool {
    exists|i: int| 0 <= i < n && #[trigger] keys[i] == k && (!observed_only || !is_nan(vals[i]))
}

/// `ks` lists, in strictly ascending byte order, the keys that occur (with a
/// non-NaN value, when `observed_only`).
pub open spec fn is_key_order(
    ks: Seq<Seq<u8>>,
    vals: Seq<u64>,
    keys: Seq<Seq<u8>>,
    observed_only: bool,
) -> bool {
    &&& forall|i: int, j: int| 0 <= i < j < ks.len() ==> lex_lt(#[trigger] ks[i], #[trigger] ks[j])
    &&& forall|q: Seq<u8>|
        #[trigger] ks.contains(q) <==> key_seen(vals, keys, q, keys.len() as int, observed_only)
}

/// The output key order of a grouping (there is exactly one such order).
pub open spec fn key_order(vals: Seq<u64>, keys: Seq<Seq<u8>>, observed_only: bool) -> Seq<
    Seq<u8>,
> {
    choose|ks: Seq<Seq<u8>>| is_key_order(ks, vals, keys, observed_only)
}

/// Two strictly ascending sequences with the same elements are equal.
pub proof fn lemma_sorted_unique(a: Seq<Seq<u8>>, b: Seq<Seq<u8>>)
    requires
        forall|i: int, j: int| 0 <= i < j < a.len() ==> lex_lt(#[trigger] a[i], #[trigger] a[j]),
        forall|i: int, j: int| 0 <= i < j < b.len() ==> lex_lt(#[trigger] b[i], #[trigger] b[j]),
        forall|q: Seq<u8>| #[trigger] a.contains(q) <==> b.contains(q),
    ensures
        a == b,
    decreases a.len(),
{
    if a.len() == 0 {
        if b.len() > 0 {
            assert(b.contains(b[0]));
            assert(a.contains(b[0]));
        }
        assert(a =~= b);
    } else {
        assert(a.contains(a[0]));
        assert(b.len() > 0);
        assert(b.contains(b[0]));
        assert(b.contains(a[0]));
        assert(a.contains(b[0]));
        let j = choose|j: int| 0 <= j < b.len() && b[j] == a[0];
        let k = choose|k: int| 0 <= k < a.len() && a[k] == b[0];
        if j > 0 {
            assert(lex_lt(b[0], b[j]));
            if k > 0 {
                assert(lex_lt(a[0], a[k]));
                lemma_lex_transitive(a[0], a[k], a[0]);
            }
            lemma_lex_irreflexive(a[0]);
        }
        let a1 = a.drop_first();
        let b1 = b.drop_first();
        assert forall|q: Seq<u8>| #[trigger] a1.contains(q) <==> b1.contains(q) by {
            if a1.contains(q) {
                let i = choose|i: int| 0 <= i < a1.len() && a1[i] == q;
                assert(lex_lt(a[0], a[i + 1]));
                lemma_lex_irreflexive(q);
                assert(a.contains(q));
                let m = choose|m: int| 0 <= m < b.len() && b[m] == q;
                assert(m != 0);
                assert(b1[m - 1] == q);
            }
            if b1.contains(q) {
                let i = choose|i: int| 0 <= i < b1.len() && b1[i] == q;
                assert(lex_lt(b[0], b[i + 1]));
                lemma_lex_irreflexive(q);
                assert(b.contains(q));
                assert(a.contains(q));
                let m = choose|m: int| 0 <= m < a.len() && a[m] == q;
                assert(m != 0);
                assert(a1[m - 1] == q);
            }
        }
        lemma_sorted_unique(a1, b1);
        assert(a =~= b) by {
            assert forall|i: int| 0 <= i < a.len() implies a[i] == b[i] by {
                if i > 0 {
                    assert(a[i] == a1[i - 1]);
                    assert(b[i] == b1[i - 1]);
                }
            }
        }
    }
}

/// The distinct keys (of rows with a non-NaN value, when `observed_only`) in
/// ascending byte order.
fn distinct_keys(vals: &[u64], keys: &Vec<Vec<u8>>, observed_only: bool) -> (ks: Vec<Vec<u8>>)
    requires
        vals@.len() == keys@.len(),
    ensures
        ks@.len() <= keys@.len(),
        byte_views(ks@) == key_order(vals@, byte_views(keys@), observed_only),
        strictly_sorted(ks@),
{
    let ghost kv = byte_views(keys@);
    let mut ks: Vec<Vec<u8>> = Vec::new();
    let mut i: usize = 0;
    while i < keys.len()
        invariant
            i <= keys@.len(),
            vals@.len() == keys@.len(),
            kv == byte_views(keys@),
            strictly_sorted(ks@),
            ks@.len() <= i,
            forall|q: Seq<u8>|
                #[trigger] has_key(ks@, q) <==> key_seen(vals@, kv, q, i as int, observed_only),
        decreases keys.len() - i,
    {
        let ghost before = ks@;
        let take = !observed_only || !is_nan_bits(vals[i]);
        if take {
            let k = keys[i].clone();
            insert_key(&mut ks, k);
        }
        assert forall|q: Seq<u8>| #[trigger] has_key(ks@, q) <==> key_seen(
            vals@,
            kv,
            q,
            i as int + 1,
            observed_only,
        ) by {
            assert(kv[i as int] == keys@[i as int]@);
            if key_seen(vals@, kv, q, i as int + 1, observed_only) {
                let r = choose|r: int|
                    0 <= r < i + 1 && #[trigger] kv[r] == q && (!observed_only || !is_nan(vals@[r]));
                if r < i {
                    assert(key_seen(vals@, kv, q, i as int, observed_only));
                }
            }
            if key_seen(vals@, kv, q, i as int, observed_only) {
                let r = choose|r: int|
                    0 <= r < i && #[trigger] kv[r] == q && (!observed_only || !is_nan(vals@[r]));
                assert(kv[r] == q);
            }
        }
        i = i + 1;
    }
    proof {
        let ksv = byte_views(ks@);
        assert forall|q: Seq<u8>| #[trigger] ksv.contains(q) <==> has_key(ks@, q) by {
            if ksv.contains(q) {
                let p = choose|p: int| 0 <= p < ksv.len() && ksv[p] == q;
                assert(ks@[p]@ == q);
            }
            if has_key(ks@, q) {
                let p = choose|p: int| 0 <= p < ks@.len() && #[trigger] ks@[p]@ == q;
                assert(ksv[p] == q);
            }
        }
        assert(is_key_order(ksv, vals@, kv, observed_only));
        let other = key_order(vals@, kv, observed_only);
        lemma_sorted_unique(ksv, other);
    }
    ks
}

/// The non-NaN values of each key's rows, in row order.
fn collect_groups(vals: &[u64], keys: &Vec<Vec<u8>>, ks: &Vec<Vec<u8>>) -> (groups: Vec<Vec<u64>>)
    requires
        vals@.len() == keys@.len(),
        strictly_sorted(ks@),
    ensures
        groups@.len() == ks@.len(),
        forall|g: int|
            0 <= g < ks@.len() ==> #[trigger] groups@[g]@ == group_values(
                vals@,
                byte_views(keys@),
                ks@[g]@,
                keys@.len() as int,
            ),
{
    let ghost kv = byte_views(keys@);
    let mut groups: Vec<Vec<u64>> = Vec::new();
    let mut g: usize = 0;
    while g < ks.len()
        invariant
            g <= ks@.len(),
            groups@.len() == g,
            forall|x: int| 0 <= x < g ==> #[trigger] groups@[x]@ == Seq::<u64>::empty(),
        decreases ks.len() - g,
    {
        groups.push(Vec::new());
        g = g + 1;
    }
    let mut i: usize = 0;
    while i < keys.len()
        invariant
            i <= keys@.len(),
            vals@.len() == keys@.len(),
            kv == byte_views(keys@),
            strictly_sorted(ks@),
            groups@.len() == ks@.len(),
            forall|x: int|
                0 <= x < ks@.len() ==> #[trigger] groups@[x]@ == group_values(
                    vals@,
                    kv,
                    ks@[x]@,
                    i as int,
                ),
        decreases keys.len() - i,
    {
        let ghost before = groups@;
        let v = vals[i];
        let mut found = false;
        let mut pos: usize = 0;
        if !is_nan_bits(v) {
            let (f, p) = locate_key(ks, &keys[i]);
            found = f;
            pos = p;
            if found {
                groups[pos].push(v);
            }
        }
        proof {
            assert(kv[i as int] == keys@[i as int]@);
            assert forall|x: int| 0 <= x < ks@.len() implies #[trigger] groups@[x]@ == group_values(
                vals@,
                kv,
                ks@[x]@,
                i as int + 1,
            ) by {
                if found && x != pos {
                    if x < pos {
                        assert(lex_lt(ks@[x]@, ks@[pos as int]@));
                    } else {
                        assert(lex_lt(ks@[pos as int]@, ks@[x]@));
                    }
                    lemma_lex_irreflexive(ks@[x]@);
                    assert(groups@[x] == before[x]);
                }
            }
        }
        i = i + 1;
    }
    groups
}

/// `r` is a value that `reduce` may return for `agg` on a vector holding `g`.
pub open spec fn reduced<F: Fn(Agg, &Vec<u64>) -> u64>(reduce: F, agg: Agg, g: Seq<u64>, r: u64) -> bool {
    exists|v: Vec<u64>| v@ == g && #[trigger] call_ensures(reduce, (agg, &v), r)
}

/// `r` is the value of a count, minimum or maximum over a group whose non-NaN
/// values are `g`: the count as a double (exact below 2^53), or the first
/// least or greatest value (NaN for no values).
pub open spec fn exact_value(agg: Agg, g: Seq<u64>, r: u64) -> bool {
    match agg {
        Agg::Count => g.len() < pow2(53) ==> r == integer_f64_bits(g.len()),
        Agg::Min => r == min_of(g),
        Agg::Max => r == max_of(g),
        _ => false,
    }
}

/// `r` is the value of aggregate `agg` for a group whose non-NaN values are
/// `g`: as `exact_value` for a count, minimum or maximum; a sum of 0 for no
/// values; NaN for a mean of no values, and for a standard deviation or a
/// variance of fewer than two; otherwise what `reduce` gives.
pub open spec fn agg_value<F: Fn(Agg, &Vec<u64>) -> u64>(reduce: F, agg: Agg, g: Seq<u64>, r: u64) -> bool {
    match agg {
        Agg::Count | Agg::Min | Agg::Max => exact_value(agg, g, r),
        Agg::Sum => if g.len() == 0 {
            r == 0
        } else {
            reduced(reduce, agg, g, r)
        },
        Agg::Mean => if g.len() == 0 {
            r == NAN_BITS
        } else {
            reduced(reduce, agg, g, r)
        },
        Agg::Std | Agg::Var => if g.len() < 2 {
            r == NAN_BITS
        } else {
            reduced(reduce, agg, g, r)
        },
    }
}

/// `reduce` may be called on any input.
pub open spec fn total<F: Fn(Agg, &Vec<u64>) -> u64>(reduce: F) -> bool {
    forall|a: Agg, v: &Vec<u64>| #[trigger] call_requires(reduce, (a, v))
}

fn agg_cell<F: Fn(Agg, &Vec<u64>) -> u64>(reduce: &F, agg: Agg, g: &Vec<u64>) -> (r: u64)
    requires
        total(*reduce),
    ensures
        agg_value(*reduce, agg, g@, r),
{
    match agg {
        Agg::Count => count_to_f64_bits(g.len() as u64),
        Agg::Min => min_f64(g.as_slice()),
        Agg::Max => max_f64(g.as_slice()),
        Agg::Sum => {
            if g.len() == 0 {
                0
            } else {
                let r = reduce(agg, g);
                assert(call_ensures(*reduce, (agg, g), r));
                r
            }
        },
        Agg::Mean => {
            if g.len() == 0 {
                NAN_BITS
            } else {
                let r = reduce(agg, g);
                assert(call_ensures(*reduce, (agg, g), r));
                r
            }
        },
        Agg::Std | Agg::Var => {
            if g.len() < 2 {
                NAN_BITS
            } else {
                let r = reduce(agg, g);
                assert(call_ensures(*reduce, (agg, g), r));
                r
            }
        },
    }
}

/// `col` holds, for each key of the key order in turn, the value of `agg`
/// over the non-NaN values of that key's rows.
pub open spec fn is_agg_column<F: Fn(Agg, &Vec<u64>) -> u64>(
    reduce: F,
    agg: Agg,
    col: Seq<u64>,
    vals: Seq<u64>,
    keys: Seq<Seq<u8>>,
    observed_only: bool,
) -> bool {
    let ks = key_order(vals, keys, observed_only);
    &&& col.len() == ks.len()
    &&& forall|g: int|
        0 <= g < ks.len() ==> agg_value(
            reduce,
            agg,
            group_values(vals, keys, ks[g], keys.len() as int),
            #[trigger] col[g],
        )
}

/// Sum and count report every key; the other aggregates only the keys that
/// have a non-NaN value.
pub open spec fn observed_only(agg: Agg) -> bool {
    !(agg == Agg::Sum || agg == Agg::Count)
}

/// Non-NaN values grouped by key, the keys in ascending order.
struct Grouping {
    keys: Vec<Vec<u8>>,
    groups: Vec<Vec<u64>>,
}

impl Grouping {
    spec fn describes(&self, vals: Seq<u64>, keys: Seq<Seq<u8>>, observed_only: bool) -> bool {
        &&& byte_views(self.keys@) == key_order(vals, keys, observed_only)
        &&& self.groups@.len() == self.keys@.len()
        &&& forall|g: int|
            0 <= g < self.keys@.len() ==> #[trigger] self.groups@[g]@ == group_values(
                vals,
                keys,
                self.keys@[g]@,
                keys.len() as int,
            )
    }
}

fn group_rows(vals: &[u64], keys: &Vec<Vec<u8>>, observed_only: bool) -> (r: Grouping)
    requires
        vals@.len() == keys@.len(),
    ensures
        r.describes(vals@, byte_views(keys@), observed_only),
{
    let ks = distinct_keys(vals, keys, observed_only);
    let groups = collect_groups(vals, keys, &ks);
    Grouping { keys: ks, groups }
}

fn agg_column<F: Fn(Agg, &Vec<u64>) -> u64>(
    reduce: &F,
    agg: Agg,
    grouping: &Grouping,
    vals: Ghost<Seq<u64>>,
    keys: Ghost<Seq<Seq<u8>>>,
    observed_only: Ghost<bool>,
) -> (col: Vec<u64>)
    requires
        total(*reduce),
        grouping.describes(vals@, keys@, observed_only@),
    ensures
        is_agg_column(*reduce, agg, col@, vals@, keys@, observed_only@),
{
    let groups = &grouping.groups;
    let mut col: Vec<u64> = Vec::new();
    let mut g: usize = 0;
    while g < groups.len()
        invariant
            g <= groups@.len(),
            total(*reduce),
            grouping.describes(vals@, keys@, observed_only@),
            groups == &grouping.groups,
            col@.len() == g,
            forall|x: int| 0 <= x < g ==> agg_value(*reduce, agg, groups@[x]@, #[trigger] col@[x]),
        decreases groups.len() - g,
    {
        let v = agg_cell(reduce, agg, &groups[g]);
        col.push(v);
        g = g + 1;
    }
    proof {
        let ks = key_order(vals@, keys@, observed_only@);
        assert forall|x: int| 0 <= x < ks.len() implies agg_value(
            *reduce,
            agg,
            group_values(vals@, keys@, ks[x], keys@.len() as int),
            #[trigger] col@[x],
        ) by {
            assert(ks[x] == grouping.keys@[x]@);
            assert(groups@[x]@ == group_values(vals@, keys@, grouping.keys@[x]@, keys@.len() as int));
        }
    }
    col
}

/// The UTF-8 bytes of each key.
fn key_bytes(keys: &Vec<String>) -> (r: Vec<Vec<u8>>)
    ensures
        r@.len() == keys@.len(),
        byte_views(r@) == utf8_keys(string_views(keys@)),
{
    let mut r: Vec<Vec<u8>> = Vec::new();
    let mut i: usize = 0;
    while i < keys.len()
        invariant
            i <= keys@.len(),
            r@.len() == i,
            forall|x: int| 0 <= x < i ==> #[trigger] r@[x]@ == encode_utf8(keys@[x]@),
        decreases keys.len() - i,
    {
        r.push(utf8_key(&keys[i]));
        i = i + 1;
    }
    assert(byte_views(r@) =~= utf8_keys(string_views(keys@)));
    r
}

/// `col` holds, for each key of the key order in turn, the count, minimum
/// or maximum over the non-NaN values of that key's rows.
pub open spec fn is_exact_column(
    agg: Agg,
    col: Seq<u64>,
    vals: Seq<u64>,
    keys: Seq<Seq<u8>>,
    observed_only: bool,
) -> bool {
    let ks = key_order(vals, keys, observed_only);
    &&& col.len() == ks.len()
    &&& forall|g: int|
        0 <= g < ks.len() ==> exact_value(
            agg,
            group_values(vals, keys, ks[g], keys.len() as int),
            #[trigger] col[g],
        )
}

/// The effect of a single-aggregate group-by of float64 series `series_id`
/// by `keys`: when the series is live and as long as `keys`, a new series
/// registered under the next handle `r` and nothing else changed, whose
/// contents `column` describes; otherwise `r` is `INVALID_HANDLE` and
/// nothing changed.
pub open spec fn grouped_into(
    before: EngineState,
    after: EngineState,
    series_id: u32,
    keys: Seq<Seq<char>>,
    r: u32,
    column: spec_fn(Seq<u64>, Seq<u64>, Seq<Seq<u8>>) -> bool,
) -> bool {
    let src = before.f64_series();
    if !src.contains_key(series_id) || src[series_id].len() != keys.len() {
        r == INVALID_HANDLE && after == before
    } else {
        &&& r == before.next_id()
        &&& after.next_id() == next_handle(r)
        &&& after.f64_series() == src.insert(r, after.f64_series()[r])
        &&& after.i32_series() == before.i32_series()
        &&& column(after.f64_series()[r], src[series_id], utf8_keys(keys))
    }
}

/// Registers the value of `agg` for each distinct key of `keys` (one key per
/// row of float64 series `series_id`), in ascending byte order of the keys,
/// as a new float64 series. Sum and count cover every key; the others only
/// keys with a non-NaN value. Returns `INVALID_HANDLE`, changing nothing,
/// when the series is not live or its length differs from that of `keys`.
pub fn groupby_aggregate<F: Fn(Agg, &Vec<u64>) -> u64>(
    eng: &mut EngineState,
    series_id: u32,
    keys: &Vec<String>,
    agg: Agg,
    reduce: F,
) -> (r: u32)
    requires
        old(eng).wf(),
        total(reduce),
    ensures
        final(eng).wf(),
        grouped_into(
            *old(eng),
            *final(eng),
            series_id,
            string_views(keys@),
            r,
            |col: Seq<u64>, vals: Seq<u64>, kv: Seq<Seq<u8>>|
                is_agg_column(reduce, agg, col, vals, kv, observed_only(agg)),
        ),
{
    let col = match eng.get_f64(series_id) {
        Some(src) => {
            if src.len() != keys.len() {
                return INVALID_HANDLE;
            }
            let kb = key_bytes(keys);
            let obs = match agg {
                Agg::Sum | Agg::Count => false,
                _ => true,
            };
            let grouping = group_rows(src.as_slice(), &kb, obs);
            agg_column(
                &reduce,
                agg,
                &grouping,
                Ghost(src@),
                Ghost(byte_views(kb@)),
                Ghost(obs),
            )
        },
        None => {
            return INVALID_HANDLE;
        },
    };
    eng.register_f64(col)
}

/// What `serde_json` parses `text` to as an array of strings; `None` when
/// the text is not one.
pub uninterp spec fn json_string_array(text: Seq<char>) -> Option<Seq<Seq<char>>>;

/// Relies on `serde_json::from_str` into `Vec<String>`: it succeeds exactly
/// on the JSON arrays of strings, and its outcome depends on the text alone.
#[verifier::external_body]
fn parse_json_string_array(text: &str) -> (r: Option<Vec<String>>)
    ensures
        match r {
            Some(v) => json_string_array(text@) == Some(string_views(v@)),
            None => json_string_array(text@) is None,
        },
{
    serde_json::from_str::<Vec<String>>(text).ok()
}

/// The key vector that a JSON array of strings gives; empty for any other
/// text.
pub open spec fn group_keys_of(text: Seq<char>) -> Seq<Seq<char>> {
    match json_string_array(text) {
        Some(k) => k,
        None => Seq::empty(),
    }
}

/// Reads a key vector from a JSON array of strings; malformed text gives an
/// empty vector, which then fails the length check of every group-by.
pub fn parse_group_keys(group_keys_json: &str) -> (r: Vec<String>)
    ensures
        string_views(r@) == group_keys_of(group_keys_json@),
{
    match parse_json_string_array(group_keys_json) {
        Some(v) => v,
        None => {
            let v: Vec<String> = Vec::new();
            assert(string_views(v@) =~= Seq::<Seq<char>>::empty());
            v
        },
    }
}

/// The bit that selects `agg` in an aggregate mask.
pub open spec fn agg_bit(agg: Agg) -> u32 {
    match agg {
        Agg::Sum => 1,
        Agg::Mean => 2,
        Agg::Count => 4,
        Agg::Min => 8,
        Agg::Max => 16,
        Agg::Std => 32,
        Agg::Var => 64,
    }
}

fn agg_bit_of(agg: Agg) -> (r: u32)
    ensures
        r == agg_bit(agg),
{
    match agg {
        Agg::Sum => 1,
        Agg::Mean => 2,
        Agg::Count => 4,
        Agg::Min => 8,
        Agg::Max => 16,
        Agg::Std => 32,
        Agg::Var => 64,
    }
}

/// Every aggregate, in ascending bit order.
pub open spec fn all_aggs() -> Seq<Agg> {
    seq![Agg::Sum, Agg::Mean, Agg::Count, Agg::Min, Agg::Max, Agg::Std, Agg::Var]
}

/// The aggregates of `aggs` whose bit is set in `mask`, in order.
pub open spec fn selected_from(mask: u32, aggs: Seq<Agg>) -> Seq<Agg>
    decreases aggs.len(),
{
    if aggs.len() == 0 {
        Seq::empty()
    } else {
        let before = selected_from(mask, aggs.drop_last());
        if mask & agg_bit(aggs.last()) != 0 {
            before.push(aggs.last())
        } else {
            before
        }
    }
}

/// The aggregates that `mask` selects, in ascending bit order.
pub open spec fn selected_aggs(mask: u32) -> Seq<Agg> {
    selected_from(mask, all_aggs())
}

/// The handle issued `k` allocations after `h` (for `0 <= k < 2^32`).
pub open spec fn handle_after(h: u32, k: int) -> u32 {
    if h + k < 0x1_0000_0000 {
        (h + k) as u32
    } else {
        (h + k - 0x1_0000_0000) as u32
    }
}

/// Registers one float64 series for each aggregate that `agg_mask` selects
/// (bits 1 sum, 2 mean, 4 count, 8 min, 16 max, 32 std, 64 var), in
/// ascending bit order, and returns their handles in that order. Each series
/// holds what `groupby_aggregate` gives for its aggregate: sum and count
/// cover every key, the others the keys that have a non-NaN value, in
/// ascending byte order. Returns an empty vector, changing nothing, when the series is
/// not live or its length differs from that of `keys`.
pub fn groupby_multi<F: Fn(Agg, &Vec<u64>) -> u64>(
    eng: &mut EngineState,
    series_id: u32,
    keys: &Vec<String>,
    agg_mask: u32,
    reduce: F,
) -> (r: Vec<u32>)
    requires
        old(eng).wf(),
        total(reduce),
    ensures
        final(eng).wf(),
        ({
            let src = old(eng).f64_series();
            if !src.contains_key(series_id) || src[series_id].len() != keys@.len() {
                r@.len() == 0 && *final(eng) == *old(eng)
            } else {
                let sel = selected_aggs(agg_mask);
                let start = old(eng).next_id();
                &&& r@.len() == sel.len()
                &&& final(eng).next_id() == handle_after(start, sel.len() as int)
                &&& final(eng).i32_series() == old(eng).i32_series()
                &&& forall|k: int|
                    0 <= k < sel.len() ==> #[trigger] r@[k] == handle_after(start, k)
                        && final(eng).f64_series().contains_key(r@[k]) && is_agg_column(
                        reduce,
                        sel[k],
                        final(eng).f64_series()[r@[k]],
                        src[series_id],
                        utf8_keys(string_views(keys@)),
                        observed_only(sel[k]),
                    )
                &&& forall|h: u32|
                    !r@.contains(h) ==> (#[trigger] final(eng).f64_series().contains_key(h)
                        == src.contains_key(h)) && (src.contains_key(h)
                        ==> final(eng).f64_series()[h] == src[h])
            }
        }),
{
    let ghost src_map = eng.f64_series();
    let ghost start = eng.next_id();
    let ghost kv = utf8_keys(string_views(keys@));
    let (every_key, observed) = match eng.get_f64(series_id) {
        Some(src) => {
            if src.len() != keys.len() {
                return Vec::new();
            }
            let kb = key_bytes(keys);
            (group_rows(src.as_slice(), &kb, false), group_rows(src.as_slice(), &kb, true))
        },
        None => {
            return Vec::new();
        },
    };
    let ghost vals = src_map[series_id];
    let all: Vec<Agg> = vec![Agg::Sum, Agg::Mean, Agg::Count, Agg::Min, Agg::Max, Agg::Std, Agg::Var];
    assert(all@ == all_aggs());
    let mut out: Vec<u32> = Vec::new();
    let mut j: usize = 0;
    while j < all.len()
        invariant
            all@ == all_aggs(),
            j <= 7,
            total(reduce),
            every_key.describes(vals, kv, false),
            observed.describes(vals, kv, true),
            eng.wf(),
            eng.i32_series() == old(eng).i32_series(),
            out@ .len() == selected_from(agg_mask, all_aggs().take(j as int)).len(),
            out@.len() <= j,
            eng.next_id() == handle_after(start, out@.len() as int),
            forall|k: int|
                0 <= k < out@.len() ==> #[trigger] out@[k] == handle_after(start, k)
                    && eng.f64_series().contains_key(out@[k]) && is_agg_column(
                    reduce,
                    selected_from(agg_mask, all_aggs().take(j as int))[k],
                    eng.f64_series()[out@[k]],
                    vals,
                    kv,
                    observed_only(selected_from(agg_mask, all_aggs().take(j as int))[k]),
                ),
            forall|h: u32|
                !out@.contains(h) ==> (#[trigger] eng.f64_series().contains_key(h)
                    == src_map.contains_key(h)) && (src_map.contains_key(h)
                    ==> eng.f64_series()[h] == src_map[h]),
        decreases 7 - j,
    {
        let a = all[j];
        let ghost sel_before = selected_from(agg_mask, all_aggs().take(j as int));
        assert(all_aggs().take(j as int + 1).drop_last() == all_aggs().take(j as int));
        assert(all_aggs().take(j as int + 1).last() == a);
        if agg_mask & agg_bit_of(a) != 0 {
            let col = match a {
                Agg::Sum | Agg::Count => agg_column(
                    &reduce,
                    a,
                    &every_key,
                    Ghost(vals),
                    Ghost(kv),
                    Ghost(false),
                ),
                _ => agg_column(&reduce, a, &observed, Ghost(vals), Ghost(kv), Ghost(true)),
            };
            let ghost before = eng.f64_series();
            let ghost outs = out@;
            let id = eng.register_f64(col);
            out.push(id);
            proof {
                assert forall|h: u32| !out@.contains(h) implies (#[trigger] eng.f64_series().contains_key(h)
                    == src_map.contains_key(h)) && (src_map.contains_key(h)
                    ==> eng.f64_series()[h] == src_map[h]) by {
                    assert(h != id) by {
                        assert(out@[outs.len() as int] == id);
                    }
                    if outs.contains(h) {
                        let k = choose|k: int| 0 <= k < outs.len() && outs[k] == h;
                        assert(out@[k] == h);
                    }
                    assert(before.contains_key(h) == src_map.contains_key(h));
                }
            }
        }
        assert(forall|h: u32|
            !out@.contains(h) ==> (#[trigger] eng.f64_series().contains_key(h)
                == src_map.contains_key(h)) && (src_map.contains_key(h)
                ==> eng.f64_series()[h] == src_map[h]));
        j = j + 1;
    }
    assert(all_aggs().take(7) == all_aggs());
    out
}

/// Registers the sum of the non-NaN values of each key, in ascending byte order of the keys of the JSON array `group_keys_json` (one per row of float64 series `series_id`),
/// as a new series; keys with no such value sum to 0. Returns
/// `INVALID_HANDLE` when the series is not live or the key count differs.
pub fn engine_groupby_sum_f64<F: Fn(Agg, &Vec<u64>) -> u64>(
    eng: &mut EngineState,
    series_id: u32,
    group_keys_json: &str,
    reduce: F,
) -> (r: u32)
    requires
        old(eng).wf(),
        total(reduce),
    ensures
        final(eng).wf(),
        grouped_into(
            *old(eng),
            *final(eng),
            series_id,
            group_keys_of(group_keys_json@),
            r,
            |col: Seq<u64>, vals: Seq<u64>, kv: Seq<Seq<u8>>|
                is_agg_column(reduce, Agg::Sum, col, vals, kv, false),
        ),
{
    let keys = parse_group_keys(group_keys_json);
    groupby_aggregate(eng, series_id, &keys, Agg::Sum, reduce)
}

/// Registers the mean of the non-NaN values of each key that has one,
/// in ascending byte order of the keys of the JSON array `group_keys_json` (one per row of float64 series `series_id`), as a new series. Returns `INVALID_HANDLE` when the series is not
/// live or the key count differs.
pub fn engine_groupby_mean_f64<F: Fn(Agg, &Vec<u64>) -> u64>(
    eng: &mut EngineState,
    series_id: u32,
    group_keys_json: &str,
    reduce: F,
) -> (r: u32)
    requires
        old(eng).wf(),
        total(reduce),
    ensures
        final(eng).wf(),
        grouped_into(
            *old(eng),
            *final(eng),
            series_id,
            group_keys_of(group_keys_json@),
            r,
            |col: Seq<u64>, vals: Seq<u64>, kv: Seq<Seq<u8>>|
                is_agg_column(reduce, Agg::Mean, col, vals, kv, true),
        ),
{
    let keys = parse_group_keys(group_keys_json);
    groupby_aggregate(eng, series_id, &keys, Agg::Mean, reduce)
}

/// Registers the number of non-NaN values of each key (0 included),
/// in ascending byte order of the keys of the JSON array `group_keys_json` (one per row of float64 series `series_id`), as a new series. Returns `INVALID_HANDLE` when the series is not
/// live or the key count differs.
pub fn engine_groupby_count_f64(eng: &mut EngineState, series_id: u32, group_keys_json: &str) -> (r: u32)
    requires
        old(eng).wf(),
    ensures
        final(eng).wf(),
        grouped_into(
            *old(eng),
            *final(eng),
            series_id,
            group_keys_of(group_keys_json@),
            r,
            |col: Seq<u64>, vals: Seq<u64>, kv: Seq<Seq<u8>>|
                is_exact_column(Agg::Count, col, vals, kv, false),
        ),
{
    let keys = parse_group_keys(group_keys_json);
    let unused = |_agg: Agg, _g: &Vec<u64>| -> (r: u64) { NAN_BITS };
    let r = groupby_aggregate(eng, series_id, &keys, Agg::Count, unused);
    proof {
        let src = old(eng).f64_series();
        if src.contains_key(series_id) && src[series_id].len() == keys@.len() {
            let kv = utf8_keys(string_views(keys@));
            let vals = src[series_id];
            let ks = key_order(vals, kv, false);
            assert forall|g: int| 0 <= g < ks.len() implies exact_value(
                Agg::Count,
                group_values(vals, kv, ks[g], kv.len() as int),
                #[trigger] eng.f64_series()[r][g],
            ) by {
                assert(agg_value(
                    unused,
                    Agg::Count,
                    group_values(vals, kv, ks[g], kv.len() as int),
                    eng.f64_series()[r][g],
                ));
            }
        }
    }
    r
}

/// Registers the least non-NaN value of each key that has one, in ascending byte order of the keys of the JSON array `group_keys_json` (one per row of float64 series `series_id`),
/// as a new series. Returns `INVALID_HANDLE` when the series is not live or
/// the key count differs.
pub fn engine_groupby_min_f64(eng: &mut EngineState, series_id: u32, group_keys_json: &str) -> (r: u32)
    requires
        old(eng).wf(),
    ensures
        final(eng).wf(),
        grouped_into(
            *old(eng),
            *final(eng),
            series_id,
            group_keys_of(group_keys_json@),
            r,
            |col: Seq<u64>, vals: Seq<u64>, kv: Seq<Seq<u8>>|
                is_exact_column(Agg::Min, col, vals, kv, true),
        ),
{
    let keys = parse_group_keys(group_keys_json);
    let unused = |_agg: Agg, _g: &Vec<u64>| -> (r: u64) { NAN_BITS };
    let r = groupby_aggregate(eng, series_id, &keys, Agg::Min, unused);
    proof {
        let src = old(eng).f64_series();
        if src.contains_key(series_id) && src[series_id].len() == keys@.len() {
            let kv = utf8_keys(string_views(keys@));
            let vals = src[series_id];
            let ks = key_order(vals, kv, true);
            assert forall|g: int| 0 <= g < ks.len() implies exact_value(
                Agg::Min,
                group_values(vals, kv, ks[g], kv.len() as int),
                #[trigger] eng.f64_series()[r][g],
            ) by {
                assert(agg_value(
                    unused,
                    Agg::Min,
                    group_values(vals, kv, ks[g], kv.len() as int),
                    eng.f64_series()[r][g],
                ));
            }
        }
    }
    r
}

/// Registers the greatest non-NaN value of each key that has one, in ascending byte order of the keys of the JSON array `group_keys_json` (one per row of float64 series `series_id`),
/// as a new series. Returns `INVALID_HANDLE` when the series is not live or
/// the key count differs.
pub fn engine_groupby_max_f64(eng: &mut EngineState, series_id: u32, group_keys_json: &str) -> (r: u32)
    requires
        old(eng).wf(),
    ensures
        final(eng).wf(),
        grouped_into(
            *old(eng),
            *final(eng),
            series_id,
            group_keys_of(group_keys_json@),
            r,
            |col: Seq<u64>, vals: Seq<u64>, kv: Seq<Seq<u8>>|
                is_exact_column(Agg::Max, col, vals, kv, true),
        ),
{
    let keys = parse_group_keys(group_keys_json);
    let unused = |_agg: Agg, _g: &Vec<u64>| -> (r: u64) { NAN_BITS };
    let r = groupby_aggregate(eng, series_id, &keys, Agg::Max, unused);
    proof {
        let src = old(eng).f64_series();
        if src.contains_key(series_id) && src[series_id].len() == keys@.len() {
            let kv = utf8_keys(string_views(keys@));
            let vals = src[series_id];
            let ks = key_order(vals, kv, true);
            assert forall|g: int| 0 <= g < ks.len() implies exact_value(
                Agg::Max,
                group_values(vals, kv, ks[g], kv.len() as int),
                #[trigger] eng.f64_series()[r][g],
            ) by {
                assert(agg_value(
                    unused,
                    Agg::Max,
                    group_values(vals, kv, ks[g], kv.len() as int),
                    eng.f64_series()[r][g],
                ));
            }
        }
    }
    r
}

/// Registers the sample standard deviation of the non-NaN values of each key
/// that has one (NaN below two values), in ascending byte order of the keys of the JSON array `group_keys_json` (one per row of float64 series `series_id`), as a new series. Returns
/// `INVALID_HANDLE` when the series is not live or the key count differs.
pub fn engine_groupby_std_f64<F: Fn(Agg, &Vec<u64>) -> u64>(
    eng: &mut EngineState,
    series_id: u32,
    group_keys_json: &str,
    reduce: F,
) -> (r: u32)
    requires
        old(eng).wf(),
        total(reduce),
    ensures
        final(eng).wf(),
        grouped_into(
            *old(eng),
            *final(eng),
            series_id,
            group_keys_of(group_keys_json@),
            r,
            |col: Seq<u64>, vals: Seq<u64>, kv: Seq<Seq<u8>>|
                is_agg_column(reduce, Agg::Std, col, vals, kv, true),
        ),
{
    let keys = parse_group_keys(group_keys_json);
    groupby_aggregate(eng, series_id, &keys, Agg::Std, reduce)
}

/// Registers the sample variance of the non-NaN values of each key that has
/// one (NaN below two values), in ascending byte order of the keys of the JSON array `group_keys_json` (one per row of float64 series `series_id`), as a new series. Returns
/// `INVALID_HANDLE` when the series is not live or the key count differs.
pub fn engine_groupby_var_f64<F: Fn(Agg, &Vec<u64>) -> u64>(
    eng: &mut EngineState,
    series_id: u32,
    group_keys_json: &str,
    reduce: F,
) -> (r: u32)
    requires
        old(eng).wf(),
        total(reduce),
    ensures
        final(eng).wf(),
        grouped_into(
            *old(eng),
            *final(eng),
            series_id,
            group_keys_of(group_keys_json@),
            r,
            |col: Seq<u64>, vals: Seq<u64>, kv: Seq<Seq<u8>>|
                is_agg_column(reduce, Agg::Var, col, vals, kv, true),
        ),
{
    let keys = parse_group_keys(group_keys_json);
    groupby_aggregate(eng, series_id, &keys, Agg::Var, reduce)
}

/// `groupby_multi` on the keys of the JSON array `group_keys_json`.
pub fn engine_groupby_multi_f64<F: Fn(Agg, &Vec<u64>) -> u64>(
    eng: &mut EngineState,
    series_id: u32,
    group_keys_json: &str,
    agg_mask: u32,
    reduce: F,
) -> (r: Vec<u32>)
    requires
        old(eng).wf(),
        total(reduce),
    ensures
        final(eng).wf(),
        ({
            let src = old(eng).f64_series();
            let keys = group_keys_of(group_keys_json@);
            if !src.contains_key(series_id) || src[series_id].len() != keys.len() {
                r@.len() == 0 && *final(eng) == *old(eng)
            } else {
                let sel = selected_aggs(agg_mask);
                let start = old(eng).next_id();
                &&& r@.len() == sel.len()
                &&& final(eng).next_id() == handle_after(start, sel.len() as int)
                &&& final(eng).i32_series() == old(eng).i32_series()
                &&& forall|k: int|
                    0 <= k < sel.len() ==> #[trigger] r@[k] == handle_after(start, k)
                        && final(eng).f64_series().contains_key(r@[k]) && is_agg_column(
                        reduce,
                        sel[k],
                        final(eng).f64_series()[r@[k]],
                        src[series_id],
                        utf8_keys(keys),
                        observed_only(sel[k]),
                    )
                &&& forall|h: u32|
                    !r@.contains(h) ==> (#[trigger] final(eng).f64_series().contains_key(h)
                        == src.contains_key(h)) && (src.contains_key(h)
                        ==> final(eng).f64_series()[h] == src[h])
            }
        }),
{
    let keys = parse_group_keys(group_keys_json);
    groupby_multi(eng, series_id, &keys, agg_mask, reduce)
}

/// `k` placed into a strictly ascending key sequence.
spec fn sorted_insert(ks: Seq<Seq<u8>>, k: Seq<u8>) -> Seq<Seq<u8>>
    decreases ks.len(),
{
    if ks.len() == 0 {
        seq![k]
    } else if ks[0] == k {
        ks
    } else if lex_lt(k, ks[0]) {
        seq![k] + ks
    } else {
        seq![ks[0]] + sorted_insert(ks.drop_first(), k)
    }
}

spec fn ascending(ks: Seq<Seq<u8>>) -> bool {
    forall|i: int, j: int| 0 <= i < j < ks.len() ==> lex_lt(#[trigger] ks[i], #[trigger] ks[j])
}

proof fn lemma_sorted_insert(ks: Seq<Seq<u8>>, k: Seq<u8>)
    requires
        ascending(ks),
    ensures
        ascending(sorted_insert(ks, k)),
        forall|q: Seq<u8>| #[trigger] sorted_insert(ks, k).contains(q) <==> (q == k || ks.contains(q)),
    decreases ks.len(),
{
    let r = sorted_insert(ks, k);
    if ks.len() == 0 {
        assert forall|q: Seq<u8>| #[trigger] r.contains(q) <==> (q == k || ks.contains(q)) by {
            if q == k {
                assert(r[0] == q);
            }
        }
    } else if ks[0] == k {
        assert(ks.contains(ks[0]));
    } else if lex_lt(k, ks[0]) {
        assert forall|i: int, j: int| 0 <= i < j < r.len() implies lex_lt(
            #[trigger] r[i],
            #[trigger] r[j],
        ) by {
            if i == 0 {
                if j > 1 {
                    assert(lex_lt(ks[0], ks[j - 1]));
                    lemma_lex_transitive(k, ks[0], ks[j - 1]);
                }
            } else {
                assert(r[i] == ks[i - 1] && r[j] == ks[j - 1]);
            }
        }
        assert forall|q: Seq<u8>| #[trigger] r.contains(q) <==> (q == k || ks.contains(q)) by {
            if r.contains(q) {
                let i = choose|i: int| 0 <= i < r.len() && r[i] == q;
                if i > 0 {
                    assert(ks[i - 1] == q);
                }
            }
            if q == k {
                assert(r[0] == q);
            }
            if ks.contains(q) {
                let i = choose|i: int| 0 <= i < ks.len() && ks[i] == q;
                assert(r[i + 1] == q);
            }
        }
    } else {
        let rest = ks.drop_first();
        assert(ascending(rest)) by {
            assert forall|i: int, j: int| 0 <= i < j < rest.len() implies lex_lt(
                #[trigger] rest[i],
                #[trigger] rest[j],
            ) by {
                assert(rest[i] == ks[i + 1] && rest[j] == ks[j + 1]);
            }
        }
        lemma_sorted_insert(rest, k);
        let tail = sorted_insert(rest, k);
        crate::keys::lemma_lex_total(k, ks[0]);
        assert forall|i: int, j: int| 0 <= i < j < r.len() implies lex_lt(
            #[trigger] r[i],
            #[trigger] r[j],
        ) by {
            if i == 0 {
                assert(r[j] == tail[j - 1]);
                assert(tail.contains(tail[j - 1]));
                if tail[j - 1] != k {
                    assert(rest.contains(tail[j - 1]));
                    let m = choose|m: int| 0 <= m < rest.len() && rest[m] == tail[j - 1];
                    assert(lex_lt(ks[0], ks[m + 1]));
                }
            } else {
                assert(r[i] == tail[i - 1] && r[j] == tail[j - 1]);
            }
        }
        assert forall|q: Seq<u8>| #[trigger] r.contains(q) <==> (q == k || ks.contains(q)) by {
            if r.contains(q) {
                let i = choose|i: int| 0 <= i < r.len() && r[i] == q;
                if i > 0 {
                    assert(tail[i - 1] == q);
                    assert(tail.contains(q));
                    if q != k {
                        assert(rest.contains(q));
                        let m = choose|m: int| 0 <= m < rest.len() && rest[m] == q;
                        assert(ks[m + 1] == q);
                    }
                }
            }
            if q == k {
                assert(tail.contains(q));
                let i = choose|i: int| 0 <= i < tail.len() && tail[i] == q;
                assert(r[i + 1] == q);
            }
            if ks.contains(q) {
                let i = choose|i: int| 0 <= i < ks.len() && ks[i] == q;
                if i == 0 {
                    assert(r[0] == q);
                } else {
                    assert(rest[i - 1] == q);
                    assert(rest.contains(q));
                    assert(tail.contains(q));
                    let m = choose|m: int| 0 <= m < tail.len() && tail[m] == q;
                    assert(r[m + 1] == q);
                }
            }
        }
    }
}

/// The keys of the first `n` rows (with a non-NaN value, when
/// `observed_only`), inserted one by one in ascending order.
spec fn keys_inserted(vals: Seq<u64>, keys: Seq<Seq<u8>>, n: int, observed_only: bool) -> Seq<
    Seq<u8>,
>
    decreases n,
{
    if n <= 0 {
        Seq::empty()
    } else {
        let before = keys_inserted(vals, keys, n - 1, observed_only);
        if !observed_only || !is_nan(vals[n - 1]) {
            sorted_insert(before, keys[n - 1])
        } else {
            before
        }
    }
}

proof fn lemma_keys_inserted(vals: Seq<u64>, keys: Seq<Seq<u8>>, n: int, observed_only: bool)
    requires
        0 <= n,
    ensures
        ascending(keys_inserted(vals, keys, n, observed_only)),
        forall|q: Seq<u8>|
            #[trigger] keys_inserted(vals, keys, n, observed_only).contains(q) <==> key_seen(
                vals,
                keys,
                q,
                n,
                observed_only,
            ),
    decreases n,
{
    if n > 0 {
        let before = keys_inserted(vals, keys, n - 1, observed_only);
        lemma_keys_inserted(vals, keys, n - 1, observed_only);
        lemma_sorted_insert(before, keys[n - 1]);
        let now = keys_inserted(vals, keys, n, observed_only);
        assert forall|q: Seq<u8>| #[trigger] now.contains(q) <==> key_seen(
            vals,
            keys,
            q,
            n,
            observed_only,
        ) by {
            if key_seen(vals, keys, q, n, observed_only) {
                let i = choose|i: int|
                    0 <= i < n && #[trigger] keys[i] == q && (!observed_only || !is_nan(vals[i]));
                if i < n - 1 {
                    assert(key_seen(vals, keys, q, n - 1, observed_only));
                }
            }
            if key_seen(vals, keys, q, n - 1, observed_only) {
                let i = choose|i: int|
                    0 <= i < n - 1 && #[trigger] keys[i] == q && (!observed_only || !is_nan(vals[i]));
                assert(keys[i] == q);
            }
            if (!observed_only || !is_nan(vals[n - 1])) && q == keys[n - 1] {
                assert(keys[n - 1] == q);
            }
        }
    } else {
        assert forall|q: Seq<u8>|
            #[trigger] keys_inserted(vals, keys, n, observed_only).contains(q) <==> key_seen(
                vals,
                keys,
                q,
                n,
                observed_only,
            ) by {}
    }
}

/// Every grouping has a key order.
pub proof fn lemma_key_order_exists(vals: Seq<u64>, keys: Seq<Seq<u8>>, observed_only: bool)
    ensures
        is_key_order(key_order(vals, keys, observed_only), vals, keys, observed_only),
{
    lemma_keys_inserted(vals, keys, keys.len() as int, observed_only);
    assert(is_key_order(
        keys_inserted(vals, keys, keys.len() as int, observed_only),
        vals,
        keys,
        observed_only,
    ));
}

/// `reduce` gives one result for equal inputs.
pub open spec fn deterministic<F: Fn(Agg, &Vec<u64>) -> u64>(reduce: F) -> bool {
    forall|a: Agg, v1: Vec<u64>, v2: Vec<u64>, r1: u64, r2: u64|
        #![trigger call_ensures(reduce, (a, &v1), r1), call_ensures(reduce, (a, &v2), r2)]
        v1@ == v2@ && call_ensures(reduce, (a, &v1), r1) && call_ensures(reduce, (a, &v2), r2)
            ==> r1 == r2
}

proof fn lemma_group_values_len(vals: Seq<u64>, keys: Seq<Seq<u8>>, k: Seq<u8>, n: int)
    requires
        0 <= n,
    ensures
        group_values(vals, keys, k, n).len() <= n,
    decreases n,
{
    if n > 0 {
        lemma_group_values_len(vals, keys, k, n - 1);
    }
}

/// A column of a multi-aggregate group-by equals the column that the
/// single-aggregate group-by of the same aggregate gives over the same input,
/// key for key, when the reduction is deterministic.
pub proof fn lemma_multi_matches_single<F: Fn(Agg, &Vec<u64>) -> u64>(
    reduce: F,
    agg: Agg,
    vals: Seq<u64>,
    keys: Seq<Seq<u8>>,
    col_multi: Seq<u64>,
    col_single: Seq<u64>,
)
    requires
        deterministic(reduce),
        vals.len() == keys.len(),
        vals.len() < pow2(53),
        is_agg_column(reduce, agg, col_multi, vals, keys, observed_only(agg)),
        is_agg_column(reduce, agg, col_single, vals, keys, observed_only(agg)),
    ensures
        col_multi == col_single,
{
    let ks = key_order(vals, keys, observed_only(agg));
    assert forall|g: int| 0 <= g < ks.len() implies col_multi[g] == col_single[g] by {
        let grp = group_values(vals, keys, ks[g], keys.len() as int);
        lemma_group_values_len(vals, keys, ks[g], keys.len() as int);
        assert(agg_value(reduce, agg, grp, col_multi[g]));
        assert(agg_value(reduce, agg, grp, col_single[g]));
        if reduced(reduce, agg, grp, col_multi[g]) && reduced(reduce, agg, grp, col_single[g]) {
            let v1 = choose|v1: Vec<u64>| v1@ == grp && #[trigger] call_ensures(reduce, (agg, &v1), col_multi[g]);
            let v2 = choose|v2: Vec<u64>| v2@ == grp && #[trigger] call_ensures(reduce, (agg, &v2), col_single[g]);
            assert(call_ensures(reduce, (agg, &v1), col_multi[g]));
            assert(call_ensures(reduce, (agg, &v2), col_single[g]));
        }
    }
    assert(col_multi =~= col_single);
}

} // verus!
