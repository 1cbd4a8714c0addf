//! The buffer registry: series addressed by handles, with allocation, release,
//! bulk flush and usage accounting.
use vstd::prelude::*;
use vstd::math::min;
use vstd::slice::slice_to_vec;

verus! {

/// Handle value that signals "no series could be produced".
pub const INVALID_HANDLE: u32 = 0xffff_ffff;

/// Bytes taken by one float64 element.
pub const F64_SIZE: usize = 8;

/// Bytes taken by one int32 element.
pub const I32_SIZE: usize = 4;

/// The handle issued after `h`: the counter wraps around on overflow.
pub open spec fn next_handle(h: u32) -> u32 {
    if h == u32::MAX {
        0
    } else {
        (h + 1) as u32
    }
}

/// No two entries of a table share a handle.
pub open spec fn ids_unique<T>(s: Seq<(u32, Vec<T>)>) -> bool {
    forall|i: int, j: int| 0 <= i < s.len() && 0 <= j < s.len() && i != j ==> s[i].0 != s[j].0
}

/// The contents of a table, by handle.
pub open spec fn table_view<T>(s: Seq<(u32, Vec<T>)>) -> Map<u32, Seq<T>>
    decreases s.len(),
{
    if s.len() == 0 {
        Map::empty()
    } else {
        table_view(s.drop_last()).insert(s.last().0, s.last().1@)
    }
}

/// Total number of elements held by a table.
pub open spec fn table_elems<T>(s: Seq<(u32, Vec<T>)>) -> nat
    decreases s.len(),
{
    if s.len() == 0 {
        0
    } else {
        table_elems(s.drop_last()) + s.last().1@.len()
    }
}

pub proof fn lemma_view_has_entry<T>(s: Seq<(u32, Vec<T>)>, i: int)
    requires
        ids_unique(s),
        0 <= i < s.len(),
    ensures
        table_view(s).contains_key(s[i].0),
        table_view(s)[s[i].0] == s[i].1@,
    decreases s.len(),
{
    if i < s.len() - 1 {
        lemma_view_has_entry(s.drop_last(), i);
    }
}

pub proof fn lemma_view_only_entries<T>(s: Seq<(u32, Vec<T>)>, id: u32)
    requires
        forall|i: int| 0 <= i < s.len() ==> s[i].0 != id,
    ensures
        !table_view(s).contains_key(id),
    decreases s.len(),
{
    if s.len() > 0 {
        lemma_view_only_entries(s.drop_last(), id);
    }
}

pub proof fn lemma_view_len<T>(s: Seq<(u32, Vec<T>)>)
    requires
        ids_unique(s),
    ensures
        table_view(s).dom().finite(),
        table_view(s).dom().len() == s.len(),
    decreases s.len(),
{
    if s.len() > 0 {
        let p = s.drop_last();
        lemma_view_len(p);
        lemma_view_only_entries(p, s.last().0);
    }
}

pub proof fn lemma_view_update<T>(s: Seq<(u32, Vec<T>)>, p: int, e: (u32, Vec<T>))
    requires
        ids_unique(s),
        0 <= p < s.len(),
        s[p].0 == e.0,
    ensures
        table_view(s.update(p, e)) == table_view(s).insert(e.0, e.1@),
        ids_unique(s.update(p, e)),
    decreases s.len(),
{
    let t = s.update(p, e);
    if p == s.len() - 1 {
        assert(t.drop_last() == s.drop_last());
        assert(table_view(t) =~= table_view(s).insert(e.0, e.1@));
    } else {
        assert(t.drop_last() == s.drop_last().update(p, e));
        lemma_view_update(s.drop_last(), p, e);
        assert(table_view(t) =~= table_view(s).insert(e.0, e.1@));
    }
}

pub proof fn lemma_view_remove<T>(s: Seq<(u32, Vec<T>)>, p: int)
    requires
        ids_unique(s),
        0 <= p < s.len(),
    ensures
        table_view(s.remove(p)) == table_view(s).remove(s[p].0),
        ids_unique(s.remove(p)),
    decreases s.len(),
{
    let t = s.remove(p);
    let id = s[p].0;
    if p == s.len() - 1 {
        assert(t == s.drop_last());
        lemma_view_only_entries(t, id);
        assert(table_view(t) =~= table_view(s).remove(id));
    } else {
        assert(t.drop_last() == s.drop_last().remove(p));
        lemma_view_remove(s.drop_last(), p);
        assert(t.last() == s.last());
        assert(table_view(t) =~= table_view(s).remove(id));
    }
}

/// Elements held by series `id` of a table; 0 when it is not live.
pub open spec fn held<T>(m: Map<u32, Seq<T>>, id: u32) -> nat {
    if m.contains_key(id) {
        m[id].len()
    } else {
        0
    }
}

proof fn lemma_elems_update<T>(s: Seq<(u32, Vec<T>)>, p: int, e: (u32, Vec<T>))
    requires
        0 <= p < s.len(),
    ensures
        table_elems(s.update(p, e)) + s[p].1@.len() == table_elems(s) + e.1@.len(),
    decreases s.len(),
{
    let t = s.update(p, e);
    if p == s.len() - 1 {
        assert(t.drop_last() == s.drop_last());
    } else {
        assert(t.drop_last() == s.drop_last().update(p, e));
        lemma_elems_update(s.drop_last(), p, e);
    }
}

proof fn lemma_elems_remove<T>(s: Seq<(u32, Vec<T>)>, p: int)
    requires
        0 <= p < s.len(),
    ensures
        table_elems(s.remove(p)) + s[p].1@.len() == table_elems(s),
    decreases s.len(),
{
    let t = s.remove(p);
    if p == s.len() - 1 {
        assert(t == s.drop_last());
    } else {
        assert(t.drop_last() == s.drop_last().remove(p));
        lemma_elems_remove(s.drop_last(), p);
    }
}

/// Elements held by the series of handles below `n`.
pub open spec fn held_below<T>(m: Map<u32, Seq<T>>, n: int) -> nat
    decreases n,
{
    if n <= 0 {
        0
    } else {
        held_below(m, n - 1) + held(m, (n - 1) as u32)
    }
}

/// Elements held by all series of a table: lengths summed over every handle.
pub open spec fn total_held<T>(m: Map<u32, Seq<T>>) -> nat {
    held_below(m, 0x1_0000_0000)
}

proof fn lemma_held_below_empty<T>(n: int)
    ensures
        held_below(Map::<u32, Seq<T>>::empty(), n) == 0,
    decreases n,
{
    if n > 0 {
        lemma_held_below_empty::<T>(n - 1);
    }
}

proof fn lemma_held_below_insert<T>(m: Map<u32, Seq<T>>, k: u32, d: Seq<T>, n: int)
    requires
        !m.contains_key(k),
        n <= 0x1_0000_0000,
    ensures
        held_below(m.insert(k, d), n) == held_below(m, n) + (if k < n {
            d.len()
        } else {
            0
        }),
    decreases n,
{
    if n > 0 {
        lemma_held_below_insert(m, k, d, n - 1);
        let h = (n - 1) as u32;
        assert(h as int == n - 1);
    }
}

/// With unique handles, the elements stored are those the contents hold.
proof fn lemma_elems_total<T>(s: Seq<(u32, Vec<T>)>)
    requires
        ids_unique(s),
    ensures
        table_elems(s) == total_held(table_view(s)),
    decreases s.len(),
{
    if s.len() == 0 {
        lemma_held_below_empty::<T>(0x1_0000_0000);
    } else {
        let p = s.drop_last();
        lemma_elems_total(p);
        lemma_view_only_entries(p, s.last().0);
        lemma_held_below_insert(table_view(p), s.last().0, s.last().1@, 0x1_0000_0000);
    }
}

/// Position of the entry with handle `id`, if any.
fn find_entry<T>(store: &Vec<(u32, Vec<T>)>, id: u32) -> (r: Option<usize>)
    ensures
        match r {
            Some(p) => p < store@.len() && store@[p as int].0 == id,
            None => forall|i: int| 0 <= i < store@.len() ==> store@[i].0 != id,
        },
{
    let mut i: usize = 0;
    while i < store.len()
        invariant
            i <= store@.len(),
            forall|k: int| 0 <= k < i ==> store@[k].0 != id,
        decreases store.len() - i,
    {
        if store[i].0 == id {
            return Some(i);
        }
        i = i + 1;
    }
    None
}

/// Registry of float64 and int32 series. Float64 elements are held as their
/// IEEE-754 bit patterns, which keeps the buffer layout of a `[f64]`.
pub struct EngineState {
    next_series_id: u32,
    series_store: Vec<(u32, Vec<u64>)>,
    series_store_i32: Vec<(u32, Vec<i32>)>,
}

impl EngineState {
    /// Handles are unique within each table.
    pub closed spec fn wf(&self) -> bool {
        ids_unique(self.series_store@) && ids_unique(self.series_store_i32@)
    }

    /// The live float64 series, by handle.
    pub closed spec fn f64_series(&self) -> Map<u32, Seq<u64>> {
        table_view(self.series_store@)
    }

    /// The live int32 series, by handle.
    pub closed spec fn i32_series(&self) -> Map<u32, Seq<i32>> {
        table_view(self.series_store_i32@)
    }

    /// The handle that the next allocation receives.
    pub closed spec fn next_id(&self) -> u32 {
        self.next_series_id
    }

    /// Bytes held by all live series: 8 per float64 element and 4 per int32
    /// element.
    pub open spec fn bytes_in_use(&self) -> nat {
        F64_SIZE as nat * total_held(self.f64_series()) + I32_SIZE as nat * total_held(
            self.i32_series(),
        )
    }

    /// `bytes_in_use`, counted over the stored entries.
    closed spec fn stored_bytes(&self) -> nat {
        F64_SIZE as nat * table_elems(self.series_store@) + I32_SIZE as nat * table_elems(
            self.series_store_i32@,
        )
    }

    proof fn lemma_stored_bytes(&self)
        requires
            self.wf(),
        ensures
            self.bytes_in_use() == self.stored_bytes(),
    {
        lemma_elems_total(self.series_store@);
        lemma_elems_total(self.series_store_i32@);
    }

    /// Both tables hold finitely many series.
    pub proof fn lemma_finite(&self)
        requires
            self.wf(),
        ensures
            self.f64_series().dom().finite(),
            self.i32_series().dom().finite(),
    {
        lemma_view_len(self.series_store@);
        lemma_view_len(self.series_store_i32@);
    }

    /// An empty registry whose first handle is 0.
    pub fn new() -> (r: EngineState)
        ensures
            r.wf(),
            r.f64_series() == Map::<u32, Seq<u64>>::empty(),
            r.i32_series() == Map::<u32, Seq<i32>>::empty(),
            r.next_id() == 0,
            r.bytes_in_use() == 0,
    {
        let r = EngineState {
            next_series_id: 0,
            series_store: Vec::new(),
            series_store_i32: Vec::new(),
        };
        proof {
            r.lemma_stored_bytes();
        }
        r
    }

    /// Storage sized exactly to `data`, holding a copy of it.
    pub fn alloc_f64_buffer(&mut self, data: &[u64]) -> (r: Vec<u64>)
        ensures
            r@ == data@,
            *final(self) == *old(self),
    {
        slice_to_vec(data)
    }

    /// Releases storage that `alloc_f64_buffer` gave.
    pub fn free_f64_buffer(&mut self, buf: Vec<u64>)
        ensures
            *final(self) == *old(self),
    {
        let _released = buf;
    }

    /// Storage sized exactly to `data`, holding a copy of it.
    pub fn alloc_i32_buffer(&mut self, data: &[i32]) -> (r: Vec<i32>)
        ensures
            r@ == data@,
            *final(self) == *old(self),
    {
        slice_to_vec(data)
    }

    /// Releases storage that `alloc_i32_buffer` gave.
    pub fn free_i32_buffer(&mut self, buf: Vec<i32>)
        ensures
            *final(self) == *old(self),
    {
        let _released = buf;
    }

    /// The contents of float64 series `id`, if it is live.
    pub fn get_f64(&self, id: u32) -> (r: Option<&Vec<u64>>)
        requires
            self.wf(),
        ensures
            match r {
                Some(v) => self.f64_series().contains_key(id) && v@ == self.f64_series()[id],
                None => !self.f64_series().contains_key(id),
            },
    {
        match find_entry(&self.series_store, id) {
            Some(p) => {
                proof {
                    lemma_view_has_entry(self.series_store@, p as int);
                }
                Some(&self.series_store[p].1)
            },
            None => {
                proof {
                    lemma_view_only_entries(self.series_store@, id);
                }
                None
            },
        }
    }

    /// The contents of int32 series `id`, if it is live.
    pub fn get_i32(&self, id: u32) -> (r: Option<&Vec<i32>>)
        requires
            self.wf(),
        ensures
            match r {
                Some(v) => self.i32_series().contains_key(id) && v@ == self.i32_series()[id],
                None => !self.i32_series().contains_key(id),
            },
    {
        match find_entry(&self.series_store_i32, id) {
            Some(p) => {
                proof {
                    lemma_view_has_entry(self.series_store_i32@, p as int);
                }
                Some(&self.series_store_i32[p].1)
            },
            None => {
                proof {
                    lemma_view_only_entries(self.series_store_i32@, id);
                }
                None
            },
        }
    }

    /// Issues the next handle.
    fn take_handle(&mut self) -> (id: u32)
        ensures
            id == old(self).next_id(),
            final(self).next_id() == next_handle(id),
            final(self).series_store == old(self).series_store,
            final(self).series_store_i32 == old(self).series_store_i32,
    {
        let id = self.next_series_id;
        self.next_series_id = if id == u32::MAX {
            0
        } else {
            id + 1
        };
        id
    }

    /// Records `data` as a new float64 series under the next handle.
    pub fn register_f64(&mut self, data: Vec<u64>) -> (id: u32)
        requires
            old(self).wf(),
        ensures
            final(self).wf(),
            id == old(self).next_id(),
            final(self).next_id() == next_handle(id),
            final(self).f64_series() == old(self).f64_series().insert(id, data@),
            final(self).i32_series() == old(self).i32_series(),
            final(self).bytes_in_use() + F64_SIZE * held(old(self).f64_series(), id)
                == old(self).bytes_in_use() + F64_SIZE * data@.len(),
    {
        proof {
            self.lemma_stored_bytes();
        }
        let id = self.take_handle();
        match find_entry(&self.series_store, id) {
            Some(p) => {
                proof {
                    lemma_view_update(self.series_store@, p as int, (id, data));
                    lemma_view_has_entry(self.series_store@, p as int);
                    lemma_elems_update(self.series_store@, p as int, (id, data));
                }
                self.series_store.set(p, (id, data));
            },
            None => {
                let ghost before = self.series_store@;
                proof {
                    lemma_view_only_entries(before, id);
                }
                self.series_store.push((id, data));
                assert(self.series_store@.drop_last() == before);
            },
        }
        proof {
            self.lemma_stored_bytes();
        }
        id
    }

    /// Records `data` as a new int32 series under the next handle.
    pub fn register_i32(&mut self, data: Vec<i32>) -> (id: u32)
        requires
            old(self).wf(),
        ensures
            final(self).wf(),
            id == old(self).next_id(),
            final(self).next_id() == next_handle(id),
            final(self).i32_series() == old(self).i32_series().insert(id, data@),
            final(self).f64_series() == old(self).f64_series(),
            final(self).bytes_in_use() + I32_SIZE * held(old(self).i32_series(), id)
                == old(self).bytes_in_use() + I32_SIZE * data@.len(),
    {
        proof {
            self.lemma_stored_bytes();
        }
        let id = self.take_handle();
        match find_entry(&self.series_store_i32, id) {
            Some(p) => {
                proof {
                    lemma_view_update(self.series_store_i32@, p as int, (id, data));
                    lemma_view_has_entry(self.series_store_i32@, p as int);
                    lemma_elems_update(self.series_store_i32@, p as int, (id, data));
                }
                self.series_store_i32.set(p, (id, data));
            },
            None => {
                let ghost before = self.series_store_i32@;
                proof {
                    lemma_view_only_entries(before, id);
                }
                self.series_store_i32.push((id, data));
                assert(self.series_store_i32@.drop_last() == before);
            },
        }
        proof {
            self.lemma_stored_bytes();
        }
        id
    }
}

/// `a + b`, or `usize::MAX` where that does not fit.
fn add_capped(a: usize, b: usize) -> (r: usize)
    ensures
        r == min(a + b, usize::MAX as int),
{
    if a > usize::MAX - b {
        usize::MAX
    } else {
        a + b
    }
}

/// `a * b`, or `usize::MAX` where that does not fit.
fn mul_capped(a: usize, b: usize) -> (r: usize)
    requires
        b > 0,
    ensures
        r == min(a * b, usize::MAX as int),
{
    if a > usize::MAX / b {
        assert(a * b > usize::MAX) by (nonlinear_arith)
            requires
                a > usize::MAX / b,
                b > 0,
        ;
        usize::MAX
    } else {
        assert(a * b <= usize::MAX) by (nonlinear_arith)
            requires
                a <= usize::MAX / b,
                b > 0,
        ;
        a * b
    }
}

/// `acc` plus `size` bytes for each element of `store`, capped at `usize::MAX`.
fn add_table_bytes<T>(acc: usize, store: &Vec<(u32, Vec<T>)>, size: usize) -> (r: usize)
    requires
        size > 0,
    ensures
        r == min(acc + size * table_elems(store@), usize::MAX as int),
{
    let mut total = acc;
    let mut i: usize = 0;
    assert(table_elems(store@.take(0)) == 0);
    assert(size * 0 == 0);
    while i < store.len()
        invariant
            i <= store@.len(),
            size > 0,
            total == min(acc + size * table_elems(store@.take(i as int)), usize::MAX as int),
        decreases store.len() - i,
    {
        let ghost prefix = store@.take(i as int);
        assert(store@.take(i as int + 1).drop_last() == prefix);
        let bytes = mul_capped(store[i].1.len(), size);
        total = add_capped(total, bytes);
        proof {
            let e = store@[i as int].1@.len();
            assert(size * table_elems(store@.take(i as int + 1)) == size * table_elems(prefix)
                + size * e) by (nonlinear_arith)
                requires
                    table_elems(store@.take(i as int + 1)) == table_elems(prefix) + e,
            ;
            assert(e * size == size * e) by (nonlinear_arith);
            assert(size * table_elems(prefix) >= 0 && size * e >= 0) by (nonlinear_arith)
                requires
                    size > 0,
            ;
        }
        i = i + 1;
    }
    assert(store@.take(i as int) == store@);
    total
}

/// Copies `data` into a new float64 series and returns its handle.
pub fn engine_create_series_f64(eng: &mut EngineState, data: &[u64]) -> (id: u32)
    requires
        old(eng).wf(),
    ensures
        final(eng).wf(),
        id == old(eng).next_id(),
        final(eng).next_id() == next_handle(id),
        final(eng).f64_series() == old(eng).f64_series().insert(id, data@),
        final(eng).i32_series() == old(eng).i32_series(),
        final(eng).bytes_in_use() + F64_SIZE * held(old(eng).f64_series(), id)
            == old(eng).bytes_in_use() + F64_SIZE * data@.len(),
{
    let buf = eng.alloc_f64_buffer(data);
    eng.register_f64(buf)
}

/// Copies `data` into a new int32 series and returns its handle.
pub fn engine_create_series_i32(eng: &mut EngineState, data: &[i32]) -> (id: u32)
    requires
        old(eng).wf(),
    ensures
        final(eng).wf(),
        id == old(eng).next_id(),
        final(eng).next_id() == next_handle(id),
        final(eng).i32_series() == old(eng).i32_series().insert(id, data@),
        final(eng).f64_series() == old(eng).f64_series(),
        final(eng).bytes_in_use() + I32_SIZE * held(old(eng).i32_series(), id)
            == old(eng).bytes_in_use() + I32_SIZE * data@.len(),
{
    let buf = eng.alloc_i32_buffer(data);
    eng.register_i32(buf)
}

/// Releases float64 series `series_id`; nothing happens if it is not live.
pub fn engine_free_series(eng: &mut EngineState, series_id: u32)
    requires
        old(eng).wf(),
    ensures
        final(eng).wf(),
        final(eng).f64_series() == old(eng).f64_series().remove(series_id),
        final(eng).i32_series() == old(eng).i32_series(),
        final(eng).next_id() == old(eng).next_id(),
        final(eng).bytes_in_use() + F64_SIZE * held(old(eng).f64_series(), series_id)
            == old(eng).bytes_in_use(),
{
    proof {
        eng.lemma_stored_bytes();
    }
    match find_entry(&eng.series_store, series_id) {
        Some(p) => {
            proof {
                lemma_view_remove(eng.series_store@, p as int);
                lemma_view_has_entry(eng.series_store@, p as int);
                lemma_elems_remove(eng.series_store@, p as int);
            }
            let (_, buf) = eng.series_store.remove(p);
            eng.free_f64_buffer(buf);
        },
        None => {
            proof {
                lemma_view_only_entries(eng.series_store@, series_id);
                assert(eng.f64_series() =~= eng.f64_series().remove(series_id));
            }
        },
    }
    proof {
        eng.lemma_stored_bytes();
    }
}

/// Releases int32 series `series_id`; nothing happens if it is not live.
pub fn engine_free_series_i32(eng: &mut EngineState, series_id: u32)
    requires
        old(eng).wf(),
    ensures
        final(eng).wf(),
        final(eng).i32_series() == old(eng).i32_series().remove(series_id),
        final(eng).f64_series() == old(eng).f64_series(),
        final(eng).next_id() == old(eng).next_id(),
        final(eng).bytes_in_use() + I32_SIZE * held(old(eng).i32_series(), series_id)
            == old(eng).bytes_in_use(),
{
    proof {
        eng.lemma_stored_bytes();
    }
    match find_entry(&eng.series_store_i32, series_id) {
        Some(p) => {
            proof {
                lemma_view_remove(eng.series_store_i32@, p as int);
                lemma_view_has_entry(eng.series_store_i32@, p as int);
                lemma_elems_remove(eng.series_store_i32@, p as int);
            }
            let (_, buf) = eng.series_store_i32.remove(p);
            eng.free_i32_buffer(buf);
        },
        None => {
            proof {
                lemma_view_only_entries(eng.series_store_i32@, series_id);
                assert(eng.i32_series() =~= eng.i32_series().remove(series_id));
            }
        },
    }
    proof {
        eng.lemma_stored_bytes();
    }
}

/// Releases every series of both tables and restarts handles at 0.
pub fn engine_flush(eng: &mut EngineState)
    ensures
        final(eng).wf(),
        final(eng).f64_series() == Map::<u32, Seq<u64>>::empty(),
        final(eng).i32_series() == Map::<u32, Seq<i32>>::empty(),
        final(eng).next_id() == 0,
        final(eng).bytes_in_use() == 0,
{
    eng.series_store = Vec::new();
    eng.series_store_i32 = Vec::new();
    eng.next_series_id = 0;
    proof {
        eng.lemma_stored_bytes();
    }
}

/// Bytes held by all live series (capped at `usize::MAX`).
pub fn engine_memory_usage(eng: &EngineState) -> (r: usize)
    requires
        eng.wf(),
    ensures
        r == min(eng.bytes_in_use() as int, usize::MAX as int),
{
    proof {
        eng.lemma_stored_bytes();
    }
    let total = add_table_bytes(0, &eng.series_store, F64_SIZE);
    add_table_bytes(total, &eng.series_store_i32, I32_SIZE)
}

/// Number of live series in both tables (capped at `usize::MAX`).
pub fn engine_series_count(eng: &EngineState) -> (r: usize)
    requires
        eng.wf(),
    ensures
        r == min(
            (eng.f64_series().dom().len() + eng.i32_series().dom().len()) as int,
            usize::MAX as int,
        ),
{
    proof {
        lemma_view_len(eng.series_store@);
        lemma_view_len(eng.series_store_i32@);
    }
    add_capped(eng.series_store.len(), eng.series_store_i32.len())
}

/// After a flush no series is live, no byte is in use, and the next
/// allocation receives handle 0 (an allocation returns `next_id()`).
pub proof fn lemma_flush_clears(flushed: EngineState)
    requires
        flushed.f64_series() == Map::<u32, Seq<u64>>::empty(),
        flushed.i32_series() == Map::<u32, Seq<i32>>::empty(),
        flushed.next_id() == 0,
        flushed.bytes_in_use() == 0,
    ensures
        flushed.f64_series().dom().len() + flushed.i32_series().dom().len() == 0,
        min(flushed.bytes_in_use() as int, usize::MAX as int) == 0,
        flushed.next_id() == 0,
{
    assert(flushed.f64_series().dom() =~= Set::<u32>::empty());
    assert(flushed.i32_series().dom() =~= Set::<u32>::empty());
}

} // verus!
