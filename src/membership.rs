//! Set-membership tests: one flag byte per element, 1 when the element is
//! among the candidate values.
use vstd::prelude::*;
use std::collections::HashSet;
use crate::keys::{has_key, insert_key, lemma_utf8_injective, locate_key, strictly_sorted, utf8_key};
use vstd::utf8::encode_utf8;

verus! {

broadcast use vstd::std_specs::hash::group_hash_axioms;

/// `r[i]` is 1 when `data[i]` is among `values`, else 0.
pub fn isin_i32(data: &[i32], values: &[i32]) -> (r: Vec<u8>)
    ensures
        r@.len() == data@.len(),
        forall|i: int|
            0 <= i < data@.len() ==> #[trigger] r@[i] == (if values@.contains(data@[i]) {
                1u8
            } else {
                0u8
            }),
{
    let mut set: HashSet<i32> = HashSet::new();
    let mut j: usize = 0;
    while j < values.len()
        invariant
            j <= values@.len(),
            forall|x: i32| #[trigger] set@.contains(x) <==> values@.take(j as int).contains(x),
        decreases values.len() - j,
    {
        let ghost before = set@;
        set.insert(values[j]);
        assert forall|x: i32| #[trigger] set@.contains(x) <==> values@.take(j as int + 1).contains(
            x,
        ) by {
            assert(values@.take(j as int + 1) == values@.take(j as int).push(values@[j as int]));
            assert(set@ == before.insert(values@[j as int]));
            if x == values@[j as int] {
                assert(values@.take(j as int + 1)[j as int] == x);
            }
            if values@.take(j as int).contains(x) {
                let k = choose|k: int|
                    0 <= k < j && #[trigger] values@.take(j as int)[k] == x;
                assert(values@.take(j as int + 1)[k] == x);
            }
            if values@.take(j as int + 1).contains(x) && x != values@[j as int] {
                let k = choose|k: int|
                    0 <= k < j + 1 && #[trigger] values@.take(j as int + 1)[k] == x;
                assert(values@.take(j as int)[k] == x);
            }
        }
        j = j + 1;
    }
    assert(values@.take(j as int) == values@);
    let mut r: Vec<u8> = Vec::new();
    let mut i: usize = 0;
    while i < data.len()
        invariant
            i <= data@.len(),
            r@.len() == i,
            forall|x: i32| #[trigger] set@.contains(x) <==> values@.contains(x),
            forall|k: int|
                0 <= k < i ==> #[trigger] r@[k] == (if values@.contains(data@[k]) {
                    1u8
                } else {
                    0u8
                }),
        decreases data.len() - i,
    {
        let v = data[i];
        let hit = set.contains(&v);
        r.push(if hit {
            1u8
        } else {
            0u8
        });
        i = i + 1;
    }
    r
}

/// `r[i]` is 1 when `data[i]` equals one of `values`, else 0.
pub fn isin_string(data: Vec<String>, values: Vec<String>) -> (r: Vec<u8>)
    ensures
        r@.len() == data@.len(),
        forall|i: int|
            0 <= i < data@.len() ==> #[trigger] r@[i] == (if exists|j: int|
                0 <= j < values@.len() && #[trigger] values@[j]@ == data@[i]@ {
                1u8
            } else {
                0u8
            }),
{
    let mut set: Vec<Vec<u8>> = Vec::new();
    let mut j: usize = 0;
    while j < values.len()
        invariant
            j <= values@.len(),
            strictly_sorted(set@),
            forall|q: Seq<u8>|
                #[trigger] has_key(set@, q) <==> exists|k: int|
                    0 <= k < j && #[trigger] encode_utf8(values@[k]@) == q,
        decreases values.len() - j,
    {
        let k = utf8_key(&values[j]);
        insert_key(&mut set, k);
        assert forall|q: Seq<u8>| #[trigger] has_key(set@, q) <==> exists|k: int|
            0 <= k < j + 1 && #[trigger] encode_utf8(values@[k]@) == q by {
            if q == encode_utf8(values@[j as int]@) {
                assert(encode_utf8(values@[j as int]@) == q);
            }
        }
        j = j + 1;
    }
    let mut r: Vec<u8> = Vec::new();
    let mut i: usize = 0;
    while i < data.len()
        invariant
            i <= data@.len(),
            r@.len() == i,
            strictly_sorted(set@),
            forall|q: Seq<u8>|
                #[trigger] has_key(set@, q) <==> exists|k: int|
                    0 <= k < values@.len() && #[trigger] encode_utf8(values@[k]@) == q,
            forall|k: int|
                0 <= k < i ==> #[trigger] r@[k] == (if exists|j: int|
                    0 <= j < values@.len() && #[trigger] values@[j]@ == data@[k]@ {
                    1u8
                } else {
                    0u8
                }),
        decreases data.len() - i,
    {
        let key = utf8_key(&data[i]);
        let (found, pos) = locate_key(&set, &key);
        proof {
            let d = data@[i as int]@;
            if found {
                assert(has_key(set@, key@));
                let k = choose|k: int|
                    0 <= k < values@.len() && #[trigger] encode_utf8(values@[k]@) == key@;
                lemma_utf8_injective(values@[k]@, d);
                assert(values@[k]@ == d);
            } else {
                if exists|j: int| 0 <= j < values@.len() && #[trigger] values@[j]@ == d {
                    let j = choose|j: int| 0 <= j < values@.len() && #[trigger] values@[j]@ == d;
                    assert(encode_utf8(values@[j]@) == key@);
                    assert(has_key(set@, key@));
                }
            }
        }
        r.push(if found {
            1u8
        } else {
            0u8
        });
        i = i + 1;
    }
    r
}

} // verus!
