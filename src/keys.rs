//! String keys as UTF-8 byte sequences, ordered lexicographically by byte
//! (the order of `str`), and sorted sets of them.
use vstd::prelude::*;
use vstd::string::StrSliceExecFns;
use vstd::utf8::{encode_utf8, encode_utf8_decode_utf8};

verus! {

/// Lexicographic order on byte sequences: a proper prefix comes first.
pub open spec fn lex_lt(a: Seq<u8>, b: Seq<u8>) -> bool
    decreases a.len(),
{
    if a.len() == 0 {
        b.len() > 0
    } else if b.len() == 0 {
        false
    } else if a[0] != b[0] {
        a[0] < b[0]
    } else {
        lex_lt(a.drop_first(), b.drop_first())
    }
}

pub proof fn lemma_lex_irreflexive(a: Seq<u8>)
    ensures
        !lex_lt(a, a),
    decreases a.len(),
{
    if a.len() > 0 {
        lemma_lex_irreflexive(a.drop_first());
    }
}

pub proof fn lemma_lex_transitive(a: Seq<u8>, b: Seq<u8>, c: Seq<u8>)
    requires
        lex_lt(a, b),
        lex_lt(b, c),
    ensures
        lex_lt(a, c),
    decreases a.len(),
{
    if a.len() > 0 && a[0] == b[0] && b[0] == c[0] {
        lemma_lex_transitive(a.drop_first(), b.drop_first(), c.drop_first());
    }
}

pub proof fn lemma_lex_total(a: Seq<u8>, b: Seq<u8>)
    requires
        a != b,
    ensures
        lex_lt(a, b) || lex_lt(b, a),
    decreases a.len(),
{
    if a.len() > 0 && b.len() > 0 && a[0] == b[0] {
        if a.drop_first() == b.drop_first() {
            assert(a.drop_first().len() == a.len() - 1);
            assert(b.drop_first().len() == b.len() - 1);
            assert(a.len() == b.len());
            assert forall|i: int| 0 <= i < a.len() implies a[i] == b[i] by {
                if i > 0 {
                    assert(a[i] == a.drop_first()[i - 1]);
                    assert(b[i] == b.drop_first()[i - 1]);
                }
            }
            assert(a =~= b);
        } else {
            lemma_lex_total(a.drop_first(), b.drop_first());
        }
    } else if a.len() == 0 && b.len() == 0 {
        assert(a =~= b);
    }
}

/// The UTF-8 encoding tells strings apart.
pub proof fn lemma_utf8_injective(a: Seq<char>, b: Seq<char>)
    requires
        encode_utf8(a) == encode_utf8(b),
    ensures
        a == b,
{
    encode_utf8_decode_utf8(a);
    encode_utf8_decode_utf8(b);
}

/// The UTF-8 bytes of `s`.
pub fn utf8_key(s: &String) -> (r: Vec<u8>)
    ensures
        r@ == encode_utf8(s@),
{
    s.as_str().as_bytes_vec()
}

/// Negative, zero or positive as `a` comes before, equals or follows `b`.
pub fn compare_keys(a: &Vec<u8>, b: &Vec<u8>) -> (r: i8)
    ensures
        r < 0 <==> lex_lt(a@, b@),
        r == 0 <==> a@ == b@,
        r > 0 <==> lex_lt(b@, a@),
{
    proof {
        lemma_lex_irreflexive(a@);
        if a@ != b@ {
            lemma_lex_total(a@, b@);
            if lex_lt(a@, b@) && lex_lt(b@, a@) {
                lemma_lex_transitive(a@, b@, a@);
            }
        }
    }
    let mut i: usize = 0;
    assert(a@.skip(0) == a@);
    assert(b@.skip(0) == b@);
    while i < a.len() && i < b.len()
        invariant
            i <= a@.len(),
            i <= b@.len(),
            a@.take(i as int) == b@.take(i as int),
            lex_lt(a@, b@) == lex_lt(a@.skip(i as int), b@.skip(i as int)),
            lex_lt(b@, a@) == lex_lt(b@.skip(i as int), a@.skip(i as int)),
        decreases a.len() - i,
    {
        if a[i] < b[i] {
            return -1;
        }
        if a[i] > b[i] {
            return 1;
        }
        assert(a@.skip(i as int).drop_first() == a@.skip(i as int + 1));
        assert(b@.skip(i as int).drop_first() == b@.skip(i as int + 1));
        assert(a@.take(i as int + 1) == a@.take(i as int).push(a@[i as int]));
        assert(b@.take(i as int + 1) == b@.take(i as int).push(b@[i as int]));
        i = i + 1;
    }
    if a.len() < b.len() {
        -1
    } else if a.len() > b.len() {
        1
    } else {
        assert(a@ == a@.take(i as int));
        assert(b@ == b@.take(i as int));
        0
    }
}

/// Keys in strictly ascending order, hence distinct.
pub open spec fn strictly_sorted(ks: Seq<Vec<u8>>) -> bool {
    forall|i: int, j: int| 0 <= i < j < ks.len() ==> lex_lt(#[trigger] ks[i]@, #[trigger] ks[j]@)
}

/// `q` is one of the keys of `ks`.
pub open spec fn has_key(ks: Seq<Vec<u8>>, q: Seq<u8>) -> bool {
    exists|p: int| 0 <= p < ks.len() && #[trigger] ks[p]@ == q
}

/// Binary search for `k` in a strictly sorted key list: the number of keys
/// before it, and whether it is there.
pub fn locate_key(ks: &Vec<Vec<u8>>, k: &Vec<u8>) -> (r: (bool, usize))
    requires
        strictly_sorted(ks@),
    ensures
        r.1 <= ks@.len(),
        forall|p: int| 0 <= p < r.1 ==> lex_lt(#[trigger] ks@[p]@, k@),
        r.0 ==> r.1 < ks@.len() && ks@[r.1 as int]@ == k@,
        forall|p: int| r.1 <= p < ks@.len() && !(r.0 && p == r.1) ==> lex_lt(k@, #[trigger] ks@[p]@),
        !r.0 ==> forall|p: int| 0 <= p < ks@.len() ==> #[trigger] ks@[p]@ != k@,
{
    let mut lo: usize = 0;
    let mut hi: usize = ks.len();
    while lo < hi
        invariant
            strictly_sorted(ks@),
            lo <= hi <= ks@.len(),
            forall|p: int| 0 <= p < lo ==> lex_lt(#[trigger] ks@[p]@, k@),
            forall|p: int| hi <= p < ks@.len() ==> lex_lt(k@, #[trigger] ks@[p]@),
        decreases hi - lo,
    {
        let mid = lo + (hi - lo) / 2;
        let c = compare_keys(&ks[mid], k);
        if c == 0 {
            assert forall|p: int| mid < p < ks@.len() implies lex_lt(k@, #[trigger] ks@[p]@) by {
                assert(lex_lt(ks@[mid as int]@, ks@[p]@));
            }
            return (true, mid);
        } else if c < 0 {
            assert forall|p: int| 0 <= p < mid + 1 implies lex_lt(#[trigger] ks@[p]@, k@) by {
                if p < mid {
                    assert(lex_lt(ks@[p]@, ks@[mid as int]@));
                    lemma_lex_transitive(ks@[p]@, ks@[mid as int]@, k@);
                }
            }
            lo = mid + 1;
        } else {
            assert forall|p: int| mid <= p < ks@.len() implies lex_lt(k@, #[trigger] ks@[p]@) by {
                if p > mid {
                    assert(lex_lt(ks@[mid as int]@, ks@[p]@));
                    lemma_lex_transitive(k@, ks@[mid as int]@, ks@[p]@);
                }
            }
            hi = mid;
        }
    }
    assert forall|p: int| 0 <= p < ks@.len() implies #[trigger] ks@[p]@ != k@ by {
        lemma_lex_irreflexive(k@);
    }
    (false, lo)
}

/// Adds `k` to a strictly sorted key list unless it is there already.
pub fn insert_key(ks: &mut Vec<Vec<u8>>, k: Vec<u8>)
    requires
        strictly_sorted(old(ks)@),
    ensures
        strictly_sorted(final(ks)@),
        final(ks)@.len() <= old(ks)@.len() + 1,
        forall|q: Seq<u8>|
            #[trigger] has_key(final(ks)@, q) <==> (q == k@ || has_key(old(ks)@, q)),
{
    let (found, pos) = locate_key(ks, &k);
    if found {
        assert(forall|q: Seq<u8>| #[trigger] has_key(ks@, q) <==> (q == k@ || has_key(ks@, q)));
        return ;
    }
    let ghost before = ks@;
    let ghost kv = k@;
    ks.insert(pos, k);
    assert forall|i: int, j: int| 0 <= i < j < ks@.len() implies lex_lt(
        #[trigger] ks@[i]@,
        #[trigger] ks@[j]@,
    ) by {
        if j < pos {
            assert(ks@[i] == before[i] && ks@[j] == before[j]);
        } else if j == pos {
            assert(ks@[i] == before[i]);
        } else if i < pos {
            assert(ks@[i] == before[i] && ks@[j] == before[j - 1]);
            lemma_lex_transitive(before[i]@, kv, before[j - 1]@);
        } else if i == pos {
            assert(ks@[j] == before[j - 1]);
        } else {
            assert(ks@[i] == before[i - 1] && ks@[j] == before[j - 1]);
        }
    }
    assert forall|q: Seq<u8>| #[trigger] has_key(ks@, q) <==> (q == kv || has_key(before, q)) by {
        if has_key(ks@, q) {
            let p = choose|p: int| 0 <= p < ks@.len() && #[trigger] ks@[p]@ == q;
            if p < pos {
                assert(before[p]@ == q);
            } else if p > pos {
                assert(before[p - 1]@ == q);
            }
        }
        if q == kv {
            assert(ks@[pos as int]@ == q);
        }
        if has_key(before, q) {
            let p = choose|p: int| 0 <= p < before.len() && #[trigger] before[p]@ == q;
            if p < pos {
                assert(ks@[p]@ == q);
            } else {
                assert(ks@[p + 1]@ == q);
            }
        }
    }
}

} // verus!
