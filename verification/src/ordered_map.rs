//! An ordered map from byte-string keys to values, kept as a vector of
//! entries in strictly ascending key order.
//!
//! The mathematical model of a map is its sequence of entries in key order.
//! Lookups, insertions and removals are stated over that sequence through
//! the rank of a key: the number of entries whose key sorts before it.

use vstd::prelude::*;
use crate::bound::{
    after_start, before_end, in_range, lemma_filter_is_subrange, select, Bound,
};
use crate::order::{
    key_eq, key_lt, lemma_lex_asymmetric, lemma_lex_irreflexive, lemma_lex_total,
    lemma_lex_transitive, lex_le, lex_lt,
};

verus! {

/// The keys of `s` are strictly ascending.
pub open spec fn ascending<V>(s: Seq<(Seq<u8>, V)>) -> bool {
    forall|i: int, j: int|
        #![trigger s[i], s[j]]
        0 <= i < j < s.len() ==> lex_lt(s[i].0, s[j].0)
}

/// The number of entries of `s` whose key sorts strictly before `key`.
pub open spec fn rank<V>(s: Seq<(Seq<u8>, V)>, key: Seq<u8>) -> int
    decreases s.len(),
{
    if s.len() == 0 {
        0
    } else {
        rank(s.drop_last(), key) + if lex_lt(s.last().0, key) {
            1int
        } else {
            0int
        }
    }
}

/// `s` holds an entry for `key`.
pub open spec fn has_key<V>(s: Seq<(Seq<u8>, V)>, key: Seq<u8>) -> bool {
    rank(s, key) < s.len() && s[rank(s, key)].0 == key
}

/// The value that `s` holds for `key`, if any.
pub open spec fn lookup<V>(s: Seq<(Seq<u8>, V)>, key: Seq<u8>) -> Option<V> {
    if has_key(s, key) {
        Some(s[rank(s, key)].1)
    } else {
        None
    }
}

/// `s` with `key` bound to `value`: the entry is replaced where the key is
/// present, and inserted at its place in the order where it is not.
pub open spec fn put<V>(s: Seq<(Seq<u8>, V)>, key: Seq<u8>, value: V) -> Seq<(Seq<u8>, V)> {
    if has_key(s, key) {
        s.update(rank(s, key), (key, value))
    } else {
        s.insert(rank(s, key), (key, value))
    }
}

/// `s` without its entry for `key`.
pub open spec fn del<V>(s: Seq<(Seq<u8>, V)>, key: Seq<u8>) -> Seq<(Seq<u8>, V)> {
    if has_key(s, key) {
        s.remove(rank(s, key))
    } else {
        s
    }
}

/// The entries of `s` as a map.
pub open spec fn as_map<V>(s: Seq<(Seq<u8>, V)>) -> Map<Seq<u8>, V> {
    Map::new(|k: Seq<u8>| has_key(s, k), |k: Seq<u8>| s[rank(s, k)].1)
}

/// The rank lies between zero and the number of entries.
pub proof fn lemma_rank_bounds<V>(s: Seq<(Seq<u8>, V)>, key: Seq<u8>)
    ensures
        0 <= rank(s, key) <= s.len(),
    decreases s.len(),
{
    if s.len() > 0 {
        lemma_rank_bounds(s.drop_last(), key);
    }
}

/// An index that splits `s` into the keys before `key` and the others is
/// the rank of `key`.
pub proof fn lemma_rank_unique<V>(s: Seq<(Seq<u8>, V)>, key: Seq<u8>, r: int)
    requires
        0 <= r <= s.len(),
        forall|i: int| 0 <= i < r ==> lex_lt(#[trigger] s[i].0, key),
        forall|i: int| r <= i < s.len() ==> !lex_lt(#[trigger] s[i].0, key),
    ensures
        rank(s, key) == r,
    decreases s.len(),
{
    if s.len() > 0 {
        let t = s.drop_last();
        assert(forall|i: int| 0 <= i < t.len() ==> t[i] == s[i]);
        if r == s.len() {
            assert(lex_lt(s[s.len() - 1].0, key));
            lemma_rank_unique(t, key, r - 1);
        } else {
            assert(!lex_lt(s[s.len() - 1].0, key));
            lemma_rank_unique(t, key, r);
        }
    }
}

/// In an ascending sequence the rank of a key splits the entries: those
/// before it have smaller keys, those from it on do not.
pub proof fn lemma_rank_split<V>(s: Seq<(Seq<u8>, V)>, key: Seq<u8>)
    requires
        ascending(s),
    ensures
        0 <= rank(s, key) <= s.len(),
        forall|i: int| 0 <= i < rank(s, key) ==> lex_lt(#[trigger] s[i].0, key),
        forall|i: int| rank(s, key) <= i < s.len() ==> !lex_lt(#[trigger] s[i].0, key),
    decreases s.len(),
{
    if s.len() > 0 {
        let t = s.drop_last();
        let n = s.len() - 1;
        assert(forall|i: int| 0 <= i < t.len() ==> t[i] == s[i]);
        assert(ascending(t)) by {
            assert forall|i: int, j: int|
                #![trigger t[i], t[j]]
                0 <= i < j < t.len() implies lex_lt(t[i].0, t[j].0) by {
                assert(lex_lt(s[i].0, s[j].0));
            }
        }
        lemma_rank_split(t, key);
        if lex_lt(s[n].0, key) {
            if rank(t, key) < n {
                let i = rank(t, key);
                assert(!lex_lt(t[i].0, key));
                assert(lex_lt(s[i].0, s[n].0));
                lemma_lex_transitive(s[i].0, s[n].0, key);
            }
        }
    }
}

/// In an ascending sequence the entry at index `i` is the one found for its
/// own key.
pub proof fn lemma_rank_of_member<V>(s: Seq<(Seq<u8>, V)>, i: int)
    requires
        ascending(s),
        0 <= i < s.len(),
    ensures
        rank(s, s[i].0) == i,
        has_key(s, s[i].0),
        lookup(s, s[i].0) == Some(s[i].1),
{
    let key = s[i].0;
    assert forall|j: int| 0 <= j < i implies lex_lt(#[trigger] s[j].0, key) by {
        assert(lex_lt(s[j].0, s[i].0));
    }
    assert forall|j: int| i <= j < s.len() implies !lex_lt(#[trigger] s[j].0, key) by {
        if j == i {
            lemma_lex_irreflexive(key);
        } else {
            assert(lex_lt(s[i].0, s[j].0));
            lemma_lex_asymmetric(s[i].0, s[j].0);
        }
    }
    lemma_rank_unique(s, key, i);
}

/// Binding a key keeps the sequence ascending, and changes what is found
/// for that key only.
pub proof fn lemma_put<V>(s: Seq<(Seq<u8>, V)>, key: Seq<u8>, value: V)
    requires
        ascending(s),
    ensures
        ascending(put(s, key, value)),
        rank(put(s, key, value), key) == rank(s, key),
        lookup(put(s, key, value), key) == Some(value),
        forall|k: Seq<u8>| k != key ==> #[trigger] lookup(put(s, key, value), k) == lookup(s, k),
        as_map(put(s, key, value)) == as_map(s).insert(key, value),
        put(s, key, value).len() == s.len() + if has_key(s, key) { 0int } else { 1int },
{
    let r = rank(s, key);
    let t = put(s, key, value);
    lemma_rank_split(s, key);
    if has_key(s, key) {
        assert forall|i: int, j: int|
            #![trigger t[i], t[j]]
            0 <= i < j < t.len() implies lex_lt(t[i].0, t[j].0) by {
            assert(lex_lt(s[i].0, s[j].0));
        }
        assert forall|k: Seq<u8>| #[trigger] rank(t, k) == rank(s, k) by {
            lemma_rank_split(s, k);
            lemma_rank_unique(t, k, rank(s, k));
        }
        assert forall|k: Seq<u8>| k != key implies #[trigger] lookup(t, k) == lookup(s, k) by {
            assert(rank(t, k) == rank(s, k));
            lemma_rank_bounds(s, k);
        }
    } else {
        assert forall|i: int| r <= i < s.len() implies lex_lt(key, #[trigger] s[i].0) by {
            lemma_lex_total(key, s[i].0);
            if i > r {
                assert(lex_lt(s[r].0, s[i].0));
                if s[i].0 == key {
                    assert(false);
                }
            }
        }
        assert forall|i: int, j: int|
            #![trigger t[i], t[j]]
            0 <= i < j < t.len() implies lex_lt(t[i].0, t[j].0) by {
            if j < r {
                assert(lex_lt(s[i].0, s[j].0));
            } else if j == r {
                assert(lex_lt(s[i].0, key));
            } else if i < r {
                assert(lex_lt(s[i].0, s[j - 1].0));
            } else if i == r {
                assert(lex_lt(key, s[j - 1].0));
            } else {
                assert(lex_lt(s[i - 1].0, s[j - 1].0));
            }
        }
        lemma_rank_of_member(t, r);
        assert forall|k: Seq<u8>| k != key implies #[trigger] lookup(t, k) == lookup(s, k) by {
            lemma_rank_split(s, k);
            let q = rank(s, k);
            lemma_lex_total(k, key);
            if lex_lt(key, k) {
                // the new entry sorts before `k`: everything from it on moves up by one
                assert(q >= r) by {
                    if q < r {
                        assert(lex_lt(s[q].0, key));
                        lemma_lex_transitive(s[q].0, key, k);
                    }
                }
                assert forall|i: int| 0 <= i < q + 1 implies lex_lt(#[trigger] t[i].0, k) by {
                    if i < r {
                        assert(lex_lt(s[i].0, k));
                    } else if i > r {
                        assert(lex_lt(s[i - 1].0, k));
                    }
                }
                assert forall|i: int| q + 1 <= i < t.len() implies !lex_lt(
                    #[trigger] t[i].0,
                    k,
                ) by {
                    assert(!lex_lt(s[i - 1].0, k));
                }
                lemma_rank_unique(t, k, q + 1);
            } else {
                assert(lex_lt(k, key));
                assert(q <= r) by {
                    if q > r {
                        assert(lex_lt(s[r].0, k));
                        assert(lex_lt(key, s[r].0));
                        lemma_lex_transitive(key, s[r].0, k);
                        lemma_lex_asymmetric(key, k);
                    }
                }
                assert forall|i: int| 0 <= i < q implies lex_lt(#[trigger] t[i].0, k) by {
                    assert(lex_lt(s[i].0, k));
                }
                assert forall|i: int| q <= i < t.len() implies !lex_lt(#[trigger] t[i].0, k) by {
                    if i < r {
                        assert(!lex_lt(s[i].0, k));
                    } else if i == r {
                        lemma_lex_asymmetric(k, key);
                    } else {
                        assert(!lex_lt(s[i - 1].0, k));
                    }
                }
                lemma_rank_unique(t, k, q);
                if q == r {
                    assert(t[q].0 != k);
                    assert(!has_key(s, k)) by {
                        if q < s.len() && s[q].0 == k {
                            assert(lex_lt(key, s[q].0));
                            lemma_lex_asymmetric(key, k);
                        }
                    }
                }
            }
        }
    }
    assert(as_map(t) =~= as_map(s).insert(key, value)) by {
        assert forall|k: Seq<u8>| as_map(t).dom().contains(k) <==> as_map(s).insert(
            key,
            value,
        ).dom().contains(k) by {
            if k != key {
                assert(lookup(t, k) == lookup(s, k));
            }
        }
        assert forall|k: Seq<u8>| #[trigger] as_map(t).dom().contains(k) implies as_map(t)[k]
            == as_map(s).insert(key, value)[k] by {
            if k != key {
                assert(lookup(t, k) == lookup(s, k));
            }
        }
    }
}

/// Removing a key keeps the sequence ascending, and changes what is found
/// for that key only.
pub proof fn lemma_del<V>(s: Seq<(Seq<u8>, V)>, key: Seq<u8>)
    requires
        ascending(s),
    ensures
        ascending(del(s, key)),
        lookup(del(s, key), key) is None,
        forall|k: Seq<u8>| k != key ==> #[trigger] lookup(del(s, key), k) == lookup(s, k),
        as_map(del(s, key)) == as_map(s).remove(key),
        del(s, key).len() == s.len() - if has_key(s, key) { 1int } else { 0int },
{
    let r = rank(s, key);
    let t = del(s, key);
    lemma_rank_split(s, key);
    if has_key(s, key) {
        assert forall|i: int, j: int|
            #![trigger t[i], t[j]]
            0 <= i < j < t.len() implies lex_lt(t[i].0, t[j].0) by {
            let si = if i < r { i } else { i + 1 };
            let sj = if j < r { j } else { j + 1 };
            assert(lex_lt(s[si].0, s[sj].0));
        }
        assert forall|i: int| r <= i < t.len() implies lex_lt(key, #[trigger] t[i].0) by {
            assert(lex_lt(s[r].0, s[i + 1].0));
        }
        assert forall|i: int| r <= i < t.len() implies !lex_lt(#[trigger] t[i].0, key) by {
            assert(lex_lt(key, t[i].0));
            lemma_lex_asymmetric(key, t[i].0);
        }
        assert forall|i: int| 0 <= i < r implies lex_lt(#[trigger] t[i].0, key) by {
            assert(lex_lt(s[i].0, key));
        }
        lemma_rank_unique(t, key, r);
        assert(!has_key(t, key)) by {
            if r < t.len() {
                assert(lex_lt(key, t[r].0));
                lemma_lex_asymmetric(key, t[r].0);
            }
        }
        assert forall|k: Seq<u8>| k != key implies #[trigger] lookup(t, k) == lookup(s, k) by {
            lemma_rank_split(s, k);
            let q = rank(s, k);
            lemma_lex_total(k, key);
            if lex_lt(key, k) {
                assert(q > r) by {
                    if q <= r {
                        assert(!lex_lt(s[r].0, k));
                    }
                }
                assert forall|i: int| 0 <= i < q - 1 implies lex_lt(#[trigger] t[i].0, k) by {
                    let si = if i < r { i } else { i + 1 };
                    assert(lex_lt(s[si].0, k));
                }
                assert forall|i: int| q - 1 <= i < t.len() implies !lex_lt(
                    #[trigger] t[i].0,
                    k,
                ) by {
                    assert(!lex_lt(s[i + 1].0, k));
                }
                lemma_rank_unique(t, k, q - 1);
            } else {
                assert(lex_lt(k, key));
                assert(q <= r) by {
                    if q > r {
                        assert(lex_lt(s[r].0, k));
                        lemma_lex_asymmetric(key, k);
                    }
                }
                assert forall|i: int| 0 <= i < q implies lex_lt(#[trigger] t[i].0, k) by {
                    assert(lex_lt(s[i].0, k));
                }
                assert forall|i: int| q <= i < t.len() implies !lex_lt(#[trigger] t[i].0, k) by {
                    let si = if i < r { i } else { i + 1 };
                    assert(!lex_lt(s[si].0, k));
                }
                lemma_rank_unique(t, k, q);
                if q == r {
                    assert(!has_key(s, k));
                    if q < t.len() {
                        assert(lex_lt(key, t[q].0));
                        if t[q].0 == k {
                            lemma_lex_asymmetric(key, k);
                        }
                    }
                }
            }
        }
    }
    assert(as_map(t) =~= as_map(s).remove(key)) by {
        assert forall|k: Seq<u8>| as_map(t).dom().contains(k) <==> as_map(s).remove(
            key,
        ).dom().contains(k) by {
            if k != key {
                assert(lookup(t, k) == lookup(s, k));
            }
        }
        assert forall|k: Seq<u8>| #[trigger] as_map(t).dom().contains(k) implies as_map(t)[k]
            == as_map(s).remove(key)[k] by {
            if k != key {
                assert(lookup(t, k) == lookup(s, k));
            }
        }
    }
}

/// Two sequences with the same keys rank every key alike.
pub proof fn lemma_rank_same_keys<A, B>(a: Seq<(Seq<u8>, A)>, b: Seq<(Seq<u8>, B)>, key: Seq<u8>)
    requires
        a.len() == b.len(),
        forall|i: int| 0 <= i < a.len() ==> #[trigger] a[i].0 == b[i].0,
    ensures
        rank(a, key) == rank(b, key),
        has_key(a, key) == has_key(b, key),
    decreases a.len(),
{
    if a.len() > 0 {
        assert(a.last().0 == a[a.len() - 1].0);
        assert(a[a.len() - 1].0 == b[a.len() - 1].0);
        assert forall|i: int| 0 <= i < a.drop_last().len() implies #[trigger] a.drop_last()[i].0
            == b.drop_last()[i].0 by {
            assert(a[i].0 == b[i].0);
        }
        lemma_rank_same_keys(a.drop_last(), b.drop_last(), key);
    }
    lemma_rank_bounds(a, key);
    if rank(a, key) < a.len() {
        assert(a[rank(a, key)].0 == b[rank(a, key)].0);
    }
}

/// The number of entries of `s` whose key sorts before `key` or is `key`.
pub open spec fn rank_above<V>(s: Seq<(Seq<u8>, V)>, key: Seq<u8>) -> int {
    if has_key(s, key) {
        rank(s, key) + 1
    } else {
        rank(s, key)
    }
}

/// The index of the first entry of `s` that the lower bound admits.
pub open spec fn start_index<V>(s: Seq<(Seq<u8>, V)>, start: Bound) -> int {
    match start {
        Bound::Included(k) => rank(s, k@),
        Bound::Excluded(k) => rank_above(s, k@),
        Bound::Unbounded => 0,
    }
}

/// The index behind the last entry of `s` that the upper bound admits.
pub open spec fn end_index<V>(s: Seq<(Seq<u8>, V)>, end: Bound) -> int {
    match end {
        Bound::Included(k) => rank_above(s, k@),
        Bound::Excluded(k) => rank(s, k@),
        Bound::Unbounded => s.len() as int,
    }
}

/// The index behind the last entry of the range from `start` to `end`:
/// that of its first entry where the range is empty.
pub open spec fn last_index<V>(s: Seq<(Seq<u8>, V)>, start: Bound, end: Bound) -> int {
    if start_index(s, start) <= end_index(s, end) {
        end_index(s, end)
    } else {
        start_index(s, start)
    }
}

/// Two sequences with the same keys hold every range between the same
/// indices.
pub proof fn lemma_range_same_keys<A, B>(
    a: Seq<(Seq<u8>, A)>,
    b: Seq<(Seq<u8>, B)>,
    start: Bound,
    end: Bound,
)
    requires
        a.len() == b.len(),
        forall|i: int| 0 <= i < a.len() ==> #[trigger] a[i].0 == b[i].0,
    ensures
        start_index(a, start) == start_index(b, start),
        end_index(a, end) == end_index(b, end),
        last_index(a, start, end) == last_index(b, start, end),
{
    match start {
        Bound::Included(k) => lemma_rank_same_keys(a, b, k@),
        Bound::Excluded(k) => lemma_rank_same_keys(a, b, k@),
        Bound::Unbounded => {},
    }
    match end {
        Bound::Included(k) => lemma_rank_same_keys(a, b, k@),
        Bound::Excluded(k) => lemma_rank_same_keys(a, b, k@),
        Bound::Unbounded => {},
    }
}

/// In an ascending sequence the entries from `rank` on are those with a key
/// not below `key`, and the entries from `rank_above` on are those with a
/// key above `key`.
pub proof fn lemma_rank_sides<V>(s: Seq<(Seq<u8>, V)>, key: Seq<u8>)
    requires
        ascending(s),
    ensures
        0 <= rank(s, key) <= rank_above(s, key) <= s.len(),
        forall|i: int|
            0 <= i < s.len() ==> (lex_le(key, #[trigger] s[i].0) <==> rank(s, key) <= i),
        forall|i: int|
            0 <= i < s.len() ==> (lex_lt(key, #[trigger] s[i].0) <==> rank_above(s, key) <= i),
{
    lemma_rank_split(s, key);
    let r = rank(s, key);
    assert forall|i: int| 0 <= i < s.len() implies (lex_le(key, #[trigger] s[i].0) <==> r
        <= i) by {
        lemma_lex_total(key, s[i].0);
        if lex_lt(s[i].0, key) {
            lemma_lex_asymmetric(s[i].0, key);
        }
    }
    assert forall|i: int| 0 <= i < s.len() implies (lex_lt(key, #[trigger] s[i].0)
        <==> rank_above(s, key) <= i) by {
        lemma_lex_total(key, s[i].0);
        lemma_lex_irreflexive(key);
        if lex_lt(s[i].0, key) {
            lemma_lex_asymmetric(s[i].0, key);
        }
        if s[i].0 == key {
            lemma_rank_of_member(s, i);
        }
        if has_key(s, key) && i > r {
            assert(lex_lt(s[r].0, s[i].0));
        }
    }
}

/// In an ascending sequence the entries of a range are those between its
/// two indices.
pub proof fn lemma_select_is_subrange<V>(s: Seq<(Seq<u8>, V)>, start: Bound, end: Bound)
    requires
        ascending(s),
    ensures
        0 <= start_index(s, start) <= last_index(s, start, end) <= s.len(),
        select(s, start, end) == s.subrange(start_index(s, start), last_index(s, start, end)),
{
    let lo = start_index(s, start);
    let hi = end_index(s, end);
    let top = last_index(s, start, end);
    match start {
        Bound::Included(k) => lemma_rank_sides(s, k@),
        Bound::Excluded(k) => lemma_rank_sides(s, k@),
        Bound::Unbounded => {},
    }
    match end {
        Bound::Included(k) => lemma_rank_sides(s, k@),
        Bound::Excluded(k) => lemma_rank_sides(s, k@),
        Bound::Unbounded => {},
    }
    assert forall|i: int| 0 <= i < s.len() implies (after_start(start, #[trigger] s[i].0)
        <==> lo <= i) by {}
    assert forall|i: int| 0 <= i < s.len() implies (before_end(end, #[trigger] s[i].0) <==> i
        < hi) by {
        match end {
            Bound::Included(k) => {
                lemma_lex_total(k@, s[i].0);
                if lex_lt(k@, s[i].0) {
                    lemma_lex_asymmetric(k@, s[i].0);
                }
            },
            Bound::Excluded(k) => {
                lemma_lex_total(k@, s[i].0);
                if lex_lt(k@, s[i].0) {
                    lemma_lex_asymmetric(k@, s[i].0);
                }
                lemma_lex_irreflexive(k@);
            },
            Bound::Unbounded => {},
        }
    }
    let pred = |e: (Seq<u8>, V)| in_range(start, end, e.0);
    assert forall|i: int| 0 <= i < s.len() implies (pred(#[trigger] s[i]) <==> lo <= i < top) by {
        assert(after_start(start, s[i].0) <==> lo <= i);
        assert(before_end(end, s[i].0) <==> i < hi);
    }
    lemma_filter_is_subrange(s, pred, lo, top);
}

/// A stretch of an ascending sequence is ascending.
pub proof fn lemma_subrange_ascending<V>(s: Seq<(Seq<u8>, V)>, lo: int, hi: int)
    requires
        ascending(s),
        0 <= lo <= hi <= s.len(),
    ensures
        ascending(s.subrange(lo, hi)),
{
    let t = s.subrange(lo, hi);
    assert forall|i: int, j: int| #![trigger t[i], t[j]] 0 <= i < j < t.len() implies lex_lt(
        t[i].0,
        t[j].0,
    ) by {
        assert(lex_lt(s[lo + i].0, s[lo + j].0));
    }
}

/// The entries of a range of an ascending sequence are ascending.
pub proof fn lemma_select_ascending<V>(s: Seq<(Seq<u8>, V)>, start: Bound, end: Bound)
    requires
        ascending(s),
    ensures
        ascending(select(s, start, end)),
{
    lemma_select_is_subrange(s, start, end);
    lemma_subrange_ascending(s, start_index(s, start), last_index(s, start, end));
}

/// An ordered map from byte-string keys to values of type `V`.
pub struct OrderedMap<V> {
    items: Vec<(Vec<u8>, V)>,
}

impl<V> OrderedMap<V> {
    /// The entries in key order.
    pub closed spec fn entries(&self) -> Seq<(Seq<u8>, V)> {
        Seq::new(self.items@.len(), |i: int| (self.items@[i].0@, self.items@[i].1))
    }

    /// The keys are strictly ascending, so that no key occurs twice.
    pub open spec fn wf(&self) -> bool {
        ascending(self.entries())
    }

    /// The entries as a map.
    pub open spec fn view(&self) -> Map<Seq<u8>, V> {
        as_map(self.entries())
    }

    /// An empty map.
    pub fn new() -> (r: Self)
        ensures
            r.wf(),
            r.entries() == Seq::<(Seq<u8>, V)>::empty(),
    {
        let r = OrderedMap { items: Vec::new() };
        assert(r.entries() =~= Seq::<(Seq<u8>, V)>::empty());
        r
    }

    /// The number of entries.
    pub fn len(&self) -> (r: usize)
        ensures
            r == self.entries().len(),
    {
        self.items.len()
    }

    /// The rank of `key`: the index at which its entry stands, or would
    /// stand. Found by bisection.
    pub fn search(&self, key: &[u8]) -> (r: usize)
        requires
            self.wf(),
        ensures
            r == rank(self.entries(), key@),
            r <= self.entries().len(),
    {
        let ghost s = self.entries();
        let mut lo: usize = 0;
        let mut hi: usize = self.items.len();
        while lo < hi
            invariant
                s == self.entries(),
                ascending(s),
                lo <= hi <= s.len(),
                s.len() == self.items@.len(),
                forall|i: int| 0 <= i < lo ==> lex_lt(#[trigger] s[i].0, key@),
                forall|i: int| hi <= i < s.len() ==> !lex_lt(#[trigger] s[i].0, key@),
            decreases hi - lo,
        {
            let mid: usize = lo + (hi - lo) / 2;
            assert(s[mid as int].0 == self.items@[mid as int].0@);
            if key_lt(self.items[mid].0.as_slice(), key) {
                proof {
                    assert forall|i: int| 0 <= i < mid + 1 implies lex_lt(
                        #[trigger] s[i].0,
                        key@,
                    ) by {
                        if i < mid {
                            assert(lex_lt(s[i].0, s[mid as int].0));
                            lemma_lex_transitive(s[i].0, s[mid as int].0, key@);
                        }
                    }
                }
                lo = mid + 1;
            } else {
                proof {
                    assert forall|i: int| mid <= i < s.len() implies !lex_lt(
                        #[trigger] s[i].0,
                        key@,
                    ) by {
                        if i > mid && lex_lt(s[i].0, key@) {
                            assert(lex_lt(s[mid as int].0, s[i].0));
                            lemma_lex_transitive(s[mid as int].0, s[i].0, key@);
                        }
                    }
                }
                hi = mid;
            }
        }
        proof {
            lemma_rank_unique(s, key@, lo as int);
        }
        lo
    }

    /// The key of the entry at index `i`.
    pub fn key_at(&self, i: usize) -> (r: &Vec<u8>)
        requires
            i < self.entries().len(),
        ensures
            r@ == self.entries()[i as int].0,
    {
        &self.items[i].0
    }

    /// The value of the entry at index `i`.
    pub fn value_at(&self, i: usize) -> (r: &V)
        requires
            i < self.entries().len(),
        ensures
            *r == self.entries()[i as int].1,
    {
        &self.items[i].1
    }

    /// The value bound to `key`, if any.
    pub fn get(&self, key: &[u8]) -> (r: Option<&V>)
        requires
            self.wf(),
        ensures
            match r {
                Some(v) => lookup(self.entries(), key@) == Some(*v),
                None => lookup(self.entries(), key@) is None,
            },
    {
        let p = self.search(key);
        if p < self.items.len() && key_eq(self.items[p].0.as_slice(), key) {
            Some(&self.items[p].1)
        } else {
            None
        }
    }

    /// Binds `key` to `value` and returns the value it was bound to before.
    pub fn insert(&mut self, key: Vec<u8>, value: V) -> (r: Option<V>)
        requires
            old(self).wf(),
        ensures
            final(self).wf(),
            final(self).entries() == put(old(self).entries(), key@, value),
            final(self)@ == old(self)@.insert(key@, value),
            r == lookup(old(self).entries(), key@),
    {
        let ghost s = self.entries();
        let p = self.search(key.as_slice());
        proof {
            lemma_put(s, key@, value);
        }
        if p < self.items.len() && key_eq(self.items[p].0.as_slice(), key.as_slice()) {
            self.items.push((key, value));
            let previous = self.items.swap_remove(p);
            assert(self.entries() =~= put(s, key@, value));
            Some(previous.1)
        } else {
            self.items.insert(p, (key, value));
            assert(self.entries() =~= put(s, key@, value));
            None
        }
    }

    /// Removes the entry of `key` and returns the value it was bound to.
    pub fn remove(&mut self, key: &[u8]) -> (r: Option<V>)
        requires
            old(self).wf(),
        ensures
            final(self).wf(),
            final(self).entries() == del(old(self).entries(), key@),
            final(self)@ == old(self)@.remove(key@),
            r == lookup(old(self).entries(), key@),
    {
        let ghost s = self.entries();
        let p = self.search(key);
        proof {
            lemma_del(s, key@);
        }
        if p < self.items.len() && key_eq(self.items[p].0.as_slice(), key) {
            let previous = self.items.remove(p);
            assert(self.entries() =~= del(s, key@));
            Some(previous.1)
        } else {
            None
        }
    }

    /// The indices between which the entries of the range from `start` to
    /// `end` stand.
    pub fn range(&self, start: &Bound, end: &Bound) -> (r: (usize, usize))
        requires
            self.wf(),
        ensures
            r.0 <= r.1 <= self.entries().len(),
            r.0 == start_index(self.entries(), *start),
            r.1 == last_index(self.entries(), *start, *end),
            self.entries().subrange(r.0 as int, r.1 as int) == select(
                self.entries(),
                *start,
                *end,
            ),
    {
        proof {
            lemma_select_is_subrange(self.entries(), *start, *end);
        }
        let lo = match start {
            Bound::Included(k) => self.search(k.as_slice()),
            Bound::Excluded(k) => self.search_above(k.as_slice()),
            Bound::Unbounded => 0,
        };
        let hi = match end {
            Bound::Included(k) => self.search_above(k.as_slice()),
            Bound::Excluded(k) => self.search(k.as_slice()),
            Bound::Unbounded => self.items.len(),
        };
        if lo <= hi {
            (lo, hi)
        } else {
            (lo, lo)
        }
    }

    /// The index of the first entry whose key sorts strictly after `key`.
    pub fn search_above(&self, key: &[u8]) -> (r: usize)
        requires
            self.wf(),
        ensures
            r == rank_above(self.entries(), key@),
            r <= self.entries().len(),
    {
        let p = self.search(key);
        if p < self.items.len() && key_eq(self.items[p].0.as_slice(), key) {
            p + 1
        } else {
            p
        }
    }
}

} // verus!
