//! Key ranges: the bounds of a scan, and the range that holds exactly the
//! keys with a given prefix.

use vstd::prelude::*;
use vstd::slice::{slice_subrange, slice_to_vec};
use crate::order::{all_max, lex_le, lex_lt};

verus! {

/// One end of a range of keys.
#[derive(Clone, Debug)]
pub enum Bound {
    /// The range reaches the key and holds it.
    Included(Vec<u8>),
    /// The range reaches the key and does not hold it.
    Excluded(Vec<u8>),
    /// The range has no limit on this side.
    Unbounded,
}

/// `key` is not below the lower bound `start`.
pub open spec fn after_start(start: Bound, key: Seq<u8>) -> bool {
    match start {
        Bound::Included(s) => lex_le(s@, key),
        Bound::Excluded(s) => lex_lt(s@, key),
        Bound::Unbounded => true,
    }
}

/// `key` is not above the upper bound `end`.
pub open spec fn before_end(end: Bound, key: Seq<u8>) -> bool {
    match end {
        Bound::Included(e) => lex_le(key, e@),
        Bound::Excluded(e) => lex_lt(key, e@),
        Bound::Unbounded => true,
    }
}

/// `key` lies in the range from `start` to `end`.
pub open spec fn in_range(start: Bound, end: Bound, key: Seq<u8>) -> bool {
    after_start(start, key) && before_end(end, key)
}

/// The entries of `s` whose key lies in the range, in the order of `s`.
pub open spec fn select<V>(s: Seq<(Seq<u8>, V)>, start: Bound, end: Bound) -> Seq<(Seq<u8>, V)> {
    s.filter(|e: (Seq<u8>, V)| in_range(start, end, e.0))
}

/// The entries of `s` whose key begins with `prefix`, in the order of `s`.
pub open spec fn select_prefix<V>(s: Seq<(Seq<u8>, V)>, prefix: Seq<u8>) -> Seq<(Seq<u8>, V)> {
    s.filter(|e: (Seq<u8>, V)| prefix.is_prefix_of(e.0))
}

/// The index of the last byte of `p` that is not `0xff`, or -1 where there
/// is none.
pub open spec fn last_below_max(p: Seq<u8>) -> int
    decreases p.len(),
{
    if p.len() == 0 {
        -1
    } else if p.last() != 0xffu8 {
        p.len() - 1
    } else {
        last_below_max(p.drop_last())
    }
}

/// The least key above every key that begins with `p`: `p` without its
/// trailing `0xff` bytes and with its last remaining byte raised by one.
/// There is none where `p` is empty or holds `0xff` bytes only.
pub open spec fn prefix_end(p: Seq<u8>) -> Option<Seq<u8>> {
    let i = last_below_max(p);
    if i < 0 {
        None
    } else {
        Some(p.take(i).push((p[i] + 1) as u8))
    }
}

/// The upper bound of the range of the keys that begin with `p`.
pub open spec fn prefix_upper(p: Seq<u8>, end: Bound) -> bool {
    match prefix_end(p) {
        Some(q) => end matches Bound::Excluded(e) && e@ == q,
        None => end is Unbounded,
    }
}

/// What `last_below_max` finds: the byte there is below `0xff`, and every
/// byte behind it is `0xff`.
pub proof fn lemma_last_below_max(p: Seq<u8>)
    ensures
        -1 <= last_below_max(p) < p.len(),
        last_below_max(p) >= 0 ==> p[last_below_max(p)] < 0xffu8,
        forall|j: int| last_below_max(p) < j < p.len() ==> p[j] == 0xffu8,
        last_below_max(p) < 0 <==> all_max(p),
    decreases p.len(),
{
    if p.len() > 0 && p.last() == 0xffu8 {
        let t = p.drop_last();
        lemma_last_below_max(t);
        assert(forall|j: int| 0 <= j < t.len() ==> t[j] == p[j]);
    }
}

/// Two strings with the same first byte are equal, ordered, or one the
/// prefix of the other, as their rests are.
proof fn lemma_skip_first(a: Seq<u8>, b: Seq<u8>)
    requires
        a.len() > 0,
        b.len() > 0,
        a[0] == b[0],
    ensures
        (a == b) == (a.skip(1) == b.skip(1)),
        a.is_prefix_of(b) == a.skip(1).is_prefix_of(b.skip(1)),
        lex_le(a, b) == lex_le(a.skip(1), b.skip(1)),
{
    if a.skip(1) == b.skip(1) {
        assert forall|i: int| 0 <= i < a.len() implies a[i] == b[i] by {
            if i > 0 {
                assert(a[i] == a.skip(1)[i - 1]);
                assert(b[i] == b.skip(1)[i - 1]);
            }
        }
        assert(a.len() == a.skip(1).len() + 1);
        assert(b.len() == b.skip(1).len() + 1);
        assert(a =~= b);
    }
    if a.is_prefix_of(b) {
        assert(a.skip(1) =~= b.skip(1).subrange(0, a.len() - 1)) by {
            assert forall|i: int| 0 <= i < a.len() - 1 implies a.skip(1)[i] == b.skip(1).subrange(
                0,
                a.len() - 1,
            )[i] by {
                assert(a[i + 1] == b.subrange(0, a.len() as int)[i + 1]);
            }
        }
    }
    if a.skip(1).is_prefix_of(b.skip(1)) {
        assert(a =~= b.subrange(0, a.len() as int)) by {
            assert forall|i: int| 0 <= i < a.len() implies a[i] == b.subrange(
                0,
                a.len() as int,
            )[i] by {
                if i > 0 {
                    assert(a[i] == a.skip(1)[i - 1]);
                    assert(a.skip(1)[i - 1] == b.skip(1).subrange(0, a.len() - 1)[i - 1]);
                }
            }
        }
    }
}

/// For a string of `0xff` bytes, the keys that begin with it are the keys
/// that do not sort before it.
pub proof fn lemma_prefix_of_all_max(p: Seq<u8>, key: Seq<u8>)
    requires
        all_max(p),
    ensures
        p.is_prefix_of(key) == lex_le(p, key),
    decreases p.len(),
{
    if p.len() == 0 {
        assert(p.is_prefix_of(key));
        if key.len() == 0 {
            assert(p =~= key);
        }
    } else if key.len() == 0 {
    } else if key[0] != 0xffu8 {
        assert(p[0] == 0xffu8);
        if p.is_prefix_of(key) {
            assert(p[0] == key.subrange(0, p.len() as int)[0]);
        }
    } else {
        assert(p[0] == 0xffu8);
        lemma_skip_first(p, key);
        assert(all_max(p.skip(1))) by {
            assert forall|i: int| 0 <= i < p.skip(1).len() implies p.skip(1)[i] == 0xffu8 by {
                assert(p.skip(1)[i] == p[i + 1]);
            }
        }
        lemma_prefix_of_all_max(p.skip(1), key.skip(1));
    }
}

/// Where `i` is the last index of `p` with a byte below `0xff`, the keys
/// that begin with `p` are those from `p` on that sort before `p` cut off
/// behind `i` with that byte raised by one.
proof fn lemma_prefix_below_end(p: Seq<u8>, i: int, key: Seq<u8>)
    requires
        0 <= i < p.len(),
        p[i] < 0xffu8,
        forall|j: int| i < j < p.len() ==> p[j] == 0xffu8,
    ensures
        p.is_prefix_of(key) == (lex_le(p, key) && lex_lt(key, p.take(i).push((p[i] + 1) as u8))),
    decreases i,
{
    let q = p.take(i).push((p[i] + 1) as u8);
    if key.len() == 0 {
    } else if i > 0 {
        assert(q[0] == p[0]);
        if p[0] != key[0] {
            if p.is_prefix_of(key) {
                assert(p[0] == key.subrange(0, p.len() as int)[0]);
            }
        } else {
            lemma_skip_first(p, key);
            let tail = p.skip(1);
            assert(tail[i - 1] == p[i]);
            assert forall|j: int| i - 1 < j < tail.len() implies tail[j] == 0xffu8 by {
                assert(tail[j] == p[j + 1]);
            }
            lemma_prefix_below_end(tail, i - 1, key.skip(1));
            assert(q.skip(1) =~= tail.take(i - 1).push((tail[i - 1] + 1) as u8));
        }
    } else {
        assert(q =~= seq![(p[0] + 1) as u8]);
        assert(q.skip(1).len() == 0);
        assert(!lex_lt(key.skip(1), q.skip(1)));
        if p[0] != key[0] {
            if p.is_prefix_of(key) {
                assert(p[0] == key.subrange(0, p.len() as int)[0]);
            }
        } else {
            lemma_skip_first(p, key);
            let tail = p.skip(1);
            assert(all_max(tail)) by {
                assert forall|j: int| 0 <= j < tail.len() implies tail[j] == 0xffu8 by {
                    assert(tail[j] == p[j + 1]);
                }
            }
            lemma_prefix_of_all_max(tail, key.skip(1));
        }
    }
}

/// The keys that begin with `p` are those of the range from `p`, included,
/// to `prefix_end(p)`, excluded; where `p` has no such end, those from `p` on.
pub proof fn lemma_prefix_range(p: Seq<u8>, key: Seq<u8>)
    ensures
        p.is_prefix_of(key) == (lex_le(p, key) && match prefix_end(p) {
            Some(q) => lex_lt(key, q),
            None => true,
        }),
{
    lemma_last_below_max(p);
    let i = last_below_max(p);
    if i < 0 {
        lemma_prefix_of_all_max(p, key);
    } else {
        lemma_prefix_below_end(p, i, key);
    }
}

/// The range that holds exactly the keys that begin with `prefix`.
pub fn prefix_range(prefix: &[u8]) -> (r: (Bound, Bound))
    ensures
        r.0 matches Bound::Included(s) && s@ == prefix@,
        prefix_upper(prefix@, r.1),
        forall|key: Seq<u8>| #[trigger] in_range(r.0, r.1, key) == prefix@.is_prefix_of(key),
{
    let start = Bound::Included(slice_to_vec(prefix));
    let mut n: usize = prefix.len();
    assert(prefix@.take(n as int) =~= prefix@);
    while n > 0 && prefix[n - 1] == 0xff
        invariant
            n <= prefix.len(),
            last_below_max(prefix@) == last_below_max(prefix@.take(n as int)),
        decreases n,
    {
        assert(prefix@.take(n as int).drop_last() =~= prefix@.take(n - 1));
        n = n - 1;
    }
    let end = if n == 0 {
        assert(prefix@.take(0).len() == 0);
        Bound::Unbounded
    } else {
        let mut e = slice_to_vec(slice_subrange(prefix, 0, n - 1));
        e.push(prefix[n - 1] + 1);
        Bound::Excluded(e)
    };
    proof {
        assert forall|key: Seq<u8>| #[trigger] in_range(start, end, key) == prefix@.is_prefix_of(
            key,
        ) by {
            lemma_prefix_range(prefix@, key);
        }
    }
    (start, end)
}

/// Two predicates that agree everywhere filter alike.
pub proof fn lemma_filter_agree<A>(s: Seq<A>, p: spec_fn(A) -> bool, q: spec_fn(A) -> bool)
    requires
        forall|a: A| #[trigger] p(a) == q(a),
    ensures
        s.filter(p) == s.filter(q),
    decreases s.len(),
{
    reveal_with_fuel(Seq::filter, 2);
    if s.len() > 0 {
        lemma_filter_agree(s.drop_last(), p, q);
    }
}

/// A range that holds exactly the keys with a prefix selects the entries
/// whose key begins with the prefix.
pub proof fn lemma_select_prefix<V>(
    s: Seq<(Seq<u8>, V)>,
    prefix: Seq<u8>,
    start: Bound,
    end: Bound,
)
    requires
        forall|key: Seq<u8>| #[trigger] in_range(start, end, key) == prefix.is_prefix_of(key),
    ensures
        select(s, start, end) == select_prefix(s, prefix),
{
    lemma_filter_agree(
        s,
        |e: (Seq<u8>, V)| in_range(start, end, e.0),
        |e: (Seq<u8>, V)| prefix.is_prefix_of(e.0),
    );
}

/// Where a predicate holds exactly on the indices from `lo` to `hi`,
/// filtering by it cuts out that stretch.
pub proof fn lemma_filter_is_subrange<A>(s: Seq<A>, pred: spec_fn(A) -> bool, lo: int, hi: int)
    requires
        0 <= lo <= hi <= s.len(),
        forall|i: int| 0 <= i < s.len() ==> (pred(#[trigger] s[i]) <==> lo <= i < hi),
    ensures
        s.filter(pred) == s.subrange(lo, hi),
    decreases s.len(),
{
    reveal_with_fuel(Seq::filter, 2);
    if s.len() == 0 {
        assert(s.filter(pred) =~= s.subrange(lo, hi));
    } else {
        let t = s.drop_last();
        let n = s.len() - 1;
        assert(forall|i: int| 0 <= i < t.len() ==> t[i] == s[i]);
        if hi <= n {
            assert(!pred(s[n]));
            lemma_filter_is_subrange(t, pred, lo, hi);
            assert(t.subrange(lo, hi) =~= s.subrange(lo, hi));
        } else if lo < hi {
            assert(pred(s[n]));
            lemma_filter_is_subrange(t, pred, lo, n);
            assert(t.subrange(lo, n).push(s[n]) =~= s.subrange(lo, hi));
        } else {
            assert(!pred(s[n]));
            lemma_filter_is_subrange(t, pred, n, n);
            assert(t.subrange(n, n) =~= s.subrange(lo, hi));
        }
    }
}

} // verus!
