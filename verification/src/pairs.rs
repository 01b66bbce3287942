//! Sequences of key-value pairs in key order, and the maps that they stand for.

use crate::bytes;
use vstd::prelude::*;

verus! {

/// The keys of `s` increase strictly in byte order.
pub open spec fn sorted<X>(s: Seq<(Seq<u8>, X)>) -> bool {
    forall|i: int, j: int| 0 <= i < j < s.len() ==> bytes::lex_lt(#[trigger] s[i].0, #[trigger] s[j].0)
}

pub open spec fn has_key<X>(s: Seq<(Seq<u8>, X)>, k: Seq<u8>) -> bool {
    exists|i: int| 0 <= i < s.len() && #[trigger] s[i].0 == k
}

pub open spec fn index_of<X>(s: Seq<(Seq<u8>, X)>, k: Seq<u8>) -> int {
    choose|i: int| 0 <= i < s.len() && #[trigger] s[i].0 == k
}

/// The map that sends each key of `s` to its value.
pub open spec fn to_map<X>(s: Seq<(Seq<u8>, X)>) -> Map<Seq<u8>, X> {
    Map::new(|k: Seq<u8>| has_key(s, k), |k: Seq<u8>| s[index_of(s, k)].1)
}

pub proof fn lemma_key_unique<X>(s: Seq<(Seq<u8>, X)>, i: int, j: int)
    requires
        sorted(s),
        0 <= i < s.len(),
        0 <= j < s.len(),
        s[i].0 == s[j].0,
    ensures
        i == j,
{
    bytes::lemma_lex_irreflexive(s[i].0);
    if i < j {
        assert(bytes::lex_lt(s[i].0, s[j].0));
    } else if j < i {
        assert(bytes::lex_lt(s[j].0, s[i].0));
    }
}

pub proof fn lemma_to_map_at<X>(s: Seq<(Seq<u8>, X)>, i: int)
    requires
        sorted(s),
        0 <= i < s.len(),
    ensures
        has_key(s, s[i].0),
        to_map(s).contains_key(s[i].0),
        to_map(s)[s[i].0] == s[i].1,
        index_of(s, s[i].0) == i,
{
    assert(has_key(s, s[i].0));
    lemma_key_unique(s, i, index_of(s, s[i].0));
}

/// A new key inserted at its place keeps the order and extends the map.
pub proof fn lemma_insert<X>(s: Seq<(Seq<u8>, X)>, p: int, k: Seq<u8>, v: X)
    requires
        sorted(s),
        0 <= p <= s.len(),
        forall|i: int| 0 <= i < p ==> bytes::lex_lt(#[trigger] s[i].0, k),
        forall|i: int| p <= i < s.len() ==> bytes::lex_lt(k, #[trigger] s[i].0),
    ensures
        sorted(s.insert(p, (k, v))),
        !to_map(s).contains_key(k),
        to_map(s.insert(p, (k, v))) == to_map(s).insert(k, v),
{
    let t = s.insert(p, (k, v));
    bytes::lemma_lex_irreflexive(k);
    assert forall|i: int, j: int| 0 <= i < j < t.len() implies bytes::lex_lt(#[trigger] t[i].0, #[trigger] t[j].0) by {
        if i < p {
            assert(t[i] == s[i]);
        } else if i > p {
            assert(t[i] == s[i - 1]);
        }
        if j < p {
            assert(t[j] == s[j]);
        } else if j > p {
            assert(t[j] == s[j - 1]);
        }
    }
    assert(t[p] == (k, v));
    lemma_to_map_at(t, p);
    assert forall|q: Seq<u8>| #[trigger] to_map(t).contains_key(q) <==> to_map(s).insert(k, v).contains_key(q) by {
        if has_key(t, q) {
            let i = index_of(t, q);
            if i < p {
                assert(s[i].0 == q);
            } else if i > p {
                assert(s[i - 1].0 == q);
            }
        }
        if has_key(s, q) {
            let i = index_of(s, q);
            if i < p {
                assert(t[i].0 == q);
            } else {
                assert(t[i + 1].0 == q);
            }
        }
    }
    assert forall|q: Seq<u8>| #[trigger] to_map(t).contains_key(q) implies to_map(t)[q] == to_map(s).insert(k, v)[q] by {
        if q != k {
            let i = index_of(t, q);
            let j: int = if i < p {
                i
            } else {
                i - 1
            };
            assert(t[i] == s[j]);
            lemma_to_map_at(s, j);
        }
    }
    assert(to_map(t) =~= to_map(s).insert(k, v));
}

/// Replacing the value at a position replaces it in the map.
pub proof fn lemma_update<X>(s: Seq<(Seq<u8>, X)>, p: int, v: X)
    requires
        sorted(s),
        0 <= p < s.len(),
    ensures
        sorted(s.update(p, (s[p].0, v))),
        to_map(s).contains_key(s[p].0),
        to_map(s.update(p, (s[p].0, v))) == to_map(s).insert(s[p].0, v),
{
    let k = s[p].0;
    let t = s.update(p, (k, v));
    assert forall|i: int| 0 <= i < s.len() implies #[trigger] t[i].0 == s[i].0 by {}
    assert(sorted(t));
    lemma_to_map_at(s, p);
    lemma_to_map_at(t, p);
    assert forall|q: Seq<u8>| #[trigger] to_map(t).contains_key(q) <==> to_map(s).insert(k, v).contains_key(q) by {
        if has_key(t, q) {
            let i = index_of(t, q);
            assert(s[i].0 == q);
        }
        if has_key(s, q) {
            let i = index_of(s, q);
            assert(t[i].0 == q);
        }
    }
    assert forall|q: Seq<u8>| #[trigger] to_map(t).contains_key(q) implies to_map(t)[q] == to_map(s).insert(k, v)[q] by {
        if q != k {
            let i = index_of(t, q);
            assert(t[i] == s[i]);
            lemma_to_map_at(s, i);
        }
    }
    assert(to_map(t) =~= to_map(s).insert(k, v));
}

/// Dropping a position drops its key from the map.
pub proof fn lemma_remove<X>(s: Seq<(Seq<u8>, X)>, p: int)
    requires
        sorted(s),
        0 <= p < s.len(),
    ensures
        sorted(s.remove(p)),
        to_map(s).contains_key(s[p].0),
        to_map(s.remove(p)) == to_map(s).remove(s[p].0),
{
    let k = s[p].0;
    let t = s.remove(p);
    assert forall|i: int, j: int| 0 <= i < j < t.len() implies bytes::lex_lt(#[trigger] t[i].0, #[trigger] t[j].0) by {
        let a: int = if i < p { i } else { i + 1 };
        let b: int = if j < p { j } else { j + 1 };
        assert(t[i] == s[a] && t[j] == s[b]);
    }
    lemma_to_map_at(s, p);
    assert forall|q: Seq<u8>| #[trigger] to_map(t).contains_key(q) <==> to_map(s).remove(k).contains_key(q) by {
        if has_key(t, q) {
            let i = index_of(t, q);
            let a: int = if i < p { i } else { i + 1 };
            assert(s[a].0 == q);
            if q == k {
                lemma_key_unique(s, a, p);
            }
        }
        if has_key(s, q) && q != k {
            let i = index_of(s, q);
            let a: int = if i < p { i } else { i - 1 };
            assert(t[a].0 == q);
        }
    }
    assert forall|q: Seq<u8>| #[trigger] to_map(t).contains_key(q) implies to_map(t)[q] == to_map(s).remove(k)[q] by {
        let i = index_of(t, q);
        let a: int = if i < p { i } else { i + 1 };
        assert(t[i] == s[a]);
        lemma_to_map_at(s, a);
    }
    assert(to_map(t) =~= to_map(s).remove(k));
}

/// Whether a pair stands after `k`, or at it when `inclusive`.
pub open spec fn past<X>(k: Seq<u8>, inclusive: bool) -> spec_fn((Seq<u8>, X)) -> bool {
    |e: (Seq<u8>, X)| bytes::lex_lt(k, e.0) || (inclusive && e.0 == k)
}

/// The pairs of `s` whose key stands after `k`, or at it when `inclusive`.
pub open spec fn from_key<X>(s: Seq<(Seq<u8>, X)>, k: Seq<u8>, inclusive: bool) -> Seq<(Seq<u8>, X)> {
    s.filter(past(k, inclusive))
}

proof fn lemma_filter_suffix<X>(s: Seq<X>, f: spec_fn(X) -> bool, p: int)
    requires
        0 <= p <= s.len(),
        forall|i: int| 0 <= i < p ==> !f(#[trigger] s[i]),
        forall|i: int| p <= i < s.len() ==> f(#[trigger] s[i]),
    ensures
        s.filter(f) == s.subrange(p, s.len() as int),
    decreases s.len(),
{
    reveal(Seq::filter);
    if s.len() == 0 {
        assert(s.filter(f) =~= s.subrange(p, s.len() as int));
    } else if p == s.len() {
        let t = s.drop_last();
        lemma_filter_suffix(t, f, p - 1);
        assert(!f(s[s.len() - 1]));
        assert(t.subrange(p - 1, t.len() as int) =~= Seq::<X>::empty());
        assert(s.subrange(p, s.len() as int) =~= Seq::<X>::empty());
    } else {
        let t = s.drop_last();
        lemma_filter_suffix(t, f, p);
        assert(f(s[s.len() - 1]));
        assert(t.subrange(p, t.len() as int).push(s.last()) =~= s.subrange(p, s.len() as int));
    }
}

/// The pairs from a key on are those from one position on.
pub proof fn lemma_from_key<X>(s: Seq<(Seq<u8>, X)>, k: Seq<u8>, inclusive: bool, p: int)
    requires
        0 <= p <= s.len(),
        forall|i: int| 0 <= i < p ==> bytes::lex_lt(#[trigger] s[i].0, k) || (!inclusive && s[i].0 == k),
        forall|i: int| p <= i < s.len() ==> bytes::lex_lt(k, #[trigger] s[i].0) || (inclusive && s[i].0 == k),
    ensures
        from_key(s, k, inclusive) == s.subrange(p, s.len() as int),
{
    let f = past::<X>(k, inclusive);
    assert forall|i: int| 0 <= i < p implies !f(#[trigger] s[i]) by {
        bytes::lemma_lex_trichotomy(s[i].0, k);
    }
    lemma_filter_suffix(s, f, p);
}

/// Two ordered sequences that stand for one map are the same sequence.
pub proof fn lemma_sorted_unique<X>(s: Seq<(Seq<u8>, X)>, t: Seq<(Seq<u8>, X)>)
    requires
        sorted(s),
        sorted(t),
        to_map(s) == to_map(t),
    ensures
        s == t,
    decreases s.len(),
{
    if s.len() == 0 {
        if t.len() > 0 {
            lemma_to_map_at(t, 0);
            assert(has_key(s, t[0].0));
        }
        assert(s =~= t);
    } else {
        lemma_to_map_at(s, s.len() - 1);
        assert(has_key(t, s.last().0));
        assert(t.len() > 0);
        lemma_to_map_at(t, t.len() - 1);
        assert(has_key(s, t.last().0));
        let i = index_of(s, t.last().0);
        let j = index_of(t, s.last().0);
        if s.last().0 != t.last().0 {
            assert(bytes::lex_lt(s[i].0, s[s.len() - 1].0));
            assert(bytes::lex_lt(t[j].0, t[t.len() - 1].0));
            bytes::lemma_lex_trichotomy(s.last().0, t.last().0);
        }
        lemma_to_map_at(s, s.len() - 1);
        assert(s.last() == t.last());
        lemma_remove(s, s.len() - 1);
        lemma_remove(t, t.len() - 1);
        assert(s.remove(s.len() - 1) =~= s.drop_last());
        assert(t.remove(t.len() - 1) =~= t.drop_last());
        lemma_sorted_unique(s.drop_last(), t.drop_last());
        assert(s =~= s.drop_last().push(s.last()));
        assert(t =~= t.drop_last().push(t.last()));
    }
}

} // verus!
