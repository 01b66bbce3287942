//! Sorted maps and sets whose copies share their storage.
//!
//! A `CowMap` keeps its entries in chunks behind `Arc`: a copy costs one
//! reference count per chunk, and a write to a map that somebody else also
//! holds copies the chunk it changes (one reference per entry) and the entry
//! itself, nothing else. Entries are ordered by key and a chunk splits once it
//! doubles, so lookups stay a binary search over the chunks and then within one.

use crate::bytes;
use crate::bytes::Place;
use crate::order::{Datum, OrderedKey};
use crate::pairs;
use std::sync::Arc;
use vstd::prelude::*;

verus! {

/// Entries per chunk; a chunk splits in two past twice this.
pub const CHUNK_ENTRIES: usize = 64;

/// Calls `Arc::clone`: another pointer to the same value.
#[verifier::external_body]
pub(crate) fn share<T>(a: &Arc<T>) -> (r: Arc<T>)
    ensures
        r == *a,
{
    Arc::clone(a)
}

/// Calls `Arc::make_mut`: access to the value of `a`, or to a clone of it that
/// `a` then holds where the value has other holders.
#[verifier::external_body]
fn make_mut<T: Clone>(a: &mut Arc<T>) -> (r: &mut T)
    ensures
        cloned::<T>(**old(a), *r),
        **final(a) == *final(r),
{
    Arc::make_mut(a)
}

/// Calls `Arc::try_unwrap`: the value where `a` is its only holder, else `a`.
#[verifier::external_body]
fn try_unwrap<T>(a: Arc<T>) -> (r: Result<T, Arc<T>>)
    ensures
        r matches Ok(t) ==> t == *a,
        r matches Err(b) ==> b == a,
{
    Arc::try_unwrap(a)
}

pub struct Entry<K, V> {
    pub key: K,
    pub value: V,
}

impl<K: OrderedKey, V: Datum> Entry<K, V> {
    pub open spec fn pair(&self) -> (Seq<u8>, V::V) {
        (self.key.rank(), self.value@)
    }
}


impl<K: OrderedKey, V: Datum> Clone for Entry<K, V> {
    fn clone(&self) -> (r: Self)
        ensures
            r.pair() == self.pair(),
            self.value.valid() ==> r.value.valid(),
    {
        Entry { key: self.key.same_place(), value: self.value.duplicate() }
    }
}

pub struct Chunk<K, V> {
    pub entries: Vec<Arc<Entry<K, V>>>,
}

impl<K: OrderedKey, V: Datum> Chunk<K, V> {
    pub open spec fn pairs(&self) -> Seq<(Seq<u8>, V::V)> {
        Seq::new(self.entries@.len(), |i: int| self.entries@[i].pair())
    }

    pub open spec fn valid(&self) -> bool {
        &&& 1 <= self.entries@.len() <= 2 * CHUNK_ENTRIES
        &&& forall|i: int| 0 <= i < self.entries@.len() ==> (#[trigger] self.entries@[i]).value.valid()
    }
}

impl<K: OrderedKey, V: Datum> Clone for Chunk<K, V> {
    fn clone(&self) -> (r: Self)
        ensures
            r.entries@ == self.entries@,
    {
        let mut entries: Vec<Arc<Entry<K, V>>> = Vec::new();
        let mut i: usize = 0;
        while i < self.entries.len()
            invariant
                i <= self.entries@.len(),
                entries@ == self.entries@.subrange(0, i as int),
            decreases self.entries@.len() - i,
        {
            entries.push(share(&self.entries[i]));
            assert(self.entries@.subrange(0, i + 1) =~= self.entries@.subrange(0, i as int).push(self.entries@[i as int]));
            i = i + 1;
        }
        assert(entries@ =~= self.entries@);
        Chunk { entries }
    }
}

/// The pairs of all chunks in order.
pub open spec fn flatten<K: OrderedKey, V: Datum>(chunks: Seq<Arc<Chunk<K, V>>>) -> Seq<(Seq<u8>, V::V)>
    decreases chunks.len(),
{
    if chunks.len() == 0 {
        Seq::empty()
    } else {
        flatten(chunks.drop_last()) + chunks.last().pairs()
    }
}

/// The sum of sizes.
pub open spec fn total(sizes: Seq<nat>) -> nat
    decreases sizes.len(),
{
    if sizes.len() == 0 {
        0
    } else {
        total(sizes.drop_last()) + sizes.last()
    }
}

pub open spec fn chunk_sizes_of<K: OrderedKey, V: Datum>(chunks: Seq<Arc<Chunk<K, V>>>) -> Seq<nat> {
    Seq::new(chunks.len(), |c: int| chunks[c].entries@.len())
}

proof fn lemma_total<K: OrderedKey, V: Datum>(chunks: Seq<Arc<Chunk<K, V>>>)
    ensures
        total(chunk_sizes_of(chunks)) == flatten(chunks).len(),
    decreases chunks.len(),
{
    if chunks.len() > 0 {
        lemma_total(chunks.drop_last());
        assert(chunk_sizes_of(chunks).drop_last() =~= chunk_sizes_of(chunks.drop_last()));
    }
}

/// How many pairs stand before chunk `c`.
pub open spec fn offset<K: OrderedKey, V: Datum>(chunks: Seq<Arc<Chunk<K, V>>>, c: int) -> int {
    flatten(chunks.subrange(0, c)).len() as int
}

proof fn lemma_flatten_concat<K: OrderedKey, V: Datum>(a: Seq<Arc<Chunk<K, V>>>, b: Seq<Arc<Chunk<K, V>>>)
    ensures
        flatten(a + b) == flatten(a) + flatten(b),
    decreases b.len(),
{
    if b.len() == 0 {
        assert(a + b =~= a);
        assert(flatten(a) + flatten(b) =~= flatten(a));
    } else {
        lemma_flatten_concat(a, b.drop_last());
        assert((a + b).drop_last() =~= a + b.drop_last());
        assert((a + b).last() == b.last());
        assert(flatten(a + b) =~= flatten(a) + flatten(b));
    }
}

proof fn lemma_flatten_one<K: OrderedKey, V: Datum>(c: Arc<Chunk<K, V>>)
    ensures
        flatten(seq![c]) == c.pairs(),
{
    let s = seq![c];
    assert(flatten(s.drop_last()) =~= Seq::<(Seq<u8>, V::V)>::empty());
    assert(flatten(s) =~= c.pairs());
}

/// The pairs before chunk `c`, those in it, and those after it.
proof fn lemma_flatten_split<K: OrderedKey, V: Datum>(chunks: Seq<Arc<Chunk<K, V>>>, c: int)
    requires
        0 <= c < chunks.len(),
    ensures
        flatten(chunks) == flatten(chunks.subrange(0, c)) + chunks[c].pairs() + flatten(
            chunks.subrange(c + 1, chunks.len() as int),
        ),
        offset(chunks, c + 1) == offset(chunks, c) + chunks[c].entries@.len(),
        offset(chunks, c + 1) <= flatten(chunks).len(),
{
    let a = chunks.subrange(0, c);
    let b = chunks.subrange(c + 1, chunks.len() as int);
    lemma_flatten_one(chunks[c]);
    assert(chunks =~= a + seq![chunks[c]] + b);
    lemma_flatten_concat(a + seq![chunks[c]], b);
    lemma_flatten_concat(a, seq![chunks[c]]);
    assert(chunks.subrange(0, c + 1) =~= a + seq![chunks[c]]);
}

proof fn lemma_offset_monotone<K: OrderedKey, V: Datum>(chunks: Seq<Arc<Chunk<K, V>>>, a: int, b: int)
    requires
        0 <= a <= b <= chunks.len(),
    ensures
        offset(chunks, a) <= offset(chunks, b) <= flatten(chunks).len(),
    decreases b - a,
{
    if a < b {
        lemma_offset_monotone(chunks, a, b - 1);
        lemma_flatten_split(chunks, b - 1);
    } else if a < chunks.len() {
        lemma_flatten_split(chunks, a);
    } else {
        assert(chunks.subrange(0, a) =~= chunks);
    }
}

/// Position `i` of chunk `c` is a position of the whole sequence.
proof fn lemma_flatten_index<K: OrderedKey, V: Datum>(chunks: Seq<Arc<Chunk<K, V>>>, c: int, i: int)
    requires
        0 <= c < chunks.len(),
        0 <= i < chunks[c].entries@.len(),
    ensures
        0 <= offset(chunks, c) + i < flatten(chunks).len(),
        flatten(chunks)[offset(chunks, c) + i] == chunks[c].entries@[i].pair(),
{
    lemma_flatten_split(chunks, c);
    assert(chunks[c].pairs()[i] == chunks[c].entries@[i].pair());
}

/// Every position of the whole sequence is a position of some chunk.
proof fn lemma_flatten_find<K: OrderedKey, V: Datum>(chunks: Seq<Arc<Chunk<K, V>>>, p: int) -> (r: (int, int))
    requires
        0 <= p < flatten(chunks).len(),
    ensures
        0 <= r.0 < chunks.len(),
        0 <= r.1 < chunks[r.0].entries@.len(),
        p == offset(chunks, r.0) + r.1,
    decreases chunks.len(),
{
    let last: int = chunks.len() - 1;
    let head = chunks.drop_last();
    assert(head =~= chunks.subrange(0, last));
    if p < flatten(head).len() {
        let r = lemma_flatten_find(head, p);
        assert(head.subrange(0, r.0) =~= chunks.subrange(0, r.0));
        r
    } else {
        (last, p - flatten(head).len())
    }
}

/// Putting another chunk at `c` replaces the pairs of that chunk.
proof fn lemma_flatten_update<K: OrderedKey, V: Datum>(chunks: Seq<Arc<Chunk<K, V>>>, c: int, chunk: Arc<Chunk<K, V>>)
    requires
        0 <= c < chunks.len(),
    ensures
        flatten(chunks.update(c, chunk)) == flatten(chunks.subrange(0, c)) + chunk.pairs() + flatten(
            chunks.subrange(c + 1, chunks.len() as int),
        ),
{
    let t = chunks.update(c, chunk);
    lemma_flatten_split(t, c);
    assert(t.subrange(0, c) =~= chunks.subrange(0, c));
    assert(t.subrange(c + 1, t.len() as int) =~= chunks.subrange(c + 1, chunks.len() as int));
}

/// One more entry in chunk `c` is one more pair of the whole.
proof fn lemma_flatten_grow<K: OrderedKey, V: Datum>(
    chunks: Seq<Arc<Chunk<K, V>>>,
    c: int,
    at: int,
    chunk: Arc<Chunk<K, V>>,
    fresh: Arc<Entry<K, V>>,
)
    requires
        0 <= c < chunks.len(),
        0 <= at <= chunks[c].entries@.len(),
        chunk.entries@ == chunks[c].entries@.insert(at, fresh),
    ensures
        flatten(chunks.update(c, chunk)) == flatten(chunks).insert(offset(chunks, c) + at, fresh.pair()),
{
    lemma_flatten_split(chunks, c);
    lemma_flatten_update(chunks, c, chunk);
    assert(chunk.pairs() =~= chunks[c].pairs().insert(at, fresh.pair()));
    assert(flatten(chunks.update(c, chunk)) =~= flatten(chunks).insert(offset(chunks, c) + at, fresh.pair()));
}

/// Parting chunk `c` in two changes no pair.
proof fn lemma_flatten_halves<K: OrderedKey, V: Datum>(
    chunks: Seq<Arc<Chunk<K, V>>>,
    c: int,
    lower: Arc<Chunk<K, V>>,
    upper: Arc<Chunk<K, V>>,
)
    requires
        0 <= c < chunks.len(),
        lower.entries@ + upper.entries@ == chunks[c].entries@,
    ensures
        flatten(chunks.update(c, lower).insert(c + 1, upper)) == flatten(chunks),
{
    let a = chunks.subrange(0, c);
    let b = chunks.subrange(c + 1, chunks.len() as int);
    assert(chunks.update(c, lower).insert(c + 1, upper) =~= a + seq![lower] + seq![upper] + b);
    lemma_flatten_concat(a + seq![lower] + seq![upper], b);
    lemma_flatten_concat(a + seq![lower], seq![upper]);
    lemma_flatten_concat(a, seq![lower]);
    lemma_flatten_one(lower);
    lemma_flatten_one(upper);
    lemma_flatten_split(chunks, c);
    assert forall|i: int| 0 <= i < chunks[c].entries@.len() implies (lower.pairs() + upper.pairs())[i] == chunks[c].pairs()[i] by {
        assert((lower.entries@ + upper.entries@)[i] == chunks[c].entries@[i]);
    }
    assert(lower.entries@.len() + upper.entries@.len() == chunks[c].entries@.len());
    assert(lower.pairs() + upper.pairs() =~= chunks[c].pairs());
    assert(flatten(chunks.update(c, lower).insert(c + 1, upper)) =~= flatten(chunks));
}

/// What a listing of entries stands for.
pub open spec fn entry_pairs<K: OrderedKey, V: Datum>(s: Seq<(&K, &V)>) -> Seq<(Seq<u8>, V::V)> {
    Seq::new(s.len(), |i: int| (s[i].0.rank(), s[i].1@))
}

pub open spec fn entries_valid<K: OrderedKey, V: Datum>(s: Seq<(&K, &V)>) -> bool {
    forall|i: int| 0 <= i < s.len() ==> (#[trigger] s[i]).1.valid()
}

pub struct CowMap<K, V> {
    /// Never holds an empty chunk.
    chunks: Vec<Arc<Chunk<K, V>>>,
}

impl<K: OrderedKey, V: Datum> View for CowMap<K, V> {
    type V = Map<Seq<u8>, V::V>;

    /// The map from the keys' byte strings to the values.
    open spec fn view(&self) -> Map<Seq<u8>, V::V> {
        pairs::to_map(self.pairs())
    }
}

impl<K: OrderedKey, V: Datum> CowMap<K, V> {
    /// The entries in key order.
    pub closed spec fn pairs(&self) -> Seq<(Seq<u8>, V::V)> {
        flatten(self.chunks@)
    }

    /// The number of entries in each chunk.
    pub closed spec fn sizes(&self) -> Seq<nat> {
        chunk_sizes_of(self.chunks@)
    }

    pub closed spec fn wf(&self) -> bool {
        &&& pairs::sorted(self.pairs())
        &&& forall|c: int| 0 <= c < self.chunks@.len() ==> (#[trigger] self.chunks@[c]).valid()
    }

    /// What a well-formed map keeps: strictly increasing keys, and chunks that
    /// are never empty and never over twice the chunk size.
    pub proof fn lemma_wf(&self)
        requires
            self.wf(),
        ensures
            pairs::sorted(self.pairs()),
            forall|c: int| 0 <= c < self.sizes().len() ==> 1 <= #[trigger] self.sizes()[c] <= 2 * CHUNK_ENTRIES,
    {
        assert forall|c: int| 0 <= c < self.sizes().len() implies 1 <= #[trigger] self.sizes()[c] <= 2 * CHUNK_ENTRIES by {
            assert(self.chunks@[c].valid());
        }
    }

    /// Every entry stands in one chunk: the sizes of the chunks add up to the
    /// number of entries.
    pub proof fn lemma_sizes_add_up(&self)
        ensures
            total(self.sizes()) == self.pairs().len(),
    {
        lemma_total(self.chunks@);
    }

    /// An empty map.
    pub fn new() -> (r: Self)
        ensures
            r.wf(),
            r.pairs() == Seq::<(Seq<u8>, V::V)>::empty(),
            r@ == Map::<Seq<u8>, V::V>::empty(),
    {
        let r = CowMap { chunks: Vec::new() };
        assert(r.pairs() =~= Seq::<(Seq<u8>, V::V)>::empty());
        assert(r@ =~= Map::<Seq<u8>, V::V>::empty());
        r
    }

    /// The number of entries.
    pub fn len(&self) -> (r: usize)
        requires
            self.wf(),
            self.pairs().len() <= usize::MAX,
        ensures
            r == self.pairs().len(),
    {
        let mut total: usize = 0;
        let mut c: usize = 0;
        assert(self.chunks@.subrange(0, 0) =~= Seq::<Arc<Chunk<K, V>>>::empty());
        while c < self.chunks.len()
            invariant
                c <= self.chunks@.len(),
                self.pairs().len() <= usize::MAX,
                total == offset(self.chunks@, c as int),
            decreases self.chunks@.len() - c,
        {
            proof {
                lemma_flatten_split(self.chunks@, c as int);
            }
            total = total + self.chunks[c].entries.len();
            c = c + 1;
        }
        assert(self.chunks@.subrange(0, c as int) =~= self.chunks@);
        total
    }

    pub fn is_empty(&self) -> (r: bool)
        requires
            self.wf(),
        ensures
            r == (self.pairs().len() == 0),
            r == (self@ == Map::<Seq<u8>, V::V>::empty()),
    {
        proof {
            if self.pairs().len() > 0 {
                pairs::lemma_to_map_at(self.pairs(), 0);
            } else {
                assert(self@ =~= Map::<Seq<u8>, V::V>::empty());
            }
            if self.chunks@.len() > 0 {
                lemma_flatten_index(self.chunks@, 0, 0);
            }
        }
        self.chunks.len() == 0
    }

    /// The number of entries in each chunk.
    pub fn chunk_sizes(&self) -> (r: Vec<usize>)
        ensures
            r@.len() == self.sizes().len(),
            forall|c: int| 0 <= c < r@.len() ==> #[trigger] r@[c] == self.sizes()[c],
    {
        let mut out: Vec<usize> = Vec::new();
        let mut c: usize = 0;
        while c < self.chunks.len()
            invariant
                c <= self.chunks@.len(),
                out@.len() == c,
                forall|i: int| 0 <= i < c ==> #[trigger] out@[i] == self.sizes()[i],
            decreases self.chunks@.len() - c,
        {
            out.push(self.chunks[c].entries.len());
            c = c + 1;
        }
        out
    }

    proof fn lemma_order(&self, c: int, i: int, d: int, j: int)
        requires
            self.wf(),
            0 <= c < self.chunks@.len(),
            0 <= i < self.chunks@[c].entries@.len(),
            0 <= d < self.chunks@.len(),
            0 <= j < self.chunks@[d].entries@.len(),
            c < d || (c == d && i < j),
        ensures
            bytes::lex_lt(self.chunks@[c].entries@[i].key.rank(), self.chunks@[d].entries@[j].key.rank()),
    {
        lemma_flatten_index(self.chunks@, c, i);
        lemma_flatten_index(self.chunks@, d, j);
        if c < d {
            lemma_flatten_split(self.chunks@, c);
            lemma_offset_monotone(self.chunks@, c + 1, d);
        }
        let s = self.pairs();
        assert(bytes::lex_lt(s[offset(self.chunks@, c) + i].0, s[offset(self.chunks@, d) + j].0));
    }

    /// The chunk that holds `key` if any does: the last whose first key is not
    /// greater than `key`, or the first chunk.
    fn chunk_for(&self, key: &[u8]) -> (r: usize)
        requires
            self.wf(),
            self.chunks@.len() > 0,
        ensures
            r < self.chunks@.len(),
            forall|c: int| 0 <= c < r ==> bytes::lex_le(#[trigger] self.chunks@[c].entries@[0].key.rank(), key@),
            r > 0 ==> bytes::lex_le(self.chunks@[r as int].entries@[0].key.rank(), key@),
            forall|c: int| r < c < self.chunks@.len() ==> bytes::lex_lt(
                key@,
                #[trigger] self.chunks@[c].entries@[0].key.rank(),
            ),
    {
        let mut lo: usize = 0;
        let mut hi: usize = self.chunks.len();
        while lo < hi
            invariant
                self.wf(),
                lo <= hi <= self.chunks@.len(),
                forall|c: int| 0 <= c < lo ==> bytes::lex_le(#[trigger] self.chunks@[c].entries@[0].key.rank(), key@),
                forall|c: int| hi <= c < self.chunks@.len() ==> bytes::lex_lt(
                    key@,
                    #[trigger] self.chunks@[c].entries@[0].key.rank(),
                ),
            decreases hi - lo,
        {
            let mid: usize = lo + (hi - lo) / 2;
            let first = &self.chunks[mid].entries[0];
            let ghost pivot = first.key.rank();
            proof {
                bytes::lemma_lex_trichotomy(pivot, key@);
            }
            match bytes::place(first.key.rank_bytes(), key) {
                Place::After => {
                    proof {
                        assert forall|c: int| mid <= c < self.chunks@.len() implies bytes::lex_lt(
                            key@,
                            #[trigger] self.chunks@[c].entries@[0].key.rank(),
                        ) by {
                            if c > mid {
                                self.lemma_order(mid as int, 0, c, 0);
                                bytes::lemma_lex_transitive(key@, pivot, self.chunks@[c].entries@[0].key.rank());
                            }
                        }
                    }
                    hi = mid;
                },
                _ => {
                    proof {
                        assert forall|c: int| 0 <= c < mid + 1 implies bytes::lex_le(
                            #[trigger] self.chunks@[c].entries@[0].key.rank(),
                            key@,
                        ) by {
                            if c < mid {
                                self.lemma_order(c, 0, mid as int, 0);
                                if pivot != key@ {
                                    bytes::lemma_lex_transitive(
                                        self.chunks@[c].entries@[0].key.rank(),
                                        pivot,
                                        key@,
                                    );
                                }
                            }
                        }
                    }
                    lo = mid + 1;
                },
            }
        }
        if lo == 0 {
            0
        } else {
            lo - 1
        }
    }

    /// Position `p` of the entries is where `key` stands or would be inserted.
    pub open spec fn splits(&self, key: Seq<u8>, p: int) -> bool {
        &&& 0 <= p <= self.pairs().len()
        &&& forall|i: int| 0 <= i < p ==> bytes::lex_lt(#[trigger] self.pairs()[i].0, key)
        &&& forall|i: int| p <= i < self.pairs().len() ==> bytes::lex_lt(key, #[trigger] self.pairs()[i].0)
    }

    /// `(chunk, position)` of `key`, or where it would be inserted.
    fn locate(&self, key: &[u8]) -> (r: Result<(usize, usize), (usize, usize)>)
        requires
            self.wf(),
        ensures
            match r {
                Ok((c, i)) => {
                    &&& c < self.chunks@.len()
                    &&& i < self.chunks@[c as int].entries@.len()
                    &&& self.chunks@[c as int].entries@[i as int].key.rank() == key@
                },
                Err((c, i)) => {
                    &&& !self@.contains_key(key@)
                    &&& self.splits(key@, offset(self.chunks@, c as int) + i)
                    &&& self.chunks@.len() == 0 ==> c == 0 && i == 0
                    &&& self.chunks@.len() > 0 ==> c < self.chunks@.len() && i <= self.chunks@[c as int].entries@.len()
                },
            },
    {
        if self.chunks.len() == 0 {
            assert(self.chunks@.subrange(0, 0) =~= self.chunks@);
            return Err((0, 0));
        }
        let c: usize = self.chunk_for(key);
        let mut lo: usize = 0;
        let mut hi: usize = self.chunks[c].entries.len();
        while lo < hi
            invariant
                self.wf(),
                c < self.chunks@.len(),
                lo <= hi <= self.chunks@[c as int].entries@.len(),
                forall|i: int| 0 <= i < lo ==> bytes::lex_lt(
                    #[trigger] self.chunks@[c as int].entries@[i].key.rank(),
                    key@,
                ),
                forall|i: int| hi <= i < self.chunks@[c as int].entries@.len() ==> bytes::lex_lt(
                    key@,
                    #[trigger] self.chunks@[c as int].entries@[i].key.rank(),
                ),
            decreases hi - lo,
        {
            let mid: usize = lo + (hi - lo) / 2;
            let entry = &self.chunks[c].entries[mid];
            let ghost pivot = entry.key.rank();
            match bytes::place(entry.key.rank_bytes(), key) {
                Place::Same => {
                    return Ok((c, mid));
                },
                Place::After => {
                    proof {
                        assert forall|i: int| mid <= i < self.chunks@[c as int].entries@.len() implies bytes::lex_lt(
                            key@,
                            #[trigger] self.chunks@[c as int].entries@[i].key.rank(),
                        ) by {
                            if i > mid {
                                self.lemma_order(c as int, mid as int, c as int, i);
                                bytes::lemma_lex_transitive(
                                    key@,
                                    pivot,
                                    self.chunks@[c as int].entries@[i].key.rank(),
                                );
                            }
                        }
                    }
                    hi = mid;
                },
                Place::Before => {
                    proof {
                        assert forall|i: int| 0 <= i < mid + 1 implies bytes::lex_lt(
                            #[trigger] self.chunks@[c as int].entries@[i].key.rank(),
                            key@,
                        ) by {
                            if i < mid {
                                self.lemma_order(c as int, i, c as int, mid as int);
                                bytes::lemma_lex_transitive(
                                    self.chunks@[c as int].entries@[i].key.rank(),
                                    pivot,
                                    key@,
                                );
                            }
                        }
                    }
                    lo = mid + 1;
                },
            }
        }
        proof {
            let s = self.pairs();
            let p = offset(self.chunks@, c as int) + lo;
            lemma_flatten_split(self.chunks@, c as int);
            assert forall|q: int| 0 <= q < s.len() implies (q < p ==> bytes::lex_lt(#[trigger] s[q].0, key@)) && (q >= p
                ==> bytes::lex_lt(key@, s[q].0)) by {
                let (d, j) = lemma_flatten_find(self.chunks@, q);
                lemma_flatten_index(self.chunks@, d, j);
                if d < c {
                    // The first key of chunk `c` is not after `key`.
                    lemma_flatten_split(self.chunks@, d);
                    lemma_offset_monotone(self.chunks@, d + 1, c as int);
                    self.lemma_order(d, j, c as int, 0);
                    if self.chunks@[c as int].entries@[0].key.rank() != key@ {
                        bytes::lemma_lex_transitive(s[q].0, self.chunks@[c as int].entries@[0].key.rank(), key@);
                    }
                } else if d > c {
                    lemma_offset_monotone(self.chunks@, c + 1, d);
                    if j > 0 {
                        self.lemma_order(d, 0, d, j);
                        bytes::lemma_lex_transitive(key@, self.chunks@[d].entries@[0].key.rank(), s[q].0);
                    }
                } else {
                    assert(self.chunks@[c as int].entries@[j].key.rank() == s[q].0);
                }
            }
            assert(self.splits(key@, p));
            if self@.contains_key(key@) {
                let q = pairs::index_of(s, key@);
                bytes::lemma_lex_irreflexive(key@);
                assert(s[q].0 == key@);
            }
        }
        Err((c, lo))
    }

    /// The value of `key`.
    pub fn get(&self, key: &[u8]) -> (r: Option<&V>)
        requires
            self.wf(),
        ensures
            r is Some <==> self@.contains_key(key@),
            r matches Some(v) ==> v@ == self@[key@] && v.valid(),
    {
        match self.locate(key) {
            Ok((c, i)) => {
                proof {
                    lemma_flatten_index(self.chunks@, c as int, i as int);
                    pairs::lemma_to_map_at(self.pairs(), offset(self.chunks@, c as int) + i);
                }
                Some(&self.chunks[c].entries[i].value)
            },
            Err(_) => None,
        }
    }

    pub fn contains_key(&self, key: &[u8]) -> (r: bool)
        requires
            self.wf(),
        ensures
            r == self@.contains_key(key@),
    {
        self.get(key).is_some()
    }

    /// Another value under the key at `(c, i)` keeps the map well formed.
    proof fn lemma_entry_replaced(&self, after: Self, c: int, i: int, value: V::V)
        requires
            self.wf(),
            0 <= c < self.chunks@.len(),
            0 <= i < self.chunks@[c].entries@.len(),
            after.chunks@.len() == self.chunks@.len(),
            after.chunks@ == self.chunks@.update(c, after.chunks@[c]),
            after.chunks@[c].entries@.len() == self.chunks@[c].entries@.len(),
            forall|j: int| 0 <= j < self.chunks@[c].entries@.len() && j != i ==> (#[trigger] after.chunks@[c].entries@[j]).pair()
                == self.chunks@[c].entries@[j].pair(),
            after.chunks@[c].entries@[i].pair() == (self.chunks@[c].entries@[i].key.rank(), value),
            forall|j: int| 0 <= j < self.chunks@[c].entries@.len() && j != i ==> (#[trigger] after.chunks@[c].entries@[j]).value.valid(),
        ensures
            after.chunks@[c].entries@[i].value.valid() ==> after.wf(),
            after.pairs() == self.pairs().update(
                offset(self.chunks@, c) + i,
                (self.chunks@[c].entries@[i].key.rank(), value),
            ),
            after@ == self@.insert(self.chunks@[c].entries@[i].key.rank(), value),
    {
        let p = offset(self.chunks@, c) + i;
        let k = self.chunks@[c].entries@[i].key.rank();
        lemma_flatten_split(self.chunks@, c);
        lemma_flatten_index(self.chunks@, c, i);
        lemma_flatten_update(self.chunks@, c, after.chunks@[c]);
        assert(after.chunks@[c].pairs() =~= self.chunks@[c].pairs().update(i, (k, value)));
        assert(after.pairs() =~= self.pairs().update(p, (k, value)));
        pairs::lemma_update(self.pairs(), p, value);
        assert(self.chunks@[c].valid());
        if after.chunks@[c].entries@[i].value.valid() {
            assert forall|d: int| 0 <= d < after.chunks@.len() implies (#[trigger] after.chunks@[d]).valid() by {
                if d != c {
                    assert(after.chunks@[d] == self.chunks@[d]);
                }
            }
        }
    }

    /// The value of `key`, for changing it in place.
    pub fn get_mut(&mut self, key: &[u8]) -> (r: Option<&mut V>)
        requires
            old(self).wf(),
        ensures
            r is Some <==> old(self)@.contains_key(key@),
            r is None ==> final(self).wf() && final(self).pairs() == old(self).pairs(),
            r matches Some(v) ==> v@ == old(self)@[key@] && v.valid(),
            r matches Some(v) ==> (final(v).valid() ==> final(self).wf()),
            r matches Some(v) ==> final(self)@ == old(self)@.insert(key@, final(v)@),
    {
        let ghost before = *self;
        let ghost after = *final(self);
        match self.locate(key) {
            Ok((c, i)) => {
                let ghost p = offset(self.chunks@, c as int) + i;
                proof {
                    lemma_flatten_index(self.chunks@, c as int, i as int);
                    pairs::lemma_to_map_at(self.pairs(), p);
                }
                let chunk = make_mut(&mut self.chunks[c]);
                let entry = make_mut(&mut chunk.entries[i]);
                let v = &mut entry.value;
                proof {
                    before.lemma_entry_replaced(after, c as int, i as int, final(v)@);
                }
                Some(v)
            },
            Err(_) => None,
        }
    }

    /// A single entry in a chunk of its own.
    fn one(key: K, value: V) -> (r: Arc<Chunk<K, V>>)
        requires
            value.valid(),
        ensures
            r.valid(),
            r.pairs() == seq![(key.rank(), value@)],
    {
        let mut entries: Vec<Arc<Entry<K, V>>> = Vec::new();
        entries.push(Arc::new(Entry { key, value }));
        let r = Arc::new(Chunk { entries });
        assert(r.pairs() =~= seq![(key.rank(), value@)]);
        r
    }

    /// Put `value` under `key`; what stood there before comes back.
    pub fn insert(&mut self, key: K, value: V) -> (r: Option<V>)
        requires
            old(self).wf(),
            value.valid(),
        ensures
            final(self).wf(),
            final(self)@ == old(self)@.insert(key.rank(), value@),
            r is Some <==> old(self)@.contains_key(key.rank()),
            r matches Some(v) ==> v@ == old(self)@[key.rank()] && v.valid(),
    {
        let ghost before = *self;
        let ghost s = self.pairs();
        match self.locate(key.rank_bytes()) {
            Ok((c, i)) => {
                let ghost p = offset(self.chunks@, c as int) + i;
                proof {
                    lemma_flatten_index(self.chunks@, c as int, i as int);
                    pairs::lemma_to_map_at(self.pairs(), p);
                }
                let mut slot = value;
                {
                    let chunk = make_mut(&mut self.chunks[c]);
                    let entry = make_mut(&mut chunk.entries[i]);
                    std::mem::swap(&mut entry.value, &mut slot);
                }
                proof {
                    before.lemma_entry_replaced(*self, c as int, i as int, value@);
                }
                Some(slot)
            },
            Err((c, at)) => {
                let ghost p = offset(self.chunks@, c as int) + at;
                let ghost pair = (key.rank(), value@);
                proof {
                    pairs::lemma_insert(s, p, key.rank(), value@);
                }
                if self.chunks.len() == 0 {
                    let one = Self::one(key, value);
                    self.chunks.push(one);
                    proof {
                        lemma_flatten_one(one);
                        assert(self.chunks@ =~= seq![one]);
                        assert(before.chunks@.subrange(0, 0) =~= before.chunks@);
                        assert(self.pairs() =~= s.insert(p, pair));
                    }
                    return None;
                }
                // Past the last key: append, opening a chunk when the last one
                // is full, so increasing keys never split anything.
                let last: usize = self.chunks.len() - 1;
                if c == last && at == self.chunks[last].entries.len() && self.chunks[last].entries.len() >= CHUNK_ENTRIES {
                    let one = Self::one(key, value);
                    self.chunks.push(one);
                    proof {
                        lemma_flatten_one(one);
                        lemma_flatten_concat(before.chunks@, seq![one]);
                        assert(self.chunks@ =~= before.chunks@ + seq![one]);
                        lemma_flatten_split(before.chunks@, c as int);
                        assert(before.chunks@.subrange(0, c + 1) =~= before.chunks@);
                        assert(p == s.len());
                        assert(self.pairs() =~= s.insert(p, pair));
                    }
                    return None;
                }
                self.grow(c, at, key, value);
                None
            },
        }
    }

    /// Insert a new key at `(c, at)` and split the chunk once it is too large.
    fn grow(&mut self, c: usize, at: usize, key: K, value: V)
        requires
            old(self).wf(),
            value.valid(),
            c < old(self).chunks@.len(),
            at <= old(self).chunks@[c as int].entries@.len(),
            old(self).splits(key.rank(), offset(old(self).chunks@, c as int) + at),
        ensures
            final(self).wf(),
            final(self)@ == old(self)@.insert(key.rank(), value@),
    {
        let ghost before = *self;
        let ghost s = self.pairs();
        let ghost pair = (key.rank(), value@);
        let ghost p = offset(self.chunks@, c as int) + at;
        let fresh = Arc::new(Entry { key, value });
        {
            let target = make_mut(&mut self.chunks[c]);
            target.entries.insert(at, fresh);
        }
        proof {
            pairs::lemma_insert(s, p, pair.0, pair.1);
            assert(self.chunks@ =~= before.chunks@.update(c as int, self.chunks@[c as int]));
            lemma_flatten_grow(before.chunks@, c as int, at as int, self.chunks@[c as int], fresh);
            assert(self.pairs() == s.insert(p, pair));
        }
        if self.chunks[c].entries.len() > 2 * CHUNK_ENTRIES {
            let ghost middle = self.chunks@;
            let upper;
            {
                let target = make_mut(&mut self.chunks[c]);
                let half: usize = target.entries.len() / 2;
                upper = target.entries.split_off(half);
            }
            let next = Arc::new(Chunk { entries: upper });
            let ghost lower = self.chunks@[c as int];
            assert(self.chunks@ =~= middle.update(c as int, lower));
            let count: usize = self.chunks.len();
            assert(c < count);
            self.chunks.insert(c + 1, next);
            proof {
                assert(lower.entries@ + next.entries@ =~= middle[c as int].entries@);
                lemma_flatten_halves(middle, c as int, lower, next);
                assert(self.pairs() == s.insert(p, pair));
                assert forall|d: int| 0 <= d < self.chunks@.len() implies (#[trigger] self.chunks@[d]).valid() by {
                    if d < c {
                        assert(self.chunks@[d] == before.chunks@[d]);
                    } else if d > c + 1 {
                        assert(self.chunks@[d] == before.chunks@[d - 1]);
                    }
                }
            }
        } else {
            proof {
                assert forall|d: int| 0 <= d < self.chunks@.len() implies (#[trigger] self.chunks@[d]).valid() by {
                    if d != c {
                        assert(self.chunks@[d] == before.chunks@[d]);
                    }
                }
            }
        }
    }

    /// The value of `key`, inserting `fallback` first when it is absent.
    pub fn get_or_insert(&mut self, key: K, fallback: V) -> (r: &mut V)
        requires
            old(self).wf(),
            fallback.valid(),
        ensures
            r.valid(),
            final(r).valid() ==> final(self).wf(),
            r@ == if old(self)@.contains_key(key.rank()) { old(self)@[key.rank()] } else { fallback@ },
            final(self)@ == old(self)@.insert(key.rank(), final(r)@),
    {
        let ghost rank = key.rank();
        let ghost start = self@;
        let ghost after = *final(self);
        let missing: bool = !self.contains_key(key.rank_bytes());
        let probe: K = key.same_place();
        if missing {
            self.insert(key, fallback);
        }
        let ghost before = *self;
        let (c, i) = match self.locate(probe.rank_bytes()) {
            Ok(found) => found,
            Err(at) => {
                assert(false);
                at
            },
        };
        proof {
            lemma_flatten_index(self.chunks@, c as int, i as int);
            pairs::lemma_to_map_at(self.pairs(), offset(self.chunks@, c as int) + i);
        }
        let chunk = make_mut(&mut self.chunks[c]);
        let entry = make_mut(&mut chunk.entries[i]);
        let v = &mut entry.value;
        proof {
            before.lemma_entry_replaced(after, c as int, i as int, final(v)@);
            assert(before@.insert(rank, final(v)@) =~= start.insert(rank, final(v)@));
        }
        v
    }

    /// The value of `key`, inserting a default value first when it is absent.
    pub fn get_or_insert_default(&mut self, key: K) -> (r: &mut V) where V: Default
        requires
            old(self).wf(),
            forall|d: V| call_ensures(V::default, (), d) ==> d.valid(),
        ensures
            r.valid(),
            final(r).valid() ==> final(self).wf(),
            old(self)@.contains_key(key.rank()) ==> r@ == old(self)@[key.rank()],
            !old(self)@.contains_key(key.rank()) ==> exists|d: V| call_ensures(V::default, (), d) && r@ == d@,
            final(self)@ == old(self)@.insert(key.rank(), final(r)@),
    {
        let fallback = V::default();
        self.get_or_insert(key, fallback)
    }

    /// Take `key` out; its value comes back.
    pub fn remove(&mut self, key: &[u8]) -> (r: Option<V>)
        requires
            old(self).wf(),
        ensures
            final(self).wf(),
            final(self)@ == old(self)@.remove(key@),
            r is Some <==> old(self)@.contains_key(key@),
            r matches Some(v) ==> v@ == old(self)@[key@] && v.valid(),
    {
        let ghost before = *self;
        let ghost s = self.pairs();
        match self.locate(key) {
            Ok((c, i)) => {
                let ghost p = offset(self.chunks@, c as int) + i;
                proof {
                    lemma_flatten_index(self.chunks@, c as int, i as int);
                    lemma_flatten_split(self.chunks@, c as int);
                    pairs::lemma_to_map_at(self.pairs(), p);
                    pairs::lemma_remove(s, p);
                }
                let entry;
                let emptied: bool;
                {
                    let target = make_mut(&mut self.chunks[c]);
                    entry = target.entries.remove(i);
                    emptied = target.entries.len() == 0;
                }
                proof {
                    let after = self.chunks@[c as int];
                    assert(self.chunks@ =~= before.chunks@.update(c as int, after));
                    lemma_flatten_update(before.chunks@, c as int, after);
                    assert(after.pairs() =~= before.chunks@[c as int].pairs().remove(i as int));
                    assert(self.pairs() =~= s.remove(p));
                    assert forall|d: int| 0 <= d < self.chunks@.len() && d != c implies self.chunks@[d] == before.chunks@[d] by {}
                }
                if emptied {
                    let ghost middle = self.chunks@;
                    self.chunks.remove(c);
                    proof {
                        let a = middle.subrange(0, c as int);
                        let b = middle.subrange(c + 1, middle.len() as int);
                        lemma_flatten_split(middle, c as int);
                        assert(self.chunks@ =~= a + b);
                        lemma_flatten_concat(a, b);
                        assert(self.pairs() =~= flatten(middle));
                        assert forall|d: int| 0 <= d < self.chunks@.len() implies (#[trigger] self.chunks@[d]).valid() by {
                            if d < c {
                                assert(self.chunks@[d] == before.chunks@[d]);
                            } else {
                                assert(self.chunks@[d] == before.chunks@[d + 1]);
                            }
                        }
                    }
                }
                match try_unwrap(entry) {
                    Ok(own) => Some(own.value),
                    Err(shared) => Some(shared.value.duplicate()),
                }
            },
            Err(_) => {
                assert(self@ =~= self@.remove(key@));
                None
            },
        }
    }

    /// Take every entry out.
    pub fn clear(&mut self)
        ensures
            final(self).wf(),
            final(self).pairs() == Seq::<(Seq<u8>, V::V)>::empty(),
            final(self)@ == Map::<Seq<u8>, V::V>::empty(),
    {
        self.chunks.clear();
        assert(self.pairs() =~= Seq::<(Seq<u8>, V::V)>::empty());
        assert(self@ =~= Map::<Seq<u8>, V::V>::empty());
    }

    /// The entries from a position on, in key order.
    fn entries_from(&self, c: usize, at: usize) -> (r: Vec<(&K, &V)>)
        requires
            self.wf(),
            c < self.chunks@.len() ==> at <= self.chunks@[c as int].entries@.len(),
            c >= self.chunks@.len() ==> c == self.chunks@.len() && at == 0,
        ensures
            entry_pairs(r@) == self.pairs().subrange(offset(self.chunks@, c as int) + at, self.pairs().len() as int),
            entries_valid(r@),
    {
        let mut out: Vec<(&K, &V)> = Vec::new();
        let mut d: usize = c;
        let mut j: usize = at;
        let ghost from = offset(self.chunks@, c as int) + at;
        proof {
            if c < self.chunks@.len() {
                lemma_flatten_split(self.chunks@, c as int);
            } else {
                assert(self.chunks@.subrange(0, c as int) =~= self.chunks@);
            }
            assert(entry_pairs(out@) =~= self.pairs().subrange(from, from));
        }
        while d < self.chunks.len()
            invariant
                self.wf(),
                c <= d <= self.chunks@.len(),
                d < self.chunks@.len() ==> j <= self.chunks@[d as int].entries@.len(),
                d == self.chunks@.len() ==> j == 0,
                0 <= from <= offset(self.chunks@, d as int) + j <= self.pairs().len(),
                entry_pairs(out@) == self.pairs().subrange(from, offset(self.chunks@, d as int) + j),
                entries_valid(out@),
            decreases self.chunks@.len() - d,
        {
            let chunk = &self.chunks[d];
            let ghost base = offset(self.chunks@, d as int);
            while j < chunk.entries.len()
                invariant
                    d < self.chunks@.len(),
                    chunk == self.chunks@[d as int],
                    base == offset(self.chunks@, d as int),
                    j <= chunk.entries@.len(),
                    0 <= from <= base + j <= self.pairs().len(),
                    entry_pairs(out@) == self.pairs().subrange(from, base + j),
                    entries_valid(out@),
                    chunk.valid(),
                decreases chunk.entries@.len() - j,
            {
                let entry = &chunk.entries[j];
                let ghost so_far = out@;
                out.push((&entry.key, &entry.value));
                proof {
                    lemma_flatten_index(self.chunks@, d as int, j as int);
                    assert(entry_pairs(out@) =~= entry_pairs(so_far).push(entry.pair()));
                    assert(self.pairs().subrange(from, base + j + 1) =~= self.pairs().subrange(from, base + j).push(
                        entry.pair(),
                    ));
                }
                j = j + 1;
            }
            proof {
                lemma_flatten_split(self.chunks@, d as int);
            }
            d = d + 1;
            j = 0;
        }
        assert(self.chunks@.subrange(0, d as int) =~= self.chunks@);
        out
    }

    /// The entries in key order.
    pub fn iter(&self) -> (r: Vec<(&K, &V)>)
        requires
            self.wf(),
        ensures
            entry_pairs(r@) == self.pairs(),
            entries_valid(r@),
    {
        let r = self.entries_from(0, 0);
        proof {
            assert(self.chunks@.subrange(0, 0) =~= Seq::<Arc<Chunk<K, V>>>::empty());
            assert(entry_pairs(r@) =~= self.pairs());
        }
        r
    }

    /// The keys in order.
    pub fn keys(&self) -> (r: Vec<&K>)
        requires
            self.wf(),
        ensures
            r@.len() == self.pairs().len(),
            forall|i: int| 0 <= i < r@.len() ==> (#[trigger] r@[i]).rank() == self.pairs()[i].0,
    {
        let all = self.iter();
        let mut out: Vec<&K> = Vec::new();
        let mut i: usize = 0;
        while i < all.len()
            invariant
                i <= all@.len(),
                out@.len() == i,
                entry_pairs(all@) == self.pairs(),
                forall|j: int| 0 <= j < i ==> (#[trigger] out@[j]).rank() == self.pairs()[j].0,
            decreases all@.len() - i,
        {
            assert(entry_pairs(all@)[i as int].0 == all@[i as int].0.rank());
            out.push(all[i].0);
            i = i + 1;
        }
        out
    }

    /// The entries from `start` on, `start` included when `inclusive`.
    pub fn range_from(&self, start: &[u8], inclusive: bool) -> (r: Vec<(&K, &V)>)
        requires
            self.wf(),
        ensures
            entry_pairs(r@) == pairs::from_key(self.pairs(), start@, inclusive),
            entries_valid(r@),
    {
        let ghost s = self.pairs();
        match self.locate(start) {
            Ok((c, i)) => {
                let ghost p = offset(self.chunks@, c as int) + i;
                proof {
                    lemma_flatten_index(self.chunks@, c as int, i as int);
                    let q: int = if inclusive { p } else { p + 1 };
                    assert forall|j: int| 0 <= j < q implies bytes::lex_lt(#[trigger] s[j].0, start@) || (!inclusive && s[j].0
                        == start@) by {
                        if j < p {
                            assert(bytes::lex_lt(s[j].0, s[p].0));
                        }
                    }
                    assert forall|j: int| q <= j < s.len() implies bytes::lex_lt(start@, #[trigger] s[j].0) || (inclusive
                        && s[j].0 == start@) by {
                        if j > p {
                            assert(bytes::lex_lt(s[p].0, s[j].0));
                        }
                    }
                    pairs::lemma_from_key(s, start@, inclusive, q);
                }
                self.entries_from(c, if inclusive { i } else { i + 1 })
            },
            Err((c, at)) => {
                proof {
                    pairs::lemma_from_key(s, start@, inclusive, offset(self.chunks@, c as int) + at);
                }
                self.entries_from(c, at)
            },
        }
    }

    /// The first entry from `start` on, `start` included when `inclusive`.
    pub fn first_from(&self, start: &[u8], inclusive: bool) -> (r: Option<(&K, &V)>)
        requires
            self.wf(),
        ensures
            r is Some <==> pairs::from_key(self.pairs(), start@, inclusive).len() > 0,
            r matches Some(e) ==> (e.0.rank(), e.1@) == pairs::from_key(self.pairs(), start@, inclusive)[0] && e.1.valid(),
            r matches Some(e) ==> self@.contains_key(e.0.rank()) && self@[e.0.rank()] == e.1@ && (if inclusive {
                bytes::lex_le(start@, e.0.rank())
            } else {
                bytes::lex_lt(start@, e.0.rank())
            }),
            forall|k: Seq<u8>|
                #[trigger] self@.contains_key(k) && (bytes::lex_lt(start@, k) || (inclusive && k == start@)) ==> (r matches Some(e)
                    && bytes::lex_le(e.0.rank(), k)),
    {
        let ghost s = self.pairs();
        let (c, at): (usize, usize) = match self.locate(start) {
            Ok((c, i)) => {
                proof {
                    lemma_flatten_index(self.chunks@, c as int, i as int);
                    let p = offset(self.chunks@, c as int) + i;
                    let q: int = if inclusive { p } else { p + 1 };
                    assert forall|j: int| 0 <= j < q implies bytes::lex_lt(#[trigger] s[j].0, start@) || (!inclusive && s[j].0
                        == start@) by {
                        if j < p {
                            assert(bytes::lex_lt(s[j].0, s[p].0));
                        }
                    }
                    assert forall|j: int| q <= j < s.len() implies bytes::lex_lt(start@, #[trigger] s[j].0) || (inclusive
                        && s[j].0 == start@) by {
                        if j > p {
                            assert(bytes::lex_lt(s[p].0, s[j].0));
                        }
                    }
                    pairs::lemma_from_key(s, start@, inclusive, q);
                    self.lemma_first(start@, inclusive, q);
                }
                (c, if inclusive { i } else { i + 1 })
            },
            Err((c, at)) => {
                proof {
                    let q = offset(self.chunks@, c as int) + at;
                    pairs::lemma_from_key(s, start@, inclusive, q);
                    self.lemma_first(start@, inclusive, q);
                }
                (c, at)
            },
        };
        proof {
            if self.chunks@.len() == 0 {
                assert(self.chunks@.subrange(0, 0) =~= self.chunks@);
            } else {
                lemma_flatten_split(self.chunks@, c as int);
            }
        }
        if c >= self.chunks.len() {
            return None;
        }
        let (d, i): (usize, usize) = if at < self.chunks[c].entries.len() {
            (c, at)
        } else {
            (c + 1, 0)
        };
        if d >= self.chunks.len() {
            assert(self.chunks@.subrange(0, c + 1) =~= self.chunks@);
            return None;
        }
        proof {
            assert(self.chunks@[d as int].valid());
            lemma_flatten_index(self.chunks@, d as int, i as int);
        }
        let entry = &self.chunks[d].entries[i];
        Some((&entry.key, &entry.value))
    }

    proof fn lemma_first(&self, start: Seq<u8>, inclusive: bool, q: int)
        requires
            self.wf(),
            0 <= q <= self.pairs().len(),
            pairs::from_key(self.pairs(), start, inclusive) == self.pairs().subrange(q, self.pairs().len() as int),
            forall|j: int| 0 <= j < q ==> bytes::lex_lt(#[trigger] self.pairs()[j].0, start) || (!inclusive && self.pairs()[j].0
                == start),
            forall|j: int| q <= j < self.pairs().len() ==> bytes::lex_lt(start, #[trigger] self.pairs()[j].0) || (inclusive
                && self.pairs()[j].0 == start),
        ensures
            forall|k: Seq<u8>|
                #[trigger] self@.contains_key(k) && (bytes::lex_lt(start, k) || (inclusive && k == start)) ==> q < self.pairs().len()
                    && bytes::lex_le(self.pairs()[q].0, k),
            q < self.pairs().len() ==> self@.contains_key(self.pairs()[q].0) && self@[self.pairs()[q].0] == self.pairs()[q].1,
    {
        let s = self.pairs();
        assert forall|k: Seq<u8>| #[trigger] self@.contains_key(k) && (bytes::lex_lt(start, k) || (inclusive && k == start)) implies q
            < s.len() && bytes::lex_le(s[q].0, k) by {
            let j = pairs::index_of(s, k);
            assert(s[j].0 == k);
            if j < q {
                bytes::lemma_lex_trichotomy(k, start);
            } else if j > q {
                assert(bytes::lex_lt(s[q].0, s[j].0));
            }
        }
        if q < s.len() {
            pairs::lemma_to_map_at(s, q);
        }
    }

    /// Copies share their storage and keep what they saw.
    pub fn duplicate_map(&self) -> (r: Self)
        ensures
            r.pairs() == self.pairs(),
            r@ == self@,
            r.wf() == self.wf(),
            r.sizes() == self.sizes(),
    {
        let mut chunks: Vec<Arc<Chunk<K, V>>> = Vec::new();
        let mut c: usize = 0;
        while c < self.chunks.len()
            invariant
                c <= self.chunks@.len(),
                chunks@ == self.chunks@.subrange(0, c as int),
            decreases self.chunks@.len() - c,
        {
            chunks.push(share(&self.chunks[c]));
            assert(self.chunks@.subrange(0, c + 1) =~= self.chunks@.subrange(0, c as int).push(self.chunks@[c as int]));
            c = c + 1;
        }
        assert(chunks@ =~= self.chunks@);
        CowMap { chunks }
    }
}

impl<K: OrderedKey, V: Datum> Clone for CowMap<K, V> {
    fn clone(&self) -> (r: Self)
        ensures
            r.pairs() == self.pairs(),
            r.wf() == self.wf(),
    {
        self.duplicate_map()
    }
}

impl<K: OrderedKey, V: Datum> Default for CowMap<K, V> {
    fn default() -> (r: Self)
        ensures
            r.wf(),
            r.pairs() == Seq::<(Seq<u8>, V::V)>::empty(),
            r@ == Map::<Seq<u8>, V::V>::empty(),
    {
        CowMap::new()
    }
}

/// A sorted set sharing its storage like `CowMap`.
pub struct CowSet<T>(CowMap<T, ()>);

/// The keys of pairs in order.
pub open spec fn first_of<X>(s: Seq<(Seq<u8>, X)>) -> Seq<Seq<u8>> {
    Seq::new(s.len(), |i: int| s[i].0)
}

/// What a listing of members stands for.
pub open spec fn ranks<T: OrderedKey>(s: Seq<&T>) -> Seq<Seq<u8>> {
    Seq::new(s.len(), |i: int| s[i].rank())
}

impl<T: OrderedKey> View for CowSet<T> {
    type V = Set<Seq<u8>>;

    /// The byte strings of the members.
    closed spec fn view(&self) -> Set<Seq<u8>> {
        self.0@.dom()
    }
}

impl<T: OrderedKey> CowSet<T> {
    pub closed spec fn wf(&self) -> bool {
        self.0.wf()
    }

    /// The byte strings of the members in order.
    pub closed spec fn members(&self) -> Seq<Seq<u8>> {
        first_of(self.0.pairs())
    }

    /// The members are listed in strictly increasing order, each once.
    pub proof fn lemma_members(&self)
        requires
            self.wf(),
        ensures
            forall|i: int, j: int| 0 <= i < j < self.members().len() ==> bytes::lex_lt(
                #[trigger] self.members()[i],
                #[trigger] self.members()[j],
            ),
            forall|k: Seq<u8>| #[trigger] self@.contains(k) <==> self.members().contains(k),
    {
        self.0.lemma_wf();
        let s = self.0.pairs();
        assert forall|i: int, j: int| 0 <= i < j < self.members().len() implies bytes::lex_lt(
            #[trigger] self.members()[i],
            #[trigger] self.members()[j],
        ) by {
            assert(bytes::lex_lt(s[i].0, s[j].0));
        }
        assert forall|k: Seq<u8>| #[trigger] self@.contains(k) <==> self.members().contains(k) by {
            if pairs::has_key(s, k) {
                assert(self.members()[pairs::index_of(s, k)] == k);
            }
            if self.members().contains(k) {
                let i = self.members().index_of(k);
                assert(s[i].0 == k);
            }
        }
    }

    pub fn new() -> (r: Self)
        ensures
            r.wf(),
            r@ == Set::<Seq<u8>>::empty(),
            r.members() == Seq::<Seq<u8>>::empty(),
    {
        let r = CowSet(CowMap::new());
        assert(r@ =~= Set::<Seq<u8>>::empty());
        assert(r.members() =~= Seq::<Seq<u8>>::empty());
        r
    }

    /// The number of members.
    pub fn len(&self) -> (r: usize)
        requires
            self.wf(),
            self.members().len() <= usize::MAX,
        ensures
            r == self.members().len(),
    {
        self.0.len()
    }

    pub fn is_empty(&self) -> (r: bool)
        requires
            self.wf(),
        ensures
            r == (self.members().len() == 0),
            r == (self@ == Set::<Seq<u8>>::empty()),
    {
        let r: bool = self.0.is_empty();
        proof {
            if r {
                assert(self@ =~= Set::<Seq<u8>>::empty());
            } else {
                pairs::lemma_to_map_at(self.0.pairs(), 0);
                assert(self@.contains(self.0.pairs()[0].0));
            }
        }
        r
    }

    pub fn contains(&self, value: &[u8]) -> (r: bool)
        requires
            self.wf(),
        ensures
            r == self@.contains(value@),
    {
        self.0.contains_key(value)
    }

    /// Whether `value` was absent; it is a member afterwards.
    pub fn insert(&mut self, value: T) -> (r: bool)
        requires
            old(self).wf(),
        ensures
            final(self).wf(),
            r == !old(self)@.contains(value.rank()),
            final(self)@ == old(self)@.insert(value.rank()),
    {
        let ghost before = self@;
        let old_value = self.0.insert(value, ());
        assert(self@ =~= before.insert(value.rank()));
        old_value.is_none()
    }

    /// Whether `value` was present; it is no member afterwards.
    pub fn remove(&mut self, value: &[u8]) -> (r: bool)
        requires
            old(self).wf(),
        ensures
            final(self).wf(),
            r == old(self)@.contains(value@),
            final(self)@ == old(self)@.remove(value@),
    {
        let ghost before = self@;
        let old_value = self.0.remove(value);
        assert(self@ =~= before.remove(value@));
        old_value.is_some()
    }

    /// The members in order.
    pub fn iter(&self) -> (r: Vec<&T>)
        requires
            self.wf(),
        ensures
            ranks(r@) == self.members(),
    {
        let r = self.0.keys();
        assert(ranks(r@) =~= self.members());
        r
    }

    /// The members after `after`, or all of them.
    pub fn range_after(&self, after: Option<&[u8]>) -> (r: Vec<&T>)
        requires
            self.wf(),
        ensures
            after is None ==> ranks(r@) == self.members(),
            after matches Some(k) ==> ranks(r@) == self.members().filter(|m: Seq<u8>| bytes::lex_lt(k@, m)),
    {
        match after {
            None => self.iter(),
            Some(k) => {
                let tail = self.0.range_from(k, false);
                let mut out: Vec<&T> = Vec::new();
                let mut i: usize = 0;
                while i < tail.len()
                    invariant
                        i <= tail@.len(),
                        out@.len() == i,
                        forall|j: int| 0 <= j < i ==> out@[j] == (#[trigger] tail@[j]).0,
                    decreases tail@.len() - i,
                {
                    out.push(tail[i].0);
                    i = i + 1;
                }
                proof {
                    let s = self.0.pairs();
                    lemma_first_of_filter(s, k@);
                    assert(ranks(out@) =~= first_of(entry_pairs(tail@)));
                }
                out
            },
        }
    }

    /// A set of the given members.
    pub fn from_vec(values: Vec<T>) -> (r: Self)
        ensures
            r.wf(),
            forall|k: Seq<u8>| #[trigger] r@.contains(k) <==> exists|i: int| 0 <= i < values@.len() && (#[trigger] values@[i]).rank() == k,
    {
        let mut out: CowSet<T> = CowSet::new();
        let mut i: usize = 0;
        while i < values.len()
            invariant
                i <= values@.len(),
                out.wf(),
                forall|k: Seq<u8>| #[trigger] out@.contains(k) <==> exists|j: int| 0 <= j < i && (#[trigger] values@[j]).rank() == k,
            decreases values@.len() - i,
        {
            let ghost before = out@;
            out.insert(values[i].same_place());
            proof {
                assert forall|k: Seq<u8>| #[trigger] out@.contains(k) <==> exists|j: int| 0 <= j < i + 1 && (#[trigger] values@[j]).rank()
                    == k by {
                    if before.contains(k) {
                        let j = choose|j: int| 0 <= j < i && (#[trigger] values@[j]).rank() == k;
                        assert(values@[j].rank() == k);
                    }
                    if values@[i as int].rank() == k {
                        assert(out@.contains(k));
                    }
                }
            }
            i = i + 1;
        }
        out
    }

    pub fn duplicate_set(&self) -> (r: Self)
        ensures
            r@ == self@,
            r.members() == self.members(),
            r.wf() == self.wf(),
    {
        CowSet(self.0.duplicate_map())
    }
}

proof fn lemma_first_of_filter<X>(s: Seq<(Seq<u8>, X)>, k: Seq<u8>)
    ensures
        first_of(pairs::from_key(s, k, false)) == first_of(s).filter(|m: Seq<u8>| bytes::lex_lt(k, m)),
    decreases s.len(),
{
    let f = |m: Seq<u8>| bytes::lex_lt(k, m);
    reveal(Seq::filter);
    if s.len() > 0 {
        let t = s.drop_last();
        lemma_first_of_filter(t, k);
        assert(first_of(s).drop_last() =~= first_of(t));
        assert(first_of(s).last() == s.last().0);
        if pairs::past::<X>(k, false)(s.last()) {
            assert(first_of(pairs::from_key(t, k, false).push(s.last())) =~= first_of(pairs::from_key(t, k, false)).push(s.last().0));
        }
    } else {
        assert(first_of(pairs::from_key(s, k, false)) =~= first_of(s).filter(f));
    }
}

impl<T: OrderedKey> Clone for CowSet<T> {
    fn clone(&self) -> (r: Self)
        ensures
            r@ == self@,
            r.wf() == self.wf(),
    {
        self.duplicate_set()
    }
}

impl<T: OrderedKey> Default for CowSet<T> {
    fn default() -> (r: Self)
        ensures
            r.wf(),
            r@ == Set::<Seq<u8>>::empty(),
    {
        CowSet::new()
    }
}

impl<T: OrderedKey> Datum for CowSet<T> {
    open spec fn valid(&self) -> bool {
        self.wf()
    }

    fn duplicate(&self) -> (r: Self) {
        self.duplicate_set()
    }
}

impl<K: OrderedKey, V: Datum> Datum for CowMap<K, V> {
    open spec fn valid(&self) -> bool {
        self.wf()
    }

    fn duplicate(&self) -> (r: Self) {
        self.duplicate_map()
    }
}

} // verus!
