//! Equality indexes: which records have a value in a column.
//!
//! An index holds pairs of an encoded value and an id. Immutable runs hold
//! versioned additions and removals; the changes since the last run was
//! published stand beside them and win over every run.

use crate::bytes;
use crate::cow::{self, CowMap};
use crate::error::{corrupt, Error, ErrorView};
use crate::levels::{self, plan_merge, MergePlan};
use crate::order::{Datum, OrderedKey};
use crate::paged::{self, merge_paged_indexes, PagedIndex, Row};
use crate::pairs;
use crate::primary::{self, least, next_in_runs, Run};
use crate::record;
use crate::visit;
use vstd::prelude::*;
use vstd::utf8::*;

verus! {

/// Runs of one level of a derived index before they are merged.
pub const DERIVED_LEVEL_FANOUT: usize = 8;

pub const SECONDARY_ENTRY_TAG: u8 = 1;

pub const SECONDARY_DELETE: u8 = 0;

pub const SECONDARY_ADD: u8 = 1;

/// What a change since the last run does with a pair.
#[derive(Clone, Copy, PartialEq, Eq, Structural, Debug)]
pub enum PairChange {
    Added,
    Removed,
}

impl View for PairChange {
    type V = PairChange;

    open spec fn view(&self) -> PairChange {
        *self
    }
}

impl Datum for PairChange {
    open spec fn valid(&self) -> bool {
        true
    }

    fn duplicate(&self) -> (r: Self) {
        *self
    }
}

pub struct SecIdx {
    pub generation: u64,
    pub runs: Vec<Run>,
    pub overlay: CowMap<Vec<u8>, PairChange>,
}

// ---- Pairs and operations ---------------------------------------------------

/// What the pairs of a value begin with.
pub open spec fn pair_prefix(key: Seq<u8>) -> Seq<u8> {
    seq![SECONDARY_ENTRY_TAG] + bytes::be(key.len(), 4) + key
}

pub open spec fn pair_of(key: Seq<u8>, id: Seq<u8>) -> Seq<u8> {
    pair_prefix(key) + id
}

/// The value and the id of a pair, or what is wrong with it.
pub open spec fn pair_parts(pair: Seq<u8>) -> Result<(Seq<u8>, Seq<u8>), Seq<char>> {
    if pair.len() < 5 || pair[0] != SECONDARY_ENTRY_TAG {
        Err("secondary index: invalid pair key"@)
    } else {
        let n = bytes::be_value(pair.subrange(1, 5));
        if 5 + n > pair.len() {
            Err("secondary index: truncated pair key"@)
        } else {
            let id = pair.subrange((5 + n) as int, pair.len() as int);
            if !valid_utf8(id) {
                Err("secondary index: invalid id utf8"@)
            } else {
                Ok((pair.subrange(5, (5 + n) as int), id))
            }
        }
    }
}

pub fn secondary_pair_prefix(key: &[u8]) -> (r: Vec<u8>)
    requires
        key@.len() <= u32::MAX,
    ensures
        r@ == pair_prefix(key@),
{
    let mut pair: Vec<u8> = Vec::new();
    pair.push(SECONDARY_ENTRY_TAG);
    proof {
        bytes::lemma_radix_small();
    }
    bytes::push_be(&mut pair, key.len() as u64, 4);
    bytes::push_all(&mut pair, key);
    assert(pair@ =~= pair_prefix(key@));
    pair
}

pub fn secondary_pair_key(key: &[u8], id: &str) -> (r: Vec<u8>)
    requires
        key@.len() <= u32::MAX,
    ensures
        r@ == pair_of(key@, encode_utf8(id@)),
{
    let mut pair = secondary_pair_prefix(key);
    bytes::push_all(&mut pair, id.as_bytes());
    pair
}

/// Take a pair apart.
pub fn secondary_pair_parts(pair: &[u8]) -> (r: Result<(Vec<u8>, String), Error>)
    ensures
        match pair_parts(pair@) {
            Ok((key, id)) => r is Ok && r->Ok_0.0@ == key && encode_utf8(r->Ok_0.1@) == id,
            Err(m) => r is Err && r->Err_0@ == ErrorView::Corrupt(m),
        },
{
    if pair.len() < 5 || pair[0] != SECONDARY_ENTRY_TAG {
        return Err(corrupt("secondary index: invalid pair key"));
    }
    proof {
        bytes::lemma_radix_small();
    }
    let n: u64 = match bytes::read_be(pair, 1, 4) {
        Some(n) => n,
        None => {
            assert(false);
            0
        },
    };
    if n > (pair.len() - 5) as u64 {
        return Err(corrupt("secondary index: truncated pair key"));
    }
    let end: usize = 5 + n as usize;
    let tail = bytes::copy_range(pair, end, pair.len());
    match bytes::text_from_utf8(tail.as_slice()) {
        Some(id) => Ok((bytes::copy_range(pair, 5, end), id)),
        None => Err(corrupt("secondary index: invalid id utf8")),
    }
}

/// The first `k` batches behind one another.
pub open spec fn joined(batches: Seq<Seq<Seq<u8>>>, k: int) -> Seq<Seq<u8>>
    decreases k,
{
    if k <= 0 {
        Seq::empty()
    } else {
        joined(batches, k - 1) + batches[k - 1]
    }
}

impl SecIdx {
    /// Each batch was taken behind the last id of the one before, all but the
    /// last are full, and the last is not.
    pub open spec fn in_batches(&self, key: Seq<u8>, limit: usize, batches: Seq<Seq<Seq<u8>>>) -> bool {
        &&& batches.len() > 0
        &&& forall|b: int|
            0 <= b < batches.len() ==> self.is_id_list(
                key,
                if b == 0 {
                    None
                } else {
                    Some(batches[b - 1].last())
                },
                Some(limit),
                #[trigger] batches[b],
            )
        &&& forall|b: int| 0 <= b < batches.len() - 1 ==> (#[trigger] batches[b]).len() == limit
        &&& batches.last().len() < limit
    }

    /// Batches of ids that are taken one behind another give every id once, in
    /// order, whatever the size of a batch is.
    pub proof fn lemma_batches_give_all(&self, key: Seq<u8>, limit: usize, batches: Seq<Seq<Seq<u8>>>, ids: Seq<Seq<u8>>)
        requires
            self.in_batches(key, limit, batches),
            self.is_id_list(key, None, None, ids),
        ensures
            joined(batches, batches.len() as int) == ids,
    {
        let all = joined(batches, batches.len() as int);
        let m = |id: Seq<u8>| self.member(key, id);
        assert forall|b: int| 0 <= b < batches.len() implies lists(m, behind(batches, b), Some(limit), #[trigger] batches[b]) by {
            assert(self.is_id_list(
                key,
                if b == 0 {
                    None
                } else {
                    Some(batches[b - 1].last())
                },
                Some(limit),
                batches[b],
            ));
            self.lemma_lists(key, behind(batches, b), Some(limit), batches[b]);
        }
        self.lemma_lists(key, None, None, ids);
        lemma_batches_joined(m, limit, batches, batches.len() as int);
        assert forall|id: Seq<u8>| all.contains(id) <==> ids.contains(id) by {
            if all.contains(id) {
                assert(m(all[all.index_of(id)]));
            }
            if ids.contains(id) {
                assert(m(ids[ids.index_of(id)]));
            }
        }
        lemma_same_ids(all, ids);
    }

    proof fn lemma_lists(&self, key: Seq<u8>, after: Option<Seq<u8>>, limit: Option<usize>, ids: Seq<Seq<u8>>)
        requires
            self.is_id_list(key, after, limit, ids),
        ensures
            lists(|id: Seq<u8>| self.member(key, id), after, limit, ids),
    {
        let m = |id: Seq<u8>| self.member(key, id);
        assert forall|i: int| 0 <= i < ids.len() implies m(#[trigger] ids[i]) && visit::id_wanted(after, ids[i]) by {}
        assert forall|id: Seq<u8>| #[trigger] m(id) && visit::id_wanted(after, id) implies ids.contains(id) || (limit == Some(
            ids.len() as usize,
        ) && ids.len() <= usize::MAX && (ids.len() > 0 ==> bytes::lex_lt(ids.last(), id))) by {
            assert(self.member(key, id));
        }
    }
}

/// `ids` lists what `m` holds of, in order: the first `limit` behind `after`.
spec fn lists(m: spec_fn(Seq<u8>) -> bool, after: Option<Seq<u8>>, limit: Option<usize>, ids: Seq<Seq<u8>>) -> bool {
    &&& forall|i: int| 0 <= i < ids.len() ==> m(#[trigger] ids[i]) && visit::id_wanted(after, ids[i])
    &&& forall|i: int, j: int| 0 <= i < j < ids.len() ==> bytes::lex_lt(#[trigger] ids[i], #[trigger] ids[j])
    &&& forall|id: Seq<u8>|
        #[trigger] m(id) && visit::id_wanted(after, id) ==> ids.contains(id) || (limit == Some(ids.len() as usize) && ids.len()
            <= usize::MAX && (ids.len() > 0 ==> bytes::lex_lt(ids.last(), id)))
}

/// Where batch `b` begins.
spec fn behind(batches: Seq<Seq<Seq<u8>>>, b: int) -> Option<Seq<u8>> {
    if b == 0 {
        None
    } else {
        Some(batches[b - 1].last())
    }
}

/// `all` rises and lists what `m` holds of, but for what stands behind its last.
spec fn so_far(m: spec_fn(Seq<u8>) -> bool, all: Seq<Seq<u8>>, more: bool) -> bool {
    &&& forall|i: int| 0 <= i < all.len() ==> m(#[trigger] all[i])
    &&& forall|i: int, j: int| 0 <= i < j < all.len() ==> bytes::lex_lt(#[trigger] all[i], #[trigger] all[j])
    &&& more ==> all.len() > 0
    &&& forall|id: Seq<u8>| #[trigger] m(id) ==> all.contains(id) || (more && bytes::lex_lt(all.last(), id))
}

proof fn lemma_batch_behind(m: spec_fn(Seq<u8>) -> bool, before: Seq<Seq<u8>>, limit: usize, b: Seq<Seq<u8>>)
    requires
        so_far(m, before, true),
        limit > 0,
        lists(m, Some(before.last()), Some(limit), b),
    ensures
        so_far(m, before + b, b.len() == limit),
        b.len() > 0 ==> (before + b).last() == b.last(),
{
    let all = before + b;
    assert forall|i: int| 0 <= i < all.len() implies m(#[trigger] all[i]) by {
        if i < before.len() {
            assert(all[i] == before[i]);
        } else {
            assert(all[i] == b[i - before.len()]);
        }
    }
    assert forall|i: int, j: int| 0 <= i < j < all.len() implies bytes::lex_lt(#[trigger] all[i], #[trigger] all[j]) by {
        if j < before.len() {
            assert(all[i] == before[i] && all[j] == before[j]);
        } else if i >= before.len() {
            assert(all[i] == b[i - before.len()] && all[j] == b[j - before.len()]);
        } else {
            assert(all[i] == before[i] && all[j] == b[j - before.len()]);
            if i < before.len() - 1 {
                assert(bytes::lex_lt(before[i], before[before.len() - 1]));
                bytes::lemma_lex_transitive(before[i], before.last(), all[j]);
            }
        }
    }
    assert forall|id: Seq<u8>| #[trigger] m(id) implies all.contains(id) || (b.len() == limit && bytes::lex_lt(all.last(), id)) by {
        if before.contains(id) {
            let i = before.index_of(id);
            assert(all[i] == id);
        } else if b.contains(id) {
            let i = b.index_of(id);
            assert(all[before.len() + i] == id);
        }
    }
}

proof fn lemma_batches_joined(m: spec_fn(Seq<u8>) -> bool, limit: usize, batches: Seq<Seq<Seq<u8>>>, k: int)
    requires
        forall|b: int| 0 <= b < batches.len() ==> lists(m, behind(batches, b), Some(limit), #[trigger] batches[b]),
        forall|b: int| 0 <= b < batches.len() - 1 ==> (#[trigger] batches[b]).len() == limit,
        batches.len() > 0,
        batches.last().len() < limit,
        1 <= k <= batches.len(),
    ensures
        so_far(m, joined(batches, k), k < batches.len()),
        k < batches.len() ==> joined(batches, k).last() == batches[k - 1].last(),
    decreases k,
{
    let b = batches[k - 1];
    assert(lists(m, behind(batches, k - 1), Some(limit), batches[k - 1]));
    if k == 1 {
        assert(joined(batches, 0) =~= Seq::empty());
        assert(joined(batches, 1) =~= b);
    } else {
        lemma_batches_joined(m, limit, batches, k - 1);
        assert(batches[k - 2].len() == limit);
        lemma_batch_behind(m, joined(batches, k - 1), limit, b);
    }
}

/// Lists that rise and hold the same are the same.
proof fn lemma_same_ids(a: Seq<Seq<u8>>, b: Seq<Seq<u8>>)
    requires
        forall|i: int, j: int| 0 <= i < j < a.len() ==> bytes::lex_lt(#[trigger] a[i], #[trigger] a[j]),
        forall|i: int, j: int| 0 <= i < j < b.len() ==> bytes::lex_lt(#[trigger] b[i], #[trigger] b[j]),
        forall|x: Seq<u8>| a.contains(x) <==> b.contains(x),
    ensures
        a == b,
    decreases a.len(),
{
    if a.len() == 0 {
        if b.len() > 0 {
            assert(b.contains(b[0]));
        }
        assert(a =~= b);
    } else {
        assert(a.contains(a.last()));
        assert(b.contains(a.last()));
        let x = b.index_of(a.last());
        assert(b.contains(b.last()));
        assert(a.contains(b.last()));
        let y = a.index_of(b.last());
        if x < b.len() - 1 {
            assert(bytes::lex_lt(b[x], b[b.len() - 1]));
            if y < a.len() - 1 {
                assert(bytes::lex_lt(a[y], a[a.len() - 1]));
                bytes::lemma_lex_transitive(a.last(), b.last(), a.last());
            }
            bytes::lemma_lex_irreflexive(a.last());
        }
        assert(a.last() == b.last());
        let s = a.drop_last();
        let t = b.drop_last();
        assert forall|z: Seq<u8>| s.contains(z) <==> t.contains(z) by {
            if s.contains(z) {
                let i = s.index_of(z);
                assert(a[i] == z);
                assert(a.contains(z));
                assert(bytes::lex_lt(a[i], a[a.len() - 1]));
                let j = b.index_of(z);
                if j == b.len() - 1 {
                    bytes::lemma_lex_irreflexive(z);
                }
                assert(t[j] == z);
            }
            if t.contains(z) {
                let i = t.index_of(z);
                assert(b[i] == z);
                assert(b.contains(z));
                assert(bytes::lex_lt(b[i], b[b.len() - 1]));
                let j = a.index_of(z);
                if j == a.len() - 1 {
                    bytes::lemma_lex_irreflexive(z);
                }
                assert(s[j] == z);
            }
        }
        lemma_same_ids(s, t);
        assert(a =~= s.push(a.last()));
        assert(b =~= t.push(b.last()));
    }
}

/// A pair gives back the value and the id that it was made of.
pub proof fn lemma_pair_round_trip(key: Seq<u8>, id: Seq<u8>)
    requires
        key.len() <= u32::MAX,
        valid_utf8(id),
    ensures
        pair_parts(pair_of(key, id)) == Ok::<(Seq<u8>, Seq<u8>), Seq<char>>((key, id)),
{
    let pair = pair_of(key, id);
    bytes::lemma_radix_small();
    bytes::lemma_be_len(key.len(), 4);
    bytes::lemma_be_round_trip(key.len(), 4);
    assert(pair.subrange(1, 5) =~= bytes::be(key.len(), 4));
    assert(pair.subrange(5, (5 + key.len()) as int) =~= key);
    assert(pair.subrange((5 + key.len()) as int, pair.len() as int) =~= id);
}

/// The pairs of a value stand in the order of their ids.
pub proof fn lemma_pair_order(key: Seq<u8>, a: Seq<u8>, b: Seq<u8>)
    ensures
        bytes::lex_lt(pair_of(key, a), pair_of(key, b)) <==> bytes::lex_lt(a, b),
        pair_of(key, a) == pair_of(key, b) <==> a == b,
{
    bytes::lemma_lex_cancel_prefix(pair_prefix(key), a, b);
    let n = pair_prefix(key).len() as int;
    if pair_of(key, a) == pair_of(key, b) {
        assert(pair_of(key, a).subrange(n, pair_of(key, a).len() as int) =~= a);
        assert(pair_of(key, b).subrange(n, pair_of(key, b).len() as int) =~= b);
    }
}

/// Different pairs have different bytes.
pub proof fn lemma_pair_injective(k1: Seq<u8>, id1: Seq<u8>, k2: Seq<u8>, id2: Seq<u8>)
    requires
        k1.len() <= u32::MAX,
        k2.len() <= u32::MAX,
        pair_of(k1, id1) == pair_of(k2, id2),
    ensures
        k1 == k2 && id1 == id2,
{
    let a = pair_of(k1, id1);
    let b = pair_of(k2, id2);
    bytes::lemma_radix_small();
    bytes::lemma_be_len(k1.len(), 4);
    bytes::lemma_be_round_trip(k1.len(), 4);
    bytes::lemma_be_len(k2.len(), 4);
    bytes::lemma_be_round_trip(k2.len(), 4);
    assert(a.subrange(1, 5) =~= bytes::be(k1.len(), 4));
    assert(b.subrange(1, 5) =~= bytes::be(k2.len(), 4));
    assert(a.subrange(5, (5 + k1.len()) as int) =~= k1);
    assert(b.subrange(5, (5 + k2.len()) as int) =~= k2);
    assert(a.subrange((5 + k1.len()) as int, a.len() as int) =~= id1);
    assert(b.subrange((5 + k2.len()) as int, b.len() as int) =~= id2);
}

pub open spec fn operation_bytes(version: u64, operation: u8) -> Seq<u8> {
    bytes::be(version as nat, 8).push(operation)
}

/// The version and the operation that a value of a run holds.
pub open spec fn operation_of(value: Seq<u8>) -> Result<(u64, u8), Seq<char>> {
    if value.len() != 9 || (value[8] != SECONDARY_DELETE && value[8] != SECONDARY_ADD) {
        Err("secondary index: invalid operation"@)
    } else {
        Ok((bytes::be_value(value.subrange(0, 8)) as u64, value[8]))
    }
}

pub fn secondary_operation(version: u64, operation: u8) -> (r: Vec<u8>)
    ensures
        r@ == operation_bytes(version, operation),
{
    let mut value: Vec<u8> = Vec::new();
    proof {
        bytes::lemma_radix_small();
    }
    bytes::push_be(&mut value, version, 8);
    value.push(operation);
    assert(value@ =~= operation_bytes(version, operation));
    value
}

pub fn decode_secondary_operation(value: &[u8]) -> (r: Result<(u64, u8), Error>)
    ensures
        match operation_of(value@) {
            Ok(op) => r is Ok && r->Ok_0 == op,
            Err(m) => r is Err && r->Err_0@ == ErrorView::Corrupt(m),
        },
{
    if value.len() != 9 || (value[8] != SECONDARY_DELETE && value[8] != SECONDARY_ADD) {
        return Err(corrupt("secondary index: invalid operation"));
    }
    proof {
        bytes::lemma_radix_small();
        bytes::lemma_be_value_bound(value@.subrange(0, 8));
    }
    match bytes::read_be(value, 0, 8) {
        Some(version) => Ok((version, value[8])),
        None => {
            assert(false);
            Err(corrupt("secondary index: invalid operation"))
        },
    }
}

/// An operation gives back the version and the kind that it was made of.
pub proof fn lemma_operation_round_trip(version: u64, operation: u8)
    requires
        operation == SECONDARY_DELETE || operation == SECONDARY_ADD,
    ensures
        operation_of(operation_bytes(version, operation)) == Ok::<(u64, u8), Seq<char>>((version, operation)),
{
    bytes::lemma_radix_small();
    bytes::lemma_be_len(version as nat, 8);
    bytes::lemma_be_round_trip(version as nat, 8);
    assert(operation_bytes(version, operation).subrange(0, 8) =~= bytes::be(version as nat, 8));
}

// ---- The newest operation on a pair -----------------------------------------

pub open spec fn op_after(a: (u64, u8), b: (u64, u8)) -> bool {
    a.0 > b.0 || (a.0 == b.0 && a.1 > b.1)
}

/// The later of what was found so far and another operation.
pub open spec fn later(found: Option<(u64, u8)>, op: (u64, u8)) -> Option<(u64, u8)> {
    match found {
        None => Some(op),
        Some(f) => if op_after(op, f) {
            Some(op)
        } else {
            Some(f)
        },
    }
}

/// The newest operation among stored values.
pub open spec fn newest_op(values: Seq<Seq<u8>>) -> Option<(u64, u8)>
    decreases values.len(),
{
    if values.len() == 0 {
        None
    } else {
        match operation_of(values.last()) {
            Ok(op) => later(newest_op(values.drop_last()), op),
            Err(_) => newest_op(values.drop_last()),
        }
    }
}

/// The values of a pair in the runs, one run after another.
pub open spec fn run_values(runs: Seq<Run>, pair: Seq<u8>) -> Seq<Seq<u8>>
    decreases runs.len(),
{
    if runs.len() == 0 {
        Seq::empty()
    } else {
        run_values(runs.drop_last(), pair) + paged::values_of(runs.last().index.rows(), pair)
    }
}

pub open spec fn is_add(op: Option<(u64, u8)>) -> bool {
    op matches Some(o) && o.1 == SECONDARY_ADD
}

impl SecIdx {
    pub open spec fn wf(&self) -> bool {
        &&& self.overlay.wf()
        &&& forall|i: int| 0 <= i < self.runs@.len() ==> (#[trigger] self.runs@[i]).index.wf()
    }

    /// Whether the pair is in the index.
    pub open spec fn has_pair(&self, pair: Seq<u8>) -> bool {
        if self.overlay@.contains_key(pair) {
            self.overlay@[pair] == PairChange::Added
        } else {
            is_add(newest_op(run_values(self.runs@, pair)))
        }
    }

    /// Whether the record with this id has this value.
    pub open spec fn member(&self, key: Seq<u8>, id: Seq<u8>) -> bool {
        self.has_pair(pair_of(key, id))
    }

    /// Whether the runs or the changes say anything of a pair.
    pub open spec fn mentions(&self, pair: Seq<u8>) -> bool {
        primary::run_holds(self.runs@, pair) || self.overlay@.contains_key(pair)
    }

    /// A pair of the value that cannot be read.
    pub open spec fn is_fault(&self, key: Seq<u8>, pair: Seq<u8>, m: Seq<char>) -> bool {
        &&& self.mentions(pair)
        &&& pair_prefix(key).is_prefix_of(pair)
        &&& pair_parts(pair) == Err::<(Seq<u8>, Seq<u8>), Seq<char>>(m) || exists|i: int|
            0 <= i < run_values(self.runs@, pair).len() && operation_of(#[trigger] run_values(self.runs@, pair)[i]) == Err::<
                (u64, u8),
                Seq<char>,
            >(m)
    }

    /// `ids` lists the records with a value in the order of their ids: the
    /// first `limit` of those that are wanted, or all of them.
    pub open spec fn is_id_list(&self, key: Seq<u8>, after: Option<Seq<u8>>, limit: Option<usize>, ids: Seq<Seq<u8>>) -> bool {
        &&& limit matches Some(l) ==> ids.len() <= l
        &&& forall|i: int| 0 <= i < ids.len() ==> self.member(key, #[trigger] ids[i]) && visit::id_wanted(after, ids[i])
        &&& forall|i: int, j: int| 0 <= i < j < ids.len() ==> bytes::lex_lt(#[trigger] ids[i], #[trigger] ids[j])
        &&& forall|id: Seq<u8>|
            #[trigger] self.member(key, id) && visit::id_wanted(after, id) ==> ids.contains(id) || (limit == Some(ids.len() as usize)
                && ids.len() <= usize::MAX && (ids.len() > 0 ==> bytes::lex_lt(ids.last(), id)))
    }
}

pub open spec fn id_bytes(ids: Seq<String>) -> Seq<Seq<u8>> {
    Seq::new(ids.len(), |i: int| encode_utf8(ids[i]@))
}

/// Whether a list of this length may still grow.
pub fn has_room(len: usize, limit: Option<usize>) -> (r: bool)
    ensures
        r == (limit matches Some(l) ==> len < l),
{
    match limit {
        Some(l) => len < l,
        None => true,
    }
}

/// A pair that the runs do not hold has no values.
proof fn lemma_no_values(runs: Seq<Run>, pair: Seq<u8>)
    ensures
        !primary::run_holds(runs, pair) ==> run_values(runs, pair).len() == 0,
    decreases runs.len(),
{
    if runs.len() > 0 {
        let t = runs.drop_last();
        lemma_no_values(t, pair);
        let rows = runs.last().index.rows();
        let values = paged::values_of(rows, pair);
        if !primary::run_holds(runs, pair) {
            if primary::run_holds(t, pair) {
                let i = choose|i: int| 0 <= i < t.len() && #[trigger] paged::holds_key(t[i].index.rows(), pair);
                assert(paged::holds_key(runs[i].index.rows(), pair));
            }
            if values.len() > 0 {
                paged::lemma_values_of(rows, pair, values[0]);
                assert(values.contains(values[0]));
                let i = choose|i: int| 0 <= i < rows.len() && #[trigger] rows[i] == (pair, values[0]);
                assert(paged::holds_key(runs[runs.len() - 1].index.rows(), pair));
            }
        }
    }
}

fn pick_op(found: Option<(u64, u8)>, op: (u64, u8)) -> (r: Option<(u64, u8)>)
    ensures
        r == later(found, op),
{
    match found {
        None => Some(op),
        Some(f) => {
            if op.0 > f.0 || (op.0 == f.0 && op.1 > f.1) {
                Some(op)
            } else {
                Some(f)
            }
        },
    }
}

impl SecIdx {
    /// An index whose pairs all stand beside the runs.
    pub fn resident(overlay: CowMap<Vec<u8>, PairChange>) -> (r: Self)
        requires
            overlay.wf(),
        ensures
            r.wf(),
            r.generation == 0,
            r.runs@.len() == 0,
            r.overlay == overlay,
    {
        SecIdx { generation: 0, runs: Vec::new(), overlay }
    }

    /// The newest operation of the runs on a pair.
    fn run_op(&self, pair: &[u8]) -> (r: Result<Option<(u64, u8)>, Error>)
        requires
            self.wf(),
        ensures
            r matches Ok(op) ==> op == newest_op(run_values(self.runs@, pair@)),
            r matches Err(e) ==> exists|i: int|
                0 <= i < run_values(self.runs@, pair@).len() && operation_of(#[trigger] run_values(self.runs@, pair@)[i]) is Err
                    && e@ == ErrorView::Corrupt(operation_of(run_values(self.runs@, pair@)[i])->Err_0),
    {
        let mut newest: Option<(u64, u8)> = None;
        let ghost all = run_values(self.runs@, pair@);
        let ghost mut seen: Seq<Seq<u8>> = Seq::empty();
        let mut i: usize = 0;
        assert(self.runs@.subrange(0, 0) =~= Seq::<Run>::empty());
        while i < self.runs.len()
            invariant
                self.wf(),
                i <= self.runs@.len(),
                all == run_values(self.runs@, pair@),
                seen == run_values(self.runs@.subrange(0, i as int), pair@),
                newest == newest_op(seen),
            decreases self.runs@.len() - i,
        {
            let index = &self.runs[i].index;
            let (lo, hi) = index.range_of(pair);
            let ghost values = paged::values_of(index.rows(), pair@);
            let ghost start = seen;
            proof {
                let s = self.runs@.subrange(0, i + 1);
                assert(s.drop_last() =~= self.runs@.subrange(0, i as int));
                assert(s.last() == self.runs@[i as int]);
                lemma_values_prefix(self.runs@, pair@, i + 1);
                assert(start + values.subrange(0, 0) =~= start);
                let both = start + values;
                assert(both.is_prefix_of(all));
                assert forall|q: int| 0 <= q < values.len() implies #[trigger] values[q] == all[start.len() + q] by {
                    assert(both[start.len() + q] == values[q]);
                    assert(all.subrange(0, both.len() as int)[start.len() + q] == all[start.len() + q]);
                }
            }
            let mut j: usize = lo;
            while j < hi
                invariant
                    lo <= j <= hi <= index.rows().len(),
                    values == paged::values_of(index.rows(), pair@),
                    values.len() == hi - lo,
                    forall|q: int| lo <= q < hi ==> (#[trigger] index.rows()[q]).1 == values[q - lo],
                    all == run_values(self.runs@, pair@),
                    start.len() + values.len() <= all.len(),
                    forall|q: int| 0 <= q < values.len() ==> #[trigger] values[q] == all[start.len() + q],
                    seen == start + values.subrange(0, j - lo),
                    newest == newest_op(seen),
                decreases hi - j,
            {
                assert(index.rows()[j as int].1 == values[j - lo]);
                let op = match decode_secondary_operation(index.value_at(j)) {
                    Ok(op) => op,
                    Err(e) => {
                        assert(operation_of(all[start.len() + (j - lo)]) is Err);
                        return Err(e);
                    },
                };
                newest = pick_op(newest, op);
                proof {
                    let next = start + values.subrange(0, j - lo + 1);
                    assert(next.drop_last() =~= seen);
                    assert(next.last() == values[j - lo]);
                    seen = next;
                }
                j = j + 1;
            }
            assert(values.subrange(0, hi - lo) =~= values);
            i = i + 1;
        }
        assert(self.runs@.subrange(0, i as int) =~= self.runs@);
        Ok(newest)
    }

    /// The first pair that is mentioned past `from`, if it has the prefix.
    fn next_pair(&self, prefix: &[u8], from: &[u8], inclusive: bool) -> (r: Option<Vec<u8>>)
        requires
            self.wf(),
            prefix@.is_prefix_of(from@),
        ensures
            r matches Some(pair) ==> {
                &&& self.mentions(pair@)
                &&& prefix@.is_prefix_of(pair@)
                &&& primary::stands_past(from@, inclusive, pair@)
                &&& forall|other: Seq<u8>|
                    #[trigger] self.mentions(other) && prefix@.is_prefix_of(other) && primary::stands_past(from@, inclusive, other)
                        ==> bytes::lex_le(pair@, other)
            },
            r is None ==> forall|other: Seq<u8>|
                #[trigger] self.mentions(other) && prefix@.is_prefix_of(other) ==> !primary::stands_past(from@, inclusive, other),
    {
        let mut best: Option<Vec<u8>> = next_in_runs(&self.runs, from, inclusive);
        let ghost from_runs = best;
        match self.overlay.first_from(from, inclusive) {
            Some((k, _)) => {
                best = least(best, bytes::copy_of(k.as_slice()));
                proof {
                    assert forall|other: Seq<u8>| #[trigger] self.overlay@.contains_key(other) && primary::stands_past(
                        from@,
                        inclusive,
                        other,
                    ) implies bytes::lex_le(best->0@, other) by {
                        paged::lemma_le_transitive(best->0@, k.rank(), other);
                    }
                }
            },
            None => {},
        }
        proof {
            assert forall|other: Seq<u8>| #[trigger] self.mentions(other) && primary::stands_past(from@, inclusive, other) implies (
            best matches Some(k) && bytes::lex_le(k@, other)) by {
                if primary::run_holds(self.runs@, other) {
                    paged::lemma_le_transitive(best->0@, from_runs->0@, other);
                } else {
                    assert(self.overlay@.contains_key(other));
                }
            }
        }
        match best {
            None => None,
            Some(pair) => {
                if bytes::starts_with(pair.as_slice(), prefix) {
                    Some(pair)
                } else {
                    proof {
                        assert forall|other: Seq<u8>| #[trigger] self.mentions(other) && prefix@.is_prefix_of(
                            other,
                        ) implies !primary::stands_past(from@, inclusive, other) by {
                            if primary::stands_past(from@, inclusive, other) {
                                assert(bytes::lex_le(pair@, other));
                                bytes::lemma_prefix_convex(prefix@, from@, pair@, other);
                            }
                        }
                    }
                    None
                }
            },
        }
    }

    /// How much there still is to visit past a place.
    spec fn ahead(&self, from: Seq<u8>, inclusive: bool) -> nat {
        primary::runs_past(self.runs@, from, inclusive) + primary::count_past(self.overlay.pairs(), from, inclusive)
    }

    proof fn lemma_ahead(&self, from: Seq<u8>, inclusive: bool, pair: Seq<u8>)
        requires
            self.wf(),
            self.mentions(pair),
            primary::stands_past(from, inclusive, pair),
        ensures
            self.ahead(pair, false) < self.ahead(from, inclusive),
    {
        primary::lemma_runs_past(self.runs@, from, inclusive, pair);
        primary::lemma_count_past(self.overlay.pairs(), from, inclusive, pair);
        self.overlay.lemma_wf();
        if self.overlay@.contains_key(pair) {
            let s = self.overlay.pairs();
            assert(s[pairs::index_of(s, pair)].0 == pair);
        }
    }

    /// A pair that is in the index is mentioned.
    proof fn lemma_has_mentions(&self, pair: Seq<u8>)
        ensures
            self.has_pair(pair) ==> self.mentions(pair),
    {
        lemma_no_values(self.runs@, pair);
    }

    /// A listing that came to `ids` and has room for more comes next to a pair
    /// that cannot be read.
    pub open spec fn stops_at(
        &self,
        key: Seq<u8>,
        after: Option<Seq<u8>>,
        limit: Option<usize>,
        ids: Seq<Seq<u8>>,
        pair: Seq<u8>,
        m: Seq<char>,
    ) -> bool {
        &&& self.is_fault(key, pair, m)
        &&& limit matches Some(l) ==> ids.len() < l
        &&& after matches Some(a) ==> bytes::lex_lt(pair_of(key, a), pair)
        &&& forall|i: int|
            0 <= i < ids.len() ==> self.member(key, #[trigger] ids[i]) && visit::id_wanted(after, ids[i]) && bytes::lex_lt(
                pair_of(key, ids[i]),
                pair,
            )
        &&& forall|id: Seq<u8>|
            #[trigger] self.member(key, id) && visit::id_wanted(after, id) ==> ids.contains(id) || bytes::lex_le(
                pair,
                pair_of(key, id),
            )
    }

    /// A listing stops with what is wrong with the next pair.
    pub open spec fn list_error(&self, key: Seq<u8>, after: Option<Seq<u8>>, limit: Option<usize>, e: ErrorView) -> bool {
        exists|ids: Seq<Seq<u8>>, pair: Seq<u8>, m: Seq<char>|
            #[trigger] self.stops_at(key, after, limit, ids, pair, m) && e == ErrorView::Corrupt(m)
    }

    /// What is not listed yet stands no earlier than the next pair.
    proof fn lemma_next_members(&self, key: Seq<u8>, wanted: Option<Seq<u8>>, ids: Seq<Seq<u8>>, from: Seq<u8>, inclusive: bool, pair: Seq<u8>)
        requires
            forall|id: Seq<u8>| #[trigger] self.member(key, id) ==> self.mentions(pair_of(key, id)),
            forall|other: Seq<u8>|
                #[trigger] self.mentions(other) && pair_prefix(key).is_prefix_of(other) && primary::stands_past(from, inclusive, other)
                    ==> bytes::lex_le(pair, other),
            forall|id: Seq<u8>|
                #[trigger] self.member(key, id) && visit::id_wanted(wanted, id) ==> ids.contains(id) || primary::stands_past(
                    from,
                    inclusive,
                    pair_of(key, id),
                ),
        ensures
            forall|id: Seq<u8>|
                #[trigger] self.member(key, id) && visit::id_wanted(wanted, id) ==> ids.contains(id) || bytes::lex_le(
                    pair,
                    pair_of(key, id),
                ),
    {
        assert forall|id: Seq<u8>| #[trigger] self.member(key, id) && visit::id_wanted(wanted, id) implies ids.contains(id)
            || bytes::lex_le(pair, pair_of(key, id)) by {
            lemma_pair_prefix(key, id);
        }
    }

    proof fn lemma_list_stopped(
        &self,
        key: Seq<u8>,
        wanted: Option<Seq<u8>>,
        limit: Option<usize>,
        ids: Seq<Seq<u8>>,
        from: Seq<u8>,
        inclusive: bool,
        pair: Seq<u8>,
        m: Seq<char>,
    )
        requires
            limit matches Some(l) ==> ids.len() < l,
            self.is_fault(key, pair, m),
            primary::stands_past(from, inclusive, pair),
            wanted matches Some(a) ==> !primary::stands_past(from, inclusive, pair_of(key, a)),
            forall|i: int|
                0 <= i < ids.len() ==> self.member(key, #[trigger] ids[i]) && visit::id_wanted(wanted, ids[i]) && !primary::stands_past(
                    from,
                    inclusive,
                    pair_of(key, ids[i]),
                ),
            forall|id: Seq<u8>|
                #[trigger] self.member(key, id) && visit::id_wanted(wanted, id) ==> ids.contains(id) || bytes::lex_le(
                    pair,
                    pair_of(key, id),
                ),
        ensures
            self.list_error(key, wanted, limit, ErrorView::Corrupt(m)),
    {
        assert forall|x: Seq<u8>| !(#[trigger] primary::stands_past(from, inclusive, x)) implies bytes::lex_lt(x, pair) by {
            bytes::lemma_lex_trichotomy(from, x);
            if x != from {
                if from != pair {
                    bytes::lemma_lex_transitive(x, from, pair);
                }
            }
        }
        assert(self.stops_at(key, wanted, limit, ids, pair, m));
    }

    /// The records that have a value, in the order of their ids: the first
    /// `limit` of those after `after`.
    pub fn ids_batch(&self, key: &[u8], after: Option<&str>, limit: usize) -> (r: Result<Vec<String>, Error>)
        requires
            self.wf(),
            key@.len() <= u32::MAX,
        ensures
            r matches Ok(ids) ==> self.is_id_list(key@, visit::text_bytes(after), Some(limit), id_bytes(ids@)),
            r matches Err(e) ==> self.list_error(key@, visit::text_bytes(after), Some(limit), e@),
            r matches Err(e) ==> exists|pair: Seq<u8>, m: Seq<char>|
                #[trigger] self.is_fault(key@, pair, m) && e@ == ErrorView::Corrupt(m),
    {
        self.list_ids(key, after, Some(limit))
    }

    #[verifier::rlimit(40)]
    fn list_ids(&self, key: &[u8], after: Option<&str>, limit: Option<usize>) -> (r: Result<Vec<String>, Error>)
        requires
            self.wf(),
            key@.len() <= u32::MAX,
        ensures
            r matches Ok(ids) ==> self.is_id_list(key@, visit::text_bytes(after), limit, id_bytes(ids@)),
            r matches Err(e) ==> self.list_error(key@, visit::text_bytes(after), limit, e@),
            r matches Err(e) ==> exists|pair: Seq<u8>, m: Seq<char>|
                #[trigger] self.is_fault(key@, pair, m) && e@ == ErrorView::Corrupt(m),
    {
        let ghost wanted = visit::text_bytes(after);
        let prefix = secondary_pair_prefix(key);
        let mut from: Vec<u8>;
        let mut inclusive: bool;
        match after {
            Some(a) => {
                from = secondary_pair_key(key, a);
                inclusive = false;
            },
            None => {
                from = bytes::copy_of(prefix.as_slice());
                inclusive = true;
            },
        }
        let mut out: Vec<String> = Vec::new();
        proof {
            assert(from@.subrange(0, prefix@.len() as int) =~= prefix@);
            assert forall|id: Seq<u8>| visit::id_wanted(wanted, id) <==> #[trigger] primary::stands_past(
                from@,
                inclusive,
                pair_of(key@, id),
            ) by {
                lemma_pair_wanted(key@, wanted, id);
            }
            assert(id_bytes(out@) =~= Seq::<Seq<u8>>::empty());
            assert forall|id: Seq<u8>| #[trigger] self.member(key@, id) implies self.mentions(pair_of(key@, id)) by {
                self.lemma_has_mentions(pair_of(key@, id));
            }
        }
        let mut done: bool = false;
        while !done && has_room(out.len(), limit)
            invariant
                self.wf(),
                limit matches Some(l) ==> out@.len() <= l,
                key@.len() <= u32::MAX,
                prefix@ == pair_prefix(key@),
                prefix@.is_prefix_of(from@),
                forall|id: Seq<u8>| #[trigger] self.member(key@, id) ==> self.mentions(pair_of(key@, id)),
                forall|i: int|
                    0 <= i < out@.len() ==> self.member(key@, #[trigger] id_bytes(out@)[i]) && visit::id_wanted(wanted, id_bytes(out@)[i]),
                forall|i: int, j: int| 0 <= i < j < out@.len() ==> bytes::lex_lt(
                    #[trigger] id_bytes(out@)[i],
                    #[trigger] id_bytes(out@)[j],
                ),
                forall|i: int| 0 <= i < out@.len() ==> !primary::stands_past(
                    from@,
                    inclusive,
                    pair_of(key@, #[trigger] id_bytes(out@)[i]),
                ),
                wanted == visit::text_bytes(after),
                wanted matches Some(a) ==> !primary::stands_past(from@, inclusive, pair_of(key@, a)),
                forall|id: Seq<u8>|
                    #[trigger] primary::stands_past(from@, inclusive, pair_of(key@, id)) ==> visit::id_wanted(wanted, id),
                forall|id: Seq<u8>|
                    #[trigger] self.member(key@, id) && visit::id_wanted(wanted, id) ==> id_bytes(out@).contains(id) || (!done
                        && primary::stands_past(from@, inclusive, pair_of(key@, id))),
            decreases self.ahead(from@, inclusive), (if done { 0int } else { 1int }),
        {
            match self.next_pair(prefix.as_slice(), from.as_slice(), inclusive) {
                None => {
                    proof {
                        assert forall|id: Seq<u8>| #[trigger] self.member(key@, id) && visit::id_wanted(
                            wanted,
                            id,
                        ) implies id_bytes(out@).contains(id) by {
                            lemma_pair_prefix(key@, id);
                            assert(self.mentions(pair_of(key@, id)));
                        }
                    }
                    done = true;
                },
                Some(pair) => {
                    let (_, id) = match secondary_pair_parts(pair.as_slice()) {
                        Ok(p) => p,
                        Err(e) => {
                            assert(self.is_fault(key@, pair@, pair_parts(pair@)->Err_0));
                            proof {
                                self.lemma_next_members(key@, wanted, id_bytes(out@), from@, inclusive, pair@);
                                self.lemma_list_stopped(
                                    key@,
                                    wanted,
                                    limit,
                                    id_bytes(out@),
                                    from@,
                                    inclusive,
                                    pair@,
                                    pair_parts(pair@)->Err_0,
                                );
                            }
                            return Err(e);
                        },
                    };
                    let ghost idv = encode_utf8(id@);
                    proof {
                        lemma_parts_of_prefix(key@, pair@);
                        assert(pair@ == pair_of(key@, idv));
                        self.lemma_ahead(from@, inclusive, pair@);
                    }
                    let op = match self.run_op(pair.as_slice()) {
                        Ok(op) => op,
                        Err(e) => {
                            proof {
                                let values = run_values(self.runs@, pair@);
                                let i = choose|i: int|
                                    0 <= i < values.len() && operation_of(#[trigger] values[i]) is Err && e@ == ErrorView::Corrupt(
                                        operation_of(values[i])->Err_0,
                                    );
                                assert(self.is_fault(key@, pair@, operation_of(values[i])->Err_0));
                                self.lemma_next_members(key@, wanted, id_bytes(out@), from@, inclusive, pair@);
                                self.lemma_list_stopped(
                                    key@,
                                    wanted,
                                    limit,
                                    id_bytes(out@),
                                    from@,
                                    inclusive,
                                    pair@,
                                    operation_of(values[i])->Err_0,
                                );
                            }
                            return Err(e);
                        },
                    };
                    let present: bool = match self.overlay.get(pair.as_slice()) {
                        Some(change) => *change == PairChange::Added,
                        None => match op {
                            Some(o) => o.1 == SECONDARY_ADD,
                            None => false,
                        },
                    };
                    assert(present == self.member(key@, idv));
                    let ghost before = id_bytes(out@);
                    let ghost old_from = from@;
                    let ghost old_inclusive = inclusive;
                    if present {
                        out.push(id);
                        assert(id_bytes(out@) =~= before.push(idv));
                    }
                    from = pair;
                    inclusive = false;
                    proof {
                        let now = id_bytes(out@);
                        lemma_step(key@, old_from, old_inclusive, idv);
                        assert forall|i: int, j: int| 0 <= i < j < now.len() implies bytes::lex_lt(#[trigger] now[i], #[trigger] now[j]) by {
                            if present && j == before.len() {
                                assert(now[i] == before[i]);
                                assert(!primary::stands_past(old_from, old_inclusive, pair_of(key@, before[i])));
                                lemma_behind(key@, old_from, old_inclusive, before[i], idv);
                            } else {
                                assert(now[i] == before[i] && now[j] == before[j]);
                            }
                        }
                        assert forall|i: int| 0 <= i < now.len() implies !primary::stands_past(
                            from@,
                            inclusive,
                            pair_of(key@, #[trigger] now[i]),
                        ) by {
                            if i < before.len() {
                                assert(now[i] == before[i]);
                                if primary::stands_past(from@, inclusive, pair_of(key@, now[i])) {
                                    assert(primary::stands_past(old_from, old_inclusive, pair_of(key@, before[i])));
                                }
                            } else {
                                bytes::lemma_lex_irreflexive(from@);
                            }
                        }
                        assert forall|other: Seq<u8>| #[trigger] primary::stands_past(from@, inclusive, pair_of(key@, other)) implies visit::id_wanted(
                            wanted,
                            other,
                        ) by {
                            assert(primary::stands_past(old_from, old_inclusive, pair_of(key@, other)));
                        }
                        assert forall|other: Seq<u8>| #[trigger] self.member(key@, other) && visit::id_wanted(
                            wanted,
                            other,
                        ) implies now.contains(other) || primary::stands_past(from@, inclusive, pair_of(key@, other)) by {
                            if before.contains(other) {
                                let i = before.index_of(other);
                                assert(now[i] == other);
                            } else {
                                lemma_pair_prefix(key@, other);
                                assert(self.mentions(pair_of(key@, other)));
                                assert(bytes::lex_le(from@, pair_of(key@, other)));
                                if from@ == pair_of(key@, other) {
                                    lemma_pair_order(key@, idv, other);
                                    assert(now[before.len() as int] == other);
                                }
                            }
                        }
                    }
                },
            }
        }
        proof {
            let ids = id_bytes(out@);
            assert forall|id: Seq<u8>| #[trigger] self.member(key@, id) && visit::id_wanted(wanted, id) implies ids.contains(id) || (limit
                == Some(ids.len() as usize) && ids.len() <= usize::MAX && (ids.len() > 0 ==> bytes::lex_lt(ids.last(), id))) by {
                if !ids.contains(id) && ids.len() > 0 {
                    assert(!primary::stands_past(from@, inclusive, pair_of(key@, ids[ids.len() - 1])));
                    lemma_behind(key@, from@, inclusive, ids.last(), id);
                }
            }
        }
        Ok(out)
    }

    /// All records that have a value, in the order of their ids.
    pub fn ids(&self, key: &[u8]) -> (r: Result<Vec<String>, Error>)
        requires
            self.wf(),
            key@.len() <= u32::MAX,
        ensures
            r matches Ok(ids) ==> self.is_id_list(key@, None, None, id_bytes(ids@)),
            r matches Err(e) ==> self.list_error(key@, None, None, e@),
            r matches Err(e) ==> exists|pair: Seq<u8>, m: Seq<char>|
                #[trigger] self.is_fault(key@, pair, m) && e@ == ErrorView::Corrupt(m),
    {
        self.list_ids(key, None, None)
    }

    /// Put a pair into the index.
    pub fn add(&mut self, key: &[u8], id: &str)
        requires
            old(self).wf(),
            key@.len() <= u32::MAX,
        ensures
            final(self).wf(),
            final(self).generation == old(self).generation,
            final(self).runs == old(self).runs,
            final(self).overlay@ == old(self).overlay@.insert(pair_of(key@, encode_utf8(id@)), PairChange::Added),
    {
        let pair = secondary_pair_key(key, id);
        let _ = self.overlay.insert(pair, PairChange::Added);
    }

    /// Take a pair out of the index. Where there are runs, the removal is kept
    /// to hide what they hold.
    pub fn remove(&mut self, key: &[u8], id: &str)
        requires
            old(self).wf(),
            key@.len() <= u32::MAX,
        ensures
            final(self).wf(),
            final(self).generation == old(self).generation,
            final(self).runs == old(self).runs,
            final(self).overlay@ == (if old(self).runs@.len() == 0 {
                old(self).overlay@.remove(pair_of(key@, encode_utf8(id@)))
            } else {
                old(self).overlay@.insert(pair_of(key@, encode_utf8(id@)), PairChange::Removed)
            }),
    {
        let pair = secondary_pair_key(key, id);
        if self.runs.len() == 0 {
            let _ = self.overlay.remove(pair.as_slice());
        } else {
            let _ = self.overlay.insert(pair, PairChange::Removed);
        }
    }
}

proof fn lemma_pair_prefix(key: Seq<u8>, id: Seq<u8>)
    ensures
        pair_prefix(key).is_prefix_of(pair_of(key, id)),
{
    assert(pair_of(key, id).subrange(0, pair_prefix(key).len() as int) =~= pair_prefix(key));
}

proof fn lemma_pair_wanted(key: Seq<u8>, after: Option<Seq<u8>>, id: Seq<u8>)
    ensures
        match after {
            Some(a) => visit::id_wanted(after, id) <==> primary::stands_past(pair_of(key, a), false, pair_of(key, id)),
            None => primary::stands_past(pair_prefix(key), true, pair_of(key, id)),
        },
{
    match after {
        Some(a) => {
            lemma_pair_order(key, a, id);
        },
        None => {
            lemma_pair_prefix(key, id);
            bytes::lemma_prefix_le(pair_prefix(key), pair_of(key, id));
        },
    }
}

pub proof fn lemma_parts_of_prefix(key: Seq<u8>, pair: Seq<u8>)
    requires
        key.len() <= u32::MAX,
        pair_prefix(key).is_prefix_of(pair),
        pair_parts(pair) is Ok,
    ensures
        pair == pair_of(key, pair_parts(pair)->Ok_0.1),
{
    let p = pair_prefix(key);
    bytes::lemma_radix_small();
    bytes::lemma_be_len(key.len(), 4);
    bytes::lemma_be_round_trip(key.len(), 4);
    assert(pair.subrange(0, p.len() as int) =~= p);
    assert(pair.subrange(1, 5) =~= p.subrange(1, 5));
    assert(p.subrange(1, 5) =~= bytes::be(key.len(), 4));
    assert(pair =~= pair_of(key, pair.subrange((5 + key.len()) as int, pair.len() as int)));
}

/// What stands past a pair stood past everything before it.
proof fn lemma_step(key: Seq<u8>, from: Seq<u8>, inclusive: bool, id: Seq<u8>)
    requires
        primary::stands_past(from, inclusive, pair_of(key, id)),
    ensures
        forall|other: Seq<u8>| #[trigger] primary::stands_past(pair_of(key, id), false, pair_of(key, other)) ==> primary::stands_past(
            from,
            inclusive,
            pair_of(key, other),
        ),
{
    assert forall|other: Seq<u8>| #[trigger] primary::stands_past(
        pair_of(key, id),
        false,
        pair_of(key, other),
    ) implies primary::stands_past(from, inclusive, pair_of(key, other)) by {
        if bytes::lex_lt(from, pair_of(key, id)) {
            bytes::lemma_lex_transitive(from, pair_of(key, id), pair_of(key, other));
        }
    }
}

/// An id at or behind a place stands before an id past it.
proof fn lemma_behind(key: Seq<u8>, from: Seq<u8>, inclusive: bool, a: Seq<u8>, b: Seq<u8>)
    requires
        !primary::stands_past(from, inclusive, pair_of(key, a)),
        primary::stands_past(from, inclusive, pair_of(key, b)),
    ensures
        bytes::lex_lt(a, b),
{
    let pa = pair_of(key, a);
    let pb = pair_of(key, b);
    bytes::lemma_lex_trichotomy(from, pa);
    lemma_pair_order(key, a, b);
    if pa == from {
    } else {
        assert(bytes::lex_lt(pa, from));
        if bytes::lex_lt(from, pb) {
            bytes::lemma_lex_transitive(pa, from, pb);
        }
    }
}

/// The values of a pair in the first runs come first.
proof fn lemma_values_prefix(runs: Seq<Run>, pair: Seq<u8>, n: int)
    requires
        0 <= n <= runs.len(),
    ensures
        run_values(runs.subrange(0, n), pair).is_prefix_of(run_values(runs, pair)),
    decreases runs.len() - n,
{
    if n < runs.len() {
        lemma_values_prefix(runs, pair, n + 1);
        assert(runs.subrange(0, n + 1).drop_last() =~= runs.subrange(0, n));
    } else {
        assert(runs.subrange(0, n) =~= runs);
    }
}

/// An added pair is in the index, a removed one is not, and no other pair is
/// touched.
pub proof fn lemma_pair_changes(before: &SecIdx, after: &SecIdx, pair: Seq<u8>, change: PairChange, other: Seq<u8>)
    requires
        after.runs == before.runs,
        after.overlay@ == before.overlay@.insert(pair, change) || (change == PairChange::Removed && before.runs@.len() == 0
            && after.overlay@ == before.overlay@.remove(pair)),
    ensures
        after.has_pair(pair) == (change == PairChange::Added),
        other != pair ==> after.has_pair(other) == before.has_pair(other),
{
    if before.runs@.len() == 0 {
        assert(run_values(after.runs@, pair).len() == 0);
    }
}

// ---- Runs -------------------------------------------------------------------

/// The key of the row that names the format of a run.
pub open spec fn format_key() -> Seq<u8> {
    seq![0u8]
}

/// "ESQLSID2", what the first row under the format key holds.
pub open spec fn format_value() -> Seq<u8> {
    seq![69u8, 83, 81, 76, 83, 73, 68, 50]
}

/// Whether a run names the format that is in use.
pub open spec fn run_supported(rows: Seq<(Seq<u8>, Seq<u8>)>) -> bool {
    let values = paged::values_of(rows, format_key());
    values.len() > 0 && values[0] == format_value()
}

pub fn secondary_format_row() -> (r: Row)
    ensures
        paged::row_view(r) == (format_key(), format_value()),
{
    let key: Vec<u8> = vec![0u8];
    let value: Vec<u8> = vec![69u8, 83, 81, 76, 83, 73, 68, 50];
    assert(key@ =~= format_key());
    assert(value@ =~= format_value());
    Row { key, value }
}

pub fn validate_secondary_run(index: &PagedIndex) -> (r: Result<(), Error>)
    requires
        index.wf(),
    ensures
        r is Ok <==> run_supported(index.rows()),
        r matches Err(e) ==> e@ == ErrorView::Corrupt("secondary index: unsupported run format"@),
{
    let row = secondary_format_row();
    let (lo, hi) = index.range_of(row.key.as_slice());
    if lo < hi {
        assert(index.rows()[lo as int].1 == paged::values_of(index.rows(), format_key())[0]);
        if bytes::same_bytes(index.value_at(lo), row.value.as_slice()) {
            return Ok(());
        }
    }
    Err(corrupt("secondary index: unsupported run format"))
}

impl SecIdx {
    /// An index of the given runs, each of the format that is in use.
    pub fn paged_runs(generation: u64, runs: Vec<Run>) -> (r: Result<SecIdx, Error>)
        requires
            forall|i: int| 0 <= i < runs@.len() ==> (#[trigger] runs@[i]).index.wf(),
        ensures
            r is Ok <==> forall|i: int| 0 <= i < runs@.len() ==> run_supported((#[trigger] runs@[i]).index.rows()),
            r matches Ok(index) ==> {
                &&& index.wf()
                &&& index.generation == generation
                &&& index.runs == runs
                &&& index.overlay@ == Map::<Seq<u8>, PairChange>::empty()
            },
            r matches Err(e) ==> e@ == ErrorView::Corrupt("secondary index: unsupported run format"@),
    {
        let mut i: usize = 0;
        while i < runs.len()
            invariant
                i <= runs@.len(),
                forall|i: int| 0 <= i < runs@.len() ==> (#[trigger] runs@[i]).index.wf(),
                forall|j: int| 0 <= j < i ==> run_supported((#[trigger] runs@[j]).index.rows()),
            decreases runs@.len() - i,
        {
            match validate_secondary_run(&runs[i].index) {
                Ok(()) => {},
                Err(e) => {
                    return Err(e);
                },
            }
            i = i + 1;
        }
        Ok(SecIdx { generation, runs, overlay: CowMap::new() })
    }
}

// ---- Memory -----------------------------------------------------------------

/// The part of a pair that names the value.
pub open spec fn value_part(pair: Seq<u8>) -> Seq<u8> {
    if pair.len() >= 5 && 5 + bytes::be_value(pair.subrange(1, 5)) <= pair.len() {
        pair.subrange(0, (5 + bytes::be_value(pair.subrange(1, 5))) as int)
    } else {
        pair
    }
}

/// The estimated memory of the changes of one kind: per value its bytes and a
/// slot, per id its bytes and a node.
pub open spec fn changes_cost(s: Seq<(Seq<u8>, PairChange)>, last: Option<Seq<u8>>, kind: PairChange) -> int
    decreases s.len(),
{
    if s.len() == 0 {
        0
    } else {
        let (pair, change) = s[0];
        let rest = s.subrange(1, s.len() as int);
        if change != kind {
            changes_cost(rest, last, kind)
        } else {
            let part = value_part(pair);
            (if last == Some(part) {
                0
            } else {
                part.len() - 5 + 96
            }) + (pair.len() - part.len()) + 48 + changes_cost(rest, Some(part), kind)
        }
    }
}

fn value_part_len(pair: &[u8]) -> (r: usize)
    ensures
        r == value_part(pair@).len(),
        r <= pair@.len(),
        value_part(pair@) == pair@.subrange(0, r as int),
        pair@.len() >= 5 ==> r >= 5,
{
    proof {
        bytes::lemma_radix_small();
        assert(pair@.subrange(0, pair@.len() as int) =~= pair@);
    }
    if pair.len() < 5 {
        return pair.len();
    }
    match bytes::read_be(pair, 1, 4) {
        Some(n) => {
            if n <= (pair.len() - 5) as u64 {
                5 + n as usize
            } else {
                pair.len()
            }
        },
        None => pair.len(),
    }
}

fn kind_bytes(entries: &Vec<(&Vec<u8>, &PairChange)>, kind: PairChange) -> (r: usize)
    requires
        forall|i: int| 0 <= i < entries@.len() ==> (#[trigger] entries@[i]).0@.len() >= 5,
    ensures
        r == record::capped(changes_cost(cow::entry_pairs(entries@), None, kind)),
        changes_cost(cow::entry_pairs(entries@), None, kind) >= 0,
{
    let ghost s = cow::entry_pairs(entries@);
    let mut total: usize = 0;
    let mut last: Option<Vec<u8>> = None;
    let ghost mut spent: int = 0;
    let mut i: usize = 0;
    assert(s.subrange(0, s.len() as int) =~= s);
    while i < entries.len()
        invariant
            i <= entries@.len(),
            s == cow::entry_pairs(entries@),
            s.len() == entries@.len(),
            forall|i: int| 0 <= i < entries@.len() ==> (#[trigger] entries@[i]).0@.len() >= 5,
            spent >= 0,
            total == record::capped(spent),
            changes_cost(s, None, kind) == spent + changes_cost(
                s.subrange(i as int, s.len() as int),
                primary::option_view(last),
                kind,
            ),
        decreases entries@.len() - i,
    {
        let (pair, change) = entries[i];
        proof {
            let t = s.subrange(i as int, s.len() as int);
            assert(t[0] == s[i as int]);
            assert(s[i as int] == (pair.rank(), change@));
            assert(t.subrange(1, t.len() as int) =~= s.subrange(i + 1, s.len() as int));
        }
        if *change == kind {
            let n: usize = value_part_len(pair.as_slice());
            let part = bytes::copy_range(pair.as_slice(), 0, n);
            let same: bool = match &last {
                Some(l) => bytes::same_bytes(l.as_slice(), part.as_slice()),
                None => false,
            };
            let ghost cost: int = (if same {
                0
            } else {
                n - 5 + 96
            }) + (pair@.len() - n) + 48;
            if !same {
                total = total.saturating_add(n - 5).saturating_add(96);
            }
            total = total.saturating_add(pair.len() - n).saturating_add(48);
            proof {
                spent = spent + cost;
            }
            last = Some(part);
        }
        i = i + 1;
    }
    assert(s.subrange(i as int, s.len() as int).len() == 0);
    total
}

impl SecIdx {
    /// Every change names a value and an id.
    pub open spec fn overlay_ok(&self) -> bool {
        forall|pair: Seq<u8>| #[trigger] self.overlay@.contains_key(pair) ==> pair.len() >= 5
    }

    /// The estimated memory of the changes that are in no run.
    pub fn delta_memory_bytes(&self) -> (r: usize)
        requires
            self.wf(),
            self.overlay_ok(),
        ensures
            r == record::capped(
                changes_cost(self.overlay.pairs(), None, PairChange::Added) + changes_cost(
                    self.overlay.pairs(),
                    None,
                    PairChange::Removed,
                ),
            ),
    {
        let entries = self.overlay.iter();
        proof {
            self.overlay.lemma_wf();
            let s = self.overlay.pairs();
            assert forall|i: int| 0 <= i < entries@.len() implies (#[trigger] entries@[i]).0@.len() >= 5 by {
                pairs::lemma_to_map_at(s, i);
                assert(cow::entry_pairs(entries@)[i] == (entries@[i].0.rank(), entries@[i].1@));
                assert(self.overlay@.contains_key(s[i].0));
            }
        }
        kind_bytes(&entries, PairChange::Added).saturating_add(kind_bytes(&entries, PairChange::Removed))
    }
}

// ---- Merging runs -----------------------------------------------------------

/// `out` has the keys of `rows`, each once, with the greatest of its values.
pub open spec fn keeps_greatest(rows: Seq<(Seq<u8>, Seq<u8>)>, out: Seq<(Seq<u8>, Seq<u8>)>) -> bool {
    &&& forall|i: int, j: int| 0 <= i < j < out.len() ==> bytes::lex_lt(#[trigger] out[i].0, #[trigger] out[j].0)
    &&& forall|i: int| 0 <= i < out.len() ==> paged::holds_row(rows, #[trigger] out[i])
    &&& forall|i: int| 0 <= i < rows.len() ==> kept_above(out, #[trigger] rows[i])
}

pub open spec fn kept_above(out: Seq<(Seq<u8>, Seq<u8>)>, row: (Seq<u8>, Seq<u8>)) -> bool {
    exists|k: int| 0 <= k < out.len() && #[trigger] out[k].0 == row.0 && bytes::lex_le(row.1, out[k].1)
}

/// Keep of each key the row with the greatest value.
pub fn latest_values(index: &PagedIndex) -> (r: PagedIndex)
    requires
        index.wf(),
    ensures
        r.wf(),
        r.version() == index.version(),
        keeps_greatest(index.rows(), r.rows()),
{
    let ghost rows = index.rows();
    proof {
        index.lemma_wf();
    }
    let mut out: Vec<Row> = Vec::new();
    let mut i: usize = 0;
    while i < index.len()
        invariant
            index.wf(),
            rows == index.rows(),
            paged::in_order(rows),
            i <= rows.len(),
            forall|a: int, b: int| 0 <= a < b < out@.len() ==> bytes::lex_lt(
                #[trigger] paged::row_views(out@)[a].0,
                #[trigger] paged::row_views(out@)[b].0,
            ),
            forall|a: int| 0 <= a < out@.len() ==> paged::holds_row(rows, #[trigger] paged::row_views(out@)[a]),
            forall|a: int| 0 <= a < i ==> kept_above(paged::row_views(out@), #[trigger] rows[a]),
            i > 0 ==> out@.len() > 0 && paged::row_views(out@).last().0 == rows[i - 1].0,
            i == 0 ==> out@.len() == 0,
        decreases rows.len() - i,
    {
        let key = bytes::copy_of(index.key_at(i));
        let value = bytes::copy_of(index.value_at(i));
        let ghost before = paged::row_views(out@);
        let ghost row = rows[i as int];
        assert(row == (key@, value@));
        assert(paged::holds_row(rows, rows[i as int]));
        let n: usize = out.len();
        let same: bool = n > 0 && bytes::same_bytes(out[n - 1].key.as_slice(), key.as_slice());
        if same {
            assert(before[n - 1] == paged::row_view(out@[n - 1]));
            match bytes::place(value.as_slice(), out[n - 1].value.as_slice()) {
                bytes::Place::After => {
                    let _ = out.pop();
                    out.push(Row { key, value });
                    proof {
                        let now = paged::row_views(out@);
                        assert(now =~= before.update(n - 1, row));
                        assert forall|a: int| 0 <= a < i + 1 implies kept_above(now, #[trigger] rows[a]) by {
                            if a < i {
                                let k = choose|k: int|
                                    0 <= k < before.len() && #[trigger] before[k].0 == rows[a].0 && bytes::lex_le(rows[a].1, before[k].1);
                                assert(now[k].0 == rows[a].0);
                                if k == n - 1 {
                                    bytes::lemma_lex_trichotomy(row.1, before[k].1);
                                    paged::lemma_le_transitive(rows[a].1, before[k].1, row.1);
                                }
                            } else {
                                assert(now[n - 1].0 == rows[a].0);
                            }
                        }
                        assert forall|a: int, b: int| 0 <= a < b < now.len() implies bytes::lex_lt(
                            #[trigger] now[a].0,
                            #[trigger] now[b].0,
                        ) by {
                            assert(bytes::lex_lt(before[a].0, before[b].0));
                        }
                        assert forall|a: int| 0 <= a < now.len() implies paged::holds_row(rows, #[trigger] now[a]) by {
                            if a < n - 1 {
                                assert(now[a] == before[a]);
                            }
                        }
                    }
                },
                _ => {
                    proof {
                        bytes::lemma_lex_trichotomy(row.1, before[n - 1].1);
                        assert forall|a: int| 0 <= a < i + 1 implies kept_above(before, #[trigger] rows[a]) by {
                            if a == i {
                                assert(before[n - 1].0 == rows[a].0);
                            }
                        }
                    }
                },
            }
        } else {
            out.push(Row { key, value });
            proof {
                let now = paged::row_views(out@);
                assert(now =~= before.push(row));
                assert forall|a: int| 0 <= a < i + 1 implies kept_above(now, #[trigger] rows[a]) by {
                    if a < i {
                        let k = choose|k: int|
                            0 <= k < before.len() && #[trigger] before[k].0 == rows[a].0 && bytes::lex_le(rows[a].1, before[k].1);
                        assert(now[k].0 == rows[a].0);
                    } else {
                        assert(now[n as int].0 == rows[a].0);
                    }
                }
                assert forall|a: int, b: int| 0 <= a < b < now.len() implies bytes::lex_lt(#[trigger] now[a].0, #[trigger] now[b].0) by {
                    if b < n {
                        assert(bytes::lex_lt(before[a].0, before[b].0));
                    } else {
                        assert(bytes::lex_le(rows[i - 1].0, rows[i as int].0));
                        assert(before[n - 1].0 == paged::row_view(out@[n - 1]).0);
                        assert(before.last().0 != row.0);
                        assert(bytes::lex_lt(before.last().0, row.0));
                        if a < n - 1 {
                            assert(bytes::lex_lt(before[a].0, before[n - 1].0));
                            bytes::lemma_lex_transitive(before[a].0, before[n - 1].0, row.0);
                        }
                    }
                }
                assert forall|a: int| 0 <= a < now.len() implies paged::holds_row(rows, #[trigger] now[a]) by {
                    if a < n {
                        assert(now[a] == before[a]);
                    }
                }
            }
        }
        i = i + 1;
    }
    proof {
        let s = paged::row_views(out@);
        assert forall|a: int, b: int| 0 <= a <= b < s.len() implies bytes::lex_le(#[trigger] s[a].0, #[trigger] s[b].0) by {
            if a < b {
                assert(bytes::lex_lt(s[a].0, s[b].0));
            }
        }
    }
    PagedIndex::from_rows(out, index.dump_version())
}

/// Which rows are kept does not depend on the order of the rows.
proof fn lemma_keeps_greatest(a: Seq<(Seq<u8>, Seq<u8>)>, b: Seq<(Seq<u8>, Seq<u8>)>, out: Seq<(Seq<u8>, Seq<u8>)>)
    requires
        a.to_multiset() == b.to_multiset(),
        keeps_greatest(a, out),
    ensures
        keeps_greatest(b, out),
{
    broadcast use vstd::seq_lib::group_to_multiset_ensures;

    assert forall|row: (Seq<u8>, Seq<u8>)| a.contains(row) <==> #[trigger] b.contains(row) by {
        assert(a.contains(row) <==> a.to_multiset().count(row) > 0);
        assert(b.contains(row) <==> b.to_multiset().count(row) > 0);
    }
    assert forall|i: int| 0 <= i < out.len() implies paged::holds_row(b, #[trigger] out[i]) by {
        let k = choose|k: int| 0 <= k < a.len() && #[trigger] a[k] == out[i];
        assert(a.contains(out[i]));
        assert(b.contains(out[i]));
        assert(b[b.index_of(out[i])] == out[i]);
    }
    assert forall|i: int| 0 <= i < b.len() implies kept_above(out, #[trigger] b[i]) by {
        assert(b.contains(b[i]));
        let k = a.index_of(b[i]);
        assert(kept_above(out, a[k]));
    }
}

/// `plan` takes the runs of the full level, and `merged` keeps the greatest
/// value of each key out of all their rows.
pub open spec fn is_secondary_merge(
    index: &SecIdx,
    plan: MergePlan,
    merged: Seq<(Seq<u8>, Seq<u8>)>,
    full: u8,
) -> bool {
    &&& levels::is_full_level(index.runs@, DERIVED_LEVEL_FANOUT as int, full)
    &&& plan.level == levels::merged_level(full)
    &&& plan.generation == index.generation
    &&& plan.takes(levels::of_level(index.runs@, full, DERIVED_LEVEL_FANOUT as int))
    &&& keeps_greatest(paged::all_rows(plan.inputs@), merged)
}

/// The merge of the lowest full level of an index: which runs it takes, and
/// the run that stands for them.
pub fn compact_one_secondary_level(index: &SecIdx) -> (r: Option<(MergePlan, PagedIndex)>)
    requires
        index.wf(),
    ensures
        r matches Some(out) ==> out.1.wf() && out.1.version() == index.generation,
        r matches Some(out) ==> exists|full: u8| #[trigger] is_secondary_merge(index, out.0, out.1.rows(), full),
        r is None ==> forall|l: u8|
            l != primary::PRIMARY_BASE_LEVEL ==> #[trigger] levels::level_count(index.runs@, l) < DERIVED_LEVEL_FANOUT,
{
    let plan = match plan_merge(&index.runs, index.generation, DERIVED_LEVEL_FANOUT) {
        Some(plan) => plan,
        None => {
            return None;
        },
    };
    let ghost full = choose|full: u8| {
        &&& #[trigger] levels::is_full_level(index.runs@, DERIVED_LEVEL_FANOUT as int, full)
        &&& plan.level == levels::merged_level(full)
        &&& plan.generation == index.generation
        &&& plan.takes(levels::of_level(index.runs@, full, DERIVED_LEVEL_FANOUT as int))
    };
    proof {
        let part = levels::of_level(index.runs@, full, DERIVED_LEVEL_FANOUT as int);
        assert forall|i: int| 0 <= i < plan.inputs@.len() implies (#[trigger] plan.inputs@[i]).wf() by {
            levels::lemma_of_level(index.runs@, full, DERIVED_LEVEL_FANOUT as int, i);
        }
    }
    let all = merge_paged_indexes(&plan.inputs, plan.generation);
    let merged = latest_values(&all);
    proof {
        lemma_keeps_greatest(all.rows(), paged::all_rows(plan.inputs@), merged.rows());
        assert(is_secondary_merge(index, plan, merged.rows(), full));
    }
    let r = Some((plan, merged));
    assert(r matches Some(out) ==> is_secondary_merge(index, out.0, out.1.rows(), full));
    r
}

/// The first index with a full level.
pub fn secondary_compaction_target(indexes: &Vec<SecIdx>) -> (r: Option<(usize, u8)>)
    ensures
        match r {
            Some((i, level)) => {
                &&& i < indexes@.len()
                &&& levels::is_full_level(indexes@[i as int].runs@, DERIVED_LEVEL_FANOUT as int, level)
                &&& forall|j: int, l: u8|
                    0 <= j < i && l != primary::PRIMARY_BASE_LEVEL ==> #[trigger] levels::level_count(indexes@[j].runs@, l)
                        < DERIVED_LEVEL_FANOUT
            },
            None => forall|j: int, l: u8|
                0 <= j < indexes@.len() && l != primary::PRIMARY_BASE_LEVEL ==> #[trigger] levels::level_count(indexes@[j].runs@, l)
                    < DERIVED_LEVEL_FANOUT,
        },
{
    let mut i: usize = 0;
    while i < indexes.len()
        invariant
            i <= indexes@.len(),
            forall|j: int, l: u8|
                0 <= j < i && l != primary::PRIMARY_BASE_LEVEL ==> #[trigger] levels::level_count(indexes@[j].runs@, l)
                    < DERIVED_LEVEL_FANOUT,
        decreases indexes@.len() - i,
    {
        match levels::compaction_level(&indexes[i].runs, DERIVED_LEVEL_FANOUT) {
            Some(level) => {
                return Some((i, level));
            },
            None => {},
        }
        i = i + 1;
    }
    None
}

// ---- Merging keeps the answers ----------------------------------------------

/// The greater of two stored operations is the later one.
pub proof fn lemma_operation_order(a: Seq<u8>, b: Seq<u8>)
    requires
        operation_of(a) is Ok,
        operation_of(b) is Ok,
    ensures
        bytes::lex_lt(a, b) <==> op_after(operation_of(b)->Ok_0, operation_of(a)->Ok_0),
        a == b <==> operation_of(a)->Ok_0 == operation_of(b)->Ok_0,
{
    let x = a.subrange(0, 8);
    let y = b.subrange(0, 8);
    bytes::lemma_radix_small();
    bytes::lemma_be_value_bound(x);
    bytes::lemma_be_value_bound(y);
    bytes::lemma_be_of_value(x);
    bytes::lemma_be_of_value(y);
    assert(a =~= x.push(a[8]));
    assert(b =~= y.push(b[8]));
    if x == y {
        if a[8] < b[8] {
            assert(bytes::lex_lt_at(a, b, 8));
        }
        if b[8] < a[8] {
            assert(bytes::lex_lt_at(b, a, 8));
        }
        bytes::lemma_lex_trichotomy(a, b);
    } else {
        lemma_be_order(x, y);
        lemma_be_order(y, x);
        bytes::lemma_lex_trichotomy(x, y);
        if bytes::lex_lt(x, y) {
            let k = choose|k: int| bytes::lex_lt_at(x, y, k);
            assert(bytes::lex_lt_at(a, b, k));
        } else {
            let k = choose|k: int| bytes::lex_lt_at(y, x, k);
            assert(bytes::lex_lt_at(b, a, k));
            bytes::lemma_lex_trichotomy(a, b);
        }
    }
}

/// Big-endian bytes of one length stand in the order of their values.
pub proof fn lemma_be_order(x: Seq<u8>, y: Seq<u8>)
    requires
        x.len() == y.len(),
    ensures
        bytes::lex_lt(x, y) ==> bytes::be_value(x) < bytes::be_value(y),
    decreases x.len(),
{
    if x.len() > 0 && bytes::lex_lt(x, y) {
        let k = choose|k: int| bytes::lex_lt_at(x, y, k);
        let p = x.drop_last();
        let q = y.drop_last();
        if k < x.len() - 1 {
            assert(bytes::lex_lt_at(p, q, k));
            lemma_be_order(p, q);
        } else {
            assert(p =~= q);
        }
    }
}

/// The newest operation is one of the stored ones, and none is later.
pub proof fn lemma_newest_op(values: Seq<Seq<u8>>)
    ensures
        match newest_op(values) {
            Some(op) => {
                &&& exists|i: int| 0 <= i < values.len() && operation_of(#[trigger] values[i]) == Ok::<(u64, u8), Seq<char>>(op)
                &&& forall|i: int|
                    0 <= i < values.len() && operation_of(#[trigger] values[i]) is Ok ==> !op_after(
                        operation_of(values[i])->Ok_0,
                        op,
                    )
            },
            None => forall|i: int| 0 <= i < values.len() ==> operation_of(#[trigger] values[i]) is Err,
        },
    decreases values.len(),
{
    if values.len() > 0 {
        let t = values.drop_last();
        lemma_newest_op(t);
        assert forall|i: int| 0 <= i < t.len() implies #[trigger] values[i] == t[i] by {}
        if newest_op(t) is Some && newest_op(values) == newest_op(t) {
            let i = choose|i: int| 0 <= i < t.len() && operation_of(#[trigger] t[i]) == Ok::<(u64, u8), Seq<char>>(newest_op(t)->0);
            assert(operation_of(values[i]) == Ok::<(u64, u8), Seq<char>>(newest_op(t)->0));
        }
        assert(values[values.len() - 1] == values.last());
    }
}

/// Whether a list has a value at or above another.
pub open spec fn reaches(values: Seq<Seq<u8>>, v: Seq<u8>) -> bool {
    exists|i: int| 0 <= i < values.len() && bytes::lex_le(v, #[trigger] values[i])
}

/// Lists of operations that reach each other's values agree on the newest.
proof fn lemma_newest_agrees(a: Seq<Seq<u8>>, b: Seq<Seq<u8>>)
    requires
        forall|i: int| 0 <= i < a.len() ==> operation_of(#[trigger] a[i]) is Ok,
        forall|i: int| 0 <= i < b.len() ==> operation_of(#[trigger] b[i]) is Ok,
        forall|i: int| 0 <= i < a.len() ==> reaches(b, #[trigger] a[i]),
        forall|i: int| 0 <= i < b.len() ==> reaches(a, #[trigger] b[i]),
    ensures
        newest_op(a) == newest_op(b),
{
    lemma_newest_op(a);
    lemma_newest_op(b);
    if a.len() > 0 {
        assert(operation_of(a[0]) is Ok);
        assert(reaches(b, a[0]));
        let i = choose|i: int| 0 <= i < a.len() && operation_of(#[trigger] a[i]) == Ok::<(u64, u8), Seq<char>>(newest_op(a)->0);
        assert(reaches(b, a[i]));
        let j = choose|j: int| 0 <= j < b.len() && bytes::lex_le(a[i], #[trigger] b[j]);
        assert(operation_of(b[j]) is Ok);
        lemma_operation_order(a[i], b[j]);
        let k = choose|k: int| 0 <= k < b.len() && operation_of(#[trigger] b[k]) == Ok::<(u64, u8), Seq<char>>(newest_op(b)->0);
        assert(reaches(a, b[k]));
        let m = choose|m: int| 0 <= m < a.len() && bytes::lex_le(b[k], #[trigger] a[m]);
        assert(operation_of(a[m]) is Ok);
        lemma_operation_order(b[k], a[m]);
        let x = newest_op(a)->0;
        let y = newest_op(b)->0;
        assert(!op_after(x, y));
        assert(!op_after(y, x));
    } else if b.len() > 0 {
        assert(reaches(a, b[0]));
    }
}

/// The values of a pair are those that a run holds under it.
pub proof fn lemma_run_values(runs: Seq<Run>, pair: Seq<u8>, value: Seq<u8>)
    ensures
        run_values(runs, pair).contains(value) <==> levels::runs_hold(runs, (pair, value)),
    decreases runs.len(),
{
    if runs.len() > 0 {
        let t = runs.drop_last();
        lemma_run_values(t, pair, value);
        let rows = runs.last().index.rows();
        paged::lemma_values_of(rows, pair, value);
        let a = run_values(t, pair);
        let b = paged::values_of(rows, pair);
        if (a + b).contains(value) {
            let i = (a + b).index_of(value);
            if i < a.len() {
                assert(a[i] == value);
                let q = choose|q: int| 0 <= q < t.len() && #[trigger] paged::holds_row(t[q].index.rows(), (pair, value));
                assert(paged::holds_row(runs[q].index.rows(), (pair, value)));
            } else {
                assert(b[i - a.len()] == value);
                assert(paged::holds_row(runs[runs.len() - 1].index.rows(), (pair, value)));
            }
        }
        if levels::runs_hold(runs, (pair, value)) {
            let q = choose|q: int| 0 <= q < runs.len() && #[trigger] paged::holds_row(runs[q].index.rows(), (pair, value));
            if q < t.len() {
                assert(paged::holds_row(t[q].index.rows(), (pair, value)));
                let i = a.index_of(value);
                assert((a + b)[i] == value);
            } else {
                let i = b.index_of(value);
                assert((a + b)[a.len() + i] == value);
            }
        }
    }
}

/// Putting a merged run in the place of its inputs changes no answer: the
/// newest operation on every pair stays what it was.
pub proof fn lemma_merge_keeps_answers(
    runs: Seq<Run>,
    inputs: Seq<Run>,
    all: Seq<(Seq<u8>, Seq<u8>)>,
    selected: Seq<primary::RunMetaView>,
    output: Run,
    pair: Seq<u8>,
)
    requires
        levels::files_distinct(runs),
        selected.len() == inputs.len(),
        forall|i: int| 0 <= i < inputs.len() ==> runs.contains(#[trigger] inputs[i]),
        forall|i: int| 0 <= i < inputs.len() ==> #[trigger] selected[i] == inputs[i].meta@,
        forall|row: (Seq<u8>, Seq<u8>)| #[trigger] paged::holds_row(all, row) <==> levels::runs_hold(inputs, row),
        keeps_greatest(all, output.index.rows()),
        forall|value: Seq<u8>| #[trigger] levels::runs_hold(runs, (pair, value)) ==> operation_of(value) is Ok,
    ensures
        newest_op(run_values(levels::remaining(runs, selected).push(output), pair)) == newest_op(run_values(runs, pair)),
{
    let kept = levels::remaining(runs, selected);
    let after = kept.push(output);
    let a = run_values(runs, pair);
    let b = run_values(after, pair);
    assert forall|i: int| 0 <= i < a.len() implies operation_of(#[trigger] a[i]) is Ok && reaches(b, a[i]) by {
        let v = a[i];
        assert(a.contains(v));
        lemma_run_values(runs, pair, v);
        let q = choose|q: int| 0 <= q < runs.len() && #[trigger] paged::holds_row(runs[q].index.rows(), (pair, v));
        levels::lemma_remaining(runs, selected, runs[q]);
        assert(runs.contains(runs[q]));
        if levels::names_file(selected, runs[q].meta.file@) {
            let k = choose|k: int| 0 <= k < selected.len() && (#[trigger] selected[k]).file == runs[q].meta.file@;
            assert(runs.contains(inputs[k]));
            let j = runs.index_of(inputs[k]);
            assert(runs[j].meta.file@ == runs[q].meta.file@);
            assert(q == j);
            assert(paged::holds_row(inputs[k].index.rows(), (pair, v)));
            assert(levels::runs_hold(inputs, (pair, v)));
            assert(paged::holds_row(all, (pair, v)));
            let p = choose|p: int| 0 <= p < all.len() && #[trigger] all[p] == (pair, v);
            let rows = output.index.rows();
            assert(kept_above(rows, all[p]));
            let m = choose|m: int| 0 <= m < rows.len() && #[trigger] rows[m].0 == pair && bytes::lex_le(v, rows[m].1);
            assert(rows[m] == (pair, rows[m].1));
            assert(after[kept.len() as int] == output);
            assert(paged::holds_row(after[kept.len() as int].index.rows(), (pair, rows[m].1)));
            lemma_run_values(after, pair, rows[m].1);
            assert(b[b.index_of(rows[m].1)] == rows[m].1);
        } else {
            let j = kept.index_of(runs[q]);
            assert(after[j] == runs[q]);
            assert(paged::holds_row(after[j].index.rows(), (pair, v)));
            lemma_run_values(after, pair, v);
            assert(b[b.index_of(v)] == v);
        }
    }
    assert forall|i: int| 0 <= i < b.len() implies operation_of(#[trigger] b[i]) is Ok && reaches(a, b[i]) by {
        let v = b[i];
        assert(b.contains(v));
        lemma_run_values(after, pair, v);
        let q = choose|q: int| 0 <= q < after.len() && #[trigger] paged::holds_row(after[q].index.rows(), (pair, v));
        if q < kept.len() {
            levels::lemma_remaining(runs, selected, kept[q]);
            assert(kept.contains(kept[q]));
            let j = runs.index_of(kept[q]);
            assert(paged::holds_row(runs[j].index.rows(), (pair, v)));
        } else {
            let rows = output.index.rows();
            let m = choose|m: int| 0 <= m < rows.len() && #[trigger] rows[m] == (pair, v);
            assert(paged::holds_row(all, rows[m]));
            assert(levels::runs_hold(inputs, (pair, v)));
            let k = choose|k: int| 0 <= k < inputs.len() && #[trigger] paged::holds_row(inputs[k].index.rows(), (pair, v));
            assert(runs.contains(inputs[k]));
            let j = runs.index_of(inputs[k]);
            assert(paged::holds_row(runs[j].index.rows(), (pair, v)));
        }
        assert(levels::runs_hold(runs, (pair, v)));
        lemma_run_values(runs, pair, v);
        assert(a[a.index_of(v)] == v);
    }
    lemma_newest_agrees(a, b);
}

} // verus!
