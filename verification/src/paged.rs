//! Immutable sorted runs of keys and values.
//!
//! A run is held by its rows in key order; one key may stand in several rows.

use crate::bytes::{self, Place};
use crate::error::{Error, ErrorView};
use crate::order::Datum;
use std::sync::Arc;
use vstd::prelude::*;

verus! {

#[derive(Debug)]
pub struct Row {
    pub key: Vec<u8>,
    pub value: Vec<u8>,
}

pub struct PagedIndex {
    rows: Vec<Row>,
    dump_version: u64,
}

pub open spec fn row_view(r: Row) -> (Seq<u8>, Seq<u8>) {
    (r.key@, r.value@)
}

pub open spec fn row_views(s: Seq<Row>) -> Seq<(Seq<u8>, Seq<u8>)> {
    Seq::new(s.len(), |i: int| row_view(s[i]))
}

/// The keys never decrease.
pub open spec fn in_order(s: Seq<(Seq<u8>, Seq<u8>)>) -> bool {
    forall|i: int, j: int| 0 <= i <= j < s.len() ==> bytes::lex_le(#[trigger] s[i].0, #[trigger] s[j].0)
}

/// The values that stand under a key, in row order.
pub open spec fn values_of(s: Seq<(Seq<u8>, Seq<u8>)>, key: Seq<u8>) -> Seq<Seq<u8>>
    decreases s.len(),
{
    if s.len() == 0 {
        Seq::empty()
    } else if s.last().0 == key {
        values_of(s.drop_last(), key).push(s.last().1)
    } else {
        values_of(s.drop_last(), key)
    }
}

pub open spec fn holds_key(s: Seq<(Seq<u8>, Seq<u8>)>, key: Seq<u8>) -> bool {
    exists|i: int| 0 <= i < s.len() && (#[trigger] s[i]).0 == key
}

pub open spec fn holds_row(s: Seq<(Seq<u8>, Seq<u8>)>, row: (Seq<u8>, Seq<u8>)) -> bool {
    exists|i: int| 0 <= i < s.len() && #[trigger] s[i] == row
}

pub proof fn lemma_values_of(s: Seq<(Seq<u8>, Seq<u8>)>, key: Seq<u8>, v: Seq<u8>)
    ensures
        values_of(s, key).contains(v) <==> holds_row(s, (key, v)),
    decreases s.len(),
{
    if s.len() > 0 {
        let t = s.drop_last();
        lemma_values_of(t, key, v);
        let a = values_of(t, key);
        if holds_row(s, (key, v)) {
            let i = choose|i: int| 0 <= i < s.len() && #[trigger] s[i] == (key, v);
            if i < t.len() {
                assert(t[i] == (key, v));
                let k = a.index_of(v);
                if s.last().0 == key {
                    assert(a.push(s.last().1)[k] == v);
                }
            } else {
                assert(a.push(v)[a.len() as int] == v);
            }
        }
        if values_of(s, key).contains(v) {
            let k = values_of(s, key).index_of(v);
            if s.last().0 == key && k == a.len() {
                assert(s[s.len() - 1] == (key, v));
            } else {
                assert(a[k] == v);
                let i = choose|i: int| 0 <= i < t.len() && #[trigger] t[i] == (key, v);
                assert(s[i] == (key, v));
            }
        }
    }
}

/// Rows before and after those of a key add nothing to its values.
pub proof fn lemma_values_range(s: Seq<(Seq<u8>, Seq<u8>)>, key: Seq<u8>, lo: int, hi: int)
    requires
        0 <= lo <= hi <= s.len(),
        forall|i: int| 0 <= i < lo ==> (#[trigger] s[i]).0 != key,
        forall|i: int| lo <= i < hi ==> (#[trigger] s[i]).0 == key,
        forall|i: int| hi <= i < s.len() ==> (#[trigger] s[i]).0 != key,
    ensures
        values_of(s, key).len() == hi - lo,
        forall|i: int| lo <= i < hi ==> #[trigger] s[i].1 == values_of(s, key)[i - lo],
    decreases s.len(),
{
    if s.len() > 0 {
        let t = s.drop_last();
        let end: int = if hi < t.len() { hi } else { t.len() as int };
        let start: int = if lo < t.len() { lo } else { t.len() as int };
        if hi == s.len() && lo < s.len() {
            assert(s[s.len() - 1].0 == key);
            lemma_values_range(t, key, lo, end);
        } else {
            assert(s[s.len() - 1].0 != key);
            lemma_values_range(t, key, start, end);
        }
        assert forall|i: int| lo <= i < hi implies #[trigger] s[i].1 == values_of(s, key)[i - lo] by {
            if i < t.len() {
                assert(t[i].1 == values_of(t, key)[i - lo]);
            }
        }
    }
}

impl PagedIndex {
    pub closed spec fn rows(&self) -> Seq<(Seq<u8>, Seq<u8>)> {
        row_views(self.rows@)
    }

    pub closed spec fn version(&self) -> u64 {
        self.dump_version
    }

    /// The rows are in key order.
    pub closed spec fn wf(&self) -> bool {
        in_order(self.rows())
    }

    pub proof fn lemma_wf(&self)
        requires
            self.wf(),
        ensures
            in_order(self.rows()),
    {
    }

    pub fn dump_version(&self) -> (r: u64)
        ensures
            r == self.version(),
    {
        self.dump_version
    }

    /// A run of rows that are in key order already.
    pub fn from_rows(rows: Vec<Row>, dump_version: u64) -> (r: PagedIndex)
        requires
            in_order(row_views(rows@)),
        ensures
            r.wf(),
            r.rows() == row_views(rows@),
            r.version() == dump_version,
    {
        PagedIndex { rows, dump_version }
    }

    /// A run of the given rows, if they are in key order.
    pub fn open(rows: Vec<Row>, dump_version: u64) -> (r: Result<PagedIndex, Error>)
        ensures
            r is Ok <==> in_order(row_views(rows@)),
            r matches Ok(index) ==> index.wf() && index.rows() == row_views(rows@) && index.version() == dump_version,
            r matches Err(e) ==> e@ == ErrorView::Corrupt("paged index: keys are out of order"@),
    {
        let ghost s = row_views(rows@);
        let mut i: usize = 1;
        if rows.len() > 0 {
            while i < rows.len()
                invariant
                    1 <= i <= rows@.len(),
                    s == row_views(rows@),
                    forall|a: int, b: int| 0 <= a <= b < i ==> bytes::lex_le(#[trigger] s[a].0, #[trigger] s[b].0),
                decreases rows@.len() - i,
            {
                match bytes::place(rows[i - 1].key.as_slice(), rows[i].key.as_slice()) {
                    Place::After => {
                        proof {
                            bytes::lemma_lex_trichotomy(s[i - 1].0, s[i as int].0);
                            assert(!bytes::lex_le(s[i - 1].0, s[i as int].0));
                        }
                        return Err(crate::error::corrupt("paged index: keys are out of order"));
                    },
                    _ => {},
                }
                proof {
                    assert(bytes::lex_le(s[i - 1].0, s[i as int].0));
                    assert forall|a: int, b: int| 0 <= a <= b < i + 1 implies bytes::lex_le(#[trigger] s[a].0, #[trigger] s[b].0) by {
                        if b == i && a < i {
                            assert(bytes::lex_le(s[a].0, s[i - 1].0));
                            lemma_le_transitive(s[a].0, s[i - 1].0, s[i as int].0);
                        }
                    }
                }
                i = i + 1;
            }
        }
        Ok(PagedIndex { rows, dump_version })
    }

    /// The number of rows.
    pub fn len(&self) -> (r: usize)
        ensures
            r == self.rows().len(),
    {
        self.rows.len()
    }

    pub fn key_at(&self, i: usize) -> (r: &[u8])
        requires
            i < self.rows().len(),
        ensures
            r@ == self.rows()[i as int].0,
    {
        self.rows[i].key.as_slice()
    }

    pub fn value_at(&self, i: usize) -> (r: &[u8])
        requires
            i < self.rows().len(),
        ensures
            r@ == self.rows()[i as int].1,
    {
        self.rows[i].value.as_slice()
    }

    /// The first row whose key does not stand before `key`, or, when `past`, the
    /// first whose key stands after it.
    pub fn bound(&self, key: &[u8], past: bool) -> (r: usize)
        requires
            self.wf(),
        ensures
            r <= self.rows().len(),
            forall|i: int| 0 <= i < r ==> bytes::lex_lt((#[trigger] self.rows()[i]).0, key@) || (past && self.rows()[i].0 == key@),
            forall|i: int| r <= i < self.rows().len() ==> bytes::lex_lt(key@, (#[trigger] self.rows()[i]).0) || (!past
                && self.rows()[i].0 == key@),
    {
        let ghost s = self.rows();
        let mut lo: usize = 0;
        let mut hi: usize = self.rows.len();
        while lo < hi
            invariant
                self.wf(),
                s == self.rows(),
                lo <= hi <= s.len(),
                forall|i: int| 0 <= i < lo ==> bytes::lex_lt((#[trigger] s[i]).0, key@) || (past && s[i].0 == key@),
                forall|i: int| hi <= i < s.len() ==> bytes::lex_lt(key@, (#[trigger] s[i]).0) || (!past && s[i].0 == key@),
            decreases hi - lo,
        {
            let mid: usize = lo + (hi - lo) / 2;
            let found = bytes::place(self.rows[mid].key.as_slice(), key);
            let ghost pivot = s[mid as int].0;
            let before: bool = match found {
                Place::Before => true,
                Place::Same => past,
                Place::After => false,
            };
            proof {
                bytes::lemma_lex_trichotomy(pivot, key@);
                if before {
                    assert forall|i: int| 0 <= i < mid + 1 implies bytes::lex_lt((#[trigger] s[i]).0, key@) || (past && s[i].0
                        == key@) by {
                        assert(bytes::lex_le(s[i].0, s[mid as int].0));
                        if s[i].0 != pivot && pivot != key@ {
                            bytes::lemma_lex_transitive(s[i].0, pivot, key@);
                        }
                    }
                } else {
                    assert forall|i: int| mid <= i < s.len() implies bytes::lex_lt(key@, (#[trigger] s[i]).0) || (!past && s[i].0
                        == key@) by {
                        assert(bytes::lex_le(s[mid as int].0, s[i].0));
                        if s[i].0 != pivot && pivot != key@ {
                            bytes::lemma_lex_transitive(key@, pivot, s[i].0);
                        }
                    }
                }
            }
            if before {
                lo = mid + 1;
            } else {
                hi = mid;
            }
        }
        lo
    }

    /// The rows that stand under a key: from the first up to the second number.
    pub fn range_of(&self, key: &[u8]) -> (r: (usize, usize))
        requires
            self.wf(),
        ensures
            r.0 <= r.1 <= self.rows().len(),
            values_of(self.rows(), key@).len() == r.1 - r.0,
            forall|i: int| r.0 <= i < r.1 ==> (#[trigger] self.rows()[i]).1 == values_of(self.rows(), key@)[i - r.0],
    {
        let lo: usize = self.bound(key, false);
        let hi: usize = self.bound(key, true);
        proof {
            let s = self.rows();
            bytes::lemma_lex_irreflexive(key@);
            assert(lo <= hi) by {
                if hi < lo {
                    assert(bytes::lex_lt(s[hi as int].0, key@));
                    assert(bytes::lex_lt(key@, s[hi as int].0));
                    bytes::lemma_lex_trichotomy(s[hi as int].0, key@);
                }
            }
            assert forall|i: int| lo <= i < hi implies (#[trigger] s[i]).0 == key@ by {
                bytes::lemma_lex_trichotomy(s[i].0, key@);
            }
            lemma_values_range(s, key@, lo as int, hi as int);
        }
        (lo, hi)
    }
}

pub proof fn lemma_le_transitive(a: Seq<u8>, b: Seq<u8>, c: Seq<u8>)
    requires
        bytes::lex_le(a, b),
        bytes::lex_le(b, c),
    ensures
        bytes::lex_le(a, c),
{
    if a != b && b != c {
        bytes::lemma_lex_transitive(a, b, c);
    }
}

impl Datum for Row {
    open spec fn valid(&self) -> bool {
        true
    }

    fn duplicate(&self) -> (r: Self) {
        Row { key: bytes::copy_of(self.key.as_slice()), value: bytes::copy_of(self.value.as_slice()) }
    }
}

impl View for Row {
    type V = (Seq<u8>, Seq<u8>);

    open spec fn view(&self) -> (Seq<u8>, Seq<u8>) {
        row_view(*self)
    }
}

// ---- Merging ----------------------------------------------------------------

/// The rows of several runs, one run after another.
pub open spec fn all_rows(runs: Seq<Arc<PagedIndex>>) -> Seq<(Seq<u8>, Seq<u8>)>
    decreases runs.len(),
{
    if runs.len() == 0 {
        Seq::empty()
    } else {
        all_rows(runs.drop_last()) + runs.last().rows()
    }
}

proof fn lemma_multiset_step(s: Seq<(Seq<u8>, Seq<u8>)>, i: int)
    requires
        0 <= i < s.len(),
    ensures
        s.subrange(0, i + 1).to_multiset() == s.subrange(0, i).to_multiset().insert(s[i]),
{
    broadcast use vstd::seq_lib::group_to_multiset_ensures;

    assert(s.subrange(0, i + 1) =~= s.subrange(0, i).push(s[i]));
}

/// Merge two ordered lists of rows; rows of one key keep their order.
fn merge_two(a: &Vec<Row>, b: &Vec<Row>) -> (r: Vec<Row>)
    requires
        in_order(row_views(a@)),
        in_order(row_views(b@)),
    ensures
        in_order(row_views(r@)),
        row_views(r@).to_multiset() == row_views(a@).to_multiset().add(row_views(b@).to_multiset()),
{
    let ghost s = row_views(a@);
    let ghost t = row_views(b@);
    let mut out: Vec<Row> = Vec::new();
    let mut i: usize = 0;
    let mut j: usize = 0;
    proof {
        broadcast use vstd::seq_lib::group_to_multiset_ensures;

        assert(row_views(out@) =~= Seq::<(Seq<u8>, Seq<u8>)>::empty());
        assert(s.subrange(0, 0) =~= Seq::<(Seq<u8>, Seq<u8>)>::empty());
        assert(t.subrange(0, 0) =~= Seq::<(Seq<u8>, Seq<u8>)>::empty());
        assert(row_views(out@).to_multiset() =~= s.subrange(0, 0).to_multiset().add(t.subrange(0, 0).to_multiset()));
    }
    while i < a.len() || j < b.len()
        invariant
            s == row_views(a@),
            t == row_views(b@),
            in_order(s),
            in_order(t),
            i <= a@.len(),
            j <= b@.len(),
            in_order(row_views(out@)),
            forall|x: int, y: int| 0 <= x < out@.len() && i <= y < s.len() ==> bytes::lex_le(
                (#[trigger] row_views(out@)[x]).0,
                (#[trigger] s[y]).0,
            ),
            forall|x: int, y: int| 0 <= x < out@.len() && j <= y < t.len() ==> bytes::lex_le(
                (#[trigger] row_views(out@)[x]).0,
                (#[trigger] t[y]).0,
            ),
            row_views(out@).to_multiset() == s.subrange(0, i as int).to_multiset().add(t.subrange(0, j as int).to_multiset()),
        decreases a@.len() - i + b@.len() - j,
    {
        let from_a: bool = if i >= a.len() {
            false
        } else if j >= b.len() {
            true
        } else {
            match bytes::place(a[i].key.as_slice(), b[j].key.as_slice()) {
                Place::After => false,
                _ => true,
            }
        };
        let ghost before = row_views(out@);
        if from_a {
            let row = a[i].duplicate();
            proof {
                lemma_multiset_step(s, i as int);
                assert(row@ == s[i as int]);
                if j < b@.len() {
                    assert forall|y: int| j <= y < t.len() implies bytes::lex_le(row@.0, (#[trigger] t[y]).0) by {
                        assert(bytes::lex_le(t[j as int].0, t[y].0));
                        bytes::lemma_lex_trichotomy(s[i as int].0, t[j as int].0);
                        lemma_le_transitive(s[i as int].0, t[j as int].0, t[y].0);
                    }
                }
            }
            out.push(row);
            i = i + 1;
        } else {
            let row = b[j].duplicate();
            proof {
                lemma_multiset_step(t, j as int);
                assert(row@ == t[j as int]);
                if i < a@.len() {
                    assert forall|y: int| i <= y < s.len() implies bytes::lex_le(row@.0, (#[trigger] s[y]).0) by {
                        assert(bytes::lex_le(s[i as int].0, s[y].0));
                        bytes::lemma_lex_trichotomy(s[i as int].0, t[j as int].0);
                        lemma_le_transitive(t[j as int].0, s[i as int].0, s[y].0);
                    }
                }
            }
            out.push(row);
            j = j + 1;
        }
        proof {
            broadcast use vstd::seq_lib::group_to_multiset_ensures;

            let after = row_views(out@);
            let row = after.last();
            assert(after =~= before.push(row));
            assert(after.to_multiset() =~= s.subrange(0, i as int).to_multiset().add(t.subrange(0, j as int).to_multiset()));
            assert forall|x: int, y: int| 0 <= x <= y < after.len() implies bytes::lex_le(
                (#[trigger] after[x]).0,
                (#[trigger] after[y]).0,
            ) by {
                if y == before.len() && x < before.len() {
                    assert(before[x] == after[x]);
                    if from_a {
                        assert(bytes::lex_le(before[x].0, s[i - 1].0));
                    } else {
                        assert(bytes::lex_le(before[x].0, t[j - 1].0));
                    }
                } else if y < before.len() {
                    assert(before[x] == after[x] && before[y] == after[y]);
                }
            }
            assert forall|x: int, y: int| 0 <= x < after.len() && i <= y < s.len() implies bytes::lex_le(
                (#[trigger] after[x]).0,
                (#[trigger] s[y]).0,
            ) by {
                if x < before.len() {
                    assert(before[x] == after[x]);
                } else if from_a {
                    assert(bytes::lex_le(s[i - 1].0, s[y].0));
                }
            }
            assert forall|x: int, y: int| 0 <= x < after.len() && j <= y < t.len() implies bytes::lex_le(
                (#[trigger] after[x]).0,
                (#[trigger] t[y]).0,
            ) by {
                if x < before.len() {
                    assert(before[x] == after[x]);
                } else if !from_a {
                    assert(bytes::lex_le(t[j - 1].0, t[y].0));
                }
            }
        }
    }
    assert(s.subrange(0, i as int) =~= s);
    assert(t.subrange(0, j as int) =~= t);
    out
}

fn sort_range(rows: &Vec<Row>, lo: usize, hi: usize) -> (r: Vec<Row>)
    requires
        lo <= hi <= rows@.len(),
    ensures
        in_order(row_views(r@)),
        row_views(r@).to_multiset() == row_views(rows@).subrange(lo as int, hi as int).to_multiset(),
    decreases hi - lo,
{
    let ghost s = row_views(rows@);
    let mut out: Vec<Row> = Vec::new();
    if hi - lo <= 1 {
        if lo < hi {
            out.push(Row { key: bytes::copy_of(rows[lo].key.as_slice()), value: bytes::copy_of(rows[lo].value.as_slice()) });
        }
        assert(row_views(out@) =~= s.subrange(lo as int, hi as int));
        return out;
    }
    let mid: usize = lo + (hi - lo) / 2;
    let a = sort_range(rows, lo, mid);
    let b = sort_range(rows, mid, hi);
    let r = merge_two(&a, &b);
    proof {
        let x = s.subrange(lo as int, mid as int);
        let y = s.subrange(mid as int, hi as int);
        assert(s.subrange(lo as int, hi as int) =~= x + y);
        vstd::seq_lib::lemma_multiset_commutative(x, y);
    }
    r
}

/// The rows in key order; rows of one key keep their order.
pub fn sort_rows(rows: &Vec<Row>) -> (r: Vec<Row>)
    ensures
        in_order(row_views(r@)),
        row_views(r@).to_multiset() == row_views(rows@).to_multiset(),
{
    let r = sort_range(rows, 0, rows.len());
    assert(row_views(rows@).subrange(0, rows@.len() as int) =~= row_views(rows@));
    r
}

/// Sorting keeps every row.
pub proof fn lemma_sorted_rows(a: Seq<(Seq<u8>, Seq<u8>)>, b: Seq<(Seq<u8>, Seq<u8>)>, row: (Seq<u8>, Seq<u8>))
    requires
        a.to_multiset() == b.to_multiset(),
    ensures
        holds_row(a, row) <==> holds_row(b, row),
{
    broadcast use vstd::seq_lib::group_to_multiset_ensures;

    assert(a.contains(row) <==> a.to_multiset().count(row) > 0);
    assert(b.contains(row) <==> b.to_multiset().count(row) > 0);
    if holds_row(a, row) {
        assert(a.contains(row));
        assert(b[b.index_of(row)] == row);
    }
    if holds_row(b, row) {
        assert(b.contains(row));
        assert(a[a.index_of(row)] == row);
    }
}

/// One run with every row of the given runs, and no other.
pub fn merge_paged_indexes(inputs: &Vec<Arc<PagedIndex>>, generation: u64) -> (r: PagedIndex)
    requires
        forall|i: int| 0 <= i < inputs@.len() ==> (#[trigger] inputs@[i]).wf(),
    ensures
        r.wf(),
        r.version() == generation,
        r.rows().to_multiset() == all_rows(inputs@).to_multiset(),
{
    broadcast use vstd::seq_lib::group_to_multiset_ensures;

    let mut out: Vec<Row> = Vec::new();
    let mut i: usize = 0;
    assert(inputs@.subrange(0, 0) =~= Seq::<Arc<PagedIndex>>::empty());
    assert(row_views(out@) =~= Seq::<(Seq<u8>, Seq<u8>)>::empty());
    while i < inputs.len()
        invariant
            i <= inputs@.len(),
            forall|i: int| 0 <= i < inputs@.len() ==> (#[trigger] inputs@[i]).wf(),
            in_order(row_views(out@)),
            row_views(out@).to_multiset() == all_rows(inputs@.subrange(0, i as int)).to_multiset(),
        decreases inputs@.len() - i,
    {
        let run = &inputs[i];
        assert(run.wf());
        let next = merge_two(&out, &run.rows);
        proof {
            let s = inputs@.subrange(0, i + 1);
            assert(s.drop_last() =~= inputs@.subrange(0, i as int));
            assert(s.last() == inputs@[i as int]);
            vstd::seq_lib::lemma_multiset_commutative(all_rows(s.drop_last()), run.rows());
        }
        out = next;
        i = i + 1;
    }
    assert(inputs@.subrange(0, i as int) =~= inputs@);
    PagedIndex { rows: out, dump_version: generation }
}

/// A merged run holds exactly the rows that one of its inputs holds.
pub proof fn lemma_merged_rows(runs: Seq<Arc<PagedIndex>>, merged: Seq<(Seq<u8>, Seq<u8>)>, row: (Seq<u8>, Seq<u8>))
    requires
        merged.to_multiset() == all_rows(runs).to_multiset(),
    ensures
        holds_row(merged, row) <==> exists|i: int| 0 <= i < runs.len() && #[trigger] holds_row(runs[i].rows(), row),
{
    broadcast use vstd::seq_lib::group_to_multiset_ensures;

    lemma_all_rows(runs, row);
    assert(merged.contains(row) <==> all_rows(runs).contains(row)) by {
        assert(merged.contains(row) <==> merged.to_multiset().count(row) > 0);
        assert(all_rows(runs).contains(row) <==> all_rows(runs).to_multiset().count(row) > 0);
    }
    if merged.contains(row) {
        assert(merged[merged.index_of(row)] == row);
    }
    if all_rows(runs).contains(row) {
        assert(all_rows(runs)[all_rows(runs).index_of(row)] == row);
    }
}

proof fn lemma_all_rows(runs: Seq<Arc<PagedIndex>>, row: (Seq<u8>, Seq<u8>))
    ensures
        holds_row(all_rows(runs), row) <==> exists|i: int| 0 <= i < runs.len() && #[trigger] holds_row(runs[i].rows(), row),
    decreases runs.len(),
{
    if runs.len() > 0 {
        let head = runs.drop_last();
        let a = all_rows(head);
        let b = runs.last().rows();
        lemma_all_rows(head, row);
        if holds_row(a + b, row) {
            let k = choose|k: int| 0 <= k < (a + b).len() && #[trigger] (a + b)[k] == row;
            if k < a.len() {
                assert(a[k] == row);
                let i = choose|i: int| 0 <= i < head.len() && #[trigger] holds_row(head[i].rows(), row);
                assert(holds_row(runs[i].rows(), row));
            } else {
                assert(b[k - a.len()] == row);
                assert(holds_row(runs[runs.len() - 1].rows(), row));
            }
        }
        if exists|i: int| 0 <= i < runs.len() && #[trigger] holds_row(runs[i].rows(), row) {
            let i = choose|i: int| 0 <= i < runs.len() && #[trigger] holds_row(runs[i].rows(), row);
            if i < head.len() {
                assert(holds_row(head[i].rows(), row));
                let k = choose|k: int| 0 <= k < a.len() && #[trigger] a[k] == row;
                assert((a + b)[k] == row);
            } else {
                let k = choose|k: int| 0 <= k < b.len() && #[trigger] b[k] == row;
                assert((a + b)[a.len() + k] == row);
            }
        }
    }
}

} // verus!
