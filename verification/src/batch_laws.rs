//! Which commits of a batch go together.

use crate::batch;
use crate::model;
use crate::prepare::PreparedCommit;
use crate::state::State;
use crate::unique;
use vstd::prelude::*;

verus! {

/// Two commits change one record.
pub open spec fn share(m: Seq<PreparedCommit>, a: int, b: int) -> bool {
    exists|key: Seq<u8>| #[trigger] unique::touched(model::views(m[a].staged@), key) && unique::touched(model::views(m[b].staged@), key)
}

proof fn lemma_taken(st: &State, m: Seq<PreparedCommit>, k: int, key: Seq<u8>)
    requires
        0 <= k <= m.len(),
    ensures
        batch::taken(st, m, k, key) <==> exists|j: int|
            0 <= j < k && #[trigger] batch::joins(st, m, j) && unique::touched(model::views(m[j].staged@), key),
    decreases k,
{
    if k > 0 {
        lemma_taken(st, m, k - 1, key);
        if batch::taken(st, m, k, key) {
            if batch::taken(st, m, k - 1, key) {
                let j = choose|j: int|
                    0 <= j < k - 1 && #[trigger] batch::joins(st, m, j) && unique::touched(model::views(m[j].staged@), key);
                assert(batch::joins(st, m, j));
            } else {
                assert(batch::joins(st, m, k - 1));
            }
        }
        if exists|j: int| 0 <= j < k && #[trigger] batch::joins(st, m, j) && unique::touched(model::views(m[j].staged@), key) {
            let j = choose|j: int| 0 <= j < k && #[trigger] batch::joins(st, m, j) && unique::touched(model::views(m[j].staged@), key);
            if j < k - 1 {
                assert(batch::joins(st, m, j));
            }
        }
    }
}

/// A commit goes with a batch exactly where it could be made by itself and changes
/// no record that an earlier one of the batch changes.
pub proof fn lemma_joins(st: &State, m: Seq<PreparedCommit>, k: int)
    requires
        0 <= k < m.len(),
    ensures
        batch::joins(st, m, k) <==> batch::member_ok(st, m[k]) && forall|j: int|
            0 <= j < k && #[trigger] batch::joins(st, m, j) ==> !share(m, j, k),
{
    let mine = model::views(m[k].staged@);
    if batch::joins(st, m, k) {
        assert forall|j: int| 0 <= j < k && #[trigger] batch::joins(st, m, j) implies !share(m, j, k) by {
            if share(m, j, k) {
                let key = choose|key: Seq<u8>|
                    #[trigger] unique::touched(model::views(m[j].staged@), key) && unique::touched(model::views(m[k].staged@), key);
                lemma_taken(st, m, k, key);
                assert(unique::touched(mine, key));
            }
        }
    }
    if batch::member_ok(st, m[k]) && forall|j: int| 0 <= j < k && #[trigger] batch::joins(st, m, j) ==> !share(m, j, k) {
        assert forall|key: Seq<u8>| #[trigger] unique::touched(mine, key) implies !batch::taken(st, m, k, key) by {
            lemma_taken(st, m, k, key);
            if batch::taken(st, m, k, key) {
                let j = choose|j: int|
                    0 <= j < k && #[trigger] batch::joins(st, m, j) && unique::touched(model::views(m[j].staged@), key);
                assert(share(m, j, k));
            }
        }
    }
}

/// Every commit of a batch either goes with it or is left out, and none does both;
/// those that go keep their order, and so do those that are left out.
pub proof fn lemma_batch_splits(st: &State, m: Seq<PreparedCommit>, n: int)
    requires
        0 <= n <= m.len(),
    ensures
        batch::joined(st, m, n).len() + batch::left_out(st, m, n).len() == n,
        forall|k: int| 0 <= k < n ==> (batch::joined(st, m, n).contains(k) <==> #[trigger] batch::joins(st, m, k)),
        forall|k: int| 0 <= k < n ==> (batch::left_out(st, m, n).contains(k) <==> !(#[trigger] batch::joins(st, m, k))),
        forall|q: int| 0 <= q < batch::joined(st, m, n).len() ==> 0 <= #[trigger] batch::joined(st, m, n)[q] < n,
        forall|q: int| 0 <= q < batch::left_out(st, m, n).len() ==> 0 <= #[trigger] batch::left_out(st, m, n)[q] < n,
        forall|p: int, q: int|
            0 <= p < q < batch::joined(st, m, n).len() ==> (#[trigger] batch::joined(st, m, n)[p]) < (#[trigger] batch::joined(st, m, n)[q]),
        forall|p: int, q: int|
            0 <= p < q < batch::left_out(st, m, n).len() ==> (#[trigger] batch::left_out(st, m, n)[p]) < (#[trigger] batch::left_out(
                st,
                m,
                n,
            )[q]),
    decreases n,
{
    if n > 0 {
        lemma_batch_splits(st, m, n - 1);
        let (a, b) = (batch::joined(st, m, n - 1), batch::joined(st, m, n));
        let (c, d) = (batch::left_out(st, m, n - 1), batch::left_out(st, m, n));
        if batch::joins(st, m, n - 1) {
            assert(b == a.push(n - 1) && d == c);
            assert(b[a.len() as int] == n - 1);
        } else {
            assert(d == c.push(n - 1) && b == a);
            assert(d[c.len() as int] == n - 1);
        }
        assert forall|k: int| 0 <= k < n implies (b.contains(k) <==> #[trigger] batch::joins(st, m, k)) by {
            if a.contains(k) {
                assert(b[a.index_of(k)] == k);
            }
            if b.contains(k) && k < n - 1 {
                let q = b.index_of(k);
                assert(a[q] == k);
            }
        }
        assert forall|k: int| 0 <= k < n implies (d.contains(k) <==> !(#[trigger] batch::joins(st, m, k))) by {
            if c.contains(k) {
                assert(d[c.index_of(k)] == k);
            }
            if d.contains(k) && k < n - 1 {
                let q = d.index_of(k);
                assert(c[q] == k);
            }
        }
    }
}

} // verus!
