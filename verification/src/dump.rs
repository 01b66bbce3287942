//! Writing a whole primary index as one run.

use crate::error::{Error, ErrorView};
use crate::model;
use crate::paged::{self, sort_rows, PagedIndex, Row};
use crate::primary::PrimaryIdx;
use crate::schema::{Catalog, TableSchema, TableView};
use crate::version::{self, encode_primary_entry, primary_key};
use crate::visit::{Group, GroupView};
use vstd::prelude::*;
use vstd::utf8::*;

verus! {

/// The rows of the first `n` versions of a record that count.
pub open spec fn group_rows(table: Seq<u8>, g: GroupView, epoch: u64, n: int) -> Seq<(Seq<u8>, Seq<u8>)>
    decreases n,
{
    if n <= 0 {
        Seq::empty()
    } else if g.versions[n - 1].version > epoch {
        group_rows(table, g, epoch, n - 1).push((version::key_of(table, g.id), version::entry_bytes(g.versions[n - 1])))
    } else {
        group_rows(table, g, epoch, n - 1)
    }
}

/// The rows of the first `n` records of a table.
pub open spec fn table_rows(table: Seq<u8>, groups: Seq<GroupView>, epoch: u64, n: int) -> Seq<(Seq<u8>, Seq<u8>)>
    decreases n,
{
    if n <= 0 {
        Seq::empty()
    } else {
        table_rows(table, groups, epoch, n - 1) + group_rows(table, groups[n - 1], epoch, groups[n - 1].versions.len() as int)
    }
}

/// The rows of the first `n` tables.
pub open spec fn catalog_rows(catalog: Seq<TableView>, lists: Seq<Seq<GroupView>>, n: int) -> Seq<(Seq<u8>, Seq<u8>)>
    decreases n,
{
    if n <= 0 {
        Seq::empty()
    } else {
        catalog_rows(catalog, lists, n - 1) + table_rows(
            encode_utf8(catalog[n - 1].name),
            lists[n - 1],
            catalog[n - 1].epoch,
            lists[n - 1].len() as int,
        )
    }
}

/// `lists` are the records of the first `n` tables.
pub open spec fn tables_listed(index: &PrimaryIdx, catalog: Seq<TableView>, lists: Seq<Seq<GroupView>>, n: int) -> bool {
    &&& lists.len() == n
    &&& forall|i: int| 0 <= i < n ==> index.is_listing(encode_utf8(catalog[i].name), None, None, #[trigger] lists[i])
}

/// A version that counts and is not in a segment.
pub open spec fn holds_resident(groups: Seq<GroupView>, epoch: u64, g: int, k: int) -> bool {
    &&& 0 <= g < groups.len()
    &&& 0 <= k < groups[g].versions.len()
    &&& groups[g].versions[k].version > epoch
    &&& groups[g].versions[k].kind.is_resident()
}

/// Why an index cannot be written: a table cannot be walked, or a version that
/// counts is not in a segment.
pub open spec fn dump_error(index: &PrimaryIdx, catalog: Seq<TableView>, e: ErrorView) -> bool {
    ||| exists|i: int, key: Seq<u8>, m: Seq<char>|
        0 <= i < catalog.len() && #[trigger] index.is_fault(encode_utf8(catalog[i].name), key, m) && e == ErrorView::Corrupt(m)
    ||| exists|i: int, groups: Seq<GroupView>, g: int, k: int|
        0 <= i < catalog.len() && index.is_listing(encode_utf8(catalog[i].name), None, None, groups) && #[trigger] holds_resident(
            groups,
            catalog[i].epoch,
            g,
            k,
        ) && e == ErrorView::InvalidArgument(version::resident_message())
}

fn add_group(rows: &mut Vec<Row>, table: &str, g: &Group, epoch: u64) -> (r: Result<(), Error>)
    requires
        encode_utf8(table@).len() <= u32::MAX,
    ensures
        match r {
            Ok(()) => paged::row_views(final(rows)@) == paged::row_views(old(rows)@) + group_rows(
                encode_utf8(table@),
                g@,
                epoch,
                g@.versions.len() as int,
            ),
            Err(e) => e@ == ErrorView::InvalidArgument(version::resident_message()) && exists|k: int|
                0 <= k < g@.versions.len() && (#[trigger] g@.versions[k]).version > epoch && g@.versions[k].kind.is_resident(),
        },
{
    let ghost start = paged::row_views(rows@);
    let key = primary_key(table, g.id.as_str());
    let mut k: usize = 0;
    assert(start + group_rows(encode_utf8(table@), g@, epoch, 0) =~= start);
    while k < g.versions.len()
        invariant
            k <= g.versions@.len(),
            key@ == version::key_of(encode_utf8(table@), g@.id),
            paged::row_views(rows@) == start + group_rows(encode_utf8(table@), g@, epoch, k as int),
        decreases g.versions@.len() - k,
    {
        let entry = &g.versions[k];
        assert(g@.versions[k as int] == entry@);
        if entry.version > epoch {
            let value = match encode_primary_entry(entry) {
                Ok(v) => v,
                Err(e) => {
                    assert(g@.versions[k as int].kind.is_resident());
                    return Err(e);
                },
            };
            let ghost before = paged::row_views(rows@);
            let row = Row { key: crate::bytes::copy_of(key.as_slice()), value };
            rows.push(row);
            proof {
                let ghost_row = (version::key_of(encode_utf8(table@), g@.id), version::entry_bytes(g@.versions[k as int]));
                assert(paged::row_views(rows@) =~= before.push(ghost_row));
                assert(start + group_rows(encode_utf8(table@), g@, epoch, (k + 1) as int) =~= before.push(ghost_row));
            }
        }
        k = k + 1;
    }
    Ok(())
}

fn add_table(index: &PrimaryIdx, rows: &mut Vec<Row>, schema: &TableSchema) -> (r: Result<Ghost<Seq<GroupView>>, Error>)
    requires
        index.wf(),
        encode_utf8(schema@.name).len() <= u32::MAX,
    ensures
        match r {
            Ok(groups) => {
                &&& index.is_listing(encode_utf8(schema@.name), None, None, groups@)
                &&& paged::row_views(final(rows)@) == paged::row_views(old(rows)@) + table_rows(
                    encode_utf8(schema@.name),
                    groups@,
                    schema@.epoch,
                    groups@.len() as int,
                )
            },
            Err(e) => {
                ||| exists|key: Seq<u8>, m: Seq<char>|
                    #[trigger] index.is_fault(encode_utf8(schema@.name), key, m) && e@ == ErrorView::Corrupt(m)
                ||| exists|groups: Seq<GroupView>, g: int, k: int|
                    index.is_listing(encode_utf8(schema@.name), None, None, groups) && #[trigger] holds_resident(
                        groups,
                        schema@.epoch,
                        g,
                        k,
                    ) && e@ == ErrorView::InvalidArgument(version::resident_message())
            },
        },
{
    let groups = match index.visit_table(schema.name.as_str(), None, None) {
        Ok(groups) => groups,
        Err(e) => {
            return Err(e);
        },
    };
    let ghost all = model::views(groups@);
    let ghost start = paged::row_views(rows@);
    let ghost table = encode_utf8(schema@.name);
    let mut i: usize = 0;
    assert(start + table_rows(table, all, schema@.epoch, 0) =~= start);
    while i < groups.len()
        invariant
            i <= groups@.len(),
            all == model::views(groups@),
            table == encode_utf8(schema@.name),
            table.len() <= u32::MAX,
            index.is_listing(table, None, None, all),
            paged::row_views(rows@) == start + table_rows(table, all, schema@.epoch, i as int),
        decreases groups@.len() - i,
    {
        assert(all[i as int] == groups@[i as int]@);
        match add_group(rows, schema.name.as_str(), &groups[i], schema.epoch) {
            Ok(()) => {},
            Err(e) => {
                proof {
                    let k = choose|k: int|
                        0 <= k < all[i as int].versions.len() && (#[trigger] all[i as int].versions[k]).version > schema@.epoch
                            && all[i as int].versions[k].kind.is_resident();
                    assert(holds_resident(all, schema@.epoch, i as int, k));
                }
                return Err(e);
            },
        }
        proof {
            assert(start + table_rows(table, all, schema@.epoch, (i + 1) as int) =~= paged::row_views(rows@));
        }
        i = i + 1;
    }
    Ok(Ghost(all))
}

impl PrimaryIdx {
    /// Write the versions of all tables that count as one run.
    pub fn write_paged_for_catalog(&self, catalog: &Catalog, dump_version: u64) -> (r: Result<PagedIndex, Error>)
        requires
            self.wf(),
            forall|i: int| 0 <= i < catalog@.len() ==> encode_utf8((#[trigger] catalog@[i]).name).len() <= u32::MAX,
        ensures
            match r {
                Ok(run) => run.wf() && run.version() == dump_version && exists|lists: Seq<Seq<GroupView>>|
                    #[trigger] tables_listed(self, catalog@, lists, catalog@.len() as int) && run.rows().to_multiset()
                        == catalog_rows(catalog@, lists, catalog@.len() as int).to_multiset(),
                Err(e) => dump_error(self, catalog@, e@),
            },
    {
        let mut rows: Vec<Row> = Vec::new();
        let ghost mut lists: Seq<Seq<GroupView>> = Seq::empty();
        let mut i: usize = 0;
        assert(paged::row_views(rows@) =~= Seq::<(Seq<u8>, Seq<u8>)>::empty());
        while i < catalog.tables.len()
            invariant
                self.wf(),
                forall|i: int| 0 <= i < catalog@.len() ==> encode_utf8((#[trigger] catalog@[i]).name).len() <= u32::MAX,
                i <= catalog.tables@.len(),
                tables_listed(self, catalog@, lists, i as int),
                paged::row_views(rows@) == catalog_rows(catalog@, lists, i as int),
            decreases catalog.tables@.len() - i,
        {
            let ghost before = lists;
            assert(catalog@[i as int] == catalog.tables@[i as int]@);
            match add_table(self, &mut rows, &catalog.tables[i]) {
                Ok(groups) => {
                    proof {
                        lists = before.push(groups@);
                        lemma_same_lists(catalog@, before, lists, i as int);
                        assert forall|x: int| 0 <= x < i + 1 implies self.is_listing(
                            encode_utf8(catalog@[x].name),
                            None,
                            None,
                            #[trigger] lists[x],
                        ) by {
                            if x < i {
                                assert(lists[x] == before[x]);
                            }
                        }
                    }
                },
                Err(e) => {
                    assert(dump_error(self, catalog@, e@));
                    return Err(e);
                },
            }
            i = i + 1;
        }
        let ghost all = paged::row_views(rows@);
        let run = PagedIndex::from_rows(sort_rows(&rows), dump_version);
        let done: Result<PagedIndex, Error> = Ok(run);
        assert(tables_listed(self, catalog@, lists, catalog@.len() as int));
        done
    }
}

proof fn lemma_same_lists(catalog: Seq<TableView>, a: Seq<Seq<GroupView>>, b: Seq<Seq<GroupView>>, n: int)
    requires
        0 <= n <= a.len(),
        n <= b.len(),
        forall|i: int| 0 <= i < n ==> a[i] == b[i],
    ensures
        catalog_rows(catalog, a, n) == catalog_rows(catalog, b, n),
    decreases n,
{
    if n > 0 {
        lemma_same_lists(catalog, a, b, n - 1);
    }
}

} // verus!
