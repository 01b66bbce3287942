//! What the names of files say, which runs are taken, and what a whole index that
//! is written as one run holds.

use crate::dump;
use crate::files::{self, RunFile};
use crate::format_laws;
use crate::schema::TableView;
use crate::text;
use crate::version;
use crate::visit::GroupView;
use vstd::prelude::*;
use vstd::utf8::*;

verus! {

// ---- Names ------------------------------------------------------------------

proof fn lemma_number_of(s: Seq<u8>)
    requires
        forall|i: int| 0 <= i < s.len() ==> 48 <= #[trigger] s[i] <= 57,
    ensures
        format_laws::decimal_value(s) >= 0,
        files::number_of(s) is Some <==> format_laws::decimal_value(s) <= u32::MAX,
        files::number_of(s) matches Some(n) ==> n == format_laws::decimal_value(s),
    decreases s.len(),
{
    if s.len() > 0 {
        let t = s.drop_last();
        assert forall|i: int| 0 <= i < t.len() implies 48 <= #[trigger] t[i] <= 57 by {
            assert(t[i] == s[i]);
        }
        lemma_number_of(t);
        assert(48 <= s[s.len() - 1] <= 57);
    }
}

/// A file that is named by a number in decimal has that number, whatever its
/// suffix, so that a segment or a log that is in use is never taken for one that
/// is not.
pub proof fn lemma_numbered_name(n: nat, suffix: Seq<u8>)
    requires
        n <= u32::MAX,
    ensures
        files::numbered(text::decimal_bytes(n) + suffix, suffix) == Some(n),
{
    let s = text::decimal_bytes(n);
    let name = s + suffix;
    format_laws::lemma_decimal_reads_back(n);
    lemma_number_of(s);
    assert(name.subrange(name.len() - suffix.len(), name.len() as int) =~= suffix);
    assert(name.subrange(0, name.len() - suffix.len()) =~= s);
    assert(48 <= s[0] <= 57);
}

/// Zeros in front of a number change nothing.
pub proof fn lemma_padded_name(n: nat, zeros: nat, suffix: Seq<u8>)
    requires
        n <= u32::MAX,
    ensures
        files::numbered(text::zeros(zeros as int) + text::decimal_bytes(n) + suffix, suffix) == Some(n),
{
    let s = text::zeros(zeros as int) + text::decimal_bytes(n);
    let name = s + suffix;
    format_laws::lemma_decimal_reads_back(n);
    lemma_zeros_count_nothing(zeros, text::decimal_bytes(n));
    assert forall|i: int| 0 <= i < s.len() implies 48 <= #[trigger] s[i] <= 57 by {
        if i >= zeros {
            assert(s[i] == text::decimal_bytes(n)[i - zeros]);
        }
    }
    lemma_number_of(s);
    assert(name.subrange(name.len() - suffix.len(), name.len() as int) =~= suffix);
    assert(name.subrange(0, name.len() - suffix.len()) =~= s);
    assert(48 <= s[0] <= 57);
}

proof fn lemma_zeros_count_nothing(zeros: nat, s: Seq<u8>)
    ensures
        format_laws::decimal_value(text::zeros(zeros as int) + s) == format_laws::decimal_value(s),
    decreases zeros + s.len(),
{
    let all = text::zeros(zeros as int) + s;
    if s.len() > 0 {
        assert(all.drop_last() =~= text::zeros(zeros as int) + s.drop_last());
        lemma_zeros_count_nothing(zeros, s.drop_last());
    } else if zeros > 0 {
        assert(all.drop_last() =~= text::zeros(zeros - 1) + s);
        lemma_zeros_count_nothing((zeros - 1) as nat, s);
    }
}

/// What has no number has none of the right form: a name that is numbered ends in
/// the suffix, and has nothing but digits before it, at least one, and perhaps a
/// plus sign.
pub proof fn lemma_numbered_form(name: Seq<u8>, suffix: Seq<u8>)
    requires
        files::numbered(name, suffix) is Some,
    ensures
        name.len() > suffix.len(),
        name.subrange(name.len() - suffix.len(), name.len() as int) == suffix,
        forall|i: int| 0 < i < name.len() - suffix.len() ==> 48 <= #[trigger] name[i] <= 57,
        48 <= name[0] <= 57 || (name[0] == 43 && name.len() > suffix.len() + 1),
{
    let stem = name.subrange(0, name.len() - suffix.len());
    if stem.len() > 0 && stem[0] == 43 {
        let digits = stem.subrange(1, stem.len() as int);
        lemma_digits_only(digits);
        assert forall|i: int| 0 < i < name.len() - suffix.len() implies 48 <= #[trigger] name[i] <= 57 by {
            assert(digits[i - 1] == name[i]);
        }
    } else {
        lemma_digits_only(stem);
        assert forall|i: int| 0 <= i < name.len() - suffix.len() implies 48 <= #[trigger] name[i] <= 57 by {
            assert(stem[i] == name[i]);
        }
    }
}

proof fn lemma_digits_only(s: Seq<u8>)
    requires
        files::number_of(s) is Some,
    ensures
        forall|i: int| 0 <= i < s.len() ==> 48 <= #[trigger] s[i] <= 57,
    decreases s.len(),
{
    if s.len() > 0 {
        let t = s.drop_last();
        lemma_digits_only(t);
        assert forall|i: int| 0 <= i < s.len() implies 48 <= #[trigger] s[i] <= 57 by {
            if i < t.len() {
                assert(t[i] == s[i]);
            }
        }
    }
}

// ---- Runs -------------------------------------------------------------------

/// Runs are taken exactly where no two have one name, and each is as long as the
/// manifest says, can be read, and is of the generation that the manifest says.
pub proof fn lemma_runs_taken(kind: Seq<char>, list: Seq<RunFile>)
    ensures
        (forall|i: int| 0 <= i < list.len() ==> (#[trigger] files::run_error(kind, list, i)) is None) <==> {
            &&& forall|i: int, j: int| 0 <= i < j < list.len() ==> (#[trigger] list[i]).meta.file@ != (#[trigger] list[j]).meta.file@
            &&& forall|i: int|
                0 <= i < list.len() ==> (#[trigger] list[i]).bytes == list[i].meta.bytes && list[i].index is Ok
                    && list[i].index->Ok_0.version() == list[i].meta.generation
        },
{
    if forall|i: int| 0 <= i < list.len() ==> (#[trigger] files::run_error(kind, list, i)) is None {
        assert forall|i: int, j: int| 0 <= i < j < list.len() implies (#[trigger] list[i]).meta.file@ != (#[trigger] list[j]).meta.file@ by {
            assert(files::run_error(kind, list, j) is None);
            if list[i].meta.file@ == list[j].meta.file@ {
                assert(files::name_taken(list, j));
            }
        }
        assert forall|i: int| 0 <= i < list.len() implies (#[trigger] list[i]).bytes == list[i].meta.bytes && list[i].index is Ok
            && list[i].index->Ok_0.version() == list[i].meta.generation by {
            assert(files::run_error(kind, list, i) is None);
        }
    }
}

// ---- A whole index ----------------------------------------------------------

/// A version of a record that its table counts.
pub open spec fn counts(catalog: Seq<TableView>, lists: Seq<Seq<GroupView>>, i: int, q: int, k: int) -> bool {
    &&& 0 <= i < lists.len()
    &&& 0 <= q < lists[i].len()
    &&& 0 <= k < lists[i][q].versions.len()
    &&& lists[i][q].versions[k].version > catalog[i].epoch
}

/// The row of a version.
pub open spec fn row_of(catalog: Seq<TableView>, lists: Seq<Seq<GroupView>>, i: int, q: int, k: int) -> (Seq<u8>, Seq<u8>) {
    (version::key_of(encode_utf8(catalog[i].name), lists[i][q].id), version::entry_bytes(lists[i][q].versions[k]))
}

proof fn lemma_group_rows(table: Seq<u8>, g: GroupView, epoch: u64, n: int, row: (Seq<u8>, Seq<u8>))
    requires
        0 <= n <= g.versions.len(),
    ensures
        dump::group_rows(table, g, epoch, n).contains(row) <==> exists|k: int|
            0 <= k < n && (#[trigger] g.versions[k]).version > epoch && row == (version::key_of(table, g.id), version::entry_bytes(g.versions[k])),
    decreases n,
{
    if n > 0 {
        lemma_group_rows(table, g, epoch, n - 1, row);
        let before = dump::group_rows(table, g, epoch, n - 1);
        let now = dump::group_rows(table, g, epoch, n);
        let v = g.versions[n - 1];
        if now.contains(row) {
            let j = now.index_of(row);
            if j < before.len() {
                assert(before[j] == row);
                let k = choose|k: int|
                    0 <= k < n - 1 && (#[trigger] g.versions[k]).version > epoch && row == (
                        version::key_of(table, g.id),
                        version::entry_bytes(g.versions[k]),
                    );
                assert(g.versions[k].version > epoch);
            } else {
                assert(g.versions[n - 1].version > epoch);
            }
        }
        if exists|k: int|
            0 <= k < n && (#[trigger] g.versions[k]).version > epoch && row == (
                version::key_of(table, g.id),
                version::entry_bytes(g.versions[k]),
            ) {
            let k = choose|k: int|
                0 <= k < n && (#[trigger] g.versions[k]).version > epoch && row == (
                    version::key_of(table, g.id),
                    version::entry_bytes(g.versions[k]),
                );
            if k < n - 1 {
                assert(g.versions[k].version > epoch);
                let j = before.index_of(row);
                assert(now[j] == row);
            } else {
                assert(now[before.len() as int] == row);
            }
        }
    }
}

proof fn lemma_joined(a: Seq<(Seq<u8>, Seq<u8>)>, b: Seq<(Seq<u8>, Seq<u8>)>, row: (Seq<u8>, Seq<u8>))
    ensures
        (a + b).contains(row) <==> a.contains(row) || b.contains(row),
{
    if a.contains(row) {
        assert((a + b)[a.index_of(row)] == row);
    }
    if b.contains(row) {
        assert((a + b)[a.len() + b.index_of(row)] == row);
    }
    if (a + b).contains(row) {
        let j = (a + b).index_of(row);
        if j < a.len() {
            assert(a[j] == row);
        } else {
            assert(b[j - a.len()] == row);
        }
    }
}

proof fn lemma_table_rows(table: Seq<u8>, groups: Seq<GroupView>, epoch: u64, n: int, row: (Seq<u8>, Seq<u8>))
    requires
        0 <= n <= groups.len(),
    ensures
        dump::table_rows(table, groups, epoch, n).contains(row) <==> exists|q: int|
            0 <= q < n && dump::group_rows(table, #[trigger] groups[q], epoch, groups[q].versions.len() as int).contains(row),
    decreases n,
{
    if n > 0 {
        lemma_table_rows(table, groups, epoch, n - 1, row);
        lemma_joined(
            dump::table_rows(table, groups, epoch, n - 1),
            dump::group_rows(table, groups[n - 1], epoch, groups[n - 1].versions.len() as int),
            row,
        );
        if dump::table_rows(table, groups, epoch, n - 1).contains(row) {
            let q = choose|q: int|
                0 <= q < n - 1 && dump::group_rows(table, #[trigger] groups[q], epoch, groups[q].versions.len() as int).contains(row);
            assert(dump::group_rows(table, groups[q], epoch, groups[q].versions.len() as int).contains(row));
        }
    }
}

proof fn lemma_catalog_rows(catalog: Seq<TableView>, lists: Seq<Seq<GroupView>>, n: int, row: (Seq<u8>, Seq<u8>))
    requires
        0 <= n <= lists.len(),
        n <= catalog.len(),
    ensures
        dump::catalog_rows(catalog, lists, n).contains(row) <==> exists|i: int|
            0 <= i < n && dump::table_rows(
                encode_utf8(catalog[i].name),
                #[trigger] lists[i],
                catalog[i].epoch,
                lists[i].len() as int,
            ).contains(row),
    decreases n,
{
    if n > 0 {
        lemma_catalog_rows(catalog, lists, n - 1, row);
        let last = dump::table_rows(encode_utf8(catalog[n - 1].name), lists[n - 1], catalog[n - 1].epoch, lists[n - 1].len() as int);
        lemma_joined(dump::catalog_rows(catalog, lists, n - 1), last, row);
        if dump::catalog_rows(catalog, lists, n - 1).contains(row) {
            let i = choose|i: int|
                0 <= i < n - 1 && dump::table_rows(
                    encode_utf8(catalog[i].name),
                    #[trigger] lists[i],
                    catalog[i].epoch,
                    lists[i].len() as int,
                ).contains(row);
            assert(0 <= i < n && lists[i] == lists[i]);
        }
    }
}

/// A whole index that is written as one run holds every version that its table
/// counts, under the key of its record, and nothing else.
pub proof fn lemma_dump_holds_versions(catalog: Seq<TableView>, lists: Seq<Seq<GroupView>>, row: (Seq<u8>, Seq<u8>))
    requires
        lists.len() == catalog.len(),
    ensures
        dump::catalog_rows(catalog, lists, catalog.len() as int).contains(row) <==> exists|i: int, q: int, k: int|
            #[trigger] counts(catalog, lists, i, q, k) && row == row_of(catalog, lists, i, q, k),
{
    let n = catalog.len() as int;
    lemma_catalog_rows(catalog, lists, n, row);
    if dump::catalog_rows(catalog, lists, n).contains(row) {
        let i = choose|i: int|
            0 <= i < n && dump::table_rows(
                encode_utf8(catalog[i].name),
                #[trigger] lists[i],
                catalog[i].epoch,
                lists[i].len() as int,
            ).contains(row);
        let table = encode_utf8(catalog[i].name);
        let groups = lists[i];
        lemma_table_rows(table, groups, catalog[i].epoch, groups.len() as int, row);
        let q = choose|q: int|
            0 <= q < groups.len() && dump::group_rows(table, #[trigger] groups[q], catalog[i].epoch, groups[q].versions.len() as int).contains(
                row,
            );
        let g = groups[q];
        lemma_group_rows(table, g, catalog[i].epoch, g.versions.len() as int, row);
        let k = choose|k: int|
            0 <= k < g.versions.len() && (#[trigger] g.versions[k]).version > catalog[i].epoch && row == (
                version::key_of(table, g.id),
                version::entry_bytes(g.versions[k]),
            );
        assert(counts(catalog, lists, i, q, k));
    }
    if exists|i: int, q: int, k: int| #[trigger] counts(catalog, lists, i, q, k) && row == row_of(catalog, lists, i, q, k) {
        let (i, q, k) = choose|i: int, q: int, k: int| #[trigger] counts(catalog, lists, i, q, k) && row == row_of(catalog, lists, i, q, k);
        let table = encode_utf8(catalog[i].name);
        let groups = lists[i];
        let g = groups[q];
        assert(g.versions[k].version > catalog[i].epoch);
        lemma_group_rows(table, g, catalog[i].epoch, g.versions.len() as int, row);
        lemma_table_rows(table, groups, catalog[i].epoch, groups.len() as int, row);
        assert(dump::group_rows(table, groups[q], catalog[i].epoch, groups[q].versions.len() as int).contains(row));
        assert(dump::table_rows(table, lists[i], catalog[i].epoch, lists[i].len() as int).contains(row));
    }
}

} // verus!
