//! What a commit leaves in the log of the values that tables give out, and what
//! opening makes of the ids that it meets.

use crate::ids;
use crate::levels;
use crate::primary::{Run, PRIMARY_BASE_LEVEL};
use crate::recover;
use crate::staged::StagedView;
use crate::state::State;
use crate::visit::GroupView;
use crate::wal::{self, WalMarkView};
use vstd::prelude::*;
use vstd::utf8::*;

verus! {

// ---- Identity values --------------------------------------------------------

/// A table that gives out identity values, and the last one that it gave out.
pub open spec fn gives(st: &State, t: StagedView, value: i64) -> bool {
    &&& exists|c: int| 0 <= c < t.schema.columns.len() && (#[trigger] t.schema.columns[c]).identity
    &&& st.identities@.contains_key(encode_utf8(t.name)) && st.identities@[encode_utf8(t.name)].value == value
}

pub open spec fn is_marked(marks: Seq<WalMarkView>, table: Seq<char>, value: i64) -> bool {
    exists|j: int| 0 <= j < marks.len() && (#[trigger] marks[j]).table == table && marks[j].value == value
}

proof fn lemma_marks_of(st: &State, s: Seq<StagedView>, n: int, table: Seq<char>, value: i64)
    requires
        0 <= n <= s.len(),
    ensures
        is_marked(wal::marks_of(st, s, n), table, value) <==> exists|i: int|
            0 <= i < n && (#[trigger] s[i]).name == table && gives(st, s[i], value),
    decreases n,
{
    if n > 0 {
        lemma_marks_of(st, s, n - 1, table, value);
        let before = wal::marks_of(st, s, n - 1);
        let now = wal::marks_of(st, s, n);
        let t = s[n - 1];
        if is_marked(now, table, value) {
            let j = choose|j: int| 0 <= j < now.len() && (#[trigger] now[j]).table == table && now[j].value == value;
            if j < before.len() {
                assert(before[j] == now[j]);
                let i = choose|i: int| 0 <= i < n - 1 && (#[trigger] s[i]).name == table && gives(st, s[i], value);
                assert(s[i].name == table);
            } else {
                assert(s[n - 1].name == table && gives(st, s[n - 1], value));
            }
        }
        if exists|i: int| 0 <= i < n && (#[trigger] s[i]).name == table && gives(st, s[i], value) {
            let i = choose|i: int| 0 <= i < n && (#[trigger] s[i]).name == table && gives(st, s[i], value);
            if i < n - 1 {
                assert(s[i].name == table);
                let j = choose|j: int| 0 <= j < before.len() && (#[trigger] before[j]).table == table && before[j].value == value;
                assert(now[j] == before[j]);
            } else {
                assert(wal::has_identity(t.schema));
                assert(now[before.len() as int] == (WalMarkView { table, value }));
            }
        }
    } else {
        assert(!is_marked(Seq::<WalMarkView>::empty(), table, value));
    }
}

/// A commit leaves in the log, for every table that it changes and that gives out
/// identity values, the last one that the table gave out, and no other marks.
pub proof fn lemma_marks_logged(st: &State, s: Seq<StagedView>, version: u64, table: Seq<char>, value: i64)
    ensures
        is_marked(wal::record_view(st, s, version).marks, table, value) <==> exists|i: int|
            0 <= i < s.len() && (#[trigger] s[i]).name == table && gives(st, s[i], value),
        wal::record_view(st, s, version).version == version,
{
    lemma_marks_of(st, s, s.len() as int, table, value);
}

// ---- Ids --------------------------------------------------------------------

proof fn lemma_table_noticed(previous: u128, groups: Seq<GroupView>, n: int)
    requires
        0 <= n <= groups.len(),
    ensures
        recover::table_noticed(previous, groups, n) >= previous,
        forall|i: int|
            0 <= i < n ==> (ids::ulid_value(decode_utf8((#[trigger] groups[i]).id)) matches Some(v) ==> v <= recover::table_noticed(
                previous,
                groups,
                n,
            )),
    decreases n,
{
    if n > 0 {
        lemma_table_noticed(previous, groups, n - 1);
    }
}

proof fn lemma_all_noticed(lists: Seq<Seq<GroupView>>, n: int, k: int, i: int)
    requires
        0 <= k < n <= lists.len(),
        0 <= i < lists[k].len(),
    ensures
        ids::ulid_value(decode_utf8(lists[k][i].id)) matches Some(v) ==> v <= recover::all_noticed(lists, n),
    decreases n,
{
    lemma_table_noticed(recover::all_noticed(lists, n - 1), lists[n - 1], lists[n - 1].len() as int);
    if k < n - 1 {
        lemma_all_noticed(lists, n - 1, k, i);
    }
}

/// An id that is given out after opening is none of those that the tables have.
pub proof fn lemma_opened_ids_are_new(lists: Seq<Seq<GroupView>>, k: int, i: int, later: u128, id: Seq<char>)
    requires
        0 <= k < lists.len(),
        0 <= i < lists[k].len(),
        valid_utf8(lists[k][i].id),
        recover::all_noticed(lists, lists.len() as int) < later,
        ids::ulid_value(id) == Some(later),
    ensures
        encode_utf8(id) != lists[k][i].id,
{
    lemma_all_noticed(lists, lists.len() as int, k, i);
    encode_utf8_decode_utf8(id);
}

/// The id that is given out next is above the one before it, and is the one that
/// time and chance propose where that is above it.
pub proof fn lemma_next_id(previous: u128, candidate: u128)
    ensures
        ids::next_value(previous, candidate) matches Some(n) ==> n > previous && (n == candidate || (candidate <= previous && n == previous
            + 1)),
        candidate > previous ==> ids::next_value(previous, candidate) == Some(candidate),
        ids::next_value(previous, candidate) is None ==> candidate <= previous,
{
}

/// Of two ids that were seen the greater is kept, whichever came first, and what
/// is no ULID changes nothing.
pub proof fn lemma_noticed(previous: u128, id: Seq<char>, other: Seq<char>)
    ensures
        ids::noticed(previous, id) >= previous,
        ids::ulid_value(id) matches Some(v) ==> ids::noticed(previous, id) >= v && (ids::noticed(previous, id) == v || ids::noticed(
            previous,
            id,
        ) == previous),
        ids::ulid_value(id) is None ==> ids::noticed(previous, id) == previous,
        ids::noticed(ids::noticed(previous, id), other) == ids::noticed(ids::noticed(previous, other), id),
{
}

// ---- Levels of runs ---------------------------------------------------------

/// The places of the runs of a level.
pub open spec fn of_level(runs: Seq<Run>, level: u8) -> Set<int> {
    Set::new(|i: int| 0 <= i < runs.len() && runs[i].meta.level == level)
}

/// The runs of a level are counted.
pub proof fn lemma_level_counted(runs: Seq<Run>, level: u8)
    ensures
        of_level(runs, level).finite(),
        levels::level_count(runs, level) == of_level(runs, level).len(),
    decreases runs.len(),
{
    if runs.len() > 0 {
        let t = runs.drop_last();
        lemma_level_counted(t, level);
        let last = runs.len() - 1;
        if runs[last].meta.level == level {
            assert(of_level(runs, level) =~= of_level(t, level).insert(last));
        } else {
            assert(of_level(runs, level) =~= of_level(t, level));
        }
    } else {
        assert(of_level(runs, level) =~= Set::empty());
    }
}

/// A merged run stands one level above its runs, but never at the level of the
/// base.
pub proof fn lemma_merged_level(level: u8)
    requires
        level < PRIMARY_BASE_LEVEL,
    ensures
        levels::merged_level(level) < PRIMARY_BASE_LEVEL,
        level <= levels::merged_level(level) <= level + 1,
        level + 1 < PRIMARY_BASE_LEVEL ==> levels::merged_level(level) > level,
{
}

} // verus!
