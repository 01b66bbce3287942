//! Merging the runs of one level into a run of the next.

use crate::bytes;
use crate::cow;
use crate::model::{self, Comparable};
use crate::order::{Datum, OrderedKey};
use crate::paged::{self, merge_paged_indexes, PagedIndex};
use crate::primary::{self, PrimaryIdx, Run, RunMeta, RunMetaView, PRIMARY_BASE_LEVEL, PRIMARY_LEVEL_FANOUT};
use crate::schema::{self, Catalog};
use crate::version::{self, VersionView};
use std::sync::Arc;
use vstd::prelude::*;
use vstd::utf8::*;

verus! {

/// The runs of a level among the first ones.
pub open spec fn level_count(runs: Seq<Run>, level: u8) -> int
    decreases runs.len(),
{
    if runs.len() == 0 {
        0
    } else {
        level_count(runs.drop_last(), level) + if runs.last().meta.level == level {
            1int
        } else {
            0int
        }
    }
}

/// The level to merge next: the lowest below the base that is full.
pub open spec fn is_full_level(runs: Seq<Run>, fanout: int, level: u8) -> bool {
    &&& level != PRIMARY_BASE_LEVEL
    &&& level_count(runs, level) >= fanout
    &&& forall|l: u8| l < level ==> #[trigger] level_count(runs, l) < fanout
}

fn count_level(runs: &Vec<Run>, level: u8) -> (r: usize)
    ensures
        r == level_count(runs@, level),
{
    let mut n: usize = 0;
    let mut i: usize = 0;
    assert(runs@.subrange(0, 0) =~= Seq::<Run>::empty());
    while i < runs.len()
        invariant
            i <= runs@.len(),
            n <= i,
            n == level_count(runs@.subrange(0, i as int), level),
        decreases runs@.len() - i,
    {
        proof {
            let t = runs@.subrange(0, i + 1);
            assert(t.drop_last() =~= runs@.subrange(0, i as int));
        }
        if runs[i].meta.level == level {
            n = n + 1;
        }
        i = i + 1;
    }
    assert(runs@.subrange(0, i as int) =~= runs@);
    n
}

/// The level whose runs are to be merged next, if one is full.
pub fn compaction_level(runs: &Vec<Run>, fanout: usize) -> (r: Option<u8>)
    ensures
        match r {
            Some(level) => is_full_level(runs@, fanout as int, level),
            None => forall|l: u8| l != PRIMARY_BASE_LEVEL ==> #[trigger] level_count(runs@, l) < fanout,
        },
{
    let mut level: u8 = 0;
    while level < PRIMARY_BASE_LEVEL
        invariant
            level <= PRIMARY_BASE_LEVEL,
            forall|l: u8| l < level ==> #[trigger] level_count(runs@, l) < fanout,
        decreases PRIMARY_BASE_LEVEL - level,
    {
        if count_level(runs, level) >= fanout {
            return Some(level);
        }
        level = level + 1;
    }
    None
}

/// The level of a run merged out of runs of `level`.
pub open spec fn merged_level(level: u8) -> int {
    if level + 1 < PRIMARY_BASE_LEVEL {
        level + 1
    } else {
        PRIMARY_BASE_LEVEL - 1
    }
}

pub fn next_level(level: u8) -> (r: u8)
    ensures
        r == merged_level(level),
{
    if level < PRIMARY_BASE_LEVEL - 1 {
        level + 1
    } else {
        PRIMARY_BASE_LEVEL - 1
    }
}

/// The first `limit` runs of a level.
pub open spec fn of_level(runs: Seq<Run>, level: u8, limit: int) -> Seq<Run>
    decreases runs.len(),
{
    if runs.len() == 0 {
        Seq::empty()
    } else {
        let before = of_level(runs.drop_last(), level, limit);
        if runs.last().meta.level == level && before.len() < limit {
            before.push(runs.last())
        } else {
            before
        }
    }
}

/// A merge that is to be written: its inputs and the rows of its output.
pub struct MergePlan {
    pub generation: u64,
    pub level: u8,
    pub selected: Vec<RunMeta>,
    pub inputs: Vec<Arc<PagedIndex>>,
}

impl MergePlan {
    pub open spec fn takes(&self, runs: Seq<Run>) -> bool {
        &&& self.selected@.len() == runs.len()
        &&& self.inputs@.len() == runs.len()
        &&& forall|i: int| 0 <= i < runs.len() ==> (#[trigger] self.selected@[i])@ == runs[i].meta@
        &&& forall|i: int| 0 <= i < runs.len() ==> (#[trigger] self.inputs@[i]) == runs[i].index
    }
}

/// Choose the runs of the lowest full level, `fanout` of them, in run order.
pub fn plan_merge(runs: &Vec<Run>, generation: u64, fanout: usize) -> (r: Option<MergePlan>)
    ensures
        match r {
            Some(plan) => exists|full: u8| {
                &&& #[trigger] is_full_level(runs@, fanout as int, full)
                &&& plan.level == merged_level(full)
                &&& plan.generation == generation
                &&& plan.takes(of_level(runs@, full, fanout as int))
            },
            None => forall|l: u8| l != PRIMARY_BASE_LEVEL ==> #[trigger] level_count(runs@, l) < fanout,
        },
{
    let level: u8 = match compaction_level(runs, fanout) {
        Some(level) => level,
        None => {
            return None;
        },
    };
    let mut selected: Vec<RunMeta> = Vec::new();
    let mut inputs: Vec<Arc<PagedIndex>> = Vec::new();
    let mut i: usize = 0;
    assert(runs@.subrange(0, 0) =~= Seq::<Run>::empty());
    while i < runs.len()
        invariant
            i <= runs@.len(),
            ({
                let part = of_level(runs@.subrange(0, i as int), level, fanout as int);
                &&& selected@.len() == part.len()
                &&& inputs@.len() == part.len()
                &&& forall|j: int| 0 <= j < part.len() ==> (#[trigger] selected@[j])@ == part[j].meta@
                &&& forall|j: int| 0 <= j < part.len() ==> (#[trigger] inputs@[j]) == part[j].index
            }),
        decreases runs@.len() - i,
    {
        proof {
            let t = runs@.subrange(0, i + 1);
            assert(t.drop_last() =~= runs@.subrange(0, i as int));
        }
        if runs[i].meta.level == level && selected.len() < fanout {
            selected.push(runs[i].meta.duplicate());
            inputs.push(cow::share(&runs[i].index));
        }
        i = i + 1;
    }
    assert(runs@.subrange(0, i as int) =~= runs@);
    let plan = MergePlan { generation, level: next_level(level), selected, inputs };
    proof {
        assert(is_full_level(runs@, fanout as int, level));
        assert(plan.takes(of_level(runs@, level, fanout as int)));
    }
    Some(plan)
}

/// Whether a run with this metadata is among the runs.
pub open spec fn has_meta(runs: Seq<Run>, meta: RunMetaView) -> bool {
    exists|i: int| 0 <= i < runs.len() && #[trigger] runs[i].meta@ == meta
}

pub open spec fn names_file(metas: Seq<RunMetaView>, file: Seq<char>) -> bool {
    exists|i: int| 0 <= i < metas.len() && (#[trigger] metas[i]).file == file
}

/// The runs that a merge does not replace.
pub open spec fn remaining(runs: Seq<Run>, selected: Seq<RunMetaView>) -> Seq<Run>
    decreases runs.len(),
{
    if runs.len() == 0 {
        Seq::empty()
    } else if names_file(selected, runs.last().meta.file@) {
        remaining(runs.drop_last(), selected)
    } else {
        remaining(runs.drop_last(), selected).push(runs.last())
    }
}

fn has_meta_exec(runs: &Vec<Run>, meta: &RunMeta) -> (r: bool)
    ensures
        r == has_meta(runs@, meta@),
{
    let mut i: usize = 0;
    while i < runs.len()
        invariant
            i <= runs@.len(),
            forall|j: int| 0 <= j < i ==> #[trigger] runs@[j].meta@ != meta@,
        decreases runs@.len() - i,
    {
        if runs[i].meta.same(meta) {
            return true;
        }
        i = i + 1;
    }
    false
}

fn names_file_exec(metas: &Vec<RunMeta>, file: &str) -> (r: bool)
    ensures
        r == names_file(model::views(metas@), file@),
{
    let mut i: usize = 0;
    while i < metas.len()
        invariant
            i <= metas@.len(),
            forall|j: int| 0 <= j < i ==> (#[trigger] model::views(metas@)[j]).file != file@,
        decreases metas@.len() - i,
    {
        assert(model::views(metas@)[i as int].file == metas@[i as int].file@);
        if bytes::same_text(metas[i].file.as_str(), file) {
            return true;
        }
        i = i + 1;
    }
    false
}

/// Put a merged run in the place of its inputs. Where an input is gone, the
/// output is of no use and nothing changes.
pub fn publish_merge(runs: &mut Vec<Run>, selected: &Vec<RunMeta>, output: Run) -> (r: bool)
    ensures
        r == (forall|i: int| 0 <= i < selected@.len() ==> has_meta(old(runs)@, (#[trigger] model::views(selected@)[i]))),
        r ==> final(runs)@ == remaining(old(runs)@, model::views(selected@)).push(output),
        !r ==> final(runs)@ == old(runs)@,
{
    let ghost before = runs@;
    let ghost metas = model::views(selected@);
    let mut k: usize = 0;
    while k < selected.len()
        invariant
            k <= selected@.len(),
            runs@ == before,
            before == old(runs)@,
            metas == model::views(selected@),
            forall|j: int| 0 <= j < k ==> has_meta(before, #[trigger] metas[j]),
        decreases selected@.len() - k,
    {
        assert(metas[k as int] == selected@[k as int]@);
        if !has_meta_exec(runs, &selected[k]) {
            return false;
        }
        k = k + 1;
    }
    let mut i: usize = 0;
    let ghost mut done: int = 0;
    assert(before.subrange(0, 0) =~= Seq::<Run>::empty());
    assert(runs@ =~= remaining(before.subrange(0, 0), metas) + before.subrange(0, before.len() as int));
    while i < runs.len()
        invariant
            0 <= done <= before.len(),
            i <= runs@.len(),
            metas == model::views(selected@),
            i == remaining(before.subrange(0, done), metas).len(),
            runs@ == remaining(before.subrange(0, done), metas) + before.subrange(done, before.len() as int),
        decreases runs@.len() - i,
    {
        proof {
            let kept = remaining(before.subrange(0, done), metas);
            assert(runs@[i as int] == before[done]);
            let t = before.subrange(0, done + 1);
            assert(t.drop_last() =~= before.subrange(0, done));
            assert(t.last() == before[done]);
        }
        if names_file_exec(selected, runs[i].meta.file.as_str()) {
            let ghost was = runs@;
            let _ = runs.remove(i);
            proof {
                done = done + 1;
                assert(runs@ =~= remaining(before.subrange(0, done), metas) + before.subrange(done, before.len() as int));
            }
        } else {
            i = i + 1;
            proof {
                done = done + 1;
                assert(runs@ =~= remaining(before.subrange(0, done), metas) + before.subrange(done, before.len() as int));
            }
        }
    }
    proof {
        assert(before.subrange(done, before.len() as int).len() == 0);
        assert(before.subrange(0, done) =~= before);
        assert(runs@ =~= remaining(before, metas));
    }
    runs.push(output);
    true
}

// ---- The primary runs -------------------------------------------------------

pub fn primary_compaction_level(index: &PrimaryIdx) -> (r: Option<u8>)
    ensures
        match r {
            Some(level) => is_full_level(index.runs@, PRIMARY_LEVEL_FANOUT as int, level),
            None => forall|l: u8| l != PRIMARY_BASE_LEVEL ==> #[trigger] level_count(index.runs@, l) < PRIMARY_LEVEL_FANOUT,
        },
{
    compaction_level(&index.runs, PRIMARY_LEVEL_FANOUT)
}

/// Whether there is a full level that may be merged.
pub fn primary_compaction_needed(index: &PrimaryIdx, read_only: bool) -> (r: bool)
    ensures
        r == (!read_only && exists|l: u8| #[trigger] is_full_level(index.runs@, PRIMARY_LEVEL_FANOUT as int, l)),
{
    if read_only {
        return false;
    }
    match primary_compaction_level(index) {
        Some(level) => {
            assert(is_full_level(index.runs@, PRIMARY_LEVEL_FANOUT as int, level));
            true
        },
        None => false,
    }
}

/// The merge of the lowest full level of the primary runs: which runs it
/// takes, and the run that stands for them.
pub fn compact_one_primary_level(index: &PrimaryIdx) -> (r: Option<(MergePlan, PagedIndex)>)
    requires
        index.wf(),
    ensures
        match r {
            Some((plan, merged)) => exists|full: u8| {
                &&& #[trigger] is_full_level(index.runs@, PRIMARY_LEVEL_FANOUT as int, full)
                &&& plan.level == merged_level(full)
                &&& plan.generation == index.generation
                &&& plan.takes(of_level(index.runs@, full, PRIMARY_LEVEL_FANOUT as int))
                &&& merged.wf()
                &&& merged.version() == index.generation
                &&& merged.rows().to_multiset() == paged::all_rows(plan.inputs@).to_multiset()
            },
            None => forall|l: u8| l != PRIMARY_BASE_LEVEL ==> #[trigger] level_count(index.runs@, l) < PRIMARY_LEVEL_FANOUT,
        },
{
    let plan = match plan_merge(&index.runs, index.generation, PRIMARY_LEVEL_FANOUT) {
        Some(plan) => plan,
        None => {
            return None;
        },
    };
    let ghost full = choose|full: u8| {
        &&& #[trigger] is_full_level(index.runs@, PRIMARY_LEVEL_FANOUT as int, full)
        &&& plan.level == merged_level(full)
        &&& plan.generation == index.generation
        &&& plan.takes(of_level(index.runs@, full, PRIMARY_LEVEL_FANOUT as int))
    };
    proof {
        let part = of_level(index.runs@, full, PRIMARY_LEVEL_FANOUT as int);
        assert forall|i: int| 0 <= i < plan.inputs@.len() implies (#[trigger] plan.inputs@[i]).wf() by {
            lemma_of_level(index.runs@, full, PRIMARY_LEVEL_FANOUT as int, i);
        }
    }
    let merged = merge_paged_indexes(&plan.inputs, plan.generation);
    assert(is_full_level(index.runs@, PRIMARY_LEVEL_FANOUT as int, full));
    Some((plan, merged))
}

/// A selected run is one of the runs.
pub proof fn lemma_of_level(runs: Seq<Run>, level: u8, limit: int, i: int)
    requires
        0 <= i < of_level(runs, level, limit).len(),
    ensures
        of_level(runs, level, limit)[i].meta.level == level,
        exists|j: int| 0 <= j < runs.len() && #[trigger] runs[j] == of_level(runs, level, limit)[i],
    decreases runs.len(),
{
    if runs.len() > 0 {
        let before = of_level(runs.drop_last(), level, limit);
        if i < before.len() {
            lemma_of_level(runs.drop_last(), level, limit, i);
            let j = choose|j: int| 0 <= j < runs.drop_last().len() && #[trigger] runs.drop_last()[j] == before[i];
            assert(runs[j] == of_level(runs, level, limit)[i]);
        } else {
            assert(runs[runs.len() - 1] == of_level(runs, level, limit)[i]);
        }
    }
}

/// Whether one of the runs has a row.
pub open spec fn runs_hold(runs: Seq<Run>, row: (Seq<u8>, Seq<u8>)) -> bool {
    exists|i: int| 0 <= i < runs.len() && #[trigger] paged::holds_row(runs[i].index.rows(), row)
}

/// No two runs have one file.
pub open spec fn files_distinct(runs: Seq<Run>) -> bool {
    forall|i: int, j: int| 0 <= i < j < runs.len() ==> (#[trigger] runs[i]).meta.file@ != (#[trigger] runs[j]).meta.file@
}

/// A run is kept by a merge exactly when the merge does not name its file.
pub proof fn lemma_remaining(runs: Seq<Run>, selected: Seq<RunMetaView>, run: Run)
    ensures
        remaining(runs, selected).contains(run) <==> runs.contains(run) && !names_file(selected, run.meta.file@),
    decreases runs.len(),
{
    if runs.len() > 0 {
        let t = runs.drop_last();
        lemma_remaining(t, selected, run);
        let kept = remaining(t, selected);
        if runs.contains(run) {
            let i = runs.index_of(run);
            if i < t.len() {
                assert(t[i] == run);
            }
        }
        if t.contains(run) {
            assert(runs[t.index_of(run)] == run);
        }
        if !names_file(selected, runs.last().meta.file@) {
            let all = kept.push(runs.last());
            assert(all[kept.len() as int] == runs.last());
            if kept.contains(run) {
                assert(all[kept.index_of(run)] == run);
            }
            if all.contains(run) {
                let k = all.index_of(run);
                if k < kept.len() {
                    assert(kept[k] == run);
                } else {
                    assert(runs[runs.len() - 1] == run);
                }
            }
        }
        if runs.last() == run {
            assert(runs[runs.len() - 1] == run);
        }
    }
}

/// Putting a merged run in the place of its inputs loses no row and adds none.
pub proof fn lemma_merge_keeps_rows(
    runs: Seq<Run>,
    inputs: Seq<Run>,
    selected: Seq<RunMetaView>,
    output: Run,
    row: (Seq<u8>, Seq<u8>),
)
    requires
        files_distinct(runs),
        selected.len() == inputs.len(),
        forall|i: int| 0 <= i < inputs.len() ==> runs.contains(#[trigger] inputs[i]),
        forall|i: int| 0 <= i < inputs.len() ==> #[trigger] selected[i] == inputs[i].meta@,
        paged::holds_row(output.index.rows(), row) <==> runs_hold(inputs, row),
    ensures
        runs_hold(remaining(runs, selected).push(output), row) <==> runs_hold(runs, row),
{
    let kept = remaining(runs, selected);
    let after = kept.push(output);
    if runs_hold(runs, row) {
        let i = choose|i: int| 0 <= i < runs.len() && #[trigger] paged::holds_row(runs[i].index.rows(), row);
        lemma_remaining(runs, selected, runs[i]);
        assert(runs.contains(runs[i]));
        if names_file(selected, runs[i].meta.file@) {
            let k = choose|k: int| 0 <= k < selected.len() && (#[trigger] selected[k]).file == runs[i].meta.file@;
            assert(runs.contains(inputs[k]));
            let j = runs.index_of(inputs[k]);
            assert(runs[j].meta.file@ == runs[i].meta.file@);
            assert(i == j);
            assert(paged::holds_row(inputs[k].index.rows(), row));
            assert(after[kept.len() as int] == output);
        } else {
            let j = kept.index_of(runs[i]);
            assert(after[j] == runs[i]);
        }
    }
    if runs_hold(after, row) {
        let i = choose|i: int| 0 <= i < after.len() && #[trigger] paged::holds_row(after[i].index.rows(), row);
        if i < kept.len() {
            lemma_remaining(runs, selected, kept[i]);
            assert(kept.contains(kept[i]));
            let j = runs.index_of(kept[i]);
            assert(paged::holds_row(runs[j].index.rows(), row));
        } else {
            let k = choose|k: int| 0 <= k < inputs.len() && #[trigger] paged::holds_row(inputs[k].index.rows(), row);
            assert(runs.contains(inputs[k]));
            let j = runs.index_of(inputs[k]);
            assert(paged::holds_row(runs[j].index.rows(), row));
        }
    }
}

/// A stored value that is a version.
pub open spec fn decodes_to(value: Seq<u8>, v: VersionView) -> bool {
    version::entry_of(value) == Ok::<VersionView, Seq<char>>(v)
}

/// What the runs have of a key, one row at a time.
pub proof fn lemma_run_entries(runs: Seq<Run>, key: Seq<u8>)
    ensures
        match primary::run_entries(runs, key) {
            Ok(s) => {
                &&& forall|value: Seq<u8>| #[trigger] runs_hold(runs, (key, value)) ==> version::entry_of(value) is Ok
                &&& forall|v: VersionView| #[trigger] s.contains(v) ==> exists|value: Seq<u8>|
                    #[trigger] runs_hold(runs, (key, value)) && decodes_to(value, v)
                &&& forall|value: Seq<u8>, v: VersionView| #[trigger] runs_hold(runs, (key, value)) && #[trigger] decodes_to(value, v)
                    ==> s.contains(v)
            },
            Err(m) => exists|value: Seq<u8>| #[trigger] runs_hold(runs, (key, value)) && version::entry_of(value) is Err,
        },
    decreases runs.len(),
{
    if runs.len() > 0 {
        let t = runs.drop_last();
        lemma_run_entries(t, key);
        let rows = runs.last().index.rows();
        let values = paged::values_of(rows, key);
        lemma_entries_of(values);
        assert forall|value: Seq<u8>| #[trigger] runs_hold(runs, (key, value)) <==> runs_hold(t, (key, value)) || values.contains(
            value,
        ) by {
            paged::lemma_values_of(rows, key, value);
            if runs_hold(runs, (key, value)) {
                let i = choose|i: int| 0 <= i < runs.len() && #[trigger] paged::holds_row(runs[i].index.rows(), (key, value));
                if i < t.len() {
                    assert(paged::holds_row(t[i].index.rows(), (key, value)));
                }
            }
            if runs_hold(t, (key, value)) {
                let i = choose|i: int| 0 <= i < t.len() && #[trigger] paged::holds_row(t[i].index.rows(), (key, value));
                assert(paged::holds_row(runs[i].index.rows(), (key, value)));
            }
            if values.contains(value) {
                assert(paged::holds_row(runs[runs.len() - 1].index.rows(), (key, value)));
            }
        }
        match primary::run_entries(t, key) {
            Err(m) => {
                let value = choose|value: Seq<u8>| #[trigger] runs_hold(t, (key, value)) && version::entry_of(value) is Err;
                assert(runs_hold(runs, (key, value)));
            },
            Ok(a) => match primary::entries_of(values) {
                Err(m) => {
                    let i = choose|i: int| 0 <= i < values.len() && version::entry_of(#[trigger] values[i]) is Err;
                    assert(values.contains(values[i]));
                    assert(runs_hold(runs, (key, values[i])));
                },
                Ok(b) => {
                    let s = a + b;
                    assert forall|v: VersionView| #[trigger] s.contains(v) implies exists|value: Seq<u8>|
                        #[trigger] runs_hold(runs, (key, value)) && decodes_to(value, v) by {
                        let k = s.index_of(v);
                        if k < a.len() {
                            assert(a[k] == v);
                            assert(a.contains(v));
                            let value = choose|value: Seq<u8>| #[trigger] runs_hold(t, (key, value)) && decodes_to(value, v);
                            assert(runs_hold(runs, (key, value)));
                        } else {
                            let value = values[k - a.len()];
                            assert(values.contains(value));
                            assert(decodes_to(value, v));
                            assert(runs_hold(runs, (key, value)));
                        }
                    }
                    assert forall|value: Seq<u8>, v: VersionView| #[trigger] runs_hold(runs, (key, value)) && #[trigger] decodes_to(
                        value,
                        v,
                    ) implies s.contains(v) by {
                        if runs_hold(t, (key, value)) {
                            let k = a.index_of(v);
                            assert(s[k] == v);
                        } else {
                            let k = values.index_of(value);
                            assert(s[a.len() + k] == v);
                        }
                    }
                },
            },
        }
    } else {
        assert(Seq::<VersionView>::empty().len() == 0);
    }
}

/// Stored values decode one by one.
pub proof fn lemma_entries_of(values: Seq<Seq<u8>>)
    ensures
        match primary::entries_of(values) {
            Ok(s) => s.len() == values.len() && forall|i: int|
                0 <= i < values.len() ==> version::entry_of(#[trigger] values[i]) == Ok::<VersionView, Seq<char>>(s[i]),
            Err(m) => exists|i: int| 0 <= i < values.len() && version::entry_of(#[trigger] values[i]) is Err,
        },
    decreases values.len(),
{
    if values.len() > 0 {
        let t = values.drop_last();
        lemma_entries_of(t);
        match primary::entries_of(t) {
            Err(m) => {
                let i = choose|i: int| 0 <= i < t.len() && version::entry_of(#[trigger] t[i]) is Err;
                assert(version::entry_of(values[i]) is Err);
            },
            Ok(s) => {
                assert(values[values.len() - 1] == values.last());
                assert forall|i: int| 0 <= i < t.len() implies values[i] == #[trigger] t[i] by {}
                match primary::entries_of(values) {
                    Ok(full) => {
                        assert forall|i: int| 0 <= i < values.len() implies version::entry_of(#[trigger] values[i]) == Ok::<
                            VersionView,
                            Seq<char>,
                        >(full[i]) by {
                            if i < t.len() {
                                assert(version::entry_of(t[i]) == Ok::<VersionView, Seq<char>>(s[i]));
                            }
                        }
                    },
                    Err(_) => {
                        assert(version::entry_of(values[values.len() - 1]) is Err);
                    },
                }
            },
        }
    }
}

/// Runs that hold the same rows give a reader at any version the same answer.
pub proof fn lemma_same_rows_same_version(a: Seq<Run>, b: Seq<Run>, key: Seq<u8>, max: u64)
    requires
        forall|value: Seq<u8>| #[trigger] runs_hold(a, (key, value)) <==> runs_hold(b, (key, value)),
        primary::run_entries(a, key) matches Ok(s) && primary::consistent(s),
    ensures
        primary::run_entries(b, key) is Ok,
        primary::newest_of(primary::run_entries(a, key)->Ok_0, max) == primary::newest_of(primary::run_entries(b, key)->Ok_0, max),
{
    lemma_run_entries(a, key);
    lemma_run_entries(b, key);
    let s = primary::run_entries(a, key)->Ok_0;
    if primary::run_entries(b, key) is Err {
        let value = choose|value: Seq<u8>| #[trigger] runs_hold(b, (key, value)) && version::entry_of(value) is Err;
        assert(runs_hold(a, (key, value)));
    } else {
        let t = primary::run_entries(b, key)->Ok_0;
        assert forall|v: VersionView| s.contains(v) <==> t.contains(v) by {
            if s.contains(v) {
                let value = choose|value: Seq<u8>| #[trigger] runs_hold(a, (key, value)) && decodes_to(value, v);
                assert(runs_hold(b, (key, value)));
                assert(decodes_to(value, v));
            }
            if t.contains(v) {
                let value = choose|value: Seq<u8>| #[trigger] runs_hold(b, (key, value)) && decodes_to(value, v);
                assert(runs_hold(a, (key, value)));
                assert(decodes_to(value, v));
            }
        }
        primary::lemma_newest_same(s, t, max);
    }
}

// ---- The generation of the primary runs -------------------------------------

/// A segment file: its id and its length.
#[derive(Clone, Copy, PartialEq, Eq, Structural, Debug)]
pub struct SegmentMeta {
    pub id: u32,
    pub len: u64,
}

pub const HASH_START: u64 = 0xcbf2_9ce4_8422_2325;

pub const HASH_PRIME: u64 = 0x100_0000_01b3;

/// The FNV-1a hash of bytes.
pub open spec fn hash_of(s: Seq<u8>) -> u64
    decreases s.len(),
{
    if s.len() == 0 {
        HASH_START
    } else {
        (((hash_of(s.drop_last()) ^ (s.last() as u64)) * HASH_PRIME) % 0x1_0000_0000_0000_0000) as u64
    }
}

pub open spec fn segments_bytes(segments: Seq<SegmentMeta>) -> Seq<u8>
    decreases segments.len(),
{
    if segments.len() == 0 {
        Seq::empty()
    } else {
        segments_bytes(segments.drop_last()) + bytes::le(segments.last().id as nat, 4) + bytes::le(segments.last().len as nat, 8)
    }
}

pub open spec fn tables_bytes(tables: Seq<schema::TableView>) -> Seq<u8>
    decreases tables.len(),
{
    if tables.len() == 0 {
        Seq::empty()
    } else {
        let name = encode_utf8(tables.last().name);
        tables_bytes(tables.drop_last()) + bytes::le(name.len(), 8) + name + bytes::le(tables.last().epoch as nat, 8)
    }
}

/// The canonical data that primary runs belong to, as bytes.
pub open spec fn generation_bytes(version: u64, segments: Seq<SegmentMeta>, catalog: Seq<schema::TableView>) -> Seq<u8> {
    bytes::le(version as nat, 8) + segments_bytes(segments) + tables_bytes(catalog)
}

fn hash_bytes(data: &[u8]) -> (r: u64)
    ensures
        r == hash_of(data@),
{
    let mut hash: u64 = HASH_START;
    let mut i: usize = 0;
    assert(data@.subrange(0, 0) =~= Seq::<u8>::empty());
    while i < data.len()
        invariant
            i <= data@.len(),
            hash == hash_of(data@.subrange(0, i as int)),
        decreases data@.len() - i,
    {
        proof {
            let t = data@.subrange(0, i + 1);
            assert(t.drop_last() =~= data@.subrange(0, i as int));
            assert(t.last() == data@[i as int]);
        }
        let b: u8 = data[i];
        hash = (hash ^ (b as u64)).wrapping_mul(HASH_PRIME);
        i = i + 1;
    }
    assert(data@.subrange(0, i as int) =~= data@);
    hash
}

/// The number that ties primary runs to the segments and tables they index.
pub fn primary_generation(committed_version: u64, segments: &Vec<SegmentMeta>, catalog: &Catalog) -> (r: u64)
    ensures
        r == hash_of(generation_bytes(committed_version, segments@, catalog@)),
{
    let mut buf: Vec<u8> = Vec::new();
    proof {
        bytes::lemma_radix_small();
    }
    bytes::push_le(&mut buf, committed_version, 8);
    let ghost head = bytes::le(committed_version as nat, 8);
    let mut i: usize = 0;
    assert(segments@.subrange(0, 0) =~= Seq::<SegmentMeta>::empty());
    assert(buf@ =~= head + segments_bytes(segments@.subrange(0, 0)));
    while i < segments.len()
        invariant
            i <= segments@.len(),
            buf@ == head + segments_bytes(segments@.subrange(0, i as int)),
            bytes::radix(4) == 0x1_0000_0000,
            bytes::radix(8) == 0x1_0000_0000_0000_0000,
        decreases segments@.len() - i,
    {
        proof {
            let t = segments@.subrange(0, i + 1);
            assert(t.drop_last() =~= segments@.subrange(0, i as int));
            assert(t.last() == segments@[i as int]);
        }
        let segment: SegmentMeta = segments[i];
        let ghost was = buf@;
        bytes::push_le(&mut buf, segment.id as u64, 4);
        bytes::push_le(&mut buf, segment.len, 8);
        assert(buf@ =~= head + segments_bytes(segments@.subrange(0, i + 1)));
        i = i + 1;
    }
    assert(segments@.subrange(0, i as int) =~= segments@);
    let ghost front = head + segments_bytes(segments@);
    let mut k: usize = 0;
    assert(catalog@.subrange(0, 0) =~= Seq::<schema::TableView>::empty());
    assert(buf@ =~= front + tables_bytes(catalog@.subrange(0, 0)));
    while k < catalog.tables.len()
        invariant
            k <= catalog.tables@.len(),
            catalog@.len() == catalog.tables@.len(),
            forall|j: int| 0 <= j < catalog.tables@.len() ==> (#[trigger] catalog@[j]) == catalog.tables@[j]@,
            buf@ == front + tables_bytes(catalog@.subrange(0, k as int)),
            bytes::radix(8) == 0x1_0000_0000_0000_0000,
        decreases catalog.tables@.len() - k,
    {
        proof {
            let t = catalog@.subrange(0, k + 1);
            assert(t.drop_last() =~= catalog@.subrange(0, k as int));
            assert(t.last() == catalog@[k as int]);
        }
        let table = &catalog.tables[k];
        let name = table.name.as_str();
        bytes::push_le(&mut buf, bytes::byte_len(name) as u64, 8);
        bytes::push_all(&mut buf, name.as_bytes());
        bytes::push_le(&mut buf, table.epoch, 8);
        assert(buf@ =~= front + tables_bytes(catalog@.subrange(0, k + 1)));
        k = k + 1;
    }
    assert(catalog@.subrange(0, k as int) =~= catalog@);
    hash_bytes(buf.as_slice())
}

} // verus!
