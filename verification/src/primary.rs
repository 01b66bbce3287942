//! The primary index: which versions of which records there are.
//!
//! Immutable runs hold the versions that live in segments. Beside them stand
//! the changes since the last run was published, and, while a checkpoint is
//! being written, the changes that it froze.

use crate::bytes::{self, Place};
use crate::cow::CowMap;
use crate::error::{Error, ErrorView};
use crate::model::{self, copy_all};
use crate::order::{Datum, OrderedKey};
use crate::pairs;
use crate::paged::{self, PagedIndex};
use crate::version::{self, decode_primary_entry, primary_key, VersionEntry, VersionView};
use std::sync::Arc;
use vstd::prelude::*;
use vstd::utf8::*;

verus! {

/// Runs of one level before they are merged into one of the next.
pub const PRIMARY_LEVEL_FANOUT: usize = 16;

/// The level of the run that was written first.
pub const PRIMARY_BASE_LEVEL: u8 = 255;

/// The versions of one record.
#[derive(Debug)]
pub struct Versions {
    pub list: Vec<VersionEntry>,
}

impl View for Versions {
    type V = Seq<VersionView>;

    open spec fn view(&self) -> Seq<VersionView> {
        model::views(self.list@)
    }
}

impl Datum for Versions {
    open spec fn valid(&self) -> bool {
        true
    }

    fn duplicate(&self) -> (r: Self) {
        Versions { list: copy_all(&self.list) }
    }
}

/// The versions that are not in a run, by primary key.
pub type PrimaryDelta = CowMap<Vec<u8>, Versions>;

#[derive(Debug)]
pub struct RunMeta {
    pub file: String,
    pub level: u8,
    pub bytes: u64,
    pub generation: u64,
}

#[verifier::ext_equal]
pub struct RunMetaView {
    pub file: Seq<char>,
    pub level: u8,
    pub bytes: u64,
    pub generation: u64,
}

impl View for RunMeta {
    type V = RunMetaView;

    open spec fn view(&self) -> RunMetaView {
        RunMetaView { file: self.file@, level: self.level, bytes: self.bytes, generation: self.generation }
    }
}

impl Datum for RunMeta {
    open spec fn valid(&self) -> bool {
        true
    }

    fn duplicate(&self) -> (r: Self) {
        RunMeta { file: self.file.clone(), level: self.level, bytes: self.bytes, generation: self.generation }
    }
}

impl model::Comparable for RunMeta {
    fn same(&self, other: &Self) -> (r: bool) {
        bytes::same_text(self.file.as_str(), other.file.as_str()) && self.level == other.level && self.bytes == other.bytes
            && self.generation == other.generation
    }
}

/// One immutable run and what is known of its file.
pub struct Run {
    pub meta: RunMeta,
    pub index: Arc<PagedIndex>,
}

/// The changes that a checkpoint is writing.
pub struct FrozenPrimary {
    pub version: u64,
    /// Tells this freeze from any other.
    pub ticket: u64,
    pub delta: PrimaryDelta,
}

pub struct PrimaryIdx {
    pub generation: u64,
    pub runs: Vec<Run>,
    pub delta: PrimaryDelta,
    pub frozen: Option<FrozenPrimary>,
}

// ---- The versions of a key --------------------------------------------------

/// The versions under a key of a delta.
pub open spec fn resident(delta: Map<Seq<u8>, Seq<VersionView>>, key: Seq<u8>) -> Seq<VersionView> {
    if delta.contains_key(key) {
        delta[key]
    } else {
        Seq::empty()
    }
}

/// The versions that stored entries hold, or what is wrong with the first bad one.
pub open spec fn entries_of(values: Seq<Seq<u8>>) -> Result<Seq<VersionView>, Seq<char>>
    decreases values.len(),
{
    if values.len() == 0 {
        Ok(Seq::empty())
    } else {
        match entries_of(values.drop_last()) {
            Err(m) => Err(m),
            Ok(s) => match version::entry_of(values.last()) {
                Err(m) => Err(m),
                Ok(v) => Ok(s.push(v)),
            },
        }
    }
}

/// The versions under a key in the runs, one run after another.
pub open spec fn run_entries(runs: Seq<Run>, key: Seq<u8>) -> Result<Seq<VersionView>, Seq<char>>
    decreases runs.len(),
{
    if runs.len() == 0 {
        Ok(Seq::empty())
    } else {
        match run_entries(runs.drop_last(), key) {
            Err(m) => Err(m),
            Ok(s) => match entries_of(paged::values_of(runs.last().index.rows(), key)) {
                Err(m) => Err(m),
                Ok(t) => Ok(s + t),
            },
        }
    }
}

/// The better of what was found so far and another version: the newer one that
/// is not past `max`.
pub open spec fn newer(found: Option<VersionView>, v: VersionView, max: u64) -> Option<VersionView> {
    if v.version <= max && (found is None || v.version > found->0.version) {
        Some(v)
    } else {
        found
    }
}

/// The newest version that is not past `max`.
pub open spec fn newest_of(s: Seq<VersionView>, max: u64) -> Option<VersionView>
    decreases s.len(),
{
    if s.len() == 0 {
        None
    } else {
        newer(newest_of(s.drop_last(), max), s.last(), max)
    }
}

pub proof fn lemma_newest_of(s: Seq<VersionView>, max: u64)
    ensures
        newest_of(s, max) matches Some(v) ==> s.contains(v) && v.version <= max && forall|i: int|
            0 <= i < s.len() && (#[trigger] s[i]).version <= max ==> s[i].version <= v.version,
        newest_of(s, max) is None ==> forall|i: int| 0 <= i < s.len() ==> (#[trigger] s[i]).version > max,
    decreases s.len(),
{
    if s.len() > 0 {
        let t = s.drop_last();
        lemma_newest_of(t, max);
        assert forall|i: int| 0 <= i < t.len() implies t[i] == s[i] by {}
        match newest_of(s, max) {
            Some(v) => {
                if newest_of(t, max) == Some(v) {
                    let k = t.index_of(v);
                    assert(s[k] == v);
                } else {
                    assert(s[s.len() - 1] == v);
                }
                assert forall|i: int| 0 <= i < s.len() && (#[trigger] s[i]).version <= max implies s[i].version <= v.version by {
                    if i < t.len() {
                        assert(t[i].version <= max);
                    }
                }
            },
            None => {
                assert forall|i: int| 0 <= i < s.len() implies (#[trigger] s[i]).version > max by {
                    if i < t.len() {
                        assert(t[i].version > max);
                    }
                }
            },
        }
    }
}

/// Entries of one version are the same entry.
pub open spec fn consistent(s: Seq<VersionView>) -> bool {
    forall|i: int, j: int| 0 <= i < s.len() && 0 <= j < s.len() && (#[trigger] s[i]).version == (#[trigger] s[j]).version ==> s[i]
        == s[j]
}

/// Where entries of one version are the same entry, the newest version depends
/// only on which entries there are.
pub proof fn lemma_newest_same(s: Seq<VersionView>, t: Seq<VersionView>, max: u64)
    requires
        consistent(s),
        forall|v: VersionView| s.contains(v) <==> t.contains(v),
    ensures
        newest_of(s, max) == newest_of(t, max),
{
    lemma_newest_of(s, max);
    lemma_newest_of(t, max);
    match (newest_of(s, max), newest_of(t, max)) {
        (Some(a), Some(b)) => {
            assert(t.contains(a));
            assert(s.contains(b));
            let i = s.index_of(a);
            let j = s.index_of(b);
            assert(s[i].version <= max && s[j].version <= max);
            let k = t.index_of(a);
            assert(t[k].version <= max);
            assert(s[i] == s[j]);
        },
        (Some(a), None) => {
            assert(t.contains(a));
            let k = t.index_of(a);
            assert(t[k].version > max);
        },
        (None, Some(b)) => {
            assert(s.contains(b));
            let k = s.index_of(b);
            assert(s[k].version > max);
        },
        (None, None) => {},
    }
}

/// `out` lists the entries of `s` by version, each version once.
pub open spec fn is_group(out: Seq<VersionView>, s: Seq<VersionView>) -> bool {
    &&& forall|i: int, j: int| 0 <= i < j < out.len() ==> (#[trigger] out[i]).version < (#[trigger] out[j]).version
    &&& forall|i: int| 0 <= i < out.len() ==> s.contains(#[trigger] out[i])
    &&& forall|i: int| 0 <= i < s.len() ==> has_version(out, (#[trigger] s[i]).version)
}

pub open spec fn has_version(s: Seq<VersionView>, version: u64) -> bool {
    exists|i: int| 0 <= i < s.len() && (#[trigger] s[i]).version == version
}

impl PrimaryIdx {
    pub open spec fn wf(&self) -> bool {
        &&& self.delta.wf()
        &&& self.frozen matches Some(f) ==> f.delta.wf()
        &&& forall|i: int| 0 <= i < self.runs@.len() ==> (#[trigger] self.runs@[i]).index.wf()
    }

    pub open spec fn frozen_map(&self) -> Map<Seq<u8>, Seq<VersionView>> {
        match self.frozen {
            Some(f) => f.delta@,
            None => Map::empty(),
        }
    }

    /// All versions under a key: those of the runs, the frozen and the active ones.
    pub open spec fn entries(&self, key: Seq<u8>) -> Result<Seq<VersionView>, Seq<char>> {
        match run_entries(self.runs@, key) {
            Err(m) => Err(m),
            Ok(s) => Ok(s + resident(self.frozen_map(), key) + resident(self.delta@, key)),
        }
    }

    /// Whether the index has something under a key.
    pub open spec fn holds(&self, key: Seq<u8>) -> bool {
        ||| run_holds(self.runs@, key)
        ||| self.frozen_map().contains_key(key)
        ||| self.delta@.contains_key(key)
    }

    pub fn empty() -> (r: Self)
        ensures
            r.wf(),
            r.generation == 0,
            r.runs@.len() == 0,
            r.delta@ == Map::<Seq<u8>, Seq<VersionView>>::empty(),
            r.frozen is None,
    {
        PrimaryIdx { generation: 0, runs: Vec::new(), delta: CowMap::new(), frozen: None }
    }

    /// An index whose versions are all resident.
    pub fn resident(delta: PrimaryDelta) -> (r: Self)
        requires
            delta.wf(),
        ensures
            r.wf(),
            r.generation == 0,
            r.runs@.len() == 0,
            r.delta == delta,
            r.frozen is None,
    {
        PrimaryIdx { generation: 0, runs: Vec::new(), delta, frozen: None }
    }

    /// An index of the given runs.
    pub fn paged_runs(generation: u64, runs: Vec<Run>) -> (r: Self)
        requires
            forall|i: int| 0 <= i < runs@.len() ==> (#[trigger] runs@[i]).index.wf(),
        ensures
            r.wf(),
            r.generation == generation,
            r.runs == runs,
            r.delta@ == Map::<Seq<u8>, Seq<VersionView>>::empty(),
            r.frozen is None,
    {
        PrimaryIdx { generation, runs, delta: CowMap::new(), frozen: None }
    }

    /// An index of one run.
    pub fn paged_named(base: PagedIndex, file: String, level: u8, bytes: u64, generation: u64) -> (r: Self)
        requires
            base.wf(),
        ensures
            r.wf(),
            r.generation == generation,
            r.runs@.len() == 1,
            r.runs@[0].meta@ == (RunMetaView { file: file@, level, bytes, generation }),
            r.runs@[0].index.rows() == base.rows(),
            r.delta@ == Map::<Seq<u8>, Seq<VersionView>>::empty(),
            r.frozen is None,
    {
        let mut runs: Vec<Run> = Vec::new();
        runs.push(Run { meta: RunMeta { file, level, bytes, generation }, index: Arc::new(base) });
        Self::paged_runs(generation, runs)
    }

    /// An index of the run that was written first.
    pub fn paged(base: PagedIndex) -> (r: Self)
        requires
            base.wf(),
        ensures
            r.wf(),
            r.generation == base.version(),
            r.runs@.len() == 1,
            r.runs@[0].meta@ == (RunMetaView {
                file: "primary.pidx"@,
                level: PRIMARY_BASE_LEVEL,
                bytes: 0,
                generation: base.version(),
            }),
            r.runs@[0].index.rows() == base.rows(),
            r.delta@ == Map::<Seq<u8>, Seq<VersionView>>::empty(),
            r.frozen is None,
    {
        let generation: u64 = base.dump_version();
        Self::paged_named(base, "primary.pidx".to_owned(), PRIMARY_BASE_LEVEL, 0, generation)
    }

    /// What is known of the files of the runs.
    pub fn run_metas(&self) -> (r: Vec<RunMeta>)
        ensures
            model::views(r@) == metas_of(self.runs@),
    {
        let mut out: Vec<RunMeta> = Vec::new();
        let mut i: usize = 0;
        while i < self.runs.len()
            invariant
                i <= self.runs@.len(),
                out@.len() == i,
                forall|j: int| 0 <= j < i ==> (#[trigger] out@[j])@ == self.runs@[j].meta@,
            decreases self.runs@.len() - i,
        {
            out.push(self.runs[i].meta.duplicate());
            i = i + 1;
        }
        assert(model::views(out@) =~= metas_of(self.runs@));
        out
    }

    /// Add a version of a record.
    pub fn push(&mut self, table: &str, id: &str, entry: VersionEntry)
        requires
            old(self).wf(),
            encode_utf8(table@).len() <= u32::MAX,
        ensures
            final(self).wf(),
            final(self).generation == old(self).generation,
            final(self).runs == old(self).runs,
            final(self).frozen == old(self).frozen,
            ({
                let key = version::key_of(encode_utf8(table@), encode_utf8(id@));
                final(self).delta@ == old(self).delta@.insert(key, resident(old(self).delta@, key).push(entry@))
            }),
    {
        let ghost before = self.delta@;
        let key = primary_key(table, id);
        let ghost k = key@;
        {
            let fresh = Versions { list: Vec::new() };
            assert(fresh@ =~= Seq::<VersionView>::empty());
            let slot = self.delta.get_or_insert(key, fresh);
            let ghost old_list = slot@;
            slot.list.push(entry);
            assert(slot@ =~= old_list.push(entry@));
        }
    }

    /// The newest version of a record that is not past `max_version`.
    pub fn newest_at_or_before(&self, table: &str, id: &str, max_version: u64) -> (r: Result<Option<VersionEntry>, Error>)
        requires
            self.wf(),
            encode_utf8(table@).len() <= u32::MAX,
        ensures
            match self.entries(version::key_of(encode_utf8(table@), encode_utf8(id@))) {
                Err(m) => r is Err && r->Err_0@ == ErrorView::Corrupt(m),
                Ok(s) => r is Ok && option_view(r->Ok_0) == newest_of(s, max_version),
            },
    {
        let key = primary_key(table, id);
        let mut newest: Option<VersionEntry> = None;
        let ghost mut seen: Seq<VersionView> = Seq::empty();
        let mut i: usize = 0;
        assert(self.runs@.subrange(0, 0) =~= Seq::<Run>::empty());
        while i < self.runs.len()
            invariant
                self.wf(),
                i <= self.runs@.len(),
                run_entries(self.runs@.subrange(0, i as int), key@) == Ok::<Seq<VersionView>, Seq<char>>(seen),
                option_view(newest) == newest_of(seen, max_version),
                key@ == version::key_of(encode_utf8(table@), encode_utf8(id@)),
            decreases self.runs@.len() - i,
        {
            let run = &self.runs[i];
            let index = &run.index;
            let (lo, hi) = index.range_of(key.as_slice());
            let ghost values = paged::values_of(index.rows(), key@);
            let ghost start = seen;
            let ghost mut part: Seq<VersionView> = Seq::empty();
            proof {
                let s = self.runs@.subrange(0, i + 1);
                assert(s.drop_last() =~= self.runs@.subrange(0, i as int));
                assert(s.last() == self.runs@[i as int]);
                lemma_run_entries_prefix(self.runs@, key@, i + 1);
                assert(values.subrange(0, 0) =~= Seq::<Seq<u8>>::empty());
                assert(start + part =~= start);
            }
            let mut j: usize = lo;
            while j < hi
                invariant
                    lo <= j <= hi <= index.rows().len(),
                    values == paged::values_of(index.rows(), key@),
                    values.len() == hi - lo,
                    forall|q: int| lo <= q < hi ==> (#[trigger] index.rows()[q]).1 == values[q - lo],
                    entries_of(values.subrange(0, j - lo)) == Ok::<Seq<VersionView>, Seq<char>>(part),
                    seen == start + part,
                    option_view(newest) == newest_of(seen, max_version),
                    entries_of(values) matches Err(m) ==> self.entries(key@) == Err::<Seq<VersionView>, Seq<char>>(m),
                    key@ == version::key_of(encode_utf8(table@), encode_utf8(id@)),
                decreases hi - j,
            {
                proof {
                    let t = values.subrange(0, j - lo + 1);
                    assert(t.drop_last() =~= values.subrange(0, j - lo));
                    assert(t.last() == values[j - lo]);
                    assert(index.rows()[j as int].1 == values[j - lo]);
                    lemma_entries_prefix(values, j - lo + 1);
                }
                let entry = match decode_primary_entry(index.value_at(j)) {
                    Ok(v) => v,
                    Err(e) => {
                        return Err(e);
                    },
                };
                proof {
                    let next = seen.push(entry@);
                    assert(next.drop_last() =~= seen);
                    assert(start + part.push(entry@) =~= next);
                    part = part.push(entry@);
                    seen = next;
                }
                newest = pick(newest, entry, max_version);
                j = j + 1;
            }
            assert(values.subrange(0, hi - lo) =~= values);
            i = i + 1;
        }
        assert(self.runs@.subrange(0, i as int) =~= self.runs@);
        let ghost from_runs = seen;
        assert(from_runs + Seq::<VersionView>::empty() =~= from_runs);
        match &self.frozen {
            Some(frozen) => {
                match frozen.delta.get(key.as_slice()) {
                    Some(versions) => {
                        newest = pick_all(newest, versions, max_version, Ghost(seen));
                        proof {
                            seen = seen + versions@;
                        }
                    },
                    None => {},
                }
            },
            None => {},
        }
        assert(seen =~= from_runs + resident(self.frozen_map(), key@));
        let ghost with_frozen = seen;
        match self.delta.get(key.as_slice()) {
            Some(versions) => {
                newest = pick_all(newest, versions, max_version, Ghost(seen));
                proof {
                    seen = seen + versions@;
                }
            },
            None => {},
        }
        assert(seen =~= with_frozen + resident(self.delta@, key@));
        Ok(newest)
    }

    /// The newest version of a record.
    pub fn latest(&self, table: &str, id: &str) -> (r: Result<Option<VersionEntry>, Error>)
        requires
            self.wf(),
            encode_utf8(table@).len() <= u32::MAX,
        ensures
            match self.entries(version::key_of(encode_utf8(table@), encode_utf8(id@))) {
                Err(m) => r is Err && r->Err_0@ == ErrorView::Corrupt(m),
                Ok(s) => r is Ok && option_view(r->Ok_0) == newest_of(s, u64::MAX),
            },
    {
        self.newest_at_or_before(table, id, u64::MAX)
    }

    /// The version of a record that a snapshot at `max_version` sees.
    pub fn visible(&self, table: &str, id: &str, max_version: u64) -> (r: Result<Option<VersionEntry>, Error>)
        requires
            self.wf(),
            encode_utf8(table@).len() <= u32::MAX,
        ensures
            match self.entries(version::key_of(encode_utf8(table@), encode_utf8(id@))) {
                Err(m) => r is Err && r->Err_0@ == ErrorView::Corrupt(m),
                Ok(s) => r is Ok && option_view(r->Ok_0) == newest_of(s, max_version),
            },
    {
        self.newest_at_or_before(table, id, max_version)
    }
}

pub open spec fn option_view<T: View>(v: Option<T>) -> Option<T::V> {
    match v {
        Some(v) => Some(v@),
        None => None,
    }
}

pub open spec fn metas_of(runs: Seq<Run>) -> Seq<RunMetaView> {
    Seq::new(runs.len(), |i: int| runs[i].meta@)
}

/// Whether one of the runs has a row under a key.
pub open spec fn run_holds(runs: Seq<Run>, key: Seq<u8>) -> bool {
    exists|i: int| 0 <= i < runs.len() && #[trigger] paged::holds_key(runs[i].index.rows(), key)
}

fn pick(found: Option<VersionEntry>, v: VersionEntry, max: u64) -> (r: Option<VersionEntry>)
    ensures
        option_view(r) == newer(option_view(found), v@, max),
{
    let better: bool = v.version <= max && match &found {
        Some(f) => v.version > f.version,
        None => true,
    };
    if better {
        Some(v)
    } else {
        found
    }
}

fn pick_all(found: Option<VersionEntry>, versions: &Versions, max: u64, Ghost(seen): Ghost<Seq<VersionView>>) -> (r: Option<
    VersionEntry,
>)
    requires
        option_view(found) == newest_of(seen, max),
    ensures
        option_view(r) == newest_of(seen + versions@, max),
{
    let mut newest = found;
    let mut i: usize = 0;
    assert(seen + versions@.subrange(0, 0) =~= seen);
    while i < versions.list.len()
        invariant
            i <= versions.list@.len(),
            option_view(newest) == newest_of(seen + versions@.subrange(0, i as int), max),
        decreases versions.list@.len() - i,
    {
        proof {
            let next = seen + versions@.subrange(0, i + 1);
            assert(next.drop_last() =~= seen + versions@.subrange(0, i as int));
            assert(next.last() == versions@[i as int]);
        }
        newest = pick(newest, versions.list[i].duplicate(), max);
        i = i + 1;
    }
    assert(versions@.subrange(0, i as int) =~= versions@);
    newest
}

/// A bad entry among the first values is the error of all.
proof fn lemma_entries_prefix(values: Seq<Seq<u8>>, n: int)
    requires
        0 <= n <= values.len(),
    ensures
        entries_of(values.subrange(0, n)) matches Err(m) ==> entries_of(values) == Err::<Seq<VersionView>, Seq<char>>(m),
    decreases values.len() - n,
{
    if n < values.len() {
        lemma_entries_prefix(values, n + 1);
        assert(values.subrange(0, n + 1).drop_last() =~= values.subrange(0, n));
    } else {
        assert(values.subrange(0, n) =~= values);
    }
}

proof fn lemma_run_entries_prefix(runs: Seq<Run>, key: Seq<u8>, n: int)
    requires
        0 <= n <= runs.len(),
    ensures
        run_entries(runs.subrange(0, n), key) matches Err(m) ==> run_entries(runs, key) == Err::<Seq<VersionView>, Seq<char>>(m),
    decreases runs.len() - n,
{
    if n < runs.len() {
        lemma_run_entries_prefix(runs, key, n + 1);
        assert(runs.subrange(0, n + 1).drop_last() =~= runs.subrange(0, n));
    } else {
        assert(runs.subrange(0, n) =~= runs);
    }
}

/// Insert a version into a list that is ordered by version, unless the list has
/// that version already.
fn insert_version(out: &mut Vec<VersionEntry>, v: VersionEntry)
    requires
        forall|i: int, j: int| 0 <= i < j < old(out)@.len() ==> (#[trigger] old(out)@[i]).version < (#[trigger] old(out)@[j]).version,
    ensures
        forall|i: int, j: int|
            0 <= i < j < final(out)@.len() ==> (#[trigger] final(out)@[i]).version < (#[trigger] final(out)@[j]).version,
        has_version(model::views(final(out)@), v.version),
        forall|w: VersionView| model::views(old(out)@).contains(w) ==> model::views(final(out)@).contains(w),
        forall|w: VersionView| model::views(final(out)@).contains(w) ==> model::views(old(out)@).contains(w) || w == v@,
{
    let ghost before = out@;
    let mut p: usize = out.len();
    while p > 0 && out[p - 1].version >= v.version
        invariant
            p <= out@.len(),
            out@ == before,
            forall|i: int| p <= i < out@.len() ==> (#[trigger] out@[i]).version >= v.version,
        decreases p,
    {
        p = p - 1;
    }
    assert forall|i: int| 0 <= i < p implies (#[trigger] out@[i]).version < v.version by {
        if i < p - 1 {
            assert(out@[i].version < out@[p - 1].version);
        }
    }
    if p < out.len() && out[p].version == v.version {
        assert(model::views(out@)[p as int].version == v.version);
        return;
    }
    assert forall|i: int| p <= i < out@.len() implies (#[trigger] out@[i]).version > v.version by {
        if i > p {
            assert(out@[p as int].version < out@[i].version);
        }
    }
    out.insert(p, v);
    proof {
        let old_views = model::views(before);
        let new_views = model::views(out@);
        assert(new_views =~= old_views.insert(p as int, v@));
        assert(new_views[p as int].version == v.version);
        assert forall|w: VersionView| old_views.contains(w) implies new_views.contains(w) by {
            let k = old_views.index_of(w);
            let m: int = if k < p { k } else { k + 1 };
            assert(new_views[m] == w);
        }
        assert forall|w: VersionView| new_views.contains(w) implies old_views.contains(w) || w == v@ by {
            let k = new_views.index_of(w);
            if k < p {
                assert(old_views[k] == w);
            } else if k > p {
                assert(old_views[k - 1] == w);
            }
        }
        assert forall|i: int, j: int| 0 <= i < j < out@.len() implies (#[trigger] out@[i]).version < (#[trigger] out@[j]).version by {
            let a: int = if i < p { i } else { i - 1 };
            let b: int = if j < p { j } else { j - 1 };
            if i != p && j != p {
                assert(out@[i] == before[a] && out@[j] == before[b]);
            } else if i == p {
                assert(out@[j] == before[b]);
            } else {
                assert(out@[i] == before[a]);
            }
        }
    }
}

/// Order a list of versions, each version once.
pub fn group_versions(list: Vec<VersionEntry>) -> (r: Vec<VersionEntry>)
    ensures
        is_group(model::views(r@), model::views(list@)),
{
    let mut out: Vec<VersionEntry> = Vec::new();
    let ghost all = model::views(list@);
    let mut i: usize = 0;
    while i < list.len()
        invariant
            i <= list@.len(),
            all == model::views(list@),
            forall|a: int, b: int| 0 <= a < b < out@.len() ==> (#[trigger] out@[a]).version < (#[trigger] out@[b]).version,
            forall|w: VersionView| model::views(out@).contains(w) ==> all.contains(w),
            forall|k: int| 0 <= k < i ==> has_version(model::views(out@), (#[trigger] all[k]).version),
        decreases list@.len() - i,
    {
        let ghost before = model::views(out@);
        insert_version(&mut out, list[i].duplicate());
        proof {
            let after = model::views(out@);
            assert(all[i as int] == list@[i as int]@);
            assert(all.contains(all[i as int]));
            assert forall|k: int| 0 <= k < i + 1 implies has_version(after, (#[trigger] all[k]).version) by {
                if k < i {
                    let m = choose|m: int| 0 <= m < before.len() && (#[trigger] before[m]).version == all[k].version;
                    assert(before.contains(before[m]));
                    assert(after.contains(before[m]));
                    let q = after.index_of(before[m]);
                    assert(after[q].version == all[k].version);
                }
            }
        }
        i = i + 1;
    }
    proof {
        let s = model::views(out@);
        assert forall|a: int| 0 <= a < s.len() implies all.contains(#[trigger] s[a]) by {
            assert(s.contains(s[a]));
        }
    }
    out
}

impl PrimaryIdx {
    /// All versions under a key.
    pub fn collect(&self, key: &[u8]) -> (r: Result<Vec<VersionEntry>, Error>)
        requires
            self.wf(),
        ensures
            match self.entries(key@) {
                Err(m) => r is Err && r->Err_0@ == ErrorView::Corrupt(m),
                Ok(s) => r is Ok && model::views(r->Ok_0@) == s,
            },
    {
        let mut out: Vec<VersionEntry> = Vec::new();
        let mut i: usize = 0;
        assert(self.runs@.subrange(0, 0) =~= Seq::<Run>::empty());
        assert(model::views(out@) =~= Seq::<VersionView>::empty());
        while i < self.runs.len()
            invariant
                self.wf(),
                i <= self.runs@.len(),
                run_entries(self.runs@.subrange(0, i as int), key@) == Ok::<Seq<VersionView>, Seq<char>>(model::views(out@)),
            decreases self.runs@.len() - i,
        {
            let index = &self.runs[i].index;
            let (lo, hi) = index.range_of(key);
            let ghost values = paged::values_of(index.rows(), key@);
            let ghost start = model::views(out@);
            let ghost mut part: Seq<VersionView> = Seq::empty();
            proof {
                let s = self.runs@.subrange(0, i + 1);
                assert(s.drop_last() =~= self.runs@.subrange(0, i as int));
                assert(s.last() == self.runs@[i as int]);
                lemma_run_entries_prefix(self.runs@, key@, i + 1);
                assert(values.subrange(0, 0) =~= Seq::<Seq<u8>>::empty());
                assert(start + part =~= start);
            }
            let mut j: usize = lo;
            while j < hi
                invariant
                    lo <= j <= hi <= index.rows().len(),
                    values == paged::values_of(index.rows(), key@),
                    values.len() == hi - lo,
                    forall|q: int| lo <= q < hi ==> (#[trigger] index.rows()[q]).1 == values[q - lo],
                    entries_of(values.subrange(0, j - lo)) == Ok::<Seq<VersionView>, Seq<char>>(part),
                    model::views(out@) == start + part,
                    entries_of(values) matches Err(m) ==> self.entries(key@) == Err::<Seq<VersionView>, Seq<char>>(m),
                decreases hi - j,
            {
                proof {
                    let t = values.subrange(0, j - lo + 1);
                    assert(t.drop_last() =~= values.subrange(0, j - lo));
                    assert(t.last() == values[j - lo]);
                    assert(index.rows()[j as int].1 == values[j - lo]);
                    lemma_entries_prefix(values, j - lo + 1);
                }
                let entry = match decode_primary_entry(index.value_at(j)) {
                    Ok(v) => v,
                    Err(e) => {
                        return Err(e);
                    },
                };
                let ghost before = model::views(out@);
                let ghost v = entry@;
                out.push(entry);
                proof {
                    assert(model::views(out@) =~= before.push(v));
                    assert(start + part.push(v) =~= before.push(v));
                    part = part.push(v);
                }
                j = j + 1;
            }
            assert(values.subrange(0, hi - lo) =~= values);
            i = i + 1;
        }
        assert(self.runs@.subrange(0, i as int) =~= self.runs@);
        let ghost from_runs = model::views(out@);
        match &self.frozen {
            Some(frozen) => {
                match frozen.delta.get(key) {
                    Some(versions) => {
                        append_copies(&mut out, versions);
                    },
                    None => {},
                }
            },
            None => {},
        }
        assert(model::views(out@) =~= from_runs + resident(self.frozen_map(), key@));
        let ghost with_frozen = model::views(out@);
        match self.delta.get(key) {
            Some(versions) => {
                append_copies(&mut out, versions);
            },
            None => {},
        }
        assert(model::views(out@) =~= with_frozen + resident(self.delta@, key@));
        Ok(out)
    }

    /// `key` is the first key of the index with a prefix that stands past `from`.
    pub open spec fn is_next(&self, prefix: Seq<u8>, from: Seq<u8>, inclusive: bool, key: Seq<u8>) -> bool {
        &&& self.holds(key)
        &&& prefix.is_prefix_of(key)
        &&& stands_past(from, inclusive, key)
        &&& forall|other: Seq<u8>|
            #[trigger] self.holds(other) && prefix.is_prefix_of(other) && stands_past(from, inclusive, other) ==> bytes::lex_le(
                key,
                other,
            )
    }

    /// The first key with a prefix that stands past `from`.
    pub fn next_key(&self, prefix: &[u8], from: &[u8], inclusive: bool) -> (r: Option<Vec<u8>>)
        requires
            self.wf(),
            prefix@.is_prefix_of(from@),
        ensures
            r matches Some(key) ==> self.is_next(prefix@, from@, inclusive, key@),
            r is None ==> forall|other: Seq<u8>|
                #[trigger] self.holds(other) && prefix@.is_prefix_of(other) ==> !stands_past(from@, inclusive, other),
    {
        let mut best: Option<Vec<u8>> = next_in_runs(&self.runs, from, inclusive);
        let ghost from_runs = best;
        match &self.frozen {
            Some(frozen) => {
                match frozen.delta.first_from(from, inclusive) {
                    Some((k, _)) => {
                        best = least(best, bytes::copy_of(k.as_slice()));
                        proof {
                            assert forall|other: Seq<u8>| #[trigger] frozen.delta@.contains_key(other) && stands_past(
                                from@,
                                inclusive,
                                other,
                            ) implies bytes::lex_le(best->0@, other) by {
                                paged::lemma_le_transitive(best->0@, k.rank(), other);
                            }
                        }
                    },
                    None => {},
                }
            },
            None => {},
        }
        let ghost with_frozen = best;
        assert(forall|other: Seq<u8>|
            #[trigger] self.frozen_map().contains_key(other) && stands_past(from@, inclusive, other) ==> (with_frozen matches Some(k)
                && bytes::lex_le(k@, other)));
        match self.delta.first_from(from, inclusive) {
            Some((k, _)) => {
                best = least(best, bytes::copy_of(k.as_slice()));
                proof {
                    assert forall|other: Seq<u8>| #[trigger] self.delta@.contains_key(other) && stands_past(
                        from@,
                        inclusive,
                        other,
                    ) implies bytes::lex_le(best->0@, other) by {
                        paged::lemma_le_transitive(best->0@, k.rank(), other);
                    }
                }
            },
            None => {},
        }
        proof {
            assert forall|other: Seq<u8>| #[trigger] self.holds(other) && stands_past(from@, inclusive, other) implies (best matches Some(
                k,
            ) && bytes::lex_le(k@, other)) by {
                if run_holds(self.runs@, other) {
                    paged::lemma_le_transitive(with_frozen->0@, from_runs->0@, other);
                    paged::lemma_le_transitive(best->0@, with_frozen->0@, other);
                } else if self.frozen_map().contains_key(other) {
                    paged::lemma_le_transitive(best->0@, with_frozen->0@, other);
                } else {
                    assert(self.delta@.contains_key(other));
                }
            }
        }
        match best {
            None => None,
            Some(key) => {
                if bytes::starts_with(key.as_slice(), prefix) {
                    Some(key)
                } else {
                    proof {
                        assert forall|other: Seq<u8>| #[trigger] self.holds(other) && prefix@.is_prefix_of(other) implies !stands_past(
                            from@,
                            inclusive,
                            other,
                        ) by {
                            if stands_past(from@, inclusive, other) {
                                assert(bytes::lex_le(key@, other));
                                bytes::lemma_prefix_convex(prefix@, from@, key@, other);
                            }
                        }
                    }
                    None
                }
            },
        }
    }
}

/// Whether a key stands past `from`, or at it when `inclusive`.
pub open spec fn stands_past(from: Seq<u8>, inclusive: bool, key: Seq<u8>) -> bool {
    bytes::lex_lt(from, key) || (inclusive && key == from)
}

/// The first key of the runs that stands past `from`.
pub fn next_in_runs(runs: &Vec<Run>, from: &[u8], inclusive: bool) -> (r: Option<Vec<u8>>)
    requires
        forall|i: int| 0 <= i < runs@.len() ==> (#[trigger] runs@[i]).index.wf(),
    ensures
        r matches Some(k) ==> run_holds(runs@, k@) && stands_past(from@, inclusive, k@),
        forall|other: Seq<u8>|
            #[trigger] run_holds(runs@, other) && stands_past(from@, inclusive, other) ==> (r matches Some(k) && bytes::lex_le(
                k@,
                other,
            )),
{
    let mut best: Option<Vec<u8>> = None;
    let mut i: usize = 0;
    while i < runs.len()
        invariant
            forall|i: int| 0 <= i < runs@.len() ==> (#[trigger] runs@[i]).index.wf(),
            i <= runs@.len(),
            best matches Some(k) ==> run_holds(runs@.subrange(0, i as int), k@) && stands_past(from@, inclusive, k@),
            forall|other: Seq<u8>|
                #[trigger] run_holds(runs@.subrange(0, i as int), other) && stands_past(from@, inclusive, other) ==> (
                best matches Some(k) && bytes::lex_le(k@, other)),
        decreases runs@.len() - i,
    {
        let index = &runs[i].index;
        let at: usize = index.bound(from, !inclusive);
        let ghost head = runs@.subrange(0, i as int);
        let ghost more = runs@.subrange(0, i + 1);
        let ghost rows = index.rows();
        let ghost before = best;
        if at < index.len() {
            let key = bytes::copy_of(index.key_at(at));
            best = least(best, key);
        }
        proof {
            index.lemma_wf();
            assert forall|other: Seq<u8>| #[trigger] run_holds(more, other) <==> run_holds(head, other) || paged::holds_key(
                rows,
                other,
            ) by {
                if run_holds(more, other) {
                    let q = choose|q: int| 0 <= q < more.len() && #[trigger] paged::holds_key(more[q].index.rows(), other);
                    if q < i {
                        assert(paged::holds_key(head[q].index.rows(), other));
                    } else {
                        assert(more[q] == runs@[i as int]);
                    }
                }
                if run_holds(head, other) {
                    let q = choose|q: int| 0 <= q < head.len() && #[trigger] paged::holds_key(head[q].index.rows(), other);
                    assert(paged::holds_key(more[q].index.rows(), other));
                }
                if paged::holds_key(rows, other) {
                    assert(paged::holds_key(more[i as int].index.rows(), other));
                }
            }
            if at < rows.len() {
                assert(paged::holds_key(rows, rows[at as int].0));
            }
            assert forall|other: Seq<u8>| #[trigger] run_holds(more, other) && stands_past(from@, inclusive, other) implies (
            best matches Some(k) && bytes::lex_le(k@, other)) by {
                if paged::holds_key(rows, other) {
                    let q = choose|q: int| 0 <= q < rows.len() && (#[trigger] rows[q]).0 == other;
                    bytes::lemma_lex_trichotomy(other, from@);
                    assert(q >= at);
                    assert(bytes::lex_le(rows[at as int].0, rows[q].0));
                    paged::lemma_le_transitive(best->0@, rows[at as int].0, other);
                } else {
                    assert(run_holds(head, other));
                    paged::lemma_le_transitive(best->0@, before->0@, other);
                }
            }
        }
        i = i + 1;
    }
    assert(runs@.subrange(0, i as int) =~= runs@);
    best
}

fn append_copies(out: &mut Vec<VersionEntry>, versions: &Versions)
    ensures
        model::views(final(out)@) == model::views(old(out)@) + versions@,
{
    let ghost before = model::views(out@);
    let mut i: usize = 0;
    assert(before + versions@.subrange(0, 0) =~= before);
    while i < versions.list.len()
        invariant
            i <= versions.list@.len(),
            model::views(out@) == before + versions@.subrange(0, i as int),
        decreases versions.list@.len() - i,
    {
        let ghost now = model::views(out@);
        out.push(versions.list[i].duplicate());
        proof {
            assert(model::views(out@) =~= now.push(versions@[i as int]));
            assert(before + versions@.subrange(0, i + 1) =~= now.push(versions@[i as int]));
        }
        i = i + 1;
    }
    assert(versions@.subrange(0, i as int) =~= versions@);
}

/// The lesser of what was found so far and another key.
pub fn least(found: Option<Vec<u8>>, key: Vec<u8>) -> (r: Option<Vec<u8>>)
    ensures
        r is Some,
        r->0@ == key@ || (found is Some && r->0@ == found->0@),
        bytes::lex_le(r->0@, key@),
        found is Some ==> bytes::lex_le(r->0@, found->0@),
{
    match found {
        None => Some(key),
        Some(f) => {
            proof {
                bytes::lemma_lex_trichotomy(f@, key@);
            }
            match bytes::place(f.as_slice(), key.as_slice()) {
                Place::After => Some(key),
                _ => Some(f),
            }
        },
    }
}

// ---- How much there is ahead of a place -------------------------------------

/// The rows whose keys stand past a place.
pub open spec fn count_past<X>(s: Seq<(Seq<u8>, X)>, from: Seq<u8>, inclusive: bool) -> nat
    decreases s.len(),
{
    if s.len() == 0 {
        0
    } else if stands_past(from, inclusive, s.last().0) {
        count_past(s.drop_last(), from, inclusive) + 1
    } else {
        count_past(s.drop_last(), from, inclusive)
    }
}

pub proof fn lemma_count_past<X>(s: Seq<(Seq<u8>, X)>, from: Seq<u8>, inclusive: bool, key: Seq<u8>)
    requires
        stands_past(from, inclusive, key),
    ensures
        count_past(s, key, false) <= count_past(s, from, inclusive),
        (exists|i: int| 0 <= i < s.len() && (#[trigger] s[i]).0 == key) ==> count_past(s, key, false) < count_past(s, from, inclusive),
    decreases s.len(),
{
    if s.len() > 0 {
        let t = s.drop_last();
        lemma_count_past(t, from, inclusive, key);
        let last = s.last().0;
        if stands_past(key, false, last) {
            if bytes::lex_lt(from, key) {
                bytes::lemma_lex_transitive(from, key, last);
            }
        }
        bytes::lemma_lex_irreflexive(key);
        if exists|i: int| 0 <= i < s.len() && (#[trigger] s[i]).0 == key {
            let i = choose|i: int| 0 <= i < s.len() && (#[trigger] s[i]).0 == key;
            if i < t.len() {
                assert(t[i].0 == key);
            } else {
                assert(last == key);
            }
        }
    }
}

pub open spec fn runs_past(runs: Seq<Run>, from: Seq<u8>, inclusive: bool) -> nat
    decreases runs.len(),
{
    if runs.len() == 0 {
        0
    } else {
        runs_past(runs.drop_last(), from, inclusive) + count_past(runs.last().index.rows(), from, inclusive)
    }
}

pub proof fn lemma_runs_past(runs: Seq<Run>, from: Seq<u8>, inclusive: bool, key: Seq<u8>)
    requires
        stands_past(from, inclusive, key),
    ensures
        runs_past(runs, key, false) <= runs_past(runs, from, inclusive),
        run_holds(runs, key) ==> runs_past(runs, key, false) < runs_past(runs, from, inclusive),
    decreases runs.len(),
{
    if runs.len() > 0 {
        let t = runs.drop_last();
        lemma_runs_past(t, from, inclusive, key);
        lemma_count_past(runs.last().index.rows(), from, inclusive, key);
        if run_holds(runs, key) {
            let i = choose|i: int| 0 <= i < runs.len() && #[trigger] paged::holds_key(runs[i].index.rows(), key);
            if i < t.len() {
                assert(paged::holds_key(t[i].index.rows(), key));
            }
        }
    }
}

impl PrimaryIdx {
    /// How much there still is to visit past a place.
    pub open spec fn ahead(&self, from: Seq<u8>, inclusive: bool) -> nat {
        let frozen = match self.frozen {
            Some(f) => count_past(f.delta.pairs(), from, inclusive),
            None => 0,
        };
        runs_past(self.runs@, from, inclusive) + frozen + count_past(self.delta.pairs(), from, inclusive)
    }

    /// Going past a key of the index leaves less to visit.
    pub proof fn lemma_ahead(&self, from: Seq<u8>, inclusive: bool, key: Seq<u8>)
        requires
            self.wf(),
            self.holds(key),
            stands_past(from, inclusive, key),
        ensures
            self.ahead(key, false) < self.ahead(from, inclusive),
    {
        lemma_runs_past(self.runs@, from, inclusive, key);
        lemma_count_past(self.delta.pairs(), from, inclusive, key);
        self.delta.lemma_wf();
        if self.delta@.contains_key(key) {
            let s = self.delta.pairs();
            assert(s[pairs::index_of(s, key)].0 == key);
        }
        match self.frozen {
            Some(f) => {
                lemma_count_past(f.delta.pairs(), from, inclusive, key);
                f.delta.lemma_wf();
                if f.delta@.contains_key(key) {
                    let s = f.delta.pairs();
                    assert(s[pairs::index_of(s, key)].0 == key);
                }
            },
            None => {},
        }
    }
}

} // verus!
