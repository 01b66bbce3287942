//! From what was found on disk to an open database.

use crate::bytes;
use crate::cow::CowMap;
use crate::derived::{self, write_secondary_from_canonical, DERIVED_BASE_LEVEL};
use crate::error::{invalid, Error, ErrorView};
use crate::files::{self, index_file};
use crate::frozen::DerivedKind;
use crate::ids::IdSource;
use crate::levels::{self, primary_generation, SegmentMeta};
use crate::manifest::{Manifest, FORMAT_VERSION};
use crate::model;
use crate::options::DbOptions;
use crate::primary::{PrimaryIdx, Run, RunMeta, RunMetaView};
use crate::record::{self, Blobs};
use crate::recover::{self, open_primary, replay_log, replay_marks, survey, OpenedPrimary, PrimarySource, ReplayView, SegFile, Survey};
use crate::schema::{self, Catalog, TableView};
use crate::secondary::{self, PairChange, SecIdx};
use crate::segment::{Segment, SegmentView};
use crate::state::{self, Mark, SecSlot, State};
use crate::text::{self, decimal_text};
use crate::version::VersionView;
use crate::visit::{self, map_memory_bytes, GroupView};
use crate::wal::WalRecord;
use std::sync::Arc;
use vstd::prelude::*;
use vstd::string::*;
use vstd::utf8::*;

verus! {

// ---- Before anything is read ------------------------------------------------

/// Whether a directory may be opened as a database. `marker` says whether it
/// has the file that marks one.
pub fn check_open(opts: &DbOptions, marker: bool, path: &str) -> (r: Result<(), Error>)
    ensures
        r is Ok <==> opts.complaint() is None && marker,
        r matches Err(e) ==> e@ == (match opts.complaint() {
            Some(m) => ErrorView::InvalidArgument(m),
            None => ErrorView::InvalidArgument("not a elitesql database: "@ + path@),
        }),
{
    match opts.validate() {
        Err(e) => {
            return Err(e);
        },
        Ok(_) => {},
    }
    if !marker {
        return Err(Error::InvalidArgument("not a elitesql database: ".to_owned().concat(path)));
    }
    Ok(())
}

/// Whether a database may be created in a directory.
pub fn check_create(opts: &DbOptions, marker: bool, path: &str) -> (r: Result<(), Error>)
    ensures
        r is Ok <==> opts.complaint() is None && !opts.read_only && !marker,
        r matches Err(e) ==> e@ == (match opts.complaint() {
            Some(m) => ErrorView::InvalidArgument(m),
            None => if opts.read_only {
                ErrorView::InvalidArgument("cannot create a database in read-only mode"@)
            } else {
                ErrorView::InvalidArgument("database already exists at "@ + path@)
            },
        }),
{
    match opts.validate() {
        Err(e) => {
            return Err(e);
        },
        Ok(_) => {},
    }
    if opts.read_only {
        return Err(invalid("cannot create a database in read-only mode"));
    }
    if marker {
        return Err(Error::InvalidArgument("database already exists at ".to_owned().concat(path)));
    }
    Ok(())
}

/// What the file holds that marks a database.
pub fn marker_text() -> (r: String)
    ensures
        r@ == "elitesql format_version="@ + text::decimal(FORMAT_VERSION as nat) + "\n"@,
{
    let n = decimal_text(FORMAT_VERSION as u64);
    "elitesql format_version=".to_owned().concat(n.as_str()).concat("\n")
}

impl State {
    /// The state of a new database.
    pub fn initial() -> (r: State)
        ensures
            r.inv(),
            r.catalog@ == Seq::<TableView>::empty(),
            r.committed_version == 0,
            r.index.runs@.len() == 0,
            r.index.delta@ == Map::<Seq<u8>, Seq<VersionView>>::empty(),
            r.index.frozen is None,
            r.high_ids@ == Map::<Seq<u8>, Seq<char>>::empty(),
            r.superseded@.len() == 0,
            r.secondary@.len() == 0,
            r.identities@ == Map::<Seq<u8>, Mark>::empty(),
            r.segments@.len() == 0,
            r.metas@.len() == 0,
            r.next_segment_id == 1,
            r.blobs@ == Map::<Seq<u8>, Seq<u8>>::empty(),
    {
        let r = State {
            catalog: Catalog::new(),
            committed_version: 0,
            index: PrimaryIdx::empty(),
            high_ids: CowMap::new(),
            superseded: Vec::new(),
            secondary: Vec::new(),
            identities: CowMap::new(),
            segments: Vec::new(),
            metas: Vec::new(),
            next_segment_id: 1,
            blobs: CowMap::new(),
        };
        proof {
            assert forall|key: Seq<u8>| (#[trigger] r.index.entries(key)) == Ok::<Seq<VersionView>, Seq<char>>(Seq::empty()) by {
                let e = Seq::<VersionView>::empty();
                assert(e + e + e =~= e);
            }
            assert forall|table: Seq<char>, id: Seq<u8>| #[trigger] r.above_high(table, id) implies r.latest(table, id) == Ok::<
                Option<VersionView>,
                Seq<char>,
            >(None) by {
                let names = schema::table_names(r.catalog@);
                model::lemma_find(names, table);
            }
        }
        r
    }
}

// ---- Memory of what is not in runs ------------------------------------------

/// Keys begin with the length of a table's name.
pub open spec fn keys_long(delta: Map<Seq<u8>, Seq<VersionView>>) -> bool {
    forall|k: Seq<u8>| #[trigger] delta.contains_key(k) ==> k.len() >= 4
}

proof fn lemma_pushed_long(delta: Map<Seq<u8>, Seq<VersionView>>, s: Seq<recover::FoundView>)
    requires
        keys_long(delta),
        forall|i: int| 0 <= i < s.len() ==> (#[trigger] s[i]).key.len() >= 4,
    ensures
        keys_long(recover::pushed(delta, s)),
    decreases s.len(),
{
    if s.len() > 0 {
        lemma_pushed_long(delta, s.drop_last());
        assert(s[s.len() - 1].key.len() >= 4);
    }
}

proof fn lemma_changes_long(delta: Map<Seq<u8>, Seq<VersionView>>, version: u64, s: Seq<crate::wal::WalChangeView>, n: int)
    requires
        keys_long(delta),
    ensures
        keys_long(recover::changes_replayed(delta, version, s, n)),
    decreases n,
{
    if n > 0 {
        lemma_changes_long(delta, version, s, n - 1);
        bytes::lemma_be_len(encode_utf8(s[n - 1].table).len(), 4);
    }
}

proof fn lemma_replayed_long(start: ReplayView, log: Seq<crate::wal::WalView>, n: int)
    requires
        keys_long(start.delta),
    ensures
        keys_long(recover::replayed(start, log, n).delta),
    decreases n,
{
    if n > 0 {
        lemma_replayed_long(start, log, n - 1);
        let at = recover::replayed(start, log, n - 1);
        lemma_changes_long(at.delta, log[n - 1].version, log[n - 1].changes, log[n - 1].changes.len() as int);
    }
}

/// What the changes of the first `n` equality indexes cost.
pub open spec fn slots_cost(slots: Seq<SecSlot>, n: int) -> int
    decreases n,
{
    if n <= 0 {
        0
    } else {
        let s = slots[n - 1].index.overlay.pairs();
        slots_cost(slots, n - 1) + record::capped(
            secondary::changes_cost(s, None, PairChange::Added) + secondary::changes_cost(s, None, PairChange::Removed),
        )
    }
}

/// What everything costs that is in no run.
pub open spec fn retained_cost(st: &State, others: usize) -> int {
    record::capped(visit::delta_cost(st.index.delta.pairs())) + slots_cost(st.secondary@, st.secondary@.len() as int) + others
}

/// Every change of an equality index is a pair.
pub open spec fn overlays_ok(slots: Seq<SecSlot>) -> bool {
    forall|i: int| 0 <= i < slots.len() ==> (#[trigger] slots[i]).index.overlay_ok()
}

impl State {
    /// The estimated memory of everything that is in no run; `others` is what
    /// text and vector indexes take.
    pub fn index_delta_memory_bytes(&self, others: usize) -> (r: usize)
        requires
            self.wf(),
            keys_long(self.index.delta@),
            overlays_ok(self.secondary@),
        ensures
            r == record::capped(retained_cost(self, others)),
            retained_cost(self, others) >= 0,
    {
        let mut total: usize = map_memory_bytes(&self.index.delta);
        let ghost base = record::capped(visit::delta_cost(self.index.delta.pairs()));
        let mut i: usize = 0;
        while i < self.secondary.len()
            invariant
                self.wf(),
                overlays_ok(self.secondary@),
                i <= self.secondary@.len(),
                base >= 0,
                slots_cost(self.secondary@, i as int) >= 0,
                total == record::capped(base + slots_cost(self.secondary@, i as int)),
            decreases self.secondary@.len() - i,
        {
            let slot = &self.secondary[i];
            assert(slot.index.wf());
            assert(self.secondary@[i as int].index.overlay_ok());
            total = total.saturating_add(slot.index.delta_memory_bytes());
            i = i + 1;
        }
        total.saturating_add(others)
    }
}

// ---- Equality indexes -------------------------------------------------------

/// The column of a table that an index is over.
#[verifier::ext_equal]
pub struct DefView {
    pub table: Seq<char>,
    pub column: Seq<char>,
}

/// The index definitions of the first `n` tables, in the order of the catalog.
pub open spec fn defs_of(tables: Seq<TableView>, n: int) -> Seq<DefView>
    decreases n,
{
    if n <= 0 {
        Seq::empty()
    } else {
        defs_of(tables, n - 1) + table_defs(tables[n - 1], tables[n - 1].indexes.len() as int)
    }
}

pub open spec fn table_defs(t: TableView, n: int) -> Seq<DefView>
    decreases n,
{
    if n <= 0 {
        Seq::empty()
    } else {
        table_defs(t, n - 1).push(DefView { table: t.name, column: t.indexes[n - 1].column })
    }
}

/// No column has two indexes.
pub open spec fn defs_distinct(defs: Seq<DefView>) -> bool {
    forall|i: int, j: int| 0 <= i < j < defs.len() ==> #[trigger] defs[i] != #[trigger] defs[j]
}

pub struct IndexDefinition {
    pub table: String,
    pub column: String,
}

impl View for IndexDefinition {
    type V = DefView;

    open spec fn view(&self) -> DefView {
        DefView { table: self.table@, column: self.column@ }
    }
}

/// List the index definitions of a catalog.
pub fn index_definitions(catalog: &Catalog) -> (r: Vec<IndexDefinition>)
    ensures
        model::views(r@) == defs_of(catalog@, catalog@.len() as int),
{
    let ghost tables = catalog@;
    let mut out: Vec<IndexDefinition> = Vec::new();
    let mut i: usize = 0;
    assert(model::views(out@) =~= Seq::<DefView>::empty());
    while i < catalog.tables.len()
        invariant
            tables == catalog@,
            tables.len() == catalog.tables@.len(),
            i <= tables.len(),
            model::views(out@) == defs_of(tables, i as int),
        decreases tables.len() - i,
    {
        let t = &catalog.tables[i];
        assert(tables[i as int] == t@);
        let ghost before = model::views(out@);
        let mut k: usize = 0;
        assert(before + Seq::<DefView>::empty() =~= before);
        while k < t.indexes.len()
            invariant
                k <= t.indexes@.len(),
                model::views(out@) == before + table_defs(t@, k as int),
            decreases t.indexes@.len() - k,
        {
            let ghost mid = model::views(out@);
            assert(t@.indexes[k as int] == t.indexes@[k as int]@);
            out.push(IndexDefinition { table: t.name.clone(), column: t.indexes[k].column.clone() });
            proof {
                let d = DefView { table: t@.name, column: t@.indexes[k as int].column };
                assert(out@.last()@ == d);
                assert(model::views(out@) =~= mid.push(d));
                assert(model::views(out@) =~= before + table_defs(t@, k + 1));
            }
            k = k + 1;
        }
        i = i + 1;
    }
    out
}

/// Whether no column has two indexes.
pub fn definitions_distinct(defs: &Vec<IndexDefinition>) -> (r: bool)
    ensures
        r == defs_distinct(model::views(defs@)),
{
    let ghost v = model::views(defs@);
    let mut i: usize = 0;
    while i < defs.len()
        invariant
            v == model::views(defs@),
            i <= v.len(),
            forall|a: int, b: int| 0 <= a < b < v.len() && a < i ==> #[trigger] v[a] != #[trigger] v[b],
        decreases v.len() - i,
    {
        let mut j: usize = i + 1;
        while j < defs.len()
            invariant
                v == model::views(defs@),
                i < j <= v.len(),
                forall|b: int| i < b < j ==> v[i as int] != #[trigger] v[b],
            decreases v.len() - j,
        {
            assert(v[i as int] == defs@[i as int]@ && v[j as int] == defs@[j as int]@);
            if bytes::same_text(defs[i].table.as_str(), defs[j].table.as_str()) && bytes::same_text(
                defs[i].column.as_str(),
                defs[j].column.as_str(),
            ) {
                assert(v[i as int] =~= v[j as int]);
                return false;
            }
            j = j + 1;
        }
        i = i + 1;
    }
    true
}

/// Stored runs that can serve.
pub open spec fn runs_serve(loaded: Option<Vec<Run>>) -> bool {
    loaded matches Some(runs) && forall|i: int| 0 <= i < runs@.len() ==> secondary::run_supported((#[trigger] runs@[i]).index.rows())
}

/// The index of a definition: from its stored runs, or made anew.
pub open spec fn slot_opened(st: &State, def: DefView, loaded: Option<Vec<Run>>, slot: SecSlot) -> bool {
    &&& slot.table@ == def.table
    &&& slot.column@ == def.column
    &&& slot.index.wf()
    &&& slot.index.generation == st.committed_version
    &&& slot.index.overlay@ == Map::<Seq<u8>, PairChange>::empty()
    &&& if runs_serve(loaded) {
        Some(slot.index.runs) == loaded
    } else {
        &&& slot.index.runs@.len() == 1
        &&& slot.index.runs@[0].meta@ == (RunMetaView {
            file: files::index_stem(def.table, def.column) + files::extension(DerivedKind::Secondary),
            level: DERIVED_BASE_LEVEL,
            bytes: 0,
            generation: st.committed_version,
        })
        &&& exists|groups: Seq<GroupView>|
            #[trigger] derived::is_built(
                st,
                def.table,
                def.column,
                st.committed_version,
                groups,
                *slot.index.runs@[0].index,
            )
    }
}

/// The indexes of the first `n` definitions. One whose runs cannot serve is left
/// out of a database that is opened for reading.
pub open spec fn slots_opened(
    st: &State,
    defs: Seq<DefView>,
    loaded: Seq<Option<Vec<Run>>>,
    read_only: bool,
    n: int,
    slots: Seq<SecSlot>,
) -> bool
    decreases n,
{
    if n <= 0 {
        slots.len() == 0
    } else if read_only && !runs_serve(loaded[n - 1]) {
        slots_opened(st, defs, loaded, read_only, n - 1, slots)
    } else {
        &&& slots.len() > 0
        &&& slots_opened(st, defs, loaded, read_only, n - 1, slots.drop_last())
        &&& slot_opened(st, defs[n - 1], loaded[n - 1], slots.last())
    }
}

/// Every slot is for one of the first `n` definitions.
spec fn slots_named(defs: Seq<DefView>, n: int, slots: Seq<SecSlot>) -> bool {
    forall|i: int| 0 <= i < slots.len() ==> named_below(defs, n, #[trigger] slots[i])
}

spec fn named_below(defs: Seq<DefView>, n: int, slot: SecSlot) -> bool {
    exists|d: int| 0 <= d < n && (#[trigger] defs[d]).table == slot.table@ && defs[d].column == slot.column@
}

/// The index of one definition, from its stored runs or made anew; none where a
/// database for reading has no runs that serve.
fn open_slot(st: &State, def: &IndexDefinition, loaded: Option<Vec<Run>>, read_only: bool) -> (r: Result<Option<SecSlot>, Error>)
    requires
        st.wf(),
        encode_utf8(def.table@).len() <= u32::MAX,
        loaded matches Some(runs) ==> forall|i: int| 0 <= i < runs@.len() ==> (#[trigger] runs@[i]).index.wf(),
    ensures
        match r {
            Ok(Some(slot)) => slot_opened(st, def@, loaded, slot) && (runs_serve(loaded) || !read_only),
            Ok(None) => read_only && !runs_serve(loaded),
            Err(e) => !read_only && !runs_serve(loaded) && derived::values_fault(st, def.table@, def.column@, e@),
        },
{
    let version: u64 = st.committed_version;
    match loaded {
        Some(runs) => {
            match SecIdx::paged_runs(version, runs) {
                Ok(index) => {
                    let slot = SecSlot { table: def.table.clone(), column: def.column.clone(), index };
                    assert(runs_serve(loaded));
                    return Ok(Some(slot));
                },
                Err(_) => {},
            }
        },
        None => {},
    }
    if read_only {
        return Ok(None);
    }
    let run = match write_secondary_from_canonical(st, def.table.as_str(), def.column.as_str(), version) {
        Ok(run) => run,
        Err(e) => {
            return Err(e);
        },
    };
    let ghost groups = choose|groups: Seq<GroupView>|
        #[trigger] derived::is_built(st, def.table@, def.column@, version, groups, run);
    let file = index_file(DerivedKind::Secondary, def.table.as_str(), def.column.as_str());
    let meta = RunMeta { file, level: DERIVED_BASE_LEVEL, bytes: 0, generation: version };
    let mut runs: Vec<Run> = Vec::new();
    runs.push(Run { meta, index: Arc::new(run) });
    let index = SecIdx { generation: version, runs, overlay: CowMap::new() };
    let slot = SecSlot { table: def.table.clone(), column: def.column.clone(), index };
    assert(derived::is_built(st, def@.table, def@.column, version, groups, *slot.index.runs@[0].index));
    Ok(Some(slot))
}

/// Open the equality indexes of all definitions. Stored runs come in the order
/// of the definitions.
pub fn load_or_build_secondary_indexes(
    st: &State,
    defs: &Vec<IndexDefinition>,
    loaded: Vec<Option<Vec<Run>>>,
    read_only: bool,
) -> (r: Result<Vec<SecSlot>, Error>)
    requires
        st.wf(),
        loaded@.len() == defs@.len(),
        defs_distinct(model::views(defs@)),
        forall|i: int| 0 <= i < defs@.len() ==> encode_utf8((#[trigger] defs@[i])@.table).len() <= u32::MAX,
        forall|k: int|
            0 <= k < loaded@.len() ==> (#[trigger] loaded@[k] matches Some(runs) ==> forall|i: int|
                0 <= i < runs@.len() ==> (#[trigger] runs@[i]).index.wf()),
    ensures
        match r {
            Ok(slots) => slots_opened(st, model::views(defs@), loaded@, read_only, defs@.len() as int, slots@)
                && state::slots_distinct(slots@) && forall|i: int|
                0 <= i < slots@.len() ==> (#[trigger] slots@[i]).index.wf() && slots@[i].index.overlay@ == Map::<
                    Seq<u8>,
                    PairChange,
                >::empty(),
            Err(e) => !read_only && exists|i: int|
                0 <= i < defs@.len() && !runs_serve(loaded@[i]) && derived::values_fault(
                    st,
                    (#[trigger] defs@[i])@.table,
                    defs@[i]@.column,
                    e@,
                ),
        },
{
    let ghost v = model::views(defs@);
    let ghost from = loaded@;
    let mut left = loaded;
    let mut out: Vec<SecSlot> = Vec::new();
    let mut i: usize = 0;
    while i < defs.len()
        invariant
            st.wf(),
            v == model::views(defs@),
            defs_distinct(v),
            from.len() == defs@.len(),
            i <= defs@.len(),
            left@ == from.subrange(i as int, from.len() as int),
            forall|x: int| 0 <= x < defs@.len() ==> encode_utf8((#[trigger] defs@[x])@.table).len() <= u32::MAX,
            forall|k: int|
                0 <= k < from.len() ==> (#[trigger] from[k] matches Some(runs) ==> forall|x: int|
                    0 <= x < runs@.len() ==> (#[trigger] runs@[x]).index.wf()),
            slots_opened(st, v, from, read_only, i as int, out@),
            slots_named(v, i as int, out@),
            state::slots_distinct(out@),
            forall|x: int| 0 <= x < out@.len() ==> (#[trigger] out@[x]).index.wf() && out@[x].index.overlay@ == Map::<
                Seq<u8>,
                PairChange,
            >::empty(),
            from == loaded@,
        decreases defs@.len() - i,
    {
        let def = &defs[i];
        assert(v[i as int] == def@);
        assert(encode_utf8(defs@[i as int]@.table).len() <= u32::MAX);
        let part = left.remove(0);
        assert(part == from[i as int]);
        assert(left@ =~= from.subrange(i + 1, from.len() as int));
        let ghost before = out@;
        match open_slot(st, def, part, read_only) {
            Err(e) => {
                assert(derived::values_fault(st, defs@[i as int]@.table, defs@[i as int]@.column, e@));
                return Err(e);
            },
            Ok(None) => {
                proof {
                    lemma_named_grows(v, i as int, before);
                }
            },
            Ok(Some(slot)) => {
                out.push(slot);
                proof {
                    let now = out@;
                    assert(now.drop_last() =~= before);
                    lemma_named_grows(v, i as int, before);
                    assert(named_below(v, i + 1, slot)) by {
                        assert(v[i as int].table == slot.table@);
                    }
                    assert forall|x: int| 0 <= x < now.len() implies named_below(v, i + 1, #[trigger] now[x]) by {
                        if x < before.len() {
                            assert(now[x] == before[x]);
                        }
                    }
                    assert forall|a: int, b: int| 0 <= a < b < now.len() implies (#[trigger] now[a]).table@ != (#[trigger] now[b]).table@
                        || now[a].column@ != now[b].column@ by {
                        assert(now[a] == before[a]);
                        if b < before.len() {
                            assert(now[b] == before[b]);
                        } else {
                            assert(named_below(v, i as int, before[a]));
                            let d = choose|d: int|
                                0 <= d < i && (#[trigger] v[d]).table == before[a].table@ && v[d].column == before[a].column@;
                            assert(v[d] != v[i as int]);
                            if now[a].table@ == now[b].table@ && now[a].column@ == now[b].column@ {
                                assert(v[d] =~= v[i as int]);
                            }
                        }
                    }
                    assert forall|x: int| 0 <= x < now.len() implies (#[trigger] now[x]).index.wf() && now[x].index.overlay@ == Map::<
                        Seq<u8>,
                        PairChange,
                    >::empty() by {
                        if x < before.len() {
                            assert(now[x] == before[x]);
                        }
                    }
                }
            },
        }
        i = i + 1;
    }
    Ok(out)
}

proof fn lemma_named_grows(defs: Seq<DefView>, n: int, slots: Seq<SecSlot>)
    requires
        slots_named(defs, n, slots),
    ensures
        slots_named(defs, n + 1, slots),
{
    assert forall|i: int| 0 <= i < slots.len() implies named_below(defs, n + 1, #[trigger] slots[i]) by {
        assert(named_below(defs, n, slots[i]));
        let d = choose|d: int| 0 <= d < n && (#[trigger] defs[d]).table == slots[i].table@ && defs[d].column == slots[i].column@;
        assert(defs[d].table == slots[i].table@);
    }
}

// ---- Opening ----------------------------------------------------------------

/// The segments that could be read.
pub open spec fn readable_segments(metas: Seq<SegmentMeta>, files: Seq<SegFile>, n: int) -> Seq<SegmentView>
    decreases n,
{
    if n <= 0 {
        Seq::empty()
    } else {
        match files[n - 1].data {
            Ok(d) => readable_segments(metas, files, n - 1).push(SegmentView { id: metas[n - 1].id, image: d@ }),
            Err(_) => readable_segments(metas, files, n - 1),
        }
    }
}

fn segments_of(metas: &Vec<SegmentMeta>, files: &Vec<SegFile>) -> (r: Vec<Segment>)
    requires
        metas@.len() == files@.len(),
    ensures
        model::views(r@) == readable_segments(metas@, files@, files@.len() as int),
{
    let mut out: Vec<Segment> = Vec::new();
    let mut i: usize = 0;
    assert(model::views(out@) =~= Seq::<SegmentView>::empty());
    while i < files.len()
        invariant
            metas@.len() == files@.len(),
            i <= files@.len(),
            model::views(out@) == readable_segments(metas@, files@, i as int),
        decreases files@.len() - i,
    {
        let ghost before = model::views(out@);
        match &files[i].data {
            Ok(d) => {
                out.push(Segment { id: metas[i].id, image: crate::cow::share(d) });
                assert(model::views(out@) =~= before.push(SegmentView { id: metas@[i as int].id, image: d@ }));
            },
            Err(_) => {},
        }
        i = i + 1;
    }
    out
}

/// The greatest number of a segment.
pub open spec fn greatest_id(metas: Seq<SegmentMeta>) -> u32
    decreases metas.len(),
{
    if metas.len() == 0 {
        0
    } else {
        let rest = greatest_id(metas.drop_last());
        if metas.last().id > rest {
            metas.last().id
        } else {
            rest
        }
    }
}

fn greatest_segment(metas: &Vec<SegmentMeta>) -> (r: u32)
    ensures
        r == greatest_id(metas@),
{
    let mut best: u32 = 0;
    let mut i: usize = 0;
    assert(metas@.subrange(0, 0) =~= Seq::<SegmentMeta>::empty());
    while i < metas.len()
        invariant
            i <= metas@.len(),
            best == greatest_id(metas@.subrange(0, i as int)),
        decreases metas@.len() - i,
    {
        proof {
            let t = metas@.subrange(0, i + 1);
            assert(t.drop_last() =~= metas@.subrange(0, i as int));
            assert(t.last() == metas@[i as int]);
        }
        if metas[i].id > best {
            best = metas[i].id;
        }
        i = i + 1;
    }
    assert(metas@.subrange(0, i as int) =~= metas@);
    best
}

/// What was found on disk, and how the database is to be opened.
pub struct OpenInput {
    pub read_only: bool,
    /// A schema change waits to be finished.
    pub pending_ddl: bool,
    /// The memory that may be retained by what is in no run.
    pub limit: usize,
    pub catalog: Catalog,
    pub manifest: Manifest,
    /// The files of the manifest's segments, in its order.
    pub files: Vec<SegFile>,
    /// The stored primary index of the expected generation.
    pub stored: Option<PrimaryIdx>,
    /// The sound part of the log.
    pub log: Vec<WalRecord>,
    pub blobs: Blobs,
    /// The stored runs of the equality indexes, in the order of the definitions.
    pub index_runs: Vec<Option<Vec<Run>>>,
    /// What text and vector indexes retain.
    pub other_bytes: usize,
}

impl OpenInput {
    pub open spec fn defs(&self) -> Seq<DefView> {
        defs_of(self.catalog@, self.catalog@.len() as int)
    }

    pub open spec fn wf(&self) -> bool {
        &&& self.files@.len() == self.manifest.segments@.len()
        &&& self.stored matches Some(index) ==> index.wf() && index.frozen is None && index.delta@ == Map::<
            Seq<u8>,
            Seq<VersionView>,
        >::empty()
        &&& recover::log_fits(model::views(self.log@))
        &&& self.blobs.wf()
        &&& self.manifest.identity_high_water.wf()
        &&& forall|i: int| 0 <= i < self.catalog@.len() ==> state::schema_fits(#[trigger] self.catalog@[i])
        &&& self.index_runs@.len() == self.defs().len()
        &&& defs_distinct(self.defs())
        &&& forall|k: int|
            0 <= k < self.index_runs@.len() ==> (#[trigger] self.index_runs@[k] matches Some(runs) ==> forall|i: int|
                0 <= i < runs@.len() ==> (#[trigger] runs@[i]).index.wf())
        &&& greatest_id(self.manifest.segments@) < u32::MAX
    }

    pub open spec fn source(&self) -> PrimarySource {
        PrimarySource {
            read_only: self.read_only,
            pending_ddl: self.pending_ddl,
            generation: levels::hash_of(
                levels::generation_bytes(self.manifest.committed_version, self.manifest.segments@, self.catalog@),
            ),
            limit: self.limit,
        }
    }

    /// How the primary index comes about.
    pub open spec fn finds(&self, r: Result<OpenedPrimary, Error>) -> bool {
        recover::primary_outcome(self.source(), self.catalog@, self.manifest.segments@, self.files@, self.stored, r)
    }

    /// Where replaying the log starts, and where it ends.
    pub open spec fn replay(&self, p: OpenedPrimary) -> ReplayView {
        recover::replayed(
            ReplayView { delta: p.index.delta@, committed: self.manifest.committed_version, bytes: 0 },
            model::views(self.log@),
            self.log@.len() as int,
        )
    }
}

/// The committed state that the segments and the log hold.
pub open spec fn is_core(input: &OpenInput, p: OpenedPrimary, st: &State) -> bool {
    &&& st.catalog == input.catalog
    &&& st.index.wf()
    &&& st.index.generation == p.index.generation
    &&& st.index.runs == p.index.runs
    &&& st.index.frozen == p.index.frozen
    &&& st.index.delta@ == input.replay(p).delta
    &&& st.committed_version == input.replay(p).committed
    &&& model::views(st.segments@) == readable_segments(input.manifest.segments@, input.files@, input.files@.len() as int)
    &&& st.metas == input.manifest.segments
    &&& st.next_segment_id == greatest_id(input.manifest.segments@) + 1
    &&& st.identities.wf()
    &&& st.identities@ == recover::marks_replayed(
        input.manifest.identity_high_water@,
        input.manifest.committed_version,
        model::views(input.log@),
        input.log@.len() as int,
    )
    &&& st.blobs == input.blobs
}

/// The indexes of an opened database: none while a schema change is pending.
pub open spec fn is_indexed(input: &OpenInput, st: &State) -> bool {
    if input.pending_ddl {
        st.secondary@.len() == 0
    } else {
        slots_opened(st, input.defs(), input.index_runs@, input.read_only, input.defs().len() as int, st.secondary@)
    }
}

/// An open database.
pub struct Opened {
    pub state: State,
    /// The primary index was made anew and is to be written.
    pub rebuilt: bool,
    pub memtable_bytes: u64,
    pub ids: IdSource,
    pub retained: usize,
}

pub open spec fn is_opened(input: &OpenInput, p: OpenedPrimary, lists: Seq<Seq<GroupView>>, o: Opened) -> bool {
    &&& input.finds(Ok(p))
    &&& is_core(input, p, &o.state)
    &&& o.rebuilt == p.rebuilt
    &&& o.memtable_bytes == crate::segment::capped64(input.replay(p).bytes)
    &&& recover::is_survey(
        &o.state.index,
        input.catalog@,
        lists,
        (Survey { high_ids: o.state.high_ids, superseded: o.state.superseded, ids: o.ids }),
    )
    &&& is_indexed(input, &o.state)
    &&& o.retained == record::capped(retained_cost(&o.state, input.other_bytes))
    &&& o.retained <= input.limit
    &&& o.state.wf()
}

pub open spec fn retained_error(retained: usize, limit: usize) -> ErrorView {
    ErrorView::MemoryLimit(
        "opening retained an estimated "@ + text::decimal(retained as nat)
            + " index-delta bytes, exceeding memory.index_delta_pool_bytes ("@ + text::decimal(limit as nat)
            + "); open writable with a larger pool to consolidate recovery state"@,
    )
}

proof fn lemma_slots_same(
    a: &State,
    b: &State,
    defs: Seq<DefView>,
    loaded: Seq<Option<Vec<Run>>>,
    read_only: bool,
    n: int,
    slots: Seq<SecSlot>,
)
    requires
        derived::same_records(a, b),
        slots_opened(a, defs, loaded, read_only, n, slots),
    ensures
        slots_opened(b, defs, loaded, read_only, n, slots),
    decreases n,
{
    if n > 0 {
        if read_only && !runs_serve(loaded[n - 1]) {
            lemma_slots_same(a, b, defs, loaded, read_only, n - 1, slots);
        } else {
            lemma_slots_same(a, b, defs, loaded, read_only, n - 1, slots.drop_last());
            let def = defs[n - 1];
            let slot = slots.last();
            if !runs_serve(loaded[n - 1]) {
                let groups = choose|groups: Seq<GroupView>|
                    #[trigger] derived::is_built(
                        a,
                        def.table,
                        def.column,
                        a.committed_version,
                        groups,
                        *slot.index.runs@[0].index,
                    );
                derived::lemma_values_same(a, b, def.table, groups, def.column, groups.len() as int);
                assert(derived::is_built(b, def.table, def.column, b.committed_version, groups, *slot.index.runs@[0].index));
            }
        }
    }
}

proof fn lemma_no_slot_cost(slots: Seq<SecSlot>)
    requires
        forall|i: int| 0 <= i < slots.len() ==> (#[trigger] slots[i]).index.wf() && slots[i].index.overlay@ == Map::<
            Seq<u8>,
            PairChange,
        >::empty(),
    ensures
        overlays_ok(slots),
{
}

/// Why a database cannot be opened.
pub open spec fn open_error(input: &OpenInput, e: ErrorView) -> bool {
    ||| exists|r: Result<OpenedPrimary, Error>| #[trigger] input.finds(r) && r is Err && r->Err_0@ == e
    ||| exists|p: OpenedPrimary, st: State| #[trigger] late_error(input, p, &st, e)
}

/// What can go wrong once the primary index is there.
pub open spec fn late_error(input: &OpenInput, p: OpenedPrimary, st: &State, e: ErrorView) -> bool {
    &&& input.finds(Ok(p))
    &&& is_core(input, p, st)
    &&& {
        ||| !input.pending_ddl && !input.read_only && exists|i: int|
            0 <= i < input.defs().len() && !runs_serve(input.index_runs@[i]) && derived::values_fault(
                st,
                (#[trigger] input.defs()[i]).table,
                input.defs()[i].column,
                e,
            )
        ||| is_indexed(input, st) && exists|n: usize| n > input.limit && e == #[trigger] retained_error(n, input.limit) && n == record::capped(
            retained_cost(st, input.other_bytes),
        )
        ||| exists|i: int| #[trigger] recover::survey_fault(&st.index, input.catalog@, i, e)
    }
}

/// Open a database from what was found on disk.
pub fn open_with(input: OpenInput) -> (r: Result<Opened, Error>)
    requires
        input.wf(),
    ensures
        match r {
            Ok(o) => exists|p: OpenedPrimary, lists: Seq<Seq<GroupView>>| #[trigger] is_opened(&input, p, lists, o),
            Err(e) => open_error(&input, e@),
        },
{
    let ghost whole = input;
    let defs = index_definitions(&input.catalog);
    let OpenInput {
        read_only,
        pending_ddl,
        limit,
        catalog,
        manifest,
        files,
        stored,
        log,
        blobs,
        index_runs,
        other_bytes,
    } = input;
    let Manifest { format_version: _, committed_version, segments: metas, wal_id: _, identity_high_water, catalog: _ } = manifest;
    let generation: u64 = primary_generation(committed_version, &metas, &catalog);
    let src = PrimarySource { read_only, pending_ddl, generation, limit };
    let found = open_primary(&src, &catalog, &metas, &files, stored);
    assert(whole.finds(found));
    let OpenedPrimary { index, rebuilt } = match found {
        Ok(p) => p,
        Err(e) => {
            return Err(e);
        },
    };
    let ghost p = OpenedPrimary { index, rebuilt };
    assert(whole.finds(Ok(p)));
    proof {
        recover::lemma_found_keys(metas@, files@, catalog@, pending_ddl, files@.len() as int);
        lemma_pushed_long(Map::empty(), recover::found_all(metas@, files@, catalog@, pending_ddl, files@.len() as int));
        assert(keys_long(index.delta@));
    }
    let mut index = index;
    let replay = replay_log(&mut index, committed_version, &log);
    proof {
        let start = ReplayView { delta: p.index.delta@, committed: committed_version, bytes: 0 };
        lemma_replayed_long(start, model::views(log@), log@.len() as int);
    }
    let mut identities = identity_high_water;
    replay_marks(&mut identities, committed_version, &log);
    let next: u32 = greatest_segment(&metas) + 1;
    let segments = segments_of(&metas, &files);
    let mut st = State {
        catalog,
        committed_version: replay.committed_version,
        index,
        high_ids: CowMap::new(),
        superseded: Vec::new(),
        secondary: Vec::new(),
        identities,
        segments,
        metas,
        next_segment_id: next,
        blobs,
    };
    assert(st.wf());
    assert(is_core(&whole, p, &st));
    if !pending_ddl {
        proof {
            assert forall|i: int| 0 <= i < defs@.len() implies encode_utf8((#[trigger] defs@[i])@.table).len() <= u32::MAX by {
                lemma_def_fits(whole.catalog@, whole.catalog@.len() as int);
                assert(model::views(defs@)[i] == defs@[i]@);
            }
        }
        match load_or_build_secondary_indexes(&st, &defs, index_runs, read_only) {
            Ok(slots) => {
                let ghost core = st;
                st.secondary = slots;
                proof {
                    assert(derived::same_records(&core, &st));
                    lemma_slots_same(&core, &st, whole.defs(), whole.index_runs@, read_only, whole.defs().len() as int, slots@);
                }
            },
            Err(e) => {
                proof {
                    let i = choose|i: int|
                        0 <= i < defs@.len() && !runs_serve(whole.index_runs@[i]) && derived::values_fault(
                            &st,
                            (#[trigger] defs@[i])@.table,
                            defs@[i]@.column,
                            e@,
                        );
                    assert(model::views(defs@)[i] == defs@[i]@);
                    assert(derived::values_fault(&st, whole.defs()[i].table, whole.defs()[i].column, e@));
                    assert(late_error(&whole, p, &st, e@));
                }
                return Err(e);
            },
        }
    }
    proof {
        lemma_no_slot_cost(st.secondary@);
    }
    let retained: usize = st.index_delta_memory_bytes(other_bytes);
    if retained > limit {
        let a = decimal_text(retained as u64);
        let b = decimal_text(limit as u64);
        let e = Error::MemoryLimit(
            "opening retained an estimated ".to_owned().concat(a.as_str()).concat(
                " index-delta bytes, exceeding memory.index_delta_pool_bytes (",
            ).concat(b.as_str()).concat("); open writable with a larger pool to consolidate recovery state"),
        );
        assert(e@ == retained_error(retained, limit));
        assert(late_error(&whole, p, &st, e@));
        return Err(e);
    }
    let Survey { high_ids, superseded, ids } = match survey(&st.index, &st.catalog) {
        Ok(s) => s,
        Err(e) => {
            assert(late_error(&whole, p, &st, e@));
            return Err(e);
        },
    };
    let ghost lists = choose|lists: Seq<Seq<GroupView>>|
        #[trigger] recover::is_survey(&st.index, whole.catalog@, lists, (Survey { high_ids, superseded, ids }));
    let ghost before = st;
    st.high_ids = high_ids;
    st.superseded = superseded;
    let done: Result<Opened, Error> = Ok(
        Opened { state: st, rebuilt, memtable_bytes: replay.memtable_bytes, ids, retained },
    );
    proof {
        let o = done->Ok_0;
        if !pending_ddl {
            assert(derived::same_records(&before, &o.state));
            lemma_slots_same(
                &before,
                &o.state,
                whole.defs(),
                whole.index_runs@,
                read_only,
                whole.defs().len() as int,
                o.state.secondary@,
            );
        }
        assert(is_opened(&whole, p, lists, o));
    }
    done
}

proof fn lemma_def_fits(tables: Seq<TableView>, n: int)
    requires
        0 <= n <= tables.len(),
        forall|i: int| 0 <= i < tables.len() ==> state::schema_fits(#[trigger] tables[i]),
    ensures
        forall|i: int| 0 <= i < defs_of(tables, n).len() ==> encode_utf8((#[trigger] defs_of(tables, n)[i]).table).len() <= u32::MAX,
    decreases n,
{
    if n > 0 {
        lemma_def_fits(tables, n - 1);
        assert(state::schema_fits(tables[n - 1]));
        let own = table_defs(tables[n - 1], tables[n - 1].indexes.len() as int);
        lemma_table_def(tables[n - 1], tables[n - 1].indexes.len() as int);
        let before = defs_of(tables, n - 1);
        assert forall|i: int| 0 <= i < defs_of(tables, n).len() implies encode_utf8(
            (#[trigger] defs_of(tables, n)[i]).table,
        ).len() <= u32::MAX by {
            if i < before.len() {
                assert(defs_of(tables, n)[i] == before[i]);
            } else {
                assert(defs_of(tables, n)[i] == own[i - before.len()]);
            }
        }
    }
}

proof fn lemma_table_def(t: TableView, n: int)
    ensures
        forall|i: int| 0 <= i < table_defs(t, n).len() ==> (#[trigger] table_defs(t, n)[i]).table == t.name,
    decreases n,
{
    if n > 0 {
        lemma_table_def(t, n - 1);
        assert forall|i: int| 0 <= i < table_defs(t, n).len() implies (#[trigger] table_defs(t, n)[i]).table == t.name by {
            if i < table_defs(t, n - 1).len() {
                assert(table_defs(t, n)[i] == table_defs(t, n - 1)[i]);
            }
        }
    }
}

// ---- After a rewrite --------------------------------------------------------

pub open spec fn no_runs(n: nat) -> Seq<Option<Vec<Run>>> {
    Seq::new(n, |i: int| None::<Vec<Run>>)
}

impl State {
    /// Make every equality index anew from the records, as after a rewrite that
    /// changed them.
    pub fn rebuild_secondary_indexes(&mut self) -> (r: Result<(), Error>)
        requires
            old(self).wf(),
            defs_distinct(defs_of(old(self).catalog@, old(self).catalog@.len() as int)),
        ensures
            final(self).wf(),
            final(self).keeps_records(old(self)),
            final(self).catalog == old(self).catalog,
            ({
                let defs = defs_of(old(self).catalog@, old(self).catalog@.len() as int);
                match r {
                    Ok(_) => slots_opened(
                        old(self),
                        defs,
                        no_runs(defs.len()),
                        false,
                        defs.len() as int,
                        final(self).secondary@,
                    ),
                    Err(e) => final(self).secondary == old(self).secondary && exists|i: int|
                        0 <= i < defs.len() && derived::values_fault(old(self), (#[trigger] defs[i]).table, defs[i].column, e@),
                }
            }),
    {
        let defs = index_definitions(&self.catalog);
        let ghost dv = defs_of(self.catalog@, self.catalog@.len() as int);
        let mut none: Vec<Option<Vec<Run>>> = Vec::new();
        while none.len() < defs.len()
            invariant
                none@.len() <= defs@.len(),
                none@ =~= no_runs(none@.len()),
            decreases defs@.len() - none@.len(),
        {
            none.push(None);
        }
        proof {
            lemma_def_fits(self.catalog@, self.catalog@.len() as int);
            assert forall|i: int| 0 <= i < defs@.len() implies encode_utf8((#[trigger] defs@[i])@.table).len() <= u32::MAX by {
                assert(model::views(defs@)[i] == defs@[i]@);
            }
        }
        match load_or_build_secondary_indexes(self, &defs, none, false) {
            Ok(slots) => {
                self.secondary = slots;
                Ok(())
            },
            Err(e) => {
                proof {
                    let i = choose|i: int|
                        0 <= i < defs@.len() && !runs_serve(none@[i]) && derived::values_fault(
                            self,
                            (#[trigger] defs@[i])@.table,
                            defs@[i]@.column,
                            e@,
                        );
                    assert(model::views(defs@)[i] == defs@[i]@);
                    assert(derived::values_fault(self, dv[i].table, dv[i].column, e@));
                }
                Err(e)
            },
        }
    }
}

} // verus!
