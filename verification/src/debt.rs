//! When compaction is worth its cost, and which versions it has to keep.

use crate::compact::{self, select_versions};
use crate::levels::SegmentMeta;
use crate::model;
use crate::options::AutoCompactionOptions;
use crate::segment::{self, segment_entry_bytes};
use crate::schema::TableView;
use crate::state::State;
use crate::version::VersionView;
use crate::visit::{self, Group, GroupView};
use vstd::prelude::*;
use vstd::utf8::*;

verus! {

// ---- Live snapshots ---------------------------------------------------------

/// A version that readers hold, and how many do.
#[derive(Clone, Copy, PartialEq, Eq, Structural, Debug)]
pub struct Held {
    pub version: u64,
    pub count: usize,
}

/// The snapshots that are open.
pub struct Snapshots {
    /// In the order of their versions, each once.
    pub held: Vec<Held>,
    /// The versions that the last compaction kept for readers.
    pub retained: Vec<u64>,
    /// A version that compaction kept has lost its last reader since.
    pub refresh_needed: bool,
}

pub open spec fn holds(s: Seq<Held>, version: u64) -> bool {
    exists|i: int| 0 <= i < s.len() && (#[trigger] s[i]).version == version
}

/// The number of readers of a version.
pub open spec fn readers(s: Seq<Held>, version: u64) -> int
    decreases s.len(),
{
    if s.len() == 0 {
        0
    } else if s.last().version == version {
        s.last().count as int
    } else {
        readers(s.drop_last(), version)
    }
}

pub open spec fn held_ok(s: Seq<Held>) -> bool {
    &&& forall|i: int, j: int| 0 <= i < j < s.len() ==> (#[trigger] s[i]).version < (#[trigger] s[j]).version
    &&& forall|i: int| 0 <= i < s.len() ==> (#[trigger] s[i]).count > 0
}

proof fn lemma_readers(s: Seq<Held>, version: u64)
    requires
        held_ok(s),
    ensures
        forall|i: int| 0 <= i < s.len() && (#[trigger] s[i]).version == version ==> readers(s, version) == s[i].count,
        !holds(s, version) ==> readers(s, version) == 0,
    decreases s.len(),
{
    if s.len() > 0 {
        let t = s.drop_last();
        lemma_readers(t, version);
        assert forall|i: int| 0 <= i < s.len() && (#[trigger] s[i]).version == version implies readers(s, version) == s[i].count by {
            if i < s.len() - 1 {
                assert(t[i] == s[i]);
                assert(s[i].version < s[s.len() - 1].version);
            }
        }
        if !holds(s, version) {
            assert(s[s.len() - 1].version != version);
            if holds(t, version) {
                let i = choose|i: int| 0 <= i < t.len() && (#[trigger] t[i]).version == version;
                assert(s[i].version == version);
            }
        }
    }
}

/// Every version but one has the readers that it had.
proof fn lemma_readers_same(a: Seq<Held>, b: Seq<Held>, version: u64)
    requires
        held_ok(a),
        held_ok(b),
        forall|i: int| 0 <= i < a.len() && (#[trigger] a[i]).version != version ==> b.contains(a[i]),
        forall|i: int| 0 <= i < b.len() && (#[trigger] b[i]).version != version ==> a.contains(b[i]),
    ensures
        forall|v: u64| v != version ==> #[trigger] readers(a, v) == readers(b, v),
{
    assert forall|v: u64| v != version implies #[trigger] readers(a, v) == readers(b, v) by {
        lemma_readers(a, v);
        lemma_readers(b, v);
        if holds(a, v) {
            let i = choose|i: int| 0 <= i < a.len() && (#[trigger] a[i]).version == v;
            assert(b.contains(a[i]));
            let j = b.index_of(a[i]);
            assert(b[j].version == v);
        } else if holds(b, v) {
            let i = choose|i: int| 0 <= i < b.len() && (#[trigger] b[i]).version == v;
            assert(a.contains(b[i]));
            let j = a.index_of(b[i]);
            assert(a[j].version == v);
        }
    }
}

impl Snapshots {
    pub open spec fn wf(&self) -> bool {
        held_ok(self.held@)
    }

    pub fn new() -> (r: Snapshots)
        ensures
            r.wf(),
            r.held@.len() == 0,
            r.retained@.len() == 0,
            !r.refresh_needed,
    {
        Snapshots { held: Vec::new(), retained: Vec::new(), refresh_needed: false }
    }

    /// The first position whose version is not below `version`.
    fn place(&self, version: u64) -> (r: usize)
        requires
            self.wf(),
        ensures
            r <= self.held@.len(),
            forall|i: int| 0 <= i < r ==> (#[trigger] self.held@[i]).version < version,
            forall|i: int| r <= i < self.held@.len() ==> (#[trigger] self.held@[i]).version >= version,
    {
        let mut i: usize = 0;
        while i < self.held.len() && self.held[i].version < version
            invariant
                i <= self.held@.len(),
                forall|k: int| 0 <= k < i ==> (#[trigger] self.held@[k]).version < version,
            decreases self.held@.len() - i,
        {
            i = i + 1;
        }
        proof {
            assert forall|k: int| i <= k < self.held@.len() implies (#[trigger] self.held@[k]).version >= version by {
                if k > i {
                    assert(self.held@[i as int].version < self.held@[k].version);
                }
            }
        }
        i
    }

    /// Another reader opens a snapshot.
    pub fn open(&mut self, version: u64)
        requires
            old(self).wf(),
            readers(old(self).held@, version) < usize::MAX,
        ensures
            final(self).wf(),
            readers(final(self).held@, version) == readers(old(self).held@, version) + 1,
            forall|v: u64| v != version ==> #[trigger] readers(final(self).held@, v) == readers(old(self).held@, v),
            final(self).retained == old(self).retained,
            final(self).refresh_needed == old(self).refresh_needed,
    {
        let ghost before = self.held@;
        let at: usize = self.place(version);
        proof {
            lemma_readers(before, version);
        }
        if at < self.held.len() && self.held[at].version == version {
            let count: usize = self.held[at].count;
            assert(before[at as int].version == version);
            self.held.set(at, Held { version, count: count + 1 });
            proof {
                let now = self.held@;
                assert(held_ok(now));
                assert forall|i: int| 0 <= i < before.len() && (#[trigger] before[i]).version != version implies now.contains(before[i]) by {
                    assert(now[i] == before[i]);
                }
                assert forall|i: int| 0 <= i < now.len() && (#[trigger] now[i]).version != version implies before.contains(now[i]) by {
                    assert(now[i] == before[i]);
                }
                lemma_readers_same(before, now, version);
                lemma_readers(now, version);
                assert(now[at as int].version == version);
            }
        } else {
            self.held.insert(at, Held { version, count: 1 });
            proof {
                let now = self.held@;
                assert(now == before.insert(at as int, Held { version, count: 1 }));
                assert forall|i: int, j: int| 0 <= i < j < now.len() implies (#[trigger] now[i]).version < (#[trigger] now[j]).version by {
                    if j < at {
                        assert(now[i] == before[i] && now[j] == before[j]);
                    } else if j == at {
                        assert(now[i] == before[i]);
                    } else {
                        assert(now[j] == before[j - 1]);
                        if i < at {
                            assert(now[i] == before[i]);
                        } else if i > at {
                            assert(now[i] == before[i - 1]);
                        } else {
                            assert(before[j - 1].version >= version);
                            assert(before[at as int].version != version);
                            if j - 1 > at {
                                assert(before[at as int].version < before[j - 1].version);
                            }
                        }
                    }
                }
                assert forall|i: int| 0 <= i < now.len() implies (#[trigger] now[i]).count > 0 by {
                    if i < at {
                        assert(now[i] == before[i]);
                    } else if i > at {
                        assert(now[i] == before[i - 1]);
                    }
                }
                assert(held_ok(now));
                assert(!holds(before, version)) by {
                    if holds(before, version) {
                        let i = choose|i: int| 0 <= i < before.len() && (#[trigger] before[i]).version == version;
                        if i > at {
                            assert(before[at as int].version < before[i].version);
                        }
                    }
                }
                assert forall|i: int| 0 <= i < before.len() && (#[trigger] before[i]).version != version implies now.contains(before[i]) by {
                    if i < at {
                        assert(now[i] == before[i]);
                    } else {
                        assert(now[i + 1] == before[i]);
                    }
                }
                assert forall|i: int| 0 <= i < now.len() && (#[trigger] now[i]).version != version implies before.contains(now[i]) by {
                    if i < at {
                        assert(now[i] == before[i]);
                    } else {
                        assert(now[i] == before[i - 1]);
                    }
                }
                lemma_readers_same(before, now, version);
                lemma_readers(now, version);
                assert(now[at as int].version == version);
            }
        }
    }

    /// A reader drops its snapshot. Where it was the last reader of a version
    /// that compaction kept, the debt is to be estimated anew.
    pub fn close(&mut self, version: u64)
        requires
            old(self).wf(),
        ensures
            final(self).wf(),
            readers(final(self).held@, version) == (if readers(old(self).held@, version) > 0 {
                readers(old(self).held@, version) - 1
            } else {
                0
            }),
            forall|v: u64| v != version ==> #[trigger] readers(final(self).held@, v) == readers(old(self).held@, v),
            ({
                let last = readers(old(self).held@, version) == 1;
                &&& final(self).refresh_needed == (old(self).refresh_needed || (last && old(self).retained@.contains(version)))
                &&& forall|v: u64|
                    #[trigger] final(self).retained@.contains(v) <==> old(self).retained@.contains(v) && !(last && v == version)
            }),
    {
        let ghost before = self.held@;
        let at: usize = self.place(version);
        proof {
            lemma_readers(before, version);
        }
        if at < self.held.len() && self.held[at].version == version {
            let count: usize = self.held[at].count;
            assert(before[at as int].version == version);
            if count == 1 {
                let _ = self.held.remove(at);
                proof {
                    let now = self.held@;
                    assert(now == before.remove(at as int));
                    assert forall|i: int, j: int| 0 <= i < j < now.len() implies (#[trigger] now[i]).version < (#[trigger] now[j]).version by {
                        let x = if i < at {
                            i
                        } else {
                            i + 1
                        };
                        let y = if j < at {
                            j
                        } else {
                            j + 1
                        };
                        assert(now[i] == before[x] && now[j] == before[y]);
                    }
                    assert forall|i: int| 0 <= i < now.len() implies (#[trigger] now[i]).count > 0 by {
                        let x = if i < at {
                            i
                        } else {
                            i + 1
                        };
                        assert(now[i] == before[x]);
                    }
                    assert(!holds(now, version)) by {
                        if holds(now, version) {
                            let i = choose|i: int| 0 <= i < now.len() && (#[trigger] now[i]).version == version;
                            if i < at {
                                assert(now[i] == before[i]);
                            } else {
                                assert(now[i] == before[i + 1]);
                                assert(before[at as int].version < before[i + 1].version);
                            }
                        }
                    }
                    assert forall|i: int| 0 <= i < before.len() && (#[trigger] before[i]).version != version implies now.contains(
                        before[i],
                    ) by {
                        if i < at {
                            assert(now[i] == before[i]);
                        } else {
                            assert(now[i - 1] == before[i]);
                        }
                    }
                    assert forall|i: int| 0 <= i < now.len() && (#[trigger] now[i]).version != version implies before.contains(
                        now[i],
                    ) by {
                        if i < at {
                            assert(now[i] == before[i]);
                        } else {
                            assert(now[i] == before[i + 1]);
                        }
                    }
                    lemma_readers_same(before, now, version);
                    lemma_readers(now, version);
                }
                if forget(&mut self.retained, version) {
                    self.refresh_needed = true;
                }
            } else {
                self.held.set(at, Held { version, count: (count - 1) as usize });
                proof {
                    let now = self.held@;
                    assert(held_ok(now)) by {
                        assert(before[at as int].count > 0);
                    }
                    assert forall|i: int| 0 <= i < before.len() && (#[trigger] before[i]).version != version implies now.contains(
                        before[i],
                    ) by {
                        assert(now[i] == before[i]);
                    }
                    assert forall|i: int| 0 <= i < now.len() && (#[trigger] now[i]).version != version implies before.contains(
                        now[i],
                    ) by {
                        assert(now[i] == before[i]);
                    }
                    lemma_readers_same(before, now, version);
                    lemma_readers(now, version);
                    assert(now[at as int].version == version);
                }
            }
        } else {
            proof {
                assert(!holds(before, version)) by {
                    if holds(before, version) {
                        let i = choose|i: int| 0 <= i < before.len() && (#[trigger] before[i]).version == version;
                        if i > at {
                            assert(before[at as int].version < before[i].version);
                        }
                    }
                }
            }
        }
    }

    /// The versions that compaction has to keep for readers, and the committed
    /// one; each once, in order.
    pub fn watermarks(&self, committed: u64) -> (r: Vec<u64>)
        requires
            self.wf(),
        ensures
            forall|v: u64| #[trigger] r@.contains(v) <==> v == committed || holds(self.held@, v),
            forall|i: int, j: int| 0 <= i < j < r@.len() ==> #[trigger] r@[i] < #[trigger] r@[j],
    {
        let ghost s = self.held@;
        let mut out: Vec<u64> = Vec::new();
        let mut placed: bool = false;
        let mut i: usize = 0;
        while i < self.held.len()
            invariant
                self.wf(),
                s == self.held@,
                i <= s.len(),
                forall|v: u64|
                    #[trigger] out@.contains(v) <==> (placed && v == committed) || exists|k: int|
                        0 <= k < i && (#[trigger] s[k]).version == v,
                forall|a: int, b: int| 0 <= a < b < out@.len() ==> #[trigger] out@[a] < #[trigger] out@[b],
                forall|a: int, k: int| 0 <= a < out@.len() && i <= k < s.len() ==> #[trigger] out@[a] < (#[trigger] s[k]).version || (
                placed && out@[a] == committed && committed <= s[k].version),
                placed ==> out@.contains(committed),
                !placed ==> forall|k: int| 0 <= k < i ==> (#[trigger] s[k]).version < committed,
            decreases s.len() - i,
        {
            let version: u64 = self.held[i].version;
            let ghost before = out@;
            let ghost was = placed;
            assert(s[i as int].version == version);
            if !placed && committed <= version {
                out.push(committed);
                placed = true;
                proof {
                    lemma_pushed(before, committed);
                    assert(out@[before.len() as int] == committed);
                    assert forall|a: int| 0 <= a < before.len() implies #[trigger] before[a] < committed by {
                        assert(before.contains(before[a]));
                    }
                }
            }
            let ghost mid = out@;
            if version != committed {
                out.push(version);
                proof {
                    lemma_pushed(mid, version);
                }
            }
            proof {
                assert forall|v: u64|
                    #[trigger] out@.contains(v) <==> (placed && v == committed) || exists|k: int|
                        0 <= k < i + 1 && (#[trigger] s[k]).version == v by {
                    assert(out@.contains(v) <==> mid.contains(v) || (version != committed && v == version));
                    assert(mid.contains(v) <==> before.contains(v) || (placed && !was && v == committed));
                    if exists|k: int| 0 <= k < i + 1 && (#[trigger] s[k]).version == v {
                        let k = choose|k: int| 0 <= k < i + 1 && (#[trigger] s[k]).version == v;
                        if k < i {
                            assert(before.contains(v));
                        }
                    }
                }
                assert forall|a: int, k: int| 0 <= a < out@.len() && i + 1 <= k < s.len() implies #[trigger] out@[a] < (#[trigger] s[k]).version || (
                placed && out@[a] == committed && committed <= s[k].version) by {
                    assert(s[i as int].version < s[k].version);
                    if a < before.len() {
                        assert(out@[a] == before[a]);
                    }
                }
            }
            i = i + 1;
        }
        if !placed {
            let ghost before = out@;
            out.push(committed);
            proof {
                lemma_pushed(before, committed);
                assert forall|a: int, b: int| 0 <= a < b < out@.len() implies #[trigger] out@[a] < #[trigger] out@[b] by {
                    assert(before.contains(before[a]));
                }
            }
        }
        proof {
            assert forall|v: u64| #[trigger] out@.contains(v) <==> v == committed || holds(s, v) by {
                if holds(s, v) {
                    let k = choose|k: int| 0 <= k < s.len() && (#[trigger] s[k]).version == v;
                    assert(s[k].version == v);
                }
            }
        }
        out
    }

    /// Remember what compaction has to keep for readers.
    pub fn retain(&mut self)
        ensures
            final(self).held == old(self).held,
            final(self).refresh_needed == old(self).refresh_needed,
            forall|v: u64| #[trigger] final(self).retained@.contains(v) <==> holds(old(self).held@, v),
    {
        let mut out: Vec<u64> = Vec::new();
        let ghost s = self.held@;
        let mut i: usize = 0;
        while i < self.held.len()
            invariant
                *self == *old(self),
                s == self.held@,
                i <= s.len(),
                forall|v: u64| #[trigger] out@.contains(v) <==> exists|k: int| 0 <= k < i && (#[trigger] s[k]).version == v,
            decreases s.len() - i,
        {
            let ghost before = out@;
            let version: u64 = self.held[i].version;
            out.push(version);
            proof {
                lemma_pushed(before, version);
                assert forall|v: u64|
                    #[trigger] out@.contains(v) <==> exists|k: int| 0 <= k < i + 1 && (#[trigger] s[k]).version == v by {
                    if exists|k: int| 0 <= k < i + 1 && (#[trigger] s[k]).version == v {
                        let k = choose|k: int| 0 <= k < i + 1 && (#[trigger] s[k]).version == v;
                        if k < i {
                            assert(before.contains(v));
                        }
                    }
                    if v == version {
                        assert(s[i as int].version == v);
                    }
                }
            }
            i = i + 1;
        }
        self.retained = out;
        proof {
            assert forall|v: u64| #[trigger] self.retained@.contains(v) <==> holds(s, v) by {
                if holds(s, v) {
                    let k = choose|k: int| 0 <= k < s.len() && (#[trigger] s[k]).version == v;
                    assert(s[k].version == v);
                }
            }
        }
    }
}

proof fn lemma_pushed(s: Seq<u64>, x: u64)
    ensures
        forall|v: u64| #[trigger] s.push(x).contains(v) <==> s.contains(v) || v == x,
{
    let t = s.push(x);
    assert forall|v: u64| #[trigger] t.contains(v) <==> s.contains(v) || v == x by {
        if s.contains(v) {
            assert(t[s.index_of(v)] == v);
        }
        if v == x {
            assert(t[s.len() as int] == v);
        }
        if t.contains(v) {
            let k = t.index_of(v);
            if k < s.len() {
                assert(s[k] == v);
            }
        }
    }
}

/// Take every occurrence of a version out of a list; whether there was one.
fn forget(list: &mut Vec<u64>, version: u64) -> (r: bool)
    ensures
        r == old(list)@.contains(version),
        forall|v: u64| #[trigger] final(list)@.contains(v) <==> old(list)@.contains(v) && v != version,
{
    let ghost s = list@;
    let mut out: Vec<u64> = Vec::new();
    let mut found: bool = false;
    let mut i: usize = 0;
    while i < list.len()
        invariant
            s == list@,
            i <= s.len(),
            found == exists|k: int| 0 <= k < i && #[trigger] s[k] == version,
            forall|v: u64| #[trigger] out@.contains(v) <==> v != version && exists|k: int| 0 <= k < i && #[trigger] s[k] == v,
        decreases s.len() - i,
    {
        let x: u64 = list[i];
        let ghost before = out@;
        assert(s[i as int] == x);
        if x == version {
            found = true;
        } else {
            out.push(x);
            proof {
                lemma_pushed(before, x);
            }
        }
        proof {
            assert forall|v: u64| #[trigger] out@.contains(v) <==> v != version && exists|k: int| 0 <= k < i + 1 && #[trigger] s[k] == v by {
                if exists|k: int| 0 <= k < i + 1 && #[trigger] s[k] == v {
                    let k = choose|k: int| 0 <= k < i + 1 && #[trigger] s[k] == v;
                    if k < i && v != version {
                        assert(before.contains(v));
                    }
                }
            }
        }
        i = i + 1;
    }
    proof {
        assert forall|v: u64| #[trigger] out@.contains(v) <==> s.contains(v) && v != version by {
            if s.contains(v) {
                assert(s[s.index_of(v)] == v);
            }
        }
        if s.contains(version) {
            assert(s[s.index_of(version)] == version);
        }
    }
    *list = out;
    found
}

// ---- What compaction could remove -------------------------------------------

/// The versions among the first `n` that would not stay.
pub open spec fn dropped_count(vs: Seq<VersionView>, marks: Seq<u64>, epoch: u64, n: int) -> int
    decreases n,
{
    if n <= 0 {
        0
    } else {
        dropped_count(vs, marks, epoch, n - 1) + (if compact::retained(vs, marks, epoch, n - 1) {
            0int
        } else {
            1int
        })
    }
}

/// The bytes of a version in its segment.
pub open spec fn stored_bytes(table: Seq<u8>, id: Seq<u8>, v: VersionView) -> int {
    if v.kind.is_resident() {
        0
    } else {
        segment::capped64(segment::entry_size(table, id, segment::payload_size(v.kind)))
    }
}

/// The bytes of the versions among the first `n` that would stay.
pub open spec fn kept_bytes(table: Seq<u8>, g: GroupView, marks: Seq<u64>, epoch: u64, n: int) -> int
    decreases n,
{
    if n <= 0 {
        0
    } else {
        kept_bytes(table, g, marks, epoch, n - 1) + (if compact::retained(g.versions, marks, epoch, n - 1) {
            stored_bytes(table, g.id, g.versions[n - 1])
        } else {
            0
        })
    }
}

pub open spec fn groups_dropped(groups: Seq<GroupView>, marks: Seq<u64>, epoch: u64, n: int) -> int
    decreases n,
{
    if n <= 0 {
        0
    } else {
        groups_dropped(groups, marks, epoch, n - 1) + dropped_count(
            groups[n - 1].versions,
            marks,
            epoch,
            groups[n - 1].versions.len() as int,
        )
    }
}

pub open spec fn groups_kept(table: Seq<u8>, groups: Seq<GroupView>, marks: Seq<u64>, epoch: u64, n: int) -> int
    decreases n,
{
    if n <= 0 {
        0
    } else {
        groups_kept(table, groups, marks, epoch, n - 1) + kept_bytes(
            table,
            groups[n - 1],
            marks,
            epoch,
            groups[n - 1].versions.len() as int,
        )
    }
}

/// The records of a table that can be read: all, or those before the first that
/// cannot.
pub open spec fn is_readable_part(st: &State, table: Seq<u8>, groups: Seq<GroupView>) -> bool {
    ||| st.index.is_listing(table, None, None, groups)
    ||| exists|key: Seq<u8>, m: Seq<char>| #[trigger] st.index.stops_at(table, None, None, groups, key, m)
}

/// The readable records of each table.
pub open spec fn is_parts(st: &State, parts: Seq<Seq<GroupView>>) -> bool {
    &&& parts.len() == st.catalog@.len()
    &&& forall|i: int| 0 <= i < parts.len() ==> is_readable_part(st, encode_utf8(st.catalog@[i].name), #[trigger] parts[i])
}

pub open spec fn all_dropped(tables: Seq<TableView>, parts: Seq<Seq<GroupView>>, marks: Seq<u64>, n: int) -> int
    decreases n,
{
    if n <= 0 {
        0
    } else {
        all_dropped(tables, parts, marks, n - 1) + groups_dropped(
            parts[n - 1],
            marks,
            tables[n - 1].epoch,
            parts[n - 1].len() as int,
        )
    }
}

pub open spec fn all_kept(tables: Seq<TableView>, parts: Seq<Seq<GroupView>>, marks: Seq<u64>, n: int) -> int
    decreases n,
{
    if n <= 0 {
        0
    } else {
        all_kept(tables, parts, marks, n - 1) + groups_kept(
            encode_utf8(tables[n - 1].name),
            parts[n - 1],
            marks,
            tables[n - 1].epoch,
            parts[n - 1].len() as int,
        )
    }
}

pub open spec fn total_len(metas: Seq<SegmentMeta>) -> int
    decreases metas.len(),
{
    if metas.len() == 0 {
        0
    } else {
        total_len(metas.drop_last()) + metas.last().len
    }
}

pub fn segment_bytes(metas: &Vec<SegmentMeta>) -> (r: u64)
    ensures
        r == segment::capped64(total_len(metas@)),
{
    let mut total: u64 = 0;
    let mut i: usize = 0;
    assert(metas@.subrange(0, 0) =~= Seq::<SegmentMeta>::empty());
    while i < metas.len()
        invariant
            i <= metas@.len(),
            total == segment::capped64(total_len(metas@.subrange(0, i as int))),
            total_len(metas@.subrange(0, i as int)) >= 0,
        decreases metas@.len() - i,
    {
        proof {
            let t = metas@.subrange(0, i + 1);
            assert(t.drop_last() =~= metas@.subrange(0, i as int));
            assert(t.last() == metas@[i as int]);
        }
        total = total.saturating_add(metas[i].len);
        i = i + 1;
    }
    assert(metas@.subrange(0, i as int) =~= metas@);
    total
}

/// What compaction could remove: versions, and bytes of segments.
#[derive(Clone, Copy, PartialEq, Eq, Structural, Debug)]
pub struct Debt {
    pub operations: u64,
    pub bytes: u64,
}

/// The versions that are dropped and the bytes that are kept, as far as they
/// were counted.
struct Tally {
    dropped: u64,
    kept: u64,
}

fn tally_group(table: &str, g: &Group, marks: &Vec<u64>, epoch: u64, t: &mut Tally, Ghost(d): Ghost<int>, Ghost(k): Ghost<int>)
    requires
        d >= 0,
        k >= 0,
        old(t).dropped == segment::capped64(d),
        old(t).kept == segment::capped64(k),
    ensures
        dropped_count(g@.versions, marks@, epoch, g@.versions.len() as int) >= 0,
        kept_bytes(encode_utf8(table@), g@, marks@, epoch, g@.versions.len() as int) >= 0,
        final(t).dropped == segment::capped64(d + dropped_count(g@.versions, marks@, epoch, g@.versions.len() as int)),
        final(t).kept == segment::capped64(k + kept_bytes(encode_utf8(table@), g@, marks@, epoch, g@.versions.len() as int)),
{
    let ghost vs = g@.versions;
    let ghost tb = encode_utf8(table@);
    let flags = select_versions(&g.versions, marks, epoch);
    let mut have_put: bool = false;
    let mut i: usize = 0;
    while i < g.versions.len()
        invariant
            d >= 0,
            k >= 0,
            tb == encode_utf8(table@),
            vs == g@.versions,
            vs == model::views(g.versions@),
            i <= g.versions@.len(),
            flags@.len() == vs.len(),
            forall|x: int| 0 <= x < flags@.len() ==> #[trigger] flags@[x] == compact::selected(vs, marks@, epoch, x),
            have_put == exists|x: int| 0 <= x < i && #[trigger] compact::selected_put(vs, marks@, epoch, x),
            dropped_count(vs, marks@, epoch, i as int) >= 0,
            kept_bytes(tb, g@, marks@, epoch, i as int) >= 0,
            t.dropped == segment::capped64(d + dropped_count(vs, marks@, epoch, i as int)),
            t.kept == segment::capped64(k + kept_bytes(tb, g@, marks@, epoch, i as int)),
        decreases g.versions@.len() - i,
    {
        let v = &g.versions[i];
        assert(vs[i as int] == v@);
        assert(flags@[i as int] == compact::selected(vs, marks@, epoch, i as int));
        let dead: bool = v.is_tombstone();
        let stays: bool = flags[i] && (!dead || have_put);
        assert(stays == compact::retained(vs, marks@, epoch, i as int));
        if stays {
            let size: u64 = segment_entry_bytes(table, g.id.as_str(), v);
            assert(size == stored_bytes(tb, g@.id, vs[i as int]));
            t.kept = t.kept.saturating_add(size);
        } else {
            t.dropped = t.dropped.saturating_add(1);
        }
        if flags[i] && !dead {
            assert(compact::selected_put(vs, marks@, epoch, i as int));
            have_put = true;
        }
        i = i + 1;
    }
}

/// What compaction could remove while it keeps what the marks see.
pub open spec fn is_debt(st: &State, marks: Seq<u64>, parts: Seq<Seq<GroupView>>, r: Debt) -> bool {
    let n = parts.len() as int;
    &&& is_parts(st, parts)
    &&& r.operations == segment::capped64(all_dropped(st.catalog@, parts, marks, n))
    &&& r.bytes == ({
        let total = segment::capped64(total_len(st.metas@));
        let kept = segment::capped64(all_kept(st.catalog@, parts, marks, n));
        if total > kept {
            total - kept
        } else {
            0
        }
    })
}

proof fn lemma_parts_prefix(tables: Seq<TableView>, a: Seq<Seq<GroupView>>, b: Seq<Seq<GroupView>>, marks: Seq<u64>, n: int)
    requires
        n <= a.len() <= b.len(),
        forall|i: int| 0 <= i < a.len() ==> a[i] == #[trigger] b[i],
    ensures
        all_dropped(tables, a, marks, n) == all_dropped(tables, b, marks, n),
        all_kept(tables, a, marks, n) == all_kept(tables, b, marks, n),
    decreases n,
{
    if n > 0 {
        lemma_parts_prefix(tables, a, b, marks, n - 1);
        assert(a[n - 1] == b[n - 1]);
    }
}

/// Estimate what compaction could remove while it keeps what the marks see.
pub fn compaction_debt_estimate(st: &State, marks: &Vec<u64>) -> (r: Debt)
    requires
        st.wf(),
    ensures
        exists|parts: Seq<Seq<GroupView>>| #[trigger] is_debt(st, marks@, parts, r),
{
    let ghost tables = st.catalog@;
    let mut t = Tally { dropped: 0, kept: 0 };
    let ghost mut parts: Seq<Seq<GroupView>> = Seq::empty();
    let mut i: usize = 0;
    while i < st.catalog.tables.len()
        invariant
            st.wf(),
            tables == st.catalog@,
            i <= tables.len(),
            tables.len() == st.catalog.tables@.len(),
            parts.len() == i,
            forall|x: int| 0 <= x < parts.len() ==> is_readable_part(st, encode_utf8(tables[x].name), #[trigger] parts[x]),
            all_dropped(tables, parts, marks@, i as int) >= 0,
            all_kept(tables, parts, marks@, i as int) >= 0,
            t.dropped == segment::capped64(all_dropped(tables, parts, marks@, i as int)),
            t.kept == segment::capped64(all_kept(tables, parts, marks@, i as int)),
        decreases tables.len() - i,
    {
        let schema = &st.catalog.tables[i];
        assert(tables[i as int] == schema@);
        let name = schema.name.as_str();
        let epoch: u64 = schema.epoch;
        let ghost tb = encode_utf8(name@);
        assert(tb.len() <= u16::MAX) by {
            assert(crate::state::schema_fits(st.catalog@[i as int]));
        }
        let ghost d = all_dropped(tables, parts, marks@, i as int);
        let ghost k = all_kept(tables, parts, marks@, i as int);
        let walk = st.index.walk_table(name, None, None);
        let ghost groups = model::views(walk.groups@);
        proof {
            assert(visit::text_bytes(None::<&str>) == None::<Seq<u8>>);
            assert(is_readable_part(st, tb, groups));
            let before = parts;
            parts = parts.push(groups);
            lemma_parts_prefix(tables, before, parts, marks@, i as int);
            assert(parts[i as int] == groups);
            assert forall|x: int| 0 <= x < parts.len() implies is_readable_part(st, encode_utf8(tables[x].name), #[trigger] parts[x]) by {
                if x < i {
                    assert(parts[x] == before[x]);
                }
            }
        }
        let mut q: usize = 0;
        while q < walk.groups.len()
            invariant
                tb == encode_utf8(name@),
                groups == model::views(walk.groups@),
                q <= walk.groups@.len(),
                d >= 0,
                k >= 0,
                groups_dropped(groups, marks@, epoch, q as int) >= 0,
                groups_kept(tb, groups, marks@, epoch, q as int) >= 0,
                t.dropped == segment::capped64(d + groups_dropped(groups, marks@, epoch, q as int)),
                t.kept == segment::capped64(k + groups_kept(tb, groups, marks@, epoch, q as int)),
            decreases walk.groups@.len() - q,
        {
            let g = &walk.groups[q];
            assert(groups[q as int] == g@);
            tally_group(
                name,
                g,
                marks,
                epoch,
                &mut t,
                Ghost(d + groups_dropped(groups, marks@, epoch, q as int)),
                Ghost(k + groups_kept(tb, groups, marks@, epoch, q as int)),
            );
            q = q + 1;
        }
        i = i + 1;
    }
    let total: u64 = segment_bytes(&st.metas);
    let r = Debt { operations: t.dropped, bytes: total.saturating_sub(t.kept) };
    assert(is_debt(st, marks@, parts, r));
    r
}

// ---- Automatic compaction ---------------------------------------------------

pub open spec fn at_least(a: u64, b: u64) -> u64 {
    if a > b {
        a
    } else {
        b
    }
}

/// What is known of the debt, and of the attempts to pay it.
pub struct AutoCompaction {
    pub debt: Debt,
    pub scheduled: bool,
}

/// The share of the segments, in percent, that compaction could remove.
pub open spec fn reclaim_percent(bytes: u64, total: u64) -> int
    recommends
        total > 0,
{
    bytes as int * 100 / total as int
}

impl AutoCompaction {
    pub fn new() -> (r: AutoCompaction)
        ensures
            r.debt == (Debt { operations: 0, bytes: 0 }),
            !r.scheduled,
    {
        AutoCompaction { debt: Debt { operations: 0, bytes: 0 }, scheduled: false }
    }

    /// Commits have superseded versions.
    pub fn record_obsolete(&mut self, operations: u64, bytes: u64)
        ensures
            final(self).scheduled == old(self).scheduled,
            operations == 0 ==> final(self).debt == old(self).debt,
            operations > 0 ==> final(self).debt.operations == segment::capped64(old(self).debt.operations + operations)
                && final(self).debt.bytes == segment::capped64(old(self).debt.bytes + bytes),
    {
        if operations > 0 {
            self.debt = Debt {
                operations: self.debt.operations.saturating_add(operations),
                bytes: self.debt.bytes.saturating_add(bytes),
            };
        }
    }

    /// A new estimate arrived; the operations never go down on its account.
    pub fn refresh_compaction_debt(&mut self, estimate: Debt)
        ensures
            final(self).scheduled == old(self).scheduled,
            final(self).debt.operations == at_least(old(self).debt.operations, estimate.operations),
            final(self).debt.bytes == estimate.bytes,
    {
        let operations: u64 = if self.debt.operations > estimate.operations {
            self.debt.operations
        } else {
            estimate.operations
        };
        self.debt = Debt { operations, bytes: estimate.bytes };
    }

    /// Compaction has run: the debt is what is left.
    pub fn reset_compaction_debt(&mut self, estimate: Debt)
        ensures
            final(self).scheduled == old(self).scheduled,
            final(self).debt == estimate,
    {
        self.debt = estimate;
    }

    /// Compaction is worth its cost. `since_last` is the time since the last
    /// attempt in nanoseconds.
    pub open spec fn needed(
        &self,
        options: &AutoCompactionOptions,
        read_only: bool,
        segments: int,
        total: u64,
        since_last: Option<u128>,
    ) -> bool {
        &&& !read_only && options.enabled
        &&& since_last matches Some(t) ==> t >= options.min_interval_ms * 1_000_000
        &&& (segments >= options.max_segments || self.debt.bytes >= options.force_reclaim_bytes || (self.debt.operations
            >= options.min_obsolete_operations && total > 0 && reclaim_percent(self.debt.bytes, total)
            >= options.min_reclaim_ratio_percent))
    }

    pub fn auto_compaction_needed(
        &self,
        options: &AutoCompactionOptions,
        read_only: bool,
        metas: &Vec<SegmentMeta>,
        since_last: Option<u128>,
    ) -> (r: bool)
        ensures
            r == self.needed(
                options,
                read_only,
                metas@.len() as int,
                segment::capped64(total_len(metas@)) as u64,
                since_last,
            ),
    {
        let total: u64 = segment_bytes(metas);
        if read_only || !options.enabled {
            return false;
        }
        match since_last {
            Some(t) => {
                if t < options.min_interval_ms as u128 * 1_000_000 {
                    return false;
                }
            },
            None => {},
        }
        if metas.len() >= options.max_segments {
            return true;
        }
        if self.debt.bytes >= options.force_reclaim_bytes {
            return true;
        }
        if self.debt.operations < options.min_obsolete_operations || total == 0 {
            return false;
        }
        let ratio: u128 = (self.debt.bytes as u128 * 100) / total as u128;
        ratio >= options.min_reclaim_ratio_percent as u128
    }

    /// Whether a job is to be sent: compaction is needed, someone takes jobs,
    /// and none is on its way.
    pub fn maybe_schedule(&mut self, needed: bool, worker: bool) -> (r: bool)
        ensures
            r == (needed && worker && !old(self).scheduled),
            final(self).debt == old(self).debt,
            final(self).scheduled == (old(self).scheduled || r),
    {
        if needed && worker && !self.scheduled {
            self.scheduled = true;
            return true;
        }
        false
    }

    /// The job was not taken, or is done.
    pub fn clear_schedule(&mut self)
        ensures
            final(self).debt == old(self).debt,
            !final(self).scheduled,
    {
        self.scheduled = false;
    }
}

impl Snapshots {
    /// Whether an estimate is due; asking settles it.
    pub fn take_refresh(&mut self) -> (r: bool)
        ensures
            r == old(self).refresh_needed,
            !final(self).refresh_needed,
            final(self).held == old(self).held,
            final(self).retained == old(self).retained,
    {
        let due: bool = self.refresh_needed;
        self.refresh_needed = false;
        due
    }
}

} // verus!
