//! Keeping vector graphs in step with the records: what a stored graph lacks,
//! and what a graph may take up.

use crate::catalog::{dotted, dotted_text};
use crate::derived;
use crate::error::{corrupt, Error, ErrorView};
use crate::model;
use crate::primary;
use crate::segment::{self, read_record_kind};
use crate::state::State;
use crate::text::{self, decimal_text};
use crate::value::{Value, ValueView};
use crate::visit::{Group, GroupView};
use vstd::prelude::*;
use vstd::string::*;
use vstd::utf8::*;

verus! {

/// What is to be done to a graph for one record: its vector is put in, or it is
/// taken out.
pub struct GraphChange {
    pub id: String,
    pub vector: Option<Vec<u32>>,
    /// The version that the graph has with the change.
    pub version: u64,
}

#[verifier::ext_equal]
pub struct GraphChangeView {
    pub id: Seq<u8>,
    pub vector: Option<Seq<u32>>,
    pub version: u64,
}

impl View for GraphChange {
    type V = GraphChangeView;

    open spec fn view(&self) -> GraphChangeView {
        GraphChangeView {
            id: encode_utf8(self.id@),
            vector: match self.vector {
                Some(v) => Some(v@),
                None => None,
            },
            version: self.version,
        }
    }
}

/// The vector that a record has in a column.
pub open spec fn vector_in(st: &State, g: GroupView, column: Seq<char>) -> Result<Option<Seq<u32>>, ErrorView> {
    if g.versions.last().kind.is_tombstone() {
        Ok(None)
    } else {
        match segment::record_of(st.images(), st.blobs@, g.versions.last().kind) {
            Err(e) => Err(e),
            Ok(rec) => match crate::record::value_in(rec, encode_utf8(column)) {
                ValueView::Vector(v) => Ok(Some(v)),
                _ => Ok(None),
            },
        }
    }
}

/// What one record means to a graph that was stored at a version.
pub open spec fn change_since(st: &State, g: GroupView, column: Seq<char>, since: u64) -> Result<Option<GraphChangeView>, ErrorView> {
    if g.versions.len() == 0 || g.versions.last().version <= since {
        Ok(None)
    } else {
        match vector_in(st, g, column) {
            Err(e) => Err(e),
            Ok(vector) => Ok(Some(GraphChangeView { id: g.id, vector, version: g.versions.last().version })),
        }
    }
}

/// What the first records of a listing mean to the graph.
pub open spec fn changes_since(st: &State, groups: Seq<GroupView>, column: Seq<char>, since: u64, n: int) -> Result<
    Seq<GraphChangeView>,
    ErrorView,
>
    decreases n,
{
    if n <= 0 {
        Ok(Seq::empty())
    } else {
        match changes_since(st, groups, column, since, n - 1) {
            Err(e) => Err(e),
            Ok(done) => match change_since(st, groups[n - 1], column, since) {
                Err(e) => Err(e),
                Ok(None) => Ok(done),
                Ok(Some(c)) => Ok(done.push(c)),
            },
        }
    }
}

proof fn lemma_changes_prefix(st: &State, groups: Seq<GroupView>, column: Seq<char>, since: u64, n: int)
    requires
        0 <= n <= groups.len(),
    ensures
        changes_since(st, groups, column, since, n) matches Err(e) ==> changes_since(st, groups, column, since, groups.len() as int)
            == Err::<Seq<GraphChangeView>, ErrorView>(e),
    decreases groups.len() - n,
{
    if n < groups.len() {
        lemma_changes_prefix(st, groups, column, since, n + 1);
    }
}

fn copy_vector(v: &Vec<u32>) -> (r: Vec<u32>)
    ensures
        r@ == v@,
{
    let mut out: Vec<u32> = Vec::new();
    let mut i: usize = 0;
    while i < v.len()
        invariant
            i <= v@.len(),
            out@ == v@.subrange(0, i as int),
        decreases v@.len() - i,
    {
        out.push(v[i]);
        assert(out@ =~= v@.subrange(0, i + 1));
        i = i + 1;
    }
    assert(v@.subrange(0, i as int) =~= v@);
    out
}

fn group_change(st: &State, g: &Group, column: &str, since: u64) -> (r: Result<Option<GraphChange>, Error>)
    requires
        st.wf(),
    ensures
        match change_since(st, g@, column@, since) {
            Err(e) => r is Err && r->Err_0@ == e,
            Ok(None) => r matches Ok(None),
            Ok(Some(c)) => r matches Ok(Some(got)) && got@ == c,
        },
{
    let n: usize = g.versions.len();
    if n == 0 {
        return Ok(None);
    }
    let last = &g.versions[n - 1];
    assert(g@.versions.last() == last@);
    if last.version <= since {
        return Ok(None);
    }
    if last.is_tombstone() {
        let c = GraphChange { id: g.id.clone(), vector: None, version: last.version };
        assert(c@ =~= change_since(st, g@, column@, since)->Ok_0->0);
        return Ok(Some(c));
    }
    match read_record_kind(&st.blobs, &st.segments, &last.kind) {
        Err(e) => Err(e),
        Ok(rec) => {
            let vector = match rec.get(column.as_bytes()) {
                Some(Value::Vector(v)) => Some(copy_vector(v)),
                _ => None,
            };
            let c = GraphChange { id: g.id.clone(), vector, version: last.version };
            assert(c@ =~= change_since(st, g@, column@, since)->Ok_0->0);
            Ok(Some(c))
        },
    }
}

/// What a stored graph lacks: a change for every record that has a version past
/// the one that the graph was stored at, in the order of the ids.
pub fn catch_up(st: &State, table: &str, column: &str, since: u64) -> (r: Result<Vec<GraphChange>, Error>)
    requires
        st.wf(),
        encode_utf8(table@).len() <= u32::MAX,
    ensures
        match r {
            Ok(list) => exists|groups: Seq<GroupView>|
                #[trigger] derived::lists_table(st, table@, groups) && changes_since(
                    st,
                    groups,
                    column@,
                    since,
                    groups.len() as int,
                ) == Ok::<Seq<GraphChangeView>, ErrorView>(model::views(list@)),
            Err(e) => {
                ||| exists|key: Seq<u8>, m: Seq<char>|
                    #[trigger] st.index.is_fault(encode_utf8(table@), key, m) && e@ == ErrorView::Corrupt(m)
                ||| exists|groups: Seq<GroupView>|
                    #[trigger] derived::lists_table(st, table@, groups) && changes_since(
                        st,
                        groups,
                        column@,
                        since,
                        groups.len() as int,
                    ) == Err::<Seq<GraphChangeView>, ErrorView>(e@)
            },
        },
{
    let groups = match st.index.visit_table(table, None, None) {
        Err(e) => {
            return Err(e);
        },
        Ok(groups) => groups,
    };
    let ghost gv = model::views(groups@);
    assert(derived::lists_table(st, table@, gv));
    let mut out: Vec<GraphChange> = Vec::new();
    let mut i: usize = 0;
    assert(model::views(out@) =~= Seq::<GraphChangeView>::empty());
    while i < groups.len()
        invariant
            st.wf(),
            i <= groups@.len(),
            gv == model::views(groups@),
            derived::lists_table(st, table@, gv),
            changes_since(st, gv, column@, since, i as int) == Ok::<Seq<GraphChangeView>, ErrorView>(model::views(out@)),
        decreases groups@.len() - i,
    {
        let ghost before = model::views(out@);
        proof {
            assert(gv[i as int] == groups@[i as int]@);
            lemma_changes_prefix(st, gv, column@, since, i + 1);
        }
        match group_change(st, &groups[i], column, since) {
            Err(e) => {
                let done: Result<Vec<GraphChange>, Error> = Err(e);
                assert(changes_since(st, gv, column@, since, gv.len() as int) == Err::<Seq<GraphChangeView>, ErrorView>(
                    done->Err_0@,
                ));
                return done;
            },
            Ok(None) => {},
            Ok(Some(c)) => {
                out.push(c);
                assert(model::views(out@) =~= before.push(c@));
            },
        }
        i = i + 1;
    }
    Ok(out)
}

/// Whether a record that a graph holds is gone, its records compacted away
/// included. What was stored before the table's epoch counts here.
pub fn is_gone(st: &State, table: &str, id: &str) -> (r: Result<bool, Error>)
    requires
        st.wf(),
        encode_utf8(table@).len() <= u32::MAX,
    ensures
        match st.versions(table@, encode_utf8(id@)) {
            Err(m) => r is Err && r->Err_0@ == ErrorView::Corrupt(m),
            Ok(s) => r == Ok::<bool, Error>(
                match primary::newest_of(s, u64::MAX) {
                    Some(v) => v.kind.is_tombstone(),
                    None => true,
                },
            ),
        },
{
    match st.index.latest(table, id) {
        Err(e) => Err(e),
        Ok(None) => Ok(true),
        Ok(Some(v)) => Ok(v.is_tombstone()),
    }
}

/// Whether a stored graph may be caught up. One from the future, which can be
/// left by going back to an earlier manifest, is made anew.
pub fn dump_usable(dump_version: Option<u64>, committed: u64) -> (r: bool)
    ensures
        r == (dump_version matches Some(v) && v <= committed),
{
    match dump_version {
        Some(v) => v <= committed,
        None => false,
    }
}

/// Whether a stored graph has the form that is mapped into memory.
pub fn is_mapped_form(data: &[u8]) -> (r: bool)
    ensures
        r == (data@.len() >= 12 && data@.subrange(8, 12) == seq![4u8, 0, 0, 0]),
{
    if data.len() < 12 {
        return false;
    }
    let r = data[8] == 4 && data[9] == 0 && data[10] == 0 && data[11] == 0;
    proof {
        let s = data@.subrange(8, 12);
        assert(s[0] == data@[8] && s[1] == data@[9] && s[2] == data@[10] && s[3] == data@[11]);
        if r {
            assert(s =~= seq![4u8, 0, 0, 0]);
        }
    }
    r
}

/// A graph that is made from the records may not outgrow the memory for it.
pub fn check_graph_build(table: &str, column: &str, bytes: usize, budget: usize) -> (r: Result<(), Error>)
    ensures
        r is Ok <==> bytes <= budget,
        r matches Err(e) ==> e@ == ErrorView::MemoryLimit(
            "building vector index "@ + dotted(table@, column@) + " exceeds the "@ + text::decimal(budget as nat)
                + "-byte maintenance pool; raise memory.maintenance_pool_bytes"@,
        ),
{
    if bytes > budget {
        let n = decimal_text(budget as u64);
        return Err(
            Error::MemoryLimit(
                "building vector index ".to_owned().concat(dotted_text(table, column).as_str()).concat(" exceeds the ").concat(
                    n.as_str(),
                ).concat("-byte maintenance pool; raise memory.maintenance_pool_bytes"),
            ),
        );
    }
    Ok(())
}

/// What the graphs retain may not exceed the pool.
pub fn check_graphs_retained(before: usize, bytes: usize, limit: usize) -> (r: Result<(), Error>)
    ensures
        ({
            let retained = crate::record::capped(before + bytes);
            if retained > limit {
                r is Err && r->Err_0@ == ErrorView::MemoryLimit(
                    "vector index deltas need an estimated "@ + text::decimal(retained as nat)
                        + " bytes, exceeding memory.index_delta_pool_bytes ("@ + text::decimal(limit as nat) + ")"@,
                )
            } else {
                r is Ok
            }
        }),
{
    let retained: usize = before.saturating_add(bytes);
    if retained > limit {
        let a = decimal_text(retained as u64);
        let b = decimal_text(limit as u64);
        return Err(
            Error::MemoryLimit(
                "vector index deltas need an estimated ".to_owned().concat(a.as_str()).concat(
                    " bytes, exceeding memory.index_delta_pool_bytes (",
                ).concat(b.as_str()).concat(")"),
            ),
        );
    }
    Ok(())
}

/// A graph that was just written has the version that it was written at.
pub fn check_graph_version(rewritten: bool, stored: u64, written: u64) -> (r: Result<(), Error>)
    ensures
        r is Ok <==> stored == written,
        r matches Err(e) ==> e@ == ErrorView::Corrupt(
            if rewritten {
                "rewritten vector index has the wrong generation"@
            } else {
                "rebuilt vector index has the wrong generation"@
            },
        ),
{
    if stored != written {
        if rewritten {
            return Err(corrupt("rewritten vector index has the wrong generation"));
        }
        return Err(corrupt("rebuilt vector index has the wrong generation"));
    }
    Ok(())
}

} // verus!
