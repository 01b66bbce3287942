//! Walking the records of a table in the order of their ids.

use crate::bytes;
use crate::cow;
use crate::error::{Error, ErrorView};
use crate::model;
use crate::order::OrderedKey;
use crate::pairs;
use crate::primary::{self, group_versions, PrimaryDelta, PrimaryIdx, Versions};
use crate::record;
use crate::secondary::has_room;
use crate::version::{self, decode_primary_key, primary_key, primary_table_prefix, KindView, VKind, VersionEntry, VersionView};
use vstd::prelude::*;
use vstd::utf8::*;

verus! {

/// One record of a table: its id and its versions, the oldest first.
pub struct Group {
    pub id: String,
    pub versions: Vec<VersionEntry>,
}

#[verifier::ext_equal]
pub struct GroupView {
    pub id: Seq<u8>,
    pub versions: Seq<VersionView>,
}

impl View for Group {
    type V = GroupView;

    open spec fn view(&self) -> GroupView {
        GroupView { id: encode_utf8(self.id@), versions: model::views(self.versions@) }
    }
}

/// How far a walk came: the records that it reached, and what stopped it.
pub struct Walk {
    pub groups: Vec<Group>,
    pub fault: Option<Error>,
}

/// The ids that a walk is to reach: those after `after`, or all.
pub open spec fn id_wanted(after: Option<Seq<u8>>, id: Seq<u8>) -> bool {
    match after {
        Some(a) => bytes::lex_lt(a, id),
        None => true,
    }
}

pub open spec fn text_bytes(s: Option<&str>) -> Option<Seq<u8>> {
    match s {
        Some(s) => Some(encode_utf8(s@)),
        None => None,
    }
}

impl PrimaryIdx {
    /// Whether the index has a record of a table.
    pub open spec fn has_record(&self, table: Seq<u8>, id: Seq<u8>) -> bool {
        self.holds(version::key_of(table, id))
    }

    /// Every key of the runs names a table and an id, and every entry is a version.
    pub open spec fn sound(&self) -> bool {
        forall|key: Seq<u8>| #[trigger] self.holds(key) ==> version::key_parts(key) is Ok && self.entries(key) is Ok
    }

    /// `groups` lists the records of a table in the order of their ids: the
    /// first `limit` of those that are wanted, or all of them.
    pub open spec fn is_listing(&self, table: Seq<u8>, after: Option<Seq<u8>>, limit: Option<usize>, groups: Seq<GroupView>) -> bool {
        &&& limit matches Some(l) ==> groups.len() <= l
        &&& forall|i: int| 0 <= i < groups.len() ==> self.is_record(table, after, #[trigger] groups[i])
        &&& forall|i: int, j: int| 0 <= i < j < groups.len() ==> bytes::lex_lt(
            (#[trigger] groups[i]).id,
            (#[trigger] groups[j]).id,
        )
        &&& forall|id: Seq<u8>|
            #[trigger] self.has_record(table, id) && id_wanted(after, id) ==> lists_id(groups, id) || (limit == Some(
                groups.len() as usize,
            ) && groups.len() <= usize::MAX && (groups.len() > 0 ==> bytes::lex_lt(groups.last().id, id)))
    }

    /// `g` is a wanted record of the table with all its versions.
    pub open spec fn is_record(&self, table: Seq<u8>, after: Option<Seq<u8>>, g: GroupView) -> bool {
        &&& self.has_record(table, g.id)
        &&& valid_utf8(g.id)
        &&& id_wanted(after, g.id)
        &&& self.entries(version::key_of(table, g.id)) matches Ok(s) && primary::is_group(g.versions, s)
    }

    /// What is wrong with a record of the table that the walk reaches.
    pub open spec fn is_fault(&self, table: Seq<u8>, key: Seq<u8>, m: Seq<char>) -> bool {
        &&& self.holds(key)
        &&& version::table_prefix(table).is_prefix_of(key)
        &&& version::key_parts(key) == Err::<(Seq<u8>, Seq<u8>), Seq<char>>(m) || self.entries(key) == Err::<
            Seq<VersionView>,
            Seq<char>,
        >(m)
    }

    /// A walk that listed `groups` and has room for more comes next to a key that
    /// cannot be read.
    pub open spec fn stops_at(
        &self,
        table: Seq<u8>,
        after: Option<Seq<u8>>,
        limit: Option<usize>,
        groups: Seq<GroupView>,
        key: Seq<u8>,
        m: Seq<char>,
    ) -> bool {
        &&& self.is_fault(table, key, m)
        &&& self.is_listing(table, after, Some(groups.len() as usize), groups)
        &&& limit matches Some(l) ==> groups.len() < l
        &&& after matches Some(a) ==> bytes::lex_lt(version::key_of(table, a), key)
        &&& groups.len() > 0 ==> bytes::lex_lt(version::key_of(table, groups.last().id), key)
        &&& forall|id: Seq<u8>|
            #[trigger] self.has_record(table, id) && id_wanted(after, id) ==> lists_id(groups, id) || bytes::lex_le(
                key,
                version::key_of(table, id),
            )
    }

    /// List the records of a table whose ids stand after `after`, the first
    /// `limit` of them or all.
    pub fn visit_table(&self, table: &str, after: Option<&str>, limit: Option<usize>) -> (r: Result<Vec<Group>, Error>)
        requires
            self.wf(),
            encode_utf8(table@).len() <= u32::MAX,
        ensures
            r matches Ok(groups) ==> self.is_listing(
                encode_utf8(table@),
                text_bytes(after),
                limit,
                model::views(groups@),
            ),
            r matches Err(e) ==> exists|key: Seq<u8>, m: Seq<char>|
                #[trigger] self.is_fault(encode_utf8(table@), key, m) && e@ == ErrorView::Corrupt(m),
            r matches Err(e) ==> exists|groups: Seq<GroupView>, key: Seq<u8>, m: Seq<char>|
                #[trigger] self.stops_at(encode_utf8(table@), text_bytes(after), limit, groups, key, m) && e@ == ErrorView::Corrupt(m),
    {
        let Walk { groups, fault } = self.walk_table(table, after, limit);
        match fault {
            None => Ok(groups),
            Some(e) => {
                proof {
                    let t = encode_utf8(table@);
                    let gv = model::views(groups@);
                    let (key, m) = choose|key: Seq<u8>, m: Seq<char>|
                        #[trigger] self.stops_at(t, text_bytes(after), limit, gv, key, m) && e@ == ErrorView::Corrupt(m);
                    assert(self.is_fault(t, key, m));
                }
                Err(e)
            },
        }
    }

    /// The same, with the records that stand before the first one that cannot
    /// be read.
    pub fn walk_table(&self, table: &str, after: Option<&str>, limit: Option<usize>) -> (r: Walk)
        requires
            self.wf(),
            encode_utf8(table@).len() <= u32::MAX,
        ensures
            r.fault is None ==> self.is_listing(encode_utf8(table@), text_bytes(after), limit, model::views(r.groups@)),
            r.fault matches Some(e) ==> exists|key: Seq<u8>, m: Seq<char>|
                #[trigger] self.stops_at(encode_utf8(table@), text_bytes(after), limit, model::views(r.groups@), key, m) && e@
                    == ErrorView::Corrupt(m),
    {
        let ghost t = encode_utf8(table@);
        let ghost wanted = text_bytes(after);
        let prefix = primary_table_prefix(table);
        let mut from: Vec<u8>;
        let mut inclusive: bool;
        match after {
            Some(a) => {
                from = primary_key(table, a);
                inclusive = false;
            },
            None => {
                from = bytes::copy_of(prefix.as_slice());
                inclusive = true;
            },
        }
        let mut out: Vec<Group> = Vec::new();
        proof {
            assert(prefix@.is_prefix_of(from@)) by {
                assert(from@.subrange(0, prefix@.len() as int) =~= prefix@);
            }
            assert forall|id: Seq<u8>| id_wanted(wanted, id) <==> #[trigger] primary::stands_past(
                from@,
                inclusive,
                version::key_of(t, id),
            ) by {
                lemma_wanted(t, wanted, id);
            }
            assert(model::views(out@) =~= Seq::<GroupView>::empty());
        }
        let mut done: bool = false;
        while !done && has_room(out.len(), limit)
            invariant
                self.wf(),
                limit matches Some(l) ==> out@.len() <= l,
                t == encode_utf8(table@),
                t.len() <= u32::MAX,
                wanted == text_bytes(after),
                prefix@ == version::table_prefix(t),
                prefix@.is_prefix_of(from@),
                forall|i: int| 0 <= i < out@.len() ==> self.is_record(t, wanted, #[trigger] model::views(out@)[i]),
                forall|i: int, j: int| 0 <= i < j < out@.len() ==> bytes::lex_lt(
                    (#[trigger] model::views(out@)[i]).id,
                    (#[trigger] model::views(out@)[j]).id,
                ),
                out@.len() > 0 ==> !inclusive && from@ == version::key_of(t, model::views(out@).last().id),
                out@.len() == 0 ==> (wanted matches Some(a) ==> !inclusive && from@ == version::key_of(t, a)),
                out@.len() == 0 ==> forall|id: Seq<u8>|
                    id_wanted(wanted, id) <==> #[trigger] primary::stands_past(from@, inclusive, version::key_of(t, id)),
                forall|id: Seq<u8>|
                    #[trigger] self.has_record(t, id) && id_wanted(wanted, id) ==> lists_id(model::views(out@), id) || (!done
                        && primary::stands_past(from@, inclusive, version::key_of(t, id))),
            decreases self.ahead(from@, inclusive), (if done { 0int } else { 1int }),
        {
            match self.next_key(prefix.as_slice(), from.as_slice(), inclusive) {
                None => {
                    proof {
                        assert forall|id: Seq<u8>| #[trigger] self.has_record(t, id) && id_wanted(wanted, id) implies lists_id(
                            model::views(out@),
                            id,
                        ) by {
                            lemma_has_prefix(t, id);
                            assert(self.holds(version::key_of(t, id)));
                        }
                    }
                    done = true;
                },
                Some(key) => {
                    proof {
                        self.lemma_ahead(from@, inclusive, key@);
                    }
                    let (_, id) = match decode_primary_key(key.as_slice()) {
                        Ok(p) => p,
                        Err(e) => {
                            proof {
                                self.lemma_stopped(
                                    t,
                                    wanted,
                                    limit,
                                    model::views(out@),
                                    from@,
                                    inclusive,
                                    key@,
                                    version::key_parts(key@)->Err_0,
                                );
                            }
                            let ended = Walk { groups: out, fault: Some(e) };
                            assert(self.stops_at(t, wanted, limit, model::views(ended.groups@), key@, version::key_parts(key@)->Err_0));
                            return ended;
                        },
                    };
                    let list = match self.collect(key.as_slice()) {
                        Ok(list) => list,
                        Err(e) => {
                            proof {
                                self.lemma_stopped(
                                    t,
                                    wanted,
                                    limit,
                                    model::views(out@),
                                    from@,
                                    inclusive,
                                    key@,
                                    self.entries(key@)->Err_0,
                                );
                            }
                            let ended = Walk { groups: out, fault: Some(e) };
                            assert(self.stops_at(t, wanted, limit, model::views(ended.groups@), key@, self.entries(key@)->Err_0));
                            return ended;
                        },
                    };
                    let versions = group_versions(list);
                    let ghost before = model::views(out@);
                    let g = Group { id, versions };
                    let ghost gv = g@;
                    proof {
                        lemma_key_of_prefix(t, key@);
                        assert(key@ == version::key_of(t, gv.id));
                        encode_utf8_valid_utf8(g.id@);
                        if before.len() > 0 {
                            version::lemma_key_order(t, before.last().id, gv.id);
                            if wanted is Some {
                                assert(self.is_record(t, wanted, before[before.len() - 1]));
                                bytes::lemma_lex_transitive(wanted->0, before.last().id, gv.id);
                            }
                        }
                        assert(self.is_record(t, wanted, gv));
                    }
                    out.push(g);
                    proof {
                        let now = model::views(out@);
                        assert(now =~= before.push(gv));
                        assert forall|i: int, j: int| 0 <= i < j < now.len() implies bytes::lex_lt(
                            (#[trigger] now[i]).id,
                            (#[trigger] now[j]).id,
                        ) by {
                            if j == before.len() && i < before.len() - 1 {
                                assert(bytes::lex_lt(before[i].id, before.last().id));
                                bytes::lemma_lex_transitive(before[i].id, before.last().id, gv.id);
                            }
                        }
                        assert forall|id: Seq<u8>| #[trigger] self.has_record(t, id) && id_wanted(wanted, id) implies lists_id(
                            now,
                            id,
                        ) || primary::stands_past(key@, false, version::key_of(t, id)) by {
                            if lists_id(before, id) {
                                let i = choose|i: int| 0 <= i < before.len() && (#[trigger] before[i]).id == id;
                                assert(now[i].id == id);
                            } else {
                                lemma_has_prefix(t, id);
                                assert(self.holds(version::key_of(t, id)));
                                assert(bytes::lex_le(key@, version::key_of(t, id)));
                                if key@ == version::key_of(t, id) {
                                    version::lemma_key_order(t, gv.id, id);
                                    assert(now[before.len() as int].id == id);
                                }
                            }
                        }
                    }
                    from = key;
                    inclusive = false;
                },
            }
        }
        proof {
            let groups = model::views(out@);
            assert forall|id: Seq<u8>| #[trigger] self.has_record(t, id) && id_wanted(wanted, id) implies lists_id(groups, id) || (
            limit == Some(groups.len() as usize) && groups.len() <= usize::MAX && (groups.len() > 0 ==> bytes::lex_lt(groups.last().id, id))) by {
                if !lists_id(groups, id) && groups.len() > 0 {
                    version::lemma_key_order(t, groups.last().id, id);
                }
            }
        }
        Walk { groups: out, fault: None }
    }

    /// A walk that stopped has listed the first of the records, and comes next to
    /// the key that stopped it.
    proof fn lemma_stopped(
        &self,
        t: Seq<u8>,
        wanted: Option<Seq<u8>>,
        limit: Option<usize>,
        groups: Seq<GroupView>,
        from: Seq<u8>,
        inclusive: bool,
        key: Seq<u8>,
        m: Seq<char>,
    )
        requires
            groups.len() <= usize::MAX,
            limit matches Some(l) ==> groups.len() < l,
            self.is_next(version::table_prefix(t), from, inclusive, key),
            self.is_fault(t, key, m),
            groups.len() == 0 ==> (wanted matches Some(a) ==> !inclusive && from == version::key_of(t, a)),
            forall|i: int| 0 <= i < groups.len() ==> self.is_record(t, wanted, #[trigger] groups[i]),
            forall|i: int, j: int| 0 <= i < j < groups.len() ==> bytes::lex_lt(
                (#[trigger] groups[i]).id,
                (#[trigger] groups[j]).id,
            ),
            groups.len() > 0 ==> !inclusive && from == version::key_of(t, groups.last().id),
            forall|id: Seq<u8>|
                #[trigger] self.has_record(t, id) && id_wanted(wanted, id) ==> lists_id(groups, id) || primary::stands_past(
                    from,
                    inclusive,
                    version::key_of(t, id),
                ),
        ensures
            self.stops_at(t, wanted, limit, groups, key, m),
    {
        assert forall|id: Seq<u8>| #[trigger] self.has_record(t, id) && id_wanted(wanted, id) implies lists_id(groups, id) || (
        bytes::lex_le(key, version::key_of(t, id)) && (groups.len() > 0 ==> bytes::lex_lt(groups.last().id, id))) by {
            if !lists_id(groups, id) {
                lemma_has_prefix(t, id);
                assert(self.holds(version::key_of(t, id)));
                if groups.len() > 0 {
                    version::lemma_key_order(t, groups.last().id, id);
                }
            }
        }
        if wanted is Some && groups.len() > 0 {
            assert(self.is_record(t, wanted, groups[groups.len() - 1]));
            version::lemma_key_order(t, wanted->0, groups.last().id);
            bytes::lemma_lex_transitive(version::key_of(t, wanted->0), from, key);
        }
    }
}

pub open spec fn lists_id(groups: Seq<GroupView>, id: Seq<u8>) -> bool {
    exists|i: int| 0 <= i < groups.len() && (#[trigger] groups[i]).id == id
}

proof fn lemma_has_prefix(t: Seq<u8>, id: Seq<u8>)
    ensures
        version::table_prefix(t).is_prefix_of(version::key_of(t, id)),
{
    let p = version::table_prefix(t);
    assert(version::key_of(t, id).subrange(0, p.len() as int) =~= p);
}

proof fn lemma_wanted(t: Seq<u8>, after: Option<Seq<u8>>, id: Seq<u8>)
    ensures
        match after {
            Some(a) => id_wanted(after, id) <==> primary::stands_past(version::key_of(t, a), false, version::key_of(t, id)),
            None => primary::stands_past(version::table_prefix(t), true, version::key_of(t, id)),
        },
{
    match after {
        Some(a) => {
            version::lemma_key_order(t, a, id);
        },
        None => {
            lemma_has_prefix(t, id);
            bytes::lemma_prefix_le(version::table_prefix(t), version::key_of(t, id));
        },
    }
}

/// A key that begins as the keys of a table do, and names a table and an id,
/// names that table.
pub proof fn lemma_key_of_prefix(t: Seq<u8>, key: Seq<u8>)
    requires
        t.len() <= u32::MAX,
        version::table_prefix(t).is_prefix_of(key),
        version::key_parts(key) is Ok,
    ensures
        version::key_parts(key) == Ok::<(Seq<u8>, Seq<u8>), Seq<char>>((t, version::key_parts(key)->Ok_0.1)),
        key == version::key_of(t, version::key_parts(key)->Ok_0.1),
{
    let p = version::table_prefix(t);
    bytes::lemma_radix_small();
    bytes::lemma_be_len(t.len(), 4);
    bytes::lemma_be_round_trip(t.len(), 4);
    assert(key.subrange(0, p.len() as int) =~= p);
    assert(key.subrange(0, 4) =~= p.subrange(0, 4));
    assert(p.subrange(0, 4) =~= bytes::be(t.len(), 4));
    assert(key.subrange(4, (4 + t.len()) as int) =~= p.subrange(4, (4 + t.len()) as int));
    assert(p.subrange(4, (4 + t.len()) as int) =~= t);
    assert(key =~= version::key_of(t, key.subrange((4 + t.len()) as int, key.len() as int)));
}

// ---- Dropping a table from the delta ----------------------------------------

/// The entries whose keys do not have a prefix.
pub open spec fn without_prefix(m: Map<Seq<u8>, Seq<VersionView>>, prefix: Seq<u8>) -> Map<Seq<u8>, Seq<VersionView>> {
    Map::new(|k: Seq<u8>| m.contains_key(k) && !prefix.is_prefix_of(k), |k: Seq<u8>| m[k])
}

impl PrimaryIdx {
    /// Forget the resident versions of a table.
    pub fn remove_delta_table(&mut self, table: &str)
        requires
            old(self).wf(),
            encode_utf8(table@).len() <= u32::MAX,
        ensures
            final(self).wf(),
            final(self).generation == old(self).generation,
            final(self).runs == old(self).runs,
            final(self).frozen == old(self).frozen,
            final(self).delta@ == without_prefix(old(self).delta@, version::table_prefix(encode_utf8(table@))),
    {
        let prefix = primary_table_prefix(table);
        let ghost before = self.delta@;
        let ghost s = self.delta.pairs();
        proof {
            self.delta.lemma_wf();
        }
        let mut doomed: Vec<Vec<u8>> = Vec::new();
        {
            let listed = self.delta.keys();
            let mut i: usize = 0;
            while i < listed.len()
                invariant
                    i <= listed@.len() == s.len(),
                    forall|j: int| 0 <= j < listed@.len() ==> (#[trigger] listed@[j]).rank() == s[j].0,
                    forall|j: int| 0 <= j < doomed@.len() ==> prefix@.is_prefix_of((#[trigger] doomed@[j])@),
                    forall|j: int| 0 <= j < i && prefix@.is_prefix_of((#[trigger] s[j]).0) ==> exists|d: int|
                        0 <= d < doomed@.len() && (#[trigger] doomed@[d])@ == s[j].0,
                decreases listed@.len() - i,
            {
                let key: &Vec<u8> = listed[i];
                let ghost was = doomed@;
                assert(key@ == s[i as int].0);
                if bytes::starts_with(key.as_slice(), prefix.as_slice()) {
                    doomed.push(bytes::copy_of(key.as_slice()));
                    assert(doomed@[was.len() as int]@ == s[i as int].0);
                }
                proof {
                    assert forall|j: int| 0 <= j < i + 1 && prefix@.is_prefix_of((#[trigger] s[j]).0) implies exists|d: int|
                        0 <= d < doomed@.len() && (#[trigger] doomed@[d])@ == s[j].0 by {
                        if j < i {
                            let d = choose|d: int| 0 <= d < was.len() && (#[trigger] was[d])@ == s[j].0;
                            assert(doomed@[d]@ == s[j].0);
                        }
                    }
                }
                i = i + 1;
            }
        }
        let mut d: usize = 0;
        while d < doomed.len()
            invariant
                d <= doomed@.len(),
                self.delta.wf(),
                self.generation == old(self).generation,
                self.runs == old(self).runs,
                self.frozen == old(self).frozen,
                forall|j: int| 0 <= j < doomed@.len() ==> prefix@.is_prefix_of((#[trigger] doomed@[j])@),
                forall|k: Seq<u8>| #[trigger] self.delta@.contains_key(k) ==> before.contains_key(k) && self.delta@[k] == before[k],
                forall|k: Seq<u8>|
                    #[trigger] before.contains_key(k) && !self.delta@.contains_key(k) ==> prefix@.is_prefix_of(k),
                forall|j: int| 0 <= j < d ==> !self.delta@.contains_key((#[trigger] doomed@[j])@),
            decreases doomed@.len() - d,
        {
            let _ = self.delta.remove(doomed[d].as_slice());
            d = d + 1;
        }
        proof {
            assert forall|k: Seq<u8>| #[trigger] self.delta@.contains_key(k) implies !prefix@.is_prefix_of(k) by {
                let j = pairs::index_of(s, k);
                assert(pairs::has_key(s, k));
                if prefix@.is_prefix_of(s[j].0) {
                    let q = choose|q: int| 0 <= q < doomed@.len() && (#[trigger] doomed@[q])@ == s[j].0;
                    assert(!self.delta@.contains_key(doomed@[q]@));
                }
            }
            assert(self.delta@ =~= without_prefix(before, prefix@));
        }
    }
}

// ---- Memory -----------------------------------------------------------------

/// The part of a primary key that names the table.
pub open spec fn table_part(key: Seq<u8>) -> Seq<u8> {
    if key.len() >= 4 && 4 + bytes::be_value(key.subrange(0, 4)) <= key.len() {
        key.subrange(0, (4 + bytes::be_value(key.subrange(0, 4))) as int)
    } else {
        key
    }
}

pub open spec fn version_cost(v: VersionView) -> int {
    match v.kind {
        KindView::MemPut(payload) => payload.len() as int + 40,
        _ => 40,
    }
}

pub open spec fn versions_cost(s: Seq<VersionView>) -> int
    decreases s.len(),
{
    if s.len() == 0 {
        0
    } else {
        versions_cost(s.drop_last()) + version_cost(s.last())
    }
}

/// The estimated memory of resident versions: per table its name and a slot,
/// per record its id and a slot, per version its payload and its entry.
pub open spec fn delta_cost(s: Seq<(Seq<u8>, Seq<VersionView>)>) -> int
    decreases s.len(),
{
    if s.len() == 0 {
        0
    } else {
        let (key, versions) = s.last();
        let part = table_part(key);
        let opens_table = s.len() == 1 || table_part(s[s.len() - 2].0) != part;
        delta_cost(s.drop_last()) + (if opens_table {
            part.len() - 4 + 96
        } else {
            0
        }) + (key.len() - part.len()) + 96 + versions_cost(versions)
    }
}

fn table_part_len(key: &[u8]) -> (r: usize)
    ensures
        r == table_part(key@).len(),
        r <= key@.len(),
        table_part(key@) == key@.subrange(0, r as int),
{
    proof {
        bytes::lemma_radix_small();
    }
    match bytes::read_be(key, 0, 4) {
        Some(n) => {
            if n <= (key.len() - 4) as u64 {
                4 + n as usize
            } else {
                assert(key@.subrange(0, key@.len() as int) =~= key@);
                key.len()
            }
        },
        None => {
            assert(key@.subrange(0, key@.len() as int) =~= key@);
            key.len()
        },
    }
}

fn list_cost(versions: &Versions) -> (r: usize)
    ensures
        r == record::capped(versions_cost(versions@)),
        versions_cost(versions@) >= 0,
{
    let mut total: usize = 0;
    let mut i: usize = 0;
    assert(versions@.subrange(0, 0) =~= Seq::<VersionView>::empty());
    while i < versions.list.len()
        invariant
            i <= versions.list@.len(),
            total == record::capped(versions_cost(versions@.subrange(0, i as int))),
            versions_cost(versions@.subrange(0, i as int)) >= 0,
        decreases versions.list@.len() - i,
    {
        proof {
            let t = versions@.subrange(0, i + 1);
            assert(t.drop_last() =~= versions@.subrange(0, i as int));
            assert(t.last() == versions@[i as int]);
        }
        let payload: usize = match &versions.list[i].kind {
            VKind::MemPut(payload) => payload.len(),
            _ => 0,
        };
        total = total.saturating_add(payload).saturating_add(40);
        i = i + 1;
    }
    assert(versions@.subrange(0, i as int) =~= versions@);
    total
}

/// The estimated memory of a delta.
pub fn map_memory_bytes(delta: &PrimaryDelta) -> (r: usize)
    requires
        delta.wf(),
        forall|k: Seq<u8>| #[trigger] delta@.contains_key(k) ==> k.len() >= 4,
    ensures
        r == record::capped(delta_cost(delta.pairs())),
{
    let ghost s = delta.pairs();
    let entries = delta.iter();
    proof {
        delta.lemma_wf();
    }
    let mut total: usize = 0;
    let mut i: usize = 0;
    assert(s.subrange(0, 0) =~= Seq::<(Seq<u8>, Seq<VersionView>)>::empty());
    while i < entries.len()
        invariant
            i <= entries@.len() == s.len(),
            pairs::sorted(s),
            s == delta.pairs(),
            delta@ == pairs::to_map(s),
            cow::entry_pairs(entries@) == s,
            forall|k: Seq<u8>| #[trigger] delta@.contains_key(k) ==> k.len() >= 4,
            total == record::capped(delta_cost(s.subrange(0, i as int))),
            delta_cost(s.subrange(0, i as int)) >= 0,
        decreases entries@.len() - i,
    {
        let (key, versions) = entries[i];
        let part: usize = table_part_len(key.as_slice());
        proof {
            let t = s.subrange(0, i + 1);
            assert(t.drop_last() =~= s.subrange(0, i as int));
            assert(cow::entry_pairs(entries@)[i as int] == (key.rank(), versions@));
            assert(t.last() == (key@, versions@));
            pairs::lemma_to_map_at(s, i as int);
            assert(key@.len() >= 4);
            if i > 0 {
                assert(t[i - 1] == s[i - 1]);
                assert(cow::entry_pairs(entries@)[i - 1] == (entries@[i - 1].0.rank(), entries@[i - 1].1@));
            }
            assert(part >= 4);
        }
        let opens_table: bool = if i == 0 {
            true
        } else {
            let last: &Vec<u8> = entries[i - 1].0;
            let last_part: usize = table_part_len(last.as_slice());
            let a = bytes::copy_range(last.as_slice(), 0, last_part);
            let b = bytes::copy_range(key.as_slice(), 0, part);
            !bytes::same_bytes(a.as_slice(), b.as_slice())
        };
        if opens_table {
            total = total.saturating_add(part - 4).saturating_add(96);
        }
        total = total.saturating_add(key.len() - part).saturating_add(96).saturating_add(list_cost(versions));
        i = i + 1;
    }
    assert(s.subrange(0, i as int) =~= s);
    total
}

} // verus!
