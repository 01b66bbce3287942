use elitesql_core::cow::CowMap;
use elitesql_core::error::Error;
use elitesql_core::paged::{PagedIndex, Row};
use elitesql_core::primary::{PrimaryIdx, Versions};
use elitesql_core::schema::{Catalog, TableSchema};
use elitesql_core::version::{decode_primary_key, encode_primary_entry, primary_key, VKind, VersionEntry};
use std::sync::Arc;
use std::collections::BTreeSet;

#[test]
fn paged_primary_roundtrips_many_ids_and_versions() {
    let mut delta: CowMap<Vec<u8>, Versions> = CowMap::new();
    for id in 0..200u32 {
        let mut list = Vec::new();
        for version in 1..=5u64 {
            list.push(VersionEntry {
                version: version * 1000 + id as u64,
                kind: VKind::SegPut {
                    segment: 7,
                    payload_offset: version * 10,
                    payload_len: id,
                },
            });
        }
        delta.insert(primary_key("docs", &format!("{id:026}")), Versions { list });
    }
    let mut catalog = Catalog::new();
    catalog.tables.push(TableSchema::new("docs", Vec::new()));
    let base = PrimaryIdx::resident(delta).write_paged_for_catalog(&catalog, 99).unwrap();
    assert_eq!(base.dump_version(), 99);
    let mut raw_ids = BTreeSet::new();
    let raw_entries = base.len();
    for i in 0..base.len() {
        raw_ids.insert(decode_primary_key(base.key_at(i)).unwrap().1);
    }
    assert_eq!(raw_entries, 1000);
    assert_eq!(raw_ids.len(), 200);
    let index = PrimaryIdx::paged(base);
    let mut visited = BTreeSet::new();
    for group in index.visit_table("docs", None, None).unwrap() {
        assert_eq!(group.versions.len(), 5);
        visited.insert(group.id);
    }
    let missing: Vec<_> = raw_ids.difference(&visited).cloned().collect();
    assert_eq!(visited.len(), 200, "missing {missing:?}");
}

#[test]
fn a_dump_leaves_out_what_does_not_count() {
    let mut delta: CowMap<Vec<u8>, Versions> = CowMap::new();
    let at = |version| VersionEntry { version, kind: VKind::SegTombstone };
    delta.insert(primary_key("docs", "a"), Versions { list: vec![at(3), at(7)] });
    delta.insert(primary_key("gone", "a"), Versions { list: vec![at(9)] });
    let mut schema = TableSchema::new("docs", Vec::new());
    schema.epoch = 5;
    let mut catalog = Catalog::new();
    catalog.tables.push(schema);
    let base = PrimaryIdx::resident(delta).write_paged_for_catalog(&catalog, 1).unwrap();
    assert_eq!(base.len(), 1);
    assert_eq!(decode_primary_key(base.key_at(0)).unwrap(), ("docs".to_string(), "a".to_string()));
    let mut delta: CowMap<Vec<u8>, Versions> = CowMap::new();
    let kind = VKind::MemPut(Arc::new(vec![0, 0]));
    delta.insert(primary_key("docs", "a"), Versions { list: vec![VersionEntry { version: 8, kind }] });
    assert!(matches!(
        PrimaryIdx::resident(delta).write_paged_for_catalog(&catalog, 1),
        Err(Error::InvalidArgument(m)) if m == "primary index base cannot contain memtable entries"
    ));
}

#[test]
fn a_walk_fails_only_where_it_comes_to_the_damage() {
    let good = |id: &str| Row {
        key: primary_key("docs", id),
        value: encode_primary_entry(&VersionEntry { version: 1, kind: VKind::SegTombstone }).unwrap(),
    };
    let rows = vec![good("a"), Row { key: primary_key("docs", "b"), value: vec![9] }, good("c")];
    let index = PrimaryIdx::paged(PagedIndex::from_rows(rows, 1));
    assert_eq!(index.visit_table("docs", None, Some(1)).unwrap().len(), 1);
    assert!(matches!(index.visit_table("docs", None, Some(2)), Err(Error::Corrupt(_))));
    assert!(matches!(index.visit_table("docs", Some("a"), None), Err(Error::Corrupt(_))));
    let behind = index.visit_table("docs", Some("b"), None).unwrap();
    assert_eq!(behind.iter().map(|g| g.id.as_str()).collect::<Vec<_>>(), vec!["c"]);
    let walk = index.walk_table("docs", None, None);
    assert_eq!(walk.groups.len(), 1);
    assert!(walk.fault.is_some());
}
