use elitesql_core::alter::{
    after_fill, begin_add_column, catalog_generation, fill_batch_rows, fill_records, finish_add_column, AlterPlan,
};
use elitesql_core::batch::{finish_coordinated_insert_batch, member_outcome, publish_batch, BatchFate, Formed};
use elitesql_core::bulk::{bulk_insert_sorted, BulkRow};
use elitesql_core::catalog::IndexKind;
use elitesql_core::checkpoint::{checkpoint_locked, flush_frozen_checkpoint, run_name, successor_wals, CheckpointStep};
use elitesql_core::compact::{collect_garbage, rewrite_segments_shared};
use elitesql_core::cow::{CowMap, CowSet};
use elitesql_core::ddl::{DdlIntent, Rewrite};
use elitesql_core::debt::{compaction_debt_estimate, Snapshots};
use elitesql_core::error::Error;
use elitesql_core::ids::IdSource;
use elitesql_core::manifest::{checkpoint_manifest, Manifest};
use elitesql_core::memory::MemoryGovernor;
use elitesql_core::open::{open_with, OpenInput};
use elitesql_core::options::{DbOptions, MemoryOptions};
use elitesql_core::order::Datum;
use elitesql_core::pipeline::{commit_staged, finish_prepared_commit, plan_commit, BackgroundStatus, CommitRoute, WriterLoad};
use elitesql_core::commit::rebase_change;
use elitesql_core::prepare::{replay_latest, PreparedCommit};
use elitesql_core::record::Record;
use elitesql_core::recover::SegFile;
use elitesql_core::schema::{Column, ForeignKey, IndexDef, ReferentialAction, TableSchema};
use elitesql_core::staged::Replay;
use elitesql_core::state::{Mark, State};
use elitesql_core::txn::{after_attempt, Attempt, Txn};
use elitesql_core::value::{same_value, ColumnType, Value};
use elitesql_core::wal::{WalChange, WalMark, WalRecord};
use std::sync::Arc;

const ROOM: usize = 1 << 30;

fn column(name: &str, ty: ColumnType) -> Column {
    Column::new(name, ty)
}

fn users() -> TableSchema {
    TableSchema::new("users", vec![column("name", ColumnType::Text).not_null(), column("age", ColumnType::Int64)])
}

fn database(schema: TableSchema) -> State {
    let mut st = State::initial();
    st.create_table(false, Ok(()), schema).unwrap();
    st
}

fn user(id: &str, name: &str, age: i64) -> Record {
    let mut rec: Record = CowMap::new();
    rec.insert("id".to_string(), Value::Text(id.to_string()));
    rec.insert("name".to_string(), Value::Text(name.to_string()));
    rec.insert("age".to_string(), Value::Int64(age));
    rec
}

fn patch(name: &str, v: Value) -> Record {
    let mut rec: Record = CowMap::new();
    rec.insert(name.to_string(), v);
    rec
}

fn text(rec: &Record, name: &str) -> String {
    match rec.get(name.as_bytes()) {
        Some(Value::Text(s)) => s.clone(),
        other => panic!("{name}: {other:?}"),
    }
}

fn whole(rec: &Record, name: &str) -> i64 {
    match rec.get(name.as_bytes()) {
        Some(Value::Int64(n)) => *n,
        other => panic!("{name}: {other:?}"),
    }
}

fn governor() -> MemoryGovernor {
    MemoryGovernor::new(MemoryOptions::default().limits())
}

fn prepared(st: &State, txn: &Txn) -> Result<Option<PreparedCommit>, Error> {
    match commit_staged(st, false, &None, txn.snapshot_version(), txn.staged_tables(), ROOM)? {
        CommitRoute::Unchanged(_) => Ok(None),
        CommitRoute::Single(p) => Ok(Some(p)),
        CommitRoute::Coordinated(p) => Ok(Some(p)),
    }
}

fn commit_logged(st: &mut State, txn: &Txn) -> Result<(u64, Option<WalRecord>), Error> {
    let Some(p) = prepared(st, txn)? else {
        return Ok((txn.snapshot_version(), None));
    };
    let planned = plan_commit(st, p)?;
    let mut load = WriterLoad { memtable_bytes: 0 };
    let mut gov = governor();
    finish_prepared_commit(st, &planned, &mut load, &mut gov, 1 << 30);
    assert!(load.memtable_bytes > 0);
    Ok((planned.version, Some(planned.record)))
}

fn commit(st: &mut State, txn: &Txn) -> Result<u64, Error> {
    Ok(commit_logged(st, txn)?.0)
}

fn put(st: &mut State, rec: Record) -> u64 {
    let mut ids = IdSource::new();
    let mut txn = Txn::begin(st);
    txn.insert(st, &mut ids, ROOM, "users", rec).unwrap();
    commit(st, &txn).unwrap()
}

fn name_at(st: &State, id: &str, version: u64) -> Option<String> {
    st.get_at("users", id, version).unwrap().map(|rec| text(&rec, "name"))
}

fn filled() -> State {
    let mut st = database(users());
    put(&mut st, user("a", "Ada", 36));
    put(&mut st, user("b", "Bob", 20));
    put(&mut st, user("c", "Cy", 36));
    st
}

fn found(st: &State, column: &str, v: &Value) -> Vec<String> {
    st.find_eq(false, "users", column, v).unwrap().into_iter().map(|h| h.id).collect()
}

fn write_checkpoint_of(st: &mut State) {
    match checkpoint_locked(st, false, 100).unwrap() {
        CheckpointStep::Write(c) => {
            let (file, level) = run_name(st.index.runs.is_empty(), "unique");
            st.adopt_checkpoint(c, file, level, 10);
        }
        _ => panic!("nothing was written"),
    }
}

#[test]
fn a_committed_record_is_read_back() {
    let mut st = database(users());
    assert_eq!(st.tables(), vec!["users".to_string()]);
    assert!(st.table_schema("users").is_some());
    assert!(st.table_schema("nobody").is_none());
    let version = put(&mut st, user("a", "Ada", 36));
    assert_eq!(version, 1);
    assert_eq!(st.committed_version, 1);
    let rec = st.get_at("users", "a", version).unwrap().unwrap();
    assert_eq!(text(&rec, "id"), "a");
    assert_eq!(text(&rec, "name"), "Ada");
    assert_eq!(whole(&rec, "age"), 36);
    assert!(st.get_at("users", "b", version).unwrap().is_none());
    assert!(matches!(st.get_at("nobody", "a", version), Err(Error::TableNotFound(t)) if t == "nobody"));
}

#[test]
fn a_transaction_adds_to_an_automatic_commit() {
    let columns = vec![Column::new("title", ColumnType::Text).not_null(), Column::new("score", ColumnType::Int64)];
    let mut st = database(TableSchema::new("docs", columns));
    let mut ids = IdSource::new();
    let mut txn = Txn::begin(&st);
    let id = txn.insert(&st, &mut ids, ROOM, "docs", patch("title", Value::Text("hello".to_string()))).unwrap();
    commit(&mut st, &txn).unwrap();
    let mut txn = Txn::begin(&st);
    txn.update(&st, ROOM, "docs", &id, patch("score", Value::Int64(42))).unwrap();
    let version = commit(&mut st, &txn).unwrap();
    let read = st.get_at("docs", &id, version).unwrap().unwrap();
    assert_eq!(whole(&read, "score"), 42);
    assert_eq!(text(&read, "title"), "hello");
}

#[test]
fn a_snapshot_keeps_what_it_saw() {
    let mut st = database(users());
    let first = put(&mut st, user("a", "Ada", 36));
    let reader = Txn::begin(&st);
    let mut txn = Txn::begin(&st);
    txn.update(&st, ROOM, "users", "a", patch("name", Value::Text("Ann".to_string()))).unwrap();
    let second = commit(&mut st, &txn).unwrap();
    assert!(second > first);
    assert_eq!(name_at(&st, "a", first), Some("Ada".to_string()));
    assert_eq!(name_at(&st, "a", second), Some("Ann".to_string()));
    assert_eq!(text(&reader.get(&st, "users", "a").unwrap().unwrap(), "name"), "Ada");
    let mut txn = Txn::begin(&st);
    assert!(txn.delete(&st, ROOM, "users", "a").unwrap());
    let third = commit(&mut st, &txn).unwrap();
    assert_eq!(name_at(&st, "a", second), Some("Ann".to_string()));
    assert_eq!(name_at(&st, "a", third), None);
    assert!(!st.exists_at("users", "a", third));
}

#[test]
fn a_transaction_reads_its_own_writes() {
    let st = filled();
    let mut ids = IdSource::new();
    let mut txn = Txn::begin(&st);
    txn.insert(&st, &mut ids, ROOM, "users", user("d", "Dee", 1)).unwrap();
    assert_eq!(text(&txn.get(&st, "users", "d").unwrap().unwrap(), "name"), "Dee");
    txn.update(&st, ROOM, "users", "d", patch("age", Value::Int64(2))).unwrap();
    assert_eq!(whole(&txn.get(&st, "users", "d").unwrap().unwrap(), "age"), 2);
    assert!(txn.delete(&st, ROOM, "users", "d").unwrap());
    assert!(txn.get(&st, "users", "d").unwrap().is_none());
    assert!(!txn.delete(&st, ROOM, "users", "d").unwrap());
    assert!(matches!(
        txn.update(&st, ROOM, "users", "zz", patch("age", Value::Int64(2))),
        Err(Error::RecordNotFound { table, id }) if table == "users" && id == "zz"
    ));
    assert!(matches!(
        txn.insert(&st, &mut ids, ROOM, "users", user("a", "Ada", 1)),
        Err(Error::DuplicateId { table, id }) if table == "users" && id == "a"
    ));
    assert!(matches!(
        txn.insert(&st, &mut ids, 10, "users", user("e", "Eve", 1)),
        Err(Error::MemoryLimit(_))
    ));
}

#[test]
fn records_that_do_not_fit_their_table_are_refused() {
    let st = database(users());
    let mut ids = IdSource::new();
    let mut txn = Txn::begin(&st);
    assert!(matches!(
        txn.insert(&st, &mut ids, ROOM, "users", patch("age", Value::Int64(1))),
        Err(Error::SchemaViolation(_))
    ));
    assert!(matches!(
        txn.insert(&st, &mut ids, ROOM, "users", patch("name", Value::Int64(1))),
        Err(Error::SchemaViolation(_))
    ));
    let mut rec = patch("name", Value::Text("x".to_string()));
    rec.insert("height".to_string(), Value::Int64(1));
    assert!(txn.insert(&st, &mut ids, ROOM, "users", rec).is_err());
    let mut rec = patch("name", Value::Text("x".to_string()));
    rec.insert("id".to_string(), Value::Int64(1));
    assert!(matches!(
        txn.insert(&st, &mut ids, ROOM, "users", rec),
        Err(Error::SchemaViolation(m)) if m == "id must be a text value"
    ));
    let mut rec = patch("name", Value::Text("x".to_string()));
    rec.insert("id".to_string(), Value::Text(String::new()));
    assert!(matches!(
        txn.insert(&st, &mut ids, ROOM, "users", rec),
        Err(Error::InvalidArgument(m)) if m == "id must not be empty"
    ));
    assert!(matches!(
        txn.insert(&st, &mut ids, ROOM, "nobody", patch("name", Value::Text("x".to_string()))),
        Err(Error::TableNotFound(t)) if t == "nobody"
    ));
}

#[test]
fn a_record_without_an_id_gets_a_new_one() {
    let mut st = database(users());
    let mut ids = IdSource::new();
    let mut txn = Txn::begin(&st);
    let a = txn.insert(&st, &mut ids, ROOM, "users", patch("name", Value::Text("x".to_string()))).unwrap();
    let b = txn.insert(&st, &mut ids, ROOM, "users", patch("name", Value::Text("y".to_string()))).unwrap();
    assert_eq!(a.len(), 26);
    assert!(a < b);
    let version = commit(&mut st, &txn).unwrap();
    assert_eq!(name_at(&st, &a, version), Some("x".to_string()));
    assert_eq!(name_at(&st, &b, version), Some("y".to_string()));
}

#[test]
fn two_writers_of_one_record_conflict() {
    let mut st = filled();
    let mut one = Txn::begin(&st);
    let mut two = Txn::begin(&st);
    one.update(&st, ROOM, "users", "a", patch("age", Value::Int64(1))).unwrap();
    two.update(&st, ROOM, "users", "a", patch("age", Value::Int64(2))).unwrap();
    let version = commit(&mut st, &one).unwrap();
    assert!(matches!(commit(&mut st, &two), Err(Error::Conflict(_))));
    assert_eq!(whole(&st.get_at("users", "a", version).unwrap().unwrap(), "age"), 1);
    assert_eq!(st.committed_version, version);
    assert!(matches!(after_attempt(0, Err(Error::Conflict("x".to_string()))), Attempt::Again));
    assert!(matches!(after_attempt(2, Err(Error::Conflict("x".to_string()))), Attempt::Failed(Error::Conflict(_))));
    assert!(matches!(after_attempt(0, Err(Error::ReadOnly)), Attempt::Failed(Error::ReadOnly)));
    assert!(matches!(after_attempt(0, Ok(7)), Attempt::Done(7)));
}

#[test]
fn an_empty_commit_changes_nothing() {
    let mut st = filled();
    let txn = Txn::begin(&st);
    assert_eq!(commit(&mut st, &txn).unwrap(), 3);
    assert_eq!(st.committed_version, 3);
    assert!(matches!(commit_staged(&st, true, &None, 3, Vec::new(), ROOM), Err(Error::ReadOnly)));
}

#[test]
fn a_broken_log_refuses_further_commits() {
    let st = filled();
    let mut txn = Txn::begin(&st);
    txn.update(&st, ROOM, "users", "a", patch("age", Value::Int64(1))).unwrap();
    let fence = Some("log lost".to_string());
    let r = commit_staged(&st, false, &fence, txn.snapshot_version(), txn.staged_tables(), ROOM);
    assert!(r.is_err());
}

#[test]
fn a_walk_an_index_and_a_stream_find_the_same_records() {
    let mut st = filled();
    let v = Value::Int64(36);
    assert_eq!(found(&st, "age", &v), vec!["a", "c"]);
    let built = st.create_index(false, "users", "age", false).unwrap();
    st.adopt_index("users", "age", built, "age.run".to_string(), 10);
    assert_eq!(found(&st, "age", &v), vec!["a", "c"]);
    put(&mut st, user("d", "Dee", 36));
    let mut txn = Txn::begin(&st);
    txn.update(&st, ROOM, "users", "a", patch("age", Value::Int64(37))).unwrap();
    assert!(txn.delete(&st, ROOM, "users", "c").unwrap());
    commit(&mut st, &txn).unwrap();
    assert_eq!(found(&st, "age", &v), vec!["d"]);
    assert_eq!(found(&st, "age", &Value::Int64(37)), vec!["a"]);
    assert_eq!(found(&st, "name", &Value::Text("Bob".to_string())), vec!["b"]);
    let hits = st.find_eq_batch("users", "age", &Value::Int64(20), None, 5).unwrap();
    assert_eq!(hits.len(), 1);
    assert_eq!(hits[0].id, "b");
    assert!(st.find_eq_batch("users", "age", &Value::Int64(20), Some("b"), 5).unwrap().is_empty());
    assert!(matches!(
        st.find_eq(false, "users", "height", &v),
        Err(Error::SchemaViolation(m)) if m == "unknown column 'height'"
    ));
    assert!(matches!(st.find_eq(false, "nobody", "age", &v), Err(Error::TableNotFound(_))));
}

#[test]
fn a_scan_lists_every_record_once_in_order() {
    let st = filled();
    for batch in [0usize, 1, 2, 3, 100] {
        let ids: Vec<String> = st.scan_at("users", 3, batch).unwrap().into_iter().map(|h| h.id).collect();
        assert_eq!(ids, vec!["a", "b", "c"]);
    }
    let ids: Vec<String> = st.scan_at("users", 2, 1).unwrap().into_iter().map(|h| h.id).collect();
    assert_eq!(ids, vec!["a", "b"]);
    let batch = st.scan_batch("users", 3, Some("a"), 1, None, None).unwrap();
    assert_eq!(batch.ids, vec!["b"]);
    assert!(matches!(st.scan_at("nobody", 3, 1), Err(Error::TableNotFound(_))));
}

#[test]
fn only_some_columns_can_be_read() {
    let st = filled();
    let keep = vec!["age".to_string()];
    let rec = st.get_at_keep("users", "a", 3, Some(&keep)).unwrap().unwrap();
    assert_eq!(whole(&rec, "age"), 36);
    assert!(rec.get(b"name").is_none());
    let rec = st.get_at_keep("users", "a", 3, None).unwrap().unwrap();
    assert_eq!(text(&rec, "name"), "Ada");
}

#[test]
fn a_unique_index_admits_a_value_once() {
    let mut schema = users();
    schema.indexes.push(IndexDef { column: "age".to_string(), unique: true });
    let mut st = database(schema);
    put(&mut st, user("a", "Ada", 36));
    let mut ids = IdSource::new();
    let mut txn = Txn::begin(&st);
    txn.insert(&st, &mut ids, ROOM, "users", user("b", "Bob", 36)).unwrap();
    assert!(matches!(
        commit(&mut st, &txn),
        Err(Error::UniqueViolation { table, column }) if table == "users" && column == "age"
    ));
    let mut txn = Txn::begin(&st);
    txn.insert(&st, &mut ids, ROOM, "users", user("b", "Bob", 36)).unwrap();
    assert!(txn.delete(&st, ROOM, "users", "a").unwrap());
    commit(&mut st, &txn).unwrap();
    assert_eq!(found(&st, "age", &Value::Int64(36)), vec!["b"]);
    let plain = filled();
    assert!(matches!(
        plain.create_index(false, "users", "age", true),
        Err(Error::UniqueViolation { .. })
    ));
    assert!(plain.create_index(false, "users", "name", true).is_ok());
}

#[test]
fn a_foreign_key_holds_both_ways() {
    let mut st = filled();
    let mut posts = TableSchema::new("posts", vec![column("author", ColumnType::Text)]);
    posts.indexes.push(IndexDef { column: "author".to_string(), unique: false });
    posts.foreign_keys.push(ForeignKey {
        column: "author".to_string(),
        referenced_table: "users".to_string(),
        referenced_column: "id".to_string(),
        on_delete: ReferentialAction::Restrict,
    });
    st.create_table(false, Ok(()), posts).unwrap();
    let mut ids = IdSource::new();
    let mut txn = Txn::begin(&st);
    txn.insert(&st, &mut ids, ROOM, "posts", patch("author", Value::Text("nobody".to_string()))).unwrap();
    assert!(commit(&mut st, &txn).is_err());
    let mut txn = Txn::begin(&st);
    txn.insert(&st, &mut ids, ROOM, "posts", patch("author", Value::Text("a".to_string()))).unwrap();
    commit(&mut st, &txn).unwrap();
    let mut txn = Txn::begin(&st);
    assert!(txn.delete(&st, ROOM, "users", "a").unwrap());
    assert!(commit(&mut st, &txn).is_err());
    let mut txn = Txn::begin(&st);
    assert!(txn.delete(&st, ROOM, "users", "b").unwrap());
    assert!(commit(&mut st, &txn).is_ok());
}

#[test]
fn a_checkpoint_keeps_every_row() {
    let mut st = filled();
    let before = name_at(&st, "a", 3);
    write_checkpoint_of(&mut st);
    assert_eq!(st.segments.len(), 1);
    assert_eq!(st.index.runs.len(), 1);
    assert_eq!(st.index.delta.len(), 0);
    assert_eq!(name_at(&st, "a", 3), before);
    assert_eq!(found(&st, "age", &Value::Int64(36)), vec!["a", "c"]);
    put(&mut st, user("d", "Dee", 36));
    assert_eq!(found(&st, "age", &Value::Int64(36)), vec!["a", "c", "d"]);
    write_checkpoint_of(&mut st);
    assert_eq!(st.segments.len(), 2);
    assert_eq!(found(&st, "age", &Value::Int64(36)), vec!["a", "c", "d"]);
    assert_eq!(name_at(&st, "d", 3), None);
    assert!(matches!(checkpoint_locked(&st, true, 100), Err(Error::ReadOnly)));
    assert!(matches!(checkpoint_locked(&st, false, 0), Ok(CheckpointStep::Nothing)));
    assert_eq!(successor_wals(7).unwrap(), (8, 9));
}

#[test]
fn a_background_checkpoint_can_be_given_up() {
    let mut st = filled();
    let mut status = BackgroundStatus { running: false, last_error: None, commit_unknown: false };
    assert!(st.schedule_frozen_checkpoint(&mut status, 0, 5));
    assert!(st.still_frozen(3, 5));
    assert!(!st.still_frozen(3, 6));
    put(&mut st, user("d", "Dee", 4));
    assert_eq!(name_at(&st, "a", 4), Some("Ada".to_string()));
    st.thaw_frozen_checkpoint();
    assert!(!st.still_frozen(3, 5));
    assert_eq!(name_at(&st, "a", 4), Some("Ada".to_string()));
    assert_eq!(name_at(&st, "d", 4), Some("Dee".to_string()));
    let mut status = BackgroundStatus { running: false, last_error: None, commit_unknown: false };
    assert!(st.schedule_frozen_checkpoint(&mut status, 0, 6));
    let c = flush_frozen_checkpoint(&st, 4, 6).unwrap().unwrap();
    st.adopt_frozen(4, 6, c, "f.run".to_string(), 0, 10).unwrap();
    assert_eq!(name_at(&st, "a", 4), Some("Ada".to_string()));
    assert_eq!(name_at(&st, "d", 4), Some("Dee".to_string()));
    assert_eq!(name_at(&st, "d", 3), None);
}

#[test]
fn compaction_drops_only_what_no_reader_needs() {
    let mut st = database(users());
    let first = put(&mut st, user("a", "Ada", 36));
    put(&mut st, user("b", "Bob", 20));
    let mut txn = Txn::begin(&st);
    txn.update(&st, ROOM, "users", "a", patch("name", Value::Text("Ann".to_string()))).unwrap();
    let third = commit(&mut st, &txn).unwrap();
    let mut txn = Txn::begin(&st);
    assert!(txn.delete(&st, ROOM, "users", "b").unwrap());
    let last = commit(&mut st, &txn).unwrap();
    write_checkpoint_of(&mut st);
    let mut snapshots = Snapshots::new();
    snapshots.open(third);
    let marks = snapshots.watermarks(last);
    assert_eq!(marks, vec![third, last]);
    let debt = compaction_debt_estimate(&st, &marks);
    assert_eq!(debt.operations, 1);
    let r = rewrite_segments_shared(&st, false, &Rewrite::Plain, &marks).unwrap();
    st.adopt_rewrite(r, 10, false);
    assert_eq!(st.segments.len(), 1);
    assert_eq!(name_at(&st, "a", last), Some("Ann".to_string()));
    assert_eq!(name_at(&st, "b", third), Some("Bob".to_string()));
    assert_eq!(name_at(&st, "b", last), None);
    assert_eq!(name_at(&st, "a", first), None);
    snapshots.close(third);
    let marks = snapshots.watermarks(last);
    assert_eq!(marks, vec![last]);
    let r = rewrite_segments_shared(&st, false, &Rewrite::Plain, &marks).unwrap();
    st.adopt_rewrite(r, 10, false);
    assert_eq!(name_at(&st, "a", last), Some("Ann".to_string()));
    assert_eq!(name_at(&st, "b", last), None);
    assert_eq!(compaction_debt_estimate(&st, &marks).operations, 0);
    assert!(matches!(rewrite_segments_shared(&st, true, &Rewrite::Plain, &marks), Err(Error::ReadOnly)));
}

fn reopened(st: &State, log: Vec<WalRecord>) -> Result<State, Error> {
    let version = if st.metas.is_empty() { 0 } else { st.committed_version };
    reopened_from(st, version, log)
}

fn reopened_from(st: &State, version: u64, log: Vec<WalRecord>) -> Result<State, Error> {
    let manifest = checkpoint_manifest(version, &st.metas, 1, &st.catalog, &st.identities);
    let mut files = Vec::new();
    for s in &st.segments {
        files.push(SegFile { name: format!("segment {}", s.id), data: Ok(s.image.clone()) });
    }
    let catalog = st.catalog.duplicate();
    let indexes: usize = catalog.tables.iter().map(|t| t.indexes.len()).sum();
    let opened = open_with(OpenInput {
        read_only: false,
        pending_ddl: false,
        limit: ROOM,
        catalog,
        manifest,
        files,
        stored: None,
        log,
        blobs: CowMap::new(),
        index_runs: (0..indexes).map(|_| None).collect(),
        other_bytes: 0,
    })?;
    Ok(opened.state)
}

#[test]
fn the_log_restores_every_commit() {
    let mut schema = users();
    schema.indexes.push(IndexDef { column: "age".to_string(), unique: false });
    let mut st = database(schema);
    let mut log = Vec::new();
    let mut ids = IdSource::new();
    for (id, name, age) in [("a", "Ada", 36), ("b", "Bob", 20), ("c", "Cy", 36)] {
        let mut txn = Txn::begin(&st);
        txn.insert(&st, &mut ids, ROOM, "users", user(id, name, age)).unwrap();
        log.push(commit_logged(&mut st, &txn).unwrap().1.unwrap());
    }
    let mut txn = Txn::begin(&st);
    assert!(txn.delete(&st, ROOM, "users", "c").unwrap());
    log.push(commit_logged(&mut st, &txn).unwrap().1.unwrap());
    let again = reopened(&st, log).unwrap();
    assert_eq!(again.committed_version, 4);
    assert_eq!(name_at(&again, "a", 4), Some("Ada".to_string()));
    assert_eq!(name_at(&again, "c", 3), Some("Cy".to_string()));
    assert_eq!(name_at(&again, "c", 4), None);
    assert_eq!(found(&again, "age", &Value::Int64(36)), vec!["a"]);
    assert!(!again.id_is_above_high_watermark("users", "c"));
    assert!(again.id_is_above_high_watermark("users", "d"));
}

#[test]
fn segments_restore_what_a_checkpoint_wrote() {
    let mut st = filled();
    write_checkpoint_of(&mut st);
    let again = reopened(&st, Vec::new()).unwrap();
    assert_eq!(again.committed_version, 3);
    assert_eq!(name_at(&again, "a", 3), Some("Ada".to_string()));
    assert_eq!(found(&again, "age", &Value::Int64(36)), vec!["a", "c"]);
    let mut damaged = filled();
    write_checkpoint_of(&mut damaged);
    let mut image: Vec<u8> = damaged.segments[0].image.to_vec();
    let end = image.len() - 1;
    image[end] ^= 1;
    damaged.segments[0].image = Arc::new(image);
    assert!(matches!(reopened(&damaged, Vec::new()), Err(Error::Corrupt(_))));
}

#[test]
fn a_sorted_load_is_read_like_commits() {
    let mut st = filled();
    let row = |id: &str, name: &str| BulkRow { record: user(id, name, 5), external: vec![None, None] };
    let load = bulk_insert_sorted(&st, false, "users", vec![row("d", "Dee"), row("e", "Eve")]).unwrap().unwrap();
    assert_eq!(load.rows, 2);
    assert_eq!(load.version, 4);
    st.adopt_bulk(load, "bulk.run".to_string(), 0, 10);
    assert_eq!(st.committed_version, 4);
    assert_eq!(name_at(&st, "e", 4), Some("Eve".to_string()));
    assert_eq!(name_at(&st, "e", 3), None);
    assert_eq!(found(&st, "age", &Value::Int64(5)), vec!["d", "e"]);
    assert!(bulk_insert_sorted(&st, false, "users", vec![row("g", "G"), row("f", "F")]).is_err());
    assert!(bulk_insert_sorted(&st, false, "users", vec![row("a", "A")]).is_err());
    assert!(bulk_insert_sorted(&st, false, "users", Vec::new()).unwrap().is_none());
    assert!(matches!(bulk_insert_sorted(&st, true, "users", vec![row("z", "Z")]), Err(Error::ReadOnly)));
}

#[test]
fn one_group_of_inserts_takes_one_write() {
    let mut st = filled();
    let mut ids = IdSource::new();
    let mut commits = Vec::new();
    for (id, name) in [("d", "Dee"), ("e", "Eve"), ("d", "Don")] {
        let mut txn = Txn::begin(&st);
        txn.insert(&st, &mut ids, ROOM, "users", user(id, name, 1)).unwrap();
        commits.push(prepared(&st, &txn).unwrap().unwrap());
    }
    let mut gov = governor();
    match finish_coordinated_insert_batch(&st, commits, false, &gov) {
        Formed::Batch(batch) => {
            assert_eq!(batch.members.len(), 2);
            assert_eq!(batch.set_aside.len(), 1);
            assert_eq!(batch.set_aside[0].place, 2);
            assert_eq!(batch.members[0].version, 4);
            assert_eq!(batch.members[1].version, 5);
            let mut load = WriterLoad { memtable_bytes: 0 };
            publish_batch(&mut st, &batch, &mut load, &mut gov, 1 << 30);
        }
        _ => panic!("no batch"),
    }
    assert_eq!(st.committed_version, 5);
    assert_eq!(name_at(&st, "d", 5), Some("Dee".to_string()));
    assert_eq!(name_at(&st, "e", 5), Some("Eve".to_string()));
    assert_eq!(name_at(&st, "e", 4), None);
    assert_eq!(member_outcome(&BatchFate::Written, 4).unwrap(), 4);
    assert!(matches!(member_outcome(&BatchFate::SyncFailed("disk".to_string()), 4), Err(Error::CommitUnknown(_))));
    assert!(member_outcome(&BatchFate::AppendFailed("disk".to_string()), 4).is_err());
}

#[test]
fn tables_are_created_once_and_dropped_whole() {
    let mut st = filled();
    assert!(matches!(st.create_table(false, Ok(()), users()), Err(Error::TableExists(t)) if t == "users"));
    assert!(matches!(st.create_table(true, Ok(()), users()), Err(Error::ReadOnly)));
    let plan = st.plan_drop_table(false, "users").unwrap();
    assert_eq!(plan.rows, 3);
    st.drop_table("users", plan.catalog);
    assert!(st.tables().is_empty());
    assert!(matches!(st.get_at("users", "a", 3), Err(Error::TableNotFound(_))));
    assert!(matches!(st.plan_drop_table(false, "users"), Err(Error::TableNotFound(_))));
    st.create_table(false, Ok(()), users()).unwrap();
    assert_eq!(name_at(&st, "a", st.committed_version), None);
    assert!(st.scan_at("users", st.committed_version, 10).unwrap().is_empty());
    let version = put(&mut st, user("a", "New", 1));
    assert_eq!(name_at(&st, "a", version), Some("New".to_string()));
}

#[test]
fn an_index_can_be_dropped_again() {
    let mut st = filled();
    assert!(matches!(
        st.plan_drop_index(false, "users", "age", IndexKind::Secondary),
        Err(Error::IndexNotFound { table, column }) if table == "users" && column == "age"
    ));
    let built = st.create_index(false, "users", "age", false).unwrap();
    st.adopt_index("users", "age", built, "age.run".to_string(), 10);
    assert!(st.slot("users", "age").is_some());
    assert!(st.create_index(false, "users", "age", false).is_err());
    let catalog = st.plan_drop_index(false, "users", "age", IndexKind::Secondary).unwrap();
    st.drop_index("users", "age", catalog);
    assert!(st.slot("users", "age").is_none());
    assert_eq!(found(&st, "age", &Value::Int64(36)), vec!["a", "c"]);
    assert!(st.with_text_index(false, "users", "name").is_ok());
    assert!(st.with_text_index(false, "users", "age").is_err());
}

#[test]
fn a_column_can_be_dropped_and_renamed() {
    let mut st = filled();
    write_checkpoint_of(&mut st);
    let marks = vec![st.committed_version];
    match st.rename_column(false, "users", "name", "title").unwrap() {
        AlterPlan::Carry(intent) => {
            let rw = intent.rewrite().unwrap();
            let r = rewrite_segments_shared(&st, false, &rw, &marks).unwrap();
            st.adopt_rewrite(r, 10, true);
        }
        _ => panic!("a rename of a column rewrites the records"),
    }
    let rec = st.get_at("users", "a", 3).unwrap().unwrap();
    assert_eq!(text(&rec, "title"), "Ada");
    assert!(rec.get(b"name").is_none());
    match st.drop_column(false, "users", "age").unwrap() {
        AlterPlan::Carry(intent) => {
            let rw = intent.rewrite().unwrap();
            let r = rewrite_segments_shared(&st, false, &rw, &marks).unwrap();
            st.adopt_rewrite(r, 10, true);
        }
        _ => panic!("a dropped column rewrites the records"),
    }
    let rec = st.get_at("users", "a", 3).unwrap().unwrap();
    assert!(rec.get(b"age").is_none());
    assert_eq!(st.table_schema("users").unwrap().columns.len(), 1);
    match st.rename_table(false, "users", "people").unwrap() {
        AlterPlan::Carry(intent) => {
            let rw = intent.rewrite().unwrap();
            let r = rewrite_segments_shared(&st, false, &rw, &marks).unwrap();
            st.adopt_rewrite(r, 10, true);
        }
        _ => panic!("a rename of a table rewrites the records"),
    }
    assert_eq!(st.tables(), vec!["people".to_string()]);
    let rec = st.get_at("people", "a", 3).unwrap().unwrap();
    assert_eq!(text(&rec, "title"), "Ada");
    assert!(matches!(st.rename_table(false, "users", "x"), Err(Error::TableNotFound(_))));
}

#[test]
fn a_new_column_is_filled_in() {
    let mut st = filled();
    let mut added = column("city", ColumnType::Text);
    added.nullable = false;
    added.default = Some(Value::Text("Rome".to_string()));
    match st.add_column(false, Ok(()), "users", added.duplicate()).unwrap() {
        AlterPlan::Carry(DdlIntent::AddColumn { table, column, not_null }) => {
            assert_eq!(table, "users");
            assert!(not_null);
            st.catalog = begin_add_column(&st.catalog, &table, &column).unwrap();
            let ids = st.ids_needing_fill("users", "city", 10, None).unwrap();
            assert_eq!(ids, vec!["a", "b", "c"]);
            let mut txn = Txn::begin(&st);
            let value = patch("city", column.default_value());
            fill_records(&mut txn, &st, ROOM, "users", &ids, &value).unwrap();
            commit(&mut st, &txn).unwrap();
            assert!(st.ids_needing_fill("users", "city", 10, None).unwrap().is_empty());
            st.catalog = finish_add_column(&st.catalog, &table, "city").unwrap();
        }
        _ => panic!("a column with a default is filled in"),
    }
    let rec = st.get_at("users", "b", 4).unwrap().unwrap();
    assert_eq!(text(&rec, "city"), "Rome");
    assert!(!st.table_schema("users").unwrap().column("city").unwrap().nullable);
    assert!(fill_batch_rows(0) >= 1);
    assert!(matches!(after_fill(0, Err(Error::Conflict("x".to_string()))), Attempt::Again));
    assert!(matches!(after_fill(3, Err(Error::Conflict("x".to_string()))), Attempt::Failed(_)));
    assert!(st.add_column(false, Ok(()), "users", column("name", ColumnType::Text)).is_err());
}

#[test]
fn values_of_every_type_come_back() {
    let mut schema = TableSchema::new("users", Vec::new());
    let values: Vec<(&str, ColumnType, Value)> = vec![
        ("b", ColumnType::Bool, Value::Bool(true)),
        ("i", ColumnType::Int64, Value::Int64(-7)),
        ("f", ColumnType::Float64, Value::Float64(2.5f64.to_bits())),
        ("t", ColumnType::Text, Value::Text("héllo".to_string())),
        ("x", ColumnType::Blob, Value::Blob(vec![0, 255, 1])),
        ("s", ColumnType::Timestamp, Value::Timestamp(1_700_000_000_000_000)),
        ("j", ColumnType::Json, Value::Json("{\"a\":1}".to_string())),
        ("v", ColumnType::Vector, Value::Vector(vec![1.0f32.to_bits(), (-2.0f32).to_bits()])),
        ("d", ColumnType::Date, Value::Date(19_000)),
        ("m", ColumnType::Time, Value::Time(1_000_001)),
        ("n", ColumnType::Text, Value::Null),
    ];
    let mut rec: Record = CowMap::new();
    rec.insert("id".to_string(), Value::Text("a".to_string()));
    for (name, ty, v) in &values {
        let mut c = column(name, *ty);
        if *ty == ColumnType::Vector {
            c.dim = Some(2);
        }
        schema.columns.push(c);
        rec.insert(name.to_string(), v.duplicate());
    }
    let mut st = database(schema);
    let version = put(&mut st, rec);
    let back = st.get_at("users", "a", version).unwrap().unwrap();
    for (name, _, v) in &values {
        assert!(same_value(back.get(name.as_bytes()).unwrap(), v), "{name}");
    }
    write_checkpoint_of(&mut st);
    let back = st.get_at("users", "a", version).unwrap().unwrap();
    for (name, _, v) in &values {
        assert!(same_value(back.get(name.as_bytes()).unwrap(), v), "{name}");
    }
}

#[test]
fn defaults_fill_what_a_record_leaves_out() {
    let mut schema = users();
    schema.columns[1].default = Some(Value::Int64(18));
    let mut st = database(schema);
    let mut rec = patch("name", Value::Text("Ada".to_string()));
    rec.insert("id".to_string(), Value::Text("a".to_string()));
    let version = put(&mut st, rec);
    assert_eq!(whole(&st.get_at("users", "a", version).unwrap().unwrap(), "age"), 18);
    assert!(DbOptions::default().validate().is_ok());
}

#[test]
fn a_commit_into_a_dropped_table_finds_no_table() {
    let mut st = database(TableSchema::new("t", vec![Column::new("x", ColumnType::Int64)]));
    let mut ids = IdSource::new();
    let mut txn = Txn::begin(&st);
    txn.insert(&st, &mut ids, ROOM, "t", CowMap::new()).unwrap();
    let early = prepared(&st, &txn).unwrap().unwrap();
    let plan = st.plan_drop_table(false, "t").unwrap();
    st.drop_table("t", plan.catalog);
    let version = st.committed_version;
    assert!(matches!(commit(&mut st, &txn), Err(Error::TableNotFound(t)) if t == "t"));
    assert!(matches!(plan_commit(&st, early), Err(Error::TableNotFound(t)) if t == "t"));
    assert_eq!(st.committed_version, version);
}

#[test]
fn a_commit_into_a_changed_table_conflicts() {
    let mut st = filled();
    let mut txn = Txn::begin(&st);
    txn.update(&st, ROOM, "users", "a", patch("age", Value::Int64(1))).unwrap();
    let built = st.create_index(false, "users", "age", false).unwrap();
    st.adopt_index("users", "age", built, "age.run".to_string(), 10);
    assert!(matches!(
        commit(&mut st, &txn),
        Err(Error::Conflict(m)) if m == "schema for users changed while the transaction was preparing"
    ));
}

#[test]
fn a_change_is_replayed_over_the_latest_version() {
    let mut st = filled();
    let mut one = Txn::begin(&st);
    let mut two = Txn::begin(&st);
    one.update(&st, ROOM, "users", "a", patch("age", Value::Int64(40))).unwrap();
    two.update(&st, ROOM, "users", "a", patch("age", Value::Int64(37))).unwrap();
    let latest = commit(&mut st, &one).unwrap();
    let schema = st.table_schema("users").unwrap();
    let mut tables = two.staged_tables();
    let replay = Replay::over(&schema, latest, Some(user("a", "Ada", 41))).unwrap();
    tables[0].operations[0].replay = Some(replay);
    let p = match commit_staged(&st, false, &None, two.snapshot_version(), tables, ROOM).unwrap() {
        CommitRoute::Single(p) | CommitRoute::Coordinated(p) => p,
        CommitRoute::Unchanged(_) => panic!("nothing was staged"),
    };
    let planned = plan_commit(&st, p).unwrap();
    let mut load = WriterLoad { memtable_bytes: 0 };
    let mut gov = governor();
    finish_prepared_commit(&mut st, &planned, &mut load, &mut gov, 1 << 30);
    assert_eq!(whole(&st.get_at("users", "a", planned.version).unwrap().unwrap(), "age"), 41);
    assert_eq!(gov.stats().query_in_use_bytes, 0);
    let mut tables = two.staged_tables();
    tables[0].operations[0].replay = Some(Replay::over(&schema, latest, Some(user("a", "Ada", 42))).unwrap());
    let p = match commit_staged(&st, false, &None, two.snapshot_version(), tables, ROOM).unwrap() {
        CommitRoute::Single(p) | CommitRoute::Coordinated(p) => p,
        CommitRoute::Unchanged(_) => panic!("nothing was staged"),
    };
    assert!(matches!(plan_commit(&st, p), Err(Error::Conflict(_))));
}

#[test]
fn dropped_blobs_are_named() {
    let mut blobs: CowMap<String, Vec<u8>> = CowMap::new();
    for name in ["a", "b", "c"] {
        blobs.insert(name.to_string(), vec![1]);
    }
    let keep = CowSet::from_vec(vec!["b".to_string()]);
    assert_eq!(collect_garbage(&mut blobs, &keep), vec!["a", "c"]);
    assert_eq!(blobs.len(), 1);
    assert!(blobs.contains_key(b"b"));
}

#[test]
fn opening_twice_gives_the_same() {
    let mut st = filled();
    write_checkpoint_of(&mut st);
    let mut ids = IdSource::new();
    let mut txn = Txn::begin(&st);
    txn.insert(&st, &mut ids, ROOM, "users", user("d", "Dee", 1)).unwrap();
    let record = commit_logged(&mut st, &txn).unwrap().1.unwrap();
    st.committed_version = 3;
    let copy = |r: &WalRecord| WalRecord {
        version: r.version,
        changes: r
            .changes
            .iter()
            .map(|c| WalChange { table: c.table.clone(), id: c.id.clone(), payload: c.payload.clone() })
            .collect(),
        marks: Vec::new(),
    };
    let once = reopened(&st, vec![copy(&record)]).unwrap();
    let twice = reopened(&st, vec![copy(&record), copy(&record)]).unwrap();
    for again in [&once, &twice] {
        assert_eq!(again.committed_version, 4);
        assert_eq!(name_at(again, "d", 4), Some("Dee".to_string()));
        assert_eq!(name_at(again, "d", 3), None);
        assert_eq!(name_at(again, "a", 3), Some("Ada".to_string()));
    }
}

fn put_logged(st: &mut State, rec: Record) -> WalRecord {
    let mut ids = IdSource::new();
    let mut txn = Txn::begin(st);
    txn.insert(st, &mut ids, ROOM, "users", rec).unwrap();
    commit_logged(st, &txn).unwrap().1.unwrap()
}

fn same_rows(a: &State, b: &State, ids: &[&str]) {
    assert_eq!(a.committed_version, b.committed_version);
    for id in ids {
        for version in 0..=a.committed_version {
            assert_eq!(name_at(a, id, version), name_at(b, id, version), "{id} at {version}");
        }
    }
}

#[test]
fn opening_gives_back_what_was_committed() {
    let ids = ["a", "b", "c", "d", "e"];
    let mut st = filled();
    write_checkpoint_of(&mut st);
    let upto = st.committed_version;
    let log = vec![put_logged(&mut st, user("d", "Dee", 4))];
    let mut txn = Txn::begin(&st);
    assert!(txn.delete(&st, ROOM, "users", "a").unwrap());
    let mut log = log;
    log.push(commit_logged(&mut st, &txn).unwrap().1.unwrap());
    let again = reopened_from(&st, upto, log).unwrap();
    same_rows(&st, &again, &ids);
    assert!(again.id_is_above_high_watermark("users", "e"));
    assert!(!again.id_is_above_high_watermark("users", "d"));
    let mut again = again;
    let more = put_logged(&mut again, user("e", "Eve", 5));
    assert_eq!(more.version, 6);
}

#[test]
fn a_commit_that_was_not_logged_is_gone() {
    let mut st = filled();
    write_checkpoint_of(&mut st);
    let upto = st.committed_version;
    let whole = put_logged(&mut st, user("d", "Dee", 4));
    put_logged(&mut st, user("e", "Eve", 5));
    let again = reopened_from(&st, upto, vec![whole]).unwrap();
    assert_eq!(again.committed_version, 4);
    assert_eq!(name_at(&again, "d", 4), Some("Dee".to_string()));
    assert!(again.get_at("users", "e", 9).unwrap().is_none());
}

#[test]
fn a_frozen_checkpoint_keeps_later_commits_in_the_log() {
    let mut st = filled();
    let mut status = BackgroundStatus { running: false, last_error: None, commit_unknown: false };
    assert!(st.schedule_frozen_checkpoint(&mut status, 0, 1));
    let tail = vec![put_logged(&mut st, user("d", "Dee", 4))];
    let c = flush_frozen_checkpoint(&st, 3, 1).unwrap().unwrap();
    let manifest = checkpoint_manifest(3, &c.metas, 2, &st.catalog, &st.identities);
    assert_eq!(manifest.committed_version, 3);
    assert_eq!(manifest.segments.len(), 1);
    assert_eq!(manifest.wal_id, 2);
    assert_eq!(manifest.catalog.as_ref().map(|c| c.tables.len()), Some(1));
    st.adopt_frozen(3, 1, c, "f.run".to_string(), 0, 10).unwrap();
    let again = reopened_from(&st, 3, tail).unwrap();
    same_rows(&st, &again, &["a", "b", "c", "d"]);
}

#[test]
fn a_rewrite_and_a_load_are_opened_again() {
    let mut st = filled();
    write_checkpoint_of(&mut st);
    let mut txn = Txn::begin(&st);
    assert!(txn.delete(&st, ROOM, "users", "b").unwrap());
    commit(&mut st, &txn).unwrap();
    write_checkpoint_of(&mut st);
    let marks = vec![st.committed_version];
    let r = rewrite_segments_shared(&st, false, &Rewrite::Plain, &marks).unwrap();
    st.adopt_rewrite(r, 10, false);
    let again = reopened(&st, Vec::new()).unwrap();
    assert_eq!(again.committed_version, 4);
    assert_eq!(name_at(&again, "a", 4), Some("Ada".to_string()));
    assert_eq!(name_at(&again, "b", 4), None);
    assert!(again.index.visit_table("users", None, None).unwrap().iter().all(|g| g.versions.len() == 1));
    let row = BulkRow { record: user("x", "Xi", 5), external: vec![None, None] };
    let load = bulk_insert_sorted(&st, false, "users", vec![row]).unwrap().unwrap();
    st.adopt_bulk(load, "bulk.run".to_string(), 0, 10);
    let again = reopened(&st, Vec::new()).unwrap();
    assert_eq!(again.committed_version, 5);
    assert_eq!(name_at(&again, "x", 5), Some("Xi".to_string()));
    assert!(again.get_at("users", "x", 4).unwrap().is_none());
}

#[test]
fn identity_marks_come_back_with_the_log() {
    let mut st = filled();
    st.identities.insert("users".to_string(), Mark { value: 7 });
    let mark = |version: u64, table: &str, value: i64| WalRecord {
        version,
        changes: Vec::new(),
        marks: vec![WalMark { table: table.to_string(), value }],
    };
    let log = vec![mark(1, "users", 99), mark(4, "users", 9), mark(5, "users", 8), mark(6, "docs", -2)];
    let again = reopened_from(&st, 3, log).unwrap();
    assert_eq!(again.identities.get(b"users").map(|m| m.value), Some(9));
    assert_eq!(again.identities.get(b"docs").map(|m| m.value), Some(-2));
}

#[test]
fn the_steps_of_a_delta_update_are_folded() {
    type Step = Box<dyn Fn(&str, &Record) -> Result<Option<Record>, Error>>;
    let grow = |by: i64| -> Step {
        Box::new(move |_: &str, rec: &Record| {
            let mut out = rec.duplicate();
            out.insert("age".to_string(), Value::Int64(whole(rec, "age") + by));
            Ok(Some(out))
        })
    };
    let none: Step = Box::new(|_: &str, _: &Record| Ok(None));
    let fails: Step = Box::new(|_: &str, _: &Record| Err(Error::ReadOnly));
    let mut st = filled();
    let schema = st.table_schema("users").unwrap();
    let latest = st.latest_owned("users", "a").unwrap().unwrap();
    let out = rebase_change(&st, &schema, "a", &vec![grow(1), grow(10)], &latest).unwrap().unwrap();
    assert_eq!(whole(&out, "age"), 47);
    assert!(rebase_change(&st, &schema, "a", &vec![grow(1), none], &latest).unwrap().is_none());
    assert!(rebase_change(&st, &schema, "a", &vec![fails, grow(1)], &latest).unwrap().is_none());
    let replay = replay_latest(&st, &schema, "a", &vec![grow(5)]).unwrap().unwrap();
    assert_eq!(replay.version, latest.version);
    assert_eq!(replay.outcome.map(|r| whole(&r.record, "age")), Some(41));
    assert!(replay_latest(&st, &schema, "nobody", &vec![grow(5)]).unwrap().is_none());
    let mut txn = Txn::begin(&st);
    assert!(txn.delete(&st, ROOM, "users", "a").unwrap());
    commit(&mut st, &txn).unwrap();
    let gone = replay_latest(&st, &schema, "a", &vec![grow(5)]).unwrap().unwrap();
    assert!(gone.outcome.is_none());
}

fn taken_anew() -> State {
    let mut st = filled();
    write_checkpoint_of(&mut st);
    let plan = st.plan_drop_table(false, "users").unwrap();
    st.drop_table("users", plan.catalog);
    st.create_table(false, Ok(()), users()).unwrap();
    st
}

#[test]
fn a_table_that_takes_a_name_over_owns_no_older_record() {
    let mut st = taken_anew();
    assert!(st.table_is_empty("users"));
    assert!(st.ids_needing_fill("users", "city", 10, None).unwrap().is_empty());
    let built = st.create_index(false, "users", "age", true).unwrap();
    st.adopt_index("users", "age", built, "age.run".to_string(), 10);
    assert!(found(&st, "age", &Value::Int64(36)).is_empty());
    put(&mut st, user("d", "Dee", 36));
    assert!(!st.table_is_empty("users"));
    assert_eq!(found(&st, "age", &Value::Int64(36)), vec!["d"]);
    let mut needed = column("city", ColumnType::Text);
    needed.nullable = false;
    assert!(matches!(st.add_column(false, Ok(()), "users", needed.duplicate()), Err(Error::SchemaViolation(_))));
    let st = taken_anew();
    assert!(matches!(st.add_column(false, Ok(()), "users", needed), Ok(AlterPlan::Publish(_))));
}

#[test]
fn a_stream_finds_what_is_there_now() {
    let mut st = filled();
    write_checkpoint_of(&mut st);
    put(&mut st, user("d", "Dee", 36));
    let mut txn = Txn::begin(&st);
    txn.update(&st, ROOM, "users", "a", patch("age", Value::Int64(37))).unwrap();
    txn.delete(&st, ROOM, "users", "c").unwrap();
    commit(&mut st, &txn).unwrap();
    assert_eq!(found(&st, "age", &Value::Int64(36)), vec!["d"]);
    assert_eq!(found(&st, "age", &Value::Int64(37)), vec!["a"]);
    write_checkpoint_of(&mut st);
    assert_eq!(found(&st, "age", &Value::Int64(36)), vec!["d"]);
    assert_eq!(found(&st, "age", &Value::Int64(37)), vec!["a"]);
}

#[test]
fn what_is_found_wrong_with_a_schema_comes_after_the_read_only_test() {
    let wrong = || Err(Error::SchemaViolation("no columns".to_string()));
    let mut st = State::initial();
    assert!(matches!(st.create_table(true, wrong(), users()), Err(Error::ReadOnly)));
    assert!(matches!(st.create_table(false, wrong(), users()), Err(Error::SchemaViolation(m)) if m == "no columns"));
    assert!(st.tables().is_empty());
    st.create_table(false, Ok(()), users()).unwrap();
    assert!(matches!(st.create_table(false, wrong(), users()), Err(Error::SchemaViolation(_))));
    let added = column("city", ColumnType::Text);
    assert!(matches!(st.add_column(true, wrong(), "users", added.duplicate()), Err(Error::ReadOnly)));
    assert!(matches!(st.add_column(false, wrong(), "none", added), Err(Error::SchemaViolation(_))));
    assert!(matches!(catalog_generation(wrong(), Manifest::initial(), &st.catalog), Err(Error::SchemaViolation(_))));
    let next = catalog_generation(Ok(()), Manifest::initial(), &st.catalog).unwrap();
    assert_eq!(next.catalog.unwrap().tables.len(), 1);
}

#[test]
fn the_first_fault_of_a_transaction_is_told() {
    let mut schema = users();
    schema.indexes.push(IndexDef { column: "age".to_string(), unique: true });
    let mut st = database(schema);
    put(&mut st, user("a", "Ada", 36));
    let mut ids = IdSource::new();
    let mut late = Txn::begin(&st);
    late.update(&st, ROOM, "users", "a", patch("age", Value::Int64(1))).unwrap();
    late.insert(&st, &mut ids, ROOM, "users", user("b", "Bob", 36)).unwrap();
    let planned = prepared(&st, &late).unwrap().unwrap();
    put(&mut st, user("c", "Cy", 1));
    // Nothing moved on, so the unique index is what speaks: it is asked in the order of the ids.
    assert!(matches!(
        plan_commit(&st, planned),
        Err(Error::UniqueViolation { table, column }) if table == "users" && column == "age"
    ));
    let planned = prepared(&st, &late).unwrap().unwrap();
    let mut other = Txn::begin(&st);
    other.update(&st, ROOM, "users", "a", patch("name", Value::Text("Eve".to_string()))).unwrap();
    commit(&mut st, &other).unwrap();
    assert!(matches!(
        plan_commit(&st, planned),
        Err(Error::Conflict(m)) if m == "users/a changed after this transaction began"
    ));
}

#[test]
fn a_unique_index_keeps_its_promise_through_upkeep() {
    let mut schema = users();
    schema.indexes.push(IndexDef { column: "age".to_string(), unique: true });
    let mut st = database(schema);
    put(&mut st, user("a", "Ada", 36));
    put(&mut st, user("b", "Bob", 20));
    write_checkpoint_of(&mut st);
    let refused = |st: &mut State, id: &str| {
        let mut ids = IdSource::new();
        let mut txn = Txn::begin(st);
        txn.insert(st, &mut ids, ROOM, "users", user(id, "Cy", 36)).unwrap();
        matches!(commit(st, &txn), Err(Error::UniqueViolation { .. }))
    };
    assert!(refused(&mut st, "c"));
    let marks = vec![st.committed_version];
    let r = rewrite_segments_shared(&st, false, &Rewrite::Plain, &marks).unwrap();
    st.adopt_rewrite(r, 10, false);
    assert!(refused(&mut st, "d"));
    assert_eq!(found(&st, "age", &Value::Int64(36)), vec!["a"]);
    let mut swap = Txn::begin(&st);
    swap.update(&st, ROOM, "users", "a", patch("age", Value::Int64(20))).unwrap();
    swap.update(&st, ROOM, "users", "b", patch("age", Value::Int64(36))).unwrap();
    commit(&mut st, &swap).unwrap();
    assert_eq!(found(&st, "age", &Value::Int64(36)), vec!["b"]);
    assert_eq!(found(&st, "age", &Value::Int64(20)), vec!["a"]);
}

#[test]
fn a_renamed_column_is_still_looked_up() {
    let mut st = filled();
    write_checkpoint_of(&mut st);
    let marks = vec![st.committed_version];
    match st.rename_column(false, "users", "name", "title").unwrap() {
        AlterPlan::Carry(intent) => {
            let rw = intent.rewrite().unwrap();
            let r = rewrite_segments_shared(&st, false, &rw, &marks).unwrap();
            st.adopt_rewrite(r, 10, true);
        }
        _ => panic!("a rename of a column rewrites the records"),
    }
    assert_eq!(found(&st, "title", &Value::Text("Ada".to_string())), vec!["a"]);
    assert_eq!(found(&st, "age", &Value::Int64(36)), vec!["a", "c"]);
    assert!(st.find_eq(false, "users", "name", &Value::Text("Ada".to_string())).is_err());
}

#[test]
fn a_reference_finds_its_record_through_upkeep() {
    let mut st = filled();
    let mut posts = TableSchema::new("posts", vec![column("author", ColumnType::Int64)]);
    posts.foreign_keys.push(ForeignKey {
        column: "author".to_string(),
        referenced_table: "users".to_string(),
        referenced_column: "age".to_string(),
        on_delete: ReferentialAction::Restrict,
    });
    st.create_table(false, Ok(()), posts).unwrap();
    let mut ids = IdSource::new();
    let mut txn = Txn::begin(&st);
    txn.insert(&st, &mut ids, ROOM, "posts", patch("author", Value::Int64(36))).unwrap();
    commit(&mut st, &txn).unwrap();
    write_checkpoint_of(&mut st);
    // Two users have the age: one of them may go, the other is then held.
    let mut txn = Txn::begin(&st);
    assert!(txn.delete(&st, ROOM, "users", "a").unwrap());
    commit(&mut st, &txn).unwrap();
    let mut txn = Txn::begin(&st);
    txn.update(&st, ROOM, "users", "c", patch("age", Value::Int64(1))).unwrap();
    assert!(matches!(
        commit(&mut st, &txn),
        Err(Error::SchemaViolation(m)) if m.starts_with("cannot replace referenced key users.age")
    ));
    let mut txn = Txn::begin(&st);
    txn.update(&st, ROOM, "users", "c", patch("age", Value::Int64(1))).unwrap();
    txn.update(&st, ROOM, "users", "b", patch("age", Value::Int64(36))).unwrap();
    commit(&mut st, &txn).unwrap();
    assert_eq!(found(&st, "age", &Value::Int64(36)), vec!["b"]);
}
