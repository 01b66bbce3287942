use elitesql_core::cow::CowMap;
use elitesql_core::debt::{AutoCompaction, Debt, Snapshots};
use elitesql_core::error::Error;
use elitesql_core::find::Hit;
use elitesql_core::json::{
    create_text_index_json, create_vector_index_json, filter_from_json, json_to_value, json_to_value_for_type,
    record_to_json, search_hybrid_json, search_text_json, search_vector_json, tagged_to_value, value_to_json, FieldIn,
    FieldOut, FilterField, JsonIn, JsonOut, TextPart, VectorIn, VectorIndexRequest,
};
use elitesql_core::levels::SegmentMeta;
use elitesql_core::lockstat::{blame, report, LockSite, LockStat};
use elitesql_core::memory::{Admission, MemoryGovernor, MemoryLimits, MemoryPool};
use elitesql_core::open::{check_create, check_open};
use elitesql_core::options::{AutoCompactionOptions, DbOptions, Durability, MemoryOptions};
use elitesql_core::order::Datum;
use elitesql_core::pipeline::{
    commit_outcome, derived_schedule_needed, elapsed_nanos, ensure_canonical_writable, finish_wal_sync, leader_waits,
    relieve, should_coalesce_safe_batch, sync_due, BackgroundStatus, CommitQueue, Pressure, Relief, SyncCounters,
};
use elitesql_core::record::Record;
use elitesql_core::schema::{Column, IndexingMode, TableSchema, VectorIndexDef, VectorMetric};
use elitesql_core::search::{
    candidate_capacity, fuse, indexing_state, plan_hybrid, rank_scores, scores_above, Indexing, Standing, VectorCount,
    VectorSearch,
};
use elitesql_core::state::State;
use elitesql_core::stats::{MaintenanceCounters, QueryCounters};
use elitesql_core::value::{same_value, ColumnType, Value};
use elitesql_core::vectors::{
    check_graph_build, check_graph_version, check_graphs_retained, dump_usable, is_mapped_form,
};

fn message(e: Error) -> String {
    match e {
        Error::InvalidArgument(m) => m,
        Error::MemoryLimit(m) => m,
        Error::SchemaViolation(m) => m,
        Error::Io(m) => m,
        Error::Corrupt(m) => m,
        other => panic!("{other:?}"),
    }
}

fn limits(query: usize) -> MemoryLimits {
    MemoryLimits { total: 100, query, index_delta: 20, maintenance: 30, reserve: 10 }
}

#[test]
fn query_permits_wait_and_wake() {
    let mut gov = MemoryGovernor::new(limits(40));
    assert_eq!(gov.acquire(MemoryPool::Query, 40, false), Admission::Granted);
    assert_eq!(gov.acquire(MemoryPool::Query, 40, false), Admission::Wait);
    gov.release(MemoryPool::Query, 40);
    assert_eq!(gov.acquire(MemoryPool::Query, 40, true), Admission::Granted);
    assert_eq!(gov.stats().query_waits, 1);
}

#[test]
fn a_query_waits_until_another_releases() {
    let mut gov = MemoryGovernor::new(limits(40));
    assert_eq!(gov.acquire(MemoryPool::Query, 30, false), Admission::Granted);
    assert_eq!(gov.acquire(MemoryPool::Query, 30, false), Admission::Wait);
    assert_eq!(gov.acquire(MemoryPool::Query, 30, true), Admission::Wait);
    assert_eq!(gov.stats().query_waits, 1);
    assert_eq!(gov.stats().query_in_use_bytes, 30);
    gov.release(MemoryPool::Query, 30);
    assert_eq!(gov.acquire(MemoryPool::Query, 30, true), Admission::Granted);
    assert_eq!(gov.stats().query_peak_bytes, 30);
    assert_eq!(gov.stats().maintenance_in_use_bytes, 0);
    assert!(gov.try_acquire(MemoryPool::Maintenance, 30));
    assert!(!gov.try_acquire(MemoryPool::Maintenance, 1));
    assert_eq!(gov.stats().query_in_use_bytes, 30);
    gov.release(MemoryPool::Query, 100);
    assert_eq!(gov.stats().query_in_use_bytes, 0);
}

#[test]
fn index_deltas_have_their_own_limit() {
    let mut gov = MemoryGovernor::new(limits(40));
    assert_eq!(gov.index_capacity(), 20);
    gov.set_index_delta_bytes(15);
    assert!(!gov.index_would_exceed(5));
    assert!(gov.index_would_exceed(6));
    gov.add_index_delta_bytes(10);
    gov.set_index_delta_bytes(3);
    gov.record_index_consolidation();
    assert_eq!(gov.stats().index_delta_bytes, 3);
    assert_eq!(gov.stats().index_delta_peak_bytes, 25);
    assert_eq!(gov.stats().index_consolidations, 1);
}

#[test]
fn options_break_one_rule_at_a_time() {
    assert!(DbOptions::default().validate().is_ok());
    assert!(DbOptions::ingest_performance().validate().is_ok());
    assert!(!AutoCompactionOptions::disabled().enabled);
    assert_eq!(MemoryOptions::ingest_performance().index_delta_pool_bytes, 192 << 20);
    let complaint = |change: fn(&mut DbOptions)| {
        let mut o = DbOptions::default();
        change(&mut o);
        message(o.validate().unwrap_err())
    };
    assert_eq!(
        complaint(|o| o.auto_compaction.min_reclaim_ratio_percent = 101),
        "auto_compaction.min_reclaim_ratio_percent must be between 0 and 100"
    );
    assert_eq!(
        complaint(|o| o.auto_compaction.min_obsolete_operations = 0),
        "auto_compaction.min_obsolete_operations must be positive"
    );
    assert_eq!(
        complaint(|o| o.auto_compaction.force_reclaim_bytes = 0),
        "auto_compaction.force_reclaim_bytes must be positive"
    );
    assert_eq!(complaint(|o| o.auto_compaction.max_segments = 1), "auto_compaction.max_segments must be at least 2");
    let mut o = DbOptions::default();
    o.memory.query_pool_bytes = 0;
    assert!(matches!(o.validate(), Err(Error::InvalidArgument(_))));
    let mut o = DbOptions::default();
    o.memory.scan_batch_rows = 0;
    assert!(matches!(o.validate(), Err(Error::InvalidArgument(_))));
    assert_eq!(MemoryOptions::default().limits().query, 64 << 20);
}

#[test]
fn a_database_is_created_once_and_opened_where_it_is() {
    let o = DbOptions::default();
    assert!(check_create(&o, false, "p").is_ok());
    assert!(check_create(&o, true, "p").is_err());
    assert!(check_open(&o, true, "p").is_ok());
    assert!(check_open(&o, false, "p").is_err());
    let mut read_only = DbOptions::default();
    read_only.read_only = true;
    assert!(check_create(&read_only, false, "p").is_err());
}

#[test]
fn snapshots_are_counted_by_version() {
    let mut s = Snapshots::new();
    s.open(5);
    s.open(3);
    s.open(5);
    assert_eq!(s.watermarks(9), vec![3, 5, 9]);
    s.close(5);
    assert_eq!(s.watermarks(9), vec![3, 5, 9]);
    s.retain();
    s.close(5);
    assert_eq!(s.watermarks(9), vec![3, 9]);
    assert!(s.take_refresh());
    assert!(!s.take_refresh());
    s.close(100);
    assert_eq!(s.watermarks(3), vec![3]);
}

#[test]
fn compaction_starts_when_it_is_worth_it() {
    let options = AutoCompactionOptions::default();
    let mut auto = AutoCompaction::new();
    let metas = vec![SegmentMeta { id: 1, len: 1000 }];
    assert!(!auto.auto_compaction_needed(&options, false, &metas, None));
    auto.record_obsolete(10_000, 250);
    assert!(auto.auto_compaction_needed(&options, false, &metas, None));
    assert!(!auto.auto_compaction_needed(&options, true, &metas, None));
    assert!(!auto.auto_compaction_needed(&options, false, &metas, Some(59_999_999_999)));
    assert!(auto.auto_compaction_needed(&options, false, &metas, Some(60_000_000_000)));
    assert!(!auto.auto_compaction_needed(&AutoCompactionOptions::disabled(), false, &metas, None));
    assert!(auto.maybe_schedule(true, true));
    assert!(!auto.maybe_schedule(true, true));
    auto.clear_schedule();
    assert!(!auto.maybe_schedule(true, false));
    auto.reset_compaction_debt(Debt { operations: 0, bytes: 0 });
    assert!(!auto.auto_compaction_needed(&options, false, &metas, None));
    let many: Vec<SegmentMeta> = (0..64).map(|id| SegmentMeta { id, len: 1 }).collect();
    assert!(auto.auto_compaction_needed(&options, false, &many, None));
    auto.record_obsolete(0, 256 << 20);
    assert!(!auto.auto_compaction_needed(&options, false, &metas, None));
    auto.record_obsolete(1, 256 << 20);
    assert!(auto.auto_compaction_needed(&options, false, &metas, None));
}

#[test]
fn a_commit_without_room_is_relieved_step_by_step() {
    let mut p = Pressure {
        exceeds: true,
        sync_group: true,
        derived_running: true,
        derived_pending: true,
        derived_tried: false,
        checkpoint_frozen: true,
        checkpoint_tried: false,
    };
    assert_eq!(relieve(&p), Relief::WaitSyncGroup);
    p.sync_group = false;
    assert_eq!(relieve(&p), Relief::WaitDerived);
    p.derived_running = false;
    assert_eq!(relieve(&p), Relief::ScheduleDerived);
    p.derived_tried = true;
    assert_eq!(relieve(&p), Relief::WaitCheckpoint);
    p.checkpoint_frozen = false;
    assert_eq!(relieve(&p), Relief::ScheduleCheckpoint);
    p.checkpoint_tried = true;
    assert_eq!(relieve(&p), Relief::Refuse);
    p.exceeds = false;
    assert_eq!(relieve(&p), Relief::Proceed);
}

#[test]
fn a_failed_sync_leaves_the_commit_unknown() {
    assert!(sync_due(Durability::Safe));
    assert!(!sync_due(Durability::Fast));
    assert_eq!(commit_outcome(7, &None).unwrap(), 7);
    assert!(matches!(commit_outcome(7, &Some("disk".to_string())), Err(Error::CommitUnknown(_))));
    let mut counters =
        SyncCounters { syncs: 0, nanos: 0, bytes: 0, max_group_commits: 0, max_group_bytes: 0, grouped_commits: 0 };
    let ok = finish_wal_sync(&mut counters, 10, 3, 100, None);
    assert!(ok.result.is_ok());
    assert!(ok.fence.is_none());
    assert_eq!(counters.syncs, 1);
    assert_eq!(counters.max_group_commits, 3);
    let failed = finish_wal_sync(&mut counters, 10, 3, 100, Some("disk".to_string()));
    assert!(failed.result.is_err());
    assert!(ensure_canonical_writable(&failed.fence).is_err());
    assert!(ensure_canonical_writable(&None).is_ok());
    assert!(leader_waits(1, 5));
    assert!(!leader_waits(0, 5));
    let mut budget = 0;
    assert!(!should_coalesce_safe_batch(Durability::Safe, 5, 1, &mut budget));
    assert!(should_coalesce_safe_batch(Durability::Safe, 5, 2, &mut budget));
    assert!(budget > 0);
    assert!(should_coalesce_safe_batch(Durability::Safe, 5, 1, &mut budget));
    assert!(!should_coalesce_safe_batch(Durability::Fast, 5, 2, &mut budget));
    assert_eq!(elapsed_nanos(u128::MAX), u64::MAX);
    assert_eq!(elapsed_nanos(5), 5);
}

#[test]
fn background_errors_are_told_once() {
    let mut status = BackgroundStatus { running: false, last_error: None, commit_unknown: false };
    assert!(status.take_error().is_ok());
    status.defer("lost", false);
    assert!(status.take_error().is_err());
    assert!(status.take_error().is_ok());
    status.defer("lost", true);
    assert!(matches!(status.take_error(), Err(Error::CommitUnknown(_))));
}

#[test]
fn commits_queue_behind_one_leader() {
    let mut q = CommitQueue { active: false, waiting: Vec::new() };
    assert!(q.join(1));
    assert!(!q.join(2));
    assert!(!q.join(3));
    assert_eq!(q.take_batch(1), vec![1]);
    assert_eq!(q.hand_over(), Some(2));
    assert_eq!(q.take_batch(10), vec![2, 3]);
    assert_eq!(q.hand_over(), None);
    assert!(q.join(4));
}

#[test]
fn derived_indexes_are_published_when_they_weigh() {
    let mut gov = MemoryGovernor::new(MemoryLimits { total: 100, query: 10, index_delta: 32, maintenance: 10, reserve: 1 });
    gov.set_index_delta_bytes(16);
    assert!(derived_schedule_needed(&gov.stats(), 2));
    assert!(!derived_schedule_needed(&gov.stats(), 1));
    gov.set_index_delta_bytes(15);
    assert!(!derived_schedule_needed(&gov.stats(), 2));
}

#[test]
fn counters_add_up() {
    let mut c = MaintenanceCounters::new();
    c.record_automatic_compaction(true, 5, 100, 60);
    c.record_automatic_compaction(false, 5, 100, 60);
    assert_eq!(c.automatic_compactions, 1);
    assert_eq!(c.automatic_compaction_failures, 1);
    assert_eq!(c.automatic_compaction_bytes_reclaimed, 40);
    let stats = c.maintenance_stats(&State::initial(), 3, 4, 0);
    assert_eq!(stats.automatic_compactions, 1);
    let mut q = QueryCounters::new();
    q.record_query_buffer(10);
    q.record_query_buffer(5);
    q.record_query_spill(7);
    let s = q.query_memory_stats();
    assert_eq!((s.spill_files, s.spilled_bytes, s.peak_buffer_bytes), (1, 7, 10));
}

#[test]
fn a_lock_report_names_the_most_blamed_place_first() {
    assert_eq!(blame(true, 100, 50, 60), 0);
    assert_eq!(blame(false, 100, 50, 0), 0);
    assert_eq!(blame(false, 100, 50, 60), 40);
    assert_eq!(blame(false, 100, 20, 60), 20);
    let mut a = LockStat::new();
    a.record(3_000, 1_000, 0);
    a.record(1_000, 0, 0);
    let mut b = LockStat::new();
    b.record(2_000, 0, 5_000);
    let mut sum = LockStat::new();
    sum.absorb(&a);
    sum.absorb(&b);
    assert_eq!(sum.count, 3);
    assert_eq!(sum.max_hold_ns, 3_000);
    let text = report(vec![
        LockSite { file: "a.rs".to_string(), line: 1, write: true, stat: a },
        LockSite { file: "b.rs".to_string(), line: 22, write: false, stat: b },
    ]);
    assert_eq!(
        text,
        "kind\tcount\ttotal_hold_us\tmax_hold_us\ttotal_wait_us\tblame_us\tsite\n\
         R\t1\t2\t2\t0\t5\tb.rs:22\n\
         W\t2\t4\t3\t1\t0\ta.rs:1\n"
    );
}

#[test]
fn scores_are_ranked_best_first() {
    let scores: Vec<u32> = [0.5f32, -1.0, 2.0, 0.5, -0.0, 0.0].iter().map(|s| s.to_bits()).collect();
    assert_eq!(rank_scores(&scores), vec![2, 0, 3, 5, 4, 1]);
    assert!(scores_above(0.0f32.to_bits(), (-0.0f32).to_bits()));
    assert!(!scores_above(1.0f32.to_bits(), 1.0f32.to_bits()));
    assert!(scores_above(f32::NAN.to_bits(), f32::INFINITY.to_bits()));
}

#[test]
fn rankings_are_fused_by_place() {
    let hit = |id: &str| Hit { id: id.to_string(), record: CowMap::new() };
    let mut standings: CowMap<String, Standing> = CowMap::new();
    fuse(&mut standings, &vec![hit("a"), hit("b")]);
    fuse(&mut standings, &vec![hit("b"), hit("c")]);
    assert_eq!(standings.len(), 3);
    let places = |id: &str| standings.get(id.as_bytes()).unwrap().ranks.clone();
    assert_eq!(places("a").len(), 1);
    assert_eq!(places("b").len(), 2);
    assert_eq!(places("a")[0] + 1, places("b")[0]);
    assert_eq!(places("b")[1], places("a")[0]);
}

#[test]
fn searches_stay_within_their_budget() {
    assert_eq!(candidate_capacity(640, 64), 10);
    assert_eq!(candidate_capacity(0, 64), 1);
    assert!(plan_hybrid(false, false, 5, 1 << 20).is_err());
    assert_eq!(plan_hybrid(true, false, 0, 1 << 20).unwrap(), None);
    assert_eq!(plan_hybrid(true, true, 5, 1 << 20).unwrap(), Some(50));
    assert_eq!(plan_hybrid(true, true, 20, 1 << 20).unwrap(), Some(80));
    assert!(matches!(plan_hybrid(true, true, 11, 1280), Err(Error::MemoryLimit(m))
        if m == "hybrid top_k=11 exceeds its per-query capacity 10"));
    let mut search = VectorSearch { top_k: 3, fetch: 2, limit: 7, ef: 5 };
    assert_eq!(search.width(), 5);
    assert!(search.settle(3));
    assert!(!search.settle(2));
    assert_eq!(search.fetch, 7);
    assert_eq!(search.width(), 7);
    assert!(search.settle(0));
    assert!(matches!(indexing_state(0, false, &None), Indexing::Done));
    assert!(matches!(indexing_state(1, true, &None), Indexing::Wait));
    assert!(matches!(indexing_state(1, false, &None), Indexing::Failed(Error::Io(m))
        if m == "vector indexing worker stopped with pending work"));
    assert!(matches!(indexing_state(1, false, &Some("x".to_string())), Indexing::Failed(Error::Io(m)) if m == "x"));
}

#[test]
fn searches_need_their_index() {
    let mut st = State::initial();
    let column = |name: &str, ty, dim| Column {
        name: name.to_string(),
        ty,
        nullable: true,
        default: None,
        dim,
        identity: false,
    };
    let schema = TableSchema::new(
        "docs",
        vec![column("body", ColumnType::Text, None), column("at", ColumnType::Vector, Some(3))],
    );
    st.create_table(false, Ok(()), schema).unwrap();
    assert!(!st.plan_text_search(1 << 20, "docs", "body", "x", 0, None, true).unwrap());
    assert!(st.plan_text_search(1 << 20, "docs", "body", "x", 5, None, true).unwrap());
    assert!(matches!(
        st.plan_text_search(1 << 20, "docs", "body", "x", 5, None, false),
        Err(Error::InvalidArgument(m)) if m == "no text index on docs.body; create one with create_text_index"
    ));
    assert!(matches!(
        st.plan_text_search(64, "docs", "body", "x", 5, None, true),
        Err(Error::MemoryLimit(_))
    ));
    assert!(matches!(
        st.plan_vector_search(1 << 20, "docs", "at", 3, 5, None, None, None),
        Err(Error::InvalidArgument(m)) if m == "no vector index on docs.at; create one with create_vector_index"
    ));
    let count = VectorCount { live: 100, total: 120 };
    assert!(st.plan_vector_search(1 << 20, "docs", "at", 3, 0, None, None, Some(count)).unwrap().is_none());
    let plan = st.plan_vector_search(1 << 20, "docs", "at", 3, 5, None, None, Some(count)).unwrap().unwrap();
    assert_eq!(plan.top_k, 5);
    assert!(plan.fetch >= 5);
    assert!(st.plan_vector_search(1 << 20, "docs", "at", 2, 5, None, None, Some(count)).is_err());
}

#[test]
fn stored_graphs_are_checked_before_use() {
    assert!(dump_usable(Some(5), 5));
    assert!(!dump_usable(Some(6), 5));
    assert!(!dump_usable(None, 5));
    assert!(is_mapped_form(&[0, 0, 0, 0, 0, 0, 0, 0, 4, 0, 0, 0]));
    assert!(!is_mapped_form(&[0, 0, 0, 0, 0, 0, 0, 0, 3, 0, 0, 0]));
    assert!(!is_mapped_form(&[4]));
    assert!(check_graph_build("t", "c", 10, 10).is_ok());
    assert_eq!(
        message(check_graph_build("t", "c", 11, 10).unwrap_err()),
        "building vector index t.c exceeds the 10-byte maintenance pool; raise memory.maintenance_pool_bytes"
    );
    assert!(check_graphs_retained(5, 5, 10).is_ok());
    assert!(check_graphs_retained(5, 6, 10).is_err());
    assert!(check_graph_version(true, 4, 4).is_ok());
    assert_eq!(
        message(check_graph_version(false, 4, 5).unwrap_err()),
        "rebuilt vector index has the wrong generation"
    );
}

fn field_in(name: &str, out: &FieldOut) -> FieldIn {
    let mut f = FieldIn {
        name: name.to_string(),
        text: None,
        whole: None,
        float: None,
        moment: None,
        vector: VectorIn::Missing,
        raw: String::new(),
    };
    match out {
        FieldOut::Text(s) => {
            f.text = Some(s.clone());
            f.float = s.parse::<f64>().ok().map(f64::to_bits);
        }
        FieldOut::Int(n) => f.whole = Some(*n),
        FieldOut::Raw(s) => f.raw = s.clone(),
        FieldOut::Vector(v) => f.vector = VectorIn::Components(v.clone()),
    }
    f
}

fn read_back(out: &JsonOut) -> JsonIn {
    match out {
        JsonOut::Null => JsonIn::Null,
        JsonOut::Bool(b) => JsonIn::Bool(*b),
        JsonOut::Int(n) => JsonIn::Number { whole: Some(*n), float: (*n as f64).to_bits(), raw: n.to_string() },
        JsonOut::Float(bits) => JsonIn::Number { whole: None, float: *bits, raw: String::new() },
        JsonOut::Text(s) => JsonIn::Text { text: s.clone(), moment: None, raw: String::new() },
        JsonOut::Tagged { tag, fields } => JsonIn::Tagged {
            tag: tag.clone(),
            fields: fields.iter().map(|f| field_in(&f.name, &f.value)).collect(),
            raw: String::new(),
        },
    }
}

#[test]
fn values_round_trip_through_json() {
    let values = vec![
        Value::Null,
        Value::Bool(true),
        Value::Int64(-3),
        Value::Float64(1.5f64.to_bits()),
        Value::Float64(2.0f64.to_bits()),
        Value::Float64(f64::INFINITY.to_bits()),
        Value::Float64(f64::NEG_INFINITY.to_bits()),
        Value::Text("x".to_string()),
        Value::Blob(vec![1, 2]),
        Value::Json("[1]".to_string()),
        Value::Vector(vec![1.5f32.to_bits()]),
    ];
    for v in &values {
        let back = json_to_value(&read_back(&value_to_json(v))).unwrap();
        assert!(same_value(&back, v), "{v:?} {back:?}");
    }
    let mut rec: Record = CowMap::new();
    rec.insert("a".to_string(), Value::Int64(1));
    let members = record_to_json(&rec);
    assert_eq!(members.len(), 1);
    assert_eq!(members[0].name, "a");
    assert!(tagged_to_value("nonsense", &Vec::new()).is_err());
    let whole = JsonIn::Number { whole: Some(3), float: 3.0f64.to_bits(), raw: "3".to_string() };
    let v = json_to_value_for_type(&whole, ColumnType::Float64).unwrap();
    assert!(same_value(&v, &Value::Float64(3.0f64.to_bits())));
}

#[test]
fn requests_say_what_they_miss() {
    let some = |s: &str| Some(s.to_string());
    assert_eq!(message(create_text_index_json(None, some("c")).err().unwrap()), "missing 'table'");
    assert_eq!(message(create_text_index_json(some("t"), None).err().unwrap()), "missing 'column'");
    let t = create_text_index_json(some("t"), some("c")).ok().unwrap();
    assert_eq!((t.table.as_str(), t.column.as_str()), ("t", "c"));
    let base = VectorIndexDef {
        column: String::new(),
        metric: VectorMetric::Cosine,
        m: 16,
        ef_construction: 100,
        mode: IndexingMode::Sync,
        quantized: false,
    };
    let request = |metric: Option<String>| VectorIndexRequest {
        table: some("t"),
        column: some("c"),
        metric,
        mode: None,
        m: Some(8),
        ef_construction: None,
        quantized: None,
    };
    let order = create_vector_index_json(request(some("l2")), &base).ok().unwrap();
    assert_eq!(order.def.metric, VectorMetric::L2);
    assert_eq!(order.def.m, 8);
    assert_eq!(order.def.ef_construction, 100);
    assert_eq!(message(create_vector_index_json(request(some("x")), &base).err().unwrap()), "unknown metric 'x'");
    let order = search_text_json(some("t"), some("c"), some("words"), None).ok().unwrap();
    assert_eq!(order.query, "words");
    assert_eq!(order.top_k, 10);
    assert!(search_text_json(some("t"), some("c"), None, None).is_err());
    assert!(search_vector_json(some("t"), some("c"), VectorIn::Missing, None, None).is_err());
    let order = search_vector_json(some("t"), some("c"), VectorIn::Components(vec![1]), Some(3), Some(80)).ok().unwrap();
    assert_eq!(order.vector, vec![1]);
    assert_eq!(order.top_k, 3);
    assert_eq!(order.ef_search, Some(80));
    let order = search_hybrid_json(some("t"), Some(TextPart { column: some("c"), query: some("q") }), None, None, Some(7)).ok().unwrap();
    assert!(order.vector.is_none());
    assert_eq!(order.ef_search, Some(7));
    assert_eq!(order.text.unwrap().query, "q");
    let filter = filter_from_json(&vec![FilterField { name: "a".to_string(), value: JsonIn::Bool(true) }]).unwrap();
    assert!(same_value(filter.get(b"a").unwrap(), &Value::Bool(true)));
    assert!(same_value(&filter.get(b"a").unwrap().duplicate(), &Value::Bool(true)));
}

#[test]
fn what_is_in_use_is_the_sum_of_the_permits() {
    let limits = MemoryLimits { total: 100, query: 50, index_delta: 20, maintenance: 20, reserve: 10 };
    let mut g = MemoryGovernor::new(limits);
    let mut live: Vec<usize> = Vec::new();
    for bytes in [10, 20, 30, 5, 15] {
        if g.try_acquire(MemoryPool::Query, bytes) {
            live.push(bytes);
        }
        assert_eq!(g.stats().query_in_use_bytes, live.iter().sum::<usize>() as u64);
    }
    assert_eq!(live, vec![10, 20, 5, 15]);
    assert!(matches!(g.acquire(MemoryPool::Query, 1, false), Admission::Wait));
    while let Some(bytes) = live.pop() {
        g.release(MemoryPool::Query, bytes);
        assert_eq!(g.stats().query_in_use_bytes, live.iter().sum::<usize>() as u64);
    }
    assert_eq!(g.stats().query_peak_bytes, 50);
    assert_eq!(g.stats().maintenance_in_use_bytes, 0);
}
