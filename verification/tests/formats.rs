use elitesql_core::bytes::{push_be, push_le, read_be, read_le, text_from_utf8};
use elitesql_core::checksum::checksum;
use elitesql_core::cow::CowMap;
use elitesql_core::ddl::Rewrite;
use elitesql_core::error::Error;
use elitesql_core::files::{
    index_file, index_manifest_file, index_orphan, index_run_file, primary_run_orphan, segment_orphan, wal_orphan,
};
use elitesql_core::frozen::DerivedKind;
use elitesql_core::ids::IdSource;
use elitesql_core::levels::SegmentMeta;
use elitesql_core::log::{frame, scan_log};
use elitesql_core::manifest::{decode, encode, Manifest, PublishStep};
use elitesql_core::paged::{merge_paged_indexes, sort_rows, PagedIndex, Row};
use elitesql_core::payload::{encoded_column_needs_fill, rewrite_payload_columns, scan_payload_blob_refs, transform_payload};
use elitesql_core::record::{decode_record, encode_record_ordered, encoded_record_column_eq, external_columns, Record};
use elitesql_core::schema::{Column, TableSchema};
use elitesql_core::secondary::{
    decode_secondary_operation, secondary_operation, secondary_pair_key, secondary_pair_parts, SecIdx,
};
use elitesql_core::segment::{append_entry, read_entry, scan_segment};
use elitesql_core::text::{
    decimal_text, format_date, format_time, format_timestamp, hex_decode, hex_encode, padded_text, ymd_from_days,
};
use elitesql_core::value::{encode_value, index_key, read_value, same_value, BlobRef, ColumnType, Stored, Value};
use elitesql_core::version::{
    decode_primary_entry, decode_primary_key, encode_primary_entry, primary_key, VKind, VersionEntry,
};
use std::sync::Arc;

fn column(name: &str, ty: ColumnType) -> Column {
    Column { name: name.to_string(), ty, nullable: true, default: None, dim: None, identity: false }
}

fn corrupt<T>(r: Result<T, Error>, what: &str) {
    match r {
        Err(Error::Corrupt(m)) => assert_eq!(m, what),
        Err(e) => panic!("{e:?}"),
        Ok(_) => panic!("no error"),
    }
}

#[test]
fn numbers_have_a_byte_order() {
    let mut buf = Vec::new();
    push_le(&mut buf, 0x0102, 4);
    assert_eq!(buf, vec![2, 1, 0, 0]);
    assert_eq!(read_le(&buf, 0, 4), Some(0x0102));
    assert_eq!(read_le(&buf, 1, 4), None);
    let mut buf = Vec::new();
    push_be(&mut buf, 0x0102, 4);
    assert_eq!(buf, vec![0, 0, 1, 2]);
    assert_eq!(read_be(&buf, 0, 4), Some(0x0102));
}

#[test]
fn text_must_be_utf8() {
    assert_eq!(text_from_utf8("héllo".as_bytes()), Some("héllo".to_string()));
    assert_eq!(text_from_utf8(&[0xc3]), None);
    assert_eq!(text_from_utf8(b""), Some(String::new()));
}

#[test]
fn the_checksum_is_crc32() {
    assert_eq!(checksum(b"123456789"), 0xcbf4_3926);
    assert_eq!(checksum(b""), 0);
}

#[test]
fn ids_ascend_and_follow_what_was_seen() {
    let mut ids = IdSource::new();
    assert_eq!(ids.take(1).unwrap(), "00000000000000000000000001");
    assert_eq!(ids.take(1).unwrap(), "00000000000000000000000002");
    assert_eq!(ids.take(33).unwrap(), "00000000000000000000000011");
    ids.observe("0000000000000000000000001Z");
    assert_eq!(ids.previous, 63);
    assert_eq!(ids.take(5).unwrap(), "00000000000000000000000020");
    ids.observe("not an id");
    ids.observe("0000000000000000000000002U");
    ids.observe("80000000000000000000000000");
    assert_eq!(ids.previous, 64);
    ids.observe("0000000000000000000000002z");
    assert_eq!(ids.previous, 95);
    let last = (1u128 << 80) - 1;
    let mut ids = IdSource { previous: last };
    assert!(matches!(ids.take(0), Err(Error::InvalidArgument(m)) if m == "cannot generate id: ULID overflow"));
    assert_eq!(ids.previous, last);
    let a = IdSource::new().generate().unwrap();
    assert_eq!(a.len(), 26);
    let mut ids = IdSource::new();
    let a = ids.generate().unwrap();
    let b = ids.generate().unwrap();
    assert!(a < b);
}

#[test]
fn decimal_and_hex_texts() {
    assert_eq!(decimal_text(0), "0");
    assert_eq!(decimal_text(18_446_744_073_709_551_615), "18446744073709551615");
    assert_eq!(padded_text(7, 2), "07");
    assert_eq!(padded_text(-7, 4), "-007");
    assert_eq!(hex_encode(&[0, 255, 16]), "00ff10");
    assert_eq!(hex_decode("00fF10"), Some(vec![0, 255, 16]));
    assert_eq!(hex_decode("0"), None);
    assert_eq!(hex_decode("zz"), None);
}

#[test]
fn dates_follow_the_calendar() {
    assert_eq!(ymd_from_days(0), (1970, 1, 1));
    assert_eq!(ymd_from_days(-1), (1969, 12, 31));
    assert_eq!(format_date(19_782), "2024-02-29");
    assert_eq!(format_date(11_016), "2000-02-29");
    assert_eq!(format_time(0), "00:00:00");
    assert_eq!(format_time(3_661_000_001), "01:01:01.000001");
    assert_eq!(format_timestamp(1_700_000_000_000_000), "2023-11-14 22:13:20Z");
    assert_eq!(format_timestamp(-1), "1969-12-31 23:59:59.999999Z");
}

#[test]
fn values_round_trip_and_have_distinct_keys() {
    let values = vec![
        Value::Null,
        Value::Bool(false),
        Value::Int64(i64::MIN),
        Value::Float64(0x7ff8_0000_0000_0001),
        Value::Text("a".to_string()),
        Value::Blob(vec![97]),
        Value::Timestamp(-5),
        Value::Json("a".to_string()),
        Value::Vector(vec![1, 2]),
        Value::Date(-3),
        Value::Time(9),
    ];
    let mut keys = Vec::new();
    for v in &values {
        let mut buf = vec![9];
        encode_value(&mut buf, v);
        let (back, end) = read_value(&buf, 1).unwrap();
        assert_eq!(end, buf.len());
        let Stored::Value(back) = back else { panic!("external") };
        assert_eq!(format!("{back:?}"), format!("{v:?}"));
        keys.push(index_key(v));
        assert!(read_value(&buf[..buf.len() - 1], 1).is_err());
    }
    for i in 0..keys.len() {
        for j in 0..i {
            assert_ne!(keys[i], keys[j]);
        }
    }
    let mut buf = Vec::new();
    encode_value(&mut buf, &Value::Int64(1));
    assert_eq!(buf, vec![2, 1, 0, 0, 0, 0, 0, 0, 0]);
    assert!(read_value(&[200], 0).is_err());
    assert!(!same_value(&Value::Float64(0x7ff8_0000_0000_0001), &Value::Float64(0x7ff8_0000_0000_0001)));
    assert!(same_value(&Value::Float64(0), &Value::Float64(1 << 63)));
    assert!(!same_value(&Value::Text("a".to_string()), &Value::Json("a".to_string())));
}

fn sample() -> (TableSchema, Record) {
    let schema = TableSchema::new(
        "t",
        vec![column("a", ColumnType::Int64), column("b", ColumnType::Text), column("c", ColumnType::Blob)],
    );
    let mut rec: Record = CowMap::new();
    rec.insert("a".to_string(), Value::Int64(5));
    rec.insert("b".to_string(), Value::Text("x".to_string()));
    rec.insert("c".to_string(), Value::Blob(vec![1, 2, 3, 4]));
    (schema, rec)
}

#[test]
fn a_record_round_trips_through_its_payload() {
    let (schema, rec) = sample();
    let payload = encode_record_ordered(&schema, &rec, &vec![None, None, None]);
    let back = decode_record(&payload, &CowMap::new()).unwrap();
    assert_eq!(back.len(), 3);
    for (k, v) in rec.iter() {
        assert!(same_value(back.get(k.as_bytes()).unwrap(), v));
    }
    assert!(encoded_record_column_eq(&payload, "a", Some(0), &Value::Int64(5), &CowMap::new()).unwrap());
    assert!(!encoded_record_column_eq(&payload, "a", None, &Value::Int64(6), &CowMap::new()).unwrap());
    assert!(!encoded_record_column_eq(&payload, "z", None, &Value::Int64(6), &CowMap::new()).unwrap());
    assert!(decode_record(&payload[..payload.len() - 1], &CowMap::new()).is_err());
    assert!(!encoded_column_needs_fill(&payload, "a").unwrap());
    assert!(encoded_column_needs_fill(&payload, "z").unwrap());
}

#[test]
fn large_values_stand_outside() {
    let (schema, rec) = sample();
    assert_eq!(external_columns(&schema, &rec, 4), vec![false, false, true]);
    assert_eq!(external_columns(&schema, &rec, 5), vec![false, false, false]);
    let data = vec![1u8, 2, 3, 4];
    let blob = BlobRef { name: "blob-1".to_string(), len: 4, crc: checksum(&data) };
    let payload = encode_record_ordered(&schema, &rec, &vec![None, None, Some(blob)]);
    let refs = scan_payload_blob_refs(&payload).unwrap();
    assert_eq!(refs.len(), 1);
    assert_eq!(refs[0].name, "blob-1");
    let mut blobs: CowMap<String, Vec<u8>> = CowMap::new();
    assert!(decode_record(&payload, &blobs).is_err());
    blobs.insert("blob-1".to_string(), vec![1, 2, 3, 5]);
    assert!(matches!(decode_record(&payload, &blobs), Err(Error::Corrupt(_))));
    blobs.insert("blob-1".to_string(), data);
    let back = decode_record(&payload, &blobs).unwrap();
    assert!(same_value(back.get(b"c").unwrap(), &Value::Blob(vec![1, 2, 3, 4])));
}

#[test]
fn columns_of_a_payload_are_renamed_and_removed() {
    let (schema, rec) = sample();
    let payload = encode_record_ordered(&schema, &rec, &vec![None, None, None]);
    let renamed = rewrite_payload_columns(&payload, Some(("a", "z")), None).unwrap();
    let back = decode_record(&renamed, &CowMap::new()).unwrap();
    assert!(back.get(b"a").is_none());
    assert!(same_value(back.get(b"z").unwrap(), &Value::Int64(5)));
    let removed = rewrite_payload_columns(&payload, None, Some("b")).unwrap();
    let back = decode_record(&removed, &CowMap::new()).unwrap();
    assert_eq!(back.len(), 2);
    let rw = Rewrite::DropColumn { table: "t", column: "b" };
    assert_eq!(transform_payload(&rw, "t", payload.clone()).unwrap(), removed);
    assert_eq!(transform_payload(&rw, "other", payload.clone()).unwrap(), payload);
    assert!(rw.is_ddl());
    assert!(!Rewrite::Plain.is_ddl());
    assert_eq!(Rewrite::RenameTable { from: "t", to: "u" }.output_table("t"), "u");
}

#[test]
fn primary_keys_and_entries_round_trip() {
    let key = primary_key("docs", "x");
    assert_eq!(key, b"\0\0\0\x04docsx".to_vec());
    assert_eq!(decode_primary_key(&key).unwrap(), ("docs".to_string(), "x".to_string()));
    corrupt(decode_primary_key(&key[..3]), "primary index: truncated key");
    corrupt(decode_primary_key(&key[..6]), "primary index: invalid table length");
    corrupt(decode_primary_key(b"\0\0\0\0\xff"), "primary index: invalid id utf8");
    corrupt(decode_primary_key(b"\0\0\0\x01\xffx"), "primary index: invalid table utf8");
    let entry = VersionEntry { version: 9, kind: VKind::SegPut { segment: 3, payload_offset: 4, payload_len: 5 } };
    let back = decode_primary_entry(&encode_primary_entry(&entry).unwrap()).unwrap();
    assert_eq!(format!("{back:?}"), format!("{entry:?}"));
    assert!(!back.is_tombstone());
    assert!(decode_primary_entry(&[1, 2]).is_err());
}

#[test]
fn pairs_of_an_index_round_trip() {
    let pair = secondary_pair_key(b"key", "id");
    assert_eq!(secondary_pair_parts(&pair).unwrap(), (b"key".to_vec(), "id".to_string()));
    assert!(secondary_pair_parts(&pair[..2]).is_err());
    let op = secondary_operation(7, 1);
    assert_eq!(decode_secondary_operation(&op).unwrap(), (7, 1));
    assert!(decode_secondary_operation(&op[..op.len() - 1]).is_err());
    let mut index = SecIdx::resident(CowMap::new());
    index.add(b"k", "b");
    index.add(b"k", "a");
    index.add(b"l", "c");
    assert_eq!(index.ids(b"k").unwrap(), vec!["a", "b"]);
    index.remove(b"k", "a");
    assert_eq!(index.ids(b"k").unwrap(), vec!["b"]);
    index.add(b"k", "a");
    assert_eq!(index.ids_batch(b"k", Some("a"), 5).unwrap(), vec!["b"]);
    assert_eq!(index.ids_batch(b"k", None, 1).unwrap(), vec!["a"]);
}

#[test]
fn a_torn_segment_keeps_its_whole_entries() {
    let mut image = Vec::new();
    append_entry(&mut image, false, 1, b"t", b"a", b"payload");
    let first = image.len();
    append_entry(&mut image, true, 2, b"t", b"b", b"");
    let scan = scan_segment(&image, 1);
    assert!(scan.clean);
    assert_eq!(scan.valid_len, image.len());
    assert_eq!(scan.entries.len(), 2);
    assert_eq!(scan.entries[0].id, b"a".to_vec());
    assert_eq!(scan.entries[0].payload_len, 7);
    assert_eq!(&image[scan.entries[0].payload_offset..scan.entries[0].payload_offset + 7], b"payload");
    assert!(scan.entries[1].tombstone);
    let torn = scan_segment(&image[..image.len() - 1], 1);
    assert!(!torn.clean);
    assert_eq!(torn.valid_len, first);
    assert_eq!(torn.entries.len(), 1);
    let mut damaged = image.clone();
    damaged[first - 1] ^= 1;
    assert_eq!(read_entry(&image, 0, 1).unwrap().0.version, 1);
    assert!(matches!(read_entry(&image[..5], 0, 1), Err(Error::Corrupt(_))));
    damaged[0] = 77;
    assert!(matches!(read_entry(&damaged, 0, 1), Err(Error::Corrupt(_))));
    damaged[0] = image[0];
    assert_eq!(scan_segment(&damaged, 1).entries.len(), 0);
}

#[test]
fn a_manifest_frame_tells_damage() {
    let body = b"{\"x\":1}";
    let frame = encode(body);
    assert_eq!(decode(&frame).unwrap(), body.to_vec());
    corrupt(decode(b"short"), "manifest: bad magic");
    corrupt(decode(&frame[..frame.len() - 1]), "manifest: truncated body");
    let mut damaged = frame.clone();
    let end = damaged.len() - 1;
    damaged[end] ^= 1;
    corrupt(decode(&damaged), "manifest: crc mismatch");
    let mut long = frame.clone();
    long.push(0);
    assert_eq!(decode(&long).unwrap(), body.to_vec());
}

#[test]
fn a_cut_or_changed_frame_is_refused() {
    let frame = encode(b"body");
    for n in 0..frame.len() {
        assert!(decode(&frame[..n]).is_err());
    }
    for at in 0..12 {
        let mut changed = frame.clone();
        changed[at] ^= 4;
        assert!(decode(&changed).is_err());
    }
}

#[test]
fn the_previous_manifest_steps_in() {
    let whole = || Ok(Manifest::initial());
    let broken = || Err("crc mismatch".to_string());
    assert!(!Manifest::load(whole(), broken()).unwrap().fallback);
    let mut older = Manifest::initial();
    older.committed_version = 5;
    let loaded = Manifest::load(broken(), Ok(older)).unwrap();
    assert!(loaded.fallback);
    assert_eq!(loaded.manifest.committed_version, 5);
    assert!(matches!(Manifest::load(broken(), broken()), Err(Error::Corrupt(_))));
    let mut strange = Manifest::initial();
    strange.format_version = 99;
    let wrong = || Err(Error::SchemaViolation("a name occurs twice".to_string()));
    assert!(matches!(strange.checked(wrong()), Err(Error::Corrupt(_))));
    assert!(matches!(Manifest::initial().checked(wrong()), Err(Error::SchemaViolation(_))));
    assert!(Manifest::initial().checked(Ok(())).is_ok());
    let mut bare = Manifest::initial();
    bare.catalog = None;
    assert!(bare.checked(wrong()).is_ok());
    assert!(Manifest::previous(broken()).is_none());
    assert!(Manifest::previous(whole()).is_some());
}

#[test]
fn publication_goes_step_by_step() {
    let mut step = PublishStep::publish();
    let mut seen = vec![step];
    while step != PublishStep::Complete {
        step = step.next(true, false, true, true);
        seen.push(step);
        assert!(seen.len() < 20);
    }
    assert!(seen.contains(&PublishStep::WriteCopy));
    assert!(seen.contains(&PublishStep::WriteTemp));
    assert!(seen.contains(&PublishStep::Rotate));
    assert!(seen.contains(&PublishStep::Install));
    let after_failed_install = PublishStep::Install.next(false, false, true, true);
    assert_eq!(after_failed_install, PublishStep::Restore);
    assert_eq!(PublishStep::WriteTemp.next(false, false, true, true), PublishStep::NotPublished);
}

#[test]
fn merged_runs_hold_all_rows_in_order() {
    let row = |k: &[u8], v: &[u8]| Row { key: k.to_vec(), value: v.to_vec() };
    let a = PagedIndex::open(sort_rows(&vec![row(b"c", b"1"), row(b"a", b"2")]), 1).unwrap();
    let b = PagedIndex::open(vec![row(b"b", b"3")], 2).unwrap();
    let merged = merge_paged_indexes(&vec![Arc::new(a), Arc::new(b)], 7);
    assert_eq!(merged.len(), 3);
    assert_eq!(merged.dump_version(), 7);
    assert_eq!(merged.key_at(0), b"a");
    assert_eq!(merged.key_at(1), b"b");
    assert_eq!(merged.key_at(2), b"c");
    assert!(PagedIndex::open(vec![row(b"b", b"1"), row(b"a", b"2")], 1).is_err());
}

#[test]
fn files_that_nothing_names_are_orphans() {
    let file = index_file(DerivedKind::Secondary, "t", "c");
    let manifest = index_manifest_file(DerivedKind::Secondary, "t", "c");
    let run = index_run_file(DerivedKind::Secondary, "t", "c", 0, "u");
    assert_ne!(file, manifest);
    assert_ne!(file, run);
    assert_ne!(index_file(DerivedKind::Text, "t", "c"), index_file(DerivedKind::Secondary, "t", "c"));
    assert!(!index_orphan(DerivedKind::Secondary, &run, &vec![run.clone()]));
    assert!(index_orphan(DerivedKind::Secondary, &run, &Vec::new()));
    assert!(!index_orphan(DerivedKind::Secondary, "readme", &Vec::new()));
    assert!(!primary_run_orphan("readme", &Vec::new()));
    let primary = "primary-L0-u.pidx.run".to_string();
    assert!(primary_run_orphan(&primary, &Vec::new()));
    assert!(!primary_run_orphan(&primary, &vec![primary.clone()]));
    assert!(primary_run_orphan("primary-L0-u.run.tmp", &Vec::new()));
    assert!(segment_orphan("000002.seg", &vec![SegmentMeta { id: 1, len: 5 }]));
    assert!(!segment_orphan("000001.seg", &vec![SegmentMeta { id: 1, len: 5 }]));
    assert!(wal_orphan("000002.wal", 3));
    assert!(!wal_orphan("000003.wal", 3));
    assert!(!segment_orphan("readme", &vec![SegmentMeta { id: 1, len: 5 }]));
    assert!(!wal_orphan("readme", 3));
}

#[test]
fn healing_leaves_the_fallback_alone() {
    let mut step = PublishStep::heal();
    let mut seen = vec![step];
    while step != PublishStep::Complete {
        step = step.next(true, true, step != PublishStep::RemoveDamaged, true);
        seen.push(step);
        assert!(seen.len() < 20);
    }
    assert_eq!(
        seen,
        vec![
            PublishStep::RemoveDamaged,
            PublishStep::WriteTemp,
            PublishStep::Install,
            PublishStep::SyncInstalled,
            PublishStep::Complete,
        ]
    );
    assert_eq!(PublishStep::SyncInstalled.next(false, true, true, true), PublishStep::SyncFailed);
}

#[test]
fn an_ordinal_never_changes_the_answer() {
    let (schema, rec) = sample();
    let payload = encode_record_ordered(&schema, &rec, &vec![None, None, None]);
    for ordinal in [None, Some(0), Some(1), Some(2), Some(9)] {
        let ask = |name: &str, v: &Value| encoded_record_column_eq(&payload, name, ordinal, v, &CowMap::new()).unwrap();
        assert!(ask("b", &Value::Text("x".to_string())));
        assert!(!ask("b", &Value::Text("y".to_string())));
        assert!(!ask("z", &Value::Int64(5)));
    }
}

#[test]
fn renaming_back_gives_the_payload_again() {
    let (schema, rec) = sample();
    let payload = encode_record_ordered(&schema, &rec, &vec![None, None, None]);
    let there = rewrite_payload_columns(&payload, Some(("a", "z")), None).unwrap();
    assert_ne!(there, payload);
    assert_eq!(rewrite_payload_columns(&there, Some(("z", "a")), None).unwrap(), payload);
    assert_eq!(rewrite_payload_columns(&payload, None, None).unwrap(), payload);
}

#[test]
fn batches_of_ids_give_each_id_once() {
    let mut index = SecIdx::resident(CowMap::new());
    for n in 0..7 {
        index.add(b"k", &format!("id{n}"));
    }
    let all = index.ids(b"k").unwrap();
    assert_eq!(all.len(), 7);
    for limit in 1..9 {
        let mut got: Vec<String> = Vec::new();
        loop {
            let batch = index.ids_batch(b"k", got.last().map(|s| s.as_str()), limit).unwrap();
            let full = batch.len() == limit;
            got.extend(batch);
            if !full {
                break;
            }
        }
        assert_eq!(got, all);
    }
}

#[test]
fn chunk_sizes_add_up() {
    let mut map: CowMap<String, Vec<u8>> = CowMap::new();
    for n in 0..1000 {
        map.insert(format!("{:04}", (n * 37) % 1000), vec![1]);
    }
    for n in 0..300 {
        map.remove(format!("{n:04}").as_bytes());
    }
    let sizes = map.chunk_sizes();
    assert_eq!(sizes.iter().sum::<usize>(), 700);
    assert_eq!(map.len(), 700);
    assert!(sizes.iter().all(|n| *n >= 1 && *n <= 128));
}

#[test]
fn the_log_is_read_to_its_last_whole_frame() {
    let bodies: Vec<&[u8]> = vec![b"one", b"", b"three"];
    let mut file = Vec::new();
    for b in &bodies {
        file.extend_from_slice(&frame(b));
    }
    assert_eq!(frame(b"one").len(), 15);
    assert_eq!(frame(b"one")[..8], [3, 0, 0, 0, 0, 0, 0, 0]);
    assert_eq!(frame(b"one")[8..12], checksum(b"one").to_le_bytes());
    let read = |data: &[u8]| -> Vec<Vec<u8>> {
        scan_log(data).bodies.iter().map(|b| data[b.start..b.end].to_vec()).collect()
    };
    assert_eq!(read(&file), vec![b"one".to_vec(), b"".to_vec(), b"three".to_vec()]);
    assert!(scan_log(&file).clean);
    assert_eq!(scan_log(&file).valid_len, file.len());
    let last = frame(b"four");
    for n in 0..last.len() {
        let mut torn = file.clone();
        torn.extend_from_slice(&last[..n]);
        assert_eq!(read(&torn).len(), 3);
        assert_eq!(scan_log(&torn).valid_len, file.len());
        assert_eq!(scan_log(&torn).clean, n == 0);
    }
    let mut changed = file.clone();
    changed[13] ^= 1;
    assert_eq!(read(&changed).len(), 0);
    let mut changed = file.clone();
    let end = changed.len() - 1;
    changed[end] ^= 1;
    assert_eq!(read(&changed).len(), 2);
    assert!(scan_log(&[]).clean);
}

#[test]
fn a_timestamp_is_a_date_and_a_time() {
    assert_eq!(format_timestamp(-1), "1969-12-31 23:59:59.999999Z");
    for micros in [-86_400_000_001, -86_400_000_000, -1, 0, 1, 86_399_999_999, 86_400_000_000, 1_700_000_000_000_000] {
        let days = i64::div_euclid(micros, 86_400_000_000);
        let rest = i64::rem_euclid(micros, 86_400_000_000);
        assert_eq!(format_timestamp(micros), format!("{} {}Z", format_date(days as i32), format_time(rest)));
    }
    let mut last = ymd_from_days(-800_000);
    for days in -799_999..-798_000 {
        let next = ymd_from_days(days);
        assert!(next > last);
        last = next;
    }
}

#[test]
fn a_changed_byte_changes_the_checksum() {
    assert_eq!(checksum(b""), 0);
    assert_eq!(checksum(b"a"), 0xE8B7_BE43);
    assert_eq!(checksum(b"123456789"), 0xCBF4_3926);
    let body = b"a manifest body".to_vec();
    let framed = encode(&body);
    for at in 16..framed.len() {
        for bit in 0..8 {
            let mut changed = framed.clone();
            changed[at] ^= 1 << bit;
            assert_ne!(checksum(&changed[16..]), checksum(&body));
            corrupt(decode(&changed), "manifest: crc mismatch");
        }
    }
    assert_eq!(decode(&framed).unwrap(), body);
}
