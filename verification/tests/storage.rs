use p_memory::error::Error;
use p_memory::json::{self, Json, Number};
use p_memory::query::{
    arrange, chunk_notes_sql, count_matches_sql, entity_names_sql, event_lengths_sql, events_between_sql, filter_sql,
    load_many_sql, note_names_sql, page_of, record_rows_sql, record_tags_sql, relations_sql, select_ids_sql,
    select_keys_sql, stored_count, SqlValue,
};
use p_memory::records::{
    check_record, delete_record, header_after_write, header_from_row, matches_filter, memory_type_id, note_id_of,
    plan_record, show_payload, DeleteOutcome, RecordLabels, RecordRow, StoreState, StoredRecord,
};
use p_memory::schema;
use p_memory::storage;
use p_memory::types::{Evidence, Metadata, ReadFilter, RecordInput, RecordKey, RecordKind};
use rusqlite::types::Value;
use rusqlite::{params_from_iter, Connection};
use sha2::{Digest, Sha256};

fn values(bound: &[SqlValue]) -> Vec<Value> {
    bound
        .iter()
        .map(|value| match value {
            SqlValue::Text(text) => Value::Text(text.clone()),
            SqlValue::Integer(number) => Value::Integer(*number),
        })
        .collect()
}

fn store(rows: i64) -> Connection {
    let conn = Connection::open_in_memory().unwrap();
    conn.execute_batch(
        "CREATE TABLE strings(id INTEGER PRIMARY KEY, text TEXT NOT NULL UNIQUE);
         CREATE TABLE records(id INTEGER PRIMARY KEY, namespace_id INTEGER NOT NULL, kind INTEGER NOT NULL,
             scope_id INTEGER NOT NULL, payload_json TEXT NOT NULL);
         CREATE INDEX records_scope ON records(namespace_id, scope_id, kind);
         CREATE TABLE record_tags(record_id INTEGER NOT NULL, tag_id INTEGER NOT NULL, PRIMARY KEY(record_id, tag_id));
         INSERT INTO strings VALUES(1,'default'),(2,'public'),(3,'茶');",
    )
    .unwrap();
    for id in 1..=rows {
        conn.execute("INSERT INTO records VALUES(?1,1,?2,2,'{}')", (id, RecordKind::Memory.code())).unwrap();
    }
    conn
}

fn ids(conn: &Connection, query: (String, Vec<SqlValue>)) -> Vec<i64> {
    let mut stmt = conn.prepare(&query.0).unwrap();
    stmt.query_map(params_from_iter(values(&query.1)), |row| row.get(0)).unwrap().map(|id| id.unwrap()).collect()
}

/// Loading records by their ids goes over the primary key, however large the store is.
#[test]
fn batched_load_stays_on_the_primary_key() {
    let conn = store(100);
    let sample: Vec<i64> = (1..=10).collect();
    let (sql, bound) = load_many_sql(&sample, &ReadFilter::default()).unwrap();
    let mut stmt = conn.prepare(&format!("EXPLAIN QUERY PLAN {sql}")).unwrap();
    let plan: Vec<String> = stmt.query_map(params_from_iter(values(&bound)), |row| row.get(3)).unwrap().map(|row| row.unwrap()).collect();
    let plan = plan.join(" | ");
    assert!(plan.contains("INTEGER PRIMARY KEY"), "{plan}");
    assert_eq!(ids(&conn, (sql, bound)), sample);
}

/// The lengths that SQL computes for the texts of events are those of the texts themselves.
#[test]
fn event_text_lengths_match_record_text() {
    let conn = store(4);
    let text = |value: &str| json::text_value(value);
    let number = Json::Number(Number { text: "7".to_string(), int: Some(7), nat: Some(7) });
    let names = |list: Vec<Json>| Json::Array(list);
    let object = |pairs: Vec<(&str, Json)>| {
        json::object_value(pairs.into_iter().map(|(key, value)| (key.to_string(), value)).collect())
    };
    let payloads = [
        (
            r#"{"name":"别鹤典仪","summary":"两人同去","participant_names":["甲","乙"],"reason":"有人证"}"#,
            object(vec![
                ("name", text("别鹤典仪")),
                ("summary", text("两人同去")),
                ("participant_names", names(vec![text("甲"), text("乙")])),
                ("reason", text("有人证")),
            ]),
        ),
        (
            r#"{"name":"堂中自语","summary":"","participant_names":["甲"],"reason":""}"#,
            object(vec![
                ("name", text("堂中自语")),
                ("summary", text("")),
                ("participant_names", names(vec![text("甲")])),
                ("reason", text("")),
            ]),
        ),
        (
            r#"{"name":7,"summary":"只剩数字名","participant_names":"甲 乙","reason":null}"#,
            object(vec![
                ("name", json::copy(&number)),
                ("summary", text("只剩数字名")),
                ("participant_names", text("甲 乙")),
                ("reason", Json::Null),
            ]),
        ),
        (
            r#"{"name":"正常","summary":null,"participant_names":["甲",7,"乙"],"reason":"理由"}"#,
            object(vec![
                ("name", text("正常")),
                ("summary", Json::Null),
                ("participant_names", names(vec![text("甲"), number, text("乙")])),
                ("reason", text("理由")),
            ]),
        ),
    ];
    for (id, (raw, _)) in payloads.iter().enumerate() {
        conn.execute("UPDATE records SET payload_json=?1 WHERE id=?2", (raw, id as i64 + 1)).unwrap();
    }
    let mut stmt = conn.prepare(&event_lengths_sql(4)).unwrap();
    let lengths: Vec<(i64, i64)> =
        stmt.query_map((1, 2, 3, 4), |row| Ok((row.get(0)?, row.get(1)?))).unwrap().map(|row| row.unwrap()).collect();
    assert_eq!(lengths.len(), 4);
    for (id, length) in lengths {
        let body = storage::record_text(RecordKind::Event, &payloads[id as usize - 1].1);
        assert_eq!(length as usize, body.chars().count(), "event {id}");
    }
}

#[test]
fn filters_become_queries() {
    let conn = store(3);
    conn.execute("INSERT INTO record_tags VALUES(2,3)", []).unwrap();
    let all = ReadFilter::default();
    assert_eq!(ids(&conn, select_ids_sql(&all, &vec![]).unwrap()), vec![1, 2, 3]);
    assert_eq!(ids(&conn, select_ids_sql(&all, &vec![RecordKind::Note]).unwrap()), Vec::<i64>::new());
    assert_eq!(ids(&conn, count_matches_sql(&all, &vec![RecordKind::Memory]).unwrap()), vec![3]);
    let tagged = ReadFilter { tags: vec!["茶".to_string()], ..ReadFilter::default() };
    assert_eq!(ids(&conn, select_ids_sql(&tagged, &vec![]).unwrap()), vec![2]);
    let elsewhere = ReadFilter { namespace: "other".to_string(), ..ReadFilter::default() };
    assert!(ids(&conn, select_ids_sql(&elsewhere, &vec![]).unwrap()).is_empty());
    let (sql, bound) = filter_sql(&tagged, &vec![RecordKind::Memory, RecordKind::Chunk], true).unwrap();
    assert!(sql.starts_with("+r.namespace_id="));
    assert_eq!(sql.matches('?').count(), bound.len());
    let blind = ReadFilter { scopes: vec![], ..ReadFilter::default() };
    match filter_sql(&blind, &vec![], false) {
        Err(Error::Validation(message)) => assert_eq!(message, "at least one explicit read scope is required"),
        other => panic!("{other:?}"),
    }
    for (sql, bound) in [
        relations_sql(&vec![1, 2], &all, true).unwrap(),
        relations_sql(&vec![1, 2], &all, false).unwrap(),
        events_between_sql(&vec![1, 2], &all).unwrap(),
    ] {
        assert_eq!(sql.matches('?').count(), bound.len());
    }
    for sql in [record_rows_sql(3), record_tags_sql(3), note_names_sql(3), chunk_notes_sql(3), entity_names_sql(3)] {
        assert!(sql.contains("IN (?,?,?)"), "{sql}");
    }
    assert_eq!((stored_count(-3), stored_count(4)), (0, 4));
}

#[test]
fn pages_follow_each_other_to_the_end() {
    let conn = store(5);
    let filter = ReadFilter::default();
    let mut after: Option<String> = None;
    let mut seen: Vec<i64> = Vec::new();
    loop {
        let found = ids(&conn, select_keys_sql(&filter, &vec![RecordKind::Memory], 3, &after).unwrap());
        let (page, next) = page_of(found, 2);
        seen.extend(&page);
        match next {
            Some(cursor) => after = Some(cursor),
            None => break,
        }
    }
    assert_eq!(seen, vec![1, 2, 3, 4, 5]);
    match select_keys_sql(&filter, &vec![], 3, &Some("x".to_string())) {
        Err(Error::Validation(message)) => assert_eq!(message, "invalid page cursor"),
        other => panic!("{other:?}"),
    }
    assert_eq!(arrange(&vec![3, 1, 2], &vec![1, 3]), vec![3, 1]);
}

fn empty_state() -> StoreState {
    StoreState { found: None, scope_id: 2, references: 0, now_us: 50 }
}

#[test]
fn identities_are_trimmed_and_printable() {
    assert!(storage::validate_identity("namespace", "a b").is_ok());
    for bad in ["", " ", " a", "a ", "a\nb", "a\u{7}"] {
        match storage::validate_identity("namespace", bad) {
            Err(Error::Validation(message)) => {
                assert_eq!(message, "namespace must be nonempty, trimmed, and contain no control characters")
            }
            other => panic!("{other:?}"),
        }
    }
    assert!(storage::validate_limit(10_000).is_ok());
    assert!(storage::validate_limit(0).is_err() && storage::validate_limit(10_001).is_err());
}

#[test]
fn tags_are_stored_once_and_in_order() {
    let tags: Vec<String> = ["茶", " B ", "ｂ", "", "a"].iter().map(|tag| tag.to_string()).collect();
    assert_eq!(storage::normalize_tags(&tags), vec!["a".to_string(), "b".to_string(), "茶".to_string()]);
    assert_eq!(storage::normalize_tags(&storage::normalize_tags(&tags)), storage::normalize_tags(&tags));
    let turned: Vec<String> = tags.iter().rev().cloned().collect();
    assert_eq!(storage::normalize_tags(&turned), storage::normalize_tags(&tags));
}

#[test]
fn fingerprints_follow_body_and_tags() {
    let print = storage::record_fingerprint("喝茶", &vec!["茶".to_string()]);
    assert_eq!(print.len(), 64);
    assert!(print.chars().all(|ch| ch.is_ascii_hexdigit() && !ch.is_ascii_uppercase()));
    assert_ne!(print, storage::record_fingerprint("喝茶", &vec![]));
    assert_ne!(print, storage::record_fingerprint("喝水", &vec!["茶".to_string()]));
    assert_eq!(storage::record_fingerprint("a", &vec![]), format!("{:x}", Sha256::digest("text-v1\na\n".as_bytes())));
}

#[test]
fn evidence_must_name_a_source_and_whole_lines() {
    let with = |evidence: Evidence| RecordInput { evidence: vec![evidence], ..RecordInput::default() };
    assert!(check_record(&RecordInput::default()).is_ok());
    match check_record(&with(Evidence::of_source(" ".to_string()))) {
        Err(Error::Validation(message)) => assert_eq!(message, "evidence source is required"),
        other => panic!("{other:?}"),
    }
    let lines = |offset, limit| with(Evidence { offset, limit, ..Evidence::of_source("a.md".to_string()) });
    assert!(check_record(&lines(Some(1), Some(1))).is_ok());
    assert!(check_record(&lines(None, None)).is_ok());
    for (offset, limit) in [(Some(0), Some(1)), (Some(1), Some(0)), (Some(1), None), (None, Some(1))] {
        assert!(check_record(&lines(offset, limit)).is_err());
    }
}

#[test]
fn writes_are_planned_against_the_store() {
    let new = plan_record(&RecordInput { tags: vec!["B".to_string(), "a".to_string()], ..RecordInput::default() }, "x", empty_state()).unwrap();
    assert_eq!((new.created_at_us, new.updated_at_us), (50, 50));
    assert_eq!(new.tags, vec!["a".to_string(), "b".to_string()]);
    assert_eq!(new.fingerprint, storage::record_fingerprint("x", &new.tags));

    let old = StoredRecord { created_at_us: 10, updated_at_us: 90, revision: 4, scope_id: 2 };
    let known = StoreState { found: Some(old), ..empty_state() };
    let named = |expected_revision| RecordInput { id: Some(7), expected_revision, ..RecordInput::default() };
    let kept = plan_record(&named(Some(4)), "x", known).unwrap();
    assert_eq!((kept.created_at_us, kept.updated_at_us), (10, 90));

    match plan_record(&named(None), "x", empty_state()) {
        Err(Error::NotFound(message)) => assert_eq!(message, "7"),
        other => panic!("{other:?}"),
    }
    match plan_record(&named(Some(3)), "x", known) {
        Err(Error::StaleRevision(message)) => assert_eq!(message, "7"),
        other => panic!("{other:?}"),
    }
    let moved = StoreState { scope_id: 3, references: 2, ..known };
    match plan_record(&named(None), "x", moved) {
        Err(Error::Conflict(message)) => assert_eq!(
            message,
            "record 7 is referenced by 2 relation(s) or event participant row(s); remove those references before changing its scope"
        ),
        other => panic!("{other:?}"),
    }
    assert!(plan_record(&named(None), "x", StoreState { references: 0, ..moved }).is_ok());
    let early = RecordInput { created_at_us: Some(9), updated_at_us: Some(8), ..RecordInput::default() };
    match plan_record(&early, "x", empty_state()) {
        Err(Error::Validation(message)) => assert_eq!(message, "updated_at_us precedes created_at_us"),
        other => panic!("{other:?}"),
    }
}

#[test]
fn headers_are_read_and_written_back() {
    let input = RecordInput { tags: vec!["a".to_string()], ..RecordInput::default() };
    let plan = plan_record(&input, "x", empty_state()).unwrap();
    let header = header_after_write(&input, RecordKind::Memory, 7, 3, plan);
    assert_eq!((header.id, header.revision, header.created_at_us), (7, 3, 50));
    let again = header.as_input();
    assert_eq!((again.id, again.expected_revision), (Some(7), Some(3)));
    assert_eq!(header.key(), RecordKey { id: 7 });

    let row = |kind_code| RecordRow {
        id: 7,
        namespace: "default".to_string(),
        kind_code,
        scope: "public".to_string(),
        created_at_us: 1,
        updated_at_us: 2,
        revision: 3,
        metadata: Metadata::new(),
        evidence: vec![],
    };
    let tags = vec![(6, "x".to_string()), (7, "a".to_string()), (7, "b".to_string())];
    let read = header_from_row(row(RecordKind::Note.code()), &tags).unwrap();
    assert_eq!(read.tags, vec!["a".to_string(), "b".to_string()]);
    assert!(matches!(header_from_row(row(99), &tags), Err(Error::Validation(_))));
}

#[test]
fn payloads_are_shown_with_their_texts() {
    let payload = vec![("memory_type_id".to_string(), json::int_value(4)), ("judgment".to_string(), json::text_value("喝茶"))];
    assert_eq!(memory_type_id(&payload), Some(4));
    let shown = Json::Object(show_payload(RecordKind::Memory, payload, "knowledge", "", ""));
    assert_eq!(json::as_text(json::get(&shown, "memory_type")), "knowledge");
    assert!(json::get(&shown, "memory_type_id").is_none());
    let note = Json::Object(show_payload(RecordKind::Note, vec![], "", "/a/b.md", "b"));
    assert_eq!(json::as_text(json::get(&note, "source")), "/a/b.md");
    assert_eq!(json::as_text(json::get(&note, "title")), "b");
    let chunk = json::object_value(vec![("note_id".to_string(), json::int_value(9))]);
    assert_eq!((note_id_of(RecordKind::Chunk, &chunk), note_id_of(RecordKind::Memory, &chunk)), (9, 0));
}

#[test]
fn records_lie_within_a_filter_by_their_labels() {
    let labels = RecordLabels { namespace: "default".to_string(), scope: "public".to_string(), tags: vec!["茶".to_string()] };
    let filter = |tags: &[&str]| ReadFilter { tags: tags.iter().map(|tag| tag.to_string()).collect(), ..ReadFilter::default() };
    assert!(matches_filter(Some(&labels), &filter(&[])).unwrap());
    assert!(matches_filter(Some(&labels), &filter(&["茶"])).unwrap());
    assert!(!matches_filter(Some(&labels), &filter(&["茶", "水"])).unwrap());
    assert!(!matches_filter(None, &filter(&[])).unwrap());
    assert!(!matches_filter(Some(&labels), &ReadFilter { scopes: vec!["private".to_string()], ..ReadFilter::default() }).unwrap());
    assert!(matches_filter(Some(&labels), &ReadFilter { scopes: vec![], ..ReadFilter::default() }).is_err());
}

#[test]
fn deleting_tells_whether_something_was_there() {
    assert!(delete_record(1, DeleteOutcome::Changed(1)).unwrap());
    assert!(!delete_record(1, DeleteOutcome::Changed(0)).unwrap());
    match delete_record(5, DeleteOutcome::ConstraintViolation) {
        Err(Error::Conflict(message)) => assert_eq!(message, "record 5 is still referenced"),
        other => panic!("{other:?}"),
    }
    match delete_record(5, DeleteOutcome::Failed("disk full".to_string())) {
        Err(Error::Storage(message)) => assert_eq!(message, "disk full"),
        other => panic!("{other:?}"),
    }
}

#[test]
fn stores_are_recognized_by_their_version() {
    assert!(schema::initialize(0, 0, 0).unwrap());
    assert!(!schema::initialize(schema::SCHEMA_VERSION, schema::APPLICATION_ID, 20).unwrap());
    assert!(matches!(schema::initialize(0, 0, 3), Err(Error::Conflict(_))));
    assert!(matches!(schema::initialize(0, 7, 0), Err(Error::Conflict(_))));
    match schema::initialize(13, schema::APPLICATION_ID, 20) {
        Err(Error::SchemaVersion { found, supported }) => assert_eq!((found, supported), (13, 14)),
        other => panic!("{other:?}"),
    }
    assert!(schema::check_snapshot(schema::APPLICATION_ID, schema::SCHEMA_VERSION).is_ok());
    assert!(matches!(schema::check_snapshot(0, schema::SCHEMA_VERSION), Err(Error::Validation(_))));
    assert!(matches!(schema::check_snapshot(schema::APPLICATION_ID, 1), Err(Error::SchemaVersion { .. })));
    assert_eq!(schema::vectors_file("backup.db"), "backup.db.vectors");
    let counts = schema::count_by_kind(&vec![(RecordKind::Memory.code(), 3), (RecordKind::Chunk.code(), 2), (42, 1)]);
    assert_eq!(counts, vec![("42".to_string(), 1), ("chunk".to_string(), 2), ("memory".to_string(), 3)]);
    assert_eq!(schema::count_all(&counts), 6);
}
