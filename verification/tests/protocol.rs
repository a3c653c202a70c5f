use p_memory::cache::{invalidation, note_degrade, Invalidation, TouchLog};
use p_memory::error::Error;
use p_memory::events::{LogEvent, StageTimer};
use p_memory::json::{self, Json, Number};
use p_memory::protocol::{
    arguments_of, default_depth, default_limit, dispatch, envelope, parse_operation, Operation, PROTOCOL_VERSION,
};
use p_memory::rendering::render;
use p_memory::schema::{check_snapshot, count_all, count_by_kind, initialize, vectors_file, APPLICATION_ID, SCHEMA_VERSION};
use p_memory::tally::set_entry;
use p_memory::types::Degrade;

fn object(pairs: Vec<(&str, Json)>) -> Json {
    json::object_value(pairs.into_iter().map(|(key, value)| (key.to_string(), value)).collect())
}

/// Operations are found by name; unknown names and missing arguments are told.
#[test]
fn calls_are_checked() {
    assert_eq!(PROTOCOL_VERSION, 1);
    assert_eq!(parse_operation("memories.upsert").unwrap(), Operation::MemoriesUpsert);
    assert_eq!(parse_operation("graph.ego").unwrap(), Operation::GraphEgo);
    assert_eq!(parse_operation("nothing").unwrap_err().message(), "invalid input: unknown operation: nothing");
    let path = object(vec![("from", json::int_value(1))]);
    let none = Vec::new();
    assert_eq!(dispatch("graph.path", &path, &none).unwrap_err().message(), "invalid input: missing to");
    assert_eq!(dispatch("graph.path", &Json::Null, &none).unwrap_err().message(), "invalid input: missing from");
    let whole = object(vec![("from", json::int_value(1)), ("to", json::int_value(2))]);
    assert_eq!(dispatch("graph.path", &whole, &none).unwrap(), Operation::GraphPath);
    assert_eq!(dispatch("health", &Json::Null, &none).unwrap(), Operation::Health);
    assert_eq!(dispatch("nothing", &whole, &none).unwrap_err().message(), "invalid input: unknown operation: nothing");
    assert_eq!(default_limit(Operation::GraphResolve), 10);
    assert_eq!(default_limit(Operation::GraphNeighbors), 50);
    assert_eq!(default_depth(), 1);
}

/// Arguments are read in order: the first that is missing or cannot be decoded decides.
#[test]
fn the_first_faulty_argument_is_told() {
    let fault = |name: &str| (name.to_string(), format!("bad {name}"));
    let typed = object(vec![("space_id", json::int_value(1))]);
    assert_eq!(dispatch("embeddings.sync", &typed, &vec![fault("space_id")]).unwrap_err().message(), "JSON: bad space_id");
    assert_eq!(dispatch("embeddings.sync", &typed, &Vec::new()).unwrap_err().message(), "invalid input: missing batch");
    let late = object(vec![("batch", json::int_value(-1))]);
    assert_eq!(dispatch("embeddings.sync", &late, &vec![fault("batch")]).unwrap_err().message(), "invalid input: missing space_id");
    let ego = object(vec![("id", json::int_value(1)), ("filter", json::int_value(1)), ("depth", json::int_value(-1))]);
    let both = vec![fault("filter"), fault("depth")];
    assert_eq!(dispatch("graph.ego", &ego, &both).unwrap_err().message(), "JSON: bad depth");
    assert_eq!(dispatch("graph.neighbors", &ego, &both).unwrap_err().message(), "JSON: bad filter");
    assert_eq!(dispatch("graph.ego", &ego, &vec![fault("limit")]).unwrap(), Operation::GraphEgo);
    assert_eq!(dispatch("health", &ego, &both).unwrap(), Operation::Health);
    let names: Vec<(String, bool)> = arguments_of(Operation::MemoriesDecay);
    assert_eq!(names.iter().map(|(name, needed)| (name.as_str(), *needed)).collect::<Vec<_>>(), [("filter", false), ("policy", false), ("now_us", false)]);
}

/// Answers carry the result, or the code and the text of the error.
#[test]
fn answers_are_wrapped() {
    let fine = envelope(Ok(json::int_value(3)));
    assert!(matches!(json::get(&fine, "ok"), Some(Json::Bool(true))));
    assert_eq!(json::as_int(json::get(&fine, "result")), Some(3));
    let broken = envelope(Err(Error::NotFound("7".to_string())));
    assert!(matches!(json::get(&broken, "ok"), Some(Json::Bool(false))));
    let error = json::get(&broken, "error").unwrap();
    assert_eq!(json::as_text(json::get(error, "code")), "not_found");
    assert_eq!(json::as_text(json::get(error, "message")), "record not found: 7");
    assert_eq!(render(&fine), "{\"ok\":true,\"result\":3}");
}

/// Every error has its code and its text.
#[test]
fn errors_have_codes_and_texts() {
    let text = || "x".to_string();
    let all = vec![
        (Error::Validation(text()), "validation", "invalid input: x"),
        (Error::NotFound(text()), "not_found", "record not found: x"),
        (Error::Conflict(text()), "conflict", "conflict: x"),
        (Error::Locked(text()), "locked", "data directory is already open: x"),
        (Error::Closed, "closed", "knowledge base is closed"),
        (
            Error::SchemaVersion { found: 9, supported: 8 },
            "schema_version",
            "unsupported database schema 9; maximum supported version is 8",
        ),
        (Error::InvalidVector(text()), "invalid_vector", "invalid vector: x"),
        (Error::StaleRevision(text()), "stale_revision", "stale content: x"),
        (Error::Index(text()), "index", "index unavailable: x"),
        (Error::Storage(text()), "storage", "SQLite: x"),
        (Error::Io(text()), "io", "I/O: x"),
        (Error::Json(text()), "validation", "JSON: x"),
    ];
    for (error, code, message) in all {
        assert_eq!((error.code(), error.message().as_str()), (code, message));
    }
}

/// A value is written with its strings escaped and its numbers as they were.
#[test]
fn values_are_written_as_text() {
    let number = Json::Number(Number { text: "1.50".to_string(), int: None, nat: None });
    let value = object(vec![("b", Json::Array(vec![Json::Null, Json::Bool(false), number])), ("a", json::text_value("q\"\n茶"))]);
    assert_eq!(render(&value), "{\"a\":\"q\\\"\\n茶\",\"b\":[null,false,1.50]}");
    // The controls below the space are escaped, the common ones by a letter; what follows is not.
    let controls = Json::Text("\\\u{8}\t\u{c}\r\u{1}\u{1f}\u{7f}/é".to_string());
    assert_eq!(render(&controls), "\"\\\\\\b\\t\\f\\r\\u0001\\u001f\u{7f}/é\"");
}

/// Fields are set, found and removed by key.
#[test]
fn fields_are_set_and_found() {
    let mut fields: Vec<(String, Json)> = Vec::new();
    json::set_field(&mut fields, "b".to_string(), json::int_value(1));
    json::set_field(&mut fields, "a".to_string(), json::int_value(2));
    json::set_field(&mut fields, "b".to_string(), json::int_value(3));
    assert_eq!(json::as_int(json::find(&fields, "b")), Some(3));
    assert_eq!(json::as_int(json::find(&fields, "a")), Some(2));
    assert_eq!(fields.len(), 2);
    json::remove_field(&mut fields, "b");
    assert!(json::find(&fields, "b").is_none());
    assert_eq!(json::as_texts(Some(&json::texts_value(&vec!["x".to_string(), "y".to_string()]))), vec!["x".to_string(), "y".to_string()]);
    assert_eq!(json::as_nat(Some(&json::int_value(-1))), None);
    assert_eq!(json::as_text(None), "");
}

/// A file of another program, or of another version, is not opened.
#[test]
fn foreign_files_are_refused() {
    assert!(initialize(0, 0, 0).unwrap());
    assert!(!initialize(SCHEMA_VERSION, APPLICATION_ID, 12).unwrap());
    assert!(matches!(initialize(0, 0, 3), Err(Error::Conflict(_))));
    assert!(matches!(initialize(0, 77, 0), Err(Error::Conflict(_))));
    assert!(matches!(initialize(SCHEMA_VERSION + 1, APPLICATION_ID, 3), Err(Error::SchemaVersion { .. })));
    assert!(check_snapshot(APPLICATION_ID, SCHEMA_VERSION).is_ok());
    assert!(matches!(check_snapshot(0, SCHEMA_VERSION), Err(Error::Validation(_))));
    assert!(matches!(check_snapshot(APPLICATION_ID, 1), Err(Error::SchemaVersion { .. })));
    assert_eq!(vectors_file("backup.sqlite3"), "backup.sqlite3.vectors");
}

/// Records are counted under the names of their kinds.
#[test]
fn records_are_counted_by_kind() {
    let counts = count_by_kind(&vec![(5, 4), (0, 3), (77, 1)]);
    assert_eq!(counts, vec![("77".to_string(), 1), ("chunk".to_string(), 4), ("memory".to_string(), 3)]);
    assert_eq!(count_all(&counts), 8);
    assert_eq!(count_all(&vec![("a".to_string(), u64::MAX), ("b".to_string(), 1)]), u64::MAX);
    let mut list = vec![("b".to_string(), 1u64)];
    set_entry(&mut list, "a", 2);
    set_entry(&mut list, "b", 3);
    assert_eq!(list, vec![("a".to_string(), 2), ("b".to_string(), 3)]);
}

/// Each stage takes the time since the one before.
#[test]
fn stages_are_timed_in_turn() {
    let mut timer = StageTimer::start(1_000_000);
    timer.mark("text", 4_000_000);
    timer.mark("fuse", 4_900_000);
    let stages = timer.finish("load", 10_900_000);
    assert_eq!(stages, vec![("fuse".to_string(), 0), ("load".to_string(), 6), ("text".to_string(), 3)]);
    let event = LogEvent::new("search", "2026-01-01T00:00:00.000".to_string());
    assert_eq!((event.kind.as_str(), event.ms), ("search", 0));
    assert!(event.stages.is_empty() && event.hits.is_none() && event.degraded.is_empty());
}

/// Writes tell which namespaces they touched; a write that tells nothing costs the whole cache.
#[test]
fn touched_namespaces_are_told() {
    let mut log = TouchLog::new();
    log.touch_namespace("ignored");
    assert!(log.take().is_empty(), "nothing is noted before a log is in place");
    let previous = log.install();
    log.touch_namespace("a");
    log.touch_namespace("b");
    log.touch_namespace("a");
    assert_eq!(log.take(), vec!["a".to_string(), "b".to_string()]);
    let _ = previous;
    assert!(matches!(invalidation(false, vec!["a".to_string()]), Invalidation::Nothing));
    assert!(matches!(invalidation(true, Vec::new()), Invalidation::Everything));
    assert!(matches!(invalidation(true, vec!["a".to_string()]), Invalidation::Namespaces(list) if list == vec!["a".to_string()]));
}

/// Fall backs are noted once each.
#[test]
fn fall_backs_are_noted_once() {
    let mut seen: Vec<Degrade> = Vec::new();
    for degrade in [Degrade::NoEmbedder, Degrade::EmbedFailed, Degrade::NoEmbedder] {
        note_degrade(&mut seen, degrade);
    }
    assert_eq!(seen.len(), 2);
    assert!(seen.contains(&Degrade::NoEmbedder) && seen.contains(&Degrade::EmbedFailed));
}
