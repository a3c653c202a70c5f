use p_memory::embeddings::{
    budgeted_texts, check_embedder, check_ready, check_switch, check_vector, enabled_kinds, found_space, ready_kinds,
    register_space, registration_failure, sample_texts, target_vectorize_key, validate_vectors, vector_ready_key,
    vectorize_key, EmbedCallbackError, EmbedErrorKind, EmbedderOptions, EmbeddingSpace, Readiness, Switches, VectorShape,
    VectorizeTarget,
};
use p_memory::error::Error;
use p_memory::filling::{
    candidate, check_fingerprints, check_sync, embeddable, gap_step, is_filled, mark_step, namespaces_of, orphans,
    pending_sql, sync_report, target_enabled_sql, CandidateRow, Drain, DrainStep, EmbedderEntry, EmbeddingInput, GapStep,
    MarkStep, PendingQuery, PendingWrite, RetryStep, SyncReport,
};
use p_memory::json::{self, Json};
use p_memory::search::{step_degrade, vector_step};
use p_memory::types::{Degrade, RecordKey, RecordKind};

/// One call of an embedder with its repetitions; the second part tells how often it was called.
fn embed_with_retry(
    entry: &mut EmbedderEntry,
    texts: &[String],
    embedder: &mut dyn FnMut(&[String]) -> Result<usize, EmbedCallbackError>,
) -> Result<usize, RetryStep> {
    let mut attempts = 0;
    loop {
        match embedder(texts) {
            Ok(vectors) => return Ok(vectors),
            Err(error) => match entry.on_error(attempts, &error) {
                RetryStep::Wait { attempts: next, .. } => attempts = next,
                step => return Err(step),
            },
        }
    }
}

/// A batch that is too large is halved; the smaller size stays in force.
#[test]
fn oversized_batches_shrink_and_persist() {
    let mut lengths: Vec<usize> = Vec::new();
    let mut entry = EmbedderEntry {
        options: EmbedderOptions { max_batch: 8, max_tokens_per_text: None },
        effective_batch: 8,
    };
    let mut embedder = |texts: &[String]| {
        lengths.push(texts.len());
        if texts.len() > 4 {
            return Err(EmbedCallbackError::too_large("too many texts".to_string()));
        }
        Ok(texts.len())
    };
    let texts: Vec<String> = (0..8).map(|i| format!("文本 {i}")).collect();
    assert!(matches!(embed_with_retry(&mut entry, &texts, &mut embedder), Err(RetryStep::Shrunk)));
    assert_eq!(entry.effective_batch, 4);
    assert!(matches!(embed_with_retry(&mut entry, &texts[..4], &mut embedder), Ok(4)));
    assert_eq!(lengths, vec![8, 4]);
}

/// A batch of one that is still too large is a failure; other errors neither repeat nor shrink.
#[test]
fn callback_errors_are_classified() {
    let mut broken = EmbedderEntry { options: EmbedderOptions::default(), effective_batch: 1 };
    let mut refuse = |_: &[String]| Err(EmbedCallbackError::too_large("still too large".to_string()));
    assert!(matches!(embed_with_retry(&mut broken, &["a".to_string()], &mut refuse), Err(RetryStep::Failed(_))));
    assert_eq!(broken.effective_batch, 1);

    let mut attempts = 0;
    let mut throttled = EmbedderEntry { options: EmbedderOptions::default(), effective_batch: 4 };
    let mut slow = |_: &[String]| {
        attempts += 1;
        if attempts <= 2 {
            Err(EmbedCallbackError::rate_limited("slow down".to_string()))
        } else {
            Ok(1)
        }
    };
    assert!(matches!(embed_with_retry(&mut throttled, &["a".to_string()], &mut slow), Ok(1)));
    assert_eq!(attempts, 3);
    assert_eq!(throttled.effective_batch, 4);
}

#[test]
fn rate_limits_are_waited_for_a_few_times() {
    let mut entry = EmbedderEntry::new(EmbedderOptions::default());
    let error = EmbedCallbackError::rate_limited("slow down".to_string());
    for attempts in 0..3u32 {
        match entry.on_error(attempts, &error) {
            RetryStep::Wait { attempts: next, backoff_ms } => {
                assert_eq!(next, attempts + 1);
                assert_eq!(backoff_ms, 20 * u64::from(next));
            }
            other => panic!("{other:?}"),
        }
    }
    match entry.on_error(3, &error) {
        RetryStep::Failed(message) => assert_eq!(message, "slow down"),
        other => panic!("{other:?}"),
    }
    match entry.on_error(0, &EmbedCallbackError::other("gone".to_string())) {
        RetryStep::Failed(message) => assert_eq!(message, "gone"),
        other => panic!("{other:?}"),
    }
    let mut one = EmbedderEntry { options: EmbedderOptions::default(), effective_batch: 1 };
    match one.on_error(0, &EmbedCallbackError::too_large("no".to_string())) {
        RetryStep::Failed(message) => assert_eq!(message, "batch size 1 was still rejected: no"),
        other => panic!("{other:?}"),
    }
}

fn space(id: &str, dimension: usize) -> EmbeddingSpace {
    EmbeddingSpace {
        id: id.to_string(),
        model: "fixture/v1".to_string(),
        dimension,
        text_version: 1,
        encoding: "sq8".to_string(),
    }
}

fn message<T: std::fmt::Debug>(out: Result<T, Error>) -> String {
    out.unwrap_err().message()
}

#[test]
fn spaces_are_immutable() {
    let one = space("v", 3);
    assert!(register_space(&one, None).unwrap());
    assert!(!register_space(&one, Some(&space("v", 3))).unwrap());
    assert!(matches!(register_space(&one, Some(&space("v", 4))), Err(Error::Conflict(_))));
    assert!(matches!(register_space(&space("v", 0), None), Err(Error::Validation(_))));
    assert!(matches!(register_space(&space("v", 65_537), None), Err(Error::Validation(_))));
    assert!(matches!(register_space(&space(" v", 3), None), Err(Error::Validation(_))));
    let mut odd = space("v", 3);
    odd.encoding = "f16".to_string();
    assert_eq!(message(register_space(&odd, None)), "invalid input: encoding must be \"f32\" or \"sq8\"");
    match found_space("v", None) {
        Err(Error::NotFound(message)) => assert_eq!(message, "embedding space v"),
        other => panic!("{other:?}"),
    }
    assert_eq!(found_space("v", Some(space("v", 3))).unwrap().dimension, 3);
}

#[test]
fn embedders_are_checked_before_they_are_bound() {
    assert!(check_embedder("v", EmbedderOptions::default()).is_ok());
    assert!(check_embedder("", EmbedderOptions::default()).is_err());
    let many = EmbedderOptions { max_batch: 10_001, max_tokens_per_text: None };
    assert_eq!(message(check_embedder("v", many)), "invalid input: max_batch must be between 1 and 10000");
    let none = EmbedderOptions { max_batch: 1, max_tokens_per_text: Some(0) };
    assert_eq!(message(check_embedder("v", none)), "invalid input: max_tokens_per_text must be positive");
    assert_eq!(sample_texts(1).len(), 1);
    assert_eq!(sample_texts(64).len(), 3);

    let good = VectorShape { len: 3, finite: true, usable_norm: true };
    assert!(validate_vectors(&vec![good, good], 2, &space("v", 3)).is_ok());
    assert_eq!(
        message(validate_vectors(&vec![good], 2, &space("v", 3))),
        "invalid vector: embedder returned 1 vectors for 2 inputs"
    );
    let short = VectorShape { len: 2, finite: true, usable_norm: true };
    assert_eq!(
        message(validate_vectors(&vec![good, short], 2, &space("v", 3))),
        "invalid vector: embedder output does not satisfy space v: invalid vector: expected dimension 3, received 2"
    );
    assert!(check_vector(VectorShape { len: 3, finite: false, usable_norm: true }, 3).is_err());
    assert!(check_vector(VectorShape { len: 3, finite: true, usable_norm: false }, 3).is_err());
    assert_eq!(
        registration_failure(&EmbedCallbackError::rate_limited("later".to_string())).message(),
        "invalid input: embedder failed during registration (rate_limited): later"
    );
}

#[test]
fn texts_are_cut_to_the_budget_of_the_embedder() {
    let texts = vec!["abcdefgh".to_string(), "ab".to_string()];
    let cut = budgeted_texts(&texts, EmbedderOptions { max_batch: 8, max_tokens_per_text: Some(1) });
    assert_eq!(cut, vec!["abcd".to_string(), "ab".to_string()]);
    assert_eq!(budgeted_texts(&texts, EmbedderOptions::default()), texts);
}

#[test]
fn error_kinds_have_codes() {
    for kind in [EmbedErrorKind::TooLarge, EmbedErrorKind::RateLimited, EmbedErrorKind::Other] {
        assert_eq!(EmbedErrorKind::from_code(kind.code()), Some(kind));
    }
    assert_eq!(EmbedErrorKind::from_code("unknown"), None);
}

#[test]
fn switches_decide_which_kinds_get_vectors() {
    let unset = Switches { master: None, memory: None, graph: None, notes: None };
    let graph = [RecordKind::Memory, RecordKind::Entity, RecordKind::Relation, RecordKind::Event];
    assert_eq!(enabled_kinds(unset), graph);
    let all = Switches { notes: Some(1), ..unset };
    assert_eq!(enabled_kinds(all).last(), Some(&RecordKind::Chunk));
    assert!(enabled_kinds(Switches { master: Some(0), ..all }).is_empty());
    assert_eq!(enabled_kinds(Switches { graph: Some(0), ..unset }), [RecordKind::Memory]);
    let half = Readiness { memory: true, graph: false, notes: true };
    assert_eq!(ready_kinds(all, half), [RecordKind::Memory, RecordKind::Chunk]);
    assert!(ready_kinds(Switches { master: Some(0), ..all }, half).is_empty());
    assert!(!VectorizeTarget::Notes.default_enabled());

    assert_eq!(vectorize_key("Ａ b"), "vectorize:a b");
    assert_eq!(target_vectorize_key("a", VectorizeTarget::Graph), "vectorize:a:graph");
    assert_eq!(vector_ready_key("A", "s", VectorizeTarget::Notes), "vector_ready:a:s:notes");

    assert_eq!(check_switch("a", "notes").unwrap(), VectorizeTarget::Notes);
    assert_eq!(
        message(check_switch("a", "all")),
        "invalid input: vectorize target must be memory, graph or notes, got all"
    );
    assert!(check_switch(" a", "notes").is_err());
    assert!(message(check_ready("a", "", "notes")).contains("space id"));
    assert_eq!(check_ready("a", "s", "memory").unwrap(), VectorizeTarget::Memory);
}

fn row(id: i64, kind: RecordKind, payload: Json, tags: &[&str]) -> CandidateRow {
    CandidateRow {
        id,
        kind_code: kind.code(),
        payload: Some(payload),
        fingerprint: "f".to_string(),
        namespace: "default".to_string(),
        scope: "public".to_string(),
        chunk_body: None,
        tags: tags.iter().map(|tag| tag.to_string()).collect(),
        note_id: None,
    }
}

fn object(pairs: &[(&str, &str)]) -> Json {
    json::object_value(pairs.iter().map(|(key, value)| (key.to_string(), json::text_value(value))).collect())
}

#[test]
fn texts_of_candidates_follow_their_kind() {
    let memory = candidate(row(1, RecordKind::Memory, object(&[("judgment", "喝茶")]), &["茶", "水"])).unwrap();
    assert_eq!(memory.text, "喝茶\n茶 水");
    let plain = candidate(row(2, RecordKind::Memory, object(&[("judgment", "喝茶")]), &[])).unwrap();
    assert_eq!(plain.text, "喝茶");
    let entity = candidate(row(3, RecordKind::Entity, object(&[("name", "甲"), ("summary", "人")]), &["x"])).unwrap();
    assert!(entity.text.starts_with("甲\n"));
    let mut waiting = row(4, RecordKind::Chunk, object(&[]), &[]);
    waiting.note_id = Some(9);
    let waiting = candidate(waiting).unwrap();
    assert!(waiting.text_pending && waiting.text.is_empty() && waiting.note_id == 9);
    assert!(!embeddable(&waiting) && embeddable(&plain));
    let mut unknown = row(5, RecordKind::Memory, object(&[]), &[]);
    unknown.kind_code = 77;
    assert_eq!(message(candidate(unknown)), "invalid input: invalid stored record kind");
}

fn input(id: i64, text: &str) -> EmbeddingInput {
    EmbeddingInput {
        key: RecordKey { id },
        text: text.to_string(),
        fingerprint: "f".to_string(),
        namespace: "default".to_string(),
        scope: "public".to_string(),
        kind: RecordKind::Memory,
        tags: vec![],
        note_id: 0,
        text_pending: false,
    }
}

#[test]
fn gaps_are_records_with_text_and_no_vector() {
    assert!(matches!(gap_step(&vec![]), GapStep::Closed));
    assert!(matches!(gap_step(&vec![input(1, " ")]), GapStep::After(1)));
    assert!(matches!(gap_step(&vec![input(1, ""), input(2, "x")]), GapStep::Open));
    let mut pending = input(3, "");
    pending.text_pending = true;
    assert!(matches!(gap_step(&vec![pending]), GapStep::Open));
    assert!(is_filled(true, false) && !is_filled(true, true) && !is_filled(false, false));
    assert!(matches!(mark_step(0, 5, 5), MarkStep::Write));
    assert!(matches!(mark_step(0, 5, 6), MarkStep::Retry));
    assert!(matches!(mark_step(2, 5, 6), MarkStep::GiveUp));
}

#[test]
fn a_run_passes_over_what_has_no_text_and_keeps_what_was_written() {
    let mut drain = Drain::new(32);
    assert_eq!(drain.limit(4), 4);
    assert_eq!(drain.limit(0), 1);
    assert!(matches!(drain.on_candidates(vec![input(1, " "), input(2, "")]), DrainStep::Fetch));
    assert_eq!(drain.cursor, Some(2));
    match drain.on_candidates(vec![input(3, "a"), input(4, ""), input(5, "b")]) {
        DrainStep::Embed(batch) => assert_eq!(batch.iter().map(|input| input.key.id).collect::<Vec<_>>(), vec![3, 5]),
        other => panic!("{other:?}"),
    }
    assert!(drain.on_vectors(2, 2));
    drain.on_written(Some(2));
    assert_eq!(drain.cursor, Some(5));
    assert!(matches!(drain.on_candidates(vec![input(6, "c")]), DrainStep::Embed(_)));
    assert!(!drain.on_vectors(0, 1));
    assert_eq!(drain.report.interrupted.as_deref(), Some("embedder returned 0 vectors for 1 inputs"));
    assert_eq!((drain.report.scanned, drain.report.written, drain.report.batches), (3, 2, 1));
    assert!(matches!(Drain::new(8).on_candidates(vec![]), DrainStep::Stop));
    let report = sync_report(4, SyncReport { scanned: 3, written: 2, batches: 1, deleted: 0, interrupted: None });
    assert_eq!((report.deleted, report.scanned), (4, 3));
}

#[test]
fn runs_need_an_embedder() {
    assert!(check_sync("v", 32, true).is_ok());
    assert_eq!(message(check_sync("v", 32, false)), "invalid input: no embedder registered for space v");
    assert_eq!(message(check_sync("v", 0, false)), "invalid input: limit must be between 1 and 10000");
}

#[test]
fn vectors_are_written_only_for_unchanged_records() {
    let write = |id| PendingWrite { id, fingerprint: "f".to_string() };
    let current = |text: &str| Some(text.to_string());
    assert!(check_fingerprints(&vec![write(1), write(2)], &vec![current("f"), current("f")]).is_ok());
    match check_fingerprints(&vec![write(1), write(2)], &vec![current("f"), current("g")]) {
        Err(Error::StaleRevision(message)) => assert_eq!(message, "2"),
        other => panic!("{other:?}"),
    }
    match check_fingerprints(&vec![write(3)], &vec![None]) {
        Err(Error::NotFound(message)) => assert_eq!(message, "3"),
        other => panic!("{other:?}"),
    }
}

#[test]
fn vectors_of_deleted_records_are_orphans() {
    let rows = vec![(1, "a".to_string()), (2, "b".to_string()), (3, "a".to_string())];
    assert_eq!(orphans(&vec![2], &rows), vec![(1, "a".to_string()), (3, "a".to_string())]);
    assert_eq!(namespaces_of(&rows), vec!["a".to_string(), "b".to_string()]);
}

#[test]
fn the_query_for_missing_vectors() {
    assert_eq!(
        target_enabled_sql(VectorizeTarget::Notes),
        "(r.kind IN (5) AND COALESCE((SELECT value FROM meta WHERE key='vectorize:'||n.text||':notes'),0) = 1)"
    );
    let query = |ids| PendingQuery {
        space_id: "v".to_string(),
        namespace: Some("A".to_string()),
        target: Some(VectorizeTarget::Memory),
        limit: 8,
        after: Some(3),
        ids,
    };
    assert!(pending_sql(&query(Some(vec![]))).is_none());
    let (sql, values) = pending_sql(&query(Some(vec![5, 6]))).unwrap();
    assert!(sql.ends_with(" AND r.id IN (?,?) AND r.id>? ORDER BY r.id LIMIT ?"));
    assert_eq!(sql.matches('?').count(), values.len());
}

/// One run over the records that have no vector yet; `filled` takes in what gets one.
fn drain(
    entry: &mut EmbedderEntry,
    records: &[EmbeddingInput],
    filled: &mut Vec<i64>,
    batch: usize,
    embedder: &mut dyn FnMut(&[String]) -> Result<usize, EmbedCallbackError>,
) -> SyncReport {
    let mut run = Drain::new(batch);
    loop {
        let limit = run.limit(entry.effective_batch);
        let gaps = records.iter().filter(|record| !filled.contains(&record.key.id) && run.cursor.is_none_or(|id| record.key.id > id));
        let wanted: Vec<EmbeddingInput> = gaps.take(limit).map(|record| input(record.key.id, &record.text)).collect();
        let pending = match run.on_candidates(wanted) {
            DrainStep::Stop => break,
            DrainStep::Fetch => continue,
            DrainStep::Embed(pending) => pending,
        };
        let texts: Vec<String> = pending.iter().map(|record| record.text.clone()).collect();
        let vectors = match embed_with_retry(entry, &texts, embedder) {
            Ok(vectors) => vectors,
            Err(RetryStep::Failed(message)) => {
                run.on_failure(message);
                break;
            }
            Err(_) => continue,
        };
        if !run.on_vectors(vectors, pending.len()) {
            break;
        }
        filled.extend(pending.iter().map(|record| record.key.id));
        run.on_written(Some(pending.len()));
    }
    run.report
}

/// The records that still have no vector.
fn gap(records: &[EmbeddingInput], filled: &[i64]) -> GapStep {
    let open = records.iter().filter(|record| !filled.contains(&record.key.id));
    gap_step(&open.map(|record| input(record.key.id, &record.text)).collect())
}

#[test]
fn oversized_batches_shrink_to_fit() {
    let records: Vec<EmbeddingInput> = (0..8).map(|i| input(i + 1, &format!("批次 {i}"))).collect();
    let mut entry = EmbedderEntry::new(EmbedderOptions { max_batch: 8, max_tokens_per_text: None });
    let mut calls: Vec<usize> = Vec::new();
    let mut filled: Vec<i64> = Vec::new();
    let report = drain(&mut entry, &records, &mut filled, 32, &mut |texts: &[String]| {
        calls.push(texts.len());
        if texts.len() > 4 {
            return Err(EmbedCallbackError::too_large("at most 4".to_string()));
        }
        Ok(texts.len())
    });
    assert!(matches!(gap(&records, &filled), GapStep::Closed));
    assert_eq!(report.interrupted, None);
    let shrink_at = calls.iter().position(|len| *len == 8).expect("the declared size comes first");
    assert_eq!(calls.iter().filter(|len| **len == 8).count(), 1);
    assert!(calls[shrink_at + 1..].iter().all(|len| *len <= 4));
}

#[test]
fn sync_stops_after_the_first_failing_batch() {
    let records = vec![input(1, "第一批 甲"), input(2, "第一批 乙"), input(3, "第二批 丙")];
    let mut entry = EmbedderEntry::new(EmbedderOptions { max_batch: 2, max_tokens_per_text: None });
    let mut filled: Vec<i64> = Vec::new();
    let mut failing = |texts: &[String]| {
        if texts.iter().any(|text| text.contains("第二批")) {
            return Err(EmbedCallbackError::other("boom".to_string()));
        }
        Ok(texts.len())
    };
    let first = drain(&mut entry, &records, &mut filled, 2, &mut failing);
    assert_eq!(first.written, 2);
    assert!(first.interrupted.is_some());
    assert!(!is_filled(true, matches!(gap(&records, &filled), GapStep::Open)));
    let switches = Switches { master: None, memory: None, graph: None, notes: None };
    let kinds = vec![RecordKind::Memory];
    let ready = |memory: bool| ready_kinds(switches, Readiness { memory, graph: false, notes: false });
    let (gated, searched) = vector_step(true, &kinds, &enabled_kinds(switches), &ready(false));
    assert!(searched.is_empty());
    assert_eq!(step_degrade(gated), Some(Degrade::VectorNotReady));
    let settled = drain(&mut entry, &records, &mut filled, 2, &mut failing);
    assert_eq!(settled.written, 0);
    assert!(settled.interrupted.is_some());

    let mut working = |texts: &[String]| Ok(texts.len());
    drain(&mut entry, &records, &mut filled, 2, &mut working);
    assert!(is_filled(true, matches!(gap(&records, &filled), GapStep::Open)));
    assert_eq!(filled.len(), 3);
    let mut calls = 0;
    let idle = drain(&mut entry, &records, &mut filled, 2, &mut |texts: &[String]| {
        calls += 1;
        Ok(texts.len())
    });
    assert_eq!((idle.written, calls), (0, 0));
    let (open, searched) = vector_step(true, &kinds, &enabled_kinds(switches), &ready(true));
    assert_eq!(step_degrade(open), None);
    assert_eq!(searched, kinds);
}
