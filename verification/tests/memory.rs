use p_memory::bits::Real;
use p_memory::error::Error;
use p_memory::json::{self, Json};
use p_memory::memory::{
    as_input, check_feedback, check_memory, choose_state, decay_state, feedback_step, is_retirement_candidate, join_existing,
    resolve_judgment, state_value, write_memory, DecayPolicy, DecayReport, FeedbackReport, FeedbackRequest,
    FeedbackStep, Memory, MemoryInput, MemoryState,
};
use p_memory::records::{plan_record, StoreState, StoredRecord};
use p_memory::storage::record_text;
use p_memory::types::{Evidence, Metadata, RecordHeader, RecordInput, RecordKind};

const DAY: i64 = 86_400_000_000;

fn number(value: f64) -> Real {
    Real { bits: value.to_bits(), text: format!("{value:?}") }
}

fn state(strength: i64, score: f64) -> MemoryState {
    MemoryState { strength, useful_score: number(score), ..Default::default() }
}

fn message<T>(result: Result<T, Error>) -> String {
    match result {
        Err(error) => error.message(),
        Ok(_) => panic!("expected an error"),
    }
}

/// A run over all memories: what fades is written back.
fn decay(memories: &mut [(i64, MemoryState)], policy: &DecayPolicy, at: i64) -> DecayReport {
    let mut report = DecayReport::default();
    for (id, state) in memories.iter_mut() {
        if let Some(next) = report.take_in(*id, state, 0, policy, at) {
            *state = next;
        }
    }
    report
}

/// A weak memory fades and may be retired, a pinned one stays; a recall brings the first back.
#[test]
fn explicit_lifecycle_has_no_hidden_deletion() {
    let policy = DecayPolicy::default();
    let pinned = MemoryState { pinned: true, ..Default::default() };
    let weak_id = 1i64;
    let mut memories = vec![(weak_id, MemoryState::default()), (2, pinned)];
    assert_eq!(memories[0].1.strength, 1);
    let report = decay(&mut memories, &policy, 4 * DAY);
    assert_eq!(report.decayed, 1);
    assert_eq!(report.retirement_candidates[0].id, weak_id);
    assert_eq!(report.retirement_candidates.len(), 1);
    assert_eq!(memories.len(), 2);
    assert_eq!(memories[0].1.strength, 0);
    assert_eq!(memories[0].1.last_decay_at_us, Some(3 * DAY));
    assert!(is_retirement_candidate(&memories[0].1, &policy) && !is_retirement_candidate(&memories[1].1, &policy));

    let feedback = FeedbackRequest {
        recalled_ids: vec![weak_id],
        useful_ids: vec![weak_id],
        now_us: Some(5 * DAY),
        ..Default::default()
    };
    let recalled = check_feedback(&feedback).unwrap();
    let mut report = FeedbackReport::new(recalled.len());
    let step = feedback_step(&memories[0].1, true, &policy, number(2.5), 5 * DAY).unwrap();
    memories[0].1 = report.take_in(step).unwrap();
    assert_eq!((report.recalled, report.boosted, report.penalized), (1, 1, 0));
    let raised = &memories[0].1;
    assert_eq!(raised.strength, 1);
    assert_eq!(raised.useful_count, 1);
    assert_eq!(raised.useful_score.text, "2.5");
    assert_eq!(raised.last_recalled_at_us, Some(5 * DAY));
    let bad = FeedbackRequest { useful_ids: vec![9_999_999], ..Default::default() };
    assert!(check_feedback(&bad).is_err());
    assert_eq!(decay(&mut memories, &policy, 5 * DAY).decayed, 0);
}

/// Fading counts whole cycles, and in two steps as in one.
#[test]
fn fading_counts_whole_cycles() {
    let policy = DecayPolicy::default();
    let strong = state(10, 0.0);
    assert!(decay_state(&strong, 0, &policy, 3 * DAY - 1).is_none());
    let once = decay_state(&strong, 0, &policy, 20 * DAY).unwrap();
    assert_eq!((once.strength, once.last_decay_at_us), (4, Some(18 * DAY)));
    let first = decay_state(&strong, 0, &policy, 10 * DAY).unwrap();
    assert_eq!((first.strength, first.last_decay_at_us), (7, Some(9 * DAY)));
    let second = decay_state(&first, 0, &policy, 20 * DAY).unwrap();
    assert_eq!((second.strength, second.last_decay_at_us), (4, Some(18 * DAY)));
    assert!(decay_state(&second, 0, &policy, 20 * DAY).is_none());
    // Nothing fades backwards, from a higher tier, or below zero.
    assert!(decay_state(&strong, 30 * DAY, &policy, 20 * DAY).is_none());
    assert!(decay_state(&state(10, 3.0), 0, &policy, 20 * DAY).is_none());
    assert_eq!(decay_state(&state(2, 0.0), 0, &policy, 300 * DAY).unwrap().strength, 0);
    assert!(decay_state(&state(0, 0.0), 0, &policy, 300 * DAY).is_none());
}

/// Tiers, and what a recall in vain does in each.
#[test]
fn recalls_in_vain_weaken_the_middle_tier_only() {
    let policy = DecayPolicy::default();
    assert_eq!(policy.tier(2.9f64.to_bits()), 0);
    assert_eq!(policy.tier(3.0f64.to_bits()), 1);
    assert_eq!(policy.tier(10.0f64.to_bits()), 2);
    let step = |s: &MemoryState| feedback_step(s, false, &policy, number(0.0), 7).unwrap();
    assert!(matches!(step(&state(5, 1.0)), FeedbackStep::Unchanged));
    assert!(matches!(step(&state(5, 12.0)), FeedbackStep::Unchanged));
    match step(&state(5, 4.0)) {
        FeedbackStep::Penalized(next) => assert_eq!((next.strength, next.useful_count), (4, 0)),
        other => panic!("{other:?}"),
    }
    match step(&state(0, 4.0)) {
        FeedbackStep::Penalized(next) => assert_eq!(next.strength, 0),
        other => panic!("{other:?}"),
    }
    let pinned = MemoryState { pinned: true, ..state(5, 4.0) };
    assert!(matches!(step(&pinned), FeedbackStep::Unchanged));
    let full = state(i64::MAX, 1.0);
    assert_eq!(message(feedback_step(&full, true, &policy, number(3.5), 7)), "invalid input: strength overflow");
    let counted = MemoryState { useful_count: i64::MAX, ..state(1, 1.0) };
    assert_eq!(message(feedback_step(&counted, true, &policy, number(3.5), 7)), "invalid input: useful_count overflow");
}

/// A policy needs positive numbers and thresholds in order.
#[test]
fn policies_are_checked() {
    assert!(DecayPolicy::default().validate().is_ok());
    let swapped = DecayPolicy { tier0_threshold: 10.0f64.to_bits(), tier1_threshold: 3.0f64.to_bits(), ..Default::default() };
    assert_eq!(message(swapped.validate()), "invalid input: invalid decay policy");
    assert!(DecayPolicy { tier0_cycle_days: 0, ..Default::default() }.validate().is_err());
    assert!(DecayPolicy { strength_boost: 0, ..Default::default() }.validate().is_err());
    assert!(DecayPolicy { useful_score_boost: f64::NAN.to_bits(), ..Default::default() }.validate().is_err());
    assert!(DecayPolicy { tier1_threshold: f64::INFINITY.to_bits(), ..Default::default() }.validate().is_err());
}

/// A feedback names each recalled memory once, and only recalled ones as useful.
#[test]
fn feedback_is_checked() {
    let request = FeedbackRequest { recalled_ids: vec![3, 1, 3], useful_ids: vec![1], ..Default::default() };
    assert_eq!(check_feedback(&request).unwrap(), vec![1, 3]);
    let stray = FeedbackRequest { recalled_ids: vec![1], useful_ids: vec![2], ..Default::default() };
    assert!(matches!(check_feedback(&stray), Err(Error::Validation(_))));
}

/// The first state is given, kept or new.
#[test]
fn state_is_given_kept_or_new() {
    let given = Some(state(7, 1.0));
    assert_eq!(choose_state(&given, Some(state(3, 0.0))).unwrap().strength, 7);
    assert_eq!(choose_state(&None, Some(state(3, 0.0))).unwrap().strength, 3);
    let fresh = choose_state(&None, None).unwrap();
    assert_eq!((fresh.strength, fresh.useful_count, fresh.useful_score.text.as_str()), (1, 0, "0.0"));
    assert!(choose_state(&Some(state(-1, 0.0)), None).is_err());
    assert!(choose_state(&Some(state(1, f64::NAN)), None).is_err());
}

/// A judgment and its type are needed.
#[test]
fn memories_are_checked() {
    assert!(check_memory(&MemoryInput::new("上海 茶".to_string())).is_ok());
    assert_eq!(message(check_memory(&MemoryInput::new(" \n".to_string()))), "invalid input: judgment is required");
    let nameless = MemoryInput { memory_type: " ".to_string(), ..MemoryInput::new("x".to_string()) };
    assert!(matches!(check_memory(&nameless), Err(Error::Validation(_))));
}

fn shown(value: &Json, key: &str) -> Json {
    json::copy(json::get(value, key).unwrap())
}

fn text_at(value: &Json, key: &str) -> String {
    json::as_text(json::get(value, key))
}

/// What is written of a memory, and the text that is searched for it.
#[test]
fn written_memory_can_be_read_back() {
    let input = MemoryInput { reasoning: "because".to_string(), ..MemoryInput::new(" Ｔｅａ Time ".to_string()) };
    let written = write_memory(&input, 12, &state(2, 0.5));
    assert_eq!(json::as_int(json::get(&written.payload, "memory_type_id")), Some(12));
    assert_eq!(text_at(&written.payload, "judgment"), written.judgment);
    assert_eq!(text_at(&written.payload, "reasoning"), "because");
    assert_eq!(text_at(&written.payload, "judgment_key"), "tea time");
    let state = shown(&written.payload, "state");
    assert_eq!(json::as_int(json::get(&state, "strength")), Some(2));
    assert!(matches!(json::get(&state, "last_recalled_at_us"), Some(Json::Null)));
    assert!(matches!(json::get(&state, "useful_score"), Some(Json::Number(n)) if n.text == "0.5"));
    assert_eq!(record_text(RecordKind::Memory, &written.payload), written.judgment);
    let alone = state_value(&MemoryState { last_decay_at_us: Some(4), ..Default::default() });
    assert_eq!(json::as_int(json::get(&alone, "last_decay_at_us")), Some(4));
}

/// A judgment that is there already takes the new record; two of them are a conflict.
#[test]
fn judgments_are_found_again() {
    assert_eq!(resolve_judgment(&Vec::new(), None).unwrap(), None);
    assert_eq!(resolve_judgment(&vec![4], None).unwrap(), Some(4));
    assert_eq!(resolve_judgment(&vec![4], Some(4)).unwrap(), Some(4));
    assert!(matches!(resolve_judgment(&vec![4, 5], None), Err(Error::Conflict(_))));
    assert!(resolve_judgment(&vec![4], Some(9)).is_err());
}

/// Joining keeps what the stored record had and adds what is new.
#[test]
fn joining_a_record_keeps_what_was_there() {
    let stored = Metadata { entries: vec![("a".to_string(), json::int_value(1)), ("b".to_string(), json::int_value(2))] };
    let given = Metadata { entries: vec![("b".to_string(), json::int_value(3))] };
    let record = RecordInput { metadata: given, evidence: vec![Evidence::of_source("new".to_string())], ..Default::default() };
    let joined = join_existing(record, 7, stored, vec![Evidence::of_source("old".to_string())]);
    assert_eq!(joined.id, Some(7));
    assert_eq!(json::as_int(json::find(&joined.metadata.entries, "a")), Some(1));
    assert_eq!(json::as_int(json::find(&joined.metadata.entries, "b")), Some(3));
    assert_eq!(joined.evidence.iter().map(|e| e.source.as_str()).collect::<Vec<_>>(), vec!["new"]);
    let bare = join_existing(RecordInput::default(), 7, Metadata::new(), vec![Evidence::of_source("old".to_string())]);
    assert_eq!(bare.evidence.iter().map(|e| e.source.as_str()).collect::<Vec<_>>(), vec!["old"]);
}

/// A memory that was read can be written back with another state.
#[test]
fn read_memory_is_written_back() {
    let header = RecordHeader {
        id: 5,
        namespace: "default".to_string(),
        kind: RecordKind::Memory,
        scope: "public".to_string(),
        tags: vec!["rust".to_string()],
        evidence: Vec::new(),
        metadata: Metadata::new(),
        created_at_us: 10,
        updated_at_us: 20,
        revision: 3,
    };
    let memory = Memory {
        header,
        memory_type: "knowledge".to_string(),
        judgment: "tea".to_string(),
        reasoning: String::new(),
        state: MemoryState::default(),
    };
    let input = as_input(&memory, state(4, 1.0), 30);
    assert_eq!(input.record.id, Some(5));
    assert_eq!(input.record.updated_at_us, Some(30));
    assert_eq!(input.state.as_ref().unwrap().strength, 4);
    assert_eq!(input.judgment, "tea");
    let stored = StoredRecord { created_at_us: 10, updated_at_us: 20, revision: 3, scope_id: 1 };
    let store = StoreState { found: Some(stored), scope_id: 1, references: 0, now_us: 40 };
    let plan = plan_record(&input.record, "tea", store).unwrap();
    assert_eq!((plan.created_at_us, plan.updated_at_us), (10, 30));
    assert_eq!(plan.tags, vec!["rust".to_string()]);
}
