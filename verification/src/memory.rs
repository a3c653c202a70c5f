//! Memories: what is written of them, and how they grow stronger and fade.

use crate::bits;
use crate::bits::Real;
use crate::chars;
use crate::error::{Error, ErrorView};
use crate::ids;
use crate::json;
use crate::json::Json;
use crate::query;
use crate::records;
use crate::storage;
use crate::text;
use crate::types;
use crate::types::{Evidence, Metadata, ReadFilter, RecordHeader, RecordInput, RecordKey};
use vstd::prelude::*;

verus! {

// ── The state of a memory ─────────────────────────────────────────────

/// How a memory has fared.
#[derive(Debug)]
pub struct MemoryState {
    /// A pinned memory never fades.
    pub pinned: bool,
    pub strength: i64,
    pub useful_count: i64,
    pub useful_score: Real,
    pub last_recalled_at_us: Option<i64>,
    pub last_decay_at_us: Option<i64>,
}

impl Default for MemoryState {
    fn default() -> (out: Self)
        ensures
            !out.pinned && out.strength == 1 && out.useful_count == 0,
            out.useful_score.bits == 0 && out.useful_score.text@ == "0.0"@,
            out.last_recalled_at_us is None && out.last_decay_at_us is None,
    {
        MemoryState {
            pinned: false,
            strength: 1,
            useful_count: 0,
            useful_score: Real { bits: 0, text: "0.0".to_owned() },
            last_recalled_at_us: None,
            last_decay_at_us: None,
        }
    }
}

impl MemoryState {
    /// A copy of the state.
    pub fn copy(&self) -> (out: Self)
        ensures
            out == *self,
    {
        MemoryState {
            pinned: self.pinned,
            strength: self.strength,
            useful_count: self.useful_count,
            useful_score: self.useful_score.copy(),
            last_recalled_at_us: self.last_recalled_at_us,
            last_decay_at_us: self.last_decay_at_us,
        }
    }
}

/// A state whose numbers may be stored.
pub open spec fn valid_state(s: MemoryState) -> bool {
    s.strength >= 0 && s.useful_count >= 0 && bits::nonnegative(s.useful_score.bits)
}

/// A memory.
#[derive(Debug)]
pub struct Memory {
    pub header: RecordHeader,
    pub memory_type: String,
    pub judgment: String,
    pub reasoning: String,
    pub state: MemoryState,
}

/// A memory to be written.
#[derive(Debug)]
pub struct MemoryInput {
    pub record: RecordInput,
    pub memory_type: String,
    pub judgment: String,
    pub reasoning: String,
    /// None leaves the state of a memory that is there already.
    pub state: Option<MemoryState>,
}

impl MemoryInput {
    /// A memory that says nothing but its judgment.
    pub fn new(judgment: String) -> (out: Self)
        ensures
            out.judgment == judgment,
            out.memory_type@ == "knowledge"@,
            out.reasoning@ == Seq::<char>::empty(),
            out.state is None,
            out.record@ == types::default_record(),
    {
        MemoryInput {
            record: RecordInput::default(),
            memory_type: "knowledge".to_owned(),
            judgment,
            reasoning: String::new(),
            state: None,
        }
    }
}

// ── Writing ───────────────────────────────────────────────────────────

/// The state that a memory is written with: the given one, else the one that is there, else a new
/// one.
pub open spec fn chosen_state(given: Option<MemoryState>, existing: Option<MemoryState>, out: MemoryState) -> bool {
    match given {
        Some(s) => out == s,
        None => match existing {
            Some(s) => out == s,
            None => !out.pinned && out.strength == 1 && out.useful_count == 0 && out.useful_score.bits == 0 && out.useful_score.text@
                == "0.0"@ && out.last_recalled_at_us is None && out.last_decay_at_us is None,
        },
    }
}

/// An optional time as a tree.
pub open spec fn time_tree(t: Option<i64>) -> json::Tree {
    match t {
        Some(at) => json::int_tree(at),
        None => json::Tree::Null,
    }
}

/// The fields of a state.
pub open spec fn state_pairs(s: MemoryState) -> Seq<(Seq<char>, json::Tree)> {
    seq![
        ("pinned"@, json::Tree::Bool(s.pinned)),
        ("strength"@, json::int_tree(s.strength)),
        ("useful_count"@, json::int_tree(s.useful_count)),
        ("useful_score"@, s.useful_score.tree()),
        ("last_recalled_at_us"@, time_tree(s.last_recalled_at_us)),
        ("last_decay_at_us"@, time_tree(s.last_decay_at_us)),
    ]
}

/// The fields of a memory's payload. The key is the form under which a judgment is found again.
pub open spec fn memory_pairs(type_id: i64, judgment: Seq<char>, reasoning: Seq<char>, state: MemoryState) -> Seq<(Seq<char>, json::Tree)> {
    seq![
        ("memory_type_id"@, json::int_tree(type_id)),
        ("judgment"@, json::Tree::Text(judgment)),
        ("reasoning"@, json::Tree::Text(reasoning)),
        ("state"@, json::Tree::Object(json::with_fields(Seq::empty(), state_pairs(state)))),
        ("judgment_key"@, json::Tree::Text(text::tag_form(judgment))),
    ]
}

/// What is wrong with a memory itself.
pub open spec fn memory_error(memory_type: Seq<char>, judgment: Seq<char>) -> Option<ErrorView> {
    if !storage::identity(memory_type) {
        Some(storage::identity_error("memory_type"@))
    } else if chars::blank(judgment) {
        Some(ErrorView::Validation("judgment is required"@))
    } else {
        None
    }
}

/// Checks a memory before what is there is looked up.
pub fn check_memory(input: &MemoryInput) -> (out: Result<(), Error>)
    ensures
        storage::refused(out, memory_error(input.memory_type@, input.judgment@)),
        out is Ok <==> storage::identity(input.memory_type@) && !chars::blank(input.judgment@),
{
    storage::validate_identity("memory_type", input.memory_type.as_str())?;
    if chars::is_blank(input.judgment.as_str()) {
        return Err(Error::Validation("judgment is required".to_owned()));
    }
    Ok(())
}

/// The error for a state whose numbers may not be stored.
pub open spec fn state_error() -> ErrorView {
    ErrorView::Validation("memory lifecycle values must be finite and nonnegative"@)
}

/// Chooses the state that a memory is written with.
pub fn choose_state(given: &Option<MemoryState>, existing: Option<MemoryState>) -> (out: Result<MemoryState, Error>)
    ensures
        match out {
            Ok(s) => chosen_state(*given, existing, s) && valid_state(s),
            Err(e) => e@ == state_error() && exists|s: MemoryState| #[trigger] chosen_state(*given, existing, s) && !valid_state(s),
        },
        out matches Ok(s) ==> s.strength >= 0 && s.useful_count >= 0 && (s.useful_score.bits < bits::INFINITY_BITS || s.useful_score.bits
            == bits::SIGN_BIT),
        out matches Ok(s) ==> match (*given, existing) {
            (Some(g), _) => s == g,
            (None, Some(e)) => s == e,
            (None, None) => !s.pinned && s.strength == 1 && s.useful_count == 0 && s.useful_score.bits == 0,
        },
{
    let state = match given {
        Some(s) => s.copy(),
        None => match existing {
            Some(s) => s,
            None => MemoryState::default(),
        },
    };
    assert(chosen_state(*given, existing, state));
    if state.strength < 0 || state.useful_count < 0 || !bits::is_nonnegative(state.useful_score.bits) {
        return Err(Error::Validation("memory lifecycle values must be finite and nonnegative".to_owned()));
    }
    Ok(state)
}

/// An optional time as a value.
fn time_value(t: Option<i64>) -> (out: Json)
    ensures
        json::tree(out) == time_tree(t),
{
    match t {
        Some(at) => json::int_value(at),
        None => Json::Null,
    }
}

/// A state as a value.
pub fn state_value(s: &MemoryState) -> (out: Json)
    ensures
        json::tree(out) == json::Tree::Object(json::with_fields(Seq::empty(), state_pairs(*s))),
{
    let pairs: Vec<(String, Json)> = vec![
        ("pinned".to_owned(), Json::Bool(s.pinned)),
        ("strength".to_owned(), json::int_value(s.strength)),
        ("useful_count".to_owned(), json::int_value(s.useful_count)),
        ("useful_score".to_owned(), s.useful_score.value()),
        ("last_recalled_at_us".to_owned(), time_value(s.last_recalled_at_us)),
        ("last_decay_at_us".to_owned(), time_value(s.last_decay_at_us)),
    ];
    assert(json::field_trees(pairs@) == state_pairs(*s));
    json::object_value(pairs)
}

/// What is written for a memory: its payload, its judgment, which is its searched text, and its
/// reasoning, both trimmed.
#[derive(Debug)]
pub struct WrittenMemory {
    pub payload: Json,
    pub judgment: String,
    pub reasoning: String,
}

/// Works out what is written for a memory in a chosen state.
pub fn write_memory(input: &MemoryInput, type_id: i64, state: &MemoryState) -> (out: WrittenMemory)
    ensures
        out.judgment@ == chars::trim(input.judgment@),
        out.reasoning@ == chars::trim(input.reasoning@),
        json::tree(out.payload) == json::Tree::Object(
            json::with_fields(Seq::empty(), memory_pairs(type_id, out.judgment@, out.reasoning@, *state)),
        ),
{
    let judgment = chars::trimmed(input.judgment.as_str());
    let reasoning = chars::trimmed(input.reasoning.as_str());
    let key = text::normalized_tag(judgment.as_str());
    let pairs: Vec<(String, Json)> = vec![
        ("memory_type_id".to_owned(), json::int_value(type_id)),
        ("judgment".to_owned(), json::text_value(judgment.as_str())),
        ("reasoning".to_owned(), json::text_value(reasoning.as_str())),
        ("state".to_owned(), state_value(state)),
        ("judgment_key".to_owned(), json::text_value(key.as_str())),
    ];
    assert(json::field_trees(pairs@) == memory_pairs(type_id, judgment@, reasoning@, *state));
    WrittenMemory { payload: json::object_value(pairs), judgment, reasoning }
}

/// The text that is read back from a memory's payload is its judgment.
pub proof fn judgment_is_read_back(type_id: i64, judgment: Seq<char>, reasoning: Seq<char>, state: MemoryState)
    ensures
        storage::record_text_of(
            types::RecordKind::Memory,
            json::Tree::Object(json::with_fields(Seq::empty(), memory_pairs(type_id, judgment, reasoning, state))),
        ) == judgment,
{
    let pairs = memory_pairs(type_id, judgment, reasoning, state);
    reveal_strlit("judgment");
    reveal_strlit("reasoning");
    reveal_strlit("state");
    reveal_strlit("judgment_key");
    assert("judgment"@.len() == 8 && "reasoning"@.len() == 9 && "state"@.len() == 5 && "judgment_key"@.len() == 12);
    json::set_all_then_find(Seq::empty(), pairs, "judgment"@, 2);
}

/// What is read back of a memory is what was written, with its type as text.
pub proof fn memory_is_read_back(
    type_id: i64,
    judgment: Seq<char>,
    reasoning: Seq<char>,
    state: MemoryState,
    memory_type: Seq<char>,
    source: Seq<char>,
    title: Seq<char>,
)
    ensures
        ({
            let payload = json::with_fields(Seq::empty(), memory_pairs(type_id, judgment, reasoning, state));
            let shown = records::shown_payload(types::RecordKind::Memory, payload, memory_type, source, title);
            &&& json::int_of(json::lookup(payload, "memory_type_id"@)) == Some(type_id)
            &&& json::lookup(shown, "memory_type"@) == Some(json::Tree::Text(memory_type))
            &&& json::lookup(shown, "judgment"@) == Some(json::Tree::Text(judgment))
            &&& json::lookup(shown, "reasoning"@) == Some(json::Tree::Text(reasoning))
            &&& json::lookup(shown, "state"@) == Some(json::Tree::Object(json::with_fields(Seq::empty(), state_pairs(state))))
        }),
{
    let pairs = memory_pairs(type_id, judgment, reasoning, state);
    let none = Seq::<(Seq<char>, json::Tree)>::empty();
    let payload = json::with_fields(none, pairs);
    reveal_strlit("memory_type_id");
    reveal_strlit("memory_type");
    reveal_strlit("judgment");
    reveal_strlit("reasoning");
    reveal_strlit("state");
    reveal_strlit("judgment_key");
    assert("memory_type_id"@.len() == 14 && "memory_type"@.len() == 11 && "judgment"@.len() == 8);
    assert("reasoning"@.len() == 9 && "state"@.len() == 5 && "judgment_key"@.len() == 12);
    json::set_all_then_find(none, pairs, "memory_type_id"@, 1);
    json::set_all_then_find(none, pairs, "judgment"@, 2);
    json::set_all_then_find(none, pairs, "reasoning"@, 3);
    json::set_all_then_find(none, pairs, "state"@, 4);
    let named = json::Tree::Text(memory_type);
    let typed = json::with_field(payload, "memory_type"@, named);
    json::set_then_find(payload, "memory_type"@, named, "judgment"@);
    json::set_then_find(payload, "memory_type"@, named, "reasoning"@);
    json::set_then_find(payload, "memory_type"@, named, "state"@);
    json::remove_then_find(typed, "memory_type_id"@, "memory_type"@);
    json::remove_then_find(typed, "memory_type_id"@, "judgment"@);
    json::remove_then_find(typed, "memory_type_id"@, "reasoning"@);
    json::remove_then_find(typed, "memory_type_id"@, "state"@);
}

/// A memory as the input that writes it again at a time, under its revision.
pub open spec fn rewritten_record(h: types::RecordHeaderView, at: i64) -> types::RecordInputView {
    types::RecordInputView {
        id: Some(h.id),
        namespace: h.namespace,
        scope: h.scope,
        tags: h.tags,
        evidence: h.evidence,
        metadata: h.metadata,
        created_at_us: Some(h.created_at_us),
        updated_at_us: Some(if at > h.updated_at_us {
            at
        } else {
            h.updated_at_us
        }),
        expected_revision: Some(h.revision),
    }
}

/// A memory as the input that writes it again with another state. Its time never goes back.
pub fn as_input(memory: &Memory, state: MemoryState, at: i64) -> (out: MemoryInput)
    ensures
        out.record@ == rewritten_record(memory.header@, at),
        out.record.id == Some(memory.header.id) && out.record.expected_revision == Some(memory.header.revision),
        out.record.namespace@ == memory.header.namespace@ && out.record.scope@ == memory.header.scope@,
        out.record.created_at_us == Some(memory.header.created_at_us),
        out.record.updated_at_us matches Some(t) && t >= at && t >= memory.header.updated_at_us && (t == at || t == memory.header.updated_at_us),
        chars::texts(out.record.tags@) == chars::texts(memory.header.tags@) && out.record.metadata@ == memory.header.metadata@,
        types::evidence_views(out.record.evidence@) == types::evidence_views(memory.header.evidence@),
        out.memory_type@ == memory.memory_type@,
        out.judgment@ == memory.judgment@,
        out.reasoning@ == memory.reasoning@,
        out.state == Some(state),
{
    let mut record = memory.header.as_input();
    let updated: i64 = if at > memory.header.updated_at_us { at } else { memory.header.updated_at_us };
    record.id = Some(memory.header.id);
    record.created_at_us = Some(memory.header.created_at_us);
    record.updated_at_us = Some(updated);
    record.expected_revision = Some(memory.header.revision);
    MemoryInput {
        record,
        memory_type: memory.memory_type.clone(),
        judgment: memory.judgment.clone(),
        reasoning: memory.reasoning.clone(),
        state: Some(state),
    }
}

// ── Writing by judgment ───────────────────────────────────────────────

/// What is wrong with writing by judgment, given the memories that have it.
pub open spec fn judgment_error(found: Seq<i64>, given: Option<i64>) -> Option<ErrorView> {
    if found.len() > 1 {
        Some(ErrorView::Conflict("multiple memories have this judgment; update by ID"@))
    } else if found.len() == 1 && given is Some && given->0 != found[0] {
        Some(ErrorView::Conflict("judgment belongs to a different ID"@))
    } else {
        None
    }
}

/// Finds the memory that a judgment belongs to: none where it is new.
pub fn resolve_judgment(found: &Vec<i64>, given: Option<i64>) -> (out: Result<Option<i64>, Error>)
    ensures
        storage::refused(out, judgment_error(found@, given)),
        out is Ok <==> found@.len() == 0 || found@.len() == 1 && (given is None || given == Some(found@[0])),
        out matches Ok(id) ==> id == (if found@.len() == 0 {
            None
        } else {
            Some(found@[0])
        }),
{
    if found.len() > 1 {
        return Err(Error::Conflict("multiple memories have this judgment; update by ID".to_owned()));
    }
    if found.len() == 0 {
        return Ok(None);
    }
    if let Some(id) = given {
        if id != found[0] {
            return Err(Error::Conflict("judgment belongs to a different ID".to_owned()));
        }
    }
    Ok(Some(found[0]))
}

/// Joins a record that is written by judgment with what is there: new metadata goes over the old,
/// and evidence stays where none is given.
pub fn join_existing(record: RecordInput, id: i64, metadata: Metadata, evidence: Vec<Evidence>) -> (out: RecordInput)
    ensures
        out@.id == Some(id),
        out@.metadata == json::with_fields(metadata@, record@.metadata),
        out@.evidence == (if record@.evidence.len() == 0 { types::evidence_views(evidence@) } else { record@.evidence }),
        out@.namespace == record@.namespace && out@.scope == record@.scope && out@.tags == record@.tags,
        out@.created_at_us == record@.created_at_us && out@.updated_at_us == record@.updated_at_us && out@.expected_revision
            == record@.expected_revision,
{
    let ghost start = record@;
    let mut fields = metadata.entries;
    json::set_fields(&mut fields, record.metadata.entries);
    let kept = if record.evidence.len() == 0 { evidence } else { record.evidence };
    RecordInput {
        id: Some(id),
        namespace: record.namespace,
        scope: record.scope,
        tags: record.tags,
        evidence: kept,
        metadata: Metadata { entries: fields },
        created_at_us: record.created_at_us,
        updated_at_us: record.updated_at_us,
        expected_revision: record.expected_revision,
    }
}

// ── Tiers ─────────────────────────────────────────────────────────────

/// How memories grow stronger and fade.
#[derive(Debug)]
pub struct DecayPolicy {
    /// From this score on a memory no longer fades with time.
    pub tier0_threshold: u64,
    /// From this score on a memory no longer weakens at all.
    pub tier1_threshold: u64,
    /// What a useful recall adds to the score.
    pub useful_score_boost: u64,
    /// What a useful recall adds to the strength.
    pub strength_boost: i64,
    /// The days after which an unused memory of the lowest tier weakens by one.
    pub tier0_cycle_days: u32,
}

impl Default for DecayPolicy {
    fn default() -> (out: Self)
        ensures
            out.tier0_threshold == 0x4008_0000_0000_0000,
            out.tier1_threshold == 0x4024_0000_0000_0000,
            out.useful_score_boost == 0x4004_0000_0000_0000,
            out.strength_boost == 1,
            out.tier0_cycle_days == 3,
    {
        DecayPolicy {
            tier0_threshold: 0x4008_0000_0000_0000,
            tier1_threshold: 0x4024_0000_0000_0000,
            useful_score_boost: 0x4004_0000_0000_0000,
            strength_boost: 1,
            tier0_cycle_days: 3,
        }
    }
}

/// A policy that makes sense: positive finite numbers, the second threshold above the first.
pub open spec fn valid_policy(p: DecayPolicy) -> bool {
    bits::positive(p.tier0_threshold) && bits::positive(p.tier1_threshold) && p.tier1_threshold > p.tier0_threshold && bits::positive(
        p.useful_score_boost,
    ) && p.strength_boost >= 1 && p.tier0_cycle_days > 0
}

/// The error for a policy that makes no sense.
pub open spec fn policy_error(p: DecayPolicy) -> Option<ErrorView> {
    if valid_policy(p) {
        None
    } else {
        Some(ErrorView::Validation("invalid decay policy"@))
    }
}

/// The tier of a score.
pub open spec fn tier_of(p: DecayPolicy, score: u64) -> u8 {
    if bits::at_least(score, p.tier1_threshold) {
        2
    } else if bits::at_least(score, p.tier0_threshold) {
        1
    } else {
        0
    }
}

impl DecayPolicy {
    /// Checks a policy.
    pub fn validate(&self) -> (out: Result<(), Error>)
        ensures
            storage::refused(out, policy_error(*self)),
            out is Ok <==> 0 < self.tier0_threshold < self.tier1_threshold < bits::INFINITY_BITS && 0 < self.useful_score_boost
                < bits::INFINITY_BITS && self.strength_boost >= 1 && self.tier0_cycle_days > 0,
    {
        if bits::is_positive(self.tier0_threshold) && bits::is_positive(self.tier1_threshold) && self.tier1_threshold > self.tier0_threshold
            && bits::is_positive(self.useful_score_boost) && self.strength_boost >= 1 && self.tier0_cycle_days > 0 {
            Ok(())
        } else {
            Err(Error::Validation("invalid decay policy".to_owned()))
        }
    }

    /// The tier of a score, a double by its bits.
    pub fn tier(&self, score: u64) -> (out: u8)
        ensures
            out == tier_of(*self, score),
            out <= 2,
            out == 2 <==> bits::at_least(score, self.tier1_threshold),
            out == 0 <==> !bits::at_least(score, self.tier0_threshold) && !bits::at_least(score, self.tier1_threshold),
    {
        if bits::is_at_least(score, self.tier1_threshold) {
            2
        } else if bits::is_at_least(score, self.tier0_threshold) {
            1
        } else {
            0
        }
    }
}

// ── Feedback ──────────────────────────────────────────────────────────

/// What was recalled, and what of it was useful.
#[derive(Debug)]
pub struct FeedbackRequest {
    pub filter: ReadFilter,
    pub recalled_ids: Vec<i64>,
    pub useful_ids: Vec<i64>,
    pub now_us: Option<i64>,
    pub policy: DecayPolicy,
}

impl Default for FeedbackRequest {
    fn default() -> (out: Self)
        ensures
            out.filter@ == types::default_filter(),
            out.recalled_ids@.len() == 0 && out.useful_ids@.len() == 0,
            out.now_us is None,
            out.policy.tier0_threshold == 0x4008_0000_0000_0000,
            out.policy.tier1_threshold == 0x4024_0000_0000_0000,
            out.policy.useful_score_boost == 0x4004_0000_0000_0000,
            out.policy.strength_boost == 1 && out.policy.tier0_cycle_days == 3,
    {
        FeedbackRequest {
            filter: ReadFilter::default(),
            recalled_ids: Vec::new(),
            useful_ids: Vec::new(),
            now_us: None,
            policy: DecayPolicy::default(),
        }
    }
}

/// What came of a feedback.
#[derive(Debug)]
pub struct FeedbackReport {
    pub recalled: usize,
    pub boosted: usize,
    pub penalized: usize,
}

/// What is wrong with a feedback.
pub open spec fn feedback_error(r: FeedbackRequest) -> Option<ErrorView> {
    if !valid_policy(r.policy) {
        policy_error(r.policy)
    } else if exists|i: int| 0 <= i < r.useful_ids@.len() && !r.recalled_ids@.contains(#[trigger] r.useful_ids@[i]) {
        Some(ErrorView::Validation("useful_ids must be a subset of recalled_ids"@))
    } else {
        None
    }
}

/// Checks a feedback, and gives the recalled memories in ascending order, each once.
pub fn check_feedback(r: &FeedbackRequest) -> (out: Result<Vec<i64>, Error>)
    ensures
        storage::refused(out, feedback_error(*r)),
        out is Ok ==> valid_policy(r.policy) && forall|id: i64| #[trigger] r.useful_ids@.contains(id) ==> r.recalled_ids@.contains(id),
        out is Err && valid_policy(r.policy) ==> exists|id: i64| #[trigger] r.useful_ids@.contains(id) && !r.recalled_ids@.contains(id),
        out matches Ok(list) ==> query::increasing(list@) && forall|id: i64| #[trigger]
            list@.contains(id) <==> r.recalled_ids@.contains(id),
{
    r.policy.validate()?;
    let recalled = ids::sorted_ids(&r.recalled_ids);
    let mut i: usize = 0;
    while i < r.useful_ids.len()
        invariant
            i <= r.useful_ids.len(),
            valid_policy(r.policy),
            forall|id: i64| #[trigger] recalled@.contains(id) <==> r.recalled_ids@.contains(id),
            forall|k: int| 0 <= k < i ==> r.recalled_ids@.contains(#[trigger] r.useful_ids@[k]),
        decreases r.useful_ids.len() - i,
    {
        if !types::has_id(&recalled, r.useful_ids[i]) {
            assert(!r.recalled_ids@.contains(r.useful_ids@[i as int]));
            assert(r.useful_ids@.contains(r.useful_ids@[i as int]));
            return Err(Error::Validation("useful_ids must be a subset of recalled_ids".to_owned()));
        }
        i = i + 1;
    }
    Ok(recalled)
}

/// What a feedback does to one memory.
#[derive(Debug)]
pub enum FeedbackStep {
    /// It was useful: stronger and with a higher score.
    Boosted(MemoryState),
    /// It was recalled in vain: weaker.
    Penalized(MemoryState),
    Unchanged,
}

/// The error of a state that cannot grow further.
pub open spec fn boost_error(s: MemoryState, p: DecayPolicy) -> Option<ErrorView> {
    if s.strength + p.strength_boost > i64::MAX {
        Some(ErrorView::Validation("strength overflow"@))
    } else if s.useful_count == i64::MAX {
        Some(ErrorView::Validation("useful_count overflow"@))
    } else {
        None
    }
}

/// Strength less one, but not below zero.
pub open spec fn weakened(strength: int) -> int {
    if strength <= 1 {
        0
    } else {
        strength - 1
    }
}

/// Applies a feedback to one memory. `raised` is the memory's score with the boost of the policy
/// added. A memory that was recalled in vain weakens only in the middle tier: below, time weakens
/// it, and above nothing does.
pub fn feedback_step(s: &MemoryState, useful: bool, policy: &DecayPolicy, raised: Real, at: i64) -> (out: Result<FeedbackStep, Error>)
    requires
        valid_state(*s),
        valid_policy(*policy),
    ensures
        storage::refused(out, if useful { boost_error(*s, *policy) } else { None }),
        out is Err <==> useful && (s.strength + policy.strength_boost > i64::MAX || s.useful_count == i64::MAX),
        out matches Ok(FeedbackStep::Boosted(n)) ==> n.strength > s.strength && n.strength - s.strength == policy.strength_boost,
        out matches Ok(FeedbackStep::Penalized(n)) ==> n.strength >= 0 && (s.strength > 0 ==> n.strength == s.strength - 1) && (s.strength == 0
            ==> n.strength == 0),
        out matches Ok(FeedbackStep::Penalized(_)) <==> !useful && !s.pinned && bits::at_least(s.useful_score.bits, policy.tier0_threshold)
            && !bits::at_least(s.useful_score.bits, policy.tier1_threshold),
        out matches Ok(FeedbackStep::Boosted(_)) ==> useful,
        out matches Ok(step) ==> match step {
            FeedbackStep::Boosted(n) => {
                &&& useful
                &&& n.strength == s.strength + policy.strength_boost
                &&& n.useful_count == s.useful_count + 1
                &&& n.useful_score == raised
                &&& n.last_recalled_at_us == Some(at)
                &&& n.pinned == s.pinned && n.last_decay_at_us == s.last_decay_at_us
            },
            FeedbackStep::Penalized(n) => {
                &&& !useful && !s.pinned && tier_of(*policy, s.useful_score.bits) == 1
                &&& n.strength == weakened(s.strength as int)
                &&& n.pinned == s.pinned && n.useful_count == s.useful_count && n.useful_score == s.useful_score
                &&& n.last_recalled_at_us == s.last_recalled_at_us && n.last_decay_at_us == s.last_decay_at_us
            },
            FeedbackStep::Unchanged => !useful && (s.pinned || tier_of(*policy, s.useful_score.bits) != 1),
        },
{
    if useful {
        if s.strength > i64::MAX - policy.strength_boost {
            return Err(Error::Validation("strength overflow".to_owned()));
        }
        if s.useful_count == i64::MAX {
            return Err(Error::Validation("useful_count overflow".to_owned()));
        }
        let mut n = s.copy();
        n.strength = s.strength + policy.strength_boost;
        n.useful_count = s.useful_count + 1;
        n.useful_score = raised;
        n.last_recalled_at_us = Some(at);
        return Ok(FeedbackStep::Boosted(n));
    }
    if !s.pinned && policy.tier(s.useful_score.bits) == 1 {
        let mut n = s.copy();
        n.strength = if s.strength <= 1 { 0 } else { s.strength - 1 };
        return Ok(FeedbackStep::Penalized(n));
    }
    Ok(FeedbackStep::Unchanged)
}

impl FeedbackReport {
    /// The report on a number of recalled memories, before any of them was looked at.
    pub fn new(recalled: usize) -> (out: Self)
        ensures
            out.recalled == recalled,
            out.boosted == 0,
            out.penalized == 0,
    {
        FeedbackReport { recalled, boosted: 0, penalized: 0 }
    }

    /// Counts what a feedback did to one memory and gives the state to write, where there is one.
    pub fn take_in(&mut self, step: FeedbackStep) -> (out: Option<MemoryState>)
        requires
            old(self).boosted + old(self).penalized < old(self).recalled,
        ensures
            final(self).recalled == old(self).recalled,
            final(self).boosted == old(self).boosted + (if step is Boosted { 1int } else { 0 }),
            final(self).penalized == old(self).penalized + (if step is Penalized { 1int } else { 0 }),
            out == (match step {
                FeedbackStep::Boosted(next) => Some(next),
                FeedbackStep::Penalized(next) => Some(next),
                FeedbackStep::Unchanged => None,
            }),
    {
        match step {
            FeedbackStep::Boosted(next) => {
                self.boosted = self.boosted + 1;
                Some(next)
            },
            FeedbackStep::Penalized(next) => {
                self.penalized = self.penalized + 1;
                Some(next)
            },
            FeedbackStep::Unchanged => None,
        }
    }
}

// ── Decay ─────────────────────────────────────────────────────────────

/// What came of letting memories fade.
#[derive(Debug)]
pub struct DecayReport {
    pub decayed: usize,
    /// Memories without strength, to be retired where the host wants it.
    pub retirement_candidates: Vec<RecordKey>,
}

/// The microseconds of a day.
pub const DAY_US: i128 = 86_400_000_000;

/// The time that a memory fades from: its creation, its last recall or its last decay, whichever is
/// latest.
pub open spec fn reference_of(created_at_us: int, s: MemoryState) -> int {
    let a = match s.last_recalled_at_us {
        Some(t) => if t > created_at_us {
            t as int
        } else {
            created_at_us
        },
        None => created_at_us,
    };
    match s.last_decay_at_us {
        Some(t) => if t > a {
            t as int
        } else {
            a
        },
        None => a,
    }
}

/// How many whole cycles lie between two times; none backwards.
pub open spec fn cycles_between(from: int, to: int, cycle: int) -> int {
    if to <= from {
        0
    } else {
        (to - from) / cycle
    }
}

/// A memory fades with time: it is not pinned, in the lowest tier, and has strength left.
pub open spec fn fades(s: MemoryState, p: DecayPolicy) -> bool {
    !s.pinned && tier_of(p, s.useful_score.bits) == 0 && s.strength > 0
}

/// The length of a cycle.
pub open spec fn cycle_of(p: DecayPolicy) -> int {
    p.tier0_cycle_days * DAY_US
}

/// Strength after a number of cycles.
pub open spec fn faded(strength: int, cycles: int) -> int {
    if strength - cycles < 0 {
        0
    } else {
        strength - cycles
    }
}

/// What time does to a memory: one less strength for each whole cycle that went by, counted on from
/// the end of the last whole cycle. None where nothing changes.
pub open spec fn decays_to(s: MemoryState, created_at_us: i64, p: DecayPolicy, at: i64, out: Option<MemoryState>) -> bool {
    let reference = reference_of(created_at_us as int, s);
    let cycles = cycles_between(reference, at as int, cycle_of(p));
    match out {
        None => !fades(s, p) || cycles == 0,
        Some(n) => {
            &&& fades(s, p) && cycles > 0
            &&& n.strength == faded(s.strength as int, cycles)
            &&& n.last_decay_at_us is Some && n.last_decay_at_us->0 == reference + cycles * cycle_of(p)
            &&& n.pinned == s.pinned && n.useful_count == s.useful_count && n.useful_score == s.useful_score
                && n.last_recalled_at_us == s.last_recalled_at_us
        },
    }
}

/// The state of a memory at a time; none where it is the one that it has.
pub fn decay_state(s: &MemoryState, created_at_us: i64, policy: &DecayPolicy, at: i64) -> (out: Option<MemoryState>)
    requires
        valid_policy(*policy),
    ensures
        decays_to(*s, created_at_us, *policy, at, out),
        faded_rightly(*s, created_at_us as int, *policy, at as int, out),
{
    proof {
        fading_is_right(*s, created_at_us, *policy, at);
    }
    if s.pinned || policy.tier(s.useful_score.bits) != 0 || s.strength <= 0 {
        return None;
    }
    let mut reference: i64 = created_at_us;
    if let Some(t) = s.last_recalled_at_us {
        if t > reference {
            reference = t;
        }
    }
    if let Some(t) = s.last_decay_at_us {
        if t > reference {
            reference = t;
        }
    }
    if at <= reference {
        return None;
    }
    assert(policy.tier0_cycle_days * DAY_US <= 4_294_967_295 * DAY_US) by (nonlinear_arith)
        requires
            policy.tier0_cycle_days <= 4_294_967_295u32,
            DAY_US == 86_400_000_000i128,
    ;
    assert(policy.tier0_cycle_days * DAY_US >= DAY_US) by (nonlinear_arith)
        requires
            policy.tier0_cycle_days >= 1,
            DAY_US == 86_400_000_000i128,
    ;
    let cycle: i128 = policy.tier0_cycle_days as i128 * DAY_US;
    let span: i128 = at as i128 - reference as i128;
    let cycles: i128 = span / cycle;
    proof {
        vstd::arithmetic::div_mod::lemma_fundamental_div_mod(span as int, cycle as int);
        vstd::arithmetic::div_mod::lemma_mod_bound(span as int, cycle as int);
        vstd::arithmetic::mul::lemma_mul_is_commutative(cycle as int, cycles as int);
        vstd::arithmetic::div_mod::lemma_div_is_ordered_by_denominator(span as int, 1, cycle as int);
    }
    if cycles == 0 {
        return None;
    }
    let passed: i128 = cycles * cycle;
    let mut n = s.copy();
    n.strength = if s.strength as i128 - cycles < 0 { 0 } else { (s.strength as i128 - cycles) as i64 };
    n.last_decay_at_us = Some((reference as i128 + passed) as i64);
    Some(n)
}

/// A memory to be retired: not pinned, without strength, and not in the highest tier.
pub open spec fn retires(s: MemoryState, p: DecayPolicy) -> bool {
    !s.pinned && s.strength == 0 && tier_of(p, s.useful_score.bits) < 2
}

/// Whether a memory is to be retired.
pub fn is_retirement_candidate(s: &MemoryState, policy: &DecayPolicy) -> (out: bool)
    ensures
        out == retires(*s, *policy),
        out <==> !s.pinned && s.strength == 0 && !bits::at_least(s.useful_score.bits, policy.tier1_threshold),
{
    !s.pinned && s.strength == 0 && policy.tier(s.useful_score.bits) < 2
}

impl Default for DecayReport {
    fn default() -> (out: Self)
        ensures
            out.decayed == 0,
            out.retirement_candidates@.len() == 0,
    {
        DecayReport { decayed: 0, retirement_candidates: Vec::new() }
    }
}

impl DecayReport {
    /// Lets time pass over one memory: gives the state to write, where it changes, and names the
    /// memory where it may be retired with what it has then.
    pub fn take_in(&mut self, id: i64, s: &MemoryState, created_at_us: i64, policy: &DecayPolicy, at: i64) -> (out: Option<MemoryState>)
        requires
            valid_policy(*policy),
            old(self).decayed < usize::MAX,
        ensures
            decays_to(*s, created_at_us, *policy, at, out),
            faded_rightly(*s, created_at_us as int, *policy, at as int, out),
            final(self).decayed == old(self).decayed + (if out is Some { 1int } else { 0 }),
            final(self).retirement_candidates@ == (if retires(match out {
                Some(next) => next,
                None => *s,
            }, *policy) {
                old(self).retirement_candidates@.push(RecordKey { id })
            } else {
                old(self).retirement_candidates@
            }),
    {
        let out = decay_state(s, created_at_us, policy, at);
        let retired = match &out {
            Some(next) => {
                self.decayed = self.decayed + 1;
                is_retirement_candidate(next, policy)
            },
            None => is_retirement_candidate(s, policy),
        };
        if retired {
            self.retirement_candidates.push(RecordKey { id });
        }
        out
    }
}

/// A time that a memory was made, recalled or faded at.
pub open spec fn marks(s: MemoryState, created_at_us: int, t: int) -> bool {
    t == created_at_us || s.last_recalled_at_us == Some(t as i64) && i64::MIN <= t <= i64::MAX || s.last_decay_at_us == Some(t as i64)
        && i64::MIN <= t <= i64::MAX
}

/// What becomes of a memory with time, told by its times alone. A memory that was made, recalled or
/// faded less than one cycle ago does not fade, nor does one that is pinned, has no strength left or
/// has left the lowest tier; every other does. It loses no more than it has. It has faded up to a time
/// less than one cycle ago, and what it lost is one for each cycle between that time and the latest of
/// its times.
pub open spec fn faded_rightly(s: MemoryState, created_at_us: int, p: DecayPolicy, at: int, out: Option<MemoryState>) -> bool {
    let cycle = p.tier0_cycle_days * 86_400_000_000;
    &&& forall|t: int| #[trigger] marks(s, created_at_us, t) && at - t < cycle ==> out is None
    &&& s.pinned || s.strength <= 0 || bits::at_least(s.useful_score.bits, p.tier0_threshold) ==> out is None
    &&& out is None ==> {
        ||| s.pinned
        ||| s.strength <= 0
        ||| bits::at_least(s.useful_score.bits, p.tier0_threshold)
        ||| bits::at_least(s.useful_score.bits, p.tier1_threshold)
        ||| exists|t: int| #[trigger] marks(s, created_at_us, t) && at - t < cycle
    }
    &&& out matches Some(n) ==> {
        &&& n.last_decay_at_us matches Some(end) && end <= at && at - end < cycle
            && (forall|t: int| #[trigger] marks(s, created_at_us, t) ==> t <= end)
            && exists|t: int, c: int| #[trigger] marks(s, created_at_us, t) && c >= 1 && end == t + #[trigger] (c * cycle)
                && (forall|u: int| #[trigger] marks(s, created_at_us, u) ==> u <= t)
                && n.strength == (if c >= s.strength { 0 } else { s.strength - c })
        &&& 0 <= n.strength < s.strength
        &&& n.pinned == s.pinned && n.useful_count == s.useful_count && n.useful_score == s.useful_score && n.last_recalled_at_us == s.last_recalled_at_us
    }
}

proof fn reference_is_latest(s: MemoryState, created_at_us: i64)
    ensures
        marks(s, created_at_us as int, reference_of(created_at_us as int, s)),
        forall|t: int| #[trigger] marks(s, created_at_us as int, t) ==> t <= reference_of(created_at_us as int, s),
{
}

/// Fading is told by the times of a memory alone.
pub proof fn fading_is_right(s: MemoryState, created_at_us: i64, p: DecayPolicy, at: i64)
    requires
        valid_policy(p),
    ensures
        forall|out: Option<MemoryState>|
            decays_to(s, created_at_us, p, at, out) ==> #[trigger] faded_rightly(s, created_at_us as int, p, at as int, out),
{
    let cycle = p.tier0_cycle_days * 86_400_000_000;
    let reference = reference_of(created_at_us as int, s);
    let cycles = cycles_between(reference, at as int, cycle_of(p));
    reference_is_latest(s, created_at_us);
    assert(cycle > 0) by (nonlinear_arith)
        requires
            cycle == p.tier0_cycle_days * 86_400_000_000,
            p.tier0_cycle_days > 0,
    ;
    assert(cycle_of(p) == cycle);
    bits::at_least_follows_the_numbers(s.useful_score.bits, p.tier0_threshold);
    bits::at_least_follows_the_numbers(s.useful_score.bits, p.tier1_threshold);
    let span = at - reference;
    if at > reference {
        vstd::arithmetic::div_mod::lemma_fundamental_div_mod(span, cycle);
        vstd::arithmetic::div_mod::lemma_mod_bound(span, cycle);
        vstd::arithmetic::mul::lemma_mul_is_commutative(cycle, span / cycle);
        vstd::arithmetic::div_mod::lemma_div_pos_is_pos(span, cycle);
        if span < cycle {
            vstd::arithmetic::div_mod::lemma_small_mod(span as nat, cycle as nat);
            vstd::arithmetic::div_mod::lemma_basic_div(span, cycle);
        }
        if cycles == 0 {
            assert(cycle * (span / cycle) == 0) by (nonlinear_arith)
                requires
                    span / cycle == 0,
            ;
            assert(span < cycle);
        }
    }
    assert forall|out: Option<MemoryState>| decays_to(s, created_at_us, p, at, out) implies #[trigger] faded_rightly(
        s,
        created_at_us as int,
        p,
        at as int,
        out,
    ) by {
        if let Some(n) = out {
            let end = n.last_decay_at_us->0;
            assert(end == reference + cycles * cycle);
            assert(marks(s, created_at_us as int, reference));
            assert(span >= cycle);
        } else if fades(s, p) {
            assert(marks(s, created_at_us as int, reference));
        }
    }
}

proof fn cycles_add_up(from: int, middle: int, to: int, cycle: int)
    requires
        cycle > 0,
        from <= middle <= to,
    ensures
        ({
            let first = cycles_between(from, middle, cycle);
            cycles_between(from, to, cycle) == first + cycles_between(from + first * cycle, to, cycle)
        }),
{
    let first = cycles_between(from, middle, cycle);
    let span = middle - from;
    vstd::arithmetic::div_mod::lemma_fundamental_div_mod(span, cycle);
    vstd::arithmetic::div_mod::lemma_mod_bound(span, cycle);
    vstd::arithmetic::mul::lemma_mul_is_commutative(cycle, span / cycle);
    if middle <= from {
        assert(first * cycle == 0) by (nonlinear_arith)
            requires
                first == 0,
        ;
    } else {
        vstd::arithmetic::div_mod::lemma_div_pos_is_pos(span, cycle);
        let rest = to - (from + first * cycle);
        assert(first * cycle <= span);
        vstd::arithmetic::div_mod::lemma_hoist_over_denominator(rest, first, cycle as nat);
        assert(rest + first * cycle == to - from);
        if rest == 0 {
            vstd::arithmetic::div_mod::lemma_div_basics_1(cycle);
        }
    }
}

/// Letting a memory fade in two steps leaves it as strong as fading in one: nothing is counted twice
/// and nothing is lost in between. `end` is where the first step stopped counting.
pub proof fn fading_adds_up(strength: int, from: int, middle: int, to: int, cycle: int)
    requires
        cycle > 0,
        strength >= 0,
        from <= middle <= to,
    ensures
        ({
            let first = cycles_between(from, middle, cycle);
            let end = from + first * cycle;
            faded(faded(strength, first), cycles_between(end, to, cycle)) == faded(strength, cycles_between(from, to, cycle))
        }),
{
    cycles_add_up(from, middle, to, cycle);
    let first = cycles_between(from, middle, cycle);
    let end = from + first * cycle;
    assert(cycles_between(end, to, cycle) >= 0) by {
        if to > end {
            vstd::arithmetic::div_mod::lemma_div_pos_is_pos(to - end, cycle);
        }
    }
    assert(first >= 0) by {
        if middle > from {
            vstd::arithmetic::div_mod::lemma_div_pos_is_pos(middle - from, cycle);
        }
    }
}

/// Fading a second time at the same time changes nothing.
pub proof fn fading_settles(from: int, at: int, cycle: int)
    requires
        cycle > 0,
        from <= at,
    ensures
        cycles_between(from + cycles_between(from, at, cycle) * cycle, at, cycle) == 0,
{
    cycles_add_up(from, at, at, cycle);
}

/// A pinned memory stays as it is, whatever is not useful of it and however much time goes by.
pub proof fn pinned_memory_stays(s: MemoryState, p: DecayPolicy)
    requires
        s.pinned,
    ensures
        !fades(s, p),
{
}

} // verus!
