//! Writing a record: what is checked, which times and tags it gets, and what the index receives.

use crate::chars;
use crate::decimal;
use crate::error::{Error, ErrorView};
use crate::json;
use crate::json::Json;
use crate::ordering;
use crate::storage;
use crate::text;
use crate::types;
use crate::types::{Evidence, EvidenceView, Metadata, RecordHeader, RecordInput, RecordInputView, RecordKind};
use vstd::prelude::*;

verus! {

// ── Checking the input ────────────────────────────────────────────────

/// Why a piece of evidence is refused, if it is.
pub open spec fn evidence_error(e: EvidenceView) -> Option<ErrorView> {
    if chars::trim(e.source).len() == 0 {
        Some(ErrorView::Validation("evidence source is required"@))
    } else if e.offset is None && e.limit is None {
        None
    } else if e.offset is Some && e.limit is Some && e.offset->0 >= 1 && e.limit->0 >= 1 {
        None
    } else {
        Some(ErrorView::Validation("evidence offset/limit must be a 1-based start and a positive line count"@))
    }
}

/// The error of the first piece of evidence that is refused.
pub open spec fn first_evidence_error(list: Seq<EvidenceView>) -> Option<ErrorView>
    decreases list.len(),
{
    if list.len() == 0 {
        None
    } else {
        match evidence_error(list[0]) {
            Some(e) => Some(e),
            None => first_evidence_error(list.drop_first()),
        }
    }
}

/// Why a record input is refused, whatever the store holds.
pub open spec fn record_error(input: RecordInputView) -> Option<ErrorView> {
    if !storage::identity(input.namespace) {
        Some(storage::identity_error("namespace"@))
    } else if !storage::identity(input.scope) {
        Some(storage::identity_error("scope"@))
    } else {
        first_evidence_error(input.evidence)
    }
}

/// The error of a list of evidence is that of the first item that has one.
pub proof fn first_fault_counts(list: Seq<EvidenceView>)
    ensures
        match first_evidence_error(list) {
            None => forall|i: int| 0 <= i < list.len() ==> evidence_error(#[trigger] list[i]) is None,
            Some(error) => exists|i: int|
                0 <= i < list.len() && evidence_error(#[trigger] list[i]) == Some(error) && forall|j: int|
                    0 <= j < i ==> evidence_error(#[trigger] list[j]) is None,
        },
    decreases list.len(),
{
    if list.len() > 0 {
        let rest = list.drop_first();
        first_fault_counts(rest);
        if evidence_error(list[0]) is None {
            match first_evidence_error(rest) {
                None => {
                    assert forall|i: int| 0 <= i < list.len() implies evidence_error(#[trigger] list[i]) is None by {
                        if i > 0 {
                            assert(list[i] == rest[i - 1]);
                        }
                    }
                },
                Some(error) => {
                    let i = choose|i: int|
                        0 <= i < rest.len() && evidence_error(#[trigger] rest[i]) == Some(error) && forall|j: int|
                            0 <= j < i ==> evidence_error(#[trigger] rest[j]) is None;
                    assert(list[i + 1] == rest[i]);
                    assert forall|j: int| 0 <= j < i + 1 implies evidence_error(#[trigger] list[j]) is None by {
                        if j > 0 {
                            assert(list[j] == rest[j - 1]);
                        }
                    }
                },
            }
        } else {
            assert(evidence_error(list[0]) == first_evidence_error(list));
        }
    }
}

fn check_evidence(evidence: &Evidence) -> (out: Result<(), Error>)
    ensures
        storage::refused(out, evidence_error(evidence@)),
        out is Ok <==> !chars::blank(evidence.source@) && (evidence.offset is None && evidence.limit is None || evidence.offset is Some
            && evidence.limit is Some && evidence.offset->0 >= 1 && evidence.limit->0 >= 1),
{
    if chars::is_blank(evidence.source.as_str()) {
        return Err(Error::Validation("evidence source is required".to_owned()));
    }
    let located = match evidence.offset {
        None => evidence.limit.is_none(),
        Some(offset) => match evidence.limit {
            None => false,
            Some(limit) => offset >= 1 && limit >= 1,
        },
    };
    if located {
        Ok(())
    } else {
        Err(Error::Validation("evidence offset/limit must be a 1-based start and a positive line count".to_owned()))
    }
}

/// Checks a record input by itself.
pub fn check_record(input: &RecordInput) -> (out: Result<(), Error>)
    ensures
        storage::refused(out, record_error(input@)),
        out is Ok <==> storage::identity(input.namespace@) && storage::identity(input.scope@) && forall|i: int|
            0 <= i < input@.evidence.len() ==> evidence_error(#[trigger] input@.evidence[i]) is None,
{
    proof {
        first_fault_counts(input@.evidence);
    }
    storage::validate_identity("namespace", input.namespace.as_str())?;
    storage::validate_identity("scope", input.scope.as_str())?;
    let ghost all = types::evidence_views(input.evidence@);
    let mut i: usize = 0;
    assert(all.skip(0) == all);
    while i < input.evidence.len()
        invariant
            i <= input.evidence.len(),
            all == types::evidence_views(input.evidence@),
            storage::identity(input@.namespace),
            storage::identity(input@.scope),
            first_evidence_error(all.skip(i as int)) == first_evidence_error(all),
        decreases input.evidence.len() - i,
    {
        assert(all.skip(i as int)[0] == input.evidence@[i as int]@);
        assert(all.skip(i as int).drop_first() == all.skip(i + 1));
        check_evidence(&input.evidence[i])?;
        i = i + 1;
    }
    assert(all.skip(i as int).len() == 0);
    Ok(())
}

// ── Planning the write ────────────────────────────────────────────────

/// What the store holds under the id that an input names.
#[derive(Debug, Clone, Copy)]
pub struct StoredRecord {
    pub created_at_us: i64,
    pub updated_at_us: i64,
    pub revision: i64,
    pub scope_id: i64,
}

/// The store as a write finds it: the record under the input's id, the id of the input's scope,
/// how many relations and event participants point at the record, and the time.
#[derive(Debug, Clone, Copy)]
pub struct StoreState {
    pub found: Option<StoredRecord>,
    pub scope_id: i64,
    pub references: i64,
    pub now_us: i64,
}

/// What a write will store.
#[derive(Debug)]
pub struct RecordPlan {
    pub created_at_us: i64,
    pub updated_at_us: i64,
    pub tags: Vec<String>,
    pub fingerprint: String,
}

/// The record that the input rewrites: none where it names no id.
pub open spec fn existing(input: RecordInputView, state: StoreState) -> Option<StoredRecord> {
    if input.id is Some {
        state.found
    } else {
        None
    }
}

/// When the record was created: as stored, else as given, else now.
pub open spec fn created_at(input: RecordInputView, state: StoreState) -> i64 {
    match existing(input, state) {
        Some(old) => old.created_at_us,
        None => match input.created_at_us {
            Some(at) => at,
            None => state.now_us,
        },
    }
}

/// When the record was updated: as given, else now, but never before its last update or creation.
pub open spec fn updated_at(input: RecordInputView, state: StoreState) -> i64 {
    let floor = match existing(input, state) {
        Some(old) => old.updated_at_us,
        None => created_at(input, state),
    };
    match input.updated_at_us {
        Some(at) => at,
        None => if state.now_us >= floor {
            state.now_us
        } else {
            floor
        },
    }
}

/// The text of an id that may be absent.
pub open spec fn id_text(id: Option<i64>) -> Seq<char> {
    match id {
        Some(i) => decimal::integer_text(i as int),
        None => Seq::empty(),
    }
}

/// Why the store refuses a write, if it does: nothing under the id, a change of scope while
/// others point at the record, a revision that is not the expected one, or times out of order.
pub open spec fn store_error(input: RecordInputView, state: StoreState) -> Option<ErrorView> {
    let old = existing(input, state);
    if input.id is Some && old is None {
        Some(ErrorView::NotFound(id_text(input.id)))
    } else if old is Some && old->0.scope_id != state.scope_id && state.references > 0 {
        Some(
            ErrorView::Conflict(
                "record "@ + id_text(input.id) + " is referenced by "@ + decimal::integer_text(state.references as int)
                    + " relation(s) or event participant row(s); remove those references before changing its scope"@,
            ),
        )
    } else if input.expected_revision is Some && (old is None || old->0.revision != input.expected_revision->0) {
        Some(ErrorView::StaleRevision(id_text(input.id)))
    } else if updated_at(input, state) < created_at(input, state) {
        Some(ErrorView::Validation("updated_at_us precedes created_at_us"@))
    } else {
        None
    }
}

/// Why a write is refused, if it is.
pub open spec fn write_error(input: RecordInputView, state: StoreState) -> Option<ErrorView> {
    match record_error(input) {
        Some(e) => Some(e),
        None => store_error(input, state),
    }
}

/// A plan stores what the input and the store give: times, tags and the fingerprint of `body`.
pub open spec fn plan_is(input: RecordInputView, body: Seq<char>, state: StoreState, plan: RecordPlan) -> bool {
    &&& plan.created_at_us == created_at(input, state)
    &&& plan.updated_at_us == updated_at(input, state)
    &&& storage::stored_tags(input.tags, chars::texts(plan.tags@))
    &&& plan.fingerprint@ == text::sha256_hex(storage::fingerprint_source(body, chars::texts(plan.tags@)))
}

/// The text of an id that may be absent.
fn optional_id_text(id: Option<i64>) -> (out: String)
    ensures
        out@ == id_text(id),
        id is None ==> out@.len() == 0,
        id matches Some(i) ==> out@ == decimal::integer_text(i as int),
{
    match id {
        Some(i) => decimal::decimal_i64(i),
        None => String::new(),
    }
}

/// Decides on a write: refuses it, or says what is stored. `body` is the searched text.
pub fn plan_record(input: &RecordInput, body: &str, state: StoreState) -> (out: Result<RecordPlan, Error>)
    ensures
        storage::refused(out, write_error(input@, state)),
        out matches Ok(plan) ==> plan_is(input@, body@, state, plan),
        out matches Ok(plan) ==> {
            &&& input.id is Some ==> (state.found matches Some(old) && plan.created_at_us == old.created_at_us && (input.expected_revision is None
                || input.expected_revision == Some(old.revision)))
            &&& input.id is None && input.created_at_us is Some ==> plan.created_at_us == input.created_at_us->0
            &&& input.id is None && input.created_at_us is None ==> plan.created_at_us == state.now_us
            &&& input.updated_at_us is Some ==> plan.updated_at_us == input.updated_at_us->0
            &&& input.updated_at_us is None ==> plan.updated_at_us >= state.now_us
            &&& input.updated_at_us is None && input.id is None ==> plan.updated_at_us == if state.now_us >= plan.created_at_us {
                state.now_us
            } else {
                plan.created_at_us
            }
            &&& input.updated_at_us is None && input.id is Some ==> plan.updated_at_us == if state.now_us >= (state.found->0).updated_at_us {
                state.now_us
            } else {
                (state.found->0).updated_at_us
            }
            &&& plan.created_at_us <= plan.updated_at_us
        },
        record_error(input@) is None && input.id is None && input.expected_revision is None && input.updated_at_us is None ==> out is Ok,
        input.id is Some && state.found is None ==> out is Err,
        input.id is None && input.expected_revision is Some ==> out is Err,
        input.id is Some && state.found is Some && (state.found->0).scope_id != state.scope_id && state.references > 0 ==> out is Err,
        input.id is Some && state.found is Some && record_error(input@) is None && ((state.found->0).scope_id == state.scope_id
            || state.references == 0) && (input.expected_revision is None || input.expected_revision == Some((state.found->0).revision))
            && input.updated_at_us is None && (state.found->0).created_at_us <= (state.found->0).updated_at_us ==> out is Ok,
{
    check_record(input)?;
    let old: Option<StoredRecord> = if input.id.is_some() { state.found } else { None };
    assert(old == existing(input@, state));
    if input.id.is_some() && old.is_none() {
        return Err(Error::NotFound(optional_id_text(input.id)));
    }
    if let Some(record) = old {
        if record.scope_id != state.scope_id && state.references > 0 {
            let mut message = chars::concat("record ", optional_id_text(input.id).as_str());
            message.append(" is referenced by ");
            message.append(decimal::decimal_i64(state.references).as_str());
            message.append(" relation(s) or event participant row(s); remove those references before changing its scope");
            return Err(Error::Conflict(message));
        }
    }
    if let Some(expected) = input.expected_revision {
        let current = match old {
            Some(record) => record.revision == expected,
            None => false,
        };
        if !current {
            return Err(Error::StaleRevision(optional_id_text(input.id)));
        }
    }
    let created: i64 = match old {
        Some(record) => record.created_at_us,
        None => match input.created_at_us {
            Some(at) => at,
            None => state.now_us,
        },
    };
    let floor: i64 = match old {
        Some(record) => record.updated_at_us,
        None => created,
    };
    let updated: i64 = match input.updated_at_us {
        Some(at) => at,
        None => if state.now_us >= floor { state.now_us } else { floor },
    };
    if updated < created {
        return Err(Error::Validation("updated_at_us precedes created_at_us".to_owned()));
    }
    let tags = storage::normalize_tags(&input.tags);
    let fingerprint = storage::record_fingerprint(body, &tags);
    Ok(RecordPlan { created_at_us: created, updated_at_us: updated, tags, fingerprint })
}

/// A write that goes through keeps the creation time of a stored record, leaves the update time at
/// or after it, and never moves the update time back unless the caller names one.
pub proof fn accepted_write_times(input: RecordInputView, state: StoreState)
    requires
        write_error(input, state) is None,
    ensures
        created_at(input, state) <= updated_at(input, state),
        existing(input, state) is Some ==> created_at(input, state) == existing(input, state)->0.created_at_us,
        existing(input, state) is Some && input.updated_at_us is None ==> updated_at(input, state) >= existing(
            input,
            state,
        )->0.updated_at_us,
{
}

/// A record that was read can be written back as it is, unless it was written in between: the
/// write is refused as stale exactly when the stored revision is no longer the one that was read.
pub proof fn rewrite_goes_through_unless_stale(h: types::RecordHeaderView, state: StoreState)
    requires
        record_error(types::header_as_input(h)) is None,
        state.found is Some,
        state.found->0.scope_id == state.scope_id,
        state.found->0.created_at_us <= state.found->0.updated_at_us,
    ensures
        write_error(types::header_as_input(h), state) == (if state.found->0.revision == h.revision {
            None
        } else {
            Some(ErrorView::StaleRevision(decimal::integer_text(h.id as int)))
        }),
{
}

/// The header of a record that was just written.
pub open spec fn written_header(input: RecordInputView, kind: RecordKind, id: i64, revision: i64, plan: RecordPlan) -> types::RecordHeaderView {
    types::RecordHeaderView {
        id,
        namespace: input.namespace,
        kind,
        scope: input.scope,
        tags: chars::texts(plan.tags@),
        evidence: input.evidence,
        metadata: input.metadata,
        created_at_us: plan.created_at_us,
        updated_at_us: plan.updated_at_us,
        revision,
    }
}

/// The header of a record that was just written under `id` with `revision`.
pub fn header_after_write(input: &RecordInput, kind: RecordKind, id: i64, revision: i64, plan: RecordPlan) -> (out: RecordHeader)
    ensures
        out@ == written_header(input@, kind, id, revision, plan),
        out.id == id && out.kind == kind && out.revision == revision,
        out.namespace@ == input.namespace@ && out.scope@ == input.scope@,
        chars::texts(out.tags@) == chars::texts(plan.tags@) && out.metadata@ == input.metadata@,
        out.created_at_us == plan.created_at_us && out.updated_at_us == plan.updated_at_us,
{
    RecordHeader {
        id,
        namespace: input.namespace.clone(),
        kind,
        scope: input.scope.clone(),
        tags: plan.tags,
        evidence: types::copy_evidence(&input.evidence),
        metadata: input.metadata.copy(),
        created_at_us: plan.created_at_us,
        updated_at_us: plan.updated_at_us,
        revision,
    }
}

// ── The index document of a record ────────────────────────────────────

/// What the full text index receives for one record. Namespaces, scopes and tags go in as ids.
#[derive(Debug)]
pub struct IndexDocument {
    pub id: i64,
    pub namespace_id: i64,
    pub scope_id: i64,
    pub kind: RecordKind,
    /// The record's own text.
    pub text: String,
    /// The name of an entity, or of the note of a first chunk.
    pub name: String,
    /// The directories of the note of a first chunk.
    pub path: String,
    /// The note of a chunk; zero for other records.
    pub note_id: i64,
    /// The tags that stand before the searched text.
    pub tags_prefix: String,
    pub tag_ids: Vec<i64>,
}

/// Where a record stands, by ids.
#[derive(Debug)]
pub struct RecordPlace {
    pub id: i64,
    pub namespace_id: i64,
    pub scope_id: i64,
    pub kind: RecordKind,
    pub tag_ids: Vec<i64>,
}

/// The note that a record belongs to: given by a chunk's payload, zero for other records.
pub open spec fn note_of(kind: RecordKind, payload: json::Tree) -> i64 {
    if kind == RecordKind::Chunk {
        match json::int_of(json::member(payload, "note_id"@)) {
            Some(id) => id,
            None => 0,
        }
    } else {
        0
    }
}

/// The note that a record belongs to.
pub fn note_id_of(kind: RecordKind, payload: &Json) -> (out: i64)
    ensures
        out == note_of(kind, json::tree(*payload)),
        kind != RecordKind::Chunk ==> out == 0,
        kind == RecordKind::Chunk ==> (json::member(json::tree(*payload), "note_id"@) matches Some(json::Tree::Number(n)) ==> (n.int matches Some(
            id,
        ) ==> out == id)),
{
    if kind != RecordKind::Chunk {
        return 0;
    }
    match json::as_int(json::get(payload, "note_id")) {
        Some(id) => id,
        None => 0,
    }
}

/// The index document of a record whose searched text is `body` and whose stored tags are `tags`.
/// `dirs` and `note_name` are the path parts of a chunk's note.
pub open spec fn document_is(
    place: RecordPlace,
    body: Seq<char>,
    payload: json::Tree,
    tags: Seq<Seq<char>>,
    dirs: Seq<Seq<char>>,
    note_name: Seq<char>,
    out: IndexDocument,
) -> bool {
    &&& out.id == place.id && out.namespace_id == place.namespace_id && out.scope_id == place.scope_id && out.kind == place.kind
    &&& out.tag_ids@ == place.tag_ids@
    &&& out.text@ == body
    &&& out.note_id == note_of(place.kind, payload)
    &&& if place.kind == RecordKind::Chunk {
        if storage::later_chunk(payload) {
            out.name@.len() == 0 && out.path@.len() == 0
        } else {
            out.name@ == note_name && out.path@ == chars::joined(dirs, " "@)
        }
    } else {
        out.name@ == storage::record_name_of(place.kind, payload) && out.path@.len() == 0
    }
    &&& out.tags_prefix@ == (if storage::carries_tags(place.kind, payload) {
        let exclude = if place.kind == RecordKind::Chunk {
            if note_name.len() > 0 { dirs.push(note_name) } else { dirs }
        } else {
            Seq::empty()
        };
        chars::joined(storage::tags_besides(tags, exclude), " "@)
    } else {
        Seq::empty()
    })
}

/// Makes the index document of a record.
pub fn index_document(place: RecordPlace, body: &str, payload: &Json, tags: &Vec<String>, dirs: &Vec<String>, note_name: &str) -> (out: IndexDocument)
    ensures
        document_is(place, body@, json::tree(*payload), chars::texts(tags@), chars::texts(dirs@), note_name@, out),
        out.id == place.id && out.namespace_id == place.namespace_id && out.scope_id == place.scope_id && out.kind == place.kind,
        out.text@ == body@ && out.tag_ids@ == place.tag_ids@,
        place.kind == RecordKind::Chunk && storage::later_chunk(json::tree(*payload)) ==> out.name@.len() == 0 && out.path@.len() == 0,
        place.kind == RecordKind::Chunk && !storage::later_chunk(json::tree(*payload)) ==> out.name@ == note_name@ && out.path@ == chars::joined(
            chars::texts(dirs@),
            " "@,
        ),
        place.kind != RecordKind::Chunk ==> out.path@.len() == 0 && out.name@ == storage::record_name_of(place.kind, json::tree(*payload)),
        place.kind != RecordKind::Chunk ==> out.note_id == 0,
        place.kind == RecordKind::Chunk ==> match json::int_of(json::member(json::tree(*payload), "note_id"@)) {
            Some(id) => out.note_id == id,
            None => out.note_id == 0,
        },
        !storage::carries_tags(place.kind, json::tree(*payload)) ==> out.tags_prefix@.len() == 0,
        place.kind != RecordKind::Chunk && storage::carries_tags(place.kind, json::tree(*payload)) ==> out.tags_prefix@ == chars::joined(
            storage::tags_besides(chars::texts(tags@), Seq::empty()),
            " "@,
        ),
{
    let columns = storage::index_columns(place.kind, payload, dirs, note_name);
    let tags_prefix = storage::tags_prefix(place.kind, tags, &columns.exclude, payload);
    proof {
        if columns.exclude@.len() == 0 {
            assert(chars::texts(columns.exclude@) == Seq::<Seq<char>>::empty());
        }
    }
    IndexDocument {
        id: place.id,
        namespace_id: place.namespace_id,
        scope_id: place.scope_id,
        kind: place.kind,
        text: body.to_owned(),
        name: columns.name,
        path: columns.path,
        note_id: note_id_of(place.kind, payload),
        tags_prefix,
        tag_ids: place.tag_ids,
    }
}

// ── Reading a record back ─────────────────────────────────────────────

/// A stored row of a record, with its namespace and scope as texts.
#[derive(Debug)]
pub struct RecordRow {
    pub id: i64,
    pub namespace: String,
    pub kind_code: i64,
    pub scope: String,
    pub created_at_us: i64,
    pub updated_at_us: i64,
    pub revision: i64,
    pub metadata: Metadata,
    pub evidence: Vec<Evidence>,
}

/// The texts that `pairs` give for `id`, in order.
pub open spec fn texts_for(pairs: Seq<(i64, String)>, id: i64) -> Seq<Seq<char>>
    decreases pairs.len(),
{
    if pairs.len() == 0 {
        Seq::empty()
    } else if pairs.last().0 == id {
        texts_for(pairs.drop_last(), id).push(pairs.last().1@)
    } else {
        texts_for(pairs.drop_last(), id)
    }
}

/// The texts of an id are exactly those that stand beside it.
pub proof fn texts_stand_beside_their_id(pairs: Seq<(i64, String)>, id: i64, t: Seq<char>)
    ensures
        texts_for(pairs, id).contains(t) <==> exists|i: int| 0 <= i < pairs.len() && (#[trigger] pairs[i]).0 == id && pairs[i].1@ == t,
        texts_for(pairs, id).len() <= pairs.len(),
    decreases pairs.len(),
{
    if pairs.len() > 0 {
        let rest = pairs.drop_last();
        let n = pairs.len() - 1;
        let before = texts_for(rest, id);
        let all = texts_for(pairs, id);
        texts_stand_beside_their_id(rest, id, t);
        assert(pairs[n] == pairs.last());
        if before.contains(t) {
            let k = choose|k: int| 0 <= k < before.len() && before[k] == t;
            assert(all[k] == t);
            let i = choose|i: int| 0 <= i < rest.len() && (#[trigger] rest[i]).0 == id && rest[i].1@ == t;
            assert(pairs[i] == rest[i]);
        }
        if all.contains(t) && !before.contains(t) {
            let k = choose|k: int| 0 <= k < all.len() && all[k] == t;
            if k < before.len() {
                assert(before[k] == t);
            }
            assert(pairs[n].0 == id && pairs[n].1@ == t);
        }
        if exists|i: int| 0 <= i < pairs.len() && (#[trigger] pairs[i]).0 == id && pairs[i].1@ == t {
            let i = choose|i: int| 0 <= i < pairs.len() && (#[trigger] pairs[i]).0 == id && pairs[i].1@ == t;
            if i < n {
                assert(rest[i] == pairs[i]);
                assert(before.contains(t));
            } else {
                assert(all[before.len() as int] == t);
            }
        }
    }
}

/// The texts that `pairs` give for `id`, in order.
pub fn select_texts(pairs: &Vec<(i64, String)>, id: i64) -> (out: Vec<String>)
    ensures
        chars::texts(out@) == texts_for(pairs@, id),
{
    let mut out: Vec<String> = Vec::new();
    let mut i: usize = 0;
    assert(pairs@.take(0) == Seq::<(i64, String)>::empty());
    assert(chars::texts(out@) == Seq::<Seq<char>>::empty());
    while i < pairs.len()
        invariant
            i <= pairs.len(),
            chars::texts(out@) == texts_for(pairs@.take(i as int), id),
        decreases pairs.len() - i,
    {
        let ghost before = chars::texts(out@);
        assert(pairs@.take(i + 1).drop_last() == pairs@.take(i as int));
        assert(pairs@.take(i + 1).last() == pairs@[i as int]);
        if pairs[i].0 == id {
            out.push(pairs[i].1.clone());
            assert(chars::texts(out@) == before.push(pairs@[i as int].1@));
        }
        i = i + 1;
    }
    assert(pairs@.take(pairs@.len() as int) == pairs@);
    out
}

/// The header that a stored row shows; `tags` are the tag rows of the records read together.
pub open spec fn shown_header(row: RecordRow, tags: Seq<(i64, String)>) -> types::RecordHeaderView {
    types::RecordHeaderView {
        id: row.id,
        namespace: row.namespace@,
        kind: types::kind_of_code(row.kind_code)->0,
        scope: row.scope@,
        tags: texts_for(tags, row.id),
        evidence: types::evidence_views(row.evidence@),
        metadata: row.metadata@,
        created_at_us: row.created_at_us,
        updated_at_us: row.updated_at_us,
        revision: row.revision,
    }
}

/// A row holds what was written for an input: namespace and scope in stored form, and the rest as it
/// was planned.
pub open spec fn row_holds(
    row: RecordRow,
    tags: Seq<(i64, String)>,
    input: RecordInputView,
    kind: RecordKind,
    id: i64,
    revision: i64,
    plan: RecordPlan,
) -> bool {
    &&& row.id == id && row.kind_code == types::kind_code(kind) && row.revision == revision
    &&& row.namespace@ == text::tag_form(input.namespace) && row.scope@ == text::tag_form(input.scope)
    &&& row.created_at_us == plan.created_at_us && row.updated_at_us == plan.updated_at_us
    &&& row.metadata@ == input.metadata && types::evidence_views(row.evidence@) == input.evidence
    &&& texts_for(tags, id) == chars::texts(plan.tags@)
}

/// What is read back of a record is what its write answered, with the namespace and the scope in
/// stored form.
pub proof fn written_record_is_read_back(
    row: RecordRow,
    tags: Seq<(i64, String)>,
    input: RecordInputView,
    kind: RecordKind,
    id: i64,
    revision: i64,
    plan: RecordPlan,
)
    requires
        row_holds(row, tags, input, kind, id, revision, plan),
    ensures
        types::kind_of_code(row.kind_code) is Some,
        shown_header(row, tags) == (types::RecordHeaderView {
            namespace: text::tag_form(input.namespace),
            scope: text::tag_form(input.scope),
            ..written_header(input, kind, id, revision, plan)
        }),
{
    types::kind_code_roundtrip(kind, row.kind_code);
}

/// The header of a stored row; `tags` are the tag rows of the records read together.
pub fn header_from_row(row: RecordRow, tags: &Vec<(i64, String)>) -> (out: Result<RecordHeader, Error>)
    ensures
        storage::refused(out, match types::kind_of_code(row.kind_code) {
            Some(_) => None,
            None => Some(ErrorView::Validation("invalid stored record kind"@)),
        }),
        out matches Ok(h) ==> h@ == shown_header(row, tags@),
        out is Ok <==> 0 <= row.kind_code <= 5,
        out matches Ok(h) ==> {
            &&& h.id == row.id && h.revision == row.revision && types::kind_code(h.kind) == row.kind_code
            &&& h.namespace@ == row.namespace@ && h.scope@ == row.scope@
            &&& h.created_at_us == row.created_at_us && h.updated_at_us == row.updated_at_us
            &&& h.metadata@ == row.metadata@ && types::evidence_views(h.evidence@) == types::evidence_views(row.evidence@)
            &&& forall|t: Seq<char>| #[trigger]
                h@.tags.contains(t) <==> exists|i: int| 0 <= i < tags@.len() && (#[trigger] tags@[i]).0 == row.id && tags@[i].1@ == t
        },
{
    proof {
        assert forall|t: Seq<char>| #[trigger]
            texts_for(tags@, row.id).contains(t) <==> exists|i: int|
                0 <= i < tags@.len() && (#[trigger] tags@[i]).0 == row.id && tags@[i].1@ == t by {
            texts_stand_beside_their_id(tags@, row.id, t);
        }
    }
    let kind = match RecordKind::from_code(row.kind_code) {
        Some(kind) => kind,
        None => return Err(Error::Validation("invalid stored record kind".to_owned())),
    };
    let tags = select_texts(tags, row.id);
    Ok(
        RecordHeader {
            id: row.id,
            namespace: row.namespace,
            kind,
            scope: row.scope,
            tags,
            evidence: row.evidence,
            metadata: row.metadata,
            created_at_us: row.created_at_us,
            updated_at_us: row.updated_at_us,
            revision: row.revision,
        },
    )
}

/// The id under which a payload stores its memory type.
pub fn memory_type_id(payload: &Vec<(String, Json)>) -> (out: Option<i64>)
    ensures
        out == json::int_of(json::lookup(json::field_trees(payload@), "memory_type_id"@)),
{
    match json::find(payload, "memory_type_id") {
        Some(value) => json::as_int(Some(value)),
        None => None,
    }
}

/// A payload as callers see it: the memory type as text in place of its id, and a note's path and
/// title, which are not stored in it.
pub open spec fn shown_payload(
    kind: RecordKind,
    payload: Seq<(Seq<char>, json::Tree)>,
    memory_type: Seq<char>,
    source: Seq<char>,
    title: Seq<char>,
) -> Seq<(Seq<char>, json::Tree)> {
    let typed = if json::int_of(json::lookup(payload, "memory_type_id"@)) is Some {
        json::without_field(json::with_field(payload, "memory_type"@, json::Tree::Text(memory_type)), "memory_type_id"@)
    } else {
        payload
    };
    if kind == RecordKind::Note {
        json::with_field(json::with_field(typed, "source"@, json::Tree::Text(source)), "title"@, json::Tree::Text(title))
    } else {
        typed
    }
}

/// A payload is shown with the name of its type in place of the type's id. That of a note also
/// shows the note's source and title. Every other entry is shown as it is stored.
pub proof fn payload_shows_names(
    kind: RecordKind,
    payload: Seq<(Seq<char>, json::Tree)>,
    memory_type: Seq<char>,
    source: Seq<char>,
    title: Seq<char>,
    key: Seq<char>,
)
    ensures
        ({
            let shown = shown_payload(kind, payload, memory_type, source, title);
            let typed = json::int_of(json::lookup(payload, "memory_type_id"@)) is Some;
            &&& kind == RecordKind::Note ==> json::lookup(shown, "source"@) == Some(json::Tree::Text(source)) && json::lookup(shown, "title"@)
                == Some(json::Tree::Text(title))
            &&& typed ==> json::lookup(shown, "memory_type"@) == Some(json::Tree::Text(memory_type))
            &&& key != "memory_type"@ && key != "memory_type_id"@ && key != "source"@ && key != "title"@ ==> json::lookup(shown, key)
                == json::lookup(payload, key)
            &&& kind != RecordKind::Note && !typed ==> shown == payload
        }),
{
    reveal_strlit("memory_type");
    reveal_strlit("memory_type_id");
    reveal_strlit("source");
    reveal_strlit("title");
    assert("memory_type"@.len() == 11 && "memory_type_id"@.len() == 14 && "source"@.len() == 6 && "title"@.len() == 5);
    let name = json::Tree::Text(memory_type);
    let with = json::with_field(payload, "memory_type"@, name);
    let typed = if json::int_of(json::lookup(payload, "memory_type_id"@)) is Some {
        json::without_field(with, "memory_type_id"@)
    } else {
        payload
    };
    json::set_then_find(payload, "memory_type"@, name, key);
    json::remove_then_find(with, "memory_type_id"@, "memory_type"@);
    if key != "memory_type_id"@ {
        json::remove_then_find(with, "memory_type_id"@, key);
    }
    let sourced = json::with_field(typed, "source"@, json::Tree::Text(source));
    json::set_then_find(typed, "source"@, json::Tree::Text(source), key);
    json::set_then_find(typed, "source"@, json::Tree::Text(source), "memory_type"@);
    json::set_then_find(sourced, "title"@, json::Tree::Text(title), key);
    json::set_then_find(sourced, "title"@, json::Tree::Text(title), "source"@);
    json::set_then_find(sourced, "title"@, json::Tree::Text(title), "memory_type"@);
}

/// Turns a stored payload into what callers see. `memory_type` is the text of its memory type id,
/// `source` and `title` are the path and name of a note.
pub fn show_payload(kind: RecordKind, payload: Vec<(String, Json)>, memory_type: &str, source: &str, title: &str) -> (out: Vec<(String, Json)>)
    ensures
        json::field_trees(out@) == shown_payload(kind, json::field_trees(payload@), memory_type@, source@, title@),
{
    let mut out = payload;
    if memory_type_id(&out).is_some() {
        json::set_field(&mut out, "memory_type".to_owned(), json::text_value(memory_type));
        json::remove_field(&mut out, "memory_type_id");
    }
    if kind == RecordKind::Note {
        json::set_field(&mut out, "source".to_owned(), json::text_value(source));
        json::set_field(&mut out, "title".to_owned(), json::text_value(title));
    }
    out
}

/// What a filter sees of a stored record: its namespace, scope and tags, in stored form.
#[derive(Debug)]
pub struct RecordLabels {
    pub namespace: String,
    pub scope: String,
    pub tags: Vec<String>,
}

/// The labels lie within a filter: its namespace, one of its scopes and all of its tags.
pub open spec fn labels_match(labels: RecordLabels, filter: types::ReadFilterView) -> bool {
    &&& labels.namespace@ == text::tag_form(filter.namespace)
    &&& exists|i: int| 0 <= i < filter.scopes.len() && text::tag_form(#[trigger] filter.scopes[i]) == labels.scope@
    &&& forall|i: int| 0 <= i < filter.tags.len() ==> chars::texts(labels.tags@).contains(text::tag_form(#[trigger] filter.tags[i]))
}

/// Whether a record lies within a filter. A record that is not there never does.
pub fn matches_filter(labels: Option<&RecordLabels>, filter: &types::ReadFilter) -> (out: Result<bool, Error>)
    ensures
        storage::refused(out, storage::filter_error(filter@)),
        out matches Ok(b) ==> b == (labels is Some && labels_match(*labels->0, filter@)),
        labels is None ==> (out matches Ok(b) ==> !b),
        out == Ok::<bool, Error>(true) ==> {
            &&& (labels->0).namespace@ == text::tag_form(filter.namespace@)
            &&& exists|i: int| 0 <= i < filter@.scopes.len() && text::tag_form(#[trigger] filter@.scopes[i]) == (labels->0).scope@
            &&& forall|i: int| 0 <= i < filter@.tags.len() ==> chars::texts((labels->0).tags@).contains(text::tag_form(#[trigger] filter@.tags[i]))
        },
        out == Ok::<bool, Error>(false) && labels is Some ==> {
            ||| (labels->0).namespace@ != text::tag_form(filter.namespace@)
            ||| forall|i: int| 0 <= i < filter@.scopes.len() ==> text::tag_form(#[trigger] filter@.scopes[i]) != (labels->0).scope@
            ||| exists|i: int| 0 <= i < filter@.tags.len() && !chars::texts((labels->0).tags@).contains(text::tag_form(#[trigger] filter@.tags[i]))
        },
{
    storage::validate_filter(filter)?;
    let own = match labels {
        Some(own) => own,
        None => return Ok(false),
    };
    if !ordering::same_text(own.namespace.as_str(), text::normalized_tag(filter.namespace.as_str()).as_str()) {
        return Ok(false);
    }
    let mut scoped = false;
    let mut i: usize = 0;
    while i < filter.scopes.len()
        invariant
            i <= filter.scopes.len(),
            scoped == (exists|k: int| 0 <= k < i && text::tag_form(#[trigger] filter@.scopes[k]) == own.scope@),
        decreases filter.scopes.len() - i,
    {
        assert(filter@.scopes[i as int] == filter.scopes@[i as int]@);
        if ordering::same_text(text::normalized_tag(filter.scopes[i].as_str()).as_str(), own.scope.as_str()) {
            scoped = true;
        }
        i = i + 1;
    }
    if !scoped {
        return Ok(false);
    }
    let mut k: usize = 0;
    while k < filter.tags.len()
        invariant
            k <= filter.tags.len(),
            storage::filter_error(filter@) is None,
            labels == Some(own),
            forall|j: int| 0 <= j < k ==> chars::texts(own.tags@).contains(text::tag_form(#[trigger] filter@.tags[j])),
        decreases filter.tags.len() - k,
    {
        assert(filter@.tags[k as int] == filter.tags@[k as int]@);
        if !ordering::holds(&own.tags, text::normalized_tag(filter.tags[k].as_str()).as_str()) {
            assert(!labels_match(*own, filter@));
            return Ok(false);
        }
        k = k + 1;
    }
    Ok(true)
}

/// A record that was written is seen through every filter that names its namespace, its scope and
/// only tags of its own, whatever the spelling.
pub proof fn written_record_is_seen(labels: RecordLabels, input: RecordInputView, filter: types::ReadFilterView)
    requires
        labels.namespace@ == text::tag_form(input.namespace),
        labels.scope@ == text::tag_form(input.scope),
        storage::stored_tags(input.tags, chars::texts(labels.tags@)),
        text::tag_form(filter.namespace) == text::tag_form(input.namespace),
        exists|i: int| 0 <= i < filter.scopes.len() && text::tag_form(#[trigger] filter.scopes[i]) == text::tag_form(input.scope),
        forall|j: int|
            0 <= j < filter.tags.len() ==> text::tag_form(#[trigger] filter.tags[j]).len() > 0 && exists|k: int|
                0 <= k < input.tags.len() && text::tag_form(#[trigger] input.tags[k]) == text::tag_form(filter.tags[j]),
    ensures
        labels_match(labels, filter),
{
    assert forall|j: int| 0 <= j < filter.tags.len() implies chars::texts(labels.tags@).contains(
        text::tag_form(#[trigger] filter.tags[j]),
    ) by {
        let form = text::tag_form(filter.tags[j]);
        let k = choose|k: int| 0 <= k < input.tags.len() && text::tag_form(#[trigger] input.tags[k]) == form;
        assert(form == text::tag_form(input.tags[k]));
    }
}

/// Domains and agents are kept apart: a record that one filter lets through is hidden from every
/// filter of another namespace, and from every filter that names none of the same scopes.
pub proof fn domains_are_apart(labels: RecordLabels, one: types::ReadFilterView, other: types::ReadFilterView)
    requires
        labels_match(labels, one),
        text::tag_form(one.namespace) != text::tag_form(other.namespace) || forall|i: int, j: int|
            0 <= i < one.scopes.len() && 0 <= j < other.scopes.len() ==> text::tag_form(#[trigger] one.scopes[i]) != text::tag_form(
                #[trigger] other.scopes[j],
            ),
    ensures
        !labels_match(labels, other),
{
}

/// How a deletion in the database went.
#[derive(Debug)]
pub enum DeleteOutcome {
    Changed(usize),
    ConstraintViolation,
    Failed(String),
}

/// What deleting a record answers: whether something was there, a conflict where others still
/// point at it, and the failure of the database as it is.
pub fn delete_record(id: i64, outcome: DeleteOutcome) -> (out: Result<bool, Error>)
    ensures
        match outcome {
            DeleteOutcome::Changed(n) => out == Ok::<bool, Error>(n > 0),
            DeleteOutcome::ConstraintViolation => out is Err && out->Err_0@ == ErrorView::Conflict(
                "record "@ + decimal::integer_text(id as int) + " is still referenced"@,
            ),
            DeleteOutcome::Failed(m) => out is Err && out->Err_0@ == ErrorView::Storage(m@),
        },
{
    match outcome {
        DeleteOutcome::Changed(n) => Ok(n > 0),
        DeleteOutcome::ConstraintViolation => {
            let mut message = chars::concat("record ", decimal::decimal_i64(id).as_str());
            message.append(" is still referenced");
            Err(Error::Conflict(message))
        },
        DeleteOutcome::Failed(m) => Err(Error::Storage(m)),
    }
}

} // verus!
