//! Filling a vector space: which records lack a vector, how an embedder is called again, and when
//! a group of records counts as filled.

use crate::chars;
use crate::chars::{is_blank, join};
use crate::decimal;
use crate::embeddings;
use crate::embeddings::{EmbedCallbackError, EmbedErrorKind, EmbedderOptions, VectorizeTarget};
use crate::error::{Error, ErrorView};
use crate::ids;
use crate::json;
use crate::json::Json;
use crate::ordering;
use crate::query;
use crate::query::SqlValue;
use crate::storage;
use crate::text;
use crate::types;
use crate::types::{RecordKey, RecordKind};
use vstd::prelude::*;

verus! {

// ── The query for records that lack a vector ──────────────────────────

/// The condition that a record belongs to a target that is on in the record's own namespace.
pub open spec fn target_condition(target: VectorizeTarget) -> Seq<char> {
    let codes = match target {
        VectorizeTarget::Memory => "0"@,
        VectorizeTarget::Graph => "1,2,3"@,
        VectorizeTarget::Notes => "5"@,
    };
    let default = if target == VectorizeTarget::Notes {
        "0"@
    } else {
        "1"@
    };
    "(r.kind IN ("@ + codes + ") AND COALESCE((SELECT value FROM meta WHERE key='vectorize:'||n.text||':"@
        + embeddings::target_name(target) + "'),"@ + default + ") = 1)"@
}

/// The condition that a record belongs to a target that is on in the record's own namespace.
pub fn target_enabled_sql(target: VectorizeTarget) -> (out: String)
    ensures
        out@ == target_condition(target),
        target == VectorizeTarget::Memory ==> out@ == "(r.kind IN ("@ + "0"@
            + ") AND COALESCE((SELECT value FROM meta WHERE key='vectorize:'||n.text||':"@ + "memory"@ + "'),"@ + "1"@ + ") = 1)"@,
        target == VectorizeTarget::Graph ==> out@ == "(r.kind IN ("@ + "1,2,3"@
            + ") AND COALESCE((SELECT value FROM meta WHERE key='vectorize:'||n.text||':"@ + "graph"@ + "'),"@ + "1"@ + ") = 1)"@,
        target == VectorizeTarget::Notes ==> out@ == "(r.kind IN ("@ + "5"@
            + ") AND COALESCE((SELECT value FROM meta WHERE key='vectorize:'||n.text||':"@ + "notes"@ + "'),"@ + "0"@ + ") = 1)"@,
{
    let codes = match target {
        VectorizeTarget::Memory => "0",
        VectorizeTarget::Graph => "1,2,3",
        VectorizeTarget::Notes => "5",
    };
    let mut out = chars::concat("(r.kind IN (", codes);
    out.append(") AND COALESCE((SELECT value FROM meta WHERE key='vectorize:'||n.text||':");
    out.append(target.as_str());
    out.append("'),");
    out.append(if target.default_enabled() { "1" } else { "0" });
    out.append(") = 1)");
    out
}

/// The condition that a record belongs to any target that is on.
pub open spec fn any_target_condition() -> Seq<char> {
    target_condition(VectorizeTarget::Memory) + " OR "@ + target_condition(VectorizeTarget::Graph) + " OR "@
        + target_condition(VectorizeTarget::Notes)
}

/// The condition that a record belongs to any target that is on.
pub fn enabled_kinds_sql() -> (out: String)
    ensures
        out@ == any_target_condition(),
{
    let mut out = target_enabled_sql(VectorizeTarget::Memory);
    out.append(" OR ");
    out.append(target_enabled_sql(VectorizeTarget::Graph).as_str());
    out.append(" OR ");
    out.append(target_enabled_sql(VectorizeTarget::Notes).as_str());
    out
}

/// Which records without a vector are asked for.
#[derive(Debug)]
pub struct PendingQuery {
    pub space_id: String,
    /// One namespace; none for all.
    pub namespace: Option<String>,
    /// One target; none for all that are on.
    pub target: Option<VectorizeTarget>,
    pub limit: usize,
    /// Only records after this id.
    pub after: Option<i64>,
    /// Only these records.
    pub ids: Option<Vec<i64>>,
}

/// The part of the query in front of the conditions.
pub open spec fn pending_head() -> Seq<char> {
    "SELECT r.id,r.kind,r.payload_json,r.fingerprint,n.text,s.text FROM records r JOIN strings n ON n.id=r.namespace_id JOIN strings s ON s.id=r.scope_id WHERE 1=1"@
}

/// The conditions that hold for every such query: the target, the master switch, and no vector of
/// the current fingerprint.
pub open spec fn pending_conditions(target: Option<VectorizeTarget>) -> Seq<char> {
    " AND ("@ + (match target {
        Some(t) => target_condition(t),
        None => any_target_condition(),
    }) + ")"@ + " AND COALESCE((SELECT value FROM meta WHERE key='vectorize:'||n.text),1)=1"@
        + " AND NOT EXISTS(SELECT 1 FROM vectors.embeddings e WHERE e.space_id=? AND e.record_id=r.id AND e.fingerprint=r.fingerprint)"@
}

/// A limit as a bound value.
pub open spec fn bound_limit(limit: usize) -> query::SqlValueView {
    query::SqlValueView::Integer(if limit <= i64::MAX { limit as i64 } else { i64::MAX })
}

/// The text of the query.
pub open spec fn pending_text(q: PendingQuery) -> Seq<char> {
    pending_head() + (if q.namespace is Some { " AND n.text=?"@ } else { Seq::empty() }) + pending_conditions(q.target) + (match q.ids {
        Some(ids) => " AND r.id IN ("@ + query::placeholder_text(ids@.len()) + ")"@,
        None => Seq::empty(),
    }) + (if q.after is Some { " AND r.id>?"@ } else { Seq::empty() }) + " ORDER BY r.id LIMIT ?"@
}

/// The values that the query binds.
pub open spec fn pending_values(q: PendingQuery) -> Seq<query::SqlValueView> {
    (match q.namespace {
        Some(n) => seq![query::SqlValueView::Text(text::tag_form(n@))],
        None => Seq::empty(),
    }) + seq![query::SqlValueView::Text(q.space_id@)] + (match q.ids {
        Some(ids) => query::id_values(ids@),
        None => Seq::empty(),
    }) + (match q.after {
        Some(a) => seq![query::SqlValueView::Integer(a)],
        None => Seq::empty(),
    }) + seq![bound_limit(q.limit)]
}

/// Appends one bound value.
fn push_value(values: &mut Vec<SqlValue>, value: SqlValue)
    ensures
        query::value_views(final(values)@) == query::value_views(old(values)@) + seq![value@],
{
    let ghost before = query::value_views(values@);
    values.push(value);
    assert(query::value_views(values@) == before + seq![value@]);
}

/// The query for the records that should have a vector and lack one of their current fingerprint.
/// All of that is decided in the query, so that a cursor never passes over a record that still
/// needs one. None where it is limited to no records at all.
pub fn pending_sql(q: &PendingQuery) -> (out: Option<(String, Vec<SqlValue>)>)
    ensures
        out is None <==> (q.ids is Some && q.ids->0@.len() == 0),
        out matches Some((sql, values)) ==> sql@ == pending_text(*q) && query::value_views(values@) == pending_values(*q),
        out matches Some((sql, values)) ==> {
            let bound = query::value_views(values@);
            let named = if q.namespace is Some { 1int } else { 0int };
            let listed = if q.ids is Some { (q.ids->0)@.len() as int } else { 0int };
            &&& q.namespace matches Some(n) ==> bound[0] == query::SqlValueView::Text(text::tag_form(n@))
            &&& bound[named] == query::SqlValueView::Text(q.space_id@)
            &&& q.ids matches Some(ids) ==> forall|i: int|
                0 <= i < ids@.len() ==> bound[named + 1 + i] == query::SqlValueView::Integer(#[trigger] ids@[i])
            &&& q.after matches Some(id) ==> bound[named + 1 + listed] == query::SqlValueView::Integer(id)
            &&& bound.len() == named + 1 + listed + (if q.after is Some { 1int } else { 0int }) + 1
            &&& q.limit <= i64::MAX ==> bound.last() == query::SqlValueView::Integer(q.limit as i64)
            &&& q.limit > i64::MAX ==> bound.last() == query::SqlValueView::Integer(i64::MAX)
        },
{
    let mut sql =
        "SELECT r.id,r.kind,r.payload_json,r.fingerprint,n.text,s.text FROM records r JOIN strings n ON n.id=r.namespace_id JOIN strings s ON s.id=r.scope_id WHERE 1=1".to_owned();
    let mut values: Vec<SqlValue> = Vec::new();
    assert(query::value_views(values@) == Seq::<query::SqlValueView>::empty());
    assert(sql@ + Seq::<char>::empty() == sql@);
    if let Some(namespace) = &q.namespace {
        sql.append(" AND n.text=?");
        push_value(&mut values, SqlValue::Text(text::normalized_tag(namespace.as_str())));
    }
    let ghost first = sql@;
    let ghost v1 = query::value_views(values@);
    sql.append(" AND (");
    match q.target {
        Some(target) => sql.append(target_enabled_sql(target).as_str()),
        None => sql.append(enabled_kinds_sql().as_str()),
    }
    sql.append(")");
    sql.append(" AND COALESCE((SELECT value FROM meta WHERE key='vectorize:'||n.text),1)=1");
    sql.append(
        " AND NOT EXISTS(SELECT 1 FROM vectors.embeddings e WHERE e.space_id=? AND e.record_id=r.id AND e.fingerprint=r.fingerprint)",
    );
    assert(sql@ == first + pending_conditions(q.target));
    push_value(&mut values, SqlValue::Text(q.space_id.clone()));
    let ghost second = sql@;
    let ghost v2 = query::value_views(values@);
    if let Some(ids) = &q.ids {
        if ids.len() == 0 {
            return None;
        }
        sql.append(" AND r.id IN (");
        sql.append(query::placeholders(ids.len()).as_str());
        sql.append(")");
        assert(sql@ == second + (" AND r.id IN ("@ + query::placeholder_text(ids@.len()) + ")"@));
        query::push_ids(&mut values, ids);
    } else {
        assert(sql@ == second + Seq::<char>::empty());
        assert(query::value_views(values@) == v2 + Seq::<query::SqlValueView>::empty());
    }
    let ghost third = sql@;
    let ghost v3 = query::value_views(values@);
    if let Some(cursor) = q.after {
        sql.append(" AND r.id>?");
        push_value(&mut values, SqlValue::Integer(cursor));
    } else {
        assert(sql@ == third + Seq::<char>::empty());
        assert(query::value_views(values@) == v3 + Seq::<query::SqlValueView>::empty());
    }
    sql.append(" ORDER BY r.id LIMIT ?");
    let limit: i64 = if (q.limit as u128) <= 0x7fff_ffff_ffff_ffff { q.limit as i64 } else { i64::MAX };
    push_value(&mut values, SqlValue::Integer(limit));
    Some((sql, values))
}

// ── Candidates ────────────────────────────────────────────────────────

/// A record that lacks a vector, with the text its vector is made from.
#[derive(Debug)]
pub struct EmbeddingInput {
    pub key: RecordKey,
    pub text: String,
    pub fingerprint: String,
    pub namespace: String,
    pub scope: String,
    pub kind: RecordKind,
    pub tags: Vec<String>,
    pub note_id: i64,
    /// The text lies in an index that has not been committed yet. Such a record cannot get its
    /// vector now, but it is a gap all the same.
    pub text_pending: bool,
}

/// A row of the query, with what the payload, the index and the tags give for it.
#[derive(Debug)]
pub struct CandidateRow {
    pub id: i64,
    pub kind_code: i64,
    pub payload: Option<Json>,
    pub fingerprint: String,
    pub namespace: String,
    pub scope: String,
    /// The text that the index holds for a chunk.
    pub chunk_body: Option<String>,
    pub tags: Vec<String>,
    /// The note of a chunk.
    pub note_id: Option<i64>,
}

/// The searched text of a row's record.
pub open spec fn candidate_body(row: CandidateRow, kind: RecordKind) -> Seq<char> {
    if kind == RecordKind::Chunk {
        match row.chunk_body {
            Some(body) => body@,
            None => Seq::empty(),
        }
    } else {
        match row.payload {
            Some(payload) => storage::record_text_of(kind, json::tree(payload)),
            None => Seq::empty(),
        }
    }
}

/// The name of a row's entity.
pub open spec fn candidate_name(row: CandidateRow, kind: RecordKind) -> Seq<char> {
    match row.payload {
        Some(payload) => storage::record_name_of(kind, json::tree(payload)),
        None => Seq::empty(),
    }
}

/// The text that a vector is made from: a memory's tags follow its text, an entity's name stands
/// before it, other records have their text alone.
pub open spec fn embedding_text(kind: RecordKind, body: Seq<char>, name: Seq<char>, tags: Seq<Seq<char>>) -> Seq<char> {
    if kind == RecordKind::Memory && tags.len() > 0 {
        body + "\n"@ + chars::joined(tags, " "@)
    } else if kind == RecordKind::Entity && name.len() > 0 {
        name + "\n"@ + body
    } else {
        body
    }
}

/// The input that a row becomes.
pub open spec fn input_is(row: CandidateRow, kind: RecordKind, out: EmbeddingInput) -> bool {
    &&& out.key.id == row.id
    &&& out.kind == kind
    &&& out.text@ == embedding_text(kind, candidate_body(row, kind), candidate_name(row, kind), chars::texts(row.tags@))
    &&& out.fingerprint@ == row.fingerprint@
    &&& out.namespace@ == row.namespace@
    &&& out.scope@ == row.scope@
    &&& out.tags@ == row.tags@
    &&& out.note_id == (if kind == RecordKind::Chunk && row.note_id is Some { row.note_id->0 } else { 0 })
    &&& out.text_pending == (kind == RecordKind::Chunk && row.chunk_body is None)
}

/// Makes the input of a row.
pub fn candidate(row: CandidateRow) -> (out: Result<EmbeddingInput, Error>)
    ensures
        storage::refused(out, match types::kind_of_code(row.kind_code) {
            Some(_) => None,
            None => Some(ErrorView::Validation("invalid stored record kind"@)),
        }),
        out matches Ok(input) ==> input_is(row, types::kind_of_code(row.kind_code)->0, input),
        out is Ok <==> 0 <= row.kind_code <= 5,
        out matches Ok(input) ==> {
            &&& input.key.id == row.id && types::kind_code(input.kind) == row.kind_code
            &&& input.fingerprint@ == row.fingerprint@ && input.namespace@ == row.namespace@ && input.scope@ == row.scope@
            &&& input.text_pending <==> input.kind == RecordKind::Chunk && row.chunk_body is None
            &&& input.kind == RecordKind::Chunk ==> (row.chunk_body matches Some(body) ==> input.text@ == body@)
            &&& input.kind == RecordKind::Chunk ==> (row.note_id matches Some(note) ==> input.note_id == note)
            &&& input.kind != RecordKind::Chunk ==> input.note_id == 0
            &&& input.kind == RecordKind::Memory ==> (row.payload matches Some(payload) ==> {
                let judged = storage::record_text_of(RecordKind::Memory, json::tree(payload));
                &&& row.tags@.len() == 0 ==> input.text@ == judged
                &&& row.tags@.len() > 0 ==> input.text@ == judged + "\n"@ + chars::joined(chars::texts(row.tags@), " "@)
            })
            &&& input.kind == RecordKind::Entity ==> (row.payload matches Some(payload) ==> {
                let body = storage::record_text_of(RecordKind::Entity, json::tree(payload));
                let name = storage::record_name_of(RecordKind::Entity, json::tree(payload));
                &&& name.len() == 0 ==> input.text@ == body
                &&& name.len() > 0 ==> input.text@ == name + "\n"@ + body
            })
            &&& input.kind == RecordKind::Relation || input.kind == RecordKind::Event || input.kind == RecordKind::Note ==> (row.payload matches Some(payload) ==> input.text@
                == storage::record_text_of(input.kind, json::tree(payload)))
            &&& row.payload is None && row.tags@.len() == 0 && input.kind != RecordKind::Chunk ==> input.text@.len() == 0
            &&& input.kind == RecordKind::Chunk && row.chunk_body is None ==> input.text@.len() == 0
        },
{
    let kind = match RecordKind::from_code(row.kind_code) {
        Some(kind) => kind,
        None => return Err(Error::Validation("invalid stored record kind".to_owned())),
    };
    let text_pending = kind == RecordKind::Chunk && row.chunk_body.is_none();
    let body = if kind == RecordKind::Chunk {
        match &row.chunk_body {
            Some(body) => body.clone(),
            None => String::new(),
        }
    } else {
        match &row.payload {
            Some(payload) => storage::record_text(kind, payload),
            None => String::new(),
        }
    };
    let name = match &row.payload {
        Some(payload) => storage::record_name(kind, payload),
        None => String::new(),
    };
    let text = if kind == RecordKind::Memory && row.tags.len() > 0 {
        let mut text = chars::concat(body.as_str(), "\n");
        text.append(join(&row.tags, " ").as_str());
        text
    } else if kind == RecordKind::Entity && name.as_str().unicode_len() > 0 {
        let mut text = chars::concat(name.as_str(), "\n");
        text.append(body.as_str());
        text
    } else {
        body
    };
    let note_id: i64 = match row.note_id {
        Some(id) => if kind == RecordKind::Chunk { id } else { 0 },
        None => 0,
    };
    Ok(
        EmbeddingInput {
            key: RecordKey { id: row.id },
            text,
            fingerprint: row.fingerprint,
            namespace: row.namespace,
            scope: row.scope,
            kind,
            tags: row.tags,
            note_id,
            text_pending,
        },
    )
}

/// A record can get a vector where it has text that is not blank.
pub open spec fn has_text(input: EmbeddingInput) -> bool {
    !chars::blank(input.text@)
}

/// Whether a record can get a vector: a blank text has nothing to embed.
pub fn embeddable(input: &EmbeddingInput) -> (out: bool)
    ensures
        out == has_text(*input),
        out <==> exists|i: int| 0 <= i < input.text@.len() && !chars::whitespace(#[trigger] input.text@[i]),
{
    !is_blank(input.text.as_str())
}

// ── Gaps ──────────────────────────────────────────────────────────────

/// How many candidates are looked at in one go when a gap is looked for.
pub const GAP_PROBE: usize = 256;

/// A candidate that keeps its target from being filled.
pub open spec fn is_gap(input: EmbeddingInput) -> bool {
    has_text(input) || input.text_pending
}

/// What one page of candidates says about a gap.
#[derive(Debug)]
pub enum GapStep {
    /// There is a gap.
    Open,
    /// There is none: no candidates are left.
    Closed,
    /// None so far; the next page begins after this id.
    After(i64),
}

/// Looks for a gap on one page of candidates. Candidates without any text are no gap, but those
/// behind them may be.
pub fn gap_step(candidates: &Vec<EmbeddingInput>) -> (out: GapStep)
    ensures
        match out {
            GapStep::Open => exists|i: int| 0 <= i < candidates@.len() && is_gap(#[trigger] candidates@[i]),
            GapStep::Closed => candidates@.len() == 0,
            GapStep::After(id) => candidates@.len() > 0 && id == candidates@.last().key.id && forall|i: int|
                0 <= i < candidates@.len() ==> !is_gap(#[trigger] candidates@[i]),
        },
        out is Open <==> exists|i: int| 0 <= i < candidates@.len() && ((#[trigger] candidates@[i]).text_pending || !chars::blank(candidates@[i].text@)),
        out is Closed <==> candidates@.len() == 0,
{
    if candidates.len() == 0 {
        return GapStep::Closed;
    }
    let mut i: usize = 0;
    while i < candidates.len()
        invariant
            i <= candidates.len(),
            forall|k: int| 0 <= k < i ==> !is_gap(#[trigger] candidates@[k]),
        decreases candidates.len() - i,
    {
        if embeddable(&candidates[i]) || candidates[i].text_pending {
            assert(is_gap(candidates@[i as int]));
            return GapStep::Open;
        }
        i = i + 1;
    }
    GapStep::After(candidates[candidates.len() - 1].key.id)
}

/// How often filled targets are verified against writes that come in between.
pub const VERIFY_ATTEMPTS: usize = 3;

/// What to do with verified marks.
#[derive(Debug, Clone, Copy, PartialEq, Eq, Structural)]
pub enum MarkStep {
    Write,
    Retry,
    GiveUp,
}

/// Decides on marks that were verified while the store stood at `seen`. They count only where
/// nothing was written since; after the last attempt a target is left unmarked rather than marked
/// on half of it.
pub fn mark_step(attempt: usize, seen: i64, current: i64) -> (out: MarkStep)
    ensures
        out == (if seen == current {
            MarkStep::Write
        } else if attempt + 1 < VERIFY_ATTEMPTS {
            MarkStep::Retry
        } else {
            MarkStep::GiveUp
        }),
{
    if seen == current {
        MarkStep::Write
    } else if attempt < VERIFY_ATTEMPTS - 1 {
        MarkStep::Retry
    } else {
        MarkStep::GiveUp
    }
}

/// Whether a target is marked as filled: it is on and has no gap.
pub fn is_filled(enabled: bool, gap: bool) -> (out: bool)
    ensures
        out == (enabled && !gap),
{
    enabled && !gap
}

// ── Calling an embedder ───────────────────────────────────────────────

/// How often a call is repeated after a rate limit.
pub const RATE_LIMIT_ATTEMPTS: u32 = 3;

/// How long the first repetition waits; each further one waits as much longer.
pub const RATE_LIMIT_BACKOFF_MS: u64 = 20;

/// The limits of a registered embedder.
#[derive(Debug)]
pub struct EmbedderEntry {
    pub options: EmbedderOptions,
    /// The batch size in force. It starts as declared and is halved where a batch was too large.
    pub effective_batch: usize,
}

/// What to do after an embedder failed.
#[derive(Debug)]
pub enum RetryStep {
    /// The batch was too large and is halved: ask for a smaller one.
    Shrunk,
    /// Call again after a while.
    Wait { attempts: u32, backoff_ms: u64 },
    /// Give up.
    Failed(String),
}

impl EmbedderEntry {
    /// The limits as declared.
    pub fn new(options: EmbedderOptions) -> (out: Self)
        ensures
            out.options == options,
            out.effective_batch == options.max_batch,
    {
        EmbedderEntry { options, effective_batch: options.max_batch }
    }

    /// Decides what follows an error, after `attempts` repetitions. A batch that was too large
    /// halves the batch size for good, down to one; a rate limit is waited for a few times; any
    /// other error is final.
    pub fn on_error(&mut self, attempts: u32, error: &EmbedCallbackError) -> (out: RetryStep)
        ensures
            final(self).options == old(self).options,
            final(self).effective_batch <= old(self).effective_batch,
            old(self).effective_batch >= 1 ==> final(self).effective_batch >= 1,
            match error.kind {
                EmbedErrorKind::TooLarge => if old(self).effective_batch <= 1 {
                    &&& out matches RetryStep::Failed(m) && m@ == "batch size 1 was still rejected: "@ + error.message@
                    &&& final(self).effective_batch == old(self).effective_batch
                } else {
                    &&& out is Shrunk
                    &&& final(self).effective_batch == old(self).effective_batch / 2
                },
                EmbedErrorKind::RateLimited => {
                    &&& final(self).effective_batch == old(self).effective_batch
                    &&& if attempts < RATE_LIMIT_ATTEMPTS {
                        out matches RetryStep::Wait { attempts: n, backoff_ms } && n == attempts + 1 && backoff_ms
                            == RATE_LIMIT_BACKOFF_MS * (attempts + 1)
                    } else {
                        out matches RetryStep::Failed(m) && m@ == error.message@
                    }
                },
                EmbedErrorKind::Other => {
                    &&& final(self).effective_batch == old(self).effective_batch
                    &&& out matches RetryStep::Failed(m) && m@ == error.message@
                },
            },
    {
        match error.kind {
            EmbedErrorKind::TooLarge => {
                if self.effective_batch <= 1 {
                    return RetryStep::Failed(chars::concat("batch size 1 was still rejected: ", error.message.as_str()));
                }
                self.effective_batch = self.effective_batch / 2;
                RetryStep::Shrunk
            },
            EmbedErrorKind::RateLimited => {
                if attempts < RATE_LIMIT_ATTEMPTS {
                    let next: u32 = attempts + 1;
                    return RetryStep::Wait { attempts: next, backoff_ms: RATE_LIMIT_BACKOFF_MS * (next as u64) };
                }
                RetryStep::Failed(error.message.clone())
            },
            EmbedErrorKind::Other => RetryStep::Failed(error.message.clone()),
        }
    }
}

// ── Filling ───────────────────────────────────────────────────────────

/// What one run over a space did. What was written before an interruption stays.
#[derive(Debug)]
pub struct SyncReport {
    pub scanned: usize,
    pub written: usize,
    pub batches: usize,
    pub deleted: usize,
    pub interrupted: Option<String>,
}

impl Default for SyncReport {
    fn default() -> (out: Self)
        ensures
            out.scanned == 0 && out.written == 0 && out.batches == 0 && out.deleted == 0,
            out.interrupted is None,
    {
        SyncReport { scanned: 0, written: 0, batches: 0, deleted: 0, interrupted: None }
    }
}

/// Why a run over a space is refused, if it is.
pub open spec fn sync_error(space_id: Seq<char>, batch: int, registered: bool) -> Option<ErrorView> {
    match storage::limit_error(batch) {
        Some(error) => Some(error),
        None => if registered {
            None
        } else {
            Some(ErrorView::Validation("no embedder registered for space "@ + space_id))
        },
    }
}

/// Checks a run over a space; `registered` says whether the space has an embedder.
pub fn check_sync(space_id: &str, batch: usize, registered: bool) -> (out: Result<(), Error>)
    ensures
        storage::refused(out, sync_error(space_id@, batch as int, registered)),
        out is Ok <==> 1 <= batch <= 10_000 && registered,
{
    if let Err(error) = storage::validate_limit(batch) {
        return Err(error);
    }
    if !registered {
        return Err(Error::Validation(chars::concat("no embedder registered for space ", space_id)));
    }
    Ok(())
}

/// The report of a run: what was deleted before, and what the filling did.
pub fn sync_report(deleted: usize, filled: SyncReport) -> (out: SyncReport)
    ensures
        out == (SyncReport { deleted, ..filled }),
{
    SyncReport { scanned: filled.scanned, written: filled.written, batches: filled.batches, deleted, interrupted: filled.interrupted }
}

/// A sum that stops at the greatest count.
pub open spec fn count_sum(a: usize, b: usize) -> usize {
    if a + b <= usize::MAX {
        (a + b) as usize
    } else {
        usize::MAX
    }
}

/// Adds two counts.
pub fn add_counts(a: usize, b: usize) -> (out: usize)
    ensures
        out == count_sum(a, b),
        a + b <= usize::MAX ==> out == a + b,
        a + b > usize::MAX ==> out == usize::MAX,
{
    if b <= usize::MAX - a {
        a + b
    } else {
        usize::MAX
    }
}

/// The members of a list of candidates that can get a vector, in order.
pub open spec fn with_text(list: Seq<EmbeddingInput>) -> Seq<EmbeddingInput>
    decreases list.len(),
{
    if list.len() == 0 {
        list
    } else if has_text(list[0]) {
        seq![list[0]] + with_text(list.drop_first())
    } else {
        with_text(list.drop_first())
    }
}

/// What has text is kept, in its order, and nothing else: two lists are kept one behind the other.
pub proof fn text_is_kept_in_order(a: Seq<EmbeddingInput>, b: Seq<EmbeddingInput>)
    ensures
        with_text(a + b) == with_text(a) + with_text(b),
        a.len() == 1 ==> with_text(a) == (if !chars::blank(a[0].text@) { a } else { Seq::empty() }),
    decreases a.len(),
{
    if a.len() == 0 {
        assert(a + b == b);
        assert(with_text(a) + with_text(b) == with_text(b));
    } else {
        let rest = a.drop_first();
        assert((a + b).drop_first() == rest + b);
        text_is_kept_in_order(rest, b);
        if has_text(a[0]) {
            assert(seq![a[0]] + (with_text(rest) + with_text(b)) == seq![a[0]] + with_text(rest) + with_text(b));
        }
        if a.len() == 1 {
            assert(rest == Seq::<EmbeddingInput>::empty());
            assert(with_text(rest) == Seq::<EmbeddingInput>::empty());
            assert(seq![a[0]] + Seq::<EmbeddingInput>::empty() == a);
        }
    }
}

/// How many candidates a page holds: the batch size, no more than the embedder takes, at least one.
pub open spec fn page_limit(batch: usize, effective_batch: usize) -> usize {
    if batch == 0 || effective_batch == 0 {
        1
    } else if batch <= effective_batch {
        batch
    } else {
        effective_batch
    }
}

/// The run that fills a space batch by batch: it asks for candidates, hands their texts to the
/// embedder without holding any lock, and writes the vectors.
#[derive(Debug)]
pub struct Drain {
    pub batch: usize,
    pub cursor: Option<i64>,
    /// The last id of the batch that is being worked on.
    pub last: i64,
    pub report: SyncReport,
}

/// What the run wants next.
#[derive(Debug)]
pub enum DrainStep {
    /// Nothing: it is done.
    Stop,
    /// More candidates.
    Fetch,
    /// Vectors for these.
    Embed(Vec<EmbeddingInput>),
}

impl Drain {
    /// A run with the given batch size.
    pub fn new(batch: usize) -> (out: Self)
        ensures
            out.batch == batch,
            out.cursor is None && out.last == 0,
            out.report.scanned == 0 && out.report.written == 0 && out.report.batches == 0 && out.report.deleted == 0,
            out.report.interrupted is None,
    {
        Drain { batch, cursor: None, last: 0, report: SyncReport::default() }
    }

    /// How many candidates to ask for.
    pub fn limit(&self, effective_batch: usize) -> (out: usize)
        ensures
            out == page_limit(self.batch, effective_batch),
            self.batch >= 1 && effective_batch >= 1 ==> out <= self.batch && out <= effective_batch && (out == self.batch || out
                == effective_batch),
            self.batch == 0 || effective_batch == 0 ==> out == 1,
            out >= 1,
    {
        if self.batch == 0 || effective_batch == 0 {
            1
        } else if self.batch <= effective_batch {
            self.batch
        } else {
            effective_batch
        }
    }

    /// Takes a batch of candidates. Those without text are passed over.
    pub fn on_candidates(&mut self, candidates: Vec<EmbeddingInput>) -> (out: DrainStep)
        ensures
            final(self).batch == old(self).batch,
            final(self).report.written == old(self).report.written,
            final(self).report.batches == old(self).report.batches,
            final(self).report.deleted == old(self).report.deleted,
            final(self).report.interrupted == old(self).report.interrupted,
            match out {
                DrainStep::Stop => candidates@.len() == 0 && *final(self) == *old(self),
                DrainStep::Fetch => candidates@.len() > 0 && with_text(candidates@).len() == 0 && final(self).cursor == Some(
                    candidates@.last().key.id,
                ) && final(self).last == old(self).last && final(self).report.scanned == old(self).report.scanned,
                DrainStep::Embed(pending) => pending@ == with_text(candidates@) && pending@.len() > 0 && final(self).last
                    == candidates@.last().key.id && final(self).cursor == old(self).cursor && final(self).report.scanned
                    == count_sum(old(self).report.scanned, pending@.len() as usize),
            },
    {
        let n: usize = candidates.len();
        if n == 0 {
            return DrainStep::Stop;
        }
        let last: i64 = candidates[n - 1].key.id;
        let ghost all = candidates@;
        let mut rest = candidates;
        let mut pending: Vec<EmbeddingInput> = Vec::new();
        assert(pending@ + with_text(rest@) == with_text(all));
        while rest.len() > 0
            invariant
                pending@ + with_text(rest@) == with_text(all),
            decreases rest.len(),
        {
            let ghost before = rest@;
            let ghost chosen = pending@;
            let input = rest.remove(0);
            assert(rest@ == before.drop_first());
            assert(input == before[0]);
            if embeddable(&input) {
                pending.push(input);
                assert(pending@ + with_text(rest@) == chosen + (seq![before[0]] + with_text(before.drop_first())));
            }
        }
        assert(with_text(rest@) == Seq::<EmbeddingInput>::empty());
        assert(pending@ == with_text(all));
        if pending.len() == 0 {
            self.cursor = Some(last);
            return DrainStep::Fetch;
        }
        self.last = last;
        self.report.scanned = add_counts(self.report.scanned, pending.len());
        DrainStep::Embed(pending)
    }

    /// Takes the number of vectors that came back for a batch; the result tells whether they may be
    /// written. Another number than was asked for ends the run.
    pub fn on_vectors(&mut self, returned: usize, asked: usize) -> (out: bool)
        ensures
            out == (returned == asked),
            final(self).batch == old(self).batch && final(self).cursor == old(self).cursor && final(self).last == old(self).last,
            final(self).report.scanned == old(self).report.scanned && final(self).report.written == old(self).report.written,
            final(self).report.batches == old(self).report.batches && final(self).report.deleted == old(self).report.deleted,
            if out {
                final(self).report.interrupted == old(self).report.interrupted
            } else {
                types::optional_text(final(self).report.interrupted) == Some(
                    "embedder returned "@ + decimal::integer_text(returned as int) + " vectors for "@
                        + decimal::integer_text(asked as int) + " inputs"@,
                )
            },
    {
        if returned == asked {
            return true;
        }
        let mut message = chars::concat("embedder returned ", decimal::decimal_usize(returned).as_str());
        message.append(" vectors for ");
        message.append(decimal::decimal_usize(asked).as_str());
        message.append(" inputs");
        self.report.interrupted = Some(message);
        false
    }

    /// Ends the run because the embedder failed.
    pub fn on_failure(&mut self, message: String)
        ensures
            types::optional_text(final(self).report.interrupted) == Some(message@),
            final(self).batch == old(self).batch && final(self).cursor == old(self).cursor && final(self).last == old(self).last,
            final(self).report.scanned == old(self).report.scanned && final(self).report.written == old(self).report.written,
            final(self).report.batches == old(self).report.batches && final(self).report.deleted == old(self).report.deleted,
    {
        self.report.interrupted = Some(message);
    }

    /// Takes the outcome of writing a batch: how many vectors were written, or none where a record
    /// changed in the meantime. Either way the run goes on behind the batch; what changed comes back
    /// with its new fingerprint.
    pub fn on_written(&mut self, written: Option<usize>)
        ensures
            final(self).batch == old(self).batch && final(self).last == old(self).last,
            final(self).cursor == Some(old(self).last),
            final(self).report.scanned == old(self).report.scanned && final(self).report.deleted == old(self).report.deleted,
            final(self).report.interrupted == old(self).report.interrupted,
            match written {
                Some(n) => final(self).report.written == count_sum(old(self).report.written, n) && final(self).report.batches
                    == count_sum(old(self).report.batches, 1),
                None => final(self).report.written == old(self).report.written && final(self).report.batches
                    == old(self).report.batches,
            },
    {
        if let Some(n) = written {
            self.report.written = add_counts(self.report.written, n);
            self.report.batches = add_counts(self.report.batches, 1);
        }
        self.cursor = Some(self.last);
    }
}

/// Every record that has text and lacks a vector is handed to the embedder or lies behind the
/// cursor: taking a batch loses none of those it holds.
pub proof fn batch_loses_nothing(candidates: Seq<EmbeddingInput>, i: int)
    requires
        0 <= i < candidates.len(),
        has_text(candidates[i]),
    ensures
        with_text(candidates).contains(candidates[i]),
    decreases candidates.len(),
{
    let rest = candidates.drop_first();
    let all = with_text(candidates);
    if i == 0 {
        assert(all[0] == candidates[0]);
    } else {
        batch_loses_nothing(rest, i - 1);
        let k = choose|k: int| 0 <= k < with_text(rest).len() && with_text(rest)[k] == candidates[i];
        if has_text(candidates[0]) {
            assert(all[k + 1] == candidates[i]);
        }
    }
}

// ── Whole runs ────────────────────────────────────────────────────────

/// The records that a store lists come in the order of their ids.
pub open spec fn by_id(pending: Seq<EmbeddingInput>) -> bool {
    forall|i: int, j: int| 0 <= i < j < pending.len() ==> (#[trigger] pending[i]).key.id < (#[trigger] pending[j]).key.id
}

/// What a store lists behind a cursor: the records with a greater id.
pub open spec fn behind(pending: Seq<EmbeddingInput>, cursor: Option<i64>) -> Seq<EmbeddingInput>
    decreases pending.len(),
{
    if cursor is None || pending.len() == 0 {
        pending
    } else if pending[0].key.id > cursor->0 {
        seq![pending[0]] + behind(pending.drop_first(), cursor)
    } else {
        behind(pending.drop_first(), cursor)
    }
}

/// The pages that a run sees to its end, of whatever sizes: each begins behind the one before it,
/// and behind the last there is nothing. A vector that is written takes its record off the list, but
/// only at or before the cursor.
pub open spec fn whole_run(pending: Seq<EmbeddingInput>, cursor: Option<i64>, pages: Seq<Seq<EmbeddingInput>>) -> bool
    decreases pages.len(),
{
    let rest = behind(pending, cursor);
    if pages.len() == 0 {
        rest.len() == 0
    } else {
        &&& pages[0].len() > 0
        &&& pages[0].is_prefix_of(rest)
        &&& whole_run(pending, Some(pages[0].last().key.id), pages.drop_first())
    }
}

/// What a run hands to the embedder, page by page.
pub open spec fn handed_over(pages: Seq<Seq<EmbeddingInput>>) -> Seq<EmbeddingInput>
    decreases pages.len(),
{
    if pages.len() == 0 {
        Seq::empty()
    } else {
        with_text(pages[0]) + handed_over(pages.drop_first())
    }
}

/// The records that have nothing to embed: what a store still lists after all others got their
/// vectors.
pub open spec fn without_text(list: Seq<EmbeddingInput>) -> Seq<EmbeddingInput>
    decreases list.len(),
{
    if list.len() == 0 {
        list
    } else if has_text(list[0]) {
        without_text(list.drop_first())
    } else {
        seq![list[0]] + without_text(list.drop_first())
    }
}

proof fn with_text_of_sum(a: Seq<EmbeddingInput>, b: Seq<EmbeddingInput>)
    ensures
        with_text(a + b) == with_text(a) + with_text(b),
    decreases a.len(),
{
    if a.len() == 0 {
        assert(a + b == b);
        assert(with_text(a) + with_text(b) == with_text(b));
    } else {
        with_text_of_sum(a.drop_first(), b);
        assert((a + b).drop_first() == a.drop_first() + b);
        assert((a + b)[0] == a[0]);
        assert(with_text(a + b) == with_text(a) + with_text(b));
    }
}

proof fn behind_all(pending: Seq<EmbeddingInput>, id: i64)
    requires
        forall|i: int| 0 <= i < pending.len() ==> (#[trigger] pending[i]).key.id > id,
    ensures
        behind(pending, Some(id)) == pending,
    decreases pending.len(),
{
    if pending.len() > 0 {
        let rest = pending.drop_first();
        assert forall|i: int| 0 <= i < rest.len() implies (#[trigger] rest[i]).key.id > id by {
            assert(rest[i] == pending[i + 1]);
        }
        behind_all(rest, id);
        assert(pending[0].key.id > id);
        assert(seq![pending[0]] + rest == pending);
    }
}

proof fn behind_place(pending: Seq<EmbeddingInput>, k: int)
    requires
        by_id(pending),
        0 < k <= pending.len(),
    ensures
        behind(pending, Some(pending[k - 1].key.id)) == pending.skip(k),
    decreases pending.len(),
{
    let rest = pending.drop_first();
    let id = pending[k - 1].key.id;
    assert forall|i: int, j: int| 0 <= i < j < rest.len() implies (#[trigger] rest[i]).key.id < (#[trigger] rest[j]).key.id by {
        assert(rest[i] == pending[i + 1] && rest[j] == pending[j + 1]);
    }
    if k == 1 {
        assert forall|i: int| 0 <= i < rest.len() implies (#[trigger] rest[i]).key.id > id by {
            assert(rest[i] == pending[i + 1]);
            assert(pending[0].key.id < pending[i + 1].key.id);
        }
        behind_all(rest, id);
        assert(rest == pending.skip(k));
    } else {
        assert(pending[0].key.id < pending[k - 1].key.id);
        behind_place(rest, k - 1);
        assert(rest[k - 2] == pending[k - 1]);
        assert(rest.skip(k - 1) == pending.skip(k));
    }
}

/// The cursor behind the first `k` records.
spec fn cursor_at(pending: Seq<EmbeddingInput>, k: int) -> Option<i64> {
    if k == 0 {
        None
    } else {
        Some(pending[k - 1].key.id)
    }
}

proof fn rest_is_handed_over(pending: Seq<EmbeddingInput>, k: int, pages: Seq<Seq<EmbeddingInput>>)
    requires
        by_id(pending),
        0 <= k <= pending.len(),
        whole_run(pending, cursor_at(pending, k), pages),
    ensures
        handed_over(pages) == with_text(pending.skip(k)),
    decreases pages.len(),
{
    let rest = pending.skip(k);
    if k == 0 {
        assert(rest == pending);
    } else {
        behind_place(pending, k);
    }
    assert(behind(pending, cursor_at(pending, k)) == rest);
    if pages.len() == 0 {
        assert(with_text(rest) == Seq::<EmbeddingInput>::empty());
    } else {
        let page = pages[0];
        let next = k + page.len();
        assert(page == rest.take(page.len() as int));
        assert(page.last() == pending[next - 1]);
        rest_is_handed_over(pending, next, pages.drop_first());
        assert(rest == page + pending.skip(next));
        with_text_of_sum(page, pending.skip(next));
    }
}

/// A run to the end hands every record that has text to the embedder, each once and in order.
pub proof fn run_hands_over_all(pending: Seq<EmbeddingInput>, pages: Seq<Seq<EmbeddingInput>>)
    requires
        by_id(pending),
        whole_run(pending, None, pages),
    ensures
        handed_over(pages) == with_text(pending),
{
    rest_is_handed_over(pending, 0, pages);
    assert(pending.skip(0) == pending);
}

proof fn without_text_in_order(list: Seq<EmbeddingInput>)
    requires
        by_id(list),
    ensures
        by_id(without_text(list)),
        with_text(without_text(list)).len() == 0,
        forall|i: int| 0 <= i < without_text(list).len() ==> (#[trigger] without_text(list)[i]).key.id >= list[0].key.id,
    decreases list.len(),
{
    if list.len() > 0 {
        let rest = list.drop_first();
        let left = without_text(rest);
        let all = without_text(list);
        assert forall|i: int, j: int| 0 <= i < j < rest.len() implies (#[trigger] rest[i]).key.id < (#[trigger] rest[j]).key.id by {
            assert(rest[i] == list[i + 1] && rest[j] == list[j + 1]);
        }
        without_text_in_order(rest);
        assert forall|i: int| 0 <= i < left.len() implies (#[trigger] left[i]).key.id > list[0].key.id by {
            assert(left[i].key.id >= rest[0].key.id);
            assert(rest.len() > 0);
            assert(list[0].key.id < list[1].key.id);
        }
        if !has_text(list[0]) {
            assert(all.drop_first() == left);
            assert forall|i: int, j: int| 0 <= i < j < all.len() implies (#[trigger] all[i]).key.id < (#[trigger] all[j]).key.id by {
                assert(all[j] == left[j - 1]);
                if i > 0 {
                    assert(all[i] == left[i - 1]);
                }
            }
            assert forall|i: int| 0 <= i < all.len() implies (#[trigger] all[i]).key.id >= list[0].key.id by {
                if i > 0 {
                    assert(all[i] == left[i - 1]);
                }
            }
        } else {
            assert(all == left);
        }
    }
}

proof fn pages_are_handed_over(pages: Seq<Seq<EmbeddingInput>>, k: int)
    requires
        0 <= k < pages.len(),
    ensures
        with_text(pages[k]).len() <= handed_over(pages).len(),
    decreases pages.len(),
{
    if k > 0 {
        pages_are_handed_over(pages.drop_first(), k - 1);
    }
}

/// After a run that got through, a second one over the same records calls no embedder and writes
/// nothing: none of its pages holds a record with text.
pub proof fn second_run_is_idle(pending: Seq<EmbeddingInput>, pages: Seq<Seq<EmbeddingInput>>)
    requires
        by_id(pending),
        whole_run(without_text(pending), None, pages),
    ensures
        handed_over(pages).len() == 0,
        forall|k: int| 0 <= k < pages.len() ==> with_text(#[trigger] pages[k]).len() == 0,
{
    without_text_in_order(pending);
    run_hands_over_all(without_text(pending), pages);
    assert forall|k: int| 0 <= k < pages.len() implies with_text(#[trigger] pages[k]).len() == 0 by {
        pages_are_handed_over(pages, k);
    }
}

proof fn call_fits_its_page(candidates: Seq<EmbeddingInput>)
    ensures
        with_text(candidates).len() <= candidates.len(),
    decreases candidates.len(),
{
    if candidates.len() > 0 {
        call_fits_its_page(candidates.drop_first());
    }
}

/// No call of an embedder gets more texts than the run's batch size, nor more than the embedder
/// declared.
pub proof fn calls_are_bounded(batch: usize, entry: EmbedderEntry, candidates: Seq<EmbeddingInput>)
    requires
        batch >= 1,
        1 <= entry.effective_batch <= entry.options.max_batch,
        candidates.len() <= page_limit(batch, entry.effective_batch),
    ensures
        with_text(candidates).len() <= batch,
        with_text(candidates).len() <= entry.options.max_batch,
{
    call_fits_its_page(candidates);
}

// ── Writing and deleting vectors ──────────────────────────────────────

/// A record whose vector is to be written: its id, and its fingerprint when its text was read.
#[derive(Debug)]
pub struct PendingWrite {
    pub id: i64,
    pub fingerprint: String,
}

/// The first of the writes that must not go through: its record is gone, or has changed since.
pub open spec fn first_write_error(writes: Seq<PendingWrite>, current: Seq<Option<String>>) -> Option<ErrorView>
    decreases writes.len(),
{
    if writes.len() == 0 {
        None
    } else {
        match current[0] {
            None => Some(ErrorView::NotFound(decimal::integer_text(writes[0].id as int))),
            Some(f) => if f@ != writes[0].fingerprint@ {
                Some(ErrorView::StaleRevision(decimal::integer_text(writes[0].id as int)))
            } else {
                first_write_error(writes.drop_first(), current.drop_first())
            },
        }
    }
}

/// Writing is refused for the first record that is gone or has changed since its text was read, and
/// for no other reason.
pub proof fn first_stale_write_counts(writes: Seq<PendingWrite>, current: Seq<Option<String>>)
    requires
        writes.len() == current.len(),
    ensures
        first_write_error(writes, current) is None <==> forall|i: int|
            0 <= i < writes.len() ==> ((#[trigger] current[i]) matches Some(f) && f@ == writes[i].fingerprint@),
    decreases writes.len(),
{
    if writes.len() > 0 {
        let w = writes.drop_first();
        let c = current.drop_first();
        first_stale_write_counts(w, c);
        let fresh = current[0] matches Some(f) && f@ == writes[0].fingerprint@;
        if fresh && first_write_error(w, c) is None {
            assert forall|i: int| 0 <= i < writes.len() implies ((#[trigger] current[i]) matches Some(f) && f@ == writes[i].fingerprint@) by {
                if i > 0 {
                    assert(c[i - 1] == current[i] && w[i - 1] == writes[i]);
                }
            }
        }
        if forall|i: int| 0 <= i < writes.len() ==> ((#[trigger] current[i]) matches Some(f) && f@ == writes[i].fingerprint@) {
            assert(current[0] matches Some(f) && f@ == writes[0].fingerprint@);
            assert forall|i: int| 0 <= i < w.len() implies ((#[trigger] c[i]) matches Some(f) && f@ == w[i].fingerprint@) by {
                assert(c[i] == current[i + 1] && w[i] == writes[i + 1]);
            }
        }
    }
}

/// Checks a batch of vectors against the fingerprints that the records have now. One record that
/// changed while the embedder ran voids the whole batch.
pub fn check_fingerprints(writes: &Vec<PendingWrite>, current: &Vec<Option<String>>) -> (out: Result<(), Error>)
    requires
        writes.len() == current.len(),
    ensures
        storage::refused(out, first_write_error(writes@, current@)),
        out is Ok <==> forall|i: int|
            0 <= i < writes@.len() ==> ((#[trigger] current@[i]) matches Some(f) && f@ == writes@[i].fingerprint@),
{
    proof {
        first_stale_write_counts(writes@, current@);
    }
    let mut i: usize = 0;
    assert(writes@.skip(0) == writes@);
    assert(current@.skip(0) == current@);
    while i < writes.len()
        invariant
            i <= writes.len(),
            writes.len() == current.len(),
            first_write_error(writes@.skip(i as int), current@.skip(i as int)) == first_write_error(writes@, current@),
        decreases writes.len() - i,
    {
        proof {
            assert(writes@.skip(i as int)[0] == writes@[i as int]);
            assert(current@.skip(i as int)[0] == current@[i as int]);
            assert(writes@.skip(i as int).drop_first() == writes@.skip(i + 1));
            assert(current@.skip(i as int).drop_first() == current@.skip(i + 1));
        }
        match &current[i] {
            None => return Err(Error::NotFound(decimal::decimal_i64(writes[i].id))),
            Some(fingerprint) => {
                if !ordering::same_text(fingerprint.as_str(), writes[i].fingerprint.as_str()) {
                    return Err(Error::StaleRevision(decimal::decimal_i64(writes[i].id)));
                }
            },
        }
        i = i + 1;
    }
    Ok(())
}

/// The rows whose record is not among the live ones, in order.
pub open spec fn orphan_rows(rows: Seq<(i64, String)>, live: Set<i64>) -> Seq<(i64, String)>
    decreases rows.len(),
{
    if rows.len() == 0 {
        rows
    } else if live.contains(rows.last().0) {
        orphan_rows(rows.drop_last(), live)
    } else {
        orphan_rows(rows.drop_last(), live).push(rows.last())
    }
}

/// Orphans are exactly the rows whose record is no longer live.
pub proof fn orphans_are_not_live(rows: Seq<(i64, String)>, live: Set<i64>)
    ensures
        forall|row: (i64, String)| #[trigger] orphan_rows(rows, live).contains(row) <==> rows.contains(row) && !live.contains(row.0),
        orphan_rows(rows, live).len() <= rows.len(),
    decreases rows.len(),
{
    if rows.len() > 0 {
        let rest = rows.drop_last();
        let before = orphan_rows(rest, live);
        let all = orphan_rows(rows, live);
        orphans_are_not_live(rest, live);
        assert(rows[rows.len() - 1] == rows.last());
        assert forall|row: (i64, String)| #[trigger] all.contains(row) <==> rows.contains(row) && !live.contains(row.0) by {
            assert(before.contains(row) <==> rest.contains(row) && !live.contains(row.0));
            if rest.contains(row) {
                let k = choose|k: int| 0 <= k < rest.len() && rest[k] == row;
                assert(rows[k] == row);
            }
            if rows.contains(row) && row != rows.last() {
                let k = choose|k: int| 0 <= k < rows.len() && rows[k] == row;
                assert(rest[k] == row);
            }
            if before.contains(row) {
                let k = choose|k: int| 0 <= k < before.len() && before[k] == row;
                assert(all[k] == row);
            }
            if all.contains(row) && !before.contains(row) {
                let k = choose|k: int| 0 <= k < all.len() && all[k] == row;
                if k < before.len() {
                    assert(before[k] == row);
                }
            }
            if row == rows.last() && !live.contains(row.0) {
                assert(all[before.len() as int] == row);
            }
        }
    }
}

/// The vectors whose records are gone. Vectors live in a file of their own, so that an
/// interruption can leave them behind.
pub fn orphans(live: &Vec<i64>, rows: &Vec<(i64, String)>) -> (out: Vec<(i64, String)>)
    ensures
        out@ == orphan_rows(rows@, live@.to_set()),
        forall|row: (i64, String)| #[trigger] out@.contains(row) <==> rows@.contains(row) && !live@.contains(row.0),
{
    proof {
        orphans_are_not_live(rows@, live@.to_set());
    }
    let set = ids::id_set(live);
    let mut out: Vec<(i64, String)> = Vec::new();
    let mut k: usize = 0;
    assert(rows@.take(0) == Seq::<(i64, String)>::empty());
    while k < rows.len()
        invariant
            k <= rows.len(),
            set@ == live@.to_set(),
            out@ == orphan_rows(rows@.take(k as int), live@.to_set()),
        decreases rows.len() - k,
    {
        assert(rows@.take(k + 1).drop_last() == rows@.take(k as int));
        assert(rows@.take(k + 1).last() == rows@[k as int]);
        if !set.contains(&rows[k].0) {
            out.push((rows[k].0, rows[k].1.clone()));
        }
        k = k + 1;
    }
    assert(rows@.take(rows@.len() as int) == rows@);
    out
}

/// The namespaces of a list of rows, in order, each once.
pub fn namespaces_of(rows: &Vec<(i64, String)>) -> (out: Vec<String>)
    ensures
        ordering::strictly_sorted(chars::texts(out@)),
        forall|t: Seq<char>| #[trigger] chars::texts(out@).contains(t) <==> exists|i: int| 0 <= i < rows@.len() && (#[trigger] rows@[i]).1@ == t,
{
    let mut out: Vec<String> = Vec::new();
    let mut i: usize = 0;
    while i < rows.len()
        invariant
            i <= rows.len(),
            ordering::strictly_sorted(chars::texts(out@)),
            forall|t: Seq<char>| #[trigger] chars::texts(out@).contains(t) <==> exists|k: int| 0 <= k < i && (#[trigger] rows@[k]).1@ == t,
        decreases rows.len() - i,
    {
        let ghost before = chars::texts(out@);
        let _new = ordering::insert_sorted(&mut out, rows[i].1.clone());
        assert forall|t: Seq<char>| #[trigger] chars::texts(out@).contains(t) <==> exists|k: int| 0 <= k < i + 1 && (#[trigger] rows@[k]).1@ == t by {
            if before.contains(t) {
                let k = choose|k: int| 0 <= k < i && (#[trigger] rows@[k]).1@ == t;
                assert(rows@[k].1@ == t);
            }
            if t == rows@[i as int].1@ {
                assert(rows@[i as int].1@ == t);
            }
            if exists|k: int| 0 <= k < i + 1 && (#[trigger] rows@[k]).1@ == t {
                let k = choose|k: int| 0 <= k < i + 1 && (#[trigger] rows@[k]).1@ == t;
                if k < i {
                    assert(before.contains(t));
                }
            }
        }
        i = i + 1;
    }
    out
}

} // verus!
