//! Drafts: the records that an import will write.
//!
//! A draft refers to another by its key, since ids are given only when records are written.

use crate::chars;
use crate::error::{Error, ErrorView};
use crate::json;
use crate::json::{Json, Number, NumberTree, Tree};
use crate::legacy;
use crate::legacy::{ImportRequest, SourceRow};
use crate::ordering;
use crate::types::{RecordInput, RecordInputView};
use vstd::prelude::*;

verus! {

// ── Keys ──────────────────────────────────────────────────────────────

/// What stands between the table and the id in a key.
pub const SEPARATOR: char = '\u{1f}';

/// The key of a draft.
pub open spec fn draft_key(table: Seq<char>, old: Seq<char>) -> Seq<char> {
    table + seq![SEPARATOR] + old
}

/// The key of a draft.
pub fn key(table: &str, old: &str) -> (out: String)
    ensures
        out@ == draft_key(table@, old@),
{
    let mut out = table.to_owned();
    out.push(SEPARATOR);
    assert(out@ == table@ + seq![SEPARATOR]);
    out.append(old);
    out
}

/// Keys tell drafts apart: where the names of the tables hold no separator, equal keys are of the
/// same table and the same id.
pub proof fn keys_tell_drafts_apart(a: Seq<char>, x: Seq<char>, b: Seq<char>, y: Seq<char>)
    requires
        !a.contains(SEPARATOR),
        !b.contains(SEPARATOR),
        draft_key(a, x) == draft_key(b, y),
    ensures
        a == b && x == y,
{
    let k = draft_key(a, x);
    if a.len() < b.len() {
        assert(k[a.len() as int] == SEPARATOR);
        assert(draft_key(b, y)[a.len() as int] == b[a.len() as int]);
        assert(b.contains(SEPARATOR));
    }
    if b.len() < a.len() {
        assert(draft_key(b, y)[b.len() as int] == SEPARATOR);
        assert(k[b.len() as int] == a[b.len() as int]);
        assert(a.contains(SEPARATOR));
    }
    assert(a == k.take(a.len() as int));
    assert(b == k.take(a.len() as int));
    assert(x == k.skip(a.len() as int + 1));
    assert(y == k.skip(a.len() as int + 1));
}

// ── Memories ──────────────────────────────────────────────────────────

/// The state of a memory as its row gives it. The score is left as it was written.
#[derive(Debug)]
pub struct StateDraft {
    pub pinned: bool,
    pub strength: i64,
    pub useful_count: i64,
    pub useful_score: Option<Number>,
    pub last_recalled_at_us: Option<i64>,
    pub last_decay_at_us: Option<i64>,
}

pub struct StateDraftView {
    pub pinned: bool,
    pub strength: i64,
    pub useful_count: i64,
    pub useful_score: Option<NumberTree>,
    pub last_recalled_at_us: Option<i64>,
    pub last_decay_at_us: Option<i64>,
}

impl View for StateDraft {
    type V = StateDraftView;

    open spec fn view(&self) -> StateDraftView {
        StateDraftView {
            pinned: self.pinned,
            strength: self.strength,
            useful_count: self.useful_count,
            useful_score: legacy::optional_number(self.useful_score),
            last_recalled_at_us: self.last_recalled_at_us,
            last_decay_at_us: self.last_decay_at_us,
        }
    }
}

/// A memory to be written.
#[derive(Debug)]
pub struct MemoryDraft {
    pub table: String,
    pub source_id: String,
    pub record: RecordInput,
    pub memory_type: String,
    pub judgment: String,
    pub reasoning: String,
    pub state: Option<StateDraft>,
}

pub struct MemoryDraftView {
    pub table: Seq<char>,
    pub source_id: Seq<char>,
    pub record: RecordInputView,
    pub memory_type: Seq<char>,
    pub judgment: Seq<char>,
    pub reasoning: Seq<char>,
    pub state: Option<StateDraftView>,
}

impl View for MemoryDraft {
    type V = MemoryDraftView;

    open spec fn view(&self) -> MemoryDraftView {
        MemoryDraftView {
            table: self.table@,
            source_id: self.source_id@,
            record: self.record@,
            memory_type: self.memory_type@,
            judgment: self.judgment@,
            reasoning: self.reasoning@,
            state: match self.state {
                Some(state) => Some(state@),
                None => None,
            },
        }
    }
}

/// The views of a list of memories.
pub open spec fn memory_views(list: Seq<MemoryDraft>) -> Seq<MemoryDraftView> {
    Seq::new(list.len(), |i: int| list[i]@)
}

/// The type of a memory by the name that the source has for it.
pub open spec fn memory_type_of(kind: Seq<char>) -> Seq<char> {
    if kind == "知识记忆"@ || kind == ""@ {
        "knowledge"@
    } else if kind == "事件记忆"@ {
        "event"@
    } else if kind == "技能记忆"@ {
        "skill"@
    } else if kind == "任务记忆"@ {
        "task"@
    } else if kind == "情感记忆"@ {
        "emotion"@
    } else {
        kind
    }
}

/// The stored name of a type of memory is never empty. It is stored under itself, and no two of the
/// known types share a name.
pub proof fn memory_types_stay(kind: Seq<char>)
    ensures
        memory_type_of(kind).len() > 0,
        memory_type_of(memory_type_of(kind)) == memory_type_of(kind),
        memory_type_of("知识记忆"@) != memory_type_of("事件记忆"@),
        memory_type_of("知识记忆"@) != memory_type_of("技能记忆"@),
        memory_type_of("知识记忆"@) != memory_type_of("任务记忆"@),
        memory_type_of("知识记忆"@) != memory_type_of("情感记忆"@),
        memory_type_of("事件记忆"@) != memory_type_of("技能记忆"@),
        memory_type_of("事件记忆"@) != memory_type_of("任务记忆"@),
        memory_type_of("事件记忆"@) != memory_type_of("情感记忆"@),
        memory_type_of("技能记忆"@) != memory_type_of("任务记忆"@),
        memory_type_of("技能记忆"@) != memory_type_of("情感记忆"@),
        memory_type_of("任务记忆"@) != memory_type_of("情感记忆"@),
{
    reveal_strlit("");
    reveal_strlit("知识记忆");
    reveal_strlit("事件记忆");
    reveal_strlit("技能记忆");
    reveal_strlit("任务记忆");
    reveal_strlit("情感记忆");
    reveal_strlit("knowledge");
    reveal_strlit("event");
    reveal_strlit("skill");
    reveal_strlit("task");
    reveal_strlit("emotion");
    assert("知识记忆"@[0] != "事件记忆"@[0] && "知识记忆"@[0] != "技能记忆"@[0] && "知识记忆"@[0] != "任务记忆"@[0] && "知识记忆"@[0] != "情感记忆"@[0]);
    assert("事件记忆"@[0] != "技能记忆"@[0] && "事件记忆"@[0] != "任务记忆"@[0] && "事件记忆"@[0] != "情感记忆"@[0]);
    assert("技能记忆"@[0] != "任务记忆"@[0] && "技能记忆"@[0] != "情感记忆"@[0] && "任务记忆"@[0] != "情感记忆"@[0]);
    assert(""@.len() == 0 && "知识记忆"@.len() == 4 && "事件记忆"@.len() == 4 && "技能记忆"@.len() == 4 && "任务记忆"@.len() == 4 && "情感记忆"@.len() == 4);
    assert("skill"@[1] != "event"@[1]);
    assert("task"@.len() == 4);
    assert("event"@[0] == 'e' && "skill"@[0] == 's');
    if kind.len() == 0 {
        assert(kind == ""@);
    }
    assert(memory_type_of("知识记忆"@) == "knowledge"@);
    assert(memory_type_of("事件记忆"@) == "event"@);
    assert(memory_type_of("技能记忆"@) == "skill"@);
    assert(memory_type_of("任务记忆"@) == "task"@);
    assert(memory_type_of("情感记忆"@) == "emotion"@);
}

/// The type of a memory by the name that the source has for it.
pub fn memory_type(kind: String) -> (out: String)
    ensures
        out@ == memory_type_of(kind@),
        out@.len() > 0,
        kind@ == "知识记忆"@ || kind@.len() == 0 ==> out@ == "knowledge"@,
        kind@ == "事件记忆"@ ==> out@ == "event"@,
        kind@ == "技能记忆"@ ==> out@ == "skill"@,
        kind@ == "任务记忆"@ ==> out@ == "task"@,
        kind@ == "情感记忆"@ ==> out@ == "emotion"@,
{
    proof {
        memory_types_stay(kind@);
        reveal_strlit("");
        if kind@.len() == 0 {
            assert(kind@ == ""@);
        }
    }
    if ordering::same_text(kind.as_str(), "知识记忆") || ordering::same_text(kind.as_str(), "") {
        "knowledge".to_owned()
    } else if ordering::same_text(kind.as_str(), "事件记忆") {
        "event".to_owned()
    } else if ordering::same_text(kind.as_str(), "技能记忆") {
        "skill".to_owned()
    } else if ordering::same_text(kind.as_str(), "任务记忆") {
        "task".to_owned()
    } else if ordering::same_text(kind.as_str(), "情感记忆") {
        "emotion".to_owned()
    } else {
        kind
    }
}

/// A time that is there and not zero.
pub open spec fn nonzero(t: Option<i64>) -> Option<i64> {
    match t {
        Some(at) => if at != 0 {
            Some(at)
        } else {
            None
        },
        None => None,
    }
}

fn drop_zero(t: Option<i64>) -> (out: Option<i64>)
    ensures
        out == nonzero(t),
        out != Some(0i64),
        out is Some ==> out == t,
        t is Some && t != Some(0i64) ==> out == t,
{
    match t {
        Some(at) => if at != 0 {
            Some(at)
        } else {
            None
        },
        None => None,
    }
}

/// A cell that says yes: true, or one.
pub open spec fn says_yes(value: Option<Tree>) -> bool {
    value == Some(Tree::Bool(true)) || json::int_of(value) == Some(1i64)
}

fn is_yes(value: Option<&Json>) -> (out: bool)
    ensures
        out == says_yes(json::optional_tree(value)),
        out <==> match value {
            Some(Json::Bool(b)) => *b,
            Some(Json::Number(n)) => n.int == Some(1i64),
            _ => false,
        },
{
    match value {
        Some(Json::Bool(b)) => *b,
        Some(Json::Number(n)) => n.int == Some(1i64),
        _ => false,
    }
}

/// A number, or what stands for it where there is none.
pub open spec fn int_or(value: Option<Tree>, default: i64) -> i64 {
    match json::int_of(value) {
        Some(i) => i,
        None => default,
    }
}

fn read_int(value: Option<&Json>, default: i64) -> (out: i64)
    ensures
        out == int_or(json::optional_tree(value), default),
        out == match value {
            Some(Json::Number(n)) => match n.int {
                Some(i) => i,
                None => default,
            },
            _ => default,
        },
{
    match json::as_int(value) {
        Some(i) => i,
        None => default,
    }
}

/// The record of a row with its tags and its evidence, or why there is none. Evidence and domain
/// stand in the row's metadata.
pub open spec fn tagged_record(req: ImportRequest, table: Seq<char>, row: SourceRow, tags: Seq<Seq<char>>) -> Result<RecordInputView, ErrorView> {
    if row.metadata is Err {
        Err(ErrorView::Json((row.metadata->Err_0)@))
    } else {
        let meta = (row.metadata->Ok_0)@;
        match legacy::record_of(req, table, legacy::cell(row.fields@, "id"@), row, legacy::cell(meta, "domain"@)) {
            Err(error) => Err(error),
            Ok(record) => Ok(
                RecordInputView { tags, evidence: legacy::evidence_of(json::lookup(meta, "evidence"@), meta), ..record },
            ),
        }
    }
}

fn read_record(req: &ImportRequest, table: &str, row: &SourceRow, tags: Vec<String>) -> (out: Result<RecordInput, Error>)
    ensures
        legacy::record_outcome(out, tagged_record(*req, table@, *row, chars::texts(tags@))),
        row.metadata matches Err(message) ==> (out matches Err(e) && e@ == ErrorView::Json(message@)),
        out matches Ok(r) ==> {
            let meta = (row.metadata->Ok_0)@;
            let domain = legacy::cell(meta, "domain"@);
            &&& row.metadata is Ok
            &&& r@.tags == chars::texts(tags@)
            &&& r@.evidence == legacy::evidence_of(json::lookup(meta, "evidence"@), meta)
            &&& req.source == legacy::LegacySource::WorldTree && !chars::blank(domain) ==> r@.namespace == req.namespace@ + "/"@ + chars::trim(domain)
            &&& req.source != legacy::LegacySource::WorldTree || chars::blank(domain) ==> r@.namespace == req.namespace@
            &&& r@.id is None && r@.expected_revision is None
        },
{
    let meta = match &row.metadata {
        Ok(meta) => meta,
        Err(message) => return Err(Error::Json(message.clone())),
    };
    let old = legacy::string(&row.fields, "id");
    let domain = legacy::string(meta, "domain");
    let mut record = match legacy::record(req, table, old.as_str(), row, domain.as_str()) {
        Ok(record) => record,
        Err(error) => return Err(error),
    };
    record.tags = tags;
    record.evidence = legacy::evidence(json::find(&meta.entries, "evidence"), meta);
    Ok(record)
}

/// The memory of a row, or why there is none. `pairs` say which memory has which tag.
pub open spec fn memory_draft_of(req: ImportRequest, row: SourceRow, pairs: Seq<(Seq<char>, Seq<char>)>) -> Result<MemoryDraftView, ErrorView> {
    let fields = row.fields@;
    let table = legacy::memory_table_names(req.source).0;
    let old = legacy::cell(fields, "id"@);
    let record = tagged_record(req, table, row, legacy::paired(pairs, old));
    let recalled = legacy::time_of(json::lookup(fields, "last_recalled_at"@), "last_recalled_at"@, row.seconds.recalled);
    let decayed = legacy::time_of(json::lookup(fields, "last_decay_at"@), "last_decay_at"@, row.seconds.decayed);
    if record is Err {
        Err(record->Err_0)
    } else if recalled is Err {
        Err(recalled->Err_0)
    } else if decayed is Err {
        Err(decayed->Err_0)
    } else {
        Ok(
            MemoryDraftView {
                table,
                source_id: old,
                record: record->Ok_0,
                memory_type: memory_type_of(legacy::cell(fields, "memory_type"@)),
                judgment: legacy::cell(fields, "judgment"@),
                reasoning: legacy::cell(fields, "reasoning"@),
                state: Some(
                    StateDraftView {
                        pinned: says_yes(json::lookup(fields, "is_active"@)),
                        strength: int_or(json::lookup(fields, "strength"@), 1),
                        useful_count: int_or(json::lookup(fields, "useful_count"@), 0),
                        useful_score: legacy::number_cell(fields, "useful_score"@),
                        last_recalled_at_us: nonzero(recalled->Ok_0),
                        last_decay_at_us: nonzero(decayed->Ok_0),
                    },
                ),
            },
        )
    }
}

/// The result is the wanted draft or the wanted error.
pub open spec fn memory_outcome(out: Result<MemoryDraft, Error>, want: Result<MemoryDraftView, ErrorView>) -> bool {
    match want {
        Ok(draft) => out is Ok && (out->Ok_0)@ == draft,
        Err(error) => out is Err && (out->Err_0)@ == error,
    }
}

/// The memory of a row.
pub fn memory_draft(req: &ImportRequest, row: &SourceRow, pairs: &Vec<(String, String)>) -> (out: Result<MemoryDraft, Error>)
    ensures
        memory_outcome(out, memory_draft_of(*req, *row, legacy::pair_views(pairs@))),
        out is Ok ==> drawn_from((out->Ok_0)@, *row) && kind_read(*row, (out->Ok_0).memory_type@),
{
    proof {
        own_names_differ();
    }
    let table = legacy::memory_tables(req.source).0;
    let old = legacy::string(&row.fields, "id");
    let tags = legacy::paired_with(pairs, old.as_str());
    let record = match read_record(req, table, row, tags) {
        Ok(record) => record,
        Err(error) => return Err(error),
    };
    let recalled = match legacy::timestamp(&row.fields, "last_recalled_at", row.seconds.recalled) {
        Ok(time) => time,
        Err(error) => return Err(error),
    };
    let decayed = match legacy::timestamp(&row.fields, "last_decay_at", row.seconds.decayed) {
        Ok(time) => time,
        Err(error) => return Err(error),
    };
    let state = StateDraft {
        pinned: is_yes(json::find(&row.fields.entries, "is_active")),
        strength: read_int(json::find(&row.fields.entries, "strength"), 1),
        useful_count: read_int(json::find(&row.fields.entries, "useful_count"), 0),
        useful_score: legacy::number(&row.fields, "useful_score"),
        last_recalled_at_us: drop_zero(recalled),
        last_decay_at_us: drop_zero(decayed),
    };
    Ok(
        MemoryDraft {
            table: table.to_owned(),
            source_id: old,
            record,
            memory_type: memory_type(legacy::string(&row.fields, "memory_type")),
            judgment: legacy::string(&row.fields, "judgment"),
            reasoning: legacy::string(&row.fields, "reasoning"),
            state: Some(state),
        },
    )
}

/// The memory that keeps an extracted graph as it was, or why there is none.
pub open spec fn graph_memory_of(req: ImportRequest, row: SourceRow, pairs: Seq<(Seq<char>, Seq<char>)>) -> Result<MemoryDraftView, ErrorView> {
    let fields = row.fields@;
    let old = legacy::cell(fields, "id"@);
    match tagged_record(req, "world_tree_graph"@, row, legacy::paired(pairs, old).push("legacy:graph-extraction"@)) {
        Err(error) => Err(error),
        Ok(record) => Ok(
            MemoryDraftView {
                table: "world_tree_graph"@,
                source_id: old,
                record,
                memory_type: "graph_extraction"@,
                judgment: legacy::cell(fields, "judgment"@),
                reasoning: legacy::cell(fields, "reasoning"@),
                state: None,
            },
        ),
    }
}

/// The memory that keeps an extracted graph as it was.
pub fn graph_memory(req: &ImportRequest, row: &SourceRow, pairs: &Vec<(String, String)>) -> (out: Result<MemoryDraft, Error>)
    ensures
        memory_outcome(out, graph_memory_of(*req, *row, legacy::pair_views(pairs@))),
        out is Ok ==> column_says(*row, "id"@, (out->Ok_0).source_id@),
        out is Ok ==> column_says(*row, "judgment"@, (out->Ok_0).judgment@),
        out is Ok ==> column_says(*row, "reasoning"@, (out->Ok_0).reasoning@),
{
    let old = legacy::string(&row.fields, "id");
    let mut tags = legacy::paired_with(pairs, old.as_str());
    let ghost before = chars::texts(tags@);
    tags.push("legacy:graph-extraction".to_owned());
    assert(chars::texts(tags@) == before.push("legacy:graph-extraction"@));
    let record = match read_record(req, "world_tree_graph", row, tags) {
        Ok(record) => record,
        Err(error) => return Err(error),
    };
    Ok(
        MemoryDraft {
            table: "world_tree_graph".to_owned(),
            source_id: old,
            record,
            memory_type: "graph_extraction".to_owned(),
            judgment: legacy::string(&row.fields, "judgment"),
            reasoning: legacy::string(&row.fields, "reasoning"),
            state: None,
        },
    )
}

/// The memories of all rows in order, or the error of the first row that has one. `graphs` says
/// that the rows are extracted graphs.
pub open spec fn memory_drafts_of(req: ImportRequest, rows: Seq<SourceRow>, pairs: Seq<(Seq<char>, Seq<char>)>, graphs: bool) -> Result<Seq<MemoryDraftView>, ErrorView>
    decreases rows.len(),
{
    if rows.len() == 0 {
        Ok(Seq::empty())
    } else {
        match memory_drafts_of(req, rows.drop_last(), pairs, graphs) {
            Err(error) => Err(error),
            Ok(before) => match if graphs {
                graph_memory_of(req, rows.last(), pairs)
            } else {
                memory_draft_of(req, rows.last(), pairs)
            } {
                Err(error) => Err(error),
                Ok(draft) => Ok(before.push(draft)),
            },
        }
    }
}

proof fn memory_error_stays(req: ImportRequest, rows: Seq<SourceRow>, pairs: Seq<(Seq<char>, Seq<char>)>, graphs: bool, n: int)
    requires
        0 <= n <= rows.len(),
        memory_drafts_of(req, rows.take(n), pairs, graphs) is Err,
    ensures
        memory_drafts_of(req, rows, pairs, graphs) == memory_drafts_of(req, rows.take(n), pairs, graphs),
    decreases rows.len(),
{
    if n < rows.len() {
        assert(rows.drop_last().take(n) == rows.take(n));
        memory_error_stays(req, rows.drop_last(), pairs, graphs, n);
    } else {
        assert(rows.take(n) == rows);
    }
}

/// The memories of all rows, or the error of the first row that has one.
pub fn memory_drafts(req: &ImportRequest, rows: &Vec<SourceRow>, pairs: &Vec<(String, String)>, graphs: bool) -> (out: Result<Vec<MemoryDraft>, Error>)
    ensures
        match memory_drafts_of(*req, rows@, legacy::pair_views(pairs@), graphs) {
            Ok(drafts) => out is Ok && memory_views((out->Ok_0)@) == drafts,
            Err(error) => out is Err && (out->Err_0)@ == error,
        },
{
    let ghost p = legacy::pair_views(pairs@);
    let mut out: Vec<MemoryDraft> = Vec::new();
    let mut i: usize = 0;
    assert(memory_views(out@) == Seq::<MemoryDraftView>::empty());
    assert(rows@.take(0) == Seq::<SourceRow>::empty());
    while i < rows.len()
        invariant
            i <= rows.len(),
            p == legacy::pair_views(pairs@),
            memory_drafts_of(*req, rows@.take(i as int), p, graphs) is Ok,
            memory_views(out@) == memory_drafts_of(*req, rows@.take(i as int), p, graphs)->Ok_0,
        decreases rows.len() - i,
    {
        let ghost before = memory_views(out@);
        proof {
            assert(rows@.take(i + 1).last() == rows@[i as int]);
            assert(rows@.take(i + 1).drop_last() == rows@.take(i as int));
        }
        let read = if graphs {
            graph_memory(req, &rows[i], pairs)
        } else {
            memory_draft(req, &rows[i], pairs)
        };
        match read {
            Ok(draft) => {
                out.push(draft);
                assert(memory_views(out@) == before.push(draft@));
            },
            Err(error) => {
                proof {
                    memory_error_stays(*req, rows@, p, graphs, i + 1);
                }
                return Err(error);
            },
        }
        i = i + 1;
    }
    assert(rows@.take(rows@.len() as int) == rows@);
    Ok(out)
}

/// The text is what the column of the row holds: its text, the digits of its number, and nothing
/// where the column is missing or holds something else.
pub open spec fn column_says(row: SourceRow, column: Seq<char>, t: Seq<char>) -> bool {
    let value = json::lookup(row.fields@, column);
    &&& value matches Some(Tree::Text(s)) ==> t == s
    &&& value matches Some(Tree::Number(n)) ==> t == n.text
    &&& !(value matches Some(Tree::Text(_))) && !(value matches Some(Tree::Number(_))) ==> t.len() == 0
}

/// The integer is the one in the column, and `default` where the column has none.
pub open spec fn column_counts(row: SourceRow, column: Seq<char>, default: i64, i: i64) -> bool {
    let value = json::lookup(row.fields@, column);
    &&& value matches Some(Tree::Number(n)) ==> if n.int is Some {
        i == n.int->0
    } else {
        i == default
    }
    &&& !(value matches Some(Tree::Number(_))) ==> i == default
}

/// The time is the one in the column: none where the column is missing, null, blank or zero.
pub open spec fn column_times(row: SourceRow, column: Seq<char>, seconds: legacy::Seconds, t: Option<i64>) -> bool {
    let value = json::lookup(row.fields@, column);
    &&& value is None || value == Some(Tree::Null) ==> t is None
    &&& t != Some(0i64)
    &&& value matches Some(Tree::Text(s)) ==> {
        &&& chars::blank(s) ==> t is None
        &&& !chars::blank(s) && legacy::rfc3339_time(s) is Some && legacy::rfc3339_time(s) != Some(0i64) ==> t == legacy::rfc3339_time(s)
    }
    &&& value matches Some(Tree::Number(_)) ==> (seconds matches legacy::Seconds::Micros(at) && (at != 0 ==> t == Some(at)))
    &&& t is Some ==> value is Some
}

/// Every field of the memory comes from the column of its own name.
pub open spec fn drawn_from(d: MemoryDraftView, row: SourceRow) -> bool {
    let flag = json::lookup(row.fields@, "is_active"@);
    &&& column_says(row, "id"@, d.source_id)
    &&& column_says(row, "judgment"@, d.judgment)
    &&& column_says(row, "reasoning"@, d.reasoning)
    &&& d.state matches Some(state) && {
        &&& flag matches Some(Tree::Bool(b)) ==> state.pinned == b
        &&& flag matches Some(Tree::Number(n)) ==> state.pinned == (n.int == Some(1i64))
        &&& !(flag matches Some(Tree::Bool(_))) && !(flag matches Some(Tree::Number(_))) ==> !state.pinned
        &&& column_counts(row, "strength"@, 1, state.strength)
        &&& column_counts(row, "useful_count"@, 0, state.useful_count)
        &&& match json::lookup(row.fields@, "useful_score"@) {
            Some(Tree::Number(n)) => state.useful_score == Some(n),
            _ => state.useful_score is None,
        }
        &&& column_times(row, "last_recalled_at"@, row.seconds.recalled, state.last_recalled_at_us)
        &&& column_times(row, "last_decay_at"@, row.seconds.decayed, state.last_decay_at_us)
    }
}

/// The kind of a memory is the name that the row gives it; the names of the source's own language
/// stand for the five known kinds, and no name for knowledge.
pub open spec fn kind_read(row: SourceRow, memory_type: Seq<char>) -> bool {
    forall|k: Seq<char>| #[trigger]
        column_says(row, "memory_type"@, k) ==> {
            &&& k.len() == 0 || k == "知识记忆"@ ==> memory_type == "knowledge"@
            &&& k == "事件记忆"@ ==> memory_type == "event"@
            &&& k == "技能记忆"@ ==> memory_type == "skill"@
            &&& k == "任务记忆"@ ==> memory_type == "task"@
            &&& k == "情感记忆"@ ==> memory_type == "emotion"@
            &&& k.len() > 0 && k != "知识记忆"@ && k != "事件记忆"@ && k != "技能记忆"@ && k != "任务记忆"@ && k != "情感记忆"@ ==> memory_type == k
        }
}

proof fn own_names_differ()
    ensures
        "知识记忆"@ != "事件记忆"@,
        "知识记忆"@ != "技能记忆"@,
        "知识记忆"@ != "任务记忆"@,
        "知识记忆"@ != "情感记忆"@,
        "事件记忆"@ != "技能记忆"@,
        "事件记忆"@ != "任务记忆"@,
        "事件记忆"@ != "情感记忆"@,
        "技能记忆"@ != "任务记忆"@,
        "技能记忆"@ != "情感记忆"@,
        "任务记忆"@ != "情感记忆"@,
        ""@.len() == 0,
        forall|k: Seq<char>| k.len() == 0 ==> k == ""@,
        "知识记忆"@.len() == 4,
        "事件记忆"@.len() == 4,
        "技能记忆"@.len() == 4,
        "任务记忆"@.len() == 4,
        "情感记忆"@.len() == 4,
{
    reveal_strlit("知识记忆");
    reveal_strlit("事件记忆");
    reveal_strlit("技能记忆");
    reveal_strlit("任务记忆");
    reveal_strlit("情感记忆");
    reveal_strlit("");
    assert("知识记忆"@[0] == '知' && "事件记忆"@[0] == '事' && "技能记忆"@[0] == '技' && "任务记忆"@[0] == '任' && "情感记忆"@[0] == '情');
    assert forall|k: Seq<char>| k.len() == 0 implies k == ""@ by {
        assert(k =~= ""@);
    }
}

/// A memory takes each of its fields from the column of that name, its tags from the pairs that
/// name it, in their order, and its table from the source.
pub proof fn memory_takes_its_columns(req: ImportRequest, row: SourceRow, pairs: Seq<(Seq<char>, Seq<char>)>)
    requires
        memory_draft_of(req, row, pairs) is Ok,
    ensures
        ({
            let d = memory_draft_of(req, row, pairs)->Ok_0;
            &&& drawn_from(d, row)
            &&& kind_read(row, d.memory_type)
            &&& forall|t: Seq<char>| d.record.tags.contains(t) <==> pairs.contains((d.source_id, t))
            &&& d.source_id.len() > 0
            &&& row.metadata is Ok
        }),
{
    let d = memory_draft_of(req, row, pairs)->Ok_0;
    own_names_differ();
    assert forall|t: Seq<char>| d.record.tags.contains(t) <==> pairs.contains((d.source_id, t)) by {
        legacy::paired_are_the_pairs(pairs, d.source_id, t);
    }
}

/// The memory of an extracted graph takes its texts from their columns, and carries one tag more
/// than the pairs give it.
pub proof fn graph_memory_takes_its_columns(req: ImportRequest, row: SourceRow, pairs: Seq<(Seq<char>, Seq<char>)>)
    requires
        graph_memory_of(req, row, pairs) is Ok,
    ensures
        ({
            let d = graph_memory_of(req, row, pairs)->Ok_0;
            &&& column_says(row, "id"@, d.source_id)
            &&& column_says(row, "judgment"@, d.judgment)
            &&& column_says(row, "reasoning"@, d.reasoning)
            &&& d.memory_type == "graph_extraction"@
            &&& d.table == "world_tree_graph"@
            &&& d.state is None
            &&& d.record.tags.len() > 0 && d.record.tags.last() == "legacy:graph-extraction"@
            &&& forall|t: Seq<char>| d.record.tags.drop_last().contains(t) <==> pairs.contains((d.source_id, t))
        }),
{
    let d = graph_memory_of(req, row, pairs)->Ok_0;
    assert(d.record.tags.drop_last() == legacy::paired(pairs, d.source_id));
    assert forall|t: Seq<char>| d.record.tags.drop_last().contains(t) <==> pairs.contains((d.source_id, t)) by {
        legacy::paired_are_the_pairs(pairs, d.source_id, t);
    }
}

/// A memory belongs where the metadata of its row says: to the namespace of its domain, with the
/// evidence that stands there and the tags that are paired with its id.
pub proof fn memories_belong_to_their_domain(req: ImportRequest, row: SourceRow, pairs: Seq<(Seq<char>, Seq<char>)>)
    ensures
        memory_draft_of(req, row, pairs) matches Ok(d) ==> {
            let meta = (row.metadata->Ok_0)@;
            let domain = legacy::cell(meta, "domain"@);
            &&& row.metadata is Ok
            &&& d.record.tags == legacy::paired(pairs, legacy::cell(row.fields@, "id"@))
            &&& d.record.evidence == legacy::evidence_of(json::lookup(meta, "evidence"@), meta)
            &&& req.source == legacy::LegacySource::WorldTree && !chars::blank(domain) ==> d.record.namespace == req.namespace@ + "/"@ + chars::trim(domain)
            &&& req.source != legacy::LegacySource::WorldTree || chars::blank(domain) ==> d.record.namespace == req.namespace@
        },
{
}

/// All rows are read or none: where each row has a memory there is one for each, in the order of
/// the rows, and else the error of the first row that has none.
pub proof fn one_memory_for_each_row(req: ImportRequest, rows: Seq<SourceRow>, pairs: Seq<(Seq<char>, Seq<char>)>, graphs: bool)
    ensures
        ({
            let one = |row: SourceRow| if graphs {
                graph_memory_of(req, row, pairs)
            } else {
                memory_draft_of(req, row, pairs)
            };
            match memory_drafts_of(req, rows, pairs, graphs) {
                Ok(list) => list.len() == rows.len() && forall|i: int| 0 <= i < rows.len() ==> one(#[trigger] rows[i]) == Ok::<MemoryDraftView, ErrorView>(list[i]),
                Err(error) => exists|i: int|
                    0 <= i < rows.len() && one(#[trigger] rows[i]) == Err::<MemoryDraftView, ErrorView>(error) && forall|j: int|
                        0 <= j < i ==> one(#[trigger] rows[j]) is Ok,
            }
        }),
    decreases rows.len(),
{
    let one = |row: SourceRow| if graphs {
        graph_memory_of(req, row, pairs)
    } else {
        memory_draft_of(req, row, pairs)
    };
    if rows.len() > 0 {
        let before = rows.drop_last();
        one_memory_for_each_row(req, before, pairs, graphs);
        assert forall|i: int| 0 <= i < before.len() implies rows[i] == before[i] by {}
        match memory_drafts_of(req, before, pairs, graphs) {
            Err(error) => {
                let i = choose|i: int|
                    0 <= i < before.len() && one(#[trigger] before[i]) == Err::<MemoryDraftView, ErrorView>(error) && forall|j: int|
                        0 <= j < i ==> one(#[trigger] before[j]) is Ok;
                assert(one(rows[i]) == Err::<MemoryDraftView, ErrorView>(error));
                assert forall|j: int| 0 <= j < i implies one(#[trigger] rows[j]) is Ok by {
                    assert(one(before[j]) is Ok);
                }
            },
            Ok(list) => {
                let n = rows.len() - 1;
                assert forall|j: int| 0 <= j < n implies one(#[trigger] rows[j]) == Ok::<MemoryDraftView, ErrorView>(list[j]) by {
                    assert(one(before[j]) == Ok::<MemoryDraftView, ErrorView>(list[j]));
                }
                assert(rows[n] == rows.last());
            },
        }
    }
}

} // verus!
