//! Importing from other memory stores: what a row of a source table becomes.
//!
//! Sources are read by the program around the library, one row at a time; a row is the JSON object
//! of its columns. What is made of the rows are drafts, which refer to each other by keys until the
//! records have ids.

use crate::chars;
use crate::error::{Error, ErrorView};
use crate::json;
use crate::json::{Json, Number, NumberTree, Tree};
use crate::ordering;
use crate::rendering;
use crate::storage;
use crate::types;
use crate::types::{Evidence, EvidenceView, Metadata, RecordInput, RecordInputView};
use vstd::prelude::*;

verus! {

// ── Requests ──────────────────────────────────────────────────────────

/// Which store the rows come from.
#[derive(Debug, Clone, Copy, PartialEq, Eq, Structural)]
pub enum LegacySource {
    Pai,
    WorldTree,
    AngelMemory,
}

/// The name of a source.
pub open spec fn source_name(source: LegacySource) -> Seq<char> {
    match source {
        LegacySource::Pai => "p_ai"@,
        LegacySource::WorldTree => "world_tree"@,
        LegacySource::AngelMemory => "angel_memory"@,
    }
}

impl LegacySource {
    pub fn as_str(self) -> (out: &'static str)
        ensures
            out@ == source_name(self),
            self == LegacySource::Pai ==> out@ == "p_ai"@,
            self == LegacySource::WorldTree ==> out@ == "world_tree"@,
            self == LegacySource::AngelMemory ==> out@ == "angel_memory"@,
    {
        match self {
            LegacySource::Pai => "p_ai",
            LegacySource::WorldTree => "world_tree",
            LegacySource::AngelMemory => "angel_memory",
        }
    }
}

/// An import only shows what it would do unless it is asked to apply it.
pub fn dry_run() -> (out: bool)
    ensures
        out,
{
    true
}

/// What to import, and where to. Paths are given as texts.
#[derive(Debug)]
pub struct ImportRequest {
    pub source: LegacySource,
    /// A stable name of the host; it is kept on later imports.
    pub source_id: String,
    pub database: String,
    pub destination: String,
    pub graph_database: Option<String>,
    pub lookup_database: Option<String>,
    /// Only files below this directory are read as notes.
    pub notes_root: Option<String>,
    pub namespace: String,
    pub scope: String,
    pub dry_run: bool,
}

/// The id that a row of the source got.
#[derive(Debug)]
pub struct IdMapping {
    pub source_table: String,
    pub source_id: String,
    pub target_id: i64,
}

/// What came of an import.
#[derive(Debug)]
pub struct ImportReport {
    pub source_id: String,
    pub source_fingerprint: String,
    pub applied: bool,
    pub already_imported: bool,
    pub counts: Vec<(String, u64)>,
    pub id_map: Vec<IdMapping>,
    pub conflicts: Vec<String>,
    pub missing_sources: Vec<String>,
    pub warnings: Vec<String>,
    pub index_ready: bool,
    pub index_error: Option<String>,
}

/// Why a request is refused, if it is.
pub open spec fn import_error(req: ImportRequest) -> Option<ErrorView> {
    if !storage::identity(req.source_id@) {
        Some(storage::identity_error("source_id"@))
    } else if !storage::identity(req.namespace@) {
        Some(storage::identity_error("namespace"@))
    } else if !storage::identity(req.scope@) {
        Some(storage::identity_error("scope"@))
    } else if req.source != LegacySource::WorldTree && (req.graph_database is Some || req.lookup_database is Some) {
        Some(ErrorView::Validation("graph_database and lookup_database apply only to world_tree"@))
    } else {
        None
    }
}

/// Checks a request before any source is opened.
pub fn check_import(req: &ImportRequest) -> (out: Result<(), Error>)
    ensures
        storage::refused(out, import_error(*req)),
        out is Ok <==> storage::identity(req.source_id@) && storage::identity(req.namespace@) && storage::identity(req.scope@) && (req.source
            == LegacySource::WorldTree || req.graph_database is None && req.lookup_database is None),
{
    if let Err(error) = storage::validate_identity("source_id", req.source_id.as_str()) {
        return Err(error);
    }
    if let Err(error) = storage::validate_identity("namespace", req.namespace.as_str()) {
        return Err(error);
    }
    if let Err(error) = storage::validate_identity("scope", req.scope.as_str()) {
        return Err(error);
    }
    if req.source != LegacySource::WorldTree && (req.graph_database.is_some() || req.lookup_database.is_some()) {
        return Err(Error::Validation("graph_database and lookup_database apply only to world_tree".to_owned()));
    }
    Ok(())
}

// ── Tables ────────────────────────────────────────────────────────────

/// The tables of memories, of tags, and of which memory has which tag.
pub open spec fn memory_table_names(source: LegacySource) -> (Seq<char>, Seq<char>, Seq<char>) {
    match source {
        LegacySource::Pai => ("memory_record"@, "global_tag"@, "memory_tag_rel"@),
        LegacySource::AngelMemory => ("memory_records"@, "global_tags"@, "memory_tag_rel"@),
        LegacySource::WorldTree => ("world_tree_memory"@, "world_tree_tag"@, "world_tree_memory_tag"@),
    }
}

/// The tables of memories, of tags, and of which memory has which tag.
pub fn memory_tables(source: LegacySource) -> (out: (&'static str, &'static str, &'static str))
    ensures
        (out.0@, out.1@, out.2@) == memory_table_names(source),
        source == LegacySource::Pai ==> out.0@ == "memory_record"@ && out.1@ == "global_tag"@ && out.2@ == "memory_tag_rel"@,
        source == LegacySource::AngelMemory ==> out.0@ == "memory_records"@ && out.1@ == "global_tags"@ && out.2@ == "memory_tag_rel"@,
        source == LegacySource::WorldTree ==> out.0@ == "world_tree_memory"@ && out.1@ == "world_tree_tag"@ && out.2@
            == "world_tree_memory_tag"@,
{
    match source {
        LegacySource::Pai => ("memory_record", "global_tag", "memory_tag_rel"),
        LegacySource::AngelMemory => ("memory_records", "global_tags", "memory_tag_rel"),
        LegacySource::WorldTree => ("world_tree_memory", "world_tree_tag", "world_tree_memory_tag"),
    }
}

/// The table of notes.
pub fn note_table(source: LegacySource) -> (out: &'static str)
    ensures
        out@ == if source == LegacySource::Pai {
            "note_index_record"@
        } else {
            "note_index_records"@
        },
{
    if source == LegacySource::Pai {
        "note_index_record"
    } else {
        "note_index_records"
    }
}

/// A letter, digit or underscore of ASCII.
pub open spec fn name_char(ch: char) -> bool {
    ('0' <= ch && ch <= '9') || ('A' <= ch && ch <= 'Z') || ('a' <= ch && ch <= 'z') || ch == '_'
}

/// Checks the name of a source table, which becomes part of a query.
pub fn check_table_name(table: &str) -> (out: Result<(), Error>)
    ensures
        storage::refused(out, if forall|i: int| 0 <= i < table@.len() ==> name_char(#[trigger] table@[i]) {
            None
        } else {
            Some(ErrorView::Validation("invalid source table"@))
        }),
{
    let letters = chars::chars_of(table);
    let mut i: usize = 0;
    while i < letters.len()
        invariant
            i <= letters.len(),
            letters@ == table@,
            forall|k: int| 0 <= k < i ==> name_char(#[trigger] table@[k]),
        decreases letters.len() - i,
    {
        let ch: char = letters[i];
        let fits = ('0' <= ch && ch <= '9') || ('A' <= ch && ch <= 'Z') || ('a' <= ch && ch <= 'z') || ch == '_';
        if !fits {
            assert(!name_char(table@[i as int]));
            return Err(Error::Validation("invalid source table".to_owned()));
        }
        i = i + 1;
    }
    Ok(())
}

/// Checks that the table of memories is there.
pub fn check_memory_table(source: LegacySource, present: bool) -> (out: Result<(), Error>)
    ensures
        storage::refused(out, if present {
            None
        } else {
            Some(ErrorView::Validation("expected legacy table "@ + memory_table_names(source).0))
        }),
{
    if present {
        Ok(())
    } else {
        Err(Error::Validation(chars::concat("expected legacy table ", memory_tables(source).0)))
    }
}

/// Checks that the table of extracted graphs is there.
pub fn check_graph_table(present: bool) -> (out: Result<(), Error>)
    ensures
        storage::refused(out, if present {
            None
        } else {
            Some(ErrorView::Validation("expected world_tree_graph table"@))
        }),
{
    if present {
        Ok(())
    } else {
        Err(Error::Validation("expected world_tree_graph table".to_owned()))
    }
}

/// Checks that the table of entities is there.
pub fn check_lookup_table(present: bool) -> (out: Result<(), Error>)
    ensures
        storage::refused(out, if present {
            None
        } else {
            Some(ErrorView::Validation("expected entities table in lookup database"@))
        }),
{
    if present {
        Ok(())
    } else {
        Err(Error::Validation("expected entities table in lookup database".to_owned()))
    }
}

// ── Cells ─────────────────────────────────────────────────────────────

/// A cell as text: a text, or a number as it is written; else empty.
pub open spec fn cell(row: Seq<(Seq<char>, Tree)>, key: Seq<char>) -> Seq<char> {
    match json::lookup(row, key) {
        Some(Tree::Text(t)) => t,
        Some(Tree::Number(n)) => n.text,
        _ => Seq::empty(),
    }
}

/// A cell as text.
pub fn string(row: &Metadata, key: &str) -> (out: String)
    ensures
        out@ == cell(row@, key@),
        json::lookup(row@, key@) matches Some(Tree::Text(t)) ==> out@ == t,
        json::lookup(row@, key@) matches Some(Tree::Number(n)) ==> out@ == n.text,
        json::lookup(row@, key@) is None ==> out@.len() == 0,
{
    match json::find(&row.entries, key) {
        Some(Json::Text(t)) => t.clone(),
        Some(Json::Number(n)) => n.text.clone(),
        _ => String::new(),
    }
}

/// The texts of a value: those in a list, or the one that it is.
pub open spec fn texts_or_one(value: Option<Tree>) -> Seq<Seq<char>> {
    match value {
        Some(Tree::Text(t)) => seq![t],
        _ => json::texts_in(value),
    }
}

/// The texts of a value.
pub fn strings(value: Option<&Json>) -> (out: Vec<String>)
    ensures
        chars::texts(out@) == texts_or_one(json::optional_tree(value)),
        json::optional_tree(value) matches Some(Tree::Text(t)) ==> out.len() == 1 && out[0]@ == t,
{
    match value {
        Some(Json::Text(t)) => {
            let mut out: Vec<String> = Vec::new();
            out.push(t.clone());
            assert(chars::texts(out@) == seq![t@]);
            out
        },
        _ => json::as_texts(value),
    }
}

/// A cell as a number; none where it is something else.
pub open spec fn number_cell(row: Seq<(Seq<char>, Tree)>, key: Seq<char>) -> Option<NumberTree> {
    match json::lookup(row, key) {
        Some(Tree::Number(n)) => Some(n),
        _ => None,
    }
}

/// The tree of a number that may be absent.
pub open spec fn optional_number(n: Option<Number>) -> Option<NumberTree> {
    match n {
        Some(n) => Some(json::number_tree(n)),
        None => None,
    }
}

/// A cell as a number; none where it is something else.
pub fn number(row: &Metadata, key: &str) -> (out: Option<Number>)
    ensures
        optional_number(out) == number_cell(row@, key@),
        out is Some <==> json::lookup(row@, key@) matches Some(Tree::Number(_)),
{
    match json::find(&row.entries, key) {
        Some(Json::Number(n)) => Some(json::copy_number(n)),
        _ => None,
    }
}

/// A copy of a number that may be absent.
pub fn copy_number(n: &Option<Number>) -> (out: Option<Number>)
    ensures
        out == *n,
{
    match n {
        Some(n) => Some(json::copy_number(n)),
        None => None,
    }
}

// ── Times ─────────────────────────────────────────────────────────────

/// How times without an offset are written.
pub open spec fn plain_format() -> Seq<char> {
    "%Y-%m-%dT%H:%M:%S%.f"@
}

/// What chrono reads in a text of RFC 3339: microseconds since 1970, none where it reads none.
pub uninterp spec fn rfc3339_time(text: Seq<char>) -> Option<i64>;

/// What chrono reads in a text under a format without an offset, as a time of UTC: microseconds
/// since 1970, none where it reads none.
pub uninterp spec fn formatted_time(text: Seq<char>, format: Seq<char>) -> Option<i64>;

/// The time in a text of RFC 3339: `chrono::DateTime::parse_from_rfc3339`, as microseconds since
/// 1970. The result depends on the text alone; which texts are read is not stated.
#[verifier::external_body]
fn read_rfc3339(text: &str) -> (out: Option<i64>)
    ensures
        out == rfc3339_time(text@),
{
    chrono::DateTime::parse_from_rfc3339(text).ok().map(|time| time.timestamp_micros())
}

/// The time in a text under a format: `chrono::NaiveDateTime::parse_from_str`, taken as UTC, as
/// microseconds since 1970. The result depends on the text and the format alone; which texts are
/// read is not stated.
#[verifier::external_body]
fn read_formatted(text: &str, format: &str) -> (out: Option<i64>)
    ensures
        out == formatted_time(text@, format@),
{
    chrono::NaiveDateTime::parse_from_str(text, format).ok().map(|time| time.and_utc().timestamp_micros())
}

/// A value read as a number of seconds. Reading it takes floating point arithmetic, so it is read
/// outside and handed in.
#[derive(Debug, Clone, Copy, PartialEq, Eq, Structural)]
pub enum Seconds {
    /// The value is no number.
    NoNumber,
    /// Its microseconds do not fit.
    OutOfRange,
    Micros(i64),
}

/// The time of a value that was read as seconds.
pub open spec fn seconds_time(value: Tree, key: Seq<char>, seconds: Seconds) -> Result<Option<i64>, ErrorView> {
    match seconds {
        Seconds::Micros(us) => Ok(Some(us)),
        Seconds::OutOfRange => Err(ErrorView::Validation("source timestamp out of range"@)),
        Seconds::NoNumber => Err(
            ErrorView::Validation("invalid source timestamp "@ + key + ": "@ + rendering::rendered(value)),
        ),
    }
}

/// The time in a cell: none where the cell is empty, else a time of RFC 3339, a time without an
/// offset, or a number of seconds.
pub open spec fn time_of(value: Option<Tree>, key: Seq<char>, seconds: Seconds) -> Result<Option<i64>, ErrorView> {
    match value {
        None => Ok(None),
        Some(Tree::Null) => Ok(None),
        Some(Tree::Text(s)) => if chars::blank(s) {
            Ok(None)
        } else if rfc3339_time(s) is Some {
            Ok(rfc3339_time(s))
        } else if formatted_time(chars::trim(s), plain_format()) is Some {
            Ok(formatted_time(chars::trim(s), plain_format()))
        } else {
            seconds_time(Tree::Text(s), key, seconds)
        },
        Some(Tree::Number(n)) => seconds_time(Tree::Number(n), key, seconds),
        Some(other) => seconds_time(other, key, Seconds::NoNumber),
    }
}

/// The result is the wanted value or the wanted error.
pub open spec fn outcome<T>(out: Result<T, Error>, want: Result<T, ErrorView>) -> bool {
    match want {
        Ok(value) => out == Ok::<T, Error>(value),
        Err(error) => out is Err && (out->Err_0)@ == error,
    }
}

fn read_seconds(value: &Json, key: &str, seconds: Seconds) -> (out: Result<Option<i64>, Error>)
    ensures
        outcome(out, seconds_time(json::tree(*value), key@, seconds)),
{
    match seconds {
        Seconds::Micros(us) => Ok(Some(us)),
        Seconds::OutOfRange => Err(Error::Validation("source timestamp out of range".to_owned())),
        Seconds::NoNumber => {
            let mut message = chars::concat("invalid source timestamp ", key);
            message.append(": ");
            message.append(rendering::render(value).as_str());
            Err(Error::Validation(message))
        },
    }
}

/// The time in a cell. `times` are what chrono reads in its text: as RFC 3339, and without an offset.
pub fn choose_time(value: Option<&Json>, key: &str, times: (Option<i64>, Option<i64>), seconds: Seconds) -> (out: Result<Option<i64>, Error>)
    ensures
        outcome(out, match json::optional_tree(value) {
            None => Ok(None),
            Some(Tree::Null) => Ok(None),
            Some(Tree::Text(s)) => if chars::blank(s) {
                Ok(None)
            } else if times.0 is Some {
                Ok(times.0)
            } else if times.1 is Some {
                Ok(times.1)
            } else {
                seconds_time(Tree::Text(s), key@, seconds)
            },
            Some(Tree::Number(n)) => seconds_time(Tree::Number(n), key@, seconds),
            Some(other) => seconds_time(other, key@, Seconds::NoNumber),
        }),
{
    match value {
        None => Ok(None),
        Some(found) => match found {
            Json::Null => Ok(None),
            Json::Text(s) => {
                if chars::is_blank(s.as_str()) {
                    Ok(None)
                } else if times.0.is_some() {
                    Ok(times.0)
                } else if times.1.is_some() {
                    Ok(times.1)
                } else {
                    read_seconds(found, key, seconds)
                }
            },
            Json::Number(_) => read_seconds(found, key, seconds),
            _ => read_seconds(found, key, Seconds::NoNumber),
        },
    }
}

/// The time in a cell.
pub fn timestamp(row: &Metadata, key: &str, seconds: Seconds) -> (out: Result<Option<i64>, Error>)
    ensures
        outcome(out, time_of(json::lookup(row@, key@), key@, seconds)),
        json::lookup(row@, key@) is None || json::lookup(row@, key@) == Some(Tree::Null) ==> out == Ok::<Option<i64>, Error>(None),
        json::lookup(row@, key@) matches Some(Tree::Text(s)) ==> ({
            let plain = formatted_time(chars::trim(s), "%Y-%m-%dT%H:%M:%S%.f"@);
            &&& chars::blank(s) ==> out == Ok::<Option<i64>, Error>(None)
            &&& !chars::blank(s) && rfc3339_time(s) is Some ==> out == Ok::<Option<i64>, Error>(rfc3339_time(s))
            &&& !chars::blank(s) && rfc3339_time(s) is None && plain is Some ==> out == Ok::<Option<i64>, Error>(plain)
        }),
        json::lookup(row@, key@) matches Some(Tree::Number(_)) ==> match seconds {
            Seconds::Micros(us) => out == Ok::<Option<i64>, Error>(Some(us)),
            _ => out is Err,
        },
        json::lookup(row@, key@) matches Some(Tree::Bool(_)) ==> out is Err,
{
    let value = json::find(&row.entries, key);
    let times: (Option<i64>, Option<i64>) = match value {
        Some(Json::Text(s)) => (
            read_rfc3339(s.as_str()),
            read_formatted(chars::trimmed(s.as_str()).as_str(), "%Y-%m-%dT%H:%M:%S%.f"),
        ),
        _ => (None, None),
    };
    choose_time(value, key, times, seconds)
}

// ── Rows ──────────────────────────────────────────────────────────────

/// The times of a row that were read as seconds.
#[derive(Debug, Clone, Copy)]
pub struct RowSeconds {
    pub created: Seconds,
    pub updated: Seconds,
    pub recalled: Seconds,
    pub decayed: Seconds,
}

/// A row of a source table, and what was parsed of it: the object in its column `metadata_json`, or
/// why that is none, and its times as seconds.
#[derive(Debug)]
pub struct SourceRow {
    pub fields: Metadata,
    pub metadata: Result<Metadata, String>,
    pub seconds: RowSeconds,
}

/// The text that a row's metadata is parsed from; none where the row has none, and its metadata is
/// empty.
pub fn metadata_text(fields: &Metadata) -> (out: Option<String>)
    ensures
        types::optional_text(out) == match json::lookup(fields@, "metadata_json"@) {
            Some(Tree::Text(t)) => if chars::blank(t) {
                None
            } else {
                Some(t)
            },
            _ => None,
        },
{
    match json::find(&fields.entries, "metadata_json") {
        Some(Json::Text(t)) => {
            if chars::is_blank(t.as_str()) {
                None
            } else {
                Some(t.clone())
            }
        },
        _ => None,
    }
}

/// The namespace of a record: below that of the request where the source has domains.
pub open spec fn domain_namespace(source: LegacySource, namespace: Seq<char>, domain: Seq<char>) -> Seq<char> {
    if source == LegacySource::WorldTree && !chars::blank(domain) {
        namespace + "/"@ + chars::trim(domain)
    } else {
        namespace
    }
}

/// The namespace of a record.
pub fn namespace(req: &ImportRequest, domain: &str) -> (out: String)
    ensures
        out@ == domain_namespace(req.source, req.namespace@, domain@),
        req.source == LegacySource::WorldTree && !chars::blank(domain@) ==> out@ == req.namespace@ + "/"@ + chars::trim(domain@),
        req.source != LegacySource::WorldTree || chars::blank(domain@) ==> out@ == req.namespace@,
{
    if req.source == LegacySource::WorldTree && !chars::is_blank(domain) {
        let mut out = chars::concat(req.namespace.as_str(), "/");
        out.append(chars::trimmed(domain).as_str());
        out
    } else {
        req.namespace.clone()
    }
}

/// Where a record comes from, as its metadata tells it.
pub open spec fn origin_pairs(req: ImportRequest, table: Seq<char>, old: Seq<char>, row: Seq<(Seq<char>, Tree)>) -> Seq<(Seq<char>, Tree)> {
    seq![
        ("format"@, Tree::Text(source_name(req.source))),
        ("source_id"@, Tree::Text(req.source_id@)),
        ("table"@, Tree::Text(table)),
        ("id"@, Tree::Text(old)),
        ("row"@, Tree::Object(row)),
    ]
}

/// Where a record comes from, as its metadata tells it.
pub open spec fn origin(req: ImportRequest, table: Seq<char>, old: Seq<char>, row: Seq<(Seq<char>, Tree)>) -> Tree {
    Tree::Object(json::with_fields(Seq::empty(), origin_pairs(req, table, old, row)))
}

/// Either time; the first one that is there.
pub open spec fn first_time(a: Option<i64>, b: Option<i64>) -> Option<i64> {
    if a is Some {
        a
    } else {
        b
    }
}

/// A time that counts from zero where it is absent.
pub open spec fn time_or_zero(t: Option<i64>) -> i64 {
    match t {
        Some(t) => t,
        None => 0,
    }
}

/// The record of a row, or why there is none. Its metadata is that of the row, and tells under
/// `legacy` where the record comes from.
pub open spec fn record_of(req: ImportRequest, table: Seq<char>, old: Seq<char>, row: SourceRow, domain: Seq<char>) -> Result<RecordInputView, ErrorView> {
    let fields = row.fields@;
    let created = time_of(json::lookup(fields, "created_at"@), "created_at"@, row.seconds.created);
    let updated = time_of(json::lookup(fields, "updated_at"@), "updated_at"@, row.seconds.updated);
    if old.len() == 0 {
        Err(ErrorView::Validation("missing source ID in "@ + table))
    } else if row.metadata is Err {
        Err(ErrorView::Json((row.metadata->Err_0)@))
    } else if created is Err {
        Err(created->Err_0)
    } else if updated is Err {
        Err(updated->Err_0)
    } else {
        Ok(
            RecordInputView {
                namespace: domain_namespace(req.source, req.namespace@, domain),
                scope: if chars::blank(cell(fields, "memory_scope"@)) {
                    req.scope@
                } else {
                    cell(fields, "memory_scope"@)
                },
                metadata: json::with_field((row.metadata->Ok_0)@, "legacy"@, origin(req, table, old, fields)),
                created_at_us: Some(time_or_zero(created->Ok_0)),
                updated_at_us: Some(time_or_zero(first_time(updated->Ok_0, created->Ok_0))),
                ..types::default_record()
            },
        )
    }
}

/// The result is the wanted record or the wanted error.
pub open spec fn record_outcome(out: Result<RecordInput, Error>, want: Result<RecordInputView, ErrorView>) -> bool {
    match want {
        Ok(record) => out is Ok && (out->Ok_0)@ == record,
        Err(error) => out is Err && (out->Err_0)@ == error,
    }
}

/// The record of a row. Its id is given when it is written; that of the source stays in its
/// metadata.
pub fn record(req: &ImportRequest, table: &str, old: &str, row: &SourceRow, domain: &str) -> (out: Result<RecordInput, Error>)
    ensures
        record_outcome(out, record_of(*req, table@, old@, *row, domain@)),
{
    if ordering::same_text(old, "") {
        proof {
            reveal_strlit("");
        }
        return Err(Error::Validation(chars::concat("missing source ID in ", table)));
    }
    proof {
        reveal_strlit("");
        if old@.len() == 0 {
            assert(old@ == ""@);
        }
    }
    let mut metadata = match &row.metadata {
        Ok(metadata) => metadata.copy(),
        Err(message) => return Err(Error::Json(message.clone())),
    };
    let mut pairs: Vec<(String, Json)> = Vec::new();
    pairs.push(("format".to_owned(), json::text_value(req.source.as_str())));
    pairs.push(("source_id".to_owned(), json::text_value(req.source_id.as_str())));
    pairs.push(("table".to_owned(), json::text_value(table)));
    pairs.push(("id".to_owned(), json::text_value(old)));
    let fields = json::copy_fields(&row.fields.entries);
    proof {
        json::tree_of_object(fields);
    }
    pairs.push(("row".to_owned(), Json::Object(fields)));
    assert(json::field_trees(pairs@) == origin_pairs(*req, table@, old@, row.fields@));
    let origin_value = json::object_value(pairs);
    json::set_field(&mut metadata.entries, "legacy".to_owned(), origin_value);
    let scope = string(&row.fields, "memory_scope");
    let created = match timestamp(&row.fields, "created_at", row.seconds.created) {
        Ok(time) => time,
        Err(error) => return Err(error),
    };
    let updated = match timestamp(&row.fields, "updated_at", row.seconds.updated) {
        Ok(time) => time,
        Err(error) => return Err(error),
    };
    let mut record = RecordInput::default();
    record.namespace = namespace(req, domain);
    record.scope = if chars::is_blank(scope.as_str()) {
        req.scope.clone()
    } else {
        scope
    };
    record.metadata = metadata;
    record.created_at_us = Some(match created {
        Some(time) => time,
        None => 0,
    });
    record.updated_at_us = Some(match updated {
        Some(time) => time,
        None => match created {
            Some(time) => time,
            None => 0,
        },
    });
    Ok(record)
}

/// Every imported record tells the store, the table and the id that it comes from, and keeps the
/// row as it was.
pub proof fn record_tells_its_origin(req: ImportRequest, table: Seq<char>, old: Seq<char>, row: SourceRow, domain: Seq<char>)
    requires
        record_of(req, table, old, row, domain) is Ok,
    ensures
        ({
            let told = json::lookup((record_of(req, table, old, row, domain)->Ok_0).metadata, "legacy"@);
            &&& told is Some
            &&& json::member(told->0, "format"@) == Some(Tree::Text(source_name(req.source)))
            &&& json::member(told->0, "source_id"@) == Some(Tree::Text(req.source_id@))
            &&& json::member(told->0, "table"@) == Some(Tree::Text(table))
            &&& json::member(told->0, "id"@) == Some(Tree::Text(old))
            &&& json::member(told->0, "row"@) == Some(Tree::Object(row.fields@))
        }),
{
    let pairs = origin_pairs(req, table, old, row.fields@);
    let none = Seq::<(Seq<char>, Tree)>::empty();
    json::set_then_find((row.metadata->Ok_0)@, "legacy"@, origin(req, table, old, row.fields@), "legacy"@);
    origin_keys_differ();
    json::set_all_then_find(none, pairs, "format"@, 1);
    json::set_all_then_find(none, pairs, "source_id"@, 2);
    json::set_all_then_find(none, pairs, "table"@, 3);
    json::set_all_then_find(none, pairs, "id"@, 4);
    json::set_all_then_find(none, pairs, "row"@, 5);
}

/// A record keeps the request's scope where the row names none, and is dated by the row: without
/// a time of change it was changed when it was created, and without a time of creation at zero.
/// Every other entry of the row's metadata stays as it was, and nothing else is filled in.
pub proof fn record_takes_its_columns(req: ImportRequest, table: Seq<char>, old: Seq<char>, row: SourceRow, domain: Seq<char>)
    ensures
        ({
            let out = record_of(req, table, old, row, domain);
            let scope = json::lookup(row.fields@, "memory_scope"@);
            let created = json::lookup(row.fields@, "created_at"@);
            let updated = json::lookup(row.fields@, "updated_at"@);
            &&& old.len() == 0 || row.metadata is Err ==> out is Err
            &&& old.len() > 0 && row.metadata is Ok && created is None && updated is None ==> out is Ok
            &&& out matches Ok(r) ==> {
                &&& scope is None ==> r.scope == req.scope@
                &&& scope matches Some(Tree::Text(s)) ==> r.scope == if chars::blank(s) {
                    req.scope@
                } else {
                    s
                }
                &&& created is None ==> r.created_at_us == Some(0i64)
                &&& (created matches Some(Tree::Number(_))) ==> (row.seconds.created matches Seconds::Micros(at) && r.created_at_us == Some(at))
                &&& updated is None ==> r.updated_at_us == r.created_at_us
                &&& (updated matches Some(Tree::Number(_))) ==> (row.seconds.updated matches Seconds::Micros(at) && r.updated_at_us == Some(at))
                &&& req.source != LegacySource::WorldTree ==> r.namespace == req.namespace@
                &&& forall|key: Seq<char>|
                    key != "legacy"@ ==> #[trigger] json::lookup(r.metadata, key) == json::lookup((row.metadata->Ok_0)@, key)
                &&& r.tags == types::default_record().tags
                &&& r.evidence == types::default_record().evidence
            }
        }),
{
    let out = record_of(req, table, old, row, domain);
    if let Ok(r) = out {
        assert forall|key: Seq<char>| key != "legacy"@ implies #[trigger] json::lookup(r.metadata, key) == json::lookup(
            (row.metadata->Ok_0)@,
            key,
        ) by {
            json::set_then_find((row.metadata->Ok_0)@, "legacy"@, origin(req, table, old, row.fields@), key);
        }
        if json::lookup(row.fields@, "memory_scope"@) is None {
            assert(chars::blank(cell(row.fields@, "memory_scope"@)));
        }
    }
}

proof fn origin_keys_differ()
    ensures
        "format"@ != "source_id"@ && "format"@ != "table"@ && "format"@ != "id"@ && "format"@ != "row"@,
        "source_id"@ != "table"@ && "source_id"@ != "id"@ && "source_id"@ != "row"@,
        "table"@ != "id"@ && "table"@ != "row"@,
        "id"@ != "row"@,
{
    reveal_strlit("format");
    reveal_strlit("source_id");
    reveal_strlit("table");
    reveal_strlit("id");
    reveal_strlit("row");
    assert("format"@.len() == 6);
    assert("source_id"@.len() == 9);
    assert("table"@.len() == 5);
    assert("id"@.len() == 2);
    assert("row"@.len() == 3);
}

// ── Tags ──────────────────────────────────────────────────────────────

/// Pairs of texts as characters.
pub open spec fn pair_views(list: Seq<(String, String)>) -> Seq<(Seq<char>, Seq<char>)> {
    Seq::new(list.len(), |i: int| (list[i].0@, list[i].1@))
}

/// Rows as mathematical objects.
pub open spec fn row_views(rows: Seq<Metadata>) -> Seq<Seq<(Seq<char>, Tree)>> {
    Seq::new(rows.len(), |i: int| rows[i]@)
}

/// The name of the last tag with this id.
pub open spec fn tag_name(tags: Seq<Seq<(Seq<char>, Tree)>>, id: Seq<char>) -> Option<Seq<char>>
    decreases tags.len(),
{
    if tags.len() == 0 {
        None
    } else if cell(tags.last(), "id"@) == id {
        Some(cell(tags.last(), "name"@))
    } else {
        tag_name(tags.drop_last(), id)
    }
}

/// Which record has which tag, in the order of the table that says so. Unknown tags are left out.
pub open spec fn tag_pairs(tags: Seq<Seq<(Seq<char>, Tree)>>, relations: Seq<Seq<(Seq<char>, Tree)>>, id_column: Seq<char>) -> Seq<(Seq<char>, Seq<char>)>
    decreases relations.len(),
{
    if relations.len() == 0 {
        Seq::empty()
    } else {
        let before = tag_pairs(tags, relations.drop_last(), id_column);
        match tag_name(tags, cell(relations.last(), "tag_id"@)) {
            Some(name) => before.push((cell(relations.last(), id_column), name)),
            None => before,
        }
    }
}

/// A tag goes by the name of the last row that has its id; without such a row it has none.
pub proof fn last_row_names_the_tag(tags: Seq<Seq<(Seq<char>, Tree)>>, id: Seq<char>)
    ensures
        match tag_name(tags, id) {
            Some(name) => exists|i: int|
                0 <= i < tags.len() && cell(#[trigger] tags[i], "id"@) == id && cell(tags[i], "name"@) == name && forall|j: int|
                    i < j < tags.len() ==> cell(#[trigger] tags[j], "id"@) != id,
            None => forall|i: int| 0 <= i < tags.len() ==> cell(#[trigger] tags[i], "id"@) != id,
        },
    decreases tags.len(),
{
    if tags.len() > 0 {
        let n = tags.len() - 1;
        let before = tags.drop_last();
        assert(tags[n] == tags.last());
        if cell(tags.last(), "id"@) != id {
            last_row_names_the_tag(before, id);
            if let Some(name) = tag_name(before, id) {
                let i = choose|i: int|
                    0 <= i < before.len() && cell(#[trigger] before[i], "id"@) == id && cell(before[i], "name"@) == name && forall|j: int|
                        i < j < before.len() ==> cell(#[trigger] before[j], "id"@) != id;
                assert(tags[i] == before[i]);
                assert forall|j: int| i < j < tags.len() implies cell(#[trigger] tags[j], "id"@) != id by {
                    if j < n {
                        assert(tags[j] == before[j]);
                    }
                }
            } else {
                assert forall|i: int| 0 <= i < tags.len() implies cell(#[trigger] tags[i], "id"@) != id by {
                    if i < n {
                        assert(tags[i] == before[i]);
                    }
                }
            }
        }
    }
}

/// A record has a tag exactly where a row of the relation says so and the tag has a name.
pub proof fn tags_follow_the_relation(tags: Seq<Seq<(Seq<char>, Tree)>>, relations: Seq<Seq<(Seq<char>, Tree)>>, id_column: Seq<char>, pair: (Seq<char>, Seq<char>))
    ensures
        tag_pairs(tags, relations, id_column).contains(pair) <==> exists|i: int|
            0 <= i < relations.len() && cell(#[trigger] relations[i], id_column) == pair.0 && tag_name(
                tags,
                cell(relations[i], "tag_id"@),
            ) == Some(pair.1),
    decreases relations.len(),
{
    let all = tag_pairs(tags, relations, id_column);
    if relations.len() > 0 {
        let n = relations.len() - 1;
        let before = relations.drop_last();
        let kept = tag_pairs(tags, before, id_column);
        let last = relations.last();
        tags_follow_the_relation(tags, before, id_column, pair);
        assert(relations[n] == last);
        if kept.contains(pair) {
            let i = choose|i: int|
                0 <= i < before.len() && cell(#[trigger] before[i], id_column) == pair.0 && tag_name(tags, cell(before[i], "tag_id"@)) == Some(
                    pair.1,
                );
            assert(relations[i] == before[i]);
            let k = choose|k: int| 0 <= k < kept.len() && kept[k] == pair;
            assert(all[k] == pair);
        }
        if all.contains(pair) && !kept.contains(pair) {
            let k = choose|k: int| 0 <= k < all.len() && all[k] == pair;
            if k < kept.len() {
                assert(kept[k] == pair);
            }
        }
        if exists|i: int|
            0 <= i < relations.len() && cell(#[trigger] relations[i], id_column) == pair.0 && tag_name(tags, cell(relations[i], "tag_id"@))
                == Some(pair.1) {
            let i = choose|i: int|
                0 <= i < relations.len() && cell(#[trigger] relations[i], id_column) == pair.0 && tag_name(
                    tags,
                    cell(relations[i], "tag_id"@),
                ) == Some(pair.1);
            if i < n {
                assert(before[i] == relations[i]);
                assert(kept.contains(pair));
            } else {
                assert(all == kept.push(pair));
                assert(all[kept.len() as int] == pair);
            }
        }
    }
}

fn find_tag_name(tags: &Vec<Metadata>, id: &str) -> (out: Option<String>)
    ensures
        types::optional_text(out) == tag_name(row_views(tags@), id@),
{
    let ghost all = row_views(tags@);
    let mut i: usize = tags.len();
    assert(all.take(i as int) == all);
    while i > 0
        invariant
            i <= tags.len(),
            all == row_views(tags@),
            tag_name(all.take(i as int), id@) == tag_name(all, id@),
        decreases i,
    {
        assert(all.take(i as int).last() == tags@[i - 1]@);
        assert(all.take(i as int).drop_last() == all.take(i - 1));
        if ordering::same_text(string(&tags[i - 1], "id").as_str(), id) {
            return Some(string(&tags[i - 1], "name"));
        }
        i = i - 1;
    }
    None
}

/// Which record has which tag.
pub fn tag_map(tags: &Vec<Metadata>, relations: &Vec<Metadata>, id_column: &str) -> (out: Vec<(String, String)>)
    ensures
        pair_views(out@) == tag_pairs(row_views(tags@), row_views(relations@), id_column@),
{
    let ghost all = row_views(relations@);
    let mut out: Vec<(String, String)> = Vec::new();
    let mut i: usize = 0;
    while i < relations.len()
        invariant
            i <= relations.len(),
            all == row_views(relations@),
            pair_views(out@) == tag_pairs(row_views(tags@), all.take(i as int), id_column@),
        decreases relations.len() - i,
    {
        let ghost before = pair_views(out@);
        assert(all.take(i + 1).last() == relations@[i as int]@);
        assert(all.take(i + 1).drop_last() == all.take(i as int));
        if let Some(name) = find_tag_name(tags, string(&relations[i], "tag_id").as_str()) {
            out.push((string(&relations[i], id_column), name));
            assert(pair_views(out@) == before.push((cell(relations@[i as int]@, id_column@), name@)));
        }
        i = i + 1;
    }
    assert(all.take(all.len() as int) == all);
    out
}

/// The second members of the pairs whose first is this, in order.
pub open spec fn paired(list: Seq<(Seq<char>, Seq<char>)>, id: Seq<char>) -> Seq<Seq<char>>
    decreases list.len(),
{
    if list.len() == 0 {
        Seq::empty()
    } else if list.last().0 == id {
        paired(list.drop_last(), id).push(list.last().1)
    } else {
        paired(list.drop_last(), id)
    }
}

/// The tags of an id are exactly those that some pair gives it.
pub proof fn paired_are_the_pairs(list: Seq<(Seq<char>, Seq<char>)>, id: Seq<char>, t: Seq<char>)
    ensures
        paired(list, id).contains(t) <==> list.contains((id, t)),
        paired(list, id).len() <= list.len(),
    decreases list.len(),
{
    if list.len() > 0 {
        let before = list.drop_last();
        let n = list.len() - 1;
        paired_are_the_pairs(before, id, t);
        if before.contains((id, t)) {
            let i = choose|i: int| 0 <= i < before.len() && before[i] == (id, t);
            assert(list[i] == (id, t));
        }
        if list.contains((id, t)) && !before.contains((id, t)) {
            let i = choose|i: int| 0 <= i < list.len() && list[i] == (id, t);
            if i < n {
                assert(before[i] == (id, t));
            }
        }
        let kept = paired(before, id);
        if list.last().0 == id {
            let all = kept.push(list.last().1);
            assert(paired(list, id) == all);
            if kept.contains(t) {
                let i = choose|i: int| 0 <= i < kept.len() && kept[i] == t;
                assert(all[i] == t);
            }
            if list.last().1 == t {
                assert(all[kept.len() as int] == t);
                assert(list[n] == (id, t));
            }
            if all.contains(t) && list.last().1 != t {
                let i = choose|i: int| 0 <= i < all.len() && all[i] == t;
                assert(kept[i] == t);
            }
        }
    }
}

/// The second members of the pairs whose first is this.
pub fn paired_with(list: &Vec<(String, String)>, id: &str) -> (out: Vec<String>)
    ensures
        chars::texts(out@) == paired(pair_views(list@), id@),
{
    let ghost all = pair_views(list@);
    let mut out: Vec<String> = Vec::new();
    let mut i: usize = 0;
    while i < list.len()
        invariant
            i <= list.len(),
            all == pair_views(list@),
            chars::texts(out@) == paired(all.take(i as int), id@),
        decreases list.len() - i,
    {
        let ghost before = chars::texts(out@);
        assert(all.take(i + 1).last() == all[i as int]);
        assert(all.take(i + 1).drop_last() == all.take(i as int));
        if ordering::same_text(list[i].0.as_str(), id) {
            out.push(list[i].1.clone());
            assert(chars::texts(out@) == before.push(list@[i as int].1@));
        }
        i = i + 1;
    }
    assert(all.take(all.len() as int) == all);
    out
}

/// The rows of notes with their tags.
pub open spec fn tagged_rows(rows: Seq<Seq<(Seq<char>, Tree)>>, pairs: Seq<(Seq<char>, Seq<char>)>) -> Seq<Seq<(Seq<char>, Tree)>> {
    Seq::new(
        rows.len(),
        |i: int| json::with_field(rows[i], "tags"@, json::texts_tree(paired(pairs, cell(rows[i], "source_id"@)))),
    )
}

/// Each row gets the tags paired with its source id, and keeps all else.
pub proof fn tagging_writes_the_tags(rows: Seq<Seq<(Seq<char>, Tree)>>, pairs: Seq<(Seq<char>, Seq<char>)>)
    ensures
        tagged_rows(rows, pairs).len() == rows.len(),
        forall|i: int|
            0 <= i < rows.len() ==> json::lookup(#[trigger] tagged_rows(rows, pairs)[i], "tags"@) == Some(
                json::texts_tree(paired(pairs, cell(rows[i], "source_id"@))),
            ),
        forall|i: int, key: Seq<char>|
            0 <= i < rows.len() && key != "tags"@ ==> #[trigger] json::lookup(tagged_rows(rows, pairs)[i], key) == json::lookup(rows[i], key),
{
    assert forall|i: int| 0 <= i < rows.len() implies json::lookup(#[trigger] tagged_rows(rows, pairs)[i], "tags"@) == Some(
        json::texts_tree(paired(pairs, cell(rows[i], "source_id"@))),
    ) by {
        json::set_then_find(rows[i], "tags"@, json::texts_tree(paired(pairs, cell(rows[i], "source_id"@))), "tags"@);
    }
    assert forall|i: int, key: Seq<char>| 0 <= i < rows.len() && key != "tags"@ implies #[trigger] json::lookup(
        tagged_rows(rows, pairs)[i],
        key,
    ) == json::lookup(rows[i], key) by {
        json::set_then_find(rows[i], "tags"@, json::texts_tree(paired(pairs, cell(rows[i], "source_id"@))), key);
    }
}

/// Writes the tags of notes into their rows.
pub fn tag_notes(rows: Vec<Metadata>, pairs: &Vec<(String, String)>) -> (out: Vec<Metadata>)
    ensures
        row_views(out@) == tagged_rows(row_views(rows@), pair_views(pairs@)),
        out@.len() == rows@.len(),
        forall|i: int|
            0 <= i < rows@.len() ==> json::lookup(#[trigger] row_views(out@)[i], "tags"@) == Some(
                json::texts_tree(paired(pair_views(pairs@), cell(rows@[i]@, "source_id"@))),
            ),
        forall|i: int, key: Seq<char>|
            0 <= i < rows@.len() && key != "tags"@ ==> #[trigger] json::lookup(row_views(out@)[i], key) == json::lookup(rows@[i]@, key),
{
    proof {
        tagging_writes_the_tags(row_views(rows@), pair_views(pairs@));
    }
    let ghost wanted = tagged_rows(row_views(rows@), pair_views(pairs@));
    let ghost all = rows@;
    let mut rest = rows;
    let mut out: Vec<Metadata> = Vec::new();
    let ghost mut done: int = 0;
    while rest.len() > 0
        invariant
            0 <= done <= all.len(),
            rest@ == all.skip(done),
            wanted == tagged_rows(row_views(all), pair_views(pairs@)),
            row_views(out@) == wanted.take(done),
        decreases rest.len(),
    {
        let ghost before = row_views(out@);
        let mut row = rest.remove(0);
        proof {
            assert(row == all[done]);
            assert(rest@ == all.skip(done + 1));
        }
        let tags = paired_with(pairs, string(&row, "source_id").as_str());
        json::set_field(&mut row.entries, "tags".to_owned(), json::texts_value(&tags));
        out.push(row);
        proof {
            assert(row_views(out@) == before.push(wanted[done]));
            assert(wanted.take(done + 1) == wanted.take(done).push(wanted[done]));
            done = done + 1;
        }
    }
    assert(done == all.len()) by {
        assert(all.skip(done).len() == 0);
    }
    assert(wanted.take(wanted.len() as int) == wanted);
    out
}

// ── Evidence ──────────────────────────────────────────────────────────

/// The lines from a first to a last one: the first, and how many; none where there is no first or
/// the last is before it.
pub open spec fn line_range(first: Option<u64>, last: Option<u64>) -> Option<(usize, usize)> {
    match (first, last) {
        (Some(s), Some(e)) => if s > 0 && e >= s {
            Some((s as usize, (e - s + 1) as usize))
        } else {
            None
        },
        _ => None,
    }
}

/// The source that an item names.
pub open spec fn evidence_source(item: Seq<(Seq<char>, Tree)>) -> Seq<char> {
    if cell(item, "source"@).len() == 0 {
        cell(item, "file_path"@)
    } else {
        cell(item, "source"@)
    }
}

/// The evidence of an item that names a source. The item is kept as its metadata.
pub open spec fn evidence_item(item: Seq<(Seq<char>, Tree)>) -> EvidenceView {
    let range = line_range(json::nat_of(json::lookup(item, "line_start"@)), json::nat_of(json::lookup(item, "line_end"@)));
    EvidenceView {
        source: evidence_source(item),
        source_revision: None,
        chunk_id: None,
        offset: match range {
            Some(r) => Some(r.0),
            None => None,
        },
        limit: match range {
            Some(r) => Some(r.1),
            None => None,
        },
        quote: cell(item, "quote"@),
        metadata: item,
    }
}

/// The evidence of those items that are objects and name a source, in order.
pub open spec fn evidence_among(items: Seq<Tree>) -> Seq<EvidenceView>
    decreases items.len(),
{
    if items.len() == 0 {
        Seq::empty()
    } else {
        let before = evidence_among(items.drop_last());
        match items.last() {
            Tree::Object(fields) => if evidence_source(fields).len() > 0 {
                before.push(evidence_item(fields))
            } else {
                before
            },
            _ => before,
        }
    }
}

/// The evidence in a value: a list of items, or one of them.
pub open spec fn evidence_in(value: Option<Tree>) -> Seq<EvidenceView> {
    match value {
        Some(Tree::Array(items)) => evidence_among(items),
        Some(Tree::Object(fields)) => evidence_among(seq![Tree::Object(fields)]),
        _ => Seq::empty(),
    }
}

/// The evidence in a value. Where there is none, the file that the fallback names is the evidence.
pub open spec fn evidence_of(value: Option<Tree>, fallback: Seq<(Seq<char>, Tree)>) -> Seq<EvidenceView> {
    if evidence_in(value).len() > 0 {
        evidence_in(value)
    } else if cell(fallback, "file_path"@).len() > 0 {
        seq![types::bare_evidence(cell(fallback, "file_path"@))]
    } else {
        Seq::empty()
    }
}

/// The lines of an item are its own: where it names a first line and a last one that is not
/// before it, the evidence begins at the first and ends at the last. Its source is what it names,
/// and the file of its path where it names none.
pub proof fn evidence_stands_on_its_lines(item: Seq<(Seq<char>, Tree)>)
    ensures
        ({
            let e = evidence_item(item);
            let first = json::lookup(item, "line_start"@);
            let last = json::lookup(item, "line_end"@);
            &&& e.offset is Some <==> e.limit is Some
            &&& first is None || last is None ==> e.offset is None
            &&& first matches Some(Tree::Number(a)) ==> (last matches Some(Tree::Number(b)) ==> {
                let stated = a.nat is Some && b.nat is Some && 0 < a.nat->0 <= b.nat->0;
                &&& e.offset is Some <==> stated
                &&& stated && b.nat->0 <= usize::MAX ==> e.offset == Some(a.nat->0 as usize) && e.offset->0 + e.limit->0 - 1 == b.nat->0
            })
            &&& json::lookup(item, "source"@) matches Some(Tree::Text(s)) ==> (s.len() > 0 ==> e.source == s)
            &&& json::lookup(item, "source"@) is None ==> (json::lookup(item, "file_path"@) matches Some(Tree::Text(s)) ==> e.source == s)
            &&& json::lookup(item, "quote"@) matches Some(Tree::Text(s)) ==> e.quote == s
            &&& e.metadata == item
            &&& e.chunk_id is None && e.source_revision is None
        }),
{
}

/// Evidence comes from the items that are objects and name a source or a file, one for each and in
/// their order; no other item gives any.
pub proof fn evidence_comes_from_items(items: Seq<Tree>, e: EvidenceView)
    ensures
        evidence_among(items).contains(e) <==> exists|i: int|
            0 <= i < items.len() && (#[trigger] items[i] matches Tree::Object(fields) && evidence_source(fields).len() > 0 && e
                == evidence_item(fields)),
        evidence_among(items).len() <= items.len(),
    decreases items.len(),
{
    let all = evidence_among(items);
    if items.len() > 0 {
        let n = items.len() - 1;
        let before = items.drop_last();
        let kept = evidence_among(before);
        evidence_comes_from_items(before, e);
        assert(items[n] == items.last());
        if kept.contains(e) {
            let i = choose|i: int|
                0 <= i < before.len() && (#[trigger] before[i] matches Tree::Object(fields) && evidence_source(fields).len() > 0 && e
                    == evidence_item(fields));
            assert(items[i] == before[i]);
            let k = choose|k: int| 0 <= k < kept.len() && kept[k] == e;
            assert(all[k] == e);
        }
        if all.contains(e) && !kept.contains(e) {
            let k = choose|k: int| 0 <= k < all.len() && all[k] == e;
            if k < kept.len() {
                assert(kept[k] == e);
            }
        }
        if exists|i: int|
            0 <= i < items.len() && (#[trigger] items[i] matches Tree::Object(fields) && evidence_source(fields).len() > 0 && e
                == evidence_item(fields)) {
            let i = choose|i: int|
                0 <= i < items.len() && (#[trigger] items[i] matches Tree::Object(fields) && evidence_source(fields).len() > 0 && e
                    == evidence_item(fields));
            if i < n {
                assert(before[i] == items[i]);
                assert(kept.contains(e));
            } else {
                assert(all == kept.push(e));
                assert(all[kept.len() as int] == e);
            }
        }
    }
}

/// Appends the evidence of an item, if it has any.
fn push_evidence(out: &mut Vec<Evidence>, item: &Json)
    ensures
        types::evidence_views(final(out)@) == match json::tree(*item) {
            Tree::Object(fields) => if evidence_source(fields).len() > 0 {
                types::evidence_views(old(out)@).push(evidence_item(fields))
            } else {
                types::evidence_views(old(out)@)
            },
            _ => types::evidence_views(old(out)@),
        },
{
    let ghost before = types::evidence_views(out@);
    if let Json::Object(fields) = item {
        proof {
            json::tree_of_object(*fields);
            reveal_strlit("");
        }
        let row = Metadata { entries: json::copy_fields(fields) };
        let mut source = string(&row, "source");
        if ordering::same_text(source.as_str(), "") {
            source = string(&row, "file_path");
        }
        proof {
            let named = cell(row@, "source"@);
            if named.len() == 0 {
                assert(named == ""@);
            }
            if source@.len() == 0 {
                assert(source@ == ""@);
            }
        }
        if !ordering::same_text(source.as_str(), "") {
            let first = json::as_nat(json::find(&row.entries, "line_start"));
            let last = json::as_nat(json::find(&row.entries, "line_end"));
            let range: Option<(usize, usize)> = match (first, last) {
                (Some(s), Some(e)) => if s > 0 && e >= s {
                    Some((s as usize, (e - s + 1) as usize))
                } else {
                    None
                },
                _ => None,
            };
            let quote = string(&row, "quote");
            let offset: Option<usize> = match range {
                Some(r) => Some(r.0),
                None => None,
            };
            let limit: Option<usize> = match range {
                Some(r) => Some(r.1),
                None => None,
            };
            out.push(Evidence { source, source_revision: None, chunk_id: None, offset, limit, quote, metadata: row });
            assert(types::evidence_views(out@) == before.push(out@.last()@));
        }
    }
}

/// Evidence is read in order. One item alone counts as a list of it, and where there is none, the file
/// of the row is the evidence, if it has one.
pub proof fn evidence_falls_back(a: Seq<Tree>, b: Seq<Tree>, fields: Seq<(Seq<char>, Tree)>, value: Option<Tree>, fallback: Seq<(Seq<char>, Tree)>)
    ensures
        evidence_among(a + b) == evidence_among(a) + evidence_among(b),
        evidence_in(Some(Tree::Object(fields))) == evidence_in(Some(Tree::Array(seq![Tree::Object(fields)]))),
        evidence_in(Some(Tree::Array(a))) == evidence_among(a),
        !(value is Some && (value->0 is Array || value->0 is Object)) ==> evidence_in(value).len() == 0,
        evidence_in(value).len() > 0 ==> evidence_of(value, fallback) == evidence_in(value),
        evidence_in(value).len() == 0 && cell(fallback, "file_path"@).len() == 0 ==> evidence_of(value, fallback).len() == 0,
        evidence_in(value).len() == 0 && cell(fallback, "file_path"@).len() > 0 ==> {
            let found = evidence_of(value, fallback);
            &&& found.len() == 1
            &&& found[0].source == cell(fallback, "file_path"@)
            &&& found[0].offset is None && found[0].limit is None
        },
    decreases b.len(),
{
    if b.len() == 0 {
        assert(a + b == a);
        assert(evidence_among(a + b) == evidence_among(a) + evidence_among(b));
    } else {
        evidence_falls_back(a, b.drop_last(), fields, value, fallback);
        assert((a + b).drop_last() == a + b.drop_last());
        assert((a + b).last() == b.last());
        assert(evidence_among(a + b) == evidence_among(a) + evidence_among(b));
    }
}

fn read_evidence(value: Option<&Json>) -> (out: Vec<Evidence>)
    ensures
        types::evidence_views(out@) == evidence_in(json::optional_tree(value)),
{
    let mut out: Vec<Evidence> = Vec::new();
    assert(types::evidence_views(out@) == Seq::<EvidenceView>::empty());
    match value {
        Some(Json::Array(items)) => {
            let ghost all = json::trees(items@);
            proof {
                json::tree_of_array(*items);
            }
            let mut i: usize = 0;
            while i < items.len()
                invariant
                    i <= items.len(),
                    all == json::trees(items@),
                    types::evidence_views(out@) == evidence_among(all.take(i as int)),
                decreases items.len() - i,
            {
                assert(all.take(i + 1).last() == json::tree(items@[i as int]));
                assert(all.take(i + 1).drop_last() == all.take(i as int));
                push_evidence(&mut out, &items[i]);
                i = i + 1;
            }
            assert(all.take(all.len() as int) == all);
        },
        Some(item) => {
            push_evidence(&mut out, item);
            proof {
                if let Json::Object(fields) = item {
                    json::tree_of_object(*fields);
                    let one = seq![json::tree(*item)];
                    assert(one.drop_last() == Seq::<Tree>::empty());
                    assert(evidence_among(one.drop_last()) == Seq::<EvidenceView>::empty());
                    assert(one.last() == json::tree(*item));
                }
            }
        },
        None => {},
    }
    out
}

/// The evidence in a value, with a fallback.
pub fn evidence(value: Option<&Json>, fallback: &Metadata) -> (out: Vec<Evidence>)
    ensures
        types::evidence_views(out@) == evidence_of(json::optional_tree(value), fallback@),
{
    let mut out = read_evidence(value);
    assert(types::evidence_views(out@).len() == out@.len());
    if out.len() == 0 {
        let source = string(fallback, "file_path");
        proof {
            reveal_strlit("");
            if source@.len() == 0 {
                assert(source@ == ""@);
            }
        }
        if !ordering::same_text(source.as_str(), "") {
            let ghost text = source@;
            out.push(Evidence::of_source(source));
            assert(types::evidence_views(out@) == seq![types::bare_evidence(text)]);
        } else {
            assert(types::evidence_views(out@) == Seq::<EvidenceView>::empty());
        }
    }
    out
}

} // verus!
