//! The records that the store keeps and the requests that read them.

use crate::chars;
use crate::decimal;
use crate::json;
use crate::json::Json;
use vstd::prelude::*;

verus! {

/// The namespace of a record that names none.
pub fn default_namespace() -> (out: String)
    ensures
        out@ == "default"@,
{
    "default".to_owned()
}

/// The scope of a record that names none.
pub fn public_scope() -> (out: String)
    ensures
        out@ == "public"@,
{
    "public".to_owned()
}

/// The page size of a request that names none.
pub fn default_limit() -> (out: usize)
    ensures
        out == 50,
{
    50
}

/// The kinds of records.
#[derive(Debug, Clone, Copy, PartialEq, Eq, Structural, PartialOrd, Ord, Hash)]
pub enum RecordKind {
    Memory,
    Entity,
    Relation,
    Event,
    Note,
    Chunk,
}

/// The name of a kind.
pub open spec fn kind_name(kind: RecordKind) -> Seq<char> {
    match kind {
        RecordKind::Memory => "memory"@,
        RecordKind::Entity => "entity"@,
        RecordKind::Relation => "relation"@,
        RecordKind::Event => "event"@,
        RecordKind::Note => "note"@,
        RecordKind::Chunk => "chunk"@,
    }
}

/// The stored code of a kind.
pub open spec fn kind_code(kind: RecordKind) -> i64 {
    match kind {
        RecordKind::Memory => 0,
        RecordKind::Entity => 1,
        RecordKind::Relation => 2,
        RecordKind::Event => 3,
        RecordKind::Note => 4,
        RecordKind::Chunk => 5,
    }
}

/// The kind that a stored code stands for.
pub open spec fn kind_of_code(code: i64) -> Option<RecordKind> {
    if code == 0 {
        Some(RecordKind::Memory)
    } else if code == 1 {
        Some(RecordKind::Entity)
    } else if code == 2 {
        Some(RecordKind::Relation)
    } else if code == 3 {
        Some(RecordKind::Event)
    } else if code == 4 {
        Some(RecordKind::Note)
    } else if code == 5 {
        Some(RecordKind::Chunk)
    } else {
        None
    }
}

impl RecordKind {
    /// The name of the kind.
    pub fn as_str(self) -> (out: &'static str)
        ensures
            out@ == kind_name(self),
            self == RecordKind::Memory ==> out@ == "memory"@,
            self == RecordKind::Entity ==> out@ == "entity"@,
            self == RecordKind::Relation ==> out@ == "relation"@,
            self == RecordKind::Event ==> out@ == "event"@,
            self == RecordKind::Note ==> out@ == "note"@,
            self == RecordKind::Chunk ==> out@ == "chunk"@,
    {
        match self {
            RecordKind::Memory => "memory",
            RecordKind::Entity => "entity",
            RecordKind::Relation => "relation",
            RecordKind::Event => "event",
            RecordKind::Note => "note",
            RecordKind::Chunk => "chunk",
        }
    }

    /// The code under which the kind is stored.
    pub fn code(self) -> (out: i64)
        ensures
            out == kind_code(self),
            self == RecordKind::Memory <==> out == 0,
            self == RecordKind::Entity <==> out == 1,
            self == RecordKind::Relation <==> out == 2,
            self == RecordKind::Event <==> out == 3,
            self == RecordKind::Note <==> out == 4,
            self == RecordKind::Chunk <==> out == 5,
    {
        match self {
            RecordKind::Memory => 0,
            RecordKind::Entity => 1,
            RecordKind::Relation => 2,
            RecordKind::Event => 3,
            RecordKind::Note => 4,
            RecordKind::Chunk => 5,
        }
    }

    /// The kind of a stored code.
    pub fn from_code(code: i64) -> (out: Option<Self>)
        ensures
            out == kind_of_code(code),
            out is Some <==> 0 <= code <= 5,
            out matches Some(kind) ==> kind_code(kind) == code,
    {
        if code == 0 {
            Some(RecordKind::Memory)
        } else if code == 1 {
            Some(RecordKind::Entity)
        } else if code == 2 {
            Some(RecordKind::Relation)
        } else if code == 3 {
            Some(RecordKind::Event)
        } else if code == 4 {
            Some(RecordKind::Note)
        } else if code == 5 {
            Some(RecordKind::Chunk)
        } else {
            None
        }
    }
}

/// Every kind is read back from its stored code, and no other code stands for it.
pub proof fn kind_code_roundtrip(kind: RecordKind, code: i64)
    ensures
        kind_of_code(kind_code(kind)) == Some(kind),
        kind_of_code(code) == Some(kind) ==> code == kind_code(kind),
{
}

/// Whether `kinds` holds `kind`.
pub fn has_kind(kinds: &Vec<RecordKind>, kind: RecordKind) -> (out: bool)
    ensures
        out == kinds@.contains(kind),
{
    let mut i: usize = 0;
    while i < kinds.len()
        invariant
            i <= kinds.len(),
            forall|k: int| 0 <= k < i ==> kinds@[k] != kind,
        decreases kinds.len() - i,
    {
        if kinds[i] == kind {
            assert(kinds@[i as int] == kind);
            return true;
        }
        i = i + 1;
    }
    false
}

/// A copy of a list of ids.
pub fn copy_ids(ids: &Vec<i64>) -> (out: Vec<i64>)
    ensures
        out@ == ids@,
{
    let mut out: Vec<i64> = Vec::new();
    let mut i: usize = 0;
    while i < ids.len()
        invariant
            i <= ids.len(),
            out@ == ids@.take(i as int),
        decreases ids.len() - i,
    {
        out.push(ids[i]);
        assert(out@ == ids@.take(i + 1));
        i = i + 1;
    }
    assert(ids@.take(ids@.len() as int) == ids@);
    out
}

/// Whether `ids` holds `id`.
pub fn has_id(ids: &Vec<i64>, id: i64) -> (out: bool)
    ensures
        out == ids@.contains(id),
{
    let mut i: usize = 0;
    while i < ids.len()
        invariant
            i <= ids.len(),
            forall|k: int| 0 <= k < i ==> ids@[k] != id,
        decreases ids.len() - i,
    {
        if ids[i] == id {
            assert(ids@[i as int] == id);
            return true;
        }
        i = i + 1;
    }
    false
}

/// The key of a record: the number that the store gave it.
#[derive(Debug, Clone, Copy, PartialEq, Eq, Structural, PartialOrd, Ord, Hash)]
pub struct RecordKey {
    pub id: i64,
}

impl RecordKey {
    pub fn new(id: i64) -> (out: Self)
        ensures
            out.id == id,
    {
        RecordKey { id }
    }

    /// The text of the key, as page cursors carry it.
    pub fn index_key(&self) -> (out: String)
        ensures
            out@ == decimal::integer_text(self.id as int),
    {
        decimal::decimal_i64(self.id)
    }
}

/// Free fields that callers attach to a record.
#[derive(Debug)]
pub struct Metadata {
    pub entries: Vec<(String, Json)>,
}

impl View for Metadata {
    type V = Seq<(Seq<char>, json::Tree)>;

    open spec fn view(&self) -> Self::V {
        json::field_trees(self.entries@)
    }
}

impl Metadata {
    /// No fields.
    pub fn new() -> (out: Self)
        ensures
            out@ == Seq::<(Seq<char>, json::Tree)>::empty(),
    {
        let out = Metadata { entries: Vec::new() };
        assert(out@ == Seq::<(Seq<char>, json::Tree)>::empty());
        out
    }

    /// A copy of the fields.
    pub fn copy(&self) -> (out: Self)
        ensures
            out@ == self@,
    {
        Metadata { entries: json::copy_fields(&self.entries) }
    }
}

/// A text that may be absent, as characters.
pub open spec fn optional_text(text: Option<String>) -> Option<Seq<char>> {
    match text {
        Some(t) => Some(t@),
        None => None,
    }
}

/// Where a record comes from. Locations are snapshots: they stay when note chunks are replaced.
/// `offset` is the first line, from one; `limit` is the number of lines.
#[derive(Debug)]
pub struct Evidence {
    pub source: String,
    pub source_revision: Option<String>,
    pub chunk_id: Option<i64>,
    pub offset: Option<usize>,
    pub limit: Option<usize>,
    pub quote: String,
    pub metadata: Metadata,
}

pub struct EvidenceView {
    pub source: Seq<char>,
    pub source_revision: Option<Seq<char>>,
    pub chunk_id: Option<i64>,
    pub offset: Option<usize>,
    pub limit: Option<usize>,
    pub quote: Seq<char>,
    pub metadata: Seq<(Seq<char>, json::Tree)>,
}

impl View for Evidence {
    type V = EvidenceView;

    open spec fn view(&self) -> EvidenceView {
        EvidenceView {
            source: self.source@,
            source_revision: optional_text(self.source_revision),
            chunk_id: self.chunk_id,
            offset: self.offset,
            limit: self.limit,
            quote: self.quote@,
            metadata: self.metadata@,
        }
    }
}

/// Evidence that names a source and nothing else.
pub open spec fn bare_evidence(source: Seq<char>) -> EvidenceView {
    EvidenceView {
        source,
        source_revision: None,
        chunk_id: None,
        offset: None,
        limit: None,
        quote: Seq::empty(),
        metadata: Seq::empty(),
    }
}

impl Evidence {
    /// Evidence that names a source and nothing else.
    pub fn of_source(source: String) -> (out: Self)
        ensures
            out@ == bare_evidence(source@),
            out.source@ == source@,
            out.source_revision is None && out.chunk_id is None && out.offset is None && out.limit is None,
            out.quote@.len() == 0 && out.metadata@.len() == 0,
    {
        Evidence {
            source,
            source_revision: None,
            chunk_id: None,
            offset: None,
            limit: None,
            quote: String::new(),
            metadata: Metadata::new(),
        }
    }

    /// A copy of the evidence.
    pub fn copy(&self) -> (out: Self)
        ensures
            out@ == self@,
    {
        Evidence {
            source: self.source.clone(),
            source_revision: copy_optional(&self.source_revision),
            chunk_id: self.chunk_id,
            offset: self.offset,
            limit: self.limit,
            quote: self.quote.clone(),
            metadata: self.metadata.copy(),
        }
    }
}

impl Default for Evidence {
    fn default() -> (out: Self)
        ensures
            out@ == bare_evidence(Seq::empty()),
    {
        Evidence::of_source(String::new())
    }
}

/// A copy of a text that may be absent.
pub fn copy_optional(text: &Option<String>) -> (out: Option<String>)
    ensures
        out == *text,
{
    match text {
        Some(t) => Some(t.clone()),
        None => None,
    }
}

/// The views of a list of evidence.
pub open spec fn evidence_views(list: Seq<Evidence>) -> Seq<EvidenceView> {
    Seq::new(list.len(), |i: int| list[i]@)
}

/// A copy of a list of evidence.
pub fn copy_evidence(list: &Vec<Evidence>) -> (out: Vec<Evidence>)
    ensures
        evidence_views(out@) == evidence_views(list@),
{
    let mut out: Vec<Evidence> = Vec::new();
    let mut i: usize = 0;
    while i < list.len()
        invariant
            i <= list.len(),
            evidence_views(out@) == evidence_views(list@).take(i as int),
        decreases list.len() - i,
    {
        let ghost before = evidence_views(out@);
        out.push(list[i].copy());
        assert(evidence_views(out@) == before.push(list@[i as int]@));
        assert(evidence_views(list@).take(i + 1) == evidence_views(list@).take(i as int).push(list@[i as int]@));
        i = i + 1;
    }
    assert(evidence_views(list@).take(list@.len() as int) == evidence_views(list@));
    out
}

/// What a caller hands in for every record. Without an `id` a record is created.
#[derive(Debug)]
pub struct RecordInput {
    pub id: Option<i64>,
    pub namespace: String,
    pub scope: String,
    pub tags: Vec<String>,
    pub evidence: Vec<Evidence>,
    pub metadata: Metadata,
    pub created_at_us: Option<i64>,
    pub updated_at_us: Option<i64>,
    pub expected_revision: Option<i64>,
}

pub struct RecordInputView {
    pub id: Option<i64>,
    pub namespace: Seq<char>,
    pub scope: Seq<char>,
    pub tags: Seq<Seq<char>>,
    pub evidence: Seq<EvidenceView>,
    pub metadata: Seq<(Seq<char>, json::Tree)>,
    pub created_at_us: Option<i64>,
    pub updated_at_us: Option<i64>,
    pub expected_revision: Option<i64>,
}

impl View for RecordInput {
    type V = RecordInputView;

    open spec fn view(&self) -> RecordInputView {
        RecordInputView {
            id: self.id,
            namespace: self.namespace@,
            scope: self.scope@,
            tags: chars::texts(self.tags@),
            evidence: evidence_views(self.evidence@),
            metadata: self.metadata@,
            created_at_us: self.created_at_us,
            updated_at_us: self.updated_at_us,
            expected_revision: self.expected_revision,
        }
    }
}

/// The record input that names nothing.
pub open spec fn default_record() -> RecordInputView {
    RecordInputView {
        id: None,
        namespace: "default"@,
        scope: "public"@,
        tags: Seq::empty(),
        evidence: Seq::empty(),
        metadata: Seq::empty(),
        created_at_us: None,
        updated_at_us: None,
        expected_revision: None,
    }
}

impl Default for RecordInput {
    fn default() -> (out: Self)
        ensures
            out@ == default_record(),
            out.id is None && out.created_at_us is None && out.updated_at_us is None && out.expected_revision is None,
            out.namespace@ == "default"@ && out.scope@ == "public"@,
            out.tags@.len() == 0 && out.evidence@.len() == 0 && out.metadata@.len() == 0,
    {
        let out = RecordInput {
            id: None,
            namespace: default_namespace(),
            scope: public_scope(),
            tags: Vec::new(),
            evidence: Vec::new(),
            metadata: Metadata::new(),
            created_at_us: None,
            updated_at_us: None,
            expected_revision: None,
        };
        assert(out@.tags == default_record().tags);
        assert(out@.evidence == default_record().evidence);
        out
    }
}

impl RecordInput {
    /// A copy of the input.
    pub fn copy(&self) -> (out: Self)
        ensures
            out@ == self@,
    {
        RecordInput {
            id: self.id,
            namespace: self.namespace.clone(),
            scope: self.scope.clone(),
            tags: chars::copy_strings(&self.tags),
            evidence: copy_evidence(&self.evidence),
            metadata: self.metadata.copy(),
            created_at_us: self.created_at_us,
            updated_at_us: self.updated_at_us,
            expected_revision: self.expected_revision,
        }
    }
}

/// What every stored record has.
#[derive(Debug)]
pub struct RecordHeader {
    pub id: i64,
    pub namespace: String,
    pub kind: RecordKind,
    pub scope: String,
    pub tags: Vec<String>,
    pub evidence: Vec<Evidence>,
    pub metadata: Metadata,
    pub created_at_us: i64,
    pub updated_at_us: i64,
    pub revision: i64,
}

pub struct RecordHeaderView {
    pub id: i64,
    pub namespace: Seq<char>,
    pub kind: RecordKind,
    pub scope: Seq<char>,
    pub tags: Seq<Seq<char>>,
    pub evidence: Seq<EvidenceView>,
    pub metadata: Seq<(Seq<char>, json::Tree)>,
    pub created_at_us: i64,
    pub updated_at_us: i64,
    pub revision: i64,
}

impl View for RecordHeader {
    type V = RecordHeaderView;

    open spec fn view(&self) -> RecordHeaderView {
        RecordHeaderView {
            id: self.id,
            namespace: self.namespace@,
            kind: self.kind,
            scope: self.scope@,
            tags: chars::texts(self.tags@),
            evidence: evidence_views(self.evidence@),
            metadata: self.metadata@,
            created_at_us: self.created_at_us,
            updated_at_us: self.updated_at_us,
            revision: self.revision,
        }
    }
}

/// The input that writes a stored record again: same identity and contents, the stored creation
/// time, no update time, and the stored revision expected.
pub open spec fn header_as_input(h: RecordHeaderView) -> RecordInputView {
    RecordInputView {
        id: Some(h.id),
        namespace: h.namespace,
        scope: h.scope,
        tags: h.tags,
        evidence: h.evidence,
        metadata: h.metadata,
        created_at_us: Some(h.created_at_us),
        updated_at_us: None,
        expected_revision: Some(h.revision),
    }
}

impl RecordHeader {
    /// The key of the record.
    pub fn key(&self) -> (out: RecordKey)
        ensures
            out.id == self.id,
    {
        RecordKey { id: self.id }
    }

    /// The input that writes this record again.
    pub fn as_input(&self) -> (out: RecordInput)
        ensures
            out@ == header_as_input(self@),
            out.id == Some(self.id) && out.expected_revision == Some(self.revision),
            out.namespace@ == self.namespace@ && out.scope@ == self.scope@,
            out.created_at_us == Some(self.created_at_us) && out.updated_at_us is None,
            chars::texts(out.tags@) == chars::texts(self.tags@) && out.metadata@ == self.metadata@,
            evidence_views(out.evidence@) == evidence_views(self.evidence@),
    {
        RecordInput {
            id: Some(self.id),
            namespace: self.namespace.clone(),
            scope: self.scope.clone(),
            tags: chars::copy_strings(&self.tags),
            evidence: copy_evidence(&self.evidence),
            metadata: self.metadata.copy(),
            created_at_us: Some(self.created_at_us),
            updated_at_us: None,
            expected_revision: Some(self.revision),
        }
    }
}

/// Which records a read may see. All listed tags must match; without `note_ids` every note counts.
#[derive(Debug)]
pub struct ReadFilter {
    pub namespace: String,
    pub scopes: Vec<String>,
    pub tags: Vec<String>,
    pub note_ids: Vec<i64>,
}

pub struct ReadFilterView {
    pub namespace: Seq<char>,
    pub scopes: Seq<Seq<char>>,
    pub tags: Seq<Seq<char>>,
    pub note_ids: Seq<i64>,
}

impl View for ReadFilter {
    type V = ReadFilterView;

    open spec fn view(&self) -> ReadFilterView {
        ReadFilterView {
            namespace: self.namespace@,
            scopes: chars::texts(self.scopes@),
            tags: chars::texts(self.tags@),
            note_ids: self.note_ids@,
        }
    }
}

/// The scopes of a filter that names none.
pub fn default_scopes() -> (out: Vec<String>)
    ensures
        chars::texts(out@) == seq!["public"@],
{
    let mut out: Vec<String> = Vec::new();
    out.push(public_scope());
    assert(chars::texts(out@) == seq!["public"@]);
    out
}

/// The filter that names nothing: the default namespace and the public scope.
pub open spec fn default_filter() -> ReadFilterView {
    ReadFilterView {
        namespace: "default"@,
        scopes: seq!["public"@],
        tags: Seq::empty(),
        note_ids: Seq::empty(),
    }
}

impl Default for ReadFilter {
    fn default() -> (out: Self)
        ensures
            out@ == default_filter(),
            out.namespace@ == "default"@,
            chars::texts(out.scopes@).len() == 1 && chars::texts(out.scopes@)[0] == "public"@,
            out.tags@.len() == 0 && out.note_ids@.len() == 0,
    {
        let out = ReadFilter {
            namespace: default_namespace(),
            scopes: default_scopes(),
            tags: Vec::new(),
            note_ids: Vec::new(),
        };
        assert(out@.tags == default_filter().tags);
        out
    }
}

impl ReadFilter {
    /// The same filter without its tags: tags choose records, never the entities around them.
    pub fn without_tags(&self) -> (out: Self)
        ensures
            out@ == (ReadFilterView { tags: Seq::empty(), ..self@ }),
    {
        let out = ReadFilter {
            namespace: self.namespace.clone(),
            scopes: chars::copy_strings(&self.scopes),
            tags: Vec::new(),
            note_ids: copy_ids(&self.note_ids),
        };
        assert(out@.tags == Seq::<Seq<char>>::empty());
        out
    }

    /// A copy of the filter.
    pub fn copy(&self) -> (out: Self)
        ensures
            out@ == self@,
    {
        ReadFilter {
            namespace: self.namespace.clone(),
            scopes: chars::copy_strings(&self.scopes),
            tags: chars::copy_strings(&self.tags),
            note_ids: copy_ids(&self.note_ids),
        }
    }
}

/// A request for one page of records in id order, after a cursor.
#[derive(Debug)]
pub struct PageRequest {
    pub filter: ReadFilter,
    pub limit: usize,
    pub after: Option<String>,
}

impl Default for PageRequest {
    fn default() -> (out: Self)
        ensures
            out.filter@ == default_filter(),
            out.limit == 50,
            out.after is None,
    {
        PageRequest { filter: ReadFilter::default(), limit: default_limit(), after: None }
    }
}

/// One page, and the cursor of the next where there is one.
#[derive(Debug)]
pub struct Page<T> {
    pub items: Vec<T>,
    pub next_cursor: Option<String>,
}

/// What a write gives back. It stays committed where the derived index cannot be updated.
#[derive(Debug)]
pub struct WriteReceipt<T> {
    pub value: T,
    pub revision: i64,
    pub index_ready: bool,
    pub index_error: Option<String>,
}

/// Which columns of the full text index a query must hit.
#[derive(Debug, Clone, Copy, PartialEq, Eq, Structural)]
pub enum MatchField {
    All,
    Text,
    Name,
    Path,
}

impl Default for MatchField {
    fn default() -> (out: Self)
        ensures
            out == MatchField::All,
    {
        MatchField::All
    }
}

/// Why a search fell back to fewer means.
#[derive(Debug, Clone, Copy, PartialEq, Eq, Structural)]
pub enum Degrade {
    /// Vectors are switched off for the namespace.
    NamespaceDisabled,
    /// The requested kinds use vectors, but none of them is filled yet.
    VectorNotReady,
    /// No embedder is registered for the space.
    NoEmbedder,
    /// The embedder failed.
    EmbedFailed,
    /// The reranker failed or gave back something else than it was asked for.
    RerankFailed,
    /// The full text index could not be used.
    TextIndexUnavailable,
}

/// Whether `list` holds `degrade`.
pub fn has_degrade(list: &Vec<Degrade>, degrade: Degrade) -> (out: bool)
    ensures
        out == list@.contains(degrade),
{
    let mut i: usize = 0;
    while i < list.len()
        invariant
            i <= list.len(),
            forall|k: int| 0 <= k < i ==> list@[k] != degrade,
        decreases list.len() - i,
    {
        if list[i] == degrade {
            assert(list@[i as int] == degrade);
            return true;
        }
        i = i + 1;
    }
    false
}

/// What a search used: its paths, the reranker, and where it fell back.
#[derive(Debug)]
pub struct SearchDiagnostics {
    pub text_used: bool,
    pub vector_used: bool,
    pub reranked: bool,
    /// How many candidates went to the reranker.
    pub rerank_candidates: usize,
    /// How many candidates the budgets kept from it.
    pub rerank_truncated: usize,
    pub degraded: Vec<Degrade>,
}

impl Default for SearchDiagnostics {
    fn default() -> (out: Self)
        ensures
            !out.text_used && !out.vector_used && !out.reranked,
            out.rerank_candidates == 0 && out.rerank_truncated == 0,
            out.degraded@ == Seq::<Degrade>::empty(),
    {
        SearchDiagnostics {
            text_used: false,
            vector_used: false,
            reranked: false,
            rerank_candidates: 0,
            rerank_truncated: 0,
            degraded: Vec::new(),
        }
    }
}

/// The state of a store.
#[derive(Debug)]
pub struct HealthReport {
    pub schema_version: i64,
    pub revision: i64,
    pub indexed_revision: i64,
    pub record_count: u64,
    pub index_document_count: usize,
    pub pending_index_updates: usize,
    pub sqlite_integrity: String,
    pub foreign_key_errors: usize,
    /// How many records there are of each kind, by name.
    pub counts: Vec<(String, u64)>,
    /// The vector spaces that have an embedder.
    pub embedder_spaces: Vec<String>,
    pub reranker_registered: bool,
    /// The latest fall backs, each once.
    pub last_degraded: Vec<Degrade>,
}

} // verus!
