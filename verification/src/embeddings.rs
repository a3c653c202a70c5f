//! Vector spaces: what may be registered, which kinds of records get vectors, and their keys.

use crate::chars;
use crate::decimal;
use crate::error::{Error, ErrorView};
use crate::ordering;
use crate::storage;
use crate::text;
use crate::types::RecordKind;
use vstd::prelude::*;

verus! {

// ── Spaces ────────────────────────────────────────────────────────────

/// The version of the text that vectors are made from.
pub fn text_version() -> (out: u32)
    ensures
        out == 1,
{
    1
}

/// The encoding of a space that names none.
pub fn default_encoding() -> (out: String)
    ensures
        out@ == "sq8"@,
{
    "sq8".to_owned()
}

/// A vector space: one model and one dimension. A new model gets a new space.
#[derive(Debug)]
pub struct EmbeddingSpace {
    pub id: String,
    /// The model, with its revision where that changes what it produces.
    pub model: String,
    pub dimension: usize,
    pub text_version: u32,
    /// How vectors are stored: "f32", four bytes per dimension, or "sq8", one, lossy.
    pub encoding: String,
}

pub struct EmbeddingSpaceView {
    pub id: Seq<char>,
    pub model: Seq<char>,
    pub dimension: int,
    pub text_version: int,
    pub encoding: Seq<char>,
}

impl View for EmbeddingSpace {
    type V = EmbeddingSpaceView;

    open spec fn view(&self) -> EmbeddingSpaceView {
        EmbeddingSpaceView {
            id: self.id@,
            model: self.model@,
            dimension: self.dimension as int,
            text_version: self.text_version as int,
            encoding: self.encoding@,
        }
    }
}

/// Why a space is refused, if it is.
pub open spec fn space_error(space: EmbeddingSpaceView) -> Option<ErrorView> {
    if !storage::identity(space.id) {
        Some(storage::identity_error("space id"@))
    } else if !storage::identity(space.model) {
        Some(storage::identity_error("model"@))
    } else if !(1 <= space.dimension <= 65_536) || space.text_version != 1 {
        Some(ErrorView::Validation("dimension must be 1..65536 and text_version must be 1"@))
    } else if space.encoding != "f32"@ && space.encoding != "sq8"@ {
        Some(ErrorView::Validation("encoding must be \"f32\" or \"sq8\""@))
    } else {
        None
    }
}

/// Checks a space.
pub fn check_space(space: &EmbeddingSpace) -> (out: Result<(), Error>)
    ensures
        storage::refused(out, space_error(space@)),
        out is Ok <==> storage::identity(space.id@) && storage::identity(space.model@) && 1 <= space.dimension <= 65_536 && space.text_version
            == 1 && (space.encoding@ == "f32"@ || space.encoding@ == "sq8"@),
{
    storage::validate_identity("space id", space.id.as_str())?;
    storage::validate_identity("model", space.model.as_str())?;
    if space.dimension < 1 || space.dimension > 65_536 || space.text_version != 1 {
        return Err(Error::Validation("dimension must be 1..65536 and text_version must be 1".to_owned()));
    }
    if !ordering::same_text(space.encoding.as_str(), "f32") && !ordering::same_text(space.encoding.as_str(), "sq8") {
        return Err(Error::Validation("encoding must be \"f32\" or \"sq8\"".to_owned()));
    }
    Ok(())
}

/// Whether two spaces are the same.
pub fn same_space(a: &EmbeddingSpace, b: &EmbeddingSpace) -> (out: bool)
    ensures
        out == (a@ == b@),
{
    ordering::same_text(a.id.as_str(), b.id.as_str()) && ordering::same_text(a.model.as_str(), b.model.as_str()) && a.dimension
        == b.dimension && a.text_version == b.text_version && ordering::same_text(a.encoding.as_str(), b.encoding.as_str())
}

/// Decides on the registration of a space; `stored` is the space under the same id. The result
/// tells whether the space is new. A space never changes: the same one is accepted again, another
/// one under its id is a conflict.
pub fn register_space(space: &EmbeddingSpace, stored: Option<&EmbeddingSpace>) -> (out: Result<bool, Error>)
    ensures
        storage::refused(out, match space_error(space@) {
            Some(e) => Some(e),
            None => if stored is Some && stored->0@ != space@ {
                Some(
                    ErrorView::Conflict(
                        "embedding space is immutable; register a new ID for a new model or dimension"@,
                    ),
                )
            } else {
                None
            },
        }),
        out matches Ok(new) ==> new == (stored is None),
        out is Ok ==> storage::identity(space.id@) && storage::identity(space.model@) && 1 <= space.dimension <= 65_536 && (stored is None
            || stored->0@ == space@),
        stored is Some && stored->0@ != space@ ==> out is Err,
{
    check_space(space)?;
    match stored {
        None => Ok(true),
        Some(old) => if same_space(old, space) {
            Ok(false)
        } else {
            Err(
                Error::Conflict(
                    "embedding space is immutable; register a new ID for a new model or dimension".to_owned(),
                ),
            )
        },
    }
}

// ── Embedders ─────────────────────────────────────────────────────────

/// What went wrong in an embedder. It says so itself: messages are not guessed at.
#[derive(Debug, Clone, Copy, PartialEq, Eq, Structural)]
pub enum EmbedErrorKind {
    /// Too many texts in one call: the batch is halved, for as long as the program runs.
    TooLarge,
    /// Too many calls: it is tried again after a while, a few times.
    RateLimited,
    /// Anything else: it is not tried again.
    Other,
}

/// The code of a kind of error.
pub open spec fn embed_error_code(kind: EmbedErrorKind) -> Seq<char> {
    match kind {
        EmbedErrorKind::TooLarge => "too_large"@,
        EmbedErrorKind::RateLimited => "rate_limited"@,
        EmbedErrorKind::Other => "other"@,
    }
}

/// The kind of error that a code stands for.
pub open spec fn embed_error_of(code: Seq<char>) -> Option<EmbedErrorKind> {
    if code == "too_large"@ {
        Some(EmbedErrorKind::TooLarge)
    } else if code == "rate_limited"@ {
        Some(EmbedErrorKind::RateLimited)
    } else if code == "other"@ {
        Some(EmbedErrorKind::Other)
    } else {
        None
    }
}

impl EmbedErrorKind {
    pub fn code(self) -> (out: &'static str)
        ensures
            out@ == embed_error_code(self),
            self == EmbedErrorKind::TooLarge ==> out@ == "too_large"@,
            self == EmbedErrorKind::RateLimited ==> out@ == "rate_limited"@,
            self == EmbedErrorKind::Other ==> out@ == "other"@,
    {
        match self {
            EmbedErrorKind::TooLarge => "too_large",
            EmbedErrorKind::RateLimited => "rate_limited",
            EmbedErrorKind::Other => "other",
        }
    }

    pub fn from_code(code: &str) -> (out: Option<Self>)
        ensures
            out == embed_error_of(code@),
    {
        if ordering::same_text(code, "too_large") {
            Some(EmbedErrorKind::TooLarge)
        } else if ordering::same_text(code, "rate_limited") {
            Some(EmbedErrorKind::RateLimited)
        } else if ordering::same_text(code, "other") {
            Some(EmbedErrorKind::Other)
        } else {
            None
        }
    }
}

/// Every kind of error is read back from its code.
pub proof fn embed_error_roundtrip(kind: EmbedErrorKind)
    ensures
        embed_error_of(embed_error_code(kind)) == Some(kind),
{
    reveal_strlit("too_large");
    reveal_strlit("rate_limited");
    reveal_strlit("other");
    assert("too_large"@.len() == 9);
    assert("rate_limited"@.len() == 12);
    assert("other"@.len() == 5);
}

/// The error of an embedder.
#[derive(Debug)]
pub struct EmbedCallbackError {
    pub kind: EmbedErrorKind,
    pub message: String,
}

impl EmbedCallbackError {
    pub fn new(kind: EmbedErrorKind, message: String) -> (out: Self)
        ensures
            out.kind == kind,
            out.message@ == message@,
    {
        EmbedCallbackError { kind, message }
    }

    pub fn too_large(message: String) -> (out: Self)
        ensures
            out.kind == EmbedErrorKind::TooLarge,
            out.message@ == message@,
    {
        Self::new(EmbedErrorKind::TooLarge, message)
    }

    pub fn rate_limited(message: String) -> (out: Self)
        ensures
            out.kind == EmbedErrorKind::RateLimited,
            out.message@ == message@,
    {
        Self::new(EmbedErrorKind::RateLimited, message)
    }

    pub fn other(message: String) -> (out: Self)
        ensures
            out.kind == EmbedErrorKind::Other,
            out.message@ == message@,
    {
        Self::new(EmbedErrorKind::Other, message)
    }

    /// The error as text: its code and its message.
    pub fn text(&self) -> (out: String)
        ensures
            out@ == embed_error_code(self.kind) + ": "@ + self.message@,
    {
        let mut out = chars::concat(self.kind.code(), ": ");
        out.append(self.message.as_str());
        out
    }
}

/// The batch size of an embedder that names none.
pub fn default_max_batch() -> (out: usize)
    ensures
        out == 32,
{
    32
}

/// What an embedder can take in one call. The library stays within it.
#[derive(Debug, Clone, Copy, PartialEq, Eq, Structural)]
pub struct EmbedderOptions {
    pub max_batch: usize,
    /// The token budget of one text; none where texts are not cut.
    pub max_tokens_per_text: Option<usize>,
}

impl Default for EmbedderOptions {
    fn default() -> (out: Self)
        ensures
            out.max_batch == 32,
            out.max_tokens_per_text is None,
    {
        EmbedderOptions { max_batch: default_max_batch(), max_tokens_per_text: None }
    }
}

/// Why the registration of an embedder is refused before it is tried, if it is.
pub open spec fn embedder_error(space_id: Seq<char>, options: EmbedderOptions) -> Option<ErrorView> {
    if !storage::identity(space_id) {
        Some(storage::identity_error("space id"@))
    } else if !(1 <= options.max_batch <= 10_000) {
        Some(ErrorView::Validation("max_batch must be between 1 and 10000"@))
    } else if options.max_tokens_per_text == Some(0usize) {
        Some(ErrorView::Validation("max_tokens_per_text must be positive"@))
    } else {
        None
    }
}

/// Checks the registration of an embedder.
pub fn check_embedder(space_id: &str, options: EmbedderOptions) -> (out: Result<(), Error>)
    ensures
        storage::refused(out, embedder_error(space_id@, options)),
        out is Ok <==> storage::identity(space_id@) && 1 <= options.max_batch <= 10_000 && options.max_tokens_per_text != Some(0usize),
{
    storage::validate_identity("space id", space_id)?;
    if options.max_batch < 1 || options.max_batch > 10_000 {
        return Err(Error::Validation("max_batch must be between 1 and 10000".to_owned()));
    }
    if let Some(budget) = options.max_tokens_per_text {
        if budget == 0 {
            return Err(Error::Validation("max_tokens_per_text must be positive".to_owned()));
        }
    }
    Ok(())
}

/// The texts that an embedder is tried on: at most three, and no more than fit in one batch.
pub open spec fn samples(batch: int) -> Seq<Seq<char>> {
    let all = seq!["样本一 sample"@, "样本二 sample"@, "样本三 sample"@];
    if batch >= 3 {
        all
    } else {
        all.take(batch)
    }
}

/// The texts that an embedder is tried on before it is bound to a space.
pub fn sample_texts(batch: usize) -> (out: Vec<String>)
    ensures
        chars::texts(out@) == samples(batch as int),
        out@.len() == (if batch >= 3 { 3 } else { batch as int }),
        out@.len() > 0 ==> chars::texts(out@)[0] == "样本一 sample"@,
        out@.len() > 1 ==> chars::texts(out@)[1] == "样本二 sample"@,
        out@.len() > 2 ==> chars::texts(out@)[2] == "样本三 sample"@,
{
    let mut out: Vec<String> = Vec::new();
    if batch >= 1 {
        out.push("样本一 sample".to_owned());
    }
    if batch >= 2 {
        out.push("样本二 sample".to_owned());
    }
    if batch >= 3 {
        out.push("样本三 sample".to_owned());
    }
    assert(chars::texts(out@) == samples(batch as int));
    out
}

/// The text that is handed to an embedder: the text itself, or its longest prefix within the
/// budget.
pub open spec fn within_budget(text: Seq<char>, budget: Option<usize>, out: Seq<char>) -> bool {
    match budget {
        Some(b) => out == text.take(out.len() as int) && text::longest_prefix(text, b as nat, out.len() as int),
        None => out == text,
    }
}

/// The texts that are handed to an embedder, each cut to its budget.
pub fn budgeted_texts(texts: &Vec<String>, options: EmbedderOptions) -> (out: Vec<String>)
    ensures
        out.len() == texts.len(),
        forall|i: int| 0 <= i < out.len() ==> within_budget(texts@[i]@, options.max_tokens_per_text, (#[trigger] out@[i])@),
        options.max_tokens_per_text is None ==> forall|i: int| 0 <= i < out.len() ==> (#[trigger] out@[i])@ == texts@[i]@,
        options.max_tokens_per_text matches Some(b) ==> forall|i: int|
            0 <= i < out.len() ==> {
                let n = (#[trigger] out@[i])@.len() as int;
                &&& n <= texts@[i]@.len()
                &&& texts@[i]@.take(n) == out@[i]@
                &&& text::units(out@[i]@) <= 100 * b
                &&& n < texts@[i]@.len() ==> text::units(texts@[i]@.take(n + 1)) > 100 * b
            },
{
    let mut out: Vec<String> = Vec::new();
    let mut i: usize = 0;
    while i < texts.len()
        invariant
            i <= texts.len(),
            out.len() == i,
            forall|k: int| 0 <= k < i ==> within_budget(texts@[k]@, options.max_tokens_per_text, (#[trigger] out@[k])@),
        decreases texts.len() - i,
    {
        let text = match options.max_tokens_per_text {
            Some(budget) => text::truncate_to_tokens(texts[i].as_str(), budget),
            None => texts[i].clone(),
        };
        out.push(text);
        i = i + 1;
    }
    out
}

/// What of a vector decides whether it can be used: its length, whether all its values are finite,
/// and whether its norm is finite and not zero.
#[derive(Debug, Clone, Copy)]
pub struct VectorShape {
    pub len: usize,
    pub finite: bool,
    pub usable_norm: bool,
}

/// Why a vector cannot be used, if it cannot.
pub open spec fn vector_error(shape: VectorShape, dimension: int) -> Option<Seq<char>> {
    if shape.len != dimension {
        Some("expected dimension "@ + decimal::integer_text(dimension) + ", received "@ + decimal::integer_text(shape.len as int))
    } else if !shape.finite {
        Some("values must be finite"@)
    } else if !shape.usable_norm {
        Some("zero or invalid vector norm"@)
    } else {
        None
    }
}

/// Checks a vector before it is normalized.
pub fn check_vector(shape: VectorShape, dimension: usize) -> (out: Result<(), Error>)
    ensures
        storage::refused(out, match vector_error(shape, dimension as int) {
            Some(m) => Some(ErrorView::InvalidVector(m)),
            None => None,
        }),
        out is Ok <==> shape.len == dimension && shape.finite && shape.usable_norm,
{
    if shape.len != dimension {
        let mut message = chars::concat("expected dimension ", decimal::decimal_usize(dimension).as_str());
        message.append(", received ");
        message.append(decimal::decimal_usize(shape.len).as_str());
        return Err(Error::InvalidVector(message));
    }
    if !shape.finite {
        return Err(Error::InvalidVector("values must be finite".to_owned()));
    }
    if !shape.usable_norm {
        return Err(Error::InvalidVector("zero or invalid vector norm".to_owned()));
    }
    Ok(())
}

/// The first of the vectors that cannot be used, and why.
pub open spec fn first_vector_error(shapes: Seq<VectorShape>, dimension: int) -> Option<Seq<char>>
    decreases shapes.len(),
{
    if shapes.len() == 0 {
        None
    } else {
        match vector_error(shapes[0], dimension) {
            Some(m) => Some(m),
            None => first_vector_error(shapes.drop_first(), dimension),
        }
    }
}

/// Vectors are refused exactly where one of them has another dimension or is no usable vector.
pub proof fn every_vector_fits(shapes: Seq<VectorShape>, dimension: int)
    ensures
        first_vector_error(shapes, dimension) is None <==> forall|i: int|
            0 <= i < shapes.len() ==> (#[trigger] shapes[i]).len == dimension && shapes[i].finite && shapes[i].usable_norm,
    decreases shapes.len(),
{
    if shapes.len() > 0 {
        let rest = shapes.drop_first();
        every_vector_fits(rest, dimension);
        if first_vector_error(shapes, dimension) is None {
            assert forall|i: int| 0 <= i < shapes.len() implies (#[trigger] shapes[i]).len == dimension && shapes[i].finite
                && shapes[i].usable_norm by {
                if i > 0 {
                    assert(shapes[i] == rest[i - 1]);
                }
            }
        }
        if forall|i: int| 0 <= i < shapes.len() ==> (#[trigger] shapes[i]).len == dimension && shapes[i].finite && shapes[i].usable_norm {
            assert(vector_error(shapes[0], dimension) is None);
            assert forall|i: int| 0 <= i < rest.len() implies (#[trigger] rest[i]).len == dimension && rest[i].finite && rest[i].usable_norm by {
                assert(rest[i] == shapes[i + 1]);
            }
        }
    }
}

/// Checks what an embedder made of the sample texts: one vector for each, all usable in the space.
pub fn validate_vectors(produced: &Vec<VectorShape>, expected: usize, space: &EmbeddingSpace) -> (out: Result<(), Error>)
    ensures
        storage::refused(out, if produced@.len() != expected {
            Some(
                ErrorView::InvalidVector(
                    "embedder returned "@ + decimal::integer_text(produced@.len() as int) + " vectors for "@
                        + decimal::integer_text(expected as int) + " inputs"@,
                ),
            )
        } else {
            match first_vector_error(produced@, space.dimension as int) {
                Some(m) => Some(
                    ErrorView::InvalidVector(
                        "embedder output does not satisfy space "@ + space.id@ + ": invalid vector: "@ + m,
                    ),
                ),
                None => None,
            }
        }),
        out is Ok <==> produced@.len() == expected && forall|i: int|
            0 <= i < produced@.len() ==> (#[trigger] produced@[i]).len == space.dimension && produced@[i].finite && produced@[i].usable_norm,
{
    proof {
        every_vector_fits(produced@, space.dimension as int);
    }
    if produced.len() != expected {
        let mut message = chars::concat("embedder returned ", decimal::decimal_usize(produced.len()).as_str());
        message.append(" vectors for ");
        message.append(decimal::decimal_usize(expected).as_str());
        message.append(" inputs");
        return Err(Error::InvalidVector(message));
    }
    let mut i: usize = 0;
    assert(produced@.skip(0) == produced@);
    while i < produced.len()
        invariant
            i <= produced.len(),
            produced@.len() == expected,
            first_vector_error(produced@.skip(i as int), space.dimension as int) == first_vector_error(produced@, space.dimension as int),
        decreases produced.len() - i,
    {
        assert(produced@.skip(i as int)[0] == produced@[i as int]);
        assert(produced@.skip(i as int).drop_first() == produced@.skip(i + 1));
        if let Err(error) = check_vector(produced[i], space.dimension) {
            let mut message = chars::concat("embedder output does not satisfy space ", space.id.as_str());
            message.append(": ");
            message.append(error.message().as_str());
            proof {
                let m = vector_error(produced@[i as int], space.dimension as int)->0;
                reveal_strlit(": ");
                reveal_strlit("invalid vector: ");
                reveal_strlit(": invalid vector: ");
                assert(": "@ + "invalid vector: "@ == ": invalid vector: "@);
                assert(message@ == "embedder output does not satisfy space "@ + space.id@ + ": invalid vector: "@ + m);
            }
            return Err(Error::InvalidVector(message));
        }
        i = i + 1;
    }
    Ok(())
}

/// The error where an embedder fails on the sample texts.
pub fn registration_failure(error: &EmbedCallbackError) -> (out: Error)
    ensures
        out@ == ErrorView::Validation(
            "embedder failed during registration ("@ + embed_error_code(error.kind) + "): "@ + error.message@,
        ),
{
    let mut message = chars::concat("embedder failed during registration (", error.kind.code());
    message.append("): ");
    message.append(error.message.as_str());
    Error::Validation(message)
}

/// The space of an id, as it was read.
pub fn found_space(id: &str, stored: Option<EmbeddingSpace>) -> (out: Result<EmbeddingSpace, Error>)
    ensures
        storage::refused(out, if stored is None {
            Some(ErrorView::NotFound("embedding space "@ + id@))
        } else {
            None
        }),
        out matches Ok(space) ==> Some(space) == stored,
{
    match stored {
        Some(space) => Ok(space),
        None => Err(Error::NotFound(chars::concat("embedding space ", id))),
    }
}

// ── Switches ──────────────────────────────────────────────────────────

/// The three groups of records that are switched on and off by themselves. The graph's entities,
/// relations and events go together; notes get their vectors on their chunks.
#[derive(Debug, Clone, Copy, PartialEq, Eq, Structural)]
pub enum VectorizeTarget {
    Memory,
    Graph,
    Notes,
}

/// The name of a target.
pub open spec fn target_name(target: VectorizeTarget) -> Seq<char> {
    match target {
        VectorizeTarget::Memory => "memory"@,
        VectorizeTarget::Graph => "graph"@,
        VectorizeTarget::Notes => "notes"@,
    }
}

/// The kinds of records of a target.
pub open spec fn target_kinds(target: VectorizeTarget) -> Seq<RecordKind> {
    match target {
        VectorizeTarget::Memory => seq![RecordKind::Memory],
        VectorizeTarget::Graph => seq![RecordKind::Entity, RecordKind::Relation, RecordKind::Event],
        VectorizeTarget::Notes => seq![RecordKind::Chunk],
    }
}

/// Why a text names no target, if it does not.
pub open spec fn target_error(value: Seq<char>) -> Option<ErrorView> {
    if value == "memory"@ || value == "graph"@ || value == "notes"@ {
        None
    } else {
        Some(ErrorView::Validation("vectorize target must be memory, graph or notes, got "@ + value))
    }
}

impl VectorizeTarget {
    /// All targets, in order.
    pub fn all() -> (out: Vec<VectorizeTarget>)
        ensures
            out@ == seq![VectorizeTarget::Memory, VectorizeTarget::Graph, VectorizeTarget::Notes],
    {
        vec![VectorizeTarget::Memory, VectorizeTarget::Graph, VectorizeTarget::Notes]
    }

    pub fn as_str(self) -> (out: &'static str)
        ensures
            out@ == target_name(self),
            self == VectorizeTarget::Memory ==> out@ == "memory"@,
            self == VectorizeTarget::Graph ==> out@ == "graph"@,
            self == VectorizeTarget::Notes ==> out@ == "notes"@,
    {
        match self {
            VectorizeTarget::Memory => "memory",
            VectorizeTarget::Graph => "graph",
            VectorizeTarget::Notes => "notes",
        }
    }

    pub fn parse(value: &str) -> (out: Result<Self, Error>)
        ensures
            storage::refused(out, target_error(value@)),
            out matches Ok(target) ==> target_name(target) == value@,
            out is Ok <==> value@ == "memory"@ || value@ == "graph"@ || value@ == "notes"@,
    {
        if ordering::same_text(value, "memory") {
            Ok(VectorizeTarget::Memory)
        } else if ordering::same_text(value, "graph") {
            Ok(VectorizeTarget::Graph)
        } else if ordering::same_text(value, "notes") {
            Ok(VectorizeTarget::Notes)
        } else {
            Err(Error::Validation(chars::concat("vectorize target must be memory, graph or notes, got ", value)))
        }
    }

    /// The kinds of records of the target.
    pub fn kinds(self) -> (out: Vec<RecordKind>)
        ensures
            out@ == target_kinds(self),
            self == VectorizeTarget::Memory ==> out@ == seq![RecordKind::Memory],
            self == VectorizeTarget::Graph ==> out@ == seq![RecordKind::Entity, RecordKind::Relation, RecordKind::Event],
            self == VectorizeTarget::Notes ==> out@ == seq![RecordKind::Chunk],
    {
        match self {
            VectorizeTarget::Memory => vec![RecordKind::Memory],
            VectorizeTarget::Graph => vec![RecordKind::Entity, RecordKind::Relation, RecordKind::Event],
            VectorizeTarget::Notes => vec![RecordKind::Chunk],
        }
    }

    /// Whether the target is on where nobody has set it: notes are off, the others on.
    pub fn default_enabled(self) -> (out: bool)
        ensures
            out == (self != VectorizeTarget::Notes),
    {
        self != VectorizeTarget::Notes
    }
}

/// Why a question about a target of a namespace is refused, if it is.
pub open spec fn switch_error(namespace: Seq<char>, target: Seq<char>) -> Option<ErrorView> {
    if !storage::identity(namespace) {
        Some(storage::identity_error("namespace"@))
    } else {
        target_error(target)
    }
}

/// Checks a question about a target of a namespace: whether it is on, or to be set.
pub fn check_switch(namespace: &str, target: &str) -> (out: Result<VectorizeTarget, Error>)
    ensures
        storage::refused(out, switch_error(namespace@, target@)),
        out matches Ok(found) ==> target_name(found) == target@,
        out is Ok <==> storage::identity(namespace@) && (target@ == "memory"@ || target@ == "graph"@ || target@ == "notes"@),
{
    if let Err(error) = storage::validate_identity("namespace", namespace) {
        return Err(error);
    }
    VectorizeTarget::parse(target)
}

/// Checks the question whether a target of a namespace is filled in a space.
pub fn check_ready(namespace: &str, space_id: &str, target: &str) -> (out: Result<VectorizeTarget, Error>)
    ensures
        storage::refused(out, if storage::identity(namespace@) && !storage::identity(space_id@) {
            Some(storage::identity_error("space id"@))
        } else {
            switch_error(namespace@, target@)
        }),
        out matches Ok(found) ==> target_name(found) == target@,
        out is Ok <==> storage::identity(namespace@) && storage::identity(space_id@) && (target@ == "memory"@ || target@ == "graph"@ || target@
            == "notes"@),
{
    if let Err(error) = storage::validate_identity("namespace", namespace) {
        return Err(error);
    }
    if let Err(error) = storage::validate_identity("space id", space_id) {
        return Err(error);
    }
    VectorizeTarget::parse(target)
}

/// The switches of a namespace as stored; an absent one was never set.
#[derive(Debug, Clone, Copy)]
pub struct Switches {
    pub master: Option<i64>,
    pub memory: Option<i64>,
    pub graph: Option<i64>,
    pub notes: Option<i64>,
}

/// The master switch is on unless it was set off.
pub open spec fn master_on(switches: Switches) -> bool {
    switches.master != Some(0i64)
}

/// Whether a target's switch is on, by itself.
pub open spec fn target_on(value: Option<i64>, target: VectorizeTarget) -> bool {
    match value {
        Some(v) => v != 0,
        None => target != VectorizeTarget::Notes,
    }
}

/// Whether the master switch of a namespace is on.
pub fn namespace_vectorization(value: Option<i64>) -> (out: bool)
    ensures
        out == (value != Some(0i64)),
{
    match value {
        Some(v) => v != 0,
        None => true,
    }
}

/// Whether a target's switch is on; one that was never set has the target's default.
pub fn target_vectorization(value: Option<i64>, target: VectorizeTarget) -> (out: bool)
    ensures
        out == target_on(value, target),
        value matches Some(v) ==> (out <==> v != 0),
        value is None ==> (out <==> target != VectorizeTarget::Notes),
{
    match value {
        Some(v) => v != 0,
        None => target.default_enabled(),
    }
}

/// The kinds of a target where a condition holds, else none.
pub open spec fn kinds_if(on: bool, target: VectorizeTarget) -> Seq<RecordKind> {
    if on {
        target_kinds(target)
    } else {
        Seq::empty()
    }
}

/// The kinds that get vectors in a namespace: those of the targets that are on; none where the
/// master switch is off.
pub open spec fn kinds_enabled(s: Switches) -> Seq<RecordKind> {
    if master_on(s) {
        kinds_if(target_on(s.memory, VectorizeTarget::Memory), VectorizeTarget::Memory) + kinds_if(
            target_on(s.graph, VectorizeTarget::Graph),
            VectorizeTarget::Graph,
        ) + kinds_if(target_on(s.notes, VectorizeTarget::Notes), VectorizeTarget::Notes)
    } else {
        Seq::empty()
    }
}

/// Which targets of a namespace are filled in a space.
#[derive(Debug, Clone, Copy)]
pub struct Readiness {
    pub memory: bool,
    pub graph: bool,
    pub notes: bool,
}

/// The kinds whose vectors may be searched: those of the targets that are on and filled.
pub open spec fn kinds_ready(s: Switches, r: Readiness) -> Seq<RecordKind> {
    if master_on(s) {
        kinds_if(target_on(s.memory, VectorizeTarget::Memory) && r.memory, VectorizeTarget::Memory) + kinds_if(
            target_on(s.graph, VectorizeTarget::Graph) && r.graph,
            VectorizeTarget::Graph,
        ) + kinds_if(target_on(s.notes, VectorizeTarget::Notes) && r.notes, VectorizeTarget::Notes)
    } else {
        Seq::empty()
    }
}

/// A kind is switched on: the namespace is not switched off, and the switch of the kind's target is
/// on, or unset where the target is not notes. Notes themselves are never embedded.
pub open spec fn switched_on(s: Switches, k: RecordKind) -> bool {
    &&& s.master != Some(0i64)
    &&& match k {
        RecordKind::Memory => s.memory != Some(0i64),
        RecordKind::Entity | RecordKind::Relation | RecordKind::Event => s.graph != Some(0i64),
        RecordKind::Chunk => s.notes is Some && s.notes != Some(0i64),
        RecordKind::Note => false,
    }
}

/// The target of a kind is marked as filled.
pub open spec fn filled_for(r: Readiness, k: RecordKind) -> bool {
    match k {
        RecordKind::Memory => r.memory,
        RecordKind::Entity | RecordKind::Relation | RecordKind::Event => r.graph,
        RecordKind::Chunk => r.notes,
        RecordKind::Note => false,
    }
}

/// The switches and marks alone decide which kinds are embedded and which can be searched.
pub proof fn switches_decide(s: Switches, r: Readiness)
    ensures
        forall|k: RecordKind| #[trigger] kinds_enabled(s).contains(k) <==> switched_on(s, k),
        forall|k: RecordKind| #[trigger] kinds_ready(s, r).contains(k) <==> switched_on(s, k) && filled_for(r, k),
{
    let memory = target_kinds(VectorizeTarget::Memory);
    let graph = target_kinds(VectorizeTarget::Graph);
    let notes = target_kinds(VectorizeTarget::Notes);
    assert(memory[0] == RecordKind::Memory && graph[0] == RecordKind::Entity && graph[1] == RecordKind::Relation && graph[2] == RecordKind::Event
        && notes[0] == RecordKind::Chunk);
    assert(memory.len() == 1 && graph.len() == 3 && notes.len() == 1);
    assert forall|k: RecordKind| #[trigger] kinds_enabled(s).contains(k) <==> switched_on(s, k) by {
        let a = kinds_if(target_on(s.memory, VectorizeTarget::Memory), VectorizeTarget::Memory);
        let b = kinds_if(target_on(s.graph, VectorizeTarget::Graph), VectorizeTarget::Graph);
        let c = kinds_if(target_on(s.notes, VectorizeTarget::Notes), VectorizeTarget::Notes);
        three_parts(a, b, c, k);
        kinds_of_target(target_on(s.memory, VectorizeTarget::Memory), VectorizeTarget::Memory, k);
        kinds_of_target(target_on(s.graph, VectorizeTarget::Graph), VectorizeTarget::Graph, k);
        kinds_of_target(target_on(s.notes, VectorizeTarget::Notes), VectorizeTarget::Notes, k);
    }
    assert forall|k: RecordKind| #[trigger] kinds_ready(s, r).contains(k) <==> switched_on(s, k) && filled_for(r, k) by {
        let a = kinds_if(target_on(s.memory, VectorizeTarget::Memory) && r.memory, VectorizeTarget::Memory);
        let b = kinds_if(target_on(s.graph, VectorizeTarget::Graph) && r.graph, VectorizeTarget::Graph);
        let c = kinds_if(target_on(s.notes, VectorizeTarget::Notes) && r.notes, VectorizeTarget::Notes);
        three_parts(a, b, c, k);
        kinds_of_target(target_on(s.memory, VectorizeTarget::Memory) && r.memory, VectorizeTarget::Memory, k);
        kinds_of_target(target_on(s.graph, VectorizeTarget::Graph) && r.graph, VectorizeTarget::Graph, k);
        kinds_of_target(target_on(s.notes, VectorizeTarget::Notes) && r.notes, VectorizeTarget::Notes, k);
    }
}

proof fn kinds_of_target(on: bool, target: VectorizeTarget, k: RecordKind)
    ensures
        kinds_if(on, target).contains(k) <==> on && match target {
            VectorizeTarget::Memory => k == RecordKind::Memory,
            VectorizeTarget::Graph => k == RecordKind::Entity || k == RecordKind::Relation || k == RecordKind::Event,
            VectorizeTarget::Notes => k == RecordKind::Chunk,
        },
{
    let list = target_kinds(target);
    assert(list[0] == list[0]);
    if target == VectorizeTarget::Graph {
        assert(list[0] == RecordKind::Entity && list[1] == RecordKind::Relation && list[2] == RecordKind::Event);
    }
    if list.contains(k) {
        let i = choose|i: int| 0 <= i < list.len() && list[i] == k;
        assert(0 <= i < 3);
    }
}

proof fn three_parts(a: Seq<RecordKind>, b: Seq<RecordKind>, c: Seq<RecordKind>, k: RecordKind)
    ensures
        (a + b + c).contains(k) <==> a.contains(k) || b.contains(k) || c.contains(k),
{
    let all = a + b + c;
    if a.contains(k) {
        let i = choose|i: int| 0 <= i < a.len() && a[i] == k;
        assert(all[i] == k);
    }
    if b.contains(k) {
        let i = choose|i: int| 0 <= i < b.len() && b[i] == k;
        assert(all[a.len() + i] == k);
    }
    if c.contains(k) {
        let i = choose|i: int| 0 <= i < c.len() && c[i] == k;
        assert(all[a.len() + b.len() + i] == k);
    }
    if all.contains(k) {
        let i = choose|i: int| 0 <= i < all.len() && all[i] == k;
        if i < a.len() {
            assert(a[i] == k);
        } else if i < a.len() + b.len() {
            assert(b[i - a.len()] == k);
        } else {
            assert(c[i - a.len() - b.len()] == k);
        }
    }
}

/// Appends the kinds of a target where a condition holds.
fn push_kinds_if(out: &mut Vec<RecordKind>, on: bool, target: VectorizeTarget)
    ensures
        final(out)@ == old(out)@ + kinds_if(on, target),
{
    let ghost before = out@;
    if on {
        let mut kinds = target.kinds();
        out.append(&mut kinds);
    }
    assert(out@ == before + kinds_if(on, target));
}

/// The kinds that get vectors in a namespace. Filling and searching both go by it.
pub fn enabled_kinds(s: Switches) -> (out: Vec<RecordKind>)
    ensures
        out@ == kinds_enabled(s),
        forall|k: RecordKind| #[trigger] out@.contains(k) <==> switched_on(s, k),
{
    proof {
        switches_decide(s, Readiness { memory: true, graph: true, notes: true });
    }
    let mut out: Vec<RecordKind> = Vec::new();
    if !namespace_vectorization(s.master) {
        return out;
    }
    push_kinds_if(&mut out, target_vectorization(s.memory, VectorizeTarget::Memory), VectorizeTarget::Memory);
    push_kinds_if(&mut out, target_vectorization(s.graph, VectorizeTarget::Graph), VectorizeTarget::Graph);
    push_kinds_if(&mut out, target_vectorization(s.notes, VectorizeTarget::Notes), VectorizeTarget::Notes);
    assert(out@ == kinds_enabled(s));
    out
}

/// The kinds whose vectors may be searched in a namespace.
pub fn ready_kinds(s: Switches, r: Readiness) -> (out: Vec<RecordKind>)
    ensures
        out@ == kinds_ready(s, r),
        forall|k: RecordKind| #[trigger] out@.contains(k) <==> switched_on(s, k) && filled_for(r, k),
{
    proof {
        switches_decide(s, r);
    }
    let mut out: Vec<RecordKind> = Vec::new();
    if !namespace_vectorization(s.master) {
        return out;
    }
    push_kinds_if(&mut out, target_vectorization(s.memory, VectorizeTarget::Memory) && r.memory, VectorizeTarget::Memory);
    push_kinds_if(&mut out, target_vectorization(s.graph, VectorizeTarget::Graph) && r.graph, VectorizeTarget::Graph);
    push_kinds_if(&mut out, target_vectorization(s.notes, VectorizeTarget::Notes) && r.notes, VectorizeTarget::Notes);
    assert(out@ == kinds_ready(s, r));
    out
}

/// What may be searched is always a part of what gets vectors; a switched off master leaves
/// neither.
pub proof fn ready_kinds_are_enabled(s: Switches, r: Readiness, kind: RecordKind)
    requires
        kinds_ready(s, r).contains(kind),
    ensures
        kinds_enabled(s).contains(kind),
        master_on(s),
{
    let ready = kinds_ready(s, r);
    let a = kinds_if(target_on(s.memory, VectorizeTarget::Memory), VectorizeTarget::Memory);
    let b = kinds_if(target_on(s.graph, VectorizeTarget::Graph), VectorizeTarget::Graph);
    let c = kinds_if(target_on(s.notes, VectorizeTarget::Notes), VectorizeTarget::Notes);
    let ra = kinds_if(target_on(s.memory, VectorizeTarget::Memory) && r.memory, VectorizeTarget::Memory);
    let rb = kinds_if(target_on(s.graph, VectorizeTarget::Graph) && r.graph, VectorizeTarget::Graph);
    let rc = kinds_if(target_on(s.notes, VectorizeTarget::Notes) && r.notes, VectorizeTarget::Notes);
    let i = choose|i: int| 0 <= i < ready.len() && ready[i] == kind;
    let all = kinds_enabled(s);
    assert(ready == ra + rb + rc);
    assert(all == a + b + c);
    if i < ra.len() {
        assert(all[i] == kind);
    } else if i < ra.len() + rb.len() {
        assert(all[a.len() + (i - ra.len())] == kind);
    } else {
        assert(all[a.len() + b.len() + (i - ra.len() - rb.len())] == kind);
    }
}

// ── Keys ──────────────────────────────────────────────────────────────

/// The key of a namespace's master switch.
pub open spec fn master_key(namespace: Seq<char>) -> Seq<char> {
    "vectorize:"@ + text::tag_form(namespace)
}

/// The key of a namespace's master switch.
pub fn vectorize_key(namespace: &str) -> (out: String)
    ensures
        out@ == master_key(namespace@),
{
    chars::concat("vectorize:", text::normalized_tag(namespace).as_str())
}

/// The switches of a namespace have keys of their own: one for all, and one for each target. Namespaces
/// share them exactly where their stored forms are the same.
pub proof fn keys_tell_switches_apart(a: Seq<char>, b: Seq<char>, x: VectorizeTarget, y: VectorizeTarget)
    ensures
        chars::begins_with(master_key(a), "vectorize:"@),
        master_key(a) == master_key(b) <==> text::tag_form(a) == text::tag_form(b),
        x != y ==> master_key(a) + ":"@ + target_name(x) != master_key(a) + ":"@ + target_name(y),
        master_key(a) + ":"@ + target_name(x) != master_key(a),
{
    let head = "vectorize:"@;
    reveal_strlit("vectorize:");
    reveal_strlit(":");
    reveal_strlit("memory");
    reveal_strlit("graph");
    reveal_strlit("notes");
    assert(master_key(a).take(head.len() as int) == head);
    assert(master_key(a).subrange(0, head.len() as int) == head);
    assert(master_key(a).skip(head.len() as int) == text::tag_form(a));
    assert(master_key(b).skip(head.len() as int) == text::tag_form(b));
    let front = master_key(a) + ":"@;
    assert((front + target_name(x)).skip(front.len() as int) == target_name(x));
    assert((front + target_name(y)).skip(front.len() as int) == target_name(y));
    assert("graph"@[0] == 'g' && "notes"@[0] == 'n' && "memory"@[0] == 'm');
    assert((front + target_name(x)).len() > master_key(a).len());
}

/// The key of the switch of one target.
pub fn target_vectorize_key(namespace: &str, target: VectorizeTarget) -> (out: String)
    ensures
        out@ == master_key(namespace@) + ":"@ + target_name(target),
{
    let mut out = vectorize_key(namespace);
    out.append(":");
    out.append(target.as_str());
    out
}

/// What the keys of all readiness marks of a namespace begin with.
pub open spec fn ready_prefix(namespace: Seq<char>) -> Seq<char> {
    "vector_ready:"@ + text::tag_form(namespace) + ":"@
}

/// The key of the mark that a target of a namespace is filled in a space.
pub open spec fn ready_key(namespace: Seq<char>, space_id: Seq<char>, target: VectorizeTarget) -> Seq<char> {
    ready_prefix(namespace) + space_id + ":"@ + target_name(target)
}

/// The key of the mark that a target of a namespace is filled in a space.
pub fn vector_ready_key(namespace: &str, space_id: &str, target: VectorizeTarget) -> (out: String)
    ensures
        out@ == ready_key(namespace@, space_id@, target),
        out@ == "vector_ready:"@ + text::tag_form(namespace@) + ":"@ + space_id@ + ":"@ + target_name(target),
{
    let mut out = clear_ready_prefix(namespace);
    out.append(space_id);
    out.append(":");
    out.append(target.as_str());
    out
}

/// What the keys of all readiness marks of a namespace begin with.
pub fn clear_ready_prefix(namespace: &str) -> (out: String)
    ensures
        out@ == ready_prefix(namespace@),
{
    let mut out = chars::concat("vector_ready:", text::normalized_tag(namespace).as_str());
    out.append(":");
    out
}

/// Clearing a namespace reaches every readiness mark of it, in every space and for every target.
pub proof fn clearing_reaches_every_mark(namespace: Seq<char>, space_id: Seq<char>, target: VectorizeTarget)
    ensures
        chars::begins_with(ready_key(namespace, space_id, target), ready_prefix(namespace)),
{
    let key = ready_key(namespace, space_id, target);
    let prefix = ready_prefix(namespace);
    assert(key.subrange(0, prefix.len() as int) == prefix);
}

} // verus!
