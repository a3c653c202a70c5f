//! The boundary for bindings of other languages: operations by name, with their arguments and
//! results as JSON.

use crate::chars;
use crate::error;
use crate::error::{Error, ErrorView};
use crate::json;
use crate::json::Json;
use crate::ordering;
use crate::storage;
use crate::types;
use vstd::prelude::*;

verus! {

/// The version of the boundary.
pub const PROTOCOL_VERSION: u32 = 1;

/// What can be asked for.
#[derive(Debug, Clone, Copy, PartialEq, Eq, Structural)]
pub enum Operation {
    Health,
    RebuildIndexes,
    Backup,
    Close,
    Search,
    MemoriesUpsert,
    MemoriesUpsertMany,
    MemoriesUpsertByJudgment,
    MemoriesGet,
    MemoriesList,
    MemoriesDelete,
    MemoriesFeedback,
    MemoriesDecay,
    GraphApplyBatch,
    GraphGet,
    GraphList,
    GraphDelete,
    GraphResolve,
    GraphNeighbors,
    GraphEventsForEntity,
    GraphEgo,
    GraphPath,
    GraphStronglyConnected,
    GraphComponentCount,
    NotesUpsert,
    NotesGet,
    NotesList,
    NotesDelete,
    NotesChunks,
    NotesGetChunk,
    EmbeddingsRegisterSpace,
    EmbeddingsSpaces,
    EmbeddingsEmbedderSpace,
    EmbeddingsSync,
    EmbeddingsUnregisterEmbedder,
    EmbeddingsNamespaceVectorization,
    EmbeddingsSetNamespaceVectorization,
    EmbeddingsDeleteSpace,
}

/// The name of an operation.
pub open spec fn operation_name(op: Operation) -> Seq<char> {
    match op {
        Operation::Health => "health"@,
        Operation::RebuildIndexes => "rebuild_indexes"@,
        Operation::Backup => "backup"@,
        Operation::Close => "close"@,
        Operation::Search => "search"@,
        Operation::MemoriesUpsert => "memories.upsert"@,
        Operation::MemoriesUpsertMany => "memories.upsert_many"@,
        Operation::MemoriesUpsertByJudgment => "memories.upsert_by_judgment"@,
        Operation::MemoriesGet => "memories.get"@,
        Operation::MemoriesList => "memories.list"@,
        Operation::MemoriesDelete => "memories.delete"@,
        Operation::MemoriesFeedback => "memories.feedback"@,
        Operation::MemoriesDecay => "memories.decay"@,
        Operation::GraphApplyBatch => "graph.apply_batch"@,
        Operation::GraphGet => "graph.get"@,
        Operation::GraphList => "graph.list"@,
        Operation::GraphDelete => "graph.delete"@,
        Operation::GraphResolve => "graph.resolve"@,
        Operation::GraphNeighbors => "graph.neighbors"@,
        Operation::GraphEventsForEntity => "graph.events_for_entity"@,
        Operation::GraphEgo => "graph.ego"@,
        Operation::GraphPath => "graph.path"@,
        Operation::GraphStronglyConnected => "graph.strongly_connected"@,
        Operation::GraphComponentCount => "graph.component_count"@,
        Operation::NotesUpsert => "notes.upsert"@,
        Operation::NotesGet => "notes.get"@,
        Operation::NotesList => "notes.list"@,
        Operation::NotesDelete => "notes.delete"@,
        Operation::NotesChunks => "notes.chunks"@,
        Operation::NotesGetChunk => "notes.get_chunk"@,
        Operation::EmbeddingsRegisterSpace => "embeddings.register_space"@,
        Operation::EmbeddingsSpaces => "embeddings.spaces"@,
        Operation::EmbeddingsEmbedderSpace => "embeddings.embedder_space"@,
        Operation::EmbeddingsSync => "embeddings.sync"@,
        Operation::EmbeddingsUnregisterEmbedder => "embeddings.unregister_embedder"@,
        Operation::EmbeddingsNamespaceVectorization => "embeddings.namespace_vectorization"@,
        Operation::EmbeddingsSetNamespaceVectorization => "embeddings.set_namespace_vectorization"@,
        Operation::EmbeddingsDeleteSpace => "embeddings.delete_space"@,
    }
}

/// An argument of an operation: its name, and whether the operation cannot do without it.
pub open spec fn argument_view(argument: (String, bool)) -> (Seq<char>, bool) {
    (argument.0@, argument.1)
}

/// The arguments of a list.
pub open spec fn argument_views(list: Seq<(String, bool)>) -> Seq<(Seq<char>, bool)> {
    Seq::new(list.len(), |i: int| argument_view(list[i]))
}

/// The arguments that an operation reads one by one, in the order in which it reads them. Operations
/// whose arguments are one value as a whole name none here.
pub open spec fn arguments(op: Operation) -> Seq<(Seq<char>, bool)> {
    match op {
        Operation::Backup => seq![("path"@, true)],
        Operation::MemoriesDecay => seq![("filter"@, false), ("policy"@, false), ("now_us"@, false)],
        Operation::GraphList => seq![("kind"@, true), ("page"@, false)],
        Operation::GraphResolve => seq![("name"@, true), ("filter"@, false), ("limit"@, false)],
        Operation::GraphNeighbors => seq![("id"@, true), ("filter"@, false), ("limit"@, false)],
        Operation::GraphEventsForEntity => seq![("id"@, true), ("filter"@, false), ("limit"@, false)],
        Operation::GraphEgo => seq![("id"@, true), ("depth"@, false), ("limit"@, false), ("filter"@, false)],
        Operation::GraphPath => seq![("from"@, true), ("to"@, true), ("filter"@, false)],
        Operation::GraphStronglyConnected => seq![("filter"@, false)],
        Operation::GraphComponentCount => seq![("filter"@, false)],
        Operation::EmbeddingsEmbedderSpace => seq![("space_id"@, true)],
        Operation::EmbeddingsSync => seq![("space_id"@, true), ("batch"@, true)],
        Operation::EmbeddingsUnregisterEmbedder => seq![("space_id"@, true)],
        Operation::EmbeddingsNamespaceVectorization => seq![("namespace"@, true)],
        Operation::EmbeddingsSetNamespaceVectorization => seq![("namespace"@, true), ("enabled"@, true)],
        Operation::EmbeddingsDeleteSpace => seq![("id"@, true)],
        _ => Seq::empty(),
    }
}

/// An operation has this name.
pub open spec fn names_operation(name: Seq<char>) -> bool {
    exists|op: Operation| #[trigger] operation_name(op) == name
}

/// The operation of a name.
pub fn parse_operation(name: &str) -> (out: Result<Operation, Error>)
    ensures
        storage::refused(out, if names_operation(name@) {
            None
        } else {
            Some(ErrorView::Validation("unknown operation: "@ + name@))
        }),
        out matches Ok(op) ==> operation_name(op) == name@,
{
    if ordering::same_text(name, "health") {
        assert(operation_name(Operation::Health) == name@);
        return Ok(Operation::Health);
    }
    if ordering::same_text(name, "rebuild_indexes") {
        assert(operation_name(Operation::RebuildIndexes) == name@);
        return Ok(Operation::RebuildIndexes);
    }
    if ordering::same_text(name, "backup") {
        assert(operation_name(Operation::Backup) == name@);
        return Ok(Operation::Backup);
    }
    if ordering::same_text(name, "close") {
        assert(operation_name(Operation::Close) == name@);
        return Ok(Operation::Close);
    }
    if ordering::same_text(name, "search") {
        assert(operation_name(Operation::Search) == name@);
        return Ok(Operation::Search);
    }
    if ordering::same_text(name, "memories.upsert") {
        assert(operation_name(Operation::MemoriesUpsert) == name@);
        return Ok(Operation::MemoriesUpsert);
    }
    if ordering::same_text(name, "memories.upsert_many") {
        assert(operation_name(Operation::MemoriesUpsertMany) == name@);
        return Ok(Operation::MemoriesUpsertMany);
    }
    if ordering::same_text(name, "memories.upsert_by_judgment") {
        assert(operation_name(Operation::MemoriesUpsertByJudgment) == name@);
        return Ok(Operation::MemoriesUpsertByJudgment);
    }
    if ordering::same_text(name, "memories.get") {
        assert(operation_name(Operation::MemoriesGet) == name@);
        return Ok(Operation::MemoriesGet);
    }
    if ordering::same_text(name, "memories.list") {
        assert(operation_name(Operation::MemoriesList) == name@);
        return Ok(Operation::MemoriesList);
    }
    if ordering::same_text(name, "memories.delete") {
        assert(operation_name(Operation::MemoriesDelete) == name@);
        return Ok(Operation::MemoriesDelete);
    }
    if ordering::same_text(name, "memories.feedback") {
        assert(operation_name(Operation::MemoriesFeedback) == name@);
        return Ok(Operation::MemoriesFeedback);
    }
    if ordering::same_text(name, "memories.decay") {
        assert(operation_name(Operation::MemoriesDecay) == name@);
        return Ok(Operation::MemoriesDecay);
    }
    if ordering::same_text(name, "graph.apply_batch") {
        assert(operation_name(Operation::GraphApplyBatch) == name@);
        return Ok(Operation::GraphApplyBatch);
    }
    if ordering::same_text(name, "graph.get") {
        assert(operation_name(Operation::GraphGet) == name@);
        return Ok(Operation::GraphGet);
    }
    if ordering::same_text(name, "graph.list") {
        assert(operation_name(Operation::GraphList) == name@);
        return Ok(Operation::GraphList);
    }
    if ordering::same_text(name, "graph.delete") {
        assert(operation_name(Operation::GraphDelete) == name@);
        return Ok(Operation::GraphDelete);
    }
    if ordering::same_text(name, "graph.resolve") {
        assert(operation_name(Operation::GraphResolve) == name@);
        return Ok(Operation::GraphResolve);
    }
    if ordering::same_text(name, "graph.neighbors") {
        assert(operation_name(Operation::GraphNeighbors) == name@);
        return Ok(Operation::GraphNeighbors);
    }
    if ordering::same_text(name, "graph.events_for_entity") {
        assert(operation_name(Operation::GraphEventsForEntity) == name@);
        return Ok(Operation::GraphEventsForEntity);
    }
    if ordering::same_text(name, "graph.ego") {
        assert(operation_name(Operation::GraphEgo) == name@);
        return Ok(Operation::GraphEgo);
    }
    if ordering::same_text(name, "graph.path") {
        assert(operation_name(Operation::GraphPath) == name@);
        return Ok(Operation::GraphPath);
    }
    if ordering::same_text(name, "graph.strongly_connected") {
        assert(operation_name(Operation::GraphStronglyConnected) == name@);
        return Ok(Operation::GraphStronglyConnected);
    }
    if ordering::same_text(name, "graph.component_count") {
        assert(operation_name(Operation::GraphComponentCount) == name@);
        return Ok(Operation::GraphComponentCount);
    }
    if ordering::same_text(name, "notes.upsert") {
        assert(operation_name(Operation::NotesUpsert) == name@);
        return Ok(Operation::NotesUpsert);
    }
    if ordering::same_text(name, "notes.get") {
        assert(operation_name(Operation::NotesGet) == name@);
        return Ok(Operation::NotesGet);
    }
    if ordering::same_text(name, "notes.list") {
        assert(operation_name(Operation::NotesList) == name@);
        return Ok(Operation::NotesList);
    }
    if ordering::same_text(name, "notes.delete") {
        assert(operation_name(Operation::NotesDelete) == name@);
        return Ok(Operation::NotesDelete);
    }
    if ordering::same_text(name, "notes.chunks") {
        assert(operation_name(Operation::NotesChunks) == name@);
        return Ok(Operation::NotesChunks);
    }
    if ordering::same_text(name, "notes.get_chunk") {
        assert(operation_name(Operation::NotesGetChunk) == name@);
        return Ok(Operation::NotesGetChunk);
    }
    if ordering::same_text(name, "embeddings.register_space") {
        assert(operation_name(Operation::EmbeddingsRegisterSpace) == name@);
        return Ok(Operation::EmbeddingsRegisterSpace);
    }
    if ordering::same_text(name, "embeddings.spaces") {
        assert(operation_name(Operation::EmbeddingsSpaces) == name@);
        return Ok(Operation::EmbeddingsSpaces);
    }
    if ordering::same_text(name, "embeddings.embedder_space") {
        assert(operation_name(Operation::EmbeddingsEmbedderSpace) == name@);
        return Ok(Operation::EmbeddingsEmbedderSpace);
    }
    if ordering::same_text(name, "embeddings.sync") {
        assert(operation_name(Operation::EmbeddingsSync) == name@);
        return Ok(Operation::EmbeddingsSync);
    }
    if ordering::same_text(name, "embeddings.unregister_embedder") {
        assert(operation_name(Operation::EmbeddingsUnregisterEmbedder) == name@);
        return Ok(Operation::EmbeddingsUnregisterEmbedder);
    }
    if ordering::same_text(name, "embeddings.namespace_vectorization") {
        assert(operation_name(Operation::EmbeddingsNamespaceVectorization) == name@);
        return Ok(Operation::EmbeddingsNamespaceVectorization);
    }
    if ordering::same_text(name, "embeddings.set_namespace_vectorization") {
        assert(operation_name(Operation::EmbeddingsSetNamespaceVectorization) == name@);
        return Ok(Operation::EmbeddingsSetNamespaceVectorization);
    }
    if ordering::same_text(name, "embeddings.delete_space") {
        assert(operation_name(Operation::EmbeddingsDeleteSpace) == name@);
        return Ok(Operation::EmbeddingsDeleteSpace);
    }
    assert forall|op: Operation| #[trigger] operation_name(op) != name@ by {
        match op {
            Operation::Health => {},
            Operation::RebuildIndexes => {},
            Operation::Backup => {},
            Operation::Close => {},
            Operation::Search => {},
            Operation::MemoriesUpsert => {},
            Operation::MemoriesUpsertMany => {},
            Operation::MemoriesUpsertByJudgment => {},
            Operation::MemoriesGet => {},
            Operation::MemoriesList => {},
            Operation::MemoriesDelete => {},
            Operation::MemoriesFeedback => {},
            Operation::MemoriesDecay => {},
            Operation::GraphApplyBatch => {},
            Operation::GraphGet => {},
            Operation::GraphList => {},
            Operation::GraphDelete => {},
            Operation::GraphResolve => {},
            Operation::GraphNeighbors => {},
            Operation::GraphEventsForEntity => {},
            Operation::GraphEgo => {},
            Operation::GraphPath => {},
            Operation::GraphStronglyConnected => {},
            Operation::GraphComponentCount => {},
            Operation::NotesUpsert => {},
            Operation::NotesGet => {},
            Operation::NotesList => {},
            Operation::NotesDelete => {},
            Operation::NotesChunks => {},
            Operation::NotesGetChunk => {},
            Operation::EmbeddingsRegisterSpace => {},
            Operation::EmbeddingsSpaces => {},
            Operation::EmbeddingsEmbedderSpace => {},
            Operation::EmbeddingsSync => {},
            Operation::EmbeddingsUnregisterEmbedder => {},
            Operation::EmbeddingsNamespaceVectorization => {},
            Operation::EmbeddingsSetNamespaceVectorization => {},
            Operation::EmbeddingsDeleteSpace => {},
        }
    }
    Err(Error::Validation(chars::concat("unknown operation: ", name)))
}

/// Arguments that could not be decoded, each with what was told of it.
pub open spec fn fault_views(faults: Seq<(String, String)>) -> Seq<(Seq<char>, Seq<char>)> {
    Seq::new(faults.len(), |i: int| (faults[i].0@, faults[i].1@))
}

/// What was told of an argument that could not be decoded.
pub open spec fn fault_of(faults: Seq<(Seq<char>, Seq<char>)>, name: Seq<char>) -> Option<Seq<char>>
    decreases faults.len(),
{
    if faults.len() == 0 {
        None
    } else if faults[0].0 == name {
        Some(faults[0].1)
    } else {
        fault_of(faults.drop_first(), name)
    }
}

/// What is wrong with the arguments of a call. They are read in order, and the first that is missing
/// though it is needed, or that is there and cannot be decoded, decides.
pub open spec fn argument_error(
    args: json::Tree,
    list: Seq<(Seq<char>, bool)>,
    faults: Seq<(Seq<char>, Seq<char>)>,
) -> Option<ErrorView>
    decreases list.len(),
{
    if list.len() == 0 {
        None
    } else if json::member(args, list[0].0) is None {
        if list[0].1 {
            Some(ErrorView::Validation("missing "@ + list[0].0))
        } else {
            argument_error(args, list.drop_first(), faults)
        }
    } else {
        match fault_of(faults, list[0].0) {
            Some(message) => Some(ErrorView::Json(message)),
            None => argument_error(args, list.drop_first(), faults),
        }
    }
}

/// The operations go by these names.
pub proof fn operations_have_their_names()
    ensures
        operation_name(Operation::Health) == "health"@,
        operation_name(Operation::RebuildIndexes) == "rebuild_indexes"@,
        operation_name(Operation::Backup) == "backup"@,
        operation_name(Operation::Close) == "close"@,
        operation_name(Operation::Search) == "search"@,
        operation_name(Operation::MemoriesUpsert) == "memories.upsert"@,
        operation_name(Operation::MemoriesUpsertMany) == "memories.upsert_many"@,
        operation_name(Operation::MemoriesUpsertByJudgment) == "memories.upsert_by_judgment"@,
        operation_name(Operation::MemoriesGet) == "memories.get"@,
        operation_name(Operation::MemoriesList) == "memories.list"@,
        operation_name(Operation::MemoriesDelete) == "memories.delete"@,
        operation_name(Operation::MemoriesFeedback) == "memories.feedback"@,
        operation_name(Operation::MemoriesDecay) == "memories.decay"@,
        operation_name(Operation::GraphApplyBatch) == "graph.apply_batch"@,
        operation_name(Operation::GraphGet) == "graph.get"@,
        operation_name(Operation::GraphList) == "graph.list"@,
        operation_name(Operation::GraphDelete) == "graph.delete"@,
        operation_name(Operation::GraphResolve) == "graph.resolve"@,
        operation_name(Operation::GraphNeighbors) == "graph.neighbors"@,
        operation_name(Operation::GraphEventsForEntity) == "graph.events_for_entity"@,
        operation_name(Operation::GraphEgo) == "graph.ego"@,
        operation_name(Operation::GraphPath) == "graph.path"@,
        operation_name(Operation::GraphStronglyConnected) == "graph.strongly_connected"@,
        operation_name(Operation::GraphComponentCount) == "graph.component_count"@,
        operation_name(Operation::NotesUpsert) == "notes.upsert"@,
        operation_name(Operation::NotesGet) == "notes.get"@,
        operation_name(Operation::NotesList) == "notes.list"@,
        operation_name(Operation::NotesDelete) == "notes.delete"@,
        operation_name(Operation::NotesChunks) == "notes.chunks"@,
        operation_name(Operation::NotesGetChunk) == "notes.get_chunk"@,
        operation_name(Operation::EmbeddingsRegisterSpace) == "embeddings.register_space"@,
        operation_name(Operation::EmbeddingsSpaces) == "embeddings.spaces"@,
        operation_name(Operation::EmbeddingsEmbedderSpace) == "embeddings.embedder_space"@,
        operation_name(Operation::EmbeddingsSync) == "embeddings.sync"@,
        operation_name(Operation::EmbeddingsUnregisterEmbedder) == "embeddings.unregister_embedder"@,
        operation_name(Operation::EmbeddingsNamespaceVectorization) == "embeddings.namespace_vectorization"@,
        operation_name(Operation::EmbeddingsSetNamespaceVectorization) == "embeddings.set_namespace_vectorization"@,
        operation_name(Operation::EmbeddingsDeleteSpace) == "embeddings.delete_space"@,
{
}

/// The operations take these arguments, in this order; the others take none by name.
pub proof fn operations_take_their_arguments()
    ensures
        arguments(Operation::Backup) == seq![("path"@, true)],
        arguments(Operation::MemoriesDecay) == seq![("filter"@, false), ("policy"@, false), ("now_us"@, false)],
        arguments(Operation::GraphList) == seq![("kind"@, true), ("page"@, false)],
        arguments(Operation::GraphResolve) == seq![("name"@, true), ("filter"@, false), ("limit"@, false)],
        arguments(Operation::GraphNeighbors) == seq![("id"@, true), ("filter"@, false), ("limit"@, false)],
        arguments(Operation::GraphEventsForEntity) == seq![("id"@, true), ("filter"@, false), ("limit"@, false)],
        arguments(Operation::GraphEgo) == seq![("id"@, true), ("depth"@, false), ("limit"@, false), ("filter"@, false)],
        arguments(Operation::GraphPath) == seq![("from"@, true), ("to"@, true), ("filter"@, false)],
        arguments(Operation::GraphStronglyConnected) == seq![("filter"@, false)],
        arguments(Operation::GraphComponentCount) == seq![("filter"@, false)],
        arguments(Operation::EmbeddingsEmbedderSpace) == seq![("space_id"@, true)],
        arguments(Operation::EmbeddingsSync) == seq![("space_id"@, true), ("batch"@, true)],
        arguments(Operation::EmbeddingsUnregisterEmbedder) == seq![("space_id"@, true)],
        arguments(Operation::EmbeddingsNamespaceVectorization) == seq![("namespace"@, true)],
        arguments(Operation::EmbeddingsSetNamespaceVectorization) == seq![("namespace"@, true), ("enabled"@, true)],
        arguments(Operation::EmbeddingsDeleteSpace) == seq![("id"@, true)],
        arguments(Operation::Health).len() == 0,
        arguments(Operation::RebuildIndexes).len() == 0,
        arguments(Operation::Close).len() == 0,
        arguments(Operation::Search).len() == 0,
        arguments(Operation::MemoriesUpsert).len() == 0,
        arguments(Operation::MemoriesUpsertMany).len() == 0,
        arguments(Operation::MemoriesUpsertByJudgment).len() == 0,
        arguments(Operation::MemoriesGet).len() == 0,
        arguments(Operation::MemoriesList).len() == 0,
        arguments(Operation::MemoriesDelete).len() == 0,
        arguments(Operation::MemoriesFeedback).len() == 0,
        arguments(Operation::GraphApplyBatch).len() == 0,
        arguments(Operation::GraphGet).len() == 0,
        arguments(Operation::GraphDelete).len() == 0,
        arguments(Operation::NotesUpsert).len() == 0,
        arguments(Operation::NotesGet).len() == 0,
        arguments(Operation::NotesList).len() == 0,
        arguments(Operation::NotesDelete).len() == 0,
        arguments(Operation::NotesChunks).len() == 0,
        arguments(Operation::NotesGetChunk).len() == 0,
        arguments(Operation::EmbeddingsRegisterSpace).len() == 0,
        arguments(Operation::EmbeddingsSpaces).len() == 0,
{
}

/// Arguments are refused exactly where a needed one is missing, or one that is there could not be
/// read. The first such argument decides.
pub proof fn every_argument_counts(args: json::Tree, list: Seq<(Seq<char>, bool)>, faults: Seq<(Seq<char>, Seq<char>)>)
    ensures
        argument_error(args, list, faults) is None <==> forall|i: int|
            0 <= i < list.len() ==> {
                let given = json::member(args, (#[trigger] list[i]).0) is Some;
                &&& !given ==> !list[i].1
                &&& given ==> forall|j: int| 0 <= j < faults.len() ==> (#[trigger] faults[j]).0 != list[i].0
            },
    decreases list.len(),
{
    if list.len() > 0 {
        let rest = list.drop_first();
        every_argument_counts(args, rest, faults);
        fault_is_found(faults, list[0].0);
        if argument_error(args, list, faults) is None {
            assert forall|i: int| 0 <= i < list.len() implies ({
                let given = json::member(args, (#[trigger] list[i]).0) is Some;
                &&& !given ==> !list[i].1
                &&& given ==> forall|j: int| 0 <= j < faults.len() ==> (#[trigger] faults[j]).0 != list[i].0
            }) by {
                if i > 0 {
                    assert(list[i] == rest[i - 1]);
                }
            }
        }
        if forall|i: int|
            0 <= i < list.len() ==> {
                let given = json::member(args, (#[trigger] list[i]).0) is Some;
                &&& !given ==> !list[i].1
                &&& given ==> forall|j: int| 0 <= j < faults.len() ==> (#[trigger] faults[j]).0 != list[i].0
            } {
            assert(list[0] == list[0]);
            assert forall|i: int| 0 <= i < rest.len() implies ({
                let given = json::member(args, (#[trigger] rest[i]).0) is Some;
                &&& !given ==> !rest[i].1
                &&& given ==> forall|j: int| 0 <= j < faults.len() ==> (#[trigger] faults[j]).0 != rest[i].0
            }) by {
                assert(rest[i] == list[i + 1]);
            }
        }
    }
}

proof fn fault_is_found(faults: Seq<(Seq<char>, Seq<char>)>, name: Seq<char>)
    ensures
        fault_of(faults, name) is None <==> forall|j: int| 0 <= j < faults.len() ==> (#[trigger] faults[j]).0 != name,
    decreases faults.len(),
{
    if faults.len() > 0 && faults[0].0 != name {
        let rest = faults.drop_first();
        fault_is_found(rest, name);
        if fault_of(rest, name) is None {
            assert forall|j: int| 0 <= j < faults.len() implies (#[trigger] faults[j]).0 != name by {
                if j > 0 {
                    assert(faults[j] == rest[j - 1]);
                }
            }
        }
        if forall|j: int| 0 <= j < faults.len() ==> (#[trigger] faults[j]).0 != name {
            assert forall|j: int| 0 <= j < rest.len() implies (#[trigger] rest[j]).0 != name by {
                assert(rest[j] == faults[j + 1]);
            }
        }
    }
}

/// An argument by name.
fn argument(name: &str, needed: bool) -> (out: (String, bool))
    ensures
        argument_view(out) == (name@, needed),
{
    (name.to_owned(), needed)
}

/// The arguments that an operation reads one by one, in order.
pub fn arguments_of(op: Operation) -> (out: Vec<(String, bool)>)
    ensures
        argument_views(out@) == arguments(op),
{
    let out: Vec<(String, bool)> = match op {
        Operation::Backup => vec![argument("path", true)],
        Operation::MemoriesDecay => vec![argument("filter", false), argument("policy", false), argument("now_us", false)],
        Operation::GraphList => vec![argument("kind", true), argument("page", false)],
        Operation::GraphResolve => vec![argument("name", true), argument("filter", false), argument("limit", false)],
        Operation::GraphNeighbors => vec![argument("id", true), argument("filter", false), argument("limit", false)],
        Operation::GraphEventsForEntity => vec![argument("id", true), argument("filter", false), argument("limit", false)],
        Operation::GraphEgo => vec![argument("id", true), argument("depth", false), argument("limit", false), argument("filter", false)],
        Operation::GraphPath => vec![argument("from", true), argument("to", true), argument("filter", false)],
        Operation::GraphStronglyConnected => vec![argument("filter", false)],
        Operation::GraphComponentCount => vec![argument("filter", false)],
        Operation::EmbeddingsEmbedderSpace => vec![argument("space_id", true)],
        Operation::EmbeddingsSync => vec![argument("space_id", true), argument("batch", true)],
        Operation::EmbeddingsUnregisterEmbedder => vec![argument("space_id", true)],
        Operation::EmbeddingsNamespaceVectorization => vec![argument("namespace", true)],
        Operation::EmbeddingsSetNamespaceVectorization => vec![argument("namespace", true), argument("enabled", true)],
        Operation::EmbeddingsDeleteSpace => vec![argument("id", true)],
        _ => Vec::new(),
    };
    assert(argument_views(out@) == arguments(op));
    out
}

fn find_fault(faults: &Vec<(String, String)>, name: &str) -> (out: Option<String>)
    ensures
        types::optional_text(out) == fault_of(fault_views(faults@), name@),
{
    let ghost all = fault_views(faults@);
    let mut i: usize = 0;
    assert(all.skip(0) == all);
    while i < faults.len()
        invariant
            i <= faults.len(),
            all == fault_views(faults@),
            fault_of(all.skip(i as int), name@) == fault_of(all, name@),
        decreases faults.len() - i,
    {
        assert(all.skip(i as int)[0] == all[i as int]);
        assert(all.skip(i as int).drop_first() == all.skip(i + 1));
        if ordering::same_text(faults[i].0.as_str(), name) {
            return Some(faults[i].1.clone());
        }
        i = i + 1;
    }
    None
}

/// Checks the arguments of a call. `faults` tells of each argument that is there and cannot be decoded
/// what the decoder said.
fn check_arguments(op: Operation, args: &Json, faults: &Vec<(String, String)>) -> (out: Result<(), Error>)
    ensures
        storage::refused(out, argument_error(json::tree(*args), arguments(op), fault_views(faults@))),
{
    let list = arguments_of(op);
    let ghost all = argument_views(list@);
    let ghost given = json::tree(*args);
    let ghost told = fault_views(faults@);
    let mut i: usize = 0;
    assert(all.skip(0) == all);
    while i < list.len()
        invariant
            i <= list.len(),
            all == argument_views(list@),
            all == arguments(op),
            given == json::tree(*args),
            told == fault_views(faults@),
            argument_error(given, all.skip(i as int), told) == argument_error(given, all, told),
        decreases list.len() - i,
    {
        assert(all.skip(i as int)[0] == all[i as int]);
        assert(all.skip(i as int).drop_first() == all.skip(i + 1));
        let name = list[i].0.as_str();
        if json::get(args, name).is_none() {
            if list[i].1 {
                return Err(Error::Validation(chars::concat("missing ", name)));
            }
        } else if let Some(message) = find_fault(faults, name) {
            return Err(Error::Json(message));
        }
        i = i + 1;
    }
    Ok(())
}

/// Checks a call and gives its operation. `faults` tells of each argument that is there and cannot be
/// decoded what the decoder said: its name and the message.
pub fn dispatch(operation: &str, args: &Json, faults: &Vec<(String, String)>) -> (out: Result<Operation, Error>)
    ensures
        match out {
            Ok(op) => operation_name(op) == operation@ && argument_error(
                json::tree(*args),
                arguments(op),
                fault_views(faults@),
            ) is None,
            Err(e) => if names_operation(operation@) {
                exists|op: Operation| #[trigger]
                    operation_name(op) == operation@ && argument_error(json::tree(*args), arguments(op), fault_views(faults@)) == Some(
                        e@,
                    )
            } else {
                e@ == ErrorView::Validation("unknown operation: "@ + operation@)
            },
        },
{
    let op = parse_operation(operation)?;
    assert(names_operation(operation@));
    check_arguments(op, args, faults)?;
    Ok(op)
}

/// How many results an operation gives where the call does not say.
pub fn default_limit(op: Operation) -> (out: usize)
    ensures
        out == (if op == Operation::GraphResolve { 10usize } else { 50usize }),
{
    if op == Operation::GraphResolve {
        10
    } else {
        50
    }
}

/// How far a neighbourhood reaches where the call does not say.
pub fn default_depth() -> (out: usize)
    ensures
        out == 1,
{
    1
}

/// The answer to a call as a tree.
pub open spec fn answer(result: Result<Json, Error>) -> json::Tree {
    match result {
        Ok(value) => json::Tree::Object(
            json::with_fields(Seq::empty(), seq![("ok"@, json::Tree::Bool(true)), ("result"@, json::tree(value))]),
        ),
        Err(e) => json::Tree::Object(
            json::with_fields(
                Seq::empty(),
                seq![
                    ("ok"@, json::Tree::Bool(false)),
                    (
                        "error"@,
                        json::Tree::Object(
                            json::with_fields(
                                Seq::empty(),
                                seq![
                                    ("code"@, json::Tree::Text(error::error_code(e@))),
                                    ("message"@, json::Tree::Text(error::error_message(e@))),
                                ],
                            ),
                        ),
                    ),
                ],
            ),
        ),
    }
}

/// An answer says whether the call succeeded. It holds the result where it did, and the code and the
/// message of the error where it did not, never both.
pub proof fn answers_tell_the_outcome(result: Result<Json, Error>)
    ensures
        json::member(answer(result), "ok"@) == Some(json::Tree::Bool(result is Ok)),
        result matches Ok(value) ==> json::member(answer(result), "result"@) == Some(json::tree(value)) && json::member(answer(result), "error"@) is None,
        result matches Err(e) ==> json::member(answer(result), "result"@) is None && (json::member(answer(result), "error"@) matches Some(told) && {
            &&& json::member(told, "code"@) == Some(json::Tree::Text(error::error_code(e@)))
            &&& json::member(told, "message"@) == Some(json::Tree::Text(error::error_message(e@)))
        }),
{
    let none = Seq::<(Seq<char>, json::Tree)>::empty();
    reveal_strlit("ok");
    reveal_strlit("result");
    reveal_strlit("error");
    reveal_strlit("code");
    reveal_strlit("message");
    assert("ok"@.len() == 2 && "result"@.len() == 6 && "error"@.len() == 5 && "code"@.len() == 4 && "message"@.len() == 7);
    match result {
        Ok(value) => {
            let pairs = seq![("ok"@, json::Tree::Bool(true)), ("result"@, json::tree(value))];
            json::set_all_then_find(none, pairs, "ok"@, 1);
            json::set_all_then_find(none, pairs, "result"@, 2);
            json::set_all_then_find(none, pairs, "error"@, 0);
        },
        Err(e) => {
            let inner = seq![
                ("code"@, json::Tree::Text(error::error_code(e@))),
                ("message"@, json::Tree::Text(error::error_message(e@))),
            ];
            let told = json::Tree::Object(json::with_fields(none, inner));
            let pairs = seq![("ok"@, json::Tree::Bool(false)), ("error"@, told)];
            json::set_all_then_find(none, inner, "code"@, 1);
            json::set_all_then_find(none, inner, "message"@, 2);
            json::set_all_then_find(none, pairs, "ok"@, 1);
            json::set_all_then_find(none, pairs, "error"@, 2);
            json::set_all_then_find(none, pairs, "result"@, 0);
        },
    }
}

/// Wraps the result of a call: what came of it, or the code and the text of its error.
pub fn envelope(result: Result<Json, Error>) -> (out: Json)
    ensures
        json::tree(out) == answer(result),
{
    match result {
        Ok(value) => {
            let ghost inner = json::tree(value);
            let pairs: Vec<(String, Json)> = vec![("ok".to_owned(), Json::Bool(true)), ("result".to_owned(), value)];
            assert(json::field_trees(pairs@) == seq![("ok"@, json::Tree::Bool(true)), ("result"@, inner)]);
            json::object_value(pairs)
        },
        Err(e) => {
            let code = e.code();
            let message = e.message();
            let inner: Vec<(String, Json)> = vec![
                ("code".to_owned(), json::text_value(code)),
                ("message".to_owned(), json::text_value(message.as_str())),
            ];
            assert(json::field_trees(inner@) == seq![
                ("code"@, json::Tree::Text(error::error_code(e@))),
                ("message"@, json::Tree::Text(error::error_message(e@))),
            ]);
            let error = json::object_value(inner);
            let ghost shown = json::tree(error);
            let pairs: Vec<(String, Json)> = vec![("ok".to_owned(), Json::Bool(false)), ("error".to_owned(), error)];
            assert(json::field_trees(pairs@) == seq![("ok"@, json::Tree::Bool(false)), ("error"@, shown)]);
            json::object_value(pairs)
        },
    }
}

} // verus!
