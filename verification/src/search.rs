//! Searching: which paths a request takes, how their results become one list, and what a hit
//! carries.

use crate::bits;
use crate::chars;
use crate::chars::trimmed;
use crate::error::{Error, ErrorView};
use crate::ids;
use crate::ranking;
use crate::ranking::Scored;
use crate::storage;
use crate::text;
use crate::types;
use crate::types::{Degrade, MatchField, ReadFilter, RecordKind};
use std::collections::HashMap;
use std::collections::HashSet;
use vstd::prelude::*;

verus! {

// ── Requests ──────────────────────────────────────────────────────────

/// The kinds that a search looks for where it names none.
pub fn default_kinds() -> (out: Vec<RecordKind>)
    ensures
        out@ == seq![RecordKind::Memory, RecordKind::Entity, RecordKind::Relation, RecordKind::Event, RecordKind::Chunk],
{
    vec![RecordKind::Memory, RecordKind::Entity, RecordKind::Relation, RecordKind::Event, RecordKind::Chunk]
}

/// Limits the vector path to the neighbourhood of an entity in the graph.
#[derive(Debug, Clone, Copy)]
pub struct GraphPrune {
    /// The entity that the neighbourhood is taken around.
    pub root: i64,
    /// How many steps it reaches.
    pub depth: usize,
    /// How many nodes it holds at most.
    pub limit: usize,
}

/// A search.
#[derive(Debug)]
pub struct SearchRequest {
    pub query: String,
    pub filter: ReadFilter,
    pub kinds: Vec<RecordKind>,
    pub limit: usize,
    pub candidate_limit: Option<usize>,
    /// The vector space of the vector path. The query is embedded by the embedder of that space.
    pub embed_space: Option<String>,
    /// The weight of the text path, a double by its bits.
    pub text_weight: u64,
    pub prune: Option<GraphPrune>,
    /// Whether the text path is taken.
    pub text: bool,
    /// Whether the vector path is taken; it needs a space too.
    pub vector: bool,
    /// Whether the result is reranked where a reranker is registered.
    pub rerank: bool,
    /// Whether the number of all matches is wanted.
    pub with_total: bool,
    /// The columns that the text path must hit.
    pub match_field: MatchField,
    /// How many chunks of a note a hit shows at most, itself included; none for zero.
    pub top_chunks_per_note: usize,
}

impl Default for SearchRequest {
    fn default() -> (out: Self)
        ensures
            out.query@ == Seq::<char>::empty(),
            out.filter@ == types::default_filter(),
            out.kinds@ == seq![RecordKind::Memory, RecordKind::Entity, RecordKind::Relation, RecordKind::Event, RecordKind::Chunk],
            out.limit == 10,
            out.candidate_limit is None && out.embed_space is None && out.prune is None,
            out.text_weight == bits::ONE_BITS,
            out.text && out.vector && out.rerank && !out.with_total,
            out.match_field == MatchField::All,
            out.top_chunks_per_note == 3,
    {
        SearchRequest {
            query: String::new(),
            filter: ReadFilter::default(),
            kinds: default_kinds(),
            limit: 10,
            candidate_limit: None,
            embed_space: None,
            text_weight: bits::ONE_BITS,
            prune: None,
            text: true,
            vector: true,
            rerank: true,
            with_total: false,
            match_field: MatchField::All,
            top_chunks_per_note: 3,
        }
    }
}

/// The vector path is taken where it is switched on and has a space.
pub open spec fn takes_vectors(r: SearchRequest) -> bool {
    r.vector && r.embed_space is Some
}

/// How many candidates each path gives: as asked for, else five times the hits, from a thousand to
/// ten thousand.
pub open spec fn candidate_count(r: SearchRequest) -> int {
    match r.candidate_limit {
        Some(n) => n as int,
        None => if r.limit * 5 < 1000 {
            1000
        } else if r.limit * 5 > 10000 {
            10000
        } else {
            r.limit * 5
        },
    }
}

/// What is wrong with the neighbourhood of a request.
pub open spec fn prune_error(prune: Option<GraphPrune>) -> Option<ErrorView> {
    match prune {
        Some(p) => if p.depth == 0 {
            Some(ErrorView::Validation("graph prune depth must be at least 1"@))
        } else {
            storage::limit_error(p.limit as int)
        },
        None => None,
    }
}

/// What is wrong with a request, the first fault only.
pub open spec fn request_error(r: SearchRequest) -> Option<ErrorView> {
    if storage::filter_error(r.filter@) is Some {
        storage::filter_error(r.filter@)
    } else if storage::limit_error(r.limit as int) is Some {
        storage::limit_error(r.limit as int)
    } else if chars::blank(r.query@) {
        Some(ErrorView::Validation("a text query is required"@))
    } else if !r.text && !takes_vectors(r) {
        Some(ErrorView::Validation("enable at least one of text or vector"@))
    } else if !bits::positive(r.text_weight) {
        Some(ErrorView::Validation("text_weight must be finite and positive"@))
    } else if storage::limit_error(candidate_count(r)) is Some {
        storage::limit_error(candidate_count(r))
    } else if candidate_count(r) < r.limit {
        Some(ErrorView::Validation("candidate_limit must be at least limit"@))
    } else {
        prune_error(r.prune)
    }
}

/// Chunks of one note are gathered only where the text path looks at the text: names and paths
/// belong to the note as a whole.
pub open spec fn gathers_chunks(r: SearchRequest) -> bool {
    r.text && (r.match_field == MatchField::All || r.match_field == MatchField::Text)
}

/// What a valid request comes to.
#[derive(Debug)]
pub struct SearchPlan {
    /// The query without the white space around it.
    pub query: String,
    pub candidate_limit: usize,
    pub vector_path: bool,
    /// Whether the chunks of a note are gathered and counted.
    pub aggregate: bool,
    /// How many chunks of a note a hit shows.
    pub per_note: usize,
}

/// Checks a request and works out what it comes to.
pub fn plan_search(r: &SearchRequest) -> (out: Result<SearchPlan, Error>)
    ensures
        storage::refused(out, request_error(*r)),
        out matches Ok(plan) ==> {
            &&& plan.query@ == chars::trim(r.query@)
            &&& plan.query@.len() > 0
            &&& plan.candidate_limit == candidate_count(*r)
            &&& plan.vector_path == takes_vectors(*r)
            &&& plan.aggregate == gathers_chunks(*r)
            &&& plan.per_note == (if gathers_chunks(*r) { r.top_chunks_per_note } else { 0 })
            &&& r.candidate_limit matches Some(n) ==> plan.candidate_limit == n
            &&& r.candidate_limit is None ==> 1000 <= plan.candidate_limit <= 10_000 && (200 <= r.limit <= 2000 ==> plan.candidate_limit == 5
                * r.limit) && (r.limit < 200 ==> plan.candidate_limit == 1000) && (r.limit > 2000 ==> plan.candidate_limit == 10_000)
            &&& plan.vector_path <==> r.vector && r.embed_space is Some
            &&& plan.aggregate <==> r.text && (r.match_field == MatchField::All || r.match_field == MatchField::Text)
            &&& plan.aggregate ==> plan.per_note == r.top_chunks_per_note
            &&& !plan.aggregate ==> plan.per_note == 0
        },
        out is Ok <==> {
            &&& storage::filter_error(r.filter@) is None
            &&& 1 <= r.limit <= 10_000
            &&& !chars::blank(r.query@)
            &&& r.text || (r.vector && r.embed_space is Some)
            &&& bits::positive(r.text_weight)
            &&& r.candidate_limit matches Some(n) ==> r.limit <= n <= 10_000
            &&& r.prune matches Some(p) ==> p.depth >= 1 && 1 <= p.limit <= 10_000
        },
{
    storage::validate_filter(&r.filter)?;
    storage::validate_limit(r.limit)?;
    let query = trimmed(r.query.as_str());
    proof {
        chars::trim_empty_iff_blank(r.query@);
    }
    if query.as_str().unicode_len() == 0 {
        return Err(Error::Validation("a text query is required".to_owned()));
    }
    let vector_path = r.vector && r.embed_space.is_some();
    if !r.text && !vector_path {
        return Err(Error::Validation("enable at least one of text or vector".to_owned()));
    }
    if !bits::is_positive(r.text_weight) {
        return Err(Error::Validation("text_weight must be finite and positive".to_owned()));
    }
    let candidate_limit: usize = match r.candidate_limit {
        Some(n) => n,
        None => {
            let wide: usize = r.limit * 5;
            if wide < 1000 {
                1000
            } else if wide > 10000 {
                10000
            } else {
                wide
            }
        },
    };
    storage::validate_limit(candidate_limit)?;
    if candidate_limit < r.limit {
        return Err(Error::Validation("candidate_limit must be at least limit".to_owned()));
    }
    if let Some(prune) = r.prune {
        if prune.depth == 0 {
            return Err(Error::Validation("graph prune depth must be at least 1".to_owned()));
        }
        storage::validate_limit(prune.limit)?;
    }
    let aggregate = r.text && (r.match_field == MatchField::All || r.match_field == MatchField::Text);
    let per_note: usize = if aggregate { r.top_chunks_per_note } else { 0 };
    Ok(SearchPlan { query, candidate_limit, vector_path, aggregate, per_note })
}

// ── The vector path ───────────────────────────────────────────────────

/// What becomes of the vector path.
#[derive(Debug, Clone, Copy, PartialEq, Eq, Structural)]
pub enum VectorStep {
    /// Nothing that the request asks for has vectors: the path is not taken.
    Skip,
    /// It is switched off for the namespace.
    Disabled,
    /// The kinds asked for have vectors, but none of them is filled yet. The space must exist.
    NotReady,
    /// The query is embedded. The space must exist.
    Embed,
}

/// The members of `kinds` that are among `allowed`, in order.
pub open spec fn kinds_among(kinds: Seq<RecordKind>, allowed: Seq<RecordKind>) -> Seq<RecordKind>
    decreases kinds.len(),
{
    if kinds.len() == 0 {
        kinds
    } else if allowed.contains(kinds.last()) {
        kinds_among(kinds.drop_last(), allowed).push(kinds.last())
    } else {
        kinds_among(kinds.drop_last(), allowed)
    }
}

/// The members of `kinds` that are among `allowed`, in order.
pub fn keep_kinds(kinds: &Vec<RecordKind>, allowed: &Vec<RecordKind>) -> (out: Vec<RecordKind>)
    ensures
        out@ == kinds_among(kinds@, allowed@),
        forall|k: RecordKind| #[trigger] out@.contains(k) <==> kinds@.contains(k) && allowed@.contains(k),
{
    let mut out: Vec<RecordKind> = Vec::new();
    let mut i: usize = 0;
    assert(kinds@.take(0) == Seq::<RecordKind>::empty());
    while i < kinds.len()
        invariant
            i <= kinds.len(),
            out@ == kinds_among(kinds@.take(i as int), allowed@),
        decreases kinds.len() - i,
    {
        assert(kinds@.take(i + 1).drop_last() == kinds@.take(i as int));
        if types::has_kind(allowed, kinds[i]) {
            out.push(kinds[i]);
        }
        i = i + 1;
    }
    assert(kinds@.take(kinds@.len() as int) == kinds@);
    proof {
        among_is_both(kinds@, allowed@);
    }
    out
}

/// Among the kinds that are kept are those that stand in both lists.
proof fn among_is_both(kinds: Seq<RecordKind>, allowed: Seq<RecordKind>)
    ensures
        forall|k: RecordKind| #[trigger] kinds_among(kinds, allowed).contains(k) <==> kinds.contains(k) && allowed.contains(k),
    decreases kinds.len(),
{
    if kinds.len() > 0 {
        let before = kinds_among(kinds.drop_last(), allowed);
        let all = kinds_among(kinds, allowed);
        let last = kinds.last();
        among_is_both(kinds.drop_last(), allowed);
        assert forall|k: RecordKind| #[trigger] all.contains(k) <==> kinds.contains(k) && allowed.contains(k) by {
            kind_push_contains(kinds.drop_last(), last, k);
            kind_push_contains(before, last, k);
            assert(kinds == kinds.drop_last().push(last));
        }
    }
}

proof fn among_both(kinds: Seq<RecordKind>, allowed: Seq<RecordKind>, kind: RecordKind)
    requires
        kinds_among(kinds, allowed).contains(kind),
    ensures
        kinds.contains(kind),
        allowed.contains(kind),
{
    among_is_both(kinds, allowed);
}

proof fn kind_push_contains(list: Seq<RecordKind>, last: RecordKind, k: RecordKind)
    ensures
        list.push(last).contains(k) <==> list.contains(k) || k == last,
{
    let after = list.push(last);
    if list.contains(k) {
        let i = choose|i: int| 0 <= i < list.len() && list[i] == k;
        assert(after[i] == k);
    }
    assert(after[list.len() as int] == last);
    if after.contains(k) {
        let i = choose|i: int| 0 <= i < after.len() && after[i] == k;
        if i < list.len() {
            assert(list[i] == k);
        }
    }
}

/// What becomes of the vector path of a request that takes it.
pub open spec fn vector_step_of(
    namespace_on: bool,
    kinds: Seq<RecordKind>,
    enabled: Seq<RecordKind>,
    ready: Seq<RecordKind>,
) -> VectorStep {
    let requested = kinds_among(kinds, enabled);
    if !namespace_on {
        VectorStep::Disabled
    } else if requested.len() == 0 {
        VectorStep::Skip
    } else if kinds_among(requested, ready).len() == 0 {
        VectorStep::NotReady
    } else {
        VectorStep::Embed
    }
}

/// Decides on the vector path, and on the kinds that it looks for: those asked for, switched on
/// and filled. A half filled kind would rank by what happened to be filled first, so it is left out
/// until it is whole.
pub fn vector_step(
    namespace_on: bool,
    kinds: &Vec<RecordKind>,
    enabled: &Vec<RecordKind>,
    ready: &Vec<RecordKind>,
) -> (out: (VectorStep, Vec<RecordKind>))
    ensures
        out.0 == vector_step_of(namespace_on, kinds@, enabled@, ready@),
        out.0 == VectorStep::Embed ==> out.1@ == kinds_among(kinds_among(kinds@, enabled@), ready@),
        out.0 != VectorStep::Embed ==> out.1@.len() == 0,
        step_is_right(namespace_on, kinds@, enabled@, ready@, out.0, out.1@),
{
    proof {
        vector_path_takes_what_is_filled(namespace_on, kinds@, enabled@, ready@);
    }
    if !namespace_on {
        return (VectorStep::Disabled, Vec::new());
    }
    let requested = keep_kinds(kinds, enabled);
    if requested.len() == 0 {
        return (VectorStep::Skip, Vec::new());
    }
    let usable = keep_kinds(&requested, ready);
    if usable.len() == 0 {
        (VectorStep::NotReady, usable)
    } else {
        (VectorStep::Embed, usable)
    }
}

/// A kind can be searched by its vectors: it was asked for, is switched on, and is filled.
pub open spec fn searchable(kinds: Seq<RecordKind>, enabled: Seq<RecordKind>, ready: Seq<RecordKind>, k: RecordKind) -> bool {
    kinds.contains(k) && enabled.contains(k) && ready.contains(k)
}

/// A kind should have vectors: it was asked for and is switched on.
pub open spec fn wanted(kinds: Seq<RecordKind>, enabled: Seq<RecordKind>, k: RecordKind) -> bool {
    kinds.contains(k) && enabled.contains(k)
}

/// A step is the right one: the kinds searched are exactly those that can be; one such kind is enough
/// to embed the query, whatever the state of the others; and each way of not embedding has its cause.
pub open spec fn step_is_right(
    namespace_on: bool,
    kinds: Seq<RecordKind>,
    enabled: Seq<RecordKind>,
    ready: Seq<RecordKind>,
    step: VectorStep,
    found: Seq<RecordKind>,
) -> bool {
    &&& forall|k: RecordKind| #[trigger] found.contains(k) <==> namespace_on && searchable(kinds, enabled, ready, k)
    &&& step == VectorStep::Embed <==> namespace_on && exists|k: RecordKind| #[trigger] searchable(kinds, enabled, ready, k)
    &&& step == VectorStep::Disabled <==> !namespace_on
    &&& step == VectorStep::Skip <==> namespace_on && forall|k: RecordKind| !#[trigger] wanted(kinds, enabled, k)
}

/// The vector path takes every kind that was asked for, is switched on and is filled, and no other.
pub proof fn vector_path_takes_what_is_filled(
    namespace_on: bool,
    kinds: Seq<RecordKind>,
    enabled: Seq<RecordKind>,
    ready: Seq<RecordKind>,
)
    ensures
        ({
            let step = vector_step_of(namespace_on, kinds, enabled, ready);
            let found = if step == VectorStep::Embed { kinds_among(kinds_among(kinds, enabled), ready) } else { Seq::empty() };
            step_is_right(namespace_on, kinds, enabled, ready, step, found)
        }),
{
    let requested = kinds_among(kinds, enabled);
    let usable = kinds_among(requested, ready);
    among_is_both(kinds, enabled);
    among_is_both(requested, ready);
    if requested.len() > 0 {
        assert(requested.contains(requested[0]));
        assert(wanted(kinds, enabled, requested[0]));
    }
    if usable.len() > 0 {
        assert(usable.contains(usable[0]));
        assert(searchable(kinds, enabled, ready, usable[0]));
    }
    assert forall|k: RecordKind| #[trigger] searchable(kinds, enabled, ready, k) implies usable.contains(k) by {
        assert(requested.contains(k));
    }
    assert forall|k: RecordKind| #[trigger] wanted(kinds, enabled, k) implies requested.contains(k) by {}
    assert forall|k: RecordKind| #[trigger] usable.contains(k) implies searchable(kinds, enabled, ready, k) by {
        assert(requested.contains(k));
    }
}

/// A kind that vectors are searched for was asked for, is switched on, and is filled.
pub proof fn searched_kinds_are_filled(
    kinds: Seq<RecordKind>,
    enabled: Seq<RecordKind>,
    ready: Seq<RecordKind>,
    kind: RecordKind,
)
    requires
        kinds_among(kinds_among(kinds, enabled), ready).contains(kind),
    ensures
        kinds.contains(kind) && enabled.contains(kind) && ready.contains(kind),
{
    among_both(kinds_among(kinds, enabled), ready, kind);
    among_both(kinds, enabled, kind);
}

/// What the diagnostics say of a vector path that ended before it embedded anything.
pub fn step_degrade(step: VectorStep) -> (out: Option<Degrade>)
    ensures
        out == (match step {
            VectorStep::Disabled => Some(Degrade::NamespaceDisabled),
            VectorStep::NotReady => Some(Degrade::VectorNotReady),
            _ => None,
        }),
{
    match step {
        VectorStep::Disabled => Some(Degrade::NamespaceDisabled),
        VectorStep::NotReady => Some(Degrade::VectorNotReady),
        _ => None,
    }
}

/// What the diagnostics say of embedding the query. `produced` is how many vectors came back, none
/// where the embedder failed.
pub fn embed_degrade(registered: bool, produced: Option<usize>) -> (out: Option<Degrade>)
    ensures
        out == (if !registered {
            Some(Degrade::NoEmbedder)
        } else if produced == Some(1usize) {
            None
        } else {
            Some(Degrade::EmbedFailed)
        }),
{
    if !registered {
        return Some(Degrade::NoEmbedder);
    }
    match produced {
        Some(n) => if n == 1 { None } else { Some(Degrade::EmbedFailed) },
        None => Some(Degrade::EmbedFailed),
    }
}

// ── The text path ─────────────────────────────────────────────────────

/// How a query of the text index ended.
#[derive(Debug, Clone, Copy, PartialEq, Eq, Structural)]
pub enum TextOutcome {
    Hits,
    /// The index failed.
    IndexError,
    /// Anything else failed.
    OtherError,
}

/// What follows a query of the text index.
#[derive(Debug, Clone, Copy, PartialEq, Eq, Structural)]
pub enum TextStep {
    /// Take the hits.
    Use,
    /// Build the index anew from the records, then query once more.
    Rebuild,
    /// Do without text.
    Unavailable,
    /// The search fails with this error.
    Fail,
}

/// Decides what follows a query of the text index. A failed index is built anew once; only where
/// that does not help is the text path given up. Other errors are the caller's.
pub fn text_step(rebuilt: bool, outcome: TextOutcome) -> (out: TextStep)
    ensures
        out == (match outcome {
            TextOutcome::Hits => TextStep::Use,
            TextOutcome::IndexError => if rebuilt { TextStep::Unavailable } else { TextStep::Rebuild },
            TextOutcome::OtherError => if rebuilt { TextStep::Unavailable } else { TextStep::Fail },
        }),
{
    match outcome {
        TextOutcome::Hits => TextStep::Use,
        TextOutcome::IndexError => if rebuilt { TextStep::Unavailable } else { TextStep::Rebuild },
        TextOutcome::OtherError => if rebuilt { TextStep::Unavailable } else { TextStep::Fail },
    }
}

// ── One list out of two ───────────────────────────────────────────────

/// The two lists in turn: the first of one, the first of the other, the second of one, and so on.
pub open spec fn interleaved(a: Seq<i64>, b: Seq<i64>) -> Seq<i64>
    decreases a.len() + b.len(),
{
    if a.len() == 0 && b.len() == 0 {
        Seq::empty()
    } else if a.len() == 0 {
        b
    } else if b.len() == 0 {
        a
    } else {
        seq![a[0], b[0]] + interleaved(a.drop_first(), b.drop_first())
    }
}

/// The two lists up to position `n` of each, in turn.
pub open spec fn interleaved_to(a: Seq<i64>, b: Seq<i64>, n: int) -> Seq<i64>
    decreases n,
{
    if n <= 0 {
        Seq::empty()
    } else {
        let before = interleaved_to(a, b, n - 1);
        let with_a = if n - 1 < a.len() { before.push(a[n - 1]) } else { before };
        if n - 1 < b.len() {
            with_a.push(b[n - 1])
        } else {
            with_a
        }
    }
}

proof fn interleaved_to_shift(a: Seq<i64>, b: Seq<i64>, n: int)
    requires
        n >= 1,
        a.len() > 0 && b.len() > 0,
    ensures
        interleaved_to(a, b, n) == seq![a[0], b[0]] + interleaved_to(a.drop_first(), b.drop_first(), n - 1),
    decreases n,
{
    if n == 1 {
        assert(interleaved_to(a, b, 0) == Seq::<i64>::empty());
        assert(interleaved_to(a.drop_first(), b.drop_first(), 0) == Seq::<i64>::empty());
        assert(interleaved_to(a, b, 1) == seq![a[0], b[0]]);
    } else {
        interleaved_to_shift(a, b, n - 1);
    }
}

proof fn interleaved_to_one(a: Seq<i64>, b: Seq<i64>, n: int)
    requires
        n >= 0,
        a.len() == 0 || b.len() == 0,
    ensures
        n <= a.len() ==> interleaved_to(a, b, n) == a.take(n),
        n > a.len() && b.len() == 0 ==> interleaved_to(a, b, n) == a,
        n <= b.len() ==> interleaved_to(a, b, n) == b.take(n),
        n > b.len() && a.len() == 0 ==> interleaved_to(a, b, n) == b,
    decreases n,
{
    if n > 0 {
        interleaved_to_one(a, b, n - 1);
        if n <= a.len() {
            assert(a.take(n) == a.take(n - 1).push(a[n - 1]));
        }
        if n <= b.len() {
            assert(b.take(n) == b.take(n - 1).push(b[n - 1]));
        }
        assert(a.take(a.len() as int) == a);
        assert(b.take(b.len() as int) == b);
    } else {
        assert(a.take(0) == Seq::<i64>::empty());
        assert(b.take(0) == Seq::<i64>::empty());
    }
}

proof fn interleaved_to_end(a: Seq<i64>, b: Seq<i64>, n: int)
    requires
        n >= a.len(),
        n >= b.len(),
    ensures
        interleaved_to(a, b, n) == interleaved(a, b),
    decreases a.len() + b.len(),
{
    if a.len() > 0 && b.len() > 0 {
        interleaved_to_shift(a, b, n);
        interleaved_to_end(a.drop_first(), b.drop_first(), n - 1);
    } else {
        interleaved_to_one(a, b, n);
        assert(a.take(a.len() as int) == a);
        assert(b.take(b.len() as int) == b);
    }
}

/// Appends `id` where it is not yet there.
fn push_new(list: &mut Vec<i64>, seen: &mut HashSet<i64>, id: i64, Ghost(all): Ghost<Seq<i64>>)
    requires
        old(list)@ == ids::first_places(all),
        old(seen)@ == all.to_set(),
    ensures
        final(list)@ == ids::first_places(all.push(id)),
        final(seen)@ == all.push(id).to_set(),
{
    proof {
        ids::first_places_hold_all(all);
        assert(all.push(id).drop_last() == all);
        assert forall|x: i64| all.push(id).to_set().contains(x) <==> all.to_set().insert(id).contains(x) by {
            ids::push_contains(all, id, x);
        }
        assert(all.push(id).to_set() == all.to_set().insert(id));
    }
    if seen.insert(id) {
        list.push(id);
    }
}

/// Two lists are interleaved one by one, the first list first, and the rest of the longer one
/// follows.
pub proof fn interleaving_alternates(a: Seq<i64>, b: Seq<i64>)
    ensures
        ({
            let all = interleaved(a, b);
            let both = if a.len() <= b.len() { a.len() as int } else { b.len() as int };
            &&& all.len() == a.len() + b.len()
            &&& forall|i: int| 0 <= i < both ==> all[2 * i] == #[trigger] a[i]
            &&& forall|i: int| 0 <= i < both ==> all[2 * i + 1] == #[trigger] b[i]
            &&& forall|i: int| both <= i < a.len() ==> all[both + i] == #[trigger] a[i]
            &&& forall|i: int| both <= i < b.len() ==> all[both + i] == #[trigger] b[i]
        }),
    decreases a.len() + b.len(),
{
    if a.len() > 0 && b.len() > 0 {
        let x = a.drop_first();
        let y = b.drop_first();
        let rest = interleaved(x, y);
        let all = interleaved(a, b);
        let both = if a.len() <= b.len() { a.len() as int } else { b.len() as int };
        interleaving_alternates(x, y);
        assert(all == seq![a[0], b[0]] + rest);
        assert forall|i: int| 0 <= i < both implies all[2 * i] == #[trigger] a[i] by {
            if i > 0 {
                assert(a[i] == x[i - 1]);
                assert(all[2 * i] == rest[2 * (i - 1)]);
            }
        }
        assert forall|i: int| 0 <= i < both implies all[2 * i + 1] == #[trigger] b[i] by {
            if i > 0 {
                assert(b[i] == y[i - 1]);
                assert(all[2 * i + 1] == rest[2 * (i - 1) + 1]);
            }
        }
        assert forall|i: int| both <= i < a.len() implies all[both + i] == #[trigger] a[i] by {
            assert(a[i] == x[i - 1]);
            assert(all[both + i] == rest[(both - 1) + (i - 1)]);
        }
        assert forall|i: int| both <= i < b.len() implies all[both + i] == #[trigger] b[i] by {
            assert(b[i] == y[i - 1]);
            assert(all[both + i] == rest[(both - 1) + (i - 1)]);
        }
    }
}

/// Merges the results of the two paths by rank, in turn and each candidate once. Neither path is
/// preferred: each gets about half of the places.
pub fn merge_candidates(text: &Vec<i64>, vector: &Vec<i64>) -> (out: Vec<i64>)
    ensures
        out@ == ids::first_places(interleaved(text@, vector@)),
{
    let mut out: Vec<i64> = Vec::new();
    let mut seen: HashSet<i64> = HashSet::new();
    let mut i: usize = 0;
    let ghost mut all = Seq::<i64>::empty();
    assert(seen@ == all.to_set());
    while i < text.len() || i < vector.len()
        invariant
            all == interleaved_to(text@, vector@, i as int),
            out@ == ids::first_places(all),
            seen@ == all.to_set(),
            i <= text.len() || i <= vector.len(),
        decreases text.len() + vector.len() - i,
    {
        if i < text.len() {
            push_new(&mut out, &mut seen, text[i], Ghost(all));
            proof {
                all = all.push(text@[i as int]);
            }
        }
        if i < vector.len() {
            push_new(&mut out, &mut seen, vector[i], Ghost(all));
            proof {
                all = all.push(vector@[i as int]);
            }
        }
        i = i + 1;
    }
    proof {
        interleaved_to_end(text@, vector@, i as int);
    }
    out
}

proof fn interleaved_contains(a: Seq<i64>, b: Seq<i64>, x: i64)
    ensures
        interleaved(a, b).contains(x) <==> a.contains(x) || b.contains(x),
    decreases a.len() + b.len(),
{
    if a.len() > 0 && b.len() > 0 {
        let rest = interleaved(a.drop_first(), b.drop_first());
        let all = interleaved(a, b);
        interleaved_contains(a.drop_first(), b.drop_first(), x);
        assert(all[0] == a[0] && all[1] == b[0]);
        if rest.contains(x) {
            let k = choose|k: int| 0 <= k < rest.len() && rest[k] == x;
            assert(all[k + 2] == x);
        }
        if all.contains(x) {
            let k = choose|k: int| 0 <= k < all.len() && all[k] == x;
            if k >= 2 {
                assert(rest[k - 2] == x);
            }
        }
        if a.contains(x) {
            let k = choose|k: int| 0 <= k < a.len() && a[k] == x;
            if k > 0 {
                assert(a.drop_first()[k - 1] == x);
            }
        }
        if b.contains(x) {
            let k = choose|k: int| 0 <= k < b.len() && b[k] == x;
            if k > 0 {
                assert(b.drop_first()[k - 1] == x);
            }
        }
        if a.drop_first().contains(x) {
            let k = choose|k: int| 0 <= k < a.drop_first().len() && a.drop_first()[k] == x;
            assert(a[k + 1] == x);
        }
        if b.drop_first().contains(x) {
            let k = choose|k: int| 0 <= k < b.drop_first().len() && b.drop_first()[k] == x;
            assert(b[k + 1] == x);
        }
    }
}

/// Merging keeps what either path found, each once, and adds nothing.
pub proof fn merging_keeps_every_candidate(text: Seq<i64>, vector: Seq<i64>)
    ensures
        forall|x: i64|
            ids::first_places(interleaved(text, vector)).contains(x) <==> text.contains(x) || vector.contains(x),
        ids::first_places(interleaved(text, vector)).no_duplicates(),
{
    ids::first_places_hold_all(interleaved(text, vector));
    assert forall|x: i64|
        ids::first_places(interleaved(text, vector)).contains(x) <==> text.contains(x) || vector.contains(x) by {
        interleaved_contains(text, vector, x);
    }
}

// ── Rank fusion ───────────────────────────────────────────────────────

/// Where a candidate stands in each path, counted from zero. Its fused score is the sum, over all
/// these ranks, of the path's weight divided by sixty-one more than the rank.
#[derive(Debug)]
pub struct FusedCandidate {
    pub id: i64,
    pub text_ranks: Vec<usize>,
    pub vector_ranks: Vec<usize>,
}

/// The places at which a list holds an id, in order.
pub open spec fn places_of(list: Seq<i64>, id: i64) -> Seq<usize>
    decreases list.len(),
{
    if list.len() == 0 {
        Seq::empty()
    } else if list.last() == id {
        places_of(list.drop_last(), id).push((list.len() - 1) as usize)
    } else {
        places_of(list.drop_last(), id)
    }
}

proof fn places_of_absent(list: Seq<i64>, id: i64)
    requires
        !list.contains(id),
    ensures
        places_of(list, id) == Seq::<usize>::empty(),
    decreases list.len(),
{
    if list.len() > 0 {
        assert(list[list.len() - 1] != id);
        assert(!list.drop_last().contains(id)) by {
            if list.drop_last().contains(id) {
                let k = choose|k: int| 0 <= k < list.drop_last().len() && list.drop_last()[k] == id;
                assert(list[k] == id);
            }
        }
        places_of_absent(list.drop_last(), id);
    }
}

/// The places of a candidate in a list are exactly those where it stands, in ascending order.
pub proof fn places_are_where_it_stands(list: Seq<i64>, id: i64)
    requires
        list.len() <= usize::MAX,
    ensures
        forall|p: usize| #[trigger] places_of(list, id).contains(p) <==> p < list.len() && list[p as int] == id,
        forall|i: int, j: int| 0 <= i < j < places_of(list, id).len() ==> (#[trigger] places_of(list, id)[i]) < (#[trigger] places_of(list, id)[j]),
        forall|i: int| 0 <= i < places_of(list, id).len() ==> (#[trigger] places_of(list, id)[i]) < list.len(),
    decreases list.len(),
{
    if list.len() > 0 {
        let rest = list.drop_last();
        let before = places_of(rest, id);
        let all = places_of(list, id);
        let n = (list.len() - 1) as usize;
        places_are_where_it_stands(rest, id);
        assert forall|p: usize| #[trigger] all.contains(p) <==> p < list.len() && list[p as int] == id by {
            if before.contains(p) {
                let k = choose|k: int| 0 <= k < before.len() && before[k] == p;
                assert(all[k] == p);
                assert(rest[p as int] == list[p as int]);
            }
            if all.contains(p) && !before.contains(p) {
                let k = choose|k: int| 0 <= k < all.len() && all[k] == p;
                if k < before.len() {
                    assert(before[k] == p);
                }
            }
            if p < list.len() && list[p as int] == id {
                if p < n {
                    assert(rest[p as int] == id);
                    assert(before.contains(p));
                } else {
                    assert(all[before.len() as int] == p);
                }
            }
        }
        assert forall|i: int| 0 <= i < all.len() implies (#[trigger] all[i]) < list.len() by {
            if i < before.len() {
                assert(all[i] == before[i]);
            }
        }
        assert forall|i: int, j: int| 0 <= i < j < all.len() implies (#[trigger] all[i]) < (#[trigger] all[j]) by {
            assert(all[i] == before[i]);
            if j < before.len() {
                assert(all[j] == before[j]);
            }
        }
    }
}

/// The candidates of both paths, each once.
pub open spec fn fused_ids(list: Seq<FusedCandidate>) -> Seq<i64> {
    Seq::new(list.len(), |i: int| list[i].id)
}

/// The list of candidates stands for the two rankings.
pub open spec fn fused(text: Seq<i64>, vector: Seq<i64>, out: Seq<FusedCandidate>) -> bool {
    &&& fused_ids(out) == ids::first_places(text + vector)
    &&& forall|i: int| 0 <= i < out.len() ==> (#[trigger] out[i]).text_ranks@ == places_of(text, out[i].id) && out[i].vector_ranks@
        == places_of(vector, out[i].id)
}

/// Gathers the ranks of each candidate.
pub fn fuse(text: &Vec<i64>, vector: &Vec<i64>) -> (out: Vec<FusedCandidate>)
    ensures
        fused(text@, vector@, out@),
        forall|x: i64| #[trigger] fused_ids(out@).contains(x) <==> text@.contains(x) || vector@.contains(x),
        fused_ids(out@).no_duplicates(),
        forall|i: int, p: usize|
            0 <= i < out@.len() ==> (#[trigger] out@[i].text_ranks@.contains(p) <==> p < text@.len() && text@[p as int] == out@[i].id),
        forall|i: int, p: usize|
            0 <= i < out@.len() ==> (#[trigger] out@[i].vector_ranks@.contains(p) <==> p < vector@.len() && vector@[p as int] == out@[i].id),
{
    let mut out: Vec<FusedCandidate> = Vec::new();
    let mut index: HashMap<i64, usize> = HashMap::new();
    let mut i: usize = 0;
    assert(text@.take(0) == Seq::<i64>::empty());
    assert(fused_ids(out@) == ids::first_places(text@.take(0)));
    while i < text.len()
        invariant
            i <= text.len(),
            fused_ids(out@) == ids::first_places(text@.take(i as int)),
            indexes(index@, out@),
            forall|k: int| 0 <= k < out.len() ==> (#[trigger] out@[k]).text_ranks@ == places_of(text@.take(i as int), out@[k].id)
                && out@[k].vector_ranks@ == Seq::<usize>::empty(),
        decreases text.len() - i,
    {
        let ghost before = text@.take(i as int);
        let ghost after = text@.take(i + 1);
        proof {
            assert(after.drop_last() == before);
            assert(after.last() == text@[i as int]);
            ids::first_places_hold_all(before);
        }
        let id: i64 = text[i];
        let found: Option<usize> = match index.get(&id) {
            Some(at) => Some(*at),
            None => None,
        };
        match found {
            Some(at) => {
                assert(fused_ids(out@)[at as int] == id);
                let ghost was = out@;
                let candidate = &mut out[at];
                candidate.text_ranks.push(i);
                proof {
                    assert(fused_ids(out@) == fused_ids(was));
                    assert forall|k: int| 0 <= k < out.len() implies (#[trigger] out@[k]).text_ranks@ == places_of(after, out@[k].id)
                        && out@[k].vector_ranks@ == Seq::<usize>::empty() by {
                        assert(was[k].text_ranks@ == places_of(before, was[k].id));
                    }
                }
            },
            None => {
                let ghost was = out@;
                let mut text_ranks: Vec<usize> = Vec::new();
                text_ranks.push(i);
                index.insert(id, out.len());
                out.push(FusedCandidate { id, text_ranks, vector_ranks: Vec::new() });
                proof {
                    assert(!fused_ids(was).contains(id)) by {
                        if fused_ids(was).contains(id) {
                            let k = choose|k: int| 0 <= k < fused_ids(was).len() && fused_ids(was)[k] == id;
                            assert(was[k].id == id);
                        }
                    }
                    assert(!before.contains(id));
                    places_of_absent(before, id);
                    assert(fused_ids(out@) == fused_ids(was).push(id));
                    assert forall|k: int| 0 <= k < out.len() implies (#[trigger] out@[k]).text_ranks@ == places_of(after, out@[k].id)
                        && out@[k].vector_ranks@ == Seq::<usize>::empty() by {
                        if k < was.len() {
                            assert(was[k] == out@[k]);
                            assert(was[k].id != id) by {
                                assert(fused_ids(was)[k] == was[k].id);
                            }
                        } else {
                            assert(places_of(after, id) == places_of(before, id).push(i));
                        }
                    }
                }
            },
        }
        i = i + 1;
    }
    assert(text@.take(text@.len() as int) == text@);
    assert(text@ + vector@.take(0) == text@);
    assert(vector@.take(0) == Seq::<i64>::empty());
    let mut j: usize = 0;
    while j < vector.len()
        invariant
            j <= vector.len(),
            fused_ids(out@) == ids::first_places(text@ + vector@.take(j as int)),
            indexes(index@, out@),
            forall|k: int| 0 <= k < out.len() ==> (#[trigger] out@[k]).text_ranks@ == places_of(text@, out@[k].id)
                && out@[k].vector_ranks@ == places_of(vector@.take(j as int), out@[k].id),
        decreases vector.len() - j,
    {
        let ghost before = vector@.take(j as int);
        let ghost after = vector@.take(j + 1);
        let id: i64 = vector[j];
        proof {
            assert(after.drop_last() == before);
            assert((text@ + after).drop_last() == text@ + before);
            assert((text@ + after).last() == id);
            ids::first_places_hold_all(text@ + before);
        }
        let found: Option<usize> = match index.get(&id) {
            Some(at) => Some(*at),
            None => None,
        };
        match found {
            Some(at) => {
                assert(fused_ids(out@)[at as int] == id);
                let ghost was = out@;
                let candidate = &mut out[at];
                candidate.vector_ranks.push(j);
                proof {
                    assert(fused_ids(out@) == fused_ids(was));
                    assert forall|k: int| 0 <= k < out.len() implies (#[trigger] out@[k]).text_ranks@ == places_of(text@, out@[k].id)
                        && out@[k].vector_ranks@ == places_of(after, out@[k].id) by {
                        assert(was[k].vector_ranks@ == places_of(before, was[k].id));
                    }
                }
            },
            None => {
                let ghost was = out@;
                let mut vector_ranks: Vec<usize> = Vec::new();
                vector_ranks.push(j);
                index.insert(id, out.len());
                out.push(FusedCandidate { id, text_ranks: Vec::new(), vector_ranks });
                proof {
                    let all = text@ + before;
                    assert(!fused_ids(was).contains(id)) by {
                        if fused_ids(was).contains(id) {
                            let k = choose|k: int| 0 <= k < fused_ids(was).len() && fused_ids(was)[k] == id;
                            assert(was[k].id == id);
                        }
                    }
                    assert(!all.contains(id));
                    assert(!text@.contains(id)) by {
                        if text@.contains(id) {
                            let k = choose|k: int| 0 <= k < text@.len() && text@[k] == id;
                            assert(all[k] == id);
                        }
                    }
                    assert(!before.contains(id)) by {
                        if before.contains(id) {
                            let k = choose|k: int| 0 <= k < before.len() && before[k] == id;
                            assert(all[text@.len() + k] == id);
                        }
                    }
                    places_of_absent(before, id);
                    places_of_absent(text@, id);
                    assert(fused_ids(out@) == fused_ids(was).push(id));
                    assert forall|k: int| 0 <= k < out.len() implies (#[trigger] out@[k]).text_ranks@ == places_of(text@, out@[k].id)
                        && out@[k].vector_ranks@ == places_of(after, out@[k].id) by {
                        if k < was.len() {
                            assert(was[k] == out@[k]);
                            assert(was[k].id != id) by {
                                assert(fused_ids(was)[k] == was[k].id);
                            }
                        } else {
                            assert(places_of(after, id) == places_of(before, id).push(j));
                        }
                    }
                }
            },
        }
        j = j + 1;
    }
    assert(vector@.take(vector@.len() as int) == vector@);
    proof {
        let all = text@ + vector@;
        ids::first_places_hold_all(all);
        assert forall|x: i64| #[trigger] fused_ids(out@).contains(x) <==> text@.contains(x) || vector@.contains(x) by {
            if text@.contains(x) {
                let k = choose|k: int| 0 <= k < text@.len() && text@[k] == x;
                assert(all[k] == x);
            }
            if vector@.contains(x) {
                let k = choose|k: int| 0 <= k < vector@.len() && vector@[k] == x;
                assert(all[text@.len() + k] == x);
            }
            if all.contains(x) {
                let k = choose|k: int| 0 <= k < all.len() && all[k] == x;
                if k < text@.len() {
                    assert(text@[k] == x);
                } else {
                    assert(vector@[k - text@.len()] == x);
                }
            }
        }
        assert forall|i: int, p: usize| 0 <= i < out@.len() implies (#[trigger] out@[i].text_ranks@.contains(p) <==> p < text@.len() && text@[p as int]
            == out@[i].id) by {
            places_are_where_it_stands(text@, out@[i].id);
        }
        assert forall|i: int, p: usize| 0 <= i < out@.len() implies (#[trigger] out@[i].vector_ranks@.contains(p) <==> p < vector@.len()
            && vector@[p as int] == out@[i].id) by {
            places_are_where_it_stands(vector@, out@[i].id);
        }
    }
    out
}

/// The index leads from each id to its candidate.
spec fn indexes(index: Map<i64, usize>, list: Seq<FusedCandidate>) -> bool {
    &&& forall|id: i64| #[trigger] index.contains_key(id) ==> index[id] < list.len() && list[index[id] as int].id == id
    &&& forall|k: int| 0 <= k < list.len() ==> index.contains_key((#[trigger] list[k]).id) && index[list[k].id] == k
}

/// The ids of a ranking.
pub open spec fn scored_ids(list: Seq<Scored>) -> Seq<i64> {
    Seq::new(list.len(), |i: int| list[i].id)
}

/// The candidates in the order of their scores, the smaller id first where scores are equal.
pub fn order_by_score(candidates: &Vec<Scored>) -> (out: Vec<i64>)
    ensures
        out@ == scored_ids(ranking::ranked(candidates@)),
{
    let order = ranking::best(candidates, candidates.len());
    proof {
        ranking::ranked_is_ordered(candidates@);
    }
    let mut out: Vec<i64> = Vec::new();
    let mut i: usize = 0;
    while i < order.len()
        invariant
            i <= order.len(),
            out@ == scored_ids(order@).take(i as int),
        decreases order.len() - i,
    {
        out.push(order[i].id);
        assert(scored_ids(order@).take(i + 1) == scored_ids(order@).take(i as int).push(order@[i as int].id));
        i = i + 1;
    }
    assert(scored_ids(order@).take(order@.len() as int) == scored_ids(order@));
    out
}

} // verus!
