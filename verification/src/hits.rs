//! From candidates to hits: one hit for a note, reranking within a budget, and what a hit shows.

use crate::bits;
use crate::chars;
use crate::error::{Error, ErrorView};
use crate::ids;
use crate::json::Json;
use crate::ranking;
use crate::ranking::Scored;
use crate::search;
use crate::storage;
use crate::text;
use crate::types::{Degrade, RecordKey, SearchDiagnostics};
use std::collections::HashMap;
use vstd::prelude::*;

verus! {

// ── One hit for a note ────────────────────────────────────────────────

/// A chunk of a note that a hit stands for: where to find it, without its text.
#[derive(Debug, Clone, Copy, PartialEq, Eq, Structural)]
pub struct ChunkRef {
    /// The chunk's record.
    pub id: i64,
    /// The chunk's first line, from one.
    pub offset: usize,
}

/// A candidate that is left after folding.
#[derive(Debug)]
pub struct FoldedHit {
    pub id: i64,
    /// The note that the candidate is a chunk of.
    pub note: Option<i64>,
    /// The best placed chunks of that note, itself first.
    pub top_chunks: Vec<ChunkRef>,
}

/// The note that a candidate is a chunk of.
pub open spec fn note_of(places: Map<i64, (i64, usize)>, id: i64) -> Option<i64> {
    if places.contains_key(id) {
        Some(places[id].0)
    } else {
        None
    }
}

/// A list holds a chunk of a note.
pub open spec fn shows_note(list: Seq<i64>, places: Map<i64, (i64, usize)>, note: i64) -> bool {
    exists|i: int| 0 <= i < list.len() && note_of(places, #[trigger] list[i]) == Some(note)
}

/// The candidates without the chunks of notes that stand further ahead already.
pub open spec fn folded_ids(list: Seq<i64>, places: Map<i64, (i64, usize)>) -> Seq<i64>
    decreases list.len(),
{
    if list.len() == 0 {
        list
    } else {
        let before = folded_ids(list.drop_last(), places);
        match note_of(places, list.last()) {
            Some(note) => if shows_note(list.drop_last(), places, note) {
                before
            } else {
                before.push(list.last())
            },
            None => before.push(list.last()),
        }
    }
}

/// The chunks of a note among the candidates, in order.
pub open spec fn chunks_of(list: Seq<i64>, places: Map<i64, (i64, usize)>, note: i64) -> Seq<ChunkRef>
    decreases list.len(),
{
    if list.len() == 0 {
        Seq::empty()
    } else if note_of(places, list.last()) == Some(note) {
        chunks_of(list.drop_last(), places, note).push(ChunkRef { id: list.last(), offset: places[list.last()].1 })
    } else {
        chunks_of(list.drop_last(), places, note)
    }
}

/// At most `n` from the front of a list.
pub open spec fn at_most(list: Seq<ChunkRef>, n: int) -> Seq<ChunkRef> {
    if list.len() <= n {
        list
    } else {
        list.take(n)
    }
}

/// What a candidate that is left shows of its note.
pub open spec fn shown_chunks(list: Seq<i64>, places: Map<i64, (i64, usize)>, note: Option<i64>, per_note: int) -> Seq<ChunkRef> {
    match note {
        Some(n) => at_most(chunks_of(list, places, n), per_note),
        None => Seq::empty(),
    }
}

/// The ids of folded candidates.
pub open spec fn kept_ids(list: Seq<FoldedHit>) -> Seq<i64> {
    Seq::new(list.len(), |i: int| list[i].id)
}

/// `out` is the list folded.
pub open spec fn folded(list: Seq<i64>, places: Map<i64, (i64, usize)>, per_note: int, out: Seq<FoldedHit>) -> bool {
    &&& kept_ids(out) == folded_ids(list, places)
    &&& forall|k: int| 0 <= k < out.len() ==> (#[trigger] out[k]).note == note_of(places, out[k].id) && out[k].top_chunks@
        == shown_chunks(list, places, out[k].note, per_note)
}

proof fn no_chunks(list: Seq<i64>, places: Map<i64, (i64, usize)>, note: i64)
    requires
        !shows_note(list, places, note),
    ensures
        chunks_of(list, places, note) == Seq::<ChunkRef>::empty(),
    decreases list.len(),
{
    if list.len() > 0 {
        assert(note_of(places, list[list.len() - 1]) != Some(note));
        assert(!shows_note(list.drop_last(), places, note)) by {
            if shows_note(list.drop_last(), places, note) {
                let i = choose|i: int| 0 <= i < list.drop_last().len() && note_of(places, #[trigger] list.drop_last()[i]) == Some(note);
                assert(note_of(places, list[i]) == Some(note));
            }
        }
        no_chunks(list.drop_last(), places, note);
    }
}

/// The index leads from each note to the candidate that stands for it.
spec fn leads(index: Map<i64, usize>, kept: Seq<FoldedHit>) -> bool {
    &&& forall|note: i64| #[trigger] index.contains_key(note) ==> index[note] < kept.len() && kept[index[note] as int].note == Some(note)
    &&& forall|k: int|
        0 <= k < kept.len() && (#[trigger] kept[k]).note is Some ==> index.contains_key(kept[k].note->0) && index[kept[k].note->0] == k
}

/// Folds the chunks of each note into the one that stands first, which then shows up to `per_note`
/// of them. A long note would else fill the result with its own chunks.
pub fn fold_chunks(ordered: &Vec<i64>, places: &HashMap<i64, (i64, usize)>, per_note: usize) -> (out: Vec<FoldedHit>)
    ensures
        folded(ordered@, places@, per_note as int, out@),
        forall|k: int|
            0 <= k < out.len() ==> {
                let hit = #[trigger] out@[k];
                &&& ordered@.contains(hit.id)
                &&& places@.contains_key(hit.id) ==> hit.note == Some(places@[hit.id].0) && hit.top_chunks@.len() <= per_note
                &&& !places@.contains_key(hit.id) ==> hit.note is None && hit.top_chunks@.len() == 0
                &&& forall|c: int|
                    0 <= c < hit.top_chunks@.len() ==> ordered@.contains((#[trigger] hit.top_chunks@[c]).id) && places@.contains_key(
                        hit.top_chunks@[c].id,
                    ) && hit.note == Some(places@[hit.top_chunks@[c].id].0) && hit.top_chunks@[c].offset == places@[hit.top_chunks@[c].id].1
            },
{
    proof {
        assert forall|out: Seq<FoldedHit>| #[trigger] folded(ordered@, places@, per_note as int, out) implies well_folded(
            ordered@,
            places@,
            per_note as int,
            out,
        ) by {
            folding_is_right(ordered@, places@, per_note as int, out);
        }
    }
    let mut kept: Vec<FoldedHit> = Vec::new();
    let mut index: HashMap<i64, usize> = HashMap::new();
    let mut i: usize = 0;
    assert(ordered@.take(0) == Seq::<i64>::empty());
    assert(kept_ids(kept@) == folded_ids(ordered@.take(0), places@));
    while i < ordered.len()
        invariant
            i <= ordered.len(),
            folded(ordered@.take(i as int), places@, per_note as int, kept@),
            leads(index@, kept@),
            forall|note: i64| #[trigger] index@.contains_key(note) <==> shows_note(ordered@.take(i as int), places@, note),
        decreases ordered.len() - i,
    {
        let ghost before = ordered@.take(i as int);
        let ghost after = ordered@.take(i + 1);
        let ghost was = kept@;
        let ghost notes = index@;
        let id: i64 = ordered[i];
        proof {
            assert(after.drop_last() == before);
            assert(after.last() == id);
            assert forall|note: i64| shows_note(after, places@, note) <==> shows_note(before, places@, note) || note_of(places@, id) == Some(note) by {
                if shows_note(before, places@, note) {
                    let k = choose|k: int| 0 <= k < before.len() && note_of(places@, #[trigger] before[k]) == Some(note);
                    assert(after[k] == before[k]);
                }
                if note_of(places@, id) == Some(note) {
                    assert(note_of(places@, after[i as int]) == Some(note));
                }
                if shows_note(after, places@, note) {
                    let k = choose|k: int| 0 <= k < after.len() && note_of(places@, #[trigger] after[k]) == Some(note);
                    if k < i {
                        assert(before[k] == after[k]);
                    }
                }
            }
        }
        let place: Option<(i64, usize)> = match places.get(&id) {
            Some(p) => Some(*p),
            None => None,
        };
        match place {
            None => {
                kept.push(FoldedHit { id, note: None, top_chunks: Vec::new() });
                proof {
                    assert(kept_ids(kept@) == kept_ids(was).push(id));
                    assert forall|k: int| 0 <= k < kept.len() implies (#[trigger] kept@[k]).note == note_of(places@, kept@[k].id)
                        && kept@[k].top_chunks@ == shown_chunks(after, places@, kept@[k].note, per_note as int) by {
                        if k < was.len() {
                            assert(kept@[k] == was[k]);
                        }
                    }
                }
            },
            Some((note, offset)) => {
                let found: Option<usize> = match index.get(&note) {
                    Some(at) => Some(*at),
                    None => None,
                };
                match found {
                    None => {
                        let mut top_chunks: Vec<ChunkRef> = Vec::new();
                        if per_note > 0 {
                            top_chunks.push(ChunkRef { id, offset });
                        }
                        index.insert(note, kept.len());
                        kept.push(FoldedHit { id, note: Some(note), top_chunks });
                        proof {
                            no_chunks(before, places@, note);
                            assert(chunks_of(after, places@, note) == seq![ChunkRef { id, offset }]);
                            assert(kept@.last().top_chunks@ == at_most(chunks_of(after, places@, note), per_note as int));
                            assert(kept_ids(kept@) == kept_ids(was).push(id));
                            assert forall|k: int| 0 <= k < kept.len() implies (#[trigger] kept@[k]).note == note_of(places@, kept@[k].id)
                                && kept@[k].top_chunks@ == shown_chunks(after, places@, kept@[k].note, per_note as int) by {
                                if k < was.len() {
                                    assert(kept@[k] == was[k]);
                                    if was[k].note == Some(note) {
                                        assert(notes.contains_key(note));
                                    }
                                }
                            }
                        }
                    },
                    Some(at) => {
                        if kept[at].top_chunks.len() < per_note {
                            let hit = &mut kept[at];
                            hit.top_chunks.push(ChunkRef { id, offset });
                        }
                        proof {
                            assert(was[at as int].note == Some(note));
                            assert(was[at as int].top_chunks@ == at_most(chunks_of(before, places@, note), per_note as int));
                            let longer = chunks_of(after, places@, note);
                            assert(longer == chunks_of(before, places@, note).push(ChunkRef { id, offset }));
                            if chunks_of(before, places@, note).len() >= per_note {
                                assert(at_most(longer, per_note as int) == at_most(chunks_of(before, places@, note), per_note as int));
                            }
                            assert(kept@[at as int].top_chunks@ == at_most(longer, per_note as int));
                            assert(kept_ids(kept@) == kept_ids(was));
                            assert forall|k: int| 0 <= k < kept.len() implies (#[trigger] kept@[k]).note == note_of(places@, kept@[k].id)
                                && kept@[k].top_chunks@ == shown_chunks(after, places@, kept@[k].note, per_note as int) by {
                                if k != at {
                                    assert(kept@[k] == was[k]);
                                    if was[k].note == Some(note) {
                                        assert(notes[note] == k);
                                    }
                                }
                            }
                            assert forall|k: int| 0 <= k < kept.len() && (#[trigger] kept@[k]).note is Some implies index@.contains_key(
                                kept@[k].note->0,
                            ) && index@[kept@[k].note->0] == k by {
                                assert(was[k].note == kept@[k].note);
                            }
                        }
                    },
                }
            },
        }
        i = i + 1;
    }
    assert(ordered@.take(ordered@.len() as int) == ordered@);
    kept
}

proof fn folded_ids_within(list: Seq<i64>, places: Map<i64, (i64, usize)>, k: int)
    requires
        0 <= k < folded_ids(list, places).len(),
    ensures
        list.contains(folded_ids(list, places)[k]),
    decreases list.len(),
{
    if list.len() > 0 {
        let before = folded_ids(list.drop_last(), places);
        if k < before.len() {
            folded_ids_within(list.drop_last(), places, k);
            let j = choose|j: int| 0 <= j < list.drop_last().len() && list.drop_last()[j] == before[k];
            assert(list[j] == before[k]);
        } else {
            assert(list[list.len() - 1] == list.last());
        }
    }
}

/// No two hits belong to one note.
pub proof fn one_hit_for_a_note(list: Seq<i64>, places: Map<i64, (i64, usize)>, a: int, b: int)
    requires
        0 <= a < b < folded_ids(list, places).len(),
        note_of(places, folded_ids(list, places)[a]) is Some,
    ensures
        note_of(places, folded_ids(list, places)[a]) != note_of(places, folded_ids(list, places)[b]),
    decreases list.len(),
{
    let rest = list.drop_last();
    let before = folded_ids(rest, places);
    if b < before.len() {
        one_hit_for_a_note(rest, places, a, b);
    } else {
        folded_ids_within(rest, places, a);
        let j = choose|j: int| 0 <= j < rest.len() && rest[j] == before[a];
        assert(note_of(places, rest[j]) == note_of(places, before[a]));
    }
}

/// Every candidate is left itself, or a chunk of its note that stood further ahead is.
pub proof fn folding_loses_no_note(list: Seq<i64>, places: Map<i64, (i64, usize)>, i: int)
    requires
        0 <= i < list.len(),
    ensures
        match note_of(places, list[i]) {
            Some(note) => shows_note(folded_ids(list, places), places, note),
            None => folded_ids(list, places).contains(list[i]),
        },
    decreases list.len(),
{
    let rest = list.drop_last();
    let before = folded_ids(rest, places);
    let all = folded_ids(list, places);
    if i < rest.len() {
        folding_loses_no_note(rest, places, i);
        match note_of(places, list[i]) {
            Some(note) => {
                let k = choose|k: int| 0 <= k < before.len() && note_of(places, #[trigger] before[k]) == Some(note);
                assert(all[k] == before[k]);
            },
            None => {
                let k = choose|k: int| 0 <= k < before.len() && before[k] == list[i];
                assert(all[k] == before[k]);
            },
        }
    } else {
        match note_of(places, list[i]) {
            Some(note) => if shows_note(rest, places, note) {
                let j = choose|j: int| 0 <= j < rest.len() && note_of(places, #[trigger] rest[j]) == Some(note);
                folding_loses_no_note(rest, places, j);
                let k = choose|k: int| 0 <= k < before.len() && note_of(places, #[trigger] before[k]) == Some(note);
                assert(all[k] == before[k]);
            } else {
                assert(all[before.len() as int] == list[i]);
            },
            None => {
                assert(all[before.len() as int] == list[i]);
            },
        }
    }
}

/// The chunk that stands for a note is the first that the hit shows.
pub proof fn hit_shows_itself_first(list: Seq<i64>, places: Map<i64, (i64, usize)>, k: int)
    requires
        0 <= k < folded_ids(list, places).len(),
        note_of(places, folded_ids(list, places)[k]) is Some,
    ensures
        ({
            let note = note_of(places, folded_ids(list, places)[k])->0;
            let chunks = chunks_of(list, places, note);
            chunks.len() > 0 && chunks[0].id == folded_ids(list, places)[k]
        }),
    decreases list.len(),
{
    let rest = list.drop_last();
    let before = folded_ids(rest, places);
    if k < before.len() {
        hit_shows_itself_first(rest, places, k);
    } else {
        no_chunks(rest, places, note_of(places, list.last())->0);
    }
}

/// A candidate stays exactly where no earlier one belongs to its note, and what stays keeps its
/// order: folding more candidates adds to the end only.
pub proof fn first_of_a_note_stays(list: Seq<i64>, places: Map<i64, (i64, usize)>, n: int)
    requires
        0 <= n < list.len(),
    ensures
        folded_ids(list.take(n), places).is_prefix_of(folded_ids(list, places)),
        ({
            let fresh = !places.contains_key(list[n]) || forall|i: int|
                0 <= i < n ==> !places.contains_key(#[trigger] list[i]) || places[list[i]].0 != places[list[n]].0;
            let before = folded_ids(list.take(n), places);
            let after = folded_ids(list.take(n + 1), places);
            &&& fresh ==> after == before.push(list[n])
            &&& !fresh ==> after == before
        }),
    decreases list.len(),
{
    let now = list.take(n + 1);
    assert(now.drop_last() == list.take(n));
    assert(now.last() == list[n]);
    if places.contains_key(list[n]) {
        let note = places[list[n]].0;
        if shows_note(list.take(n), places, note) {
            let i = choose|i: int| 0 <= i < list.take(n).len() && note_of(places, #[trigger] list.take(n)[i]) == Some(note);
            assert(list[i] == list.take(n)[i]);
        } else {
            assert forall|i: int| 0 <= i < n implies !places.contains_key(#[trigger] list[i]) || places[list[i]].0 != note by {
                assert(list.take(n)[i] == list[i]);
                assert(note_of(places, list.take(n)[i]) != Some(note));
            }
        }
    }
    let rest = list.drop_last();
    if n == list.len() - 1 {
        assert(rest == list.take(n));
    } else {
        first_of_a_note_stays(rest, places, n);
        assert(rest.take(n) == list.take(n));
        let a = folded_ids(list.take(n), places);
        let b = folded_ids(rest, places);
        let c = folded_ids(list, places);
        assert(b.is_prefix_of(c));
        assert(a =~= c.subrange(0, a.len() as int));
    }
}

/// The chunks of a note are its candidates, each with its place, in their order.
pub proof fn chunks_are_of_their_note(list: Seq<i64>, places: Map<i64, (i64, usize)>, note: i64, chunk: ChunkRef)
    ensures
        chunks_of(list, places, note).contains(chunk) <==> list.contains(chunk.id) && places.contains_key(chunk.id) && places[chunk.id]
            == (note, chunk.offset),
    decreases list.len(),
{
    let all = chunks_of(list, places, note);
    if list.len() > 0 {
        let rest = list.drop_last();
        let before = chunks_of(rest, places, note);
        chunks_are_of_their_note(rest, places, note, chunk);
        assert(list[list.len() - 1] == list.last());
        if rest.contains(chunk.id) {
            let k = choose|k: int| 0 <= k < rest.len() && rest[k] == chunk.id;
            assert(list[k] == chunk.id);
        }
        if list.contains(chunk.id) && !rest.contains(chunk.id) {
            let k = choose|k: int| 0 <= k < list.len() && list[k] == chunk.id;
            if k < rest.len() {
                assert(rest[k] == chunk.id);
            }
            assert(list.last() == chunk.id);
        }
        if before.contains(chunk) {
            let k = choose|k: int| 0 <= k < before.len() && before[k] == chunk;
            assert(all[k] == chunk);
        }
        if all.contains(chunk) && !before.contains(chunk) {
            let k = choose|k: int| 0 <= k < all.len() && all[k] == chunk;
            if k < before.len() {
                assert(before[k] == chunk);
            }
        }
        if note_of(places, list.last()) == Some(note) && list.last() == chunk.id && places[chunk.id].1 == chunk.offset {
            assert(all[before.len() as int] == chunk);
        }
    }
}

/// Every hit was a candidate and shows only candidates of its own note, at their places and not
/// more than are wanted; a hit that belongs to no note shows none.
pub open spec fn well_folded(list: Seq<i64>, places: Map<i64, (i64, usize)>, per_note: int, out: Seq<FoldedHit>) -> bool {
    forall|k: int|
        0 <= k < out.len() ==> {
            let hit = #[trigger] out[k];
            &&& list.contains(hit.id)
            &&& places.contains_key(hit.id) ==> hit.note == Some(places[hit.id].0) && hit.top_chunks@.len() <= per_note
            &&& !places.contains_key(hit.id) ==> hit.note is None && hit.top_chunks@.len() == 0
            &&& forall|c: int|
                0 <= c < hit.top_chunks@.len() ==> list.contains((#[trigger] hit.top_chunks@[c]).id) && places.contains_key(
                    hit.top_chunks@[c].id,
                ) && hit.note == Some(places[hit.top_chunks@[c].id].0) && hit.top_chunks@[c].offset == places[hit.top_chunks@[c].id].1
        }
}

/// Folding gives hits that are well folded.
pub proof fn folding_is_right(list: Seq<i64>, places: Map<i64, (i64, usize)>, per_note: int, out: Seq<FoldedHit>)
    requires
        folded(list, places, per_note, out),
        per_note >= 0,
    ensures
        well_folded(list, places, per_note, out),
{
    assert forall|k: int| 0 <= k < out.len() implies ({
        let hit = #[trigger] out[k];
        &&& list.contains(hit.id)
        &&& places.contains_key(hit.id) ==> hit.note == Some(places[hit.id].0) && hit.top_chunks@.len() <= per_note
        &&& !places.contains_key(hit.id) ==> hit.note is None && hit.top_chunks@.len() == 0
        &&& forall|c: int|
            0 <= c < hit.top_chunks@.len() ==> list.contains((#[trigger] hit.top_chunks@[c]).id) && places.contains_key(
                hit.top_chunks@[c].id,
            ) && hit.note == Some(places[hit.top_chunks@[c].id].0) && hit.top_chunks@[c].offset == places[hit.top_chunks@[c].id].1
    }) by {
        let hit = out[k];
        assert(kept_ids(out)[k] == hit.id);
        folded_ids_within(list, places, k);
        if let Some(note) = hit.note {
            let all = chunks_of(list, places, note);
            assert forall|c: int| 0 <= c < hit.top_chunks@.len() implies list.contains((#[trigger] hit.top_chunks@[c]).id)
                && places.contains_key(hit.top_chunks@[c].id) && hit.note == Some(places[hit.top_chunks@[c].id].0) && hit.top_chunks@[c].offset
                == places[hit.top_chunks@[c].id].1 by {
                assert(all[c] == hit.top_chunks@[c]);
                assert(all.contains(all[c]));
                chunks_are_of_their_note(list, places, note, all[c]);
            }
        }
    }
}

// ── Reranking ─────────────────────────────────────────────────────────

/// What a reranker takes. The number of candidates and the number of tokens are limited at once:
/// short candidates cost by their number, long ones by their length.
#[derive(Debug, Clone, Copy, PartialEq, Eq, Structural)]
pub struct RerankerOptions {
    /// Tokens of the query and all candidates together.
    pub max_tokens_total: usize,
    pub max_candidates: usize,
    pub max_tokens_per_doc: usize,
    /// Tokens of the query; none for no limit of its own.
    pub max_tokens_query: Option<usize>,
}

impl Default for RerankerOptions {
    fn default() -> (out: Self)
        ensures
            out.max_tokens_total == 8192,
            out.max_candidates == 50,
            out.max_tokens_per_doc == 1024,
            out.max_tokens_query is None,
    {
        RerankerOptions { max_tokens_total: 8192, max_candidates: 50, max_tokens_per_doc: 1024, max_tokens_query: None }
    }
}

/// What is wrong with a reranker's options.
pub open spec fn reranker_error(o: RerankerOptions) -> Option<ErrorView> {
    if o.max_tokens_total == 0 {
        Some(ErrorView::Validation("max_tokens_total must be at least 1"@))
    } else if o.max_candidates == 0 {
        Some(ErrorView::Validation("max_candidates must be at least 1"@))
    } else if o.max_tokens_per_doc == 0 {
        Some(ErrorView::Validation("max_tokens_per_doc must be at least 1"@))
    } else if o.max_tokens_query == Some(0usize) {
        Some(ErrorView::Validation("max_tokens_query must be positive"@))
    } else {
        None
    }
}

/// Checks a reranker's options.
pub fn check_reranker(o: RerankerOptions) -> (out: Result<(), Error>)
    ensures
        storage::refused(out, reranker_error(o)),
        out is Ok <==> o.max_tokens_total >= 1 && o.max_candidates >= 1 && o.max_tokens_per_doc >= 1 && o.max_tokens_query != Some(0usize),
{
    if o.max_tokens_total == 0 {
        return Err(Error::Validation("max_tokens_total must be at least 1".to_owned()));
    }
    if o.max_candidates == 0 {
        return Err(Error::Validation("max_candidates must be at least 1".to_owned()));
    }
    if o.max_tokens_per_doc == 0 {
        return Err(Error::Validation("max_tokens_per_doc must be at least 1".to_owned()));
    }
    if let Some(n) = o.max_tokens_query {
        if n == 0 {
            return Err(Error::Validation("max_tokens_query must be positive".to_owned()));
        }
    }
    Ok(())
}

/// All scores are finite.
pub open spec fn all_finite(scores: Seq<u32>) -> bool {
    forall|i: int| 0 <= i < scores.len() ==> bits::single_finite(#[trigger] scores[i])
}

/// Whether all scores are finite.
pub fn is_all_finite(scores: &Vec<u32>) -> (out: bool)
    ensures
        out == all_finite(scores@),
        out <==> forall|i: int| 0 <= i < scores@.len() ==> (#[trigger] scores@[i]) % 0x8000_0000 < 0x7F80_0000,
{
    let mut i: usize = 0;
    while i < scores.len()
        invariant
            i <= scores.len(),
            forall|k: int| 0 <= k < i ==> bits::single_finite(#[trigger] scores@[k]),
        decreases scores.len() - i,
    {
        if !bits::is_single_finite(scores[i]) {
            assert(!bits::single_finite(scores@[i as int]));
            return false;
        }
        i = i + 1;
    }
    true
}

/// The documents on which a reranker is tried before it is registered.
pub fn rerank_samples() -> (out: Vec<String>)
    ensures
        chars::texts(out@) == seq!["重排校验样本一"@, "rerank probe two"@],
{
    let out: Vec<String> = vec!["重排校验样本一".to_owned(), "rerank probe two".to_owned()];
    assert(chars::texts(out@) == seq!["重排校验样本一"@, "rerank probe two"@]);
    out
}

/// Checks what a reranker gave back for the samples. One that could not answer is registered all
/// the same: a search does without it then.
pub fn check_samples(produced: Option<&Vec<u32>>, documents: usize) -> (out: Result<(), Error>)
    ensures
        storage::refused(out, match produced {
            Some(scores) => if scores@.len() != documents {
                Some(
                    ErrorView::Validation(
                        "reranker returned "@ + crate::decimal::integer_text(scores@.len() as int) + " scores for "@
                            + crate::decimal::integer_text(documents as int) + " documents"@,
                    ),
                )
            } else if !all_finite(scores@) {
                Some(ErrorView::Validation("reranker scores must be finite"@))
            } else {
                None
            },
            None => None,
        }),
{
    if let Some(scores) = produced {
        if scores.len() != documents {
            let mut message = chars::concat("reranker returned ", crate::decimal::decimal_usize(scores.len()).as_str());
            message.append(" scores for ");
            message.append(crate::decimal::decimal_usize(documents).as_str());
            message.append(" documents");
            return Err(Error::Validation(message));
        }
        if !is_all_finite(scores) {
            return Err(Error::Validation("reranker scores must be finite".to_owned()));
        }
    }
    Ok(())
}

/// A candidate with the text it is judged by.
#[derive(Debug)]
pub struct RerankSource {
    pub id: i64,
    /// The name of an entity; empty for other records.
    pub name: String,
    /// The text that the index holds; empty where it holds none.
    pub body: String,
}

/// The document of a candidate: an entity's name stands before its text, and the whole is cut to
/// the budget of one document.
pub open spec fn document(source: RerankSource, o: RerankerOptions) -> Seq<char> {
    let whole = if source.name@.len() > 0 {
        source.name@ + " "@ + source.body@
    } else {
        source.body@
    };
    text::cut(whole, o.max_tokens_per_doc as nat)
}

/// The query that is handed to a reranker.
pub open spec fn budgeted_query(query: Seq<char>, o: RerankerOptions) -> Seq<char> {
    match o.max_tokens_query {
        Some(budget) => text::cut(query, budget as nat),
        None => query,
    }
}

/// How many candidates fit from the front, after `taken` of them used `used` tokens.
pub open spec fn fitting(sources: Seq<RerankSource>, o: RerankerOptions, taken: int, used: int) -> int
    decreases sources.len() - taken,
{
    if taken < 0 || taken >= sources.len() || taken >= o.max_candidates {
        taken
    } else {
        let cost = text::token_count(document(sources[taken], o));
        if used + cost > o.max_tokens_total {
            taken
        } else {
            fitting(sources, o, taken + 1, used + cost)
        }
    }
}

/// The tokens of the first `n` documents.
pub open spec fn spent(sources: Seq<RerankSource>, o: RerankerOptions, n: int) -> int
    decreases n,
{
    if n <= 0 {
        0
    } else {
        spent(sources, o, n - 1) + text::token_count(document(sources[n - 1], o))
    }
}

/// What is handed to a reranker.
#[derive(Debug)]
pub struct RerankBatch {
    pub query: String,
    pub candidates: Vec<i64>,
    pub documents: Vec<String>,
    /// The tokens of the query and the documents.
    pub tokens: usize,
}

/// The batch holds as many candidates from the front as both limits allow.
pub open spec fn batch_is(query: Seq<char>, sources: Seq<RerankSource>, o: RerankerOptions, out: RerankBatch) -> bool {
    let q = budgeted_query(query, o);
    let n = fitting(sources, o, 0, text::token_count(q) as int);
    &&& out.query@ == q
    &&& out.candidates@ == Seq::new(n as nat, |i: int| sources[i].id)
    &&& chars::texts(out.documents@) == Seq::new(n as nat, |i: int| document(sources[i], o))
    &&& out.tokens == text::token_count(q) + spent(sources, o, n)
}

/// Picks what is handed to a reranker: from the front, until the number of candidates or the
/// tokens reach their limit.
pub fn rerank_batch(query: &str, sources: &Vec<RerankSource>, o: RerankerOptions) -> (out: RerankBatch)
    ensures
        batch_is(query@, sources@, o, out),
        well_batched(query@, sources@, o, out),
{
    let cut_query = match o.max_tokens_query {
        Some(budget) => text::truncate_to_tokens(query, budget),
        None => query.to_owned(),
    };
    let base: usize = text::count_tokens(cut_query.as_str());
    let mut used: usize = base;
    let mut candidates: Vec<i64> = Vec::new();
    let mut documents: Vec<String> = Vec::new();
    let mut i: usize = 0;
    let mut full = false;
    let ghost q = text::token_count(budgeted_query(query@, o));
    while i < sources.len() && i < o.max_candidates && !full
        invariant
            i <= sources.len(),
            candidates@ == Seq::new(i as nat, |k: int| sources@[k].id),
            chars::texts(documents@) == Seq::new(i as nat, |k: int| document(sources@[k], o)),
            used == q + spent(sources@, o, i as int),
            if full {
                fitting(sources@, o, 0, q as int) == i
            } else {
                fitting(sources@, o, 0, q as int) == fitting(sources@, o, i as int, used as int)
            },
        decreases sources.len() - i, (if full { 0int } else { 1int }),
    {
        let source = &sources[i];
        let whole = if source.name.as_str().unicode_len() > 0 {
            let mut whole = chars::concat(source.name.as_str(), " ");
            whole.append(source.body.as_str());
            whole
        } else {
            source.body.clone()
        };
        let text = text::truncate_to_tokens(whole.as_str(), o.max_tokens_per_doc);
        assert(text@ == document(sources@[i as int], o));
        let cost: usize = text::count_tokens(text.as_str());
        if used > o.max_tokens_total || cost > o.max_tokens_total - used {
            full = true;
        } else {
            let ghost before = chars::texts(documents@);
            used = used + cost;
            candidates.push(source.id);
            documents.push(text);
            assert(chars::texts(documents@) == before.push(document(sources@[i as int], o)));
            i = i + 1;
            assert(candidates@ == Seq::new(i as nat, |k: int| sources@[k].id));
            assert(chars::texts(documents@) == Seq::new(i as nat, |k: int| document(sources@[k], o)));
        }
    }
    let out = RerankBatch { query: cut_query, candidates, documents, tokens: used };
    proof {
        batch_is_full(query@, sources@, o, out);
    }
    out
}

/// The answer to a batch that needs no reranker: an empty batch has nothing to judge, and a
/// reranker is never called with no documents.
pub fn answer_without_call(batch: &RerankBatch) -> (out: Option<Vec<u32>>)
    ensures
        out is Some <==> batch.candidates@.len() == 0,
        out matches Some(scores) ==> scores@.len() == 0,
{
    if batch.candidates.len() == 0 {
        Some(Vec::new())
    } else {
        None
    }
}

proof fn fitting_bounds(sources: Seq<RerankSource>, o: RerankerOptions, taken: int, used: int)
    requires
        0 <= taken <= sources.len(),
        taken <= o.max_candidates,
    ensures
        taken <= fitting(sources, o, taken, used) <= sources.len(),
        fitting(sources, o, taken, used) <= o.max_candidates,
        fitting(sources, o, taken, used) > taken ==> used - spent(sources, o, taken) + spent(
            sources,
            o,
            fitting(sources, o, taken, used),
        ) <= o.max_tokens_total,
    decreases sources.len() - taken,
{
    if taken < sources.len() && taken < o.max_candidates {
        let cost = text::token_count(document(sources[taken], o));
        if used + cost <= o.max_tokens_total {
            fitting_bounds(sources, o, taken + 1, used + cost);
        }
    }
}

proof fn cut_fits(s: Seq<char>, budget: nat)
    ensures
        text::token_count(text::cut(s, budget)) <= budget,
    decreases s.len(),
{
    if s.len() > 0 && text::units(s) > 100 * budget {
        cut_fits(s.drop_last(), budget);
    }
}

proof fn fitting_is_full(sources: Seq<RerankSource>, o: RerankerOptions, taken: int, used: int)
    requires
        0 <= taken <= sources.len(),
        taken <= o.max_candidates,
    ensures
        ({
            let n = fitting(sources, o, taken, used);
            n < sources.len() && n < o.max_candidates ==> used - spent(sources, o, taken) + spent(sources, o, n) + text::token_count(
                document(sources[n], o),
            ) > o.max_tokens_total
        }),
    decreases sources.len() - taken,
{
    if taken < sources.len() && taken < o.max_candidates {
        let cost = text::token_count(document(sources[taken], o));
        if used + cost <= o.max_tokens_total {
            fitting_is_full(sources, o, taken + 1, used + cost);
        }
    }
}

/// The tokens of a list of texts.
pub open spec fn tokens_in(list: Seq<Seq<char>>) -> int
    decreases list.len(),
{
    if list.len() == 0 {
        0
    } else {
        tokens_in(list.drop_last()) + text::token_count(list.last())
    }
}

/// What a candidate says before it is cut: its name in front of its body, where it has one.
pub open spec fn full_text(source: RerankSource, whole: Seq<char>) -> bool {
    &&& source.name@.len() == 0 ==> whole == source.body@
    &&& source.name@.len() > 0 ==> whole == source.name@ + " "@ + source.body@
}

/// A batch takes candidates from the front until the next would exceed a limit. Each document is
/// the longest beginning of its text that keeps its own limit, the query likewise; the tokens are
/// those of the query and the documents.
pub open spec fn well_batched(query: Seq<char>, sources: Seq<RerankSource>, o: RerankerOptions, out: RerankBatch) -> bool {
    let n = out.candidates@.len() as int;
    &&& n <= sources.len()
    &&& out.documents@.len() == n
    &&& out.tokens == text::token_count(out.query@) + tokens_in(chars::texts(out.documents@))
    &&& o.max_tokens_query is None ==> out.query@ == query
    &&& o.max_tokens_query matches Some(most) ==> out.query@.len() <= query.len() && text::longest_prefix(
        query,
        most as nat,
        out.query@.len() as int,
    ) && out.query@ == query.take(out.query@.len() as int)
    &&& forall|i: int, whole: Seq<char>|
        0 <= i < n && #[trigger] full_text(sources[i], whole) ==> {
            let d = out.documents@[i]@;
            &&& out.candidates@[i] == sources[i].id
            &&& d.len() <= whole.len() && d == whole.take(d.len() as int)
            &&& text::longest_prefix(whole, o.max_tokens_per_doc as nat, d.len() as int)
        }
    &&& forall|whole: Seq<char>|
        n < sources.len() && n < o.max_candidates && #[trigger] full_text(sources[n], whole) ==> out.tokens + text::token_count(
            text::cut(whole, o.max_tokens_per_doc as nat),
        ) > o.max_tokens_total
}

proof fn cut_is_taken(s: Seq<char>, budget: nat)
    ensures
        text::cut(s, budget).len() <= s.len(),
        text::cut(s, budget) == s.take(text::cut(s, budget).len() as int),
        text::longest_prefix(s, budget, text::cut(s, budget).len() as int),
    decreases s.len(),
{
    let c = text::cut(s, budget);
    if s.len() == 0 || text::units(s) <= 100 * budget {
        assert(s.take(s.len() as int) == s);
    } else {
        let shorter = s.drop_last();
        cut_is_taken(shorter, budget);
        assert(shorter.take(c.len() as int) == s.take(c.len() as int));
        if c.len() < shorter.len() {
            assert(shorter.take(c.len() as int + 1) == s.take(c.len() as int + 1));
        } else {
            assert(s.take(c.len() as int + 1) == s);
        }
    }
}

proof fn spent_is_tokens(sources: Seq<RerankSource>, o: RerankerOptions, n: int)
    requires
        0 <= n <= sources.len(),
    ensures
        spent(sources, o, n) == tokens_in(Seq::new(n as nat, |i: int| document(sources[i], o))),
    decreases n,
{
    if n > 0 {
        spent_is_tokens(sources, o, n - 1);
        let all = Seq::new(n as nat, |i: int| document(sources[i], o));
        assert(all.drop_last() == Seq::new((n - 1) as nat, |i: int| document(sources[i], o)));
    }
}

/// A batch holds as many candidates as its limits allow, each cut no more than it has to be.
pub proof fn batch_is_full(query: Seq<char>, sources: Seq<RerankSource>, o: RerankerOptions, batch: RerankBatch)
    requires
        batch_is(query, sources, o, batch),
    ensures
        well_batched(query, sources, o, batch),
{
    let q = text::token_count(budgeted_query(query, o)) as int;
    let n = fitting(sources, o, 0, q);
    fitting_bounds(sources, o, 0, q);
    fitting_is_full(sources, o, 0, q);
    spent_is_tokens(sources, o, n);
    assert(chars::texts(batch.documents@).len() == n);
    if let Some(most) = o.max_tokens_query {
        cut_is_taken(query, most as nat);
    }
    assert forall|i: int, whole: Seq<char>| 0 <= i < n && #[trigger] full_text(sources[i], whole) implies ({
        let d = batch.documents@[i]@;
        &&& batch.candidates@[i] == sources[i].id
        &&& d.len() <= whole.len() && d == whole.take(d.len() as int)
        &&& text::longest_prefix(whole, o.max_tokens_per_doc as nat, d.len() as int)
    }) by {
        assert(chars::texts(batch.documents@)[i] == document(sources[i], o));
        cut_is_taken(whole, o.max_tokens_per_doc as nat);
    }
}

/// A batch stays within every limit: candidates, tokens of a document, and tokens in all. Only
/// where not a single candidate fits may the query alone exceed the total.
pub proof fn batch_meets_the_budget(query: Seq<char>, sources: Seq<RerankSource>, o: RerankerOptions, batch: RerankBatch)
    requires
        batch_is(query, sources, o, batch),
    ensures
        batch.candidates@.len() <= o.max_candidates,
        batch.candidates@.len() <= sources.len(),
        batch.candidates@.len() == batch.documents@.len(),
        batch.candidates@.len() > 0 ==> batch.tokens <= o.max_tokens_total,
        forall|i: int| 0 <= i < batch.documents@.len() ==> text::token_count((#[trigger] batch.documents@[i])@) <= o.max_tokens_per_doc,
{
    let q = text::token_count(budgeted_query(query, o)) as int;
    let n = fitting(sources, o, 0, q);
    fitting_bounds(sources, o, 0, q);
    assert(chars::texts(batch.documents@).len() == n);
    assert forall|i: int| 0 <= i < batch.documents@.len() implies text::token_count((#[trigger] batch.documents@[i])@) <= o.max_tokens_per_doc by {
        assert(chars::texts(batch.documents@)[i] == document(sources[i], o));
        let source = sources[i];
        let whole = if source.name@.len() > 0 {
            source.name@ + " "@ + source.body@
        } else {
            source.body@
        };
        cut_fits(whole, o.max_tokens_per_doc as nat);
    }
}

/// The candidates with the scores that a reranker gave them.
pub open spec fn judged(candidates: Seq<i64>, scores: Seq<u32>) -> Seq<Scored> {
    Seq::new(candidates.len(), |i: int| Scored { id: candidates[i], score: bits::single_order_of(scores[i]) as i64 })
}

/// The answer of a reranker can be used: one finite score for each candidate.
pub open spec fn usable_answer(candidates: Seq<i64>, scores: Option<Seq<u32>>) -> bool {
    scores matches Some(list) && list.len() == candidates.len() && all_finite(list)
}

/// The scores of an answer.
pub open spec fn answer_of(scores: Option<Vec<u32>>) -> Option<Seq<u32>> {
    match scores {
        Some(list) => Some(list@),
        None => None,
    }
}

/// Orders the candidates by a reranker's answer, the best first and the smaller id first where
/// scores are equal; none where the answer cannot be used.
pub fn apply_rerank(candidates: &Vec<i64>, scores: &Option<Vec<u32>>) -> (out: Option<Vec<i64>>)
    ensures
        out is Some <==> usable_answer(candidates@, answer_of(*scores)),
        out matches Some(list) ==> list@ == search::scored_ids(ranking::ranked(judged(candidates@, scores->0@))),
        out is Some <==> (scores matches Some(s) && s@.len() == candidates@.len() && forall|i: int|
            0 <= i < s@.len() ==> (#[trigger] s@[i]) % 0x8000_0000 < 0x7F80_0000),
        out matches Some(list) ==> list@.len() == candidates@.len() && forall|k: int|
            0 <= k < candidates@.len() ==> list@.contains(#[trigger] candidates@[k]),
{
    proof {
        if scores is Some && scores->0@.len() == candidates@.len() {
            reranking_puts_the_best_first(candidates@, scores->0@);
        }
    }
    match scores {
        None => None,
        Some(list) => {
            if list.len() != candidates.len() || !is_all_finite(list) {
                return None;
            }
            let mut pairs: Vec<Scored> = Vec::new();
            let mut i: usize = 0;
            while i < candidates.len()
                invariant
                    i <= candidates.len(),
                    list.len() == candidates.len(),
                    pairs@ == judged(candidates@, list@).take(i as int),
                decreases candidates.len() - i,
            {
                pairs.push(Scored { id: candidates[i], score: bits::single_order_key(list[i]) });
                assert(judged(candidates@, list@).take(i + 1) == judged(candidates@, list@).take(i as int).push(pairs@[i as int]));
                i = i + 1;
            }
            assert(judged(candidates@, list@).take(candidates@.len() as int) == judged(candidates@, list@));
            Some(search::order_by_score(&pairs))
        },
    }
}

/// The hits of a search, after reranking or without: the candidates that were reranked in their new
/// order, or all candidates by their fused score; never more than asked for.
pub open spec fn selection(fused: Seq<i64>, reranked: Option<Seq<i64>>, limit: int) -> Seq<i64> {
    let list = match reranked {
        Some(order) => order,
        None => fused,
    };
    if list.len() <= limit {
        list
    } else {
        list.take(limit)
    }
}

/// A search never gives more hits than were asked for, and without reranking it keeps the order of
/// the fused scores.
pub proof fn selection_is_limited(fused: Seq<i64>, reranked: Option<Seq<i64>>, limit: int)
    requires
        limit >= 0,
    ensures
        selection(fused, reranked, limit).len() <= limit,
        reranked is None ==> forall|i: int|
            0 <= i < selection(fused, reranked, limit).len() ==> (#[trigger] selection(fused, reranked, limit)[i]) == fused[i],
{
}

/// Without reranking the fused order counts, else the order of the reranker; the front of it is
/// taken, and all of it where there are not more than were asked for.
pub proof fn selection_is_the_front(fused: Seq<i64>, reranked: Option<Seq<i64>>, limit: int)
    requires
        limit >= 0,
    ensures
        ({
            let out = selection(fused, reranked, limit);
            &&& reranked matches Some(order) ==> out.is_prefix_of(order) && (out.len() < limit ==> out == order)
            &&& reranked is None ==> out.is_prefix_of(fused) && (out.len() < limit ==> out == fused)
        }),
{
}

/// A usable answer orders the candidates by their scores, the best first: every candidate is there
/// with its score, and none stands behind one with a smaller score.
pub proof fn reranking_puts_the_best_first(candidates: Seq<i64>, scores: Seq<u32>)
    requires
        candidates.len() == scores.len(),
    ensures
        ({
            let out = ranking::ranked(judged(candidates, scores));
            &&& out.len() == candidates.len()
            &&& forall|a: int, b: int| 0 <= a < b < out.len() ==> (#[trigger] out[a]).score >= (#[trigger] out[b]).score
            &&& forall|a: int|
                0 <= a < out.len() ==> exists|k: int|
                    0 <= k < candidates.len() && (#[trigger] out[a]).id == #[trigger] candidates[k] && out[a].score == bits::single_order_of(
                        scores[k],
                    )
            &&& forall|k: int| 0 <= k < candidates.len() ==> search::scored_ids(out).contains(#[trigger] candidates[k])
        }),
{
    let given = judged(candidates, scores);
    let out = ranking::ranked(given);
    ranking::ranked_is_ordered(given);
    given.to_multiset_ensures();
    out.to_multiset_ensures();
    assert forall|a: int, b: int| 0 <= a < b < out.len() implies (#[trigger] out[a]).score >= (#[trigger] out[b]).score by {
        assert(!ranking::better(out[b], out[a]));
    }
    assert forall|a: int| 0 <= a < out.len() implies exists|k: int|
        0 <= k < candidates.len() && (#[trigger] out[a]).id == #[trigger] candidates[k] && out[a].score == bits::single_order_of(scores[k]) by {
        vstd::seq_lib::to_multiset_contains(out, out[a]);
        vstd::seq_lib::to_multiset_contains(given, out[a]);
        assert(out.contains(out[a]));
        assert(given.contains(out[a]));
        let k = choose|k: int| 0 <= k < given.len() && given[k] == out[a];
        assert(out[a].id == candidates[k]);
    }
    assert forall|k: int| 0 <= k < candidates.len() implies search::scored_ids(out).contains(#[trigger] candidates[k]) by {
        vstd::seq_lib::to_multiset_contains(out, given[k]);
        vstd::seq_lib::to_multiset_contains(given, given[k]);
        assert(given.contains(given[k]));
        assert(out.contains(given[k]));
        let a = choose|a: int| 0 <= a < out.len() && out[a] == given[k];
        assert(search::scored_ids(out)[a] == candidates[k]);
    }
}

/// Settles a reranking: notes in the diagnostics what came of it and gives the final order.
/// `batch` and `answer` are there where a reranker is registered and the request wants it; the
/// reranker is not called for no candidates, which counts as an empty answer. `merged` are the
/// folded candidates that the batch was taken from, `fused` the folded candidates by their fused
/// score: a reranker that fails leaves all of these, not only what fitted its budget.
pub fn settle_rerank(
    merged: &Vec<i64>,
    fused: &Vec<i64>,
    batch: Option<&Vec<i64>>,
    answer: &Option<Vec<u32>>,
    limit: usize,
    diagnostics: &mut SearchDiagnostics,
) -> (out: Vec<i64>)
    requires
        batch matches Some(list) ==> list.len() <= merged.len(),
    ensures
        ({
            let order: Option<Seq<i64>> = match batch {
                Some(list) => if usable_answer(list@, answer_of(*answer)) {
                    Some(search::scored_ids(ranking::ranked(judged(list@, answer->0@))))
                } else {
                    None
                },
                None => None,
            };
            &&& out@ == selection(fused@, order, limit as int)
            &&& final(diagnostics).reranked == (old(diagnostics).reranked || order is Some)
            &&& final(diagnostics).degraded@ == (if batch is Some && order is None {
                old(diagnostics).degraded@.push(Degrade::RerankFailed)
            } else {
                old(diagnostics).degraded@
            })
            &&& final(diagnostics).text_used == old(diagnostics).text_used
            &&& final(diagnostics).vector_used == old(diagnostics).vector_used
            &&& match batch {
                Some(list) => final(diagnostics).rerank_candidates == list@.len() && final(diagnostics).rerank_truncated
                    == merged@.len() - list@.len(),
                None => final(diagnostics).rerank_candidates == old(diagnostics).rerank_candidates && final(diagnostics).rerank_truncated
                    == old(diagnostics).rerank_truncated,
            }
        }),
{
    let mut order: Option<Vec<i64>> = None;
    if let Some(list) = batch {
        diagnostics.rerank_candidates = list.len();
        diagnostics.rerank_truncated = merged.len() - list.len();
        order = apply_rerank(list, answer);
        if order.is_some() {
            diagnostics.reranked = true;
        } else {
            diagnostics.degraded.push(Degrade::RerankFailed);
        }
    }
    let mut out = match order {
        Some(list) => list,
        None => crate::types::copy_ids(fused),
    };
    if out.len() > limit {
        out.truncate(limit);
    }
    out
}

/// What a folded candidate says.
pub open spec fn said(hit: FoldedHit) -> (i64, Option<i64>, Seq<ChunkRef>) {
    (hit.id, hit.note, hit.top_chunks@)
}

/// What a list of folded candidates says.
pub open spec fn all_said(list: Seq<FoldedHit>) -> Seq<(i64, Option<i64>, Seq<ChunkRef>)> {
    Seq::new(list.len(), |i: int| said(list[i]))
}

/// What the first candidate with an id says.
pub open spec fn first_said(list: Seq<FoldedHit>, id: i64) -> Option<(i64, Option<i64>, Seq<ChunkRef>)>
    decreases list.len(),
{
    if list.len() == 0 {
        None
    } else if list[0].id == id {
        Some(said(list[0]))
    } else {
        first_said(list.drop_first(), id)
    }
}

/// What the candidates say that an order names.
pub open spec fn picked(order: Seq<i64>, list: Seq<FoldedHit>) -> Seq<(i64, Option<i64>, Seq<ChunkRef>)>
    decreases order.len(),
{
    if order.len() == 0 {
        Seq::empty()
    } else {
        let before = picked(order.drop_last(), list);
        match first_said(list, order.last()) {
            Some(hit) => before.push(hit),
            None => before,
        }
    }
}

fn find_hit(list: &Vec<FoldedHit>, id: i64) -> (out: Option<FoldedHit>)
    ensures
        match out {
            Some(hit) => first_said(list@, id) == Some(said(hit)),
            None => first_said(list@, id) is None,
        },
{
    let mut i: usize = 0;
    assert(list@.skip(0) == list@);
    while i < list.len()
        invariant
            i <= list.len(),
            first_said(list@, id) == first_said(list@.skip(i as int), id),
        decreases list.len() - i,
    {
        assert(list@.skip(i as int)[0] == list@[i as int]);
        assert(list@.skip(i as int).drop_first() == list@.skip(i + 1));
        if list[i].id == id {
            let mut top_chunks: Vec<ChunkRef> = Vec::new();
            let mut k: usize = 0;
            while k < list[i].top_chunks.len()
                invariant
                    i < list.len(),
                    k <= list@[i as int].top_chunks.len(),
                    top_chunks@ == list@[i as int].top_chunks@.take(k as int),
                decreases list@[i as int].top_chunks.len() - k,
            {
                top_chunks.push(list[i].top_chunks[k]);
                assert(list@[i as int].top_chunks@.take(k + 1) == list@[i as int].top_chunks@.take(k as int).push(top_chunks@[k as int]));
                k = k + 1;
            }
            assert(list@[i as int].top_chunks@.take(k as int) == list@[i as int].top_chunks@);
            return Some(FoldedHit { id, note: list[i].note, top_chunks });
        }
        i = i + 1;
    }
    assert(list@.skip(i as int).len() == 0);
    None
}

/// Where every id of an order has a hit, the hits come in that order, one for each, and each says
/// what the first hit of its id says.
pub proof fn picking_follows_the_order(order: Seq<i64>, list: Seq<FoldedHit>)
    requires
        forall|k: int| 0 <= k < order.len() ==> kept_ids(list).contains(#[trigger] order[k]),
    ensures
        picked(order, list).len() == order.len(),
        forall|k: int| 0 <= k < order.len() ==> (#[trigger] picked(order, list)[k]).0 == order[k] && all_said(list).contains(picked(order, list)[k]),
    decreases order.len(),
{
    if order.len() > 0 {
        let before = order.drop_last();
        let n = order.len() - 1;
        assert forall|k: int| 0 <= k < before.len() implies kept_ids(list).contains(#[trigger] before[k]) by {
            assert(before[k] == order[k]);
        }
        picking_follows_the_order(before, list);
        assert(kept_ids(list).contains(order[n]));
        first_hit_is_found(list, order[n]);
        let all = picked(order, list);
        assert forall|k: int| 0 <= k < order.len() implies (#[trigger] all[k]).0 == order[k] && all_said(list).contains(all[k]) by {
            if k < n {
                assert(all[k] == picked(before, list)[k]);
                assert(before[k] == order[k]);
            }
        }
    }
}

proof fn first_hit_is_found(list: Seq<FoldedHit>, id: i64)
    requires
        kept_ids(list).contains(id),
    ensures
        first_said(list, id) is Some,
        (first_said(list, id)->0).0 == id,
        all_said(list).contains(first_said(list, id)->0),
    decreases list.len(),
{
    let k = choose|k: int| 0 <= k < kept_ids(list).len() && kept_ids(list)[k] == id;
    if list[0].id == id {
        assert(all_said(list)[0] == said(list[0]));
    } else {
        let rest = list.drop_first();
        assert(kept_ids(rest)[k - 1] == id);
        first_hit_is_found(rest, id);
        let j = choose|j: int| 0 <= j < all_said(rest).len() && all_said(rest)[j] == first_said(rest, id)->0;
        assert(all_said(list)[j + 1] == all_said(rest)[j]);
    }
}

/// The folded candidates that an order names, with what they show of their notes.
pub fn pick_hits(order: &Vec<i64>, list: &Vec<FoldedHit>) -> (out: Vec<FoldedHit>)
    ensures
        all_said(out@) == picked(order@, list@),
{
    let mut out: Vec<FoldedHit> = Vec::new();
    let mut i: usize = 0;
    assert(order@.take(0) == Seq::<i64>::empty());
    assert(all_said(out@) == picked(order@.take(0), list@));
    while i < order.len()
        invariant
            i <= order.len(),
            all_said(out@) == picked(order@.take(i as int), list@),
        decreases order.len() - i,
    {
        assert(order@.take(i + 1).drop_last() == order@.take(i as int));
        let ghost before = out@;
        if let Some(hit) = find_hit(list, order[i]) {
            out.push(hit);
            assert(all_said(out@) == all_said(before).push(said(hit)));
        }
        i = i + 1;
    }
    assert(order@.take(order@.len() as int) == order@);
    out
}

// ── Hits ──────────────────────────────────────────────────────────────

/// The scores of a hit, doubles by their bits.
#[derive(Debug)]
pub struct HitScores {
    /// The fused score; no probability.
    pub score: u64,
    pub text_score: Option<u64>,
    /// The score in each vector space.
    pub vector_scores: Vec<(String, u64)>,
    pub rerank_score: Option<u64>,
}

/// A hit of a search.
#[derive(Debug)]
pub struct SearchHit {
    pub key: RecordKey,
    pub scores: HitScores,
    /// How many chunks of the hit's note match the query, where they were counted.
    pub note_chunks: Option<usize>,
    /// The best placed chunks of the note, the hit first.
    pub top_chunks: Vec<ChunkRef>,
    pub record: Json,
}

/// What is known of a selected candidate: its scores, and its record unless it is gone.
#[derive(Debug)]
pub struct Selected {
    pub id: i64,
    pub note: Option<i64>,
    pub top_chunks: Vec<ChunkRef>,
    pub scores: HitScores,
    pub record: Option<Json>,
}

/// How many chunks of a candidate's note match.
pub open spec fn chunk_count(counts: Map<i64, usize>, note: Option<i64>) -> Option<usize> {
    match note {
        Some(n) => if counts.contains_key(n) {
            Some(counts[n])
        } else {
            None
        },
        None => None,
    }
}

/// The hit that a candidate becomes.
pub open spec fn hit_is(candidate: Selected, counts: Map<i64, usize>, hit: SearchHit) -> bool {
    &&& hit.key.id == candidate.id
    &&& hit.scores == candidate.scores
    &&& hit.note_chunks == chunk_count(counts, candidate.note)
    &&& hit.top_chunks == candidate.top_chunks
    &&& candidate.record == Some(hit.record)
}

/// The candidates whose record is still there, in order.
pub open spec fn present(list: Seq<Selected>) -> Seq<Selected>
    decreases list.len(),
{
    if list.len() == 0 {
        list
    } else if list[0].record is Some {
        seq![list[0]] + present(list.drop_first())
    } else {
        present(list.drop_first())
    }
}

/// Every candidate whose record is there is shown, in order, and no other.
pub proof fn present_are_there(list: Seq<Selected>)
    ensures
        forall|x: Selected| #[trigger] present(list).contains(x) <==> list.contains(x) && x.record is Some,
        forall|i: int| 0 <= i < present(list).len() ==> list.contains(#[trigger] present(list)[i]) && present(list)[i].record is Some,
        (forall|k: int| 0 <= k < list.len() ==> (#[trigger] list[k]).record is Some) ==> present(list) == list,
        present(list).len() <= list.len(),
    decreases list.len(),
{
    if list.len() > 0 {
        let rest = list.drop_first();
        let kept = present(rest);
        let all = present(list);
        present_are_there(rest);
        assert forall|x: Selected| #[trigger] all.contains(x) <==> list.contains(x) && x.record is Some by {
            assert(rest.contains(x) ==> list.contains(x)) by {
                if rest.contains(x) {
                    let k = choose|k: int| 0 <= k < rest.len() && rest[k] == x;
                    assert(list[k + 1] == x);
                }
            }
            if list.contains(x) && x != list[0] {
                let k = choose|k: int| 0 <= k < list.len() && list[k] == x;
                assert(rest[k - 1] == x);
            }
            if list[0].record is Some {
                assert(all[0] == list[0]);
                if kept.contains(x) {
                    let k = choose|k: int| 0 <= k < kept.len() && kept[k] == x;
                    assert(all[k + 1] == x);
                }
                if all.contains(x) && x != list[0] {
                    let k = choose|k: int| 0 <= k < all.len() && all[k] == x;
                    assert(kept[k - 1] == x);
                }
            }
        }
        assert forall|i: int| 0 <= i < all.len() implies list.contains(#[trigger] all[i]) && all[i].record is Some by {
            assert(all.contains(all[i]));
        }
        if forall|k: int| 0 <= k < list.len() ==> (#[trigger] list[k]).record is Some {
            assert forall|k: int| 0 <= k < rest.len() implies (#[trigger] rest[k]).record is Some by {
                assert(rest[k] == list[k + 1]);
            }
            assert(list[0].record is Some);
            assert(all == list);
        }
    }
}

/// Makes the hits. A record that was deleted while the index still knew it is left out: one that is
/// gone does not fail the search for the others.
pub fn assemble_hits(selected: Vec<Selected>, counts: &HashMap<i64, usize>) -> (out: Vec<SearchHit>)
    ensures
        out.len() == present(selected@).len(),
        forall|i: int| 0 <= i < out.len() ==> hit_is(present(selected@)[i], counts@, #[trigger] out@[i]),
        out.len() <= selected.len(),
        forall|i: int|
            0 <= i < out.len() ==> {
                let from = present(selected@)[i];
                &&& selected@.contains(from)
                &&& (#[trigger] out@[i]).key.id == from.id
                &&& out@[i].scores == from.scores && out@[i].top_chunks == from.top_chunks && from.record == Some(out@[i].record)
                &&& from.note is None ==> out@[i].note_chunks is None
                &&& from.note matches Some(n) ==> out@[i].note_chunks == (if counts@.contains_key(n) {
                    Some(counts@[n])
                } else {
                    None
                })
            },
        (forall|k: int| 0 <= k < selected@.len() ==> (#[trigger] selected@[k]).record is Some) ==> out.len() == selected@.len() && forall|k: int|
            0 <= k < selected@.len() ==> (#[trigger] out@[k]).key.id == selected@[k].id,
{
    proof {
        present_are_there(selected@);
    }
    let ghost all = selected@;
    let mut rest = selected;
    let mut out: Vec<SearchHit> = Vec::new();
    let ghost mut done = Seq::<Selected>::empty();
    assert(done + present(rest@) == present(all));
    while rest.len() > 0
        invariant
            done + present(rest@) == present(all),
            out.len() == done.len(),
            out.len() + rest.len() <= all.len(),
            forall|i: int| 0 <= i < out.len() ==> hit_is(done[i], counts@, #[trigger] out@[i]),
        decreases rest.len(),
    {
        let ghost before = rest@;
        let candidate = rest.remove(0);
        assert(rest@ == before.drop_first());
        assert(candidate == before[0]);
        let note_chunks: Option<usize> = match candidate.note {
            Some(note) => match counts.get(&note) {
                Some(n) => Some(*n),
                None => None,
            },
            None => None,
        };
        let ghost taken = candidate;
        match candidate.record {
            Some(record) => {
                let ghost was = out@;
                out.push(
                    SearchHit {
                        key: RecordKey { id: candidate.id },
                        scores: candidate.scores,
                        note_chunks,
                        top_chunks: candidate.top_chunks,
                        record,
                    },
                );
                proof {
                    let earlier = done;
                    done = done.push(taken);
                    assert(done + present(rest@) == earlier + (seq![taken] + present(rest@)));
                    assert forall|i: int| 0 <= i < out.len() implies hit_is(done[i], counts@, #[trigger] out@[i]) by {
                        if i < was.len() {
                            assert(out@[i] == was[i]);
                        }
                    }
                }
            },
            None => {},
        }
    }
    assert(present(rest@) == Seq::<Selected>::empty());
    assert(done == present(all));
    out
}

/// The notes whose chunks are counted: those of the selected candidates, in ascending order, each
/// once.
pub fn counted_notes(selected: &Vec<i64>, places: &HashMap<i64, (i64, usize)>) -> (out: Vec<i64>)
    ensures
        crate::query::increasing(out@),
        forall|note: i64| #[trigger] out@.contains(note) <==> shows_note(selected@, places@, note),
{
    let mut out: Vec<i64> = Vec::new();
    let mut i: usize = 0;
    while i < selected.len()
        invariant
            i <= selected.len(),
            crate::query::increasing(out@),
            forall|note: i64| #[trigger] out@.contains(note) <==> shows_note(selected@.take(i as int), places@, note),
        decreases selected.len() - i,
    {
        let ghost before = selected@.take(i as int);
        let ghost after = selected@.take(i + 1);
        let id: i64 = selected[i];
        proof {
            assert forall|note: i64| shows_note(after, places@, note) <==> shows_note(before, places@, note) || note_of(places@, id) == Some(note) by {
                if shows_note(before, places@, note) {
                    let k = choose|k: int| 0 <= k < before.len() && note_of(places@, #[trigger] before[k]) == Some(note);
                    assert(after[k] == before[k]);
                }
                assert(after[i as int] == id);
                if shows_note(after, places@, note) {
                    let k = choose|k: int| 0 <= k < after.len() && note_of(places@, #[trigger] after[k]) == Some(note);
                    if k < i {
                        assert(before[k] == after[k]);
                    }
                }
            }
        }
        if let Some(place) = places.get(&id) {
            let _new = ids::insert_id(&mut out, place.0);
        }
        i = i + 1;
    }
    assert(selected@.take(selected@.len() as int) == selected@);
    out
}

} // verus!
