//! A search from the results of its paths to its hits.

use crate::hits;
use crate::hits::{FoldedHit, RerankSource};
use crate::ids;
use crate::ranking;
use crate::ranking::Scored;
use crate::search;
use crate::types::{Degrade, SearchDiagnostics};
use std::collections::HashMap;
use vstd::prelude::*;

verus! {

/// The order in which candidates are taken. A reranker judges both paths alike, so what it is given
/// is merged in turn; without one, and where it fails, the fused scores decide.
pub open spec fn candidate_order(reranks: bool, text: Seq<i64>, vector: Seq<i64>, scored: Seq<Scored>) -> Seq<i64> {
    if reranks {
        ids::first_places(search::interleaved(text, vector))
    } else {
        search::scored_ids(ranking::ranked(scored))
    }
}

/// The order in which candidates are taken. `scored` are the candidates with their fused scores.
pub fn order_candidates(reranks: bool, text: &Vec<i64>, vector: &Vec<i64>, scored: &Vec<Scored>) -> (out: Vec<i64>)
    ensures
        out@ == candidate_order(reranks, text@, vector@, scored@),
        reranks ==> out@.no_duplicates() && forall|x: i64| #[trigger] out@.contains(x) <==> text@.contains(x) || vector@.contains(x),
        !reranks ==> out@.len() == scored@.len() && forall|x: i64| #[trigger] out@.contains(x) <==> search::scored_ids(scored@).contains(x),
{
    proof {
        search::merging_keeps_every_candidate(text@, vector@);
        ranking::ranked_is_ordered(scored@);
        assert forall|x: i64| #[trigger] search::scored_ids(ranking::ranked(scored@)).contains(x) <==> search::scored_ids(scored@).contains(x) by {
            if search::scored_ids(ranking::ranked(scored@)).contains(x) {
                ranked_ids_hold(scored@, x);
            }
            if search::scored_ids(scored@).contains(x) {
                let k = choose|k: int| 0 <= k < search::scored_ids(scored@).len() && search::scored_ids(scored@)[k] == x;
                vstd::seq_lib::to_multiset_contains(scored@, scored@[k]);
                vstd::seq_lib::to_multiset_contains(ranking::ranked(scored@), scored@[k]);
                assert(scored@.contains(scored@[k]));
                let j = choose|j: int| 0 <= j < ranking::ranked(scored@).len() && ranking::ranked(scored@)[j] == scored@[k];
                assert(search::scored_ids(ranking::ranked(scored@))[j] == x);
            }
        }
    }
    if reranks {
        search::merge_candidates(text, vector)
    } else {
        search::order_by_score(scored)
    }
}

/// The order that a reranker's answer gives its candidates, where the answer can be used.
pub open spec fn reranked_order(batch: Option<Seq<i64>>, answer: Option<Seq<u32>>) -> Option<Seq<i64>> {
    match batch {
        Some(list) => if hits::usable_answer(list, answer) {
            Some(search::scored_ids(ranking::ranked(hits::judged(list, answer->0))))
        } else {
            None
        },
        None => None,
    }
}

/// The candidates of a search, folded.
#[derive(Debug)]
pub struct Arranged {
    /// How many candidates there were before folding.
    pub candidates: usize,
    /// In the order in which a reranker is given them, where there is one.
    pub merged: Vec<FoldedHit>,
    /// By their fused scores.
    pub fused: Vec<FoldedHit>,
}

/// Orders the candidates of both paths and folds the chunks of each note into one. `scored` are the
/// candidates with their fused scores, and `places` tells which of them are chunks of a note.
pub fn arrange(
    reranks: bool,
    text: &Vec<i64>,
    vector: &Vec<i64>,
    scored: &Vec<Scored>,
    places: &HashMap<i64, (i64, usize)>,
    per_note: usize,
) -> (out: Arranged)
    ensures
        out.candidates == candidate_order(reranks, text@, vector@, scored@).len(),
        hits::folded(candidate_order(reranks, text@, vector@, scored@), places@, per_note as int, out.merged@),
        hits::folded(candidate_order(false, text@, vector@, scored@), places@, per_note as int, out.fused@),
{
    let taken = order_candidates(reranks, text, vector, scored);
    let by_score = order_candidates(false, text, vector, scored);
    Arranged {
        candidates: taken.len(),
        merged: hits::fold_chunks(&taken, places, per_note),
        fused: hits::fold_chunks(&by_score, places, per_note),
    }
}

fn ids_of(list: &Vec<FoldedHit>) -> (out: Vec<i64>)
    ensures
        out@ == hits::kept_ids(list@),
{
    let mut out: Vec<i64> = Vec::new();
    let mut i: usize = 0;
    while i < list.len()
        invariant
            i <= list.len(),
            out@ == hits::kept_ids(list@).take(i as int),
        decreases list.len() - i,
    {
        out.push(list[i].id);
        assert(out@ == hits::kept_ids(list@).take(i + 1));
        i = i + 1;
    }
    assert(hits::kept_ids(list@).take(list@.len() as int) == hits::kept_ids(list@));
    out
}

/// Chooses the hits. `batch` and `answer` are what a reranker was given and what it answered, where
/// one is registered and the request wants it: a usable answer orders the candidates that were
/// judged; else the fused scores decide, over all candidates.
pub fn settle(
    arranged: &Arranged,
    batch: Option<&Vec<i64>>,
    answer: &Option<Vec<u32>>,
    limit: usize,
    diagnostics: &mut SearchDiagnostics,
) -> (out: Vec<FoldedHit>)
    requires
        batch matches Some(list) ==> list.len() <= arranged.merged.len(),
    ensures
        ({
            let given = match batch {
                Some(list) => Some(list@),
                None => None,
            };
            let order = reranked_order(given, hits::answer_of(*answer));
            &&& hits::all_said(out@) == hits::picked(
                hits::selection(hits::kept_ids(arranged.fused@), order, limit as int),
                if order is Some {
                    arranged.merged@
                } else {
                    arranged.fused@
                },
            )
            &&& final(diagnostics).reranked == (old(diagnostics).reranked || order is Some)
            &&& final(diagnostics).degraded@ == (if batch is Some && order is None {
                old(diagnostics).degraded@.push(Degrade::RerankFailed)
            } else {
                old(diagnostics).degraded@
            })
            &&& final(diagnostics).text_used == old(diagnostics).text_used
            &&& final(diagnostics).vector_used == old(diagnostics).vector_used
            &&& match batch {
                Some(list) => final(diagnostics).rerank_candidates == list@.len() && final(diagnostics).rerank_truncated
                    == arranged.merged@.len() - list@.len(),
                None => final(diagnostics).rerank_candidates == old(diagnostics).rerank_candidates && final(diagnostics).rerank_truncated
                    == old(diagnostics).rerank_truncated,
            }
        }),
{
    let merged = ids_of(&arranged.merged);
    let fused = ids_of(&arranged.fused);
    let before = diagnostics.degraded.len();
    let order = hits::settle_rerank(&merged, &fused, batch, answer, limit, diagnostics);
    let judged = batch.is_some() && diagnostics.degraded.len() == before;
    hits::pick_hits(&order, if judged { &arranged.merged } else { &arranged.fused })
}

/// The scores that hits show of a reranker: those of its candidates where its answer can be used,
/// none else.
pub open spec fn reranker_scores(batch: Option<Seq<i64>>, answer: Option<Seq<u32>>) -> Seq<(i64, u32)> {
    match batch {
        Some(list) => if hits::usable_answer(list, answer) {
            Seq::new(list.len(), |i: int| (list[i], answer->0[i]))
        } else {
            Seq::empty()
        },
        None => Seq::empty(),
    }
}

/// The scores that hits show of a reranker, by id. `batch` and `answer` are as for `settle`.
pub fn shown_scores(batch: Option<&Vec<i64>>, answer: &Option<Vec<u32>>) -> (out: Vec<(i64, u32)>)
    ensures
        out@ == reranker_scores(match batch {
            Some(list) => Some(list@),
            None => None,
        }, hits::answer_of(*answer)),
        out@.len() > 0 ==> batch is Some && answer is Some && answer->0@.len() == batch->0@.len() && out@.len() == batch->0@.len(),
        forall|i: int| 0 <= i < out@.len() ==> (#[trigger] out@[i]).0 == batch->0@[i] && out@[i].1 == answer->0@[i],
        batch is Some && answer is Some && answer->0@.len() == batch->0@.len() && (forall|i: int|
            0 <= i < answer->0@.len() ==> (#[trigger] answer->0@[i]) % 0x8000_0000 < 0x7F80_0000) ==> out@.len() == batch->0@.len(),
{
    let mut out: Vec<(i64, u32)> = Vec::new();
    let (list, scores) = match (batch, answer) {
        (Some(list), Some(scores)) => (list, scores),
        _ => return out,
    };
    if scores.len() != list.len() || !hits::is_all_finite(scores) {
        return out;
    }
    let ghost all = reranker_scores(Some(list@), Some(scores@));
    let mut i: usize = 0;
    while i < list.len()
        invariant
            i <= list.len(),
            scores.len() == list.len(),
            all == Seq::new(list@.len(), |k: int| (list@[k], scores@[k])),
            out@ == all.take(i as int),
        decreases list.len() - i,
    {
        out.push((list[i], scores[i]));
        assert(out@ == all.take(i + 1));
        i = i + 1;
    }
    assert(all.take(all.len() as int) == all);
    out
}

proof fn ranked_holds(list: Seq<Scored>, x: Scored)
    ensures
        ranking::ranked(list).contains(x) ==> list.contains(x),
{
    broadcast use vstd::seq_lib::group_to_multiset_ensures;

    ranking::ranked_is_ordered(list);
    if ranking::ranked(list).contains(x) {
        assert(ranking::ranked(list).to_multiset().count(x) > 0);
        assert(list.to_multiset().count(x) > 0);
    }
}

proof fn ranked_ids_hold(list: Seq<Scored>, id: i64)
    requires
        search::scored_ids(ranking::ranked(list)).contains(id),
    ensures
        search::scored_ids(list).contains(id),
{
    let order = ranking::ranked(list);
    let k = choose|k: int| 0 <= k < search::scored_ids(order).len() && search::scored_ids(order)[k] == id;
    let x = order[k];
    assert(order.contains(x));
    ranked_holds(list, x);
    let j = choose|j: int| 0 <= j < list.len() && list[j] == x;
    assert(search::scored_ids(list)[j] == id);
}

proof fn folded_holds(list: Seq<i64>, places: Map<i64, (i64, usize)>, id: i64)
    requires
        hits::folded_ids(list, places).contains(id),
    ensures
        list.contains(id),
    decreases list.len(),
{
    if list.len() > 0 {
        let all = hits::folded_ids(list, places);
        let before = hits::folded_ids(list.drop_last(), places);
        let k = choose|k: int| 0 <= k < all.len() && all[k] == id;
        if k < before.len() {
            assert(before[k] == id);
            folded_holds(list.drop_last(), places, id);
            let j = choose|j: int| 0 <= j < list.drop_last().len() && list.drop_last()[j] == id;
            assert(list[j] == id);
        } else {
            assert(list[list.len() - 1] == id);
        }
    }
}

/// Every hit was found by one of the paths: ordering, folding, reranking and cutting only leave out
/// and rearrange. `batch` are the candidates that a reranker was given, which come from the front
/// of the merged and folded ones.
pub proof fn every_hit_was_found(
    text: Seq<i64>,
    vector: Seq<i64>,
    scored: Seq<Scored>,
    places: Map<i64, (i64, usize)>,
    batch: Option<Seq<i64>>,
    answer: Option<Seq<u32>>,
    limit: int,
    id: i64,
)
    requires
        search::scored_ids(scored) == ids::first_places(text + vector),
        batch matches Some(list) ==> list.is_prefix_of(
            hits::folded_ids(candidate_order(true, text, vector, scored), places),
        ),
        limit >= 0,
        hits::selection(
            hits::folded_ids(candidate_order(false, text, vector, scored), places),
            reranked_order(batch, answer),
            limit,
        ).contains(id),
    ensures
        text.contains(id) || vector.contains(id),
{
    let merged = candidate_order(true, text, vector, scored);
    let fused = candidate_order(false, text, vector, scored);
    let order = reranked_order(batch, answer);
    let chosen = hits::selection(hits::folded_ids(fused, places), order, limit);
    let k = choose|k: int| 0 <= k < chosen.len() && chosen[k] == id;
    if let Some(list) = order {
        assert(list[k] == id);
        assert(list.contains(id));
        ranked_ids_hold(hits::judged(batch->0, answer->0), id);
        let given = hits::judged(batch->0, answer->0);
        let j = choose|j: int| 0 <= j < search::scored_ids(given).len() && search::scored_ids(given)[j] == id;
        assert(batch->0[j] == id);
        assert(hits::folded_ids(merged, places)[j] == id);
        assert(hits::folded_ids(merged, places).contains(id));
        folded_holds(merged, places, id);
        search::merging_keeps_every_candidate(text, vector);
    } else {
        assert(hits::folded_ids(fused, places)[k] == id);
        assert(hits::folded_ids(fused, places).contains(id));
        folded_holds(fused, places, id);
        ranked_ids_hold(scored, id);
        let both = text + vector;
        ids::first_places_hold_all(both);
        assert(ids::first_places(both).contains(id));
        assert(both.contains(id));
        let j = choose|j: int| 0 <= j < both.len() && both[j] == id;
        if j < text.len() {
            assert(text[j] == id);
        } else {
            assert(vector[j - text.len()] == id);
        }
    }
}

/// A reranker that fails costs no hit: the result is the one of the same search without reranking,
/// and no hit shows a score of it.
pub proof fn failed_reranking_changes_nothing(
    text: Seq<i64>,
    vector: Seq<i64>,
    scored: Seq<Scored>,
    places: Map<i64, (i64, usize)>,
    batch: Seq<i64>,
    answer: Option<Seq<u32>>,
    limit: int,
)
    requires
        !hits::usable_answer(batch, answer),
    ensures
        hits::selection(
            hits::folded_ids(candidate_order(false, text, vector, scored), places),
            reranked_order(Some(batch), answer),
            limit,
        ) == hits::selection(hits::folded_ids(candidate_order(false, text, vector, scored), places), reranked_order(None, answer), limit),
        reranker_scores(Some(batch), answer).len() == 0,
{
}

/// Where a reranker's answer can be used, every hit shows the score that it gave to that hit.
pub proof fn reranked_hits_show_their_score(batch: Seq<i64>, answer: Option<Seq<u32>>, fused: Seq<i64>, limit: int, id: i64)
    requires
        hits::usable_answer(batch, answer),
        limit >= 0,
        hits::selection(fused, reranked_order(Some(batch), answer), limit).contains(id),
    ensures
        exists|k: int|
            0 <= k < batch.len() && batch[k] == id && (#[trigger] reranker_scores(Some(batch), answer)[k]) == (id, answer->0[k]),
{
    let given = hits::judged(batch, answer->0);
    let order = reranked_order(Some(batch), answer)->0;
    let chosen = hits::selection(fused, Some(order), limit);
    let k = choose|k: int| 0 <= k < chosen.len() && chosen[k] == id;
    assert(order[k] == id);
    assert(order.contains(id));
    ranked_ids_hold(given, id);
    let j = choose|j: int| 0 <= j < search::scored_ids(given).len() && search::scored_ids(given)[j] == id;
    assert(batch[j] == id);
    assert(reranker_scores(Some(batch), answer)[j] == (id, answer->0[j]));
}

/// The candidates of a batch come from the front of the folded ones.
pub proof fn batch_is_from_the_front(query: Seq<char>, sources: Seq<RerankSource>, o: hits::RerankerOptions, batch: hits::RerankBatch, folded: Seq<i64>)
    requires
        hits::batch_is(query, sources, o, batch),
        folded == Seq::new(sources.len(), |i: int| sources[i].id),
    ensures
        batch.candidates@.is_prefix_of(folded),
{
    hits::batch_meets_the_budget(query, sources, o, batch);
    assert(batch.candidates@ =~= folded.subrange(0, batch.candidates@.len() as int));
}

} // verus!
