use p_memory::error::Error;
use p_memory::hits::{
    answer_without_call, assemble_hits, check_reranker, check_samples, counted_notes, fold_chunks, pick_hits,
    rerank_batch, rerank_samples, settle_rerank, ChunkRef, FoldedHit, HitScores, RerankSource, RerankerOptions, Selected,
};
use p_memory::index::NoteCounts;
use p_memory::json::{self, Json};
use p_memory::notes::chunk_text;
use p_memory::pipeline::{arrange, order_candidates, settle, shown_scores};
use p_memory::ranking::{best, is_better, Scored, TopList};
use p_memory::search::{
    default_kinds, embed_degrade, fuse, keep_kinds, merge_candidates, order_by_score, plan_search, step_degrade, text_step,
    vector_step, GraphPrune, SearchRequest, TextOutcome, TextStep, VectorStep,
};
use p_memory::types::{Degrade, MatchField, ReadFilter, RecordKind, SearchDiagnostics};
use std::collections::HashMap;

fn request(query: &str) -> SearchRequest {
    SearchRequest { query: query.to_string(), ..Default::default() }
}

fn refusal(request: &SearchRequest) -> String {
    match plan_search(request) {
        Err(error) => error.message(),
        Ok(_) => panic!("expected a refusal"),
    }
}

fn source(id: i64, name: &str, body: &str) -> RerankSource {
    RerankSource { id, name: name.to_string(), body: body.to_string() }
}

fn ids(folded: &[FoldedHit]) -> Vec<i64> {
    folded.iter().map(|hit| hit.id).collect()
}

/// Which paths a request takes, and the requests that no path can answer.
#[test]
fn request_switches_choose_the_paths() {
    let both = plan_search(&SearchRequest { limit: 3, embed_space: Some("v".to_string()), ..request("参数 目标") }).unwrap();
    assert!(both.vector_path);
    assert_eq!(both.query, "参数 目标");
    assert_eq!(both.candidate_limit, 1000);
    let text_only = plan_search(&SearchRequest { limit: 3, vector: false, ..request("参数 目标") }).unwrap();
    assert!(!text_only.vector_path);
    let vector_only = SearchRequest { text: false, embed_space: Some("v".to_string()), ..request("参数 目标") };
    let plan = plan_search(&vector_only).unwrap();
    assert!(plan.vector_path && !plan.aggregate);
    assert_eq!(plan.per_note, 0);

    assert_eq!(
        refusal(&SearchRequest { text: false, vector: false, ..request("参数") }),
        "invalid input: enable at least one of text or vector"
    );
    let no_space = plan_search(&request("参数 目标")).unwrap();
    assert!(!no_space.vector_path, "without a space the vector path is not taken");
    assert_eq!(refusal(&request("  ")), "invalid input: a text query is required");
}

/// What else a request is refused for, and how many candidates it takes.
#[test]
fn requests_are_checked_before_anything_is_searched() {
    assert_eq!(plan_search(&request("  茶 \n")).unwrap().query, "茶");
    assert_eq!(plan_search(&SearchRequest { limit: 500, ..request("茶") }).unwrap().candidate_limit, 2500);
    assert_eq!(plan_search(&SearchRequest { limit: 10_000, ..request("茶") }).unwrap().candidate_limit, 10_000);
    assert_eq!(
        plan_search(&SearchRequest { limit: 2, candidate_limit: Some(2), ..request("茶") }).unwrap().candidate_limit,
        2
    );
    assert!(plan_search(&SearchRequest { limit: 0, ..request("茶") }).is_err());
    assert!(plan_search(&SearchRequest { candidate_limit: Some(0), ..request("茶") }).is_err());
    assert_eq!(
        refusal(&SearchRequest { limit: 10, candidate_limit: Some(9), ..request("茶") }),
        "invalid input: candidate_limit must be at least limit"
    );
    for weight in [0.0f64, -1.0, f64::NAN, f64::INFINITY] {
        assert_eq!(
            refusal(&SearchRequest { text_weight: weight.to_bits(), ..request("茶") }),
            "invalid input: text_weight must be finite and positive"
        );
    }
    assert!(plan_search(&SearchRequest { text_weight: 0.25f64.to_bits(), ..request("茶") }).is_ok());
    assert_eq!(
        refusal(&SearchRequest { prune: Some(GraphPrune { root: 1, depth: 0, limit: 5 }), ..request("茶") }),
        "invalid input: graph prune depth must be at least 1"
    );
    assert!(plan_search(&SearchRequest { prune: Some(GraphPrune { root: 1, depth: 1, limit: 0 }), ..request("茶") }).is_err());
    assert!(plan_search(&SearchRequest { prune: Some(GraphPrune { root: 1, depth: 1, limit: 1 }), ..request("茶") }).is_ok());
    let nowhere = ReadFilter { scopes: Vec::new(), ..Default::default() };
    assert!(plan_search(&SearchRequest { filter: nowhere, ..request("茶") }).is_err());
}

/// Chunks are gathered where the text is looked at, not where names or directories are.
#[test]
fn chunks_are_gathered_for_text_only() {
    let of = |field: MatchField| plan_search(&SearchRequest { match_field: field, top_chunks_per_note: 5, ..request("茶") }).unwrap();
    assert_eq!((of(MatchField::All).aggregate, of(MatchField::All).per_note), (true, 5));
    assert_eq!((of(MatchField::Text).aggregate, of(MatchField::Text).per_note), (true, 5));
    assert_eq!((of(MatchField::Name).aggregate, of(MatchField::Name).per_note), (false, 0));
    assert_eq!((of(MatchField::Path).aggregate, of(MatchField::Path).per_note), (false, 0));
}

/// The vector path is left out, given up or taken.
#[test]
fn vector_path_takes_filled_kinds_only() {
    let kinds = vec![RecordKind::Memory, RecordKind::Chunk];
    let enabled = vec![RecordKind::Memory];
    let (step, searched) = vector_step(true, &kinds, &enabled, &vec![RecordKind::Memory, RecordKind::Chunk]);
    assert_eq!((step, searched), (VectorStep::Embed, vec![RecordKind::Memory]));
    assert_eq!(vector_step(false, &kinds, &enabled, &enabled).0, VectorStep::Disabled);
    assert_eq!(vector_step(true, &vec![RecordKind::Event], &enabled, &enabled).0, VectorStep::Skip);
    assert_eq!(vector_step(true, &kinds, &enabled, &Vec::new()).0, VectorStep::NotReady);
    assert_eq!(step_degrade(VectorStep::Disabled), Some(Degrade::NamespaceDisabled));
    assert_eq!(step_degrade(VectorStep::NotReady), Some(Degrade::VectorNotReady));
    assert_eq!(step_degrade(VectorStep::Skip), None);
    assert_eq!(step_degrade(VectorStep::Embed), None);
    assert_eq!(embed_degrade(false, None), Some(Degrade::NoEmbedder));
    assert_eq!(embed_degrade(true, None), Some(Degrade::EmbedFailed));
    assert_eq!(embed_degrade(true, Some(2)), Some(Degrade::EmbedFailed));
    assert_eq!(embed_degrade(true, Some(1)), None);
    assert_eq!(keep_kinds(&default_kinds(), &vec![RecordKind::Chunk, RecordKind::Memory]), vec![RecordKind::Memory, RecordKind::Chunk]);
}

/// A broken index is built anew once; then text is given up. Other errors reach the caller.
#[test]
fn broken_index_is_rebuilt_once() {
    assert_eq!(text_step(false, TextOutcome::Hits), TextStep::Use);
    assert_eq!(text_step(false, TextOutcome::IndexError), TextStep::Rebuild);
    assert_eq!(text_step(true, TextOutcome::Hits), TextStep::Use);
    assert_eq!(text_step(true, TextOutcome::IndexError), TextStep::Unavailable);
    assert_eq!(text_step(true, TextOutcome::OtherError), TextStep::Unavailable);
    assert_eq!(text_step(false, TextOutcome::OtherError), TextStep::Fail);
}

/// Both paths in turn, each candidate once.
#[test]
fn merging_takes_both_paths_in_turn() {
    assert_eq!(merge_candidates(&vec![1, 2, 3], &vec![3, 4]), vec![1, 3, 2, 4]);
    assert_eq!(merge_candidates(&Vec::new(), &vec![9, 8]), vec![9, 8]);
    assert_eq!(merge_candidates(&vec![7, 7], &Vec::new()), vec![7]);
}

/// The ranks from which a fused score is made.
#[test]
fn fusing_keeps_the_ranks_of_both_paths() {
    let fused = fuse(&vec![5, 2], &vec![2, 7]);
    let plain: Vec<(i64, Vec<usize>, Vec<usize>)> = fused.into_iter().map(|c| (c.id, c.text_ranks, c.vector_ranks)).collect();
    assert_eq!(plain, vec![(5, vec![0], Vec::new()), (2, vec![1], vec![0]), (7, Vec::new(), vec![1])]);
}

/// Scores decide, and ids where scores are equal.
#[test]
fn ties_go_to_the_smaller_id() {
    let scored = vec![Scored { id: 9, score: 1 }, Scored { id: 2, score: 1 }, Scored { id: 5, score: 7 }];
    assert_eq!(order_by_score(&scored), vec![5, 2, 9]);
    assert!(is_better(Scored { id: 1, score: 2 }, Scored { id: 0, score: 1 }));
    assert!(is_better(Scored { id: 0, score: 1 }, Scored { id: 1, score: 1 }));
    assert!(!is_better(Scored { id: 1, score: 1 }, Scored { id: 1, score: 1 }));
    assert_eq!(best(&scored, 2).iter().map(|s| s.id).collect::<Vec<_>>(), vec![5, 2]);
    let mut top = TopList::new(2);
    for candidate in &scored {
        top.retain(*candidate);
    }
    assert_eq!(top.finish().iter().map(|s| s.id).collect::<Vec<_>>(), vec![5, 2]);
    let mut none = TopList::new(0);
    none.retain(scored[0]);
    assert!(none.finish().is_empty());
}

/// Five short candidates under a small budget: two fit, and the reranker's order decides.
#[test]
fn reranker_reorders_candidates_and_enforces_length_limits() {
    let sources: Vec<RerankSource> =
        ["甲", "乙", "丙", "丁", "戊"].iter().enumerate().map(|(i, tag)| source(i as i64 + 1, "", &format!("重排目标 {tag}"))).collect();
    let folded: Vec<i64> = sources.iter().map(|s| s.id).collect();
    let options = RerankerOptions { max_tokens_total: 10, max_tokens_per_doc: 6, ..Default::default() };
    assert!(check_reranker(options).is_ok());
    let batch = rerank_batch("重排目标", &sources, options);
    assert_eq!(batch.documents.len(), 2);
    assert_eq!(batch.documents.iter().map(|d| d.chars().count()).max(), Some(6));
    let scores: Vec<u32> = (0..batch.documents.len()).map(|i| (i as f32).to_bits()).collect();
    let mut diagnostics = SearchDiagnostics::default();
    let order = settle_rerank(&folded, &folded, Some(&batch.candidates), &Some(scores), 5, &mut diagnostics);
    assert!(diagnostics.reranked);
    assert_eq!(diagnostics.rerank_candidates, 2);
    assert_eq!(diagnostics.rerank_truncated, 3);
    assert_eq!(order[0], folded[1]);
    assert!(order.iter().all(|id| batch.candidates.contains(id)));

    let mut plain = SearchDiagnostics::default();
    let ignored = settle_rerank(&folded, &folded, None, &None, 5, &mut plain);
    assert!(!plain.reranked);
    assert_eq!(ignored, folded);
}

/// The number of candidates is capped even where the tokens would allow more.
#[test]
fn reranker_stops_at_the_candidate_cap() {
    let sources: Vec<RerankSource> =
        ["甲", "乙", "丙", "丁", "戊"].iter().enumerate().map(|(i, tag)| source(i as i64 + 1, "", &format!("条数上限 {tag}"))).collect();
    let folded: Vec<i64> = sources.iter().map(|s| s.id).collect();
    let batch = rerank_batch("条数上限", &sources, RerankerOptions { max_candidates: 2, ..Default::default() });
    assert_eq!(batch.documents.len(), 2);
    let mut diagnostics = SearchDiagnostics::default();
    let scores = vec![0.0f32.to_bits(); batch.documents.len()];
    settle_rerank(&folded, &folded, Some(&batch.candidates), &Some(scores), 5, &mut diagnostics);
    assert!(diagnostics.reranked);
    assert_eq!(diagnostics.rerank_candidates, 2);
    assert_eq!(diagnostics.rerank_truncated, 3);
    assert!(check_reranker(RerankerOptions { max_candidates: 0, ..Default::default() }).is_err());
}

/// What a reranker is given comes from both paths in turn, not from the fused order.
#[test]
fn rerank_consumes_the_merged_paths_before_fusion() {
    let texts = ["重排合并 甲", "重排合并 乙", "重排合并 丙", "重排合并 丁", "重排合并 戊", "重排合并 己"];
    let text_order = vec![1i64, 2, 3, 4, 5, 6];
    let vector_order = vec![6i64, 1, 5, 2, 4, 3];
    let scored: Vec<Scored> = text_order.iter().map(|id| Scored { id: *id, score: -*id }).collect();
    let merged = order_candidates(true, &text_order, &vector_order, &scored);
    assert_eq!(merged, vec![1, 6, 2, 3, 5, 4]);
    let sources: Vec<RerankSource> = merged.iter().map(|id| source(*id, "", texts[*id as usize - 1])).collect();
    let batch = rerank_batch("重排合并", &sources, RerankerOptions { max_tokens_total: 12, ..Default::default() });
    assert_eq!(batch.candidates.len(), 3);
    assert_eq!(batch.documents, vec!["重排合并 甲".to_string(), "重排合并 己".to_string(), "重排合并 乙".to_string()]);
    let mut diagnostics = SearchDiagnostics::default();
    let scores = vec![0.0f32.to_bits(); batch.documents.len()];
    settle_rerank(&merged, &merged, Some(&batch.candidates), &Some(scores), 6, &mut diagnostics);
    assert!(diagnostics.reranked);
    assert_eq!(diagnostics.rerank_candidates, 3);
}

/// A reranker that fails leaves the whole result, by the fused scores.
#[test]
fn rerank_failure_falls_back_to_the_full_candidate_set() {
    let sources: Vec<RerankSource> =
        ["甲", "乙", "丙", "丁", "戊"].iter().enumerate().map(|(i, tag)| source(i as i64 + 1, "", &format!("兜底目标 {tag}"))).collect();
    let baseline: Vec<i64> = sources.iter().map(|s| s.id).collect();
    let batch = rerank_batch("兜底目标", &sources, RerankerOptions { max_tokens_total: 10, ..Default::default() });
    let mut diagnostics = SearchDiagnostics::default();
    let order = settle_rerank(&baseline, &baseline, Some(&batch.candidates), &None, 5, &mut diagnostics);
    assert!(!diagnostics.reranked);
    assert!(diagnostics.degraded.contains(&Degrade::RerankFailed));
    assert_eq!(diagnostics.rerank_truncated, 3);
    assert_eq!(order, baseline);

    // Where two paths were merged for the reranker, the fused order is still the one that is left.
    let scored = vec![Scored { id: 1, score: 10 }, Scored { id: 2, score: 30 }, Scored { id: 3, score: 20 }];
    let merged = order_candidates(true, &vec![1, 2], &vec![3, 2], &scored);
    let fused = order_candidates(false, &vec![1, 2], &vec![3, 2], &scored);
    assert_eq!(merged, vec![1, 3, 2]);
    assert_eq!(fused, vec![2, 3, 1]);
    let mut failed = SearchDiagnostics::default();
    assert_eq!(settle_rerank(&merged, &fused, Some(&merged), &None, 5, &mut failed), fused);
    assert!(shown_scores(Some(&batch.candidates), &None).is_empty());
}

/// Hits show the scores of an answer that can be used, and none else.
#[test]
fn scores_are_shown_of_usable_answers_only() {
    let (half, one) = (0.5f32.to_bits(), 1.0f32.to_bits());
    let batch = vec![7i64, 3];
    assert_eq!(shown_scores(Some(&batch), &Some(vec![half, one])), vec![(7, half), (3, one)]);
    assert!(shown_scores(Some(&batch), &Some(vec![half])).is_empty());
    assert!(shown_scores(Some(&batch), &Some(vec![half, f32::NAN.to_bits()])).is_empty());
    assert!(shown_scores(None, &Some(vec![half, one])).is_empty());
}

/// No candidates: an empty answer settles it, and nothing failed.
#[test]
fn rerank_is_not_called_when_there_are_no_candidates() {
    let batch = rerank_batch("查不到的词", &Vec::new(), RerankerOptions::default());
    assert!(batch.candidates.is_empty());
    let answer = answer_without_call(&batch);
    assert_eq!(answer, Some(Vec::new()));
    let mut diagnostics = SearchDiagnostics::default();
    let order = settle_rerank(&Vec::new(), &Vec::new(), Some(&batch.candidates), &answer, 10, &mut diagnostics);
    assert!(order.is_empty());
    assert!(!diagnostics.degraded.contains(&Degrade::RerankFailed));
    let asked = rerank_batch("x", &vec![source(1, "", "body")], RerankerOptions::default());
    assert_eq!(answer_without_call(&asked), None);
}

/// A reranker is registered only with one finite score for each sample; one that cannot answer is.
#[test]
fn reranker_registration_validates_and_failures_degrade() {
    let documents = rerank_samples().len();
    let message = |answer: &Vec<u32>| check_samples(Some(answer), documents).unwrap_err().message();
    assert_eq!(message(&vec![1.0f32.to_bits()]), "invalid input: reranker returned 1 scores for 2 documents");
    assert_eq!(message(&vec![f32::NAN.to_bits(); documents]), "invalid input: reranker scores must be finite");
    assert!(check_samples(None, documents).is_ok());
    assert!(check_samples(Some(&vec![0.5f32.to_bits(), 0.25f32.to_bits()]), documents).is_ok());

    let hits = vec![1i64, 2, 3];
    let mut diagnostics = SearchDiagnostics::default();
    let order = settle_rerank(&hits, &hits, Some(&hits), &None, 10, &mut diagnostics);
    assert!(!diagnostics.reranked);
    assert!(diagnostics.degraded.contains(&Degrade::RerankFailed));
    assert_eq!(order.len(), 3);
}

/// The options that a reranker is refused for.
#[test]
fn reranker_options_must_leave_room() {
    let message = |o: RerankerOptions| check_reranker(o).unwrap_err().message();
    assert_eq!(
        message(RerankerOptions { max_tokens_total: 0, ..Default::default() }),
        "invalid input: max_tokens_total must be at least 1"
    );
    assert_eq!(
        message(RerankerOptions { max_candidates: 0, ..Default::default() }),
        "invalid input: max_candidates must be at least 1"
    );
    assert_eq!(
        message(RerankerOptions { max_tokens_per_doc: 0, ..Default::default() }),
        "invalid input: max_tokens_per_doc must be at least 1"
    );
    assert_eq!(
        message(RerankerOptions { max_tokens_query: Some(0), ..Default::default() }),
        "invalid input: max_tokens_query must be positive"
    );
    let cut = rerank_batch("四个汉字", &Vec::new(), RerankerOptions { max_tokens_query: Some(1), ..Default::default() });
    assert!(cut.query.chars().count() < 4);
}

/// An entity's name stands before its text: an entity that is nothing but a name is no empty document.
#[test]
fn name_stands_before_the_text_of_an_entity() {
    let batch = rerank_batch("孤名实体", &vec![source(1, "孤名实体", "")], RerankerOptions::default());
    assert!(batch.documents.iter().any(|document| document.contains("孤名实体")));
    let plain = rerank_batch("x", &vec![source(1, "name", "body"), source(2, "", "body")], RerankerOptions::default());
    assert_eq!(plain.documents, vec!["name body".to_string(), "body".to_string()]);
}

/// A long note gives one hit that shows its best chunks and their number.
#[test]
fn long_note_gives_one_hit() {
    let many_chunks = chunk_text(&"派蒙".repeat(800), 300).unwrap();
    assert!(many_chunks.len() > 1);
    let once_chunks = chunk_text("派蒙", 300).unwrap();
    assert_eq!(once_chunks.len(), 1);
    let (many, once) = (1i64, 2i64);
    let mut places: HashMap<i64, (i64, usize)> = HashMap::new();
    let mut ordered: Vec<i64> = Vec::new();
    for (i, chunk) in many_chunks.iter().enumerate() {
        places.insert(100 + i as i64, (many, chunk.offset));
        ordered.push(100 + i as i64);
    }
    places.insert(50, (once, once_chunks[0].offset));
    ordered.insert(1, 50);

    let folded = fold_chunks(&ordered, &places, 3);
    assert_eq!(ids(&folded), vec![100, 50]);
    assert_eq!(folded[0].top_chunks.len(), 3);
    assert_eq!(folded[0].top_chunks[0], ChunkRef { id: 100, offset: places[&100].1 });
    for chunk in &folded[0].top_chunks {
        assert_eq!(places[&chunk.id], (many, chunk.offset));
    }
    assert_eq!(folded[1].top_chunks, vec![ChunkRef { id: 50, offset: places[&50].1 }]);

    let targets = counted_notes(&ids(&folded), &places);
    assert_eq!(targets, vec![many, once]);
    let mut counts = NoteCounts::new(&targets);
    for id in &ordered {
        counts.collect(places[id].0);
    }
    assert_eq!(counts.count_of(many), Some(many_chunks.len()));
    assert_eq!(counts.count_of(once), Some(1));

    let plain = fold_chunks(&ordered, &places, 0);
    assert_eq!(ids(&plain), vec![100, 50]);
    assert!(plain[0].top_chunks.is_empty());
    let single = fold_chunks(&vec![100], &places, 3);
    assert_eq!(single[0].top_chunks, vec![ChunkRef { id: 100, offset: places[&100].1 }]);
}

/// Folding stands before reranking: a note takes one place in the batch.
#[test]
fn rerank_receives_one_candidate_per_note() {
    let chunks = chunk_text(&"派蒙".repeat(800), 300).unwrap();
    assert!(chunks.len() > 1);
    let places: HashMap<i64, (i64, usize)> = (0..chunks.len()).map(|i| (i as i64, (9, chunks[i].offset))).collect();
    let ordered: Vec<i64> = (0..chunks.len() as i64).collect();
    let folded = ids(&fold_chunks(&ordered, &places, 3));
    let sources: Vec<RerankSource> = folded.iter().map(|id| source(*id, "", &chunks[*id as usize].content)).collect();
    let batch = rerank_batch("派蒙", &sources, RerankerOptions::default());
    let mut diagnostics = SearchDiagnostics::default();
    settle_rerank(&folded, &folded, Some(&batch.candidates), &Some(vec![0.0f32.to_bits()]), 10, &mut diagnostics);
    assert!(diagnostics.reranked);
    assert_eq!(diagnostics.rerank_candidates, 1);
    assert_eq!(batch.documents.len(), 1);
}

/// An order picks candidates together with what they show.
#[test]
fn picking_keeps_what_candidates_show() {
    let places: HashMap<i64, (i64, usize)> = HashMap::from([(1, (7, 10)), (2, (7, 20))]);
    let folded = fold_chunks(&vec![1, 3, 2], &places, 3);
    let picked = pick_hits(&vec![3, 1, 8], &folded);
    assert_eq!(ids(&picked), vec![3, 1]);
    assert_eq!(picked[0].note, None);
    assert_eq!(picked[1].note, Some(7));
    assert_eq!(picked[1].top_chunks, vec![ChunkRef { id: 1, offset: 10 }, ChunkRef { id: 2, offset: 20 }]);
}

fn selected(id: i64, note: Option<i64>, record: Option<Json>) -> Selected {
    let scores = HitScores { score: 0.5f64.to_bits(), text_score: None, vector_scores: Vec::new(), rerank_score: None };
    Selected { id, note, top_chunks: Vec::new(), scores, record }
}

/// A record that is gone does not fail the search for the others.
#[test]
fn deleted_records_leave_the_hits() {
    let list = vec![selected(1, Some(7), Some(json::int_value(1))), selected(2, None, None), selected(3, None, Some(Json::Null))];
    let hits = assemble_hits(list, &HashMap::from([(7, 4usize)]));
    assert_eq!(hits.iter().map(|hit| hit.key.id).collect::<Vec<_>>(), vec![1, 3]);
    assert_eq!(hits[0].note_chunks, Some(4));
    assert_eq!(hits[1].note_chunks, None);
    assert_eq!(f64::from_bits(hits[0].scores.score), 0.5);
}

/// A search never gives more than was asked for.
#[test]
fn selection_stops_at_the_limit() {
    let mut diagnostics = SearchDiagnostics::default();
    assert_eq!(settle_rerank(&vec![3, 1, 2], &vec![3, 1, 2], None, &None, 2, &mut diagnostics), vec![3, 1]);
    let scores = Some(vec![1.0f32.to_bits(), 3.0f32.to_bits(), 2.0f32.to_bits()]);
    let batch = vec![3, 1, 2];
    assert_eq!(settle_rerank(&batch, &batch, Some(&batch), &scores, 2, &mut diagnostics), vec![1, 2]);
    let wrong = Some(vec![1.0f32.to_bits()]);
    assert_eq!(settle_rerank(&batch, &batch, Some(&batch), &wrong, 2, &mut diagnostics), vec![3, 1]);
    assert!(matches!(plan_search(&request("")), Err(Error::Validation(_))));
}

/// A note with chunks in both paths gives one hit, which shows the chunks in the order that was
/// taken: the merged one where the reranker answered, the fused one where it failed.
#[test]
fn hits_show_their_chunks_in_the_order_that_was_taken() {
    let places: HashMap<i64, (i64, usize)> = HashMap::from([(11, (1, 5)), (12, (1, 9))]);
    // The text path finds 11, the vector path 12 and 20; the fused scores put 12 first.
    let scored = vec![Scored { id: 11, score: 1 }, Scored { id: 12, score: 3 }, Scored { id: 20, score: 2 }];
    let arranged = arrange(true, &vec![11], &vec![12, 20], &scored, &places, 3);
    assert_eq!(arranged.candidates, 3);
    assert_eq!(ids(&arranged.merged), vec![11, 20]);
    assert_eq!(ids(&arranged.fused), vec![12, 20]);

    let batch = vec![11, 20];
    let scores = Some(vec![0.1f32.to_bits(), 0.9f32.to_bits()]);
    let mut diagnostics = SearchDiagnostics::default();
    let hits = settle(&arranged, Some(&batch), &scores, 10, &mut diagnostics);
    assert_eq!(ids(&hits), vec![20, 11]);
    assert_eq!(hits[1].top_chunks, vec![ChunkRef { id: 11, offset: 5 }, ChunkRef { id: 12, offset: 9 }]);
    assert!(diagnostics.reranked);
    assert_eq!((diagnostics.rerank_candidates, diagnostics.rerank_truncated), (2, 0));

    let mut failed = SearchDiagnostics::default();
    let hits = settle(&arranged, Some(&batch), &None, 10, &mut failed);
    assert_eq!(ids(&hits), vec![12, 20]);
    assert_eq!(hits[0].top_chunks, vec![ChunkRef { id: 12, offset: 9 }, ChunkRef { id: 11, offset: 5 }]);
    assert_eq!(failed.degraded, vec![Degrade::RerankFailed]);

    let mut plain = SearchDiagnostics::default();
    let alone = arrange(false, &vec![11], &vec![12, 20], &scored, &places, 0);
    let hits = settle(&alone, None, &None, 1, &mut plain);
    assert_eq!(ids(&hits), vec![12]);
    assert!(hits[0].top_chunks.is_empty() && plain.degraded.is_empty());
}
