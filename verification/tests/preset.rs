use p_memory::graph::{write_event, EventInput};
use p_memory::preset::{
    cap_by_chars, check_preset, graph_context, inner_request, members, merge_diagnostics, needs_paths, note_section,
    query_remainder, rank_relations_by_query, seeds_of, token_weight, PresetBudget, PresetRequest, RelationText, SearchPreset,
};
use p_memory::graph::default_confidence;
use p_memory::text::query_terms;
use p_memory::types::{Degrade, MatchField, RecordInput, RecordKind, SearchDiagnostics};

fn texts(list: &[&str]) -> Vec<String> {
    list.iter().map(|t| t.to_string()).collect()
}

fn relation(id: i64, text: &str) -> RelationText {
    RelationText { id, text: text.to_string() }
}

/// Presets are told apart by name, and each uses its own lists.
#[test]
fn presets_have_names_and_lists() {
    for preset in SearchPreset::all() {
        assert_eq!(SearchPreset::parse(preset.as_str()).unwrap(), preset);
    }
    let unknown = SearchPreset::parse("everything").unwrap_err().message();
    assert!(unknown.starts_with("invalid input: ") && unknown.contains("everything"));
    let uses = |p: SearchPreset| (p.uses_memory(), p.uses_graph(), p.uses_notes());
    assert_eq!(uses(SearchPreset::Memory), (true, false, false));
    assert_eq!(uses(SearchPreset::Graph), (false, true, false));
    assert_eq!(uses(SearchPreset::Notes), (false, false, true));
    assert_eq!(uses(SearchPreset::Rag), (true, true, false));
    assert_eq!(uses(SearchPreset::Broad), (true, true, true));
}

/// What a preset search is refused for.
#[test]
fn preset_searches_are_checked() {
    let asked = |query: &str| PresetRequest { query: query.to_string(), ..Default::default() };
    assert_eq!(check_preset(&asked(" 茶 ")).unwrap(), "茶");
    assert_eq!(check_preset(&asked(" ")).unwrap_err().message(), "invalid input: a text query is required");
    let seedless = PresetRequest { budget: PresetBudget { seed_entities: 0, ..Default::default() }, ..asked("茶") };
    assert_eq!(check_preset(&seedless).unwrap_err().message(), "invalid input: seed_entities must be at least 1");
    let none = PresetRequest { candidate_limit: 0, ..asked("茶") };
    assert_eq!(check_preset(&none).unwrap_err().message(), "invalid input: candidate_limit must be at least 1");
    let inner = inner_request(&asked("茶"), "茶", RecordKind::Chunk, MatchField::Name);
    assert_eq!((inner.query.as_str(), inner.limit, inner.match_field), ("茶", 64, MatchField::Name));
    assert_eq!(inner.kinds, vec![RecordKind::Chunk]);
    assert!(inner.text && inner.vector && inner.rerank);
}

/// The limit counts characters, not items; the first item stays however long it is.
#[test]
fn preset_budgets_cap_by_characters_not_counts() {
    let lengths: Vec<(i64, usize)> = (0..5)
        .map(|i| (i, format!("字符封顶样例 {i} {}", "长".repeat(300)).chars().count()))
        .collect();
    assert_eq!(cap_by_chars(&lengths, 10_000).0.len(), 5);
    assert_eq!(cap_by_chars(&lengths, 600).0.len(), 1);
    assert!(cap_by_chars(&lengths, 0).0.is_empty());
    assert_eq!(cap_by_chars(&lengths, 1), (vec![0], lengths[0].1));
}

/// Events share what the relations leave, and the first that does not fit ends the list.
#[test]
fn event_route_stops_at_the_characters() {
    let event = |name: &str| EventInput {
        record: RecordInput::default(),
        name: name.to_string(),
        summary: String::new(),
        participants: Vec::new(),
        confidence: default_confidence(),
        reason: String::new(),
    };
    let length = |name: &str, people: &[&str]| write_event(&event(name), &Vec::new(), &texts(people)).body.chars().count();
    let lengths = vec![
        (1i64, length("事件一", &["甲", "乙"])),
        (2, length("很长很长很长很长的事件名", &["甲", "丙"])),
        (3, length("事件三", &["甲", "丁"])),
    ];
    assert_eq!(lengths.iter().map(|l| l.1).collect::<Vec<_>>(), vec![9, 18, 9]);
    assert_eq!(graph_context(&Vec::new(), &lengths, 20), (Vec::new(), vec![1]));
    assert_eq!(graph_context(&vec![(7, 11)], &lengths, 20), (vec![7], vec![1]));
    assert_eq!(graph_context(&vec![(7, 20)], &lengths, 20), (vec![7], Vec::new()));
}

/// What is left of a query without the names picks the relations; a mere name picks them all.
#[test]
fn remainder_of_a_query_picks_relations() {
    let names = texts(&["朱樱", "白露"]);
    let left = query_remainder("朱樱和白露的同学是谁", &names);
    assert!(!left.contains("朱樱") && !left.contains("白露") && left.contains("的同学是谁"));
    let rows = vec![
        relation(1, "朱樱 同学 青萍 "),
        relation(2, "白露 同学 玄霜 "),
        relation(3, "朱樱 客卿于 长夜堂 "),
    ];
    assert_eq!(rank_relations_by_query(&rows, &left), vec![1, 2]);
    let nothing = query_remainder("墨团", &texts(&["墨团"]));
    assert_eq!(nothing, " ");
    assert_eq!(rank_relations_by_query(&rows, &nothing), vec![1, 2, 3]);
    // The longest name at each place is taken out.
    assert_eq!(query_remainder("AliceBob", &texts(&["alice", "alicebob"])), " ");
}

/// Longer tokens weigh twice as much as single characters.
#[test]
fn longer_tokens_weigh_more() {
    let terms = query_terms("tea x", false);
    assert_eq!(token_weight("tea", &terms), 2);
    assert_eq!(token_weight("tea x", &terms), 3);
    assert_eq!(token_weight("coffee", &terms), 0);
}

/// The walk starts from the first entities found and takes in the ends of what was hit.
#[test]
fn walk_starts_from_the_first_entities() {
    assert_eq!(seeds_of(&vec![5, 3, 9], 2), vec![5, 3]);
    assert_eq!(seeds_of(&vec![5], 2), vec![5]);
    assert_eq!(members(&vec![5, 3], &vec![(5, 8), (1, 3)]), vec![1, 3, 5, 8]);
}

/// Notes come under their name, else under their content, else under their directory.
#[test]
fn notes_come_once() {
    let section = note_section(&vec![1, 2], &vec![2, 3], &vec![1, 3, 4, 5], 3);
    assert_eq!((section.titles, section.contents, section.paths), (vec![1, 2], vec![3], vec![4]));
    let full = note_section(&vec![1, 2], &vec![3], &vec![4], 2);
    assert!(full.paths.is_empty());
    assert!(needs_paths(1, 2) && !needs_paths(2, 2));
}

/// The diagnostics of the lists are joined.
#[test]
fn diagnostics_are_joined() {
    let mut whole = SearchDiagnostics { text_used: true, rerank_candidates: 2, degraded: vec![Degrade::NoEmbedder], ..Default::default() };
    let part = SearchDiagnostics {
        vector_used: true,
        rerank_candidates: 3,
        rerank_truncated: 1,
        degraded: vec![Degrade::NoEmbedder, Degrade::RerankFailed],
        ..Default::default()
    };
    merge_diagnostics(&mut whole, &part);
    assert!(whole.text_used && whole.vector_used && !whole.reranked);
    assert_eq!((whole.rerank_candidates, whole.rerank_truncated), (5, 1));
    assert_eq!(whole.degraded, vec![Degrade::NoEmbedder, Degrade::RerankFailed]);
}
