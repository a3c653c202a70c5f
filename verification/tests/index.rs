use p_memory::index::{
    chunk_body, commit_mark, filtered_query, index_filter, indexed_text, merge_passes, missing_from, needs_loose_pass,
    note_chunk_chars, reconcile, Clause, Column, IdColumn, IndexFilter, IndexProgress, Node, NoteCounts, Occur,
};
use p_memory::json::{self, Json};
use p_memory::ranking::Scored;
use p_memory::records::IndexDocument;
use p_memory::text::query_terms;
use p_memory::types::{MatchField, RecordKind};

fn document(text: &str, name: &str, path: &str) -> IndexDocument {
    IndexDocument {
        id: 1,
        namespace_id: 2,
        scope_id: 3,
        kind: RecordKind::Memory,
        text: text.to_string(),
        name: name.to_string(),
        path: path.to_string(),
        note_id: 0,
        tags_prefix: String::new(),
        tag_ids: Vec::new(),
    }
}

/// A document with its columns as tokens, for asking a query about it.
struct Doc {
    text: Vec<String>,
    name: Vec<String>,
    path: Vec<String>,
    namespace: i64,
    scope: i64,
    kind: i64,
    tags: Vec<i64>,
    note: Option<i64>,
}

fn tokens(column: &Option<String>) -> Vec<String> {
    column.iter().flat_map(|text| text.split(' ')).map(|token| token.to_string()).collect()
}

fn doc(d: &IndexDocument) -> Doc {
    let indexed = indexed_text(d);
    Doc {
        text: tokens(&indexed.text),
        name: tokens(&indexed.name),
        path: tokens(&indexed.path),
        namespace: d.namespace_id,
        scope: d.scope_id,
        kind: d.kind.code(),
        tags: d.tag_ids.clone(),
        note: indexed.note,
    }
}

/// Whether a query finds a document.
fn finds(node: &Node, doc: &Doc) -> bool {
    match node {
        Node::Term(Column::Text, token) => doc.text.contains(token),
        Node::Term(Column::Name, token) => doc.name.contains(token),
        Node::Term(Column::Path, token) => doc.path.contains(token),
        Node::Exact(IdColumn::Namespace, id) => doc.namespace == *id,
        Node::Exact(IdColumn::Scope, id) => doc.scope == *id,
        Node::Exact(IdColumn::Kind, id) => doc.kind == *id,
        Node::Exact(IdColumn::Tags, id) => doc.tags.contains(id),
        Node::Exact(IdColumn::Note, id) => doc.note == Some(*id),
        Node::Boosted(inner) | Node::Unscored(inner) => finds(inner, doc),
        Node::Group(clauses) => {
            let needed = |c: &Clause| c.occur == Occur::Must;
            clauses.iter().all(|c| !needed(c) || finds(&c.node, doc)) && clauses.iter().any(|c| needed(c) || finds(&c.node, doc))
        }
    }
}

fn range() -> IndexFilter {
    IndexFilter { namespace: 2, scopes: vec![3], kinds: Vec::new(), tags: Vec::new(), note_ids: Vec::new() }
}

fn asked(query: &str, strict: bool, field: MatchField, filter: &IndexFilter) -> Node {
    filtered_query(&query_terms(query, strict), strict, filter, field)
}

/// The tags stand before the text, marks of Markdown are left out, and missing columns stay missing.
#[test]
fn columns_hold_tokens() {
    let mut tagged = document("**喝茶** Tea", "", "");
    tagged.tags_prefix = "rust".to_string();
    let indexed = indexed_text(&tagged);
    let column = tokens(&indexed.text);
    for token in ["rust", "喝茶", "tea"] {
        assert!(column.contains(&token.to_string()), "{token} in {column:?}");
    }
    assert!(!column.iter().any(|token| token.contains('*')));
    assert!(indexed.name.is_none() && indexed.path.is_none() && indexed.note.is_none());
    let mut chunk = document("", "港口见闻", "杂记");
    chunk.note_id = 9;
    let indexed = indexed_text(&chunk);
    assert!(indexed.text.is_none() && indexed.name.is_some() && indexed.path.is_some());
    assert_eq!(indexed.note, Some(9));
}

/// A record is found by its words in the column asked for, and not without any.
#[test]
fn queries_look_into_the_columns_asked_for() {
    let place = doc(&document("岩王帝君坐镇此地", "city", "沧浪"));
    assert!(finds(&asked("city", false, MatchField::All, &range()), &place));
    assert!(finds(&asked("city", false, MatchField::Name, &range()), &place));
    assert!(!finds(&asked("city", false, MatchField::Text, &range()), &place));
    assert!(!finds(&asked("沧浪", false, MatchField::All, &range()), &place), "directories take no part by default");
    assert!(finds(&asked("沧浪", false, MatchField::Path, &range()), &place));
    assert!(!finds(&asked("无关", false, MatchField::All, &range()), &place));
    assert!(!finds(&filtered_query(&Vec::new(), false, &range(), MatchField::All), &place));
    let tea = doc(&document("tea house", "", ""));
    assert!(finds(&asked("tea cake", false, MatchField::All, &range()), &tea));
    assert!(!finds(&asked("tea cake", true, MatchField::All, &range()), &tea));
    assert!(finds(&asked("tea house", true, MatchField::All, &range()), &tea));
}

/// A query stays within its namespace, scopes, kinds, tags and notes.
#[test]
fn queries_stay_in_their_range() {
    let mut inside = document("tea", "", "");
    inside.tag_ids = vec![7, 8];
    inside.note_id = 5;
    let tea = doc(&inside);
    let hit = |filter: IndexFilter| finds(&asked("tea", false, MatchField::All, &filter), &tea);
    assert!(hit(range()));
    assert!(!hit(IndexFilter { namespace: 1, ..range() }));
    assert!(!hit(IndexFilter { scopes: vec![4, 5], ..range() }));
    assert!(hit(IndexFilter { scopes: vec![4, 3], ..range() }));
    assert!(!hit(IndexFilter { scopes: Vec::new(), ..range() }));
    assert!(hit(IndexFilter { kinds: vec![RecordKind::Memory.code()], ..range() }));
    assert!(!hit(IndexFilter { kinds: vec![RecordKind::Chunk.code()], ..range() }));
    assert!(hit(IndexFilter { tags: vec![7, 8], ..range() }));
    assert!(!hit(IndexFilter { tags: vec![7, 9], ..range() }));
    assert!(hit(IndexFilter { note_ids: vec![4, 5], ..range() }));
    assert!(!hit(IndexFilter { note_ids: vec![4], ..range() }));
}

/// A label that the store does not know matches nothing at all.
#[test]
fn unknown_labels_match_nothing() {
    let known = index_filter(Some(2), &vec![Some(3)], &vec![Some(7)], &vec![RecordKind::Chunk], &vec![9]).unwrap();
    assert_eq!((known.namespace, known.scopes, known.tags, known.kinds, known.note_ids), (2, vec![3], vec![7], vec![5], vec![9]));
    assert!(index_filter(None, &vec![Some(3)], &Vec::new(), &Vec::new(), &Vec::new()).is_none());
    assert!(index_filter(Some(2), &vec![Some(3), None], &Vec::new(), &Vec::new(), &Vec::new()).is_none());
    assert!(index_filter(Some(2), &vec![Some(3)], &vec![None], &Vec::new(), &Vec::new()).is_none());
}

fn scored(list: &[(i64, i64)]) -> Vec<Scored> {
    list.iter().map(|(id, score)| Scored { id: *id, score: *score }).collect()
}

/// Strict hits stand before loose ones, whatever their scores.
#[test]
fn strict_hits_come_first() {
    let strict = scored(&[(1, 1), (2, 5)]);
    let loose = scored(&[(3, 100), (1, 90), (4, 100)]);
    let merged = |limit: usize| merge_passes(&strict, &loose, limit).iter().map(|s| s.id).collect::<Vec<_>>();
    assert_eq!(merged(10), vec![2, 1, 3, 4]);
    assert_eq!(merged(3), vec![2, 1, 3]);
    assert!(needs_loose_pass(2, 3) && !needs_loose_pass(3, 3));
}

/// Chunks are counted by note, and counts of parts add up.
#[test]
fn chunks_are_counted_by_note() {
    let mut first = NoteCounts::new(&vec![8, 3, 8]);
    first.collect(3);
    first.collect(3);
    first.collect(99);
    let mut second = NoteCounts::new(&vec![3, 8]);
    second.collect(8);
    second.collect(3);
    first.merge(&second);
    assert_eq!((first.count_of(3), first.count_of(8), first.count_of(99)), (Some(3), Some(1), None));
}

/// Reconciling removes what is gone and adds what is missing.
#[test]
fn reconciling_brings_the_index_up_to_the_records() {
    assert_eq!(reconcile(&vec![1, 2, 3], &vec![2, 3, 4]), (vec![1], vec![4]));
    assert_eq!(reconcile(&vec![1, 2], &vec![2, 1]), (Vec::new(), Vec::new()));
    assert_eq!(missing_from(&vec![5, 6], &[6].into_iter().collect()), vec![5]);
}

/// A late commit never takes the progress back.
#[test]
fn progress_never_goes_back() {
    let mut progress = IndexProgress { dirty: false, indexed_revision: 4 };
    progress.stage(0);
    assert!(!progress.dirty);
    progress.stage(2);
    assert!(progress.dirty);
    progress.committed(9);
    assert_eq!((progress.dirty, progress.indexed_revision), (false, 9));
    progress.mark_dirty();
    progress.committed(7);
    assert_eq!((progress.dirty, progress.indexed_revision), (false, 9));
    assert_eq!(commit_mark(12), "p-memory-text-v13:12");
}

/// A chunk is found again by its place; a note without a chunk length has the fallback.
#[test]
fn chunks_are_found_by_their_place() {
    let chunks = vec!["one".to_string(), "two".to_string()];
    let at = |place: i64| json::object_value(vec![("ordinal".to_string(), json::int_value(place))]);
    assert_eq!(chunk_body(&chunks, &at(1)), "two");
    assert_eq!(chunk_body(&chunks, &at(2)), "");
    assert_eq!(chunk_body(&chunks, &Json::Null), "one");
    let sized = json::object_value(vec![("chunk_chars".to_string(), json::int_value(300))]);
    assert_eq!(note_chunk_chars(Some(&sized)), 300);
    assert_eq!(note_chunk_chars(Some(&Json::Null)), 220);
    assert_eq!(note_chunk_chars(None), 220);
}
