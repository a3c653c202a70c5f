use p_memory::attaching::attach_evidence;
use p_memory::drafts::{graph_memory, key, memory_draft, memory_drafts, memory_type};
use p_memory::error::Error;
use p_memory::extraction::{attributes, extraction_graph, extraction_warning};
use p_memory::graph_drafts::{add_value, lookup_graph, LookupTables};
use p_memory::importing::{
    check_still_empty, decided_report, empty_row, failed_preview, import_step, is_note_extension, new_report,
    note_sources, plan_fingerprint, vector_warning, Applied, Destination, ImportStep, Located, NotePlan, NoteSource,
};
use p_memory::json::{self, Json, Number};
use p_memory::legacy::{
    check_graph_table, check_import, check_lookup_table, check_memory_table, check_table_name, choose_time, evidence,
    memory_tables, metadata_text, namespace, note_table, paired_with, record, string, strings, tag_map, tag_notes,
    timestamp, ImportRequest, LegacySource, RowSeconds, Seconds, SourceRow,
};
use p_memory::rendering::render;
use p_memory::types::Metadata;
use sha2::{Digest, Sha256};

fn text(value: &str) -> Json {
    json::text_value(value)
}

fn whole(value: i64) -> Json {
    json::int_value(value)
}

fn decimal(value: &str) -> Json {
    Json::Number(Number { text: value.to_string(), int: None, nat: None })
}

fn fields(pairs: Vec<(&str, Json)>) -> Metadata {
    let mut entries = Vec::new();
    for (key, value) in pairs {
        json::set_field(&mut entries, key.to_string(), value);
    }
    Metadata { entries }
}

fn object(pairs: Vec<(&str, Json)>) -> Json {
    Json::Object(fields(pairs).entries)
}

fn no_seconds() -> RowSeconds {
    RowSeconds {
        created: Seconds::NoNumber,
        updated: Seconds::NoNumber,
        recalled: Seconds::NoNumber,
        decayed: Seconds::NoNumber,
    }
}

fn row(pairs: Vec<(&str, Json)>, metadata: Vec<(&str, Json)>) -> SourceRow {
    SourceRow { fields: fields(pairs), metadata: Ok(fields(metadata)), seconds: no_seconds() }
}

fn request(source: LegacySource) -> ImportRequest {
    ImportRequest {
        source,
        source_id: "fixture".to_string(),
        database: "memory_store.db".to_string(),
        destination: "dest".to_string(),
        graph_database: None,
        lookup_database: None,
        notes_root: None,
        namespace: "default".to_string(),
        scope: "public".to_string(),
        dry_run: true,
    }
}

fn message<T: std::fmt::Debug>(out: Result<T, Error>) -> String {
    out.unwrap_err().message()
}

#[test]
fn requests_are_checked_before_anything_is_opened() {
    assert!(check_import(&request(LegacySource::Pai)).is_ok());
    let mut graph = request(LegacySource::Pai);
    graph.graph_database = Some("g.db".to_string());
    assert_eq!(message(check_import(&graph)), "invalid input: graph_database and lookup_database apply only to world_tree");
    graph.source = LegacySource::WorldTree;
    assert!(check_import(&graph).is_ok());
    let mut blank = request(LegacySource::Pai);
    blank.scope = " ".to_string();
    assert!(message(check_import(&blank)).contains("scope must be"));
    blank.source_id = String::new();
    assert!(message(check_import(&blank)).contains("source_id must be"));
    assert!(p_memory::legacy::dry_run());

    assert_eq!(memory_tables(LegacySource::AngelMemory), ("memory_records", "global_tags", "memory_tag_rel"));
    assert_eq!(note_table(LegacySource::Pai), "note_index_record");
    assert_eq!(note_table(LegacySource::WorldTree), "note_index_records");
    assert!(check_table_name("memory_record2").is_ok());
    assert_eq!(message(check_table_name("a;b")), "invalid input: invalid source table");
    assert_eq!(message(check_memory_table(LegacySource::Pai, false)), "invalid input: expected legacy table memory_record");
    assert_eq!(message(check_graph_table(false)), "invalid input: expected world_tree_graph table");
    assert_eq!(message(check_lookup_table(false)), "invalid input: expected entities table in lookup database");
    assert!(check_memory_table(LegacySource::Pai, true).is_ok() && check_graph_table(true).is_ok());
}

#[test]
fn cells_are_texts_or_numbers() {
    let row = fields(vec![("a", text("x")), ("b", decimal("1.5")), ("c", Json::Null), ("d", Json::Bool(true))]);
    assert_eq!((string(&row, "a"), string(&row, "b")), ("x".to_string(), "1.5".to_string()));
    assert_eq!((string(&row, "c"), string(&row, "d"), string(&row, "e")), (String::new(), String::new(), String::new()));
    assert_eq!(strings(Some(&text("one"))), vec!["one".to_string()]);
    assert_eq!(strings(Some(&Json::Array(vec![text("a"), whole(1), text("b")]))), vec!["a".to_string(), "b".to_string()]);
    assert!(strings(Some(&whole(1))).is_empty() && strings(None).is_empty());
    assert_eq!(metadata_text(&fields(vec![("metadata_json", text("{}"))])), Some("{}".to_string()));
    assert_eq!(metadata_text(&fields(vec![("metadata_json", text("  "))])), None);
    assert_eq!(metadata_text(&fields(vec![])), None);
}

#[test]
fn times_are_read_in_every_form() {
    let at = |value: Json, seconds| timestamp(&fields(vec![("t", value)]), "t", seconds);
    assert_eq!(at(text("1970-01-01T00:00:01Z"), Seconds::NoNumber).unwrap(), Some(1_000_000));
    assert_eq!(at(text("1970-01-01T01:00:00.5+01:00"), Seconds::NoNumber).unwrap(), Some(500_000));
    // A time without an offset is one of UTC.
    assert_eq!(at(text(" 1970-01-01T00:00:02.25 "), Seconds::NoNumber).unwrap(), Some(2_250_000));
    assert_eq!(at(text("1780029185"), Seconds::Micros(7)).unwrap(), Some(7));
    assert_eq!(at(decimal("1780029185.0"), Seconds::Micros(9)).unwrap(), Some(9));
    assert_eq!(at(text(" "), Seconds::NoNumber).unwrap(), None);
    assert_eq!(at(Json::Null, Seconds::NoNumber).unwrap(), None);
    assert_eq!(timestamp(&fields(vec![]), "t", Seconds::NoNumber).unwrap(), None);
    assert_eq!(message(at(text("1e400"), Seconds::OutOfRange)), "invalid input: source timestamp out of range");
    assert_eq!(message(at(text("so\"on"), Seconds::NoNumber)), "invalid input: invalid source timestamp t: \"so\\\"on\"");
    assert_eq!(
        message(at(Json::Array(vec![whole(1), text("a")]), Seconds::Micros(1))),
        "invalid input: invalid source timestamp t: [1,\"a\"]"
    );
    let value = text("x");
    assert_eq!(choose_time(Some(&value), "t", (Some(1), Some(2)), Seconds::Micros(3)).unwrap(), Some(1));
    assert_eq!(choose_time(Some(&value), "t", (None, Some(2)), Seconds::Micros(3)).unwrap(), Some(2));
    assert_eq!(choose_time(Some(&value), "t", (None, None), Seconds::Micros(3)).unwrap(), Some(3));
}

#[test]
fn values_are_rendered_as_compact_json() {
    let value = object(vec![
        ("b", Json::Array(vec![Json::Null, Json::Bool(false), decimal("0.5")])),
        ("a", text("茶\n")),
        ("c", object(vec![])),
    ]);
    assert_eq!(render(&value), "{\"a\":\"茶\\n\",\"b\":[null,false,0.5],\"c\":{}}");
    assert_eq!(render(&Json::Array(vec![])), "[]");
}

#[test]
fn records_keep_their_origin() {
    let req = request(LegacySource::WorldTree);
    let source = row(
        vec![("id", text("m1")), ("created_at", text("1970-01-01T00:00:01Z")), ("memory_scope", text("agent-x"))],
        vec![("domain", text(" demo "))],
    );
    let made = record(&req, "world_tree_memory", "m1", &source, " demo ").unwrap();
    assert_eq!((made.namespace.as_str(), made.scope.as_str()), ("default/demo", "agent-x"));
    assert_eq!((made.created_at_us, made.updated_at_us), (Some(1_000_000), Some(1_000_000)));
    let metadata = Json::Object(made.metadata.entries);
    assert_eq!(json::as_text(json::get(&metadata, "domain")), " demo ");
    let origin = json::get(&metadata, "legacy").unwrap();
    assert_eq!(json::as_text(json::get(origin, "format")), "world_tree");
    assert_eq!(json::as_text(json::get(origin, "source_id")), "fixture");
    assert_eq!(json::as_text(json::get(origin, "table")), "world_tree_memory");
    assert_eq!(json::as_text(json::get(origin, "id")), "m1");
    assert_eq!(json::as_text(json::get(json::get(origin, "row").unwrap(), "memory_scope")), "agent-x");

    assert_eq!(namespace(&request(LegacySource::Pai), "demo"), "default");
    assert_eq!(namespace(&req, "  "), "default");
    assert_eq!(message(record(&req, "entities", "", &source, "")), "invalid input: missing source ID in entities");
    let mut broken = row(vec![], vec![]);
    broken.metadata = Err("EOF".to_string());
    assert!(matches!(record(&req, "entities", "x", &broken, ""), Err(Error::Json(_))));
    let timeless = record(&req, "entities", "x", &row(vec![], vec![]), "").unwrap();
    assert_eq!((timeless.created_at_us, timeless.updated_at_us, timeless.scope.as_str()), (Some(0), Some(0), "public"));
}

#[test]
fn evidence_names_sources_and_lines() {
    let item = |pairs| object(pairs);
    let list = Json::Array(vec![
        item(vec![("source", text("a.md")), ("line_start", whole(3)), ("line_end", whole(5)), ("quote", text("q"))]),
        item(vec![("file_path", text("b.md")), ("line_start", whole(0)), ("line_end", whole(5))]),
        item(vec![("quote", text("nothing"))]),
        text("c.md"),
        item(vec![("source", text("d.md")), ("line_start", whole(5)), ("line_end", whole(4))]),
    ]);
    let found = evidence(Some(&list), &fields(vec![("file_path", text("f.md"))]));
    let places: Vec<_> = found.iter().map(|e| (e.source.as_str(), e.offset, e.limit)).collect();
    assert_eq!(places, vec![("a.md", Some(3), Some(3)), ("b.md", None, None), ("d.md", None, None)]);
    assert_eq!(found[0].quote, "q");
    assert_eq!(string(&found[0].metadata, "source"), "a.md");
    let fallback = evidence(None, &fields(vec![("file_path", text("f.md"))]));
    assert_eq!(fallback.len(), 1);
    assert_eq!((fallback[0].source.as_str(), fallback[0].offset), ("f.md", None));
    assert!(evidence(Some(&text("x")), &fields(vec![])).is_empty());
    let one = evidence(Some(&item(vec![("source", text("a.md"))])), &fields(vec![]));
    assert_eq!(one.len(), 1);
}

fn tag(id: i64, name: &str) -> Metadata {
    fields(vec![("id", whole(id)), ("name", text(name))])
}

#[test]
fn memories_come_with_tags_and_state() {
    let tags = vec![tag(1, "rust"), tag(2, "测试"), tag(2, "试验")];
    let relations = vec![
        fields(vec![("memory_id", text("m1")), ("tag_id", whole(1))]),
        fields(vec![("memory_id", text("m1")), ("tag_id", whole(2))]),
        fields(vec![("memory_id", text("m2")), ("tag_id", whole(9))]),
    ];
    let pairs = tag_map(&tags, &relations, "memory_id");
    assert_eq!(paired_with(&pairs, "m1"), vec!["rust".to_string(), "试验".to_string()]);
    assert!(paired_with(&pairs, "m2").is_empty());

    let source = row(
        vec![
            ("id", text("m1")),
            ("memory_type", text("知识记忆")),
            ("judgment", text("Rust 是系统编程语言")),
            ("reasoning", text("因为内存安全")),
            ("strength", whole(5)),
            ("is_active", whole(1)),
            ("useful_count", whole(3)),
            ("useful_score", decimal("0.5")),
            ("created_at", text("2026-02-21T13:11:40.51375Z")),
            ("updated_at", text("2026-06-13T09:26:45Z")),
        ],
        vec![],
    );
    let draft = memory_draft(&request(LegacySource::Pai), &source, &pairs).unwrap();
    assert_eq!((draft.table.as_str(), draft.source_id.as_str()), ("memory_record", "m1"));
    assert_eq!((draft.memory_type.as_str(), draft.judgment.as_str()), ("knowledge", "Rust 是系统编程语言"));
    assert_eq!(draft.record.tags, vec!["rust".to_string(), "试验".to_string()]);
    assert_eq!(draft.record.created_at_us, Some(1_771_679_500_513_750));
    let state = draft.state.unwrap();
    assert!(state.pinned);
    assert_eq!((state.strength, state.useful_count, state.last_recalled_at_us), (5, 3, None));
    assert_eq!(state.useful_score.unwrap().text, "0.5");

    let bare = memory_draft(&request(LegacySource::Pai), &row(vec![("id", text("m9"))], vec![]), &vec![]).unwrap();
    let state = bare.state.unwrap();
    assert!(!state.pinned && state.useful_score.is_none());
    assert_eq!((state.strength, state.useful_count, bare.memory_type.as_str()), (1, 0, "knowledge"));
    for (kind, wanted) in [("事件记忆", "event"), ("技能记忆", "skill"), ("任务记忆", "task"), ("情感记忆", "emotion"), ("mood", "mood")] {
        assert_eq!(memory_type(kind.to_string()), wanted);
    }

    let rows = vec![row(vec![("id", text("a"))], vec![]), row(vec![], vec![]), row(vec![("id", text("b"))], vec![])];
    assert_eq!(
        message(memory_drafts(&request(LegacySource::Pai), &rows, &vec![], false)),
        "invalid input: missing source ID in memory_record"
    );
    let good = vec![row(vec![("id", text("a"))], vec![]), row(vec![("id", text("b"))], vec![])];
    let drafts = memory_drafts(&request(LegacySource::Pai), &good, &vec![], false).unwrap();
    assert_eq!(drafts.iter().map(|draft| draft.source_id.as_str()).collect::<Vec<_>>(), vec!["a", "b"]);
}

#[test]
fn extracted_graphs_are_kept_as_memories() {
    let source = row(
        vec![("id", text("g1")), ("judgment", text("图谱抽出一条"))],
        vec![("domain", text("demo")), ("file_path", text("a.md"))],
    );
    let draft = graph_memory(&request(LegacySource::WorldTree), &source, &vec![("g1".to_string(), "x".to_string())]).unwrap();
    assert_eq!((draft.table.as_str(), draft.memory_type.as_str()), ("world_tree_graph", "graph_extraction"));
    assert_eq!(draft.record.tags, vec!["x".to_string(), "legacy:graph-extraction".to_string()]);
    assert_eq!(draft.record.namespace, "default/demo");
    assert_eq!(draft.record.evidence[0].source, "a.md");
    assert!(draft.state.is_none());
}

fn lookup() -> LookupTables {
    let entity = |id: &str, name: &str| {
        row(vec![("entity_id", text(id)), ("domain", text("demo")), ("canonical_name", text(name)), ("entity_type", text("person"))], vec![])
    };
    let relation = |id: &str, object: &str| {
        row(
            vec![
                ("relation_id", text(id)),
                ("domain", text("demo")),
                ("subject_entity_id", text("e1")),
                ("predicate", text("knows")),
                ("object_entity_id", text(object)),
                ("confidence", decimal("0.9")),
            ],
            vec![],
        )
    };
    LookupTables {
        entities: vec![entity("e1", "Alice"), entity("e2", "Bob"), entity("e1", "Alice again")],
        entity_aliases: vec![fields(vec![("term", text("A")), ("entity_id", text("e1"))])],
        entity_attributes: vec![
            fields(vec![("entity_id", text("e1")), ("attr_key", text("color")), ("attr_value", text("red"))]),
            fields(vec![("entity_id", text("e1")), ("attr_key", text("age")), ("attr_value", text("7"))]),
            fields(vec![("entity_id", text("e1")), ("attr_key", text("color")), ("attr_value", text("blue"))]),
        ],
        relations: vec![relation("r1", "e2"), relation("r2", "ghost")],
        events: vec![row(vec![("event_id", text("ev1")), ("domain", text("demo")), ("event_name", text("alliance"))], vec![])],
        event_participants: vec![
            fields(vec![("event_id", text("ev1")), ("entity_id", text("e1"))]),
            fields(vec![("event_id", text("ev1")), ("entity_id", text("ghost"))]),
        ],
        event_aliases: vec![fields(vec![("event_id", text("ev1")), ("term", text("pact"))])],
    }
}

#[test]
fn lookup_tables_become_a_graph() {
    let mut req = request(LegacySource::WorldTree);
    req.namespace = "demo".to_string();
    let graph = lookup_graph(&req, &lookup()).unwrap();
    let first = &graph.entities[0];
    assert_eq!((first.name.as_str(), first.entity_type.as_str()), ("Alice", "person"));
    assert_eq!(first.aliases, vec!["A".to_string()]);
    assert_eq!(
        first.attributes,
        vec![
            ("age".to_string(), vec!["7".to_string()]),
            ("color".to_string(), vec!["red".to_string(), "blue".to_string()]),
        ]
    );
    assert_eq!(first.key(), key("entities", "e1"));
    assert_eq!(first.record.namespace, "demo/demo");
    // Aliases and attributes go to the first row of an id.
    assert!(graph.entities[2].aliases.is_empty() && graph.entities[2].attributes.is_empty());
    assert_eq!(graph.relations[1].object, "entities\u{1f}ghost");
    assert_eq!(graph.relations[0].confidence.as_ref().unwrap().text, "0.9");
    assert_eq!(graph.events[0].participants, vec![key("entities", "e1"), key("entities", "ghost")]);
    let metadata = Json::Object(graph.events.into_iter().next().unwrap().record.metadata.entries);
    assert_eq!(json::as_texts(json::get(&metadata, "legacy_event_aliases")), vec!["pact".to_string()]);

    let mut nameless = lookup();
    nameless.relations.push(row(vec![], vec![]));
    assert_eq!(message(lookup_graph(&req, &nameless)), "invalid input: missing source ID in relations");
    let mut list = Vec::new();
    add_value(&mut list, "b".to_string(), "1".to_string());
    add_value(&mut list, "a".to_string(), "2".to_string());
    add_value(&mut list, "b".to_string(), "3".to_string());
    assert_eq!(list, vec![("a".to_string(), vec!["2".to_string()]), ("b".to_string(), vec!["1".to_string(), "3".to_string()])]);
}

/// Writing the dangling relation and participant of the tables leaves both out and tells of them.
#[test]
fn dangling_references_are_told_of() {
    let graph = lookup_graph(&request(LegacySource::WorldTree), &lookup()).unwrap();
    let mut applied = Applied::new();
    for (i, entity) in graph.entities.iter().take(2).enumerate() {
        applied.entity_written(entity, i as i64 + 10);
    }
    assert_eq!(applied.relation_ends(&graph.relations[0]), Some((10, 11)));
    assert_eq!(applied.relation_ends(&graph.relations[1]), None);
    assert_eq!(applied.participants(&graph.events[0]), vec![10]);
    assert_eq!(
        applied.conflicts,
        vec![
            "skipped relation r2: unresolved entity reference entities\u{1f}e1 -> entities\u{1f}ghost".to_string(),
            "event ev1: dropped unresolved participant entities\u{1f}ghost".to_string(),
        ]
    );
    applied.written("relations", "r1", 12);
    let map: Vec<_> = applied.mappings.iter().map(|m| (m.source_table.as_str(), m.source_id.as_str(), m.target_id)).collect();
    assert_eq!(map, vec![("entities", "e1", 10), ("entities", "e2", 11), ("relations", "r1", 12)]);
}

fn extraction(entities: Vec<Json>, relations: Vec<Json>, events: Vec<Json>) -> SourceRow {
    row(
        vec![("id", text("g1"))],
        vec![
            ("domain", text("demo")),
            ("file_path", text("g.md")),
            ("entities", Json::Array(entities)),
            ("relations", Json::Array(relations)),
            ("events", Json::Array(events)),
        ],
    )
}

#[test]
fn names_are_resolved_within_a_record() {
    let req = request(LegacySource::WorldTree);
    let source = extraction(
        vec![
            text("no object"),
            object(vec![
                ("name", text("Alice")),
                ("aliases", Json::Array(vec![text("Ａl"), whole(3)])),
                ("attributes", object(vec![("age", whole(7)), ("tags", Json::Array(vec![text("x"), whole(1)])), ("who", text("me"))])),
            ]),
        ],
        vec![object(vec![("subject", text(" AL ")), ("predicate", text("knows")), ("object", text("Bob")), ("confidence", decimal("0.4"))])],
        vec![object(vec![("name", text("met")), ("participants", Json::Array(vec![text("bob"), text("alice")]))])],
    );
    let graph = extraction_graph(&req, &vec![source]).unwrap();
    let keys: Vec<String> = graph.entities.iter().map(|entity| entity.key()).collect();
    assert_eq!(keys, vec![key("extracted_entities", "g1:1"), key("inferred_entities", "g1:Bob")]);
    assert_eq!(graph.entities[0].entity_type, "concept");
    assert_eq!(
        graph.entities[0].attributes,
        vec![
            ("age".to_string(), vec!["7".to_string()]),
            ("tags".to_string(), vec!["x".to_string(), "1".to_string()]),
            ("who".to_string(), vec!["me".to_string()]),
        ]
    );
    assert_eq!(graph.entities[0].record.evidence[0].source, "g.md");
    assert_eq!((&graph.relations[0].subject, &graph.relations[0].object), (&keys[0], &keys[1]));
    assert_eq!(graph.relations[0].source_id, "g1:0");
    assert_eq!(graph.events[0].participants, vec![keys[1].clone(), keys[0].clone()]);
    assert!(json::find(&graph.entities[1].record.metadata.entries, "inferred_from_legacy_reference").is_some());
    assert!(attributes(None).is_empty());
    assert!(extraction_warning(1).unwrap().starts_with("No canonical lookup database supplied"));
    assert!(extraction_warning(0).is_none());

    let twice = extraction(
        vec![object(vec![("name", text("X"))]), object(vec![("name", text("x"))])],
        vec![object(vec![("subject", text("X")), ("object", text("Y"))])],
        vec![],
    );
    match extraction_graph(&req, &vec![twice]) {
        Err(Error::Conflict(message)) => assert_eq!(message, "ambiguous entity X in graph g1"),
        other => panic!("{other:?}"),
    }
    let empty = extraction(vec![], vec![object(vec![("subject", text(" "))])], vec![]);
    assert_eq!(message(extraction_graph(&req, &vec![empty])), "invalid input: empty entity reference in graph g1");
    let mut broken = extraction(vec![], vec![], vec![]);
    broken.metadata = Err("EOF".to_string());
    assert!(matches!(extraction_graph(&req, &vec![broken]), Err(Error::Json(_))));
}

#[test]
fn evidence_is_attached_where_names_are_unique() {
    let req = request(LegacySource::WorldTree);
    let mut tables = lookup();
    tables.entities.pop();
    let mut graph = lookup_graph(&req, &tables).unwrap();
    let cited = |name: &str| Json::Array(vec![object(vec![("source", text(name))])]);
    let source = extraction(
        vec![
            object(vec![("name", text("a")), ("evidence", cited("one.md"))]),
            object(vec![("name", text("nobody")), ("evidence", cited("two.md"))]),
        ],
        vec![object(vec![("subject", text("Alice")), ("predicate", text("knows")), ("object", text("BOB")), ("evidence", cited("three.md"))])],
        vec![object(vec![("name", text("alliance"))])],
    );
    attach_evidence(&req, &mut graph, &vec![source]).unwrap();
    let sources = |list: &Vec<p_memory::types::Evidence>| list.iter().map(|e| e.source.clone()).collect::<Vec<_>>();
    assert_eq!(sources(&graph.entities[0].record.evidence), vec!["one.md".to_string()]);
    assert!(graph.entities[1].record.evidence.is_empty());
    assert_eq!(sources(&graph.relations[0].record.evidence), vec!["three.md".to_string()]);
    assert!(graph.relations[1].record.evidence.is_empty());
    assert_eq!(sources(&graph.events[0].record.evidence), vec!["g.md".to_string()]);

    // Two entities of one name: neither is meant.
    let mut tables = lookup();
    tables.entities[1] = row(vec![("entity_id", text("e2")), ("domain", text("demo")), ("canonical_name", text("alice"))], vec![]);
    tables.entities.pop();
    let mut graph = lookup_graph(&req, &tables).unwrap();
    let source = extraction(vec![object(vec![("name", text("Alice")), ("evidence", cited("one.md"))])], vec![], vec![]);
    attach_evidence(&req, &mut graph, &vec![source]).unwrap();
    assert!(graph.entities.iter().all(|entity| entity.record.evidence.is_empty()));
}

#[test]
fn notes_are_placed_once_or_reported_missing() {
    let mut req = request(LegacySource::AngelMemory);
    let index = vec![row(vec![("source_file_path", text("n1.md")), ("heading_h1", text("标题")), ("tags", text("x"))], vec![])];
    let graphs = vec![row(vec![("file_path", text("n1.md"))], vec![]), row(vec![("file_path", text("a.md"))], vec![]), row(vec![], vec![])];
    let sources = note_sources(index, graphs, &vec!["z.md".to_string(), "a.md".to_string()]);
    assert_eq!(sources.iter().map(|item| item.source.as_str()).collect::<Vec<_>>(), vec!["a.md", "n1.md", "z.md"]);
    assert_eq!(string(&sources[1].row.fields, "heading_h1"), "标题");

    let mut plan = NotePlan::new();
    let found = |path: &str| Located::Found { path: path.to_string(), relative: path.to_string() };
    let mut rest = sources.into_iter();
    assert!(!plan.place(&req, rest.next().unwrap(), &Located::Missing).unwrap());
    assert!(plan.place(&req, rest.next().unwrap(), &found("n1.md")).unwrap());
    assert!(!plan.place(&req, rest.next().unwrap(), &Located::Outside).unwrap());
    let again = NoteSource { source: "./n1.md".to_string(), row: empty_row() };
    assert!(!plan.place(&req, again, &found("n1.md")).unwrap());
    assert_eq!(plan.missing, vec!["a.md".to_string(), "z.md".to_string()]);
    assert_eq!(plan.warnings, vec!["Skipped note outside notes_root: z.md".to_string()]);
    let note = &plan.notes[0];
    assert_eq!((note.title.as_str(), note.source.as_str(), note.source_id.as_str()), ("标题", "n1.md", "default:n1.md"));
    assert_eq!((note.record.tags.clone(), note.chunk_chars), (vec!["x".to_string()], 220));

    req.source = LegacySource::WorldTree;
    let deep = NoteSource { source: "demo/n.md".to_string(), row: empty_row() };
    assert!(plan.place(&req, deep, &found("demo/n.md")).unwrap());
    assert_eq!(plan.notes[1].record.namespace, "default/demo");
    let explicit = NoteSource { source: "demo/m.md".to_string(), row: row(vec![("domain", text("other"))], vec![]) };
    assert!(plan.place(&req, explicit, &found("demo/m.md")).unwrap());
    assert_eq!(plan.notes[2].source_id, "default/other:demo/m.md");
    let mut broken = empty_row();
    broken.metadata = Err("EOF".to_string());
    assert!(plan.place(&req, NoteSource { source: "q.md".to_string(), row: broken }, &found("q.md")).is_err());

    let tagged = tag_notes(vec![fields(vec![("source_id", text("s1"))])], &vec![("s1".to_string(), "t".to_string())]);
    assert_eq!(strings(json::find(&tagged[0].entries, "tags")), vec!["t".to_string()]);
    assert!(is_note_extension("md") && is_note_extension("markdown") && is_note_extension("txt") && !is_note_extension("rs"));
}

#[test]
fn existing_data_is_never_overwritten() {
    let imported = |print: &str| Destination::Imported { fingerprint: print.to_string() };
    assert_eq!(import_step(&Destination::Empty, "f", false), ImportStep::Apply);
    assert_eq!(import_step(&Destination::Empty, "f", true), ImportStep::Preview);
    assert_eq!(import_step(&Destination::Occupied, "f", false), ImportStep::Refused);
    assert_eq!(import_step(&imported("f"), "f", false), ImportStep::Already);
    assert_eq!(import_step(&imported("g"), "f", false), ImportStep::Changed);
    assert!(check_still_empty(0).is_ok());
    assert_eq!(message(check_still_empty(1)), "conflict: destination became nonempty during import");

    let report = || new_report("fixture", "f".to_string(), vec!["a.md".to_string()], vec![vector_warning()]);
    assert!(!report().applied && report().missing_sources.len() == 1);
    let refused = decided_report(ImportStep::Refused, report(), None, vec!["lost".to_string()]);
    assert_eq!(refused.conflicts, vec!["Destination must be a new or empty directory; existing user data is never overwritten.".to_string()]);
    let changed = decided_report(ImportStep::Changed, report(), None, vec![]);
    assert_eq!(changed.conflicts, vec!["Source changed since the previous import; use a new destination for a new snapshot.".to_string()]);
    let shown = decided_report(ImportStep::Preview, report(), None, vec!["told".to_string()]);
    assert_eq!(shown.conflicts, vec!["told".to_string()]);
    let mut before = report();
    before.applied = true;
    let again = decided_report(ImportStep::Already, report(), Some(before), vec![]);
    assert!(again.already_imported && !again.applied);
    let failed = failed_preview(report(), vec!["told".to_string()], &Error::Closed);
    assert_eq!(failed.conflicts, vec!["told".to_string(), "knowledge base is closed".to_string()]);
    assert_eq!(plan_fingerprint("{}"), format!("{:x}", Sha256::digest("{}".as_bytes())));
}
