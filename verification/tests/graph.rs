use p_memory::bits::Real;
use p_memory::contexts::{entity_contexts, neighbors, record_entities_sql, Edge, Loaded};
use p_memory::error::Error;
use p_memory::graph::{
    check_confidence, check_event, check_graph_kind, check_relation, default_confidence, equivalents_rows, expand_query,
    first_matching, normalize_aliases, predicate_groups, refresh, with_synonyms, write_entity, write_event, write_relation,
    CurrentNames, EntityInput, EventInput, RelationInput,
};
use p_memory::json::{self, Json};
use p_memory::storage::record_text;
use p_memory::types::{ReadFilter, RecordInput, RecordKind};
use std::collections::HashSet;

fn confidence(value: f64) -> Real {
    Real { bits: value.to_bits(), text: format!("{value:?}") }
}

fn texts(list: &[&str]) -> Vec<String> {
    list.iter().map(|t| t.to_string()).collect()
}

fn entity(name: &str) -> EntityInput {
    EntityInput {
        record: RecordInput::default(),
        name: name.to_string(),
        entity_type: "person".to_string(),
        aliases: Vec::new(),
        attributes: Vec::new(),
        summary: String::new(),
    }
}

fn relation(subject_id: i64, predicate: &str, object_id: i64) -> RelationInput {
    RelationInput {
        record: RecordInput::default(),
        subject_id,
        predicate: predicate.to_string(),
        object_id,
        confidence: confidence(1.0),
        reason: String::new(),
    }
}

fn event(name: &str, participants: Vec<i64>) -> EventInput {
    EventInput {
        record: RecordInput::default(),
        name: name.to_string(),
        summary: String::new(),
        participants,
        confidence: confidence(1.0),
        reason: String::new(),
    }
}

fn fields(value: Json) -> Vec<(String, Json)> {
    match value {
        Json::Object(fields) => fields,
        other => panic!("{other:?}"),
    }
}

/// What is written of an entity can be read back as the text that is searched.
#[test]
fn written_entity_can_be_read_back() {
    let mut input = entity("香蕉");
    input.aliases = texts(&["苹果", " 苹果 ", "Banana"]);
    input.attributes = vec![("别称".to_string(), texts(&["苹果", "苹果"]))];
    input.summary = "水果".to_string();
    let (written, aliases) = write_entity(&input).unwrap();
    assert_eq!(aliases, normalize_aliases(&input.aliases));
    assert_eq!(aliases.iter().filter(|a| a.as_str() == "苹果").count(), 1);
    assert_eq!(record_text(RecordKind::Entity, &written.payload), written.body);
    assert!(written.body.contains("苹果") && written.body.contains("水果"));
    assert_eq!(json::as_text(json::get(&written.payload, "name")), "香蕉");
    assert!(matches!(write_entity(&entity(" ")), Err(Error::Validation(_))));
    let mut odd = entity("x");
    odd.entity_type = String::new();
    assert!(matches!(write_entity(&odd), Err(Error::Validation(_))));
}

/// What is written of a relation can be read back as the text that is searched.
#[test]
fn written_relation_can_be_read_back() {
    let input = relation(1, "同学", 2);
    assert!(check_relation(&input).is_ok());
    let written = write_relation(&input, "朱樱", "青萍");
    assert_eq!(written.body, "朱樱 同学 青萍 ");
    assert_eq!(record_text(RecordKind::Relation, &written.payload), written.body);
    assert_eq!(json::as_int(json::get(&written.payload, "subject_id")), Some(1));
    assert!(matches!(check_relation(&relation(1, "", 2)), Err(Error::Validation(_))));
    let unsure = RelationInput { confidence: confidence(1.5), ..relation(1, "同学", 2) };
    assert!(matches!(check_relation(&unsure), Err(Error::Validation(_))));
}

/// What is written of an event can be read back, and participants come once each.
#[test]
fn written_event_can_be_read_back() {
    let input = event("别鹤典仪", vec![7, 3, 7]);
    let participants = check_event(&input).unwrap();
    assert_eq!(participants, vec![3, 7]);
    let written = write_event(&input, &participants, &texts(&["朱樱", "青萍"]));
    assert_eq!(written.body, "别鹤典仪  朱樱 青萍 ");
    assert_eq!(record_text(RecordKind::Event, &written.payload), written.body);
    assert!(matches!(check_event(&event("", vec![1])), Err(Error::Validation(_))));
}

/// A confidence lies between zero and one.
#[test]
fn confidences_lie_between_zero_and_one() {
    assert_eq!(default_confidence().text, "0.8");
    assert_eq!(f64::from_bits(default_confidence().bits), 0.8);
    for good in [0.0, 0.5, 1.0] {
        assert!(check_confidence(&confidence(good)).is_ok());
    }
    for bad in [-0.1, 1.1, f64::NAN, f64::INFINITY] {
        assert!(check_confidence(&confidence(bad)).is_err());
    }
}

/// A renamed entity changes the relations and events that name it, once.
#[test]
fn renaming_reaches_what_depends_on_an_entity() {
    let payload = fields(write_relation(&relation(1, "同学", 2), "旧名", "青萍").payload);
    let names = || CurrentNames::Relation { subject: "新名".to_string(), object: "青萍".to_string() };
    let changed = refresh(payload, names(), &Vec::new(), 10, 20).unwrap();
    assert_eq!(changed.body, "新名 同学 青萍 ");
    assert_eq!(changed.updated_at_us, 20);
    assert_eq!(changed.fingerprint.len(), 64);
    assert!(refresh(changed.payload, names(), &Vec::new(), 20, 30).is_none());

    let happened = event("开张", vec![1]);
    let payload = fields(write_event(&happened, &vec![1], &texts(&["旧名"])).payload);
    let changed = refresh(payload, CurrentNames::Event(texts(&["新名"])), &Vec::new(), 50, 20).unwrap();
    assert_eq!(changed.updated_at_us, 50);
    assert!(changed.body.contains("新名") && !changed.body.contains("旧名"));
}

/// Groups of words that mean the same are kept by namespace and widen a query.
#[test]
fn predicate_equivalents_register_list_and_expand_per_domain() {
    let rows = equivalents_rows("demo", &vec![texts(&["alpha", "beta", "gamma"])]).unwrap();
    assert_eq!(rows.len(), 3);
    assert!(rows.iter().all(|row| row.0 == "alpha"));
    let stored: Vec<(i64, String)> = rows.iter().map(|row| (1, row.1.clone())).collect();
    assert_eq!(predicate_groups(&stored), vec![texts(&["alpha", "beta", "gamma"])]);
    assert!(predicate_groups(&Vec::new()).is_empty());

    let expanded = expand_query(&stored, "alice的beta");
    assert!(expanded.contains(&"alpha".to_string()) && expanded.contains(&"gamma".to_string()));
    assert!(expand_query(&stored, "alice").is_empty());
    assert!(expand_query(&Vec::new(), "alice的beta").is_empty());
    let widened = with_synonyms("alice的beta", &expanded);
    assert!(widened.starts_with("alice的beta") && widened.contains("alpha"));
    assert_eq!(with_synonyms("alice", &Vec::new()), "alice");

    assert!(matches!(equivalents_rows("demo", &vec![Vec::new()]), Err(Error::Validation(_))));
    assert!(matches!(equivalents_rows("demo", &vec![texts(&["alpha", " "])]), Err(Error::Validation(_))));
    assert!(matches!(equivalents_rows("", &Vec::new()), Err(Error::Validation(_))));
}

/// Only kinds of the graph are read through it, and only as many as asked for.
#[test]
fn graph_reads_its_own_kinds() {
    for kind in [RecordKind::Entity, RecordKind::Relation, RecordKind::Event] {
        assert!(check_graph_kind(kind).is_ok());
    }
    for kind in [RecordKind::Memory, RecordKind::Note, RecordKind::Chunk] {
        assert!(matches!(check_graph_kind(kind), Err(Error::Validation(_))));
    }
    let rows = vec![(4, true), (9, false), (2, true), (7, true)];
    assert_eq!(first_matching(&rows, 2).unwrap(), vec![4, 2]);
    assert!(first_matching(&rows, 0).is_err());
}

fn all(list: &[i64]) -> HashSet<i64> {
    list.iter().copied().collect()
}

/// Each record gets the entities and relations around the entities that it hangs on.
#[test]
fn records_get_the_context_of_their_entities() {
    let edges = vec![
        Edge { relation: 10, subject: 1, object: 2 },
        Edge { relation: 11, subject: 3, object: 1 },
        Edge { relation: 12, subject: 2, object: 3 },
    ];
    let loaded = Loaded { roots: all(&[1]), endpoints: all(&[1, 2, 3]), relations: all(&[10, 11, 12]) };
    let contexts = entity_contexts(&vec![6, 5], &vec![(5, 1)], &edges, &loaded, 10).unwrap();
    assert_eq!(contexts.iter().map(|c| c.record).collect::<Vec<_>>(), vec![5, 6]);
    assert_eq!(contexts[0].entities, vec![1, 2, 3]);
    assert_eq!(contexts[0].relations, vec![10, 11]);
    assert!(contexts[1].entities.is_empty() && contexts[1].relations.is_empty());
    let narrow = entity_contexts(&vec![5], &vec![(5, 1)], &edges, &loaded, 1).unwrap();
    assert_eq!(narrow[0].relations, vec![10]);
    assert!(entity_contexts(&vec![5], &Vec::new(), &edges, &loaded, 0).is_err());

    let around = neighbors(1, &edges, &loaded, 10).unwrap();
    assert_eq!((around.relations, around.entities), (vec![10, 11], vec![2, 3]));
    let hidden = Loaded { roots: all(&[1]), endpoints: all(&[1, 2]), relations: all(&[10, 11]) };
    assert_eq!(neighbors(1, &edges, &hidden, 10).unwrap().entities, vec![2]);
    let (sql, values) = record_entities_sql(&vec![5, 6], &ReadFilter::default()).unwrap();
    assert!(sql.contains("rt.record_id IN (?,?)"));
    assert_eq!(sql.matches('?').count(), values.len());
}
