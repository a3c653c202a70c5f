use p_memory::error::Error;
use p_memory::graph_search::{
    allowed_ids, check_predicate_rule, entities_sql, relation_rows_sql, with_virtual_edges, GraphEdge, GraphView,
    RelationRow,
};
use p_memory::query::SqlValue;
use p_memory::types::{ReadFilter, RecordKind};
use rusqlite::types::Value;
use rusqlite::{params_from_iter, Connection};

fn rel(subject: i64, predicate: &str, object: i64) -> RelationRow {
    RelationRow { subject, object, predicate: predicate.to_string(), symmetric: None, inverse: None }
}

fn view(entities: &[i64], rows: &[RelationRow]) -> GraphView {
    let rows: Vec<RelationRow> = rows
        .iter()
        .map(|row| RelationRow {
            subject: row.subject,
            object: row.object,
            predicate: row.predicate.clone(),
            symmetric: row.symmetric,
            inverse: row.inverse.clone(),
        })
        .collect();
    GraphView::build(&entities.to_vec(), &with_virtual_edges(&rows))
}

#[test]
fn ego_path_components() {
    let (a, b, c, d) = (1, 2, 3, 4);
    let knows = vec![rel(a, "knows", b), rel(b, "knows", c)];
    let graph = view(&[a, b, c], &knows);
    assert_eq!(graph.node_count(), 3);
    assert_eq!(graph.edge_count(), 2);
    assert_eq!(graph.component_count(), 1);

    assert_eq!(graph.ego_ids(a, 1, 100), vec![b]);
    let mut ego = graph.ego_ids(a, 2, 100);
    ego.sort();
    assert_eq!(ego, vec![b, c]);

    assert_eq!(graph.path_ids(a, c), Some(vec![a, b, c]));

    let ring = vec![rel(a, "knows", b), rel(b, "knows", c), rel(b, "knows", a)];
    let rings = view(&[a, b, c], &ring).strongly_connected();
    assert_eq!(rings.len(), 1);
    let mut members = rings[0].clone();
    members.sort();
    assert_eq!(members, vec![a, b]);

    let graph = view(&[a, b, c, d], &ring);
    assert_eq!(graph.node_count(), 4);
    assert_eq!(graph.component_count(), 2);
}

fn values(bound: &[SqlValue]) -> Vec<Value> {
    bound
        .iter()
        .map(|value| match value {
            SqlValue::Text(text) => Value::Text(text.clone()),
            SqlValue::Integer(number) => Value::Integer(*number),
        })
        .collect()
}

fn store() -> Connection {
    let conn = Connection::open_in_memory().unwrap();
    conn.execute_batch(
        "CREATE TABLE strings(id INTEGER PRIMARY KEY, text TEXT NOT NULL UNIQUE);
         CREATE TABLE records(id INTEGER PRIMARY KEY, namespace_id INTEGER, kind INTEGER, scope_id INTEGER);
         CREATE TABLE record_tags(record_id INTEGER, tag_id INTEGER);
         CREATE TABLE entities(record_id INTEGER);
         CREATE TABLE relations(record_id INTEGER, subject_id INTEGER, predicate_id INTEGER, object_id INTEGER);
         CREATE TABLE predicate_rules(predicate_id INTEGER, inverse_predicate_id INTEGER, is_symmetric INTEGER);
         INSERT INTO strings VALUES(1,'a'),(2,'b'),(3,'public'),(4,'knows');
         INSERT INTO entities VALUES(1),(2),(3);
         INSERT INTO relations VALUES(4,1,4,2);",
    )
    .unwrap();
    for (id, namespace, kind) in [
        (1, 1, RecordKind::Entity),
        (2, 1, RecordKind::Entity),
        (3, 2, RecordKind::Entity),
        (4, 1, RecordKind::Relation),
    ] {
        conn.execute("INSERT INTO records VALUES(?1,?2,?3,3)", (id, namespace, kind.code())).unwrap();
    }
    conn
}

/// A namespace's graph holds its own entities and relations, and nothing of the others.
#[test]
fn filter_isolates_namespaces() {
    let conn = store();
    let graph = |namespace: &str| -> GraphView {
        let filter = ReadFilter { namespace: namespace.to_string(), ..ReadFilter::default() };
        let (sql, bound) = entities_sql(&filter).unwrap();
        let mut stmt = conn.prepare(&sql).unwrap();
        let ids: Vec<i64> = stmt.query_map(params_from_iter(values(&bound)), |row| row.get(0)).unwrap().map(|id| id.unwrap()).collect();
        let (sql, bound) = relation_rows_sql(&filter).unwrap();
        let mut stmt = conn.prepare(&sql).unwrap();
        let rows: Vec<RelationRow> = stmt
            .query_map(params_from_iter(values(&bound)), |row| {
                Ok(RelationRow {
                    subject: row.get(0)?,
                    object: row.get(1)?,
                    predicate: row.get(2)?,
                    symmetric: row.get(3)?,
                    inverse: row.get(4)?,
                })
            })
            .unwrap()
            .map(|row| row.unwrap())
            .collect();
        view(&ids, &rows)
    };
    let a = graph("a");
    assert_eq!((a.node_count(), a.edge_count()), (2, 1));
    let b = graph("b");
    assert_eq!((b.node_count(), b.edge_count()), (1, 0));
}

#[test]
fn virtual_inverse_and_symmetric_edges_enable_reverse_queries() {
    let (son, father, jia, yi) = (1, 2, 3, 4);
    let entities = [son, father, jia, yi];
    let mut rows = vec![rel(son, "父亲", father), rel(jia, "同事", yi)];

    // Without rules edges lead one way only.
    let graph = view(&entities, &rows);
    assert!(graph.ego_ids(father, 1, 100).is_empty());
    assert_eq!(graph.path_ids(father, son), None);

    // An inverse leads back.
    check_predicate_rule("父亲", Some("子女"), false).unwrap();
    rows[0].inverse = Some("子女".to_string());
    rows[0].symmetric = Some(0);
    let graph = view(&entities, &rows);
    assert_eq!(graph.ego_ids(father, 1, 100), vec![son]);
    assert_eq!(graph.path_ids(father, son), Some(vec![father, son]));

    // A symmetric predicate is its own inverse.
    check_predicate_rule("同事", None, true).unwrap();
    rows[1].symmetric = Some(1);
    let graph = view(&entities, &rows);
    assert_eq!(graph.ego_ids(yi, 1, 100), vec![jia]);

    // A symmetric predicate has no other inverse.
    assert!(check_predicate_rule("同事", Some("同事"), true).is_err());
}

#[test]
fn same_as_contracts_alias_nodes() {
    let (lin, alias, mentor) = (1, 2, 3);
    let graph = view(&[lin, alias, mentor], &[rel(lin, "sys:same_as", alias), rel(alias, "导师", mentor)]);
    assert_eq!(graph.node_count(), 2);
    assert_eq!(graph.edge_count(), 1);
    assert_eq!(graph.ego_ids(lin, 1, 100), vec![mentor]);
    assert_eq!(graph.ego_ids(alias, 1, 100), vec![mentor]);
    let path = graph.path_ids(lin, mentor).unwrap();
    assert_eq!(path.len(), 2);
    assert!(path.contains(&mentor));
}

#[test]
fn neighbourhoods_stop_at_their_limits() {
    let graph = view(&[1, 2, 3, 4], &[rel(1, "p", 2), rel(2, "p", 3), rel(3, "p", 4), rel(4, "p", 1)]);
    assert_eq!(graph.ego_ids(1, 3, 100), vec![2, 3, 4]);
    assert_eq!(graph.ego_ids(1, 3, 2), vec![2, 3]);
    assert!(graph.ego_ids(1, 0, 100).is_empty());
    assert!(graph.ego_ids(9, 2, 100).is_empty());
    assert_eq!(graph.path_ids(1, 1), Some(vec![1]));
    assert_eq!(graph.path_ids(1, 9), None);
    let set = allowed_ids(1, &vec![2, 3]);
    assert!(set.contains(&1) && set.contains(&3) && set.len() == 3);
}

#[test]
fn edges_without_given_ends_are_nodes_too() {
    let edges = vec![GraphEdge { subject: 7, object: 8, predicate: "p".to_string() }];
    let graph = GraphView::build(&vec![], &edges);
    assert_eq!((graph.node_count(), graph.edge_count(), graph.component_count()), (2, 1, 1));
    assert!(graph.strongly_connected().is_empty());
}

#[test]
fn rules_are_checked() {
    assert!(matches!(check_predicate_rule(" ", None, false), Err(Error::Validation(_))));
    assert!(check_predicate_rule("父亲", None, false).is_ok());
}

/// Nearer entities come first, each once, and never the root, whatever it is called.
#[test]
fn neighbours_come_by_distance() {
    let rows = [rel(1, "p", 3), rel(1, "p", 2), rel(2, "p", 4), rel(3, "p", 4), rel(4, "p", 1), rel(4, "p", 5), rel(2, "p", 3), rel(6, "sys:same_as", 1)];
    let graph = view(&[1, 2, 3, 4, 5, 6], &rows);
    assert_eq!(graph.ego_ids(1, 9, 100), vec![2, 3, 4, 5]);
    assert_eq!(graph.ego_ids(6, 9, 100), vec![2, 3, 4, 5]);
    assert_eq!(graph.ego_ids(1, 9, 3), vec![2, 3, 4]);
}

/// Entities are one node where a chain says so, and only there.
#[test]
fn chains_of_names_are_one_node() {
    let rows = [rel(1, "sys:same_as", 2), rel(3, "sys:same_as", 2), rel(4, "sys:same_as", 5), rel(1, "p", 4), rel(6, "p", 3)];
    let graph = view(&[1, 2, 3, 4, 5, 6], &rows);
    assert_eq!(graph.node_count(), 3);
    assert_eq!(graph.ego_ids(3, 1, 100), graph.ego_ids(1, 1, 100));
    assert_eq!(graph.ego_ids(2, 1, 100), vec![5]);
    assert_eq!(graph.ego_ids(6, 1, 100), vec![2]);
}
