//! The entities and relations around a record in the graph.
//!
//! A record hangs on an entity where one of its tags is the entity's name or one of its aliases.
//! Its context is that entity and what lies one step away from it.

use crate::chars;
use crate::error::Error;
use crate::ids;
use crate::query;
use crate::query::{SqlValue, SqlValueView};
use crate::storage;
use crate::types::{ReadFilter, RecordKind};
use std::collections::HashSet;
use vstd::prelude::*;

verus! {

/// A relation and the entities at its ends.
#[derive(Debug, Clone, Copy, PartialEq, Eq, Structural)]
pub struct Edge {
    pub relation: i64,
    pub subject: i64,
    pub object: i64,
}

/// The query for the entities that records hang on.
pub fn record_entities_sql(record_ids: &Vec<i64>, filter: &ReadFilter) -> (out: Result<(String, Vec<SqlValue>), Error>)
    ensures
        storage::refused(out, storage::filter_error(filter@)),
        out matches Ok((sql, values)) ==> sql@
            == "SELECT DISTINCT rt.record_id, ea.entity_id FROM record_tags rt JOIN entity_aliases ea ON ea.alias_id=rt.tag_id JOIN records r ON r.id=ea.entity_id WHERE rt.record_id IN ("@
            + query::placeholder_text(record_ids@.len()) + ") AND "@ + query::filter_text(filter@, 1, false)
            + " ORDER BY rt.record_id, ea.entity_id"@ && query::value_views(values@) == query::id_values(record_ids@)
            + query::filter_values(filter@, seq![RecordKind::Entity]),
{
    let kinds = vec![RecordKind::Entity];
    assert(kinds@ == seq![RecordKind::Entity]);
    let (condition, mut filter_bound) = query::filter_sql(filter, &kinds, false)?;
    let mut sql = chars::concat(
        "SELECT DISTINCT rt.record_id, ea.entity_id FROM record_tags rt JOIN entity_aliases ea ON ea.alias_id=rt.tag_id JOIN records r ON r.id=ea.entity_id WHERE rt.record_id IN (",
        query::placeholders(record_ids.len()).as_str(),
    );
    sql.append(") AND ");
    sql.append(condition.as_str());
    sql.append(" ORDER BY rt.record_id, ea.entity_id");
    let mut values: Vec<SqlValue> = Vec::new();
    assert(query::value_views(values@) == Seq::<SqlValueView>::empty());
    query::push_ids(&mut values, record_ids);
    let ghost a = query::value_views(values@);
    let ghost b = query::value_views(filter_bound@);
    values.append(&mut filter_bound);
    assert(query::value_views(values@) == a + b);
    Ok((sql, values))
}

/// The query for the relations at given entities, with their ends.
pub fn incident_edges_sql(entity_ids: &Vec<i64>, filter: &ReadFilter) -> (out: Result<(String, Vec<SqlValue>), Error>)
    ensures
        storage::refused(out, storage::filter_error(filter@)),
        out matches Ok((sql, values)) ==> sql@
            == "SELECT rl.record_id, rl.subject_id, rl.object_id FROM relations rl JOIN records r ON r.id=rl.record_id WHERE (rl.subject_id IN ("@
            + query::placeholder_text(entity_ids@.len()) + ") OR rl.object_id IN ("@ + query::placeholder_text(entity_ids@.len())
            + ")) AND "@ + query::filter_text(filter@, 1, false) + " ORDER BY rl.record_id"@ && query::value_views(values@)
            == query::id_values(entity_ids@) + query::id_values(entity_ids@) + query::filter_values(filter@, seq![RecordKind::Relation]),
{
    let kinds = vec![RecordKind::Relation];
    assert(kinds@ == seq![RecordKind::Relation]);
    let (condition, mut filter_bound) = query::filter_sql(filter, &kinds, false)?;
    let marks = query::placeholders(entity_ids.len());
    let mut sql = chars::concat(
        "SELECT rl.record_id, rl.subject_id, rl.object_id FROM relations rl JOIN records r ON r.id=rl.record_id WHERE (rl.subject_id IN (",
        marks.as_str(),
    );
    sql.append(") OR rl.object_id IN (");
    sql.append(marks.as_str());
    sql.append(")) AND ");
    sql.append(condition.as_str());
    sql.append(" ORDER BY rl.record_id");
    let mut values: Vec<SqlValue> = Vec::new();
    assert(query::value_views(values@) == Seq::<SqlValueView>::empty());
    query::push_ids(&mut values, entity_ids);
    query::push_ids(&mut values, entity_ids);
    let ghost a = query::value_views(values@);
    let ghost b = query::value_views(filter_bound@);
    values.append(&mut filter_bound);
    assert(query::value_views(values@) == a + b);
    Ok((sql, values))
}

/// Which of the records around could be loaded under the filters that apply to each.
pub struct Loaded {
    /// The entities that records hang on.
    pub roots: HashSet<i64>,
    /// The entities at the ends of relations.
    pub endpoints: HashSet<i64>,
    pub relations: HashSet<i64>,
}

/// The context of one record: entities and relations in ascending order of their ids.
#[derive(Debug)]
pub struct Context {
    pub record: i64,
    pub entities: Vec<i64>,
    pub relations: Vec<i64>,
}

/// The end of an edge on the other side of `root`.
pub open spec fn far_end(edge: Edge, root: i64) -> i64 {
    if edge.subject == root {
        edge.object
    } else {
        edge.subject
    }
}

/// An edge at `root` whose relation and whose other end are there.
pub open spec fn reaches(edge: Edge, root: i64, loaded: Loaded) -> bool {
    &&& edge.subject == root || edge.object == root
    &&& loaded.relations@.contains(edge.relation)
    &&& loaded.endpoints@.contains(far_end(edge, root))
}

/// The first `limit` edges that lead on from `root`.
pub open spec fn taken_edges(edges: Seq<Edge>, root: i64, loaded: Loaded, limit: int) -> Seq<Edge>
    decreases edges.len(),
{
    if edges.len() == 0 {
        edges
    } else {
        let before = taken_edges(edges.drop_last(), root, loaded, limit);
        if reaches(edges.last(), root, loaded) && before.len() < limit {
            before.push(edges.last())
        } else {
            before
        }
    }
}

/// The first `limit` edges that lead on from `root`.
fn take_edges(edges: &Vec<Edge>, root: i64, loaded: &Loaded, limit: usize) -> (out: Vec<Edge>)
    ensures
        out@ == taken_edges(edges@, root, *loaded, limit as int),
{
    let mut out: Vec<Edge> = Vec::new();
    let mut i: usize = 0;
    assert(edges@.take(0) == Seq::<Edge>::empty());
    while i < edges.len()
        invariant
            i <= edges.len(),
            out@ == taken_edges(edges@.take(i as int), root, *loaded, limit as int),
        decreases edges.len() - i,
    {
        assert(edges@.take(i + 1).drop_last() == edges@.take(i as int));
        let edge = edges[i];
        if (edge.subject == root || edge.object == root) && out.len() < limit {
            let far: i64 = if edge.subject == root { edge.object } else { edge.subject };
            if loaded.relations.contains(&edge.relation) && loaded.endpoints.contains(&far) {
                out.push(edge);
            }
        }
        i = i + 1;
    }
    assert(edges@.take(edges@.len() as int) == edges@);
    out
}

/// The entities that a record hangs on.
pub open spec fn hangs_on(seeds: Seq<(i64, i64)>, record: i64, entity: i64) -> bool {
    seeds.contains((record, entity))
}

/// An entity is reached from one of the given roots.
pub open spec fn reached(edges: Seq<Edge>, roots: Seq<i64>, loaded: Loaded, limit: int, entity: i64) -> bool {
    exists|i: int, j: int|
        0 <= i < roots.len() && 0 <= j < taken_edges(edges, roots[i], loaded, limit).len() && far_end(
            #[trigger] taken_edges(edges, #[trigger] roots[i], loaded, limit)[j],
            roots[i],
        ) == entity
}

/// A relation leads on from one of the given roots.
pub open spec fn leads_on(edges: Seq<Edge>, roots: Seq<i64>, loaded: Loaded, limit: int, relation: i64) -> bool {
    exists|i: int, j: int|
        0 <= i < roots.len() && 0 <= j < taken_edges(edges, roots[i], loaded, limit).len() && (#[trigger] taken_edges(
            edges,
            #[trigger] roots[i],
            loaded,
            limit,
        )[j]).relation == relation
}

/// The first `limit` members of the ascending list of what leads on.
pub open spec fn relations_are(edges: Seq<Edge>, roots: Seq<i64>, loaded: Loaded, limit: int, out: Seq<i64>) -> bool {
    exists|all: Seq<i64>| #[trigger]
        query::increasing(all) && (forall|r: i64| #[trigger] all.contains(r) <==> leads_on(edges, roots, loaded, limit, r)) && out == (
        if all.len() <= limit {
            all
        } else {
            all.take(limit)
        })
}

/// The context of a record: the entities it hangs on as far as they are there, those one step away
/// from each of them, and the relations in between. Each root takes up to `limit` relations by
/// itself, and the whole shows up to `limit` of them.
pub open spec fn context_is(
    record: i64,
    seeds: Seq<(i64, i64)>,
    edges: Seq<Edge>,
    loaded: Loaded,
    limit: int,
    roots: Seq<i64>,
    out: Context,
) -> bool {
    &&& out.record == record
    &&& query::increasing(roots)
    &&& forall|e: i64| #[trigger] roots.contains(e) <==> hangs_on(seeds, record, e)
    &&& query::increasing(out.entities@)
    &&& forall|e: i64| #[trigger]
        out.entities@.contains(e) <==> (roots.contains(e) && loaded.roots@.contains(e)) || reached(edges, roots, loaded, limit, e)
    &&& relations_are(edges, roots, loaded, limit, out.relations@)
}

/// `out` is the context of its record.
pub open spec fn is_context(seeds: Seq<(i64, i64)>, edges: Seq<Edge>, loaded: Loaded, limit: int, out: Context) -> bool {
    exists|roots: Seq<i64>| #[trigger] context_is(out.record, seeds, edges, loaded, limit, roots, out)
}

/// The entities that a record hangs on, in ascending order.
fn roots_of(seeds: &Vec<(i64, i64)>, record: i64) -> (out: Vec<i64>)
    ensures
        query::increasing(out@),
        forall|e: i64| #[trigger] out@.contains(e) <==> hangs_on(seeds@, record, e),
{
    let mut out: Vec<i64> = Vec::new();
    let mut i: usize = 0;
    while i < seeds.len()
        invariant
            i <= seeds.len(),
            query::increasing(out@),
            forall|e: i64| #[trigger] out@.contains(e) <==> hangs_on(seeds@.take(i as int), record, e),
        decreases seeds.len() - i,
    {
        let ghost before = seeds@.take(i as int);
        let ghost after = seeds@.take(i + 1);
        let seed = seeds[i];
        proof {
            assert forall|e: i64| hangs_on(after, record, e) <==> hangs_on(before, record, e) || seed == (record, e) by {
                if before.contains((record, e)) {
                    let k = choose|k: int| 0 <= k < before.len() && before[k] == (record, e);
                    assert(after[k] == (record, e));
                }
                assert(after[i as int] == seed);
                if after.contains((record, e)) {
                    let k = choose|k: int| 0 <= k < after.len() && after[k] == (record, e);
                    if k < i {
                        assert(before[k] == (record, e));
                    }
                }
            }
        }
        if seed.0 == record {
            let _new = ids::insert_id(&mut out, seed.1);
        }
        i = i + 1;
    }
    assert(seeds@.take(seeds@.len() as int) == seeds@);
    out
}

/// The context of one record.
fn context_of(record: i64, seeds: &Vec<(i64, i64)>, edges: &Vec<Edge>, loaded: &Loaded, limit: usize) -> (out: Context)
    ensures
        out.record == record,
        is_context(seeds@, edges@, *loaded, limit as int, out),
{
    let roots = roots_of(seeds, record);
    let mut entities: Vec<i64> = Vec::new();
    let mut i: usize = 0;
    while i < roots.len()
        invariant
            i <= roots.len(),
            query::increasing(entities@),
            forall|e: i64| #[trigger]
                entities@.contains(e) <==> roots@.take(i as int).contains(e) && loaded.roots@.contains(e),
        decreases roots.len() - i,
    {
        proof {
            assert(roots@.take(i + 1) == roots@.take(i as int).push(roots@[i as int]));
            assert forall|e: i64| roots@.take(i + 1).contains(e) <==> roots@.take(i as int).contains(e) || e == roots@[i as int] by {
                ids::push_contains(roots@.take(i as int), roots@[i as int], e);
            }
        }
        if loaded.roots.contains(&roots[i]) {
            let _new = ids::insert_id(&mut entities, roots[i]);
        }
        i = i + 1;
    }
    assert(roots@.take(roots@.len() as int) == roots@);
    let mut relations: Vec<i64> = Vec::new();
    let mut k: usize = 0;
    while k < roots.len()
        invariant
            k <= roots.len(),
            query::increasing(entities@),
            query::increasing(relations@),
            forall|e: i64| #[trigger]
                entities@.contains(e) <==> (roots@.contains(e) && loaded.roots@.contains(e)) || reached(
                    edges@,
                    roots@.take(k as int),
                    *loaded,
                    limit as int,
                    e,
                ),
            forall|r: i64| #[trigger] relations@.contains(r) <==> leads_on(edges@, roots@.take(k as int), *loaded, limit as int, r),
        decreases roots.len() - k,
    {
        let root: i64 = roots[k];
        let taken = take_edges(edges, root, loaded, limit);
        let ghost before = roots@.take(k as int);
        let ghost after = roots@.take(k + 1);
        let mut j: usize = 0;
        while j < taken.len()
            invariant
                j <= taken.len(),
                taken@ == taken_edges(edges@, root, *loaded, limit as int),
                query::increasing(entities@),
                query::increasing(relations@),
                forall|e: i64| #[trigger]
                    entities@.contains(e) <==> (roots@.contains(e) && loaded.roots@.contains(e)) || reached(
                        edges@,
                        before,
                        *loaded,
                        limit as int,
                        e,
                    ) || ends_among(taken@, j as int, root, e),
                forall|r: i64| #[trigger]
                    relations@.contains(r) <==> leads_on(edges@, before, *loaded, limit as int, r) || relation_among(taken@, j as int, r),
            decreases taken.len() - j,
        {
            let edge = taken[j];
            let far: i64 = if edge.subject == root { edge.object } else { edge.subject };
            proof {
                assert forall|e: i64| ends_among(taken@, j + 1, root, e) <==> ends_among(taken@, j as int, root, e) || e == far by {
                    assert(far_end(taken@[j as int], root) == far);
                }
                assert forall|r: i64| relation_among(taken@, j + 1, r) <==> relation_among(taken@, j as int, r) || r == edge.relation by {
                    assert(taken@[j as int].relation == edge.relation);
                }
            }
            let _entity = ids::insert_id(&mut entities, far);
            let _relation = ids::insert_id(&mut relations, edge.relation);
            j = j + 1;
        }
        proof {
            one_more_root(edges@, roots@, *loaded, limit as int, k as int);
        }
        k = k + 1;
    }
    assert(roots@.take(roots@.len() as int) == roots@);
    let ghost all = relations@;
    if relations.len() > limit {
        relations.truncate(limit);
    }
    let out = Context { record, entities, relations };
    proof {
        assert(query::increasing(all));
        assert(context_is(record, seeds@, edges@, *loaded, limit as int, roots@, out));
    }
    out
}

/// One of the first `n` edges ends at `e` on the other side of `root`.
spec fn ends_among(taken: Seq<Edge>, n: int, root: i64, e: i64) -> bool {
    exists|j: int| 0 <= j < n && far_end(#[trigger] taken[j], root) == e
}

/// One of the first `n` edges is relation `r`.
spec fn relation_among(taken: Seq<Edge>, n: int, r: i64) -> bool {
    exists|j: int| 0 <= j < n && (#[trigger] taken[j]).relation == r
}

proof fn one_more_root(edges: Seq<Edge>, roots: Seq<i64>, loaded: Loaded, limit: int, k: int)
    requires
        0 <= k < roots.len(),
    ensures
        ({
            let taken = taken_edges(edges, roots[k], loaded, limit);
            &&& forall|e: i64|
                reached(edges, roots.take(k + 1), loaded, limit, e) <==> reached(edges, roots.take(k), loaded, limit, e) || ends_among(
                    taken,
                    taken.len() as int,
                    roots[k],
                    e,
                )
            &&& forall|r: i64|
                leads_on(edges, roots.take(k + 1), loaded, limit, r) <==> leads_on(edges, roots.take(k), loaded, limit, r)
                    || relation_among(taken, taken.len() as int, r)
        }),
{
    let before = roots.take(k);
    let after = roots.take(k + 1);
    let taken = taken_edges(edges, roots[k], loaded, limit);
    assert(after[k] == roots[k]);
    assert(forall|i: int| 0 <= i < k ==> before[i] == after[i]);
    assert forall|e: i64|
        reached(edges, after, loaded, limit, e) <==> reached(edges, before, loaded, limit, e) || ends_among(taken, taken.len() as int, roots[k], e) by {
        if reached(edges, before, loaded, limit, e) {
            let (i, j) = choose|i: int, j: int|
                0 <= i < before.len() && 0 <= j < taken_edges(edges, before[i], loaded, limit).len() && far_end(
                    #[trigger] taken_edges(edges, #[trigger] before[i], loaded, limit)[j],
                    before[i],
                ) == e;
            assert(far_end(taken_edges(edges, after[i], loaded, limit)[j], after[i]) == e);
        }
        if ends_among(taken, taken.len() as int, roots[k], e) {
            let j = choose|j: int| 0 <= j < taken.len() && far_end(#[trigger] taken[j], roots[k]) == e;
            assert(far_end(taken_edges(edges, after[k], loaded, limit)[j], after[k]) == e);
        }
        if reached(edges, after, loaded, limit, e) {
            let (i, j) = choose|i: int, j: int|
                0 <= i < after.len() && 0 <= j < taken_edges(edges, after[i], loaded, limit).len() && far_end(
                    #[trigger] taken_edges(edges, #[trigger] after[i], loaded, limit)[j],
                    after[i],
                ) == e;
            if i < k {
                assert(far_end(taken_edges(edges, before[i], loaded, limit)[j], before[i]) == e);
            } else {
                assert(far_end(taken[j], roots[k]) == e);
            }
        }
    }
    assert forall|r: i64|
        leads_on(edges, after, loaded, limit, r) <==> leads_on(edges, before, loaded, limit, r) || relation_among(taken, taken.len() as int, r) by {
        if leads_on(edges, before, loaded, limit, r) {
            let (i, j) = choose|i: int, j: int|
                0 <= i < before.len() && 0 <= j < taken_edges(edges, before[i], loaded, limit).len() && (#[trigger] taken_edges(
                    edges,
                    #[trigger] before[i],
                    loaded,
                    limit,
                )[j]).relation == r;
            assert(taken_edges(edges, after[i], loaded, limit)[j].relation == r);
        }
        if relation_among(taken, taken.len() as int, r) {
            let j = choose|j: int| 0 <= j < taken.len() && (#[trigger] taken[j]).relation == r;
            assert(taken_edges(edges, after[k], loaded, limit)[j].relation == r);
        }
        if leads_on(edges, after, loaded, limit, r) {
            let (i, j) = choose|i: int, j: int|
                0 <= i < after.len() && 0 <= j < taken_edges(edges, after[i], loaded, limit).len() && (#[trigger] taken_edges(
                    edges,
                    #[trigger] after[i],
                    loaded,
                    limit,
                )[j]).relation == r;
            if i < k {
                assert(taken_edges(edges, before[i], loaded, limit)[j].relation == r);
            } else {
                assert(taken[j].relation == r);
            }
        }
    }
}

/// The records of contexts.
pub open spec fn context_records(list: Seq<Context>) -> Seq<i64> {
    Seq::new(list.len(), |i: int| list[i].record)
}

/// An edge is one of a record's: an entity of the record stands at one end, and both the relation and
/// the other end could be read.
pub open spec fn edge_of_record(seeds: Seq<(i64, i64)>, record: i64, edge: Edge, loaded: Loaded) -> bool {
    &&& loaded.relations@.contains(edge.relation)
    &&& seeds.contains((record, edge.subject)) && loaded.endpoints@.contains(edge.object) || edge.subject != edge.object && seeds.contains(
        (record, edge.object),
    ) && loaded.endpoints@.contains(edge.subject)
}

/// A context keeps within its record and its limit. Its entities are those of the record that could be
/// read and ends of the record's edges; its relations are those of the record's edges, each once, in
/// order. Where there are fewer edges than the limit, the other end of every edge is there, and its
/// relation too unless the limit is reached.
pub proof fn contexts_stay_with_their_record(seeds: Seq<(i64, i64)>, edges: Seq<Edge>, loaded: Loaded, limit: int, out: Context)
    requires
        limit >= 0,
        is_context(seeds, edges, loaded, limit, out),
    ensures
        out.relations@.len() <= limit,
        forall|e: i64| seeds.contains((out.record, e)) && loaded.roots@.contains(e) ==> #[trigger] out.entities@.contains(e),
        forall|e: i64| #[trigger]
            out.entities@.contains(e) ==> seeds.contains((out.record, e)) && loaded.roots@.contains(e) || exists|k: int|
                0 <= k < edges.len() && edge_of_record(seeds, out.record, #[trigger] edges[k], loaded) && (edges[k].subject == e || edges[k].object == e),
        forall|r: i64| #[trigger]
            out.relations@.contains(r) ==> exists|k: int|
                0 <= k < edges.len() && (#[trigger] edges[k]).relation == r && edge_of_record(seeds, out.record, edges[k], loaded),
        forall|i: int, j: int| 0 <= i < j < out.relations@.len() ==> (#[trigger] out.relations@[i]) < (#[trigger] out.relations@[j]),
        edges.len() < limit && out.relations@.len() < limit ==> forall|k: int|
            0 <= k < edges.len() && edge_of_record(seeds, out.record, #[trigger] edges[k], loaded) ==> out.relations@.contains(edges[k].relation),
        edges.len() < limit ==> forall|k: int|
            0 <= k < edges.len() && loaded.relations@.contains((#[trigger] edges[k]).relation) && seeds.contains((out.record, edges[k].subject))
                && loaded.endpoints@.contains(edges[k].object) ==> out.entities@.contains(edges[k].object),
        edges.len() < limit ==> forall|k: int|
            0 <= k < edges.len() && loaded.relations@.contains((#[trigger] edges[k]).relation) && edges[k].subject != edges[k].object && seeds.contains(
                (out.record, edges[k].object),
            ) && loaded.endpoints@.contains(edges[k].subject) ==> out.entities@.contains(edges[k].subject),
{
    let roots = choose|roots: Seq<i64>| #[trigger] context_is(out.record, seeds, edges, loaded, limit, roots, out);
    let all = choose|all: Seq<i64>| #[trigger]
        query::increasing(all) && (forall|r: i64| #[trigger] all.contains(r) <==> leads_on(edges, roots, loaded, limit, r)) && out.relations@ == (
        if all.len() <= limit {
            all
        } else {
            all.take(limit)
        });
    assert forall|e: i64| seeds.contains((out.record, e)) && loaded.roots@.contains(e) implies #[trigger] out.entities@.contains(e) by {
        assert(hangs_on(seeds, out.record, e));
        assert(roots.contains(e));
    }
    assert forall|e: i64| #[trigger] out.entities@.contains(e) implies seeds.contains((out.record, e)) && loaded.roots@.contains(e) || exists|k: int|
        0 <= k < edges.len() && edge_of_record(seeds, out.record, #[trigger] edges[k], loaded) && (edges[k].subject == e || edges[k].object == e) by {
        if !(roots.contains(e) && loaded.roots@.contains(e)) {
            assert(reached(edges, roots, loaded, limit, e));
            let (i, j) = choose|i: int, j: int|
                0 <= i < roots.len() && 0 <= j < taken_edges(edges, roots[i], loaded, limit).len() && far_end(
                    #[trigger] taken_edges(edges, #[trigger] roots[i], loaded, limit)[j],
                    roots[i],
                ) == e;
            let k = taken_is_of_record(seeds, out.record, edges, roots, loaded, limit, i, j);
            assert(edge_of_record(seeds, out.record, edges[k], loaded));
        }
    }
    assert forall|r: i64| #[trigger] out.relations@.contains(r) implies exists|k: int|
        0 <= k < edges.len() && (#[trigger] edges[k]).relation == r && edge_of_record(seeds, out.record, edges[k], loaded) by {
        let at = choose|at: int| 0 <= at < out.relations@.len() && out.relations@[at] == r;
        assert(all[at] == r);
        assert(all.contains(r));
        assert(leads_on(edges, roots, loaded, limit, r));
        let (i, j) = choose|i: int, j: int|
            0 <= i < roots.len() && 0 <= j < taken_edges(edges, roots[i], loaded, limit).len() && (#[trigger] taken_edges(
                edges,
                #[trigger] roots[i],
                loaded,
                limit,
            )[j]).relation == r;
        let k = taken_is_of_record(seeds, out.record, edges, roots, loaded, limit, i, j);
        assert(edge_of_record(seeds, out.record, edges[k], loaded));
    }
    if edges.len() < limit {
        assert forall|k: int| 0 <= k < edges.len() && loaded.relations@.contains((#[trigger] edges[k]).relation) && seeds.contains(
            (out.record, edges[k].subject),
        ) && loaded.endpoints@.contains(edges[k].object) implies out.entities@.contains(edges[k].object) && leads_on(
            edges,
            roots,
            loaded,
            limit,
            edges[k].relation,
        ) by {
            edge_is_taken(seeds, out.record, edges, roots, loaded, limit, k, edges[k].subject);
        }
        assert forall|k: int| 0 <= k < edges.len() && loaded.relations@.contains((#[trigger] edges[k]).relation) && edges[k].subject != edges[k].object
            && seeds.contains((out.record, edges[k].object)) && loaded.endpoints@.contains(edges[k].subject) implies out.entities@.contains(
            edges[k].subject,
        ) && leads_on(edges, roots, loaded, limit, edges[k].relation) by {
            edge_is_taken(seeds, out.record, edges, roots, loaded, limit, k, edges[k].object);
        }
    }
    if edges.len() < limit && out.relations@.len() < limit {
        assert(out.relations@ == all);
        assert forall|k: int| 0 <= k < edges.len() && edge_of_record(seeds, out.record, #[trigger] edges[k], loaded) implies out.relations@.contains(
            edges[k].relation,
        ) by {
            assert(leads_on(edges, roots, loaded, limit, edges[k].relation));
            assert(all.contains(edges[k].relation));
        }
    }
}

proof fn taken_are_few(edges: Seq<Edge>, root: i64, loaded: Loaded, limit: int)
    ensures
        taken_edges(edges, root, loaded, limit).len() <= edges.len(),
    decreases edges.len(),
{
    if edges.len() > 0 {
        taken_are_few(edges.drop_last(), root, loaded, limit);
    }
}

proof fn taken_is_of_record(
    seeds: Seq<(i64, i64)>,
    record: i64,
    edges: Seq<Edge>,
    roots: Seq<i64>,
    loaded: Loaded,
    limit: int,
    i: int,
    j: int,
) -> (k: int)
    requires
        limit >= 0,
        0 <= i < roots.len(),
        0 <= j < taken_edges(edges, roots[i], loaded, limit).len(),
        forall|e: i64| #[trigger] roots.contains(e) <==> hangs_on(seeds, record, e),
    ensures
        0 <= k < edges.len(),
        edges[k] == taken_edges(edges, roots[i], loaded, limit)[j],
        edge_of_record(seeds, record, edges[k], loaded),
{
    let taken = taken_edges(edges, roots[i], loaded, limit);
    let edge = taken[j];
    assert(roots.contains(roots[i]));
    assert(taken.contains(edge));
    first_edges_are_taken(edges, roots[i], loaded, limit, edge);
    choose|k: int| 0 <= k < edges.len() && edges[k] == edge
}

proof fn edge_is_taken(
    seeds: Seq<(i64, i64)>,
    record: i64,
    edges: Seq<Edge>,
    roots: Seq<i64>,
    loaded: Loaded,
    limit: int,
    k: int,
    root: i64,
)
    requires
        0 <= k < edges.len() < limit,
        seeds.contains((record, root)),
        edges[k].subject == root || edges[k].object == root,
        loaded.relations@.contains(edges[k].relation),
        loaded.endpoints@.contains(if edges[k].subject == root { edges[k].object } else { edges[k].subject }),
        forall|e: i64| #[trigger] roots.contains(e) <==> hangs_on(seeds, record, e),
    ensures
        leads_on(edges, roots, loaded, limit, edges[k].relation),
        reached(edges, roots, loaded, limit, if edges[k].subject == root { edges[k].object } else { edges[k].subject }),
{
    assert(hangs_on(seeds, record, root));
    assert(roots.contains(root));
    let i = choose|i: int| 0 <= i < roots.len() && roots[i] == root;
    taken_are_few(edges, root, loaded, limit);
    first_edges_are_taken(edges, root, loaded, limit, edges[k]);
    assert(edges.contains(edges[k]));
    let taken = taken_edges(edges, roots[i], loaded, limit);
    let j = choose|j: int| 0 <= j < taken.len() && taken[j] == edges[k];
    assert(taken_edges(edges, roots[i], loaded, limit)[j].relation == edges[k].relation);
    assert(far_end(taken_edges(edges, roots[i], loaded, limit)[j], roots[i]) == if edges[k].subject == root { edges[k].object } else { edges[k].subject });
}

/// The context of every record that was asked for, in ascending order of the records. A record that
/// hangs on no entity has an empty one.
pub fn entity_contexts(
    record_ids: &Vec<i64>,
    seeds: &Vec<(i64, i64)>,
    edges: &Vec<Edge>,
    loaded: &Loaded,
    limit: usize,
) -> (out: Result<Vec<Context>, Error>)
    ensures
        storage::refused(out, storage::limit_error(limit as int)),
        out matches Ok(list) ==> {
            &&& query::increasing(context_records(list@))
            &&& forall|r: i64| #[trigger] context_records(list@).contains(r) <==> record_ids@.contains(r)
            &&& forall|i: int| 0 <= i < list@.len() ==> is_context(seeds@, edges@, *loaded, limit as int, #[trigger] list@[i])
        },
{
    storage::validate_limit(limit)?;
    let records = ids::sorted_ids(record_ids);
    let mut out: Vec<Context> = Vec::new();
    let mut i: usize = 0;
    while i < records.len()
        invariant
            i <= records.len(),
            context_records(out@) == records@.take(i as int),
            forall|k: int| 0 <= k < out@.len() ==> is_context(seeds@, edges@, *loaded, limit as int, #[trigger] out@[k]),
        decreases records.len() - i,
    {
        let ghost before = out@;
        let context = context_of(records[i], seeds, edges, loaded, limit);
        out.push(context);
        proof {
            assert(context_records(out@) == context_records(before).push(records@[i as int]));
            assert(records@.take(i + 1) == records@.take(i as int).push(records@[i as int]));
            assert forall|k: int| 0 <= k < out@.len() implies is_context(seeds@, edges@, *loaded, limit as int, #[trigger] out@[k]) by {
                if k < before.len() {
                    assert(out@[k] == before[k]);
                }
            }
        }
        i = i + 1;
    }
    assert(records@.take(records@.len() as int) == records@);
    Ok(out)
}

/// Of the edges at an entity the first are taken, up to the limit, and all where the limit is not
/// reached. An edge counts where it has the entity at one end, and both its relation and its other
/// end could be read; each entity reached is that other end.
pub proof fn first_edges_are_taken(edges: Seq<Edge>, root: i64, loaded: Loaded, limit: int, edge: Edge)
    requires
        limit >= 0,
    ensures
        ({
            let taken = taken_edges(edges, root, loaded, limit);
            let counts = edge.subject == root && loaded.relations@.contains(edge.relation) && loaded.endpoints@.contains(edge.object) || edge.subject
                != root && edge.object == root && loaded.relations@.contains(edge.relation) && loaded.endpoints@.contains(edge.subject);
            &&& taken.len() <= limit
            &&& taken.contains(edge) ==> edges.contains(edge) && counts
            &&& taken.len() < limit && edges.contains(edge) && counts ==> taken.contains(edge)
            &&& edges.len() > 0 ==> taken_edges(edges.drop_last(), root, loaded, limit).is_prefix_of(taken)
            &&& edge.subject == root ==> far_end(edge, root) == edge.object
            &&& edge.subject != root ==> far_end(edge, root) == edge.subject
        }),
    decreases edges.len(),
{
    if edges.len() > 0 {
        let rest = edges.drop_last();
        let before = taken_edges(rest, root, loaded, limit);
        let taken = taken_edges(edges, root, loaded, limit);
        first_edges_are_taken(rest, root, loaded, limit, edge);
        assert(edges[edges.len() - 1] == edges.last());
        if rest.contains(edge) {
            let k = choose|k: int| 0 <= k < rest.len() && rest[k] == edge;
            assert(edges[k] == edge);
        }
        if taken.contains(edge) && !before.contains(edge) {
            let k = choose|k: int| 0 <= k < taken.len() && taken[k] == edge;
            if k < before.len() {
                assert(before[k] == edge);
            }
        }
        if before.contains(edge) {
            let k = choose|k: int| 0 <= k < before.len() && before[k] == edge;
            assert(taken[k] == edge);
        }
        if edges.contains(edge) && !rest.contains(edge) {
            let k = choose|k: int| 0 <= k < edges.len() && edges[k] == edge;
            if k < rest.len() {
                assert(rest[k] == edge);
            }
            if taken.len() > before.len() {
                assert(taken[before.len() as int] == edges.last());
            }
        }
    }
}

/// What leads on from a root touches the root, was loaded, and is no more than the limit.
pub proof fn taken_edges_are_limited(edges: Seq<Edge>, root: i64, loaded: Loaded, limit: int)
    requires
        limit >= 0,
    ensures
        taken_edges(edges, root, loaded, limit).len() <= limit,
        forall|i: int|
            0 <= i < taken_edges(edges, root, loaded, limit).len() ==> reaches(
                #[trigger] taken_edges(edges, root, loaded, limit)[i],
                root,
                loaded,
            ),
    decreases edges.len(),
{
    if edges.len() > 0 {
        taken_edges_are_limited(edges.drop_last(), root, loaded, limit);
    }
}

/// A record that hangs on no entity has nothing around it.
pub proof fn loose_record_has_no_context(
    record: i64,
    seeds: Seq<(i64, i64)>,
    edges: Seq<Edge>,
    loaded: Loaded,
    limit: int,
    roots: Seq<i64>,
    out: Context,
)
    requires
        limit >= 0,
        context_is(record, seeds, edges, loaded, limit, roots, out),
        forall|e: i64| !hangs_on(seeds, record, e),
    ensures
        out.entities@.len() == 0,
        out.relations@.len() == 0,
{
    if roots.len() > 0 {
        assert(roots.contains(roots[0]));
    }
    if out.entities@.len() > 0 {
        assert(out.entities@.contains(out.entities@[0]));
    }
    let all = choose|all: Seq<i64>| #[trigger]
        query::increasing(all) && (forall|r: i64| #[trigger] all.contains(r) <==> leads_on(edges, roots, loaded, limit, r))
            && out.relations@ == (if all.len() <= limit {
            all
        } else {
            all.take(limit)
        });
    if all.len() > 0 {
        assert(all.contains(all[0]));
    }
}

/// The relations of edges, in order.
pub open spec fn relations_of(edges: Seq<Edge>) -> Seq<i64> {
    Seq::new(edges.len(), |i: int| edges[i].relation)
}

/// What lies one step away from an entity: up to `limit` relations in the order of the edges, and
/// the entities at their other ends in ascending order.
pub fn neighbors(root: i64, edges: &Vec<Edge>, loaded: &Loaded, limit: usize) -> (out: Result<Context, Error>)
    ensures
        storage::refused(out, storage::limit_error(limit as int)),
        out matches Ok(context) ==> {
            let taken = taken_edges(edges@, root, *loaded, limit as int);
            &&& context.record == root
            &&& context.relations@ == relations_of(taken)
            &&& query::increasing(context.entities@)
            &&& forall|e: i64| #[trigger]
                context.entities@.contains(e) <==> exists|j: int| 0 <= j < taken.len() && far_end(#[trigger] taken[j], root) == e
        },
{
    storage::validate_limit(limit)?;
    let taken = take_edges(edges, root, loaded, limit);
    let mut entities: Vec<i64> = Vec::new();
    let mut relations: Vec<i64> = Vec::new();
    let mut i: usize = 0;
    while i < taken.len()
        invariant
            i <= taken.len(),
            query::increasing(entities@),
            forall|e: i64| #[trigger] entities@.contains(e) <==> ends_among(taken@, i as int, root, e),
            relations@ == relations_of(taken@).take(i as int),
        decreases taken.len() - i,
    {
        let edge = taken[i];
        let far: i64 = if edge.subject == root { edge.object } else { edge.subject };
        proof {
            assert forall|e: i64| ends_among(taken@, i + 1, root, e) <==> ends_among(taken@, i as int, root, e) || e == far by {
                assert(far_end(taken@[i as int], root) == far);
            }
        }
        let _new = ids::insert_id(&mut entities, far);
        relations.push(edge.relation);
        assert(relations_of(taken@).take(i + 1) == relations_of(taken@).take(i as int).push(edge.relation));
        i = i + 1;
    }
    assert(relations_of(taken@).take(taken@.len() as int) == relations_of(taken@));
    proof {
        let list = taken_edges(edges@, root, *loaded, limit as int);
        assert forall|e: i64| #[trigger] entities@.contains(e) <==> exists|j: int| 0 <= j < list.len() && far_end(#[trigger] list[j], root) == e by {
            assert(ends_among(taken@, taken@.len() as int, root, e) <==> entities@.contains(e));
        }
    }
    Ok(Context { record: root, entities, relations })
}

} // verus!
