//! Searching the graph of entities: neighbourhoods, paths and parts.
//!
//! The relations of a store are read into a graph in memory, which is dropped after use. Entities
//! that are the same under different names are one node there.

use crate::chars;
use crate::error::{Error, ErrorView};
use crate::ids;
use crate::network;
use crate::ordering;
use crate::storage;
use std::collections::{HashMap, HashSet};
use vstd::prelude::*;

verus! {

// ── Edges ─────────────────────────────────────────────────────────────

/// A relation as it is stored, with the rule of its predicate.
#[derive(Debug)]
pub struct RelationRow {
    pub subject: i64,
    pub object: i64,
    pub predicate: String,
    /// Whether a rule says that the predicate reads the same both ways.
    pub symmetric: Option<i64>,
    /// The predicate that a rule gives for the way back.
    pub inverse: Option<String>,
}

/// A directed edge between two entities.
#[derive(Debug)]
pub struct GraphEdge {
    pub subject: i64,
    pub object: i64,
    pub predicate: String,
}

/// An edge with its predicate as characters.
pub struct EdgeView {
    pub subject: i64,
    pub object: i64,
    pub predicate: Seq<char>,
}

impl View for GraphEdge {
    type V = EdgeView;

    open spec fn view(&self) -> EdgeView {
        EdgeView { subject: self.subject, object: self.object, predicate: self.predicate@ }
    }
}

/// The edges with their predicates as characters.
pub open spec fn edge_views(edges: Seq<GraphEdge>) -> Seq<EdgeView> {
    Seq::new(edges.len(), |i: int| edges[i]@)
}

/// The edges that a relation stands for: its own, and the way back where a rule gives one.
pub open spec fn row_edges(row: RelationRow) -> Seq<EdgeView> {
    let own = EdgeView { subject: row.subject, object: row.object, predicate: row.predicate@ };
    if row.symmetric == Some(1i64) {
        seq![own, EdgeView { subject: row.object, object: row.subject, predicate: row.predicate@ }]
    } else {
        match row.inverse {
            Some(inverse) => seq![own, EdgeView { subject: row.object, object: row.subject, predicate: inverse@ }],
            None => seq![own],
        }
    }
}

/// The edges of all relations, in order.
pub open spec fn rows_edges(rows: Seq<RelationRow>) -> Seq<EdgeView>
    decreases rows.len(),
{
    if rows.len() == 0 {
        Seq::empty()
    } else {
        rows_edges(rows.drop_last()) + row_edges(rows.last())
    }
}

/// Every relation is an edge. A symmetric predicate also leads back under its own name, one with an
/// inverse under that of the inverse. There is no other edge.
pub proof fn edges_follow_the_rules(rows: Seq<RelationRow>, e: EdgeView)
    ensures
        rows_edges(rows).contains(e) <==> exists|k: int|
            0 <= k < rows.len() && ({
                let row = #[trigger] rows[k];
                ||| e.subject == row.subject && e.object == row.object && e.predicate == row.predicate@
                ||| e.subject == row.object && e.object == row.subject && row.symmetric == Some(1i64) && e.predicate == row.predicate@
                ||| e.subject == row.object && e.object == row.subject && row.symmetric != Some(1i64) && (row.inverse matches Some(inverse)
                    && e.predicate == inverse@)
            }),
    decreases rows.len(),
{
    if rows.len() > 0 {
        let rest = rows.drop_last();
        let row = rows.last();
        let before = rows_edges(rest);
        let own = row_edges(row);
        let all = rows_edges(rows);
        let n = rows.len() - 1;
        edges_follow_the_rules(rest, e);
        assert(rows[n] == row);
        assert(own[0] == (EdgeView { subject: row.subject, object: row.object, predicate: row.predicate@ }));
        if before.contains(e) {
            let j = choose|j: int| 0 <= j < before.len() && before[j] == e;
            assert(all[j] == e);
            let k = choose|k: int|
                0 <= k < rest.len() && ({
                    let row = #[trigger] rest[k];
                    ||| e.subject == row.subject && e.object == row.object && e.predicate == row.predicate@
                    ||| e.subject == row.object && e.object == row.subject && row.symmetric == Some(1i64) && e.predicate == row.predicate@
                    ||| e.subject == row.object && e.object == row.subject && row.symmetric != Some(1i64) && (row.inverse matches Some(inverse)
                        && e.predicate == inverse@)
                });
            assert(rows[k] == rest[k]);
        }
        if all.contains(e) && !before.contains(e) {
            let j = choose|j: int| 0 <= j < all.len() && all[j] == e;
            if j < before.len() {
                assert(before[j] == e);
            } else {
                assert(own[j - before.len()] == e);
            }
        }
        if exists|k: int|
            0 <= k < rows.len() && ({
                let row = #[trigger] rows[k];
                ||| e.subject == row.subject && e.object == row.object && e.predicate == row.predicate@
                ||| e.subject == row.object && e.object == row.subject && row.symmetric == Some(1i64) && e.predicate == row.predicate@
                ||| e.subject == row.object && e.object == row.subject && row.symmetric != Some(1i64) && (row.inverse matches Some(inverse)
                    && e.predicate == inverse@)
            }) {
            let k = choose|k: int|
                0 <= k < rows.len() && ({
                    let row = #[trigger] rows[k];
                    ||| e.subject == row.subject && e.object == row.object && e.predicate == row.predicate@
                    ||| e.subject == row.object && e.object == row.subject && row.symmetric == Some(1i64) && e.predicate == row.predicate@
                    ||| e.subject == row.object && e.object == row.subject && row.symmetric != Some(1i64) && (row.inverse matches Some(inverse)
                        && e.predicate == inverse@)
                });
            if k < n {
                assert(rest[k] == rows[k]);
                assert(before.contains(e));
            } else {
                assert(all[before.len() as int] == own[0]);
                if own.len() > 1 {
                    assert(all[before.len() as int + 1] == own[1]);
                }
                if own[0] == e {
                    assert(all[before.len() as int] == e);
                } else {
                    assert(own[1] == e);
                    assert(all[before.len() as int + 1] == e);
                }
            }
        }
    }
}

/// Appends an edge.
fn push_edge(edges: &mut Vec<GraphEdge>, subject: i64, object: i64, predicate: String)
    ensures
        edge_views(final(edges)@) == edge_views(old(edges)@).push(EdgeView { subject, object, predicate: predicate@ }),
{
    let ghost before = edge_views(edges@);
    edges.push(GraphEdge { subject, object, predicate });
    assert(edge_views(edges@) == before.push(EdgeView { subject, object, predicate: predicate@ }));
}

/// The edges of stored relations, with those that only rules give. A graph is directed, so that
/// without a rule no edge leads back.
pub fn with_virtual_edges(rows: &Vec<RelationRow>) -> (out: Vec<GraphEdge>)
    ensures
        edge_views(out@) == rows_edges(rows@),
{
    let mut out: Vec<GraphEdge> = Vec::new();
    let mut i: usize = 0;
    assert(rows@.take(0) == Seq::<RelationRow>::empty());
    assert(edge_views(out@) == rows_edges(rows@.take(0)));
    while i < rows.len()
        invariant
            i <= rows.len(),
            edge_views(out@) == rows_edges(rows@.take(i as int)),
        decreases rows.len() - i,
    {
        assert(rows@.take(i + 1).drop_last() == rows@.take(i as int));
        let ghost before = edge_views(out@);
        let row = &rows[i];
        push_edge(&mut out, row.subject, row.object, row.predicate.clone());
        let symmetric = match row.symmetric {
            Some(flag) => flag == 1,
            None => false,
        };
        if symmetric {
            push_edge(&mut out, row.object, row.subject, row.predicate.clone());
        } else if let Some(inverse) = &row.inverse {
            push_edge(&mut out, row.object, row.subject, inverse.clone());
        }
        assert(edge_views(out@) == before + row_edges(rows@[i as int]));
        i = i + 1;
    }
    assert(rows@.take(rows@.len() as int) == rows@);
    out
}

/// A relation under a rule is an edge both ways.
pub proof fn rules_lead_back(rows: Seq<RelationRow>, k: int)
    requires
        0 <= k < rows.len(),
        rows[k].symmetric == Some(1i64) || rows[k].inverse is Some,
    ensures
        exists|i: int| 0 <= i < rows_edges(rows).len() && (#[trigger] rows_edges(rows)[i]).subject == rows[k].subject
            && rows_edges(rows)[i].object == rows[k].object && rows_edges(rows)[i].predicate == rows[k].predicate@,
        exists|i: int| 0 <= i < rows_edges(rows).len() && (#[trigger] rows_edges(rows)[i]).subject == rows[k].object
            && rows_edges(rows)[i].object == rows[k].subject,
    decreases rows.len(),
{
    let before = rows_edges(rows.drop_last());
    let all = rows_edges(rows);
    if k < rows.len() - 1 {
        rules_lead_back(rows.drop_last(), k);
        let i = choose|i: int| 0 <= i < before.len() && (#[trigger] before[i]).subject == rows[k].subject
            && before[i].object == rows[k].object && before[i].predicate == rows[k].predicate@;
        assert(all[i] == before[i]);
        let j = choose|j: int| 0 <= j < before.len() && (#[trigger] before[j]).subject == rows[k].object
            && before[j].object == rows[k].subject;
        assert(all[j] == before[j]);
    } else {
        assert(all[before.len() as int] == row_edges(rows[k])[0]);
        assert(all[before.len() as int + 1] == row_edges(rows[k])[1]);
    }
}

// ── One node for entities that are the same ───────────────────────────

/// The predicate that says that two entities are the same.
pub open spec fn same_as() -> Seq<char> {
    "sys:same_as"@
}

/// The entity that stands for `x` after all edges that say that two entities are the same: with
/// each such edge, what the subject stood under stands under what the object stands under.
pub open spec fn representative(edges: Seq<EdgeView>, x: i64) -> i64
    decreases edges.len(),
{
    if edges.len() == 0 {
        x
    } else {
        let before = edges.drop_last();
        let edge = edges.last();
        if edge.predicate == same_as() && representative(before, x) == representative(before, edge.subject) {
            representative(before, edge.object)
        } else {
            representative(before, x)
        }
    }
}

/// What stands for an entity stands for itself.
pub proof fn representative_stands_for_itself(edges: Seq<EdgeView>, x: i64)
    ensures
        representative(edges, representative(edges, x)) == representative(edges, x),
    decreases edges.len(),
{
    if edges.len() > 0 {
        let before = edges.drop_last();
        representative_stands_for_itself(before, x);
        representative_stands_for_itself(before, edges.last().object);
        representative_stands_for_itself(before, edges.last().subject);
    }
}

/// Where two entities are said to be the same, what stands for the object then stands for both; no
/// other predicate changes what stands for an entity.
pub proof fn object_stands_for_both(edges: Seq<EdgeView>, edge: EdgeView, x: i64)
    ensures
        edge.predicate == "sys:same_as"@ ==> representative(edges.push(edge), edge.subject) == representative(edges, edge.object)
            && representative(edges.push(edge), edge.object) == representative(edges, edge.object),
        edge.predicate == "sys:same_as"@ && representative(edges, x) != representative(edges, edge.subject) ==> representative(
            edges.push(edge),
            x,
        ) == representative(edges, x),
        edge.predicate != "sys:same_as"@ ==> representative(edges.push(edge), x) == representative(edges, x),
        representative(Seq::<EdgeView>::empty(), x) == x,
{
    assert(edges.push(edge).drop_last() == edges);
}

/// Entities that an edge says are the same are one node.
pub proof fn same_entities_are_one(edges: Seq<EdgeView>, k: int)
    requires
        0 <= k < edges.len(),
        edges[k].predicate == same_as(),
    ensures
        representative(edges, edges[k].subject) == representative(edges, edges[k].object),
    decreases edges.len(),
{
    let before = edges.drop_last();
    if k < edges.len() - 1 {
        same_entities_are_one(before, k);
    }
}

/// Where no edge says that entities are the same, each stands for itself.
pub proof fn others_stand_for_themselves(edges: Seq<EdgeView>, x: i64)
    requires
        forall|k: int| 0 <= k < edges.len() ==> (#[trigger] edges[k]).predicate != same_as(),
    ensures
        representative(edges, x) == x,
    decreases edges.len(),
{
    if edges.len() > 0 {
        assert(edges[edges.len() - 1].predicate != same_as());
        let before = edges.drop_last();
        assert forall|k: int| 0 <= k < before.len() implies (#[trigger] before[k]).predicate != same_as() by {
            assert(edges[k].predicate != same_as());
        }
        others_stand_for_themselves(before, x);
    }
}

/// An edge says that `a` and `b` are the same, whatever its direction.
pub open spec fn said_same(edges: Seq<EdgeView>, a: i64, b: i64) -> bool {
    exists|k: int|
        0 <= k < edges.len() && (#[trigger] edges[k]).predicate == same_as() && (edges[k].subject == a && edges[k].object == b
            || edges[k].subject == b && edges[k].object == a)
}

/// `p` leads from `a` to `b`, and an edge says of each two neighbours in it that they are the same.
pub open spec fn same_chain(edges: Seq<EdgeView>, p: Seq<i64>, a: i64, b: i64) -> bool {
    &&& p.len() > 0
    &&& p[0] == a
    &&& p.last() == b
    &&& forall|i: int| 0 < i < p.len() ==> said_same(edges, p[i - 1], #[trigger] p[i])
}

/// A chain of edges says that `a` and `b` are the same.
pub open spec fn chained(edges: Seq<EdgeView>, a: i64, b: i64) -> bool {
    exists|p: Seq<i64>| same_chain(edges, p, a, b)
}

proof fn chain_of_one(edges: Seq<EdgeView>, a: i64)
    ensures
        chained(edges, a, a),
{
    assert(same_chain(edges, seq![a], a, a));
}

proof fn chain_of_edge(edges: Seq<EdgeView>, a: i64, b: i64)
    requires
        said_same(edges, a, b),
    ensures
        chained(edges, a, b),
{
    let p = seq![a, b];
    assert forall|i: int| 0 < i < p.len() implies said_same(edges, p[i - 1], #[trigger] p[i]) by {
        assert(i == 1);
    }
    assert(same_chain(edges, p, a, b));
}

proof fn chains_meet(edges: Seq<EdgeView>, a: i64, b: i64, c: i64)
    requires
        chained(edges, a, b),
        chained(edges, b, c),
    ensures
        chained(edges, a, c),
{
    let p = choose|p: Seq<i64>| same_chain(edges, p, a, b);
    let q = choose|q: Seq<i64>| same_chain(edges, q, b, c);
    let all = p + q.drop_first();
    assert forall|i: int| 0 < i < all.len() implies said_same(edges, all[i - 1], #[trigger] all[i]) by {
        if i < p.len() {
            assert(all[i] == p[i] && all[i - 1] == p[i - 1]);
        } else {
            let k = i - p.len() + 1;
            assert(all[i] == q[k]);
            assert(all[i - 1] == q[k - 1]);
        }
    }
    assert(all.last() == c);
    assert(same_chain(edges, all, a, c));
}

proof fn chain_turns(edges: Seq<EdgeView>, a: i64, b: i64)
    requires
        chained(edges, a, b),
    ensures
        chained(edges, b, a),
{
    let p = choose|p: Seq<i64>| same_chain(edges, p, a, b);
    let back = p.reverse();
    assert forall|i: int| 0 < i < back.len() implies said_same(edges, back[i - 1], #[trigger] back[i]) by {
        let k = p.len() - i;
        assert(said_same(edges, p[k - 1], p[k]));
        assert(back[i - 1] == p[k] && back[i] == p[k - 1]);
        let n = choose|n: int|
            0 <= n < edges.len() && (#[trigger] edges[n]).predicate == same_as() && (edges[n].subject == p[k - 1] && edges[n].object == p[k]
                || edges[n].subject == p[k] && edges[n].object == p[k - 1]);
        assert(edges[n].predicate == same_as());
    }
    assert(same_chain(edges, back, b, a));
}

proof fn chain_stays(edges: Seq<EdgeView>, a: i64, b: i64)
    requires
        edges.len() > 0,
        chained(edges.drop_last(), a, b),
    ensures
        chained(edges, a, b),
{
    let before = edges.drop_last();
    let p = choose|p: Seq<i64>| same_chain(before, p, a, b);
    assert forall|i: int| 0 < i < p.len() implies said_same(edges, p[i - 1], #[trigger] p[i]) by {
        assert(said_same(before, p[i - 1], p[i]));
        let n = choose|n: int|
            0 <= n < before.len() && (#[trigger] before[n]).predicate == same_as() && (before[n].subject == p[i - 1] && before[n].object == p[i]
                || before[n].subject == p[i] && before[n].object == p[i - 1]);
        assert(edges[n] == before[n]);
    }
    assert(same_chain(edges, p, a, b));
}

proof fn chained_to_representative(edges: Seq<EdgeView>, x: i64)
    ensures
        chained(edges, x, representative(edges, x)),
    decreases edges.len(),
{
    if edges.len() == 0 {
        chain_of_one(edges, x);
    } else {
        let before = edges.drop_last();
        let edge = edges.last();
        chained_to_representative(before, x);
        chain_stays(edges, x, representative(before, x));
        if edge.predicate == same_as() && representative(before, x) == representative(before, edge.subject) {
            chained_to_representative(before, edge.subject);
            chained_to_representative(before, edge.object);
            chain_stays(edges, edge.subject, representative(before, edge.subject));
            chain_stays(edges, edge.object, representative(before, edge.object));
            chain_turns(edges, edge.subject, representative(before, edge.subject));
            assert(edges[edges.len() - 1] == edge);
            chain_of_edge(edges, edge.subject, edge.object);
            chains_meet(edges, x, representative(before, x), edge.subject);
            chains_meet(edges, x, edge.subject, edge.object);
            chains_meet(edges, x, edge.object, representative(before, edge.object));
        }
    }
}

proof fn chain_keeps_representative(edges: Seq<EdgeView>, p: Seq<i64>, a: i64, b: i64)
    requires
        same_chain(edges, p, a, b),
    ensures
        representative(edges, a) == representative(edges, b),
    decreases p.len(),
{
    if p.len() > 1 {
        let shorter = p.drop_last();
        let c = shorter.last();
        assert forall|i: int| 0 < i < shorter.len() implies said_same(edges, shorter[i - 1], #[trigger] shorter[i]) by {
            assert(shorter[i] == p[i] && shorter[i - 1] == p[i - 1]);
        }
        chain_keeps_representative(edges, shorter, a, c);
        assert(said_same(edges, p[p.len() - 2], p[p.len() - 1]));
        let k = choose|k: int|
            0 <= k < edges.len() && (#[trigger] edges[k]).predicate == same_as() && (edges[k].subject == c && edges[k].object == b
                || edges[k].subject == b && edges[k].object == c);
        same_entities_are_one(edges, k);
    }
}

/// Two entities are one node exactly where a chain of edges says that they are the same.
pub proof fn one_node_iff_chained(edges: Seq<EdgeView>, x: i64, y: i64)
    ensures
        representative(edges, x) == representative(edges, y) <==> chained(edges, x, y),
{
    if representative(edges, x) == representative(edges, y) {
        chained_to_representative(edges, x);
        chained_to_representative(edges, y);
        chain_turns(edges, y, representative(edges, y));
        chains_meet(edges, x, representative(edges, x), y);
    }
    if chained(edges, x, y) {
        let p = choose|p: Seq<i64>| same_chain(edges, p, x, y);
        chain_keeps_representative(edges, p, x, y);
    }
}

/// One more edge that says that two entities are the same puts what was one node with the first
/// and what was one node with the second together, and nothing else.
pub proof fn edge_joins_two_nodes(edges: Seq<EdgeView>, edge: EdgeView, x: i64, y: i64)
    requires
        edge.predicate == same_as(),
    ensures
        representative(edges.push(edge), edge.subject) == representative(edges.push(edge), edge.object),
        representative(edges.push(edge), x) == representative(edges.push(edge), y) <==> {
            ||| representative(edges, x) == representative(edges, y)
            ||| representative(edges, x) == representative(edges, edge.subject) && representative(edges, y) == representative(edges, edge.object)
            ||| representative(edges, x) == representative(edges, edge.object) && representative(edges, y) == representative(edges, edge.subject)
        },
{
    assert(edges.push(edge).drop_last() == edges);
}

/// Sets of ids that grow together. Each id leads to the one above it, up to the one that stands for
/// its set.
struct UnionFind {
    parent: HashMap<i64, i64>,
    /// What stands for each id.
    tops: Ghost<Map<i64, i64>>,
    /// A measure that falls on the way up.
    height: Ghost<Map<i64, nat>>,
}

impl UnionFind {
    spec fn top(self, x: i64) -> i64 {
        if self.tops@.contains_key(x) {
            self.tops@[x]
        } else {
            x
        }
    }

    /// `x` leads up to what stands for it.
    spec fn linked(self, x: i64) -> bool {
        let up = self.parent@[x];
        let top = self.tops@[x];
        &&& self.parent@.contains_key(up)
        &&& self.tops@[up] == top
        &&& self.parent@.contains_key(top)
        &&& self.tops@[top] == top
        &&& (up == x <==> top == x)
        &&& (up != x ==> self.height@[up] < self.height@[x])
        &&& (top != x ==> self.height@[top] < self.height@[x])
    }

    spec fn wf(self) -> bool {
        &&& self.tops@.dom() == self.parent@.dom()
        &&& self.height@.dom() == self.parent@.dom()
        &&& forall|x: i64| self.parent@.contains_key(x) ==> #[trigger] self.linked(x)
    }

    fn new() -> (out: Self)
        ensures
            out.wf(),
            forall|x: i64| #[trigger] out.top(x) == x,
    {
        let out = UnionFind { parent: HashMap::new(), tops: Ghost(Map::empty()), height: Ghost(Map::empty()) };
        assert(out.tops@.dom() == out.parent@.dom());
        assert(out.height@.dom() == out.parent@.dom());
        out
    }

    /// What stands for `x`. The way up is shortened for the next time.
    fn find(&mut self, x: i64) -> (out: i64)
        requires
            old(self).wf(),
        ensures
            final(self).wf(),
            out == old(self).top(x),
            final(self).top(out) == out,
            forall|y: i64| #[trigger] final(self).top(y) == old(self).top(y),
            final(self).parent@.contains_key(x),
            final(self).parent@.contains_key(out),
            forall|y: i64| #[trigger] old(self).parent@.contains_key(y) ==> final(self).parent@.contains_key(y),
    {
        let ghost start = *self;
        let present = self.parent.contains_key(&x);
        if !present {
            self.parent.insert(x, x);
            self.tops = Ghost(self.tops@.insert(x, x));
            self.height = Ghost(self.height@.insert(x, 0));
            proof {
                assert(self.tops@.dom() == self.parent@.dom());
                assert(self.height@.dom() == self.parent@.dom());
                assert forall|y: i64| self.parent@.contains_key(y) implies #[trigger] self.linked(y) by {
                    if y != x {
                        assert(start.linked(y));
                    }
                }
            }
            return x;
        }
        let mut root: i64 = x;
        let mut above: i64 = *self.parent.get(&root).unwrap();
        assert(self.linked(x));
        while above != root
            invariant
                self.wf(),
                *self == start,
                self.parent@.contains_key(root),
                self.tops@[root] == self.tops@[x],
                above == self.parent@[root],
            decreases self.height@[root],
        {
            assert(self.linked(root));
            root = above;
            above = *self.parent.get(&root).unwrap();
        }
        assert(self.linked(root));
        let mut cursor: i64 = x;
        let mut next: i64 = *self.parent.get(&cursor).unwrap();
        while next != root
            invariant
                self.wf(),
                self.tops == start.tops,
                self.height == start.height,
                self.parent@.dom() == start.parent@.dom(),
                self.parent@.contains_key(cursor),
                self.parent@.contains_key(root),
                self.tops@[cursor] == root,
                self.tops@[root] == root,
                next == self.parent@[cursor],
            decreases self.height@[cursor],
        {
            let ghost before = *self;
            assert(self.linked(cursor));
            assert(self.linked(root));
            self.parent.insert(cursor, root);
            proof {
                assert(self.parent@.dom() == before.parent@.dom());
                assert forall|y: i64| self.parent@.contains_key(y) implies #[trigger] self.linked(y) by {
                    assert(before.linked(y));
                }
            }
            cursor = next;
            next = *self.parent.get(&cursor).unwrap();
        }
        root
    }

    /// Puts the set of `a` under what stands for the set of `b`.
    fn union(&mut self, a: i64, b: i64)
        requires
            old(self).wf(),
        ensures
            final(self).wf(),
            forall|y: i64| #[trigger]
                final(self).top(y) == (if old(self).top(y) == old(self).top(a) {
                    old(self).top(b)
                } else {
                    old(self).top(y)
                }),
            forall|x: i64, y: i64|
                #![trigger final(self).top(x), final(self).top(y)]
                final(self).top(x) == final(self).top(y) <==> {
                    ||| old(self).top(x) == old(self).top(y)
                    ||| old(self).top(x) == old(self).top(a) && old(self).top(y) == old(self).top(b)
                    ||| old(self).top(x) == old(self).top(b) && old(self).top(y) == old(self).top(a)
                },
    {
        let ghost start = *self;
        let ra: i64 = self.find(a);
        let ghost between = *self;
        let rb: i64 = self.find(b);
        let ghost middle = *self;
        assert(between.top(b) == start.top(b));
        assert(middle.top(a) == between.top(a));
        assert(between.top(a) == start.top(a));
        assert(between.parent@.contains_key(ra));
        assert(between.parent@.contains_key(a));
        assert(middle.parent@.contains_key(ra));
        assert(middle.linked(a));
        assert(middle.linked(b));
        assert(middle.top(b) == between.top(b));
        assert(middle.tops@.dom().contains(a) && middle.tops@.dom().contains(b));
        assert(middle.tops@[a] == ra && middle.tops@[b] == rb);
        if ra != rb {
            self.parent.insert(ra, rb);
            let ghost lift = (middle.height@[rb] + 1) as nat;
            self.tops = Ghost(
                Map::new(|y: i64| middle.tops@.contains_key(y), |y: i64| if middle.tops@[y] == ra { rb } else { middle.tops@[y] }),
            );
            self.height = Ghost(
                Map::new(
                    |y: i64| middle.height@.contains_key(y),
                    |y: i64| if middle.tops@[y] == ra { (middle.height@[y] + lift) as nat } else { middle.height@[y] },
                ),
            );
            proof {
                assert(self.parent@.dom() == middle.parent@.dom());
                assert(self.tops@.dom() == self.parent@.dom());
                assert(self.height@.dom() == self.parent@.dom());
                assert forall|x: i64| self.parent@.contains_key(x) implies #[trigger] self.linked(x) by {
                    assert(middle.linked(x));
                    assert(middle.linked(ra));
                    assert(middle.linked(rb));
                    assert(middle.parent@.contains_key(x));
                    let up = middle.parent@[x];
                    let top = middle.tops@[x];
                    assert(middle.tops@.dom().contains(x) && middle.height@.dom().contains(x));
                    assert(middle.tops@.dom().contains(up) && middle.height@.dom().contains(up));
                    assert(middle.tops@.dom().contains(top) && middle.height@.dom().contains(top));
                    assert(middle.tops@.dom().contains(rb) && middle.height@.dom().contains(rb));
                    assert(middle.tops@.dom().contains(ra) && middle.height@.dom().contains(ra));
                    assert(middle.tops@[ra] == ra && middle.tops@[rb] == rb);
                }
            }
        }
        assert forall|y: i64| #[trigger]
            self.top(y) == (if start.top(y) == start.top(a) {
                start.top(b)
            } else {
                start.top(y)
            }) by {
            assert(middle.top(y) == between.top(y));
            assert(between.top(y) == start.top(y));
            if middle.parent@.contains_key(y) {
                assert(middle.linked(y));
            }
        }
    }
}

/// The ends of edges, in order.
pub open spec fn edge_ends(edges: Seq<EdgeView>) -> Seq<i64>
    decreases edges.len(),
{
    if edges.len() == 0 {
        Seq::empty()
    } else {
        edge_ends(edges.drop_last()).push(edges.last().subject).push(edges.last().object)
    }
}

/// All entities of a graph: the given ones, then the ends of its edges.
fn all_entities(nodes: &Vec<i64>, edges: &Vec<GraphEdge>) -> (out: Vec<i64>)
    requires
        nodes.len() + 2 * edges.len() <= i32::MAX,
    ensures
        out@ == nodes@ + edge_ends(edge_views(edges@)),
        out.len() == nodes.len() + 2 * edges.len(),
{
    let ghost views = edge_views(edges@);
    let mut out = crate::types::copy_ids(nodes);
    let mut i: usize = 0;
    assert(views.take(0) == Seq::<EdgeView>::empty());
    assert(nodes@ + edge_ends(views.take(0)) == nodes@);
    while i < edges.len()
        invariant
            i <= edges.len(),
            views == edge_views(edges@),
            out@ == nodes@ + edge_ends(views.take(i as int)),
            out.len() == nodes.len() + 2 * i,
            nodes.len() + 2 * edges.len() <= i32::MAX,
        decreases edges.len() - i,
    {
        assert(views.take(i + 1).drop_last() == views.take(i as int));
        out.push(edges[i].subject);
        out.push(edges[i].object);
        assert(out@ == nodes@ + edge_ends(views.take(i + 1)));
        i = i + 1;
    }
    assert(views.take(views.len() as int) == views);
    out
}

/// What stands for each entity.
fn canonical_ids(all: &Vec<i64>, edges: &Vec<GraphEdge>) -> (out: HashMap<i64, i64>)
    ensures
        forall|x: i64| #[trigger] out@.contains_key(x) <==> all@.contains(x),
        forall|x: i64| out@.contains_key(x) ==> #[trigger] out@[x] == representative(edge_views(edges@), x),
{
    let ghost views = edge_views(edges@);
    let mut sets = UnionFind::new();
    let mut i: usize = 0;
    assert(views.take(0) == Seq::<EdgeView>::empty());
    while i < edges.len()
        invariant
            i <= edges.len(),
            views == edge_views(edges@),
            sets.wf(),
            forall|y: i64| #[trigger] sets.top(y) == representative(views.take(i as int), y),
        decreases edges.len() - i,
    {
        let ghost before = sets;
        assert(views.take(i + 1).drop_last() == views.take(i as int));
        assert(views.take(i + 1).last() == edges@[i as int]@);
        if ordering::same_text(edges[i].predicate.as_str(), "sys:same_as") {
            sets.union(edges[i].subject, edges[i].object);
        }
        assert forall|y: i64| #[trigger] sets.top(y) == representative(views.take(i + 1), y) by {
            assert(before.top(y) == representative(views.take(i as int), y));
            assert(before.top(edges@[i as int].subject) == representative(views.take(i as int), edges@[i as int].subject));
            assert(before.top(edges@[i as int].object) == representative(views.take(i as int), edges@[i as int].object));
        }
        i = i + 1;
    }
    assert(views.take(views.len() as int) == views);
    let mut out: HashMap<i64, i64> = HashMap::new();
    let mut k: usize = 0;
    while k < all.len()
        invariant
            k <= all.len(),
            sets.wf(),
            forall|y: i64| #[trigger] sets.top(y) == representative(views, y),
            forall|x: i64| #[trigger] out@.contains_key(x) <==> all@.take(k as int).contains(x),
            forall|x: i64| out@.contains_key(x) ==> #[trigger] out@[x] == representative(views, x),
        decreases all.len() - k,
    {
        let ghost before = sets;
        let top: i64 = sets.find(all[k]);
        assert(before.top(all@[k as int]) == representative(views, all@[k as int]));
        assert forall|y: i64| #[trigger] sets.top(y) == representative(views, y) by {
            assert(before.top(y) == representative(views, y));
        }
        out.insert(all[k], top);
        proof {
            assert(all@.take(k + 1) == all@.take(k as int).push(all@[k as int]));
            assert forall|x: i64| all@.take(k + 1).contains(x) <==> all@.take(k as int).contains(x) || x == all@[k as int] by {
                ids::push_contains(all@.take(k as int), all@[k as int], x);
            }
        }
        k = k + 1;
    }
    assert(all@.take(all@.len() as int) == all@);
    out
}

// ── The graph ─────────────────────────────────────────────────────────

/// The ids that stand for a list of ids.
pub open spec fn representatives(edges: Seq<EdgeView>, list: Seq<i64>) -> Seq<i64> {
    Seq::new(list.len(), |i: int| representative(edges, list[i]))
}

/// The edges between different things: each leads between what stands for its ends. `all` are all
/// edges of the graph.
pub open spec fn contracted(edges: Seq<EdgeView>, all: Seq<EdgeView>) -> Seq<(i64, i64, Seq<char>)>
    decreases edges.len(),
{
    if edges.len() == 0 {
        Seq::empty()
    } else {
        let edge = edges.last();
        let before = contracted(edges.drop_last(), all);
        if edge.predicate == same_as() {
            before
        } else {
            before.push((representative(all, edge.subject), representative(all, edge.object), edge.predicate))
        }
    }
}

/// The arcs of a graph are its edges between what stands for their ends, but for those that only say
/// that two entities are the same.
pub proof fn arcs_are_the_other_edges(edges: Seq<EdgeView>, all: Seq<EdgeView>, arc: (i64, i64, Seq<char>))
    ensures
        contracted(edges, all).contains(arc) <==> exists|k: int|
            0 <= k < edges.len() && (#[trigger] edges[k]).predicate != "sys:same_as"@ && arc == (
                representative(all, edges[k].subject),
                representative(all, edges[k].object),
                edges[k].predicate,
            ),
        contracted(edges, all).len() <= edges.len(),
    decreases edges.len(),
{
    if edges.len() > 0 {
        let rest = edges.drop_last();
        let before = contracted(rest, all);
        let now = contracted(edges, all);
        let n = edges.len() - 1;
        arcs_are_the_other_edges(rest, all, arc);
        assert(edges[n] == edges.last());
        if before.contains(arc) {
            let j = choose|j: int| 0 <= j < before.len() && before[j] == arc;
            assert(now[j] == arc);
            let k = choose|k: int|
                0 <= k < rest.len() && (#[trigger] rest[k]).predicate != "sys:same_as"@ && arc == (
                    representative(all, rest[k].subject),
                    representative(all, rest[k].object),
                    rest[k].predicate,
                );
            assert(edges[k] == rest[k]);
        }
        if now.contains(arc) && !before.contains(arc) {
            let j = choose|j: int| 0 <= j < now.len() && now[j] == arc;
            if j < before.len() {
                assert(before[j] == arc);
            }
        }
        if exists|k: int|
            0 <= k < edges.len() && (#[trigger] edges[k]).predicate != "sys:same_as"@ && arc == (
                representative(all, edges[k].subject),
                representative(all, edges[k].object),
                edges[k].predicate,
            ) {
            let k = choose|k: int|
                0 <= k < edges.len() && (#[trigger] edges[k]).predicate != "sys:same_as"@ && arc == (
                    representative(all, edges[k].subject),
                    representative(all, edges[k].object),
                    edges[k].predicate,
                );
            if k < n {
                assert(rest[k] == edges[k]);
                assert(before.contains(arc));
            } else {
                assert(now[before.len() as int] == arc);
            }
        }
    }
}

/// Edges between places as edges between ids.
pub open spec fn named_arcs(nodes: Seq<i64>, arcs: Seq<(int, int, Seq<char>)>) -> Seq<(i64, i64, Seq<char>)> {
    Seq::new(arcs.len(), |i: int| (nodes[arcs[i].0], nodes[arcs[i].1], arcs[i].2))
}

/// A graph of entities in memory. A node is what stands for one or more entities that are the
/// same.
pub struct GraphView {
    graph: petgraph::graph::Graph<i64, String>,
    index: HashMap<i64, usize>,
    canonical: HashMap<i64, i64>,
}

/// The index leads from each id to its node.
spec fn located(index: Map<i64, usize>, nodes: Seq<i64>) -> bool {
    &&& forall|id: i64| #[trigger] index.contains_key(id) ==> index[id] < nodes.len() && nodes[index[id] as int] == id
    &&& forall|i: int| 0 <= i < nodes.len() ==> index.contains_key(#[trigger] nodes[i]) && index[nodes[i]] == i
}

impl GraphView {
    /// The ids of the nodes, by place.
    pub closed spec fn nodes(self) -> Seq<i64> {
        network::node_weights(self.graph)
    }

    /// The edges between places.
    pub closed spec fn arcs(self) -> Seq<(int, int, Seq<char>)> {
        network::arcs(self.graph)
    }

    /// What stands for an entity here; an entity that is not in the graph stands for itself.
    pub closed spec fn stands_for(self, id: i64) -> i64 {
        if self.canonical@.contains_key(id) {
            self.canonical@[id]
        } else {
            id
        }
    }

    /// The place of an entity, none for one that is not in the graph.
    pub open spec fn place(self, id: i64) -> Option<int> {
        if self.nodes().contains(self.stands_for(id)) {
            Some(self.nodes().index_of(self.stands_for(id)))
        } else {
            None
        }
    }

    /// Each id is one node, the index knows it, and edges lead between nodes.
    pub closed spec fn wf(self) -> bool {
        &&& self.nodes().no_duplicates()
        &&& self.nodes().len() <= i32::MAX
        &&& located(self.index@, self.nodes())
        &&& forall|k: int|
            0 <= k < self.arcs().len() ==> 0 <= (#[trigger] self.arcs()[k]).0 < self.nodes().len() && 0 <= self.arcs()[k].1 < self.nodes().len()
    }

    /// Builds the graph of the given entities and edges. Entities without edges are nodes too, and
    /// so are ends of edges that were not given.
    pub fn build(nodes: &Vec<i64>, edges: &Vec<GraphEdge>) -> (out: GraphView)
        requires
            nodes.len() + 2 * edges.len() <= i32::MAX,
        ensures
            out.wf(),
            ({
                let views = edge_views(edges@);
                let all = nodes@ + edge_ends(views);
                &&& out.nodes() == ids::first_places(representatives(views, all))
                &&& named_arcs(out.nodes(), out.arcs()) == contracted(views, views)
                &&& forall|x: i64| #[trigger] out.stands_for(x) == (if all.contains(x) { representative(views, x) } else { x })
            }),
    {
        let ghost views = edge_views(edges@);
        let all = all_entities(nodes, edges);
        let canonical = canonical_ids(&all, edges);
        let mut graph = network::new_graph();
        let mut index: HashMap<i64, usize> = HashMap::new();
        let ghost tops = representatives(views, all@);
        let mut i: usize = 0;
        assert(tops.take(0) == Seq::<i64>::empty());
        while i < all.len()
            invariant
                i <= all.len(),
                all.len() <= i32::MAX,
                tops == representatives(views, all@),
                forall|x: i64| #[trigger] canonical@.contains_key(x) <==> all@.contains(x),
                forall|x: i64| canonical@.contains_key(x) ==> #[trigger] canonical@[x] == representative(views, x),
                network::node_weights(graph) == ids::first_places(tops.take(i as int)),
                network::node_weights(graph).len() <= i,
                network::arcs(graph) == Seq::<(int, int, Seq<char>)>::empty(),
                located(index@, network::node_weights(graph)),
            decreases all.len() - i,
        {
            let ghost before = network::node_weights(graph);
            let id: i64 = all[i];
            assert(all@.contains(id));
            assert(canonical@.contains_key(id));
            let top: i64 = *canonical.get(&id).unwrap();
            proof {
                assert(tops[i as int] == top);
                assert(tops.take(i + 1).drop_last() == tops.take(i as int));
                assert(tops.take(i + 1).last() == top);
            }
            let known = index.contains_key(&top);
            if !known {
                assert(!before.contains(top)) by {
                    if before.contains(top) {
                        let k = choose|k: int| 0 <= k < before.len() && before[k] == top;
                        assert(index@.contains_key(before[k]));
                    }
                }
                let place: usize = network::add_node(&mut graph, top);
                index.insert(top, place);
                assert(located(index@, network::node_weights(graph))) by {
                    let now = network::node_weights(graph);
                    assert forall|k: int| 0 <= k < now.len() implies index@.contains_key(#[trigger] now[k]) && index@[now[k]] == k by {
                        if k < before.len() {
                            assert(now[k] == before[k]);
                            assert(before.contains(before[k]));
                        }
                    }
                    assert forall|x: i64| #[trigger] index@.contains_key(x) implies index@[x] < now.len() && now[index@[x] as int] == x by {
                        if x != top {
                            assert(before[index@[x] as int] == x);
                        }
                    }
                }
            } else {
                assert(before[index@[top] as int] == top);
                assert(before.contains(top));
            }
            i = i + 1;
        }
        assert(tops.take(tops.len() as int) == tops);
        let ghost weights = network::node_weights(graph);
        proof {
            ids::first_places_hold_all(tops);
        }
        let mut k: usize = 0;
        assert(views.take(0) == Seq::<EdgeView>::empty());
        assert(named_arcs(weights, network::arcs(graph)) == contracted(views.take(0), views));
        while k < edges.len()
            invariant
                k <= edges.len(),
                edges.len() <= i32::MAX,
                views == edge_views(edges@),
                all@ == nodes@ + edge_ends(views),
                tops == representatives(views, all@),
                weights == ids::first_places(tops),
                forall|x: i64| weights.contains(x) <==> tops.contains(x),
                forall|x: i64| #[trigger] canonical@.contains_key(x) <==> all@.contains(x),
                forall|x: i64| canonical@.contains_key(x) ==> #[trigger] canonical@[x] == representative(views, x),
                network::node_weights(graph) == weights,
                weights.len() <= i32::MAX,
                located(index@, weights),
                network::arcs(graph).len() <= k,
                forall|j: int|
                    0 <= j < network::arcs(graph).len() ==> 0 <= (#[trigger] network::arcs(graph)[j]).0 < weights.len() && 0 <= network::arcs(
                        graph,
                    )[j].1 < weights.len(),
                named_arcs(weights, network::arcs(graph)) == contracted(views.take(k as int), views),
            decreases edges.len() - k,
        {
            proof {
                assert(views.take(k + 1).drop_last() == views.take(k as int));
                assert(views.take(k + 1).last() == edges@[k as int]@);
            }
            if !ordering::same_text(edges[k].predicate.as_str(), "sys:same_as") {
                let subject: i64 = edges[k].subject;
                let object: i64 = edges[k].object;
                proof {
                    ends_are_known(nodes@, views, k as int);
                }
                let from_top: i64 = *canonical.get(&subject).unwrap();
                let to_top: i64 = *canonical.get(&object).unwrap();
                proof {
                    top_is_known(views, all@, subject);
                    top_is_known(views, all@, object);
                    known_node(weights, index@, from_top);
                    known_node(weights, index@, to_top);
                }
                let from: usize = *index.get(&from_top).unwrap();
                let to: usize = *index.get(&to_top).unwrap();
                let ghost before = network::arcs(graph);
                network::add_edge(&mut graph, from, to, edges[k].predicate.clone());
                assert(named_arcs(weights, network::arcs(graph)) == named_arcs(weights, before).push(
                    (from_top, to_top, edges@[k as int].predicate@),
                ));
            }
            k = k + 1;
        }
        assert(views.take(views.len() as int) == views);
        GraphView { graph, index, canonical }
    }

    /// How many nodes there are.
    pub fn node_count(&self) -> (out: usize)
        ensures
            out == self.nodes().len(),
    {
        network::node_count(&self.graph)
    }

    /// How many edges there are.
    pub fn edge_count(&self) -> (out: usize)
        ensures
            out == self.arcs().len(),
    {
        network::edge_count(&self.graph)
    }

    /// The place of an entity.
    fn find_place(&self, id: i64) -> (out: Option<usize>)
        requires
            self.wf(),
        ensures
            match out {
                Some(at) => self.place(id) == Some(at as int) && at < self.nodes().len() && self.nodes()[at as int] == self.stands_for(id),
                None => self.place(id) is None,
            },
    {
        let top: i64 = match self.canonical.get(&id) {
            Some(top) => *top,
            None => id,
        };
        let found: Option<usize> = match self.index.get(&top) {
            Some(at) => Some(*at),
            None => None,
        };
        proof {
            let nodes = self.nodes();
            if self.index@.contains_key(top) {
                let at = self.index@[top] as int;
                assert(nodes[at] == top);
                assert(nodes.contains(top));
                let other = nodes.index_of(top);
                assert(nodes[other] == top);
                assert(other == at);
            } else if nodes.contains(top) {
                let k = choose|k: int| 0 <= k < nodes.len() && nodes[k] == top;
                assert(self.index@.contains_key(nodes[k]));
            }
        }
        found
    }
}

proof fn ends_are_known(nodes: Seq<i64>, edges: Seq<EdgeView>, k: int)
    requires
        0 <= k < edges.len(),
    ensures
        (nodes + edge_ends(edges)).contains(edges[k].subject),
        (nodes + edge_ends(edges)).contains(edges[k].object),
    decreases edges.len(),
{
    let before = edge_ends(edges.drop_last());
    let all = nodes + edge_ends(edges);
    if k < edges.len() - 1 {
        ends_are_known(nodes, edges.drop_last(), k);
        let small = nodes + before;
        let i = choose|i: int| 0 <= i < small.len() && small[i] == edges[k].subject;
        assert(all[i] == edges[k].subject);
        let j = choose|j: int| 0 <= j < small.len() && small[j] == edges[k].object;
        assert(all[j] == edges[k].object);
    } else {
        assert(all[(nodes.len() + before.len()) as int] == edges[k].subject);
        assert(all[(nodes.len() + before.len()) as int + 1] == edges[k].object);
    }
}

proof fn top_is_known(edges: Seq<EdgeView>, all: Seq<i64>, x: i64)
    requires
        all.contains(x),
    ensures
        representatives(edges, all).contains(representative(edges, x)),
{
    let k = choose|k: int| 0 <= k < all.len() && all[k] == x;
    assert(representatives(edges, all)[k] == representative(edges, x));
}

proof fn known_node(nodes: Seq<i64>, index: Map<i64, usize>, x: i64)
    requires
        located(index, nodes),
        nodes.contains(x),
    ensures
        index.contains_key(x),
        index[x] < nodes.len(),
        nodes[index[x] as int] == x,
{
    let k = choose|k: int| 0 <= k < nodes.len() && nodes[k] == x;
    assert(index.contains_key(nodes[k]));
}

// ── Neighbourhoods ────────────────────────────────────────────────────

/// Where the edges from a list of nodes lead, node by node.
pub open spec fn all_successors(arcs: Seq<(int, int, Seq<char>)>, list: Seq<int>) -> Seq<int>
    decreases list.len(),
{
    if list.len() == 0 {
        Seq::empty()
    } else {
        all_successors(arcs, list.drop_last()) + network::successors(arcs, list.last())
    }
}

/// The members of a list that were not seen, each at its first place only.
pub open spec fn unseen(list: Seq<int>, seen: Set<int>) -> Seq<int>
    decreases list.len(),
{
    if list.len() == 0 {
        list
    } else {
        let before = unseen(list.drop_last(), seen);
        if seen.contains(list.last()) || before.contains(list.last()) {
            before
        } else {
            before.push(list.last())
        }
    }
}

/// The nodes that up to `depth` steps from `level` find anew, step by step.
pub open spec fn levels(arcs: Seq<(int, int, Seq<char>)>, level: Seq<int>, seen: Set<int>, depth: nat) -> Seq<int>
    decreases depth,
{
    if depth == 0 || level.len() == 0 {
        Seq::empty()
    } else {
        let next = unseen(all_successors(arcs, level), seen);
        next + levels(arcs, next, seen.union(next.to_set()), (depth - 1) as nat)
    }
}

/// The ids at places.
pub open spec fn ids_at(nodes: Seq<i64>, places: Seq<int>) -> Seq<i64> {
    Seq::new(places.len(), |i: int| nodes[places[i]])
}

/// No more than `limit` from the front, but one at least where there is one.
pub open spec fn limited(list: Seq<i64>, limit: int) -> Seq<i64> {
    let most = if limit < 1 { 1 } else { limit };
    if list.len() <= most {
        list
    } else {
        list.take(most)
    }
}

/// The neighbourhood of an entity: what up to `depth` steps along the edges find, the nearer first.
pub open spec fn neighbourhood(view: GraphView, root: i64, depth: nat) -> Seq<i64> {
    match view.place(root) {
        Some(at) => ids_at(view.nodes(), levels(view.arcs(), seq![at], set![at], depth)),
        None => Seq::empty(),
    }
}

/// Within the range of places.
spec fn within_nodes(list: Seq<int>, nodes: int) -> bool {
    forall|i: int| 0 <= i < list.len() ==> 0 <= #[trigger] list[i] < nodes
}

proof fn unseen_contains(list: Seq<int>, seen: Set<int>, x: int)
    ensures
        unseen(list, seen).contains(x) <==> list.contains(x) && !seen.contains(x),
    decreases list.len(),
{
    if list.len() > 0 {
        let before = unseen(list.drop_last(), seen);
        unseen_contains(list.drop_last(), seen, x);
        assert(list == list.drop_last().push(list.last()));
        int_push_contains(list.drop_last(), list.last(), x);
        int_push_contains(before, list.last(), x);
    }
}

proof fn int_push_contains(list: Seq<int>, last: int, x: int)
    ensures
        list.push(last).contains(x) <==> list.contains(x) || x == last,
{
    let after = list.push(last);
    if list.contains(x) {
        let k = choose|k: int| 0 <= k < list.len() && list[k] == x;
        assert(after[k] == x);
    }
    assert(after[list.len() as int] == last);
    if after.contains(x) {
        let k = choose|k: int| 0 <= k < after.len() && after[k] == x;
        if k < list.len() {
            assert(list[k] == x);
        }
    }
}

/// The set of places that a hash set of indexes stands for.
spec fn place_set(seen: Set<usize>) -> Set<int> {
    Set::new(|i: int| 0 <= i <= usize::MAX && seen.contains(i as usize))
}

impl GraphView {
    /// The next level: what the edges from `level` find that was not seen.
    fn next_level(&self, level: &Vec<usize>, seen: &mut HashSet<usize>) -> (out: Vec<usize>)
        requires
            self.wf(),
            within_nodes(network::places(level@), self.nodes().len() as int),
        ensures
            network::places(out@) == unseen(all_successors(self.arcs(), network::places(level@)), place_set(old(seen)@)),
            place_set(final(seen)@) == place_set(old(seen)@).union(network::places(out@).to_set()),
            within_nodes(network::places(out@), self.nodes().len() as int),
    {
        let ghost start = place_set(seen@);
        let ghost from = network::places(level@);
        let mut out: Vec<usize> = Vec::new();
        let mut i: usize = 0;
        let ghost mut list = Seq::<int>::empty();
        assert(from.take(0) == Seq::<int>::empty());
        assert(network::places(out@) == unseen(list, start));
        assert(place_set(seen@) == start.union(network::places(out@).to_set()));
        while i < level.len()
            invariant
                i <= level.len(),
                self.wf(),
                from == network::places(level@),
                within_nodes(from, self.nodes().len() as int),
                list == all_successors(self.arcs(), from.take(i as int)),
                network::places(out@) == unseen(list, start),
                place_set(seen@) == start.union(network::places(out@).to_set()),
                within_nodes(network::places(out@), self.nodes().len() as int),
            decreases level.len() - i,
        {
            assert(from[i as int] == level@[i as int]);
            let found = network::neighbors(&self.graph, level[i]);
            let ghost base = list;
            let ghost steps = network::places(found@);
            let mut j: usize = 0;
            assert(base + steps.take(0) == base);
            while j < found.len()
                invariant
                    j <= found.len(),
                    steps == network::places(found@),
                    forall|k: int| 0 <= k < found.len() ==> (#[trigger] found@[k]) < self.nodes().len(),
                    list == base + steps.take(j as int),
                    network::places(out@) == unseen(list, start),
                    place_set(seen@) == start.union(network::places(out@).to_set()),
                    within_nodes(network::places(out@), self.nodes().len() as int),
                decreases found.len() - j,
            {
                let node: usize = found[j];
                let ghost before = network::places(out@);
                let ghost seen_before = seen@;
                proof {
                    assert(steps.take(j + 1) == steps.take(j as int).push(node as int));
                    let longer = list.push(node as int);
                    assert(base + steps.take(j + 1) == longer);
                    assert(longer.drop_last() == list);
                    assert(place_set(seen_before).contains(node as int) <==> start.contains(node as int) || before.contains(node as int));
                }
                let new = seen.insert(node);
                proof {
                    assert(place_set(seen@) == place_set(seen_before).insert(node as int)) by {
                        assert forall|x: int| place_set(seen@).contains(x) <==> place_set(seen_before).insert(node as int).contains(x) by {}
                    }
                }
                if new {
                    out.push(node);
                    proof {
                        assert(network::places(out@) == before.push(node as int));
                        assert forall|x: int| network::places(out@).to_set().contains(x) <==> before.to_set().insert(node as int).contains(x) by {
                            int_push_contains(before, node as int, x);
                        }
                        assert(place_set(seen@) == start.union(network::places(out@).to_set()));
                        assert forall|k: int| 0 <= k < network::places(out@).len() implies 0 <= #[trigger] network::places(out@)[k] < self.nodes().len() by {
                            if k < before.len() {
                                assert(before[k] == network::places(out@)[k]);
                            }
                        }
                    }
                } else {
                    proof {
                        assert(seen@ == seen_before);
                    }
                }
                proof {
                    list = list.push(node as int);
                }
                j = j + 1;
            }
            proof {
                assert(steps.take(steps.len() as int) == steps);
                assert(from.take(i + 1).drop_last() == from.take(i as int));
            }
            i = i + 1;
        }
        assert(from.take(from.len() as int) == from);
        out
    }

    /// The entities that up to `depth` steps from `root` find, without `root` itself and no more
    /// than `limit`.
    pub fn ego_ids(&self, root: i64, depth: usize, limit: usize) -> (out: Vec<i64>)
        requires
            self.wf(),
        ensures
            out@ == limited(neighbourhood(*self, root, depth as nat), limit as int),
            limit >= 1 ==> out.len() <= limit,
            limit == 0 ==> out.len() <= 1,
            out.len() < limit ==> out@ == neighbourhood(*self, root, depth as nat),
    {
        let start: usize = match self.find_place(root) {
            Some(at) => at,
            None => return Vec::new(),
        };
        let mut seen: HashSet<usize> = HashSet::new();
        let _first = seen.insert(start);
        let mut level: Vec<usize> = Vec::new();
        level.push(start);
        let mut out: Vec<i64> = Vec::new();
        let most: usize = if limit < 1 { 1 } else { limit };
        let mut done: usize = 0;
        let ghost all = levels(self.arcs(), seq![start as int], set![start as int], depth as nat);
        let ghost mut found = Seq::<int>::empty();
        proof {
            assert(network::places(level@) == seq![start as int]);
            assert(place_set(seen@) == set![start as int]);
            assert(found + all == all);
        }
        while done < depth && level.len() > 0 && out.len() < most
            invariant
                done <= depth,
                self.wf(),
                within_nodes(network::places(level@), self.nodes().len() as int),
                out@ == ids_at(self.nodes(), found),
                found + levels(self.arcs(), network::places(level@), place_set(seen@), (depth - done) as nat) == all,
            decreases depth - done,
        {
            let ghost before = found;
            let ghost seen_before = place_set(seen@);
            let ghost from = network::places(level@);
            let next = self.next_level(&level, &mut seen);
            let ghost fresh = network::places(next@);
            let mut i: usize = 0;
            assert(before + fresh.take(0) == before);
            while i < next.len()
                invariant
                    i <= next.len(),
                    self.wf(),
                    fresh == network::places(next@),
                    within_nodes(fresh, self.nodes().len() as int),
                    out@ == ids_at(self.nodes(), before + fresh.take(i as int)),
                decreases next.len() - i,
            {
                assert(fresh[i as int] == next@[i as int]);
                out.push(network::node_weight(&self.graph, next[i]));
                proof {
                    assert(fresh.take(i + 1) == fresh.take(i as int).push(fresh[i as int]));
                    assert(ids_at(self.nodes(), before + fresh.take(i + 1)) == ids_at(self.nodes(), before + fresh.take(i as int)).push(
                        self.nodes()[fresh[i as int]],
                    ));
                }
                i = i + 1;
            }
            proof {
                assert(fresh.take(fresh.len() as int) == fresh);
                found = before + fresh;
                let rest = levels(self.arcs(), fresh, place_set(seen@), (depth - done - 1) as nat);
                assert(levels(self.arcs(), from, seen_before, (depth - done) as nat) == fresh + rest);
                assert(found + rest == before + (fresh + rest));
            }
            level = next;
            done = done + 1;
        }
        if out.len() > most {
            out.truncate(most);
        }
        proof {
            let rest = levels(self.arcs(), network::places(level@), place_set(seen@), (depth - done) as nat);
            let whole = neighbourhood(*self, root, depth as nat);
            assert(whole == ids_at(self.nodes(), all));
            if done == depth || level.len() == 0 {
                assert(rest == Seq::<int>::empty());
                assert(found == all);
            } else {
                assert(found.len() >= most);
                assert(out@ == whole.take(most as int));
                if whole.len() == most {
                    assert(whole.take(most as int) == whole);
                }
            }
        }
        out
    }

    /// A shortest path between two entities along the edges, ends included; none where there is
    /// none. Which of several it is is left open.
    pub fn path_ids(&self, from: i64, to: i64) -> (out: Option<Vec<i64>>)
        requires
            self.wf(),
        ensures
            path_is(*self, from, to, match out {
                Some(path) => Some(path@),
                None => None,
            }),
    {
        let start: usize = match self.find_place(from) {
            Some(at) => at,
            None => return None,
        };
        let goal: usize = match self.find_place(to) {
            Some(at) => at,
            None => return None,
        };
        match network::shortest_path(&self.graph, start, goal) {
            None => None,
            Some(path) => {
                let ghost walk = network::places(path@);
                let mut out: Vec<i64> = Vec::new();
                let mut i: usize = 0;
                while i < path.len()
                    invariant
                        i <= path.len(),
                        self.wf(),
                        walk == network::places(path@),
                        forall|k: int| 0 <= k < path@.len() ==> (#[trigger] path@[k]) < self.nodes().len(),
                        out@ == ids_at(self.nodes(), walk).take(i as int),
                    decreases path.len() - i,
                {
                    out.push(network::node_weight(&self.graph, path[i]));
                    assert(ids_at(self.nodes(), walk).take(i + 1) == ids_at(self.nodes(), walk).take(i as int).push(
                        self.nodes()[walk[i as int]],
                    ));
                    i = i + 1;
                }
                assert(ids_at(self.nodes(), walk).take(walk.len() as int) == ids_at(self.nodes(), walk));
                assert(shortest(*self, walk, start as int, goal as int));
                assert(is_path(*self, start as int, goal as int, out@));
                Some(out)
            },
        }
    }

    /// How many parts hang together, whatever the direction of the edges.
    pub fn component_count(&self) -> (out: usize)
        ensures
            out == network::heads(self.nodes().len(), self.arcs()).len(),
    {
        network::component_count(&self.graph)
    }

    /// The groups of two or more entities of which each reaches every other along the edges. No
    /// group leads to a later one; the order inside a group is left open.
    pub fn strongly_connected(&self) -> (out: Vec<Vec<i64>>)
        requires
            self.wf(),
        ensures
            rings(*self, out@),
    {
        let groups = network::strong_components(&self.graph);
        let mut out: Vec<Vec<i64>> = Vec::new();
        let ghost mut origins = Seq::<int>::empty();
        let mut c: usize = 0;
        while c < groups.len()
            invariant
                c <= groups.len(),
                self.wf(),
                network::mutual_groups(self.nodes().len(), self.arcs(), groups@),
                ring_origins(groups@, c as int, origins),
                out@.len() == origins.len(),
                forall|k: int|
                    0 <= k < out@.len() ==> (#[trigger] out@[k])@ == ids_at(self.nodes(), network::places(groups@[origins[k]]@)),
            decreases groups.len() - c,
        {
            let group = &groups[c];
            if group.len() > 1 {
                let ghost list = network::places(group@);
                let mut ring: Vec<i64> = Vec::new();
                let mut i: usize = 0;
                while i < group.len()
                    invariant
                        i <= group.len(),
                        self.wf(),
                        list == network::places(group@),
                        forall|k: int| 0 <= k < group@.len() ==> (#[trigger] group@[k]) < self.nodes().len(),
                        ring@ == ids_at(self.nodes(), list).take(i as int),
                    decreases group.len() - i,
                {
                    ring.push(network::node_weight(&self.graph, group[i]));
                    assert(ids_at(self.nodes(), list).take(i + 1) == ids_at(self.nodes(), list).take(i as int).push(
                        self.nodes()[list[i as int]],
                    ));
                    i = i + 1;
                }
                assert(ids_at(self.nodes(), list).take(list.len() as int) == ids_at(self.nodes(), list));
                let ghost before = out@;
                let ghost origins_before = origins;
                out.push(ring);
                proof {
                    origins = origins.push(c as int);
                    assert forall|k: int|
                        0 <= k < out@.len() implies (#[trigger] out@[k])@ == ids_at(self.nodes(), network::places(groups@[origins[k]]@)) by {
                        if k < before.len() {
                            assert(out@[k] == before[k]);
                            assert(origins[k] == origins_before[k]);
                        }
                    }
                    assert forall|d: int| 0 <= d < c + 1 && (#[trigger] groups@[d])@.len() > 1 implies origins.contains(d) by {
                        if d < c {
                            assert(origins_before.contains(d));
                            let k = choose|k: int| 0 <= k < origins_before.len() && origins_before[k] == d;
                            assert(origins[k] == d);
                        } else {
                            assert(origins[origins_before.len() as int] == d);
                        }
                    }
                }
            }
            c = c + 1;
        }
        proof {
            assert(rings_from(*self, groups@, origins, out@));
        }
        out
    }
}

/// A walk with the least edges between two nodes.
pub open spec fn shortest(view: GraphView, walk: Seq<int>, start: int, goal: int) -> bool {
    &&& network::leads(view.arcs(), walk, start, goal, false)
    &&& forall|p: Seq<int>| network::leads(view.arcs(), p, start, goal, false) ==> walk.len() <= p.len()
}

/// The ids along a shortest walk between two nodes.
pub open spec fn is_path(view: GraphView, start: int, goal: int, path: Seq<i64>) -> bool {
    exists|walk: Seq<int>| #[trigger] shortest(view, walk, start, goal) && path == ids_at(view.nodes(), walk)
}

/// A path between two entities: a shortest walk between their nodes, none exactly where one of them
/// is not in the graph or there is no walk.
pub open spec fn path_is(view: GraphView, from: i64, to: i64, out: Option<Seq<i64>>) -> bool {
    if view.place(from) is Some && view.place(to) is Some {
        match out {
            Some(path) => is_path(view, view.place(from)->0, view.place(to)->0, path),
            None => !network::connected(view.arcs(), view.place(from)->0, view.place(to)->0, false),
        }
    } else {
        out is None
    }
}

/// The places of the groups of two or more among the first `n`, ascending.
pub open spec fn ring_origins(groups: Seq<Vec<usize>>, n: int, origins: Seq<int>) -> bool {
    &&& forall|k: int| 0 <= k < origins.len() ==> 0 <= (#[trigger] origins[k]) < n && groups[origins[k]]@.len() > 1
    &&& forall|k: int, l: int| 0 <= k < l < origins.len() ==> (#[trigger] origins[k]) < (#[trigger] origins[l])
    &&& forall|d: int| 0 <= d < n && (#[trigger] groups[d])@.len() > 1 ==> origins.contains(d)
}

/// The rings are the groups of two or more.
pub open spec fn rings_from(view: GraphView, groups: Seq<Vec<usize>>, origins: Seq<int>, out: Seq<Vec<i64>>) -> bool {
    &&& network::mutual_groups(view.nodes().len(), view.arcs(), groups)
    &&& ring_origins(groups, groups.len() as int, origins)
    &&& out.len() == origins.len()
    &&& forall|k: int| 0 <= k < out.len() ==> (#[trigger] out[k])@ == ids_at(view.nodes(), network::places(groups[origins[k]]@))
}

/// The groups of two or more entities that reach each other.
pub open spec fn rings(view: GraphView, out: Seq<Vec<i64>>) -> bool {
    exists|groups: Seq<Vec<usize>>, origins: Seq<int>| #[trigger] rings_from(view, groups, origins, out)
}

// ── What a neighbourhood holds ────────────────────────────────────────

/// Up to `steps` edges lead from `base` to `x`.
pub open spec fn within(arcs: Seq<(int, int, Seq<char>)>, base: Set<int>, steps: nat, x: int) -> bool
    decreases steps,
{
    if steps == 0 {
        base.contains(x)
    } else {
        within(arcs, base, (steps - 1) as nat, x) || exists|u: int|
            within(arcs, base, (steps - 1) as nat, u) && #[trigger] network::step(arcs, u, x, false)
    }
}

proof fn successors_contain(arcs: Seq<(int, int, Seq<char>)>, n: int, x: int)
    ensures
        network::successors(arcs, n).contains(x) <==> network::step(arcs, n, x, false),
    decreases arcs.len(),
{
    if arcs.len() > 0 {
        let before = arcs.drop_last();
        let list = network::successors(arcs, n);
        let rest = network::successors(before, n);
        successors_contain(before, n, x);
        if network::step(before, n, x, false) {
            let k = choose|k: int| 0 <= k < before.len() && (#[trigger] before[k]).0 == n && before[k].1 == x;
            assert(arcs[k].0 == n && arcs[k].1 == x);
        }
        if network::step(arcs, n, x, false) {
            let k = choose|k: int| 0 <= k < arcs.len() && (#[trigger] arcs[k]).0 == n && arcs[k].1 == x;
            if k < before.len() {
                assert(before[k].0 == n && before[k].1 == x);
            }
        }
        if arcs.last().0 == n {
            assert(list[0] == arcs.last().1);
            if arcs.last().1 == x {
                assert(arcs[arcs.len() - 1].0 == n && arcs[arcs.len() - 1].1 == x);
            }
            if rest.contains(x) {
                let k = choose|k: int| 0 <= k < rest.len() && rest[k] == x;
                assert(list[k + 1] == x);
            }
            if list.contains(x) {
                let k = choose|k: int| 0 <= k < list.len() && list[k] == x;
                if k > 0 {
                    assert(rest[k - 1] == x);
                }
            }
        }
    }
}

proof fn all_successors_contain(arcs: Seq<(int, int, Seq<char>)>, level: Seq<int>, x: int)
    ensures
        all_successors(arcs, level).contains(x) <==> exists|u: int| level.contains(u) && #[trigger] network::step(arcs, u, x, false),
    decreases level.len(),
{
    if level.len() > 0 {
        let before = level.drop_last();
        let head = all_successors(arcs, before);
        let tail = network::successors(arcs, level.last());
        let all = all_successors(arcs, level);
        all_successors_contain(arcs, before, x);
        successors_contain(arcs, level.last(), x);
        assert(level == before.push(level.last()));
        if head.contains(x) {
            let k = choose|k: int| 0 <= k < head.len() && head[k] == x;
            assert(all[k] == x);
            let u = choose|u: int| before.contains(u) && #[trigger] network::step(arcs, u, x, false);
            int_push_contains(before, level.last(), u);
        }
        if tail.contains(x) {
            let k = choose|k: int| 0 <= k < tail.len() && tail[k] == x;
            assert(all[head.len() + k] == x);
            int_push_contains(before, level.last(), level.last());
        }
        if all.contains(x) {
            let k = choose|k: int| 0 <= k < all.len() && all[k] == x;
            if k < head.len() {
                assert(head[k] == x);
            } else {
                assert(tail[k - head.len()] == x);
            }
        }
        if exists|u: int| level.contains(u) && #[trigger] network::step(arcs, u, x, false) {
            let u = choose|u: int| level.contains(u) && #[trigger] network::step(arcs, u, x, false);
            int_push_contains(before, level.last(), u);
        }
    }
}

proof fn within_shift(arcs: Seq<(int, int, Seq<char>)>, base: Set<int>, wider: Set<int>, steps: nat, x: int)
    requires
        forall|y: int| #[trigger] wider.contains(y) <==> within(arcs, base, 1, y),
    ensures
        within(arcs, wider, steps, x) <==> within(arcs, base, (steps + 1) as nat, x),
    decreases steps,
{
    if steps > 0 {
        within_shift(arcs, base, wider, (steps - 1) as nat, x);
        assert forall|u: int| within(arcs, wider, (steps - 1) as nat, u) <==> within(arcs, base, steps, u) by {
            within_shift(arcs, base, wider, (steps - 1) as nat, u);
        }
        let more = (steps + 1) as nat;
        assert((more - 1) as nat == steps);
        if within(arcs, wider, steps, x) && !within(arcs, wider, (steps - 1) as nat, x) {
            let u = choose|u: int| within(arcs, wider, (steps - 1) as nat, u) && #[trigger] network::step(arcs, u, x, false);
            assert(within(arcs, base, steps, u));
            assert(within(arcs, base, more, x));
        }
        if within(arcs, base, more, x) && !within(arcs, base, steps, x) {
            let u = choose|u: int| within(arcs, base, steps, u) && #[trigger] network::step(arcs, u, x, false);
            assert(within(arcs, wider, (steps - 1) as nat, u));
            assert(within(arcs, wider, steps, x));
        }
        if within(arcs, wider, (steps - 1) as nat, x) {
            assert(within(arcs, base, more, x));
            assert(within(arcs, wider, steps, x));
        }
    } else {
        assert(within(arcs, wider, 0, x) <==> wider.contains(x));
    }
}

/// One step on from a level: what was seen grows by what one edge leads to, and only the new part
/// has edges that lead further.
proof fn widened(arcs: Seq<(int, int, Seq<char>)>, level: Seq<int>, seen: Set<int>)
    requires
        forall|u: int| level.contains(u) ==> #[trigger] seen.contains(u),
        forall|u: int, v: int| seen.contains(u) && !level.contains(u) && #[trigger] network::step(arcs, u, v, false) ==> seen.contains(v),
    ensures
        ({
            let next = unseen(all_successors(arcs, level), seen);
            let wider = seen.union(next.to_set());
            &&& forall|y: int| #[trigger] wider.contains(y) <==> within(arcs, seen, 1, y)
            &&& forall|u: int| next.contains(u) ==> #[trigger] wider.contains(u)
            &&& forall|u: int, v: int| wider.contains(u) && !next.contains(u) && #[trigger] network::step(arcs, u, v, false) ==> wider.contains(v)
        }),
{
    let next = unseen(all_successors(arcs, level), seen);
    let wider = seen.union(next.to_set());
    assert forall|y: int| next.contains(y) <==> !seen.contains(y) && exists|u: int|
        level.contains(u) && #[trigger] network::step(arcs, u, y, false) by {
        unseen_contains(all_successors(arcs, level), seen, y);
        all_successors_contain(arcs, level, y);
    }
    assert forall|y: int| #[trigger] wider.contains(y) <==> within(arcs, seen, 1, y) by {
        assert(wider.contains(y) <==> seen.contains(y) || next.contains(y));
        assert(within(arcs, seen, 0, y) <==> seen.contains(y));
        if next.contains(y) {
            let u = choose|u: int| level.contains(u) && #[trigger] network::step(arcs, u, y, false);
            assert(seen.contains(u));
            assert(within(arcs, seen, 0, u));
        }
        if within(arcs, seen, 1, y) && !seen.contains(y) {
            let u = choose|u: int| within(arcs, seen, 0, u) && #[trigger] network::step(arcs, u, y, false);
            assert(seen.contains(u));
            assert(level.contains(u));
        }
    }
    assert forall|u: int, v: int| wider.contains(u) && !next.contains(u) && #[trigger] network::step(arcs, u, v, false) implies wider.contains(v) by {
        assert(seen.contains(u));
        assert(within(arcs, seen, 0, u));
        assert(within(arcs, seen, 1, v));
    }
    assert forall|u: int| next.contains(u) implies #[trigger] wider.contains(u) by {}
}

proof fn levels_find(arcs: Seq<(int, int, Seq<char>)>, level: Seq<int>, seen: Set<int>, depth: nat, x: int)
    requires
        forall|u: int| level.contains(u) ==> #[trigger] seen.contains(u),
        forall|u: int, v: int| seen.contains(u) && !level.contains(u) && #[trigger] network::step(arcs, u, v, false) ==> seen.contains(v),
    ensures
        levels(arcs, level, seen, depth).contains(x) <==> within(arcs, seen, depth, x) && !seen.contains(x),
    decreases depth,
{
    if depth > 0 {
        let next = unseen(all_successors(arcs, level), seen);
        let wider = seen.union(next.to_set());
        widened(arcs, level, seen);
        unseen_contains(all_successors(arcs, level), seen, x);
        levels_find(arcs, next, wider, (depth - 1) as nat, x);
        within_shift(arcs, seen, wider, (depth - 1) as nat, x);
        let rest = levels(arcs, next, wider, (depth - 1) as nat);
        within_grows(arcs, seen, depth, x);
        if level.len() == 0 {
            assert(all_successors(arcs, level) == Seq::<int>::empty());
            assert(next == Seq::<int>::empty());
            assert(rest == Seq::<int>::empty());
            assert(levels(arcs, level, seen, depth) == Seq::<int>::empty());
            assert(wider == seen);
        } else {
            let all = levels(arcs, level, seen, depth);
            assert(all == next + rest);
            if next.contains(x) {
                let k = choose|k: int| 0 <= k < next.len() && next[k] == x;
                assert(all[k] == x);
                assert(wider.contains(x));
            }
            if rest.contains(x) {
                let k = choose|k: int| 0 <= k < rest.len() && rest[k] == x;
                assert(all[next.len() + k] == x);
            }
            if all.contains(x) {
                let k = choose|k: int| 0 <= k < all.len() && all[k] == x;
                if k < next.len() {
                    assert(next[k] == x);
                } else {
                    assert(rest[k - next.len()] == x);
                }
            }
        }
    }
}

proof fn within_grows(arcs: Seq<(int, int, Seq<char>)>, base: Set<int>, steps: nat, x: int)
    requires
        steps >= 1,
    ensures
        within(arcs, base, 1, x) ==> within(arcs, base, steps, x),
    decreases steps,
{
    if steps > 1 {
        within_grows(arcs, base, (steps - 1) as nat, x);
    }
}

/// An edge leads from one entity to another.
pub open spec fn edge_leads(view: GraphView, x: i64, y: i64) -> bool {
    exists|k: int| 0 <= k < view.arcs().len() && view.nodes()[(#[trigger] view.arcs()[k]).0] == x && view.nodes()[view.arcs()[k].1] == y
}

/// An edge leads from one place to another.
pub open spec fn arc_leads(view: GraphView, a: int, b: int) -> bool {
    exists|k: int| 0 <= k < view.arcs().len() && (#[trigger] view.arcs()[k]).0 == a && view.arcs()[k].1 == b
}

proof fn short_ways(view: GraphView, a: int, b: int)
    ensures
        a == b ==> network::leads(view.arcs(), seq![a], a, b, false),
        arc_leads(view, a, b) ==> network::leads(view.arcs(), seq![a, b], a, b, false),
{
    if arc_leads(view, a, b) {
        let hop = seq![a, b];
        assert(network::step(view.arcs(), hop[0], hop[1], false));
        assert forall|i: int| 0 < i < hop.len() implies network::step(view.arcs(), hop[i - 1], #[trigger] hop[i], false) by {
            assert(i == 1);
        }
    }
}

proof fn walk_goes_along_edges(view: GraphView, walk: Seq<int>)
    requires
        network::is_walk(view.arcs(), walk, false),
    ensures
        forall|i: int| 0 < i < walk.len() ==> edge_leads(view, ids_at(view.nodes(), walk)[i - 1], #[trigger] ids_at(view.nodes(), walk)[i]),
{
    assert forall|i: int| 0 < i < walk.len() implies edge_leads(
        view,
        ids_at(view.nodes(), walk)[i - 1],
        #[trigger] ids_at(view.nodes(), walk)[i],
    ) by {
        assert(network::step(view.arcs(), walk[i - 1], walk[i], false));
        let k = choose|k: int| 0 <= k < view.arcs().len() && (#[trigger] view.arcs()[k]).0 == walk[i - 1] && view.arcs()[k].1 == walk[i];
        assert(view.nodes()[view.arcs()[k].0] == ids_at(view.nodes(), walk)[i - 1]);
    }
}

/// A path starts at the one end, stops at the other, and goes along edges. Ends that are one entity
/// need no edge, and neighbours need one at most.
pub proof fn paths_join_their_ends(view: GraphView, from: i64, to: i64, path: Seq<i64>)
    requires
        path_is(view, from, to, Some(path)),
    ensures
        path.len() > 0,
        path[0] == view.stands_for(from),
        path.last() == view.stands_for(to),
        forall|i: int| 0 < i < path.len() ==> edge_leads(view, path[i - 1], #[trigger] path[i]),
        view.stands_for(from) == view.stands_for(to) ==> path.len() == 1,
        view.place(from) is Some && view.place(to) is Some,
        arc_leads(view, view.place(from)->0, view.place(to)->0) ==> path.len() <= 2,
{
    let start = view.place(from)->0;
    let goal = view.place(to)->0;
    assert(is_path(view, start, goal, path));
    let walk = choose|walk: Seq<int>| #[trigger] shortest(view, walk, start, goal) && path == ids_at(view.nodes(), walk);
    short_ways(view, start, goal);
    walk_goes_along_edges(view, walk);
    assert(path[0] == view.nodes()[walk[0]]);
    assert(path.last() == view.nodes()[walk.last()]);
    assert(view.nodes()[start] == view.stands_for(from));
    assert(view.nodes()[goal] == view.stands_for(to));
}

/// Where there is no path between two entities of the graph, they differ, and no edge leads from the
/// one to the other.
pub proof fn without_a_path_no_edge_leads(view: GraphView, from: i64, to: i64)
    requires
        path_is(view, from, to, None),
        view.nodes().contains(view.stands_for(from)),
        view.nodes().contains(view.stands_for(to)),
    ensures
        view.stands_for(from) != view.stands_for(to),
        !arc_leads(view, view.place(from)->0, view.place(to)->0),
{
    let start = view.place(from)->0;
    let goal = view.place(to)->0;
    short_ways(view, start, goal);
    assert(!network::connected(view.arcs(), start, goal, false));
}

/// Every group has two members or more, of which each reaches every other, and two entities that
/// reach each other are in a group together.
pub proof fn groups_reach_each_other(view: GraphView, out: Seq<Vec<i64>>)
    requires
        rings(view, out),
    ensures
        forall|c: int| 0 <= c < out.len() ==> (#[trigger] out[c])@.len() > 1,
        forall|c: int, k: int, l: int|
            0 <= c < out.len() && 0 <= k < out[c]@.len() && 0 <= l < out[c]@.len() ==> reaches_other(view, #[trigger] out[c]@[k], #[trigger] out[c]@[l]),
        forall|i: int, j: int|
            0 <= i < view.nodes().len() && 0 <= j < view.nodes().len() && i != j && #[trigger] network::connected(view.arcs(), i, j, false) && network::connected(
                view.arcs(),
                j,
                i,
                false,
            ) ==> exists|c: int| 0 <= c < out.len() && (#[trigger] out[c])@.contains(view.nodes()[i]) && out[c]@.contains(view.nodes()[j]),
{
    let nodes = view.nodes();
    let arcs = view.arcs();
    let (groups, origins) = choose|groups: Seq<Vec<usize>>, origins: Seq<int>| #[trigger] rings_from(view, groups, origins, out);
    assert forall|c: int, k: int, l: int| 0 <= c < out.len() && 0 <= k < out[c]@.len() && 0 <= l < out[c]@.len() implies reaches_other(
        view,
        #[trigger] out[c]@[k],
        #[trigger] out[c]@[l],
    ) by {
        let group = groups[origins[c]]@;
        assert(out[c]@ == ids_at(nodes, network::places(group)));
        assert(network::connected(arcs, group[k] as int, group[l] as int, false));
        assert(nodes[group[k] as int] == out[c]@[k]);
        assert(nodes[group[l] as int] == out[c]@[l]);
    }
    assert forall|i: int, j: int|
        0 <= i < nodes.len() && 0 <= j < nodes.len() && i != j && #[trigger] network::connected(view.arcs(), i, j, false) && network::connected(
            arcs,
            j,
            i,
            false,
        ) implies exists|c: int| 0 <= c < out.len() && (#[trigger] out[c])@.contains(nodes[i]) && out[c]@.contains(nodes[j]) by {
        assert(network::in_some_group(groups, i));
        assert(network::in_some_group(groups, j));
        let (d, k) = choose|d: int, k: int| 0 <= d < groups.len() && 0 <= k < groups[d]@.len() && #[trigger] groups[d]@[k] == i;
        let (e, l) = choose|e: int, l: int| 0 <= e < groups.len() && 0 <= l < groups[e]@.len() && #[trigger] groups[e]@[l] == j;
        if d < e {
            assert(!network::connected(arcs, groups[d]@[k] as int, groups[e]@[l] as int, false));
        }
        if e < d {
            assert(!network::connected(arcs, groups[e]@[l] as int, groups[d]@[k] as int, false));
        }
        assert(d == e);
        assert(groups[d]@.len() > 1);
        assert(origins.contains(d));
        let c = choose|c: int| 0 <= c < origins.len() && origins[c] == d;
        let ring = ids_at(nodes, network::places(groups[d]@));
        assert(out[c]@ == ring);
        assert(ring[k] == nodes[i]);
        assert(ring[l] == nodes[j]);
    }
}

/// One entity reaches another along the edges.
pub open spec fn reaches_other(view: GraphView, x: i64, y: i64) -> bool {
    exists|i: int, j: int|
        #![trigger view.nodes()[i], view.nodes()[j]]
        0 <= i < view.nodes().len() && 0 <= j < view.nodes().len() && view.nodes()[i] == x && view.nodes()[j] == y && network::connected(
            view.arcs(),
            i,
            j,
            false,
        )
}

/// A neighbourhood holds exactly the nodes that up to `depth` edges lead to, without the one it is
/// taken around.
pub proof fn neighbourhood_is_exact(arcs: Seq<(int, int, Seq<char>)>, start: int, depth: nat, x: int)
    ensures
        levels(arcs, seq![start], set![start], depth).contains(x) <==> within(arcs, set![start], depth, x) && x != start,
{
    let level = seq![start];
    assert forall|u: int| level.contains(u) implies #[trigger] set![start].contains(u) by {}
    assert(level[0] == start);
    assert(level.contains(start));
    levels_find(arcs, level, set![start], depth, x);
}

/// Up to `steps` edges lead from an entity to the node of `id`.
pub open spec fn reached(view: GraphView, root: i64, steps: nat, id: i64) -> bool {
    &&& view.place(root) is Some
    &&& view.nodes().contains(id)
    &&& within(view.arcs(), set![view.place(root)->0], steps, view.nodes().index_of(id))
}

proof fn unseen_unique(list: Seq<int>, seen: Set<int>)
    ensures
        unseen(list, seen).no_duplicates(),
    decreases list.len(),
{
    if list.len() > 0 {
        let before = unseen(list.drop_last(), seen);
        unseen_unique(list.drop_last(), seen);
        if !seen.contains(list.last()) && !before.contains(list.last()) {
            let all = before.push(list.last());
            assert forall|i: int, j: int| 0 <= i < all.len() && 0 <= j < all.len() && i != j implies all[i] != all[j] by {
                if i < before.len() {
                    assert(before.contains(before[i]));
                }
                if j < before.len() {
                    assert(before.contains(before[j]));
                }
            }
        }
    }
}

/// What levels find comes once, was not seen before, and comes in the order of its distance.
proof fn levels_in_order(arcs: Seq<(int, int, Seq<char>)>, level: Seq<int>, seen: Set<int>, depth: nat)
    requires
        forall|u: int| level.contains(u) ==> #[trigger] seen.contains(u),
        forall|u: int, v: int| seen.contains(u) && !level.contains(u) && #[trigger] network::step(arcs, u, v, false) ==> seen.contains(v),
    ensures
        ({
            let list = levels(arcs, level, seen, depth);
            &&& list.no_duplicates()
            &&& forall|i: int| 0 <= i < list.len() ==> !seen.contains(#[trigger] list[i])
            &&& forall|i: int, j: int, steps: nat|
                0 <= i < j < list.len() && #[trigger] within(arcs, seen, steps, list[j]) ==> #[trigger] within(arcs, seen, steps, list[i])
        }),
    decreases depth,
{
    let list = levels(arcs, level, seen, depth);
    if depth > 0 && level.len() > 0 {
        let next = unseen(all_successors(arcs, level), seen);
        let wider = seen.union(next.to_set());
        widened(arcs, level, seen);
        levels_in_order(arcs, next, wider, (depth - 1) as nat);
        unseen_unique(all_successors(arcs, level), seen);
        let rest = levels(arcs, next, wider, (depth - 1) as nat);
        assert(list == next + rest);
        assert forall|i: int| 0 <= i < list.len() implies !seen.contains(#[trigger] list[i]) by {
            if i < next.len() {
                assert(next.contains(list[i]));
                unseen_contains(all_successors(arcs, level), seen, list[i]);
            } else {
                assert(!wider.contains(rest[i - next.len()]));
            }
        }
        assert forall|i: int, j: int| 0 <= i < list.len() && 0 <= j < list.len() && i != j implies list[i] != list[j] by {
            let n = next.len();
            if i < n && j >= n {
                assert(next.contains(next[i]));
                assert(!wider.contains(rest[j - n]));
            } else if i >= n && j < n {
                assert(next.contains(next[j]));
                assert(!wider.contains(rest[i - n]));
            }
        }
        assert forall|i: int, j: int, steps: nat| 0 <= i < j < list.len() && #[trigger] within(arcs, seen, steps, list[j]) implies
            #[trigger] within(arcs, seen, steps, list[i]) by {
            assert(steps > 0) by {
                assert(!seen.contains(list[j]));
            }
            if i < next.len() {
                assert(next.contains(next[i]));
                assert(wider.contains(list[i]));
                assert(within(arcs, seen, 1, list[i]));
                within_grows(arcs, seen, steps, list[i]);
            } else {
                let less = (steps - 1) as nat;
                within_shift(arcs, seen, wider, less, list[j]);
                within_shift(arcs, seen, wider, less, list[i]);
                assert(within(arcs, wider, less, rest[j - next.len()]));
                assert(within(arcs, wider, less, rest[i - next.len()]));
            }
        }
    }
}

proof fn levels_stay_inside(arcs: Seq<(int, int, Seq<char>)>, level: Seq<int>, seen: Set<int>, depth: nat, nodes: int)
    requires
        forall|k: int| 0 <= k < arcs.len() ==> 0 <= (#[trigger] arcs[k]).1 < nodes,
    ensures
        within_nodes(levels(arcs, level, seen, depth), nodes),
    decreases depth,
{
    if depth > 0 && level.len() > 0 {
        let next = unseen(all_successors(arcs, level), seen);
        let wider = seen.union(next.to_set());
        levels_stay_inside(arcs, next, wider, (depth - 1) as nat, nodes);
        let rest = levels(arcs, next, wider, (depth - 1) as nat);
        let list = levels(arcs, level, seen, depth);
        assert forall|i: int| 0 <= i < list.len() implies 0 <= #[trigger] list[i] < nodes by {
            if i < next.len() {
                let x = next[i];
                assert(next.contains(x));
                unseen_contains(all_successors(arcs, level), seen, x);
                all_successors_contain(arcs, level, x);
                let u = choose|u: int| level.contains(u) && #[trigger] network::step(arcs, u, x, false);
                let k = choose|k: int| 0 <= k < arcs.len() && (#[trigger] arcs[k]).0 == u && arcs[k].1 == x;
                assert(arcs[k].1 == x);
            } else {
                assert(list[i] == rest[i - next.len()]);
            }
        }
    }
}

/// A neighbourhood holds exactly the nodes that up to `depth` edges lead to, each once, without the
/// node it is taken around, and the nearer before the farther. What a limit leaves is its front.
pub proof fn neighbourhood_is_in_order(view: GraphView, root: i64, depth: nat, limit: int)
    requires
        view.wf(),
    ensures
        ({
            let all = neighbourhood(view, root, depth);
            &&& forall|id: i64| #[trigger] all.contains(id) <==> reached(view, root, depth, id) && id != view.stands_for(root)
            &&& all.no_duplicates()
            &&& forall|i: int, j: int, steps: nat|
                0 <= i < j < all.len() && #[trigger] reached(view, root, steps, all[j]) ==> #[trigger] reached(view, root, steps, all[i])
            &&& limited(all, limit).is_prefix_of(all)
        }),
{
    let all = neighbourhood(view, root, depth);
    let nodes = view.nodes();
    let arcs = view.arcs();
    if view.place(root) is Some {
        let start = view.place(root)->0;
        let list = levels(arcs, seq![start], set![start], depth);
        let level = seq![start];
        assert(level[0] == start);
        assert(level.contains(start));
        assert(nodes[start] == view.stands_for(root));
        levels_in_order(arcs, level, set![start], depth);
        levels_stay_inside(arcs, level, set![start], depth, nodes.len() as int);
        assert forall|i: int| 0 <= i < all.len() implies #[trigger] nodes.index_of(all[i]) == list[i] by {
            let at = list[i];
            assert(0 <= at < nodes.len());
            assert(nodes[at] == all[i]);
            assert(nodes.contains(all[i]));
            let other = nodes.index_of(all[i]);
            assert(nodes[other] == all[i]);
        }
        assert forall|id: i64| #[trigger] all.contains(id) <==> reached(view, root, depth, id) && id != view.stands_for(root) by {
            if all.contains(id) {
                let i = choose|i: int| 0 <= i < all.len() && all[i] == id;
                assert(list.contains(list[i]));
                assert(0 <= list[i] < nodes.len());
                assert(nodes[list[i]] == id);
                assert(nodes.index_of(all[i]) == list[i]);
                neighbourhood_is_exact(arcs, start, depth, list[i]);
            }
            if reached(view, root, depth, id) && id != view.stands_for(root) {
                let at = nodes.index_of(id);
                assert(nodes[at] == id);
                neighbourhood_is_exact(arcs, start, depth, at);
                let i = choose|i: int| 0 <= i < list.len() && list[i] == at;
                assert(all[i] == id);
            }
        }
        assert forall|i: int, j: int| 0 <= i < all.len() && 0 <= j < all.len() && i != j implies all[i] != all[j] by {
            assert(nodes.index_of(all[i]) == list[i]);
            assert(nodes.index_of(all[j]) == list[j]);
        }
        assert forall|i: int, j: int, steps: nat| 0 <= i < j < all.len() && #[trigger] reached(view, root, steps, all[j]) implies
            #[trigger] reached(view, root, steps, all[i]) by {
            assert(nodes.index_of(all[i]) == list[i]);
            assert(nodes.index_of(all[j]) == list[j]);
            assert(within(arcs, set![start], steps, list[j]));
            assert(within(arcs, set![start], steps, list[i]));
            assert(nodes[list[i]] == all[i]);
        }
    }
    assert(limited(all, limit).is_prefix_of(all));
}

// ── Queries and rules ─────────────────────────────────────────────────

/// The query for the entities of a graph.
pub fn entities_sql(filter: &crate::types::ReadFilter) -> (out: Result<(String, Vec<crate::query::SqlValue>), Error>)
    ensures
        storage::refused(out, storage::filter_error(filter@)),
        out matches Ok((sql, values)) ==> sql@
            == "SELECT e.record_id FROM entities e JOIN records r ON r.id=e.record_id WHERE "@ + crate::query::filter_text(filter@, 1, false)
            && crate::query::value_views(values@) == crate::query::filter_values(filter@, seq![crate::types::RecordKind::Entity]),
{
    let kinds = vec![crate::types::RecordKind::Entity];
    assert(kinds@ == seq![crate::types::RecordKind::Entity]);
    let (condition, values) = crate::query::filter_sql(filter, &kinds, false)?;
    Ok(
        (
            chars::concat("SELECT e.record_id FROM entities e JOIN records r ON r.id=e.record_id WHERE ", condition.as_str()),
            values,
        ),
    )
}

/// The query for the relations of a graph, each with the rule of its predicate.
pub fn relation_rows_sql(filter: &crate::types::ReadFilter) -> (out: Result<(String, Vec<crate::query::SqlValue>), Error>)
    ensures
        storage::refused(out, storage::filter_error(filter@)),
        out matches Ok((sql, values)) ==> sql@
            == "SELECT rel.subject_id, rel.object_id, s.text, pr.is_symmetric, inv.text FROM relations rel JOIN records r ON r.id=rel.record_id JOIN strings s ON s.id=rel.predicate_id LEFT JOIN predicate_rules pr ON pr.predicate_id=rel.predicate_id LEFT JOIN strings inv ON inv.id=pr.inverse_predicate_id WHERE "@
            + crate::query::filter_text(filter@, 1, false) && crate::query::value_views(values@) == crate::query::filter_values(
            filter@,
            seq![crate::types::RecordKind::Relation],
        ),
{
    let kinds = vec![crate::types::RecordKind::Relation];
    assert(kinds@ == seq![crate::types::RecordKind::Relation]);
    let (condition, values) = crate::query::filter_sql(filter, &kinds, false)?;
    Ok(
        (
            chars::concat(
                "SELECT rel.subject_id, rel.object_id, s.text, pr.is_symmetric, inv.text FROM relations rel JOIN records r ON r.id=rel.record_id JOIN strings s ON s.id=rel.predicate_id LEFT JOIN predicate_rules pr ON pr.predicate_id=rel.predicate_id LEFT JOIN strings inv ON inv.id=pr.inverse_predicate_id WHERE ",
                condition.as_str(),
            ),
            values,
        ),
    )
}

/// What is wrong with the rule of a predicate.
pub open spec fn rule_error(predicate: Seq<char>, inverse: Option<Seq<char>>, symmetric: bool) -> Option<ErrorView> {
    if !storage::identity(predicate) {
        Some(storage::identity_error("predicate"@))
    } else if symmetric && inverse is Some {
        Some(ErrorView::Validation("a symmetric predicate must not declare an inverse"@))
    } else {
        match inverse {
            Some(i) => if storage::identity(i) {
                None
            } else {
                Some(storage::identity_error("inverse predicate"@))
            },
            None => None,
        }
    }
}

/// An optional text as characters.
pub open spec fn optional_view(text: Option<&str>) -> Option<Seq<char>> {
    match text {
        Some(t) => Some(t@),
        None => None,
    }
}

/// Checks the rule of a predicate: one that reads the same both ways has no other way back.
pub fn check_predicate_rule(predicate: &str, inverse: Option<&str>, symmetric: bool) -> (out: Result<(), Error>)
    ensures
        storage::refused(out, rule_error(predicate@, optional_view(inverse), symmetric)),
        out is Ok <==> storage::identity(predicate@) && (inverse matches Some(i) ==> !symmetric && storage::identity(i@)),
{
    storage::validate_identity("predicate", predicate)?;
    if symmetric && inverse.is_some() {
        return Err(Error::Validation("a symmetric predicate must not declare an inverse".to_owned()));
    }
    if let Some(text) = inverse {
        storage::validate_identity("inverse predicate", text)?;
    }
    Ok(())
}

/// The nodes that the vector path of a search is limited to: a neighbourhood and its centre.
pub fn allowed_ids(root: i64, neighbourhood: &Vec<i64>) -> (out: HashSet<i64>)
    ensures
        out@ == neighbourhood@.to_set().insert(root),
{
    let mut set = ids::id_set(neighbourhood);
    let _new = set.insert(root);
    set
}

} // verus!
