//! Graphs that a model extracted, one for each source record.
//!
//! A record's metadata lists entities, relations and events. Without a lookup database they become
//! drafts of their own, and names mean something only within their record; with one, they tell more
//! about the entities that are there.

use crate::chars;
use crate::decimal;
use crate::drafts::key;
use crate::error::{Error, ErrorView};
use crate::graph::{attribute_views, concept};
use crate::graph_drafts;
use crate::graph_drafts::{
    EntityDraft, EntityDraftView, EventDraft, EventDraftView, GraphDrafts, GraphDraftsView, RelationDraft,
    RelationDraftView,
};
use crate::json;
use crate::json::{Json, Tree};
use crate::legacy;
use crate::legacy::{ImportRequest, SourceRow};
use crate::ordering;
use crate::rendering;
use crate::text;
use crate::types::{Metadata, RecordInput, RecordInputView};
use vstd::prelude::*;

verus! {

// ── Items ─────────────────────────────────────────────────────────────

/// The items of a list; none where the value is no list.
pub open spec fn items_in(value: Option<Tree>) -> Seq<Tree> {
    match value {
        Some(Tree::Array(items)) => items,
        _ => Seq::empty(),
    }
}

/// A value as text: a text as it is, anything else as JSON.
pub open spec fn text_or_json(value: Tree) -> Seq<char> {
    match value {
        Tree::Text(t) => t,
        _ => rendering::rendered(value),
    }
}

fn plain_text(value: &Json) -> (out: String)
    ensures
        out@ == text_or_json(json::tree(*value)),
        *value matches Json::Text(t) ==> out@ == t@,
        !(*value is Text) ==> out@ == rendering::rendered(json::tree(*value)),
{
    match value {
        Json::Text(t) => t.clone(),
        _ => rendering::render(value),
    }
}

/// The values of an attribute: those in a list, or the one that it is.
pub open spec fn attribute_values(value: Tree) -> Seq<Seq<char>> {
    match value {
        Tree::Array(items) => Seq::new(items.len(), |i: int| text_or_json(items[i])),
        _ => seq![text_or_json(value)],
    }
}

fn read_values(value: &Json) -> (out: Vec<String>)
    ensures
        chars::texts(out@) == attribute_values(json::tree(*value)),
{
    let mut out: Vec<String> = Vec::new();
    match value {
        Json::Array(items) => {
            let ghost all = json::trees(items@);
            let ghost wanted = Seq::new(all.len(), |i: int| text_or_json(all[i]));
            proof {
                json::tree_of_array(*items);
            }
            let mut i: usize = 0;
            while i < items.len()
                invariant
                    i <= items.len(),
                    all == json::trees(items@),
                    wanted == Seq::new(all.len(), |i: int| text_or_json(all[i])),
                    chars::texts(out@) == wanted.take(i as int),
                decreases items.len() - i,
            {
                let ghost before = chars::texts(out@);
                out.push(plain_text(&items[i]));
                assert(chars::texts(out@) == before.push(wanted[i as int]));
                assert(wanted.take(i + 1) == wanted.take(i as int).push(wanted[i as int]));
                i = i + 1;
            }
            assert(wanted.take(wanted.len() as int) == wanted);
        },
        _ => {
            out.push(plain_text(value));
            assert(chars::texts(out@) == seq![text_or_json(json::tree(*value))]);
        },
    }
    out
}

/// The attributes in an object, in the order of its keys.
pub open spec fn extracted_attributes(value: Option<Tree>) -> Seq<(Seq<char>, Seq<Seq<char>>)> {
    match value {
        Some(Tree::Object(fields)) => Seq::new(fields.len(), |i: int| (fields[i].0, attribute_values(fields[i].1))),
        _ => Seq::empty(),
    }
}

/// The attributes in an object.
pub fn attributes(value: Option<&Json>) -> (out: Vec<(String, Vec<String>)>)
    ensures
        attribute_views(out@) == extracted_attributes(json::optional_tree(value)),
{
    let mut out: Vec<(String, Vec<String>)> = Vec::new();
    match value {
        Some(Json::Object(fields)) => {
            let ghost all = json::field_trees(fields@);
            let ghost wanted = Seq::new(all.len(), |i: int| (all[i].0, attribute_values(all[i].1)));
            proof {
                json::tree_of_object(*fields);
            }
            let mut i: usize = 0;
            while i < fields.len()
                invariant
                    i <= fields.len(),
                    all == json::field_trees(fields@),
                    wanted == Seq::new(all.len(), |i: int| (all[i].0, attribute_values(all[i].1))),
                    attribute_views(out@) == wanted.take(i as int),
                decreases fields.len() - i,
            {
                let ghost before = attribute_views(out@);
                out.push((fields[i].0.clone(), read_values(&fields[i].1)));
                assert(attribute_views(out@) == before.push(wanted[i as int]));
                assert(wanted.take(i + 1) == wanted.take(i as int).push(wanted[i as int]));
                i = i + 1;
            }
            assert(wanted.take(wanted.len() as int) == wanted);
        },
        _ => {
            assert(attribute_views(out@) == Seq::<(Seq<char>, Seq<Seq<char>>)>::empty());
        },
    }
    out
}

// ── Records ───────────────────────────────────────────────────────────

/// The id of the source record.
pub open spec fn graph_id(row: SourceRow) -> Seq<char> {
    legacy::cell(row.fields@, "id"@)
}

/// The metadata of the source record, which must have been read.
pub open spec fn graph_meta(row: SourceRow) -> Seq<(Seq<char>, Tree)> {
    (row.metadata->Ok_0)@
}

/// The id of the item at a place.
pub open spec fn item_id(row: SourceRow, i: int) -> Seq<char> {
    graph_id(row) + ":"@ + decimal::integer_text(i)
}

/// The record of an item, or why there is none. The item is kept in its metadata.
pub open spec fn item_record(req: ImportRequest, table: Seq<char>, row: SourceRow, i: int, item: Seq<(Seq<char>, Tree)>) -> Result<RecordInputView, ErrorView> {
    let meta = graph_meta(row);
    match legacy::record_of(req, table, item_id(row, i), row, legacy::cell(meta, "domain"@)) {
        Err(error) => Err(error),
        Ok(record) => Ok(
            RecordInputView {
                metadata: json::with_field(record.metadata, "extraction"@, Tree::Object(item)),
                evidence: legacy::evidence_of(json::lookup(item, "evidence"@), meta),
                ..record
            },
        ),
    }
}

fn read_item_id(row: &SourceRow, i: usize) -> (out: String)
    ensures
        out@ == item_id(*row, i as int),
{
    let mut out = legacy::string(&row.fields, "id");
    out.append(":");
    out.append(decimal::decimal_usize(i).as_str());
    out
}

/// The record of an item keeps the item, shows the evidence that stands in it, and belongs to the
/// namespace of its graph's domain.
pub proof fn item_records_keep_their_item(req: ImportRequest, table: Seq<char>, row: SourceRow, i: int, item: Seq<(Seq<char>, Tree)>)
    ensures
        item_record(req, table, row, i, item) matches Ok(r) ==> {
            let meta = (row.metadata->Ok_0)@;
            let domain = legacy::cell(meta, "domain"@);
            &&& r.evidence == legacy::evidence_of(json::lookup(item, "evidence"@), meta)
            &&& json::lookup(r.metadata, "extraction"@) == Some(Tree::Object(item))
            &&& req.source == legacy::LegacySource::WorldTree && !chars::blank(domain) ==> r.namespace == req.namespace@ + "/"@ + chars::trim(domain)
            &&& req.source != legacy::LegacySource::WorldTree || chars::blank(domain) ==> r.namespace == req.namespace@
        },
{
    let meta = (row.metadata->Ok_0)@;
    if let Ok(record) = legacy::record_of(req, table, item_id(row, i), row, legacy::cell(meta, "domain"@)) {
        json::set_then_find(record.metadata, "extraction"@, Tree::Object(item), "extraction"@);
    }
}

fn read_item_record(req: &ImportRequest, table: &str, row: &SourceRow, meta: &Metadata, i: usize, item: &Metadata) -> (out: Result<RecordInput, Error>)
    requires
        row.metadata is Ok,
        meta@ == graph_meta(*row),
    ensures
        legacy::record_outcome(out, item_record(*req, table@, *row, i as int, item@)),
        out matches Ok(r) ==> {
            let domain = legacy::cell(meta@, "domain"@);
            &&& r@.evidence == legacy::evidence_of(json::lookup(item@, "evidence"@), meta@)
            &&& json::lookup(r@.metadata, "extraction"@) == Some(Tree::Object(item@))
            &&& req.source == legacy::LegacySource::WorldTree && !chars::blank(domain) ==> r@.namespace == req.namespace@ + "/"@ + chars::trim(domain)
            &&& req.source != legacy::LegacySource::WorldTree || chars::blank(domain) ==> r@.namespace == req.namespace@
        },
{
    proof {
        item_records_keep_their_item(*req, table@, *row, i as int, item@);
    }
    let sid = read_item_id(row, i);
    let domain = legacy::string(meta, "domain");
    let mut record = match legacy::record(req, table, sid.as_str(), row, domain.as_str()) {
        Ok(record) => record,
        Err(error) => return Err(error),
    };
    let fields = json::copy_fields(&item.entries);
    proof {
        json::tree_of_object(fields);
    }
    json::set_field(&mut record.metadata.entries, "extraction".to_owned(), Json::Object(fields));
    record.evidence = legacy::evidence(json::find(&item.entries, "evidence"), meta);
    Ok(record)
}

// ── Progress ──────────────────────────────────────────────────────────

/// How far the reading of graphs has come: what was drafted, which names stand for which entities
/// within the record, and the error that stopped it, if any did.
pub struct Progress {
    pub graph: GraphDraftsView,
    pub local: Seq<(Seq<char>, Seq<char>)>,
    pub error: Option<ErrorView>,
}

/// Names with one more, unless it stands for the same entity already.
pub open spec fn with_name(local: Seq<(Seq<char>, Seq<char>)>, name: Seq<char>, entity: Seq<char>) -> Seq<(Seq<char>, Seq<char>)> {
    let pair = (text::tag_form(name), entity);
    if local.contains(pair) {
        local
    } else {
        local.push(pair)
    }
}

/// Names with all names of an entity.
pub open spec fn with_names(local: Seq<(Seq<char>, Seq<char>)>, names: Seq<Seq<char>>, entity: Seq<char>) -> Seq<(Seq<char>, Seq<char>)>
    decreases names.len(),
{
    if names.len() == 0 {
        local
    } else {
        with_name(with_names(local, names.drop_last(), entity), names.last(), entity)
    }
}

/// The entity of an item.
pub open spec fn item_entity(row: SourceRow, i: int, item: Seq<(Seq<char>, Tree)>, record: RecordInputView) -> EntityDraftView {
    EntityDraftView {
        table: "extracted_entities"@,
        source_id: item_id(row, i),
        record,
        name: legacy::cell(item, "name"@),
        entity_type: graph_drafts::type_or_concept(legacy::cell(item, "type"@)),
        aliases: legacy::texts_or_one(json::lookup(item, "aliases"@)),
        attributes: extracted_attributes(json::lookup(item, "attributes"@)),
        summary: legacy::cell(item, "summary"@),
    }
}

/// After the entity at a place was read. What is no object is passed over.
pub open spec fn entity_step(s: Progress, req: ImportRequest, row: SourceRow, i: int, item: Tree) -> Progress {
    match item {
        Tree::Object(fields) => match item_record(req, "extracted_entities"@, row, i, fields) {
            Err(error) => Progress { error: Some(error), ..s },
            Ok(record) => {
                let entity = item_entity(row, i, fields, record);
                Progress {
                    graph: GraphDraftsView { entities: s.graph.entities.push(entity), ..s.graph },
                    local: with_names(s.local, seq![entity.name] + entity.aliases, entity.key()),
                    error: None,
                }
            },
        },
        _ => s,
    }
}

/// After the first `n` entities were read.
pub open spec fn entity_steps(s: Progress, req: ImportRequest, row: SourceRow, items: Seq<Tree>, n: int) -> Progress
    decreases n,
{
    if n <= 0 {
        s
    } else {
        let before = entity_steps(s, req, row, items, n - 1);
        if before.error is Some {
            before
        } else {
            entity_step(before, req, row, n - 1, items[n - 1])
        }
    }
}

/// An entity that is only referred to.
pub open spec fn inferred_entity(row: SourceRow, name: Seq<char>, record: RecordInputView) -> EntityDraftView {
    EntityDraftView {
        table: "inferred_entities"@,
        source_id: graph_id(row) + ":"@ + name,
        record: RecordInputView {
            metadata: json::with_field(record.metadata, "inferred_from_legacy_reference"@, Tree::Bool(true)),
            ..record
        },
        name,
        entity_type: "concept"@,
        aliases: Seq::empty(),
        attributes: Seq::empty(),
        summary: Seq::empty(),
    }
}

/// After a name was resolved, and the key that it stands for. A name that nothing has becomes an
/// entity of its own; one that several entities have is a conflict.
pub open spec fn resolve_step(s: Progress, req: ImportRequest, row: SourceRow, reference: Seq<char>) -> (Progress, Seq<char>) {
    let name = chars::trim(reference);
    let found = legacy::paired(s.local, text::tag_form(name));
    if name.len() == 0 {
        (
            Progress { error: Some(ErrorView::Validation("empty entity reference in graph "@ + graph_id(row))), ..s },
            Seq::empty(),
        )
    } else if found.len() == 1 {
        (s, found[0])
    } else if found.len() > 1 {
        (
            Progress {
                error: Some(ErrorView::Conflict("ambiguous entity "@ + name + " in graph "@ + graph_id(row))),
                ..s
            },
            Seq::empty(),
        )
    } else {
        match legacy::record_of(
            req,
            "inferred_entities"@,
            graph_id(row) + ":"@ + name,
            row,
            legacy::cell(graph_meta(row), "domain"@),
        ) {
            Err(error) => (Progress { error: Some(error), ..s }, Seq::empty()),
            Ok(record) => {
                let entity = inferred_entity(row, name, record);
                (
                    Progress {
                        graph: GraphDraftsView { entities: s.graph.entities.push(entity), ..s.graph },
                        local: s.local.push((text::tag_form(name), entity.key())),
                        error: None,
                    },
                    entity.key(),
                )
            },
        }
    }
}

/// After the relation at a place was read.
pub open spec fn relation_step(s: Progress, req: ImportRequest, row: SourceRow, i: int, item: Tree) -> Progress {
    match item {
        Tree::Object(fields) => {
            let subject = resolve_step(s, req, row, legacy::cell(fields, "subject"@));
            if subject.0.error is Some {
                subject.0
            } else {
                let object = resolve_step(subject.0, req, row, legacy::cell(fields, "object"@));
                if object.0.error is Some {
                    object.0
                } else {
                    match item_record(req, "extracted_relations"@, row, i, fields) {
                        Err(error) => Progress { error: Some(error), ..object.0 },
                        Ok(record) => Progress {
                            graph: GraphDraftsView {
                                relations: object.0.graph.relations.push(
                                    RelationDraftView {
                                        table: "extracted_relations"@,
                                        source_id: item_id(row, i),
                                        record,
                                        subject: subject.1,
                                        predicate: legacy::cell(fields, "predicate"@),
                                        object: object.1,
                                        confidence: legacy::number_cell(fields, "confidence"@),
                                        reason: legacy::cell(fields, "reason"@),
                                    },
                                ),
                                ..object.0.graph
                            },
                            ..object.0
                        },
                    }
                }
            }
        },
        _ => s,
    }
}

/// After the first `n` relations were read.
pub open spec fn relation_steps(s: Progress, req: ImportRequest, row: SourceRow, items: Seq<Tree>, n: int) -> Progress
    decreases n,
{
    if n <= 0 {
        s
    } else {
        let before = relation_steps(s, req, row, items, n - 1);
        if before.error is Some {
            before
        } else {
            relation_step(before, req, row, n - 1, items[n - 1])
        }
    }
}

/// After the first `n` names were resolved, and their keys.
pub open spec fn resolve_steps(s: Progress, req: ImportRequest, row: SourceRow, names: Seq<Seq<char>>, n: int) -> (Progress, Seq<Seq<char>>)
    decreases n,
{
    if n <= 0 {
        (s, Seq::empty())
    } else {
        let before = resolve_steps(s, req, row, names, n - 1);
        if before.0.error is Some {
            before
        } else {
            let one = resolve_step(before.0, req, row, names[n - 1]);
            (one.0, before.1.push(one.1))
        }
    }
}

/// After the event at a place was read.
pub open spec fn event_step(s: Progress, req: ImportRequest, row: SourceRow, i: int, item: Tree) -> Progress {
    match item {
        Tree::Object(fields) => {
            let names = legacy::texts_or_one(json::lookup(fields, "participants"@));
            let resolved = resolve_steps(s, req, row, names, names.len() as int);
            if resolved.0.error is Some {
                resolved.0
            } else {
                match item_record(req, "extracted_events"@, row, i, fields) {
                    Err(error) => Progress { error: Some(error), ..resolved.0 },
                    Ok(record) => Progress {
                        graph: GraphDraftsView {
                            events: resolved.0.graph.events.push(
                                EventDraftView {
                                    table: "extracted_events"@,
                                    source_id: item_id(row, i),
                                    record,
                                    name: legacy::cell(fields, "name"@),
                                    summary: legacy::cell(fields, "summary"@),
                                    participants: resolved.1,
                                    confidence: legacy::number_cell(fields, "confidence"@),
                                    reason: legacy::cell(fields, "reason"@),
                                },
                            ),
                            ..resolved.0.graph
                        },
                        ..resolved.0
                    },
                }
            }
        },
        _ => s,
    }
}

/// After the first `n` events were read.
pub open spec fn event_steps(s: Progress, req: ImportRequest, row: SourceRow, items: Seq<Tree>, n: int) -> Progress
    decreases n,
{
    if n <= 0 {
        s
    } else {
        let before = event_steps(s, req, row, items, n - 1);
        if before.error is Some {
            before
        } else {
            event_step(before, req, row, n - 1, items[n - 1])
        }
    }
}

/// After the graph of a record was read: its entities, then its relations, then its events. Names
/// of earlier records are forgotten.
pub open spec fn graph_step(s: Progress, req: ImportRequest, row: SourceRow) -> Progress {
    if row.metadata is Err {
        Progress { error: Some(ErrorView::Json((row.metadata->Err_0)@)), ..s }
    } else {
        let meta = graph_meta(row);
        let entities = items_in(json::lookup(meta, "entities"@));
        let relations = items_in(json::lookup(meta, "relations"@));
        let events = items_in(json::lookup(meta, "events"@));
        let one = entity_steps(Progress { local: Seq::empty(), ..s }, req, row, entities, entities.len() as int);
        if one.error is Some {
            one
        } else {
            let two = relation_steps(one, req, row, relations, relations.len() as int);
            if two.error is Some {
                two
            } else {
                event_steps(two, req, row, events, events.len() as int)
            }
        }
    }
}

/// After the graphs of the first `n` records were read.
pub open spec fn graph_steps(s: Progress, req: ImportRequest, rows: Seq<SourceRow>, n: int) -> Progress
    decreases n,
{
    if n <= 0 {
        s
    } else {
        let before = graph_steps(s, req, rows, n - 1);
        if before.error is Some {
            before
        } else {
            graph_step(before, req, rows[n - 1])
        }
    }
}

// ── Reading ───────────────────────────────────────────────────────────

/// The reading of graphs.
#[derive(Debug)]
pub struct Extraction {
    pub graph: GraphDrafts,
    pub local: Vec<(String, String)>,
}

/// Where a step leads: to the wanted progress, or to its error.
pub open spec fn reached<T>(out: Result<T, Error>, after: Progress, wanted: Progress) -> bool {
    match out {
        Ok(_) => wanted == after,
        Err(error) => wanted.error == Some(error@),
    }
}

/// The fields of an item; none where it is no object.
pub open spec fn object_fields(item: Tree) -> Option<Seq<(Seq<char>, Tree)>> {
    match item {
        Tree::Object(fields) => Some(fields),
        _ => None,
    }
}

pub(crate) fn read_object(item: &Json) -> (out: Option<Metadata>)
    ensures
        match out {
            Some(fields) => object_fields(json::tree(*item)) == Some(fields@),
            None => object_fields(json::tree(*item)) is None,
        },
{
    match item {
        Json::Object(fields) => {
            proof {
                json::tree_of_object(*fields);
            }
            Some(Metadata { entries: json::copy_fields(fields) })
        },
        _ => None,
    }
}

/// The items of a list, copied.
pub(crate) fn read_items(value: Option<&Json>) -> (out: Vec<Json>)
    ensures
        json::trees(out@) == items_in(json::optional_tree(value)),
{
    match value {
        Some(Json::Array(items)) => {
            proof {
                json::tree_of_array(*items);
            }
            json::copy_items(items)
        },
        _ => {
            let out: Vec<Json> = Vec::new();
            assert(json::trees(out@) == Seq::<Tree>::empty());
            out
        },
    }
}

impl Extraction {
    /// How far the reading has come.
    pub open spec fn progress(self) -> Progress {
        Progress { graph: self.graph@, local: legacy::pair_views(self.local@), error: None }
    }

    /// Nothing was read.
    pub fn new() -> (out: Self)
        ensures
            out.progress() == (Progress {
                graph: GraphDraftsView { entities: Seq::empty(), relations: Seq::empty(), events: Seq::empty() },
                local: Seq::empty(),
                error: None,
            }),
    {
        let out = Extraction {
            graph: GraphDrafts { entities: Vec::new(), relations: Vec::new(), events: Vec::new() },
            local: Vec::new(),
        };
        assert(out.progress().graph.entities == Seq::<EntityDraftView>::empty());
        assert(out.progress().graph.relations == Seq::<RelationDraftView>::empty());
        assert(out.progress().graph.events == Seq::<EventDraftView>::empty());
        assert(out.progress().local == Seq::<(Seq<char>, Seq<char>)>::empty());
        out
    }

    fn add_entity(&mut self, entity: EntityDraft)
        ensures
            final(self).progress() == (Progress {
                graph: GraphDraftsView {
                    entities: old(self).progress().graph.entities.push(entity@),
                    ..old(self).progress().graph
                },
                ..old(self).progress()
            }),
            final(self).local == old(self).local,
    {
        let ghost before = graph_drafts::entity_views(self.graph.entities@);
        self.graph.entities.push(entity);
        assert(graph_drafts::entity_views(self.graph.entities@) == before.push(entity@));
    }

    fn add_name(&mut self, name: &str, entity: &str)
        ensures
            final(self).progress() == (Progress {
                local: with_name(old(self).progress().local, name@, entity@),
                ..old(self).progress()
            }),
            final(self).graph == old(self).graph,
    {
        let form = text::normalized_tag(name);
        let ghost before = legacy::pair_views(self.local@);
        let ghost pair = (form@, entity@);
        let mut i: usize = 0;
        while i < self.local.len()
            invariant
                i <= self.local.len(),
                *self == *old(self),
                before == legacy::pair_views(self.local@),
                pair == (form@, entity@),
                form@ == text::tag_form(name@),
                forall|k: int| 0 <= k < i ==> #[trigger] before[k] != pair,
            decreases self.local.len() - i,
        {
            if ordering::same_text(self.local[i].0.as_str(), form.as_str()) && ordering::same_text(self.local[i].1.as_str(), entity) {
                assert(before[i as int] == pair);
                return;
            }
            i = i + 1;
        }
        self.local.push((form, entity.to_owned()));
        assert(legacy::pair_views(self.local@) == before.push(pair));
    }

    fn add_names(&mut self, names: &Vec<String>, entity: &str)
        ensures
            final(self).progress() == (Progress {
                local: with_names(old(self).progress().local, chars::texts(names@), entity@),
                ..old(self).progress()
            }),
            final(self).graph == old(self).graph,
    {
        let ghost all = chars::texts(names@);
        let ghost start = self.progress();
        let mut i: usize = 0;
        assert(all.take(0) == Seq::<Seq<char>>::empty());
        while i < names.len()
            invariant
                i <= names.len(),
                all == chars::texts(names@),
                self.progress() == (Progress { local: with_names(start.local, all.take(i as int), entity@), ..start }),
                self.graph == old(self).graph,
            decreases names.len() - i,
        {
            assert(all.take(i + 1).last() == names@[i as int]@);
            assert(all.take(i + 1).drop_last() == all.take(i as int));
            self.add_name(names[i].as_str(), entity);
            i = i + 1;
        }
        assert(all.take(all.len() as int) == all);
    }

    fn read_entity(&mut self, req: &ImportRequest, row: &SourceRow, meta: &Metadata, i: usize, item: &Json) -> (out: Result<(), Error>)
        requires
            row.metadata is Ok,
            meta@ == graph_meta(*row),
        ensures
            reached(out, final(self).progress(), entity_step(old(self).progress(), *req, *row, i as int, json::tree(*item))),
    {
        let fields = match read_object(item) {
            Some(fields) => fields,
            None => return Ok(()),
        };
        let record = match read_item_record(req, "extracted_entities", row, meta, i, &fields) {
            Ok(record) => record,
            Err(error) => return Err(error),
        };
        let entity = EntityDraft {
            table: "extracted_entities".to_owned(),
            source_id: read_item_id(row, i),
            record,
            name: legacy::string(&fields, "name"),
            entity_type: graph_drafts::entity_type(legacy::string(&fields, "type")),
            aliases: legacy::strings(json::find(&fields.entries, "aliases")),
            attributes: attributes(json::find(&fields.entries, "attributes")),
            summary: legacy::string(&fields, "summary"),
        };
        let mut names: Vec<String> = Vec::new();
        names.push(entity.name.clone());
        let mut aliases = chars::copy_strings(&entity.aliases);
        let ghost others = chars::texts(aliases@);
        names.append(&mut aliases);
        assert(chars::texts(names@) == seq![entity.name@] + others);
        let entity_key = entity.key();
        self.add_names(&names, entity_key.as_str());
        self.add_entity(entity);
        Ok(())
    }

    fn read_entities(&mut self, req: &ImportRequest, row: &SourceRow, meta: &Metadata, items: &Vec<Json>) -> (out: Result<(), Error>)
        requires
            row.metadata is Ok,
            meta@ == graph_meta(*row),
        ensures
            reached(
                out,
                final(self).progress(),
                entity_steps(old(self).progress(), *req, *row, json::trees(items@), items@.len() as int),
            ),
    {
        let ghost start = self.progress();
        let ghost all = json::trees(items@);
        let mut i: usize = 0;
        while i < items.len()
            invariant
                i <= items.len(),
                row.metadata is Ok,
                meta@ == graph_meta(*row),
                all == json::trees(items@),
                start == old(self).progress(),
                self.progress() == entity_steps(start, *req, *row, all, i as int),
            decreases items.len() - i,
        {
            assert(all[i as int] == json::tree(items@[i as int]));
            if let Err(error) = self.read_entity(req, row, meta, i, &items[i]) {
                proof {
                    entity_error_stays(start, *req, *row, all, i + 1, all.len() as int);
                }
                return Err(error);
            }
            i = i + 1;
        }
        Ok(())
    }

    /// Resolves a name within the record; what nothing has becomes an entity of its own.
    fn resolve(&mut self, req: &ImportRequest, row: &SourceRow, meta: &Metadata, reference: &str) -> (out: Result<String, Error>)
        requires
            row.metadata is Ok,
            meta@ == graph_meta(*row),
        ensures
            reached(out, final(self).progress(), resolve_step(old(self).progress(), *req, *row, reference@).0),
            out matches Ok(found) ==> found@ == resolve_step(old(self).progress(), *req, *row, reference@).1,
    {
        let name = chars::trimmed(reference);
        let old_id = legacy::string(&row.fields, "id");
        proof {
            reveal_strlit("");
            if name@.len() == 0 {
                assert(name@ == ""@);
            }
        }
        if ordering::same_text(name.as_str(), "") {
            return Err(Error::Validation(chars::concat("empty entity reference in graph ", old_id.as_str())));
        }
        let form = text::normalized_tag(name.as_str());
        let mut found = legacy::paired_with(&self.local, form.as_str());
        proof {
            let keys = legacy::paired(self.progress().local, form@);
            assert(chars::texts(found@) == keys);
            assert(found@.len() == keys.len());
            if found@.len() > 0 {
                assert(keys[0] == found@[0]@);
            }
        }
        if found.len() == 1 {
            return Ok(found.remove(0));
        }
        if found.len() > 1 {
            let mut message = chars::concat("ambiguous entity ", name.as_str());
            message.append(" in graph ");
            message.append(old_id.as_str());
            return Err(Error::Conflict(message));
        }
        let mut sid = old_id;
        sid.append(":");
        sid.append(name.as_str());
        let domain = legacy::string(meta, "domain");
        let mut record = match legacy::record(req, "inferred_entities", sid.as_str(), row, domain.as_str()) {
            Ok(record) => record,
            Err(error) => return Err(error),
        };
        json::set_field(&mut record.metadata.entries, "inferred_from_legacy_reference".to_owned(), Json::Bool(true));
        let entity = EntityDraft {
            table: "inferred_entities".to_owned(),
            source_id: sid,
            record,
            name,
            entity_type: concept(),
            aliases: Vec::new(),
            attributes: Vec::new(),
            summary: String::new(),
        };
        assert(entity@.aliases == Seq::<Seq<char>>::empty());
        assert(entity@.attributes == Seq::<(Seq<char>, Seq<Seq<char>>)>::empty());
        let entity_key = entity.key();
        let ghost before = legacy::pair_views(self.local@);
        self.local.push((form, entity_key.clone()));
        assert(legacy::pair_views(self.local@) == before.push((form@, entity_key@)));
        self.add_entity(entity);
        Ok(entity_key)
    }

    fn read_relation(&mut self, req: &ImportRequest, row: &SourceRow, meta: &Metadata, i: usize, item: &Json) -> (out: Result<(), Error>)
        requires
            row.metadata is Ok,
            meta@ == graph_meta(*row),
        ensures
            reached(out, final(self).progress(), relation_step(old(self).progress(), *req, *row, i as int, json::tree(*item))),
    {
        let fields = match read_object(item) {
            Some(fields) => fields,
            None => return Ok(()),
        };
        let subject = match self.resolve(req, row, meta, legacy::string(&fields, "subject").as_str()) {
            Ok(subject) => subject,
            Err(error) => return Err(error),
        };
        let object = match self.resolve(req, row, meta, legacy::string(&fields, "object").as_str()) {
            Ok(object) => object,
            Err(error) => return Err(error),
        };
        let record = match read_item_record(req, "extracted_relations", row, meta, i, &fields) {
            Ok(record) => record,
            Err(error) => return Err(error),
        };
        let relation = RelationDraft {
            table: "extracted_relations".to_owned(),
            source_id: read_item_id(row, i),
            record,
            subject,
            predicate: legacy::string(&fields, "predicate"),
            object,
            confidence: legacy::number(&fields, "confidence"),
            reason: legacy::string(&fields, "reason"),
        };
        let ghost before = graph_drafts::relation_views(self.graph.relations@);
        self.graph.relations.push(relation);
        assert(graph_drafts::relation_views(self.graph.relations@) == before.push(relation@));
        Ok(())
    }

    fn read_relations(&mut self, req: &ImportRequest, row: &SourceRow, meta: &Metadata, items: &Vec<Json>) -> (out: Result<(), Error>)
        requires
            row.metadata is Ok,
            meta@ == graph_meta(*row),
        ensures
            reached(
                out,
                final(self).progress(),
                relation_steps(old(self).progress(), *req, *row, json::trees(items@), items@.len() as int),
            ),
    {
        let ghost start = self.progress();
        let ghost all = json::trees(items@);
        let mut i: usize = 0;
        while i < items.len()
            invariant
                i <= items.len(),
                row.metadata is Ok,
                meta@ == graph_meta(*row),
                all == json::trees(items@),
                start == old(self).progress(),
                self.progress() == relation_steps(start, *req, *row, all, i as int),
            decreases items.len() - i,
        {
            assert(all[i as int] == json::tree(items@[i as int]));
            if let Err(error) = self.read_relation(req, row, meta, i, &items[i]) {
                proof {
                    relation_error_stays(start, *req, *row, all, i + 1, all.len() as int);
                }
                return Err(error);
            }
            i = i + 1;
        }
        Ok(())
    }

    fn resolve_all(&mut self, req: &ImportRequest, row: &SourceRow, meta: &Metadata, names: &Vec<String>) -> (out: Result<Vec<String>, Error>)
        requires
            row.metadata is Ok,
            meta@ == graph_meta(*row),
        ensures
            reached(
                out,
                final(self).progress(),
                resolve_steps(old(self).progress(), *req, *row, chars::texts(names@), names@.len() as int).0,
            ),
            out matches Ok(found) ==> chars::texts(found@) == resolve_steps(
                old(self).progress(),
                *req,
                *row,
                chars::texts(names@),
                names@.len() as int,
            ).1,
    {
        let ghost start = self.progress();
        let ghost all = chars::texts(names@);
        let mut out: Vec<String> = Vec::new();
        let mut i: usize = 0;
        assert(chars::texts(out@) == Seq::<Seq<char>>::empty());
        while i < names.len()
            invariant
                i <= names.len(),
                row.metadata is Ok,
                meta@ == graph_meta(*row),
                all == chars::texts(names@),
                start == old(self).progress(),
                self.progress() == resolve_steps(start, *req, *row, all, i as int).0,
                chars::texts(out@) == resolve_steps(start, *req, *row, all, i as int).1,
            decreases names.len() - i,
        {
            let ghost before = chars::texts(out@);
            assert(all[i as int] == names@[i as int]@);
            match self.resolve(req, row, meta, names[i].as_str()) {
                Ok(found) => {
                    out.push(found);
                    assert(chars::texts(out@) == before.push(found@));
                },
                Err(error) => {
                    proof {
                        resolve_error_stays(start, *req, *row, all, i + 1, all.len() as int);
                    }
                    return Err(error);
                },
            }
            i = i + 1;
        }
        Ok(out)
    }

    fn read_event(&mut self, req: &ImportRequest, row: &SourceRow, meta: &Metadata, i: usize, item: &Json) -> (out: Result<(), Error>)
        requires
            row.metadata is Ok,
            meta@ == graph_meta(*row),
        ensures
            reached(out, final(self).progress(), event_step(old(self).progress(), *req, *row, i as int, json::tree(*item))),
    {
        let fields = match read_object(item) {
            Some(fields) => fields,
            None => return Ok(()),
        };
        let names = legacy::strings(json::find(&fields.entries, "participants"));
        assert(chars::texts(names@).len() == names@.len());
        let participants = match self.resolve_all(req, row, meta, &names) {
            Ok(participants) => participants,
            Err(error) => return Err(error),
        };
        let record = match read_item_record(req, "extracted_events", row, meta, i, &fields) {
            Ok(record) => record,
            Err(error) => return Err(error),
        };
        let event = EventDraft {
            table: "extracted_events".to_owned(),
            source_id: read_item_id(row, i),
            record,
            name: legacy::string(&fields, "name"),
            summary: legacy::string(&fields, "summary"),
            participants,
            confidence: legacy::number(&fields, "confidence"),
            reason: legacy::string(&fields, "reason"),
        };
        let ghost before = graph_drafts::event_views(self.graph.events@);
        self.graph.events.push(event);
        assert(graph_drafts::event_views(self.graph.events@) == before.push(event@));
        Ok(())
    }

    fn read_events(&mut self, req: &ImportRequest, row: &SourceRow, meta: &Metadata, items: &Vec<Json>) -> (out: Result<(), Error>)
        requires
            row.metadata is Ok,
            meta@ == graph_meta(*row),
        ensures
            reached(
                out,
                final(self).progress(),
                event_steps(old(self).progress(), *req, *row, json::trees(items@), items@.len() as int),
            ),
    {
        let ghost start = self.progress();
        let ghost all = json::trees(items@);
        let mut i: usize = 0;
        while i < items.len()
            invariant
                i <= items.len(),
                row.metadata is Ok,
                meta@ == graph_meta(*row),
                all == json::trees(items@),
                start == old(self).progress(),
                self.progress() == event_steps(start, *req, *row, all, i as int),
            decreases items.len() - i,
        {
            assert(all[i as int] == json::tree(items@[i as int]));
            if let Err(error) = self.read_event(req, row, meta, i, &items[i]) {
                proof {
                    event_error_stays(start, *req, *row, all, i + 1, all.len() as int);
                }
                return Err(error);
            }
            i = i + 1;
        }
        Ok(())
    }

    /// Reads the graph of one record.
    pub fn read_graph(&mut self, req: &ImportRequest, row: &SourceRow) -> (out: Result<(), Error>)
        ensures
            reached(out, final(self).progress(), graph_step(old(self).progress(), *req, *row)),
    {
        let meta = match &row.metadata {
            Ok(meta) => meta,
            Err(message) => return Err(Error::Json(message.clone())),
        };
        let entities = read_items(json::find(&meta.entries, "entities"));
        let relations = read_items(json::find(&meta.entries, "relations"));
        let events = read_items(json::find(&meta.entries, "events"));
        proof {
            assert(json::trees(entities@).len() == entities@.len());
            assert(json::trees(relations@).len() == relations@.len());
            assert(json::trees(events@).len() == events@.len());
        }
        self.local = Vec::new();
        assert(legacy::pair_views(self.local@) == Seq::<(Seq<char>, Seq<char>)>::empty());
        if let Err(error) = self.read_entities(req, row, meta, &entities) {
            return Err(error);
        }
        if let Err(error) = self.read_relations(req, row, meta, &relations) {
            return Err(error);
        }
        self.read_events(req, row, meta, &events)
    }
}

proof fn entity_error_stays(s: Progress, req: ImportRequest, row: SourceRow, items: Seq<Tree>, m: int, n: int)
    requires
        m <= n,
        entity_steps(s, req, row, items, m).error is Some,
    ensures
        entity_steps(s, req, row, items, n) == entity_steps(s, req, row, items, m),
    decreases n - m,
{
    if m < n {
        entity_error_stays(s, req, row, items, m, n - 1);
    }
}

proof fn relation_error_stays(s: Progress, req: ImportRequest, row: SourceRow, items: Seq<Tree>, m: int, n: int)
    requires
        m <= n,
        relation_steps(s, req, row, items, m).error is Some,
    ensures
        relation_steps(s, req, row, items, n) == relation_steps(s, req, row, items, m),
    decreases n - m,
{
    if m < n {
        relation_error_stays(s, req, row, items, m, n - 1);
    }
}

proof fn event_error_stays(s: Progress, req: ImportRequest, row: SourceRow, items: Seq<Tree>, m: int, n: int)
    requires
        m <= n,
        event_steps(s, req, row, items, m).error is Some,
    ensures
        event_steps(s, req, row, items, n) == event_steps(s, req, row, items, m),
    decreases n - m,
{
    if m < n {
        event_error_stays(s, req, row, items, m, n - 1);
    }
}

proof fn resolve_error_stays(s: Progress, req: ImportRequest, row: SourceRow, names: Seq<Seq<char>>, m: int, n: int)
    requires
        m <= n,
        resolve_steps(s, req, row, names, m).0.error is Some,
    ensures
        resolve_steps(s, req, row, names, n) == resolve_steps(s, req, row, names, m),
    decreases n - m,
{
    if m < n {
        resolve_error_stays(s, req, row, names, m, n - 1);
    }
}

proof fn graph_error_stays(s: Progress, req: ImportRequest, rows: Seq<SourceRow>, m: int, n: int)
    requires
        m <= n,
        graph_steps(s, req, rows, m).error is Some,
    ensures
        graph_steps(s, req, rows, n) == graph_steps(s, req, rows, m),
    decreases n - m,
{
    if m < n {
        graph_error_stays(s, req, rows, m, n - 1);
    }
}

/// Nothing was read.
pub open spec fn no_progress() -> Progress {
    Progress {
        graph: GraphDraftsView { entities: Seq::empty(), relations: Seq::empty(), events: Seq::empty() },
        local: Seq::empty(),
        error: None,
    }
}

/// What the graphs of all records become, or why there is none.
pub open spec fn extraction_of(req: ImportRequest, rows: Seq<SourceRow>) -> Result<GraphDraftsView, ErrorView> {
    let last = graph_steps(no_progress(), req, rows, rows.len() as int);
    match last.error {
        Some(error) => Err(error),
        None => Ok(last.graph),
    }
}

/// What the graphs of all records become.
pub fn extraction_graph(req: &ImportRequest, rows: &Vec<SourceRow>) -> (out: Result<GraphDrafts, Error>)
    ensures
        match extraction_of(*req, rows@) {
            Ok(graph) => out is Ok && (out->Ok_0)@ == graph,
            Err(error) => out is Err && (out->Err_0)@ == error,
        },
{
    let mut state = Extraction::new();
    let mut i: usize = 0;
    while i < rows.len()
        invariant
            i <= rows.len(),
            state.progress() == graph_steps(no_progress(), *req, rows@, i as int),
        decreases rows.len() - i,
    {
        if let Err(error) = state.read_graph(req, &rows[i]) {
            proof {
                graph_error_stays(no_progress(), *req, rows@, i + 1, rows@.len() as int);
            }
            return Err(error);
        }
        i = i + 1;
    }
    Ok(state.graph)
}

/// What to tell where graphs are imported without a lookup database.
pub fn extraction_warning(rows: usize) -> (out: Option<String>)
    ensures
        match out {
            Some(warning) => rows > 0 && warning@
                == "No canonical lookup database supplied: extraction-local entities remain separate across source records."@,
            None => rows == 0,
        },
{
    if rows > 0 {
        Some(
            "No canonical lookup database supplied: extraction-local entities remain separate across source records.".to_owned(),
        )
    } else {
        None
    }
}

// ── References ────────────────────────────────────────────────────────

/// Some entity has this key.
pub open spec fn has_key(entities: Seq<EntityDraftView>, key: Seq<char>) -> bool {
    exists|i: int| 0 <= i < entities.len() && (#[trigger] entities[i]).key() == key
}

/// Every reference is to an entity that was drafted.
pub open spec fn closed_graph(g: GraphDraftsView) -> bool {
    &&& forall|i: int| 0 <= i < g.relations.len() ==> has_key(g.entities, (#[trigger] g.relations[i]).subject)
    &&& forall|i: int| 0 <= i < g.relations.len() ==> has_key(g.entities, (#[trigger] g.relations[i]).object)
    &&& forall|i: int, j: int|
        0 <= i < g.events.len() && 0 <= j < g.events[i].participants.len() ==> has_key(g.entities, #[trigger] g.events[i].participants[j])
}

/// Every name stands for an entity that was drafted.
pub open spec fn closed_names(s: Progress) -> bool {
    forall|i: int| 0 <= i < s.local.len() ==> has_key(s.graph.entities, (#[trigger] s.local[i]).1)
}

/// Every name and every reference is to an entity that was drafted.
pub open spec fn closed_progress(s: Progress) -> bool {
    closed_graph(s.graph) && closed_names(s)
}

proof fn key_stays(entities: Seq<EntityDraftView>, more: EntityDraftView)
    ensures
        forall|key: Seq<char>| has_key(entities, key) ==> #[trigger] has_key(entities.push(more), key),
        has_key(entities.push(more), more.key()),
{
    let after = entities.push(more);
    assert forall|key: Seq<char>| has_key(entities, key) implies #[trigger] has_key(after, key) by {
        let i = choose|i: int| 0 <= i < entities.len() && (#[trigger] entities[i]).key() == key;
        assert(after[i].key() == key);
    }
    assert(after[entities.len() as int].key() == more.key());
}

proof fn closed_with_entity(s: Progress, entity: EntityDraftView, local: Seq<(Seq<char>, Seq<char>)>)
    requires
        closed_progress(s),
        forall|i: int| 0 <= i < local.len() ==> s.local.contains(#[trigger] local[i]) || local[i].1 == entity.key(),
    ensures
        closed_progress(
            Progress {
                graph: GraphDraftsView { entities: s.graph.entities.push(entity), ..s.graph },
                local,
                error: None,
            },
        ),
{
    key_stays(s.graph.entities, entity);
    let after = s.graph.entities.push(entity);
    assert forall|i: int| 0 <= i < local.len() implies has_key(after, (#[trigger] local[i]).1) by {
        if s.local.contains(local[i]) {
            let j = choose|j: int| 0 <= j < s.local.len() && s.local[j] == local[i];
            assert(has_key(s.graph.entities, s.local[j].1));
        }
    }
    assert forall|i: int| 0 <= i < s.graph.relations.len() implies has_key(after, (#[trigger] s.graph.relations[i]).subject) by {
        assert(has_key(s.graph.entities, s.graph.relations[i].subject));
    }
    assert forall|i: int| 0 <= i < s.graph.relations.len() implies has_key(after, (#[trigger] s.graph.relations[i]).object) by {
        assert(has_key(s.graph.entities, s.graph.relations[i].object));
    }
    assert forall|i: int, j: int|
        0 <= i < s.graph.events.len() && 0 <= j < s.graph.events[i].participants.len() implies has_key(
        after,
        #[trigger] s.graph.events[i].participants[j],
    ) by {
        assert(has_key(s.graph.entities, s.graph.events[i].participants[j]));
    }
}

proof fn names_are_old_or_new(local: Seq<(Seq<char>, Seq<char>)>, names: Seq<Seq<char>>, entity: Seq<char>)
    ensures
        forall|i: int|
            0 <= i < with_names(local, names, entity).len() ==> local.contains(#[trigger] with_names(local, names, entity)[i])
                || with_names(local, names, entity)[i].1 == entity,
    decreases names.len(),
{
    let all = with_names(local, names, entity);
    if names.len() == 0 {
        assert forall|i: int| 0 <= i < all.len() implies local.contains(#[trigger] all[i]) by {
            assert(local[i] == all[i]);
        }
    } else {
        names_are_old_or_new(local, names.drop_last(), entity);
        let before = with_names(local, names.drop_last(), entity);
        assert forall|i: int| 0 <= i < all.len() implies local.contains(#[trigger] all[i]) || all[i].1 == entity by {
            if i < before.len() {
                assert(before[i] == all[i]);
            }
        }
    }
}

proof fn entity_step_is_closed(s: Progress, req: ImportRequest, row: SourceRow, i: int, item: Tree)
    requires
        closed_progress(s),
        entity_step(s, req, row, i, item).error is None,
    ensures
        closed_progress(entity_step(s, req, row, i, item)),
{
    if let Tree::Object(fields) = item {
        let entity = item_entity(row, i, fields, item_record(req, "extracted_entities"@, row, i, fields)->Ok_0);
        names_are_old_or_new(s.local, seq![entity.name] + entity.aliases, entity.key());
        closed_with_entity(s, entity, with_names(s.local, seq![entity.name] + entity.aliases, entity.key()));
    }
}

proof fn entity_steps_are_closed(s: Progress, req: ImportRequest, row: SourceRow, items: Seq<Tree>, n: int)
    requires
        closed_progress(s),
        entity_steps(s, req, row, items, n).error is None,
    ensures
        closed_progress(entity_steps(s, req, row, items, n)),
    decreases n,
{
    if n > 0 {
        entity_steps_are_closed(s, req, row, items, n - 1);
        entity_step_is_closed(entity_steps(s, req, row, items, n - 1), req, row, n - 1, items[n - 1]);
    }
}

proof fn paired_are_members(list: Seq<(Seq<char>, Seq<char>)>, id: Seq<char>)
    ensures
        forall|k: int|
            0 <= k < legacy::paired(list, id).len() ==> exists|j: int|
                0 <= j < list.len() && (#[trigger] list[j]).1 == #[trigger] legacy::paired(list, id)[k],
    decreases list.len(),
{
    let all = legacy::paired(list, id);
    if list.len() > 0 {
        paired_are_members(list.drop_last(), id);
        let before = legacy::paired(list.drop_last(), id);
        assert forall|k: int| 0 <= k < all.len() implies exists|j: int| 0 <= j < list.len() && (#[trigger] list[j]).1 == #[trigger] all[k] by {
            if k < before.len() {
                assert(before[k] == all[k]);
                let j = choose|j: int| 0 <= j < list.drop_last().len() && (#[trigger] list.drop_last()[j]).1 == before[k];
                assert(list[j].1 == all[k]);
            } else {
                assert(list[list.len() - 1].1 == all[k]);
            }
        }
    }
}

proof fn resolve_step_is_closed(s: Progress, req: ImportRequest, row: SourceRow, reference: Seq<char>)
    requires
        closed_progress(s),
        resolve_step(s, req, row, reference).0.error is None,
    ensures
        closed_progress(resolve_step(s, req, row, reference).0),
        has_key(resolve_step(s, req, row, reference).0.graph.entities, resolve_step(s, req, row, reference).1),
        resolve_step(s, req, row, reference).0.graph.relations == s.graph.relations,
        resolve_step(s, req, row, reference).0.graph.events == s.graph.events,
        forall|key: Seq<char>|
            has_key(s.graph.entities, key) ==> #[trigger] has_key(resolve_step(s, req, row, reference).0.graph.entities, key),
{
    let name = chars::trim(reference);
    let form = text::tag_form(name);
    let found = legacy::paired(s.local, form);
    if found.len() == 1 {
        paired_are_members(s.local, form);
        let key = found[0];
        let j = choose|j: int| 0 <= j < s.local.len() && (#[trigger] s.local[j]).1 == key;
        assert(has_key(s.graph.entities, s.local[j].1));
    } else if found.len() == 0 {
        let record = legacy::record_of(
            req,
            "inferred_entities"@,
            graph_id(row) + ":"@ + name,
            row,
            legacy::cell(graph_meta(row), "domain"@),
        )->Ok_0;
        let entity = inferred_entity(row, name, record);
        let local = s.local.push((form, entity.key()));
        assert forall|i: int| 0 <= i < local.len() implies s.local.contains(#[trigger] local[i]) || local[i].1 == entity.key() by {
            if i < s.local.len() {
                assert(s.local[i] == local[i]);
            }
        }
        closed_with_entity(s, entity, local);
        key_stays(s.graph.entities, entity);
    }
}

proof fn relation_step_is_closed(s: Progress, req: ImportRequest, row: SourceRow, i: int, item: Tree)
    requires
        closed_progress(s),
        relation_step(s, req, row, i, item).error is None,
    ensures
        closed_progress(relation_step(s, req, row, i, item)),
{
    if let Tree::Object(fields) = item {
        let subject = resolve_step(s, req, row, legacy::cell(fields, "subject"@));
        resolve_step_is_closed(s, req, row, legacy::cell(fields, "subject"@));
        let object = resolve_step(subject.0, req, row, legacy::cell(fields, "object"@));
        resolve_step_is_closed(subject.0, req, row, legacy::cell(fields, "object"@));
        assert(has_key(object.0.graph.entities, subject.1));
    }
}

proof fn relation_steps_are_closed(s: Progress, req: ImportRequest, row: SourceRow, items: Seq<Tree>, n: int)
    requires
        closed_progress(s),
        relation_steps(s, req, row, items, n).error is None,
    ensures
        closed_progress(relation_steps(s, req, row, items, n)),
    decreases n,
{
    if n > 0 {
        relation_steps_are_closed(s, req, row, items, n - 1);
        relation_step_is_closed(relation_steps(s, req, row, items, n - 1), req, row, n - 1, items[n - 1]);
    }
}

proof fn resolve_steps_are_closed(s: Progress, req: ImportRequest, row: SourceRow, names: Seq<Seq<char>>, n: int)
    requires
        closed_progress(s),
        resolve_steps(s, req, row, names, n).0.error is None,
    ensures
        closed_progress(resolve_steps(s, req, row, names, n).0),
        resolve_steps(s, req, row, names, n).0.graph.events == s.graph.events,
        forall|k: int|
            0 <= k < resolve_steps(s, req, row, names, n).1.len() ==> has_key(
                resolve_steps(s, req, row, names, n).0.graph.entities,
                #[trigger] resolve_steps(s, req, row, names, n).1[k],
            ),
    decreases n,
{
    if n > 0 {
        let before = resolve_steps(s, req, row, names, n - 1);
        resolve_steps_are_closed(s, req, row, names, n - 1);
        resolve_step_is_closed(before.0, req, row, names[n - 1]);
        let after = resolve_steps(s, req, row, names, n);
        assert forall|k: int| 0 <= k < after.1.len() implies has_key(after.0.graph.entities, #[trigger] after.1[k]) by {
            if k < before.1.len() {
                assert(before.1[k] == after.1[k]);
                assert(has_key(before.0.graph.entities, before.1[k]));
            }
        }
    }
}

proof fn event_step_is_closed(s: Progress, req: ImportRequest, row: SourceRow, i: int, item: Tree)
    requires
        closed_progress(s),
        event_step(s, req, row, i, item).error is None,
    ensures
        closed_progress(event_step(s, req, row, i, item)),
{
    if let Tree::Object(fields) = item {
        let names = legacy::texts_or_one(json::lookup(fields, "participants"@));
        let resolved = resolve_steps(s, req, row, names, names.len() as int);
        resolve_steps_are_closed(s, req, row, names, names.len() as int);
        let after = event_step(s, req, row, i, item);
        let g = after.graph;
        assert forall|a: int, b: int|
            0 <= a < g.events.len() && 0 <= b < g.events[a].participants.len() implies has_key(
            g.entities,
            #[trigger] g.events[a].participants[b],
        ) by {
            if a < resolved.0.graph.events.len() {
                assert(g.events[a] == resolved.0.graph.events[a]);
                assert(has_key(resolved.0.graph.entities, resolved.0.graph.events[a].participants[b]));
            } else {
                assert(g.events[a].participants[b] == resolved.1[b]);
            }
        }
    }
}

proof fn event_steps_are_closed(s: Progress, req: ImportRequest, row: SourceRow, items: Seq<Tree>, n: int)
    requires
        closed_progress(s),
        event_steps(s, req, row, items, n).error is None,
    ensures
        closed_progress(event_steps(s, req, row, items, n)),
    decreases n,
{
    if n > 0 {
        event_steps_are_closed(s, req, row, items, n - 1);
        event_step_is_closed(event_steps(s, req, row, items, n - 1), req, row, n - 1, items[n - 1]);
    }
}

proof fn graph_steps_are_closed(req: ImportRequest, rows: Seq<SourceRow>, n: int)
    requires
        graph_steps(no_progress(), req, rows, n).error is None,
    ensures
        closed_progress(graph_steps(no_progress(), req, rows, n)),
    decreases n,
{
    if n > 0 {
        graph_steps_are_closed(req, rows, n - 1);
        let before = graph_steps(no_progress(), req, rows, n - 1);
        let row = rows[n - 1];
        let meta = graph_meta(row);
        let entities = items_in(json::lookup(meta, "entities"@));
        let relations = items_in(json::lookup(meta, "relations"@));
        let events = items_in(json::lookup(meta, "events"@));
        let fresh = Progress { local: Seq::empty(), ..before };
        let one = entity_steps(fresh, req, row, entities, entities.len() as int);
        entity_steps_are_closed(fresh, req, row, entities, entities.len() as int);
        let two = relation_steps(one, req, row, relations, relations.len() as int);
        relation_steps_are_closed(one, req, row, relations, relations.len() as int);
        event_steps_are_closed(two, req, row, events, events.len() as int);
    }
}

/// What is drafted from extracted graphs is complete: every relation and every participant refers
/// to an entity that was drafted with it.
pub proof fn extracted_references_resolve(req: ImportRequest, rows: Seq<SourceRow>)
    requires
        extraction_of(req, rows) is Ok,
    ensures
        closed_graph(extraction_of(req, rows)->Ok_0),
{
    graph_steps_are_closed(req, rows, rows.len() as int);
}

// ── What items become ─────────────────────────────────────────────────

/// The text is what the item has under the key: its text, the digits of its number, and nothing where
/// it has neither.
pub open spec fn says(item: Seq<(Seq<char>, Tree)>, key: Seq<char>, t: Seq<char>) -> bool {
    match json::lookup(item, key) {
        Some(Tree::Text(s)) => t == s,
        Some(Tree::Number(n)) => t == n.text,
        _ => t.len() == 0,
    }
}

/// An entity takes its fields from its item. It is known in its graph by its name and by each of its
/// aliases. Relations and events stay as they were.
pub proof fn entity_takes_its_item(s: Progress, req: ImportRequest, row: SourceRow, i: int, fields: Seq<(Seq<char>, Tree)>)
    ensures
        ({
            let after = entity_step(s, req, row, i, Tree::Object(fields));
            after.error is None ==> {
                let e = after.graph.entities.last();
                &&& after.graph.entities == s.graph.entities.push(e)
                &&& after.graph.relations == s.graph.relations && after.graph.events == s.graph.events
                &&& e.table == "extracted_entities"@
                &&& e.source_id == graph_id(row) + ":"@ + decimal::integer_text(i)
                &&& says(fields, "name"@, e.name)
                &&& says(fields, "summary"@, e.summary)
                &&& json::lookup(fields, "type"@) matches Some(Tree::Text(t)) ==> e.entity_type == if t.len() > 0 {
                    t
                } else {
                    "concept"@
                }
                &&& json::lookup(fields, "type"@) is None ==> e.entity_type == "concept"@
                &&& json::lookup(fields, "aliases"@) matches Some(Tree::Text(t)) ==> e.aliases == seq![t]
                &&& json::lookup(fields, "aliases"@) is None ==> e.aliases.len() == 0
                &&& json::lookup(e.record.metadata, "extraction"@) == Some(Tree::Object(fields))
                &&& forall|form: Seq<char>, key: Seq<char>| #[trigger]
                    after.local.contains((form, key)) <==> s.local.contains((form, key)) || key == e.key() && (form == text::tag_form(e.name)
                        || exists|a: int| 0 <= a < e.aliases.len() && form == text::tag_form(#[trigger] e.aliases[a]))
            }
        }),
{
    let after = entity_step(s, req, row, i, Tree::Object(fields));
    if after.error is None {
        let e = after.graph.entities.last();
        let names = seq![e.name] + e.aliases;
        match legacy::record_of(req, "extracted_entities"@, item_id(row, i), row, legacy::cell(graph_meta(row), "domain"@)) {
            Ok(record) => {
                json::set_then_find(record.metadata, "extraction"@, Tree::Object(fields), "extraction"@);
            },
            Err(_) => {},
        }
        assert forall|form: Seq<char>, key: Seq<char>| #[trigger] after.local.contains((form, key)) <==> s.local.contains((form, key)) || key == e.key()
            && (form == text::tag_form(e.name) || exists|a: int| 0 <= a < e.aliases.len() && form == text::tag_form(#[trigger] e.aliases[a])) by {
            names_lead_to_their_entity(s.local, names, e.key(), form, key);
            if exists|k: int| 0 <= k < names.len() && form == text::tag_form(#[trigger] names[k]) {
                let k = choose|k: int| 0 <= k < names.len() && form == text::tag_form(#[trigger] names[k]);
                if k > 0 {
                    assert(names[k] == e.aliases[k - 1]);
                }
            }
            if form == text::tag_form(e.name) {
                assert(names[0] == e.name);
            }
            if exists|a: int| 0 <= a < e.aliases.len() && form == text::tag_form(#[trigger] e.aliases[a]) {
                let a = choose|a: int| 0 <= a < e.aliases.len() && form == text::tag_form(#[trigger] e.aliases[a]);
                assert(names[a + 1] == e.aliases[a]);
            }
        }
    }
}

/// Each name leads to the entity, in the form in which names are compared; other names lead where
/// they did.
pub proof fn names_lead_to_their_entity(local: Seq<(Seq<char>, Seq<char>)>, names: Seq<Seq<char>>, entity: Seq<char>, form: Seq<char>, key: Seq<char>)
    ensures
        with_names(local, names, entity).contains((form, key)) <==> local.contains((form, key)) || key == entity && exists|k: int|
            0 <= k < names.len() && form == text::tag_form(#[trigger] names[k]),
    decreases names.len(),
{
    if names.len() > 0 {
        let rest = names.drop_last();
        let n = names.len() - 1;
        let before = with_names(local, rest, entity);
        let all = with_names(local, names, entity);
        let pair = (text::tag_form(names.last()), entity);
        names_lead_to_their_entity(local, rest, entity, form, key);
        assert(names[n] == names.last());
        if exists|k: int| 0 <= k < rest.len() && form == text::tag_form(#[trigger] rest[k]) {
            let k = choose|k: int| 0 <= k < rest.len() && form == text::tag_form(#[trigger] rest[k]);
            assert(names[k] == rest[k]);
        }
        if exists|k: int| 0 <= k < names.len() && form == text::tag_form(#[trigger] names[k]) {
            let k = choose|k: int| 0 <= k < names.len() && form == text::tag_form(#[trigger] names[k]);
            if k < n {
                assert(rest[k] == names[k]);
            }
        }
        if before.contains((form, key)) {
            let k = choose|k: int| 0 <= k < before.len() && before[k] == (form, key);
            assert(all[k] == (form, key));
        }
        if all.contains((form, key)) && !before.contains((form, key)) {
            let k = choose|k: int| 0 <= k < all.len() && all[k] == (form, key);
            if k < before.len() {
                assert(before[k] == (form, key));
            }
            assert(form == text::tag_form(names[n]));
        }
        if (form, key) == pair && !before.contains(pair) {
            assert(all[before.len() as int] == pair);
        }
    }
}

/// A reference is blank, or means the one entity that goes by it. Where several do, it is refused;
/// where none does, an entity of that name is inferred, marked as such, and known from then on.
pub proof fn references_find_or_infer(s: Progress, req: ImportRequest, row: SourceRow, reference: Seq<char>)
    requires
        s.error is None,
    ensures
        ({
            let (after, found) = resolve_step(s, req, row, reference);
            let form = text::tag_form(chars::trim(reference));
            &&& chars::trim(reference).len() == 0 ==> after.error is Some
            &&& after.error is None ==> after.graph.relations == s.graph.relations && after.graph.events == s.graph.events && after.local.contains(
                (form, found),
            )
            &&& after.error is None && (exists|key: Seq<char>| s.local.contains((form, key))) ==> after == s && forall|key: Seq<char>|
                s.local.contains((form, key)) ==> key == found
            &&& after.error is None && (forall|key: Seq<char>| !s.local.contains((form, key))) ==> {
                let e = after.graph.entities.last();
                &&& after.graph.entities == s.graph.entities.push(e)
                &&& found == e.key()
                &&& e.table == "inferred_entities"@
                &&& e.source_id == graph_id(row) + ":"@ + chars::trim(reference)
                &&& e.name == chars::trim(reference)
                &&& e.entity_type == "concept"@
                &&& e.aliases.len() == 0 && e.attributes.len() == 0 && e.summary.len() == 0
                &&& json::lookup(e.record.metadata, "inferred_from_legacy_reference"@) == Some(Tree::Bool(true))
            }
            &&& (exists|a: Seq<char>, b: Seq<char>| a != b && s.local.contains((form, a)) && s.local.contains((form, b))) ==> after.error is Some
        }),
{
    let name = chars::trim(reference);
    let form = text::tag_form(name);
    let all = legacy::paired(s.local, form);
    let (after, found) = resolve_step(s, req, row, reference);
    assert forall|key: Seq<char>| #[trigger] s.local.contains((form, key)) <==> all.contains(key) by {
        legacy::paired_are_the_pairs(s.local, form, key);
    }
    if all.len() == 1 {
        assert(all[0] == all[0]);
        assert(all.contains(all[0]));
        assert forall|key: Seq<char>| s.local.contains((form, key)) implies key == all[0] by {
            let k = choose|k: int| 0 <= k < all.len() && all[k] == key;
            assert(k == 0);
        }
    }
    if all.len() > 0 {
        assert(all.contains(all[0]));
        assert(s.local.contains((form, all[0])));
    }
    if all.len() == 0 && name.len() > 0 {
        match legacy::record_of(req, "inferred_entities"@, graph_id(row) + ":"@ + name, row, legacy::cell(graph_meta(row), "domain"@)) {
            Ok(record) => {
                let e = inferred_entity(row, name, record);
                json::set_then_find(record.metadata, "inferred_from_legacy_reference"@, Tree::Bool(true), "inferred_from_legacy_reference"@);
                assert(after.local[s.local.len() as int] == (form, e.key()));
            },
            Err(_) => {},
        }
    }
}

/// A relation joins what its references mean and takes its other fields from its item.
pub proof fn relation_takes_its_item(s: Progress, req: ImportRequest, row: SourceRow, i: int, fields: Seq<(Seq<char>, Tree)>)
    requires
        s.error is None,
    ensures
        ({
            let after = relation_step(s, req, row, i, Tree::Object(fields));
            after.error is None ==> {
                let r = after.graph.relations.last();
                let subject = legacy::cell(fields, "subject"@);
                let object = legacy::cell(fields, "object"@);
                &&& after.graph.relations == s.graph.relations.push(r)
                &&& after.graph.events == s.graph.events
                &&& r.table == "extracted_relations"@
                &&& r.source_id == graph_id(row) + ":"@ + decimal::integer_text(i)
                &&& says(fields, "predicate"@, r.predicate)
                &&& says(fields, "reason"@, r.reason)
                &&& says(fields, "subject"@, subject) && says(fields, "object"@, object)
                &&& match json::lookup(fields, "confidence"@) {
                    Some(Tree::Number(n)) => r.confidence == Some(n),
                    _ => r.confidence is None,
                }
                &&& after.local.contains((text::tag_form(chars::trim(object)), r.object))
                &&& after.local.contains((text::tag_form(chars::trim(subject)), r.subject))
            }
        }),
{
    let subject = resolve_step(s, req, row, legacy::cell(fields, "subject"@));
    references_find_or_infer(s, req, row, legacy::cell(fields, "subject"@));
    if subject.0.error is None {
        let object = resolve_step(subject.0, req, row, legacy::cell(fields, "object"@));
        references_find_or_infer(subject.0, req, row, legacy::cell(fields, "object"@));
        if object.0.error is None {
            names_stay(subject.0, req, row, legacy::cell(fields, "object"@));
        }
    }
}

proof fn names_stay(s: Progress, req: ImportRequest, row: SourceRow, reference: Seq<char>)
    ensures
        ({
            let after = resolve_step(s, req, row, reference).0;
            after.error is None ==> forall|pair: (Seq<char>, Seq<char>)| s.local.contains(pair) ==> #[trigger] after.local.contains(pair)
        }),
{
    let after = resolve_step(s, req, row, reference).0;
    assert forall|pair: (Seq<char>, Seq<char>)| after.error is None && s.local.contains(pair) implies #[trigger] after.local.contains(pair) by {
        let k = choose|k: int| 0 <= k < s.local.len() && s.local[k] == pair;
        assert(after.local[k] == pair);
    }
}

/// An event has one participant for each of the names in its item, and takes its other fields from
/// the item.
pub proof fn event_takes_its_item(s: Progress, req: ImportRequest, row: SourceRow, i: int, fields: Seq<(Seq<char>, Tree)>)
    requires
        s.error is None,
    ensures
        ({
            let after = event_step(s, req, row, i, Tree::Object(fields));
            let names = legacy::texts_or_one(json::lookup(fields, "participants"@));
            after.error is None ==> {
                let e = after.graph.events.last();
                &&& after.graph.events == s.graph.events.push(e)
                &&& after.graph.relations == s.graph.relations
                &&& e.table == "extracted_events"@
                &&& e.source_id == graph_id(row) + ":"@ + decimal::integer_text(i)
                &&& says(fields, "name"@, e.name)
                &&& says(fields, "summary"@, e.summary)
                &&& says(fields, "reason"@, e.reason)
                &&& match json::lookup(fields, "confidence"@) {
                    Some(Tree::Number(n)) => e.confidence == Some(n),
                    _ => e.confidence is None,
                }
                &&& e.participants.len() == names.len()
                &&& forall|k: int|
                    0 <= k < names.len() ==> after.local.contains((text::tag_form(chars::trim(#[trigger] names[k])), e.participants[k]))
            }
        }),
{
    let names = legacy::texts_or_one(json::lookup(fields, "participants"@));
    participants_are_found(s, req, row, names, names.len() as int);
}

proof fn participants_are_found(s: Progress, req: ImportRequest, row: SourceRow, names: Seq<Seq<char>>, n: int)
    requires
        s.error is None,
        0 <= n <= names.len(),
    ensures
        ({
            let (after, found) = resolve_steps(s, req, row, names, n);
            after.error is None ==> {
                &&& found.len() == n
                &&& after.graph.relations == s.graph.relations && after.graph.events == s.graph.events
                &&& forall|k: int| 0 <= k < n ==> after.local.contains((text::tag_form(chars::trim(#[trigger] names[k])), found[k]))
            }
        }),
    decreases n,
{
    if n > 0 {
        participants_are_found(s, req, row, names, n - 1);
        let (before, some) = resolve_steps(s, req, row, names, n - 1);
        if before.error is None {
            references_find_or_infer(before, req, row, names[n - 1]);
            names_stay(before, req, row, names[n - 1]);
            let (after, found) = resolve_steps(s, req, row, names, n);
            if after.error is None {
                assert forall|k: int| 0 <= k < n implies after.local.contains((text::tag_form(chars::trim(#[trigger] names[k])), found[k])) by {
                    if k < n - 1 {
                        assert(before.local.contains((text::tag_form(chars::trim(names[k])), some[k])));
                    }
                }
            }
        }
    }
}

/// How many of the first `n` items are objects.
pub open spec fn objects_among(items: Seq<Tree>, n: int) -> int
    decreases n,
{
    if n <= 0 {
        0
    } else {
        objects_among(items, n - 1) + (if items[n - 1] is Object { 1int } else { 0int })
    }
}

proof fn entities_count(s: Progress, req: ImportRequest, row: SourceRow, items: Seq<Tree>, n: int)
    requires
        s.error is None,
        0 <= n <= items.len(),
    ensures
        ({
            let after = entity_steps(s, req, row, items, n);
            after.error is None ==> after.graph.entities.len() == s.graph.entities.len() + objects_among(items, n) && after.graph.relations
                == s.graph.relations && after.graph.events == s.graph.events
        }),
    decreases n,
{
    if n > 0 {
        entities_count(s, req, row, items, n - 1);
    }
}

proof fn relations_count(s: Progress, req: ImportRequest, row: SourceRow, items: Seq<Tree>, n: int)
    requires
        s.error is None,
        0 <= n <= items.len(),
    ensures
        ({
            let after = relation_steps(s, req, row, items, n);
            after.error is None ==> after.graph.relations.len() == s.graph.relations.len() + objects_among(items, n) && after.graph.events
                == s.graph.events && after.graph.entities.len() >= s.graph.entities.len()
        }),
    decreases n,
{
    if n > 0 {
        relations_count(s, req, row, items, n - 1);
        let before = relation_steps(s, req, row, items, n - 1);
        if before.error is None {
            if let Tree::Object(fields) = items[n - 1] {
                relation_takes_its_item(before, req, row, n - 1, fields);
            }
        }
    }
}

proof fn events_count(s: Progress, req: ImportRequest, row: SourceRow, items: Seq<Tree>, n: int)
    requires
        s.error is None,
        0 <= n <= items.len(),
    ensures
        ({
            let after = event_steps(s, req, row, items, n);
            after.error is None ==> after.graph.events.len() == s.graph.events.len() + objects_among(items, n) && after.graph.relations
                == s.graph.relations
        }),
    decreases n,
{
    if n > 0 {
        events_count(s, req, row, items, n - 1);
        let before = event_steps(s, req, row, items, n - 1);
        if before.error is None {
            if let Tree::Object(fields) = items[n - 1] {
                event_takes_its_item(before, req, row, n - 1, fields);
            }
        }
    }
}

/// A graph that can be read gives one relation for each object in its list of relations and one event
/// for each in its list of events; names of another graph mean nothing in it.
pub proof fn every_item_is_read(s: Progress, req: ImportRequest, row: SourceRow)
    requires
        s.error is None,
    ensures
        ({
            let after = graph_step(s, req, row);
            &&& row.metadata is Err ==> after.error is Some
            &&& after.error is None ==> {
                let relations = items_in(json::lookup((row.metadata->Ok_0)@, "relations"@));
                let events = items_in(json::lookup((row.metadata->Ok_0)@, "events"@));
                &&& after.graph.relations.len() == s.graph.relations.len() + objects_among(relations, relations.len() as int)
                &&& after.graph.events.len() == s.graph.events.len() + objects_among(events, events.len() as int)
                &&& after == graph_step(Progress { local: Seq::empty(), ..s }, req, row)
            }
        }),
{
    if row.metadata is Ok {
        let meta = graph_meta(row);
        let entities = items_in(json::lookup(meta, "entities"@));
        let relations = items_in(json::lookup(meta, "relations"@));
        let events = items_in(json::lookup(meta, "events"@));
        let start = Progress { local: Seq::empty(), ..s };
        let one = entity_steps(start, req, row, entities, entities.len() as int);
        entities_count(start, req, row, entities, entities.len() as int);
        if one.error is None {
            let two = relation_steps(one, req, row, relations, relations.len() as int);
            relations_count(one, req, row, relations, relations.len() as int);
            if two.error is None {
                events_count(two, req, row, events, events.len() as int);
            }
        }
    }
}

/// The values of an attribute: a list gives one for each of its members, anything else is one value.
/// A text is taken as it is.
pub proof fn attributes_keep_their_values(fields: Seq<(Seq<char>, Tree)>, i: int)
    requires
        0 <= i < fields.len(),
    ensures
        ({
            let out = extracted_attributes(Some(Tree::Object(fields)));
            &&& out.len() == fields.len()
            &&& out[i].0 == fields[i].0
            &&& fields[i].1 matches Tree::Text(t) ==> out[i].1 == seq![t]
            &&& fields[i].1 matches Tree::Array(items) ==> out[i].1.len() == items.len() && forall|k: int|
                0 <= k < items.len() ==> (items[k] matches Tree::Text(t) ==> #[trigger] out[i].1[k] == t)
            &&& !(fields[i].1 is Array) ==> out[i].1.len() == 1
        }),
{
}

} // verus!
