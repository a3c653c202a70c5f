//! Adding what extracted graphs say to entities, relations and events that are there already.
//!
//! The ids of a lookup database are authoritative. Evidence is added only where names resolve
//! uniquely within a namespace; the extracted graphs themselves are kept as memories in any case.

use crate::error::{Error, ErrorView};
use crate::extraction::{items_in, object_fields, read_items, read_object};
use crate::graph_drafts;
use crate::graph_drafts::{EntityDraft, EntityDraftView, EventDraftView, GraphDrafts, GraphDraftsView, RelationDraftView};
use crate::json;
use crate::json::{Json, Tree};
use crate::legacy;
use crate::legacy::{ImportRequest, SourceRow};
use crate::ordering;
use crate::text;
use crate::types;
use crate::types::{Evidence, EvidenceView, Metadata, RecordInput, RecordInputView};
use vstd::prelude::*;

verus! {

// ── Names ─────────────────────────────────────────────────────────────

/// A name within a namespace, and the key of an entity that has it.
#[derive(Debug)]
pub struct NamedKey {
    pub namespace: String,
    pub form: String,
    pub key: String,
}

pub struct NamedKeyView {
    pub namespace: Seq<char>,
    pub form: Seq<char>,
    pub key: Seq<char>,
}

impl View for NamedKey {
    type V = NamedKeyView;

    open spec fn view(&self) -> NamedKeyView {
        NamedKeyView { namespace: self.namespace@, form: self.form@, key: self.key@ }
    }
}

/// The views of a list of names.
pub open spec fn named_views(list: Seq<NamedKey>) -> Seq<NamedKeyView> {
    Seq::new(list.len(), |i: int| list[i]@)
}

/// The names of an entity: its own, then its aliases.
pub open spec fn entity_names(e: EntityDraftView) -> Seq<NamedKeyView> {
    Seq::new(
        e.aliases.len() + 1,
        |i: int|
            NamedKeyView {
                namespace: e.record.namespace,
                form: text::tag_form(if i == 0 {
                    e.name
                } else {
                    e.aliases[i - 1]
                }),
                key: e.key(),
            },
    )
}

/// The names of all entities.
pub open spec fn all_names(entities: Seq<EntityDraftView>) -> Seq<NamedKeyView>
    decreases entities.len(),
{
    if entities.len() == 0 {
        Seq::empty()
    } else {
        all_names(entities.drop_last()) + entity_names(entities.last())
    }
}

/// A name stands for this key in this namespace.
pub open spec fn names(entry: NamedKeyView, namespace: Seq<char>, form: Seq<char>) -> bool {
    entry.namespace == namespace && entry.form == form
}

/// A name means one entity: some have it, and all that do have this key.
pub open spec fn means(list: Seq<NamedKeyView>, namespace: Seq<char>, form: Seq<char>, key: Seq<char>) -> bool {
    &&& exists|i: int| 0 <= i < list.len() && names(#[trigger] list[i], namespace, form)
    &&& forall|i: int| 0 <= i < list.len() && names(#[trigger] list[i], namespace, form) ==> list[i].key == key
}

/// The key of the one entity that a name means; none where it means none or several.
pub open spec fn sole_key(list: Seq<NamedKeyView>, namespace: Seq<char>, form: Seq<char>) -> Option<Seq<char>> {
    if exists|key: Seq<char>| means(list, namespace, form, key) {
        Some(choose|key: Seq<char>| means(list, namespace, form, key))
    } else {
        None
    }
}

proof fn meaning_is_sole(list: Seq<NamedKeyView>, namespace: Seq<char>, form: Seq<char>, key: Seq<char>)
    requires
        means(list, namespace, form, key),
    ensures
        sole_key(list, namespace, form) == Some(key),
{
    let chosen = choose|k: Seq<char>| means(list, namespace, form, k);
    assert(means(list, namespace, form, chosen));
    let i = choose|i: int| 0 <= i < list.len() && names(#[trigger] list[i], namespace, form);
    assert(list[i].key == key);
    assert(list[i].key == chosen);
}

/// An entity goes by its name and by each of its aliases, in its own namespace.
pub proof fn entities_go_by_their_names(entities: Seq<EntityDraftView>, entry: NamedKeyView)
    ensures
        all_names(entities).contains(entry) <==> exists|i: int|
            0 <= i < entities.len() && ({
                let e = #[trigger] entities[i];
                &&& entry.namespace == e.record.namespace
                &&& entry.key == e.key()
                &&& entry.form == text::tag_form(e.name) || exists|j: int|
                    0 <= j < e.aliases.len() && entry.form == text::tag_form(#[trigger] e.aliases[j])
            }),
    decreases entities.len(),
{
    if entities.len() > 0 {
        let rest = entities.drop_last();
        let last = entities.last();
        let before = all_names(rest);
        let own = entity_names(last);
        let all = all_names(entities);
        let n = entities.len() - 1;
        entities_go_by_their_names(rest, entry);
        assert(entities[n] == last);
        let named = entry.namespace == last.record.namespace && entry.key == last.key() && (entry.form == text::tag_form(last.name) || exists|j: int|
            0 <= j < last.aliases.len() && entry.form == text::tag_form(#[trigger] last.aliases[j]));
        assert(own.contains(entry) <==> named) by {
            if own.contains(entry) {
                let k = choose|k: int| 0 <= k < own.len() && own[k] == entry;
                if k > 0 {
                    assert(entry.form == text::tag_form(last.aliases[k - 1]));
                }
            }
            if named {
                if entry.form == text::tag_form(last.name) {
                    assert(own[0] == entry);
                } else {
                    let j = choose|j: int| 0 <= j < last.aliases.len() && entry.form == text::tag_form(#[trigger] last.aliases[j]);
                    assert(own[j + 1] == entry);
                }
            }
        }
        if before.contains(entry) {
            let k = choose|k: int| 0 <= k < before.len() && before[k] == entry;
            assert(all[k] == entry);
            let i = choose|i: int|
                0 <= i < rest.len() && ({
                    let e = #[trigger] rest[i];
                    &&& entry.namespace == e.record.namespace
                    &&& entry.key == e.key()
                    &&& entry.form == text::tag_form(e.name) || exists|j: int|
                        0 <= j < e.aliases.len() && entry.form == text::tag_form(#[trigger] e.aliases[j])
                });
            assert(entities[i] == rest[i]);
        }
        if own.contains(entry) {
            let k = choose|k: int| 0 <= k < own.len() && own[k] == entry;
            assert(all[before.len() + k] == entry);
            assert(entities[n] == last);
        }
        if all.contains(entry) && !before.contains(entry) {
            let k = choose|k: int| 0 <= k < all.len() && all[k] == entry;
            if k < before.len() {
                assert(before[k] == entry);
            } else {
                assert(own[k - before.len()] == entry);
            }
        }
        if exists|i: int|
            0 <= i < entities.len() && ({
                let e = #[trigger] entities[i];
                &&& entry.namespace == e.record.namespace
                &&& entry.key == e.key()
                &&& entry.form == text::tag_form(e.name) || exists|j: int|
                    0 <= j < e.aliases.len() && entry.form == text::tag_form(#[trigger] e.aliases[j])
            }) {
            let i = choose|i: int|
                0 <= i < entities.len() && ({
                    let e = #[trigger] entities[i];
                    &&& entry.namespace == e.record.namespace
                    &&& entry.key == e.key()
                    &&& entry.form == text::tag_form(e.name) || exists|j: int|
                        0 <= j < e.aliases.len() && entry.form == text::tag_form(#[trigger] e.aliases[j])
                });
            if i < n {
                assert(rest[i] == entities[i]);
                assert(before.contains(entry));
            } else {
                assert(named);
            }
        }
    }
}

/// A name means an entity where every entity of the namespace that goes by it has one key; a name
/// that none goes by, or two with different keys, means none.
pub proof fn a_name_means_one_key(list: Seq<NamedKeyView>, namespace: Seq<char>, form: Seq<char>)
    ensures
        sole_key(list, namespace, form) matches Some(key) ==> {
            &&& exists|i: int| 0 <= i < list.len() && (#[trigger] list[i]).namespace == namespace && list[i].form == form && list[i].key == key
            &&& forall|i: int| 0 <= i < list.len() && (#[trigger] list[i]).namespace == namespace && list[i].form == form ==> list[i].key == key
        },
        sole_key(list, namespace, form) is None ==> {
            ||| forall|i: int| 0 <= i < list.len() ==> (#[trigger] list[i]).namespace != namespace || list[i].form != form
            ||| exists|i: int, j: int|
                0 <= i < list.len() && 0 <= j < list.len() && names(#[trigger] list[i], namespace, form) && names(#[trigger] list[j], namespace, form)
                    && list[i].key != list[j].key
        },
{
    if let Some(key) = sole_key(list, namespace, form) {
        assert(means(list, namespace, form, key));
        let i = choose|i: int| 0 <= i < list.len() && names(#[trigger] list[i], namespace, form);
        assert(list[i].key == key);
        assert forall|i: int| 0 <= i < list.len() && (#[trigger] list[i]).namespace == namespace && list[i].form == form implies list[i].key == key by {
            assert(names(list[i], namespace, form));
        }
    } else if exists|i: int| 0 <= i < list.len() && names(#[trigger] list[i], namespace, form) {
        let i = choose|i: int| 0 <= i < list.len() && names(#[trigger] list[i], namespace, form);
        assert(!means(list, namespace, form, list[i].key));
        let j = choose|j: int| 0 <= j < list.len() && names(#[trigger] list[j], namespace, form) && list[j].key != list[i].key;
        assert(names(list[j], namespace, form) && list[i].key != list[j].key);
    } else {
        assert forall|i: int| 0 <= i < list.len() implies (#[trigger] list[i]).namespace != namespace || list[i].form != form by {
            assert(!names(list[i], namespace, form));
        }
    }
}

fn read_names(entities: &Vec<EntityDraft>) -> (out: Vec<NamedKey>)
    ensures
        named_views(out@) == all_names(graph_drafts::entity_views(entities@)),
{
    let ghost all = graph_drafts::entity_views(entities@);
    let mut out: Vec<NamedKey> = Vec::new();
    let mut i: usize = 0;
    assert(named_views(out@) == Seq::<NamedKeyView>::empty());
    while i < entities.len()
        invariant
            i <= entities.len(),
            all == graph_drafts::entity_views(entities@),
            named_views(out@) == all_names(all.take(i as int)),
        decreases entities.len() - i,
    {
        let ghost start = named_views(out@);
        let e = &entities[i];
        let ghost own = entity_names(e@);
        out.push(NamedKey { namespace: e.record.namespace.clone(), form: text::normalized_tag(e.name.as_str()), key: e.key() });
        assert(named_views(out@) == start + own.take(1));
        let mut j: usize = 0;
        while j < e.aliases.len()
            invariant
                j <= e.aliases.len(),
                own == entity_names(e@),
                named_views(out@) == start + own.take(j + 1),
            decreases e.aliases.len() - j,
        {
            let ghost before = named_views(out@);
            out.push(
                NamedKey { namespace: e.record.namespace.clone(), form: text::normalized_tag(e.aliases[j].as_str()), key: e.key() },
            );
            assert(named_views(out@) == before.push(own[j + 1]));
            assert(start + own.take(j + 2) == (start + own.take(j + 1)).push(own[j + 1]));
            j = j + 1;
        }
        proof {
            assert(own.take(own.len() as int) == own);
            assert(all.take(i + 1).last() == e@);
            assert(all.take(i + 1).drop_last() == all.take(i as int));
        }
        i = i + 1;
    }
    assert(all.take(all.len() as int) == all);
    out
}

fn find_sole(list: &Vec<NamedKey>, namespace: &str, name: &str) -> (out: Option<String>)
    ensures
        types::optional_text(out) == sole_key(named_views(list@), namespace@, text::tag_form(name@)),
{
    let form = text::normalized_tag(name);
    let ghost all = named_views(list@);
    let mut found: Option<String> = None;
    let mut i: usize = 0;
    while i < list.len()
        invariant
            i <= list.len(),
            all == named_views(list@),
            form@ == text::tag_form(name@),
            found is None ==> forall|k: int| 0 <= k < i ==> !names(#[trigger] all[k], namespace@, form@),
            found is Some ==> exists|k: int| 0 <= k < i && names(#[trigger] all[k], namespace@, form@),
            found matches Some(key) ==> forall|k: int| 0 <= k < i && names(#[trigger] all[k], namespace@, form@) ==> all[k].key == key@,
        decreases list.len() - i,
    {
        assert(all[i as int] == list@[i as int]@);
        if ordering::same_text(list[i].namespace.as_str(), namespace) && ordering::same_text(list[i].form.as_str(), form.as_str()) {
            assert(names(all[i as int], namespace@, form@));
            match &found {
                None => {
                    found = Some(list[i].key.clone());
                },
                Some(key) => {
                    if !ordering::same_text(key.as_str(), list[i].key.as_str()) {
                        proof {
                            let k = choose|k: int| 0 <= k < i && names(#[trigger] all[k], namespace@, form@);
                            assert(all[k].key == key@);
                            assert forall|other: Seq<char>| !means(all, namespace@, form@, other) by {
                                if means(all, namespace@, form@, other) {
                                    assert(all[k].key == other);
                                    assert(all[i as int].key == other);
                                }
                            }
                        }
                        return None;
                    }
                },
            }
        }
        i = i + 1;
    }
    proof {
        match &found {
            Some(key) => {
                assert(means(all, namespace@, form@, key@));
                meaning_is_sole(all, namespace@, form@, key@);
            },
            None => {
                assert forall|other: Seq<char>| !means(all, namespace@, form@, other) by {}
            },
        }
    }
    found
}

/// The last entity with this key.
pub open spec fn last_with_key(entities: Seq<EntityDraftView>, key: Seq<char>) -> Option<int>
    decreases entities.len(),
{
    if entities.len() == 0 {
        None
    } else if entities.last().key() == key {
        Some(entities.len() - 1)
    } else {
        last_with_key(entities.drop_last(), key)
    }
}

fn find_last(entities: &Vec<EntityDraft>, key: &str) -> (out: Option<usize>)
    ensures
        match out {
            Some(i) => last_with_key(graph_drafts::entity_views(entities@), key@) == Some(i as int) && i < entities@.len(),
            None => last_with_key(graph_drafts::entity_views(entities@), key@) is None,
        },
{
    let ghost all = graph_drafts::entity_views(entities@);
    let mut i: usize = entities.len();
    assert(all.take(i as int) == all);
    while i > 0
        invariant
            i <= entities.len(),
            all == graph_drafts::entity_views(entities@),
            last_with_key(all.take(i as int), key@) == last_with_key(all, key@),
        decreases i,
    {
        assert(all.take(i as int).last() == entities@[i - 1]@);
        assert(all.take(i as int).drop_last() == all.take(i - 1));
        if ordering::same_text(entities[i - 1].key().as_str(), key) {
            return Some(i - 1);
        }
        i = i - 1;
    }
    None
}

// ── Evidence ──────────────────────────────────────────────────────────

/// A record with more evidence.
pub open spec fn with_more(record: RecordInputView, more: Seq<EvidenceView>) -> RecordInputView {
    RecordInputView { evidence: record.evidence + more, ..record }
}

fn add_evidence(record: &mut RecordInput, more: &Vec<Evidence>)
    ensures
        final(record)@ == with_more(old(record)@, types::evidence_views(more@)),
{
    let ghost before = types::evidence_views(record.evidence@);
    let mut copies = types::copy_evidence(more);
    let ghost added = types::evidence_views(copies@);
    record.evidence.append(&mut copies);
    assert(types::evidence_views(record.evidence@) == before + added);
}

/// Entities after the evidence of an item was added to the one that it means. `known` are the names
/// of the entities.
pub open spec fn entity_evidence(entities: Seq<EntityDraftView>, known: Seq<NamedKeyView>, namespace: Seq<char>, meta: Seq<(Seq<char>, Tree)>, item: Seq<(Seq<char>, Tree)>) -> Seq<EntityDraftView> {
    match sole_key(known, namespace, text::tag_form(legacy::cell(item, "name"@))) {
        None => entities,
        Some(key) => match last_with_key(entities, key) {
            None => entities,
            Some(i) => entities.update(
                i,
                EntityDraftView {
                    record: with_more(entities[i].record, legacy::evidence_of(json::lookup(item, "evidence"@), meta)),
                    ..entities[i]
                },
            ),
        },
    }
}

/// A relation that an item speaks of.
pub open spec fn is_relation(r: RelationDraftView, namespace: Seq<char>, subject: Seq<char>, object: Seq<char>, predicate: Seq<char>) -> bool {
    r.record.namespace == namespace && r.subject == subject && r.object == object && r.predicate == predicate
}

/// Relations after the evidence of an item was added to all that it speaks of.
pub open spec fn relation_evidence(relations: Seq<RelationDraftView>, known: Seq<NamedKeyView>, namespace: Seq<char>, meta: Seq<(Seq<char>, Tree)>, item: Seq<(Seq<char>, Tree)>) -> Seq<RelationDraftView> {
    let subject = sole_key(known, namespace, text::tag_form(legacy::cell(item, "subject"@)));
    let object = sole_key(known, namespace, text::tag_form(legacy::cell(item, "object"@)));
    if subject is None || object is None {
        relations
    } else {
        Seq::new(
            relations.len(),
            |i: int|
                if is_relation(relations[i], namespace, subject->0, object->0, legacy::cell(item, "predicate"@)) {
                    RelationDraftView {
                        record: with_more(relations[i].record, legacy::evidence_of(json::lookup(item, "evidence"@), meta)),
                        ..relations[i]
                    }
                } else {
                    relations[i]
                },
        )
    }
}

/// Events after the evidence of an item was added to all of its name.
pub open spec fn event_evidence(events: Seq<EventDraftView>, namespace: Seq<char>, meta: Seq<(Seq<char>, Tree)>, item: Seq<(Seq<char>, Tree)>) -> Seq<EventDraftView> {
    Seq::new(
        events.len(),
        |i: int|
            if events[i].record.namespace == namespace && events[i].name == legacy::cell(item, "name"@) {
                EventDraftView {
                    record: with_more(events[i].record, legacy::evidence_of(json::lookup(item, "evidence"@), meta)),
                    ..events[i]
                }
            } else {
                events[i]
            },
    )
}

/// The evidence of an item is appended to what the item names, in the namespace, and to nothing else:
/// the last entity with the key that its name means, the relations between the two entities that its
/// ends mean with its predicate, the events with its name.
pub proof fn evidence_goes_to_what_is_named(
    entities: Seq<EntityDraftView>,
    relations: Seq<RelationDraftView>,
    events: Seq<EventDraftView>,
    known: Seq<NamedKeyView>,
    namespace: Seq<char>,
    meta: Seq<(Seq<char>, Tree)>,
    item: Seq<(Seq<char>, Tree)>,
    i: int,
)
    ensures
        ({
            let more = legacy::evidence_of(json::lookup(item, "evidence"@), meta);
            let name = sole_key(known, namespace, text::tag_form(legacy::cell(item, "name"@)));
            let subject = sole_key(known, namespace, text::tag_form(legacy::cell(item, "subject"@)));
            let object = sole_key(known, namespace, text::tag_form(legacy::cell(item, "object"@)));
            let e = entity_evidence(entities, known, namespace, meta, item);
            let r = relation_evidence(relations, known, namespace, meta, item);
            let v = event_evidence(events, namespace, meta, item);
            &&& 0 <= i < entities.len() ==> {
                let meant = name == Some(entities[i].key()) && forall|j: int| i < j < entities.len() ==> (#[trigger] entities[j]).key() != entities[i].key();
                e[i].record.evidence == if meant {
                    entities[i].record.evidence + more
                } else {
                    entities[i].record.evidence
                }
            }
            &&& 0 <= i < relations.len() ==> {
                let meant = subject == Some(relations[i].subject) && object == Some(relations[i].object) && relations[i].record.namespace == namespace
                    && relations[i].predicate == legacy::cell(item, "predicate"@);
                r[i].record.evidence == if meant {
                    relations[i].record.evidence + more
                } else {
                    relations[i].record.evidence
                }
            }
            &&& 0 <= i < events.len() ==> {
                let meant = events[i].record.namespace == namespace && events[i].name == legacy::cell(item, "name"@);
                v[i].record.evidence == if meant {
                    events[i].record.evidence + more
                } else {
                    events[i].record.evidence
                }
            }
        }),
{
    let name = sole_key(known, namespace, text::tag_form(legacy::cell(item, "name"@)));
    if let Some(key) = name {
        last_of_a_key(entities, key);
    }
}

proof fn last_of_a_key(entities: Seq<EntityDraftView>, key: Seq<char>)
    ensures
        match last_with_key(entities, key) {
            Some(i) => 0 <= i < entities.len() && entities[i].key() == key && forall|j: int|
                i < j < entities.len() ==> (#[trigger] entities[j]).key() != key,
            None => forall|j: int| 0 <= j < entities.len() ==> (#[trigger] entities[j]).key() != key,
        },
    decreases entities.len(),
{
    if entities.len() > 0 {
        let rest = entities.drop_last();
        let n = entities.len() - 1;
        assert(entities[n] == entities.last());
        if entities.last().key() != key {
            last_of_a_key(rest, key);
            match last_with_key(rest, key) {
                Some(i) => {
                    assert(entities[i] == rest[i]);
                    assert forall|j: int| i < j < entities.len() implies (#[trigger] entities[j]).key() != key by {
                        if j < n {
                            assert(entities[j] == rest[j]);
                        }
                    }
                },
                None => {
                    assert forall|j: int| 0 <= j < entities.len() implies (#[trigger] entities[j]).key() != key by {
                        if j < n {
                            assert(entities[j] == rest[j]);
                        }
                    }
                },
            }
        }
    }
}

/// What kind of item evidence comes from.
#[derive(Debug, Clone, Copy, PartialEq, Eq, Structural)]
pub enum ItemKind {
    Entity,
    Relation,
    Event,
}

/// The graph after the evidence of an item was added. What is no object is passed over.
pub open spec fn item_step(g: GraphDraftsView, known: Seq<NamedKeyView>, namespace: Seq<char>, meta: Seq<(Seq<char>, Tree)>, kind: ItemKind, item: Tree) -> GraphDraftsView {
    match object_fields(item) {
        None => g,
        Some(fields) => match kind {
            ItemKind::Entity => GraphDraftsView {
                entities: entity_evidence(g.entities, known, namespace, meta, fields),
                ..g
            },
            ItemKind::Relation => GraphDraftsView {
                relations: relation_evidence(g.relations, known, namespace, meta, fields),
                ..g
            },
            ItemKind::Event => GraphDraftsView { events: event_evidence(g.events, namespace, meta, fields), ..g },
        },
    }
}

/// The graph after the evidence of the first `n` items was added.
pub open spec fn item_steps(g: GraphDraftsView, known: Seq<NamedKeyView>, namespace: Seq<char>, meta: Seq<(Seq<char>, Tree)>, kind: ItemKind, items: Seq<Tree>, n: int) -> GraphDraftsView
    decreases n,
{
    if n <= 0 {
        g
    } else {
        item_step(item_steps(g, known, namespace, meta, kind, items, n - 1), known, namespace, meta, kind, items[n - 1])
    }
}

/// All items of a list.
pub open spec fn list_step(g: GraphDraftsView, known: Seq<NamedKeyView>, namespace: Seq<char>, meta: Seq<(Seq<char>, Tree)>, kind: ItemKind, column: Seq<char>) -> GraphDraftsView {
    let items = items_in(json::lookup(meta, column));
    item_steps(g, known, namespace, meta, kind, items, items.len() as int)
}

/// The graph after the evidence of a record was added.
pub open spec fn attach_step(g: GraphDraftsView, known: Seq<NamedKeyView>, req: ImportRequest, meta: Seq<(Seq<char>, Tree)>) -> GraphDraftsView {
    let namespace = legacy::domain_namespace(req.source, req.namespace@, legacy::cell(meta, "domain"@));
    let one = list_step(g, known, namespace, meta, ItemKind::Entity, "entities"@);
    let two = list_step(one, known, namespace, meta, ItemKind::Relation, "relations"@);
    list_step(two, known, namespace, meta, ItemKind::Event, "events"@)
}

/// The graph after the evidence of the first `n` records was added, or why that failed.
pub open spec fn attach_steps(g: GraphDraftsView, req: ImportRequest, rows: Seq<SourceRow>, n: int) -> Result<GraphDraftsView, ErrorView>
    decreases n,
{
    if n <= 0 {
        Ok(g)
    } else {
        match attach_steps(g, req, rows, n - 1) {
            Err(error) => Err(error),
            Ok(before) => match rows[n - 1].metadata {
                Err(message) => Err(ErrorView::Json(message@)),
                Ok(meta) => Ok(attach_step(before, all_names(g.entities), req, meta@)),
            },
        }
    }
}

fn attach_entity(graph: &mut GraphDrafts, known: &Vec<NamedKey>, namespace: &str, meta: &Metadata, item: &Metadata)
    ensures
        final(graph)@ == (GraphDraftsView {
            entities: entity_evidence(old(graph)@.entities, named_views(known@), namespace@, meta@, item@),
            ..old(graph)@
        }),
{
    let name = legacy::string(item, "name");
    if let Some(found) = find_sole(known, namespace, name.as_str()) {
        if let Some(i) = find_last(&graph.entities, found.as_str()) {
            let more = legacy::evidence(json::find(&item.entries, "evidence"), meta);
            let ghost before = graph_drafts::entity_views(graph.entities@);
            let entity = &mut graph.entities[i];
            add_evidence(&mut entity.record, &more);
            proof {
                assert(graph_drafts::entity_views(graph.entities@) == before.update(
                    i as int,
                    EntityDraftView { record: with_more(before[i as int].record, types::evidence_views(more@)), ..before[i as int] },
                ));
            }
        }
    }
}

fn attach_relation(graph: &mut GraphDrafts, known: &Vec<NamedKey>, namespace: &str, meta: &Metadata, item: &Metadata)
    ensures
        final(graph)@ == (GraphDraftsView {
            relations: relation_evidence(old(graph)@.relations, named_views(known@), namespace@, meta@, item@),
            ..old(graph)@
        }),
{
    let subject = match find_sole(known, namespace, legacy::string(item, "subject").as_str()) {
        Some(subject) => subject,
        None => return,
    };
    let object = match find_sole(known, namespace, legacy::string(item, "object").as_str()) {
        Some(object) => object,
        None => return,
    };
    let predicate = legacy::string(item, "predicate");
    let more = legacy::evidence(json::find(&item.entries, "evidence"), meta);
    let ghost before = graph_drafts::relation_views(graph.relations@);
    let ghost wanted = relation_evidence(before, named_views(known@), namespace@, meta@, item@);
    let mut i: usize = 0;
    while i < graph.relations.len()
        invariant
            i <= graph.relations@.len(),
            graph.entities == old(graph).entities,
            graph.events == old(graph).events,
            graph.relations@.len() == before.len(),
            before == graph_drafts::relation_views(old(graph).relations@),
            wanted == relation_evidence(before, named_views(known@), namespace@, meta@, item@),
            sole_key(named_views(known@), namespace@, text::tag_form(legacy::cell(item@, "subject"@))) == Some(subject@),
            sole_key(named_views(known@), namespace@, text::tag_form(legacy::cell(item@, "object"@))) == Some(object@),
            predicate@ == legacy::cell(item@, "predicate"@),
            types::evidence_views(more@) == legacy::evidence_of(json::lookup(item@, "evidence"@), meta@),
            forall|k: int| 0 <= k < i ==> (#[trigger] graph.relations@[k])@ == wanted[k],
            forall|k: int| i <= k < before.len() ==> (#[trigger] graph.relations@[k])@ == before[k],
        decreases graph.relations.len() - i,
    {
        let r = &graph.relations[i];
        assert(r@ == before[i as int]);
        let hit = ordering::same_text(r.record.namespace.as_str(), namespace) && ordering::same_text(r.subject.as_str(), subject.as_str())
            && ordering::same_text(r.object.as_str(), object.as_str()) && ordering::same_text(r.predicate.as_str(), predicate.as_str());
        if hit {
            let relation = &mut graph.relations[i];
            add_evidence(&mut relation.record, &more);
        }
        assert(graph.relations@[i as int]@ == wanted[i as int]);
        i = i + 1;
    }
    assert(graph_drafts::relation_views(graph.relations@) == wanted);
}

fn attach_event(graph: &mut GraphDrafts, namespace: &str, meta: &Metadata, item: &Metadata)
    ensures
        final(graph)@ == (GraphDraftsView {
            events: event_evidence(old(graph)@.events, namespace@, meta@, item@),
            ..old(graph)@
        }),
{
    let name = legacy::string(item, "name");
    let more = legacy::evidence(json::find(&item.entries, "evidence"), meta);
    let ghost before = graph_drafts::event_views(graph.events@);
    let ghost wanted = event_evidence(before, namespace@, meta@, item@);
    let mut i: usize = 0;
    while i < graph.events.len()
        invariant
            i <= graph.events@.len(),
            graph.entities == old(graph).entities,
            graph.relations == old(graph).relations,
            graph.events@.len() == before.len(),
            before == graph_drafts::event_views(old(graph).events@),
            wanted == event_evidence(before, namespace@, meta@, item@),
            name@ == legacy::cell(item@, "name"@),
            types::evidence_views(more@) == legacy::evidence_of(json::lookup(item@, "evidence"@), meta@),
            forall|k: int| 0 <= k < i ==> (#[trigger] graph.events@[k])@ == wanted[k],
            forall|k: int| i <= k < before.len() ==> (#[trigger] graph.events@[k])@ == before[k],
        decreases graph.events.len() - i,
    {
        let e = &graph.events[i];
        assert(e@ == before[i as int]);
        let hit = ordering::same_text(e.record.namespace.as_str(), namespace) && ordering::same_text(e.name.as_str(), name.as_str());
        if hit {
            let event = &mut graph.events[i];
            add_evidence(&mut event.record, &more);
        }
        assert(graph.events@[i as int]@ == wanted[i as int]);
        i = i + 1;
    }
    assert(graph_drafts::event_views(graph.events@) == wanted);
}

fn attach_list(graph: &mut GraphDrafts, known: &Vec<NamedKey>, namespace: &str, meta: &Metadata, kind: ItemKind, column: &str)
    ensures
        final(graph)@ == list_step(old(graph)@, named_views(known@), namespace@, meta@, kind, column@),
{
    let items = read_items(json::find(&meta.entries, column));
    let ghost all = json::trees(items@);
    let ghost start = graph@;
    let mut i: usize = 0;
    while i < items.len()
        invariant
            i <= items.len(),
            all == json::trees(items@),
            graph@ == item_steps(start, named_views(known@), namespace@, meta@, kind, all, i as int),
        decreases items.len() - i,
    {
        assert(all[i as int] == json::tree(items@[i as int]));
        if let Some(item) = read_object(&items[i]) {
            match kind {
                ItemKind::Entity => attach_entity(graph, known, namespace, meta, &item),
                ItemKind::Relation => attach_relation(graph, known, namespace, meta, &item),
                ItemKind::Event => attach_event(graph, namespace, meta, &item),
            }
        }
        i = i + 1;
    }
    assert(all.len() == items@.len());
}

proof fn attach_error_stays(g: GraphDraftsView, req: ImportRequest, rows: Seq<SourceRow>, m: int, n: int)
    requires
        m <= n,
        attach_steps(g, req, rows, m) is Err,
    ensures
        attach_steps(g, req, rows, n) == attach_steps(g, req, rows, m),
    decreases n - m,
{
    if m < n {
        attach_error_stays(g, req, rows, m, n - 1);
    }
}

/// Adds the evidence of extracted graphs to a graph.
pub fn attach_evidence(req: &ImportRequest, graph: &mut GraphDrafts, rows: &Vec<SourceRow>) -> (out: Result<(), Error>)
    ensures
        match attach_steps(old(graph)@, *req, rows@, rows@.len() as int) {
            Ok(after) => out is Ok && final(graph)@ == after,
            Err(error) => out is Err && (out->Err_0)@ == error,
        },
{
    let known = read_names(&graph.entities);
    let ghost start = graph@;
    let mut i: usize = 0;
    while i < rows.len()
        invariant
            i <= rows.len(),
            start == old(graph)@,
            named_views(known@) == all_names(start.entities),
            attach_steps(start, *req, rows@, i as int) == Ok::<GraphDraftsView, ErrorView>(graph@),
        decreases rows.len() - i,
    {
        match &rows[i].metadata {
            Err(message) => {
                proof {
                    attach_error_stays(start, *req, rows@, i + 1, rows@.len() as int);
                }
                return Err(Error::Json(message.clone()));
            },
            Ok(meta) => {
                let namespace = legacy::namespace(req, legacy::string(meta, "domain").as_str());
                attach_list(graph, &known, namespace.as_str(), meta, ItemKind::Entity, "entities");
                attach_list(graph, &known, namespace.as_str(), meta, ItemKind::Relation, "relations");
                attach_list(graph, &known, namespace.as_str(), meta, ItemKind::Event, "events");
            },
        }
        i = i + 1;
    }
    Ok(())
}

// ── What stays ────────────────────────────────────────────────────────

/// A record that is as it was but for evidence added at the end.
pub open spec fn only_evidence_added(before: RecordInputView, after: RecordInputView) -> bool {
    &&& after == (RecordInputView { evidence: after.evidence, ..before })
    &&& before.evidence.is_prefix_of(after.evidence)
}

/// A graph that is as it was but for evidence added at the end.
pub open spec fn grown(before: GraphDraftsView, after: GraphDraftsView) -> bool {
    &&& after.entities.len() == before.entities.len()
    &&& after.relations.len() == before.relations.len()
    &&& after.events.len() == before.events.len()
    &&& forall|i: int|
        0 <= i < before.entities.len() ==> #[trigger] after.entities[i] == (EntityDraftView {
            record: after.entities[i].record,
            ..before.entities[i]
        }) && only_evidence_added(before.entities[i].record, after.entities[i].record)
    &&& forall|i: int|
        0 <= i < before.relations.len() ==> #[trigger] after.relations[i] == (RelationDraftView {
            record: after.relations[i].record,
            ..before.relations[i]
        }) && only_evidence_added(before.relations[i].record, after.relations[i].record)
    &&& forall|i: int|
        0 <= i < before.events.len() ==> #[trigger] after.events[i] == (EventDraftView {
            record: after.events[i].record,
            ..before.events[i]
        }) && only_evidence_added(before.events[i].record, after.events[i].record)
}

proof fn more_is_added(record: RecordInputView, more: Seq<EvidenceView>)
    ensures
        only_evidence_added(record, with_more(record, more)),
        only_evidence_added(record, record),
{
    assert(record.evidence =~= (record.evidence + more).subrange(0, record.evidence.len() as int));
    assert(record.evidence =~= record.evidence.subrange(0, record.evidence.len() as int));
}

proof fn added_twice(a: RecordInputView, b: RecordInputView, c: RecordInputView)
    requires
        only_evidence_added(a, b),
        only_evidence_added(b, c),
    ensures
        only_evidence_added(a, c),
{
    assert(a.evidence =~= c.evidence.subrange(0, a.evidence.len() as int)) by {
        assert forall|i: int| 0 <= i < a.evidence.len() implies a.evidence[i] == c.evidence[i] by {
            assert(a.evidence[i] == b.evidence.subrange(0, a.evidence.len() as int)[i]);
            assert(b.evidence[i] == c.evidence.subrange(0, b.evidence.len() as int)[i]);
        }
    }
}

proof fn grown_twice(a: GraphDraftsView, b: GraphDraftsView, c: GraphDraftsView)
    requires
        grown(a, b),
        grown(b, c),
    ensures
        grown(a, c),
{
    assert forall|i: int| 0 <= i < a.entities.len() implies #[trigger] c.entities[i] == (EntityDraftView {
        record: c.entities[i].record,
        ..a.entities[i]
    }) && only_evidence_added(a.entities[i].record, c.entities[i].record) by {
        assert(b.entities[i].record == b.entities[i].record);
        added_twice(a.entities[i].record, b.entities[i].record, c.entities[i].record);
    }
    assert forall|i: int| 0 <= i < a.relations.len() implies #[trigger] c.relations[i] == (RelationDraftView {
        record: c.relations[i].record,
        ..a.relations[i]
    }) && only_evidence_added(a.relations[i].record, c.relations[i].record) by {
        assert(b.relations[i].record == b.relations[i].record);
        added_twice(a.relations[i].record, b.relations[i].record, c.relations[i].record);
    }
    assert forall|i: int| 0 <= i < a.events.len() implies #[trigger] c.events[i] == (EventDraftView {
        record: c.events[i].record,
        ..a.events[i]
    }) && only_evidence_added(a.events[i].record, c.events[i].record) by {
        assert(b.events[i].record == b.events[i].record);
        added_twice(a.events[i].record, b.events[i].record, c.events[i].record);
    }
}

proof fn unchanged_is_grown(g: GraphDraftsView)
    ensures
        grown(g, g),
{
    assert forall|i: int| 0 <= i < g.entities.len() implies only_evidence_added((#[trigger] g.entities[i]).record, g.entities[i].record) by {
        more_is_added(g.entities[i].record, Seq::empty());
    }
    assert forall|i: int| 0 <= i < g.relations.len() implies only_evidence_added((#[trigger] g.relations[i]).record, g.relations[i].record) by {
        more_is_added(g.relations[i].record, Seq::empty());
    }
    assert forall|i: int| 0 <= i < g.events.len() implies only_evidence_added((#[trigger] g.events[i]).record, g.events[i].record) by {
        more_is_added(g.events[i].record, Seq::empty());
    }
}

proof fn last_key_bounds(entities: Seq<EntityDraftView>, key: Seq<char>)
    ensures
        last_with_key(entities, key) matches Some(i) ==> 0 <= i < entities.len() && entities[i].key() == key,
    decreases entities.len(),
{
    if entities.len() > 0 {
        last_key_bounds(entities.drop_last(), key);
    }
}

proof fn item_grows(g: GraphDraftsView, known: Seq<NamedKeyView>, namespace: Seq<char>, meta: Seq<(Seq<char>, Tree)>, kind: ItemKind, item: Tree)
    ensures
        grown(g, item_step(g, known, namespace, meta, kind, item)),
{
    unchanged_is_grown(g);
    let after = item_step(g, known, namespace, meta, kind, item);
    if let Some(fields) = object_fields(item) {
        let more = legacy::evidence_of(json::lookup(fields, "evidence"@), meta);
        match kind {
            ItemKind::Entity => {
                if let Some(key) = sole_key(known, namespace, text::tag_form(legacy::cell(fields, "name"@))) {
                    last_key_bounds(g.entities, key);
                    if let Some(i) = last_with_key(g.entities, key) {
                        more_is_added(g.entities[i].record, more);
                    }
                }
            },
            ItemKind::Relation => {
                assert forall|i: int| 0 <= i < g.relations.len() implies #[trigger] after.relations[i] == (RelationDraftView {
                    record: after.relations[i].record,
                    ..g.relations[i]
                }) && only_evidence_added(g.relations[i].record, after.relations[i].record) by {
                    more_is_added(g.relations[i].record, more);
                }
            },
            ItemKind::Event => {
                assert forall|i: int| 0 <= i < g.events.len() implies #[trigger] after.events[i] == (EventDraftView {
                    record: after.events[i].record,
                    ..g.events[i]
                }) && only_evidence_added(g.events[i].record, after.events[i].record) by {
                    more_is_added(g.events[i].record, more);
                }
            },
        }
    }
}

proof fn items_grow(g: GraphDraftsView, known: Seq<NamedKeyView>, namespace: Seq<char>, meta: Seq<(Seq<char>, Tree)>, kind: ItemKind, items: Seq<Tree>, n: int)
    ensures
        grown(g, item_steps(g, known, namespace, meta, kind, items, n)),
    decreases n,
{
    if n <= 0 {
        unchanged_is_grown(g);
    } else {
        let before = item_steps(g, known, namespace, meta, kind, items, n - 1);
        items_grow(g, known, namespace, meta, kind, items, n - 1);
        item_grows(before, known, namespace, meta, kind, items[n - 1]);
        grown_twice(g, before, item_steps(g, known, namespace, meta, kind, items, n));
    }
}

/// Attaching adds evidence and changes nothing else: the same entities, relations and events are
/// there, each with all that it had.
pub proof fn attaching_only_adds_evidence(g: GraphDraftsView, req: ImportRequest, rows: Seq<SourceRow>, n: int)
    requires
        attach_steps(g, req, rows, n) is Ok,
    ensures
        grown(g, attach_steps(g, req, rows, n)->Ok_0),
    decreases n,
{
    if n <= 0 {
        unchanged_is_grown(g);
    } else {
        attaching_only_adds_evidence(g, req, rows, n - 1);
        let before = attach_steps(g, req, rows, n - 1)->Ok_0;
        let meta = (rows[n - 1].metadata->Ok_0)@;
        let known = all_names(g.entities);
        let namespace = legacy::domain_namespace(req.source, req.namespace@, legacy::cell(meta, "domain"@));
        let one = list_step(before, known, namespace, meta, ItemKind::Entity, "entities"@);
        let two = list_step(one, known, namespace, meta, ItemKind::Relation, "relations"@);
        let three = list_step(two, known, namespace, meta, ItemKind::Event, "events"@);
        let entities = items_in(json::lookup(meta, "entities"@));
        let relations = items_in(json::lookup(meta, "relations"@));
        let events = items_in(json::lookup(meta, "events"@));
        items_grow(before, known, namespace, meta, ItemKind::Entity, entities, entities.len() as int);
        items_grow(one, known, namespace, meta, ItemKind::Relation, relations, relations.len() as int);
        items_grow(two, known, namespace, meta, ItemKind::Event, events, events.len() as int);
        grown_twice(g, before, one);
        grown_twice(g, one, two);
        grown_twice(g, two, three);
    }
}

} // verus!
