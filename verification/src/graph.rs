//! Entities, relations and events: what is written of them, how a new name reaches what refers to
//! it, and words that mean the same.

use crate::bits;
use crate::bits::Real;
use crate::chars;
use crate::error::{Error, ErrorView};
use crate::ids;
use crate::json;
use crate::json::Json;
use crate::ordering;
use crate::query;
use crate::records;
use crate::storage;
use crate::text;
use crate::types::{RecordHeader, RecordInput, RecordKind};
use vstd::prelude::*;

verus! {

// ── What is written ───────────────────────────────────────────────────

/// How sure a statement is that does not say.
pub fn default_confidence() -> (out: Real)
    ensures
        out.bits == 0x3fe9_9999_9999_999a,
        out.text@ == "0.8"@,
{
    Real { bits: 0x3fe9_9999_9999_999a, text: "0.8".to_owned() }
}

/// The error for a confidence out of range.
pub open spec fn confidence_error(c: Real) -> Option<ErrorView> {
    if bits::in_unit(c.bits) {
        None
    } else {
        Some(ErrorView::Validation("confidence must be in [0,1]"@))
    }
}

/// Checks a confidence.
pub fn check_confidence(c: &Real) -> (out: Result<(), Error>)
    ensures
        storage::refused(out, confidence_error(*c)),
        out is Ok <==> bits::in_unit(c.bits),
{
    if bits::is_in_unit(c.bits) {
        Ok(())
    } else {
        Err(Error::Validation("confidence must be in [0,1]".to_owned()))
    }
}

/// The type of an entity that names none.
pub fn concept() -> (out: String)
    ensures
        out@ == "concept"@,
{
    "concept".to_owned()
}

/// An entity to be written. Attributes stand in the order of their keys, each key once.
#[derive(Debug)]
pub struct EntityInput {
    pub record: RecordInput,
    pub name: String,
    pub entity_type: String,
    pub aliases: Vec<String>,
    pub attributes: Vec<(String, Vec<String>)>,
    pub summary: String,
}

/// An entity.
#[derive(Debug)]
pub struct Entity {
    pub header: RecordHeader,
    pub name: String,
    pub entity_type: String,
    pub aliases: Vec<String>,
    pub attributes: Vec<(String, Vec<String>)>,
    pub summary: String,
}

/// A relation to be written.
#[derive(Debug)]
pub struct RelationInput {
    pub record: RecordInput,
    pub subject_id: i64,
    pub predicate: String,
    pub object_id: i64,
    pub confidence: Real,
    pub reason: String,
}

/// A relation.
#[derive(Debug)]
pub struct Relation {
    pub header: RecordHeader,
    pub subject_id: i64,
    pub predicate: String,
    pub object_id: i64,
    pub confidence: Real,
    pub reason: String,
}

/// An event to be written.
#[derive(Debug)]
pub struct EventInput {
    pub record: RecordInput,
    pub name: String,
    pub summary: String,
    pub participants: Vec<i64>,
    pub confidence: Real,
    pub reason: String,
}

/// An event.
#[derive(Debug)]
pub struct Event {
    pub header: RecordHeader,
    pub name: String,
    pub summary: String,
    pub participants: Vec<i64>,
    pub confidence: Real,
    pub reason: String,
}

/// What is written at once: entities first, so that the others may refer to them.
#[derive(Debug)]
pub struct GraphBatch {
    pub entities: Vec<EntityInput>,
    pub relations: Vec<RelationInput>,
    pub events: Vec<EventInput>,
}

impl Default for GraphBatch {
    fn default() -> (out: Self)
        ensures
            out.entities@.len() == 0 && out.relations@.len() == 0 && out.events@.len() == 0,
    {
        GraphBatch { entities: Vec::new(), relations: Vec::new(), events: Vec::new() }
    }
}

/// What came of a batch.
#[derive(Debug)]
pub struct GraphBatchResult {
    pub entities: Vec<Entity>,
    pub relations: Vec<Relation>,
    pub events: Vec<Event>,
}

/// Entities and the relations between them.
#[derive(Debug)]
pub struct Neighborhood {
    pub entities: Vec<Entity>,
    pub relations: Vec<Relation>,
}

/// Attributes as characters.
pub open spec fn attribute_views(list: Seq<(String, Vec<String>)>) -> Seq<(Seq<char>, Seq<Seq<char>>)> {
    Seq::new(list.len(), |i: int| (list[i].0@, chars::texts(list[i].1@)))
}

/// Attributes as the fields of an object.
pub open spec fn attribute_fields(list: Seq<(Seq<char>, Seq<Seq<char>>)>) -> Seq<(Seq<char>, json::Tree)> {
    Seq::new(list.len(), |i: int| (list[i].0, json::texts_tree(list[i].1)))
}

/// Attributes as text, each key followed by its values.
pub open spec fn attribute_lines(list: Seq<(Seq<char>, Seq<Seq<char>>)>) -> Seq<Seq<char>> {
    Seq::new(list.len(), |i: int| list[i].0 + " "@ + chars::joined(list[i].1, " "@))
}

/// `out` are the aliases as they are stored: trimmed, without empty ones, sorted, each once.
pub open spec fn stored_aliases(aliases: Seq<Seq<char>>, out: Seq<Seq<char>>) -> bool {
    &&& ordering::strictly_sorted(out)
    &&& forall|t: Seq<char>| #[trigger] out.contains(t) <==> t.len() > 0 && exists|i: int| 0 <= i < aliases.len() && t == chars::trim(#[trigger] aliases[i])
}

/// The aliases as they are stored.
pub fn normalize_aliases(aliases: &Vec<String>) -> (out: Vec<String>)
    ensures
        stored_aliases(chars::texts(aliases@), chars::texts(out@)),
        chars::texts(out@).no_duplicates(),
        forall|i: int| 0 <= i < out@.len() ==> #[trigger] chars::texts(out@)[i].len() > 0,
        forall|i: int|
            0 <= i < aliases@.len() && !chars::blank(#[trigger] chars::texts(aliases@)[i]) ==> chars::texts(out@).contains(
                chars::trim(chars::texts(aliases@)[i]),
            ),
{
    let ghost all = chars::texts(aliases@);
    let mut out: Vec<String> = Vec::new();
    let mut i: usize = 0;
    while i < aliases.len()
        invariant
            i <= aliases.len(),
            all == chars::texts(aliases@),
            ordering::strictly_sorted(chars::texts(out@)),
            forall|t: Seq<char>| #[trigger] chars::texts(out@).contains(t) <==> t.len() > 0 && exists|k: int| 0 <= k < i && t == chars::trim(#[trigger] all[k]),
        decreases aliases.len() - i,
    {
        let ghost before = chars::texts(out@);
        let alias = chars::trimmed(aliases[i].as_str());
        assert(all[i as int] == aliases@[i as int]@);
        if alias.as_str().unicode_len() > 0 {
            let _new = ordering::insert_sorted(&mut out, alias);
        }
        proof {
            let after = chars::texts(out@);
            assert forall|t: Seq<char>| #[trigger] after.contains(t) <==> t.len() > 0 && exists|k: int| 0 <= k < i + 1 && t == chars::trim(#[trigger] all[k]) by {
                if after.contains(t) && !before.contains(t) {
                    assert(t == chars::trim(all[i as int]));
                }
                if t.len() > 0 && exists|k: int| 0 <= k < i + 1 && t == chars::trim(#[trigger] all[k]) {
                    let k = choose|k: int| 0 <= k < i + 1 && t == chars::trim(#[trigger] all[k]);
                    if k < i {
                        assert(before.contains(t));
                    }
                }
            }
        }
        i = i + 1;
    }
    proof {
        let kept = chars::texts(out@);
        ordering::strictly_sorted_without_repeats(kept);
        assert forall|k: int| 0 <= k < kept.len() implies #[trigger] kept[k].len() > 0 by {
            assert(kept.contains(kept[k]));
        }
        assert forall|k: int| 0 <= k < all.len() && !chars::blank(#[trigger] all[k]) implies kept.contains(chars::trim(all[k])) by {
            chars::trim_empty_iff_blank(all[k]);
        }
    }
    out
}

/// What is written for a record: its payload and its searched text.
#[derive(Debug)]
pub struct Written {
    pub payload: Json,
    pub body: String,
}

/// The fields of an entity's payload.
pub open spec fn entity_pairs(
    name: Seq<char>,
    entity_type: Seq<char>,
    aliases: Seq<Seq<char>>,
    attributes: Seq<(Seq<char>, Seq<Seq<char>>)>,
    summary: Seq<char>,
) -> Seq<(Seq<char>, json::Tree)> {
    seq![
        ("name"@, json::Tree::Text(name)),
        ("entity_type"@, json::Tree::Text(entity_type)),
        ("aliases"@, json::texts_tree(aliases)),
        ("attributes"@, json::Tree::Object(attribute_fields(attributes))),
        ("summary"@, json::Tree::Text(summary)),
    ]
}

/// The searched text of an entity: aliases, summary and attributes. Its name has a column of its
/// own.
pub open spec fn entity_text(aliases: Seq<Seq<char>>, attributes: Seq<(Seq<char>, Seq<Seq<char>>)>, summary: Seq<char>) -> Seq<char> {
    chars::joined(aliases, " "@) + " "@ + summary + " "@ + chars::joined(attribute_lines(attributes), " "@)
}

/// What is wrong with an entity.
pub open spec fn entity_error(name: Seq<char>, entity_type: Seq<char>) -> Option<ErrorView> {
    if !storage::identity(name) {
        Some(storage::identity_error("entity name"@))
    } else if !storage::identity(entity_type) {
        Some(storage::identity_error("entity_type"@))
    } else {
        None
    }
}

/// The keys of payloads differ from each other: by their length, or by their first character.
proof fn keys_differ()
    ensures
        "name"@.len() == 4 && "entity_type"@.len() == 11 && "aliases"@.len() == 7 && "attributes"@.len() == 10,
        "summary"@.len() == 7 && "subject_id"@.len() == 10 && "predicate"@.len() == 9 && "object_id"@.len() == 9,
        "confidence"@.len() == 10 && "reason"@.len() == 6 && "subject_name"@.len() == 12 && "object_name"@.len() == 11,
        "participants"@.len() == 12 && "participant_names"@.len() == 17,
        "aliases"@ != "summary"@,
        "predicate"@ != "object_id"@,
{
    reveal_strlit("name");
    reveal_strlit("entity_type");
    reveal_strlit("aliases");
    reveal_strlit("attributes");
    reveal_strlit("summary");
    reveal_strlit("subject_id");
    reveal_strlit("predicate");
    reveal_strlit("object_id");
    reveal_strlit("confidence");
    reveal_strlit("reason");
    reveal_strlit("subject_name");
    reveal_strlit("object_name");
    reveal_strlit("participants");
    reveal_strlit("participant_names");
    assert("name"@.len() == 4);
    assert("entity_type"@.len() == 11);
    assert("aliases"@.len() == 7);
    assert("attributes"@.len() == 10);
    assert("summary"@.len() == 7);
    assert("subject_id"@.len() == 10);
    assert("predicate"@.len() == 9);
    assert("object_id"@.len() == 9);
    assert("confidence"@.len() == 10);
    assert("reason"@.len() == 6);
    assert("subject_name"@.len() == 12);
    assert("object_name"@.len() == 11);
    assert("participants"@.len() == 12);
    assert("participant_names"@.len() == 17);
    assert("aliases"@[0] != "summary"@[0]);
    assert("predicate"@[0] != "object_id"@[0]);
}

/// The text that is read back from an entity's payload is the one that was written.
pub proof fn entity_text_is_read_back(
    name: Seq<char>,
    entity_type: Seq<char>,
    aliases: Seq<Seq<char>>,
    attributes: Seq<(Seq<char>, Seq<Seq<char>>)>,
    summary: Seq<char>,
)
    ensures
        ({
            let payload = json::Tree::Object(json::with_fields(Seq::empty(), entity_pairs(name, entity_type, aliases, attributes, summary)));
            &&& storage::record_text_of(RecordKind::Entity, payload) == entity_text(aliases, attributes, summary)
            &&& storage::record_name_of(RecordKind::Entity, payload) == name
        }),
{
    let pairs = entity_pairs(name, entity_type, aliases, attributes, summary);
    let none = Seq::<(Seq<char>, json::Tree)>::empty();
    keys_differ();
    json::set_all_then_find(none, pairs, "name"@, 1);
    json::set_all_then_find(none, pairs, "aliases"@, 3);
    json::set_all_then_find(none, pairs, "attributes"@, 4);
    json::set_all_then_find(none, pairs, "summary"@, 5);
    json::texts_of_texts_tree(aliases);
    let fields = attribute_fields(attributes);
    assert forall|i: int| 0 <= i < fields.len() implies storage::attribute_texts(fields)[i] == #[trigger] attribute_lines(attributes)[i] by {
        json::texts_of_texts_tree(attributes[i].1);
    }
    assert(storage::attribute_texts(fields) == attribute_lines(attributes));
}

/// The attributes of an entity as a value.
fn attributes_value(attributes: &Vec<(String, Vec<String>)>) -> (out: Json)
    ensures
        json::tree(out) == json::Tree::Object(attribute_fields(attribute_views(attributes@))),
{
    let ghost wanted = attribute_fields(attribute_views(attributes@));
    let mut fields: Vec<(String, Json)> = Vec::new();
    let mut i: usize = 0;
    while i < attributes.len()
        invariant
            i <= attributes.len(),
            wanted == attribute_fields(attribute_views(attributes@)),
            json::field_trees(fields@) == wanted.take(i as int),
        decreases attributes.len() - i,
    {
        let ghost before = json::field_trees(fields@);
        fields.push((attributes[i].0.clone(), json::texts_value(&attributes[i].1)));
        assert(json::field_trees(fields@) == before.push(wanted[i as int]));
        assert(wanted.take(i + 1) == wanted.take(i as int).push(wanted[i as int]));
        i = i + 1;
    }
    proof {
        assert(wanted.take(wanted.len() as int) == wanted);
        json::tree_of_object(fields);
    }
    Json::Object(fields)
}

/// Works out what is written for an entity, and its aliases as they are stored.
pub fn write_entity(input: &EntityInput) -> (out: Result<(Written, Vec<String>), Error>)
    ensures
        storage::refused(out, entity_error(input.name@, input.entity_type@)),
        out is Ok <==> storage::identity(input.name@) && storage::identity(input.entity_type@),
        out matches Ok((written, aliases)) ==> {
            let attributes = attribute_views(input.attributes@);
            &&& stored_aliases(chars::texts(input.aliases@), chars::texts(aliases@))
            &&& json::tree(written.payload) == json::Tree::Object(
                json::with_fields(
                    Seq::empty(),
                    entity_pairs(input.name@, input.entity_type@, chars::texts(aliases@), attributes, input.summary@),
                ),
            )
            &&& written.body@ == entity_text(chars::texts(aliases@), attributes, input.summary@)
        },
{
    storage::validate_identity("entity name", input.name.as_str())?;
    storage::validate_identity("entity_type", input.entity_type.as_str())?;
    let aliases = normalize_aliases(&input.aliases);
    let pairs: Vec<(String, Json)> = vec![
        ("name".to_owned(), json::text_value(input.name.as_str())),
        ("entity_type".to_owned(), json::text_value(input.entity_type.as_str())),
        ("aliases".to_owned(), json::texts_value(&aliases)),
        ("attributes".to_owned(), attributes_value(&input.attributes)),
        ("summary".to_owned(), json::text_value(input.summary.as_str())),
    ];
    assert(json::field_trees(pairs@) == entity_pairs(
        input.name@,
        input.entity_type@,
        chars::texts(aliases@),
        attribute_views(input.attributes@),
        input.summary@,
    ));
    let payload = json::object_value(pairs);
    let body = storage::record_text(RecordKind::Entity, &payload);
    proof {
        entity_text_is_read_back(
            input.name@,
            input.entity_type@,
            chars::texts(aliases@),
            attribute_views(input.attributes@),
            input.summary@,
        );
    }
    Ok((Written { payload, body }, aliases))
}

/// The fields of a relation's payload. The names of its ends are a snapshot.
pub open spec fn relation_pairs(input: RelationInput, subject: Seq<char>, object: Seq<char>) -> Seq<(Seq<char>, json::Tree)> {
    seq![
        ("subject_id"@, json::int_tree(input.subject_id)),
        ("predicate"@, json::Tree::Text(input.predicate@)),
        ("object_id"@, json::int_tree(input.object_id)),
        ("confidence"@, input.confidence.tree()),
        ("reason"@, json::Tree::Text(input.reason@)),
        ("subject_name"@, json::Tree::Text(subject)),
        ("object_name"@, json::Tree::Text(object)),
    ]
}

/// The searched text of a relation.
pub open spec fn relation_text(subject: Seq<char>, predicate: Seq<char>, object: Seq<char>, reason: Seq<char>) -> Seq<char> {
    subject + " "@ + predicate + " "@ + object + " "@ + reason
}

/// The text that is read back from a relation's payload is the one that was written.
pub proof fn relation_text_is_read_back(input: RelationInput, subject: Seq<char>, object: Seq<char>)
    ensures
        storage::record_text_of(
            RecordKind::Relation,
            json::Tree::Object(json::with_fields(Seq::empty(), relation_pairs(input, subject, object))),
        ) == relation_text(subject, input.predicate@, object, input.reason@),
{
    let pairs = relation_pairs(input, subject, object);
    let none = Seq::<(Seq<char>, json::Tree)>::empty();
    keys_differ();
    json::set_all_then_find(none, pairs, "predicate"@, 2);
    json::set_all_then_find(none, pairs, "reason"@, 5);
    json::set_all_then_find(none, pairs, "subject_name"@, 6);
    json::set_all_then_find(none, pairs, "object_name"@, 7);
}

/// What is wrong with a relation itself.
pub open spec fn relation_error(input: RelationInput) -> Option<ErrorView> {
    if !storage::identity(input.predicate@) {
        Some(storage::identity_error("predicate"@))
    } else {
        confidence_error(input.confidence)
    }
}

/// Checks a relation before the entities at its ends are looked up.
pub fn check_relation(input: &RelationInput) -> (out: Result<(), Error>)
    ensures
        storage::refused(out, relation_error(*input)),
        out is Ok <==> storage::identity(input.predicate@) && bits::in_unit(input.confidence.bits),
{
    storage::validate_identity("predicate", input.predicate.as_str())?;
    check_confidence(&input.confidence)
}

/// Works out what is written for a relation between two entities of the given names.
pub fn write_relation(input: &RelationInput, subject: &str, object: &str) -> (out: Written)
    ensures
        json::tree(out.payload) == json::Tree::Object(json::with_fields(Seq::empty(), relation_pairs(*input, subject@, object@))),
        out.body@ == relation_text(subject@, input.predicate@, object@, input.reason@),
        out.body@ == subject@ + " "@ + input.predicate@ + " "@ + object@ + " "@ + input.reason@,
{
    let pairs: Vec<(String, Json)> = vec![
        ("subject_id".to_owned(), json::int_value(input.subject_id)),
        ("predicate".to_owned(), json::text_value(input.predicate.as_str())),
        ("object_id".to_owned(), json::int_value(input.object_id)),
        ("confidence".to_owned(), input.confidence.value()),
        ("reason".to_owned(), json::text_value(input.reason.as_str())),
        ("subject_name".to_owned(), json::text_value(subject)),
        ("object_name".to_owned(), json::text_value(object)),
    ];
    assert(json::field_trees(pairs@) == relation_pairs(*input, subject@, object@));
    let payload = json::object_value(pairs);
    let body = storage::record_text(RecordKind::Relation, &payload);
    proof {
        relation_text_is_read_back(*input, subject@, object@);
    }
    Written { payload, body }
}

/// The fields of an event's payload. The names of the participants are a snapshot.
pub open spec fn event_pairs(input: EventInput, participants: Seq<i64>, names: Seq<Seq<char>>) -> Seq<(Seq<char>, json::Tree)> {
    seq![
        ("name"@, json::Tree::Text(input.name@)),
        ("summary"@, json::Tree::Text(input.summary@)),
        ("participants"@, json::ints_tree(participants)),
        ("confidence"@, input.confidence.tree()),
        ("reason"@, json::Tree::Text(input.reason@)),
        ("participant_names"@, json::texts_tree(names)),
    ]
}

/// The searched text of an event.
pub open spec fn event_text(name: Seq<char>, summary: Seq<char>, names: Seq<Seq<char>>, reason: Seq<char>) -> Seq<char> {
    name + " "@ + summary + " "@ + chars::joined(names, " "@) + " "@ + reason
}

/// The text that is read back from an event's payload is the one that was written.
pub proof fn event_text_is_read_back(input: EventInput, participants: Seq<i64>, names: Seq<Seq<char>>)
    ensures
        storage::record_text_of(
            RecordKind::Event,
            json::Tree::Object(json::with_fields(Seq::empty(), event_pairs(input, participants, names))),
        ) == event_text(input.name@, input.summary@, names, input.reason@),
{
    let pairs = event_pairs(input, participants, names);
    let none = Seq::<(Seq<char>, json::Tree)>::empty();
    keys_differ();
    json::set_all_then_find(none, pairs, "name"@, 1);
    json::set_all_then_find(none, pairs, "summary"@, 2);
    json::set_all_then_find(none, pairs, "reason"@, 5);
    json::set_all_then_find(none, pairs, "participant_names"@, 6);
    json::texts_of_texts_tree(names);
}

/// What is wrong with an event itself.
pub open spec fn event_error(input: EventInput) -> Option<ErrorView> {
    if !storage::identity(input.name@) {
        Some(storage::identity_error("event name"@))
    } else {
        confidence_error(input.confidence)
    }
}

/// Checks an event before its participants are looked up, and gives them in ascending order, each
/// once.
pub fn check_event(input: &EventInput) -> (out: Result<Vec<i64>, Error>)
    ensures
        storage::refused(out, event_error(*input)),
        out is Ok <==> storage::identity(input.name@) && bits::in_unit(input.confidence.bits),
        out matches Ok(list) ==> query::increasing(list@) && forall|id: i64| #[trigger]
            list@.contains(id) <==> input.participants@.contains(id),
{
    storage::validate_identity("event name", input.name.as_str())?;
    check_confidence(&input.confidence)?;
    Ok(ids::sorted_ids(&input.participants))
}

/// Works out what is written for an event with the given participants and their names.
pub fn write_event(input: &EventInput, participants: &Vec<i64>, names: &Vec<String>) -> (out: Written)
    ensures
        json::tree(out.payload) == json::Tree::Object(
            json::with_fields(Seq::empty(), event_pairs(*input, participants@, chars::texts(names@))),
        ),
        out.body@ == event_text(input.name@, input.summary@, chars::texts(names@), input.reason@),
        out.body@ == input.name@ + " "@ + input.summary@ + " "@ + chars::joined(chars::texts(names@), " "@) + " "@ + input.reason@,
{
    let pairs: Vec<(String, Json)> = vec![
        ("name".to_owned(), json::text_value(input.name.as_str())),
        ("summary".to_owned(), json::text_value(input.summary.as_str())),
        ("participants".to_owned(), json::ints_value(participants)),
        ("confidence".to_owned(), input.confidence.value()),
        ("reason".to_owned(), json::text_value(input.reason.as_str())),
        ("participant_names".to_owned(), json::texts_value(names)),
    ];
    assert(json::field_trees(pairs@) == event_pairs(*input, participants@, chars::texts(names@)));
    let payload = json::object_value(pairs);
    let body = storage::record_text(RecordKind::Event, &payload);
    proof {
        event_text_is_read_back(*input, participants@, chars::texts(names@));
    }
    Written { payload, body }
}

// ── New names reach what refers to them ───────────────────────────────

/// The names that a relation or an event shows now.
#[derive(Debug)]
pub enum CurrentNames {
    Relation { subject: String, object: String },
    Event(Vec<String>),
}

/// The fields of the payload that hold names.
pub open spec fn name_pairs(names: CurrentNames) -> Seq<(Seq<char>, json::Tree)> {
    match names {
        CurrentNames::Relation { subject, object } => seq![
            ("subject_name"@, json::Tree::Text(subject@)),
            ("object_name"@, json::Tree::Text(object@)),
        ],
        CurrentNames::Event(list) => seq![("participant_names"@, json::texts_tree(chars::texts(list@)))],
    }
}

/// The kind of record that the names are for.
pub open spec fn named_kind(names: CurrentNames) -> RecordKind {
    match names {
        CurrentNames::Relation { .. } => RecordKind::Relation,
        CurrentNames::Event(_) => RecordKind::Event,
    }
}

/// A payload with the names of now.
pub open spec fn renamed(fields: Seq<(Seq<char>, json::Tree)>, names: CurrentNames) -> Seq<(Seq<char>, json::Tree)> {
    json::with_fields(fields, name_pairs(names))
}

/// What is written back for a record whose names changed.
#[derive(Debug)]
pub struct Refreshed {
    pub payload: Vec<(String, Json)>,
    pub body: String,
    pub fingerprint: String,
    pub updated_at_us: i64,
}

/// Writes the names of now into a relation or an event. None where its text stays the same; else its
/// payload, text and fingerprint change, its vectors no longer count, and its time moves to now
/// unless it is later already.
pub fn refresh(payload: Vec<(String, Json)>, names: CurrentNames, tags: &Vec<String>, updated_at_us: i64, now_us: i64) -> (out: Option<Refreshed>)
    ensures
        ({
            let fields = json::field_trees(payload@);
            let old_text = storage::record_text_of(named_kind(names), json::Tree::Object(fields));
            let new_text = storage::record_text_of(named_kind(names), json::Tree::Object(renamed(fields, names)));
            match out {
                None => old_text == new_text,
                Some(r) => {
                    &&& old_text != new_text
                    &&& json::field_trees(r.payload@) == renamed(fields, names)
                    &&& r.body@ == new_text
                    &&& r.fingerprint@ == text::sha256_hex(storage::fingerprint_source(new_text, chars::texts(tags@)))
                    &&& r.updated_at_us == (if updated_at_us < now_us { now_us } else { updated_at_us })
                },
            }
        }),
{
    let ghost fields = json::field_trees(payload@);
    let ghost kept = names;
    let kind = match &names {
        CurrentNames::Relation { .. } => RecordKind::Relation,
        CurrentNames::Event(_) => RecordKind::Event,
    };
    proof {
        json::tree_of_object(payload);
    }
    let before = Json::Object(payload);
    let old_text = storage::record_text(kind, &before);
    let pairs: Vec<(String, Json)> = match names {
        CurrentNames::Relation { subject, object } => {
            let pairs: Vec<(String, Json)> = vec![
                ("subject_name".to_owned(), json::text_value(subject.as_str())),
                ("object_name".to_owned(), json::text_value(object.as_str())),
            ];
            assert(json::field_trees(pairs@) == name_pairs(kept));
            pairs
        },
        CurrentNames::Event(list) => {
            let pairs: Vec<(String, Json)> = vec![("participant_names".to_owned(), json::texts_value(&list))];
            assert(json::field_trees(pairs@) == name_pairs(kept));
            pairs
        },
    };
    let mut patched = match before {
        Json::Object(fields) => fields,
        _ => Vec::new(),
    };
    json::set_fields(&mut patched, pairs);
    proof {
        json::tree_of_object(patched);
    }
    let after = Json::Object(patched);
    let body = storage::record_text(kind, &after);
    if ordering::same_text(old_text.as_str(), body.as_str()) {
        return None;
    }
    let fingerprint = storage::record_fingerprint(body.as_str(), tags);
    let payload = match after {
        Json::Object(fields) => fields,
        _ => Vec::new(),
    };
    let updated: i64 = if updated_at_us < now_us { now_us } else { updated_at_us };
    Some(Refreshed { payload, body, fingerprint, updated_at_us: updated })
}

/// A refreshed payload holds the current names, and everything else as it was.
pub proof fn refreshing_sets_the_names(fields: Seq<(Seq<char>, json::Tree)>, names: CurrentNames, key: Seq<char>)
    ensures
        names matches CurrentNames::Relation { subject, object } ==> {
            &&& json::lookup(renamed(fields, names), "subject_name"@) == Some(json::Tree::Text(subject@))
            &&& json::lookup(renamed(fields, names), "object_name"@) == Some(json::Tree::Text(object@))
            &&& key != "subject_name"@ && key != "object_name"@ ==> json::lookup(renamed(fields, names), key) == json::lookup(fields, key)
        },
        names matches CurrentNames::Event(list) ==> {
            &&& json::lookup(renamed(fields, names), "participant_names"@) == Some(json::texts_tree(chars::texts(list@)))
            &&& key != "participant_names"@ ==> json::lookup(renamed(fields, names), key) == json::lookup(fields, key)
        },
{
    let pairs = name_pairs(names);
    reveal_strlit("subject_name");
    reveal_strlit("object_name");
    assert("subject_name"@.len() == 12 && "object_name"@.len() == 11);
    match names {
        CurrentNames::Relation { subject, object } => {
            json::set_all_then_find(fields, pairs, "subject_name"@, 1);
            json::set_all_then_find(fields, pairs, "object_name"@, 2);
            if key != "subject_name"@ && key != "object_name"@ {
                json::set_all_then_find(fields, pairs, key, 0);
            }
        },
        CurrentNames::Event(list) => {
            json::set_all_then_find(fields, pairs, "participant_names"@, 1);
            if key != "participant_names"@ {
                json::set_all_then_find(fields, pairs, key, 0);
            }
        },
    }
}

/// Writing the same names a second time changes nothing.
pub proof fn refreshing_settles(fields: Seq<(Seq<char>, json::Tree)>, names: CurrentNames)
    ensures
        storage::record_text_of(named_kind(names), json::Tree::Object(renamed(renamed(fields, names), names)))
            == storage::record_text_of(named_kind(names), json::Tree::Object(renamed(fields, names))),
{
    let once = renamed(fields, names);
    let pairs = name_pairs(names);
    keys_differ();
    match names {
        CurrentNames::Relation { subject, object } => {
            json::set_all_then_find(fields, pairs, "subject_name"@, 1);
            json::set_all_then_find(once, pairs, "subject_name"@, 1);
            json::set_all_then_find(fields, pairs, "object_name"@, 2);
            json::set_all_then_find(once, pairs, "object_name"@, 2);
            json::set_all_then_find(once, pairs, "predicate"@, 0);
            json::set_all_then_find(once, pairs, "reason"@, 0);
        },
        CurrentNames::Event(list) => {
            json::set_all_then_find(fields, pairs, "participant_names"@, 1);
            json::set_all_then_find(once, pairs, "participant_names"@, 1);
            json::set_all_then_find(once, pairs, "name"@, 0);
            json::set_all_then_find(once, pairs, "summary"@, 0);
            json::set_all_then_find(once, pairs, "reason"@, 0);
        },
    }
}

/// The query for what refers to an entity.
pub fn dependents_sql() -> (out: String)
    ensures
        out@
            == "SELECT record_id FROM relations WHERE subject_id=?1 OR object_id=?1 UNION SELECT event_id FROM event_participants WHERE entity_id=?1"@,
{
    "SELECT record_id FROM relations WHERE subject_id=?1 OR object_id=?1 UNION SELECT event_id FROM event_participants WHERE entity_id=?1".to_owned()
}

/// What is read back of an entity is what was written.
pub proof fn entity_is_read_back(
    name: Seq<char>,
    entity_type: Seq<char>,
    aliases: Seq<Seq<char>>,
    attributes: Seq<(Seq<char>, Seq<Seq<char>>)>,
    summary: Seq<char>,
    memory_type: Seq<char>,
    source: Seq<char>,
    title: Seq<char>,
)
    ensures
        ({
            let payload = json::with_fields(Seq::empty(), entity_pairs(name, entity_type, aliases, attributes, summary));
            let shown = records::shown_payload(RecordKind::Entity, payload, memory_type, source, title);
            &&& json::lookup(shown, "name"@) == Some(json::Tree::Text(name))
            &&& json::lookup(shown, "entity_type"@) == Some(json::Tree::Text(entity_type))
            &&& json::lookup(shown, "aliases"@) == Some(json::texts_tree(aliases))
            &&& json::lookup(shown, "attributes"@) == Some(json::Tree::Object(attribute_fields(attributes)))
            &&& json::lookup(shown, "summary"@) == Some(json::Tree::Text(summary))
        }),
{
    let pairs = entity_pairs(name, entity_type, aliases, attributes, summary);
    let none = Seq::<(Seq<char>, json::Tree)>::empty();
    keys_differ();
    type_key_differs();
    json::set_all_then_find(none, pairs, "memory_type_id"@, 0);
    json::set_all_then_find(none, pairs, "name"@, 1);
    json::set_all_then_find(none, pairs, "entity_type"@, 2);
    json::set_all_then_find(none, pairs, "aliases"@, 3);
    json::set_all_then_find(none, pairs, "attributes"@, 4);
    json::set_all_then_find(none, pairs, "summary"@, 5);
}

/// What is read back of a relation is what was written.
pub proof fn relation_is_read_back(
    input: RelationInput,
    subject: Seq<char>,
    object: Seq<char>,
    memory_type: Seq<char>,
    source: Seq<char>,
    title: Seq<char>,
)
    ensures
        ({
            let payload = json::with_fields(Seq::empty(), relation_pairs(input, subject, object));
            let shown = records::shown_payload(RecordKind::Relation, payload, memory_type, source, title);
            &&& json::int_of(json::lookup(shown, "subject_id"@)) == Some(input.subject_id)
            &&& json::lookup(shown, "predicate"@) == Some(json::Tree::Text(input.predicate@))
            &&& json::int_of(json::lookup(shown, "object_id"@)) == Some(input.object_id)
            &&& json::lookup(shown, "confidence"@) == Some(input.confidence.tree())
            &&& json::lookup(shown, "reason"@) == Some(json::Tree::Text(input.reason@))
        }),
{
    let pairs = relation_pairs(input, subject, object);
    let none = Seq::<(Seq<char>, json::Tree)>::empty();
    keys_differ();
    type_key_differs();
    json::set_all_then_find(none, pairs, "memory_type_id"@, 0);
    json::set_all_then_find(none, pairs, "subject_id"@, 1);
    json::set_all_then_find(none, pairs, "predicate"@, 2);
    json::set_all_then_find(none, pairs, "object_id"@, 3);
    json::set_all_then_find(none, pairs, "confidence"@, 4);
    json::set_all_then_find(none, pairs, "reason"@, 5);
}

/// What is read back of an event is what was written.
pub proof fn event_is_read_back(
    input: EventInput,
    participants: Seq<i64>,
    names: Seq<Seq<char>>,
    memory_type: Seq<char>,
    source: Seq<char>,
    title: Seq<char>,
)
    ensures
        ({
            let payload = json::with_fields(Seq::empty(), event_pairs(input, participants, names));
            let shown = records::shown_payload(RecordKind::Event, payload, memory_type, source, title);
            &&& json::lookup(shown, "name"@) == Some(json::Tree::Text(input.name@))
            &&& json::lookup(shown, "summary"@) == Some(json::Tree::Text(input.summary@))
            &&& json::lookup(shown, "participants"@) == Some(json::ints_tree(participants))
            &&& json::lookup(shown, "confidence"@) == Some(input.confidence.tree())
            &&& json::lookup(shown, "reason"@) == Some(json::Tree::Text(input.reason@))
        }),
{
    let pairs = event_pairs(input, participants, names);
    let none = Seq::<(Seq<char>, json::Tree)>::empty();
    keys_differ();
    type_key_differs();
    json::set_all_then_find(none, pairs, "memory_type_id"@, 0);
    json::set_all_then_find(none, pairs, "name"@, 1);
    json::set_all_then_find(none, pairs, "summary"@, 2);
    json::set_all_then_find(none, pairs, "participants"@, 3);
    json::set_all_then_find(none, pairs, "confidence"@, 4);
    json::set_all_then_find(none, pairs, "reason"@, 5);
}

/// The key of a memory's type is none of the keys of the graph.
proof fn type_key_differs()
    ensures
        "memory_type_id"@.len() == 14,
        "subject_id"@ != "confidence"@ && "subject_id"@ != "attributes"@ && "confidence"@ != "attributes"@,
{
    reveal_strlit("memory_type_id");
    reveal_strlit("subject_id");
    reveal_strlit("confidence");
    reveal_strlit("attributes");
    assert("memory_type_id"@.len() == 14);
    assert("subject_id"@[0] == 's' && "confidence"@[0] == 'c' && "attributes"@[0] == 'a');
}

// ── Reading ───────────────────────────────────────────────────────────

/// A kind of record that the graph is made of.
pub open spec fn graph_kind(kind: RecordKind) -> bool {
    kind == RecordKind::Entity || kind == RecordKind::Relation || kind == RecordKind::Event
}

/// Checks that a kind belongs to the graph.
pub fn check_graph_kind(kind: RecordKind) -> (out: Result<(), Error>)
    ensures
        storage::refused(out, if graph_kind(kind) {
            None
        } else {
            Some(ErrorView::Validation("expected a graph record kind"@))
        }),
        out is Ok <==> kind != RecordKind::Memory && kind != RecordKind::Note && kind != RecordKind::Chunk,
{
    if kind == RecordKind::Entity || kind == RecordKind::Relation || kind == RecordKind::Event {
        Ok(())
    } else {
        Err(Error::Validation("expected a graph record kind".to_owned()))
    }
}

/// The ids of the rows that match, in order and no more than `limit`.
pub open spec fn matching(rows: Seq<(i64, bool)>, limit: int) -> Seq<i64>
    decreases rows.len(),
{
    if rows.len() == 0 {
        Seq::empty()
    } else {
        let before = matching(rows.drop_last(), limit);
        if rows.last().1 && before.len() < limit {
            before.push(rows.last().0)
        } else {
            before
        }
    }
}

/// What matches is taken from the front: nothing that does not match, not more than the limit, and
/// all of it where the limit is not reached.
pub proof fn matches_are_taken_in_order(rows: Seq<(i64, bool)>, limit: int)
    requires
        limit >= 0,
    ensures
        matching(rows, limit).len() <= limit,
        forall|id: i64| #[trigger] matching(rows, limit).contains(id) ==> rows.contains((id, true)),
        matching(rows, limit).len() < limit ==> forall|id: i64| rows.contains((id, true)) ==> #[trigger] matching(rows, limit).contains(id),
        rows.len() > 0 ==> matching(rows.drop_last(), limit).is_prefix_of(matching(rows, limit)),
    decreases rows.len(),
{
    if rows.len() > 0 {
        let rest = rows.drop_last();
        let before = matching(rest, limit);
        let all = matching(rows, limit);
        matches_are_taken_in_order(rest, limit);
        assert(rows[rows.len() - 1] == rows.last());
        assert forall|id: i64| #[trigger] all.contains(id) implies rows.contains((id, true)) by {
            let k = choose|k: int| 0 <= k < all.len() && all[k] == id;
            if k < before.len() {
                assert(before[k] == id);
                assert(before.contains(id));
                let j = choose|j: int| 0 <= j < rest.len() && rest[j] == (id, true);
                assert(rows[j] == (id, true));
            } else {
                assert(rows.last() == (id, true));
            }
        }
        if all.len() < limit {
            assert forall|id: i64| rows.contains((id, true)) implies #[trigger] all.contains(id) by {
                let j = choose|j: int| 0 <= j < rows.len() && rows[j] == (id, true);
                if j < rest.len() {
                    assert(rest[j] == (id, true));
                    assert(before.contains(id));
                    let k = choose|k: int| 0 <= k < before.len() && before[k] == id;
                    assert(all[k] == id);
                } else {
                    assert(all[before.len() as int] == id);
                }
            }
        }
    }
}

/// The ids of the rows that match, in order and no more than `limit`.
pub fn first_matching(rows: &Vec<(i64, bool)>, limit: usize) -> (out: Result<Vec<i64>, Error>)
    ensures
        storage::refused(out, storage::limit_error(limit as int)),
        out matches Ok(list) ==> list@ == matching(rows@, limit as int),
        out matches Ok(list) ==> {
            &&& list@.len() <= limit
            &&& forall|id: i64| #[trigger] list@.contains(id) ==> rows@.contains((id, true))
            &&& list@.len() < limit ==> forall|id: i64| rows@.contains((id, true)) ==> #[trigger] list@.contains(id)
        },
{
    proof {
        if limit >= 1 {
            matches_are_taken_in_order(rows@, limit as int);
        }
    }
    storage::validate_limit(limit)?;
    let mut out: Vec<i64> = Vec::new();
    let mut i: usize = 0;
    assert(rows@.take(0) == Seq::<(i64, bool)>::empty());
    while i < rows.len()
        invariant
            i <= rows.len(),
            out@ == matching(rows@.take(i as int), limit as int),
        decreases rows.len() - i,
    {
        assert(rows@.take(i + 1).drop_last() == rows@.take(i as int));
        if rows[i].1 && out.len() < limit {
            out.push(rows[i].0);
        }
        i = i + 1;
    }
    assert(rows@.take(rows@.len() as int) == rows@);
    Ok(out)
}

// ── Words that mean the same ──────────────────────────────────────────

/// How many words a query is expanded by at most.
pub const EXPAND_QUERY_LIMIT: usize = 64;

/// What is wrong with the words of one group.
pub open spec fn group_error(group: Seq<Seq<char>>) -> Option<ErrorView> {
    if group.len() == 0 {
        Some(ErrorView::Validation("an equivalent group must not be empty"@))
    } else if exists|i: int| 0 <= i < group.len() && !storage::identity(#[trigger] group[i]) {
        Some(storage::identity_error("predicate"@))
    } else {
        None
    }
}

/// What is wrong with the groups of a namespace, the first fault only.
pub open spec fn groups_error(groups: Seq<Seq<Seq<char>>>) -> Option<ErrorView>
    decreases groups.len(),
{
    if groups.len() == 0 {
        None
    } else if group_error(groups[0]) is Some {
        group_error(groups[0])
    } else {
        groups_error(groups.drop_first())
    }
}

/// Groups of words as characters.
pub open spec fn group_views(groups: Seq<Vec<String>>) -> Seq<Seq<Seq<char>>> {
    Seq::new(groups.len(), |i: int| chars::texts(groups[i]@))
}

/// The words of a group, each with the first, which stands for the group.
pub open spec fn group_rows(group: Seq<Seq<char>>) -> Seq<(Seq<char>, Seq<char>)> {
    Seq::new(group.len(), |i: int| (group[0], group[i]))
}

/// The words of all groups, each with the one that stands for its group.
pub open spec fn groups_rows(groups: Seq<Seq<Seq<char>>>) -> Seq<(Seq<char>, Seq<char>)>
    decreases groups.len(),
{
    if groups.len() == 0 {
        Seq::empty()
    } else {
        groups_rows(groups.drop_last()) + group_rows(groups.last())
    }
}

/// Pairs of texts as characters.
pub open spec fn pair_views(rows: Seq<(String, String)>) -> Seq<(Seq<char>, Seq<char>)> {
    Seq::new(rows.len(), |i: int| (rows[i].0@, rows[i].1@))
}

/// Checks one group.
fn check_group(group: &Vec<String>) -> (out: Result<(), Error>)
    ensures
        storage::refused(out, group_error(chars::texts(group@))),
{
    let ghost all = chars::texts(group@);
    if group.len() == 0 {
        return Err(Error::Validation("an equivalent group must not be empty".to_owned()));
    }
    let mut i: usize = 0;
    while i < group.len()
        invariant
            i <= group.len(),
            group.len() > 0,
            all == chars::texts(group@),
            forall|k: int| 0 <= k < i ==> storage::identity(#[trigger] all[k]),
        decreases group.len() - i,
    {
        assert(all[i as int] == group@[i as int]@);
        match storage::validate_identity("predicate", group[i].as_str()) {
            Ok(()) => {},
            Err(e) => {
                assert(!storage::identity(all[i as int]));
                return Err(e);
            },
        }
        i = i + 1;
    }
    Ok(())
}

/// The rows of groups pair every member of a group with the first of that group, and nothing else.
pub proof fn members_stand_under_the_first(groups: Seq<Seq<Seq<char>>>, a: Seq<char>, b: Seq<char>)
    ensures
        groups_rows(groups).contains((a, b)) <==> exists|k: int|
            0 <= k < groups.len() && (#[trigger] groups[k]).len() > 0 && groups[k][0] == a && groups[k].contains(b),
    decreases groups.len(),
{
    if groups.len() > 0 {
        let rest = groups.drop_last();
        let last = groups.last();
        let before = groups_rows(rest);
        let own = group_rows(last);
        let all = groups_rows(groups);
        let n = groups.len() - 1;
        members_stand_under_the_first(rest, a, b);
        assert(groups[n] == last);
        if before.contains((a, b)) {
            let k = choose|k: int| 0 <= k < rest.len() && (#[trigger] rest[k]).len() > 0 && rest[k][0] == a && rest[k].contains(b);
            assert(groups[k] == rest[k]);
            let j = choose|j: int| 0 <= j < before.len() && before[j] == (a, b);
            assert(all[j] == (a, b));
        }
        if all.contains((a, b)) && !before.contains((a, b)) {
            let j = choose|j: int| 0 <= j < all.len() && all[j] == (a, b);
            if j < before.len() {
                assert(before[j] == (a, b));
            } else {
                assert(own[j - before.len()] == (a, b));
                assert(last[j - before.len()] == b);
            }
        }
        if exists|k: int| 0 <= k < groups.len() && (#[trigger] groups[k]).len() > 0 && groups[k][0] == a && groups[k].contains(b) {
            let k = choose|k: int| 0 <= k < groups.len() && (#[trigger] groups[k]).len() > 0 && groups[k][0] == a && groups[k].contains(b);
            if k < n {
                assert(rest[k] == groups[k]);
                assert(before.contains((a, b)));
            } else {
                let j = choose|j: int| 0 <= j < last.len() && last[j] == b;
                assert(own[j] == (a, b));
                assert(all[before.len() + j] == own[j]);
            }
        }
    }
}

/// Groups are refused exactly where one is empty or holds a predicate that is no identity.
pub proof fn every_group_is_checked(groups: Seq<Seq<Seq<char>>>)
    ensures
        groups_error(groups) is None <==> forall|k: int|
            0 <= k < groups.len() ==> (#[trigger] groups[k]).len() > 0 && forall|i: int| 0 <= i < groups[k].len() ==> storage::identity(#[trigger] groups[k][i]),
    decreases groups.len(),
{
    if groups.len() > 0 {
        let rest = groups.drop_first();
        every_group_is_checked(rest);
        if groups_error(groups) is None {
            assert forall|k: int| 0 <= k < groups.len() implies (#[trigger] groups[k]).len() > 0 && forall|i: int|
                0 <= i < groups[k].len() ==> storage::identity(#[trigger] groups[k][i]) by {
                if k > 0 {
                    assert(groups[k] == rest[k - 1]);
                } else {
                    assert(group_error(groups[0]) is None);
                }
            }
        }
        if forall|k: int|
            0 <= k < groups.len() ==> (#[trigger] groups[k]).len() > 0 && forall|i: int| 0 <= i < groups[k].len() ==> storage::identity(#[trigger] groups[k][i]) {
            assert(groups[0].len() > 0);
            assert(group_error(groups[0]) is None);
            assert forall|k: int| 0 <= k < rest.len() implies (#[trigger] rest[k]).len() > 0 && forall|i: int|
                0 <= i < rest[k].len() ==> storage::identity(#[trigger] rest[k][i]) by {
                assert(rest[k] == groups[k + 1]);
            }
        }
    }
}

/// Works out the rows for groups of words that mean the same in a namespace: pairs of the word that
/// stands for the group and each of its words.
pub fn equivalents_rows(namespace: &str, groups: &Vec<Vec<String>>) -> (out: Result<Vec<(String, String)>, Error>)
    ensures
        storage::refused(out, if !storage::identity(namespace@) {
            Some(storage::identity_error("namespace"@))
        } else {
            groups_error(group_views(groups@))
        }),
        out matches Ok(rows) ==> pair_views(rows@) == groups_rows(group_views(groups@)),
{
    storage::validate_identity("namespace", namespace)?;
    let ghost views = group_views(groups@);
    let mut i: usize = 0;
    assert(views.skip(0) == views);
    while i < groups.len()
        invariant
            i <= groups.len(),
            storage::identity(namespace@),
            views == group_views(groups@),
            groups_error(views.skip(i as int)) == groups_error(views),
            forall|k: int| 0 <= k < i ==> (#[trigger] groups@[k])@.len() > 0,
        decreases groups.len() - i,
    {
        assert(views.skip(i as int)[0] == views[i as int]);
        assert(views.skip(i as int).drop_first() == views.skip(i + 1));
        check_group(&groups[i])?;
        i = i + 1;
    }
    let mut rows: Vec<(String, String)> = Vec::new();
    let mut g: usize = 0;
    assert(views.take(0) == Seq::<Seq<Seq<char>>>::empty());
    assert(pair_views(rows@) == groups_rows(views.take(0)));
    while g < groups.len()
        invariant
            g <= groups.len(),
            views == group_views(groups@),
            forall|k: int| 0 <= k < groups.len() ==> (#[trigger] groups@[k])@.len() > 0,
            pair_views(rows@) == groups_rows(views.take(g as int)),
        decreases groups.len() - g,
    {
        let group = &groups[g];
        let ghost base = pair_views(rows@);
        let ghost wanted = group_rows(views[g as int]);
        let mut k: usize = 0;
        assert(base + wanted.take(0) == base);
        while k < group.len()
            invariant
                k <= group.len(),
                group@.len() > 0,
                wanted == group_rows(chars::texts(group@)),
                pair_views(rows@) == base + wanted.take(k as int),
            decreases group.len() - k,
        {
            let ghost before = pair_views(rows@);
            rows.push((group[0].clone(), group[k].clone()));
            assert(pair_views(rows@) == before.push(wanted[k as int]));
            assert(wanted.take(k + 1) == wanted.take(k as int).push(wanted[k as int]));
            k = k + 1;
        }
        assert(wanted.take(wanted.len() as int) == wanted);
        assert(views.take(g + 1).drop_last() == views.take(g as int));
        g = g + 1;
    }
    assert(views.take(views.len() as int) == views);
    Ok(rows)
}

/// The words under one id, sorted, each once.
pub open spec fn terms_are(rows: Seq<(i64, Seq<char>)>, id: i64, out: Seq<Seq<char>>) -> bool {
    &&& ordering::strictly_sorted(out)
    &&& forall|t: Seq<char>| #[trigger] out.contains(t) <==> rows.contains((id, t))
}

/// The words under one id, sorted, each once.
pub open spec fn terms_under(rows: Seq<(i64, Seq<char>)>, id: i64) -> Seq<Seq<char>> {
    choose|out: Seq<Seq<char>>| terms_are(rows, id, out)
}

/// Rows with their words as characters.
pub open spec fn row_views(rows: Seq<(i64, String)>) -> Seq<(i64, Seq<char>)> {
    Seq::new(rows.len(), |i: int| (rows[i].0, rows[i].1@))
}

/// The words under one id.
fn collect_terms(rows: &Vec<(i64, String)>, id: i64) -> (out: Vec<String>)
    ensures
        terms_are(row_views(rows@), id, chars::texts(out@)),
        chars::texts(out@) == terms_under(row_views(rows@), id),
{
    let ghost all = row_views(rows@);
    let mut out: Vec<String> = Vec::new();
    let mut i: usize = 0;
    while i < rows.len()
        invariant
            i <= rows.len(),
            all == row_views(rows@),
            terms_are(all.take(i as int), id, chars::texts(out@)),
        decreases rows.len() - i,
    {
        let ghost before = chars::texts(out@);
        let ghost list = all.take(i as int);
        let ghost longer = all.take(i + 1);
        if rows[i].0 == id {
            let _new = ordering::insert_sorted(&mut out, rows[i].1.clone());
        }
        proof {
            let after = chars::texts(out@);
            assert(longer[i as int] == all[i as int]);
            assert forall|t: Seq<char>| #[trigger] after.contains(t) <==> longer.contains((id, t)) by {
                if list.contains((id, t)) {
                    let k = choose|k: int| 0 <= k < list.len() && list[k] == (id, t);
                    assert(longer[k] == (id, t));
                }
                if longer.contains((id, t)) {
                    let k = choose|k: int| 0 <= k < longer.len() && longer[k] == (id, t);
                    if k < i {
                        assert(list[k] == (id, t));
                    }
                }
                assert(before.contains(t) <==> list.contains((id, t)));
            }
        }
        i = i + 1;
    }
    proof {
        assert(all.take(all.len() as int) == all);
        let found = chars::texts(out@);
        let chosen = terms_under(all, id);
        assert(terms_are(all, id, found));
        assert(terms_are(all, id, chosen));
        assert forall|t: Seq<char>| found.contains(t) <==> chosen.contains(t) by {}
        ordering::strictly_sorted_unique(found, chosen);
    }
    out
}

/// The ids of rows.
fn row_ids(rows: &Vec<(i64, String)>) -> (out: Vec<i64>)
    ensures
        query::increasing(out@),
        forall|id: i64| #[trigger] out@.contains(id) <==> exists|i: int| 0 <= i < rows@.len() && (#[trigger] rows@[i]).0 == id,
{
    let mut out: Vec<i64> = Vec::new();
    let mut i: usize = 0;
    while i < rows.len()
        invariant
            i <= rows.len(),
            query::increasing(out@),
            forall|id: i64| #[trigger] out@.contains(id) <==> exists|k: int| 0 <= k < i && (#[trigger] rows@[k]).0 == id,
        decreases rows.len() - i,
    {
        let ghost before = out@;
        let _new = ids::insert_id(&mut out, rows[i].0);
        assert forall|id: i64| #[trigger] out@.contains(id) <==> exists|k: int| 0 <= k < i + 1 && (#[trigger] rows@[k]).0 == id by {
            if before.contains(id) {
                let k = choose|k: int| 0 <= k < i && (#[trigger] rows@[k]).0 == id;
                assert(rows@[k].0 == id);
            }
            assert(rows@[i as int].0 == rows@[i as int].0);
        }
        i = i + 1;
    }
    out
}

/// The groups of words that mean the same: one for each id in ascending order, each sorted and
/// without repetitions.
pub fn predicate_groups(rows: &Vec<(i64, String)>) -> (out: Vec<Vec<String>>)
    ensures
        exists|order: Seq<i64>| #[trigger] groups_under(row_views(rows@), order, group_views(out@)),
{
    let order = row_ids(rows);
    let mut out: Vec<Vec<String>> = Vec::new();
    let mut i: usize = 0;
    while i < order.len()
        invariant
            i <= order.len(),
            group_views(out@) == Seq::new(i as nat, |k: int| terms_under(row_views(rows@), order@[k])),
        decreases order.len() - i,
    {
        let ghost before = group_views(out@);
        out.push(collect_terms(rows, order[i]));
        assert(group_views(out@) == before.push(terms_under(row_views(rows@), order@[i as int])));
        assert(group_views(out@) == Seq::new((i + 1) as nat, |k: int| terms_under(row_views(rows@), order@[k])));
        i = i + 1;
    }
    proof {
        let views = row_views(rows@);
        assert forall|id: i64| #[trigger] order@.contains(id) <==> exists|k: int| 0 <= k < views.len() && (#[trigger] views[k]).0 == id by {
            if order@.contains(id) {
                let k = choose|k: int| 0 <= k < rows@.len() && (#[trigger] rows@[k]).0 == id;
                assert(views[k].0 == id);
            }
            if exists|k: int| 0 <= k < views.len() && (#[trigger] views[k]).0 == id {
                let k = choose|k: int| 0 <= k < views.len() && (#[trigger] views[k]).0 == id;
                assert(rows@[k].0 == id);
            }
        }
        assert(groups_under(views, order@, group_views(out@)));
    }
    out
}

/// `groups` are the words under each id of `order`, which holds every id once.
pub open spec fn groups_under(rows: Seq<(i64, Seq<char>)>, order: Seq<i64>, groups: Seq<Seq<Seq<char>>>) -> bool {
    &&& query::increasing(order)
    &&& forall|id: i64| #[trigger] order.contains(id) <==> exists|k: int| 0 <= k < rows.len() && (#[trigger] rows[k]).0 == id
    &&& groups == Seq::new(order.len(), |k: int| terms_under(rows, order[k]))
}

/// A query holds one of the words under an id.
pub open spec fn touches(rows: Seq<(i64, Seq<char>)>, query: Seq<char>, id: i64) -> bool {
    exists|k: int|
        0 <= k < rows.len() && (#[trigger] rows[k]).0 == id && text::tag_form(rows[k].1).len() > 0 && chars::contains_text(
            text::tag_form(query),
            text::tag_form(rows[k].1),
        )
}

/// `list` with the members of `more` that it does not hold yet.
pub open spec fn with_new(list: Seq<Seq<char>>, more: Seq<Seq<char>>) -> Seq<Seq<char>>
    decreases more.len(),
{
    if more.len() == 0 {
        list
    } else {
        let before = with_new(list, more.drop_last());
        if before.contains(more.last()) {
            before
        } else {
            before.push(more.last())
        }
    }
}

/// The words under several ids, each once.
pub open spec fn terms_under_all(rows: Seq<(i64, Seq<char>)>, order: Seq<i64>) -> Seq<Seq<char>>
    decreases order.len(),
{
    if order.len() == 0 {
        Seq::empty()
    } else {
        with_new(terms_under_all(rows, order.drop_last()), terms_under(rows, order.last()))
    }
}

/// The words that a query is expanded by: all words of the groups that it touches, group by group,
/// and no more than the limit.
pub open spec fn expansion_is(rows: Seq<(i64, Seq<char>)>, query: Seq<char>, order: Seq<i64>, out: Seq<Seq<char>>) -> bool {
    let all = terms_under_all(rows, order);
    &&& query::increasing(order)
    &&& forall|id: i64| #[trigger] order.contains(id) <==> touches(rows, query, id)
    &&& out == (if all.len() <= EXPAND_QUERY_LIMIT {
        all
    } else {
        all.take(EXPAND_QUERY_LIMIT as int)
    })
}

/// A term stands in a query: their stored forms count, and a term without letters stands nowhere.
pub open spec fn stands_in_query(term: Seq<char>, query: Seq<char>) -> bool {
    let t = text::tag_form(term);
    let q = text::tag_form(query);
    t.len() > 0 && exists|at: int| 0 <= at <= q.len() - t.len() && #[trigger] q.subrange(at, at + t.len()) == t
}

/// A query touches a group exactly where a term of the group stands in it.
pub proof fn touching_is_standing_in(rows: Seq<(i64, Seq<char>)>, query: Seq<char>)
    ensures
        forall|id: i64| #[trigger]
            touches(rows, query, id) <==> exists|k: int| 0 <= k < rows.len() && (#[trigger] rows[k]).0 == id && stands_in_query(rows[k].1, query),
{
    assert forall|k: int| 0 <= k < rows.len() implies (stands_in_query((#[trigger] rows[k]).1, query) <==> text::tag_form(rows[k].1).len() > 0
        && chars::contains_text(text::tag_form(query), text::tag_form(rows[k].1))) by {
        let t = text::tag_form(rows[k].1);
        let q = text::tag_form(query);
        if chars::contains_text(q, t) {
            let at = choose|at: int| chars::stands_at(q, t, at);
            assert(q.subrange(at, at + t.len()) == t);
        }
        if stands_in_query(rows[k].1, query) {
            let at = choose|at: int| 0 <= at <= q.len() - t.len() && #[trigger] q.subrange(at, at + t.len()) == t;
            assert(chars::stands_at(q, t, at));
        }
    }
}

/// The ids of the groups that a query touches, in ascending order.
fn touched_ids(rows: &Vec<(i64, String)>, query: &str) -> (out: Vec<i64>)
    ensures
        query::increasing(out@),
        forall|id: i64| #[trigger] out@.contains(id) <==> touches(row_views(rows@), query@, id),
        forall|id: i64| #[trigger]
            out@.contains(id) ==> exists|k: int|
                0 <= k < rows@.len() && (#[trigger] rows@[k]).0 == id && stands_in_query(rows@[k].1@, query@),
        forall|k: int| 0 <= k < rows@.len() && stands_in_query((#[trigger] rows@[k]).1@, query@) ==> out@.contains(rows@[k].0),
{
    proof {
        touching_is_standing_in(row_views(rows@), query@);
        assert forall|k: int| 0 <= k < rows@.len() implies (#[trigger] rows@[k]).0 == row_views(rows@)[k].0 && rows@[k].1@ == row_views(rows@)[k].1 by {}
    }
    let ghost all = row_views(rows@);
    let normal = text::normalized_tag(query);
    let probe = chars::chars_of(normal.as_str());
    let mut out: Vec<i64> = Vec::new();
    let mut i: usize = 0;
    while i < rows.len()
        invariant
            i <= rows.len(),
            all == row_views(rows@),
            probe@ == text::tag_form(query@),
            query::increasing(out@),
            forall|id: i64| #[trigger] out@.contains(id) <==> touches(all.take(i as int), query@, id),
        decreases rows.len() - i,
    {
        let ghost list = all.take(i as int);
        let ghost longer = all.take(i + 1);
        let word = text::normalized_tag(rows[i].1.as_str());
        let part = chars::chars_of(word.as_str());
        let hit = part.len() > 0 && chars::has_text(&probe, &part);
        proof {
            assert(longer[i as int] == all[i as int]);
            assert forall|id: i64| touches(longer, query@, id) <==> touches(list, query@, id) || (hit && id == rows@[i as int].0) by {
                if touches(list, query@, id) {
                    let k = choose|k: int|
                        0 <= k < list.len() && (#[trigger] list[k]).0 == id && text::tag_form(list[k].1).len() > 0 && chars::contains_text(
                            text::tag_form(query@),
                            text::tag_form(list[k].1),
                        );
                    assert(longer[k] == list[k]);
                }
                if hit && id == rows@[i as int].0 {
                    assert(longer[i as int].0 == id);
                }
                if touches(longer, query@, id) {
                    let k = choose|k: int|
                        0 <= k < longer.len() && (#[trigger] longer[k]).0 == id && text::tag_form(longer[k].1).len() > 0
                            && chars::contains_text(text::tag_form(query@), text::tag_form(longer[k].1));
                    if k < i {
                        assert(list[k] == longer[k]);
                    }
                }
            }
        }
        if hit {
            let _new = ids::insert_id(&mut out, rows[i].0);
        }
        i = i + 1;
    }
    assert(all.take(all.len() as int) == all);
    out
}

/// Appends the words that are new.
fn append_new(list: &mut Vec<String>, more: &Vec<String>)
    ensures
        chars::texts(final(list)@) == with_new(chars::texts(old(list)@), chars::texts(more@)),
{
    let ghost start = chars::texts(list@);
    let ghost all = chars::texts(more@);
    let mut i: usize = 0;
    assert(all.take(0) == Seq::<Seq<char>>::empty());
    while i < more.len()
        invariant
            i <= more.len(),
            all == chars::texts(more@),
            chars::texts(list@) == with_new(start, all.take(i as int)),
        decreases more.len() - i,
    {
        let ghost before = chars::texts(list@);
        assert(all.take(i + 1).drop_last() == all.take(i as int));
        assert(all.take(i + 1).last() == more@[i as int]@);
        if !ordering::holds(list, more[i].as_str()) {
            list.push(more[i].clone());
            assert(chars::texts(list@) == before.push(more@[i as int]@));
        }
        i = i + 1;
    }
    assert(all.take(all.len() as int) == all);
}

/// Some of the ids has this term.
pub open spec fn stands_under(rows: Seq<(i64, Seq<char>)>, order: Seq<i64>, t: Seq<char>) -> bool {
    exists|k: int| 0 <= k < order.len() && rows.contains((#[trigger] order[k], t))
}

/// The term belongs to a group that the query touches: one of whose terms stands in the query.
pub open spec fn asked_along(rows: Seq<(i64, Seq<char>)>, query: Seq<char>, t: Seq<char>) -> bool {
    exists|k: int| 0 <= k < rows.len() && stands_in_query((#[trigger] rows[k]).1, query) && rows.contains((rows[k].0, t))
}

/// Adding new terms keeps the list as it is and adds each that is missing, once.
pub proof fn new_terms_are_added(list: Seq<Seq<char>>, more: Seq<Seq<char>>)
    ensures
        list.is_prefix_of(with_new(list, more)),
        forall|t: Seq<char>| #[trigger] with_new(list, more).contains(t) <==> list.contains(t) || more.contains(t),
        list.no_duplicates() ==> with_new(list, more).no_duplicates(),
    decreases more.len(),
{
    if more.len() > 0 {
        let rest = more.drop_last();
        let before = with_new(list, rest);
        let all = with_new(list, more);
        new_terms_are_added(list, rest);
        assert(more[more.len() - 1] == more.last());
        assert forall|t: Seq<char>| #[trigger] all.contains(t) <==> list.contains(t) || more.contains(t) by {
            assert(before.contains(t) <==> list.contains(t) || rest.contains(t));
            if rest.contains(t) {
                let k = choose|k: int| 0 <= k < rest.len() && rest[k] == t;
                assert(more[k] == t);
            }
            if more.contains(t) && t != more.last() {
                let k = choose|k: int| 0 <= k < more.len() && more[k] == t;
                assert(rest[k] == t);
            }
            if before.contains(t) {
                let k = choose|k: int| 0 <= k < before.len() && before[k] == t;
                assert(all[k] == t);
            }
            if all.contains(t) && !before.contains(t) {
                let k = choose|k: int| 0 <= k < all.len() && all[k] == t;
                if k < before.len() {
                    assert(before[k] == t);
                }
            }
            if t == more.last() && !before.contains(t) {
                assert(all[before.len() as int] == t);
            }
        }
    }
}

/// The words that a query is expanded by. `rows` are the words of a namespace, each with the id of
/// the word that stands for its group.
pub fn expand_query(rows: &Vec<(i64, String)>, query: &str) -> (out: Vec<String>)
    ensures
        exists|order: Seq<i64>| #[trigger] expansion_is(row_views(rows@), query@, order, chars::texts(out@)),
        out@.len() <= 64,
        chars::texts(out@).no_duplicates(),
        forall|t: Seq<char>| #[trigger] chars::texts(out@).contains(t) ==> asked_along(row_views(rows@), query@, t),
        out@.len() < 64 ==> forall|t: Seq<char>| #[trigger] asked_along(row_views(rows@), query@, t) ==> chars::texts(out@).contains(t),
{
    let order = touched_ids(rows, query);
    let mut out: Vec<String> = Vec::new();
    let mut i: usize = 0;
    assert(order@.take(0) == Seq::<i64>::empty());
    proof {
        assert forall|t: Seq<char>| #[trigger] chars::texts(out@).contains(t) <==> stands_under(row_views(rows@), order@.take(0), t) by {}
    }
    assert(chars::texts(out@) == terms_under_all(row_views(rows@), order@.take(0)));
    while i < order.len()
        invariant
            i <= order.len(),
            query::increasing(order@),
            forall|id: i64| #[trigger] order@.contains(id) <==> touches(row_views(rows@), query@, id),
            chars::texts(out@) == terms_under_all(row_views(rows@), order@.take(i as int)),
            chars::texts(out@).no_duplicates(),
            forall|t: Seq<char>| #[trigger] chars::texts(out@).contains(t) <==> stands_under(row_views(rows@), order@.take(i as int), t),
        decreases order.len() - i,
    {
        let ghost before = chars::texts(out@);
        assert(order@.take(i + 1).drop_last() == order@.take(i as int));
        let terms = collect_terms(rows, order[i]);
        append_new(&mut out, &terms);
        proof {
            let all = row_views(rows@);
            new_terms_are_added(before, chars::texts(terms@));
            assert forall|t: Seq<char>| #[trigger] chars::texts(out@).contains(t) <==> stands_under(all, order@.take(i + 1), t) by {
                assert(before.contains(t) <==> stands_under(all, order@.take(i as int), t));
                assert(chars::texts(terms@).contains(t) <==> all.contains((order@[i as int], t)));
                if stands_under(all, order@.take(i as int), t) {
                    let k = choose|k: int| 0 <= k < i && all.contains((#[trigger] order@.take(i as int)[k], t));
                    assert(order@.take(i + 1)[k] == order@.take(i as int)[k]);
                }
                if stands_under(all, order@.take(i + 1), t) {
                    let k = choose|k: int| 0 <= k < i + 1 && all.contains((#[trigger] order@.take(i + 1)[k], t));
                    if k < i {
                        assert(order@.take(i as int)[k] == order@.take(i + 1)[k]);
                    }
                }
                assert(order@.take(i + 1)[i as int] == order@[i as int]);
            }
        }
        i = i + 1;
    }
    assert(order@.take(order@.len() as int) == order@);
    let ghost all = chars::texts(out@);
    proof {
        let list = row_views(rows@);
        assert forall|t: Seq<char>| #[trigger] all.contains(t) <==> asked_along(list, query@, t) by {
            assert(all.contains(t) <==> stands_under(list, order@, t));
            if stands_under(list, order@, t) {
                let k = choose|k: int| 0 <= k < order@.len() && list.contains((#[trigger] order@[k], t));
                assert(order@.contains(order@[k]));
                assert(touches(list, query@, order@[k]));
                touching_is_standing_in(list, query@);
                let j = choose|j: int| 0 <= j < list.len() && (#[trigger] list[j]).0 == order@[k] && stands_in_query(list[j].1, query@);
                assert(list.contains((list[j].0, t)));
            }
            if asked_along(list, query@, t) {
                let j = choose|j: int| 0 <= j < list.len() && stands_in_query((#[trigger] list[j]).1, query@) && list.contains((list[j].0, t));
                let id = list[j].0;
                touching_is_standing_in(list, query@);
                assert(touches(list, query@, id));
                assert(order@.contains(id));
                let k = choose|k: int| 0 <= k < order@.len() && order@[k] == id;
                assert(list.contains((order@[k], t)));
            }
        }
    }
    if out.len() > EXPAND_QUERY_LIMIT {
        out.truncate(EXPAND_QUERY_LIMIT);
        assert(chars::texts(out@) == all.take(EXPAND_QUERY_LIMIT as int));
        proof {
            let kept = chars::texts(out@);
            assert forall|t: Seq<char>| #[trigger] kept.contains(t) implies all.contains(t) by {
                let k = choose|k: int| 0 <= k < kept.len() && kept[k] == t;
                assert(all[k] == t);
            }
            assert forall|i: int, j: int| 0 <= i < kept.len() && 0 <= j < kept.len() && i != j implies kept[i] != kept[j] by {
                assert(all[i] != all[j]);
            }
        }
    }
    assert(expansion_is(row_views(rows@), query@, order@, chars::texts(out@)));
    out
}

/// A query followed by the words that it is expanded by; the query itself where there are none.
pub fn with_synonyms(query: &str, extra: &Vec<String>) -> (out: String)
    ensures
        out@ == (if extra@.len() == 0 {
            query@
        } else {
            query@ + " "@ + chars::joined(chars::texts(extra@), " "@)
        }),
{
    if extra.len() == 0 {
        return query.to_owned();
    }
    let mut out = chars::concat(query, " ");
    out.append(chars::join(extra, " ").as_str());
    out
}

/// A query that touches no group is not expanded.
pub proof fn untouched_query_stays(rows: Seq<(i64, Seq<char>)>, query: Seq<char>, order: Seq<i64>, out: Seq<Seq<char>>)
    requires
        expansion_is(rows, query, order, out),
        forall|id: i64| !touches(rows, query, id),
    ensures
        out.len() == 0,
{
    if order.len() > 0 {
        assert(order.contains(order[0]));
    }
}

} // verus!
