//! Drafts of entities, relations and events, and those of a lookup database, whose ids are
//! authoritative.

use crate::chars;
use crate::drafts;
use crate::drafts::key;
use crate::error::{Error, ErrorView};
use crate::graph::{attribute_views, concept};
use crate::json;
use crate::json::{Number, NumberTree, Tree};
use crate::legacy;
use crate::legacy::{ImportRequest, SourceRow};
use crate::ordering;
use crate::types::{Metadata, RecordInput, RecordInputView};
use vstd::prelude::*;

verus! {

// ── Drafts ────────────────────────────────────────────────────────────

/// An entity to be written.
#[derive(Debug)]
pub struct EntityDraft {
    pub table: String,
    pub source_id: String,
    pub record: RecordInput,
    pub name: String,
    pub entity_type: String,
    pub aliases: Vec<String>,
    /// In the order of the keys, each key once.
    pub attributes: Vec<(String, Vec<String>)>,
    pub summary: String,
}

pub struct EntityDraftView {
    pub table: Seq<char>,
    pub source_id: Seq<char>,
    pub record: RecordInputView,
    pub name: Seq<char>,
    pub entity_type: Seq<char>,
    pub aliases: Seq<Seq<char>>,
    pub attributes: Seq<(Seq<char>, Seq<Seq<char>>)>,
    pub summary: Seq<char>,
}

impl View for EntityDraft {
    type V = EntityDraftView;

    open spec fn view(&self) -> EntityDraftView {
        EntityDraftView {
            table: self.table@,
            source_id: self.source_id@,
            record: self.record@,
            name: self.name@,
            entity_type: self.entity_type@,
            aliases: chars::texts(self.aliases@),
            attributes: attribute_views(self.attributes@),
            summary: self.summary@,
        }
    }
}

impl EntityDraftView {
    /// The key under which others refer to the entity.
    pub open spec fn key(self) -> Seq<char> {
        drafts::draft_key(self.table, self.source_id)
    }
}

impl EntityDraft {
    /// The key under which others refer to the entity.
    pub fn key(&self) -> (out: String)
        ensures
            out@ == self@.key(),
    {
        key(self.table.as_str(), self.source_id.as_str())
    }
}

/// A relation to be written. Subject and object are keys of entities; the confidence is left as it
/// was written.
#[derive(Debug)]
pub struct RelationDraft {
    pub table: String,
    pub source_id: String,
    pub record: RecordInput,
    pub subject: String,
    pub predicate: String,
    pub object: String,
    pub confidence: Option<Number>,
    pub reason: String,
}

pub struct RelationDraftView {
    pub table: Seq<char>,
    pub source_id: Seq<char>,
    pub record: RecordInputView,
    pub subject: Seq<char>,
    pub predicate: Seq<char>,
    pub object: Seq<char>,
    pub confidence: Option<NumberTree>,
    pub reason: Seq<char>,
}

impl View for RelationDraft {
    type V = RelationDraftView;

    open spec fn view(&self) -> RelationDraftView {
        RelationDraftView {
            table: self.table@,
            source_id: self.source_id@,
            record: self.record@,
            subject: self.subject@,
            predicate: self.predicate@,
            object: self.object@,
            confidence: legacy::optional_number(self.confidence),
            reason: self.reason@,
        }
    }
}

/// An event to be written. Participants are keys of entities.
#[derive(Debug)]
pub struct EventDraft {
    pub table: String,
    pub source_id: String,
    pub record: RecordInput,
    pub name: String,
    pub summary: String,
    pub participants: Vec<String>,
    pub confidence: Option<Number>,
    pub reason: String,
}

pub struct EventDraftView {
    pub table: Seq<char>,
    pub source_id: Seq<char>,
    pub record: RecordInputView,
    pub name: Seq<char>,
    pub summary: Seq<char>,
    pub participants: Seq<Seq<char>>,
    pub confidence: Option<NumberTree>,
    pub reason: Seq<char>,
}

impl View for EventDraft {
    type V = EventDraftView;

    open spec fn view(&self) -> EventDraftView {
        EventDraftView {
            table: self.table@,
            source_id: self.source_id@,
            record: self.record@,
            name: self.name@,
            summary: self.summary@,
            participants: chars::texts(self.participants@),
            confidence: legacy::optional_number(self.confidence),
            reason: self.reason@,
        }
    }
}

/// The views of a list of entities.
pub open spec fn entity_views(list: Seq<EntityDraft>) -> Seq<EntityDraftView> {
    Seq::new(list.len(), |i: int| list[i]@)
}

/// The views of a list of relations.
pub open spec fn relation_views(list: Seq<RelationDraft>) -> Seq<RelationDraftView> {
    Seq::new(list.len(), |i: int| list[i]@)
}

/// The views of a list of events.
pub open spec fn event_views(list: Seq<EventDraft>) -> Seq<EventDraftView> {
    Seq::new(list.len(), |i: int| list[i]@)
}

// ── Columns ───────────────────────────────────────────────────────────

/// Two columns of a table, row by row.
pub open spec fn columns(rows: Seq<Seq<(Seq<char>, Tree)>>, a: Seq<char>, b: Seq<char>) -> Seq<(Seq<char>, Seq<char>)> {
    Seq::new(rows.len(), |i: int| (legacy::cell(rows[i], a), legacy::cell(rows[i], b)))
}

/// Two columns of a table, row by row.
pub fn column_pairs(rows: &Vec<Metadata>, a: &str, b: &str) -> (out: Vec<(String, String)>)
    ensures
        legacy::pair_views(out@) == columns(legacy::row_views(rows@), a@, b@),
        out@.len() == rows@.len(),
        forall|i: int| 0 <= i < rows@.len() ==> (#[trigger] legacy::pair_views(out@)[i]).0 == legacy::cell(rows@[i]@, a@),
        forall|i: int| 0 <= i < rows@.len() ==> (#[trigger] legacy::pair_views(out@)[i]).1 == legacy::cell(rows@[i]@, b@),
{
    let ghost wanted = columns(legacy::row_views(rows@), a@, b@);
    let mut out: Vec<(String, String)> = Vec::new();
    let mut i: usize = 0;
    while i < rows.len()
        invariant
            i <= rows.len(),
            wanted == columns(legacy::row_views(rows@), a@, b@),
            legacy::pair_views(out@) == wanted.take(i as int),
        decreases rows.len() - i,
    {
        let ghost before = legacy::pair_views(out@);
        out.push((legacy::string(&rows[i], a), legacy::string(&rows[i], b)));
        assert(legacy::pair_views(out@) == before.push(wanted[i as int]));
        assert(wanted.take(i + 1) == wanted.take(i as int).push(wanted[i as int]));
        i = i + 1;
    }
    assert(wanted.take(wanted.len() as int) == wanted);
    out
}

/// Keys of entities for the ids in the second column.
pub open spec fn entity_keys(ids: Seq<Seq<char>>) -> Seq<Seq<char>> {
    Seq::new(ids.len(), |i: int| drafts::draft_key("entities"@, ids[i]))
}

fn keys_of_entities(ids: &Vec<String>) -> (out: Vec<String>)
    ensures
        chars::texts(out@) == entity_keys(chars::texts(ids@)),
        out@.len() == ids@.len(),
        forall|i: int| 0 <= i < ids@.len() ==> #[trigger] chars::texts(out@)[i] == drafts::draft_key("entities"@, ids@[i]@),
{
    let ghost wanted = entity_keys(chars::texts(ids@));
    let mut out: Vec<String> = Vec::new();
    let mut i: usize = 0;
    while i < ids.len()
        invariant
            i <= ids.len(),
            wanted == entity_keys(chars::texts(ids@)),
            chars::texts(out@) == wanted.take(i as int),
        decreases ids.len() - i,
    {
        let ghost before = chars::texts(out@);
        out.push(key("entities", ids[i].as_str()));
        assert(chars::texts(out@) == before.push(wanted[i as int]));
        assert(wanted.take(i + 1) == wanted.take(i as int).push(wanted[i as int]));
        i = i + 1;
    }
    assert(wanted.take(wanted.len() as int) == wanted);
    out
}

/// Attributes with one more value: at the end of the values of its key, or under a new key before
/// the first greater one.
pub open spec fn with_value(list: Seq<(Seq<char>, Seq<Seq<char>>)>, name: Seq<char>, value: Seq<char>) -> Seq<(Seq<char>, Seq<Seq<char>>)>
    decreases list.len(),
{
    if list.len() == 0 {
        seq![(name, seq![value])]
    } else if list[0].0 == name {
        list.update(0, (name, list[0].1.push(value)))
    } else if ordering::text_less(name, list[0].0) {
        seq![(name, seq![value])] + list
    } else {
        seq![list[0]] + with_value(list.drop_first(), name, value)
    }
}

/// Adds a value to attributes.
pub fn add_value(list: &mut Vec<(String, Vec<String>)>, name: String, value: String)
    ensures
        attribute_views(final(list)@) == with_value(attribute_views(old(list)@), name@, value@),
{
    let ghost all = attribute_views(list@);
    let ghost n = name@;
    let ghost v = value@;
    let mut i: usize = 0;
    assert(all.skip(0) == all);
    assert(all.take(0) + with_value(all.skip(0), n, v) == with_value(all, n, v));
    while i < list.len()
        invariant
            i <= list.len(),
            list@ == old(list)@,
            all == attribute_views(list@),
            n == name@,
            v == value@,
            all.take(i as int) + with_value(all.skip(i as int), n, v) == with_value(all, n, v),
        decreases list.len() - i,
    {
        let ghost rest = all.skip(i as int);
        assert(rest[0] == all[i as int]);
        if ordering::same_text(list[i].0.as_str(), name.as_str()) {
            let mut values = chars::copy_strings(&list[i].1);
            let ghost before = chars::texts(values@);
            values.push(value);
            assert(chars::texts(values@) == before.push(v));
            list.set(i, (name, values));
            proof {
                assert(attribute_views(list@) == all.update(i as int, (n, all[i as int].1.push(v))));
                assert(all.take(i as int) + rest.update(0, (n, rest[0].1.push(v))) == all.update(
                    i as int,
                    (n, all[i as int].1.push(v)),
                ));
            }
            return;
        }
        if ordering::is_less(name.as_str(), list[i].0.as_str()) {
            let mut values: Vec<String> = Vec::new();
            values.push(value);
            assert(chars::texts(values@) == seq![v]);
            list.insert(i, (name, values));
            proof {
                assert(attribute_views(list@) == all.insert(i as int, (n, seq![v])));
                assert(all.take(i as int) + (seq![(n, seq![v])] + rest) == all.insert(i as int, (n, seq![v])));
            }
            return;
        }
        proof {
            assert(rest.drop_first() == all.skip(i + 1));
            assert(all.take(i as int) + (seq![rest[0]] + with_value(rest.drop_first(), n, v)) == all.take(i + 1) + with_value(
                all.skip(i + 1),
                n,
                v,
            ));
        }
        i = i + 1;
    }
    let mut values: Vec<String> = Vec::new();
    values.push(value);
    assert(chars::texts(values@) == seq![v]);
    list.push((name, values));
    proof {
        assert(all.skip(i as int) == Seq::<(Seq<char>, Seq<Seq<char>>)>::empty());
        assert(all.take(i as int) == all);
        assert(attribute_views(list@) == all.push((n, seq![v])));
        assert(all + seq![(n, seq![v])] == all.push((n, seq![v])));
    }
}

/// The attributes that a table gives an entity: the values of each key in the order of the rows.
pub open spec fn attributes_of(rows: Seq<Seq<(Seq<char>, Tree)>>, id: Seq<char>) -> Seq<(Seq<char>, Seq<Seq<char>>)>
    decreases rows.len(),
{
    if rows.len() == 0 {
        Seq::empty()
    } else {
        let before = attributes_of(rows.drop_last(), id);
        if legacy::cell(rows.last(), "entity_id"@) == id {
            with_value(before, legacy::cell(rows.last(), "attr_key"@), legacy::cell(rows.last(), "attr_value"@))
        } else {
            before
        }
    }
}

/// The list has this value under this name.
pub open spec fn has_value(list: Seq<(Seq<char>, Seq<Seq<char>>)>, name: Seq<char>, value: Seq<char>) -> bool {
    exists|i: int| 0 <= i < list.len() && (#[trigger] list[i]).0 == name && list[i].1.contains(value)
}

/// The row gives an entity this attribute.
pub open spec fn gives(row: Seq<(Seq<char>, Tree)>, id: Seq<char>, name: Seq<char>, value: Seq<char>) -> bool {
    legacy::cell(row, "entity_id"@) == id && legacy::cell(row, "attr_key"@) == name && legacy::cell(row, "attr_value"@) == value
}

/// Adding a value under a name makes it one of the values of that name, and changes nothing else.
pub proof fn adding_a_value_adds_it(list: Seq<(Seq<char>, Seq<Seq<char>>)>, name: Seq<char>, value: Seq<char>, n: Seq<char>, v: Seq<char>)
    ensures
        has_value(with_value(list, name, value), n, v) <==> has_value(list, n, v) || n == name && v == value,
    decreases list.len(),
{
    let all = with_value(list, name, value);
    if list.len() == 0 {
        assert(all[0].1[0] == value);
    } else if list[0].0 == name {
        let grown = list[0].1.push(value);
        assert(all[0] == (name, grown));
        assert(grown[list[0].1.len() as int] == value);
        if list[0].1.contains(v) {
            let k = choose|k: int| 0 <= k < list[0].1.len() && list[0].1[k] == v;
            assert(grown[k] == v);
        }
        if grown.contains(v) && v != value {
            let k = choose|k: int| 0 <= k < grown.len() && grown[k] == v;
            assert(list[0].1[k] == v);
        }
        if has_value(list, n, v) {
            let i = choose|i: int| 0 <= i < list.len() && (#[trigger] list[i]).0 == n && list[i].1.contains(v);
            if i > 0 {
                assert(all[i] == list[i]);
            } else {
                assert(all[0].1.contains(v));
            }
        }
        if has_value(all, n, v) {
            let i = choose|i: int| 0 <= i < all.len() && (#[trigger] all[i]).0 == n && all[i].1.contains(v);
            if i > 0 {
                assert(all[i] == list[i]);
            } else if v != value {
                assert(list[0].1.contains(v));
            }
        }
        assert(n == name && v == value ==> all[0].1.contains(v));
    } else if ordering::text_less(name, list[0].0) {
        assert(all[0] == (name, seq![value]));
        assert(seq![value][0] == value);
        if has_value(list, n, v) {
            let i = choose|i: int| 0 <= i < list.len() && (#[trigger] list[i]).0 == n && list[i].1.contains(v);
            assert(all[i + 1] == list[i]);
        }
        if has_value(all, n, v) {
            let i = choose|i: int| 0 <= i < all.len() && (#[trigger] all[i]).0 == n && all[i].1.contains(v);
            if i > 0 {
                assert(all[i] == list[i - 1]);
            }
        }
        assert(n == name && v == value ==> all[0].1.contains(v));
    } else {
        let rest = list.drop_first();
        let tail = with_value(rest, name, value);
        adding_a_value_adds_it(rest, name, value, n, v);
        assert(all == seq![list[0]] + tail);
        if has_value(list, n, v) {
            let i = choose|i: int| 0 <= i < list.len() && (#[trigger] list[i]).0 == n && list[i].1.contains(v);
            if i > 0 {
                assert(rest[i - 1] == list[i]);
                assert(has_value(rest, n, v));
            } else {
                assert(all[0] == list[0]);
            }
        }
        if has_value(rest, n, v) {
            let i = choose|i: int| 0 <= i < rest.len() && (#[trigger] rest[i]).0 == n && rest[i].1.contains(v);
            assert(list[i + 1] == rest[i]);
        }
        if has_value(tail, n, v) {
            let i = choose|i: int| 0 <= i < tail.len() && (#[trigger] tail[i]).0 == n && tail[i].1.contains(v);
            assert(all[i + 1] == tail[i]);
        }
        if has_value(all, n, v) {
            let i = choose|i: int| 0 <= i < all.len() && (#[trigger] all[i]).0 == n && all[i].1.contains(v);
            if i > 0 {
                assert(tail[i - 1] == all[i]);
                assert(has_value(tail, n, v));
            } else {
                assert(list[0] == all[0]);
            }
        }
    }
}

/// The attributes of an entity are exactly those that some row gives it.
pub proof fn attributes_come_from_rows(rows: Seq<Seq<(Seq<char>, Tree)>>, id: Seq<char>, name: Seq<char>, value: Seq<char>)
    ensures
        has_value(attributes_of(rows, id), name, value) <==> exists|k: int| 0 <= k < rows.len() && gives(#[trigger] rows[k], id, name, value),
    decreases rows.len(),
{
    if rows.len() > 0 {
        let rest = rows.drop_last();
        let n = rows.len() - 1;
        let last = rows.last();
        let before = attributes_of(rest, id);
        attributes_come_from_rows(rest, id, name, value);
        assert(rows[n] == last);
        if legacy::cell(last, "entity_id"@) == id {
            adding_a_value_adds_it(before, legacy::cell(last, "attr_key"@), legacy::cell(last, "attr_value"@), name, value);
        }
        if has_value(before, name, value) {
            let k = choose|k: int| 0 <= k < rest.len() && gives(#[trigger] rest[k], id, name, value);
            assert(rows[k] == rest[k]);
        }
        if exists|k: int| 0 <= k < rows.len() && gives(#[trigger] rows[k], id, name, value) {
            let k = choose|k: int| 0 <= k < rows.len() && gives(#[trigger] rows[k], id, name, value);
            if k < n {
                assert(rest[k] == rows[k]);
            }
        }
        if gives(last, id, name, value) {
            assert(gives(rows[n], id, name, value));
        }
    }
}

fn read_attributes(rows: &Vec<Metadata>, id: &str) -> (out: Vec<(String, Vec<String>)>)
    ensures
        attribute_views(out@) == attributes_of(legacy::row_views(rows@), id@),
{
    let ghost all = legacy::row_views(rows@);
    let mut out: Vec<(String, Vec<String>)> = Vec::new();
    let mut i: usize = 0;
    assert(attribute_views(out@) == Seq::<(Seq<char>, Seq<Seq<char>>)>::empty());
    while i < rows.len()
        invariant
            i <= rows.len(),
            all == legacy::row_views(rows@),
            attribute_views(out@) == attributes_of(all.take(i as int), id@),
        decreases rows.len() - i,
    {
        assert(all.take(i + 1).last() == rows@[i as int]@);
        assert(all.take(i + 1).drop_last() == all.take(i as int));
        if ordering::same_text(legacy::string(&rows[i], "entity_id").as_str(), id) {
            add_value(&mut out, legacy::string(&rows[i], "attr_key"), legacy::string(&rows[i], "attr_value"));
        }
        i = i + 1;
    }
    assert(all.take(all.len() as int) == all);
    out
}

// ── The lookup database ───────────────────────────────────────────────

/// The tables of a lookup database.
#[derive(Debug)]
pub struct LookupTables {
    pub entities: Vec<SourceRow>,
    pub entity_aliases: Vec<Metadata>,
    pub entity_attributes: Vec<Metadata>,
    pub relations: Vec<SourceRow>,
    pub events: Vec<SourceRow>,
    pub event_participants: Vec<Metadata>,
    pub event_aliases: Vec<Metadata>,
}

/// An earlier row has the same id.
pub open spec fn seen_before(rows: Seq<SourceRow>, n: int, column: Seq<char>) -> bool {
    exists|j: int| 0 <= j < n && legacy::cell((#[trigger] rows[j]).fields@, column) == legacy::cell(rows[n].fields@, column)
}

fn was_seen(rows: &Vec<SourceRow>, n: usize, column: &str) -> (out: bool)
    requires
        n < rows@.len(),
    ensures
        out == seen_before(rows@, n as int, column@),
        out <==> exists|j: int| 0 <= j < n && legacy::cell((#[trigger] rows@[j]).fields@, column@) == legacy::cell(rows@[n as int].fields@, column@),
{
    let id = legacy::string(&rows[n].fields, column);
    let mut j: usize = 0;
    while j < n
        invariant
            j <= n,
            n < rows@.len(),
            id@ == legacy::cell(rows@[n as int].fields@, column@),
            forall|k: int| 0 <= k < j ==> legacy::cell((#[trigger] rows@[k]).fields@, column@) != id@,
        decreases n - j,
    {
        if ordering::same_text(legacy::string(&rows[j].fields, column).as_str(), id.as_str()) {
            return true;
        }
        j = j + 1;
    }
    false
}

/// The type of an entity, a concept where none is given.
pub open spec fn type_or_concept(kind: Seq<char>) -> Seq<char> {
    if kind.len() == 0 {
        "concept"@
    } else {
        kind
    }
}

/// The type of an entity, a concept where none is given.
pub fn entity_type(kind: String) -> (out: String)
    ensures
        out@ == type_or_concept(kind@),
        kind@.len() == 0 ==> out@ == "concept"@,
        kind@.len() > 0 ==> out@ == kind@,
{
    proof {
        reveal_strlit("");
        if kind@.len() == 0 {
            assert(kind@ == ""@);
        }
    }
    if ordering::same_text(kind.as_str(), "") {
        concept()
    } else {
        kind
    }
}

/// The entity of the row at `n`, or why there is none. Aliases and attributes go to the first row
/// with the id.
pub open spec fn entity_of(req: ImportRequest, t: LookupTables, n: int) -> Result<EntityDraftView, ErrorView> {
    let row = t.entities@[n];
    let fields = row.fields@;
    let old = legacy::cell(fields, "entity_id"@);
    let first = !seen_before(t.entities@, n, "entity_id"@);
    match legacy::record_of(req, "entities"@, old, row, legacy::cell(fields, "domain"@)) {
        Err(error) => Err(error),
        Ok(record) => Ok(
            EntityDraftView {
                table: "entities"@,
                source_id: old,
                record,
                name: legacy::cell(fields, "canonical_name"@),
                entity_type: type_or_concept(legacy::cell(fields, "entity_type"@)),
                aliases: if first {
                    legacy::paired(columns(legacy::row_views(t.entity_aliases@), "entity_id"@, "term"@), old)
                } else {
                    Seq::empty()
                },
                attributes: if first {
                    attributes_of(legacy::row_views(t.entity_attributes@), old)
                } else {
                    Seq::empty()
                },
                summary: legacy::cell(fields, "summary"@),
            },
        ),
    }
}

fn read_entity(req: &ImportRequest, t: &LookupTables, aliases: &Vec<(String, String)>, n: usize) -> (out: Result<EntityDraft, Error>)
    requires
        n < t.entities@.len(),
        legacy::pair_views(aliases@) == columns(legacy::row_views(t.entity_aliases@), "entity_id"@, "term"@),
    ensures
        match entity_of(*req, *t, n as int) {
            Ok(draft) => out is Ok && (out->Ok_0)@ == draft,
            Err(error) => out is Err && (out->Err_0)@ == error,
        },
{
    let row = &t.entities[n];
    let old = legacy::string(&row.fields, "entity_id");
    let domain = legacy::string(&row.fields, "domain");
    let record = match legacy::record(req, "entities", old.as_str(), row, domain.as_str()) {
        Ok(record) => record,
        Err(error) => return Err(error),
    };
    let first = !was_seen(&t.entities, n, "entity_id");
    let own_aliases: Vec<String> = if first {
        legacy::paired_with(aliases, old.as_str())
    } else {
        Vec::new()
    };
    let attributes: Vec<(String, Vec<String>)> = if first {
        read_attributes(&t.entity_attributes, old.as_str())
    } else {
        Vec::new()
    };
    let draft = EntityDraft {
        table: "entities".to_owned(),
        source_id: old,
        record,
        name: legacy::string(&row.fields, "canonical_name"),
        entity_type: entity_type(legacy::string(&row.fields, "entity_type")),
        aliases: own_aliases,
        attributes,
        summary: legacy::string(&row.fields, "summary"),
    };
    proof {
        if !first {
            assert(draft@.aliases == Seq::<Seq<char>>::empty());
            assert(draft@.attributes == Seq::<(Seq<char>, Seq<Seq<char>>)>::empty());
        }
    }
    Ok(draft)
}

/// The relation of a row, or why there is none.
pub open spec fn relation_of(req: ImportRequest, row: SourceRow) -> Result<RelationDraftView, ErrorView> {
    let fields = row.fields@;
    let old = legacy::cell(fields, "relation_id"@);
    match legacy::record_of(req, "relations"@, old, row, legacy::cell(fields, "domain"@)) {
        Err(error) => Err(error),
        Ok(record) => Ok(
            RelationDraftView {
                table: "relations"@,
                source_id: old,
                record,
                subject: drafts::draft_key("entities"@, legacy::cell(fields, "subject_entity_id"@)),
                predicate: legacy::cell(fields, "predicate"@),
                object: drafts::draft_key("entities"@, legacy::cell(fields, "object_entity_id"@)),
                confidence: legacy::number_cell(fields, "confidence"@),
                reason: legacy::cell(fields, "reason"@),
            },
        ),
    }
}

fn read_relation(req: &ImportRequest, row: &SourceRow) -> (out: Result<RelationDraft, Error>)
    ensures
        match relation_of(*req, *row) {
            Ok(draft) => out is Ok && (out->Ok_0)@ == draft,
            Err(error) => out is Err && (out->Err_0)@ == error,
        },
{
    let old = legacy::string(&row.fields, "relation_id");
    let domain = legacy::string(&row.fields, "domain");
    let record = match legacy::record(req, "relations", old.as_str(), row, domain.as_str()) {
        Ok(record) => record,
        Err(error) => return Err(error),
    };
    Ok(
        RelationDraft {
            table: "relations".to_owned(),
            source_id: old,
            record,
            subject: key("entities", legacy::string(&row.fields, "subject_entity_id").as_str()),
            predicate: legacy::string(&row.fields, "predicate"),
            object: key("entities", legacy::string(&row.fields, "object_entity_id").as_str()),
            confidence: legacy::number(&row.fields, "confidence"),
            reason: legacy::string(&row.fields, "reason"),
        },
    )
}

/// What a table lists for the row at `n`: to the first row with the id, the rest of the pairs.
pub open spec fn listed(rows: Seq<SourceRow>, n: int, pairs: Seq<(Seq<char>, Seq<char>)>) -> Seq<Seq<char>> {
    if seen_before(rows, n, "event_id"@) {
        Seq::empty()
    } else {
        legacy::paired(pairs, legacy::cell(rows[n].fields@, "event_id"@))
    }
}

fn read_listed(rows: &Vec<SourceRow>, n: usize, pairs: &Vec<(String, String)>) -> (out: Vec<String>)
    requires
        n < rows@.len(),
    ensures
        chars::texts(out@) == listed(rows@, n as int, legacy::pair_views(pairs@)),
{
    if was_seen(rows, n, "event_id") {
        let out: Vec<String> = Vec::new();
        assert(chars::texts(out@) == Seq::<Seq<char>>::empty());
        out
    } else {
        legacy::paired_with(pairs, legacy::string(&rows[n].fields, "event_id").as_str())
    }
}

/// The event of the row at `n`, or why there is none. Its aliases are kept in its metadata.
pub open spec fn event_of(req: ImportRequest, t: LookupTables, n: int) -> Result<EventDraftView, ErrorView> {
    let row = t.events@[n];
    let fields = row.fields@;
    let old = legacy::cell(fields, "event_id"@);
    let aliases = listed(t.events@, n, columns(legacy::row_views(t.event_aliases@), "event_id"@, "term"@));
    let participants = listed(t.events@, n, columns(legacy::row_views(t.event_participants@), "event_id"@, "entity_id"@));
    match legacy::record_of(req, "events"@, old, row, legacy::cell(fields, "domain"@)) {
        Err(error) => Err(error),
        Ok(record) => Ok(
            EventDraftView {
                table: "events"@,
                source_id: old,
                record: RecordInputView {
                    metadata: json::with_field(record.metadata, "legacy_event_aliases"@, json::texts_tree(aliases)),
                    ..record
                },
                name: legacy::cell(fields, "event_name"@),
                summary: legacy::cell(fields, "summary"@),
                participants: entity_keys(participants),
                confidence: legacy::number_cell(fields, "confidence"@),
                reason: legacy::cell(fields, "reason"@),
            },
        ),
    }
}

fn read_event(
    req: &ImportRequest,
    t: &LookupTables,
    aliases: &Vec<(String, String)>,
    participants: &Vec<(String, String)>,
    n: usize,
) -> (out: Result<EventDraft, Error>)
    requires
        n < t.events@.len(),
        legacy::pair_views(aliases@) == columns(legacy::row_views(t.event_aliases@), "event_id"@, "term"@),
        legacy::pair_views(participants@) == columns(legacy::row_views(t.event_participants@), "event_id"@, "entity_id"@),
    ensures
        match event_of(*req, *t, n as int) {
            Ok(draft) => out is Ok && (out->Ok_0)@ == draft,
            Err(error) => out is Err && (out->Err_0)@ == error,
        },
{
    let row = &t.events[n];
    let old = legacy::string(&row.fields, "event_id");
    let domain = legacy::string(&row.fields, "domain");
    let mut record = match legacy::record(req, "events", old.as_str(), row, domain.as_str()) {
        Ok(record) => record,
        Err(error) => return Err(error),
    };
    let own_aliases = read_listed(&t.events, n, aliases);
    json::set_field(&mut record.metadata.entries, "legacy_event_aliases".to_owned(), json::texts_value(&own_aliases));
    let own_participants = read_listed(&t.events, n, participants);
    Ok(
        EventDraft {
            table: "events".to_owned(),
            source_id: old,
            record,
            name: legacy::string(&row.fields, "event_name"),
            summary: legacy::string(&row.fields, "summary"),
            participants: keys_of_entities(&own_participants),
            confidence: legacy::number(&row.fields, "confidence"),
            reason: legacy::string(&row.fields, "reason"),
        },
    )
}

/// The graph that an import will write.
#[derive(Debug)]
pub struct GraphDrafts {
    pub entities: Vec<EntityDraft>,
    pub relations: Vec<RelationDraft>,
    pub events: Vec<EventDraft>,
}

pub struct GraphDraftsView {
    pub entities: Seq<EntityDraftView>,
    pub relations: Seq<RelationDraftView>,
    pub events: Seq<EventDraftView>,
}

impl View for GraphDrafts {
    type V = GraphDraftsView;

    open spec fn view(&self) -> GraphDraftsView {
        GraphDraftsView {
            entities: entity_views(self.entities@),
            relations: relation_views(self.relations@),
            events: event_views(self.events@),
        }
    }
}

/// The entities of the first `n` rows, or the error of the first row that has one.
pub open spec fn entities_of(req: ImportRequest, t: LookupTables, n: int) -> Result<Seq<EntityDraftView>, ErrorView>
    decreases n,
{
    if n <= 0 {
        Ok(Seq::empty())
    } else {
        match entities_of(req, t, n - 1) {
            Err(error) => Err(error),
            Ok(before) => match entity_of(req, t, n - 1) {
                Err(error) => Err(error),
                Ok(draft) => Ok(before.push(draft)),
            },
        }
    }
}

proof fn entities_error_stays(req: ImportRequest, t: LookupTables, m: int, n: int)
    requires
        m <= n,
        entities_of(req, t, m) is Err,
    ensures
        entities_of(req, t, n) == entities_of(req, t, m),
    decreases n - m,
{
    if m < n {
        entities_error_stays(req, t, m, n - 1);
    }
}

/// The relations of the first `n` rows, or the error of the first row that has one.
pub open spec fn relations_of(req: ImportRequest, t: LookupTables, n: int) -> Result<Seq<RelationDraftView>, ErrorView>
    decreases n,
{
    if n <= 0 {
        Ok(Seq::empty())
    } else {
        match relations_of(req, t, n - 1) {
            Err(error) => Err(error),
            Ok(before) => match relation_of(req, t.relations@[n - 1]) {
                Err(error) => Err(error),
                Ok(draft) => Ok(before.push(draft)),
            },
        }
    }
}

proof fn relations_error_stays(req: ImportRequest, t: LookupTables, m: int, n: int)
    requires
        m <= n,
        relations_of(req, t, m) is Err,
    ensures
        relations_of(req, t, n) == relations_of(req, t, m),
    decreases n - m,
{
    if m < n {
        relations_error_stays(req, t, m, n - 1);
    }
}

/// The events of the first `n` rows, or the error of the first row that has one.
pub open spec fn events_of(req: ImportRequest, t: LookupTables, n: int) -> Result<Seq<EventDraftView>, ErrorView>
    decreases n,
{
    if n <= 0 {
        Ok(Seq::empty())
    } else {
        match events_of(req, t, n - 1) {
            Err(error) => Err(error),
            Ok(before) => match event_of(req, t, n - 1) {
                Err(error) => Err(error),
                Ok(draft) => Ok(before.push(draft)),
            },
        }
    }
}

proof fn events_error_stays(req: ImportRequest, t: LookupTables, m: int, n: int)
    requires
        m <= n,
        events_of(req, t, m) is Err,
    ensures
        events_of(req, t, n) == events_of(req, t, m),
    decreases n - m,
{
    if m < n {
        events_error_stays(req, t, m, n - 1);
    }
}

/// What the tables of a lookup database become: all entities, all relations and all events in the
/// order of their rows, or the error of the first row that has one.
pub open spec fn lookup_of(req: ImportRequest, t: LookupTables) -> Result<GraphDraftsView, ErrorView> {
    match entities_of(req, t, t.entities@.len() as int) {
        Err(error) => Err(error),
        Ok(entities) => match relations_of(req, t, t.relations@.len() as int) {
            Err(error) => Err(error),
            Ok(relations) => match events_of(req, t, t.events@.len() as int) {
                Err(error) => Err(error),
                Ok(events) => Ok(GraphDraftsView { entities, relations, events }),
            },
        },
    }
}

fn read_entities(req: &ImportRequest, t: &LookupTables) -> (out: Result<Vec<EntityDraft>, Error>)
    ensures
        match entities_of(*req, *t, t.entities@.len() as int) {
            Ok(drafts) => out is Ok && entity_views((out->Ok_0)@) == drafts,
            Err(error) => out is Err && (out->Err_0)@ == error,
        },
{
    let aliases = column_pairs(&t.entity_aliases, "entity_id", "term");
    let mut out: Vec<EntityDraft> = Vec::new();
    let mut i: usize = 0;
    assert(entity_views(out@) == Seq::<EntityDraftView>::empty());
    while i < t.entities.len()
        invariant
            i <= t.entities.len(),
            legacy::pair_views(aliases@) == columns(legacy::row_views(t.entity_aliases@), "entity_id"@, "term"@),
            entities_of(*req, *t, i as int) is Ok,
            entity_views(out@) == entities_of(*req, *t, i as int)->Ok_0,
        decreases t.entities.len() - i,
    {
        let ghost before = entity_views(out@);
        match read_entity(req, t, &aliases, i) {
            Ok(draft) => {
                out.push(draft);
                assert(entity_views(out@) == before.push(draft@));
            },
            Err(error) => {
                proof {
                    entities_error_stays(*req, *t, i + 1, t.entities@.len() as int);
                }
                return Err(error);
            },
        }
        i = i + 1;
    }
    Ok(out)
}

fn read_relations(req: &ImportRequest, t: &LookupTables) -> (out: Result<Vec<RelationDraft>, Error>)
    ensures
        match relations_of(*req, *t, t.relations@.len() as int) {
            Ok(drafts) => out is Ok && relation_views((out->Ok_0)@) == drafts,
            Err(error) => out is Err && (out->Err_0)@ == error,
        },
{
    let mut out: Vec<RelationDraft> = Vec::new();
    let mut i: usize = 0;
    assert(relation_views(out@) == Seq::<RelationDraftView>::empty());
    while i < t.relations.len()
        invariant
            i <= t.relations.len(),
            relations_of(*req, *t, i as int) is Ok,
            relation_views(out@) == relations_of(*req, *t, i as int)->Ok_0,
        decreases t.relations.len() - i,
    {
        let ghost before = relation_views(out@);
        match read_relation(req, &t.relations[i]) {
            Ok(draft) => {
                out.push(draft);
                assert(relation_views(out@) == before.push(draft@));
            },
            Err(error) => {
                proof {
                    relations_error_stays(*req, *t, i + 1, t.relations@.len() as int);
                }
                return Err(error);
            },
        }
        i = i + 1;
    }
    Ok(out)
}

fn read_events(req: &ImportRequest, t: &LookupTables) -> (out: Result<Vec<EventDraft>, Error>)
    ensures
        match events_of(*req, *t, t.events@.len() as int) {
            Ok(drafts) => out is Ok && event_views((out->Ok_0)@) == drafts,
            Err(error) => out is Err && (out->Err_0)@ == error,
        },
{
    let aliases = column_pairs(&t.event_aliases, "event_id", "term");
    let participants = column_pairs(&t.event_participants, "event_id", "entity_id");
    let mut out: Vec<EventDraft> = Vec::new();
    let mut i: usize = 0;
    assert(event_views(out@) == Seq::<EventDraftView>::empty());
    while i < t.events.len()
        invariant
            i <= t.events.len(),
            legacy::pair_views(aliases@) == columns(legacy::row_views(t.event_aliases@), "event_id"@, "term"@),
            legacy::pair_views(participants@) == columns(legacy::row_views(t.event_participants@), "event_id"@, "entity_id"@),
            events_of(*req, *t, i as int) is Ok,
            event_views(out@) == events_of(*req, *t, i as int)->Ok_0,
        decreases t.events.len() - i,
    {
        let ghost before = event_views(out@);
        match read_event(req, t, &aliases, &participants, i) {
            Ok(draft) => {
                out.push(draft);
                assert(event_views(out@) == before.push(draft@));
            },
            Err(error) => {
                proof {
                    events_error_stays(*req, *t, i + 1, t.events@.len() as int);
                }
                return Err(error);
            },
        }
        i = i + 1;
    }
    Ok(out)
}

/// What the tables of a lookup database become.
pub fn lookup_graph(req: &ImportRequest, t: &LookupTables) -> (out: Result<GraphDrafts, Error>)
    ensures
        match lookup_of(*req, *t) {
            Ok(graph) => out is Ok && (out->Ok_0)@ == graph,
            Err(error) => out is Err && (out->Err_0)@ == error,
        },
        out matches Ok(graph) ==> {
            &&& graph@.entities.len() == t.entities@.len()
            &&& graph@.relations.len() == t.relations@.len()
            &&& graph@.events.len() == t.events@.len()
            &&& forall|i: int| 0 <= i < graph@.entities.len() ==> entity_from(#[trigger] graph@.entities[i], t.entities@[i])
            &&& forall|i: int| 0 <= i < graph@.relations.len() ==> relation_from(#[trigger] graph@.relations[i], t.relations@[i])
            &&& forall|i: int| 0 <= i < graph@.events.len() ==> event_from(#[trigger] graph@.events[i], t.events@[i])
        },
{
    proof {
        if lookup_of(*req, *t) is Ok {
            lookup_reads_every_row(*req, *t);
        }
    }
    let entities = match read_entities(req, t) {
        Ok(entities) => entities,
        Err(error) => return Err(error),
    };
    let relations = match read_relations(req, t) {
        Ok(relations) => relations,
        Err(error) => return Err(error),
    };
    match read_events(req, t) {
        Ok(events) => Ok(GraphDrafts { entities, relations, events }),
        Err(error) => Err(error),
    }
}

// ── What drafts take from their rows ──────────────────────────────────

/// The number is the one in the column; none where the column holds something else.
pub open spec fn column_numbers(row: SourceRow, column: Seq<char>, n: Option<NumberTree>) -> bool {
    match json::lookup(row.fields@, column) {
        Some(Tree::Number(found)) => n == Some(found),
        _ => n is None,
    }
}

/// Every field of the entity comes from the column of its own name.
pub open spec fn entity_from(e: EntityDraftView, row: SourceRow) -> bool {
    &&& e.table == "entities"@
    &&& drafts::column_says(row, "entity_id"@, e.source_id)
    &&& drafts::column_says(row, "canonical_name"@, e.name)
    &&& drafts::column_says(row, "summary"@, e.summary)
    &&& e.entity_type == "concept"@ || drafts::column_says(row, "entity_type"@, e.entity_type)
    &&& drafts::column_says(row, "entity_type"@, Seq::empty()) ==> e.entity_type == "concept"@
    &&& forall|kind: Seq<char>| #[trigger] drafts::column_says(row, "entity_type"@, kind) && kind.len() > 0 ==> e.entity_type == kind
}

/// Every field of the relation comes from the column of its own name; its ends are keys of entities.
pub open spec fn relation_from(r: RelationDraftView, row: SourceRow) -> bool {
    &&& r.table == "relations"@
    &&& drafts::column_says(row, "relation_id"@, r.source_id)
    &&& drafts::column_says(row, "predicate"@, r.predicate)
    &&& drafts::column_says(row, "reason"@, r.reason)
    &&& column_numbers(row, "confidence"@, r.confidence)
    &&& forall|id: Seq<char>| #[trigger]
        drafts::column_says(row, "subject_entity_id"@, id) ==> r.subject == "entities"@ + seq![drafts::SEPARATOR] + id
    &&& forall|id: Seq<char>| #[trigger]
        drafts::column_says(row, "object_entity_id"@, id) ==> r.object == "entities"@ + seq![drafts::SEPARATOR] + id
}

/// Every field of the event comes from the column of its own name.
pub open spec fn event_from(e: EventDraftView, row: SourceRow) -> bool {
    &&& e.table == "events"@
    &&& drafts::column_says(row, "event_id"@, e.source_id)
    &&& drafts::column_says(row, "event_name"@, e.name)
    &&& drafts::column_says(row, "summary"@, e.summary)
    &&& drafts::column_says(row, "reason"@, e.reason)
    &&& column_numbers(row, "confidence"@, e.confidence)
}

/// An entity takes each of its fields from the column of that name. The first row of an id also
/// takes the aliases and attributes that the other tables have for it.
pub proof fn entity_takes_its_columns(req: ImportRequest, t: LookupTables, n: int)
    requires
        0 <= n < t.entities@.len(),
        entity_of(req, t, n) is Ok,
    ensures
        ({
            let e = entity_of(req, t, n)->Ok_0;
            let first = forall|j: int|
                0 <= j < n ==> legacy::cell((#[trigger] t.entities@[j]).fields@, "entity_id"@) != legacy::cell(
                    t.entities@[n].fields@,
                    "entity_id"@,
                );
            &&& entity_from(e, t.entities@[n])
            &&& e.source_id.len() > 0
            &&& !first ==> e.aliases.len() == 0 && e.attributes.len() == 0
            &&& first ==> forall|a: Seq<char>| #[trigger]
                e.aliases.contains(a) <==> exists|k: int|
                    0 <= k < t.entity_aliases@.len() && legacy::cell((#[trigger] t.entity_aliases@[k])@, "entity_id"@) == e.source_id
                        && legacy::cell(t.entity_aliases@[k]@, "term"@) == a
            &&& first ==> forall|name: Seq<char>, value: Seq<char>| #[trigger]
                has_value(e.attributes, name, value) <==> exists|k: int|
                    0 <= k < t.entity_attributes@.len() && gives(legacy::row_views(t.entity_attributes@)[k], e.source_id, name, value)
        }),
{
    let e = entity_of(req, t, n)->Ok_0;
    let row = t.entities@[n];
    let kind = legacy::cell(row.fields@, "entity_type"@);
    let none = Seq::<char>::empty();
    if drafts::column_says(row, "entity_type"@, none) {
        assert(kind.len() == 0);
    }
    if !seen_before(t.entities@, n, "entity_id"@) {
        let rows = legacy::row_views(t.entity_aliases@);
        let pairs = columns(rows, "entity_id"@, "term"@);
        assert forall|a: Seq<char>| #[trigger] e.aliases.contains(a) <==> exists|k: int|
            0 <= k < t.entity_aliases@.len() && legacy::cell((#[trigger] t.entity_aliases@[k])@, "entity_id"@) == e.source_id && legacy::cell(
                t.entity_aliases@[k]@,
                "term"@,
            ) == a by {
            legacy::paired_are_the_pairs(pairs, e.source_id, a);
            if pairs.contains((e.source_id, a)) {
                let k = choose|k: int| 0 <= k < pairs.len() && pairs[k] == (e.source_id, a);
                assert(rows[k] == t.entity_aliases@[k]@);
            }
            if exists|k: int|
                0 <= k < t.entity_aliases@.len() && legacy::cell((#[trigger] t.entity_aliases@[k])@, "entity_id"@) == e.source_id && legacy::cell(
                    t.entity_aliases@[k]@,
                    "term"@,
                ) == a {
                let k = choose|k: int|
                    0 <= k < t.entity_aliases@.len() && legacy::cell((#[trigger] t.entity_aliases@[k])@, "entity_id"@) == e.source_id
                        && legacy::cell(t.entity_aliases@[k]@, "term"@) == a;
                assert(pairs[k] == (e.source_id, a));
            }
        }
        let attributes = legacy::row_views(t.entity_attributes@);
        assert forall|name: Seq<char>, value: Seq<char>| #[trigger] has_value(e.attributes, name, value) <==> exists|k: int|
            0 <= k < t.entity_attributes@.len() && gives(attributes[k], e.source_id, name, value) by {
            attributes_come_from_rows(attributes, e.source_id, name, value);
        }
    } else {
        let j = choose|j: int|
            0 <= j < n && legacy::cell((#[trigger] t.entities@[j]).fields@, "entity_id"@) == legacy::cell(t.entities@[n].fields@, "entity_id"@);
        assert(legacy::cell(t.entities@[j].fields@, "entity_id"@) == legacy::cell(t.entities@[n].fields@, "entity_id"@));
    }
}

/// A relation takes each of its fields from the column of that name.
pub proof fn relation_takes_its_columns(req: ImportRequest, row: SourceRow)
    requires
        relation_of(req, row) is Ok,
    ensures
        relation_from(relation_of(req, row)->Ok_0, row),
        (relation_of(req, row)->Ok_0).source_id.len() > 0,
{
}

/// An event takes each of its fields from the column of that name. The first row of an id also takes
/// the participants that the other table has for it, as keys of entities.
pub proof fn event_takes_its_columns(req: ImportRequest, t: LookupTables, n: int)
    requires
        0 <= n < t.events@.len(),
        event_of(req, t, n) is Ok,
    ensures
        ({
            let e = event_of(req, t, n)->Ok_0;
            let first = forall|j: int|
                0 <= j < n ==> legacy::cell((#[trigger] t.events@[j]).fields@, "event_id"@) != legacy::cell(t.events@[n].fields@, "event_id"@);
            &&& event_from(e, t.events@[n])
            &&& e.source_id.len() > 0
            &&& !first ==> e.participants.len() == 0
            &&& first ==> forall|id: Seq<char>|
                e.participants.contains(#[trigger] drafts::draft_key("entities"@, id)) <==> exists|k: int|
                    0 <= k < t.event_participants@.len() && legacy::cell((#[trigger] t.event_participants@[k])@, "event_id"@) == e.source_id
                        && legacy::cell(t.event_participants@[k]@, "entity_id"@) == id
        }),
{
    let e = event_of(req, t, n)->Ok_0;
    if !seen_before(t.events@, n, "event_id"@) {
        let rows = legacy::row_views(t.event_participants@);
        let pairs = columns(rows, "event_id"@, "entity_id"@);
        let own = legacy::paired(pairs, e.source_id);
        assert forall|id: Seq<char>| e.participants.contains(#[trigger] drafts::draft_key("entities"@, id)) <==> exists|k: int|
            0 <= k < t.event_participants@.len() && legacy::cell((#[trigger] t.event_participants@[k])@, "event_id"@) == e.source_id
                && legacy::cell(t.event_participants@[k]@, "entity_id"@) == id by {
            legacy::paired_are_the_pairs(pairs, e.source_id, id);
            if e.participants.contains(drafts::draft_key("entities"@, id)) {
                let k = choose|k: int| 0 <= k < e.participants.len() && e.participants[k] == drafts::draft_key("entities"@, id);
                assert(e.participants[k] == drafts::draft_key("entities"@, own[k]));
                reveal_strlit("entities");
                assert(!"entities"@.contains(drafts::SEPARATOR));
                drafts::keys_tell_drafts_apart("entities"@, own[k], "entities"@, id);
                assert(own.contains(id));
            }
            if own.contains(id) {
                let k = choose|k: int| 0 <= k < own.len() && own[k] == id;
                assert(e.participants[k] == drafts::draft_key("entities"@, id));
            }
            if pairs.contains((e.source_id, id)) {
                let k = choose|k: int| 0 <= k < pairs.len() && pairs[k] == (e.source_id, id);
                assert(rows[k] == t.event_participants@[k]@);
            }
            if exists|k: int|
                0 <= k < t.event_participants@.len() && legacy::cell((#[trigger] t.event_participants@[k])@, "event_id"@) == e.source_id
                    && legacy::cell(t.event_participants@[k]@, "entity_id"@) == id {
                let k = choose|k: int|
                    0 <= k < t.event_participants@.len() && legacy::cell((#[trigger] t.event_participants@[k])@, "event_id"@) == e.source_id
                        && legacy::cell(t.event_participants@[k]@, "entity_id"@) == id;
                assert(pairs[k] == (e.source_id, id));
            }
        }
    } else {
        let j = choose|j: int|
            0 <= j < n && legacy::cell((#[trigger] t.events@[j]).fields@, "event_id"@) == legacy::cell(t.events@[n].fields@, "event_id"@);
        assert(legacy::cell(t.events@[j].fields@, "event_id"@) == legacy::cell(t.events@[n].fields@, "event_id"@));
    }
}

proof fn drafts_follow_the_rows(req: ImportRequest, t: LookupTables, n: int)
    requires
        n >= 0,
    ensures
        n <= t.entities@.len() && entities_of(req, t, n) is Ok ==> (entities_of(req, t, n)->Ok_0).len() == n && forall|i: int|
            0 <= i < n ==> entity_of(req, t, i) == Ok::<EntityDraftView, ErrorView>(#[trigger] (entities_of(req, t, n)->Ok_0)[i]),
        n <= t.relations@.len() && relations_of(req, t, n) is Ok ==> (relations_of(req, t, n)->Ok_0).len() == n && forall|i: int|
            0 <= i < n ==> relation_of(req, t.relations@[i]) == Ok::<RelationDraftView, ErrorView>(#[trigger] (relations_of(req, t, n)->Ok_0)[i]),
        n <= t.events@.len() && events_of(req, t, n) is Ok ==> (events_of(req, t, n)->Ok_0).len() == n && forall|i: int|
            0 <= i < n ==> event_of(req, t, i) == Ok::<EventDraftView, ErrorView>(#[trigger] (events_of(req, t, n)->Ok_0)[i]),
    decreases n,
{
    if n > 0 {
        drafts_follow_the_rows(req, t, n - 1);
    }
}

/// Where the tables can be read, every row has one draft, in the order of the rows, and each draft
/// takes its fields from the columns of its row.
pub proof fn lookup_reads_every_row(req: ImportRequest, t: LookupTables)
    requires
        lookup_of(req, t) is Ok,
    ensures
        ({
            let g = lookup_of(req, t)->Ok_0;
            &&& g.entities.len() == t.entities@.len()
            &&& g.relations.len() == t.relations@.len()
            &&& g.events.len() == t.events@.len()
            &&& forall|i: int| 0 <= i < g.entities.len() ==> entity_from(#[trigger] g.entities[i], t.entities@[i])
            &&& forall|i: int| 0 <= i < g.relations.len() ==> relation_from(#[trigger] g.relations[i], t.relations@[i])
            &&& forall|i: int| 0 <= i < g.events.len() ==> event_from(#[trigger] g.events[i], t.events@[i])
        }),
{
    entities_from_rows(req, t);
    relations_from_rows(req, t);
    events_from_rows(req, t);
}

proof fn entities_from_rows(req: ImportRequest, t: LookupTables)
    requires
        entities_of(req, t, t.entities@.len() as int) is Ok,
    ensures
        ({
            let list = entities_of(req, t, t.entities@.len() as int)->Ok_0;
            &&& list.len() == t.entities@.len()
            &&& forall|i: int| 0 <= i < list.len() ==> entity_from(#[trigger] list[i], t.entities@[i])
        }),
{
    let list = entities_of(req, t, t.entities@.len() as int)->Ok_0;
    drafts_follow_the_rows(req, t, t.entities@.len() as int);
    assert forall|i: int| 0 <= i < list.len() implies entity_from(#[trigger] list[i], t.entities@[i]) by {
        assert(entity_of(req, t, i) == Ok::<EntityDraftView, ErrorView>(list[i]));
        entity_takes_its_columns(req, t, i);
    }
}

proof fn relations_from_rows(req: ImportRequest, t: LookupTables)
    requires
        relations_of(req, t, t.relations@.len() as int) is Ok,
    ensures
        ({
            let list = relations_of(req, t, t.relations@.len() as int)->Ok_0;
            &&& list.len() == t.relations@.len()
            &&& forall|i: int| 0 <= i < list.len() ==> relation_from(#[trigger] list[i], t.relations@[i])
        }),
{
    let list = relations_of(req, t, t.relations@.len() as int)->Ok_0;
    drafts_follow_the_rows(req, t, t.relations@.len() as int);
    assert forall|i: int| 0 <= i < list.len() implies relation_from(#[trigger] list[i], t.relations@[i]) by {
        assert(relation_of(req, t.relations@[i]) == Ok::<RelationDraftView, ErrorView>(list[i]));
        relation_takes_its_columns(req, t.relations@[i]);
    }
}

proof fn events_from_rows(req: ImportRequest, t: LookupTables)
    requires
        events_of(req, t, t.events@.len() as int) is Ok,
    ensures
        ({
            let list = events_of(req, t, t.events@.len() as int)->Ok_0;
            &&& list.len() == t.events@.len()
            &&& forall|i: int| 0 <= i < list.len() ==> event_from(#[trigger] list[i], t.events@[i])
        }),
{
    let list = events_of(req, t, t.events@.len() as int)->Ok_0;
    drafts_follow_the_rows(req, t, t.events@.len() as int);
    assert forall|i: int| 0 <= i < list.len() implies event_from(#[trigger] list[i], t.events@[i]) by {
        assert(event_of(req, t, i) == Ok::<EventDraftView, ErrorView>(list[i]));
        event_takes_its_columns(req, t, i);
    }
}

} // verus!
