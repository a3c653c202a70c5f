//! The SQL that selects records, and the pages that a selection is cut into.

use crate::chars;
use crate::decimal;
use crate::error::{Error, ErrorView};
use crate::storage;
use crate::text;
use crate::types;
use crate::types::{ReadFilter, ReadFilterView, RecordKind};
use vstd::prelude::*;

verus! {

// ── Conditions ────────────────────────────────────────────────────────

/// A value bound to a placeholder.
#[derive(Debug)]
pub enum SqlValue {
    Text(String),
    Integer(i64),
}

pub enum SqlValueView {
    Text(Seq<char>),
    Integer(i64),
}

impl View for SqlValue {
    type V = SqlValueView;

    open spec fn view(&self) -> SqlValueView {
        match self {
            SqlValue::Text(t) => SqlValueView::Text(t@),
            SqlValue::Integer(i) => SqlValueView::Integer(*i),
        }
    }
}

/// The bound values, texts as characters.
pub open spec fn value_views(values: Seq<SqlValue>) -> Seq<SqlValueView> {
    Seq::new(values.len(), |i: int| values[i]@)
}

/// `n` placeholders with commas between them.
pub open spec fn placeholder_text(n: nat) -> Seq<char>
    decreases n,
{
    if n == 0 {
        Seq::empty()
    } else if n == 1 {
        "?"@
    } else {
        placeholder_text((n - 1) as nat) + ",?"@
    }
}

/// A list of placeholders is one mark for each value, with a comma between each two.
pub proof fn placeholders_alternate(n: nat)
    ensures
        n == 0 ==> placeholder_text(n).len() == 0,
        n > 0 ==> placeholder_text(n).len() == 2 * n - 1,
        forall|i: int| 0 <= i < placeholder_text(n).len() ==> #[trigger] placeholder_text(n)[i] == (if i % 2 == 0 { '?' } else { ',' }),
    decreases n,
{
    reveal_strlit("?");
    reveal_strlit(",?");
    if n > 1 {
        placeholders_alternate((n - 1) as nat);
    }
}

/// `n` placeholders with commas between them.
pub fn placeholders(n: usize) -> (out: String)
    ensures
        out@ == placeholder_text(n as nat),
        n == 0 ==> out@.len() == 0,
        n > 0 ==> out@.len() == 2 * n - 1,
        forall|i: int| 0 <= i < out@.len() ==> #[trigger] out@[i] == (if i % 2 == 0 { '?' } else { ',' }),
{
    proof {
        placeholders_alternate(n as nat);
    }
    let mut out = String::new();
    let mut i: usize = 0;
    while i < n
        invariant
            i <= n,
            out@ == placeholder_text(i as nat),
        decreases n - i,
    {
        if i == 0 {
            out.append("?");
            assert(out@ == "?"@);
        } else {
            out.append(",?");
        }
        i = i + 1;
    }
    out
}

/// The condition on one tag.
pub open spec fn tag_condition() -> Seq<char> {
    " AND EXISTS(SELECT 1 FROM record_tags rt JOIN strings t ON t.id=rt.tag_id"@ + " WHERE rt.record_id=r.id AND t.text=?)"@
}

/// The condition on one tag, `n` times.
pub open spec fn tag_conditions(n: nat) -> Seq<char>
    decreases n,
{
    if n == 0 {
        Seq::empty()
    } else {
        tag_conditions((n - 1) as nat) + tag_condition()
    }
}

/// The condition on the kind of a record: none where every kind counts.
pub open spec fn kind_condition(n: nat) -> Seq<char> {
    if n == 0 {
        Seq::empty()
    } else {
        " AND r.kind IN ("@ + placeholder_text(n) + ")"@
    }
}

/// The condition that a filter puts on the rows `r` of the records. Where rows are already picked
/// by id, a unary plus keeps the namespace's index out of the plan, so that each id is looked up by
/// itself.
pub open spec fn filter_text(filter: ReadFilterView, kinds: nat, by_ids: bool) -> Seq<char> {
    (if by_ids {
        "+r.namespace_id=(SELECT id FROM strings WHERE text=?)"@
    } else {
        "r.namespace_id=(SELECT id FROM strings WHERE text=?)"@
    }) + " AND r.scope_id IN (SELECT id FROM strings WHERE text IN ("@ + placeholder_text(filter.scopes.len()) + "))"@
        + kind_condition(kinds) + tag_conditions(filter.tags.len())
}

/// Texts as bound values, in stored form.
pub open spec fn text_values(list: Seq<Seq<char>>) -> Seq<SqlValueView> {
    Seq::new(list.len(), |i: int| SqlValueView::Text(text::tag_form(list[i])))
}

/// Kinds as bound values.
pub open spec fn kind_values(kinds: Seq<RecordKind>) -> Seq<SqlValueView> {
    Seq::new(kinds.len(), |i: int| SqlValueView::Integer(types::kind_code(kinds[i])))
}

/// Ids as bound values.
pub open spec fn id_values(ids: Seq<i64>) -> Seq<SqlValueView> {
    Seq::new(ids.len(), |i: int| SqlValueView::Integer(ids[i]))
}

/// The values that a filter binds.
pub open spec fn filter_values(filter: ReadFilterView, kinds: Seq<RecordKind>) -> Seq<SqlValueView> {
    seq![SqlValueView::Text(text::tag_form(filter.namespace))] + text_values(filter.scopes) + kind_values(kinds) + text_values(filter.tags)
}

/// Appends ids as bound values.
pub fn push_ids(values: &mut Vec<SqlValue>, ids: &Vec<i64>)
    ensures
        value_views(final(values)@) == value_views(old(values)@) + id_values(ids@),
        final(values)@.len() == old(values)@.len() + ids@.len(),
        forall|i: int| 0 <= i < ids@.len() ==> #[trigger] value_views(final(values)@)[old(values)@.len() + i] == SqlValueView::Integer(ids@[i]),
{
    let ghost before = value_views(values@);
    let ghost all = id_values(ids@);
    let mut i: usize = 0;
    assert(before + all.take(0) == before);
    while i < ids.len()
        invariant
            i <= ids.len(),
            all == id_values(ids@),
            value_views(values@) == before + all.take(i as int),
        decreases ids.len() - i,
    {
        let ghost now = value_views(values@);
        values.push(SqlValue::Integer(ids[i]));
        assert(value_views(values@) == now.push(all[i as int]));
        assert(all.take(i + 1) == all.take(i as int).push(all[i as int]));
        i = i + 1;
    }
    assert(all.take(all.len() as int) == all);
}

/// Appends texts, in stored form, as bound values.
fn push_texts(values: &mut Vec<SqlValue>, list: &Vec<String>)
    ensures
        value_views(final(values)@) == value_views(old(values)@) + text_values(chars::texts(list@)),
        final(values)@.len() == old(values)@.len() + list@.len(),
        forall|i: int| 0 <= i < list@.len() ==> #[trigger] value_views(final(values)@)[old(values)@.len() + i]
            == SqlValueView::Text(text::tag_form(list@[i]@)),
{
    let ghost before = value_views(values@);
    let ghost all = text_values(chars::texts(list@));
    let mut i: usize = 0;
    assert(before + all.take(0) == before);
    while i < list.len()
        invariant
            i <= list.len(),
            all == text_values(chars::texts(list@)),
            value_views(values@) == before + all.take(i as int),
        decreases list.len() - i,
    {
        let ghost now = value_views(values@);
        values.push(SqlValue::Text(text::normalized_tag(list[i].as_str())));
        assert(value_views(values@) == now.push(all[i as int]));
        assert(all.take(i + 1) == all.take(i as int).push(all[i as int]));
        i = i + 1;
    }
    assert(all.take(all.len() as int) == all);
}

/// Appends kinds as bound values.
fn push_kinds(values: &mut Vec<SqlValue>, kinds: &Vec<RecordKind>)
    ensures
        value_views(final(values)@) == value_views(old(values)@) + kind_values(kinds@),
        final(values)@.len() == old(values)@.len() + kinds@.len(),
        forall|i: int| 0 <= i < kinds@.len() ==> #[trigger] value_views(final(values)@)[old(values)@.len() + i]
            == SqlValueView::Integer(types::kind_code(kinds@[i])),
{
    let ghost before = value_views(values@);
    let ghost all = kind_values(kinds@);
    let mut i: usize = 0;
    assert(before + all.take(0) == before);
    while i < kinds.len()
        invariant
            i <= kinds.len(),
            all == kind_values(kinds@),
            value_views(values@) == before + all.take(i as int),
        decreases kinds.len() - i,
    {
        let ghost now = value_views(values@);
        values.push(SqlValue::Integer(kinds[i].code()));
        assert(value_views(values@) == now.push(all[i as int]));
        assert(all.take(i + 1) == all.take(i as int).push(all[i as int]));
        i = i + 1;
    }
    assert(all.take(all.len() as int) == all);
}

/// The condition of a filter on the rows of the records, and the values it binds.
pub fn filter_sql(filter: &ReadFilter, kinds: &Vec<RecordKind>, by_ids: bool) -> (out: Result<(String, Vec<SqlValue>), Error>)
    ensures
        storage::refused(out, storage::filter_error(filter@)),
        out matches Ok((query, values)) ==> query@ == filter_text(filter@, kinds@.len(), by_ids) && value_views(values@)
            == filter_values(filter@, kinds@),
{
    storage::validate_filter(filter)?;
    let mut query = if by_ids {
        "+r.namespace_id=(SELECT id FROM strings WHERE text=?)".to_owned()
    } else {
        "r.namespace_id=(SELECT id FROM strings WHERE text=?)".to_owned()
    };
    let mut values: Vec<SqlValue> = Vec::new();
    values.push(SqlValue::Text(text::normalized_tag(filter.namespace.as_str())));
    assert(value_views(values@) == seq![SqlValueView::Text(text::tag_form(filter@.namespace))]);
    query.append(" AND r.scope_id IN (SELECT id FROM strings WHERE text IN (");
    query.append(placeholders(filter.scopes.len()).as_str());
    query.append("))");
    push_texts(&mut values, &filter.scopes);
    let ghost so_far = query@;
    if kinds.len() > 0 {
        query.append(" AND r.kind IN (");
        query.append(placeholders(kinds.len()).as_str());
        query.append(")");
    }
    assert(query@ == so_far + kind_condition(kinds@.len()));
    push_kinds(&mut values, kinds);
    let ghost conditions = query@;
    let mut i: usize = 0;
    assert(conditions + tag_conditions(0) == conditions);
    while i < filter.tags.len()
        invariant
            i <= filter.tags.len(),
            query@ == conditions + tag_conditions(i as nat),
        decreases filter.tags.len() - i,
    {
        let ghost so_far = query@;
        query.append(" AND EXISTS(SELECT 1 FROM record_tags rt JOIN strings t ON t.id=rt.tag_id");
        query.append(" WHERE rt.record_id=r.id AND t.text=?)");
        assert(query@ == so_far + tag_condition());
        assert(query@ == conditions + (tag_conditions(i as nat) + tag_condition()));
        i = i + 1;
    }
    push_texts(&mut values, &filter.tags);
    Ok((query, values))
}

// ── Placeholders and values agree ─────────────────────────────────────

/// How many placeholders stand in `s` from position `from` on.
pub open spec fn marks_from(s: Seq<char>, from: int) -> nat
    decreases s.len() - from,
{
    if from < 0 || from >= s.len() {
        0
    } else {
        marks_from(s, from + 1) + (if s[from] == '?' { 1nat } else { 0nat })
    }
}

/// How many placeholders stand in `s`.
pub open spec fn marks(s: Seq<char>) -> nat {
    marks_from(s, 0)
}

proof fn marks_from_of_sum(a: Seq<char>, b: Seq<char>, from: int)
    requires
        0 <= from <= a.len(),
    ensures
        marks_from(a + b, from) == marks_from(a, from) + marks(b),
    decreases a.len() - from,
{
    if from < a.len() {
        marks_from_of_sum(a, b, from + 1);
        assert((a + b)[from] == a[from]);
    } else {
        marks_shifted(a, b, 0);
    }
}

proof fn marks_shifted(a: Seq<char>, b: Seq<char>, k: int)
    requires
        0 <= k <= b.len(),
    ensures
        marks_from(a + b, a.len() + k) == marks_from(b, k),
    decreases b.len() - k,
{
    if k < b.len() {
        marks_shifted(a, b, k + 1);
        assert((a + b)[a.len() + k] == b[k]);
    }
}

proof fn marks_of_sum(a: Seq<char>, b: Seq<char>)
    ensures
        marks(a + b) == marks(a) + marks(b),
{
    marks_from_of_sum(a, b, 0);
}

proof fn marks_of_placeholders(n: nat)
    ensures
        marks(placeholder_text(n)) == n,
    decreases n,
{
    reveal_strlit("?");
    reveal_strlit(",?");
    reveal_with_fuel(marks_from, 3);
    if n > 1 {
        marks_of_placeholders((n - 1) as nat);
        marks_of_sum(placeholder_text((n - 1) as nat), ",?"@);
    }
}

proof fn marks_of_one_tag_condition()
    ensures
        marks(tag_condition()) == 1,
{
    let head = " AND EXISTS(SELECT 1 FROM record_tags rt JOIN strings t ON t.id=rt.tag_id"@;
    let tail = " WHERE rt.record_id=r.id AND t.text=?)"@;
    assert(marks(head) == 0) by {
        reveal_strlit(" AND EXISTS(SELECT 1 FROM record_tags rt JOIN strings t ON t.id=rt.tag_id");
        reveal_with_fuel(marks_from, 80);
    }
    assert(marks(tail) == 1) by {
        reveal_strlit(" WHERE rt.record_id=r.id AND t.text=?)");
        reveal_with_fuel(marks_from, 50);
    }
    marks_of_sum(head, tail);
}

proof fn marks_of_tag_conditions(n: nat)
    ensures
        marks(tag_conditions(n)) == n,
    decreases n,
{
    if n > 0 {
        marks_of_tag_conditions((n - 1) as nat);
        marks_of_sum(tag_conditions((n - 1) as nat), tag_condition());
        marks_of_one_tag_condition();
    }
}

/// A filter's condition holds as many placeholders as it binds values.
pub proof fn filter_binds_every_placeholder(filter: ReadFilterView, kinds: Seq<RecordKind>, by_ids: bool)
    ensures
        marks(filter_text(filter, kinds.len(), by_ids)) == filter_values(filter, kinds).len(),
{
    let head = if by_ids {
        "+r.namespace_id=(SELECT id FROM strings WHERE text=?)"@
    } else {
        "r.namespace_id=(SELECT id FROM strings WHERE text=?)"@
    };
    assert(marks(head) == 1) by {
        reveal_strlit("+r.namespace_id=(SELECT id FROM strings WHERE text=?)");
        reveal_strlit("r.namespace_id=(SELECT id FROM strings WHERE text=?)");
        reveal_with_fuel(marks_from, 60);
    }
    let scopes = " AND r.scope_id IN (SELECT id FROM strings WHERE text IN ("@;
    assert(marks(scopes) == 0) by {
        reveal_strlit(" AND r.scope_id IN (SELECT id FROM strings WHERE text IN (");
        reveal_with_fuel(marks_from, 70);
    }
    assert(marks("))"@) == 0 && marks(" AND r.kind IN ("@) == 0 && marks(")"@) == 0) by {
        reveal_strlit("))");
        reveal_strlit(" AND r.kind IN (");
        reveal_strlit(")");
        reveal_with_fuel(marks_from, 20);
    }
    let p = placeholder_text(filter.scopes.len());
    marks_of_placeholders(filter.scopes.len());
    marks_of_sum(head, scopes);
    marks_of_sum(head + scopes, p);
    marks_of_sum(head + scopes + p, "))"@);
    let k = kind_condition(kinds.len());
    assert(marks(k) == kinds.len()) by {
        marks_of_placeholders(kinds.len());
        marks_of_sum(" AND r.kind IN ("@, placeholder_text(kinds.len()));
        marks_of_sum(" AND r.kind IN ("@ + placeholder_text(kinds.len()), ")"@);
    }
    marks_of_sum(head + scopes + p + "))"@, k);
    marks_of_tag_conditions(filter.tags.len());
    marks_of_sum(head + scopes + p + "))"@ + k, tag_conditions(filter.tags.len()));
}

// ── Selections ────────────────────────────────────────────────────────

/// The query for the ids of the records within a filter, in order.
pub fn select_ids_sql(filter: &ReadFilter, kinds: &Vec<RecordKind>) -> (out: Result<(String, Vec<SqlValue>), Error>)
    ensures
        storage::refused(out, storage::filter_error(filter@)),
        out matches Ok((query, values)) ==> query@ == "SELECT r.id FROM records r WHERE "@ + filter_text(
            filter@,
            kinds@.len(),
            false,
        ) + " ORDER BY r.id"@ && value_views(values@) == filter_values(filter@, kinds@),
{
    let (condition, values) = filter_sql(filter, kinds, false)?;
    let mut query = chars::concat("SELECT r.id FROM records r WHERE ", condition.as_str());
    query.append(" ORDER BY r.id");
    Ok((query, values))
}

/// The query for the number of records within a filter.
pub fn count_matches_sql(filter: &ReadFilter, kinds: &Vec<RecordKind>) -> (out: Result<(String, Vec<SqlValue>), Error>)
    ensures
        storage::refused(out, storage::filter_error(filter@)),
        out matches Ok((query, values)) ==> query@ == "SELECT COUNT(*) FROM records r WHERE "@ + filter_text(
            filter@,
            kinds@.len(),
            false,
        ) && value_views(values@) == filter_values(filter@, kinds@),
{
    let (condition, values) = filter_sql(filter, kinds, false)?;
    Ok((chars::concat("SELECT COUNT(*) FROM records r WHERE ", condition.as_str()), values))
}

/// The query for those of the given ids that lie within a filter, in order.
pub fn load_many_sql(ids: &Vec<i64>, filter: &ReadFilter) -> (out: Result<(String, Vec<SqlValue>), Error>)
    ensures
        storage::refused(out, storage::filter_error(filter@)),
        out matches Ok((query, values)) ==> query@ == "SELECT r.id FROM records r WHERE r.id IN ("@ + placeholder_text(
            ids@.len(),
        ) + ") AND "@ + filter_text(filter@, 0, true) + " ORDER BY r.id"@ && value_views(values@) == id_values(ids@)
            + filter_values(filter@, Seq::empty()),
{
    let (condition, mut filter_bound) = filter_sql(filter, &Vec::new(), true)?;
    let mut query = chars::concat("SELECT r.id FROM records r WHERE r.id IN (", placeholders(ids.len()).as_str());
    query.append(") AND ");
    query.append(condition.as_str());
    query.append(" ORDER BY r.id");
    let mut values: Vec<SqlValue> = Vec::new();
    assert(value_views(values@) == Seq::<SqlValueView>::empty());
    push_ids(&mut values, ids);
    let ghost a = value_views(values@);
    let ghost b = value_views(filter_bound@);
    values.append(&mut filter_bound);
    assert(value_views(values@) == a + b);
    Ok((query, values))
}

/// A query over given ids: what stands before them, a placeholder for each, and what stands after.
pub open spec fn over_ids(head: Seq<char>, n: nat, tail: Seq<char>) -> Seq<char> {
    head + placeholder_text(n) + tail
}

fn ids_sql(head: &str, n: usize, tail: &str) -> (out: String)
    ensures
        out@ == over_ids(head@, n as nat, tail@),
{
    let mut out = chars::concat(head, placeholders(n).as_str());
    out.append(tail);
    out
}

/// The query for what is stored of `n` records, in the order of their ids.
pub fn record_rows_sql(n: usize) -> (out: String)
    ensures
        out@ == over_ids(
            "SELECT r.id,r.namespace_id,n.text,r.kind,s.text,r.created_at_us,r.updated_at_us,r.revision,r.metadata_json,r.evidence_json,r.payload_json FROM records r JOIN strings n ON n.id=r.namespace_id JOIN strings s ON s.id=r.scope_id WHERE r.id IN ("@,
            n as nat,
            ") ORDER BY r.id"@,
        ),
{
    ids_sql(
        "SELECT r.id,r.namespace_id,n.text,r.kind,s.text,r.created_at_us,r.updated_at_us,r.revision,r.metadata_json,r.evidence_json,r.payload_json FROM records r JOIN strings n ON n.id=r.namespace_id JOIN strings s ON s.id=r.scope_id WHERE r.id IN (",
        n,
        ") ORDER BY r.id",
    )
}

/// The query for the tags of `n` records, in the order of ids and tags.
pub fn record_tags_sql(n: usize) -> (out: String)
    ensures
        out@ == over_ids(
            "SELECT rt.record_id,t.text FROM record_tags rt JOIN strings t ON t.id=rt.tag_id WHERE rt.record_id IN ("@,
            n as nat,
            ") ORDER BY rt.record_id,t.text"@,
        ),
{
    ids_sql(
        "SELECT rt.record_id,t.text FROM record_tags rt JOIN strings t ON t.id=rt.tag_id WHERE rt.record_id IN (",
        n,
        ") ORDER BY rt.record_id,t.text",
    )
}

/// The query for the paths and names of those of `n` records that are notes.
pub fn note_names_sql(n: usize) -> (out: String)
    ensures
        out@ == over_ids("SELECT n.record_id,n.path,n.name FROM notes n WHERE n.record_id IN ("@, n as nat, ")"@),
{
    ids_sql("SELECT n.record_id,n.path,n.name FROM notes n WHERE n.record_id IN (", n, ")")
}

/// The query for the notes and first lines of those of `n` records that are chunks.
pub fn chunk_notes_sql(n: usize) -> (out: String)
    ensures
        out@ == over_ids("SELECT record_id,note_id,\"offset\" FROM chunks WHERE record_id IN ("@, n as nat, ")"@),
{
    ids_sql("SELECT record_id,note_id,\"offset\" FROM chunks WHERE record_id IN (", n, ")")
}

/// The query for the names of those of `n` records that are entities.
pub fn entity_names_sql(n: usize) -> (out: String)
    ensures
        out@ == over_ids("SELECT record_id,name FROM entities WHERE record_id IN ("@, n as nat, ")"@),
{
    ids_sql("SELECT record_id,name FROM entities WHERE record_id IN (", n, ")")
}

/// A text field of a stored record, empty where it is absent or something else.
pub open spec fn text_field(name: Seq<char>) -> Seq<char> {
    "CASE WHEN json_type(r.payload_json,'$."@ + name + "')='text' THEN json_extract(r.payload_json,'$."@ + name + "') ELSE '' END"@
}

fn text_field_sql(name: &str) -> (out: String)
    ensures
        out@ == text_field(name@),
{
    let mut out = chars::concat("CASE WHEN json_type(r.payload_json,'$.", name);
    out.append("')='text' THEN json_extract(r.payload_json,'$.");
    out.append(name);
    out.append("') ELSE '' END");
    out
}

/// The names of a stored event's participants with spaces between them, empty where they are no list.
pub open spec fn participant_names_field() -> Seq<char> {
    "COALESCE(CASE WHEN json_type(r.payload_json,'$.participant_names')='array' THEN (SELECT group_concat(j.value,' ') FROM json_each(r.payload_json,'$.participant_names') j WHERE j.type='text') ELSE '' END,'')"@
}

/// The query for the lengths of the texts of `n` events, which are those that their records have in
/// the index: name, summary, participants and reason.
pub fn event_lengths_sql(n: usize) -> (out: String)
    ensures
        out@ == over_ids(
            "SELECT r.id, LENGTH("@ + text_field("name"@) + " || ' ' || "@ + text_field("summary"@) + " || ' ' || "@
                + participant_names_field() + " || ' ' || "@ + text_field("reason"@) + ") FROM records r WHERE r.id IN ("@,
            n as nat,
            ") ORDER BY r.id"@,
        ),
{
    let mut head = chars::concat("SELECT r.id, LENGTH(", text_field_sql("name").as_str());
    head.append(" || ' ' || ");
    head.append(text_field_sql("summary").as_str());
    head.append(" || ' ' || ");
    head.append(
        "COALESCE(CASE WHEN json_type(r.payload_json,'$.participant_names')='array' THEN (SELECT group_concat(j.value,' ') FROM json_each(r.payload_json,'$.participant_names') j WHERE j.type='text') ELSE '' END,'')",
    );
    head.append(" || ' ' || ");
    head.append(text_field_sql("reason").as_str());
    head.append(") FROM records r WHERE r.id IN (");
    ids_sql(head.as_str(), n, ") ORDER BY r.id")
}

/// A stored count or line as it is used: never below zero.
pub fn stored_count(value: i64) -> (out: u64)
    ensures
        out == if value < 0 {
            0
        } else {
            value as int
        },
{
    if value < 0 {
        0
    } else {
        value as u64
    }
}

/// The query that selects relations by the entities at their ends. Both ends must be among the
/// given ids where `both` is set, else one suffices.
pub fn relations_sql(entity_ids: &Vec<i64>, filter: &ReadFilter, both: bool) -> (out: Result<(String, Vec<SqlValue>), Error>)
    ensures
        storage::refused(out, storage::filter_error(filter@)),
        out matches Ok((query, values)) ==> query@ == "SELECT rl.record_id FROM relations rl JOIN records r ON r.id=rl.record_id WHERE (rl.subject_id IN ("@
            + placeholder_text(entity_ids@.len()) + (if both { ") AND rl.object_id IN ("@ } else { ") OR rl.object_id IN ("@ })
            + placeholder_text(entity_ids@.len()) + ")) AND "@ + filter_text(filter@, 1, false) + " ORDER BY rl.record_id"@
            && value_views(values@) == id_values(entity_ids@) + id_values(entity_ids@) + filter_values(
            filter@,
            seq![RecordKind::Relation],
        ),
{
    let kinds = vec![RecordKind::Relation];
    assert(kinds@ == seq![RecordKind::Relation]);
    let (condition, mut filter_bound) = filter_sql(filter, &kinds, false)?;
    let marks = placeholders(entity_ids.len());
    let mut query = chars::concat(
        "SELECT rl.record_id FROM relations rl JOIN records r ON r.id=rl.record_id WHERE (rl.subject_id IN (",
        marks.as_str(),
    );
    if both {
        query.append(") AND rl.object_id IN (");
    } else {
        query.append(") OR rl.object_id IN (");
    }
    query.append(marks.as_str());
    query.append(")) AND ");
    query.append(condition.as_str());
    query.append(" ORDER BY rl.record_id");
    let mut values: Vec<SqlValue> = Vec::new();
    assert(value_views(values@) == Seq::<SqlValueView>::empty());
    push_ids(&mut values, entity_ids);
    push_ids(&mut values, entity_ids);
    let ghost a = value_views(values@);
    let ghost b = value_views(filter_bound@);
    values.append(&mut filter_bound);
    assert(value_views(values@) == a + b);
    Ok((query, values))
}

/// The query for the events of which at least two participants are among the given entities.
pub fn events_between_sql(entity_ids: &Vec<i64>, filter: &ReadFilter) -> (out: Result<(String, Vec<SqlValue>), Error>)
    ensures
        storage::refused(out, storage::filter_error(filter@)),
        out matches Ok((query, values)) ==> query@ == "SELECT ep.event_id FROM event_participants ep JOIN records r ON r.id=ep.event_id WHERE ep.entity_id IN ("@
            + placeholder_text(entity_ids@.len()) + ") AND "@ + filter_text(filter@, 1, false)
            + " GROUP BY ep.event_id HAVING COUNT(DISTINCT ep.entity_id) >= 2 ORDER BY ep.event_id"@ && value_views(values@)
            == id_values(entity_ids@) + filter_values(filter@, seq![RecordKind::Event]),
{
    let kinds = vec![RecordKind::Event];
    assert(kinds@ == seq![RecordKind::Event]);
    let (condition, mut filter_bound) = filter_sql(filter, &kinds, false)?;
    let mut query = chars::concat(
        "SELECT ep.event_id FROM event_participants ep JOIN records r ON r.id=ep.event_id WHERE ep.entity_id IN (",
        placeholders(entity_ids.len()).as_str(),
    );
    query.append(") AND ");
    query.append(condition.as_str());
    query.append(" GROUP BY ep.event_id HAVING COUNT(DISTINCT ep.entity_id) >= 2 ORDER BY ep.event_id");
    let mut values: Vec<SqlValue> = Vec::new();
    assert(value_views(values@) == Seq::<SqlValueView>::empty());
    push_ids(&mut values, entity_ids);
    let ghost a = value_views(values@);
    let ghost b = value_views(filter_bound@);
    values.append(&mut filter_bound);
    assert(value_views(values@) == a + b);
    Ok((query, values))
}

// ── Pages ─────────────────────────────────────────────────────────────

/// Why a page query is refused, if it is: its filter, or a cursor that is no id.
pub open spec fn page_error(filter: ReadFilterView, after: Option<Seq<char>>) -> Option<ErrorView> {
    match storage::filter_error(filter) {
        Some(e) => Some(e),
        None => if after is Some && decimal::parsed_i64(after->0) is None {
            Some(ErrorView::Validation("invalid page cursor"@))
        } else {
            None
        },
    }
}

/// The query for at most `limit` ids within a filter, after a cursor where one is given.
pub fn select_keys_sql(filter: &ReadFilter, kinds: &Vec<RecordKind>, limit: usize, after: &Option<String>) -> (out: Result<(String, Vec<SqlValue>), Error>)
    ensures
        storage::refused(out, page_error(filter@, types::optional_text(*after))),
        out matches Ok((query, values)) ==> {
            let bound = SqlValueView::Integer(if limit <= i64::MAX { limit as i64 } else { i64::MAX });
            match after {
                Some(cursor) => query@ == "SELECT r.id FROM records r WHERE "@ + filter_text(filter@, kinds@.len(), false)
                    + " AND r.id>?"@ + " ORDER BY r.id LIMIT ?"@ && value_views(values@) == filter_values(filter@, kinds@).push(
                    SqlValueView::Integer(decimal::parsed_i64(cursor@)->0),
                ).push(bound),
                None => query@ == "SELECT r.id FROM records r WHERE "@ + filter_text(filter@, kinds@.len(), false)
                    + " ORDER BY r.id LIMIT ?"@ && value_views(values@) == filter_values(filter@, kinds@).push(bound),
            }
        },
{
    let (condition, mut values) = filter_sql(filter, kinds, false)?;
    let mut query = chars::concat("SELECT r.id FROM records r WHERE ", condition.as_str());
    if let Some(cursor) = after {
        let id: i64 = match decimal::parse_i64(cursor.as_str()) {
            Some(id) => id,
            None => return Err(Error::Validation("invalid page cursor".to_owned())),
        };
        query.append(" AND r.id>?");
        let ghost before = value_views(values@);
        values.push(SqlValue::Integer(id));
        assert(value_views(values@) == before.push(SqlValueView::Integer(id)));
    }
    let bound: i64 = if (limit as u128) <= 0x7fff_ffff_ffff_ffff { limit as i64 } else { i64::MAX };
    let ghost before = value_views(values@);
    values.push(SqlValue::Integer(bound));
    assert(value_views(values@) == before.push(SqlValueView::Integer(bound)));
    query.append(" ORDER BY r.id LIMIT ?");
    Ok((query, values))
}

/// The ids of one page, and the cursor of the next where more were found than fit.
pub open spec fn page_is(found: Seq<i64>, limit: int, ids: Seq<i64>, cursor: Option<Seq<char>>) -> bool {
    if found.len() > limit {
        &&& ids == found.take(limit)
        &&& cursor == (if limit > 0 { Some(decimal::integer_text(found[limit - 1] as int)) } else { None })
    } else {
        &&& ids == found
        &&& cursor is None
    }
}

/// Cuts what was found for a page, one more than fits at most, to the page and its cursor.
pub fn page_of(found: Vec<i64>, limit: usize) -> (out: (Vec<i64>, Option<String>))
    ensures
        page_is(found@, limit as int, out.0@, types::optional_text(out.1)),
        out.0@.len() <= limit,
        out.0@.is_prefix_of(found@),
        found@.len() <= limit ==> out.0@ == found@ && out.1 is None,
        found@.len() > limit && limit > 0 ==> out.0@.len() == limit && (out.1 matches Some(cursor) && cursor@ == decimal::integer_text(
            out.0@.last() as int,
        )),
{
    let mut ids = found;
    if ids.len() <= limit {
        return (ids, None);
    }
    ids.truncate(limit);
    if limit == 0 {
        return (ids, None);
    }
    let cursor = decimal::decimal_i64(ids[limit - 1]);
    (ids, Some(cursor))
}

/// The ids stand in increasing order, each once.
pub open spec fn increasing(ids: Seq<i64>) -> bool {
    forall|i: int, j: int| 0 <= i < j < ids.len() ==> (#[trigger] ids[i]) < (#[trigger] ids[j])
}

/// What a page query sees of the ids: those after the cursor.
pub open spec fn beyond(ids: Seq<i64>, after: Option<i64>) -> Seq<i64>
    decreases ids.len(),
{
    if ids.len() > 0 && after is Some && ids[0] <= after->0 {
        beyond(ids.drop_first(), after)
    } else {
        ids
    }
}

proof fn beyond_is_suffix(ids: Seq<i64>, after: Option<i64>) -> (k: int)
    requires
        increasing(ids),
    ensures
        0 <= k <= ids.len(),
        beyond(ids, after) == ids.skip(k),
    decreases ids.len(),
{
    if ids.len() > 0 && after is Some && ids[0] <= after->0 {
        let rest = ids.drop_first();
        assert forall|i: int, j: int| 0 <= i < j < rest.len() implies (#[trigger] rest[i]) < (#[trigger] rest[j]) by {
            assert(ids[i + 1] < ids[j + 1]);
        }
        let k = beyond_is_suffix(rest, after);
        assert(rest.skip(k) == ids.skip(k + 1));
        k + 1
    } else {
        assert(ids.skip(0) == ids);
        0
    }
}

proof fn beyond_of_position(ids: Seq<i64>, k: int)
    requires
        increasing(ids),
        0 <= k < ids.len(),
    ensures
        beyond(ids, Some(ids[k])) == ids.skip(k + 1),
    decreases ids.len(),
{
    let rest = ids.drop_first();
    assert forall|i: int, j: int| 0 <= i < j < rest.len() implies (#[trigger] rest[i]) < (#[trigger] rest[j]) by {
        assert(ids[i + 1] < ids[j + 1]);
    }
    if k == 0 {
        assert(rest == ids.skip(1));
        if rest.len() > 0 {
            assert(ids[0] < ids[1]);
        }
        assert(beyond(rest, Some(ids[0])) == rest);
    } else {
        assert(ids[0] < ids[k]);
        beyond_of_position(rest, k - 1);
        assert(rest[k - 1] == ids[k]);
        assert(rest.skip(k) == ids.skip(k + 1));
    }
}

/// Walking by the cursor loses and repeats nothing: a page and what lies beyond its cursor are
/// together what lay beyond the cursor before, and a page without a cursor is all that was left.
pub proof fn pages_follow_each_other(ids: Seq<i64>, after: Option<i64>, limit: int, page: Seq<i64>, cursor: Option<Seq<char>>)
    requires
        increasing(ids),
        1 <= limit <= 10_000,
        page_is(beyond(ids, after), limit, page, cursor),
    ensures
        cursor is None ==> page == beyond(ids, after),
        cursor is Some ==> decimal::parsed_i64(cursor->0) is Some && page + beyond(ids, decimal::parsed_i64(cursor->0)) == beyond(
            ids,
            after,
        ),
{
    let rest = beyond(ids, after);
    let k = beyond_is_suffix(ids, after);
    if rest.len() > limit {
        let last = rest[limit - 1];
        decimal::parse_reads_integer_text(last);
        assert(last == ids[k + limit - 1]);
        beyond_of_position(ids, k + limit - 1);
        assert(rest.take(limit) + ids.skip(k + limit) == rest);
    }
}

/// The members of `ids` that `found` holds, in order, each once.
pub open spec fn arranged(ids: Seq<i64>, found: Seq<i64>) -> Seq<i64>
    decreases ids.len(),
{
    if ids.len() == 0 {
        Seq::empty()
    } else {
        let before = arranged(ids.drop_last(), found);
        if found.contains(ids.last()) && !before.contains(ids.last()) {
            before.push(ids.last())
        } else {
            before
        }
    }
}

/// What is arranged is what was asked for and found, each once and in the order in which it was
/// asked for.
pub proof fn arranging_keeps_what_was_asked(ids: Seq<i64>, found: Seq<i64>)
    ensures
        arranged(ids, found).no_duplicates(),
        forall|x: i64| #[trigger] arranged(ids, found).contains(x) <==> ids.contains(x) && found.contains(x),
        ids.len() > 0 ==> arranged(ids.drop_last(), found).is_prefix_of(arranged(ids, found)),
        ids.no_duplicates() && (forall|i: int| 0 <= i < ids.len() ==> found.contains(#[trigger] ids[i])) ==> arranged(ids, found) == ids,
    decreases ids.len(),
{
    if ids.len() > 0 {
        let rest = ids.drop_last();
        let before = arranged(rest, found);
        let all = arranged(ids, found);
        arranging_keeps_what_was_asked(rest, found);
        assert(ids[ids.len() - 1] == ids.last());
        assert forall|x: i64| #[trigger] all.contains(x) <==> ids.contains(x) && found.contains(x) by {
            assert(before.contains(x) <==> rest.contains(x) && found.contains(x));
            if rest.contains(x) {
                let k = choose|k: int| 0 <= k < rest.len() && rest[k] == x;
                assert(ids[k] == x);
            }
            if ids.contains(x) && !rest.contains(x) {
                let k = choose|k: int| 0 <= k < ids.len() && ids[k] == x;
                if k < rest.len() {
                    assert(rest[k] == x);
                }
            }
            if before.contains(x) {
                let k = choose|k: int| 0 <= k < before.len() && before[k] == x;
                assert(all[k] == x);
            }
            if all.contains(x) && !before.contains(x) {
                let k = choose|k: int| 0 <= k < all.len() && all[k] == x;
                if k < before.len() {
                    assert(before[k] == x);
                }
            }
            if x == ids.last() && found.contains(x) && !before.contains(x) {
                assert(all[before.len() as int] == x);
            }
        }
        if ids.no_duplicates() && (forall|i: int| 0 <= i < ids.len() ==> found.contains(#[trigger] ids[i])) {
            assert forall|i: int| 0 <= i < rest.len() implies found.contains(#[trigger] rest[i]) by {
                assert(rest[i] == ids[i]);
            }
            assert forall|i: int, j: int| 0 <= i < rest.len() && 0 <= j < rest.len() && i != j implies rest[i] != rest[j] by {
                assert(ids[i] != ids[j]);
            }
            assert(before == rest);
            if before.contains(ids.last()) {
                let k = choose|k: int| 0 <= k < rest.len() && rest[k] == ids.last();
                assert(ids[k] == ids[ids.len() - 1]);
            }
            assert(found.contains(ids[ids.len() - 1]));
            assert(all == ids);
        }
    }
}

/// Puts what was found into the order in which it was asked for.
pub fn arrange(ids: &Vec<i64>, found: &Vec<i64>) -> (out: Vec<i64>)
    ensures
        out@ == arranged(ids@, found@),
        out@.no_duplicates(),
        forall|x: i64| #[trigger] out@.contains(x) <==> ids@.contains(x) && found@.contains(x),
        ids@.no_duplicates() && (forall|i: int| 0 <= i < ids@.len() ==> found@.contains(#[trigger] ids@[i])) ==> out@ == ids@,
{
    proof {
        arranging_keeps_what_was_asked(ids@, found@);
    }
    let mut out: Vec<i64> = Vec::new();
    let mut i: usize = 0;
    assert(ids@.take(0) == Seq::<i64>::empty());
    while i < ids.len()
        invariant
            i <= ids.len(),
            out@ == arranged(ids@.take(i as int), found@),
        decreases ids.len() - i,
    {
        assert(ids@.take(i + 1).drop_last() == ids@.take(i as int));
        if types::has_id(found, ids[i]) && !types::has_id(&out, ids[i]) {
            out.push(ids[i]);
        }
        i = i + 1;
    }
    assert(ids@.take(ids@.len() as int) == ids@);
    out
}

} // verus!
