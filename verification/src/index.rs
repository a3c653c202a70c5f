//! The full text index: what a document holds, which documents a query matches and scores, and how
//! the index follows the records.

use crate::chars;
use crate::decimal;
use crate::filling;
use crate::ids;
use crate::json;
use crate::json::Json;
use crate::query;
use crate::ranking;
use crate::ranking::Scored;
use crate::records::IndexDocument;
use crate::text;
use crate::types;
use crate::types::{MatchField, RecordKind};
use std::collections::HashSet;
use vstd::prelude::*;

verus! {

// ── What a document holds ─────────────────────────────────────────────

/// The searched columns of a document: tokens with blanks between them, none for a column that the
/// document lacks.
#[derive(Debug)]
pub struct IndexedText {
    pub text: Option<String>,
    pub name: Option<String>,
    pub path: Option<String>,
    pub note: Option<i64>,
}

/// The searched text of a document: its tags stand in front of its own text, in the same column.
pub open spec fn searchable(d: IndexDocument) -> Seq<char> {
    if d.tags_prefix@.len() == 0 {
        d.text@
    } else {
        d.tags_prefix@ + "\n"@ + d.text@
    }
}

/// A column of tokens.
pub open spec fn token_column(s: Seq<char>) -> Option<Seq<char>> {
    if s.len() == 0 {
        None
    } else {
        Some(chars::joined(text::tokens(text::normalized(s)), " "@))
    }
}

/// Makes a column of tokens.
fn column_of(s: &str) -> (out: Option<String>)
    ensures
        types::optional_text(out) == token_column(s@),
        out is None <==> s@.len() == 0,
        out matches Some(t) ==> t@ == chars::joined(text::tokens(text::normalized(s@)), " "@),
{
    if s.unicode_len() == 0 {
        None
    } else {
        Some(chars::join(&text::tokenize(s), " "))
    }
}

/// The searched columns of a document.
pub fn indexed_text(d: &IndexDocument) -> (out: IndexedText)
    ensures
        types::optional_text(out.text) == token_column(chars::trim(text::markdown_passes(searchable(*d)))),
        types::optional_text(out.name) == token_column(d.name@),
        types::optional_text(out.path) == token_column(d.path@),
        out.note == (if d.note_id != 0 { Some(d.note_id) } else { None }),
        d.tags_prefix@.len() == 0 ==> types::optional_text(out.text) == token_column(chars::trim(text::markdown_passes(d.text@))),
        d.tags_prefix@.len() > 0 ==> types::optional_text(out.text) == token_column(
            chars::trim(text::markdown_passes(d.tags_prefix@ + "\n"@ + d.text@)),
        ),
{
    let whole = if d.tags_prefix.as_str().unicode_len() == 0 {
        d.text.clone()
    } else {
        let mut whole = chars::concat(d.tags_prefix.as_str(), "\n");
        whole.append(d.text.as_str());
        whole
    };
    let cleaned = text::clean_markdown(whole.as_str());
    IndexedText {
        text: column_of(cleaned.as_str()),
        name: column_of(d.name.as_str()),
        path: column_of(d.path.as_str()),
        note: if d.note_id != 0 { Some(d.note_id) } else { None },
    }
}

/// The text of a chunk, by its place among the chunks of its note.
pub open spec fn chunk_body_of(chunks: Seq<Seq<char>>, payload: json::Tree) -> Seq<char> {
    let place = match json::nat_of(json::member(payload, "ordinal"@)) {
        Some(n) => n as int,
        None => 0,
    };
    if place < chunks.len() {
        chunks[place]
    } else {
        Seq::empty()
    }
}

/// Finds the text of a chunk among the chunks that its note is cut into anew.
pub fn chunk_body(chunks: &Vec<String>, payload: &Json) -> (out: String)
    ensures
        out@ == chunk_body_of(chars::texts(chunks@), json::tree(*payload)),
        json::nat_of(json::member(json::tree(*payload), "ordinal"@)) matches Some(n) ==> if n < chunks@.len() {
            out@ == chunks@[n as int]@
        } else {
            out@.len() == 0
        },
        json::nat_of(json::member(json::tree(*payload), "ordinal"@)) is None && chunks@.len() > 0 ==> out@ == chunks@[0]@,
{
    let place: u64 = match json::as_nat(json::get(payload, "ordinal")) {
        Some(n) => n,
        None => 0,
    };
    if place < chunks.len() as u64 {
        chunks[place as usize].clone()
    } else {
        String::new()
    }
}

/// The chunk length of notes that were stored without one.
pub const FALLBACK_CHUNK_CHARS: usize = 220;

/// The chunk length that a note was stored with.
pub open spec fn stored_chunk_chars(payload: Option<json::Tree>) -> int {
    match payload {
        Some(p) => match json::nat_of(json::member(p, "chunk_chars"@)) {
            Some(n) => if n <= usize::MAX {
                n as int
            } else {
                usize::MAX as int
            },
            None => FALLBACK_CHUNK_CHARS as int,
        },
        None => FALLBACK_CHUNK_CHARS as int,
    }
}

/// The chunk length that a note was stored with.
pub fn note_chunk_chars(payload: Option<&Json>) -> (out: usize)
    ensures
        out == stored_chunk_chars(json::optional_tree(payload)),
        payload is None ==> out == 220,
        json::optional_tree(payload) matches Some(p) ==> (json::nat_of(json::member(p, "chunk_chars"@)) is None ==> out == 220),
        json::optional_tree(payload) matches Some(p) ==> (json::nat_of(json::member(p, "chunk_chars"@)) matches Some(n) ==> (n <= usize::MAX
            ==> out == n)),
{
    match payload {
        Some(p) => match json::as_nat(json::get(p, "chunk_chars")) {
            Some(n) => if n <= usize::MAX as u64 { n as usize } else { usize::MAX },
            None => FALLBACK_CHUNK_CHARS,
        },
        None => FALLBACK_CHUNK_CHARS,
    }
}

// ── Filters ───────────────────────────────────────────────────────────

/// The range of a query, with every label as its id.
#[derive(Debug)]
pub struct IndexFilter {
    pub namespace: i64,
    pub scopes: Vec<i64>,
    pub kinds: Vec<i64>,
    pub tags: Vec<i64>,
    pub note_ids: Vec<i64>,
}

/// All members, where none is missing.
pub open spec fn all_known(list: Seq<Option<i64>>) -> bool {
    forall|i: int| 0 <= i < list.len() ==> (#[trigger] list[i]) is Some
}

/// The members themselves.
pub open spec fn known(list: Seq<Option<i64>>) -> Seq<i64> {
    Seq::new(list.len(), |i: int| list[i]->0)
}

/// The codes of kinds.
pub open spec fn codes(kinds: Seq<RecordKind>) -> Seq<i64> {
    Seq::new(kinds.len(), |i: int| types::kind_code(kinds[i]))
}

/// All members, or none where one is missing.
fn unwrap_all(list: &Vec<Option<i64>>) -> (out: Option<Vec<i64>>)
    ensures
        out is Some <==> all_known(list@),
        out matches Some(v) ==> v@ == known(list@),
{
    let mut out: Vec<i64> = Vec::new();
    let mut i: usize = 0;
    while i < list.len()
        invariant
            i <= list.len(),
            forall|k: int| 0 <= k < i ==> (#[trigger] list@[k]) is Some,
            out@ == known(list@).take(i as int),
        decreases list.len() - i,
    {
        match list[i] {
            Some(id) => {
                out.push(id);
                assert(known(list@).take(i + 1) == known(list@).take(i as int).push(id));
            },
            None => {
                assert(list@[i as int] is None);
                return None;
            },
        }
        i = i + 1;
    }
    assert(known(list@).take(list@.len() as int) == known(list@));
    Some(out)
}

/// Makes the range of a query out of the ids that its labels were found under. A label that the
/// store does not know matches nothing, so that the index need not be asked.
pub fn index_filter(
    namespace: Option<i64>,
    scopes: &Vec<Option<i64>>,
    tags: &Vec<Option<i64>>,
    kinds: &Vec<RecordKind>,
    note_ids: &Vec<i64>,
) -> (out: Option<IndexFilter>)
    ensures
        out is Some <==> namespace is Some && all_known(scopes@) && all_known(tags@),
        out matches Some(f) ==> f.namespace == namespace->0 && f.scopes@ == known(scopes@) && f.tags@ == known(tags@) && f.kinds@
            == codes(kinds@) && f.note_ids@ == note_ids@,
{
    let namespace = match namespace {
        Some(id) => id,
        None => return None,
    };
    let scopes = match unwrap_all(scopes) {
        Some(list) => list,
        None => return None,
    };
    let tags = match unwrap_all(tags) {
        Some(list) => list,
        None => return None,
    };
    let mut out: Vec<i64> = Vec::new();
    let mut i: usize = 0;
    while i < kinds.len()
        invariant
            i <= kinds.len(),
            out@ == codes(kinds@).take(i as int),
        decreases kinds.len() - i,
    {
        out.push(kinds[i].code());
        assert(codes(kinds@).take(i + 1) == codes(kinds@).take(i as int).push(types::kind_code(kinds@[i as int])));
        i = i + 1;
    }
    assert(codes(kinds@).take(kinds@.len() as int) == codes(kinds@));
    Some(IndexFilter { namespace, scopes, kinds: out, tags, note_ids: types::copy_ids(note_ids) })
}

// ── Queries ───────────────────────────────────────────────────────────

/// A column of tokens.
#[derive(Debug, Clone, Copy, PartialEq, Eq, Structural)]
pub enum Column {
    Text,
    Name,
    Path,
}

/// A column of ids.
#[derive(Debug, Clone, Copy, PartialEq, Eq, Structural)]
pub enum IdColumn {
    Namespace,
    Scope,
    Kind,
    Tags,
    Note,
}

/// How a clause takes part in its group.
#[derive(Debug, Clone, Copy, PartialEq, Eq, Structural)]
pub enum Occur {
    Must,
    Should,
}

/// A member of a group.
#[derive(Debug)]
pub struct Clause {
    pub occur: Occur,
    pub node: Node,
}

/// A query. A group matches where all that must match do; where nothing must, one that should match
/// is enough to make it match.
#[derive(Debug)]
pub enum Node {
    /// The column holds the token.
    Term(Column, String),
    /// The column holds the id.
    Exact(IdColumn, i64),
    Group(Vec<Clause>),
    /// The same matches with a score `NAME_FIELD_BOOST` times as high.
    Boosted(Box<Node>),
    /// The same matches without any score.
    Unscored(Box<Node>),
}

/// How much more a hit in the name counts.
pub const NAME_FIELD_BOOST: usize = 3;

/// A document of the index, as queries see it.
pub struct DocView {
    pub text: Set<Seq<char>>,
    pub name: Set<Seq<char>>,
    pub path: Set<Seq<char>>,
    pub namespace: i64,
    pub scope: i64,
    pub kind: i64,
    pub tags: Set<i64>,
    pub note: Option<i64>,
}

/// A document's column holds a token.
pub open spec fn holds_token(doc: DocView, column: Column, token: Seq<char>) -> bool {
    match column {
        Column::Text => doc.text.contains(token),
        Column::Name => doc.name.contains(token),
        Column::Path => doc.path.contains(token),
    }
}

/// A document's column holds an id.
pub open spec fn holds_id(doc: DocView, column: IdColumn, id: i64) -> bool {
    match column {
        IdColumn::Namespace => doc.namespace == id,
        IdColumn::Scope => doc.scope == id,
        IdColumn::Kind => doc.kind == id,
        IdColumn::Tags => doc.tags.contains(id),
        IdColumn::Note => doc.note == Some(id),
    }
}

/// A query matches a document.
pub open spec fn matches(node: Node, doc: DocView) -> bool
    decreases node,
{
    match node {
        Node::Term(column, token) => holds_token(doc, column, token@),
        Node::Exact(column, id) => holds_id(doc, column, id),
        Node::Group(clauses) => {
            &&& forall|i: int| #![trigger clauses@[i]]
                0 <= i < clauses@.len() ==> (clauses@[i].occur == Occur::Must ==> matches(clauses@[i].node, doc))
            &&& exists|i: int| #![trigger clauses@[i]] 0 <= i < clauses@.len() && (clauses@[i].occur == Occur::Must || matches(clauses@[i].node, doc))
        },
        Node::Boosted(inner) => matches(*inner, doc),
        Node::Unscored(inner) => matches(*inner, doc),
    }
}

/// A token in a column, and how many times as much it counts.
pub struct ScoredTerm {
    pub column: Column,
    pub token: Seq<char>,
    pub factor: nat,
}

/// The terms that a query's score is the sum of.
pub open spec fn scored_terms(node: Node, factor: nat) -> Seq<ScoredTerm>
    decreases node, 0nat,
{
    match node {
        Node::Term(column, token) => seq![ScoredTerm { column, token: token@, factor }],
        Node::Exact(_, _) => Seq::empty(),
        Node::Group(clauses) => clause_terms(clauses@, clauses@.len(), factor),
        Node::Boosted(inner) => scored_terms(*inner, factor * NAME_FIELD_BOOST as nat),
        Node::Unscored(_) => Seq::empty(),
    }
}

/// The terms of the first `n` clauses.
pub open spec fn clause_terms(clauses: Seq<Clause>, n: nat, factor: nat) -> Seq<ScoredTerm>
    decreases clauses, n,
{
    if n == 0 || n > clauses.len() {
        Seq::empty()
    } else {
        clause_terms(clauses, (n - 1) as nat, factor) + scored_terms(clauses[n - 1].node, factor)
    }
}

proof fn clause_terms_prefix(a: Seq<Clause>, b: Seq<Clause>, n: nat, factor: nat)
    requires
        n <= a.len() <= b.len(),
        forall|i: int| 0 <= i < a.len() ==> a[i] == b[i],
    ensures
        clause_terms(a, n, factor) == clause_terms(b, n, factor),
    decreases n,
{
    if n > 0 {
        clause_terms_prefix(a, b, (n - 1) as nat, factor);
    }
}

proof fn clause_terms_push(clauses: Seq<Clause>, clause: Clause, factor: nat)
    ensures
        clause_terms(clauses.push(clause), (clauses.len() + 1) as nat, factor) == clause_terms(clauses, clauses.len(), factor) + scored_terms(
            clause.node,
            factor,
        ),
{
    clause_terms_prefix(clauses, clauses.push(clause), clauses.len(), factor);
}

/// A document matches one token of a query.
pub open spec fn token_hits(doc: DocView, field: MatchField, token: Seq<char>) -> bool {
    match field {
        MatchField::All => doc.text.contains(token) || doc.name.contains(token),
        MatchField::Text => doc.text.contains(token),
        MatchField::Name => doc.name.contains(token),
        MatchField::Path => doc.path.contains(token),
    }
}

/// A document is relevant: it matches every token, or any where the query is not strict. No token
/// makes nothing relevant.
pub open spec fn relevant(doc: DocView, tokens: Seq<Seq<char>>, strict: bool, field: MatchField) -> bool {
    if strict {
        tokens.len() > 0 && forall|i: int| 0 <= i < tokens.len() ==> token_hits(doc, field, #[trigger] tokens[i])
    } else {
        exists|i: int| 0 <= i < tokens.len() && token_hits(doc, field, #[trigger] tokens[i])
    }
}

/// A document lies in the range of a query.
pub open spec fn in_range(doc: DocView, f: IndexFilter) -> bool {
    &&& doc.namespace == f.namespace
    &&& f.scopes@.contains(doc.scope)
    &&& f.kinds@.len() > 0 ==> f.kinds@.contains(doc.kind)
    &&& forall|i: int| 0 <= i < f.tags@.len() ==> doc.tags.contains(#[trigger] f.tags@[i])
    &&& f.note_ids@.len() > 0 ==> (doc.note matches Some(note) && f.note_ids@.contains(note))
}

/// The terms of one token.
pub open spec fn token_terms(field: MatchField, token: Seq<char>) -> Seq<ScoredTerm> {
    match field {
        MatchField::All => seq![
            ScoredTerm { column: Column::Text, token, factor: 1 },
            ScoredTerm { column: Column::Name, token, factor: 1 },
        ],
        MatchField::Text => seq![ScoredTerm { column: Column::Text, token, factor: 1 }],
        MatchField::Name => seq![ScoredTerm { column: Column::Name, token, factor: 1 }],
        MatchField::Path => seq![ScoredTerm { column: Column::Path, token, factor: 1 }],
    }
}

/// The terms of the first `n` tokens.
pub open spec fn hit_terms(tokens: Seq<Seq<char>>, n: nat, field: MatchField) -> Seq<ScoredTerm>
    decreases n,
{
    if n == 0 || n > tokens.len() {
        Seq::empty()
    } else {
        hit_terms(tokens, (n - 1) as nat, field) + token_terms(field, tokens[n - 1])
    }
}

/// The terms that lift a record whose name is hit.
pub open spec fn name_terms(tokens: Seq<Seq<char>>, factor: nat) -> Seq<ScoredTerm> {
    Seq::new(tokens.len(), |i: int| ScoredTerm { column: Column::Name, token: tokens[i], factor })
}

/// The terms that a query is scored by: each token where it is looked for, and once more, lifted,
/// in the name where all columns count.
pub open spec fn query_score(tokens: Seq<Seq<char>>, field: MatchField) -> Seq<ScoredTerm> {
    hit_terms(tokens, tokens.len(), field) + (if field == MatchField::All {
        name_terms(tokens, NAME_FIELD_BOOST as nat)
    } else {
        Seq::empty()
    })
}

/// One token, in the columns where it counts.
fn token_node(field: MatchField, token: &String) -> (out: Node)
    ensures
        forall|doc: DocView| #[trigger] matches(out, doc) <==> token_hits(doc, field, token@),
        scored_terms(out, 1) == token_terms(field, token@),
{
    match field {
        MatchField::All => {
            let clauses = vec![
                Clause { occur: Occur::Should, node: Node::Term(Column::Text, token.clone()) },
                Clause { occur: Occur::Should, node: Node::Term(Column::Name, token.clone()) },
            ];
            let ghost list = clauses@;
            let out = Node::Group(clauses);
            proof {
                assert(list.len() == 2);
                assert forall|doc: DocView| #[trigger] matches(out, doc) <==> token_hits(doc, field, token@) by {
                    assert(matches(list[0].node, doc) == doc.text.contains(token@));
                    assert(matches(list[1].node, doc) == doc.name.contains(token@));
                }
                reveal_with_fuel(clause_terms, 3);
                assert(scored_terms(out, 1) == clause_terms(list, 2, 1));
                assert(scored_terms(list[0].node, 1) == seq![ScoredTerm { column: Column::Text, token: token@, factor: 1 }]);
                assert(scored_terms(list[1].node, 1) == seq![ScoredTerm { column: Column::Name, token: token@, factor: 1 }]);
                assert(clause_terms(list, 2, 1) == token_terms(field, token@));
            }
            out
        },
        MatchField::Text => Node::Term(Column::Text, token.clone()),
        MatchField::Name => Node::Term(Column::Name, token.clone()),
        MatchField::Path => Node::Term(Column::Path, token.clone()),
    }
}

/// All tokens of a query, every one of them needed or one enough.
fn hit_node(tokens: &Vec<String>, strict: bool, field: MatchField) -> (out: Node)
    ensures
        forall|doc: DocView| #[trigger] matches(out, doc) <==> relevant(doc, chars::texts(tokens@), strict, field),
        scored_terms(out, 1) == hit_terms(chars::texts(tokens@), tokens@.len(), field),
{
    let occur = if strict { Occur::Must } else { Occur::Should };
    let ghost all = chars::texts(tokens@);
    let mut clauses: Vec<Clause> = Vec::new();
    let mut i: usize = 0;
    while i < tokens.len()
        invariant
            i <= tokens.len(),
            all == chars::texts(tokens@),
            clauses.len() == i,
            occur == (if strict { Occur::Must } else { Occur::Should }),
            forall|k: int| 0 <= k < i ==> (#[trigger] clauses@[k]).occur == occur,
            forall|k: int, doc: DocView|
                0 <= k < i ==> (#[trigger] matches((#[trigger] clauses@[k]).node, doc) <==> token_hits(doc, field, all[k])),
            clause_terms(clauses@, clauses@.len(), 1) == hit_terms(all, i as nat, field),
        decreases tokens.len() - i,
    {
        let ghost before = clauses@;
        let node = token_node(field, &tokens[i]);
        let clause = Clause { occur, node };
        proof {
            clause_terms_push(before, clause, 1);
        }
        clauses.push(clause);
        proof {
            assert forall|k: int, doc: DocView|
                0 <= k < i + 1 implies (#[trigger] matches((#[trigger] clauses@[k]).node, doc) <==> token_hits(doc, field, all[k])) by {
                if k < i {
                    assert(clauses@[k] == before[k]);
                }
            }
            assert forall|k: int| 0 <= k < i + 1 implies (#[trigger] clauses@[k]).occur == occur by {
                if k < i {
                    assert(clauses@[k] == before[k]);
                }
            }
        }
        i = i + 1;
    }
    let ghost list = clauses@;
    let out = Node::Group(clauses);
    proof {
        assert forall|doc: DocView| #[trigger] matches(out, doc) <==> relevant(doc, all, strict, field) by {
            if strict {
                if relevant(doc, all, strict, field) {
                    assert forall|k: int| 0 <= k < list.len() implies matches((#[trigger] list[k]).node, doc) by {
                        assert(token_hits(doc, field, all[k]));
                    }
                    assert(list[0].occur == Occur::Must);
                }
                if matches(out, doc) {
                    let w = choose|w: int| #![trigger list[w]] 0 <= w < list.len() && (list[w].occur == Occur::Must || matches(list[w].node, doc));
                    assert forall|k: int| 0 <= k < all.len() implies token_hits(doc, field, #[trigger] all[k]) by {
                        assert(list[k].occur == Occur::Must);
                        assert(matches(list[k].node, doc));
                    }
                }
            } else {
                if relevant(doc, all, strict, field) {
                    let k = choose|k: int| 0 <= k < all.len() && token_hits(doc, field, #[trigger] all[k]);
                    assert(matches(list[k].node, doc));
                }
                if matches(out, doc) {
                    let w = choose|w: int| #![trigger list[w]] 0 <= w < list.len() && (list[w].occur == Occur::Must || matches(list[w].node, doc));
                    assert(token_hits(doc, field, all[w]));
                }
            }
        }
        assert(scored_terms(out, 1) == clause_terms(list, list.len(), 1));
    }
    out
}

/// The tokens in the name, one enough.
fn name_node(tokens: &Vec<String>) -> (out: Node)
    ensures
        forall|factor: nat| #[trigger] scored_terms(out, factor) == name_terms(chars::texts(tokens@), factor),
{
    let ghost all = chars::texts(tokens@);
    let mut clauses: Vec<Clause> = Vec::new();
    let mut i: usize = 0;
    while i < tokens.len()
        invariant
            i <= tokens.len(),
            all == chars::texts(tokens@),
            clauses.len() == i,
            forall|factor: nat| #[trigger] clause_terms(clauses@, clauses@.len(), factor) == name_terms(all.take(i as int), factor),
        decreases tokens.len() - i,
    {
        let ghost before = clauses@;
        let clause = Clause { occur: Occur::Should, node: Node::Term(Column::Name, tokens[i].clone()) };
        let ghost pushed = clause;
        clauses.push(clause);
        proof {
            assert forall|factor: nat| #[trigger] clause_terms(clauses@, clauses@.len(), factor) == name_terms(all.take(i + 1), factor) by {
                clause_terms_push(before, pushed, factor);
                assert(clause_terms(before, before.len(), factor) == name_terms(all.take(i as int), factor));
                assert(name_terms(all.take(i + 1), factor) == name_terms(all.take(i as int), factor) + seq![
                    ScoredTerm { column: Column::Name, token: all[i as int], factor },
                ]);
            }
        }
        i = i + 1;
    }
    assert(all.take(all.len() as int) == all);
    let ghost list = clauses@;
    let out = Node::Group(clauses);
    proof {
        assert forall|factor: nat| #[trigger] scored_terms(out, factor) == name_terms(all, factor) by {
            assert(clause_terms(list, list.len(), factor) == name_terms(all, factor));
        }
    }
    out
}

/// What makes a document relevant, with the lift of the name where all columns count.
fn relevance_node(tokens: &Vec<String>, strict: bool, field: MatchField) -> (out: Node)
    ensures
        forall|doc: DocView| #[trigger] matches(out, doc) <==> relevant(doc, chars::texts(tokens@), strict, field),
        scored_terms(out, 1) == query_score(chars::texts(tokens@), field),
{
    let hit = hit_node(tokens, strict, field);
    if field != MatchField::All {
        assert(query_score(chars::texts(tokens@), field) == hit_terms(chars::texts(tokens@), tokens@.len(), field));
        return hit;
    }
    let ghost inner = hit;
    let names = name_node(tokens);
    let ghost lifted = names;
    let clauses = vec![
        Clause { occur: Occur::Must, node: hit },
        Clause { occur: Occur::Should, node: Node::Boosted(Box::new(names)) },
    ];
    let ghost list = clauses@;
    let out = Node::Group(clauses);
    proof {
        assert(list.len() == 2);
        assert(list[0].node == inner && list[0].occur == Occur::Must);
        assert(list[1].occur == Occur::Should);
        assert forall|doc: DocView| #[trigger] matches(out, doc) <==> relevant(doc, chars::texts(tokens@), strict, field) by {
            assert(matches(list[0].node, doc) <==> relevant(doc, chars::texts(tokens@), strict, field));
        }
        reveal_with_fuel(clause_terms, 3);
        assert(clause_terms(list, 2, 1) == scored_terms(list[0].node, 1) + scored_terms(list[1].node, 1));
        assert(scored_terms(list[1].node, 1) == scored_terms(lifted, NAME_FIELD_BOOST as nat));
    }
    out
}

/// One of the ids, without a score.
fn any_id_node(column: IdColumn, ids: &Vec<i64>) -> (out: Node)
    ensures
        forall|doc: DocView| #[trigger]
            matches(out, doc) <==> exists|i: int| 0 <= i < ids@.len() && holds_id(doc, column, #[trigger] ids@[i]),
        scored_terms(out, 1) == Seq::<ScoredTerm>::empty(),
{
    let mut clauses: Vec<Clause> = Vec::new();
    let mut i: usize = 0;
    while i < ids.len()
        invariant
            i <= ids.len(),
            clauses.len() == i,
            forall|k: int| 0 <= k < i ==> (#[trigger] clauses@[k]).occur == Occur::Should && clauses@[k].node == Node::Exact(column, ids@[k]),
        decreases ids.len() - i,
    {
        clauses.push(Clause { occur: Occur::Should, node: Node::Exact(column, ids[i]) });
        i = i + 1;
    }
    let ghost list = clauses@;
    let group = Node::Group(clauses);
    let ghost inner = group;
    let out = Node::Unscored(Box::new(group));
    proof {
        assert forall|doc: DocView| #[trigger]
            matches(out, doc) <==> exists|i: int| 0 <= i < ids@.len() && holds_id(doc, column, #[trigger] ids@[i]) by {
            assert(matches(out, doc) == matches(inner, doc));
            if matches(inner, doc) {
                let w = choose|w: int| #![trigger list[w]] 0 <= w < list.len() && (list[w].occur == Occur::Must || matches(list[w].node, doc));
                assert(holds_id(doc, column, ids@[w]));
            }
            if exists|i: int| 0 <= i < ids@.len() && holds_id(doc, column, #[trigger] ids@[i]) {
                let k = choose|k: int| 0 <= k < ids@.len() && holds_id(doc, column, #[trigger] ids@[k]);
                assert(matches(list[k].node, doc));
            }
        }
    }
    out
}

/// All clauses are needed, match what `wanted` says of each, and only the first has a score.
spec fn needed(clauses: Seq<Clause>, doc: DocView) -> bool {
    forall|k: int| 0 <= k < clauses.len() ==> matches((#[trigger] clauses[k]).node, doc)
}

/// Adds a condition that has no score.
fn push_condition(clauses: &mut Vec<Clause>, node: Node)
    requires
        forall|k: int| 0 <= k < old(clauses)@.len() ==> (#[trigger] old(clauses)@[k]).occur == Occur::Must,
        scored_terms(node, 1) == Seq::<ScoredTerm>::empty(),
    ensures
        final(clauses)@.len() == old(clauses)@.len() + 1,
        forall|k: int| 0 <= k < final(clauses)@.len() ==> (#[trigger] final(clauses)@[k]).occur == Occur::Must,
        forall|doc: DocView| #[trigger] needed(final(clauses)@, doc) <==> needed(old(clauses)@, doc) && matches(node, doc),
        clause_terms(final(clauses)@, final(clauses)@.len(), 1) == clause_terms(old(clauses)@, old(clauses)@.len(), 1),
{
    let ghost before = clauses@;
    let clause = Clause { occur: Occur::Must, node };
    let ghost pushed = clause;
    clauses.push(clause);
    proof {
        let after = clauses@;
        clause_terms_push(before, pushed, 1);
        assert(clause_terms(before, before.len(), 1) + Seq::<ScoredTerm>::empty() == clause_terms(before, before.len(), 1));
        assert forall|doc: DocView| #[trigger] needed(after, doc) <==> needed(before, doc) && matches(node, doc) by {
            if needed(after, doc) {
                assert forall|k: int| 0 <= k < before.len() implies matches((#[trigger] before[k]).node, doc) by {
                    assert(after[k] == before[k]);
                }
                assert(after[before.len() as int].node == node);
            }
            if needed(before, doc) && matches(node, doc) {
                assert forall|k: int| 0 <= k < after.len() implies matches((#[trigger] after[k]).node, doc) by {
                    if k < before.len() {
                        assert(after[k] == before[k]);
                    }
                }
            }
        }
    }
}

/// The token stands in a column that the search looks at: a search over everything looks at text
/// and name.
pub open spec fn stands_in(doc: DocView, field: MatchField, token: Seq<char>) -> bool {
    ||| (field == MatchField::All || field == MatchField::Text) && doc.text.contains(token)
    ||| (field == MatchField::All || field == MatchField::Name) && doc.name.contains(token)
    ||| field == MatchField::Path && doc.path.contains(token)
}

/// A document is asked for: it lies in the filter's namespace and in one of its scopes, has a wanted
/// kind and all wanted tags, belongs to a wanted note, and holds all tokens of a strict search, or
/// one of another.
pub open spec fn asked_for(doc: DocView, tokens: Seq<Seq<char>>, strict: bool, f: IndexFilter, field: MatchField) -> bool {
    &&& doc.namespace == f.namespace
    &&& exists|i: int| 0 <= i < f.scopes@.len() && #[trigger] f.scopes@[i] == doc.scope
    &&& f.kinds@.len() == 0 || exists|i: int| 0 <= i < f.kinds@.len() && #[trigger] f.kinds@[i] == doc.kind
    &&& f.note_ids@.len() == 0 || exists|i: int| 0 <= i < f.note_ids@.len() && doc.note == Some(#[trigger] f.note_ids@[i])
    &&& forall|i: int| 0 <= i < f.tags@.len() ==> doc.tags.contains(#[trigger] f.tags@[i])
    &&& exists|i: int| 0 <= i < tokens.len() && stands_in(doc, field, #[trigger] tokens[i])
    &&& strict ==> forall|i: int| 0 <= i < tokens.len() ==> stands_in(doc, field, #[trigger] tokens[i])
}

/// A search finds exactly what is asked for.
pub proof fn what_is_asked_for(doc: DocView, tokens: Seq<Seq<char>>, strict: bool, f: IndexFilter, field: MatchField)
    ensures
        (relevant(doc, tokens, strict, field) && in_range(doc, f)) == asked_for(doc, tokens, strict, f, field),
{
    assert forall|i: int| 0 <= i < tokens.len() implies token_hits(doc, field, #[trigger] tokens[i]) == stands_in(doc, field, tokens[i]) by {}
    if relevant(doc, tokens, strict, field) && in_range(doc, f) {
        if strict {
            assert(stands_in(doc, field, tokens[0]));
        } else {
            let i = choose|i: int| 0 <= i < tokens.len() && token_hits(doc, field, #[trigger] tokens[i]);
            assert(stands_in(doc, field, tokens[i]));
        }
        if f.note_ids@.len() > 0 {
            let k = choose|k: int| 0 <= k < f.note_ids@.len() && f.note_ids@[k] == doc.note->0;
            assert(doc.note == Some(f.note_ids@[k]));
        }
    }
    if asked_for(doc, tokens, strict, f, field) {
        let i = choose|i: int| 0 <= i < tokens.len() && stands_in(doc, field, #[trigger] tokens[i]);
        assert(token_hits(doc, field, tokens[i]));
    }
}

/// Every token counts in each column that is searched. Where everything is searched, a token in the
/// name counts once more, three times as much.
pub proof fn names_count_more(tokens: Seq<Seq<char>>, field: MatchField)
    ensures
        ({
            let q = query_score(tokens, field);
            let n = tokens.len() as int;
            &&& field == MatchField::All ==> {
                &&& q.len() == 3 * n
                &&& forall|i: int|
                    0 <= i < n ==> {
                        let t = #[trigger] tokens[i];
                        &&& q[2 * i] == (ScoredTerm { column: Column::Text, token: t, factor: 1 })
                        &&& q[2 * i + 1] == (ScoredTerm { column: Column::Name, token: t, factor: 1 })
                        &&& q[2 * n + i] == (ScoredTerm { column: Column::Name, token: t, factor: 3 })
                    }
            }
            &&& field != MatchField::All ==> {
                &&& q.len() == n
                &&& forall|i: int|
                    0 <= i < n ==> {
                        let c = if field == MatchField::Text {
                            Column::Text
                        } else if field == MatchField::Name {
                            Column::Name
                        } else {
                            Column::Path
                        };
                        q[i] == (ScoredTerm { column: c, token: #[trigger] tokens[i], factor: 1 })
                    }
            }
        }),
{
    hits_in_order(tokens, tokens.len(), field);
}

proof fn hits_in_order(tokens: Seq<Seq<char>>, n: nat, field: MatchField)
    requires
        n <= tokens.len(),
    ensures
        ({
            let q = hit_terms(tokens, n, field);
            &&& field == MatchField::All ==> {
                &&& q.len() == 2 * n
                &&& forall|i: int|
                    0 <= i < n ==> {
                        let t = #[trigger] tokens[i];
                        &&& q[2 * i] == (ScoredTerm { column: Column::Text, token: t, factor: 1 })
                        &&& q[2 * i + 1] == (ScoredTerm { column: Column::Name, token: t, factor: 1 })
                    }
            }
            &&& field != MatchField::All ==> {
                &&& q.len() == n
                &&& forall|i: int|
                    0 <= i < n ==> {
                        let c = if field == MatchField::Text {
                            Column::Text
                        } else if field == MatchField::Name {
                            Column::Name
                        } else {
                            Column::Path
                        };
                        q[i] == (ScoredTerm { column: c, token: #[trigger] tokens[i], factor: 1 })
                    }
            }
        }),
    decreases n,
{
    if n > 0 {
        hits_in_order(tokens, (n - 1) as nat, field);
    }
}

/// The query for the documents that are relevant and lie in a range. Relevance and range are two
/// layers: in one group with conditions that must hold, tokens that should match would only add to
/// the score, and the range alone would decide what is found.
pub fn filtered_query(tokens: &Vec<String>, strict: bool, filter: &IndexFilter, field: MatchField) -> (out: Node)
    ensures
        forall|doc: DocView| #[trigger]
            matches(out, doc) <==> relevant(doc, chars::texts(tokens@), strict, field) && in_range(doc, *filter),
        scored_terms(out, 1) == query_score(chars::texts(tokens@), field),
        forall|doc: DocView| #[trigger] matches(out, doc) <==> asked_for(doc, chars::texts(tokens@), strict, *filter, field),
{
    proof {
        assert forall|doc: DocView|
            (relevant(doc, chars::texts(tokens@), strict, field) && in_range(doc, *filter)) == #[trigger] asked_for(
                doc,
                chars::texts(tokens@),
                strict,
                *filter,
                field,
            ) by {
            what_is_asked_for(doc, chars::texts(tokens@), strict, *filter, field);
        }
    }
    let ghost all = chars::texts(tokens@);
    let relevance = relevance_node(tokens, strict, field);
    let ghost first = relevance;
    let mut clauses: Vec<Clause> = Vec::new();
    clauses.push(Clause { occur: Occur::Must, node: relevance });
    proof {
        assert(clauses@ == seq![Clause { occur: Occur::Must, node: first }]);
        reveal_with_fuel(clause_terms, 2);
        assert(clause_terms(clauses@, 1, 1) == query_score(all, field));
        assert forall|doc: DocView| #[trigger] needed(clauses@, doc) <==> relevant(doc, all, strict, field) by {
            assert(clauses@[0].node == first);
        }
    }
    let namespace = Node::Unscored(Box::new(Node::Exact(IdColumn::Namespace, filter.namespace)));
    assert(forall|doc: DocView| #[trigger] matches(namespace, doc) <==> doc.namespace == filter.namespace) by {
        reveal_with_fuel(matches, 3);
    }
    push_condition(&mut clauses, namespace);
    let scopes = any_id_node(IdColumn::Scope, &filter.scopes);
    assert(forall|doc: DocView| #[trigger] matches(scopes, doc) <==> filter.scopes@.contains(doc.scope));
    push_condition(&mut clauses, scopes);
    if filter.kinds.len() > 0 {
        let kinds = any_id_node(IdColumn::Kind, &filter.kinds);
        assert(forall|doc: DocView| #[trigger] matches(kinds, doc) <==> filter.kinds@.contains(doc.kind));
        push_condition(&mut clauses, kinds);
    }
    let mut i: usize = 0;
    while i < filter.tags.len()
        invariant
            i <= filter.tags.len(),
            all == chars::texts(tokens@),
            clauses@.len() > 0,
            forall|k: int| 0 <= k < clauses@.len() ==> (#[trigger] clauses@[k]).occur == Occur::Must,
            forall|doc: DocView| #[trigger]
                needed(clauses@, doc) <==> relevant(doc, all, strict, field) && doc.namespace == filter.namespace && filter.scopes@.contains(
                    doc.scope,
                ) && (filter.kinds@.len() > 0 ==> filter.kinds@.contains(doc.kind)) && forall|k: int|
                    0 <= k < i ==> doc.tags.contains(#[trigger] filter.tags@[k]),
            clause_terms(clauses@, clauses@.len(), 1) == query_score(all, field),
        decreases filter.tags.len() - i,
    {
        let tag = Node::Unscored(Box::new(Node::Exact(IdColumn::Tags, filter.tags[i])));
        assert(forall|doc: DocView| #[trigger] matches(tag, doc) <==> doc.tags.contains(filter.tags@[i as int])) by {
            reveal_with_fuel(matches, 3);
        }
        push_condition(&mut clauses, tag);
        i = i + 1;
    }
    if filter.note_ids.len() > 0 {
        let notes = any_id_node(IdColumn::Note, &filter.note_ids);
        assert(forall|doc: DocView| #[trigger]
            matches(notes, doc) <==> (doc.note matches Some(note) && filter.note_ids@.contains(note)));
        push_condition(&mut clauses, notes);
    }
    let ghost list = clauses@;
    let out = Node::Group(clauses);
    proof {
        assert forall|doc: DocView| #[trigger] matches(out, doc) <==> relevant(doc, all, strict, field) && in_range(doc, *filter) by {
            assert(list[0].occur == Occur::Must);
            if matches(out, doc) {
                assert forall|k: int| 0 <= k < list.len() implies matches((#[trigger] list[k]).node, doc) by {
                    assert(list[k].occur == Occur::Must);
                }
                assert(needed(list, doc));
            }
            if needed(list, doc) {
                assert(matches(out, doc));
            }
        }
        assert(scored_terms(out, 1) == clause_terms(list, list.len(), 1));
    }
    out
}

/// Domains and agents are kept apart: a document that one range holds is outside every range of
/// another namespace, and outside every range that names none of the same scopes.
pub proof fn ranges_are_apart(doc: DocView, one: IndexFilter, other: IndexFilter)
    requires
        in_range(doc, one),
        one.namespace != other.namespace || forall|scope: i64| one.scopes@.contains(scope) ==> !#[trigger] other.scopes@.contains(scope),
    ensures
        !in_range(doc, other),
{
}

/// A document that no token of the query hits is never found, whatever the range.
pub proof fn nothing_relevant_nothing_found(doc: DocView, tokens: Seq<Seq<char>>, strict: bool, field: MatchField)
    requires
        forall|i: int| 0 <= i < tokens.len() ==> !token_hits(doc, field, #[trigger] tokens[i]),
    ensures
        !relevant(doc, tokens, strict, field),
{
    if strict && tokens.len() > 0 {
        assert(!token_hits(doc, field, tokens[0]));
    }
}

/// What the strict terms of a query find, its loose terms find too, as long as it has any: so that
/// counting the loose matches counts both.
pub proof fn strict_matches_are_loose(doc: DocView, tokens: Seq<Seq<char>>, field: MatchField)
    requires
        relevant(doc, text::kept_terms(tokens, true), true, field),
        text::kept_terms(tokens, false).len() > 0,
    ensures
        relevant(doc, text::kept_terms(tokens, false), false, field),
{
    let strict = text::kept_terms(tokens, true);
    let loose = text::kept_terms(tokens, false);
    text::kept_terms_are_distinct_tokens(tokens, true);
    text::kept_terms_are_distinct_tokens(tokens, false);
    assert(loose.contains(loose[0]));
    assert(strict.contains(loose[0]));
    let k = choose|k: int| 0 <= k < strict.len() && strict[k] == loose[0];
    assert(token_hits(doc, field, strict[k]));
}

// ── Strict before loose ───────────────────────────────────────────────

/// The ids of a list.
pub open spec fn ids_of(list: Seq<Scored>) -> Set<i64> {
    Set::new(|id: i64| exists|i: int| 0 <= i < list.len() && (#[trigger] list[i]).id == id)
}

/// The members of a list that `seen` does not hold, each id once.
pub open spec fn fresh(list: Seq<Scored>, seen: Set<i64>) -> Seq<Scored>
    decreases list.len(),
{
    if list.len() == 0 {
        list
    } else {
        let before = fresh(list.drop_last(), seen);
        if seen.contains(list.last().id) || ids_of(list.drop_last()).contains(list.last().id) {
            before
        } else {
            before.push(list.last())
        }
    }
}

/// The hits of the strict pass, each once, before those that only the loose pass has; each pass in
/// rank order, and no more than `limit` in all.
pub open spec fn passes_merged(strict: Seq<Scored>, loose: Seq<Scored>, limit: int) -> Seq<Scored> {
    let all = ranking::ranked(fresh(strict, Set::empty())) + ranking::ranked(fresh(loose, ids_of(strict)));
    if all.len() <= limit {
        all
    } else {
        all.take(limit)
    }
}

/// What is fresh of a list: the first hit of each id that was not seen before, in order.
pub proof fn fresh_are_first(list: Seq<Scored>, seen: Set<i64>)
    ensures
        forall|id: i64| #[trigger] ids_of(fresh(list, seen)).contains(id) <==> ids_of(list).contains(id) && !seen.contains(id),
        forall|x: Scored| #[trigger] fresh(list, seen).contains(x) ==> list.contains(x) && !seen.contains(x.id),
        forall|i: int, j: int| 0 <= i < j < fresh(list, seen).len() ==> (#[trigger] fresh(list, seen)[i]).id != (#[trigger] fresh(list, seen)[j]).id,
    decreases list.len(),
{
    if list.len() > 0 {
        let rest = list.drop_last();
        let last = list.last();
        let before = fresh(rest, seen);
        let all = fresh(list, seen);
        fresh_are_first(rest, seen);
        assert(list[list.len() - 1] == last);
        assert forall|id: i64| #[trigger] ids_of(all).contains(id) <==> ids_of(list).contains(id) && !seen.contains(id) by {
            assert(ids_of(before).contains(id) <==> ids_of(rest).contains(id) && !seen.contains(id));
            if ids_of(rest).contains(id) {
                let k = choose|k: int| 0 <= k < rest.len() && (#[trigger] rest[k]).id == id;
                assert(list[k].id == id);
            }
            if ids_of(list).contains(id) && id != last.id {
                let k = choose|k: int| 0 <= k < list.len() && (#[trigger] list[k]).id == id;
                assert(rest[k].id == id);
            }
            if ids_of(before).contains(id) {
                let k = choose|k: int| 0 <= k < before.len() && (#[trigger] before[k]).id == id;
                assert(all[k].id == id);
            }
            if ids_of(all).contains(id) && !ids_of(before).contains(id) {
                let k = choose|k: int| 0 <= k < all.len() && (#[trigger] all[k]).id == id;
                if k < before.len() {
                    assert(before[k].id == id);
                }
                assert(id == last.id);
                assert(list[list.len() - 1].id == id);
            }
            if id == last.id && !seen.contains(id) && !ids_of(rest).contains(id) {
                assert(all[before.len() as int].id == id);
            }
            if id == last.id {
                assert(list[list.len() - 1].id == id);
            }
        }
        assert forall|x: Scored| #[trigger] all.contains(x) implies list.contains(x) && !seen.contains(x.id) by {
            let k = choose|k: int| 0 <= k < all.len() && all[k] == x;
            if k < before.len() {
                assert(before[k] == x);
                assert(before.contains(x));
                let j = choose|j: int| 0 <= j < rest.len() && rest[j] == x;
                assert(list[j] == x);
            }
        }
        assert forall|i: int, j: int| 0 <= i < j < all.len() implies (#[trigger] all[i]).id != (#[trigger] all[j]).id by {
            assert(all[i] == before[i]);
            if j < before.len() {
                assert(all[j] == before[j]);
            } else {
                assert(before[i].id == all[i].id);
                assert(ids_of(before).contains(all[i].id));
            }
        }
    }
}

/// Hits of two passes are rightly merged: first those of the strict pass by rank, then those that
/// only the loose pass has by rank, no id twice, and not more than were asked for.
pub open spec fn well_merged(strict: Seq<Scored>, loose: Seq<Scored>, limit: int, out: Seq<Scored>) -> bool {
    &&& out.len() <= limit
    &&& forall|i: int|
        0 <= i < out.len() ==> (strict.contains(#[trigger] out[i]) || loose.contains(out[i]) && !ids_of(strict).contains(out[i].id))
    &&& forall|i: int, j: int| 0 <= i < j < out.len() ==> (#[trigger] out[i]).id != (#[trigger] out[j]).id
    &&& forall|i: int, j: int|
        0 <= i < j < out.len() && ids_of(strict).contains((#[trigger] out[j]).id) ==> ids_of(strict).contains((#[trigger] out[i]).id)
            && !ranking::better(out[j], out[i])
    &&& forall|i: int, j: int|
        0 <= i < j < out.len() && !ids_of(strict).contains((#[trigger] out[i]).id) ==> !ranking::better(#[trigger] out[j], out[i])
    &&& out.len() < limit ==> forall|id: i64| #[trigger] ids_of(out).contains(id) <==> ids_of(strict).contains(id) || ids_of(loose).contains(id)
}

proof fn ranked_members(list: Seq<Scored>)
    ensures
        forall|x: Scored| #[trigger] ranking::ranked(list).contains(x) <==> list.contains(x),
        ranking::in_rank_order(ranking::ranked(list)),
        ranking::ranked(list).len() == list.len(),
{
    ranking::ranked_is_ordered(list);
    assert forall|x: Scored| #[trigger] ranking::ranked(list).contains(x) <==> list.contains(x) by {
        vstd::seq_lib::to_multiset_contains(ranking::ranked(list), x);
        vstd::seq_lib::to_multiset_contains(list, x);
    }
}

proof fn ranked_stay_distinct(list: Seq<Scored>)
    requires
        forall|i: int, j: int| 0 <= i < j < list.len() ==> (#[trigger] list[i]).id != (#[trigger] list[j]).id,
    ensures
        forall|i: int, j: int|
            0 <= i < j < ranking::ranked(list).len() ==> (#[trigger] ranking::ranked(list)[i]).id != (#[trigger] ranking::ranked(list)[j]).id,
{
    let out = ranking::ranked(list);
    ranking::ranked_is_ordered(list);
    assert(list.no_duplicates()) by {
        assert forall|i: int, j: int| 0 <= i < list.len() && 0 <= j < list.len() && i != j implies list[i] != list[j] by {
            if i < j {
                assert(list[i].id != list[j].id);
            } else {
                assert(list[j].id != list[i].id);
            }
        }
    }
    list.lemma_multiset_has_no_duplicates();
    assert(out.no_duplicates()) by {
        assert forall|x: Scored| out.to_multiset().contains(x) implies out.to_multiset().count(x) == 1 by {}
        out.lemma_multiset_has_no_duplicates_conv();
    }
    assert forall|i: int, j: int| 0 <= i < j < out.len() implies (#[trigger] out[i]).id != (#[trigger] out[j]).id by {
        ranked_members(list);
        assert(out.contains(out[i]) && out.contains(out[j]));
        let a = choose|a: int| 0 <= a < list.len() && list[a] == out[i];
        let b = choose|b: int| 0 <= b < list.len() && list[b] == out[j];
        if out[i].id == out[j].id {
            if a < b {
                assert(list[a].id != list[b].id);
            } else if b < a {
                assert(list[b].id != list[a].id);
            } else {
                assert(out[i] == out[j]);
            }
        }
    }
}

/// Two passes are always rightly merged.
pub proof fn merging_is_right(strict: Seq<Scored>, loose: Seq<Scored>, limit: int)
    requires
        limit >= 0,
    ensures
        well_merged(strict, loose, limit, passes_merged(strict, loose, limit)),
{
    let none = Set::<i64>::empty();
    let a = fresh(strict, none);
    let b = fresh(loose, ids_of(strict));
    let x = ranking::ranked(a);
    let y = ranking::ranked(b);
    let all = x + y;
    let out = passes_merged(strict, loose, limit);
    fresh_are_first(strict, none);
    fresh_are_first(loose, ids_of(strict));
    ranked_members(a);
    ranked_members(b);
    ranked_stay_distinct(a);
    ranked_stay_distinct(b);
    assert forall|i: int| 0 <= i < x.len() implies strict.contains(#[trigger] x[i]) && ids_of(strict).contains(x[i].id) by {
        assert(x.contains(x[i]));
        assert(a.contains(x[i]));
        let k = choose|k: int| 0 <= k < strict.len() && strict[k] == x[i];
        assert(strict[k].id == x[i].id);
    }
    assert forall|i: int| 0 <= i < y.len() implies loose.contains(#[trigger] y[i]) && !ids_of(strict).contains(y[i].id) by {
        assert(y.contains(y[i]));
        assert(b.contains(y[i]));
    }
    assert forall|i: int| 0 <= i < out.len() implies out[i] == #[trigger] all[i] by {}
    assert forall|i: int| 0 <= i < out.len() implies (strict.contains(#[trigger] out[i]) || loose.contains(out[i]) && !ids_of(strict).contains(
        out[i].id,
    )) by {
        if i < x.len() {
            assert(out[i] == x[i]);
        } else {
            assert(out[i] == y[i - x.len()]);
        }
    }
    assert forall|i: int, j: int| 0 <= i < j < out.len() implies (#[trigger] out[i]).id != (#[trigger] out[j]).id by {
        if j < x.len() {
            assert(out[i] == x[i] && out[j] == x[j]);
        } else if i < x.len() {
            assert(out[i] == x[i] && out[j] == y[j - x.len()]);
        } else {
            assert(out[i] == y[i - x.len()] && out[j] == y[j - x.len()]);
        }
    }
    assert forall|i: int, j: int| 0 <= i < j < out.len() && ids_of(strict).contains((#[trigger] out[j]).id) implies ids_of(strict).contains((
    #[trigger] out[i]).id) && !ranking::better(out[j], out[i]) by {
        if j >= x.len() {
            assert(out[j] == y[j - x.len()]);
        } else {
            assert(out[i] == x[i] && out[j] == x[j]);
        }
    }
    assert forall|i: int, j: int| 0 <= i < j < out.len() && !ids_of(strict).contains((#[trigger] out[i]).id) implies !ranking::better(
        #[trigger] out[j],
        out[i],
    ) by {
        if i < x.len() {
            assert(out[i] == x[i]);
        } else {
            assert(out[i] == y[i - x.len()] && out[j] == y[j - x.len()]);
        }
    }
    if out.len() < limit {
        assert(out == all);
        assert forall|id: i64| #[trigger] ids_of(out).contains(id) <==> ids_of(strict).contains(id) || ids_of(loose).contains(id) by {
            assert(ids_of(a).contains(id) <==> ids_of(strict).contains(id));
            assert(ids_of(b).contains(id) <==> ids_of(loose).contains(id) && !ids_of(strict).contains(id));
            if ids_of(a).contains(id) {
                let k = choose|k: int| 0 <= k < a.len() && (#[trigger] a[k]).id == id;
                assert(a.contains(a[k]));
                assert(x.contains(a[k]));
                let j = choose|j: int| 0 <= j < x.len() && x[j] == a[k];
                assert(out[j].id == id);
            }
            if ids_of(b).contains(id) {
                let k = choose|k: int| 0 <= k < b.len() && (#[trigger] b[k]).id == id;
                assert(b.contains(b[k]));
                assert(y.contains(b[k]));
                let j = choose|j: int| 0 <= j < y.len() && y[j] == b[k];
                assert(out[x.len() + j] == y[j]);
                assert(out[x.len() + j].id == id);
            }
            if ids_of(out).contains(id) {
                let k = choose|k: int| 0 <= k < out.len() && (#[trigger] out[k]).id == id;
                if k < x.len() {
                    assert(x[k] == out[k]);
                } else {
                    assert(y[k - x.len()] == out[k]);
                    let j = choose|j: int| 0 <= j < loose.len() && loose[j] == out[k];
                    assert(loose[j].id == id);
                }
            }
        }
    }
}

/// The members of a list that `seen` does not hold yet; `seen` then holds them too.
fn take_fresh(list: &Vec<Scored>, seen: &mut HashSet<i64>) -> (out: Vec<Scored>)
    ensures
        out@ == fresh(list@, old(seen)@),
        final(seen)@ == old(seen)@.union(ids_of(list@)),
{
    let ghost start = seen@;
    let mut out: Vec<Scored> = Vec::new();
    let mut i: usize = 0;
    assert(list@.take(0) == Seq::<Scored>::empty());
    assert(seen@ == start.union(ids_of(list@.take(0))));
    while i < list.len()
        invariant
            i <= list.len(),
            out@ == fresh(list@.take(i as int), start),
            seen@ == start.union(ids_of(list@.take(i as int))),
        decreases list.len() - i,
    {
        let ghost before = list@.take(i as int);
        let ghost after = list@.take(i + 1);
        let item = list[i];
        proof {
            assert(after.drop_last() == before);
            assert(ids_of(after) == ids_of(before).insert(item.id)) by {
                assert forall|id: i64| ids_of(after).contains(id) <==> ids_of(before).insert(item.id).contains(id) by {
                    if ids_of(before).contains(id) {
                        let k = choose|k: int| 0 <= k < before.len() && (#[trigger] before[k]).id == id;
                        assert(after[k].id == id);
                    }
                    assert(after[i as int] == item);
                    if ids_of(after).contains(id) {
                        let k = choose|k: int| 0 <= k < after.len() && (#[trigger] after[k]).id == id;
                        if k < i {
                            assert(before[k].id == id);
                        }
                    }
                }
            }
            assert(start.union(ids_of(before)).insert(item.id) == start.union(ids_of(after)));
        }
        if seen.insert(item.id) {
            out.push(item);
        }
        i = i + 1;
    }
    assert(list@.take(list@.len() as int) == list@);
    out
}

/// Whether the loose pass is needed.
pub fn needs_loose_pass(strict_hits: usize, limit: usize) -> (out: bool)
    ensures
        out == (strict_hits < limit),
{
    strict_hits < limit
}

/// Merges the hits of the two passes.
pub fn merge_passes(strict: &Vec<Scored>, loose: &Vec<Scored>, limit: usize) -> (out: Vec<Scored>)
    ensures
        out@ == passes_merged(strict@, loose@, limit as int),
        well_merged(strict@, loose@, limit as int, out@),
{
    proof {
        merging_is_right(strict@, loose@, limit as int);
    }
    let mut seen: HashSet<i64> = HashSet::new();
    let first = take_fresh(strict, &mut seen);
    assert(seen@ == ids_of(strict@));
    let second = take_fresh(loose, &mut seen);
    proof {
        ranking::ranked_is_ordered(first@);
        ranking::ranked_is_ordered(second@);
    }
    let mut out = ranking::best(&first, first.len());
    let mut rest = ranking::best(&second, second.len());
    out.append(&mut rest);
    if out.len() > limit {
        out.truncate(limit);
    }
    out
}

// ── Counting the chunks of notes ──────────────────────────────────────

/// How many matching chunks each of the given notes has.
#[derive(Debug)]
pub struct NoteCounts {
    notes: Vec<i64>,
    counts: Vec<usize>,
}

impl NoteCounts {
    /// The notes that are counted for, in ascending order.
    pub closed spec fn notes(self) -> Seq<i64> {
        self.notes@
    }

    /// The count of the note at a place.
    pub closed spec fn counts(self) -> Seq<usize> {
        self.counts@
    }

    /// One count for each note, and each note once.
    pub closed spec fn wf(self) -> bool {
        self.notes@.len() == self.counts@.len() && query::increasing(self.notes@)
    }

    /// No chunk counted yet.
    pub fn new(targets: &Vec<i64>) -> (out: Self)
        ensures
            out.wf(),
            query::increasing(out.notes()),
            forall|n: i64| #[trigger] out.notes().contains(n) <==> targets@.contains(n),
            out.counts() == Seq::new(out.notes().len(), |i: int| 0usize),
    {
        let notes = ids::sorted_ids(targets);
        let mut counts: Vec<usize> = Vec::new();
        let mut i: usize = 0;
        while i < notes.len()
            invariant
                i <= notes.len(),
                counts@ == Seq::new(i as nat, |k: int| 0usize),
            decreases notes.len() - i,
        {
            counts.push(0);
            assert(counts@ == Seq::new((i + 1) as nat, |k: int| 0usize));
            i = i + 1;
        }
        NoteCounts { notes, counts }
    }

    /// Counts a matching chunk of `note`; one of another note is passed over.
    pub fn collect(&mut self, note: i64)
        requires
            old(self).wf(),
        ensures
            final(self).wf(),
            final(self).notes() == old(self).notes(),
            final(self).counts() == Seq::new(
                old(self).counts().len(),
                |i: int|
                    if old(self).notes()[i] == note {
                        filling::count_sum(old(self).counts()[i], 1)
                    } else {
                        old(self).counts()[i]
                    },
            ),
    {
        let ghost start = *self;
        let found = position_of(&self.notes, note);
        match found {
            Some(at) => {
                let count: usize = filling::add_counts(self.counts[at], 1);
                self.counts.set(at, count);
                assert forall|i: int| 0 <= i < start.counts@.len() && start.notes@[i] == note implies i == at by {
                    if i < at {
                        assert(start.notes@[i] < start.notes@[at as int]);
                    } else if i > at {
                        assert(start.notes@[at as int] < start.notes@[i]);
                    }
                }
            },
            None => {
                assert forall|i: int| 0 <= i < start.counts@.len() implies start.notes@[i] != note by {
                    assert(start.notes@.contains(start.notes@[i]));
                }
            },
        }
        assert(self.counts() == Seq::new(
            start.counts().len(),
            |i: int|
                if start.notes()[i] == note {
                    filling::count_sum(start.counts()[i], 1)
                } else {
                    start.counts()[i]
                },
        ));
    }

    /// Adds the counts that another part of the index gave for the same notes.
    pub fn merge(&mut self, other: &NoteCounts)
        requires
            old(self).wf(),
            other.wf(),
            old(self).notes() == other.notes(),
        ensures
            final(self).wf(),
            final(self).notes() == old(self).notes(),
            final(self).counts() == Seq::new(
                old(self).counts().len(),
                |i: int| filling::count_sum(old(self).counts()[i], other.counts()[i]),
            ),
    {
        let ghost start = self.counts@;
        let mut i: usize = 0;
        while i < self.counts.len()
            invariant
                i <= self.counts.len(),
                self.counts.len() == start.len(),
                self.counts.len() == other.counts.len(),
                self.notes@ == old(self).notes@,
                start == old(self).counts@,
                forall|k: int| 0 <= k < i ==> self.counts@[k] == filling::count_sum(start[k], other.counts@[k]),
                forall|k: int| i <= k < start.len() ==> self.counts@[k] == start[k],
            decreases self.counts.len() - i,
        {
            let sum: usize = filling::add_counts(self.counts[i], other.counts[i]);
            self.counts.set(i, sum);
            i = i + 1;
        }
        assert(self.counts() == Seq::new(start.len(), |i: int| filling::count_sum(start[i], other.counts()[i])));
    }

    /// The count of a note; none for one that is not counted for.
    pub fn count_of(&self, note: i64) -> (out: Option<usize>)
        requires
            self.wf(),
        ensures
            out is Some <==> self.notes().contains(note),
            out matches Some(n) ==> exists|i: int| 0 <= i < self.notes().len() && self.notes()[i] == note && n == self.counts()[i],
    {
        match position_of(&self.notes, note) {
            Some(at) => {
                assert(self.notes()[at as int] == note);
                Some(self.counts[at])
            },
            None => None,
        }
    }
}

/// Where an ascending list holds an id.
fn position_of(list: &Vec<i64>, id: i64) -> (out: Option<usize>)
    requires
        query::increasing(list@),
    ensures
        out is Some <==> list@.contains(id),
        out matches Some(at) ==> at < list.len() && list@[at as int] == id,
{
    let mut low: usize = 0;
    let mut high: usize = list.len();
    while low < high
        invariant
            low <= high <= list.len(),
            query::increasing(list@),
            forall|k: int| 0 <= k < low ==> list@[k] < id,
            forall|k: int| high <= k < list.len() ==> list@[k] > id,
        decreases high - low,
    {
        let middle: usize = low + (high - low) / 2;
        if list[middle] == id {
            assert(list@[middle as int] == id);
            return Some(middle);
        }
        if list[middle] < id {
            assert forall|k: int| 0 <= k < middle + 1 implies list@[k] < id by {
                if k < middle {
                    assert(list@[k] < list@[middle as int]);
                }
            }
            low = middle + 1;
        } else {
            assert forall|k: int| middle <= k < list.len() implies list@[k] > id by {
                if k > middle {
                    assert(list@[middle as int] < list@[k]);
                }
            }
            high = middle;
        }
    }
    None
}

// ── Following the records ─────────────────────────────────────────────

/// The members of `a` that `b` lacks, in order.
pub open spec fn difference(a: Seq<i64>, b: Set<i64>) -> Seq<i64>
    decreases a.len(),
{
    if a.len() == 0 {
        a
    } else if b.contains(a.last()) {
        difference(a.drop_last(), b)
    } else {
        difference(a.drop_last(), b).push(a.last())
    }
}

/// What is missing of a list is told item by item, in its order.
pub proof fn difference_goes_in_order(a: Seq<i64>, b: Seq<i64>, x: i64, set: Set<i64>)
    ensures
        difference(a + b, set) == difference(a, set) + difference(b, set),
        difference(seq![x], set) == (if set.contains(x) { Seq::empty() } else { seq![x] }),
        difference(Seq::empty(), set) == Seq::<i64>::empty(),
    decreases b.len(),
{
    reveal_with_fuel(difference, 2);
    assert(seq![x].drop_last() == Seq::<i64>::empty());
    if b.len() == 0 {
        assert(a + b == a);
    } else {
        difference_goes_in_order(a, b.drop_last(), x, set);
        assert((a + b).drop_last() == a + b.drop_last());
        assert((a + b).last() == b.last());
        assert(difference(a + b, set) == difference(a, set) + difference(b, set));
    }
}

proof fn difference_is_part(a: Seq<i64>, set: Set<i64>)
    ensures
        difference(a, set).len() <= a.len(),
        (forall|x: i64| a.contains(x) ==> !set.contains(x)) ==> difference(a, set) == a,
    decreases a.len(),
{
    if a.len() > 0 {
        let rest = a.drop_last();
        difference_is_part(rest, set);
        if forall|x: i64| a.contains(x) ==> !set.contains(x) {
            assert forall|x: i64| rest.contains(x) implies !set.contains(x) by {
                let k = choose|k: int| 0 <= k < rest.len() && rest[k] == x;
                assert(a[k] == x);
                assert(a.contains(x));
            }
            assert(a.contains(a[a.len() - 1]));
            assert(difference(a, set) == rest.push(a.last()));
            assert(rest.push(a.last()) == a);
        }
    }
}

/// The members of `a` that `b` lacks, in order.
pub fn missing_from(a: &Vec<i64>, b: &HashSet<i64>) -> (out: Vec<i64>)
    ensures
        out@ == difference(a@, b@),
        forall|x: i64| #[trigger] out@.contains(x) <==> a@.contains(x) && !b@.contains(x),
        out@.len() <= a@.len(),
        (forall|x: i64| a@.contains(x) ==> !b@.contains(x)) ==> out@ == a@,
{
    proof {
        difference_is_part(a@, b@);
        assert forall|x: i64| #[trigger] difference(a@, b@).contains(x) <==> a@.contains(x) && !b@.contains(x) by {
            difference_contains(a@, b@, x);
        }
    }
    let mut out: Vec<i64> = Vec::new();
    let mut i: usize = 0;
    assert(a@.take(0) == Seq::<i64>::empty());
    while i < a.len()
        invariant
            i <= a.len(),
            out@ == difference(a@.take(i as int), b@),
        decreases a.len() - i,
    {
        assert(a@.take(i + 1).drop_last() == a@.take(i as int));
        if !b.contains(&a[i]) {
            out.push(a[i]);
        }
        i = i + 1;
    }
    assert(a@.take(a@.len() as int) == a@);
    out
}

/// What brings the index in line with the records: the documents whose record is gone, and the
/// records that have no document.
pub fn reconcile(indexed: &Vec<i64>, live: &Vec<i64>) -> (out: (Vec<i64>, Vec<i64>))
    ensures
        out.0@ == difference(indexed@, live@.to_set()),
        out.1@ == difference(live@, indexed@.to_set()),
{
    let indexed_set = ids::id_set(indexed);
    let live_set = ids::id_set(live);
    (missing_from(indexed, &live_set), missing_from(live, &indexed_set))
}

/// What a list has and a set lacks is exactly what is left of the list.
pub proof fn difference_contains(a: Seq<i64>, b: Set<i64>, x: i64)
    ensures
        difference(a, b).contains(x) <==> a.contains(x) && !b.contains(x),
    decreases a.len(),
{
    if a.len() > 0 {
        difference_contains(a.drop_last(), b, x);
        assert(a == a.drop_last().push(a.last()));
        ids::push_contains(a.drop_last(), a.last(), x);
        if !b.contains(a.last()) {
            ids::push_contains(difference(a.drop_last(), b), a.last(), x);
        }
    }
}

/// Removing and adding what a reconciliation says leaves exactly the documents of the records, and
/// where both already agree there is nothing to do.
pub proof fn reconciling_converges(indexed: Seq<i64>, live: Seq<i64>)
    ensures
        indexed.to_set().difference(difference(indexed, live.to_set()).to_set()).union(difference(live, indexed.to_set()).to_set())
            == live.to_set(),
        indexed.to_set() == live.to_set() ==> difference(indexed, live.to_set()).len() == 0 && difference(live, indexed.to_set()).len() == 0,
{
    let removed = difference(indexed, live.to_set());
    let added = difference(live, indexed.to_set());
    let after = indexed.to_set().difference(removed.to_set()).union(added.to_set());
    assert forall|x: i64| after.contains(x) <==> live.to_set().contains(x) by {
        difference_contains(indexed, live.to_set(), x);
        difference_contains(live, indexed.to_set(), x);
    }
    assert(after == live.to_set());
    if indexed.to_set() == live.to_set() {
        if removed.len() > 0 {
            difference_contains(indexed, live.to_set(), removed[0]);
            assert(removed.contains(removed[0]));
        }
        if added.len() > 0 {
            difference_contains(live, indexed.to_set(), added[0]);
            assert(added.contains(added[0]));
        }
    }
}

/// How far the index has come, and whether changes wait to be committed.
#[derive(Debug, Clone, Copy)]
pub struct IndexProgress {
    pub dirty: bool,
    pub indexed_revision: i64,
}

impl IndexProgress {
    /// Documents were handed over; none at all change nothing.
    pub fn stage(&mut self, documents: usize)
        ensures
            final(self).dirty == (old(self).dirty || documents > 0),
            final(self).indexed_revision == old(self).indexed_revision,
    {
        if documents > 0 {
            self.dirty = true;
        }
    }

    /// A record was deleted: the index is to be reconciled.
    pub fn mark_dirty(&mut self)
        ensures
            final(self).dirty,
            final(self).indexed_revision == old(self).indexed_revision,
    {
        self.dirty = true;
    }

    /// A commit at a revision went through. A commit that comes late never takes the progress back.
    pub fn committed(&mut self, revision: i64)
        ensures
            !final(self).dirty,
            final(self).indexed_revision == (if old(self).indexed_revision < revision {
                revision
            } else {
                old(self).indexed_revision
            }),
    {
        self.dirty = false;
        if self.indexed_revision < revision {
            self.indexed_revision = revision;
        }
    }
}

/// The mark that a commit leaves in the index.
pub fn commit_mark(revision: i64) -> (out: String)
    ensures
        out@ == "p-memory-text-v13:"@ + decimal::integer_text(revision as int),
{
    chars::concat("p-memory-text-v13:", decimal::decimal_i64(revision).as_str())
}

} // verus!
