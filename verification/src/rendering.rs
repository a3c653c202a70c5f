//! JSON as text.

use crate::chars;
use crate::json;
use crate::json::{Json, Tree};
use vstd::prelude::*;

verus! {

/// A digit of a hexadecimal number.
pub open spec fn hex_digit(n: int) -> char {
    if n < 10 {
        (n + 48) as char
    } else {
        (n + 87) as char
    }
}

/// A character inside a JSON text. Quotes, backslashes and the controls below the space are escaped,
/// the common controls by a letter and the others by their number.
pub open spec fn escaped(ch: char) -> Seq<char> {
    if ch == '"' || ch == '\\' {
        seq!['\\', ch]
    } else if ch == '\u{8}' {
        seq!['\\', 'b']
    } else if ch == '\t' {
        seq!['\\', 't']
    } else if ch == '\n' {
        seq!['\\', 'n']
    } else if ch == '\u{c}' {
        seq!['\\', 'f']
    } else if ch == '\r' {
        seq!['\\', 'r']
    } else if (ch as int) < 32 {
        seq!['\\', 'u', '0', '0', hex_digit(ch as int / 16), hex_digit(ch as int % 16)]
    } else {
        seq![ch]
    }
}

/// The characters of a text, each escaped where it must be.
pub open spec fn escaped_text(text: Seq<char>) -> Seq<char>
    decreases text.len(),
{
    if text.len() == 0 {
        Seq::empty()
    } else {
        escaped_text(text.drop_last()) + escaped(text.last())
    }
}

/// A text as JSON writes it.
pub open spec fn json_quoted(text: Seq<char>) -> Seq<char> {
    seq!['"'] + escaped_text(text) + seq!['"']
}

/// A text in quotes: `serde_json::Value::String` as its `Display` writes it, with the escapes of
/// serde_json's compact format.
#[verifier::external_body]
fn quoted(text: &str) -> (out: String)
    ensures
        out@ == json_quoted(text@),
{
    serde_json::Value::String(text.to_owned()).to_string()
}

/// A value as compact JSON.
pub open spec fn rendered(t: Tree) -> Seq<char>
    decreases t, 0nat,
{
    match t {
        Tree::Null => "null"@,
        Tree::Bool(b) => if b {
            "true"@
        } else {
            "false"@
        },
        Tree::Number(n) => n.text,
        Tree::Text(s) => json_quoted(s),
        Tree::Array(items) => "["@ + chars::joined(rendered_items(items, items.len()), ","@) + "]"@,
        Tree::Object(fields) => "{"@ + chars::joined(rendered_fields(fields, fields.len()), ","@) + "}"@,
    }
}

/// The first `n` items of an array, each as compact JSON.
pub open spec fn rendered_items(items: Seq<Tree>, n: nat) -> Seq<Seq<char>>
    decreases items, n,
{
    if 0 < n <= items.len() {
        rendered_items(items, (n - 1) as nat).push(rendered(items[n - 1]))
    } else {
        Seq::empty()
    }
}

/// The first `n` fields of an object, each as compact JSON.
pub open spec fn rendered_fields(fields: Seq<(Seq<char>, Tree)>, n: nat) -> Seq<Seq<char>>
    decreases fields, n,
{
    if 0 < n <= fields.len() {
        rendered_fields(fields, (n - 1) as nat).push(json_quoted(fields[n - 1].0) + ":"@ + rendered(fields[n - 1].1))
    } else {
        Seq::empty()
    }
}

/// What a rendered value looks like: the words and numbers stand bare, a text is quoted, the items of an
/// array stand in order between brackets, and the fields of an object between braces.
pub proof fn rendering_shows_the_value(t: Tree)
    ensures
        t is Null ==> rendered(t) == "null"@,
        t == Tree::Bool(true) ==> rendered(t) == "true"@,
        t == Tree::Bool(false) ==> rendered(t) == "false"@,
        t matches Tree::Number(n) ==> rendered(t) == n.text,
        t matches Tree::Text(s) ==> rendered(t) == json_quoted(s),
        t matches Tree::Array(items) ==> rendered(t).len() >= 2 && rendered(t).first() == '[' && rendered(t).last() == ']',
        t matches Tree::Array(items) ==> items.len() == 1 ==> rendered(t) == "["@ + rendered(items[0]) + "]"@,
        t matches Tree::Array(items) ==> items.len() > 1 ==> rendered(t) == rendered(Tree::Array(items.drop_last())).drop_last() + ","@ + rendered(
            items.last(),
        ) + "]"@,
        t matches Tree::Object(fields) ==> rendered(t).len() >= 2 && rendered(t).first() == '{' && rendered(t).last() == '}',
        t matches Tree::Object(fields) ==> fields.len() == 1 ==> rendered(t) == "{"@ + (json_quoted(fields[0].0) + ":"@ + rendered(fields[0].1)) + "}"@,
        t matches Tree::Object(fields) ==> fields.len() > 1 ==> rendered(t) == rendered(Tree::Object(fields.drop_last())).drop_last() + ","@ + (
        json_quoted(fields.last().0) + ":"@ + rendered(fields.last().1)) + "}"@,
{
    reveal_strlit("[");
    reveal_strlit("]");
    reveal_strlit("{");
    reveal_strlit("}");
    match t {
        Tree::Array(items) => {
            if items.len() == 1 {
                items_are_rendered_in_order(items, 1);
                let parts = rendered_items(items, 1);
                assert(parts == seq![rendered(items[0])]);
                chars::joining_adds_up(Seq::empty(), parts[0], ","@);
            }
            if items.len() > 1 {
                let n = (items.len() - 1) as nat;
                let fewer = items.drop_last();
                items_are_rendered_in_order(items, n);
                items_are_rendered_in_order(fewer, n);
                let parts = rendered_items(items, n);
                assert(parts =~= rendered_items(fewer, n));
                chars::joining_adds_up(parts, rendered(items.last()), ","@);
                assert(rendered(Tree::Array(fewer)).drop_last() == "["@ + chars::joined(parts, ","@));
                assert(rendered(t) == "["@ + (chars::joined(parts, ","@) + ","@ + rendered(items.last())) + "]"@);
            }
        },
        Tree::Object(fields) => {
            if fields.len() == 1 {
                fields_are_rendered_in_order(fields, 1);
                let parts = rendered_fields(fields, 1);
                assert(parts == seq![json_quoted(fields[0].0) + ":"@ + rendered(fields[0].1)]);
                chars::joining_adds_up(Seq::empty(), parts[0], ","@);
            }
            if fields.len() > 1 {
                let n = (fields.len() - 1) as nat;
                let fewer = fields.drop_last();
                fields_are_rendered_in_order(fields, n);
                fields_are_rendered_in_order(fewer, n);
                let parts = rendered_fields(fields, n);
                let last = json_quoted(fields.last().0) + ":"@ + rendered(fields.last().1);
                assert(parts =~= rendered_fields(fewer, n));
                chars::joining_adds_up(parts, last, ","@);
                assert(rendered(Tree::Object(fewer)).drop_last() == "{"@ + chars::joined(parts, ","@));
                assert(rendered(t) == "{"@ + (chars::joined(parts, ","@) + ","@ + last) + "}"@);
            }
        },
        _ => {},
    }
}

/// The first items of an array are rendered each at its place.
pub proof fn items_are_rendered_in_order(items: Seq<Tree>, n: nat)
    requires
        n <= items.len(),
    ensures
        rendered_items(items, n).len() == n,
        forall|i: int| 0 <= i < n ==> #[trigger] rendered_items(items, n)[i] == rendered(items[i]),
    decreases n,
{
    if n > 0 {
        items_are_rendered_in_order(items, (n - 1) as nat);
    }
}

/// The first fields of an object are rendered each at its place, its name first.
pub proof fn fields_are_rendered_in_order(fields: Seq<(Seq<char>, Tree)>, n: nat)
    requires
        n <= fields.len(),
    ensures
        rendered_fields(fields, n).len() == n,
        forall|i: int| 0 <= i < n ==> #[trigger] rendered_fields(fields, n)[i] == json_quoted(fields[i].0) + ":"@ + rendered(fields[i].1),
    decreases n,
{
    if n > 0 {
        fields_are_rendered_in_order(fields, (n - 1) as nat);
    }
}

/// A value as compact JSON.
pub fn render(value: &Json) -> (out: String)
    ensures
        out@ == rendered(json::tree(*value)),
    decreases value,
{
    match value {
        Json::Null => "null".to_owned(),
        Json::Bool(b) => if *b {
            "true".to_owned()
        } else {
            "false".to_owned()
        },
        Json::Number(n) => n.text.clone(),
        Json::Text(t) => quoted(t.as_str()),
        Json::Array(items) => {
            let parts = render_items(items);
            let mut out = chars::concat("[", chars::join(&parts, ",").as_str());
            out.append("]");
            proof {
                json::tree_of_array(*items);
            }
            out
        },
        Json::Object(fields) => {
            let parts = render_fields(fields);
            let mut out = chars::concat("{", chars::join(&parts, ",").as_str());
            out.append("}");
            proof {
                json::tree_of_object(*fields);
            }
            out
        },
    }
}

fn render_items(items: &Vec<Json>) -> (out: Vec<String>)
    ensures
        chars::texts(out@) == rendered_items(json::trees(items@), items@.len()),
    decreases items,
{
    let ghost all = json::trees(items@);
    let mut out: Vec<String> = Vec::new();
    let mut i: usize = 0;
    while i < items.len()
        invariant
            i <= items.len(),
            all == json::trees(items@),
            chars::texts(out@) == rendered_items(all, i as nat),
        decreases items.len() - i,
    {
        let ghost before = chars::texts(out@);
        out.push(render(&items[i]));
        assert(chars::texts(out@) == before.push(out@.last()@));
        i = i + 1;
    }
    out
}

fn render_fields(fields: &Vec<(String, Json)>) -> (out: Vec<String>)
    ensures
        chars::texts(out@) == rendered_fields(json::field_trees(fields@), fields@.len()),
    decreases fields,
{
    let ghost all = json::field_trees(fields@);
    let mut out: Vec<String> = Vec::new();
    let mut i: usize = 0;
    while i < fields.len()
        invariant
            i <= fields.len(),
            all == json::field_trees(fields@),
            chars::texts(out@) == rendered_fields(all, i as nat),
        decreases fields.len() - i,
    {
        let ghost before = chars::texts(out@);
        let mut part = quoted(fields[i].0.as_str());
        part.append(":");
        part.append(render(&fields[i].1).as_str());
        out.push(part);
        assert(chars::texts(out@) == before.push(out@.last()@));
        i = i + 1;
    }
    out
}

} // verus!
