//! JSON values as the library reads them.

use crate::chars;
use crate::decimal;
use crate::ordering;
use vstd::prelude::*;

verus! {

/// A JSON number: its text, and its value where it is a 64 bit integer.
#[derive(Debug)]
pub struct Number {
    pub text: String,
    pub int: Option<i64>,
    pub nat: Option<u64>,
}

/// A JSON value. The fields of an object stand in the order of their keys.
#[derive(Debug)]
pub enum Json {
    Null,
    Bool(bool),
    Number(Number),
    Text(String),
    Array(Vec<Json>),
    Object(Vec<(String, Json)>),
}

/// A JSON number with its text as characters.
pub struct NumberTree {
    pub text: Seq<char>,
    pub int: Option<i64>,
    pub nat: Option<u64>,
}

/// A JSON value as a mathematical tree.
pub enum Tree {
    Null,
    Bool(bool),
    Number(NumberTree),
    Text(Seq<char>),
    Array(Seq<Tree>),
    Object(Seq<(Seq<char>, Tree)>),
}

/// The tree of a number.
pub open spec fn number_tree(n: Number) -> NumberTree {
    NumberTree { text: n.text@, int: n.int, nat: n.nat }
}

/// The tree of a JSON value.
pub open spec fn tree(j: Json) -> Tree
    decreases j,
{
    match j {
        Json::Null => Tree::Null,
        Json::Bool(b) => Tree::Bool(b),
        Json::Number(n) => Tree::Number(number_tree(n)),
        Json::Text(t) => Tree::Text(t@),
        Json::Array(items) => Tree::Array(
            Seq::new(
                items@.len(),
                |i: int| if 0 <= i < items@.len() { tree(items@[i]) } else { Tree::Null },
            ),
        ),
        Json::Object(fields) => Tree::Object(
            Seq::new(
                fields@.len(),
                |i: int|
                    if 0 <= i < fields@.len() {
                        (fields@[i].0@, tree(fields@[i].1))
                    } else {
                        (Seq::empty(), Tree::Null)
                    },
            ),
        ),
    }
}

/// The trees of a sequence of values.
pub open spec fn trees(items: Seq<Json>) -> Seq<Tree> {
    Seq::new(items.len(), |i: int| tree(items[i]))
}

/// The trees of the fields of an object.
pub open spec fn field_trees(fields: Seq<(String, Json)>) -> Seq<(Seq<char>, Tree)> {
    Seq::new(fields.len(), |i: int| (fields[i].0@, tree(fields[i].1)))
}

/// The tree of an array is made of the trees of its items.
pub proof fn tree_of_array(items: Vec<Json>)
    ensures
        tree(Json::Array(items)) == Tree::Array(trees(items@)),
{
    assert(tree(Json::Array(items))->Array_0 == trees(items@));
}

/// The tree of an object is made of its keys and the trees of its values.
pub proof fn tree_of_object(fields: Vec<(String, Json)>)
    ensures
        tree(Json::Object(fields)) == Tree::Object(field_trees(fields@)),
{
    assert(tree(Json::Object(fields))->Object_0 == field_trees(fields@));
}

/// A copy of a number.
pub fn copy_number(n: &Number) -> (out: Number)
    ensures
        out == *n,
{
    Number { text: n.text.clone(), int: n.int, nat: n.nat }
}

/// A copy of a value.
pub fn copy(j: &Json) -> (out: Json)
    ensures
        tree(out) == tree(*j),
    decreases j,
{
    match j {
        Json::Null => Json::Null,
        Json::Bool(b) => Json::Bool(*b),
        Json::Number(n) => Json::Number(copy_number(n)),
        Json::Text(t) => Json::Text(t.clone()),
        Json::Array(items) => {
            let out = copy_items(items);
            proof {
                tree_of_array(out);
                tree_of_array(*items);
            }
            Json::Array(out)
        },
        Json::Object(fields) => {
            let out = copy_fields(fields);
            proof {
                tree_of_object(out);
                tree_of_object(*fields);
            }
            Json::Object(out)
        },
    }
}

/// A copy of the items of an array.
pub fn copy_items(items: &Vec<Json>) -> (out: Vec<Json>)
    ensures
        trees(out@) == trees(items@),
    decreases items,
{
    let mut out: Vec<Json> = Vec::new();
    let mut i: usize = 0;
    while i < items.len()
        invariant
            i <= items.len(),
            trees(out@) == trees(items@).take(i as int),
        decreases items.len() - i,
    {
        let ghost before = trees(out@);
        out.push(copy(&items[i]));
        assert(trees(out@) == before.push(tree(items@[i as int])));
        assert(trees(items@).take(i + 1) == trees(items@).take(i as int).push(tree(items@[i as int])));
        i = i + 1;
    }
    assert(trees(items@).take(items@.len() as int) == trees(items@));
    out
}

/// A copy of the fields of an object.
pub fn copy_fields(fields: &Vec<(String, Json)>) -> (out: Vec<(String, Json)>)
    ensures
        field_trees(out@) == field_trees(fields@),
    decreases fields,
{
    let mut out: Vec<(String, Json)> = Vec::new();
    let mut i: usize = 0;
    while i < fields.len()
        invariant
            i <= fields.len(),
            field_trees(out@) == field_trees(fields@).take(i as int),
        decreases fields.len() - i,
    {
        let ghost before = field_trees(out@);
        out.push((fields[i].0.clone(), copy(&fields[i].1)));
        assert(field_trees(out@) == before.push((fields@[i as int].0@, tree(fields@[i as int].1))));
        assert(field_trees(fields@).take(i + 1) == field_trees(fields@).take(i as int).push(
            (fields@[i as int].0@, tree(fields@[i as int].1)),
        ));
        i = i + 1;
    }
    assert(field_trees(fields@).take(fields@.len() as int) == field_trees(fields@));
    out
}

// ── Fields ────────────────────────────────────────────────────────────

/// The value of the first field with this key.
pub open spec fn lookup(fields: Seq<(Seq<char>, Tree)>, key: Seq<char>) -> Option<Tree>
    decreases fields.len(),
{
    if fields.len() == 0 {
        None
    } else if fields[0].0 == key {
        Some(fields[0].1)
    } else {
        lookup(fields.drop_first(), key)
    }
}

/// A key is found exactly where some field has it, and the value is that of the first such field.
pub proof fn first_of_a_key_is_found(fields: Seq<(Seq<char>, Tree)>, key: Seq<char>)
    ensures
        match lookup(fields, key) {
            Some(value) => exists|i: int|
                0 <= i < fields.len() && (#[trigger] fields[i]).0 == key && fields[i].1 == value && forall|j: int|
                    0 <= j < i ==> (#[trigger] fields[j]).0 != key,
            None => forall|i: int| 0 <= i < fields.len() ==> (#[trigger] fields[i]).0 != key,
        },
    decreases fields.len(),
{
    if fields.len() > 0 && fields[0].0 != key {
        let rest = fields.drop_first();
        first_of_a_key_is_found(rest, key);
        match lookup(rest, key) {
            Some(value) => {
                let i = choose|i: int|
                    0 <= i < rest.len() && (#[trigger] rest[i]).0 == key && rest[i].1 == value && forall|j: int|
                        0 <= j < i ==> (#[trigger] rest[j]).0 != key;
                assert(fields[i + 1] == rest[i]);
                assert forall|j: int| 0 <= j < i + 1 implies (#[trigger] fields[j]).0 != key by {
                    if j > 0 {
                        assert(fields[j] == rest[j - 1]);
                    }
                }
            },
            None => {
                assert forall|i: int| 0 <= i < fields.len() implies (#[trigger] fields[i]).0 != key by {
                    if i > 0 {
                        assert(fields[i] == rest[i - 1]);
                    }
                }
            },
        }
    } else if fields.len() > 0 {
        assert(fields[0].0 == key);
    }
}

/// Looks up the first field with this key.
pub fn find<'a>(fields: &'a Vec<(String, Json)>, key: &str) -> (out: Option<&'a Json>)
    ensures
        match out {
            Some(j) => lookup(field_trees(fields@), key@) == Some(tree(*j)),
            None => lookup(field_trees(fields@), key@) is None,
        },
        out is Some <==> exists|i: int| 0 <= i < fields@.len() && (#[trigger] fields@[i]).0@ == key@,
{
    proof {
        first_of_a_key_is_found(field_trees(fields@), key@);
        let all = field_trees(fields@);
        if exists|i: int| 0 <= i < fields@.len() && (#[trigger] fields@[i]).0@ == key@ {
            let i = choose|i: int| 0 <= i < fields@.len() && (#[trigger] fields@[i]).0@ == key@;
            assert(all[i].0 == key@);
        }
        if lookup(all, key@) is Some {
            let i = choose|i: int| 0 <= i < all.len() && (#[trigger] all[i]).0 == key@;
            assert(fields@[i].0@ == key@);
        }
    }
    let ghost all = field_trees(fields@);
    let mut i: usize = 0;
    assert(all.skip(0) == all);
    while i < fields.len()
        invariant
            i <= fields.len(),
            all == field_trees(fields@),
            lookup(all.skip(i as int), key@) == lookup(all, key@),
        decreases fields.len() - i,
    {
        assert(all.skip(i as int)[0] == all[i as int]);
        if ordering::same_text(fields[i].0.as_str(), key) {
            return Some(&fields[i].1);
        }
        assert(all.skip(i as int).drop_first() == all.skip(i + 1));
        i = i + 1;
    }
    None
}

/// `fields` with `key` set to `value`: in place of the first field with that key, else before the
/// first field with a greater key.
pub open spec fn with_field(fields: Seq<(Seq<char>, Tree)>, key: Seq<char>, value: Tree) -> Seq<(Seq<char>, Tree)>
    decreases fields.len(),
{
    if fields.len() == 0 {
        seq![(key, value)]
    } else if fields[0].0 == key {
        fields.update(0, (key, value))
    } else if ordering::text_less(key, fields[0].0) {
        seq![(key, value)] + fields
    } else {
        seq![fields[0]] + with_field(fields.drop_first(), key, value)
    }
}

/// Setting a field makes it the one that is found, and leaves the other keys as they were.
pub proof fn set_then_find(fields: Seq<(Seq<char>, Tree)>, key: Seq<char>, value: Tree, other: Seq<char>)
    ensures
        lookup(with_field(fields, key, value), key) == Some(value),
        other != key ==> lookup(with_field(fields, key, value), other) == lookup(fields, other),
    decreases fields.len(),
{
    let set = with_field(fields, key, value);
    if fields.len() == 0 {
        assert(set.drop_first() == fields);
    } else if fields[0].0 == key {
        assert(set.drop_first() == fields.drop_first());
    } else if ordering::text_less(key, fields[0].0) {
        assert(set.drop_first() == fields);
    } else {
        set_then_find(fields.drop_first(), key, value, other);
        assert(set.drop_first() == with_field(fields.drop_first(), key, value));
    }
}

/// Sets a field.
pub fn set_field(fields: &mut Vec<(String, Json)>, key: String, value: Json)
    ensures
        field_trees(final(fields)@) == with_field(field_trees(old(fields)@), key@, tree(value)),
{
    let ghost all = field_trees(fields@);
    let ghost k = key@;
    let ghost v = tree(value);
    let mut i: usize = 0;
    assert(all.skip(0) == all);
    assert(all.take(0) + with_field(all.skip(0), k, v) == with_field(all, k, v));
    while i < fields.len()
        invariant
            i <= fields.len(),
            fields@ == old(fields)@,
            all == field_trees(fields@),
            k == key@,
            v == tree(value),
            all.take(i as int) + with_field(all.skip(i as int), k, v) == with_field(all, k, v),
        decreases fields.len() - i,
    {
        let ghost rest = all.skip(i as int);
        assert(rest[0] == all[i as int]);
        if ordering::same_text(fields[i].0.as_str(), key.as_str()) {
            fields.set(i, (key, value));
            proof {
                assert(field_trees(fields@) == all.update(i as int, (k, v)));
                assert(all.take(i as int) + rest.update(0, (k, v)) == all.update(i as int, (k, v)));
            }
            return;
        }
        if ordering::is_less(key.as_str(), fields[i].0.as_str()) {
            fields.insert(i, (key, value));
            proof {
                assert(field_trees(fields@) == all.insert(i as int, (k, v)));
                assert(all.take(i as int) + (seq![(k, v)] + rest) == all.insert(i as int, (k, v)));
            }
            return;
        }
        proof {
            assert(rest.drop_first() == all.skip(i + 1));
            assert(all.take(i as int) + (seq![rest[0]] + with_field(rest.drop_first(), k, v)) == all.take(i + 1)
                + with_field(all.skip(i + 1), k, v));
        }
        i = i + 1;
    }
    fields.push((key, value));
    proof {
        assert(all.skip(i as int) == Seq::<(Seq<char>, Tree)>::empty());
        assert(all.take(i as int) == all);
        assert(field_trees(fields@) == all.push((k, v)));
        assert(all + seq![(k, v)] == all.push((k, v)));
    }
}

/// `fields` without the first field with this key.
pub open spec fn without_field(fields: Seq<(Seq<char>, Tree)>, key: Seq<char>) -> Seq<(Seq<char>, Tree)>
    decreases fields.len(),
{
    if fields.len() == 0 {
        fields
    } else if fields[0].0 == key {
        fields.drop_first()
    } else {
        seq![fields[0]] + without_field(fields.drop_first(), key)
    }
}

/// Removing a field leaves the other keys as they were.
pub proof fn remove_then_find(fields: Seq<(Seq<char>, Tree)>, key: Seq<char>, other: Seq<char>)
    requires
        other != key,
    ensures
        lookup(without_field(fields, key), other) == lookup(fields, other),
    decreases fields.len(),
{
    if fields.len() > 0 && fields[0].0 != key {
        let rest = without_field(fields.drop_first(), key);
        assert((seq![fields[0]] + rest).drop_first() == rest);
        remove_then_find(fields.drop_first(), key, other);
    }
}

/// Removes the first field with this key.
pub fn remove_field(fields: &mut Vec<(String, Json)>, key: &str)
    ensures
        field_trees(final(fields)@) == without_field(field_trees(old(fields)@), key@),
{
    let ghost all = field_trees(fields@);
    let mut i: usize = 0;
    assert(all.skip(0) == all);
    assert(all.take(0) + without_field(all.skip(0), key@) == without_field(all, key@));
    while i < fields.len()
        invariant
            i <= fields.len(),
            fields@ == old(fields)@,
            all == field_trees(fields@),
            all.take(i as int) + without_field(all.skip(i as int), key@) == without_field(all, key@),
        decreases fields.len() - i,
    {
        let ghost rest = all.skip(i as int);
        assert(rest[0] == all[i as int]);
        if ordering::same_text(fields[i].0.as_str(), key) {
            let _removed = fields.remove(i);
            proof {
                assert(field_trees(fields@) == all.remove(i as int));
                assert(all.take(i as int) + rest.drop_first() == all.remove(i as int));
            }
            return;
        }
        proof {
            assert(rest.drop_first() == all.skip(i + 1));
            assert(all.take(i as int) + (seq![rest[0]] + without_field(rest.drop_first(), key@)) == all.take(i + 1)
                + without_field(all.skip(i + 1), key@));
        }
        i = i + 1;
    }
    proof {
        assert(all.skip(i as int) == Seq::<(Seq<char>, Tree)>::empty());
        assert(all.take(i as int) == all);
        assert(all + Seq::<(Seq<char>, Tree)>::empty() == all);
    }
}

// ── Reading a value ───────────────────────────────────────────────────

/// The value of a field of an object; none where the value is no object.
pub open spec fn member(value: Tree, key: Seq<char>) -> Option<Tree> {
    match value {
        Tree::Object(fields) => lookup(fields, key),
        _ => None,
    }
}

/// A value as text, empty where it is something else.
pub open spec fn text_or_empty(value: Option<Tree>) -> Seq<char> {
    match value {
        Some(Tree::Text(t)) => t,
        _ => Seq::empty(),
    }
}

/// A value as a signed integer.
pub open spec fn int_of(value: Option<Tree>) -> Option<i64> {
    match value {
        Some(Tree::Number(n)) => n.int,
        _ => None,
    }
}

/// A value as an unsigned integer.
pub open spec fn nat_of(value: Option<Tree>) -> Option<u64> {
    match value {
        Some(Tree::Number(n)) => n.nat,
        _ => None,
    }
}

/// The texts among the items of an array, in order.
pub open spec fn texts_among(items: Seq<Tree>) -> Seq<Seq<char>>
    decreases items.len(),
{
    if items.len() == 0 {
        Seq::empty()
    } else {
        match items.last() {
            Tree::Text(t) => texts_among(items.drop_last()).push(t),
            _ => texts_among(items.drop_last()),
        }
    }
}

/// The texts in an array; none where the value is no array.
pub open spec fn texts_in(value: Option<Tree>) -> Seq<Seq<char>> {
    match value {
        Some(Tree::Array(items)) => texts_among(items),
        _ => Seq::empty(),
    }
}

/// The tree of a value that may be absent.
pub open spec fn optional_tree(value: Option<&Json>) -> Option<Tree> {
    match value {
        Some(j) => Some(tree(*j)),
        None => None,
    }
}

/// The value of a field of an object.
pub fn get<'a>(value: &'a Json, key: &str) -> (out: Option<&'a Json>)
    ensures
        optional_tree(out) == member(tree(*value), key@),
{
    match value {
        Json::Object(fields) => {
            proof {
                tree_of_object(*fields);
            }
            find(fields, key)
        },
        _ => None,
    }
}

/// A value as text, empty where it is something else.
pub fn as_text(value: Option<&Json>) -> (out: String)
    ensures
        out@ == text_or_empty(optional_tree(value)),
        value matches Some(Json::Text(t)) ==> out@ == t@,
        !(value matches Some(Json::Text(_))) ==> out@.len() == 0,
{
    match value {
        Some(Json::Text(t)) => t.clone(),
        _ => String::new(),
    }
}

/// A value as a signed integer.
pub fn as_int(value: Option<&Json>) -> (out: Option<i64>)
    ensures
        out == int_of(optional_tree(value)),
        value matches Some(Json::Number(n)) ==> out == n.int,
        !(value matches Some(Json::Number(_))) ==> out is None,
{
    match value {
        Some(Json::Number(n)) => n.int,
        _ => None,
    }
}

/// A value as an unsigned integer.
pub fn as_nat(value: Option<&Json>) -> (out: Option<u64>)
    ensures
        out == nat_of(optional_tree(value)),
        value matches Some(Json::Number(n)) ==> out == n.nat,
        !(value matches Some(Json::Number(_))) ==> out is None,
{
    match value {
        Some(Json::Number(n)) => n.nat,
        _ => None,
    }
}

/// The texts of a list are those of its items that are texts, in their order; where all are, there
/// is one for each.
pub proof fn texts_are_the_text_items(items: Seq<Tree>, t: Seq<char>)
    ensures
        texts_among(items).contains(t) <==> items.contains(Tree::Text(t)),
        texts_among(items).len() <= items.len(),
        (forall|i: int| 0 <= i < items.len() ==> (#[trigger] items[i]) is Text) ==> texts_among(items).len() == items.len() && forall|i: int|
            0 <= i < items.len() ==> items[i] == Tree::Text(#[trigger] texts_among(items)[i]),
    decreases items.len(),
{
    if items.len() > 0 {
        let rest = items.drop_last();
        let before = texts_among(rest);
        let all = texts_among(items);
        texts_are_the_text_items(rest, t);
        assert(items[items.len() - 1] == items.last());
        if rest.contains(Tree::Text(t)) {
            let k = choose|k: int| 0 <= k < rest.len() && rest[k] == Tree::Text(t);
            assert(items[k] == Tree::Text(t));
        }
        if items.contains(Tree::Text(t)) && !rest.contains(Tree::Text(t)) {
            let k = choose|k: int| 0 <= k < items.len() && items[k] == Tree::Text(t);
            if k < rest.len() {
                assert(rest[k] == Tree::Text(t));
            }
            assert(all[before.len() as int] == t);
        }
        if before.contains(t) {
            let k = choose|k: int| 0 <= k < before.len() && before[k] == t;
            assert(all[k] == t);
        }
        if all.contains(t) && !before.contains(t) {
            let k = choose|k: int| 0 <= k < all.len() && all[k] == t;
            if k < before.len() {
                assert(before[k] == t);
            }
        }
        if forall|i: int| 0 <= i < items.len() ==> (#[trigger] items[i]) is Text {
            assert forall|i: int| 0 <= i < rest.len() implies (#[trigger] rest[i]) is Text by {
                assert(rest[i] == items[i]);
            }
            assert(items[items.len() - 1] is Text);
            assert forall|i: int| 0 <= i < items.len() implies items[i] == Tree::Text(#[trigger] all[i]) by {
                if i < rest.len() {
                    assert(all[i] == before[i]);
                    assert(rest[i] == items[i]);
                }
            }
        }
    }
}

/// The texts in an array; none where the value is no array.
pub fn as_texts(value: Option<&Json>) -> (out: Vec<String>)
    ensures
        chars::texts(out@) == texts_in(optional_tree(value)),
{
    let mut out: Vec<String> = Vec::new();
    match value {
        Some(Json::Array(items)) => {
            let ghost all = trees(items@);
            proof {
                tree_of_array(*items);
                assert(all.take(0) == Seq::<Tree>::empty());
            }
            let mut i: usize = 0;
            while i < items.len()
                invariant
                    i <= items.len(),
                    all == trees(items@),
                    chars::texts(out@) == texts_among(all.take(i as int)),
                decreases items.len() - i,
            {
                let ghost before = chars::texts(out@);
                proof {
                    assert(all.take(i + 1).drop_last() == all.take(i as int));
                    assert(all.take(i + 1).last() == tree(items@[i as int]));
                }
                match &items[i] {
                    Json::Text(t) => {
                        out.push(t.clone());
                        assert(chars::texts(out@) == before.push(t@));
                    },
                    _ => {},
                }
                i = i + 1;
            }
            assert(all.take(all.len() as int) == all);
        },
        _ => {
            assert(chars::texts(out@) == Seq::<Seq<char>>::empty());
        },
    }
    out
}

/// A text as a value.
pub fn text_value(text: &str) -> (out: Json)
    ensures
        tree(out) == Tree::Text(text@),
{
    Json::Text(text.to_owned())
}

/// A list of texts as a tree.
pub open spec fn texts_tree(list: Seq<Seq<char>>) -> Tree {
    Tree::Array(Seq::new(list.len(), |i: int| Tree::Text(list[i])))
}

/// The texts of a list of texts are that list.
pub proof fn texts_of_texts_tree(list: Seq<Seq<char>>)
    ensures
        texts_in(Some(texts_tree(list))) == list,
    decreases list.len(),
{
    let items = Seq::new(list.len(), |i: int| Tree::Text(list[i]));
    if list.len() > 0 {
        let shorter = Seq::new(list.drop_last().len(), |i: int| Tree::Text(list.drop_last()[i]));
        assert(items.drop_last() == shorter);
        texts_of_texts_tree(list.drop_last());
        assert(list == list.drop_last().push(list.last()));
    } else {
        assert(list == Seq::<Seq<char>>::empty());
    }
}

/// A list of texts as a value.
pub fn texts_value(list: &Vec<String>) -> (out: Json)
    ensures
        tree(out) == texts_tree(chars::texts(list@)),
{
    let ghost all = chars::texts(list@);
    let ghost wanted = Seq::new(all.len(), |i: int| Tree::Text(all[i]));
    let mut items: Vec<Json> = Vec::new();
    let mut i: usize = 0;
    while i < list.len()
        invariant
            i <= list.len(),
            all == chars::texts(list@),
            wanted == Seq::new(all.len(), |i: int| Tree::Text(all[i])),
            trees(items@) == wanted.take(i as int),
        decreases list.len() - i,
    {
        let ghost before = trees(items@);
        items.push(text_value(list[i].as_str()));
        assert(trees(items@) == before.push(Tree::Text(all[i as int])));
        assert(wanted.take(i + 1) == wanted.take(i as int).push(wanted[i as int]));
        i = i + 1;
    }
    proof {
        assert(wanted.take(wanted.len() as int) == wanted);
        tree_of_array(items);
    }
    Json::Array(items)
}

/// A whole number as a tree.
pub open spec fn int_tree(i: i64) -> Tree {
    Tree::Number(
        NumberTree {
            text: decimal::integer_text(i as int),
            int: Some(i),
            nat: if i >= 0 {
                Some(i as u64)
            } else {
                None
            },
        },
    )
}

/// A whole number as a value.
pub fn int_value(i: i64) -> (out: Json)
    ensures
        tree(out) == int_tree(i),
        out matches Json::Number(n) && n.text@ == decimal::integer_text(i as int) && n.int == Some(i) && (i >= 0 ==> n.nat == Some(i as u64)) && (i
            < 0 ==> n.nat is None),
{
    Json::Number(Number { text: decimal::decimal_i64(i), int: Some(i), nat: if i >= 0 { Some(i as u64) } else { None } })
}

/// A count as a tree.
pub open spec fn count_tree(n: usize) -> Tree {
    Tree::Number(
        NumberTree {
            text: decimal::digits(n as nat),
            int: if n <= i64::MAX {
                Some(n as i64)
            } else {
                None
            },
            nat: Some(n as u64),
        },
    )
}

/// A count as a value.
pub fn count_value(n: usize) -> (out: Json)
    ensures
        tree(out) == count_tree(n),
        out matches Json::Number(made) && made.text@ == decimal::digits(n as nat) && made.nat == Some(n as u64) && (n <= i64::MAX ==> made.int == Some(
            n as i64,
        )),
{
    let signed: Option<i64> = if n as u64 <= i64::MAX as u64 { Some(n as i64) } else { None };
    Json::Number(Number { text: decimal::decimal_usize(n), int: signed, nat: Some(n as u64) })
}

/// A list of whole numbers as a tree.
pub open spec fn ints_tree(list: Seq<i64>) -> Tree {
    Tree::Array(Seq::new(list.len(), |i: int| int_tree(list[i])))
}

/// A list of whole numbers as a value.
pub fn ints_value(list: &Vec<i64>) -> (out: Json)
    ensures
        tree(out) == ints_tree(list@),
{
    let ghost wanted = Seq::new(list@.len(), |i: int| int_tree(list@[i]));
    let mut items: Vec<Json> = Vec::new();
    let mut i: usize = 0;
    while i < list.len()
        invariant
            i <= list.len(),
            wanted == Seq::new(list@.len(), |i: int| int_tree(list@[i])),
            trees(items@) == wanted.take(i as int),
        decreases list.len() - i,
    {
        let ghost before = trees(items@);
        items.push(int_value(list[i]));
        assert(trees(items@) == before.push(int_tree(list@[i as int])));
        assert(wanted.take(i + 1) == wanted.take(i as int).push(wanted[i as int]));
        i = i + 1;
    }
    proof {
        assert(wanted.take(wanted.len() as int) == wanted);
        tree_of_array(items);
    }
    Json::Array(items)
}

/// `fields` with one field set after the other.
pub open spec fn with_fields(fields: Seq<(Seq<char>, Tree)>, pairs: Seq<(Seq<char>, Tree)>) -> Seq<(Seq<char>, Tree)>
    decreases pairs.len(),
{
    if pairs.len() == 0 {
        fields
    } else {
        with_field(with_fields(fields, pairs.drop_last()), pairs.last().0, pairs.last().1)
    }
}

/// After setting several fields, each key has the value that was set last, and the other keys what
/// they had.
pub proof fn set_all_then_find(fields: Seq<(Seq<char>, Tree)>, pairs: Seq<(Seq<char>, Tree)>, key: Seq<char>, k: int)
    requires
        0 <= k <= pairs.len(),
        forall|j: int| k <= j < pairs.len() ==> (#[trigger] pairs[j]).0 != key,
        k > 0 ==> pairs[k - 1].0 == key,
    ensures
        k > 0 ==> lookup(with_fields(fields, pairs), key) == Some(pairs[k - 1].1),
        k == 0 ==> lookup(with_fields(fields, pairs), key) == lookup(fields, key),
    decreases pairs.len(),
{
    if pairs.len() > 0 {
        let before = with_fields(fields, pairs.drop_last());
        set_then_find(before, pairs.last().0, pairs.last().1, key);
        if k < pairs.len() {
            assert(pairs[pairs.len() - 1].0 != key);
            assert forall|j: int| k <= j < pairs.drop_last().len() implies (#[trigger] pairs.drop_last()[j]).0 != key by {
                assert(pairs[j].0 != key);
            }
            set_all_then_find(fields, pairs.drop_last(), key, k);
        }
    }
}

/// An object with one field set after the other.
pub fn object_value(pairs: Vec<(String, Json)>) -> (out: Json)
    ensures
        tree(out) == Tree::Object(with_fields(Seq::empty(), field_trees(pairs@))),
{
    let mut fields: Vec<(String, Json)> = Vec::new();
    assert(field_trees(fields@) == Seq::<(Seq<char>, Tree)>::empty());
    set_fields(&mut fields, pairs);
    proof {
        tree_of_object(fields);
    }
    Json::Object(fields)
}

/// Sets one field after the other.
pub fn set_fields(fields: &mut Vec<(String, Json)>, pairs: Vec<(String, Json)>)
    ensures
        field_trees(final(fields)@) == with_fields(field_trees(old(fields)@), field_trees(pairs@)),
{
    let ghost all = field_trees(pairs@);
    let ghost start = field_trees(fields@);
    let mut rest = pairs;
    let ghost mut done: int = 0;
    assert(all.take(0) == Seq::<(Seq<char>, Tree)>::empty());
    assert(all.skip(0) == all);
    while rest.len() > 0
        invariant
            0 <= done <= all.len(),
            field_trees(rest@) == all.skip(done),
            field_trees(fields@) == with_fields(start, all.take(done)),
        decreases rest.len(),
    {
        let ghost before = field_trees(rest@);
        let pair = rest.remove(0);
        proof {
            assert(before.len() == all.len() - done);
            assert(before[0] == all.skip(done)[0]);
            assert(before[0] == (pair.0@, tree(pair.1)));
            assert(field_trees(rest@) == before.drop_first());
            assert(before.drop_first() == all.skip(done + 1));
            assert(all.take(done + 1).drop_last() == all.take(done));
            assert(all.take(done + 1).last() == all[done]);
            done = done + 1;
        }
        set_field(fields, pair.0, pair.1);
    }
    assert(done == all.len()) by {
        assert(all.skip(done).len() == 0);
    }
    assert(all.take(all.len() as int) == all);
}

} // verus!
