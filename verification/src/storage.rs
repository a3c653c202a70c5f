//! The rules of the record store: what may be written, what is written, and how it is read back.

use crate::chars;
use crate::chars::{chars_of, find_from, is_control, join, string_between, trim_end_index, trim_start_index, trimmed};
use crate::error::{Error, ErrorView};
use crate::json;
use crate::json::Json;
use crate::ordering;
use crate::text;
use crate::text::{digest, normalized_tag};
use crate::types::{ReadFilter, ReadFilterView, RecordKind};
use vstd::prelude::*;

verus! {

// ── Validation ────────────────────────────────────────────────────────

/// A name that may identify something: not empty, trimmed, without control characters.
pub open spec fn identity(s: Seq<char>) -> bool {
    &&& s.len() > 0
    &&& chars::trim(s) == s
    &&& forall|i: int| 0 <= i < s.len() ==> !chars::control(#[trigger] s[i])
}

/// The error for a name that may not identify anything.
pub open spec fn identity_error(label: Seq<char>) -> ErrorView {
    ErrorView::Validation(label + " must be nonempty, trimmed, and contain no control characters"@)
}

/// Checks a name.
pub fn validate_identity(label: &str, value: &str) -> (out: Result<(), Error>)
    ensures
        match out {
            Ok(()) => identity(value@),
            Err(e) => !identity(value@) && e@ == identity_error(label@),
        },
        out is Ok <==> {
            &&& value@.len() > 0
            &&& !chars::whitespace(value@.first())
            &&& !chars::whitespace(value@.last())
            &&& forall|i: int| 0 <= i < value@.len() ==> !chars::control(#[trigger] value@[i])
        },
        out matches Err(e) ==> e@ == ErrorView::Validation(label@ + " must be nonempty, trimmed, and contain no control characters"@),
{
    proof {
        chars::trim_leaves_a_stretch(value@);
        if value@.len() > 0 && !chars::whitespace(value@[0]) && !chars::whitespace(value@.last()) {
            chars::trim_keeps(value@);
        }
    }
    let text = trimmed(value);
    let chars = chars_of(value);
    let mut clean = text.as_str().unicode_len() > 0 && ordering::same_text(value, text.as_str());
    let mut i: usize = 0;
    while i < chars.len()
        invariant
            i <= chars.len(),
            chars@ == value@,
            clean == (value@.len() > 0 && chars::trim(value@) == value@ && forall|k: int|
                0 <= k < i ==> !chars::control(#[trigger] value@[k])),
        decreases chars.len() - i,
    {
        if is_control(chars[i]) {
            assert(chars::control(value@[i as int]));
            clean = false;
        }
        i = i + 1;
    }
    if clean {
        Ok(())
    } else {
        Err(Error::Validation(chars::concat(label, " must be nonempty, trimmed, and contain no control characters")))
    }
}

/// Why a read filter is refused, if it is: its namespace, the lack of scopes, or a scope.
pub open spec fn filter_error(filter: ReadFilterView) -> Option<ErrorView> {
    if !identity(filter.namespace) {
        Some(identity_error("namespace"@))
    } else if filter.scopes.len() == 0 {
        Some(ErrorView::Validation("at least one explicit read scope is required"@))
    } else if exists|i: int| 0 <= i < filter.scopes.len() && !identity(#[trigger] filter.scopes[i]) {
        Some(identity_error("scope"@))
    } else {
        None
    }
}

/// A check whose outcome is the given error, or success where there is none.
pub open spec fn refused<T>(out: Result<T, Error>, error: Option<ErrorView>) -> bool {
    match out {
        Ok(_) => error is None,
        Err(e) => error == Some(e@),
    }
}

/// Checks a read filter.
pub fn validate_filter(filter: &ReadFilter) -> (out: Result<(), Error>)
    ensures
        refused(out, filter_error(filter@)),
        out is Ok <==> identity(filter.namespace@) && filter.scopes@.len() > 0 && forall|i: int|
            0 <= i < filter@.scopes.len() ==> identity(#[trigger] filter@.scopes[i]),
{
    validate_identity("namespace", filter.namespace.as_str())?;
    if filter.scopes.len() == 0 {
        return Err(Error::Validation("at least one explicit read scope is required".to_owned()));
    }
    let mut i: usize = 0;
    while i < filter.scopes.len()
        invariant
            i <= filter.scopes.len(),
            identity(filter@.namespace),
            filter@.scopes.len() > 0,
            forall|k: int| 0 <= k < i ==> identity(#[trigger] filter@.scopes[k]),
        decreases filter.scopes.len() - i,
    {
        assert(filter@.scopes[i as int] == filter.scopes@[i as int]@);
        validate_identity("scope", filter.scopes[i].as_str())?;
        i = i + 1;
    }
    Ok(())
}

/// Why a limit is refused, if it is.
pub open spec fn limit_error(limit: int) -> Option<ErrorView> {
    if 1 <= limit <= 10_000 {
        None
    } else {
        Some(ErrorView::Validation("limit must be between 1 and 10000"@))
    }
}

/// Checks a limit.
pub fn validate_limit(limit: usize) -> (out: Result<(), Error>)
    ensures
        refused(out, limit_error(limit as int)),
        out is Ok <==> 1 <= limit <= 10_000,
{
    if limit < 1 || limit > 10_000 {
        return Err(Error::Validation("limit must be between 1 and 10000".to_owned()));
    }
    Ok(())
}

// ── Tags and paths ────────────────────────────────────────────────────

/// `out` are the stored forms of `tags`: normalized, without empty ones, sorted, each once.
pub open spec fn stored_tags(tags: Seq<Seq<char>>, out: Seq<Seq<char>>) -> bool {
    &&& ordering::strictly_sorted(out)
    &&& forall|t: Seq<char>| #[trigger] out.contains(t) <==> t.len() > 0 && exists|i: int| 0 <= i < tags.len() && t == text::tag_form(#[trigger] tags[i])
}

/// The stored forms of a list of tags.
pub fn normalize_tags(tags: &Vec<String>) -> (out: Vec<String>)
    ensures
        stored_tags(chars::texts(tags@), chars::texts(out@)),
        chars::texts(out@).no_duplicates(),
        forall|i: int| 0 <= i < out@.len() ==> #[trigger] chars::texts(out@)[i].len() > 0,
        forall|i: int|
            0 <= i < tags@.len() && text::tag_form(#[trigger] chars::texts(tags@)[i]).len() > 0 ==> chars::texts(out@).contains(
                text::tag_form(chars::texts(tags@)[i]),
            ),
{
    let ghost all = chars::texts(tags@);
    let mut out: Vec<String> = Vec::new();
    let mut i: usize = 0;
    while i < tags.len()
        invariant
            i <= tags.len(),
            all == chars::texts(tags@),
            ordering::strictly_sorted(chars::texts(out@)),
            forall|t: Seq<char>| #[trigger] chars::texts(out@).contains(t) <==> t.len() > 0 && exists|k: int| 0 <= k < i && t == text::tag_form(#[trigger] all[k]),
        decreases tags.len() - i,
    {
        let ghost before = chars::texts(out@);
        let tag = normalized_tag(tags[i].as_str());
        assert(all[i as int] == tags@[i as int]@);
        if tag.as_str().unicode_len() > 0 {
            let _new = ordering::insert_sorted(&mut out, tag);
        }
        proof {
            let after = chars::texts(out@);
            assert forall|t: Seq<char>| #[trigger] after.contains(t) <==> t.len() > 0 && exists|k: int| 0 <= k < i + 1 && t == text::tag_form(#[trigger] all[k]) by {
                if after.contains(t) && !before.contains(t) {
                    assert(t == text::tag_form(all[i as int]));
                }
                if t.len() > 0 && exists|k: int| 0 <= k < i + 1 && t == text::tag_form(#[trigger] all[k]) {
                    let k = choose|k: int| 0 <= k < i + 1 && t == text::tag_form(#[trigger] all[k]);
                    if k < i {
                        assert(before.contains(t));
                    }
                }
            }
        }
        i = i + 1;
    }
    proof {
        let kept = chars::texts(out@);
        ordering::strictly_sorted_without_repeats(kept);
        assert forall|k: int| 0 <= k < kept.len() implies #[trigger] kept[k].len() > 0 by {
            assert(kept.contains(kept[k]));
        }
    }
    out
}

/// A list of tags has only one stored form.
pub proof fn stored_tags_unique(tags: Seq<Seq<char>>, a: Seq<Seq<char>>, b: Seq<Seq<char>>)
    requires
        stored_tags(tags, a),
        stored_tags(tags, b),
    ensures
        a == b,
{
    assert forall|t: Seq<char>| a.contains(t) <==> b.contains(t) by {
    }
    ordering::strictly_sorted_unique(a, b);
}

/// The order of tags and their repetition do not matter: lists that hold the same tags are stored
/// alike.
pub proof fn tag_order_does_not_matter(tags: Seq<Seq<char>>, others: Seq<Seq<char>>, a: Seq<Seq<char>>, b: Seq<Seq<char>>)
    requires
        forall|t: Seq<char>| #[trigger] tags.contains(t) <==> others.contains(t),
        stored_tags(tags, a),
        stored_tags(others, b),
    ensures
        a == b,
{
    assert forall|t: Seq<char>| a.contains(t) implies b.contains(t) by {
        let i = choose|i: int| 0 <= i < tags.len() && t == text::tag_form(#[trigger] tags[i]);
        assert(tags.contains(tags[i]));
        let k = choose|k: int| 0 <= k < others.len() && others[k] == tags[i];
        assert(t == text::tag_form(others[k]));
    }
    assert forall|t: Seq<char>| b.contains(t) implies a.contains(t) by {
        let i = choose|i: int| 0 <= i < others.len() && t == text::tag_form(#[trigger] others[i]);
        assert(others.contains(others[i]));
        assert(tags.contains(others[i]));
        let k = choose|k: int| 0 <= k < tags.len() && tags[k] == others[i];
        assert(t == text::tag_form(tags[k]));
    }
    ordering::strictly_sorted_unique(a, b);
}

/// Storing stored tags again changes nothing, for tags whose characters settle.
pub proof fn stored_tags_stay(tags: Seq<Seq<char>>, out: Seq<Seq<char>>, again: Seq<Seq<char>>)
    requires
        forall|i: int| 0 <= i < tags.len() ==> text::settled(#[trigger] tags[i]),
        stored_tags(tags, out),
        stored_tags(out, again),
    ensures
        again == out,
{
    assert forall|k: int| 0 <= k < out.len() implies text::tag_form(#[trigger] out[k]) == out[k] && out[k].len() > 0 by {
        assert(out.contains(out[k]));
        let i = choose|i: int| 0 <= i < tags.len() && out[k] == text::tag_form(#[trigger] tags[i]);
        text::tag_form_settles(tags[i]);
    }
    assert forall|t: Seq<char>| again.contains(t) <==> out.contains(t) by {
        if again.contains(t) {
            let i = choose|i: int| 0 <= i < out.len() && t == text::tag_form(#[trigger] out[i]);
            assert(out[i] == t);
        }
        if out.contains(t) {
            let k = choose|k: int| 0 <= k < out.len() && out[k] == t;
            assert(t == text::tag_form(out[k]));
        }
    }
    ordering::strictly_sorted_unique(again, out);
}

/// The parts of a path between slashes from position `from` on, empty ones left out.
pub open spec fn segments_from(s: Seq<char>, from: int) -> Seq<Seq<char>>
    decreases s.len() - from,
    when 0 <= from <= s.len()
    via segments_from_decreases
{
    let end = chars::position_from(s, '/', from);
    let head = if end > from {
        seq![s.subrange(from, end)]
    } else {
        Seq::empty()
    };
    if end >= s.len() {
        head
    } else {
        head + segments_from(s, end + 1)
    }
}

#[via_fn]
proof fn segments_from_decreases(s: Seq<char>, from: int) {
    chars::position_from_bounds(s, '/', from);
}

/// The parts of a path between slashes, empty ones left out.
pub open spec fn segments(s: Seq<char>) -> Seq<Seq<char>> {
    segments_from(s, 0)
}

/// The last position of `ch` in `s`, or -1.
pub open spec fn last_position(s: Seq<char>, ch: char) -> int
    decreases s.len(),
{
    if s.len() == 0 {
        -1
    } else if s.last() == ch {
        s.len() - 1
    } else {
        last_position(s.drop_last(), ch)
    }
}

/// A dot stands here, and none behind it.
pub open spec fn ends_stem(name: Seq<char>, dot: int) -> bool {
    &&& 0 <= dot < name.len()
    &&& name[dot] == '.'
    &&& forall|k: int| dot < k < name.len() ==> #[trigger] name[k] != '.'
}

/// The last position of a character: it stands there and nowhere behind.
pub proof fn last_position_is_last(s: Seq<char>, ch: char)
    ensures
        last_position(s, ch) < 0 <==> !s.contains(ch),
        -1 <= last_position(s, ch) < s.len(),
        last_position(s, ch) >= 0 ==> s[last_position(s, ch)] == ch,
        forall|k: int| last_position(s, ch) < k < s.len() ==> #[trigger] s[k] != ch,
    decreases s.len(),
{
    if s.len() > 0 && s.last() != ch {
        let rest = s.drop_last();
        last_position_is_last(rest, ch);
        assert forall|k: int| last_position(s, ch) < k < s.len() implies #[trigger] s[k] != ch by {
            if k < rest.len() {
                assert(rest[k] == s[k]);
            }
        }
        if rest.contains(ch) {
            let k = choose|k: int| 0 <= k < rest.len() && rest[k] == ch;
            assert(s[k] == ch);
        }
        if s.contains(ch) {
            let k = choose|k: int| 0 <= k < s.len() && s[k] == ch;
            assert(rest[k] == ch);
        }
    } else if s.len() > 0 {
        assert(s[s.len() - 1] == ch);
    }
}

/// A file name without what follows its last dot, trimmed.
pub open spec fn stem(name: Seq<char>) -> Seq<char> {
    let dot = last_position(name, '.');
    if dot < 0 {
        chars::trim(name)
    } else {
        chars::trim(name.take(dot))
    }
}

/// The directories of a relative path.
pub open spec fn path_directories(path: Seq<char>) -> Seq<Seq<char>> {
    let parts = segments(path);
    if parts.len() == 0 {
        parts
    } else {
        parts.drop_last()
    }
}

/// The file name of a relative path, without its extension.
pub open spec fn path_stem(path: Seq<char>) -> Seq<char> {
    let parts = segments(path);
    if parts.len() == 0 {
        Seq::empty()
    } else {
        stem(parts.last())
    }
}

/// The segments of a path hold no slash and are never empty.
pub proof fn segments_are_plain(s: Seq<char>, from: int)
    requires
        0 <= from <= s.len(),
    ensures
        forall|i: int|
            0 <= i < segments_from(s, from).len() ==> (#[trigger] segments_from(s, from)[i]).len() > 0 && !segments_from(s, from)[i].contains('/'),
    decreases s.len() - from,
{
    let end = chars::position_from(s, '/', from);
    chars::position_from_bounds(s, '/', from);
    let all = segments_from(s, from);
    let head = s.subrange(from, end);
    assert(!head.contains('/')) by {
        if head.contains('/') {
            let k = choose|k: int| 0 <= k < head.len() && head[k] == '/';
            assert(s[from + k] == '/');
        }
    }
    if end < s.len() {
        let rest = segments_from(s, end + 1);
        segments_are_plain(s, end + 1);
        assert forall|i: int| 0 <= i < all.len() implies (#[trigger] all[i]).len() > 0 && !all[i].contains('/') by {
            if end > from {
                if i > 0 {
                    assert(all[i] == rest[i - 1]);
                }
            } else {
                assert(all[i] == rest[i]);
            }
        }
    }
}

/// A directory in front of a path becomes its first segment, and the rest stays.
pub proof fn a_segment_ends_at_a_slash(head: Seq<char>, rest: Seq<char>)
    requires
        !head.contains('/'),
    ensures
        segments(head + seq!['/'] + rest) == (if head.len() > 0 { seq![head] } else { Seq::empty() }) + segments(rest),
        segments(head) == (if head.len() > 0 { seq![head] } else { Seq::<Seq<char>>::empty() }),
{
    let all = head + seq!['/'] + rest;
    chars::position_from_bounds(all, '/', 0);
    let n = head.len() as int;
    assert(all[n] == '/');
    let end = chars::position_from(all, '/', 0);
    if end < n {
        assert(head[end] == '/');
    }
    assert(end == n);
    assert(all.subrange(0, n) == head);
    segments_shift(all, n + 1);
    assert(all.skip(n + 1) == rest);
    chars::position_from_bounds(head, '/', 0);
    if chars::position_from(head, '/', 0) < head.len() {
        assert(head[chars::position_from(head, '/', 0)] == '/');
    }
    assert(head.subrange(0, n) == head);
}

proof fn segments_shift(s: Seq<char>, from: int)
    requires
        0 <= from <= s.len(),
    ensures
        segments_from(s, from) == segments_from(s.skip(from), 0),
    decreases s.len() - from,
{
    let t = s.skip(from);
    let a = chars::position_from(s, '/', from);
    let b = chars::position_from(t, '/', 0);
    chars::position_from_bounds(s, '/', from);
    chars::position_from_bounds(t, '/', 0);
    if a - from < b {
        assert(t[a - from] == s[a]);
    }
    if b < a - from {
        assert(s[b + from] == t[b]);
    }
    assert(a - from == b);
    assert(s.subrange(from, a) == t.subrange(0, b));
    if a < s.len() {
        segments_shift(s, a + 1);
        segments_shift(t, b + 1);
        assert(t.skip(b + 1) == s.skip(a + 1));
    }
}

/// The parts of a path between slashes.
fn split_segments(path: &str) -> (out: Vec<String>)
    ensures
        chars::texts(out@) == segments(path@),
{
    let chars = chars_of(path);
    let mut out: Vec<String> = Vec::new();
    let mut from: usize = 0;
    loop
        invariant
            from <= chars.len(),
            chars@ == path@,
            chars::texts(out@) + segments_from(path@, from as int) == segments(path@),
        decreases chars.len() - from,
    {
        let end: usize = find_from(&chars, '/', from);
        let ghost before = chars::texts(out@);
        let ghost head = if end > from {
            seq![path@.subrange(from as int, end as int)]
        } else {
            Seq::empty()
        };
        if end > from {
            out.push(string_between(&chars, from, end));
            assert(chars::texts(out@) == before.push(path@.subrange(from as int, end as int)));
        }
        assert(chars::texts(out@) == before + head);
        if end == chars.len() {
            return out;
        }
        assert(chars::texts(out@) + segments_from(path@, end + 1) == before + (head + segments_from(path@, end + 1)));
        from = end + 1;
    }
}

/// The file name without what follows its last dot.
fn stem_of(name: &str) -> (out: String)
    ensures
        out@ == stem(name@),
        !name@.contains('.') ==> out@ == chars::trim(name@),
        forall|dot: int| #[trigger] ends_stem(name@, dot) ==> out@ == chars::trim(name@.take(dot)),
{
    proof {
        last_position_is_last(name@, '.');
        assert forall|dot: int| #[trigger] ends_stem(name@, dot) implies dot == last_position(name@, '.') by {}
    }
    let chars = chars_of(name);
    let mut i: usize = chars.len();
    assert(chars@.take(i as int) == chars@);
    while i > 0
        invariant
            i <= chars.len(),
            chars@ == name@,
            last_position(chars@.take(i as int), '.') == last_position(chars@, '.'),
            forall|dot: int| #[trigger] ends_stem(name@, dot) ==> dot == last_position(name@, '.'),
            last_position(name@, '.') < 0 <==> !name@.contains('.'),
        decreases i,
    {
        assert(chars@.take(i as int).drop_last() == chars@.take(i - 1));
        assert(chars@.take(i as int).last() == chars@[i - 1]);
        if chars[i - 1] == '.' {
            let start: usize = trim_start_index(&chars, 0, i - 1);
            let end: usize = trim_end_index(&chars, start, i - 1);
            assert(chars@.subrange(0, i - 1) == name@.take(i - 1));
            return string_between(&chars, start, end);
        }
        i = i - 1;
    }
    trimmed(name)
}

/// Splits a relative path into its directories and its file name without extension. Only the
/// last part loses its extension: a dot in a directory's name is no extension.
pub fn split_note_path(relative: &str) -> (out: (Vec<String>, String))
    ensures
        chars::texts(out.0@) == path_directories(relative@),
        out.1@ == path_stem(relative@),
        forall|i: int| 0 <= i < out.0@.len() ==> (#[trigger] out.0@[i])@.len() > 0 && !out.0@[i]@.contains('/'),
        !relative@.contains('/') && relative@.len() > 0 ==> out.0@.len() == 0 && out.1@ == stem(relative@),
{
    proof {
        segments_are_plain(relative@, 0);
        let list = segments(relative@);
        assert forall|i: int| 0 <= i < path_directories(relative@).len() implies (#[trigger] path_directories(relative@)[i]).len() > 0
            && !path_directories(relative@)[i].contains('/') by {
            assert(path_directories(relative@)[i] == list[i]);
        }
        assert(forall|made: Seq<String>, i: int|
            chars::texts(made) == path_directories(relative@) && 0 <= i < made.len() ==> (#[trigger] made[i])@ == path_directories(relative@)[i]) by {
            assert forall|made: Seq<String>, i: int| chars::texts(made) == path_directories(relative@) && 0 <= i < made.len() implies (
            #[trigger] made[i])@ == path_directories(relative@)[i] by {
                assert(chars::texts(made)[i] == made[i]@);
            }
        }
        if !relative@.contains('/') && relative@.len() > 0 {
            chars::position_from_bounds(relative@, '/', 0);
            assert(relative@.subrange(0, relative@.len() as int) == relative@);
            assert(list == seq![relative@]);
        }
    }
    let mut parts = split_segments(relative);
    let ghost all = chars::texts(parts@);
    match parts.pop() {
        None => (parts, String::new()),
        Some(last) => {
            assert(chars::texts(parts@) == all.drop_last());
            assert(all.last() == last@);
            (parts, stem_of(last.as_str()))
        },
    }
}

/// The directories and the file name of a stored note. A path that is not relative has no
/// directories to speak of.
pub fn note_path_parts(path: &str, is_absolute: bool, name: &str) -> (out: (Vec<String>, String))
    ensures
        chars::texts(out.0@) == (if is_absolute { Seq::<Seq<char>>::empty() } else { path_directories(path@) }),
        out.1@ == name@,
{
    if is_absolute {
        let none: Vec<String> = Vec::new();
        assert(chars::texts(none@) == Seq::<Seq<char>>::empty());
        return (none, name.to_owned());
    }
    (split_note_path(path).0, name.to_owned())
}

// ── Fingerprints ──────────────────────────────────────────────────────

/// The text that a record's fingerprint is taken of: what is searched, and the tags.
pub open spec fn fingerprint_source(body: Seq<char>, tags: Seq<Seq<char>>) -> Seq<char> {
    "text-v1\n"@ + body + "\n"@ + chars::joined(tags, " "@)
}

/// The fingerprint of a record: it changes when its searched text or its tags change, and its
/// vectors are void from then on.
pub fn record_fingerprint(body: &str, tags: &Vec<String>) -> (out: String)
    ensures
        out@ == text::sha256_hex(fingerprint_source(body@, chars::texts(tags@))),
{
    let mut source = chars::concat("text-v1\n", body);
    source.append("\n");
    source.append(join(tags, " ").as_str());
    digest(source.as_str())
}

/// The fingerprint's text tells both parts apart: where the joined tags hold no line feed, two
/// records have the same one exactly when their searched texts and their joined tags are the same.
pub proof fn fingerprint_source_injective(a: Seq<char>, x: Seq<Seq<char>>, b: Seq<char>, y: Seq<Seq<char>>)
    requires
        !chars::joined(x, " "@).contains('\n'),
        !chars::joined(y, " "@).contains('\n'),
    ensures
        fingerprint_source(a, x) == fingerprint_source(b, y) <==> a == b && chars::joined(x, " "@) == chars::joined(y, " "@),
{
    reveal_strlit("text-v1\n");
    reveal_strlit("\n");
    let head = "text-v1\n"@;
    let p = chars::joined(x, " "@);
    let q = chars::joined(y, " "@);
    let s = fingerprint_source(a, x);
    let t = fingerprint_source(b, y);
    if s == t {
        assert(s == head + a + "\n"@ + p);
        assert(t == head + b + "\n"@ + q);
        let n = head.len() as int;
        assert(s[n + a.len()] == '\n');
        assert(t[n + b.len()] == '\n');
        if a.len() < b.len() {
            let i = b.len() - a.len() - 1;
            assert(s[n + b.len()] == p[i]);
            assert(p.contains('\n'));
        }
        if b.len() < a.len() {
            let i = a.len() - b.len() - 1;
            assert(t[n + a.len()] == q[i]);
            assert(q.contains('\n'));
        }
        assert(a.len() == b.len());
        assert(s.len() == t.len());
        assert forall|i: int| 0 <= i < a.len() implies a[i] == b[i] by {
            assert(s[n + i] == a[i]);
            assert(t[n + i] == b[i]);
        }
        assert(a == b);
        assert forall|i: int| 0 <= i < p.len() implies p[i] == q[i] by {
            assert(s[n + a.len() + 1 + i] == p[i]);
            assert(t[n + b.len() + 1 + i] == q[i]);
        }
        assert(p == q);
    }
}

// ── What a record shows to the index ──────────────────────────────────

/// The members of `tags` that `exclude` does not hold, in order.
pub open spec fn tags_besides(tags: Seq<Seq<char>>, exclude: Seq<Seq<char>>) -> Seq<Seq<char>>
    decreases tags.len(),
{
    if tags.len() == 0 {
        Seq::empty()
    } else if exclude.contains(tags.last()) {
        tags_besides(tags.drop_last(), exclude)
    } else {
        tags_besides(tags.drop_last(), exclude).push(tags.last())
    }
}

/// The tags besides some are those that are not among them, in their order.
pub proof fn tags_besides_are_the_others(tags: Seq<Seq<char>>, exclude: Seq<Seq<char>>, t: Seq<char>)
    ensures
        tags_besides(tags, exclude).contains(t) <==> tags.contains(t) && !exclude.contains(t),
        tags_besides(tags, exclude).len() <= tags.len(),
    decreases tags.len(),
{
    if tags.len() > 0 {
        let rest = tags.drop_last();
        let before = tags_besides(rest, exclude);
        let all = tags_besides(tags, exclude);
        tags_besides_are_the_others(rest, exclude, t);
        if rest.contains(t) {
            let k = choose|k: int| 0 <= k < rest.len() && rest[k] == t;
            assert(tags[k] == t);
        }
        if tags.contains(t) && !rest.contains(t) {
            let k = choose|k: int| 0 <= k < tags.len() && tags[k] == t;
            if k < rest.len() {
                assert(rest[k] == t);
            }
            assert(t == tags.last());
        }
        if before.contains(t) {
            let k = choose|k: int| 0 <= k < before.len() && before[k] == t;
            assert(all[k] == t);
        }
        if all.contains(t) && !before.contains(t) {
            let k = choose|k: int| 0 <= k < all.len() && all[k] == t;
            if k < before.len() {
                assert(before[k] == t);
            }
            assert(tags[tags.len() - 1] == t);
        }
        if t == tags.last() && !exclude.contains(t) {
            assert(all[before.len() as int] == t);
            assert(tags[tags.len() - 1] == t);
        }
    }
}

proof fn nothing_excluded_all_kept(tags: Seq<Seq<char>>, exclude: Seq<Seq<char>>)
    ensures
        exclude.len() == 0 ==> tags_besides(tags, exclude) == tags,
    decreases tags.len(),
{
    if tags.len() > 0 {
        nothing_excluded_all_kept(tags.drop_last(), exclude);
        if exclude.len() == 0 {
            assert(tags == tags.drop_last().push(tags.last()));
        }
    }
}

/// Whether the record carries its tags in its searched text: a note never, a chunk where it is the
/// first of its note, any other record always.
pub open spec fn carries_tags(kind: RecordKind, payload: json::Tree) -> bool {
    match kind {
        RecordKind::Note => false,
        RecordKind::Chunk => json::nat_of(json::member(payload, "ordinal"@)) == Some(0u64),
        _ => true,
    }
}

/// The tags that stand before a record's searched text. Those in `exclude` have a column of their
/// own in the index.
pub fn tags_prefix(kind: RecordKind, tags: &Vec<String>, exclude: &Vec<String>, payload: &Json) -> (out: String)
    ensures
        out@ == (if carries_tags(kind, json::tree(*payload)) {
            chars::joined(tags_besides(chars::texts(tags@), chars::texts(exclude@)), " "@)
        } else {
            Seq::<char>::empty()
        }),
        kind == RecordKind::Note ==> out@.len() == 0,
        kind == RecordKind::Chunk && json::nat_of(json::member(json::tree(*payload), "ordinal"@)) != Some(0u64) ==> out@.len() == 0,
        kind == RecordKind::Chunk && json::nat_of(json::member(json::tree(*payload), "ordinal"@)) == Some(0u64) ==> out@ == chars::joined(
            tags_besides(chars::texts(tags@), chars::texts(exclude@)),
            " "@,
        ),
        kind != RecordKind::Note && kind != RecordKind::Chunk && exclude@.len() == 0 ==> out@ == chars::joined(chars::texts(tags@), " "@),
{
    proof {
        nothing_excluded_all_kept(chars::texts(tags@), chars::texts(exclude@));
    }
    let carries = match kind {
        RecordKind::Note => false,
        RecordKind::Chunk => match json::as_nat(json::get(payload, "ordinal")) {
            Some(n) => n == 0,
            None => false,
        },
        _ => true,
    };
    if !carries {
        return String::new();
    }
    let ghost all = chars::texts(tags@);
    let ghost out_of = chars::texts(exclude@);
    let mut kept: Vec<String> = Vec::new();
    let mut i: usize = 0;
    assert(all.take(0) == Seq::<Seq<char>>::empty());
    while i < tags.len()
        invariant
            i <= tags.len(),
            all == chars::texts(tags@),
            out_of == chars::texts(exclude@),
            chars::texts(kept@) == tags_besides(all.take(i as int), out_of),
        decreases tags.len() - i,
    {
        let ghost before = chars::texts(kept@);
        proof {
            assert(all.take(i + 1).drop_last() == all.take(i as int));
            assert(all.take(i + 1).last() == tags@[i as int]@);
        }
        if !ordering::holds(exclude, tags[i].as_str()) {
            kept.push(tags[i].clone());
            assert(chars::texts(kept@) == before.push(tags@[i as int]@));
        }
        i = i + 1;
    }
    assert(all.take(all.len() as int) == all);
    join(&kept, " ")
}

/// What the name and path columns of the index hold for a record, and which of its tags thereby
/// leave its searched text.
pub struct IndexColumns {
    pub name: String,
    pub path: String,
    pub exclude: Vec<String>,
}

/// A chunk that is not the first of its note: its ordinal is given and is not zero.
pub open spec fn later_chunk(payload: json::Tree) -> bool {
    match json::nat_of(json::member(payload, "ordinal"@)) {
        Some(n) => n != 0,
        None => false,
    }
}

/// The columns of a record. Only the first chunk of a note has the note's name and directories, so
/// that a query for a directory does not hit every chunk; an entity has its name.
pub open spec fn columns_are(kind: RecordKind, payload: json::Tree, dirs: Seq<Seq<char>>, name: Seq<char>, out: IndexColumns) -> bool {
    if kind == RecordKind::Chunk {
        if later_chunk(payload) {
            out.name@.len() == 0 && out.path@.len() == 0 && out.exclude@.len() == 0
        } else {
            &&& out.name@ == name
            &&& out.path@ == chars::joined(dirs, " "@)
            &&& chars::texts(out.exclude@) == (if name.len() > 0 { dirs.push(name) } else { dirs })
        }
    } else {
        &&& out.name@ == record_name_of(kind, payload)
        &&& out.path@.len() == 0
        &&& out.exclude@.len() == 0
    }
}

/// The columns of a record; `dirs` and `name` are the path parts of a chunk's note.
pub fn index_columns(kind: RecordKind, payload: &Json, dirs: &Vec<String>, name: &str) -> (out: IndexColumns)
    ensures
        columns_are(kind, json::tree(*payload), chars::texts(dirs@), name@, out),
        kind == RecordKind::Chunk && json::nat_of(json::member(json::tree(*payload), "ordinal"@)) == Some(0u64) ==> out.name@ == name@
            && out.path@ == chars::joined(chars::texts(dirs@), " "@),
        kind == RecordKind::Entity ==> (json::member(json::tree(*payload), "name"@) matches Some(json::Tree::Text(t)) ==> out.name@ == t),
        kind != RecordKind::Entity && kind != RecordKind::Chunk ==> out.name@.len() == 0,
        kind != RecordKind::Chunk ==> out.path@.len() == 0 && out.exclude@.len() == 0,
        kind == RecordKind::Chunk ==> match json::nat_of(json::member(json::tree(*payload), "ordinal"@)) {
            Some(n) => n > 0 ==> out.name@.len() == 0 && out.path@.len() == 0 && out.exclude@.len() == 0,
            None => out.name@ == name@ && out.path@ == chars::joined(chars::texts(dirs@), " "@),
        },
        kind == RecordKind::Chunk && json::nat_of(json::member(json::tree(*payload), "ordinal"@)) == Some(0u64) ==> out.exclude@.len() == dirs@.len() + (
        if name@.len() > 0 { 1int } else { 0int }),
        forall|t: Seq<char>| #[trigger]
            chars::texts(out.exclude@).contains(t) ==> chars::texts(dirs@).contains(t) || t == name@,
        out.exclude@.len() > 0 ==> forall|t: Seq<char>|
            chars::texts(dirs@).contains(t) || t == name@ && t.len() > 0 ==> #[trigger] chars::texts(out.exclude@).contains(t),
{
    if kind == RecordKind::Chunk {
        let later = match json::as_nat(json::get(payload, "ordinal")) {
            Some(n) => n != 0,
            None => false,
        };
        if later {
            return IndexColumns { name: String::new(), path: String::new(), exclude: Vec::new() };
        }
        let mut exclude = chars::copy_strings(dirs);
        if name.unicode_len() > 0 {
            let ghost before = chars::texts(exclude@);
            exclude.push(name.to_owned());
            assert(chars::texts(exclude@) == before.push(name@));
        }
        proof {
            let given = chars::texts(dirs@);
            let left = chars::texts(exclude@);
            assert forall|t: Seq<char>| given.contains(t) || t == name@ && t.len() > 0 implies #[trigger] left.contains(t) by {
                if given.contains(t) {
                    let k = choose|k: int| 0 <= k < given.len() && given[k] == t;
                    assert(left[k] == t);
                } else {
                    assert(left[given.len() as int] == t);
                }
            }
        }
        return IndexColumns { name: name.to_owned(), path: join(dirs, " "), exclude };
    }
    IndexColumns { name: record_name(kind, payload), path: String::new(), exclude: Vec::new() }
}

// ── The searched text of a record ─────────────────────────────────────

/// A field of a payload as text, empty where it is missing or no text.
pub open spec fn field(payload: json::Tree, key: Seq<char>) -> Seq<char> {
    json::text_or_empty(json::member(payload, key))
}

/// The name column of a record: an entity's name, nothing for other records.
pub open spec fn record_name_of(kind: RecordKind, payload: json::Tree) -> Seq<char> {
    if kind == RecordKind::Entity {
        field(payload, "name"@)
    } else {
        Seq::empty()
    }
}

/// The attributes of an entity as text: each key followed by its texts.
pub open spec fn attribute_texts(fields: Seq<(Seq<char>, json::Tree)>) -> Seq<Seq<char>> {
    Seq::new(
        fields.len(),
        |i: int| fields[i].0 + " "@ + chars::joined(json::texts_in(Some(fields[i].1)), " "@),
    )
}

/// The attributes of an entity, joined.
pub open spec fn attributes_text(value: Option<json::Tree>) -> Seq<char> {
    match value {
        Some(json::Tree::Object(fields)) => chars::joined(attribute_texts(fields), " "@),
        _ => Seq::empty(),
    }
}

/// The searched text of an entity: its aliases, summary and attributes. Its name has a column of
/// its own.
pub open spec fn entity_body_of(payload: json::Tree) -> Seq<char> {
    chars::joined(json::texts_in(json::member(payload, "aliases"@)), " "@) + " "@ + field(payload, "summary"@) + " "@
        + attributes_text(json::member(payload, "attributes"@))
}

/// The searched text of a record. Notes have none of their own, and a chunk's comes with the chunk.
pub open spec fn record_text_of(kind: RecordKind, payload: json::Tree) -> Seq<char> {
    match kind {
        RecordKind::Memory => field(payload, "judgment"@),
        RecordKind::Entity => entity_body_of(payload),
        RecordKind::Relation => field(payload, "subject_name"@) + " "@ + field(payload, "predicate"@) + " "@
            + field(payload, "object_name"@) + " "@ + field(payload, "reason"@),
        RecordKind::Event => field(payload, "name"@) + " "@ + field(payload, "summary"@) + " "@
            + chars::joined(json::texts_in(json::member(payload, "participant_names"@)), " "@) + " "@
            + field(payload, "reason"@),
        RecordKind::Note => Seq::empty(),
        RecordKind::Chunk => Seq::empty(),
    }
}

/// Four texts with a space between each two.
pub fn four_words(a: &str, b: &str, c: &str, d: &str) -> (out: String)
    ensures
        out@ == a@ + " "@ + b@ + " "@ + c@ + " "@ + d@,
{
    let mut out = a.to_owned();
    out.append(" ");
    out.append(b);
    out.append(" ");
    out.append(c);
    out.append(" ");
    out.append(d);
    out
}

fn field_text(payload: &Json, key: &str) -> (out: String)
    ensures
        out@ == field(json::tree(*payload), key@),
        json::member(json::tree(*payload), key@) matches Some(json::Tree::Text(t)) ==> out@ == t,
        !(json::member(json::tree(*payload), key@) matches Some(json::Tree::Text(_))) ==> out@.len() == 0,
{
    json::as_text(json::get(payload, key))
}

/// The names in a list of participants, joined.
fn name_list(payload: &Json) -> (out: String)
    ensures
        out@ == chars::joined(json::texts_in(json::member(json::tree(*payload), "participant_names"@)), " "@),
{
    join(&json::as_texts(json::get(payload, "participant_names")), " ")
}

/// The searched text of an entity.
fn entity_body(payload: &Json) -> (out: String)
    ensures
        out@ == entity_body_of(json::tree(*payload)),
        ({
            let names = chars::joined(json::texts_in(json::member(json::tree(*payload), "aliases"@)), " "@);
            let summary = field(json::tree(*payload), "summary"@);
            let values = attributes_text(json::member(json::tree(*payload), "attributes"@));
            &&& out@.len() == names.len() + summary.len() + values.len() + 2
            &&& out@.take(names.len() as int) == names
            &&& out@.subrange(names.len() + 1int, names.len() + 1int + summary.len()) == summary
            &&& out@.skip(names.len() + summary.len() + 2int) == values
        }),
{
    let mut out = join(&json::as_texts(json::get(payload, "aliases")), " ");
    out.append(" ");
    out.append(field_text(payload, "summary").as_str());
    out.append(" ");
    match json::get(payload, "attributes") {
        Some(Json::Object(fields)) => {
            let ghost all = json::field_trees(fields@);
            proof {
                json::tree_of_object(*fields);
            }
            let mut lines: Vec<String> = Vec::new();
            let mut i: usize = 0;
            while i < fields.len()
                invariant
                    i <= fields.len(),
                    all == json::field_trees(fields@),
                    chars::texts(lines@) == attribute_texts(all).take(i as int),
                decreases fields.len() - i,
            {
                let ghost before = chars::texts(lines@);
                let mut line = chars::concat(fields[i].0.as_str(), " ");
                line.append(join(&json::as_texts(Some(&fields[i].1)), " ").as_str());
                lines.push(line);
                proof {
                    assert(chars::texts(lines@) == before.push(attribute_texts(all)[i as int]));
                    assert(attribute_texts(all).take(i + 1) == attribute_texts(all).take(i as int).push(attribute_texts(all)[i as int]));
                }
                i = i + 1;
            }
            assert(attribute_texts(all).take(all.len() as int) == attribute_texts(all));
            out.append(join(&lines, " ").as_str());
        },
        _ => {
            assert(out@ + Seq::<char>::empty() == out@);
        },
    }
    proof {
        reveal_strlit(" ");
    }
    out
}

/// The searched text of a record.
pub fn record_text(kind: RecordKind, payload: &Json) -> (out: String)
    ensures
        out@ == record_text_of(kind, json::tree(*payload)),
        kind == RecordKind::Memory ==> (json::member(json::tree(*payload), "judgment"@) matches Some(json::Tree::Text(t)) ==> out@ == t),
        kind == RecordKind::Relation ==> out@ == field(json::tree(*payload), "subject_name"@) + " "@ + field(json::tree(*payload), "predicate"@)
            + " "@ + field(json::tree(*payload), "object_name"@) + " "@ + field(json::tree(*payload), "reason"@),
        kind == RecordKind::Event ==> out@ == field(json::tree(*payload), "name"@) + " "@ + field(json::tree(*payload), "summary"@) + " "@
            + chars::joined(json::texts_in(json::member(json::tree(*payload), "participant_names"@)), " "@) + " "@ + field(
            json::tree(*payload),
            "reason"@,
        ),
        kind == RecordKind::Entity ==> out@ == chars::joined(json::texts_in(json::member(json::tree(*payload), "aliases"@)), " "@) + " "@
            + field(json::tree(*payload), "summary"@) + " "@ + attributes_text(json::member(json::tree(*payload), "attributes"@)),
        kind == RecordKind::Note || kind == RecordKind::Chunk ==> out@.len() == 0,
{
    match kind {
        RecordKind::Memory => field_text(payload, "judgment"),
        RecordKind::Entity => entity_body(payload),
        RecordKind::Relation => four_words(
            field_text(payload, "subject_name").as_str(),
            field_text(payload, "predicate").as_str(),
            field_text(payload, "object_name").as_str(),
            field_text(payload, "reason").as_str(),
        ),
        RecordKind::Event => four_words(
            field_text(payload, "name").as_str(),
            field_text(payload, "summary").as_str(),
            name_list(payload).as_str(),
            field_text(payload, "reason").as_str(),
        ),
        RecordKind::Note => String::new(),
        RecordKind::Chunk => String::new(),
    }
}

/// The name column of a record.
pub fn record_name(kind: RecordKind, payload: &Json) -> (out: String)
    ensures
        out@ == record_name_of(kind, json::tree(*payload)),
        kind != RecordKind::Entity ==> out@.len() == 0,
        kind == RecordKind::Entity ==> (json::member(json::tree(*payload), "name"@) matches Some(json::Tree::Text(t)) ==> out@ == t),
{
    if kind == RecordKind::Entity {
        field_text(payload, "name")
    } else {
        String::new()
    }
}

} // verus!
