//! Text as a sequence of characters.
//!
//! Everything here reads a string as `Seq<char>`. The functions that the standard library
//! has for the same purpose are stated here as short specifications and proved.

use vstd::prelude::*;

verus! {

/// `String::push` appends one character at the end.
pub assume_specification[ String::push ](s: &mut String, ch: char)
    ensures
        final(s)@ == old(s)@.push(ch),
;

/// The texts of a sequence of strings.
pub open spec fn texts(v: Seq<String>) -> Seq<Seq<char>> {
    Seq::new(v.len(), |i: int| v[i]@)
}

/// The characters of a text, in order.
pub fn chars_of(text: &str) -> (out: Vec<char>)
    ensures
        out@ == text@,
{
    let mut out: Vec<char> = Vec::new();
    for ch in iter: text.chars()
        invariant
            out@ == text@.take(iter.index() as int),
            iter.seq() == text@,
    {
        out.push(ch);
        assert(out@ == text@.take(iter.index() + 1));
    }
    assert(text@.take(text@.len() as int) == text@);
    out
}

/// The part of `chars` from `from` up to `to`, as a string.
pub fn string_between(chars: &Vec<char>, from: usize, to: usize) -> (out: String)
    requires
        from <= to <= chars.len(),
    ensures
        out@ == chars@.subrange(from as int, to as int),
{
    let mut out = String::new();
    let mut i: usize = from;
    while i < to
        invariant
            from <= i <= to <= chars.len(),
            out@ == chars@.subrange(from as int, i as int),
        decreases to - i,
    {
        out.push(chars[i]);
        assert(chars@.subrange(from as int, i as int).push(chars@[i as int]) == chars@.subrange(from as int, i + 1));
        i = i + 1;
    }
    out
}

/// The string that `chars` spells.
pub fn string_of(chars: &Vec<char>) -> (out: String)
    ensures
        out@ == chars@,
{
    let out = string_between(chars, 0, chars.len());
    assert(chars@.subrange(0, chars@.len() as int) == chars@);
    out
}

/// `a` followed by `b`.
pub fn concat(a: &str, b: &str) -> (out: String)
    ensures
        out@ == a@ + b@,
{
    let mut out = a.to_owned();
    out.append(b);
    out
}

/// A copy of a list of strings.
pub fn copy_strings(list: &Vec<String>) -> (out: Vec<String>)
    ensures
        out@ == list@,
{
    let mut out: Vec<String> = Vec::new();
    let mut i: usize = 0;
    while i < list.len()
        invariant
            i <= list.len(),
            out@ == list@.take(i as int),
        decreases list.len() - i,
    {
        out.push(list[i].clone());
        assert(out@ == list@.take(i + 1));
        i = i + 1;
    }
    assert(list@.take(list@.len() as int) == list@);
    out
}

// ── Character classes ─────────────────────────────────────────────────

/// The characters with the Unicode property White_Space.
pub open spec fn whitespace(ch: char) -> bool {
    let c = ch as int;
    ||| 0x9 <= c <= 0xd
    ||| c == 0x20
    ||| c == 0x85
    ||| c == 0xa0
    ||| c == 0x1680
    ||| 0x2000 <= c <= 0x200a
    ||| c == 0x2028
    ||| c == 0x2029
    ||| c == 0x202f
    ||| c == 0x205f
    ||| c == 0x3000
}

/// The control characters: the Unicode general category Cc.
pub open spec fn control(ch: char) -> bool {
    let c = ch as int;
    c <= 0x1f || 0x7f <= c <= 0x9f
}

/// The code point of a character.
pub fn code_of(ch: char) -> (out: u32)
    ensures
        out == ch as int,
{
    ch as u32
}

/// Whether `ch` is white space.
pub fn is_whitespace(ch: char) -> (out: bool)
    ensures
        out == whitespace(ch),
        (ch as int) < 128 ==> (out <==> 9 <= ch as int <= 13 || ch == ' '),
        ch as int == 0x85 || ch as int == 0xa0 || ch as int == 0x1680 || 0x2000 <= ch as int <= 0x200a || ch as int == 0x2028 || ch as int == 0x2029
            || ch as int == 0x202f || ch as int == 0x205f || ch as int == 0x3000 ==> out,
        out ==> ch as int <= 0x20 || ch as int == 0x85 || ch as int == 0xa0 || ch as int == 0x1680 || 0x2000 <= ch as int <= 0x200a || 0x2028
            <= ch as int <= 0x2029 || ch as int == 0x202f || ch as int == 0x205f || ch as int == 0x3000,
{
    let c = ch as u32;
    (0x9 <= c && c <= 0xd) || c == 0x20 || c == 0x85 || c == 0xa0 || c == 0x1680
        || (0x2000 <= c && c <= 0x200a) || c == 0x2028 || c == 0x2029 || c == 0x202f
        || c == 0x205f || c == 0x3000
}

/// Whether `ch` is a control character.
pub fn is_control(ch: char) -> (out: bool)
    ensures
        out == control(ch),
        ch as int <= 31 || 127 <= ch as int <= 159 ==> out,
        32 <= ch as int <= 126 || ch as int >= 160 ==> !out,
{
    let c = ch as u32;
    c <= 0x1f || (0x7f <= c && c <= 0x9f)
}

/// A character beyond ASCII that has no case: white space, general punctuation, and the symbols,
/// syllables and ideographs of East Asian scripts.
pub open spec fn caseless(ch: char) -> bool {
    let c = ch as int;
    c >= 128 && {
        ||| whitespace(ch)
        ||| 0x2000 <= c <= 0x206f
        ||| 0x3000 <= c <= 0x9fff
        ||| 0xf900 <= c <= 0xfaff
        ||| 0x20000 <= c <= 0x323af
    }
}

/// What `char::to_lowercase` gives for a character beyond ASCII that may have case.
pub uninterp spec fn lowercase_of(ch: char) -> Seq<char>;

/// An ASCII capital as the small letter, another character as it is.
pub open spec fn ascii_lower(ch: char) -> char {
    if 'A' <= ch && ch <= 'Z' {
        (ch as int + 32) as char
    } else {
        ch
    }
}

/// A character in lowercase: one character for ASCII and for what has no case, one or more for others.
pub open spec fn lower(ch: char) -> Seq<char> {
    if (ch as int) < 128 {
        seq![ascii_lower(ch)]
    } else if caseless(ch) {
        seq![ch]
    } else {
        lowercase_of(ch)
    }
}

/// `char::to_lowercase`: the characters of the lowercase form of `ch`. In ASCII the capitals become
/// small letters and all else stays. A character without a lowercase mapping gives itself, as do
/// those that are `caseless`. What is left follows from `ch` alone, and is named `lowercase_of`.
#[verifier::external_body]
pub(crate) fn lowercase(ch: char) -> (out: Vec<char>)
    ensures
        (ch as int) < 128 ==> out@ == seq![ascii_lower(ch)],
        caseless(ch) ==> out@ == seq![ch],
        ch as int >= 128 && !caseless(ch) ==> out@ == lowercase_of(ch),
{
    ch.to_lowercase().collect()
}

/// What `char::is_alphanumeric` answers for a character beyond ASCII.
pub uninterp spec fn alphanumeric(ch: char) -> bool;

/// An ASCII letter or digit.
pub open spec fn ascii_alphanumeric(ch: char) -> bool {
    'a' <= ch && ch <= 'z' || 'A' <= ch && ch <= 'Z' || '0' <= ch && ch <= '9'
}

/// A letter or a number.
pub open spec fn letter_or_number(ch: char) -> bool {
    if (ch as int) < 128 {
        ascii_alphanumeric(ch)
    } else {
        alphanumeric(ch)
    }
}

/// `char::is_alphanumeric`: whether `ch` is a letter or a number. In ASCII these are the letters and
/// the digits; beyond ASCII the answer follows from `ch` alone, and is named `alphanumeric`.
#[verifier::external_body]
pub(crate) fn is_alphanumeric(ch: char) -> (out: bool)
    ensures
        (ch as int) < 128 ==> out == ascii_alphanumeric(ch),
        ch as int >= 128 ==> out == alphanumeric(ch),
{
    ch.is_alphanumeric()
}

// ── Trimming ──────────────────────────────────────────────────────────

/// `s` without its leading white space.
pub open spec fn trim_start(s: Seq<char>) -> Seq<char>
    decreases s.len(),
{
    if s.len() > 0 && whitespace(s[0]) {
        trim_start(s.drop_first())
    } else {
        s
    }
}

/// `s` without its trailing white space.
pub open spec fn trim_end(s: Seq<char>) -> Seq<char>
    decreases s.len(),
{
    if s.len() > 0 && whitespace(s.last()) {
        trim_end(s.drop_last())
    } else {
        s
    }
}

/// `s` without white space at either end.
pub open spec fn trim(s: Seq<char>) -> Seq<char> {
    trim_end(trim_start(s))
}

/// All of `s` is white space.
pub open spec fn blank(s: Seq<char>) -> bool {
    forall|i: int| 0 <= i < s.len() ==> whitespace(#[trigger] s[i])
}

/// Where the leading white space of `chars`, read from `from` to `to`, ends.
pub fn trim_start_index(chars: &Vec<char>, from: usize, to: usize) -> (out: usize)
    requires
        from <= to <= chars.len(),
    ensures
        from <= out <= to,
        chars@.subrange(out as int, to as int) == trim_start(chars@.subrange(from as int, to as int)),
        out < to ==> !whitespace(chars@[out as int]),
{
    let mut i: usize = from;
    while i < to && is_whitespace(chars[i])
        invariant
            from <= i <= to <= chars.len(),
            trim_start(chars@.subrange(i as int, to as int)) == trim_start(chars@.subrange(from as int, to as int)),
        decreases to - i,
    {
        assert(chars@.subrange(i as int, to as int).drop_first() == chars@.subrange(i + 1, to as int));
        i = i + 1;
    }
    i
}

/// Where the trailing white space of `chars`, read from `from` to `to`, begins.
pub fn trim_end_index(chars: &Vec<char>, from: usize, to: usize) -> (out: usize)
    requires
        from <= to <= chars.len(),
    ensures
        from <= out <= to,
        chars@.subrange(from as int, out as int) == trim_end(chars@.subrange(from as int, to as int)),
        out > from ==> !whitespace(chars@[out - 1]),
{
    let mut i: usize = to;
    while i > from && is_whitespace(chars[i - 1])
        invariant
            from <= i <= to <= chars.len(),
            trim_end(chars@.subrange(from as int, i as int)) == trim_end(chars@.subrange(from as int, to as int)),
        decreases i,
    {
        assert(chars@.subrange(from as int, i as int).drop_last() == chars@.subrange(from as int, i - 1));
        i = i - 1;
    }
    i
}

/// `text` without white space at either end.
pub fn trimmed(text: &str) -> (out: String)
    ensures
        out@ == trim(text@),
        out@.len() > 0 ==> !whitespace(out@[0]) && !whitespace(out@.last()),
        exists|a: Seq<char>, b: Seq<char>| #[trigger] (a + out@ + b) == text@ && blank(a) && blank(b),
{
    proof {
        trim_takes_only_space(text@);
    }
    let chars = chars_of(text);
    let start: usize = trim_start_index(&chars, 0, chars.len());
    let end: usize = trim_end_index(&chars, start, chars.len());
    assert(chars@.subrange(0, chars@.len() as int) == chars@);
    string_between(&chars, start, end)
}

/// Trimming leaves nothing exactly when all of the text is white space.
pub proof fn trim_empty_iff_blank(s: Seq<char>)
    ensures
        (trim(s).len() == 0) == blank(s),
        (trim_start(s).len() == 0) == blank(s),
    decreases s.len(),
{
    if s.len() > 0 && whitespace(s[0]) {
        trim_empty_iff_blank(s.drop_first());
        assert forall|i: int| blank(s.drop_first()) && 0 <= i < s.len() implies whitespace(#[trigger] s[i]) by {
            if i > 0 {
                assert(s.drop_first()[i - 1] == s[i]);
            }
        }
        assert forall|i: int| blank(s) && 0 <= i < s.drop_first().len() implies whitespace(
            #[trigger] s.drop_first()[i],
        ) by {
            assert(s.drop_first()[i] == s[i + 1]);
        }
    } else if s.len() > 0 {
        trim_end_keeps_first(s);
        assert(!whitespace(s[0]));
    }
}

/// Trailing white space is cut only behind a character that is none.
proof fn trim_end_keeps_first(s: Seq<char>)
    requires
        s.len() > 0,
        !whitespace(s[0]),
    ensures
        trim_end(s).len() > 0,
    decreases s.len(),
{
    if whitespace(s.last()) {
        assert(s.len() > 1);
        assert(s.drop_last()[0] == s[0]);
        trim_end_keeps_first(s.drop_last());
    }
}

/// Whether `text` holds nothing but white space.
pub fn is_blank(text: &str) -> (out: bool)
    ensures
        out == blank(text@),
        out == (trim(text@).len() == 0),
{
    let chars = chars_of(text);
    let start: usize = trim_start_index(&chars, 0, chars.len());
    proof {
        assert(chars@.subrange(0, chars@.len() as int) == chars@);
        trim_empty_iff_blank(text@);
    }
    start == chars.len()
}

// ── Searching inside a text ───────────────────────────────────────────

/// `part` stands in `s` at position `at`.
pub open spec fn stands_at(s: Seq<char>, part: Seq<char>, at: int) -> bool {
    0 <= at <= s.len() - part.len() && s.subrange(at, at + part.len()) == part
}

/// `part` stands somewhere in `s`.
pub open spec fn contains_text(s: Seq<char>, part: Seq<char>) -> bool {
    exists|at: int| #[trigger] stands_at(s, part, at)
}

/// `s` begins with `part`.
pub open spec fn begins_with(s: Seq<char>, part: Seq<char>) -> bool {
    stands_at(s, part, 0)
}

proof fn trim_start_is_tail(s: Seq<char>)
    ensures
        trim_start(s).len() <= s.len(),
        trim_start(s) == s.skip(s.len() - trim_start(s).len()),
        trim_start(s).len() > 0 ==> !whitespace(trim_start(s)[0]),
    decreases s.len(),
{
    if s.len() > 0 && whitespace(s[0]) {
        trim_start_is_tail(s.drop_first());
    }
    assert(trim_start(s) == s.skip(s.len() - trim_start(s).len()));
}

proof fn trim_end_is_head(s: Seq<char>)
    ensures
        trim_end(s).len() <= s.len(),
        trim_end(s) == s.take(trim_end(s).len() as int),
        trim_end(s).len() > 0 ==> !whitespace(trim_end(s).last()),
    decreases s.len(),
{
    if s.len() > 0 && whitespace(s.last()) {
        trim_end_is_head(s.drop_last());
    }
    assert(trim_end(s) == s.take(trim_end(s).len() as int));
}

/// A trimmed text is a stretch of the text and has no white space at its ends.
pub proof fn trim_leaves_a_stretch(s: Seq<char>)
    ensures
        contains_text(s, trim(s)),
        trim(s).len() > 0 ==> !whitespace(trim(s)[0]) && !whitespace(trim(s).last()),
{
    let tail = trim_start(s);
    let t = trim(s);
    trim_start_is_tail(s);
    trim_end_is_head(tail);
    let at = s.len() - tail.len();
    assert(s.subrange(at, at + t.len()) == t);
    assert(stands_at(s, t, at));
    if t.len() > 0 {
        assert(t[0] == tail[0]);
    }
}

/// A text without white space at its ends stays as it is.
pub proof fn trim_keeps(s: Seq<char>)
    requires
        s.len() > 0 ==> !whitespace(s[0]) && !whitespace(s.last()),
    ensures
        trim(s) == s,
{
}

/// Trimming takes white space from both ends and nothing else.
pub proof fn trim_takes_only_space(s: Seq<char>)
    ensures
        exists|a: Seq<char>, b: Seq<char>| #[trigger] (a + trim(s) + b) == s && blank(a) && blank(b),
        exists|a: Seq<char>| #[trigger] (a + trim_start(s)) == s && blank(a),
        trim(s).len() > 0 ==> !whitespace(trim(s)[0]) && !whitespace(trim(s).last()),
        trim_start(s).len() > 0 ==> !whitespace(trim_start(s)[0]),
{
    let tail = trim_start(s);
    let t = trim(s);
    trim_start_is_tail(s);
    trim_end_is_head(tail);
    trim_leaves_a_stretch(s);
    front_is_blank(s);
    back_is_blank(tail);
    let a = s.take(s.len() - tail.len());
    let b = tail.skip(t.len() as int);
    assert(a + tail == s);
    assert(a + t + b == s) by {
        assert(t + b == tail);
        assert(a + t + b == a + (t + b));
    }
}

proof fn front_is_blank(s: Seq<char>)
    ensures
        trim_start(s).len() <= s.len(),
        blank(s.take(s.len() - trim_start(s).len())),
    decreases s.len(),
{
    if s.len() > 0 && whitespace(s[0]) {
        let rest = s.drop_first();
        front_is_blank(rest);
        let head = s.take(s.len() - trim_start(s).len());
        assert forall|i: int| 0 <= i < head.len() implies whitespace(#[trigger] head[i]) by {
            if i > 0 {
                assert(head[i] == rest.take(rest.len() - trim_start(rest).len())[i - 1]);
            }
        }
    }
}

proof fn back_is_blank(s: Seq<char>)
    ensures
        trim_end(s).len() <= s.len(),
        blank(s.skip(trim_end(s).len() as int)),
    decreases s.len(),
{
    if s.len() > 0 && whitespace(s.last()) {
        let rest = s.drop_last();
        back_is_blank(rest);
        let tail = s.skip(trim_end(s).len() as int);
        let less = rest.skip(trim_end(s).len() as int);
        assert forall|i: int| 0 <= i < tail.len() implies whitespace(#[trigger] tail[i]) by {
            if i < less.len() {
                assert(tail[i] == less[i]);
            }
        }
    }
}

/// Whether `part` stands in `chars` at position `at`.
pub fn is_at(chars: &Vec<char>, part: &Vec<char>, at: usize) -> (out: bool)
    requires
        at <= chars.len(),
    ensures
        out == stands_at(chars@, part@, at as int),
{
    if part.len() > chars.len() - at {
        return false;
    }
    let mut i: usize = 0;
    while i < part.len()
        invariant
            i <= part.len(),
            at + part.len() <= chars.len(),
            forall|k: int| 0 <= k < i ==> part@[k] == chars@[at + k],
        decreases part.len() - i,
    {
        if chars[at + i] != part[i] {
            assert(chars@.subrange(at as int, at + part@.len())[i as int] != part@[i as int]);
            return false;
        }
        i = i + 1;
    }
    assert(chars@.subrange(at as int, at + part@.len()) == part@);
    true
}

/// Whether `part` stands somewhere in `chars`.
pub fn has_text(chars: &Vec<char>, part: &Vec<char>) -> (out: bool)
    ensures
        out == contains_text(chars@, part@),
{
    let mut at: usize = 0;
    loop
        invariant
            at <= chars.len(),
            forall|k: int| 0 <= k < at ==> !#[trigger] stands_at(chars@, part@, k),
        decreases chars.len() - at,
    {
        if is_at(chars, part, at) {
            return true;
        }
        if at == chars.len() {
            return false;
        }
        at = at + 1;
    }
}

/// Whether `chars` holds `ch`.
pub fn has_char(chars: &Vec<char>, ch: char) -> (out: bool)
    ensures
        out == chars@.contains(ch),
{
    let mut i: usize = 0;
    while i < chars.len()
        invariant
            i <= chars.len(),
            forall|k: int| 0 <= k < i ==> chars@[k] != ch,
        decreases chars.len() - i,
    {
        if chars[i] == ch {
            assert(chars@[i as int] == ch);
            return true;
        }
        i = i + 1;
    }
    false
}

/// Whether `chars` holds nothing but white space.
pub fn is_blank_chars(chars: &Vec<char>) -> (out: bool)
    ensures
        out == blank(chars@),
{
    let mut i: usize = 0;
    while i < chars.len()
        invariant
            i <= chars.len(),
            forall|k: int| 0 <= k < i ==> whitespace(#[trigger] chars@[k]),
        decreases chars.len() - i,
    {
        if !is_whitespace(chars[i]) {
            return false;
        }
        i = i + 1;
    }
    true
}

/// How many characters at the head of `s` are `ch`.
pub open spec fn run_of(s: Seq<char>, ch: char) -> nat
    decreases s.len(),
{
    if s.len() > 0 && s[0] == ch {
        1 + run_of(s.drop_first(), ch)
    } else {
        0
    }
}

/// How many characters of `chars` from `from` up to `to` are `ch` without a break.
pub fn run_length(chars: &Vec<char>, from: usize, to: usize, ch: char) -> (out: usize)
    requires
        from <= to <= chars.len(),
    ensures
        out <= to - from,
        out == run_of(chars@.subrange(from as int, to as int), ch),
{
    let mut i: usize = from;
    while i < to && chars[i] == ch
        invariant
            from <= i <= to <= chars.len(),
            (i - from) + run_of(chars@.subrange(i as int, to as int), ch) == run_of(
                chars@.subrange(from as int, to as int),
                ch,
            ),
        decreases to - i,
    {
        assert(chars@.subrange(i as int, to as int).drop_first() == chars@.subrange(i + 1, to as int));
        i = i + 1;
    }
    i - from
}

// ── Lines, words, joining ─────────────────────────────────────────────

/// The first position at or after `from` where `s` holds `ch`; the length where there is none.
pub open spec fn position_from(s: Seq<char>, ch: char, from: int) -> int
    decreases s.len() - from,
{
    if from < 0 || from >= s.len() {
        s.len() as int
    } else if s[from] == ch {
        from
    } else {
        position_from(s, ch, from + 1)
    }
}

pub proof fn position_from_bounds(s: Seq<char>, ch: char, from: int)
    requires
        0 <= from <= s.len(),
    ensures
        from <= position_from(s, ch, from) <= s.len(),
        position_from(s, ch, from) < s.len() ==> s[position_from(s, ch, from)] == ch,
        forall|i: int| from <= i < position_from(s, ch, from) ==> #[trigger] s[i] != ch,
    decreases s.len() - from,
{
    if from < s.len() && s[from] != ch {
        position_from_bounds(s, ch, from + 1);
    }
}

/// The first position at or after `from` where `chars` holds `ch`, or the length.
pub fn find_from(chars: &Vec<char>, ch: char, from: usize) -> (out: usize)
    requires
        from <= chars.len(),
    ensures
        out == position_from(chars@, ch, from as int),
        from <= out <= chars.len(),
{
    let mut i: usize = from;
    while i < chars.len() && chars[i] != ch
        invariant
            from <= i <= chars.len(),
            position_from(chars@, ch, i as int) == position_from(chars@, ch, from as int),
        decreases chars.len() - i,
    {
        i = i + 1;
    }
    i
}

/// A line without the carriage return before its line feed.
pub open spec fn without_return(s: Seq<char>) -> Seq<char> {
    if s.len() > 0 && s.last() == '\r' {
        s.drop_last()
    } else {
        s
    }
}

/// The lines of `s` from position `from` on. A line feed ends a line, a carriage return just
/// before it belongs to the ending, and a last line without a line feed counts when it is not
/// empty.
pub open spec fn lines_from(s: Seq<char>, from: int) -> Seq<Seq<char>>
    decreases s.len() - from,
    when 0 <= from <= s.len()
    via lines_from_decreases
{
    if from >= s.len() {
        Seq::empty()
    } else {
        let end = position_from(s, '\n', from);
        if end >= s.len() {
            seq![s.subrange(from, s.len() as int)]
        } else {
            seq![without_return(s.subrange(from, end))] + lines_from(s, end + 1)
        }
    }
}

#[via_fn]
proof fn lines_from_decreases(s: Seq<char>, from: int) {
    position_from_bounds(s, '\n', from);
}

/// The lines of a text.
pub open spec fn lines(s: Seq<char>) -> Seq<Seq<char>> {
    lines_from(s, 0)
}

/// A line ends at a line feed, which belongs to no line, nor does a carriage return in front of it.
/// A text without a line feed is one line, and an empty text has none.
pub proof fn a_feed_ends_a_line(line: Seq<char>, rest: Seq<char>)
    requires
        !line.contains('\n'),
    ensures
        line.len() > 0 ==> lines(line) == seq![line],
        lines(Seq::<char>::empty()) == Seq::<Seq<char>>::empty(),
        lines(line + seq!['\n'] + rest) == seq![without_return(line)] + lines(rest),
        lines(line + seq!['\r', '\n'] + rest) == seq![line] + lines(rest),
{
    position_from_bounds(line, '\n', 0);
    let n = line.len() as int;
    if position_from(line, '\n', 0) < n {
        assert(line[position_from(line, '\n', 0)] == '\n');
    }
    assert(line.subrange(0, n) == line);
    line_is_first(line, line + seq!['\n'] + rest, rest);
    let returned = line.push('\r');
    assert(!returned.contains('\n')) by {
        if returned.contains('\n') {
            let k = choose|k: int| 0 <= k < returned.len() && returned[k] == '\n';
            assert(line[k] == '\n');
        }
    }
    assert(line + seq!['\r', '\n'] + rest == returned + seq!['\n'] + rest);
    line_is_first(returned, returned + seq!['\n'] + rest, rest);
    assert(returned.drop_last() == line);
}

proof fn line_is_first(line: Seq<char>, all: Seq<char>, rest: Seq<char>)
    requires
        !line.contains('\n'),
        all == line + seq!['\n'] + rest,
    ensures
        lines(all) == seq![without_return(line)] + lines(rest),
{
    let n = line.len() as int;
    position_from_bounds(all, '\n', 0);
    let end = position_from(all, '\n', 0);
    assert(all[n] == '\n');
    if end < n {
        assert(line[end] == '\n');
    }
    assert(all.subrange(0, n) == line);
    lines_shift(all, n + 1);
    assert(all.skip(n + 1) == rest);
}

proof fn lines_shift(s: Seq<char>, from: int)
    requires
        0 <= from <= s.len(),
    ensures
        lines_from(s, from) == lines_from(s.skip(from), 0),
    decreases s.len() - from,
{
    if from < s.len() {
        let t = s.skip(from);
        let a = position_from(s, '\n', from);
        let b = position_from(t, '\n', 0);
        position_from_bounds(s, '\n', from);
        position_from_bounds(t, '\n', 0);
        if a - from < b {
            assert(t[a - from] == s[a]);
        }
        if b < a - from {
            assert(s[b + from] == t[b]);
        }
        assert(s.subrange(from, a) == t.subrange(0, b));
        if a < s.len() {
            lines_shift(s, a + 1);
            lines_shift(t, b + 1);
            assert(t.skip(b + 1) == s.skip(a + 1));
        }
    }
}

/// The lines of `text`, each as its characters.
pub fn lines_of(text: &str) -> (out: Vec<Vec<char>>)
    ensures
        out.len() == lines(text@).len(),
        forall|i: int| 0 <= i < out.len() ==> (#[trigger] out@[i])@ == lines(text@)[i],
{
    let chars = chars_of(text);
    let mut out: Vec<Vec<char>> = Vec::new();
    let mut from: usize = 0;
    while from < chars.len()
        invariant
            from <= chars.len(),
            chars@ == text@,
            lines(text@) == line_views(out@) + lines_from(text@, from as int),
        decreases chars.len() - from,
    {
        let ghost before = line_views(out@);
        let end: usize = find_from(&chars, '\n', from);
        if end == chars.len() {
            out.push(copy_between(&chars, from, end));
            from = end;
        } else {
            let stop: usize = if end > from && chars[end - 1] == '\r' { end - 1 } else { end };
            proof {
                let line = text@.subrange(from as int, end as int);
                if end > from {
                    assert(line.last() == text@[end - 1]);
                    assert(line.drop_last() == text@.subrange(from as int, end - 1));
                }
            }
            out.push(copy_between(&chars, from, stop));
            from = end + 1;
        }
        proof {
            assert(line_views(out@) == before.push(out@.last()@));
            assert(lines(text@) == line_views(out@) + lines_from(text@, from as int));
        }
    }
    assert(line_views(out@) == lines(text@));
    assert forall|i: int| 0 <= i < out.len() implies (#[trigger] out@[i])@ == lines(text@)[i] by {
        assert(line_views(out@)[i] == out@[i]@);
    }
    out
}

/// The character sequences of a vector of character vectors.
pub open spec fn line_views(v: Seq<Vec<char>>) -> Seq<Seq<char>> {
    Seq::new(v.len(), |i: int| v[i]@)
}

/// The part of `chars` from `from` up to `to`.
pub fn copy_between(chars: &Vec<char>, from: usize, to: usize) -> (out: Vec<char>)
    requires
        from <= to <= chars.len(),
    ensures
        out@ == chars@.subrange(from as int, to as int),
{
    let mut out: Vec<char> = Vec::new();
    let mut i: usize = from;
    while i < to
        invariant
            from <= i <= to <= chars.len(),
            out@ == chars@.subrange(from as int, i as int),
        decreases to - i,
    {
        out.push(chars[i]);
        assert(out@ == chars@.subrange(from as int, i + 1));
        i = i + 1;
    }
    out
}

/// How many characters of `s` come before its first white space.
pub open spec fn word_length(s: Seq<char>) -> nat
    decreases s.len(),
{
    if s.len() == 0 || whitespace(s[0]) {
        0
    } else {
        1 + word_length(s.drop_first())
    }
}

/// The words of `s`: its longest runs without white space, in order.
pub open spec fn words(s: Seq<char>) -> Seq<Seq<char>>
    decreases s.len(),
    via words_decreases
{
    let t = trim_start(s);
    if t.len() == 0 {
        Seq::empty()
    } else {
        seq![t.take(word_length(t) as int)] + words(t.skip(word_length(t) as int))
    }
}

#[via_fn]
proof fn words_decreases(s: Seq<char>) {
    trim_start_is_tail(s);
    let t = trim_start(s);
    if t.len() > 0 {
        word_length_is_exact(t);
        assert(word_length(t) > 0);
    }
}

/// Where the run of characters without white space that begins at `from` ends.
fn word_end(chars: &Vec<char>, from: usize) -> (out: usize)
    requires
        from <= chars.len(),
    ensures
        from <= out <= chars.len(),
        out - from == word_length(chars@.skip(from as int)),
{
    let mut i: usize = from;
    while i < chars.len() && !is_whitespace(chars[i])
        invariant
            from <= i <= chars.len(),
            (i - from) + word_length(chars@.skip(i as int)) == word_length(chars@.skip(from as int)),
        decreases chars.len() - i,
    {
        assert(chars@.skip(i as int).drop_first() == chars@.skip(i + 1));
        i = i + 1;
    }
    i
}

/// `parts` with `separator` between each two.
pub open spec fn joined(parts: Seq<Seq<char>>, separator: Seq<char>) -> Seq<char>
    decreases parts.len(),
{
    if parts.len() == 0 {
        Seq::empty()
    } else if parts.len() == 1 {
        parts[0]
    } else {
        joined(parts.drop_last(), separator) + separator + parts.last()
    }
}

/// A word: at least one character, and no white space.
pub open spec fn solid_word(w: Seq<char>) -> bool {
    w.len() > 0 && forall|i: int| 0 <= i < w.len() ==> !whitespace(#[trigger] w[i])
}

proof fn word_length_is_exact(s: Seq<char>)
    ensures
        word_length(s) <= s.len(),
        forall|i: int| 0 <= i < word_length(s) ==> !whitespace(#[trigger] s[i]),
        word_length(s) < s.len() ==> whitespace(s[word_length(s) as int]),
    decreases s.len(),
{
    if s.len() > 0 && !whitespace(s[0]) {
        let rest = s.drop_first();
        word_length_is_exact(rest);
        assert forall|i: int| 0 <= i < word_length(s) implies !whitespace(#[trigger] s[i]) by {
            if i > 0 {
                assert(rest[i - 1] == s[i]);
            }
        }
        if word_length(s) < s.len() {
            assert(rest[word_length(rest) as int] == s[word_length(s) as int]);
        }
    }
}

proof fn word_length_of_word(w: Seq<char>, rest: Seq<char>)
    requires
        forall|i: int| 0 <= i < w.len() ==> !whitespace(#[trigger] w[i]),
        rest.len() > 0 ==> whitespace(rest[0]),
    ensures
        word_length(w + rest) == w.len(),
    decreases w.len(),
{
    let all = w + rest;
    if w.len() > 0 {
        assert(all[0] == w[0]);
        assert(all.drop_first() == w.drop_first() + rest);
        word_length_of_word(w.drop_first(), rest);
    } else {
        assert(all == rest);
    }
}

/// Words hold no white space, and each stands in the text.
pub proof fn words_are_solid(s: Seq<char>)
    ensures
        forall|k: int| 0 <= k < words(s).len() ==> solid_word(#[trigger] words(s)[k]),
        forall|k: int, i: int| 0 <= k < words(s).len() && 0 <= i < words(s)[k].len() ==> s.contains(#[trigger] words(s)[k][i]),
    decreases s.len(),
{
    let t = trim_start(s);
    trim_start_is_tail(s);
    if t.len() > 0 {
        let n = word_length(t) as int;
        let head = t.take(n);
        let rest = t.skip(n);
        word_length_is_exact(t);
        assert(n > 0);
        words_are_solid(rest);
        let all = words(s);
        assert(all == seq![head] + words(rest));
        assert forall|k: int| 0 <= k < all.len() implies solid_word(#[trigger] all[k]) by {
            if k > 0 {
                assert(all[k] == words(rest)[k - 1]);
            } else {
                assert forall|i: int| 0 <= i < head.len() implies !whitespace(#[trigger] head[i]) by {
                    assert(head[i] == t[i]);
                }
            }
        }
        let skipped = s.len() - t.len();
        assert forall|k: int, i: int| 0 <= k < all.len() && 0 <= i < all[k].len() implies s.contains(#[trigger] all[k][i]) by {
            if k > 0 {
                assert(all[k] == words(rest)[k - 1]);
                assert(rest.contains(words(rest)[k - 1][i]));
                let j = choose|j: int| 0 <= j < rest.len() && rest[j] == all[k][i];
                assert(s[skipped + n + j] == all[k][i]);
            } else {
                assert(s[skipped + i] == all[k][i]);
            }
        }
    }
}

/// White space parts a text into the words before it and those behind it.
pub proof fn words_of_parts(a: Seq<char>, gap: char, b: Seq<char>)
    requires
        whitespace(gap),
    ensures
        words(a + seq![gap] + b) == words(a) + words(b),
    decreases a.len(),
{
    let all = a + seq![gap] + b;
    let t = trim_start(a);
    trim_start_is_tail(a);
    trim_start_of_parts(a, gap, b);
    if t.len() == 0 {
        assert(words(a) == Seq::<Seq<char>>::empty());
        assert(words(all) == words(b));
    } else {
        let tail = seq![gap] + b;
        let n = word_length(t) as int;
        word_length_is_exact(t);
        assert(n > 0);
        let head = t.take(n);
        let rest = t.skip(n);
        assert forall|i: int| 0 <= i < head.len() implies !whitespace(#[trigger] head[i]) by {
            assert(head[i] == t[i]);
        }
        let whole = t + seq![gap] + b;
        assert(whole == head + (rest + tail));
        word_length_of_word(head, rest + tail);
        assert(whole.take(n) == head);
        assert(whole.skip(n) == rest + seq![gap] + b);
        words_of_parts(rest, gap, b);
        assert(words(all) == seq![head] + words(rest + seq![gap] + b));
        assert(words(all) == words(a) + words(b));
    }
}

proof fn trim_start_of_parts(a: Seq<char>, gap: char, b: Seq<char>)
    requires
        whitespace(gap),
    ensures
        trim_start(a).len() == 0 ==> trim_start(a + seq![gap] + b) == trim_start(b),
        trim_start(a).len() > 0 ==> trim_start(a + seq![gap] + b) == trim_start(a) + seq![gap] + b,
    decreases a.len(),
{
    let all = a + seq![gap] + b;
    if a.len() == 0 {
        assert(all[0] == gap);
        assert(all.drop_first() == b);
    } else if whitespace(a[0]) {
        assert(all[0] == a[0]);
        assert(all.drop_first() == a.drop_first() + seq![gap] + b);
        trim_start_of_parts(a.drop_first(), gap, b);
    } else {
        assert(all[0] == a[0]);
    }
}

/// Words with one space between each two are read back.
pub proof fn words_of_joined(parts: Seq<Seq<char>>)
    requires
        forall|k: int| 0 <= k < parts.len() ==> solid_word(#[trigger] parts[k]),
    ensures
        words(joined(parts, seq![' '])) == parts,
    decreases parts.len(),
{
    if parts.len() > 0 {
        let before = parts.drop_last();
        let last = parts.last();
        assert(solid_word(parts[parts.len() - 1]));
        assert(words(last) == seq![last]) by {
            word_length_of_word(last, Seq::empty());
            assert(last + Seq::<char>::empty() == last);
            assert(!whitespace(last[0]));
            assert(trim_start(last) == last);
            assert(last.take(last.len() as int) == last);
            assert(last.skip(last.len() as int) == Seq::<char>::empty());
            assert(words(Seq::<char>::empty()) == Seq::<Seq<char>>::empty());
        }
        if parts.len() == 1 {
            assert(parts == seq![last]);
        } else {
            assert forall|k: int| 0 <= k < before.len() implies solid_word(#[trigger] before[k]) by {
                assert(before[k] == parts[k]);
            }
            words_of_joined(before);
            words_of_parts(joined(before, seq![' ']), ' ', last);
            assert(parts == before + seq![last]);
        }
    }
}

/// Joining puts the separator between two neighbours, not in front of the first nor behind the
/// last.
pub proof fn joining_adds_up(parts: Seq<Seq<char>>, last: Seq<char>, separator: Seq<char>)
    ensures
        joined(Seq::<Seq<char>>::empty(), separator) == Seq::<char>::empty(),
        joined(seq![last], separator) == last,
        parts.len() > 0 ==> joined(parts.push(last), separator) == joined(parts, separator) + separator + last,
{
    assert(parts.push(last).drop_last() == parts);
}

/// Joins `parts` with `separator` between each two.
pub fn join(parts: &Vec<String>, separator: &str) -> (out: String)
    ensures
        out@ == joined(texts(parts@), separator@),
{
    let mut out = String::new();
    let mut i: usize = 0;
    assert(texts(parts@).take(0) == Seq::<Seq<char>>::empty());
    while i < parts.len()
        invariant
            i <= parts.len(),
            out@ == joined(texts(parts@).take(i as int), separator@),
        decreases parts.len() - i,
    {
        if i > 0 {
            out.append(separator);
        }
        out.append(parts[i].as_str());
        proof {
            let all = texts(parts@);
            assert(all.take(i + 1).drop_last() == all.take(i as int));
            assert(all.take(i + 1).last() == parts@[i as int]@);
            if i == 0 {
                assert(out@ == parts@[0]@);
            }
        }
        i = i + 1;
    }
    assert(texts(parts@).take(parts@.len() as int) == texts(parts@));
    out
}

/// The words of `text`.
pub fn words_of(text: &str) -> (out: Vec<String>)
    ensures
        texts(out@) == words(text@),
{
    let chars = chars_of(text);
    let mut out: Vec<String> = Vec::new();
    let mut i: usize = trim_start_index(&chars, 0, chars.len());
    proof {
        assert(chars@.subrange(0, chars@.len() as int) == chars@);
        assert(chars@.subrange(i as int, chars@.len() as int) == chars@.skip(i as int));
        trim_start_is_tail(text@);
        trim_start_fixed(chars@.skip(i as int));
        words_of_trimmed(text@);
    }
    while i < chars.len()
        invariant
            i <= chars.len(),
            chars@ == text@,
            i < chars.len() ==> !whitespace(chars@[i as int]),
            words(text@) == texts(out@) + words(chars@.skip(i as int)),
        decreases chars.len() - i,
    {
        let end: usize = word_end(&chars, i);
        let ghost before = texts(out@);
        let ghost rest = chars@.skip(i as int);
        proof {
            trim_start_fixed(rest);
            word_length_is_exact(rest);
            assert(word_length(rest) > 0);
            assert(chars@.subrange(i as int, end as int) == rest.take(word_length(rest) as int));
            assert(rest.skip(word_length(rest) as int) == chars@.skip(end as int));
        }
        out.push(string_between(&chars, i, end));
        let next: usize = trim_start_index(&chars, end, chars.len());
        proof {
            assert(texts(out@) == before.push(rest.take(word_length(rest) as int)));
            assert(words(rest) == seq![rest.take(word_length(rest) as int)] + words(chars@.skip(end as int)));
            assert(chars@.subrange(end as int, chars@.len() as int) == chars@.skip(end as int));
            assert(chars@.subrange(next as int, chars@.len() as int) == chars@.skip(next as int));
            words_of_trimmed(chars@.skip(end as int));
            trim_start_is_tail(chars@.skip(end as int));
            assert(words(text@) == texts(out@) + words(chars@.skip(next as int)));
        }
        i = next;
    }
    assert(chars@.skip(i as int).len() == 0);
    assert(words(chars@.skip(i as int)) == Seq::<Seq<char>>::empty());
    assert(texts(out@) == words(text@));
    out
}

/// Leading white space adds no word.
proof fn words_of_trimmed(s: Seq<char>)
    ensures
        words(s) == words(trim_start(s)),
{
    trim_start_is_tail(s);
    trim_start_fixed(trim_start(s));
}

proof fn trim_start_fixed(s: Seq<char>)
    requires
        s.len() > 0 ==> !whitespace(s[0]),
    ensures
        trim_start(s) == s,
{
}

} // verus!
