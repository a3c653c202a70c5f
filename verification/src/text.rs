//! Text normalization, tokens for the full text index, token budgets and Markdown cleaning.

use crate::chars::{
    ascii_lower, caseless, chars_of, code_of, copy_between, is_alphanumeric, join, joined, letter_or_number, lower, lowercase, solid_word,
    stands_at, string_between, string_of, texts, trim, trim_end, trim_end_index, trim_keeps, trim_leaves_a_stretch, trim_start,
    trim_start_index, trimmed, whitespace, words, words_are_solid, words_of, words_of_joined,
};
use crate::ordering::holds;
use sha2::Digest;
use vstd::prelude::*;

verus! {

// ── Normalization ─────────────────────────────────────────────────────

/// A full width form, typographic quote or ideographic space folded to its plain ASCII form.
pub open spec fn width_folded(ch: char) -> char {
    if ch == '\u{3000}' {
        ' '
    } else if 0xff01 <= ch as int <= 0xff5e {
        (ch as int - 0xfee0) as char
    } else if ch == '\u{2018}' || ch == '\u{2019}' {
        '\''
    } else if ch == '\u{201c}' || ch == '\u{201d}' {
        '"'
    } else {
        ch
    }
}

/// Each character folded and lowercased, in order.
pub open spec fn folded(s: Seq<char>) -> Seq<char>
    decreases s.len(),
{
    if s.len() == 0 {
        Seq::empty()
    } else {
        folded(s.drop_last()) + lower(width_folded(s.last()))
    }
}

/// The form in which texts are compared and indexed.
pub open spec fn normalized(s: Seq<char>) -> Seq<char> {
    folded(trim(s))
}

/// The character whose code point is `code`, below 128.
fn ascii_char(code: u8) -> (out: char)
    requires
        code < 128,
    ensures
        out as int == code,
{
    code as char
}

/// Folds one character to its plain form.
fn fold_width(ch: char) -> (out: char)
    ensures
        out == width_folded(ch),
        ch as int == 0x3000 ==> out == ' ',
        0xff01 <= ch as int <= 0xff5e ==> out as int == ch as int - 0xfee0,
        ch as int == 0x2018 || ch as int == 0x2019 ==> out == '\'',
        ch as int == 0x201c || ch as int == 0x201d ==> out == '"',
        (ch as int) < 0x2018 ==> out == ch,
{
    let code: u32 = code_of(ch);
    if code == 0x3000 {
        ' '
    } else if 0xff01 <= code && code <= 0xff5e {
        ascii_char((code - 0xfee0) as u8)
    } else if code == 0x2018 || code == 0x2019 {
        '\''
    } else if code == 0x201c || code == 0x201d {
        '"'
    } else {
        ch
    }
}

/// Trims the text, folds full width forms and typographic quotes, and lowercases.
pub fn normalize_text(text: &str) -> (out: String)
    ensures
        out@ == normalized(text@),
{
    let chars = chars_of(text);
    let start: usize = trim_start_index(&chars, 0, chars.len());
    let end: usize = trim_end_index(&chars, start, chars.len());
    let ghost body = chars@.subrange(start as int, end as int);
    assert(chars@.subrange(0, chars@.len() as int) == chars@);
    let mut out = String::new();
    let mut i: usize = start;
    assert(body.take(0) == Seq::<char>::empty());
    while i < end
        invariant
            start <= i <= end <= chars.len(),
            body == chars@.subrange(start as int, end as int),
            out@ == folded(body.take(i - start)),
        decreases end - i,
    {
        let small = lowercase(fold_width(chars[i]));
        out.append(string_of(&small).as_str());
        proof {
            assert(body.take(i - start + 1).drop_last() == body.take(i - start));
            assert(body.take(i - start + 1).last() == chars@[i as int]);
        }
        i = i + 1;
    }
    assert(body.take(body.len() as int) == body);
    out
}

/// One character folded and lowercased.
pub open spec fn fold(ch: char) -> Seq<char> {
    lower(width_folded(ch))
}

/// What becomes of a character stays as it is when it is folded again, and is white space only
/// where the character is.
pub open spec fn settles(ch: char) -> bool {
    &&& fold(ch).len() > 0
    &&& forall|k: int| 0 <= k < fold(ch).len() ==> fold(#[trigger] fold(ch)[k]) == seq![fold(ch)[k]] && (whitespace(fold(ch)[k]) ==> whitespace(ch))
}

/// Every character of a text settles.
pub open spec fn settled(s: Seq<char>) -> bool {
    forall|i: int| 0 <= i < s.len() ==> settles(#[trigger] s[i])
}

/// Folding leaves every character of a text as it is.
pub open spec fn kept_by_folding(s: Seq<char>) -> bool {
    forall|i: int| 0 <= i < s.len() ==> fold(#[trigger] s[i]) == seq![s[i]]
}

/// A character that folds to ASCII: the ASCII characters, their full width forms, the typographic
/// quotes and the ideographic space.
pub open spec fn plain(ch: char) -> bool {
    (width_folded(ch) as int) < 128
}

/// Characters that fold to ASCII settle, and so do those that have no case. Those that fold to ASCII
/// and are white space only separate.
pub proof fn common_characters_settle(ch: char)
    requires
        plain(ch) || caseless(ch),
    ensures
        settles(ch),
        plain(ch) ==> separates(ch),
        !whitespace(ch) ==> separates(ch),
{
    if plain(ch) {
        let c = width_folded(ch);
        let small = ascii_lower(c);
        assert(fold(ch) == seq![small]);
        assert(width_folded(small) == small);
        assert(ascii_lower(small) == small);
        assert(fold(small) == seq![small]);
    } else {
        assert(width_folded(ch) == ch);
        assert(fold(ch) == seq![ch]);
    }
}

/// A text of ASCII, full width forms, punctuation and East Asian characters.
pub open spec fn common(s: Seq<char>) -> bool {
    forall|i: int| 0 <= i < s.len() ==> plain(#[trigger] s[i]) || caseless(s[i])
}

/// A common text settles as a whole. Where its white space is that of ASCII or the ideographic space,
/// that only separates.
pub proof fn common_texts_settle(s: Seq<char>)
    requires
        common(s),
    ensures
        settled(s),
        (forall|i: int| 0 <= i < s.len() && whitespace(#[trigger] s[i]) ==> plain(s[i])) ==> spaces_separate(s),
{
    assert forall|i: int| 0 <= i < s.len() implies settles(#[trigger] s[i]) by {
        common_characters_settle(s[i]);
    }
    if forall|i: int| 0 <= i < s.len() && whitespace(#[trigger] s[i]) ==> plain(s[i]) {
        assert forall|i: int| 0 <= i < s.len() implies separates(#[trigger] s[i]) by {
            common_characters_settle(s[i]);
        }
    }
}

proof fn folded_of_sum(a: Seq<char>, b: Seq<char>)
    ensures
        folded(a + b) == folded(a) + folded(b),
    decreases b.len(),
{
    if b.len() == 0 {
        assert(a + b == a);
    } else {
        folded_of_sum(a, b.drop_last());
        assert((a + b).drop_last() == a + b.drop_last());
        assert((a + b).last() == b.last());
        assert(folded(a + b) == folded(a) + folded(b));
    }
}

proof fn folded_of_one(ch: char)
    ensures
        folded(seq![ch]) == fold(ch),
{
    assert(seq![ch].drop_last() == Seq::<char>::empty());
    assert(folded(seq![ch].drop_last()) == Seq::<char>::empty());
}

proof fn folded_keeps(s: Seq<char>)
    requires
        kept_by_folding(s),
    ensures
        folded(s) == s,
    decreases s.len(),
{
    if s.len() > 0 {
        let before = s.drop_last();
        assert forall|i: int| 0 <= i < before.len() implies fold(#[trigger] before[i]) == seq![before[i]] by {
            assert(before[i] == s[i]);
        }
        folded_keeps(before);
        assert(fold(s[s.len() - 1]) == seq![s[s.len() - 1]]);
    }
}

/// A folded text that settles is kept by folding.
proof fn folded_settles(s: Seq<char>)
    requires
        settled(s),
    ensures
        kept_by_folding(folded(s)),
        s.len() > 0 && !whitespace(s[0]) ==> folded(s).len() > 0 && !whitespace(folded(s)[0]),
        s.len() > 0 && !whitespace(s.last()) ==> folded(s).len() > 0 && !whitespace(folded(s).last()),
    decreases s.len(),
{
    if s.len() > 0 {
        let before = s.drop_last();
        let tail = fold(s.last());
        let all = folded(s);
        assert forall|i: int| 0 <= i < before.len() implies settles(#[trigger] before[i]) by {
            assert(before[i] == s[i]);
        }
        folded_settles(before);
        assert(settles(s[s.len() - 1]));
        assert(all == folded(before) + tail);
        assert forall|i: int| 0 <= i < all.len() implies fold(#[trigger] all[i]) == seq![all[i]] by {
            if i < folded(before).len() {
                assert(all[i] == folded(before)[i]);
            } else {
                assert(all[i] == tail[i - folded(before).len()]);
            }
        }
        assert(all.last() == tail.last());
        assert(tail.last() == tail[tail.len() - 1]);
        if before.len() > 0 {
            assert(before[0] == s[0]);
            if !whitespace(s[0]) {
                assert(all[0] == folded(before)[0]);
            }
        } else {
            assert(folded(before) == Seq::<char>::empty());
            assert(all[0] == tail[0]);
        }
    }
}

proof fn trimmed_settles(s: Seq<char>)
    requires
        settled(s),
    ensures
        settled(trim(s)),
{
    let t = trim(s);
    trim_leaves_a_stretch(s);
    let at = choose|at: int| #[trigger] stands_at(s, t, at);
    assert forall|i: int| 0 <= i < t.len() implies settles(#[trigger] t[i]) by {
        assert(t[i] == s[at + i]);
    }
}

/// Normalizing a text twice changes nothing, for every text whose characters settle. The normalized
/// text has no white space at its ends, and no character that folding would replace.
pub proof fn normalizing_settles(s: Seq<char>)
    requires
        settled(s),
    ensures
        normalized(normalized(s)) == normalized(s),
        trim(normalized(s)) == normalized(s),
        kept_by_folding(normalized(s)),
        forall|i: int| 0 <= i < normalized(s).len() ==> width_folded(#[trigger] normalized(s)[i]) == normalized(s)[i],
{
    let t = trim(s);
    let n = normalized(s);
    trim_leaves_a_stretch(s);
    trimmed_settles(s);
    folded_settles(t);
    if t.len() == 0 {
        assert(n == Seq::<char>::empty());
    }
    trim_keeps(n);
    folded_keeps(n);
    assert forall|i: int| 0 <= i < n.len() implies width_folded(#[trigger] n[i]) == n[i] by {
        let c = n[i];
        assert(fold(c) == seq![c]);
        if width_folded(c) != c {
            assert(fold(c) == seq![ascii_lower(width_folded(c))]);
            assert(fold(c)[0] == c);
        }
    }
}

/// The normalized words of a text, with one space between each two.
pub open spec fn tag_form(s: Seq<char>) -> Seq<char> {
    joined(words(normalized(s)), seq![' '])
}

/// The form in which tags, namespaces and scopes are stored.
pub fn normalized_tag(text: &str) -> (out: String)
    ensures
        out@ == tag_form(text@),
{
    let normal = normalize_text(text);
    let parts = words_of(normal.as_str());
    proof {
        reveal_strlit(" ");
        assert(" "@ == seq![' ']);
    }
    join(&parts, " ")
}

/// The only white space of a text is single spaces between its words.
pub open spec fn single_spaced(s: Seq<char>) -> bool {
    forall|i: int| 0 <= i < s.len() && whitespace(#[trigger] s[i]) ==> {
        &&& s[i] == ' '
        &&& 0 < i < s.len() - 1
        &&& !whitespace(s[i - 1])
        &&& !whitespace(s[i + 1])
    }
}

proof fn joined_words(parts: Seq<Seq<char>>)
    requires
        forall|k: int| 0 <= k < parts.len() ==> solid_word(#[trigger] parts[k]),
    ensures
        single_spaced(joined(parts, seq![' '])),
        parts.len() > 0 ==> joined(parts, seq![' ']).len() > 0,
        parts.len() > 0 ==> !whitespace(joined(parts, seq![' '])[0]) && !whitespace(joined(parts, seq![' ']).last()),
        forall|i: int| 0 <= i < joined(parts, seq![' ']).len() ==> {
            ||| #[trigger] joined(parts, seq![' '])[i] == ' '
            ||| exists|k: int| 0 <= k < parts.len() && (#[trigger] parts[k]).contains(joined(parts, seq![' '])[i])
        },
    decreases parts.len(),
{
    let all = joined(parts, seq![' ']);
    if parts.len() == 1 {
        assert(solid_word(parts[0]));
        assert forall|i: int| 0 <= i < all.len() implies exists|k: int| 0 <= k < parts.len() && (#[trigger] parts[k]).contains(#[trigger] all[i]) by {
            assert(parts[0].contains(all[i]));
        }
    } else if parts.len() > 1 {
        let before = parts.drop_last();
        let last = parts.last();
        assert(solid_word(parts[parts.len() - 1]));
        assert forall|k: int| 0 <= k < before.len() implies solid_word(#[trigger] before[k]) by {
            assert(before[k] == parts[k]);
        }
        joined_words(before);
        let left = joined(before, seq![' ']);
        assert(all == left + seq![' '] + last);
        assert forall|i: int| 0 <= i < all.len() && whitespace(#[trigger] all[i]) implies {
            &&& all[i] == ' '
            &&& 0 < i < all.len() - 1
            &&& !whitespace(all[i - 1])
            &&& !whitespace(all[i + 1])
        } by {
            if i < left.len() {
                assert(all[i] == left[i]);
                assert(all[i - 1] == left[i - 1]);
                assert(all[i + 1] == left[i + 1]);
            } else if i == left.len() {
                assert(all[i - 1] == left.last());
                assert(all[i + 1] == last[0]);
            } else {
                assert(all[i] == last[i - left.len() - 1]);
            }
        }
        assert(all[0] == left[0]);
        assert(all.last() == last[last.len() - 1]);
        assert forall|i: int| 0 <= i < all.len() implies {
            ||| #[trigger] all[i] == ' '
            ||| exists|k: int| 0 <= k < parts.len() && (#[trigger] parts[k]).contains(all[i])
        } by {
            if i < left.len() {
                assert(all[i] == left[i]);
                if left[i] != ' ' {
                    let k = choose|k: int| 0 <= k < before.len() && (#[trigger] before[k]).contains(left[i]);
                    assert(parts[k] == before[k]);
                }
            } else if i > left.len() {
                assert(all[i] == last[i - left.len() - 1]);
                assert(parts[parts.len() - 1].contains(all[i]));
            }
        }
    }
}

/// A stored tag has no white space but single spaces between its words.
pub proof fn tags_are_single_spaced(s: Seq<char>)
    ensures
        single_spaced(tag_form(s)),
        trim(tag_form(s)) == tag_form(s),
{
    words_are_solid(normalized(s));
    joined_words(words(normalized(s)));
    trim_keeps(tag_form(s));
}

/// Storing a tag again changes nothing, for every tag whose characters settle.
pub proof fn tag_form_settles(s: Seq<char>)
    requires
        settled(s),
    ensures
        tag_form(tag_form(s)) == tag_form(s),
{
    let n = normalized(s);
    let parts = words(n);
    let t = tag_form(s);
    normalizing_settles(s);
    words_are_solid(n);
    joined_words(parts);
    tags_are_single_spaced(s);
    common_characters_settle(' ');
    assert forall|i: int| 0 <= i < t.len() implies fold(#[trigger] t[i]) == seq![t[i]] by {
        if t[i] == ' ' {
            assert(fold(' ') == seq![' ']);
        } else {
            let k = choose|k: int| 0 <= k < parts.len() && (#[trigger] parts[k]).contains(t[i]);
            let j = choose|j: int| 0 <= j < parts[k].len() && parts[k][j] == t[i];
            assert(n.contains(parts[k][j]));
            let at = choose|at: int| 0 <= at < n.len() && n[at] == t[i];
            assert(fold(n[at]) == seq![n[at]]);
        }
    }
    folded_keeps(t);
    words_of_joined(parts);
}

// ── Tokens ────────────────────────────────────────────────────────────

/// The ideographs that are indexed character by character.
pub open spec fn cjk(ch: char) -> bool {
    let c = ch as int;
    0x3400 <= c <= 0x4dbf || 0x4e00 <= c <= 0x9fff || 0xf900 <= c <= 0xfaff || 0x20000 <= c <= 0x323af
}

/// Whether `ch` is an ideograph that is indexed on its own.
pub fn is_cjk(ch: char) -> (out: bool)
    ensures
        out == cjk(ch),
        0x4e00 <= ch as int <= 0x9fff || 0x3400 <= ch as int <= 0x4dbf || 0xf900 <= ch as int <= 0xfaff || 0x20000 <= ch as int <= 0x323af ==> out,
        (ch as int) < 0x3400 || 0x9fff < ch as int <= 0xf8ff || 0xfaff < ch as int <= 0x1ffff || ch as int > 0x323af ==> !out,
{
    let c: u32 = code_of(ch);
    (0x3400 <= c && c <= 0x4dbf) || (0x4e00 <= c && c <= 0x9fff) || (0xf900 <= c && c <= 0xfaff)
        || (0x20000 <= c && c <= 0x323af)
}

/// The characters that words are made of.
pub open spec fn word_char(ch: char) -> bool {
    !cjk(ch) && (letter_or_number(ch) || ch == '_')
}

/// How many characters at the head of `s` are ideographs.
pub open spec fn cjk_prefix(s: Seq<char>) -> nat
    decreases s.len(),
{
    if s.len() > 0 && cjk(s[0]) {
        1 + cjk_prefix(s.drop_first())
    } else {
        0
    }
}

/// How many characters at the head of `s` belong to one word.
pub open spec fn word_prefix(s: Seq<char>) -> nat
    decreases s.len(),
{
    if s.len() > 0 && word_char(s[0]) {
        1 + word_prefix(s.drop_first())
    } else {
        0
    }
}

proof fn prefix_bounds(s: Seq<char>)
    ensures
        cjk_prefix(s) <= s.len(),
        word_prefix(s) <= s.len(),
        s.len() > 0 && cjk(s[0]) ==> cjk_prefix(s) > 0,
        s.len() > 0 && word_char(s[0]) ==> word_prefix(s) > 0,
    decreases s.len(),
{
    if s.len() > 0 {
        prefix_bounds(s.drop_first());
    }
}

/// The tokens of a run of ideographs: each one alone, then each adjacent pair.
pub open spec fn run_tokens(run: Seq<char>) -> Seq<Seq<char>> {
    Seq::new(run.len(), |i: int| seq![run[i]]) + Seq::new(
        (if run.len() > 0 { run.len() - 1 } else { 0 }) as nat,
        |i: int| seq![run[i], run[i + 1]],
    )
}

/// The tokens of a normalized text: a word is one token, a run of ideographs gives its
/// characters and its adjacent pairs, and everything else only separates.
pub open spec fn tokens(s: Seq<char>) -> Seq<Seq<char>>
    decreases s.len(),
    via tokens_decreases
{
    if s.len() == 0 {
        Seq::empty()
    } else if cjk(s[0]) {
        let k = cjk_prefix(s) as int;
        run_tokens(s.take(k)) + tokens(s.skip(k))
    } else if word_char(s[0]) {
        let k = word_prefix(s) as int;
        seq![s.take(k)] + tokens(s.skip(k))
    } else {
        tokens(s.drop_first())
    }
}

#[via_fn]
proof fn tokens_decreases(s: Seq<char>) {
    prefix_bounds(s);
}

/// Where the run of ideographs that begins at `from` ends.
fn cjk_end(chars: &Vec<char>, from: usize) -> (out: usize)
    requires
        from <= chars.len(),
    ensures
        from <= out <= chars.len(),
        out - from == cjk_prefix(chars@.skip(from as int)),
{
    let mut i: usize = from;
    while i < chars.len() && is_cjk(chars[i])
        invariant
            from <= i <= chars.len(),
            (i - from) + cjk_prefix(chars@.skip(i as int)) == cjk_prefix(chars@.skip(from as int)),
        decreases chars.len() - i,
    {
        assert(chars@.skip(i as int).drop_first() == chars@.skip(i + 1));
        i = i + 1;
    }
    i
}

/// Whether words may hold `ch`.
fn is_word_char(ch: char) -> (out: bool)
    ensures
        out == word_char(ch),
        ch == '_' || 'a' <= ch && ch <= 'z' || 'A' <= ch && ch <= 'Z' || '0' <= ch && ch <= '9' ==> out,
        (ch as int) < 128 && out ==> ch == '_' || 'a' <= ch && ch <= 'z' || 'A' <= ch && ch <= 'Z' || '0' <= ch && ch <= '9',
        0x4e00 <= ch as int <= 0x9fff ==> !out,
{
    !is_cjk(ch) && (is_alphanumeric(ch) || ch == '_')
}

/// Where the word that begins at `from` ends.
fn word_end(chars: &Vec<char>, from: usize) -> (out: usize)
    requires
        from <= chars.len(),
    ensures
        from <= out <= chars.len(),
        out - from == word_prefix(chars@.skip(from as int)),
{
    let mut i: usize = from;
    while i < chars.len() && is_word_char(chars[i])
        invariant
            from <= i <= chars.len(),
            (i - from) + word_prefix(chars@.skip(i as int)) == word_prefix(chars@.skip(from as int)),
        decreases chars.len() - i,
    {
        assert(chars@.skip(i as int).drop_first() == chars@.skip(i + 1));
        i = i + 1;
    }
    i
}

/// Appends the tokens of one run of ideographs.
fn push_run(tokens_out: &mut Vec<String>, run: &Vec<char>)
    ensures
        texts(final(tokens_out)@) == texts(old(tokens_out)@) + run_tokens(run@),
{
    let ghost before = texts(tokens_out@);
    let ghost all = run_tokens(run@);
    let mut i: usize = 0;
    assert(before + all.take(0) == before);
    while i < run.len()
        invariant
            i <= run.len(),
            all == run_tokens(run@),
            texts(tokens_out@) == before + all.take(i as int),
        decreases run.len() - i,
    {
        let mut single = String::new();
        single.push(run[i]);
        let ghost so_far = texts(tokens_out@);
        tokens_out.push(single);
        proof {
            assert(single@ == seq![run@[i as int]]);
            assert(all[i as int] == seq![run@[i as int]]);
            assert(texts(tokens_out@) == so_far.push(all[i as int]));
            assert(all.take(i + 1) == all.take(i as int).push(all[i as int]));
        }
        i = i + 1;
    }
    let mut k: usize = 0;
    while k + 1 < run.len()
        invariant
            k <= run.len(),
            k + 1 <= run.len() || run.len() == 0,
            all == run_tokens(run@),
            texts(tokens_out@) == before + all.take(run.len() + k),
        decreases run.len() - k,
    {
        let mut pair = String::new();
        pair.push(run[k]);
        pair.push(run[k + 1]);
        let ghost so_far = texts(tokens_out@);
        tokens_out.push(pair);
        proof {
            let at = run.len() + k;
            assert(pair@ == seq![run@[k as int], run@[k + 1]]);
            assert(all[at as int] == seq![run@[k as int], run@[k + 1]]);
            assert(texts(tokens_out@) == so_far.push(all[at as int]));
            assert(all.take(at + 1) == all.take(at as int).push(all[at as int]));
        }
        k = k + 1;
    }
    assert(all.take(all.len() as int) == all);
    assert(run.len() + k == all.len());
}

/// The tokens of a text in order, repetitions included; query callers drop them separately.
pub fn tokenize(text: &str) -> (out: Vec<String>)
    ensures
        texts(out@) == tokens(normalized(text@)),
{
    let normal = normalize_text(text);
    let chars = chars_of(normal.as_str());
    let mut out: Vec<String> = Vec::new();
    let mut i: usize = 0;
    proof {
        assert(chars@.skip(0) == chars@);
        assert(texts(out@) + tokens(chars@) == tokens(chars@));
    }
    while i < chars.len()
        invariant
            i <= chars.len(),
            texts(out@) + tokens(chars@.skip(i as int)) == tokens(chars@),
        decreases chars.len() - i,
    {
        let ghost before = texts(out@);
        let ghost rest = chars@.skip(i as int);
        proof {
            prefix_bounds(rest);
            assert(rest[0] == chars@[i as int]);
        }
        if is_cjk(chars[i]) {
            let end: usize = cjk_end(&chars, i);
            let run = copy_between(&chars, i, end);
            push_run(&mut out, &run);
            proof {
                let k = cjk_prefix(rest) as int;
                assert(run@ == rest.take(k));
                assert(rest.skip(k) == chars@.skip(end as int));
                assert(texts(out@) + tokens(chars@.skip(end as int)) == before + (run_tokens(rest.take(k)) + tokens(rest.skip(k))));
            }
            i = end;
        } else if is_word_char(chars[i]) {
            let end: usize = word_end(&chars, i);
            out.push(string_between(&chars, i, end));
            proof {
                let k = word_prefix(rest) as int;
                assert(chars@.subrange(i as int, end as int) == rest.take(k));
                assert(rest.skip(k) == chars@.skip(end as int));
                assert(texts(out@) == before.push(rest.take(k)));
                assert(texts(out@) + tokens(chars@.skip(end as int)) == before + (seq![rest.take(k)] + tokens(rest.skip(k))));
            }
            i = end;
        } else {
            assert(rest.drop_first() == chars@.skip(i + 1));
            i = i + 1;
        }
    }
    assert(tokens(chars@.skip(i as int)) == Seq::<Seq<char>>::empty());
    assert(texts(out@) == tokens(chars@));
    out
}

/// A token: one or two ideographs, or a word of letters, numbers and `_` without ideographs.
pub open spec fn token_shaped(t: Seq<char>) -> bool {
    ||| 1 <= t.len() <= 2 && forall|i: int| 0 <= i < t.len() ==> cjk(#[trigger] t[i])
    ||| t.len() > 0 && forall|i: int| 0 <= i < t.len() ==> word_char(#[trigger] t[i])
}

proof fn prefixes_are_exact(s: Seq<char>)
    ensures
        cjk_prefix(s) <= s.len(),
        word_prefix(s) <= s.len(),
        forall|i: int| 0 <= i < cjk_prefix(s) ==> cjk(#[trigger] s[i]),
        forall|i: int| 0 <= i < word_prefix(s) ==> word_char(#[trigger] s[i]),
    decreases s.len(),
{
    if s.len() > 0 {
        let rest = s.drop_first();
        prefixes_are_exact(rest);
        assert forall|i: int| 0 <= i < cjk_prefix(s) implies cjk(#[trigger] s[i]) by {
            if i > 0 {
                assert(rest[i - 1] == s[i]);
            }
        }
        assert forall|i: int| 0 <= i < word_prefix(s) implies word_char(#[trigger] s[i]) by {
            if i > 0 {
                assert(rest[i - 1] == s[i]);
            }
        }
    }
}

/// No token is empty, and each is one or two ideographs or a word without ideographs.
pub proof fn tokens_have_shape(s: Seq<char>)
    ensures
        forall|i: int| 0 <= i < tokens(s).len() ==> token_shaped(#[trigger] tokens(s)[i]),
    decreases s.len(),
{
    if s.len() > 0 {
        let all = tokens(s);
        prefix_bounds(s);
        prefixes_are_exact(s);
        if cjk(s[0]) {
            let k = cjk_prefix(s) as int;
            let run = s.take(k);
            let head = run_tokens(run);
            let rest = tokens(s.skip(k));
            tokens_have_shape(s.skip(k));
            assert(all == head + rest);
            assert forall|i: int| 0 <= i < all.len() implies token_shaped(#[trigger] all[i]) by {
                if i < head.len() {
                    assert(all[i] == head[i]);
                    if i < run.len() {
                        assert(head[i] == seq![run[i]]);
                        assert(cjk(s[i]));
                    } else {
                        let j = i - run.len();
                        assert(head[i] == seq![run[j], run[j + 1]]);
                        assert(cjk(s[j]) && cjk(s[j + 1]));
                    }
                } else {
                    assert(all[i] == rest[i - head.len()]);
                }
            }
        } else if word_char(s[0]) {
            let k = word_prefix(s) as int;
            let word = s.take(k);
            let rest = tokens(s.skip(k));
            tokens_have_shape(s.skip(k));
            assert(all == seq![word] + rest);
            assert forall|i: int| 0 <= i < all.len() implies token_shaped(#[trigger] all[i]) by {
                if i > 0 {
                    assert(all[i] == rest[i - 1]);
                } else {
                    assert forall|j: int| 0 <= j < word.len() implies word_char(#[trigger] word[j]) by {
                        assert(word[j] == s[j]);
                    }
                }
            }
        } else {
            tokens_have_shape(s.drop_first());
            assert(all == tokens(s.drop_first()));
        }
    } else {
        assert(tokens(s).len() == 0);
    }
}

/// Normalizing goes character by character: each is brought to its narrow form and then to lower
/// case. White space around a text does not count.
pub proof fn normalizing_goes_by_character(a: Seq<char>, ch: char, b: Seq<char>)
    ensures
        folded(a + seq![ch] + b) == folded(a) + lower(width_folded(ch)) + folded(b),
        normalized(a) == normalized(trim(a)),
{
    folded_of_sum(a + seq![ch], b);
    folded_of_sum(a, seq![ch]);
    folded_of_one(ch);
    trim_leaves_a_stretch(a);
    trim_keeps(trim(a));
}

proof fn prefixes_reach(s: Seq<char>)
    ensures
        cjk_prefix(s) < s.len() ==> !cjk(s[cjk_prefix(s) as int]),
        word_prefix(s) < s.len() ==> !word_char(s[word_prefix(s) as int]),
    decreases s.len(),
{
    if s.len() > 0 {
        let rest = s.drop_first();
        prefixes_reach(rest);
        prefix_bounds(rest);
        if cjk(s[0]) && cjk_prefix(s) < s.len() {
            assert(s[cjk_prefix(s) as int] == rest[cjk_prefix(rest) as int]);
        }
        if word_char(s[0]) && word_prefix(s) < s.len() {
            assert(s[word_prefix(s) as int] == rest[word_prefix(rest) as int]);
        }
    }
}

/// A run of word characters is one token. A run of ideographs gives each of them and each pair of
/// neighbours, the single ones first, and nothing else.
pub proof fn runs_give_their_tokens(s: Seq<char>)
    requires
        s.len() > 0,
    ensures
        (forall|i: int| 0 <= i < s.len() ==> word_char(#[trigger] s[i])) ==> tokens(s) == seq![s],
        (forall|i: int| 0 <= i < s.len() ==> cjk(#[trigger] s[i])) ==> {
            &&& tokens(s).len() == 2 * s.len() - 1
            &&& forall|i: int| 0 <= i < s.len() ==> #[trigger] tokens(s)[i] == seq![s[i]]
            &&& forall|i: int| s.len() <= i < 2 * s.len() - 1 ==> #[trigger] tokens(s)[i] == seq![s[i - s.len()], s[i - s.len() + 1]]
        },
{
    prefix_bounds(s);
    prefixes_are_exact(s);
    prefixes_reach(s);
    let none = Seq::<char>::empty();
    assert(tokens(none) == Seq::<Seq<char>>::empty());
    if forall|i: int| 0 <= i < s.len() ==> word_char(#[trigger] s[i]) {
        let k = word_prefix(s) as int;
        assert(word_char(s[0]));
        assert(k == s.len());
        assert(s.take(k) == s);
        assert(s.skip(k) == none);
        assert(tokens(s) == seq![s] + tokens(none));
    }
    if forall|i: int| 0 <= i < s.len() ==> cjk(#[trigger] s[i]) {
        let k = cjk_prefix(s) as int;
        assert(cjk(s[0]));
        assert(k == s.len());
        assert(s.take(k) == s);
        assert(s.skip(k) == none);
        assert(tokens(s) == run_tokens(s) + tokens(none));
        assert(tokens(s) == run_tokens(s));
    }
}

/// A word ends where an ideograph begins, and the other way round.
pub proof fn runs_part(a: Seq<char>, b: Seq<char>)
    requires
        a.len() > 0,
        b.len() > 0,
        (forall|i: int| 0 <= i < a.len() ==> word_char(#[trigger] a[i])) && !word_char(b[0]) || (forall|i: int|
            0 <= i < a.len() ==> cjk(#[trigger] a[i])) && !cjk(b[0]),
    ensures
        tokens(a + b) == tokens(a) + tokens(b),
{
    let all = a + b;
    runs_give_their_tokens(a);
    prefix_bounds(all);
    prefixes_are_exact(all);
    prefixes_reach(all);
    assert(all[0] == a[0]);
    assert(all[a.len() as int] == b[0]);
    assert forall|i: int| 0 <= i < a.len() implies all[i] == a[i] by {}
    if cjk(a[0]) {
        let k = cjk_prefix(all) as int;
        assert(!word_char(a[0]));
        if k < a.len() {
            assert(cjk(a[k]));
            assert(all[k] == a[k]);
        }
        assert(k == a.len());
        assert(all.take(k) == a);
        assert(all.skip(k) == b);
        prefix_bounds(a);
        prefixes_are_exact(a);
        prefixes_reach(a);
        let none = Seq::<char>::empty();
        assert(cjk_prefix(a) == a.len());
        assert(a.take(a.len() as int) == a);
        assert(a.skip(a.len() as int) == none);
        assert(tokens(none) == Seq::<Seq<char>>::empty());
        assert(tokens(a) == run_tokens(a) + tokens(none));
        assert(tokens(a) == run_tokens(a));
    } else {
        let k = word_prefix(all) as int;
        if k < a.len() {
            assert(word_char(a[k]));
            assert(all[k] == a[k]);
        }
        assert(k == a.len());
        assert(all.take(k) == a);
        assert(all.skip(k) == b);
    }
}

/// A character that belongs to no token.
pub open spec fn separator(ch: char) -> bool {
    !cjk(ch) && !word_char(ch)
}

/// Where a character is white space, it becomes nothing but separators.
pub open spec fn separates(ch: char) -> bool {
    whitespace(ch) ==> forall|k: int| 0 <= k < fold(ch).len() ==> separator(#[trigger] fold(ch)[k])
}

/// All white space of a text becomes separators.
pub open spec fn spaces_separate(s: Seq<char>) -> bool {
    forall|i: int| 0 <= i < s.len() ==> separates(#[trigger] s[i])
}

proof fn prefixes_stop(a: Seq<char>, gap: char, b: Seq<char>)
    requires
        separator(gap),
    ensures
        cjk_prefix(a + seq![gap] + b) == cjk_prefix(a),
        word_prefix(a + seq![gap] + b) == word_prefix(a),
    decreases a.len(),
{
    let all = a + seq![gap] + b;
    if a.len() == 0 {
        assert(all[0] == gap);
    } else {
        assert(all[0] == a[0]);
        assert(all.drop_first() == a.drop_first() + seq![gap] + b);
        prefixes_stop(a.drop_first(), gap, b);
    }
}

/// A separator parts a text into the tokens before it and those behind it.
pub proof fn separator_parts_tokens(a: Seq<char>, gap: char, b: Seq<char>)
    requires
        separator(gap),
    ensures
        tokens(a + seq![gap] + b) == tokens(a) + tokens(b),
    decreases a.len(),
{
    let all = a + seq![gap] + b;
    prefixes_stop(a, gap, b);
    prefix_bounds(a);
    if a.len() == 0 {
        assert(all[0] == gap);
        assert(all.drop_first() == b);
        assert(tokens(all) == tokens(a) + tokens(b));
    } else {
        assert(all[0] == a[0]);
        if cjk(a[0]) {
            let k = cjk_prefix(a) as int;
            assert(all.take(k) == a.take(k));
            assert(all.skip(k) == a.skip(k) + seq![gap] + b);
            separator_parts_tokens(a.skip(k), gap, b);
            assert(tokens(all) == tokens(a) + tokens(b));
        } else if word_char(a[0]) {
            let k = word_prefix(a) as int;
            assert(all.take(k) == a.take(k));
            assert(all.skip(k) == a.skip(k) + seq![gap] + b);
            separator_parts_tokens(a.skip(k), gap, b);
            assert(tokens(all) == tokens(a) + tokens(b));
        } else {
            assert(all.drop_first() == a.drop_first() + seq![gap] + b);
            separator_parts_tokens(a.drop_first(), gap, b);
        }
    }
}

/// Separators at the ends of a text change nothing of its tokens.
proof fn separators_around(gaps: Seq<char>, s: Seq<char>)
    requires
        forall|i: int| 0 <= i < gaps.len() ==> separator(#[trigger] gaps[i]),
    ensures
        tokens(gaps + s) == tokens(s),
        tokens(s + gaps) == tokens(s),
    decreases gaps.len(),
{
    if gaps.len() == 0 {
        assert(gaps + s == s);
        assert(s + gaps == s);
    } else {
        let first = gaps[0];
        let rest = gaps.drop_first();
        assert forall|i: int| 0 <= i < rest.len() implies separator(#[trigger] rest[i]) by {
            assert(rest[i] == gaps[i + 1]);
        }
        separators_around(rest, s);
        separators_around(rest, Seq::empty());
        let none = Seq::<char>::empty();
        assert(gaps + s == none + seq![first] + (rest + s));
        separator_parts_tokens(none, first, rest + s);
        assert(s + gaps == s + seq![first] + rest);
        separator_parts_tokens(s, first, rest);
        assert(rest + none == rest);
        assert(tokens(none) == Seq::<Seq<char>>::empty());
        assert(tokens(none) + tokens(rest + s) == tokens(s));
        assert(tokens(s) + tokens(rest) == tokens(s));
    }
}

proof fn tokens_ignore_start(s: Seq<char>)
    requires
        spaces_separate(s),
    ensures
        tokens(folded(trim_start(s))) == tokens(folded(s)),
        spaces_separate(trim_start(s)),
    decreases s.len(),
{
    if s.len() > 0 && whitespace(s[0]) {
        let rest = s.drop_first();
        assert forall|i: int| 0 <= i < rest.len() implies separates(#[trigger] rest[i]) by {
            assert(rest[i] == s[i + 1]);
        }
        tokens_ignore_start(rest);
        assert(separates(s[0]));
        assert(s == seq![s[0]] + rest);
        folded_of_sum(seq![s[0]], rest);
        folded_of_one(s[0]);
        separators_around(fold(s[0]), folded(rest));
    }
}

proof fn tokens_ignore_end(s: Seq<char>)
    requires
        spaces_separate(s),
    ensures
        tokens(folded(trim_end(s))) == tokens(folded(s)),
    decreases s.len(),
{
    if s.len() > 0 && whitespace(s.last()) {
        let rest = s.drop_last();
        assert forall|i: int| 0 <= i < rest.len() implies separates(#[trigger] rest[i]) by {
            assert(rest[i] == s[i]);
        }
        tokens_ignore_end(rest);
        assert(separates(s[s.len() - 1]));
        separators_around(fold(s.last()), folded(rest));
    }
}

/// A space between two texts separates: the tokens are those of the first and those of the second,
/// repetitions included, for all texts whose white space becomes separators.
pub proof fn space_separates(a: Seq<char>, b: Seq<char>)
    requires
        spaces_separate(a),
        spaces_separate(b),
    ensures
        tokens(normalized(a + seq![' '] + b)) == tokens(normalized(a)) + tokens(normalized(b)),
{
    let all = a + seq![' '] + b;
    common_characters_settle(' ');
    assert forall|i: int| 0 <= i < all.len() implies separates(#[trigger] all[i]) by {
        if i < a.len() {
            assert(all[i] == a[i]);
        } else if i > a.len() {
            assert(all[i] == b[i - a.len() - 1]);
        }
    }
    tokens_ignore_start(all);
    tokens_ignore_end(trim_start(all));
    tokens_ignore_start(a);
    tokens_ignore_end(trim_start(a));
    tokens_ignore_start(b);
    tokens_ignore_end(trim_start(b));
    folded_of_sum(a, seq![' ']);
    folded_of_sum(a + seq![' '], b);
    folded_of_one(' ');
    assert(fold(' ') == seq![' ']);
    separator_parts_tokens(folded(a), ' ', folded(b));
}

/// A normalized text has the tokens of the text, for every text whose characters settle.
pub proof fn normalizing_keeps_tokens(s: Seq<char>)
    requires
        settled(s),
    ensures
        tokens(normalized(normalized(s))) == tokens(normalized(s)),
{
    normalizing_settles(s);
}

/// A common text has one normal form, one stored form and one list of tokens: taking them again
/// changes nothing.
pub proof fn common_texts_have_one_form(s: Seq<char>)
    requires
        common(s),
    ensures
        normalized(normalized(s)) == normalized(s),
        tag_form(tag_form(s)) == tag_form(s),
        tokens(normalized(normalized(s))) == tokens(normalized(s)),
{
    common_texts_settle(s);
    normalizing_settles(s);
    tag_form_settles(s);
}

/// A token of two adjacent ideographs.
pub open spec fn cjk_pair(t: Seq<char>) -> bool {
    t.len() == 2 && cjk(t[0]) && cjk(t[1])
}

/// The tokens that a query keeps: each once, at its first place; pairs of ideographs only where
/// the query is strict, since they enforce adjacency.
pub open spec fn kept_terms(all: Seq<Seq<char>>, strict: bool) -> Seq<Seq<char>>
    decreases all.len(),
{
    if all.len() == 0 {
        Seq::empty()
    } else {
        let before = kept_terms(all.drop_last(), strict);
        let t = all.last();
        if (strict || !cjk_pair(t)) && !before.contains(t) {
            before.push(t)
        } else {
            before
        }
    }
}

/// The terms of a query, without repetition.
pub fn query_terms(text: &str, strict: bool) -> (out: Vec<String>)
    ensures
        texts(out@) == kept_terms(tokens(normalized(text@)), strict),
{
    let all = tokenize(text);
    let ghost list = texts(all@);
    let mut out: Vec<String> = Vec::new();
    let mut i: usize = 0;
    assert(list.take(0) == Seq::<Seq<char>>::empty());
    while i < all.len()
        invariant
            i <= all.len(),
            list == texts(all@),
            texts(out@) == kept_terms(list.take(i as int), strict),
        decreases all.len() - i,
    {
        let chars = chars_of(all[i].as_str());
        let pair = chars.len() == 2 && is_cjk(chars[0]) && is_cjk(chars[1]);
        let ghost before = texts(out@);
        proof {
            assert(list.take(i + 1).drop_last() == list.take(i as int));
            assert(list.take(i + 1).last() == all@[i as int]@);
        }
        if (strict || !pair) && !holds(&out, all[i].as_str()) {
            out.push(all[i].clone());
            assert(texts(out@) == before.push(all@[i as int]@));
        }
        i = i + 1;
    }
    assert(list.take(list.len() as int) == list);
    out
}

/// No term comes twice, and every kept term is a token of the text.
pub proof fn kept_terms_are_distinct_tokens(all: Seq<Seq<char>>, strict: bool)
    ensures
        kept_terms(all, strict).no_duplicates(),
        forall|t: Seq<char>| #[trigger] kept_terms(all, strict).contains(t) <==> all.contains(t) && (strict || !cjk_pair(t)),
    decreases all.len(),
{
    if all.len() > 0 {
        let before = kept_terms(all.drop_last(), strict);
        let now = kept_terms(all, strict);
        kept_terms_are_distinct_tokens(all.drop_last(), strict);
        assert forall|t: Seq<char>| #[trigger] now.contains(t) <==> all.contains(t) && (strict || !cjk_pair(t)) by {
            assert(all == all.drop_last().push(all.last()));
            if all.drop_last().contains(t) {
                let k = choose|k: int| 0 <= k < all.drop_last().len() && all.drop_last()[k] == t;
                assert(all[k] == t);
            }
            if all.contains(t) {
                let k = choose|k: int| 0 <= k < all.len() && all[k] == t;
                if k < all.len() - 1 {
                    assert(all.drop_last()[k] == t);
                }
            }
            if now != before {
                assert(now == before.push(all.last()));
                assert(now[now.len() - 1] == all.last());
                if before.contains(t) {
                    let k = choose|k: int| 0 <= k < before.len() && before[k] == t;
                    assert(now[k] == t);
                }
                if now.contains(t) {
                    let k = choose|k: int| 0 <= k < now.len() && now[k] == t;
                    if k < before.len() {
                        assert(before[k] == t);
                    }
                }
            }
            assert(before.contains(t) <==> all.drop_last().contains(t) && (strict || !cjk_pair(t)));
        }
    }
}

// ── Token budgets ─────────────────────────────────────────────────────

/// Hundredths of a token that an ASCII character counts for.
pub const ASCII_UNITS: u64 = 25;

/// Hundredths of a token that any other character counts for.
pub const NON_ASCII_UNITS: u64 = 48;

/// Hundredths of a token that one character counts for.
pub open spec fn char_units(ch: char) -> nat {
    if (ch as int) < 128 {
        ASCII_UNITS as nat
    } else {
        NON_ASCII_UNITS as nat
    }
}

/// Hundredths of a token that a text counts for.
pub open spec fn units(s: Seq<char>) -> nat
    decreases s.len(),
{
    if s.len() == 0 {
        0
    } else {
        units(s.drop_last()) + char_units(s.last())
    }
}

/// The token estimate of a text: its units in whole tokens, rounded up.
pub open spec fn token_count(s: Seq<char>) -> nat {
    ((units(s) + 99) / 100) as nat
}

/// Hundredths of a token that `ch` counts for.
fn units_of_char(ch: char) -> (out: u64)
    ensures
        out == char_units(ch),
        (ch as int) < 128 ==> out == 25,
        ch as int >= 128 ==> out == 48,
{
    if code_of(ch) < 128 {
        ASCII_UNITS
    } else {
        NON_ASCII_UNITS
    }
}

/// A text counts for at most 48 hundredths per character, and a prefix for no more than it all.
proof fn units_bounds(s: Seq<char>, k: int)
    requires
        0 <= k <= s.len(),
    ensures
        units(s) <= 48 * s.len(),
        units(s.take(k)) + 25 * (s.len() - k) <= units(s),
    decreases s.len(),
{
    if s.len() > 0 {
        if k == s.len() {
            units_bounds(s.drop_last(), k - 1);
            assert(s.take(k) == s);
        } else {
            units_bounds(s.drop_last(), k);
            assert(s.drop_last().take(k) == s.take(k));
        }
    } else {
        assert(s.take(k) == s);
    }
}

/// Estimates the tokens of a text by character density, rounded up.
pub fn count_tokens(text: &str) -> (out: usize)
    ensures
        out == token_count(text@),
        100 * out >= units(text@),
        out > 0 ==> 100 * (out - 1) < units(text@),
{
    let chars = chars_of(text);
    let mut total: u128 = 0;
    let mut i: usize = 0;
    assert(text@.take(0) == Seq::<char>::empty());
    while i < chars.len()
        invariant
            i <= chars.len(),
            chars@ == text@,
            total == units(text@.take(i as int)),
            total <= 48 * i,
        decreases chars.len() - i,
    {
        total = total + units_of_char(chars[i]) as u128;
        assert(text@.take(i + 1).drop_last() == text@.take(i as int));
        i = i + 1;
    }
    assert(text@.take(text@.len() as int) == text@);
    ((total + 99) / 100) as usize
}

/// `n` is the length of the longest prefix of `s` within a budget of whole tokens.
pub open spec fn longest_prefix(s: Seq<char>, budget: nat, n: int) -> bool {
    &&& 0 <= n <= s.len()
    &&& units(s.take(n)) <= 100 * budget
    &&& n < s.len() ==> units(s.take(n + 1)) > 100 * budget
}

/// A text with as many characters taken off its end as bring it within a budget of whole tokens.
pub open spec fn cut(s: Seq<char>, budget: nat) -> Seq<char>
    decreases s.len(),
{
    if s.len() == 0 || units(s) <= 100 * budget {
        s
    } else {
        cut(s.drop_last(), budget)
    }
}

/// Four ASCII characters make a token, and two others a little less than one: the hundredths of a
/// token add up over the characters, and a rest counts as a whole token.
pub proof fn units_add_up(a: Seq<char>, b: Seq<char>)
    ensures
        units(a + b) == units(a) + units(b),
        (forall|i: int| 0 <= i < a.len() ==> (#[trigger] a[i] as int) < 128) ==> units(a) == 25 * a.len(),
        (forall|i: int| 0 <= i < a.len() ==> #[trigger] a[i] as int >= 128) ==> units(a) == 48 * a.len(),
        100 * token_count(a) >= units(a),
        a.len() > 0 ==> 100 * (token_count(a) - 1) < units(a),
    decreases b.len(), a.len(),
{
    if b.len() > 0 {
        assert((a + b).drop_last() == a + b.drop_last());
        units_add_up(a, b.drop_last());
    } else {
        assert(a + b == a);
        if a.len() > 0 {
            units_add_up(a.drop_last(), b);
            if forall|i: int| 0 <= i < a.len() ==> (#[trigger] a[i] as int) < 128 {
                assert forall|i: int| 0 <= i < a.drop_last().len() implies (#[trigger] a.drop_last()[i] as int) < 128 by {
                    assert(a.drop_last()[i] == a[i]);
                }
                assert((a[a.len() - 1] as int) < 128);
            }
            if forall|i: int| 0 <= i < a.len() ==> #[trigger] a[i] as int >= 128 {
                assert forall|i: int| 0 <= i < a.drop_last().len() implies #[trigger] a.drop_last()[i] as int >= 128 by {
                    assert(a.drop_last()[i] == a[i]);
                }
                assert(a[a.len() - 1] as int >= 128);
            }
        }
    }
}

/// Cutting a text to a budget leaves its longest prefix within the budget.
pub proof fn cut_is_longest_prefix(s: Seq<char>, budget: nat, n: int)
    requires
        longest_prefix(s, budget, n),
    ensures
        cut(s, budget) == s.take(n),
    decreases s.len(),
{
    if n == s.len() {
        assert(s.take(n) == s);
    } else {
        units_bounds(s, n + 1);
        let shorter = s.drop_last();
        assert(shorter.take(n) == s.take(n));
        if n < shorter.len() {
            assert(shorter.take(n + 1) == s.take(n + 1));
        }
        cut_is_longest_prefix(shorter, budget, n);
    }
}

/// Cuts a text to the longest prefix within `budget` tokens.
pub fn truncate_to_tokens(text: &str, budget: usize) -> (out: String)
    ensures
        out@ == text@.take(out@.len() as int),
        longest_prefix(text@, budget as nat, out@.len() as int),
        out@ == cut(text@, budget as nat),
{
    let chars = chars_of(text);
    let limit: u128 = budget as u128 * 100;
    let mut total: u128 = 0;
    let mut i: usize = 0;
    assert(text@.take(0) == Seq::<char>::empty());
    while i < chars.len() && total + units_of_char(chars[i]) as u128 <= limit
        invariant
            i <= chars.len(),
            chars@ == text@,
            limit == 100 * budget,
            total == units(text@.take(i as int)),
            total <= limit,
            limit <= 100 * usize::MAX,
        decreases chars.len() - i,
    {
        total = total + units_of_char(chars[i]) as u128;
        assert(text@.take(i + 1).drop_last() == text@.take(i as int));
        i = i + 1;
    }
    proof {
        if i < chars.len() {
            assert(text@.take(i + 1).drop_last() == text@.take(i as int));
        }
        assert(chars@.subrange(0, i as int) == text@.take(i as int));
        cut_is_longest_prefix(text@, budget as nat, i as int);
    }
    string_between(&chars, 0, i)
}

/// A text cut to a budget is estimated within that budget, and a text within the budget is kept
/// whole.
pub proof fn truncation_meets_budget(s: Seq<char>, budget: nat, n: int)
    requires
        longest_prefix(s, budget, n),
    ensures
        token_count(s.take(n)) <= budget,
        token_count(s) <= budget ==> s.take(n) == s,
{
    if n < s.len() {
        units_bounds(s, n + 1);
    } else {
        assert(s.take(n) == s);
    }
}

// ── Digests ───────────────────────────────────────────────────────────

/// The SHA-256 digest of the UTF-8 bytes of a text, in lowercase hexadecimal.
pub uninterp spec fn sha256_hex(s: Seq<char>) -> Seq<char>;

/// `sha2::Sha256::digest` over the UTF-8 bytes of `text`, written as lowercase hexadecimal: a
/// function of the text alone, named `sha256_hex`.
#[verifier::external_body]
pub(crate) fn digest(text: &str) -> (out: String)
    ensures
        out@ == sha256_hex(text@),
{
    format!("{:x}", sha2::Sha256::digest(text.as_bytes()))
}

// ── Markdown ──────────────────────────────────────────────────────────

/// The patterns that cleaning uses. Each is a valid regular expression.
pub open spec fn markdown_pattern(p: Seq<char>) -> bool {
    ||| p == "<[^>]+>"@
    ||| p == "#+\\s?"@
    ||| p == "(\\*\\*|__)(.*?)(\\*\\*|__)"@
    ||| p == "(\\*|_)(.*?)(\\*|_)"@
    ||| p == "\\[(.*?)\\]\\(.*?\\)"@
    ||| p == "!\\[.*?\\]\\(.*?\\)"@
    ||| p == "(?s)```.*?```"@
    ||| p == "`([^`]+)`"@
    ||| p == "(?m)^[-*+]\\s+"@
    ||| p == "(?m)^\\d+\\.\\s+"@
    ||| p == "(?m)^>\\s+"@
    ||| p == "---+"@
    ||| p == "\\|"@
}

/// What `regex::Regex::replace_all` gives for a pattern, a text and a replacement.
pub uninterp spec fn regex_replaced(pattern: Seq<char>, text: Seq<char>, replacement: Seq<char>) -> Seq<char>;

/// `regex::Regex::replace_all`: every match of `pattern` in `text` replaced, with `$1` and `$2`
/// standing for groups. The result is a function of the three texts, named `regex_replaced`.
/// Only patterns that compile are admitted.
#[verifier::external_body]
fn replace_all(pattern: &str, text: &str, replacement: &str) -> (out: String)
    requires
        markdown_pattern(pattern@),
    ensures
        out@ == regex_replaced(pattern@, text@, replacement@),
{
    regex::Regex::new(pattern).expect("pattern compiles").replace_all(text, replacement).into_owned()
}

/// Markdown with its marks removed, pass by pass: HTML tags, headings, bold, italics, links,
/// images, fenced code, inline code, bullets, ordered items, quotes, rules and table bars.
pub open spec fn markdown_passes(s: Seq<char>) -> Seq<char> {
    let s = regex_replaced("<[^>]+>"@, s, ""@);
    let s = regex_replaced("#+\\s?"@, s, ""@);
    let s = regex_replaced("(\\*\\*|__)(.*?)(\\*\\*|__)"@, s, "$2"@);
    let s = regex_replaced("(\\*|_)(.*?)(\\*|_)"@, s, "$2"@);
    let s = regex_replaced("\\[(.*?)\\]\\(.*?\\)"@, s, "$1"@);
    let s = regex_replaced("!\\[.*?\\]\\(.*?\\)"@, s, ""@);
    let s = regex_replaced("(?s)```.*?```"@, s, ""@);
    let s = regex_replaced("`([^`]+)`"@, s, "$1"@);
    let s = regex_replaced("(?m)^[-*+]\\s+"@, s, ""@);
    let s = regex_replaced("(?m)^\\d+\\.\\s+"@, s, ""@);
    let s = regex_replaced("(?m)^>\\s+"@, s, ""@);
    let s = regex_replaced("---+"@, s, ""@);
    regex_replaced("\\|"@, s, " "@)
}

/// Removes Markdown marks and keeps the readable text.
pub fn clean_markdown(input: &str) -> (out: String)
    ensures
        out@ == trim(markdown_passes(input@)),
        ({
            let s = regex_replaced("<[^>]+>"@, input@, ""@);
            let s = regex_replaced("#+\\s?"@, s, ""@);
            let s = regex_replaced("(\\*\\*|__)(.*?)(\\*\\*|__)"@, s, "$2"@);
            let s = regex_replaced("(\\*|_)(.*?)(\\*|_)"@, s, "$2"@);
            let s = regex_replaced("\\[(.*?)\\]\\(.*?\\)"@, s, "$1"@);
            let s = regex_replaced("!\\[.*?\\]\\(.*?\\)"@, s, ""@);
            let s = regex_replaced("(?s)```.*?```"@, s, ""@);
            let s = regex_replaced("`([^`]+)`"@, s, "$1"@);
            let s = regex_replaced("(?m)^[-*+]\\s+"@, s, ""@);
            let s = regex_replaced("(?m)^\\d+\\.\\s+"@, s, ""@);
            let s = regex_replaced("(?m)^>\\s+"@, s, ""@);
            let s = regex_replaced("---+"@, s, ""@);
            out@ == trim(regex_replaced("\\|"@, s, " "@))
        }),
{
    let text = replace_all("<[^>]+>", input, "");
    let text = replace_all("#+\\s?", text.as_str(), "");
    let text = replace_all("(\\*\\*|__)(.*?)(\\*\\*|__)", text.as_str(), "$2");
    let text = replace_all("(\\*|_)(.*?)(\\*|_)", text.as_str(), "$2");
    let text = replace_all("\\[(.*?)\\]\\(.*?\\)", text.as_str(), "$1");
    let text = replace_all("!\\[.*?\\]\\(.*?\\)", text.as_str(), "");
    let text = replace_all("(?s)```.*?```", text.as_str(), "");
    let text = replace_all("`([^`]+)`", text.as_str(), "$1");
    let text = replace_all("(?m)^[-*+]\\s+", text.as_str(), "");
    let text = replace_all("(?m)^\\d+\\.\\s+", text.as_str(), "");
    let text = replace_all("(?m)^>\\s+", text.as_str(), "");
    let text = replace_all("---+", text.as_str(), "");
    let text = replace_all("\\|", text.as_str(), " ");
    trimmed(text.as_str())
}

} // verus!
