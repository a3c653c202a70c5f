//! Notes: cutting text into chunks, and the paths and tags of note files.

use crate::chars;
use crate::chars::{copy_between, has_char, has_text, is_at, is_blank_chars, is_whitespace, lines_of, run_length, string_between, trim_end_index, trim_start_index};
use crate::error::{Error, ErrorView};
use crate::index;
use crate::json;
use crate::json::Json;
use crate::records;
use crate::storage;
use crate::text;
use crate::types;
use crate::types::{RecordHeader, RecordInput};
use vstd::prelude::*;

verus! {

// ── Blocks ────────────────────────────────────────────────────────────

/// A line that opens a fenced block opens it with this character.
pub open spec fn fence_char(line: Seq<char>) -> char {
    chars::trim_start(line)[0]
}

/// How many fence characters open the line; none where it opens with something else.
pub open spec fn fence_length(line: Seq<char>) -> nat {
    let t = chars::trim_start(line);
    if t.len() > 0 && (t[0] == '`' || t[0] == '~') {
        chars::run_of(t, t[0])
    } else {
        0
    }
}

/// The line ends a fenced block that `mark` repeated `length` times opened.
pub open spec fn closes_fence(line: Seq<char>, mark: char, length: nat) -> bool {
    let t = chars::trim(line);
    &&& chars::run_of(t, mark) >= length
    &&& forall|i: int| 0 <= i < t.len() ==> #[trigger] t[i] == mark || chars::whitespace(t[i])
}

/// The first line behind a fenced block, looked for from line `i` on.
pub open spec fn fence_end(lines: Seq<Seq<char>>, i: int, mark: char, length: nat) -> int
    decreases lines.len() - i,
{
    if i < 0 || i >= lines.len() {
        lines.len() as int
    } else if closes_fence(lines[i], mark, length) {
        i + 1
    } else {
        fence_end(lines, i + 1, mark, length)
    }
}

/// The characters of the row below a table's head.
pub open spec fn delimiter_char(ch: char) -> bool {
    ch == '-' || ch == ':' || ch == '|' || ch == ' ' || ch == '\t'
}

/// The row below a table's head: bars and dashes, nothing else.
pub open spec fn delimiter_row(line: Seq<char>) -> bool {
    let t = chars::trim(line);
    &&& t.contains('-')
    &&& t.contains('|')
    &&& forall|i: int| 0 <= i < t.len() ==> delimiter_char(#[trigger] t[i])
}

/// Line `i` is the head of a table.
pub open spec fn opens_table(lines: Seq<Seq<char>>, i: int) -> bool {
    lines[i].contains('|') && i + 1 < lines.len() && delimiter_row(lines[i + 1])
}

/// The first line at or after `i` that no longer belongs to a table.
pub open spec fn table_end(lines: Seq<Seq<char>>, i: int) -> int
    decreases lines.len() - i,
{
    if 0 <= i < lines.len() && lines[i].contains('|') && !chars::blank(lines[i]) {
        table_end(lines, i + 1)
    } else {
        i
    }
}

/// Line `i` begins something else than a paragraph: a fence, a heading or a table.
pub open spec fn interrupts(lines: Seq<Seq<char>>, i: int) -> bool {
    let t = chars::trim_start(lines[i]);
    ||| chars::begins_with(t, seq!['`', '`', '`'])
    ||| chars::begins_with(t, seq!['~', '~', '~'])
    ||| chars::begins_with(t, seq!['#'])
    ||| i + 1 < lines.len() && lines[i].contains('|') && chars::contains_text(lines[i + 1], seq!['-', '-', '-'])
}

/// The first line at or after `i` that no longer belongs to a paragraph.
pub open spec fn paragraph_end(lines: Seq<Seq<char>>, i: int) -> int
    decreases lines.len() - i,
{
    if 0 <= i < lines.len() && !chars::blank(lines[i]) && !interrupts(lines, i) {
        paragraph_end(lines, i + 1)
    } else {
        i
    }
}

/// A block of lines, from `start` up to `end`. An atomic block is never split.
pub struct Block {
    pub start: int,
    pub end: int,
    pub atomic: bool,
}

/// The block that begins at the line `start`, which is not blank.
pub open spec fn block_at(lines: Seq<Seq<char>>, start: int) -> Block {
    let fence = fence_length(lines[start]);
    if fence >= 3 {
        Block { start, end: fence_end(lines, start + 1, fence_char(lines[start]), fence), atomic: true }
    } else if opens_table(lines, start) {
        Block { start, end: table_end(lines, start + 1), atomic: true }
    } else {
        Block { start, end: paragraph_end(lines, start + 1), atomic: false }
    }
}

/// The blocks from line `i` on, blank lines left out.
pub open spec fn blocks_from(lines: Seq<Seq<char>>, i: int) -> Seq<Block>
    decreases lines.len() - i,
    when 0 <= i <= lines.len()
    via blocks_from_decreases
{
    if i >= lines.len() {
        Seq::empty()
    } else if chars::blank(lines[i]) {
        blocks_from(lines, i + 1)
    } else {
        let block = block_at(lines, i);
        seq![block] + blocks_from(lines, block.end)
    }
}

#[via_fn]
proof fn blocks_from_decreases(lines: Seq<Seq<char>>, i: int) {
    if i < lines.len() {
        block_bounds(lines, i);
    }
}

proof fn end_bounds(lines: Seq<Seq<char>>, i: int, mark: char, length: nat)
    requires
        0 <= i <= lines.len(),
    ensures
        i <= fence_end(lines, i, mark, length) <= lines.len(),
        i <= table_end(lines, i) <= lines.len(),
        i <= paragraph_end(lines, i) <= lines.len(),
    decreases lines.len() - i,
{
    if i < lines.len() {
        end_bounds(lines, i + 1, mark, length);
    }
}

/// A block holds its first line and stays inside the text.
pub proof fn block_bounds(lines: Seq<Seq<char>>, start: int)
    requires
        0 <= start < lines.len(),
    ensures
        start < block_at(lines, start).end <= lines.len(),
{
    end_bounds(lines, start + 1, fence_char(lines[start]), fence_length(lines[start]));
}

/// Whether the line ends a fenced block that `mark` repeated `length` times opened.
fn is_fence_close(line: &Vec<char>, mark: char, length: usize) -> (out: bool)
    ensures
        out == closes_fence(line@, mark, length as nat),
{
    let start: usize = trim_start_index(line, 0, line.len());
    let end: usize = trim_end_index(line, start, line.len());
    let ghost t = line@.subrange(start as int, end as int);
    assert(line@.subrange(0, line@.len() as int) == line@);
    if run_length(line, start, end, mark) < length {
        return false;
    }
    let mut i: usize = start;
    while i < end
        invariant
            start <= i <= end <= line.len(),
            t == line@.subrange(start as int, end as int),
            t == chars::trim(line@),
            forall|k: int| 0 <= k < i - start ==> #[trigger] t[k] == mark || chars::whitespace(t[k]),
        decreases end - i,
    {
        assert(t[i - start] == line@[i as int]);
        if line[i] != mark && !is_whitespace(line[i]) {
            return false;
        }
        i = i + 1;
    }
    true
}

/// Whether the line is the row below a table's head.
fn is_delimiter_row(line: &Vec<char>) -> (out: bool)
    ensures
        out == delimiter_row(line@),
{
    let start: usize = trim_start_index(line, 0, line.len());
    let end: usize = trim_end_index(line, start, line.len());
    assert(line@.subrange(0, line@.len() as int) == line@);
    let t = copy_between(line, start, end);
    let mut i: usize = 0;
    while i < t.len()
        invariant
            i <= t.len(),
            t@ == chars::trim(line@),
            forall|k: int| 0 <= k < i ==> delimiter_char(#[trigger] t@[k]),
        decreases t.len() - i,
    {
        let ch = t[i];
        if ch != '-' && ch != ':' && ch != '|' && ch != ' ' && ch != '\t' {
            assert(!delimiter_char(t@[i as int]));
            return false;
        }
        i = i + 1;
    }
    has_char(&t, '-') && has_char(&t, '|')
}

/// The lines as character sequences.
pub open spec fn views(lines: Seq<Vec<char>>) -> Seq<Seq<char>> {
    chars::line_views(lines)
}

/// Whether line `i` interrupts a paragraph.
fn is_interruption(lines: &Vec<Vec<char>>, i: usize) -> (out: bool)
    requires
        i < lines.len(),
    ensures
        out == interrupts(views(lines@), i as int),
{
    let ghost all = views(lines@);
    let line = &lines[i];
    let start: usize = trim_start_index(line, 0, line.len());
    assert(line@.subrange(0, line@.len() as int) == line@);
    let t = copy_between(line, start, line.len());
    let ticks = vec!['`', '`', '`'];
    let tildes = vec!['~', '~', '~'];
    let hash = vec!['#'];
    let dashes = vec!['-', '-', '-'];
    proof {
        assert(all[i as int] == line@);
        assert(ticks@ == seq!['`', '`', '`']);
        assert(tildes@ == seq!['~', '~', '~']);
        assert(hash@ == seq!['#']);
        assert(dashes@ == seq!['-', '-', '-']);
        if i + 1 < lines.len() {
            assert(all[i + 1] == lines@[i + 1]@);
        }
    }
    is_at(&t, &ticks, 0) || is_at(&t, &tildes, 0) || is_at(&t, &hash, 0)
        || (i + 1 < lines.len() && has_char(line, '|') && has_text(&lines[i + 1], &dashes))
}

/// The block that begins at line `start`: the line behind it, and whether it is atomic.
#[verifier::loop_isolation(false)]
fn block_from(lines: &Vec<Vec<char>>, start: usize) -> (out: (usize, bool))
    requires
        start < lines.len(),
    ensures
        start < out.0 <= lines.len(),
        out.0 == block_at(views(lines@), start as int).end,
        out.1 == block_at(views(lines@), start as int).atomic,
        is_block(views(lines@), start as int, out.0 as int, out.1),
{
    let ghost all = views(lines@);
    let line = &lines[start];
    proof {
        block_bounds(all, start as int);
        blocks_reach_their_ends(all, start as int);
        assert(all[start as int] == line@);
        assert(line@.subrange(0, line@.len() as int) == line@);
    }
    let head: usize = trim_start_index(line, 0, line.len());
    let mut fence: usize = 0;
    if head < line.len() && (line[head] == '`' || line[head] == '~') {
        fence = run_length(line, head, line.len(), line[head]);
    }
    assert(fence == fence_length(all[start as int]));
    let mut i: usize = start + 1;
    if fence >= 3 {
        let mark: char = line[head];
        let ghost goal = fence_end(all, start + 1, mark, fence as nat);
        while i < lines.len()
            invariant
                start < i <= lines.len(),
                all == views(lines@),
                fence_end(all, i as int, mark, fence as nat) == goal,
            decreases lines.len() - i,
        {
            assert(all[i as int] == lines@[i as int]@);
            let closed = is_fence_close(&lines[i], mark, fence);
            i = i + 1;
            if closed {
                return (i, true);
            }
        }
        return (i, true);
    }
    let mut table = false;
    if has_char(line, '|') && start + 1 < lines.len() {
        assert(all[start + 1] == lines@[start + 1]@);
        table = is_delimiter_row(&lines[start + 1]);
    }
    assert(table == opens_table(all, start as int));
    if table {
        let ghost goal = table_end(all, start + 1);
        while i < lines.len() && has_char(&lines[i], '|') && !is_blank_chars(&lines[i])
            invariant
                start < i <= lines.len(),
                all == views(lines@),
                table_end(all, i as int) == goal,
            decreases lines.len() - i,
        {
            assert(all[i as int] == lines@[i as int]@);
            i = i + 1;
        }
        proof {
            if i < lines.len() {
                assert(all[i as int] == lines@[i as int]@);
            }
        }
        return (i, true);
    }
    let ghost goal = paragraph_end(all, start + 1);
    while i < lines.len() && !is_blank_chars(&lines[i]) && !is_interruption(lines, i)
        invariant
            start < i <= lines.len(),
            all == views(lines@),
            paragraph_end(all, i as int) == goal,
        decreases lines.len() - i,
    {
        assert(all[i as int] == lines@[i as int]@);
        i = i + 1;
    }
    proof {
        if i < lines.len() {
            assert(all[i as int] == lines@[i as int]@);
        }
    }
    (i, false)
}

// ── Chunks ────────────────────────────────────────────────────────────

/// One chunk of a note. `offset` is its first line, from one; `limit` is its number of lines.
/// Chunks of a long line share that line's number and each carry their own text.
#[derive(Debug)]
pub struct TextChunk {
    pub ordinal: usize,
    pub offset: usize,
    pub limit: usize,
    pub content: String,
}

/// A stretch of text and the lines it stands on.
pub struct Piece {
    pub offset: int,
    pub limit: int,
    pub content: Seq<char>,
}

/// How many line feeds `s` holds.
pub open spec fn feeds(s: Seq<char>) -> nat
    decreases s.len(),
{
    if s.len() == 0 {
        0
    } else {
        feeds(s.drop_last()) + (if s.last() == '\n' { 1nat } else { 0nat })
    }
}

/// The text of the lines from `start` up to `end`.
pub open spec fn block_text(lines: Seq<Seq<char>>, start: int, end: int) -> Seq<char> {
    chars::joined(lines.subrange(start, end), seq!['\n'])
}

/// The piece of `body` from `from` up to `to`, where `body` begins on line `line`.
pub open spec fn piece(body: Seq<char>, from: int, to: int, line: int) -> Piece {
    Piece {
        offset: line + feeds(body.take(from)),
        limit: feeds(body.subrange(from, to)) as int + 1,
        content: body.subrange(from, to),
    }
}

/// `body` from position `from` on, cut into pieces of `target` characters. A line feed at a cut
/// belongs to neither side.
pub open spec fn pieces(body: Seq<char>, from: int, target: int, line: int) -> Seq<Piece>
    decreases body.len() - from,
    when 0 <= from && target >= 1
{
    let cut = from + target;
    if from >= body.len() {
        Seq::empty()
    } else if cut >= body.len() {
        seq![piece(body, from, body.len() as int, line)]
    } else if body[cut - 1] == '\n' {
        seq![piece(body, from, cut - 1, line)] + pieces(body, cut, target, line)
    } else if body[cut] == '\n' {
        seq![piece(body, from, cut, line)] + pieces(body, cut + 1, target, line)
    } else {
        seq![piece(body, from, cut, line)] + pieces(body, cut, target, line)
    }
}

/// The pieces of one block: an atomic block and one within the target stay whole.
pub open spec fn block_pieces(lines: Seq<Seq<char>>, block: Block, target: int) -> Seq<Piece> {
    let body = block_text(lines, block.start, block.end);
    if block.atomic || body.len() <= target {
        seq![Piece { offset: block.start + 1, limit: block.end - block.start, content: body }]
    } else {
        pieces(body, 0, target, block.start + 1)
    }
}

/// The pieces of a list of blocks, in order.
pub open spec fn all_pieces(lines: Seq<Seq<char>>, blocks: Seq<Block>, target: int) -> Seq<Piece>
    decreases blocks.len(),
{
    if blocks.len() == 0 {
        Seq::empty()
    } else {
        block_pieces(lines, blocks[0], target) + all_pieces(lines, blocks.drop_first(), target)
    }
}

/// The pieces of a text.
pub open spec fn text_pieces(content: Seq<char>, target: int) -> Seq<Piece> {
    let lines = chars::lines(content);
    all_pieces(lines, blocks_from(lines, 0), target)
}

/// A chunk without its ordinal.
pub open spec fn piece_of(chunk: TextChunk) -> Piece {
    Piece { offset: chunk.offset as int, limit: chunk.limit as int, content: chunk.content@ }
}

/// Each chunk has its position as ordinal.
pub open spec fn numbered(list: Seq<TextChunk>) -> bool {
    forall|i: int| 0 <= i < list.len() ==> (#[trigger] list[i]).ordinal == i
}

/// The chunks without their ordinals.
pub open spec fn pieces_of(list: Seq<TextChunk>) -> Seq<Piece> {
    Seq::new(list.len(), |i: int| piece_of(list[i]))
}

proof fn feeds_split(s: Seq<char>, k: int)
    requires
        0 <= k <= s.len(),
    ensures
        feeds(s) == feeds(s.take(k)) + feeds(s.skip(k)),
        feeds(s) <= s.len(),
    decreases s.len(),
{
    if s.len() == 0 {
        assert(s.take(k) == s);
        assert(s.skip(k) == s);
    } else if k == s.len() {
        feeds_split(s.drop_last(), 0);
        assert(s.drop_last().skip(0) == s.drop_last());
        assert(s.take(k) == s);
        assert(s.skip(k) == Seq::<char>::empty());
    } else {
        feeds_split(s.drop_last(), k);
        assert(s.drop_last().take(k) == s.take(k));
        assert(s.drop_last().skip(k) == s.skip(k).drop_last());
        assert(s.skip(k).last() == s.last());
    }
}

/// Line feeds before `to` are those before `from` and those between.
proof fn feeds_between(s: Seq<char>, from: int, to: int)
    requires
        0 <= from <= to <= s.len(),
    ensures
        feeds(s.take(to)) == feeds(s.take(from)) + feeds(s.subrange(from, to)),
        feeds(s.take(to)) <= feeds(s),
{
    feeds_split(s.take(to), from);
    assert(s.take(to).take(from) == s.take(from));
    assert(s.take(to).skip(from) == s.subrange(from, to));
    feeds_split(s, to);
}

proof fn feeds_none(s: Seq<char>)
    requires
        !s.contains('\n'),
    ensures
        feeds(s) == 0,
    decreases s.len(),
{
    if s.len() > 0 {
        assert(s.last() != '\n') by {
            assert(s[s.len() - 1] == s.last());
        }
        assert(!s.drop_last().contains('\n')) by {
            if s.drop_last().contains('\n') {
                let i = choose|i: int| 0 <= i < s.drop_last().len() && s.drop_last()[i] == '\n';
                assert(s[i] == '\n');
            }
        }
        feeds_none(s.drop_last());
    }
}

/// No line holds a line feed.
proof fn lines_hold_no_feed(s: Seq<char>, from: int)
    requires
        0 <= from <= s.len(),
    ensures
        forall|i: int| 0 <= i < chars::lines_from(s, from).len() ==> !(#[trigger] chars::lines_from(s, from)[i]).contains('\n'),
    decreases s.len() - from,
{
    if from < s.len() {
        let end = chars::position_from(s, '\n', from);
        chars::position_from_bounds(s, '\n', from);
        let head = s.subrange(from, end);
        assert(!head.contains('\n')) by {
            if head.contains('\n') {
                let k = choose|k: int| 0 <= k < head.len() && head[k] == '\n';
                assert(s[from + k] == '\n');
            }
        }
        let cut = chars::without_return(head);
        assert(!cut.contains('\n')) by {
            if cut.contains('\n') {
                let k = choose|k: int| 0 <= k < cut.len() && cut[k] == '\n';
                assert(head[k] == '\n');
            }
        }
        let all = chars::lines_from(s, from);
        if end < s.len() {
            lines_hold_no_feed(s, end + 1);
            let rest = chars::lines_from(s, end + 1);
            assert forall|i: int| 0 <= i < all.len() implies !(#[trigger] all[i]).contains('\n') by {
                if i > 0 {
                    assert(all[i] == rest[i - 1]);
                }
            }
        } else {
            assert(all[0] == head);
        }
    }
}

/// Joined lines hold one line feed less than there are lines.
proof fn feeds_of_joined(parts: Seq<Seq<char>>)
    requires
        parts.len() > 0,
        forall|i: int| 0 <= i < parts.len() ==> !(#[trigger] parts[i]).contains('\n'),
    ensures
        feeds(chars::joined(parts, seq!['\n'])) == parts.len() - 1,
    decreases parts.len(),
{
    if parts.len() == 1 {
        feeds_none(parts[0]);
    } else {
        let before = parts.drop_last();
        assert forall|i: int| 0 <= i < before.len() implies !(#[trigger] before[i]).contains('\n') by {
            assert(before[i] == parts[i]);
        }
        feeds_of_joined(before);
        let left = chars::joined(before, seq!['\n']);
        let mid = left + seq!['\n'];
        let whole = mid + parts.last();
        assert(parts[parts.len() - 1] == parts.last());
        feeds_none(parts.last());
        feeds_split(whole, mid.len() as int);
        assert(whole.take(mid.len() as int) == mid);
        assert(whole.skip(mid.len() as int) == parts.last());
        assert(mid.drop_last() == left);
    }
}

/// The characters of the lines from `start` up to `end`, joined by line feeds.
fn text_of_block(lines: &Vec<Vec<char>>, start: usize, end: usize) -> (out: Vec<char>)
    requires
        start <= end <= lines.len(),
    ensures
        out@ == block_text(views(lines@), start as int, end as int),
{
    let ghost all = views(lines@);
    let mut out: Vec<char> = Vec::new();
    let mut i: usize = start;
    assert(all.subrange(start as int, start as int) == Seq::<Seq<char>>::empty());
    while i < end
        invariant
            start <= i <= end <= lines.len(),
            all == views(lines@),
            out@ == block_text(all, start as int, i as int),
        decreases end - i,
    {
        let ghost before = out@;
        if i > start {
            out.push('\n');
        }
        let ghost with_feed = out@;
        let line = &lines[i];
        let mut k: usize = 0;
        while k < line.len()
            invariant
                k <= line.len(),
                out@ == with_feed + line@.take(k as int),
            decreases line.len() - k,
        {
            out.push(line[k]);
            assert(line@.take(k + 1) == line@.take(k as int).push(line@[k as int]));
            k = k + 1;
        }
        proof {
            assert(line@.take(line@.len() as int) == line@);
            let parts = all.subrange(start as int, i + 1);
            assert(parts.drop_last() == all.subrange(start as int, i as int));
            assert(parts.last() == line@);
            if i > start {
                assert(with_feed == before + seq!['\n']);
            } else {
                assert(out@ == line@);
            }
        }
        i = i + 1;
    }
    out
}

/// How many line feeds stand in `chars` from `from` up to `to`.
fn count_feeds(chars: &Vec<char>, from: usize, to: usize) -> (out: usize)
    requires
        from <= to <= chars.len(),
    ensures
        out == feeds(chars@.subrange(from as int, to as int)),
        out <= to - from,
{
    let mut i: usize = from;
    let mut count: usize = 0;
    while i < to
        invariant
            from <= i <= to <= chars.len(),
            count <= i - from,
            count == feeds(chars@.subrange(from as int, i as int)),
        decreases to - i,
    {
        assert(chars@.subrange(from as int, i + 1).drop_last() == chars@.subrange(from as int, i as int));
        if chars[i] == '\n' {
            count = count + 1;
        }
        i = i + 1;
    }
    count
}

/// Appends the piece of `body` from `from` up to `to`, where `line` is the line of `from`.
fn push_piece(out: &mut Vec<TextChunk>, body: &Vec<char>, from: usize, to: usize, line: usize)
    requires
        from <= to <= body.len(),
        to - from < usize::MAX,
        numbered(old(out)@),
    ensures
        numbered(final(out)@),
        pieces_of(final(out)@) == pieces_of(old(out)@).push(
            Piece {
                offset: line as int,
                limit: feeds(body@.subrange(from as int, to as int)) as int + 1,
                content: body@.subrange(from as int, to as int),
            },
        ),
{
    let limit: usize = count_feeds(body, from, to) + 1;
    let ghost before = pieces_of(out@);
    let ordinal: usize = out.len();
    out.push(TextChunk { ordinal, offset: line, limit, content: string_between(body, from, to) });
    assert(pieces_of(out@) == before.push(piece_of(out@.last())));
}

/// Appends the pieces of a body that is longer than the target.
fn push_pieces(out: &mut Vec<TextChunk>, body: &Vec<char>, target: usize, line: usize)
    requires
        1 <= target <= 100_000,
        line + feeds(body@) <= usize::MAX,
        numbered(old(out)@),
    ensures
        numbered(final(out)@),
        pieces_of(final(out)@) == pieces_of(old(out)@) + pieces(body@, 0, target as int, line as int),
{
    let ghost start = pieces_of(out@);
    let ghost whole = pieces(body@, 0, target as int, line as int);
    let mut from: usize = 0;
    let mut here: usize = line;
    assert(body@.take(0) == Seq::<char>::empty());
    assert(start + whole == pieces_of(out@) + pieces(body@, 0, target as int, line as int));
    while from < body.len()
        invariant
            from <= body.len(),
            1 <= target <= 100_000,
            line + feeds(body@) <= usize::MAX,
            numbered(out@),
            here == line + feeds(body@.take(from as int)),
            pieces_of(out@) + pieces(body@, from as int, target as int, line as int) == start + whole,
        decreases body.len() - from,
    {
        let ghost before = pieces_of(out@);
        let ghost rest = pieces(body@, from as int, target as int, line as int);
        let mut to: usize = body.len();
        let mut next: usize = body.len();
        if body.len() - from > target {
            let cut: usize = from + target;
            if body[cut - 1] == '\n' {
                to = cut - 1;
                next = cut;
            } else if body[cut] == '\n' {
                to = cut;
                next = cut + 1;
            } else {
                to = cut;
                next = cut;
            }
        }
        push_piece(out, body, from, to, here);
        proof {
            feeds_between(body@, from as int, next as int);
            let made = piece(body@, from as int, to as int, line as int);
            assert(pieces_of(out@) == before.push(made));
            if body.len() - from > target {
                assert(rest == seq![made] + pieces(body@, next as int, target as int, line as int));
            } else {
                assert(rest == seq![made]);
                assert(pieces(body@, next as int, target as int, line as int) == Seq::<Piece>::empty());
            }
            assert(pieces_of(out@) + pieces(body@, next as int, target as int, line as int) == before + rest);
            feeds_split(body@.subrange(from as int, next as int), 0);
        }
        here = here + count_feeds(body, from, next);
        from = next;
    }
    assert(pieces_of(out@) == start + whole);
}

/// The result of cutting a text: refused where the target is out of range, else its pieces,
/// numbered in order.
pub open spec fn chunked(content: Seq<char>, target: int, out: Result<Vec<TextChunk>, Error>) -> bool {
    if 16 <= target <= 100_000 {
        &&& out is Ok
        &&& pieces_of(out->Ok_0@) == text_pieces(content, target)
        &&& numbered(out->Ok_0@)
    } else {
        &&& out is Err
        &&& out->Err_0@ == ErrorView::Validation("chunk_chars must be between 16 and 100000"@)
    }
}

/// Cuts a text into chunks along its paragraphs. Fenced code and tables are atomic, even above
/// the target size. A long line may span chunks that share its line number.
pub fn chunk_text(content: &str, target: usize) -> (out: Result<Vec<TextChunk>, Error>)
    ensures
        chunked(content@, target as int, out),
        out is Ok <==> 16 <= target <= 100_000,
        out matches Ok(list) ==> forall|i: int| 0 <= i < list@.len() ==> (#[trigger] list@[i]).ordinal == i,
        out matches Ok(list) ==> forall|i: int|
            0 <= i < list@.len() ==> from_a_block(
                chars::lines(content@),
                (Piece { offset: (#[trigger] list@[i]).offset as int, limit: list@[i].limit as int, content: list@[i].content@ }),
                target as int,
            ),
{
    if target < 16 || target > 100_000 {
        return Err(Error::Validation("chunk_chars must be between 16 and 100000".to_owned()));
    }
    let lines = lines_of(content);
    let ghost all = views(lines@);
    proof {
        assert(all == chars::lines(content@));
        lines_hold_no_feed(content@, 0);
    }
    let mut chunks: Vec<TextChunk> = Vec::new();
    let mut i: usize = 0;
    let ghost goal = all_pieces(all, blocks_from(all, 0), target as int);
    assert(pieces_of(chunks@) + goal == goal);
    while i < lines.len()
        invariant
            i <= lines.len(),
            16 <= target <= 100_000,
            all == views(lines@),
            numbered(chunks@),
            forall|k: int| 0 <= k < all.len() ==> !(#[trigger] all[k]).contains('\n'),
            pieces_of(chunks@) + all_pieces(all, blocks_from(all, i as int), target as int) == goal,
        decreases lines.len() - i,
    {
        assert(all[i as int] == lines@[i as int]@);
        if is_blank_chars(&lines[i]) {
            i = i + 1;
            continue;
        }
        let (end, atomic) = block_from(&lines, i);
        let body = text_of_block(&lines, i, end);
        let ghost block = block_at(all, i as int);
        let ghost before = pieces_of(chunks@);
        let ghost made = block_pieces(all, block, target as int);
        if atomic || body.len() <= target {
            let ordinal: usize = chunks.len();
            chunks.push(TextChunk { ordinal, offset: i + 1, limit: end - i, content: chars::string_of(&body) });
            assert(pieces_of(chunks@) == before.push(piece_of(chunks@.last())));
            assert(made == seq![piece_of(chunks@.last())]);
        } else {
            proof {
                let parts = all.subrange(i as int, end as int);
                assert forall|k: int| 0 <= k < parts.len() implies !(#[trigger] parts[k]).contains('\n') by {
                    assert(parts[k] == all[i + k]);
                }
                feeds_of_joined(parts);
            }
            push_pieces(&mut chunks, &body, target, i + 1);
        }
        proof {
            let rest = blocks_from(all, end as int);
            assert(blocks_from(all, i as int) == seq![block] + rest);
            assert((seq![block] + rest).drop_first() == rest);
            assert(pieces_of(chunks@) == before + made);
            assert(pieces_of(chunks@) + all_pieces(all, rest, target as int) == before + (made + all_pieces(all, rest, target as int)));
        }
        i = end;
    }
    assert(pieces_of(chunks@) == goal);
    proof {
        chunks_are_blocks(content@, target as int);
        assert forall|k: int| 0 <= k < chunks@.len() implies from_a_block(
            chars::lines(content@),
            (Piece { offset: (#[trigger] chunks@[k]).offset as int, limit: chunks@[k].limit as int, content: chunks@[k].content@ }),
            target as int,
        ) by {
            assert(pieces_of(chunks@)[k] == piece_of(chunks@[k]));
            assert(from_a_block(chars::lines(content@), text_pieces(content@, target as int)[k], target as int));
        }
    }
    Ok(chunks)
}

// ── What chunking promises ────────────────────────────────────────────

/// `s` without its line feeds.
pub open spec fn solid(s: Seq<char>) -> Seq<char>
    decreases s.len(),
{
    if s.len() == 0 {
        Seq::empty()
    } else if s.last() == '\n' {
        solid(s.drop_last())
    } else {
        solid(s.drop_last()).push(s.last())
    }
}

/// The characters of a list of pieces in order, without line feeds.
pub open spec fn solid_pieces(list: Seq<Piece>) -> Seq<char>
    decreases list.len(),
{
    if list.len() == 0 {
        Seq::empty()
    } else {
        solid(list[0].content) + solid_pieces(list.drop_first())
    }
}

/// The characters of a list of lines in order.
pub open spec fn solid_lines(list: Seq<Seq<char>>) -> Seq<char>
    decreases list.len(),
{
    if list.len() == 0 {
        Seq::empty()
    } else {
        solid_lines(list.drop_last()) + list.last()
    }
}

proof fn solid_of_sum(a: Seq<char>, b: Seq<char>)
    ensures
        solid(a + b) == solid(a) + solid(b),
    decreases b.len(),
{
    if b.len() == 0 {
        assert(a + b == a);
    } else {
        solid_of_sum(a, b.drop_last());
        assert((a + b).drop_last() == a + b.drop_last());
        assert((a + b).last() == b.last());
    }
}

proof fn solid_without_feed(s: Seq<char>)
    requires
        !s.contains('\n'),
    ensures
        solid(s) == s,
    decreases s.len(),
{
    if s.len() > 0 {
        assert(s[s.len() - 1] == s.last());
        assert(!s.drop_last().contains('\n')) by {
            if s.drop_last().contains('\n') {
                let i = choose|i: int| 0 <= i < s.drop_last().len() && s.drop_last()[i] == '\n';
                assert(s[i] == '\n');
            }
        }
        solid_without_feed(s.drop_last());
        assert(s == s.drop_last().push(s.last()));
    }
}

proof fn solid_of_joined(parts: Seq<Seq<char>>)
    requires
        forall|i: int| 0 <= i < parts.len() ==> !(#[trigger] parts[i]).contains('\n'),
    ensures
        solid(chars::joined(parts, seq!['\n'])) == solid_lines(parts),
    decreases parts.len(),
{
    if parts.len() > 0 {
        let before = parts.drop_last();
        assert(parts[parts.len() - 1] == parts.last());
        assert forall|i: int| 0 <= i < before.len() implies !(#[trigger] before[i]).contains('\n') by {
            assert(before[i] == parts[i]);
        }
        solid_of_joined(before);
        solid_without_feed(parts.last());
        if parts.len() == 1 {
            assert(before == Seq::<Seq<char>>::empty());
            assert(solid_lines(parts) == parts.last());
        } else {
            let left = chars::joined(before, seq!['\n']);
            solid_of_sum(left + seq!['\n'], parts.last());
            assert((left + seq!['\n']).drop_last() == left);
        }
    }
}

/// Cutting drops nothing but line feeds, and every piece holds at least one character and at
/// most `target`.
proof fn pieces_keep_text(body: Seq<char>, from: int, target: int, line: int)
    requires
        0 <= from <= body.len(),
        target >= 2,
    ensures
        solid_pieces(pieces(body, from, target, line)) == solid(body.skip(from)),
        forall|i: int|
            0 <= i < pieces(body, from, target, line).len() ==> 1 <= (#[trigger] pieces(body, from, target, line)[i]).content.len() <= target,
        forall|i: int|
            0 <= i < pieces(body, from, target, line).len() ==> {
                let p = #[trigger] pieces(body, from, target, line)[i];
                line <= p.offset && 1 <= p.limit && p.offset + p.limit - 1 <= line + feeds(body)
            },
    decreases body.len() - from,
{
    let list = pieces(body, from, target, line);
    if from < body.len() {
        let cut = from + target;
        let to = if cut >= body.len() {
            body.len() as int
        } else if body[cut - 1] == '\n' {
            cut - 1
        } else {
            cut
        };
        let next = if cut >= body.len() {
            body.len() as int
        } else if body[cut - 1] == '\n' {
            cut
        } else if body[cut] == '\n' {
            cut + 1
        } else {
            cut
        };
        let head = piece(body, from, to, line);
        let rest = pieces(body, next, target, line);
        pieces_keep_text(body, next, target, line);
        if cut >= body.len() {
            assert(rest == Seq::<Piece>::empty());
        }
        assert(list == seq![head] + rest);
        assert(list.drop_first() == rest);
        let middle = body.subrange(to, next);
        assert(solid(middle) == Seq::<char>::empty()) by {
            assert(solid(Seq::<char>::empty()) == Seq::<char>::empty());
            if next > to {
                assert(middle.last() == '\n');
                assert(middle.drop_last() == Seq::<char>::empty());
            } else {
                assert(middle == Seq::<char>::empty());
            }
        }
        solid_of_sum(body.subrange(from, to), middle);
        solid_of_sum(body.subrange(from, to) + middle, body.skip(next));
        assert(body.skip(from) == body.subrange(from, to) + middle + body.skip(next));
        feeds_between(body, from, to);
        assert forall|i: int| 0 <= i < list.len() implies 1 <= (#[trigger] list[i]).content.len() <= target by {
            if i > 0 {
                assert(list[i] == rest[i - 1]);
            }
        }
        assert forall|i: int| 0 <= i < list.len() implies ({
            let p = #[trigger] list[i];
            line <= p.offset && 1 <= p.limit && p.offset + p.limit - 1 <= line + feeds(body)
        }) by {
            if i > 0 {
                assert(list[i] == rest[i - 1]);
            }
        }
    } else {
        assert(body.skip(from) == Seq::<char>::empty());
    }
}

/// The chunks of a block hold the characters of its lines, in order and nothing else, line feeds
/// left out. Where the block is not atomic, each chunk holds at least one character and at most
/// `target`. Each chunk stands on lines of its block.
pub proof fn block_chunks_keep_text(content: Seq<char>, start: int, target: int)
    requires
        16 <= target <= 100_000,
        0 <= start < chars::lines(content).len(),
        !chars::blank(chars::lines(content)[start]),
    ensures
        ({
            let lines = chars::lines(content);
            let block = block_at(lines, start);
            let list = block_pieces(lines, block, target);
            &&& solid_pieces(list) == solid_lines(lines.subrange(start, block.end))
            &&& forall|i: int|
                0 <= i < list.len() ==> block.start < (#[trigger] list[i]).offset && 1 <= list[i].limit
                    && list[i].offset + list[i].limit - 1 <= block.end
            &&& !block.atomic ==> forall|i: int| 0 <= i < list.len() ==> 1 <= (#[trigger] list[i]).content.len() <= target
        }),
{
    let lines = chars::lines(content);
    let block = block_at(lines, start);
    let list = block_pieces(lines, block, target);
    let parts = lines.subrange(start, block.end);
    let body = block_text(lines, start, block.end);
    block_bounds(lines, start);
    lines_hold_no_feed(content, 0);
    assert forall|i: int| 0 <= i < parts.len() implies !(#[trigger] parts[i]).contains('\n') by {
        assert(parts[i] == lines[start + i]);
    }
    solid_of_joined(parts);
    feeds_of_joined(parts);
    if block.atomic || body.len() <= target {
        assert(list.drop_first() == Seq::<Piece>::empty());
        assert(solid_pieces(list.drop_first()) == Seq::<char>::empty());
        if !block.atomic {
            joined_covers_first(parts);
            assert(lines[start].len() > 0);
        }
    } else {
        pieces_keep_text(body, 0, target, start + 1);
        assert(body.skip(0) == body);
    }
}

/// Joined parts are at least as long as the first of them.
proof fn joined_covers_first(parts: Seq<Seq<char>>)
    requires
        parts.len() > 0,
    ensures
        chars::joined(parts, seq!['\n']).len() >= parts[0].len(),
    decreases parts.len(),
{
    if parts.len() > 1 {
        joined_covers_first(parts.drop_last());
    }
}

/// The blocks of a text follow each other without overlap, and every line that is not blank
/// belongs to one of them.
#[verifier::rlimit(40)]
#[verifier::spinoff_prover]
pub proof fn blocks_cover_text(lines: Seq<Seq<char>>, i: int)
    requires
        0 <= i <= lines.len(),
    ensures
        ({
            let list = blocks_from(lines, i);
            &&& forall|k: int| 0 <= k < list.len() ==> i <= (#[trigger] list[k]).start < list[k].end <= lines.len()
            &&& forall|j: int, k: int| 0 <= j < k < list.len() ==> (#[trigger] list[j]).end <= (#[trigger] list[k]).start
            &&& forall|n: int|
                i <= n < lines.len() && !chars::blank(#[trigger] lines[n]) ==> exists|k: int|
                    0 <= k < list.len() && (#[trigger] list[k]).start <= n < list[k].end
            &&& forall|k: int|
                0 <= k < list.len() ==> !chars::blank(lines[(#[trigger] list[k]).start]) && list[k] == block_at(lines, list[k].start)
        }),
    decreases lines.len() - i,
{
    let list = blocks_from(lines, i);
    if i < lines.len() {
        if chars::blank(lines[i]) {
            blocks_cover_text(lines, i + 1);
        } else {
            let block = block_at(lines, i);
            block_bounds(lines, i);
            blocks_cover_text(lines, block.end);
            let rest = blocks_from(lines, block.end);
            assert(list == seq![block] + rest);
            assert forall|k: int| 0 <= k < list.len() implies i <= (#[trigger] list[k]).start < list[k].end <= lines.len() by {
                if k > 0 {
                    assert(list[k] == rest[k - 1]);
                }
            }
            assert forall|j: int, k: int| 0 <= j < k < list.len() implies (#[trigger] list[j]).end <= (#[trigger] list[k]).start by {
                assert(list[k] == rest[k - 1]);
                if j > 0 {
                    assert(list[j] == rest[j - 1]);
                }
            }
            assert forall|n: int| i <= n < lines.len() && !chars::blank(#[trigger] lines[n]) implies exists|k: int|
                0 <= k < list.len() && (#[trigger] list[k]).start <= n < list[k].end by {
                if n < block.end {
                    assert(list[0].start <= n < list[0].end);
                } else {
                    let k = choose|k: int| 0 <= k < rest.len() && (#[trigger] rest[k]).start <= n < rest[k].end;
                    assert(list[k + 1] == rest[k]);
                }
            }
            assert forall|k: int| 0 <= k < list.len() implies !chars::blank(lines[(#[trigger] list[k]).start]) && list[k]
                == block_at(lines, list[k].start) by {
                if k > 0 {
                    assert(list[k] == rest[k - 1]);
                }
            }
        }
    }
}

/// `s` without its white space.
pub open spec fn visible(s: Seq<char>) -> Seq<char>
    decreases s.len(),
{
    if s.len() == 0 {
        Seq::empty()
    } else if chars::whitespace(s.last()) {
        visible(s.drop_last())
    } else {
        visible(s.drop_last()).push(s.last())
    }
}

/// The contents of a list of pieces, one behind the other.
pub open spec fn contents(list: Seq<Piece>) -> Seq<char>
    decreases list.len(),
{
    if list.len() == 0 {
        Seq::empty()
    } else {
        list[0].content + contents(list.drop_first())
    }
}

/// The text of the lines that a piece stands on.
pub open spec fn lines_below(lines: Seq<Seq<char>>, p: Piece) -> Seq<char> {
    block_text(lines, p.offset - 1, p.offset - 1 + p.limit)
}

/// A piece stands on lines of the text, and its content is a stretch of those lines.
pub open spec fn in_place(lines: Seq<Seq<char>>, p: Piece) -> bool {
    &&& 1 <= p.offset
    &&& 1 <= p.limit
    &&& p.offset + p.limit - 1 <= lines.len()
    &&& chars::contains_text(lines_below(lines, p), p.content)
}

/// No piece begins before the last line of an earlier one.
pub open spec fn in_line_order(list: Seq<Piece>) -> bool {
    forall|j: int, k: int| 0 <= j < k < list.len() ==> (#[trigger] list[j]).offset + list[j].limit - 1 <= (#[trigger] list[k]).offset
}

proof fn visible_of_sum(a: Seq<char>, b: Seq<char>)
    ensures
        visible(a + b) == visible(a) + visible(b),
    decreases b.len(),
{
    if b.len() == 0 {
        assert(a + b == a);
    } else {
        visible_of_sum(a, b.drop_last());
        assert((a + b).drop_last() == a + b.drop_last());
        assert((a + b).last() == b.last());
    }
}

proof fn visible_of_blank(s: Seq<char>)
    requires
        chars::blank(s),
    ensures
        visible(s) == Seq::<char>::empty(),
    decreases s.len(),
{
    if s.len() > 0 {
        assert(s[s.len() - 1] == s.last());
        assert forall|i: int| 0 <= i < s.drop_last().len() implies chars::whitespace(#[trigger] s.drop_last()[i]) by {
            assert(s.drop_last()[i] == s[i]);
        }
        visible_of_blank(s.drop_last());
    }
}

proof fn visible_of_solid(s: Seq<char>)
    ensures
        visible(solid(s)) == visible(s),
    decreases s.len(),
{
    if s.len() > 0 {
        visible_of_solid(s.drop_last());
        if s.last() != '\n' {
            assert(solid(s).drop_last() == solid(s.drop_last()));
            assert(solid(s).last() == s.last());
        }
    }
}

proof fn visible_of_pieces(list: Seq<Piece>)
    ensures
        visible(contents(list)) == visible(solid_pieces(list)),
    decreases list.len(),
{
    if list.len() > 0 {
        visible_of_pieces(list.drop_first());
        visible_of_sum(list[0].content, contents(list.drop_first()));
        visible_of_sum(solid(list[0].content), solid_pieces(list.drop_first()));
        visible_of_solid(list[0].content);
    }
}

proof fn contents_of_sum(a: Seq<Piece>, b: Seq<Piece>)
    ensures
        contents(a + b) == contents(a) + contents(b),
    decreases a.len(),
{
    if a.len() == 0 {
        assert(a + b == b);
    } else {
        contents_of_sum(a.drop_first(), b);
        assert((a + b).drop_first() == a.drop_first() + b);
        assert((a + b)[0] == a[0]);
        assert(contents(a + b) == contents(a) + contents(b));
    }
}

proof fn solid_lines_of_sum(a: Seq<Seq<char>>, b: Seq<Seq<char>>)
    ensures
        solid_lines(a + b) == solid_lines(a) + solid_lines(b),
    decreases b.len(),
{
    if b.len() == 0 {
        assert(a + b == a);
    } else {
        solid_lines_of_sum(a, b.drop_last());
        assert((a + b).drop_last() == a + b.drop_last());
        assert((a + b).last() == b.last());
        assert(solid_lines(a + b) == solid_lines(a) + solid_lines(b));
    }
}

proof fn solid_lines_of_one(line: Seq<char>)
    ensures
        solid_lines(seq![line]) == line,
{
    assert(seq![line].drop_last() == Seq::<Seq<char>>::empty());
    assert(seq![line].last() == line);
    assert(solid_lines(seq![line].drop_last()) == Seq::<char>::empty());
}

/// Lines lose nothing of a text but white space.
proof fn lines_keep_text(s: Seq<char>, from: int)
    requires
        0 <= from <= s.len(),
    ensures
        visible(solid_lines(chars::lines_from(s, from))) == visible(s.skip(from)),
    decreases s.len() - from,
{
    if from >= s.len() {
        assert(s.skip(from) == Seq::<char>::empty());
    } else {
        let end = chars::position_from(s, '\n', from);
        chars::position_from_bounds(s, '\n', from);
        if end >= s.len() {
            assert(s.subrange(from, s.len() as int) == s.skip(from));
            solid_lines_of_one(s.skip(from));
        } else {
            let head = s.subrange(from, end);
            let line = chars::without_return(head);
            lines_keep_text(s, end + 1);
            solid_lines_of_sum(seq![line], chars::lines_from(s, end + 1));
            solid_lines_of_one(line);
            visible_of_sum(line, solid_lines(chars::lines_from(s, end + 1)));
            assert(visible(line) == visible(head));
            let upto = head.push('\n');
            assert(upto.drop_last() == head);
            visible_of_sum(upto, s.skip(end + 1));
            assert(s.skip(from) == upto + s.skip(end + 1));
        }
    }
}

/// The lines up to the one that holds position `to` begin with the text before it.
proof fn joined_up_to(parts: Seq<Seq<char>>, to: int)
    requires
        parts.len() > 0,
        forall|i: int| 0 <= i < parts.len() ==> !(#[trigger] parts[i]).contains('\n'),
        0 <= to <= chars::joined(parts, seq!['\n']).len(),
    ensures
        ({
            let body = chars::joined(parts, seq!['\n']);
            let b = feeds(body.take(to)) as int;
            let near = chars::joined(parts.take(b + 1), seq!['\n']);
            &&& b < parts.len()
            &&& to <= near.len()
            &&& near.take(to) == body.take(to)
        }),
    decreases parts.len(),
{
    let body = chars::joined(parts, seq!['\n']);
    feeds_of_joined(parts);
    feeds_between(body, 0, to);
    let b = feeds(body.take(to)) as int;
    if b + 1 == parts.len() {
        assert(parts.take(b + 1) == parts);
    } else {
        let before = parts.drop_last();
        let left = chars::joined(before, seq!['\n']);
        assert(body == left + seq!['\n'] + parts.last());
        assert forall|i: int| 0 <= i < before.len() implies !(#[trigger] before[i]).contains('\n') by {
            assert(before[i] == parts[i]);
        }
        feeds_of_joined(before);
        if to > left.len() {
            let mid = left.push('\n');
            assert(mid.drop_last() == left);
            feeds_between(body.take(to), 0, mid.len() as int);
            assert(body.take(to).take(mid.len() as int) == mid);
            assert(false);
        }
        joined_up_to(before, to);
        assert(left.take(to) == body.take(to));
        assert(before.take(b + 1) == parts.take(b + 1));
    }
}

/// The lines from the one that holds position `from` on end with the text behind it.
proof fn joined_from(parts: Seq<Seq<char>>, from: int)
    requires
        parts.len() > 0,
        forall|i: int| 0 <= i < parts.len() ==> !(#[trigger] parts[i]).contains('\n'),
        0 <= from <= chars::joined(parts, seq!['\n']).len(),
    ensures
        ({
            let body = chars::joined(parts, seq!['\n']);
            let a = feeds(body.take(from)) as int;
            let near = chars::joined(parts.skip(a), seq!['\n']);
            &&& a < parts.len()
            &&& body.len() - from <= near.len()
            &&& near.skip(near.len() - (body.len() - from)) == body.skip(from)
        }),
    decreases parts.len(),
{
    let body = chars::joined(parts, seq!['\n']);
    feeds_of_joined(parts);
    feeds_between(body, 0, from);
    let a = feeds(body.take(from)) as int;
    if a == 0 {
        assert(parts.skip(a) == parts);
    } else {
        let before = parts.drop_last();
        let last = parts.last();
        let left = chars::joined(before, seq!['\n']);
        assert(body == left + seq!['\n'] + last);
        assert forall|i: int| 0 <= i < before.len() implies !(#[trigger] before[i]).contains('\n') by {
            assert(before[i] == parts[i]);
        }
        feeds_of_joined(before);
        if from > left.len() {
            let mid = left.push('\n');
            assert(mid.drop_last() == left);
            feeds_between(body.take(from), 0, mid.len() as int);
            assert(body.take(from).take(mid.len() as int) == mid);
            assert(a == parts.len() - 1);
            assert(parts.skip(a) == seq![last]);
            assert(body.skip(from) == last.skip(from - mid.len()));
        } else {
            joined_from(before, from);
            assert(left.take(from) == body.take(from));
            let rest = parts.skip(a);
            assert(rest.drop_last() == before.skip(a));
            assert(rest.last() == last);
            let near = chars::joined(before.skip(a), seq!['\n']);
            let whole = chars::joined(rest, seq!['\n']);
            assert(whole == near + seq!['\n'] + last);
            let x = near.len() - (left.len() - from);
            assert(body.skip(from) == left.skip(from) + seq!['\n'] + last);
            assert(whole.skip(x) == near.skip(x) + seq!['\n'] + last);
        }
    }
}

/// A stretch of joined lines stands in the lines that its line feeds lead to.
proof fn stretch_stands_on_its_lines(parts: Seq<Seq<char>>, from: int, to: int)
    requires
        parts.len() > 0,
        forall|i: int| 0 <= i < parts.len() ==> !(#[trigger] parts[i]).contains('\n'),
        0 <= from <= to <= chars::joined(parts, seq!['\n']).len(),
    ensures
        ({
            let body = chars::joined(parts, seq!['\n']);
            let a = feeds(body.take(from)) as int;
            let b = feeds(body.take(to)) as int;
            &&& 0 <= a <= b < parts.len()
            &&& chars::contains_text(chars::joined(parts.subrange(a, b + 1), seq!['\n']), body.subrange(from, to))
        }),
{
    let body = chars::joined(parts, seq!['\n']);
    let a = feeds(body.take(from)) as int;
    let b = feeds(body.take(to)) as int;
    feeds_between(body, from, to);
    joined_up_to(parts, to);
    let upper = parts.take(b + 1);
    let text = chars::joined(upper, seq!['\n']);
    assert forall|i: int| 0 <= i < upper.len() implies !(#[trigger] upper[i]).contains('\n') by {
        assert(upper[i] == parts[i]);
    }
    assert(text.take(from) == text.take(to).take(from));
    assert(body.take(from) == body.take(to).take(from));
    joined_from(upper, from);
    assert(upper.skip(a) == parts.subrange(a, b + 1));
    let near = chars::joined(upper.skip(a), seq!['\n']);
    let x = near.len() - (text.len() - from);
    assert(near.subrange(x, x + (to - from)) == near.skip(x).take(to - from));
    assert(text.skip(from).take(to - from) == text.take(to).skip(from));
    assert(body.subrange(from, to) == body.take(to).skip(from));
    assert(chars::stands_at(near, body.subrange(from, to), x));
}

/// The pieces of a block come in the order of their lines, and each stands on its own lines.
proof fn pieces_stand(lines: Seq<Seq<char>>, start: int, end: int, from: int, target: int)
    requires
        0 <= start < end <= lines.len(),
        forall|i: int| 0 <= i < lines.len() ==> !(#[trigger] lines[i]).contains('\n'),
        0 <= from <= block_text(lines, start, end).len(),
        target >= 2,
    ensures
        ({
            let body = block_text(lines, start, end);
            let list = pieces(body, from, target, start + 1);
            &&& forall|k: int|
                0 <= k < list.len() ==> start + 1 + feeds(body.take(from)) <= (#[trigger] list[k]).offset && chars::contains_text(
                    lines_below(lines, list[k]),
                    list[k].content,
                )
            &&& forall|j: int, k: int|
                0 <= j < k < list.len() ==> (#[trigger] list[j]).offset + list[j].limit - 1 <= (#[trigger] list[k]).offset
        }),
    decreases block_text(lines, start, end).len() - from,
{
    let parts = lines.subrange(start, end);
    let body = block_text(lines, start, end);
    let line = start + 1;
    let list = pieces(body, from, target, line);
    if from < body.len() {
        let cut = from + target;
        let to = if cut >= body.len() {
            body.len() as int
        } else if body[cut - 1] == '\n' {
            cut - 1
        } else {
            cut
        };
        let next = if cut >= body.len() {
            body.len() as int
        } else if body[cut - 1] == '\n' {
            cut
        } else if body[cut] == '\n' {
            cut + 1
        } else {
            cut
        };
        let head = piece(body, from, to, line);
        let rest = pieces(body, next, target, line);
        pieces_stand(lines, start, end, next, target);
        if cut >= body.len() {
            assert(rest == Seq::<Piece>::empty());
        }
        assert(list == seq![head] + rest);
        feeds_between(body, from, to);
        feeds_between(body, to, next);
        assert forall|i: int| 0 <= i < parts.len() implies !(#[trigger] parts[i]).contains('\n') by {
            assert(parts[i] == lines[start + i]);
        }
        stretch_stands_on_its_lines(parts, from, to);
        let a = feeds(body.take(from)) as int;
        let b = feeds(body.take(to)) as int;
        assert(parts.subrange(a, b + 1) == lines.subrange(head.offset - 1, head.offset - 1 + head.limit));
        assert forall|k: int| 0 <= k < list.len() implies line + feeds(body.take(from)) <= (#[trigger] list[k]).offset && chars::contains_text(
            lines_below(lines, list[k]),
            list[k].content,
        ) by {
            if k > 0 {
                assert(list[k] == rest[k - 1]);
            }
        }
        assert forall|j: int, k: int| 0 <= j < k < list.len() implies (#[trigger] list[j]).offset + list[j].limit - 1 <= (
        #[trigger] list[k]).offset by {
            assert(list[k] == rest[k - 1]);
            if j > 0 {
                assert(list[j] == rest[j - 1]);
            }
        }
    }
}

/// The pieces from line `i` on.
proof fn chunks_from_line(content: Seq<char>, i: int, target: int)
    requires
        16 <= target <= 100_000,
        0 <= i <= chars::lines(content).len(),
    ensures
        ({
            let lines = chars::lines(content);
            let list = all_pieces(lines, blocks_from(lines, i), target);
            &&& visible(contents(list)) == visible(solid_lines(lines.skip(i)))
            &&& forall|k: int| 0 <= k < list.len() ==> i < (#[trigger] list[k]).offset && in_place(lines, list[k])
            &&& in_line_order(list)
        }),
    decreases chars::lines(content).len() - i,
{
    let lines = chars::lines(content);
    let blocks = blocks_from(lines, i);
    let list = all_pieces(lines, blocks, target);
    if i >= lines.len() {
        assert(lines.skip(i) == Seq::<Seq<char>>::empty());
    } else if chars::blank(lines[i]) {
        chunks_from_line(content, i + 1, target);
        assert(lines.skip(i) == seq![lines[i]] + lines.skip(i + 1));
        solid_lines_of_sum(seq![lines[i]], lines.skip(i + 1));
        solid_lines_of_one(lines[i]);
        visible_of_sum(lines[i], solid_lines(lines.skip(i + 1)));
        visible_of_blank(lines[i]);
        assert(visible(contents(list)) == visible(solid_lines(lines.skip(i))));
    } else {
        let block = block_at(lines, i);
        let body = block_text(lines, i, block.end);
        block_bounds(lines, i);
        lines_hold_no_feed(content, 0);
        block_chunks_keep_text(content, i, target);
        chunks_from_line(content, block.end, target);
        let head = block_pieces(lines, block, target);
        let rest = all_pieces(lines, blocks_from(lines, block.end), target);
        assert(blocks == seq![block] + blocks_from(lines, block.end));
        assert(blocks.drop_first() == blocks_from(lines, block.end));
        assert(list == head + rest);
        contents_of_sum(head, rest);
        visible_of_sum(contents(head), contents(rest));
        visible_of_pieces(head);
        let own = lines.subrange(i, block.end);
        assert(lines.skip(i) == own + lines.skip(block.end));
        solid_lines_of_sum(own, lines.skip(block.end));
        visible_of_sum(solid_lines(own), solid_lines(lines.skip(block.end)));
        assert(body.take(0) == Seq::<char>::empty());
        assert forall|k: int| 0 <= k < head.len() implies in_place(lines, #[trigger] head[k]) by {
            if block.atomic || body.len() <= target {
                assert(chars::stands_at(body, body, 0)) by {
                    assert(body.subrange(0, body.len() as int) == body);
                }
                assert(lines_below(lines, head[k]) == body);
            } else {
                pieces_stand(lines, i, block.end, 0, target);
            }
        }
        assert(in_line_order(head)) by {
            if !block.atomic && body.len() > target {
                pieces_stand(lines, i, block.end, 0, target);
            }
        }
        assert forall|k: int| 0 <= k < list.len() implies i < (#[trigger] list[k]).offset && in_place(lines, list[k]) by {
            if k < head.len() {
                assert(list[k] == head[k]);
            } else {
                assert(list[k] == rest[k - head.len()]);
            }
        }
        assert forall|j: int, k: int| 0 <= j < k < list.len() implies (#[trigger] list[j]).offset + list[j].limit - 1 <= (
        #[trigger] list[k]).offset by {
            if k < head.len() {
                assert(list[k] == head[k] && list[j] == head[j]);
            } else {
                assert(list[k] == rest[k - head.len()]);
                if j < head.len() {
                    assert(list[j] == head[j]);
                } else {
                    assert(list[j] == rest[j - head.len()]);
                }
            }
        }
    }
}

/// The chunks of a text stand on its lines and come in their order: each is a stretch of exactly
/// the lines that it names, and none begins before the last line of the one before it. Together
/// they hold all of the text, in order, but for white space.
pub proof fn chunks_keep_text(content: Seq<char>, target: int)
    requires
        16 <= target <= 100_000,
    ensures
        forall|k: int| 0 <= k < text_pieces(content, target).len() ==> in_place(chars::lines(content), #[trigger] text_pieces(content, target)[k]),
        in_line_order(text_pieces(content, target)),
        visible(contents(text_pieces(content, target))) == visible(content),
{
    let lines = chars::lines(content);
    chunks_from_line(content, 0, target);
    lines_keep_text(content, 0);
    assert(lines.skip(0) == lines);
    assert(content.skip(0) == content);
}

// ── What a block and a chunk are ──────────────────────────────────────

/// Three of `a` or of `b` open the text.
pub open spec fn tripled(s: Seq<char>, a: char, b: char) -> bool {
    &&& s.len() >= 3
    &&& s[0] == a || s[0] == b
    &&& s[1] == s[0]
    &&& s[2] == s[0]
}

/// The first `n` characters are `mark`, and no more.
pub open spec fn opens_with(s: Seq<char>, mark: char, n: int) -> bool {
    &&& 0 <= n <= s.len()
    &&& forall|i: int| 0 <= i < n ==> #[trigger] s[i] == mark
    &&& n < s.len() ==> s[n] != mark
}

/// The line holds `n` times `mark` or more, and nothing else but white space behind them.
pub open spec fn shuts(line: Seq<char>, mark: char, n: int) -> bool {
    let t = chars::trim(line);
    &&& t.len() >= n
    &&& forall|i: int| 0 <= i < n ==> #[trigger] t[i] == mark
    &&& forall|i: int| 0 <= i < t.len() ==> #[trigger] t[i] == mark || chars::whitespace(t[i])
}

/// Line `i` has a bar, and the line below it is made of bars, dashes, colons and blanks, with at
/// least one bar and one dash.
pub open spec fn heads_table(lines: Seq<Seq<char>>, i: int) -> bool {
    &&& lines[i].contains('|')
    &&& i + 1 < lines.len()
    &&& chars::trim(lines[i + 1]).contains('|')
    &&& chars::trim(lines[i + 1]).contains('-')
    &&& forall|k: int|
        0 <= k < chars::trim(lines[i + 1]).len() ==> seq!['|', '-', ':', ' ', '\t'].contains(#[trigger] chars::trim(lines[i + 1])[k])
}

/// Three dashes stand in the line.
pub open spec fn holds_dashes(line: Seq<char>) -> bool {
    exists|k: int| 0 <= k && k + 3 <= line.len() && #[trigger] line[k] == '-' && line[k + 1] == '-' && line[k + 2] == '-'
}

/// Line `i` ends the paragraph above it: it is blank, opens a fence, is a heading, or has a bar
/// above a line with three dashes.
pub open spec fn ends_paragraph(lines: Seq<Seq<char>>, i: int) -> bool {
    let t = chars::trim_start(lines[i]);
    ||| chars::blank(lines[i])
    ||| tripled(t, '`', '~')
    ||| t.len() > 0 && t[0] == '#'
    ||| lines[i].contains('|') && i + 1 < lines.len() && holds_dashes(lines[i + 1])
}

/// The lines from `start` up to `end` are one block. A fence reaches to the first line that shuts
/// it, a table over all rows below it, a paragraph up to the first line that ends it; each may
/// reach to the end of the text.
pub open spec fn is_block(lines: Seq<Seq<char>>, start: int, end: int, atomic: bool) -> bool {
    let t = chars::trim_start(lines[start]);
    &&& 0 <= start < end <= lines.len()
    &&& atomic == (tripled(t, '`', '~') || heads_table(lines, start))
    &&& if tripled(t, '`', '~') {
        forall|n: int| #[trigger]
            opens_with(t, t[0], n) ==> {
                &&& forall|j: int| start < j < end - 1 ==> !shuts(#[trigger] lines[j], t[0], n)
                &&& end == lines.len() || start < end - 1 && shuts(lines[end - 1], t[0], n)
            }
    } else if heads_table(lines, start) {
        &&& forall|j: int| start < j < end ==> (#[trigger] lines[j]).contains('|') && !chars::blank(lines[j])
        &&& end == lines.len() || !lines[end].contains('|') || chars::blank(lines[end])
    } else {
        &&& forall|j: int| start < j < end ==> !#[trigger] ends_paragraph(lines, j)
        &&& end == lines.len() || ends_paragraph(lines, end)
    }
}

proof fn run_is_what_opens(s: Seq<char>, mark: char, n: int)
    ensures
        opens_with(s, mark, n) <==> n == chars::run_of(s, mark),
        0 <= chars::run_of(s, mark) <= s.len(),
        forall|i: int| 0 <= i < chars::run_of(s, mark) ==> #[trigger] s[i] == mark,
        chars::run_of(s, mark) < s.len() ==> s[chars::run_of(s, mark) as int] != mark,
    decreases s.len(),
{
    if s.len() > 0 && s[0] == mark {
        let rest = s.skip(1);
        run_is_what_opens(rest, mark, n - 1);
        assert forall|i: int| 0 <= i < chars::run_of(s, mark) implies #[trigger] s[i] == mark by {
            if i > 0 {
                assert(s[i] == rest[i - 1]);
            }
        }
        if chars::run_of(s, mark) < s.len() {
            assert(s[chars::run_of(s, mark) as int] == rest[chars::run_of(rest, mark) as int]);
        }
        if opens_with(s, mark, n) {
            assert(n > 0);
            assert forall|i: int| 0 <= i < n - 1 implies #[trigger] rest[i] == mark by {
                assert(rest[i] == s[i + 1]);
            }
            if n - 1 < rest.len() {
                assert(rest[n - 1] == s[n]);
            }
            assert(opens_with(rest, mark, n - 1));
        }
    }
}

proof fn fence_opens_tripled(line: Seq<char>)
    ensures
        fence_length(line) >= 3 <==> tripled(chars::trim_start(line), '`', '~'),
{
    let t = chars::trim_start(line);
    if t.len() > 0 {
        run_is_what_opens(t, t[0], 0);
        let n = chars::run_of(t, t[0]);
        if n >= 3 {
            assert(t[1] == t[0] && t[2] == t[0]);
        }
        if t.len() >= 3 && t[1] == t[0] && t[2] == t[0] && n < 3 {
            assert(t[n as int] != t[0]);
        }
    }
}

proof fn closing_shuts(line: Seq<char>, mark: char, n: nat)
    ensures
        closes_fence(line, mark, n) <==> shuts(line, mark, n as int),
{
    let t = chars::trim(line);
    run_is_what_opens(t, mark, 0);
    let run = chars::run_of(t, mark);
    if shuts(line, mark, n as int) && run < n {
        assert(t[run as int] == mark);
    }
}

proof fn table_is_headed(lines: Seq<Seq<char>>, i: int)
    ensures
        opens_table(lines, i) <==> heads_table(lines, i),
{
    if i + 1 < lines.len() {
        let t = chars::trim(lines[i + 1]);
        let marks = seq!['|', '-', ':', ' ', '\t'];
        assert(marks[0] == '|' && marks[1] == '-' && marks[2] == ':' && marks[3] == ' ' && marks[4] == '\t');
        assert forall|ch: char| delimiter_char(ch) <==> #[trigger] marks.contains(ch) by {
            if marks.contains(ch) {
                let k = choose|k: int| 0 <= k < marks.len() && marks[k] == ch;
                assert(0 <= k < 5);
            }
            if delimiter_char(ch) {
                assert(marks[0] == ch || marks[1] == ch || marks[2] == ch || marks[3] == ch || marks[4] == ch);
            }
        }
        if heads_table(lines, i) {
            assert forall|k: int| 0 <= k < t.len() implies delimiter_char(#[trigger] t[k]) by {
                assert(marks.contains(t[k]));
            }
        }
        if opens_table(lines, i) {
            assert forall|k: int| 0 <= k < t.len() implies marks.contains(#[trigger] t[k]) by {
                assert(delimiter_char(t[k]));
            }
        }
    }
}

proof fn interruption_ends(lines: Seq<Seq<char>>, i: int)
    requires
        0 <= i < lines.len(),
    ensures
        ends_paragraph(lines, i) <==> chars::blank(lines[i]) || interrupts(lines, i),
{
    let t = chars::trim_start(lines[i]);
    let ticks = seq!['`', '`', '`'];
    let tildes = seq!['~', '~', '~'];
    let dashes = seq!['-', '-', '-'];
    if t.len() >= 3 {
        let head = t.subrange(0, 3);
        assert(head[0] == t[0] && head[1] == t[1] && head[2] == t[2]);
        assert(chars::begins_with(t, ticks) <==> (t[0] == '`' && t[1] == '`' && t[2] == '`')) by {
            if t[0] == '`' && t[1] == '`' && t[2] == '`' {
                assert(head =~= ticks);
            }
        }
        assert(chars::begins_with(t, tildes) <==> (t[0] == '~' && t[1] == '~' && t[2] == '~')) by {
            if t[0] == '~' && t[1] == '~' && t[2] == '~' {
                assert(head =~= tildes);
            }
        }
    }
    if t.len() >= 1 {
        let head = t.subrange(0, 1);
        assert(head[0] == t[0]);
        assert(chars::begins_with(t, seq!['#']) <==> t[0] == '#') by {
            if t[0] == '#' {
                assert(head =~= seq!['#']);
            }
        }
    }
    if i + 1 < lines.len() {
        let below = lines[i + 1];
        assert(chars::contains_text(below, dashes) <==> holds_dashes(below)) by {
            if chars::contains_text(below, dashes) {
                let k = choose|k: int| #[trigger] chars::stands_at(below, dashes, k);
                let part = below.subrange(k, k + 3);
                assert(part[0] == below[k] && part[1] == below[k + 1] && part[2] == below[k + 2]);
                assert(dashes[0] == '-' && dashes[1] == '-' && dashes[2] == '-');
                assert(below[k] == '-' && below[k + 1] == '-' && below[k + 2] == '-');
            }
            if holds_dashes(below) {
                let k = choose|k: int|
                    0 <= k && k + 3 <= below.len() && #[trigger] below[k] == '-' && below[k + 1] == '-' && below[k + 2] == '-';
                assert(below.subrange(k, k + 3) =~= dashes);
                assert(chars::stands_at(below, dashes, k));
            }
        }
    }
}

proof fn fence_reaches(lines: Seq<Seq<char>>, i: int, mark: char, n: nat)
    requires
        0 <= i <= lines.len(),
    ensures
        ({
            let end = fence_end(lines, i, mark, n);
            &&& i <= end <= lines.len()
            &&& forall|j: int| i <= j < end - 1 ==> !shuts(#[trigger] lines[j], mark, n as int)
            &&& end == lines.len() || i <= end - 1 && shuts(lines[end - 1], mark, n as int)
        }),
    decreases lines.len() - i,
{
    if i < lines.len() {
        closing_shuts(lines[i], mark, n);
        if !closes_fence(lines[i], mark, n) {
            fence_reaches(lines, i + 1, mark, n);
        }
    }
}

proof fn rows_reach(lines: Seq<Seq<char>>, i: int)
    requires
        0 <= i <= lines.len(),
    ensures
        ({
            let end = table_end(lines, i);
            &&& i <= end <= lines.len()
            &&& forall|j: int| i <= j < end ==> (#[trigger] lines[j]).contains('|') && !chars::blank(lines[j])
            &&& end == lines.len() || !lines[end].contains('|') || chars::blank(lines[end])
        }),
    decreases lines.len() - i,
{
    if i < lines.len() && lines[i].contains('|') && !chars::blank(lines[i]) {
        rows_reach(lines, i + 1);
    }
}

proof fn paragraph_reaches(lines: Seq<Seq<char>>, i: int)
    requires
        0 <= i <= lines.len(),
    ensures
        ({
            let end = paragraph_end(lines, i);
            &&& i <= end <= lines.len()
            &&& forall|j: int| i <= j < end ==> !#[trigger] ends_paragraph(lines, j)
            &&& end == lines.len() || ends_paragraph(lines, end)
        }),
    decreases lines.len() - i,
{
    if i < lines.len() {
        interruption_ends(lines, i);
        if !ends_paragraph(lines, i) {
            paragraph_reaches(lines, i + 1);
        }
    }
}

/// A block reaches exactly as far as its kind says: a paragraph takes in every line below it up
/// to the first that is blank or begins something else, a fence everything up to the line that
/// shuts it, a table all its rows; only fences and tables are atomic.
pub proof fn blocks_reach_their_ends(lines: Seq<Seq<char>>, start: int)
    requires
        0 <= start < lines.len(),
    ensures
        is_block(lines, start, block_at(lines, start).end, block_at(lines, start).atomic),
        block_at(lines, start).start == start,
{
    let t = chars::trim_start(lines[start]);
    fence_opens_tripled(lines[start]);
    table_is_headed(lines, start);
    let n = fence_length(lines[start]);
    if n >= 3 {
        fence_reaches(lines, start + 1, t[0], n);
        let end = block_at(lines, start).end;
        assert forall|k: int| #[trigger] opens_with(t, t[0], k) implies ({
            &&& forall|j: int| start < j < end - 1 ==> !shuts(#[trigger] lines[j], t[0], k)
            &&& end == lines.len() || start < end - 1 && shuts(lines[end - 1], t[0], k)
        }) by {
            run_is_what_opens(t, t[0], k);
        }
    } else {
        rows_reach(lines, start + 1);
        paragraph_reaches(lines, start + 1);
    }
}

/// The piece is the whole block, or a stretch of one that may be split. A paragraph within the
/// target stays whole; of a longer one, each piece fills the target, but for a line feed at its
/// end, or reaches to the end of the paragraph.
pub open spec fn cut_from(lines: Seq<Seq<char>>, p: Piece, target: int, start: int, end: int, atomic: bool) -> bool {
    let body = chars::joined(lines.subrange(start, end), seq!['\n']);
    &&& is_block(lines, start, end, atomic)
    &&& !chars::blank(lines[start])
    &&& start < p.offset
    &&& p.offset + p.limit - 1 <= end
    &&& if atomic || body.len() <= target {
        p.offset == start + 1 && p.limit == end - start && p.content == body
    } else {
        &&& p.content.len() <= target
        &&& chars::contains_text(body, p.content)
        &&& p.content.len() < target - 1 ==> exists|at: int| 0 <= at <= body.len() && #[trigger] body.skip(at) == p.content
        &&& p.content.len() == target - 1 ==> chars::contains_text(body, p.content.push('\n')) || exists|at: int|
            0 <= at <= body.len() && #[trigger] body.skip(at) == p.content
    }
}

/// Some block of the text holds the piece, which is cut as its block is to be cut.
pub open spec fn from_a_block(lines: Seq<Seq<char>>, p: Piece, target: int) -> bool {
    exists|start: int, end: int, atomic: bool| cut_from(lines, p, target, start, end, atomic)
}

proof fn pieces_are_full(body: Seq<char>, from: int, target: int, line: int)
    requires
        0 <= from <= body.len(),
        target >= 2,
    ensures
        forall|i: int|
            0 <= i < pieces(body, from, target, line).len() ==> {
                let p = (#[trigger] pieces(body, from, target, line)[i]).content;
                let last = exists|at: int| 0 <= at <= body.len() && #[trigger] body.skip(at) == p;
                &&& p.len() <= target
                &&& chars::contains_text(body, p)
                &&& p.len() < target - 1 ==> last
                &&& p.len() == target - 1 ==> chars::contains_text(body, p.push('\n')) || last
            },
    decreases body.len() - from,
{
    let list = pieces(body, from, target, line);
    if from < body.len() {
        let cut = from + target;
        let to = if cut >= body.len() {
            body.len() as int
        } else if body[cut - 1] == '\n' {
            cut - 1
        } else {
            cut
        };
        let next = if cut >= body.len() {
            body.len() as int
        } else if body[cut - 1] == '\n' {
            cut
        } else if body[cut] == '\n' {
            cut + 1
        } else {
            cut
        };
        let head = piece(body, from, to, line);
        let rest = pieces(body, next, target, line);
        pieces_are_full(body, next, target, line);
        if cut >= body.len() {
            assert(rest == Seq::<Piece>::empty());
            assert(body.skip(from) == head.content);
        } else if body[cut - 1] == '\n' {
            assert(head.content.push('\n') =~= body.subrange(from, cut));
            assert(chars::stands_at(body, head.content.push('\n'), from));
        }
        assert(chars::stands_at(body, head.content, from));
        assert(list == seq![head] + rest);
        assert forall|i: int| 0 <= i < list.len() implies ({
            let p = (#[trigger] list[i]).content;
            let last = exists|at: int| 0 <= at <= body.len() && #[trigger] body.skip(at) == p;
            &&& p.len() <= target
            &&& chars::contains_text(body, p)
            &&& p.len() < target - 1 ==> last
            &&& p.len() == target - 1 ==> chars::contains_text(body, p.push('\n')) || last
        }) by {
            if i > 0 {
                assert(list[i] == rest[i - 1]);
            }
        }
    }
}

proof fn cuts_from_line(content: Seq<char>, i: int, target: int)
    requires
        16 <= target <= 100_000,
        0 <= i <= chars::lines(content).len(),
    ensures
        ({
            let lines = chars::lines(content);
            let list = all_pieces(lines, blocks_from(lines, i), target);
            forall|k: int|
                0 <= k < list.len() ==> from_a_block(lines, #[trigger] list[k], target)
        }),
    decreases chars::lines(content).len() - i,
{
    let lines = chars::lines(content);
    let list = all_pieces(lines, blocks_from(lines, i), target);
    if i >= lines.len() {
        assert(blocks_from(lines, i) == Seq::<Block>::empty());
        assert(list == Seq::<Piece>::empty());
    } else {
        if chars::blank(lines[i]) {
            cuts_from_line(content, i + 1, target);
            assert(blocks_from(lines, i) == blocks_from(lines, i + 1));
        } else {
            let block = block_at(lines, i);
            let body = block_text(lines, i, block.end);
            block_bounds(lines, i);
            blocks_reach_their_ends(lines, i);
            block_chunks_keep_text(content, i, target);
            cuts_from_line(content, block.end, target);
            let head = block_pieces(lines, block, target);
            let rest = all_pieces(lines, blocks_from(lines, block.end), target);
            let blocks = blocks_from(lines, i);
            assert(blocks == seq![block] + blocks_from(lines, block.end));
            assert(blocks.drop_first() == blocks_from(lines, block.end));
            assert(list == head + rest);
            pieces_are_full(body, 0, target, i + 1);
            assert forall|k: int| 0 <= k < list.len() implies from_a_block(lines, #[trigger] list[k], target) by {
                if k < head.len() {
                    assert(list[k] == head[k]);
                    assert(cut_from(lines, list[k], target, i, block.end, block.atomic));
                } else {
                    assert(list[k] == rest[k - head.len()]);
                }
            }
        }
    }
}

/// Every chunk of a text comes from a block of it: a fence, a table or a paragraph within the
/// target is one chunk, and a longer paragraph is cut into chunks that fill the target. So lines
/// of one paragraph are never parted for another reason than its length.
pub proof fn chunks_are_blocks(content: Seq<char>, target: int)
    requires
        16 <= target <= 100_000,
    ensures
        forall|k: int|
            0 <= k < text_pieces(content, target).len() ==> from_a_block(
                chars::lines(content),
                #[trigger] text_pieces(content, target)[k],
                target,
            ),
{
    cuts_from_line(content, 0, target);
}

// ── Note files ────────────────────────────────────────────────────────

/// The chunk size of a note that names none.
pub fn default_chunk_chars() -> (out: usize)
    ensures
        out == 220,
{
    220
}

/// A note file to store. The path finds the file, and within a namespace and scope it is the
/// identity of the note.
#[derive(Debug)]
pub struct NoteFileInput {
    pub record: RecordInput,
    pub path: String,
    pub chunk_chars: usize,
}

impl NoteFileInput {
    /// A note file with the default record and chunk size.
    pub fn new(path: String) -> (out: Self)
        ensures
            out.path@ == path@,
            out.record@ == types::default_record(),
            out.chunk_chars == 220,
    {
        NoteFileInput { record: RecordInput::default(), path, chunk_chars: default_chunk_chars() }
    }
}

/// A stored note. Its text stays in its file; its title is the file's name.
#[derive(Debug)]
pub struct Note {
    pub header: RecordHeader,
    pub source: String,
    pub title: String,
    pub chunk_chars: usize,
}

/// A stored chunk of a note. Its text is kept by the index.
#[derive(Debug)]
pub struct Chunk {
    pub header: RecordHeader,
    pub note_id: i64,
    pub ordinal: usize,
    pub offset: usize,
    pub limit: usize,
    pub content: String,
}

/// `s` with slashes in place of backslashes.
pub open spec fn slashed(s: Seq<char>) -> Seq<char> {
    Seq::new(s.len(), |i: int| if s[i] == '\\' { '/' } else { s[i] })
}

/// `s` without the slashes at its end.
pub open spec fn without_end_slashes(s: Seq<char>) -> Seq<char>
    decreases s.len(),
{
    if s.len() > 0 && s.last() == '/' {
        without_end_slashes(s.drop_last())
    } else {
        s
    }
}

/// The root of a domain in its stored form.
pub open spec fn stored_root(root: Seq<char>) -> Seq<char> {
    without_end_slashes(slashed(root))
}

/// A stored root holds no backslash and does not end in a slash. Slashes at its end are all that it
/// lacks of the root that was given, separators unified.
pub proof fn stored_root_is_plain(root: Seq<char>)
    ensures
        !stored_root(root).contains('\\'),
        stored_root(root).len() > 0 ==> stored_root(root).last() != '/',
        stored_root(root).len() <= root.len(),
        slashed(root).take(stored_root(root).len() as int) == stored_root(root),
        forall|i: int| stored_root(root).len() <= i < root.len() ==> #[trigger] slashed(root)[i] == '/',
{
    let s = slashed(root);
    end_slashes_go(s);
    let t = stored_root(root);
    if t.contains('\\') {
        let k = choose|k: int| 0 <= k < t.len() && t[k] == '\\';
        assert(s[k] == '\\');
    }
}

proof fn end_slashes_go(s: Seq<char>)
    ensures
        without_end_slashes(s).len() <= s.len(),
        s.take(without_end_slashes(s).len() as int) == without_end_slashes(s),
        without_end_slashes(s).len() > 0 ==> without_end_slashes(s).last() != '/',
        forall|i: int| without_end_slashes(s).len() <= i < s.len() ==> #[trigger] s[i] == '/',
    decreases s.len(),
{
    if s.len() > 0 && s.last() == '/' {
        let rest = s.drop_last();
        end_slashes_go(rest);
        assert(rest.take(without_end_slashes(s).len() as int) == s.take(without_end_slashes(s).len() as int));
        assert forall|i: int| without_end_slashes(s).len() <= i < s.len() implies #[trigger] s[i] == '/' by {
            if i < rest.len() {
                assert(rest[i] == s[i]);
            }
        }
    } else {
        assert(s.take(s.len() as int) == s);
    }
}

/// The root of a domain in its stored form.
fn root_form(root: &str) -> (out: String)
    ensures
        out@ == stored_root(root@),
        !out@.contains('\\'),
        out@.len() > 0 ==> out@.last() != '/',
{
    proof {
        stored_root_is_plain(root@);
    }
    let chars = slash_chars(root);
    let mut end: usize = chars.len();
    assert(chars@.subrange(0, end as int) == chars@);
    while end > 0 && chars[end - 1] == '/'
        invariant
            end <= chars.len(),
            without_end_slashes(chars@.subrange(0, end as int)) == without_end_slashes(chars@),
        decreases end,
    {
        assert(chars@.subrange(0, end as int).drop_last() == chars@.subrange(0, end - 1));
        end = end - 1;
    }
    string_between(&chars, 0, end)
}

/// The characters of a path, with slashes in place of backslashes.
fn slash_chars(path: &str) -> (out: Vec<char>)
    ensures
        out@ == slashed(path@),
        out@.len() == path@.len(),
        forall|i: int| 0 <= i < path@.len() ==> (#[trigger] out@[i]) == (if path@[i] == '\\' { '/' } else { path@[i] }),
{
    let chars = chars::chars_of(path);
    let mut out: Vec<char> = Vec::new();
    let mut i: usize = 0;
    while i < chars.len()
        invariant
            i <= chars.len(),
            chars@ == path@,
            out@ == slashed(path@).take(i as int),
        decreases chars.len() - i,
    {
        let ch = chars[i];
        out.push(if ch == '\\' { '/' } else { ch });
        assert(out@ == slashed(path@).take(i + 1));
        i = i + 1;
    }
    assert(slashed(path@).take(path@.len() as int) == slashed(path@));
    out
}

/// What a note path is to a domain root: the stored path, or why there is none.
pub enum NotePath {
    Below(Seq<char>),
    Root,
    Outside,
}

/// The part of `given` below `root`.
pub open spec fn note_path(root: Seq<char>, given: Seq<char>) -> NotePath {
    let base = stored_root(root).push('/');
    let path = slashed(given);
    if !chars::begins_with(path, base) {
        NotePath::Outside
    } else if path.len() == base.len() {
        NotePath::Root
    } else {
        NotePath::Below(path.skip(base.len() as int))
    }
}

/// Why a note path is refused, if it is.
pub open spec fn note_path_error(root: Seq<char>, given: Seq<char>) -> Option<ErrorView> {
    match note_path(root, given) {
        NotePath::Outside => Some(
            ErrorView::Validation("note path "@ + given + " is outside the domain root "@ + stored_root(root)),
        ),
        NotePath::Root => Some(ErrorView::Validation("note path must name a file below the domain root"@)),
        NotePath::Below(_) => None,
    }
}

/// The stored path of a note: what follows the domain root. Only separators are unified; names
/// keep their case, since the file is found by them again.
pub fn relative_note_path(root: &str, given: &str) -> (out: Result<String, Error>)
    ensures
        storage::refused(out, note_path_error(root@, given@)),
        out matches Ok(path) ==> note_path(root@, given@) == NotePath::Below(path@),
        out matches Ok(path) ==> path@.len() > 0 && slashed(given@) == stored_root(root@) + seq!['/'] + path@,
        (exists|path: Seq<char>| path.len() > 0 && slashed(given@) == #[trigger] (stored_root(root@) + seq!['/'] + path)) ==> out is Ok,
{
    proof {
        if let NotePath::Below(path) = note_path(root@, given@) {
            stored_path_leads_back(root@, given@, given@, path);
        }
        if exists|path: Seq<char>| path.len() > 0 && slashed(given@) == #[trigger] (stored_root(root@) + seq!['/'] + path) {
            let path = choose|path: Seq<char>| path.len() > 0 && slashed(given@) == #[trigger] (stored_root(root@) + seq!['/'] + path);
            let base = stored_root(root@).push('/');
            assert(slashed(given@).subrange(0, base.len() as int) =~= base);
            assert(note_path(root@, given@) is Below);
        }
    }
    let root = root_form(root);
    let mut base = chars::chars_of(root.as_str());
    base.push('/');
    let path = slash_chars(given);
    if !is_at(&path, &base, 0) {
        let mut message = chars::concat("note path ", given);
        message.append(" is outside the domain root ");
        message.append(root.as_str());
        return Err(Error::Validation(message));
    }
    if path.len() == base.len() {
        return Err(Error::Validation("note path must name a file below the domain root".to_owned()));
    }
    assert(path@.subrange(base@.len() as int, path@.len() as int) == path@.skip(base@.len() as int));
    Ok(string_between(&path, base.len(), path.len()))
}

/// A stored path leads back to its file: the root, a slash and the stored path are the path that
/// was given, separators unified. No two different files of a domain are stored under one path.
pub proof fn stored_path_leads_back(root: Seq<char>, given: Seq<char>, other: Seq<char>, path: Seq<char>)
    requires
        note_path(root, given) == NotePath::Below(path),
    ensures
        stored_root(root) + seq!['/'] + path == slashed(given),
        note_path(root, other) == NotePath::Below(path) ==> slashed(other) == slashed(given),
{
    let base = stored_root(root).push('/');
    assert(base == stored_root(root) + seq!['/']);
    let g = slashed(given);
    assert(g == g.subrange(0, base.len() as int) + g.skip(base.len() as int));
    if note_path(root, other) == NotePath::Below(path) {
        let o = slashed(other);
        assert(o == o.subrange(0, base.len() as int) + o.skip(base.len() as int));
    }
}

/// Checks the registration of a domain root and gives its stored form.
pub fn domain_root(namespace: &str, root: &str, is_directory: bool) -> (out: Result<String, Error>)
    ensures
        storage::refused(out, if !storage::identity(namespace@) {
            Some(storage::identity_error("namespace"@))
        } else if !is_directory {
            Some(ErrorView::Validation("domain root "@ + root@ + " is not an existing directory"@))
        } else {
            None
        }),
        out matches Ok(stored) ==> stored@ == stored_root(root@),
{
    storage::validate_identity("namespace", namespace)?;
    if !is_directory {
        let mut message = chars::concat("domain root ", root);
        message.append(" is not an existing directory");
        return Err(Error::Validation(message));
    }
    Ok(root_form(root))
}

// ── Writing a note ────────────────────────────────────────────────────

/// A note that is ready to be written: cut, located and tagged. Everything that can fail has been
/// done before the note it replaces is touched.
#[derive(Debug)]
pub struct PreparedNote {
    pub record: RecordInput,
    pub source: String,
    pub given: String,
    pub title: String,
    pub split: Vec<TextChunk>,
    pub chunk_chars: usize,
}

/// The tags of a note and of each of its chunks: the given ones, the directories of its path, and
/// its name, which is the title where there is one.
pub open spec fn note_tags(given: Seq<Seq<char>>, path: Seq<char>, title: Seq<char>) -> Seq<Seq<char>> {
    let name = if title.len() == 0 {
        storage::path_stem(path)
    } else {
        title
    };
    let tags = given + storage::path_directories(path);
    if name.len() == 0 {
        tags
    } else {
        tags.push(name)
    }
}

/// Why a note is refused, if it is: its path, the lack of a domain root, or a path outside it.
pub open spec fn note_error(namespace: Seq<char>, given: Seq<char>, root: Option<Seq<char>>) -> Option<ErrorView> {
    if !storage::identity(given) {
        Some(storage::identity_error("source"@))
    } else {
        match root {
            None => Some(
                ErrorView::Validation(
                    "namespace "@ + namespace
                        + " has no registered domain root; call notes.set_root before upserting notes"@,
                ),
            ),
            Some(r) => note_path_error(r, given),
        }
    }
}

/// The tags of a note are the given ones, the directories of its path, and its name, and no other.
pub proof fn tags_of_a_note(given: Seq<Seq<char>>, path: Seq<char>, title: Seq<char>, t: Seq<char>)
    ensures
        note_tags(given, path, title).contains(t) <==> given.contains(t) || storage::path_directories(path).contains(t) || t.len() > 0 && t == (if title.len()
            > 0 {
            title
        } else {
            storage::path_stem(path)
        }),
{
    let dirs = storage::path_directories(path);
    let name = if title.len() == 0 {
        storage::path_stem(path)
    } else {
        title
    };
    let tags = given + dirs;
    let all = note_tags(given, path, title);
    if given.contains(t) {
        let k = choose|k: int| 0 <= k < given.len() && given[k] == t;
        assert(all[k] == t);
    }
    if dirs.contains(t) {
        let k = choose|k: int| 0 <= k < dirs.len() && dirs[k] == t;
        assert(tags[given.len() + k] == t);
        assert(all[given.len() + k] == t);
    }
    if name.len() > 0 && t == name {
        assert(all[tags.len() as int] == t);
    }
    if all.contains(t) {
        let k = choose|k: int| 0 <= k < all.len() && all[k] == t;
        if k < given.len() {
            assert(given[k] == t);
        } else if k < tags.len() {
            assert(dirs[k - given.len()] == t);
        }
    }
}

/// Makes a note ready to be written. `root` is the registered root of its namespace, `title` the
/// name of its file without extension, `split` its chunks. An id that the caller names is not
/// used: a note is found by its path alone.
pub fn prepare_note(input: &NoteFileInput, root: Option<&str>, title: &str, split: Vec<TextChunk>) -> (out: Result<PreparedNote, Error>)
    ensures
        storage::refused(out, note_error(
            input.record@.namespace,
            input.path@,
            match root {
                Some(r) => Some(r@),
                None => None,
            },
        )),
        out matches Ok(note) ==> {
            &&& note_path(root->0@, input.path@) == NotePath::Below(note.source@)
            &&& note.given@ == input.path@
            &&& note.title@ == title@
            &&& note.split@ == split@
            &&& note.chunk_chars == input.chunk_chars
            &&& note.record@ == (types::RecordInputView {
                id: None,
                tags: note_tags(input.record@.tags, note.source@, title@),
                ..input.record@
            })
            &&& note.record@.id is None
            &&& input.record@.tags.is_prefix_of(note.record@.tags)
            &&& storage::identity(input.path@) && root is Some && slashed(input.path@) == stored_root(root->0@) + seq!['/'] + note.source@ && note.source@.len() > 0
            &&& note.record@.namespace == input.record@.namespace && note.record@.scope == input.record@.scope
            &&& forall|t: Seq<char>| #[trigger]
                note.record@.tags.contains(t) <==> input.record@.tags.contains(t) || storage::path_directories(note.source@).contains(t) || t.len() > 0
                    && t == (if title@.len() > 0 { title@ } else { storage::path_stem(note.source@) })
        },
        root is None || !storage::identity(input.path@) ==> out is Err,
{
    proof {
        assert forall|path: Seq<char>, t: Seq<char>| #[trigger] note_tags(input.record@.tags, path, title@).contains(t) <==> input.record@.tags.contains(t)
            || storage::path_directories(path).contains(t) || t.len() > 0 && t == (if title@.len() > 0 { title@ } else { storage::path_stem(path) }) by {
            tags_of_a_note(input.record@.tags, path, title@, t);
        }
    }
    storage::validate_identity("source", input.path.as_str())?;
    let root = match root {
        Some(root) => root,
        None => {
            let mut message = chars::concat("namespace ", input.record.namespace.as_str());
            message.append(" has no registered domain root; call notes.set_root before upserting notes");
            return Err(Error::Validation(message));
        },
    };
    let source = relative_note_path(root, input.path.as_str())?;
    let (dirs, split_stem) = storage::split_note_path(source.as_str());
    let name = if title.unicode_len() == 0 { split_stem } else { title.to_owned() };
    let mut record = input.record.copy();
    record.id = None;
    let ghost before = chars::texts(record.tags@);
    let mut dirs = dirs;
    let ghost added = chars::texts(dirs@);
    let mut tags: Vec<String> = Vec::new();
    let mut own = chars::copy_strings(&record.tags);
    tags.append(&mut own);
    tags.append(&mut dirs);
    assert(chars::texts(tags@) == before + added);
    if name.as_str().unicode_len() > 0 {
        let ghost with_dirs = chars::texts(tags@);
        tags.push(name);
        assert(chars::texts(tags@) == with_dirs.push(name@));
    }
    record.tags = tags;
    Ok(PreparedNote { record, source, given: input.path.clone(), title: title.to_owned(), split, chunk_chars: input.chunk_chars })
}

/// The record of a chunk: it shares its note's place, tags, metadata and times, and is new.
pub open spec fn chunk_record_of(note: types::RecordHeaderView) -> types::RecordInputView {
    types::RecordInputView {
        id: None,
        namespace: note.namespace,
        scope: note.scope,
        tags: note.tags,
        evidence: Seq::empty(),
        metadata: note.metadata,
        created_at_us: Some(note.created_at_us),
        updated_at_us: Some(note.updated_at_us),
        expected_revision: None,
    }
}

/// The record of a chunk of a note.
pub fn chunk_record(note: &RecordHeader) -> (out: RecordInput)
    ensures
        out@ == chunk_record_of(note@),
        out.id is None && out.expected_revision is None && out.evidence@.len() == 0,
        out.namespace@ == note.namespace@ && out.scope@ == note.scope@,
        chars::texts(out.tags@) == chars::texts(note.tags@) && out.metadata@ == note.metadata@,
        out.created_at_us == Some(note.created_at_us) && out.updated_at_us == Some(note.updated_at_us),
{
    let out = RecordInput {
        id: None,
        namespace: note.namespace.clone(),
        scope: note.scope.clone(),
        tags: chars::copy_strings(&note.tags),
        evidence: Vec::new(),
        metadata: note.metadata.copy(),
        created_at_us: Some(note.created_at_us),
        updated_at_us: Some(note.updated_at_us),
        expected_revision: None,
    };
    assert(out@.evidence == Seq::<types::EvidenceView>::empty());
    out
}

/// The fields of a note's payload.
pub open spec fn note_pairs(chunk_chars: usize) -> Seq<(Seq<char>, json::Tree)> {
    seq![("chunk_chars"@, json::count_tree(chunk_chars))]
}

/// The payload of a note.
pub fn note_payload(chunk_chars: usize) -> (out: Json)
    ensures
        json::tree(out) == json::Tree::Object(json::with_fields(Seq::empty(), note_pairs(chunk_chars))),
{
    let pairs: Vec<(String, Json)> = vec![("chunk_chars".to_owned(), json::count_value(chunk_chars))];
    assert(json::field_trees(pairs@) == note_pairs(chunk_chars));
    json::object_value(pairs)
}

/// What is read back of a note is the size that it was cut to, its path and its title.
pub proof fn note_is_read_back(chunk_chars: usize, memory_type: Seq<char>, source: Seq<char>, title: Seq<char>)
    ensures
        ({
            let payload = json::with_fields(Seq::empty(), note_pairs(chunk_chars));
            let shown = records::shown_payload(types::RecordKind::Note, payload, memory_type, source, title);
            &&& index::stored_chunk_chars(Some(json::Tree::Object(payload))) == chunk_chars
            &&& json::lookup(shown, "chunk_chars"@) == Some(json::count_tree(chunk_chars))
            &&& json::lookup(shown, "source"@) == Some(json::Tree::Text(source))
            &&& json::lookup(shown, "title"@) == Some(json::Tree::Text(title))
        }),
{
    let none = Seq::<(Seq<char>, json::Tree)>::empty();
    let payload = json::with_fields(none, note_pairs(chunk_chars));
    reveal_strlit("chunk_chars");
    reveal_strlit("memory_type_id");
    reveal_strlit("source");
    reveal_strlit("title");
    assert("chunk_chars"@.len() == 11 && "memory_type_id"@.len() == 14 && "source"@.len() == 6 && "title"@.len() == 5);
    json::set_all_then_find(none, note_pairs(chunk_chars), "memory_type_id"@, 0);
    json::set_all_then_find(none, note_pairs(chunk_chars), "chunk_chars"@, 1);
    let placed = json::with_field(payload, "source"@, json::Tree::Text(source));
    json::set_then_find(payload, "source"@, json::Tree::Text(source), "chunk_chars"@);
    json::set_then_find(placed, "title"@, json::Tree::Text(title), "chunk_chars"@);
    json::set_then_find(placed, "title"@, json::Tree::Text(title), "source"@);
}

/// The fields of a chunk's payload. The text is not among them: it is kept in the index alone.
pub open spec fn chunk_pairs(note_id: i64, chunk: TextChunk) -> Seq<(Seq<char>, json::Tree)> {
    seq![
        ("note_id"@, json::int_tree(note_id)),
        ("ordinal"@, json::count_tree(chunk.ordinal)),
        ("offset"@, json::count_tree(chunk.offset)),
        ("limit"@, json::count_tree(chunk.limit)),
    ]
}

/// What is written for a chunk.
#[derive(Debug)]
pub struct WrittenChunk {
    pub payload: Json,
    /// The digest of the chunk's text.
    pub fingerprint: String,
}

/// Works out what is written for a chunk of a note.
pub fn write_chunk(note_id: i64, chunk: &TextChunk) -> (out: WrittenChunk)
    ensures
        json::tree(out.payload) == json::Tree::Object(json::with_fields(Seq::empty(), chunk_pairs(note_id, *chunk))),
        out.fingerprint@ == text::sha256_hex(chunk.content@),
{
    let pairs: Vec<(String, Json)> = vec![
        ("note_id".to_owned(), json::int_value(note_id)),
        ("ordinal".to_owned(), json::count_value(chunk.ordinal)),
        ("offset".to_owned(), json::count_value(chunk.offset)),
        ("limit".to_owned(), json::count_value(chunk.limit)),
    ];
    assert(json::field_trees(pairs@) == chunk_pairs(note_id, *chunk));
    WrittenChunk { payload: json::object_value(pairs), fingerprint: text::digest(chunk.content.as_str()) }
}

/// A chunk leads back to its note, and among the chunks that the note is cut into anew it finds its
/// own text.
pub proof fn chunk_is_found_again(note_id: i64, chunk: TextChunk, contents: Seq<Seq<char>>)
    requires
        chunk.ordinal < contents.len(),
        contents[chunk.ordinal as int] == chunk.content@,
    ensures
        ({
            let payload = json::Tree::Object(json::with_fields(Seq::empty(), chunk_pairs(note_id, chunk)));
            &&& records::note_of(types::RecordKind::Chunk, payload) == note_id
            &&& index::chunk_body_of(contents, payload) == chunk.content@
            &&& json::member(payload, "ordinal"@) == Some(json::count_tree(chunk.ordinal))
            &&& json::member(payload, "offset"@) == Some(json::count_tree(chunk.offset))
            &&& json::member(payload, "limit"@) == Some(json::count_tree(chunk.limit))
        }),
{
    let pairs = chunk_pairs(note_id, chunk);
    reveal_strlit("note_id");
    reveal_strlit("ordinal");
    reveal_strlit("offset");
    reveal_strlit("limit");
    assert("note_id"@[0] == 'n' && "ordinal"@[1] == 'r' && "offset"@[1] == 'f' && "limit"@[0] == 'l' && "offset"@[0] == 'o' && "ordinal"@[0] == 'o');
    json::set_all_then_find(Seq::empty(), pairs, "note_id"@, 1);
    json::set_all_then_find(Seq::empty(), pairs, "ordinal"@, 2);
    json::set_all_then_find(Seq::empty(), pairs, "offset"@, 3);
    json::set_all_then_find(Seq::empty(), pairs, "limit"@, 4);
}

/// The records that go with a note: its chunks, then the note. Nothing goes where there is none.
pub fn records_to_replace(note_id: Option<i64>, chunk_ids: Vec<i64>) -> (out: Vec<i64>)
    ensures
        out@ == (match note_id {
            Some(id) => chunk_ids@.push(id),
            None => Seq::<i64>::empty(),
        }),
{
    match note_id {
        Some(id) => {
            let mut out = chunk_ids;
            out.push(id);
            out
        },
        None => Vec::new(),
    }
}

/// What happens to the note that stood at a path when one is written there again.
#[derive(Debug)]
pub struct Replacement {
    /// The records that go.
    pub gone: Vec<i64>,
    /// The id that the new note takes; none where the store gives it one.
    pub id: Option<i64>,
}

/// Replaces what stood at a path. A note is known by its path: written again, it keeps its id, while
/// its chunks are new ones.
pub fn replace_note(note_id: Option<i64>, chunk_ids: Vec<i64>) -> (out: Replacement)
    ensures
        out.id == note_id,
        out.gone@ == (match note_id {
            Some(id) => chunk_ids@.push(id),
            None => Seq::<i64>::empty(),
        }),
{
    Replacement { gone: records_to_replace(note_id, chunk_ids), id: note_id }
}

/// Some of the chunk sizes is out of range.
pub open spec fn some_size_refused(files: Seq<(String, usize)>) -> bool {
    exists|i: int| 0 <= i < files.len() && !(16 <= (#[trigger] files[i]).1 <= 100_000)
}

/// Cuts a batch of texts, each to its own size. Where one size is out of range the whole batch is
/// refused, before anything is written.
pub fn split_batch(files: &Vec<(String, usize)>) -> (out: Result<Vec<Vec<TextChunk>>, Error>)
    ensures
        storage::refused(out, if some_size_refused(files@) {
            Some(ErrorView::Validation("chunk_chars must be between 16 and 100000"@))
        } else {
            None
        }),
        out matches Ok(all) ==> all.len() == files.len() && forall|i: int|
            0 <= i < all.len() ==> pieces_of((#[trigger] all@[i])@) == text_pieces(files@[i].0@, files@[i].1 as int) && numbered(all@[i]@),
{
    let mut out: Vec<Vec<TextChunk>> = Vec::new();
    let mut i: usize = 0;
    while i < files.len()
        invariant
            i <= files.len(),
            out.len() == i,
            forall|k: int| 0 <= k < i ==> 16 <= (#[trigger] files@[k]).1 <= 100_000,
            forall|k: int| 0 <= k < i ==> pieces_of((#[trigger] out@[k])@) == text_pieces(files@[k].0@, files@[k].1 as int) && numbered(out@[k]@),
        decreases files.len() - i,
    {
        match chunk_text(files[i].0.as_str(), files[i].1) {
            Ok(chunks) => {
                out.push(chunks);
            },
            Err(e) => {
                assert(!(16 <= files@[i as int].1 <= 100_000));
                return Err(e);
            },
        }
        i = i + 1;
    }
    Ok(out)
}

} // verus!
