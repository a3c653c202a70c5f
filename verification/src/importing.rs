//! Importing: which notes are taken, how references become ids, and when anything is written.

use crate::chars;
use crate::error::{Error, ErrorView};
use crate::graph_drafts::{EntityDraft, EventDraft, RelationDraft};
use crate::json;
use crate::json::Tree;
use crate::legacy;
use crate::legacy::{IdMapping, ImportReport, ImportRequest, LegacySource, RowSeconds, Seconds, SourceRow};
use crate::ordering;
use crate::storage;
use crate::text;
use crate::types::{Metadata, RecordInput, RecordInputView};
use vstd::prelude::*;

verus! {

// ── Sources of notes ──────────────────────────────────────────────────

/// A row that says nothing.
pub open spec fn is_empty_row(row: SourceRow) -> bool {
    &&& row.fields@ == Seq::<(Seq<char>, Tree)>::empty()
    &&& row.metadata is Ok
    &&& (row.metadata->Ok_0)@ == Seq::<(Seq<char>, Tree)>::empty()
}

/// A row that says nothing, for a file that no row names.
pub fn empty_row() -> (out: SourceRow)
    ensures
        is_empty_row(out),
{
    SourceRow {
        fields: Metadata::new(),
        metadata: Ok(Metadata::new()),
        seconds: RowSeconds {
            created: Seconds::NoNumber,
            updated: Seconds::NoNumber,
            recalled: Seconds::NoNumber,
            decayed: Seconds::NoNumber,
        },
    }
}

/// A file that notes may come from, and the row that tells about it.
#[derive(Debug)]
pub struct NoteSource {
    pub source: String,
    pub row: SourceRow,
}

/// Sources and rows, in order.
pub open spec fn source_pairs(list: Seq<NoteSource>) -> Seq<(Seq<char>, SourceRow)> {
    Seq::new(list.len(), |i: int| (list[i].source@, list[i].row))
}

/// Sources with one more, before the first that is greater. Where the source is there already, its
/// row stays unless it is to be replaced.
pub open spec fn with_source(list: Seq<(Seq<char>, SourceRow)>, source: Seq<char>, row: SourceRow, replace: bool) -> Seq<(Seq<char>, SourceRow)>
    decreases list.len(),
{
    if list.len() == 0 {
        seq![(source, row)]
    } else if list[0].0 == source {
        if replace {
            list.update(0, (source, row))
        } else {
            list
        }
    } else if ordering::text_less(source, list[0].0) {
        seq![(source, row)] + list
    } else {
        seq![list[0]] + with_source(list.drop_first(), source, row, replace)
    }
}

/// Sources with all of another list, one after the other.
pub open spec fn with_sources(list: Seq<(Seq<char>, SourceRow)>, more: Seq<(Seq<char>, SourceRow)>, replace: bool) -> Seq<(Seq<char>, SourceRow)>
    decreases more.len(),
{
    if more.len() == 0 {
        list
    } else {
        with_source(with_sources(list, more.drop_last(), replace), more.last().0, more.last().1, replace)
    }
}

/// Some row stands under this source.
pub open spec fn has_source(list: Seq<(Seq<char>, SourceRow)>, source: Seq<char>) -> bool {
    exists|i: int| 0 <= i < list.len() && (#[trigger] list[i]).0 == source
}

/// Sources stand in order, each once.
pub open spec fn sources_sorted(list: Seq<(Seq<char>, SourceRow)>) -> bool {
    forall|i: int, j: int| 0 <= i < j < list.len() ==> ordering::text_less((#[trigger] list[i]).0, (#[trigger] list[j]).0)
}

/// After a source is added it stands in the list, with its new row where it was not there before or
/// is replaced, and as it was otherwise. All other sources stay as they were, and the order is kept.
pub proof fn adding_a_source_adds_it(list: Seq<(Seq<char>, SourceRow)>, source: Seq<char>, row: SourceRow, replace: bool)
    requires
        sources_sorted(list),
    ensures
        ({
            let all = with_source(list, source, row, replace);
            &&& sources_sorted(all)
            &&& forall|k: Seq<char>| #[trigger] has_source(all, k) <==> has_source(list, k) || k == source
            &&& forall|k: Seq<char>, r: SourceRow| k != source ==> (#[trigger] all.contains((k, r)) <==> list.contains((k, r)))
            &&& replace || !has_source(list, source) ==> all.contains((source, row))
            &&& !replace && has_source(list, source) ==> all == list
            &&& all.len() > 0
            &&& all[0].0 == source || list.len() > 0 && all[0].0 == list[0].0
        }),
    decreases list.len(),
{
    let all = with_source(list, source, row, replace);
    if list.len() == 0 {
        assert(all[0] == (source, row));
        assert forall|k: Seq<char>, r: SourceRow| k != source implies (#[trigger] all.contains((k, r)) <==> list.contains((k, r))) by {}
    } else if list[0].0 == source {
        assert(has_source(list, source));
        if replace {
            assert(all[0] == (source, row));
            assert forall|k: Seq<char>| #[trigger] has_source(all, k) <==> has_source(list, k) || k == source by {
                if has_source(list, k) {
                    let i = choose|i: int| 0 <= i < list.len() && (#[trigger] list[i]).0 == k;
                    assert(all[i].0 == k);
                }
                if has_source(all, k) {
                    let i = choose|i: int| 0 <= i < all.len() && (#[trigger] all[i]).0 == k;
                    assert(list[i].0 == k);
                }
                assert(all[0].0 == source);
            }
            assert forall|k: Seq<char>, r: SourceRow| k != source implies (#[trigger] all.contains((k, r)) <==> list.contains((k, r))) by {
                if list.contains((k, r)) {
                    let i = choose|i: int| 0 <= i < list.len() && list[i] == (k, r);
                    assert(all[i] == (k, r));
                }
                if all.contains((k, r)) {
                    let i = choose|i: int| 0 <= i < all.len() && all[i] == (k, r);
                    assert(list[i] == (k, r));
                }
            }
            assert forall|i: int, j: int| 0 <= i < j < all.len() implies ordering::text_less((#[trigger] all[i]).0, (#[trigger] all[j]).0) by {
                assert(ordering::text_less(list[i].0, list[j].0));
            }
        }
    } else if ordering::text_less(source, list[0].0) {
        assert(all[0] == (source, row));
        assert(!has_source(list, source)) by {
            if has_source(list, source) {
                let i = choose|i: int| 0 <= i < list.len() && (#[trigger] list[i]).0 == source;
                if i > 0 {
                    assert(ordering::text_less(list[0].0, list[i].0));
                    ordering::text_less_transitive(source, list[0].0, source);
                }
                ordering::text_less_irreflexive(source);
            }
        }
        assert forall|k: Seq<char>| #[trigger] has_source(all, k) <==> has_source(list, k) || k == source by {
            if has_source(list, k) {
                let i = choose|i: int| 0 <= i < list.len() && (#[trigger] list[i]).0 == k;
                assert(all[i + 1] == list[i]);
            }
            if has_source(all, k) && k != source {
                let i = choose|i: int| 0 <= i < all.len() && (#[trigger] all[i]).0 == k;
                assert(list[i - 1] == all[i]);
            }
            assert(all[0].0 == source);
        }
        assert forall|k: Seq<char>, r: SourceRow| k != source implies (#[trigger] all.contains((k, r)) <==> list.contains((k, r))) by {
            if list.contains((k, r)) {
                let i = choose|i: int| 0 <= i < list.len() && list[i] == (k, r);
                assert(all[i + 1] == (k, r));
            }
            if all.contains((k, r)) {
                let i = choose|i: int| 0 <= i < all.len() && all[i] == (k, r);
                assert(list[i - 1] == (k, r));
            }
        }
        assert forall|i: int, j: int| 0 <= i < j < all.len() implies ordering::text_less((#[trigger] all[i]).0, (#[trigger] all[j]).0) by {
            assert(all[j] == list[j - 1]);
            if i > 0 {
                assert(all[i] == list[i - 1]);
            } else if j > 1 {
                ordering::text_less_transitive(source, list[0].0, list[j - 1].0);
            }
        }
    } else {
        let rest = list.drop_first();
        let tail = with_source(rest, source, row, replace);
        ordering::text_less_total(source, list[0].0);
        assert forall|i: int, j: int| 0 <= i < j < rest.len() implies ordering::text_less((#[trigger] rest[i]).0, (#[trigger] rest[j]).0) by {
            assert(rest[i] == list[i + 1] && rest[j] == list[j + 1]);
        }
        adding_a_source_adds_it(rest, source, row, replace);
        assert(all == seq![list[0]] + tail);
        assert forall|k: Seq<char>| has_source(list, k) <==> k == list[0].0 || #[trigger] has_source(rest, k) by {
            if has_source(list, k) {
                let i = choose|i: int| 0 <= i < list.len() && (#[trigger] list[i]).0 == k;
                if i > 0 {
                    assert(rest[i - 1] == list[i]);
                }
            }
            if has_source(rest, k) {
                let i = choose|i: int| 0 <= i < rest.len() && (#[trigger] rest[i]).0 == k;
                assert(list[i + 1] == rest[i]);
            }
            assert(list[0].0 == list[0].0);
        }
        assert forall|k: Seq<char>| #[trigger] has_source(all, k) <==> has_source(list, k) || k == source by {
            assert(has_source(list, k) <==> k == list[0].0 || has_source(rest, k));
            assert(has_source(tail, k) <==> has_source(rest, k) || k == source);
            if has_source(tail, k) {
                let i = choose|i: int| 0 <= i < tail.len() && (#[trigger] tail[i]).0 == k;
                assert(all[i + 1] == tail[i]);
            }
            if has_source(all, k) {
                let i = choose|i: int| 0 <= i < all.len() && (#[trigger] all[i]).0 == k;
                if i > 0 {
                    assert(tail[i - 1] == all[i]);
                }
            }
            assert(all[0] == list[0]);
        }
        assert forall|k: Seq<char>, r: SourceRow| k != source implies (#[trigger] all.contains((k, r)) <==> list.contains((k, r))) by {
            assert(tail.contains((k, r)) <==> rest.contains((k, r)));
            if list.contains((k, r)) {
                let i = choose|i: int| 0 <= i < list.len() && list[i] == (k, r);
                if i > 0 {
                    assert(rest[i - 1] == (k, r));
                    assert(tail.contains((k, r)));
                    let j = choose|j: int| 0 <= j < tail.len() && tail[j] == (k, r);
                    assert(all[j + 1] == (k, r));
                } else {
                    assert(all[0] == (k, r));
                }
            }
            if all.contains((k, r)) {
                let i = choose|i: int| 0 <= i < all.len() && all[i] == (k, r);
                if i > 0 {
                    assert(tail[i - 1] == (k, r));
                    assert(rest.contains((k, r)));
                    let j = choose|j: int| 0 <= j < rest.len() && rest[j] == (k, r);
                    assert(list[j + 1] == (k, r));
                } else {
                    assert(list[0] == (k, r));
                }
            }
        }
        if tail.contains((source, row)) {
            let j = choose|j: int| 0 <= j < tail.len() && tail[j] == (source, row);
            assert(all[j + 1] == (source, row));
        }
        if !replace && has_source(list, source) {
            assert(has_source(rest, source));
            assert(all == list);
        }
        assert(ordering::text_less(list[0].0, tail[0].0)) by {
            if tail[0].0 != source {
                assert(rest[0] == list[1]);
                assert(ordering::text_less(list[0].0, list[1].0));
            }
        }
        assert forall|i: int, j: int| 0 <= i < j < all.len() implies ordering::text_less((#[trigger] all[i]).0, (#[trigger] all[j]).0) by {
            assert(all[j] == tail[j - 1]);
            if i > 0 {
                assert(all[i] == tail[i - 1]);
            } else if j > 1 {
                ordering::text_less_transitive(list[0].0, tail[0].0, tail[j - 1].0);
            }
        }
    }
}

/// All sources are added, and those that were there stay.
pub proof fn adding_sources_adds_them(list: Seq<(Seq<char>, SourceRow)>, more: Seq<(Seq<char>, SourceRow)>, replace: bool)
    requires
        sources_sorted(list),
    ensures
        sources_sorted(with_sources(list, more, replace)),
        forall|k: Seq<char>| #[trigger] has_source(with_sources(list, more, replace), k) <==> has_source(list, k) || has_source(more, k),
        !replace ==> forall|k: Seq<char>, r: SourceRow|
            has_source(list, k) ==> (#[trigger] with_sources(list, more, replace).contains((k, r)) <==> list.contains((k, r))),
    decreases more.len(),
{
    if more.len() > 0 {
        let rest = more.drop_last();
        let last = more.last();
        let before = with_sources(list, rest, replace);
        let all = with_sources(list, more, replace);
        adding_sources_adds_them(list, rest, replace);
        adding_a_source_adds_it(before, last.0, last.1, replace);
        assert(more[more.len() - 1] == last);
        assert forall|k: Seq<char>| #[trigger] has_source(all, k) <==> has_source(list, k) || has_source(more, k) by {
            assert(has_source(before, k) <==> has_source(list, k) || has_source(rest, k));
            if has_source(rest, k) {
                let i = choose|i: int| 0 <= i < rest.len() && (#[trigger] rest[i]).0 == k;
                assert(more[i] == rest[i]);
            }
            if has_source(more, k) && k != last.0 {
                let i = choose|i: int| 0 <= i < more.len() && (#[trigger] more[i]).0 == k;
                assert(rest[i] == more[i]);
            }
            if k == last.0 {
                assert(more[more.len() - 1].0 == k);
            }
        }
        if !replace {
            assert forall|k: Seq<char>, r: SourceRow| has_source(list, k) implies (#[trigger] all.contains((k, r)) <==> list.contains((k, r))) by {
                assert(has_source(before, k));
                assert(before.contains((k, r)) <==> list.contains((k, r)));
            }
        }
    }
}

fn add_source(list: &mut Vec<NoteSource>, item: NoteSource, replace: bool)
    ensures
        source_pairs(final(list)@) == with_source(source_pairs(old(list)@), item.source@, item.row, replace),
{
    let ghost all = source_pairs(list@);
    let ghost k = item.source@;
    let ghost v = item.row;
    let mut i: usize = 0;
    assert(all.skip(0) == all);
    assert(all.take(0) + with_source(all.skip(0), k, v, replace) == with_source(all, k, v, replace));
    while i < list.len()
        invariant
            i <= list.len(),
            list@ == old(list)@,
            all == source_pairs(list@),
            k == item.source@,
            v == item.row,
            all.take(i as int) + with_source(all.skip(i as int), k, v, replace) == with_source(all, k, v, replace),
        decreases list.len() - i,
    {
        let ghost rest = all.skip(i as int);
        assert(rest[0] == all[i as int]);
        if ordering::same_text(list[i].source.as_str(), item.source.as_str()) {
            if replace {
                list.set(i, item);
                proof {
                    assert(source_pairs(list@) == all.update(i as int, (k, v)));
                    assert(all.take(i as int) + rest.update(0, (k, v)) == all.update(i as int, (k, v)));
                }
            } else {
                assert(all.take(i as int) + rest == all);
            }
            return;
        }
        if ordering::is_less(item.source.as_str(), list[i].source.as_str()) {
            list.insert(i, item);
            proof {
                assert(source_pairs(list@) == all.insert(i as int, (k, v)));
                assert(all.take(i as int) + (seq![(k, v)] + rest) == all.insert(i as int, (k, v)));
            }
            return;
        }
        proof {
            assert(rest.drop_first() == all.skip(i + 1));
            assert(all.take(i as int) + (seq![rest[0]] + with_source(rest.drop_first(), k, v, replace)) == all.take(i + 1)
                + with_source(all.skip(i + 1), k, v, replace));
        }
        i = i + 1;
    }
    list.push(item);
    proof {
        assert(all.skip(i as int) == Seq::<(Seq<char>, SourceRow)>::empty());
        assert(all.take(i as int) == all);
        assert(source_pairs(list@) == all.push((k, v)));
        assert(all + seq![(k, v)] == all.push((k, v)));
    }
}

fn add_sources(list: &mut Vec<NoteSource>, more: Vec<NoteSource>, replace: bool)
    ensures
        source_pairs(final(list)@) == with_sources(source_pairs(old(list)@), source_pairs(more@), replace),
{
    let ghost all = source_pairs(more@);
    let ghost start = source_pairs(list@);
    let mut rest = more;
    let ghost mut done: int = 0;
    assert(all.take(0) == Seq::<(Seq<char>, SourceRow)>::empty());
    assert(all.skip(0) == all);
    while rest.len() > 0
        invariant
            0 <= done <= all.len(),
            source_pairs(rest@) == all.skip(done),
            source_pairs(list@) == with_sources(start, all.take(done), replace),
        decreases rest.len(),
    {
        let ghost before = source_pairs(rest@);
        let item = rest.remove(0);
        proof {
            assert(before.len() == all.len() - done);
            assert(before[0] == all.skip(done)[0]);
            assert(source_pairs(rest@) == before.drop_first());
            assert(before.drop_first() == all.skip(done + 1));
            assert(all.take(done + 1).drop_last() == all.take(done));
            assert(all.take(done + 1).last() == all[done]);
            done = done + 1;
        }
        add_source(list, item, replace);
    }
    assert(done == all.len()) by {
        assert(all.skip(done).len() == 0);
    }
    assert(all.take(all.len() as int) == all);
}

/// The rows that name a file in a column, each with the file.
pub open spec fn named_rows(rows: Seq<SourceRow>, column: Seq<char>) -> Seq<(Seq<char>, SourceRow)>
    decreases rows.len(),
{
    if rows.len() == 0 {
        Seq::empty()
    } else {
        let before = named_rows(rows.drop_last(), column);
        let file = legacy::cell(rows.last().fields@, column);
        if file.len() > 0 {
            before.push((file, rows.last()))
        } else {
            before
        }
    }
}

/// Rows are named by the file in their column; those without one are left out.
pub proof fn rows_are_named_by_their_column(rows: Seq<SourceRow>, column: Seq<char>, file: Seq<char>, row: SourceRow)
    ensures
        named_rows(rows, column).contains((file, row)) <==> rows.contains(row) && file.len() > 0 && legacy::cell(row.fields@, column) == file,
        named_rows(rows, column).len() <= rows.len(),
    decreases rows.len(),
{
    if rows.len() > 0 {
        let rest = rows.drop_last();
        let before = named_rows(rest, column);
        let all = named_rows(rows, column);
        rows_are_named_by_their_column(rest, column, file, row);
        assert(rows[rows.len() - 1] == rows.last());
        if rest.contains(row) {
            let k = choose|k: int| 0 <= k < rest.len() && rest[k] == row;
            assert(rows[k] == row);
        }
        if rows.contains(row) && !rest.contains(row) {
            let k = choose|k: int| 0 <= k < rows.len() && rows[k] == row;
            if k < rest.len() {
                assert(rest[k] == row);
            }
            if file.len() > 0 && legacy::cell(row.fields@, column) == file {
                assert(all[before.len() as int] == (file, row));
            }
        }
        if before.contains((file, row)) {
            let k = choose|k: int| 0 <= k < before.len() && before[k] == (file, row);
            assert(all[k] == (file, row));
        }
        if all.contains((file, row)) && !before.contains((file, row)) {
            let k = choose|k: int| 0 <= k < all.len() && all[k] == (file, row);
            if k < before.len() {
                assert(before[k] == (file, row));
            }
        }
    }
}

fn read_named(rows: Vec<SourceRow>, column: &str) -> (out: Vec<NoteSource>)
    ensures
        source_pairs(out@) == named_rows(rows@, column@),
{
    let ghost all = rows@;
    let mut rest = rows;
    let mut out: Vec<NoteSource> = Vec::new();
    let ghost mut done: int = 0;
    assert(all.skip(0) == all);
    assert(all.take(0) == Seq::<SourceRow>::empty());
    assert(source_pairs(out@) == Seq::<(Seq<char>, SourceRow)>::empty());
    while rest.len() > 0
        invariant
            0 <= done <= all.len(),
            rest@ == all.skip(done),
            source_pairs(out@) == named_rows(all.take(done), column@),
        decreases rest.len(),
    {
        let ghost before = source_pairs(out@);
        let row = rest.remove(0);
        let source = legacy::string(&row.fields, column);
        proof {
            assert(row == all[done]);
            assert(rest@ == all.skip(done + 1));
            assert(all.take(done + 1).drop_last() == all.take(done));
            assert(all.take(done + 1).last() == all[done]);
            done = done + 1;
            reveal_strlit("");
            if source@.len() == 0 {
                assert(source@ == ""@);
            }
        }
        if !ordering::same_text(source.as_str(), "") {
            let ghost pair = (source@, row);
            out.push(NoteSource { source, row });
            assert(source_pairs(out@) == before.push(pair));
        }
    }
    assert(done == all.len()) by {
        assert(all.skip(done).len() == 0);
    }
    assert(all.take(all.len() as int) == all);
    out
}

/// Files, each with a row that says nothing.
pub open spec fn bare_files(files: Seq<Seq<char>>, list: Seq<(Seq<char>, SourceRow)>) -> bool {
    &&& list.len() == files.len()
    &&& forall|i: int| 0 <= i < files.len() ==> (#[trigger] list[i]).0 == files[i] && is_empty_row(list[i].1)
}

fn read_files(files: &Vec<String>) -> (out: Vec<NoteSource>)
    ensures
        bare_files(chars::texts(files@), source_pairs(out@)),
{
    let mut out: Vec<NoteSource> = Vec::new();
    let mut i: usize = 0;
    while i < files.len()
        invariant
            i <= files.len(),
            out@.len() == i,
            forall|k: int| 0 <= k < i ==> (#[trigger] out@[k]).source@ == files@[k]@ && is_empty_row(out@[k].row),
        decreases files.len() - i,
    {
        out.push(NoteSource { source: files[i].clone(), row: empty_row() });
        i = i + 1;
    }
    out
}

/// The sources of notes: the files that the note table names, with its rows; those that extracted
/// graphs name, unless they are there; and the files of the notes directory, unless they are there.
pub open spec fn note_sources_are(index: Seq<SourceRow>, graphs: Seq<SourceRow>, files: Seq<(Seq<char>, SourceRow)>, out: Seq<(Seq<char>, SourceRow)>) -> bool {
    out == with_sources(
        with_sources(
            with_sources(Seq::empty(), named_rows(index, "source_file_path"@), true),
            named_rows(graphs, "file_path"@),
            false,
        ),
        files,
        false,
    )
}

/// Every file that the index, a graph or the directory names is a source, and no other. What the
/// index says of a file counts, whatever the others say.
pub proof fn every_source_is_listed(index: Seq<SourceRow>, graphs: Seq<SourceRow>, files: Seq<(Seq<char>, SourceRow)>, out: Seq<(Seq<char>, SourceRow)>, k: Seq<char>)
    requires
        note_sources_are(index, graphs, files, out),
    ensures
        sources_sorted(out),
        has_source(out, k) <==> has_source(named_rows(index, "source_file_path"@), k) || has_source(named_rows(graphs, "file_path"@), k)
            || has_source(files, k),
        has_source(named_rows(index, "source_file_path"@), k) ==> forall|r: SourceRow|
            out.contains((k, r)) <==> #[trigger] with_sources(Seq::empty(), named_rows(index, "source_file_path"@), true).contains((k, r)),
{
    let none = Seq::<(Seq<char>, SourceRow)>::empty();
    let one = with_sources(none, named_rows(index, "source_file_path"@), true);
    let two = with_sources(one, named_rows(graphs, "file_path"@), false);
    adding_sources_adds_them(none, named_rows(index, "source_file_path"@), true);
    adding_sources_adds_them(one, named_rows(graphs, "file_path"@), false);
    adding_sources_adds_them(two, files, false);
    assert(!has_source(none, k));
    assert(has_source(out, k) <==> has_source(two, k) || has_source(files, k));
    assert(has_source(two, k) <==> has_source(one, k) || has_source(named_rows(graphs, "file_path"@), k));
    assert(has_source(one, k) <==> has_source(named_rows(index, "source_file_path"@), k));
    if has_source(one, k) {
        assert forall|r: SourceRow| out.contains((k, r)) <==> #[trigger] one.contains((k, r)) by {
            assert(two.contains((k, r)) <==> one.contains((k, r)));
            assert(out.contains((k, r)) <==> two.contains((k, r)));
        }
    }
}

/// The sources of notes in their order. `graphs` are the metadata of extracted graphs, as rows.
pub fn note_sources(index: Vec<SourceRow>, graphs: Vec<SourceRow>, files: &Vec<String>) -> (out: Vec<NoteSource>)
    ensures
        exists|bare: Seq<(Seq<char>, SourceRow)>|
            bare_files(chars::texts(files@), bare) && #[trigger] note_sources_are(index@, graphs@, bare, source_pairs(out@)),
{
    let mut out: Vec<NoteSource> = Vec::new();
    assert(source_pairs(out@) == Seq::<(Seq<char>, SourceRow)>::empty());
    add_sources(&mut out, read_named(index, "source_file_path"), true);
    add_sources(&mut out, read_named(graphs, "file_path"), false);
    let listed = read_files(files);
    let ghost bare = source_pairs(listed@);
    add_sources(&mut out, listed, false);
    assert(note_sources_are(index@, graphs@, bare, source_pairs(out@)));
    out
}

/// The extension of a file that may be a note.
pub open spec fn note_extension(lower: Seq<char>) -> bool {
    lower == "md"@ || lower == "markdown"@ || lower == "txt"@
}

/// Whether a file may be a note, by its extension in lower case.
pub fn is_note_extension(lower: &str) -> (out: bool)
    ensures
        out == note_extension(lower@),
        out <==> lower@ == "md"@ || lower@ == "markdown"@ || lower@ == "txt"@,
{
    ordering::same_text(lower, "md") || ordering::same_text(lower, "markdown") || ordering::same_text(lower, "txt")
}

// ── Notes ─────────────────────────────────────────────────────────────

/// Where a source was found.
#[derive(Debug)]
pub enum Located {
    /// There is no notes directory, or no such file in it.
    Missing,
    /// The file lies outside the notes directory.
    Outside,
    /// The file, and its path from the notes directory.
    Found { path: String, relative: String },
}

/// A note to be written. Its content is read from the file.
#[derive(Debug)]
pub struct NoteDraft {
    pub table: String,
    pub source_id: String,
    pub record: RecordInput,
    pub source: String,
    pub title: String,
    pub chunk_chars: usize,
}

pub struct NoteDraftView {
    pub table: Seq<char>,
    pub source_id: Seq<char>,
    pub record: RecordInputView,
    pub source: Seq<char>,
    pub title: Seq<char>,
    pub chunk_chars: usize,
}

impl View for NoteDraft {
    type V = NoteDraftView;

    open spec fn view(&self) -> NoteDraftView {
        NoteDraftView {
            table: self.table@,
            source_id: self.source_id@,
            record: self.record@,
            source: self.source@,
            title: self.title@,
            chunk_chars: self.chunk_chars,
        }
    }
}

/// The views of a list of notes.
pub open spec fn note_views(list: Seq<NoteDraft>) -> Seq<NoteDraftView> {
    Seq::new(list.len(), |i: int| list[i]@)
}

/// The domain of a note: the one that its row gives, else, where the source has domains, the first
/// directory of its path.
pub open spec fn note_domain(source: LegacySource, relative: Seq<char>, given: Seq<char>) -> Seq<char> {
    if given.len() > 0 {
        given
    } else if source == LegacySource::WorldTree && relative.contains('/') {
        relative.take(chars::position_from(relative, '/', 0))
    } else {
        Seq::empty()
    }
}

proof fn first_part_ends_at_a_slash(s: Seq<char>)
    requires
        s.contains('/'),
    ensures
        ({
            let head = s.take(chars::position_from(s, '/', 0));
            &&& !head.contains('/')
            &&& (head + seq!['/']).is_prefix_of(s)
        }),
{
    let at = chars::position_from(s, '/', 0);
    let head = s.take(at);
    chars::position_from_bounds(s, '/', 0);
    let k = choose|k: int| 0 <= k < s.len() && s[k] == '/';
    if at >= s.len() {
        assert(s[k] != '/');
    }
    if head.contains('/') {
        let j = choose|j: int| 0 <= j < head.len() && head[j] == '/';
        assert(s[j] == '/');
    }
    assert(head + seq!['/'] =~= s.subrange(0, at + 1));
}

fn read_domain(source: LegacySource, relative: &str, given: String) -> (out: String)
    ensures
        out@ == note_domain(source, relative@, given@),
        given@.len() > 0 ==> out@ == given@,
        given@.len() == 0 && (source != LegacySource::WorldTree || !relative@.contains('/')) ==> out@.len() == 0,
        given@.len() == 0 && source == LegacySource::WorldTree && relative@.contains('/') ==> !out@.contains('/') && (out@ + seq!['/']).is_prefix_of(
            relative@,
        ),
{
    proof {
        if relative@.contains('/') {
            first_part_ends_at_a_slash(relative@);
        }
    }
    proof {
        reveal_strlit("");
        if given@.len() == 0 {
            assert(given@ == ""@);
        }
    }
    if !ordering::same_text(given.as_str(), "") {
        return given;
    }
    if source == LegacySource::WorldTree {
        let letters = chars::chars_of(relative);
        let at: usize = chars::find_from(&letters, '/', 0);
        proof {
            chars::position_from_bounds(relative@, '/', 0);
        }
        if at < letters.len() {
            proof {
                assert(relative@[at as int] == '/');
                assert(relative@.take(at as int) == letters@.subrange(0, at as int));
            }
            return chars::string_between(&letters, 0, at);
        }
        proof {
            assert(!relative@.contains('/'));
        }
    }
    String::new()
}

/// The title of a note, or its first heading where it has none.
pub open spec fn title_or_heading(row: Seq<(Seq<char>, Tree)>) -> Seq<char> {
    if legacy::cell(row, "title"@).len() == 0 {
        legacy::cell(row, "heading_h1"@)
    } else {
        legacy::cell(row, "title"@)
    }
}

/// What was planned of notes: the drafts, the sources that are not there, what to tell, and which
/// files were taken for which namespace.
#[derive(Debug)]
pub struct NotePlan {
    pub notes: Vec<NoteDraft>,
    pub missing: Vec<String>,
    pub warnings: Vec<String>,
    pub seen: Vec<(String, String)>,
}

pub struct NotePlanView {
    pub notes: Seq<NoteDraftView>,
    pub missing: Set<Seq<char>>,
    pub warnings: Seq<Seq<char>>,
    pub seen: Seq<(Seq<char>, Seq<char>)>,
}

impl View for NotePlan {
    type V = NotePlanView;

    open spec fn view(&self) -> NotePlanView {
        NotePlanView {
            notes: note_views(self.notes@),
            missing: chars::texts(self.missing@).to_set(),
            warnings: chars::texts(self.warnings@),
            seen: legacy::pair_views(self.seen@),
        }
    }
}

/// The note of a file, or why there is none.
pub open spec fn note_of(req: ImportRequest, row: SourceRow, relative: Seq<char>) -> Result<NoteDraftView, ErrorView> {
    let fields = row.fields@;
    let domain = note_domain(req.source, relative, legacy::cell(fields, "domain"@));
    let sid = legacy::domain_namespace(req.source, req.namespace@, domain) + ":"@ + relative;
    match legacy::record_of(req, "notes"@, sid, row, domain) {
        Err(error) => Err(error),
        Ok(record) => Ok(
            NoteDraftView {
                table: "notes"@,
                source_id: sid,
                record: RecordInputView { tags: legacy::texts_or_one(json::lookup(fields, "tags"@)), ..record },
                source: relative,
                title: title_or_heading(fields),
                chunk_chars: 220,
            },
        ),
    }
}

/// The plan after a source was placed, or why it failed. A file is taken once for a namespace.
pub open spec fn place_step(plan: NotePlanView, req: ImportRequest, source: Seq<char>, row: SourceRow, located: Located) -> Result<NotePlanView, ErrorView> {
    match located {
        Located::Missing => Ok(NotePlanView { missing: plan.missing.insert(source), ..plan }),
        Located::Outside => Ok(
            NotePlanView {
                missing: plan.missing.insert(source),
                warnings: plan.warnings.push("Skipped note outside notes_root: "@ + source),
                ..plan
            },
        ),
        Located::Found { path, relative } => {
            let domain = note_domain(req.source, relative@, legacy::cell(row.fields@, "domain"@));
            let pair = (legacy::domain_namespace(req.source, req.namespace@, domain), path@);
            if plan.seen.contains(pair) {
                Ok(plan)
            } else {
                match note_of(req, row, relative@) {
                    Err(error) => Err(error),
                    Ok(note) => Ok(NotePlanView { notes: plan.notes.push(note), seen: plan.seen.push(pair), ..plan }),
                }
            }
        },
    }
}

/// A source is rightly placed. One that is missing, or lies outside, is noted as missing, with a
/// warning for the latter. One that was found becomes a note unless its file was taken before; the
/// note names the path, the title and the tags of its row. Nothing else changes.
pub open spec fn placed(before: NotePlanView, req: ImportRequest, source: Seq<char>, row: SourceRow, located: Located, after: NotePlanView) -> bool {
    match located {
        Located::Missing => {
            &&& after.missing == before.missing.insert(source)
            &&& after.notes == before.notes && after.warnings == before.warnings && after.seen == before.seen
        },
        Located::Outside => {
            &&& after.missing == before.missing.insert(source)
            &&& after.warnings == before.warnings.push("Skipped note outside notes_root: "@ + source)
            &&& after.notes == before.notes && after.seen == before.seen
        },
        Located::Found { path, relative } => {
            &&& after.missing == before.missing && after.warnings == before.warnings
            &&& after.notes.len() == before.notes.len() ==> after == before && exists|k: int|
                0 <= k < before.seen.len() && (#[trigger] before.seen[k]).1 == path@
            &&& req.source != LegacySource::WorldTree ==> (after.notes.len() == before.notes.len() <==> before.seen.contains((req.namespace@, path@)))
            &&& req.source != LegacySource::WorldTree && after.notes.len() != before.notes.len() ==> after.seen.last().0 == req.namespace@
            &&& json::lookup(row.fields@, "domain"@) matches Some(Tree::Text(d)) ==> (req.source == LegacySource::WorldTree && !chars::blank(d) ==> {
                let home = (req.namespace@ + "/"@ + chars::trim(d), path@);
                &&& after.notes.len() == before.notes.len() <==> before.seen.contains(home)
                &&& after.notes.len() != before.notes.len() ==> after.seen.last() == home
            })
            &&& after.notes.len() != before.notes.len() ==> {
                let note = after.notes.last();
                let title = json::lookup(row.fields@, "title"@);
                let heading = json::lookup(row.fields@, "heading_h1"@);
                &&& after.notes == before.notes.push(note)
                &&& after.seen.len() == before.seen.len() + 1 && after.seen.last().1 == path@ && before.seen.is_prefix_of(after.seen)
                &&& !before.seen.contains(after.seen.last())
                &&& note.table == "notes"@
                &&& note.source == relative@
                &&& note.chunk_chars == 220
                &&& note.source_id == after.seen.last().0 + ":"@ + relative@
                &&& note.record.namespace == after.seen.last().0
                &&& title matches Some(Tree::Text(t)) ==> (t.len() > 0 ==> note.title == t)
                &&& title is None ==> (heading matches Some(Tree::Text(t)) ==> note.title == t)
                &&& json::lookup(row.fields@, "tags"@) matches Some(Tree::Text(t)) ==> note.record.tags == seq![t]
                &&& json::lookup(row.fields@, "tags"@) is None ==> note.record.tags.len() == 0
            }
        },
    }
}

/// Every source is rightly placed.
pub proof fn placing_is_right(plan: NotePlanView, req: ImportRequest, source: Seq<char>, row: SourceRow, located: Located)
    ensures
        place_step(plan, req, source, row, located) matches Ok(after) ==> placed(plan, req, source, row, located, after),
{
    if let Located::Found { path, relative } = located {
        let domain = note_domain(req.source, relative@, legacy::cell(row.fields@, "domain"@));
        let pair = (legacy::domain_namespace(req.source, req.namespace@, domain), path@);
        if plan.seen.contains(pair) {
            let k = choose|k: int| 0 <= k < plan.seen.len() && plan.seen[k] == pair;
            assert(plan.seen[k].1 == path@);
        }
    }
}

fn has_pair(list: &Vec<(String, String)>, a: &str, b: &str) -> (out: bool)
    ensures
        out == legacy::pair_views(list@).contains((a@, b@)),
{
    let ghost all = legacy::pair_views(list@);
    let mut i: usize = 0;
    while i < list.len()
        invariant
            i <= list.len(),
            all == legacy::pair_views(list@),
            forall|k: int| 0 <= k < i ==> #[trigger] all[k] != (a@, b@),
        decreases list.len() - i,
    {
        if ordering::same_text(list[i].0.as_str(), a) && ordering::same_text(list[i].1.as_str(), b) {
            assert(all[i as int] == (a@, b@));
            return true;
        }
        i = i + 1;
    }
    false
}

fn read_note(req: &ImportRequest, row: &SourceRow, relative: &str, domain: &str) -> (out: Result<NoteDraft, Error>)
    requires
        domain@ == note_domain(req.source, relative@, legacy::cell(row.fields@, "domain"@)),
    ensures
        match note_of(*req, *row, relative@) {
            Ok(note) => out is Ok && (out->Ok_0)@ == note,
            Err(error) => out is Err && (out->Err_0)@ == error,
        },
{
    let mut sid = legacy::namespace(req, domain);
    sid.append(":");
    sid.append(relative);
    let mut record = match legacy::record(req, "notes", sid.as_str(), row, domain) {
        Ok(record) => record,
        Err(error) => return Err(error),
    };
    record.tags = legacy::strings(json::find(&row.fields.entries, "tags"));
    let mut title = legacy::string(&row.fields, "title");
    proof {
        reveal_strlit("");
        if title@.len() == 0 {
            assert(title@ == ""@);
        }
    }
    if ordering::same_text(title.as_str(), "") {
        title = legacy::string(&row.fields, "heading_h1");
    }
    Ok(NoteDraft { table: "notes".to_owned(), source_id: sid, record, source: relative.to_owned(), title, chunk_chars: 220 })
}

impl NotePlan {
    /// The missing sources stand in order, each once.
    pub open spec fn wf(self) -> bool {
        ordering::strictly_sorted(chars::texts(self.missing@))
    }

    /// Nothing was planned.
    pub fn new() -> (out: Self)
        ensures
            out.wf(),
            out@.notes == Seq::<NoteDraftView>::empty(),
            out@.missing == Set::<Seq<char>>::empty(),
            out@.warnings == Seq::<Seq<char>>::empty(),
            out@.seen == Seq::<(Seq<char>, Seq<char>)>::empty(),
    {
        let out = NotePlan { notes: Vec::new(), missing: Vec::new(), warnings: Vec::new(), seen: Vec::new() };
        assert(chars::texts(out.missing@) == Seq::<Seq<char>>::empty());
        assert(out@.missing == Set::<Seq<char>>::empty());
        out
    }

    fn add_missing(&mut self, source: String)
        requires
            old(self).wf(),
        ensures
            final(self).wf(),
            final(self)@ == (NotePlanView { missing: old(self)@.missing.insert(source@), ..old(self)@ }),
    {
        let ghost before = chars::texts(self.missing@);
        let ghost text = source@;
        let _new = ordering::insert_sorted(&mut self.missing, source);
        proof {
            let after = chars::texts(self.missing@);
            assert forall|t: Seq<char>| after.to_set().contains(t) <==> before.to_set().insert(text).contains(t) by {
                assert(after.contains(t) <==> before.contains(t) || t == text);
            }
            assert(after.to_set() == before.to_set().insert(text));
        }
    }

    /// Places a source: drafts its note, or tells why there is none. The result tells whether a note
    /// was drafted, whose content is to be read.
    pub fn place(&mut self, req: &ImportRequest, item: NoteSource, located: &Located) -> (out: Result<bool, Error>)
        requires
            old(self).wf(),
        ensures
            match place_step(old(self)@, *req, item.source@, item.row, *located) {
                Ok(after) => {
                    &&& out is Ok
                    &&& final(self).wf()
                    &&& final(self)@ == after
                    &&& out->Ok_0 == (after.notes.len() > old(self)@.notes.len())
                },
                Err(error) => out is Err && (out->Err_0)@ == error && *final(self) == *old(self),
            },
            out is Ok ==> placed(old(self)@, *req, item.source@, item.row, *located, final(self)@),
            !(*located is Found) ==> out == Ok::<bool, Error>(false),
    {
        proof {
            placing_is_right(self@, *req, item.source@, item.row, *located);
        }
        match located {
            Located::Missing => {
                self.add_missing(item.source);
                Ok(false)
            },
            Located::Outside => {
                let warning = chars::concat("Skipped note outside notes_root: ", item.source.as_str());
                self.add_missing(item.source);
                let ghost before = chars::texts(self.warnings@);
                let ghost text = warning@;
                self.warnings.push(warning);
                assert(chars::texts(self.warnings@) == before.push(text));
                Ok(false)
            },
            Located::Found { path, relative } => {
                let domain = read_domain(req.source, relative.as_str(), legacy::string(&item.row.fields, "domain"));
                let namespace = legacy::namespace(req, domain.as_str());
                if has_pair(&self.seen, namespace.as_str(), path.as_str()) {
                    return Ok(false);
                }
                let note = match read_note(req, &item.row, relative.as_str(), domain.as_str()) {
                    Ok(note) => note,
                    Err(error) => return Err(error),
                };
                let ghost pair = (namespace@, path@);
                let ghost seen = legacy::pair_views(self.seen@);
                let ghost before = note_views(self.notes@);
                self.seen.push((namespace, path.clone()));
                assert(legacy::pair_views(self.seen@) == seen.push(pair));
                self.notes.push(note);
                assert(note_views(self.notes@) == before.push(note@));
                Ok(true)
            },
        }
    }
}

/// What every import tells of vectors.
pub fn vector_warning() -> (out: String)
    ensures
        out@
            == "Legacy Tantivy/FAISS/vector caches are not copied. Vectors are generated inside the library: register an embedder and run embeddings.sync to fill them."@,
{
    "Legacy Tantivy/FAISS/vector caches are not copied. Vectors are generated inside the library: register an embedder and run embeddings.sync to fill them.".to_owned()
}

// ── References become ids ─────────────────────────────────────────────

/// Keys and ids, in the order in which they were given.
pub open spec fn key_views(list: Seq<(String, i64)>) -> Seq<(Seq<char>, i64)> {
    Seq::new(list.len(), |i: int| (list[i].0@, list[i].1))
}

/// The id that was given to a key last.
pub open spec fn id_of(ids: Seq<(Seq<char>, i64)>, key: Seq<char>) -> Option<i64>
    decreases ids.len(),
{
    if ids.len() == 0 {
        None
    } else if ids.last().0 == key {
        Some(ids.last().1)
    } else {
        id_of(ids.drop_last(), key)
    }
}

/// A key means the id that was written last under it; a key that was never written means none.
pub proof fn last_id_counts(ids: Seq<(Seq<char>, i64)>, key: Seq<char>)
    ensures
        match id_of(ids, key) {
            Some(id) => exists|i: int|
                0 <= i < ids.len() && #[trigger] ids[i] == (key, id) && forall|j: int| i < j < ids.len() ==> (#[trigger] ids[j]).0 != key,
            None => forall|i: int| 0 <= i < ids.len() ==> (#[trigger] ids[i]).0 != key,
        },
    decreases ids.len(),
{
    if ids.len() > 0 {
        let n = ids.len() - 1;
        let rest = ids.drop_last();
        assert(ids[n] == ids.last());
        if ids.last().0 != key {
            last_id_counts(rest, key);
            match id_of(rest, key) {
                Some(id) => {
                    let i = choose|i: int|
                        0 <= i < rest.len() && #[trigger] rest[i] == (key, id) && forall|j: int| i < j < rest.len() ==> (#[trigger] rest[j]).0 != key;
                    assert(ids[i] == (key, id));
                    assert forall|j: int| i < j < ids.len() implies (#[trigger] ids[j]).0 != key by {
                        if j < n {
                            assert(ids[j] == rest[j]);
                        }
                    }
                },
                None => {
                    assert forall|i: int| 0 <= i < ids.len() implies (#[trigger] ids[i]).0 != key by {
                        if i < n {
                            assert(ids[i] == rest[i]);
                        }
                    }
                },
            }
        } else {
            assert(ids[n] == (key, ids.last().1));
        }
    }
}

/// The ids of the keys that have one, in order.
pub open spec fn known_ids(ids: Seq<(Seq<char>, i64)>, keys: Seq<Seq<char>>) -> Seq<i64>
    decreases keys.len(),
{
    if keys.len() == 0 {
        Seq::empty()
    } else {
        match id_of(ids, keys.last()) {
            Some(id) => known_ids(ids, keys.drop_last()).push(id),
            None => known_ids(ids, keys.drop_last()),
        }
    }
}

/// What is told of the keys that have no id, in order.
pub open spec fn dropped(ids: Seq<(Seq<char>, i64)>, event: Seq<char>, keys: Seq<Seq<char>>) -> Seq<Seq<char>>
    decreases keys.len(),
{
    if keys.len() == 0 {
        Seq::empty()
    } else {
        match id_of(ids, keys.last()) {
            Some(_) => dropped(ids, event, keys.drop_last()),
            None => dropped(ids, event, keys.drop_last()).push(
                "event "@ + event + ": dropped unresolved participant "@ + keys.last(),
            ),
        }
    }
}

/// What was written so far: the ids of entities by their keys, which source got which id, and what
/// could not be resolved. Entities are written before what refers to them.
#[derive(Debug)]
pub struct Applied {
    pub ids: Vec<(String, i64)>,
    pub mappings: Vec<IdMapping>,
    pub conflicts: Vec<String>,
}

impl Applied {
    /// Nothing was written.
    pub fn new() -> (out: Self)
        ensures
            out.ids@.len() == 0 && out.mappings@.len() == 0 && out.conflicts@.len() == 0,
    {
        Applied { ids: Vec::new(), mappings: Vec::new(), conflicts: Vec::new() }
    }

    /// Notes the id that a draft got.
    pub fn written(&mut self, table: &str, source_id: &str, id: i64)
        ensures
            final(self).ids == old(self).ids,
            final(self).conflicts == old(self).conflicts,
            final(self).mappings@.len() == old(self).mappings@.len() + 1,
            forall|i: int| 0 <= i < old(self).mappings@.len() ==> final(self).mappings@[i] == #[trigger] old(self).mappings@[i],
            final(self).mappings@.last().source_table@ == table@,
            final(self).mappings@.last().source_id@ == source_id@,
            final(self).mappings@.last().target_id == id,
    {
        self.mappings.push(IdMapping { source_table: table.to_owned(), source_id: source_id.to_owned(), target_id: id });
    }

    /// Notes the id that an entity got, for those that refer to it.
    pub fn entity_written(&mut self, draft: &EntityDraft, id: i64)
        ensures
            key_views(final(self).ids@) == key_views(old(self).ids@).push((draft@.key(), id)),
            final(self).conflicts == old(self).conflicts,
            final(self).mappings@.len() == old(self).mappings@.len() + 1,
            forall|i: int| 0 <= i < old(self).mappings@.len() ==> final(self).mappings@[i] == #[trigger] old(self).mappings@[i],
            final(self).mappings@.last().source_table@ == draft.table@,
            final(self).mappings@.last().source_id@ == draft.source_id@,
            final(self).mappings@.last().target_id == id,
    {
        let ghost before = key_views(self.ids@);
        self.ids.push((draft.key(), id));
        assert(key_views(self.ids@) == before.push((draft@.key(), id)));
        self.written(draft.table.as_str(), draft.source_id.as_str(), id);
    }

    fn find_id(&self, key: &str) -> (out: Option<i64>)
        ensures
            out == id_of(key_views(self.ids@), key@),
    {
        let ghost all = key_views(self.ids@);
        let mut i: usize = self.ids.len();
        assert(all.take(i as int) == all);
        while i > 0
            invariant
                i <= self.ids.len(),
                all == key_views(self.ids@),
                id_of(all.take(i as int), key@) == id_of(all, key@),
            decreases i,
        {
            assert(all.take(i as int).last() == all[i - 1]);
            assert(all.take(i as int).drop_last() == all.take(i - 1));
            if ordering::same_text(self.ids[i - 1].0.as_str(), key) {
                return Some(self.ids[i - 1].1);
            }
            i = i - 1;
        }
        None
    }

    /// The ids of a relation's subject and object. A relation that refers to what was not written is
    /// left out and told of.
    pub fn relation_ends(&mut self, draft: &RelationDraft) -> (out: Option<(i64, i64)>)
        ensures
            final(self).ids == old(self).ids,
            final(self).mappings == old(self).mappings,
            ({
                let subject = id_of(key_views(old(self).ids@), draft.subject@);
                let object = id_of(key_views(old(self).ids@), draft.object@);
                let resolved = subject is Some && object is Some;
                &&& out == if resolved {
                    Some((subject->0, object->0))
                } else {
                    None
                }
                &&& chars::texts(final(self).conflicts@) == if resolved {
                    chars::texts(old(self).conflicts@)
                } else {
                    chars::texts(old(self).conflicts@).push(
                        "skipped relation "@ + draft.source_id@ + ": unresolved entity reference "@ + draft.subject@ + " -> "@
                            + draft.object@,
                    )
                }
            }),
    {
        if let Some(subject) = self.find_id(draft.subject.as_str()) {
            if let Some(object) = self.find_id(draft.object.as_str()) {
                return Some((subject, object));
            }
        }
        let mut message = chars::concat("skipped relation ", draft.source_id.as_str());
        message.append(": unresolved entity reference ");
        message.append(draft.subject.as_str());
        message.append(" -> ");
        message.append(draft.object.as_str());
        let ghost before = chars::texts(self.conflicts@);
        let ghost text = message@;
        self.conflicts.push(message);
        assert(chars::texts(self.conflicts@) == before.push(text));
        None
    }

    /// The ids of an event's participants. Those that were not written are left out and told of.
    pub fn participants(&mut self, draft: &EventDraft) -> (out: Vec<i64>)
        ensures
            final(self).ids == old(self).ids,
            final(self).mappings == old(self).mappings,
            out@ == known_ids(key_views(old(self).ids@), chars::texts(draft.participants@)),
            chars::texts(final(self).conflicts@) == chars::texts(old(self).conflicts@) + dropped(
                key_views(old(self).ids@),
                draft.source_id@,
                chars::texts(draft.participants@),
            ),
    {
        let ghost ids = key_views(self.ids@);
        let ghost keys = chars::texts(draft.participants@);
        let ghost start = chars::texts(self.conflicts@);
        let mut out: Vec<i64> = Vec::new();
        let mut i: usize = 0;
        assert(keys.take(0) == Seq::<Seq<char>>::empty());
        assert(start + Seq::<Seq<char>>::empty() == start);
        while i < draft.participants.len()
            invariant
                i <= draft.participants.len(),
                self.ids == old(self).ids,
                self.mappings == old(self).mappings,
                ids == key_views(self.ids@),
                keys == chars::texts(draft.participants@),
                out@ == known_ids(ids, keys.take(i as int)),
                chars::texts(self.conflicts@) == start + dropped(ids, draft.source_id@, keys.take(i as int)),
            decreases draft.participants.len() - i,
        {
            assert(keys.take(i + 1).last() == keys[i as int]);
            assert(keys.take(i + 1).drop_last() == keys.take(i as int));
            match self.find_id(draft.participants[i].as_str()) {
                Some(id) => {
                    out.push(id);
                },
                None => {
                    let mut message = chars::concat("event ", draft.source_id.as_str());
                    message.append(": dropped unresolved participant ");
                    message.append(draft.participants[i].as_str());
                    let ghost before = chars::texts(self.conflicts@);
                    let ghost text = message@;
                    self.conflicts.push(message);
                    assert(chars::texts(self.conflicts@) == before.push(text));
                    assert(before.push(text) == start + dropped(ids, draft.source_id@, keys.take(i as int)).push(text));
                },
            }
            i = i + 1;
        }
        assert(keys.take(keys.len() as int) == keys);
        out
    }
}

/// Every participant is either known or reported as dropped: there is one id for each known key, in
/// their order, and one report for each other key.
pub proof fn participants_are_known_or_reported(ids: Seq<(Seq<char>, i64)>, event: Seq<char>, keys: Seq<Seq<char>>, last: Seq<char>)
    ensures
        known_ids(ids, keys).len() + dropped(ids, event, keys).len() == keys.len(),
        id_of(ids, last) matches Some(id) ==> known_ids(ids, keys.push(last)) == known_ids(ids, keys).push(id) && dropped(ids, event, keys.push(last))
            == dropped(ids, event, keys),
        id_of(ids, last) is None ==> known_ids(ids, keys.push(last)) == known_ids(ids, keys) && dropped(ids, event, keys.push(last)) == dropped(
            ids,
            event,
            keys,
        ).push("event "@ + event + ": dropped unresolved participant "@ + last),
    decreases keys.len(),
{
    assert(keys.push(last).drop_last() == keys);
    if keys.len() > 0 {
        participants_are_known_or_reported(ids, event, keys.drop_last(), last);
    }
}

/// Where every participant was written, none is dropped and nothing is told.
pub proof fn known_participants_stay(ids: Seq<(Seq<char>, i64)>, event: Seq<char>, keys: Seq<Seq<char>>)
    requires
        forall|i: int| 0 <= i < keys.len() ==> id_of(ids, #[trigger] keys[i]) is Some,
    ensures
        known_ids(ids, keys).len() == keys.len(),
        dropped(ids, event, keys).len() == 0,
    decreases keys.len(),
{
    if keys.len() > 0 {
        assert(id_of(ids, keys[keys.len() - 1]) is Some);
        assert forall|i: int| 0 <= i < keys.drop_last().len() implies id_of(ids, #[trigger] keys.drop_last()[i]) is Some by {
            assert(id_of(ids, keys[i]) is Some);
        }
        known_participants_stay(ids, event, keys.drop_last());
    }
}

// ── Deciding ──────────────────────────────────────────────────────────

/// What lies at the destination.
#[derive(Debug)]
pub enum Destination {
    /// Nothing, or an empty directory.
    Empty,
    /// A store that holds an import of the same source, with its fingerprint.
    Imported { fingerprint: String },
    /// Anything else.
    Occupied,
}

/// What an import does.
#[derive(Debug, Clone, Copy, PartialEq, Eq, Structural)]
pub enum ImportStep {
    /// The same import was done before; its report is given again.
    Already,
    /// The source has changed since; nothing is written.
    Changed,
    /// There is other data; nothing is written.
    Refused,
    /// Only what would be done is shown.
    Preview,
    Apply,
}

/// The fingerprint of what an import would write, by its serialized form.
pub fn plan_fingerprint(serialized: &str) -> (out: String)
    ensures
        out@ == text::sha256_hex(serialized@),
{
    text::digest(serialized)
}

/// Decides what an import does. Data that is there is never overwritten.
pub fn import_step(destination: &Destination, fingerprint: &str, dry_run: bool) -> (out: ImportStep)
    ensures
        out == match *destination {
            Destination::Imported { fingerprint: old } => if old@ == fingerprint@ {
                ImportStep::Already
            } else {
                ImportStep::Changed
            },
            Destination::Occupied => ImportStep::Refused,
            Destination::Empty => if dry_run {
                ImportStep::Preview
            } else {
                ImportStep::Apply
            },
        },
        out == ImportStep::Apply ==> *destination is Empty && !dry_run,
{
    match destination {
        Destination::Imported { fingerprint: old } => {
            if ordering::same_text(old.as_str(), fingerprint) {
                ImportStep::Already
            } else {
                ImportStep::Changed
            }
        },
        Destination::Occupied => ImportStep::Refused,
        Destination::Empty => {
            if dry_run {
                ImportStep::Preview
            } else {
                ImportStep::Apply
            }
        },
    }
}

/// The report of an import before anything is decided.
pub fn new_report(source_id: &str, fingerprint: String, missing: Vec<String>, warnings: Vec<String>) -> (out: ImportReport)
    ensures
        out.source_id@ == source_id@,
        out.source_fingerprint == fingerprint,
        !out.applied && !out.already_imported && !out.index_ready && out.index_error is None,
        out.counts@.len() == 0 && out.id_map@.len() == 0 && out.conflicts@.len() == 0,
        out.missing_sources == missing,
        out.warnings == warnings,
{
    ImportReport {
        source_id: source_id.to_owned(),
        source_fingerprint: fingerprint,
        applied: false,
        already_imported: false,
        counts: Vec::new(),
        id_map: Vec::new(),
        conflicts: Vec::new(),
        missing_sources: missing,
        warnings,
        index_ready: false,
        index_error: None,
    }
}

/// The report where the writing of the preview failed: the conflicts so far, then the error.
pub fn failed_preview(report: ImportReport, conflicts: Vec<String>, error: &Error) -> (out: ImportReport)
    ensures
        out == (ImportReport { conflicts: out.conflicts, ..report }),
        chars::texts(out.conflicts@) == chars::texts(conflicts@).push(crate::error::error_message(error@)),
{
    let mut all = conflicts;
    let ghost before = chars::texts(all@);
    all.push(error.message());
    assert(chars::texts(all@) == before.push(all@.last()@));
    ImportReport { conflicts: all, ..report }
}

/// The report of an import that writes nothing. `previous` is the report of the import that was done
/// before, if there is one. The conflicts of the preview are told only where nothing else stands
/// against the import.
pub fn decided_report(step: ImportStep, report: ImportReport, previous: Option<ImportReport>, preview_conflicts: Vec<String>) -> (out: ImportReport)
    requires
        step != ImportStep::Apply,
        step == ImportStep::Already ==> previous is Some,
    ensures
        match step {
            ImportStep::Already => out == (ImportReport { already_imported: true, applied: false, ..previous->0 }),
            ImportStep::Preview => out == (ImportReport { conflicts: preview_conflicts, ..report }),
            ImportStep::Changed => {
                &&& out == (ImportReport { conflicts: out.conflicts, ..report })
                &&& chars::texts(out.conflicts@) == chars::texts(report.conflicts@).push(
                    "Source changed since the previous import; use a new destination for a new snapshot."@,
                )
            },
            _ => {
                &&& out == (ImportReport { conflicts: out.conflicts, ..report })
                &&& chars::texts(out.conflicts@) == chars::texts(report.conflicts@).push(
                    "Destination must be a new or empty directory; existing user data is never overwritten."@,
                )
            },
        },
{
    match step {
        ImportStep::Already => {
            let found = previous.unwrap();
            ImportReport { already_imported: true, applied: false, ..found }
        },
        ImportStep::Preview => ImportReport { conflicts: preview_conflicts, ..report },
        ImportStep::Changed => {
            let mut out = report;
            let ghost before = chars::texts(out.conflicts@);
            out.conflicts.push("Source changed since the previous import; use a new destination for a new snapshot.".to_owned());
            assert(chars::texts(out.conflicts@) == before.push(out.conflicts@.last()@));
            out
        },
        _ => {
            let mut out = report;
            let ghost before = chars::texts(out.conflicts@);
            out.conflicts.push("Destination must be a new or empty directory; existing user data is never overwritten.".to_owned());
            assert(chars::texts(out.conflicts@) == before.push(out.conflicts@.last()@));
            out
        },
    }
}

/// Checks, once the destination is locked, that it is still empty.
pub fn check_still_empty(records: i64) -> (out: Result<(), Error>)
    ensures
        storage::refused(out, if records != 0 {
            Some(ErrorView::Conflict("destination became nonempty during import"@))
        } else {
            None
        }),
{
    if records != 0 {
        return Err(Error::Conflict("destination became nonempty during import".to_owned()));
    }
    Ok(())
}

} // verus!
