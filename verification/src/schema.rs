//! Which database files are opened, created or refused, and how many records they hold.

use crate::chars;
use crate::decimal;
use crate::error::{Error, ErrorView};
use crate::storage;
use crate::tally;
use crate::types;
use crate::types::RecordKind;
use vstd::prelude::*;

verus! {

/// The version of the tables.
pub const SCHEMA_VERSION: i64 = 14;

/// The mark of a database of this library.
pub const APPLICATION_ID: i64 = 0x5041_494d;

/// What is wrong with a database file, given its version, its mark and the number of its tables.
/// There is no way up from another version.
pub open spec fn open_error(version: int, application: int, tables: int) -> Option<ErrorView> {
    if version != 0 && version != SCHEMA_VERSION {
        Some(ErrorView::SchemaVersion { found: version, supported: SCHEMA_VERSION as int })
    } else if (application != 0 && application != APPLICATION_ID) || (application == 0 && tables > 0) {
        Some(ErrorView::Conflict("this is not a p-memory database; use the legacy importer"@))
    } else {
        None
    }
}

/// Decides on a database file: whether its tables are to be made.
pub fn initialize(version: i64, application: i64, tables: i64) -> (out: Result<bool, Error>)
    ensures
        storage::refused(out, open_error(version as int, application as int, tables as int)),
        out matches Ok(create) ==> create == (version == 0),
        out is Ok <==> (version == 0 || version == 14) && (application == 0x5041_494d || application == 0 && tables <= 0),
{
    if version != 0 && version != SCHEMA_VERSION {
        return Err(Error::SchemaVersion { found: version, supported: SCHEMA_VERSION });
    }
    if (application != 0 && application != APPLICATION_ID) || (application == 0 && tables > 0) {
        return Err(Error::Conflict("this is not a p-memory database; use the legacy importer".to_owned()));
    }
    Ok(version == 0)
}

/// A file that holds tables is opened only under the mark and at the version of this library, or
/// before its version was set.
pub proof fn foreign_tables_are_refused(version: int, application: int, tables: int)
    requires
        tables > 0,
        open_error(version, application, tables) is None,
    ensures
        application == APPLICATION_ID,
        version == SCHEMA_VERSION || version == 0,
{
}

/// What is wrong with a snapshot.
pub open spec fn snapshot_error(application: int, version: int) -> Option<ErrorView> {
    if application != APPLICATION_ID {
        Some(ErrorView::Validation("snapshot is not a p-memory database"@))
    } else if version != SCHEMA_VERSION {
        Some(ErrorView::SchemaVersion { found: version, supported: SCHEMA_VERSION as int })
    } else {
        None
    }
}

/// Checks a snapshot before it is restored.
pub fn check_snapshot(application: i64, version: i64) -> (out: Result<(), Error>)
    ensures
        storage::refused(out, snapshot_error(application as int, version as int)),
        out is Ok <==> application == 0x5041_494d && version == 14,
{
    if application != APPLICATION_ID {
        return Err(Error::Validation("snapshot is not a p-memory database".to_owned()));
    }
    if version != SCHEMA_VERSION {
        return Err(Error::SchemaVersion { found: version, supported: SCHEMA_VERSION });
    }
    Ok(())
}

/// The name of the file that holds the vectors of a snapshot.
pub fn vectors_file(snapshot: &str) -> (out: String)
    ensures
        out@ == snapshot@ + ".vectors"@,
{
    chars::concat(snapshot, ".vectors")
}

/// The name under which records of a kind are counted; the code itself for an unknown one.
pub open spec fn count_name(code: i64) -> Seq<char> {
    match types::kind_of_code(code) {
        Some(kind) => types::kind_name(kind),
        None => decimal::integer_text(code as int),
    }
}

/// The counts of records by the names of their kinds.
pub open spec fn named_counts(rows: Seq<(i64, u64)>) -> Seq<(Seq<char>, u64)>
    decreases rows.len(),
{
    if rows.len() == 0 {
        Seq::empty()
    } else {
        tally::with_entry(named_counts(rows.drop_last()), count_name(rows.last().0), rows.last().1)
    }
}

/// Each kind is counted under its name: a row's count stands there unless a later row has the same
/// name, and nothing stands under a name that no row has.
pub proof fn counts_stand_under_their_names(rows: Seq<(i64, u64)>, name: Seq<char>)
    ensures
        match tally::entry_of(named_counts(rows), name) {
            Some(count) => exists|i: int|
                0 <= i < rows.len() && count_name((#[trigger] rows[i]).0) == name && rows[i].1 == count && forall|j: int|
                    i < j < rows.len() ==> count_name((#[trigger] rows[j]).0) != name,
            None => forall|i: int| 0 <= i < rows.len() ==> count_name((#[trigger] rows[i]).0) != name,
        },
    decreases rows.len(),
{
    if rows.len() > 0 {
        let rest = rows.drop_last();
        let last = rows.last();
        let n = rows.len() - 1;
        counts_stand_under_their_names(rest, name);
        tally::set_then_read(named_counts(rest), count_name(last.0), last.1, name);
        assert(rows[n] == last);
        if count_name(last.0) != name {
            match tally::entry_of(named_counts(rest), name) {
                Some(count) => {
                    let i = choose|i: int|
                        0 <= i < rest.len() && count_name((#[trigger] rest[i]).0) == name && rest[i].1 == count && forall|j: int|
                            i < j < rest.len() ==> count_name((#[trigger] rest[j]).0) != name;
                    assert(rows[i] == rest[i]);
                    assert forall|j: int| i < j < rows.len() implies count_name((#[trigger] rows[j]).0) != name by {
                        if j < n {
                            assert(rows[j] == rest[j]);
                        }
                    }
                },
                None => {
                    assert forall|i: int| 0 <= i < rows.len() implies count_name((#[trigger] rows[i]).0) != name by {
                        if i < n {
                            assert(rows[i] == rest[i]);
                        }
                    }
                },
            }
        } else {
            assert(count_name(rows[n].0) == name);
        }
    }
}

/// Names the counts of records by kind.
pub fn count_by_kind(rows: &Vec<(i64, u64)>) -> (out: Vec<(String, u64)>)
    ensures
        tally::entry_views(out@) == named_counts(rows@),
{
    let mut out: Vec<(String, u64)> = Vec::new();
    let mut i: usize = 0;
    assert(rows@.take(0) == Seq::<(i64, u64)>::empty());
    assert(tally::entry_views(out@) == named_counts(rows@.take(0)));
    while i < rows.len()
        invariant
            i <= rows.len(),
            tally::entry_views(out@) == named_counts(rows@.take(i as int)),
        decreases rows.len() - i,
    {
        assert(rows@.take(i + 1).drop_last() == rows@.take(i as int));
        match RecordKind::from_code(rows[i].0) {
            Some(kind) => tally::set_entry(&mut out, kind.as_str(), rows[i].1),
            None => tally::set_entry(&mut out, decimal::decimal_i64(rows[i].0).as_str(), rows[i].1),
        }
        i = i + 1;
    }
    assert(rows@.take(rows@.len() as int) == rows@);
    out
}

/// The sum of the counts; it stops at the greatest number.
pub open spec fn total_count(rows: Seq<(Seq<char>, u64)>) -> int
    decreases rows.len(),
{
    if rows.len() == 0 {
        0
    } else {
        let sum = total_count(rows.drop_last()) + rows.last().1;
        if sum <= u64::MAX {
            sum
        } else {
            u64::MAX as int
        }
    }
}

/// The sum of counts, whatever its size.
pub open spec fn plain_sum(rows: Seq<(Seq<char>, u64)>) -> int
    decreases rows.len(),
{
    if rows.len() == 0 {
        0
    } else {
        rows[0].1 + plain_sum(rows.drop_first())
    }
}

proof fn sum_of_last(rows: Seq<(Seq<char>, u64)>)
    requires
        rows.len() > 0,
    ensures
        plain_sum(rows) == plain_sum(rows.drop_last()) + rows.last().1,
    decreases rows.len(),
{
    if rows.len() > 1 {
        let rest = rows.drop_first();
        sum_of_last(rest);
        assert(rest.drop_last() == rows.drop_last().drop_first());
        assert(rest.last() == rows.last());
    } else {
        assert(rows.drop_first() == Seq::<(Seq<char>, u64)>::empty());
        assert(rows.drop_last() == Seq::<(Seq<char>, u64)>::empty());
    }
}

/// A total is the sum of the counts, as far as it fits.
pub proof fn totals_are_sums(rows: Seq<(Seq<char>, u64)>)
    ensures
        plain_sum(rows) >= 0,
        plain_sum(rows) <= u64::MAX ==> total_count(rows) == plain_sum(rows),
        plain_sum(rows) > u64::MAX ==> total_count(rows) == u64::MAX,
    decreases rows.len(),
{
    if rows.len() > 0 {
        totals_are_sums(rows.drop_last());
        sum_of_last(rows);
    }
}

/// How many records there are in all.
pub fn count_all(counts: &Vec<(String, u64)>) -> (out: u64)
    ensures
        out == total_count(tally::entry_views(counts@)),
        plain_sum(tally::entry_views(counts@)) <= u64::MAX ==> out == plain_sum(tally::entry_views(counts@)),
        plain_sum(tally::entry_views(counts@)) > u64::MAX ==> out == u64::MAX,
{
    proof {
        totals_are_sums(tally::entry_views(counts@));
    }
    let ghost all = tally::entry_views(counts@);
    let mut total: u64 = 0;
    let mut i: usize = 0;
    assert(all.take(0) == Seq::<(Seq<char>, u64)>::empty());
    while i < counts.len()
        invariant
            i <= counts.len(),
            all == tally::entry_views(counts@),
            total == total_count(all.take(i as int)),
        decreases counts.len() - i,
    {
        assert(all.take(i + 1).drop_last() == all.take(i as int));
        assert(all.take(i + 1).last().1 == counts@[i as int].1);
        let count: u64 = counts[i].1;
        total = if count <= u64::MAX - total { total + count } else { u64::MAX };
        i = i + 1;
    }
    assert(all.take(all.len() as int) == all);
    total
}

} // verus!
