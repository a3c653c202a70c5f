//! Numbers under names, in the order of the names.

use crate::ordering;
use vstd::prelude::*;

verus! {

/// Entries with their names as characters.
pub open spec fn entry_views(list: Seq<(String, u64)>) -> Seq<(Seq<char>, u64)> {
    Seq::new(list.len(), |i: int| (list[i].0@, list[i].1))
}

/// Entries with one set: in place of the entry of that name, else before the first of a greater name.
pub open spec fn with_entry(list: Seq<(Seq<char>, u64)>, name: Seq<char>, value: u64) -> Seq<(Seq<char>, u64)>
    decreases list.len(),
{
    if list.len() == 0 {
        seq![(name, value)]
    } else if list[0].0 == name {
        list.update(0, (name, value))
    } else if ordering::text_less(name, list[0].0) {
        seq![(name, value)] + list
    } else {
        seq![list[0]] + with_entry(list.drop_first(), name, value)
    }
}

/// Names stay in order and stand once each.
pub proof fn setting_keeps_the_order(list: Seq<(Seq<char>, u64)>, name: Seq<char>, value: u64)
    requires
        forall|i: int, j: int| 0 <= i < j < list.len() ==> ordering::text_less((#[trigger] list[i]).0, (#[trigger] list[j]).0),
    ensures
        forall|i: int, j: int|
            0 <= i < j < with_entry(list, name, value).len() ==> ordering::text_less(
                (#[trigger] with_entry(list, name, value)[i]).0,
                (#[trigger] with_entry(list, name, value)[j]).0,
            ),
        list.len() > 0 && with_entry(list, name, value).len() > 0 ==> with_entry(list, name, value)[0].0 == name || with_entry(
            list,
            name,
            value,
        )[0].0 == list[0].0,
        list.len() == 0 ==> with_entry(list, name, value) == seq![(name, value)],
        with_entry(list, name, value).len() > 0,
    decreases list.len(),
{
    let set = with_entry(list, name, value);
    if list.len() > 0 {
        let rest = list.drop_first();
        if list[0].0 == name {
        } else if ordering::text_less(name, list[0].0) {
            assert forall|i: int, j: int| 0 <= i < j < set.len() implies ordering::text_less((#[trigger] set[i]).0, (#[trigger] set[j]).0) by {
                if i == 0 && j > 1 {
                    assert(set[j] == list[j - 1]);
                    ordering::text_less_transitive(name, list[0].0, list[j - 1].0);
                } else if i > 0 {
                    assert(set[i] == list[i - 1] && set[j] == list[j - 1]);
                }
            }
        } else {
            ordering::text_less_total(name, list[0].0);
            let tail = with_entry(rest, name, value);
            assert forall|i: int, j: int| 0 <= i < j < rest.len() implies ordering::text_less((#[trigger] rest[i]).0, (#[trigger] rest[j]).0) by {
                assert(rest[i] == list[i + 1] && rest[j] == list[j + 1]);
            }
            setting_keeps_the_order(rest, name, value);
            assert(set == seq![list[0]] + tail);
            assert(ordering::text_less(list[0].0, tail[0].0)) by {
                if rest.len() > 0 {
                    assert(rest[0] == list[1]);
                    assert(ordering::text_less(list[0].0, list[1].0));
                }
            }
            assert forall|i: int, j: int| 0 <= i < j < set.len() implies ordering::text_less((#[trigger] set[i]).0, (#[trigger] set[j]).0) by {
                assert(set[j] == tail[j - 1]);
                if i > 0 {
                    assert(set[i] == tail[i - 1]);
                } else if j > 1 {
                    ordering::text_less_transitive(list[0].0, tail[0].0, tail[j - 1].0);
                }
            }
        }
    }
}

/// Sets the number of a name.
pub fn set_entry(list: &mut Vec<(String, u64)>, name: &str, value: u64)
    ensures
        entry_views(final(list)@) == with_entry(entry_views(old(list)@), name@, value),
{
    let ghost all = entry_views(list@);
    let ghost v = (name@, value);
    let mut i: usize = 0;
    assert(all.skip(0) == all);
    assert(all.take(0) + with_entry(all.skip(0), name@, value) == with_entry(all, name@, value));
    while i < list.len()
        invariant
            i <= list.len(),
            list@ == old(list)@,
            all == entry_views(list@),
            v == (name@, value),
            all.take(i as int) + with_entry(all.skip(i as int), name@, value) == with_entry(all, name@, value),
        decreases list.len() - i,
    {
        let ghost rest = all.skip(i as int);
        assert(rest[0] == all[i as int]);
        if ordering::same_text(list[i].0.as_str(), name) {
            list.set(i, (name.to_owned(), value));
            proof {
                assert(entry_views(list@) == all.update(i as int, v));
                assert(all.take(i as int) + rest.update(0, v) == all.update(i as int, v));
            }
            return;
        }
        if ordering::is_less(name, list[i].0.as_str()) {
            list.insert(i, (name.to_owned(), value));
            proof {
                assert(entry_views(list@) == all.insert(i as int, v));
                assert(all.take(i as int) + (seq![v] + rest) == all.insert(i as int, v));
            }
            return;
        }
        proof {
            assert(rest.drop_first() == all.skip(i + 1));
            assert(all.take(i + 1) == all.take(i as int).push(all[i as int]));
            assert(all.take(i as int) + (seq![rest[0]] + with_entry(rest.drop_first(), name@, value)) == all.take(i + 1) + with_entry(
                all.skip(i + 1),
                name@,
                value,
            ));
        }
        i = i + 1;
    }
    list.push((name.to_owned(), value));
    proof {
        assert(all.skip(all.len() as int) == Seq::<(Seq<char>, u64)>::empty());
        assert(all.take(all.len() as int) == all);
        assert(entry_views(list@) == all.push(v));
        assert(all + seq![v] == all.push(v));
    }
}

/// The number under a name.
pub open spec fn entry_of(list: Seq<(Seq<char>, u64)>, name: Seq<char>) -> Option<u64>
    decreases list.len(),
{
    if list.len() == 0 {
        None
    } else if list[0].0 == name {
        Some(list[0].1)
    } else {
        entry_of(list.drop_first(), name)
    }
}

/// Setting a number makes it the one under its name, and leaves the others.
pub proof fn set_then_read(list: Seq<(Seq<char>, u64)>, name: Seq<char>, value: u64, other: Seq<char>)
    ensures
        entry_of(with_entry(list, name, value), name) == Some(value),
        other != name ==> entry_of(with_entry(list, name, value), other) == entry_of(list, other),
    decreases list.len(),
{
    let set = with_entry(list, name, value);
    if list.len() == 0 {
        assert(set.drop_first() == list);
    } else if list[0].0 == name {
        assert(set.drop_first() == list.drop_first());
    } else if ordering::text_less(name, list[0].0) {
        assert(set.drop_first() == list);
    } else {
        set_then_read(list.drop_first(), name, value, other);
        assert(set.drop_first() == with_entry(list.drop_first(), name, value));
    }
}

} // verus!
