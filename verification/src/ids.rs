//! Sets of ids.

use crate::query;
use std::collections::HashSet;
use vstd::prelude::*;

verus! {

/// Inserts an id into an ascending list; the result tells whether it is new.
pub fn insert_id(set: &mut Vec<i64>, id: i64) -> (out: bool)
    requires
        query::increasing(old(set)@),
    ensures
        query::increasing(final(set)@),
        forall|x: i64| #[trigger] final(set)@.contains(x) <==> old(set)@.contains(x) || x == id,
        out == !old(set)@.contains(id),
        out ==> final(set).len() == old(set).len() + 1,
        !out ==> final(set)@ == old(set)@,
{
    let ghost before = set@;
    let mut place: usize = set.len();
    while place > 0 && set[place - 1] >= id
        invariant
            place <= set.len(),
            set@ == before,
            query::increasing(before),
            forall|k: int| place <= k < before.len() ==> before[k] > id,
        decreases place,
    {
        if set[place - 1] == id {
            assert(before[place - 1] == id);
            return false;
        }
        place = place - 1;
    }
    set.insert(place, id);
    proof {
        let after = set@;
        assert(after == before.insert(place as int, id));
        assert forall|x: i64| #[trigger] after.contains(x) <==> before.contains(x) || x == id by {
            if before.contains(x) {
                let k = choose|k: int| 0 <= k < before.len() && before[k] == x;
                if k < place {
                    assert(after[k] == x);
                } else {
                    assert(after[k + 1] == x);
                }
            }
            assert(after[place as int] == id);
            if after.contains(x) {
                let k = choose|k: int| 0 <= k < after.len() && after[k] == x;
                if k < place {
                    assert(before[k] == x);
                } else if k > place {
                    assert(before[k - 1] == x);
                }
            }
        }
        if before.contains(id) {
            let k = choose|k: int| 0 <= k < before.len() && before[k] == id;
            if k < place - 1 {
                assert(before[k] < before[place - 1]);
            }
        }
        assert forall|i: int, j: int| 0 <= i < j < after.len() implies after[i] < after[j] by {
            if i < place && j == place {
                if i < place - 1 {
                    assert(before[i] < before[place - 1]);
                }
            } else if i < place && j > place {
                assert(before[i] < before[j - 1]);
            } else if i > place {
                assert(before[i - 1] < before[j - 1]);
            } else if j < place {
                assert(before[i] < before[j]);
            }
        }
    }
    true
}

/// The members of a list in ascending order, each once.
pub fn sorted_ids(ids: &Vec<i64>) -> (out: Vec<i64>)
    ensures
        query::increasing(out@),
        forall|x: i64| #[trigger] out@.contains(x) <==> ids@.contains(x),
{
    let mut out: Vec<i64> = Vec::new();
    let mut i: usize = 0;
    while i < ids.len()
        invariant
            i <= ids.len(),
            query::increasing(out@),
            forall|x: i64| #[trigger] out@.contains(x) <==> ids@.take(i as int).contains(x),
        decreases ids.len() - i,
    {
        let _new = insert_id(&mut out, ids[i]);
        proof {
            let before = ids@.take(i as int);
            let after = ids@.take(i + 1);
            assert(after == before.push(ids@[i as int]));
            assert forall|x: i64| #[trigger] after.contains(x) <==> before.contains(x) || x == ids@[i as int] by {
                push_contains(before, ids@[i as int], x);
            }
        }
        i = i + 1;
    }
    assert(ids@.take(ids@.len() as int) == ids@);
    out
}

/// What a list holds after one more id.
pub proof fn push_contains(list: Seq<i64>, id: i64, x: i64)
    ensures
        list.push(id).contains(x) <==> list.contains(x) || x == id,
{
    let after = list.push(id);
    if list.contains(x) {
        let k = choose|k: int| 0 <= k < list.len() && list[k] == x;
        assert(after[k] == x);
    }
    assert(after[list.len() as int] == id);
    if after.contains(x) {
        let k = choose|k: int| 0 <= k < after.len() && after[k] == x;
        if k < list.len() {
            assert(list[k] == x);
        }
    }
}

/// A list in ascending order is settled by what it holds.
pub proof fn increasing_unique(a: Seq<i64>, b: Seq<i64>)
    requires
        query::increasing(a),
        query::increasing(b),
        forall|x: i64| a.contains(x) <==> b.contains(x),
    ensures
        a == b,
    decreases a.len(),
{
    if a.len() == 0 {
        if b.len() > 0 {
            assert(b.contains(b[0]));
        }
    } else {
        assert(a.contains(a.last()));
        let k = choose|k: int| 0 <= k < b.len() && b[k] == a.last();
        assert(b.contains(b.last()));
        let m = choose|m: int| 0 <= m < a.len() && a[m] == b.last();
        if k < b.len() - 1 {
            assert(b[k] < b[b.len() - 1]);
            if m < a.len() - 1 {
                assert(a[m] < a[a.len() - 1]);
            }
        }
        let x = a.drop_last();
        let y = b.drop_last();
        assert forall|v: i64| x.contains(v) <==> y.contains(v) by {
            if x.contains(v) {
                let i = choose|i: int| 0 <= i < x.len() && x[i] == v;
                assert(a[i] == v);
                assert(a[i] < a[a.len() - 1]);
                assert(b.contains(v));
                let j = choose|j: int| 0 <= j < b.len() && b[j] == v;
                assert(y[j] == v);
            }
            if y.contains(v) {
                let i = choose|i: int| 0 <= i < y.len() && y[i] == v;
                assert(b[i] == v);
                assert(b[i] < b[b.len() - 1]);
                assert(a.contains(v));
                let j = choose|j: int| 0 <= j < a.len() && a[j] == v;
                assert(x[j] == v);
            }
        }
        assert(query::increasing(x)) by {
            assert forall|i: int, j: int| 0 <= i < j < x.len() implies x[i] < x[j] by {
                assert(a[i] < a[j]);
            }
        }
        assert(query::increasing(y)) by {
            assert forall|i: int, j: int| 0 <= i < j < y.len() implies y[i] < y[j] by {
                assert(b[i] < b[j]);
            }
        }
        increasing_unique(x, y);
        assert(a == x.push(a.last()));
        assert(b == y.push(b.last()));
    }
}

/// The members of a list as a set.
pub fn id_set(ids: &Vec<i64>) -> (out: HashSet<i64>)
    ensures
        out@ == ids@.to_set(),
{
    let mut set: HashSet<i64> = HashSet::new();
    let mut i: usize = 0;
    assert(ids@.take(0).to_set() == Set::<i64>::empty());
    while i < ids.len()
        invariant
            i <= ids.len(),
            set@ == ids@.take(i as int).to_set(),
        decreases ids.len() - i,
    {
        let _new = set.insert(ids[i]);
        proof {
            let before = ids@.take(i as int);
            let after = ids@.take(i + 1);
            assert(after == before.push(ids@[i as int]));
            assert forall|x: i64| after.to_set().contains(x) <==> before.to_set().insert(ids@[i as int]).contains(x) by {
                push_contains(before, ids@[i as int], x);
            }
            assert(after.to_set() == before.to_set().insert(ids@[i as int]));
        }
        i = i + 1;
    }
    assert(ids@.take(ids@.len() as int) == ids@);
    set
}

/// The members of a list, each at its first place only.
pub open spec fn first_places(ids: Seq<i64>) -> Seq<i64>
    decreases ids.len(),
{
    if ids.len() == 0 {
        ids
    } else {
        let before = first_places(ids.drop_last());
        if before.contains(ids.last()) {
            before
        } else {
            before.push(ids.last())
        }
    }
}

/// Dropping repetitions keeps every member and leaves no two alike.
pub proof fn first_places_hold_all(ids: Seq<i64>)
    ensures
        ids.len() > 0 ==> first_places(ids.drop_last()).is_prefix_of(first_places(ids)),
        ids.len() > 0 && !ids.drop_last().contains(ids.last()) ==> first_places(ids) == first_places(ids.drop_last()).push(ids.last()),
        ids.no_duplicates() ==> first_places(ids) == ids,
        forall|x: i64| first_places(ids).contains(x) <==> ids.contains(x),
        first_places(ids).no_duplicates(),
        first_places(ids).len() <= ids.len(),
    decreases ids.len(),
{
    if ids.len() > 0 {
        first_places_hold_all(ids.drop_last());
        let before = first_places(ids.drop_last());
        assert(ids == ids.drop_last().push(ids.last()));
        assert forall|x: i64| first_places(ids).contains(x) <==> ids.contains(x) by {
            push_contains(ids.drop_last(), ids.last(), x);
            push_contains(before, ids.last(), x);
        }
        if ids.no_duplicates() {
            let rest = ids.drop_last();
            assert forall|i: int, j: int| 0 <= i < rest.len() && 0 <= j < rest.len() && i != j implies rest[i] != rest[j] by {
                assert(ids[i] != ids[j]);
            }
            if rest.contains(ids.last()) {
                let k = choose|k: int| 0 <= k < rest.len() && rest[k] == ids.last();
                assert(ids[k] == ids[ids.len() - 1]);
            }
            assert(first_places(ids) == ids);
        }
    }
}

} // verus!
