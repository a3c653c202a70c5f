//! Sorted collections of texts: lexicographic order and sets kept as sorted vectors.

use crate::chars::{chars_of, code_of, texts};
use vstd::prelude::*;

verus! {

/// Lexicographic order by code point, which is also the order of the UTF-8 bytes.
pub open spec fn text_less(a: Seq<char>, b: Seq<char>) -> bool
    decreases a.len(),
{
    if b.len() == 0 {
        false
    } else if a.len() == 0 {
        true
    } else if a[0] != b[0] {
        (a[0] as int) < (b[0] as int)
    } else {
        text_less(a.drop_first(), b.drop_first())
    }
}

/// Every text stands before all that follow it.
pub open spec fn strictly_sorted(s: Seq<Seq<char>>) -> bool {
    forall|i: int, j: int| 0 <= i < j < s.len() ==> text_less(#[trigger] s[i], #[trigger] s[j])
}

/// The order is irreflexive.
pub proof fn text_less_irreflexive(a: Seq<char>)
    ensures
        !text_less(a, a),
    decreases a.len(),
{
    if a.len() > 0 {
        text_less_irreflexive(a.drop_first());
    }
}

/// The order is transitive.
pub proof fn text_less_transitive(a: Seq<char>, b: Seq<char>, c: Seq<char>)
    requires
        text_less(a, b),
        text_less(b, c),
    ensures
        text_less(a, c),
    decreases a.len(),
{
    if a.len() > 0 && a[0] == b[0] && b[0] == c[0] {
        text_less_transitive(a.drop_first(), b.drop_first(), c.drop_first());
    }
}

/// Of two different texts one stands before the other.
pub proof fn text_less_total(a: Seq<char>, b: Seq<char>)
    ensures
        text_less(a, b) || text_less(b, a) || a == b,
    decreases a.len(),
{
    if a.len() == 0 && b.len() == 0 {
        assert(a == b);
    } else if a.len() > 0 && b.len() > 0 && a[0] == b[0] {
        text_less_total(a.drop_first(), b.drop_first());
        if a.drop_first() == b.drop_first() {
            assert(a == seq![a[0]] + a.drop_first());
            assert(b == seq![b[0]] + b.drop_first());
        }
    }
}

/// A strictly sorted sequence holds no text twice.
pub proof fn strictly_sorted_without_repeats(s: Seq<Seq<char>>)
    requires
        strictly_sorted(s),
    ensures
        s.no_duplicates(),
{
    assert forall|i: int, j: int| 0 <= i < s.len() && 0 <= j < s.len() && i != j implies #[trigger] s[i] != #[trigger] s[j] by {
        text_less_irreflexive(s[i]);
        if i < j {
            assert(text_less(s[i], s[j]));
        } else {
            assert(text_less(s[j], s[i]));
        }
    }
}

/// Two strictly sorted sequences with the same members are the same.
pub proof fn strictly_sorted_unique(a: Seq<Seq<char>>, b: Seq<Seq<char>>)
    requires
        strictly_sorted(a),
        strictly_sorted(b),
        forall|t: Seq<char>| a.contains(t) <==> b.contains(t),
    ensures
        a == b,
    decreases a.len(),
{
    if a.len() == 0 {
        if b.len() > 0 {
            assert(b.contains(b[0]));
            assert(a.contains(b[0]));
        }
        assert(a == b);
    } else {
        assert(a.contains(a.last()));
        assert(b.contains(a.last()));
        let i = choose|i: int| 0 <= i < b.len() && b[i] == a.last();
        assert(b.contains(b.last()));
        assert(a.contains(b.last()));
        let j = choose|j: int| 0 <= j < a.len() && a[j] == b.last();
        if i < b.len() - 1 {
            assert(text_less(b[i], b[b.len() - 1]));
            if j < a.len() - 1 {
                assert(text_less(a[j], a[a.len() - 1]));
                text_less_transitive(a.last(), b.last(), a.last());
            }
            text_less_irreflexive(a.last());
            assert(false);
        }
        let x = a.drop_last();
        let y = b.drop_last();
        assert(a.last() == b.last());
        assert forall|t: Seq<char>| x.contains(t) <==> y.contains(t) by {
            text_less_irreflexive(a.last());
            if x.contains(t) {
                let k = choose|k: int| 0 <= k < x.len() && x[k] == t;
                assert(a[k] == t);
                assert(a.contains(t));
                let m = choose|m: int| 0 <= m < b.len() && b[m] == t;
                assert(text_less(a[k], a[a.len() - 1]));
                assert(m < b.len() - 1);
                assert(y[m] == t);
            }
            if y.contains(t) {
                let k = choose|k: int| 0 <= k < y.len() && y[k] == t;
                assert(b[k] == t);
                assert(b.contains(t));
                let m = choose|m: int| 0 <= m < a.len() && a[m] == t;
                assert(text_less(b[k], b[b.len() - 1]));
                assert(m < a.len() - 1);
                assert(x[m] == t);
            }
        }
        assert forall|p: int, q: int| 0 <= p < q < x.len() implies text_less(#[trigger] x[p], #[trigger] x[q]) by {
            assert(text_less(a[p], a[q]));
        }
        assert forall|p: int, q: int| 0 <= p < q < y.len() implies text_less(#[trigger] y[p], #[trigger] y[q]) by {
            assert(text_less(b[p], b[q]));
        }
        strictly_sorted_unique(x, y);
        assert(a == x.push(a.last()));
        assert(b == y.push(b.last()));
    }
}

/// Up to `k` two texts agree; there the first ends, or has the smaller character.
pub open spec fn parts_at(a: Seq<char>, b: Seq<char>, k: int) -> bool {
    &&& 0 <= k <= a.len()
    &&& k < b.len()
    &&& forall|i: int| 0 <= i < k ==> #[trigger] a[i] == b[i]
    &&& k == a.len() || (a[k] as int) < (b[k] as int)
}

/// A text comes before another exactly where it is a shorter beginning of it, or has the smaller
/// character at the first place where they differ.
pub proof fn less_parts_somewhere(a: Seq<char>, b: Seq<char>)
    ensures
        text_less(a, b) <==> exists|k: int| #[trigger] parts_at(a, b, k),
    decreases a.len(),
{
    if a.len() == 0 || b.len() == 0 || a[0] != b[0] {
        if text_less(a, b) {
            assert(parts_at(a, b, 0));
        }
        if exists|k: int| #[trigger] parts_at(a, b, k) {
            let k = choose|k: int| #[trigger] parts_at(a, b, k);
            if k > 0 {
                assert(a[0] == b[0]);
            }
        }
    } else {
        let x = a.drop_first();
        let y = b.drop_first();
        less_parts_somewhere(x, y);
        if text_less(x, y) {
            let k = choose|k: int| #[trigger] parts_at(x, y, k);
            assert forall|i: int| 0 <= i < k + 1 implies #[trigger] a[i] == b[i] by {
                if i > 0 {
                    assert(x[i - 1] == y[i - 1]);
                }
            }
            assert(parts_at(a, b, k + 1));
        }
        if exists|k: int| #[trigger] parts_at(a, b, k) {
            let k = choose|k: int| #[trigger] parts_at(a, b, k);
            assert(k > 0);
            assert forall|i: int| 0 <= i < k - 1 implies #[trigger] x[i] == y[i] by {
                assert(a[i + 1] == b[i + 1]);
            }
            assert(parts_at(x, y, k - 1));
        }
    }
}

/// Whether `a` stands before `b`.
pub fn is_less(a: &str, b: &str) -> (out: bool)
    ensures
        out == text_less(a@, b@),
        out <==> exists|k: int| #[trigger] parts_at(a@, b@, k),
{
    proof {
        less_parts_somewhere(a@, b@);
    }
    let x = chars_of(a);
    let y = chars_of(b);
    let mut i: usize = 0;
    proof {
        assert(x@.skip(0) == a@);
        assert(y@.skip(0) == b@);
    }
    while i < x.len() && i < y.len()
        invariant
            i <= x.len(),
            i <= y.len(),
            text_less(x@.skip(i as int), y@.skip(i as int)) == text_less(a@, b@),
            text_less(a@, b@) <==> exists|k: int| #[trigger] parts_at(a@, b@, k),
        decreases x.len() - i,
    {
        if x[i] != y[i] {
            return code_of(x[i]) < code_of(y[i]);
        }
        proof {
            assert(x@.skip(i as int).drop_first() == x@.skip(i + 1));
            assert(y@.skip(i as int).drop_first() == y@.skip(i + 1));
        }
        i = i + 1;
    }
    i < y.len()
}

/// The place of `item` in a strictly sorted vector: everything before it is smaller, and it is
/// there exactly when the second part of the result is true.
pub fn place_of(set: &Vec<String>, item: &str) -> (out: (usize, bool))
    requires
        strictly_sorted(texts(set@)),
    ensures
        out.0 <= set.len(),
        forall|i: int| 0 <= i < out.0 ==> text_less(#[trigger] set@[i]@, item@),
        forall|i: int| out.0 <= i < set.len() && !out.1 ==> text_less(item@, #[trigger] set@[i]@),
        out.1 ==> out.0 < set.len() && set@[out.0 as int]@ == item@,
        out.1 == texts(set@).contains(item@),
{
    let mut i: usize = 0;
    while i < set.len() && is_less(set[i].as_str(), item)
        invariant
            i <= set.len(),
            forall|k: int| 0 <= k < i ==> text_less(#[trigger] set@[k]@, item@),
        decreases set.len() - i,
    {
        i = i + 1;
    }
    let found = i < set.len() && !is_less(item, set[i].as_str());
    proof {
        let all = texts(set@);
        if i < set.len() {
            text_less_total(all[i as int], item@);
        }
        assert forall|k: int| i <= k < set.len() && !found implies text_less(item@, #[trigger] set@[k]@) by {
            if k > i {
                assert(text_less(all[i as int], all[k]));
                text_less_transitive(item@, all[i as int], all[k]);
            }
        }
        if found {
            assert(all[i as int] == item@);
        } else if all.contains(item@) {
            let k = choose|k: int| 0 <= k < all.len() && all[k] == item@;
            text_less_irreflexive(item@);
            assert(set@[k]@ == item@);
        }
    }
    (i, found)
}

/// Whether a strictly sorted vector holds `item`.
pub fn has(set: &Vec<String>, item: &str) -> (out: bool)
    requires
        strictly_sorted(texts(set@)),
    ensures
        out == texts(set@).contains(item@),
{
    place_of(set, item).1
}

/// Adds `item` to a strictly sorted vector; the result tells whether it was new.
pub fn insert_sorted(set: &mut Vec<String>, item: String) -> (out: bool)
    requires
        strictly_sorted(texts(old(set)@)),
    ensures
        strictly_sorted(texts(final(set)@)),
        forall|t: Seq<char>| texts(final(set)@).contains(t) <==> texts(old(set)@).contains(t) || t == item@,
        out == !texts(old(set)@).contains(item@),
        !out ==> final(set)@ == old(set)@,
        final(set).len() == old(set).len() + (if out { 1int } else { 0int }),
{
    let (at, found) = place_of(set, item.as_str());
    if found {
        assert forall|t: Seq<char>| texts(set@).contains(t) || t == item@ implies texts(set@).contains(t) by {
        }
        return false;
    }
    let ghost before = texts(set@);
    let ghost text = item@;
    set.insert(at, item);
    proof {
        let after = texts(set@);
        assert(after == before.insert(at as int, text));
        assert forall|i: int, j: int| 0 <= i < j < after.len() implies text_less(#[trigger] after[i], #[trigger] after[j]) by {
            if i < at && j > at {
                assert(text_less(before[i], before[j - 1]));
            }
            if i < at && j < at {
                assert(text_less(before[i], before[j]));
            }
            if i > at {
                assert(text_less(before[i - 1], before[j - 1]));
            }
            if i < at && j == at {
                assert(text_less(old(set)@[i]@, text));
            }
            if i == at {
                assert(text_less(text, old(set)@[j - 1]@));
            }
        }
        assert forall|t: Seq<char>| after.contains(t) <==> before.contains(t) || t == text by {
            if before.contains(t) {
                let k = choose|k: int| 0 <= k < before.len() && before[k] == t;
                if k < at {
                    assert(after[k] == t);
                } else {
                    assert(after[k + 1] == t);
                }
            }
            assert(after[at as int] == text);
            if after.contains(t) {
                let k = choose|k: int| 0 <= k < after.len() && after[k] == t;
                if k < at {
                    assert(before[k] == t);
                } else if k > at {
                    assert(before[k - 1] == t);
                }
            }
        }
    }
    true
}

/// Whether a vector, in any order, holds `item`.
pub fn holds(list: &Vec<String>, item: &str) -> (out: bool)
    ensures
        out == texts(list@).contains(item@),
{
    let mut i: usize = 0;
    while i < list.len()
        invariant
            i <= list.len(),
            forall|k: int| 0 <= k < i ==> (#[trigger] list@[k])@ != item@,
        decreases list.len() - i,
    {
        if same_text(list[i].as_str(), item) {
            assert(texts(list@)[i as int] == item@);
            return true;
        }
        i = i + 1;
    }
    assert forall|k: int| 0 <= k < texts(list@).len() implies texts(list@)[k] != item@ by {
        assert(list@[k]@ != item@);
    }
    false
}

/// Whether two texts are the same.
pub fn same_text(a: &str, b: &str) -> (out: bool)
    ensures
        out == (a@ == b@),
{
    let x = chars_of(a);
    let y = chars_of(b);
    if x.len() != y.len() {
        return false;
    }
    let mut i: usize = 0;
    while i < x.len()
        invariant
            i <= x.len(),
            x.len() == y.len(),
            x@ == a@,
            y@ == b@,
            forall|k: int| 0 <= k < i ==> x@[k] == y@[k],
        decreases x.len() - i,
    {
        if x[i] != y[i] {
            assert(a@[i as int] != b@[i as int]);
            return false;
        }
        i = i + 1;
    }
    assert(x@ == y@);
    true
}

} // verus!
