//! Ranking candidates by score.
//!
//! Scores come from models and from the text index as floating point numbers. Here they are whole
//! numbers that stand in the same order, so that ranking is exact.

use vstd::prelude::*;

verus! {

/// A candidate and its score; the greater score is the better one.
#[derive(Debug, Clone, Copy, PartialEq, Eq, Structural)]
pub struct Scored {
    pub id: i64,
    pub score: i64,
}

/// `a` ranks before `b`: by score, then by the smaller id.
pub open spec fn better(a: Scored, b: Scored) -> bool {
    a.score > b.score || (a.score == b.score && a.id < b.id)
}

/// Nothing ranks before what stands in front of it.
pub open spec fn in_rank_order(list: Seq<Scored>) -> bool {
    forall|i: int, j: int| 0 <= i < j < list.len() ==> !better(#[trigger] list[j], #[trigger] list[i])
}

/// The place of minus zero, just below that of zero.
pub const MINUS_ZERO: i64 = -1;

/// The score that decides what is kept: there the two zeros count alike.
pub open spec fn level(score: i64) -> i64 {
    if score == MINUS_ZERO {
        0
    } else {
        score
    }
}

/// `a` is kept before `b`: by score, the two zeros alike, then by the smaller id.
pub open spec fn kept_before(a: Scored, b: Scored) -> bool {
    ||| level(a.score) > level(b.score)
    ||| level(a.score) == level(b.score) && a.id < b.id
    ||| level(a.score) == level(b.score) && a.id == b.id && a.score > b.score
}

/// One of the two orders of candidates: the one in which they rank, or the one in which they are
/// kept.
pub open spec fn ahead(keeping: bool, a: Scored, b: Scored) -> bool {
    if keeping {
        kept_before(a, b)
    } else {
        better(a, b)
    }
}

/// Nothing is ahead of what stands in front of it.
pub open spec fn in_order(keeping: bool, list: Seq<Scored>) -> bool {
    forall|i: int, j: int| 0 <= i < j < list.len() ==> !ahead(keeping, #[trigger] list[j], #[trigger] list[i])
}

/// Where `x` belongs in an ordered list: before all that it is ahead of.
pub open spec fn place_in(keeping: bool, list: Seq<Scored>, x: Scored) -> int
    decreases list.len(),
{
    if list.len() > 0 && ahead(keeping, x, list.last()) {
        place_in(keeping, list.drop_last(), x)
    } else {
        list.len() as int
    }
}

/// The candidates in one of the orders.
pub open spec fn ordered(keeping: bool, list: Seq<Scored>) -> Seq<Scored>
    decreases list.len(),
{
    if list.len() == 0 {
        list
    } else {
        let before = ordered(keeping, list.drop_last());
        before.insert(place_in(keeping, before, list.last()), list.last())
    }
}

/// No more than `limit` from the front.
pub open spec fn front(list: Seq<Scored>, limit: int) -> Seq<Scored> {
    if list.len() <= limit {
        list
    } else {
        list.take(limit)
    }
}

/// The candidates in rank order.
pub open spec fn ranked(list: Seq<Scored>) -> Seq<Scored> {
    ordered(false, list)
}

/// The best `limit` candidates in rank order.
pub open spec fn top_ranked(list: Seq<Scored>, limit: int) -> Seq<Scored> {
    front(ranked(list), limit)
}

/// The `limit` candidates that are kept. Which of several with the same score are among them is
/// decided by their ids.
pub open spec fn kept(list: Seq<Scored>, limit: int) -> Seq<Scored> {
    front(ordered(true, list), limit)
}

/// The candidates that are not kept.
pub open spec fn left_out(list: Seq<Scored>, limit: int) -> Seq<Scored> {
    ordered(true, list).skip(kept(list, limit).len() as int)
}

/// Whether `a` ranks before `b`.
pub fn is_better(a: Scored, b: Scored) -> (out: bool)
    ensures
        out == better(a, b),
        out <==> a.score > b.score || (a.score == b.score && a.id < b.id),
{
    a.score > b.score || (a.score == b.score && a.id < b.id)
}

/// Whether `a` is ahead of `b` in one of the orders.
fn is_ahead(keeping: bool, a: Scored, b: Scored) -> (out: bool)
    ensures
        out == ahead(keeping, a, b),
        !keeping ==> (out <==> a.score > b.score || (a.score == b.score && a.id < b.id)),
        keeping && a.score != -1 && b.score != -1 ==> (out <==> a.score > b.score || (a.score == b.score && a.id < b.id)),
        keeping && a.score == -1 && b.score == 0 ==> (out <==> a.id < b.id),
        keeping && a.score == 0 && b.score == -1 ==> (out <==> a.id <= b.id),
{
    if !keeping {
        return is_better(a, b);
    }
    let first: i64 = if a.score == MINUS_ZERO { 0 } else { a.score };
    let second: i64 = if b.score == MINUS_ZERO { 0 } else { b.score };
    first > second || (first == second && (a.id < b.id || (a.id == b.id && a.score > b.score)))
}

proof fn place_bounds(keeping: bool, list: Seq<Scored>, x: Scored)
    requires
        in_order(keeping, list),
    ensures
        0 <= place_in(keeping, list, x) <= list.len(),
        forall|i: int| 0 <= i < place_in(keeping, list, x) ==> !ahead(keeping, x, #[trigger] list[i]),
        forall|i: int| place_in(keeping, list, x) <= i < list.len() ==> ahead(keeping, x, #[trigger] list[i]),
    decreases list.len(),
{
    if list.len() > 0 {
        if ahead(keeping, x, list.last()) {
            let before = list.drop_last();
            assert forall|i: int, j: int| 0 <= i < j < before.len() implies !ahead(keeping, #[trigger] before[j], #[trigger] before[i]) by {
                assert(!ahead(keeping, list[j], list[i]));
            }
            place_bounds(keeping, before, x);
            assert forall|i: int| 0 <= i < place_in(keeping, list, x) implies !ahead(keeping, x, #[trigger] list[i]) by {
                assert(before[i] == list[i]);
            }
            assert forall|i: int| place_in(keeping, list, x) <= i < list.len() implies ahead(keeping, x, #[trigger] list[i]) by {
                if i < before.len() {
                    assert(before[i] == list[i]);
                }
            }
        } else {
            assert forall|i: int| 0 <= i < list.len() implies !ahead(keeping, x, #[trigger] list[i]) by {
                if i < list.len() - 1 {
                    assert(!ahead(keeping, list[list.len() - 1], list[i]));
                }
            }
        }
    }
}

proof fn insert_keeps_order(keeping: bool, list: Seq<Scored>, x: Scored)
    requires
        in_order(keeping, list),
    ensures
        in_order(keeping, list.insert(place_in(keeping, list, x), x)),
{
    let p = place_in(keeping, list, x);
    place_bounds(keeping, list, x);
    let after = list.insert(p, x);
    assert forall|i: int, j: int| 0 <= i < j < after.len() implies !ahead(keeping, #[trigger] after[j], #[trigger] after[i]) by {
        if j < p {
            assert(!ahead(keeping, list[j], list[i]));
        } else if j == p {
            assert(!ahead(keeping, x, list[i]));
        } else if i < p {
            assert(!ahead(keeping, list[j - 1], list[i]));
        } else if i == p {
            assert(ahead(keeping, x, list[j - 1]));
        } else {
            assert(!ahead(keeping, list[j - 1], list[i - 1]));
        }
    }
}

/// Ordering neither loses nor adds a candidate.
proof fn ordered_is_in_order(keeping: bool, list: Seq<Scored>)
    ensures
        in_order(keeping, ordered(keeping, list)),
        ordered(keeping, list).to_multiset() == list.to_multiset(),
        ordered(keeping, list).len() == list.len(),
    decreases list.len(),
{
    broadcast use vstd::seq_lib::group_to_multiset_ensures;

    if list.len() > 0 {
        ordered_is_in_order(keeping, list.drop_last());
        let before = ordered(keeping, list.drop_last());
        place_bounds(keeping, before, list.last());
        insert_keeps_order(keeping, before, list.last());
        assert(list == list.drop_last().push(list.last()));
    }
}

/// There is one way only to order the same candidates.
proof fn ordered_is_unique(keeping: bool, list: Seq<Scored>, other: Seq<Scored>)
    requires
        list.to_multiset() == other.to_multiset(),
    ensures
        ordered(keeping, list) == ordered(keeping, other),
        in_order(keeping, other) ==> ordered(keeping, list) == other,
{
    let leq = |a: Scored, b: Scored| !ahead(keeping, b, a);
    ordered_is_in_order(keeping, list);
    ordered_is_in_order(keeping, other);
    assert(vstd::relations::total_ordering(leq));
    assert(vstd::relations::sorted_by(ordered(keeping, list), leq));
    assert(vstd::relations::sorted_by(ordered(keeping, other), leq));
    vstd::seq_lib::lemma_sorted_unique(ordered(keeping, list), ordered(keeping, other), leq);
    if in_order(keeping, other) {
        assert(vstd::relations::sorted_by(other, leq));
        vstd::seq_lib::lemma_sorted_unique(ordered(keeping, list), other, leq);
    }
}

/// Ranking orders the candidates and neither loses nor adds any.
pub proof fn ranked_is_ordered(list: Seq<Scored>)
    ensures
        in_rank_order(ranked(list)),
        ranked(list).to_multiset() == list.to_multiset(),
        ranked(list).len() == list.len(),
{
    ordered_is_in_order(false, list);
    let all = ranked(list);
    assert forall|i: int, j: int| 0 <= i < j < all.len() implies !better(#[trigger] all[j], #[trigger] all[i]) by {
        assert(!ahead(false, all[j], all[i]));
    }
}

/// There is one ranking only: whatever the order in which candidates come, the same candidates
/// rank the same, and a list that is in rank order is the ranking of its members.
pub proof fn ranking_is_unique(list: Seq<Scored>, other: Seq<Scored>)
    requires
        list.to_multiset() == other.to_multiset(),
    ensures
        ranked(list) == ranked(other),
        in_rank_order(other) ==> ranked(list) == other,
{
    ordered_is_unique(false, list, other);
    if in_rank_order(other) {
        assert(in_order(false, other));
    }
}

/// What is kept does not depend on the order in which candidates come.
pub proof fn keeping_is_unique(list: Seq<Scored>, other: Seq<Scored>, limit: int)
    requires
        list.to_multiset() == other.to_multiset(),
    ensures
        kept(list, limit) == kept(other, limit),
{
    ordered_is_unique(true, list, other);
}

/// Keeping loses nothing but what it leaves out, and keeps as many as the limit allows. What is kept
/// stands in rank order. Nothing that is left out has a greater score than anything that is kept, nor
/// the same score, the two zeros alike, and a smaller id.
pub proof fn kept_are_best(list: Seq<Scored>, limit: int)
    requires
        0 <= limit,
    ensures
        ({
            let out = ranked(kept(list, limit));
            let rest = left_out(list, limit);
            &&& out.len() == (if list.len() <= limit { list.len() as int } else { limit })
            &&& in_rank_order(out)
            &&& out.to_multiset().add(rest.to_multiset()) == list.to_multiset()
            &&& forall|i: int, j: int| 0 <= i < out.len() && 0 <= j < rest.len() ==> !kept_before(#[trigger] rest[j], #[trigger] out[i])
        }),
{
    let all = ordered(true, list);
    let held = kept(list, limit);
    let rest = left_out(list, limit);
    let out = ranked(held);
    ordered_is_in_order(true, list);
    ranked_is_ordered(held);
    assert(held + rest == all);
    vstd::seq_lib::lemma_multiset_commutative(held, rest);
    assert forall|i: int, j: int| 0 <= i < out.len() && 0 <= j < rest.len() implies !kept_before(#[trigger] rest[j], #[trigger] out[i]) by {
        broadcast use vstd::seq_lib::group_to_multiset_ensures;

        assert(out.contains(out[i]));
        assert(held.to_multiset().count(out[i]) > 0);
        assert(held.contains(out[i]));
        let k = choose|k: int| 0 <= k < held.len() && held[k] == out[i];
        assert(!ahead(true, all[held.len() + j], all[k]));
    }
}

/// The best candidates are better than or equal to all that were left out.
pub proof fn top_ranked_is_best(list: Seq<Scored>, limit: int, i: int, j: int)
    requires
        0 <= limit,
        0 <= i < top_ranked(list, limit).len(),
        limit <= j < ranked(list).len(),
    ensures
        !better(ranked(list)[j], top_ranked(list, limit)[i]),
{
    ranked_is_ordered(list);
}

/// Inserting into the front gives the front after inserting.
proof fn insert_into_front(keeping: bool, full: Seq<Scored>, x: Scored, limit: int)
    requires
        in_order(keeping, full),
        0 <= limit < full.len(),
    ensures
        ({
            let top = full.take(limit);
            let p = place_in(keeping, full, x);
            let q = place_in(keeping, top, x);
            &&& 0 <= q <= limit
            &&& p >= limit ==> q == limit && full.insert(p, x).take(limit) == top
            &&& p < limit ==> q == p && full.insert(p, x).take(limit) == top.insert(q, x).take(limit)
        }),
{
    let top = full.take(limit);
    assert forall|i: int, j: int| 0 <= i < j < top.len() implies !ahead(keeping, #[trigger] top[j], #[trigger] top[i]) by {
        assert(!ahead(keeping, full[j], full[i]));
    }
    place_bounds(keeping, full, x);
    place_bounds(keeping, top, x);
    let p = place_in(keeping, full, x);
    let q = place_in(keeping, top, x);
    if p >= limit {
        if q < limit {
            assert(ahead(keeping, x, top[q]));
            assert(!ahead(keeping, x, full[q]));
        }
    } else {
        if q < p {
            assert(ahead(keeping, x, top[q]));
            assert(!ahead(keeping, x, full[q]));
        }
        if q > p {
            assert(!ahead(keeping, x, top[p]));
            assert(ahead(keeping, x, full[p]));
        }
    }
}

/// Where `x` belongs in an ordered list.
fn find_place(keeping: bool, list: &Vec<Scored>, x: Scored) -> (out: usize)
    ensures
        out == place_in(keeping, list@, x),
        out <= list.len(),
{
    let mut i: usize = list.len();
    assert(list@.take(i as int) == list@);
    while i > 0 && is_ahead(keeping, x, list[i - 1])
        invariant
            i <= list.len(),
            place_in(keeping, list@.take(i as int), x) == place_in(keeping, list@, x),
        decreases i,
    {
        assert(list@.take(i as int).drop_last() == list@.take(i - 1));
        assert(list@.take(i as int).last() == list@[i - 1]);
        i = i - 1;
    }
    proof {
        if i > 0 {
            assert(list@.take(i as int).last() == list@[i - 1]);
        }
    }
    i
}

/// The candidates in rank order.
fn rank(list: &Vec<Scored>) -> (out: Vec<Scored>)
    ensures
        out@ == ranked(list@),
{
    let mut out: Vec<Scored> = Vec::new();
    let mut i: usize = 0;
    assert(list@.take(0) == Seq::<Scored>::empty());
    while i < list.len()
        invariant
            i <= list.len(),
            out@ == ranked(list@.take(i as int)),
        decreases list.len() - i,
    {
        assert(list@.take(i + 1).drop_last() == list@.take(i as int));
        let place: usize = find_place(false, &out, list[i]);
        out.insert(place, list[i]);
        i = i + 1;
    }
    assert(list@.take(list@.len() as int) == list@);
    out
}

/// The `limit` candidates that are kept of what was seen so far. A full set takes a candidate only
/// where it is kept before the last that it holds.
pub struct TopList {
    limit: usize,
    kept: Vec<Scored>,
    seen: Ghost<Seq<Scored>>,
}

impl TopList {
    /// The candidates that were offered.
    pub closed spec fn seen(self) -> Seq<Scored> {
        self.seen@
    }

    /// How many candidates are kept at most.
    pub closed spec fn limit(self) -> int {
        self.limit as int
    }

    /// What is held is what is kept of what was seen.
    pub closed spec fn wf(self) -> bool {
        self.kept@ == kept(self.seen@, self.limit as int)
    }

    /// An empty set that keeps `limit` candidates.
    pub fn new(limit: usize) -> (out: Self)
        ensures
            out.wf(),
            out.limit() == limit,
            out.seen() == Seq::<Scored>::empty(),
    {
        TopList { limit, kept: Vec::new(), seen: Ghost(Seq::empty()) }
    }

    /// Offers a candidate.
    pub fn retain(&mut self, candidate: Scored)
        requires
            old(self).wf(),
        ensures
            final(self).wf(),
            final(self).limit() == old(self).limit(),
            final(self).seen() == old(self).seen().push(candidate),
    {
        let ghost before = self.seen@;
        let ghost full = ordered(true, before);
        let ghost limit = self.limit as int;
        proof {
            ordered_is_in_order(true, before);
            place_bounds(true, full, candidate);
            assert(before.push(candidate).drop_last() == before);
            if full.len() > limit {
                insert_into_front(true, full, candidate, limit);
            } else {
                assert(self.kept@ == full);
            }
        }
        let place: usize = find_place(true, &self.kept, candidate);
        if place < self.limit {
            self.kept.insert(place, candidate);
            if self.kept.len() > self.limit {
                self.kept.truncate(self.limit);
            }
        }
        self.seen = Ghost(before.push(candidate));
        proof {
            let place = place_in(true, full, candidate);
            assert(ordered(true, self.seen@) == full.insert(place, candidate));
            if full.len() == limit && place >= limit {
                assert(full.insert(place, candidate).take(limit) == full);
            }
            assert(self.kept@ == kept(self.seen@, limit));
        }
    }

    /// What was kept, in rank order.
    pub fn finish(self) -> (out: Vec<Scored>)
        requires
            self.wf(),
        ensures
            out@ == ranked(kept(self.seen(), self.limit())),
    {
        rank(&self.kept)
    }
}

/// The best `limit` of a list, in rank order.
pub fn best(list: &Vec<Scored>, limit: usize) -> (out: Vec<Scored>)
    ensures
        out@ == top_ranked(list@, limit as int),
{
    let mut out = rank(list);
    if out.len() > limit {
        out.truncate(limit);
    }
    out
}

} // verus!
