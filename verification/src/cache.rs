//! The cache of vector partitions, and what a write makes stale.

use crate::chars;
use crate::ordering;
use crate::text;
use crate::types;
use crate::types::Degrade;
use vstd::prelude::*;

verus! {

// ── Partitions ────────────────────────────────────────────────────────

/// One cached partition: the vectors of a space, a namespace and a scope. That there are none is
/// remembered too.
#[derive(Debug)]
pub struct CacheEntry<T> {
    pub space: String,
    pub namespace: String,
    pub scope: String,
    pub partition: Option<T>,
}

/// The cache of vector partitions. An entry that is there may be used: what becomes stale is
/// removed at once. Each namespace has an epoch that moves when it is written, so that a partition
/// that was loaded meanwhile is not kept.
#[derive(Debug)]
pub struct VectorCache<T> {
    generation: u64,
    bumps: Vec<(String, u64)>,
    entries: Vec<CacheEntry<T>>,
}

/// How often a namespace was written.
pub open spec fn bump_of(bumps: Seq<(String, u64)>, namespace: Seq<char>) -> u64
    decreases bumps.len(),
{
    if bumps.len() == 0 {
        0
    } else if bumps[0].0@ == namespace {
        bumps[0].1
    } else {
        bump_of(bumps.drop_first(), namespace)
    }
}

/// The entry is the one for this space, namespace and scope.
pub open spec fn entry_for<T>(entry: CacheEntry<T>, space: Seq<char>, namespace: Seq<char>, scope: Seq<char>) -> bool {
    entry.space@ == space && entry.namespace@ == namespace && entry.scope@ == scope
}

/// What is cached for a space, a namespace and a scope.
pub open spec fn cached_in<T>(entries: Seq<CacheEntry<T>>, space: Seq<char>, namespace: Seq<char>, scope: Seq<char>) -> Option<Option<T>>
    decreases entries.len(),
{
    if entries.len() == 0 {
        None
    } else if entry_for(entries[0], space, namespace, scope) {
        Some(entries[0].partition)
    } else {
        cached_in(entries.drop_first(), space, namespace, scope)
    }
}

impl<T> VectorCache<T> {
    /// The epoch of a namespace.
    pub closed spec fn epoch(self, namespace: Seq<char>) -> int {
        self.generation as int + bump_of(self.bumps@, namespace)
    }

    /// What is cached for a space, a namespace and a scope.
    pub closed spec fn cached(self, space: Seq<char>, namespace: Seq<char>, scope: Seq<char>) -> Option<Option<T>> {
        cached_in(self.entries@, space, namespace, scope)
    }

    /// The 64 bit counters can take at least `writes` more writes.
    pub closed spec fn has_room(self, writes: int) -> bool {
        self.generation + writes <= u64::MAX && forall|n: Seq<char>| #[trigger] bump_of(self.bumps@, n) + writes <= u64::MAX
    }

    /// A cache with nothing in it.
    pub fn new() -> (out: Self)
        ensures
            forall|n: Seq<char>| #[trigger] out.epoch(n) == 0,
            forall|s: Seq<char>, n: Seq<char>, c: Seq<char>| #[trigger] out.cached(s, n, c) is None,
            out.has_room(u64::MAX as int),
    {
        VectorCache { generation: 0, bumps: Vec::new(), entries: Vec::new() }
    }

    /// The epoch of a namespace. One that was never written is at the common generation.
    pub fn epoch_of(&self, namespace: &str) -> (out: u128)
        ensures
            out == self.epoch(namespace@),
    {
        self.generation as u128 + self.bump(namespace) as u128
    }

    fn bump(&self, namespace: &str) -> (out: u64)
        ensures
            out == bump_of(self.bumps@, namespace@),
            (forall|k: int| 0 <= k < self.bumps@.len() ==> (#[trigger] self.bumps@[k]).0@ != namespace@) ==> out == 0,
            forall|k: int|
                0 <= k < self.bumps@.len() && (#[trigger] self.bumps@[k]).0@ == namespace@ && (forall|j: int|
                    0 <= j < k ==> (#[trigger] self.bumps@[j]).0@ != namespace@) ==> out == self.bumps@[k].1,
    {
        let ghost all = self.bumps@;
        let mut i: usize = 0;
        assert(all.skip(0) == all);
        while i < self.bumps.len()
            invariant
                i <= self.bumps.len(),
                all == self.bumps@,
                bump_of(all.skip(i as int), namespace@) == bump_of(all, namespace@),
                forall|k: int| 0 <= k < i ==> (#[trigger] all[k]).0@ != namespace@,
            decreases self.bumps.len() - i,
        {
            assert(all.skip(i as int)[0] == all[i as int]);
            if ordering::same_text(self.bumps[i].0.as_str(), namespace) {
                return self.bumps[i].1;
            }
            assert(all.skip(i as int).drop_first() == all.skip(i + 1));
            i = i + 1;
        }
        0
    }

    /// Counts one more write to a namespace.
    fn raise(&mut self, namespace: &String)
        requires
            bump_of(old(self).bumps@, namespace@) < u64::MAX,
        ensures
            final(self).generation == old(self).generation,
            final(self).entries@ == old(self).entries@,
            forall|n: Seq<char>| #[trigger] bump_of(final(self).bumps@, n) == bump_of(old(self).bumps@, n) + (if n == namespace@ { 1int } else { 0int }),
    {
        let ghost all = self.bumps@;
        let mut i: usize = 0;
        assert(all.skip(0) == all);
        while i < self.bumps.len()
            invariant
                i <= self.bumps.len(),
                *self == *old(self),
                all == self.bumps@,
                bump_of(all, namespace@) < u64::MAX,
                forall|j: int| 0 <= j < i ==> (#[trigger] all[j]).0@ != namespace@,
            decreases self.bumps.len() - i,
        {
            if ordering::same_text(self.bumps[i].0.as_str(), namespace.as_str()) {
                proof {
                    bump_found(all, i as int, namespace@);
                }
                let entry = (namespace.clone(), self.bumps[i].1 + 1);
                self.bumps.set(i, entry);
                assert forall|n: Seq<char>| #[trigger] bump_of(self.bumps@, n) == bump_of(all, n) + (if n == namespace@ { 1int } else { 0int }) by {
                    bump_updated(all, i as int, entry, n);
                }
                return;
            }
            i = i + 1;
        }
        let entry = (namespace.clone(), 1u64);
        self.bumps.push(entry);
        assert forall|n: Seq<char>| #[trigger] bump_of(self.bumps@, n) == bump_of(all, n) + (if n == namespace@ { 1int } else { 0int }) by {
            bump_pushed(all, entry, n);
        }
    }

    /// What is cached for a space, a namespace and a scope.
    pub fn get(&self, space: &str, namespace: &str, scope: &str) -> (out: Option<&Option<T>>)
        ensures
            match out {
                Some(p) => self.cached(space@, namespace@, scope@) == Some(*p),
                None => self.cached(space@, namespace@, scope@) is None,
            },
    {
        let ghost all = self.entries@;
        let mut i: usize = 0;
        assert(all.skip(0) == all);
        while i < self.entries.len()
            invariant
                i <= self.entries.len(),
                all == self.entries@,
                cached_in(all.skip(i as int), space@, namespace@, scope@) == cached_in(all, space@, namespace@, scope@),
            decreases self.entries.len() - i,
        {
            assert(all.skip(i as int)[0] == all[i as int]);
            let entry = &self.entries[i];
            if ordering::same_text(entry.space.as_str(), space) && ordering::same_text(entry.namespace.as_str(), namespace)
                && ordering::same_text(entry.scope.as_str(), scope) {
                return Some(&entry.partition);
            }
            assert(all.skip(i as int).drop_first() == all.skip(i + 1));
            i = i + 1;
        }
        None
    }

    /// Keeps a partition that was loaded while the namespace stood at `epoch`. Where the namespace
    /// was written since, the partition is stale and is not kept.
    pub fn keep_loaded(&mut self, space: &str, namespace: &str, scope: &str, partition: Option<T>, epoch: u128) -> (out: bool)
        ensures
            out == (old(self).epoch(namespace@) == epoch),
            forall|n: Seq<char>| #[trigger] final(self).epoch(n) == old(self).epoch(n),
            forall|s: Seq<char>, n: Seq<char>, c: Seq<char>| #[trigger] final(self).cached(s, n, c) == (if out && s == space@ && n == namespace@ && c == scope@ {
                Some(partition)
            } else {
                old(self).cached(s, n, c)
            }),
            forall|w: int| #[trigger] final(self).has_room(w) == old(self).has_room(w),
    {
        if self.epoch_of(namespace) != epoch {
            return false;
        }
        let ghost before = self.entries@;
        let entry = CacheEntry { space: space.to_owned(), namespace: namespace.to_owned(), scope: scope.to_owned(), partition };
        let mut i: usize = 0;
        while i < self.entries.len()
            invariant
                i <= self.entries.len(),
                *self == *old(self),
                before == self.entries@,
                forall|j: int| 0 <= j < i ==> !entry_for(#[trigger] before[j], space@, namespace@, scope@),
            ensures
                i < before.len() ==> entry_for(before[i as int], space@, namespace@, scope@),
            decreases self.entries.len() - i,
        {
            let known = &self.entries[i];
            if ordering::same_text(known.space.as_str(), space) && ordering::same_text(known.namespace.as_str(), namespace)
                && ordering::same_text(known.scope.as_str(), scope) {
                break;
            }
            i = i + 1;
        }
        if i < self.entries.len() {
            let _old = self.entries.remove(i);
        }
        let ghost shorter = self.entries@;
        self.entries.insert(0, entry);
        proof {
            assert(self.entries@ == shorter.insert(0, entry));
            assert(self.entries@.drop_first() == shorter);
            assert forall|s: Seq<char>, n: Seq<char>, c: Seq<char>| #[trigger] self.cached(s, n, c) == (if s == space@ && n == namespace@ && c == scope@ {
                Some(partition)
            } else {
                old(self).cached(s, n, c)
            }) by {
                assert(self.entries@[0] == entry);
                if !(s == space@ && n == namespace@ && c == scope@) && i < before.len() {
                    removing_another_entry(before, i as int, s, n, c);
                }
            }
        }
        true
    }

    /// Makes everything stale: no entry stays, and every namespace moves to a new epoch.
    pub fn invalidate(&mut self)
        requires
            old(self).has_room(1),
        ensures
            forall|w: int| #[trigger] old(self).has_room(w) ==> final(self).has_room(w - 1),
            forall|n: Seq<char>| #[trigger] final(self).epoch(n) == old(self).epoch(n) + 1,
            forall|s: Seq<char>, n: Seq<char>, c: Seq<char>| #[trigger] final(self).cached(s, n, c) is None,
    {
        self.generation = self.generation + 1;
        self.entries = Vec::new();
    }

    /// Makes the given namespaces stale: their entries go and their epochs move. All others stay as
    /// they are.
    pub fn invalidate_namespaces(&mut self, namespaces: &Vec<String>)
        requires
            old(self).has_room(1),
            ordering::strictly_sorted(chars::texts(namespaces@)),
        ensures
            forall|w: int| #[trigger] old(self).has_room(w) ==> final(self).has_room(w - 1),
            forall|n: Seq<char>| #[trigger] final(self).epoch(n) == old(self).epoch(n) + (if chars::texts(namespaces@).contains(n) {
                1int
            } else {
                0int
            }),
            forall|s: Seq<char>, n: Seq<char>, c: Seq<char>| #[trigger] final(self).cached(s, n, c) == (if chars::texts(namespaces@).contains(n) {
                None
            } else {
                old(self).cached(s, n, c)
            }),
    {
        let ghost list = chars::texts(namespaces@);
        let ghost first = self.bumps@;
        let mut i: usize = 0;
        while i < namespaces.len()
            invariant
                i <= namespaces.len(),
                list == chars::texts(namespaces@),
                ordering::strictly_sorted(list),
                self.generation == old(self).generation,
                self.entries@ == old(self).entries@,
                first == old(self).bumps@,
                old(self).has_room(1),
                forall|n: Seq<char>| #[trigger] bump_of(self.bumps@, n) == bump_of(first, n) + (if list.take(i as int).contains(n) { 1int } else { 0int }),
            decreases namespaces.len() - i,
        {
            let ghost name = list[i as int];
            proof {
                assert(!list.take(i as int).contains(name)) by {
                    if list.take(i as int).contains(name) {
                        let k = choose|k: int| 0 <= k < i && list.take(i as int)[k] == name;
                        assert(ordering::text_less(list[k], list[i as int]));
                        ordering::text_less_irreflexive(name);
                    }
                }
                assert(bump_of(self.bumps@, name) == bump_of(first, name));
            }
            let ghost before = self.bumps@;
            self.raise(&namespaces[i]);
            proof {
                let longer = list.take(i + 1);
                assert forall|n: Seq<char>| #[trigger] bump_of(self.bumps@, n) == bump_of(first, n) + (if list.take(i + 1).contains(n) { 1int } else { 0int }) by {
                    assert(longer == list.take(i as int).push(name));
                    assert(bump_of(before, n) == bump_of(first, n) + (if list.take(i as int).contains(n) { 1int } else { 0int }));
                    if n == name {
                        assert(longer[i as int] == name);
                    } else {
                        if list.take(i as int).contains(n) {
                            let k = choose|k: int| 0 <= k < i && list.take(i as int)[k] == n;
                            assert(longer[k] == n);
                        }
                        if longer.contains(n) {
                            let k = choose|k: int| 0 <= k < longer.len() && longer[k] == n;
                            assert(k < i);
                            assert(list.take(i as int)[k] == n);
                        }
                    }
                }
            }
            i = i + 1;
        }
        assert(list.take(list.len() as int) == list);
        let ghost moved = *self;
        let ghost start = self.entries@;
        let mut k: usize = 0;
        while k < self.entries.len()
            invariant
                k <= self.entries.len(),
                list == chars::texts(namespaces@),
                ordering::strictly_sorted(list),
                self.generation == moved.generation,
                self.bumps@ == moved.bumps@,
                forall|j: int| 0 <= j < k ==> !list.contains(#[trigger] self.entries@[j].namespace@),
                forall|s: Seq<char>, n: Seq<char>, c: Seq<char>| !list.contains(n) ==> #[trigger] cached_in(self.entries@, s, n, c) == cached_in(start, s, n, c),
            decreases self.entries.len() - k,
        {
            if ordering::has(namespaces, self.entries[k].namespace.as_str()) {
                let ghost before = self.entries@;
                let _stale = self.entries.remove(k);
                proof {
                    assert(self.entries@ == before.remove(k as int));
                    assert forall|s: Seq<char>, n: Seq<char>, c: Seq<char>| !list.contains(n) implies #[trigger] cached_in(self.entries@, s, n, c) == cached_in(start, s, n, c) by {
                        assert(cached_in(before, s, n, c) == cached_in(start, s, n, c));
                        removing_another_entry(before, k as int, s, n, c);
                    }
                }
            } else {
                k = k + 1;
            }
        }
        proof {
            assert forall|s: Seq<char>, n: Seq<char>, c: Seq<char>| #[trigger] self.cached(s, n, c) == (if list.contains(n) {
                None
            } else {
                old(self).cached(s, n, c)
            }) by {
                assert(!list.contains(n) ==> cached_in(self.entries@, s, n, c) == cached_in(start, s, n, c));
                if list.contains(n) {
                    nothing_cached(self.entries@, s, n, c);
                }
            }
        }
    }
}

proof fn bump_found(bumps: Seq<(String, u64)>, i: int, name: Seq<char>)
    requires
        0 <= i < bumps.len(),
        bumps[i].0@ == name,
        forall|j: int| 0 <= j < i ==> (#[trigger] bumps[j]).0@ != name,
    ensures
        bump_of(bumps, name) == bumps[i].1,
    decreases bumps.len(),
{
    if i > 0 {
        assert(bumps[0].0@ != name);
        let rest = bumps.drop_first();
        assert forall|j: int| 0 <= j < i - 1 implies (#[trigger] rest[j]).0@ != name by {
            assert(rest[j] == bumps[j + 1]);
        }
        bump_found(rest, i - 1, name);
    }
}

proof fn bump_updated(bumps: Seq<(String, u64)>, i: int, entry: (String, u64), n: Seq<char>)
    requires
        0 <= i < bumps.len(),
        bumps[i].0@ == entry.0@,
        forall|j: int| 0 <= j < i ==> (#[trigger] bumps[j]).0@ != entry.0@,
    ensures
        bump_of(bumps.update(i, entry), n) == (if n == entry.0@ { entry.1 } else { bump_of(bumps, n) }),
    decreases bumps.len(),
{
    let after = bumps.update(i, entry);
    if i == 0 {
        assert(after.drop_first() == bumps.drop_first());
    } else {
        assert(bumps[0].0@ != entry.0@);
        let rest = bumps.drop_first();
        assert forall|j: int| 0 <= j < i - 1 implies (#[trigger] rest[j]).0@ != entry.0@ by {
            assert(rest[j] == bumps[j + 1]);
        }
        bump_updated(rest, i - 1, entry, n);
        assert(after.drop_first() == rest.update(i - 1, entry));
    }
}

proof fn bump_pushed(bumps: Seq<(String, u64)>, entry: (String, u64), n: Seq<char>)
    requires
        forall|j: int| 0 <= j < bumps.len() ==> (#[trigger] bumps[j]).0@ != entry.0@,
    ensures
        bump_of(bumps.push(entry), n) == (if n == entry.0@ { entry.1 } else { bump_of(bumps, n) }),
        bump_of(bumps, entry.0@) == 0,
    decreases bumps.len(),
{
    let after = bumps.push(entry);
    if bumps.len() == 0 {
        assert(after.drop_first() == bumps);
    } else {
        assert(bumps[0].0@ != entry.0@);
        let rest = bumps.drop_first();
        assert forall|j: int| 0 <= j < rest.len() implies (#[trigger] rest[j]).0@ != entry.0@ by {
            assert(rest[j] == bumps[j + 1]);
        }
        bump_pushed(rest, entry, n);
        assert(after.drop_first() == rest.push(entry));
    }
}

proof fn removing_another_entry<T>(entries: Seq<CacheEntry<T>>, k: int, space: Seq<char>, namespace: Seq<char>, scope: Seq<char>)
    requires
        0 <= k < entries.len(),
        !entry_for(entries[k], space, namespace, scope),
    ensures
        cached_in(entries.remove(k), space, namespace, scope) == cached_in(entries, space, namespace, scope),
    decreases entries.len(),
{
    if k == 0 {
        assert(entries.remove(0) == entries.drop_first());
    } else {
        removing_another_entry(entries.drop_first(), k - 1, space, namespace, scope);
        assert(entries.remove(k).drop_first() == entries.drop_first().remove(k - 1));
    }
}

proof fn nothing_cached<T>(entries: Seq<CacheEntry<T>>, space: Seq<char>, namespace: Seq<char>, scope: Seq<char>)
    requires
        forall|j: int| 0 <= j < entries.len() ==> (#[trigger] entries[j]).namespace@ != namespace,
    ensures
        cached_in(entries, space, namespace, scope) is None,
    decreases entries.len(),
{
    if entries.len() > 0 {
        assert(entries[0].namespace@ != namespace);
        let rest = entries.drop_first();
        assert forall|j: int| 0 <= j < rest.len() implies (#[trigger] rest[j]).namespace@ != namespace by {
            assert(rest[j] == entries[j + 1]);
        }
        nothing_cached(rest, space, namespace, scope);
    }
}

// ── Which namespaces a write touched ──────────────────────────────────

/// The namespaces that the running transaction touched, in stored form. Outside a transaction
/// nothing is recorded.
#[derive(Debug)]
pub struct TouchLog {
    current: Option<Vec<String>>,
}

impl TouchLog {
    /// What is recorded now; nothing outside a transaction.
    pub closed spec fn touched(self) -> Option<Seq<Seq<char>>> {
        match self.current {
            Some(list) => Some(chars::texts(list@)),
            None => None,
        }
    }

    /// What is recorded stands in order, each namespace once.
    pub closed spec fn wf(self) -> bool {
        match self.current {
            Some(list) => ordering::strictly_sorted(chars::texts(list@)),
            None => true,
        }
    }

    /// A log outside any transaction.
    pub fn new() -> (out: Self)
        ensures
            out.wf(),
            out.touched() is None,
    {
        TouchLog { current: None }
    }

    /// Begins recording; the result is what was recorded before, to be put back at the end.
    pub fn install(&mut self) -> (previous: TouchLog)
        requires
            old(self).wf(),
        ensures
            final(self).wf(),
            final(self).touched() == Some(Seq::<Seq<char>>::empty()),
            previous.wf(),
            previous.touched() == old(self).touched(),
    {
        let mut fresh: Vec<String> = Vec::new();
        assert(chars::texts(fresh@) == Seq::<Seq<char>>::empty());
        let mut previous = TouchLog { current: Some(fresh) };
        std::mem::swap(self, &mut previous);
        previous
    }

    /// Records a namespace, where recording is on.
    pub fn touch_namespace(&mut self, namespace: &str)
        requires
            old(self).wf(),
        ensures
            final(self).wf(),
            match old(self).touched() {
                None => final(self).touched() is None,
                Some(before) => final(self).touched() is Some && forall|t: Seq<char>| #[trigger] final(self).touched()->0.contains(t) <==> before.contains(t) || t == text::tag_form(namespace@),
            },
    {
        match self.current.take() {
            None => {},
            Some(mut list) => {
                let _new = ordering::insert_sorted(&mut list, text::normalized_tag(namespace));
                self.current = Some(list);
            },
        }
    }

    /// Takes what was recorded; recording is off afterwards.
    pub fn take(&mut self) -> (out: Vec<String>)
        requires
            old(self).wf(),
        ensures
            final(self).touched() is None,
            final(self).wf(),
            ordering::strictly_sorted(chars::texts(out@)),
            chars::texts(out@) == (match old(self).touched() {
                Some(list) => list,
                None => Seq::empty(),
            }),
    {
        match self.current.take() {
            Some(list) => list,
            None => {
                let none: Vec<String> = Vec::new();
                assert(chars::texts(none@) == Seq::<Seq<char>>::empty());
                none
            },
        }
    }
}

/// What a committed write makes stale.
#[derive(Debug)]
pub enum Invalidation {
    Nothing,
    Everything,
    Namespaces(Vec<String>),
}

/// Decides what a committed write makes stale. Rows that changed without a recorded namespace make
/// everything stale: a partition of unknown age is never kept.
pub fn invalidation(rows_changed: bool, touched: Vec<String>) -> (out: Invalidation)
    ensures
        match out {
            Invalidation::Nothing => !rows_changed,
            Invalidation::Everything => rows_changed && touched@.len() == 0,
            Invalidation::Namespaces(list) => rows_changed && touched@.len() > 0 && list@ == touched@,
        },
{
    if !rows_changed {
        Invalidation::Nothing
    } else if touched.len() == 0 {
        Invalidation::Everything
    } else {
        Invalidation::Namespaces(touched)
    }
}

// ── Fall backs that were seen ─────────────────────────────────────────

/// The fall backs after one more was seen: each once, the oldest dropped beyond eight.
pub open spec fn noted(seen: Seq<Degrade>, degrade: Degrade) -> Seq<Degrade> {
    if seen.contains(degrade) {
        seen
    } else if seen.len() >= 8 {
        seen.push(degrade).drop_first()
    } else {
        seen.push(degrade)
    }
}

/// Notes that a search fell back.
pub fn note_degrade(seen: &mut Vec<Degrade>, degrade: Degrade)
    requires
        old(seen).len() < usize::MAX,
    ensures
        final(seen)@ == noted(old(seen)@, degrade),
        final(seen)@.contains(degrade),
        old(seen)@.contains(degrade) ==> final(seen)@ == old(seen)@,
        !old(seen)@.contains(degrade) && old(seen)@.len() < 8 ==> final(seen)@ == old(seen)@.push(degrade),
        !old(seen)@.contains(degrade) && old(seen)@.len() == 8 ==> final(seen)@ == old(seen)@.skip(1).push(degrade),
{
    if types::has_degrade(seen, degrade) {
        return;
    }
    seen.push(degrade);
    assert(seen@.last() == degrade);
    assert(seen@[seen@.len() - 1] == degrade);
    if seen.len() > 8 {
        let _oldest = seen.remove(0);
        assert(seen@ == old(seen)@.push(degrade).drop_first());
        assert(seen@[seen@.len() - 1] == degrade);
        assert(old(seen)@.push(degrade).drop_first() == old(seen)@.skip(1).push(degrade));
    }
}

/// Noting fall backs keeps each once and at most eight.
pub proof fn noted_stays_small(seen: Seq<Degrade>, degrade: Degrade)
    requires
        seen.no_duplicates(),
        seen.len() <= 8,
    ensures
        noted(seen, degrade).no_duplicates(),
        noted(seen, degrade).len() <= 8,
        noted(seen, degrade).contains(degrade),
{
    let out = noted(seen, degrade);
    if !seen.contains(degrade) {
        let pushed = seen.push(degrade);
        assert(out.last() == degrade);
        assert(out[out.len() - 1] == degrade);
    }
}

} // verus!
