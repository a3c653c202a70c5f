//! Preset searches: fixed ways to search memories, the graph and notes at once.
//!
//! Each of the three has a list of its own, in an order of its own. What comes back is limited by
//! characters, since that is what a model is fed with.

use crate::chars;
use crate::error::{Error, ErrorView};
use crate::filling;
use crate::ids;
use crate::index;
use crate::ordering;
use crate::query;
use crate::ranking;
use crate::ranking::Scored;
use crate::search;
use crate::search::SearchRequest;
use crate::storage;
use crate::text;
use crate::types;
use crate::types::{Degrade, MatchField, ReadFilter, RecordKind, SearchDiagnostics};
use vstd::prelude::*;

verus! {

// ── Requests ──────────────────────────────────────────────────────────

/// The preset searches.
#[derive(Debug, Clone, Copy, PartialEq, Eq, Structural)]
pub enum SearchPreset {
    Memory,
    Graph,
    Notes,
    Rag,
    Broad,
}

/// The name of a preset.
pub open spec fn preset_name(preset: SearchPreset) -> Seq<char> {
    match preset {
        SearchPreset::Memory => "memory"@,
        SearchPreset::Graph => "graph"@,
        SearchPreset::Notes => "notes"@,
        SearchPreset::Rag => "rag"@,
        SearchPreset::Broad => "broad"@,
    }
}

/// The error for a name that no preset has.
pub open spec fn preset_error(value: Seq<char>) -> ErrorView {
    ErrorView::Validation("preset must be memory, graph, notes, rag or broad, got "@ + value)
}

impl SearchPreset {
    /// All presets.
    pub fn all() -> (out: Vec<SearchPreset>)
        ensures
            out@ == seq![SearchPreset::Memory, SearchPreset::Graph, SearchPreset::Notes, SearchPreset::Rag, SearchPreset::Broad],
    {
        vec![SearchPreset::Memory, SearchPreset::Graph, SearchPreset::Notes, SearchPreset::Rag, SearchPreset::Broad]
    }

    /// The name of the preset.
    pub fn as_str(self) -> (out: &'static str)
        ensures
            out@ == preset_name(self),
            out@ == match self {
                SearchPreset::Memory => "memory"@,
                SearchPreset::Graph => "graph"@,
                SearchPreset::Notes => "notes"@,
                SearchPreset::Rag => "rag"@,
                SearchPreset::Broad => "broad"@,
            },
    {
        match self {
            SearchPreset::Memory => "memory",
            SearchPreset::Graph => "graph",
            SearchPreset::Notes => "notes",
            SearchPreset::Rag => "rag",
            SearchPreset::Broad => "broad",
        }
    }

    /// The preset of a name.
    pub fn parse(value: &str) -> (out: Result<Self, Error>)
        ensures
            match out {
                Ok(preset) => preset_name(preset) == value@,
                Err(e) => e@ == preset_error(value@) && forall|p: SearchPreset| preset_name(p) != value@,
            },
    {
        if ordering::same_text(value, "memory") {
            return Ok(SearchPreset::Memory);
        }
        if ordering::same_text(value, "graph") {
            return Ok(SearchPreset::Graph);
        }
        if ordering::same_text(value, "notes") {
            return Ok(SearchPreset::Notes);
        }
        if ordering::same_text(value, "rag") {
            return Ok(SearchPreset::Rag);
        }
        if ordering::same_text(value, "broad") {
            return Ok(SearchPreset::Broad);
        }
        Err(Error::Validation(chars::concat("preset must be memory, graph, notes, rag or broad, got ", value)))
    }

    /// Whether memories are searched.
    pub fn uses_memory(self) -> (out: bool)
        ensures
            out == (self == SearchPreset::Memory || self == SearchPreset::Rag || self == SearchPreset::Broad),
    {
        self == SearchPreset::Memory || self == SearchPreset::Rag || self == SearchPreset::Broad
    }

    /// Whether the graph is searched.
    pub fn uses_graph(self) -> (out: bool)
        ensures
            out == (self == SearchPreset::Graph || self == SearchPreset::Rag || self == SearchPreset::Broad),
    {
        self == SearchPreset::Graph || self == SearchPreset::Rag || self == SearchPreset::Broad
    }

    /// Whether notes are searched.
    pub fn uses_notes(self) -> (out: bool)
        ensures
            out == (self == SearchPreset::Notes || self == SearchPreset::Broad),
    {
        self == SearchPreset::Notes || self == SearchPreset::Broad
    }
}

/// Names tell presets apart.
pub proof fn preset_names_differ(a: SearchPreset, b: SearchPreset)
    requires
        preset_name(a) == preset_name(b),
    ensures
        a == b,
{
    reveal_strlit("memory");
    reveal_strlit("graph");
    reveal_strlit("notes");
    reveal_strlit("rag");
    reveal_strlit("broad");
    assert("memory"@.len() == 6 && "rag"@.len() == 3 && "graph"@.len() == 5 && "notes"@.len() == 5 && "broad"@.len() == 5);
    assert("graph"@[0] == 'g' && "notes"@[0] == 'n' && "broad"@[0] == 'b');
}

/// How much each list may hold, in characters; the entities that the graph is walked from, by
/// number.
#[derive(Debug, Clone, Copy, PartialEq, Eq, Structural)]
pub struct PresetBudget {
    pub memory_chars: usize,
    pub notes_chars: usize,
    pub seed_entities: usize,
    pub graph_relations_chars: usize,
    /// For the relations and events around, together.
    pub graph_context_chars: usize,
}

impl Default for PresetBudget {
    fn default() -> (out: Self)
        ensures
            out.memory_chars == 2000 && out.notes_chars == 3000 && out.seed_entities == 4,
            out.graph_relations_chars == 1000 && out.graph_context_chars == 2000,
    {
        PresetBudget { memory_chars: 2000, notes_chars: 3000, seed_entities: 4, graph_relations_chars: 1000, graph_context_chars: 2000 }
    }
}

/// A preset search.
#[derive(Debug)]
pub struct PresetRequest {
    pub preset: SearchPreset,
    pub query: String,
    pub filter: ReadFilter,
    pub embed_space: Option<String>,
    pub text: bool,
    pub vector: bool,
    pub rerank: bool,
    pub budget: PresetBudget,
    /// How many candidates each list starts from.
    pub candidate_limit: usize,
}

impl Default for PresetRequest {
    fn default() -> (out: Self)
        ensures
            out.preset == SearchPreset::Rag,
            out.query@ == Seq::<char>::empty(),
            out.filter@ == types::default_filter(),
            out.embed_space is None,
            out.text && out.vector && out.rerank,
            out.candidate_limit == 64,
            out.budget.memory_chars == 2000 && out.budget.notes_chars == 3000 && out.budget.seed_entities == 4,
            out.budget.graph_relations_chars == 1000 && out.budget.graph_context_chars == 2000,
    {
        PresetRequest {
            preset: SearchPreset::Rag,
            query: String::new(),
            filter: ReadFilter::default(),
            embed_space: None,
            text: true,
            vector: true,
            rerank: true,
            budget: PresetBudget::default(),
            candidate_limit: 64,
        }
    }
}

/// What is wrong with a preset search, the first fault only.
pub open spec fn preset_request_error(r: PresetRequest) -> Option<ErrorView> {
    if chars::blank(r.query@) {
        Some(ErrorView::Validation("a text query is required"@))
    } else if storage::filter_error(r.filter@) is Some {
        storage::filter_error(r.filter@)
    } else if r.budget.seed_entities == 0 {
        Some(ErrorView::Validation("seed_entities must be at least 1"@))
    } else if r.candidate_limit == 0 {
        Some(ErrorView::Validation("candidate_limit must be at least 1"@))
    } else {
        None
    }
}

/// Checks a preset search and gives its query without the white space around it.
pub fn check_preset(r: &PresetRequest) -> (out: Result<String, Error>)
    ensures
        storage::refused(out, preset_request_error(*r)),
        out matches Ok(query) ==> query@ == chars::trim(r.query@),
        out is Ok <==> !chars::blank(r.query@) && storage::filter_error(r.filter@) is None && r.budget.seed_entities >= 1
            && r.candidate_limit >= 1,
{
    let query = chars::trimmed(r.query.as_str());
    proof {
        chars::trim_empty_iff_blank(r.query@);
    }
    if query.as_str().unicode_len() == 0 {
        return Err(Error::Validation("a text query is required".to_owned()));
    }
    storage::validate_filter(&r.filter)?;
    if r.budget.seed_entities == 0 {
        return Err(Error::Validation("seed_entities must be at least 1".to_owned()));
    }
    if r.candidate_limit == 0 {
        return Err(Error::Validation("candidate_limit must be at least 1".to_owned()));
    }
    Ok(query)
}

/// The search behind one list of a preset search.
pub fn inner_request(r: &PresetRequest, query: &str, kind: RecordKind, field: MatchField) -> (out: SearchRequest)
    ensures
        out.query@ == query@,
        out.filter@ == r.filter@,
        out.kinds@ == seq![kind],
        out.limit == r.candidate_limit,
        types::optional_text(out.embed_space) == types::optional_text(r.embed_space),
        out.text == r.text && out.vector == r.vector && out.rerank == r.rerank,
        out.match_field == field,
        out.candidate_limit is None && out.prune is None && !out.with_total,
        out.text_weight == crate::bits::ONE_BITS && out.top_chunks_per_note == 3,
{
    let mut out = SearchRequest::default();
    out.query = query.to_owned();
    out.filter = r.filter.copy();
    out.kinds = vec![kind];
    out.limit = r.candidate_limit;
    out.embed_space = types::copy_optional(&r.embed_space);
    out.text = r.text;
    out.vector = r.vector;
    out.rerank = r.rerank;
    out.match_field = field;
    assert(out.kinds@ == seq![kind]);
    out
}

/// The fall backs of both, each once.
pub open spec fn degrades_joined(a: Seq<Degrade>, b: Seq<Degrade>) -> Seq<Degrade>
    decreases b.len(),
{
    if b.len() == 0 {
        a
    } else {
        let before = degrades_joined(a, b.drop_last());
        if before.contains(b.last()) {
            before
        } else {
            before.push(b.last())
        }
    }
}

/// Joined fall backs are those of both: the first list stays as it is, every member of the second
/// is there, and none twice that was not there twice before.
pub proof fn joining_is_right(a: Seq<Degrade>, b: Seq<Degrade>)
    ensures
        forall|d: Degrade| #[trigger] degrades_joined(a, b).contains(d) <==> a.contains(d) || b.contains(d),
        a.is_prefix_of(degrades_joined(a, b)),
        a.no_duplicates() ==> degrades_joined(a, b).no_duplicates(),
    decreases b.len(),
{
    if b.len() > 0 {
        let before = degrades_joined(a, b.drop_last());
        let all = degrades_joined(a, b);
        joining_is_right(a, b.drop_last());
        assert forall|d: Degrade| #[trigger] all.contains(d) <==> a.contains(d) || b.contains(d) by {
            if b.drop_last().contains(d) {
                let k = choose|k: int| 0 <= k < b.drop_last().len() && b.drop_last()[k] == d;
                assert(b[k] == d);
            }
            if b.contains(d) && !b.drop_last().contains(d) {
                let k = choose|k: int| 0 <= k < b.len() && b[k] == d;
                if k < b.len() - 1 {
                    assert(b.drop_last()[k] == d);
                }
                assert(d == b.last());
            }
            if before.contains(d) {
                let k = choose|k: int| 0 <= k < before.len() && before[k] == d;
                assert(all[k] == d);
            }
            if all.contains(d) && !before.contains(d) {
                let k = choose|k: int| 0 <= k < all.len() && all[k] == d;
                if k < before.len() {
                    assert(before[k] == d);
                }
                assert(d == b.last());
                assert(b[b.len() - 1] == d);
            }
            if d == b.last() && !before.contains(d) {
                assert(all[before.len() as int] == d);
            }
        }
    }
}

/// Joins the diagnostics of one list into those of the whole: a means counts as used where any list
/// used it, counts add up, and each fall back is named once.
pub fn merge_diagnostics(target: &mut SearchDiagnostics, source: &SearchDiagnostics)
    ensures
        final(target).text_used == (old(target).text_used || source.text_used),
        final(target).vector_used == (old(target).vector_used || source.vector_used),
        final(target).reranked == (old(target).reranked || source.reranked),
        final(target).rerank_candidates == filling::count_sum(old(target).rerank_candidates, source.rerank_candidates),
        final(target).rerank_truncated == filling::count_sum(old(target).rerank_truncated, source.rerank_truncated),
        final(target).degraded@ == degrades_joined(old(target).degraded@, source.degraded@),
        forall|d: Degrade| #[trigger]
            final(target).degraded@.contains(d) <==> old(target).degraded@.contains(d) || source.degraded@.contains(d),
        old(target).degraded@.is_prefix_of(final(target).degraded@),
        old(target).degraded@.no_duplicates() ==> final(target).degraded@.no_duplicates(),
{
    proof {
        joining_is_right(target.degraded@, source.degraded@);
    }
    target.text_used = target.text_used || source.text_used;
    target.vector_used = target.vector_used || source.vector_used;
    target.reranked = target.reranked || source.reranked;
    target.rerank_candidates = filling::add_counts(target.rerank_candidates, source.rerank_candidates);
    target.rerank_truncated = filling::add_counts(target.rerank_truncated, source.rerank_truncated);
    let ghost start = target.degraded@;
    let ghost flags = *target;
    let mut i: usize = 0;
    assert(source.degraded@.take(0) == Seq::<Degrade>::empty());
    while i < source.degraded.len()
        invariant
            i <= source.degraded.len(),
            target.degraded@ == degrades_joined(start, source.degraded@.take(i as int)),
            target.text_used == flags.text_used && target.vector_used == flags.vector_used && target.reranked == flags.reranked,
            target.rerank_candidates == flags.rerank_candidates && target.rerank_truncated == flags.rerank_truncated,
        decreases source.degraded.len() - i,
    {
        assert(source.degraded@.take(i + 1).drop_last() == source.degraded@.take(i as int));
        if !types::has_degrade(&target.degraded, source.degraded[i]) {
            target.degraded.push(source.degraded[i]);
        }
        i = i + 1;
    }
    assert(source.degraded@.take(source.degraded@.len() as int) == source.degraded@);
}

// ── Limits by characters ──────────────────────────────────────────────

/// How many items fit from the front, after `taken` of them used `used` characters. The first always
/// fits: a budget that is a little too small does not empty a list.
pub open spec fn fitting(lengths: Seq<(i64, usize)>, chars: int, taken: int, used: int) -> int
    decreases lengths.len() - taken,
{
    if taken < 0 || taken >= lengths.len() {
        taken
    } else if taken > 0 && used + lengths[taken].1 > chars {
        taken
    } else {
        fitting(lengths, chars, taken + 1, used + lengths[taken].1)
    }
}

/// How many items are kept.
pub open spec fn kept_count(lengths: Seq<(i64, usize)>, chars: int) -> int {
    if chars == 0 {
        0
    } else {
        fitting(lengths, chars, 0, 0)
    }
}

/// The characters of the first `n` items.
pub open spec fn total_chars(lengths: Seq<(i64, usize)>, n: int) -> int
    decreases n,
{
    if n <= 0 {
        0
    } else {
        total_chars(lengths, n - 1) + lengths[n - 1].1
    }
}

/// Keeps the items that fit into a number of characters, in order, and gives how many characters
/// they have. The first item that does not fit ends the list: shorter ones behind it do not slip in.
pub fn cap_by_chars(lengths: &Vec<(i64, usize)>, chars: usize) -> (out: (Vec<i64>, usize))
    ensures
        out.0@ == Seq::new(kept_count(lengths@, chars as int) as nat, |i: int| lengths@[i].0),
        out.1 == total_chars(lengths@, kept_count(lengths@, chars as int)),
        0 <= kept_count(lengths@, chars as int) <= lengths@.len(),
        capped(lengths@, chars as int, out.0@, out.1 as int),
{
    proof {
        cap_is_kept(lengths@, chars as int);
    }
    let mut kept: Vec<i64> = Vec::new();
    if chars == 0 {
        assert(kept@ == Seq::new(0nat, |i: int| lengths@[i].0));
        return (kept, 0);
    }
    let mut used: usize = 0;
    let mut i: usize = 0;
    let mut full = false;
    assert(kept@ == Seq::new(0nat, |k: int| lengths@[k].0));
    while i < lengths.len() && !full
        invariant
            i <= lengths.len(),
            chars > 0,
            kept@ == Seq::new(i as nat, |k: int| lengths@[k].0),
            used == total_chars(lengths@, i as int),
            if full {
                fitting(lengths@, chars as int, 0, 0) == i
            } else {
                fitting(lengths@, chars as int, 0, 0) == fitting(lengths@, chars as int, i as int, used as int)
            },
            i == 0 ==> used == 0,
        decreases lengths.len() - i, (if full { 0int } else { 1int }),
    {
        let length: usize = lengths[i].1;
        if i > 0 && (used > chars || length > chars - used) {
            full = true;
        } else {
            used = used + length;
            kept.push(lengths[i].0);
            i = i + 1;
            assert(kept@ == Seq::new(i as nat, |k: int| lengths@[k].0));
        }
    }
    (kept, used)
}

/// The characters of a list of items add up: no items have none, and one more item adds its own.
pub proof fn total_chars_adds_up(lengths: Seq<(i64, usize)>, n: int)
    requires
        0 <= n < lengths.len(),
    ensures
        total_chars(lengths, 0) == 0,
        total_chars(lengths, n + 1) == total_chars(lengths, n) + lengths[n].1,
        total_chars(lengths, n) >= 0,
    decreases n,
{
    if n > 0 {
        total_chars_adds_up(lengths, n - 1);
    }
}

/// A list was cut where it has to be: what is kept is the front of the list. Nothing is kept for no
/// characters, else the first item at least. More than one item fits the characters, and the list
/// ends only where the next item would not.
pub open spec fn capped(lengths: Seq<(i64, usize)>, chars: int, kept: Seq<i64>, used: int) -> bool {
    let n = kept.len() as int;
    &&& n <= lengths.len()
    &&& forall|i: int| 0 <= i < n ==> #[trigger] kept[i] == lengths[i].0
    &&& used == total_chars(lengths, n)
    &&& chars == 0 ==> n == 0
    &&& chars > 0 && lengths.len() > 0 ==> n >= 1
    &&& n > 1 ==> total_chars(lengths, n) <= chars
    &&& chars > 0 && n < lengths.len() ==> total_chars(lengths, n) + lengths[n].1 > chars
}

proof fn fitting_bounds(lengths: Seq<(i64, usize)>, chars: int, taken: int, used: int)
    requires
        0 <= taken <= lengths.len(),
    ensures
        taken <= fitting(lengths, chars, taken, used) <= lengths.len(),
        taken > 0 && used <= chars ==> used - total_chars(lengths, taken) + total_chars(lengths, fitting(lengths, chars, taken, used)) <= chars,
    decreases lengths.len() - taken,
{
    if taken < lengths.len() && !(taken > 0 && used + lengths[taken].1 > chars) {
        fitting_bounds(lengths, chars, taken + 1, used + lengths[taken].1);
    }
}

proof fn fitting_stops(lengths: Seq<(i64, usize)>, chars: int, taken: int, used: int)
    requires
        0 <= taken <= lengths.len(),
        used == total_chars(lengths, taken),
    ensures
        fitting(lengths, chars, taken, used) < lengths.len() ==> total_chars(lengths, fitting(lengths, chars, taken, used)) + lengths[fitting(
            lengths,
            chars,
            taken,
            used,
        )].1 > chars,
    decreases lengths.len() - taken,
{
    if taken < lengths.len() && !(taken > 0 && used + lengths[taken].1 > chars) {
        total_chars_adds_up(lengths, taken);
        fitting_stops(lengths, chars, taken + 1, used + lengths[taken].1);
    }
}

/// A list of items is cut by characters exactly where the next item does not fit, and no characters at
/// all keep nothing.
pub proof fn cap_is_kept(lengths: Seq<(i64, usize)>, chars: int)
    requires
        chars >= 0,
    ensures
        ({
            let n = kept_count(lengths, chars);
            &&& 0 <= n <= lengths.len()
            &&& capped(lengths, chars, Seq::new(n as nat, |i: int| lengths[i].0), total_chars(lengths, n))
        }),
        chars == 0 ==> kept_count(lengths, chars) == 0,
        chars > 0 && lengths.len() > 0 ==> kept_count(lengths, chars) >= 1,
        kept_count(lengths, chars) > 1 ==> total_chars(lengths, kept_count(lengths, chars)) <= chars,
{
    if chars > 0 && lengths.len() > 0 {
        let first = lengths[0].1 as int;
        total_chars_adds_up(lengths, 0);
        assert(fitting(lengths, chars, 0, 0) == fitting(lengths, chars, 1, first));
        fitting_bounds(lengths, chars, 1, first);
        fitting_stops(lengths, chars, 1, first);
        if first > chars && lengths.len() > 1 {
            assert(fitting(lengths, chars, 1, first) == 1);
        }
    }
}

// ── The graph ─────────────────────────────────────────────────────────

/// The greatest length of a name that stands at the front of a text; zero where none does.
pub open spec fn name_at(s: Seq<char>, names: Seq<Seq<char>>) -> nat
    decreases names.len(),
{
    if names.len() == 0 {
        0
    } else {
        let before = name_at(s, names.drop_last());
        let name = names.last();
        if name.len() > before && chars::stands_at(s, name, 0) {
            name.len()
        } else {
            before
        }
    }
}

proof fn name_at_bound(s: Seq<char>, names: Seq<Seq<char>>)
    ensures
        name_at(s, names) <= s.len(),
    decreases names.len(),
{
    if names.len() > 0 {
        name_at_bound(s, names.drop_last());
    }
}

/// A text with each name taken out, the longest at each place, and a blank in its stead.
pub open spec fn remainder(s: Seq<char>, names: Seq<Seq<char>>) -> Seq<char>
    decreases s.len(),
    via remainder_shrinks
{
    if s.len() == 0 {
        s
    } else if name_at(s, names) > 0 {
        seq![' '] + remainder(s.skip(name_at(s, names) as int), names)
    } else {
        seq![s[0]] + remainder(s.skip(1), names)
    }
}

#[via_fn]
proof fn remainder_shrinks(s: Seq<char>, names: Seq<Seq<char>>) {
    name_at_bound(s, names);
}

/// Texts in stored form.
pub open spec fn stored_forms(names: Seq<Seq<char>>) -> Seq<Seq<char>> {
    Seq::new(names.len(), |i: int| text::tag_form(names[i]))
}

/// Names count by the form they are stored in: lists of names of the same forms leave the same of a query.
pub proof fn names_count_by_their_form(query: Seq<char>, a: Seq<Seq<char>>, b: Seq<Seq<char>>)
    requires
        a.len() == b.len(),
        forall|i: int| 0 <= i < a.len() ==> text::tag_form(#[trigger] a[i]) == text::tag_form(b[i]),
    ensures
        stored_forms(a) == stored_forms(b),
        remainder(text::tag_form(query), stored_forms(a)) == remainder(text::tag_form(query), stored_forms(b)),
        stored_forms(a).len() == a.len(),
        forall|i: int| 0 <= i < a.len() ==> #[trigger] stored_forms(a)[i] == text::tag_form(a[i]),
{
    assert(stored_forms(a) =~= stored_forms(b));
}

/// What of a query asks for relations: the query without the names of the entities that it found.
pub fn query_remainder(query: &str, names: &Vec<String>) -> (out: String)
    ensures
        out@ == remainder(text::tag_form(query@), stored_forms(chars::texts(names@))),
{
    let normal = text::normalized_tag(query);
    let whole = chars::chars_of(normal.as_str());
    let ghost s = whole@;
    let ghost forms = stored_forms(chars::texts(names@));
    let mut parts: Vec<Vec<char>> = Vec::new();
    let mut n: usize = 0;
    while n < names.len()
        invariant
            n <= names.len(),
            forms == stored_forms(chars::texts(names@)),
            chars::line_views(parts@) == forms.take(n as int),
        decreases names.len() - n,
    {
        let ghost before = chars::line_views(parts@);
        let form = text::normalized_tag(names[n].as_str());
        parts.push(chars::chars_of(form.as_str()));
        assert(chars::line_views(parts@) == before.push(forms[n as int]));
        assert(forms.take(n + 1) == forms.take(n as int).push(forms[n as int]));
        n = n + 1;
    }
    assert(forms.take(forms.len() as int) == forms);
    let mut out: Vec<char> = Vec::new();
    let mut i: usize = 0;
    assert(s.skip(0) == s);
    assert(out@ + remainder(s.skip(0), forms) == remainder(s, forms));
    while i < whole.len()
        invariant
            i <= whole.len(),
            s == whole@,
            chars::line_views(parts@) == forms,
            out@ + remainder(s.skip(i as int), forms) == remainder(s, forms),
        decreases whole.len() - i,
    {
        let ghost rest = s.skip(i as int);
        let ghost before = out@;
        let mut longest: usize = 0;
        let mut k: usize = 0;
        assert(forms.take(0) == Seq::<Seq<char>>::empty());
        while k < parts.len()
            invariant
                k <= parts.len(),
                i < whole.len(),
                s == whole@,
                rest == s.skip(i as int),
                chars::line_views(parts@) == forms,
                longest == name_at(rest, forms.take(k as int)),
            decreases parts.len() - k,
        {
            proof {
                assert(forms.take(k + 1).drop_last() == forms.take(k as int));
                assert(forms.take(k + 1).last() == parts@[k as int]@);
                stands_shifted(s, parts@[k as int]@, i as int);
            }
            if parts[k].len() > longest && chars::is_at(&whole, &parts[k], i) {
                longest = parts[k].len();
            }
            k = k + 1;
        }
        proof {
            assert(forms.take(forms.len() as int) == forms);
            name_at_bound(rest, forms);
            assert(rest[0] == s[i as int]);
        }
        if longest > 0 {
            out.push(' ');
            proof {
                assert(rest.skip(longest as int) == s.skip(i + longest));
                assert(before.push(' ') + remainder(s.skip(i + longest), forms) == before + (seq![' '] + remainder(rest.skip(longest as int), forms)));
            }
            i = i + longest;
        } else {
            out.push(whole[i]);
            proof {
                assert(rest.skip(1) == s.skip(i + 1));
                assert(before.push(s[i as int]) + remainder(s.skip(i + 1), forms) == before + (seq![rest[0]] + remainder(rest.skip(1), forms)));
            }
            i = i + 1;
        }
    }
    assert(remainder(s.skip(whole.len() as int), forms) == Seq::<char>::empty());
    assert(out@ == remainder(s, forms));
    chars::string_of(&out)
}

proof fn stands_shifted(s: Seq<char>, part: Seq<char>, at: int)
    requires
        0 <= at <= s.len(),
    ensures
        chars::stands_at(s, part, at) <==> chars::stands_at(s.skip(at), part, 0),
{
    if at + part.len() <= s.len() {
        assert(s.subrange(at, at + part.len()) == s.skip(at).subrange(0, part.len() as int));
    }
}

/// A query that is nothing but a name leaves nothing to ask for.
pub proof fn pure_name_leaves_nothing(s: Seq<char>, names: Seq<Seq<char>>)
    requires
        s.len() > 0,
        names.contains(s),
    ensures
        remainder(s, names) == seq![' '],
{
    name_at_whole(s, names);
    assert(s.skip(s.len() as int) == Seq::<char>::empty());
    assert(remainder(Seq::<char>::empty(), names) == Seq::<char>::empty());
    assert(remainder(s, names) == seq![' ']);
}

proof fn name_at_whole(s: Seq<char>, names: Seq<Seq<char>>)
    requires
        s.len() > 0,
        names.contains(s),
    ensures
        name_at(s, names) == s.len(),
    decreases names.len(),
{
    name_at_bound(s, names);
    let k = choose|k: int| 0 <= k < names.len() && names[k] == s;
    name_at_bound(s, names.drop_last());
    if k == names.len() - 1 {
        assert(s.subrange(0, s.len() as int) == s);
        assert(chars::stands_at(s, s, 0));
    } else {
        assert(names.drop_last()[k] == s);
        name_at_whole(s, names.drop_last());
    }
}

/// The name that is taken out stands at the front, and none that stands there is longer.
pub proof fn longest_name_is_taken(s: Seq<char>, names: Seq<Seq<char>>)
    ensures
        name_at(s, names) > 0 ==> exists|k: int|
            0 <= k < names.len() && (#[trigger] names[k]).len() == name_at(s, names) && chars::stands_at(s, names[k], 0),
        forall|k: int| 0 <= k < names.len() && chars::stands_at(s, #[trigger] names[k], 0) ==> names[k].len() <= name_at(s, names),
    decreases names.len(),
{
    if names.len() > 0 {
        let before = names.drop_last();
        let n = names.len() - 1;
        longest_name_is_taken(s, before);
        if name_at(s, names) == name_at(s, before) && name_at(s, before) > 0 {
            let k = choose|k: int|
                0 <= k < before.len() && (#[trigger] before[k]).len() == name_at(s, before) && chars::stands_at(s, before[k], 0);
            assert(names[k] == before[k]);
        } else if name_at(s, names) > 0 {
            assert(names[n].len() == name_at(s, names));
        }
        assert forall|k: int| 0 <= k < names.len() && chars::stands_at(s, #[trigger] names[k], 0) implies names[k].len() <= name_at(
            s,
            names,
        ) by {
            if k < n {
                assert(before[k] == names[k]);
            }
        }
    }
}

/// Where no name stands, a character stays as it is; where one does, the longest that stands there
/// becomes one blank. Nothing else happens to a query.
pub proof fn names_become_blanks(s: Seq<char>, names: Seq<Seq<char>>, k: int)
    requires
        s.len() > 0,
    ensures
        (forall|j: int| 0 <= j < names.len() && (#[trigger] names[j]).len() > 0 ==> !chars::stands_at(s, names[j], 0)) ==> remainder(s, names)
            == seq![s[0]] + remainder(s.skip(1), names),
        0 <= k < names.len() && names[k].len() > 0 && chars::stands_at(s, names[k], 0) && (forall|j: int|
            0 <= j < names.len() && chars::stands_at(s, #[trigger] names[j], 0) ==> names[j].len() <= names[k].len()) ==> remainder(s, names)
            == seq![' '] + remainder(s.skip(names[k].len() as int), names),
{
    longest_name_is_taken(s, names);
}

/// A query in which no name stands stays as it is.
pub proof fn without_names_all_remains(s: Seq<char>, names: Seq<Seq<char>>)
    requires
        forall|at: int, j: int| 0 <= at <= s.len() && 0 <= j < names.len() && names[j].len() > 0 ==> !#[trigger] chars::stands_at(s, names[j], at),
    ensures
        remainder(s, names) == s,
    decreases s.len(),
{
    if s.len() > 0 {
        let rest = s.skip(1);
        assert forall|at: int, j: int| 0 <= at <= rest.len() && 0 <= j < names.len() && names[j].len() > 0 implies !#[trigger] chars::stands_at(
            rest,
            names[j],
            at,
        ) by {
            stands_shifted(s, names[j], at + 1);
            stands_shifted(rest, names[j], at);
            assert(rest.skip(at) == s.skip(at + 1));
            assert(!chars::stands_at(s, names[j], at + 1));
        }
        without_names_all_remains(rest, names);
        assert forall|j: int| 0 <= j < names.len() && (#[trigger] names[j]).len() > 0 implies !chars::stands_at(s, names[j], 0) by {
            assert(!chars::stands_at(s, names[j], 0));
        }
        names_become_blanks(s, names, 0);
        assert(s == seq![s[0]] + rest);
    }
}

/// What one token adds to the weight of a text: two where it is longer than one character.
pub open spec fn term_weight(present: Seq<Seq<char>>, token: Seq<char>) -> nat {
    if !present.contains(token) {
        0
    } else if token.len() > 1 {
        2
    } else {
        1
    }
}

/// The weight of a text for the first `n` tokens of a query.
pub open spec fn weight(present: Seq<Seq<char>>, tokens: Seq<Seq<char>>, n: nat) -> nat
    decreases n,
{
    if n == 0 || n > tokens.len() {
        0
    } else {
        weight(present, tokens, (n - 1) as nat) + term_weight(present, tokens[n - 1])
    }
}

/// A text has weight exactly where it holds one of the tokens. Each token that it holds adds one,
/// and one more where it is longer than a character; the others add nothing.
pub proof fn weight_counts_what_is_there(present: Seq<Seq<char>>, tokens: Seq<Seq<char>>, n: nat)
    requires
        n <= tokens.len(),
    ensures
        weight(present, tokens, n) > 0 <==> exists|i: int| 0 <= i < n && present.contains(#[trigger] tokens[i]),
        weight(present, tokens, n) <= 2 * n,
        n > 0 && !present.contains(tokens[n - 1]) ==> weight(present, tokens, n) == weight(present, tokens, (n - 1) as nat),
        n > 0 && present.contains(tokens[n - 1]) && tokens[n - 1].len() <= 1 ==> weight(present, tokens, n) == weight(
            present,
            tokens,
            (n - 1) as nat,
        ) + 1,
        n > 0 && present.contains(tokens[n - 1]) && tokens[n - 1].len() > 1 ==> weight(present, tokens, n) == weight(
            present,
            tokens,
            (n - 1) as nat,
        ) + 2,
    decreases n,
{
    if n > 0 {
        weight_counts_what_is_there(present, tokens, (n - 1) as nat);
        if weight(present, tokens, (n - 1) as nat) > 0 {
            let i = choose|i: int| 0 <= i < n - 1 && present.contains(#[trigger] tokens[i]);
            assert(present.contains(tokens[i]));
        }
    }
}

/// The weight of a text for the tokens of a query.
pub fn token_weight(body: &str, tokens: &Vec<String>) -> (out: u128)
    ensures
        out == weight(text::tokens(text::normalized(body@)), chars::texts(tokens@), tokens@.len()),
{
    let present = text::tokenize(body);
    let ghost all = chars::texts(tokens@);
    let mut total: u128 = 0;
    let mut i: usize = 0;
    while i < tokens.len()
        invariant
            i <= tokens.len(),
            all == chars::texts(tokens@),
            total == weight(chars::texts(present@), all, i as nat),
            total <= 2 * i,
        decreases tokens.len() - i,
    {
        assert(all[i as int] == tokens@[i as int]@);
        if ordering::holds(&present, tokens[i].as_str()) {
            if tokens[i].as_str().unicode_len() > 1 {
                total = total + 2;
            } else {
                total = total + 1;
            }
        }
        i = i + 1;
    }
    total
}

/// A relation and its text.
#[derive(Debug)]
pub struct RelationText {
    pub id: i64,
    pub text: String,
}

/// The ids of relations.
pub open spec fn relation_ids(rows: Seq<RelationText>) -> Seq<i64> {
    Seq::new(rows.len(), |i: int| rows[i].id)
}

/// A weight as a score.
pub open spec fn weight_score(w: nat) -> i64 {
    if w <= i64::MAX {
        w as i64
    } else {
        i64::MAX
    }
}

/// The relations that the tokens of a query hit, with their weights.
pub open spec fn weighed(rows: Seq<RelationText>, tokens: Seq<Seq<char>>) -> Seq<Scored>
    decreases rows.len(),
{
    if rows.len() == 0 {
        Seq::empty()
    } else {
        let before = weighed(rows.drop_last(), tokens);
        let w = weight(text::tokens(text::normalized(rows.last().text@)), tokens, tokens.len());
        if w > 0 {
            before.push(Scored { id: rows.last().id, score: weight_score(w) })
        } else {
            before
        }
    }
}

/// A relation is ranked exactly where it holds a token of the query, with its weight as score.
pub proof fn hit_relations_are_weighed(rows: Seq<RelationText>, tokens: Seq<Seq<char>>, x: Scored)
    ensures
        weighed(rows, tokens).contains(x) <==> exists|i: int|
            0 <= i < rows.len() && (#[trigger] rows[i]).id == x.id && ({
                let present = text::tokens(text::normalized(rows[i].text@));
                &&& exists|k: int| 0 <= k < tokens.len() && present.contains(#[trigger] tokens[k])
                &&& x.score == weight_score(weight(present, tokens, tokens.len()))
            }),
        weighed(rows, tokens).len() <= rows.len(),
    decreases rows.len(),
{
    let all = weighed(rows, tokens);
    if rows.len() > 0 {
        let n = rows.len() - 1;
        let before = rows.drop_last();
        let kept = weighed(before, tokens);
        let last = text::tokens(text::normalized(rows.last().text@));
        hit_relations_are_weighed(before, tokens, x);
        weight_counts_what_is_there(last, tokens, tokens.len());
        assert(rows[n] == rows.last());
        if kept.contains(x) {
            let i = choose|i: int|
                0 <= i < before.len() && (#[trigger] before[i]).id == x.id && ({
                    let present = text::tokens(text::normalized(before[i].text@));
                    &&& exists|k: int| 0 <= k < tokens.len() && present.contains(#[trigger] tokens[k])
                    &&& x.score == weight_score(weight(present, tokens, tokens.len()))
                });
            assert(rows[i] == before[i]);
            let k = choose|k: int| 0 <= k < kept.len() && kept[k] == x;
            assert(all[k] == x);
        }
        if all.contains(x) && !kept.contains(x) {
            let k = choose|k: int| 0 <= k < all.len() && all[k] == x;
            if k < kept.len() {
                assert(kept[k] == x);
            }
        }
        if exists|i: int|
            0 <= i < rows.len() && (#[trigger] rows[i]).id == x.id && ({
                let present = text::tokens(text::normalized(rows[i].text@));
                &&& exists|k: int| 0 <= k < tokens.len() && present.contains(#[trigger] tokens[k])
                &&& x.score == weight_score(weight(present, tokens, tokens.len()))
            }) {
            let i = choose|i: int|
                0 <= i < rows.len() && (#[trigger] rows[i]).id == x.id && ({
                    let present = text::tokens(text::normalized(rows[i].text@));
                    &&& exists|k: int| 0 <= k < tokens.len() && present.contains(#[trigger] tokens[k])
                    &&& x.score == weight_score(weight(present, tokens, tokens.len()))
                });
            if i < n {
                assert(before[i] == rows[i]);
                assert(kept.contains(x));
            } else {
                assert(all == kept.push(x));
                assert(all[kept.len() as int] == x);
            }
        }
    }
}

/// The relations that a query hits, the heaviest first and the smaller id first where weights are
/// equal. A query without any token keeps them all, as they stand.
pub fn rank_relations_by_query(rows: &Vec<RelationText>, query: &str) -> (out: Vec<i64>)
    ensures
        ({
            let tokens = text::kept_terms(text::tokens(text::normalized(query@)), true);
            out@ == (if tokens.len() == 0 {
                relation_ids(rows@)
            } else {
                search::scored_ids(ranking::ranked(weighed(rows@, tokens)))
            })
        }),
{
    let tokens = text::query_terms(query, true);
    let ghost list = chars::texts(tokens@);
    if tokens.len() == 0 {
        let mut out: Vec<i64> = Vec::new();
        let mut i: usize = 0;
        while i < rows.len()
            invariant
                i <= rows.len(),
                out@ == relation_ids(rows@).take(i as int),
            decreases rows.len() - i,
        {
            out.push(rows[i].id);
            assert(relation_ids(rows@).take(i + 1) == relation_ids(rows@).take(i as int).push(rows@[i as int].id));
            i = i + 1;
        }
        assert(relation_ids(rows@).take(rows@.len() as int) == relation_ids(rows@));
        return out;
    }
    let mut scored: Vec<Scored> = Vec::new();
    let mut i: usize = 0;
    assert(rows@.take(0) == Seq::<RelationText>::empty());
    while i < rows.len()
        invariant
            i <= rows.len(),
            list == chars::texts(tokens@),
            scored@ == weighed(rows@.take(i as int), list),
        decreases rows.len() - i,
    {
        assert(rows@.take(i + 1).drop_last() == rows@.take(i as int));
        let w: u128 = token_weight(rows[i].text.as_str(), &tokens);
        if w > 0 {
            let score: i64 = if w <= 0x7fff_ffff_ffff_ffff { w as i64 } else { i64::MAX };
            scored.push(Scored { id: rows[i].id, score });
        }
        i = i + 1;
    }
    assert(rows@.take(rows@.len() as int) == rows@);
    search::order_by_score(&scored)
}

/// The entities that the walk starts from: the first of those found.
pub fn seeds_of(found: &Vec<i64>, most: usize) -> (out: Vec<i64>)
    ensures
        out@ == (if found@.len() <= most { found@ } else { found@.take(most as int) }),
{
    let mut out = types::copy_ids(found);
    if out.len() > most {
        out.truncate(most);
    }
    out
}

/// The entities that the surroundings are taken between: those that the walk started from, and the
/// ends of the relations that were hit, in ascending order, each once.
pub fn members(seeds: &Vec<i64>, ends: &Vec<(i64, i64)>) -> (out: Vec<i64>)
    ensures
        query::increasing(out@),
        forall|e: i64| #[trigger]
            out@.contains(e) <==> seeds@.contains(e) || exists|i: int| 0 <= i < ends@.len() && ((#[trigger] ends@[i]).0 == e || ends@[i].1 == e),
{
    let mut out = ids::sorted_ids(seeds);
    let mut i: usize = 0;
    while i < ends.len()
        invariant
            i <= ends.len(),
            query::increasing(out@),
            forall|e: i64| #[trigger]
                out@.contains(e) <==> seeds@.contains(e) || exists|k: int| 0 <= k < i && ((#[trigger] ends@[k]).0 == e || ends@[k].1 == e),
        decreases ends.len() - i,
    {
        let ghost before = out@;
        let pair = ends[i];
        let _first = ids::insert_id(&mut out, pair.0);
        let ghost middle = out@;
        let _second = ids::insert_id(&mut out, pair.1);
        assert forall|e: i64| #[trigger]
            out@.contains(e) <==> seeds@.contains(e) || exists|k: int| 0 <= k < i + 1 && ((#[trigger] ends@[k]).0 == e || ends@[k].1 == e) by {
            assert(out@.contains(e) <==> middle.contains(e) || e == pair.1);
            assert(middle.contains(e) <==> before.contains(e) || e == pair.0);
            if before.contains(e) && !seeds@.contains(e) {
                let k = choose|k: int| 0 <= k < i && ((#[trigger] ends@[k]).0 == e || ends@[k].1 == e);
                assert(ends@[k].0 == e || ends@[k].1 == e);
            }
            assert(ends@[i as int] == pair);
        }
        i = i + 1;
    }
    out
}

/// What lies between the members: their relations without those that were hit, then their events,
/// which share one limit of characters.
pub fn graph_context(between: &Vec<(i64, usize)>, events: &Vec<(i64, usize)>, chars: usize) -> (out: (Vec<i64>, Vec<i64>))
    ensures
        ({
            let relations = kept_count(between@, chars as int);
            let used = total_chars(between@, relations);
            let left = if used >= chars { 0 } else { chars - used };
            &&& out.0@ == Seq::new(relations as nat, |i: int| between@[i].0)
            &&& out.1@ == Seq::new(kept_count(events@, left) as nat, |i: int| events@[i].0)
        }),
        capped(between@, chars as int, out.0@, total_chars(between@, out.0@.len() as int)),
        capped(
            events@,
            if total_chars(between@, out.0@.len() as int) >= chars {
                0
            } else {
                chars - total_chars(between@, out.0@.len() as int)
            },
            out.1@,
            total_chars(events@, out.1@.len() as int),
        ),
{
    let (relations, used) = cap_by_chars(between, chars);
    let left: usize = if used >= chars { 0 } else { chars - used };
    let (kept, _used) = cap_by_chars(events, left);
    (relations, kept)
}

// ── Notes ─────────────────────────────────────────────────────────────

/// The notes of a preset search: found by name, by content, and by directory where names are not
/// enough.
#[derive(Debug)]
pub struct NoteSection {
    pub titles: Vec<i64>,
    pub contents: Vec<i64>,
    pub paths: Vec<i64>,
}

/// What the directories add: what is shown nowhere else, as much as the names leave room for.
pub open spec fn path_fallback(titles: Seq<i64>, contents: Seq<i64>, paths: Seq<i64>, limit: int) -> Seq<i64> {
    let rest = index::difference(index::difference(paths, titles.to_set()), contents.to_set());
    if titles.len() >= limit {
        Seq::empty()
    } else if rest.len() <= limit - titles.len() {
        rest
    } else {
        rest.take(limit - titles.len())
    }
}

/// Puts the notes of the three searches into their lists, none twice.
pub fn note_section(titles: &Vec<i64>, contents: &Vec<i64>, paths: &Vec<i64>, limit: usize) -> (out: NoteSection)
    ensures
        out.titles@ == titles@,
        out.contents@ == index::difference(contents@, titles@.to_set()),
        out.paths@ == path_fallback(titles@, out.contents@, paths@, limit as int),
        forall|x: i64| #[trigger] out.contents@.contains(x) <==> contents@.contains(x) && !titles@.contains(x),
        forall|x: i64| #[trigger] out.paths@.contains(x) ==> paths@.contains(x) && !titles@.contains(x) && !out.contents@.contains(x),
        titles@.len() + out.paths@.len() <= limit || out.paths@.len() == 0,
        titles@.len() + out.paths@.len() < limit ==> forall|x: i64|
            paths@.contains(x) && !titles@.contains(x) && !out.contents@.contains(x) ==> #[trigger] out.paths@.contains(x),
        out.paths@.is_prefix_of(index::difference(index::difference(paths@, titles@.to_set()), out.contents@.to_set())),
{
    proof {
        let set = titles@.to_set();
        let rest = index::difference(contents@, set);
        assert forall|x: i64| #[trigger] rest.contains(x) <==> contents@.contains(x) && !titles@.contains(x) by {
            index::difference_contains(contents@, set, x);
        }
        let fresh = index::difference(paths@, set);
        let other = index::difference(fresh, rest.to_set());
        assert forall|x: i64| #[trigger] other.contains(x) <==> paths@.contains(x) && !titles@.contains(x) && !rest.contains(x) by {
            index::difference_contains(paths@, set, x);
            index::difference_contains(fresh, rest.to_set(), x);
        }
        let shown = path_fallback(titles@, rest, paths@, limit as int);
        assert forall|x: i64| #[trigger] shown.contains(x) implies other.contains(x) by {
            let k = choose|k: int| 0 <= k < shown.len() && shown[k] == x;
            assert(other[k] == x);
        }
    }
    let title_set = ids::id_set(titles);
    let shown = index::missing_from(contents, &title_set);
    let mut fallback: Vec<i64> = Vec::new();
    if titles.len() < limit {
        let content_set = ids::id_set(&shown);
        let fresh = index::missing_from(paths, &title_set);
        fallback = index::missing_from(&fresh, &content_set);
        let room: usize = limit - titles.len();
        if fallback.len() > room {
            fallback.truncate(room);
        }
    }
    NoteSection { titles: types::copy_ids(titles), contents: shown, paths: fallback }
}

/// Whether the directories are searched: only where the names do not fill the list.
pub fn needs_paths(titles: usize, limit: usize) -> (out: bool)
    ensures
        out == (titles < limit),
{
    titles < limit
}

} // verus!
