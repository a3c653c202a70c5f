//! Events: what the library did and how long its stages took, for the host to log.

use crate::tally;
use crate::types::Degrade;
use vstd::prelude::*;

verus! {

/// An event. It holds no query and no text: hosts know the query already.
#[derive(Debug)]
pub struct LogEvent {
    /// The local time, with milliseconds.
    pub ts: String,
    pub kind: String,
    /// How long it took in all, in milliseconds.
    pub ms: u64,
    /// How long each stage took, by name.
    pub stages: Vec<(String, u64)>,
    pub candidates: Option<usize>,
    pub folded: Option<usize>,
    pub rerank_docs: Option<usize>,
    pub rerank_tokens: Option<usize>,
    pub hits: Option<usize>,
    pub documents: Option<usize>,
    pub format: Option<String>,
    pub degraded: Vec<Degrade>,
}

impl LogEvent {
    /// An event of a kind at a time, with nothing else known of it.
    pub fn new(kind: &str, ts: String) -> (out: Self)
        ensures
            out.ts == ts,
            out.kind@ == kind@,
            out.ms == 0,
            out.stages@.len() == 0 && out.degraded@.len() == 0,
            out.candidates is None && out.folded is None && out.rerank_docs is None && out.rerank_tokens is None,
            out.hits is None && out.documents is None && out.format is None,
    {
        LogEvent {
            ts,
            kind: kind.to_owned(),
            ms: 0,
            stages: Vec::new(),
            candidates: None,
            folded: None,
            rerank_docs: None,
            rerank_tokens: None,
            hits: None,
            documents: None,
            format: None,
            degraded: Vec::new(),
        }
    }
}

/// Times the stages of a run: each mark takes the time since the one before it. Times are
/// nanoseconds of a clock that never goes back.
pub struct StageTimer {
    last_ns: u64,
    marks: Vec<(String, u64)>,
}

impl StageTimer {
    /// The time of the last mark.
    pub closed spec fn last(self) -> u64 {
        self.last_ns
    }

    /// The stages so far.
    pub closed spec fn stages(self) -> Seq<(Seq<char>, u64)> {
        tally::entry_views(self.marks@)
    }

    /// Starts timing.
    pub fn start(now_ns: u64) -> (out: Self)
        ensures
            out.last() == now_ns,
            out.stages() == Seq::<(Seq<char>, u64)>::empty(),
    {
        let out = StageTimer { last_ns: now_ns, marks: Vec::new() };
        assert(out.stages() == Seq::<(Seq<char>, u64)>::empty());
        out
    }

    /// Ends a stage. One that was marked before is timed anew.
    pub fn mark(&mut self, name: &str, now_ns: u64)
        ensures
            final(self).last() == now_ns,
            final(self).stages() == tally::with_entry(old(self).stages(), name@, elapsed_ms(old(self).last(), now_ns)),
            ({
                let ms = tally::entry_of(final(self).stages(), name@);
                &&& now_ns >= old(self).last() ==> (ms matches Some(t) && 1_000_000 * t <= now_ns - old(self).last() < 1_000_000 * (t + 1))
                &&& now_ns < old(self).last() ==> ms == Some(0u64)
            }),
    {
        proof {
            tally::set_then_read(self.stages(), name@, elapsed_ms(self.last(), now_ns), name@);
        }
        let ms: u64 = if now_ns < self.last_ns { 0 } else { (now_ns - self.last_ns) / 1_000_000 };
        tally::set_entry(&mut self.marks, name, ms);
        self.last_ns = now_ns;
    }

    /// Ends the last stage and gives them all.
    pub fn finish(self, name: &str, now_ns: u64) -> (out: Vec<(String, u64)>)
        ensures
            tally::entry_views(out@) == tally::with_entry(self.stages(), name@, elapsed_ms(self.last(), now_ns)),
    {
        let mut timer = self;
        timer.mark(name, now_ns);
        timer.marks
    }
}

/// The whole milliseconds between two times; none backwards.
pub open spec fn elapsed_ms(from_ns: u64, to_ns: u64) -> u64 {
    if to_ns < from_ns {
        0
    } else {
        ((to_ns - from_ns) / 1_000_000) as u64
    }
}

} // verus!
