//! The coalescing core of the debouncer.
//!
//! The surrounding process owns a background loop that blocks on an intake
//! channel: it waits indefinitely while nothing is pending, and waits up to
//! the quiet period once something is. Each wait outcome is handed to
//! [`Debouncer::step`] as one [`DebouncerEvent`]; the returned
//! [`DebouncerAction`] says whether the loop keeps collecting, flushes, or
//! flushes and exits. Every path is held at most once, however often it is
//! submitted, and a flush drains the pending set completely.

use vstd::prelude::*;
use vstd::string::StringExecFns;

use crate::strutil::str_eq;

verus! {

/// The pending set of changed paths awaiting the next flush.
pub struct Debouncer {
    paths: Vec<String>,
}

/// One outcome of the background loop's wait on the intake channel.
pub enum DebouncerEvent {
    /// A producer submitted this path before the quiet period elapsed.
    Path(String),
    /// The quiet period elapsed with no new arrival.
    Timeout,
    /// The intake channel is closed: no producer will submit again.
    Closed,
}

/// What the background loop must do after one event.
pub enum DebouncerAction {
    /// Keep collecting; nothing is emitted.
    Continue,
    /// Emit these paths, then keep running.
    Flushed(Vec<String>),
    /// Emit these paths, then terminate the loop.
    Exit(Vec<String>),
}

/// No path occurs twice in the sequence.
pub open spec fn spec_distinct_views(paths: Seq<Seq<char>>) -> bool {
    forall|i: int, j: int| 0 <= i < j < paths.len() ==> paths[i] != paths[j]
}

impl Debouncer {
    /// The set of distinct pending paths.
    pub closed spec fn pending_set(&self) -> Set<Seq<char>> {
        self.paths.deep_view().to_set()
    }

    /// Internally each pending path is held exactly once.
    pub closed spec fn well_formed(&self) -> bool {
        spec_distinct_views(self.paths.deep_view())
    }

    pub fn new() -> (d: Debouncer)
        ensures
            d.well_formed(),
            d.pending_set() == Set::<Seq<char>>::empty(),
    {
        let d = Debouncer { paths: Vec::new() };
        proof {
            assert(d.paths.deep_view() =~= Seq::<Seq<char>>::empty());
            assert(d.pending_set() =~= Set::<Seq<char>>::empty());
        }
        d
    }

    /// True while nothing is pending: the loop may then block on the
    /// intake channel without a timeout.
    pub fn is_empty(&self) -> (r: bool)
        ensures
            r <==> self.pending_set() == Set::<Seq<char>>::empty(),
    {
        let r = self.paths.len() == 0;
        proof {
            if r {
                assert(self.paths.deep_view() =~= Seq::<Seq<char>>::empty());
                assert(self.pending_set() =~= Set::<Seq<char>>::empty());
            } else {
                let x = self.paths.deep_view()[0];
                assert(self.paths.deep_view().contains(x));
                assert(self.pending_set().contains(x));
                assert(!Set::<Seq<char>>::empty().contains(x));
            }
        }
        r
    }

    /// Adds a path to the pending set; a path already pending is coalesced
    /// into the existing entry.
    pub fn submit(&mut self, path: String)
        requires
            old(self).well_formed(),
        ensures
            final(self).well_formed(),
            final(self).pending_set() == old(self).pending_set().insert(path@),
    {
        let mut i: usize = 0;
        while i < self.paths.len()
            invariant
                *self == *old(self),
                old(self).well_formed(),
                0 <= i <= self.paths@.len(),
                forall|k: int| 0 <= k < i ==> self.paths.deep_view()[k] != path@,
            decreases self.paths@.len() - i,
        {
            if str_eq(self.paths[i].as_str(), path.as_str()) {
                proof {
                    assert(self.paths.deep_view()[i as int] == path@);
                    assert(self.pending_set().contains(path@));
                    assert(final(self).pending_set() =~= old(self).pending_set().insert(path@));
                }
                return ;
            }
            i += 1;
        }
        self.paths.push(path);
        proof {
            let dv = old(self).paths.deep_view();
            assert(self.paths.deep_view() =~= dv.push(path@));
            dv.lemma_push_to_set_commute(path@);
        }
    }

    /// Empties the pending set and returns its members, each exactly once.
    pub fn flush(&mut self) -> (out: Vec<String>)
        requires
            old(self).well_formed(),
        ensures
            final(self).well_formed(),
            final(self).pending_set() == Set::<Seq<char>>::empty(),
            out.deep_view().to_set() == old(self).pending_set(),
            spec_distinct_views(out.deep_view()),
    {
        let mut out: Vec<String> = Vec::new();
        core::mem::swap(&mut self.paths, &mut out);
        proof {
            assert(self.paths.deep_view() =~= Seq::<Seq<char>>::empty());
            assert(final(self).pending_set() =~= Set::<Seq<char>>::empty());
        }
        out
    }

    /// One turn of the coalescing loop: a new arrival only grows the
    /// pending set, a timeout flushes it, and a closed intake channel
    /// flushes it one final time before the loop exits.
    pub fn step(&mut self, event: DebouncerEvent) -> (act: DebouncerAction)
        requires
            old(self).well_formed(),
        ensures
            final(self).well_formed(),
            (event matches DebouncerEvent::Path(p) ==> act is Continue && final(self).pending_set()
                == old(self).pending_set().insert(p@)),
            event is Timeout ==> (act matches DebouncerAction::Flushed(out)
                && out.deep_view().to_set() == old(self).pending_set() && spec_distinct_views(
                out.deep_view(),
            ) && final(self).pending_set() == Set::<Seq<char>>::empty()),
            event is Closed ==> (act matches DebouncerAction::Exit(out)
                && out.deep_view().to_set() == old(self).pending_set() && spec_distinct_views(
                out.deep_view(),
            ) && final(self).pending_set() == Set::<Seq<char>>::empty()),
    {
        match event {
            DebouncerEvent::Path(p) => {
                self.submit(p);
                DebouncerAction::Continue
            },
            DebouncerEvent::Timeout => {
                let out = self.flush();
                DebouncerAction::Flushed(out)
            },
            DebouncerEvent::Closed => {
                let out = self.flush();
                DebouncerAction::Exit(out)
            },
        }
    }
}

/// The pending set after a burst of arrivals lands on `pending`.
pub open spec fn spec_coalesce(pending: Set<Seq<char>>, arrivals: Seq<Seq<char>>) -> Set<Seq<char>>
    decreases arrivals.len(),
{
    if arrivals.len() == 0 {
        pending
    } else {
        spec_coalesce(pending.insert(arrivals[0]), arrivals.drop_first())
    }
}

/// A burst only accumulates: arrivals add their distinct paths to the
/// pending set and nothing else changes.
pub proof fn lemma_coalesce_adds(pending: Set<Seq<char>>, arrivals: Seq<Seq<char>>)
    ensures
        spec_coalesce(pending, arrivals) == pending + arrivals.to_set(),
    decreases arrivals.len(),
{
    if arrivals.len() == 0 {
        assert(spec_coalesce(pending, arrivals) =~= pending + arrivals.to_set());
    } else {
        lemma_coalesce_adds(pending.insert(arrivals[0]), arrivals.drop_first());
        assert forall|x: Seq<char>| arrivals.to_set().contains(x) implies pending.insert(
            arrivals[0],
        ).union(arrivals.drop_first().to_set()).contains(x) by {
            let i = choose|i: int| 0 <= i < arrivals.len() && arrivals[i] == x;
            if i > 0 {
                assert(arrivals.drop_first()[i - 1] == x);
            }
        }
        assert forall|x: Seq<char>| arrivals.drop_first().to_set().contains(x)
            implies arrivals.to_set().contains(x) by {
            let i = choose|i: int| 0 <= i < arrivals.drop_first().len() && arrivals.drop_first()[i]
                == x;
            assert(arrivals[i + 1] == x);
        }
        assert(pending.insert(arrivals[0]) + arrivals.drop_first().to_set() =~= pending
            + arrivals.to_set());
    }
}

/// A burst of arrivals landing on an empty pending set, followed by one
/// quiet period, flushes exactly the distinct paths of the burst. During
/// the burst itself no flush occurs: `step` on an arrival returns
/// `Continue` and only inserts into the pending set, which this lemma
/// folds over a whole burst.
pub proof fn lemma_burst_flushes_once(arrivals: Seq<Seq<char>>)
    ensures
        spec_coalesce(Set::<Seq<char>>::empty(), arrivals) == arrivals.to_set(),
{
    lemma_coalesce_adds(Set::<Seq<char>>::empty(), arrivals);
    assert(Set::<Seq<char>>::empty() + arrivals.to_set() =~= arrivals.to_set());
}

/// A flush is exhaustive: a batch drawn from an empty pending set holds
/// no path at all, so the timeout that ends a quiet period produces the
/// burst's only flush — the next timeout emits nothing.
pub proof fn lemma_flush_exhaustive(out: Seq<Seq<char>>)
    requires
        out.to_set() == Set::<Seq<char>>::empty(),
    ensures
        out == Seq::<Seq<char>>::empty(),
{
    if out.len() > 0 {
        assert(out.contains(out[0]));
        assert(out.to_set().contains(out[0]));
    }
    assert(out =~= Seq::<Seq<char>>::empty());
}

/// A path submitted before shutdown is never dropped: once the intake
/// closes, the final flush emits the whole pending set, so it holds every
/// path whose submission reached the set.
pub proof fn lemma_shutdown_keeps_submission(
    pending: Set<Seq<char>>,
    p: Seq<char>,
    out: Seq<Seq<char>>,
)
    requires
        out.to_set() == pending.insert(p),
    ensures
        out.contains(p),
{
    assert(out.to_set().contains(p));
}

/// The output line announcing one changed path.
pub fn format_changed_line(path: &str) -> (r: String)
    ensures
        r@ == "changed: "@ + path@,
{
    let mut r = String::from_str("changed: ");
    r.append(path);
    r
}

/// The output lines for one flushed batch, in batch order.
pub fn flush_lines(paths: &Vec<String>) -> (r: Vec<String>)
    ensures
        r@.len() == paths@.len(),
        forall|i: int| 0 <= i < r@.len() ==> r@[i]@ == "changed: "@ + #[trigger] paths@[i]@,
{
    let mut r: Vec<String> = Vec::new();
    let mut i: usize = 0;
    while i < paths.len()
        invariant
            0 <= i <= paths@.len(),
            r@.len() == i,
            forall|k: int| 0 <= k < i ==> r@[k]@ == "changed: "@ + #[trigger] paths@[k]@,
        decreases paths@.len() - i,
    {
        let line = format_changed_line(paths[i].as_str());
        r.push(line);
        i += 1;
    }
    r
}

} // verus!
