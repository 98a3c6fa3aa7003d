//! Per-phase wall-clock timings.
use vstd::prelude::*;
use std::time::{Duration, Instant};

verus! {

#[verifier::external_type_specification]
#[verifier::external_body]
pub struct ExInstant(Instant);

/// `Instant::now`. The value depends on the clock; nothing is stated of it.
#[verifier::external_body]
fn instant_now() -> Instant {
    Instant::now()
}

/// `Instant::elapsed`. The value depends on the clock; nothing is stated of it.
#[verifier::external_body]
fn instant_elapsed(start: &Instant) -> Duration {
    start.elapsed()
}

/// `Duration::as_millis`: whole milliseconds of a duration, whose value is
/// opaque here; nothing is stated of the result.
#[verifier::external_body]
fn duration_millis(d: &Duration) -> u128 {
    d.as_millis()
}

/// One finished phase: its label and how long it took.
#[derive(Debug, Clone)]
pub struct TimerEntry {
    pub label: String,
    pub duration_ms: u128,
}

/// Phases that were started and not yet ended, and the entries of the
/// finished ones in the order they ended.
pub struct Timer {
    starts: Vec<(String, Instant)>,
    entries: Vec<TimerEntry>,
}

/// Index of the last label in `labels` equal to `label`, if any.
pub open spec fn last_index_of(labels: Seq<Seq<char>>, label: Seq<char>) -> Option<int>
    decreases labels.len(),
{
    if labels.len() == 0 {
        None
    } else if labels.last() == label {
        Some(labels.len() - 1)
    } else {
        last_index_of(labels.drop_last(), label)
    }
}

impl Timer {
    /// Labels of the phases started and not yet ended, oldest first.
    pub closed spec fn pending(&self) -> Seq<Seq<char>> {
        self.starts@.map_values(|s: (String, Instant)| s.0@)
    }

    /// The finished phases, in the order they ended.
    pub closed spec fn recorded(&self) -> Seq<TimerEntry> {
        self.entries@
    }

    /// An empty timer.
    pub fn new() -> (t: Timer)
        ensures
            t.pending() == Seq::<Seq<char>>::empty(),
            t.recorded() == Seq::<TimerEntry>::empty(),
    {
        let t = Timer { starts: Vec::new(), entries: Vec::new() };
        assert(t.pending() =~= Seq::<Seq<char>>::empty());
        t
    }

    /// A timer that already holds `entries` and has nothing pending.
    pub fn from_entries(entries: Vec<TimerEntry>) -> (t: Timer)
        ensures
            t.pending() == Seq::<Seq<char>>::empty(),
            t.recorded() == entries@,
    {
        let t = Timer { starts: Vec::new(), entries };
        assert(t.pending() =~= Seq::<Seq<char>>::empty());
        t
    }

    /// Start the phase `label`.
    pub fn start(&mut self, label: &str)
        ensures
            final(self).pending() == old(self).pending().push(label@),
            final(self).recorded() == old(self).recorded(),
    {
        let now = instant_now();
        self.starts.push((label.to_owned(), now));
        assert(self.pending() =~= old(self).pending().push(label@));
    }

    /// End the most recently started pending phase called `label`, recording
    /// how long it ran. Nothing happens when no such phase is pending.
    pub fn end(&mut self, label: &str)
        ensures
            match last_index_of(old(self).pending(), label@) {
                None => final(self).pending() == old(self).pending() && final(self).recorded()
                    == old(self).recorded(),
                Some(i) => {
                    &&& final(self).pending() == old(self).pending().remove(i)
                    &&& final(self).recorded().len() == old(self).recorded().len() + 1
                    &&& final(self).recorded().drop_last() == old(self).recorded()
                    &&& final(self).recorded().last().label@ == label@
                },
            },
    {
        let ghost labels = self.pending();
        let mut i = self.starts.len();
        assert(labels.take(i as int) =~= labels);
        while i > 0
            invariant
                i <= self.starts@.len(),
                self.starts@ == old(self).starts@,
                self.entries@ == old(self).entries@,
                labels == old(self).pending(),
                labels == self.pending(),
                labels.len() == self.starts@.len(),
                last_index_of(labels, label@) == last_index_of(labels.take(i as int), label@),
            decreases i,
        {
            proof {
                assert(labels.take(i as int).drop_last() =~= labels.take(i - 1));
                assert(labels.take(i as int).last() == labels[i - 1]);
                assert(labels[i - 1] == self.starts@[i - 1].0@);
            }
            if crate::text::str_equal(self.starts[i - 1].0.as_str(), label) {
                let (name, start) = self.starts.remove(i - 1);
                let elapsed = instant_elapsed(&start);
                let duration_ms = duration_millis(&elapsed);
                self.entries.push(TimerEntry { label: name, duration_ms });
                proof {
                    assert(self.pending() =~= labels.remove(i - 1));
                    assert(self.recorded().drop_last() =~= old(self).recorded());
                }
                return;
            }
            i = i - 1;
        }
        assert(labels.take(0) =~= Seq::<Seq<char>>::empty());
    }

    /// The finished phases, in the order they ended.
    pub fn entries(&self) -> (r: &[TimerEntry])
        ensures
            r@ == self.recorded(),
    {
        self.entries.as_slice()
    }
}

} // verus!
