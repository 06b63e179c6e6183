//! Frame clock: the time between the last two frames and the number of frames.

use vstd::prelude::*;
use std::time::{Duration, Instant};
use crate::duration::{duration_zero, duration_nanos, instant_now, instant_elapsed};

verus! {

pub struct Time {
    last_frame: Instant,
    delta: Duration,
    frame_count: u128,
}

impl Time {
    pub closed spec fn delta_view(&self) -> Duration {
        self.delta
    }

    pub closed spec fn frame_count_view(&self) -> u128 {
        self.frame_count
    }

    /// When the current frame started.
    pub closed spec fn last_frame_view(&self) -> Instant {
        self.last_frame
    }

    /// A clock started now, with no frame counted and a zero frame time.
    pub fn new() -> (t: Self)
        ensures
            t.frame_count_view() == 0,
            duration_nanos(t.delta_view()) == 0,
    {
        Time { last_frame: instant_now(), delta: duration_zero(), frame_count: 0 }
    }

    /// Starts a new frame that began at `now`, the previous one having
    /// lasted `elapsed`: the frame time becomes `elapsed`, the current frame
    /// starts at `now`, and one more frame is counted.
    pub fn record_frame(&mut self, now: Instant, elapsed: Duration)
        requires
            old(self).frame_count_view() < u128::MAX,
        ensures
            final(self).last_frame_view() == now,
            final(self).delta_view() == elapsed,
            final(self).frame_count_view() == old(self).frame_count_view() + 1,
    {
        self.last_frame = now;
        self.delta = elapsed;
        self.frame_count = self.frame_count + 1;
    }

    /// Starts a new frame, reading the clock: the new frame starts now, and
    /// the frame time becomes the time elapsed since the previous frame
    /// started (read after `now`). Which instants the clock gives is not
    /// known; what is done with them is [`Time::record_frame`].
    pub fn tick(&mut self)
        requires
            old(self).frame_count_view() < u128::MAX,
        ensures
            final(self).frame_count_view() == old(self).frame_count_view() + 1,
    {
        let new_instant = instant_now();
        let delta = instant_elapsed(&self.last_frame);
        self.record_frame(new_instant, delta);
    }

    pub fn delta(&self) -> (d: Duration)
        ensures
            d == self.delta_view(),
    {
        self.delta
    }

    pub fn frame_count(&self) -> (n: u128)
        ensures
            n == self.frame_count_view(),
    {
        self.frame_count
    }
}

/// Counting from a new clock, the frame count after `i` ticks is `i`.
/// `counts[i]` is the frame count after the first `i` ticks: a new clock
/// counts 0 (`Time::new`) and each tick adds one (`Time::tick`).
pub proof fn lemma_frame_count_counts_ticks(counts: Seq<int>)
    requires
        counts.len() > 0,
        counts[0] == 0,
        forall|i: int| 0 <= i < counts.len() - 1 ==> #[trigger] counts[i + 1] == counts[i] + 1,
    ensures
        forall|i: int| 0 <= i < counts.len() ==> #[trigger] counts[i] == i,
    decreases counts.len(),
{
    if counts.len() > 1 {
        let prefix = counts.drop_last();
        assert forall|i: int| 0 <= i < prefix.len() - 1 implies #[trigger] prefix[i + 1] == prefix[i] + 1 by {
            assert(counts[i + 1] == counts[i] + 1);
        }
        lemma_frame_count_counts_ticks(prefix);
        assert forall|i: int| 0 <= i < counts.len() implies #[trigger] counts[i] == i by {
            if i < counts.len() - 1 {
                assert(prefix[i] == i);
            } else {
                assert(prefix[i - 1] == i - 1);
                assert(counts[(i - 1) + 1] == counts[i - 1] + 1);
            }
        }
    }
}

} // verus!
