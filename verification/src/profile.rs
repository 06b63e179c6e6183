//! Rolling records of the most recent frame times.

use vstd::prelude::*;
use std::time::Duration;
use crate::duration::{duration_nanos, duration_zero};
use crate::debug_profiler::{mean_nanos, mean_of_window, sum_nanos, MAX_DURATION_NANOS};

verus! {

/// Number of frame times a [`TimeCounter`] keeps.
pub const FPS_NUM_SAMPLES: usize = 64;

/// The last `count` values written to a ring of `samples.len()` slots whose
/// next write goes to `index`, oldest first.
pub open spec fn recent_window<T>(samples: Seq<T>, index: int, count: int) -> Seq<T> {
    Seq::new(count as nat, |j: int| samples[(index + samples.len() - count + j) % (samples.len() as int)])
}

/// The window after writing `value` at `index`: it gains `value` at the end and,
/// when it was full, loses its oldest value.
pub proof fn lemma_ring_write<T>(samples: Seq<T>, index: int, count: int, value: T)
    requires
        samples.len() > 0,
        0 <= index < samples.len(),
        0 <= count <= samples.len(),
        count < samples.len() ==> index == count,
    ensures
        ({
            let n = samples.len() as int;
            let new_count = if count + 1 < n { count + 1 } else { n };
            let new_index = (index + 1) % n;
            let old_window = recent_window(samples, index, count);
            recent_window(samples.update(index, value), new_index, new_count) == if count < n {
                old_window.push(value)
            } else {
                old_window.drop_first().push(value)
            }
        }),
{
    let n = samples.len() as int;
    let s2 = samples.update(index, value);
    let new_count = if count + 1 < n { count + 1 } else { n };
    let new_index = (index + 1) % n;
    let old_window = recent_window(samples, index, count);
    let w = recent_window(s2, new_index, new_count);
    if count < n {
        assert forall|j: int| 0 <= j < new_count implies w[j] == old_window.push(value)[j] by {
            if count + 1 < n {
                assert(new_index == count + 1) by {
                    vstd::arithmetic::div_mod::lemma_small_mod((count + 1) as nat, n as nat);
                }
                assert((new_index + n - new_count + j) % n == j) by {
                    assert(new_index + n - new_count + j == n + j);
                    vstd::arithmetic::div_mod::lemma_mod_add_multiples_vanish(j, n);
                    vstd::arithmetic::div_mod::lemma_small_mod(j as nat, n as nat);
                }
            } else {
                assert(new_index == 0) by {
                    vstd::arithmetic::div_mod::lemma_mod_self_0(n);
                }
                assert((new_index + n - new_count + j) % n == j) by {
                    vstd::arithmetic::div_mod::lemma_small_mod(j as nat, n as nat);
                }
            }
            assert((index + n - count + j) % n == j) by {
                assert(index + n - count + j == n + j);
                vstd::arithmetic::div_mod::lemma_mod_add_multiples_vanish(j, n);
                vstd::arithmetic::div_mod::lemma_small_mod(j as nat, n as nat);
            }
        }
        assert(w =~= old_window.push(value));
    } else {
        let target = old_window.drop_first().push(value);
        assert forall|j: int| 0 <= j < n implies w[j] == target[j] by {
            // position of element j of the new window
            let p = (new_index + j) % n;
            assert((new_index + n - new_count + j) % n == p);
            assert(p == (index + 1 + j) % n) by {
                vstd::arithmetic::div_mod::lemma_add_mod_noop(index + 1, j, n);
                vstd::arithmetic::div_mod::lemma_mod_twice(index + 1, n);
                vstd::arithmetic::div_mod::lemma_add_mod_noop(new_index, j, n);
                vstd::arithmetic::div_mod::lemma_small_mod(j as nat, n as nat);
            }
            if j < n - 1 {
                assert((index + n - count + (j + 1)) % n == p);
                assert(p != index) by {
                    vstd::arithmetic::div_mod::lemma_mod_bound(index + 1 + j, n);
                    if index + 1 + j < n {
                        vstd::arithmetic::div_mod::lemma_small_mod((index + 1 + j) as nat, n as nat);
                    } else {
                        vstd::arithmetic::div_mod::lemma_mod_sub_multiples_vanish(index + 1 + j, n);
                        vstd::arithmetic::div_mod::lemma_small_mod((index + 1 + j - n) as nat, n as nat);
                    }
                }
            } else {
                assert(p == index) by {
                    vstd::arithmetic::div_mod::lemma_mod_add_multiples_vanish(index, n);
                    vstd::arithmetic::div_mod::lemma_small_mod(index as nat, n as nat);
                }
            }
        }
        assert(w =~= target);
    }
}

/// The last `cap` values of `values` (all of them when there are fewer).
pub open spec fn last_values<T>(values: Seq<T>, cap: int) -> Seq<T> {
    if values.len() <= cap {
        values
    } else {
        values.subrange(values.len() - cap, values.len() as int)
    }
}

/// A window that starts empty and, for each value recorded, gains it at the
/// end and drops its oldest value once it holds `cap` values, always holds
/// the last `cap` values recorded. `windows[i]` is the window after the
/// first `i` values of `values`, as `TimeCounter::tick` and
/// `SampleList::push` state it.
pub proof fn lemma_window_holds_last_values<T>(windows: Seq<Seq<T>>, values: Seq<T>, cap: int)
    requires
        cap > 0,
        windows.len() == values.len() + 1,
        windows[0] == Seq::<T>::empty(),
        forall|i: int|
            0 <= i < values.len() ==> #[trigger] windows[i + 1] == if windows[i].len() < cap {
                windows[i].push(values[i])
            } else {
                windows[i].drop_first().push(values[i])
            },
    ensures
        forall|i: int|
            0 <= i <= values.len() ==> #[trigger] windows[i] == last_values(values.subrange(0, i), cap),
    decreases values.len(),
{
    if values.len() > 0 {
        let k = values.len() - 1;
        lemma_window_holds_last_values(windows.subrange(0, k + 1), values.subrange(0, k), cap);
        assert forall|i: int| 0 <= i <= values.len() implies #[trigger] windows[i] == last_values(
            values.subrange(0, i),
            cap,
        ) by {
            if i <= k {
                assert(windows.subrange(0, k + 1)[i] == windows[i]);
                assert(values.subrange(0, k).subrange(0, i) =~= values.subrange(0, i));
            } else {
                assert(windows.subrange(0, k + 1)[k] == windows[k]);
                assert(values.subrange(0, k).subrange(0, k) =~= values.subrange(0, k));
                let prev = last_values(values.subrange(0, k), cap);
                assert(windows[k] == prev);
                assert(windows[k + 1] == if prev.len() < cap {
                    prev.push(values[k])
                } else {
                    prev.drop_first().push(values[k])
                });
                assert(last_values(values.subrange(0, k + 1), cap) =~= windows[k + 1]);
            }
        }
    } else {
        assert(values.subrange(0, 0) =~= Seq::<T>::empty());
    }
}

/// The most recent frame times, written round a fixed ring.
pub struct TimeCounter {
    samples: [Duration; FPS_NUM_SAMPLES],
    index: usize,
    count: usize,
}

impl TimeCounter {
    /// All the slots of the ring, in slot order.
    pub closed spec fn samples_view(&self) -> Seq<Duration> {
        self.samples@
    }

    /// The slot the next frame time is written to.
    pub closed spec fn index_view(&self) -> int {
        self.index as int
    }

    /// Number of frame times recorded, up to the ring size.
    pub closed spec fn count_view(&self) -> int {
        self.count as int
    }

    /// The recorded frame times, oldest first.
    pub closed spec fn recent(&self) -> Seq<Duration> {
        recent_window(self.samples@, self.index as int, self.count as int)
    }

    /// The ring fills its slots in order from the first and wraps once
    /// full; slots not written yet hold zero.
    pub closed spec fn wf(&self) -> bool {
        &&& self.index < FPS_NUM_SAMPLES
        &&& self.count <= FPS_NUM_SAMPLES
        &&& self.count < FPS_NUM_SAMPLES ==> self.index == self.count
        &&& forall|j: int|
            self.count <= j < FPS_NUM_SAMPLES ==> duration_nanos(#[trigger] self.samples@[j]) == 0
    }

    fn push(&mut self, duration: Duration)
        requires
            old(self).wf(),
        ensures
            final(self).wf(),
            final(self).samples_view().len() == FPS_NUM_SAMPLES,
            final(self).samples_view() == old(self).samples_view().update(old(self).index_view(), duration),
            final(self).index_view() == (old(self).index_view() + 1) % (FPS_NUM_SAMPLES as int),
            final(self).count_view() == if old(self).count_view() < FPS_NUM_SAMPLES {
                old(self).count_view() + 1
            } else {
                FPS_NUM_SAMPLES as int
            },
            final(self).recent() == if old(self).count_view() < FPS_NUM_SAMPLES {
                old(self).recent().push(duration)
            } else {
                old(self).recent().drop_first().push(duration)
            },
    {
        proof {
            lemma_ring_write(self.samples@, self.index as int, self.count as int, duration);
        }
        self.samples[self.index] = duration;
        self.index = (self.index + 1) % FPS_NUM_SAMPLES;
        self.count = if self.count + 1 < FPS_NUM_SAMPLES {
            self.count + 1
        } else {
            FPS_NUM_SAMPLES
        };
    }

    /// Records the time of the frame that just ended in the next slot,
    /// overwriting the oldest one once the ring is full.
    pub fn tick(&mut self, delta: Duration)
        requires
            old(self).wf(),
        ensures
            final(self).wf(),
            final(self).samples_view().len() == FPS_NUM_SAMPLES,
            final(self).samples_view() == old(self).samples_view().update(old(self).index_view(), delta),
            final(self).index_view() == (old(self).index_view() + 1) % (FPS_NUM_SAMPLES as int),
            final(self).count_view() == if old(self).count_view() < FPS_NUM_SAMPLES {
                old(self).count_view() + 1
            } else {
                FPS_NUM_SAMPLES as int
            },
            final(self).recent() == if old(self).count_view() < FPS_NUM_SAMPLES {
                old(self).recent().push(delta)
            } else {
                old(self).recent().drop_first().push(delta)
            },
    {
        self.push(delta);
    }

    /// All the slots of the ring, in slot order; slots past the recorded count
    /// hold zero durations.
    pub fn samples(&self) -> (s: &[Duration])
        requires
            self.wf(),
        ensures
            s@ == self.samples_view(),
            s@.len() == FPS_NUM_SAMPLES,
            forall|j: int| self.count_view() <= j < FPS_NUM_SAMPLES ==> duration_nanos(#[trigger] s@[j]) == 0,
    {
        self.samples.as_slice()
    }

    /// Mean of the recorded frame times, rounded down to the nanosecond;
    /// zero when none was recorded.
    pub fn average_frame_time(&self) -> (d: Duration)
        requires
            self.wf(),
            sum_nanos(self.recent()) <= MAX_DURATION_NANOS,
        ensures
            duration_nanos(d) == mean_nanos(self.recent()),
    {
        match mean_of_window(self.samples.as_slice(), self.index, self.count) {
            Some(d) => d,
            None => {
                proof {
                    assert(false);
                }
                duration_zero()
            },
        }
    }

    /// Like [`TimeCounter::average_frame_time`], or `None` where the recorded
    /// times add up to more than the longest `Duration`.
    pub fn checked_average_frame_time(&self) -> (r: Option<Duration>)
        requires
            self.wf(),
        ensures
            sum_nanos(self.recent()) <= MAX_DURATION_NANOS ==> (r matches Some(d) && duration_nanos(d)
                == mean_nanos(self.recent())),
            sum_nanos(self.recent()) > MAX_DURATION_NANOS ==> r is None,
    {
        mean_of_window(self.samples.as_slice(), self.index, self.count)
    }

    /// Number of frame times recorded, up to the ring size.
    pub fn count(&self) -> (n: usize)
        ensures
            n == self.count_view(),
    {
        self.count
    }
}

impl Default for TimeCounter {
    fn default() -> (r: Self)
        ensures
            r.wf(),
            r.count_view() == 0,
            r.index_view() == 0,
            r.samples_view().len() == FPS_NUM_SAMPLES,
            r.recent() == Seq::<Duration>::empty(),
            forall|i: int| 0 <= i < FPS_NUM_SAMPLES ==> crate::duration::duration_nanos(#[trigger] r.samples_view()[i]) == 0,
    {
        let zero = duration_zero();
        let r = TimeCounter { samples: [zero; FPS_NUM_SAMPLES], index: 0, count: 0 };
        proof {
            assert(r.recent() =~= Seq::<Duration>::empty());
        }
        r
    }
}

/// Frame times of whole frames, for the frames-per-second display.
pub struct FpsCounter(pub TimeCounter);

/// Frame times of the geometry pass.
pub struct GeometryPassFrametimes(pub TimeCounter);

impl Default for FpsCounter {
    fn default() -> (r: Self)
        ensures
            r.0.wf(),
            r.0.count_view() == 0,
    {
        FpsCounter(TimeCounter::default())
    }
}

impl Default for GeometryPassFrametimes {
    fn default() -> (r: Self)
        ensures
            r.0.wf(),
            r.0.count_view() == 0,
    {
        GeometryPassFrametimes(TimeCounter::default())
    }
}

} // verus!
