//! Averages of GPU pass times and the bookkeeping of the timestamp queries
//! that measure them.

use vstd::prelude::*;
use std::time::Duration;
use crate::duration::{duration_as_nanos, duration_nanos, duration_new, duration_zero};
use crate::profile::{last_values, lemma_ring_write, lemma_window_holds_last_values, recent_window};

verus! {

/// Number of samples kept by a [`SampleList`], and of timestamp pairs in a
/// [`TimeQuery`].
pub const DEBUG_PROFILER_SAMPLE_COUNT: usize = 60;

/// Nanoseconds in the longest `Duration`.
pub const MAX_DURATION_NANOS: u128 = 18_446_744_073_709_551_615_999_999_999;

/// Total length of the durations of `s`, in nanoseconds.
pub open spec fn sum_nanos(s: Seq<Duration>) -> int
    decreases s.len(),
{
    if s.len() == 0 {
        0
    } else {
        sum_nanos(s.drop_last()) + duration_nanos(s.last())
    }
}

/// Mean of the values of `window`, in nanoseconds, rounded down; zero for
/// an empty window.
pub open spec fn mean_nanos(window: Seq<Duration>) -> int {
    if window.len() == 0 {
        0
    } else {
        sum_nanos(window) / (window.len() as int)
    }
}

/// The mean rounded down: the mean times the number of values is at most
/// their sum, and one more than the mean times it exceeds the sum; it is 0
/// for no values.
pub proof fn lemma_mean_rounds_down(window: Seq<Duration>)
    ensures
        window.len() == 0 ==> mean_nanos(window) == 0,
        window.len() > 0 ==> mean_nanos(window) * window.len() <= sum_nanos(window) < (mean_nanos(window) + 1)
            * window.len(),
{
    if window.len() > 0 {
        let n = window.len() as int;
        let t = sum_nanos(window);
        assert(t / n * n <= t < (t / n + 1) * n) by (nonlinear_arith)
            requires
                n > 0,
        ;
    }
}

/// Mean of the `count` most recent values of a ring of samples whose next
/// write goes to `index`, rounded down to the nanosecond; `None` when their
/// sum is longer than the longest `Duration`.
pub(crate) fn mean_of_window(samples: &[Duration], index: usize, count: usize) -> (r: Option<Duration>)
    requires
        0 < samples@.len() <= 64,
        index < samples@.len(),
        count <= samples@.len(),
    ensures
        ({
            let w = recent_window(samples@, index as int, count as int);
            if sum_nanos(w) <= MAX_DURATION_NANOS {
                r matches Some(d) && duration_nanos(d) == mean_nanos(w)
            } else {
                r is None
            }
        }),
{
    let ghost w = recent_window(samples@, index as int, count as int);
    if count == 0 {
        proof {
            assert(w =~= Seq::<Duration>::empty());
        }
        return Some(duration_zero());
    }
    let n = samples.len();
    let mut total: u128 = 0;
    let mut i: usize = 0;
    proof {
        assert(w.subrange(0, 0) =~= Seq::<Duration>::empty());
    }
    while i < count
        invariant
            n == samples@.len(),
            0 < n <= 64,
            index < n,
            1 <= count <= n,
            w == recent_window(samples@, index as int, count as int),
            i <= count,
            total == sum_nanos(w.subrange(0, i as int)),
            total <= i * MAX_DURATION_NANOS,
        decreases count - i,
    {
        let slot = (index + n - count + i) % n;
        let d = duration_as_nanos(samples[slot]);
        proof {
            assert(w[i as int] == samples@[slot as int]);
            assert(w.subrange(0, i + 1).drop_last() =~= w.subrange(0, i as int));
            assert(total + d <= (i + 1) * MAX_DURATION_NANOS) by (nonlinear_arith)
                requires
                    total <= i * MAX_DURATION_NANOS,
                    d <= MAX_DURATION_NANOS,
            ;
            assert((i + 1) * MAX_DURATION_NANOS <= 64 * MAX_DURATION_NANOS) by (nonlinear_arith)
                requires
                    i + 1 <= 64,
            ;
        }
        total = total + d;
        i = i + 1;
    }
    proof {
        assert(w.subrange(0, count as int) =~= w);
    }
    if total > MAX_DURATION_NANOS {
        return None;
    }
    let mean = total / (count as u128);
    let secs = mean / 1_000_000_000;
    let nanos = mean % 1_000_000_000;
    proof {
        assert(mean <= total) by (nonlinear_arith)
            requires
                count >= 1,
                mean == total / (count as u128),
        ;
        assert(secs <= u64::MAX) by (nonlinear_arith)
            requires
                mean <= MAX_DURATION_NANOS,
                secs == mean / 1_000_000_000,
        ;
    }
    Some(duration_new(secs as u64, nanos as u32))
}

/// The most recent pass times, written round a fixed ring.
pub struct SampleList {
    samples: [Duration; DEBUG_PROFILER_SAMPLE_COUNT],
    index: usize,
    count: usize,
}

impl SampleList {
    /// All the slots of the ring, in slot order.
    pub closed spec fn samples_view(&self) -> Seq<Duration> {
        self.samples@
    }

    /// The slot the next time is written to.
    pub closed spec fn index_view(&self) -> int {
        self.index as int
    }

    /// Number of times recorded, up to the ring size.
    pub closed spec fn count_view(&self) -> int {
        self.count as int
    }

    /// The recorded times, oldest first.
    pub closed spec fn recent(&self) -> Seq<Duration> {
        recent_window(self.samples@, self.index as int, self.count as int)
    }

    /// The ring fills its slots in order from the first and wraps once
    /// full; slots not written yet hold zero.
    pub closed spec fn wf(&self) -> bool {
        &&& self.index < DEBUG_PROFILER_SAMPLE_COUNT
        &&& self.count <= DEBUG_PROFILER_SAMPLE_COUNT
        &&& self.count < DEBUG_PROFILER_SAMPLE_COUNT ==> self.index == self.count
        &&& forall|j: int|
            self.count <= j < DEBUG_PROFILER_SAMPLE_COUNT ==> duration_nanos(#[trigger] self.samples@[j]) == 0
    }

    /// Records a time in the next slot, dropping the oldest one once the
    /// ring is full.
    pub fn push(&mut self, duration: Duration)
        requires
            old(self).wf(),
        ensures
            final(self).wf(),
            final(self).samples_view().len() == DEBUG_PROFILER_SAMPLE_COUNT,
            final(self).samples_view() == old(self).samples_view().update(old(self).index_view(), duration),
            final(self).index_view() == (old(self).index_view() + 1) % (DEBUG_PROFILER_SAMPLE_COUNT as int),
            final(self).count_view() == if old(self).count_view() < DEBUG_PROFILER_SAMPLE_COUNT {
                old(self).count_view() + 1
            } else {
                DEBUG_PROFILER_SAMPLE_COUNT as int
            },
            final(self).recent() == if old(self).count_view() < DEBUG_PROFILER_SAMPLE_COUNT {
                old(self).recent().push(duration)
            } else {
                old(self).recent().drop_first().push(duration)
            },
    {
        proof {
            lemma_ring_write(self.samples@, self.index as int, self.count as int, duration);
        }
        self.samples[self.index] = duration;
        self.index = (self.index + 1) % DEBUG_PROFILER_SAMPLE_COUNT;
        self.count = if self.count + 1 < DEBUG_PROFILER_SAMPLE_COUNT {
            self.count + 1
        } else {
            DEBUG_PROFILER_SAMPLE_COUNT
        };
    }

    /// Mean of the recorded times, rounded down to the nanosecond; zero when
    /// nothing was recorded.
    pub fn average(&self) -> (d: Duration)
        requires
            self.wf(),
            sum_nanos(self.recent()) <= MAX_DURATION_NANOS,
        ensures
            duration_nanos(d) == mean_nanos(self.recent()),
    {
        match mean_of_window(self.samples.as_slice(), self.index, self.count) {
            Some(d) => d,
            None => {
                proof {
                    assert(false);
                }
                duration_zero()
            },
        }
    }

    /// Like [`SampleList::average`], or `None` where the recorded times add up
    /// to more than the longest `Duration`.
    pub fn checked_average(&self) -> (r: Option<Duration>)
        requires
            self.wf(),
        ensures
            sum_nanos(self.recent()) <= MAX_DURATION_NANOS ==> (r matches Some(d) && duration_nanos(d)
                == mean_nanos(self.recent())),
            sum_nanos(self.recent()) > MAX_DURATION_NANOS ==> r is None,
    {
        mean_of_window(self.samples.as_slice(), self.index, self.count)
    }
}

/// The average of a sample list that started empty is the mean of the last
/// `min(k, DEBUG_PROFILER_SAMPLE_COUNT)` times pushed, rounded down to the
/// nanosecond, and zero before the first push. `lists[i]` is the list after
/// the first `i` pushes of `values`, each related to the one before as
/// `SampleList::push` states; `SampleList::average` returns
/// `mean_nanos(lists[k].recent())`.
pub proof fn lemma_average_of_last_pushes(lists: Seq<SampleList>, values: Seq<Duration>)
    requires
        lists.len() == values.len() + 1,
        lists[0].count_view() == 0,
        lists[0].recent() == Seq::<Duration>::empty(),
        forall|i: int|
            0 <= i < values.len() ==> {
                &&& #[trigger] lists[i + 1].count_view() == if lists[i].count_view() < DEBUG_PROFILER_SAMPLE_COUNT {
                    lists[i].count_view() + 1
                } else {
                    DEBUG_PROFILER_SAMPLE_COUNT as int
                }
                &&& lists[i + 1].recent() == if lists[i].count_view() < DEBUG_PROFILER_SAMPLE_COUNT {
                    lists[i].recent().push(values[i])
                } else {
                    lists[i].recent().drop_first().push(values[i])
                }
            },
    ensures
        forall|k: int|
            0 <= k <= values.len() ==> #[trigger] lists[k].recent() == last_values(
                values.subrange(0, k),
                DEBUG_PROFILER_SAMPLE_COUNT as int,
            ),
        forall|k: int|
            0 <= k <= values.len() ==> mean_nanos(#[trigger] lists[k].recent()) == mean_nanos(
                last_values(values.subrange(0, k), DEBUG_PROFILER_SAMPLE_COUNT as int),
            ),
        mean_nanos(Seq::<Duration>::empty()) == 0,
{
    let windows = lists.map_values(|l: SampleList| l.recent());
    assert forall|i: int| 0 <= i < values.len() implies #[trigger] windows[i + 1] == if windows[i].len()
        < DEBUG_PROFILER_SAMPLE_COUNT {
        windows[i].push(values[i])
    } else {
        windows[i].drop_first().push(values[i])
    } by {
        assert(windows[i] == lists[i].recent());
        assert(windows[i + 1] == lists[i + 1].recent());
        assert(lists[i].recent().len() == lists[i].count_view());
        assert(lists[i + 1].count_view() == if lists[i].count_view() < DEBUG_PROFILER_SAMPLE_COUNT {
            lists[i].count_view() + 1
        } else {
            DEBUG_PROFILER_SAMPLE_COUNT as int
        });
    }
    lemma_window_holds_last_values(windows, values, DEBUG_PROFILER_SAMPLE_COUNT as int);
    assert forall|k: int| 0 <= k <= values.len() implies #[trigger] lists[k].recent() == last_values(
        values.subrange(0, k),
        DEBUG_PROFILER_SAMPLE_COUNT as int,
    ) by {
        assert(windows[k] == lists[k].recent());
    }
}

impl Default for SampleList {
    fn default() -> (r: Self)
        ensures
            r.wf(),
            r.count_view() == 0,
            r.index_view() == 0,
            r.samples_view().len() == DEBUG_PROFILER_SAMPLE_COUNT,
            r.recent() == Seq::<Duration>::empty(),
            forall|i: int|
                0 <= i < DEBUG_PROFILER_SAMPLE_COUNT ==> duration_nanos(#[trigger] r.samples_view()[i]) == 0,
    {
        let zero = duration_zero();
        let r = SampleList { samples: [zero; DEBUG_PROFILER_SAMPLE_COUNT], index: 0, count: 0 };
        proof {
            assert(r.recent() =~= Seq::<Duration>::empty());
        }
        r
    }
}

/// Marker for the debug profiler resource.
pub struct DebugProfiler {}

/// Bookkeeping of a GPU timestamp query set holding one start and one end
/// timestamp for each of `DEBUG_PROFILER_SAMPLE_COUNT` samples: which slot
/// the next pass writes to, and whether a start timestamp awaits its end.
pub struct TimeQuery {
    started: bool,
    current_sample_index: u32,
}

impl TimeQuery {
    pub closed spec fn started_view(&self) -> bool {
        self.started
    }

    pub closed spec fn sample_index_view(&self) -> u32 {
        self.current_sample_index
    }

    pub fn new() -> (q: Self)
        ensures
            !q.started_view(),
            q.sample_index_view() == 0,
    {
        TimeQuery { started: false, current_sample_index: 0 }
    }

    /// The sample slot the next pass writes to.
    pub fn wrap_sample_index(&self) -> (i: u32)
        ensures
            i == self.sample_index_view() % (DEBUG_PROFILER_SAMPLE_COUNT as u32),
            i < DEBUG_PROFILER_SAMPLE_COUNT,
    {
        self.current_sample_index % DEBUG_PROFILER_SAMPLE_COUNT as u32
    }

    /// Query indices a pass writes its start and end timestamps to.
    pub fn pass_timestamp_indices(&self) -> (r: (u32, u32))
        ensures
            r.0 == 2 * (self.sample_index_view() % (DEBUG_PROFILER_SAMPLE_COUNT as u32)),
            r.1 == r.0 + 1,
            r.1 < 2 * DEBUG_PROFILER_SAMPLE_COUNT,
    {
        let i = self.wrap_sample_index();
        (i * 2, i * 2 + 1)
    }

    /// Marks the start timestamp as written and returns its query index.
    pub fn write_start_timestamp(&mut self) -> (index: u32)
        requires
            !old(self).started_view(),
        ensures
            final(self).started_view(),
            final(self).sample_index_view() == old(self).sample_index_view(),
            index == 2 * (old(self).sample_index_view() % (DEBUG_PROFILER_SAMPLE_COUNT as u32)),
    {
        self.started = true;
        self.wrap_sample_index() * 2
    }

    /// Marks the end timestamp as written, returns its query index and moves
    /// on to the next sample.
    pub fn write_end_timestamp(&mut self) -> (index: u32)
        requires
            old(self).started_view(),
            old(self).sample_index_view() < u32::MAX,
        ensures
            !final(self).started_view(),
            final(self).sample_index_view() == old(self).sample_index_view() + 1,
            index == 2 * (old(self).sample_index_view() % (DEBUG_PROFILER_SAMPLE_COUNT as u32)) + 1,
    {
        self.started = false;
        let index = self.wrap_sample_index() * 2 + 1;
        self.current_sample_index = self.current_sample_index + 1;
        index
    }

    /// Range of query indices resolved to read back the previous sample.
    pub fn resolve_range(&self) -> (r: (u32, u32))
        requires
            1 <= self.sample_index_view(),
            (self.sample_index_view() - 1) * 2 + 1 <= u32::MAX,
        ensures
            r.0 == (self.sample_index_view() - 1) * 2,
            r.1 == r.0 + 1,
    {
        ((self.current_sample_index - 1) * 2, (self.current_sample_index - 1) * 2 + 1)
    }
}

} // verus!
