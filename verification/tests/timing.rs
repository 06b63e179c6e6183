use std::time::Duration;

use marigold::debug_profiler::{SampleList, TimeQuery, DEBUG_PROFILER_SAMPLE_COUNT};
use marigold::profile::{FpsCounter, GeometryPassFrametimes, TimeCounter, FPS_NUM_SAMPLES};
use marigold::time::Time;

fn ms(n: u64) -> Duration {
    Duration::from_millis(n)
}

#[test]
fn counter_starts_with_zero_slots() {
    let counter = TimeCounter::default();
    assert_eq!(counter.count(), 0);
    assert_eq!(counter.samples().len(), FPS_NUM_SAMPLES);
    assert!(counter.samples().iter().all(|d| *d == Duration::ZERO));
    assert_eq!(FpsCounter::default().0.count(), 0);
    assert_eq!(GeometryPassFrametimes::default().0.count(), 0);
}

#[test]
fn counter_fills_slots_in_order() {
    let mut counter = TimeCounter::default();
    counter.tick(ms(1));
    counter.tick(ms(2));
    counter.tick(ms(3));
    assert_eq!(counter.count(), 3);
    assert_eq!(&counter.samples()[0..4], &[ms(1), ms(2), ms(3), Duration::ZERO]);
}

#[test]
fn counter_overwrites_the_oldest_once_full() {
    let mut counter = TimeCounter::default();
    for i in 0..(FPS_NUM_SAMPLES as u64 + 2) {
        counter.tick(ms(i + 1));
    }
    assert_eq!(counter.count(), FPS_NUM_SAMPLES);
    // the first two slots hold the two newest times
    assert_eq!(counter.samples()[0], ms(FPS_NUM_SAMPLES as u64 + 1));
    assert_eq!(counter.samples()[1], ms(FPS_NUM_SAMPLES as u64 + 2));
    assert_eq!(counter.samples()[2], ms(3));
}

#[test]
fn average_of_no_samples_is_zero() {
    let list = SampleList::default();
    assert_eq!(list.average(), Duration::ZERO);
}

#[test]
fn average_rounds_down_to_the_nanosecond() {
    let mut list = SampleList::default();
    list.push(Duration::from_nanos(10));
    list.push(Duration::from_nanos(11));
    list.push(Duration::from_nanos(11));
    assert_eq!(list.average(), Duration::from_nanos(10));
    let mut list = SampleList::default();
    list.push(Duration::new(3, 0));
    list.push(Duration::new(4, 500_000_000));
    assert_eq!(list.average(), Duration::new(3, 750_000_000));
}

#[test]
fn average_covers_only_the_ring() {
    let mut list = SampleList::default();
    for _ in 0..DEBUG_PROFILER_SAMPLE_COUNT {
        list.push(ms(100));
    }
    list.push(ms(40));
    // one slot of the ring now holds 40 ms, the others 100 ms
    let expected = (ms(100) * (DEBUG_PROFILER_SAMPLE_COUNT as u32 - 1) + ms(40)) / DEBUG_PROFILER_SAMPLE_COUNT as u32;
    assert_eq!(list.average(), expected);
}

#[test]
fn clock_counts_frames() {
    let mut time = Time::new();
    assert_eq!(time.frame_count(), 0);
    assert_eq!(time.delta(), Duration::ZERO);
    time.tick();
    time.tick();
    assert_eq!(time.frame_count(), 2);
}

#[test]
fn timestamp_queries_cycle_through_the_slots() {
    let mut query = TimeQuery::new();
    assert_eq!(query.wrap_sample_index(), 0);
    assert_eq!(query.pass_timestamp_indices(), (0, 1));
    assert_eq!(query.write_start_timestamp(), 0);
    assert_eq!(query.write_end_timestamp(), 1);
    assert_eq!(query.resolve_range(), (0, 1));
    assert_eq!(query.pass_timestamp_indices(), (2, 3));
    for _ in 1..DEBUG_PROFILER_SAMPLE_COUNT {
        query.write_start_timestamp();
        query.write_end_timestamp();
    }
    // back at the first slot
    assert_eq!(query.wrap_sample_index(), 0);
    assert_eq!(query.write_start_timestamp(), 0);
    assert_eq!(query.write_end_timestamp(), 1);
    let last = 2 * DEBUG_PROFILER_SAMPLE_COUNT as u32;
    assert_eq!(query.resolve_range(), (last, last + 1));
}

#[test]
fn average_frame_time_of_recorded_frames() {
    let mut counter = TimeCounter::default();
    assert_eq!(counter.average_frame_time(), Duration::ZERO);
    counter.tick(ms(10));
    counter.tick(ms(20));
    counter.tick(Duration::from_nanos(1));
    assert_eq!(counter.average_frame_time(), Duration::from_nanos(10_000_000));
    let mut fps = FpsCounter::default();
    fps.0.tick(ms(16));
    assert_eq!(fps.0.average_frame_time(), ms(16));
}

#[test]
fn average_is_the_mean_of_the_last_pushes() {
    let mut list = SampleList::default();
    list.push(ms(10));
    list.push(ms(20));
    list.push(ms(25));
    assert_eq!(list.average(), Duration::from_nanos(18_333_333));
    assert_eq!(list.checked_average(), Some(Duration::from_nanos(18_333_333)));
    let mut list = SampleList::default();
    for k in 0..(DEBUG_PROFILER_SAMPLE_COUNT as u64 + 5) {
        list.push(ms(k));
    }
    // the last sixty pushes are 5 ms ..= 64 ms
    let expected: u64 = (5..65u64).sum::<u64>() * 1_000_000 / DEBUG_PROFILER_SAMPLE_COUNT as u64;
    assert_eq!(list.average(), Duration::from_nanos(expected));
}

#[test]
fn checked_average_refuses_an_overflowing_sum() {
    let mut list = SampleList::default();
    assert_eq!(list.checked_average(), Some(Duration::ZERO));
    list.push(Duration::MAX);
    assert_eq!(list.checked_average(), Some(Duration::MAX));
    list.push(Duration::from_nanos(1));
    assert_eq!(list.checked_average(), None);
    let mut counter = TimeCounter::default();
    counter.tick(Duration::MAX);
    counter.tick(Duration::MAX);
    assert_eq!(counter.checked_average_frame_time(), None);
}

#[test]
fn ring_slots_after_wrapping() {
    let mut counter = TimeCounter::default();
    for k in 0..65u64 {
        counter.tick(ms(k + 1));
    }
    let samples = counter.samples();
    assert_eq!(samples.len(), 64);
    assert_eq!(samples[0], ms(65));
    assert_eq!(samples[1], ms(2));
    assert_eq!(samples[63], ms(64));
}

#[test]
fn frame_count_counts_every_tick() {
    let mut time = Time::new();
    for k in 1..=10u128 {
        time.tick();
        assert_eq!(time.frame_count(), k);
    }
}

#[test]
fn recorded_frames_set_the_frame_time() {
    let mut time = Time::new();
    let now = std::time::Instant::now();
    time.record_frame(now, ms(16));
    assert_eq!(time.delta(), ms(16));
    assert_eq!(time.frame_count(), 1);
    time.record_frame(now, ms(7));
    assert_eq!(time.delta(), ms(7));
    assert_eq!(time.frame_count(), 2);
}
