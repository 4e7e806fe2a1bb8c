use ename::engine::log::{Level, LogRing, DEFAULT_CAPACITY};
use ename::engine::time::{ClockAction, TimeControl};

fn fill(ring: &mut LogRing, count: usize) {
    for i in 0..count {
        ring.push(i as u64, Level::Info, "test", i.to_string());
    }
}

#[test]
fn interning_is_stable_and_resolves_back() {
    let mut ring = LogRing::new(DEFAULT_CAPACITY);
    ring.push(0, Level::Info, "one", "a".to_owned());
    ring.push(1, Level::Warn, "two", "b".to_owned());
    ring.push(2, Level::Info, "one", "c".to_owned());

    let first = ring.get(0).unwrap();
    let second = ring.get(1).unwrap();
    let third = ring.get(2).unwrap();
    assert_eq!(first.target, third.target);
    assert_ne!(first.target, second.target);
    assert_eq!(ring.resolve(first.target), "one");
    assert_eq!(ring.resolve(second.target), "two");
}

#[test]
fn drops_the_oldest_entry_once_full() {
    let mut ring = LogRing::new(DEFAULT_CAPACITY);
    fill(&mut ring, DEFAULT_CAPACITY + 10);

    assert_eq!(ring.len(), DEFAULT_CAPACITY);
    // Sequence numbers keep counting past the drop, so a reader polling with
    // `after_sequence` is not sent backwards by the buffer wrapping.
    assert_eq!(ring.sequence_range(), Some((10, (DEFAULT_CAPACITY + 9) as u64)));
    assert!(ring.by_sequence(9).is_none());
    assert_eq!(ring.by_sequence(10).unwrap().message, "10");
}

#[test]
fn shrinking_the_capacity_drops_from_the_front() {
    let mut ring = LogRing::new(DEFAULT_CAPACITY);
    fill(&mut ring, 100);
    ring.set_capacity(10);

    assert_eq!(ring.len(), 10);
    assert_eq!(ring.sequence_range(), Some((90, 99)));
}

#[test]
fn clearing_keeps_counting() {
    let mut ring = LogRing::new(DEFAULT_CAPACITY);
    fill(&mut ring, 5);
    ring.clear();
    fill(&mut ring, 1);

    assert_eq!(ring.sequence_range(), Some((5, 5)));
}

#[test]
fn a_ring_of_no_capacity_records_nothing() {
    let mut ring = LogRing::new(0);
    fill(&mut ring, 3);
    assert!(ring.is_empty());
    assert_eq!(ring.sequence_range(), None);
}

#[test]
fn an_unknown_target_resolves_to_nothing() {
    let ring = LogRing::new(4);
    assert_eq!(ring.resolve(ename::engine::log::Target(7)), "");
}

#[test]
fn a_sequence_not_yet_written_is_not_found() {
    let mut ring = LogRing::new(4);
    fill(&mut ring, 2);
    assert!(ring.by_sequence(2).is_none());
    assert_eq!(ring.by_sequence(1).unwrap().sequence, 1);
}

#[test]
fn levels_print_in_capitals() {
    assert_eq!(Level::Trace.as_str(), "TRACE");
    assert_eq!(Level::Debug.as_str(), "DEBUG");
    assert_eq!(Level::Info.as_str(), "INFO");
    assert_eq!(Level::Warn.as_str(), "WARN");
    assert_eq!(Level::Error.as_str(), "ERROR");
}

#[test]
fn a_step_runs_its_frames_and_pauses() {
    let mut time = TimeControl::new();
    assert_eq!(time.step(2), ClockAction::Unpause);
    assert_eq!(time.steps_remaining(), Some(2));
    assert_eq!(time.frame_end(), None);
    assert_eq!(time.steps_remaining(), Some(1));
    assert_eq!(time.frame_end(), Some(ClockAction::Pause));
    assert_eq!(time.steps_remaining(), None);
    assert_eq!(time.frame_end(), None);
}

#[test]
fn a_step_of_no_frames_is_a_pause() {
    let mut time = TimeControl::new();
    assert_eq!(time.step(0), ClockAction::Pause);
    assert_eq!(time.steps_remaining(), None);
}

#[test]
fn pausing_or_resuming_cancels_a_step() {
    let mut time = TimeControl::new();
    time.step(5);
    assert_eq!(time.resume(), ClockAction::Unpause);
    assert_eq!(time.steps_remaining(), None);
    time.step(5);
    assert_eq!(time.pause(), ClockAction::Pause);
    assert_eq!(time.steps_remaining(), None);
}
