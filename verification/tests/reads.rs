use fmm_plugin::beats::{backbeat_lane, backbeat_steps, sixteenths_per_bar, SnareLane};
use fmm_plugin::jobs::{Jobs, ReadStatus, MAX_IN_FLIGHT};

fn path_of(status: &ReadStatus<u32>) -> Option<&str> {
    match status {
        ReadStatus::Idle => None,
        ReadStatus::Running { path } | ReadStatus::Done { path, .. } | ReadStatus::Failed { path, .. } => Some(path),
    }
}

#[test]
fn the_command_returns_before_the_work_does() {
    let mut jobs: Jobs<u32> = Jobs::new();
    jobs.start("returns-early.wav".into()).expect("the first reads must be accepted");
    assert!(matches!(jobs.take(), ReadStatus::Running { .. }));
}

#[test]
fn a_finished_read_is_reported_once_and_then_forgotten() {
    let mut jobs: Jobs<u32> = Jobs::new();
    let token = jobs.start("taken-once.wav".into()).unwrap();
    jobs.finish(token, ReadStatus::Done { path: "taken-once.wav".into(), split: 7 });
    assert!(matches!(jobs.take(), ReadStatus::Done { split: 7, .. }));
    assert!(matches!(jobs.take(), ReadStatus::Idle), "the slot should be empty");
}

#[test]
fn a_cancelled_read_never_lands() {
    let mut jobs: Jobs<u32> = Jobs::new();
    let token = jobs.start("cancelled.wav".into()).unwrap();
    jobs.cancel();
    jobs.finish(token, ReadStatus::Done { path: "cancelled.wav".into(), split: 1 });
    assert!(matches!(jobs.take(), ReadStatus::Idle), "the slot should be empty");
}

#[test]
fn a_second_read_replaces_the_first_rather_than_being_refused() {
    let mut jobs: Jobs<u32> = Jobs::new();
    let first = jobs.start("first.wav".into()).unwrap();
    let second = jobs.start("second.wav".into()).unwrap();
    jobs.finish(second, ReadStatus::Done { path: "second.wav".into(), split: 2 });
    jobs.finish(first, ReadStatus::Done { path: "first.wav".into(), split: 1 });
    let settled = jobs.take();
    assert_eq!(path_of(&settled), Some("second.wav"));
}

#[test]
fn a_flood_of_starts_is_refused_rather_than_spawning_a_thread_each() {
    let mut jobs: Jobs<u32> = Jobs::new();
    let mut tokens = Vec::new();
    for i in 0..MAX_IN_FLIGHT {
        tokens.push(jobs.start(format!("{i}.wav")).expect("within the bound"));
    }
    let error = jobs.start("one-too-many.wav".into()).unwrap_err();
    assert!(error.contains("too many"), "{error}");
    jobs.finish(tokens[0], ReadStatus::Failed { path: "0.wav".into(), reason: "gone".into() });
    assert!(jobs.start("room-again.wav".into()).is_ok(), "a finished worker gives its place back");
}

#[test]
fn four_four_has_its_backbeat_on_two_and_four() {
    assert_eq!(backbeat_steps(4, 4), vec![4, 12]);
    assert_eq!(sixteenths_per_bar(4, 4), 16);
}

#[test]
fn the_backbeat_is_derived_from_the_meter() {
    assert_eq!(backbeat_steps(6, 8), vec![2, 6, 10]);
    assert_eq!(sixteenths_per_bar(6, 8), 12);
    assert_eq!(backbeat_steps(3, 4), vec![4]);
    assert_eq!(backbeat_steps(1, 4), Vec::<u32>::new());
    assert_eq!(sixteenths_per_bar(1, 32), 1, "a bar is never shorter than one sixteenth");
    assert_eq!(sixteenths_per_bar(4, 0), 64, "a zero denominator reads as one");
    assert_eq!(backbeat_steps(2, 32), vec![1]);
}

#[test]
fn a_broadband_hit_lands_on_the_snare_lane_its_position_says() {
    let steps = backbeat_steps(4, 4);
    assert_eq!(backbeat_lane(4, &steps), SnareLane::Snare);
    assert_eq!(backbeat_lane(12, &steps), SnareLane::Snare);
    assert_eq!(backbeat_lane(7, &steps), SnareLane::GhostSnare);
    assert_eq!(backbeat_lane(8, &steps), SnareLane::OffSnare);
}
