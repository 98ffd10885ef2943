use fmm_plugin::paths::Syntax;
use fmm_plugin::export::{
    cut_patterns, distinct, in_sequence, part_label, per_lane, stem_file_names, stem_name, with_extension, Cut,
    Exports, LaneTrack, Note, Pattern, Region, Status,
};
use fmm_plugin::names::{safe_file_name, sanitize};

#[test]
fn a_name_that_could_be_a_path_is_reduced_to_a_name() {
    assert_eq!(sanitize("../../etc/passwd"), "etc-passwd");
    assert_eq!(sanitize("trap/../../x"), "trap-x");
    assert_eq!(sanitize("osamason-2291.mid"), "osamason-2291.mid");
    assert_eq!(sanitize("uk drill 7"), "uk-drill-7");
}

#[test]
fn an_unusable_name_still_produces_a_file_name() {
    assert_eq!(sanitize(""), "song.mid");
    assert_eq!(sanitize("///"), "song.mid");
    assert_eq!(sanitize(".."), "song.mid");
}

#[test]
fn the_extension_is_added_once_and_only_when_missing() {
    assert_eq!(with_extension("beat", Syntax::Posix), "beat.mid");
    assert_eq!(with_extension("beat.mid", Syntax::Posix), "beat.mid");
    assert_eq!(with_extension("beat.MID", Syntax::Posix), "beat.MID");
    assert_eq!(with_extension("beat.wav", Syntax::Posix), "beat.mid");
}

#[test]
fn the_extension_goes_on_the_file_name_and_not_on_the_folder() {
    assert_eq!(with_extension("/home/mike/exports/beat", Syntax::Posix), "/home/mike/exports/beat.mid");
    assert_eq!(with_extension("/home/mike.v2/beat", Syntax::Posix), "/home/mike.v2/beat.mid");
    assert_eq!(with_extension("/home/mike/beat/", Syntax::Posix), "/home/mike/beat.mid");
    assert_eq!(with_extension(".hidden", Syntax::Posix), ".hidden.mid");
    assert_eq!(with_extension("/", Syntax::Posix), "/");
    assert_eq!(with_extension("..", Syntax::Posix), "..");
}

#[test]
fn a_terminal_status_is_taken_once_and_running_is_not() {
    let mut exports = Exports::new();
    exports.publish(Status::Done { path: "C:/x/beat.mid".into() });
    assert!(matches!(exports.take_status(), Status::Done { .. }));
    assert_eq!(exports.take_status(), Status::Idle);

    exports.publish(Status::Running);
    assert_eq!(exports.take_status(), Status::Running);
    assert_eq!(exports.take_status(), Status::Running, "running is not an outcome");
}

#[test]
fn cancelling_is_not_a_failure() {
    let mut exports = Exports::new();
    exports.publish(Status::Cancelled);
    let taken = exports.take_status();
    assert_eq!(taken, Status::Cancelled);
    assert!(!matches!(taken, Status::Failed { .. }));
}

#[test]
fn a_song_that_plays_nothing_is_refused_rather_than_writing_an_empty_folder() {
    let mut exports = Exports::default();
    let err = exports.start_song_stems(0, "trap-1-stems").unwrap_err();
    assert!(err.contains("plays nothing"), "{err}");
    assert_eq!(exports.take_status(), Status::Idle);
}

#[test]
fn a_second_export_is_refused_while_one_is_open() {
    let mut exports = Exports::new();
    assert_eq!(exports.start_song_midi("trap 7").unwrap(), "trap-7");
    let err = exports.start_song_midi("trap 8").unwrap_err();
    assert!(err.contains("already open"), "{err}");
    exports.publish(Status::Done { path: "/x/trap-7.mid".into() });
    assert_eq!(exports.start_song_stems(2, "trap 7 stems").unwrap(), "trap-7-stems");
}

#[test]
fn pattern_stems_are_refused_before_any_dialog_opens() {
    let mut exports = Exports::new();
    let err = exports.start_pattern_stems(&vec![0, 0], "loop", false, true, None).unwrap_err();
    assert!(err.contains("play nothing"), "{err}");
    let err = exports.start_pattern_stems(&vec![3], "loop", true, false, None).unwrap_err();
    assert!(err.contains("did not load"), "{err}");
    let err = exports
        .start_pattern_stems(&vec![3], "loop", true, true, Some("that is too long to render".into()))
        .unwrap_err();
    assert_eq!(err, "that is too long to render");
    assert_eq!(exports.take_status(), Status::Idle, "a refusal claims nothing");
    assert_eq!(exports.start_pattern_stems(&vec![3], "my loop", false, false, Some("ignored".into())).unwrap(), "my-loop");
    assert_eq!(exports.take_status(), Status::Running);
}

#[test]
fn distinct_numbers_a_name_that_was_already_taken() {
    let mut taken: Vec<String> = Vec::new();
    assert_eq!(distinct(&mut taken, "kick".into()), "kick");
    assert_eq!(distinct(&mut taken, "kick".into()), "kick (2)");
    assert_eq!(distinct(&mut taken, "kick".into()), "kick (3)");
    assert_eq!(distinct(&mut taken, "kick (2)".into()), "kick (2) (2)");
    assert_eq!(taken.len(), 4);
}

#[test]
fn a_hundred_identical_stems_get_a_hundred_names() {
    let mut taken: Vec<String> = Vec::new();
    let names: Vec<String> = (0..100).map(|_| distinct(&mut taken, "hat".into())).collect();
    assert_eq!(names[0], "hat");
    assert_eq!(names[1], "hat (2)");
    assert_eq!(names[99], "hat (100)");
    let mut unique = names.clone();
    unique.sort();
    unique.dedup();
    assert_eq!(unique.len(), 100);
}

#[test]
fn two_patterns_that_would_share_a_name_get_two_files() {
    let stem = "trap - Drums - 140 BPM - C# Minor".to_owned();
    let names = stem_file_names(&vec![Some(stem.clone()), Some(stem)], ".mid");
    assert_eq!(
        names,
        vec!["trap - Drums - 140 BPM - C# Minor.mid", "trap - Drums - 140 BPM - C# Minor (2).mid"]
    );
}

#[test]
fn a_pattern_that_makes_no_file_reserves_no_name() {
    let stem = "trap - Snare - 140 BPM - C# Minor".to_owned();
    let names = stem_file_names(&vec![None, Some(stem.clone()), None, Some(stem)], ".wav");
    assert_eq!(
        names,
        vec!["trap - Snare - 140 BPM - C# Minor.wav", "trap - Snare - 140 BPM - C# Minor (2).wav"]
    );
}

#[test]
fn a_stem_is_labelled_the_way_a_producer_would_label_it() {
    assert_eq!(stem_name("trap", "Snare", 140, "C# Minor"), "trap - Snare - 140 BPM - C# Minor");
    assert_eq!(stem_name("uk-drill", "Drums", 140, "C# Minor"), "uk-drill - Drums - 140 BPM - C# Minor");
}

#[test]
fn a_crafted_artist_id_cannot_write_outside_the_chosen_folder() {
    let name = stem_name("../../etc/passwd", "Kick", 140, "C# Minor");
    assert!(!name.contains('/'), "{name}");
    assert!(!name.contains('\\'), "{name}");
    assert!(!name.contains(".."), "{name}");
}

#[test]
fn the_readable_form_survives_where_sanitize_would_destroy_it() {
    let name = stem_name("trap", "Snare", 140, "C# Minor");
    assert!(name.contains(" - "), "spaces must survive: {name}");
    assert!(name.contains("C#"), "the sharp must survive: {name}");
    assert_ne!(sanitize(&name), name, "sanitize is the stricter one");
}

#[test]
fn a_negative_tempo_keeps_its_sign() {
    assert_eq!(stem_name("a", "b", -5, "c"), "a - b - -5 BPM - c");
    assert_eq!(stem_name("a", "b", 0, "c"), "a - b - 0 BPM - c");
}

#[test]
fn an_unusable_stem_name_is_still_a_name() {
    assert_eq!(safe_file_name("///"), "stem");
    assert_eq!(safe_file_name("  a:b  "), "a-b");
}

fn note(start_tick: u32) -> Note {
    Note { start_tick, len_ticks: 240, pitch: 38, vel: 100 }
}

fn pattern(lane: u8) -> Pattern {
    Pattern { bars: 4, ticks_per_bar: 1920, lanes: vec![LaneTrack { lane, notes: vec![note(0)] }], clip_region: None }
}

fn three_lanes() -> Pattern {
    let mut source = pattern(0);
    source.lanes.push(LaneTrack { lane: 1, notes: vec![] });
    source.lanes.push(LaneTrack { lane: 2, notes: vec![note(0)] });
    source
}

#[test]
fn splitting_by_lane_gives_one_pattern_per_lane_and_drops_the_empty_ones() {
    let source = three_lanes();
    let split = per_lane(&source);
    assert_eq!(split.len(), 2, "the empty snare lane gets no file");
    for one in &split {
        assert_eq!(one.bars, source.bars);
        assert_eq!(one.ticks_per_bar, source.ticks_per_bar);
        assert_eq!(one.lanes.len(), 1);
    }
    assert_eq!(split[0].lanes[0].lane, 0);
    assert_eq!(split[1].lanes[0].lane, 2);
}

#[test]
fn a_sequential_cut_starts_each_lane_where_the_last_one_ended() {
    let kit = three_lanes();
    let span = kit.ticks_per_bar * u32::from(kit.bars);
    let cut = in_sequence(&kit);
    assert_eq!(cut.len(), 2, "one clip per playing lane, still separate files");
    for (index, one) in cut.iter().enumerate() {
        assert_eq!(one.lanes[0].notes[0].start_tick, span * index as u32);
    }
}

#[test]
fn a_sequential_clip_is_long_enough_to_hold_the_notes_it_was_given() {
    let kit = three_lanes();
    for (index, one) in in_sequence(&kit).iter().enumerate() {
        let last = one.lanes[0].notes.iter().map(|n| n.start_tick).max().unwrap();
        assert!(last < one.ticks_per_bar * u32::from(one.bars), "lane {index}'s notes fall outside its own clip");
    }
}

#[test]
fn the_stacked_cut_leaves_every_lane_at_the_start() {
    let kit = three_lanes();
    for one in per_lane(&kit) {
        assert_eq!(one.lanes[0].notes[0].start_tick, 0);
        assert_eq!(one.bars, kit.bars, "the clip grew when it should not have");
    }
}

#[test]
fn a_trimmed_clip_moves_with_its_lane() {
    let mut kit = three_lanes();
    kit.clip_region = Some(Region { from_tick: 100, to_tick: 200 });
    let cut = in_sequence(&kit);
    let span = kit.ticks_per_bar * u32::from(kit.bars);
    assert_eq!(cut[0].clip_region, Some(Region { from_tick: 100, to_tick: 200 }));
    assert_eq!(cut[1].clip_region, Some(Region { from_tick: 100 + span, to_tick: 200 + span }));
    assert_eq!(cut[1].bars, 8);
}

#[test]
fn a_pathological_clip_saturates_rather_than_wrapping() {
    let mut kit = three_lanes();
    kit.bars = u16::MAX;
    kit.ticks_per_bar = u32::MAX;
    let cut = in_sequence(&kit);
    assert_eq!(cut[1].lanes[0].notes[0].start_tick, u32::MAX);
    assert_eq!(cut[1].bars, u16::MAX);
}

#[test]
fn a_part_that_plays_nothing_gets_no_file_rather_than_a_silent_one() {
    let mut silent = pattern(0);
    silent.lanes[0].notes.clear();
    assert!(per_lane(&silent).is_empty());
    assert!(stem_file_names(&vec![None], ".mid").is_empty());
}

/// The engine's lane names for the lanes these tests use.
fn lane_name(lane: u8) -> &'static str {
    match lane {
        0 => "Kick",
        1 => "Snare",
        _ => "ClosedHat",
    }
}

/// The file names a cut gives, named the way the stems are.
fn names(patterns: &[Pattern], cut: Cut, audio: bool) -> Vec<String> {
    let by_lane = cut != Cut::Parts;
    let stems: Vec<Option<String>> = cut_patterns(&patterns.to_vec(), cut, audio)
        .iter()
        .map(|p| {
            let what = match (by_lane, p.lanes.first()) {
                (true, Some(track)) => lane_name(track.lane).to_owned(),
                _ => part_label("FMM Drums"),
            };
            let plays = p.lanes.iter().any(|track| !track.notes.is_empty());
            if plays {
                Some(stem_name("trap", &what, 140, "C# Minor"))
            } else {
                None
            }
        })
        .collect();
    stem_file_names(&stems, if audio { ".wav" } else { ".mid" })
}

#[test]
fn splitting_by_lane_names_every_file_after_its_own_lane() {
    assert_eq!(
        names(&[three_lanes()], Cut::EveryLane, false),
        vec!["trap - Kick - 140 BPM - C# Minor.mid", "trap - ClosedHat - 140 BPM - C# Minor.mid"],
        "the empty snare lane must get no file at all"
    );
}

#[test]
fn without_the_split_the_whole_part_is_one_file_named_for_the_part() {
    assert_eq!(names(&[three_lanes()], Cut::Parts, false), vec!["trap - Drums - 140 BPM - C# Minor.mid"]);
}

#[test]
fn both_layouts_name_their_files_the_same_way() {
    let sequential = names(&[three_lanes()], Cut::EveryLaneInSequence, false);
    let stacked = names(&[three_lanes()], Cut::EveryLane, false);
    assert_eq!(sequential, stacked);
    assert_eq!(sequential.len(), 2);
}

#[test]
fn audio_stacks_a_sequential_cut() {
    let kit = three_lanes();
    let cut = cut_patterns(&vec![kit.clone()], Cut::EveryLaneInSequence, true);
    assert_eq!(cut, per_lane(&kit));
    let midi = cut_patterns(&vec![kit.clone()], Cut::EveryLaneInSequence, false);
    assert_eq!(midi, in_sequence(&kit));
}

#[test]
fn one_lane_is_cut_out_on_its_own() {
    let kit = three_lanes();
    let hats = cut_patterns(&vec![kit.clone(), kit], Cut::OneLane(2), false);
    assert_eq!(hats.len(), 2);
    assert!(hats.iter().all(|p| p.lanes.len() == 1 && p.lanes[0].lane == 2));
    assert!(cut_patterns(&vec![three_lanes()], Cut::OneLane(1), false).is_empty(), "an empty lane has nothing to cut");
}

#[test]
fn the_engine_prefix_is_dropped_from_a_part_name() {
    assert_eq!(part_label("FMM Drums"), "Drums");
    assert_eq!(part_label("FMM FMM Bass"), "Bass");
    assert_eq!(part_label("Melody"), "Melody");
    assert_eq!(part_label("FMM"), "FMM");
}
