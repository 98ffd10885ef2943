use fmm_plugin::paths::Syntax;
use fmm_plugin::explorer::{
    library_path, list, merge_folders, midi_read_name, Explorer, Row, MAX_ENTRIES, MAX_MIDI_BYTES, MAX_ROOTS,
    MAX_STORED_ROOTS,
};
use fmm_plugin::paths::{is_audio, is_plausible_library, refuse_remote, same_or_inside};

fn row(dir: &str, name: &str, is_dir: bool) -> Row {
    Row { name: name.to_owned(), path: format!("{dir}/{name}"), is_dir }
}

fn resolved(path: &str) -> Option<String> {
    Some(path.to_owned())
}

fn roots_real(explorer: &Explorer) -> Vec<Option<String>> {
    explorer.snapshot().into_iter().map(Some).collect()
}

#[test]
fn lists_audio_and_midi_and_folders_and_nothing_else() {
    let dir = "/audio/listing";
    let rows = vec![
        row(dir, "kick.wav", false),
        row(dir, "snare.WAV", false),
        row(dir, "riff.mid", false),
        row(dir, "notes.txt", false),
        row(dir, "cover.png", false),
        row(dir, "Kicks", true),
        row(dir, ".hidden", true),
    ];
    let state = list(dir, &rows, Syntax::Posix);
    let names: Vec<&str> = state.entries.iter().map(|e| e.name.as_str()).collect();
    assert_eq!(names, vec!["Kicks", "kick.wav", "riff.mid", "snare.WAV"]);
    assert!(!state.truncated);
    assert!(state.entries[0].is_dir, "the folder sorts first");
    assert!(!state.entries[1].is_dir, "then the files");
    let kinds: Vec<&str> = state.entries.iter().map(|e| e.kind).collect();
    assert_eq!(kinds, vec!["dir", "audio", "midi", "audio"]);
}

#[test]
fn a_folder_past_the_bound_says_so_rather_than_stopping_quietly() {
    let dir = "/audio/bound";
    let rows: Vec<Row> = (0..(MAX_ENTRIES + 10)).map(|i| row(dir, &format!("s{i:05}.wav"), false)).collect();
    let state = list(dir, &rows, Syntax::Posix);
    assert!(state.truncated, "the page has to be able to say so");
    assert!(state.entries.len() <= MAX_ENTRIES);
}

#[test]
fn a_folder_that_does_not_exist_is_empty_rather_than_a_panic() {
    let state = list("this-folder-does-not-exist-anywhere", &Vec::new(), Syntax::Posix);
    assert!(state.entries.is_empty());
    assert!(!state.truncated);
}

#[test]
fn a_subfolder_can_be_opened_from_the_row_the_page_was_given() {
    let root = "/audio/descend";
    let mut explorer = Explorer::new(Syntax::Posix);
    explorer.restore(&vec![root.to_owned()]);
    let reals = roots_real(&explorer);
    explorer.open(root, &resolved(root), &reals).expect("the root opens");

    let rows = vec![row(root, "Kicks", true)];
    let listed = explorer.state(&rows, &resolved(root), &reals);
    let kicks = listed.entries.iter().find(|e| e.name == "Kicks").expect("the subfolder is listed");
    explorer.open(&kicks.path, &resolved(&kicks.path), &reals).expect("a listed subfolder must open");

    let inner = format!("{root}/Kicks");
    let rows = vec![row(&inner, "Vinyl", true), row(&inner, "kick-01.wav", false)];
    let inside = explorer.state(&rows, &resolved(&inner), &reals);
    let names: Vec<&str> = inside.entries.iter().map(|e| e.name.as_str()).collect();
    assert_eq!(names, vec!["Vinyl", "kick-01.wav"]);

    let vinyl = inside.entries.iter().find(|e| e.name == "Vinyl").expect("listed");
    explorer.open(&vinyl.path, &resolved(&vinyl.path), &reals).expect("a sub-subfolder must open as well");

    let file = inside.entries.iter().find(|e| !e.is_dir).expect("a sample is listed");
    assert!(explorer.contains(&file.path, &resolved(&file.path), &reals));
    assert!(refuse_remote(&file.path).is_ok());
}

#[test]
fn listing_a_folder_leaves_the_browse_location_where_it_was() {
    let root = "/audio/list-one";
    let mut explorer = Explorer::new(Syntax::Posix);
    explorer.restore(&vec![root.to_owned()]);
    let reals = roots_real(&explorer);
    explorer.open(root, &resolved(root), &reals).expect("the root opens");
    let before = explorer.state(&Vec::new(), &resolved(root), &reals).folder;

    let kicks_dir = format!("{root}/Kicks");
    let rows = vec![row(&kicks_dir, "kick-01.wav", false)];
    let kicks = explorer.list_one(&kicks_dir, &resolved(&kicks_dir), &reals, &rows).expect("a contained folder lists");
    let names: Vec<&str> = kicks.entries.iter().map(|e| e.name.as_str()).collect();
    assert_eq!(names, vec!["kick-01.wav"]);
    assert_eq!(explorer.state(&Vec::new(), &resolved(root), &reals).folder, before);
}

#[test]
fn listing_applies_containment_and_refuses_a_remote_path() {
    let mut explorer = Explorer::new(Syntax::Posix);
    explorer.restore(&vec!["/audio/list-guards".to_owned()]);
    let reals = roots_real(&explorer);
    let outside = "/audio/list-outside/secret";
    let error = explorer.list_one(outside, &resolved(outside), &reals, &Vec::new()).err().expect("refused");
    assert!(error.contains("sample library"), "{error}");
    let remote = r"\\evil.example.com\share";
    let error = explorer.list_one(remote, &None, &reals, &Vec::new()).err().expect("refused");
    assert!(error.contains("network path"), "{error}");
}

#[test]
fn the_project_and_the_machine_libraries_are_merged_without_duplicates() {
    let merged = merge_folders(
        vec!["C:/from-project".into(), "C:/shared".into()],
        vec!["C:/shared".into(), "C:/from-machine".into()],
    );
    assert_eq!(
        merged,
        vec!["C:/from-project".to_owned(), "C:/shared".to_owned(), "C:/from-machine".to_owned()]
    );
}

#[test]
fn a_standalone_with_no_project_still_gets_its_library_back() {
    let merged = merge_folders(Vec::new(), vec!["C:/samples".into()]);
    assert_eq!(merged, vec!["C:/samples".to_owned()]);
}

#[test]
fn opening_something_that_is_not_a_folder_is_refused_without_echoing_it() {
    let mut explorer = Explorer::new(Syntax::Posix);
    let error = explorer.open("not-a-real-folder", &None, &Vec::new()).unwrap_err();
    assert!(!error.contains("not-a-real-folder"), "{error}");
    assert!(error.contains("sample library"), "{error}");
}

#[test]
fn browsing_cannot_leave_the_folders_the_producer_added() {
    let library = "/tmp/containment/library";
    let inside = "/tmp/containment/library/kicks";
    let outside = "/tmp/containment/private";
    let mut explorer = Explorer::new(Syntax::Posix);
    explorer.restore(&vec![library.to_owned()]);
    let reals = roots_real(&explorer);
    explorer.open(inside, &resolved(inside), &reals).expect("a subfolder of a saved root is browsable");
    let error = explorer.open(outside, &resolved(outside), &reals).unwrap_err();
    assert!(error.contains("sample library"), "{error}");
    // The traversal spelling resolves to the private folder, which is outside.
    let escape = format!("{inside}/../../private");
    assert!(explorer.open(&escape, &resolved(outside), &reals).is_err());
    // Compared as written, `..` is a component of its own, so the spelling
    // alone never places it inside the library either.
    assert!(same_or_inside(library, &None, inside, &None, Syntax::Posix));
}

#[test]
fn up_stops_at_a_root_rather_than_walking_into_the_home_directory() {
    let library = "/tmp/up/library";
    let mut explorer = Explorer::new(Syntax::Posix);
    explorer.restore(&vec![library.to_owned()]);
    let reals = roots_real(&explorer);
    explorer.open(library, &resolved(library), &reals).unwrap();
    let state = explorer.state(&Vec::new(), &resolved(library), &reals);
    assert!(state.parent.is_none(), "a root has no 'up'");
    assert_eq!(state.roots.len(), 1);
    assert_eq!(state.roots[0].name, "library", "named, not a full path");

    let kicks = "/tmp/up/library/kicks";
    explorer.open(kicks, &resolved(kicks), &reals).unwrap();
    assert!(explorer.state(&Vec::new(), &resolved(kicks), &reals).parent.is_some());
}

#[test]
fn a_removed_root_takes_the_view_with_it() {
    let library = "/tmp/remove/library";
    let mut explorer = Explorer::new(Syntax::Posix);
    explorer.restore(&vec![library.to_owned()]);
    let reals = roots_real(&explorer);
    let kicks = "/tmp/remove/library/kicks";
    explorer.open(kicks, &resolved(kicks), &reals).unwrap();
    assert!(explorer.state(&Vec::new(), &resolved(kicks), &reals).folder.is_some());

    explorer.remove(library, &resolved(library), &resolved(kicks));
    let state = explorer.state(&Vec::new(), &None, &Vec::new());
    assert!(state.roots.is_empty());
    assert!(state.folder.is_none(), "the view must not outlive the root");
}

#[test]
fn a_library_folder_that_is_gone_is_kept_rather_than_dropped() {
    let mut explorer = Explorer::new(Syntax::Posix);
    explorer.restore(&vec!["/a/drive/that/is/not/plugged/in".into()]);
    assert_eq!(explorer.snapshot().len(), 1);
    assert_eq!(explorer.state(&Vec::new(), &None, &vec![None]).roots.len(), 1);
}

#[test]
fn a_project_file_cannot_plant_a_remote_folder_in_the_library() {
    let mut explorer = Explorer::new(Syntax::Posix);
    explorer.restore(&vec!["\\\\evil.example.com\\share".to_owned(), "//evil.example.com/share".to_owned()]);
    assert!(explorer.snapshot().is_empty(), "{:?}", explorer.snapshot());
}

#[test]
fn a_project_file_cannot_plant_more_roots_than_anyone_has() {
    let many: Vec<String> = (0..MAX_STORED_ROOTS * 10).map(|i| format!("/root/{i}")).collect();
    let mut explorer = Explorer::new(Syntax::Posix);
    explorer.restore(&many);
    assert_eq!(explorer.snapshot().len(), MAX_STORED_ROOTS);
}

#[test]
fn a_project_saved_with_more_folders_than_the_tab_strip_keeps_all_of_them() {
    let saved: Vec<String> = (0..12).map(|i| format!("/audio/library-{i}")).collect();
    let mut explorer = Explorer::new(Syntax::Posix);
    explorer.restore(&saved);
    assert_eq!(explorer.snapshot(), saved);
}

#[test]
fn a_ninth_folder_is_refused_before_the_dialog_opens() {
    let full: Vec<String> = (0..MAX_ROOTS).map(|i| format!("/root/{i}")).collect();
    let mut explorer = Explorer::new(Syntax::Posix);
    explorer.restore(&full);
    let error = explorer.pick().expect_err("a ninth folder must be refused");
    assert!(error.contains("close one"), "{error}");
    assert!(!explorer.picking(), "no dialog should have started");
}

#[test]
fn opening_a_remote_path_is_refused_before_anything_touches_it() {
    let mut explorer = Explorer::new(Syntax::Posix);
    let error = explorer.open("\\\\evil.example.com\\share", &None, &Vec::new()).unwrap_err();
    assert!(!error.contains("sample library"), "{error}");
}

#[test]
fn the_three_open_failures_are_indistinguishable() {
    let mut explorer = Explorer::new(Syntax::Posix);
    explorer.restore(&vec!["/tmp/oracle/library".to_owned()]);
    let reals = roots_real(&explorer);
    let missing = explorer.open("/tmp/oracle/nope", &None, &reals).unwrap_err();
    let real = explorer.open("/tmp/oracle/private", &resolved("/tmp/oracle/private"), &reals).unwrap_err();
    assert_eq!(missing.replace("nope", "X"), real.replace("private", "X"));
}

#[test]
fn the_saved_roots_round_trip() {
    let mut explorer = Explorer::new(Syntax::Posix);
    let saved = vec!["/audio/one".to_owned(), "/audio/two".to_owned()];
    explorer.restore(&saved);
    assert_eq!(explorer.snapshot(), saved, "order is the producer's");
}

#[test]
fn a_project_file_cannot_point_the_library_at_a_drive_or_a_profile() {
    let mut explorer = Explorer::new(Syntax::Posix);
    explorer.restore(&vec!["/".to_owned(), "/home".to_owned(), "/home/mike/Samples".to_owned()]);
    assert_eq!(explorer.snapshot(), vec!["/home/mike/Samples".to_owned()]);
}

#[test]
fn a_picked_folder_is_added_once_and_shown() {
    let mut explorer = Explorer::new(Syntax::Posix);
    explorer.pick().expect("a dialog may open");
    assert!(explorer.picking());
    assert!(explorer.pick().is_err(), "a second dialog is refused while one is open");
    explorer.picked(Some("/audio/new".to_owned()));
    assert!(!explorer.picking());
    assert_eq!(explorer.snapshot(), vec!["/audio/new".to_owned()]);
    assert_eq!(explorer.folder(), Some("/audio/new".to_owned()));
    explorer.pick().unwrap();
    explorer.picked(Some("/audio//new".to_owned()));
    assert_eq!(explorer.snapshot().len(), 1, "the same folder spelled differently is not added twice");
    explorer.pick().unwrap();
    explorer.picked(None);
    assert_eq!(explorer.snapshot().len(), 1);
}

#[test]
fn a_library_must_be_two_folders_deep() {
    assert!(!is_plausible_library("/", Syntax::Posix));
    assert!(!is_plausible_library("/home", Syntax::Posix));
    assert!(is_plausible_library("/home/mike", Syntax::Posix));
    assert!(is_plausible_library("/home/mike/Samples", Syntax::Posix));
}

#[test]
fn the_extension_list_matches_what_the_loader_accepts() {
    for extension in ["wav", "aif", "aiff", "flac", "mp3", "ogg", "WAV"] {
        assert!(is_audio(&format!("a.{extension}"), Syntax::Posix), "{extension} must be listed");
    }
    assert!(!is_audio("a.txt", Syntax::Posix));
    assert!(!is_audio("a", Syntax::Posix));
    assert!(!is_audio("a.mid", Syntax::Posix));
}

#[test]
fn a_file_outside_every_root_is_not_contained() {
    let mut explorer = Explorer::new(Syntax::Posix);
    explorer.restore(&vec!["/audio/library".to_owned()]);
    let reals = roots_real(&explorer);
    assert!(explorer.contains("/audio/library/kick.wav", &resolved("/audio/library/kick.wav"), &reals));
    assert!(!explorer.contains("/audio/elsewhere/kick.wav", &resolved("/audio/elsewhere/kick.wav"), &reals));
    assert!(!explorer.contains("/audio/library/gone.wav", &None, &reals), "a file that did not resolve is not there");
    assert!(!explorer.contains(r"\\host\share\kick.wav", &resolved(r"\\host\share\kick.wav"), &reals));
}

#[test]
fn a_waveform_outside_the_library_is_refused() {
    let mut explorer = Explorer::new(Syntax::Posix);
    explorer.restore(&vec!["/tmp/wave-guard/library".to_owned()]);
    let reals = roots_real(&explorer);
    let outside = "/tmp/wave-guard/secret.wav";
    let error = explorer.waveform_source(outside, &resolved(outside), &reals).unwrap_err();
    assert!(error.contains("sample library"), "{error}");
}

#[test]
fn something_that_is_not_a_sample_is_refused_before_it_is_decoded() {
    let mut explorer = Explorer::new(Syntax::Posix);
    explorer.restore(&vec!["/tmp/notaudio/library".to_owned()]);
    let reals = roots_real(&explorer);
    let path = "/tmp/notaudio/library/notes.txt";
    let error = explorer.waveform_source(path, &resolved(path), &reals).unwrap_err();
    assert!(error.contains("not a sample"), "{error}");
    let tone = "/tmp/notaudio/library/tone.wav";
    assert_eq!(explorer.waveform_source(tone, &resolved(tone), &reals).unwrap(), "tone.wav");
}

#[test]
fn reading_midi_applies_the_same_two_guards_as_every_other_path_command() {
    let mut explorer = Explorer::new(Syntax::Posix);
    explorer.restore(&vec!["/tmp/midi/library".to_owned()]);
    let reals = roots_real(&explorer);
    let remote = explorer.midi_source("\\\\evil.example.com\\share\\a.mid", &None, &reals).unwrap_err();
    assert!(!remote.contains("sample library"), "{remote}");
    let outside = "/tmp/midi-outside/loop.mid";
    let uncontained = explorer.midi_source(outside, &resolved(outside), &reals).unwrap_err();
    let missing = explorer.midi_source("/tmp/midi-outside/nope.mid", &None, &reals).unwrap_err();
    assert_eq!(uncontained, missing);
    let inside = "/tmp/midi/library/loop.mid";
    assert!(explorer.midi_source(inside, &resolved(inside), &reals).is_ok());
    assert_eq!(midi_read_name(inside, Some(2048), Syntax::Posix).unwrap(), "loop");
    assert!(midi_read_name(inside, Some(MAX_MIDI_BYTES + 1), Syntax::Posix).unwrap_err().contains("too large"));
    assert_eq!(midi_read_name(inside, None, Syntax::Posix).unwrap_err(), missing);
}

#[test]
fn all_three_commands_that_take_a_raw_path_apply_the_same_containment() {
    let mut explorer = Explorer::new(Syntax::Posix);
    explorer.restore(&vec!["/tmp/raw/library".to_owned()]);
    let reals = roots_real(&explorer);
    let outside = "/tmp/raw/elsewhere/kick.wav";
    assert!(explorer.preview_source(outside, &resolved(outside), &reals, true).unwrap_err().contains("sample library"));
    assert!(explorer.waveform_source(outside, &resolved(outside), &reals).unwrap_err().contains("sample library"));
    assert!(!explorer.contains(outside, &resolved(outside), &reals));
    let inside = "/tmp/raw/library/kick.wav";
    assert!(explorer.preview_source(inside, &resolved(inside), &reals, true).is_ok());
    assert_eq!(explorer.preview_source(inside, &resolved(inside), &reals, false).unwrap_err(), "that sample is not there");
}

#[test]
fn the_library_is_kept_per_user() {
    assert_eq!(library_path(Some("/data".into()), Syntax::Posix).unwrap(), "/data/library.json");
    assert_eq!(library_path(None, Syntax::Posix), None);
}

#[test]
fn listing_sorts_without_regard_to_case() {
    let dir = "/audio/case";
    let rows = vec![row(dir, "B.wav", false), row(dir, "a.wav", false), row(dir, "Zed", true), row(dir, "alpha", true)];
    let state = list(dir, &rows, Syntax::Posix);
    let names: Vec<&str> = state.entries.iter().map(|e| e.name.as_str()).collect();
    assert_eq!(names, vec!["alpha", "Zed", "a.wav", "B.wav"]);
    assert_eq!(state.parent.as_deref(), Some("/audio"));
}
