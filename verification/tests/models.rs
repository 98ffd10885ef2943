use fmm_plugin::paths::Syntax;
use fmm_plugin::models::mine_ids;
use fmm_plugin::models::{contains_text, is_ours, names_candidate};
use fmm_plugin::models::{
    copied_name, copy_budget, delete, export, indexed_samples, is_safe_sample_name, measurable, note_copy,
    read_files, sample_cost, samples_dir, samples_folder, usable_id, user_dir, SampleCost,
};

fn shipped() -> Vec<String> {
    vec!["trap".to_owned(), "uk-drill".to_owned()]
}

fn dark_trap(id: &str) -> String {
    let mut model = serde_json::Map::new();
    model.insert("id".to_owned(), serde_json::Value::String(id.to_owned()));
    model.insert("type".to_owned(), serde_json::Value::String("artist".to_owned()));
    model.insert("name".to_owned(), serde_json::Value::String("My Dark Trap".to_owned()));
    model.insert(
        "extends".to_owned(),
        serde_json::Value::Array(vec![serde_json::Value::String("trap".to_owned())]),
    );
    serde_json::Value::Object(model).to_string()
}

#[test]
fn an_id_a_shipped_model_already_uses_is_refused_rather_than_shadowing_it() {
    let error = usable_id(&dark_trap("trap"), &shipped()).unwrap_err();
    assert!(error.contains("trap"), "{error}");
    assert!(error.contains("shipped"), "{error}");
}

#[test]
fn an_id_that_could_not_be_a_filename_is_refused_before_it_becomes_a_path() {
    for bad in ["../escape", "C:/somewhere", "My Style", "_defaults"] {
        assert!(usable_id(&dark_trap(bad), &shipped()).is_err(), "`{bad}` must not be accepted as a model id");
    }
    assert_eq!(usable_id(&dark_trap("  my-dark-trap "), &shipped()).unwrap(), "my-dark-trap");
}

#[test]
fn a_model_without_an_id_says_so() {
    assert_eq!(usable_id("{\"name\": \"x\"}", &shipped()).unwrap_err(), "a model needs an `id`");
    assert_eq!(usable_id("{\"id\": \"   \"}", &shipped()).unwrap_err(), "a model needs an `id`");
    assert_eq!(usable_id("{\"id\": 7}", &shipped()).unwrap_err(), "a model needs an `id`");
    assert_eq!(usable_id("not json", &shipped()).unwrap_err(), "a model needs an `id`");
    assert!(usable_id(&dark_trap("_x"), &shipped()).unwrap_err().contains("reserved"));
}

#[test]
fn a_file_whose_name_disagrees_with_its_id_never_reaches_the_roster() {
    let listing = vec![
        ("/data/models/my-dark-trap.json".to_owned(), dark_trap("my-dark-trap")),
        ("/data/models/backup.json".to_owned(), dark_trap("something-else")),
    ];
    let files = read_files(&listing, Syntax::Posix);
    assert_eq!(files.len(), 1);
    assert_eq!(files[0].0, "<user>/my-dark-trap.json");
}

#[test]
fn a_broken_file_is_skipped_with_a_reason_and_the_others_still_load() {
    let listing = vec![
        ("/data/models/my-dark-trap.json".to_owned(), dark_trap("my-dark-trap")),
        ("/data/models/broken.json".to_owned(), "{ not json".to_owned()),
        ("/data/models/Notes.json".to_owned(), "{}".to_owned()),
        ("/data/models/readme.txt".to_owned(), "hello".to_owned()),
    ];
    let names: Vec<String> = read_files(&listing, Syntax::Posix).into_iter().map(|(name, _)| name).collect();
    assert_eq!(names, vec!["<user>/broken.json", "<user>/my-dark-trap.json"]);
}

#[test]
fn a_deleted_model_is_gone_and_a_shipped_one_cannot_be_deleted() {
    assert_eq!(delete("/data/models", "my-dark-trap", &shipped(), Syntax::Posix).unwrap(), "/data/models/my-dark-trap.json");
    let error = delete("/data/models", "trap", &shipped(), Syntax::Posix).unwrap_err();
    assert!(error.contains("shipped"), "{error}");
    assert!(delete("/data/models", "../x", &shipped(), Syntax::Posix).unwrap_err().contains("is not a model id"));
    assert_eq!(export("/data/models", "mine", Syntax::Posix).unwrap(), "/data/models/mine.json");
    assert!(export("/data/models", "Mine", Syntax::Posix).is_err());
}

#[test]
fn one_sample_on_two_lanes_is_counted_once_and_stored_once() {
    let twice = vec![("/lib/clap.wav".to_owned(), 1024u64), ("/lib//clap.wav".to_owned(), 1024u64)];
    assert_eq!(sample_cost(&twice, Syntax::Posix), SampleCost { count: 1, bytes: 1024 });

    let mut index: Vec<(u8, String)> = Vec::new();
    let mut landed: Vec<String> = Vec::new();
    let name = copied_name("/lib/clap.wav", 0xabc, Syntax::Posix);
    note_copy(&mut index, &mut landed, 3, name.clone());
    note_copy(&mut index, &mut landed, 4, name.clone());
    assert_eq!(landed.len(), 1);
    assert_eq!(index, vec![(3, name.clone()), (4, name)]);
}

#[test]
fn a_remote_path_is_never_read_let_alone_copied() {
    let paths = vec!["\\\\evil.example.com\\share\\kick.wav".to_owned(), "/lib/kick.wav".to_owned()];
    assert_eq!(measurable(&paths), vec!["/lib/kick.wav".to_owned()]);
    assert_eq!(sample_cost(&Vec::new(), Syntax::Posix), SampleCost { count: 0, bytes: 0 });
}

#[test]
fn a_sample_that_has_moved_does_not_cost_the_producer_the_others() {
    let measured = vec![("/lib/snare.wav".to_owned(), 512u64)];
    assert_eq!(sample_cost(&measured, Syntax::Posix).count, 1, "a missing file costs nothing");
}

#[test]
fn nothing_is_copied_until_the_producer_has_been_told_what_it_costs() {
    assert!(copy_budget(2048).is_ok());
    assert!(copy_budget(256 * 1024 * 1024).is_ok());
    assert_eq!(
        copy_budget(300 * 1024 * 1024).unwrap_err(),
        "those samples come to 300 MB, which is more than a style should carry"
    );
}

#[test]
fn a_copy_is_named_by_its_content_and_keeps_a_plain_extension() {
    assert_eq!(copied_name("/lib/kick.WAV", 0x1f, Syntax::Posix), "000000000000001f.wav");
    assert_eq!(copied_name("/lib/kick", u64::MAX, Syntax::Posix), "ffffffffffffffff.wav");
    assert_eq!(copied_name("/lib/kick.w-v", 1, Syntax::Posix), "0000000000000001.wav");
    assert_eq!(copied_name("/lib/loop.flac", 0x0123456789abcdef, Syntax::Posix), "0123456789abcdef.flac");
}

#[test]
fn a_tampered_index_cannot_reach_outside_the_styles_own_folder() {
    let lanes = vec![
        (0, "../../../../../../Windows/System32/drivers/etc/hosts".to_owned()),
        (1, "..\\..\\secrets.wav".to_owned()),
        (2, "no-extension".to_owned()),
    ];
    assert!(indexed_samples("/data/models/mine/samples", &lanes, Syntax::Posix).is_empty());
    assert!(!is_safe_sample_name(".wav"));
    assert!(!is_safe_sample_name("abc."));
    assert!(is_safe_sample_name("0123456789abcdef.wav"));
}

#[test]
fn a_styles_samples_come_back_on_the_lanes_they_were_copied_from() {
    let lanes = vec![(0, "000000000000000a.wav".to_owned()), (1, "000000000000000b.wav".to_owned())];
    let back = indexed_samples("/data/models/mine/samples", &lanes, Syntax::Posix);
    assert_eq!(
        back,
        vec![
            (0, "/data/models/mine/samples/000000000000000a.wav".to_owned()),
            (1, "/data/models/mine/samples/000000000000000b.wav".to_owned()),
        ]
    );
}

#[test]
fn a_style_with_an_unsafe_id_has_no_samples_folder() {
    assert_eq!(samples_folder("/data/models", "../x", Syntax::Posix), None);
    assert_eq!(samples_folder("/data/models", "mine", Syntax::Posix).unwrap(), "/data/models/mine/samples");
    assert_eq!(samples_dir("/data/models", "mine", Syntax::Posix), "/data/models/mine/samples");
    assert_eq!(user_dir(Some("/data".into()), Syntax::Posix).unwrap(), "/data/models");
}

#[test]
fn re_copying_points_a_lane_at_its_new_copy() {
    let mut index: Vec<(u8, String)> = vec![(0, "old.wav".into()), (1, "snare.wav".into())];
    let mut landed: Vec<String> = Vec::new();
    note_copy(&mut index, &mut landed, 0, "new.wav".into());
    assert_eq!(index, vec![(1, "snare.wav".to_owned()), (0, "new.wav".to_owned())]);
    assert_eq!(landed, vec!["new.wav".to_owned()]);
}

#[test]
fn only_the_producers_own_ids_are_kept_from_a_combined_load() {
    let files = vec![
        ("<user>/broken.json".to_owned(), "{ not json".to_owned()),
        ("<user>/my-dark-trap.json".to_owned(), dark_trap("my-dark-trap")),
        ("<user>/trap.json".to_owned(), dark_trap("trap")),
    ];
    assert_eq!(mine_ids(&files, &shipped()), vec!["my-dark-trap".to_owned()]);
}

#[test]
fn a_problem_is_ours_when_it_names_our_id_or_our_file() {
    let mine = vec!["my-dark-trap".to_owned()];
    assert!(is_ours(&mine, "my-dark-trap"));
    assert!(is_ours(&mine, "<user>/broken.json"));
    assert!(!is_ours(&mine, "data/artists/trap.json"));
    assert!(names_candidate("my-dark-trap", "my-dark-trap"));
    assert!(names_candidate("<user>/my-dark-trap.json", "my-dark-trap"));
    assert!(!names_candidate("<user>/my-dark-trap-2.json", "my-dark-trap"));
    assert!(contains_text("abc", ""));
    assert!(!contains_text("", "a"));
    assert!(contains_text("hello", "llo"));
}
