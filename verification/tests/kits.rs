use fmm_plugin::paths::Syntax;
use fmm_plugin::kits::{delete, duplicate, kits_dir, list, load, refuse_landing_on_another, rename, save, Kit, Shelf, Stored};
use fmm_plugin::names::{is_safe_stem, slug_with};

fn two_lanes() -> Vec<(u8, String)> {
    vec![(0, "C:/packs/kick.wav".to_owned()), (1, "C:/packs/snare.wav".to_owned())]
}

#[test]
fn a_saved_kit_comes_back_with_the_lanes_it_was_saved_with() {
    let mut shelf = Shelf::new();
    let saved = save(&mut shelf, "My Kit", two_lanes()).expect("save");
    assert_eq!(saved.name, "My Kit");
    assert_eq!(saved.lanes, 2);
    assert_eq!(saved.id, "my-kit");
    assert_eq!(load(&shelf, &saved.id).unwrap(), two_lanes());
}

#[test]
fn an_empty_kit_is_refused_rather_than_saved_as_nothing() {
    let mut shelf = Shelf::new();
    let error = save(&mut shelf, "Nothing", Vec::new()).unwrap_err();
    assert!(error.contains("no samples"), "{error}");
    assert!(list(&shelf).is_empty());
    let error = save(&mut shelf, "   ", two_lanes()).unwrap_err();
    assert_eq!(error, "a kit needs a name");
}

#[test]
fn a_name_that_could_not_be_a_filename_never_becomes_a_path() {
    let mut shelf = Shelf::new();
    let saved = save(&mut shelf, "../../.ssh/authorized_keys", two_lanes()).expect("save");
    assert!(is_safe_stem(&saved.id), "{}", saved.id);
    assert_eq!(saved.id, "ssh-authorized-keys");
    assert_eq!(list(&shelf).len(), 1);
    assert_eq!(slug_with("???", "kit"), "kit");
}

#[test]
fn renaming_keeps_the_samples_and_leaves_one_kit_behind() {
    let mut shelf = Shelf::new();
    let first = save(&mut shelf, "Old Name", two_lanes()).expect("save");
    let renamed = rename(&mut shelf, &first.id, "New Name").expect("rename");
    assert_eq!(renamed.name, "New Name");
    let all = list(&shelf);
    assert_eq!(all.len(), 1, "{all:?}");
    assert_eq!(all[0].name, "New Name");
    assert_eq!(load(&shelf, &renamed.id).unwrap(), two_lanes(), "a rename must not touch the samples");
    assert!(load(&shelf, &first.id).is_err());
}

#[test]
fn duplicating_leaves_the_original_alone() {
    let mut shelf = Shelf::new();
    let first = save(&mut shelf, "Original", two_lanes()).expect("save");
    let copy = duplicate(&mut shelf, &first.id, "Copy").expect("duplicate");
    assert_ne!(copy.id, first.id);
    assert_eq!(list(&shelf).len(), 2);
    assert!(load(&shelf, &first.id).is_ok(), "the original must survive");
    assert!(duplicate(&mut shelf, &first.id, "Original").is_err());
}

#[test]
fn two_names_that_slug_alike_cannot_become_one_kit() {
    let mut shelf = Shelf::new();
    save(&mut shelf, "808 Kit", two_lanes()).expect("the first name is free");
    let error = save(&mut shelf, "808-Kit", two_lanes()).unwrap_err();
    assert!(error.contains("808 Kit"), "{error}");
    let all = list(&shelf);
    assert_eq!(all.len(), 1, "{all:?}");
    assert_eq!(all[0].name, "808 Kit", "the first kit must survive");
}

#[test]
fn renaming_onto_another_kits_name_is_refused_rather_than_destroying_it() {
    let mut shelf = Shelf::new();
    let a = save(&mut shelf, "Trap A", two_lanes()).expect("a");
    save(&mut shelf, "Trap B", vec![(0, "C:/packs/b.wav".to_owned())]).expect("b");
    assert!(rename(&mut shelf, &a.id, "Trap B").is_err());
    let all = list(&shelf);
    assert_eq!(all.len(), 2, "both kits must still be there: {all:?}");
    assert_eq!(load(&shelf, "trap-b").unwrap().len(), 1, "Trap B must keep its own lanes");
}

#[test]
fn saving_the_same_name_twice_replaces_it_rather_than_leaving_two() {
    let mut shelf = Shelf::new();
    save(&mut shelf, "One Kit", two_lanes()).expect("first");
    save(&mut shelf, "One Kit", vec![(0, "C:/packs/other.wav".to_owned())]).expect("second");
    let all = list(&shelf);
    assert_eq!(all.len(), 1, "{all:?}");
    assert_eq!(all[0].lanes, 1, "the second save is the one that stands");
}

#[test]
fn a_deleted_kit_is_gone_and_a_missing_one_says_so() {
    let mut shelf = Shelf::new();
    let saved = save(&mut shelf, "Doomed", two_lanes()).expect("save");
    assert!(delete(&mut shelf, &saved.id).is_ok());
    assert!(list(&shelf).is_empty());
    assert!(load(&shelf, &saved.id).is_err());
    assert!(delete(&mut shelf, &saved.id).unwrap_err().contains("could not delete"));
    assert!(delete(&mut shelf, "../x").unwrap_err().contains("is not a kit name"));
}

#[test]
fn a_broken_file_is_skipped_and_the_others_still_list() {
    let mut shelf = Shelf::new();
    save(&mut shelf, "Good", two_lanes()).expect("save");
    shelf.insert("broken".into(), Stored::Unreadable("expected value at line 1".into()));
    let all = list(&shelf);
    assert_eq!(all.len(), 1);
    assert_eq!(all[0].name, "Good");
    assert_eq!(load(&shelf, "broken").unwrap_err(), "kit `broken` is malformed: expected value at line 1");
    assert_eq!(load(&shelf, "nope").unwrap_err(), "no kit `nope`");
}

#[test]
fn kits_are_listed_by_name() {
    let mut shelf = Shelf::new();
    shelf.insert("b".into(), Stored::Kit(Kit { name: "Zed".into(), lanes: two_lanes() }));
    shelf.insert("a".into(), Stored::Kit(Kit { name: "Alpha".into(), lanes: vec![] }));
    shelf.insert("Bad Id".into(), Stored::Kit(Kit { name: "Hidden".into(), lanes: vec![] }));
    let names: Vec<String> = list(&shelf).into_iter().map(|k| k.name).collect();
    assert_eq!(names, vec!["Alpha", "Zed"]);
}

#[test]
fn a_copy_or_rename_may_not_land_on_another_file() {
    let mut shelf = Shelf::new();
    save(&mut shelf, "Taken", two_lanes()).unwrap();
    assert!(refuse_landing_on_another(&shelf, "", "Taken").is_err());
    assert!(refuse_landing_on_another(&shelf, "taken", "Taken").is_ok());
    assert!(refuse_landing_on_another(&shelf, "", "Free").is_ok());
}

#[test]
fn kits_live_in_their_own_folder() {
    assert_eq!(kits_dir(Some("/data/".into()), Syntax::Posix).unwrap(), "/data/kits");
    assert_eq!(kits_dir(None, Syntax::Posix), None);
}
