use fmm_plugin::paths::Syntax;
use fmm_plugin::explorer::Explorer;
use fmm_plugin::favourites::star_from_library;
use fmm_plugin::favourites::{add, list, path_of_store, remove, reveal_favourite, Favourite, MAX_FAVOURITES};

fn starred(path: &str) -> Favourite {
    Favourite { path: path.into(), name: path.rsplit('/').next().unwrap().into(), kind: "audio".into() }
}

#[test]
fn a_remote_path_is_refused_before_anything_runs() {
    let error = add(Vec::new(), r"\\evil.example.com\share\kick.wav", Syntax::Posix).expect_err("a network path must not be starred");
    assert!(error.contains("network path"), "{error}");
    let error = reveal_favourite(&Vec::new(), r"\\evil.example.com\share\kick.wav").expect_err("nor revealed");
    assert!(!error.is_empty());
}

#[test]
fn something_that_is_not_a_sample_or_a_midi_file_cannot_be_starred() {
    let error = add(Vec::new(), "C:/notes.txt", Syntax::Posix).expect_err("a text file is not starrable");
    assert!(error.contains("can use"), "{error}");
}

#[test]
fn a_path_that_was_never_starred_cannot_be_revealed() {
    let error = reveal_favourite(&vec![starred("/samples/kick.wav")], "C:/somewhere/else/secret.wav")
        .expect_err("an unstarred path must be refused");
    assert!(error.contains("not one of your favourites"), "{error}");
}

#[test]
fn a_starred_path_may_be_revealed() {
    assert!(reveal_favourite(&vec![starred("/samples/kick.wav")], "/samples/kick.wav").is_ok());
}

#[test]
fn starring_twice_is_one_entry() {
    let once = add(Vec::new(), "/samples/kick.wav", Syntax::Posix).unwrap();
    assert_eq!(once, vec![Favourite { path: "/samples/kick.wav".into(), name: "kick.wav".into(), kind: "audio".into() }]);
    let twice = add(once.clone(), "/samples/kick.wav", Syntax::Posix).unwrap();
    assert_eq!(twice, once);
    let midi = add(twice, "/samples/riff.MID", Syntax::Posix).unwrap();
    assert_eq!(midi[1].kind, "midi");
    assert_eq!(midi[1].name, "riff.MID");
}

#[test]
fn a_full_list_refuses_a_new_star_but_not_an_old_one() {
    let full: Vec<Favourite> = (0..MAX_FAVOURITES).map(|i| starred(&format!("/s/{i}.wav"))).collect();
    let error = add(full.clone(), "/s/new.wav", Syntax::Posix).unwrap_err();
    assert!(error.contains("unstar one"), "{error}");
    assert_eq!(add(full.clone(), "/s/7.wav", Syntax::Posix).unwrap().len(), MAX_FAVOURITES);
}

#[test]
fn unstarring_removes_only_that_path() {
    let all = vec![starred("/s/a.wav"), starred("/s/b.wav"), starred("/s/a.wav")];
    let left = remove(&all, "/s/a.wav");
    assert_eq!(left, vec![starred("/s/b.wav")]);
    assert!(reveal_favourite(&left, "/s/a.wav").is_err());
}

#[test]
fn a_store_that_was_edited_to_hold_too_many_is_cut_back() {
    let many: Vec<Favourite> = (0..MAX_FAVOURITES + 3).map(|i| starred(&format!("/s/{i}.wav"))).collect();
    assert_eq!(list(many).len(), MAX_FAVOURITES);
    assert_eq!(list(vec![starred("/s/a.wav")]).len(), 1);
}

#[test]
fn the_store_lives_in_the_data_folder() {
    assert_eq!(path_of_store(Some("/home/mike/.local/share/fmm".into()), Syntax::Posix).unwrap(), "/home/mike/.local/share/fmm/favourites.json");
    assert_eq!(path_of_store(None, Syntax::Posix), None);
}

#[test]
fn only_a_file_the_library_lists_can_be_starred() {
    let mut explorer = Explorer::new(Syntax::Posix);
    explorer.restore(&vec!["/audio/library".to_owned()]);
    let reals = vec![Some("/audio/library".to_owned())];
    let outside = "/home/mike/secret.wav";
    let error = star_from_library(&explorer, Vec::new(), outside, &Some(outside.into()), &reals).unwrap_err();
    assert!(error.contains("sample library"), "{error}");
    let inside = "/audio/library/kick.wav";
    let starred = star_from_library(&explorer, Vec::new(), inside, &Some(inside.into()), &reals).unwrap();
    assert_eq!(starred.len(), 1);
    assert_eq!(starred[0].name, "kick.wav");
}
