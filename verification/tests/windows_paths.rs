use fmm_plugin::paths::Syntax;
use fmm_plugin::explorer::{list, parent_text, Explorer, Row};
use fmm_plugin::export::with_extension;
use fmm_plugin::paths::{is_plausible_library, join_name, named_depth, refuse_remote, same_path, starts_with};

fn resolved(path: &str) -> Option<String> {
    Some(path.to_owned())
}

#[test]
fn a_windows_library_is_kept_on_restore() {
    let mut explorer = Explorer::new(Syntax::Windows);
    explorer.restore(&vec![r"C:\a\b".to_owned(), r"C:\".to_owned(), r"C:\Users".to_owned()]);
    assert_eq!(explorer.snapshot(), vec![r"C:\a\b".to_owned()]);
}

#[test]
fn a_drive_is_not_a_named_component() {
    assert_eq!(named_depth(r"C:\Users\mike\Samples", Syntax::Windows), 3);
    assert_eq!(named_depth(r"\\?\C:\Users\mike", Syntax::Windows), 2);
    assert_eq!(named_depth("C:", Syntax::Windows), 0);
    assert!(!is_plausible_library(r"C:\Users", Syntax::Windows));
    assert!(is_plausible_library(r"C:\Users\mike", Syntax::Windows));
    assert!(is_plausible_library(r"\\?\D:\Music\Samples", Syntax::Windows));
}

#[test]
fn both_separators_split_components() {
    assert!(starts_with(r"C:\Users\mike\Samples\kick.wav", r"C:\Users\mike\Samples", Syntax::Windows));
    assert!(starts_with(r"C:/Users/mike/Samples/kick.wav", r"C:\Users\mike\Samples\", Syntax::Windows));
    assert!(!starts_with(r"C:\Users\mike\Samples2", r"C:\Users\mike\Samples", Syntax::Windows));
    assert!(!starts_with(r"D:\Users\mike\Samples", r"C:\Users\mike\Samples", Syntax::Windows));
    assert!(same_path(r"C:\a\\b\.", "C:/a/b", Syntax::Windows));
}

#[test]
fn a_windows_folder_under_a_root_opens_and_its_files_are_contained() {
    let root = r"\\?\C:\Users\mike\Samples";
    let mut explorer = Explorer::new(Syntax::Windows);
    explorer.restore(&vec![root.to_owned()]);
    let reals: Vec<Option<String>> = explorer.snapshot().into_iter().map(Some).collect();
    let kicks = r"\\?\C:\Users\mike\Samples\Kicks";
    explorer.open(kicks, &resolved(kicks), &reals).expect("a folder inside the root opens");
    let file = r"\\?\C:\Users\mike\Samples\Kicks\kick-01.wav";
    assert!(explorer.contains(file, &resolved(file), &reals));
    let outside = r"\\?\C:\Users\mike\Documents";
    assert!(explorer.open(outside, &resolved(outside), &reals).is_err());
    assert!(refuse_remote(root).is_ok());
    assert!(refuse_remote(r"\\server\share\Samples").is_err());
}

#[test]
fn up_from_a_windows_folder_keeps_its_spelling() {
    assert_eq!(parent_text(r"\\?\C:\Samples\Kicks", Syntax::Windows), Some(r"\\?\C:\Samples".to_owned()));
    assert_eq!(parent_text(r"C:\Samples", Syntax::Windows), Some(r"C:\".to_owned()));
    assert_eq!(parent_text(r"C:\", Syntax::Windows), None);
    assert_eq!(parent_text("C:", Syntax::Windows), None);
    assert_eq!(parent_text("/audio/x", Syntax::Windows), Some("/audio".to_owned()));
    let rows = vec![Row { name: "kick.wav".to_owned(), path: r"C:\S\K\kick.wav".to_owned(), is_dir: false }];
    assert_eq!(list(r"C:\S\K", &rows, Syntax::Windows).parent, Some(r"C:\S".to_owned()));
}

#[test]
fn joining_uses_the_platform_separator() {
    assert_eq!(join_name(r"C:\Users\mike", "kits", Syntax::Windows), r"C:\Users\mike\kits");
    assert_eq!(join_name("/home/mike", "kits", Syntax::Posix), "/home/mike/kits");
    assert_eq!(join_name(r"C:\", "kits", Syntax::Windows), r"C:\kits");
    assert_eq!(join_name("C:", "kits", Syntax::Windows), "C:kits");
}

#[test]
fn a_dot_in_a_windows_folder_is_not_an_extension() {
    assert_eq!(with_extension(r"C:\My.Music\song", Syntax::Windows), r"C:\My.Music\song.mid");
    assert_eq!(with_extension(r"C:\Music\song.txt", Syntax::Windows), r"C:\Music\song.mid");
    assert_eq!(with_extension(r"C:\Music\song.MID", Syntax::Windows), r"C:\Music\song.MID");
    assert_eq!(with_extension("C:", Syntax::Windows), "C:");
}

#[test]
fn on_posix_a_drive_letter_and_a_backslash_are_only_characters() {
    let mut explorer = Explorer::new(Syntax::Posix);
    explorer.restore(&vec!["C:/samples".to_owned()]);
    assert_eq!(explorer.snapshot(), vec!["C:/samples".to_owned()], "two named components on POSIX");
    let mut windows = Explorer::new(Syntax::Windows);
    windows.restore(&vec!["C:/samples".to_owned()]);
    assert!(windows.snapshot().is_empty(), "one named component after the drive on Windows");
    assert!(!starts_with(r"/lib/a\b", "/lib/a", Syntax::Posix));
    assert!(starts_with(r"/lib/a\b", "/lib/a", Syntax::Windows));
    assert_eq!(named_depth(r"C:\Users\mike", Syntax::Posix), 1);
    assert_eq!(join_name(r"/home/x\y", "kits", Syntax::Posix), r"/home/x\y/kits");
    assert_eq!(join_name(r"C:\Users", "kits", Syntax::Windows), r"C:\Users\kits");
    assert_eq!(join_name("C:/Users", "kits", Syntax::Windows), r"C:/Users\kits");
    assert_eq!(with_extension(r"/a/x.d\file", Syntax::Posix), "/a/x.mid");
    assert_eq!(with_extension(r"C:\a\x.d\file", Syntax::Windows), r"C:\a\x.d\file.mid");
    assert_eq!(parent_text(r"/a/b\c", Syntax::Posix), Some("/a".to_owned()));
}
