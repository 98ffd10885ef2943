use fmm_plugin::paths::Syntax;
use fmm_plugin::explorer::{list, Row};
use fmm_plugin::export::{distinct, kept_steps, sounding_patterns, LaneTrack, Note, Pattern};
use fmm_plugin::explorer::{merge_folders, Explorer, MAX_STORED_ROOTS};
use fmm_plugin::kits::delete as delete_kit;
use fmm_plugin::kits::{list as list_kits, load, save, Kit, Shelf, Stored};
use fmm_plugin::models::{content_hash, sample_cost, SampleCost};
use fmm_plugin::names::{safe_file_name, sanitize};

#[test]
fn sanitizing_twice_changes_nothing() {
    for name in ["../../etc/passwd", "a/../../b", "--x--", "uk drill 7", "", "..", "a..b...c", "Ä—ö"] {
        let once = sanitize(name);
        assert_eq!(sanitize(&once), once, "{name}");
        assert!(!once.contains("--"), "{once}");
        assert!(!once.contains(".."), "{once}");
        assert!(!once.starts_with('-') && !once.starts_with('.'), "{once}");
        assert!(!once.ends_with('-') && !once.ends_with('.'), "{once}");
    }
    assert_eq!(sanitize("a/../../b"), "a-b");
}

#[test]
fn a_readable_name_has_no_space_at_its_ends() {
    assert_eq!(safe_file_name("  trap - Snare - 140 BPM - C# Minor  "), "trap - Snare - 140 BPM - C# Minor");
    assert_eq!(safe_file_name(" - . "), "stem");
    assert_eq!(safe_file_name("a\u{7}b"), "a-b");
    let s = safe_file_name(" .. x .. ");
    assert_eq!(s, s.trim());
}

#[test]
fn a_free_number_is_found_however_many_are_taken() {
    let mut taken: Vec<String> = vec!["kick".to_owned()];
    for n in 2..40 {
        taken.push(format!("kick ({n})"));
    }
    let r = distinct(&mut taken, "kick".to_owned());
    assert_eq!(r, "kick (40)");
    let mut gap: Vec<String> = vec!["kick".to_owned(), "kick (2)".to_owned(), "kick (4)".to_owned()];
    assert_eq!(distinct(&mut gap, "kick".to_owned()), "kick (3)", "the least free number");
}

#[test]
fn a_file_on_two_lanes_costs_once_at_its_last_size() {
    let measured = vec![
        ("/s/clap.wav".to_owned(), 100),
        ("/s/kick.wav".to_owned(), 50),
        ("/s//clap.wav".to_owned(), 120),
    ];
    assert_eq!(sample_cost(&measured, Syntax::Posix), SampleCost { count: 2, bytes: 170 });
}

#[test]
fn the_content_hash_is_fnv1a() {
    assert_eq!(content_hash(b""), 0xcbf29ce484222325);
    assert_eq!(content_hash(b"a"), 0xaf63dc4c8601ec8c);
    assert_eq!(content_hash(b"foobar"), 0x85944171f73967e8);
}

fn pattern(lanes: Vec<(u8, usize)>) -> Pattern {
    Pattern {
        bars: 1,
        ticks_per_bar: 1920,
        lanes: lanes
            .into_iter()
            .map(|(lane, n)| LaneTrack {
                lane,
                notes: (0..n).map(|i| Note { start_tick: i as u32 * 10, len_ticks: 5, pitch: 36, vel: 90 }).collect(),
            })
            .collect(),
        clip_region: None,
    }
}

#[test]
fn a_silent_part_makes_no_file_and_is_not_counted() {
    let ps = vec![pattern(vec![(0, 1)]), pattern(vec![(1, 0)]), pattern(vec![]), pattern(vec![(2, 0), (3, 2)])];
    let kept = sounding_patterns(&ps);
    assert_eq!(kept.len(), 2);
    assert_eq!(kept[0], ps[0]);
    assert_eq!(kept[1], ps[3]);
}

#[test]
fn folders_with_the_same_name_keep_the_order_they_were_read() {
    let rows = vec![
        Row { name: "b.wav".to_owned(), path: "/x/1/b.wav".to_owned(), is_dir: false },
        Row { name: "B.wav".to_owned(), path: "/x/2/B.wav".to_owned(), is_dir: false },
        Row { name: "a.wav".to_owned(), path: "/x/3/a.wav".to_owned(), is_dir: false },
        Row { name: "b.WAV".to_owned(), path: "/x/4/b.WAV".to_owned(), is_dir: false },
    ];
    let state = list("/x", &rows, Syntax::Posix);
    let paths: Vec<&str> = state.entries.iter().map(|e| e.path.as_str()).collect();
    assert_eq!(paths, vec!["/x/3/a.wav", "/x/1/b.wav", "/x/2/B.wav", "/x/4/b.WAV"]);
}

#[test]
fn kits_with_the_same_name_keep_their_shelf_order() {
    let mut shelf = Shelf::new();
    shelf.insert("z".into(), Stored::Kit(Kit { name: "Same".into(), lanes: vec![(0, "k".into())] }));
    shelf.insert("a".into(), Stored::Kit(Kit { name: "Same".into(), lanes: vec![(0, "k".into())] }));
    shelf.insert("m".into(), Stored::Kit(Kit { name: "Alpha".into(), lanes: vec![(0, "k".into())] }));
    let ids: Vec<String> = list_kits(&shelf).into_iter().map(|k| k.id).collect();
    assert_eq!(ids, vec!["m", "z", "a"]);
}

#[test]
fn a_saved_kit_comes_back_with_each_lane_once_in_order() {
    let mut shelf = Shelf::new();
    let lanes = vec![(0u8, "kick".to_owned()), (3, "snare".to_owned()), (9, "hat".to_owned())];
    let saved = save(&mut shelf, "Ordered", lanes.clone()).expect("save");
    let back = load(&shelf, &saved.id).expect("load");
    assert_eq!(back, lanes);
    assert!(back.windows(2).all(|w| w[0].0 < w[1].0));
}

#[test]
fn a_render_keeps_the_steps_before_the_first_stop() {
    assert_eq!(kept_steps(&vec![true, true, false]), 2);
    assert_eq!(kept_steps(&vec![true, true]), 2);
    assert_eq!(kept_steps(&vec![false]), 0);
    assert_eq!(kept_steps(&Vec::new()), 0);
}

#[test]
fn the_project_comes_first_then_the_rest_once_in_order() {
    let p = vec!["/a/x".to_owned(), "/a/x".to_owned(), "/b/y".to_owned()];
    let m = vec!["/c/z".to_owned(), "/a/x".to_owned(), "/c/z".to_owned(), "/d/w".to_owned()];
    let r = merge_folders(p.clone(), m);
    assert_eq!(&r[..3], &p[..]);
    assert_eq!(&r[3..], &["/c/z".to_owned(), "/d/w".to_owned()]);
}

#[test]
fn a_restore_keeps_the_first_plausible_roots() {
    let mut paths: Vec<String> = vec!["/".to_owned(), r"\\server\share\x".to_owned(), "/home".to_owned()];
    for i in 0..30 {
        paths.push(format!("/lib/{i}"));
    }
    let mut explorer = Explorer::new(Syntax::Posix);
    explorer.restore(&paths);
    let expected: Vec<String> = (0..MAX_STORED_ROOTS).map(|i| format!("/lib/{i}")).collect();
    assert_eq!(explorer.snapshot(), expected);
}

#[test]
fn listing_one_folder_gives_the_plain_listing() {
    let root = "/audio/plain";
    let mut explorer = Explorer::new(Syntax::Posix);
    explorer.restore(&vec![root.to_owned()]);
    explorer.pick().expect("a dialog");
    let reals: Vec<Option<String>> = explorer.snapshot().into_iter().map(Some).collect();
    let inner = "/audio/plain/Kicks";
    let rows = vec![Row { name: "k.wav".to_owned(), path: format!("{inner}/k.wav"), is_dir: false }];
    let state = explorer.list_one(inner, &Some(inner.to_owned()), &reals, &rows).expect("inside");
    assert!(state.roots.is_empty());
    assert!(!state.picking);
    let file = &state.entries[0].path;
    assert!(explorer.contains(file, &Some(file.clone()), &reals), "a listed file is accepted back");
}

#[test]
fn a_deleted_kit_is_not_listed_and_does_not_load() {
    let mut shelf = Shelf::new();
    let saved = save(&mut shelf, "Gone", vec![(0u8, "k".to_owned())]).expect("save");
    delete_kit(&mut shelf, &saved.id).expect("delete");
    assert!(list_kits(&shelf).iter().all(|k| k.id != saved.id));
    assert!(load(&shelf, &saved.id).is_err());
    assert!(delete_kit(&mut shelf, &saved.id).unwrap_err().starts_with("could not delete"));
}
