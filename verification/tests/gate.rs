use fmm_plugin::paths::Syntax;
use fmm_plugin::eula::{accepted, path, VERSION};
use fmm_plugin::gate::{licence_blocks, mime_for, NOT_ACCEPTED};
use fmm_plugin::transport::{host_takes_over, transport_runs};

#[test]
fn the_licence_gate_is_an_allowlist_and_covers_the_whole_bridge() {
    for open in ["eula_status", "eula_accept", "eula_decline", "app_info", "editor_size", "set_editor_size"] {
        assert!(!licence_blocks(open, false), "{open} must be answerable before acceptance");
    }
    for closed in ["generate_pattern", "explorer_open", "kits_save", "favourites_reveal", "", "eula_statuses"] {
        assert!(licence_blocks(closed, false), "{closed} must be refused before acceptance");
        assert!(!licence_blocks(closed, true), "{closed} is answerable once accepted");
    }
    assert!(NOT_ACCEPTED.contains("Agree"));
}

#[test]
fn only_the_shipped_version_counts_as_accepted() {
    assert!(accepted(&Some(VERSION.to_owned())));
    assert!(!accepted(&Some("2025-01-01".to_owned())));
    assert!(!accepted(&None));
    assert_eq!(path(Some("/data".into()), Syntax::Posix).unwrap(), "/data/eula.json");
    assert_eq!(path(None, Syntax::Posix), None);
}

#[test]
fn a_module_script_is_served_as_javascript() {
    assert_eq!(mime_for("assets/index-abc.js"), "text/javascript; charset=utf-8");
    assert_eq!(mime_for("assets/worker.mjs"), "text/javascript; charset=utf-8");
    assert_eq!(mime_for("index.html"), "text/html; charset=utf-8");
    assert_eq!(mime_for("a.b.css"), "text/css; charset=utf-8");
    assert_eq!(mime_for("font.woff2"), "font/woff2");
    assert_eq!(mime_for("README"), "application/octet-stream");
    assert_eq!(mime_for("photo.JPG"), "application/octet-stream");
}

#[test]
fn the_host_takes_the_transport_back_when_it_starts_and_only_then() {
    assert!(host_takes_over(true, false));
    assert!(!host_takes_over(true, true));
    assert!(!host_takes_over(false, true));
    assert!(!host_takes_over(false, false));
}

#[test]
fn a_plugin_plays_its_preview_with_the_host_stopped() {
    assert!(transport_runs(false, false, true));
}

#[test]
fn a_plugin_plays_when_the_host_does_even_with_no_preview() {
    assert!(transport_runs(false, true, false));
}

#[test]
fn a_plugin_with_neither_is_silent() {
    assert!(!transport_runs(false, false, false));
}

#[test]
fn the_standalone_ignores_the_backend_s_hardcoded_playing_flag() {
    assert!(!transport_runs(true, true, false));
    assert!(transport_runs(true, true, true));
}
