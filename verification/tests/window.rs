use fmm_plugin::transport::{tempo_source, TempoSource};
use fmm_plugin::models::Cache;
use fmm_plugin::transport::host_meter;
use fmm_plugin::window::{current_scale, next_among, scale_index, DEFAULT_SCALE};

#[test]
fn a_project_saved_at_a_size_that_no_longer_exists_still_opens() {
    assert!(scale_index("small").is_none());
    assert!(scale_index("medium").is_none());
    assert!(scale_index(DEFAULT_SCALE).is_some());
    assert_eq!(current_scale(&Some("medium".into())), DEFAULT_SCALE);
    assert_eq!(current_scale(&Some("xl".into())), "xl");
    assert_eq!(current_scale(&None), DEFAULT_SCALE);
}

#[test]
fn there_are_two_sizes_and_the_default_is_the_smaller_of_them() {
    assert_eq!(scale_index(DEFAULT_SCALE), Some(0));
    assert_eq!(scale_index("xl"), Some(1));
}

#[test]
fn the_button_grows_the_window_then_returns_it_to_the_default() {
    let roomy = vec![(1440, 900), (1584, 990)];
    let (next, shrinks) = next_among(DEFAULT_SCALE, &roomy);
    assert_eq!(next, "xl");
    assert!(!shrinks, "the first press must grow the window, not shrink it");
    let (back, shrinks_back) = next_among("xl", &roomy);
    assert_eq!(back, DEFAULT_SCALE);
    assert!(shrinks_back, "the second press must come back down to the default");
}

#[test]
fn a_screen_too_small_for_either_preset_leaves_the_button_where_it_is() {
    let cramped = vec![(1040, 650), (1040, 650)];
    let (next, shrinks) = next_among(DEFAULT_SCALE, &cramped);
    assert_eq!(next, DEFAULT_SCALE);
    assert!(!shrinks, "and it must not claim it is shrinking anything");
}

#[test]
fn an_unknown_size_cycles_from_the_default() {
    let roomy = vec![(1440, 900), (1584, 990)];
    assert_eq!(next_among("medium", &roomy), ("xl", false));
}

#[test]
fn the_meter_follows_the_host_when_it_says_and_holds_when_it_does_not() {
    assert_eq!(host_meter((4, 4), Some(7), Some(8)), (7, 8));
    assert_eq!(host_meter((7, 8), None, None), (7, 8));
    assert_eq!(host_meter((3, 4), Some(0), Some(-2)), (3, 4));
    assert_eq!(host_meter((4, 4), Some(259), Some(4)), (3, 4), "the conversion keeps the low eight bits");
}

#[test]
fn the_cache_is_rebuilt_only_after_a_write() {
    let mut cache: Cache<Vec<String>> = Cache::new();
    assert!(cache.cached().is_none());
    cache.store(vec!["my-dark-trap".into()]);
    assert_eq!(cache.cached().unwrap().len(), 1);
    cache.invalidate();
    assert!(cache.cached().is_none());
}

#[test]
fn a_pin_wins_then_the_host_when_synced_then_the_model() {
    for auto_sync in [true, false] {
        for host_said in [true, false] {
            assert_eq!(tempo_source(true, auto_sync, host_said), TempoSource::Pin);
        }
    }
    assert_eq!(tempo_source(false, true, true), TempoSource::Host);
    assert_eq!(tempo_source(false, false, true), TempoSource::Model, "auto-sync off leaves the model its own tempo");
    assert_eq!(tempo_source(false, true, false), TempoSource::Model, "a host that has not said invents nothing");
}
