use comfysort_engine::domain::CollisionPolicy;
use comfysort_engine::settings::{default_filter, default_sort_field, default_sort_order, default_theme, Settings};

#[test]
fn defaults_match_a_fresh_install() {
    let s = Settings::default();
    assert_eq!(s.collision_policy, CollisionPolicy::Rename);
    assert!(s.confirm_folder_delete && s.confirm_cross_drive);
    assert_eq!(s.default_sort_field, "mod");
    assert_eq!(s.default_sort_order, "desc");
    assert_eq!(s.default_filter, "all");
    assert!(s.video_autoplay && s.video_loop && s.video_muted && s.auto_update_check);
    assert!(!s.recursive_inbox);
    assert!(s.ignored_folders.is_empty());
    assert_eq!(s.theme, "comfy-dark");
    assert!(s.default_input.is_empty() && s.default_output.is_empty());
    assert!(s.last_input.is_empty() && s.last_output.is_empty());
}

#[test]
fn field_defaults() {
    assert_eq!(default_theme(), "comfy-dark");
    assert_eq!(default_sort_field(), "mod");
    assert_eq!(default_sort_order(), "desc");
    assert_eq!(default_filter(), "all");
    assert_eq!(CollisionPolicy::default(), CollisionPolicy::Rename);
}
