use comfysort_engine::persistence::{bindings_path, PersistedBindings, CURRENT_VERSION};

const ROOT: &str = "/srv/out";

fn under(parts: &[&str]) -> String {
    let mut p = String::from(ROOT);
    for part in parts {
        p.push('/');
        p.push_str(part);
    }
    p
}

#[test]
fn remove_under_drops_descendants() {
    let output_root = ROOT;
    let mut bindings = PersistedBindings::default();
    bindings.set('1', &under(&["keep", "ive"]), output_root);
    bindings.set('2', &under(&["keep", "ive", "2024"]), output_root);
    bindings.set('3', &under(&["keep", "aespa"]), output_root);

    bindings.remove_under(&under(&["keep", "ive"]), output_root);

    assert!(bindings.hotkeys.get("1").is_none());
    assert!(bindings.hotkeys.get("2").is_none());
    assert!(bindings.hotkeys.get("3").is_some(), "sibling folder is untouched");
}

#[test]
fn default_bindings_are_empty_at_the_current_version() {
    let b = PersistedBindings::default();
    assert!(b.hotkeys.is_empty());
    assert_eq!(b.version, CURRENT_VERSION);
}

#[test]
fn set_stores_paths_relative_to_the_root_and_resolves_them_back() {
    let mut b = PersistedBindings::default();
    b.set('1', &under(&["keep", "ive"]), ROOT);
    b.set('2', &under(&["group", "karina"]), ROOT);
    assert_eq!(b.hotkeys.get("1").map(|s| s.as_str()), Some("keep/ive"));
    let resolved = b.resolved(ROOT);
    assert!(resolved.contains(&('1', under(&["keep", "ive"]))));
    assert!(resolved.contains(&('2', under(&["group", "karina"]))));
}

#[test]
fn a_path_outside_the_root_is_stored_absolute() {
    let mut b = PersistedBindings::default();
    b.set('5', "/elsewhere/pics", ROOT);
    assert_eq!(b.hotkeys.get("5").map(|s| s.as_str()), Some("/elsewhere/pics"));
    assert_eq!(b.resolved(ROOT), vec![('5', "/elsewhere/pics".to_owned())]);
}

#[test]
fn rebinding_a_hotkey_replaces_its_folder() {
    let mut b = PersistedBindings::default();
    b.set('1', &under(&["a"]), ROOT);
    b.set('1', &under(&["b"]), ROOT);
    assert_eq!(b.hotkeys.len(), 1);
    assert_eq!(b.hotkeys.get("1").map(|s| s.as_str()), Some("b"));
}

#[test]
fn remove_hotkey_drops_only_that_key() {
    let mut b = PersistedBindings::default();
    b.set('1', &under(&["a"]), ROOT);
    b.set('2', &under(&["b"]), ROOT);
    b.remove_hotkey('1');
    assert!(b.hotkeys.get("1").is_none());
    assert!(b.hotkeys.get("2").is_some());
}

#[test]
fn rename_under_repoints_the_folder_and_its_subtree() {
    let mut b = PersistedBindings::default();
    b.set('1', &under(&["keep", "ive"]), ROOT);
    b.set('2', &under(&["keep", "ive", "2024"]), ROOT);
    b.set('3', &under(&["keep", "aespa"]), ROOT);
    b.rename_under(&under(&["keep", "ive"]), &under(&["keep", "IVE"]), ROOT);
    assert_eq!(b.hotkeys.get("1").map(|s| s.as_str()), Some("keep/IVE"));
    assert_eq!(b.hotkeys.get("2").map(|s| s.as_str()), Some("keep/IVE/2024"));
    assert_eq!(b.hotkeys.get("3").map(|s| s.as_str()), Some("keep/aespa"));
}

#[test]
fn bindings_live_in_the_state_dir() {
    assert_eq!(bindings_path("/srv/out"), "/srv/out/.comfysort/bindings.json");
}

#[test]
fn hotkey_table_keeps_keys_sorted() {
    let mut b = PersistedBindings::default();
    b.set('9', &under(&["z"]), ROOT);
    b.set('1', &under(&["a"]), ROOT);
    b.set('-', &under(&["m"]), ROOT);
    let keys: Vec<String> = (0..b.hotkeys.len()).map(|i| b.hotkeys.entry(i).0.clone()).collect();
    assert_eq!(keys, vec!["-".to_owned(), "1".to_owned(), "9".to_owned()]);
}
