use comfysort_engine::ignore::IgnoreSet;

fn set(entries: &[&str]) -> IgnoreSet {
    IgnoreSet::new(&entries.iter().map(|s| (*s).to_owned()).collect::<Vec<_>>())
}

#[test]
fn empty_set_ignores_nothing() {
    let ignores = set(&[]);
    assert!(ignores.is_empty());
    assert!(!ignores.is_ignored("D:/out/anything"));
}

#[test]
fn blank_entries_are_dropped() {
    assert!(set(&["", "   "]).is_empty());
}

#[test]
fn path_rule_matches_the_folder_and_its_subtree() {
    let ignores = set(&["D:/out/_raw"]);
    assert!(ignores.is_ignored("D:/out/_raw"));
    assert!(ignores.is_ignored("D:/out/_raw/nested/deep"));
    assert!(!ignores.is_ignored("D:/out/_rawish"));
    assert!(!ignores.is_ignored("D:/out/keep"));
}

#[test]
fn path_rule_is_case_and_separator_insensitive() {
    let ignores = set(&[r"D:\Out\_Raw\"]);
    assert!(ignores.is_ignored("d:/out/_raw"));
    assert!(ignores.is_ignored(r"D:\out\_RAW\sub"));
}

#[test]
fn name_rule_matches_at_any_depth() {
    let ignores = set(&[".thumbnails"]);
    assert!(ignores.is_ignored("D:/out/.thumbnails"));
    assert!(ignores.is_ignored("D:/out/a/b/.Thumbnails"));
    // Only the folder itself, not what sits under it.
    assert!(!ignores.is_ignored("D:/out/.thumbnails-old"));
}

#[test]
fn duplicate_entries_collapse() {
    let ignores = set(&["D:/out/_raw", r"d:\out\_raw", "temp", "TEMP"]);
    assert_eq!(ignores, set(&["D:/out/_raw", "temp"]));
}

#[test]
fn entry_order_does_not_change_the_rules() {
    assert_eq!(set(&["temp", "D:/out/_raw", ".cache"]), set(&[".cache", "D:/out/_raw", "temp"]));
}

#[test]
fn path_rule_does_not_reach_sibling_prefixes() {
    let ignores = set(&["/data/out/raw"]);
    assert!(ignores.is_ignored("/data/out/raw/x"));
    assert!(!ignores.is_ignored("/data/out/raw2"));
    assert!(!ignores.is_ignored("/data/out"));
}

#[test]
fn name_rule_is_case_insensitive_and_trimmed() {
    let ignores = set(&["  Temp  "]);
    assert!(!ignores.is_empty());
    assert!(ignores.is_ignored("/data/out/a/TEMP"));
    assert!(!ignores.is_ignored("/data/out/a/temporary"));
}

#[test]
fn unicode_white_space_around_entries_is_trimmed() {
    assert!(set(&["\u{3000}", "\t\u{2003}\n"]).is_empty());
    assert_eq!(set(&["\u{a0}temp\t"]), set(&["TEMP"]));
}
