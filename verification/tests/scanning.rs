use comfysort_engine::destinations::{count_media, scan_destinations};
use comfysort_engine::domain::{
    media_kind, system_time_to_ms, system_time_to_ms_pub, trash_dir, DirEntryInfo, MediaItemDto, MediaKind,
};
use comfysort_engine::ignore::IgnoreSet;
use comfysort_engine::media::{classify_inbox_entry, input_dirs, scan_inbox, scan_inputs, InboxEntry};

fn file(path: &str, modified: Option<i64>) -> DirEntryInfo {
    DirEntryInfo { path: path.to_owned(), is_dir: false, is_file: true, size_bytes: 10, modified_ms: modified }
}

fn dir(path: &str) -> DirEntryInfo {
    DirEntryInfo { path: path.to_owned(), is_dir: true, is_file: false, size_bytes: 0, modified_ms: None }
}

fn names(items: &[MediaItemDto]) -> Vec<&str> {
    items.iter().map(|m| m.file_name.as_str()).collect()
}

#[test]
fn media_kinds_by_extension() {
    assert_eq!(media_kind("/a/b.JPG"), MediaKind::Image);
    assert_eq!(media_kind("/a/b.avif"), MediaKind::Image);
    assert_eq!(media_kind("/a/b.m4v"), MediaKind::Video);
    assert_eq!(media_kind("/a/b.txt"), MediaKind::Other);
    assert_eq!(media_kind("/a/noext"), MediaKind::Other);
}

#[test]
fn flat_scan_ignores_subfolders() {
    let entries = vec![file("/in/top.jpg", Some(1)), dir("/in/sub")];
    assert!(matches!(classify_inbox_entry(&entries[1], false), InboxEntry::Skip));
    let items = scan_inbox(&entries, false);
    assert_eq!(names(&items), vec!["top.jpg"]);
}

#[test]
fn recursive_scan_descends_but_skips_the_state_dir() {
    assert!(matches!(classify_inbox_entry(&dir("/in/sub"), true), InboxEntry::Descend));
    assert!(matches!(classify_inbox_entry(&dir("/in/.comfysort"), true), InboxEntry::Skip));
    assert!(matches!(classify_inbox_entry(&dir("/in/.COMFYSORT"), true), InboxEntry::Skip));
}

#[test]
fn inbox_is_newest_first_then_by_name() {
    let entries = vec![
        file("/in/b.jpg", Some(5)),
        file("/in/notes.txt", Some(9)),
        file("/in/a.jpg", Some(5)),
        file("/in/old.mp4", Some(1)),
        file("/in/undated.png", None),
        file("/in/new.webp", Some(7)),
    ];
    let items = scan_inbox(&entries, false);
    assert_eq!(names(&items), vec!["new.webp", "a.jpg", "b.jpg", "old.mp4", "undated.png"]);
}

#[test]
fn several_inputs_merge_into_one_order() {
    let one = scan_inbox(&vec![file("/x/a.jpg", Some(1)), file("/x/c.jpg", Some(3))], false);
    let two = scan_inbox(&vec![file("/y/b.jpg", Some(2))], false);
    let merged = scan_inputs(vec![one, two]);
    assert_eq!(names(&merged), vec!["c.jpg", "b.jpg", "a.jpg"]);
}

#[test]
fn input_lists_split_on_semicolons() {
    assert_eq!(input_dirs(" /a ; ;/b;"), vec!["/a".to_owned(), "/b".to_owned()]);
    assert!(input_dirs("").is_empty());
}

#[test]
fn from_path_keeps_only_media_files() {
    assert!(MediaItemDto::from_path(&file("/in/a.txt", None)).is_none());
    assert!(MediaItemDto::from_path(&dir("/in/a.jpg")).is_none());
    let m = MediaItemDto::from_path(&file("/in/a.jpg", Some(4))).unwrap();
    assert_eq!(m.file_name, "a.jpg");
    assert_eq!(m.kind, MediaKind::Image);
    assert_eq!(m.modified_ms, Some(4));
}

#[test]
fn count_media_counts_supported_files_only() {
    let entries = vec![file("/d/a.jpg", None), file("/d/b.txt", None), dir("/d/c.png"), file("/d/d.mkv", None)];
    assert_eq!(count_media(&entries), 2);
}

#[test]
fn destinations_sort_by_label_with_trash_last_on_zero() {
    let entries = vec![dir("/o/zeta"), dir("/o/Alpha"), dir("/o/.comfysort"), file("/o/x.jpg", None), dir("/o/Trash")];
    let counts = vec![1, 2, 0, 0, 4];
    let ds = scan_destinations("/o", &IgnoreSet::new(&[]), &entries, &counts, 9);
    let labels: Vec<&str> = ds.iter().map(|d| d.label.as_str()).collect();
    assert_eq!(labels, vec!["Alpha", "zeta", "Trash"]);
    assert!(ds[..2].iter().all(|d| d.hotkey.is_none() && !d.is_trash));
    let t = ds.last().unwrap();
    assert!(t.is_trash);
    assert_eq!(t.hotkey.as_deref(), Some("0"));
    assert_eq!(t.media_count, 4);
}

#[test]
fn without_a_trash_folder_the_trash_is_virtual() {
    let ds = scan_destinations("/o", &IgnoreSet::new(&[]), &vec![dir("/o/keep")], &vec![0], 3);
    let t = ds.last().unwrap();
    assert_eq!(t.path, trash_dir("/o"));
    assert_eq!(t.label, "trash");
    assert_eq!(t.media_count, 3);
}

/// Every entry a scan of `dir` meets in the in-memory tree `nodes`,
/// descending where the engine says to.
fn walk_inbox(nodes: &[(&str, bool)], dir: &str, recursive: bool, out: &mut Vec<DirEntryInfo>) {
    let prefix = format!("{dir}/");
    for (p, is_dir) in nodes {
        if !p.starts_with(&prefix) || p[prefix.len()..].contains('/') {
            continue;
        }
        let e = if *is_dir { dir_entry(p) } else { file(p, Some(1)) };
        if let InboxEntry::Descend = classify_inbox_entry(&e, recursive) {
            walk_inbox(nodes, p, recursive, out);
        }
        out.push(e);
    }
}

fn dir_entry(path: &str) -> DirEntryInfo {
    dir(path)
}

fn sorted_names(items: &[MediaItemDto]) -> Vec<&str> {
    let mut v = names(items);
    v.sort_unstable();
    v
}

#[test]
fn recursive_scan_walks_subfolders() {
    let nodes = [
        ("/in/top.jpg", false),
        ("/in/a", true),
        ("/in/a/b", true),
        ("/in/a/b/nested.mp4", false),
        ("/in/a/b/not-media.txt", false),
    ];
    let mut entries = Vec::new();
    walk_inbox(&nodes, "/in", true, &mut entries);
    let items = scan_inbox(&entries, true);
    assert_eq!(sorted_names(&items), ["nested.mp4", "top.jpg"]);
}

#[test]
fn recursive_scan_skips_state_dir() {
    let nodes = [
        ("/in/.comfysort", true),
        ("/in/.comfysort/.trash", true),
        ("/in/.comfysort/.trash/trashed.jpg", false),
        ("/in/top.jpg", false),
    ];
    let mut entries = Vec::new();
    walk_inbox(&nodes, "/in", true, &mut entries);
    let items = scan_inbox(&entries, true);
    assert_eq!(sorted_names(&items), ["top.jpg"]);
}

#[test]
fn times_become_milliseconds() {
    assert_eq!(system_time_to_ms(Some(1_700_000_000_123)), Some(1_700_000_000_123));
    assert_eq!(system_time_to_ms(None), None);
    assert_eq!(system_time_to_ms_pub(Some(5)), Some(5));
}
