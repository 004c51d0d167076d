//! Session commands driven over an in-memory directory tree, the way the
//! application drives them over the real filesystem.

use comfysort_engine::destinations::{count_media, scan_destinations};
use comfysort_engine::domain::{trash_dir, DestinationDto, DirEntryInfo, STATE_DIR};
use comfysort_engine::ignore::IgnoreSet;
use comfysort_engine::persistence::PersistedBindings;
use comfysort_engine::search::{folder_entry_for_hit, walk_entry, ScoredFolder, WalkStep};
use comfysort_engine::operations::OperationKind;
use comfysort_engine::session::{
    count_subfolders, is_listed_folder, HotkeyRoute, Session, SessionError, Transfer, TransferAction, TransferCommand,
    TransferEvent, TransferStage,
};

/// Every path of the tree with whether it is a directory.
struct Tree {
    nodes: Vec<(String, bool)>,
}

impl Tree {
    fn new() -> Tree {
        Tree { nodes: Vec::new() }
    }

    fn dir(&mut self, path: &str) {
        let mut acc = String::new();
        for (i, part) in path.split('/').enumerate() {
            if i > 0 {
                acc.push('/');
            }
            acc.push_str(part);
            if !acc.is_empty() && !self.nodes.iter().any(|(p, _)| *p == acc) {
                self.nodes.push((acc.clone(), true));
            }
        }
    }

    fn file(&mut self, path: &str) {
        let parent = &path[..path.rfind('/').unwrap()];
        self.dir(parent);
        self.nodes.push((path.to_owned(), false));
    }

    fn remove(&mut self, path: &str) {
        let prefix = format!("{path}/");
        self.nodes.retain(|(p, _)| p != path && !p.starts_with(&prefix));
    }

    fn has(&self, path: &str) -> bool {
        self.nodes.iter().any(|(p, _)| p == path)
    }

    fn entries(&self, dir: &str) -> Vec<DirEntryInfo> {
        let prefix = format!("{dir}/");
        self.nodes
            .iter()
            .filter(|(p, _)| p.starts_with(&prefix) && !p[prefix.len()..].contains('/'))
            .map(|(p, is_dir)| DirEntryInfo {
                path: p.clone(),
                is_dir: *is_dir,
                is_file: !*is_dir,
                size_bytes: 3,
                modified_ms: Some(0),
            })
            .collect()
    }

    fn media_recursive(&self, dir: &str, ignores: &IgnoreSet) -> usize {
        let entries = self.entries(dir);
        let mut n = count_media(&entries);
        for e in &entries {
            if is_listed_folder(ignores, e) {
                n += self.media_recursive(&e.path, ignores);
            }
        }
        n
    }

    fn scan(&self, output: &str, ignores: &IgnoreSet) -> Vec<DestinationDto> {
        let entries = self.entries(output);
        let counts: Vec<usize> = entries.iter().map(|e| count_media(&self.entries(&e.path))).collect();
        let trash_count = count_media(&self.entries(&trash_dir(output)));
        scan_destinations(output, ignores, &entries, &counts, trash_count)
    }
}

const INPUT: &str = "/t/inbox";
const OUTPUT: &str = "/t/out";

fn open_with(tree: &Tree, ignored: &[&str]) -> Session {
    let ignored: Vec<String> = ignored.iter().map(|s| (*s).to_owned()).collect();
    let ignores = IgnoreSet::new(&ignored);
    let scanned = tree.scan(OUTPUT, &ignores);
    let archive = format!("{OUTPUT}/{STATE_DIR}/archive");
    let archive_count = count_media(&tree.entries(&archive));
    let (session, view) = Session::open(
        INPUT.to_owned(),
        OUTPUT.to_owned(),
        false,
        &ignored,
        Vec::new(),
        scanned,
        PersistedBindings::default(),
        &Vec::new(),
        archive_count,
    );
    assert_eq!(view.destinations.len(), session.destinations().len());
    session
}

fn list(session: &Session, tree: &Tree, dir: &str) -> Vec<(String, usize)> {
    let dir = session.clamp_to_output(dir);
    let entries = tree.entries(&dir);
    let counts: Vec<(usize, usize)> = entries
        .iter()
        .map(|e| {
            (
                tree.media_recursive(&e.path, session.ignores()),
                count_subfolders(&tree.entries(&e.path), session.ignores()),
            )
        })
        .collect();
    session
        .list_folders(&dir, &entries, &counts)
        .folders
        .into_iter()
        .map(|f| (f.name, f.media_count))
        .collect()
}

fn listed_names(session: &Session, tree: &Tree, dir: &str) -> Vec<String> {
    list(session, tree, dir).into_iter().map(|(n, _)| n).collect()
}

fn total_listed_media(session: &Session, tree: &Tree, dir: &str) -> usize {
    list(session, tree, dir).into_iter().map(|(_, c)| c).sum()
}

fn walk(tree: &Tree, dir: &str, lowered: &str, ignores: &IgnoreSet, out: &mut Vec<ScoredFolder>) {
    for e in tree.entries(dir) {
        if let WalkStep::Descend(hit) = walk_entry(OUTPUT, STATE_DIR, lowered, ignores, &e) {
            if let Some(h) = hit {
                out.push(h);
            }
            walk(tree, &e.path, lowered, ignores, out);
        }
    }
}

fn search(session: &Session, tree: &Tree, query: &str) -> Vec<String> {
    let mut hits = Vec::new();
    walk(tree, OUTPUT, &query.to_ascii_lowercase(), session.ignores(), &mut hits);
    session
        .search_folders(query, hits)
        .iter()
        .map(|h| folder_entry_for_hit(h, count_media(&tree.entries(&h.path)), 0).name)
        .collect()
}

fn target_labels(session: &Session) -> Vec<String> {
    session.destinations().iter().map(|d| d.label.clone()).collect()
}

fn set_ignored(session: &mut Session, tree: &Tree, entries: &[&str]) -> Vec<DestinationDto> {
    let entries: Vec<String> = entries.iter().map(|s| (*s).to_owned()).collect();
    let scanned = tree.scan(OUTPUT, &IgnoreSet::new(&entries));
    session.set_ignored_folders(&entries, Some(scanned))
}

fn count_of(session: &Session, dir: &str) -> usize {
    session.destinations().iter().find(|d| d.path == dir).map(|d| d.media_count).expect("destination present")
}

/// An output root holding `keep/` (1 image) and `_raw/nested/` (2 images).
fn ignore_fixture() -> Tree {
    let mut t = Tree::new();
    t.dir(INPUT);
    t.file(&format!("{OUTPUT}/keep/a.jpg"));
    t.file(&format!("{OUTPUT}/_raw/b.jpg"));
    t.file(&format!("{OUTPUT}/_raw/nested/c.jpg"));
    t
}

#[test]
fn ignored_folder_is_hidden_from_navigator_search_and_targets() {
    let tree = ignore_fixture();
    let session = open_with(&tree, &["_raw"]);

    assert_eq!(listed_names(&session, &tree, OUTPUT), vec!["keep"]);
    let labels = target_labels(&session);
    assert!(!labels.contains(&"_raw".to_owned()), "{labels:?}");
    assert!(search(&session, &tree, "raw").is_empty(), "fuzzy search must not surface an ignored folder");
    assert!(search(&session, &tree, "nested").is_empty());
}

#[test]
fn ignored_subtree_is_left_out_of_media_counts() {
    let tree = ignore_fixture();
    let visible = open_with(&tree, &[]);
    assert_eq!(total_listed_media(&visible, &tree, OUTPUT), 3, "keep/a.jpg + _raw/b.jpg + _raw/nested/c.jpg");
    let ignored = open_with(&tree, &["_raw"]);
    assert_eq!(total_listed_media(&ignored, &tree, OUTPUT), 1, "only keep/a.jpg is still counted");
}

#[test]
fn absolute_path_rule_ignores_only_that_folder() {
    let mut tree = ignore_fixture();
    tree.dir(&format!("{OUTPUT}/keep/_raw"));
    let rule = format!("{OUTPUT}/_raw");
    let session = open_with(&tree, &[&rule]);

    assert_eq!(listed_names(&session, &tree, OUTPUT), vec!["keep"]);
    assert_eq!(
        listed_names(&session, &tree, &format!("{OUTPUT}/keep")),
        vec!["_raw"],
        "the nested _raw is a different path and stays visible"
    );
}

#[test]
fn setting_ignores_live_hides_then_restores_the_folder() {
    let tree = ignore_fixture();
    let mut session = open_with(&tree, &[]);
    assert!(target_labels(&session).contains(&"_raw".to_owned()));

    let after = set_ignored(&mut session, &tree, &["_raw"]);
    assert!(!after.iter().any(|d| d.label == "_raw"));
    assert_eq!(listed_names(&session, &tree, OUTPUT), vec!["keep"]);

    let restored = set_ignored(&mut session, &tree, &[]);
    assert!(restored.iter().any(|d| d.label == "_raw"));
    assert!(listed_names(&session, &tree, OUTPUT).contains(&"_raw".to_owned()));
}

#[test]
fn ignoring_keeps_a_bound_folder_as_a_target() {
    let tree = ignore_fixture();
    let mut session = open_with(&tree, &[]);
    let raw = format!("{OUTPUT}/_raw");
    session.bind_folder(&raw, '3', tree.media_recursive(&raw, session.ignores())).unwrap();

    let after = set_ignored(&mut session, &tree, &["_raw"]);
    let bound = after
        .iter()
        .find(|d| d.hotkey.as_deref() == Some("3"))
        .expect("an explicit hotkey bind survives being ignored");
    assert_eq!(bound.path, raw);
    assert_eq!(listed_names(&session, &tree, OUTPUT), vec!["keep"]);
}

#[test]
fn set_ignored_folders_preserves_the_trash_and_archive_slots() {
    let tree = ignore_fixture();
    let mut session = open_with(&tree, &[]);
    let after = set_ignored(&mut session, &tree, &["_raw"]);
    assert!(after.iter().any(|d| d.is_trash && d.hotkey.as_deref() == Some("0")), "trash keeps slot 0");
    assert!(after.iter().any(|d| d.hotkey.as_deref() == Some("=")), "the managed archive keeps slot =");
    let keys: Vec<&str> = after.iter().filter_map(|d| d.hotkey.as_deref()).collect();
    for (i, k) in keys.iter().enumerate() {
        assert!(!keys[i + 1..].contains(k), "hotkey {k} is held twice");
    }
}

/// Inbox with `a.jpg`; output with `keep/` and `other/`.
fn move_fixture() -> Tree {
    let mut t = Tree::new();
    t.file(&format!("{INPUT}/a.jpg"));
    t.file(&format!("{INPUT}/b.jpg"));
    t.dir(&format!("{OUTPUT}/keep"));
    t.dir(&format!("{OUTPUT}/other"));
    t
}

#[test]
fn move_increments_only_target_count_without_rescanning_others() {
    let tree = move_fixture();
    let mut session = open_with(&tree, &[]);
    let keep = format!("{OUTPUT}/keep");
    let other = format!("{OUTPUT}/other");
    assert_eq!(count_of(&session, &keep), 0);

    let counts: Vec<usize> =
        session.destinations().iter().map(|d| if d.path == other { 999 } else { d.media_count }).collect();
    session.refresh_counts(&counts);

    let src = format!("{INPUT}/a.jpg");
    let resolved = session.plan_transfer(&src, &keep, &|p: &str| tree.has(p)).unwrap();
    assert_eq!(resolved, format!("{keep}/a.jpg"));
    let outcome = session.move_item(&src, &keep, &resolved);

    assert_eq!(count_of(&session, &keep), 1);
    assert_eq!(count_of(&session, &other), 999);
    assert_eq!(outcome.destinations.iter().find(|d| d.path == keep).unwrap().media_count, 1);
    assert_eq!(outcome.destinations.iter().find(|d| d.path == other).unwrap().media_count, 999);
    assert_eq!(outcome.message, "Moved to keep");
    assert!(outcome.source_removed);
    assert!(outcome.can_undo);
}

#[test]
fn undo_move_decrements_target_count() {
    let mut tree = move_fixture();
    let mut session = open_with(&tree, &[]);
    let keep = format!("{OUTPUT}/keep");
    let src = format!("{INPUT}/a.jpg");
    let resolved = session.plan_transfer(&src, &keep, &|p: &str| tree.has(p)).unwrap();
    session.move_item(&src, &keep, &resolved);
    tree.remove(&src);
    tree.file(&resolved);
    assert_eq!(count_of(&session, &keep), 1);

    let op = session.undo(&|p: &str| tree.has(p)).unwrap();
    assert_eq!(op.source_path, src);
    let outcome = session.undone(&op, None).unwrap();
    assert_eq!(count_of(&session, &keep), 0, "undo restores the count");
    assert_eq!(outcome.message, "Undo: restored to inbox");
    assert!(!outcome.can_undo);
}

#[test]
fn copy_increments_and_undo_decrements() {
    let tree = move_fixture();
    let mut session = open_with(&tree, &[]);
    let keep = format!("{OUTPUT}/keep");
    let src = format!("{INPUT}/a.jpg");
    let resolved = session.plan_transfer(&src, &keep, &|p: &str| tree.has(p)).unwrap();
    let outcome = session.copy_item(&src, &keep, &resolved);
    assert!(!outcome.source_removed);
    assert_eq!(count_of(&session, &keep), 1);

    let op = session.undo(&|p: &str| tree.has(p)).unwrap();
    let outcome = session.undone(&op, None).unwrap();
    assert_eq!(count_of(&session, &keep), 0);
    assert_eq!(outcome.message, "Undo: removed duplicate");
}

#[test]
fn trash_increments_trash_count() {
    let tree = move_fixture();
    let mut session = open_with(&tree, &[]);
    let trash = trash_dir(OUTPUT);
    assert_eq!(count_of(&session, &trash), 0);
    let src = format!("{INPUT}/a.jpg");
    let resolved = session.plan_trash(&src, &|p: &str| tree.has(p)).unwrap();
    assert_eq!(resolved, format!("{trash}/a.jpg"));
    session.trash_item(&src, &resolved);
    assert_eq!(count_of(&session, &trash), 1);
}

#[test]
fn empty_trash_clears_contents_and_resets_count() {
    let mut tree = move_fixture();
    let mut session = open_with(&tree, &[]);
    let trash = trash_dir(OUTPUT);
    for name in ["a.jpg", "b.jpg"] {
        let src = format!("{INPUT}/{name}");
        let resolved = session.plan_trash(&src, &|p: &str| tree.has(p)).unwrap();
        session.trash_item(&src, &resolved);
        tree.remove(&src);
        tree.file(&resolved);
    }
    assert_eq!(count_of(&session, &trash), 2);
    assert!(tree.has(&trash));

    // Empty the trash as the application does: remove every entry, count them.
    let mut removed = 0usize;
    for e in tree.entries(&trash) {
        tree.remove(&e.path);
        removed += 1;
    }
    let result = session.trash_emptied(removed);
    assert_eq!(result.removed, 2, "both trashed files removed");
    assert_eq!(count_of(&session, &trash), 0, "trash count reset");
    assert_eq!(result.destinations.iter().find(|d| d.is_trash).unwrap().media_count, 0);
    assert!(tree.has(&trash), "the trash directory itself remains");
    assert_eq!(tree.entries(&trash).len(), 0, "trash directory emptied");
}

#[test]
fn binding_a_hotkey_moves_it_off_its_previous_holder() {
    let tree = move_fixture();
    let mut session = open_with(&tree, &[]);
    let keep = format!("{OUTPUT}/keep");
    let other = format!("{OUTPUT}/other");
    session.bind_folder(&keep, '1', 0).unwrap();
    session.bind_folder(&other, '1', 0).unwrap();
    let holders: Vec<&DestinationDto> =
        session.destinations().iter().filter(|d| d.hotkey.as_deref() == Some("1")).collect();
    assert_eq!(holders.len(), 1);
    assert_eq!(holders[0].path, other);
    assert_eq!(session.dest_dir_for_hotkey("1"), Some(other.clone()));
    assert_eq!(session.move_to_hotkey("1"), Some(HotkeyRoute::Move(other)));
    assert_eq!(session.move_to_hotkey("0"), Some(HotkeyRoute::Trash));
    assert_eq!(session.move_to_hotkey("7"), None);
}

#[test]
fn binding_refuses_reserved_hotkeys() {
    let tree = move_fixture();
    let mut session = open_with(&tree, &[]);
    assert_eq!(session.bind_folder(&format!("{OUTPUT}/keep"), '0', 0), Err(SessionError::NotBindable));
    assert_eq!(session.bind_folder(&format!("{OUTPUT}/keep"), 'a', 0), Err(SessionError::NotBindable));
}

#[test]
fn binding_a_nested_folder_adds_a_row_and_unbinding_drops_it() {
    let mut tree = move_fixture();
    let nested = format!("{OUTPUT}/keep/deep");
    tree.dir(&nested);
    let mut session = open_with(&tree, &[]);
    let before = session.destinations().len();
    session.bind_folder(&nested, '5', 0).unwrap();
    assert_eq!(session.destinations().len(), before + 1);
    assert_eq!(session.destinations().last().unwrap().label, "deep");
    assert_eq!(session.user_bindings().hotkeys.get("5").map(|s| s.as_str()), Some("keep/deep"));

    session.unbind_hotkey('5', &tree.entries(OUTPUT));
    assert_eq!(session.destinations().len(), before);
    assert!(session.user_bindings().hotkeys.get("5").is_none());
}

#[test]
fn unbinding_a_top_level_folder_keeps_its_row() {
    let tree = move_fixture();
    let mut session = open_with(&tree, &[]);
    let keep = format!("{OUTPUT}/keep");
    session.bind_folder(&keep, '2', 0).unwrap();
    let before = session.destinations().len();
    session.unbind_hotkey('2', &tree.entries(OUTPUT));
    assert_eq!(session.destinations().len(), before);
    assert!(session.destinations().iter().all(|d| d.hotkey.as_deref() != Some("2")));
}

#[test]
fn bind_folder_clamps_paths_outside_the_output_root() {
    let tree = move_fixture();
    let mut session = open_with(&tree, &[]);
    session.bind_folder("/elsewhere/x", '4', 0).unwrap();
    assert_eq!(session.dest_dir_for_hotkey("4"), Some(OUTPUT.to_owned()));
    session.bind_path("/elsewhere/x", '6', 0).unwrap();
    assert_eq!(session.dest_dir_for_hotkey("6"), Some("/elsewhere/x".to_owned()));
}

#[test]
fn delete_and_rename_refuse_the_reserved_folders() {
    let tree = move_fixture();
    let session = open_with(&tree, &[]);
    let taken = |p: &str| tree.has(p);
    assert_eq!(session.delete_folder(OUTPUT, &taken), Err(SessionError::OutputRoot));
    assert_eq!(session.delete_folder(&format!("{OUTPUT}/.comfysort"), &taken), Err(SessionError::StateDir));
    assert_eq!(session.delete_folder(&format!("{OUTPUT}/.comfysort/x"), &taken), Err(SessionError::StateDir));
    assert_eq!(session.rename_folder(OUTPUT, "new", &taken), Err(SessionError::OutputRoot));
    assert_eq!(session.rename_folder(&format!("{OUTPUT}/keep"), "  ", &taken), Err(SessionError::InvalidName));
    assert_eq!(session.rename_folder(&format!("{OUTPUT}/keep"), "a/b", &taken), Err(SessionError::InvalidName));
    assert_eq!(session.rename_folder(&format!("{OUTPUT}/keep"), "other", &taken), Err(SessionError::NameTaken));
    assert_eq!(
        session.rename_folder(&format!("{OUTPUT}/keep"), " kept ", &taken),
        Ok(format!("{OUTPUT}/kept"))
    );
}

#[test]
fn deleting_a_folder_moves_it_to_trash_and_prunes_its_bindings() {
    let tree = move_fixture();
    let mut session = open_with(&tree, &[]);
    let keep = format!("{OUTPUT}/keep");
    session.bind_folder(&keep, '1', 0).unwrap();
    let resolved = session.delete_folder(&keep, &|p: &str| tree.has(p)).unwrap();
    assert_eq!(resolved, format!("{}/keep", trash_dir(OUTPUT)));
    let outcome = session.folder_deleted(&keep, &resolved);
    assert_eq!(outcome.message, "Deleted keep to trash");
    assert!(session.user_bindings().hotkeys.get("1").is_none());
    assert!(outcome.can_undo);
}

#[test]
fn renaming_a_bound_folder_follows_it() {
    let tree = move_fixture();
    let mut session = open_with(&tree, &[]);
    let keep = format!("{OUTPUT}/keep");
    session.bind_folder(&keep, '1', 0).unwrap();
    let target = session.rename_folder(&keep, "kept", &|p: &str| tree.has(p)).unwrap();
    let dests = session.folder_renamed(&keep, &target, "kept");
    let row = dests.iter().find(|d| d.hotkey.as_deref() == Some("1")).unwrap();
    assert_eq!(row.path, target);
    assert_eq!(row.label, "kept");
    assert_eq!(session.user_bindings().hotkeys.get("1").map(|s| s.as_str()), Some("kept"));
}

#[test]
fn create_folder_trims_and_validates_the_name() {
    let tree = move_fixture();
    let session = open_with(&tree, &[]);
    let d = session.create_folder(OUTPUT, "  fresh ").unwrap();
    assert_eq!(d.label, "fresh");
    assert_eq!(d.path, format!("{OUTPUT}/fresh"));
    assert_eq!(d.hotkey, None);
    assert_eq!(d.media_count, 0);
    assert!(!d.is_trash);
    assert_eq!(session.create_folder(OUTPUT, "").unwrap_err(), SessionError::InvalidName);
    assert_eq!(session.create_folder(OUTPUT, r"a\b").unwrap_err(), SessionError::InvalidName);
}

#[test]
fn navigator_lists_by_media_count_then_name_and_clamps() {
    let mut tree = Tree::new();
    tree.file(&format!("{OUTPUT}/b/1.jpg"));
    tree.file(&format!("{OUTPUT}/b/2.jpg"));
    tree.file(&format!("{OUTPUT}/a/1.png"));
    tree.file(&format!("{OUTPUT}/c/1.mp4"));
    tree.file(&format!("{OUTPUT}/c/notes.txt"));
    tree.dir(&format!("{OUTPUT}/.comfysort/archive"));
    let session = open_with(&tree, &[]);
    assert_eq!(
        list(&session, &tree, OUTPUT),
        vec![("b".to_owned(), 2), ("a".to_owned(), 1), ("c".to_owned(), 1)]
    );
    // A folder outside the output root falls back to the root itself.
    assert_eq!(listed_names(&session, &tree, "/somewhere/else"), vec!["b", "a", "c"]);
    let listing = session.list_folders(&format!("{OUTPUT}/b"), &Vec::new(), &Vec::new());
    assert_eq!(listing.parent, Some(OUTPUT.to_owned()));
    assert_eq!(listing.rel, "b");
    let root = session.list_folders(OUTPUT, &Vec::new(), &Vec::new());
    assert_eq!(root.parent, None);
    assert_eq!(root.rel, "");
}

#[test]
fn search_ranks_by_score_and_ignores_blank_queries() {
    let mut tree = Tree::new();
    tree.dir(&format!("{OUTPUT}/groups/itzy/ryumommy"));
    tree.dir(&format!("{OUTPUT}/r-y-u-m-scattered/path"));
    let session = open_with(&tree, &[]);
    assert!(search(&session, &tree, "   ").is_empty());
    let names = search(&session, &tree, "ryum");
    assert_eq!(names.first().map(|s| s.as_str()), Some("ryumommy"));
}

#[test]
fn the_archive_takes_the_equals_slot_by_default() {
    let tree = move_fixture();
    let session = open_with(&tree, &[]);
    let archive = session.destinations().iter().find(|d| d.hotkey.as_deref() == Some("=")).unwrap();
    assert_eq!(archive.label, "archive");
    assert_eq!(archive.path, format!("{OUTPUT}/.comfysort/archive"));
    let trash = session.destinations().iter().find(|d| d.is_trash).unwrap();
    assert_eq!(trash.hotkey.as_deref(), Some("0"));
}

#[test]
fn the_collision_policy_applies_to_moves_but_not_to_trash() {
    let mut tree = move_fixture();
    let keep = format!("{OUTPUT}/keep");
    tree.file(&format!("{keep}/a.jpg"));
    tree.file(&format!("{}/a.jpg", trash_dir(OUTPUT)));
    let mut session = open_with(&tree, &[]);
    let src = format!("{INPUT}/a.jpg");
    let taken = |p: &str| tree.has(p);
    assert_eq!(session.plan_transfer(&src, &keep, &taken), Ok(format!("{keep}/a (2).jpg")));
    session.set_collision_policy(comfysort_engine::domain::CollisionPolicy::Skip);
    assert_eq!(
        session.plan_transfer(&src, &keep, &taken),
        Err(comfysort_engine::operations::EngineError::DestinationExists)
    );
    assert_eq!(session.plan_trash(&src, &taken), Ok(format!("{}/a (2).jpg", trash_dir(OUTPUT))));
    session.set_collision_policy(comfysort_engine::domain::CollisionPolicy::Overwrite);
    assert_eq!(session.plan_transfer(&src, &keep, &taken), Ok(format!("{keep}/a.jpg")));
}

#[test]
fn rescanning_reads_the_session_inputs() {
    let tree = move_fixture();
    let mut session = open_with(&tree, &[]);
    assert_eq!(session.rescan_inbox(), (vec![INPUT.to_owned()], false));
    session.set_recursive_inbox(true);
    assert_eq!(session.rescan_inbox(), (vec![INPUT.to_owned()], true));
}

#[test]
fn search_ties_are_broken_by_folder_name() {
    let tree = move_fixture();
    let session = open_with(&tree, &[]);
    let hit = |rel: &str| ScoredFolder { path: format!("{OUTPUT}/{rel}"), rel: rel.to_owned(), score: 7 };
    let hits = vec![hit("a/yb"), hit("b/ya"), hit("c/z")];
    let ranked: Vec<String> = session.search_folders("y", hits).into_iter().map(|h| h.rel).collect();
    assert_eq!(ranked, vec!["b/ya", "a/yb", "c/z"]);
}

#[test]
fn search_keeps_the_fifty_best() {
    let tree = move_fixture();
    let session = open_with(&tree, &[]);
    let hits: Vec<ScoredFolder> = (0..60)
        .map(|i| ScoredFolder { path: format!("{OUTPUT}/f{i:02}"), rel: format!("f{i:02}"), score: i })
        .collect();
    let ranked = session.search_folders("f", hits);
    assert_eq!(ranked.len(), 50);
    assert_eq!(ranked[0].score, 59);
    assert_eq!(ranked[49].score, 10);
}

#[test]
fn a_query_of_unicode_white_space_is_blank() {
    let tree = move_fixture();
    let session = open_with(&tree, &[]);
    let hits = vec![ScoredFolder { path: format!("{OUTPUT}/keep"), rel: "keep".to_owned(), score: 1 }];
    assert!(session.search_folders("\t\u{3000}\u{a0} ", hits).is_empty());
}

fn planned(command: comfysort_engine::session::TransferCommand, source: &str, resolved: &str) -> Transfer {
    Transfer {
        command,
        source: source.to_owned(),
        resolved: resolved.to_owned(),
        stage: TransferStage::Planned,
    }
}

#[test]
fn a_transfer_writes_intent_then_acts_then_writes_success_then_records() {
    let tree = move_fixture();
    let mut session = open_with(&tree, &[]);
    let keep = format!("{OUTPUT}/keep");
    let src = format!("{INPUT}/a.jpg");
    let resolved = format!("{keep}/a.jpg");
    let mut t = planned(TransferCommand::Move(keep.clone()), &src, &resolved);

    assert!(matches!(session.transfer_step(&mut t, TransferEvent::Begin), TransferAction::WriteIntent(OperationKind::Move)));
    assert_eq!(t.stage, TransferStage::IntentPending);
    assert!(matches!(session.transfer_step(&mut t, TransferEvent::IntentWritten), TransferAction::Perform));
    assert!(matches!(
        session.transfer_step(&mut t, TransferEvent::Performed(true)),
        TransferAction::WriteSucceeded(OperationKind::Move)
    ));
    assert_eq!(count_of(&session, &keep), 0, "nothing is recorded before the success record");
    match session.transfer_step(&mut t, TransferEvent::SucceededWritten) {
        TransferAction::Done(o) => {
            assert_eq!(o.message, "Moved to keep");
            assert!(o.can_undo);
        }
        other => panic!("expected Done, got {other:?}"),
    }
    assert_eq!(t.stage, TransferStage::Finished);
    assert_eq!(count_of(&session, &keep), 1);
    // A finished transfer records nothing more.
    assert!(matches!(session.transfer_step(&mut t, TransferEvent::SucceededWritten), TransferAction::Fail));
    assert_eq!(count_of(&session, &keep), 1);
}

#[test]
fn a_failed_operation_records_nothing() {
    let tree = move_fixture();
    let mut session = open_with(&tree, &[]);
    let src = format!("{INPUT}/a.jpg");
    let mut t = planned(TransferCommand::Trash, &src, &format!("{}/a.jpg", trash_dir(OUTPUT)));
    session.transfer_step(&mut t, TransferEvent::Begin);
    session.transfer_step(&mut t, TransferEvent::IntentWritten);
    assert!(matches!(session.transfer_step(&mut t, TransferEvent::Performed(false)), TransferAction::Fail));
    assert_eq!(t.stage, TransferStage::Failed);
    assert!(!session.engine().can_undo());
    assert!(matches!(session.transfer_step(&mut t, TransferEvent::SucceededWritten), TransferAction::Fail));
    assert!(!session.engine().can_undo());
}

#[test]
fn acting_before_the_intent_is_written_stops_the_transfer() {
    let tree = move_fixture();
    let mut session = open_with(&tree, &[]);
    let keep = format!("{OUTPUT}/keep");
    let mut t = planned(TransferCommand::Copy(keep.clone()), &format!("{INPUT}/a.jpg"), &format!("{keep}/a.jpg"));
    session.transfer_step(&mut t, TransferEvent::Begin);
    assert!(matches!(session.transfer_step(&mut t, TransferEvent::Performed(true)), TransferAction::Fail));
    assert_eq!(t.stage, TransferStage::Failed);
    assert!(!session.engine().can_undo());
}

#[test]
fn a_folder_delete_goes_through_the_protocol_and_prunes_bindings() {
    let tree = move_fixture();
    let mut session = open_with(&tree, &[]);
    let keep = format!("{OUTPUT}/keep");
    session.bind_folder(&keep, '1', 0).unwrap();
    let resolved = session.delete_folder(&keep, &|p: &str| tree.has(p)).unwrap();
    let mut t = planned(TransferCommand::DeleteFolder, &keep, &resolved);
    assert!(matches!(
        session.transfer_step(&mut t, TransferEvent::Begin),
        TransferAction::WriteIntent(OperationKind::DeleteFolder)
    ));
    session.transfer_step(&mut t, TransferEvent::IntentWritten);
    session.transfer_step(&mut t, TransferEvent::Performed(true));
    match session.transfer_step(&mut t, TransferEvent::SucceededWritten) {
        TransferAction::Done(o) => assert_eq!(o.message, "Deleted keep to trash"),
        other => panic!("expected Done, got {other:?}"),
    }
    assert!(session.user_bindings().hotkeys.get("1").is_none());
}
