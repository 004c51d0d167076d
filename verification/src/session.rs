//! In-memory session state: the roots, the live destination list, the
//! operation engine and the user's bindings, and the rules that every
//! command applies to them.
//!
//! The caller reads and writes the filesystem; each command here either
//! decides what the caller is to do (where a file goes, what undoing takes)
//! or records what the caller did and answers with the frontend's delta.

use vstd::prelude::*;
use crate::destinations::{is_state_name, label_of};
use crate::domain::{
    CollisionPolicy, DestV, DestinationDto, DirEntryInfo, EmptyTrashResult, FolderEntry, FolderListing,
    MediaItemDto, OpKind, OpOutcome, STATE_DIR, SessionView, archive_dir, clone_dests, dest_view, dests_view,
    journal_path, opt_str_view, trash_dir,
};
use crate::ignore::{IgnoreSet, path_rule_set, name_rule_set};
use crate::operations::{CompletedOp, EngineError, OperationEngine, OperationKind, collision_outcome, ops_view,
    requested_target, undo_outcome, matches_paths, answered};
use crate::paths::{file_name, join, parent, path_eq, spec_file_name, spec_join, spec_parent, spec_path_eq,
    spec_starts_with, spec_strip_prefix, starts_with, strip_prefix};
use crate::persistence::{PersistedBindings, bound_to, unbound, resolved_entries, stored_of, kept_entries, binding_under, retargeted};
use crate::rank::{RankKey, keys_view, lemma_ranked_in_order, lemma_ranked_map, rank, ranked};
use crate::text::lex_lt;
use crate::search::ScoredFolder;
use crate::media::{input_dirs, spec_input_dirs};
use crate::text::{contains_char, eq_ignore_ascii_case, owned, push_str, slashify, slashify_exec, spec_trim,
    strings_view, trim};

verus! {

// ---------------------------------------------------------------------------
// The destination list, abstractly
// ---------------------------------------------------------------------------

/// Hotkey characters the bind flow accepts. Trash (`'0'`) is reserved and
/// auto-bound by the scanner, never reassigned through this flow.
pub open spec fn is_bindable(c: char) -> bool {
    ('1' <= c && c <= '9') || c == '-' || c == '='
}

pub fn is_bindable_hotkey(hotkey: char) -> (r: bool)
    ensures
        r == is_bindable(hotkey),
{
    ('1' <= hotkey && hotkey <= '9') || hotkey == '-' || hotkey == '='
}

/// The first destination at or after `i` whose path equals `p`.
pub open spec fn find_path(ds: Seq<DestV>, p: Seq<char>, i: int) -> Option<int>
    decreases ds.len() - i,
{
    if i < 0 || i >= ds.len() {
        None
    } else if spec_path_eq(ds[i].path, p) {
        Some(i)
    } else {
        find_path(ds, p, i + 1)
    }
}

/// The first destination at or after `i` holding hotkey `key`.
pub open spec fn find_hotkey(ds: Seq<DestV>, key: Seq<char>, i: int) -> Option<int>
    decreases ds.len() - i,
{
    if i < 0 || i >= ds.len() {
        None
    } else if ds[i].hotkey == Some(key) {
        Some(i)
    } else {
        find_hotkey(ds, key, i + 1)
    }
}

/// `d` without hotkey `key`.
pub open spec fn clear_key(d: DestV, key: Seq<char>) -> DestV {
    if d.hotkey == Some(key) {
        DestV { hotkey: None, ..d }
    } else {
        d
    }
}

/// The list with hotkey `key` taken off every destination holding it.
pub open spec fn clear_hotkey(ds: Seq<DestV>, key: Seq<char>) -> Seq<DestV> {
    ds.map_values(|d: DestV| clear_key(d, key))
}

/// The label of a bound folder that is not in the list yet.
pub open spec fn label_or_custom(p: Seq<char>) -> Seq<char> {
    match spec_file_name(p) {
        Some(n) => n,
        None => "(custom)"@,
    }
}

/// Bind `key` to the folder at `path`: strip `key` from whichever
/// destination holds it, then set it on the destination at `path`, or append
/// a new destination for `path` (with media count `count`).
pub open spec fn assign_hotkey(ds: Seq<DestV>, key: Seq<char>, path: Seq<char>, count: nat) -> Seq<DestV> {
    let c = clear_hotkey(ds, key);
    match find_path(c, path, 0) {
        Some(i) => c.update(i, DestV { hotkey: Some(key), ..c[i] }),
        None => c.push(
            DestV { label: label_or_custom(path), path, hotkey: Some(key), is_trash: false, media_count: count },
        ),
    }
}

/// Apply the persisted bindings `rs` (with the media counts `cs` of their
/// folders) to the scanned list, in order, skipping hotkeys that cannot be
/// bound.
pub open spec fn apply_bindings(ds: Seq<DestV>, rs: Seq<(char, Seq<char>)>, cs: Seq<usize>) -> Seq<DestV>
    decreases rs.len(),
{
    if rs.len() == 0 || cs.len() == 0 {
        ds
    } else {
        let prev = apply_bindings(ds, rs.drop_last(), cs.drop_last());
        if is_bindable(rs.last().0) {
            assign_hotkey(prev, seq![rs.last().0], rs.last().1, cs.last() as nat)
        } else {
            prev
        }
    }
}

/// Some destination holds hotkey `key`.
pub open spec fn has_hotkey(ds: Seq<DestV>, key: Seq<char>) -> bool {
    exists|i: int| 0 <= i < ds.len() && #[trigger] ds[i].hotkey == Some(key)
}

/// The managed archive folder under the state dir, the default `=` target.
pub open spec fn archive_dest(output: Seq<char>, count: usize) -> DestV {
    DestV {
        label: "archive"@,
        path: spec_join(spec_join(output, STATE_DIR@), "archive"@),
        hotkey: Some("="@),
        is_trash: false,
        media_count: count as nat,
    }
}

/// The `=` slot defaults to the archive unless the user bound `=` already.
pub open spec fn with_archive(ds: Seq<DestV>, output: Seq<char>, count: usize) -> Seq<DestV> {
    if has_hotkey(ds, "="@) {
        ds
    } else {
        ds.push(archive_dest(output, count))
    }
}

/// One more (`up`) or one fewer media file in the first destination at
/// `dir`; counts saturate at both ends.
pub open spec fn bump(ds: Seq<DestV>, dir: Seq<char>, up: bool) -> Seq<DestV> {
    match find_path(ds, dir, 0) {
        Some(i) => ds.update(
            i,
            DestV {
                media_count: if up {
                    if ds[i].media_count < usize::MAX { ds[i].media_count + 1 } else { ds[i].media_count }
                } else {
                    if ds[i].media_count > 0 { (ds[i].media_count - 1) as nat } else { 0 }
                },
                ..ds[i]
            },
        ),
        None => ds,
    }
}

/// The display name for a destination folder: its label when it is in the
/// list, else its file name, else the path itself.
pub open spec fn label_for(ds: Seq<DestV>, dir: Seq<char>) -> Seq<char> {
    match find_path(ds, dir, 0) {
        Some(i) => ds[i].label,
        None => match spec_file_name(dir) {
            Some(n) => n,
            None => dir,
        },
    }
}

/// One fewer (or more) media file in the folder holding `p`.
pub open spec fn bump_parent(ds: Seq<DestV>, p: Seq<char>, up: bool) -> Seq<DestV> {
    match spec_parent(p) {
        Some(q) => bump(ds, q, up),
        None => ds,
    }
}

/// Carry one destination of the previous list over a re-scan: a folder
/// still scanned keeps its hotkey; a bound folder the scan no longer lists
/// (a nested bind, the managed archive, an ignored bound folder) stays a
/// sort target, except for the trash.
pub open spec fn merge_one(sc: Seq<DestV>, old: DestV) -> Seq<DestV> {
    match find_path(sc, old.path, 0) {
        Some(i) => if old.hotkey is Some {
            sc.update(i, DestV { hotkey: old.hotkey, ..sc[i] })
        } else {
            sc
        },
        None => if old.hotkey is Some && !old.is_trash {
            sc.push(old)
        } else {
            sc
        },
    }
}

/// Carry the previous list `prev` over the re-scan `sc`, in order.
pub open spec fn merge_previous(sc: Seq<DestV>, prev: Seq<DestV>) -> Seq<DestV>
    decreases prev.len(),
{
    if prev.len() == 0 {
        sc
    } else {
        merge_one(merge_previous(sc, prev.drop_last()), prev.last())
    }
}

/// A top-level folder of the output root that the scanner lists: a
/// directory, not the state dir, not ignored.
pub open spec fn is_listed_dir(e: DirEntryInfo, ignores: IgnoreSet) -> bool {
    e.is_dir && !is_state_name(label_of(e.path@)) && !ignores.spec_is_ignored(e.path@)
}

/// The paths of the listed folders among `es`, in order.
pub open spec fn listed_paths(es: Seq<DirEntryInfo>, ignores: IgnoreSet) -> Seq<Seq<char>>
    decreases es.len(),
{
    if es.len() == 0 {
        Seq::empty()
    } else {
        let prev = listed_paths(es.drop_last(), ignores);
        if is_listed_dir(es.last(), ignores) {
            prev.push(es.last().path@)
        } else {
            prev
        }
    }
}

/// Clearing hotkey `key`: a destination holding it that is the trash or a
/// listed top-level folder just loses it; one that was only in the list
/// because of the bind is dropped.
pub open spec fn unbind(ds: Seq<DestV>, key: Seq<char>, top: Seq<Seq<char>>) -> Seq<DestV>
    decreases ds.len(),
{
    if ds.len() == 0 {
        Seq::empty()
    } else {
        let prev = unbind(ds.drop_last(), key, top);
        let d = ds.last();
        if d.hotkey != Some(key) {
            prev.push(d)
        } else if d.is_trash || exists|k: int| 0 <= k < top.len() && spec_path_eq(#[trigger] top[k], d.path) {
            prev.push(DestV { hotkey: None, ..d })
        } else {
            prev
        }
    }
}

/// The first trash destination's count reset to zero.
pub open spec fn zero_trash(ds: Seq<DestV>, i: int) -> Seq<DestV>
    decreases ds.len() - i,
{
    if i < 0 || i >= ds.len() {
        ds
    } else if ds[i].is_trash {
        ds.update(i, DestV { media_count: 0, ..ds[i] })
    } else {
        zero_trash(ds, i + 1)
    }
}

/// Every destination's count replaced by a fresh one.
pub open spec fn recounted(ds: Seq<DestV>, counts: Seq<usize>) -> Seq<DestV> {
    Seq::new(ds.len(), |i: int| DestV { media_count: counts[i] as nat, ..ds[i] })
}

/// Destinations at `from` renamed: they now sit at `to` under the label `name`.
pub open spec fn renamed_dests(ds: Seq<DestV>, from: Seq<char>, to: Seq<char>, name: Seq<char>) -> Seq<DestV> {
    ds.map_values(
        |d: DestV|
            if spec_path_eq(d.path, from) {
                DestV { path: to, label: name, ..d }
            } else {
                d
            },
    )
}

/// A usable folder name: not blank after trimming, no separator.
pub open spec fn valid_folder_name(name: Seq<char>) -> bool {
    spec_trim(name).len() > 0 && !spec_trim(name).contains('/') && !spec_trim(name).contains('\\')
}

/// Folders that can be deleted or renamed: anything but the output root,
/// the state dir (and what is under it) and the trash dir.
pub open spec fn guard_outcome(path: Seq<char>, output: Seq<char>) -> Option<SessionError> {
    let state = spec_join(output, STATE_DIR@);
    let trash = spec_join(state, ".trash"@);
    if spec_path_eq(path, output) {
        Some(SessionError::OutputRoot)
    } else if spec_path_eq(path, state) || spec_starts_with(path, state) {
        Some(SessionError::StateDir)
    } else if spec_path_eq(path, trash) {
        Some(SessionError::TrashDir)
    } else {
        None
    }
}

pub proof fn lemma_find_path(ds: Seq<DestV>, p: Seq<char>, i: int)
    requires
        0 <= i,
    ensures
        find_path(ds, p, i) matches Some(k) ==> i <= k < ds.len() && spec_path_eq(ds[k].path, p) && forall|j: int|
            i <= j < k ==> !spec_path_eq(#[trigger] ds[j].path, p),
        find_path(ds, p, i) is None ==> forall|j: int| i <= j < ds.len() ==> !spec_path_eq(#[trigger] ds[j].path, p),
    decreases ds.len() - i,
{
    if i < ds.len() && !spec_path_eq(ds[i].path, p) {
        lemma_find_path(ds, p, i + 1);
    }
}

pub proof fn lemma_find_hotkey(ds: Seq<DestV>, key: Seq<char>, i: int)
    requires
        0 <= i,
    ensures
        find_hotkey(ds, key, i) matches Some(k) ==> i <= k < ds.len() && ds[k].hotkey == Some(key) && forall|j: int|
            i <= j < k ==> #[trigger] ds[j].hotkey != Some(key),
        find_hotkey(ds, key, i) is None ==> forall|j: int| i <= j < ds.len() ==> #[trigger] ds[j].hotkey != Some(key),
    decreases ds.len() - i,
{
    if i < ds.len() && ds[i].hotkey != Some(key) {
        lemma_find_hotkey(ds, key, i + 1);
    }
}

/// Finding by path does not depend on hotkeys or counts.
proof fn lemma_find_path_same_paths(a: Seq<DestV>, b: Seq<DestV>, p: Seq<char>, i: int)
    requires
        a.len() == b.len(),
        forall|k: int| 0 <= k < a.len() ==> #[trigger] a[k].path == b[k].path,
    ensures
        find_path(a, p, i) == find_path(b, p, i),
    decreases a.len() - i,
{
    if 0 <= i < a.len() {
        lemma_find_path_same_paths(a, b, p, i + 1);
    }
}

/// After binding, exactly one destination holds the hotkey: the one at the
/// bound path.
pub proof fn lemma_assign_unique(ds: Seq<DestV>, key: Seq<char>, path: Seq<char>, count: nat)
    ensures
        ({
            let r = assign_hotkey(ds, key, path, count);
            &&& has_hotkey(r, key)
            &&& forall|a: int, b: int|
                0 <= a < r.len() && 0 <= b < r.len() && #[trigger] r[a].hotkey == Some(key) && #[trigger] r[b].hotkey
                    == Some(key) ==> a == b
            &&& forall|a: int| 0 <= a < r.len() && #[trigger] r[a].hotkey == Some(key) ==> spec_path_eq(r[a].path, path)
                || (a == ds.len() && r[a].path == path)
        }),
{
    let c = clear_hotkey(ds, key);
    let r = assign_hotkey(ds, key, path, count);
    lemma_find_path(c, path, 0);
    match find_path(c, path, 0) {
        Some(i) => {
            assert(r[i].hotkey == Some(key));
        },
        None => {
            assert(r[ds.len() as int].hotkey == Some(key));
        },
    }
}

// ---------------------------------------------------------------------------
// Executable helpers over the destination list
// ---------------------------------------------------------------------------

/// The first destination whose path equals `p`.
fn find_dest(dests: &Vec<DestinationDto>, p: &str) -> (r: Option<usize>)
    ensures
        r matches Some(i) ==> i < dests.len(),
        match r {
            Some(i) => find_path(dests_view(dests@), p@, 0) == Some(i as int),
            None => find_path(dests_view(dests@), p@, 0) is None,
        },
{
    let ghost ds = dests_view(dests@);
    let mut i: usize = 0;
    while i < dests.len()
        invariant
            ds == dests_view(dests@),
            i <= dests.len(),
            find_path(ds, p@, 0) == find_path(ds, p@, i as int),
        decreases dests.len() - i,
    {
        assert(ds[i as int] == dest_view(dests@[i as int]));
        if path_eq(dests[i].path.as_str(), p) {
            return Some(i);
        }
        i = i + 1;
    }
    None
}

/// The first destination holding hotkey `key`.
fn find_dest_hotkey(dests: &Vec<DestinationDto>, key: &str) -> (r: Option<usize>)
    ensures
        r matches Some(i) ==> i < dests.len(),
        match r {
            Some(i) => find_hotkey(dests_view(dests@), key@, 0) == Some(i as int),
            None => find_hotkey(dests_view(dests@), key@, 0) is None,
        },
{
    let ghost ds = dests_view(dests@);
    let mut i: usize = 0;
    while i < dests.len()
        invariant
            ds == dests_view(dests@),
            i <= dests.len(),
            find_hotkey(ds, key@, 0) == find_hotkey(ds, key@, i as int),
        decreases dests.len() - i,
    {
        assert(ds[i as int] == dest_view(dests@[i as int]));
        let holds = match &dests[i].hotkey {
            Some(h) => crate::text::str_eq(h.as_str(), key),
            None => false,
        };
        if holds {
            return Some(i);
        }
        i = i + 1;
    }
    None
}

/// Take hotkey `key` off every destination holding it.
fn clear_hotkey_exec(dests: &mut Vec<DestinationDto>, key: &str)
    ensures
        dests_view(final(dests)@) == clear_hotkey(dests_view(old(dests)@), key@),
{
    let ghost orig = dests_view(dests@);
    let mut i: usize = 0;
    while i < dests.len()
        invariant
            i <= dests.len(),
            dests.len() == orig.len(),
            forall|k: int| 0 <= k < i ==> #[trigger] dests_view(dests@)[k] == clear_key(orig[k], key@),
            forall|k: int| i <= k < dests.len() ==> #[trigger] dests_view(dests@)[k] == orig[k],
        decreases dests.len() - i,
    {
        let holds = match &dests[i].hotkey {
            Some(h) => crate::text::str_eq(h.as_str(), key),
            None => false,
        };
        let ghost before = dests@;
        assert(dests_view(before)[i as int] == dest_view(before[i as int]));
        if holds {
            dests[i].hotkey = None;
            proof {
                assert(orig[i as int].hotkey == Some(key@));
                assert(dests_view(dests@)[i as int] == clear_key(orig[i as int], key@));
                assert forall|k: int| 0 <= k < dests.len() && k != i implies #[trigger] dests_view(dests@)[k]
                    == dests_view(before)[k] by {
                    assert(dests@[k] == before[k]);
                }
            }
        } else {
            proof {
                assert(orig[i as int].hotkey != Some(key@));
            }
        }
        i = i + 1;
    }
    assert(dests_view(dests@) =~= clear_hotkey(orig, key@));
}

/// Bind `key` to `path` in the list (see [`assign_hotkey`]).
fn assign_hotkey_exec(dests: &mut Vec<DestinationDto>, hotkey: char, path: &str, count: usize)
    ensures
        dests_view(final(dests)@) == assign_hotkey(dests_view(old(dests)@), seq![hotkey], path@, count as nat),
{
    let mut key = String::new();
    crate::text::push_char(&mut key, hotkey);
    assert(key@ =~= seq![hotkey]);
    clear_hotkey_exec(dests, key.as_str());
    match find_dest(dests, path) {
        Some(i) => {
            let ghost before = dests@;
            dests[i].hotkey = Some(key);
            proof {
                assert(dests_view(dests@) =~= dests_view(before).update(
                    i as int,
                    DestV { hotkey: Some(seq![hotkey]), ..dests_view(before)[i as int] },
                ));
            }
        },
        None => {
            let label = match file_name(path) {
                Some(n) => n,
                None => owned("(custom)"),
            };
            let d = DestinationDto {
                media_count: count,
                label,
                path: owned(path),
                hotkey: Some(key),
                is_trash: false,
            };
            let ghost before = dests@;
            dests.push(d);
            proof {
                assert(dests_view(dests@) =~= dests_view(before).push(dest_view(d)));
            }
        },
    }
}

/// One more (`up`) or one fewer media file in the destination at `dir`.
fn bump_dest_count(dests: &mut Vec<DestinationDto>, dir: &str, up: bool)
    ensures
        dests_view(final(dests)@) == bump(dests_view(old(dests)@), dir@, up),
{
    match find_dest(dests, dir) {
        Some(i) => {
            let ghost before = dests@;
            let c = dests[i].media_count;
            let n = if up {
                if c < usize::MAX { c + 1 } else { c }
            } else {
                if c > 0 { c - 1 } else { 0 }
            };
            dests[i].media_count = n;
            proof {
                assert(dests_view(dests@) =~= bump(dests_view(before), dir@, up));
            }
        },
        None => {},
    }
}

/// The display name for `dir` (see [`label_for`]).
fn label_for_dir(dests: &Vec<DestinationDto>, dir: &str) -> (r: String)
    ensures
        r@ == label_for(dests_view(dests@), dir@),
{
    match find_dest(dests, dir) {
        Some(i) => dests[i].label.clone(),
        None => match file_name(dir) {
            Some(n) => n,
            None => owned(dir),
        },
    }
}

// ---------------------------------------------------------------------------
// The session
// ---------------------------------------------------------------------------

/// Why a session command refused.
#[derive(Debug, Clone, Copy, PartialEq, Eq, Structural)]
pub enum SessionError {
    /// An engine decision failed.
    Engine(EngineError),
    /// Refusing to delete or rename the output root.
    OutputRoot,
    /// Refusing to delete or rename the `.comfysort` state directory.
    StateDir,
    /// Refusing to delete or rename the trash directory.
    TrashDir,
    /// A folder name is blank or holds a separator.
    InvalidName,
    /// Bind hotkeys must be 1-9, -, or =.
    NotBindable,
    /// A folder of the new name already exists.
    NameTaken,
    /// The folder has no parent.
    NoParent,
}

pub struct Session {
    /// One or more `;`-separated input directories to triage.
    input: String,
    output: String,
    destinations: Vec<DestinationDto>,
    engine: OperationEngine,
    user_bindings: PersistedBindings,
    /// Collision policy for user moves/copies; trash and folder delete always
    /// rename, so they never clobber.
    collision_policy: CollisionPolicy,
    /// Walk inbox subfolders too.
    recursive_inbox: bool,
    /// Folders hidden from the Navigator, the folder search, the sort-target
    /// scan, and recursive media counts.
    ignores: IgnoreSet,
}

/// The abstract value of an outcome: (kind, message, source, resolved,
/// source removed, restored item present, can undo, destinations).
pub open spec fn outcome_ok(
    o: OpOutcome,
    kind: OpKind,
    message: Seq<char>,
    source: Seq<char>,
    resolved: Seq<char>,
    source_removed: bool,
    can_undo: bool,
    ds: Seq<DestV>,
) -> bool {
    &&& o.kind == kind
    &&& o.message@ == message
    &&& o.source_path@ == source
    &&& o.resolved_path@ == resolved
    &&& o.source_removed == source_removed
    &&& o.can_undo == can_undo
    &&& dests_view(o.destinations@) == ds
}

impl Session {
    pub closed spec fn dests(&self) -> Seq<DestV> {
        dests_view(self.destinations@)
    }

    pub closed spec fn output_root(&self) -> Seq<char> {
        self.output@
    }

    pub closed spec fn input_list(&self) -> Seq<char> {
        self.input@
    }

    pub closed spec fn history(&self) -> Seq<(OperationKind, Seq<char>, Seq<char>)> {
        self.engine.history()
    }

    pub closed spec fn journal(&self) -> Seq<char> {
        self.engine.journal()
    }

    pub closed spec fn bindings(&self) -> Seq<(Seq<char>, Seq<char>)> {
        self.user_bindings.hotkeys.view_entries()
    }

    pub closed spec fn bindings_version(&self) -> u32 {
        self.user_bindings.version
    }

    pub closed spec fn policy(&self) -> CollisionPolicy {
        self.collision_policy
    }

    pub closed spec fn recursive(&self) -> bool {
        self.recursive_inbox
    }

    pub closed spec fn ignore_set(&self) -> IgnoreSet {
        self.ignores
    }

    /// Everything but the destination list, the history and the bindings is
    /// unchanged from `other`.
    pub open spec fn same_settings(&self, other: &Session) -> bool {
        &&& self.output_root() == other.output_root()
        &&& self.input_list() == other.input_list()
        &&& self.journal() == other.journal()
        &&& self.policy() == other.policy()
        &&& self.recursive() == other.recursive()
        &&& self.ignore_set() == other.ignore_set()
    }

    pub fn destinations(&self) -> (r: &Vec<DestinationDto>)
        ensures
            dests_view(r@) == self.dests(),
    {
        &self.destinations
    }

    pub fn output(&self) -> (r: &String)
        ensures
            r@ == self.output_root(),
    {
        &self.output
    }

    pub fn input(&self) -> (r: &String)
        ensures
            r@ == self.input_list(),
    {
        &self.input
    }

    pub fn ignores(&self) -> (r: &IgnoreSet)
        ensures
            *r == self.ignore_set(),
    {
        &self.ignores
    }

    pub fn engine(&self) -> (r: &OperationEngine)
        ensures
            r.history() == self.history(),
            r.journal() == self.journal(),
    {
        &self.engine
    }

    pub fn user_bindings(&self) -> (r: &PersistedBindings)
        ensures
            r.hotkeys.view_entries() == self.bindings(),
            r.version == self.bindings_version(),
    {
        &self.user_bindings
    }

    pub fn collision_policy(&self) -> (r: CollisionPolicy)
        ensures
            r == self.policy(),
    {
        self.collision_policy
    }

    pub fn recursive_inbox(&self) -> (r: bool)
        ensures
            r == self.recursive(),
    {
        self.recursive_inbox
    }

    /// Open a session against the given roots. The caller has scanned the
    /// inbox (`inbox`) and the output root (`scanned`, under the rules of
    /// `ignored`), loaded the persisted bindings, and counted the media in
    /// each resolved bound folder (`bound_counts`, in the order of
    /// `bindings.resolved(output)`) and in the archive folder. Persisted
    /// hotkeys are applied on top of the scanned list: a bound listed folder
    /// gets its hotkey, a bound folder not in the list is appended. The `=`
    /// slot defaults to the managed archive unless `=` is bound.
    pub fn open(
        input: String,
        output: String,
        recursive: bool,
        ignored: &[String],
        inbox: Vec<MediaItemDto>,
        scanned: Vec<DestinationDto>,
        bindings: PersistedBindings,
        bound_counts: &Vec<usize>,
        archive_count: usize,
    ) -> (r: (Session, SessionView))
        requires
            bound_counts.len() == resolved_entries(bindings.hotkeys.view_entries(), output@).len(),
        ensures
            r.0.dests() == with_archive(
                apply_bindings(
                    dests_view(scanned@),
                    resolved_entries(bindings.hotkeys.view_entries(), output@),
                    bound_counts@,
                ),
                output@,
                archive_count,
            ),
            r.0.output_root() == output@,
            r.0.input_list() == input@,
            r.0.history() == Seq::<(OperationKind, Seq<char>, Seq<char>)>::empty(),
            r.0.journal() == spec_join(spec_join(output@, STATE_DIR@), "journal.jsonl"@),
            r.0.bindings() == bindings.hotkeys.view_entries(),
            r.0.bindings_version() == bindings.version,
            r.0.policy() == CollisionPolicy::Rename,
            r.0.recursive() == recursive,
            r.0.ignore_set().wf(),
            r.0.ignore_set().path_rules().to_set() == path_rule_set(strings_view(ignored@)),
            r.0.ignore_set().name_rules().to_set() == name_rule_set(strings_view(ignored@)),
            r.1.input@ == input@,
            r.1.output@ == output@,
            r.1.inbox@ == inbox@,
            dests_view(r.1.destinations@) == r.0.dests(),
    {
        let ignores = IgnoreSet::new(ignored);
        let engine = OperationEngine::new(journal_path(output.as_str()));
        let mut destinations = scanned;
        let resolved = bindings.resolved(output.as_str());
        let ghost sv = dests_view(destinations@);
        let ghost rs = resolved_entries(bindings.hotkeys.view_entries(), output@);
        let mut i: usize = 0;
        while i < resolved.len()
            invariant
                resolved@.map_values(|p: (char, String)| (p.0, p.1@)) == rs,
                bound_counts.len() == rs.len(),
                i <= resolved.len(),
                dests_view(destinations@) == apply_bindings(sv, rs.take(i as int), bound_counts@.take(i as int)),
            decreases resolved.len() - i,
        {
            let (hotkey, ref abs_path) = resolved[i];
            proof {
                assert(rs.take(i + 1).drop_last() =~= rs.take(i as int));
                assert(bound_counts@.take(i + 1).drop_last() =~= bound_counts@.take(i as int));
                assert(rs.take(i + 1).last() == rs[i as int]);
                assert(rs[i as int] == (hotkey, abs_path@));
            }
            if is_bindable_hotkey(hotkey) {
                assign_hotkey_exec(&mut destinations, hotkey, abs_path.as_str(), bound_counts[i]);
            }
            i = i + 1;
        }
        proof {
            assert(rs.take(i as int) =~= rs);
            assert(bound_counts@.take(i as int) =~= bound_counts@);
        }
        if find_dest_hotkey(&destinations, "=").is_none() {
            proof {
                lemma_find_hotkey(dests_view(destinations@), "="@, 0);
                assert(!has_hotkey(dests_view(destinations@), "="@));
            }
            let archive = archive_dir(output.as_str());
            let d = DestinationDto {
                media_count: archive_count,
                label: owned("archive"),
                path: archive,
                hotkey: Some(owned("=")),
                is_trash: false,
            };
            let ghost before = destinations@;
            destinations.push(d);
            proof {
                assert(dests_view(destinations@) =~= dests_view(before).push(dest_view(d)));
            }
        } else {
            proof {
                lemma_find_hotkey(dests_view(destinations@), "="@, 0);
            }
        }
        let view = SessionView {
            input: input.clone(),
            output: output.clone(),
            inbox,
            destinations: clone_dests(&destinations),
        };
        let session = Session {
            input,
            output,
            destinations,
            engine,
            user_bindings: bindings,
            collision_policy: CollisionPolicy::Rename,
            recursive_inbox: recursive,
            ignores,
        };
        (session, view)
    }

    /// Set the collision policy used by subsequent user moves/copies.
    pub fn set_collision_policy(&mut self, p: CollisionPolicy)
        ensures
            final(self).policy() == p,
            final(self).dests() == old(self).dests(),
            final(self).history() == old(self).history(),
            final(self).bindings() == old(self).bindings(),
            final(self).output_root() == old(self).output_root(),
            final(self).input_list() == old(self).input_list(),
            final(self).journal() == old(self).journal(),
            final(self).recursive() == old(self).recursive(),
            final(self).ignore_set() == old(self).ignore_set(),
    {
        self.collision_policy = p;
    }

    /// Toggle the recursive inbox walk for subsequent rescans.
    pub fn set_recursive_inbox(&mut self, recursive: bool)
        ensures
            final(self).recursive() == recursive,
            final(self).dests() == old(self).dests(),
            final(self).history() == old(self).history(),
            final(self).bindings() == old(self).bindings(),
            final(self).output_root() == old(self).output_root(),
            final(self).input_list() == old(self).input_list(),
            final(self).journal() == old(self).journal(),
            final(self).policy() == old(self).policy(),
            final(self).ignore_set() == old(self).ignore_set(),
    {
        self.recursive_inbox = recursive;
    }

    /// The destination directory bound to a hotkey, if any.
    pub fn dest_dir_for_hotkey(&self, hotkey: &str) -> (r: Option<String>)
        ensures
            match find_hotkey(self.dests(), hotkey@, 0) {
                Some(i) => r matches Some(p) && p@ == self.dests()[i].path,
                None => r is None,
            },
    {
        match find_dest_hotkey(&self.destinations, hotkey) {
            Some(i) => Some(self.destinations[i].path.clone()),
            None => None,
        }
    }

    /// Clamp a requested Navigator path into the output-root subtree:
    /// anything outside falls back to the output root itself.
    pub fn clamp_to_output(&self, dir: &str) -> (r: String)
        ensures
            r@ == (if spec_path_eq(dir@, self.output_root()) || spec_starts_with(dir@, self.output_root()) {
                dir@
            } else {
                self.output_root()
            }),
    {
        if path_eq(dir, self.output.as_str()) || starts_with(dir, self.output.as_str()) {
            owned(dir)
        } else {
            self.output.clone()
        }
    }

    fn outcome(
        &self,
        kind: OpKind,
        message: String,
        source: &str,
        resolved: &str,
        source_removed: bool,
        restored_item: Option<MediaItemDto>,
    ) -> (r: OpOutcome)
        ensures
            outcome_ok(
                r,
                kind,
                message@,
                source@,
                resolved@,
                source_removed,
                self.history().len() > 0,
                self.dests(),
            ),
            r.restored_item == restored_item,
    {
        OpOutcome {
            message,
            kind,
            source_path: owned(source),
            resolved_path: owned(resolved),
            source_removed,
            restored_item,
            can_undo: self.engine.can_undo(),
            destinations: clone_dests(&self.destinations),
        }
    }

    /// Where moving or copying `source` into `dest_dir` lands, under the
    /// session's collision policy.
    pub fn plan_transfer<F: Fn(&str) -> bool>(&self, source: &str, dest_dir: &str, is_taken: &F) -> (r: Result<
        String,
        EngineError,
    >)
        requires
            forall|x: &str| is_taken.requires((x,)),
        ensures
            spec_file_name(source@) is None ==> r == Err::<String, EngineError>(EngineError::NoFileName),
            spec_file_name(source@) is Some ==> collision_outcome(
                r,
                requested_target(source@, dest_dir@),
                self.policy(),
                *is_taken,
            ),
    {
        OperationEngine::plan(source, dest_dir, self.collision_policy, is_taken)
    }

    /// Where trashing `source` lands: in `<output>/.comfysort/.trash`, always
    /// renamed on collision, never clobbering.
    pub fn plan_trash<F: Fn(&str) -> bool>(&self, source: &str, is_taken: &F) -> (r: Result<String, EngineError>)
        requires
            forall|x: &str| is_taken.requires((x,)),
        ensures
            spec_file_name(source@) is None ==> r == Err::<String, EngineError>(EngineError::NoFileName),
            spec_file_name(source@) is Some ==> collision_outcome(
                r,
                requested_target(source@, spec_join(spec_join(self.output_root(), STATE_DIR@), ".trash"@)),
                CollisionPolicy::Rename,
                *is_taken,
            ),
    {
        let dir = trash_dir(self.output.as_str());
        OperationEngine::plan(source, dir.as_str(), CollisionPolicy::Rename, is_taken)
    }

    /// Record a move of `source` into `dest_dir` that the caller carried out
    /// (it landed at `resolved`): the move becomes undoable and only that
    /// destination's count goes up.
    pub fn move_item(&mut self, source: &str, dest_dir: &str, resolved: &str) -> (r: OpOutcome)
        ensures
            final(self).same_settings(old(self)),
            final(self).bindings() == old(self).bindings(),
            final(self).history() == old(self).history().push((OperationKind::Move, source@, resolved@)),
            final(self).dests() == bump(old(self).dests(), dest_dir@, true),
            outcome_ok(
                r,
                OpKind::Move,
                "Moved to "@ + label_for(old(self).dests(), dest_dir@),
                source@,
                resolved@,
                true,
                true,
                final(self).dests(),
            ),
            r.restored_item is None,
    {
        self.engine.record_completed(OperationKind::Move, source, resolved);
        bump_dest_count(&mut self.destinations, dest_dir, true);
        let ghost bumped = self.dests();
        let mut message = owned("Moved to ");
        let label = label_for_dir(&self.destinations, dest_dir);
        proof {
            lemma_label_after_bump(old(self).dests(), dest_dir@, dest_dir@, true);
        }
        push_str(&mut message, label.as_str());
        self.outcome(OpKind::Move, message, source, resolved, true, None)
    }

    /// Record a copy of `source` into `dest_dir` that the caller carried out
    /// (the duplicate is at `resolved`).
    pub fn copy_item(&mut self, source: &str, dest_dir: &str, resolved: &str) -> (r: OpOutcome)
        ensures
            final(self).same_settings(old(self)),
            final(self).bindings() == old(self).bindings(),
            final(self).history() == old(self).history().push((OperationKind::Copy, source@, resolved@)),
            final(self).dests() == bump(old(self).dests(), dest_dir@, true),
            outcome_ok(
                r,
                OpKind::Copy,
                "Copied to "@ + label_for(old(self).dests(), dest_dir@),
                source@,
                resolved@,
                false,
                true,
                final(self).dests(),
            ),
            r.restored_item is None,
    {
        self.engine.record_completed(OperationKind::Copy, source, resolved);
        bump_dest_count(&mut self.destinations, dest_dir, true);
        let mut message = owned("Copied to ");
        let label = label_for_dir(&self.destinations, dest_dir);
        proof {
            lemma_label_after_bump(old(self).dests(), dest_dir@, dest_dir@, true);
        }
        push_str(&mut message, label.as_str());
        self.outcome(OpKind::Copy, message, source, resolved, false, None)
    }

    /// Record a trash of `source` that the caller carried out (it landed at
    /// `resolved` in the trash dir). A trash is a move, undone the same way.
    pub fn trash_item(&mut self, source: &str, resolved: &str) -> (r: OpOutcome)
        ensures
            final(self).same_settings(old(self)),
            final(self).bindings() == old(self).bindings(),
            final(self).history() == old(self).history().push((OperationKind::Move, source@, resolved@)),
            final(self).dests() == bump(
                old(self).dests(),
                spec_join(spec_join(old(self).output_root(), STATE_DIR@), ".trash"@),
                true,
            ),
            outcome_ok(r, OpKind::Trash, "Moved to trash"@, source@, resolved@, true, true, final(self).dests()),
            r.restored_item is None,
    {
        let dir = trash_dir(self.output.as_str());
        self.engine.record_completed(OperationKind::Move, source, resolved);
        bump_dest_count(&mut self.destinations, dir.as_str(), true);
        self.outcome(OpKind::Trash, owned("Moved to trash"), source, resolved, true, None)
    }
}

impl Session {
    /// Take the most recent operation off the undo stack and decide whether
    /// it can be reversed (see `OperationEngine::undo_last`). The caller then
    /// reverses it on disk and reports back with [`Session::undone`].
    pub fn undo<F: Fn(&str) -> bool>(&mut self, is_taken: &F) -> (r: Result<CompletedOp, EngineError>)
        requires
            forall|x: &str| is_taken.requires((x,)),
        ensures
            final(self).same_settings(old(self)),
            final(self).dests() == old(self).dests(),
            final(self).bindings() == old(self).bindings(),
            old(self).history().len() == 0 ==> r == Err::<CompletedOp, EngineError>(EngineError::NothingToUndo)
                && final(self).history() == old(self).history(),
            old(self).history().len() > 0 ==> final(self).history() == old(self).history().drop_last() && undo_outcome(
                r,
                old(self).history().last(),
                *is_taken,
            ),
    {
        self.engine.undo_last(is_taken)
    }

    /// Report an undone operation: a reversed move/trash restored a file to
    /// the inbox (its destination loses one; `restored` is the re-listed
    /// item), a reversed copy removed the duplicate (its folder loses one), a
    /// reversed folder delete restored the folder.
    pub fn undone(&mut self, op: &CompletedOp, restored: Option<MediaItemDto>) -> (r: Result<OpOutcome, EngineError>)
        ensures
            final(self).same_settings(old(self)),
            final(self).history() == old(self).history(),
            final(self).bindings() == old(self).bindings(),
            op.kind == OperationKind::Move ==> ({
                &&& final(self).dests() == bump_parent(old(self).dests(), op.resolved_path@, false)
                &&& r matches Ok(o)
                &&& outcome_ok(
                    o,
                    OpKind::Undo,
                    "Undo: restored to inbox"@,
                    op.resolved_path@,
                    op.source_path@,
                    false,
                    old(self).history().len() > 0,
                    final(self).dests(),
                )
                &&& o.restored_item == restored
            }),
            op.kind == OperationKind::Copy ==> ({
                &&& final(self).dests() == bump_parent(old(self).dests(), op.resolved_path@, false)
                &&& r matches Ok(o)
                &&& outcome_ok(
                    o,
                    OpKind::Undo,
                    "Undo: removed duplicate"@,
                    op.resolved_path@,
                    op.resolved_path@,
                    false,
                    old(self).history().len() > 0,
                    final(self).dests(),
                )
                &&& o.restored_item is None
            }),
            op.kind == OperationKind::DeleteFolder ==> ({
                &&& final(self).dests() == old(self).dests()
                &&& r matches Ok(o)
                &&& outcome_ok(
                    o,
                    OpKind::Undo,
                    "Undo: restored folder"@,
                    op.resolved_path@,
                    op.source_path@,
                    false,
                    old(self).history().len() > 0,
                    final(self).dests(),
                )
                &&& o.restored_item is None
            }),
            op.kind != OperationKind::Move && op.kind != OperationKind::Copy && op.kind != OperationKind::DeleteFolder
                ==> final(self).dests() == old(self).dests() && r == Err::<OpOutcome, EngineError>(EngineError::NotUndoable),
    {
        match op.kind {
            OperationKind::Move => {
                match parent(op.resolved_path.as_str()) {
                    Some(left) => bump_dest_count(&mut self.destinations, left.as_str(), false),
                    None => {},
                }
                Ok(
                    self.outcome(
                        OpKind::Undo,
                        owned("Undo: restored to inbox"),
                        op.resolved_path.as_str(),
                        op.source_path.as_str(),
                        false,
                        restored,
                    ),
                )
            },
            OperationKind::Copy => {
                match parent(op.resolved_path.as_str()) {
                    Some(left) => bump_dest_count(&mut self.destinations, left.as_str(), false),
                    None => {},
                }
                Ok(
                    self.outcome(
                        OpKind::Undo,
                        owned("Undo: removed duplicate"),
                        op.resolved_path.as_str(),
                        op.resolved_path.as_str(),
                        false,
                        None,
                    ),
                )
            },
            OperationKind::DeleteFolder => Ok(
                self.outcome(
                    OpKind::Undo,
                    owned("Undo: restored folder"),
                    op.resolved_path.as_str(),
                    op.source_path.as_str(),
                    false,
                    None,
                ),
            ),
            _ => Err(EngineError::NotUndoable),
        }
    }

    /// Take one specific past operation (the most recent one recorded for
    /// `source` and `resolved`) off the stack for a per-file revert (see
    /// `OperationEngine::revert_specific`). The caller reverses it on disk and
    /// reports back with [`Session::reverted`].
    pub fn revert_op<F: Fn(&str) -> bool>(&mut self, source: &str, resolved: &str, is_taken: &F) -> (r: Result<
        CompletedOp,
        EngineError,
    >)
        requires
            forall|x: &str| is_taken.requires((x,)),
        ensures
            final(self).same_settings(old(self)),
            final(self).dests() == old(self).dests(),
            final(self).bindings() == old(self).bindings(),
            r == Err::<CompletedOp, EngineError>(EngineError::NotFound) <==> !(exists|k: int|
                0 <= k < old(self).history().len() && #[trigger] matches_paths(old(self).history()[k], source@, resolved@)),
            r == Err::<CompletedOp, EngineError>(EngineError::NotFound) ==> final(self).history() == old(self).history(),
            r != Err::<CompletedOp, EngineError>(EngineError::NotFound) ==> exists|k: int|
                0 <= k < old(self).history().len() && #[trigger] matches_paths(old(self).history()[k], source@, resolved@)
                    && (forall|l: int| k < l < old(self).history().len() ==> !#[trigger] matches_paths(old(self).history()[l], source@, resolved@))
                    && final(self).history() == old(self).history().remove(k) && undo_outcome(
                    r,
                    old(self).history()[k],
                    *is_taken,
                ),
    {
        let r = self.engine.revert_specific(source, resolved, is_taken);
        proof {
            assert(old(self).history() == old(self).engine.history());
            assert(self.history() == self.engine.history());
        }
        r
    }

    /// Report a reverted operation: the folder the file left loses one; a
    /// reverted copy removed the duplicate, anything else restored the file
    /// to the inbox (`restored` is the re-listed item).
    pub fn reverted(&mut self, source: &str, resolved: &str, kind: OperationKind, restored: Option<MediaItemDto>) -> (r:
        OpOutcome)
        ensures
            final(self).same_settings(old(self)),
            final(self).history() == old(self).history(),
            final(self).bindings() == old(self).bindings(),
            final(self).dests() == bump_parent(old(self).dests(), resolved@, false),
            kind == OperationKind::Copy ==> outcome_ok(
                r,
                OpKind::Undo,
                "Reverted — removed copy"@,
                resolved@,
                resolved@,
                false,
                old(self).history().len() > 0,
                final(self).dests(),
            ) && r.restored_item is None,
            kind != OperationKind::Copy ==> outcome_ok(
                r,
                OpKind::Undo,
                "Reverted — restored to inbox"@,
                resolved@,
                source@,
                false,
                old(self).history().len() > 0,
                final(self).dests(),
            ) && r.restored_item == restored,
    {
        match parent(resolved) {
            Some(left) => bump_dest_count(&mut self.destinations, left.as_str(), false),
            None => {},
        }
        match kind {
            OperationKind::Copy => self.outcome(OpKind::Undo, owned("Reverted — removed copy"), resolved, resolved, false, None),
            _ => self.outcome(OpKind::Undo, owned("Reverted — restored to inbox"), resolved, source, false, restored),
        }
    }

    /// Refuse to touch the output root, the state dir (or anything under it)
    /// or the trash dir.
    fn guard(&self, path: &str) -> (r: Option<SessionError>)
        ensures
            r == guard_outcome(path@, self.output_root()),
    {
        let state = join(self.output.as_str(), STATE_DIR);
        let trash = trash_dir(self.output.as_str());
        if path_eq(path, self.output.as_str()) {
            Some(SessionError::OutputRoot)
        } else if path_eq(path, state.as_str()) || starts_with(path, state.as_str()) {
            Some(SessionError::StateDir)
        } else if path_eq(path, trash.as_str()) {
            Some(SessionError::TrashDir)
        } else {
            None
        }
    }

    /// Where deleting the folder at `path` moves it: into the trash (renamed
    /// on collision), unless it is the output root, the state dir or the
    /// trash dir. The caller renames it there and reports back with
    /// [`Session::folder_deleted`].
    pub fn delete_folder<F: Fn(&str) -> bool>(&self, path: &str, is_taken: &F) -> (r: Result<String, SessionError>)
        requires
            forall|x: &str| is_taken.requires((x,)),
        ensures
            guard_outcome(path@, self.output_root()) matches Some(e) ==> r == Err::<String, SessionError>(e),
            guard_outcome(path@, self.output_root()) is None && spec_file_name(path@) is None ==> r == Err::<
                String,
                SessionError,
            >(SessionError::Engine(EngineError::NoFileName)),
            guard_outcome(path@, self.output_root()) is None && spec_file_name(path@) is Some ==> collision_outcome(
                match r {
                    Ok(p) => Ok(p),
                    Err(SessionError::Engine(e)) => Err(e),
                    Err(_) => Err(EngineError::NotFound),
                },
                requested_target(path@, spec_join(spec_join(self.output_root(), STATE_DIR@), ".trash"@)),
                CollisionPolicy::Rename,
                *is_taken,
            ) && (r matches Err(e) ==> e is Engine),
    {
        match self.guard(path) {
            Some(e) => {
                return Err(e);
            },
            None => {},
        }
        let trash = trash_dir(self.output.as_str());
        match OperationEngine::plan(path, trash.as_str(), CollisionPolicy::Rename, is_taken) {
            Ok(p) => Ok(p),
            Err(e) => Err(SessionError::Engine(e)),
        }
    }

    /// Record a folder delete the caller carried out (the folder now sits at
    /// `resolved` in the trash): it becomes undoable, and bindings pointing at
    /// the folder or under it are pruned so no hotkey dangles.
    pub fn folder_deleted(&mut self, path: &str, resolved: &str) -> (r: OpOutcome)
        ensures
            final(self).same_settings(old(self)),
            final(self).dests() == old(self).dests(),
            final(self).history() == old(self).history().push((OperationKind::DeleteFolder, path@, resolved@)),
            final(self).bindings_version() == old(self).bindings_version(),
            final(self).bindings() == kept_entries(
                old(self).bindings(),
                old(self).bindings().map_values(
                    |e: (Seq<char>, Seq<char>)| !binding_under(e, path@, old(self).output_root()),
                ),
            ),
            outcome_ok(
                r,
                OpKind::Trash,
                "Deleted "@ + (match spec_file_name(path@) {
                    Some(n) => n,
                    None => path@,
                }) + " to trash"@,
                path@,
                resolved@,
                false,
                true,
                final(self).dests(),
            ),
            r.restored_item is None,
    {
        let name = match file_name(path) {
            Some(n) => n,
            None => owned(path),
        };
        self.engine.record_completed(OperationKind::DeleteFolder, path, resolved);
        self.user_bindings.remove_under(path, self.output.as_str());
        let mut message = owned("Deleted ");
        push_str(&mut message, name.as_str());
        push_str(&mut message, " to trash");
        self.outcome(OpKind::Trash, message, path, resolved, false, None)
    }

    /// Replace the ignore rules on the live session and carry the previous
    /// destinations over the caller's re-scan under the new rules (`scanned`;
    /// `None` when the output root could not be read, in which case the list
    /// is kept as it was). Returns the resulting list.
    pub fn set_ignored_folders(&mut self, entries: &[String], scanned: Option<Vec<DestinationDto>>) -> (r: Vec<
        DestinationDto,
    >)
        ensures
            final(self).ignore_set().wf(),
            final(self).ignore_set().path_rules().to_set() == path_rule_set(strings_view(entries@)),
            final(self).ignore_set().name_rules().to_set() == name_rule_set(strings_view(entries@)),
            final(self).output_root() == old(self).output_root(),
            final(self).input_list() == old(self).input_list(),
            final(self).journal() == old(self).journal(),
            final(self).policy() == old(self).policy(),
            final(self).recursive() == old(self).recursive(),
            final(self).history() == old(self).history(),
            final(self).bindings() == old(self).bindings(),
            final(self).dests() == (match scanned {
                Some(sc) => merge_previous(dests_view(sc@), old(self).dests()),
                None => old(self).dests(),
            }),
            dests_view(r@) == final(self).dests(),
    {
        self.ignores = IgnoreSet::new(entries);
        match scanned {
            None => clone_dests(&self.destinations),
            Some(sc) => {
                let mut merged = sc;
                let ghost prev = self.dests();
                let ghost sv = dests_view(merged@);
                let mut i: usize = 0;
                while i < self.destinations.len()
                    invariant
                        prev == dests_view(self.destinations@),
                        i <= self.destinations.len(),
                        dests_view(merged@) == merge_previous(sv, prev.take(i as int)),
                    decreases self.destinations.len() - i,
                {
                    let old_d = &self.destinations[i];
                    proof {
                        assert(prev.take(i + 1).drop_last() =~= prev.take(i as int));
                        assert(prev.take(i + 1).last() == dest_view(*old_d));
                    }
                    match find_dest(&merged, old_d.path.as_str()) {
                        Some(k) => {
                            if old_d.hotkey.is_some() {
                                let ghost before = merged@;
                                merged[k].hotkey = clone_opt(&old_d.hotkey);
                                proof {
                                    assert(dests_view(merged@) =~= dests_view(before).update(
                                        k as int,
                                        DestV { hotkey: opt_str_view(old_d.hotkey), ..dests_view(before)[k as int] },
                                    ));
                                }
                            }
                        },
                        None => {
                            if old_d.hotkey.is_some() && !old_d.is_trash {
                                let c = old_d.clone();
                                let ghost before = merged@;
                                merged.push(c);
                                proof {
                                    assert(dests_view(merged@) =~= dests_view(before).push(dest_view(c)));
                                }
                            }
                        },
                    }
                    i = i + 1;
                }
                proof {
                    assert(prev.take(i as int) =~= prev);
                }
                self.destinations = merged;
                clone_dests(&self.destinations)
            },
        }
    }

    /// Bind a folder under the output subtree to a hotkey (`1..=9`, `-`,
    /// `=`): `path` is clamped to the output tree, then bound as by
    /// [`Session::bind_path`]. `count` is the media count of the clamped
    /// folder, used if it joins the list.
    pub fn bind_folder(&mut self, path: &str, hotkey: char, count: usize) -> (r: Result<(), SessionError>)
        ensures
            final(self).same_settings(old(self)),
            final(self).history() == old(self).history(),
            final(self).bindings_version() == old(self).bindings_version(),
            ({
                let p = if spec_path_eq(path@, old(self).output_root()) || spec_starts_with(path@, old(self).output_root()) {
                    path@
                } else {
                    old(self).output_root()
                };
                bind_outcome(r, old(self), final(self), hotkey, p, count)
            }),
    {
        let clamped = self.clamp_to_output(path);
        self.bind_resolved(clamped.as_str(), hotkey, count)
    }

    /// Bind an absolute path that may live outside the output root (the
    /// Settings sort-target editor) to a hotkey. `count` is the folder's
    /// media count, used if it joins the list.
    pub fn bind_path(&mut self, path: &str, hotkey: char, count: usize) -> (r: Result<(), SessionError>)
        ensures
            final(self).same_settings(old(self)),
            final(self).history() == old(self).history(),
            final(self).bindings_version() == old(self).bindings_version(),
            bind_outcome(r, old(self), final(self), hotkey, path@, count),
    {
        self.bind_resolved(path, hotkey, count)
    }

    fn bind_resolved(&mut self, path: &str, hotkey: char, count: usize) -> (r: Result<(), SessionError>)
        ensures
            final(self).same_settings(old(self)),
            final(self).history() == old(self).history(),
            final(self).bindings_version() == old(self).bindings_version(),
            bind_outcome(r, old(self), final(self), hotkey, path@, count),
    {
        if !is_bindable_hotkey(hotkey) {
            return Err(SessionError::NotBindable);
        }
        assign_hotkey_exec(&mut self.destinations, hotkey, path, count);
        self.user_bindings.set(hotkey, path, self.output.as_str());
        Ok(())
    }

    /// Replace every destination's media count by a fresh count (`counts`,
    /// in list order) and return the list.
    pub fn refresh_counts(&mut self, counts: &Vec<usize>) -> (r: Vec<DestinationDto>)
        requires
            counts.len() == old(self).dests().len(),
        ensures
            final(self).same_settings(old(self)),
            final(self).history() == old(self).history(),
            final(self).bindings() == old(self).bindings(),
            final(self).dests() == recounted(old(self).dests(), counts@),
            dests_view(r@) == final(self).dests(),
    {
        let ghost orig = self.dests();
        let mut i: usize = 0;
        while i < self.destinations.len()
            invariant
                counts.len() == orig.len(),
                self.destinations.len() == orig.len(),
                i <= orig.len(),
                forall|k: int| 0 <= k < i ==> #[trigger] self.dests()[k] == (DestV { media_count: counts@[k] as nat, ..orig[k] }),
                forall|k: int| i <= k < orig.len() ==> #[trigger] self.dests()[k] == orig[k],
                self.same_settings(old(self)),
                self.history() == old(self).history(),
                self.bindings() == old(self).bindings(),
            decreases orig.len() - i,
        {
            let ghost before = self.destinations@;
            let ghost bd = self.dests();
            self.destinations[i].media_count = counts[i];
            proof {
                assert forall|k: int| 0 <= k < self.destinations.len() && k != i implies #[trigger] self.dests()[k]
                    == bd[k] by {
                    assert(self.destinations@[k] == before[k]);
                }
                assert(self.destinations@[i as int].path == before[i as int].path);
                assert(self.destinations@[i as int].label == before[i as int].label);
                assert(self.destinations@[i as int].hotkey == before[i as int].hotkey);
                assert(self.destinations@[i as int].is_trash == before[i as int].is_trash);
                assert(bd[i as int] == orig[i as int]);
                assert(self.dests()[i as int] == (DestV { media_count: counts@[i as int] as nat, ..orig[i as int] }));
            }
            i = i + 1;
        }
        assert(self.dests().len() == orig.len());
        assert forall|k: int| 0 <= k < orig.len() implies #[trigger] self.dests()[k] == recounted(orig, counts@)[k] by {}
        assert(self.dests() =~= recounted(orig, counts@));
        clone_dests(&self.destinations)
    }

    /// Clear a hotkey binding, given the listing of the output root (to tell
    /// scanned top-level folders from folders that were only in the list
    /// because of a bind). A scanned folder or the trash just loses the
    /// hotkey; a bind-only folder is dropped. The binding is removed.
    pub fn unbind_hotkey(&mut self, hotkey: char, top_entries: &Vec<DirEntryInfo>)
        ensures
            final(self).same_settings(old(self)),
            final(self).history() == old(self).history(),
            final(self).bindings_version() == old(self).bindings_version(),
            final(self).dests() == unbind(old(self).dests(), seq![hotkey], listed_paths(top_entries@, old(self).ignore_set())),
            unbound(old(self).bindings(), final(self).bindings(), seq![hotkey]),
    {
        let mut key = String::new();
        crate::text::push_char(&mut key, hotkey);
        assert(key@ =~= seq![hotkey]);
        let top = self.scanned_top_level(top_entries);
        let ghost tv = listed_paths(top_entries@, self.ignore_set());
        let mut kept: Vec<DestinationDto> = Vec::new();
        let mut old_list: Vec<DestinationDto> = Vec::new();
        std::mem::swap(&mut old_list, &mut self.destinations);
        let ghost ov = dests_view(old_list@);
        let mut i: usize = 0;
        while i < old_list.len()
            invariant
                ov == dests_view(old_list@),
                key@ == seq![hotkey],
                top@.map_values(|s: String| s@) == tv,
                i <= old_list.len(),
                dests_view(kept@) == unbind(ov.take(i as int), key@, tv),
            decreases old_list.len() - i,
        {
            let d = &old_list[i];
            proof {
                assert(ov.take(i + 1).drop_last() =~= ov.take(i as int));
                assert(ov.take(i + 1).last() == dest_view(*d));
            }
            let holds = match &d.hotkey {
                Some(h) => crate::text::str_eq(h.as_str(), key.as_str()),
                None => false,
            };
            if !holds {
                let c = d.clone();
                let ghost before = kept@;
                kept.push(c);
                proof {
                    assert(dests_view(kept@) =~= dests_view(before).push(dest_view(c)));
                }
            } else {
                let mut is_top = false;
                let mut t: usize = 0;
                while t < top.len() && !is_top
                    invariant
                        top@.map_values(|s: String| s@) == tv,
                        t <= top.len(),
                        is_top ==> exists|k: int| 0 <= k < tv.len() && spec_path_eq(#[trigger] tv[k], d.path@),
                        !is_top ==> forall|k: int| 0 <= k < t ==> !spec_path_eq(#[trigger] tv[k], d.path@),
                    decreases top.len() - t + (if is_top { 0int } else { 1int }),
                {
                    assert(tv[t as int] == top@[t as int]@);
                    if path_eq(top[t].as_str(), d.path.as_str()) {
                        is_top = true;
                    } else {
                        t = t + 1;
                    }
                }
                if d.is_trash || is_top {
                    let mut c = d.clone();
                    c.hotkey = None;
                    let ghost before = kept@;
                    kept.push(c);
                    proof {
                        assert(dests_view(kept@) =~= dests_view(before).push(DestV { hotkey: None, ..dest_view(*d) }));
                    }
                }
            }
            i = i + 1;
        }
        proof {
            assert(ov.take(i as int) =~= ov);
        }
        self.destinations = kept;
        self.user_bindings.remove_hotkey(hotkey);
    }

    /// The listed top-level folders among the output root's entries.
    fn scanned_top_level(&self, entries: &Vec<DirEntryInfo>) -> (r: Vec<String>)
        ensures
            r@.map_values(|s: String| s@) == listed_paths(entries@, self.ignore_set()),
    {
        let mut out: Vec<String> = Vec::new();
        let mut i: usize = 0;
        while i < entries.len()
            invariant
                i <= entries.len(),
                out@.map_values(|s: String| s@) == listed_paths(entries@.take(i as int), self.ignore_set()),
            decreases entries.len() - i,
        {
            let e = &entries[i];
            proof {
                assert(entries@.take(i + 1).drop_last() =~= entries@.take(i as int));
                assert(entries@.take(i + 1).last() == *e);
            }
            if is_listed_folder(&self.ignores, e) {
                let ghost before = out@;
                out.push(e.path.clone());
                proof {
                    assert(out@.map_values(|s: String| s@) =~= before.map_values(|s: String| s@).push(e.path@));
                }
            }
            i = i + 1;
        }
        assert(entries@.take(i as int) =~= entries@);
        out
    }

    /// Record that the trash was emptied (`removed` top-level entries were
    /// deleted): the trash destination's count is reset to zero.
    pub fn trash_emptied(&mut self, removed: usize) -> (r: EmptyTrashResult)
        ensures
            final(self).same_settings(old(self)),
            final(self).history() == old(self).history(),
            final(self).bindings() == old(self).bindings(),
            final(self).dests() == zero_trash(old(self).dests(), 0),
            r.removed == removed,
            dests_view(r.destinations@) == final(self).dests(),
    {
        let ghost orig = self.dests();
        let mut i: usize = 0;
        while i < self.destinations.len()
            invariant
                orig == self.dests(),
                orig == old(self).dests(),
                i <= self.destinations.len(),
                zero_trash(orig, 0) == zero_trash(orig, i as int),
                self.same_settings(old(self)),
                self.history() == old(self).history(),
                self.bindings() == old(self).bindings(),
            decreases self.destinations.len() - i,
        {
            assert(orig[i as int] == dest_view(self.destinations@[i as int]));
            if self.destinations[i].is_trash {
                let ghost before = self.destinations@;
                self.destinations[i].media_count = 0;
                proof {
                    assert(self.dests() =~= orig.update(i as int, DestV { media_count: 0, ..orig[i as int] }));
                }
                return EmptyTrashResult { removed, destinations: clone_dests(&self.destinations) };
            }
            i = i + 1;
        }
        EmptyTrashResult { removed, destinations: clone_dests(&self.destinations) }
    }
}

/// What binding `hotkey` to `p` did: a hotkey outside `1-9 - =` is refused
/// and nothing changes; otherwise the hotkey moves to the destination at `p`
/// (appended, with media count `count`, when not listed) and the binding is
/// stored relative to the output root.
pub open spec fn bind_outcome(
    r: Result<(), SessionError>,
    before: &Session,
    after: &Session,
    hotkey: char,
    p: Seq<char>,
    count: usize,
) -> bool {
    if !is_bindable(hotkey) {
        &&& r == Err::<(), SessionError>(SessionError::NotBindable)
        &&& after.dests() == before.dests()
        &&& after.bindings() == before.bindings()
    } else {
        &&& r == Ok::<(), SessionError>(())
        &&& after.dests() == assign_hotkey(before.dests(), seq![hotkey], p, count as nat)
        &&& bound_to(before.bindings(), after.bindings(), seq![hotkey], stored_of(p, before.output_root()))
    }
}

/// A copy of an optional string.
fn clone_opt(o: &Option<String>) -> (r: Option<String>)
    ensures
        opt_str_view(r) == opt_str_view(*o),
{
    crate::domain::clone_opt_string(o)
}

/// Whether an entry of a folder under the output root is a folder the
/// Navigator lists: a directory, not the state dir, not ignored.
pub fn is_listed_folder(ignores: &IgnoreSet, e: &DirEntryInfo) -> (r: bool)
    ensures
        r == is_listed_dir(*e, *ignores),
{
    if !e.is_dir {
        return false;
    }
    let name = match file_name(e.path.as_str()) {
        Some(n) => n,
        None => String::new(),
    };
    assert(name@ == label_of(e.path@));
    !eq_ignore_ascii_case(name.as_str(), STATE_DIR) && !ignores.is_ignored(e.path.as_str())
}

/// Bumping a count leaves every label where it was.
proof fn lemma_label_after_bump(ds: Seq<DestV>, bumped_dir: Seq<char>, dir: Seq<char>, up: bool)
    ensures
        label_for(bump(ds, bumped_dir, up), dir) == label_for(ds, dir),
{
    let b = bump(ds, bumped_dir, up);
    lemma_find_path(ds, bumped_dir, 0);
    assert forall|k: int| 0 <= k < ds.len() implies #[trigger] ds[k].path == b[k].path by {}
    lemma_find_path_same_paths(ds, b, dir, 0);
    lemma_find_path(ds, dir, 0);
}


// ---------------------------------------------------------------------------
// Navigator: listing, search, create, rename
// ---------------------------------------------------------------------------

/// The abstract value of a Navigator row: (name, path, media count,
/// subfolder count).
pub open spec fn folder_view(f: FolderEntry) -> (Seq<char>, Seq<char>, nat, nat) {
    (f.name@, f.path@, f.media_count as nat, f.subfolder_count as nat)
}

pub open spec fn folders_view(fs: Seq<FolderEntry>) -> Seq<(Seq<char>, Seq<char>, nat, nat)> {
    fs.map_values(|f: FolderEntry| folder_view(f))
}

/// `dir` clamped into the output-root subtree.
pub open spec fn clamped(dir: Seq<char>, output: Seq<char>) -> Seq<char> {
    if spec_path_eq(dir, output) || spec_starts_with(dir, output) {
        dir
    } else {
        output
    }
}

/// The Navigator rows for the entries `es` of a folder, in entry order:
/// listed folders only, each with its counts from `cs` (recursive media
/// count, immediate subfolder count).
pub open spec fn listed_rows(es: Seq<DirEntryInfo>, cs: Seq<(usize, usize)>, ignores: IgnoreSet) -> Seq<
    (Seq<char>, Seq<char>, nat, nat),
>
    decreases es.len(),
{
    if es.len() == 0 || cs.len() != es.len() {
        Seq::empty()
    } else {
        let prev = listed_rows(es.drop_last(), cs.drop_last(), ignores);
        if is_listed_dir(es.last(), ignores) {
            prev.push((label_of(es.last().path@), es.last().path@, cs.last().0 as nat, cs.last().1 as nat))
        } else {
            prev
        }
    }
}

/// Rows order by media count, largest first, then by name.
pub open spec fn row_keys(rows: Seq<(Seq<char>, Seq<char>, nat, nat)>) -> Seq<(int, Seq<char>)> {
    rows.map_values(|r: (Seq<char>, Seq<char>, nat, nat)| (r.2 as int, r.0))
}

/// Search hits order by score, best first, then by folder name.
pub open spec fn hit_keys(hits: Seq<ScoredFolder>) -> Seq<(int, Seq<char>)> {
    hits.map_values(|h: ScoredFolder| (h.score as int, hit_name(h)))
}

/// The name a search hit is shown (and ordered) by: its folder's file name,
/// or its relative path when the path has none.
pub open spec fn hit_name(h: ScoredFolder) -> Seq<char> {
    match spec_file_name(h.path@) {
        Some(n) => n,
        None => h.rel@,
    }
}

/// The most hits a search returns.
pub const MAX_SEARCH_HITS: usize = 50;

/// Where renaming the folder at `path` to `new_name` puts it, or why not.
pub open spec fn rename_target<F: Fn(&str) -> bool>(
    r: Result<String, SessionError>,
    path: Seq<char>,
    new_name: Seq<char>,
    output: Seq<char>,
    is_taken: F,
) -> bool {
    if !valid_folder_name(new_name) {
        r == Err::<String, SessionError>(SessionError::InvalidName)
    } else if guard_outcome(path, output) is Some {
        r == Err::<String, SessionError>(guard_outcome(path, output)->0)
    } else if spec_parent(path) is None {
        r == Err::<String, SessionError>(SessionError::NoParent)
    } else {
        let target = spec_join(spec_parent(path)->0, spec_trim(new_name));
        &&& r matches Ok(t) ==> t@ == target && answered(is_taken, target, false)
        &&& r matches Err(e) ==> e == SessionError::NameTaken && answered(is_taken, target, true)
    }
}

impl Session {
    /// List the immediate child folders of `dir` for the Navigator. `dir` is
    /// clamped to the output-root subtree (see [`Session::clamp_to_output`]);
    /// `entries` are the entries of the clamped folder and `counts[i]` the
    /// (recursive media count, subfolder count) of `entries[i]`. The state
    /// dir and ignored folders are hidden; rows are sorted by media count,
    /// largest first, then by name.
    pub fn list_folders(&self, dir: &str, entries: &Vec<DirEntryInfo>, counts: &Vec<(usize, usize)>) -> (r:
        FolderListing)
        requires
            entries.len() == counts.len(),
        ensures
            r.path@ == clamped(dir@, self.output_root()),
            spec_path_eq(clamped(dir@, self.output_root()), self.output_root()) ==> r.parent is None,
            !spec_path_eq(clamped(dir@, self.output_root()), self.output_root()) ==> ({
                &&& r.parent matches Some(p)
                &&& p@ == (match spec_parent(clamped(dir@, self.output_root())) {
                    Some(q) => q,
                    None => self.output_root(),
                })
            }),
            r.rel@ == (match spec_strip_prefix(clamped(dir@, self.output_root()), self.output_root()) {
                Some(x) => slashify(x),
                None => Seq::<char>::empty(),
            }),
            ranked(
                folders_view(r.folders@),
                listed_rows(entries@, counts@, self.ignore_set()),
                row_keys(listed_rows(entries@, counts@, self.ignore_set())),
            ),
    {
        let dir = self.clamp_to_output(dir);
        let mut rows: Vec<FolderEntry> = Vec::new();
        let mut keys: Vec<RankKey> = Vec::new();
        let mut i: usize = 0;
        while i < entries.len()
            invariant
                entries.len() == counts.len(),
                i <= entries.len(),
                folders_view(rows@) == listed_rows(entries@.take(i as int), counts@.take(i as int), self.ignore_set()),
                keys_view(keys@) == row_keys(folders_view(rows@)),
            decreases entries.len() - i,
        {
            let e = &entries[i];
            proof {
                assert(entries@.take(i + 1).drop_last() =~= entries@.take(i as int));
                assert(counts@.take(i + 1).drop_last() =~= counts@.take(i as int));
                assert(entries@.take(i + 1).last() == *e);
                assert(counts@.take(i + 1).last() == counts@[i as int]);
            }
            if is_listed_folder(&self.ignores, e) {
                let name = match file_name(e.path.as_str()) {
                    Some(n) => n,
                    None => String::new(),
                };
                assert(name@ == label_of(e.path@));
                let (media_count, subfolder_count) = counts[i];
                let row = FolderEntry { name: name.clone(), path: e.path.clone(), media_count, subfolder_count };
                let ghost before = rows@;
                let ghost kbefore = keys@;
                rows.push(row);
                keys.push(RankKey { major: media_count as i128, minor: name });
                proof {
                    assert(folders_view(rows@) =~= folders_view(before).push(folder_view(row)));
                    assert(keys_view(keys@) =~= keys_view(kbefore).push((media_count as int, row.name@)));
                    assert(row_keys(folders_view(rows@)) =~= row_keys(folders_view(before)).push(
                        (media_count as int, row.name@),
                    ));
                }
            }
            i = i + 1;
        }
        proof {
            assert(entries@.take(i as int) =~= entries@);
            assert(counts@.take(i as int) =~= counts@);
        }
        let ghost items = rows@;
        let ghost kv = keys_view(keys@);
        let folders = rank(rows, keys);
        proof {
            lemma_ranked_map(folders@, items, kv, |f: FolderEntry| folder_view(f));
            assert(items.map_values(|f: FolderEntry| folder_view(f)) == folders_view(items));
            assert(folders@.map_values(|f: FolderEntry| folder_view(f)) == folders_view(folders@));
        }
        let parent_dir = if path_eq(dir.as_str(), self.output.as_str()) {
            None
        } else {
            match parent(dir.as_str()) {
                Some(p) => Some(p),
                None => Some(self.output.clone()),
            }
        };
        let rel = match strip_prefix(dir.as_str(), self.output.as_str()) {
            Some(x) => slashify_exec(x.as_str()),
            None => String::new(),
        };
        FolderListing { path: dir, parent: parent_dir, rel, folders }
    }

    /// The folders to show for a search: none for a blank query, else the
    /// search walk's hits (`hits`, one per folder [`walk_entry`] scored under
    /// the output root) ranked by score, best first, then by folder name (as
    /// [`crate::search::folder_entry_for_hit`] shows it), and capped at [`MAX_SEARCH_HITS`].
    pub fn search_folders(&self, query: &str, hits: Vec<ScoredFolder>) -> (r: Vec<ScoredFolder>)
        ensures
            spec_trim(query@).len() == 0 ==> r@.len() == 0,
            spec_trim(query@).len() > 0 ==> exists|all: Seq<ScoredFolder>|
                #[trigger] ranked(all, hits@, hit_keys(hits@)) && r@ == all.take(
                    if all.len() < 50 {
                        all.len() as int
                    } else {
                        50
                    },
                ),
    {
        let trimmed = trim(query);
        if crate::text::chars_of(trimmed.as_str()).len() == 0 {
            return Vec::new();
        }
        let mut keys: Vec<RankKey> = Vec::new();
        let mut i: usize = 0;
        while i < hits.len()
            invariant
                i <= hits.len(),
                keys_view(keys@) == hit_keys(hits@).take(i as int),
            decreases hits.len() - i,
        {
            let h = &hits[i];
            let name = match file_name(h.path.as_str()) {
                Some(n) => n,
                None => h.rel.clone(),
            };
            let ghost prev = keys@;
            keys.push(RankKey { major: h.score as i128, minor: name });
            proof {
                assert(keys_view(keys@) =~= keys_view(prev).push((h.score as int, hit_name(*h))));
                assert(keys_view(keys@) =~= hit_keys(hits@).take(i + 1));
            }
            i = i + 1;
        }
        assert(hit_keys(hits@).take(i as int) =~= hit_keys(hits@));
        let ghost items = hits@;
        let mut ranked_hits = rank(hits, keys);
        let ghost all = ranked_hits@;
        ranked_hits.truncate(MAX_SEARCH_HITS);
        proof {
            assert(ranked(all, items, hit_keys(items)));
            assert(ranked_hits@ =~= all.take(if all.len() < 50 { all.len() as int } else { 50 }));
        }
        ranked_hits
    }

    /// The destination row for a new folder `name` under `parent` (the name
    /// is trimmed; a blank name or one holding a separator is refused). The
    /// caller creates the folder. The destination list is not touched: a new
    /// folder is not a sort target until it is bound.
    pub fn create_folder(&self, parent: &str, name: &str) -> (r: Result<DestinationDto, SessionError>)
        ensures
            !valid_folder_name(name@) ==> r == Err::<DestinationDto, SessionError>(SessionError::InvalidName),
            valid_folder_name(name@) ==> ({
                &&& r matches Ok(d)
                &&& dest_view(d) == (DestV {
                    label: spec_trim(name@),
                    path: spec_join(parent@, spec_trim(name@)),
                    hotkey: None,
                    is_trash: false,
                    media_count: 0,
                })
            }),
    {
        let clean = trim(name);
        if crate::text::chars_of(clean.as_str()).len() == 0 || contains_char(clean.as_str(), '/') || contains_char(
            clean.as_str(),
            '\\',
        ) {
            return Err(SessionError::InvalidName);
        }
        let path = join(parent, clean.as_str());
        Ok(DestinationDto { label: clean, path, hotkey: None, is_trash: false, media_count: 0 })
    }

    /// Where renaming the folder at `path` to `new_name` (trimmed) puts it:
    /// beside it under the new name. Refused for an invalid name, for the
    /// output root, the state dir and the trash dir, for a folder without a
    /// parent, and when the target already exists (`is_taken`). The caller
    /// renames it on disk and reports back with [`Session::folder_renamed`].
    pub fn rename_folder<F: Fn(&str) -> bool>(&self, path: &str, new_name: &str, is_taken: &F) -> (r: Result<
        String,
        SessionError,
    >)
        requires
            forall|x: &str| is_taken.requires((x,)),
        ensures
            rename_target(r, path@, new_name@, self.output_root(), *is_taken),
    {
        let clean = trim(new_name);
        if crate::text::chars_of(clean.as_str()).len() == 0 || contains_char(clean.as_str(), '/') || contains_char(
            clean.as_str(),
            '\\',
        ) {
            return Err(SessionError::InvalidName);
        }
        match self.guard(path) {
            Some(e) => {
                return Err(e);
            },
            None => {},
        }
        let parent_dir = match parent(path) {
            Some(p) => p,
            None => {
                return Err(SessionError::NoParent);
            },
        };
        let target = join(parent_dir.as_str(), clean.as_str());
        if is_taken(target.as_str()) {
            Err(SessionError::NameTaken)
        } else {
            Ok(target)
        }
    }

    /// Record a folder rename the caller carried out (`path` now sits at
    /// `target`, named `name`): destinations at the old path follow it under
    /// the new label, and bindings at or under it are re-pointed.
    pub fn folder_renamed(&mut self, path: &str, target: &str, name: &str) -> (r: Vec<DestinationDto>)
        ensures
            final(self).same_settings(old(self)),
            final(self).history() == old(self).history(),
            final(self).bindings_version() == old(self).bindings_version(),
            final(self).dests() == renamed_dests(old(self).dests(), path@, target@, name@),
            final(self).bindings() == old(self).bindings().map_values(
                |e: (Seq<char>, Seq<char>)| retargeted(e, path@, target@, old(self).output_root()),
            ),
            dests_view(r@) == final(self).dests(),
    {
        let ghost orig = self.dests();
        let mut i: usize = 0;
        while i < self.destinations.len()
            invariant
                self.destinations.len() == orig.len(),
                i <= orig.len(),
                forall|k: int| 0 <= k < i ==> #[trigger] self.dests()[k] == renamed_dests(orig, path@, target@, name@)[k],
                forall|k: int| i <= k < orig.len() ==> #[trigger] self.dests()[k] == orig[k],
                self.same_settings(old(self)),
                self.history() == old(self).history(),
                self.bindings() == old(self).bindings(),
                self.bindings_version() == old(self).bindings_version(),
            decreases orig.len() - i,
        {
            let ghost before = self.destinations@;
            let ghost bd = self.dests();
            assert(bd[i as int] == orig[i as int]);
            if path_eq(self.destinations[i].path.as_str(), path) {
                self.destinations[i].path = owned(target);
                self.destinations[i].label = owned(name);
                proof {
                    assert forall|k: int| 0 <= k < self.destinations.len() && k != i implies #[trigger] self.dests()[k]
                        == bd[k] by {
                        assert(self.destinations@[k] == before[k]);
                    }
                    assert(self.destinations@[i as int].hotkey == before[i as int].hotkey);
                    assert(self.destinations@[i as int].is_trash == before[i as int].is_trash);
                    assert(self.destinations@[i as int].media_count == before[i as int].media_count);
                }
            }
            i = i + 1;
        }
        assert(self.dests() =~= renamed_dests(orig, path@, target@, name@));
        self.user_bindings.rename_under(path, target, self.output.as_str());
        clone_dests(&self.destinations)
    }
}


/// How many of the entries `es` of a folder are listed folders (the
/// Navigator's "has children" indicator).
pub fn count_subfolders(entries: &Vec<DirEntryInfo>, ignores: &IgnoreSet) -> (r: usize)
    ensures
        r == listed_paths(entries@, *ignores).len(),
{
    let mut n: usize = 0;
    let mut i: usize = 0;
    while i < entries.len()
        invariant
            i <= entries.len(),
            n == listed_paths(entries@.take(i as int), *ignores).len(),
            n <= i,
        decreases entries.len() - i,
    {
        let e = &entries[i];
        proof {
            assert(entries@.take(i + 1).drop_last() =~= entries@.take(i as int));
            assert(entries@.take(i + 1).last() == *e);
        }
        if is_listed_folder(ignores, e) {
            n = n + 1;
        }
        i = i + 1;
    }
    assert(entries@.take(i as int) =~= entries@);
    n
}

/// Where a hotkey sends a file.
#[derive(Debug, Clone, PartialEq, Eq)]
pub enum HotkeyRoute {
    /// `0`: into the trash.
    Trash,
    /// Into the folder bound to the hotkey.
    Move(String),
}

impl Session {
    /// What re-scanning the inbox reads: the session's input folders (the
    /// `;`-separated input list, trimmed, blank entries dropped) and whether
    /// each is walked recursively. The caller scans each folder
    /// ([`crate::media::scan_inbox`]) and merges them
    /// ([`crate::media::scan_inputs`]).
    pub fn rescan_inbox(&self) -> (r: (Vec<String>, bool))
        ensures
            r.0@.map_values(|s: String| s@) == spec_input_dirs(self.input_list()),
            r.1 == self.recursive(),
    {
        (input_dirs(self.input.as_str()), self.recursive_inbox)
    }

    /// Where a hotkey moves a file: `0` trashes it, any other hotkey moves it
    /// into the folder bound to it; `None` when nothing is bound.
    pub fn move_to_hotkey(&self, hotkey: &str) -> (r: Option<HotkeyRoute>)
        ensures
            hotkey@ == "0"@ ==> r == Some(HotkeyRoute::Trash),
            hotkey@ != "0"@ ==> match find_hotkey(self.dests(), hotkey@, 0) {
                Some(i) => r matches Some(HotkeyRoute::Move(p)) && p@ == self.dests()[i].path,
                None => r is None,
            },
    {
        if crate::text::str_eq(hotkey, "0") {
            return Some(HotkeyRoute::Trash);
        }
        match self.dest_dir_for_hotkey(hotkey) {
            Some(p) => Some(HotkeyRoute::Move(p)),
            None => None,
        }
    }
}

// ---------------------------------------------------------------------------
// Laws of the destination list
// ---------------------------------------------------------------------------

/// An operation's count update touches only its own folder: every
/// destination at another folder is left exactly as it was, no row is added
/// or dropped, and the first row at the folder gains (or loses) one file.
pub proof fn lemma_bump_touches_only_its_folder(ds: Seq<DestV>, dir: Seq<char>, up: bool)
    ensures
        bump(ds, dir, up).len() == ds.len(),
        forall|k: int| 0 <= k < ds.len() && !spec_path_eq(ds[k].path, dir) ==> #[trigger] bump(ds, dir, up)[k] == ds[k],
        find_path(ds, dir, 0) matches Some(i) ==> ({
            let b = bump(ds, dir, up)[i];
            &&& b.label == ds[i].label && b.path == ds[i].path && b.hotkey == ds[i].hotkey && b.is_trash == ds[i].is_trash
            &&& up && ds[i].media_count < usize::MAX ==> b.media_count == ds[i].media_count + 1
            &&& !up && ds[i].media_count > 0 ==> b.media_count == ds[i].media_count - 1
        }),
        find_path(ds, dir, 0) is None ==> bump(ds, dir, up) == ds,
{
    lemma_find_path(ds, dir, 0);
}

/// Undoing restores the count: one file more and then one file fewer in the
/// same folder leaves the list as it was (unless the count was already at
/// its ceiling, where adding saturates).
pub proof fn lemma_bump_up_then_down(ds: Seq<DestV>, dir: Seq<char>)
    requires
        find_path(ds, dir, 0) matches Some(i) ==> ds[i].media_count < usize::MAX,
    ensures
        bump(bump(ds, dir, true), dir, false) == ds,
{
    let b = bump(ds, dir, true);
    lemma_find_path(ds, dir, 0);
    assert forall|k: int| 0 <= k < ds.len() implies #[trigger] b[k].path == ds[k].path by {}
    lemma_find_path_same_paths(ds, b, dir, 0);
    match find_path(ds, dir, 0) {
        Some(i) => {
            assert(bump(b, dir, false) =~= ds);
        },
        None => {},
    }
}

/// Merging one previous row changes no path and no row except by hotkey,
/// and only appends.
proof fn lemma_merge_one_frame(sc: Seq<DestV>, old: DestV)
    ensures
        merge_one(sc, old).len() >= sc.len(),
        forall|k: int| 0 <= k < sc.len() ==> {
            let m = #[trigger] merge_one(sc, old)[k];
            m.path == sc[k].path && m.label == sc[k].label && m.is_trash == sc[k].is_trash && m.media_count
                == sc[k].media_count
        },
{
    lemma_find_path(sc, old.path, 0);
}

/// A re-scan under new ignore rules keeps every scanned row as scanned
/// (path, label, trash flag and count); carrying the previous list over it
/// only sets hotkeys and appends bound rows.
pub proof fn lemma_merge_keeps_scanned(sc: Seq<DestV>, prev: Seq<DestV>)
    ensures
        merge_previous(sc, prev).len() >= sc.len(),
        forall|k: int| 0 <= k < sc.len() ==> {
            let m = #[trigger] merge_previous(sc, prev)[k];
            m.path == sc[k].path && m.label == sc[k].label && m.is_trash == sc[k].is_trash && m.media_count
                == sc[k].media_count
        },
    decreases prev.len(),
{
    if prev.len() > 0 {
        let r = merge_previous(sc, prev.drop_last());
        lemma_merge_keeps_scanned(sc, prev.drop_last());
        lemma_merge_one_frame(r, prev.last());
        assert forall|k: int| 0 <= k < sc.len() implies {
            let m = #[trigger] merge_previous(sc, prev)[k];
            m.path == sc[k].path && m.label == sc[k].label && m.is_trash == sc[k].is_trash && m.media_count
                == sc[k].media_count
        } by {
            assert(merge_previous(sc, prev)[k] == merge_one(r, prev.last())[k]);
            assert(r[k].path == sc[k].path);
        }
    }
}

/// Every row a merge appends is a previous destination's folder.
proof fn lemma_merge_appended_paths(sc: Seq<DestV>, prev: Seq<DestV>)
    ensures
        forall|k: int|
            sc.len() <= k < merge_previous(sc, prev).len() ==> exists|l: int|
                0 <= l < prev.len() && #[trigger] merge_previous(sc, prev)[k].path == prev[l].path,
    decreases prev.len(),
{
    if prev.len() > 0 {
        let pl = prev.drop_last();
        let r = merge_previous(sc, pl);
        lemma_merge_appended_paths(sc, pl);
        lemma_merge_keeps_scanned(sc, pl);
        lemma_merge_one_frame(r, prev.last());
        lemma_find_path(r, prev.last().path, 0);
        let out = merge_previous(sc, prev);
        assert forall|k: int| sc.len() <= k < out.len() implies exists|l: int|
            0 <= l < prev.len() && #[trigger] out[k].path == prev[l].path by {
            if k < r.len() {
                let l = choose|l: int| 0 <= l < pl.len() && r[k].path == pl[l].path;
                assert(pl[l] == prev[l]);
                assert(out[k].path == r[k].path);
            } else {
                assert(out[k].path == prev[prev.len() - 1].path);
            }
        }
    }
}

/// The row for previous destination `d` after merging: the scanned row at
/// its folder (index below `sc.len()`) or `d` itself appended, holding `d`'s
/// hotkey.
pub open spec fn holds_bound(r: Seq<DestV>, sc: Seq<DestV>, d: DestV, j: int) -> bool {
    &&& 0 <= j < r.len()
    &&& r[j].hotkey == d.hotkey
    &&& (r[j].path == d.path || (j < sc.len() && r[j].path == sc[j].path && spec_path_eq(sc[j].path, d.path)))
}

/// An explicit bind survives a re-scan: a previous destination holding a
/// hotkey (other than the trash) still holds it afterwards, on the scanned
/// row of its folder or on a row of its own, provided no other previous
/// destination names the same folder.
pub proof fn lemma_merge_keeps_bound(sc: Seq<DestV>, prev: Seq<DestV>, m: int)
    requires
        0 <= m < prev.len(),
        prev[m].hotkey is Some,
        !prev[m].is_trash,
        forall|l: int| m < l < prev.len() ==> !spec_path_eq(prev[m].path, #[trigger] prev[l].path),
        forall|l: int| 0 <= l < m ==> !spec_path_eq(#[trigger] prev[l].path, prev[m].path),
        forall|i: int, l: int|
            0 <= i < sc.len() && m < l < prev.len() && spec_path_eq(#[trigger] sc[i].path, prev[m].path) ==> !spec_path_eq(
                sc[i].path,
                #[trigger] prev[l].path,
            ),
    ensures
        exists|j: int| holds_bound(merge_previous(sc, prev), sc, prev[m], j),
    decreases prev.len(),
{
    let d = prev[m];
    let r = merge_previous(sc, prev.drop_last());
    lemma_merge_keeps_scanned(sc, prev.drop_last());
    if m == prev.len() - 1 {
        lemma_find_path(r, d.path, 0);
        match find_path(r, d.path, 0) {
            Some(i) => {
                if i < sc.len() {
                    assert(r[i].path == sc[i].path);
                    assert(holds_bound(merge_previous(sc, prev), sc, d, i));
                } else {
                    lemma_merge_appended_paths(sc, prev.drop_last());
                    let l = choose|l: int| 0 <= l < prev.drop_last().len() && r[i].path == prev.drop_last()[l].path;
                    assert(prev.drop_last()[l] == prev[l]);
                    assert(spec_path_eq(prev[l].path, d.path));
                    assert(false);
                }
            },
            None => {
                assert(holds_bound(merge_previous(sc, prev), sc, d, r.len() as int));
            },
        }
    } else {
        let pl = prev.drop_last();
        assert(pl[m] == d);
        assert forall|l: int| m < l < pl.len() implies !spec_path_eq(pl[m].path, #[trigger] pl[l].path) by {
            assert(pl[l] == prev[l]);
        }
        assert forall|i: int, l: int|
            0 <= i < sc.len() && m < l < pl.len() && spec_path_eq(#[trigger] sc[i].path, pl[m].path) implies !spec_path_eq(
            sc[i].path,
            #[trigger] pl[l].path,
        ) by {
            assert(pl[l] == prev[l]);
        }
        assert forall|l: int| 0 <= l < m implies !spec_path_eq(#[trigger] pl[l].path, pl[m].path) by {
            assert(pl[l] == prev[l]);
        }
        lemma_merge_keeps_bound(sc, pl, m);
        let j = choose|j: int| holds_bound(r, sc, d, j);
        let last = prev.last();
        assert(last == prev[prev.len() - 1]);
        lemma_find_path(r, last.path, 0);
        lemma_merge_one_frame(r, last);
        let out = merge_previous(sc, prev);
        assert(out == merge_one(r, last));
        match find_path(r, last.path, 0) {
            Some(i) => {
                if i == j {
                    if r[j].path == d.path {
                        assert(spec_path_eq(d.path, last.path));
                        assert(false);
                    } else {
                        assert(spec_path_eq(sc[j].path, last.path));
                        assert(false);
                    }
                }
                assert(out[j] == r[j]);
                assert(holds_bound(out, sc, d, j));
            },
            None => {
                assert(out[j] == r[j]);
                assert(holds_bound(out, sc, d, j));
            },
        }
    }
}

/// The Navigator can never escape the output root: a clamped folder is the
/// root itself or lies under it.
pub proof fn lemma_clamp_stays_inside(dir: Seq<char>, output: Seq<char>)
    ensures
        clamped(dir, output) == output || spec_path_eq(clamped(dir, output), output) || spec_starts_with(
            clamped(dir, output),
            output,
        ),
{
}

/// Clearing a hotkey leaves no destination holding it, and keeps every
/// destination that did not hold it.
pub proof fn lemma_unbind_clears(ds: Seq<DestV>, key: Seq<char>, top: Seq<Seq<char>>)
    ensures
        forall|k: int| 0 <= k < unbind(ds, key, top).len() ==> (#[trigger] unbind(ds, key, top)[k]).hotkey != Some(key),
        forall|i: int| 0 <= i < ds.len() && ds[i].hotkey != Some(key) ==> unbind(ds, key, top).contains(#[trigger] ds[i]),
    decreases ds.len(),
{
    if ds.len() > 0 {
        let pre = ds.drop_last();
        let prev = unbind(pre, key, top);
        lemma_unbind_clears(pre, key, top);
        let r = unbind(ds, key, top);
        assert forall|i: int| 0 <= i < ds.len() && ds[i].hotkey != Some(key) implies r.contains(#[trigger] ds[i]) by {
            if i < ds.len() - 1 {
                assert(pre[i] == ds[i]);
                assert(prev.contains(pre[i]));
                let k = choose|k: int| 0 <= k < prev.len() && prev[k] == pre[i];
                assert(r[k] == prev[k]);
            } else {
                assert(r[r.len() - 1] == ds[i]);
            }
        }
    }
}

/// After opening, the `=` slot is always taken: by the user's own bind, or
/// by the managed archive folder.
pub proof fn lemma_archive_slot_taken(ds: Seq<DestV>, output: Seq<char>, count: usize)
    ensures
        has_hotkey(with_archive(ds, output, count), "="@),
        !has_hotkey(ds, "="@) ==> with_archive(ds, output, count).last() == archive_dest(output, count),
{
    if !has_hotkey(ds, "="@) {
        let r = ds.push(archive_dest(output, count));
        assert(r[ds.len() as int].hotkey == Some("="@));
    }
}

/// No two destinations hold the same hotkey.
pub open spec fn unique_hotkeys(ds: Seq<DestV>) -> bool {
    forall|a: int, b: int|
        0 <= a < b < ds.len() && (#[trigger] ds[a]).hotkey is Some ==> ds[a].hotkey != (#[trigger] ds[b]).hotkey
}

/// Binding keeps every hotkey unique: if no two destinations shared a
/// hotkey before, none do after.
pub proof fn lemma_assign_keeps_unique(ds: Seq<DestV>, key: Seq<char>, path: Seq<char>, count: nat)
    requires
        unique_hotkeys(ds),
    ensures
        unique_hotkeys(assign_hotkey(ds, key, path, count)),
{
    let c = clear_hotkey(ds, key);
    let r = assign_hotkey(ds, key, path, count);
    lemma_assign_unique(ds, key, path, count);
    lemma_find_path(c, path, 0);
    assert forall|a: int, b: int|
        0 <= a < b < r.len() && (#[trigger] r[a]).hotkey is Some implies r[a].hotkey != (#[trigger] r[b]).hotkey by {
        if r[a].hotkey == Some(key) && r[b].hotkey == Some(key) {
            assert(false);
        } else if r[a].hotkey != Some(key) && r[b].hotkey == r[a].hotkey {
            assert(b < ds.len());
            assert(r[a] == c[a] || r[a].hotkey == Some(key));
            assert(r[b] == c[b] || r[b].hotkey == Some(key));
            assert(c[a].hotkey == ds[a].hotkey);
            assert(c[b].hotkey == ds[b].hotkey);
            assert(false);
        }
    }
}

/// Clearing a hotkey keeps every hotkey unique.
pub proof fn lemma_unbind_keeps_unique(ds: Seq<DestV>, key: Seq<char>, top: Seq<Seq<char>>)
    requires
        unique_hotkeys(ds),
    ensures
        unique_hotkeys(unbind(ds, key, top)),
    decreases ds.len(),
{
    if ds.len() > 0 {
        let pre = ds.drop_last();
        assert forall|a: int, b: int|
            0 <= a < b < pre.len() && (#[trigger] pre[a]).hotkey is Some implies pre[a].hotkey != (#[trigger] pre[b]).hotkey by {
            assert(pre[a] == ds[a] && pre[b] == ds[b]);
        }
        lemma_unbind_keeps_unique(pre, key, top);
        lemma_unbind_from(pre, key, top);
        let prev = unbind(pre, key, top);
        let r = unbind(ds, key, top);
        let d = ds.last();
        assert forall|a: int, b: int|
            0 <= a < b < r.len() && (#[trigger] r[a]).hotkey is Some implies r[a].hotkey != (#[trigger] r[b]).hotkey by {
            if b == r.len() - 1 && r.len() > prev.len() {
                assert(r[a] == prev[a]);
                let i = choose|i: int| 0 <= i < pre.len() && (prev[a] == pre[i] || prev[a] == (DestV { hotkey: None, ..pre[i] }));
                if r[b] == d {
                    assert(ds[i] == pre[i]);
                    assert(ds[ds.len() - 1] == d);
                }
            } else {
                assert(r[a] == prev[a] && r[b] == prev[b]);
            }
        }
    }
}

/// Every row of an unbind result comes from a row of the list (with its
/// hotkey possibly cleared).
proof fn lemma_unbind_from(ds: Seq<DestV>, key: Seq<char>, top: Seq<Seq<char>>)
    ensures
        forall|a: int| 0 <= a < unbind(ds, key, top).len() ==> exists|i: int|
            0 <= i < ds.len() && (#[trigger] unbind(ds, key, top)[a] == ds[i] || unbind(ds, key, top)[a] == (DestV {
                hotkey: None,
                ..ds[i]
            })),
    decreases ds.len(),
{
    if ds.len() > 0 {
        let pre = ds.drop_last();
        lemma_unbind_from(pre, key, top);
        let prev = unbind(pre, key, top);
        let r = unbind(ds, key, top);
        assert forall|a: int| 0 <= a < r.len() implies exists|i: int|
            0 <= i < ds.len() && (#[trigger] r[a] == ds[i] || r[a] == (DestV { hotkey: None, ..ds[i] })) by {
            if a < prev.len() {
                assert(r[a] == prev[a]);
                let i = choose|i: int| 0 <= i < pre.len() && (prev[a] == pre[i] || prev[a] == (DestV { hotkey: None, ..pre[i] }));
                assert(ds[i] == pre[i]);
            } else {
                assert(ds[ds.len() - 1] == ds.last());
            }
        }
    }
}

/// Finding a folder in a list that starts with the rows of `sc` (same
/// paths) finds it where `sc` does, or past `sc`.
proof fn lemma_find_path_prefix(sc: Seq<DestV>, r: Seq<DestV>, p: Seq<char>)
    requires
        r.len() >= sc.len(),
        forall|k: int| 0 <= k < sc.len() ==> #[trigger] r[k].path == sc[k].path,
    ensures
        find_path(sc, p, 0) matches Some(j) ==> find_path(r, p, 0) == Some(j),
        find_path(sc, p, 0) is None ==> (find_path(r, p, 0) matches Some(i) ==> i >= sc.len()),
{
    lemma_find_path(sc, p, 0);
    lemma_find_path(r, p, 0);
    match find_path(sc, p, 0) {
        Some(j) => {
            assert(r[j].path == sc[j].path);
            match find_path(r, p, 0) {
                Some(i) => {
                    if i < j {
                        assert(r[i].path == sc[i].path);
                    }
                },
                None => {},
            }
        },
        None => {
            match find_path(r, p, 0) {
                Some(i) => {
                    if i < sc.len() {
                        assert(r[i].path == sc[i].path);
                    }
                },
                None => {},
            }
        },
    }
}

/// Every hotkey in `r` comes from the scan (on the same row) or from one of
/// the first `k` previous rows.
spec fn hotkeys_from(sc: Seq<DestV>, prev: Seq<DestV>, k: int, r: Seq<DestV>) -> bool {
    forall|x: int|
        0 <= x < r.len() && (#[trigger] r[x]).hotkey is Some ==> (x < sc.len() && sc[x].hotkey == r[x].hotkey) || exists|
            l: int,
        | 0 <= l < k && prev[l].hotkey == r[x].hotkey
}

/// A hotkey that the scan gave a row is carried over only onto that row.
pub open spec fn scan_keys_stay(sc: Seq<DestV>, prev: Seq<DestV>) -> bool {
    forall|j: int, l: int|
        0 <= j < sc.len() && 0 <= l < prev.len() && (#[trigger] sc[j]).hotkey is Some && (#[trigger] prev[l]).hotkey
            == sc[j].hotkey ==> find_path(sc, prev[l].path, 0) == Some(j)
}

proof fn lemma_merge_unique_from(sc: Seq<DestV>, prev: Seq<DestV>)
    requires
        unique_hotkeys(sc),
        unique_hotkeys(prev),
        scan_keys_stay(sc, prev),
    ensures
        unique_hotkeys(merge_previous(sc, prev)),
        hotkeys_from(sc, prev, prev.len() as int, merge_previous(sc, prev)),
    decreases prev.len(),
{
    let out = merge_previous(sc, prev);
    if prev.len() == 0 {
        assert forall|x: int| 0 <= x < out.len() && (#[trigger] out[x]).hotkey is Some implies (x < sc.len()
            && sc[x].hotkey == out[x].hotkey) || exists|l: int| 0 <= l < 0 && prev[l].hotkey == out[x].hotkey by {}
    } else {
        let pl = prev.drop_last();
        let q = prev.last();
        let last = prev.len() - 1;
        assert(q == prev[last]);
        assert forall|a: int, b: int|
            0 <= a < b < pl.len() && (#[trigger] pl[a]).hotkey is Some implies pl[a].hotkey != (#[trigger] pl[b]).hotkey by {
            assert(pl[a] == prev[a] && pl[b] == prev[b]);
        }
        assert forall|j: int, l: int|
            0 <= j < sc.len() && 0 <= l < pl.len() && (#[trigger] sc[j]).hotkey is Some && (#[trigger] pl[l]).hotkey
                == sc[j].hotkey implies find_path(sc, pl[l].path, 0) == Some(j) by {
            assert(pl[l] == prev[l]);
        }
        lemma_merge_unique_from(sc, pl);
        let r = merge_previous(sc, pl);
        lemma_merge_keeps_scanned(sc, pl);
        lemma_find_path_prefix(sc, r, q.path);
        lemma_find_path(r, q.path, 0);
        lemma_find_path(sc, q.path, 0);
        assert(out == merge_one(r, q));
        // no other row of `r` holds `q`'s hotkey, except where `q` lands
        assert forall|x: int|
            0 <= x < r.len() && q.hotkey is Some && (#[trigger] r[x]).hotkey == q.hotkey implies find_path(
            r,
            q.path,
            0,
        ) == Some(x) by {
            if x < sc.len() && sc[x].hotkey == r[x].hotkey {
                assert(find_path(sc, prev[last].path, 0) == Some(x));
            } else {
                let l = choose|l: int| 0 <= l < pl.len() && pl[l].hotkey == r[x].hotkey;
                assert(pl[l] == prev[l]);
                assert(prev[l].hotkey != prev[last].hotkey);
            }
        }
        match find_path(r, q.path, 0) {
            Some(i) => {
                if q.hotkey is Some {
                    assert(out == r.update(i, DestV { hotkey: q.hotkey, ..r[i] }));
                    assert forall|a: int, b: int|
                        0 <= a < b < out.len() && (#[trigger] out[a]).hotkey is Some implies out[a].hotkey != (
                        #[trigger] out[b]).hotkey by {
                        if a != i && b != i {
                            assert(out[a] == r[a] && out[b] == r[b]);
                        } else if a == i {
                            assert(out[b] == r[b]);
                        } else {
                            assert(out[a] == r[a]);
                        }
                    }
                    assert forall|x: int| 0 <= x < out.len() && (#[trigger] out[x]).hotkey is Some implies (x
                        < sc.len() && sc[x].hotkey == out[x].hotkey) || exists|l: int|
                        0 <= l < prev.len() && prev[l].hotkey == out[x].hotkey by {
                        if x == i {
                            assert(prev[last].hotkey == out[x].hotkey);
                        } else {
                            assert(out[x] == r[x]);
                            if !(x < sc.len() && sc[x].hotkey == r[x].hotkey) {
                                let l = choose|l: int| 0 <= l < pl.len() && pl[l].hotkey == r[x].hotkey;
                                assert(pl[l] == prev[l]);
                            }
                        }
                    }
                } else {
                    assert(out == r);
                    assert forall|x: int| 0 <= x < out.len() && (#[trigger] out[x]).hotkey is Some implies (x
                        < sc.len() && sc[x].hotkey == out[x].hotkey) || exists|l: int|
                        0 <= l < prev.len() && prev[l].hotkey == out[x].hotkey by {
                        if !(x < sc.len() && sc[x].hotkey == r[x].hotkey) {
                            let l = choose|l: int| 0 <= l < pl.len() && pl[l].hotkey == r[x].hotkey;
                            assert(pl[l] == prev[l]);
                        }
                    }
                }
            },
            None => {
                if q.hotkey is Some && !q.is_trash {
                    assert(out == r.push(q));
                    assert forall|a: int, b: int|
                        0 <= a < b < out.len() && (#[trigger] out[a]).hotkey is Some implies out[a].hotkey != (
                        #[trigger] out[b]).hotkey by {
                        if b < r.len() {
                            assert(out[a] == r[a] && out[b] == r[b]);
                        } else {
                            assert(out[a] == r[a]);
                            assert(out[b] == q);
                        }
                    }
                } else {
                    assert(out == r);
                }
                assert forall|x: int| 0 <= x < out.len() && (#[trigger] out[x]).hotkey is Some implies (x < sc.len()
                    && sc[x].hotkey == out[x].hotkey) || exists|l: int|
                    0 <= l < prev.len() && prev[l].hotkey == out[x].hotkey by {
                    if x < r.len() {
                        assert(out[x] == r[x]);
                        if !(x < sc.len() && sc[x].hotkey == r[x].hotkey) {
                            let l = choose|l: int| 0 <= l < pl.len() && pl[l].hotkey == r[x].hotkey;
                            assert(pl[l] == prev[l]);
                        }
                    } else {
                        assert(prev[last].hotkey == out[x].hotkey);
                    }
                }
            },
        }
    }
}

/// A re-scan never makes two destinations share a hotkey, as long as the
/// previous list and the scan had unique hotkeys and a hotkey the scan gave
/// (the trash's `0`) is carried over only from the previous row of that
/// same folder.
pub proof fn lemma_merge_keeps_unique(sc: Seq<DestV>, prev: Seq<DestV>)
    requires
        unique_hotkeys(sc),
        unique_hotkeys(prev),
        scan_keys_stay(sc, prev),
    ensures
        unique_hotkeys(merge_previous(sc, prev)),
{
    lemma_merge_unique_from(sc, prev);
}

// ---------------------------------------------------------------------------
// The journaled transfer protocol
// ---------------------------------------------------------------------------

/// The journaled command a transfer carries out.
#[derive(Debug, Clone, PartialEq, Eq)]
pub enum TransferCommand {
    /// Move the source into this folder.
    Move(String),
    /// Copy the source into this folder.
    Copy(String),
    /// Move the source into the trash.
    Trash,
    /// Move the source folder into the trash.
    DeleteFolder,
}

/// How far a transfer has got.
#[derive(Debug, Clone, Copy, PartialEq, Eq, Structural)]
pub enum TransferStage {
    /// Planned; nothing written or moved yet.
    Planned,
    /// The Intent record was asked for.
    IntentPending,
    /// The Intent record is written; the operation on disk was asked for.
    ActionPending,
    /// The operation succeeded; the Succeeded record was asked for.
    SucceededPending,
    /// Recorded and undoable.
    Finished,
    /// Stopped without recording anything.
    Failed,
}

/// One planned operation moving through the protocol: the source and where
/// it lands (`resolved`, from the plan).
#[derive(Debug, Clone, PartialEq, Eq)]
pub struct Transfer {
    pub command: TransferCommand,
    pub source: String,
    pub resolved: String,
    pub stage: TransferStage,
}

/// What the caller reports back.
#[derive(Debug, Clone, Copy, PartialEq, Eq, Structural)]
pub enum TransferEvent {
    /// Start the transfer.
    Begin,
    /// The Intent record was appended (best effort: a failed journal write
    /// is reported too, as the journal never fails an operation).
    IntentWritten,
    /// The operation on disk was carried out (`true`) or failed (`false`).
    Performed(bool),
    /// The Succeeded record was appended (best effort, as above).
    SucceededWritten,
}

/// What the caller does next.
#[derive(Debug)]
pub enum TransferAction {
    /// Append an Intent record of this kind for (source, resolved).
    WriteIntent(OperationKind),
    /// Carry the operation out on disk.
    Perform,
    /// Append a Succeeded record of this kind for (source, resolved).
    WriteSucceeded(OperationKind),
    /// Finished: the operation is recorded; here is the frontend's outcome.
    Done(OpOutcome),
    /// Stop: nothing was recorded.
    Fail,
}

/// The kind an operation is journaled and recorded as (a trash is a move).
pub open spec fn command_kind(c: TransferCommand) -> OperationKind {
    match c {
        TransferCommand::Move(_) => OperationKind::Move,
        TransferCommand::Copy(_) => OperationKind::Copy,
        TransferCommand::Trash => OperationKind::Move,
        TransferCommand::DeleteFolder => OperationKind::DeleteFolder,
    }
}

/// The stage after `event`: each step needs the report of the step before
/// it; anything else (a failed operation, an event out of order) stops the
/// transfer. A stopped or finished transfer stays so.
pub open spec fn next_stage(stage: TransferStage, event: TransferEvent) -> TransferStage {
    match (stage, event) {
        (TransferStage::Planned, TransferEvent::Begin) => TransferStage::IntentPending,
        (TransferStage::IntentPending, TransferEvent::IntentWritten) => TransferStage::ActionPending,
        (TransferStage::ActionPending, TransferEvent::Performed(true)) => TransferStage::SucceededPending,
        (TransferStage::SucceededPending, TransferEvent::SucceededWritten) => TransferStage::Finished,
        (TransferStage::Finished, _) => TransferStage::Finished,
        _ => TransferStage::Failed,
    }
}

/// What finishing a transfer did to the session: the operation is recorded
/// (undoable), the counts and bindings follow the command, and `o` is the
/// command's outcome.
pub open spec fn done_ok(
    before: &Session,
    after: &Session,
    c: TransferCommand,
    source: Seq<char>,
    resolved: Seq<char>,
    o: OpOutcome,
) -> bool {
    &&& after.same_settings(before)
    &&& after.history() == before.history().push((command_kind(c), source, resolved))
    &&& o.restored_item is None
    &&& match c {
        TransferCommand::Move(d) => {
            &&& after.bindings() == before.bindings()
            &&& after.dests() == bump(before.dests(), d@, true)
            &&& outcome_ok(
                o,
                OpKind::Move,
                "Moved to "@ + label_for(before.dests(), d@),
                source,
                resolved,
                true,
                true,
                after.dests(),
            )
        },
        TransferCommand::Copy(d) => {
            &&& after.bindings() == before.bindings()
            &&& after.dests() == bump(before.dests(), d@, true)
            &&& outcome_ok(
                o,
                OpKind::Copy,
                "Copied to "@ + label_for(before.dests(), d@),
                source,
                resolved,
                false,
                true,
                after.dests(),
            )
        },
        TransferCommand::Trash => {
            &&& after.bindings() == before.bindings()
            &&& after.dests() == bump(
                before.dests(),
                spec_join(spec_join(before.output_root(), STATE_DIR@), ".trash"@),
                true,
            )
            &&& outcome_ok(o, OpKind::Trash, "Moved to trash"@, source, resolved, true, true, after.dests())
        },
        TransferCommand::DeleteFolder => {
            &&& after.dests() == before.dests()
            &&& after.bindings_version() == before.bindings_version()
            &&& after.bindings() == kept_entries(
                before.bindings(),
                before.bindings().map_values(
                    |e: (Seq<char>, Seq<char>)| !binding_under(e, source, before.output_root()),
                ),
            )
            &&& outcome_ok(
                o,
                OpKind::Trash,
                "Deleted "@ + (match spec_file_name(source) {
                    Some(n) => n,
                    None => source,
                }) + " to trash"@,
                source,
                resolved,
                false,
                true,
                after.dests(),
            )
        },
    }
}

fn command_kind_exec(c: &TransferCommand) -> (r: OperationKind)
    ensures
        r == command_kind(*c),
{
    match c {
        TransferCommand::Move(_) => OperationKind::Move,
        TransferCommand::Copy(_) => OperationKind::Copy,
        TransferCommand::Trash => OperationKind::Move,
        TransferCommand::DeleteFolder => OperationKind::DeleteFolder,
    }
}

impl Session {
    /// One step of the journaled protocol every file operation follows:
    /// write the Intent record, carry the operation out, write the Succeeded
    /// record, then record the operation (undoable) and answer with its
    /// outcome. The caller performs each action and reports the event; a
    /// failed operation or an event out of order stops the transfer with
    /// nothing recorded.
    pub fn transfer_step(&mut self, t: &mut Transfer, event: TransferEvent) -> (r: TransferAction)
        ensures
            final(t).command == old(t).command,
            final(t).source == old(t).source,
            final(t).resolved == old(t).resolved,
            final(t).stage == next_stage(old(t).stage, event),
            old(t).stage == TransferStage::Planned && event == TransferEvent::Begin ==> r == TransferAction::WriteIntent(
                command_kind(old(t).command),
            ),
            old(t).stage == TransferStage::IntentPending && event == TransferEvent::IntentWritten ==> r
                == TransferAction::Perform,
            old(t).stage == TransferStage::ActionPending && event == TransferEvent::Performed(true) ==> r
                == TransferAction::WriteSucceeded(command_kind(old(t).command)),
            old(t).stage == TransferStage::SucceededPending && event == TransferEvent::SucceededWritten ==> ({
                &&& r matches TransferAction::Done(o)
                &&& done_ok(old(self), final(self), old(t).command, old(t).source@, old(t).resolved@, o)
            }),
            !(old(t).stage == TransferStage::Planned && event == TransferEvent::Begin) && !(old(t).stage
                == TransferStage::IntentPending && event == TransferEvent::IntentWritten) && !(old(t).stage
                == TransferStage::ActionPending && event == TransferEvent::Performed(true)) && !(old(t).stage
                == TransferStage::SucceededPending && event == TransferEvent::SucceededWritten) ==> r
                == TransferAction::Fail,
            !(old(t).stage == TransferStage::SucceededPending && event == TransferEvent::SucceededWritten) ==> ({
                &&& final(self).same_settings(old(self))
                &&& final(self).dests() == old(self).dests()
                &&& final(self).history() == old(self).history()
                &&& final(self).bindings() == old(self).bindings()
                &&& final(self).bindings_version() == old(self).bindings_version()
            }),
    {
        match (t.stage, event) {
            (TransferStage::Planned, TransferEvent::Begin) => {
                t.stage = TransferStage::IntentPending;
                TransferAction::WriteIntent(command_kind_exec(&t.command))
            },
            (TransferStage::IntentPending, TransferEvent::IntentWritten) => {
                t.stage = TransferStage::ActionPending;
                TransferAction::Perform
            },
            (TransferStage::ActionPending, TransferEvent::Performed(true)) => {
                t.stage = TransferStage::SucceededPending;
                TransferAction::WriteSucceeded(command_kind_exec(&t.command))
            },
            (TransferStage::SucceededPending, TransferEvent::SucceededWritten) => {
                let o = match &t.command {
                    TransferCommand::Move(d) => self.move_item(t.source.as_str(), d.as_str(), t.resolved.as_str()),
                    TransferCommand::Copy(d) => self.copy_item(t.source.as_str(), d.as_str(), t.resolved.as_str()),
                    TransferCommand::Trash => self.trash_item(t.source.as_str(), t.resolved.as_str()),
                    TransferCommand::DeleteFolder => self.folder_deleted(t.source.as_str(), t.resolved.as_str()),
                };
                t.stage = TransferStage::Finished;
                TransferAction::Done(o)
            },
            (TransferStage::Finished, _) => TransferAction::Fail,
            _ => {
                t.stage = TransferStage::Failed;
                TransferAction::Fail
            },
        }
    }
}

/// The stage a transfer reaches from `stage` after the events `events`.
pub open spec fn run_stage(stage: TransferStage, events: Seq<TransferEvent>) -> TransferStage
    decreases events.len(),
{
    if events.len() == 0 {
        stage
    } else {
        next_stage(run_stage(stage, events.drop_last()), events.last())
    }
}

/// The events of a transfer that goes through, in order.
pub open spec fn protocol_events() -> Seq<TransferEvent> {
    seq![
        TransferEvent::Begin,
        TransferEvent::IntentWritten,
        TransferEvent::Performed(true),
        TransferEvent::SucceededWritten,
    ]
}

/// The stage after the first `k` events of the protocol.
spec fn protocol_stage(k: int) -> TransferStage {
    if k <= 0 {
        TransferStage::Planned
    } else if k == 1 {
        TransferStage::IntentPending
    } else if k == 2 {
        TransferStage::ActionPending
    } else if k == 3 {
        TransferStage::SucceededPending
    } else {
        TransferStage::Finished
    }
}

/// The events so far follow the protocol (as far as it goes).
spec fn follows_protocol(events: Seq<TransferEvent>) -> bool {
    forall|i: int| 0 <= i < events.len() && i < 4 ==> events[i] == #[trigger] protocol_events()[i]
}

proof fn lemma_run_stage(events: Seq<TransferEvent>)
    ensures
        run_stage(TransferStage::Planned, events) == (if follows_protocol(events) {
            protocol_stage(if events.len() < 4 { events.len() as int } else { 4 })
        } else {
            TransferStage::Failed
        }),
    decreases events.len(),
{
    if events.len() > 0 {
        let pre = events.drop_last();
        let e = events.last();
        lemma_run_stage(pre);
        assert forall|i: int| 0 <= i < pre.len() implies pre[i] == events[i] by {}
        if follows_protocol(pre) {
            if pre.len() < 4 {
                let k = pre.len() as int;
                if e == protocol_events()[k] {
                    assert forall|i: int| 0 <= i < events.len() && i < 4 implies events[i] == #[trigger] protocol_events()[i] by {
                        if i < k {
                            assert(pre[i] == protocol_events()[i]);
                        }
                    }
                } else {
                    assert(!(events[k] == protocol_events()[k]));
                }
            } else {
                assert forall|i: int| 0 <= i < events.len() && i < 4 implies events[i] == #[trigger] protocol_events()[i] by {
                    assert(pre[i] == protocol_events()[i]);
                }
            }
        } else {
            let i = choose|i: int| 0 <= i < pre.len() && i < 4 && !(pre[i] == #[trigger] protocol_events()[i]);
            assert(!(events[i] == protocol_events()[i]));
        }
    }
}

/// The protocol's order: only the Intent record, then a successful
/// operation, then the Succeeded record lead to a finished (recorded)
/// transfer. A planned transfer finishes exactly when its first four events
/// are `Begin`, `IntentWritten`, `Performed(true)`, `SucceededWritten`.
pub proof fn lemma_transfer_order(events: Seq<TransferEvent>)
    ensures
        run_stage(TransferStage::Planned, events) == TransferStage::Finished <==> events.len() >= 4 && events.take(4)
            == protocol_events(),
{
    lemma_run_stage(events);
    if events.len() >= 4 {
        if follows_protocol(events) {
            assert(events.take(4) =~= protocol_events());
        } else if events.take(4) == protocol_events() {
            let i = choose|i: int| 0 <= i < events.len() && i < 4 && !(events[i] == #[trigger] protocol_events()[i]);
            assert(events.take(4)[i] == events[i]);
        }
    }
}


/// Undo is available exactly while something recorded is left: after a
/// session opens (nothing recorded) and `ops` are recorded, then `u` of them
/// undone, the outcomes report `can_undo` exactly when `u < ops.len()`.
pub proof fn lemma_session_undo_available(
    opened: Session,
    ops: Seq<(OperationKind, Seq<char>, Seq<char>)>,
    u: nat,
)
    requires
        opened.history().len() == 0,
        u <= ops.len(),
    ensures
        (crate::operations::after_undos(crate::operations::after_records(opened.history(), ops), u).len() > 0) == (u
            < ops.len()),
{
    assert(opened.history() =~= Seq::<(OperationKind, Seq<char>, Seq<char>)>::empty());
    crate::operations::lemma_can_undo_after(ops, u);
}

/// The Navigator lists more media first: in a listing, a row never comes
/// before one with more media, whatever their subfolder counts, and rows
/// with equal counts are in name order.
pub proof fn lemma_listing_order(
    out: Seq<(Seq<char>, Seq<char>, nat, nat)>,
    rows: Seq<(Seq<char>, Seq<char>, nat, nat)>,
)
    requires
        ranked(out, rows, row_keys(rows)),
    ensures
        forall|a: int, b: int|
            0 <= a < b < out.len() ==> (#[trigger] out[a]).2 > (#[trigger] out[b]).2 || (out[a].2 == out[b].2 && (
            out[a].0 == out[b].0 || lex_lt(out[a].0, out[b].0))),
{
    let f = |r: (Seq<char>, Seq<char>, nat, nat)| (r.2 as int, r.0);
    assert(row_keys(rows) =~= rows.map_values(f));
    lemma_ranked_in_order(out, rows, f);
    assert forall|a: int, b: int| 0 <= a < b < out.len() implies (#[trigger] out[a]).2 > (#[trigger] out[b]).2 || (
    out[a].2 == out[b].2 && (out[a].0 == out[b].0 || lex_lt(out[a].0, out[b].0))) by {
        assert(f(out[a]) == (out[a].2 as int, out[a].0));
        assert(f(out[b]) == (out[b].2 as int, out[b].0));
    }
}

/// Search hits come best score first; hits with equal scores are in order
/// of the name shown for them (the folder's file name, else its relative
/// path). Every hit cut off by the cap ranks after every hit kept.
pub proof fn lemma_search_order(all: Seq<ScoredFolder>, hits: Seq<ScoredFolder>)
    requires
        ranked(all, hits, hit_keys(hits)),
    ensures
        forall|a: int, b: int|
            0 <= a < b < all.len() ==> ({
                let na = match spec_file_name((#[trigger] all[a]).path@) {
                    Some(n) => n,
                    None => all[a].rel@,
                };
                let nb = match spec_file_name((#[trigger] all[b]).path@) {
                    Some(n) => n,
                    None => all[b].rel@,
                };
                all[a].score > all[b].score || (all[a].score == all[b].score && (na == nb || lex_lt(na, nb)))
            }),
{
    let f = |h: ScoredFolder| (h.score as int, hit_name(h));
    assert(hit_keys(hits) =~= hits.map_values(f));
    lemma_ranked_in_order(all, hits, f);
    assert forall|a: int, b: int| 0 <= a < b < all.len() implies ({
        let na = match spec_file_name((#[trigger] all[a]).path@) {
            Some(n) => n,
            None => all[a].rel@,
        };
        let nb = match spec_file_name((#[trigger] all[b]).path@) {
            Some(n) => n,
            None => all[b].rel@,
        };
        all[a].score > all[b].score || (all[a].score == all[b].score && (na == nb || lex_lt(na, nb)))
    }) by {
        assert(f(all[a]) == (all[a].score as int, hit_name(all[a])));
        assert(f(all[b]) == (all[b].score as int, hit_name(all[b])));
    }
}
} // verus!
