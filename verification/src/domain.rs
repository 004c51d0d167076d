//! Core types shared by the engine and the values handed to the frontend.

use vstd::prelude::*;
use crate::paths::{extension, join, spec_extension, spec_join};
use crate::text::{ascii_lower, chars_of, to_ascii_lowercase};

verus! {

/// What kind of media a file is, judged by its extension.
#[derive(Debug, Clone, Copy, PartialEq, Eq, Structural)]
pub enum MediaKind {
    Image,
    Video,
    Other,
}

/// What to do when the destination name is already taken. The default,
/// `Rename`, produces Windows-Explorer-style `name (2).ext`; a sort must never
/// silently destroy a file.
#[derive(Debug, Clone, Copy, PartialEq, Eq, Structural)]
pub enum CollisionPolicy {
    Rename,
    Skip,
    Overwrite,
}

impl Default for CollisionPolicy {
    fn default() -> (r: Self)
        ensures
            r == CollisionPolicy::Rename,
    {
        CollisionPolicy::Rename
    }
}

/// A media file in the inbox.
#[derive(Debug, Clone, PartialEq, Eq)]
pub struct MediaItemDto {
    pub path: String,
    pub file_name: String,
    pub kind: MediaKind,
    pub size_bytes: u64,
    /// Modified time in milliseconds since the Unix epoch, if available.
    pub modified_ms: Option<i64>,
}

/// A sort target. `hotkey` is the key that triggers a move there; `"0"` is
/// trash.
#[derive(Debug, PartialEq, Eq)]
pub struct DestinationDto {
    pub label: String,
    pub path: String,
    pub hotkey: Option<String>,
    pub is_trash: bool,
    pub media_count: usize,
}

/// A folder under the output root, as listed by the Navigator.
#[derive(Debug, Clone, PartialEq, Eq)]
pub struct FolderEntry {
    pub name: String,
    pub path: String,
    pub media_count: usize,
    pub subfolder_count: usize,
}

/// The contents of one directory in the Navigator tree.
#[derive(Debug, Clone)]
pub struct FolderListing {
    /// The directory being listed.
    pub path: String,
    /// Parent directory, or `None` at the output root (can't ascend past it).
    pub parent: Option<String>,
    /// Path relative to the output root, forward-slashed ("" = root).
    pub rel: String,
    /// Immediate child folders, sorted by media count desc then name.
    pub folders: Vec<FolderEntry>,
}

/// The snapshot returned when a session opens.
#[derive(Debug, Clone)]
pub struct SessionView {
    pub input: String,
    pub output: String,
    pub inbox: Vec<MediaItemDto>,
    pub destinations: Vec<DestinationDto>,
}

/// The result of one mutating operation, with a minimal delta for the
/// frontend.
#[derive(Debug, Clone)]
pub struct OpOutcome {
    pub message: String,
    pub kind: OpKind,
    pub source_path: String,
    pub resolved_path: String,
    /// True => the frontend should drop the source row from the inbox.
    pub source_removed: bool,
    /// On undo, the item to re-insert into the inbox.
    pub restored_item: Option<MediaItemDto>,
    pub can_undo: bool,
    /// Destinations with their current media counts.
    pub destinations: Vec<DestinationDto>,
}

#[derive(Debug, Clone, Copy, PartialEq, Eq, Structural)]
pub enum OpKind {
    Move,
    Copy,
    Trash,
    Undo,
}

/// The result of emptying the trash.
#[derive(Debug, Clone)]
pub struct EmptyTrashResult {
    pub removed: usize,
    pub destinations: Vec<DestinationDto>,
}

/// The result of renaming a folder.
#[derive(Debug, Clone)]
pub struct RenameResult {
    pub listing: FolderListing,
    pub destinations: Vec<DestinationDto>,
}

/// The abstract value of a destination.
pub struct DestV {
    pub label: Seq<char>,
    pub path: Seq<char>,
    pub hotkey: Option<Seq<char>>,
    pub is_trash: bool,
    pub media_count: nat,
}

pub open spec fn opt_str_view(o: Option<String>) -> Option<Seq<char>> {
    match o {
        Some(s) => Some(s@),
        None => None,
    }
}

pub open spec fn dest_view(d: DestinationDto) -> DestV {
    DestV {
        label: d.label@,
        path: d.path@,
        hotkey: opt_str_view(d.hotkey),
        is_trash: d.is_trash,
        media_count: d.media_count as nat,
    }
}

pub open spec fn dests_view(s: Seq<DestinationDto>) -> Seq<DestV> {
    s.map_values(|d: DestinationDto| dest_view(d))
}

/// A copy of an optional string.
pub fn clone_opt_string(o: &Option<String>) -> (r: Option<String>)
    ensures
        opt_str_view(r) == opt_str_view(*o),
{
    match o {
        Some(s) => Some(s.clone()),
        None => None,
    }
}

impl Clone for DestinationDto {
    fn clone(&self) -> (r: Self)
        ensures
            dest_view(r) == dest_view(*self),
    {
        DestinationDto {
            label: self.label.clone(),
            path: self.path.clone(),
            hotkey: clone_opt_string(&self.hotkey),
            is_trash: self.is_trash,
            media_count: self.media_count,
        }
    }
}

/// A copy of a destination list.
pub fn clone_dests(v: &Vec<DestinationDto>) -> (r: Vec<DestinationDto>)
    ensures
        dests_view(r@) == dests_view(v@),
{
    let mut out: Vec<DestinationDto> = Vec::new();
    let mut i: usize = 0;
    while i < v.len()
        invariant
            i <= v.len(),
            dests_view(out@) == dests_view(v@).take(i as int),
        decreases v.len() - i,
    {
        let d = v[i].clone();
        let ghost prev = out@;
        out.push(d);
        proof {
            assert(dests_view(out@) =~= dests_view(prev).push(dest_view(d)));
            assert(dests_view(out@) =~= dests_view(v@).take(i + 1));
        }
        i = i + 1;
    }
    assert(dests_view(v@).take(i as int) =~= dests_view(v@));
    out
}

/// One entry of a directory listing, as read by the caller: `read_dir`'s
/// path, whether the entry itself (not following links) is a directory or a
/// regular file, and for files their size and modification time.
#[derive(Debug, Clone)]
pub struct DirEntryInfo {
    pub path: String,
    pub is_dir: bool,
    pub is_file: bool,
    pub size_bytes: u64,
    pub modified_ms: Option<i64>,
}

/// The reserved state directory under the output root.
pub const STATE_DIR: &'static str = ".comfysort";

pub open spec fn image_exts() -> Seq<Seq<char>> {
    seq![
        seq!['j', 'p', 'g'],
        seq!['j', 'p', 'e', 'g'],
        seq!['p', 'n', 'g'],
        seq!['w', 'e', 'b', 'p'],
        seq!['g', 'i', 'f'],
        seq!['b', 'm', 'p'],
        seq!['a', 'v', 'i', 'f'],
    ]
}

pub open spec fn video_exts() -> Seq<Seq<char>> {
    seq![
        seq!['m', 'p', '4'],
        seq!['m', 'k', 'v'],
        seq!['w', 'e', 'b', 'm'],
        seq!['m', 'o', 'v'],
        seq!['m', '4', 'v'],
    ]
}

/// The kind of a lowercased extension.
pub open spec fn ext_kind(e: Seq<char>) -> MediaKind {
    if image_exts().contains(e) {
        MediaKind::Image
    } else if video_exts().contains(e) {
        MediaKind::Video
    } else {
        MediaKind::Other
    }
}

/// The kind of a path: by its ASCII-lowercased extension.
pub open spec fn spec_media_kind(p: Seq<char>) -> MediaKind {
    match spec_extension(p) {
        Some(e) => ext_kind(ascii_lower(e)),
        None => MediaKind::Other,
    }
}

fn eq_lit(v: &Vec<char>, lit: &[char]) -> (r: bool)
    ensures
        r == (v@ == lit@),
{
    if v.len() != lit.len() {
        return false;
    }
    let mut i: usize = 0;
    while i < v.len()
        invariant
            v.len() == lit@.len(),
            i <= v.len(),
            forall|k: int| 0 <= k < i ==> v@[k] == lit@[k],
        decreases v.len() - i,
    {
        if v[i] != lit[i] {
            return false;
        }
        i = i + 1;
    }
    assert(v@ =~= lit@);
    true
}

fn ext_kind_exec(e: &Vec<char>) -> (r: MediaKind)
    ensures
        r == ext_kind(e@),
{
    let image = eq_lit(e, &['j', 'p', 'g']) || eq_lit(e, &['j', 'p', 'e', 'g']) || eq_lit(e, &['p', 'n', 'g'])
        || eq_lit(e, &['w', 'e', 'b', 'p']) || eq_lit(e, &['g', 'i', 'f']) || eq_lit(e, &['b', 'm', 'p'])
        || eq_lit(e, &['a', 'v', 'i', 'f']);
    let video = eq_lit(e, &['m', 'p', '4']) || eq_lit(e, &['m', 'k', 'v']) || eq_lit(e, &['w', 'e', 'b', 'm'])
        || eq_lit(e, &['m', 'o', 'v']) || eq_lit(e, &['m', '4', 'v']);
    proof {
        let ie = image_exts();
        let ve = video_exts();
        assert(image <==> (e@ == ie[0] || e@ == ie[1] || e@ == ie[2] || e@ == ie[3] || e@ == ie[4] || e@
            == ie[5] || e@ == ie[6]));
        assert(video <==> (e@ == ve[0] || e@ == ve[1] || e@ == ve[2] || e@ == ve[3] || e@ == ve[4]));
        if ie.contains(e@) {
            let k = choose|k: int| 0 <= k < ie.len() && ie[k] == e@;
            assert(image);
        }
        if ve.contains(e@) {
            let k = choose|k: int| 0 <= k < ve.len() && ve[k] == e@;
            assert(video);
        }
        if image {
            assert(ie.contains(e@));
        }
        if video {
            assert(ve.contains(e@));
        }
    }
    if image {
        MediaKind::Image
    } else if video {
        MediaKind::Video
    } else {
        MediaKind::Other
    }
}

/// Classify a path by extension (case-insensitive): jpg, jpeg, png, webp,
/// gif, bmp, avif are images; mp4, mkv, webm, mov, m4v are videos.
pub fn media_kind(path: &str) -> (r: MediaKind)
    ensures
        r == spec_media_kind(path@),
{
    match extension(path) {
        Some(e) => {
            let lowered = to_ascii_lowercase(e.as_str());
            let cs = chars_of(lowered.as_str());
            ext_kind_exec(&cs)
        },
        None => MediaKind::Other,
    }
}

/// Where the trash lives: `<output>/.comfysort/.trash`, under the state dir so
/// it never appears as a scanned destination.
pub fn trash_dir(output_root: &str) -> (r: String)
    ensures
        r@ == spec_join(spec_join(output_root@, STATE_DIR@), ".trash"@),
{
    let state = join(output_root, STATE_DIR);
    join(state.as_str(), ".trash")
}

/// The append-only operation journal: `<output>/.comfysort/journal.jsonl`.
pub fn journal_path(output_root: &str) -> (r: String)
    ensures
        r@ == spec_join(spec_join(output_root@, STATE_DIR@), "journal.jsonl"@),
{
    let state = join(output_root, STATE_DIR);
    join(state.as_str(), "journal.jsonl")
}

/// The managed archive folder that the `=` hotkey defaults to:
/// `<output>/.comfysort/archive`.
pub fn archive_dir(output_root: &str) -> (r: String)
    ensures
        r@ == spec_join(spec_join(output_root@, STATE_DIR@), "archive"@),
{
    let state = join(output_root, STATE_DIR);
    join(state.as_str(), "archive")
}


/// Milliseconds since the Unix epoch, as an `i64`, of a time given as its
/// whole milliseconds since the epoch (`None` for a time before it, or
/// unknown). Counts beyond `i64` wrap, as an `as` cast does.
pub fn system_time_to_ms(since_epoch_ms: Option<u128>) -> (r: Option<i64>)
    ensures
        r == (match since_epoch_ms {
            Some(ms) => Some(ms as i64),
            None => None,
        }),
{
    match since_epoch_ms {
        Some(ms) => Some(ms as i64),
        None => None,
    }
}

/// The alias sibling modules use when building items from file stats.
pub fn system_time_to_ms_pub(since_epoch_ms: Option<u128>) -> (r: Option<i64>)
    ensures
        r == (match since_epoch_ms {
            Some(ms) => Some(ms as i64),
            None => None,
        }),
{
    system_time_to_ms(since_epoch_ms)
}

/// Free and total bytes on the volume holding a path.
#[derive(Debug, Clone, Copy, PartialEq, Eq, Structural)]
pub struct DiskSpace {
    pub free_bytes: u64,
    pub total_bytes: u64,
}

/// Each supported extension (in any ASCII case) has its fixed kind: jpg,
/// jpeg, png, webp, gif, bmp and avif are images; mp4, mkv, webm, mov and
/// m4v are videos; every other extension, and no extension, is neither.
pub proof fn lemma_media_kinds(p: Seq<char>)
    ensures
        spec_extension(p) is None ==> spec_media_kind(p) == MediaKind::Other,
        spec_extension(p) matches Some(e) ==> ({
            let x = ascii_lower(e);
            &&& (x == seq!['j', 'p', 'g'] || x == seq!['j', 'p', 'e', 'g'] || x == seq!['p', 'n', 'g'] || x == seq![
                'w',
                'e',
                'b',
                'p',
            ] || x == seq!['g', 'i', 'f'] || x == seq!['b', 'm', 'p'] || x == seq!['a', 'v', 'i', 'f'])
                <==> spec_media_kind(p) == MediaKind::Image
            &&& (x == seq!['m', 'p', '4'] || x == seq!['m', 'k', 'v'] || x == seq!['w', 'e', 'b', 'm'] || x == seq![
                'm',
                'o',
                'v',
            ] || x == seq!['m', '4', 'v']) <==> spec_media_kind(p) == MediaKind::Video
        }),
{
    match spec_extension(p) {
        Some(e) => {
            let x = ascii_lower(e);
            let ie = image_exts();
            let ve = video_exts();
            if ie.contains(x) {
                let k = choose|k: int| 0 <= k < ie.len() && ie[k] == x;
            }
            if ve.contains(x) {
                let k = choose|k: int| 0 <= k < ve.len() && ve[k] == x;
            }
            if x == seq!['j', 'p', 'g'] { assert(ie[0] == x); }
            if x == seq!['j', 'p', 'e', 'g'] { assert(ie[1] == x); }
            if x == seq!['p', 'n', 'g'] { assert(ie[2] == x); }
            if x == seq!['w', 'e', 'b', 'p'] { assert(ie[3] == x); }
            if x == seq!['g', 'i', 'f'] { assert(ie[4] == x); }
            if x == seq!['b', 'm', 'p'] { assert(ie[5] == x); }
            if x == seq!['a', 'v', 'i', 'f'] { assert(ie[6] == x); }
            if x == seq!['m', 'p', '4'] { assert(ve[0] == x); }
            if x == seq!['m', 'k', 'v'] { assert(ve[1] == x); }
            if x == seq!['w', 'e', 'b', 'm'] { assert(ve[2] == x); }
            if x == seq!['m', 'o', 'v'] { assert(ve[3] == x); }
            if x == seq!['m', '4', 'v'] { assert(ve[4] == x); }
            assert(!(ie.contains(x) && ve.contains(x)));
        },
        None => {},
    }
}
} // verus!
