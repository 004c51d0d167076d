//! Inbox scanning decisions: which directory entries become inbox items,
//! which subfolders a recursive scan descends into, how the inbox is ordered
//! (newest first, then by name), and how a `;`-separated input list splits
//! into folders. Reading directories is the caller's.

use vstd::prelude::*;
use crate::destinations::{is_state_name, label_of};
use crate::domain::{DirEntryInfo, MediaItemDto, MediaKind, STATE_DIR, media_kind, spec_media_kind};
use crate::paths::file_name;
use crate::rank::{RankKey, keys_view, lemma_ranked_in_order, lemma_ranked_map, rank, ranked};
use crate::text::{chars_of, eq_ignore_ascii_case, lex_lt, spec_trim, string_of, trim};

verus! {

/// What a scan does with one directory entry.
#[derive(Debug)]
pub enum InboxEntry {
    /// A subfolder to walk (recursive scans only).
    Descend,
    /// A supported media file.
    Item(MediaItemDto),
    /// Anything else.
    Skip,
}

/// The inbox item made of a media file entry.
pub open spec fn item_of(e: DirEntryInfo) -> (Seq<char>, Seq<char>, MediaKind, u64, Option<i64>) {
    (e.path@, label_of(e.path@), spec_media_kind(e.path@), e.size_bytes, e.modified_ms)
}

/// The abstract value of an inbox item.
pub open spec fn media_view(m: MediaItemDto) -> (Seq<char>, Seq<char>, MediaKind, u64, Option<i64>) {
    (m.path@, m.file_name@, m.kind, m.size_bytes, m.modified_ms)
}

/// What scanning does with entry `e`: a directory is walked (when recursive,
/// and unless it is the state dir), a file of a supported kind becomes an
/// item, everything else (other files, links, special files) is skipped.
pub open spec fn inbox_entry_ok(r: InboxEntry, e: DirEntryInfo, recursive: bool) -> bool {
    if e.is_dir {
        if recursive && !is_state_name(label_of(e.path@)) {
            r is Descend
        } else {
            r is Skip
        }
    } else if !e.is_file || spec_media_kind(e.path@) == MediaKind::Other {
        r is Skip
    } else {
        r matches InboxEntry::Item(m) && media_view(m) == item_of(e)
    }
}

/// Decide what a scan does with one directory entry.
pub fn classify_inbox_entry(e: &DirEntryInfo, recursive: bool) -> (r: InboxEntry)
    ensures
        inbox_entry_ok(r, *e, recursive),
{
    if e.is_dir {
        if !recursive {
            return InboxEntry::Skip;
        }
        let name = match file_name(e.path.as_str()) {
            Some(n) => n,
            None => String::new(),
        };
        assert(name@ == label_of(e.path@));
        if eq_ignore_ascii_case(name.as_str(), STATE_DIR) {
            return InboxEntry::Skip;
        }
        return InboxEntry::Descend;
    }
    if !e.is_file {
        return InboxEntry::Skip;
    }
    let kind = media_kind(e.path.as_str());
    if kind == MediaKind::Other {
        return InboxEntry::Skip;
    }
    let name = match file_name(e.path.as_str()) {
        Some(n) => n,
        None => String::new(),
    };
    InboxEntry::Item(
        MediaItemDto {
            file_name: name,
            kind,
            size_bytes: e.size_bytes,
            modified_ms: e.modified_ms,
            path: e.path.clone(),
        },
    )
}

/// The numeric part of the inbox order: a missing time sorts below every
/// present one.
pub open spec fn mtime_rank(m: Option<i64>) -> int {
    match m {
        Some(t) => t as int,
        None => i64::MIN as int - 1,
    }
}

pub open spec fn inbox_keys(items: Seq<MediaItemDto>) -> Seq<(int, Seq<char>)> {
    items.map_values(|m: MediaItemDto| (mtime_rank(m.modified_ms), m.file_name@))
}

/// Newest first (by modification time, a missing time last), then by file
/// name; items with equal keys keep their order.
pub fn newest_first(items: Vec<MediaItemDto>) -> (r: Vec<MediaItemDto>)
    ensures
        ranked(r@, items@, inbox_keys(items@)),
{
    let mut keys: Vec<RankKey> = Vec::new();
    let mut i: usize = 0;
    while i < items.len()
        invariant
            i <= items.len(),
            keys_view(keys@) == inbox_keys(items@).take(i as int),
        decreases items.len() - i,
    {
        let m = &items[i];
        let major: i128 = match m.modified_ms {
            Some(t) => t as i128,
            None => (i64::MIN as i128) - 1,
        };
        let ghost prev = keys@;
        keys.push(RankKey { major, minor: m.file_name.clone() });
        proof {
            assert(keys_view(keys@) =~= keys_view(prev).push((major as int, m.file_name@)));
            assert(keys_view(keys@) =~= inbox_keys(items@).take(i + 1));
        }
        i = i + 1;
    }
    assert(inbox_keys(items@).take(i as int) =~= inbox_keys(items@));
    rank(items, keys)
}

/// `s` split at every `;` (as `str::split(';')`: `n` separators give `n + 1`
/// pieces).
pub open spec fn split_semicolons(s: Seq<char>) -> Seq<Seq<char>>
    decreases s.len(),
{
    if s.len() == 0 {
        seq![Seq::<char>::empty()]
    } else {
        let p = split_semicolons(s.drop_last());
        if s.last() == ';' {
            p.push(Seq::<char>::empty())
        } else {
            p.update(p.len() - 1, p.last().push(s.last()))
        }
    }
}

/// The trimmed pieces that are not blank, in order.
pub open spec fn nonblank_trimmed(pieces: Seq<Seq<char>>) -> Seq<Seq<char>>
    decreases pieces.len(),
{
    if pieces.len() == 0 {
        Seq::empty()
    } else {
        let prev = nonblank_trimmed(pieces.drop_last());
        let t = spec_trim(pieces.last());
        if t.len() > 0 {
            prev.push(t)
        } else {
            prev
        }
    }
}

/// The input folders of a session: the `;`-separated entries of `input`,
/// trimmed, blank ones dropped.
pub open spec fn spec_input_dirs(input: Seq<char>) -> Seq<Seq<char>> {
    nonblank_trimmed(split_semicolons(input))
}

proof fn lemma_split_nonempty(s: Seq<char>)
    ensures
        split_semicolons(s).len() >= 1,
    decreases s.len(),
{
    if s.len() > 0 {
        lemma_split_nonempty(s.drop_last());
    }
}

/// Split a `;`-separated list of input folders, trimming each entry and
/// dropping blank ones.
pub fn input_dirs(input: &str) -> (r: Vec<String>)
    ensures
        r@.map_values(|s: String| s@) == spec_input_dirs(input@),
{
    let cs = chars_of(input);
    let mut done: Vec<Vec<char>> = Vec::new();
    let mut cur: Vec<char> = Vec::new();
    let mut i: usize = 0;
    proof {
        assert(cs@.take(0) =~= Seq::<char>::empty());
        assert(done@.map_values(|v: Vec<char>| v@).push(cur@) =~= split_semicolons(cs@.take(0)));
    }
    while i < cs.len()
        invariant
            cs@ == input@,
            i <= cs.len(),
            done@.map_values(|v: Vec<char>| v@).push(cur@) == split_semicolons(cs@.take(i as int)),
        decreases cs.len() - i,
    {
        let ghost t = cs@.take(i + 1);
        proof {
            assert(t.drop_last() =~= cs@.take(i as int));
            assert(t.last() == cs@[i as int]);
        }
        let c = cs[i];
        if c == ';' {
            let mut finished: Vec<char> = Vec::new();
            std::mem::swap(&mut finished, &mut cur);
            let ghost prev = done@;
            done.push(finished);
            proof {
                assert(done@.map_values(|v: Vec<char>| v@) =~= prev.map_values(|v: Vec<char>| v@).push(finished@));
                assert(done@.map_values(|v: Vec<char>| v@).push(cur@) =~= split_semicolons(t));
            }
        } else {
            let ghost prev_cur = cur@;
            cur.push(c);
            proof {
                let d = done@.map_values(|v: Vec<char>| v@);
                let p = split_semicolons(cs@.take(i as int));
                assert(p == d.push(prev_cur));
                assert(d.push(cur@) =~= p.update(p.len() - 1, p.last().push(c)));
            }
        }
        i = i + 1;
    }
    proof {
        assert(cs@.take(i as int) =~= cs@);
    }
    let ghost pieces = split_semicolons(input@);
    let mut out: Vec<String> = Vec::new();
    let mut k: usize = 0;
    proof {
        assert(pieces.len() == done.len() + 1);
        assert(pieces.take(0) =~= Seq::<Seq<char>>::empty());
        assert(out@.map_values(|s: String| s@) =~= nonblank_trimmed(pieces.take(0)));
    }
    while k <= done.len()
        invariant
            pieces.len() == done.len() + 1,
            pieces == split_semicolons(input@),
            pieces == done@.map_values(|v: Vec<char>| v@).push(cur@),
            k <= done.len() + 1,
            out@.map_values(|s: String| s@) == nonblank_trimmed(pieces.take(k as int)),
        decreases done.len() + 1 - k,
    {
        let piece: String = if k < done.len() {
            string_of(&done[k])
        } else {
            string_of(&cur)
        };
        assert(piece@ == pieces[k as int]);
        let t = trim(piece.as_str());
        proof {
            assert(pieces.take(k + 1).drop_last() =~= pieces.take(k as int));
            assert(pieces.take(k + 1).last() == pieces[k as int]);
        }
        if !t.as_str().is_empty() {
            let ghost prev = out@;
            out.push(t);
            proof {
                assert(out@.map_values(|s: String| s@) =~= prev.map_values(|s: String| s@).push(t@));
            }
        }
        assert(out@.map_values(|s: String| s@) == nonblank_trimmed(pieces.take(k + 1)));
        if k == done.len() {
            proof {
                assert(pieces.take(k + 1) =~= pieces);
            }
            return out;
        }
        k = k + 1;
    }
    proof {
        assert(pieces.take(k as int) =~= pieces);
    }
    out
}


/// The inbox items (as abstract values) among the entries `es`, in order.
pub open spec fn items_of(es: Seq<DirEntryInfo>) -> Seq<(Seq<char>, Seq<char>, MediaKind, u64, Option<i64>)>
    decreases es.len(),
{
    if es.len() == 0 {
        Seq::empty()
    } else {
        let prev = items_of(es.drop_last());
        let e = es.last();
        if !e.is_dir && e.is_file && spec_media_kind(e.path@) != MediaKind::Other {
            prev.push(item_of(e))
        } else {
            prev
        }
    }
}

/// The inbox order on abstract items: newest first, then by file name.
pub open spec fn item_keys(vs: Seq<(Seq<char>, Seq<char>, MediaKind, u64, Option<i64>)>) -> Seq<(int, Seq<char>)> {
    vs.map_values(|v: (Seq<char>, Seq<char>, MediaKind, u64, Option<i64>)| (mtime_rank(v.4), v.1))
}

pub open spec fn media_views(ms: Seq<MediaItemDto>) -> Seq<(Seq<char>, Seq<char>, MediaKind, u64, Option<i64>)> {
    ms.map_values(|m: MediaItemDto| media_view(m))
}

/// The inbox of one input folder: the supported media files among
/// `entries` (every entry the scan met, in walk order; the caller descends
/// where [`classify_inbox_entry`] says `Descend`), newest first, then by
/// name.
pub fn scan_inbox(entries: &Vec<DirEntryInfo>, recursive: bool) -> (r: Vec<MediaItemDto>)
    ensures
        ranked(media_views(r@), items_of(entries@), item_keys(items_of(entries@))),
{
    let mut items: Vec<MediaItemDto> = Vec::new();
    let mut i: usize = 0;
    while i < entries.len()
        invariant
            i <= entries.len(),
            media_views(items@) == items_of(entries@.take(i as int)),
        decreases entries.len() - i,
    {
        let e = &entries[i];
        proof {
            assert(entries@.take(i + 1).drop_last() =~= entries@.take(i as int));
            assert(entries@.take(i + 1).last() == *e);
        }
        match classify_inbox_entry(e, recursive) {
            InboxEntry::Item(m) => {
                let ghost before = items@;
                items.push(m);
                proof {
                    assert(media_views(items@) =~= media_views(before).push(media_view(m)));
                }
            },
            _ => {},
        }
        i = i + 1;
    }
    proof {
        assert(entries@.take(i as int) =~= entries@);
    }
    let ghost iv = items@;
    let r = newest_first(items);
    proof {
        lemma_ranked_map(r@, iv, inbox_keys(iv), |m: MediaItemDto| media_view(m));
        assert(inbox_keys(iv) =~= item_keys(media_views(iv)));
        assert(r@.map_values(|m: MediaItemDto| media_view(m)) == media_views(r@));
        assert(iv.map_values(|m: MediaItemDto| media_view(m)) == media_views(iv));
    }
    r
}

/// The inbox of several input folders: their items (`lists`, one list per
/// folder in input order) merged into one list, newest first, then by name.
pub fn scan_inputs(lists: Vec<Vec<MediaItemDto>>) -> (r: Vec<MediaItemDto>)
    ensures
        ranked(
            r@,
            lists@.map_values(|v: Vec<MediaItemDto>| v@).flatten(),
            inbox_keys(lists@.map_values(|v: Vec<MediaItemDto>| v@).flatten()),
        ),
{
    let ghost ls = lists@.map_values(|v: Vec<MediaItemDto>| v@);
    let mut lists = lists;
    let mut all: Vec<MediaItemDto> = Vec::new();
    let mut i: usize = 0;
    let n = lists.len();
    proof {
        assert(ls.take(0) =~= Seq::<Seq<MediaItemDto>>::empty());
    }
    while i < n
        invariant
            n == lists.len(),
            ls.len() == n,
            i <= n,
            forall|k: int| i <= k < n ==> #[trigger] lists@[k]@ == ls[k],
            all@ == ls.take(i as int).flatten(),
        decreases n - i,
    {
        let mut part: Vec<MediaItemDto> = Vec::new();
        std::mem::swap(&mut part, &mut lists[i]);
        proof {
            assert(part@ == ls[i as int]);
            assert(ls.take(i + 1) =~= ls.take(i as int).push(ls[i as int]));
            ls.take(i as int).lemma_flatten_push(ls[i as int]);
        }
        all.append(&mut part);
        i = i + 1;
    }
    proof {
        assert(ls.take(i as int) =~= ls);
    }
    newest_first(all)
}

impl MediaItemDto {
    /// The inbox item for a path, built from its stat (`entry`, which the
    /// caller reads by following links): a regular file of a supported kind
    /// gives an item, anything else none.
    pub fn from_path(entry: &DirEntryInfo) -> (r: Option<MediaItemDto>)
        ensures
            !entry.is_file || spec_media_kind(entry.path@) == MediaKind::Other ==> r is None,
            entry.is_file && spec_media_kind(entry.path@) != MediaKind::Other ==> ({
                &&& r matches Some(m)
                &&& media_view(m) == item_of(*entry)
            }),
    {
        if !entry.is_file {
            return None;
        }
        let kind = media_kind(entry.path.as_str());
        if kind == MediaKind::Other {
            return None;
        }
        let name = match file_name(entry.path.as_str()) {
            Some(n) => n,
            None => String::new(),
        };
        Some(
            MediaItemDto {
                file_name: name,
                kind,
                size_bytes: entry.size_bytes,
                modified_ms: entry.modified_ms,
                path: entry.path.clone(),
            },
        )
    }
}

/// The inbox is newest first: an item with a modification time never comes
/// after one without, or after an older one; items with the same time (or
/// both without) are in file-name order.
pub proof fn lemma_inbox_order(
    out: Seq<(Seq<char>, Seq<char>, MediaKind, u64, Option<i64>)>,
    items: Seq<(Seq<char>, Seq<char>, MediaKind, u64, Option<i64>)>,
)
    requires
        ranked(out, items, item_keys(items)),
    ensures
        forall|a: int, b: int|
            0 <= a < b < out.len() ==> ((#[trigger] out[b]).4 matches Some(tb) ==> (#[trigger] out[a]).4 matches Some(ta)
                && ta >= tb),
        forall|a: int, b: int|
            0 <= a < b < out.len() && (#[trigger] out[a]).4 == (#[trigger] out[b]).4 ==> out[a].1 == out[b].1 || lex_lt(
                out[a].1,
                out[b].1,
            ),
{
    let f = |v: (Seq<char>, Seq<char>, MediaKind, u64, Option<i64>)| (mtime_rank(v.4), v.1);
    assert(item_keys(items) =~= items.map_values(f));
    lemma_ranked_in_order(out, items, f);
    assert forall|a: int, b: int| 0 <= a < b < out.len() implies ((#[trigger] out[b]).4 matches Some(tb) ==> (
    #[trigger] out[a]).4 matches Some(ta) && ta >= tb) by {
        assert(f(out[a]) == (mtime_rank(out[a].4), out[a].1));
        assert(f(out[b]) == (mtime_rank(out[b].4), out[b].1));
    }
    assert forall|a: int, b: int| 0 <= a < b < out.len() && (#[trigger] out[a]).4 == (#[trigger] out[b]).4 implies out[a].1
        == out[b].1 || lex_lt(out[a].1, out[b].1) by {
        assert(f(out[a]) == (mtime_rank(out[a].4), out[a].1));
        assert(f(out[b]) == (mtime_rank(out[b].4), out[b].1));
    }
}

/// A merged inbox is newest first, the same way: an item with a
/// modification time never comes after one without, or after an older one;
/// items with the same time are in file-name order.
pub proof fn lemma_merged_inbox_order(out: Seq<MediaItemDto>, items: Seq<MediaItemDto>)
    requires
        ranked(out, items, inbox_keys(items)),
    ensures
        forall|a: int, b: int|
            0 <= a < b < out.len() ==> ((#[trigger] out[b]).modified_ms matches Some(tb) ==> (
            #[trigger] out[a]).modified_ms matches Some(ta) && ta >= tb),
        forall|a: int, b: int|
            0 <= a < b < out.len() && (#[trigger] out[a]).modified_ms == (#[trigger] out[b]).modified_ms ==> out[a].file_name@
                == out[b].file_name@ || lex_lt(out[a].file_name@, out[b].file_name@),
{
    let f = |m: MediaItemDto| (mtime_rank(m.modified_ms), m.file_name@);
    assert(inbox_keys(items) =~= items.map_values(f));
    lemma_ranked_in_order(out, items, f);
    assert forall|a: int, b: int| 0 <= a < b < out.len() implies ((#[trigger] out[b]).modified_ms matches Some(tb) ==> (
    #[trigger] out[a]).modified_ms matches Some(ta) && ta >= tb) by {
        assert(f(out[a]) == (mtime_rank(out[a].modified_ms), out[a].file_name@));
        assert(f(out[b]) == (mtime_rank(out[b].modified_ms), out[b].file_name@));
    }
    assert forall|a: int, b: int|
        0 <= a < b < out.len() && (#[trigger] out[a]).modified_ms == (#[trigger] out[b]).modified_ms implies out[a].file_name@
            == out[b].file_name@ || lex_lt(out[a].file_name@, out[b].file_name@) by {
        assert(f(out[a]) == (mtime_rank(out[a].modified_ms), out[a].file_name@));
        assert(f(out[b]) == (mtime_rank(out[b].modified_ms), out[b].file_name@));
    }
}
} // verus!
