//! Destination scanning: child folders of the output root become sort targets.
//!
//! The scanner never auto-grabs digit slots: scanned folders get no hotkey.
//! Hotkeys come only from user binds, applied by the session. Trash always
//! binds to `0`. Listing the directory and counting media are the caller's;
//! this module decides what the listing becomes.

use vstd::prelude::*;
use crate::domain::{DestV, DestinationDto, DirEntryInfo, MediaKind, STATE_DIR, dest_view, dests_view, media_kind,
    spec_media_kind, trash_dir};
use crate::ignore::IgnoreSet;
use crate::paths::{file_name, spec_file_name, spec_join};
use crate::rank::{RankKey, is_ranking, lemma_ranked_in_order, lemma_ranked_map, rank, ranked, keys_view};
use crate::text::{ascii_lower, eq_ignore_ascii_case, lex_lt, owned, str_eq};

verus! {

/// The display name of a folder: its file name, or empty.
pub open spec fn label_of(path: Seq<char>) -> Seq<char> {
    match spec_file_name(path) {
        Some(n) => n,
        None => Seq::empty(),
    }
}

/// A name equal to the state directory's, ignoring ASCII case.
pub open spec fn is_state_name(name: Seq<char>) -> bool {
    ascii_lower(name) == ascii_lower(STATE_DIR@)
}

/// A top-level folder that is the trash: `.trash`, or `trash` in any ASCII case.
pub open spec fn is_trash_label(label: Seq<char>) -> bool {
    label == ".trash"@ || ascii_lower(label) == ascii_lower("trash"@)
}

/// An entry of the output root that becomes a sort target.
pub open spec fn is_target(e: DirEntryInfo, ignores: IgnoreSet) -> bool {
    e.is_dir && !is_state_name(label_of(e.path@)) && !ignores.spec_is_ignored(e.path@)
}

/// The destination made of a scanned folder.
pub open spec fn scanned_dest(e: DirEntryInfo, count: usize) -> DestV {
    DestV {
        label: label_of(e.path@),
        path: e.path@,
        hotkey: None,
        is_trash: is_trash_label(label_of(e.path@)),
        media_count: count as nat,
    }
}

/// The non-trash targets, in listing order.
pub open spec fn normal_dests(es: Seq<DirEntryInfo>, counts: Seq<usize>, ignores: IgnoreSet) -> Seq<DestV>
    decreases es.len(),
{
    if es.len() == 0 || counts.len() == 0 {
        Seq::empty()
    } else {
        let prev = normal_dests(es.drop_last(), counts.drop_last(), ignores);
        if is_target(es.last(), ignores) && !is_trash_label(label_of(es.last().path@)) {
            prev.push(scanned_dest(es.last(), counts.last()))
        } else {
            prev
        }
    }
}

/// The last trash folder in listing order, if any.
pub open spec fn last_trash(es: Seq<DirEntryInfo>, counts: Seq<usize>, ignores: IgnoreSet) -> Option<DestV>
    decreases es.len(),
{
    if es.len() == 0 || counts.len() == 0 {
        None
    } else if is_target(es.last(), ignores) && is_trash_label(label_of(es.last().path@)) {
        Some(scanned_dest(es.last(), counts.last()))
    } else {
        last_trash(es.drop_last(), counts.drop_last(), ignores)
    }
}

/// The virtual trash target `<output>/.comfysort/.trash`, used when the output
/// root has no trash folder of its own.
pub open spec fn synthetic_trash(output_root: Seq<char>, count: usize) -> DestV {
    DestV {
        label: "trash"@,
        path: spec_join(spec_join(output_root, STATE_DIR@), ".trash"@),
        hotkey: Some("0"@),
        is_trash: true,
        media_count: count as nat,
    }
}

/// Destinations sort by label.
pub open spec fn label_keys(ds: Seq<DestV>) -> Seq<(int, Seq<char>)> {
    ds.map_values(|d: DestV| (0int, d.label))
}

/// The trash target as scanned, bound to `0`.
pub open spec fn bound_trash(t: Option<DestV>, output_root: Seq<char>, trash_count: usize) -> DestV {
    match t {
        Some(d) => DestV { hotkey: Some("0"@), ..d },
        None => synthetic_trash(output_root, trash_count),
    }
}

/// Scan the output root's immediate child directories as destinations, given
/// its listing (`entries`), the media count of each entry (`counts`, used for
/// directories) and that of `<output>/.comfysort/.trash` (`trash_count`).
/// The reserved `.comfysort` state dir and ignored folders are excluded. The
/// folders come sorted by label; the trash comes last, bound to `0`: the
/// top-level `.trash`/`trash` folder if there is one, else the virtual one.
pub fn scan_destinations(
    output_root: &str,
    ignores: &IgnoreSet,
    entries: &Vec<DirEntryInfo>,
    counts: &Vec<usize>,
    trash_count: usize,
) -> (r: Vec<DestinationDto>)
    requires
        counts.len() == entries.len(),
    ensures
        r.len() >= 1,
        ranked(
            dests_view(r@.drop_last()),
            normal_dests(entries@, counts@, *ignores),
            label_keys(normal_dests(entries@, counts@, *ignores)),
        ),
        dest_view(r@.last()) == bound_trash(last_trash(entries@, counts@, *ignores), output_root@, trash_count),
{
    let mut normal: Vec<DestinationDto> = Vec::new();
    let mut keys: Vec<RankKey> = Vec::new();
    let mut trash: Option<DestinationDto> = None;
    let mut i: usize = 0;
    while i < entries.len()
        invariant
            counts.len() == entries.len(),
            i <= entries.len(),
            normal.len() == keys.len(),
            dests_view(normal@) == normal_dests(entries@.take(i as int), counts@.take(i as int), *ignores),
            keys_view(keys@) == label_keys(dests_view(normal@)),
            match trash {
                Some(t) => last_trash(entries@.take(i as int), counts@.take(i as int), *ignores) == Some(dest_view(t)),
                None => last_trash(entries@.take(i as int), counts@.take(i as int), *ignores) is None,
            },
        decreases entries.len() - i,
    {
        let e = &entries[i];
        proof {
            assert(entries@.take(i + 1).drop_last() =~= entries@.take(i as int));
            assert(counts@.take(i + 1).drop_last() =~= counts@.take(i as int));
            assert(entries@.take(i + 1).last() == entries@[i as int]);
            assert(counts@.take(i + 1).last() == counts@[i as int]);
        }
        if e.is_dir {
            let label = match file_name(e.path.as_str()) {
                Some(n) => n,
                None => String::new(),
            };
            assert(label@ == label_of(e.path@));
            if !eq_ignore_ascii_case(label.as_str(), STATE_DIR) && !ignores.is_ignored(e.path.as_str()) {
                let is_trash = str_eq(label.as_str(), ".trash") || eq_ignore_ascii_case(label.as_str(), "trash");
                let key_label = label.clone();
                let dto = DestinationDto {
                    media_count: counts[i],
                    label,
                    path: e.path.clone(),
                    hotkey: None,
                    is_trash,
                };
                assert(dest_view(dto) == scanned_dest(entries@[i as int], counts@[i as int]));
                if is_trash {
                    trash = Some(dto);
                } else {
                    let ghost prev = normal@;
                    let ghost prev_keys = keys@;
                    normal.push(dto);
                    keys.push(RankKey { major: 0, minor: key_label });
                    proof {
                        assert(dests_view(normal@) =~= dests_view(prev).push(dest_view(dto)));
                        assert(keys_view(keys@) =~= keys_view(prev_keys).push((0int, key_label@)));
                        assert(label_keys(dests_view(normal@)) =~= label_keys(dests_view(prev)).push((0int, key_label@)));
                    }
                }
            }
        }
        i = i + 1;
    }
    proof {
        assert(entries@.take(i as int) =~= entries@);
        assert(counts@.take(i as int) =~= counts@);
    }
    let ghost nv = dests_view(normal@);
    let sorted = rank(normal, keys);
    proof {
        lemma_ranked_map(sorted@, normal@, keys_view(keys@), |d: DestinationDto| dest_view(d));
        assert(sorted@.map_values(|d: DestinationDto| dest_view(d)) =~= dests_view(sorted@));
        assert(normal@.map_values(|d: DestinationDto| dest_view(d)) =~= nv);
    }
    let mut out = sorted;
    let t = match trash {
        Some(mut t) => {
            t.hotkey = Some(owned("0"));
            t
        },
        None => {
            let path = trash_dir(output_root);
            DestinationDto {
                media_count: trash_count,
                label: owned("trash"),
                path,
                hotkey: Some(owned("0")),
                is_trash: true,
            }
        },
    };
    let ghost before_push = out@;
    out.push(t);
    proof {
        assert(out@.drop_last() =~= before_push);
    }
    out
}


/// An entry that counts as a media file: a regular file of a supported kind.
pub open spec fn is_media_file(e: DirEntryInfo) -> bool {
    e.is_file && spec_media_kind(e.path@) != MediaKind::Other
}

/// How many of the entries `es` are media files.
pub open spec fn media_file_count(es: Seq<DirEntryInfo>) -> nat
    decreases es.len(),
{
    if es.len() == 0 {
        0
    } else {
        media_file_count(es.drop_last()) + if is_media_file(es.last()) {
            1nat
        } else {
            0nat
        }
    }
}

/// Count the immediate media files of a folder, given its listing
/// (`entries`; the caller passes none for an unreadable or missing folder).
pub fn count_media(entries: &Vec<DirEntryInfo>) -> (r: usize)
    ensures
        r == media_file_count(entries@),
{
    let mut n: usize = 0;
    let mut i: usize = 0;
    while i < entries.len()
        invariant
            i <= entries.len(),
            n == media_file_count(entries@.take(i as int)),
            n <= i,
        decreases entries.len() - i,
    {
        let e = &entries[i];
        proof {
            assert(entries@.take(i + 1).drop_last() =~= entries@.take(i as int));
            assert(entries@.take(i + 1).last() == *e);
        }
        if e.is_file && media_kind(e.path.as_str()) != MediaKind::Other {
            n = n + 1;
        }
        i = i + 1;
    }
    assert(entries@.take(i as int) =~= entries@);
    n
}

// ---------------------------------------------------------------------------
// Laws of the scan
// ---------------------------------------------------------------------------

proof fn lemma_normal_unbound(es: Seq<DirEntryInfo>, counts: Seq<usize>, ignores: IgnoreSet)
    ensures
        forall|k: int|
            0 <= k < normal_dests(es, counts, ignores).len() ==> (#[trigger] normal_dests(es, counts, ignores)[k]).hotkey
                is None && !normal_dests(es, counts, ignores)[k].is_trash,
    decreases es.len(),
{
    if es.len() > 0 && counts.len() > 0 {
        lemma_normal_unbound(es.drop_last(), counts.drop_last(), ignores);
    }
}

proof fn lemma_last_trash_is_trash(es: Seq<DirEntryInfo>, counts: Seq<usize>, ignores: IgnoreSet)
    ensures
        last_trash(es, counts, ignores) matches Some(t) ==> t.is_trash,
    decreases es.len(),
{
    if es.len() > 0 && counts.len() > 0 {
        lemma_last_trash_is_trash(es.drop_last(), counts.drop_last(), ignores);
    }
}

/// The scanner never grabs a hotkey slot: every scanned folder comes
/// without a hotkey and none of them is the trash; the trash row that ends
/// the list is bound to `0`.
pub proof fn lemma_scan_binds_only_trash(
    out: Seq<DestV>,
    trash: DestV,
    entries: Seq<DirEntryInfo>,
    counts: Seq<usize>,
    ignores: IgnoreSet,
    output_root: Seq<char>,
    trash_count: usize,
)
    requires
        ranked(out, normal_dests(entries, counts, ignores), label_keys(normal_dests(entries, counts, ignores))),
        trash == bound_trash(last_trash(entries, counts, ignores), output_root, trash_count),
    ensures
        forall|k: int| 0 <= k < out.len() ==> (#[trigger] out[k]).hotkey is None && !out[k].is_trash,
        trash.hotkey == Some("0"@),
        trash.is_trash,
{
    let n = normal_dests(entries, counts, ignores);
    lemma_normal_unbound(entries, counts, ignores);
    lemma_last_trash_is_trash(entries, counts, ignores);
    let p = choose|p: Seq<int>|
        #[trigger] is_ranking(label_keys(n), p) && out.len() == p.len() && forall|k: int|
            0 <= k < p.len() ==> #[trigger] out[k] == n[p[k]];
    assert forall|k: int| 0 <= k < out.len() implies (#[trigger] out[k]).hotkey is None && !out[k].is_trash by {
        assert(out[k] == n[p[k]]);
        assert(0 <= p[k] < label_keys(n).len());
    }
}

/// Sort targets are in label order, whatever their media counts.
pub proof fn lemma_targets_by_label(out: Seq<DestV>, normal: Seq<DestV>)
    requires
        ranked(out, normal, label_keys(normal)),
    ensures
        forall|a: int, b: int|
            0 <= a < b < out.len() ==> (#[trigger] out[a]).label == (#[trigger] out[b]).label || lex_lt(
                out[a].label,
                out[b].label,
            ),
{
    let f = |d: DestV| (0int, d.label);
    assert(label_keys(normal) =~= normal.map_values(f));
    lemma_ranked_in_order(out, normal, f);
    assert forall|a: int, b: int| 0 <= a < b < out.len() implies (#[trigger] out[a]).label == (#[trigger] out[b]).label
        || lex_lt(out[a].label, out[b].label) by {
        assert(f(out[a]) == (0int, out[a].label));
        assert(f(out[b]) == (0int, out[b].label));
    }
}
} // verus!
