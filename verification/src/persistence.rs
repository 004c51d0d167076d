//! Per-output-root hotkey bindings made by the user.
//!
//! Bindings map a hotkey to a folder. Paths are stored relative to the output
//! root (when they lie under it) so a tree can be relocated without losing its
//! bindings. Reading and writing `bindings.json` is the caller's job; this
//! module holds the table and its rules.

use vstd::prelude::*;
use crate::domain::STATE_DIR;
use crate::paths::{is_absolute, join, path_eq, spec_is_absolute, spec_join, spec_path_eq, spec_starts_with,
    spec_strip_prefix, starts_with, strip_prefix};
use crate::text::{chars_of, compare_str, lex_lt, lemma_lex_transitive, lemma_lex_irreflexive, owned, push_char, Order3};

verus! {

/// The schema version written by this engine.
pub const CURRENT_VERSION: u32 = 1;

/// The abstract value of a table entry: (key, path).
pub open spec fn entry_view(e: (String, String)) -> (Seq<char>, Seq<char>) {
    (e.0@, e.1@)
}

pub open spec fn entries_view(es: Seq<(String, String)>) -> Seq<(Seq<char>, Seq<char>)> {
    es.map_values(|e: (String, String)| entry_view(e))
}

/// Keys sort strictly ascending, so each key occurs once and the table lists
/// its entries in key order (the order of a `BTreeMap`).
pub open spec fn keys_sorted(es: Seq<(Seq<char>, Seq<char>)>) -> bool {
    forall|a: int, b: int| 0 <= a < b < es.len() ==> lex_lt(#[trigger] es[a].0, #[trigger] es[b].0)
}

/// The position of `key` in a key-sorted table, if present.
pub open spec fn has_key(es: Seq<(Seq<char>, Seq<char>)>, key: Seq<char>) -> bool {
    exists|i: int| 0 <= i < es.len() && #[trigger] es[i].0 == key
}

/// A table from hotkey strings to paths, ordered by key.
#[derive(Debug, PartialEq, Eq)]
pub struct HotkeyTable {
    entries: Vec<(String, String)>,
}

impl Clone for HotkeyTable {
    fn clone(&self) -> (r: Self)
        ensures
            r.view_entries() == self.view_entries(),
    {
        proof {
            use_type_invariant(self);
        }
        let mut entries: Vec<(String, String)> = Vec::new();
        let mut i: usize = 0;
        while i < self.entries.len()
            invariant
                i <= self.entries.len(),
                entries_view(entries@) == entries_view(self.entries@).take(i as int),
            decreases self.entries.len() - i,
        {
            let e = &self.entries[i];
            let k = e.0.clone();
            let v = e.1.clone();
            let ghost prev = entries@;
            entries.push((k, v));
            proof {
                assert(entry_view(self.entries@[i as int]) == (k@, v@));
                assert(entries@ == prev.push((k, v)));
                assert(entries_view(entries@) =~= entries_view(prev).push((k@, v@)));
                assert(entries_view(entries@) =~= entries_view(self.entries@).take(i + 1));
            }
            i = i + 1;
        }
        proof {
            assert(entries_view(self.entries@).take(i as int) =~= entries_view(self.entries@));
        }
        HotkeyTable { entries }
    }
}

impl HotkeyTable {
    /// The entries, in key order.
    pub closed spec fn view_entries(&self) -> Seq<(Seq<char>, Seq<char>)> {
        entries_view(self.entries@)
    }

    #[verifier::type_invariant]
    closed spec fn sorted_inv(&self) -> bool {
        keys_sorted(entries_view(self.entries@))
    }

    /// An empty table.
    pub fn new() -> (r: Self)
        ensures
            r.view_entries() == Seq::<(Seq<char>, Seq<char>)>::empty(),
    {
        let r = HotkeyTable { entries: Vec::new() };
        assert(r.view_entries() =~= Seq::<(Seq<char>, Seq<char>)>::empty());
        r
    }

    pub fn len(&self) -> (r: usize)
        ensures
            r == self.view_entries().len(),
    {
        self.entries.len()
    }

    pub fn is_empty(&self) -> (r: bool)
        ensures
            r == (self.view_entries().len() == 0),
    {
        self.entries.len() == 0
    }

    /// The entry at position `i` in key order.
    pub fn entry(&self, i: usize) -> (r: (&String, &String))
        requires
            i < self.view_entries().len(),
        ensures
            (r.0@, r.1@) == self.view_entries()[i as int],
    {
        let e = &self.entries[i];
        (&e.0, &e.1)
    }

    /// Where `key` sits, or where it would be inserted.
    fn find(&self, key: &str) -> (r: (usize, bool))
        ensures
            r.0 <= self.view_entries().len(),
            r.1 ==> r.0 < self.view_entries().len() && self.view_entries()[r.0 as int].0 == key@,
            !r.1 ==> !has_key(self.view_entries(), key@),
            forall|k: int| 0 <= k < r.0 ==> lex_lt(#[trigger] self.view_entries()[k].0, key@),
            !r.1 && r.0 < self.view_entries().len() ==> lex_lt(key@, self.view_entries()[r.0 as int].0),
    {
        proof {
            use_type_invariant(self);
        }
        let ghost es = self.view_entries();
        let mut i: usize = 0;
        while i < self.entries.len()
            invariant
                es == self.view_entries(),
                keys_sorted(es),
                i <= es.len(),
                forall|k: int| 0 <= k < i ==> lex_lt(#[trigger] es[k].0, key@),
            decreases self.entries.len() - i,
        {
            assert(es[i as int] == entry_view(self.entries@[i as int]));
            match compare_str(self.entries[i].0.as_str(), key) {
                Order3::Less => {
                    i = i + 1;
                },
                Order3::Equal => {
                    return (i, true);
                },
                Order3::Greater => {
                    proof {
                        assert forall|j: int| 0 <= j < es.len() implies #[trigger] es[j].0 != key@ by {
                            if j < i {
                                lemma_lex_irreflexive(key@);
                            } else if j > i {
                                lemma_lex_transitive(key@, es[i as int].0, es[j].0);
                                lemma_lex_irreflexive(key@);
                            } else {
                                lemma_lex_irreflexive(key@);
                            }
                        }
                    }
                    return (i, false);
                },
            }
        }
        proof {
            assert forall|j: int| 0 <= j < es.len() implies #[trigger] es[j].0 != key@ by {
                lemma_lex_irreflexive(key@);
            }
        }
        (i, false)
    }

    /// The path bound to `key`, if any.
    pub fn get(&self, key: &str) -> (r: Option<&String>)
        ensures
            r is Some <==> has_key(self.view_entries(), key@),
            r matches Some(v) ==> exists|i: int|
                0 <= i < self.view_entries().len() && #[trigger] self.view_entries()[i] == (key@, v@),
    {
        let (i, found) = self.find(key);
        if found {
            proof {
                assert(self.view_entries()[i as int] == entry_view(self.entries@[i as int]));
            }
            Some(&self.entries[i].1)
        } else {
            None
        }
    }

    /// Bind `key` to `value`, replacing an existing binding for `key`.
    pub fn insert(&mut self, key: String, value: String)
        ensures
            has_key(old(self).view_entries(), key@) ==> exists|i: int|
                0 <= i < old(self).view_entries().len() && old(self).view_entries()[i].0 == key@
                    && #[trigger] final(self).view_entries() == old(self).view_entries().update(i, (key@, value@)),
            !has_key(old(self).view_entries(), key@) ==> exists|i: int|
                0 <= i <= old(self).view_entries().len() && #[trigger] final(self).view_entries()
                    == old(self).view_entries().insert(i, (key@, value@)),
    {
        proof {
            use_type_invariant(&*self);
        }
        let ghost es = self.view_entries();
        let (i, found) = self.find(key.as_str());
        if found {
            let ghost k = key@;
            let ghost v = value@;
            let mut entries: Vec<(String, String)> = Vec::new();
            std::mem::swap(&mut entries, &mut self.entries);
            entries.set(i, (key, value));
            proof {
                assert(entries_view(entries@) =~= es.update(i as int, (k, v)));
                assert forall|a: int, b: int| 0 <= a < b < entries@.len() implies lex_lt(
                    #[trigger] entries_view(entries@)[a].0,
                    #[trigger] entries_view(entries@)[b].0,
                ) by {
                    assert(entries_view(entries@)[a].0 == es[a].0);
                    assert(entries_view(entries@)[b].0 == es[b].0);
                }
            }
            self.entries = entries;
        } else {
            let ghost k = key@;
            let ghost v = value@;
            let mut entries: Vec<(String, String)> = Vec::new();
            std::mem::swap(&mut entries, &mut self.entries);
            entries.insert(i, (key, value));
            proof {
                let nv = entries_view(entries@);
                assert(nv =~= es.insert(i as int, (k, v)));
                assert forall|a: int, b: int| 0 <= a < b < nv.len() implies lex_lt(#[trigger] nv[a].0, #[trigger] nv[b].0) by {
                    if a < i && b < i {
                        assert(nv[a] == es[a]);
                        assert(nv[b] == es[b]);
                    } else if a < i && b == i {
                        assert(nv[a] == es[a]);
                    } else if a < i && b > i {
                        assert(nv[a] == es[a]);
                        assert(nv[b] == es[b - 1]);
                    } else if a == i {
                        assert(nv[b] == es[b - 1]);
                        if b - 1 > i {
                            lemma_lex_transitive(k, es[i as int].0, es[b - 1].0);
                        }
                    } else {
                        assert(nv[a] == es[a - 1]);
                        assert(nv[b] == es[b - 1]);
                    }
                }
            }
            self.entries = entries;
        }
    }

    /// Replace the path of the entry at position `i`, keeping its key.
    pub fn set_value(&mut self, i: usize, value: String)
        requires
            i < old(self).view_entries().len(),
        ensures
            final(self).view_entries() == old(self).view_entries().update(
                i as int,
                (old(self).view_entries()[i as int].0, value@),
            ),
    {
        proof {
            use_type_invariant(&*self);
        }
        let ghost es = self.view_entries();
        let mut entries: Vec<(String, String)> = Vec::new();
        std::mem::swap(&mut entries, &mut self.entries);
        let key = entries[i].0.clone();
        let ghost v = value@;
        entries.set(i, (key, value));
        proof {
            let nv = entries_view(entries@);
            assert(nv =~= es.update(i as int, (es[i as int].0, v)));
            assert forall|a: int, b: int| 0 <= a < b < nv.len() implies lex_lt(#[trigger] nv[a].0, #[trigger] nv[b].0) by {
                assert(nv[a].0 == es[a].0);
                assert(nv[b].0 == es[b].0);
            }
        }
        self.entries = entries;
    }

    /// Drop the binding for `key`, if any.
    pub fn remove(&mut self, key: &str)
        ensures
            has_key(old(self).view_entries(), key@) ==> exists|i: int|
                0 <= i < old(self).view_entries().len() && old(self).view_entries()[i].0 == key@
                    && #[trigger] final(self).view_entries() == old(self).view_entries().remove(i),
            !has_key(old(self).view_entries(), key@) ==> final(self).view_entries() == old(self).view_entries(),
    {
        proof {
            use_type_invariant(&*self);
        }
        let ghost es = self.view_entries();
        let (i, found) = self.find(key);
        if found {
            let mut entries: Vec<(String, String)> = Vec::new();
            std::mem::swap(&mut entries, &mut self.entries);
            entries.remove(i);
            proof {
                let nv = entries_view(entries@);
                assert(nv =~= es.remove(i as int));
                assert forall|a: int, b: int| 0 <= a < b < nv.len() implies lex_lt(#[trigger] nv[a].0, #[trigger] nv[b].0) by {
                    if a < i && b < i {
                        assert(nv[a] == es[a]);
                        assert(nv[b] == es[b]);
                    } else if a < i {
                        assert(nv[a] == es[a]);
                        assert(nv[b] == es[b + 1]);
                    } else {
                        assert(nv[a] == es[a + 1]);
                        assert(nv[b] == es[b + 1]);
                    }
                }
            }
            self.entries = entries;
        }
    }

    /// Keep only the entries at the positions where `keep` is true.
    fn retain_positions(&mut self, keep: &Vec<bool>)
        requires
            keep.len() == old(self).view_entries().len(),
        ensures
            final(self).view_entries() == kept_entries(old(self).view_entries(), keep@),
    {
        proof {
            use_type_invariant(&*self);
        }
        let ghost es = self.view_entries();
        let mut entries: Vec<(String, String)> = Vec::new();
        std::mem::swap(&mut entries, &mut self.entries);
        let mut out: Vec<(String, String)> = Vec::new();
        let mut rest = entries;
        let mut i: usize = 0;
        let ghost orig = rest@;
        // move entries out front to back
        let mut taken: Vec<(String, String)> = Vec::new();
        while rest.len() > 0
            invariant
                orig.len() == es.len(),
                entries_view(orig) == es,
                rest.len() + taken.len() == orig.len(),
                rest@ == orig.take(rest.len() as int),
                forall|k: int| 0 <= k < taken.len() ==> #[trigger] taken@[k] == orig[orig.len() - 1 - k],
            decreases rest.len(),
        {
            let e = rest.pop().unwrap();
            taken.push(e);
            proof {
                assert(rest@ =~= orig.take(rest.len() as int));
            }
        }
        while taken.len() > 0
            invariant
                orig.len() == es.len(),
                entries_view(orig) == es,
                keys_sorted(es),
                keep.len() == es.len(),
                i + taken.len() == orig.len(),
                forall|k: int| 0 <= k < taken.len() ==> #[trigger] taken@[k] == orig[orig.len() - 1 - k],
                entries_view(out@) == kept_entries(es.take(i as int), keep@.take(i as int)),
            decreases taken.len(),
        {
            let e = taken.pop().unwrap();
            assert(e == orig[i as int]);
            proof {
                assert(es.take(i + 1).drop_last() =~= es.take(i as int));
                assert(keep@.take(i + 1).drop_last() =~= keep@.take(i as int));
            }
            if keep[i] {
                out.push(e);
                proof {
                    assert(entries_view(out@) =~= entries_view(out@.drop_last()).push(es[i as int]));
                }
            }
            i = i + 1;
        }
        proof {
            assert(es.take(i as int) =~= es);
            assert(keep@.take(i as int) =~= keep@);
            lemma_kept_sorted(es, keep@);
        }
        self.entries = out;
    }
}

/// The entries of `es` at the positions where `keep` is true, in order.
pub open spec fn kept_entries(es: Seq<(Seq<char>, Seq<char>)>, keep: Seq<bool>) -> Seq<(Seq<char>, Seq<char>)>
    decreases es.len(),
{
    if es.len() == 0 || keep.len() == 0 {
        Seq::empty()
    } else if keep.last() {
        kept_entries(es.drop_last(), keep.drop_last()).push(es.last())
    } else {
        kept_entries(es.drop_last(), keep.drop_last())
    }
}

/// Every kept entry is an entry of `es`, in the order of `es`.
proof fn lemma_kept_subseq(es: Seq<(Seq<char>, Seq<char>)>, keep: Seq<bool>)
    requires
        keep.len() == es.len(),
    ensures
        forall|a: int| 0 <= a < kept_entries(es, keep).len() ==> exists|i: int|
            0 <= i < es.len() && keep[i] && #[trigger] kept_entries(es, keep)[a] == es[i],
        forall|i: int| 0 <= i < es.len() && keep[i] ==> kept_entries(es, keep).contains(#[trigger] es[i]),
        keys_sorted(es) ==> keys_sorted(kept_entries(es, keep)),
    decreases es.len(),
{
    if es.len() > 0 {
        let ds = es.drop_last();
        let dk = keep.drop_last();
        lemma_kept_subseq(ds, dk);
        let pre = kept_entries(ds, dk);
        let cur = kept_entries(es, keep);
        if keep.last() {
            assert(cur == pre.push(es.last()));
        } else {
            assert(cur == pre);
        }
        assert forall|a: int| 0 <= a < cur.len() implies exists|i: int| 0 <= i < es.len() && keep[i] && #[trigger] cur[a] == es[i] by {
            if a < pre.len() {
                assert(cur[a] == pre[a]);
                let i = choose|i: int| 0 <= i < ds.len() && dk[i] && #[trigger] pre[a] == ds[i];
                assert(es[i] == ds[i]);
                assert(keep[i] == dk[i]);
            } else {
                assert(cur[a] == es[es.len() - 1]);
            }
        }
        assert forall|i: int| 0 <= i < es.len() && keep[i] implies cur.contains(#[trigger] es[i]) by {
            if i < es.len() - 1 {
                assert(ds[i] == es[i]);
                assert(pre.contains(ds[i]));
                let a = choose|a: int| 0 <= a < pre.len() && pre[a] == ds[i];
                assert(cur[a] == pre[a]);
            } else {
                assert(cur[cur.len() - 1] == es[i]);
            }
        }
        if keys_sorted(es) {
            assert(keys_sorted(ds)) by {
                assert forall|a: int, b: int| 0 <= a < b < ds.len() implies lex_lt(#[trigger] ds[a].0, #[trigger] ds[b].0) by {
                    assert(ds[a] == es[a]);
                    assert(ds[b] == es[b]);
                }
            }
            if keep.last() {
                assert forall|a: int, b: int| 0 <= a < b < cur.len() implies lex_lt(#[trigger] cur[a].0, #[trigger] cur[b].0) by {
                    if b < pre.len() {
                        assert(cur[a] == pre[a]);
                        assert(cur[b] == pre[b]);
                    } else {
                        assert(cur[a] == pre[a]);
                        let i = choose|i: int| 0 <= i < ds.len() && dk[i] && #[trigger] pre[a] == ds[i];
                        assert(es[i] == ds[i]);
                        assert(cur[b] == es[es.len() - 1]);
                    }
                }
            }
        }
    }
}

proof fn lemma_kept_sorted(es: Seq<(Seq<char>, Seq<char>)>, keep: Seq<bool>)
    requires
        keep.len() == es.len(),
        keys_sorted(es),
    ensures
        keys_sorted(kept_entries(es, keep)),
{
    lemma_kept_subseq(es, keep);
}

/// The absolute path a stored path stands for under `root`.
pub open spec fn absolute_of(root: Seq<char>, stored: Seq<char>) -> Seq<char> {
    if spec_is_absolute(stored) {
        stored
    } else {
        spec_join(root, stored)
    }
}

/// The path stored for `absolute`: relative to `root` when under it.
pub open spec fn stored_of(absolute: Seq<char>, root: Seq<char>) -> Seq<char> {
    match spec_strip_prefix(absolute, root) {
        Some(rel) => rel,
        None => absolute,
    }
}

/// The (hotkey, absolute path) pairs of the single-character keys, in key order.
pub open spec fn resolved_entries(es: Seq<(Seq<char>, Seq<char>)>, root: Seq<char>) -> Seq<(char, Seq<char>)>
    decreases es.len(),
{
    if es.len() == 0 {
        Seq::empty()
    } else {
        let prev = resolved_entries(es.drop_last(), root);
        let e = es.last();
        if e.0.len() == 1 {
            prev.push((e.0[0], absolute_of(root, e.1)))
        } else {
            prev
        }
    }
}

/// `after` is `before` with `key` bound to `value`: the entry for `key`
/// replaced in place, or a new entry inserted in key order.
pub open spec fn bound_to(
    before: Seq<(Seq<char>, Seq<char>)>,
    after: Seq<(Seq<char>, Seq<char>)>,
    key: Seq<char>,
    value: Seq<char>,
) -> bool {
    &&& has_key(before, key) ==> exists|i: int|
        0 <= i < before.len() && before[i].0 == key && #[trigger] before.update(i, (key, value)) == after
    &&& !has_key(before, key) ==> exists|i: int| 0 <= i <= before.len() && #[trigger] before.insert(i, (key, value)) == after
}

/// `after` is `before` without the entry for `key` (if there was one).
pub open spec fn unbound(before: Seq<(Seq<char>, Seq<char>)>, after: Seq<(Seq<char>, Seq<char>)>, key: Seq<char>) -> bool {
    &&& has_key(before, key) ==> exists|i: int| 0 <= i < before.len() && before[i].0 == key && #[trigger] before.remove(i) == after
    &&& !has_key(before, key) ==> after == before
}

/// An entry whose absolute path is `target` or lies under it.
pub open spec fn binding_under(e: (Seq<char>, Seq<char>), target: Seq<char>, root: Seq<char>) -> bool {
    spec_path_eq(absolute_of(root, e.1), target) || spec_starts_with(absolute_of(root, e.1), target)
}

/// The user's hotkey bindings for one output root.
#[derive(Debug, Clone, PartialEq, Eq)]
pub struct PersistedBindings {
    pub version: u32,
    /// Hotkey → path relative to the output root.
    pub hotkeys: HotkeyTable,
}

impl Default for PersistedBindings {
    fn default() -> (r: Self)
        ensures
            r.version == CURRENT_VERSION,
            r.hotkeys.view_entries() == Seq::<(Seq<char>, Seq<char>)>::empty(),
    {
        PersistedBindings { version: CURRENT_VERSION, hotkeys: HotkeyTable::new() }
    }
}

impl PersistedBindings {
    /// Resolve the stored entries into `(hotkey, absolute_path)` pairs so the
    /// caller can apply them to the destination list. Keys that are not a
    /// single character are skipped; relative paths are joined to the root.
    pub fn resolved(&self, output_root: &str) -> (r: Vec<(char, String)>)
        ensures
            r@.map_values(|p: (char, String)| (p.0, p.1@)) == resolved_entries(
                self.hotkeys.view_entries(),
                output_root@,
            ),
    {
        let ghost es = self.hotkeys.view_entries();
        let mut out: Vec<(char, String)> = Vec::new();
        let mut i: usize = 0;
        while i < self.hotkeys.len()
            invariant
                es == self.hotkeys.view_entries(),
                i <= es.len(),
                out@.map_values(|p: (char, String)| (p.0, p.1@)) == resolved_entries(es.take(i as int), output_root@),
            decreases es.len() - i,
        {
            let (key, relative) = self.hotkeys.entry(i);
            let cs = chars_of(key.as_str());
            proof {
                assert(es.take(i + 1).drop_last() =~= es.take(i as int));
                assert(es.take(i + 1).last() == es[i as int]);
            }
            if cs.len() == 1 {
                let absolute = if is_absolute(relative.as_str()) {
                    owned(relative.as_str())
                } else {
                    join(output_root, relative.as_str())
                };
                out.push((cs[0], absolute));
                proof {
                    let ov = out@.map_values(|p: (char, String)| (p.0, p.1@));
                    assert(ov =~= resolved_entries(es.take(i as int), output_root@).push(
                        (es[i as int].0[0], absolute_of(output_root@, es[i as int].1)),
                    ));
                }
            }
            i = i + 1;
        }
        assert(es.take(i as int) =~= es);
        out
    }

    /// Bind `hotkey` to `absolute_path`, stored relative to `output_root` when
    /// it lies under it.
    pub fn set(&mut self, hotkey: char, absolute_path: &str, output_root: &str)
        ensures
            final(self).version == old(self).version,
            bound_to(
                old(self).hotkeys.view_entries(),
                final(self).hotkeys.view_entries(),
                seq![hotkey],
                stored_of(absolute_path@, output_root@),
            ),
    {
        let relative = match strip_prefix(absolute_path, output_root) {
            Some(rel) => rel,
            None => owned(absolute_path),
        };
        let mut key = String::new();
        push_char(&mut key, hotkey);
        assert(key@ =~= seq![hotkey]);
        self.hotkeys.insert(key, relative);
    }

    /// Drop the binding for `hotkey`, if any.
    pub fn remove_hotkey(&mut self, hotkey: char)
        ensures
            final(self).version == old(self).version,
            unbound(old(self).hotkeys.view_entries(), final(self).hotkeys.view_entries(), seq![hotkey]),
    {
        let mut key = String::new();
        push_char(&mut key, hotkey);
        assert(key@ =~= seq![hotkey]);
        self.hotkeys.remove(key.as_str());
    }

    /// Drop every entry pointing at `absolute_path` or anything nested under
    /// it, so a deleted folder's hotkey doesn't reappear on the next launch.
    pub fn remove_under(&mut self, absolute_path: &str, output_root: &str)
        ensures
            final(self).version == old(self).version,
            final(self).hotkeys.view_entries() == kept_entries(
                old(self).hotkeys.view_entries(),
                old(self).hotkeys.view_entries().map_values(
                    |e: (Seq<char>, Seq<char>)| !binding_under(e, absolute_path@, output_root@),
                ),
            ),
    {
        let ghost es = self.hotkeys.view_entries();
        let mut keep: Vec<bool> = Vec::new();
        let mut i: usize = 0;
        while i < self.hotkeys.len()
            invariant
                es == self.hotkeys.view_entries(),
                i <= es.len(),
                keep.len() == i,
                forall|k: int| 0 <= k < i ==> #[trigger] keep@[k] == !binding_under(es[k], absolute_path@, output_root@),
            decreases es.len() - i,
        {
            let (_key, relative) = self.hotkeys.entry(i);
            let candidate = if is_absolute(relative.as_str()) {
                owned(relative.as_str())
            } else {
                join(output_root, relative.as_str())
            };
            let under = path_eq(candidate.as_str(), absolute_path) || starts_with(candidate.as_str(), absolute_path);
            keep.push(!under);
            i = i + 1;
        }
        assert(keep@ =~= es.map_values(|e: (Seq<char>, Seq<char>)| !binding_under(e, absolute_path@, output_root@)));
        self.hotkeys.retain_positions(&keep);
    }
}

/// An entry after the folder `from` was renamed to `to`: bindings of `from`
/// itself now name `to`, bindings under it name the same place under `to`.
pub open spec fn retargeted(
    e: (Seq<char>, Seq<char>),
    from: Seq<char>,
    to: Seq<char>,
    root: Seq<char>,
) -> (Seq<char>, Seq<char>) {
    let abs = absolute_of(root, e.1);
    if spec_path_eq(abs, from) {
        (e.0, stored_of(to, root))
    } else if spec_starts_with(abs, from) {
        match spec_strip_prefix(abs, from) {
            Some(rest) => (e.0, stored_of(spec_join(to, rest), root)),
            None => e,
        }
    } else {
        e
    }
}

impl PersistedBindings {
    /// Follow a folder rename: every entry pointing at `from` or under it is
    /// re-pointed at the same place under `to`.
    pub fn rename_under(&mut self, from: &str, to: &str, output_root: &str)
        ensures
            final(self).version == old(self).version,
            final(self).hotkeys.view_entries() == old(self).hotkeys.view_entries().map_values(
                |e: (Seq<char>, Seq<char>)| retargeted(e, from@, to@, output_root@),
            ),
    {
        let ghost es = self.hotkeys.view_entries();
        let mut i: usize = 0;
        while i < self.hotkeys.len()
            invariant
                es.len() == self.hotkeys.view_entries().len(),
                i <= es.len(),
                forall|k: int| 0 <= k < i ==> #[trigger] self.hotkeys.view_entries()[k] == retargeted(es[k], from@, to@, output_root@),
                forall|k: int| i <= k < es.len() ==> #[trigger] self.hotkeys.view_entries()[k] == es[k],
                self.version == old(self).version,
            decreases es.len() - i,
        {
            let ghost cur = self.hotkeys.view_entries();
            let (_key, stored) = self.hotkeys.entry(i);
            assert(cur[i as int] == es[i as int]);
            let abs = if is_absolute(stored.as_str()) {
                owned(stored.as_str())
            } else {
                join(output_root, stored.as_str())
            };
            let new_abs: Option<String> = if path_eq(abs.as_str(), from) {
                Some(owned(to))
            } else if starts_with(abs.as_str(), from) {
                match strip_prefix(abs.as_str(), from) {
                    Some(rest) => Some(join(to, rest.as_str())),
                    None => None,
                }
            } else {
                None
            };
            match new_abs {
                Some(target) => {
                    let stored_new = match strip_prefix(target.as_str(), output_root) {
                        Some(rel) => rel,
                        None => owned(target.as_str()),
                    };
                    self.hotkeys.set_value(i, stored_new);
                },
                None => {},
            }
            i = i + 1;
        }
        assert(self.hotkeys.view_entries() =~= es.map_values(
            |e: (Seq<char>, Seq<char>)| retargeted(e, from@, to@, output_root@),
        ));
    }
}

/// The format version assumed for a bindings file that does not state one.
pub fn default_version() -> (r: u32)
    ensures
        r == CURRENT_VERSION,
{
    CURRENT_VERSION
}

/// Where the bindings of an output root are stored:
/// `<output>/.comfysort/bindings.json`.
pub fn bindings_path(output_root: &str) -> (r: String)
    ensures
        r@ == spec_join(spec_join(output_root@, STATE_DIR@), "bindings.json"@),
{
    let state = join(output_root, STATE_DIR);
    join(state.as_str(), "bindings.json")
}

/// Binding then resolving round-trips: after `set(hotkey, p, root)` the
/// resolved pairs include `hotkey` with the absolute form of what was stored
/// for `p` (which is `p` again whenever `p` lies under `root`).
pub proof fn lemma_set_then_resolved(
    before: Seq<(Seq<char>, Seq<char>)>,
    after: Seq<(Seq<char>, Seq<char>)>,
    hotkey: char,
    p: Seq<char>,
    root: Seq<char>,
)
    requires
        bound_to(before, after, seq![hotkey], stored_of(p, root)),
    ensures
        resolved_entries(after, root).contains((hotkey, absolute_of(root, stored_of(p, root)))),
{
    let key = seq![hotkey];
    let value = stored_of(p, root);
    if has_key(before, key) {
        let i = choose|i: int| 0 <= i < before.len() && before[i].0 == key && #[trigger] before.update(i, (key, value)) == after;
        assert(after[i] == (key, value));
        lemma_resolved_contains(after, root, i);
    } else {
        let i = choose|i: int| 0 <= i <= before.len() && #[trigger] before.insert(i, (key, value)) == after;
        assert(after[i] == (key, value));
        lemma_resolved_contains(after, root, i);
    }
}

proof fn lemma_resolved_contains(es: Seq<(Seq<char>, Seq<char>)>, root: Seq<char>, i: int)
    requires
        0 <= i < es.len(),
        es[i].0.len() == 1,
    ensures
        resolved_entries(es, root).contains((es[i].0[0], absolute_of(root, es[i].1))),
    decreases es.len(),
{
    let r = resolved_entries(es, root);
    if i == es.len() - 1 {
        assert(r.last() == (es[i].0[0], absolute_of(root, es[i].1)));
    } else {
        lemma_resolved_contains(es.drop_last(), root, i);
        let pre = resolved_entries(es.drop_last(), root);
        let x = (es[i].0[0], absolute_of(root, es[i].1));
        assert(es.drop_last()[i] == es[i]);
        let k = choose|k: int| 0 <= k < pre.len() && pre[k] == x;
        assert(r[k] == pre[k]);
    }
}


/// Pruning a deleted folder leaves no dangling hotkey: no remaining binding
/// points at the folder or under it, and every binding elsewhere stays.
pub proof fn lemma_remove_under_prunes(es: Seq<(Seq<char>, Seq<char>)>, target: Seq<char>, root: Seq<char>)
    ensures
        ({
            let kept = kept_entries(es, es.map_values(|e: (Seq<char>, Seq<char>)| !binding_under(e, target, root)));
            &&& forall|a: int| 0 <= a < kept.len() ==> !binding_under(#[trigger] kept[a], target, root)
            &&& forall|i: int| 0 <= i < es.len() && !binding_under(es[i], target, root) ==> kept.contains(#[trigger] es[i])
        }),
{
    let keep = es.map_values(|e: (Seq<char>, Seq<char>)| !binding_under(e, target, root));
    lemma_kept_subseq(es, keep);
    let kept = kept_entries(es, keep);
    assert forall|a: int| 0 <= a < kept.len() implies !binding_under(#[trigger] kept[a], target, root) by {
        let i = choose|i: int| 0 <= i < es.len() && keep[i] && #[trigger] kept[a] == es[i];
    }
    assert forall|i: int| 0 <= i < es.len() && !binding_under(es[i], target, root) implies kept.contains(#[trigger] es[i]) by {
        assert(keep[i]);
    }
}
} // verus!
