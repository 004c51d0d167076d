//! Folders the user has marked as ignored.
//!
//! An ignored folder is hidden from the Navigator listing, skipped by the fuzzy
//! folder search, left out of the sort-target scan, and not counted in a
//! parent's recursive media count. Nothing on disk is touched — this is a view
//! filter over the destination tree, not an operation.
//!
//! Each configured entry is one of two kinds:
//!
//! - **path rule** — the entry contains `/` or `\`. It names one absolute
//!   folder; that folder *and everything under it* is ignored.
//! - **name rule** — the entry has no separator. Any folder with that name is
//!   ignored, at any depth (e.g. `.thumbnails`).
//!
//! Matching is case-insensitive and separator-insensitive.

use vstd::prelude::*;
use crate::paths::{file_name, opt_view, spec_file_name};
use crate::text::{
    contains_char, insert_sorted_unique, lemma_sorted_unique, slashify, slashify_exec, spec_to_lowercase,
    spec_trim, starts_with, str_eq, strictly_sorted, strings_view, to_lowercase, trim, trim_end_slashes,
    trim_end_slashes_exec, push_char, owned, all_white_space, lemma_trim_blank,
};

verus! {

/// Normalized for comparison: forward slashes, no trailing separator,
/// lowercase.
pub open spec fn spec_norm(p: Seq<char>) -> Seq<char> {
    spec_to_lowercase(trim_end_slashes(slashify(p)))
}

fn norm(path: &str) -> (r: String)
    ensures
        r@ == spec_norm(path@),
{
    let s = slashify_exec(path);
    let t = trim_end_slashes_exec(s.as_str());
    to_lowercase(t.as_str())
}

/// The trimmed text of a configured entry.
pub open spec fn entry_text(e: Seq<char>) -> Seq<char> {
    spec_trim(e)
}

/// A non-blank entry with a separator: a path rule.
pub open spec fn is_path_entry(e: Seq<char>) -> bool {
    entry_text(e).len() > 0 && (entry_text(e).contains('/') || entry_text(e).contains('\\'))
}

/// A non-blank entry without a separator: a name rule.
pub open spec fn is_name_entry(e: Seq<char>) -> bool {
    entry_text(e).len() > 0 && !entry_text(e).contains('/') && !entry_text(e).contains('\\')
}

/// The path rules that a list of entries compiles to.
pub open spec fn path_rule_set(entries: Seq<Seq<char>>) -> Set<Seq<char>> {
    Set::new(
        |x: Seq<char>|
            x.len() > 0 && exists|i: int|
                0 <= i < entries.len() && is_path_entry(entries[i]) && #[trigger] spec_norm(entry_text(entries[i])) == x,
    )
}

/// The name rules that a list of entries compiles to.
pub open spec fn name_rule_set(entries: Seq<Seq<char>>) -> Set<Seq<char>> {
    Set::new(
        |x: Seq<char>|
            exists|i: int|
                0 <= i < entries.len() && is_name_entry(entries[i]) && #[trigger] spec_to_lowercase(entry_text(entries[i])) == x,
    )
}

/// The compiled ignore rules. Built once per settings change and consulted by
/// every directory walk over the output tree.
#[derive(Debug, Clone, PartialEq, Eq)]
pub struct IgnoreSet {
    /// Normalized absolute paths; each ignores that folder and its subtree.
    paths: Vec<String>,
    /// Lowercased folder names; each ignores any folder so named, at any depth.
    names: Vec<String>,
}

impl Default for IgnoreSet {
    fn default() -> (r: Self)
        ensures
            r.path_rules() == Seq::<Seq<char>>::empty(),
            r.name_rules() == Seq::<Seq<char>>::empty(),
            r.wf(),
    {
        let r = IgnoreSet { paths: Vec::new(), names: Vec::new() };
        proof {
            assert(r.path_rules() =~= Seq::<Seq<char>>::empty());
            assert(r.name_rules() =~= Seq::<Seq<char>>::empty());
        }
        r
    }
}

/// `rule` ignores the folder whose normalized path is `candidate`: it is that
/// folder or one of its ancestors.
pub open spec fn path_rule_covers(rule: Seq<char>, candidate: Seq<char>) -> bool {
    candidate == rule || rule.push('/').is_prefix_of(candidate)
}

impl IgnoreSet {
    /// The path rules, in order.
    pub closed spec fn path_rules(&self) -> Seq<Seq<char>> {
        strings_view(self.paths@)
    }

    /// The name rules, in order.
    pub closed spec fn name_rules(&self) -> Seq<Seq<char>> {
        strings_view(self.names@)
    }

    /// Both rule lists are sorted without duplicates, so equal rule sets have
    /// one representation.
    pub open spec fn wf(&self) -> bool {
        strictly_sorted(self.path_rules()) && strictly_sorted(self.name_rules())
    }

    /// Whether the folder at `dir` is ignored.
    pub open spec fn spec_is_ignored(&self, dir: Seq<char>) -> bool {
        ||| (spec_file_name(dir) is Some && self.name_rules().contains(
            spec_to_lowercase(spec_file_name(dir)->0),
        ))
        ||| exists|k: int|
            0 <= k < self.path_rules().len() && path_rule_covers(
                #[trigger] self.path_rules()[k],
                spec_norm(dir),
            )
    }

    /// Compile raw config entries. Blank entries are dropped; the rest are
    /// split into path and name rules, normalized, sorted and deduplicated.
    pub fn new(entries: &[String]) -> (r: Self)
        ensures
            r.wf(),
            r.path_rules().to_set() == path_rule_set(strings_view(entries@)),
            r.name_rules().to_set() == name_rule_set(strings_view(entries@)),
    {
        let ghost ev = strings_view(entries@);
        let mut paths: Vec<String> = Vec::new();
        let mut names: Vec<String> = Vec::new();
        let mut i: usize = 0;
        proof {
            assert(strings_view(paths@) =~= Seq::<Seq<char>>::empty());
            assert(strings_view(names@) =~= Seq::<Seq<char>>::empty());
        }
        while i < entries.len()
            invariant
                ev == strings_view(entries@),
                i <= entries.len(),
                strictly_sorted(strings_view(paths@)),
                strictly_sorted(strings_view(names@)),
                strings_view(paths@).to_set() == path_rule_set(ev.take(i as int)),
                strings_view(names@).to_set() == name_rule_set(ev.take(i as int)),
            decreases entries.len() - i,
        {
            let ghost before = ev.take(i as int);
            let ghost after = ev.take(i + 1);
            assert(after =~= before.push(ev[i as int]));
            let entry = trim(entries[i].as_str());
            assert(entry@ == entry_text(ev[i as int]));
            if entry.as_str().is_empty() {
                proof {
                    assert(path_rule_set(after) =~= path_rule_set(before)) by {
                        assert forall|x: Seq<char>| path_rule_set(after).contains(x) implies path_rule_set(before).contains(x) by {
                            let k = choose|k: int| 0 <= k < after.len() && is_path_entry(after[k]) && #[trigger] spec_norm(entry_text(after[k])) == x;
                            assert(k < before.len());
                            assert(before[k] == after[k]);
                        }
                        assert forall|x: Seq<char>| path_rule_set(before).contains(x) implies path_rule_set(after).contains(x) by {
                            let k = choose|k: int| 0 <= k < before.len() && is_path_entry(before[k]) && #[trigger] spec_norm(entry_text(before[k])) == x;
                            assert(after[k] == before[k]);
                        }
                    }
                    assert(name_rule_set(after) =~= name_rule_set(before)) by {
                        assert forall|x: Seq<char>| name_rule_set(after).contains(x) implies name_rule_set(before).contains(x) by {
                            let k = choose|k: int| 0 <= k < after.len() && is_name_entry(after[k]) && #[trigger] spec_to_lowercase(entry_text(after[k])) == x;
                            assert(k < before.len());
                            assert(before[k] == after[k]);
                        }
                        assert forall|x: Seq<char>| name_rule_set(before).contains(x) implies name_rule_set(after).contains(x) by {
                            let k = choose|k: int| 0 <= k < before.len() && is_name_entry(before[k]) && #[trigger] spec_to_lowercase(entry_text(before[k])) == x;
                            assert(after[k] == before[k]);
                        }
                    }
                }
            } else if contains_char(entry.as_str(), '/') || contains_char(entry.as_str(), '\\') {
                let normalized = norm(entry.as_str());
                let ghost old_paths = strings_view(paths@);
                if !normalized.as_str().is_empty() {
                    insert_sorted_unique(&mut paths, normalized);
                }
                proof {
                    let nx = spec_norm(entry_text(ev[i as int]));
                    assert(is_path_entry(ev[i as int]));
                    assert(path_rule_set(after) =~= if nx.len() > 0 { path_rule_set(before).insert(nx) } else { path_rule_set(before) }) by {
                        assert forall|x: Seq<char>| path_rule_set(after).contains(x) implies (if nx.len() > 0 { path_rule_set(before).insert(nx) } else { path_rule_set(before) }).contains(x) by {
                            let k = choose|k: int| 0 <= k < after.len() && is_path_entry(after[k]) && #[trigger] spec_norm(entry_text(after[k])) == x;
                            if k < before.len() {
                                assert(before[k] == after[k]);
                            }
                        }
                        assert forall|x: Seq<char>| (if nx.len() > 0 { path_rule_set(before).insert(nx) } else { path_rule_set(before) }).contains(x) implies path_rule_set(after).contains(x) by {
                            if x == nx && nx.len() > 0 {
                                assert(after[i as int] == ev[i as int]);
                            } else {
                                let k = choose|k: int| 0 <= k < before.len() && is_path_entry(before[k]) && #[trigger] spec_norm(entry_text(before[k])) == x;
                                assert(after[k] == before[k]);
                            }
                        }
                    }
                    assert(name_rule_set(after) =~= name_rule_set(before)) by {
                        assert forall|x: Seq<char>| name_rule_set(after).contains(x) implies name_rule_set(before).contains(x) by {
                            let k = choose|k: int| 0 <= k < after.len() && is_name_entry(after[k]) && #[trigger] spec_to_lowercase(entry_text(after[k])) == x;
                            if k == i {
                                assert(false);
                            }
                            assert(before[k] == after[k]);
                        }
                        assert forall|x: Seq<char>| name_rule_set(before).contains(x) implies name_rule_set(after).contains(x) by {
                            let k = choose|k: int| 0 <= k < before.len() && is_name_entry(before[k]) && #[trigger] spec_to_lowercase(entry_text(before[k])) == x;
                            assert(after[k] == before[k]);
                        }
                    }
                }
            } else {
                let lowered = to_lowercase(entry.as_str());
                insert_sorted_unique(&mut names, lowered);
                proof {
                    let lx = spec_to_lowercase(entry_text(ev[i as int]));
                    assert(is_name_entry(ev[i as int]));
                    assert(name_rule_set(after) =~= name_rule_set(before).insert(lx)) by {
                        assert forall|x: Seq<char>| name_rule_set(after).contains(x) implies name_rule_set(before).insert(lx).contains(x) by {
                            let k = choose|k: int| 0 <= k < after.len() && is_name_entry(after[k]) && #[trigger] spec_to_lowercase(entry_text(after[k])) == x;
                            if k < before.len() {
                                assert(before[k] == after[k]);
                            }
                        }
                        assert forall|x: Seq<char>| name_rule_set(before).insert(lx).contains(x) implies name_rule_set(after).contains(x) by {
                            if x == lx {
                                assert(after[i as int] == ev[i as int]);
                            } else {
                                let k = choose|k: int| 0 <= k < before.len() && is_name_entry(before[k]) && #[trigger] spec_to_lowercase(entry_text(before[k])) == x;
                                assert(after[k] == before[k]);
                            }
                        }
                    }
                    assert(path_rule_set(after) =~= path_rule_set(before)) by {
                        assert forall|x: Seq<char>| path_rule_set(after).contains(x) implies path_rule_set(before).contains(x) by {
                            let k = choose|k: int| 0 <= k < after.len() && is_path_entry(after[k]) && #[trigger] spec_norm(entry_text(after[k])) == x;
                            if k == i {
                                assert(false);
                            }
                            assert(before[k] == after[k]);
                        }
                        assert forall|x: Seq<char>| path_rule_set(before).contains(x) implies path_rule_set(after).contains(x) by {
                            let k = choose|k: int| 0 <= k < before.len() && is_path_entry(before[k]) && #[trigger] spec_norm(entry_text(before[k])) == x;
                            assert(after[k] == before[k]);
                        }
                    }
                }
            }
            i = i + 1;
        }
        assert(ev.take(i as int) =~= ev);
        IgnoreSet { paths, names }
    }

    /// True when no rules are configured — the cheap exit every walk takes
    /// before doing any string work.
    pub fn is_empty(&self) -> (r: bool)
        ensures
            r == (self.path_rules().len() == 0 && self.name_rules().len() == 0),
    {
        self.paths.len() == 0 && self.names.len() == 0
    }

    /// Whether `dir` is ignored: its final segment matches a name rule, or it
    /// is (or sits under) a path rule.
    pub fn is_ignored(&self, dir: &str) -> (r: bool)
        ensures
            r == self.spec_is_ignored(dir@),
    {
        if self.is_empty() {
            return false;
        }
        let mut by_name = false;
        if self.names.len() != 0 {
            match file_name(dir) {
                Some(name) => {
                    let lowered = to_lowercase(name.as_str());
                    let mut k: usize = 0;
                    while k < self.names.len()
                        invariant
                            k <= self.names.len(),
                            lowered@ == spec_to_lowercase(spec_file_name(dir@)->0),
                            spec_file_name(dir@) is Some,
                            forall|j: int| 0 <= j < k ==> self.name_rules()[j] != lowered@,
                        decreases self.names.len() - k,
                    {
                        if str_eq(self.names[k].as_str(), lowered.as_str()) {
                            proof {
                                assert(self.name_rules()[k as int] == lowered@);
                            }
                            return true;
                        }
                        k = k + 1;
                    }
                },
                None => {},
            }
        }
        proof {
            assert(!(spec_file_name(dir@) is Some && self.name_rules().contains(
                spec_to_lowercase(spec_file_name(dir@)->0),
            ))) by {
                if spec_file_name(dir@) is Some && self.name_rules().contains(spec_to_lowercase(spec_file_name(dir@)->0)) {
                    let j = choose|j: int| 0 <= j < self.name_rules().len() && self.name_rules()[j] == spec_to_lowercase(spec_file_name(dir@)->0);
                }
            }
        }
        if self.paths.len() == 0 {
            return false;
        }
        let candidate = norm(dir);
        let mut k: usize = 0;
        while k < self.paths.len()
            invariant
                k <= self.paths.len(),
                candidate@ == spec_norm(dir@),
                forall|j: int| 0 <= j < k ==> !path_rule_covers(#[trigger] self.path_rules()[j], candidate@),
            decreases self.paths.len() - k,
        {
            let rule = &self.paths[k];
            let mut with_sep = owned(rule.as_str());
            push_char(&mut with_sep, '/');
            if str_eq(candidate.as_str(), rule.as_str()) || starts_with(candidate.as_str(), with_sep.as_str()) {
                proof {
                    assert(self.path_rules()[k as int] == rule@);
                    assert(path_rule_covers(self.path_rules()[k as int], candidate@));
                }
                return true;
            }
            proof {
                assert(self.path_rules()[k as int] == rule@);
            }
            k = k + 1;
        }
        false
    }
}

/// Duplicate entries collapse: two compiled sets built from entries that
/// normalize to the same rules hold identical rule lists.
pub proof fn lemma_ignore_set_canonical(a: IgnoreSet, b: IgnoreSet)
    requires
        a.wf(),
        b.wf(),
        a.path_rules().to_set() == b.path_rules().to_set(),
        a.name_rules().to_set() == b.name_rules().to_set(),
    ensures
        a.path_rules() == b.path_rules(),
        a.name_rules() == b.name_rules(),
{
    lemma_sorted_unique(a.path_rules(), b.path_rules());
    lemma_sorted_unique(a.name_rules(), b.name_rules());
}

/// An empty set ignores nothing.
pub proof fn lemma_empty_ignores_nothing(s: IgnoreSet, dir: Seq<char>)
    requires
        s.path_rules().len() == 0,
        s.name_rules().len() == 0,
    ensures
        !s.spec_is_ignored(dir),
{
}

/// A path rule ignores its folder and everything under it.
pub proof fn lemma_path_rule_covers_subtree(s: IgnoreSet, rule: Seq<char>, dir: Seq<char>)
    requires
        s.path_rules().contains(rule),
        spec_norm(dir) == rule || rule.push('/').is_prefix_of(spec_norm(dir)),
    ensures
        s.spec_is_ignored(dir),
{
    let k = choose|k: int| 0 <= k < s.path_rules().len() && s.path_rules()[k] == rule;
    assert(path_rule_covers(s.path_rules()[k], spec_norm(dir)));
}


/// Entry `x` gives no rule: it is blank, or a path rule that normalizes to
/// nothing (separators only).
pub open spec fn gives_no_rule(x: Seq<char>) -> bool {
    entry_text(x).len() == 0 || (is_path_entry(x) && spec_norm(entry_text(x)).len() == 0)
}

/// Entries `x` and `y` give the same rule.
pub open spec fn same_rule(x: Seq<char>, y: Seq<char>) -> bool {
    ||| is_path_entry(x) && is_path_entry(y) && spec_norm(entry_text(x)) == spec_norm(entry_text(y))
    ||| is_name_entry(x) && is_name_entry(y) && spec_to_lowercase(entry_text(x)) == spec_to_lowercase(entry_text(y))
}

/// Every entry of `e1` that gives a rule has an entry of `e2` giving the
/// same rule.
pub open spec fn rules_covered(e1: Seq<Seq<char>>, e2: Seq<Seq<char>>) -> bool {
    forall|i: int|
        0 <= i < e1.len() ==> gives_no_rule(#[trigger] e1[i]) || exists|j: int| 0 <= j < e2.len() && same_rule(e1[i], e2[j])
}

proof fn lemma_rule_sets_included(e1: Seq<Seq<char>>, e2: Seq<Seq<char>>)
    requires
        rules_covered(e1, e2),
    ensures
        path_rule_set(e1).subset_of(path_rule_set(e2)),
        name_rule_set(e1).subset_of(name_rule_set(e2)),
{
    assert forall|x: Seq<char>| path_rule_set(e1).contains(x) implies path_rule_set(e2).contains(x) by {
        let i = choose|i: int|
            0 <= i < e1.len() && is_path_entry(e1[i]) && #[trigger] spec_norm(entry_text(e1[i])) == x;
        assert(!gives_no_rule(e1[i]));
        let j = choose|j: int| 0 <= j < e2.len() && same_rule(e1[i], e2[j]);
        assert(spec_norm(entry_text(e2[j])) == x);
    }
    assert forall|x: Seq<char>| name_rule_set(e1).contains(x) implies name_rule_set(e2).contains(x) by {
        let i = choose|i: int|
            0 <= i < e1.len() && is_name_entry(e1[i]) && #[trigger] spec_to_lowercase(entry_text(e1[i])) == x;
        assert(!gives_no_rule(e1[i]));
        let j = choose|j: int| 0 <= j < e2.len() && same_rule(e1[i], e2[j]);
        assert(spec_to_lowercase(entry_text(e2[j])) == x);
    }
}

/// Entry lists that give the same rules compile to the same ignore set:
/// order, duplicates, blank entries, white space around entries (see
/// `lemma_trim_padding`) and any other difference that leaves each entry's
/// rule as it is change nothing.
pub proof fn lemma_equivalent_entries(a: IgnoreSet, b: IgnoreSet, e1: Seq<Seq<char>>, e2: Seq<Seq<char>>)
    requires
        a.wf(),
        b.wf(),
        a.path_rules().to_set() == path_rule_set(e1),
        a.name_rules().to_set() == name_rule_set(e1),
        b.path_rules().to_set() == path_rule_set(e2),
        b.name_rules().to_set() == name_rule_set(e2),
        rules_covered(e1, e2),
        rules_covered(e2, e1),
    ensures
        a.path_rules() == b.path_rules(),
        a.name_rules() == b.name_rules(),
{
    lemma_rule_sets_included(e1, e2);
    lemma_rule_sets_included(e2, e1);
    assert(path_rule_set(e1) =~= path_rule_set(e2));
    assert(name_rule_set(e1) =~= name_rule_set(e2));
    lemma_ignore_set_canonical(a, b);
}

/// Blank entries give no rule at all: a list of them compiles to the empty
/// set.
pub proof fn lemma_blank_entries_dropped(entries: Seq<Seq<char>>)
    requires
        forall|i: int| 0 <= i < entries.len() ==> all_white_space(#[trigger] entries[i]),
    ensures
        path_rule_set(entries) =~= Set::<Seq<char>>::empty(),
        name_rule_set(entries) =~= Set::<Seq<char>>::empty(),
{
    assert forall|i: int| 0 <= i < entries.len() implies entry_text(#[trigger] entries[i]).len() == 0 by {
        lemma_trim_blank(entries[i]);
    }
}
} // verus!
