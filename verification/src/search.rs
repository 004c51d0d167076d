//! Fuzzy folder scoring: an O(n·m) dynamic program that finds the best
//! in-order alignment of the query's characters in a candidate path,
//! rewarding consecutive runs and matches at word boundaries, so typing the
//! start of a folder name beats the same letters scattered across a path.
//!
//! The contract of [`fuzzy_score`] is stated over alignments directly: the
//! score is that of the best alignment, and there is one exactly when the
//! query is a subsequence of the candidate.

use vstd::prelude::*;
use crate::destinations::{is_state_name, label_of};
use crate::domain::{DirEntryInfo, FolderEntry};
use crate::ignore::IgnoreSet;
use crate::paths::{file_name, spec_file_name, spec_strip_prefix, strip_prefix};
use crate::text::{ascii_lower, chars_of, eq_ignore_ascii_case, owned, slashify, slashify_exec, to_ascii_lowercase};

verus! {

// ---------------------------------------------------------------------------
// Specification: alignments and their scores
// ---------------------------------------------------------------------------

/// A word-boundary character: `/ \ _ - space .`.
pub open spec fn is_boundary_char(c: char) -> bool {
    c == '/' || c == '\\' || c == '_' || c == '-' || c == ' ' || c == '.'
}

/// The reward for matching a query character at candidate position `i`.
pub open spec fn bonus(c: Seq<char>, i: int, consecutive: bool) -> int {
    1 + (if consecutive { 10int } else { 0int }) + (if i == 0 || is_boundary_char(c[i - 1]) {
        8int
    } else {
        0int
    }) + (if i == 0 { 4int } else { 0int })
}

/// `pos` places the characters of `q` at strictly increasing positions of `c`
/// holding the same characters.
pub open spec fn is_alignment(c: Seq<char>, q: Seq<char>, pos: Seq<int>) -> bool {
    &&& pos.len() == q.len()
    &&& forall|j: int| 0 <= j < pos.len() ==> 0 <= #[trigger] pos[j] < c.len() && c[pos[j]] == q[j]
    &&& forall|a: int, b: int| 0 <= a < b < pos.len() ==> #[trigger] pos[a] < #[trigger] pos[b]
}

/// The score of an alignment: the sum of its per-character rewards, a match
/// counting as consecutive when it directly follows the previous one.
pub open spec fn align_score(c: Seq<char>, pos: Seq<int>) -> int
    decreases pos.len(),
{
    if pos.len() == 0 {
        0
    } else {
        align_score(c, pos.drop_last()) + bonus(
            c,
            pos.last(),
            pos.len() >= 2 && pos.last() == pos[pos.len() - 2] + 1,
        )
    }
}

// ---------------------------------------------------------------------------
// Specification: the dynamic program
// ---------------------------------------------------------------------------

pub open spec fn opt_max(a: Option<int>, b: Option<int>) -> Option<int> {
    match (a, b) {
        (Some(x), Some(y)) => Some(if x >= y { x } else { y }),
        (Some(x), None) => Some(x),
        (None, Some(y)) => Some(y),
        (None, None) => None,
    }
}

pub open spec fn opt_plus(a: Option<int>, x: int) -> Option<int> {
    match a {
        Some(v) => Some(v + x),
        None => None,
    }
}

/// The best of `r[0..=t]`.
pub open spec fn prefix_max(r: Seq<Option<int>>, t: int) -> Option<int>
    decreases t + 1,
{
    if t < 0 {
        None
    } else {
        opt_max(prefix_max(r, t - 1), r[t])
    }
}

/// Best score of placing `q[0..=j]` with `q[j]` at `i`, given the row for `j - 1`.
pub open spec fn cell(c: Seq<char>, q: Seq<char>, j: int, prev: Seq<Option<int>>, i: int) -> Option<int> {
    if c[i] != q[j] {
        None
    } else if j == 0 {
        Some(bonus(c, i, false))
    } else {
        opt_max(
            if i >= 1 { opt_plus(prev[i - 1], bonus(c, i, true)) } else { None },
            opt_plus(prefix_max(prev, i - 2), bonus(c, i, false)),
        )
    }
}

/// Row `j` of the table: for each candidate position, the best score of the
/// query prefix `q[0..=j]` ending there.
pub open spec fn row(c: Seq<char>, q: Seq<char>, j: nat) -> Seq<Option<int>>
    decreases j,
{
    let prev = if j == 0 {
        Seq::new(c.len(), |i: int| None::<int>)
    } else {
        row(c, q, (j - 1) as nat)
    };
    Seq::new(c.len(), |i: int| cell(c, q, j as int, prev, i))
}

pub open spec fn opt_view_i32(o: Option<i32>) -> Option<int> {
    match o {
        Some(v) => Some(v as int),
        None => None,
    }
}

pub open spec fn row_view(v: Seq<Option<i32>>) -> Seq<Option<int>> {
    v.map_values(|o: Option<i32>| opt_view_i32(o))
}

// ---------------------------------------------------------------------------
// Lemmas
// ---------------------------------------------------------------------------

proof fn lemma_prefix_max_witness(r: Seq<Option<int>>, t: int)
    requires
        t < r.len(),
        prefix_max(r, t) is Some,
    ensures
        exists|k: int| 0 <= k <= t && r[k] == prefix_max(r, t),
    decreases t + 1,
{
    if t >= 0 {
        if prefix_max(r, t - 1) is Some {
            lemma_prefix_max_witness(r, t - 1);
            let k = choose|k: int| 0 <= k <= t - 1 && r[k] == prefix_max(r, t - 1);
            if r[t] is Some && r[t]->0 > prefix_max(r, t - 1)->0 {
                assert(r[t] == prefix_max(r, t));
            } else {
                assert(r[k] == prefix_max(r, t));
            }
        } else {
            assert(r[t] == prefix_max(r, t));
        }
    }
}

proof fn lemma_prefix_max_bound(r: Seq<Option<int>>, t: int, k: int)
    requires
        0 <= k <= t < r.len(),
        r[k] is Some,
    ensures
        prefix_max(r, t) is Some,
        prefix_max(r, t)->0 >= r[k]->0,
    decreases t - k,
{
    if t > k {
        lemma_prefix_max_bound(r, t - 1, k);
    }
}

proof fn lemma_prefix_max_none(r: Seq<Option<int>>, t: int)
    requires
        t < r.len(),
        prefix_max(r, t) is None,
    ensures
        forall|k: int| 0 <= k <= t ==> r[k] is None,
{
    assert forall|k: int| 0 <= k <= t implies r[k] is None by {
        if r[k] is Some {
            lemma_prefix_max_bound(r, t, k);
        }
    }
}

proof fn lemma_prefix_max_upper(r: Seq<Option<int>>, t: int, bound: int)
    requires
        t < r.len(),
        forall|k: int| 0 <= k <= t && (#[trigger] r[k]) is Some ==> r[k]->0 <= bound,
        prefix_max(r, t) is Some,
    ensures
        prefix_max(r, t)->0 <= bound,
{
    lemma_prefix_max_witness(r, t);
}

proof fn lemma_bonus_range(c: Seq<char>, i: int, consecutive: bool)
    ensures
        1 <= bonus(c, i, consecutive) <= 23,
        !consecutive ==> bonus(c, i, consecutive) <= 13,
{
}

/// Every table entry is between 1 and 23 per placed character.
proof fn lemma_row_bounds(c: Seq<char>, q: Seq<char>, j: nat, i: int)
    requires
        j < q.len(),
        0 <= i < c.len(),
        row(c, q, j)[i] is Some,
    ensures
        1 <= row(c, q, j)[i]->0 <= 23 * (j + 1),
    decreases j,
{
    lemma_bonus_range(c, i, true);
    lemma_bonus_range(c, i, false);
    if j > 0 {
        let prev = row(c, q, (j - 1) as nat);
        assert forall|k: int| 0 <= k < c.len() && (#[trigger] prev[k]) is Some implies 1 <= prev[k]->0 <= 23 * j by {
            lemma_row_bounds(c, q, (j - 1) as nat, k);
        }
        if i >= 2 && prefix_max(prev, i - 2) is Some {
            lemma_prefix_max_upper(prev, i - 2, 23 * (j as int));
            lemma_prefix_max_witness(prev, i - 2);
        }
    }
}

proof fn lemma_align_prefix(c: Seq<char>, q: Seq<char>, pos: Seq<int>)
    requires
        is_alignment(c, q, pos),
        pos.len() >= 1,
    ensures
        is_alignment(c, q.drop_last(), pos.drop_last()),
{
}

/// Soundness of the table: every entry is the score of some alignment that
/// ends at that position.
proof fn lemma_row_sound(c: Seq<char>, q: Seq<char>, j: nat, i: int)
    requires
        j < q.len(),
        0 <= i < c.len(),
        row(c, q, j)[i] is Some,
    ensures
        exists|pos: Seq<int>|
            is_alignment(c, q.take(j as int + 1), pos) && pos.last() == i && #[trigger] align_score(c, pos)
                == row(c, q, j)[i]->0,
    decreases j,
{
    let v = row(c, q, j)[i]->0;
    if j == 0 {
        let pos = seq![i];
        let prev0 = Seq::new(c.len(), |k: int| None::<int>);
        assert(row(c, q, 0)[i] == cell(c, q, 0, prev0, i));
        assert(pos.drop_last() =~= Seq::<int>::empty());
        assert(align_score(c, pos.drop_last()) == 0);
        assert(align_score(c, pos) == v);
        assert(is_alignment(c, q.take(1), pos));
    } else {
        let prev = row(c, q, (j - 1) as nat);
        let from_consecutive = if i >= 1 {
            opt_plus(prev[i - 1], bonus(c, i, true))
        } else {
            None
        };
        let from_gap = opt_plus(prefix_max(prev, i - 2), bonus(c, i, false));
        if from_consecutive is Some && from_consecutive->0 == v {
            lemma_row_sound(c, q, (j - 1) as nat, i - 1);
            let p0 = choose|pos: Seq<int>|
                is_alignment(c, q.take(j as int), pos) && pos.last() == i - 1 && #[trigger] align_score(c, pos)
                    == prev[i - 1]->0;
            let pos = p0.push(i);
            assert(pos.drop_last() =~= p0);
            assert(q.take(j as int + 1).drop_last() =~= q.take(j as int));
            assert(align_score(c, pos) == v);
            assert(is_alignment(c, q.take(j as int + 1), pos));
        } else {
            assert(from_gap is Some && from_gap->0 == v);
            lemma_prefix_max_witness(prev, i - 2);
            let k = choose|k: int| 0 <= k <= i - 2 && prev[k] == prefix_max(prev, i - 2);
            lemma_row_sound(c, q, (j - 1) as nat, k);
            let p0 = choose|pos: Seq<int>|
                is_alignment(c, q.take(j as int), pos) && pos.last() == k && #[trigger] align_score(c, pos)
                    == prev[k]->0;
            let pos = p0.push(i);
            assert(pos.drop_last() =~= p0);
            assert(pos[pos.len() - 2] == k);
            assert(align_score(c, pos) == v);
            assert(is_alignment(c, q.take(j as int + 1), pos));
        }
    }
}

/// Optimality of the table: every alignment ending at a position scores no
/// more than the entry there.
proof fn lemma_row_optimal(c: Seq<char>, q: Seq<char>, pos: Seq<int>)
    requires
        1 <= pos.len() <= q.len(),
        is_alignment(c, q.take(pos.len() as int), pos),
    ensures
        row(c, q, (pos.len() - 1) as nat)[pos.last()] is Some,
        row(c, q, (pos.len() - 1) as nat)[pos.last()]->0 >= align_score(c, pos),
    decreases pos.len(),
{
    let j = (pos.len() - 1) as nat;
    let i = pos.last();
    assert(q.take(pos.len() as int)[j as int] == q[j as int]);
    if j > 0 {
        let p0 = pos.drop_last();
        assert(q.take(pos.len() as int).drop_last() =~= q.take(p0.len() as int));
        lemma_align_prefix(c, q.take(pos.len() as int), pos);
        lemma_row_optimal(c, q, p0);
        let prev = row(c, q, (j - 1) as nat);
        let k = p0.last();
        assert(k == pos[pos.len() - 2]);
        assert(k < i);
        if k == i - 1 {
            assert(row(c, q, j)[i] == cell(c, q, j as int, prev, i));
        } else {
            lemma_prefix_max_bound(prev, i - 2, k);
            assert(row(c, q, j)[i] == cell(c, q, j as int, prev, i));
        }
    } else {
        let prev0 = Seq::new(c.len(), |k: int| None::<int>);
        assert(row(c, q, 0)[i] == cell(c, q, 0, prev0, i));
        assert(pos.drop_last() =~= Seq::<int>::empty());
        assert(align_score(c, pos.drop_last()) == 0);
    }
}

// ---------------------------------------------------------------------------
// Executable code
// ---------------------------------------------------------------------------

/// Per-character match reward at candidate position `i`. Consecutive matches
/// and matches at a word boundary (`/ \ _ - space .`) score much higher, so
/// the start of a folder name outranks scattered letters.
fn char_bonus(candidate: &Vec<char>, i: usize, consecutive: bool) -> (r: i32)
    requires
        i < candidate.len(),
    ensures
        r as int == bonus(candidate@, i as int, consecutive),
{
    let mut b: i32 = 1;
    if consecutive {
        b = b + 10;
    }
    let at_boundary = i == 0 || {
        let p = candidate[i - 1];
        p == '/' || p == '\\' || p == '_' || p == '-' || p == ' ' || p == '.'
    };
    if at_boundary {
        b = b + 8;
    }
    if i == 0 {
        b = b + 4;
    }
    b
}

fn max_opt(a: Option<i32>, b: Option<i32>) -> (r: Option<i32>)
    ensures
        opt_view_i32(r) == opt_max(opt_view_i32(a), opt_view_i32(b)),
{
    match (a, b) {
        (Some(x), Some(y)) => Some(if x >= y { x } else { y }),
        (Some(x), None) => Some(x),
        (None, Some(y)) => Some(y),
        (None, None) => None,
    }
}

/// Fuzzy score: `Some` when every char of `query` appears in `candidate` in
/// order, higher is better. The score is that of the *best* alignment (found
/// by dynamic programming, so a consecutive substring is rewarded even when
/// those characters also appear scattered earlier), scaled by 100, minus the
/// candidate's length so shorter candidates win only when match quality is
/// otherwise equal. An empty query scores `Some(0)`.
pub fn fuzzy_score(candidate: &str, query: &str) -> (r: Option<i32>)
    requires
        query@.len() > candidate@.len() || (candidate@.len() <= i32::MAX && 2300 * query@.len() <= i32::MAX),
    ensures
        query@.len() == 0 ==> r == Some(0i32),
        query@.len() > 0 ==> (r is Some <==> exists|pos: Seq<int>| is_alignment(candidate@, query@, pos)),
        query@.len() > 0 && r is Some ==> exists|pos: Seq<int>|
            is_alignment(candidate@, query@, pos) && r->0 as int == #[trigger] align_score(candidate@, pos) * 100
                - candidate@.len(),
        query@.len() > 0 && r is Some ==> forall|pos: Seq<int>|
            is_alignment(candidate@, query@, pos) ==> #[trigger] align_score(candidate@, pos) * 100
                - candidate@.len() <= r->0 as int,
{
    let chars = chars_of(candidate);
    let q = chars_of(query);
    if q.len() == 0 {
        return Some(0);
    }
    let n = chars.len();
    let m = q.len();
    if m > n {
        proof {
            assert forall|pos: Seq<int>| !is_alignment(candidate@, query@, pos) by {
                if is_alignment(candidate@, query@, pos) {
                    lemma_alignment_fits(candidate@, query@, pos);
                }
            }
        }
        return None;
    }
    let ghost c = chars@;
    let ghost qs = q@;
    let mut prev: Vec<Option<i32>> = Vec::new();
    let mut i0: usize = 0;
    while i0 < n
        invariant
            i0 <= n,
            n == chars.len(),
            prev.len() == i0,
            forall|k: int| 0 <= k < i0 ==> prev@[k] is None,
        decreases n - i0,
    {
        prev.push(None);
        i0 = i0 + 1;
    }
    let mut j: usize = 0;
    while j < m
        invariant
            c == chars@,
            qs == q@,
            n == c.len(),
            m == qs.len(),
            1 <= m <= n,
            m <= 933_688,
            j <= m,
            prev.len() == n,
            j == 0 ==> forall|k: int| 0 <= k < n ==> prev@[k] is None,
            j > 0 ==> row_view(prev@) == row(c, qs, (j - 1) as nat),
        decreases m - j,
    {
        let ghost pv = row_view(prev@);
        let ghost prev_row = if j == 0 {
            Seq::new(c.len(), |i: int| None::<int>)
        } else {
            row(c, qs, (j - 1) as nat)
        };
        proof {
            if j == 0 {
                assert(pv =~= prev_row);
            }
            assert forall|k: int| 0 <= k < n && (#[trigger] pv[k]) is Some implies 1 <= pv[k]->0 <= 23 * j by {
                if j > 0 {
                    lemma_row_bounds(c, qs, (j - 1) as nat, k);
                }
            }
        }
        let mut cur: Vec<Option<i32>> = Vec::new();
        let mut best_gap: Option<i32> = None;
        let mut i: usize = 0;
        while i < n
            invariant
                c == chars@,
                qs == q@,
                n == c.len(),
                m == qs.len(),
                m <= 933_688,
                j < m,
                prev.len() == n,
                pv == row_view(prev@),
                pv == prev_row,
                forall|k: int| 0 <= k < n && (#[trigger] pv[k]) is Some ==> 1 <= pv[k]->0 <= 23 * j,
                i <= n,
                cur.len() == i,
                forall|k: int| 0 <= k < i ==> opt_view_i32(#[trigger] cur@[k]) == cell(c, qs, j as int, pv, k),
                opt_view_i32(best_gap) == prefix_max(pv, i - 2),
            decreases n - i,
        {
            let mut here: Option<i32> = None;
            if chars[i] == q[j] {
                if j == 0 {
                    here = Some(char_bonus(&chars, i, false));
                } else {
                    proof {
                        lemma_bonus_range(c, i as int, true);
                        lemma_bonus_range(c, i as int, false);
                    }
                    let from_consecutive = if i >= 1 {
                        match prev[i - 1] {
                            Some(s) => {
                                assert(pv[i - 1] == Some(s as int));
                                Some(s + char_bonus(&chars, i, true))
                            },
                            None => None,
                        }
                    } else {
                        None
                    };
                    let from_gap = match best_gap {
                        Some(s) => {
                            proof {
                                lemma_prefix_max_upper(pv, i - 2, 23 * j);
                            }
                            Some(s + char_bonus(&chars, i, false))
                        },
                        None => None,
                    };
                    here = max_opt(from_consecutive, from_gap);
                }
            }
            cur.push(here);
            if i >= 1 {
                match prev[i - 1] {
                    Some(s) => {
                        best_gap = max_opt(best_gap, Some(s));
                    },
                    None => {},
                }
            }
            proof {
                if i >= 1 {
                    assert(prefix_max(pv, i - 1) == opt_max(prefix_max(pv, i - 2), pv[i - 1]));
                }
            }
            i = i + 1;
        }
        proof {
            let nr = row(c, qs, j as nat);
            assert(nr =~= Seq::new(c.len(), |k: int| cell(c, qs, j as int, prev_row, k)));
            assert(row_view(cur@) =~= nr);
        }
        prev = cur;
        j = j + 1;
    }
    // the best entry of the last row
    let ghost last = row(c, qs, (m - 1) as nat);
    let mut raw: Option<i32> = None;
    let mut i: usize = 0;
    while i < n
        invariant
            n == c.len(),
            1 <= m <= n,
            m <= 933_688,
            m == qs.len(),
            prev.len() == n,
            row_view(prev@) == last,
            last == row(c, qs, (m - 1) as nat),
            i <= n,
            opt_view_i32(raw) == prefix_max(last, i - 1),
        decreases n - i,
    {
        assert(row_view(prev@)[i as int] == last[i as int]);
        raw = max_opt(raw, prev[i]);
        i = i + 1;
    }
    match raw {
        None => {
            proof {
                lemma_prefix_max_none(last, n - 1);
                assert forall|pos: Seq<int>| !is_alignment(c, qs, pos) by {
                    if is_alignment(c, qs, pos) {
                        assert(qs.take(m as int) =~= qs);
                        lemma_row_optimal(c, qs, pos);
                    }
                }
            }
            None
        },
        Some(best) => {
            proof {
                lemma_prefix_max_witness(last, n - 1);
                let k = choose|k: int| 0 <= k <= n - 1 && last[k] == prefix_max(last, n - 1);
                lemma_row_bounds(c, qs, (m - 1) as nat, k);
                lemma_row_sound(c, qs, (m - 1) as nat, k);
                assert(qs.take(m as int) =~= qs);
                assert forall|pos: Seq<int>| is_alignment(c, qs, pos) implies #[trigger] align_score(c, pos) * 100
                    - c.len() <= best * 100 - c.len() by {
                    lemma_row_optimal(c, qs, pos);
                    lemma_alignment_fits(c, qs, pos);
                    lemma_prefix_max_bound(last, n - 1, pos.last());
                }
                assert(best <= 23 * m);
                assert(best * 100 <= 2_147_482_400) by (nonlinear_arith)
                    requires
                        best <= 23 * m,
                        m <= 933_688,
                ;
            }
            let len: i32 = n as i32;
            Some(best * 100 - len)
        },
    }
}

/// An alignment never places more characters than the candidate has.
proof fn lemma_alignment_fits(c: Seq<char>, q: Seq<char>, pos: Seq<int>)
    requires
        is_alignment(c, q, pos),
    ensures
        q.len() <= c.len(),
        pos.len() > 0 ==> 0 <= pos.last() < c.len(),
{
    if pos.len() > 0 {
        lemma_alignment_spread(pos, pos.len() - 1);
        assert(pos[pos.len() - 1] < c.len());
    }
}

/// Strictly increasing positions grow at least by one per step.
proof fn lemma_alignment_spread(pos: Seq<int>, k: int)
    requires
        0 <= k < pos.len(),
        forall|a: int, b: int| 0 <= a < b < pos.len() ==> #[trigger] pos[a] < #[trigger] pos[b],
        pos[0] >= 0,
    ensures
        pos[k] >= k,
    decreases k,
{
    if k > 0 {
        lemma_alignment_spread(pos, k - 1);
        assert(pos[k - 1] < pos[k]);
    }
}

// ---------------------------------------------------------------------------
// Walking the output tree
// ---------------------------------------------------------------------------

/// A folder found by the search walk, with its path relative to the output
/// root (forward-slashed) for display and re-scoring.
#[derive(Debug)]
pub struct ScoredFolder {
    pub path: String,
    /// Forward-slashed path relative to the output root.
    pub rel: String,
    pub score: i32,
}

/// What the search walk does with one directory entry.
#[derive(Debug)]
pub enum WalkStep {
    /// Not a folder to visit (a file, the state dir, an ignored folder).
    Skip,
    /// A folder to descend into, with its hit if its relative path matches.
    Descend(Option<ScoredFolder>),
}

/// The forward-slashed path of `path` relative to `root` (the path itself
/// when it is not under `root`).
pub open spec fn rel_of(path: Seq<char>, root: Seq<char>) -> Seq<char> {
    match spec_strip_prefix(path, root) {
        Some(r) => slashify(r),
        None => path,
    }
}

/// What `fuzzy_score` gives: `None` when the query is not a subsequence, else
/// the best alignment's score (stated by [`fuzzy_score`]'s contract).
pub open spec fn score_ok(r: Option<i32>, candidate: Seq<char>, query: Seq<char>) -> bool {
    &&& query.len() == 0 ==> r == Some(0i32)
    &&& query.len() > 0 ==> (r is Some <==> exists|pos: Seq<int>| is_alignment(candidate, query, pos))
    &&& query.len() > 0 && r is Some ==> exists|pos: Seq<int>|
        is_alignment(candidate, query, pos) && r->0 as int == #[trigger] align_score(candidate, pos) * 100
            - candidate.len()
    &&& query.len() > 0 && r is Some ==> forall|pos: Seq<int>|
        is_alignment(candidate, query, pos) ==> #[trigger] align_score(candidate, pos) * 100 - candidate.len()
            <= r->0 as int
}

/// Scoring `candidate` against `query` could overflow the `i32` score: the
/// query fits in the candidate but one of them is too long for the scaled
/// score.
pub open spec fn too_long_to_score(candidate: Seq<char>, query: Seq<char>) -> bool {
    query.len() <= candidate.len() && (candidate.len() > i32::MAX || 2300 * query.len() > i32::MAX)
}

/// Decide what the search walk does with one entry of a folder under
/// `root`: folders other than the state dir and ignored ones are descended
/// into, and scored (case-insensitively) by their relative path against the
/// lowercased query. A pair too long to score without overflowing `i32` is
/// not scored.
pub fn walk_entry(
    root: &str,
    state_dir: &str,
    lowered_query: &str,
    ignores: &IgnoreSet,
    entry: &DirEntryInfo,
) -> (r: WalkStep)
    ensures
        !entry.is_dir || ascii_lower(label_of(entry.path@)) == ascii_lower(state_dir@) || ignores.spec_is_ignored(
            entry.path@,
        ) ==> r is Skip,
        entry.is_dir && ascii_lower(label_of(entry.path@)) != ascii_lower(state_dir@) && !ignores.spec_is_ignored(
            entry.path@,
        ) ==> r is Descend,
        r matches WalkStep::Descend(Some(hit)) ==> hit.path@ == entry.path@ && hit.rel@ == rel_of(entry.path@, root@)
            && !too_long_to_score(ascii_lower(hit.rel@), lowered_query@) && score_ok(
            Some(hit.score),
            ascii_lower(hit.rel@),
            lowered_query@,
        ),
        r matches WalkStep::Descend(None) ==> too_long_to_score(ascii_lower(rel_of(entry.path@, root@)), lowered_query@)
            || score_ok(None, ascii_lower(rel_of(entry.path@, root@)), lowered_query@),
{
    if !entry.is_dir {
        return WalkStep::Skip;
    }
    let name = match file_name(entry.path.as_str()) {
        Some(n) => n,
        None => String::new(),
    };
    assert(name@ == label_of(entry.path@));
    if eq_ignore_ascii_case(name.as_str(), state_dir) {
        return WalkStep::Skip;
    }
    if ignores.is_ignored(entry.path.as_str()) {
        return WalkStep::Skip;
    }
    let rel = match strip_prefix(entry.path.as_str(), root) {
        Some(r) => slashify_exec(r.as_str()),
        None => entry.path.clone(),
    };
    let lowered = to_ascii_lowercase(rel.as_str());
    let n = chars_of(lowered.as_str()).len();
    let qn = chars_of(lowered_query).len();
    if qn <= n && (n > 2147483647 || qn > 933_688) {
        return WalkStep::Descend(None);
    }
    match fuzzy_score(lowered.as_str(), lowered_query) {
        Some(score) => WalkStep::Descend(Some(ScoredFolder { rel, score, path: entry.path.clone() })),
        None => WalkStep::Descend(None),
    }
}

/// The Navigator row for a search hit: named by the folder's file name (its
/// relative path when it has none), with the given counts.
pub fn folder_entry_for_hit(hit: &ScoredFolder, media_count: usize, subfolder_count: usize) -> (r: FolderEntry)
    ensures
        r.name@ == (match spec_file_name(hit.path@) {
            Some(n) => n,
            None => hit.rel@,
        }),
        r.path@ == hit.path@,
        r.media_count == media_count,
        r.subfolder_count == subfolder_count,
{
    let name = match file_name(hit.path.as_str()) {
        Some(n) => n,
        None => hit.rel.clone(),
    };
    FolderEntry { media_count, subfolder_count, path: hit.path.clone(), name }
}


// ---------------------------------------------------------------------------
// Laws of the score
// ---------------------------------------------------------------------------

/// The only alignment of a query whose characters each occur once in the
/// candidate, at increasing positions.
proof fn lemma_unique_alignment(c: Seq<char>, q: Seq<char>, at: Seq<int>, pos: Seq<int>)
    requires
        at.len() == q.len(),
        forall|j: int| 0 <= j < at.len() ==> 0 <= #[trigger] at[j] < c.len() && c[at[j]] == q[j],
        forall|j: int, k: int| 0 <= j < q.len() && 0 <= k < c.len() && c[k] == q[j] ==> k == at[j],
        is_alignment(c, q, pos),
    ensures
        pos == at,
{
    assert forall|j: int| 0 <= j < pos.len() implies pos[j] == at[j] by {
        assert(c[pos[j]] == q[j]);
    }
    assert(pos =~= at);
}

/// A one-character query that occurs once in the candidate scores by where
/// it sits: 13 at the start, 9 right after a word boundary (`/`, `\`, `_`,
/// `-`, space, `.`), 1 elsewhere; times 100, minus the candidate's length.
pub proof fn lemma_single_char_score(c: Seq<char>, x: char, i: int, r: Option<i32>)
    requires
        score_ok(r, c, seq![x]),
        0 <= i < c.len(),
        c[i] == x,
        forall|k: int| 0 <= k < c.len() && k != i ==> c[k] != x,
    ensures
        r matches Some(s) && s as int == (if i == 0 {
            13int
        } else if c[i - 1] == '/' || c[i - 1] == '\\' || c[i - 1] == '_' || c[i - 1] == '-' || c[i - 1] == ' '
            || c[i - 1] == '.' {
            9int
        } else {
            1int
        }) * 100 - c.len(),
{
    let q = seq![x];
    let at = seq![i];
    assert(is_alignment(c, q, at));
    assert(q.len() == 1);
    assert(exists|pos: Seq<int>| is_alignment(c, q, pos));
    assert(r is Some);
    let pos = choose|pos: Seq<int>|
        is_alignment(c, q, pos) && r->0 as int == #[trigger] align_score(c, pos) * 100 - c.len();
    lemma_unique_alignment(c, q, at, pos);
    assert(at.drop_last() =~= Seq::<int>::empty());
    assert(align_score(c, at.drop_last()) == 0);
    assert(align_score(c, at) == bonus(c, i, false));
}

/// A two-character query whose characters each occur once, in order,
/// scores the first character by where it sits (13 at the start, 9 after a
/// word boundary, 1 elsewhere) and the second by whether it follows
/// directly (11 more, plus 8 when the first character is itself a word
/// boundary) or sits elsewhere (1, plus 8 after a word boundary); times
/// 100, minus the candidate's length.
pub proof fn lemma_two_char_score(c: Seq<char>, x: char, y: char, i: int, j: int, r: Option<i32>)
    requires
        score_ok(r, c, seq![x, y]),
        0 <= i < j < c.len(),
        c[i] == x,
        c[j] == y,
        forall|k: int| 0 <= k < c.len() && k != i ==> c[k] != x,
        forall|k: int| 0 <= k < c.len() && k != j ==> c[k] != y,
    ensures
        r matches Some(s) && s as int == ((if i == 0 {
            13int
        } else if c[i - 1] == '/' || c[i - 1] == '\\' || c[i - 1] == '_' || c[i - 1] == '-' || c[i - 1] == ' '
            || c[i - 1] == '.' {
            9int
        } else {
            1int
        }) + (if j == i + 1 {
            11int
        } else {
            1int
        }) + (if c[j - 1] == '/' || c[j - 1] == '\\' || c[j - 1] == '_' || c[j - 1] == '-' || c[j - 1] == ' '
            || c[j - 1] == '.' {
            8int
        } else {
            0int
        })) * 100 - c.len(),
{
    let q = seq![x, y];
    let at = seq![i, j];
    assert(is_alignment(c, q, at));
    assert(q.len() == 2);
    assert(exists|pos: Seq<int>| is_alignment(c, q, pos));
    assert(r is Some);
    let pos = choose|pos: Seq<int>|
        is_alignment(c, q, pos) && r->0 as int == #[trigger] align_score(c, pos) * 100 - c.len();
    assert forall|jj: int, k: int| 0 <= jj < q.len() && 0 <= k < c.len() && c[k] == q[jj] implies k == at[jj] by {
        if jj == 0 {
            assert(q[0] == x);
        } else {
            assert(q[1] == y);
        }
    }
    lemma_unique_alignment(c, q, at, pos);
    let a1 = at.drop_last();
    assert(a1 =~= seq![i]);
    assert(a1.drop_last() =~= Seq::<int>::empty());
    assert(align_score(c, a1.drop_last()) == 0);
    assert(align_score(c, a1) == bonus(c, i, false));
    assert(at.last() == j && at[at.len() - 2] == i);
    assert(align_score(c, at) == bonus(c, i, false) + bonus(c, j, j == i + 1));
    if j == i + 1 {
        assert(c[j - 1] == x);
    }
}
} // verus!
