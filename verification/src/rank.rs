//! Stable ordering of listings by a two-part key.
//!
//! Every listing the engine produces (inbox newest-first, destinations by
//! label, Navigator folders by media count, search hits by score) orders its
//! rows by a numeric key, largest first, then by a string key in `str` order,
//! and keeps the input order of rows whose keys are equal (`sort_by` is
//! stable). `rank` implements that order once, for any row type.

use vstd::prelude::*;
use crate::text::{compare_str, lex_lt, lemma_lex_total, lemma_lex_transitive, lemma_lex_irreflexive, Order3};

verus! {

/// The sort key of one row: `major` sorts descending, `minor` ascending.
pub struct RankKey {
    pub major: i128,
    pub minor: String,
}

/// Row `i` (key `a`) comes before row `j` (key `b`): larger major first, then
/// smaller minor, then the earlier position.
pub open spec fn ranks_before(a: (int, Seq<char>), i: int, b: (int, Seq<char>), j: int) -> bool {
    ||| a.0 > b.0
    ||| (a.0 == b.0 && lex_lt(a.1, b.1))
    ||| (a.0 == b.0 && a.1 == b.1 && i < j)
}

/// The abstract value of a key.
pub open spec fn key_view(k: RankKey) -> (int, Seq<char>) {
    (k.major as int, k.minor@)
}

/// `p` lists every position of `keys` exactly once, in rank order.
pub open spec fn is_ranking(keys: Seq<(int, Seq<char>)>, p: Seq<int>) -> bool {
    &&& p.len() == keys.len()
    &&& forall|k: int| 0 <= k < p.len() ==> 0 <= #[trigger] p[k] < keys.len()
    &&& forall|i: int| 0 <= i < keys.len() ==> #[trigger] p.contains(i)
    &&& forall|a: int, b: int|
        0 <= a < b < p.len() ==> ranks_before(keys[#[trigger] p[a]], p[a], keys[#[trigger] p[b]], p[b])
}

/// `out` is `items` reordered by `keys` (the stable sort of `items`).
pub open spec fn ranked<T>(out: Seq<T>, items: Seq<T>, keys: Seq<(int, Seq<char>)>) -> bool {
    items.len() == keys.len() && exists|p: Seq<int>|
        #[trigger] is_ranking(keys, p) && out.len() == p.len() && forall|k: int|
            0 <= k < p.len() ==> #[trigger] out[k] == items[p[k]]
}

pub proof fn lemma_ranks_before_total(a: (int, Seq<char>), i: int, b: (int, Seq<char>), j: int)
    requires
        i != j,
    ensures
        ranks_before(a, i, b, j) || ranks_before(b, j, a, i),
{
    if a.0 == b.0 && a.1 != b.1 {
        lemma_lex_total(a.1, b.1);
    }
}

pub proof fn lemma_ranks_before_transitive(
    a: (int, Seq<char>),
    i: int,
    b: (int, Seq<char>),
    j: int,
    c: (int, Seq<char>),
    k: int,
)
    requires
        ranks_before(a, i, b, j),
        ranks_before(b, j, c, k),
    ensures
        ranks_before(a, i, c, k),
{
    if a.0 == b.0 && b.0 == c.0 {
        if lex_lt(a.1, b.1) && lex_lt(b.1, c.1) {
            lemma_lex_transitive(a.1, b.1, c.1);
        }
    }
}

/// Exec form of `ranks_before`.
fn ranks_before_exec(a: &RankKey, i: usize, b: &RankKey, j: usize) -> (r: bool)
    ensures
        r == ranks_before(key_view(*a), i as int, key_view(*b), j as int),
{
    if a.major > b.major {
        true
    } else if a.major < b.major {
        false
    } else {
        match compare_str(a.minor.as_str(), b.minor.as_str()) {
            Order3::Less => true,
            Order3::Greater => {
                proof {
                    crate::text::lemma_lex_asymmetric(b.minor@, a.minor@);
                }
                false
            },
            Order3::Equal => {
                proof {
                    lemma_lex_irreflexive(a.minor@);
                }
                i < j
            },
        }
    }
}

/// Some entry of `s` is `i`.
pub open spec fn has_index(s: Seq<usize>, i: int) -> bool {
    exists|k: int| 0 <= k < s.len() && s[k] as int == i
}

/// The keys' abstract values.
pub open spec fn keys_view(keys: Seq<RankKey>) -> Seq<(int, Seq<char>)> {
    keys.map_values(|k: RankKey| key_view(k))
}

/// Reorder `items` by `keys` (row `i` has key `keys[i]`): largest `major`
/// first, then `minor` in `str` order, equal keys keeping their order.
pub fn rank<T>(items: Vec<T>, keys: Vec<RankKey>) -> (r: Vec<T>)
    requires
        items.len() == keys.len(),
    ensures
        ranked(r@, items@, keys_view(keys@)),
{
    let ghost orig_items = items@;
    let ghost kv = keys_view(keys@);
    let n = items.len();
    let mut items = items;
    let mut keys = keys;
    let mut out: Vec<T> = Vec::new();
    let mut out_keys: Vec<RankKey> = Vec::new();
    let mut out_idx: Vec<usize> = Vec::new();
    while items.len() > 0
        invariant
            n == orig_items.len(),
            n == kv.len(),
            items.len() == keys.len(),
            items.len() <= n,
            items@ == orig_items.take(items.len() as int),
            forall|i: int| 0 <= i < keys.len() ==> key_view(#[trigger] keys@[i]) == kv[i],
            out.len() == out_keys.len(),
            out.len() == out_idx.len(),
            out.len() + items.len() == n,
            forall|k: int|
                0 <= k < out_idx.len() ==> items.len() <= #[trigger] out_idx@[k] < n,
            forall|k: int| 0 <= k < out.len() ==> out@[k] == orig_items[out_idx@[k] as int],
            forall|k: int| 0 <= k < out.len() ==> key_view(#[trigger] out_keys@[k]) == kv[out_idx@[k] as int],
            forall|i: int| items.len() <= i < n ==> #[trigger] has_index(out_idx@, i),
            forall|a: int, b: int|
                0 <= a < b < out_idx.len() ==> ranks_before(
                    kv[#[trigger] out_idx@[a] as int],
                    out_idx@[a] as int,
                    kv[#[trigger] out_idx@[b] as int],
                    out_idx@[b] as int,
                ),
        decreases items.len(),
    {
        let ghost old_idx = out_idx@;
        let ghost old_out = out@;
        let ghost old_keys = out_keys@;
        let x = items.pop().unwrap();
        let kx = keys.pop().unwrap();
        let ix = items.len();
        assert(x == orig_items[ix as int]);
        assert(key_view(kx) == kv[ix as int]);
        let mut pos: usize = 0;
        while pos < out.len() && !ranks_before_exec(&kx, ix, &out_keys[pos], out_idx[pos])
            invariant
                pos <= out.len(),
                out.len() == out_keys.len(),
                out.len() == out_idx.len(),
                forall|k: int| 0 <= k < out_idx.len() ==> ix < #[trigger] out_idx@[k],
                forall|k: int| 0 <= k < out.len() ==> key_view(#[trigger] out_keys@[k]) == kv[out_idx@[k] as int],
                key_view(kx) == kv[ix as int],
                forall|k: int|
                    0 <= k < pos ==> ranks_before(
                        kv[#[trigger] out_idx@[k] as int],
                        out_idx@[k] as int,
                        kv[ix as int],
                        ix as int,
                    ),
            decreases out.len() - pos,
        {
            proof {
                lemma_ranks_before_total(kv[ix as int], ix as int, kv[out_idx@[pos as int] as int], out_idx@[pos as int] as int);
            }
            pos = pos + 1;
        }
        out.insert(pos, x);
        out_keys.insert(pos, kx);
        out_idx.insert(pos, ix);
        proof {
            assert(items@ =~= orig_items.take(items.len() as int));
            assert forall|k: int| 0 <= k < out_idx.len() implies items.len() <= #[trigger] out_idx@[k] < n by {
                if k < pos {
                    assert(out_idx@[k] == old_idx[k]);
                } else if k > pos {
                    assert(out_idx@[k] == old_idx[k - 1]);
                }
            }
            assert forall|k: int| 0 <= k < out.len() implies out@[k] == orig_items[out_idx@[k] as int] by {
                if k < pos {
                    assert(out@[k] == old_out[k]);
                    assert(out_idx@[k] == old_idx[k]);
                } else if k > pos {
                    assert(out@[k] == old_out[k - 1]);
                    assert(out_idx@[k] == old_idx[k - 1]);
                }
            }
            assert forall|k: int| 0 <= k < out.len() implies key_view(#[trigger] out_keys@[k]) == kv[out_idx@[k] as int] by {
                if k < pos {
                    assert(out_keys@[k] == old_keys[k]);
                    assert(out_idx@[k] == old_idx[k]);
                } else if k > pos {
                    assert(out_keys@[k] == old_keys[k - 1]);
                    assert(out_idx@[k] == old_idx[k - 1]);
                }
            }
            assert forall|i: int| items.len() <= i < n implies #[trigger] has_index(out_idx@, i) by {
                if i == ix {
                    assert(out_idx@[pos as int] == i);
                } else {
                    assert(has_index(old_idx, i));
                    let k0 = choose|k: int| 0 <= k < old_idx.len() && old_idx[k] as int == i;
                    if k0 < pos {
                        assert(out_idx@[k0] == old_idx[k0]);
                    } else {
                        assert(out_idx@[k0 + 1] == old_idx[k0]);
                    }
                }
            }
            assert forall|a: int, b: int| 0 <= a < b < out_idx.len() implies ranks_before(
                kv[#[trigger] out_idx@[a] as int],
                out_idx@[a] as int,
                kv[#[trigger] out_idx@[b] as int],
                out_idx@[b] as int,
            ) by {
                let ga: int = if a < pos { a } else { a - 1 };
                let gb: int = if b < pos { b } else { b - 1 };
                if a == pos {
                    // the new row sorts before the row that followed it
                    assert(ranks_before(kv[ix as int], ix as int, kv[old_idx[pos as int] as int], old_idx[pos as int] as int));
                    if gb > pos {
                        lemma_ranks_before_transitive(
                            kv[ix as int], ix as int,
                            kv[old_idx[pos as int] as int], old_idx[pos as int] as int,
                            kv[old_idx[gb] as int], old_idx[gb] as int,
                        );
                    }
                } else if b == pos {
                    assert(out_idx@[a] == old_idx[a]);
                } else {
                    assert(out_idx@[a] == old_idx[ga]);
                    assert(out_idx@[b] == old_idx[gb]);
                }
            }
        }
    }
    proof {
        let p = out_idx@.map_values(|v: usize| v as int);
        assert(is_ranking(kv, p)) by {
            assert forall|i: int| 0 <= i < kv.len() implies #[trigger] p.contains(i) by {
                assert(has_index(out_idx@, i));
                let k0 = choose|k: int| 0 <= k < out_idx.len() && out_idx@[k] as int == i;
                assert(p[k0] == i);
            }
            assert forall|a: int, b: int| 0 <= a < b < p.len() implies ranks_before(kv[#[trigger] p[a]], p[a], kv[#[trigger] p[b]], p[b]) by {
                assert(p[a] == out_idx@[a] as int);
                assert(p[b] == out_idx@[b] as int);
            }
        }
        assert(forall|k: int| 0 <= k < p.len() ==> out@[k] == orig_items[p[k]]);
    }
    out
}

/// Reordering commutes with taking a view of each row.
pub proof fn lemma_ranked_map<T, U>(out: Seq<T>, items: Seq<T>, keys: Seq<(int, Seq<char>)>, f: spec_fn(T) -> U)
    requires
        ranked(out, items, keys),
    ensures
        ranked(out.map_values(f), items.map_values(f), keys),
{
    let p = choose|p: Seq<int>|
        #[trigger] is_ranking(keys, p) && out.len() == p.len() && forall|k: int|
            0 <= k < p.len() ==> #[trigger] out[k] == items[p[k]];
    assert(is_ranking(keys, p));
    assert forall|k: int| 0 <= k < p.len() implies #[trigger] out.map_values(f)[k] == items.map_values(f)[p[k]] by {
        assert(out[k] == items[p[k]]);
    }
}


/// A ranked list is in key order: each row's key is larger, or equal with
/// a smaller-or-equal string, than the key of every row after it.
pub proof fn lemma_ranked_in_order<T>(out: Seq<T>, items: Seq<T>, f: spec_fn(T) -> (int, Seq<char>))
    requires
        ranked(out, items, items.map_values(f)),
    ensures
        forall|a: int, b: int|
            0 <= a < b < out.len() ==> f(#[trigger] out[a]).0 > f(#[trigger] out[b]).0 || (f(out[a]).0 == f(out[b]).0
                && (f(out[a]).1 == f(out[b]).1 || lex_lt(f(out[a]).1, f(out[b]).1))),
{
    let keys = items.map_values(f);
    let p = choose|p: Seq<int>|
        #[trigger] is_ranking(keys, p) && out.len() == p.len() && forall|k: int|
            0 <= k < p.len() ==> #[trigger] out[k] == items[p[k]];
    assert(is_ranking(keys, p));
    assert forall|a: int, b: int| 0 <= a < b < out.len() implies f(#[trigger] out[a]).0 > f(#[trigger] out[b]).0 || (f(
        out[a],
    ).0 == f(out[b]).0 && (f(out[a]).1 == f(out[b]).1 || lex_lt(f(out[a]).1, f(out[b]).1))) by {
        assert(out[a] == items[p[a]]);
        assert(out[b] == items[p[b]]);
        assert(0 <= p[a] < keys.len() && 0 <= p[b] < keys.len());
        assert(keys[p[a]] == f(out[a]));
        assert(keys[p[b]] == f(out[b]));
        assert(ranks_before(keys[p[a]], p[a], keys[p[b]], p[b]));
    }
}
} // verus!
