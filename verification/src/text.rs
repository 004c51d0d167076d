//! Character-level string helpers shared by the path, ignore, search and
//! sorting logic. Strings are modelled by their `Seq<char>` view; string order
//! is lexicographic by Unicode scalar value, which is the order Rust's `str`
//! comparison gives (UTF-8 byte order agrees with code point order).

use vstd::prelude::*;

verus! {

/// The characters of `s`, in order.
pub fn chars_of(s: &str) -> (r: Vec<char>)
    ensures
        r@ == s@,
{
    broadcast use vstd::string::axiom_spec_iter;
    let mut out: Vec<char> = Vec::new();
    for c in it: s.chars()
        invariant
            it.seq() == s@,
            out@ == it.seq().take(it.index() as int),
    {
        out.push(c);
    }
    out
}

/// The string made of the characters of `v`, in order.
pub fn string_of(v: &Vec<char>) -> (r: String)
    ensures
        r@ == v@,
{
    let mut out = String::new();
    let mut i: usize = 0;
    while i < v.len()
        invariant
            i <= v.len(),
            out@ == v@.take(i as int),
        decreases v.len() - i,
    {
        push_char(&mut out, v[i]);
        assert(v@.take(i + 1) =~= v@.take(i as int).push(v@[i as int]));
        i = i + 1;
    }
    assert(v@.take(i as int) =~= v@);
    out
}

/// An owned copy of `s`.
pub fn owned(s: &str) -> (r: String)
    ensures
        r@ == s@,
{
    s.to_owned()
}

/// What `str::to_lowercase` returns for a string: the full Unicode lowercase
/// mapping, character by character (some characters map to several).
pub uninterp spec fn spec_to_lowercase(s: Seq<char>) -> Seq<char>;

/// `str::to_lowercase`. The contract only names the result: it is a function
/// of the characters of `s` alone; the Unicode case tables are not restated.
#[verifier::external_body]
pub fn to_lowercase(s: &str) -> (r: String)
    ensures
        r@ == spec_to_lowercase(s@),
{
    s.to_lowercase()
}

/// A character with the Unicode `White_Space` property (the 25 code points
/// of `char::is_whitespace`).
pub open spec fn is_unicode_white_space(c: char) -> bool {
    let u = c as u32;
    ||| 0x09 <= u <= 0x0d
    ||| u == 0x20
    ||| u == 0x85
    ||| u == 0xa0
    ||| u == 0x1680
    ||| 0x2000 <= u <= 0x200a
    ||| u == 0x2028
    ||| u == 0x2029
    ||| u == 0x202f
    ||| u == 0x205f
    ||| u == 0x3000
}

/// `s` without its leading white space.
pub open spec fn trim_start_ws(s: Seq<char>) -> Seq<char>
    decreases s.len(),
{
    if s.len() > 0 && is_unicode_white_space(s[0]) {
        trim_start_ws(s.drop_first())
    } else {
        s
    }
}

/// `s` without its trailing white space.
pub open spec fn trim_end_ws(s: Seq<char>) -> Seq<char>
    decreases s.len(),
{
    if s.len() > 0 && is_unicode_white_space(s.last()) {
        trim_end_ws(s.drop_last())
    } else {
        s
    }
}

/// What `str::trim` returns: `s` without leading and trailing white space.
pub open spec fn spec_trim(s: Seq<char>) -> Seq<char> {
    trim_end_ws(trim_start_ws(s))
}

/// Only white space.
pub open spec fn all_white_space(s: Seq<char>) -> bool {
    forall|i: int| 0 <= i < s.len() ==> is_unicode_white_space(#[trigger] s[i])
}

proof fn lemma_trim_start_blank(s: Seq<char>)
    requires
        all_white_space(s),
    ensures
        trim_start_ws(s).len() == 0,
    decreases s.len(),
{
    if s.len() > 0 {
        assert(is_unicode_white_space(s[0]));
        let t = s.drop_first();
        assert forall|i: int| 0 <= i < t.len() implies is_unicode_white_space(#[trigger] t[i]) by {
            assert(t[i] == s[i + 1]);
        }
        lemma_trim_start_blank(t);
    }
}

/// A string of white space trims to nothing (a blank entry is dropped).
pub proof fn lemma_trim_blank(s: Seq<char>)
    requires
        all_white_space(s),
    ensures
        spec_trim(s).len() == 0,
{
    lemma_trim_start_blank(s);
}

/// Leading white space does not change where `trim_start` stops.
proof fn lemma_trim_start_prefix(a: Seq<char>, x: Seq<char>)
    requires
        all_white_space(a),
    ensures
        trim_start_ws(a + x) == trim_start_ws(x),
    decreases a.len(),
{
    if a.len() > 0 {
        assert(is_unicode_white_space(a[0]));
        assert((a + x)[0] == a[0]);
        let t = a.drop_first();
        assert forall|i: int| 0 <= i < t.len() implies is_unicode_white_space(#[trigger] t[i]) by {
            assert(t[i] == a[i + 1]);
        }
        assert((a + x).drop_first() =~= t + x);
        lemma_trim_start_prefix(t, x);
    } else {
        assert(a + x =~= x);
    }
}

/// Trailing white space does not change where `trim_end` stops.
proof fn lemma_trim_end_suffix(x: Seq<char>, b: Seq<char>)
    requires
        all_white_space(b),
    ensures
        trim_end_ws(x + b) == trim_end_ws(x),
    decreases b.len(),
{
    if b.len() > 0 {
        assert(is_unicode_white_space(b[b.len() - 1]));
        assert((x + b).last() == b.last());
        let t = b.drop_last();
        assert forall|i: int| 0 <= i < t.len() implies is_unicode_white_space(#[trigger] t[i]) by {
            assert(t[i] == b[i]);
        }
        assert((x + b).drop_last() =~= x + t);
        lemma_trim_end_suffix(x, t);
    } else {
        assert(x + b =~= x);
    }
}

/// `trim_start` of `x + b`, when `x` holds something besides white space.
proof fn lemma_trim_start_append(x: Seq<char>, b: Seq<char>)
    requires
        !all_white_space(x),
    ensures
        trim_start_ws(x + b) == trim_start_ws(x) + b,
    decreases x.len(),
{
    assert(x.len() > 0);
    if is_unicode_white_space(x[0]) {
        let t = x.drop_first();
        assert(!all_white_space(t)) by {
            let k = choose|k: int| 0 <= k < x.len() && !is_unicode_white_space(#[trigger] x[k]);
            assert(k > 0);
            assert(t[k - 1] == x[k]);
        }
        assert((x + b)[0] == x[0]);
        assert((x + b).drop_first() =~= t + b);
        lemma_trim_start_append(t, b);
    } else {
        assert((x + b)[0] == x[0]);
    }
}

/// White space around a string does not change what it trims to.
pub proof fn lemma_trim_padding(a: Seq<char>, x: Seq<char>, b: Seq<char>)
    requires
        all_white_space(a),
        all_white_space(b),
    ensures
        spec_trim(a + x + b) == spec_trim(x),
{
    lemma_trim_start_prefix(a, x + b);
    assert(a + x + b =~= a + (x + b));
    if all_white_space(x) {
        assert(all_white_space(x + b)) by {
            assert forall|i: int| 0 <= i < (x + b).len() implies is_unicode_white_space(#[trigger] (x + b)[i]) by {
                if i < x.len() {
                    assert((x + b)[i] == x[i]);
                } else {
                    assert((x + b)[i] == b[i - x.len()]);
                }
            }
        }
        lemma_trim_start_blank(x + b);
        lemma_trim_start_blank(x);
    } else {
        lemma_trim_start_append(x, b);
        lemma_trim_end_suffix(trim_start_ws(x), b);
    }
}

/// `str::trim`, as an owned string: leading and trailing characters with
/// the Unicode `White_Space` property removed.
#[verifier::external_body]
pub fn trim(s: &str) -> (r: String)
    ensures
        r@ == spec_trim(s@),
{
    s.trim().to_owned()
}

/// Append one character.
#[verifier::external_body]
pub fn push_char(s: &mut String, c: char)
    ensures
        final(s)@ == old(s)@.push(c),
{
    s.push(c)
}

/// Append a string.
#[verifier::external_body]
pub fn push_str(s: &mut String, t: &str)
    ensures
        final(s)@ == old(s)@ + t@,
{
    s.push_str(t)
}

/// ASCII lowercase of one character (`char::to_ascii_lowercase`).
pub open spec fn ascii_lower_char(c: char) -> char {
    if 'A' <= c && c <= 'Z' {
        ((c as u32) + 32) as char
    } else {
        c
    }
}

/// ASCII lowercase of a string (`str::to_ascii_lowercase`).
pub open spec fn ascii_lower(s: Seq<char>) -> Seq<char> {
    s.map_values(|c: char| ascii_lower_char(c))
}

/// `s` with every `\` turned into `/`.
pub open spec fn slashify(s: Seq<char>) -> Seq<char> {
    s.map_values(|c: char| if c == '\\' { '/' } else { c })
}

/// `s` without its trailing `/` characters (`trim_end_matches('/')`).
pub open spec fn trim_end_slashes(s: Seq<char>) -> Seq<char>
    decreases s.len(),
{
    if s.len() > 0 && s.last() == '/' {
        trim_end_slashes(s.drop_last())
    } else {
        s
    }
}

pub fn ascii_lower_char_exec(c: char) -> (r: char)
    ensures
        r == ascii_lower_char(c),
{
    if 'A' <= c && c <= 'Z' {
        let u: u32 = (c as u32) + 32;
        proof {
            assert(0x61 <= u <= 0x7a);
        }
        let b: u8 = u as u8;
        let d: char = b as char;
        assert(d == ((c as u32) + 32) as char);
        d
    } else {
        c
    }
}

/// `str::to_ascii_lowercase`.
pub fn to_ascii_lowercase(s: &str) -> (r: String)
    ensures
        r@ == ascii_lower(s@),
{
    let cs = chars_of(s);
    let mut out: Vec<char> = Vec::new();
    let mut i: usize = 0;
    while i < cs.len()
        invariant
            cs@ == s@,
            i <= cs.len(),
            out@ == ascii_lower(cs@.take(i as int)),
        decreases cs.len() - i,
    {
        let c = ascii_lower_char_exec(cs[i]);
        out.push(c);
        i = i + 1;
        assert(out@ =~= ascii_lower(cs@.take(i as int)));
    }
    assert(cs@.take(i as int) =~= cs@);
    string_of(&out)
}

/// `str::eq_ignore_ascii_case`.
pub fn eq_ignore_ascii_case(a: &str, b: &str) -> (r: bool)
    ensures
        r == (ascii_lower(a@) == ascii_lower(b@)),
{
    let la = to_ascii_lowercase(a);
    let lb = to_ascii_lowercase(b);
    str_eq(la.as_str(), lb.as_str())
}

/// `s.replace('\\', "/")`.
pub fn slashify_exec(s: &str) -> (r: String)
    ensures
        r@ == slashify(s@),
{
    let cs = chars_of(s);
    let mut out: Vec<char> = Vec::new();
    let mut i: usize = 0;
    while i < cs.len()
        invariant
            cs@ == s@,
            i <= cs.len(),
            out@ == slashify(cs@.take(i as int)),
        decreases cs.len() - i,
    {
        let c = cs[i];
        if c == '\\' {
            out.push('/');
        } else {
            out.push(c);
        }
        i = i + 1;
        assert(out@ =~= slashify(cs@.take(i as int)));
    }
    assert(cs@.take(i as int) =~= cs@);
    string_of(&out)
}

proof fn lemma_trim_end_slashes_take(s: Seq<char>, n: int)
    requires
        0 <= n <= s.len(),
        forall|i: int| n <= i < s.len() ==> s[i] == '/',
    ensures
        trim_end_slashes(s) == trim_end_slashes(s.take(n)),
    decreases s.len() - n,
{
    if n < s.len() {
        assert(s.drop_last().take(n) =~= s.take(n));
        lemma_trim_end_slashes_take(s.drop_last(), n);
    } else {
        assert(s.take(n) =~= s);
    }
}

/// `s.trim_end_matches('/')`.
pub fn trim_end_slashes_exec(s: &str) -> (r: String)
    ensures
        r@ == trim_end_slashes(s@),
{
    let cs = chars_of(s);
    let mut n: usize = cs.len();
    while n > 0 && cs[n - 1] == '/'
        invariant
            cs@ == s@,
            n <= cs.len(),
            forall|i: int| n <= i < cs.len() ==> cs@[i] == '/',
        decreases n,
    {
        n = n - 1;
    }
    let mut out: Vec<char> = Vec::new();
    let mut i: usize = 0;
    while i < n
        invariant
            cs@ == s@,
            n <= cs.len(),
            i <= n,
            out@ == cs@.take(i as int),
        decreases n - i,
    {
        out.push(cs[i]);
        i = i + 1;
        assert(out@ =~= cs@.take(i as int));
    }
    proof {
        lemma_trim_end_slashes_take(cs@, n as int);
        let t = cs@.take(n as int);
        if t.len() > 0 {
            assert(t.last() != '/');
        }
    }
    string_of(&out)
}

/// Whether `c` occurs in `s`.
pub fn contains_char(s: &str, c: char) -> (r: bool)
    ensures
        r == s@.contains(c),
{
    let cs = chars_of(s);
    let mut i: usize = 0;
    while i < cs.len()
        invariant
            cs@ == s@,
            i <= cs.len(),
            forall|k: int| 0 <= k < i ==> cs@[k] != c,
        decreases cs.len() - i,
    {
        if cs[i] == c {
            return true;
        }
        i = i + 1;
    }
    false
}

/// Character sequence equality.
pub fn chars_eq(a: &Vec<char>, b: &Vec<char>) -> (r: bool)
    ensures
        r == (a@ == b@),
{
    if a.len() != b.len() {
        return false;
    }
    let mut i: usize = 0;
    while i < a.len()
        invariant
            a.len() == b.len(),
            i <= a.len(),
            forall|k: int| 0 <= k < i ==> a@[k] == b@[k],
        decreases a.len() - i,
    {
        if a[i] != b[i] {
            return false;
        }
        i = i + 1;
    }
    assert(a@ =~= b@);
    true
}

/// String equality.
pub fn str_eq(a: &str, b: &str) -> (r: bool)
    ensures
        r == (a@ == b@),
{
    let ca = chars_of(a);
    let cb = chars_of(b);
    chars_eq(&ca, &cb)
}

/// Whether `p` is a prefix of `s` (`str::starts_with`).
pub fn starts_with(s: &str, p: &str) -> (r: bool)
    ensures
        r == p@.is_prefix_of(s@),
{
    let cs = chars_of(s);
    let cp = chars_of(p);
    if cp.len() > cs.len() {
        return false;
    }
    let mut i: usize = 0;
    while i < cp.len()
        invariant
            cs@ == s@,
            cp@ == p@,
            cp.len() <= cs.len(),
            i <= cp.len(),
            forall|k: int| 0 <= k < i ==> cp@[k] == cs@[k],
        decreases cp.len() - i,
    {
        if cp[i] != cs[i] {
            return false;
        }
        i = i + 1;
    }
    assert(cp@ =~= cs@.take(cp@.len() as int));
    true
}

// ---------------------------------------------------------------------------
// Lexicographic order
// ---------------------------------------------------------------------------

/// `a` and `b` agree on their first `k` characters.
pub open spec fn agree_upto(a: Seq<char>, b: Seq<char>, k: int) -> bool {
    forall|i: int| 0 <= i < k ==> #[trigger] a[i] == b[i]
}

/// Position `k` is where `a` first sorts below `b`.
pub open spec fn lt_at(a: Seq<char>, b: Seq<char>, k: int) -> bool {
    ||| (k == a.len() && k < b.len())
    ||| (k < a.len() && k < b.len() && (a[k] as int) < (b[k] as int))
}

/// `a < b` in the order of `str`: lexicographic by code point, a proper prefix
/// sorting first.
pub open spec fn lex_lt(a: Seq<char>, b: Seq<char>) -> bool {
    exists|k: int|
        0 <= k && k <= a.len() && k <= b.len() && agree_upto(a, b, k) && #[trigger] lt_at(a, b, k)
}

pub proof fn lemma_lex_irreflexive(a: Seq<char>)
    ensures
        !lex_lt(a, a),
{
}

pub proof fn lemma_lex_transitive(a: Seq<char>, b: Seq<char>, c: Seq<char>)
    requires
        lex_lt(a, b),
        lex_lt(b, c),
    ensures
        lex_lt(a, c),
{
    let k1 = choose|k: int|
        0 <= k && k <= a.len() && k <= b.len() && agree_upto(a, b, k) && #[trigger] lt_at(a, b, k);
    let k2 = choose|k: int|
        0 <= k && k <= b.len() && k <= c.len() && agree_upto(b, c, k) && #[trigger] lt_at(b, c, k);
    if k1 < k2 {
        assert(agree_upto(a, c, k1));
        assert(lt_at(a, c, k1));
    } else if k2 < k1 {
        assert(agree_upto(a, c, k2));
        assert(lt_at(a, c, k2));
    } else {
        assert(agree_upto(a, c, k1));
        assert(lt_at(a, c, k1));
    }
}

pub proof fn lemma_lex_asymmetric(a: Seq<char>, b: Seq<char>)
    requires
        lex_lt(a, b),
    ensures
        !lex_lt(b, a),
{
    if lex_lt(b, a) {
        lemma_lex_transitive(a, b, a);
    }
}

/// The first position where `a` and `b` differ (or the shorter length).
proof fn first_difference(a: Seq<char>, b: Seq<char>, from: int) -> (k: int)
    requires
        0 <= from,
        from <= a.len(),
        from <= b.len(),
        agree_upto(a, b, from),
    ensures
        from <= k,
        k <= a.len(),
        k <= b.len(),
        agree_upto(a, b, k),
        k == a.len() || k == b.len() || a[k] != b[k],
    decreases a.len() - from,
{
    if from == a.len() || from == b.len() || a[from] != b[from] {
        from
    } else {
        assert(agree_upto(a, b, from + 1));
        first_difference(a, b, from + 1)
    }
}

pub proof fn lemma_lex_total(a: Seq<char>, b: Seq<char>)
    requires
        a != b,
    ensures
        lex_lt(a, b) || lex_lt(b, a),
{
    let k = first_difference(a, b, 0);
    if k == a.len() && k == b.len() {
        assert(a =~= b);
    } else if k == a.len() {
        assert(lt_at(a, b, k));
    } else if k == b.len() {
        assert(agree_upto(b, a, k));
        assert(lt_at(b, a, k));
    } else {
        assert(agree_upto(b, a, k));
        if (a[k] as int) < (b[k] as int) {
            assert(lt_at(a, b, k));
        } else {
            assert((b[k] as int) < (a[k] as int));
            assert(lt_at(b, a, k));
        }
    }
}

/// The code point of `c`.
pub fn char_code(c: char) -> (r: u32)
    ensures
        r as int == c as int,
{
    proof {
        lemma_char_range(c);
    }
    c as u32
}

proof fn lemma_char_range(c: char)
    ensures
        0 <= c as int <= 0x10FFFF,
{
}

/// The outcome of a three-way comparison.
#[derive(Clone, Copy, Debug, PartialEq, Eq, Structural)]
pub enum Order3 {
    Less,
    Equal,
    Greater,
}

/// Three-way comparison of character sequences in `str` order.
pub fn compare_chars(a: &Vec<char>, b: &Vec<char>) -> (r: Order3)
    ensures
        r == Order3::Less <==> lex_lt(a@, b@),
        r == Order3::Equal <==> a@ == b@,
        r == Order3::Greater <==> lex_lt(b@, a@),
{
    let mut i: usize = 0;
    while i < a.len() && i < b.len() && a[i] == b[i]
        invariant
            i <= a.len(),
            i <= b.len(),
            agree_upto(a@, b@, i as int),
        decreases a.len() - i,
    {
        i = i + 1;
    }
    proof {
        lemma_lex_irreflexive(a@);
    }
    let less_here: bool = i < a.len() && i < b.len() && char_code(a[i]) < char_code(b[i]);
    if i == a.len() && i == b.len() {
        assert(a@ =~= b@);
        Order3::Equal
    } else if i == a.len() || less_here {
        assert(lt_at(a@, b@, i as int));
        proof {
            lemma_lex_asymmetric(a@, b@);
        }
        Order3::Less
    } else {
        assert(agree_upto(b@, a@, i as int));
        assert(lt_at(b@, a@, i as int));
        proof {
            lemma_lex_asymmetric(b@, a@);
        }
        assert(a@ != b@) by {
            if a@ == b@ {
                lemma_lex_irreflexive(a@);
            }
        }
        Order3::Greater
    }
}

/// Three-way comparison of strings in `str` order.
pub fn compare_str(a: &str, b: &str) -> (r: Order3)
    ensures
        r == Order3::Less <==> lex_lt(a@, b@),
        r == Order3::Equal <==> a@ == b@,
        r == Order3::Greater <==> lex_lt(b@, a@),
{
    let ca = chars_of(a);
    let cb = chars_of(b);
    compare_chars(&ca, &cb)
}

// ---------------------------------------------------------------------------
// Sorted string sets
// ---------------------------------------------------------------------------

/// The abstract values of a list of strings.
pub open spec fn strings_view(v: Seq<String>) -> Seq<Seq<char>> {
    v.map_values(|s: String| s@)
}

/// Each string sorts strictly before the next (so none occurs twice).
pub open spec fn strictly_sorted(s: Seq<Seq<char>>) -> bool {
    forall|a: int, b: int| 0 <= a < b < s.len() ==> lex_lt(#[trigger] s[a], #[trigger] s[b])
}

/// Two strictly sorted lists holding the same strings are the same list.
pub proof fn lemma_sorted_unique(s1: Seq<Seq<char>>, s2: Seq<Seq<char>>)
    requires
        strictly_sorted(s1),
        strictly_sorted(s2),
        s1.to_set() == s2.to_set(),
    ensures
        s1 == s2,
    decreases s1.len() + s2.len(),
{
    if s1.len() == 0 {
        if s2.len() > 0 {
            assert(s2.to_set().contains(s2[0]));
        }
        assert(s1 =~= s2);
    } else if s2.len() == 0 {
        assert(s1.to_set().contains(s1[0]));
    } else {
        // the first elements are both the least element of the common set
        assert(s1.to_set().contains(s1[0]));
        assert(s2.to_set().contains(s2[0]));
        assert(s2.contains(s1[0]));
        assert(s1.contains(s2[0]));
        let a = choose|k: int| 0 <= k < s2.len() && s2[k] == s1[0];
        let b = choose|k: int| 0 <= k < s1.len() && s1[k] == s2[0];
        if a > 0 {
            assert(lex_lt(s2[0], s2[a]));
            if b > 0 {
                assert(lex_lt(s1[0], s1[b]));
                lemma_lex_transitive(s2[0], s1[0], s2[0]);
                lemma_lex_irreflexive(s2[0]);
            }
        }
        assert(s1[0] == s2[0]) by {
            if a > 0 && b == 0 {
            } else if a > 0 {
            }
        }
        let t1 = s1.drop_first();
        let t2 = s2.drop_first();
        assert(t1.to_set() == t2.to_set()) by {
            assert forall|x: Seq<char>| t1.to_set().contains(x) implies t2.to_set().contains(x) by {
                let k = choose|k: int| 0 <= k < t1.len() && t1[k] == x;
                assert(s1[k + 1] == x);
                assert(s1.to_set().contains(x));
                assert(s2.contains(x));
                let k2 = choose|k2: int| 0 <= k2 < s2.len() && s2[k2] == x;
                assert(lex_lt(s1[0], s1[k + 1]));
                if k2 == 0 {
                    lemma_lex_irreflexive(x);
                }
                assert(t2[k2 - 1] == x);
            }
            assert forall|x: Seq<char>| t2.to_set().contains(x) implies t1.to_set().contains(x) by {
                let k = choose|k: int| 0 <= k < t2.len() && t2[k] == x;
                assert(s2[k + 1] == x);
                assert(s2.to_set().contains(x));
                assert(s1.contains(x));
                let k1 = choose|k1: int| 0 <= k1 < s1.len() && s1[k1] == x;
                assert(lex_lt(s2[0], s2[k + 1]));
                if k1 == 0 {
                    lemma_lex_irreflexive(x);
                }
                assert(t1[k1 - 1] == x);
            }
            assert(t1.to_set() =~= t2.to_set());
        }
        lemma_sorted_unique(t1, t2);
        assert(s1 =~= s2) by {
            assert forall|k: int| 0 <= k < s1.len() implies s1[k] == s2[k] by {
                if k > 0 {
                    assert(s1[k] == t1[k - 1]);
                    assert(s2[k] == t2[k - 1]);
                }
            }
        }
    }
}

/// Insert `x` into a strictly sorted list of strings, unless it is already
/// there (sort + dedup, one element at a time).
pub fn insert_sorted_unique(v: &mut Vec<String>, x: String)
    requires
        strictly_sorted(strings_view(old(v)@)),
    ensures
        strictly_sorted(strings_view(final(v)@)),
        strings_view(final(v)@).to_set() == strings_view(old(v)@).to_set().insert(x@),
{
    let ghost old_v = strings_view(v@);
    let mut pos: usize = 0;
    let mut found_greater = false;
    while pos < v.len() && !found_greater
        invariant
            pos <= v.len(),
            old_v == strings_view(v@),
            strictly_sorted(old_v),
            forall|k: int| 0 <= k < pos ==> lex_lt(#[trigger] old_v[k], x@),
            found_greater ==> pos < v.len() && lex_lt(x@, old_v[pos as int]),
        decreases v.len() - pos + (if found_greater { 0int } else { 1int }),
    {
        match compare_str(v[pos].as_str(), x.as_str()) {
            Order3::Less => {
                pos = pos + 1;
            },
            Order3::Equal => {
                proof {
                    assert(old_v[pos as int] == x@);
                    assert(old_v.to_set().insert(x@) =~= old_v.to_set());
                }
                return;
            },
            Order3::Greater => {
                found_greater = true;
            },
        }
    }
    v.insert(pos, x);
    proof {
        let nv = strings_view(v@);
        assert(nv =~= old_v.insert(pos as int, x@));
        assert forall|a: int, b: int| 0 <= a < b < nv.len() implies lex_lt(#[trigger] nv[a], #[trigger] nv[b]) by {
            if a < pos && b < pos {
                assert(nv[a] == old_v[a]);
                assert(nv[b] == old_v[b]);
            } else if a < pos && b == pos {
            } else if a < pos && b > pos {
                assert(nv[b] == old_v[b - 1]);
                assert(lex_lt(old_v[a], old_v[b - 1]));
            } else if a == pos {
                assert(nv[b] == old_v[b - 1]);
                if b - 1 > pos {
                    assert(lex_lt(old_v[pos as int], old_v[b - 1]));
                    lemma_lex_transitive(x@, old_v[pos as int], old_v[b - 1]);
                }
            } else {
                assert(nv[a] == old_v[a - 1]);
                assert(nv[b] == old_v[b - 1]);
            }
        }
        assert(nv.to_set() =~= old_v.to_set().insert(x@)) by {
            assert forall|y: Seq<char>| nv.to_set().contains(y) implies old_v.to_set().insert(x@).contains(y) by {
                let k = choose|k: int| 0 <= k < nv.len() && nv[k] == y;
                if k < pos {
                    assert(old_v[k] == y);
                } else if k > pos {
                    assert(old_v[k - 1] == y);
                }
            }
            assert forall|y: Seq<char>| old_v.to_set().insert(x@).contains(y) implies nv.to_set().contains(y) by {
                if y == x@ {
                    assert(nv[pos as int] == y);
                } else {
                    let k = choose|k: int| 0 <= k < old_v.len() && old_v[k] == y;
                    if k < pos {
                        assert(nv[k] == y);
                    } else {
                        assert(nv[k + 1] == y);
                    }
                }
            }
        }
    }
}

} // verus!
