//! Character-level utilities shared by the parsers: character classes,
//! scanning for characters and substrings, whitespace trimming, and a
//! lexicographic order on character sequences.

use vstd::prelude::*;

verus! {

/// ASCII letter.
pub open spec fn is_alpha(c: char) -> bool {
    ('a' as u32) <= (c as u32) && (c as u32) <= ('z' as u32) || ('A' as u32) <= (c as u32)
        && (c as u32) <= ('Z' as u32)
}

/// ASCII decimal digit.
pub open spec fn is_digit(c: char) -> bool {
    ('0' as u32) <= (c as u32) && (c as u32) <= ('9' as u32)
}

/// ASCII whitespace, the characters stripped by trimming.
pub open spec fn is_ws(c: char) -> bool {
    c == ' ' || c == '\t' || c == '\n' || c == '\r'
}

pub fn alpha(c: char) -> (r: bool)
    ensures
        r == is_alpha(c),
{
    ('a' as u32) <= (c as u32) && (c as u32) <= ('z' as u32) || ('A' as u32) <= (c as u32)
        && (c as u32) <= ('Z' as u32)
}

pub fn digit(c: char) -> (r: bool)
    ensures
        r == is_digit(c),
{
    ('0' as u32) <= (c as u32) && (c as u32) <= ('9' as u32)
}

pub fn ws(c: char) -> (r: bool)
    ensures
        r == is_ws(c),
{
    c == ' ' || c == '\t' || c == '\n' || c == '\r'
}

/// The characters of `s`, in order, as a vector.
pub fn chars_of(s: &str) -> (r: Vec<char>)
    ensures
        r@ == s@,
{
    let n = s.unicode_len();
    let mut r: Vec<char> = Vec::new();
    let mut i: usize = 0;
    while i < n
        invariant
            i <= n,
            n == s@.len(),
            r@ == s@.subrange(0, i as int),
        decreases n - i,
    {
        r.push(s.get_char(i));
        proof {
            assert(r@ =~= s@.subrange(0, i + 1));
        }
        i += 1;
    }
    proof {
        assert(r@ =~= s@);
    }
    r
}

/// Index of the first occurrence of `c` in `s` at or after `from`;
/// `s.len()` when there is none.
pub open spec fn find_from(s: Seq<char>, c: char, from: int) -> int
    decreases s.len() - from,
{
    if from < 0 || from >= s.len() {
        s.len() as int
    } else if s[from] == c {
        from
    } else {
        find_from(s, c, from + 1)
    }
}

pub proof fn lemma_find_from(s: Seq<char>, c: char, from: int)
    requires
        0 <= from <= s.len(),
    ensures
        from <= find_from(s, c, from) <= s.len(),
        find_from(s, c, from) < s.len() ==> s[find_from(s, c, from)] == c,
        forall|k: int| from <= k < find_from(s, c, from) ==> s[k] != c,
    decreases s.len() - from,
{
    if from < s.len() && s[from] != c {
        lemma_find_from(s, c, from + 1);
    }
}

/// First occurrence of `c` in `v` at or after `from`, as the exec
/// counterpart of `find_from`.
pub fn scan_char(v: &Vec<char>, c: char, from: usize) -> (r: usize)
    requires
        from <= v@.len(),
    ensures
        r == find_from(v@, c, from as int),
{
    let mut i: usize = from;
    while i < v.len()
        invariant
            from <= i <= v@.len(),
            forall|k: int| from <= k < i ==> v@[k] != c,
        decreases v@.len() - i,
    {
        if v[i] == c {
            proof {
                lemma_find_range(v@, c, from as int, i as int);
            }
            return i;
        }
        i += 1;
    }
    proof {
        lemma_find_range(v@, c, from as int, v@.len() as int);
    }
    i
}

/// When no occurrence lies in `[from, upto)` and `upto` either holds `c`
/// or is the end, the first occurrence is exactly `upto`.
pub proof fn lemma_find_range(s: Seq<char>, c: char, from: int, upto: int)
    requires
        0 <= from <= upto <= s.len(),
        forall|k: int| from <= k < upto ==> s[k] != c,
        upto < s.len() ==> s[upto] == c,
    ensures
        find_from(s, c, from) == upto,
    decreases upto - from,
{
    if from < upto {
        lemma_find_range(s, c, from + 1, upto);
    }
}

/// Length of `s` once trailing whitespace is removed.
pub open spec fn trim_end_len(s: Seq<char>) -> int
    decreases s.len(),
{
    if s.len() == 0 {
        0
    } else if is_ws(s[s.len() - 1]) {
        trim_end_len(s.subrange(0, s.len() - 1))
    } else {
        s.len() as int
    }
}

/// Index of the first non-whitespace character of `s`; `s.len()` when all
/// of `s` is whitespace.
pub open spec fn trim_start_idx(s: Seq<char>) -> int
    decreases s.len(),
{
    if s.len() == 0 {
        0
    } else if is_ws(s[0]) {
        1 + trim_start_idx(s.subrange(1, s.len() as int))
    } else {
        0
    }
}

/// `s` with trailing whitespace removed.
pub open spec fn trim_end_spec(s: Seq<char>) -> Seq<char> {
    s.subrange(0, trim_end_len(s))
}

/// `s` with leading and trailing whitespace removed.
pub open spec fn trim_spec(s: Seq<char>) -> Seq<char> {
    let t = trim_end_spec(s);
    t.subrange(trim_start_idx(t), t.len() as int)
}

/// Whether `s` consists of whitespace only.
pub open spec fn all_ws(s: Seq<char>) -> bool {
    forall|k: int| 0 <= k < s.len() ==> is_ws(s[k])
}

/// The end, within `[a, b]`, of the region `[a, b)` of `v` once its
/// trailing whitespace is dropped.
pub fn scan_trim_end(v: &Vec<char>, a: usize, b: usize) -> (r: usize)
    requires
        a <= b <= v@.len(),
    ensures
        a <= r <= b,
        r - a == trim_end_len(v@.subrange(a as int, b as int)),
{
    let mut j: usize = b;
    while j > a && ws(v[j - 1])
        invariant
            a <= j <= b <= v@.len(),
            trim_end_len(v@.subrange(a as int, b as int)) == trim_end_len(
                v@.subrange(a as int, j as int),
            ),
        decreases j,
    {
        proof {
            assert(v@.subrange(a as int, j as int)[j - a - 1] == v@[j - 1]);
            assert(v@.subrange(a as int, j as int).subrange(0, j - a - 1) =~= v@.subrange(
                a as int,
                j - 1,
            ));
        }
        j -= 1;
    }
    proof {
        if j > a {
            assert(v@.subrange(a as int, j as int)[j - a - 1] == v@[j - 1]);
        }
    }
    j
}

/// Searching in a suffix of `s` finds the same character at the shifted
/// place.
pub proof fn lemma_find_suffix(s: Seq<char>, c: char, b: int, q: int)
    requires
        0 <= b <= s.len(),
        0 <= q,
    ensures
        find_from(s.subrange(b, s.len() as int), c, q) == find_from(s, c, b + q) - b,
    decreases s.len() - q - b,
{
    let t = s.subrange(b, s.len() as int);
    if q >= t.len() {
        assert(find_from(t, c, q) == t.len());
        lemma_find_past_end(s, c, b + q);
    } else {
        assert(t[q] == s[b + q]);
        if t[q] != c {
            lemma_find_suffix(s, c, b, q + 1);
        }
    }
}

/// Past the end of `s`, the search returns the length at once.
proof fn lemma_find_past_end(s: Seq<char>, c: char, from: int)
    requires
        from >= s.len(),
    ensures
        find_from(s, c, from) == s.len(),
{
}

/// The number of leading whitespace characters of `v` from `from` on,
/// stopping at the first non-whitespace character or at `upto`.
pub fn scan_non_ws(v: &Vec<char>, from: usize, upto: usize) -> (r: usize)
    requires
        from <= upto <= v@.len(),
    ensures
        from <= r <= upto,
        forall|k: int| from <= k < r ==> is_ws(v@[k]),
        r < upto ==> !is_ws(v@[r as int]),
{
    let mut i: usize = from;
    while i < upto && ws(v[i])
        invariant
            from <= i <= upto <= v@.len(),
            forall|k: int| from <= k < i ==> is_ws(v@[k]),
        decreases upto - i,
    {
        i += 1;
    }
    i
}

/// Whether `pat` occurs in `s` starting at index `i`.
pub open spec fn occurs_at(s: Seq<char>, pat: Seq<char>, i: int) -> bool {
    0 <= i && i + pat.len() <= s.len() && s.subrange(i, i + pat.len()) =~= pat
}

/// The first index at or after `from` where `pat` occurs in `s`.
pub open spec fn find_sub_from(s: Seq<char>, pat: Seq<char>, from: int) -> Option<int>
    decreases s.len() - from,
{
    if from < 0 || from + pat.len() > s.len() {
        None
    } else if occurs_at(s, pat, from) {
        Some(from)
    } else {
        find_sub_from(s, pat, from + 1)
    }
}

pub proof fn lemma_find_sub_from(s: Seq<char>, pat: Seq<char>, from: int)
    requires
        0 <= from,
    ensures
        match find_sub_from(s, pat, from) {
            Some(i) => from <= i && occurs_at(s, pat, i) && forall|k: int|
                from <= k < i ==> !occurs_at(s, pat, k),
            None => forall|k: int| from <= k ==> !occurs_at(s, pat, k),
        },
    decreases s.len() - from,
{
    if from + pat.len() <= s.len() && !occurs_at(s, pat, from) {
        lemma_find_sub_from(s, pat, from + 1);
    }
}

/// Whether the characters of `v` from `i` on start with `pat`.
fn occurs_here(v: &Vec<char>, pat: &Vec<char>, i: usize) -> (r: bool)
    requires
        i + pat@.len() <= v@.len(),
    ensures
        r == occurs_at(v@, pat@, i as int),
{
    let n = v.len();
    let mut k: usize = 0;
    while k < pat.len()
        invariant
            k <= pat@.len(),
            i + pat@.len() <= v@.len(),
            n == v@.len(),
            forall|j: int| 0 <= j < k ==> v@[i + j] == pat@[j],
        decreases pat@.len() - k,
    {
        if v[i + k] != pat[k] {
            proof {
                assert(v@.subrange(i as int, i + pat@.len())[k as int] == v@[i + k]);
            }
            return false;
        }
        k += 1;
    }
    proof {
        assert(v@.subrange(i as int, i + pat@.len()) =~= pat@);
    }
    true
}

/// First occurrence of `pat` in `v` at or after `from`, as the exec
/// counterpart of `find_sub_from`.
pub fn scan_sub(v: &Vec<char>, pat: &Vec<char>, from: usize) -> (r: Option<usize>)
    requires
        from <= v@.len(),
    ensures
        match r {
            Some(i) => find_sub_from(v@, pat@, from as int) == Some(i as int),
            None => find_sub_from(v@, pat@, from as int) is None,
        },
{
    proof {
        lemma_find_sub_from(v@, pat@, from as int);
    }
    if pat.len() > v.len() {
        return None;
    }
    if pat.len() == 0 {
        proof {
            assert(v@.subrange(from as int, from as int) =~= pat@);
            lemma_find_sub_range(v@, pat@, from as int, from as int);
        }
        return Some(from);
    }
    let limit: usize = v.len() - pat.len();
    if from > limit {
        proof {
            lemma_find_sub_none(v@, pat@, from as int, from as int);
        }
        return None;
    }
    let n = v.len();
    let mut i: usize = from;
    while i <= limit
        invariant
            from <= i,
            i <= limit + 1,
            limit == v@.len() - pat@.len(),
            1 <= pat@.len() <= v@.len(),
            n == v@.len(),
            forall|k: int| from <= k < i ==> !occurs_at(v@, pat@, k),
        decreases limit + 1 - i,
    {
        if occurs_here(v, pat, i) {
            proof {
                lemma_find_sub_range(v@, pat@, from as int, i as int);
            }
            return Some(i);
        }
        i += 1;
    }
    proof {
        lemma_find_sub_none(v@, pat@, from as int, i as int);
    }
    None
}

proof fn lemma_find_sub_range(s: Seq<char>, pat: Seq<char>, from: int, upto: int)
    requires
        0 <= from <= upto,
        upto + pat.len() <= s.len(),
        forall|k: int| from <= k < upto ==> !occurs_at(s, pat, k),
        occurs_at(s, pat, upto),
    ensures
        find_sub_from(s, pat, from) == Some(upto),
    decreases upto - from,
{
    if from < upto {
        lemma_find_sub_range(s, pat, from + 1, upto);
    }
}

proof fn lemma_find_sub_none(s: Seq<char>, pat: Seq<char>, from: int, upto: int)
    requires
        0 <= from,
        upto + pat.len() > s.len(),
        forall|k: int| from <= k < upto ==> !occurs_at(s, pat, k),
    ensures
        find_sub_from(s, pat, from) is None,
    decreases s.len() - from,
{
    if from + pat.len() <= s.len() {
        if from < upto {
            lemma_find_sub_none(s, pat, from + 1, upto);
        } else {
            assert(!occurs_at(s, pat, from)) by {
                assert(from + pat.len() > s.len());
            }
        }
    }
}

/// Index of the last occurrence of `c` in `s`; `-1` when there is none.
pub open spec fn find_last(s: Seq<char>, c: char) -> int
    decreases s.len(),
{
    if s.len() == 0 {
        -1
    } else if s[s.len() - 1] == c {
        s.len() - 1
    } else {
        find_last(s.subrange(0, s.len() - 1), c)
    }
}

pub proof fn lemma_find_last(s: Seq<char>, c: char)
    ensures
        -1 <= find_last(s, c) < s.len(),
        find_last(s, c) >= 0 ==> s[find_last(s, c)] == c,
        forall|k: int| find_last(s, c) < k < s.len() ==> s[k] != c,
    decreases s.len(),
{
    if s.len() > 0 && s[s.len() - 1] != c {
        let t = s.subrange(0, s.len() - 1);
        lemma_find_last(t, c);
        assert(forall|k: int| 0 <= k < t.len() ==> t[k] == s[k]);
    }
}

/// Last occurrence of `c` in `v`, as the exec counterpart of
/// `find_last`: `None` when `c` does not occur.
pub fn scan_last(v: &Vec<char>, c: char) -> (r: Option<usize>)
    ensures
        match r {
            Some(i) => find_last(v@, c) == i,
            None => find_last(v@, c) == -1,
        },
{
    proof {
        assert(v@.subrange(0, v@.len() as int) =~= v@);
    }
    let mut j: usize = v.len();
    while j > 0
        invariant
            j <= v@.len(),
            forall|k: int| j <= k < v@.len() ==> v@[k] != c,
            find_last(v@, c) == find_last(v@.subrange(0, j as int), c),
        decreases j,
    {
        proof {
            assert(v@.subrange(0, j as int)[j - 1] == v@[j - 1]);
            assert(v@.subrange(0, j as int).subrange(0, j - 1) =~= v@.subrange(0, j - 1));
        }
        if v[j - 1] == c {
            return Some(j - 1);
        }
        j -= 1;
    }
    None
}

/// The first non-whitespace index characterizes `trim_start_idx`.
pub proof fn lemma_trim_start_range(s: Seq<char>, i: int)
    requires
        0 <= i <= s.len(),
        forall|k: int| 0 <= k < i ==> is_ws(s[k]),
        i < s.len() ==> !is_ws(s[i]),
    ensures
        trim_start_idx(s) == i,
    decreases s.len(),
{
    if s.len() > 0 && is_ws(s[0]) {
        let t = s.subrange(1, s.len() as int);
        assert(forall|k: int| 0 <= k < t.len() ==> t[k] == s[k + 1]);
        lemma_trim_start_range(t, i - 1);
    }
}

/// The bounds within `[a, b)` of the region of `v` that remains once its
/// surrounding whitespace is removed.
pub fn trim_bounds(v: &Vec<char>, a: usize, b: usize) -> (r: (usize, usize))
    requires
        a <= b <= v@.len(),
    ensures
        a <= r.0 <= r.1 <= b,
        v@.subrange(r.0 as int, r.1 as int) == trim_spec(v@.subrange(a as int, b as int)),
{
    let j = scan_trim_end(v, a, b);
    let i = scan_non_ws(v, a, j);
    proof {
        let region = v@.subrange(a as int, b as int);
        let t = trim_end_spec(region);
        assert(t =~= v@.subrange(a as int, j as int));
        assert(forall|k: int| 0 <= k < t.len() ==> t[k] == v@[a + k]);
        lemma_trim_start_range(t, i - a);
        assert(t.subrange(i - a, t.len() as int) =~= v@.subrange(i as int, j as int));
    }
    (i, j)
}

/// The region `[a, b)` of `v`, with surrounding whitespace removed, as an
/// owned string.
pub fn trim_substring(s: &str, v: &Vec<char>, a: usize, b: usize) -> (r: String)
    requires
        v@ == s@,
        a <= b <= v@.len(),
    ensures
        r@ == trim_spec(v@.subrange(a as int, b as int)),
{
    let (i, j) = trim_bounds(v, a, b);
    let r = s.substring_char(i, j).to_owned();
    r
}

/// The character with an ASCII upper-case letter folded to lower case.
pub open spec fn lower_char(c: char) -> char {
    if ('A' as u32) <= (c as u32) && (c as u32) <= ('Z' as u32) {
        ((c as u8) + 32) as char
    } else {
        c
    }
}

/// `s` with its ASCII upper-case letters folded to lower case.
pub open spec fn lower_seq(s: Seq<char>) -> Seq<char> {
    s.map_values(|c: char| lower_char(c))
}

/// Whether `a`, folded to ASCII lower case, equals `b` as it stands.
pub fn lower_eq(a: &str, b: &str) -> (r: bool)
    ensures
        r == (lower_seq(a@) == b@),
{
    let na = a.unicode_len();
    let nb = b.unicode_len();
    if na != nb {
        proof {
            assert(lower_seq(a@).len() == a@.len());
        }
        return false;
    }
    let mut i: usize = 0;
    while i < na
        invariant
            i <= na,
            na == a@.len(),
            na == b@.len(),
            forall|k: int| 0 <= k < i ==> lower_char(a@[k]) == b@[k],
        decreases na - i,
    {
        let ca = a.get_char(i);
        let lc = if ('A' as u32) <= (ca as u32) && (ca as u32) <= ('Z' as u32) {
            ((ca as u8) + 32) as char
        } else {
            ca
        };
        proof {
            assert(lc == lower_char(a@[i as int]));
        }
        if lc != b.get_char(i) {
            proof {
                assert(lower_seq(a@)[i as int] == lower_char(a@[i as int]));
            }
            return false;
        }
        i += 1;
    }
    proof {
        assert(lower_seq(a@) =~= b@);
    }
    true
}

/// The views of a list of strings.
pub open spec fn str_views(v: Seq<String>) -> Seq<Seq<char>> {
    v.map_values(|s: String| s@)
}

/// Strict lexicographic order on character sequences, by code point.
pub open spec fn lex_lt(a: Seq<char>, b: Seq<char>) -> bool
    decreases a.len(),
{
    if b.len() == 0 {
        false
    } else if a.len() == 0 {
        true
    } else if (a[0] as u32) < (b[0] as u32) {
        true
    } else if (a[0] as u32) > (b[0] as u32) {
        false
    } else {
        lex_lt(a.subrange(1, a.len() as int), b.subrange(1, b.len() as int))
    }
}

/// Exactly one of `lex_lt(a, b)`, `a == b`, `lex_lt(b, a)` holds.
pub proof fn lemma_lex_trichotomy(a: Seq<char>, b: Seq<char>)
    ensures
        lex_lt(a, b) || lex_lt(b, a) || a =~= b,
        lex_lt(a, b) ==> !lex_lt(b, a) && !(a =~= b),
        a =~= b ==> !lex_lt(a, b),
    decreases a.len(),
{
    if a.len() > 0 && b.len() > 0 && (a[0] as u32) == (b[0] as u32) {
        vstd::utf8::char_u32_cast(a[0], a[0] as u32);
        vstd::utf8::char_u32_cast(b[0], b[0] as u32);
        let a1 = a.subrange(1, a.len() as int);
        let b1 = b.subrange(1, b.len() as int);
        lemma_lex_trichotomy(a1, b1);
        if a1 =~= b1 {
            assert(a =~= b) by {
                assert(forall|k: int| 1 <= k < a.len() ==> a[k] == a1[k - 1] && b[k] == b1[k - 1]);
            }
        }
        if a =~= b {
            assert(a1 =~= b1) by {
                assert(forall|k: int| 0 <= k < a1.len() ==> a1[k] == a[k + 1] && b1[k] == b[k + 1]);
            }
        }
    }
}

pub proof fn lemma_lex_transitive(a: Seq<char>, b: Seq<char>, c: Seq<char>)
    requires
        lex_lt(a, b),
        lex_lt(b, c),
    ensures
        lex_lt(a, c),
    decreases a.len(),
{
    if a.len() > 0 && b.len() > 0 && c.len() > 0 && (a[0] as u32) == (b[0] as u32) && (b[0] as u32)
        == (c[0] as u32) {
        lemma_lex_transitive(
            a.subrange(1, a.len() as int),
            b.subrange(1, b.len() as int),
            c.subrange(1, c.len() as int),
        );
    }
}

/// Lexicographic comparison of two character vectors: negative, zero or
/// positive as `a` is below, equal to or above `b`.
pub fn lex_cmp(a: &Vec<char>, b: &Vec<char>) -> (r: i8)
    ensures
        r == -1 ==> lex_lt(a@, b@),
        r == 0 ==> a@ =~= b@,
        r == 1 ==> lex_lt(b@, a@),
        r == -1 || r == 0 || r == 1,
{
    proof {
        assert(a@.subrange(0, a@.len() as int) =~= a@);
        assert(b@.subrange(0, b@.len() as int) =~= b@);
    }
    let mut i: usize = 0;
    loop
        invariant
            i <= a@.len(),
            i <= b@.len(),
            forall|k: int| 0 <= k < i ==> a@[k] == b@[k],
            lex_lt(a@, b@) == lex_lt(
                a@.subrange(i as int, a@.len() as int),
                b@.subrange(i as int, b@.len() as int),
            ),
            lex_lt(b@, a@) == lex_lt(
                b@.subrange(i as int, b@.len() as int),
                a@.subrange(i as int, a@.len() as int),
            ),
        decreases a@.len() - i,
    {
        let ghost ar = a@.subrange(i as int, a@.len() as int);
        let ghost br = b@.subrange(i as int, b@.len() as int);
        if i >= a.len() && i >= b.len() {
            proof {
                assert(a@ =~= b@);
            }
            return 0;
        }
        if i >= a.len() {
            proof {
                assert(ar.len() == 0 && br.len() > 0);
            }
            return -1;
        }
        if i >= b.len() {
            proof {
                assert(br.len() == 0 && ar.len() > 0);
            }
            return 1;
        }
        let ca = a[i];
        let cb = b[i];
        proof {
            assert(ar[0] == ca && br[0] == cb);
        }
        if (ca as u32) < (cb as u32) {
            return -1;
        }
        if (ca as u32) > (cb as u32) {
            return 1;
        }
        proof {
            vstd::utf8::char_u32_cast(ca, ca as u32);
            vstd::utf8::char_u32_cast(cb, cb as u32);
            assert(ca == cb);
            assert(ar.subrange(1, ar.len() as int) =~= a@.subrange(i + 1, a@.len() as int));
            assert(br.subrange(1, br.len() as int) =~= b@.subrange(i + 1, b@.len() as int));
        }
        i += 1;
    }
}

/// Whether two strings hold the same characters.
pub fn str_eq(a: &str, b: &str) -> (r: bool)
    ensures
        r == (a@ == b@),
{
    let na = a.unicode_len();
    let nb = b.unicode_len();
    if na != nb {
        return false;
    }
    let mut i: usize = 0;
    while i < na
        invariant
            i <= na,
            na == a@.len(),
            na == b@.len(),
            forall|k: int| 0 <= k < i ==> a@[k] == b@[k],
        decreases na - i,
    {
        if a.get_char(i) != b.get_char(i) {
            return false;
        }
        i += 1;
    }
    proof {
        assert(a@ =~= b@);
    }
    true
}

} // verus!
