//! Character-level text primitives: whitespace classification, trimming,
//! searching and splitting over `Seq<char>`, with executable counterparts
//! over `&[char]`.

use vstd::prelude::*;

verus! {

// ---------------------------------------------------------------------------
// Character classes
// ---------------------------------------------------------------------------

/// Unicode `White_Space` (the set `char::is_whitespace` accepts).
pub open spec fn is_ws(c: char) -> bool {
    let u = c as u32;
    ||| 9 <= u <= 13
    ||| u == 32
    ||| u == 0x85
    ||| u == 0xa0
    ||| u == 0x1680
    ||| 0x2000 <= u <= 0x200a
    ||| u == 0x2028
    ||| u == 0x2029
    ||| u == 0x202f
    ||| u == 0x205f
    ||| u == 0x3000
}

pub open spec fn is_digit(c: char) -> bool {
    '0' <= c <= '9'
}

pub open spec fn is_lower(c: char) -> bool {
    'a' <= c <= 'z'
}

pub open spec fn is_upper(c: char) -> bool {
    'A' <= c <= 'Z'
}

pub open spec fn is_alpha(c: char) -> bool {
    is_lower(c) || is_upper(c)
}

pub open spec fn is_alnum(c: char) -> bool {
    is_alpha(c) || is_digit(c)
}

/// ASCII lowercase mapping; every other char maps to itself.
pub open spec fn lower(c: char) -> char {
    if is_upper(c) {
        ((c as u32) + 32) as char
    } else {
        c
    }
}

/// ASCII uppercase mapping; every other char maps to itself.
pub open spec fn upper(c: char) -> char {
    if is_lower(c) {
        ((c as u32) - 32) as char
    } else {
        c
    }
}

pub fn is_whitespace(c: char) -> (b: bool)
    ensures
        b == is_ws(c),
{
    let u = c as u32;
    (9 <= u && u <= 13) || u == 32 || u == 0x85 || u == 0xa0 || u == 0x1680 || (0x2000 <= u
        && u <= 0x200a) || u == 0x2028 || u == 0x2029 || u == 0x202f || u == 0x205f || u
        == 0x3000
}

pub fn is_ascii_digit(c: char) -> (b: bool)
    ensures
        b == is_digit(c),
{
    '0' <= c && c <= '9'
}

pub fn is_ascii_alphanumeric(c: char) -> (b: bool)
    ensures
        b == is_alnum(c),
{
    ('a' <= c && c <= 'z') || ('A' <= c && c <= 'Z') || ('0' <= c && c <= '9')
}

pub fn to_ascii_lower(c: char) -> (r: char)
    ensures
        r == lower(c),
{
    if 'A' <= c && c <= 'Z' {
        let u = (c as u32) + 32;
        assert(0x61 <= u <= 0x7a);
        char_from_ascii(u)
    } else {
        c
    }
}

pub fn to_ascii_upper(c: char) -> (r: char)
    ensures
        r == upper(c),
{
    if 'a' <= c && c <= 'z' {
        let u = (c as u32) - 32;
        char_from_ascii(u)
    } else {
        c
    }
}

/// The ASCII char with code `u`.
pub fn char_from_ascii(u: u32) -> (c: char)
    requires
        u < 128,
    ensures
        c == u as char,
        c as u32 == u,
{
    let b = u as u8;
    b as char
}

// ---------------------------------------------------------------------------
// Trimming
// ---------------------------------------------------------------------------

/// Index of the first non-whitespace char at or after `i` (or `s.len()`).
pub open spec fn skip_ws_from(s: Seq<char>, i: int) -> int
    decreases s.len() - i,
{
    if 0 <= i < s.len() && is_ws(s[i]) {
        skip_ws_from(s, i + 1)
    } else {
        i
    }
}

/// Length of the prefix `s[..j]` once trailing whitespace is removed.
pub open spec fn rtrim_len(s: Seq<char>, j: int) -> int
    decreases j,
{
    if 0 < j <= s.len() && is_ws(s[j - 1]) {
        rtrim_len(s, j - 1)
    } else {
        j
    }
}

pub open spec fn lead_len(s: Seq<char>) -> int {
    skip_ws_from(s, 0)
}

pub open spec fn trim_start(s: Seq<char>) -> Seq<char> {
    s.skip(lead_len(s))
}

pub open spec fn trim_end(s: Seq<char>) -> Seq<char> {
    s.take(rtrim_len(s, s.len() as int))
}

pub open spec fn trim(s: Seq<char>) -> Seq<char> {
    trim_start(trim_end(s))
}

pub proof fn lemma_skip_ws_bounds(s: Seq<char>, i: int)
    requires
        0 <= i <= s.len(),
    ensures
        i <= skip_ws_from(s, i) <= s.len(),
        forall|k: int| i <= k < skip_ws_from(s, i) ==> is_ws(#[trigger] s[k]),
        skip_ws_from(s, i) < s.len() ==> !is_ws(s[skip_ws_from(s, i)]),
    decreases s.len() - i,
{
    if i < s.len() && is_ws(s[i]) {
        lemma_skip_ws_bounds(s, i + 1);
    }
}

pub proof fn lemma_rtrim_bounds(s: Seq<char>, j: int)
    requires
        0 <= j <= s.len(),
    ensures
        0 <= rtrim_len(s, j) <= j,
        forall|k: int| rtrim_len(s, j) <= k < j ==> is_ws(#[trigger] s[k]),
        rtrim_len(s, j) > 0 ==> !is_ws(s[rtrim_len(s, j) - 1]),
    decreases j,
{
    if j > 0 && is_ws(s[j - 1]) {
        lemma_rtrim_bounds(s, j - 1);
    }
}

/// `rtrim_len` only looks at the prefix it is given.
pub proof fn lemma_rtrim_prefix(s: Seq<char>, j: int)
    requires
        0 <= j <= s.len(),
    ensures
        rtrim_len(s, j) == rtrim_len(s.take(j), j),
    decreases j,
{
    if j > 0 && is_ws(s[j - 1]) {
        lemma_rtrim_prefix(s, j - 1);
        assert(s.take(j - 1) =~= s.take(j).take(j - 1));
        lemma_rtrim_prefix(s.take(j), j - 1);
    }
}

/// `skip_ws_from` is invariant under dropping a prefix it has already passed.
pub proof fn lemma_skip_ws_shift(s: Seq<char>, i: int, d: int)
    requires
        0 <= d <= i <= s.len(),
    ensures
        skip_ws_from(s, i) - d == skip_ws_from(s.skip(d), i - d),
    decreases s.len() - i,
{
    if i < s.len() && is_ws(s[i]) {
        lemma_skip_ws_shift(s, i + 1, d);
    }
}

/// `skip_ws_from` is invariant under dropping a suffix beyond the stop point.
pub proof fn lemma_skip_ws_take(s: Seq<char>, i: int, j: int)
    requires
        0 <= i <= j <= s.len(),
        skip_ws_from(s, i) < j || j == s.len(),
    ensures
        skip_ws_from(s, i) == skip_ws_from(s.take(j), i),
    decreases s.len() - i,
{
    if i < s.len() && is_ws(s[i]) {
        lemma_skip_ws_bounds(s, i);
        if i + 1 <= j {
            lemma_skip_ws_take(s, i + 1, j);
        }
    }
}

/// A trimmed sequence starts and ends with non-whitespace.
pub proof fn lemma_trim_edges(s: Seq<char>)
    ensures
        trim(s).len() > 0 ==> !is_ws(trim(s)[0]) && !is_ws(trim(s).last()),
        trim(s).len() <= s.len(),
{
    let e = rtrim_len(s, s.len() as int);
    lemma_rtrim_bounds(s, s.len() as int);
    let t = s.take(e);
    lemma_skip_ws_bounds(t, 0);
    let a = skip_ws_from(t, 0);
    if a < t.len() {
        assert(trim(s)[0] == t[a]);
        assert(trim(s).last() == t[e - 1]);
        assert(t[e - 1] == s[e - 1]);
    }
}

/// Index of the first non-whitespace char of `s[i..]`.
pub fn skip_ws(s: &[char], i: usize) -> (r: usize)
    requires
        i <= s@.len(),
    ensures
        r == skip_ws_from(s@, i as int),
        i <= r <= s@.len(),
{
    let mut k = i;
    while k < s.len() && is_whitespace(s[k])
        invariant
            i <= k <= s@.len(),
            skip_ws_from(s@, i as int) == skip_ws_from(s@, k as int),
        decreases s@.len() - k,
    {
        k += 1;
    }
    k
}

/// Length of `s[..j]` without its trailing whitespace.
pub fn rtrim(s: &[char], j: usize) -> (r: usize)
    requires
        j <= s@.len(),
    ensures
        r == rtrim_len(s@, j as int),
        r <= j,
{
    let mut k = j;
    while k > 0 && is_whitespace(s[k - 1])
        invariant
            k <= j <= s@.len(),
            rtrim_len(s@, j as int) == rtrim_len(s@, k as int),
        decreases k,
    {
        k -= 1;
    }
    k
}

/// Bounds `(a, b)` of `trim(s)` inside `s`.
pub fn trim_bounds(s: &[char]) -> (r: (usize, usize))
    ensures
        r.0 <= r.1 <= s@.len(),
        s@.subrange(r.0 as int, r.1 as int) == trim(s@),
        r.1 == rtrim_len(s@, s@.len() as int),
        r.0 == skip_ws_from(s@, 0) || r.0 == r.1,
        r.0 == lead_len(trim_end(s@)),
{
    let b = rtrim(s, s.len());
    let a = skip_ws(s, 0);
    proof {
        lemma_skip_ws_bounds(s@, 0);
        lemma_rtrim_bounds(s@, s@.len() as int);
        lemma_skip_ws_bounds(s@.take(b as int), 0);
    }
    if a < b {
        proof {
            lemma_skip_ws_take(s@, 0, b as int);
            assert(s@.subrange(a as int, b as int) =~= s@.take(b as int).skip(a as int));
        }
        (a, b)
    } else {
        proof {
            // the whole prefix is whitespace
            let t = s@.take(b as int);
            if skip_ws_from(t, 0) < b {
                assert(!is_ws(t[skip_ws_from(t, 0)]));
                assert(is_ws(s@[skip_ws_from(t, 0)]));
            }
            assert(s@.subrange(b as int, b as int) =~= t.skip(skip_ws_from(t, 0)));
        }
        (b, b)
    }
}

// ---------------------------------------------------------------------------
// Runs of one character
// ---------------------------------------------------------------------------

/// Index of the first char at or after `i` that is not `c` (or `s.len()`).
pub open spec fn run_end(s: Seq<char>, c: char, i: int) -> int
    decreases s.len() - i,
{
    if 0 <= i < s.len() && s[i] == c {
        run_end(s, c, i + 1)
    } else {
        i
    }
}

/// Number of leading chars of `s` equal to `c`.
pub open spec fn count_lead(s: Seq<char>, c: char) -> int {
    run_end(s, c, 0)
}

pub proof fn lemma_run_end_bounds(s: Seq<char>, c: char, i: int)
    requires
        0 <= i <= s.len(),
    ensures
        i <= run_end(s, c, i) <= s.len(),
        forall|k: int| i <= k < run_end(s, c, i) ==> #[trigger] s[k] == c,
        run_end(s, c, i) < s.len() ==> s[run_end(s, c, i)] != c,
    decreases s.len() - i,
{
    if i < s.len() && s[i] == c {
        lemma_run_end_bounds(s, c, i + 1);
    }
}

/// Index of the first char of `s[i..]` that is not `c`.
pub fn skip_run(s: &[char], c: char, i: usize) -> (r: usize)
    requires
        i <= s@.len(),
    ensures
        r == run_end(s@, c, i as int),
        i <= r <= s@.len(),
{
    let mut k = i;
    while k < s.len() && s[k] == c
        invariant
            i <= k <= s@.len(),
            run_end(s@, c, i as int) == run_end(s@, c, k as int),
        decreases s@.len() - k,
    {
        k += 1;
    }
    k
}

// ---------------------------------------------------------------------------
// Searching
// ---------------------------------------------------------------------------

/// `p` occurs in `s` at index `i`.
pub open spec fn match_at(s: Seq<char>, p: Seq<char>, i: int) -> bool {
    0 <= i && i + p.len() <= s.len() && s.subrange(i, i + p.len()) == p
}

pub open spec fn starts_with(s: Seq<char>, p: Seq<char>) -> bool {
    match_at(s, p, 0)
}

pub open spec fn ends_with(s: Seq<char>, p: Seq<char>) -> bool {
    match_at(s, p, s.len() - p.len())
}

/// First occurrence of `p` at or after `i`.
pub open spec fn find_from(s: Seq<char>, p: Seq<char>, i: int) -> Option<int>
    decreases s.len() + 1 - i,
{
    if i < 0 || i + p.len() > s.len() {
        None
    } else if match_at(s, p, i) {
        Some(i)
    } else {
        find_from(s, p, i + 1)
    }
}

pub open spec fn find(s: Seq<char>, p: Seq<char>) -> Option<int> {
    find_from(s, p, 0)
}

/// Last occurrence of `p` starting at or before `i`.
pub open spec fn rfind_upto(s: Seq<char>, p: Seq<char>, i: int) -> Option<int>
    decreases i + 1,
{
    if i < 0 {
        None
    } else if match_at(s, p, i) {
        Some(i)
    } else {
        rfind_upto(s, p, i - 1)
    }
}

pub open spec fn rfind(s: Seq<char>, p: Seq<char>) -> Option<int> {
    rfind_upto(s, p, s.len() - p.len())
}

pub open spec fn contains(s: Seq<char>, p: Seq<char>) -> bool {
    find(s, p) is Some
}

pub proof fn lemma_find_from_bounds(s: Seq<char>, p: Seq<char>, i: int)
    requires
        0 <= i,
    ensures
        find_from(s, p, i) matches Some(k) ==> i <= k && match_at(s, p, k) && forall|m: int|
            i <= m < k ==> !match_at(s, p, m),
        find_from(s, p, i) is None ==> forall|m: int| i <= m ==> !match_at(s, p, m),
    decreases s.len() + 1 - i,
{
    if i < 0 || i + p.len() > s.len() {
        if i < 0 {
            // unreachable for callers starting at a valid index
        }
    } else if !match_at(s, p, i) {
        lemma_find_from_bounds(s, p, i + 1);
    }
}

pub proof fn lemma_rfind_upto_bounds(s: Seq<char>, p: Seq<char>, i: int)
    ensures
        rfind_upto(s, p, i) matches Some(k) ==> k <= i && match_at(s, p, k) && forall|m: int|
            k < m <= i ==> !match_at(s, p, m),
        rfind_upto(s, p, i) is None ==> forall|m: int| 0 <= m <= i ==> !match_at(s, p, m),
    decreases i + 1,
{
    if i >= 0 && !match_at(s, p, i) {
        lemma_rfind_upto_bounds(s, p, i - 1);
    }
}

pub proof fn lemma_starts_with_char(s: Seq<char>, c: char)
    ensures
        starts_with(s, seq![c]) <==> (s.len() > 0 && s[0] == c),
{
    if s.len() > 0 {
        assert(s.subrange(0, 1)[0] == s[0]);
        if s[0] == c {
            assert(s.subrange(0, 1) =~= seq![c]);
        }
    }
}

pub proof fn lemma_ends_with_char(s: Seq<char>, c: char)
    ensures
        ends_with(s, seq![c]) <==> (s.len() > 0 && s[s.len() - 1] == c),
{
    if s.len() > 0 {
        assert(s.subrange(s.len() - 1, s.len() as int)[0] == s[s.len() - 1]);
        if s[s.len() - 1] == c {
            assert(s.subrange(s.len() - 1, s.len() as int) =~= seq![c]);
        }
    }
}

/// The UTF-8 encoding of `s` has at least one byte per char.
pub proof fn lemma_utf8_len_ge(s: Seq<char>)
    ensures
        vstd::utf8::encode_utf8(s).len() >= s.len(),
    decreases s.len(),
{
    if s.len() > 0 {
        lemma_utf8_len_ge(s.drop_first());
    }
}

/// Whether `p` occurs in `s` at index `i`.
pub fn matches_at(s: &[char], p: &[char], i: usize) -> (b: bool)
    ensures
        b == match_at(s@, p@, i as int),
{
    let n = s.len();
    if i > n || p.len() > n - i {
        return false;
    }
    let mut k: usize = 0;
    while k < p.len()
        invariant
            n == s@.len(),
            k <= p@.len(),
            i + p@.len() <= s@.len(),
            forall|m: int| 0 <= m < k ==> s@[i + m] == p@[m],
        decreases p@.len() - k,
    {
        assert(i + k < s@.len());
        if s[i + k] != p[k] {
            assert(s@.subrange(i as int, i + p@.len())[k as int] != p@[k as int]);
            return false;
        }
        k += 1;
    }
    assert(s@.subrange(i as int, i + p@.len()) =~= p@);
    true
}

pub fn starts_with_at(s: &[char], p: &[char]) -> (b: bool)
    ensures
        b == starts_with(s@, p@),
{
    matches_at(s, p, 0)
}

pub fn ends_with_at(s: &[char], p: &[char]) -> (b: bool)
    ensures
        b == ends_with(s@, p@),
{
    if p.len() > s.len() {
        false
    } else {
        matches_at(s, p, s.len() - p.len())
    }
}

/// First occurrence of `p` in `s` at or after `i`.
pub fn find_from_at(s: &[char], p: &[char], i: usize) -> (r: Option<usize>)
    requires
        i <= s@.len(),
    ensures
        r matches Some(k) ==> find_from(s@, p@, i as int) == Some(k as int),
        r is None ==> find_from(s@, p@, i as int) is None,
        r matches Some(k) ==> i <= k && k + p@.len() <= s@.len() && match_at(s@, p@, k as int),
{
    let mut k = i;
    while k <= s.len()
        invariant
            i <= k,
            find_from(s@, p@, i as int) == find_from(s@, p@, k as int),
        decreases s@.len() + 1 - k,
    {
        if p.len() > s.len() - k {
            return None;
        }
        if matches_at(s, p, k) {
            return Some(k);
        }
        if k == s.len() {
            if p.len() == 0 {
                assert(s@.subrange(k as int, k as int) =~= p@);
            }
            return None;
        }
        k += 1;
    }
    None
}

pub fn find_at(s: &[char], p: &[char]) -> (r: Option<usize>)
    ensures
        r matches Some(k) ==> find(s@, p@) == Some(k as int),
        r is None ==> find(s@, p@) is None,
        r matches Some(k) ==> k + p@.len() <= s@.len() && match_at(s@, p@, k as int),
{
    find_from_at(s, p, 0)
}

/// Last occurrence of `p` in `s`.
pub fn rfind_at(s: &[char], p: &[char]) -> (r: Option<usize>)
    ensures
        r matches Some(k) ==> rfind(s@, p@) == Some(k as int),
        r is None ==> rfind(s@, p@) is None,
        r matches Some(k) ==> k + p@.len() <= s@.len(),
{
    if p.len() > s.len() {
        return None;
    }
    let mut k = s.len() - p.len();
    loop
        invariant
            k + p@.len() <= s@.len(),
            rfind(s@, p@) == rfind_upto(s@, p@, k as int),
        decreases k,
    {
        if matches_at(s, p, k) {
            return Some(k);
        }
        if k == 0 {
            assert(rfind_upto(s@, p@, -1) is None);
            return None;
        }
        k -= 1;
    }
}

// ---------------------------------------------------------------------------
// Splitting
// ---------------------------------------------------------------------------

/// `str::split` with a non-empty separator: the pieces between successive
/// non-overlapping occurrences of `p`, scanning left to right.
pub open spec fn split(s: Seq<char>, p: Seq<char>) -> Seq<Seq<char>>
    decreases s.len(),
{
    if p.len() == 0 {
        seq![s]
    } else {
        match find(s, p) {
            Some(i) => if 0 <= i && i + p.len() <= s.len() {
                seq![s.take(i)] + split(s.skip(i + p.len()), p)
            } else {
                seq![s]
            },
            None => seq![s],
        }
    }
}

pub proof fn lemma_find_shift(s: Seq<char>, p: Seq<char>, d: int, i: int)
    requires
        0 <= d <= i,
        d <= s.len(),
    ensures
        find_from(s.skip(d), p, i - d) == (match find_from(s, p, i) {
            Some(k) => Some(k - d),
            None => None,
        }),
    decreases s.len() + 1 - i,
{
    if i + p.len() <= s.len() {
        assert(s.skip(d).subrange(i - d, i - d + p.len()) =~= s.subrange(i, i + p.len()));
        if !match_at(s, p, i) {
            lemma_find_shift(s, p, d, i + 1);
        }
    }
}

/// The pieces of `split(s, p)` as index ranges into `s`.
pub fn split_ranges(s: &[char], p: &[char]) -> (r: Vec<(usize, usize)>)
    requires
        p@.len() > 0,
    ensures
        r@.len() == split(s@, p@).len(),
        forall|k: int|
            0 <= k < r@.len() ==> {
                &&& (#[trigger] r@[k]).0 <= r@[k].1 <= s@.len()
                &&& s@.subrange(r@[k].0 as int, r@[k].1 as int) == split(s@, p@)[k]
            },
{
    let mut r: Vec<(usize, usize)> = Vec::new();
    let mut pos: usize = 0;
    let ghost mut pieces: Seq<Seq<char>> = Seq::empty();
    let n = s.len();
    assert(s@.skip(0) =~= s@);
    assert(pieces + split(s@, p@) =~= split(s@, p@));
    loop
        invariant
            n == s@.len(),
            pos <= s@.len(),
            p@.len() > 0,
            pieces.len() == r@.len(),
            forall|k: int|
                0 <= k < r@.len() ==> {
                    &&& (#[trigger] r@[k]).0 <= r@[k].1 <= s@.len()
                    &&& s@.subrange(r@[k].0 as int, r@[k].1 as int) == pieces[k]
                },
            split(s@, p@) == pieces + split(s@.skip(pos as int), p@),
        decreases s@.len() - pos,
    {
        let f = find_from_at(s, p, pos);
        proof {
            lemma_find_shift(s@, p@, pos as int, pos as int);
            assert(s@.skip(pos as int) == s@.skip(pos as int));
        }
        match f {
            Some(k) => {
                proof {
                    let t = s@.skip(pos as int);
                    assert(find(t, p@) == Some(k - pos));
                    assert(t.take(k - pos) =~= s@.subrange(pos as int, k as int));
                    assert(t.skip(k - pos + p@.len()) =~= s@.skip(k + p@.len()));
                    pieces = pieces.push(s@.subrange(pos as int, k as int));
                    assert(split(t, p@) == seq![s@.subrange(pos as int, k as int)] + split(
                        s@.skip(k + p@.len()),
                        p@,
                    ));
                }
                r.push((pos, k));
                pos = k + p.len();
                proof {
                    assert(split(s@, p@) =~= pieces + split(s@.skip(pos as int), p@));
                }
            },
            None => {
                proof {
                    let t = s@.skip(pos as int);
                    assert(find(t, p@) is None);
                    assert(t =~= s@.subrange(pos as int, s@.len() as int));
                    pieces = pieces.push(t);
                    assert(split(s@, p@) =~= pieces);
                }
                r.push((pos, s.len()));
                return r;
            },
        }
    }
}

/// Bounds of `trim(s[a..b])` inside `s`.
pub fn trim_range(s: &[char], a: usize, b: usize) -> (r: (usize, usize))
    requires
        a <= b <= s@.len(),
    ensures
        a <= r.0 <= r.1 <= b,
        s@.subrange(r.0 as int, r.1 as int) == trim(s@.subrange(a as int, b as int)),
{
    let t = slice_vec(s, a, b);
    let (x, y) = trim_bounds(t.as_slice());
    proof {
        assert(s@.subrange(a + x, a + y) =~= t@.subrange(x as int, y as int));
    }
    (a + x, a + y)
}

/// Start of `trim_start(s[a..b])` inside `s`.
pub fn trim_start_range(s: &[char], a: usize, b: usize) -> (r: usize)
    requires
        a <= b <= s@.len(),
    ensures
        a <= r <= b,
        s@.subrange(r as int, b as int) == trim_start(s@.subrange(a as int, b as int)),
{
    let t = slice_vec(s, a, b);
    let x = skip_ws(t.as_slice(), 0);
    proof {
        assert(s@.subrange(a + x, b as int) =~= t@.skip(x as int));
    }
    a + x
}

/// End of `trim_end(s[a..b])` inside `s`.
pub fn trim_end_range(s: &[char], a: usize, b: usize) -> (r: usize)
    requires
        a <= b <= s@.len(),
    ensures
        a <= r <= b,
        s@.subrange(a as int, r as int) == trim_end(s@.subrange(a as int, b as int)),
{
    let t = slice_vec(s, a, b);
    let y = rtrim(t.as_slice(), t.len());
    proof {
        assert(s@.subrange(a as int, a + y) =~= t@.take(y as int));
    }
    a + y
}

/// Whether `s[a..b]` is exactly `p`.
pub fn range_eq(s: &[char], a: usize, b: usize, p: &[char]) -> (r: bool)
    requires
        a <= b <= s@.len(),
    ensures
        r == (s@.subrange(a as int, b as int) == p@),
{
    if b - a != p.len() {
        proof {
            if s@.subrange(a as int, b as int) == p@ {
                assert(s@.subrange(a as int, b as int).len() == p@.len());
            }
        }
        false
    } else {
        matches_at(s, p, a)
    }
}

// ---------------------------------------------------------------------------
// Decimal numbers
// ---------------------------------------------------------------------------

pub open spec fn all_digits(s: Seq<char>) -> bool {
    forall|k: int| 0 <= k < s.len() ==> is_digit(#[trigger] s[k])
}

pub open spec fn digit_value(c: char) -> int {
    (c as u32) - ('0' as u32)
}

/// Decimal value of a digit string.
pub open spec fn digits_value(s: Seq<char>) -> int
    decreases s.len(),
{
    if s.len() == 0 {
        0
    } else {
        digits_value(s.drop_last()) * 10 + digit_value(s.last())
    }
}

/// `str::parse` for an unsigned integer type whose maximum is `max`: an
/// optional `+`, then one or more ASCII digits whose value is at most `max`.
pub open spec fn parse_uint(s: Seq<char>, max: int) -> Option<int> {
    let d = if s.len() > 0 && s[0] == '+' {
        s.skip(1)
    } else {
        s
    };
    if d.len() > 0 && all_digits(d) && digits_value(d) <= max {
        Some(digits_value(d))
    } else {
        None
    }
}

/// `str::parse` for a signed integer type with range `[-max-1, max]`: an
/// optional `+` or `-`, then one or more ASCII digits.
pub open spec fn parse_int(s: Seq<char>, max: int) -> Option<int> {
    if s.len() > 0 && s[0] == '-' {
        let d = s.skip(1);
        if d.len() > 0 && all_digits(d) && digits_value(d) <= max + 1 {
            Some(-digits_value(d))
        } else {
            None
        }
    } else {
        parse_uint(s, max)
    }
}

pub proof fn lemma_digits_value_nonneg(s: Seq<char>)
    requires
        all_digits(s),
    ensures
        digits_value(s) >= 0,
    decreases s.len(),
{
    if s.len() > 0 {
        assert(all_digits(s.drop_last()));
        lemma_digits_value_nonneg(s.drop_last());
        assert(is_digit(s[s.len() - 1]));
    }
}

/// Value of the digit string `s[a..b]`, saturated at `cap`.
fn digits_saturated(s: &[char], a: usize, b: usize, cap: u64) -> (r: u64)
    requires
        a <= b <= s@.len(),
        all_digits(s@.subrange(a as int, b as int)),
        cap < u64::MAX,
    ensures
        r == if digits_value(s@.subrange(a as int, b as int)) <= cap {
            digits_value(s@.subrange(a as int, b as int))
        } else {
            cap + 1
        },
{
    let mut acc: u64 = 0;
    let mut k = a;
    while k < b
        invariant
            a <= k <= b <= s@.len(),
            cap < u64::MAX,
            all_digits(s@.subrange(a as int, b as int)),
            acc == if digits_value(s@.subrange(a as int, k as int)) <= cap {
                digits_value(s@.subrange(a as int, k as int))
            } else {
                cap + 1
            },
        decreases b - k,
    {
        let ghost pre = s@.subrange(a as int, k as int);
        let ghost nxt = s@.subrange(a as int, k + 1);
        proof {
            assert(nxt.drop_last() =~= pre);
            assert(nxt.last() == s@[k as int]);
            assert(s@.subrange(a as int, b as int)[k - a] == s@[k as int]);
            assert(all_digits(pre)) by {
                assert forall|j: int| 0 <= j < pre.len() implies is_digit(#[trigger] pre[j]) by {
                    assert(pre[j] == s@.subrange(a as int, b as int)[j]);
                }
            }
            lemma_digits_value_nonneg(pre);
        }
        let d = (s[k] as u32 - '0' as u32) as u64;
        if acc <= cap {
            let wide: u128 = (acc as u128) * 10 + (d as u128);
            if wide <= cap as u128 {
                acc = wide as u64;
            } else {
                acc = cap + 1;
            }
        } else {
            acc = cap + 1;
        }
        k += 1;
    }
    acc
}

/// `str::parse::<uN>` on `s[a..b]`, where `max` is the type's maximum.
pub fn parse_uint_range(s: &[char], a: usize, b: usize, max: u64) -> (r: Option<u64>)
    requires
        a <= b <= s@.len(),
        max < u64::MAX,
    ensures
        r matches Some(v) ==> parse_uint(s@.subrange(a as int, b as int), max as int) == Some(
            v as int,
        ),
        r is None ==> parse_uint(s@.subrange(a as int, b as int), max as int) is None,
{
    let ghost t = s@.subrange(a as int, b as int);
    let start = if a < b && s[a] == '+' {
        a + 1
    } else {
        a
    };
    let ghost d = s@.subrange(start as int, b as int);
    proof {
        if a < b && s@[a as int] == '+' {
            assert(t.skip(1) =~= d);
        } else {
            assert(t =~= d);
        }
    }
    if start == b {
        return None;
    }
    assert(parse_uint(t, max as int) == (if d.len() > 0 && all_digits(d) && digits_value(d)
        <= max {
        Some(digits_value(d))
    } else {
        None
    }));
    let mut k = start;
    while k < b
        invariant
            start <= k <= b <= s@.len(),
            d == s@.subrange(start as int, b as int),
            t == s@.subrange(a as int, b as int),
            parse_uint(t, max as int) == (if d.len() > 0 && all_digits(d) && digits_value(d)
                <= max {
                Some(digits_value(d))
            } else {
                None
            }),
            forall|j: int| start <= j < k ==> is_digit(#[trigger] s@[j]),
        decreases b - k,
    {
        if !is_ascii_digit(s[k]) {
            proof {
                assert(d[k - start] == s@[k as int]);
            }
            return None;
        }
        k += 1;
    }
    proof {
        assert forall|j: int| 0 <= j < d.len() implies is_digit(#[trigger] d[j]) by {
            assert(d[j] == s@[start + j]);
        }
    }
    let v = digits_saturated(s, start, b, max);
    if v <= max {
        Some(v)
    } else {
        None
    }
}

/// `str::replace` with a non-empty pattern: every non-overlapping
/// occurrence of `p`, scanning left to right, becomes `r`.
pub open spec fn replace_all(s: Seq<char>, p: Seq<char>, r: Seq<char>) -> Seq<char>
    decreases s.len(),
{
    if p.len() == 0 {
        s
    } else {
        match find(s, p) {
            Some(i) => if 0 <= i && i + p.len() <= s.len() {
                s.take(i) + r + replace_all(s.skip(i + p.len()), p, r)
            } else {
                s
            },
            None => s,
        }
    }
}

pub fn replace_chars(s: &[char], p: &[char], r: &[char]) -> (out: Vec<char>)
    requires
        p@.len() > 0,
    ensures
        out@ == replace_all(s@, p@, r@),
{
    let mut out: Vec<char> = Vec::new();
    let mut pos: usize = 0;
    let n = s.len();
    assert(s@.skip(0) =~= s@);
    loop
        invariant
            n == s@.len(),
            pos <= n,
            p@.len() > 0,
            replace_all(s@, p@, r@) == out@ + replace_all(s@.skip(pos as int), p@, r@),
        decreases n - pos,
    {
        let f = find_from_at(s, p, pos);
        proof {
            lemma_find_shift(s@, p@, pos as int, pos as int);
        }
        match f {
            Some(k) => {
                let piece = slice_vec(s, pos, k);
                proof {
                    let t = s@.skip(pos as int);
                    assert(t.take(k - pos) =~= piece@);
                    assert(t.skip(k - pos + p@.len()) =~= s@.skip(k + p@.len()));
                }
                let ghost old_out = out@;
                push_all(&mut out, piece.as_slice());
                push_all(&mut out, r);
                pos = k + p.len();
                assert(out@ =~= old_out + piece@ + r@);
                assert(replace_all(s@, p@, r@) =~= out@ + replace_all(s@.skip(pos as int), p@, r@));
            },
            None => {
                let piece = slice_vec(s, pos, n);
                assert(piece@ =~= s@.skip(pos as int));
                push_all(&mut out, piece.as_slice());
                return out;
            },
        }
    }
}

/// Copy of `s[a..b]`.
pub fn slice_vec(s: &[char], a: usize, b: usize) -> (r: Vec<char>)
    requires
        a <= b <= s@.len(),
    ensures
        r@ == s@.subrange(a as int, b as int),
{
    let mut r: Vec<char> = Vec::new();
    let mut k = a;
    while k < b
        invariant
            a <= k <= b <= s@.len(),
            r@ == s@.subrange(a as int, k as int),
        decreases b - k,
    {
        r.push(s[k]);
        k += 1;
        assert(r@ =~= s@.subrange(a as int, k as int));
    }
    r
}

/// The characters of `s`, in order.
pub fn chars_of(s: &str) -> (v: Vec<char>)
    ensures
        v@ == s@,
{
    let mut v: Vec<char> = Vec::new();
    for c in it: s.chars()
        invariant
            v@ == it.seq().take(it.index() as int),
            it.seq() == s@,
    {
        v.push(c);
    }
    v
}

/// Appends all of `t` to `v`.
pub fn push_all(v: &mut Vec<char>, t: &[char])
    ensures
        final(v)@ == old(v)@ + t@,
{
    let mut k: usize = 0;
    while k < t.len()
        invariant
            k <= t@.len(),
            v@ == old(v)@ + t@.take(k as int),
        decreases t@.len() - k,
    {
        v.push(t[k]);
        k += 1;
        assert(t@.take(k as int) =~= t@.take(k - 1) .push(t@[k - 1]));
    }
    assert(t@.take(t@.len() as int) =~= t@);
}

/// A `String` holding exactly the characters of `v`.
#[verifier::external_body]
pub fn string_of(v: &[char]) -> (s: String)
    ensures
        s@ == v@,
{
    String::from_iter(v)
}

} // verus!
