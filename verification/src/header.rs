//! Document-header lines: the revision line and the author line.

use vstd::prelude::*;
use crate::text::{
    is_whitespace, is_ws, lemma_skip_ws_bounds, lemma_trim_edges, rtrim_len, skip_ws,
    skip_ws_from, split, split_ranges, string_of, to_ascii_upper, upper, chars_of, ends_with, find, find_at, find_from, find_from_at, is_digit, lemma_ends_with_char,
    lemma_find_shift, lemma_starts_with_char, rfind, rfind_at, slice_vec, starts_with, trim,
    trim_end, trim_end_range, trim_range, trim_start, trim_start_range,
};

verus! {

/// The revision line of a document header.
pub struct RevisionInfo<'a> {
    /// `None`: no version group; `Some("")`: a comma with no digits before it.
    pub version: Option<&'a str>,
    pub date: &'a str,
    /// `Some("")` when the line ends with a bare `:`.
    pub remark: Option<&'a str>,
}

/// First index at or after `i` holding an ASCII digit or `{` (or `s.len()`).
pub open spec fn digit_or_brace_from(s: Seq<char>, i: int) -> int
    decreases s.len() - i,
{
    if 0 <= i < s.len() && !(is_digit(s[i]) || s[i] == '{') {
        digit_or_brace_from(s, i + 1)
    } else {
        i
    }
}

pub proof fn lemma_digit_or_brace(s: Seq<char>, i: int)
    requires
        0 <= i <= s.len(),
    ensures
        i <= digit_or_brace_from(s, i) <= s.len(),
    decreases s.len() - i,
{
    if i < s.len() && !(is_digit(s[i]) || s[i] == '{') {
        lemma_digit_or_brace(s, i + 1);
    }
}

/// Version group and the rest of a trimmed revision line: the version
/// starts at the first digit or `{` and runs to the next comma; without
/// such a comma, a comma before that point sets an empty version.
#[verifier::opaque]
pub open spec fn rev_split(t: Seq<char>) -> (Option<Seq<char>>, Seq<char>) {
    let m0 = digit_or_brace_from(t, 0);
    match find(t.skip(m0), seq![',']) {
        Some(c) => (Some(trim_end(t.subrange(m0, m0 + c))), t.skip(m0 + c + 1)),
        None => match rfind(t.take(m0), seq![',']) {
            Some(c) => (Some(Seq::<char>::empty()), t.skip(c + 1)),
            None => (None, t),
        },
    }
}

/// Component (date or `v`-version) and remark of the rest of the line:
/// the remark follows the first colon; one comma before it is dropped.
#[verifier::opaque]
pub open spec fn rev_tail(rest2: Seq<char>) -> (Seq<char>, Option<Seq<char>>) {
    match find(rest2, seq![':']) {
        Some(colon) => {
            let h0 = trim_end(rest2.take(colon));
            let head = if ends_with(h0, seq![',']) {
                trim_end(h0.drop_last())
            } else {
                h0
            };
            (head, Some(trim(rest2.skip(colon + 1))))
        },
        None => (trim_end(rest2), None),
    }
}

/// Revision line `[prefix]version, date: remark`. A component starting
/// with `:` is not a revision line. Without a version group, a component
/// starting with `v` is the version minus that char.
pub open spec fn revision_of(s: Seq<char>) -> Option<(Option<Seq<char>>, Seq<char>, Option<Seq<char>>)> {
    let t = trim(s);
    if t.len() == 0 {
        None
    } else {
        revision_trimmed(t)
    }
}

/// `revision_of` on an already trimmed, non-empty line.
pub open spec fn revision_trimmed(t: Seq<char>) -> Option<(Option<Seq<char>>, Seq<char>, Option<Seq<char>>)> {
    let (version, rest) = rev_split(t);
    let rest2 = trim_start(rest);
    if starts_with(rest2, seq![':']) {
        None
    } else {
        let (component, remark) = rev_tail(rest2);
        match version {
            Some(v) => Some((Some(v), component, remark)),
            None => if starts_with(component, seq!['v']) {
                Some((Some(component.skip(1)), Seq::<char>::empty(), remark))
            } else {
                Some((None, component, remark))
            },
        }
    }
}

/// Optional index range read as a sub-sequence.
pub open spec fn range_view(s: Seq<char>, o: Option<(usize, usize)>) -> Option<Seq<char>> {
    match o {
        Some((a, b)) => Some(s.subrange(a as int, b as int)),
        None => None,
    }
}

pub open spec fn range_ok(s: Seq<char>, o: Option<(usize, usize)>) -> bool {
    match o {
        Some((a, b)) => a <= b <= s.len(),
        None => true,
    }
}

pub open spec fn opt_str_view(o: Option<&str>) -> Option<Seq<char>> {
    match o {
        Some(t) => Some(t@),
        None => None,
    }
}

pub open spec fn revision_view(r: Option<RevisionInfo>) -> Option<(Option<Seq<char>>, Seq<char>, Option<Seq<char>>)> {
    match r {
        Some(i) => Some((opt_str_view(i.version), i.date@, opt_str_view(i.remark))),
        None => None,
    }
}

fn digit_or_brace_at(s: &[char], i: usize) -> (r: usize)
    requires
        i <= s@.len(),
    ensures
        r == digit_or_brace_from(s@, i as int),
        i <= r <= s@.len(),
{
    let n = s.len();
    let mut k = i;
    while k < n && !(('0' <= s[k] && s[k] <= '9') || s[k] == '{')
        invariant
            n == s@.len(),
            i <= k <= n,
            digit_or_brace_from(s@, i as int) == digit_or_brace_from(s@, k as int),
        decreases n - k,
    {
        k += 1;
    }
    k
}

/// `rev_split(t)`: version bounds and the start of the rest.
fn rev_split_at(t: &[char]) -> (r: (Option<(usize, usize)>, usize))
    ensures
        r.1 <= t@.len(),
        rev_split(t@).1 == t@.subrange(r.1 as int, t@.len() as int),
        match r.0 {
            Some((a, b)) => a <= b <= t@.len() && rev_split(t@).0 == Some(
                t@.subrange(a as int, b as int),
            ),
            None => rev_split(t@).0 is None,
        },
{
    reveal(rev_split);
    let tl = t.len();
    let m0 = digit_or_brace_at(t, 0);
    let comma = vec![','];
    assert(comma@ == seq![',']);
    proof {
        lemma_find_shift(t@, seq![','], m0 as int, m0 as int);
        assert(t@.skip(m0 as int) == t@.skip(m0 as int));
    }
    match find_from_at(t, comma.as_slice(), m0) {
        Some(c) => {
            let ve = trim_end_range(t, m0, c);
            proof {
                assert(t@.subrange(m0 as int, m0 + (c - m0)) =~= t@.subrange(m0 as int, c as int));
                assert(t@.skip(m0 + (c - m0) + 1) =~= t@.subrange(c + 1, tl as int));
            }
            (Some((m0, ve)), c + 1)
        },
        None => {
            let head = slice_vec(t, 0, m0);
            assert(head@ =~= t@.take(m0 as int));
            match rfind_at(head.as_slice(), comma.as_slice()) {
                Some(c) => {
                    assert(t@.skip(c + 1) =~= t@.subrange(c + 1, tl as int));
                    assert(t@.subrange(c + 1, c + 1) =~= Seq::<char>::empty());
                    (Some((c + 1, c + 1)), c + 1)
                },
                None => {
                    assert(t@ =~= t@.subrange(0, tl as int));
                    (None, 0)
                },
            }
        },
    }
}

/// `rev_tail(t[r2..])`: component bounds and remark bounds.
fn rev_tail_at(t: &[char], r2: usize) -> (r: (usize, Option<(usize, usize)>))
    requires
        r2 <= t@.len(),
    ensures
        r2 <= r.0 <= t@.len(),
        rev_tail(t@.subrange(r2 as int, t@.len() as int)).0 == t@.subrange(r2 as int, r.0 as int),
        match r.1 {
            Some((a, b)) => a <= b <= t@.len() && rev_tail(
                t@.subrange(r2 as int, t@.len() as int),
            ).1 == Some(t@.subrange(a as int, b as int)),
            None => rev_tail(t@.subrange(r2 as int, t@.len() as int)).1 is None,
        },
{
    reveal(rev_tail);
    let tl = t.len();
    let ghost rest2 = t@.subrange(r2 as int, tl as int);
    let colon_p = vec![':'];
    assert(colon_p@ == seq![':']);
    proof {
        lemma_find_shift(t@, seq![':'], r2 as int, r2 as int);
        assert(t@.skip(r2 as int) =~= rest2);
    }
    match find_from_at(t, colon_p.as_slice(), r2) {
        Some(cl) => {
            let he = trim_end_range(t, r2, cl);
            let ghost h0 = t@.subrange(r2 as int, he as int);
            proof {
                assert(rest2.take(cl - r2) =~= t@.subrange(r2 as int, cl as int));
                lemma_ends_with_char(h0, ',');
            }
            let he2 = if he > r2 && t[he - 1] == ',' {
                let e2 = trim_end_range(t, r2, he - 1);
                assert(h0.drop_last() =~= t@.subrange(r2 as int, he - 1));
                e2
            } else {
                he
            };
            let (ra, rb) = trim_range(t, cl + 1, tl);
            assert(rest2.skip(cl - r2 + 1) =~= t@.subrange(cl + 1, tl as int));
            (he2, Some((ra, rb)))
        },
        None => {
            let ce = trim_end_range(t, r2, tl);
            (ce, None)
        },
    }
}

/// `revision_trimmed(t)` as index ranges into `t`.
fn revision_at(t: &[char]) -> (r: Option<(Option<(usize, usize)>, (usize, usize), Option<(usize, usize)>)>)
    ensures
        match r {
            Some((ve, (da, db), re)) => range_ok(t@, ve) && da <= db <= t@.len() && range_ok(t@, re)
                && revision_trimmed(t@) == Some(
                (range_view(t@, ve), t@.subrange(da as int, db as int), range_view(t@, re)),
            ),
            None => revision_trimmed(t@) is None,
        },
{
    let tl = t.len();
    let (ver, rs) = rev_split_at(t);
    let r2 = trim_start_range(t, rs, tl);
    let ghost rest2 = t@.subrange(r2 as int, tl as int);
    proof {
        lemma_starts_with_char(rest2, ':');
    }
    if r2 < tl && t[r2] == ':' {
        return None;
    }
    let (ce, rem) = rev_tail_at(t, r2);
    proof {
        lemma_starts_with_char(t@.subrange(r2 as int, ce as int), 'v');
        assert(trim_start(rev_split(t@).1) == rest2);
    }
    match ver {
        Some(_) => Some((ver, (r2, ce), rem)),
        None => {
            if ce > r2 && t[r2] == 'v' {
                assert(t@.subrange(r2 as int, ce as int).skip(1) =~= t@.subrange(r2 + 1, ce as int));
                assert(t@.subrange(0, 0) =~= Seq::<char>::empty());
                Some((Some((r2 + 1, ce)), (0, 0), rem))
            } else {
                Some((None, (r2, ce), rem))
            }
        },
    }
}

/// Parse the line following the author line as a revision line.
pub fn parse_revision_line(line: &str) -> (r: Option<RevisionInfo<'_>>)
    ensures
        revision_view(r) == revision_of(line@),
{
    let v = chars_of(line);
    let n = v.len();
    let (x, y) = trim_range(v.as_slice(), 0, n);
    assert(v@.subrange(0, n as int) =~= v@);
    if x == y {
        return None;
    }
    let t = slice_vec(v.as_slice(), x, y);
    let tl = t.len();
    assert forall|a: int, b: int| 0 <= a <= b <= tl implies #[trigger] t@.subrange(a, b)
        == v@.subrange(x + a, x + b) by {
        assert(t@.subrange(a, b) =~= v@.subrange(x + a, x + b));
    }
    match revision_at(t.as_slice()) {
        None => None,
        Some((ve, (da, db), re)) => {
            let version = match ve {
                Some((a, b)) => Some(line.substring_char(x + a, x + b)),
                None => None,
            };
            let remark = match re {
                Some((a, b)) => Some(line.substring_char(x + a, x + b)),
                None => None,
            };
            let date = line.substring_char(x + da, x + db);
            assert(opt_str_view(version) == range_view(t@, ve));
            assert(opt_str_view(remark) == range_view(t@, re));
            Some(RevisionInfo { version, date, remark })
        },
    }
}

// ---------------------------------------------------------------------------
// Author line
// ---------------------------------------------------------------------------

/// One author of the author line.
pub struct AuthorInfo<'a> {
    pub fullname: &'a str,
    pub firstname: &'a str,
    pub middlename: &'a str,
    pub lastname: &'a str,
    pub initials: String,
    pub address: &'a str,
}

/// First whitespace index at or after `i` (or `s.len()`).
pub open spec fn nonws_end(s: Seq<char>, i: int) -> int
    decreases s.len() - i,
{
    if 0 <= i < s.len() && !is_ws(s[i]) {
        nonws_end(s, i + 1)
    } else {
        i
    }
}

pub proof fn lemma_nonws_end(s: Seq<char>, i: int)
    requires
        0 <= i <= s.len(),
    ensures
        i <= nonws_end(s, i) <= s.len(),
        nonws_end(s, i) < s.len() ==> is_ws(s[nonws_end(s, i)]),
    decreases s.len() - i,
{
    if i < s.len() && !is_ws(s[i]) {
        lemma_nonws_end(s, i + 1);
    }
}

/// Index ranges of the whitespace-separated words of `s[i..]`.
pub open spec fn word_ranges(s: Seq<char>, i: int) -> Seq<(int, int)>
    decreases s.len() - i,
{
    let a = skip_ws_from(s, i);
    if i < 0 || a < i || a >= s.len() {
        Seq::empty()
    } else {
        let b = nonws_end(s, a);
        if b <= a || b > s.len() {
            Seq::empty()
        } else {
            seq![(a, b)] + word_ranges(s, b)
        }
    }
}

/// Name fields of a trimmed name: `(first, middle, last)`; the middle is
/// the trimmed text between the first and the last word.
pub open spec fn name_fields_of(np: Seq<char>) -> (Seq<char>, Seq<char>, Seq<char>) {
    let w = word_ranges(np, 0);
    let e = Seq::<char>::empty();
    if w.len() == 0 {
        (e, e, e)
    } else {
        let first = np.subrange(w[0].0, w[0].1);
        let last = np.subrange(w.last().0, w.last().1);
        if w.len() == 1 {
            (first, e, first)
        } else if w.len() == 2 {
            (first, e, last)
        } else {
            (first, trim(np.subrange(w[0].1, w.last().0)), last)
        }
    }
}

proof fn lemma_nonws_run(s: Seq<char>, i: int)
    requires
        0 <= i <= s.len(),
    ensures
        forall|k: int| i <= k < nonws_end(s, i) ==> !is_ws(#[trigger] s[k]),
    decreases s.len() - i,
{
    if i < s.len() && !is_ws(s[i]) {
        lemma_nonws_run(s, i + 1);
    }
}

/// The words found from `i` lie in order after `i`, each starting and ending
/// with non-whitespace and followed by whitespace or the end, with only
/// whitespace between one word and the next.
proof fn lemma_word_ranges(s: Seq<char>, i: int)
    requires
        0 <= i <= s.len(),
    ensures
        ({
            let w = word_ranges(s, i);
            &&& w.len() > 0 ==> w[0].0 == skip_ws_from(s, i)
            &&& forall|k: int|
                0 <= k < w.len() ==> i <= #[trigger] w[k].0 && w[k].0 < w[k].1 <= s.len() && !is_ws(
                    s[w[k].0],
                ) && !is_ws(s[w[k].1 - 1]) && (w[k].1 < s.len() ==> is_ws(s[w[k].1]))
            &&& forall|k1: int, k2: int|
                0 <= k1 < k2 < w.len() ==> #[trigger] w[k1].1 < #[trigger] w[k2].0
            &&& forall|k: int, j: int|
                0 < k < w.len() && w[k - 1].1 <= j < w[k].0 ==> is_ws(#[trigger] s[j]) || #[trigger]
                    w[k].0 < 0
        }),
    decreases s.len() - i,
{
    let a = skip_ws_from(s, i);
    lemma_skip_ws_bounds(s, i);
    if a < s.len() {
        let b = nonws_end(s, a);
        lemma_nonws_end(s, a);
        lemma_nonws_run(s, a);
        assert(b > a);
        lemma_word_ranges(s, b);
        let r = word_ranges(s, b);
        let w = word_ranges(s, i);
        assert(w == seq![(a, b)] + r);
        assert forall|k: int| 0 < k < w.len() implies w[k] == r[k - 1] by {}
        assert forall|k: int| 0 <= k < w.len() implies i <= #[trigger] w[k].0 && w[k].0 < w[k].1
            <= s.len() && !is_ws(s[w[k].0]) && !is_ws(s[w[k].1 - 1]) && (w[k].1 < s.len() ==> is_ws(
            s[w[k].1],
        )) by {
            if k > 0 {
                assert(w[k] == r[k - 1]);
            } else {
                assert(!is_ws(s[b - 1]));
            }
        }
        assert forall|k1: int, k2: int| 0 <= k1 < k2 < w.len() implies #[trigger] w[k1].1
            < #[trigger] w[k2].0 by {
            assert(w[k2] == r[k2 - 1]);
            if k1 > 0 {
                assert(w[k1] == r[k1 - 1]);
                assert(r[k1 - 1].1 < r[k2 - 1].0);
            } else {
                assert(b <= r[k2 - 1].0);
                assert(!is_ws(s[r[k2 - 1].0]));
            }
        }
        assert forall|k: int, j: int| 0 < k < w.len() && w[k - 1].1 <= j < w[k].0 implies is_ws(
            #[trigger] s[j],
        ) || #[trigger] w[k].0 < 0 by {
            assert(w[k] == r[k - 1]);
            if k > 1 {
                assert(w[k - 1] == r[k - 2]);
                assert(r[k - 1].0 >= 0);
                assert(is_ws(s[j]) || r[k - 1].0 < 0);
            } else {
                assert(r[0].0 == skip_ws_from(s, b));
                lemma_skip_ws_bounds(s, b);
            }
        }
    }
}

proof fn lemma_rtrim_exact(s: Seq<char>, j: int, r: int)
    requires
        0 <= r <= j <= s.len(),
        forall|t: int| r <= t < j ==> is_ws(#[trigger] s[t]),
        r > 0 ==> !is_ws(s[r - 1]),
    ensures
        rtrim_len(s, j) == r,
    decreases j,
{
    if j > r {
        lemma_rtrim_exact(s, j - 1, r);
    }
}

proof fn lemma_skip_exact(s: Seq<char>, i: int, a: int)
    requires
        0 <= i <= a <= s.len(),
        forall|t: int| i <= t < a ==> is_ws(#[trigger] s[t]),
        a < s.len() ==> !is_ws(s[a]),
    ensures
        skip_ws_from(s, i) == a,
    decreases a - i,
{
    if i < a {
        assert(is_ws(s[i]));
        lemma_skip_exact(s, i + 1, a);
    }
}

/// For a name of three or more words, the first name is the first word, the
/// last name the last word, and the middle name everything from the second
/// word to the last-but-one word, so it is never empty.
pub proof fn law_middle_name_spans_inner_words(np: Seq<char>)
    requires
        word_ranges(np, 0).len() >= 3,
    ensures
        ({
            let w = word_ranges(np, 0);
            let n = w.len() as int;
            &&& name_fields_of(np).0 == np.subrange(w[0].0, w[0].1)
            &&& name_fields_of(np).1 == np.subrange(w[1].0, w[n - 2].1)
            &&& name_fields_of(np).2 == np.subrange(w[n - 1].0, w[n - 1].1)
            &&& name_fields_of(np).1.len() > 0
        }),
{
    let w = word_ranges(np, 0);
    let n = w.len() as int;
    lemma_word_ranges(np, 0);
    assert(w[0].0 >= 0 && w[1].0 >= 0 && w[n - 2].0 >= 0 && w[n - 1].0 >= 0);
    let d = w[0].1;
    let m = np.subrange(d, w[n - 1].0);
    let r = w[n - 2].1 - d;
    let a = w[1].0 - d;
    assert(w[0].1 < w[1].0);
    assert(w[n - 2].1 < w[n - 1].0);
    if n - 2 > 1 {
        assert(w[1].1 < w[n - 2].0);
    }
    assert(0 < a < r <= m.len());
    assert forall|t: int| r <= t < m.len() implies is_ws(#[trigger] m[t]) by {
        assert(m[t] == np[d + t]);
        assert(is_ws(np[d + t]) || w[n - 1].0 < 0);
    }
    assert(m[r - 1] == np[w[n - 2].1 - 1]);
    lemma_rtrim_exact(m, m.len() as int, r);
    let te = m.take(r);
    assert(trim_end(m) == te);
    assert forall|t: int| 0 <= t < a implies is_ws(#[trigger] te[t]) by {
        assert(te[t] == np[d + t]);
        assert(is_ws(np[d + t]) || w[1].0 < 0);
    }
    assert(te[a] == np[w[1].0]);
    lemma_skip_exact(te, 0, a);
    assert(trim(m) =~= np.subrange(w[1].0, w[n - 2].1));
}

/// Initials: the ASCII-uppercased first char of every word.
pub open spec fn initials_of(np: Seq<char>) -> Seq<char> {
    word_ranges(np, 0).map_values(|r: (int, int)| upper(np[r.0]))
}

/// Name and address of one author: an address in `<...>` after the last
/// `<` (up to the next `>`), the name before it, trimmed.
pub open spec fn name_address_of(part: Seq<char>) -> (Seq<char>, Seq<char>) {
    match rfind(part, seq!['<']) {
        Some(o) => match find(part.skip(o), seq!['>']) {
            Some(c) => (trim(part.take(o)), part.subrange(o + 1, o + c)),
            None => (part, Seq::empty()),
        },
        None => (part, Seq::empty()),
    }
}

/// `(fullname, firstname, middlename, lastname, initials, address)`.
pub open spec fn author_of(part: Seq<char>) -> (Seq<char>, Seq<char>, Seq<char>, Seq<char>, Seq<char>, Seq<char>) {
    let (np, addr) = name_address_of(part);
    let (f, m, l) = name_fields_of(np);
    (np, f, m, l, initials_of(np), addr)
}

/// Authors of `parts[i..]`: each part trimmed, blank parts skipped.
pub open spec fn authors_from(parts: Seq<Seq<char>>, i: int) -> Seq<(Seq<char>, Seq<char>, Seq<char>, Seq<char>, Seq<char>, Seq<char>)>
    decreases parts.len() - i,
{
    if i < 0 || i >= parts.len() {
        Seq::empty()
    } else if trim(parts[i]).len() == 0 {
        authors_from(parts, i + 1)
    } else {
        seq![author_of(trim(parts[i]))] + authors_from(parts, i + 1)
    }
}

/// The author line split at `"; "`.
pub open spec fn authors_of(line: Seq<char>) -> Seq<(Seq<char>, Seq<char>, Seq<char>, Seq<char>, Seq<char>, Seq<char>)> {
    authors_from(split(line, seq![';', ' ']), 0)
}

pub open spec fn author_view(a: AuthorInfo) -> (Seq<char>, Seq<char>, Seq<char>, Seq<char>, Seq<char>, Seq<char>) {
    (a.fullname@, a.firstname@, a.middlename@, a.lastname@, a.initials@, a.address@)
}

/// First whitespace index of `s[i..]`.
fn nonws_at(s: &[char], i: usize) -> (r: usize)
    requires
        i <= s@.len(),
    ensures
        r == nonws_end(s@, i as int),
        i <= r <= s@.len(),
{
    let n = s.len();
    let mut k = i;
    while k < n && !is_whitespace(s[k])
        invariant
            n == s@.len(),
            i <= k <= n,
            nonws_end(s@, i as int) == nonws_end(s@, k as int),
        decreases n - k,
    {
        k += 1;
    }
    k
}

/// `word_ranges(s, 0)`, in increasing order.
fn word_ranges_at(s: &[char]) -> (r: Vec<(usize, usize)>)
    ensures
        r@.len() == word_ranges(s@, 0).len(),
        forall|k: int|
            0 <= k < r@.len() ==> (#[trigger] r@[k]).0 < r@[k].1 <= s@.len() && (r@[k].0 as int,
                r@[k].1 as int) == word_ranges(s@, 0)[k],
        forall|j: int, k: int| 0 <= j < k < r@.len() ==> r@[j].1 <= r@[k].0,
{
    let n = s.len();
    let mut r: Vec<(usize, usize)> = Vec::new();
    let mut i: usize = 0;
    let ghost mut got: Seq<(int, int)> = Seq::empty();
    assert(got + word_ranges(s@, 0) =~= word_ranges(s@, 0));
    loop
        invariant
            n == s@.len(),
            i <= n,
            got.len() == r@.len(),
            forall|k: int|
                0 <= k < r@.len() ==> (#[trigger] r@[k]).0 < r@[k].1 <= i && (r@[k].0 as int,
                    r@[k].1 as int) == got[k],
            forall|j: int, k: int| 0 <= j < k < r@.len() ==> r@[j].1 <= r@[k].0,
            word_ranges(s@, 0) == got + word_ranges(s@, i as int),
        decreases n - i,
    {
        let a = skip_ws(s, i);
        if a >= n {
            assert(word_ranges(s@, i as int) =~= Seq::<(int, int)>::empty());
            assert(got + Seq::<(int, int)>::empty() =~= got);
            return r;
        }
        let b = nonws_at(s, a);
        proof {
            lemma_skip_ws_bounds(s@, i as int);
            if b <= a {
                assert(!is_ws(s@[a as int]));
                assert(nonws_end(s@, a as int) == nonws_end(s@, a + 1));
                lemma_nonws_end(s@, a + 1);
            }
            got = got.push((a as int, b as int));
            assert(word_ranges(s@, 0) =~= got + word_ranges(s@, b as int));
        }
        r.push((a, b));
        i = b;
    }
}

/// Initials of the words `rs` of `s`.
fn initials_at(s: &[char], rs: &Vec<(usize, usize)>) -> (r: String)
    requires
        rs@.len() == word_ranges(s@, 0).len(),
        forall|k: int|
            0 <= k < rs@.len() ==> (#[trigger] rs@[k]).0 < rs@[k].1 <= s@.len() && (rs@[k].0 as int,
                rs@[k].1 as int) == word_ranges(s@, 0)[k],
    ensures
        r@ == initials_of(s@),
{
    let mut out: Vec<char> = Vec::new();
    let mut k: usize = 0;
    while k < rs.len()
        invariant
            k <= rs@.len(),
            rs@.len() == word_ranges(s@, 0).len(),
            forall|j: int|
                0 <= j < rs@.len() ==> (#[trigger] rs@[j]).0 < rs@[j].1 <= s@.len() && (
                rs@[j].0 as int, rs@[j].1 as int) == word_ranges(s@, 0)[j],
            out@ == word_ranges(s@, 0).take(k as int).map_values(|r: (int, int)| upper(s@[r.0])),
        decreases rs@.len() - k,
    {
        let (a, _b) = rs[k];
        out.push(to_ascii_upper(s[a]));
        k += 1;
        assert(out@ =~= word_ranges(s@, 0).take(k as int).map_values(
            |r: (int, int)| upper(s@[r.0]),
        ));
    }
    assert(word_ranges(s@, 0).take(k as int) =~= word_ranges(s@, 0));
    string_of(out.as_slice())
}

/// One author from the trimmed part `v[pa..pb]`, borrowing from `line`.
#[verifier::rlimit(40)]
fn author_at<'a>(line: &'a str, v: &[char], pa: usize, pb: usize) -> (r: AuthorInfo<'a>)
    requires
        v@ == line@,
        pa <= pb <= v@.len(),
    ensures
        author_view(r) == author_of(v@.subrange(pa as int, pb as int)),
{
    let ghost part = v@.subrange(pa as int, pb as int);
    let lt = vec!['<'];
    assert(lt@ == seq!['<']);
    let gt = vec!['>'];
    assert(gt@ == seq!['>']);
    let p = slice_vec(v, pa, pb);
    // bounds of the name part and of the address, in `v`
    let (na, nb, aa, ab) = match rfind_at(p.as_slice(), lt.as_slice()) {
        Some(o) => {
            let tail = slice_vec(p.as_slice(), o, p.len());
            assert(tail@ =~= part.skip(o as int));
            match find_at(tail.as_slice(), gt.as_slice()) {
                Some(c) => {
                    proof {
                        crate::text::lemma_rfind_upto_bounds(p@, lt@, p@.len() - 1);
                        crate::text::lemma_find_from_bounds(tail@, gt@, 0);
                        assert(p@.subrange(o as int, o + 1)[0] == p@[o as int]);
                        assert(tail@.subrange(c as int, c + 1)[0] == tail@[c as int]);
                        assert(tail@[0] == '<');
                    }
                    let (x, y) = trim_range(v, pa, pa + o);
                    assert(part.take(o as int) =~= v@.subrange(pa as int, pa + o));
                    assert(part.subrange(o + 1, o + c) =~= v@.subrange(pa + o + 1, pa + o + c));
                    (x, y, pa + o + 1, pa + o + c)
                },
                None => {
                    assert(v@.subrange(pb as int, pb as int) =~= Seq::<char>::empty());
                    (pa, pb, pb, pb)
                },
            }
        },
        None => {
            assert(v@.subrange(pb as int, pb as int) =~= Seq::<char>::empty());
            (pa, pb, pb, pb)
        },
    };
    let np = slice_vec(v, na, nb);
    assert(name_address_of(part) == (np@, v@.subrange(aa as int, ab as int)));
    let rs = word_ranges_at(np.as_slice());
    let initials = initials_at(np.as_slice(), &rs);
    let w = rs.len();
    let empty = line.substring_char(pb, pb);
    assert(empty@ =~= Seq::<char>::empty());
    let (first, middle, last) = if w == 0 {
        (empty, empty, empty)
    } else {
        let (a0, b0) = rs[0];
        let (al, bl) = rs[w - 1];
        assert(np@.subrange(a0 as int, b0 as int) =~= v@.subrange(na + a0, na + b0));
        assert(np@.subrange(al as int, bl as int) =~= v@.subrange(na + al, na + bl));
        let first = line.substring_char(na + a0, na + b0);
        let last = line.substring_char(na + al, na + bl);
        if w == 1 {
            (first, empty, first)
        } else if w == 2 {
            (first, empty, last)
        } else {
            assert(rs@[0].1 <= rs@[w - 1].0);
            let (ma, mb) = trim_range(np.as_slice(), b0, al);
            assert(np@.subrange(ma as int, mb as int) =~= v@.subrange(na + ma, na + mb));
            (first, line.substring_char(na + ma, na + mb), last)
        }
    };
    AuthorInfo {
        fullname: line.substring_char(na, nb),
        firstname: first,
        middlename: middle,
        lastname: last,
        initials,
        address: line.substring_char(aa, ab),
    }
}

/// Parse the author line: authors separated by `"; "`.
pub fn parse_authors(line: &str) -> (r: Vec<AuthorInfo<'_>>)
    ensures
        r@.map_values(|a: AuthorInfo| author_view(a)) == authors_of(line@),
{
    let v = chars_of(line);
    let sep = vec![';', ' '];
    assert(sep@ == seq![';', ' ']);
    let ranges = split_ranges(v.as_slice(), sep.as_slice());
    let ghost parts = split(v@, sep@);
    let mut out: Vec<AuthorInfo> = Vec::new();
    let mut k: usize = 0;
    assert(out@.map_values(|a: AuthorInfo| author_view(a)) + authors_from(parts, 0) =~= authors_from(parts, 0));
    while k < ranges.len()
        invariant
            v@ == line@,
            parts == split(v@, seq![';', ' ']),
            ranges@.len() == parts.len(),
            forall|j: int|
                0 <= j < ranges@.len() ==> {
                    &&& (#[trigger] ranges@[j]).0 <= ranges@[j].1 <= v@.len()
                    &&& v@.subrange(ranges@[j].0 as int, ranges@[j].1 as int) == parts[j]
                },
            k <= ranges@.len(),
            authors_from(parts, 0) == out@.map_values(|a: AuthorInfo| author_view(a))
                + authors_from(parts, k as int),
        decreases ranges@.len() - k,
    {
        let (a, b) = ranges[k];
        let (x, y) = trim_range(v.as_slice(), a, b);
        if x < y {
            let au = author_at(line, v.as_slice(), x, y);
            let ghost before = out@;
            out.push(au);
            assert(out@.map_values(|a: AuthorInfo| author_view(a)) =~= before.map_values(
                |a: AuthorInfo| author_view(a),
            ).push(author_view(au)));
        }
        k += 1;
    }
    assert(out@.map_values(|a: AuthorInfo| author_view(a)) + authors_from(parts, k as int) =~= out@.map_values(|a: AuthorInfo| author_view(a)));
    out
}

} // verus!
