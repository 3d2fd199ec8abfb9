//! Passthrough-span scanners (`pass:[…]`, `+…+`, `++…++`, `+++…+++`).
//!
//! Every delimiter these scanners look at is ASCII, so one specification
//! serves both the byte-offset API (over the bytes of a `&str`, each byte
//! read as the char with the same code) and the char-offset form the
//! preprocessor uses on decoded lines: a non-ASCII byte or char fails every
//! test the scanners make.

use vstd::prelude::*;
use vstd::string::StringSliceAdditionalSpecFns;
use crate::text::{chars_of, find_from, find_from_at, is_alnum, is_lower, lemma_find_from_bounds, match_at, matches_at, replace_all, replace_chars, string_of};

verus! {

/// The bytes of a string, each read as the char with the same code.
pub open spec fn byte_text(b: Seq<u8>) -> Seq<char> {
    b.map_values(|x: u8| x as char)
}

pub open spec fn int_opt(r: Option<usize>) -> Option<int> {
    match r {
        Some(k) => Some(k as int),
        None => None,
    }
}

/// A char allowed in a `pass:` subs spec.
pub open spec fn is_spec_char(c: char) -> bool {
    is_lower(c) || c == ',' || c == '_' || c == '-'
}

/// End of the run of spec chars starting at `i`.
pub open spec fn spec_end(s: Seq<char>, i: int) -> int
    decreases s.len() - i,
{
    if 0 <= i < s.len() && is_spec_char(s[i]) {
        spec_end(s, i + 1)
    } else {
        i
    }
}

/// Every comma-separated token of a non-empty spec is non-empty.
pub open spec fn comma_list_ok(t: Seq<char>) -> bool {
    t.len() == 0 || (t[0] != ',' && t.last() != ',' && forall|k: int|
        0 <= k < t.len() - 1 ==> !(#[trigger] t[k] == ',' && t[k + 1] == ','))
}

/// Length of the subs spec starting at `p` when `[` follows it.
pub open spec fn pass_spec_of(s: Seq<char>, p: int) -> Option<int> {
    let e = spec_end(s, p);
    if 0 <= p && 0 <= e < s.len() && s[e] == '[' && comma_list_ok(s.subrange(p, e)) {
        Some(e - p)
    } else {
        None
    }
}

pub open spec fn lit_pass() -> Seq<char> {
    seq!['p', 'a', 's', 's', ':']
}

/// Total length of a `pass:[…]` / `pass:SPEC[…]` macro starting at `i`:
/// the content runs to the first `]`.
pub open spec fn pass_macro_of(s: Seq<char>, i: int) -> Option<int> {
    if match_at(s, lit_pass(), i) {
        match pass_spec_of(s, i + 5) {
            Some(sl) => match find_from(s, seq![']'], i + 5 + sl + 1) {
                Some(k) => Some(k - i + 1),
                None => None,
            },
            None => None,
        }
    } else {
        None
    }
}

pub open spec fn plus_run(n: nat) -> Seq<char> {
    Seq::new(n, |k: int| '+')
}

/// Total length of a closed `++…++` or `+++…+++` passthrough at `i`
/// (non-empty content, nearest closing delimiter).
pub open spec fn passthrough_of(s: Seq<char>, i: int) -> Option<int> {
    if match_at(s, plus_run(3), i) {
        match find_from(s, plus_run(3), i + 3) {
            Some(k) => if k == i + 3 {
                None
            } else {
                Some(k + 3 - i)
            },
            None => None,
        }
    } else if match_at(s, plus_run(2), i) {
        match find_from(s, plus_run(2), i + 2) {
            Some(k) => if k == i + 2 {
                None
            } else {
                Some(k + 2 - i)
            },
            None => None,
        }
    } else {
        None
    }
}

pub open spec fn is_word_char(c: char) -> bool {
    is_alnum(c) || c == '_'
}

/// A constrained closing `+` of the span opened at `i`, at `j`.
pub open spec fn plus_closes(s: Seq<char>, i: int, j: int) -> bool {
    &&& s[j] == '+'
    &&& j > i + 1
    &&& s[j - 1] != '+'
    &&& s[j - 1] != ' '
    &&& !(j + 1 < s.len() && (s[j + 1] == '+' || is_word_char(s[j + 1])))
}

/// Scan for the closing `+` from `j`, skipping `pass:[…]` macros whole.
pub open spec fn plus_close_from(s: Seq<char>, i: int, j: int) -> Option<int>
    decreases s.len() - j,
{
    if j < 0 || j >= s.len() {
        None
    } else if s[j] == 'p' && pass_macro_of(s, j) is Some && 0 < pass_macro_of(s, j)->0 && j
        + pass_macro_of(s, j)->0 <= s.len() {
        plus_close_from(s, i, j + pass_macro_of(s, j)->0)
    } else if plus_closes(s, i, j) {
        Some(j - i + 1)
    } else {
        plus_close_from(s, i, j + 1)
    }
}

/// Total length of a constrained single-plus passthrough `+…+` at `i`.
pub open spec fn single_plus_of(s: Seq<char>, i: int) -> Option<int> {
    if i + 1 < s.len() && s[i + 1] == '+' {
        None
    } else if 0 < i && (is_word_char(s[i - 1]) || s[i - 1] == '\\') {
        None
    } else if i + 1 >= s.len() || s[i + 1] == ' ' {
        None
    } else {
        plus_close_from(s, i, i + 1)
    }
}

pub proof fn lemma_spec_end_bounds(s: Seq<char>, i: int)
    requires
        0 <= i,
    ensures
        i <= spec_end(s, i),
        i <= s.len() ==> spec_end(s, i) <= s.len(),
        forall|k: int| i <= k < spec_end(s, i) ==> is_spec_char(#[trigger] s[k]),
    decreases s.len() - i,
{
    if 0 <= i < s.len() && is_spec_char(s[i]) {
        lemma_spec_end_bounds(s, i + 1);
    }
}

pub proof fn lemma_pass_macro_bounds(s: Seq<char>, i: int)
    requires
        0 <= i,
    ensures
        pass_macro_of(s, i) matches Some(k) ==> 7 <= k && i + k <= s.len(),
{
    if match_at(s, lit_pass(), i) {
        lemma_spec_end_bounds(s, i + 5);
        if let Some(sl) = pass_spec_of(s, i + 5) {
            lemma_find_from_bounds(s, seq![']'], i + 5 + sl + 1);
        }
    }
}

// ---------------------------------------------------------------------------
// Char-offset scanners
// ---------------------------------------------------------------------------

fn is_spec_char_exec(c: char) -> (b: bool)
    ensures
        b == is_spec_char(c),
{
    ('a' <= c && c <= 'z') || c == ',' || c == '_' || c == '-'
}

/// `pass_spec_of(s, p)`.
pub fn pass_spec_at(s: &[char], p: usize) -> (r: Option<usize>)
    ensures
        int_opt(r) == pass_spec_of(s@, p as int),
        r matches Some(k) ==> p + k < s@.len(),
{
    let n = s.len();
    let mut i = p;
    while i < n && is_spec_char_exec(s[i])
        invariant
            n == s@.len(),
            p <= i,
            spec_end(s@, p as int) == spec_end(s@, i as int),
        decreases n - i,
    {
        i += 1;
    }
    if i >= n || s[i] != '[' {
        return None;
    }
    // every token between commas must be non-empty
    let mut ok = true;
    if i > p {
        if s[p] == ',' || s[i - 1] == ',' {
            ok = false;
        } else {
            let mut k = p;
            while k + 1 < i && ok
                invariant
                    p <= k,
                    k < i,
                    i < n == s@.len(),
                    ok ==> forall|m: int|
                        p <= m < k ==> !(#[trigger] s@[m] == ',' && s@[m + 1] == ','),
                    !ok ==> !comma_list_ok(s@.subrange(p as int, i as int)),
                decreases i - k + (if ok { 1int } else { 0int }),
            {
                if s[k] == ',' && s[k + 1] == ',' {
                    ok = false;
                    assert(s@.subrange(p as int, i as int)[k - p] == ',');
                    assert(s@.subrange(p as int, i as int)[k - p + 1] == ',');
                } else {
                    k += 1;
                }
            }
            proof {
                if ok {
                    let t = s@.subrange(p as int, i as int);
                    assert forall|m: int| 0 <= m < t.len() - 1 implies !(#[trigger] t[m] == ','
                        && t[m + 1] == ',') by {
                        assert(t[m] == s@[p + m]);
                        assert(t[m + 1] == s@[p + m + 1]);
                    }
                }
            }
        }
    }
    proof {
        let t = s@.subrange(p as int, i as int);
        if i > p && (s@[p as int] == ',' || s@[i - 1] == ',') {
            assert(t[0] == s@[p as int]);
            assert(t.last() == s@[i - 1]);
        }
    }
    if ok {
        Some(i - p)
    } else {
        None
    }
}

/// `pass_macro_of(s, i)`.
pub fn pass_macro_at(s: &[char], i: usize) -> (r: Option<usize>)
    ensures
        int_opt(r) == pass_macro_of(s@, i as int),
{
    let n = s.len();
    let lit = vec!['p', 'a', 's', 's', ':'];
    assert(lit@ == lit_pass());
    assert(lit@.len() == 5);
    if !matches_at(s, lit.as_slice(), i) {
        return None;
    }
    let sl = match pass_spec_at(s, i + 5) {
        Some(k) => k,
        None => return None,
    };
    let cb = vec![']'];
    assert(cb@ == seq![']']);
    match find_from_at(s, cb.as_slice(), i + 5 + sl + 1) {
        Some(k) => Some(k - i + 1),
        None => None,
    }
}

/// `passthrough_of(s, i)`.
pub fn passthrough_at(s: &[char], i: usize) -> (r: Option<usize>)
    ensures
        int_opt(r) == passthrough_of(s@, i as int),
{
    let n = s.len();
    let three = vec!['+', '+', '+'];
    assert(three@ == plus_run(3));
    let two = vec!['+', '+'];
    assert(two@ == plus_run(2));
    assert(three@.len() == 3 && two@.len() == 2);
    if matches_at(s, three.as_slice(), i) {
        match find_from_at(s, three.as_slice(), i + 3) {
            Some(k) => if k == i + 3 {
                None
            } else {
                Some(k + 3 - i)
            },
            None => None,
        }
    } else if matches_at(s, two.as_slice(), i) {
        match find_from_at(s, two.as_slice(), i + 2) {
            Some(k) => if k == i + 2 {
                None
            } else {
                Some(k + 2 - i)
            },
            None => None,
        }
    } else {
        None
    }
}

fn is_word_char_exec(c: char) -> (b: bool)
    ensures
        b == is_word_char(c),
{
    ('a' <= c && c <= 'z') || ('A' <= c && c <= 'Z') || ('0' <= c && c <= '9') || c == '_'
}

/// `single_plus_of(s, i)`.
pub fn single_plus_at(s: &[char], i: usize) -> (r: Option<usize>)
    requires
        i <= s@.len(),
    ensures
        int_opt(r) == single_plus_of(s@, i as int),
{
    let n = s.len();
    if i < n && n - i > 1 && s[i + 1] == '+' {
        return None;
    }
    if i > 0 {
        let prev = s[i - 1];
        if is_word_char_exec(prev) || prev == '\\' {
            return None;
        }
    }
    if i >= n || n - i <= 1 || s[i + 1] == ' ' {
        return None;
    }
    let mut j = i + 1;
    while j < n
        invariant
            n == s@.len(),
            i + 1 <= j <= n,
            single_plus_of(s@, i as int) == plus_close_from(s@, i as int, j as int),
        decreases n - j,
    {
        if s[j] == 'p' {
            if let Some(skip) = pass_macro_at(s, j) {
                proof {
                    lemma_pass_macro_bounds(s@, j as int);
                }
                j += skip;
                continue;
            }
        }
        if s[j] == '+' && j > i + 1 {
            let prev = s[j - 1];
            let next_blocks = n - j > 1 && (s[j + 1] == '+' || is_word_char_exec(s[j + 1]));
            if prev != '+' && prev != ' ' && !next_blocks {
                return Some(j - i + 1);
            }
        }
        j += 1;
    }
    None
}

// ---------------------------------------------------------------------------
// Byte-offset API
// ---------------------------------------------------------------------------

/// The bytes of `s`, each as the char with the same code.
fn byte_chars(s: &str) -> (r: Vec<char>)
    ensures
        r@ == byte_text(s.spec_bytes()),
{
    let b = s.as_bytes();
    let mut r: Vec<char> = Vec::new();
    let mut k: usize = 0;
    while k < b.len()
        invariant
            k <= b@.len(),
            b@ == s.spec_bytes(),
            r@ == byte_text(b@.take(k as int)),
        decreases b@.len() - k,
    {
        r.push(b[k] as char);
        k += 1;
        assert(byte_text(b@.take(k as int)) =~= byte_text(b@.take(k - 1)).push(b@[k - 1] as char));
    }
    assert(b@.take(b@.len() as int) =~= b@);
    r
}

/// If byte `p` (just past `pass:`) starts an optional subs spec immediately
/// followed by `[`, the spec's byte length (0 for the bare `pass:[…]` form);
/// `None` when no bracket follows or a comma token of the spec is empty.
pub fn pass_spec_len(s: &str, p: usize) -> (r: Option<usize>)
    ensures
        int_opt(r) == pass_spec_of(byte_text(s.spec_bytes()), p as int),
{
    let t = byte_chars(s);
    pass_spec_at(t.as_slice(), p)
}

/// Total byte length of a `pass:[…]` / `pass:SPEC[…]` macro beginning at
/// byte `i`, content running to the first `]`.
pub fn pass_macro_span_len(s: &str, i: usize) -> (r: Option<usize>)
    requires
        i <= s.spec_bytes().len(),
        vstd::utf8::is_char_boundary(s.spec_bytes(), i as int),
    ensures
        int_opt(r) == pass_macro_of(byte_text(s.spec_bytes()), i as int),
{
    let t = byte_chars(s);
    pass_macro_at(t.as_slice(), i)
}

/// Total byte length of a closed `++…++` or `+++…+++` passthrough beginning
/// at byte `i` (non-empty content, nearest closing delimiter).
pub fn passthrough_span_len(s: &str, i: usize) -> (r: Option<usize>)
    requires
        i <= s.spec_bytes().len(),
        vstd::utf8::is_char_boundary(s.spec_bytes(), i as int),
    ensures
        int_opt(r) == passthrough_of(byte_text(s.spec_bytes()), i as int),
{
    let t = byte_chars(s);
    passthrough_at(t.as_slice(), i)
}

/// Total byte length of a constrained single-plus passthrough `+…+`
/// beginning at byte `i`.
pub fn single_plus_span_len(s: &str, i: usize) -> (r: Option<usize>)
    requires
        i <= s.spec_bytes().len(),
    ensures
        int_opt(r) == single_plus_of(byte_text(s.spec_bytes()), i as int),
{
    let t = byte_chars(s);
    single_plus_at(t.as_slice(), i)
}

// ---------------------------------------------------------------------------
// Bracketed macro content
// ---------------------------------------------------------------------------

/// Byte `at` closes the bracket opened at byte `open`: it is a `]` after the
/// `[`, not escaped by a `\` directly before it. A `]` right after the `[`
/// (empty content) always closes, the byte before it being the `[` itself.
pub open spec fn closes_bracket(b: Seq<u8>, open: int, at: int) -> bool {
    &&& open + 1 <= at < b.len()
    &&& b[at] == 0x5Du8
    &&& !(at > open + 1 && b[at - 1] == 0x5Cu8)
}

/// Byte offset of the `]` that closes the bracket opened at byte `open`:
/// the first closing byte after it, if any.
pub open spec fn macro_close_of(b: Seq<u8>, open: int) -> Option<int> {
    if exists|at: int| closes_bracket(b, open, at) {
        Some(choose|at: int| closes_bracket(b, open, at) && forall|k: int|
            open + 1 <= k < at ==> !closes_bracket(b, open, k))
    } else {
        None
    }
}

/// Position of the `]` closing a bracketed macro whose `[` is at byte `open`.
/// A `]` preceded by `\` is escaped and does not close (only the single
/// preceding byte is looked at, so `\\]` is escaped too); a `]` directly
/// after the `[` is never escaped.
pub fn find_macro_close_bracket(s: &str, open: usize) -> (r: Option<usize>)
    requires
        open < s.spec_bytes().len(),
    ensures
        int_opt(r) == macro_close_of(s.spec_bytes(), open as int),
        match r {
            Some(at) => closes_bracket(s.spec_bytes(), open as int, at as int) && forall|k: int|
                open + 1 <= k < at ==> !closes_bracket(s.spec_bytes(), open as int, k),
            None => forall|k: int| !closes_bracket(s.spec_bytes(), open as int, k),
        },
{
    let b = s.as_bytes();
    let n = b.len();
    let mut i = open + 1;
    while i < n
        invariant
            b@ == s.spec_bytes(),
            n == b@.len(),
            open < n,
            open + 1 <= i <= n,
            forall|k: int| open + 1 <= k < i ==> !closes_bracket(b@, open as int, k),
        decreases n - i,
    {
        if b[i] == 0x5Du8 && !(i > open + 1 && b[i - 1] == 0x5Cu8) {
            proof {
                assert(closes_bracket(b@, open as int, i as int));
                let c = choose|at: int| closes_bracket(b@, open as int, at) && forall|k: int|
                    open + 1 <= k < at ==> !closes_bracket(b@, open as int, k);
                if c < i {
                } else if c > i {
                    assert(!closes_bracket(b@, open as int, i as int));
                }
            }
            return Some(i);
        }
        i += 1;
    }
    None
}

pub open spec fn escaped_close() -> Seq<char> {
    seq!['\\', ']']
}

/// Extracted bracketed-macro content with each `\]` turned into `]`; a `\`
/// not followed by `]` stays.
pub fn unescape_close_bracket(s: &str) -> (r: String)
    ensures
        r@ == replace_all(s@, escaped_close(), seq![']']),
{
    let t = chars_of(s);
    let pat: Vec<char> = vec!['\\', ']'];
    let rep: Vec<char> = vec![']'];
    assert(pat@ =~= escaped_close());
    assert(rep@ =~= seq![']']);
    let out = replace_chars(t.as_slice(), pat.as_slice(), rep.as_slice());
    string_of(out.as_slice())
}

} // verus!
