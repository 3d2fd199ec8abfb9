//! Byte-level scanners of the inline substitution passes.
//!
//! The passes work on a buffer in which every extracted construct has been
//! replaced by a sentinel `TAG_LEAD <index> TAG_TAIL`; the scanners step over
//! such a sentinel as one unit. Every delimiter they test is ASCII, so they
//! read bytes; a byte of a multibyte character never equals one of them.

use vstd::prelude::*;
use vstd::string::StringSliceAdditionalSpecFns;
use vstd::utf8::{
    decode_utf8, encode_utf8_decode_utf8, encode_utf8_valid_utf8, is_char_boundary,
    is_char_boundary_iff_not_is_continuation_byte, is_char_boundary_start_end_of_seq,
    pop_first_scalar, valid_utf8, valid_utf8_split,
};
use crate::ident::{alnum_char, char_is_alphanumeric};
use crate::counters::{digit_char, nat_chars, nat_text};
use crate::pass::{byte_text, int_opt, pass_spec_len, pass_spec_of};
use crate::text::{chars_of, find, find_at, match_at, matches_at, push_all, slice_vec, split, split_ranges, string_of, trim, trim_range};

verus! {

/// Leading byte of a tag sentinel.
pub const TAG_LEAD: u8 = 0x01;
/// Trailing byte of a tag sentinel.
pub const TAG_TAIL: u8 = 0x02;

pub const TAB: u8 = 0x09;
pub const LF: u8 = 0x0A;
pub const FF: u8 = 0x0C;
pub const CR: u8 = 0x0D;
pub const SPACE: u8 = 0x20;
pub const DQUOTE: u8 = 0x22;
pub const HASH: u8 = 0x23;
pub const AMP: u8 = 0x26;
pub const SQUOTE: u8 = 0x27;
pub const LPAREN: u8 = 0x28;
pub const RPAREN: u8 = 0x29;
pub const MINUS: u8 = 0x2D;
pub const DOT: u8 = 0x2E;
pub const COLON: u8 = 0x3A;
pub const SEMI: u8 = 0x3B;
pub const LT: u8 = 0x3C;
pub const EQ: u8 = 0x3D;
pub const GT: u8 = 0x3E;
pub const LBRACK: u8 = 0x5B;
pub const RBRACK: u8 = 0x5D;
pub const UNDERSCORE: u8 = 0x5F;
pub const BACKTICK: u8 = 0x60;
pub const RBRACE: u8 = 0x7D;

pub open spec fn is_digit_byte(b: u8) -> bool {
    0x30 <= b <= 0x39
}

pub open spec fn is_alpha_byte(b: u8) -> bool {
    (0x41 <= b <= 0x5A) || (0x61 <= b <= 0x7A)
}

pub open spec fn is_hex_byte(b: u8) -> bool {
    is_digit_byte(b) || (0x41 <= b <= 0x46) || (0x61 <= b <= 0x66)
}

/// `[A-Za-z0-9_]`.
pub open spec fn is_word_byte(b: u8) -> bool {
    is_digit_byte(b) || is_alpha_byte(b) || b == UNDERSCORE
}

/// `u8::is_ascii_whitespace`: space, tab, line feed, form feed, carriage return.
pub open spec fn is_ascii_ws_byte(b: u8) -> bool {
    b == SPACE || b == TAB || b == LF || b == FF || b == CR
}

pub fn is_word(b: u8) -> (r: bool)
    ensures
        r == is_word_byte(b),
{
    (0x30 <= b && b <= 0x39) || (0x41 <= b && b <= 0x5A) || (0x61 <= b && b <= 0x7A) || b
        == UNDERSCORE
}

fn is_ascii_ws(b: u8) -> (r: bool)
    ensures
        r == is_ascii_ws_byte(b),
{
    b == SPACE || b == TAB || b == LF || b == FF || b == CR
}

/// Byte length of the UTF-8 character whose leading byte is `b` (a stray
/// continuation byte counts as 4).
pub open spec fn utf8_len_of(b: u8) -> int {
    if b < 0x80 {
        1
    } else if 0xC0 <= b < 0xE0 {
        2
    } else if 0xE0 <= b < 0xF0 {
        3
    } else {
        4
    }
}

pub fn utf8_char_len(b: u8) -> (r: usize)
    ensures
        r == utf8_len_of(b),
{
    if b < 0x80 {
        1
    } else if 0xC0 <= b && b < 0xE0 {
        2
    } else if 0xE0 <= b && b < 0xF0 {
        3
    } else {
        4
    }
}

/// First index at or after `j` holding byte `x`.
pub open spec fn next_byte(b: Seq<u8>, x: u8, j: int) -> Option<int>
    decreases b.len() - j,
{
    if j < 0 || j >= b.len() {
        None
    } else if b[j] == x {
        Some(j)
    } else {
        next_byte(b, x, j + 1)
    }
}

pub proof fn lemma_next_byte(b: Seq<u8>, x: u8, j: int)
    requires
        0 <= j,
    ensures
        next_byte(b, x, j) matches Some(k) ==> j <= k < b.len() && b[k] == x && forall|t: int|
            j <= t < k ==> b[t] != x,
        next_byte(b, x, j) is None ==> forall|t: int| j <= t < b.len() ==> b[t] != x,
    decreases b.len() - j,
{
    if 0 <= j < b.len() && b[j] != x {
        lemma_next_byte(b, x, j + 1);
    }
}

/// Index just past the sentinel whose `TAG_LEAD` is at `i`: past the next
/// `TAG_TAIL`, or the end of the buffer when there is none.
pub open spec fn sentinel_end_of(b: Seq<u8>, i: int) -> int {
    match next_byte(b, TAG_TAIL, i + 1) {
        Some(k) => k + 1,
        None => b.len() as int,
    }
}

pub proof fn lemma_sentinel_end(b: Seq<u8>, i: int)
    requires
        0 <= i < b.len(),
    ensures
        i < sentinel_end_of(b, i) <= b.len(),
{
    lemma_next_byte(b, TAG_TAIL, i + 1);
}

/// Given `bytes[i] == TAG_LEAD`, the index just past the matching
/// `TAG_TAIL`, or the end of the slice when none follows.
pub fn sentinel_end(bytes: &[u8], i: usize) -> (r: usize)
    requires
        i < bytes@.len(),
    ensures
        r == sentinel_end_of(bytes@, i as int),
        i < r <= bytes@.len(),
{
    proof {
        lemma_sentinel_end(bytes@, i as int);
    }
    let n = bytes.len();
    let mut j = i + 1;
    while j < n && bytes[j] != TAG_TAIL
        invariant
            n == bytes@.len(),
            i < j <= n,
            next_byte(bytes@, TAG_TAIL, i + 1) == next_byte(bytes@, TAG_TAIL, j as int),
        decreases n - j,
    {
        j += 1;
    }
    if j < n {
        j + 1
    } else {
        n
    }
}

// ---------------------------------------------------------------------------
// Quote spans
// ---------------------------------------------------------------------------

/// Constrained close search from `i`: the first `marker` outside sentinels,
/// past `start` (non-empty content), not the first of a doubled marker.
pub open spec fn constrained_close_from(b: Seq<u8>, marker: u8, start: int, i: int) -> Option<
    int,
>
    decreases b.len() - i,
{
    if i < 0 || i >= b.len() {
        None
    } else if b[i] == TAG_LEAD {
        proof {
            lemma_sentinel_end(b, i);
        }
        constrained_close_from(b, marker, start, sentinel_end_of(b, i))
    } else if b[i] == marker && i > start && !(i + 1 < b.len() && b[i + 1] == marker) {
        Some(i)
    } else {
        constrained_close_from(b, marker, start, i + 1)
    }
}

pub proof fn lemma_constrained_close_bounds(b: Seq<u8>, marker: u8, start: int, i: int)
    ensures
        constrained_close_from(b, marker, start, i) matches Some(k) ==> i <= k < b.len() && k
            > start && b[k] == marker,
    decreases b.len() - i,
{
    if 0 <= i < b.len() {
        if b[i] == TAG_LEAD {
            lemma_sentinel_end(b, i);
            lemma_constrained_close_bounds(b, marker, start, sentinel_end_of(b, i));
        } else if !(b[i] == marker && i > start && !(i + 1 < b.len() && b[i + 1] == marker)) {
            lemma_constrained_close_bounds(b, marker, start, i + 1);
        }
    }
}

/// The constrained closing `marker` at or after `search_start`, skipping
/// sentinels: past `search_start` and not the first of a doubled marker.
pub fn find_closing_constrained(bytes: &[u8], marker: u8, search_start: usize) -> (r: Option<
    usize,
>)
    ensures
        int_opt(r) == constrained_close_from(bytes@, marker, search_start as int, search_start as int),
        r matches Some(k) ==> search_start < k < bytes@.len() && bytes@[k as int] == marker,
{
    proof {
        lemma_constrained_close_bounds(bytes@, marker, search_start as int, search_start as int);
    }
    let n = bytes.len();
    let mut i = search_start;
    while i < n
        invariant
            n == bytes@.len(),
            search_start <= i,
            constrained_close_from(bytes@, marker, search_start as int, search_start as int)
                == constrained_close_from(bytes@, marker, search_start as int, i as int),
        decreases n - i,
    {
        if bytes[i] == TAG_LEAD {
            i = sentinel_end(bytes, i);
            continue;
        }
        if bytes[i] == marker && i > search_start && !(i + 1 < n && bytes[i + 1] == marker) {
            return Some(i);
        }
        i += 1;
    }
    None
}

/// Close-side checks of a constrained span with content
/// `b[content_start..close_pos]`: non-empty, not ending in a space, no word
/// byte after the close, and for monospace (`mono_extra`) no `"`, `'` or
/// backtick after it either.
pub open spec fn constrained_close_ok_spec(
    b: Seq<u8>,
    marker: u8,
    content_start: int,
    close_pos: int,
    mono_extra: bool,
) -> bool {
    &&& close_pos != content_start
    &&& b[close_pos - 1] != SPACE
    &&& !(close_pos + 1 < b.len() && is_word_byte(b[close_pos + 1]))
    &&& !(mono_extra && marker == BACKTICK && close_pos + 1 < b.len() && (b[close_pos + 1]
        == DQUOTE || b[close_pos + 1] == SQUOTE || b[close_pos + 1] == BACKTICK))
}

pub fn constrained_close_ok(
    bytes: &[u8],
    marker: u8,
    content_start: usize,
    close_pos: usize,
    mono_extra: bool,
) -> (r: bool)
    requires
        close_pos == content_start || 1 <= close_pos <= bytes@.len(),
    ensures
        r == constrained_close_ok_spec(
            bytes@,
            marker,
            content_start as int,
            close_pos as int,
            mono_extra,
        ),
{
    if close_pos == content_start || bytes[close_pos - 1] == SPACE {
        return false;
    }
    let n = bytes.len();
    if close_pos < n && close_pos + 1 < n && is_word(bytes[close_pos + 1]) {
        return false;
    }
    if mono_extra && marker == BACKTICK && close_pos < n && close_pos + 1 < n {
        let a = bytes[close_pos + 1];
        if a == DQUOTE || a == SQUOTE || a == BACKTICK {
            return false;
        }
    }
    true
}

/// First valid constrained close for content starting at `content_start`,
/// searching from `from`: a candidate failing the close-side checks is
/// absorbed into the content and the search goes on after it.
pub open spec fn valid_close_from(
    b: Seq<u8>,
    marker: u8,
    content_start: int,
    mono_extra: bool,
    from: int,
) -> Option<int>
    decreases b.len() - from,
{
    match constrained_close_from(b, marker, from, from) {
        Some(pos) => {
            proof {
                lemma_constrained_close_bounds(b, marker, from, from);
            }
            if constrained_close_ok_spec(b, marker, content_start, pos, mono_extra) {
                Some(pos)
            } else {
                valid_close_from(b, marker, content_start, mono_extra, pos)
            }
        },
        None => None,
    }
}

pub proof fn lemma_valid_close_bounds(
    b: Seq<u8>,
    marker: u8,
    content_start: int,
    mono_extra: bool,
    from: int,
)
    ensures
        valid_close_from(b, marker, content_start, mono_extra, from) matches Some(k) ==> from
            < k < b.len() && b[k] == marker && constrained_close_ok_spec(
            b,
            marker,
            content_start,
            k,
            mono_extra,
        ),
    decreases b.len() - from,
{
    lemma_constrained_close_bounds(b, marker, from, from);
    match constrained_close_from(b, marker, from, from) {
        Some(pos) => {
            if !constrained_close_ok_spec(b, marker, content_start, pos, mono_extra) {
                lemma_valid_close_bounds(b, marker, content_start, mono_extra, pos);
            }
        },
        None => {},
    }
}

/// The first valid constrained closing `marker` for content starting at
/// `content_start` (Asciidoctor's lazy `(\S|\S.*?\S)` content).
pub fn find_valid_close_constrained(
    bytes: &[u8],
    marker: u8,
    content_start: usize,
    mono_extra: bool,
) -> (r: Option<usize>)
    ensures
        int_opt(r) == valid_close_from(bytes@, marker, content_start as int, mono_extra, content_start as int),
        r matches Some(k) ==> content_start < k < bytes@.len() && bytes@[k as int] == marker
            && constrained_close_ok_spec(bytes@, marker, content_start as int, k as int, mono_extra),
{
    proof {
        lemma_valid_close_bounds(bytes@, marker, content_start as int, mono_extra, content_start as int);
    }
    let mut from = content_start;
    loop
        invariant
            content_start <= from,
            valid_close_from(bytes@, marker, content_start as int, mono_extra, content_start as int)
                == valid_close_from(bytes@, marker, content_start as int, mono_extra, from as int),
        decreases bytes@.len() - from,
    {
        match find_closing_constrained(bytes, marker, from) {
            Some(pos) => {
                if constrained_close_ok(bytes, marker, content_start, pos, mono_extra) {
                    return Some(pos);
                }
                from = pos;
            },
            None => {
                return None;
            },
        }
    }
}

/// Unconstrained close search from `i`: the first `marker marker` pair
/// outside sentinels.
pub open spec fn unconstrained_close_from(b: Seq<u8>, marker: u8, i: int) -> Option<int>
    decreases b.len() - i,
{
    if i < 0 || i + 1 >= b.len() {
        None
    } else if b[i] == TAG_LEAD {
        proof {
            lemma_sentinel_end(b, i);
        }
        unconstrained_close_from(b, marker, sentinel_end_of(b, i))
    } else if b[i] == marker && b[i + 1] == marker {
        Some(i)
    } else {
        unconstrained_close_from(b, marker, i + 1)
    }
}

pub proof fn lemma_unconstrained_close_bounds(b: Seq<u8>, marker: u8, i: int)
    ensures
        unconstrained_close_from(b, marker, i) matches Some(k) ==> i <= k && k + 1 < b.len()
            && b[k] == marker && b[k + 1] == marker,
    decreases b.len() - i,
{
    if 0 <= i && i + 1 < b.len() {
        if b[i] == TAG_LEAD {
            lemma_sentinel_end(b, i);
            lemma_unconstrained_close_bounds(b, marker, sentinel_end_of(b, i));
        } else if !(b[i] == marker && b[i + 1] == marker) {
            lemma_unconstrained_close_bounds(b, marker, i + 1);
        }
    }
}

/// The next unconstrained `marker marker` pair at or after `search_start`,
/// skipping sentinels.
pub fn find_closing_unconstrained(bytes: &[u8], marker: u8, search_start: usize) -> (r: Option<
    usize,
>)
    ensures
        int_opt(r) == unconstrained_close_from(bytes@, marker, search_start as int),
        r matches Some(k) ==> search_start <= k && k + 1 < bytes@.len() && bytes@[k as int]
            == marker && bytes@[k + 1] == marker,
{
    proof {
        lemma_unconstrained_close_bounds(bytes@, marker, search_start as int);
    }
    let n = bytes.len();
    let mut i = search_start;
    while i < n && i + 1 < n
        invariant
            n == bytes@.len(),
            search_start <= i,
            unconstrained_close_from(bytes@, marker, search_start as int)
                == unconstrained_close_from(bytes@, marker, i as int),
        decreases n - i,
    {
        if bytes[i] == TAG_LEAD {
            i = sentinel_end(bytes, i);
            continue;
        }
        if bytes[i] == marker && bytes[i + 1] == marker {
            return Some(i);
        }
        i += 1;
    }
    None
}

/// Superscript/subscript close search from `j` for content starting at
/// `content_start`: the first `marker` outside sentinels past the start.
pub open spec fn simple_pair_close_from(b: Seq<u8>, marker: u8, content_start: int, j: int) -> Option<
    int,
>
    decreases b.len() - j,
{
    if j < 0 || j >= b.len() {
        None
    } else if b[j] == TAG_LEAD {
        proof {
            lemma_sentinel_end(b, j);
        }
        simple_pair_close_from(b, marker, content_start, sentinel_end_of(b, j))
    } else if b[j] == marker && j > content_start {
        Some(j)
    } else {
        simple_pair_close_from(b, marker, content_start, j + 1)
    }
}

pub proof fn lemma_simple_pair_bounds(b: Seq<u8>, marker: u8, content_start: int, j: int)
    ensures
        simple_pair_close_from(b, marker, content_start, j) matches Some(k) ==> j <= k < b.len()
            && k > content_start && b[k] == marker,
    decreases b.len() - j,
{
    if 0 <= j < b.len() {
        if b[j] == TAG_LEAD {
            lemma_sentinel_end(b, j);
            lemma_simple_pair_bounds(b, marker, content_start, sentinel_end_of(b, j));
        } else if !(b[j] == marker && j > content_start) {
            lemma_simple_pair_bounds(b, marker, content_start, j + 1);
        }
    }
}

/// Whether a superscript/subscript pair opens at `bytes[i]` (the marker):
/// the closing marker's position, content non-empty, no boundary rule.
pub fn simple_pair_open_close(bytes: &[u8], i: usize, marker: u8) -> (r: Option<usize>)
    requires
        i < bytes@.len(),
    ensures
        int_opt(r) == simple_pair_close_from(bytes@, marker, i + 1, i + 1),
        r matches Some(k) ==> i + 1 < k < bytes@.len() && bytes@[k as int] == marker,
{
    proof {
        lemma_simple_pair_bounds(bytes@, marker, i + 1, i + 1);
    }
    let n = bytes.len();
    let content_start = i + 1;
    let mut j = content_start;
    while j < n
        invariant
            n == bytes@.len(),
            content_start == i + 1,
            content_start <= j,
            simple_pair_close_from(bytes@, marker, i + 1, i + 1) == simple_pair_close_from(
                bytes@,
                marker,
                i + 1,
                j as int,
            ),
        decreases n - j,
    {
        if bytes[j] == TAG_LEAD {
            j = sentinel_end(bytes, j);
            continue;
        }
        if bytes[j] == marker && j > content_start {
            return Some(j);
        }
        j += 1;
    }
    None
}

/// The `]` closing an attrlist opened at `lbrack`: the first `]` after it,
/// unless a line feed comes first.
pub open spec fn attr_close_from(b: Seq<u8>, j: int) -> Option<int>
    decreases b.len() - j,
{
    if j < 0 || j >= b.len() {
        None
    } else if b[j] == RBRACK {
        Some(j)
    } else if b[j] == LF {
        None
    } else {
        attr_close_from(b, j + 1)
    }
}

pub fn find_attr_close(bytes: &[u8], lbrack: usize) -> (r: Option<usize>)
    requires
        lbrack < usize::MAX,
    ensures
        int_opt(r) == attr_close_from(bytes@, lbrack + 1),
{
    let n = bytes.len();
    let mut j = lbrack + 1;
    while j < n
        invariant
            n == bytes@.len(),
            lbrack < j,
            attr_close_from(bytes@, lbrack + 1) == attr_close_from(bytes@, j as int),
        decreases n - j,
    {
        if bytes[j] == RBRACK {
            return Some(j);
        }
        if bytes[j] == LF {
            return None;
        }
        j += 1;
    }
    None
}

/// Left boundary of a constrained curved quote: start of buffer, or a
/// preceding byte that is neither a word byte nor `;`, `:` or `}`.
pub open spec fn compat_open_boundary_spec(b: Seq<u8>, i: int) -> bool {
    i == 0 || {
        let p = b[i - 1];
        !is_word_byte(p) && p != SEMI && p != COLON && p != RBRACE
    }
}

pub fn compat_open_boundary(bytes: &[u8], i: usize) -> (r: bool)
    requires
        i <= bytes@.len(),
    ensures
        r == compat_open_boundary_spec(bytes@, i as int),
{
    if i == 0 {
        return true;
    }
    let p = bytes[i - 1];
    !is_word(p) && p != SEMI && p != COLON && p != RBRACE
}

/// `p` occurs in `b` at `i`.
pub open spec fn bytes_at(b: Seq<u8>, p: Seq<u8>, i: int) -> bool {
    0 <= i && i + p.len() <= b.len() && b.subrange(i, i + p.len()) == p
}

pub fn bytes_match_at(bytes: &[u8], p: &[u8], i: usize) -> (r: bool)
    ensures
        r == bytes_at(bytes@, p@, i as int),
{
    let n = bytes.len();
    if i > n || p.len() > n - i {
        return false;
    }
    let mut k: usize = 0;
    while k < p.len()
        invariant
            n == bytes@.len(),
            i + p@.len() <= n,
            k <= p@.len(),
            forall|t: int| 0 <= t < k ==> bytes@[i + t] == p@[t],
        decreases p@.len() - k,
    {
        if bytes[i + k] != p[k] {
            assert(bytes@.subrange(i as int, i + p@.len())[k as int] != p@[k as int]);
            return false;
        }
        k += 1;
    }
    assert(bytes@.subrange(i as int, i + p@.len()) =~= p@);
    true
}

/// Close search of a curved quote from `i`: the first `close` outside
/// sentinels past the content start, after a non-space byte and not before
/// a word byte; the scan steps over whole UTF-8 characters.
pub open spec fn curved_close_from(b: Seq<u8>, content_start: int, close: Seq<u8>, i: int) -> Option<
    int,
>
    decreases b.len() - i,
{
    if i < 0 || i >= b.len() {
        None
    } else if b[i] == TAG_LEAD {
        proof {
            lemma_sentinel_end(b, i);
        }
        curved_close_from(b, content_start, close, sentinel_end_of(b, i))
    } else if i > content_start && bytes_at(b, close, i) && !is_ascii_ws_byte(b[i - 1]) && !(i
        + close.len() < b.len() && is_word_byte(b[i + close.len()])) {
        Some(i)
    } else {
        let next = i + utf8_len_of(b[i]);
        if next >= b.len() {
            None
        } else {
            curved_close_from(b, content_start, close, next)
        }
    }
}

pub fn find_compat_curved_close(bytes: &[u8], content_start: usize, close: &[u8]) -> (r: Option<
    usize,
>)
    ensures
        int_opt(r) == curved_close_from(bytes@, content_start as int, close@, content_start as int),
{
    let n = bytes.len();
    let mut i = content_start;
    while i < n
        invariant
            n == bytes@.len(),
            curved_close_from(bytes@, content_start as int, close@, content_start as int)
                == curved_close_from(bytes@, content_start as int, close@, i as int),
        decreases n - i,
    {
        if bytes[i] == TAG_LEAD {
            i = sentinel_end(bytes, i);
            continue;
        }
        if i > content_start && bytes_match_at(bytes, close, i) {
            let prev = bytes[i - 1];
            let at = i + close.len();
            let after_is_word = at < n && is_word(bytes[at]);
            if !is_ascii_ws(prev) && !after_is_word {
                return Some(i);
            }
        }
        let w = utf8_char_len(bytes[i]);
        if w >= n - i {
            return None;
        }
        i += w;
    }
    None
}

// ---------------------------------------------------------------------------
// Escapes and character references
// ---------------------------------------------------------------------------

/// A class of ASCII bytes scanned as a run.
#[derive(Clone, Copy, PartialEq, Eq, Debug)]
pub enum ByteClass {
    Digit,
    Alpha,
    Hex,
}

pub open spec fn in_class_spec(c: ByteClass, b: u8) -> bool {
    match c {
        ByteClass::Digit => is_digit_byte(b),
        ByteClass::Alpha => is_alpha_byte(b),
        ByteClass::Hex => is_hex_byte(b),
    }
}

/// End of the run of `c` bytes starting at `i`.
pub open spec fn class_run_end(b: Seq<u8>, c: ByteClass, i: int) -> int
    decreases b.len() - i,
{
    if 0 <= i < b.len() && in_class_spec(c, b[i]) {
        class_run_end(b, c, i + 1)
    } else {
        i
    }
}

pub proof fn lemma_class_run_end(b: Seq<u8>, c: ByteClass, i: int)
    requires
        0 <= i,
    ensures
        i <= class_run_end(b, c, i),
        i <= b.len() ==> class_run_end(b, c, i) <= b.len(),
        forall|t: int| i <= t < class_run_end(b, c, i) ==> in_class_spec(c, b[t]),
    decreases b.len() - i,
{
    if 0 <= i < b.len() && in_class_spec(c, b[i]) {
        lemma_class_run_end(b, c, i + 1);
    }
}

fn in_class(c: ByteClass, b: u8) -> (r: bool)
    ensures
        r == in_class_spec(c, b),
{
    match c {
        ByteClass::Digit => 0x30 <= b && b <= 0x39,
        ByteClass::Alpha => (0x41 <= b && b <= 0x5A) || (0x61 <= b && b <= 0x7A),
        ByteClass::Hex => (0x30 <= b && b <= 0x39) || (0x41 <= b && b <= 0x46) || (0x61 <= b
            && b <= 0x66),
    }
}

fn skip_class(bytes: &[u8], c: ByteClass, i: usize) -> (r: usize)
    requires
        i <= bytes@.len(),
    ensures
        r == class_run_end(bytes@, c, i as int),
        i <= r <= bytes@.len(),
{
    proof {
        lemma_class_run_end(bytes@, c, i as int);
    }
    let n = bytes.len();
    let mut j = i;
    while j < n && in_class(c, bytes[j])
        invariant
            n == bytes@.len(),
            i <= j <= n,
            class_run_end(bytes@, c, i as int) == class_run_end(bytes@, c, j as int),
        decreases n - j,
    {
        j += 1;
    }
    j
}

/// Where the body of a character reference starting at `start` (`&`) ends,
/// before its `;`: `#x`/`#X` and two or more hex digits, `#` and two to six
/// decimal digits, or two or more letters and at most two digits.
pub open spec fn char_ref_body_end(b: Seq<u8>, start: int) -> Option<int> {
    if start + 1 < b.len() && b[start + 1] == HASH {
        if start + 2 < b.len() && (b[start + 2] == 0x78 || b[start + 2] == 0x58) {
            let e = class_run_end(b, ByteClass::Hex, start + 3);
            if e - (start + 3) >= 2 {
                Some(e)
            } else {
                None
            }
        } else {
            let e = class_run_end(b, ByteClass::Digit, start + 2);
            if 2 <= e - (start + 2) <= 6 {
                Some(e)
            } else {
                None
            }
        }
    } else {
        let e = class_run_end(b, ByteClass::Alpha, start + 1);
        if e - (start + 1) >= 2 {
            let d = class_run_end(b, ByteClass::Digit, e);
            Some(
                if d - e > 2 {
                    e + 2
                } else {
                    d
                },
            )
        } else {
            None
        }
    }
}

/// Total byte length of the HTML character reference (`&name;`, `&#123;`,
/// `&#x1F;`) starting at `start`, `;` included; 0 when none starts there.
pub open spec fn char_ref_len_of(b: Seq<u8>, start: int) -> int {
    if 0 <= start < b.len() && b[start] == AMP {
        match char_ref_body_end(b, start) {
            Some(e) => if e < b.len() && b[e] == SEMI {
                e + 1 - start
            } else {
                0
            },
            None => 0,
        }
    } else {
        0
    }
}

proof fn lemma_class_run_exact(b: Seq<u8>, c: ByteClass, i: int, e: int)
    requires
        0 <= i <= e <= b.len(),
        forall|t: int| i <= t < e ==> in_class_spec(c, #[trigger] b[t]),
        e < b.len() ==> !in_class_spec(c, b[e]),
    ensures
        class_run_end(b, c, i) == e,
    decreases e - i,
{
    if i < e {
        lemma_class_run_exact(b, c, i + 1, e);
    }
}

/// A character reference is `&`, a body and `;`: `#` and two to six decimal
/// digits, `#x` and two or more hex digits, or two or more letters; its
/// length is the whole reference. A decimal body of one digit or of seven
/// or more is no reference, and neither is a single letter.
pub proof fn law_char_ref_forms(d: Seq<u8>, tail: Seq<u8>)
    requires
        forall|t: int| 0 <= t < d.len() ==> is_digit_byte(#[trigger] d[t]),
    ensures
        (2 <= d.len() <= 6) ==> char_ref_len_of(seq![AMP, HASH] + d + seq![SEMI] + tail, 0) == d.len()
            + 3,
        (d.len() == 1 || d.len() >= 7) ==> char_ref_len_of(seq![AMP, HASH] + d + seq![SEMI] + tail, 0)
            == 0,
        (d.len() >= 2) ==> char_ref_len_of(seq![AMP, HASH, 0x78u8] + d + seq![SEMI] + tail, 0)
            == d.len() + 4,
{
    let b = seq![AMP, HASH] + d + seq![SEMI] + tail;
    let e = 2 + d.len() as int;
    assert(b[e] == SEMI);
    lemma_class_run_exact(b, ByteClass::Digit, 2, e);
    let h = seq![AMP, HASH, 0x78u8] + d + seq![SEMI] + tail;
    assert(h[3 + d.len() as int] == SEMI);
    assert forall|t: int| 3 <= t < 3 + d.len() implies in_class_spec(ByteClass::Hex, #[trigger] h[t]) by {
        assert(h[t] == d[t - 3]);
    }
    lemma_class_run_exact(h, ByteClass::Hex, 3, 3 + d.len() as int);
    if d.len() >= 7 {
        assert forall|t: int| 2 <= t < 9 implies in_class_spec(ByteClass::Digit, #[trigger] b[t]) by {
            assert(b[t] == d[t - 2]);
        }
    }
}

/// `&`, two or more ASCII letters and `;` make a named reference spanning
/// all of it; one letter does not.
pub proof fn law_named_char_ref(name: Seq<u8>, tail: Seq<u8>)
    requires
        forall|t: int| 0 <= t < name.len() ==> is_alpha_byte(#[trigger] name[t]),
    ensures
        name.len() >= 2 ==> char_ref_len_of(seq![AMP] + name + seq![SEMI] + tail, 0) == name.len()
            + 2,
        name.len() == 1 ==> char_ref_len_of(seq![AMP] + name + seq![SEMI] + tail, 0) == 0,
{
    let b = seq![AMP] + name + seq![SEMI] + tail;
    let e = 1 + name.len() as int;
    assert(b[e] == SEMI);
    assert forall|t: int| 1 <= t < e implies in_class_spec(ByteClass::Alpha, #[trigger] b[t]) by {
        assert(b[t] == name[t - 1]);
    }
    lemma_class_run_exact(b, ByteClass::Alpha, 1, e);
    lemma_class_run_exact(b, ByteClass::Digit, e, e);
    if name.len() >= 1 {
        assert(b[1] == name[0]);
    }
}

pub fn char_ref_len(bytes: &[u8], start: usize) -> (r: usize)
    ensures
        r == char_ref_len_of(bytes@, start as int),
{
    let n = bytes.len();
    if start >= n || bytes[start] != AMP {
        return 0;
    }
    let end: usize;
    if start + 1 < n && bytes[start + 1] == HASH {
        if start + 2 < n && (bytes[start + 2] == 0x78 || bytes[start + 2] == 0x58) {
            let e = skip_class(bytes, ByteClass::Hex, start + 3);
            if e - (start + 3) < 2 {
                return 0;
            }
            end = e;
        } else {
            let e = skip_class(bytes, ByteClass::Digit, start + 2);
            if e - (start + 2) < 2 || e - (start + 2) > 6 {
                return 0;
            }
            end = e;
        }
    } else {
        let e = skip_class(bytes, ByteClass::Alpha, start + 1);
        if e - (start + 1) < 2 {
            return 0;
        }
        let d = skip_class(bytes, ByteClass::Digit, e);
        end = if d - e > 2 {
            e + 2
        } else {
            d
        };
    }
    if end < n && bytes[end] == SEMI {
        end + 1 - start
    } else {
        0
    }
}

/// Length of the typographic pattern after the backslash at `bs`, or 0:
/// `--` (only where an unescaped `--` would be replaced: spaced, at the
/// end, or between word bytes), `->`, `=>`, `<-`, `<=`, `...`, `(C)`,
/// `(R)`, `(TM)`.
pub open spec fn typographic_escape_len_of(b: Seq<u8>, bs: int) -> int {
    let p = bs + 1;
    let n = b.len();
    if p >= n {
        0
    } else if b[p] == MINUS && p + 1 < n && b[p + 1] == MINUS {
        let spaced_ok = !(p + 2 < n) || b[p + 2] == SPACE || b[p + 2] == LF;
        let word_ok = bs > 0 && is_word_byte(b[bs - 1]) && p + 2 < n && is_word_byte(b[p + 2]);
        if spaced_ok || word_ok {
            2
        } else {
            0
        }
    } else if b[p] == MINUS && p + 1 < n && b[p + 1] == GT {
        2
    } else if b[p] == EQ && p + 1 < n && b[p + 1] == GT {
        2
    } else if b[p] == LT && p + 1 < n && (b[p + 1] == MINUS || b[p + 1] == EQ) {
        2
    } else if b[p] == DOT && p + 2 < n && b[p + 1] == DOT && b[p + 2] == DOT {
        3
    } else if b[p] == LPAREN && p + 2 < n && b[p + 2] == RPAREN && (b[p + 1] == 0x43 || b[p
        + 1] == 0x52) {
        3
    } else if b[p] == LPAREN && p + 3 < n && b[p + 1] == 0x54 && b[p + 2] == 0x4D && b[p + 3]
        == RPAREN {
        4
    } else {
        0
    }
}

pub fn typographic_escape_len(bytes: &[u8], backslash: usize) -> (r: usize)
    requires
        backslash < usize::MAX,
    ensures
        r == typographic_escape_len_of(bytes@, backslash as int),
{
    let n = bytes.len();
    let p = backslash + 1;
    if p >= n {
        return 0;
    }
    let c = bytes[p];
    if c == MINUS && n - p > 1 && bytes[p + 1] == MINUS {
        let has_after = n - p > 2;
        let spaced_ok = !has_after || bytes[p + 2] == SPACE || bytes[p + 2] == LF;
        let word_ok = backslash > 0 && is_word(bytes[backslash - 1]) && has_after && is_word(
            bytes[p + 2],
        );
        if spaced_ok || word_ok {
            2
        } else {
            0
        }
    } else if c == MINUS && n - p > 1 && bytes[p + 1] == GT {
        2
    } else if c == EQ && n - p > 1 && bytes[p + 1] == GT {
        2
    } else if c == LT && n - p > 1 && (bytes[p + 1] == MINUS || bytes[p + 1] == EQ) {
        2
    } else if c == DOT && n - p > 2 && bytes[p + 1] == DOT && bytes[p + 2] == DOT {
        3
    } else if c == LPAREN && n - p > 2 && bytes[p + 2] == RPAREN && (bytes[p + 1] == 0x43
        || bytes[p + 1] == 0x52) {
        3
    } else if c == LPAREN && n - p > 3 && bytes[p + 1] == 0x54 && bytes[p + 2] == 0x4D
        && bytes[p + 3] == RPAREN {
        4
    } else {
        0
    }
}

/// The bytes of a slice, each as the char with the same code.
fn byte_chars_of(b: &[u8]) -> (r: Vec<char>)
    ensures
        r@ == byte_text(b@),
{
    let mut r: Vec<char> = Vec::new();
    let mut k: usize = 0;
    while k < b.len()
        invariant
            k <= b@.len(),
            r@ == byte_text(b@.take(k as int)),
        decreases b@.len() - k,
    {
        r.push(b[k] as char);
        k += 1;
        assert(byte_text(b@.take(k as int)) =~= byte_text(b@.take(k - 1)).push(b@[k - 1] as char));
    }
    assert(b@.take(b@.len() as int) =~= b@);
    r
}

// ---------------------------------------------------------------------------
// Inline macros
// ---------------------------------------------------------------------------

/// The inline-macro names whose escaped form `\name:target[…]` stays
/// literal, each ending in its colon.
pub open spec fn macro_escape_names() -> Seq<Seq<char>> {
    seq![
        seq!['s', 't', 'e', 'm', ':'],
        seq!['l', 'a', 't', 'e', 'x', 'm', 'a', 't', 'h', ':'],
        seq!['a', 's', 'c', 'i', 'i', 'm', 'a', 't', 'h', ':'],
        seq!['l', 'i', 'n', 'k', ':'],
        seq!['x', 'r', 'e', 'f', ':'],
        seq!['m', 'a', 'i', 'l', 't', 'o', ':'],
        seq!['i', 'c', 'o', 'n', ':'],
        seq!['i', 'n', 'd', 'e', 'x', 't', 'e', 'r', 'm', '2', ':'],
        seq!['i', 'n', 'd', 'e', 'x', 't', 'e', 'r', 'm', ':'],
        seq!['f', 'o', 'o', 't', 'n', 'o', 't', 'e', ':'],
        seq!['i', 'm', 'a', 'g', 'e', ':'],
        seq!['a', 'n', 'c', 'h', 'o', 'r', ':'],
    ]
}

/// Length of the first of `macro_escape_names()[k..]` that occurs at `p`.
pub open spec fn macro_name_from(t: Seq<char>, p: int, k: int) -> Option<int>
    decreases 12 - k,
{
    if k < 0 || k >= 12 {
        None
    } else if match_at(t, macro_escape_names()[k], p) {
        Some(macro_escape_names()[k].len() as int)
    } else {
        macro_name_from(t, p, k + 1)
    }
}

/// From `i`: the first `[`, space, tab or line feed (or the end), unless a
/// sentinel byte comes first.
pub open spec fn target_stop(b: Seq<u8>, i: int) -> Option<int>
    decreases b.len() - i,
{
    if i < 0 {
        None
    } else if i >= b.len() {
        Some(i)
    } else if b[i] == LBRACK || b[i] == SPACE || b[i] == TAB || b[i] == LF {
        Some(i)
    } else if b[i] == TAG_LEAD || b[i] == TAG_TAIL {
        None
    } else {
        target_stop(b, i + 1)
    }
}

/// From `i`: the first `]`, unless a sentinel byte or the end comes first.
pub open spec fn clean_bracket_close(b: Seq<u8>, i: int) -> Option<int>
    decreases b.len() - i,
{
    if i < 0 || i >= b.len() {
        None
    } else if b[i] == RBRACK {
        Some(i)
    } else if b[i] == TAG_LEAD || b[i] == TAG_TAIL {
        None
    } else {
        clean_bracket_close(b, i + 1)
    }
}

/// Length of an escaped inline macro `name:target[…]` starting at `p` (just
/// past the backslash), through its closing `]`; 0 when there is none, for
/// the block form `name::`, or when a sentinel byte lies in the target or
/// the brackets.
pub open spec fn macro_escape_len_of(b: Seq<u8>, p: int) -> int {
    if p < 0 || p >= b.len() {
        0
    } else {
        match macro_name_from(byte_text(b), p, 0) {
            None => 0,
            Some(nl) => if p + nl < b.len() && b[p + nl] == COLON {
                0
            } else {
                match target_stop(b, p + nl) {
                    Some(k) => if k < b.len() && b[k] == LBRACK {
                        match clean_bracket_close(b, k + 1) {
                            Some(c) => c + 1 - p,
                            None => 0,
                        }
                    } else {
                        0
                    },
                    None => 0,
                }
            },
        }
    }
}

fn macro_name_at(t: &[char], p: usize) -> (r: Option<usize>)
    ensures
        r matches Some(l) ==> macro_name_from(t@, p as int, 0) == Some(l as int) && p + l <= t@.len(),
        r is None ==> macro_name_from(t@, p as int, 0) is None,
{
    let names: Vec<Vec<char>> = vec![
        vec!['s', 't', 'e', 'm', ':'],
        vec!['l', 'a', 't', 'e', 'x', 'm', 'a', 't', 'h', ':'],
        vec!['a', 's', 'c', 'i', 'i', 'm', 'a', 't', 'h', ':'],
        vec!['l', 'i', 'n', 'k', ':'],
        vec!['x', 'r', 'e', 'f', ':'],
        vec!['m', 'a', 'i', 'l', 't', 'o', ':'],
        vec!['i', 'c', 'o', 'n', ':'],
        vec!['i', 'n', 'd', 'e', 'x', 't', 'e', 'r', 'm', '2', ':'],
        vec!['i', 'n', 'd', 'e', 'x', 't', 'e', 'r', 'm', ':'],
        vec!['f', 'o', 'o', 't', 'n', 'o', 't', 'e', ':'],
        vec!['i', 'm', 'a', 'g', 'e', ':'],
        vec!['a', 'n', 'c', 'h', 'o', 'r', ':'],
    ];
    assert(names@.len() == 12);
    assert forall|k: int| 0 <= k < 12 implies (#[trigger] names@[k])@ == macro_escape_names()[k] by {
        if k == 0 {
            assert(names@[0]@ =~= macro_escape_names()[0]);
        } else if k == 1 {
            assert(names@[1]@ =~= macro_escape_names()[1]);
        } else if k == 2 {
            assert(names@[2]@ =~= macro_escape_names()[2]);
        } else if k == 3 {
            assert(names@[3]@ =~= macro_escape_names()[3]);
        } else if k == 4 {
            assert(names@[4]@ =~= macro_escape_names()[4]);
        } else if k == 5 {
            assert(names@[5]@ =~= macro_escape_names()[5]);
        } else if k == 6 {
            assert(names@[6]@ =~= macro_escape_names()[6]);
        } else if k == 7 {
            assert(names@[7]@ =~= macro_escape_names()[7]);
        } else if k == 8 {
            assert(names@[8]@ =~= macro_escape_names()[8]);
        } else if k == 9 {
            assert(names@[9]@ =~= macro_escape_names()[9]);
        } else if k == 10 {
            assert(names@[10]@ =~= macro_escape_names()[10]);
        } else {
            assert(names@[11]@ =~= macro_escape_names()[11]);
        }
    }
    let mut k: usize = 0;
    while k < 12
        invariant
            names@.len() == 12,
            forall|j: int| 0 <= j < 12 ==> (#[trigger] names@[j])@ == macro_escape_names()[j],
            k <= 12,
            macro_name_from(t@, p as int, 0) == macro_name_from(t@, p as int, k as int),
        decreases 12 - k,
    {
        if matches_at(t, names[k].as_slice(), p) {
            return Some(names[k].len());
        }
        k += 1;
    }
    None
}

pub fn macro_escape_len(bytes: &[u8], p: usize) -> (r: usize)
    ensures
        r == macro_escape_len_of(bytes@, p as int),
{
    let n = bytes.len();
    if p >= n {
        return 0;
    }
    let t = byte_chars_of(bytes);
    let nl = match macro_name_at(t.as_slice(), p) {
        Some(l) => l,
        None => {
            return 0;
        },
    };
    let ghost b = bytes@;
    assert(macro_name_from(byte_text(b), p as int, 0) == Some(nl as int));
    if p + nl < n && bytes[p + nl] == COLON {
        return 0;
    }
    let mut i = p + nl;
    while i < n && !(bytes[i] == LBRACK || bytes[i] == SPACE || bytes[i] == TAB || bytes[i] == LF)
        invariant
            n == bytes@.len(),
            b == bytes@,
            p < n,
            macro_name_from(byte_text(b), p as int, 0) == Some(nl as int),
            !(p + nl < n && b[p + nl] == COLON),
            p <= p + nl <= i,
            target_stop(b, p + nl) == target_stop(b, i as int),
        decreases n - i,
    {
        if bytes[i] == TAG_LEAD || bytes[i] == TAG_TAIL {
            assert(target_stop(b, i as int) is None);
            return 0;
        }
        i += 1;
    }
    assert(target_stop(b, i as int) == Some(i as int));
    if i >= n || bytes[i] != LBRACK {
        return 0;
    }
    let mut j = i + 1;
    while j < n
        invariant
            n == bytes@.len(),
            b == bytes@,
            p < n,
            macro_name_from(byte_text(b), p as int, 0) == Some(nl as int),
            !(p + nl < n && b[p + nl] == COLON),
            target_stop(b, p + nl) == Some(i as int),
            i < n && b[i as int] == LBRACK,
            p <= i < j,
            clean_bracket_close(b, i + 1) == clean_bracket_close(b, j as int),
        decreases n - j,
    {
        let c = bytes[j];
        if c == RBRACK {
            assert(clean_bracket_close(b, j as int) == Some(j as int));
            return j + 1 - p;
        }
        if c == TAG_LEAD || c == TAG_TAIL {
            assert(clean_bracket_close(b, j as int) is None);
            return 0;
        }
        j += 1;
    }
    assert(clean_bracket_close(b, j as int) is None);
    0
}

/// `))` slides right past each further `)`: the close of `a)))` is at 1.
pub open spec fn paren_close_slide(b: Seq<u8>, k: int) -> int
    decreases b.len() - k,
{
    if 0 <= k && k + 2 < b.len() && b[k + 2] == RPAREN {
        paren_close_slide(b, k + 1)
    } else {
        k
    }
}

/// Offset of the `))` closing an index term in `b`: the first `))`, slid
/// right over further `)`; `None` when there is none or the term is empty.
pub open spec fn index_term_close_of(b: Seq<u8>) -> Option<int> {
    match crate::text::find(byte_text(b), seq![')', ')']) {
        Some(k) => {
            let c = paren_close_slide(b, k);
            if c == 0 {
                None
            } else {
                Some(c)
            }
        },
        None => None,
    }
}

pub fn index_term_close(rest: &str) -> (r: Option<usize>)
    ensures
        int_opt(r) == index_term_close_of(rest.spec_bytes()),
{
    let bytes = rest.as_bytes();
    let t = byte_chars_of(bytes);
    let pat = vec![')', ')'];
    assert(pat@ =~= seq![')', ')']);
    let mut close = match crate::text::find_at(t.as_slice(), pat.as_slice()) {
        Some(k) => k,
        None => {
            return None;
        },
    };
    let n = bytes.len();
    while close < n && n - close > 2 && bytes[close + 2] == RPAREN
        invariant
            n == bytes@.len(),
            bytes@ == rest.spec_bytes(),
            close <= n,
            paren_close_slide(bytes@, close as int) == index_term_close_of(bytes@)->0
                || index_term_close_of(bytes@) is None,
            crate::text::find(byte_text(bytes@), seq![')', ')']) is Some,
            paren_close_slide(bytes@, close as int) == paren_close_slide(
                bytes@,
                crate::text::find(byte_text(bytes@), seq![')', ')'])->0,
            ),
        decreases n - close,
    {
        close += 1;
    }
    if close == 0 {
        None
    } else {
        Some(close)
    }
}

/// `b[i]` is a `>` with a space or line feed right before and right after.
pub open spec fn spaced_gt_at(b: Seq<u8>, i: int) -> bool {
    &&& 0 < i
    &&& i + 1 < b.len()
    &&& b[i] == GT
    &&& (b[i - 1] == SPACE || b[i - 1] == LF)
    &&& (b[i + 1] == SPACE || b[i + 1] == LF)
}

pub open spec fn has_spaced_gt_spec(b: Seq<u8>) -> bool {
    exists|i: int| spaced_gt_at(b, i)
}

fn spaced_gt_in(bytes: &[u8], a: usize, e: usize) -> (r: bool)
    requires
        a <= e <= bytes@.len(),
    ensures
        r == has_spaced_gt_spec(bytes@.subrange(a as int, e as int)),
{
    let ghost c = bytes@.subrange(a as int, e as int);
    let mut i = a;
    while i < e
        invariant
            a <= i <= e <= bytes@.len(),
            c == bytes@.subrange(a as int, e as int),
            forall|k: int| 0 <= k < i - a ==> !spaced_gt_at(c, k),
        decreases e - i,
    {
        if bytes[i] == GT && i > a && (bytes[i - 1] == SPACE || bytes[i - 1] == LF) && e - i > 1
            && (bytes[i + 1] == SPACE || bytes[i + 1] == LF) {
            assert(spaced_gt_at(c, i - a));
            return true;
        }
        assert(!spaced_gt_at(c, i - a));
        i += 1;
    }
    assert forall|k: int| !spaced_gt_at(c, k) by {
        if 0 <= k < c.len() {
        }
    }
    false
}

/// Whether `content` holds a `>` with a space or line feed directly on both
/// sides (never a tab).
pub fn has_spaced_gt(content: &str) -> (r: bool)
    ensures
        r == has_spaced_gt_spec(content.spec_bytes()),
{
    let b = content.as_bytes();
    let r = spaced_gt_in(b, 0, b.len());
    assert(b@.subrange(0, b@.len() as int) =~= b@);
    r
}

/// A quoted inline menu `"File > Save"` opening at `open`: the index past
/// its closing `"` when the content starts with a word byte or `&` and holds
/// a spaced `>`.
pub open spec fn quoted_menu_end_of(b: Seq<u8>, open: int) -> Option<int> {
    match next_byte(b, DQUOTE, open + 1) {
        Some(close) => {
            let c = b.subrange(open + 1, close);
            if c.len() > 0 && (is_word_byte(c[0]) || c[0] == AMP) && has_spaced_gt_spec(c) {
                Some(close + 1)
            } else {
                None
            }
        },
        None => None,
    }
}

pub fn quoted_menu_span_end(src: &str, open: usize) -> (r: Option<usize>)
    requires
        open < usize::MAX,
        vstd::utf8::is_char_boundary(src.spec_bytes(), open + 1),
    ensures
        int_opt(r) == quoted_menu_end_of(src.spec_bytes(), open as int),
{
    let bytes = src.as_bytes();
    let n = bytes.len();
    proof {
        lemma_next_byte(bytes@, DQUOTE, open + 1);
    }
    proof {
        vstd::utf8::encode_utf8_valid_utf8(src@);
        assert(open + 1 <= bytes@.len());
    }
    let mut j = open + 1;
    while j < n && bytes[j] != DQUOTE
        invariant
            n == bytes@.len(),
            open < j <= n,
            next_byte(bytes@, DQUOTE, open + 1) == next_byte(bytes@, DQUOTE, j as int),
        decreases n - j,
    {
        j += 1;
    }
    if j >= n {
        return None;
    }
    let close = j;
    if close == open + 1 {
        return None;
    }
    let first = bytes[open + 1];
    if !(is_word(first) || first == AMP) {
        return None;
    }
    if !spaced_gt_in(bytes, open + 1, close) {
        return None;
    }
    Some(close + 1)
}

/// An autolink scheme (`http://`, `https://`, `file://`, `ftp://`,
/// `irc://`) begins at `i`.
pub open spec fn scheme_at_spec(b: Seq<u8>, i: int) -> bool {
    let t = byte_text(b);
    ||| match_at(t, seq!['h', 't', 't', 'p', ':', '/', '/'], i)
    ||| match_at(t, seq!['h', 't', 't', 'p', 's', ':', '/', '/'], i)
    ||| match_at(t, seq!['f', 'i', 'l', 'e', ':', '/', '/'], i)
    ||| match_at(t, seq!['f', 't', 'p', ':', '/', '/'], i)
    ||| match_at(t, seq!['i', 'r', 'c', ':', '/', '/'], i)
}

pub fn scheme_at(src: &str, i: usize) -> (r: bool)
    requires
        vstd::utf8::is_char_boundary(src.spec_bytes(), i as int),
    ensures
        r == scheme_at_spec(src.spec_bytes(), i as int),
{
    let t = byte_chars_of(src.as_bytes());
    let http = vec!['h', 't', 't', 'p', ':', '/', '/'];
    let https = vec!['h', 't', 't', 'p', 's', ':', '/', '/'];
    let file = vec!['f', 'i', 'l', 'e', ':', '/', '/'];
    let ftp = vec!['f', 't', 'p', ':', '/', '/'];
    let irc = vec!['i', 'r', 'c', ':', '/', '/'];
    assert(http@ =~= seq!['h', 't', 't', 'p', ':', '/', '/']);
    assert(https@ =~= seq!['h', 't', 't', 'p', 's', ':', '/', '/']);
    assert(file@ =~= seq!['f', 'i', 'l', 'e', ':', '/', '/']);
    assert(ftp@ =~= seq!['f', 't', 'p', ':', '/', '/']);
    assert(irc@ =~= seq!['i', 'r', 'c', ':', '/', '/']);
    matches_at(t.as_slice(), http.as_slice(), i) || matches_at(t.as_slice(), https.as_slice(), i)
        || matches_at(t.as_slice(), file.as_slice(), i) || matches_at(t.as_slice(), ftp.as_slice(), i)
        || matches_at(t.as_slice(), irc.as_slice(), i)
}

/// Left boundary of a bare autolink: start of buffer, or an ASCII
/// whitespace byte or one of `<>()[];` before it.
pub open spec fn autolink_boundary_spec(b: Seq<u8>, i: int) -> bool {
    i == 0 || {
        let p = b[i - 1];
        is_ascii_ws_byte(p) || p == LT || p == GT || p == LPAREN || p == RPAREN || p == LBRACK
            || p == RBRACK || p == SEMI
    }
}

pub fn at_autolink_boundary(bytes: &[u8], i: usize) -> (r: bool)
    requires
        i <= bytes@.len(),
    ensures
        r == autolink_boundary_spec(bytes@, i as int),
{
    if i == 0 {
        return true;
    }
    let p = bytes[i - 1];
    is_ascii_ws(p) || p == LT || p == GT || p == LPAREN || p == RPAREN || p == LBRACK || p
        == RBRACK || p == SEMI
}

/// First char of a cross-reference target: alphanumeric (Unicode), or one
/// of `_`, `#`, `/`, `.`, `:`, `{`.
pub open spec fn xref_target_start_spec(s: Seq<char>) -> bool {
    s.len() > 0 && {
        let c = s[0];
        alnum_char(c) || c == '_' || c == '#' || c == '/' || c == '.' || c == ':' || c
            == '{'
    }
}

pub fn xref_target_start_ok(content: &str) -> (r: bool)
    ensures
        r == xref_target_start_spec(content@),
{
    let v = chars_of(content);
    if v.len() == 0 {
        return false;
    }
    let c = v[0];
    char_is_alphanumeric(c) || c == '_' || c == '#' || c == '/' || c == '.' || c == ':' || c
        == '{'
}

/// `pass:`, as bytes.
pub open spec fn pass_prefix_bytes() -> Seq<u8> {
    seq![0x70u8, 0x61u8, 0x73u8, 0x73u8, 0x3Au8]
}

/// Length of the `pass:SPEC[` prefix of an escaped pass macro at byte `p`
/// (`pass:`, the subs spec, `[`); `None` when `p` is no char boundary or no
/// such prefix starts there.
pub open spec fn pass_escape_prefix_of(b: Seq<u8>, p: int) -> Option<int> {
    if vstd::utf8::is_char_boundary(b, p) && bytes_at(b.skip(p), pass_prefix_bytes(), 0) {
        match pass_spec_of(byte_text(b.skip(p)), 5) {
            Some(sl) => Some(5 + sl + 1),
            None => None,
        }
    } else {
        None
    }
}

pub fn pass_escape_prefix_len(src: &str, p: usize) -> (r: Option<usize>)
    ensures
        int_opt(r) == pass_escape_prefix_of(src.spec_bytes(), p as int),
{
    if !src.is_char_boundary(p) {
        return None;
    }
    let (_, rest) = src.split_at(p);
    assert(rest.spec_bytes() =~= src.spec_bytes().skip(p as int));
    let rb = rest.as_bytes();
    let rn = rb.len();
    assert(byte_text(rb@).len() == rn);
    let pre = vec![0x70u8, 0x61u8, 0x73u8, 0x73u8, 0x3Au8];
    assert(pre@ =~= pass_prefix_bytes());
    if !bytes_match_at(rb, pre.as_slice(), 0) {
        return None;
    }
    match pass_spec_len(rest, 5) {
        Some(sl) => {
            proof {
                crate::pass::lemma_spec_end_bounds(byte_text(rb@), 5);
            }
            Some(5 + sl + 1)
        },
        None => None,
    }
}

/// An attribute name: a word byte, then word bytes and `-`.
pub open spec fn valid_attr_name_spec(b: Seq<u8>) -> bool {
    &&& b.len() > 0
    &&& is_word_byte(b[0])
    &&& forall|k: int| 0 <= k < b.len() ==> is_word_byte(#[trigger] b[k]) || b[k] == MINUS
}

pub fn is_valid_attr_name(name: &str) -> (r: bool)
    ensures
        r == valid_attr_name_spec(name.spec_bytes()),
{
    let b = name.as_bytes();
    if b.len() == 0 || !is_word(b[0]) {
        return false;
    }
    let mut k: usize = 0;
    while k < b.len()
        invariant
            b@ == name.spec_bytes(),
            k <= b@.len(),
            forall|j: int| 0 <= j < k ==> is_word_byte(#[trigger] b@[j]) || b@[j] == MINUS,
        decreases b@.len() - k,
    {
        if !(is_word(b[k]) || b[k] == MINUS) {
            assert(!(is_word_byte(b@[k as int]) || b@[k as int] == MINUS));
            return false;
        }
        k += 1;
    }
    true
}

// ---------------------------------------------------------------------------
// Quoted-text attribute lists
// ---------------------------------------------------------------------------

/// The non-empty pieces of `ps`, in order.
pub open spec fn nonempty_pieces(ps: Seq<Seq<char>>) -> Seq<Seq<char>>
    decreases ps.len(),
{
    if ps.len() == 0 {
        Seq::empty()
    } else if ps.last().len() > 0 {
        nonempty_pieces(ps.drop_last()).push(ps.last())
    } else {
        nonempty_pieces(ps.drop_last())
    }
}

pub open spec fn opt_string_view(o: Option<String>) -> Option<Seq<char>> {
    match o {
        Some(x) => Some(x@),
        None => None,
    }
}

pub open spec fn strings_view(v: Seq<String>) -> Seq<Seq<char>> {
    v.map_values(|x: String| x@)
}

/// `#id.role1.role2` shorthand: the id after a leading `#` up to the first
/// `.` (absent when empty), then the non-empty `.`-separated roles.
pub open spec fn shorthand_of(s: Seq<char>) -> (Option<Seq<char>>, Seq<Seq<char>>) {
    if s.len() > 0 && s[0] == '#' {
        let r = s.skip(1);
        let e = match find(r, seq!['.']) {
            Some(k) => k,
            None => r.len() as int,
        };
        (
            if e > 0 {
                Some(r.take(e))
            } else {
                None
            },
            nonempty_pieces(split(r.skip(e), seq!['.'])),
        )
    } else {
        (None, nonempty_pieces(split(s, seq!['.'])))
    }
}

/// The non-empty pieces of `v[a..e]` split at `.`, as strings.
fn nonempty_dot_pieces(v: &[char], a: usize, e: usize) -> (r: Vec<String>)
    requires
        a <= e <= v@.len(),
    ensures
        strings_view(r@) == nonempty_pieces(split(v@.subrange(a as int, e as int), seq!['.'])),
{
    let t = slice_vec(v, a, e);
    let dot = vec!['.'];
    assert(dot@ =~= seq!['.']);
    let ranges = split_ranges(t.as_slice(), dot.as_slice());
    let ghost ps = split(t@, seq!['.']);
    let mut r: Vec<String> = Vec::new();
    let mut k: usize = 0;
    while k < ranges.len()
        invariant
            ps == split(t@, seq!['.']),
            ranges@.len() == ps.len(),
            forall|j: int|
                0 <= j < ranges@.len() ==> {
                    &&& (#[trigger] ranges@[j]).0 <= ranges@[j].1 <= t@.len()
                    &&& t@.subrange(ranges@[j].0 as int, ranges@[j].1 as int) == ps[j]
                },
            k <= ranges@.len(),
            strings_view(r@) == nonempty_pieces(ps.take(k as int)),
        decreases ranges@.len() - k,
    {
        let (x, y) = ranges[k];
        proof {
            assert(ps.take(k + 1).drop_last() =~= ps.take(k as int));
            assert(ps.take(k + 1).last() == ps[k as int]);
        }
        if x < y {
            let piece = slice_vec(t.as_slice(), x, y);
            let st = string_of(piece.as_slice());
            let ghost old_r = r@;
            r.push(st);
            proof {
                assert(strings_view(r@) =~= strings_view(old_r).push(st@));
            }
        }
        k += 1;
    }
    assert(ps.take(ps.len() as int) =~= ps);
    r
}

/// Parses a `#id.role1.role2` shorthand.
pub fn parse_shorthand(s: &str) -> (r: (Option<String>, Vec<String>))
    ensures
        (opt_string_view(r.0), strings_view(r.1@)) == shorthand_of(s@),
{
    let v = chars_of(s);
    let n = v.len();
    if n > 0 && v[0] == '#' {
        let rest = slice_vec(v.as_slice(), 1, n);
        assert(rest@ =~= s@.skip(1));
        let dot = vec!['.'];
        assert(dot@ =~= seq!['.']);
        let end = match find_at(rest.as_slice(), dot.as_slice()) {
            Some(k) => k,
            None => rest.len(),
        };
        let id = if end > 0 {
            let piece = slice_vec(rest.as_slice(), 0, end);
            assert(piece@ =~= rest@.take(end as int));
            Some(string_of(piece.as_slice()))
        } else {
            None
        };
        let roles = nonempty_dot_pieces(rest.as_slice(), end, rest.len());
        assert(rest@.subrange(end as int, rest@.len() as int) =~= rest@.skip(end as int));
        (id, roles)
    } else {
        let roles = nonempty_dot_pieces(v.as_slice(), 0, n);
        assert(v@.subrange(0, n as int) =~= v@);
        (None, roles)
    }
}

/// The first attribute of an attrlist: its text up to the first `,`,
/// trimmed.
pub open spec fn first_attr_of(s: Seq<char>) -> Seq<char> {
    trim(split(s, seq![','])[0])
}

/// A quoted-text attrlist read as its first attribute: a `.role` / `#id`
/// shorthand, or else the whole attribute as a single role; `None` when it
/// yields neither id nor role.
pub open spec fn parse_attrs_of(s: Seq<char>) -> Option<(Option<Seq<char>>, Seq<Seq<char>>)> {
    let f = first_attr_of(s);
    if f.len() == 0 {
        None
    } else {
        let (id, roles) = if f[0] == '.' || f[0] == '#' {
            shorthand_of(f)
        } else {
            (None, seq![f])
        };
        if id is None && roles.len() == 0 {
            None
        } else {
            Some((id, roles))
        }
    }
}

pub open spec fn parsed_attrs_view(r: Option<(Option<String>, Vec<String>)>) -> Option<
    (Option<Seq<char>>, Seq<Seq<char>>),
> {
    match r {
        Some((id, roles)) => Some((opt_string_view(id), strings_view(roles@))),
        None => None,
    }
}

/// Parses the `[attrlist]` of a quoted span into an optional id and roles.
pub fn parse_attrs(attr_content: &str) -> (r: Option<(Option<String>, Vec<String>)>)
    ensures
        parsed_attrs_view(r) == parse_attrs_of(attr_content@),
{
    let v = chars_of(attr_content);
    let comma = vec![','];
    assert(comma@ =~= seq![',']);
    let k = match find_at(v.as_slice(), comma.as_slice()) {
        Some(k) => k,
        None => v.len(),
    };
    proof {
        let sp = split(v@, seq![',']);
        match find(v@, seq![',']) {
            Some(i) => {
                assert(sp[0] == v@.take(i));
            },
            None => {
                assert(sp[0] == v@);
                assert(v@.take(v@.len() as int) =~= v@);
            },
        }
        assert(sp[0] =~= v@.subrange(0, k as int));
    }
    let (a, e) = trim_range(v.as_slice(), 0, k);
    if a == e {
        return None;
    }
    let f = slice_vec(v.as_slice(), a, e);
    let fs = string_of(f.as_slice());
    let (id, roles) = if f[0] == '.' || f[0] == '#' {
        parse_shorthand(fs.as_str())
    } else {
        let mut roles: Vec<String> = Vec::new();
        let role = string_of(f.as_slice());
        roles.push(role);
        assert(strings_view(roles@) =~= seq![f@]);
        (None, roles)
    };
    if id.is_none() && roles.len() == 0 {
        return None;
    }
    Some((id, roles))
}

// ---------------------------------------------------------------------------
// Sentinels
// ---------------------------------------------------------------------------

/// Decimal text of `n`.
pub fn itoa(n: usize) -> (r: String)
    ensures
        r@ == nat_text(n as nat),
{
    let v = nat_chars(n as u64);
    string_of(v.as_slice())
}

/// The sentinel standing for tag `idx`: `TAG_LEAD`, the decimal index,
/// `TAG_TAIL`.
pub fn sentinel(idx: usize) -> (r: String)
    ensures
        r@ == seq![TAG_LEAD as char] + nat_text(idx as nat) + seq![TAG_TAIL as char],
{
    let mut v: Vec<char> = Vec::new();
    v.push(TAG_LEAD as char);
    let d = nat_chars(idx as u64);
    push_all(&mut v, d.as_slice());
    v.push(TAG_TAIL as char);
    assert(v@ =~= seq![TAG_LEAD as char] + nat_text(idx as nat) + seq![TAG_TAIL as char]);
    string_of(v.as_slice())
}

// ---------------------------------------------------------------------------
// Attribute references and inline assignments
// ---------------------------------------------------------------------------

pub const BANG: u8 = 0x21;

/// An ASCII byte (or the end) of valid UTF-8 starts a character.
pub proof fn lemma_ascii_boundary(b: Seq<u8>, k: int)
    requires
        valid_utf8(b),
        0 <= k <= b.len(),
        k == b.len() || b[k] < 0x80,
    ensures
        is_char_boundary(b, k),
{
    if k == b.len() {
        is_char_boundary_start_end_of_seq(b);
    } else {
        is_char_boundary_iff_not_is_continuation_byte(b, k);
    }
}

/// In valid UTF-8 a character starts right after an ASCII byte.
pub proof fn lemma_after_ascii_boundary(b: Seq<u8>, k: int)
    requires
        valid_utf8(b),
        0 <= k < b.len(),
        b[k] < 0x80,
    ensures
        is_char_boundary(b, k + 1),
{
    if k + 1 == b.len() {
        is_char_boundary_start_end_of_seq(b);
    } else {
        lemma_ascii_boundary(b, k);
        valid_utf8_split(b, k);
        let s = b.subrange(k, b.len() as int);
        assert(valid_utf8(s));
        assert(s[0] == b[k]);
        assert(pop_first_scalar(s) =~= b.subrange(k + 1, b.len() as int));
        let t = b.subrange(k + 1, b.len() as int);
        assert(valid_utf8(t));
        assert(t[0] == b[k + 1]);
        is_char_boundary_iff_not_is_continuation_byte(b, k + 1);
    }
}

/// Bytes `a..e` of `s`, both on char boundaries, as a string slice.
pub fn cut<'a>(s: &'a str, a: usize, e: usize) -> (r: &'a str)
    requires
        a <= e <= s.spec_bytes().len(),
        is_char_boundary(s.spec_bytes(), a as int),
        is_char_boundary(s.spec_bytes(), e as int),
    ensures
        r.spec_bytes() == s.spec_bytes().subrange(a as int, e as int),
        r@ == decode_utf8(s.spec_bytes().subrange(a as int, e as int)),
{
    let (head, _) = s.split_at(e);
    proof {
        let b = s.spec_bytes();
        let h = head.spec_bytes();
        encode_utf8_valid_utf8(head@);
        encode_utf8_valid_utf8(s@);
        if a == e {
            is_char_boundary_start_end_of_seq(h);
        } else if a == 0 {
            is_char_boundary_start_end_of_seq(h);
        } else {
            is_char_boundary_iff_not_is_continuation_byte(b, a as int);
            assert(h[a as int] == b[a as int]);
            is_char_boundary_iff_not_is_continuation_byte(h, a as int);
        }
    }
    let (_, mid) = head.split_at(a);
    proof {
        encode_utf8_decode_utf8(mid@);
        assert(mid.spec_bytes() =~= s.spec_bytes().subrange(a as int, e as int));
    }
    mid
}

/// What an extracted `{…}` becomes.
pub enum Extracted {
    /// An attribute reference, with the `[…]` (and the path before it) that
    /// directly follows it, if any.
    Ref { name: String, trailing: Option<String> },
    /// An inline assignment `{set:name:value}`; an unset `{set:name!}` has
    /// the name `!name` and an empty value.
    Assign { name: String, value: String },
}

/// The name and value of a `{set:…}` whose text after `set:` is `sb`:
/// `name!` unsets (name `!name`), `name:value` and `name` (empty value)
/// assign; `None` for an invalid name.
pub open spec fn set_extract_of(sb: Seq<u8>) -> Option<(Seq<char>, Seq<char>)> {
    let n = sb.len();
    if n > 0 && sb[n - 1] == BANG {
        if valid_attr_name_spec(sb.take(n - 1)) {
            Some((seq!['!'] + decode_utf8(sb.take(n - 1)), Seq::empty()))
        } else {
            None
        }
    } else {
        match next_byte(sb, COLON, 0) {
            Some(k) => if valid_attr_name_spec(sb.take(k)) {
                Some((decode_utf8(sb.take(k)), decode_utf8(sb.skip(k + 1))))
            } else {
                None
            },
            None => if valid_attr_name_spec(sb) {
                Some((decode_utf8(sb), Seq::empty()))
            } else {
                None
            },
        }
    }
}

pub open spec fn set_result_is(r: Option<(Extracted, usize)>, sb: Seq<u8>, end: int) -> bool {
    match set_extract_of(sb) {
        Some((nm, v)) => r matches Some((Extracted::Assign { name, value }, e)) && name@ == nm
            && value@ == v && e == end,
        None => r is None,
    }
}

/// `{set:…}`: `set_rest` is the text after `set:`, the `{` is at `i` and its
/// `}` at `i + 1 + close`; the span ends past the `}`.
pub fn try_set(set_rest: &str, i: usize, close: usize) -> (r: Option<(Extracted, usize)>)
    requires
        i + close + 2 <= usize::MAX,
    ensures
        set_result_is(r, set_rest.spec_bytes(), i + close + 2),
{
    let end = i + 1 + close + 1;
    let b = set_rest.as_bytes();
    let n = b.len();
    let ghost sb = set_rest.spec_bytes();
    proof {
        encode_utf8_valid_utf8(set_rest@);
    }
    if n > 0 && b[n - 1] == BANG {
        proof {
            lemma_ascii_boundary(sb, n - 1);
            is_char_boundary_start_end_of_seq(sb);
        }
        let name = cut(set_rest, 0, n - 1);
        assert(sb.subrange(0, n - 1) =~= sb.take(n - 1));
        if !is_valid_attr_name(name) {
            return None;
        }
        let mut v: Vec<char> = vec!['!'];
        let nc = chars_of(name);
        push_all(&mut v, nc.as_slice());
        assert(v@ =~= seq!['!'] + name@);
        let full = string_of(v.as_slice());
        return Some((Extracted::Assign { name: full, value: String::new() }, end));
    }
    proof {
        lemma_next_byte(sb, COLON, 0);
    }
    let mut k: usize = 0;
    while k < n && b[k] != COLON
        invariant
            n == b@.len(),
            b@ == sb,
            k <= n,
            next_byte(sb, COLON, 0) == next_byte(sb, COLON, k as int),
        decreases n - k,
    {
        k += 1;
    }
    proof {
        is_char_boundary_start_end_of_seq(sb);
        lemma_ascii_boundary(sb, k as int);
    }
    let name = cut(set_rest, 0, k);
    assert(sb.subrange(0, k as int) =~= sb.take(k as int));
    if !is_valid_attr_name(name) {
        return None;
    }
    let value = if k < n {
        proof {
            lemma_after_ascii_boundary(sb, k as int);
        }
        let vs = cut(set_rest, k + 1, n);
        assert(sb.subrange(k + 1, n as int) =~= sb.skip(k + 1));
        vs.to_owned()
    } else {
        assert(sb.take(k as int) =~= sb);
        String::new()
    };
    Some((Extracted::Assign { name: name.to_owned(), value }, end))
}

/// `set:`, as bytes.
pub open spec fn set_prefix_bytes() -> Seq<u8> {
    seq![0x73u8, 0x65u8, 0x74u8, 0x3Au8]
}

/// End of the path segment starting at `j`: bytes other than `[`, `]` and
/// ASCII whitespace.
pub open spec fn path_end(b: Seq<u8>, j: int) -> int
    decreases b.len() - j,
{
    if 0 <= j < b.len() && b[j] != LBRACK && b[j] != RBRACK && !is_ascii_ws_byte(b[j]) {
        path_end(b, j + 1)
    } else {
        j
    }
}

/// End (past the `]`) of the `[…]` captured after a reference whose `}` is
/// at `c`: after an optional path segment, a `[` that does not open `[[`,
/// through the next `]`.
pub open spec fn trailing_end(b: Seq<u8>, c: int) -> Option<int> {
    let q = path_end(b, c + 1);
    if q < b.len() && b[q] == LBRACK && !(q + 1 < b.len() && b[q + 1] == LBRACK) {
        match next_byte(b, RBRACK, q) {
            Some(rb) => Some(rb + 1),
            None => None,
        }
    } else {
        None
    }
}

/// What `try_attr` finds at the `{` at `i`: nothing unless `i + 1` is a char
/// boundary and a `}` follows; a `{set:…}` assignment; or a reference whose
/// name is a valid attribute name, with its trailing `[…]`.
pub open spec fn attr_result_is(r: Option<(Extracted, usize)>, b: Seq<u8>, i: int) -> bool {
    if !is_char_boundary(b, i + 1) {
        r is None
    } else {
        match next_byte(b, RBRACE, i + 1) {
            None => r is None,
            Some(c) => if bytes_at(b.subrange(i + 1, c), set_prefix_bytes(), 0) {
                set_result_is(r, b.subrange(i + 5, c), c + 1)
            } else if !valid_attr_name_spec(b.subrange(i + 1, c)) {
                r is None
            } else {
                r matches Some((Extracted::Ref { name, trailing }, end)) && name@ == decode_utf8(
                    b.subrange(i + 1, c),
                ) && match trailing_end(b, c) {
                    Some(te) => trailing matches Some(t) && t@ == decode_utf8(b.subrange(c + 1, te))
                        && end == te,
                    None => trailing is None && end == c + 1,
                }
            },
        }
    }
}

/// At a `{` (byte `i`), an attribute reference or a `{set:…}` assignment:
/// the extracted item and the index just past the consumed text, or `None`
/// to leave the `{` literal.
pub fn try_attr(src: &str, i: usize) -> (r: Option<(Extracted, usize)>)
    requires
        i < usize::MAX,
    ensures
        attr_result_is(r, src.spec_bytes(), i as int),
{
    if !src.is_char_boundary(i + 1) {
        return None;
    }
    let b = src.as_bytes();
    let n = b.len();
    let ghost bs = src.spec_bytes();
    proof {
        encode_utf8_valid_utf8(src@);
        if i + 1 > n {
            assert(!is_char_boundary(bs, i + 1));
        }
        lemma_next_byte(bs, RBRACE, i + 1);
    }
    let mut c = i + 1;
    while c < n && b[c] != RBRACE
        invariant
            n == b@.len(),
            b@ == bs,
            i < c,
            next_byte(bs, RBRACE, i + 1) == next_byte(bs, RBRACE, c as int),
        decreases n - c,
    {
        c += 1;
    }
    if c >= n {
        return None;
    }
    let close = c - (i + 1);
    proof {
        lemma_ascii_boundary(bs, c as int);
    }
    if c - (i + 1) >= 4 && b[i + 1] == 0x73 && b[i + 2] == 0x65 && b[i + 3] == 0x74 && b[i + 4]
        == 0x3A {
        assert(bytes_at(bs.subrange(i + 1, c as int), set_prefix_bytes(), 0)) by {
            assert(bs.subrange(i + 1, c as int).subrange(0, 4) =~= set_prefix_bytes());
        }
        proof {
            lemma_after_ascii_boundary(bs, i + 4);
        }
        let set_rest = cut(src, i + 5, c);
        return try_set(set_rest, i, close);
    }
    assert(!bytes_at(bs.subrange(i + 1, c as int), set_prefix_bytes(), 0)) by {
        if bytes_at(bs.subrange(i + 1, c as int), set_prefix_bytes(), 0) {
            assert(bs.subrange(i + 1, c as int).subrange(0, 4) == set_prefix_bytes());
            assert(bs[i + 1] == bs.subrange(i + 1, c as int).subrange(0, 4)[0]);
            assert(bs[i + 2] == bs.subrange(i + 1, c as int).subrange(0, 4)[1]);
            assert(bs[i + 3] == bs.subrange(i + 1, c as int).subrange(0, 4)[2]);
            assert(bs[i + 4] == bs.subrange(i + 1, c as int).subrange(0, 4)[3]);
        }
    }
    let content = cut(src, i + 1, c);
    if !is_valid_attr_name(content) {
        return None;
    }
    let after_brace = c + 1;
    let mut q = after_brace;
    while q < n && b[q] != LBRACK && b[q] != RBRACK && !is_ascii_ws(b[q])
        invariant
            n == b@.len(),
            b@ == bs,
            after_brace <= q,
            path_end(bs, after_brace as int) == path_end(bs, q as int),
        decreases n - q,
    {
        q += 1;
    }
    let mut end = after_brace;
    let mut trailing: Option<String> = None;
    if q < n && b[q] == LBRACK && !(q + 1 < n && b[q + 1] == LBRACK) {
        proof {
            lemma_next_byte(bs, RBRACK, q as int);
        }
        let mut rb = q;
        while rb < n && b[rb] != RBRACK
            invariant
                n == b@.len(),
                b@ == bs,
                q <= rb,
                next_byte(bs, RBRACK, q as int) == next_byte(bs, RBRACK, rb as int),
            decreases n - rb,
        {
            rb += 1;
        }
        if rb < n {
            proof {
                lemma_after_ascii_boundary(bs, c as int);
                lemma_after_ascii_boundary(bs, rb as int);
            }
            let t = cut(src, after_brace, rb + 1);
            trailing = Some(t.to_owned());
            end = rb + 1;
        }
    }
    Some((Extracted::Ref { name: content.to_owned(), trailing }, end))
}

/// A `\MM…MM` doubled-marker escape whose first backslash is at `i`: the
/// position of the closing marker pair, for `**`, `__`, `##` or doubled
/// backticks with non-empty content.
pub open spec fn doubled_marker_close_of(b: Seq<u8>, i: int, quotes_on: bool) -> Option<int> {
    if !quotes_on || !(i + 2 < b.len()) {
        None
    } else {
        let m = b[i + 2];
        if !(m == 0x2A || m == UNDERSCORE || m == HASH || m == BACKTICK) || !(i + 3 < b.len() && b[i
            + 3] == m) {
            None
        } else {
            match unconstrained_close_from(b, m, i + 4) {
                Some(cp) => if cp <= i + 4 {
                    None
                } else {
                    Some(cp)
                },
                None => None,
            }
        }
    }
}

/// `\MM…MM` escape at `i` (gated on the quotes substitution): the bytes
/// consumed from `i`, the open pair, the content and the close pair.
pub fn doubled_marker_escape<'b>(old: &'b str, bytes: &[u8], i: usize, quotes_on: bool) -> (r:
    Option<(usize, &'b str, &'b str, &'b str)>)
    requires
        bytes@ == old.spec_bytes(),
        i + 2 <= usize::MAX,
    ensures
        match doubled_marker_close_of(bytes@, i as int, quotes_on) {
            Some(cp) => r matches Some((len, open, content, close)) && len == cp + 2 - i
                && open@ == decode_utf8(bytes@.subrange(i + 2, i + 4)) && content@ == decode_utf8(
                bytes@.subrange(i + 4, cp),
            ) && close@ == decode_utf8(bytes@.subrange(cp, cp + 2)),
            None => r is None,
        },
{
    if !quotes_on {
        return None;
    }
    let n = bytes.len();
    if i + 2 >= n {
        return None;
    }
    let marker = bytes[i + 2];
    if !(marker == 0x2A || marker == UNDERSCORE || marker == HASH || marker == BACKTICK) || !(i + 3
        < n && bytes[i + 3] == marker) {
        return None;
    }
    let content_start = i + 4;
    let close_pos = match find_closing_unconstrained(bytes, marker, content_start) {
        Some(cp) => cp,
        None => {
            return None;
        },
    };
    if close_pos <= content_start {
        return None;
    }
    proof {
        let b = old.spec_bytes();
        encode_utf8_valid_utf8(old@);
        lemma_ascii_boundary(b, i + 2);
        lemma_after_ascii_boundary(b, i + 3);
        lemma_ascii_boundary(b, close_pos as int);
        lemma_after_ascii_boundary(b, close_pos + 1);
    }
    let open = cut(old, i + 2, content_start);
    let content = cut(old, content_start, close_pos);
    let close = cut(old, close_pos, close_pos + 2);
    Some((close_pos + 2 - i, open, content, close))
}

/// Decimal value of a run of ASCII digit bytes.
pub open spec fn byte_digits_value(d: Seq<u8>) -> int
    decreases d.len(),
{
    if d.len() == 0 {
        0
    } else {
        byte_digits_value(d.drop_last()) * 10 + (d.last() - 0x30)
    }
}

pub proof fn lemma_byte_digits_prefix(d: Seq<u8>, k: int)
    requires
        0 <= k <= d.len(),
        forall|t: int| 0 <= t < d.len() ==> is_digit_byte(#[trigger] d[t]),
    ensures
        0 <= byte_digits_value(d.take(k)) <= byte_digits_value(d),
    decreases d.len(),
{
    if d.len() > 0 {
        if k == d.len() {
            assert(d.take(k) =~= d);
            lemma_byte_digits_prefix(d.drop_last(), k - 1);
            assert(d.drop_last().take(k - 1) =~= d.drop_last());
        } else {
            lemma_byte_digits_prefix(d.drop_last(), k);
            assert(d.drop_last().take(k) =~= d.take(k));
            lemma_byte_digits_prefix(d.drop_last(), d.len() - 1);
            assert(d.drop_last().take(d.len() - 1) =~= d.drop_last());
        }
    }
}

/// Scanning left from `j` over digits: the index of the `TAG_LEAD` that
/// opens them, if that is what comes first.
pub open spec fn lead_before(b: Seq<u8>, j: int) -> Option<int>
    decreases j + 1,
{
    if j < 0 || j >= b.len() {
        None
    } else if b[j] == TAG_LEAD {
        Some(j)
    } else if is_digit_byte(b[j]) {
        lead_before(b, j - 1)
    } else {
        None
    }
}

pub proof fn lemma_lead_before(b: Seq<u8>, j: int)
    ensures
        lead_before(b, j) matches Some(l) ==> 0 <= l <= j < b.len() && b[l] == TAG_LEAD && forall|
            t: int,
        | l < t <= j ==> is_digit_byte(#[trigger] b[t]),
    decreases j + 1,
{
    if 0 <= j < b.len() && b[j] != TAG_LEAD && is_digit_byte(b[j]) {
        lemma_lead_before(b, j - 1);
    }
}

/// The tag index of a complete sentinel `TAG_LEAD <digits> TAG_TAIL` ending
/// right before `i`.
pub open spec fn sentinel_index_before_of(b: Seq<u8>, i: int) -> Option<int> {
    if i <= 0 || i > b.len() || b[i - 1] != TAG_TAIL {
        None
    } else {
        match lead_before(b, i - 2) {
            Some(l) => if l + 1 == i - 1 {
                None
            } else {
                Some(byte_digits_value(b.subrange(l + 1, i - 1)))
            },
            None => None,
        }
    }
}

/// If `i` directly follows a complete sentinel, that sentinel's tag index.
pub fn sentinel_index_before(bytes: &[u8], i: usize) -> (r: Option<usize>)
    requires
        i <= bytes@.len(),
        sentinel_index_before_of(bytes@, i as int) matches Some(v) ==> v <= usize::MAX,
    ensures
        int_opt(r) == sentinel_index_before_of(bytes@, i as int),
{
    if i == 0 || bytes[i - 1] != TAG_TAIL {
        return None;
    }
    let tail = i - 1;
    proof {
        lemma_lead_before(bytes@, tail - 1);
    }
    let mut j = tail;
    loop
        invariant
            tail + 1 == i <= bytes@.len(),
            bytes@[tail as int] == TAG_TAIL,
            j <= tail,
            sentinel_index_before_of(bytes@, i as int) matches Some(v) ==> v <= usize::MAX,
            lead_before(bytes@, tail - 1) == lead_before(bytes@, j - 1),
            forall|t: int| j <= t < tail ==> is_digit_byte(#[trigger] bytes@[t]),
        decreases j,
    {
        if j == 0 {
            return None;
        }
        j -= 1;
        let d = bytes[j];
        if d == TAG_LEAD {
            if j + 1 == tail {
                return None;
            }
            let ghost digits = bytes@.subrange(j + 1, tail as int);
            let mut idx: usize = 0;
            let mut k = j + 1;
            while k < tail
                invariant
                    j + 1 <= k <= tail < bytes@.len(),
                    digits == bytes@.subrange(j + 1, tail as int),
                    forall|t: int| 0 <= t < digits.len() ==> is_digit_byte(#[trigger] digits[t]),
                    byte_digits_value(digits) <= usize::MAX,
                    idx == byte_digits_value(digits.take(k - (j + 1))),
                decreases tail - k,
            {
                proof {
                    lemma_byte_digits_prefix(digits, k - j);
                    assert(digits.take(k - j).drop_last() =~= digits.take(k - (j + 1)));
                    assert(digits.take(k - j).last() == bytes@[k as int]);
                }
                idx = idx * 10 + (bytes[k] - 0x30) as usize;
                k += 1;
            }
            assert(digits.take(digits.len() as int) =~= digits);
            return Some(idx);
        }
        if !(0x30 <= d && d <= 0x39) {
            return None;
        }
    }
}

/// The decimal digits of `n` as ASCII bytes.
pub open spec fn decimal_bytes(n: nat) -> Seq<u8> {
    nat_text(n).map_values(|c: char| c as u8)
}

proof fn lemma_digit_char(d: int)
    requires
        0 <= d <= 9,
    ensures
        digit_char(d) as u32 == d + 0x30,
        digit_char(d) as u8 == d + 0x30,
        digit_char(d) as nat == d + 0x30,
{
}

proof fn lemma_decimal_bytes(n: nat)
    ensures
        nat_text(n).len() >= 1,
        forall|k: int| 0 <= k < nat_text(n).len() ==> 0x30 <= (#[trigger] nat_text(n)[k]) as u32 <= 0x39,
        forall|k: int| 0 <= k < nat_text(n).len() ==> 0x30 <= (#[trigger] nat_text(n)[k]) as nat <= 0x39,
        forall|k: int| 0 <= k < nat_text(n).len() ==> (#[trigger] nat_text(n)[k]) as u8 == nat_text(n)[k] as u32,
        byte_digits_value(decimal_bytes(n)) == n,
    decreases n,
{
    if n < 10 {
        lemma_digit_char(n as int);
        assert(decimal_bytes(n) =~= seq![(n + 0x30) as u8]);
        assert(decimal_bytes(n).drop_last() =~= Seq::<u8>::empty());
        assert(byte_digits_value(Seq::<u8>::empty()) == 0);
        assert(decimal_bytes(n).last() == (n + 0x30) as u8);
    } else {
        lemma_decimal_bytes(n / 10);
        let d = (n % 10) as int;
        lemma_digit_char(d);
        assert(decimal_bytes(n) =~= decimal_bytes(n / 10).push((d + 0x30) as u8));
        assert(decimal_bytes(n).drop_last() =~= decimal_bytes(n / 10));
        assert(decimal_bytes(n).last() == (d + 0x30) as u8);
        assert((n / 10) * 10 + n % 10 == n) by (nonlinear_arith);
        assert(byte_digits_value(decimal_bytes(n)) == byte_digits_value(decimal_bytes(n / 10)) * 10
            + d);
    }
}

proof fn lemma_char_floor(c: char)
    ensures
        '\0' <= c,
{
}

proof fn lemma_lead_over_digits(b: Seq<u8>, p: int, j: int)
    requires
        0 <= p <= j < b.len(),
        b[p] == TAG_LEAD,
        forall|t: int| p < t <= j ==> is_digit_byte(#[trigger] b[t]),
    ensures
        lead_before(b, j) == Some(p),
    decreases j - p,
{
    if j > p {
        lemma_lead_over_digits(b, p, j - 1);
    }
}

/// Reading a sentinel back gives the index it was written with: after the
/// bytes of `TAG_LEAD`, the decimal text of `idx` and `TAG_TAIL` (the text
/// that `sentinel` writes), whatever comes before, the tag index found is
/// `idx`.
pub proof fn law_sentinel_index_round_trip(pre: Seq<u8>, idx: nat)
    ensures
        ({
            let b = pre + vstd::utf8::encode_utf8(
                seq![TAG_LEAD as char] + nat_text(idx) + seq![TAG_TAIL as char],
            );
            sentinel_index_before_of(b, b.len() as int) == Some(idx as int)
        }),
{
    let t = seq![TAG_LEAD as char] + nat_text(idx) + seq![TAG_TAIL as char];
    lemma_decimal_bytes(idx);
    let m = nat_text(idx).len() as int;
    assert(vstd::utf8::is_ascii_chars(t)) by {
        assert forall|i: int| 0 <= i < t.len() implies '\0' <= #[trigger] t[i] <= '\u{7f}' by {
            lemma_char_floor(t[i]);
            if 1 <= i <= m {
                assert(t[i] == nat_text(idx)[i - 1]);
                assert((t[i] as nat) <= 0x39);
            } else if i == 0 {
                assert((TAG_LEAD as char) as nat == 1);
            } else {
                assert((TAG_TAIL as char) as nat == 2);
            }
        }
    }
    vstd::utf8::is_ascii_chars_encode_utf8(t);
    let e = vstd::utf8::encode_utf8(t);
    let b = pre + e;
    let p = pre.len() as int;
    assert(b.len() == p + m + 2);
    assert(b[p] == TAG_LEAD) by {
        assert(b[p] == e[0]);
        assert(t[0] as u8 == e[0]);
    }
    assert(b[p + m + 1] == TAG_TAIL) by {
        assert(b[p + m + 1] == e[m + 1]);
        assert(t[m + 1] as u8 == e[m + 1]);
    }
    assert forall|k: int| 0 <= k < m implies b[p + 1 + k] == decimal_bytes(idx)[k] by {
        assert(b[p + 1 + k] == e[1 + k]);
        assert(t[1 + k] as u8 == e[1 + k]);
        assert(t[1 + k] == nat_text(idx)[k]);
    }
    assert(b.subrange(p + 1, p + m + 1) =~= decimal_bytes(idx));
    assert forall|x: int| p < x <= p + m implies is_digit_byte(#[trigger] b[x]) by {
        assert(b[x] == decimal_bytes(idx)[x - p - 1]);
        assert(nat_text(idx)[x - p - 1] as u8 == nat_text(idx)[x - p - 1] as u32);
    }
    lemma_lead_over_digits(b, p, p + m);
}

// ---------------------------------------------------------------------------
// Passthroughs
// ---------------------------------------------------------------------------

/// One restored fragment of an extracted passthrough: `raw` text is passed
/// through verbatim, other text is escaped.
#[derive(Debug, PartialEq, Eq)]
pub struct PassPiece {
    pub text: String,
    pub raw: bool,
}

pub open spec fn pieces_view(v: Seq<PassPiece>) -> Seq<(Seq<char>, bool)> {
    v.map_values(|p: PassPiece| (p.text@, p.raw))
}

pub open spec fn pass_result_view(r: Option<(Vec<PassPiece>, usize)>) -> Option<
    (Seq<(Seq<char>, bool)>, int),
> {
    match r {
        Some((v, e)) => Some((pieces_view(v@), e as int)),
        None => None,
    }
}

/// `+++text+++` opening at `i`: the raw text up to the first `+++` after
/// the opening one (non-empty), and the index past the close.
pub open spec fn triple_plus_of(b: Seq<u8>, i: int) -> Option<(Seq<(Seq<char>, bool)>, int)> {
    let a = i + 3;
    if !is_char_boundary(b, a) {
        None
    } else {
        match find(byte_text(b.skip(a)), seq!['+', '+', '+']) {
            Some(k) => if k == 0 {
                None
            } else {
                Some((seq![(decode_utf8(b.subrange(a, a + k)), true)], a + k + 3))
            },
            None => None,
        }
    }
}

/// `++text++` opening at `i`: the escaped text up to the first `++` after
/// the opening one (no piece when empty), and the index past the close.
pub open spec fn double_plus_of(b: Seq<u8>, i: int) -> Option<(Seq<(Seq<char>, bool)>, int)> {
    let a = i + 2;
    if !is_char_boundary(b, a) {
        None
    } else {
        match find(byte_text(b.skip(a)), seq!['+', '+']) {
            Some(k) => Some(
                (
                    if k == 0 {
                        Seq::empty()
                    } else {
                        seq![(decode_utf8(b.subrange(a, a + k)), false)]
                    },
                    a + k + 2,
                ),
            ),
            None => None,
        }
    }
}

/// The text of `s` from byte `a` (a char boundary) up to the first
/// occurrence of the ASCII pattern `pat`: its offset from `a` and the text.
fn text_until<'a>(s: &'a str, a: usize, pat: &[char]) -> (r: Option<(usize, &'a str)>)
    requires
        is_char_boundary(s.spec_bytes(), a as int),
        pat@.len() > 0,
        forall|j: int| 0 <= j < pat@.len() ==> (#[trigger] pat@[j] as u32) < 0x80,
    ensures
        match find(byte_text(s.spec_bytes().skip(a as int)), pat@) {
            Some(k) => r matches Some((k2, t)) && k2 == k && a + k + pat@.len() <= s.spec_bytes().len()
                && t@ == decode_utf8(s.spec_bytes().subrange(a as int, a + k)),
            None => r is None,
        },
{
    proof {
        encode_utf8_valid_utf8(s@);
        if a > s.spec_bytes().len() {
            assert(!is_char_boundary(s.spec_bytes(), a as int));
        }
    }
    let (_, rest) = s.split_at(a);
    let rb = rest.as_bytes();
    assert(rb@ =~= s.spec_bytes().skip(a as int));
    let t = byte_chars_of(rb);
    match find_at(t.as_slice(), pat) {
        Some(k) => {
            proof {
                encode_utf8_valid_utf8(rest@);
                is_char_boundary_start_end_of_seq(rb@);
                assert(byte_text(rb@).subrange(k as int, k + pat@.len()) == pat@);
                assert(byte_text(rb@)[k as int] == pat@[0]);
                assert(rb@[k as int] as char == pat@[0]);
                assert((rb@[k as int] as char) as u32 == rb@[k as int]);
                lemma_ascii_boundary(rb@, k as int);
            }
            let piece = cut(rest, 0, k);
            assert(rb@.subrange(0, k as int) =~= s.spec_bytes().subrange(a as int, a + k));
            Some((k, piece))
        },
        None => None,
    }
}

/// `+++text+++` at `i` (raw, no substitutions).
pub fn try_triple_plus(src: &str, i: usize) -> (r: Option<(Vec<PassPiece>, usize)>)
    requires
        i + 3 <= usize::MAX,
    ensures
        pass_result_view(r) == triple_plus_of(src.spec_bytes(), i as int),
{
    let a = i + 3;
    if !src.is_char_boundary(a) {
        return None;
    }
    let _len = src.as_bytes().len();
    let pat = vec!['+', '+', '+'];
    assert(pat@ =~= seq!['+', '+', '+']);
    match text_until(src, a, pat.as_slice()) {
        Some((k, inner)) => {
            if k == 0 {
                return None;
            }
            let mut v: Vec<PassPiece> = Vec::new();
            v.push(PassPiece { text: inner.to_owned(), raw: true });
            assert(pieces_view(v@) =~= seq![(inner@, true)]);
            Some((v, a + k + 3))
        },
        None => None,
    }
}

/// `++text++` at `i` (special characters escaped); empty content gives no
/// piece.
pub fn try_double_plus(src: &str, i: usize) -> (r: Option<(Vec<PassPiece>, usize)>)
    requires
        i + 2 <= usize::MAX,
    ensures
        pass_result_view(r) == double_plus_of(src.spec_bytes(), i as int),
{
    let a = i + 2;
    if !src.is_char_boundary(a) {
        return None;
    }
    let _len = src.as_bytes().len();
    let pat = vec!['+', '+'];
    assert(pat@ =~= seq!['+', '+']);
    match text_until(src, a, pat.as_slice()) {
        Some((k, inner)) => {
            let mut v: Vec<PassPiece> = Vec::new();
            if k > 0 {
                v.push(PassPiece { text: inner.to_owned(), raw: false });
                assert(pieces_view(v@) =~= seq![(inner@, false)]);
            } else {
                assert(pieces_view(v@) =~= Seq::<(Seq<char>, bool)>::empty());
            }
            Some((v, a + k + 2))
        },
        None => None,
    }
}

/// The bare `pass:[text]` macro at `i`: the raw text up to the first `]`,
/// and the index past it. A macro with a subs spec is not this form.
pub open spec fn bare_pass_macro_of(b: Seq<u8>, i: int) -> Option<(Seq<(Seq<char>, bool)>, int)> {
    if is_char_boundary(b, i) && bytes_at(b.skip(i), pass_prefix_bytes(), 0) && pass_spec_of(
        byte_text(b),
        i + 5,
    ) == Some(0int) {
        match next_byte(b, RBRACK, i + 5) {
            Some(k) => Some((seq![(decode_utf8(b.subrange(i + 6, k)), true)], k + 1)),
            None => None,
        }
    } else {
        None
    }
}

pub fn try_pass_macro(src: &str, i: usize) -> (r: Option<(Vec<PassPiece>, usize)>)
    ensures
        pass_result_view(r) == bare_pass_macro_of(src.spec_bytes(), i as int),
{
    if !src.is_char_boundary(i) {
        return None;
    }
    let ghost b = src.spec_bytes();
    proof {
        encode_utf8_valid_utf8(src@);
        if i > b.len() {
            assert(!is_char_boundary(b, i as int));
        }
    }
    let bytes = src.as_bytes();
    let n = bytes.len();
    let pre = vec![0x70u8, 0x61u8, 0x73u8, 0x73u8, 0x3Au8];
    assert(pre@ =~= pass_prefix_bytes());
    let (_, rest) = src.split_at(i);
    assert(rest.spec_bytes() =~= b.skip(i as int));
    if !bytes_match_at(rest.as_bytes(), pre.as_slice(), 0) {
        return None;
    }
    assert(b.skip(i as int).subrange(0, 5) =~= b.subrange(i as int, i + 5));
    match pass_spec_len(src, i + 5) {
        Some(sl) => {
            if sl != 0 {
                return None;
            }
        },
        None => {
            return None;
        },
    }
    proof {
        crate::pass::lemma_spec_end_bounds(byte_text(b), i + 5);
        assert(byte_text(b)[i + 5] == '[');
        assert(bytes@[i + 5] as char == '[');
        assert((bytes@[i + 5] as char) as u32 == bytes@[i + 5]);
        lemma_next_byte(b, RBRACK, i + 5);
    }
    let mut k = i + 5;
    while k < n && bytes[k] != RBRACK
        invariant
            n == bytes@.len(),
            bytes@ == b,
            i + 5 <= k,
            next_byte(b, RBRACK, i + 5) == next_byte(b, RBRACK, k as int),
        decreases n - k,
    {
        k += 1;
    }
    if k >= n {
        return None;
    }
    proof {
        assert(bytes@[i + 5] == LBRACK);
        lemma_after_ascii_boundary(b, i + 5);
        lemma_ascii_boundary(b, k as int);
    }
    let inner = cut(src, i + 6, k);
    let mut v: Vec<PassPiece> = Vec::new();
    v.push(PassPiece { text: inner.to_owned(), raw: true });
    assert(pieces_view(v@) =~= seq![(inner@, true)]);
    Some((v, k + 1))
}

} // verus!
