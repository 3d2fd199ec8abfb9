//! Table-cell syntax: cell specifiers (`2*`, `.3+`, `^.>`, style letters),
//! escaped separators, and the splitting of a PSV line into cells.

use vstd::prelude::*;
use vstd::string::StringSliceAdditionalSpecFns;
use crate::scanner::{CellStyle, HAlign, VAlign};
use crate::text::{
    all_digits, chars_of, digits_value, ends_with, ends_with_at, is_digit, is_ws,
    lemma_ends_with_char, lemma_starts_with_char, parse_uint, parse_uint_range, replace_all,
    replace_chars, rfind, rfind_at, rtrim, rtrim_len, slice_vec, starts_with, starts_with_at,
    string_of, trim, trim_end, trim_end_range, trim_range,
};

verus! {

// ---------------------------------------------------------------------------
// Escaped separators
// ---------------------------------------------------------------------------

/// The char with code `b` (Latin-1 reading of a byte).
pub open spec fn byte_char(b: u8) -> char {
    b as char
}

/// `\<sep>` becomes `<sep>`, left to right.
pub open spec fn unescape_of(s: Seq<char>, sep: char) -> Seq<char> {
    replace_all(s, seq!['\\', sep], seq![sep])
}

pub fn unescape_chars(s: &[char], sep: char) -> (r: Vec<char>)
    ensures
        r@ == unescape_of(s@, sep),
{
    let p = vec!['\\', sep];
    assert(p@ == seq!['\\', sep]);
    let q = vec![sep];
    assert(q@ == seq![sep]);
    replace_chars(s, p.as_slice(), q.as_slice())
}

/// A separator char immediately preceded by `\` is escaped: exactly one
/// backslash is consumed (`\|` becomes `|`).
pub fn unescape_cell_sep(s: &str, sep: u8) -> (r: String)
    ensures
        r@ == unescape_of(s@, byte_char(sep)),
{
    let v = chars_of(s);
    let c = sep as char;
    let u = unescape_chars(v.as_slice(), c);
    string_of(u.as_slice())
}

/// `s[i]` is `c` and not preceded by a backslash.
pub open spec fn is_usep(s: Seq<char>, c: char, i: int) -> bool {
    0 <= i < s.len() && s[i] == c && (i == 0 || s[i - 1] != '\\')
}

/// First unescaped separator at or after `i`.
pub open spec fn next_usep(s: Seq<char>, c: char, i: int) -> Option<int>
    decreases s.len() - i,
{
    if i < 0 || i >= s.len() {
        None
    } else if is_usep(s, c, i) {
        Some(i)
    } else {
        next_usep(s, c, i + 1)
    }
}

/// Pieces of `s[start..]` between unescaped separators.
pub open spec fn usplit_from(s: Seq<char>, c: char, start: int) -> Seq<Seq<char>>
    decreases s.len() - start,
{
    match next_usep(s, c, start) {
        Some(i) => if 0 <= start <= i < s.len() {
            seq![s.subrange(start, i)] + usplit_from(s, c, i + 1)
        } else {
            seq![s.skip(start)]
        },
        None => seq![s.skip(start)],
    }
}

pub proof fn lemma_next_usep_bounds(s: Seq<char>, c: char, i: int)
    requires
        0 <= i,
    ensures
        next_usep(s, c, i) matches Some(k) ==> i <= k < s.len() && is_usep(s, c, k),
    decreases s.len() - i,
{
    if i < s.len() && !is_usep(s, c, i) {
        lemma_next_usep_bounds(s, c, i + 1);
    }
}

fn find_unescaped_sep(s: &[char], c: char, i: usize) -> (r: Option<usize>)
    requires
        i <= s@.len(),
    ensures
        r matches Some(k) ==> next_usep(s@, c, i as int) == Some(k as int) && i <= k < s@.len(),
        r is None ==> next_usep(s@, c, i as int) is None,
{
    let n = s.len();
    let mut k = i;
    while k < n
        invariant
            n == s@.len(),
            i <= k <= n,
            next_usep(s@, c, i as int) == next_usep(s@, c, k as int),
        decreases n - k,
    {
        if s[k] == c && (k == 0 || s[k - 1] != '\\') {
            return Some(k);
        }
        k += 1;
    }
    None
}

/// Ranges of the pieces of `usplit_from(s, c, 0)`.
fn split_unescaped_sep(s: &[char], c: char) -> (r: Vec<(usize, usize)>)
    ensures
        r@.len() == usplit_from(s@, c, 0).len(),
        forall|k: int|
            0 <= k < r@.len() ==> {
                &&& (#[trigger] r@[k]).0 <= r@[k].1 <= s@.len()
                &&& s@.subrange(r@[k].0 as int, r@[k].1 as int) == usplit_from(s@, c, 0)[k]
            },
{
    let n = s.len();
    let mut r: Vec<(usize, usize)> = Vec::new();
    let mut start: usize = 0;
    let ghost mut pieces: Seq<Seq<char>> = Seq::empty();
    assert(pieces + usplit_from(s@, c, 0) =~= usplit_from(s@, c, 0));
    loop
        invariant
            n == s@.len(),
            start <= n,
            pieces.len() == r@.len(),
            forall|k: int|
                0 <= k < r@.len() ==> {
                    &&& (#[trigger] r@[k]).0 <= r@[k].1 <= s@.len()
                    &&& s@.subrange(r@[k].0 as int, r@[k].1 as int) == pieces[k]
                },
            usplit_from(s@, c, 0) == pieces + usplit_from(s@, c, start as int),
        decreases n - start,
    {
        match find_unescaped_sep(s, c, start) {
            Some(i) => {
                proof {
                    pieces = pieces.push(s@.subrange(start as int, i as int));
                    assert(usplit_from(s@, c, 0) =~= pieces + usplit_from(s@, c, i + 1));
                }
                r.push((start, i));
                start = i + 1;
            },
            None => {
                proof {
                    assert(s@.skip(start as int) =~= s@.subrange(start as int, n as int));
                    pieces = pieces.push(s@.skip(start as int));
                    assert(usplit_from(s@, c, 0) =~= pieces);
                }
                r.push((start, n));
                return r;
            },
        }
    }
}

// ---------------------------------------------------------------------------
// Cell specifier pieces
// ---------------------------------------------------------------------------

pub open spec fn halign_of(c: char) -> HAlign {
    if c == '^' {
        HAlign::Center
    } else if c == '>' {
        HAlign::Right
    } else {
        HAlign::Left
    }
}

pub open spec fn valign_of(c: char) -> VAlign {
    if c == '^' {
        VAlign::Middle
    } else if c == '>' {
        VAlign::Bottom
    } else {
        VAlign::Top
    }
}

pub open spec fn is_align_op(c: char) -> bool {
    c == '<' || c == '^' || c == '>'
}

/// Alignment prefix `[<^>]` then `.[<^>]`:
/// `(remaining, halign, valign, halign_explicit, valign_explicit)`.
pub open spec fn align_prefix_of(s: Seq<char>) -> (Seq<char>, HAlign, VAlign, bool, bool) {
    let he = s.len() > 0 && is_align_op(s[0]);
    let r1 = if he { s.skip(1) } else { s };
    let h = if he { halign_of(s[0]) } else { HAlign::Left };
    let ve = r1.len() > 1 && r1[0] == '.' && is_align_op(r1[1]);
    let r2 = if ve { r1.skip(2) } else { r1 };
    let v = if ve { valign_of(r1[1]) } else { VAlign::Top };
    (r2, h, v, he, ve)
}

fn halign_from(c: char) -> (h: HAlign)
    ensures
        h == halign_of(c),
{
    if c == '^' {
        HAlign::Center
    } else if c == '>' {
        HAlign::Right
    } else {
        HAlign::Left
    }
}

fn valign_from(c: char) -> (v: VAlign)
    ensures
        v == valign_of(c),
{
    if c == '^' {
        VAlign::Middle
    } else if c == '>' {
        VAlign::Bottom
    } else {
        VAlign::Top
    }
}

/// `align_prefix_of(s[a..b])`, with the remaining part's start.
fn align_prefix_chars(s: &[char], a: usize, b: usize) -> (r: (usize, HAlign, VAlign, bool, bool))
    requires
        a <= b <= s@.len(),
    ensures
        a <= r.0 <= b,
        align_prefix_of(s@.subrange(a as int, b as int)) == (
            s@.subrange(r.0 as int, b as int),
            r.1,
            r.2,
            r.3,
            r.4,
        ),
{
    let ghost t = s@.subrange(a as int, b as int);
    let mut p = a;
    let mut h = HAlign::Left;
    let mut he = false;
    if p < b && (s[p] == '<' || s[p] == '^' || s[p] == '>') {
        h = halign_from(s[p]);
        he = true;
        p = p + 1;
    }
    let ghost r1 = s@.subrange(p as int, b as int);
    assert(r1 =~= (if he { t.skip(1) } else { t }));
    let mut v = VAlign::Top;
    let mut ve = false;
    if p < b && p + 1 < b && s[p] == '.' && (s[p + 1] == '<' || s[p + 1] == '^' || s[p + 1] == '>') {
        v = valign_from(s[p + 1]);
        ve = true;
        p = p + 2;
    }
    assert(s@.subrange(p as int, b as int) =~= (if ve { r1.skip(2) } else { r1 }));
    (p, h, v, he, ve)
}

pub open spec fn align5_view(r: (&str, HAlign, VAlign, bool, bool)) -> (Seq<char>, HAlign, VAlign, bool, bool) {
    (r.0@, r.1, r.2, r.3, r.4)
}

/// Alignment prefix of a cell specifier.
pub fn parse_cell_align_prefix(s: &str) -> (r: (&str, HAlign, VAlign, bool, bool))
    ensures
        align5_view(r) == align_prefix_of(s@),
{
    let v = chars_of(s);
    let n = v.len();
    let (p, h, va, he, ve) = align_prefix_chars(v.as_slice(), 0, n);
    assert(v@.subrange(0, n as int) =~= v@);
    (s.substring_char(p, n), h, va, he, ve)
}

/// Alignment suffix at the end of a segment (after its trailing whitespace
/// is set aside): `.[<^>]` then `[<^>]` read from the end, accepted only at
/// the start of the segment or after a space. On success the remaining
/// content is the trimmed segment before the operators.
pub open spec fn align_suffix_of(s: Seq<char>) -> (Seq<char>, HAlign, VAlign, bool, bool) {
    let t = trim_end(s);
    let n = t.len() as int;
    let none = (s, HAlign::Left, VAlign::Top, false, false);
    if n == 0 {
        none
    } else {
        let ve = n >= 2 && t[n - 2] == '.' && is_align_op(t[n - 1]);
        let e1 = if ve { n - 2 } else { n };
        let v = if ve { valign_of(t[n - 1]) } else { VAlign::Top };
        let he = e1 >= 1 && is_align_op(t[e1 - 1]);
        let e2 = if he { e1 - 1 } else { e1 };
        let h = if he { halign_of(t[e1 - 1]) } else { HAlign::Left };
        if (he || ve) && (e2 == 0 || t[e2 - 1] == ' ') {
            (t.take(e2), h, v, he, ve)
        } else {
            none
        }
    }
}

/// `align_suffix_of(s[0..b])`, with the end of the remaining content.
fn align_suffix_chars(s: &[char], b: usize) -> (r: (usize, HAlign, VAlign, bool, bool))
    requires
        b <= s@.len(),
    ensures
        r.0 <= b,
        align_suffix_of(s@.take(b as int)) == (s@.take(r.0 as int), r.1, r.2, r.3, r.4),
{
    let ghost w = s@.take(b as int);
    let n = trim_end_range(s, 0, b);
    assert(s@.subrange(0, b as int) =~= w);
    assert(s@.subrange(0, n as int) =~= s@.take(n as int));
    if n == 0 {
        return (b, HAlign::Left, VAlign::Top, false, false);
    }
    let mut e = n;
    let mut v = VAlign::Top;
    let mut ve = false;
    if n >= 2 && s[n - 2] == '.' && (s[n - 1] == '<' || s[n - 1] == '^' || s[n - 1] == '>') {
        v = valign_from(s[n - 1]);
        ve = true;
        e = n - 2;
    }
    let mut h = HAlign::Left;
    let mut he = false;
    if e >= 1 && (s[e - 1] == '<' || s[e - 1] == '^' || s[e - 1] == '>') {
        h = halign_from(s[e - 1]);
        he = true;
        e = e - 1;
    }
    if (he || ve) && (e == 0 || s[e - 1] == ' ') {
        assert(s@.take(n as int).take(e as int) =~= s@.take(e as int));
        (e, h, v, he, ve)
    } else {
        (b, HAlign::Left, VAlign::Top, false, false)
    }
}

/// Alignment suffix of a segment.
pub fn parse_cell_align_suffix(s: &str) -> (r: (&str, HAlign, VAlign, bool, bool))
    ensures
        align5_view(r) == align_suffix_of(s@),
{
    let v = chars_of(s);
    let n = v.len();
    let (e, h, va, he, ve) = align_suffix_chars(v.as_slice(), n);
    assert(v@.take(n as int) =~= v@);
    (s.substring_char(0, e), h, va, he, ve)
}

/// Number of trailing ASCII digits of `s`.
pub open spec fn trail_digits(s: Seq<char>) -> int
    decreases s.len(),
{
    if s.len() > 0 && is_digit(s.last()) {
        1 + trail_digits(s.drop_last())
    } else {
        0
    }
}

pub proof fn lemma_trail_digits(s: Seq<char>)
    ensures
        0 <= trail_digits(s) <= s.len(),
        all_digits(s.skip(s.len() - trail_digits(s))),
        trail_digits(s) < s.len() ==> !is_digit(s[s.len() - trail_digits(s) - 1]),
    decreases s.len(),
{
    if s.len() > 0 && is_digit(s.last()) {
        lemma_trail_digits(s.drop_last());
        let k = trail_digits(s.drop_last());
        assert forall|j: int| 0 <= j < s.skip(s.len() - trail_digits(s)).len() implies is_digit(
            #[trigger] s.skip(s.len() - trail_digits(s))[j],
        ) by {
            if j < k {
                assert(s.skip(s.len() - trail_digits(s))[j] == s.drop_last().skip(
                    s.len() - 1 - k,
                )[j]);
            }
        }
    }
}

fn trail_digits_at(s: &[char], b: usize) -> (r: usize)
    requires
        b <= s@.len(),
    ensures
        r == trail_digits(s@.take(b as int)),
        r <= b,
{
    let mut k = b;
    while k > 0 && is_ascii_digit_local(s[k - 1])
        invariant
            k <= b <= s@.len(),
            trail_digits(s@.take(b as int)) == (b - k) + trail_digits(s@.take(k as int)),
        decreases k,
    {
        assert(s@.take(k as int).drop_last() =~= s@.take(k - 1));
        k -= 1;
    }
    b - k
}

fn is_ascii_digit_local(c: char) -> (b: bool)
    ensures
        b == is_digit(c),
{
    '0' <= c && c <= '9'
}

/// `max(v, 1)` of a parsed `u8`, or 1 when the parse fails.
pub open spec fn u8_or_one(s: Seq<char>) -> u8 {
    match parse_uint(s, 255) {
        Some(v) => if v >= 1 { v as u8 } else { 1u8 },
        None => 1u8,
    }
}

fn u8_or_one_at(s: &[char], a: usize, b: usize) -> (r: u8)
    requires
        a <= b <= s@.len(),
    ensures
        r == u8_or_one(s@.subrange(a as int, b as int)),
{
    match parse_uint_range(s, a, b, 255) {
        Some(v) => if v >= 1 {
            v as u8
        } else {
            1
        },
        None => 1,
    }
}

/// Span modifier `(\d+)?(\.\d+)?\+` at the end of a segment:
/// `(remaining, colspan, rowspan)`.
pub open spec fn span_spec_of(s: Seq<char>) -> (Seq<char>, u8, u8) {
    let t = trim_end(s);
    let none = (s, 1u8, 1u8);
    if !ends_with(t, seq!['+']) {
        none
    } else {
        let rest = t.drop_last();
        let dotted = match rfind(rest, seq!['.']) {
            Some(d) => rest.skip(d + 1).len() > 0 && all_digits(rest.skip(d + 1)),
            None => false,
        };
        if dotted {
            let d = rfind(rest, seq!['.'])->0;
            let before = rest.take(d);
            let spec_start = d - trail_digits(before);
            let digits = before.skip(spec_start);
            let content = t.take(spec_start);
            let colspan = if digits.len() > 0 {
                u8_or_one(digits)
            } else {
                1u8
            };
            (trim_end(content), colspan, u8_or_one(rest.skip(d + 1)))
        } else {
            let spec_start = rest.len() - trail_digits(rest);
            let digits = rest.skip(spec_start);
            let content = t.take(spec_start);
            if digits.len() > 0 {
                (trim_end(content), u8_or_one(digits), 1u8)
            } else {
                none
            }
        }
    }
}

/// `span_spec_of(s[0..b])`: end of the remaining content, colspan, rowspan.
fn span_spec_chars(s: &[char], b: usize) -> (r: (usize, u8, u8))
    requires
        b <= s@.len(),
    ensures
        r.0 <= b,
        span_spec_of(s@.take(b as int)) == (s@.take(r.0 as int), r.1, r.2),
{
    let ghost w = s@.take(b as int);
    let tl = trim_end_range(s, 0, b);
    assert(s@.subrange(0, b as int) =~= w);
    let ghost t = s@.subrange(0, tl as int);
    proof {
        lemma_ends_with_char(t, '+');
    }
    if !(tl > 0 && s[tl - 1] == '+') {
        return (b, 1, 1);
    }
    let rl = tl - 1;
    let rest = slice_vec(s, 0, rl);
    assert(rest@ =~= t.drop_last());
    let dot = vec!['.'];
    assert(dot@ == seq!['.']);
    let f = rfind_at(rest.as_slice(), dot.as_slice());
    let mut dotted = false;
    let mut dd: usize = 0;
    if let Some(d) = f {
        if d + 1 < rl {
            let mut k = d + 1;
            let mut ok = true;
            while k < rl
                invariant
                    d + 1 <= k <= rl,
                    rl == rest@.len(),
                    ok == forall|j: int| d + 1 <= j < k ==> is_digit(rest@[j]),
                decreases rl - k,
            {
                if !is_ascii_digit_local(rest[k]) {
                    ok = false;
                }
                k += 1;
            }
            proof {
                let a = rest@.skip(d + 1);
                if ok {
                    assert forall|j: int| 0 <= j < a.len() implies is_digit(#[trigger] a[j]) by {
                        assert(a[j] == rest@[d + 1 + j]);
                    }
                } else {
                    let j = choose|j: int| d + 1 <= j < rl && !is_digit(rest@[j]);
                    assert(a[j - d - 1] == rest@[j]);
                }
            }
            dotted = ok;
            dd = d;
        }
    }
    if dotted {
        let d = dd;
        let td = trail_digits_at(rest.as_slice(), d);
        let spec_start = d - td;
        let ce = trim_end_range(s, 0, spec_start);
        let colspan = if td > 0 {
            u8_or_one_at(rest.as_slice(), spec_start, d)
        } else {
            1
        };
        let rowspan = u8_or_one_at(rest.as_slice(), d + 1, rl);
        proof {
            let before = rest@.take(d as int);
            assert(before.skip(spec_start as int) =~= rest@.subrange(spec_start as int, d as int));
            assert(rest@.skip(d + 1) =~= rest@.subrange(d + 1, rl as int));
            assert(t.take(spec_start as int) =~= s@.subrange(0, spec_start as int));
            assert(s@.subrange(0, ce as int) =~= s@.take(ce as int));
        }
        (ce, colspan, rowspan)
    } else {
        let td = trail_digits_at(rest.as_slice(), rl);
        assert(rest@.take(rl as int) =~= rest@);
        let spec_start = rl - td;
        if td == 0 {
            return (b, 1, 1);
        }
        let ce = trim_end_range(s, 0, spec_start);
        let colspan = u8_or_one_at(rest.as_slice(), spec_start, rl);
        proof {
            assert(rest@.skip(spec_start as int) =~= rest@.subrange(spec_start as int, rl as int));
            assert(t.take(spec_start as int) =~= s@.subrange(0, spec_start as int));
            assert(s@.subrange(0, ce as int) =~= s@.take(ce as int));
        }
        (ce, colspan, 1)
    }
}

/// Span modifier at the end of a segment: the content before it (trailing
/// whitespace trimmed), colspan and rowspan.
pub fn parse_span_spec(s: &str) -> (r: (&str, u8, u8))
    ensures
        (r.0@, r.1, r.2) == span_spec_of(s@),
{
    let v = chars_of(s);
    let n = v.len();
    let (e, c, rs) = span_spec_chars(v.as_slice(), n);
    assert(v@.take(n as int) =~= v@);
    (s.substring_char(0, e), c, rs)
}

pub open spec fn style_letter(c: char) -> Option<CellStyle> {
    if c == 'a' {
        Some(CellStyle::AsciiDoc)
    } else if c == 'h' {
        Some(CellStyle::Header)
    } else if c == 'e' {
        Some(CellStyle::Emphasis)
    } else if c == 'm' {
        Some(CellStyle::Monospace)
    } else if c == 's' {
        Some(CellStyle::Strong)
    } else if c == 'l' {
        Some(CellStyle::Literal)
    } else if c == 'd' || c == 'v' {
        Some(CellStyle::Default)
    } else {
        None
    }
}

fn style_from(c: char) -> (r: Option<CellStyle>)
    ensures
        r == style_letter(c),
{
    if c == 'a' {
        Some(CellStyle::AsciiDoc)
    } else if c == 'h' {
        Some(CellStyle::Header)
    } else if c == 'e' {
        Some(CellStyle::Emphasis)
    } else if c == 'm' {
        Some(CellStyle::Monospace)
    } else if c == 's' {
        Some(CellStyle::Strong)
    } else if c == 'l' {
        Some(CellStyle::Literal)
    } else if c == 'd' || c == 'v' {
        Some(CellStyle::Default)
    } else {
        None
    }
}

/// Style letter ending a segment, valid when nothing but whitespace, a
/// `+` (end of a span spec) or a space precedes it.
pub open spec fn style_suffix_of(s: Seq<char>) -> (Seq<char>, CellStyle, bool) {
    let none = (s, CellStyle::Default, false);
    if s.len() == 0 {
        none
    } else {
        match style_letter(s.last()) {
            None => none,
            Some(st) => {
                let before = s.drop_last();
                let bt = trim(before);
                if bt.len() == 0 || ends_with(bt, seq!['+']) || ends_with(before, seq![' ']) {
                    (before, st, true)
                } else {
                    none
                }
            },
        }
    }
}

/// `style_suffix_of(s[0..b])`: end of the remaining part, style, explicit.
fn style_suffix_chars(s: &[char], b: usize) -> (r: (usize, CellStyle, bool))
    requires
        b <= s@.len(),
    ensures
        r.0 <= b,
        style_suffix_of(s@.take(b as int)) == (s@.take(r.0 as int), r.1, r.2),
{
    let ghost w = s@.take(b as int);
    if b == 0 {
        return (b, CellStyle::Default, false);
    }
    let st = match style_from(s[b - 1]) {
        None => return (b, CellStyle::Default, false),
        Some(st) => st,
    };
    let (x, y) = trim_range(s, 0, b - 1);
    let bt = slice_vec(s, x, y);
    let before = slice_vec(s, 0, b - 1);
    proof {
        assert(before@ =~= w.drop_last());
        assert(s@.subrange(0, b - 1) =~= before@);
        lemma_ends_with_char(bt@, '+');
        lemma_ends_with_char(before@, ' ');
    }
    let nb = bt.len();
    if nb == 0 || bt[nb - 1] == '+' || (b - 1 > 0 && s[b - 2] == ' ') {
        assert(w.drop_last() =~= s@.take(b - 1));
        (b - 1, st, true)
    } else {
        (b, CellStyle::Default, false)
    }
}

pub fn parse_cell_style_suffix(s: &str) -> (r: (&str, CellStyle, bool))
    ensures
        (r.0@, r.1, r.2) == style_suffix_of(s@),
{
    let v = chars_of(s);
    let n = v.len();
    let (e, st, ex) = style_suffix_chars(v.as_slice(), n);
    assert(v@.take(n as int) =~= v@);
    (s.substring_char(0, e), st, ex)
}

// ---------------------------------------------------------------------------
// Whole cell specifiers
// ---------------------------------------------------------------------------

/// A cell specifier parsed in full: `[N*|C.R+][align][style]`.
#[derive(Debug, Clone, Copy, PartialEq, Eq, Structural)]
pub struct ExactCellSpec {
    pub duplication: u8,
    pub colspan: u8,
    pub rowspan: u8,
    pub halign: HAlign,
    pub valign: VAlign,
    pub style: CellStyle,
    pub style_explicit: bool,
    pub halign_explicit: bool,
    pub valign_explicit: bool,
}

pub open spec fn default_spec() -> ExactCellSpec {
    ExactCellSpec {
        duplication: 1,
        colspan: 1,
        rowspan: 1,
        halign: HAlign::Left,
        valign: VAlign::Top,
        style: CellStyle::Default,
        style_explicit: false,
        halign_explicit: false,
        valign_explicit: false,
    }
}

fn default_exact() -> (r: ExactCellSpec)
    ensures
        r == default_spec(),
{
    ExactCellSpec {
        duplication: 1,
        colspan: 1,
        rowspan: 1,
        halign: HAlign::Left,
        valign: VAlign::Top,
        style: CellStyle::Default,
        style_explicit: false,
        halign_explicit: false,
        valign_explicit: false,
    }
}

/// `max(parse::<u8>(s), 1)`, `None` when the parse fails.
pub open spec fn u8_at_least_one(s: Seq<char>) -> Option<u8> {
    match parse_uint(s, 255) {
        Some(v) => Some(if v >= 1 { v as u8 } else { 1u8 }),
        None => None,
    }
}

fn u8_at_least_one_at(s: &[char], a: usize, b: usize) -> (r: Option<u8>)
    requires
        a <= b <= s@.len(),
    ensures
        r == u8_at_least_one(s@.subrange(a as int, b as int)),
{
    match parse_uint_range(s, a, b, 255) {
        Some(v) => Some(if v >= 1 { v as u8 } else { 1 }),
        None => None,
    }
}

/// First index of `+` or `*`.
pub open spec fn first_op(s: Seq<char>, i: int) -> Option<int>
    decreases s.len() - i,
{
    if i < 0 || i >= s.len() {
        None
    } else if s[i] == '+' || s[i] == '*' {
        Some(i)
    } else {
        first_op(s, i + 1)
    }
}

/// First index of `c` at or after `i`.
pub open spec fn first_char(s: Seq<char>, c: char, i: int) -> Option<int>
    decreases s.len() - i,
{
    if i < 0 || i >= s.len() {
        None
    } else if s[i] == c {
        Some(i)
    } else {
        first_char(s, c, i + 1)
    }
}

/// Span or duplication factor before the first `+`/`*` of a specifier:
/// `Some((duplication, colspan, rowspan, rest_start))`, or `None` when a
/// factor is present but does not parse.
pub open spec fn factor_of(s: Seq<char>) -> Option<(u8, u8, u8, int)> {
    match first_op(s, 0) {
        None => Some((1u8, 1u8, 1u8, 0)),
        Some(op) => {
            let factor = s.take(op);
            if factor.len() > 0 && (forall|k: int| 0 <= k < factor.len() ==> is_digit(#[trigger] factor[k]) || factor[k] == '.') {
                if s[op] == '*' {
                    match u8_at_least_one(factor) {
                        Some(d) => Some((d, 1u8, 1u8, op + 1)),
                        None => None,
                    }
                } else {
                    match first_char(factor, '.', 0) {
                        Some(dp) => {
                            let c = factor.take(dp);
                            let r = factor.skip(dp + 1);
                            let col = if c.len() == 0 { Some(1u8) } else { u8_at_least_one(c) };
                            match (col, u8_at_least_one(r)) {
                                (Some(cv), Some(rv)) => Some((1u8, cv, rv, op + 1)),
                                _ => None,
                            }
                        },
                        None => match u8_at_least_one(factor) {
                            Some(cv) => Some((1u8, cv, 1u8, op + 1)),
                            None => None,
                        },
                    }
                }
            } else {
                Some((1u8, 1u8, 1u8, 0))
            }
        },
    }
}

/// Style of the whole remainder after the alignment: empty, or exactly one
/// style letter.
pub open spec fn exact_style_of(s: Seq<char>) -> Option<(CellStyle, bool)> {
    if s.len() == 0 {
        Some((CellStyle::Default, false))
    } else if s.len() == 1 && style_letter(s[0]) is Some {
        Some((style_letter(s[0])->0, true))
    } else {
        None
    }
}

/// The whole string as a cell specifier.
pub open spec fn exact_spec_of(s: Seq<char>) -> Option<ExactCellSpec> {
    if s.len() == 0 {
        None
    } else {
        match factor_of(s) {
            None => None,
            Some((dup, col, row, start)) => {
                let (rest, h, v, he, ve) = align_prefix_of(s.skip(start));
                match exact_style_of(rest) {
                    None => None,
                    Some((st, se)) => Some(
                        ExactCellSpec {
                            duplication: dup,
                            colspan: col,
                            rowspan: row,
                            halign: h,
                            valign: v,
                            style: st,
                            style_explicit: se,
                            halign_explicit: he,
                            valign_explicit: ve,
                        },
                    ),
                }
            },
        }
    }
}

fn first_op_at(s: &[char], a: usize, b: usize) -> (r: Option<usize>)
    requires
        a <= b <= s@.len(),
    ensures
        r matches Some(k) ==> a <= k < b && first_op(s@.subrange(a as int, b as int), 0) == Some(
            k - a,
        ),
        r is None ==> first_op(s@.subrange(a as int, b as int), 0) is None,
{
    let ghost t = s@.subrange(a as int, b as int);
    let mut k = a;
    while k < b
        invariant
            a <= k <= b <= s@.len(),
            t == s@.subrange(a as int, b as int),
            first_op(t, 0) == first_op(t, k - a),
        decreases b - k,
    {
        if s[k] == '+' || s[k] == '*' {
            return Some(k);
        }
        k += 1;
    }
    None
}

fn first_char_at(s: &[char], c: char, a: usize, b: usize) -> (r: Option<usize>)
    requires
        a <= b <= s@.len(),
    ensures
        r matches Some(k) ==> a <= k < b && first_char(s@.subrange(a as int, b as int), c, 0)
            == Some(k - a),
        r is None ==> first_char(s@.subrange(a as int, b as int), c, 0) is None,
{
    let ghost t = s@.subrange(a as int, b as int);
    let mut k = a;
    while k < b
        invariant
            a <= k <= b <= s@.len(),
            t == s@.subrange(a as int, b as int),
            first_char(t, c, 0) == first_char(t, c, k - a),
        decreases b - k,
    {
        if s[k] == c {
            return Some(k);
        }
        k += 1;
    }
    None
}

/// `factor_of(s[a..b])` with `rest_start` as an absolute index.
fn factor_at(s: &[char], a: usize, b: usize) -> (r: Option<(u8, u8, u8, usize)>)
    requires
        a <= b <= s@.len(),
    ensures
        match r {
            Some((d, c, w, st)) => a <= st <= b && factor_of(s@.subrange(a as int, b as int))
                == Some((d, c, w, st - a)),
            None => factor_of(s@.subrange(a as int, b as int)) is None,
        },
{
    let ghost t = s@.subrange(a as int, b as int);
    let op = match first_op_at(s, a, b) {
        None => return Some((1, 1, 1, a)),
        Some(op) => op,
    };
    let ghost factor = t.take(op - a);
    assert(factor =~= s@.subrange(a as int, op as int));
    let mut k = a;
    let mut ok = op > a;
    while k < op
        invariant
            a <= k <= op < b <= s@.len(),
            ok == (op > a && forall|j: int| a <= j < k ==> is_digit(s@[j]) || s@[j] == '.'),
        decreases op - k,
    {
        if !(is_ascii_digit_local(s[k]) || s[k] == '.') {
            ok = false;
        }
        k += 1;
    }
    proof {
        if ok {
            assert forall|j: int| 0 <= j < factor.len() implies is_digit(#[trigger] factor[j])
                || factor[j] == '.' by {
                assert(factor[j] == s@[a + j]);
            }
        } else if op > a {
            let j = choose|j: int| a <= j < op && !(is_digit(s@[j]) || s@[j] == '.');
            assert(factor[j - a] == s@[j]);
        }
    }
    if !ok {
        return Some((1, 1, 1, a));
    }
    assert(t[op - a] == s@[op as int]);
    if s[op] == '*' {
        match u8_at_least_one_at(s, a, op) {
            Some(d) => Some((d, 1, 1, op + 1)),
            None => None,
        }
    } else {
        match first_char_at(s, '.', a, op) {
            Some(dp) => {
                proof {
                    assert(factor.take(dp - a) =~= s@.subrange(a as int, dp as int));
                    assert(factor.skip(dp - a + 1) =~= s@.subrange(dp + 1, op as int));
                }
                let col = if dp == a {
                    Some(1u8)
                } else {
                    u8_at_least_one_at(s, a, dp)
                };
                let row = u8_at_least_one_at(s, dp + 1, op);
                match (col, row) {
                    (Some(cv), Some(rv)) => Some((1, cv, rv, op + 1)),
                    _ => None,
                }
            },
            None => match u8_at_least_one_at(s, a, op) {
                Some(cv) => Some((1, cv, 1, op + 1)),
                None => None,
            },
        }
    }
}

/// `exact_spec_of(s[a..b])`.
pub fn exact_spec_at(s: &[char], a: usize, b: usize) -> (r: Option<ExactCellSpec>)
    requires
        a <= b <= s@.len(),
    ensures
        r == exact_spec_of(s@.subrange(a as int, b as int)),
{
    let ghost t = s@.subrange(a as int, b as int);
    if a == b {
        return None;
    }
    let (dup, col, row, start) = match factor_at(s, a, b) {
        None => return None,
        Some(x) => x,
    };
    let (p, h, v, he, ve) = align_prefix_chars(s, start, b);
    assert(t.skip(start - a) =~= s@.subrange(start as int, b as int));
    let ghost rest = s@.subrange(p as int, b as int);
    let st: Option<(CellStyle, bool)> = if p == b {
        Some((CellStyle::Default, false))
    } else if p + 1 == b {
        match style_from(s[p]) {
            Some(x) => Some((x, true)),
            None => None,
        }
    } else {
        None
    };
    assert(st == exact_style_of(rest));
    match st {
        None => None,
        Some((style, se)) => Some(
            ExactCellSpec {
                duplication: dup,
                colspan: col,
                rowspan: row,
                halign: h,
                valign: v,
                style,
                style_explicit: se,
                halign_explicit: he,
                valign_explicit: ve,
            },
        ),
    }
}

/// Parse an entire string as a cell specifier; `None` unless the whole
/// string is consumed.
pub fn parse_cell_spec_exact(s: &str) -> (r: Option<ExactCellSpec>)
    ensures
        r == exact_spec_of(s@),
{
    let v = chars_of(s);
    let n = v.len();
    assert(v@.subrange(0, n as int) =~= v@);
    exact_spec_at(v.as_slice(), 0, n)
}

// ---------------------------------------------------------------------------
// Table lines
// ---------------------------------------------------------------------------

/// One cell of a PSV table line.
#[derive(Debug, Clone, PartialEq)]
pub struct CellSpec {
    pub content: String,
    /// Duplication factor (`3*|x`), kept unexpanded.
    pub duplication: u8,
    pub colspan: u8,
    pub rowspan: u8,
    pub style: CellStyle,
    /// The style came from an explicit style char.
    pub style_explicit: bool,
    pub halign: HAlign,
    pub valign: VAlign,
    /// An explicit `<`/`^`/`>` was present.
    pub halign_explicit: bool,
    /// An explicit `.<`/`.^`/`.>` was present.
    pub valign_explicit: bool,
}

/// Cells of one PSV line, plus text before the first separator that
/// continues the previous line's last cell.
#[derive(Debug, Clone, PartialEq)]
pub struct TableLineCells {
    pub continuation: Option<String>,
    pub cells: Vec<CellSpec>,
}

pub open spec fn cell_view(c: CellSpec) -> (Seq<char>, ExactCellSpec) {
    (
        c.content@,
        ExactCellSpec {
            duplication: c.duplication,
            colspan: c.colspan,
            rowspan: c.rowspan,
            halign: c.halign,
            valign: c.valign,
            style: c.style,
            style_explicit: c.style_explicit,
            halign_explicit: c.halign_explicit,
            valign_explicit: c.valign_explicit,
        },
    )
}

pub open spec fn cells_view(cells: Seq<CellSpec>) -> Seq<(Seq<char>, ExactCellSpec)> {
    cells.map_values(|c: CellSpec| cell_view(c))
}

pub open spec fn opt_string_view(o: Option<String>) -> Option<Seq<char>> {
    match o {
        Some(t) => Some(t@),
        None => None,
    }
}

/// Last index of a space or tab at or before `i`.
pub open spec fn last_blank_upto(s: Seq<char>, i: int) -> Option<int>
    decreases i + 1,
{
    if i < 0 || i >= s.len() {
        None
    } else if s[i] == ' ' || s[i] == '\t' {
        Some(i)
    } else {
        last_blank_upto(s, i - 1)
    }
}

/// A whitespace-separated specifier token ending `text`.
pub open spec fn trailing_spec(text: Seq<char>) -> Option<(Seq<char>, ExactCellSpec)> {
    match last_blank_upto(text, text.len() - 1) {
        Some(i) => match exact_spec_of(text.skip(i + 1)) {
            Some(sp) => Some((text.take(i), sp)),
            None => None,
        },
        None => None,
    }
}

/// Text before the first separator: a spec for the first cell, or
/// continuation text (possibly ending in a spec token).
pub open spec fn line_prefix_of(raw: Seq<char>, c: char) -> (Option<Seq<char>>, ExactCellSpec) {
    let prefix = trim(raw);
    if prefix.len() == 0 {
        (None, default_spec())
    } else {
        match exact_spec_of(prefix) {
            Some(sp) => (None, sp),
            None => {
                let text0 = trim_end(raw);
                let (text, pend) = match trailing_spec(text0) {
                    Some((b, sp)) => (trim_end(b), sp),
                    None => (text0, default_spec()),
                };
                (if trim(text).len() > 0 { Some(unescape_of(text, c)) } else { None }, pend)
            },
        }
    }
}

/// Content of a part that is followed by a separator, and the spec its
/// end carries for the next cell.
pub open spec fn part_split_of(part: Seq<char>) -> (Seq<char>, ExactCellSpec) {
    match trailing_spec(trim_end(part)) {
        Some((b, sp)) => (b, sp),
        None => {
            let (a1, st, se) = style_suffix_of(part);
            let (a2, cs, rs) = span_spec_of(a1);
            let (content, h, v, he, ve) = align_suffix_of(a2);
            (
                content,
                ExactCellSpec {
                    duplication: 1,
                    colspan: cs,
                    rowspan: rs,
                    halign: h,
                    valign: v,
                    style: st,
                    style_explicit: se,
                    halign_explicit: he,
                    valign_explicit: ve,
                },
            )
        },
    }
}

pub open spec fn cell_of(content: Seq<char>, pending: ExactCellSpec, c: char) -> (Seq<char>, ExactCellSpec) {
    (
        unescape_of(trim(content), c),
        ExactCellSpec {
            duplication: if pending.duplication >= 1 { pending.duplication } else { 1 },
            colspan: pending.colspan,
            rowspan: pending.rowspan,
            halign: pending.halign,
            valign: pending.valign,
            style: pending.style,
            style_explicit: pending.style_explicit,
            halign_explicit: pending.halign_explicit,
            valign_explicit: pending.valign_explicit,
        },
    )
}

/// Cells of `parts[i..]`: every part is a cell; each non-last part's end
/// may hold the spec of the next cell.
pub open spec fn cells_from(parts: Seq<Seq<char>>, i: int, pending: ExactCellSpec, c: char) -> Seq<
    (Seq<char>, ExactCellSpec),
>
    decreases parts.len() - i,
{
    if i < 0 || i >= parts.len() {
        Seq::empty()
    } else {
        let (content, next) = if i == parts.len() - 1 {
            (parts[i], default_spec())
        } else {
            part_split_of(parts[i])
        };
        seq![cell_of(content, pending, c)] + cells_from(parts, i + 1, next, c)
    }
}

/// A PSV table line split at unescaped separators `c`.
pub open spec fn table_cells_of(s: Seq<char>, c: char) -> Option<
    (Option<Seq<char>>, Seq<(Seq<char>, ExactCellSpec)>),
> {
    match next_usep(s, c, 0) {
        None => None,
        Some(fp) => {
            let (cont, pending) = line_prefix_of(s.take(fp), c);
            let parts = usplit_from(s.skip(fp + 1), c, 0);
            Some((cont, cells_from(parts, 0, pending, c)))
        },
    }
}

fn last_blank_at(s: &[char], a: usize, b: usize) -> (r: Option<usize>)
    requires
        a <= b <= s@.len(),
    ensures
        r matches Some(k) ==> a <= k < b && last_blank_upto(
            s@.subrange(a as int, b as int),
            b - a - 1,
        ) == Some(k - a),
        r is None ==> last_blank_upto(s@.subrange(a as int, b as int), b - a - 1) is None,
{
    let ghost t = s@.subrange(a as int, b as int);
    let mut k = b;
    while k > a
        invariant
            a <= k <= b <= s@.len(),
            t == s@.subrange(a as int, b as int),
            last_blank_upto(t, b - a - 1) == last_blank_upto(t, k - a - 1),
        decreases k,
    {
        if s[k - 1] == ' ' || s[k - 1] == '\t' {
            return Some(k - 1);
        }
        k -= 1;
    }
    None
}

/// `trailing_spec(s[a..b])`: end of the text before the token, and the spec.
fn trailing_spec_at(s: &[char], a: usize, b: usize) -> (r: Option<(usize, ExactCellSpec)>)
    requires
        a <= b <= s@.len(),
    ensures
        match r {
            Some((e, sp)) => a <= e <= b && trailing_spec(s@.subrange(a as int, b as int)) == Some(
                (s@.subrange(a as int, e as int), sp),
            ),
            None => trailing_spec(s@.subrange(a as int, b as int)) is None,
        },
{
    let ghost t = s@.subrange(a as int, b as int);
    match last_blank_at(s, a, b) {
        None => None,
        Some(i) => {
            assert(t.skip(i - a + 1) =~= s@.subrange(i + 1, b as int));
            assert(t.take(i - a) =~= s@.subrange(a as int, i as int));
            match exact_spec_at(s, i + 1, b) {
                Some(sp) => Some((i, sp)),
                None => None,
            }
        },
    }
}

/// `part_split_of(s[a..b])`: end of the content (which starts at `a`) and
/// the next cell's spec.
fn part_split_at(s: &[char], a: usize, b: usize) -> (r: (usize, ExactCellSpec))
    requires
        a <= b <= s@.len(),
    ensures
        a <= r.0 <= b,
        part_split_of(s@.subrange(a as int, b as int)) == (s@.subrange(a as int, r.0 as int), r.1),
{
    let ghost part = s@.subrange(a as int, b as int);
    let te = trim_end_range(s, a, b);
    if let Some((e, sp)) = trailing_spec_at(s, a, te) {
        return (e, sp);
    }
    let p = slice_vec(s, a, b);
    let n = p.len();
    assert(p@.take(n as int) =~= part);
    let (e1, st, se) = style_suffix_chars(p.as_slice(), n);
    let (e2, cs, rs) = span_spec_chars(p.as_slice(), e1);
    let (e3, h, v, he, ve) = align_suffix_chars(p.as_slice(), e2);
    assert(p@.take(e3 as int) =~= s@.subrange(a as int, a + e3));
    (
        a + e3,
        ExactCellSpec {
            duplication: 1,
            colspan: cs,
            rowspan: rs,
            halign: h,
            valign: v,
            style: st,
            style_explicit: se,
            halign_explicit: he,
            valign_explicit: ve,
        },
    )
}

/// The cell built from `s[a..b]` (trimmed, unescaped) under `pending`.
fn make_cell(s: &[char], a: usize, b: usize, pending: ExactCellSpec, c: char) -> (r: CellSpec)
    requires
        a <= b <= s@.len(),
    ensures
        cell_view(r) == cell_of(s@.subrange(a as int, b as int), pending, c),
{
    let (x, y) = trim_range(s, a, b);
    let t = slice_vec(s, x, y);
    let u = unescape_chars(t.as_slice(), c);
    CellSpec {
        content: string_of(u.as_slice()),
        duplication: if pending.duplication >= 1 {
            pending.duplication
        } else {
            1
        },
        colspan: pending.colspan,
        rowspan: pending.rowspan,
        style: pending.style,
        style_explicit: pending.style_explicit,
        halign: pending.halign,
        valign: pending.valign,
        halign_explicit: pending.halign_explicit,
        valign_explicit: pending.valign_explicit,
    }
}

/// `line_prefix_of(s[0..fp])`.
fn line_prefix_at(s: &[char], fp: usize, c: char) -> (r: (Option<String>, ExactCellSpec))
    requires
        fp <= s@.len(),
    ensures
        (opt_string_view(r.0), r.1) == line_prefix_of(s@.take(fp as int), c),
{
    let ghost raw = s@.take(fp as int);
    assert(s@.subrange(0, fp as int) =~= raw);
    let (x, y) = trim_range(s, 0, fp);
    if x == y {
        return (None, default_exact());
    }
    if let Some(sp) = exact_spec_at(s, x, y) {
        return (None, sp);
    }
    let te = trim_end_range(s, 0, fp);
    let (tend, pend) = match trailing_spec_at(s, 0, te) {
        Some((e, sp)) => {
            let e2 = trim_end_range(s, 0, e);
            (e2, sp)
        },
        None => (te, default_exact()),
    };
    let (x2, y2) = trim_range(s, 0, tend);
    if x2 == y2 {
        return (None, pend);
    }
    let t = slice_vec(s, 0, tend);
    assert(t@ =~= s@.subrange(0, tend as int));
    let u = unescape_chars(t.as_slice(), c);
    (Some(string_of(u.as_slice())), pend)
}

/// Parse one PSV table line, splitting cells at unescaped `sep` (`|`, or
/// `!` for nested tables). A separator byte of 128 or more only occurs
/// inside a multi-byte char, where slicing at it would not fall on a char
/// boundary; it is admitted only when absent, and then no cell is found.
pub fn parse_table_cells_with_sep(line: &str, sep: u8) -> (r: Option<TableLineCells>)
    requires
        sep < 128 || !line.spec_bytes().contains(sep),
    ensures
        sep >= 128 ==> r is None,
        sep < 128 ==> match r {
            Some(t) => table_cells_of(line@, byte_char(sep)) == Some(
                (opt_string_view(t.continuation), cells_view(t.cells@)),
            ),
            None => table_cells_of(line@, byte_char(sep)) is None,
        },
{
    if sep >= 128 {
        return None;
    }
    let c = sep as char;
    let v = chars_of(line);
    let n = v.len();
    let fp = match find_unescaped_sep(v.as_slice(), c, 0) {
        None => return None,
        Some(fp) => fp,
    };
    let (cont, pending0) = line_prefix_at(v.as_slice(), fp, c);
    let rest = slice_vec(v.as_slice(), fp + 1, n);
    assert(rest@ =~= v@.skip(fp + 1));
    let ranges = split_unescaped_sep(rest.as_slice(), c);
    let ghost parts = usplit_from(rest@, c, 0);
    let np = ranges.len();
    let mut cells: Vec<CellSpec> = Vec::new();
    let mut pending = pending0;
    let mut i: usize = 0;
    assert(cells_view(cells@) + cells_from(parts, 0, pending, c) =~= cells_from(
        parts,
        0,
        pending0,
        c,
    ));
    while i < np
        invariant
            np == ranges@.len(),
            np == parts.len(),
            parts == usplit_from(rest@, c, 0),
            forall|k: int|
                0 <= k < np ==> {
                    &&& (#[trigger] ranges@[k]).0 <= ranges@[k].1 <= rest@.len()
                    &&& rest@.subrange(ranges@[k].0 as int, ranges@[k].1 as int) == parts[k]
                },
            i <= np,
            cells_from(parts, 0, pending0, c) == cells_view(cells@) + cells_from(
                parts,
                i as int,
                pending,
                c,
            ),
        decreases np - i,
    {
        let (a, b) = ranges[i];
        let is_last = i + 1 == np;
        let (ce, next) = if is_last {
            (b, default_exact())
        } else {
            part_split_at(rest.as_slice(), a, b)
        };
        let cell = make_cell(rest.as_slice(), a, ce, pending, c);
        proof {
            let (content, nx) = if i == parts.len() - 1 {
                (parts[i as int], default_spec())
            } else {
                part_split_of(parts[i as int])
            };
            assert(content == rest@.subrange(a as int, ce as int));
            assert(nx == next);
            assert(cells_from(parts, i as int, pending, c) == seq![cell_view(cell)]
                + cells_from(parts, i + 1, next, c));
        }
        let ghost before = cells@;
        cells.push(cell);
        assert(cells_view(cells@) =~= cells_view(before) + seq![cell_view(cell)]);
        pending = next;
        i += 1;
    }
    assert(cells_view(cells@) + cells_from(parts, np as int, pending, c) =~= cells_view(cells@));
    Some(TableLineCells { continuation: cont, cells })
}

/// [`parse_table_cells_with_sep`] with the default `|` separator.
pub fn parse_table_cells(line: &str) -> (r: Option<TableLineCells>)
    ensures
        match r {
            Some(t) => table_cells_of(line@, '|') == Some(
                (opt_string_view(t.continuation), cells_view(t.cells@)),
            ),
            None => table_cells_of(line@, '|') is None,
        },
{
    parse_table_cells_with_sep(line, 124)
}

} // verus!
