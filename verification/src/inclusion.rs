//! The text side of file inclusion directives: the directive's options,
//! line and tag filtering of the inserted text, level offsets and
//! indentation.
//! Reading the files is left to the caller.

use vstd::prelude::*;
use crate::ident::{alnum_char, alpha_char, char_is_alphabetic, char_is_alphanumeric};
use crate::lines::{line_views, std_lines, std_lines_chars, trim_vec};
use crate::scanner::{join_lines, lemma_split_lines};
use crate::text::{
    all_digits, chars_of, lemma_find_from_bounds, match_at, digits_value, ends_with, find, find_at, parse_int, parse_uint, push_all,
    slice_vec, split, split_ranges, starts_with, starts_with_at, string_of, trim, trim_range,
};

verus! {

// ---------------------------------------------------------------------------
// Numbers
// ---------------------------------------------------------------------------

pub open spec fn usize_opt(r: Option<usize>) -> Option<int> {
    match r {
        Some(v) => Some(v as int),
        None => None,
    }
}

/// `str::parse::<usize>` on `s`.
pub fn parse_usize(s: &[char]) -> (r: Option<usize>)
    ensures
        usize_opt(r) == parse_uint(s@, usize::MAX as int),
{
    let n = s.len();
    let start: usize = if n > 0 && s[0] == '+' {
        1
    } else {
        0
    };
    let ghost d = s@.skip(start as int);
    proof {
        if start == 0 {
            assert(d =~= s@);
        }
    }
    if start == n {
        return None;
    }
    assert(parse_uint(s@, usize::MAX as int) == (if d.len() > 0 && all_digits(d) && digits_value(d)
        <= usize::MAX {
        Some(digits_value(d))
    } else {
        None
    }));
    let cap: u128 = usize::MAX as u128;
    let mut acc: u128 = 0;
    let mut k = start;
    while k < n
        invariant
            start <= k <= n == s@.len(),
            d == s@.skip(start as int),
            cap == usize::MAX,
            parse_uint(s@, usize::MAX as int) == (if d.len() > 0 && all_digits(d) && digits_value(d)
                <= usize::MAX {
                Some(digits_value(d))
            } else {
                None
            }),
            forall|j: int| start <= j < k ==> crate::text::is_digit(#[trigger] s@[j]),
            acc <= cap + 1,
            acc <= cap ==> acc == digits_value(s@.subrange(start as int, k as int)),
            acc > cap ==> digits_value(s@.subrange(start as int, k as int)) > cap,
        decreases n - k,
    {
        if !crate::text::is_ascii_digit(s[k]) {
            assert(d[k - start] == s@[k as int]);
            return None;
        }
        let ghost pre = s@.subrange(start as int, k as int);
        let ghost nxt = s@.subrange(start as int, k + 1);
        proof {
            assert(nxt.drop_last() =~= pre);
            assert(all_digits(pre)) by {
                assert forall|j: int| 0 <= j < pre.len() implies crate::text::is_digit(
                    #[trigger] pre[j],
                ) by {
                    assert(pre[j] == s@[start + j]);
                }
            }
            crate::text::lemma_digits_value_nonneg(pre);
        }
        let dg = (s[k] as u32 - '0' as u32) as u128;
        if acc <= cap {
            let wide = acc * 10 + dg;
            if wide <= cap {
                acc = wide;
            } else {
                acc = cap + 1;
            }
        } else {
            acc = cap + 1;
        }
        k += 1;
    }
    proof {
        assert(s@.subrange(start as int, n as int) =~= d);
        assert forall|j: int| 0 <= j < d.len() implies crate::text::is_digit(#[trigger] d[j]) by {
            assert(d[j] == s@[start + j]);
        }
    }
    if acc <= cap {
        Some(acc as usize)
    } else {
        None
    }
}

pub proof fn lemma_parse_int_narrow(s: Seq<char>, a: int, b: int)
    requires
        0 <= a <= b,
    ensures
        parse_int(s, a) == (match parse_int(s, b) {
            Some(v) => if -a - 1 <= v <= a {
                Some(v)
            } else {
                None
            },
            None => None,
        }),
{
    if s.len() > 0 && s[0] == '-' {
        let d = s.skip(1);
        if d.len() > 0 && all_digits(d) {
            crate::text::lemma_digits_value_nonneg(d);
        }
    } else {
        let d = if s.len() > 0 && s[0] == '+' {
            s.skip(1)
        } else {
            s
        };
        if d.len() > 0 && all_digits(d) {
            crate::text::lemma_digits_value_nonneg(d);
        }
    }
}

/// `str::parse::<i8>` on `s`.
pub fn parse_i8(s: &[char]) -> (r: Option<i8>)
    ensures
        match r {
            Some(v) => parse_int(s@, 127) == Some(v as int),
            None => parse_int(s@, 127) is None,
        },
{
    proof {
        lemma_parse_int_narrow(s@, 127, i64::MAX as int);
    }
    match crate::counters::parse_i64(s) {
        Some(v) => if -128 <= v && v <= 127 {
            Some(v as i8)
        } else {
            None
        },
        None => None,
    }
}

// ---------------------------------------------------------------------------
// Include options
// ---------------------------------------------------------------------------

/// A `lines=` range: one line, an inclusive range, or from a line to the
/// end (1-based).
#[derive(Debug, Clone, Copy, PartialEq, Eq, Structural)]
pub enum LineRange {
    Single(usize),
    Range(usize, usize),
    From(usize),
}

/// One `tags=` entry: a tag name, included or (with `!`) excluded.
#[derive(Debug, PartialEq, Eq)]
pub struct TagEntry<'a> {
    pub name: &'a str,
    pub included: bool,
}

#[derive(Debug, PartialEq, Eq)]
pub struct TagFilter<'a> {
    pub entries: Vec<TagEntry<'a>>,
}

/// The options of an inclusion directive.
#[derive(Debug)]
pub struct IncludeAttrs<'a> {
    pub lines: Option<Vec<LineRange>>,
    pub tags: Option<TagFilter<'a>>,
    pub optional: bool,
    pub leveloffset: i8,
    pub indent: Option<usize>,
}

/// The options as values.
pub struct IncludeSpec {
    pub lines: Option<Seq<LineRange>>,
    pub tags: Option<Seq<(Seq<char>, bool)>>,
    pub optional: bool,
    pub leveloffset: int,
    pub indent: Option<int>,
}

pub open spec fn entry_views(es: Seq<TagEntry>) -> Seq<(Seq<char>, bool)> {
    es.map_values(|e: TagEntry| (e.name@, e.included))
}

pub proof fn lemma_entry_views_push(es: Seq<TagEntry>, e: TagEntry)
    ensures
        entry_views(es.push(e)) == entry_views(es).push((e.name@, e.included)),
{
    assert(entry_views(es.push(e)) =~= entry_views(es).push((e.name@, e.included)));
}

pub open spec fn include_view(a: IncludeAttrs) -> IncludeSpec {
    IncludeSpec {
        lines: match a.lines {
            Some(v) => Some(v@),
            None => None,
        },
        tags: match a.tags {
            Some(t) => Some(entry_views(t.entries@)),
            None => None,
        },
        optional: a.optional,
        leveloffset: a.leveloffset as int,
        indent: match a.indent {
            Some(n) => Some(n as int),
            None => None,
        },
    }
}

pub open spec fn no_options() -> IncludeSpec {
    IncludeSpec { lines: None, tags: None, optional: false, leveloffset: 0, indent: None }
}

/// A line range `N`, `A..B`, `A..` or `A..-1`.
pub open spec fn line_range_of(s: Seq<char>) -> Option<LineRange> {
    match find(s, seq!['.', '.']) {
        Some(pos) => {
            let left = trim(s.take(pos));
            let right = trim(s.skip(pos + 2));
            match parse_uint(left, usize::MAX as int) {
                Some(a) => if right.len() == 0 || right == seq!['-', '1'] {
                    Some(LineRange::From(a as usize))
                } else {
                    match parse_uint(right, usize::MAX as int) {
                        Some(b) => Some(LineRange::Range(a as usize, b as usize)),
                        None => None,
                    }
                },
                None => None,
            }
        },
        None => match parse_uint(trim(s), usize::MAX as int) {
            Some(n) => Some(LineRange::Single(n as usize)),
            None => None,
        },
    }
}

/// The ranges of the first `n` `;`-separated segments (trimmed; empty or
/// malformed segments are skipped).
pub open spec fn ranges_of(segs: Seq<Seq<char>>, n: int) -> Seq<LineRange>
    decreases n,
{
    if n <= 0 {
        Seq::empty()
    } else {
        let acc = ranges_of(segs, n - 1);
        let seg = trim(segs[n - 1]);
        if seg.len() > 0 && line_range_of(seg) is Some {
            acc.push(line_range_of(seg)->0)
        } else {
            acc
        }
    }
}

pub open spec fn tag_entry_of(seg: Seq<char>) -> (Seq<char>, bool) {
    if starts_with(seg, seq!['!']) {
        (seg.skip(1), false)
    } else {
        (seg, true)
    }
}

/// The tag entries of the first `n` `;`-separated segments (trimmed, empty
/// ones skipped).
pub open spec fn tag_entries_of(segs: Seq<Seq<char>>, n: int) -> Seq<(Seq<char>, bool)>
    decreases n,
{
    if n <= 0 {
        Seq::empty()
    } else {
        let acc = tag_entries_of(segs, n - 1);
        let seg = trim(segs[n - 1]);
        if seg.len() > 0 {
            acc.push(tag_entry_of(seg))
        } else {
            acc
        }
    }
}

pub open spec fn lit_lines_eq() -> Seq<char> {
    seq!['l', 'i', 'n', 'e', 's', '=']
}

pub open spec fn lit_tags_eq() -> Seq<char> {
    seq!['t', 'a', 'g', 's', '=']
}

pub open spec fn lit_tag_eq() -> Seq<char> {
    seq!['t', 'a', 'g', '=']
}

pub open spec fn lit_opts_optional() -> Seq<char> {
    seq!['o', 'p', 't', 's', '=', 'o', 'p', 't', 'i', 'o', 'n', 'a', 'l']
}

pub open spec fn lit_leveloffset_eq() -> Seq<char> {
    seq!['l', 'e', 'v', 'e', 'l', 'o', 'f', 'f', 's', 'e', 't', '=']
}

pub open spec fn lit_indent_eq() -> Seq<char> {
    seq!['i', 'n', 'd', 'e', 'n', 't', '=']
}

/// The effect of one trimmed comma-separated option `p`: `lines=` and
/// `tags=` (when they give any entry), `tag=` (when not blank),
/// `opts=optional`, `leveloffset=` and `indent=` (when they parse); other
/// options are ignored.
pub open spec fn include_part(acc: IncludeSpec, p: Seq<char>) -> IncludeSpec {
    if starts_with(p, lit_lines_eq()) {
        let segs = split(p.skip(6), seq![';']);
        let rs = ranges_of(segs, segs.len() as int);
        if rs.len() > 0 {
            IncludeSpec { lines: Some(rs), ..acc }
        } else {
            acc
        }
    } else if starts_with(p, lit_tags_eq()) {
        let segs = split(p.skip(5), seq![';']);
        let es = tag_entries_of(segs, segs.len() as int);
        if es.len() > 0 {
            IncludeSpec { tags: Some(es), ..acc }
        } else {
            acc
        }
    } else if starts_with(p, lit_tag_eq()) {
        let v = trim(p.skip(4));
        if v.len() > 0 {
            IncludeSpec { tags: Some(seq![tag_entry_of(v)]), ..acc }
        } else {
            acc
        }
    } else if p == lit_opts_optional() {
        IncludeSpec { optional: true, ..acc }
    } else if starts_with(p, lit_leveloffset_eq()) {
        match parse_int(trim(p.skip(12)), 127) {
            Some(n) => IncludeSpec { leveloffset: n, ..acc },
            None => acc,
        }
    } else if starts_with(p, lit_indent_eq()) {
        match parse_uint(trim(p.skip(7)), usize::MAX as int) {
            Some(n) => IncludeSpec { indent: Some(n), ..acc },
            None => acc,
        }
    } else {
        acc
    }
}

/// The options given by the first `n` comma-separated parts.
pub open spec fn include_parts(parts: Seq<Seq<char>>, n: int) -> IncludeSpec
    decreases n,
{
    if n <= 0 {
        no_options()
    } else {
        include_part(include_parts(parts, n - 1), trim(parts[n - 1]))
    }
}

pub open spec fn include_attrs_of(attrs: Seq<char>) -> IncludeSpec {
    let parts = split(attrs, seq![',']);
    include_parts(parts, parts.len() as int)
}

fn line_range_at(s: &[char]) -> (r: Option<LineRange>)
    ensures
        r == line_range_of(s@),
{
    let n = s.len();
    let dots = vec!['.', '.'];
    assert(dots@ == seq!['.', '.']);
    match find_at(s, dots.as_slice()) {
        Some(pos) => {
            let lt = slice_vec(s, 0, pos);
            assert(lt@ =~= s@.take(pos as int));
            let left = trim_vec(lt.as_slice());
            let rt = slice_vec(s, pos + 2, n);
            assert(rt@ =~= s@.skip(pos + 2));
            let right = trim_vec(rt.as_slice());
            let a = match parse_usize(left.as_slice()) {
                Some(a) => a,
                None => return None,
            };
            let m1 = vec!['-', '1'];
            assert(m1@ == seq!['-', '1']);
            if right.len() == 0 || crate::attrs::same_chars(right.as_slice(), m1.as_slice()) {
                Some(LineRange::From(a))
            } else {
                match parse_usize(right.as_slice()) {
                    Some(b) => Some(LineRange::Range(a, b)),
                    None => None,
                }
            }
        },
        None => {
            let t = trim_vec(s);
            match parse_usize(t.as_slice()) {
                Some(v) => Some(LineRange::Single(v)),
                None => None,
            }
        },
    }
}

/// Parses one line range.
pub fn parse_line_range(s: &str) -> (r: Option<LineRange>)
    ensures
        r == line_range_of(s@),
{
    let v = chars_of(s);
    line_range_at(v.as_slice())
}

/// The ranges of the `;`-separated segments of `s[a..b]`.
fn ranges_in(s: &[char], a: usize, b: usize) -> (r: Vec<LineRange>)
    requires
        a <= b <= s@.len(),
    ensures
        r@ == ranges_of(
            split(s@.subrange(a as int, b as int), seq![';']),
            split(s@.subrange(a as int, b as int), seq![';']).len() as int,
        ),
{
    let value = slice_vec(s, a, b);
    let semi = vec![';'];
    assert(semi@ == seq![';']);
    let ranges = split_ranges(value.as_slice(), semi.as_slice());
    let ghost segs = split(value@, seq![';']);
    let mut out: Vec<LineRange> = Vec::new();
    let mut k: usize = 0;
    while k < ranges.len()
        invariant
            segs == split(value@, seq![';']),
            ranges@.len() == segs.len(),
            forall|j: int|
                0 <= j < ranges@.len() ==> {
                    &&& (#[trigger] ranges@[j]).0 <= ranges@[j].1 <= value@.len()
                    &&& value@.subrange(ranges@[j].0 as int, ranges@[j].1 as int) == segs[j]
                },
            k <= ranges@.len(),
            out@ == ranges_of(segs, k as int),
        decreases ranges@.len() - k,
    {
        let (x, y) = ranges[k];
        let (tx, ty) = trim_range(value.as_slice(), x, y);
        let seg = slice_vec(value.as_slice(), tx, ty);
        if seg.len() > 0 {
            if let Some(r) = line_range_at(seg.as_slice()) {
                out.push(r);
            }
        }
        k += 1;
    }
    out
}

pub proof fn lemma_subrange_shift(s: Seq<char>, a: int, b: int, x: int, y: int)
    requires
        0 <= a <= b <= s.len(),
        0 <= x <= y <= b - a,
    ensures
        s.subrange(a, b).subrange(x, y) == s.subrange(a + x, a + y),
{
    assert(s.subrange(a, b).subrange(x, y) =~= s.subrange(a + x, a + y));
}

/// The tag entry `text[x..y]` (non-empty).
fn tag_entry_at<'a>(text: &'a str, x: usize, y: usize) -> (e: TagEntry<'a>)
    requires
        x < y <= text@.len(),
    ensures
        (e.name@, e.included) == tag_entry_of(text@.subrange(x as int, y as int)),
{
    let v = chars_of(text);
    let ghost seg = text@.subrange(x as int, y as int);
    if v[x] == '!' {
        assert(seg.subrange(0, 1) =~= seq!['!']);
        let name = text.substring_char(x + 1, y);
        assert(name@ =~= seg.skip(1));
        TagEntry { name, included: false }
    } else {
        assert(seg.subrange(0, 1)[0] == seg[0]);
        let name = text.substring_char(x, y);
        TagEntry { name, included: true }
    }
}

/// The tag entries of the `;`-separated segments of `s[a..b]`, borrowing
/// the names from `text` (whose chars are `s`).
#[verifier::rlimit(40)]
fn tag_entries_in<'a>(text: &'a str, s: &[char], a: usize, b: usize) -> (r: Vec<TagEntry<'a>>)
    requires
        a <= b <= s@.len(),
        s@ == text@,
    ensures
        entry_views(r@) == tag_entries_of(
            split(s@.subrange(a as int, b as int), seq![';']),
            split(s@.subrange(a as int, b as int), seq![';']).len() as int,
        ),
{
    let value = slice_vec(s, a, b);
    let semi = vec![';'];
    assert(semi@ == seq![';']);
    let ranges = split_ranges(value.as_slice(), semi.as_slice());
    let ghost segs = split(value@, seq![';']);
    let mut out: Vec<TagEntry<'a>> = Vec::new();
    let mut k: usize = 0;
    while k < ranges.len()
        invariant
            a <= b <= s@.len(),
            s@ == text@,
            value@ == s@.subrange(a as int, b as int),
            segs == split(value@, seq![';']),
            ranges@.len() == segs.len(),
            forall|j: int|
                0 <= j < ranges@.len() ==> {
                    &&& (#[trigger] ranges@[j]).0 <= ranges@[j].1 <= value@.len()
                    &&& value@.subrange(ranges@[j].0 as int, ranges@[j].1 as int) == segs[j]
                },
            k <= ranges@.len(),
            entry_views(out@) == tag_entries_of(segs, k as int),
        decreases ranges@.len() - k,
    {
        let (x, y) = ranges[k];
        let (tx, ty) = trim_range(value.as_slice(), x, y);
        if tx < ty {
            let ghost before = out@;
            proof {
                lemma_subrange_shift(s@, a as int, b as int, tx as int, ty as int);
            }
            let e = tag_entry_at(text, a + tx, a + ty);
            proof {
                lemma_entry_views_push(before, e);
            }
            out.push(e);
        }
        k += 1;
    }
    out
}

/// The options of an inclusion directive's attribute list.
#[verifier::rlimit(40)]
pub fn parse_include_attrs(attrs: &str) -> (r: IncludeAttrs<'_>)
    ensures
        include_view(r) == include_attrs_of(attrs@),
{
    let s = chars_of(attrs);
    let mut result = IncludeAttrs {
        lines: None,
        tags: None,
        optional: false,
        leveloffset: 0,
        indent: None,
    };
    let comma = vec![','];
    assert(comma@ == seq![',']);
    let ranges = split_ranges(s.as_slice(), comma.as_slice());
    let ghost parts = split(s@, seq![',']);
    let lines_eq = vec!['l', 'i', 'n', 'e', 's', '='];
    assert(lines_eq@ == lit_lines_eq());
    let tags_eq = vec!['t', 'a', 'g', 's', '='];
    assert(tags_eq@ == lit_tags_eq());
    let tag_eq = vec!['t', 'a', 'g', '='];
    assert(tag_eq@ == lit_tag_eq());
    let opts = vec!['o', 'p', 't', 's', '=', 'o', 'p', 't', 'i', 'o', 'n', 'a', 'l'];
    assert(opts@ == lit_opts_optional());
    let lvl = vec!['l', 'e', 'v', 'e', 'l', 'o', 'f', 'f', 's', 'e', 't', '='];
    assert(lvl@ == lit_leveloffset_eq());
    let ind = vec!['i', 'n', 'd', 'e', 'n', 't', '='];
    assert(ind@ == lit_indent_eq());
    let mut k: usize = 0;
    while k < ranges.len()
        invariant
            s@ == attrs@,
            parts == split(s@, seq![',']),
            ranges@.len() == parts.len(),
            forall|j: int|
                0 <= j < ranges@.len() ==> {
                    &&& (#[trigger] ranges@[j]).0 <= ranges@[j].1 <= s@.len()
                    &&& s@.subrange(ranges@[j].0 as int, ranges@[j].1 as int) == parts[j]
                },
            k <= ranges@.len(),
            include_view(result) == include_parts(parts, k as int),
            lines_eq@ == lit_lines_eq(),
            tags_eq@ == lit_tags_eq(),
            tag_eq@ == lit_tag_eq(),
            opts@ == lit_opts_optional(),
            lvl@ == lit_leveloffset_eq(),
            ind@ == lit_indent_eq(),
        decreases ranges@.len() - k,
    {
        let (x, y) = ranges[k];
        let (a, b) = trim_range(s.as_slice(), x, y);
        let p = slice_vec(s.as_slice(), a, b);
        let ghost acc = include_view(result);
        let ghost pv = p@;
        assert(pv == trim(parts[k as int]));
        let pl = p.len();
        if starts_with_at(p.as_slice(), lines_eq.as_slice()) {
            let rs = ranges_in(s.as_slice(), a + 6, b);
            assert(s@.subrange(a + 6, b as int) =~= pv.skip(6));
            if rs.len() > 0 {
                result.lines = Some(rs);
            }
        } else if starts_with_at(p.as_slice(), tags_eq.as_slice()) {
            let es = tag_entries_in(attrs, s.as_slice(), a + 5, b);
            assert(s@.subrange(a + 5, b as int) =~= pv.skip(5));
            if es.len() > 0 {
                result.tags = Some(TagFilter { entries: es });
            }
        } else if starts_with_at(p.as_slice(), tag_eq.as_slice()) {
            let (va, vb) = trim_range(s.as_slice(), a + 4, b);
            assert(s@.subrange(a + 4, b as int) =~= pv.skip(4));
            if va < vb {
                let ghost v = s@.subrange(va as int, vb as int);
                let mut es: Vec<TagEntry> = Vec::new();
                if s[va] == '!' {
                    assert(v.subrange(0, 1) =~= seq!['!']);
                    let name = attrs.substring_char(va + 1, vb);
                    assert(name@ =~= v.skip(1));
                    es.push(TagEntry { name, included: false });
                } else {
                    assert(v.subrange(0, 1)[0] == v[0]);
                    let name = attrs.substring_char(va, vb);
                    es.push(TagEntry { name, included: true });
                }
                assert(entry_views(es@) =~= seq![tag_entry_of(v)]);
                result.tags = Some(TagFilter { entries: es });
            }
        } else if crate::attrs::same_chars(p.as_slice(), opts.as_slice()) {
            result.optional = true;
        } else if starts_with_at(p.as_slice(), lvl.as_slice()) {
            let (va, vb) = trim_range(s.as_slice(), a + 12, b);
            assert(s@.subrange(a + 12, b as int) =~= pv.skip(12));
            let v = slice_vec(s.as_slice(), va, vb);
            if let Some(n) = parse_i8(v.as_slice()) {
                result.leveloffset = n;
            }
        } else if starts_with_at(p.as_slice(), ind.as_slice()) {
            let (va, vb) = trim_range(s.as_slice(), a + 7, b);
            assert(s@.subrange(a + 7, b as int) =~= pv.skip(7));
            let v = slice_vec(s.as_slice(), va, vb);
            if let Some(n) = parse_usize(v.as_slice()) {
                result.indent = Some(n);
            }
        }
        assert(include_view(result) == include_part(acc, pv));
        k += 1;
    }
    result
}

// ---------------------------------------------------------------------------
// Line filtering
// ---------------------------------------------------------------------------

/// Line `k` (1-based) of a text of `total` lines is selected by `r`.
pub open spec fn covers(r: LineRange, k: int, total: int) -> bool {
    match r {
        LineRange::Single(n) => n == k,
        LineRange::Range(a, b) => a <= k && k <= b,
        LineRange::From(n) => n <= k,
    }
}

pub open spec fn line_selected(ranges: Seq<LineRange>, k: int, total: int) -> bool {
    exists|j: int| 0 <= j < ranges.len() && covers(#[trigger] ranges[j], k, total)
}

/// The lines of `ls` for which `keep` holds, joined with newlines.
pub open spec fn kept_by_lines(ls: Seq<Seq<char>>, ranges: Seq<LineRange>, n: int) -> Seq<char>
    decreases n,
{
    if n <= 0 {
        Seq::empty()
    } else {
        let acc = kept_by_lines(ls, ranges, n - 1);
        if line_selected(ranges, n, ls.len() as int) {
            acc + ls[n - 1].push('\n')
        } else {
            acc
        }
    }
}

/// Drops one final newline.
pub open spec fn chomp(s: Seq<char>) -> Seq<char> {
    if ends_with(s, seq!['\n']) {
        s.drop_last()
    } else {
        s
    }
}

fn chomp_vec(v: &mut Vec<char>)
    ensures
        final(v)@ == chomp(old(v)@),
{
    let n = v.len();
    if n > 0 && v[n - 1] == '\n' {
        assert(v@.subrange(n - 1, n as int) =~= seq!['\n']);
        v.pop();
        assert(v@ =~= old(v)@.drop_last());
    } else {
        proof {
            if n > 0 {
                assert(v@.subrange(n - 1, n as int)[0] == v@[n - 1]);
            }
        }
    }
}

fn range_covers(r: LineRange, k: usize) -> (b: bool)
    ensures
        b == covers(r, k as int, 0),
{
    match r {
        LineRange::Single(n) => n == k,
        LineRange::Range(a, b) => a <= k && k <= b,
        LineRange::From(n) => n <= k,
    }
}

/// The lines of `content` selected by `ranges`, joined with newlines.
pub fn filter_by_lines(content: &str, ranges: &[LineRange]) -> (r: String)
    ensures
        r@ == chomp(
            kept_by_lines(std_lines(content@), ranges@, std_lines(content@).len() as int),
        ),
{
    let cv = chars_of(content);
    let lines = std_lines_chars(cv.as_slice());
    let ghost ls = std_lines(content@);
    let total = lines.len();
    let mut out: Vec<char> = Vec::new();
    let mut k: usize = 0;
    while k < total
        invariant
            total == lines@.len() == ls.len(),
            ls == std_lines(content@),
            forall|j: int| 0 <= j < lines@.len() ==> (#[trigger] lines@[j])@ == ls[j],
            k <= total,
            out@ == kept_by_lines(ls, ranges@, k as int),
        decreases total - k,
    {
        let mut sel = false;
        let mut j: usize = 0;
        while j < ranges.len()
            invariant
                j <= ranges@.len(),
                k < total,
                sel == exists|q: int| 0 <= q < j && covers(#[trigger] ranges@[q], k + 1, total as int),
            decreases ranges@.len() - j,
        {
            if range_covers(ranges[j], k + 1) {
                sel = true;
            }
            j += 1;
        }
        if sel {
            push_all(&mut out, lines[k].as_slice());
            out.push('\n');
            assert(out@ =~= kept_by_lines(ls, ranges@, k as int) + ls[k as int].push('\n'));
        }
        k += 1;
    }
    chomp_vec(&mut out);
    string_of(out.as_slice())
}

// ---------------------------------------------------------------------------
// Tag filtering
// ---------------------------------------------------------------------------

pub open spec fn lit_tag_open() -> Seq<char> {
    seq!['t', 'a', 'g', ':', ':']
}

pub open spec fn lit_tag_end() -> Seq<char> {
    seq!['e', 'n', 'd', ':', ':']
}

/// `tag::NAME[]` (start) or `end::NAME[]` (end) on a line, trimmed, with a
/// non-empty name.
pub open spec fn tag_directive_of(line: Seq<char>) -> Option<(Seq<char>, bool)> {
    let t = trim(line);
    if starts_with(t, lit_tag_open()) {
        let rest = t.skip(5);
        if !ends_with(rest, seq!['[', ']']) {
            None
        } else if rest.len() > 2 {
            Some((rest.take(rest.len() - 2), true))
        } else {
            None
        }
    } else if starts_with(t, lit_tag_end()) {
        let rest = t.skip(5);
        if ends_with(rest, seq!['[', ']']) && rest.len() > 2 {
            Some((rest.take(rest.len() - 2), false))
        } else {
            None
        }
    } else {
        None
    }
}

pub open spec fn name_flag_view(r: Option<(&str, bool)>) -> Option<(Seq<char>, bool)> {
    match r {
        Some((t, b)) => Some((t@, b)),
        None => None,
    }
}

/// Recognises a tag directive line.
pub fn is_tag_directive(line: &str) -> (r: Option<(&str, bool)>)
    ensures
        name_flag_view(r) == tag_directive_of(line@),
{
    let v = chars_of(line);
    let n = v.len();
    let (a, b) = trim_range(v.as_slice(), 0, n);
    assert(v@.subrange(0, n as int) =~= v@);
    let t = slice_vec(v.as_slice(), a, b);
    let tl = t.len();
    let open = vec!['t', 'a', 'g', ':', ':'];
    assert(open@ == lit_tag_open());
    let end = vec!['e', 'n', 'd', ':', ':'];
    assert(end@ == lit_tag_end());
    let br = vec!['[', ']'];
    assert(br@ == seq!['[', ']']);
    let is_open = starts_with_at(t.as_slice(), open.as_slice());
    if is_open || starts_with_at(t.as_slice(), end.as_slice()) {
        let rest = slice_vec(t.as_slice(), 5, tl);
        assert(rest@ =~= t@.skip(5));
        if !crate::text::ends_with_at(rest.as_slice(), br.as_slice()) {
            return None;
        }
        let rl = rest.len();
        if rl > 2 {
            let name = line.substring_char(a + 5, a + 5 + rl - 2);
            assert(name@ =~= rest@.take(rl - 2));
            return Some((name, is_open));
        }
        return None;
    }
    None
}

/// The tag filter's settings: whether untagged lines are kept by default,
/// the included and excluded names, and the `*` and `**` wildcards.
pub struct TagRules {
    pub default_include: bool,
    pub included: Set<Seq<char>>,
    pub exclude: Set<Seq<char>>,
    pub wild_include: bool,
    pub wild_exclude: bool,
    pub all_include: bool,
    pub all_exclude: bool,
}

pub open spec fn lit_star() -> Seq<char> {
    seq!['*']
}

pub open spec fn lit_stars() -> Seq<char> {
    seq!['*', '*']
}

pub open spec fn tag_rules(es: Seq<(Seq<char>, bool)>) -> TagRules {
    TagRules {
        default_include: if es.len() > 0 {
            !es[0].1
        } else {
            true
        },
        included: Set::new(
            |n: Seq<char>|
                exists|j: int|
                    0 <= j < es.len() && #[trigger] es[j] == (n, true) && n != lit_star() && n
                        != lit_stars(),
        ),
        exclude: Set::new(
            |n: Seq<char>|
                exists|j: int|
                    0 <= j < es.len() && #[trigger] es[j] == (n, false) && n != lit_star() && n
                        != lit_stars(),
        ),
        wild_include: exists|j: int| 0 <= j < es.len() && #[trigger] es[j] == (lit_star(), true),
        wild_exclude: exists|j: int| 0 <= j < es.len() && #[trigger] es[j] == (lit_star(), false),
        all_include: exists|j: int| 0 <= j < es.len() && #[trigger] es[j] == (lit_stars(), true),
        all_exclude: exists|j: int| 0 <= j < es.len() && #[trigger] es[j] == (lit_stars(), false),
    }
}

/// Whether a line inside the open tags `stack` is kept: some open tag is
/// included (or `*` includes all) and none is excluded (nor does `*`
/// exclude all).
pub open spec fn tagged_kept(rules: TagRules, stack: Seq<Seq<char>>) -> bool {
    (exists|j: int|
        0 <= j < stack.len() && (rules.included.contains(#[trigger] stack[j]) || rules.wild_include))
        && !(exists|j: int|
        0 <= j < stack.len() && (rules.exclude.contains(#[trigger] stack[j]) || rules.wild_exclude))
}

pub open spec fn untagged_kept(rules: TagRules) -> bool {
    if rules.all_include {
        true
    } else if rules.all_exclude {
        false
    } else {
        rules.default_include
    }
}

/// The last index of `name` in `stack`.
pub open spec fn last_index(stack: Seq<Seq<char>>, name: Seq<char>, j: int) -> Option<int>
    decreases j,
{
    if j <= 0 {
        None
    } else if stack[j - 1] == name {
        Some(j - 1)
    } else {
        last_index(stack, name, j - 1)
    }
}

/// The open-tag stack after a tag directive line.
pub open spec fn tag_stack_after(stack: Seq<Seq<char>>, name: Seq<char>, start: bool) -> Seq<
    Seq<char>,
> {
    if start {
        stack.push(name)
    } else {
        match last_index(stack, name, stack.len() as int) {
            Some(p) => stack.remove(p),
            None => stack,
        }
    }
}

/// Lines `ls[k..]` kept by the tag filter, each with its newline, from the
/// open-tag stack `stack`; tag directive lines are dropped.
pub open spec fn kept_by_tags(
    ls: Seq<Seq<char>>,
    k: int,
    stack: Seq<Seq<char>>,
    rules: TagRules,
) -> Seq<char>
    decreases ls.len() - k,
{
    if k < 0 || k >= ls.len() {
        Seq::empty()
    } else {
        match tag_directive_of(ls[k]) {
            Some((name, start)) => kept_by_tags(
                ls,
                k + 1,
                tag_stack_after(stack, name, start),
                rules,
            ),
            None => {
                let keep = if stack.len() > 0 {
                    tagged_kept(rules, stack)
                } else {
                    untagged_kept(rules)
                };
                (if keep {
                    ls[k].push('\n')
                } else {
                    Seq::empty()
                }) + kept_by_tags(ls, k + 1, stack, rules)
            },
        }
    }
}

struct TagRulesExec {
    default_include: bool,
    included: crate::attrs::NameSet,
    exclude: crate::attrs::NameSet,
    wild_include: bool,
    wild_exclude: bool,
    all_include: bool,
    all_exclude: bool,
}

impl TagRulesExec {
    spec fn view(&self) -> TagRules {
        TagRules {
            default_include: self.default_include,
            included: self.included@,
            exclude: self.exclude@,
            wild_include: self.wild_include,
            wild_exclude: self.wild_exclude,
            all_include: self.all_include,
            all_exclude: self.all_exclude,
        }
    }
}

fn build_rules(filter: &TagFilter) -> (r: TagRulesExec)
    ensures
        r.included.wf(),
        r.exclude.wf(),
        r.view() == tag_rules(entry_views(filter.entries@)),
{
    let ghost es = entry_views(filter.entries@);
    let n = filter.entries.len();
    let default_include = if n > 0 {
        !filter.entries[0].included
    } else {
        true
    };
    let star = vec!['*'];
    assert(star@ == lit_star());
    let stars = vec!['*', '*'];
    assert(stars@ == lit_stars());
    let mut r = TagRulesExec {
        default_include,
        included: crate::attrs::NameSet::new(),
        exclude: crate::attrs::NameSet::new(),
        wild_include: false,
        wild_exclude: false,
        all_include: false,
        all_exclude: false,
    };
    let mut k: usize = 0;
    while k < n
        invariant
            n == filter.entries@.len(),
            es == entry_views(filter.entries@),
            star@ == lit_star(),
            stars@ == lit_stars(),
            k <= n,
            r.included.wf(),
            r.exclude.wf(),
            r.default_include == tag_rules(es).default_include,
            forall|x: Seq<char>|
                #[trigger] r.included@.contains(x) == exists|j: int|
                    0 <= j < k && #[trigger] es[j] == (x, true) && x != lit_star() && x
                        != lit_stars(),
            forall|x: Seq<char>|
                #[trigger] r.exclude@.contains(x) == exists|j: int|
                    0 <= j < k && #[trigger] es[j] == (x, false) && x != lit_star() && x
                        != lit_stars(),
            r.wild_include == exists|j: int| 0 <= j < k && #[trigger] es[j] == (lit_star(), true),
            r.wild_exclude == exists|j: int| 0 <= j < k && #[trigger] es[j] == (lit_star(), false),
            r.all_include == exists|j: int| 0 <= j < k && #[trigger] es[j] == (lit_stars(), true),
            r.all_exclude == exists|j: int| 0 <= j < k && #[trigger] es[j] == (lit_stars(), false),
        decreases n - k,
    {
        let e = &filter.entries[k];
        let name = chars_of(e.name);
        assert(es[k as int] == (name@, e.included));
        let is_star = crate::attrs::same_chars(name.as_slice(), star.as_slice());
        let is_stars = crate::attrs::same_chars(name.as_slice(), stars.as_slice());
        if is_stars {
            if e.included {
                r.all_include = true;
            } else {
                r.all_exclude = true;
            }
        } else if is_star {
            if e.included {
                r.wild_include = true;
            } else {
                r.wild_exclude = true;
            }
        } else if e.included {
            r.included.insert_chars(name.as_slice());
        } else {
            r.exclude.insert_chars(name.as_slice());
        }
        proof {
            assert forall|x: Seq<char>| #[trigger] r.included@.contains(x) == exists|j: int|
                0 <= j < k + 1 && #[trigger] es[j] == (x, true) && x != lit_star() && x
                    != lit_stars() by {
                if es[k as int] == (x, true) && x != lit_star() && x != lit_stars() {
                    assert(r.included@.contains(x));
                }
            }
            assert forall|x: Seq<char>| #[trigger] r.exclude@.contains(x) == exists|j: int|
                0 <= j < k + 1 && #[trigger] es[j] == (x, false) && x != lit_star() && x
                    != lit_stars() by {
                if es[k as int] == (x, false) && x != lit_star() && x != lit_stars() {
                    assert(r.exclude@.contains(x));
                }
            }
            assert(lit_star() != lit_stars()) by {
                assert(lit_star().len() != lit_stars().len());
            }
            assert(r.wild_include == exists|j: int|
                0 <= j < k + 1 && #[trigger] es[j] == (lit_star(), true)) by {
                if es[k as int] == (lit_star(), true) {
                    assert(name@ == lit_star());
                }
            }
            assert(r.wild_exclude == exists|j: int|
                0 <= j < k + 1 && #[trigger] es[j] == (lit_star(), false)) by {
                if es[k as int] == (lit_star(), false) {
                    assert(name@ == lit_star());
                }
            }
            assert(r.all_include == exists|j: int|
                0 <= j < k + 1 && #[trigger] es[j] == (lit_stars(), true)) by {
                if es[k as int] == (lit_stars(), true) {
                    assert(name@ == lit_stars());
                }
            }
            assert(r.all_exclude == exists|j: int|
                0 <= j < k + 1 && #[trigger] es[j] == (lit_stars(), false)) by {
                if es[k as int] == (lit_stars(), false) {
                    assert(name@ == lit_stars());
                }
            }
        }
        k += 1;
    }
    assert(r.included@ =~= tag_rules(es).included);
    assert(r.exclude@ =~= tag_rules(es).exclude);
    r
}

fn stack_kept(rules: &TagRulesExec, stack: &Vec<Vec<char>>) -> (r: bool)
    requires
        rules.included.wf(),
        rules.exclude.wf(),
    ensures
        r == tagged_kept(rules.view(), line_views(stack@)),
{
    let ghost sv = line_views(stack@);
    let ghost rv = rules.view();
    let mut inc = false;
    let mut exc = false;
    let mut j: usize = 0;
    while j < stack.len()
        invariant
            rules.included.wf(),
            rules.exclude.wf(),
            rv == rules.view(),
            sv == line_views(stack@),
            sv.len() == stack@.len(),
            j <= stack@.len(),
            inc == exists|q: int|
                0 <= q < j && (rv.included.contains(#[trigger] sv[q]) || rv.wild_include),
            exc == exists|q: int|
                0 <= q < j && (rv.exclude.contains(#[trigger] sv[q]) || rv.wild_exclude),
        decreases stack@.len() - j,
    {
        assert(sv[j as int] == stack@[j as int]@);
        if rules.included.contains_chars(stack[j].as_slice()) || rules.wild_include {
            inc = true;
        }
        if rules.exclude.contains_chars(stack[j].as_slice()) || rules.wild_exclude {
            exc = true;
        }
        j += 1;
    }
    inc && !exc
}

/// The lines of `content` kept by the tag filter, joined with newlines.
pub fn filter_by_tags(content: &str, filter: &TagFilter) -> (r: String)
    ensures
        r@ == chomp(
            kept_by_tags(
                std_lines(content@),
                0,
                Seq::empty(),
                tag_rules(entry_views(filter.entries@)),
            ),
        ),
{
    let rules = build_rules(filter);
    let ghost rv = rules.view();
    let cv = chars_of(content);
    let lines = std_lines_chars(cv.as_slice());
    let ghost ls = std_lines(content@);
    let total = lines.len();
    let mut stack: Vec<Vec<char>> = Vec::new();
    let mut out: Vec<char> = Vec::new();
    let mut k: usize = 0;
    assert(line_views(stack@) =~= Seq::<Seq<char>>::empty());
    assert(out@ + kept_by_tags(ls, 0, Seq::empty(), rv) =~= kept_by_tags(ls, 0, Seq::empty(), rv));
    while k < total
        invariant
            total == lines@.len() == ls.len(),
            ls == std_lines(content@),
            forall|j: int| 0 <= j < lines@.len() ==> (#[trigger] lines@[j])@ == ls[j],
            rules.included.wf(),
            rules.exclude.wf(),
            rv == rules.view(),
            k <= total,
            kept_by_tags(ls, 0, Seq::empty(), rv) == out@ + kept_by_tags(
                ls,
                k as int,
                line_views(stack@),
                rv,
            ),
        decreases total - k,
    {
        let ghost before = out@;
        let ghost sv = line_views(stack@);
        let line = &lines[k];
        let ls_str = string_of(line.as_slice());
        match is_tag_directive(ls_str.as_str()) {
            Some((name, start)) => {
                let nv = chars_of(name);
                if start {
                    stack.push(nv);
                    assert(line_views(stack@) =~= sv.push(nv@));
                } else {
                    let mut p = stack.len();
                    let mut found = false;
                    while p > 0 && !found
                        invariant
                            p <= stack@.len(),
                            sv == line_views(stack@),
                            !found ==> last_index(sv, nv@, stack@.len() as int) == last_index(
                                sv,
                                nv@,
                                p as int,
                            ),
                            found ==> p < stack@.len() && last_index(
                                sv,
                                nv@,
                                stack@.len() as int,
                            ) == Some(p as int),
                        decreases p + (if found { 0int } else { 1int }),
                    {
                        assert(sv[p - 1] == stack@[p - 1]@);
                        if crate::attrs::same_chars(stack[p - 1].as_slice(), nv.as_slice()) {
                            found = true;
                            p = p - 1;
                        } else {
                            p = p - 1;
                        }
                    }
                    if found {
                        stack.remove(p);
                        assert(line_views(stack@) =~= sv.remove(p as int));
                    }
                }
                k += 1;
            },
            None => {
                let keep = if stack.len() > 0 {
                    stack_kept(&rules, &stack)
                } else {
                    if rules.all_include {
                        true
                    } else if rules.all_exclude {
                        false
                    } else {
                        rules.default_include
                    }
                };
                if keep {
                    push_all(&mut out, line.as_slice());
                    out.push('\n');
                }
                proof {
                    let r = kept_by_tags(ls, k + 1, sv, rv);
                    assert(out@ + r =~= before + ((if keep {
                        ls[k as int].push('\n')
                    } else {
                        Seq::empty()
                    }) + r));
                }
                k += 1;
            },
        }
    }
    assert(out@ + kept_by_tags(ls, total as int, line_views(stack@), rv)
        =~= out@);
    chomp_vec(&mut out);
    string_of(out.as_slice())
}

// ---------------------------------------------------------------------------
// Level offset and indentation
// ---------------------------------------------------------------------------

/// Heading level marker of a line: the number of leading `=` after leading
/// whitespace, when it is 1 to 6 and a space follows.
pub open spec fn heading_marks(line: Seq<char>) -> Option<int> {
    let t = crate::text::trim_start(line);
    let e = crate::text::count_lead(t, '=');
    if 1 <= e <= 6 && starts_with(t.skip(e), seq![' ']) {
        Some(e)
    } else {
        None
    }
}

pub open spec fn clamp_level(v: int) -> int {
    if v < 1 {
        1
    } else if v > 6 {
        6
    } else {
        v
    }
}

/// A line with its heading marker shifted by `offset` (kept within 1 to 6
/// `=`), leading whitespace dropped; other lines unchanged.
pub open spec fn shifted_line(line: Seq<char>, offset: int) -> Seq<char> {
    match heading_marks(line) {
        Some(e) => {
            let t = crate::text::trim_start(line);
            Seq::new(clamp_level(e + offset) as nat, |k: int| '=') + t.skip(e)
        },
        None => line,
    }
}

pub open spec fn shifted_lines(ls: Seq<Seq<char>>, offset: int, n: int) -> Seq<char>
    decreases n,
{
    if n <= 0 {
        Seq::empty()
    } else {
        shifted_lines(ls, offset, n - 1) + shifted_line(ls[n - 1], offset).push('\n')
    }
}

/// `content` with heading levels shifted by `offset`; unchanged when the
/// offset is zero; the last newline goes when `content` has none at its end.
pub open spec fn level_offset_of(content: Seq<char>, offset: int) -> Seq<char> {
    if offset == 0 {
        content
    } else {
        let ls = std_lines(content);
        let r = shifted_lines(ls, offset, ls.len() as int);
        if !ends_with(content, seq!['\n']) {
            chomp(r)
        } else {
            r
        }
    }
}

/// Adjusts section heading levels by `offset`.
pub fn apply_level_offset(content: &str, offset: i8) -> (r: String)
    ensures
        r@ == level_offset_of(content@, offset as int),
{
    let cv = chars_of(content);
    if offset == 0 {
        return string_of(cv.as_slice());
    }
    let lines = std_lines_chars(cv.as_slice());
    let ghost ls = std_lines(content@);
    let total = lines.len();
    let mut out: Vec<char> = Vec::new();
    let mut k: usize = 0;
    while k < total
        invariant
            total == lines@.len() == ls.len(),
            ls == std_lines(content@),
            forall|j: int| 0 <= j < lines@.len() ==> (#[trigger] lines@[j])@ == ls[j],
            k <= total,
            out@ == shifted_lines(ls, offset as int, k as int),
        decreases total - k,
    {
        let line = &lines[k];
        let n = line.len();
        let st = crate::text::trim_start_range(line.as_slice(), 0, n);
        assert(line@.subrange(0, n as int) =~= line@);
        let t = slice_vec(line.as_slice(), st, n);
        let e = crate::text::skip_run(t.as_slice(), '=', 0);
        let tl = t.len();
        if 1 <= e && e <= 6 && e < tl && t[e] == ' ' {
            proof {
                assert(t@.skip(e as int).subrange(0, 1) =~= seq![' ']);
            }
            let lvl_i: i16 = (e as i16) + (offset as i16);
            let lvl: usize = if lvl_i < 1 {
                1
            } else if lvl_i > 6 {
                6
            } else {
                lvl_i as usize
            };
            let ghost before = out@;
            let mut q: usize = 0;
            while q < lvl
                invariant
                    q <= lvl,
                    out@ == before + Seq::new(q as nat, |j: int| '='),
                decreases lvl - q,
            {
                out.push('=');
                q += 1;
                assert(out@ =~= before + Seq::new(q as nat, |j: int| '='));
            }
            let rest = slice_vec(t.as_slice(), e, tl);
            push_all(&mut out, rest.as_slice());
            out.push('\n');
            proof {
                assert(heading_marks(ls[k as int]) == Some(e as int));
                assert(out@ =~= before + (Seq::new(lvl as nat, |j: int| '=') + t@.skip(e as int)).push(
                    '\n',
                ));
            }
        } else {
            proof {
                if 1 <= e && e <= 6 && e < tl {
                    assert(t@.skip(e as int).subrange(0, 1)[0] == t@[e as int]);
                }
                assert(heading_marks(ls[k as int]) is None);
            }
            push_all(&mut out, line.as_slice());
            out.push('\n');
            assert(out@ =~= shifted_lines(ls, offset as int, k as int) + line@.push('\n'));
        }
        k += 1;
    }
    let nl = vec!['\n'];
    assert(nl@ == seq!['\n']);
    if !crate::text::ends_with_at(cv.as_slice(), nl.as_slice()) {
        chomp_vec(&mut out);
    }
    string_of(out.as_slice())
}


// ---------------------------------------------------------------------------
// Indentation
// ---------------------------------------------------------------------------

/// Bytes of the UTF-8 encoding of `c`.
pub open spec fn utf8_width(c: char) -> int {
    let u = c as u32;
    if u < 0x80 {
        1
    } else if u < 0x800 {
        2
    } else if u < 0x10000 {
        3
    } else {
        4
    }
}

/// Bytes of the UTF-8 encoding of `t`.
pub open spec fn byte_width(t: Seq<char>) -> int
    decreases t.len(),
{
    if t.len() == 0 {
        0
    } else {
        byte_width(t.drop_last()) + utf8_width(t.last())
    }
}

pub proof fn lemma_byte_width_bounds(t: Seq<char>)
    ensures
        0 <= byte_width(t) <= 4 * t.len(),
    decreases t.len(),
{
    if t.len() > 0 {
        lemma_byte_width_bounds(t.drop_last());
    }
}

/// Bytes of the leading whitespace of a line.
pub open spec fn lead_bytes(l: Seq<char>) -> int {
    byte_width(l.take(crate::text::skip_ws_from(l, 0)))
}

pub open spec fn nonblank(l: Seq<char>) -> bool {
    trim(l).len() > 0
}

/// The least leading-whitespace byte count over the non-blank lines among
/// the first `n`.
pub open spec fn min_lead(ls: Seq<Seq<char>>, n: int) -> Option<int>
    decreases n,
{
    if n <= 0 {
        None
    } else {
        let m = min_lead(ls, n - 1);
        if nonblank(ls[n - 1]) {
            let v = lead_bytes(ls[n - 1]);
            match m {
                Some(x) => Some(if v < x { v } else { x }),
                None => Some(v),
            }
        } else {
            m
        }
    }
}

pub open spec fn min_indent_of(ls: Seq<Seq<char>>) -> int {
    match min_lead(ls, ls.len() as int) {
        Some(m) => m,
        None => 0,
    }
}

/// The number of chars of `l` from `c` on whose bytes total `m`.
pub open spec fn cut_from(l: Seq<char>, c: int, m: int) -> Option<int>
    decreases l.len() - c,
{
    if c < 0 || c > l.len() {
        None
    } else if byte_width(l.take(c)) == m {
        Some(c)
    } else if c == l.len() {
        None
    } else {
        cut_from(l, c + 1, m)
    }
}

/// The chars of `l` that make up its first `m` bytes.
pub open spec fn cut_at(l: Seq<char>, m: int) -> Option<int> {
    cut_from(l, 0, m)
}

/// A line re-indented: blank lines become empty; others lose the common
/// indentation `m` (in bytes) and get `indent` spaces.
pub open spec fn indented_line(l: Seq<char>, m: int, indent: int) -> Seq<char> {
    if !nonblank(l) {
        seq!['\n']
    } else {
        Seq::new(indent as nat, |k: int| ' ') + l.skip(
            match cut_at(l, m) {
                Some(c) => c,
                None => crate::text::skip_ws_from(l, 0),
            },
        ) + seq!['\n']
    }
}

pub open spec fn indented_lines(ls: Seq<Seq<char>>, m: int, indent: int, n: int) -> Seq<char>
    decreases n,
{
    if n <= 0 {
        Seq::empty()
    } else {
        indented_lines(ls, m, indent, n - 1) + indented_line(ls[n - 1], m, indent)
    }
}

/// `content` with the common leading whitespace of its non-blank lines
/// replaced by `indent` spaces; the last newline goes when `content` has
/// none at its end.
pub open spec fn indent_of(content: Seq<char>, indent: int) -> Seq<char> {
    let ls = std_lines(content);
    let r = indented_lines(ls, min_indent_of(ls), indent, ls.len() as int);
    if !ends_with(content, seq!['\n']) {
        chomp(r)
    } else {
        r
    }
}

/// The common indentation falls on a char boundary of every non-blank line.
pub open spec fn indent_cut_ok(content: Seq<char>) -> bool {
    let ls = std_lines(content);
    forall|k: int|
        0 <= k < ls.len() && nonblank(#[trigger] ls[k]) ==> cut_at(ls[k], min_indent_of(ls)) is Some
}

fn char_width(c: char) -> (w: u128)
    ensures
        w == utf8_width(c),
{
    let u = c as u32;
    if u < 0x80 {
        1
    } else if u < 0x800 {
        2
    } else if u < 0x10000 {
        3
    } else {
        4
    }
}

fn lead_bytes_exec(l: &[char]) -> (r: u128)
    ensures
        r == lead_bytes(l@),
{
    let e = crate::text::skip_ws(l, 0);
    let mut acc: u128 = 0;
    let mut k: usize = 0;
    while k < e
        invariant
            e <= l@.len(),
            k <= e,
            acc == byte_width(l@.take(k as int)),
        decreases e - k,
    {
        proof {
            lemma_byte_width_bounds(l@.take(k as int));
            assert(l@.take(k + 1).drop_last() =~= l@.take(k as int));
        }
        acc = acc + char_width(l[k]);
        k += 1;
    }
    acc
}

fn is_nonblank(l: &[char]) -> (r: bool)
    ensures
        r == nonblank(l@),
{
    trim_vec(l).len() > 0
}

fn min_indent_exec(lines: &Vec<Vec<char>>) -> (r: u128)
    ensures
        r == min_indent_of(line_views(lines@)),
{
    let ghost ls = line_views(lines@);
    let mut m: Option<u128> = None;
    let mut k: usize = 0;
    while k < lines.len()
        invariant
            ls == line_views(lines@),
            k <= lines@.len(),
            match m {
                Some(x) => min_lead(ls, k as int) == Some(x as int),
                None => min_lead(ls, k as int) is None,
            },
        decreases lines@.len() - k,
    {
        assert(ls[k as int] == lines@[k as int]@);
        if is_nonblank(lines[k].as_slice()) {
            let v = lead_bytes_exec(lines[k].as_slice());
            m = match m {
                Some(x) => Some(if v < x { v } else { x }),
                None => Some(v),
            };
        }
        k += 1;
    }
    match m {
        Some(x) => x,
        None => 0,
    }
}

fn cut_exec(l: &[char], m: u128) -> (r: Option<usize>)
    ensures
        match r {
            Some(c) => cut_at(l@, m as int) == Some(c as int) && c <= l@.len(),
            None => cut_at(l@, m as int) is None,
        },
{
    let n = l.len();
    let mut acc: u128 = 0;
    let mut c: usize = 0;
    assert(l@.take(0) =~= Seq::<char>::empty());
    while c < n && acc != m
        invariant
            c <= n == l@.len(),
            acc == byte_width(l@.take(c as int)),
            cut_at(l@, m as int) == cut_from(l@, c as int, m as int),
        decreases n - c,
    {
        proof {
            lemma_byte_width_bounds(l@.take(c as int));
            assert(l@.take(c + 1).drop_last() =~= l@.take(c as int));
        }
        acc = acc + char_width(l[c]);
        c += 1;
    }
    if acc == m {
        Some(c)
    } else {
        None
    }
}

/// Whether the common indentation of `content` can be cut on char
/// boundaries (the condition `apply_indent` requires).
pub fn indent_cuts_ok(content: &str) -> (r: bool)
    ensures
        r == indent_cut_ok(content@),
{
    let cv = chars_of(content);
    let lines = std_lines_chars(cv.as_slice());
    let ghost ls = std_lines(content@);
    assert(line_views(lines@) =~= ls) by {
        assert forall|j: int| 0 <= j < ls.len() implies line_views(lines@)[j] == ls[j] by {
            assert(line_views(lines@)[j] == lines@[j]@);
        }
    }
    let m = min_indent_exec(&lines);
    let mut k: usize = 0;
    while k < lines.len()
        invariant
            lines@.len() == ls.len(),
            ls == std_lines(content@),
            forall|j: int| 0 <= j < lines@.len() ==> (#[trigger] lines@[j])@ == ls[j],
            m == min_indent_of(ls),
            k <= lines@.len(),
            forall|j: int|
                0 <= j < k && nonblank(#[trigger] ls[j]) ==> cut_at(ls[j], min_indent_of(ls)) is Some,
        decreases lines@.len() - k,
    {
        if is_nonblank(lines[k].as_slice()) && cut_exec(lines[k].as_slice(), m).is_none() {
            return false;
        }
        k += 1;
    }
    true
}

/// Replaces the common indentation of the non-blank lines of `content` by
/// `indent` spaces; blank lines become empty.
pub fn apply_indent(content: &str, indent: usize) -> (r: String)
    requires
        indent_cut_ok(content@),
    ensures
        r@ == indent_of(content@, indent as int),
{
    let cv = chars_of(content);
    let lines = std_lines_chars(cv.as_slice());
    let ghost ls = std_lines(content@);
    assert(line_views(lines@) =~= ls) by {
        assert forall|j: int| 0 <= j < ls.len() implies line_views(lines@)[j] == ls[j] by {
            assert(line_views(lines@)[j] == lines@[j]@);
        }
    }
    let m = min_indent_exec(&lines);
    let mut out: Vec<char> = Vec::new();
    let mut k: usize = 0;
    while k < lines.len()
        invariant
            lines@.len() == ls.len(),
            ls == std_lines(content@),
            forall|j: int| 0 <= j < lines@.len() ==> (#[trigger] lines@[j])@ == ls[j],
            m == min_indent_of(ls),
            indent_cut_ok(content@),
            k <= lines@.len(),
            out@ == indented_lines(ls, m as int, indent as int, k as int),
        decreases lines@.len() - k,
    {
        let line = &lines[k];
        let ghost before = out@;
        if !is_nonblank(line.as_slice()) {
            out.push('\n');
            assert(out@ =~= before + indented_line(ls[k as int], m as int, indent as int));
        } else {
            let c = match cut_exec(line.as_slice(), m) {
                Some(c) => c,
                None => {
                    assert(false);
                    0
                },
            };
            let mut q: usize = 0;
            while q < indent
                invariant
                    q <= indent,
                    out@ == before + Seq::new(q as nat, |j: int| ' '),
                decreases indent - q,
            {
                out.push(' ');
                q += 1;
                assert(out@ =~= before + Seq::new(q as nat, |j: int| ' '));
            }
            let rest = slice_vec(line.as_slice(), c, line.len());
            push_all(&mut out, rest.as_slice());
            out.push('\n');
            assert(rest@ =~= line@.skip(c as int));
            assert(out@ =~= before + indented_line(ls[k as int], m as int, indent as int));
        }
        k += 1;
    }
    let nl = vec!['\n'];
    assert(nl@ == seq!['\n']);
    if !crate::text::ends_with_at(cv.as_slice(), nl.as_slice()) {
        chomp_vec(&mut out);
    }
    string_of(out.as_slice())
}

// ---------------------------------------------------------------------------
// Targets and directive lines
// ---------------------------------------------------------------------------

pub open spec fn uri_char(c: char) -> bool {
    alnum_char(c) || c == '.' || c == '+' || c == '-'
}

pub open spec fn uri_scheme_from(t: Seq<char>, i: int, middle: int) -> bool
    decreases t.len() - i,
{
    if i < 0 || i >= t.len() {
        false
    } else if t[i] == ':' {
        middle >= 1
    } else if uri_char(t[i]) {
        uri_scheme_from(t, i + 1, middle + 1)
    } else {
        false
    }
}

/// A target that reads as a URI: an alphabetic char, at least one more
/// scheme char (alphanumeric, `.`, `+`, `-`), then a colon.
pub open spec fn uriish(t: Seq<char>) -> bool {
    t.len() > 0 && alpha_char(t[0]) && uri_scheme_from(t, 1, 0)
}

/// Whether an inclusion target is a URI rather than a file path.
pub fn is_uriish(target: &str) -> (r: bool)
    ensures
        r == uriish(target@),
{
    let t = chars_of(target);
    let n = t.len();
    if n == 0 || !char_is_alphabetic(t[0]) {
        return false;
    }
    let mut i: usize = 1;
    let mut middle: usize = 0;
    while i < n
        invariant
            1 <= i <= n == t@.len(),
            t@ == target@,
            alpha_char(t@[0]),
            middle == i - 1,
            uri_scheme_from(t@, 1, 0) == uri_scheme_from(t@, i as int, middle as int),
        decreases n - i,
    {
        let c = t[i];
        if c == ':' {
            return middle >= 1;
        }
        if char_is_alphanumeric(c) || c == '.' || c == '+' || c == '-' {
            middle += 1;
            i += 1;
        } else {
            return false;
        }
    }
    false
}

/// The word of the directive, `include`, spelled out.
pub open spec fn lit_directive_word() -> Seq<char> {
    seq!['i', 'n', 'c', 'l', 'u', 'd', 'e']
}

fn directive_word() -> (r: Vec<char>)
    ensures
        r@ == lit_directive_word(),
{
    let r = vec!['i', 'n', 'c', 'l', 'u', 'd', 'e'];
    assert(r@ == lit_directive_word());
    r
}

/// `Unresolved directive in <file> - include::<path>[<attrs>]` and a
/// newline (`<stdin>` when the source file is unknown).
pub open spec fn unresolved_text(source: Option<Seq<char>>, path: Seq<char>, attrs: Seq<char>) -> Seq<
    char,
> {
    seq!['U', 'n', 'r', 'e', 's', 'o', 'l', 'v', 'e', 'd', ' ', 'd', 'i', 'r', 'e', 'c', 't', 'i', 'v', 'e', ' ', 'i', 'n', ' ']
        + match source {
        Some(f) => f,
        None => seq!['<', 's', 't', 'd', 'i', 'n', '>'],
    } + seq![' ', '-', ' '] + lit_directive_word() + seq![':', ':'] + path + seq!['['] + attrs + seq![
        ']',
        '\n',
    ]
}

/// The placeholder for an inclusion that could not be resolved.
pub fn write_unresolved_include(source_file: Option<&str>, path: &str, attrs_str: &str) -> (r: String)
    ensures
        r@ == unresolved_text(
            match source_file {
                Some(f) => Some(f@),
                None => None,
            },
            path@,
            attrs_str@,
        ),
{
    let mut v = vec!['U', 'n', 'r', 'e', 's', 'o', 'l', 'v', 'e', 'd', ' ', 'd', 'i', 'r', 'e', 'c', 't', 'i', 'v', 'e', ' ', 'i', 'n', ' '];
    let ghost v0 = v@;
    let src = match source_file {
        Some(f) => chars_of(f),
        None => {
            let s = vec!['<', 's', 't', 'd', 'i', 'n', '>'];
            assert(s@ == seq!['<', 's', 't', 'd', 'i', 'n', '>']);
            s
        },
    };
    push_all(&mut v, src.as_slice());
    v.push(' ');
    v.push('-');
    v.push(' ');
    let w = directive_word();
    push_all(&mut v, w.as_slice());
    v.push(':');
    v.push(':');
    let p = chars_of(path);
    push_all(&mut v, p.as_slice());
    v.push('[');
    let a = chars_of(attrs_str);
    push_all(&mut v, a.as_slice());
    v.push(']');
    v.push('\n');
    assert(v@ =~= unresolved_text(
        match source_file {
            Some(f) => Some(f@),
            None => None,
        },
        path@,
        attrs_str@,
    ));
    string_of(v.as_slice())
}

/// What an inclusion target that is a URI becomes: a link macro with the
/// `include` role, and a newline.
pub open spec fn uri_link_text(target: Seq<char>) -> Seq<char> {
    seq!['l', 'i', 'n', 'k', ':'] + target + seq!['[', 'r', 'o', 'l', 'e', '='] + lit_directive_word()
        + seq![']', '\n']
}

pub fn uri_include_link(target: &str) -> (r: String)
    ensures
        r@ == uri_link_text(target@),
{
    let mut v = vec!['l', 'i', 'n', 'k', ':'];
    let t = chars_of(target);
    push_all(&mut v, t.as_slice());
    let role = vec!['[', 'r', 'o', 'l', 'e', '='];
    push_all(&mut v, role.as_slice());
    let w = directive_word();
    push_all(&mut v, w.as_slice());
    v.push(']');
    v.push('\n');
    assert(v@ =~= uri_link_text(target@));
    string_of(v.as_slice())
}

/// A line as the inclusion pass sees it.
pub enum IncludeLine<'a> {
    /// A directive: its target and attribute list.
    Directive { target: &'a str, attrs: &'a str },
    /// An escaped directive: the line without its backslash.
    Escaped(&'a str),
    /// Any other line.
    Text,
}

/// Classifies a line for the inclusion pass: a directive line, a
/// directive-shaped line escaped by a leading backslash, or text.
pub fn classify_include_line(line: &str) -> (r: IncludeLine<'_>)
    ensures
        match r {
            IncludeLine::Directive { target, attrs } => crate::scanner::include_directive_of(
                line@,
            ) == Some((target@, attrs@)),
            IncludeLine::Escaped(rest) => crate::scanner::include_directive_of(line@) is None
                && starts_with(line@, seq!['\\']) && rest@ == line@.skip(1)
                && crate::scanner::include_directive_of(rest@) is Some,
            IncludeLine::Text => crate::scanner::include_directive_of(line@) is None && !(
            starts_with(line@, seq!['\\']) && crate::scanner::include_directive_of(line@.skip(1))
                is Some),
        },
{
    if let Some((target, attrs)) = crate::scanner::is_include_directive(line) {
        return IncludeLine::Directive { target, attrs };
    }
    let v = chars_of(line);
    let n = v.len();
    if n > 0 && v[0] == '\\' {
        let rest = line.substring_char(1, n);
        assert(rest@ =~= line@.skip(1));
        assert(line@.subrange(0, 1) =~= seq!['\\']);
        if crate::scanner::is_include_directive(rest).is_some() {
            return IncludeLine::Escaped(rest);
        }
    } else {
        proof {
            if n > 0 {
                assert(line@.subrange(0, 1)[0] == line@[0]);
            }
        }
    }
    IncludeLine::Text
}

/// Trailing newlines and carriage returns dropped.
pub open spec fn trim_end_newlines(s: Seq<char>) -> Seq<char>
    decreases s.len(),
{
    if s.len() > 0 && (s.last() == '\n' || s.last() == '\r') {
        trim_end_newlines(s.drop_last())
    } else {
        s
    }
}

/// The inserted text of a file: its selected lines when `lines=` is given,
/// else its tagged regions when tags are given, else the whole content
/// without trailing line breaks.
pub fn included_text(content: &str, attrs: &IncludeAttrs) -> (r: String)
    ensures
        r@ == match attrs.lines {
            Some(ranges) => chomp(
                kept_by_lines(std_lines(content@), ranges@, std_lines(content@).len() as int),
            ),
            None => match attrs.tags {
                Some(f) => chomp(
                    kept_by_tags(
                        std_lines(content@),
                        0,
                        Seq::empty(),
                        tag_rules(entry_views(f.entries@)),
                    ),
                ),
                None => trim_end_newlines(content@),
            },
        },
{
    match &attrs.lines {
        Some(ranges) => filter_by_lines(content, ranges.as_slice()),
        None => match &attrs.tags {
            Some(f) => filter_by_tags(content, f),
            None => {
                let v = chars_of(content);
                let mut e = v.len();
                assert(v@.take(e as int) =~= v@);
                while e > 0 && (v[e - 1] == '\n' || v[e - 1] == '\r')
                    invariant
                        e <= v@.len(),
                        trim_end_newlines(v@) == trim_end_newlines(v@.take(e as int)),
                    decreases e,
                {
                    assert(v@.take(e as int).drop_last() =~= v@.take(e - 1));
                    e -= 1;
                }
                proof {
                    assert(v@.take(v@.len() as int) =~= v@);
                    if e > 0 {
                        assert(v@.take(e as int).last() == v@[e - 1]);
                    }
                }
                let t = slice_vec(v.as_slice(), 0, e);
                assert(t@ =~= v@.take(e as int));
                string_of(t.as_slice())
            },
        },
    }
}
/// Included files nest at most this deep.
pub const MAX_INCLUDE_DEPTH: usize = 64;

/// What becomes of a directive before any file is read.
pub enum IncludePlan {
    /// This text stands in the directive's place (possibly nothing).
    Emit(String),
    /// The file is to be read and its processed text spliced in.
    Read,
}

pub open spec fn opt_str_view(o: Option<&str>) -> Option<Seq<char>> {
    match o {
        Some(f) => Some(f@),
        None => None,
    }
}

/// What a directive that cannot be resolved leaves: nothing when it is
/// optional, else the placeholder.
pub open spec fn unresolved_or_nothing(
    optional: bool,
    source: Option<Seq<char>>,
    target: Seq<char>,
    attrs: Seq<char>,
) -> Seq<char> {
    if optional {
        Seq::empty()
    } else {
        unresolved_text(source, target, attrs)
    }
}

/// Plans a directive: a URI target becomes a link; a target too deep in
/// the nesting or already being included (`seen`) is unresolved; any
/// other is read.
pub fn plan_include(
    target: &str,
    attrs_str: &str,
    optional: bool,
    source_file: Option<&str>,
    depth: usize,
    seen: bool,
) -> (r: IncludePlan)
    ensures
        uriish(target@) ==> (r matches IncludePlan::Emit(t) && t@ == uri_link_text(target@)),
        !uriish(target@) && (depth >= MAX_INCLUDE_DEPTH || seen) ==> (r matches IncludePlan::Emit(t)
            && t@ == unresolved_or_nothing(optional, opt_str_view(source_file), target@, attrs_str@)),
        !uriish(target@) && !(depth >= MAX_INCLUDE_DEPTH || seen) ==> r is Read,
{
    if is_uriish(target) {
        return IncludePlan::Emit(uri_include_link(target));
    }
    if depth >= MAX_INCLUDE_DEPTH || seen {
        return IncludePlan::Emit(read_failure_text(optional, source_file, target, attrs_str));
    }
    IncludePlan::Read
}

/// What a directive whose file cannot be read leaves.
pub fn read_failure_text(optional: bool, source_file: Option<&str>, target: &str, attrs_str: &str) -> (r:
    String)
    ensures
        r@ == unresolved_or_nothing(optional, opt_str_view(source_file), target@, attrs_str@),
{
    if optional {
        String::new()
    } else {
        let t = write_unresolved_include(source_file, target, attrs_str);
        assert(opt_str_view(source_file) == match source_file {
            Some(f) => Some(f@),
            None => None,
        });
        t
    }
}

/// The text spliced for an included file whose processed text is
/// `adjusted`: nothing when it is empty, else the text and a newline.
pub fn splice_included(adjusted: &str) -> (r: String)
    ensures
        r@ == (if adjusted@.len() == 0 {
            Seq::empty()
        } else {
            adjusted@.push('\n')
        }),
{
    let v = chars_of(adjusted);
    if v.len() == 0 {
        return String::new();
    }
    let mut w = v;
    w.push('\n');
    string_of(w.as_slice())
}

/// The assembled output of the inclusion pass: its last newline dropped
/// when the input did not end with one.
pub fn finish_resolved(input: &str, output: String) -> (r: String)
    ensures
        r@ == finished(input@, output@),
{
    let iv = chars_of(input);
    let ov = chars_of(output.as_str());
    let input_nl = iv.len() > 0 && iv[iv.len() - 1] == '\n';
    if !input_nl && ov.len() > 0 && ov[ov.len() - 1] == '\n' {
        let t = slice_vec(ov.as_slice(), 0, ov.len() - 1);
        assert(t@ =~= output@.drop_last());
        string_of(t.as_slice())
    } else {
        output
    }
}

/// Each line followed by a newline, as the inclusion pass copies text lines.
pub open spec fn assembled(ls: Seq<Seq<char>>) -> Seq<char>
    decreases ls.len(),
{
    if ls.len() == 0 {
        Seq::empty()
    } else {
        ls[0].push('\n') + assembled(ls.skip(1))
    }
}

/// What `finish_resolved` makes of `out` for `input`.
pub open spec fn finished(input: Seq<char>, out: Seq<char>) -> Seq<char> {
    if !(input.len() > 0 && input.last() == '\n') && out.len() > 0 && out.last() == '\n' {
        out.drop_last()
    } else {
        out
    }
}

proof fn lemma_assembled_join(ps: Seq<Seq<char>>)
    requires
        ps.len() >= 1,
    ensures
        assembled(ps) == join_lines(ps).push('\n'),
    decreases ps.len(),
{
    if ps.len() == 1 {
        assert(ps.skip(1) =~= Seq::<Seq<char>>::empty());
        assert(assembled(ps.skip(1)) =~= Seq::<char>::empty());
        assert(assembled(ps) =~= ps[0].push('\n'));
    } else {
        lemma_assembled_join(ps.skip(1));
        assert(assembled(ps) =~= join_lines(ps).push('\n'));
    }
}

proof fn lemma_join_last(ps: Seq<Seq<char>>)
    requires
        ps.len() >= 2,
    ensures
        join_lines(ps) == join_lines(ps.drop_last()) + seq!['\n'] + ps.last(),
    decreases ps.len(),
{
    if ps.len() == 2 {
        assert(ps.skip(1) =~= seq![ps[1]]);
        assert(ps.drop_last() =~= seq![ps[0]]);
        assert(join_lines(ps.skip(1)) == ps[1]);
        assert(join_lines(ps.drop_last()) == ps[0]);
        assert(ps.last() == ps[1]);
    } else {
        lemma_join_last(ps.skip(1));
        assert(ps.skip(1).drop_last() =~= ps.drop_last().skip(1));
        assert(ps.drop_last()[0] == ps[0]);
        assert(ps.skip(1).last() == ps.last());
        assert(ps.drop_last().len() >= 2);
        assert(join_lines(ps.drop_last()) == ps[0] + seq!['\n'] + join_lines(ps.drop_last().skip(1)));
        assert(join_lines(ps) =~= join_lines(ps.drop_last()) + seq!['\n'] + ps.last());
    }
}

/// A text without carriage returns comes back unchanged when each of its
/// lines is copied with a newline and the output finished as the inclusion
/// pass does: what happens to a text none of whose lines is a directive.
pub proof fn law_plain_lines_round_trip(input: Seq<char>)
    requires
        forall|m: int| 0 <= m < input.len() ==> input[m] != '\r',
    ensures
        finished(input, assembled(std_lines(input))) == input,
{
    let nl = seq!['\n'];
    lemma_split_lines(input);
    let ps = split(input, nl);
    let ls = crate::scanner::lines_of(input);
    assert(ls =~= ps) by {
        assert forall|k: int| 0 <= k < ps.len() implies ls[k] == ps[k] by {
            if k < ps.len() - 1 && ends_with(ps[k], seq!['\r']) {
                assert(ps[k].subrange(ps[k].len() - 1, ps[k].len() as int)[0] == ps[k][ps[k].len()
                    - 1]);
            }
        }
    }
    if ps.last().len() == 0 {
        if ps.len() == 1 {
            assert(std_lines(input) =~= Seq::<Seq<char>>::empty());
            assert(input.len() == 0);
        } else {
            assert(std_lines(input) == ps.drop_last());
            lemma_join_last(ps);
            lemma_assembled_join(ps.drop_last());
            assert(join_lines(ps) =~= join_lines(ps.drop_last()).push('\n'));
        }
    } else {
        assert(std_lines(input) == ps);
        lemma_assembled_join(ps);
        assert(assembled(ps).drop_last() =~= input);
    }
}

/// The text spliced for an included file once its own inclusions are
/// resolved (`resolved`): heading levels shifted by `leveloffset`, then
/// re-indented when `indent` is given, then a newline unless empty.
pub open spec fn adjusted_of(resolved: Seq<char>, leveloffset: int, indent: Option<usize>) -> Seq<char> {
    let shifted = level_offset_of(resolved, leveloffset);
    let t = match indent {
        Some(n) => indent_of(shifted, n as int),
        None => shifted,
    };
    if t.len() == 0 {
        Seq::empty()
    } else {
        t.push('\n')
    }
}

/// Adjusts and splices the resolved text of an included file as `attrs`
/// ask; `None` when re-indenting would cut inside a multibyte char.
pub fn splice_resolved(resolved: &str, attrs: &IncludeAttrs) -> (r: Option<String>)
    ensures
        match attrs.indent {
            Some(_) if !indent_cut_ok(level_offset_of(resolved@, attrs.leveloffset as int)) => r is None,
            _ => r matches Some(t) && t@ == adjusted_of(resolved@, attrs.leveloffset as int, attrs.indent),
        },
{
    let shifted = apply_level_offset(resolved, attrs.leveloffset);
    let t = match attrs.indent {
        Some(n) => {
            if !indent_cuts_ok(shifted.as_str()) {
                return None;
            }
            apply_indent(shifted.as_str(), n)
        },
        None => shifted,
    };
    Some(splice_included(t.as_str()))
}

} // verus!
