//! Line-level recognisers for AsciiDoc block syntax: delimiters, section
//! markers, list markers, attribute entries, table cells, header lines.
//! Every recogniser is verified against a specification over the line's
//! characters; sub-strings handed back borrow from the input line.

use vstd::prelude::*;
use vstd::string::StringSliceAdditionalSpecFns;
use crate::text::{
    all_digits, chars_of, contains, count_lead, digits_value, ends_with, ends_with_at, find,
    find_at, is_alnum, is_digit, is_ws, is_whitespace, is_ascii_alphanumeric, is_ascii_digit,
    lemma_ends_with_char, lemma_find_from_bounds, lemma_run_end_bounds, lemma_starts_with_char, match_at, matches_at, parse_uint,
    parse_uint_range, range_eq, rfind, rfind_at, run_end, rtrim, rtrim_len, skip_run, slice_vec,
    split, split_ranges, starts_with, starts_with_at, trim, trim_end, trim_end_range,
    trim_range, trim_start, trim_start_range, lemma_utf8_len_ge, string_of,
    lemma_rfind_upto_bounds,
};
pub use crate::table::{
    CellSpec, ExactCellSpec, TableLineCells, parse_cell_align_prefix, parse_cell_align_suffix,
    parse_cell_spec_exact, parse_cell_style_suffix, parse_span_spec, parse_table_cells,
    parse_table_cells_with_sep, unescape_cell_sep,
};
pub use crate::fields::{parse_csv_fields, parse_dsv_fields, parse_tsv_fields};
pub use crate::header::{AuthorInfo, RevisionInfo, parse_authors, parse_revision_line};
pub use crate::ident::generate_id;
pub use crate::pass::{
    pass_macro_span_len, pass_spec_len, passthrough_span_len, single_plus_span_len,
};

verus! {

// ---------------------------------------------------------------------------
// Shared cell-format enums
// ---------------------------------------------------------------------------

/// Horizontal alignment of a table cell.
#[derive(Debug, Clone, Copy, PartialEq, Eq, Structural)]
pub enum HAlign {
    Left,
    Center,
    Right,
}

/// Vertical alignment of a table cell.
#[derive(Debug, Clone, Copy, PartialEq, Eq, Structural)]
pub enum VAlign {
    Top,
    Middle,
    Bottom,
}

/// Content style of a table cell.
#[derive(Debug, Clone, Copy, PartialEq, Eq, Structural)]
pub enum CellStyle {
    Default,
    AsciiDoc,
    Emphasis,
    Header,
    Literal,
    Monospace,
    Strong,
}

impl Default for HAlign {
    fn default() -> (r: Self)
        ensures
            r == HAlign::Left,
    {
        HAlign::Left
    }
}

impl Default for VAlign {
    fn default() -> (r: Self)
        ensures
            r == VAlign::Top,
    {
        VAlign::Top
    }
}

impl Default for CellStyle {
    fn default() -> (r: Self)
        ensures
            r == CellStyle::Default,
    {
        CellStyle::Default
    }
}

// ---------------------------------------------------------------------------
// BOM, line splitting, blank lines
// ---------------------------------------------------------------------------

pub open spec fn without_bom(s: Seq<char>) -> Seq<char> {
    if s.len() > 0 && s[0] == '\u{feff}' {
        s.skip(1)
    } else {
        s
    }
}

/// Strip a single leading UTF-8 BOM (`U+FEFF`); a BOM elsewhere stays.
pub fn strip_bom(input: &str) -> (r: &str)
    ensures
        r@ == without_bom(input@),
{
    let v = chars_of(input);
    if v.len() > 0 && v[0] == '\u{feff}' {
        input.substring_char(1, v.len())
    } else {
        input.substring_char(0, v.len())
    }
}

/// The lines of `s`: the pieces between `\n` separators, each but the last
/// with one trailing `\r` removed.
pub open spec fn lines_of(s: Seq<char>) -> Seq<Seq<char>> {
    let parts = split(s, seq!['\n']);
    Seq::new(
        parts.len(),
        |k: int|
            if k < parts.len() - 1 && ends_with(parts[k], seq!['\r']) {
                parts[k].drop_last()
            } else {
                parts[k]
            },
    )
}

pub fn split_lines(input: &str) -> (r: Vec<&str>)
    ensures
        r@.len() == lines_of(input@).len(),
        forall|k: int| 0 <= k < r@.len() ==> (#[trigger] r@[k])@ == lines_of(input@)[k],
{
    let v = chars_of(input);
    let nl = vec!['\n'];
    assert(nl@ == seq!['\n']);
    let cr = vec!['\r'];
    assert(cr@ == seq!['\r']);
    let ranges = split_ranges(v.as_slice(), nl.as_slice());
    let ghost parts = split(v@, nl@);
    let mut out: Vec<&str> = Vec::new();
    let mut k: usize = 0;
    while k < ranges.len()
        invariant
            v@ == input@,
            nl@ == seq!['\n'],
            cr@ == seq!['\r'],
            parts == split(v@, nl@),
            ranges@.len() == parts.len(),
            forall|j: int|
                0 <= j < ranges@.len() ==> {
                    &&& (#[trigger] ranges@[j]).0 <= ranges@[j].1 <= v@.len()
                    &&& v@.subrange(ranges@[j].0 as int, ranges@[j].1 as int) == parts[j]
                },
            k <= ranges@.len(),
            out@.len() == k,
            forall|j: int| 0 <= j < k ==> (#[trigger] out@[j])@ == lines_of(input@)[j],
        decreases ranges@.len() - k,
    {
        let (a, b) = ranges[k];
        let piece = slice_vec(v.as_slice(), a, b);
        let mut e = b;
        if k + 1 < ranges.len() && ends_with_at(piece.as_slice(), cr.as_slice()) {
            e = b - 1;
            proof {
                assert(parts[k as int].drop_last() =~= v@.subrange(a as int, e as int));
            }
        }
        out.push(input.substring_char(a, e));
        k += 1;
    }
    out
}


/// Occurrences of `c` in `s`.
pub open spec fn count_char(s: Seq<char>, c: char) -> int
    decreases s.len(),
{
    if s.len() == 0 {
        0
    } else {
        (if s[0] == c {
            1int
        } else {
            0int
        }) + count_char(s.skip(1), c)
    }
}

pub proof fn lemma_count_concat(a: Seq<char>, b: Seq<char>, c: char)
    ensures
        count_char(a + b, c) == count_char(a, c) + count_char(b, c),
    decreases a.len(),
{
    if a.len() > 0 {
        lemma_count_concat(a.skip(1), b, c);
        assert((a + b).skip(1) =~= a.skip(1) + b);
        assert((a + b)[0] == a[0]);
    } else {
        assert(a + b =~= b);
    }
}

pub proof fn lemma_count_none(s: Seq<char>, c: char)
    requires
        forall|m: int| 0 <= m < s.len() ==> s[m] != c,
    ensures
        count_char(s, c) == 0,
    decreases s.len(),
{
    if s.len() > 0 {
        assert forall|m: int| 0 <= m < s.skip(1).len() implies s.skip(1)[m] != c by {
            assert(s.skip(1)[m] == s[m + 1]);
        }
        lemma_count_none(s.skip(1), c);
    }
}

/// The pieces joined with newlines.
pub open spec fn join_lines(ps: Seq<Seq<char>>) -> Seq<char>
    decreases ps.len(),
{
    if ps.len() <= 1 {
        if ps.len() == 1 {
            ps[0]
        } else {
            Seq::empty()
        }
    } else {
        ps[0] + seq!['\n'] + join_lines(ps.skip(1))
    }
}

pub proof fn lemma_split_lines(s: Seq<char>)
    ensures
        split(s, seq!['\n']).len() >= 1,
        join_lines(split(s, seq!['\n'])) == s,
        split(s, seq!['\n']).len() == count_char(s, '\n') + 1,
        forall|k: int, j: int|
            0 <= k < split(s, seq!['\n']).len() && 0 <= j < split(s, seq!['\n'])[k].len()
                ==> #[trigger] split(s, seq!['\n'])[k][j] != '\n',
        split(s, seq!['\n']).last().len() == 0 <==> (s.len() == 0 || s.last() == '\n'),
        (forall|m: int| 0 <= m < s.len() ==> s[m] != '\r') ==> forall|k: int, j: int|
            0 <= k < split(s, seq!['\n']).len() && 0 <= j < split(s, seq!['\n'])[k].len()
                ==> #[trigger] split(s, seq!['\n'])[k][j] != '\r',
    decreases s.len(),
{
    let nl = seq!['\n'];
    lemma_find_from_bounds(s, nl, 0);
    match find(s, nl) {
        Some(i) => {
            assert(s.subrange(i, i + 1) == nl);
            assert(s.subrange(i, i + 1)[0] == s[i]);
            let r = s.skip(i + 1);
            lemma_split_lines(r);
            let ps = split(s, nl);
            assert(ps == seq![s.take(i)] + split(r, nl));
            assert(ps.skip(1) =~= split(r, nl));
            assert(ps[0] == s.take(i));
            assert(join_lines(ps) == s.take(i) + nl + join_lines(split(r, nl)));
            assert(s.take(i) + nl + r =~= s);
            assert(ps.last() == split(r, nl).last());
            if r.len() > 0 {
                assert(r.last() == s.last());
            }
            lemma_count_concat(s.take(i), s.skip(i), '\n');
            assert(s.take(i) + s.skip(i) =~= s);
            assert(s.skip(i).skip(1) =~= r);
            assert(s.skip(i)[0] == '\n');
            assert(count_char(s.take(i), '\n') == 0) by {
                assert forall|m: int| 0 <= m < s.take(i).len() implies s.take(i)[m] != '\n' by {
                    assert(!match_at(s, nl, m));
                    assert(s.subrange(m, m + 1) =~= seq![s[m]]);
                }
                lemma_count_none(s.take(i), '\n');
            }
            assert forall|k: int, j: int|
                0 <= k < ps.len() && 0 <= j < ps[k].len() implies #[trigger] ps[k][j] != '\n' by {
                if k == 0 {
                    assert(!match_at(s, nl, j));
                    assert(s.subrange(j, j + 1) =~= seq![s[j]]);
                    assert(ps[0][j] == s[j]);
                } else {
                    assert(ps[k] == split(r, nl)[k - 1]);
                }
            }
            if forall|m: int| 0 <= m < s.len() ==> s[m] != '\r' {
                assert forall|k: int, j: int|
                    0 <= k < ps.len() && 0 <= j < ps[k].len() implies #[trigger] ps[k][j] != '\r' by {
                    if k == 0 {
                        assert(ps[0][j] == s[j]);
                    } else {
                        assert(ps[k] == split(r, nl)[k - 1]);
                        assert forall|m: int| 0 <= m < r.len() implies r[m] != '\r' by {
                            assert(r[m] == s[m + i + 1]);
                        }
                    }
                }
            }
        },
        None => {
            assert(split(s, nl) == seq![s]);
            assert forall|m: int| 0 <= m < s.len() implies s[m] != '\n' by {
                assert(!match_at(s, nl, m));
                assert(s.subrange(m, m + 1) =~= seq![s[m]]);
            }
            lemma_count_none(s, '\n');
            if s.len() > 0 {
                assert(!match_at(s, nl, s.len() - 1));
                assert(s.subrange(s.len() - 1, s.len() as int) =~= seq![s.last()]);
            }
        },
    }
}


/// Without carriage returns, the lines `split_lines` gives are the pieces
/// between newlines: joined with newlines they give the input back, there
/// is one more line than newlines, and no line holds a newline.
pub proof fn law_split_lines_join(input: Seq<char>)
    requires
        forall|m: int| 0 <= m < input.len() ==> input[m] != '\r',
    ensures
        join_lines(lines_of(input)) == input,
        lines_of(input).len() == count_char(input, '\n') + 1,
        forall|k: int, j: int|
            0 <= k < lines_of(input).len() && 0 <= j < lines_of(input)[k].len() ==> #[trigger] lines_of(
                input,
            )[k][j] != '\n',
{
    lemma_split_lines(input);
    let ps = split(input, seq!['\n']);
    assert(lines_of(input) =~= ps) by {
        assert forall|k: int| 0 <= k < ps.len() implies lines_of(input)[k] == ps[k] by {
            if k < ps.len() - 1 && ends_with(ps[k], seq!['\r']) {
                assert(ps[k].subrange(ps[k].len() - 1, ps[k].len() as int)[0] == ps[k][ps[k].len()
                    - 1]);
            }
        }
    }
}

pub open spec fn blank(s: Seq<char>) -> bool {
    forall|k: int| 0 <= k < s.len() ==> s[k] == ' ' || s[k] == '\t'
}

pub fn is_blank(line: &str) -> (b: bool)
    ensures
        b == blank(line@),
{
    let v = chars_of(line);
    let mut k: usize = 0;
    while k < v.len()
        invariant
            v@ == line@,
            k <= v@.len(),
            forall|j: int| 0 <= j < k ==> v@[j] == ' ' || v@[j] == '\t',
        decreases v@.len() - k,
    {
        if v[k] != ' ' && v[k] != '\t' {
            return false;
        }
        k += 1;
    }
    true
}

pub fn count_leading(line: &str, ch: char) -> (n: usize)
    ensures
        n == count_lead(line@, ch),
{
    let v = chars_of(line);
    skip_run(v.as_slice(), ch, 0)
}

// ---------------------------------------------------------------------------
// Delimiters and section markers
// ---------------------------------------------------------------------------

#[derive(Debug, Clone, Copy, PartialEq, Eq, Structural)]
pub enum DelimiterType {
    Listing,
    Literal,
    Example,
    Sidebar,
    Quote,
    Open,
    Comment,
    Passthrough,
}

pub open spec fn all_same(t: Seq<char>) -> bool {
    forall|k: int| 0 <= k < t.len() ==> #[trigger] t[k] == t[0]
}

/// A delimiter line: after right-trimming, two or more copies of one
/// delimiter char (`--` exactly, the others four or more times).
pub open spec fn delimiter_of(s: Seq<char>) -> Option<(DelimiterType, int)> {
    let t = trim_end(s);
    let n = t.len() as int;
    if n < 2 || !all_same(t) {
        None
    } else if t[0] == '-' && n == 2 {
        Some((DelimiterType::Open, 2))
    } else if n < 4 {
        None
    } else if t[0] == '-' {
        Some((DelimiterType::Listing, n))
    } else if t[0] == '.' {
        Some((DelimiterType::Literal, n))
    } else if t[0] == '=' {
        Some((DelimiterType::Example, n))
    } else if t[0] == '*' {
        Some((DelimiterType::Sidebar, n))
    } else if t[0] == '_' {
        Some((DelimiterType::Quote, n))
    } else if t[0] == '/' {
        Some((DelimiterType::Comment, n))
    } else if t[0] == '+' {
        Some((DelimiterType::Passthrough, n))
    } else {
        None
    }
}

pub open spec fn delimiter_view(r: Option<(DelimiterType, usize)>) -> Option<(DelimiterType, int)> {
    match r {
        Some((d, n)) => Some((d, n as int)),
        None => None,
    }
}

pub fn delimiter_chars(v: &[char]) -> (r: Option<(DelimiterType, usize)>)
    ensures
        delimiter_view(r) == delimiter_of(v@),
{
    let n = rtrim(v, v.len());
    let ghost t = v@.take(n as int);
    assert(trim_end(v@) == t);
    if n < 2 {
        return None;
    }
    let first = v[0];
    let mut k: usize = 0;
    while k < n
        invariant
            n <= v@.len(),
            t == v@.take(n as int),
            trim_end(v@) == t,
            first == t[0],
            k <= n,
            forall|j: int| 0 <= j < k ==> t[j] == first,
        decreases n - k,
    {
        if v[k] != first {
            assert(t[k as int] != t[0]);
            return None;
        }
        k += 1;
    }
    assert(all_same(t));
    if first == '-' && n == 2 {
        Some((DelimiterType::Open, 2))
    } else if n < 4 {
        None
    } else if first == '-' {
        Some((DelimiterType::Listing, n))
    } else if first == '.' {
        Some((DelimiterType::Literal, n))
    } else if first == '=' {
        Some((DelimiterType::Example, n))
    } else if first == '*' {
        Some((DelimiterType::Sidebar, n))
    } else if first == '_' {
        Some((DelimiterType::Quote, n))
    } else if first == '/' {
        Some((DelimiterType::Comment, n))
    } else if first == '+' {
        Some((DelimiterType::Passthrough, n))
    } else {
        None
    }
}

pub fn is_delimiter(line: &str) -> (r: Option<(DelimiterType, usize)>)
    ensures
        delimiter_view(r) == delimiter_of(line@),
{
    let v = chars_of(line);
    delimiter_chars(v.as_slice())
}

/// A heading: 1 to 6 copies of `marker` at column 0, one space, then a
/// title that is not blank once trimmed.
pub open spec fn heading_of(s: Seq<char>, marker: char) -> Option<(int, Seq<char>)> {
    let level = count_lead(s, marker);
    if level == 0 || level > 6 {
        None
    } else {
        let rest = s.skip(level);
        if !(rest.len() > 0 && rest[0] == ' ') {
            None
        } else {
            let title = trim(rest.skip(1));
            if title.len() == 0 {
                None
            } else {
                Some((level, title))
            }
        }
    }
}

pub open spec fn level_text_view(r: Option<(u8, &str)>) -> Option<(int, Seq<char>)> {
    match r {
        Some((l, t)) => Some((l as int, t@)),
        None => None,
    }
}

/// Heading recogniser on chars: `(level, title_start, title_end)`.
fn heading_chars(v: &[char], marker: char) -> (r: Option<(u8, usize, usize)>)
    ensures
        match r {
            Some((l, a, b)) => a <= b <= v@.len() && heading_of(v@, marker) == Some(
                (l as int, v@.subrange(a as int, b as int)),
            ),
            None => heading_of(v@, marker) is None,
        },
{
    let level = skip_run(v, marker, 0);
    if level == 0 || level > 6 {
        return None;
    }
    let ghost rest = v@.skip(level as int);
    if !(level < v.len() && v[level] == ' ') {
        return None;
    }
    let (a, b) = trim_range(v, level + 1, v.len());
    proof {
        assert(rest.skip(1) =~= v@.subrange(level + 1, v@.len() as int));
    }
    if a == b {
        return None;
    }
    Some((level as u8, a, b))
}

pub open spec fn section_marker_of(s: Seq<char>) -> Option<(int, Seq<char>)> {
    heading_of(s, '=')
}

pub open spec fn markdown_heading_of(s: Seq<char>) -> Option<(int, Seq<char>)> {
    heading_of(s, '#')
}

pub fn strip_section_marker(line: &str) -> (r: Option<(u8, &str)>)
    ensures
        level_text_view(r) == section_marker_of(line@),
{
    let v = chars_of(line);
    match heading_chars(v.as_slice(), '=') {
        Some((l, a, b)) => Some((l, line.substring_char(a, b))),
        None => None,
    }
}

pub fn strip_markdown_heading(line: &str) -> (r: Option<(u8, &str)>)
    ensures
        level_text_view(r) == markdown_heading_of(line@),
{
    let v = chars_of(line);
    match heading_chars(v.as_slice(), '#') {
        Some((l, a, b)) => Some((l, line.substring_char(a, b))),
        None => None,
    }
}

pub open spec fn any_section_marker_of(s: Seq<char>) -> Option<(int, Seq<char>)> {
    match section_marker_of(s) {
        Some(x) => Some(x),
        None => markdown_heading_of(s),
    }
}

pub fn strip_any_section_marker(line: &str) -> (r: Option<(u8, &str)>)
    ensures
        level_text_view(r) == any_section_marker_of(line@),
{
    match strip_section_marker(line) {
        Some(x) => Some(x),
        None => strip_markdown_heading(line),
    }
}

// ---------------------------------------------------------------------------
// Breaks, titles, attribute lines
// ---------------------------------------------------------------------------

/// Markdown thematic break: up to 3 leading spaces, then `c`, `g` spaces,
/// `c`, `g` spaces, `c` (for one `c` of `-`, `*`, `_`), nothing after.
pub open spec fn markdown_break(s: Seq<char>) -> bool {
    let t = trim_end(s);
    let i = count_lead(t, ' ');
    let r = t.skip(i);
    &&& i <= 3
    &&& r.len() >= 3
    &&& (r[0] == '-' || r[0] == '*' || r[0] == '_')
    &&& (r.len() - 3) % 2 == 0
    &&& forall|k: int|
        0 <= k < r.len() ==> #[trigger] r[k] == (if k == 0 || k == (r.len() - 3) / 2 + 1 || k
            == r.len() - 1 {
            r[0]
        } else {
            ' '
        })
}

pub open spec fn thematic_break(s: Seq<char>) -> bool {
    trim(s) == seq!['\'', '\'', '\''] || markdown_break(s)
}

fn is_markdown_thematic_break(v: &[char]) -> (b: bool)
    ensures
        b == markdown_break(v@),
{
    let n = rtrim(v, v.len());
    let t = slice_vec(v, 0, n);
    assert(t@ == trim_end(v@));
    let i = skip_run(t.as_slice(), ' ', 0);
    assert(i == count_lead(trim_end(v@), ' '));
    if i > 3 {
        return false;
    }
    let r = slice_vec(t.as_slice(), i, n);
    assert(r@ =~= t@.skip(i as int));
    let len = r.len();
    if len < 3 {
        return false;
    }
    let c = r[0];
    if !(c == '-' || c == '*' || c == '_') {
        return false;
    }
    if (len - 3) % 2 != 0 {
        return false;
    }
    let g = (len - 3) / 2;
    let mut k: usize = 0;
    while k < len
        invariant
            len == r@.len(),
            i <= 3,
            r@ == trim_end(v@).skip(count_lead(trim_end(v@), ' ')),
            len >= 3,
            c == r@[0],
            g == (len - 3) / 2,
            k <= len,
            forall|j: int|
                0 <= j < k ==> #[trigger] r@[j] == (if j == 0 || j == g + 1 || j == len - 1 {
                    c
                } else {
                    ' '
                }),
        decreases len - k,
    {
        let expected = if k == 0 || k == g + 1 || k == len - 1 {
            c
        } else {
            ' '
        };
        if r[k] != expected {
            return false;
        }
        k += 1;
    }
    true
}

pub fn is_thematic_break(line: &str) -> (b: bool)
    ensures
        b == thematic_break(line@),
{
    let v = chars_of(line);
    let (a, e) = trim_range(v.as_slice(), 0, v.len());
    let q = vec!['\'', '\'', '\''];
    assert(q@ == seq!['\'', '\'', '\'']);
    assert(v@.subrange(0, v@.len() as int) =~= v@);
    range_eq(v.as_slice(), a, e, q.as_slice()) || is_markdown_thematic_break(v.as_slice())
}

pub fn is_page_break(line: &str) -> (b: bool)
    ensures
        b == (trim(line@) == seq!['<', '<', '<']),
{
    let v = chars_of(line);
    let (a, e) = trim_range(v.as_slice(), 0, v.len());
    let q = vec!['<', '<', '<'];
    assert(q@ == seq!['<', '<', '<']);
    assert(v@.subrange(0, v@.len() as int) =~= v@);
    range_eq(v.as_slice(), a, e, q.as_slice())
}

/// `.Title`: a right-trimmed line starting with one `.` followed by a
/// non-space char.
pub open spec fn block_title_of(s: Seq<char>) -> Option<Seq<char>> {
    let t = trim_end(s);
    if starts_with(t, seq!['.']) && !starts_with(t, seq!['.', '.']) && t.len() > 1 && t[1]
        != ' ' {
        Some(t.skip(1))
    } else {
        None
    }
}

pub open spec fn opt_view(r: Option<&str>) -> Option<Seq<char>> {
    match r {
        Some(t) => Some(t@),
        None => None,
    }
}

pub fn is_block_title(line: &str) -> (r: Option<&str>)
    ensures
        opt_view(r) == block_title_of(line@),
{
    let v = chars_of(line);
    let n = trim_end_range(v.as_slice(), 0, v.len());
    let t = slice_vec(v.as_slice(), 0, n);
    assert(v@.subrange(0, v@.len() as int) =~= v@);
    let d1 = vec!['.'];
    assert(d1@ == seq!['.']);
    let d2 = vec!['.', '.'];
    assert(d2@ == seq!['.', '.']);
    assert(d1@ == seq!['.']);
    assert(d2@ == seq!['.', '.']);
    if starts_with_at(t.as_slice(), d1.as_slice()) && !starts_with_at(t.as_slice(), d2.as_slice())
        && n > 1 && t[1] != ' ' {
        assert(t@.skip(1) =~= v@.subrange(1, n as int));
        Some(line.substring_char(1, n))
    } else {
        None
    }
}

/// First char allowed to open a block attribute list.
pub open spec fn attrlist_lead(c: char) -> bool {
    is_alnum(c) || c == '_' || c == '{' || c == ',' || c == '.' || c == '#' || c == '"' || c
        == '\'' || c == '%'
}

/// `[attrs]` block attribute line or a whole-line block anchor `[[id]]`.
pub open spec fn block_attribute_of(s: Seq<char>) -> Option<Seq<char>> {
    let t = trim_end(s);
    let n = t.len() as int;
    if n > 0 && (t[0] == ' ' || t[0] == '\t') {
        None
    } else if !(n >= 2 && t[0] == '[' && t[n - 1] == ']') {
        None
    } else {
        let inner = t.subrange(1, n - 1);
        if inner.len() > 0 && inner[0] == '[' {
            if n >= 4 && t[1] == '[' && t[n - 2] == ']' {
                let interior = t.subrange(2, n - 2);
                if interior.len() > 0 && !contains(interior, seq!['[']) && !contains(
                    interior,
                    seq![']'],
                ) {
                    Some(inner)
                } else {
                    None
                }
            } else {
                None
            }
        } else if inner.len() > 0 && !attrlist_lead(inner[0]) {
            None
        } else {
            Some(inner)
        }
    }
}

pub fn is_block_attribute(line: &str) -> (r: Option<&str>)
    ensures
        opt_view(r) == block_attribute_of(line@),
{
    let v = chars_of(line);
    let n = rtrim(v.as_slice(), v.len());
    let t = slice_vec(v.as_slice(), 0, n);
    assert(t@ == trim_end(v@));
    if n > 0 && (t[0] == ' ' || t[0] == '\t') {
        return None;
    }
    if !(n >= 2 && t[0] == '[' && t[n - 1] == ']') {
        return None;
    }
    let inner = slice_vec(t.as_slice(), 1, n - 1);
    if inner.len() > 0 && inner[0] == '[' {
        if n >= 4 && t[1] == '[' && t[n - 2] == ']' {
            let interior = slice_vec(t.as_slice(), 2, n - 2);
            let ob = vec!['['];
            assert(ob@ == seq!['[']);
            let cb = vec![']'];
            assert(cb@ == seq![']']);
            if interior.len() > 0 && find_at(interior.as_slice(), ob.as_slice()).is_none()
                && find_at(interior.as_slice(), cb.as_slice()).is_none() {
                assert(inner@ =~= v@.subrange(1, n - 1));
                return Some(line.substring_char(1, n - 1));
            }
            return None;
        }
        return None;
    }
    if inner.len() > 0 {
        let f = inner[0];
        if !(is_ascii_alphanumeric(f) || f == '_' || f == '{' || f == ',' || f == '.' || f
            == '#' || f == '"' || f == '\'' || f == '%') {
            return None;
        }
    }
    assert(inner@ =~= v@.subrange(1, n - 1));
    Some(line.substring_char(1, n - 1))
}

/// `:name: value` attribute entry (after the name's closing colon: end of
/// line or whitespace).
pub open spec fn attribute_entry_of(s: Seq<char>) -> Option<(Seq<char>, Seq<char>)> {
    let t = trim_end(s);
    if !starts_with(t, seq![':']) {
        None
    } else {
        let rest = t.skip(1);
        match find(rest, seq![':']) {
            None => None,
            Some(end) => if end == 0 {
                None
            } else {
                let after = rest.skip(end + 1);
                if after.len() > 0 && after[0] != ' ' && after[0] != '\t' {
                    None
                } else {
                    Some((rest.take(end), trim_start(after)))
                }
            },
        }
    }
}

pub open spec fn pair_view(r: Option<(&str, &str)>) -> Option<(Seq<char>, Seq<char>)> {
    match r {
        Some((a, b)) => Some((a@, b@)),
        None => None,
    }
}

pub fn is_attribute_entry(line: &str) -> (r: Option<(&str, &str)>)
    ensures
        pair_view(r) == attribute_entry_of(line@),
{
    let v = chars_of(line);
    let n = rtrim(v.as_slice(), v.len());
    let t = slice_vec(v.as_slice(), 0, n);
    assert(t@ == trim_end(v@));
    proof {
        lemma_starts_with_char(t@, ':');
    }
    if !(n > 0 && t[0] == ':') {
        return None;
    }
    let rest = slice_vec(t.as_slice(), 1, n);
    assert(rest@ =~= t@.skip(1));
    let colon = vec![':'];
    assert(colon@ == seq![':']);
    let end = match find_at(rest.as_slice(), colon.as_slice()) {
        None => return None,
        Some(e) => e,
    };
    if end == 0 {
        return None;
    }
    let ghost after = rest@.skip(end + 1);
    if end + 1 < rest.len() && rest[end + 1] != ' ' && rest[end + 1] != '\t' {
        return None;
    }
    let a = trim_start_range(t.as_slice(), end + 2, n);
    proof {
        assert(attribute_entry_of(v@) == Some((rest@.take(end as int), trim_start(after))));
        assert(after =~= t@.subrange(end + 2, n as int));
        assert(rest@.take(end as int) =~= v@.subrange(1, end + 1));
        assert(t@.subrange(a as int, n as int) =~= v@.subrange(a as int, n as int));
    }
    Some((line.substring_char(1, end + 1), line.substring_char(a, n)))
}

pub fn is_list_continuation(line: &str) -> (b: bool)
    ensures
        b == (trim(line@) == seq!['+']),
{
    let v = chars_of(line);
    let (a, e) = trim_range(v.as_slice(), 0, v.len());
    let q = vec!['+'];
    assert(q@ == seq!['+']);
    assert(v@.subrange(0, v@.len() as int) =~= v@);
    range_eq(v.as_slice(), a, e, q.as_slice())
}

/// Bracket content of a whole-line `toc::[...]` macro.
pub open spec fn toc_macro_of(s: Seq<char>) -> Option<Seq<char>> {
    let t = trim(s);
    if starts_with(t, seq!['t', 'o', 'c', ':', ':', '[']) && t.len() >= 7 && t[t.len() - 1]
        == ']' {
        Some(t.subrange(6, t.len() - 1))
    } else {
        None
    }
}

pub fn toc_macro_attrs(line: &str) -> (r: Option<&str>)
    ensures
        opt_view(r) == toc_macro_of(line@),
{
    let v = chars_of(line);
    let (a, e) = trim_range(v.as_slice(), 0, v.len());
    assert(v@.subrange(0, v@.len() as int) =~= v@);
    let t = slice_vec(v.as_slice(), a, e);
    let p = vec!['t', 'o', 'c', ':', ':', '['];
    assert(p@ == seq!['t', 'o', 'c', ':', ':', '[']);
    if starts_with_at(t.as_slice(), p.as_slice()) && t.len() >= 7 && t[t.len() - 1] == ']' {
        assert(t@.subrange(6, t@.len() - 1) =~= v@.subrange(a + 6, e - 1));
        Some(line.substring_char(a + 6, e - 1))
    } else {
        None
    }
}

/// Matches the whole-line TOC block macro `toc::[]` / `toc::[attrs]`.
pub fn is_toc_macro(line: &str) -> (b: bool)
    ensures
        b == (toc_macro_of(line@) is Some),
{
    toc_macro_attrs(line).is_some()
}

// ---------------------------------------------------------------------------
// Directive and macro lines
// ---------------------------------------------------------------------------

/// `PREFIX target[attrs]` filling all of `t`: the last char is `]`, the
/// target runs to the first `[` and is non-empty with no leading or
/// trailing whitespace.
pub open spec fn macro_line_of(t: Seq<char>, prefix: Seq<char>) -> Option<(Seq<char>, Seq<char>)> {
    if !starts_with(t, prefix) {
        None
    } else {
        let rest = t.skip(prefix.len() as int);
        if !(rest.len() > 0 && rest.last() == ']') {
            None
        } else {
            let inner = rest.drop_last();
            match find(inner, seq!['[']) {
                None => None,
                Some(b) => {
                    let path = inner.take(b);
                    if path.len() == 0 || is_ws(path[0]) || is_ws(path.last()) {
                        None
                    } else {
                        Some((path, inner.skip(b + 1)))
                    }
                },
            }
        }
    }
}

/// Macro line recogniser over `v[a..e]`; returns absolute bounds of the
/// target and of the bracket content.
fn macro_line_chars(v: &[char], a: usize, e: usize, prefix: &[char]) -> (r: Option<
    (usize, usize, usize, usize),
>)
    requires
        a <= e <= v@.len(),
    ensures
        match r {
            Some((pa, pb, qa, qb)) => pa <= pb <= v@.len() && qa <= qb <= v@.len()
                && macro_line_of(v@.subrange(a as int, e as int), prefix@) == Some(
                (v@.subrange(pa as int, pb as int), v@.subrange(qa as int, qb as int)),
            ),
            None => macro_line_of(v@.subrange(a as int, e as int), prefix@) is None,
        },
{
    let t = slice_vec(v, a, e);
    if !starts_with_at(t.as_slice(), prefix) {
        return None;
    }
    let n = t.len();
    let pl = prefix.len();
    let ghost rest = t@.skip(pl as int);
    if !(n > pl && t[n - 1] == ']') {
        return None;
    }
    let inner = slice_vec(t.as_slice(), pl, n - 1);
    assert(inner@ =~= rest.drop_last());
    let ob = vec!['['];
    assert(ob@ == seq!['[']);
    let b = match find_at(inner.as_slice(), ob.as_slice()) {
        None => return None,
        Some(b) => b,
    };
    if b == 0 || is_whitespace(inner[0]) || is_whitespace(inner[b - 1]) {
        proof {
            if b > 0 {
                assert(inner@.take(b as int).last() == inner@[b - 1]);
            }
        }
        return None;
    }
    proof {
        assert(inner@.take(b as int).last() == inner@[b - 1]);
        assert(inner@.take(b as int) =~= v@.subrange(a + pl, a + pl + b));
        assert(inner@.skip(b + 1) =~= v@.subrange(a + pl + b + 1, a + n - 1));
    }
    Some((a + pl, a + pl + b, a + pl + b + 1, a + n - 1))
}

pub open spec fn include_directive_of(s: Seq<char>) -> Option<(Seq<char>, Seq<char>)> {
    macro_line_of(trim_end(s), seq!['i', 'n', 'c', 'l', 'u', 'd', 'e', ':', ':'])
}

pub fn is_include_directive(line: &str) -> (r: Option<(&str, &str)>)
    ensures
        pair_view(r) == include_directive_of(line@),
{
    let v = chars_of(line);
    let n = trim_end_range(v.as_slice(), 0, v.len());
    assert(v@.subrange(0, v@.len() as int) =~= v@);
    let p = vec!['i', 'n', 'c', 'l', 'u', 'd', 'e', ':', ':'];
    assert(p@ == seq!['i', 'n', 'c', 'l', 'u', 'd', 'e', ':', ':']);
    match macro_line_chars(v.as_slice(), 0, n, p.as_slice()) {
        Some((pa, pb, qa, qb)) => Some((line.substring_char(pa, pb), line.substring_char(qa, qb))),
        None => None,
    }
}

/// Block media macro line (`image::`, `video::`, `audio::`) anchored at the
/// start of the line, trailing whitespace aside.
pub open spec fn block_media_of(s: Seq<char>, prefix: Seq<char>) -> Option<(Seq<char>, Seq<char>)> {
    macro_line_of(trim_end(s), prefix)
}

fn match_block_media<'a>(line: &'a str, prefix: &[char]) -> (r: Option<(&'a str, &'a str)>)
    ensures
        pair_view(r) == block_media_of(line@, prefix@),
{
    let v = chars_of(line);
    let e = trim_end_range(v.as_slice(), 0, v.len());
    assert(v@.subrange(0, v@.len() as int) =~= v@);
    assert(v@.subrange(0, e as int) =~= trim_end(line@));
    match macro_line_chars(v.as_slice(), 0, e, prefix) {
        Some((pa, pb, qa, qb)) => Some((line.substring_char(pa, pb), line.substring_char(qa, qb))),
        None => None,
    }
}

pub fn is_block_image(line: &str) -> (r: Option<(&str, &str)>)
    ensures
        pair_view(r) == block_media_of(line@, seq!['i', 'm', 'a', 'g', 'e', ':', ':']),
{
    let p = vec!['i', 'm', 'a', 'g', 'e', ':', ':'];
    assert(p@ == seq!['i', 'm', 'a', 'g', 'e', ':', ':']);
    match_block_media(line, p.as_slice())
}

pub fn is_block_video(line: &str) -> (r: Option<(&str, &str)>)
    ensures
        pair_view(r) == block_media_of(line@, seq!['v', 'i', 'd', 'e', 'o', ':', ':']),
{
    let p = vec!['v', 'i', 'd', 'e', 'o', ':', ':'];
    assert(p@ == seq!['v', 'i', 'd', 'e', 'o', ':', ':']);
    match_block_media(line, p.as_slice())
}

pub fn is_block_audio(line: &str) -> (r: Option<(&str, &str)>)
    ensures
        pair_view(r) == block_media_of(line@, seq!['a', 'u', 'd', 'i', 'o', ':', ':']),
{
    let p = vec!['a', 'u', 'd', 'i', 'o', ':', ':'];
    assert(p@ == seq!['a', 'u', 'd', 'i', 'o', ':', ':']);
    match_block_media(line, p.as_slice())
}

/// Line continuation marker at the end of an attribute value: ` \` (soft,
/// joined with a space) or ` + \` (hard, joined with a newline).
pub open spec fn line_continuation_of(s: Seq<char>) -> Option<(Seq<char>, bool)> {
    if !ends_with(s, seq!['\\']) {
        None
    } else {
        let b = s.drop_last();
        if ends_with(b, seq![' ', '+', ' ']) {
            Some((b.take(b.len() - 3), true))
        } else if ends_with(b, seq![' ']) {
            Some((trim_end(b), false))
        } else {
            None
        }
    }
}

pub open spec fn text_flag_view(r: Option<(&str, bool)>) -> Option<(Seq<char>, bool)> {
    match r {
        Some((t, h)) => Some((t@, h)),
        None => None,
    }
}

/// Line-continuation recogniser on `v`: end of the kept prefix and the
/// hard-wrap flag.
pub fn line_continuation_chars(v: &[char]) -> (r: Option<(usize, bool)>)
    ensures
        match r {
            Some((e, h)) => e <= v@.len() && line_continuation_of(v@) == Some(
                (v@.take(e as int), h),
            ),
            None => line_continuation_of(v@) is None,
        },
{
    let bs = vec!['\\'];
    assert(bs@ == seq!['\\']);
    if !ends_with_at(v, bs.as_slice()) {
        return None;
    }
    let n = v.len() - 1;
    let b = slice_vec(v, 0, n);
    assert(b@ =~= v@.drop_last());
    let hard = vec![' ', '+', ' '];
    assert(hard@ == seq![' ', '+', ' ']);
    let sp = vec![' '];
    assert(sp@ == seq![' ']);
    if ends_with_at(b.as_slice(), hard.as_slice()) {
        assert(b@.take(b@.len() - 3) =~= v@.take(n - 3));
        Some((n - 3, true))
    } else if ends_with_at(b.as_slice(), sp.as_slice()) {
        let e = rtrim(b.as_slice(), n);
        assert(trim_end(b@) =~= v@.take(e as int));
        Some((e, false))
    } else {
        None
    }
}

pub fn strip_line_continuation(value: &str) -> (r: Option<(&str, bool)>)
    ensures
        text_flag_view(r) == line_continuation_of(value@),
{
    let v = chars_of(value);
    match line_continuation_chars(v.as_slice()) {
        Some((e, h)) => Some((value.substring_char(0, e), h)),
        None => None,
    }
}

/// Checklist marker `[x] `, `[*] ` (checked) or `[ ] ` (unchecked).
pub open spec fn checklist_of(s: Seq<char>) -> (Option<bool>, Seq<char>) {
    if starts_with(s, seq!['[', 'x', ']', ' ']) || starts_with(s, seq!['[', '*', ']', ' ']) {
        (Some(true), s.skip(4))
    } else if starts_with(s, seq!['[', ' ', ']', ' ']) {
        (Some(false), s.skip(4))
    } else {
        (None, s)
    }
}

pub fn parse_checklist_marker(text: &str) -> (r: (Option<bool>, &str))
    ensures
        (r.0, r.1@) == checklist_of(text@),
{
    let v = chars_of(text);
    let x = vec!['[', 'x', ']', ' '];
    assert(x@ == seq!['[', 'x', ']', ' ']);
    let st = vec!['[', '*', ']', ' '];
    assert(st@ == seq!['[', '*', ']', ' ']);
    let sp = vec!['[', ' ', ']', ' '];
    assert(sp@ == seq!['[', ' ', ']', ' ']);
    if starts_with_at(v.as_slice(), x.as_slice()) || starts_with_at(v.as_slice(), st.as_slice()) {
        (Some(true), text.substring_char(4, v.len()))
    } else if starts_with_at(v.as_slice(), sp.as_slice()) {
        (Some(false), text.substring_char(4, v.len()))
    } else {
        (None, text.substring_char(0, v.len()))
    }
}

/// `LABEL: text` for one admonition label.
pub open spec fn admonition_with(s: Seq<char>, label: Seq<char>) -> Option<Seq<char>> {
    if starts_with(s, label) && starts_with(s.skip(label.len() as int), seq![':', ' ']) {
        Some(trim(s.skip(label.len() + 2int)))
    } else {
        None
    }
}

pub open spec fn label_note() -> Seq<char> {
    seq!['N', 'O', 'T', 'E']
}

pub open spec fn label_tip() -> Seq<char> {
    seq!['T', 'I', 'P']
}

pub open spec fn label_important() -> Seq<char> {
    seq!['I', 'M', 'P', 'O', 'R', 'T', 'A', 'N', 'T']
}

pub open spec fn label_warning() -> Seq<char> {
    seq!['W', 'A', 'R', 'N', 'I', 'N', 'G']
}

pub open spec fn label_caution() -> Seq<char> {
    seq!['C', 'A', 'U', 'T', 'I', 'O', 'N']
}

/// The first admonition label (in the order NOTE, TIP, IMPORTANT, WARNING,
/// CAUTION) that `s` starts with, followed by `: `.
pub open spec fn admonition_of(s: Seq<char>) -> Option<(Seq<char>, Seq<char>)> {
    if admonition_with(s, label_note()) is Some {
        Some((label_note(), admonition_with(s, label_note())->0))
    } else if admonition_with(s, label_tip()) is Some {
        Some((label_tip(), admonition_with(s, label_tip())->0))
    } else if admonition_with(s, label_important()) is Some {
        Some((label_important(), admonition_with(s, label_important())->0))
    } else if admonition_with(s, label_warning()) is Some {
        Some((label_warning(), admonition_with(s, label_warning())->0))
    } else if admonition_with(s, label_caution()) is Some {
        Some((label_caution(), admonition_with(s, label_caution())->0))
    } else {
        None
    }
}

fn admonition_label(v: &[char], label: &[char]) -> (r: Option<(usize, usize)>)
    ensures
        match r {
            Some((a, b)) => a <= b <= v@.len() && admonition_with(v@, label@) == Some(
                v@.subrange(a as int, b as int),
            ) && label@ == v@.take(label@.len() as int),
            None => admonition_with(v@, label@) is None,
        },
{
    if !starts_with_at(v, label) {
        return None;
    }
    let l = label.len();
    let n = v.len();
    let cs = vec![':', ' '];
    assert(cs@ == seq![':', ' ']);
    if !matches_at(v, cs.as_slice(), l) {
        proof {
            if starts_with(v@.skip(l as int), cs@) {
                assert(v@.skip(l as int).subrange(0, 2) =~= v@.subrange(l as int, l + 2));
            }
        }
        return None;
    }
    proof {
        assert(v@.skip(l as int).subrange(0, 2) =~= v@.subrange(l as int, l + 2));
        assert(v@.skip(l + 2) =~= v@.subrange(l + 2, v@.len() as int));
        assert(label@ =~= v@.take(l as int));
    }
    let (a, b) = trim_range(v, l + 2, n);
    Some((a, b))
}

pub fn is_admonition(line: &str) -> (r: Option<(&str, &str)>)
    ensures
        pair_view(r) == admonition_of(line@),
{
    let v = chars_of(line);
    let n1 = vec!['N', 'O', 'T', 'E'];
    assert(n1@ == label_note());
    let n2 = vec!['T', 'I', 'P'];
    assert(n2@ == label_tip());
    let n3 = vec!['I', 'M', 'P', 'O', 'R', 'T', 'A', 'N', 'T'];
    assert(n3@ == label_important());
    let n4 = vec!['W', 'A', 'R', 'N', 'I', 'N', 'G'];
    assert(n4@ == label_warning());
    let n5 = vec!['C', 'A', 'U', 'T', 'I', 'O', 'N'];
    assert(n5@ == label_caution());
    if let Some((a, b)) = admonition_label(v.as_slice(), n1.as_slice()) {
        return Some((line.substring_char(0, 4), line.substring_char(a, b)));
    }
    if let Some((a, b)) = admonition_label(v.as_slice(), n2.as_slice()) {
        return Some((line.substring_char(0, 3), line.substring_char(a, b)));
    }
    if let Some((a, b)) = admonition_label(v.as_slice(), n3.as_slice()) {
        return Some((line.substring_char(0, 9), line.substring_char(a, b)));
    }
    if let Some((a, b)) = admonition_label(v.as_slice(), n4.as_slice()) {
        return Some((line.substring_char(0, 7), line.substring_char(a, b)));
    }
    if let Some((a, b)) = admonition_label(v.as_slice(), n5.as_slice()) {
        return Some((line.substring_char(0, 7), line.substring_char(a, b)));
    }
    None
}

pub open spec fn line_comment(s: Seq<char>) -> bool {
    starts_with(trim_end(s), seq!['/', '/']) && delimiter_of(trim_end(s)) is None
}

pub fn is_line_comment(line: &str) -> (b: bool)
    ensures
        b == line_comment(line@),
{
    let v = chars_of(line);
    let n = rtrim(v.as_slice(), v.len());
    let t = slice_vec(v.as_slice(), 0, n);
    assert(t@ == trim_end(v@));
    let sl = vec!['/', '/'];
    assert(sl@ == seq!['/', '/']);
    starts_with_at(t.as_slice(), sl.as_slice()) && delimiter_chars(t.as_slice()).is_none()
}

// ---------------------------------------------------------------------------
// List markers
// ---------------------------------------------------------------------------

/// Unordered list item: `- text` (identity 0) or `*`-run, space, text
/// (identity = the star count, truncated to `u8`); the text must be
/// non-empty once left-trimmed.
pub open spec fn unordered_marker_of(s: Seq<char>) -> Option<(u8, Seq<char>)> {
    let t = trim_start(s);
    if starts_with(t, seq!['-', ' ']) {
        let text = trim_start(t.skip(2));
        if text.len() == 0 {
            None
        } else {
            Some((0u8, text))
        }
    } else {
        let stars = count_lead(t, '*');
        let rest = t.skip(stars);
        if stars == 0 || !(rest.len() > 0 && rest[0] == ' ') {
            None
        } else {
            let text = trim_start(rest.skip(1));
            if text.len() == 0 {
                None
            } else {
                Some((stars as u8, text))
            }
        }
    }
}

pub open spec fn u8_text_view(r: Option<(u8, &str)>) -> Option<(u8, Seq<char>)> {
    match r {
        Some((l, t)) => Some((l, t@)),
        None => None,
    }
}

pub fn is_list_marker_unordered(line: &str) -> (r: Option<(u8, &str)>)
    ensures
        u8_text_view(r) == unordered_marker_of(line@),
{
    let v = chars_of(line);
    let n = v.len();
    let a = trim_start_range(v.as_slice(), 0, n);
    assert(v@.subrange(0, n as int) =~= v@);
    let t = slice_vec(v.as_slice(), a, n);
    let dash = vec!['-', ' '];
    assert(dash@ == seq!['-', ' ']);
    if starts_with_at(t.as_slice(), dash.as_slice()) {
        let x = trim_start_range(v.as_slice(), a + 2, n);
        assert(t@.skip(2) =~= v@.subrange(a + 2, n as int));
        if x == n {
            return None;
        }
        return Some((0, line.substring_char(x, n)));
    }
    let stars = skip_run(t.as_slice(), '*', 0);
    let ghost rest = t@.skip(stars as int);
    if stars == 0 || !(stars < t.len() && t[stars] == ' ') {
        return None;
    }
    let x = trim_start_range(v.as_slice(), a + stars + 1, n);
    assert(rest.skip(1) =~= v@.subrange(a + stars + 1, n as int));
    if x == n {
        return None;
    }
    Some((stars as u8, line.substring_char(x, n)))
}

/// Ordered list item: `N. text` (digits before the first `. `, depth 1) or
/// a `.`-run, space, text (depth = the dot count, truncated to `u8`).
pub open spec fn ordered_marker_of(s: Seq<char>) -> Option<(u8, Seq<char>)> {
    let t = trim_start(s);
    let numbered = match find(t, seq!['.', ' ']) {
        Some(d) => d > 0 && all_digits(t.take(d)),
        None => false,
    };
    if numbered {
        Some((1u8, trim_start(t.skip(find(t, seq!['.', ' '])->0 + 2))))
    } else {
        let dots = count_lead(t, '.');
        let rest = t.skip(dots);
        if dots == 0 || !(rest.len() > 0 && rest[0] == ' ') {
            None
        } else {
            Some((dots as u8, trim_start(rest.skip(1))))
        }
    }
}

/// A line whose left-trimmed text is one or more ASCII digits, `. ` and
/// then the rest is a numbered list item of depth 1; its text is the rest,
/// left-trimmed.
pub proof fn law_numbered_list_item(s: Seq<char>, d: Seq<char>, rest: Seq<char>)
    requires
        d.len() > 0,
        all_digits(d),
        trim_start(s) == d + seq!['.', ' '] + rest,
    ensures
        ordered_marker_of(s) == Some((1u8, trim_start(rest))),
{
    let t = trim_start(s);
    let p = seq!['.', ' '];
    let l = d.len() as int;
    assert(t.subrange(l, l + 2) =~= p);
    assert(match_at(t, p, l));
    lemma_find_from_bounds(t, p, 0);
    match find(t, p) {
        Some(k) => {
            if k < l {
                assert(t[k] == '.');
                assert(t[k] == d[k]);
                assert(is_digit(d[k]));
            }
            assert(k == l);
            assert(t.take(l) =~= d);
            assert(t.skip(l + 2) =~= rest);
        },
        None => {},
    }
}

proof fn lemma_run_exact(t: Seq<char>, c: char, k: int)
    requires
        0 <= k < t.len(),
        forall|j: int| 0 <= j < k ==> t[j] == c,
        t[k] != c,
    ensures
        count_lead(t, c) == k,
{
    lemma_run_end_bounds(t, c, 0);
    let r = run_end(t, c, 0);
    if r < k {
        assert(t[r] == c);
    }
    if r > k {
        assert(t[k] == c);
    }
}

/// `k` dots (1 to 255), a space and then the rest make an ordered list item
/// of depth `k` whose text is the rest, left-trimmed.
pub proof fn law_dotted_list_item(s: Seq<char>, k: nat, rest: Seq<char>)
    requires
        1 <= k < 256,
        trim_start(s) == Seq::new(k, |j: int| '.') + seq![' '] + rest,
    ensures
        ordered_marker_of(s) == Some((k as u8, trim_start(rest))),
{
    let t = trim_start(s);
    assert(t[0] == '.');
    assert(!is_digit(t[0]));
    lemma_find_from_bounds(t, seq!['.', ' '], 0);
    match find(t, seq!['.', ' ']) {
        Some(d) => {
            if d > 0 {
                assert(t.take(d)[0] == t[0]);
                assert(!all_digits(t.take(d)));
            }
        },
        None => {},
    }
    assert(forall|j: int| 0 <= j < k ==> t[j] == '.');
    assert(t[k as int] == ' ');
    lemma_run_exact(t, '.', k as int);
    assert(t.skip(k as int).skip(1) =~= rest);
}

/// A dash, a space and text make an unordered list item of identity 0, and
/// `k` stars (1 to 255), a space and text one of identity `k`; the text is
/// the rest, left-trimmed, and must not be empty.
pub proof fn law_unordered_list_item(s: Seq<char>, k: nat, rest: Seq<char>)
    requires
        k < 256,
        trim_start(rest).len() > 0,
    ensures
        trim_start(s) == seq!['-', ' '] + rest ==> unordered_marker_of(s) == Some(
            (0u8, trim_start(rest)),
        ),
        (k >= 1 && trim_start(s) == Seq::new(k, |j: int| '*') + seq![' '] + rest)
            ==> unordered_marker_of(s) == Some((k as u8, trim_start(rest))),
{
    let t = trim_start(s);
    if t == seq!['-', ' '] + rest {
        assert(t.subrange(0, 2) =~= seq!['-', ' ']);
        assert(t.skip(2) =~= rest);
    }
    if k >= 1 && t == Seq::new(k, |j: int| '*') + seq![' '] + rest {
        assert(t[0] == '*');
        assert(!(t.subrange(0, 2) =~= seq!['-', ' ']));
        assert(forall|j: int| 0 <= j < k ==> t[j] == '*');
        assert(t[k as int] == ' ');
        lemma_run_exact(t, '*', k as int);
        assert(t.skip(k as int).skip(1) =~= rest);
    }
}

/// A line whose left-trimmed text starts with an ASCII letter is no list
/// item, ordered or unordered.
pub proof fn law_letter_starts_no_list_item(s: Seq<char>)
    requires
        trim_start(s).len() > 0,
        ('a' <= trim_start(s)[0] <= 'z') || ('A' <= trim_start(s)[0] <= 'Z'),
    ensures
        ordered_marker_of(s) is None,
        unordered_marker_of(s) is None,
{
    let t = trim_start(s);
    lemma_find_from_bounds(t, seq!['.', ' '], 0);
    match find(t, seq!['.', ' ']) {
        Some(d) => {
            if d > 0 {
                assert(t.take(d)[0] == t[0]);
                assert(!all_digits(t.take(d)));
            }
        },
        None => {},
    }
    lemma_run_exact(t, '.', 0);
    lemma_run_exact(t, '*', 0);
    if t.len() >= 2 {
        assert(t.subrange(0, 2)[0] == t[0]);
    }
}

/// `k` equals signs (one to six), a space and a title make a section
/// heading of level `k` whose title is the title text trimmed; seven or
/// more equals signs make none.
pub proof fn law_section_heading_level(k: nat, title: Seq<char>, s: Seq<char>)
    ensures
        (1 <= k <= 6 && trim(title).len() > 0) ==> section_marker_of(
            Seq::new(k, |j: int| '=') + seq![' '] + title,
        ) == Some((k as int, trim(title))),
        (s.len() >= 7 && forall|j: int| 0 <= j < 7 ==> s[j] == '=') ==> section_marker_of(s) is None,
{
    if 1 <= k <= 6 && trim(title).len() > 0 {
        let t = Seq::new(k, |j: int| '=') + seq![' '] + title;
        assert(forall|j: int| 0 <= j < k ==> t[j] == '=');
        assert(t[k as int] == ' ');
        lemma_run_exact(t, '=', k as int);
        assert(t.skip(k as int).skip(1) =~= title);
    }
    if s.len() >= 7 && forall|j: int| 0 <= j < 7 ==> s[j] == '=' {
        lemma_run_end_bounds(s, '=', 0);
        let r = run_end(s, '=', 0);
        if r < 7 {
            assert(s[r] == '=');
        }
    }
}

/// A value ending in ` + \` continues on the next line with a hard break,
/// the value being what comes before ` + \`; one ending in a space and `\`
/// (but not ` + \`) continues softly, the value right-trimmed; a value not
/// ending in `\` does not continue.
pub proof fn law_line_continuation(v: Seq<char>, s: Seq<char>)
    ensures
        line_continuation_of(v + seq![' ', '+', ' ', '\\']) == Some((v, true)),
        !(v.len() >= 2 && v[v.len() - 2] == ' ' && v[v.len() - 1] == '+') ==> line_continuation_of(
            v + seq![' ', '\\'],
        ) == Some((trim_end(v + seq![' ']), false)),
        (s.len() == 0 || s.last() != '\\') ==> line_continuation_of(s) is None,
{
    let a = v + seq![' ', '+', ' ', '\\'];
    assert(a.subrange(a.len() - 1, a.len() as int) =~= seq!['\\']);
    let ab = a.drop_last();
    assert(ab =~= v + seq![' ', '+', ' ']);
    assert(ab.subrange(ab.len() - 3, ab.len() as int) =~= seq![' ', '+', ' ']);
    assert(ab.take(ab.len() - 3) =~= v);
    let c = v + seq![' ', '\\'];
    assert(c.subrange(c.len() - 1, c.len() as int) =~= seq!['\\']);
    let cb = c.drop_last();
    assert(cb =~= v + seq![' ']);
    assert(cb.subrange(cb.len() - 1, cb.len() as int) =~= seq![' ']);
    if !(v.len() >= 2 && v[v.len() - 2] == ' ' && v[v.len() - 1] == '+') {
        if cb.len() >= 3 {
            assert(cb.subrange(cb.len() - 3, cb.len() as int)[0] == v[v.len() - 2]);
            assert(cb.subrange(cb.len() - 3, cb.len() as int)[1] == v[v.len() - 1]);
        }
    }
    if s.len() > 0 && s.last() != '\\' {
        assert(s.subrange(s.len() - 1, s.len() as int)[0] == s.last());
    }
}

/// `NOTE: `, `TIP: `, `IMPORTANT: `, `WARNING: ` or `CAUTION: ` followed
/// by text make an admonition paragraph of that label, whose text is the
/// rest trimmed.
pub proof fn law_admonition_labels(text: Seq<char>)
    ensures
        admonition_of(label_note() + seq![':', ' '] + text) == Some((label_note(), trim(text))),
        admonition_of(label_tip() + seq![':', ' '] + text) == Some((label_tip(), trim(text))),
        admonition_of(label_important() + seq![':', ' '] + text) == Some(
            (label_important(), trim(text)),
        ),
        admonition_of(label_warning() + seq![':', ' '] + text) == Some(
            (label_warning(), trim(text)),
        ),
        admonition_of(label_caution() + seq![':', ' '] + text) == Some(
            (label_caution(), trim(text)),
        ),
{
    assert(admonition_of(label_note() + seq![':', ' '] + text) == Some((label_note(), trim(text))))
        by {
        lemma_admonition_label(label_note(), text);
    }
    assert(admonition_of(label_tip() + seq![':', ' '] + text) == Some((label_tip(), trim(text))))
        by {
        let s = label_tip() + seq![':', ' '] + text;
        lemma_admonition_label(label_tip(), text);
        lemma_not_label(s, label_note());
    }
    assert(admonition_of(label_important() + seq![':', ' '] + text) == Some(
        (label_important(), trim(text)),
    )) by {
        let s = label_important() + seq![':', ' '] + text;
        lemma_admonition_label(label_important(), text);
        lemma_not_label(s, label_note());
        lemma_not_label(s, label_tip());
    }
    assert(admonition_of(label_warning() + seq![':', ' '] + text) == Some(
        (label_warning(), trim(text)),
    )) by {
        let s = label_warning() + seq![':', ' '] + text;
        lemma_admonition_label(label_warning(), text);
        lemma_not_label(s, label_note());
        lemma_not_label(s, label_tip());
        lemma_not_label(s, label_important());
    }
    assert(admonition_of(label_caution() + seq![':', ' '] + text) == Some(
        (label_caution(), trim(text)),
    )) by {
        let s = label_caution() + seq![':', ' '] + text;
        lemma_admonition_label(label_caution(), text);
        lemma_not_label(s, label_note());
        lemma_not_label(s, label_tip());
        lemma_not_label(s, label_important());
        lemma_not_label(s, label_warning());
    }
}

proof fn lemma_not_label(s: Seq<char>, label: Seq<char>)
    requires
        label.len() > 0,
        s.len() > 0,
        s[0] != label[0],
    ensures
        admonition_with(s, label) is None,
{
    if label.len() <= s.len() {
        assert(s.subrange(0, label.len() as int)[0] == s[0]);
    }
}

proof fn lemma_admonition_label(label: Seq<char>, text: Seq<char>)
    ensures
        admonition_with(label + seq![':', ' '] + text, label) == Some(trim(text)),
{
    let s = label + seq![':', ' '] + text;
    assert(s.subrange(0, label.len() as int) =~= label);
    assert(s.skip(label.len() as int).subrange(0, 2) =~= seq![':', ' ']);
    assert(s.skip(label.len() + 2int) =~= text);
}

proof fn lemma_run_line(n: nat, c: char)
    requires
        n >= 1,
        !is_ws(c),
    ensures
        trim_end(Seq::new(n, |j: int| c)) == Seq::new(n, |j: int| c),
        trim_end(Seq::new(n, |j: int| c) + seq![' ']) == Seq::new(n, |j: int| c),
        all_same(Seq::new(n, |j: int| c)),
{
    let t = Seq::new(n, |j: int| c);
    assert(t.take(n as int) =~= t);
    let u = t + seq![' '];
    assert(u[n as int] == ' ');
    assert(u[n - 1] == c);
    assert(rtrim_len(u, n as int) == n);
    assert(u.take(n as int) =~= t);
}

/// A line of four or more copies of one delimiter character, possibly
/// followed by a space, delimits the block that character stands for and
/// reports the count; `--` delimits an open block, and three copies
/// delimit nothing.
pub proof fn law_delimiter_lines(n: nat, trailing: bool)
    requires
        n >= 4,
    ensures
        ({
            let line = |c: char|
                if trailing {
                    Seq::new(n, |j: int| c) + seq![' ']
                } else {
                    Seq::new(n, |j: int| c)
                };
            &&& delimiter_of(line('-')) == Some((DelimiterType::Listing, n as int))
            &&& delimiter_of(line('.')) == Some((DelimiterType::Literal, n as int))
            &&& delimiter_of(line('=')) == Some((DelimiterType::Example, n as int))
            &&& delimiter_of(line('*')) == Some((DelimiterType::Sidebar, n as int))
            &&& delimiter_of(line('_')) == Some((DelimiterType::Quote, n as int))
            &&& delimiter_of(line('/')) == Some((DelimiterType::Comment, n as int))
            &&& delimiter_of(line('+')) == Some((DelimiterType::Passthrough, n as int))
        }),
        delimiter_of(seq!['-', '-']) == Some((DelimiterType::Open, 2int)),
        delimiter_of(seq!['=', '=', '=']) is None,
        delimiter_of(seq!['-', '-', '-']) is None,
{
    lemma_run_line(n, '-');
    lemma_run_line(n, '.');
    lemma_run_line(n, '=');
    lemma_run_line(n, '*');
    lemma_run_line(n, '_');
    lemma_run_line(n, '/');
    lemma_run_line(n, '+');
    lemma_run_line(2, '-');
    lemma_run_line(3, '=');
    lemma_run_line(3, '-');
    assert(seq!['-', '-'] =~= Seq::new(2, |j: int| '-'));
    assert(seq!['=', '=', '='] =~= Seq::new(3, |j: int| '='));
    assert(seq!['-', '-', '-'] =~= Seq::new(3, |j: int| '-'));
}

pub fn is_list_marker_ordered(line: &str) -> (r: Option<(u8, &str)>)
    ensures
        u8_text_view(r) == ordered_marker_of(line@),
{
    let v = chars_of(line);
    let n = v.len();
    let a = trim_start_range(v.as_slice(), 0, n);
    assert(v@.subrange(0, n as int) =~= v@);
    let t = slice_vec(v.as_slice(), a, n);
    let ds = vec!['.', ' '];
    assert(ds@ == seq!['.', ' ']);
    if let Some(d) = find_at(t.as_slice(), ds.as_slice()) {
        if d > 0 {
            let mut k: usize = 0;
            let mut ok = true;
            while k < d
                invariant
                    d <= t@.len(),
                    k <= d,
                    ok == forall|j: int| 0 <= j < k ==> is_digit(t@[j]),
                decreases d - k,
            {
                if !is_ascii_digit(t[k]) {
                    ok = false;
                }
                k += 1;
            }
            proof {
                if ok {
                    assert(all_digits(t@.take(d as int)));
                } else {
                    let j = choose|j: int| 0 <= j < d && !is_digit(t@[j]);
                    assert(t@.take(d as int)[j] == t@[j]);
                }
            }
            if ok {
                let x = trim_start_range(v.as_slice(), a + d + 2, n);
                assert(t@.skip(d + 2) =~= v@.subrange(a + d + 2, n as int));
                return Some((1, line.substring_char(x, n)));
            }
        }
    }
    let dots = skip_run(t.as_slice(), '.', 0);
    let ghost rest = t@.skip(dots as int);
    if dots == 0 || !(dots < t.len() && t[dots] == ' ') {
        return None;
    }
    let x = trim_start_range(v.as_slice(), a + dots + 1, n);
    assert(rest.skip(1) =~= v@.subrange(a + dots + 1, n as int));
    Some((dots as u8, line.substring_char(x, n)))
}

/// Description-list marker search over the right-trimmed line `t` from `i`:
/// the first run of 2 to 4 colons with a non-blank term before it and end
/// of line or a space after it. Yields `(depth, run_start, run_end)`.
pub open spec fn dlist_from(t: Seq<char>, i: int) -> Option<(int, int, int)>
    decreases t.len() - i,
{
    if i < 0 || i >= t.len() {
        None
    } else if t[i] == ':' && i + 1 < t.len() && t[i + 1] == ':' {
        let e = run_end(t, ':', i + 2);
        let cnt = e - i;
        if e <= i || e > t.len() {
            None
        } else if !(2 <= cnt <= 4) || trim(t.take(i)).len() == 0 || (e < t.len() && t[e] != ' ') {
            dlist_from(t, e)
        } else {
            Some((cnt - 1, i, e))
        }
    } else {
        dlist_from(t, i + 1)
    }
}

/// `term:: description` with 2 to 4 colons (depth = colons - 1).
pub open spec fn dlist_marker_of(s: Seq<char>) -> Option<(int, Seq<char>, Seq<char>)> {
    let t = trim_end(s);
    match dlist_from(t, 0) {
        Some((depth, cs, e)) => Some((depth, trim(t.take(cs)), trim_start(t.skip(e)))),
        None => None,
    }
}

pub open spec fn triple_view(r: Option<(u8, &str, &str)>) -> Option<(int, Seq<char>, Seq<char>)> {
    match r {
        Some((d, a, b)) => Some((d as int, a@, b@)),
        None => None,
    }
}

pub fn is_description_list_marker(line: &str) -> (r: Option<(u8, &str, &str)>)
    ensures
        triple_view(r) == dlist_marker_of(line@),
{
    let v = chars_of(line);
    let len = rtrim(v.as_slice(), v.len());
    let t = slice_vec(v.as_slice(), 0, len);
    assert(t@ == trim_end(v@));
    let mut i: usize = 0;
    while i < len
        invariant
            len == t@.len(),
            t@ == trim_end(v@),
            t@ == v@.take(len as int),
            len <= v@.len(),
            v@ == line@,
            dlist_from(t@, 0) == dlist_from(t@, i as int),
        decreases len - i,
    {
        if t[i] == ':' && i + 1 < len && t[i + 1] == ':' {
            let e = skip_run(t.as_slice(), ':', i + 2);
            let cnt = e - i;
            let (ta, tb) = trim_range(t.as_slice(), 0, i);
            assert(t@.subrange(0, i as int) =~= t@.take(i as int));
            if !(2 <= cnt && cnt <= 4) || ta == tb || (e < len && t[e] != ' ') {
                i = e;
                continue;
            }
            let x = trim_start_range(t.as_slice(), e, len);
            proof {
                assert(t@.skip(e as int) =~= t@.subrange(e as int, len as int));
                assert(t@.subrange(ta as int, tb as int) =~= v@.subrange(ta as int, tb as int));
                assert(t@.subrange(x as int, len as int) =~= v@.subrange(x as int, len as int));
            }
            return Some(((cnt - 1) as u8, line.substring_char(ta, tb), line.substring_char(x, len)));
        }
        i += 1;
    }
    None
}

// ---------------------------------------------------------------------------
// Fences, callouts, table delimiters
// ---------------------------------------------------------------------------

/// Markdown code fence: three or more backticks, then an optional info
/// string (trimmed) that must not contain a backtick.
pub open spec fn code_fence_of(s: Seq<char>) -> Option<(int, Option<Seq<char>>)> {
    let t = trim_end(s);
    let n = count_lead(t, '`');
    if n < 3 {
        None
    } else {
        let info = trim(t.skip(n));
        if info.len() == 0 {
            Some((n, None))
        } else if contains(info, seq!['`']) {
            None
        } else {
            Some((n, Some(info)))
        }
    }
}

pub open spec fn fence_view(r: Option<(usize, Option<&str>)>) -> Option<(int, Option<Seq<char>>)> {
    match r {
        Some((n, None)) => Some((n as int, None)),
        Some((n, Some(i))) => Some((n as int, Some(i@))),
        None => None,
    }
}

/// Code-fence recogniser on chars: backtick count and info-string bounds.
pub fn code_fence_chars(v: &[char]) -> (r: Option<(usize, Option<(usize, usize)>)>)
    ensures
        match r {
            Some((n, None)) => code_fence_of(v@) == Some((n as int, None::<Seq<char>>)),
            Some((n, Some((a, b)))) => a <= b <= v@.len() && code_fence_of(v@) == Some(
                (n as int, Some(v@.subrange(a as int, b as int))),
            ),
            None => code_fence_of(v@) is None,
        },
{
    let len = v.len();
    let e = trim_end_range(v, 0, len);
    assert(v@.subrange(0, len as int) =~= v@);
    let t = slice_vec(v, 0, e);
    let n = skip_run(t.as_slice(), '`', 0);
    if n < 3 {
        return None;
    }
    let (a, b) = trim_range(t.as_slice(), n, e);
    assert(t@.skip(n as int) =~= t@.subrange(n as int, e as int));
    if a == b {
        return Some((n, None));
    }
    let info = slice_vec(t.as_slice(), a, b);
    let bt = vec!['`'];
    assert(bt@ == seq!['`']);
    if find_at(info.as_slice(), bt.as_slice()).is_some() {
        return None;
    }
    assert(info@ =~= v@.subrange(a as int, b as int));
    Some((n, Some((a, b))))
}

pub fn is_markdown_code_fence(line: &str) -> (r: Option<(usize, Option<&str>)>)
    ensures
        fence_view(r) == code_fence_of(line@),
{
    let v = chars_of(line);
    match code_fence_chars(v.as_slice()) {
        Some((n, None)) => Some((n, None)),
        Some((n, Some((a, b)))) => Some((n, Some(line.substring_char(a, b)))),
        None => None,
    }
}

/// Callout list item `<N> text` / `<.> text` (`.` numbers as 0).
pub open spec fn callout_item_of(s: Seq<char>) -> Option<(int, Seq<char>)> {
    let t = trim_start(s);
    if !starts_with(t, seq!['<']) {
        None
    } else {
        match find(t, seq!['>']) {
            None => None,
            Some(close) => if close < 2 {
                None
            } else {
                let inner = t.subrange(1, close);
                let num = if inner == seq!['.'] {
                    Some(0int)
                } else if all_digits(inner) && digits_value(inner) <= u32::MAX {
                    Some(digits_value(inner))
                } else {
                    None
                };
                match num {
                    None => None,
                    Some(n) => {
                        let rest = t.skip(close + 1);
                        if rest.len() == 0 {
                            Some((n, rest))
                        } else if rest[0] != ' ' {
                            None
                        } else {
                            Some((n, trim(rest.skip(1))))
                        }
                    },
                }
            },
        }
    }
}

pub open spec fn u32_text_view(r: Option<(u32, &str)>) -> Option<(int, Seq<char>)> {
    match r {
        Some((n, t)) => Some((n as int, t@)),
        None => None,
    }
}

pub fn is_callout_list_item(line: &str) -> (r: Option<(u32, &str)>)
    ensures
        u32_text_view(r) == callout_item_of(line@),
{
    let v = chars_of(line);
    let len = v.len();
    let a = trim_start_range(v.as_slice(), 0, len);
    assert(v@.subrange(0, len as int) =~= v@);
    let t = slice_vec(v.as_slice(), a, len);
    proof {
        lemma_starts_with_char(t@, '<');
    }
    if !(t.len() > 0 && t[0] == '<') {
        return None;
    }
    let gt = vec!['>'];
    assert(gt@ == seq!['>']);
    let close = match find_at(t.as_slice(), gt.as_slice()) {
        None => return None,
        Some(c) => c,
    };
    if close < 2 {
        return None;
    }
    let dot = vec!['.'];
    assert(dot@ == seq!['.']);
    let ghost inner = t@.subrange(1, close as int);
    let n: u32 = if range_eq(t.as_slice(), 1, close, dot.as_slice()) {
        0
    } else {
        match parse_uint_range(t.as_slice(), 1, close, 0xffff_ffff) {
            None => return None,
            Some(x) => {
                proof {
                    // digits only: a leading `+` never reaches here via `<+`
                    if inner[0] == '+' {
                        assert(parse_uint(inner, 0xffff_ffff) == Some(x as int));
                    }
                }
                if t[1] == '+' {
                    return None;
                }
                assert(inner.skip(0) =~= inner);
                x as u32
            },
        }
    };
    proof {
        if !(inner == seq!['.']) {
            assert(inner[0] != '+');
            assert(all_digits(inner) && digits_value(inner) <= u32::MAX);
        }
    }
    if close + 1 == t.len() {
        proof {
            assert(t@.skip(close + 1) =~= Seq::<char>::empty());
        }
        return Some((n, line.substring_char(len, len)));
    }
    if t[close + 1] != ' ' {
        return None;
    }
    let (x, y) = trim_range(v.as_slice(), a + close + 2, len);
    assert(t@.skip(close + 1).skip(1) =~= v@.subrange(a + close + 2, len as int));
    Some((n, line.substring_char(x, y)))
}

/// Type of callout marker found in source code.
#[derive(Debug, Clone, Copy, PartialEq, Eq, Structural)]
pub enum CalloutMarker {
    /// `<N>`; `<.>` numbers as 0 (autonumber)
    Standard(u32),
    /// `<!--N-->`; `<!--.-->` numbers as 0 (autonumber)
    XmlComment(u32),
}

/// Number inside a callout marker: `.` is 0, otherwise a `u32` in digits.
pub open spec fn callout_num(inner: Seq<char>) -> Option<u32> {
    if inner == seq!['.'] {
        Some(0u32)
    } else if inner.len() > 0 && all_digits(inner) && digits_value(inner) <= u32::MAX {
        Some(digits_value(inner) as u32)
    } else {
        None
    }
}

/// Outcome of examining the text before `end` for one trailing callout.
pub enum CalloutStep {
    Stop,
    Escape(int),
    Marker(CalloutMarker, int),
}

pub open spec fn callout_step(s: Seq<char>, end: int) -> CalloutStep {
    let t = trim_end(s.take(end));
    if t.len() == 0 {
        CalloutStep::Stop
    } else if ends_with(t, seq!['-', '-', '>']) {
        let bc = t.take(t.len() - 3);
        match rfind(bc, seq!['<', '!', '-', '-']) {
            None => CalloutStep::Stop,
            Some(o) => match callout_num(bc.skip(o + 4)) {
                None => CalloutStep::Stop,
                Some(n) => if o > 0 && t[o - 1] == '\\' {
                    CalloutStep::Escape(o - 1)
                } else {
                    CalloutStep::Marker(CalloutMarker::XmlComment(n), o)
                },
            },
        }
    } else if !ends_with(t, seq!['>']) {
        CalloutStep::Stop
    } else {
        match rfind(t.take(t.len() - 1), seq!['<']) {
            None => CalloutStep::Stop,
            Some(o) => match callout_num(t.subrange(o + 1, t.len() - 1)) {
                None => CalloutStep::Stop,
                Some(n) => if o > 0 && t[o - 1] == '\\' {
                    CalloutStep::Escape(o - 1)
                } else {
                    CalloutStep::Marker(CalloutMarker::Standard(n), o)
                },
            },
        }
    }
}

/// Trailing callouts of `s[..end]`, right to left: the end of the code
/// text, the markers left to right, and the index of an escaping backslash.
pub open spec fn callout_scan(s: Seq<char>, end: int) -> (int, Seq<CalloutMarker>, Option<int>)
    decreases end,
{
    if end <= 0 || end > s.len() {
        (end, Seq::empty(), None)
    } else {
        match callout_step(s, end) {
            CalloutStep::Stop => (end, Seq::empty(), None),
            CalloutStep::Escape(b) => (end, Seq::empty(), Some(b)),
            CalloutStep::Marker(m, o) => if 0 <= o < end {
                let r = callout_scan(s, o);
                (r.0, r.1.push(m), r.2)
            } else {
                (end, Seq::empty(), None)
            },
        }
    }
}

/// Code text and callout markers of a verbatim line; an escaped marker
/// (`\\<1>`) stays literal with its backslash removed.
pub open spec fn callouts_of(s: Seq<char>) -> (Seq<char>, Seq<CalloutMarker>) {
    let r = callout_scan(s, s.len() as int);
    match r.2 {
        None => (s.take(r.0), r.1),
        Some(b) => (s.take(b) + s.subrange(b + 1, r.0), r.1),
    }
}

/// Callout number of `t[a..b]`.
fn callout_num_at(t: &[char], a: usize, b: usize) -> (r: Option<u32>)
    requires
        a <= b <= t@.len(),
    ensures
        r == callout_num(t@.subrange(a as int, b as int)),
{
    let dot = vec!['.'];
    assert(dot@ == seq!['.']);
    let ghost inner = t@.subrange(a as int, b as int);
    if range_eq(t, a, b, dot.as_slice()) {
        return Some(0);
    }
    if a == b || t[a] == '+' {
        proof {
            if a < b {
                assert(!is_digit(inner[0]));
            }
        }
        return None;
    }
    match parse_uint_range(t, a, b, 0xffff_ffff) {
        None => {
            assert(inner.skip(0) =~= inner);
            None
        },
        Some(x) => {
            assert(inner.skip(0) =~= inner);
            Some(x as u32)
        },
    }
}

fn callout_step_at(s: &[char], end: usize) -> (r: (u8, usize, CalloutMarker))
    requires
        0 < end <= s@.len(),
    ensures
        r.0 == 0 ==> callout_step(s@, end as int) is Stop,
        r.0 == 1 ==> callout_step(s@, end as int) == CalloutStep::Escape(r.1 as int) && r.1 < end,
        r.0 == 2 ==> callout_step(s@, end as int) == CalloutStep::Marker(r.2, r.1 as int)
            && r.1 < end,
        r.0 <= 2,
{
    let stop = (0u8, 0usize, CalloutMarker::Standard(0));
    let tl = trim_end_range(s, 0, end);
    let t = slice_vec(s, 0, tl);
    assert(s@.subrange(0, end as int) =~= s@.take(end as int));
    if tl == 0 {
        return stop;
    }
    let arrow = vec!['-', '-', '>'];
    assert(arrow@ == seq!['-', '-', '>']);
    let gt = vec!['>'];
    assert(gt@ == seq!['>']);
    let lt = vec!['<'];
    assert(lt@ == seq!['<']);
    let open_c = vec!['<', '!', '-', '-'];
    assert(open_c@ == seq!['<', '!', '-', '-']);
    if ends_with_at(t.as_slice(), arrow.as_slice()) {
        let bc = slice_vec(t.as_slice(), 0, tl - 3);
        assert(bc@ =~= t@.take(tl - 3));
        let o = match rfind_at(bc.as_slice(), open_c.as_slice()) {
            None => return stop,
            Some(o) => o,
        };
        let num = callout_num_at(bc.as_slice(), o + 4, tl - 3);
        assert(bc@.skip(o + 4) =~= bc@.subrange(o + 4, tl - 3));
        match num {
            None => stop,
            Some(n) => if o > 0 && t[o - 1] == '\\' {
                (1u8, o - 1, CalloutMarker::Standard(0))
            } else {
                (2u8, o, CalloutMarker::XmlComment(n))
            },
        }
    } else if !ends_with_at(t.as_slice(), gt.as_slice()) {
        stop
    } else {
        let h = slice_vec(t.as_slice(), 0, tl - 1);
        proof {
            lemma_ends_with_char(t@, '>');
        }
        assert(h@ =~= t@.take(tl - 1));
        let o = match rfind_at(h.as_slice(), lt.as_slice()) {
            None => return stop,
            Some(o) => o,
        };
        match callout_num_at(t.as_slice(), o + 1, tl - 1) {
            None => stop,
            Some(n) => if o > 0 && t[o - 1] == '\\' {
                (1u8, o - 1, CalloutMarker::Standard(0))
            } else {
                (2u8, o, CalloutMarker::Standard(n))
            },
        }
    }
}

pub fn strip_callout_markers(line: &str) -> (r: (String, Vec<CalloutMarker>))
    ensures
        (r.0@, r.1@) == callouts_of(line@),
{
    let v = chars_of(line);
    let n = v.len();
    let mut markers: Vec<CalloutMarker> = Vec::new();
    let mut end = n;
    let mut escape_at: Option<usize> = None;
    let mut done = false;
    assert(markers@ =~= Seq::<CalloutMarker>::empty());
    assert(callout_scan(v@, n as int).1 + markers@ =~= callout_scan(v@, n as int).1);
    while !done && end > 0
        invariant
            v@ == line@,
            n == v@.len(),
            end <= n,
            callout_scan(v@, n as int) == ({
                let r = callout_scan(v@, end as int);
                (r.0, r.1 + markers@, r.2)
            }),
            escape_at matches Some(b) ==> callout_scan(v@, end as int) == (
                end as int,
                Seq::<CalloutMarker>::empty(),
                Some(b as int),
            ) && b < end,
            escape_at is Some ==> done,
            done && escape_at is None ==> callout_scan(v@, end as int) == (
                end as int,
                Seq::<CalloutMarker>::empty(),
                None::<int>,
            ),
        decreases end, (if done { 0int } else { 1int }),
    {
        let (kind, pos, m) = callout_step_at(v.as_slice(), end);
        if kind == 0 {
            done = true;
        } else if kind == 1 {
            escape_at = Some(pos);
            done = true;
        } else {
            markers.insert(0, m);
            proof {
                let r = callout_scan(v@, pos as int);
                assert(r.1.push(m) + markers@.drop_first() =~= r.1 + markers@);
            }
            end = pos;
        }
    }
    proof {
        let r = callout_scan(v@, end as int);
        if end == 0 {
            assert(r.1 =~= Seq::<CalloutMarker>::empty());
            assert(escape_at is None);
        }
        assert(r.1 + markers@ =~= markers@);
    }
    match escape_at {
        None => {
            let t = slice_vec(v.as_slice(), 0, end);
            assert(t@ =~= v@.take(end as int));
            (string_of(t.as_slice()), markers)
        },
        Some(b) => {
            let mut t = slice_vec(v.as_slice(), 0, b);
            let t2 = slice_vec(v.as_slice(), b + 1, end);
            crate::text::push_all(&mut t, t2.as_slice());
            assert(t@ =~= v@.take(b as int) + v@.subrange(b + 1, end as int));
            (string_of(t.as_slice()), markers)
        },
    }
}

/// Chars removed from the end of `s` by a leading-comment callout guard:
/// an optional single trailing space plus a comment token (`//`, `;;`,
/// `--` or `#`).
pub open spec fn guard_cut(s: Seq<char>) -> Option<int> {
    let sp: int = if s.len() > 0 && s.last() == ' ' {
        1
    } else {
        0
    };
    let t = s.take(s.len() - sp);
    if ends_with(t, seq!['/', '/']) || ends_with(t, seq![';', ';']) || ends_with(
        t,
        seq!['-', '-'],
    ) {
        Some(2 + sp)
    } else if ends_with(t, seq!['#']) {
        Some(1 + sp)
    } else {
        None
    }
}

/// Byte offset in `text` at which a leading-comment callout guard begins,
/// or `text.len()` when there is none.
pub fn callout_guard_offset(text: &str) -> (r: usize)
    ensures
        r == match guard_cut(text@) {
            Some(k) => text.spec_bytes().len() - k,
            None => text.spec_bytes().len() as int,
        },
{
    let v = chars_of(text);
    let n = v.len();
    let sp: usize = if n > 0 && v[n - 1] == ' ' {
        1
    } else {
        0
    };
    let t = slice_vec(v.as_slice(), 0, n - sp);
    assert(t@ =~= v@.take(n - sp));
    let p1 = vec!['/', '/'];
    assert(p1@ == seq!['/', '/']);
    let p2 = vec![';', ';'];
    assert(p2@ == seq![';', ';']);
    let p3 = vec!['-', '-'];
    assert(p3@ == seq!['-', '-']);
    let p4 = vec!['#'];
    assert(p4@ == seq!['#']);
    let bytes = text.as_bytes().len();
    proof {
        lemma_utf8_len_ge(text@);
    }
    if ends_with_at(t.as_slice(), p1.as_slice()) || ends_with_at(t.as_slice(), p2.as_slice())
        || ends_with_at(t.as_slice(), p3.as_slice()) {
        bytes - (2 + sp)
    } else if ends_with_at(t.as_slice(), p4.as_slice()) {
        bytes - (1 + sp)
    } else {
        bytes
    }
}

/// `|===`-style table delimiter: `|`, `,`, `:` or `!` then three or more `=`.
pub open spec fn table_delimiter(s: Seq<char>) -> bool {
    let t = trim(s);
    &&& t.len() > 0
    &&& (t[0] == '|' || t[0] == ',' || t[0] == ':' || t[0] == '!')
    &&& t.len() >= 4
    &&& forall|k: int| 1 <= k < t.len() ==> #[trigger] t[k] == '='
}

pub fn is_table_delimiter(line: &str) -> (b: bool)
    ensures
        b == table_delimiter(line@),
{
    let v = chars_of(line);
    let (a, e) = trim_range(v.as_slice(), 0, v.len());
    assert(v@.subrange(0, v@.len() as int) =~= v@);
    let t = slice_vec(v.as_slice(), a, e);
    if t.len() == 0 {
        return false;
    }
    let f = t[0];
    if !(f == '|' || f == ',' || f == ':' || f == '!') {
        return false;
    }
    if t.len() < 4 {
        return false;
    }
    let mut k: usize = 1;
    while k < t.len()
        invariant
            1 <= k <= t@.len(),
            t@ == trim(line@),
            t@.len() >= 4,
            t@[0] == '|' || t@[0] == ',' || t@[0] == ':' || t@[0] == '!',
            forall|j: int| 1 <= j < k ==> #[trigger] t@[j] == '=',
        decreases t@.len() - k,
    {
        if t[k] != '=' {
            return false;
        }
        k += 1;
    }
    true
}

/// Default alt text of an inline icon: basename without its last
/// extension (a leading dot is no extension), `_`/`-` turned into spaces.
pub open spec fn icon_alt_of(s: Seq<char>) -> Seq<char> {
    let base = match rfind(s, seq!['/']) {
        Some(i) => s.skip(i + 1),
        None => s,
    };
    let stem = match rfind(base, seq!['.']) {
        Some(i) => if i > 0 {
            base.take(i)
        } else {
            base
        },
        None => base,
    };
    stem.map_values(|c: char| if c == '_' || c == '-' { ' ' } else { c })
}

/// `icon_alt_of` on chars.
pub fn icon_alt_chars(v: &[char]) -> (r: Vec<char>)
    ensures
        r@ == icon_alt_of(v@),
{
    let sl = vec!['/'];
    assert(sl@ == seq!['/']);
    let dot = vec!['.'];
    assert(dot@ == seq!['.']);
    let n = v.len();
    let base = match rfind_at(v, sl.as_slice()) {
        Some(i) => slice_vec(v, i + 1, n),
        None => slice_vec(v, 0, n),
    };
    assert(base@ =~= (match rfind(v@, seq!['/']) {
        Some(i) => v@.skip(i + 1),
        None => v@,
    }));
    let stem = match rfind_at(base.as_slice(), dot.as_slice()) {
        Some(i) => if i > 0 {
            slice_vec(base.as_slice(), 0, i)
        } else {
            slice_vec(base.as_slice(), 0, base.len())
        },
        None => slice_vec(base.as_slice(), 0, base.len()),
    };
    let ghost st = stem@;
    let mut out: Vec<char> = Vec::new();
    let mut k: usize = 0;
    while k < stem.len()
        invariant
            k <= stem@.len(),
            out@ == stem@.take(k as int).map_values(
                |c: char| if c == '_' || c == '-' { ' ' } else { c },
            ),
        decreases stem@.len() - k,
    {
        let c = stem[k];
        out.push(if c == '_' || c == '-' { ' ' } else { c });
        k += 1;
        assert(out@ =~= stem@.take(k as int).map_values(
            |c: char| if c == '_' || c == '-' { ' ' } else { c },
        ));
    }
    assert(stem@.take(stem@.len() as int) =~= stem@);
    assert(stem@ =~= (match rfind(base@, seq!['.']) {
        Some(i) => if i > 0 {
            base@.take(i)
        } else {
            base@
        },
        None => base@,
    }));
    out
}

pub fn icon_default_alt(name: &str) -> (r: String)
    ensures
        r@ == icon_alt_of(name@),
{
    let v = chars_of(name);
    let a = icon_alt_chars(v.as_slice());
    string_of(a.as_slice())
}

} // verus!
