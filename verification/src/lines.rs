//! Line-level helpers of the preprocessor: `str::lines` splitting,
//! attribute entry lines, attribute references in block attribute lines,
//! verbatim styles and continued attribute values.

use vstd::prelude::*;
use crate::attrs::AttrMap;
use crate::scanner::{lines_of, line_continuation_chars, line_continuation_of};
use crate::text::{
    ends_with, ends_with_at, find, find_at, find_from, find_from_at, is_alnum, lemma_find_from_bounds, match_at,
    push_all, slice_vec, split, split_ranges, starts_with, trim, trim_end, trim_end_range,
    trim_range,
};

verus! {

/// `trim(s)` as a vector.
pub fn trim_vec(s: &[char]) -> (r: Vec<char>)
    ensures
        r@ == trim(s@),
{
    let n = s.len();
    let (a, b) = trim_range(s, 0, n);
    assert(s@.subrange(0, n as int) =~= s@);
    slice_vec(s, a, b)
}

// ---------------------------------------------------------------------------
// Lines
// ---------------------------------------------------------------------------

/// `str::lines`: the lines of `s`, where a final empty line (after a last
/// `\n`, or of an empty text) does not count.
pub open spec fn std_lines(s: Seq<char>) -> Seq<Seq<char>> {
    let l = lines_of(s);
    if l.len() > 0 && l.last().len() == 0 {
        l.drop_last()
    } else {
        l
    }
}

/// The lines of `s` as `str::lines` gives them.
pub fn std_lines_chars(s: &[char]) -> (r: Vec<Vec<char>>)
    ensures
        r@.len() == std_lines(s@).len(),
        forall|k: int| 0 <= k < r@.len() ==> (#[trigger] r@[k])@ == std_lines(s@)[k],
{
    let nl = vec!['\n'];
    assert(nl@ == seq!['\n']);
    let cr = vec!['\r'];
    assert(cr@ == seq!['\r']);
    let ranges = split_ranges(s, nl.as_slice());
    let ghost parts = split(s@, nl@);
    let ghost ls = lines_of(s@);
    assert(ls.len() == parts.len());
    let mut out: Vec<Vec<char>> = Vec::new();
    let mut k: usize = 0;
    while k < ranges.len()
        invariant
            nl@ == seq!['\n'],
            cr@ == seq!['\r'],
            parts == split(s@, nl@),
            ls == lines_of(s@),
            ranges@.len() == parts.len(),
            ls.len() == parts.len(),
            forall|j: int|
                0 <= j < ranges@.len() ==> {
                    &&& (#[trigger] ranges@[j]).0 <= ranges@[j].1 <= s@.len()
                    &&& s@.subrange(ranges@[j].0 as int, ranges@[j].1 as int) == parts[j]
                },
            k <= ranges@.len(),
            out@.len() == k,
            forall|j: int| 0 <= j < k ==> (#[trigger] out@[j])@ == ls[j],
        decreases ranges@.len() - k,
    {
        let (a, b) = ranges[k];
        let piece = slice_vec(s, a, b);
        if k + 1 < ranges.len() && ends_with_at(piece.as_slice(), cr.as_slice()) {
            let cut = slice_vec(piece.as_slice(), 0, piece.len() - 1);
            assert(cut@ =~= parts[k as int].drop_last());
            out.push(cut);
        } else {
            out.push(piece);
        }
        k += 1;
    }
    if out.len() > 0 && out[out.len() - 1].len() == 0 {
        let ghost before = out@;
        out.pop();
        assert forall|j: int| 0 <= j < out@.len() implies (#[trigger] out@[j])@ == std_lines(
            s@,
        )[j] by {
            assert(out@[j] == before[j]);
        }
    }
    out
}

// ---------------------------------------------------------------------------
// Attribute entries
// ---------------------------------------------------------------------------

/// An attribute entry line: `:name: value` (value after one space, or
/// empty) gives the name and `Some(value)`; `:!name:` and `:name!:` unset
/// the attribute and give `None`.
pub open spec fn attr_entry_of(line: Seq<char>) -> Option<(Seq<char>, Option<Seq<char>>)> {
    if !starts_with(line, seq![':']) {
        None
    } else {
        let rest = line.skip(1);
        if starts_with(rest, seq!['!']) {
            let r2 = rest.skip(1);
            match find(r2, seq![':']) {
                Some(e) => if e > 0 {
                    Some((r2.take(e), None))
                } else {
                    None
                },
                None => None,
            }
        } else {
            match find(rest, seq![':']) {
                Some(end) => if end == 0 {
                    None
                } else {
                    let name = rest.take(end);
                    if ends_with(name, seq!['!']) {
                        if name.len() > 1 {
                            Some((name.drop_last(), None))
                        } else {
                            None
                        }
                    } else {
                        let after = rest.skip(end + 1);
                        if after.len() == 0 {
                            Some((name, Some(Seq::empty())))
                        } else if starts_with(after, seq![' ']) {
                            Some((name, Some(after.skip(1))))
                        } else {
                            None
                        }
                    }
                },
                None => None,
            }
        }
    }
}

proof fn lemma_first_colon(s: Seq<char>, k: int)
    requires
        0 <= k < s.len(),
        s[k] == ':',
        forall|j: int| 0 <= j < k ==> s[j] != ':',
    ensures
        find(s, seq![':']) == Some(k),
{
    lemma_find_from_bounds(s, seq![':'], 0);
    assert(s.subrange(k, k + 1) =~= seq![':']);
    assert(match_at(s, seq![':'], k));
    match find(s, seq![':']) {
        Some(m) => {
            if m < k {
                assert(s.subrange(m, m + 1)[0] == s[m]);
            }
        },
        None => {},
    }
}

/// An attribute entry `:name: value` sets `name` to the value (empty for
/// `:name:`), and `:!name:` or `:name!:` unsets `name`, for any non-empty
/// name without a colon that neither starts nor ends with `!`.
pub proof fn law_attribute_entries(name: Seq<char>, value: Seq<char>)
    requires
        name.len() > 0,
        forall|j: int| 0 <= j < name.len() ==> name[j] != ':',
        name[0] != '!',
        name.last() != '!',
    ensures
        attr_entry_of(seq![':'] + name + seq![':', ' '] + value) == Some((name, Some(value))),
        attr_entry_of(seq![':'] + name + seq![':']) == Some((name, Some(Seq::<char>::empty()))),
        attr_entry_of(seq![':', '!'] + name + seq![':']) == Some((name, None::<Seq<char>>)),
        attr_entry_of(seq![':'] + name + seq!['!', ':']) == Some((name, None::<Seq<char>>)),
{
    let k = name.len() as int;
    let a = seq![':'] + name + seq![':', ' '] + value;
    assert(a.subrange(0, 1) =~= seq![':']);
    let ra = a.skip(1);
    assert(ra[0] == name[0]);
    assert(ra.subrange(0, 1)[0] == ra[0]);
    lemma_first_colon(ra, k);
    assert(ra.take(k) =~= name);
    assert(name.subrange(k - 1, k)[0] == name.last());
    assert(ra.skip(k + 1).subrange(0, 1) =~= seq![' ']);
    assert(ra.skip(k + 1).skip(1) =~= value);
    let b = seq![':'] + name + seq![':'];
    assert(b.subrange(0, 1) =~= seq![':']);
    let rb = b.skip(1);
    assert(rb[0] == name[0]);
    assert(rb.subrange(0, 1)[0] == rb[0]);
    lemma_first_colon(rb, k);
    assert(rb.take(k) =~= name);
    assert(rb.skip(k + 1) =~= Seq::<char>::empty());
    let c = seq![':', '!'] + name + seq![':'];
    assert(c.subrange(0, 1) =~= seq![':']);
    let rc = c.skip(1);
    assert(rc.subrange(0, 1) =~= seq!['!']);
    let r2 = rc.skip(1);
    assert(r2 =~= name + seq![':']);
    lemma_first_colon(r2, k);
    assert(r2.take(k) =~= name);
    let d = seq![':'] + name + seq!['!', ':'];
    assert(d.subrange(0, 1) =~= seq![':']);
    let rd = d.skip(1);
    assert(rd[0] == name[0]);
    assert(rd.subrange(0, 1)[0] == rd[0]);
    assert(rd[k] == '!');
    lemma_first_colon(rd, k + 1);
    let nm = rd.take(k + 1);
    assert(nm.subrange(k, k + 1) =~= seq!['!']);
    assert(nm.drop_last() =~= name);
}

pub open spec fn entry_view(r: Option<(Vec<char>, Option<Vec<char>>)>) -> Option<
    (Seq<char>, Option<Seq<char>>),
> {
    match r {
        Some((n, Some(v))) => Some((n@, Some(v@))),
        Some((n, None)) => Some((n@, None)),
        None => None,
    }
}

/// Parses an attribute entry line.
pub fn parse_attribute_entry(line: &[char]) -> (r: Option<(Vec<char>, Option<Vec<char>>)>)
    ensures
        entry_view(r) == attr_entry_of(line@),
{
    let n = line.len();
    if n == 0 || line[0] != ':' {
        proof {
            if n > 0 {
                assert(line@.subrange(0, 1)[0] == line@[0]);
            }
        }
        return None;
    }
    assert(line@.subrange(0, 1) =~= seq![':']);
    let rest = slice_vec(line, 1, n);
    assert(rest@ =~= line@.skip(1));
    let rl = rest.len();
    let colon = vec![':'];
    assert(colon@ == seq![':']);
    if rl > 0 && rest[0] == '!' {
        assert(rest@.subrange(0, 1) =~= seq!['!']);
        let r2 = slice_vec(rest.as_slice(), 1, rl);
        assert(r2@ =~= rest@.skip(1));
        return match find_at(r2.as_slice(), colon.as_slice()) {
            Some(e) => if e > 0 {
                let name = slice_vec(r2.as_slice(), 0, e);
                assert(name@ =~= r2@.take(e as int));
                Some((name, None))
            } else {
                None
            },
            None => None,
        };
    }
    proof {
        if rl > 0 {
            assert(rest@.subrange(0, 1)[0] == rest@[0]);
        }
    }
    let end = match find_at(rest.as_slice(), colon.as_slice()) {
        Some(e) => e,
        None => return None,
    };
    if end == 0 {
        return None;
    }
    let name = slice_vec(rest.as_slice(), 0, end);
    assert(name@ =~= rest@.take(end as int));
    if name[end - 1] == '!' {
        assert(name@.subrange(end - 1, end as int) =~= seq!['!']);
        if end > 1 {
            let short = slice_vec(name.as_slice(), 0, end - 1);
            assert(short@ =~= name@.drop_last());
            return Some((short, None));
        }
        return None;
    }
    assert(!ends_with(name@, seq!['!'])) by {
        assert(name@.subrange(end - 1, end as int)[0] == name@[end - 1]);
    }
    let after = slice_vec(rest.as_slice(), end + 1, rl);
    assert(after@ =~= rest@.skip(end + 1));
    let al = after.len();
    if al == 0 {
        let empty: Vec<char> = Vec::new();
        assert(empty@ =~= Seq::<char>::empty());
        Some((name, Some(empty)))
    } else if after[0] == ' ' {
        assert(after@.subrange(0, 1) =~= seq![' ']);
        let v = slice_vec(after.as_slice(), 1, al);
        assert(v@ =~= after@.skip(1));
        Some((name, Some(v)))
    } else {
        assert(after@.subrange(0, 1)[0] == after@[0]);
        None
    }
}

// ---------------------------------------------------------------------------
// Attribute references in block attribute lines
// ---------------------------------------------------------------------------

pub open spec fn ref_name_char(c: char) -> bool {
    is_alnum(c) || c == '_' || c == '-'
}

/// A name that a `{name}` reference may carry: non-empty, starting with an
/// ASCII alphanumeric or `_`, made of ASCII alphanumerics, `_` and `-`.
pub open spec fn valid_ref_name(n: Seq<char>) -> bool {
    &&& n.len() > 0
    &&& (is_alnum(n[0]) || n[0] == '_')
    &&& forall|k: int| 0 <= k < n.len() ==> ref_name_char(#[trigger] n[k])
}

/// Where an unescaped `{name}` reference to a set attribute starts at `i`:
/// the index of its `}`.
pub open spec fn ref_at(s: Seq<char>, i: int, m: Map<Seq<char>, Seq<char>>) -> Option<int> {
    if 0 <= i < s.len() && s[i] == '{' && (i == 0 || s[i - 1] != '\\') {
        match find_from(s, seq!['}'], i + 1) {
            Some(c) => if valid_ref_name(s.subrange(i + 1, c)) && m.contains_key(
                s.subrange(i + 1, c),
            ) {
                Some(c)
            } else {
                None
            },
            None => None,
        }
    } else {
        None
    }
}

/// `s[i..]` with each reference to a set attribute replaced by its value,
/// and whether any was replaced.
pub open spec fn refs_from(s: Seq<char>, i: int, m: Map<Seq<char>, Seq<char>>) -> (Seq<char>, bool)
    decreases s.len() - i,
{
    if i < 0 || i >= s.len() {
        (Seq::empty(), false)
    } else {
        match ref_at(s, i, m) {
            Some(c) => {
                proof {
                    lemma_find_from_bounds(s, seq!['}'], i + 1);
                }
                (m[s.subrange(i + 1, c)] + refs_from(s, c + 1, m).0, true)
            },
            None => (seq![s[i]] + refs_from(s, i + 1, m).0, refs_from(s, i + 1, m).1),
        }
    }
}

/// Attribute references expanded in a block attribute line; `None` when
/// none was replaced.
pub open spec fn attr_refs_of(s: Seq<char>, m: Map<Seq<char>, Seq<char>>) -> Option<Seq<char>> {
    if refs_from(s, 0, m).1 {
        Some(refs_from(s, 0, m).0)
    } else {
        None
    }
}

fn is_ref_name_char(c: char) -> (b: bool)
    ensures
        b == ref_name_char(c),
{
    ('a' <= c && c <= 'z') || ('A' <= c && c <= 'Z') || ('0' <= c && c <= '9') || c == '_' || c
        == '-'
}

fn valid_ref_name_at(s: &[char], a: usize, b: usize) -> (r: bool)
    requires
        a <= b <= s@.len(),
    ensures
        r == valid_ref_name(s@.subrange(a as int, b as int)),
{
    let ghost t = s@.subrange(a as int, b as int);
    if a == b {
        return false;
    }
    let c0 = s[a];
    assert(t[0] == c0);
    if !(('a' <= c0 && c0 <= 'z') || ('A' <= c0 && c0 <= 'Z') || ('0' <= c0 && c0 <= '9') || c0
        == '_') {
        return false;
    }
    let mut k = a;
    while k < b
        invariant
            a <= k <= b <= s@.len(),
            t == s@.subrange(a as int, b as int),
            forall|j: int| 0 <= j < k - a ==> ref_name_char(#[trigger] t[j]),
        decreases b - k,
    {
        if !is_ref_name_char(s[k]) {
            assert(t[k - a] == s@[k as int]);
            return false;
        }
        assert(t[k - a] == s@[k as int]);
        k += 1;
    }
    true
}

/// Expands `{name}` references to set attributes in a block attribute
/// line; `None` when nothing was replaced.
pub fn expand_attr_refs_in_attrlist(line: &[char], attributes: &AttrMap) -> (r: Option<Vec<char>>)
    requires
        attributes.wf(),
    ensures
        match r {
            Some(t) => attr_refs_of(line@, attributes@) == Some(t@),
            None => attr_refs_of(line@, attributes@) is None,
        },
{
    let n = line.len();
    let cb = vec!['}'];
    assert(cb@ == seq!['}']);
    let ghost m = attributes@;
    let mut out: Vec<char> = Vec::new();
    let mut any = false;
    let mut i: usize = 0;
    while i < n
        invariant
            n == line@.len(),
            i <= n,
            attributes.wf(),
            m == attributes@,
            cb@ == seq!['}'],
            refs_from(line@, 0, m).0 == out@ + refs_from(line@, i as int, m).0,
            refs_from(line@, 0, m).1 == (any || refs_from(line@, i as int, m).1),
        decreases n - i,
    {
        let ghost before = out@;
        if line[i] == '{' && (i == 0 || line[i - 1] != '\\') {
            if let Some(c) = find_from_at(line, cb.as_slice(), i + 1) {
                if valid_ref_name_at(line, i + 1, c) {
                    let name = slice_vec(line, i + 1, c);
                    if let Some(v) = attributes.get_chars(name.as_slice()) {
                        push_all(&mut out, v.as_slice());
                        any = true;
                        proof {
                            lemma_find_from_bounds(line@, seq!['}'], i + 1);
                            assert(ref_at(line@, i as int, m) == Some(c as int));
                            assert(out@ + refs_from(line@, c + 1, m).0 =~= before + refs_from(
                                line@,
                                i as int,
                                m,
                            ).0);
                        }
                        i = c + 1;
                        continue;
                    }
                }
            }
        }
        assert(ref_at(line@, i as int, m) is None);
        out.push(line[i]);
        assert(out@ + refs_from(line@, i + 1, m).0 =~= before + refs_from(line@, i as int, m).0);
        i += 1;
    }
    assert(out@ + refs_from(line@, n as int, m).0 =~= out@);
    if any {
        Some(out)
    } else {
        None
    }
}

// ---------------------------------------------------------------------------
// Verbatim styles
// ---------------------------------------------------------------------------

pub open spec fn style_stop(c: char) -> bool {
    c == '%' || c == '.' || c == '#' || c == ' '
}

/// Index of the first style stop char in `t` at or after `i` (or the end).
pub open spec fn style_end(t: Seq<char>, i: int) -> int
    decreases t.len() - i,
{
    if 0 <= i < t.len() && !style_stop(t[i]) {
        style_end(t, i + 1)
    } else {
        i
    }
}

pub open spec fn lit_source() -> Seq<char> {
    seq!['s', 'o', 'u', 'r', 'c', 'e']
}

pub open spec fn lit_listing() -> Seq<char> {
    seq!['l', 'i', 's', 't', 'i', 'n', 'g']
}

pub open spec fn lit_literal() -> Seq<char> {
    seq!['l', 'i', 't', 'e', 'r', 'a', 'l']
}

/// A block attribute line `[…]` whose first positional attribute, cut at
/// `%`, `.`, `#` or a space, is `source`, `listing` or `literal`.
pub open spec fn verbatim_style(line: Seq<char>) -> bool {
    let t = trim(line);
    if starts_with(t, seq!['[']) && t.len() >= 2 && t.last() == ']' {
        let inner = t.subrange(1, t.len() - 1);
        let first = match find(inner, seq![',']) {
            Some(c) => inner.take(c),
            None => inner,
        };
        let style = first.take(style_end(first, 0));
        style == lit_source() || style == lit_listing() || style == lit_literal()
    } else {
        false
    }
}

pub proof fn lemma_style_end(t: Seq<char>, i: int)
    requires
        0 <= i <= t.len(),
    ensures
        i <= style_end(t, i) <= t.len(),
        style_end(t, i) < t.len() ==> style_stop(t[style_end(t, i)]),
        forall|k: int| i <= k < style_end(t, i) ==> !style_stop(#[trigger] t[k]),
    decreases t.len() - i,
{
    if 0 <= i < t.len() && !style_stop(t[i]) {
        lemma_style_end(t, i + 1);
    }
}

pub fn is_verbatim_style_attr_line(line: &[char]) -> (r: bool)
    ensures
        r == verbatim_style(line@),
{
    let t = trim_vec(line);
    let tl = t.len();
    if !(tl >= 2 && t[0] == '[' && t[tl - 1] == ']') {
        proof {
            if tl >= 1 {
                assert(t@.subrange(0, 1)[0] == t@[0]);
            }
        }
        return false;
    }
    assert(t@.subrange(0, 1) =~= seq!['[']);
    let inner = slice_vec(t.as_slice(), 1, tl - 1);
    let comma = vec![','];
    assert(comma@ == seq![',']);
    let first = match find_at(inner.as_slice(), comma.as_slice()) {
        Some(c) => {
            let f = slice_vec(inner.as_slice(), 0, c);
            assert(f@ =~= inner@.take(c as int));
            f
        },
        None => inner,
    };
    let fl = first.len();
    let mut k: usize = 0;
    while k < fl && !(first[k] == '%' || first[k] == '.' || first[k] == '#' || first[k] == ' ')
        invariant
            fl == first@.len(),
            k <= fl,
            style_end(first@, 0) == style_end(first@, k as int),
        decreases fl - k,
    {
        k += 1;
    }
    let style = slice_vec(first.as_slice(), 0, k);
    assert(style@ =~= first@.take(style_end(first@, 0)));
    let a = vec!['s', 'o', 'u', 'r', 'c', 'e'];
    assert(a@ == lit_source());
    let b = vec!['l', 'i', 's', 't', 'i', 'n', 'g'];
    assert(b@ == lit_listing());
    let c = vec!['l', 'i', 't', 'e', 'r', 'a', 'l'];
    assert(c@ == lit_literal());
    crate::attrs::same_chars(style.as_slice(), a.as_slice()) || crate::attrs::same_chars(
        style.as_slice(),
        b.as_slice(),
    ) || crate::attrs::same_chars(style.as_slice(), c.as_slice())
}

// ---------------------------------------------------------------------------
// Continued attribute values
// ---------------------------------------------------------------------------

/// The chars of each line.
pub open spec fn line_views(lines: Seq<Vec<char>>) -> Seq<Seq<char>> {
    lines.map_values(|l: Vec<char>| l@)
}

/// Continuation lines from `lines[j]` on, accumulating onto `acc` (the
/// separator is a newline after a hard break, a space otherwise): the index
/// after the last line taken, the value, and the lines taken, each with
/// its newline.
pub open spec fn continue_from(lines: Seq<Seq<char>>, j: int, acc: Seq<char>, hard: bool) -> (
    int,
    Seq<char>,
    Seq<char>,
)
    decreases lines.len() - j,
{
    if j < 0 || j >= lines.len() {
        (j, acc, Seq::empty())
    } else {
        let cl = lines[j];
        let t = trim(cl);
        let acc2 = acc + (if hard {
            seq!['\n']
        } else {
            seq![' ']
        });
        match line_continuation_of(t) {
            Some((part, nh)) => {
                let r = continue_from(lines, j + 1, acc2 + part, nh);
                (r.0, r.1, cl.push('\n') + r.2)
            },
            None => (j + 1, acc2 + t, cl.push('\n')),
        }
    }
}

/// An attribute value that may continue on the following lines (from
/// index `j`): next index, full value, lines taken.
pub open spec fn collect_value(lines: Seq<Seq<char>>, j: int, first: Seq<char>) -> (
    int,
    Seq<char>,
    Seq<char>,
) {
    match line_continuation_of(first) {
        Some((prefix, hard)) => continue_from(lines, j, prefix, hard),
        None => (j, first, Seq::empty()),
    }
}

/// Index after the continuation lines of a value, from `j` on.
pub open spec fn skip_from(lines: Seq<Seq<char>>, j: int) -> int
    decreases lines.len() - j,
{
    if j < 0 || j >= lines.len() {
        j
    } else if line_continuation_of(trim(lines[j])) is None {
        j + 1
    } else {
        skip_from(lines, j + 1)
    }
}

pub open spec fn skip_value(lines: Seq<Seq<char>>, j: int, first: Seq<char>) -> int {
    if line_continuation_of(first) is None {
        j
    } else {
        skip_from(lines, j)
    }
}

pub proof fn lemma_continue_bounds(lines: Seq<Seq<char>>, j: int, acc: Seq<char>, hard: bool)
    requires
        0 <= j <= lines.len(),
    ensures
        j <= continue_from(lines, j, acc, hard).0 <= lines.len(),
    decreases lines.len() - j,
{
    if j < lines.len() {
        let t = trim(lines[j]);
        let acc2 = acc + (if hard {
            seq!['\n']
        } else {
            seq![' ']
        });
        match line_continuation_of(t) {
            Some((part, nh)) => lemma_continue_bounds(lines, j + 1, acc2 + part, nh),
            None => {},
        }
    }
}

pub proof fn lemma_skip_bounds(lines: Seq<Seq<char>>, j: int)
    requires
        0 <= j <= lines.len(),
    ensures
        j <= skip_from(lines, j) <= lines.len(),
    decreases lines.len() - j,
{
    if j < lines.len() && line_continuation_of(trim(lines[j])) is Some {
        lemma_skip_bounds(lines, j + 1);
    }
}

/// Takes the continuation lines of `first` from `lines[j..]`, appending
/// them to `out`; the index after them and the full value.
pub fn collect_continuation_value(
    first: &[char],
    lines: &Vec<Vec<char>>,
    j: usize,
    out: &mut Vec<char>,
) -> (r: (usize, Vec<char>))
    requires
        j <= lines@.len(),
    ensures
        ({
            let ls = line_views(lines@);
            let c = collect_value(ls, j as int, first@);
            &&& r.0 == c.0
            &&& r.1@ == c.1
            &&& final(out)@ == old(out)@ + c.2
        }),
{
    let ghost ls = line_views(lines@);
    let (e, hard0) = match line_continuation_chars(first) {
        Some(p) => p,
        None => {
            let v = slice_vec(first, 0, first.len());
            assert(v@ =~= first@);
            assert(old(out)@ + Seq::<char>::empty() =~= old(out)@);
            return (j, v);
        },
    };
    let mut acc = slice_vec(first, 0, e);
    let mut hard = hard0;
    let mut k = j;
    let ghost o0 = out@;
    assert(first@.take(e as int) =~= first@.subrange(0, e as int));
    assert(o0 + Seq::<char>::empty() =~= o0);
    while k < lines.len()
        invariant
            ls == line_views(lines@),
            j <= k <= lines@.len(),
            collect_value(ls, j as int, first@) == ({
                let r = continue_from(ls, k as int, acc@, hard);
                (r.0, r.1, (out@.skip(o0.len() as int) + r.2))
            }),
            out@.len() >= o0.len(),
            out@.take(o0.len() as int) == o0,
            o0 == old(out)@,
        decreases lines@.len() - k,
    {
        let cl = &lines[k];
        assert(ls[k as int] == cl@);
        let ghost out_b = out@;
        let ghost acc_old = acc@;
        let ghost hard_old = hard;
        let ghost sep = if hard {
            seq!['\n']
        } else {
            seq![' ']
        };
        push_all(out, cl.as_slice());
        out.push('\n');
        let t = trim_vec(cl.as_slice());
        if hard {
            acc.push('\n');
        } else {
            acc.push(' ');
        }
        match line_continuation_chars(t.as_slice()) {
            Some((pe, nh)) => {
                let part = slice_vec(t.as_slice(), 0, pe);
                assert(part@ =~= t@.take(pe as int));
                push_all(&mut acc, part.as_slice());
                hard = nh;
                proof {
                    assert(acc@ =~= (acc_old + sep) + part@);
                    assert(out@.skip(o0.len() as int) =~= out_b.skip(o0.len() as int) + cl@.push(
                        '\n',
                    ));
                    assert(out@.take(o0.len() as int) =~= o0);
                    let r = continue_from(ls, k + 1, acc@, hard);
                    assert(out_b.skip(o0.len() as int) + (cl@.push('\n') + r.2) =~= out@.skip(
                        o0.len() as int,
                    ) + r.2);
                }
                k += 1;
            },
            None => {
                push_all(&mut acc, t.as_slice());
                proof {
                    assert(acc@ =~= (acc_old + sep) + t@);
                    assert(out@.skip(o0.len() as int) =~= out_b.skip(o0.len() as int) + cl@.push(
                        '\n',
                    ));
                    assert(out@ =~= o0 + out@.skip(o0.len() as int));
                }
                return (k + 1, acc);
            },
        }
    }
    proof {
        assert(out@ =~= o0 + out@.skip(o0.len() as int));
        assert(out@.skip(o0.len() as int) + Seq::<char>::empty() =~= out@.skip(o0.len() as int));
    }
    (k, acc)
}

/// Index after the continuation lines of `first` in `lines[j..]`, which
/// are dropped.
pub fn skip_continuation_lines(first: &[char], lines: &Vec<Vec<char>>, j: usize) -> (r: usize)
    requires
        j <= lines@.len(),
    ensures
        r == skip_value(line_views(lines@), j as int, first@),
{
    let ghost ls = line_views(lines@);
    if line_continuation_chars(first).is_none() {
        return j;
    }
    let mut k = j;
    while k < lines.len()
        invariant
            ls == line_views(lines@),
            j <= k <= lines@.len(),
            line_continuation_of(first@) is Some,
            skip_from(ls, j as int) == skip_from(ls, k as int),
        decreases lines@.len() - k,
    {
        let t = trim_vec(lines[k].as_slice());
        assert(ls[k as int] == lines@[k as int]@);
        if line_continuation_chars(t.as_slice()).is_none() {
            return k + 1;
        }
        k += 1;
    }
    k
}

} // verus!
