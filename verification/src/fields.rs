//! Field splitting for CSV, DSV and TSV table lines.

use vstd::prelude::*;
use crate::text::{
    chars_of, replace_all, replace_chars, run_end, skip_run, slice_vec, split, split_ranges, trim,
    trim_range,
};

verus! {

/// Index of the first `,` at or after `i` (or `s.len()`).
pub open spec fn comma_from(s: Seq<char>, i: int) -> int
    decreases s.len() - i,
{
    if 0 <= i < s.len() && s[i] != ',' {
        comma_from(s, i + 1)
    } else {
        i
    }
}

/// End of a quoted field's content starting at `i`: the first `"` not
/// followed by another `"` (a doubled `""` is an escaped quote).
pub open spec fn quote_end(s: Seq<char>, i: int) -> int
    decreases s.len() - i,
{
    if i < 0 || i >= s.len() {
        i
    } else if s[i] == '"' {
        if i + 1 < s.len() && s[i + 1] == '"' {
            quote_end(s, i + 2)
        } else {
            i
        }
    } else {
        quote_end(s, i + 1)
    }
}

pub proof fn lemma_comma_from(s: Seq<char>, i: int)
    requires
        0 <= i <= s.len(),
    ensures
        i <= comma_from(s, i) <= s.len(),
        comma_from(s, i) < s.len() ==> s[comma_from(s, i)] == ',',
    decreases s.len() - i,
{
    if i < s.len() && s[i] != ',' {
        lemma_comma_from(s, i + 1);
    }
}

pub proof fn lemma_quote_end(s: Seq<char>, i: int)
    requires
        0 <= i <= s.len(),
    ensures
        i <= quote_end(s, i) <= s.len(),
    decreases s.len() - i,
{
    if i < s.len() {
        if s[i] == '"' {
            if i + 1 < s.len() && s[i + 1] == '"' {
                lemma_quote_end(s, i + 2);
            }
        } else {
            lemma_quote_end(s, i + 1);
        }
    }
}

/// One field starting at `i` (after leading spaces): its value and the
/// index where it ends (a `,` or the end of the line).
pub open spec fn csv_field(s: Seq<char>, i: int) -> (Seq<char>, int) {
    let j = run_end(s, ' ', i);
    if 0 <= j < s.len() && s[j] == '"' {
        let q = quote_end(s, j + 1);
        let after = if q < s.len() { q + 1 } else { q };
        (replace_all(s.subrange(j + 1, q), seq!['"', '"'], seq!['"']), comma_from(s, after))
    } else {
        let k = comma_from(s, j);
        (trim(s.subrange(j, k)), k)
    }
}

pub proof fn lemma_csv_field(s: Seq<char>, i: int)
    requires
        0 <= i <= s.len(),
    ensures
        i <= csv_field(s, i).1 <= s.len(),
        csv_field(s, i).1 < s.len() ==> s[csv_field(s, i).1] == ',',
{
    crate::text::lemma_run_end_bounds(s, ' ', i);
    let j = run_end(s, ' ', i);
    if 0 <= j < s.len() && s[j] == '"' {
        lemma_quote_end(s, j + 1);
        let q = quote_end(s, j + 1);
        let after = if q < s.len() { q + 1 } else { q };
        lemma_comma_from(s, after);
    } else {
        lemma_comma_from(s, j);
    }
}

/// Fields from index `i` of a non-empty line.
pub open spec fn csv_from(s: Seq<char>, i: int) -> Seq<Seq<char>>
    decreases s.len() - i,
{
    if i < 0 || i >= s.len() {
        Seq::empty()
    } else {
        let (field, k) = csv_field(s, i);
        if i <= k < s.len() && s[k] == ',' {
            if k + 1 == s.len() {
                seq![field, Seq::empty()]
            } else {
                seq![field] + csv_from(s, k + 1)
            }
        } else {
            seq![field]
        }
    }
}

/// RFC 4180-like CSV fields: comma separated; a field starting (after
/// spaces) with `"` is quoted, with `""` an escaped quote; unquoted fields
/// are trimmed; a trailing comma yields a final empty field.
pub open spec fn csv_fields_of(s: Seq<char>) -> Seq<Seq<char>> {
    if s.len() == 0 {
        seq![Seq::empty()]
    } else {
        csv_from(s, 0)
    }
}

pub open spec fn strings_view(v: Seq<String>) -> Seq<Seq<char>> {
    v.map_values(|x: String| x@)
}

fn comma_at(s: &[char], i: usize) -> (r: usize)
    requires
        i <= s@.len(),
    ensures
        r == comma_from(s@, i as int),
        i <= r <= s@.len(),
{
    let n = s.len();
    let mut k = i;
    while k < n && s[k] != ','
        invariant
            n == s@.len(),
            i <= k <= n,
            comma_from(s@, i as int) == comma_from(s@, k as int),
        decreases n - k,
    {
        k += 1;
    }
    k
}

fn quote_end_at(s: &[char], i: usize) -> (r: usize)
    requires
        i <= s@.len(),
    ensures
        r == quote_end(s@, i as int),
        i <= r <= s@.len(),
{
    let n = s.len();
    let mut k = i;
    while k < n
        invariant
            n == s@.len(),
            i <= k <= n,
            quote_end(s@, i as int) == quote_end(s@, k as int),
        decreases n - k,
    {
        if s[k] == '"' {
            if k + 1 < n && s[k + 1] == '"' {
                k += 2;
            } else {
                return k;
            }
        } else {
            k += 1;
        }
    }
    k
}

fn csv_field_at(s: &[char], i: usize) -> (r: (Vec<char>, usize))
    requires
        i <= s@.len(),
    ensures
        (r.0@, r.1 as int) == csv_field(s@, i as int),
{
    let n = s.len();
    let j = skip_run(s, ' ', i);
    if j < n && s[j] == '"' {
        let q = quote_end_at(s, j + 1);
        let after = if q < n {
            q + 1
        } else {
            q
        };
        let raw = slice_vec(s, j + 1, q);
        let dq = vec!['"', '"'];
        assert(dq@ == seq!['"', '"']);
        let one = vec!['"'];
        assert(one@ == seq!['"']);
        let field = replace_chars(raw.as_slice(), dq.as_slice(), one.as_slice());
        (field, comma_at(s, after))
    } else {
        let k = comma_at(s, j);
        let (x, y) = trim_range(s, j, k);
        (slice_vec(s, x, y), k)
    }
}

/// Parse CSV fields from a line.
pub fn parse_csv_fields(line: &str) -> (r: Vec<String>)
    ensures
        strings_view(r@) == csv_fields_of(line@),
{
    let v = chars_of(line);
    let n = v.len();
    let mut fields: Vec<String> = Vec::new();
    if n == 0 {
        assert(v@ =~= Seq::<char>::empty());
        fields.push(crate::text::string_of(v.as_slice()));
        assert(strings_view(fields@) =~= seq![Seq::<char>::empty()]);
        return fields;
    }
    let mut i: usize = 0;
    assert(strings_view(fields@) + csv_from(v@, 0) =~= csv_from(v@, 0));
    loop
        invariant
            v@ == line@,
            n == v@.len(),
            n > 0,
            i < n,
            csv_fields_of(v@) == strings_view(fields@) + csv_from(v@, i as int),
        decreases n - i,
    {
        let (field, k) = csv_field_at(v.as_slice(), i);
        proof {
            lemma_csv_field(v@, i as int);
        }
        let ghost before = fields@;
        fields.push(crate::text::string_of(field.as_slice()));
        assert(strings_view(fields@) =~= strings_view(before).push(field@));
        if k < n && v[k] == ',' {
            if k + 1 == n {
                let e = slice_vec(v.as_slice(), n, n);
                assert(e@ =~= Seq::<char>::empty());
                fields.push(crate::text::string_of(e.as_slice()));
                assert(strings_view(fields@) =~= strings_view(before) + seq![field@, Seq::<char>::empty()]);
                return fields;
            }
            assert(strings_view(before) + csv_from(v@, i as int) =~= strings_view(fields@) + csv_from(v@, k + 1));
            i = k + 1;
        } else {
            assert(strings_view(fields@) =~= strings_view(before) + csv_from(v@, i as int));
            return fields;
        }
    }
}

/// `line` split at `sep`, each piece trimmed.
pub open spec fn trimmed_split(s: Seq<char>, sep: char) -> Seq<Seq<char>> {
    split(s, seq![sep]).map_values(|p: Seq<char>| trim(p))
}

pub open spec fn strs_view(v: Seq<&str>) -> Seq<Seq<char>> {
    v.map_values(|x: &str| x@)
}

fn trimmed_split_str<'a>(line: &'a str, sep: char) -> (r: Vec<&'a str>)
    ensures
        strs_view(r@) == trimmed_split(line@, sep),
{
    let v = chars_of(line);
    let p = vec![sep];
    assert(p@ == seq![sep]);
    let ranges = split_ranges(v.as_slice(), p.as_slice());
    let ghost parts = split(v@, p@);
    let mut out: Vec<&'a str> = Vec::new();
    let mut k: usize = 0;
    while k < ranges.len()
        invariant
            v@ == line@,
            p@ == seq![sep],
            parts == split(v@, p@),
            ranges@.len() == parts.len(),
            forall|j: int|
                0 <= j < ranges@.len() ==> {
                    &&& (#[trigger] ranges@[j]).0 <= ranges@[j].1 <= v@.len()
                    &&& v@.subrange(ranges@[j].0 as int, ranges@[j].1 as int) == parts[j]
                },
            k <= ranges@.len(),
            out@.len() == k,
            forall|j: int| 0 <= j < k ==> (#[trigger] out@[j])@ == trim(parts[j]),
        decreases ranges@.len() - k,
    {
        let (a, b) = ranges[k];
        let (x, y) = trim_range(v.as_slice(), a, b);
        out.push(line.substring_char(x, y));
        k += 1;
    }
    assert(strs_view(out@) =~= trimmed_split(line@, sep));
    out
}

/// Parse DSV fields from a line (colon-separated, each trimmed).
pub fn parse_dsv_fields(line: &str) -> (r: Vec<&str>)
    ensures
        strs_view(r@) == trimmed_split(line@, ':'),
{
    trimmed_split_str(line, ':')
}

/// Parse TSV fields from a line (tab-separated, each trimmed).
pub fn parse_tsv_fields(line: &str) -> (r: Vec<&str>)
    ensures
        strs_view(r@) == trimmed_split(line@, '\t'),
{
    trimmed_split_str(line, '\t')
}

} // verus!
