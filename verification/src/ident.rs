//! Section-id generation from title text, and the Unicode character
//! classes it relies on.

use vstd::prelude::*;
use crate::scanner::{icon_alt_chars, icon_alt_of};
use crate::text::{
    chars_of, find, find_at, find_from_at, lemma_find_from_bounds, push_all, slice_vec, split,
    split_ranges, starts_with, starts_with_at, string_of, trim, trim_range,
};

verus! {

// ---------------------------------------------------------------------------
// Unicode character classes (std)
// ---------------------------------------------------------------------------

/// What `char::is_alphanumeric` returns: the char has the Unicode
/// `Alphabetic` or `Numeric` property.
pub uninterp spec fn unicode_alphanumeric(c: char) -> bool;

/// What `char::is_alphabetic` returns: the Unicode `Alphabetic` property.
pub uninterp spec fn unicode_alphabetic(c: char) -> bool;

/// The chars `char::to_lowercase` yields (full Unicode lowercase mapping).
pub uninterp spec fn unicode_lowercase(c: char) -> Seq<char>;

/// `char::is_alphanumeric` as far as it is known: `[0-9A-Za-z]` on ASCII,
/// the named Unicode property elsewhere.
pub open spec fn alnum_char(c: char) -> bool {
    if (c as u32) < 0x80 {
        crate::text::is_alnum(c)
    } else {
        unicode_alphanumeric(c)
    }
}

/// `char::is_alphabetic` as far as it is known: `[A-Za-z]` on ASCII, the
/// named Unicode property elsewhere.
pub open spec fn alpha_char(c: char) -> bool {
    if (c as u32) < 0x80 {
        crate::text::is_alpha(c)
    } else {
        unicode_alphabetic(c)
    }
}

/// `char::to_lowercase` as far as it is known: the ASCII lowercase on
/// ASCII, the named Unicode mapping elsewhere.
pub open spec fn lowercase_chars(c: char) -> Seq<char> {
    if (c as u32) < 0x80 {
        seq![crate::text::lower(c)]
    } else {
        unicode_lowercase(c)
    }
}

/// Calls `char::is_alphanumeric`; its result is named, not restated beyond
/// ASCII, where the alphanumerics are exactly `[0-9A-Za-z]`.
#[verifier::external_body]
pub fn char_is_alphanumeric(c: char) -> (b: bool)
    ensures
        b == unicode_alphanumeric(c),
        (c as u32) < 0x80 ==> (b <==> crate::text::is_alnum(c)),
{
    c.is_alphanumeric()
}

/// Calls `char::is_alphabetic`; its result is named, not restated beyond
/// ASCII, where the alphabetic chars are exactly `[A-Za-z]`.
#[verifier::external_body]
pub fn char_is_alphabetic(c: char) -> (b: bool)
    ensures
        b == unicode_alphabetic(c),
        (c as u32) < 0x80 ==> (b <==> crate::text::is_alpha(c)),
{
    c.is_alphabetic()
}

/// Calls `char::to_lowercase` and collects the chars it yields; an ASCII
/// char maps to its ASCII lowercase alone.
#[verifier::external_body]
pub fn char_to_lowercase(c: char) -> (r: Vec<char>)
    ensures
        r@ == unicode_lowercase(c),
        (c as u32) < 0x80 ==> r@ == seq![crate::text::lower(c)],
{
    c.to_lowercase().collect()
}

// ---------------------------------------------------------------------------
// Title text for ids
// ---------------------------------------------------------------------------

pub open spec fn lit_link() -> Seq<char> {
    seq!['l', 'i', 'n', 'k', ':']
}

pub open spec fn lit_https() -> Seq<char> {
    seq!['h', 't', 't', 'p', 's', ':', '/', '/']
}

pub open spec fn lit_http() -> Seq<char> {
    seq!['h', 't', 't', 'p', ':', '/', '/']
}

pub open spec fn lit_icon() -> Seq<char> {
    seq!['i', 'c', 'o', 'n', ':']
}

pub open spec fn lit_alt() -> Seq<char> {
    seq!['a', 'l', 't']
}

/// Where the bracket search of a URL/link macro starts, if `r` opens one.
pub open spec fn url_search_from(r: Seq<char>) -> Option<int> {
    if starts_with(r, lit_link()) {
        Some(5)
    } else if starts_with(r, lit_https()) || starts_with(r, lit_http()) {
        Some(0)
    } else {
        None
    }
}

/// `alt=` value among the comma-separated `pieces[j..]`.
pub open spec fn alt_in(pieces: Seq<Seq<char>>, j: int) -> Option<Seq<char>>
    decreases pieces.len() - j,
{
    if j < 0 || j >= pieces.len() {
        None
    } else {
        let pt = trim(pieces[j]);
        match find(pt, seq!['=']) {
            Some(e) => if trim(pt.take(e)) == lit_alt() {
                Some(trim(pt.skip(e + 1)))
            } else {
                alt_in(pieces, j + 1)
            },
            None => alt_in(pieces, j + 1),
        }
    }
}

/// Title text with links replaced by their bracket text, bare URLs
/// dropped (up to the next space) and `icon:name[attrs]` replaced by its
/// alt text, from index `i` on.
pub open spec fn id_text_from(s: Seq<char>, i: int) -> Seq<char>
    decreases s.len() - i,
{
    if i < 0 || i >= s.len() {
        Seq::empty()
    } else {
        let r = s.skip(i);
        match url_search_from(r) {
            Some(sf) => {
                let linked = match find(r.skip(sf), seq!['[']) {
                    Some(bp) => find(r.skip(sf + bp), seq![']']) is Some,
                    None => false,
                };
                if linked {
                    let abs = sf + find(r.skip(sf), seq!['['])->0;
                    let cp = find(r.skip(abs), seq![']'])->0;
                    if abs + cp + 1 <= 0 || abs + cp + 1 > r.len() {
                        Seq::empty()
                    } else {
                        r.subrange(abs + 1, abs + cp) + id_text_from(s, i + abs + cp + 1)
                    }
                } else {
                    let ue = match find(r, seq![' ']) {
                        Some(k) => k,
                        None => r.len() as int,
                    };
                    if ue <= 0 || ue > r.len() {
                        Seq::empty()
                    } else {
                        id_text_from(s, i + ue)
                    }
                }
            },
            None => {
                let after = r.skip(5);
                let icon = starts_with(r, lit_icon()) && match find(after, seq!['[']) {
                    Some(bo) => find(after.skip(bo), seq![']']) is Some,
                    None => false,
                };
                if icon {
                    let bo = find(after, seq!['['])->0;
                    let bc = bo + find(after.skip(bo), seq![']'])->0;
                    let alt = match alt_in(split(after.subrange(bo + 1, bc), seq![',']), 0) {
                        Some(a) => a,
                        None => icon_alt_of(after.take(bo)),
                    };
                    if 5 + bc + 1 <= 0 || 5 + bc + 1 > r.len() {
                        Seq::empty()
                    } else {
                        alt + id_text_from(s, i + 5 + bc + 1)
                    }
                } else {
                    seq![s[i]] + id_text_from(s, i + 1)
                }
            },
        }
    }
}

/// `id_text_from(s, 0)`.
pub open spec fn id_text_of(s: Seq<char>) -> Seq<char> {
    id_text_from(s, 0)
}

/// `alt_in(split(s[a..b], ","), 0)` as bounds into `s`.
fn alt_attr_at(s: &[char], a: usize, b: usize) -> (r: Option<(usize, usize)>)
    requires
        a <= b <= s@.len(),
    ensures
        match r {
            Some((x, y)) => x <= y <= s@.len() && alt_in(
                split(s@.subrange(a as int, b as int), seq![',']),
                0,
            ) == Some(s@.subrange(x as int, y as int)),
            None => alt_in(split(s@.subrange(a as int, b as int), seq![',']), 0) is None,
        },
{
    let attrs = slice_vec(s, a, b);
    let comma = vec![','];
    assert(comma@ == seq![',']);
    let eq = vec!['='];
    assert(eq@ == seq!['=']);
    let alt = vec!['a', 'l', 't'];
    assert(alt@ == lit_alt());
    let ranges = split_ranges(attrs.as_slice(), comma.as_slice());
    let ghost pieces = split(attrs@, comma@);
    let mut j: usize = 0;
    while j < ranges.len()
        invariant
            attrs@ == s@.subrange(a as int, b as int),
            a <= b <= s@.len(),
            eq@ == seq!['='],
            alt@ == lit_alt(),
            pieces == split(attrs@, seq![',']),
            ranges@.len() == pieces.len(),
            forall|k: int|
                0 <= k < ranges@.len() ==> {
                    &&& (#[trigger] ranges@[k]).0 <= ranges@[k].1 <= attrs@.len()
                    &&& attrs@.subrange(ranges@[k].0 as int, ranges@[k].1 as int) == pieces[k]
                },
            j <= ranges@.len(),
            alt_in(pieces, 0) == alt_in(pieces, j as int),
        decreases ranges@.len() - j,
    {
        let (pa, pb) = ranges[j];
        let (ta, tb) = trim_range(attrs.as_slice(), pa, pb);
        let pt = slice_vec(attrs.as_slice(), ta, tb);
        if let Some(e) = find_at(pt.as_slice(), eq.as_slice()) {
            let (ka, kb) = trim_range(pt.as_slice(), 0, e);
            assert(pt@.subrange(0, e as int) =~= pt@.take(e as int));
            if crate::text::range_eq(pt.as_slice(), ka, kb, alt.as_slice()) {
                let n = pt.len();
                let (va, vb) = trim_range(pt.as_slice(), e + 1, n);
                assert(pt@.subrange(e + 1, n as int) =~= pt@.skip(e + 1));
                assert(pt@.subrange(va as int, vb as int) =~= s@.subrange(
                    a + ta + va,
                    a + ta + vb,
                ));
                return Some((a + ta + va, a + ta + vb));
            }
        }
        j += 1;
    }
    None
}

/// The alt text of an icon macro with name `s[na..nb]` and attributes
/// `s[a..b]`.
fn icon_alt_text(s: &[char], na: usize, nb: usize, a: usize, b: usize) -> (r: Vec<char>)
    requires
        na <= nb <= s@.len(),
        a <= b <= s@.len(),
    ensures
        r@ == (match alt_in(split(s@.subrange(a as int, b as int), seq![',']), 0) {
            Some(t) => t,
            None => icon_alt_of(s@.subrange(na as int, nb as int)),
        }),
{
    match alt_attr_at(s, a, b) {
        Some((x, y)) => slice_vec(s, x, y),
        None => {
            let name = slice_vec(s, na, nb);
            icon_alt_chars(name.as_slice())
        },
    }
}

/// Title text for id generation.
pub fn id_text_chars(s: &[char]) -> (r: Vec<char>)
    ensures
        r@ == id_text_of(s@),
{
    let n = s.len();
    let link = vec!['l', 'i', 'n', 'k', ':'];
    assert(link@ == lit_link());
    let https = vec!['h', 't', 't', 'p', 's', ':', '/', '/'];
    assert(https@ == lit_https());
    let http = vec!['h', 't', 't', 'p', ':', '/', '/'];
    assert(http@ == lit_http());
    let icon = vec!['i', 'c', 'o', 'n', ':'];
    assert(icon@ == lit_icon());
    let ob = vec!['['];
    assert(ob@ == seq!['[']);
    let cb = vec![']'];
    assert(cb@ == seq![']']);
    let sp = vec![' '];
    assert(sp@ == seq![' ']);
    let mut out: Vec<char> = Vec::new();
    let mut i: usize = 0;
    assert(out@ + id_text_from(s@, 0) =~= id_text_from(s@, 0));
    while i < n
        invariant
            n == s@.len(),
            i <= n,
            link@ == lit_link(),
            https@ == lit_https(),
            http@ == lit_http(),
            icon@ == lit_icon(),
            ob@ == seq!['['],
            cb@ == seq![']'],
            sp@ == seq![' '],
            id_text_of(s@) == out@ + id_text_from(s@, i as int),
        decreases n - i,
    {
        let r = slice_vec(s, i, n);
        let ghost rs = s@.skip(i as int);
        assert(r@ =~= rs);
        let sf: Option<usize> = if starts_with_at(r.as_slice(), link.as_slice()) {
            Some(5)
        } else if starts_with_at(r.as_slice(), https.as_slice()) || starts_with_at(
            r.as_slice(),
            http.as_slice(),
        ) {
            Some(0)
        } else {
            None
        };
        assert(sf matches Some(x) ==> url_search_from(rs) == Some(x as int));
        assert(sf is None ==> url_search_from(rs) is None);
        let rl = r.len();
        if let Some(sf) = sf {
            proof {
                crate::text::lemma_find_shift(rs, seq!['['], sf as int, sf as int);
            }
            let mut linked = false;
            let mut abs: usize = 0;
            let mut cp: usize = 0;
            if let Some(bp_abs) = find_from_at(r.as_slice(), ob.as_slice(), sf) {
                proof {
                    crate::text::lemma_find_shift(rs, seq![']'], bp_abs as int, bp_abs as int);
                }
                if let Some(c_abs) = find_from_at(r.as_slice(), cb.as_slice(), bp_abs) {
                    assert(r@.subrange(bp_abs as int, bp_abs + 1)[0] == '[');
                    assert(r@.subrange(c_abs as int, c_abs + 1)[0] == ']');
                    linked = true;
                    abs = bp_abs;
                    cp = c_abs - bp_abs;
                }
            }
            if linked {
                let text = slice_vec(r.as_slice(), abs + 1, abs + cp);
                let ghost before = out@;
                push_all(&mut out, text.as_slice());
                proof {
                    assert(id_text_from(s@, i as int) == rs.subrange(abs + 1, abs + cp)
                        + id_text_from(s@, i + abs + cp + 1));
                    assert(out@ + id_text_from(s@, i + abs + cp + 1) =~= before + id_text_from(
                        s@,
                        i as int,
                    ));
                }
                i = i + abs + cp + 1;
            } else {
                let ue = match find_at(r.as_slice(), sp.as_slice()) {
                    Some(k) => k,
                    None => rl,
                };
                proof {
                    lemma_find_from_bounds(rs, seq![' '], 0);
                    if ue == 0 {
                        assert(match_at_local(rs, ue as int));
                    }
                }
                assert(ue > 0);
                i = i + ue;
            }
        } else {
            let mut done = false;
            if starts_with_at(r.as_slice(), icon.as_slice()) {
                let after = slice_vec(r.as_slice(), 5, rl);
                assert(after@ =~= rs.skip(5));
                if let Some(bo) = find_at(after.as_slice(), ob.as_slice()) {
                    proof {
                        crate::text::lemma_find_shift(after@, seq![']'], bo as int, bo as int);
                    }
                    if let Some(bc) = find_from_at(after.as_slice(), cb.as_slice(), bo) {
                        assert(after@.subrange(bo as int, bo + 1)[0] == '[');
                        assert(after@.subrange(bc as int, bc + 1)[0] == ']');
                        let alt = icon_alt_text(after.as_slice(), 0, bo, bo + 1, bc);
                        assert(after@.subrange(0, bo as int) =~= after@.take(bo as int));
                        let ghost before = out@;
                        push_all(&mut out, alt.as_slice());
                        proof {
                            assert(id_text_from(s@, i as int) == alt@ + id_text_from(
                                s@,
                                i + 5 + bc + 1,
                            ));
                            assert(out@ + id_text_from(s@, i + 5 + bc + 1) =~= before
                                + id_text_from(s@, i as int));
                        }
                        i = i + 5 + bc + 1;
                        done = true;
                    }
                }
            }
            if !done {
                let ghost before = out@;
                out.push(s[i]);
                proof {
                    assert(id_text_from(s@, i as int) == seq![s@[i as int]] + id_text_from(
                        s@,
                        i + 1,
                    ));
                    assert(out@ + id_text_from(s@, i + 1) =~= before + id_text_from(s@, i as int));
                }
                i = i + 1;
            }
        }
    }
    assert(out@ + id_text_from(s@, n as int) =~= out@);
    out
}

/// Helper view of a single-space match at `k`.
pub open spec fn match_at_local(r: Seq<char>, k: int) -> bool {
    crate::text::match_at(r, seq![' '], k)
}

// ---------------------------------------------------------------------------
// Ids
// ---------------------------------------------------------------------------

pub open spec fn is_word_sep(c: char) -> bool {
    c == ' ' || c == '-' || c == '_' || c == '.'
}

/// Id body from `t[i..]`: alphanumerics lowercased; a run of separators
/// (space, `-`, `_`, `.`) becomes one `sep`; everything else is dropped.
pub open spec fn id_fold(t: Seq<char>, i: int, prev: bool, sep: char) -> Seq<char>
    decreases t.len() - i,
{
    if i < 0 || i >= t.len() {
        Seq::empty()
    } else if alnum_char(t[i]) {
        lowercase_chars(t[i]) + id_fold(t, i + 1, false, sep)
    } else if is_word_sep(t[i]) && !prev {
        seq![sep] + id_fold(t, i + 1, true, sep)
    } else {
        id_fold(t, i + 1, prev, sep)
    }
}

proof fn lemma_id_fold_shift(x: Seq<char>, t: Seq<char>, i: int, prev: bool, sep: char)
    requires
        0 <= i <= t.len(),
    ensures
        id_fold(x + t, x.len() + i, prev, sep) == id_fold(t, i, prev, sep),
    decreases t.len() - i,
{
    if i < t.len() {
        assert((x + t)[x.len() + i] == t[i]);
        lemma_id_fold_shift(x, t, i + 1, false, sep);
        lemma_id_fold_shift(x, t, i + 1, true, sep);
    }
}

/// Space, `-`, `_` and `.` separate words in a title: each one that does
/// not follow another of them puts exactly one separator character into the
/// id body, and one that follows another puts nothing, so a run of them
/// gives one separator; an ASCII letter or digit gives its lowercase and
/// ends the run.
pub proof fn law_id_word_separators(c: char, t: Seq<char>, sep: char)
    ensures
        (c == ' ' || c == '-' || c == '_' || c == '.') ==> id_fold(seq![c] + t, 0, false, sep)
            == seq![sep] + id_fold(t, 0, true, sep),
        (c == ' ' || c == '-' || c == '_' || c == '.') ==> id_fold(seq![c] + t, 0, true, sep)
            == id_fold(t, 0, true, sep),
        ('a' <= c <= 'z' || '0' <= c <= '9') ==> id_fold(seq![c] + t, 0, true, sep) == seq![c]
            + id_fold(t, 0, false, sep),
        'A' <= c <= 'Z' ==> id_fold(seq![c] + t, 0, false, sep) == seq![((c as u32) + 32) as char]
            + id_fold(t, 0, false, sep),
{
    lemma_id_fold_shift(seq![c], t, 0, false, sep);
    lemma_id_fold_shift(seq![c], t, 0, true, sep);
    assert((seq![c] + t)[0] == c);
}

/// Generated id: `prefix`, then the id body of the title text, without a
/// trailing separator (one that is part of the prefix stays).
pub open spec fn id_of(title: Seq<char>, prefix: Seq<char>, separator: Seq<char>) -> Seq<char> {
    let sep = if separator.len() > 0 { separator[0] } else { '_' };
    let full = prefix + id_fold(id_text_of(title), 0, false, sep);
    if full.len() > prefix.len() && full.last() == sep {
        full.drop_last()
    } else {
        full
    }
}

pub fn generate_id(title: &str, prefix: &str, separator: &str) -> (r: String)
    ensures
        r@ == id_of(title@, prefix@, separator@),
{
    let tv = chars_of(title);
    let t = id_text_chars(tv.as_slice());
    let sv = chars_of(separator);
    let sep = if sv.len() > 0 {
        sv[0]
    } else {
        '_'
    };
    let pv = chars_of(prefix);
    let mut id: Vec<char> = Vec::new();
    push_all(&mut id, pv.as_slice());
    assert(id@ =~= pv@);
    let ghost pl = pv@.len();
    let mut prev = false;
    let mut i: usize = 0;
    let n = t.len();
    assert(id@ + id_fold(t@, 0, false, sep) =~= pv@ + id_fold(t@, 0, false, sep));
    while i < n
        invariant
            n == t@.len(),
            i <= n,
            id@.len() >= pl,
            id@.take(pl as int) == pv@,
            pv@ + id_fold(t@, 0, false, sep) == id@ + id_fold(t@, i as int, prev, sep),
        decreases n - i,
    {
        let c = t[i];
        let ghost before = id@;
        if char_is_alphanumeric(c) {
            let low = char_to_lowercase(c);
            push_all(&mut id, low.as_slice());
            prev = false;
        } else if (c == ' ' || c == '-' || c == '_' || c == '.') && !prev {
            id.push(sep);
            prev = true;
        }
        assert(id@.take(pl as int) =~= before.take(pl as int));
        i += 1;
    }
    proof {
        assert(id@ + id_fold(t@, n as int, prev, sep) =~= id@);
    }
    let len = id.len();
    if len > pv.len() && id[len - 1] == sep {
        id.pop();
    }
    string_of(id.as_slice())
}

/// A generated id always starts with the prefix, and never ends with a
/// separator that the title text added.
pub proof fn law_id_keeps_prefix(title: Seq<char>, prefix: Seq<char>, separator: Seq<char>)
    ensures
        id_of(title, prefix, separator).len() >= prefix.len(),
        id_of(title, prefix, separator).take(prefix.len() as int) == prefix,
{
    let sep = if separator.len() > 0 {
        separator[0]
    } else {
        '_'
    };
    let full = prefix + id_fold(id_text_of(title), 0, false, sep);
    assert(full.take(prefix.len() as int) =~= prefix);
    if full.len() > prefix.len() && full.last() == sep {
        assert(full.drop_last().take(prefix.len() as int) =~= prefix);
    }
}

/// Strip URLs and `icon:` macros from title text for id generation.
fn strip_urls_for_id(title: &str) -> (r: String)
    ensures
        r@ == id_text_of(title@),
{
    let v = chars_of(title);
    let t = id_text_chars(v.as_slice());
    string_of(t.as_slice())
}

} // verus!
