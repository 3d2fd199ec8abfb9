//! Inline passes over the working buffer that seal constructs in tokens:
//! attribute reference extraction, constrained and unconstrained quotes, the
//! character-reference survival pass and the hard line break pass.
//!
//! It also holds the extent of a bare URL autolink.
//!
//! Each pass copies existing sentinels whole, so it never reads inside a
//! construct an earlier pass has sealed.

use vstd::prelude::*;
use vstd::string::StringSliceAdditionalSpecFns;
use vstd::utf8::{
    decode_utf8, encode_utf8, encode_utf8_valid_utf8, is_char_boundary,
    is_char_boundary_start_end_of_seq, valid_utf8,
};
use crate::escape::{push_token, sentinel_text};
use crate::subst::{
    find_valid_close_constrained, is_word, is_word_byte, lemma_valid_close_bounds,
    sentinel_index_before, sentinel_index_before_of, valid_close_from, BACKTICK, HASH, UNDERSCORE,
    attr_close_from, find_attr_close, find_closing_unconstrained, lemma_unconstrained_close_bounds,
    parse_attrs, parse_attrs_of, unconstrained_close_from,
    bytes_at, path_end, set_extract_of, set_prefix_bytes, trailing_end, try_attr,
    valid_attr_name_spec, Extracted, LBRACK, RBRACE, RBRACK,
    char_ref_len, char_ref_len_of, cut, lemma_after_ascii_boundary, lemma_ascii_boundary,
    lemma_next_byte, lemma_sentinel_end, next_byte, sentinel_end, sentinel_end_of, AMP, LF,
    SPACE, TAG_LEAD, TAG_TAIL,
};
use crate::text::{chars_of, push_all, string_of};
use crate::escape::LBRACE;
use crate::tokens::{
    lemma_table_prefix_push, lemma_table_prefix_refl, lemma_table_prefix_trans, table_prefix,
    desentinel_of, desentinelize, lone_sentinels_ok, tokens_view, SpanKind, TagToken, TokenView,
};

verus! {

pub const PLUS: u8 = 0x2B;

/// First index at or after `j` holding `x` or `y`; the length when none.
pub open spec fn next_either(b: Seq<u8>, x: u8, y: u8, j: int) -> int
    decreases b.len() - j,
{
    if j < 0 || j >= b.len() {
        b.len() as int
    } else if b[j] == x || b[j] == y {
        j
    } else {
        next_either(b, x, y, j + 1)
    }
}

pub proof fn lemma_next_either(b: Seq<u8>, x: u8, y: u8, j: int)
    requires
        0 <= j <= b.len(),
    ensures
        j <= next_either(b, x, y, j) <= b.len(),
        next_either(b, x, y, j) < b.len() ==> (b[next_either(b, x, y, j)] == x
            || b[next_either(b, x, y, j)] == y),
        forall|t: int| j <= t < next_either(b, x, y, j) ==> b[t] != x && b[t] != y,
    decreases b.len() - j,
{
    if j < b.len() && b[j] != x && b[j] != y {
        lemma_next_either(b, x, y, j + 1);
    }
}

fn scan_to(bytes: &[u8], i: usize, x: u8, y: u8) -> (r: usize)
    requires
        i <= bytes@.len(),
    ensures
        r == next_either(bytes@, x, y, i as int),
{
    let n = bytes.len();
    let mut j = i;
    while j < n && bytes[j] != x && bytes[j] != y
        invariant
            i <= j <= n == bytes@.len(),
            next_either(bytes@, x, y, i as int) == next_either(bytes@, x, y, j as int),
        decreases n - j,
    {
        j += 1;
    }
    j
}

/// In valid UTF-8, a sentinel ends on a character boundary.
pub proof fn lemma_sentinel_end_boundary(b: Seq<u8>, i: int)
    requires
        valid_utf8(b),
        0 <= i < b.len(),
    ensures
        i < sentinel_end_of(b, i) <= b.len(),
        is_char_boundary(b, sentinel_end_of(b, i)),
{
    lemma_sentinel_end(b, i);
    lemma_next_byte(b, TAG_TAIL, i + 1);
    match next_byte(b, TAG_TAIL, i + 1) {
        Some(k) => lemma_after_ascii_boundary(b, k),
        None => lemma_ascii_boundary(b, b.len() as int),
    }
}

/// In valid UTF-8, a run up to the next of two ASCII bytes ends on a
/// character boundary.
proof fn lemma_run_boundary(b: Seq<u8>, x: u8, y: u8, i: int)
    requires
        valid_utf8(b),
        0 <= i <= b.len(),
        x < 0x80,
        y < 0x80,
    ensures
        i <= next_either(b, x, y, i) <= b.len(),
        is_char_boundary(b, next_either(b, x, y, i)),
{
    lemma_next_either(b, x, y, i);
    lemma_ascii_boundary(b, next_either(b, x, y, i));
}

/// Append `src[a..e]`, both character boundaries.
fn copy_range(src: &str, a: usize, e: usize, out: &mut Vec<char>)
    requires
        a <= e <= src.spec_bytes().len(),
        is_char_boundary(src.spec_bytes(), a as int),
        is_char_boundary(src.spec_bytes(), e as int),
    ensures
        final(out)@ == old(out)@ + decode_utf8(src.spec_bytes().subrange(a as int, e as int)),
{
    let p = cut(src, a, e);
    let c = chars_of(p);
    push_all(out, c.as_slice());
}

// ---------------------------------------------------------------------------
// Attribute references
// ---------------------------------------------------------------------------

/// What the `{` at `i` extracts: a `{set:...}` assignment, or a reference
/// with a valid name and the raw text of its trailing `[...]`; with the
/// index just past it.
pub open spec fn attr_token_raw(b: Seq<u8>, i: int) -> Option<(TokenView, int)> {
    if !is_char_boundary(b, i + 1) {
        None
    } else {
        match next_byte(b, RBRACE, i + 1) {
            None => None,
            Some(c) => if bytes_at(b.subrange(i + 1, c), set_prefix_bytes(), 0) {
                match set_extract_of(b.subrange(i + 5, c)) {
                    Some((nm, v)) => Some((TokenView::AttrSet { name: nm, value: v }, c + 1)),
                    None => None,
                }
            } else if !valid_attr_name_spec(b.subrange(i + 1, c)) {
                None
            } else {
                let name = decode_utf8(b.subrange(i + 1, c));
                match trailing_end(b, c) {
                    Some(te) => Some(
                        (
                            TokenView::AttrRef {
                                name,
                                trailing_brackets: Some(decode_utf8(b.subrange(c + 1, te))),
                            },
                            te,
                        ),
                    ),
                    None => Some((TokenView::AttrRef { name, trailing_brackets: None }, c + 1)),
                }
            },
        }
    }
}

/// The token the `{` at `i` becomes: the raw extraction, with the sentinels
/// in a reference's trailing text replaced by the source text of their
/// tokens.
pub open spec fn attr_token_at(b: Seq<u8>, i: int, tv: Seq<TokenView>) -> Option<(TokenView, int)> {
    match attr_token_raw(b, i) {
        Some((TokenView::AttrRef { name, trailing_brackets: Some(x) }, e)) => Some(
            (TokenView::AttrRef { name, trailing_brackets: Some(desentinel_of(x, tv)) }, e),
        ),
        other => other,
    }
}

/// Every reference's trailing text holds only well-formed sentinels.
pub open spec fn trailings_ok(b: Seq<u8>) -> bool {
    forall|i: int|
        0 <= i < b.len() && #[trigger] b[i] == LBRACE ==> (attr_token_raw(b, i) matches Some(
            (TokenView::AttrRef { name, trailing_brackets: Some(x) }, e),
        ) ==> lone_sentinels_ok(x))
}

pub proof fn lemma_path_end(b: Seq<u8>, j: int)
    requires
        0 <= j,
    ensures
        j <= path_end(b, j),
        path_end(b, j) <= b.len() || path_end(b, j) == j,
    decreases b.len() - j,
{
    if 0 <= j < b.len() && b[j] != LBRACK && b[j] != RBRACK && !crate::subst::is_ascii_ws_byte(
        b[j],
    ) {
        lemma_path_end(b, j + 1);
    }
}

/// The extraction at a `{` ends past a `}` or `]`, inside the buffer.
pub proof fn lemma_attr_token_end(b: Seq<u8>, i: int)
    requires
        0 <= i < b.len(),
    ensures
        attr_token_raw(b, i) matches Some((t, e)) ==> i + 1 < e <= b.len() && b[e - 1] < 0x80,
{
    lemma_next_byte(b, RBRACE, i + 1);
    if let Some(c) = next_byte(b, RBRACE, i + 1) {
        lemma_path_end(b, c + 1);
        let q = path_end(b, c + 1);
        if 0 <= q {
            lemma_next_byte(b, RBRACK, q);
        }
    }
}

/// The attribute pass over `b[i..]`: each `{` that opens a reference or an
/// assignment becomes its token, everything else is copied.
pub open spec fn attrs_from(b: Seq<u8>, i: int, tv: Seq<TokenView>, out: Seq<char>) -> (
    Seq<char>,
    Seq<TokenView>,
)
    decreases b.len() - i,
{
    if i < 0 || i >= b.len() {
        (out, tv)
    } else if b[i] == LBRACE {
        proof {
            lemma_attr_token_end(b, i);
        }
        match attr_token_at(b, i, tv) {
            Some((t, e)) => attrs_from(b, e, tv.push(t), out + sentinel_text(tv.len() as int)),
            None => attrs_from(b, i + 1, tv, out.push('{')),
        }
    } else {
        proof {
            lemma_next_either(b, LBRACE, LBRACE, i);
        }
        let j = next_either(b, LBRACE, LBRACE, i);
        attrs_from(b, j, tv, out + decode_utf8(b.subrange(i, j)))
    }
}

pub open spec fn attrs_extracted_of(s: Seq<char>, tv: Seq<TokenView>) -> (Seq<char>, Seq<TokenView>) {
    attrs_from(encode_utf8(s), 0, tv, Seq::empty())
}

/// The attribute pass: every attribute reference `{name}` (with the
/// brackets that follow it) and every `{set:...}` assignment is sealed in a
/// token, unresolved; a reference's trailing text carries the source text of
/// the sentinels inside it.
pub fn extract_attributes(buf: &str, tags: &mut Vec<TagToken>) -> (r: String)
    requires
        trailings_ok(buf.spec_bytes()),
    ensures
        (r@, tokens_view(final(tags)@)) == attrs_extracted_of(buf@, tokens_view(old(tags)@)),
{
    let bytes = buf.as_bytes();
    let n = bytes.len();
    let ghost b = bytes@;
    let ghost goal = attrs_extracted_of(buf@, tokens_view(old(tags)@));
    let mut out: Vec<char> = Vec::new();
    let mut i: usize = 0;
    proof {
        encode_utf8_valid_utf8(buf@);
        is_char_boundary_start_end_of_seq(b);
        assert(out@ =~= Seq::<char>::empty());
    }
    while i < n
        invariant
            b == bytes@,
            b == buf.spec_bytes(),
            n == b.len(),
            i <= n,
            valid_utf8(b),
            trailings_ok(b),
            is_char_boundary(b, i as int),
            attrs_from(b, i as int, tokens_view(tags@), out@) == goal,
        decreases n - i,
    {
        if bytes[i] == LBRACE {
            proof {
                lemma_attr_token_end(b, i as int);
            }
            let ghost tv = tokens_view(tags@);
            match try_attr(buf, i) {
                Some((Extracted::Ref { name, trailing }, end)) => {
                    let tr = match trailing {
                        Some(t) => Some(desentinelize(tags.as_slice(), t.as_str())),
                        None => None,
                    };
                    let s = push_token(tags, TagToken::AttrRef { name, trailing_brackets: tr });
                    push_all(&mut out, s.as_slice());
                    proof {
                        lemma_after_ascii_boundary(b, end - 1);
                    }
                    i = end;
                },
                Some((Extracted::Assign { name, value }, end)) => {
                    let s = push_token(tags, TagToken::AttrSet { name, value });
                    push_all(&mut out, s.as_slice());
                    proof {
                        lemma_after_ascii_boundary(b, end - 1);
                    }
                    i = end;
                },
                None => {
                    out.push('{');
                    proof {
                        lemma_after_ascii_boundary(b, i as int);
                    }
                    i = i + 1;
                },
            }
        } else {
            let j = scan_to(bytes, i, LBRACE, LBRACE);
            proof {
                lemma_run_boundary(b, LBRACE, LBRACE, i as int);
                lemma_next_either(b, LBRACE, LBRACE, i as int);
            }
            copy_range(buf, i, j, &mut out);
            i = j;
        }
    }
    string_of(out.as_slice())
}

// ---------------------------------------------------------------------------
// Unconstrained quotes
// ---------------------------------------------------------------------------

/// First index at or after `j` holding `x`, `y` or `z`; the length when none.
pub open spec fn next_of3(b: Seq<u8>, x: u8, y: u8, z: u8, j: int) -> int
    decreases b.len() - j,
{
    if j < 0 || j >= b.len() {
        b.len() as int
    } else if b[j] == x || b[j] == y || b[j] == z {
        j
    } else {
        next_of3(b, x, y, z, j + 1)
    }
}

pub proof fn lemma_next_of3(b: Seq<u8>, x: u8, y: u8, z: u8, j: int)
    requires
        0 <= j <= b.len(),
    ensures
        j <= next_of3(b, x, y, z, j) <= b.len(),
        next_of3(b, x, y, z, j) < b.len() ==> (b[next_of3(b, x, y, z, j)] == x || b[next_of3(
            b,
            x,
            y,
            z,
            j,
        )] == y || b[next_of3(b, x, y, z, j)] == z),
        forall|t: int| j <= t < next_of3(b, x, y, z, j) ==> b[t] != x && b[t] != y && b[t] != z,
    decreases b.len() - j,
{
    if j < b.len() && b[j] != x && b[j] != y && b[j] != z {
        lemma_next_of3(b, x, y, z, j + 1);
    }
}

fn scan_to3(bytes: &[u8], i: usize, x: u8, y: u8, z: u8) -> (r: usize)
    requires
        i <= bytes@.len(),
    ensures
        r == next_of3(bytes@, x, y, z, i as int),
{
    let n = bytes.len();
    let mut j = i;
    while j < n && bytes[j] != x && bytes[j] != y && bytes[j] != z
        invariant
            i <= j <= n == bytes@.len(),
            next_of3(bytes@, x, y, z, i as int) == next_of3(bytes@, x, y, z, j as int),
        decreases n - j,
    {
        j += 1;
    }
    j
}

pub proof fn lemma_attr_close(b: Seq<u8>, j: int)
    requires
        0 <= j,
    ensures
        attr_close_from(b, j) matches Some(r) ==> j <= r < b.len() && b[r] == RBRACK,
    decreases b.len() - j,
{
    if j < b.len() && b[j] != RBRACK && b[j] != LF {
        lemma_attr_close(b, j + 1);
    }
}

/// Every attribute list `[...]` holds only well-formed sentinels.
pub open spec fn attrlists_ok(b: Seq<u8>) -> bool {
    forall|i: int|
        0 <= i < b.len() && #[trigger] b[i] == LBRACK ==> (attr_close_from(b, i + 1) matches Some(
            rb,
        ) ==> lone_sentinels_ok(decode_utf8(b.subrange(i + 1, rb))))
}

/// `[attrlist]` at `lbrack` directly followed by `marker marker`, non-empty
/// content and a closing `marker marker`: the id and roles the list gives
/// (its sentinels read back as source text), where the content starts and
/// where the closing pair is.
pub open spec fn attrlist_unconstrained_of(
    b: Seq<u8>,
    lbrack: int,
    marker: u8,
    tv: Seq<TokenView>,
) -> Option<(Option<Seq<char>>, Seq<Seq<char>>, int, int)> {
    match attr_close_from(b, lbrack + 1) {
        None => None,
        Some(rb) => match parse_attrs_of(
            desentinel_of(decode_utf8(b.subrange(lbrack + 1, rb)), tv),
        ) {
            None => None,
            Some((id, roles)) => {
                let mp = rb + 1;
                if !(mp + 1 < b.len() && b[mp] == marker && b[mp + 1] == marker) {
                    None
                } else if mp + 2 >= b.len() {
                    None
                } else {
                    match unconstrained_close_from(b, marker, mp + 2) {
                        Some(cp) => if cp == mp + 2 {
                            None
                        } else {
                            Some((id, roles, mp + 2, cp))
                        },
                        None => None,
                    }
                }
            },
        },
    }
}

/// A bare `marker marker ... marker marker` opening at `i`: where the
/// closing pair is, with content between.
pub open spec fn bare_unconstrained_of(b: Seq<u8>, i: int, marker: u8) -> Option<int> {
    if b[i] == marker && i + 2 < b.len() && b[i + 1] == marker {
        match unconstrained_close_from(b, marker, i + 2) {
            Some(cp) => if cp > i + 2 {
                Some(cp)
            } else {
                None
            },
            None => None,
        }
    } else {
        None
    }
}

pub proof fn lemma_unconstrained_spans(b: Seq<u8>, i: int, marker: u8, tv: Seq<TokenView>)
    requires
        0 <= i < b.len(),
    ensures
        attrlist_unconstrained_of(b, i, marker, tv) matches Some((id, roles, cs, cp)) ==> i + 3
            <= cs < cp && cp + 2 <= b.len() && b[cs - 1] == marker && b[cp] == marker && b[cp + 1]
            == marker,
        bare_unconstrained_of(b, i, marker) matches Some(cp) ==> i + 2 < cp && cp + 2 <= b.len()
            && b[i + 1] == marker && b[cp] == marker && b[cp + 1] == marker,
{
    lemma_attr_close(b, i + 1);
    if let Some(rb) = attr_close_from(b, i + 1) {
        lemma_unconstrained_close_bounds(b, marker, rb + 3);
    }
    lemma_unconstrained_close_bounds(b, marker, i + 2);
}

/// The unconstrained quote pass for `marker` over `b[i..]`: sentinels are
/// copied whole; `[attrlist]MM...MM` becomes an `attr` span with the list's
/// id and roles, a bare `MM...MM` a `bare` span, their content left in the
/// buffer between the open and close sentinels; everything else is copied.
pub open spec fn unconstrained_from(
    b: Seq<u8>,
    i: int,
    tv: Seq<TokenView>,
    marker: u8,
    bare: SpanKind,
    attr: SpanKind,
    out: Seq<char>,
) -> (Seq<char>, Seq<TokenView>)
    decreases b.len() - i,
{
    if i < 0 || i >= b.len() {
        (out, tv)
    } else if b[i] == TAG_LEAD {
        proof {
            lemma_sentinel_end(b, i);
        }
        let e = sentinel_end_of(b, i);
        unconstrained_from(b, e, tv, marker, bare, attr, out + decode_utf8(b.subrange(i, e)))
    } else {
        proof {
            lemma_unconstrained_spans(b, i, marker, tv);
        }
        let k = tv.len() as int;
        let al = if b[i] == LBRACK {
            attrlist_unconstrained_of(b, i, marker, tv)
        } else {
            None
        };
        match al {
            Some((id, roles, cs, cp)) => unconstrained_from(
                b,
                cp + 2,
                tv.push(TokenView::Open { kind: attr, id, roles }).push(TokenView::Close(attr)),
                marker,
                bare,
                attr,
                out + sentinel_text(k) + decode_utf8(b.subrange(cs, cp)) + sentinel_text(k + 1),
            ),
            None => match bare_unconstrained_of(b, i, marker) {
                Some(cp) => unconstrained_from(
                    b,
                    cp + 2,
                    tv.push(TokenView::Open { kind: bare, id: None, roles: Seq::empty() }).push(
                        TokenView::Close(bare),
                    ),
                    marker,
                    bare,
                    attr,
                    out + sentinel_text(k) + decode_utf8(b.subrange(i + 2, cp)) + sentinel_text(
                        k + 1,
                    ),
                ),
                None => if b[i] == LBRACK || b[i] == marker {
                    unconstrained_from(b, i + 1, tv, marker, bare, attr, out.push(b[i] as char))
                } else {
                    proof {
                        lemma_next_of3(b, TAG_LEAD, LBRACK, marker, i);
                    }
                    let j = next_of3(b, TAG_LEAD, LBRACK, marker, i);
                    unconstrained_from(
                        b,
                        j,
                        tv,
                        marker,
                        bare,
                        attr,
                        out + decode_utf8(b.subrange(i, j)),
                    )
                },
            },
        }
    }
}

pub open spec fn unconstrained_of(
    s: Seq<char>,
    tv: Seq<TokenView>,
    marker: u8,
    bare: SpanKind,
    attr: SpanKind,
) -> (Seq<char>, Seq<TokenView>) {
    unconstrained_from(encode_utf8(s), 0, tv, marker, bare, attr, Seq::empty())
}

/// `[attrlist]MM...MM` at `lbrack`: the list's id and roles, where the
/// content starts and where the closing pair is.
pub fn attrlist_unconstrained(
    tags: &[TagToken],
    src: &str,
    bytes: &[u8],
    lbrack: usize,
    marker: u8,
) -> (r: Option<(Option<String>, Vec<String>, usize, usize)>)
    requires
        bytes@ == src.spec_bytes(),
        lbrack < bytes@.len(),
        bytes@[lbrack as int] == LBRACK,
        attrlists_ok(bytes@),
    ensures
        match attrlist_unconstrained_of(bytes@, lbrack as int, marker, tokens_view(tags@)) {
            Some((id, roles, cs, cp)) => r matches Some((rid, rroles, rcs, rcp))
                && crate::subst::opt_string_view(rid) == id && crate::subst::strings_view(rroles@)
                == roles && rcs == cs && rcp == cp,
            None => r is None,
        },
{
    let ghost b = bytes@;
    let n = bytes.len();
    let rb = match find_attr_close(bytes, lbrack) {
        Some(rb) => rb,
        None => {
            return None;
        },
    };
    proof {
        lemma_attr_close(b, lbrack + 1);
        encode_utf8_valid_utf8(src@);
        lemma_after_ascii_boundary(b, lbrack as int);
        lemma_ascii_boundary(b, rb as int);
    }
    let list = cut(src, lbrack + 1, rb);
    let d = desentinelize(tags, list);
    let (id, roles) = match parse_attrs(d.as_str()) {
        Some(p) => p,
        None => {
            return None;
        },
    };
    let mp = rb + 1;
    if !(n - mp > 1 && bytes[mp] == marker && bytes[mp + 1] == marker) {
        return None;
    }
    let cs = mp + 2;
    if cs >= n {
        return None;
    }
    let cp = match find_closing_unconstrained(bytes, marker, cs) {
        Some(cp) => cp,
        None => {
            return None;
        },
    };
    if cp == cs {
        return None;
    }
    Some((id, roles, cs, cp))
}

/// Append an open and a close token and the text between their sentinels.
fn push_span(
    tags: &mut Vec<TagToken>,
    out: &mut Vec<char>,
    kind: SpanKind,
    id: Option<String>,
    roles: Vec<String>,
    content: &str,
)
    ensures
        tokens_view(final(tags)@) == tokens_view(old(tags)@).push(
            TokenView::Open {
                kind,
                id: crate::subst::opt_string_view(id),
                roles: crate::subst::strings_view(roles@),
            },
        ).push(TokenView::Close(kind)),
        final(out)@ == old(out)@ + sentinel_text(old(tags)@.len() as int) + content@
            + sentinel_text(old(tags)@.len() + 1int),
{
    let ghost o = out@;
    let ghost k = tags@.len() as int;
    let s1 = push_token(tags, TagToken::Open { kind, id, roles });
    push_all(out, s1.as_slice());
    let c = chars_of(content);
    push_all(out, c.as_slice());
    let s2 = push_token(tags, TagToken::Close(kind));
    push_all(out, s2.as_slice());
    assert(out@ =~= o + sentinel_text(k) + content@ + sentinel_text(k + 1));
}

/// The unconstrained quote pass for `marker` (`**`, `__`, doubled
/// backticks, `##`): each `MM...MM` with content becomes a span of
/// `bare_kind`, or of `attr_kind` with the id and roles of an attribute list
/// right before it; no word boundary is needed, and sentinels are never
/// entered.
pub fn pass_unconstrained(
    buf: &str,
    tags: &mut Vec<TagToken>,
    marker: u8,
    bare_kind: SpanKind,
    attr_kind: SpanKind,
) -> (r: String)
    requires
        marker < 0x80,
        attrlists_ok(buf.spec_bytes()),
    ensures
        (r@, tokens_view(final(tags)@)) == unconstrained_of(
            buf@,
            tokens_view(old(tags)@),
            marker,
            bare_kind,
            attr_kind,
        ),
{
    let bytes = buf.as_bytes();
    let n = bytes.len();
    let ghost b = bytes@;
    let ghost goal = unconstrained_of(buf@, tokens_view(old(tags)@), marker, bare_kind, attr_kind);
    let mut out: Vec<char> = Vec::new();
    let mut i: usize = 0;
    proof {
        encode_utf8_valid_utf8(buf@);
        is_char_boundary_start_end_of_seq(b);
        assert(out@ =~= Seq::<char>::empty());
    }
    while i < n
        invariant
            b == bytes@,
            b == buf.spec_bytes(),
            n == b.len(),
            i <= n,
            marker < 0x80,
            valid_utf8(b),
            attrlists_ok(b),
            is_char_boundary(b, i as int),
            unconstrained_from(b, i as int, tokens_view(tags@), marker, bare_kind, attr_kind, out@)
                == goal,
        decreases n - i,
    {
        if bytes[i] == TAG_LEAD {
            let e = sentinel_end(bytes, i);
            proof {
                lemma_sentinel_end_boundary(b, i as int);
            }
            copy_range(buf, i, e, &mut out);
            i = e;
            continue;
        }
        proof {
            lemma_unconstrained_spans(b, i as int, marker, tokens_view(tags@));
        }
        if bytes[i] == LBRACK {
            match attrlist_unconstrained(tags.as_slice(), buf, bytes, i, marker) {
                Some((id, roles, cs, cp)) => {
                    proof {
                        lemma_after_ascii_boundary(b, cs - 1);
                        lemma_ascii_boundary(b, cp as int);
                        lemma_after_ascii_boundary(b, cp + 1);
                    }
                    let content = cut(buf, cs, cp);
                    push_span(tags, &mut out, attr_kind, id, roles, content);
                    i = cp + 2;
                    continue;
                },
                None => {},
            }
        }
        if bytes[i] == marker && n - i > 2 && bytes[i + 1] == marker {
            match find_closing_unconstrained(bytes, marker, i + 2) {
                Some(cp) => {
                    if cp > i + 2 {
                        proof {
                            lemma_after_ascii_boundary(b, i + 1);
                            lemma_ascii_boundary(b, cp as int);
                            lemma_after_ascii_boundary(b, cp + 1);
                        }
                        let content = cut(buf, i + 2, cp);
                        let no_roles: Vec<String> = Vec::new();
                        proof {
                            assert(crate::subst::strings_view(no_roles@) =~= Seq::<
                                Seq<char>,
                            >::empty());
                        }
                        push_span(tags, &mut out, bare_kind, None, no_roles, content);
                        i = cp + 2;
                        continue;
                    }
                },
                None => {},
            }
        }
        if bytes[i] == LBRACK || bytes[i] == marker {
            out.push(bytes[i] as char);
            proof {
                lemma_after_ascii_boundary(b, i as int);
            }
            i = i + 1;
        } else {
            let j = scan_to3(bytes, i, TAG_LEAD, LBRACK, marker);
            proof {
                lemma_next_of3(b, TAG_LEAD, LBRACK, marker, i as int);
                lemma_ascii_boundary(b, j as int);
            }
            copy_range(buf, i, j, &mut out);
            i = j;
        }
    }
    string_of(out.as_slice())
}

// ---------------------------------------------------------------------------
// Constrained quotes
// ---------------------------------------------------------------------------

pub const BACKSLASH_BYTE: u8 = 0x5C;

/// First index at or after `j` holding one of four bytes; the length when
/// none.
pub open spec fn next_of4(b: Seq<u8>, w: u8, x: u8, y: u8, z: u8, j: int) -> int
    decreases b.len() - j,
{
    if j < 0 || j >= b.len() {
        b.len() as int
    } else if b[j] == w || b[j] == x || b[j] == y || b[j] == z {
        j
    } else {
        next_of4(b, w, x, y, z, j + 1)
    }
}

pub proof fn lemma_next_of4(b: Seq<u8>, w: u8, x: u8, y: u8, z: u8, j: int)
    requires
        0 <= j <= b.len(),
    ensures
        j <= next_of4(b, w, x, y, z, j) <= b.len(),
        next_of4(b, w, x, y, z, j) < b.len() ==> ({
            let c = b[next_of4(b, w, x, y, z, j)];
            c == w || c == x || c == y || c == z
        }),
    decreases b.len() - j,
{
    if j < b.len() && b[j] != w && b[j] != x && b[j] != y && b[j] != z {
        lemma_next_of4(b, w, x, y, z, j + 1);
    }
}

fn scan_to4(bytes: &[u8], i: usize, w: u8, x: u8, y: u8, z: u8) -> (r: usize)
    requires
        i <= bytes@.len(),
    ensures
        r == next_of4(bytes@, w, x, y, z, i as int),
{
    let n = bytes.len();
    let mut j = i;
    while j < n && bytes[j] != w && bytes[j] != x && bytes[j] != y && bytes[j] != z
        invariant
            i <= j <= n == bytes@.len(),
            next_of4(bytes@, w, x, y, z, i as int) == next_of4(bytes@, w, x, y, z, j as int),
        decreases n - j,
    {
        j += 1;
    }
    j
}

/// A constrained span may open at `i`: at the start, or after a byte that is
/// not a word byte.
pub open spec fn open_boundary_at(b: Seq<u8>, i: int) -> bool {
    i == 0 || !is_word_byte(b[i - 1])
}

/// A monospace, emphasis or mark marker at `i` right after the sentinel of
/// an opening smart quote (which must not be followed by an opening span).
pub open spec fn smart_quote_edge_of(b: Seq<u8>, marker: u8, i: int, tv: Seq<TokenView>) -> bool {
    &&& (marker == BACKTICK || marker == UNDERSCORE || marker == HASH)
    &&& match sentinel_index_before_of(b, i) {
        Some(idx) => crate::tokens::token_at(tv, idx) matches Some(
            TokenView::SmartQuote { text, opening },
        ) && opening,
        None => false,
    }
}

/// The closing marker of a constrained span that opens at the `marker` at
/// `i`: an open boundary, no doubled marker, no smart quote right before, a
/// non-space first content byte, and a valid close.
pub open spec fn constrained_open_close_of(b: Seq<u8>, i: int, marker: u8, tv: Seq<TokenView>) -> Option<
    int,
> {
    if !open_boundary_at(b, i) || (i + 1 < b.len() && b[i + 1] == marker) || smart_quote_edge_of(
        b,
        marker,
        i,
        tv,
    ) {
        None
    } else if i + 1 >= b.len() || b[i + 1] == SPACE {
        None
    } else {
        valid_close_from(b, marker, i + 1, true, i + 1)
    }
}

/// `[attrlist]` at `lbrack` directly followed by a constrained
/// `marker ... marker`: the list's id and roles, where the content starts and
/// where the closing marker is.
pub open spec fn attrlist_constrained_of(
    b: Seq<u8>,
    lbrack: int,
    marker: u8,
    tv: Seq<TokenView>,
) -> Option<(Option<Seq<char>>, Seq<Seq<char>>, int, int)> {
    match attr_close_from(b, lbrack + 1) {
        None => None,
        Some(rb) => match parse_attrs_of(
            desentinel_of(decode_utf8(b.subrange(lbrack + 1, rb)), tv),
        ) {
            None => None,
            Some((id, roles)) => {
                let mp = rb + 1;
                if !(mp < b.len() && b[mp] == marker) {
                    None
                } else if mp + 1 >= b.len() || b[mp + 1] == SPACE {
                    None
                } else {
                    match valid_close_from(b, marker, mp + 1, false, mp + 1) {
                        Some(cp) => Some((id, roles, mp + 1, cp)),
                        None => None,
                    }
                }
            },
        },
    }
}

pub proof fn lemma_constrained_spans(b: Seq<u8>, i: int, marker: u8, tv: Seq<TokenView>)
    requires
        0 <= i < b.len(),
    ensures
        attrlist_constrained_of(b, i, marker, tv) matches Some((id, roles, cs, cp)) ==> i + 2
            <= cs < cp < b.len() && b[cs - 1] == marker && b[cp] == marker,
        constrained_open_close_of(b, i, marker, tv) matches Some(cp) ==> i + 1 < cp < b.len()
            && b[cp] == marker,
        constrained_open_close_of(b, i + 1, marker, tv) matches Some(cp) ==> i + 2 < cp < b.len()
            && b[cp] == marker,
{
    lemma_attr_close(b, i + 1);
    if let Some(rb) = attr_close_from(b, i + 1) {
        lemma_valid_close_bounds(b, marker, rb + 2, false, rb + 2);
    }
    lemma_valid_close_bounds(b, marker, i + 1, true, i + 1);
    lemma_valid_close_bounds(b, marker, i + 2, true, i + 2);
}

/// Every complete sentinel's index fits in a `usize`.
pub open spec fn sentinel_indices_fit(b: Seq<u8>) -> bool {
    forall|k: int| #[trigger]
        sentinel_index_before_of(b, k) matches Some(v) ==> v <= usize::MAX
}

/// One step of the constrained quote pass for `marker` at `b[i]`: the text
/// it writes, the token table after it and where the next step starts. A
/// sentinel is copied whole; an escaped marker `\M` drops its backslash when
/// a span would open there and leaves the span's markers and content as
/// text, else stays; at an open boundary `[attrlist]M...M` becomes an `attr`
/// span; a bare `M...M` that may open becomes a `bare` span; anything else is
/// copied up to the next byte that could start one of these.
pub open spec fn constrained_step(
    b: Seq<u8>,
    i: int,
    tv: Seq<TokenView>,
    marker: u8,
    bare: SpanKind,
    attr: SpanKind,
) -> (Seq<char>, Seq<TokenView>, int) {
    let n = b.len();
    let k = tv.len() as int;
    if b[i] == TAG_LEAD {
        let e = sentinel_end_of(b, i);
        (decode_utf8(b.subrange(i, e)), tv, e)
    } else if b[i] == BACKSLASH_BYTE && i + 1 < n && b[i + 1] == marker && !(i + 2 < n && b[i + 2]
        == marker) {
        match constrained_open_close_of(b, i + 1, marker, tv) {
            Some(cp) => (
                seq![marker as char] + decode_utf8(b.subrange(i + 2, cp)) + seq![marker as char],
                tv,
                cp + 1,
            ),
            None => (seq!['\\', marker as char], tv, i + 2),
        }
    } else {
        let al = if open_boundary_at(b, i) && b[i] == LBRACK {
            attrlist_constrained_of(b, i, marker, tv)
        } else {
            None
        };
        match al {
            Some((id, roles, cs, cp)) => (
                sentinel_text(k) + decode_utf8(b.subrange(cs, cp)) + sentinel_text(k + 1),
                tv.push(TokenView::Open { kind: attr, id, roles }).push(TokenView::Close(attr)),
                cp + 1,
            ),
            None => {
                let bc = if b[i] == marker {
                    constrained_open_close_of(b, i, marker, tv)
                } else {
                    None
                };
                match bc {
                    Some(cp) => (
                        sentinel_text(k) + decode_utf8(b.subrange(i + 1, cp)) + sentinel_text(k + 1),
                        tv.push(TokenView::Open { kind: bare, id: None, roles: Seq::empty() }).push(
                            TokenView::Close(bare),
                        ),
                        cp + 1,
                    ),
                    None => if b[i] == BACKSLASH_BYTE || b[i] == LBRACK || b[i] == marker {
                        (seq![b[i] as char], tv, i + 1)
                    } else {
                        let j = next_of4(b, TAG_LEAD, BACKSLASH_BYTE, LBRACK, marker, i);
                        (decode_utf8(b.subrange(i, j)), tv, j)
                    },
                }
            },
        }
    }
}

pub proof fn lemma_constrained_step(
    b: Seq<u8>,
    i: int,
    tv: Seq<TokenView>,
    marker: u8,
    bare: SpanKind,
    attr: SpanKind,
)
    requires
        0 <= i < b.len(),
    ensures
        i < constrained_step(b, i, tv, marker, bare, attr).2 <= b.len(),
{
    lemma_sentinel_end(b, i);
    lemma_constrained_spans(b, i, marker, tv);
    lemma_next_of4(b, TAG_LEAD, BACKSLASH_BYTE, LBRACK, marker, i);
}

/// The constrained quote pass for `marker` over `b[i..]`, step by step.
pub open spec fn constrained_from(
    b: Seq<u8>,
    i: int,
    tv: Seq<TokenView>,
    marker: u8,
    bare: SpanKind,
    attr: SpanKind,
    out: Seq<char>,
) -> (Seq<char>, Seq<TokenView>)
    decreases b.len() - i,
{
    if i < 0 || i >= b.len() {
        (out, tv)
    } else {
        proof {
            lemma_constrained_step(b, i, tv, marker, bare, attr);
        }
        let st = constrained_step(b, i, tv, marker, bare, attr);
        constrained_from(b, st.2, st.1, marker, bare, attr, out + st.0)
    }
}

pub open spec fn constrained_of(
    s: Seq<char>,
    tv: Seq<TokenView>,
    marker: u8,
    bare: SpanKind,
    attr: SpanKind,
) -> (Seq<char>, Seq<TokenView>) {
    constrained_from(encode_utf8(s), 0, tv, marker, bare, attr, Seq::empty())
}

/// The closing marker of a constrained span opening at the `marker` at `i`.
pub fn constrained_open_close(tags: &[TagToken], bytes: &[u8], i: usize, marker: u8) -> (r: Option<
    usize,
>)
    requires
        i < bytes@.len(),
        sentinel_indices_fit(bytes@),
    ensures
        crate::pass::int_opt(r) == constrained_open_close_of(bytes@, i as int, marker, tokens_view(tags@)),
{
    let n = bytes.len();
    let open_boundary = i == 0 || !is_word(bytes[i - 1]);
    if !open_boundary || (n - i > 1 && bytes[i + 1] == marker) {
        return None;
    }
    if marker == BACKTICK || marker == UNDERSCORE || marker == HASH {
        match sentinel_index_before(bytes, i) {
            Some(idx) => {
                if idx < tags.len() {
                    match &tags[idx] {
                        TagToken::SmartQuote { text, opening } => {
                            if *opening {
                                return None;
                            }
                        },
                        _ => {},
                    }
                }
            },
            None => {},
        }
    }
    if n - i <= 1 || bytes[i + 1] == SPACE {
        return None;
    }
    find_valid_close_constrained(bytes, marker, i + 1, true)
}

/// `[attrlist]M...M` at `lbrack`: the list's id and roles, where the content
/// starts and where the closing marker is.
pub fn attrlist_constrained(
    tags: &[TagToken],
    src: &str,
    bytes: &[u8],
    lbrack: usize,
    marker: u8,
) -> (r: Option<(Option<String>, Vec<String>, usize, usize)>)
    requires
        bytes@ == src.spec_bytes(),
        lbrack < bytes@.len(),
        bytes@[lbrack as int] == LBRACK,
        attrlists_ok(bytes@),
    ensures
        match attrlist_constrained_of(bytes@, lbrack as int, marker, tokens_view(tags@)) {
            Some((id, roles, cs, cp)) => r matches Some((rid, rroles, rcs, rcp))
                && crate::subst::opt_string_view(rid) == id && crate::subst::strings_view(rroles@)
                == roles && rcs == cs && rcp == cp,
            None => r is None,
        },
{
    let ghost b = bytes@;
    let n = bytes.len();
    let rb = match find_attr_close(bytes, lbrack) {
        Some(rb) => rb,
        None => {
            return None;
        },
    };
    proof {
        lemma_attr_close(b, lbrack + 1);
        encode_utf8_valid_utf8(src@);
        lemma_after_ascii_boundary(b, lbrack as int);
        lemma_ascii_boundary(b, rb as int);
    }
    let list = cut(src, lbrack + 1, rb);
    let d = desentinelize(tags, list);
    let (id, roles) = match parse_attrs(d.as_str()) {
        Some(p) => p,
        None => {
            return None;
        },
    };
    let mp = rb + 1;
    if !(mp < n && bytes[mp] == marker) {
        return None;
    }
    let cs = mp + 1;
    if cs >= n || bytes[cs] == SPACE {
        return None;
    }
    match find_valid_close_constrained(bytes, marker, cs, false) {
        Some(cp) => Some((id, roles, cs, cp)),
        None => None,
    }
}

/// One step of the constrained quote pass at `i`.
fn constrained_step_at(
    buf: &str,
    bytes: &[u8],
    i: usize,
    tags: &mut Vec<TagToken>,
    marker: u8,
    bare_kind: SpanKind,
    attr_kind: SpanKind,
) -> (r: (Vec<char>, usize))
    requires
        bytes@ == buf.spec_bytes(),
        i < bytes@.len(),
        is_char_boundary(bytes@, i as int),
        marker < 0x80,
        attrlists_ok(bytes@),
        sentinel_indices_fit(bytes@),
    ensures
        ({
            let st = constrained_step(
                bytes@,
                i as int,
                tokens_view(old(tags)@),
                marker,
                bare_kind,
                attr_kind,
            );
            r.0@ == st.0 && tokens_view(final(tags)@) == st.1 && r.1 == st.2
        }),
        is_char_boundary(bytes@, r.1 as int),
{
    let n = bytes.len();
    let ghost b = bytes@;
    proof {
        encode_utf8_valid_utf8(buf@);
        lemma_constrained_spans(b, i as int, marker, tokens_view(tags@));
    }
    let mut out: Vec<char> = Vec::new();
    if bytes[i] == TAG_LEAD {
        let e = sentinel_end(bytes, i);
        proof {
            lemma_sentinel_end_boundary(b, i as int);
        }
        copy_range(buf, i, e, &mut out);
        assert(out@ =~= decode_utf8(b.subrange(i as int, e as int)));
        return (out, e);
    }
    if bytes[i] == BACKSLASH_BYTE && n - i > 1 && bytes[i + 1] == marker && !(n - i > 2 && bytes[i
        + 2] == marker) {
        match constrained_open_close(tags.as_slice(), bytes, i + 1, marker) {
            Some(cp) => {
                proof {
                    lemma_after_ascii_boundary(b, i + 1);
                    lemma_ascii_boundary(b, cp as int);
                    lemma_after_ascii_boundary(b, cp as int);
                }
                out.push(marker as char);
                copy_range(buf, i + 2, cp, &mut out);
                out.push(marker as char);
                return (out, cp + 1);
            },
            None => {
                out.push('\\');
                out.push(marker as char);
                proof {
                    lemma_after_ascii_boundary(b, i + 1);
                    assert(out@ =~= seq!['\\', marker as char]);
                }
                return (out, i + 2);
            },
        }
    }
    let open_boundary = i == 0 || !is_word(bytes[i - 1]);
    if open_boundary && bytes[i] == LBRACK {
        match attrlist_constrained(tags.as_slice(), buf, bytes, i, marker) {
            Some((id, roles, cs, cp)) => {
                proof {
                    lemma_after_ascii_boundary(b, cs - 1);
                    lemma_ascii_boundary(b, cp as int);
                    lemma_after_ascii_boundary(b, cp as int);
                }
                let content = cut(buf, cs, cp);
                push_span(tags, &mut out, attr_kind, id, roles, content);
                assert(out@ =~= Seq::<char>::empty() + sentinel_text(tokens_view(old(tags)@).len() as int)
                    + content@ + sentinel_text(tokens_view(old(tags)@).len() + 1int));
                return (out, cp + 1);
            },
            None => {},
        }
    }
    if bytes[i] == marker {
        match constrained_open_close(tags.as_slice(), bytes, i, marker) {
            Some(cp) => {
                proof {
                    lemma_after_ascii_boundary(b, i as int);
                    lemma_ascii_boundary(b, cp as int);
                    lemma_after_ascii_boundary(b, cp as int);
                }
                let content = cut(buf, i + 1, cp);
                let no_roles: Vec<String> = Vec::new();
                proof {
                    assert(crate::subst::strings_view(no_roles@) =~= Seq::<Seq<char>>::empty());
                }
                push_span(tags, &mut out, bare_kind, None, no_roles, content);
                assert(out@ =~= Seq::<char>::empty() + sentinel_text(tokens_view(old(tags)@).len() as int)
                    + content@ + sentinel_text(tokens_view(old(tags)@).len() + 1int));
                return (out, cp + 1);
            },
            None => {},
        }
    }
    if bytes[i] == BACKSLASH_BYTE || bytes[i] == LBRACK || bytes[i] == marker {
        out.push(bytes[i] as char);
        proof {
            lemma_after_ascii_boundary(b, i as int);
            assert(out@ =~= seq![b[i as int] as char]);
        }
        (out, i + 1)
    } else {
        let j = scan_to4(bytes, i, TAG_LEAD, BACKSLASH_BYTE, LBRACK, marker);
        proof {
            lemma_next_of4(b, TAG_LEAD, BACKSLASH_BYTE, LBRACK, marker, i as int);
            lemma_ascii_boundary(b, j as int);
        }
        copy_range(buf, i, j, &mut out);
        assert(out@ =~= decode_utf8(b.subrange(i as int, j as int)));
        (out, j)
    }
}

/// The constrained quote pass for `marker` (`*`, `_`, backtick, `#`): each
/// `M...M` that opens at a word boundary and closes validly becomes a span of
/// `bare_kind`, or of `attr_kind` with the id and roles of an attribute list
/// right before it; an escaped marker keeps the span's text literal.
pub fn pass_constrained(
    buf: &str,
    tags: &mut Vec<TagToken>,
    marker: u8,
    bare_kind: SpanKind,
    attr_kind: SpanKind,
) -> (r: String)
    requires
        marker < 0x80,
        attrlists_ok(buf.spec_bytes()),
        sentinel_indices_fit(buf.spec_bytes()),
    ensures
        (r@, tokens_view(final(tags)@)) == constrained_of(
            buf@,
            tokens_view(old(tags)@),
            marker,
            bare_kind,
            attr_kind,
        ),
{
    let bytes = buf.as_bytes();
    let n = bytes.len();
    let ghost b = bytes@;
    let ghost goal = constrained_of(buf@, tokens_view(old(tags)@), marker, bare_kind, attr_kind);
    let mut out: Vec<char> = Vec::new();
    let mut i: usize = 0;
    proof {
        encode_utf8_valid_utf8(buf@);
        is_char_boundary_start_end_of_seq(b);
        assert(out@ =~= Seq::<char>::empty());
    }
    while i < n
        invariant
            b == bytes@,
            b == buf.spec_bytes(),
            n == b.len(),
            i <= n,
            marker < 0x80,
            attrlists_ok(b),
            sentinel_indices_fit(b),
            is_char_boundary(b, i as int),
            constrained_from(b, i as int, tokens_view(tags@), marker, bare_kind, attr_kind, out@)
                == goal,
        decreases n - i,
    {
        proof {
            lemma_constrained_step(b, i as int, tokens_view(tags@), marker, bare_kind, attr_kind);
        }
        let (t, next) = constrained_step_at(buf, bytes, i, tags, marker, bare_kind, attr_kind);
        push_all(&mut out, t.as_slice());
        i = next;
    }
    string_of(out.as_slice())
}

// ---------------------------------------------------------------------------
// Character references
// ---------------------------------------------------------------------------

/// The character-reference pass over `b[i..]`: sentinels are copied whole,
/// each valid reference becomes a raw `CharRef` token, everything else is
/// copied.
pub open spec fn char_refs_from(b: Seq<u8>, i: int, tv: Seq<TokenView>, out: Seq<char>) -> (
    Seq<char>,
    Seq<TokenView>,
)
    decreases b.len() - i,
{
    if i < 0 || i >= b.len() {
        (out, tv)
    } else if b[i] == TAG_LEAD {
        proof {
            lemma_sentinel_end(b, i);
        }
        let e = sentinel_end_of(b, i);
        char_refs_from(b, e, tv, out + decode_utf8(b.subrange(i, e)))
    } else if b[i] == AMP {
        let l = char_ref_len_of(b, i);
        if l > 0 {
            char_refs_from(
                b,
                i + l,
                tv.push(TokenView::CharRef { text: decode_utf8(b.subrange(i, i + l)), raw: true }),
                out + sentinel_text(tv.len() as int),
            )
        } else {
            char_refs_from(b, i + 1, tv, out.push('&'))
        }
    } else {
        proof {
            lemma_next_either(b, TAG_LEAD, AMP, i);
        }
        let j = next_either(b, TAG_LEAD, AMP, i);
        char_refs_from(b, j, tv, out + decode_utf8(b.subrange(i, j)))
    }
}

pub open spec fn char_refs_of(s: Seq<char>, tv: Seq<TokenView>) -> (Seq<char>, Seq<TokenView>) {
    char_refs_from(encode_utf8(s), 0, tv, Seq::empty())
}

/// A character reference is valid, and so survives the specialcharacters
/// substitution, when it is `&name;`, `&#digits;` or `&#xhex;`: the pass
/// seals each such reference in a raw `CharRef` token; any other `&` stays
/// text.
pub fn char_refs_pass(buf: &str, tags: &mut Vec<TagToken>) -> (r: String)
    ensures
        (r@, tokens_view(final(tags)@)) == char_refs_of(buf@, tokens_view(old(tags)@)),
{
    let bytes = buf.as_bytes();
    let n = bytes.len();
    let ghost b = bytes@;
    let ghost goal = char_refs_of(buf@, tokens_view(old(tags)@));
    let mut out: Vec<char> = Vec::new();
    let mut i: usize = 0;
    proof {
        encode_utf8_valid_utf8(buf@);
        is_char_boundary_start_end_of_seq(b);
        assert(out@ =~= Seq::<char>::empty());
    }
    while i < n
        invariant
            b == bytes@,
            b == buf.spec_bytes(),
            n == b.len(),
            i <= n,
            valid_utf8(b),
            is_char_boundary(b, i as int),
            char_refs_from(b, i as int, tokens_view(tags@), out@) == goal,
        decreases n - i,
    {
        if bytes[i] == TAG_LEAD {
            let e = sentinel_end(bytes, i);
            proof {
                lemma_sentinel_end_boundary(b, i as int);
            }
            copy_range(buf, i, e, &mut out);
            i = e;
        } else if bytes[i] == AMP {
            let l = char_ref_len(bytes, i);
            if l > 0 {
                proof {
                    lemma_after_ascii_boundary(b, i + l - 1);
                }
                let t = cut(buf, i, i + l);
                let s = push_token(tags, TagToken::CharRef { text: t.to_owned(), raw: true });
                push_all(&mut out, s.as_slice());
                i = i + l;
            } else {
                out.push('&');
                proof {
                    lemma_after_ascii_boundary(b, i as int);
                }
                i = i + 1;
            }
        } else {
            let j = scan_to(bytes, i, TAG_LEAD, AMP);
            proof {
                lemma_run_boundary(b, TAG_LEAD, AMP, i as int);
                lemma_next_either(b, TAG_LEAD, AMP, i as int);
            }
            copy_range(buf, i, j, &mut out);
            i = j;
        }
    }
    string_of(out.as_slice())
}

// ---------------------------------------------------------------------------
// Hard line breaks
// ---------------------------------------------------------------------------

/// The hard line break pass over `b[i..]`: sentinels are copied whole, ` +`
/// before a line feed (consumed with it) or at the very end becomes a
/// `HardBreak` token, everything else is copied.
pub open spec fn hard_breaks_from(b: Seq<u8>, i: int, tv: Seq<TokenView>, out: Seq<char>) -> (
    Seq<char>,
    Seq<TokenView>,
)
    decreases b.len() - i,
{
    let n = b.len();
    if i < 0 || i >= n {
        (out, tv)
    } else if b[i] == TAG_LEAD {
        proof {
            lemma_sentinel_end(b, i);
        }
        let e = sentinel_end_of(b, i);
        hard_breaks_from(b, e, tv, out + decode_utf8(b.subrange(i, e)))
    } else if b[i] == SPACE {
        if i + 2 < n && b[i + 1] == PLUS && b[i + 2] == LF {
            hard_breaks_from(
                b,
                i + 3,
                tv.push(TokenView::HardBreak),
                out + sentinel_text(tv.len() as int),
            )
        } else if i + 2 == n && b[i + 1] == PLUS {
            hard_breaks_from(
                b,
                i + 2,
                tv.push(TokenView::HardBreak),
                out + sentinel_text(tv.len() as int),
            )
        } else {
            hard_breaks_from(b, i + 1, tv, out.push(' '))
        }
    } else {
        proof {
            lemma_next_either(b, TAG_LEAD, SPACE, i);
        }
        let j = next_either(b, TAG_LEAD, SPACE, i);
        hard_breaks_from(b, j, tv, out + decode_utf8(b.subrange(i, j)))
    }
}

pub open spec fn hard_breaks_of(s: Seq<char>, tv: Seq<TokenView>) -> (Seq<char>, Seq<TokenView>) {
    hard_breaks_from(encode_utf8(s), 0, tv, Seq::empty())
}

/// The post-replacements pass: every ` +` that ends a line, or the buffer,
/// becomes a hard line break token.
pub fn hard_breaks_pass(buf: &str, tags: &mut Vec<TagToken>) -> (r: String)
    ensures
        (r@, tokens_view(final(tags)@)) == hard_breaks_of(buf@, tokens_view(old(tags)@)),
{
    let bytes = buf.as_bytes();
    let n = bytes.len();
    let ghost b = bytes@;
    let ghost goal = hard_breaks_of(buf@, tokens_view(old(tags)@));
    let mut out: Vec<char> = Vec::new();
    let mut i: usize = 0;
    proof {
        encode_utf8_valid_utf8(buf@);
        is_char_boundary_start_end_of_seq(b);
        assert(out@ =~= Seq::<char>::empty());
    }
    while i < n
        invariant
            b == bytes@,
            b == buf.spec_bytes(),
            n == b.len(),
            i <= n,
            valid_utf8(b),
            is_char_boundary(b, i as int),
            hard_breaks_from(b, i as int, tokens_view(tags@), out@) == goal,
        decreases n - i,
    {
        if bytes[i] == TAG_LEAD {
            let e = sentinel_end(bytes, i);
            proof {
                lemma_sentinel_end_boundary(b, i as int);
            }
            copy_range(buf, i, e, &mut out);
            i = e;
        } else if bytes[i] == SPACE {
            if n - i > 2 && bytes[i + 1] == PLUS && bytes[i + 2] == LF {
                let s = push_token(tags, TagToken::HardBreak);
                push_all(&mut out, s.as_slice());
                proof {
                    lemma_after_ascii_boundary(b, i + 2);
                }
                i = i + 3;
            } else if n - i == 2 && bytes[i + 1] == PLUS {
                let s = push_token(tags, TagToken::HardBreak);
                push_all(&mut out, s.as_slice());
                proof {
                    lemma_ascii_boundary(b, n as int);
                }
                i = i + 2;
            } else {
                out.push(' ');
                proof {
                    lemma_after_ascii_boundary(b, i as int);
                }
                i = i + 1;
            }
        } else {
            let j = scan_to(bytes, i, TAG_LEAD, SPACE);
            proof {
                lemma_run_boundary(b, TAG_LEAD, SPACE, i as int);
                lemma_next_either(b, TAG_LEAD, SPACE, i as int);
            }
            copy_range(buf, i, j, &mut out);
            i = j;
        }
    }
    string_of(out.as_slice())
}

// ---------------------------------------------------------------------------
// Token tables only grow
// ---------------------------------------------------------------------------

proof fn lemma_push2(tv: Seq<TokenView>, x: TokenView, y: TokenView)
    ensures
        table_prefix(tv, tv.push(x)),
        table_prefix(tv, tv.push(x).push(y)),
{
    lemma_table_prefix_refl(tv);
    lemma_table_prefix_push(tv, tv, x);
    lemma_table_prefix_push(tv, tv.push(x), y);
}

proof fn lemma_char_refs_prefix(b: Seq<u8>, i: int, tv: Seq<TokenView>, out: Seq<char>)
    ensures
        table_prefix(tv, char_refs_from(b, i, tv, out).1),
    decreases b.len() - i,
{
    lemma_table_prefix_refl(tv);
    if 0 <= i < b.len() {
        if b[i] == TAG_LEAD {
            lemma_sentinel_end(b, i);
            let e = sentinel_end_of(b, i);
            lemma_char_refs_prefix(b, e, tv, out + decode_utf8(b.subrange(i, e)));
        } else if b[i] == AMP {
            let l = char_ref_len_of(b, i);
            if l > 0 {
                let t2 = tv.push(TokenView::CharRef { text: decode_utf8(b.subrange(i, i + l)), raw: true });
                let o2 = out + sentinel_text(tv.len() as int);
                lemma_push2(tv, t2.last(), t2.last());
                assert(t2 == tv.push(t2.last()));
                lemma_char_refs_prefix(b, i + l, t2, o2);
                lemma_table_prefix_trans(tv, t2, char_refs_from(b, i + l, t2, o2).1);
            } else {
                lemma_char_refs_prefix(b, i + 1, tv, out.push('&'));
            }
        } else {
            lemma_next_either(b, TAG_LEAD, AMP, i);
            let j = next_either(b, TAG_LEAD, AMP, i);
            lemma_char_refs_prefix(b, j, tv, out + decode_utf8(b.subrange(i, j)));
        }
    }
}

proof fn lemma_hard_breaks_prefix(b: Seq<u8>, i: int, tv: Seq<TokenView>, out: Seq<char>)
    ensures
        table_prefix(tv, hard_breaks_from(b, i, tv, out).1),
    decreases b.len() - i,
{
    lemma_table_prefix_refl(tv);
    let n = b.len();
    if 0 <= i < n {
        if b[i] == TAG_LEAD {
            lemma_sentinel_end(b, i);
            let e = sentinel_end_of(b, i);
            lemma_hard_breaks_prefix(b, e, tv, out + decode_utf8(b.subrange(i, e)));
        } else if b[i] == SPACE {
            let t2 = tv.push(TokenView::HardBreak);
            let o2 = out + sentinel_text(tv.len() as int);
            lemma_push2(tv, TokenView::HardBreak, TokenView::HardBreak);
            if i + 2 < n && b[i + 1] == PLUS && b[i + 2] == LF {
                lemma_hard_breaks_prefix(b, i + 3, t2, o2);
                lemma_table_prefix_trans(tv, t2, hard_breaks_from(b, i + 3, t2, o2).1);
            } else if i + 2 == n && b[i + 1] == PLUS {
                lemma_hard_breaks_prefix(b, i + 2, t2, o2);
                lemma_table_prefix_trans(tv, t2, hard_breaks_from(b, i + 2, t2, o2).1);
            } else {
                lemma_hard_breaks_prefix(b, i + 1, tv, out.push(' '));
            }
        } else {
            lemma_next_either(b, TAG_LEAD, SPACE, i);
            let j = next_either(b, TAG_LEAD, SPACE, i);
            lemma_hard_breaks_prefix(b, j, tv, out + decode_utf8(b.subrange(i, j)));
        }
    }
}

proof fn lemma_attrs_prefix(b: Seq<u8>, i: int, tv: Seq<TokenView>, out: Seq<char>)
    ensures
        table_prefix(tv, attrs_from(b, i, tv, out).1),
    decreases b.len() - i,
{
    lemma_table_prefix_refl(tv);
    if 0 <= i < b.len() {
        if b[i] == LBRACE {
            lemma_attr_token_end(b, i);
            match attr_token_at(b, i, tv) {
                Some((t, e)) => {
                    let o2 = out + sentinel_text(tv.len() as int);
                    lemma_push2(tv, t, t);
                    lemma_attrs_prefix(b, e, tv.push(t), o2);
                    lemma_table_prefix_trans(tv, tv.push(t), attrs_from(b, e, tv.push(t), o2).1);
                },
                None => {
                    lemma_attrs_prefix(b, i + 1, tv, out.push('{'));
                },
            }
        } else {
            lemma_next_either(b, LBRACE, LBRACE, i);
            let j = next_either(b, LBRACE, LBRACE, i);
            lemma_attrs_prefix(b, j, tv, out + decode_utf8(b.subrange(i, j)));
        }
    }
}

proof fn lemma_unconstrained_prefix(
    b: Seq<u8>,
    i: int,
    tv: Seq<TokenView>,
    marker: u8,
    bare: SpanKind,
    attr: SpanKind,
    out: Seq<char>,
)
    ensures
        table_prefix(tv, unconstrained_from(b, i, tv, marker, bare, attr, out).1),
    decreases b.len() - i,
{
    lemma_table_prefix_refl(tv);
    if 0 <= i < b.len() {
        if b[i] == TAG_LEAD {
            lemma_sentinel_end(b, i);
            let e = sentinel_end_of(b, i);
            lemma_unconstrained_prefix(b, e, tv, marker, bare, attr, out + decode_utf8(b.subrange(i, e)));
        } else {
            lemma_unconstrained_spans(b, i, marker, tv);
            let k = tv.len() as int;
            let al = if b[i] == LBRACK {
                attrlist_unconstrained_of(b, i, marker, tv)
            } else {
                None
            };
            match al {
                Some((id, roles, cs, cp)) => {
                    let x = TokenView::Open { kind: attr, id, roles };
                    let y = TokenView::Close(attr);
                    let t2 = tv.push(x).push(y);
                    let o2 = out + sentinel_text(k) + decode_utf8(b.subrange(cs, cp)) + sentinel_text(k + 1);
                    lemma_push2(tv, x, y);
                    lemma_unconstrained_prefix(b, cp + 2, t2, marker, bare, attr, o2);
                    lemma_table_prefix_trans(tv, t2, unconstrained_from(b, cp + 2, t2, marker, bare, attr, o2).1);
                },
                None => match bare_unconstrained_of(b, i, marker) {
                    Some(cp) => {
                        let x = TokenView::Open { kind: bare, id: None, roles: Seq::empty() };
                        let y = TokenView::Close(bare);
                        let t2 = tv.push(x).push(y);
                        let o2 = out + sentinel_text(k) + decode_utf8(b.subrange(i + 2, cp)) + sentinel_text(k + 1);
                        lemma_push2(tv, x, y);
                        lemma_unconstrained_prefix(b, cp + 2, t2, marker, bare, attr, o2);
                        lemma_table_prefix_trans(tv, t2, unconstrained_from(b, cp + 2, t2, marker, bare, attr, o2).1);
                    },
                    None => if b[i] == LBRACK || b[i] == marker {
                        lemma_unconstrained_prefix(b, i + 1, tv, marker, bare, attr, out.push(b[i] as char));
                    } else {
                        lemma_next_of3(b, TAG_LEAD, LBRACK, marker, i);
                        let j = next_of3(b, TAG_LEAD, LBRACK, marker, i);
                        lemma_unconstrained_prefix(b, j, tv, marker, bare, attr, out + decode_utf8(b.subrange(i, j)));
                    },
                },
            }
        }
    }
}

proof fn lemma_constrained_prefix(
    b: Seq<u8>,
    i: int,
    tv: Seq<TokenView>,
    marker: u8,
    bare: SpanKind,
    attr: SpanKind,
    out: Seq<char>,
)
    ensures
        table_prefix(tv, constrained_from(b, i, tv, marker, bare, attr, out).1),
    decreases b.len() - i,
{
    lemma_table_prefix_refl(tv);
    if 0 <= i < b.len() {
        lemma_constrained_step(b, i, tv, marker, bare, attr);
        let st = constrained_step(b, i, tv, marker, bare, attr);
        assert(table_prefix(tv, st.1)) by {
            if st.1.len() == tv.len() + 2 {
                let t1 = st.1.drop_last();
                assert(st.1 =~= t1.push(st.1.last()));
                assert(t1 =~= tv.push(t1.last()));
                lemma_push2(tv, t1.last(), st.1.last());
            }
        }
        lemma_constrained_prefix(b, st.2, st.1, marker, bare, attr, out + st.0);
        lemma_table_prefix_trans(tv, st.1, constrained_from(b, st.2, st.1, marker, bare, attr, out + st.0).1);
    }
}

/// Each of these passes only appends to the token table: the tokens that
/// were there before keep their places, so the sentinels already in the
/// buffer still name the same tokens.
pub proof fn law_passes_keep_earlier_tokens(
    s: Seq<char>,
    tv: Seq<TokenView>,
    marker: u8,
    bare: SpanKind,
    attr: SpanKind,
)
    ensures
        table_prefix(tv, attrs_extracted_of(s, tv).1),
        table_prefix(tv, char_refs_of(s, tv).1),
        table_prefix(tv, hard_breaks_of(s, tv).1),
        table_prefix(tv, unconstrained_of(s, tv, marker, bare, attr).1),
        table_prefix(tv, constrained_of(s, tv, marker, bare, attr).1),
{
    let b = encode_utf8(s);
    lemma_attrs_prefix(b, 0, tv, Seq::empty());
    lemma_char_refs_prefix(b, 0, tv, Seq::empty());
    lemma_hard_breaks_prefix(b, 0, tv, Seq::empty());
    lemma_unconstrained_prefix(b, 0, tv, marker, bare, attr, Seq::empty());
    lemma_constrained_prefix(b, 0, tv, marker, bare, attr, Seq::empty());
}

// ---------------------------------------------------------------------------
// Autolinks
// ---------------------------------------------------------------------------

/// A URL stops at the character starting at byte `p`: Unicode white space
/// (ASCII 9 to 13 and space, or the UTF-8 of U+0085, U+00A0, U+1680,
/// U+2000 to U+200A, U+2028, U+2029, U+202F, U+205F, U+3000), or one of
/// `[`, `]`, `<`, `>`.
pub open spec fn is_url_stop(b: Seq<u8>, p: int) -> bool {
    let x = b[p];
    let n = b.len();
    ||| x == SPACE
    ||| 9 <= x <= 13
    ||| x == LBRACK
    ||| x == RBRACK
    ||| x == LT_BYTE
    ||| x == GT_BYTE
    ||| (x == 0xC2 && p + 1 < n && (b[p + 1] == 0x85 || b[p + 1] == 0xA0))
    ||| (x == 0xE1 && p + 2 < n && b[p + 1] == 0x9A && b[p + 2] == 0x80)
    ||| (x == 0xE2 && p + 2 < n && b[p + 1] == 0x80 && ((0x80 <= b[p + 2] <= 0x8A) || b[p + 2]
        == 0xA8 || b[p + 2] == 0xA9 || b[p + 2] == 0xAF))
    ||| (x == 0xE2 && p + 2 < n && b[p + 1] == 0x81 && b[p + 2] == 0x9F)
    ||| (x == 0xE3 && p + 2 < n && b[p + 1] == 0x80 && b[p + 2] == 0x80)
}

pub const LT_BYTE: u8 = 0x3C;

pub const GT_BYTE: u8 = 0x3E;

/// The first URL stop in `b[p..e]`, or `e`.
pub open spec fn url_stop_from(b: Seq<u8>, p: int, e: int) -> int
    decreases e - p,
{
    if p >= e {
        e
    } else if is_url_stop(b, p) {
        p
    } else {
        url_stop_from(b, p + 1, e)
    }
}

/// Trailing punctuation a bare URL sheds.
pub open spec fn is_trailing_punct(x: u8) -> bool {
    x == 0x2E || x == 0x2C || x == 0x3B || x == 0x3A || x == 0x21 || x == 0x3F || x == RPAREN_BYTE
}

pub const RPAREN_BYTE: u8 = 0x29;

/// The length of the URL `b[start..start + len]` once trailing punctuation
/// is shed, never below nine bytes.
pub open spec fn punct_strip(b: Seq<u8>, start: int, len: int) -> int
    decreases len,
{
    if len > 8 && is_trailing_punct(b[start + len - 1]) {
        punct_strip(b, start, len - 1)
    } else {
        len
    }
}

/// The extent of a bare URL autolink whose scheme starts at `start`, scanning
/// no further than `limit`: `None` when the URL is eight bytes or shorter,
/// or when it follows a `<` without a `[` label and no `>` closes it right
/// after; else its length in bytes and whether it is the angle-bracketed
/// form (the `>` right after it is then consumed too). A URL with a `[...]`
/// label right after it keeps trailing punctuation, and so does the angle
/// form; any other sheds it.
pub open spec fn autolink_extent_of(b: Seq<u8>, start: int, limit: int) -> Option<(int, bool)> {
    let n = b.len();
    let scan_end = if limit < n {
        limit
    } else {
        n as int
    };
    let ue = url_stop_from(b, start, scan_end);
    let ul = ue - start;
    if ul <= 8 {
        None
    } else {
        let bracket_follows = ue < n && b[ue] == LBRACK && next_byte(b, RBRACK, ue) is Some;
        let angle = start > 0 && b[start - 1] == LT_BYTE;
        if angle && !bracket_follows {
            if ue < n && b[ue] == GT_BYTE {
                Some((ul, true))
            } else {
                None
            }
        } else if bracket_follows {
            Some((ul, false))
        } else {
            Some((punct_strip(b, start, ul), false))
        }
    }
}

proof fn lemma_punct_strip(b: Seq<u8>, start: int, len: int)
    requires
        0 <= start,
        8 <= len,
        start + len <= b.len(),
    ensures
        8 <= punct_strip(b, start, len) <= len,
        punct_strip(b, start, len) > 8 ==> !is_trailing_punct(
            b[start + punct_strip(b, start, len) - 1],
        ),
        punct_strip(b, start, len) < len ==> is_trailing_punct(
            b[start + punct_strip(b, start, len)],
        ),
        forall|k: int|
            start + punct_strip(b, start, len) <= k < start + len ==> is_trailing_punct(
                #[trigger] b[k],
            ),
    decreases len,
{
    if len > 8 && is_trailing_punct(b[start + len - 1]) {
        lemma_punct_strip(b, start, len - 1);
    }
}

proof fn lemma_url_stop(b: Seq<u8>, p: int, e: int)
    requires
        p <= e,
    ensures
        p <= url_stop_from(b, p, e) <= e,
    decreases e - p,
{
    if p < e && !is_url_stop(b, p) {
        lemma_url_stop(b, p + 1, e);
    }
}

/// A bare URL autolink (not angle-bracketed, with no `[label]` right after
/// it) longer than eight bytes never ends with `.`, `,`, `;`, `:`, `!`, `?`
/// or `)`: such bytes at its end are shed and left as text, and only such
/// bytes are shed. The extent is never more than eight bytes short of its
/// start's stop, and a URL with a label keeps every byte up to the label.
pub proof fn law_autolink_sheds_trailing_punctuation(b: Seq<u8>, start: int, limit: int)
    requires
        0 <= start <= limit,
        start <= b.len(),
    ensures
        autolink_extent_of(b, start, limit) matches Some((l, angle)) ==> {
            &&& 8 <= l
            &&& start + l <= b.len()
            &&& (!angle && l > 8 && !(start + l < b.len() && b[start + l] == 0x5B && next_byte(
                b,
                0x5D,
                start + l,
            ) is Some)) ==> !(b[start + l - 1] == 0x2E || b[start + l - 1] == 0x2C || b[start + l
                - 1] == 0x3B || b[start + l - 1] == 0x3A || b[start + l - 1] == 0x21 || b[start + l
                - 1] == 0x3F || b[start + l - 1] == 0x29)
            &&& forall|k: int|
                start + l <= k < url_stop_from(
                    b,
                    start,
                    if limit < b.len() {
                        limit
                    } else {
                        b.len() as int
                    },
                ) ==> (b[k] == 0x2E || b[k] == 0x2C || b[k] == 0x3B || b[k] == 0x3A || b[k] == 0x21
                    || b[k] == 0x3F || b[k] == 0x29)
        },
{
    let n = b.len();
    let scan_end = if limit < n {
        limit
    } else {
        n as int
    };
    lemma_url_stop(b, start, scan_end);
    let ue = url_stop_from(b, start, scan_end);
    let ul = ue - start;
    if ul > 8 {
        lemma_punct_strip(b, start, ul);
        let l = punct_strip(b, start, ul);
        if l < ul {
            assert(is_trailing_punct(b[start + l]));
        }
    }
}

fn url_stop_at(bytes: &[u8], p: usize) -> (r: bool)
    requires
        p < bytes@.len(),
    ensures
        r == is_url_stop(bytes@, p as int),
{
    let n = bytes.len();
    let x = bytes[p];
    if x == SPACE || (9 <= x && x <= 13) || x == LBRACK || x == RBRACK || x == LT_BYTE || x
        == GT_BYTE {
        return true;
    }
    if x == 0xC2 && n - p > 1 {
        let y = bytes[p + 1];
        return y == 0x85 || y == 0xA0;
    }
    if (x == 0xE1 || x == 0xE2 || x == 0xE3) && n - p > 2 {
        let y = bytes[p + 1];
        let z = bytes[p + 2];
        if x == 0xE1 {
            return y == 0x9A && z == 0x80;
        }
        if x == 0xE2 {
            return (y == 0x80 && ((0x80 <= z && z <= 0x8A) || z == 0xA8 || z == 0xA9 || z == 0xAF))
                || (y == 0x81 && z == 0x9F);
        }
        return y == 0x80 && z == 0x80;
    }
    false
}

/// The extent of a bare URL autolink at `start`, scanning up to `limit`
/// (see `autolink_extent_of`).
pub fn autolink_extent(src: &str, start: usize, limit: usize) -> (r: Option<(usize, bool)>)
    requires
        start <= limit,
        start <= src.spec_bytes().len(),
    ensures
        match autolink_extent_of(src.spec_bytes(), start as int, limit as int) {
            Some((l, a)) => r == Some((l as usize, a)),
            None => r is None,
        },
{
    let bytes = src.as_bytes();
    let n = bytes.len();
    let ghost b = bytes@;
    let scan_end = if limit < n {
        limit
    } else {
        n
    };
    let mut p = start;
    while p < scan_end && !url_stop_at(bytes, p)
        invariant
            start <= p <= scan_end <= n == b.len(),
            b == bytes@,
            url_stop_from(b, start as int, scan_end as int) == url_stop_from(
                b,
                p as int,
                scan_end as int,
            ),
        decreases scan_end - p,
    {
        p += 1;
    }
    let ue = p;
    let ul = ue - start;
    if ul <= 8 {
        return None;
    }
    let mut bracket_follows = false;
    if ue < n && bytes[ue] == LBRACK {
        let mut q = ue;
        while q < n && bytes[q] != RBRACK
            invariant
                ue <= q <= n == b.len(),
                b == bytes@,
                next_byte(b, RBRACK, ue as int) == next_byte(b, RBRACK, q as int),
            decreases n - q,
        {
            q += 1;
        }
        bracket_follows = q < n;
    }
    let angle = start > 0 && bytes[start - 1] == LT_BYTE;
    if angle && !bracket_follows {
        if ue < n && bytes[ue] == GT_BYTE {
            return Some((ul, true));
        }
        return None;
    }
    if bracket_follows {
        return Some((ul, false));
    }
    let mut len = ul;
    while len > 8 && is_punct(bytes[start + len - 1])
        invariant
            8 <= len <= ul,
            start + ul <= n == b.len(),
            b == bytes@,
            punct_strip(b, start as int, ul as int) == punct_strip(b, start as int, len as int),
        decreases len,
    {
        len -= 1;
    }
    Some((len, false))
}

fn is_punct(x: u8) -> (r: bool)
    ensures
        r == is_trailing_punct(x),
{
    x == 0x2E || x == 0x2C || x == 0x3B || x == 0x3A || x == 0x21 || x == 0x3F || x == RPAREN_BYTE
}

} // verus!
