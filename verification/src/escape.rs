//! The backslash escape pass.
//!
//! It runs on the working buffer after passthrough extraction and before the
//! attribute and quote passes. Each recognised escape drops the backslash and
//! seals what it protects in a token, so that no later pass acts on it:
//!
//! - a typographic pattern (`\--`, `\->`, `\=>`, `\<-`, `\<=`, `\...`,
//!   `\(C)`, `\(R)`, `\(TM)`), a smart-quote opener with its backtick and the
//!   single characters `{`, `[`, `<` and `'` become `Literal` tokens, which
//!   join the following text;
//! - an escaped inline macro `\name:target[...]` (with macros on) and an
//!   escaped index term `\((...))` become `Macro` tokens, events of their own;
//! - an escaped character reference `\&...;` becomes a non-raw `CharRef`;
//! - `\\MM...MM` before an unconstrained marker pair (with quotes on) seals the
//!   two marker pairs and leaves the content between them in the buffer.
//!
//! Any other backslash stays in the text.

use vstd::prelude::*;
use vstd::string::StringSliceAdditionalSpecFns;
use vstd::utf8::{
    decode_utf8, encode_utf8_valid_utf8, is_char_boundary, is_char_boundary_start_end_of_seq,
    valid_utf8,
};
use crate::counters::nat_text;
use crate::subst::{
    char_ref_len, char_ref_len_of, clean_bracket_close, doubled_marker_close_of,
    doubled_marker_escape, index_term_close, index_term_close_of, lemma_next_byte,
    lemma_unconstrained_close_bounds, macro_escape_len, macro_escape_len_of, next_byte,
    paren_close_slide, sentinel, cut, lemma_ascii_boundary, lemma_after_ascii_boundary, typographic_escape_len, typographic_escape_len_of, AMP, BACKTICK,
    DQUOTE, LBRACK, LPAREN, LT, RBRACK, RPAREN, SQUOTE, TAG_LEAD, TAG_TAIL,
};
use crate::pass::byte_text;
use crate::text::{chars_of, push_all, string_of};
use crate::tokens::{
    lemma_table_prefix_push, lemma_table_prefix_refl, lemma_table_prefix_trans, table_prefix,
    events_view, token_view, tokens_view, EventView, InlineEvent, TagToken, TokenView,
};

verus! {

pub const BACKSLASH: u8 = 0x5C;

pub const LBRACE: u8 = 0x7B;

/// The sentinel text of tag index `idx`.
pub open spec fn sentinel_text(idx: int) -> Seq<char> {
    seq![TAG_LEAD as char] + nat_text(idx as nat) + seq![TAG_TAIL as char]
}

/// `b` holds a sentinel byte.
pub open spec fn has_sentinel_byte(b: Seq<u8>) -> bool {
    exists|t: int| 0 <= t < b.len() && (b[t] == TAG_LEAD || b[t] == TAG_TAIL)
}

/// An escaped index term `\((...))` whose backslash is at `i` (macros on): the
/// bytes consumed and the events it stands for. `\(((term)))` keeps the outer
/// parentheses as text around an index term of the inner text; any other
/// match is kept whole as text, without the backslash. None when there is no
/// closing `))` or the content holds a sentinel byte.
pub open spec fn index_escape_of(b: Seq<u8>, i: int, macros_on: bool) -> Option<(int, Seq<EventView>)> {
    if !macros_on || !(0 <= i && i + 2 < b.len() && b[i + 1] == LPAREN && b[i + 2] == LPAREN) {
        None
    } else {
        let cs = i + 3;
        match index_term_close_of(b.subrange(cs, b.len() as int)) {
            None => None,
            Some(c) => {
                let content = b.subrange(cs, cs + c);
                if has_sentinel_byte(content) {
                    None
                } else if content[0] == LPAREN && content[c - 1] == RPAREN {
                    Some(
                        (
                            c + 5,
                            seq![
                                EventView::Text(seq!['(']),
                                EventView::IndexTerm(decode_utf8(b.subrange(cs + 1, cs + c - 1))),
                                EventView::Text(seq![')']),
                            ],
                        ),
                    )
                } else {
                    Some((c + 5, seq![EventView::Text(decode_utf8(b.subrange(i + 1, cs + c + 2)))]))
                }
            },
        }
    }
}

/// One escape whose backslash is at `i`: the text it leaves in the buffer,
/// the token table after it, and the bytes consumed.
pub open spec fn escape_step(
    b: Seq<u8>,
    i: int,
    tv: Seq<TokenView>,
    macros_on: bool,
    quotes_on: bool,
) -> (Seq<char>, Seq<TokenView>, int) {
    let n = b.len();
    let k = tv.len() as int;
    if i + 1 >= n {
        (seq!['\\'], tv, 1)
    } else if b[i + 1] == BACKSLASH {
        match doubled_marker_close_of(b, i, quotes_on) {
            Some(cp) => (
                sentinel_text(k) + decode_utf8(b.subrange(i + 4, cp)) + sentinel_text(k + 1),
                tv.push(TokenView::Macro(seq![EventView::Text(decode_utf8(b.subrange(i + 2, i + 4)))])).push(
                    TokenView::Macro(seq![EventView::Text(decode_utf8(b.subrange(cp, cp + 2)))]),
                ),
                cp + 2 - i,
            ),
            None => (seq!['\\'], tv, 1),
        }
    } else {
        let m = b[i + 1];
        let plen = typographic_escape_len_of(b, i);
        let cref = if m == AMP {
            char_ref_len_of(b, i + 1)
        } else {
            0
        };
        let mlen = if macros_on {
            macro_escape_len_of(b, i + 1)
        } else {
            0
        };
        if plen > 0 {
            (
                sentinel_text(k),
                tv.push(TokenView::Literal(decode_utf8(b.subrange(i + 1, i + 1 + plen)))),
                1 + plen,
            )
        } else if mlen > 0 {
            (
                sentinel_text(k),
                tv.push(TokenView::Macro(seq![EventView::Text(decode_utf8(b.subrange(i + 1, i + 1 + mlen)))])),
                1 + mlen,
            )
        } else if cref > 0 {
            (
                sentinel_text(k),
                tv.push(TokenView::CharRef { text: decode_utf8(b.subrange(i + 1, i + 1 + cref)), raw: false }),
                1 + cref,
            )
        } else if (m == DQUOTE || m == SQUOTE) && i + 2 < n && b[i + 2] == BACKTICK {
            (sentinel_text(k), tv.push(TokenView::Literal(decode_utf8(b.subrange(i + 1, i + 3)))), 3)
        } else {
            match index_escape_of(b, i, macros_on) {
                Some((consumed, evs)) => (sentinel_text(k), tv.push(TokenView::Macro(evs)), consumed),
                None => if m == LBRACE || m == LBRACK || m == LT || m == SQUOTE {
                    (sentinel_text(k), tv.push(TokenView::Literal(seq![m as char])), 2)
                } else {
                    (seq!['\\'], tv, 1)
                },
            }
        }
    }
}

/// `index_term_close_of` finds a closing `))` inside what it scans.
pub proof fn lemma_index_close_bounds(b: Seq<u8>)
    ensures
        index_term_close_of(b) matches Some(c) ==> 0 < c && c + 2 <= b.len() && b[c] == RPAREN
            && b[c + 1] == RPAREN,
{
    let pat = seq![')', ')'];
    crate::text::lemma_find_from_bounds(byte_text(b), pat, 0);
    if let Some(k) = crate::text::find(byte_text(b), pat) {
        assert(byte_text(b).subrange(k, k + 2) == pat);
        assert(byte_text(b)[k] == ')' && byte_text(b)[k + 1] == ')');
        assert(b[k] as char == ')');
        assert(b[k + 1] as char == ')');
        lemma_paren_slide(b, k);
    }
}

proof fn lemma_paren_slide(b: Seq<u8>, k: int)
    requires
        0 <= k,
        k + 2 <= b.len(),
        b[k] == RPAREN,
        b[k + 1] == RPAREN,
    ensures
        ({
            let c = paren_close_slide(b, k);
            k <= c && c + 2 <= b.len() && b[c] == RPAREN && b[c + 1] == RPAREN
        }),
    decreases b.len() - k,
{
    if k + 2 < b.len() && b[k + 2] == RPAREN {
        lemma_paren_slide(b, k + 1);
    }
}

proof fn lemma_clean_close(b: Seq<u8>, i: int)
    requires
        0 <= i,
    ensures
        clean_bracket_close(b, i) matches Some(c) ==> i <= c < b.len() && b[c] == RBRACK,
    decreases b.len() - i,
{
    if i < b.len() && b[i] != RBRACK && b[i] != TAG_LEAD && b[i] != TAG_TAIL {
        lemma_clean_close(b, i + 1);
    }
}

/// The bytes an escape consumes end with an ASCII byte, inside the buffer.
pub proof fn lemma_escape_step(b: Seq<u8>, i: int, tv: Seq<TokenView>, macros_on: bool, quotes_on: bool)
    requires
        0 <= i < b.len(),
        b[i] == BACKSLASH,
    ensures
        ({
            let c = escape_step(b, i, tv, macros_on, quotes_on).2;
            1 <= c && i + c <= b.len() && b[i + c - 1] < 0x80
        }),
{
    let n = b.len();
    if i + 1 < n {
        if b[i + 1] == BACKSLASH {
            if quotes_on && i + 3 < n {
                lemma_unconstrained_close_bounds(b, b[i + 2], i + 4);
            }
        } else {
            if macros_on && i + 1 < n {
                macro_escape_bounds(b, i + 1);
            }
            let cs = i + 3;
            if cs <= n {
                lemma_index_close_bounds(b.subrange(cs, n as int));
            }
        }
    }
}

proof fn macro_escape_bounds(b: Seq<u8>, p: int)
    requires
        0 <= p < b.len(),
    ensures
        macro_escape_len_of(b, p) > 0 ==> p + macro_escape_len_of(b, p) <= b.len() && b[p
            + macro_escape_len_of(b, p) - 1] == RBRACK,
{
    if macro_escape_len_of(b, p) > 0 {
        let nl = crate::subst::macro_name_from(byte_text(b), p, 0)->0;
        let k = crate::subst::target_stop(b, p + nl)->0;
        lemma_clean_close(b, k + 1);
    }
}

/// The escape pass over the bytes `b[i..]`, given the text written so far and
/// the token table: runs without a backslash are copied, each backslash is
/// one escape step.
pub open spec fn esc_from(
    b: Seq<u8>,
    i: int,
    tv: Seq<TokenView>,
    macros_on: bool,
    quotes_on: bool,
    out: Seq<char>,
) -> (Seq<char>, Seq<TokenView>)
    decreases b.len() - i,
{
    if i < 0 || i >= b.len() {
        (out, tv)
    } else if b[i] != BACKSLASH {
        proof {
            lemma_next_byte(b, BACKSLASH, i);
        }
        let j = match next_byte(b, BACKSLASH, i) {
            Some(k) => k,
            None => b.len() as int,
        };
        esc_from(b, j, tv, macros_on, quotes_on, out + decode_utf8(b.subrange(i, j)))
    } else {
        proof {
            lemma_escape_step(b, i, tv, macros_on, quotes_on);
        }
        let st = escape_step(b, i, tv, macros_on, quotes_on);
        esc_from(b, i + st.2, st.1, macros_on, quotes_on, out + st.0)
    }
}

/// The buffer and token table after the escape pass over `s`.
pub open spec fn escaped_of(s: Seq<char>, tv: Seq<TokenView>, macros_on: bool, quotes_on: bool) -> (
    Seq<char>,
    Seq<TokenView>,
) {
    esc_from(vstd::utf8::encode_utf8(s), 0, tv, macros_on, quotes_on, Seq::empty())
}

// ---------------------------------------------------------------------------
// The pass
// ---------------------------------------------------------------------------

/// A one-character string.
fn char_string(c: char) -> (r: String)
    ensures
        r@ == seq![c],
{
    let mut v: Vec<char> = Vec::new();
    v.push(c);
    string_of(v.as_slice())
}

/// Append a token to the table; the text of its sentinel.
pub(crate) fn push_token(tags: &mut Vec<TagToken>, t: TagToken) -> (r: Vec<char>)
    ensures
        tokens_view(final(tags)@) == tokens_view(old(tags)@).push(token_view(t)),
        final(tags)@.len() == old(tags)@.len() + 1,
        r@ == sentinel_text(old(tags)@.len() as int),
{
    let idx = tags.len();
    let ghost tv = token_view(t);
    tags.push(t);
    proof {
        assert(tokens_view(tags@) =~= tokens_view(old(tags)@).push(tv));
    }
    let s = sentinel(idx);
    chars_of(s.as_str())
}

/// A `Macro` token standing for one `Text` event.
fn text_macro(t: &str) -> (r: TagToken)
    ensures
        token_view(r) == TokenView::Macro(seq![EventView::Text(t@)]),
{
    let mut v: Vec<InlineEvent> = Vec::new();
    v.push(InlineEvent::Text(t.to_owned()));
    proof {
        assert(events_view(v@) =~= seq![EventView::Text(t@)]);
    }
    TagToken::Macro(v)
}

/// `\((...))` escape whose backslash is at `i`, with macros on: the bytes
/// consumed and the events that stand for it.
pub fn index_escape(src: &str, bytes: &[u8], i: usize, macros_on: bool) -> (r: Option<
    (usize, Vec<InlineEvent>),
>)
    requires
        bytes@ == src.spec_bytes(),
        i < bytes@.len(),
    ensures
        match index_escape_of(bytes@, i as int, macros_on) {
            Some((c, evs)) => r matches Some((c2, v)) && c2 == c && events_view(v@) == evs,
            None => r is None,
        },
{
    let n = bytes.len();
    if !macros_on || !(n - i > 2 && bytes[i + 1] == LPAREN && bytes[i + 2] == LPAREN) {
        return None;
    }
    let ghost b = bytes@;
    let cs = i + 3;
    proof {
        encode_utf8_valid_utf8(src@);
        lemma_after_ascii_boundary(b, i + 2);
        lemma_ascii_boundary(b, n as int);
    }
    let rest = cut(src, cs, n);
    let c = match index_term_close(rest) {
        Some(c) => c,
        None => {
            return None;
        },
    };
    proof {
        lemma_index_close_bounds(b.subrange(cs as int, n as int));
    }
    let ghost content = b.subrange(cs as int, cs + c);
    let mut t = cs;
    while t < cs + c
        invariant
            cs <= t <= cs + c,
            cs + c + 2 <= n == b.len(),
            b == bytes@,
            content == b.subrange(cs as int, cs + c),
            macros_on,
            cs == i + 3,
            b[i + 1] == LPAREN && b[i + 2] == LPAREN,
            index_term_close_of(b.subrange(cs as int, n as int)) == Some(c as int),
            forall|x: int| cs <= x < t ==> b[x] != TAG_LEAD && b[x] != TAG_TAIL,
        decreases cs + c - t,
    {
        if bytes[t] == TAG_LEAD || bytes[t] == TAG_TAIL {
            assert(content[t - cs] == b[t as int]);
            assert(has_sentinel_byte(content));
            return None;
        }
        t += 1;
    }
    assert(!has_sentinel_byte(content)) by {
        assert forall|x: int| 0 <= x < content.len() implies content[x] != TAG_LEAD && content[x]
            != TAG_TAIL by {
            assert(content[x] == b[cs + x]);
        }
    }
    let mut v: Vec<InlineEvent> = Vec::new();
    if bytes[cs] == LPAREN && bytes[cs + c - 1] == RPAREN {
        proof {
            lemma_after_ascii_boundary(b, cs as int);
            lemma_ascii_boundary(b, cs + c - 1);
        }
        let inner = cut(src, cs + 1, cs + c - 1);
        v.push(InlineEvent::Text(char_string('(')));
        v.push(InlineEvent::IndexTerm(inner.to_owned()));
        v.push(InlineEvent::Text(char_string(')')));
        proof {
            assert(events_view(v@) =~= seq![
                EventView::Text(seq!['(']),
                EventView::IndexTerm(decode_utf8(b.subrange(cs + 1, cs + c - 1))),
                EventView::Text(seq![')']),
            ]);
        }
    } else {
        proof {
            lemma_ascii_boundary(b, i + 1);
            lemma_after_ascii_boundary(b, cs + c + 1);
        }
        let whole = cut(src, i + 1, cs + c + 2);
        v.push(InlineEvent::Text(whole.to_owned()));
        proof {
            assert(events_view(v@) =~= seq![
                EventView::Text(decode_utf8(b.subrange(i + 1, cs + c + 2))),
            ]);
        }
    }
    Some((c + 5, v))
}

/// One escape whose backslash is at `i`: the text it leaves and the bytes it
/// consumes; the tokens it seals are appended to `tags`.
fn escape_at(
    src: &str,
    bytes: &[u8],
    i: usize,
    tags: &mut Vec<TagToken>,
    macros_on: bool,
    quotes_on: bool,
) -> (r: (Vec<char>, usize))
    requires
        bytes@ == src.spec_bytes(),
        i < bytes@.len(),
        bytes@[i as int] == BACKSLASH,
    ensures
        ({
            let st = escape_step(bytes@, i as int, tokens_view(old(tags)@), macros_on, quotes_on);
            r.0@ == st.0 && tokens_view(final(tags)@) == st.1 && r.1 == st.2
        }),
{
    let n = bytes.len();
    let ghost b = bytes@;
    proof {
        encode_utf8_valid_utf8(src@);
        lemma_escape_step(b, i as int, tokens_view(tags@), macros_on, quotes_on);
    }
    if i + 1 >= n {
        let mut v: Vec<char> = Vec::new();
        v.push('\\');
        return (v, 1);
    }
    if bytes[i + 1] == BACKSLASH {
        match doubled_marker_escape(src, bytes, i, quotes_on) {
            Some((consumed, open, content, close)) => {
                let ghost k = tags@.len() as int;
                let ghost cp = doubled_marker_close_of(b, i as int, quotes_on)->0;
                let mut out = push_token(tags, text_macro(open));
                let ghost first = out@;
                let inner = chars_of(content);
                push_all(&mut out, inner.as_slice());
                let ghost mid = out@;
                assert(mid == first + decode_utf8(b.subrange(i + 4, cp)));
                assert(tags@.len() == k + 1);
                let tail = push_token(tags, text_macro(close));
                assert(tail@ == sentinel_text(k + 1));
                push_all(&mut out, tail.as_slice());
                assert(out@ == mid + sentinel_text(k + 1));
                return (out, consumed);
            },
            None => {
                let mut v: Vec<char> = Vec::new();
                v.push('\\');
                return (v, 1);
            },
        }
    }
    let m = bytes[i + 1];
    let plen = typographic_escape_len(bytes, i);
    let cref = if m == AMP {
        char_ref_len(bytes, i + 1)
    } else {
        0
    };
    let mlen = if macros_on {
        macro_escape_len(bytes, i + 1)
    } else {
        0
    };
    proof {
        lemma_after_ascii_boundary(b, i as int);
    }
    if plen > 0 {
        proof {
            lemma_after_ascii_boundary(b, i + plen);
        }
        let t = cut(src, i + 1, i + 1 + plen);
        let out = push_token(tags, TagToken::Literal(t.to_owned()));
        (out, 1 + plen)
    } else if mlen > 0 {
        proof {
            lemma_after_ascii_boundary(b, i + mlen);
        }
        let t = cut(src, i + 1, i + 1 + mlen);
        let out = push_token(tags, text_macro(t));
        (out, 1 + mlen)
    } else if cref > 0 {
        proof {
            lemma_after_ascii_boundary(b, i + cref);
        }
        let t = cut(src, i + 1, i + 1 + cref);
        let out = push_token(tags, TagToken::CharRef { text: t.to_owned(), raw: false });
        (out, 1 + cref)
    } else if (m == DQUOTE || m == SQUOTE) && i + 2 < n && bytes[i + 2] == BACKTICK {
        proof {
            lemma_after_ascii_boundary(b, i + 2);
        }
        let t = cut(src, i + 1, i + 3);
        let out = push_token(tags, TagToken::Literal(t.to_owned()));
        (out, 3)
    } else {
        match index_escape(src, bytes, i, macros_on) {
            Some((consumed, evs)) => {
                let out = push_token(tags, TagToken::Macro(evs));
                (out, consumed)
            },
            None => {
                if m == LBRACE || m == LBRACK || m == LT || m == SQUOTE {
                    let out = push_token(tags, TagToken::Literal(char_string(m as char)));
                    (out, 2)
                } else {
                    let mut v: Vec<char> = Vec::new();
                    v.push('\\');
                    (v, 1)
                }
            },
        }
    }
}

/// The backslash escape pass over the working buffer `buf`: the rewritten
/// buffer, with the tokens it seals appended to `tags`. Escaped macros and
/// index terms count only with `macros_on`, the doubled-marker escape only
/// with `quotes_on`.
pub fn escape_pass(buf: &str, tags: &mut Vec<TagToken>, macros_on: bool, quotes_on: bool) -> (r:
    String)
    ensures
        (r@, tokens_view(final(tags)@)) == escaped_of(
            buf@,
            tokens_view(old(tags)@),
            macros_on,
            quotes_on,
        ),
{
    let bytes = buf.as_bytes();
    let n = bytes.len();
    let ghost b = bytes@;
    let ghost goal = escaped_of(buf@, tokens_view(old(tags)@), macros_on, quotes_on);
    let mut out: Vec<char> = Vec::new();
    let mut i: usize = 0;
    proof {
        encode_utf8_valid_utf8(buf@);
        is_char_boundary_start_end_of_seq(b);
        assert(out@ =~= Seq::<char>::empty());
    }
    while i < n
        invariant
            b == bytes@,
            b == buf.spec_bytes(),
            n == b.len(),
            i <= n,
            valid_utf8(b),
            is_char_boundary(b, i as int),
            esc_from(b, i as int, tokens_view(tags@), macros_on, quotes_on, out@) == goal,
        decreases n - i,
    {
        if bytes[i] != BACKSLASH {
            proof {
                lemma_next_byte(b, BACKSLASH, i as int);
            }
            let mut j = i;
            while j < n && bytes[j] != BACKSLASH
                invariant
                    i <= j <= n == b.len(),
                    b == bytes@,
                    b[i as int] != BACKSLASH,
                    next_byte(b, BACKSLASH, i as int) == next_byte(b, BACKSLASH, j as int),
                decreases n - j,
            {
                j += 1;
            }
            proof {
                if j < n {
                    lemma_ascii_boundary(b, j as int);
                } else {
                    lemma_ascii_boundary(b, n as int);
                }
            }
            let piece = cut(buf, i, j);
            let pc = chars_of(piece);
            push_all(&mut out, pc.as_slice());
            i = j;
        } else {
            let (text, consumed) = escape_at(buf, bytes, i, tags, macros_on, quotes_on);
            proof {
                lemma_escape_step(b, i as int, tokens_view(old(tags)@), macros_on, quotes_on);
            }
            push_all(&mut out, text.as_slice());
            proof {
                lemma_after_ascii_boundary(b, i + consumed - 1);
            }
            i = i + consumed;
        }
    }
    string_of(out.as_slice())
}

proof fn lemma_escape_step_prefix(
    b: Seq<u8>,
    i: int,
    tv: Seq<TokenView>,
    macros_on: bool,
    quotes_on: bool,
)
    ensures
        table_prefix(tv, escape_step(b, i, tv, macros_on, quotes_on).1),
{
    lemma_table_prefix_refl(tv);
    let st = escape_step(b, i, tv, macros_on, quotes_on);
    if st.1.len() == tv.len() + 2 {
        let t1 = st.1.drop_last();
        assert(st.1 =~= t1.push(st.1.last()));
        assert(t1 =~= tv.push(t1.last()));
        lemma_table_prefix_push(tv, tv, t1.last());
        lemma_table_prefix_push(tv, t1, st.1.last());
    } else if st.1.len() == tv.len() + 1 {
        assert(st.1 =~= tv.push(st.1.last()));
        lemma_table_prefix_push(tv, tv, st.1.last());
    }
}

proof fn lemma_esc_from_prefix(
    b: Seq<u8>,
    i: int,
    tv: Seq<TokenView>,
    macros_on: bool,
    quotes_on: bool,
    out: Seq<char>,
)
    ensures
        table_prefix(tv, esc_from(b, i, tv, macros_on, quotes_on, out).1),
    decreases b.len() - i,
{
    lemma_table_prefix_refl(tv);
    if 0 <= i < b.len() {
        if b[i] != BACKSLASH {
            lemma_next_byte(b, BACKSLASH, i);
            let j = match next_byte(b, BACKSLASH, i) {
                Some(k) => k,
                None => b.len() as int,
            };
            lemma_esc_from_prefix(b, j, tv, macros_on, quotes_on, out + decode_utf8(b.subrange(i, j)));
        } else {
            lemma_escape_step(b, i, tv, macros_on, quotes_on);
            let st = escape_step(b, i, tv, macros_on, quotes_on);
            lemma_escape_step_prefix(b, i, tv, macros_on, quotes_on);
            lemma_esc_from_prefix(b, i + st.2, st.1, macros_on, quotes_on, out + st.0);
            lemma_table_prefix_trans(tv, st.1, esc_from(b, i + st.2, st.1, macros_on, quotes_on, out + st.0).1);
        }
    }
}

/// The escape pass only appends to the token table: the tokens that were
/// there before keep their places, so the sentinels already in the buffer
/// still name the same tokens.
pub proof fn law_escape_keeps_earlier_tokens(
    s: Seq<char>,
    tv: Seq<TokenView>,
    macros_on: bool,
    quotes_on: bool,
)
    ensures
        table_prefix(tv, escaped_of(s, tv, macros_on, quotes_on).1),
{
    lemma_esc_from_prefix(vstd::utf8::encode_utf8(s), 0, tv, macros_on, quotes_on, Seq::empty());
}

proof fn lemma_no_macro_name(t: Seq<char>, p: int, k: int)
    requires
        0 <= p < t.len(),
        !('a' <= t[p] <= 'z'),
        0 <= k,
    ensures
        crate::subst::macro_name_from(t, p, k) is None,
    decreases 12 - k,
{
    if k < 12 {
        let nm = crate::subst::macro_escape_names()[k];
        assert(nm.len() > 0 && 'a' <= nm[0] <= 'z') by {
            assert(k == 0 || k == 1 || k == 2 || k == 3 || k == 4 || k == 5 || k == 6 || k == 7
                || k == 8 || k == 9 || k == 10 || k == 11);
        }
        if crate::text::match_at(t, nm, p) {
            assert(t.subrange(p, p + nm.len())[0] == t[p]);
        }
        lemma_no_macro_name(t, p, k + 1);
    }
}

/// An escaped `{` or `[`, or an escaped `<` that starts no `<-` or `<=`,
/// drops its backslash: the character becomes a `Literal` token of its own,
/// whose sentinel replaces the two bytes; the tokens already there keep
/// their places.
pub proof fn law_escaped_bracket_is_literal(
    b: Seq<u8>,
    i: int,
    tv: Seq<TokenView>,
    macros_on: bool,
    quotes_on: bool,
)
    requires
        0 <= i,
        i + 1 < b.len(),
        b[i] == BACKSLASH,
        b[i + 1] == LBRACE || b[i + 1] == LBRACK || (b[i + 1] == LT && !(i + 2 < b.len() && (b[i
            + 2] == 0x2D || b[i + 2] == 0x3D))),
    ensures
        escape_step(b, i, tv, macros_on, quotes_on) == (
            sentinel_text(tv.len() as int),
            tv.push(TokenView::Literal(seq![b[i + 1] as char])),
            2int,
        ),
{
    if macros_on {
        lemma_no_macro_name(byte_text(b), i + 1, 0);
    }
}

} // verus!
