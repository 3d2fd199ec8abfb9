//! The inline event stream and the tokenizer that reads it out of a working
//! buffer.
//!
//! The inline passes rewrite a paragraph into a buffer in which every
//! extracted construct is a sentinel `'\u{1}' <decimal index> '\u{2}'`; the
//! index points into a side table of [`TagToken`]s. [`tokenize`] walks the
//! finished buffer and turns each sentinel into the events of its token and
//! each literal run into a `Text` event, without balancing: `Start` and `End`
//! events come out strictly in the order of their sentinels.

use vstd::prelude::*;
use crate::subst::{opt_string_view, pieces_view, strings_view, PassPiece};
use crate::text::{all_digits, chars_of, digits_value, is_digit, push_all, string_of};

verus! {

/// The kind of inline formatting span a sentinel opens or closes.
#[derive(Clone, Copy, Debug, PartialEq, Eq, Structural)]
pub enum SpanKind {
    Strong,
    Emphasis,
    Monospace,
    Highlight,
    Superscript,
    Subscript,
    InlineSpan,
}

/// One inline event.
#[derive(Clone, Debug, PartialEq, Eq)]
pub enum InlineEvent {
    Start { kind: SpanKind, id: Option<String>, roles: Vec<String> },
    End(SpanKind),
    Text(String),
    HardBreak,
    InlinePassthrough(String),
    AttributeReference { name: String, trailing_brackets: Option<String> },
    Attribute { name: String, value: String },
    IndexTerm(String),
}

/// A deferred construct, referenced by a sentinel's index.
#[derive(Debug, PartialEq, Eq)]
pub enum TagToken {
    Open { kind: SpanKind, id: Option<String>, roles: Vec<String> },
    Close(SpanKind),
    /// A standalone hard line break.
    HardBreak,
    /// An extracted passthrough, restored as one event per piece.
    Passthrough(Vec<PassPiece>),
    /// An attribute reference `{name}`, left for the renderer to resolve.
    AttrRef { name: String, trailing_brackets: Option<String> },
    /// An inline attribute assignment.
    AttrSet { name: String, value: String },
    /// A curved quote character; `opening` marks a left quote.
    SmartQuote { text: &'static str, opening: bool },
    /// A backslash-escaped literal: unlike every other token it does not make
    /// an event of its own but starts the next run of text.
    Literal(String),
    /// A character reference: passed through verbatim when `raw`, else text.
    CharRef { text: String, raw: bool },
    /// A complete inline macro, as the events it stands for.
    Macro(Vec<InlineEvent>),
}

/// The value of an [`InlineEvent`].
pub ghost enum EventView {
    Start { kind: SpanKind, id: Option<Seq<char>>, roles: Seq<Seq<char>> },
    End(SpanKind),
    Text(Seq<char>),
    HardBreak,
    InlinePassthrough(Seq<char>),
    AttributeReference { name: Seq<char>, trailing_brackets: Option<Seq<char>> },
    Attribute { name: Seq<char>, value: Seq<char> },
    IndexTerm(Seq<char>),
}

/// The value of a [`TagToken`].
pub ghost enum TokenView {
    Open { kind: SpanKind, id: Option<Seq<char>>, roles: Seq<Seq<char>> },
    Close(SpanKind),
    HardBreak,
    Passthrough(Seq<(Seq<char>, bool)>),
    AttrRef { name: Seq<char>, trailing_brackets: Option<Seq<char>> },
    AttrSet { name: Seq<char>, value: Seq<char> },
    SmartQuote { text: Seq<char>, opening: bool },
    Literal(Seq<char>),
    CharRef { text: Seq<char>, raw: bool },
    Macro(Seq<EventView>),
}

pub open spec fn event_view(e: InlineEvent) -> EventView {
    match e {
        InlineEvent::Start { kind, id, roles } => EventView::Start {
            kind,
            id: opt_string_view(id),
            roles: strings_view(roles@),
        },
        InlineEvent::End(k) => EventView::End(k),
        InlineEvent::Text(t) => EventView::Text(t@),
        InlineEvent::HardBreak => EventView::HardBreak,
        InlineEvent::InlinePassthrough(t) => EventView::InlinePassthrough(t@),
        InlineEvent::AttributeReference { name, trailing_brackets } =>
            EventView::AttributeReference {
            name: name@,
            trailing_brackets: opt_string_view(trailing_brackets),
        },
        InlineEvent::Attribute { name, value } => EventView::Attribute {
            name: name@,
            value: value@,
        },
        InlineEvent::IndexTerm(t) => EventView::IndexTerm(t@),
    }
}

pub open spec fn events_view(v: Seq<InlineEvent>) -> Seq<EventView> {
    v.map_values(|e: InlineEvent| event_view(e))
}

pub open spec fn token_view(t: TagToken) -> TokenView {
    match t {
        TagToken::Open { kind, id, roles } => TokenView::Open {
            kind,
            id: opt_string_view(id),
            roles: strings_view(roles@),
        },
        TagToken::Close(k) => TokenView::Close(k),
        TagToken::HardBreak => TokenView::HardBreak,
        TagToken::Passthrough(ps) => TokenView::Passthrough(pieces_view(ps@)),
        TagToken::AttrRef { name, trailing_brackets } => TokenView::AttrRef {
            name: name@,
            trailing_brackets: opt_string_view(trailing_brackets),
        },
        TagToken::AttrSet { name, value } => TokenView::AttrSet { name: name@, value: value@ },
        TagToken::SmartQuote { text, opening } => TokenView::SmartQuote { text: text@, opening },
        TagToken::Literal(t) => TokenView::Literal(t@),
        TagToken::CharRef { text, raw } => TokenView::CharRef { text: text@, raw },
        TagToken::Macro(es) => TokenView::Macro(events_view(es@)),
    }
}

pub open spec fn tokens_view(v: Seq<TagToken>) -> Seq<TokenView> {
    v.map_values(|t: TagToken| token_view(t))
}

// ---------------------------------------------------------------------------
// The event stream of a buffer
// ---------------------------------------------------------------------------

/// The pending run of text, if any, as a `Text` event.
pub open spec fn flush(evs: Seq<EventView>, pending: Seq<char>) -> Seq<EventView> {
    if pending.len() == 0 {
        evs
    } else {
        evs.push(EventView::Text(pending))
    }
}

/// A passthrough piece or character reference: verbatim when raw, else text.
pub open spec fn piece_event(p: (Seq<char>, bool)) -> EventView {
    if p.1 {
        EventView::InlinePassthrough(p.0)
    } else {
        EventView::Text(p.0)
    }
}

/// The token a sentinel index names, if the table holds one.
pub open spec fn token_at(tv: Seq<TokenView>, idx: int) -> Option<TokenView> {
    if 0 <= idx < tv.len() {
        Some(tv[idx])
    } else {
        None
    }
}

/// The effect of one sentinel on the pending text and the events: a literal
/// flushes the run before it and starts the next one; every other token
/// flushes the run and adds its events; an index with no token only flushes.
pub open spec fn apply_token(t: Option<TokenView>, pending: Seq<char>, evs: Seq<EventView>) -> (
    Seq<char>,
    Seq<EventView>,
) {
    let f = flush(evs, pending);
    match t {
        None => (Seq::empty(), f),
        Some(TokenView::Literal(s)) => (s, f),
        Some(TokenView::Open { kind, id, roles }) => (
            Seq::empty(),
            f.push(EventView::Start { kind, id, roles }),
        ),
        Some(TokenView::Close(k)) => (Seq::empty(), f.push(EventView::End(k))),
        Some(TokenView::HardBreak) => (Seq::empty(), f.push(EventView::HardBreak)),
        Some(TokenView::Passthrough(ps)) => (
            Seq::empty(),
            f + ps.map_values(|p: (Seq<char>, bool)| piece_event(p)),
        ),
        Some(TokenView::AttrRef { name, trailing_brackets }) => (
            Seq::empty(),
            f.push(EventView::AttributeReference { name, trailing_brackets }),
        ),
        Some(TokenView::AttrSet { name, value }) => (
            Seq::empty(),
            f.push(EventView::Attribute { name, value }),
        ),
        Some(TokenView::SmartQuote { text, opening }) => (
            Seq::empty(),
            f.push(EventView::Text(text)),
        ),
        Some(TokenView::CharRef { text, raw }) => (Seq::empty(), f.push(piece_event((text, raw)))),
        Some(TokenView::Macro(es)) => (Seq::empty(), f + es),
    }
}

/// First index at or after `j` holding the sentinel's closing `'\u{2}'`.
pub open spec fn tail_from(s: Seq<char>, j: int) -> Option<int>
    decreases s.len() - j,
{
    if j < 0 || j >= s.len() {
        None
    } else if s[j] == '\u{2}' {
        Some(j)
    } else {
        tail_from(s, j + 1)
    }
}

pub proof fn lemma_tail_from(s: Seq<char>, j: int)
    requires
        0 <= j,
    ensures
        tail_from(s, j) matches Some(t) ==> j <= t < s.len() && s[t] == '\u{2}' && forall|k: int|
            j <= k < t ==> s[k] != '\u{2}',
        tail_from(s, j) is None ==> forall|k: int| j <= k < s.len() ==> s[k] != '\u{2}',
    decreases s.len() - j,
{
    if j < s.len() && s[j] != '\u{2}' {
        lemma_tail_from(s, j + 1);
    }
}

/// Every `'\u{1}'` opens a sentinel: a `'\u{2}'` follows it, with only ASCII
/// digits between, whose value fits in a `usize`.
pub open spec fn sentinels_ok(s: Seq<char>) -> bool {
    forall|i: int|
        0 <= i < s.len() && #[trigger] s[i] == '\u{1}' ==> (tail_from(s, i + 1) matches Some(t)
            && all_digits(s.subrange(i + 1, t)) && digits_value(s.subrange(i + 1, t))
            <= usize::MAX)
}

/// The events of `s[i..]`, given the pending text and the events so far.
pub open spec fn tok_from(
    s: Seq<char>,
    tv: Seq<TokenView>,
    i: int,
    pending: Seq<char>,
    evs: Seq<EventView>,
) -> Seq<EventView>
    decreases s.len() - i,
{
    if i < 0 || i >= s.len() {
        flush(evs, pending)
    } else if s[i] == '\u{1}' {
        match tail_from(s, i + 1) {
            Some(t) => {
                proof {
                    lemma_tail_from(s, i + 1);
                }
                let st = apply_token(
                    token_at(tv, digits_value(s.subrange(i + 1, t))),
                    pending,
                    evs,
                );
                tok_from(s, tv, t + 1, st.0, st.1)
            },
            None => flush(evs, pending),
        }
    } else {
        tok_from(s, tv, i + 1, pending.push(s[i]), evs)
    }
}

/// The event stream of the working buffer `s` whose sentinels index `tv`.
pub open spec fn events_of(s: Seq<char>, tv: Seq<TokenView>) -> Seq<EventView> {
    tok_from(s, tv, 0, Seq::empty(), Seq::empty())
}

// ---------------------------------------------------------------------------
// Copies
// ---------------------------------------------------------------------------

pub fn clone_opt_string(o: &Option<String>) -> (r: Option<String>)
    ensures
        opt_string_view(r) == opt_string_view(*o),
{
    match o {
        Some(s) => Some(s.clone()),
        None => None,
    }
}

pub fn clone_strings(v: &Vec<String>) -> (r: Vec<String>)
    ensures
        strings_view(r@) == strings_view(v@),
{
    let mut r: Vec<String> = Vec::new();
    let mut k: usize = 0;
    while k < v.len()
        invariant
            k <= v@.len(),
            strings_view(r@) == strings_view(v@.take(k as int)),
        decreases v@.len() - k,
    {
        let s = v[k].clone();
        let ghost r0 = r@;
        r.push(s);
        k += 1;
        proof {
            assert(v@.take(k as int) =~= v@.take(k - 1).push(v@[k - 1]));
            assert(r@ =~= r0.push(v@[k - 1]));
            assert(strings_view(r0.push(v@[k - 1])) =~= strings_view(r0).push(v@[k - 1]@));
            assert(strings_view(v@.take(k - 1).push(v@[k - 1])) =~= strings_view(v@.take(k - 1)).push(
                v@[k - 1]@,
            ));
        }
    }
    assert(v@.take(v@.len() as int) =~= v@);
    r
}

pub fn clone_event(e: &InlineEvent) -> (r: InlineEvent)
    ensures
        event_view(r) == event_view(*e),
{
    match e {
        InlineEvent::Start { kind, id, roles } => InlineEvent::Start {
            kind: *kind,
            id: clone_opt_string(id),
            roles: clone_strings(roles),
        },
        InlineEvent::End(k) => InlineEvent::End(*k),
        InlineEvent::Text(t) => InlineEvent::Text(t.clone()),
        InlineEvent::HardBreak => InlineEvent::HardBreak,
        InlineEvent::InlinePassthrough(t) => InlineEvent::InlinePassthrough(t.clone()),
        InlineEvent::AttributeReference { name, trailing_brackets } =>
            InlineEvent::AttributeReference {
            name: name.clone(),
            trailing_brackets: clone_opt_string(trailing_brackets),
        },
        InlineEvent::Attribute { name, value } => InlineEvent::Attribute {
            name: name.clone(),
            value: value.clone(),
        },
        InlineEvent::IndexTerm(t) => InlineEvent::IndexTerm(t.clone()),
    }
}

// ---------------------------------------------------------------------------
// Tokenizer
// ---------------------------------------------------------------------------

fn push_event(events: &mut Vec<InlineEvent>, e: InlineEvent)
    ensures
        events_view(final(events)@) == events_view(old(events)@).push(event_view(e)),
{
    events.push(e);
    proof {
        assert(events_view(events@) =~= events_view(old(events)@).push(event_view(e)));
    }
}

/// Emit the pending run of text as one `Text` event, if it is not empty.
fn flush_pending(events: &mut Vec<InlineEvent>, pending: &mut Vec<char>)
    ensures
        events_view(final(events)@) == flush(events_view(old(events)@), old(pending)@),
        final(pending)@ == Seq::<char>::empty(),
{
    if pending.len() > 0 {
        let t = string_of(pending.as_slice());
        push_event(events, InlineEvent::Text(t));
    }
    *pending = Vec::new();
}

/// Apply the token a sentinel names to the pending text and the events.
fn apply_sentinel(
    events: &mut Vec<InlineEvent>,
    pending: &mut Vec<char>,
    tags: &[TagToken],
    idx: usize,
)
    ensures
        (final(pending)@, events_view(final(events)@)) == apply_token(
            token_at(tokens_view(tags@), idx as int),
            old(pending)@,
            events_view(old(events)@),
        ),
{
    flush_pending(events, pending);
    if idx >= tags.len() {
        return ;
    }
    let ghost f = events_view(events@);
    match &tags[idx] {
        TagToken::Literal(t) => {
            let c = chars_of(t.as_str());
            push_all(pending, c.as_slice());
        },
        TagToken::Open { kind, id, roles } => {
            let e = InlineEvent::Start {
                kind: *kind,
                id: clone_opt_string(id),
                roles: clone_strings(roles),
            };
            push_event(events, e);
        },
        TagToken::Close(k) => {
            push_event(events, InlineEvent::End(*k));
        },
        TagToken::HardBreak => {
            push_event(events, InlineEvent::HardBreak);
        },
        TagToken::Passthrough(ps) => {
            let ghost pv = pieces_view(ps@);
            let mut k: usize = 0;
            while k < ps.len()
                invariant
                    k <= ps@.len(),
                    pv == pieces_view(ps@),
                    events_view(events@) == f + pv.take(k as int).map_values(
                        |p: (Seq<char>, bool)| piece_event(p),
                    ),
                decreases ps@.len() - k,
            {
                let text = ps[k].text.clone();
                let e = if ps[k].raw {
                    InlineEvent::InlinePassthrough(text)
                } else {
                    InlineEvent::Text(text)
                };
                push_event(events, e);
                k += 1;
                proof {
                    assert(pv.take(k as int).map_values(|p: (Seq<char>, bool)| piece_event(p))
                        =~= pv.take(k - 1).map_values(|p: (Seq<char>, bool)| piece_event(p)).push(
                        piece_event(pv[k - 1]),
                    ));
                }
            }
            assert(pv.take(ps@.len() as int) =~= pv);
        },
        TagToken::AttrRef { name, trailing_brackets } => {
            let e = InlineEvent::AttributeReference {
                name: name.clone(),
                trailing_brackets: clone_opt_string(trailing_brackets),
            };
            push_event(events, e);
        },
        TagToken::AttrSet { name, value } => {
            let e = InlineEvent::Attribute { name: name.clone(), value: value.clone() };
            push_event(events, e);
        },
        TagToken::SmartQuote { text, opening } => {
            let t = string_of(chars_of(*text).as_slice());
            push_event(events, InlineEvent::Text(t));
        },
        TagToken::CharRef { text, raw } => {
            let t = text.clone();
            let e = if *raw {
                InlineEvent::InlinePassthrough(t)
            } else {
                InlineEvent::Text(t)
            };
            push_event(events, e);
        },
        TagToken::Macro(es) => {
            let ghost ev = events_view(es@);
            let mut k: usize = 0;
            while k < es.len()
                invariant
                    k <= es@.len(),
                    ev == events_view(es@),
                    events_view(events@) == f + ev.take(k as int),
                decreases es@.len() - k,
            {
                let e = clone_event(&es[k]);
                push_event(events, e);
                k += 1;
                proof {
                    assert(ev.take(k as int) =~= ev.take(k - 1).push(ev[k - 1]));
                }
            }
            assert(ev.take(es@.len() as int) =~= ev);
        },
    }
}

proof fn lemma_digits_prefix(d: Seq<char>, k: int)
    requires
        0 <= k <= d.len(),
        all_digits(d),
    ensures
        0 <= digits_value(d.take(k)) <= digits_value(d),
    decreases d.len(),
{
    if d.len() > 0 {
        assert(all_digits(d.drop_last()));
        assert(is_digit(d[d.len() - 1]));
        if k == d.len() {
            assert(d.take(k) =~= d);
            lemma_digits_prefix(d.drop_last(), k - 1);
            assert(d.drop_last().take(k - 1) =~= d.drop_last());
        } else {
            lemma_digits_prefix(d.drop_last(), k);
            assert(d.drop_last().take(k) =~= d.take(k));
            lemma_digits_prefix(d.drop_last(), d.len() - 1);
            assert(d.drop_last().take(d.len() - 1) =~= d.drop_last());
        }
    }
}

/// The event stream of a finished working buffer: each sentinel becomes the
/// events of the token it indexes, in the order of the sentinels and without
/// balancing, and each literal run becomes a `Text` event; a `Literal` token
/// joins the run that follows it.
pub fn tokenize(buf: &str, tags: &[TagToken]) -> (r: Vec<InlineEvent>)
    requires
        sentinels_ok(buf@),
    ensures
        events_view(r@) == events_of(buf@, tokens_view(tags@)),
{
    let s = chars_of(buf);
    let n = s.len();
    let ghost tv = tokens_view(tags@);
    let mut events: Vec<InlineEvent> = Vec::new();
    let mut pending: Vec<char> = Vec::new();
    let mut i: usize = 0;
    assert(events_view(events@) =~= Seq::<EventView>::empty());
    assert(pending@ =~= Seq::<char>::empty());
    while i < n
        invariant
            s@ == buf@,
            n == s@.len(),
            i <= n,
            sentinels_ok(s@),
            tv == tokens_view(tags@),
            tok_from(s@, tv, i as int, pending@, events_view(events@)) == events_of(s@, tv),
        decreases n - i,
    {
        if s[i] == '\u{1}' {
            let ghost t = tail_from(s@, i + 1)->0;
            proof {
                lemma_tail_from(s@, i + 1);
            }
            let ghost d = s@.subrange(i + 1, t);
            let mut j = i + 1;
            let mut idx: usize = 0;
            while j < n && s[j] != '\u{2}'
                invariant
                    i + 1 <= j <= t < n == s@.len(),
                    s@[t] == '\u{2}',
                    forall|k: int| i + 1 <= k < t ==> s@[k] != '\u{2}',
                    d == s@.subrange(i + 1, t),
                    all_digits(d),
                    digits_value(d) <= usize::MAX,
                    idx == digits_value(d.take(j - (i + 1))),
                decreases t - j,
            {
                proof {
                    lemma_digits_prefix(d, j - i);
                    assert(d.take(j - i).drop_last() =~= d.take(j - (i + 1)));
                    assert(d.take(j - i).last() == s@[j as int]);
                    assert(is_digit(d[j - (i + 1)]));
                }
                let c = s[j] as u32;
                idx = idx * 10 + (c - 48) as usize;
                j += 1;
            }
            assert(d.take(d.len() as int) =~= d);
            apply_sentinel(&mut events, &mut pending, tags, idx);
            i = j + 1;
        } else {
            pending.push(s[i]);
            i += 1;
        }
    }
    flush_pending(&mut events, &mut pending);
    events
}

// ---------------------------------------------------------------------------
// Source text of sealed tokens
// ---------------------------------------------------------------------------

/// The texts of passthrough pieces, joined.
pub open spec fn pieces_text(ps: Seq<(Seq<char>, bool)>) -> Seq<char>
    decreases ps.len(),
{
    if ps.len() == 0 {
        Seq::empty()
    } else {
        pieces_text(ps.drop_last()) + ps.last().0
    }
}

/// The source text a leaf token stands for: `{name}` and its trailing
/// brackets for a reference, `{set:name:value}` (or `{set:name!}`) for an
/// assignment, the text of a literal, character reference, smart quote or
/// passthrough; nothing for a span tag, a break, a macro or a missing token.
pub open spec fn token_source(t: Option<TokenView>) -> Seq<char> {
    match t {
        Some(TokenView::AttrRef { name, trailing_brackets }) => seq!['{'] + name + seq!['}']
            + match trailing_brackets {
            Some(x) => x,
            None => Seq::empty(),
        },
        Some(TokenView::Literal(x)) => x,
        Some(TokenView::CharRef { text, raw }) => text,
        Some(TokenView::SmartQuote { text, opening }) => text,
        Some(TokenView::Passthrough(ps)) => pieces_text(ps),
        Some(TokenView::AttrSet { name, value }) => seq!['{', 's', 'e', 't', ':'] + (if name.len()
            > 0 && name[0] == '!' {
            name.drop_first() + seq!['!']
        } else {
            name + seq![':'] + value
        }) + seq!['}'],
        _ => Seq::empty(),
    }
}

/// Where the index digits of a sentinel opened at `i` end: at its
/// `'\u{2}'`, or at the end of the text when none follows.
pub open spec fn index_end(s: Seq<char>, i: int) -> int {
    match tail_from(s, i + 1) {
        Some(t) => t,
        None => s.len() as int,
    }
}

/// Every `'\u{1}'` is followed by ASCII digits, up to a `'\u{2}'` or the end,
/// whose value fits in a `usize`.
pub open spec fn lone_sentinels_ok(s: Seq<char>) -> bool {
    forall|i: int|
        0 <= i < s.len() && #[trigger] s[i] == '\u{1}' ==> all_digits(
            s.subrange(i + 1, index_end(s, i)),
        ) && digits_value(s.subrange(i + 1, index_end(s, i))) <= usize::MAX
}

/// `s[i..]` with each sentinel replaced by the source text of its token.
pub open spec fn desentinel_from(s: Seq<char>, tv: Seq<TokenView>, i: int, out: Seq<char>) -> Seq<
    char,
>
    decreases s.len() - i,
{
    if i < 0 || i >= s.len() {
        out
    } else if s[i] == '\u{1}' {
        proof {
            lemma_tail_from(s, i + 1);
            assert(index_end(s, i) >= i + 1);
        }
        let e = index_end(s, i);
        let o = out + token_source(token_at(tv, digits_value(s.subrange(i + 1, e))));
        if e >= s.len() {
            o
        } else {
            desentinel_from(s, tv, e + 1, o)
        }
    } else {
        desentinel_from(s, tv, i + 1, out.push(s[i]))
    }
}

pub open spec fn desentinel_of(s: Seq<char>, tv: Seq<TokenView>) -> Seq<char> {
    desentinel_from(s, tv, 0, Seq::empty())
}

fn push_str(out: &mut Vec<char>, t: &str)
    ensures
        final(out)@ == old(out)@ + t@,
{
    let c = chars_of(t);
    push_all(out, c.as_slice());
}

/// Append the source text of the token at `idx`.
fn push_token_source(out: &mut Vec<char>, tags: &[TagToken], idx: usize)
    ensures
        final(out)@ == old(out)@ + token_source(token_at(tokens_view(tags@), idx as int)),
{
    if idx >= tags.len() {
        assert(old(out)@ + Seq::<char>::empty() =~= old(out)@);
        return ;
    }
    let ghost o = out@;
    match &tags[idx] {
        TagToken::AttrRef { name, trailing_brackets } => {
            out.push('{');
            push_str(out, name.as_str());
            out.push('}');
            match trailing_brackets {
                Some(t) => push_str(out, t.as_str()),
                None => {},
            }
            assert(out@ =~= o + token_source(token_at(tokens_view(tags@), idx as int)));
        },
        TagToken::Literal(t) => push_str(out, t.as_str()),
        TagToken::CharRef { text, raw } => push_str(out, text.as_str()),
        TagToken::SmartQuote { text, opening } => push_str(out, *text),
        TagToken::Passthrough(ps) => {
            let ghost pv = pieces_view(ps@);
            let mut k: usize = 0;
            while k < ps.len()
                invariant
                    k <= ps@.len(),
                    pv == pieces_view(ps@),
                    out@ == o + pieces_text(pv.take(k as int)),
                decreases ps@.len() - k,
            {
                push_str(out, ps[k].text.as_str());
                k += 1;
                proof {
                    assert(pv.take(k as int).drop_last() =~= pv.take(k - 1));
                }
            }
            assert(pv.take(ps@.len() as int) =~= pv);
        },
        TagToken::AttrSet { name, value } => {
            push_str(out, "{set:");
            proof {
                reveal_strlit("{set:");
            }
            let nc = chars_of(name.as_str());
            if nc.len() > 0 && nc[0] == '!' {
                let mut k: usize = 1;
                while k < nc.len()
                    invariant
                        1 <= k <= nc@.len(),
                        nc@ == name@,
                        out@ == o + seq!['{', 's', 'e', 't', ':'] + nc@.subrange(1, k as int),
                    decreases nc@.len() - k,
                {
                    out.push(nc[k]);
                    k += 1;
                }
                out.push('!');
                assert(nc@.subrange(1, nc@.len() as int) =~= nc@.drop_first());
            } else {
                push_all(out, nc.as_slice());
                out.push(':');
                push_str(out, value.as_str());
            }
            out.push('}');
            assert(out@ =~= o + token_source(token_at(tokens_view(tags@), idx as int)));
        },
        _ => {
            assert(o + Seq::<char>::empty() =~= o);
        },
    }
}

/// Replace each sentinel of `s` with the source text of the token it
/// indexes; span tags, breaks and macros leave nothing.
pub fn desentinelize(tags: &[TagToken], s: &str) -> (r: String)
    requires
        lone_sentinels_ok(s@),
    ensures
        r@ == desentinel_of(s@, tokens_view(tags@)),
{
    let c = chars_of(s);
    let n = c.len();
    let ghost tv = tokens_view(tags@);
    let mut out: Vec<char> = Vec::new();
    let mut i: usize = 0;
    assert(out@ =~= Seq::<char>::empty());
    while i < n
        invariant
            c@ == s@,
            n == c@.len(),
            i <= n,
            lone_sentinels_ok(c@),
            tv == tokens_view(tags@),
            desentinel_from(c@, tv, i as int, out@) == desentinel_of(c@, tv),
        decreases n - i,
    {
        if c[i] == '\u{1}' {
            proof {
                lemma_tail_from(c@, i + 1);
            }
            let ghost e = index_end(c@, i as int);
            let ghost d = c@.subrange(i + 1, e);
            let mut j = i + 1;
            let mut idx: usize = 0;
            while j < n && c[j] != '\u{2}'
                invariant
                    i + 1 <= j <= e <= n == c@.len(),
                    e == index_end(c@, i as int),
                    e < n ==> c@[e] == '\u{2}',
                    forall|k: int| i + 1 <= k < e ==> c@[k] != '\u{2}',
                    d == c@.subrange(i + 1, e),
                    all_digits(d),
                    digits_value(d) <= usize::MAX,
                    idx == digits_value(d.take(j - (i + 1))),
                decreases e - j,
            {
                proof {
                    lemma_digits_prefix(d, j - i);
                    assert(d.take(j - i).drop_last() =~= d.take(j - (i + 1)));
                    assert(d.take(j - i).last() == c@[j as int]);
                    assert(is_digit(d[j - (i + 1)]));
                }
                let ch = c[j] as u32;
                idx = idx * 10 + (ch - 48) as usize;
                j += 1;
            }
            assert(d.take(d.len() as int) =~= d);
            push_token_source(&mut out, tags, idx);
            i = if j < n {
                j + 1
            } else {
                j
            };
        } else {
            out.push(c[i]);
            i += 1;
        }
    }
    string_of(out.as_slice())
}

// ---------------------------------------------------------------------------
// Token tables only grow
// ---------------------------------------------------------------------------

/// `p` is the start of `t`.
pub open spec fn table_prefix(p: Seq<TokenView>, t: Seq<TokenView>) -> bool {
    p.len() <= t.len() && t.take(p.len() as int) == p
}

pub proof fn lemma_table_prefix_push(p: Seq<TokenView>, t: Seq<TokenView>, x: TokenView)
    requires
        table_prefix(p, t),
    ensures
        table_prefix(p, t.push(x)),
{
    assert(t.push(x).take(p.len() as int) =~= t.take(p.len() as int));
}

pub proof fn lemma_table_prefix_trans(p: Seq<TokenView>, q: Seq<TokenView>, t: Seq<TokenView>)
    requires
        table_prefix(p, q),
        table_prefix(q, t),
    ensures
        table_prefix(p, t),
{
    assert(t.take(p.len() as int) =~= q.take(p.len() as int));
}

pub proof fn lemma_table_prefix_refl(p: Seq<TokenView>)
    ensures
        table_prefix(p, p),
{
    assert(p.take(p.len() as int) =~= p);
}

// ---------------------------------------------------------------------------
// Span order
// ---------------------------------------------------------------------------

/// The span opening (`true`) or closing (`false`) that an event marks.
pub open spec fn mark_of(e: EventView) -> Seq<(bool, SpanKind)> {
    match e {
        EventView::Start { kind, .. } => seq![(true, kind)],
        EventView::End(k) => seq![(false, k)],
        _ => Seq::empty(),
    }
}

/// The span openings and closings of an event stream, in order.
pub open spec fn event_marks(evs: Seq<EventView>) -> Seq<(bool, SpanKind)>
    decreases evs.len(),
{
    if evs.len() == 0 {
        Seq::empty()
    } else {
        event_marks(evs.drop_last()) + mark_of(evs.last())
    }
}

/// The span openings and closings a token stands for: an open or close tag
/// one, a macro those of its events, anything else none.
pub open spec fn token_marks(t: Option<TokenView>) -> Seq<(bool, SpanKind)> {
    match t {
        Some(TokenView::Open { kind, .. }) => seq![(true, kind)],
        Some(TokenView::Close(k)) => seq![(false, k)],
        Some(TokenView::Macro(es)) => event_marks(es),
        _ => Seq::empty(),
    }
}

/// The token marks of the sentinels of `s[i..]`, in the order of the
/// sentinels.
pub open spec fn sentinel_marks(s: Seq<char>, tv: Seq<TokenView>, i: int) -> Seq<(bool, SpanKind)>
    decreases s.len() - i,
{
    if i < 0 || i >= s.len() {
        Seq::empty()
    } else if s[i] == '\u{1}' {
        match tail_from(s, i + 1) {
            Some(t) => {
                proof {
                    lemma_tail_from(s, i + 1);
                }
                token_marks(token_at(tv, digits_value(s.subrange(i + 1, t)))) + sentinel_marks(
                    s,
                    tv,
                    t + 1,
                )
            },
            None => Seq::empty(),
        }
    } else {
        sentinel_marks(s, tv, i + 1)
    }
}

proof fn lemma_marks_push(evs: Seq<EventView>, e: EventView)
    ensures
        event_marks(evs.push(e)) == event_marks(evs) + mark_of(e),
{
    assert(evs.push(e).drop_last() =~= evs);
}

proof fn lemma_marks_concat(a: Seq<EventView>, b: Seq<EventView>)
    ensures
        event_marks(a + b) == event_marks(a) + event_marks(b),
    decreases b.len(),
{
    if b.len() == 0 {
        assert(a + b =~= a);
        assert(event_marks(a) + event_marks(b) =~= event_marks(a));
    } else {
        lemma_marks_concat(a, b.drop_last());
        assert((a + b).drop_last() =~= a + b.drop_last());
        assert((a + b).last() == b.last());
        assert(event_marks(a + b) =~= event_marks(a) + event_marks(b));
    }
}

proof fn lemma_marks_pieces(ps: Seq<(Seq<char>, bool)>)
    ensures
        event_marks(ps.map_values(|p: (Seq<char>, bool)| piece_event(p))) == Seq::<
            (bool, SpanKind),
        >::empty(),
    decreases ps.len(),
{
    let m = ps.map_values(|p: (Seq<char>, bool)| piece_event(p));
    if ps.len() > 0 {
        lemma_marks_pieces(ps.drop_last());
        assert(m.drop_last() =~= ps.drop_last().map_values(
            |p: (Seq<char>, bool)| piece_event(p),
        ));
        assert(mark_of(m.last()) =~= Seq::<(bool, SpanKind)>::empty());
        assert(event_marks(m) =~= Seq::<(bool, SpanKind)>::empty());
    }
}

proof fn lemma_marks_flush(evs: Seq<EventView>, p: Seq<char>)
    ensures
        event_marks(flush(evs, p)) == event_marks(evs),
{
    if p.len() > 0 {
        lemma_marks_push(evs, EventView::Text(p));
        assert(event_marks(evs) + mark_of(EventView::Text(p)) =~= event_marks(evs));
    }
}

proof fn lemma_marks_apply(t: Option<TokenView>, p: Seq<char>, evs: Seq<EventView>)
    ensures
        event_marks(apply_token(t, p, evs).1) == event_marks(evs) + token_marks(t),
{
    let f = flush(evs, p);
    lemma_marks_flush(evs, p);
    match t {
        Some(TokenView::Open { kind, id, roles }) => {
            lemma_marks_push(f, EventView::Start { kind, id, roles });
        },
        Some(TokenView::Close(k)) => {
            lemma_marks_push(f, EventView::End(k));
        },
        Some(TokenView::HardBreak) => {
            lemma_marks_push(f, EventView::HardBreak);
            assert(event_marks(f) + mark_of(EventView::HardBreak) =~= event_marks(f));
        },
        Some(TokenView::Passthrough(ps)) => {
            lemma_marks_concat(f, ps.map_values(|q: (Seq<char>, bool)| piece_event(q)));
            lemma_marks_pieces(ps);
            assert(event_marks(f) + Seq::<(bool, SpanKind)>::empty() =~= event_marks(f));
        },
        Some(TokenView::AttrRef { name, trailing_brackets }) => {
            let e = EventView::AttributeReference { name, trailing_brackets };
            lemma_marks_push(f, e);
            assert(event_marks(f) + mark_of(e) =~= event_marks(f));
        },
        Some(TokenView::AttrSet { name, value }) => {
            let e = EventView::Attribute { name, value };
            lemma_marks_push(f, e);
            assert(event_marks(f) + mark_of(e) =~= event_marks(f));
        },
        Some(TokenView::SmartQuote { text, opening }) => {
            lemma_marks_push(f, EventView::Text(text));
            assert(event_marks(f) + mark_of(EventView::Text(text)) =~= event_marks(f));
        },
        Some(TokenView::CharRef { text, raw }) => {
            let e = piece_event((text, raw));
            lemma_marks_push(f, e);
            assert(event_marks(f) + mark_of(e) =~= event_marks(f));
        },
        Some(TokenView::Macro(es)) => {
            lemma_marks_concat(f, es);
        },
        _ => {
            assert(event_marks(evs) + token_marks(t) =~= event_marks(evs));
        },
    }
}

proof fn lemma_marks_from(
    s: Seq<char>,
    tv: Seq<TokenView>,
    i: int,
    p: Seq<char>,
    evs: Seq<EventView>,
)
    requires
        0 <= i,
    ensures
        event_marks(tok_from(s, tv, i, p, evs)) == event_marks(evs) + sentinel_marks(s, tv, i),
    decreases s.len() - i,
{
    if i >= s.len() {
        lemma_marks_flush(evs, p);
        assert(event_marks(evs) + sentinel_marks(s, tv, i) =~= event_marks(evs));
    } else if s[i] == '\u{1}' {
        lemma_tail_from(s, i + 1);
        match tail_from(s, i + 1) {
            Some(t) => {
                let tok = token_at(tv, digits_value(s.subrange(i + 1, t)));
                let st = apply_token(tok, p, evs);
                lemma_marks_apply(tok, p, evs);
                lemma_marks_from(s, tv, t + 1, st.0, st.1);
                assert(event_marks(evs) + token_marks(tok) + sentinel_marks(s, tv, t + 1)
                    =~= event_marks(evs) + (token_marks(tok) + sentinel_marks(s, tv, t + 1)));
            },
            None => {
                lemma_marks_flush(evs, p);
                assert(event_marks(evs) + sentinel_marks(s, tv, i) =~= event_marks(evs));
            },
        }
    } else {
        lemma_marks_from(s, tv, i + 1, p.push(s[i]), evs);
    }
}

/// Spans are not balanced: the `Start` and `End` events of the stream come
/// out exactly in the order of the sentinels that stand for them, each open
/// or close tag giving one and each macro the spans of its own events.
pub proof fn law_span_events_in_sentinel_order(s: Seq<char>, tv: Seq<TokenView>)
    ensures
        event_marks(events_of(s, tv)) == sentinel_marks(s, tv, 0),
{
    lemma_marks_from(s, tv, 0, Seq::empty(), Seq::empty());
    assert(event_marks(Seq::<EventView>::empty()) + sentinel_marks(s, tv, 0) =~= sentinel_marks(
        s,
        tv,
        0,
    ));
}

} // verus!
