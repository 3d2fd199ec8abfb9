//! The tokenizer and the backslash escape pass.

use adoc_parser::escape::{escape_pass, index_escape};
use adoc_parser::subst::PassPiece;
use adoc_parser::tokens::{tokenize, InlineEvent, SpanKind, TagToken};

fn text(s: &str) -> InlineEvent {
    InlineEvent::Text(s.to_string())
}

fn sen(i: usize) -> String {
    format!("\u{1}{}\u{2}", i)
}

fn open(kind: SpanKind) -> TagToken {
    TagToken::Open { kind, id: None, roles: Vec::new() }
}

fn start(kind: SpanKind) -> InlineEvent {
    InlineEvent::Start { kind, id: None, roles: Vec::new() }
}

fn macro_text(s: &str) -> TagToken {
    TagToken::Macro(vec![text(s)])
}

#[test]
fn plain_buffer_is_one_text_event() {
    assert_eq!(tokenize("hello world", &[]), vec![text("hello world")]);
    assert_eq!(tokenize("", &[]), Vec::<InlineEvent>::new());
}

#[test]
fn open_and_close_sentinels_become_span_events() {
    let buf = format!("a{}b{}c", sen(0), sen(1));
    let tags = vec![
        TagToken::Open {
            kind: SpanKind::Strong,
            id: Some("x".to_string()),
            roles: vec!["r".to_string()],
        },
        TagToken::Close(SpanKind::Strong),
    ];
    assert_eq!(
        tokenize(&buf, &tags),
        vec![
            text("a"),
            InlineEvent::Start {
                kind: SpanKind::Strong,
                id: Some("x".to_string()),
                roles: vec!["r".to_string()],
            },
            text("b"),
            InlineEvent::End(SpanKind::Strong),
            text("c"),
        ]
    );
}

#[test]
fn spans_follow_sentinel_order_without_balancing() {
    let buf = format!("{}a{}b{}", sen(1), sen(0), sen(2));
    let tags = vec![
        open(SpanKind::Emphasis),
        TagToken::Close(SpanKind::Strong),
        TagToken::Close(SpanKind::Monospace),
    ];
    assert_eq!(
        tokenize(&buf, &tags),
        vec![
            InlineEvent::End(SpanKind::Strong),
            text("a"),
            start(SpanKind::Emphasis),
            text("b"),
            InlineEvent::End(SpanKind::Monospace),
        ]
    );
}

#[test]
fn literal_joins_the_following_run() {
    let buf = format!("x{}y z", sen(0));
    let tags = vec![TagToken::Literal("{".to_string())];
    assert_eq!(tokenize(&buf, &tags), vec![text("x"), text("{y z")]);
    let buf = format!("{}{}", sen(0), sen(0));
    assert_eq!(tokenize(&buf, &tags), vec![text("{"), text("{")]);
}

#[test]
fn leaf_tokens_become_their_events() {
    let buf = format!("{}{}{}{}{}{}{}", sen(0), sen(1), sen(2), sen(3), sen(4), sen(5), sen(6));
    let tags = vec![
        TagToken::HardBreak,
        TagToken::Passthrough(vec![
            PassPiece { text: "<b>".to_string(), raw: true },
            PassPiece { text: "x".to_string(), raw: false },
        ]),
        TagToken::AttrRef { name: "n".to_string(), trailing_brackets: Some("[t]".to_string()) },
        TagToken::AttrSet { name: "k".to_string(), value: "v".to_string() },
        TagToken::SmartQuote { text: "\u{201c}", opening: true },
        TagToken::CharRef { text: "&#167;".to_string(), raw: true },
        TagToken::CharRef { text: "&amp;".to_string(), raw: false },
    ];
    assert_eq!(
        tokenize(&buf, &tags),
        vec![
            InlineEvent::HardBreak,
            InlineEvent::InlinePassthrough("<b>".to_string()),
            text("x"),
            InlineEvent::AttributeReference {
                name: "n".to_string(),
                trailing_brackets: Some("[t]".to_string()),
            },
            InlineEvent::Attribute { name: "k".to_string(), value: "v".to_string() },
            text("\u{201c}"),
            InlineEvent::InlinePassthrough("&#167;".to_string()),
            text("&amp;"),
        ]
    );
}

#[test]
fn macro_token_gives_its_events_and_their_spans() {
    let buf = format!("see {} now", sen(0));
    let tags = vec![TagToken::Macro(vec![
        start(SpanKind::InlineSpan),
        text("label"),
        InlineEvent::End(SpanKind::InlineSpan),
        InlineEvent::IndexTerm("t".to_string()),
    ])];
    assert_eq!(
        tokenize(&buf, &tags),
        vec![
            text("see "),
            start(SpanKind::InlineSpan),
            text("label"),
            InlineEvent::End(SpanKind::InlineSpan),
            InlineEvent::IndexTerm("t".to_string()),
            text(" now"),
        ]
    );
}

#[test]
fn unknown_index_only_ends_the_run() {
    let buf = format!("a{}b", sen(7));
    assert_eq!(tokenize(&buf, &[TagToken::HardBreak]), vec![text("a"), text("b")]);
}

#[test]
fn multi_digit_index() {
    let mut tags: Vec<TagToken> = (0..12).map(|_| TagToken::HardBreak).collect();
    tags.push(TagToken::Close(SpanKind::Subscript));
    let buf = format!("é{}ü", sen(12));
    assert_eq!(
        tokenize(&buf, &tags),
        vec![text("é"), InlineEvent::End(SpanKind::Subscript), text("ü")]
    );
}

#[test]
fn escape_single_characters_become_literals() {
    let mut tags = Vec::new();
    let out = escape_pass("a \\{name} \\[x] \\<y \\'z", &mut tags, true, true);
    assert_eq!(out, format!("a {}name}} {}x] {}y {}z", sen(0), sen(1), sen(2), sen(3)));
    assert_eq!(
        tags,
        vec![
            TagToken::Literal("{".to_string()),
            TagToken::Literal("[".to_string()),
            TagToken::Literal("<".to_string()),
            TagToken::Literal("'".to_string()),
        ]
    );
    assert_eq!(tokenize(&out, &tags)[1], text("{name} "));
}

#[test]
fn escape_typographic_patterns() {
    let mut tags = Vec::new();
    let out = escape_pass("\\-- \\-> \\... \\(C) \\(TM)", &mut tags, false, false);
    assert_eq!(out, format!("{} {} {} {} {}", sen(0), sen(1), sen(2), sen(3), sen(4)));
    assert_eq!(
        tags,
        vec![
            TagToken::Literal("--".to_string()),
            TagToken::Literal("->".to_string()),
            TagToken::Literal("...".to_string()),
            TagToken::Literal("(C)".to_string()),
            TagToken::Literal("(TM)".to_string()),
        ]
    );
}

#[test]
fn escape_inline_macro_only_with_macros_on() {
    let mut tags = Vec::new();
    let out = escape_pass("\\link:u[t] more", &mut tags, true, false);
    assert_eq!(out, format!("{} more", sen(0)));
    assert_eq!(tags, vec![macro_text("link:u[t]")]);
    let mut tags = Vec::new();
    let out = escape_pass("\\link:u[t] more", &mut tags, false, false);
    assert_eq!(out, "\\link:u[t] more");
    assert!(tags.is_empty());
    let mut tags = Vec::new();
    let out = escape_pass("\\image::a.png[]", &mut tags, true, false);
    assert_eq!(out, "\\image::a.png[]");
    assert!(tags.is_empty());
}

#[test]
fn escape_character_reference_and_quote_opener() {
    let mut tags = Vec::new();
    let out = escape_pass("\\&#174; \\\"`x", &mut tags, false, false);
    assert_eq!(out, format!("{} {}x", sen(0), sen(1)));
    assert_eq!(
        tags,
        vec![
            TagToken::CharRef { text: "&#174;".to_string(), raw: false },
            TagToken::Literal("\"`".to_string()),
        ]
    );
}

#[test]
fn escape_index_terms() {
    let mut tags = Vec::new();
    let out = escape_pass("a \\((term)) b \\(((flow)))", &mut tags, true, false);
    assert_eq!(out, format!("a {} b {}", sen(0), sen(1)));
    assert_eq!(
        tags,
        vec![
            macro_text("((term))"),
            TagToken::Macro(vec![
                text("("),
                InlineEvent::IndexTerm("flow".to_string()),
                text(")"),
            ]),
        ]
    );
    let mut tags = Vec::new();
    assert_eq!(escape_pass("\\((term))", &mut tags, false, false), "\\((term))");
    assert!(tags.is_empty());
}

#[test]
fn index_escape_declines_sentinels_and_open_terms() {
    let s = "\\((a\u{1}0\u{2}))";
    assert_eq!(index_escape(s, s.as_bytes(), 0, true), None);
    let s = "\\((open";
    assert_eq!(index_escape(s, s.as_bytes(), 0, true), None);
    let s = "\\((x)))";
    assert_eq!(index_escape(s, s.as_bytes(), 0, true), Some((7, vec![text("((x)))")])));
}

#[test]
fn escape_doubled_marker_pair() {
    let mut tags = Vec::new();
    let out = escape_pass("\\\\__func__ x", &mut tags, false, true);
    assert_eq!(out, format!("{}func{} x", sen(0), sen(1)));
    assert_eq!(tags, vec![macro_text("__"), macro_text("__")]);
    let mut tags = Vec::new();
    assert_eq!(escape_pass("\\\\__func__", &mut tags, false, false), "\\\\__func__");
    assert!(tags.is_empty());
}

#[test]
fn other_backslashes_stay() {
    let mut tags = Vec::new();
    assert_eq!(escape_pass("\\*bold* \\\\x a\\", &mut tags, true, true), "\\*bold* \\\\x a\\");
    assert!(tags.is_empty());
    assert_eq!(escape_pass("\\\\&#174;", &mut tags, true, true), format!("\\{}", sen(0)));
}

#[test]
fn escape_keeps_multibyte_text_and_numbers_after_existing_tags() {
    let mut tags = vec![TagToken::HardBreak, TagToken::HardBreak];
    let out = escape_pass("é\\[ü", &mut tags, true, true);
    assert_eq!(out, format!("é{}ü", sen(2)));
    assert_eq!(tags[2], TagToken::Literal("[".to_string()));
    assert_eq!(&tags[..2], &[TagToken::HardBreak, TagToken::HardBreak]);
    assert_eq!(tokenize(&out, &tags), vec![text("é"), text("[ü")]);
}
