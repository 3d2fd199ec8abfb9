//! Attribute extraction, character references, hard breaks and the source
//! text of sealed tokens.

use adoc_parser::passes::{
    attrlist_constrained, attrlist_unconstrained, autolink_extent, char_refs_pass, constrained_open_close,
    extract_attributes, hard_breaks_pass, pass_constrained, pass_unconstrained,
};
use adoc_parser::subst::PassPiece;
use adoc_parser::tokens::{desentinelize, tokenize, InlineEvent, SpanKind, TagToken};

fn sen(i: usize) -> String {
    format!("\u{1}{}\u{2}", i)
}

fn char_ref(t: &str, raw: bool) -> TagToken {
    TagToken::CharRef { text: t.to_string(), raw }
}

#[test]
fn valid_character_references_are_sealed_raw() {
    let mut tags = Vec::new();
    let out = char_refs_pass("a &#167; &bogus &copy; &#x2026; & &#1;", &mut tags);
    assert_eq!(out, format!("a {} &bogus {} {} & &#1;", sen(0), sen(1), sen(2)));
    assert_eq!(
        tags,
        vec![char_ref("&#167;", true), char_ref("&copy;", true), char_ref("&#x2026;", true)]
    );
    assert_eq!(
        tokenize(&out, &tags)[1],
        InlineEvent::InlinePassthrough("&#167;".to_string())
    );
}

#[test]
fn character_reference_pass_skips_sentinels() {
    let mut tags = vec![TagToken::HardBreak];
    let out = char_refs_pass(&format!("é{}&amp;", sen(0)), &mut tags);
    assert_eq!(out, format!("é{}{}", sen(0), sen(1)));
    assert_eq!(tags[1], char_ref("&amp;", true));
    assert_eq!(tags[0], TagToken::HardBreak);
}

#[test]
fn hard_breaks_at_line_ends_and_buffer_end() {
    let mut tags = Vec::new();
    let out = hard_breaks_pass("a +\nb +", &mut tags);
    assert_eq!(out, format!("a{}b{}", sen(0), sen(1)));
    assert_eq!(tags, vec![TagToken::HardBreak, TagToken::HardBreak]);
    assert_eq!(
        tokenize(&out, &tags),
        vec![
            InlineEvent::Text("a".to_string()),
            InlineEvent::HardBreak,
            InlineEvent::Text("b".to_string()),
            InlineEvent::HardBreak,
        ]
    );
}

#[test]
fn plus_inside_a_line_or_before_a_sentinel_stays() {
    let mut tags = vec![TagToken::Close(SpanKind::Strong)];
    let buf = format!("x + y {}*z +{}", "é", sen(0));
    let out = hard_breaks_pass(&buf, &mut tags);
    assert_eq!(out, buf);
    assert_eq!(tags.len(), 1);
    let mut tags = Vec::new();
    assert_eq!(hard_breaks_pass(" +x\n +", &mut tags), format!(" +x\n{}", sen(0)));
}

#[test]
fn attribute_references_and_assignments_are_sealed() {
    let mut tags = Vec::new();
    let out = extract_attributes(
        "see {name} and {set:k:v}{set:x!} {bad name} {url}/p[t] {n!}",
        &mut tags,
    );
    assert_eq!(
        out,
        format!("see {} and {}{} {{bad name}} {} {{n!}}", sen(0), sen(1), sen(2), sen(3))
    );
    assert_eq!(
        tags,
        vec![
            TagToken::AttrRef { name: "name".to_string(), trailing_brackets: None },
            TagToken::AttrSet { name: "k".to_string(), value: "v".to_string() },
            TagToken::AttrSet { name: "!x".to_string(), value: String::new() },
            TagToken::AttrRef {
                name: "url".to_string(),
                trailing_brackets: Some("/p[t]".to_string()),
            },
        ]
    );
}

#[test]
fn trailing_text_carries_source_of_its_sentinels() {
    let mut tags = vec![TagToken::Literal("...".to_string())];
    let out = extract_attributes(&format!("{{url}}[a{}b] x", sen(0)), &mut tags);
    assert_eq!(out, format!("{} x", sen(1)));
    assert_eq!(
        tags[1],
        TagToken::AttrRef { name: "url".to_string(), trailing_brackets: Some("[a...b]".to_string()) }
    );
}

#[test]
fn desentinelize_restores_leaf_source_text() {
    let tags = vec![
        TagToken::AttrRef { name: "role".to_string(), trailing_brackets: Some("[x]".to_string()) },
        TagToken::Literal("{".to_string()),
        TagToken::CharRef { text: "&#167;".to_string(), raw: false },
        TagToken::SmartQuote { text: "\u{2019}", opening: false },
        TagToken::Passthrough(vec![
            PassPiece { text: "a".to_string(), raw: true },
            PassPiece { text: "b".to_string(), raw: false },
        ]),
        TagToken::AttrSet { name: "k".to_string(), value: "v".to_string() },
        TagToken::AttrSet { name: "!k".to_string(), value: String::new() },
        TagToken::Open { kind: SpanKind::Strong, id: None, roles: Vec::new() },
        TagToken::HardBreak,
    ];
    let s: String = (0..9).map(sen).collect::<Vec<_>>().join("|");
    assert_eq!(
        desentinelize(&tags, &s),
        "{role}[x]|{|&#167;|\u{2019}|ab|{set:k:v}|{set:k!}||"
    );
    assert_eq!(desentinelize(&tags, "plain é"), "plain é");
    assert_eq!(desentinelize(&tags, &format!("a{}", sen(99))), "a");
    assert_eq!(desentinelize(&tags, "a\u{1}1"), "a{");
}

fn open_tok(kind: SpanKind, roles: &[&str]) -> TagToken {
    TagToken::Open { kind, id: None, roles: roles.iter().map(|r| r.to_string()).collect() }
}

#[test]
fn unconstrained_pairs_become_spans() {
    let mut tags = Vec::new();
    let out = pass_unconstrained("a**b**c **", &mut tags, b'*', SpanKind::Strong, SpanKind::InlineSpan);
    assert_eq!(out, format!("a{}b{}c **", sen(0), sen(1)));
    assert_eq!(tags, vec![open_tok(SpanKind::Strong, &[]), TagToken::Close(SpanKind::Strong)]);
    let mut tags = Vec::new();
    assert_eq!(pass_unconstrained("****", &mut tags, b'*', SpanKind::Strong, SpanKind::Strong), "****");
    assert!(tags.is_empty());
}

#[test]
fn unconstrained_span_with_attribute_list() {
    let mut tags = Vec::new();
    let out = pass_unconstrained("x[.role]##y##z", &mut tags, b'#', SpanKind::Highlight, SpanKind::InlineSpan);
    assert_eq!(out, format!("x{}y{}z", sen(0), sen(1)));
    assert_eq!(
        tags,
        vec![open_tok(SpanKind::InlineSpan, &["role"]), TagToken::Close(SpanKind::InlineSpan)]
    );
    let mut tags = vec![TagToken::AttrRef { name: "r".to_string(), trailing_brackets: None }];
    let out = pass_unconstrained(&format!("[{}]__é__", sen(0)), &mut tags, b'_', SpanKind::Emphasis, SpanKind::Emphasis);
    assert_eq!(out, format!("{}é{}", sen(1), sen(2)));
    assert_eq!(tags[1], open_tok(SpanKind::Emphasis, &["{r}"]));
}

#[test]
fn unconstrained_spans_step_over_sentinels() {
    let mut tags = vec![TagToken::HardBreak];
    let buf = format!("**a{}b**", sen(0));
    let out = pass_unconstrained(&buf, &mut tags, b'*', SpanKind::Strong, SpanKind::Strong);
    assert_eq!(out, format!("{}a{}b{}", sen(1), sen(0), sen(2)));
    let s = "[x]**";
    assert_eq!(attrlist_unconstrained(&[], s, s.as_bytes(), 0, b'*'), None);
    let s = "[#i.r]``c``";
    assert_eq!(
        attrlist_unconstrained(&[], s, s.as_bytes(), 0, b'`'),
        Some((Some("i".to_string()), vec!["r".to_string()], 8, 9))
    );
}

#[test]
fn constrained_pairs_need_word_boundaries() {
    let mut tags = Vec::new();
    let out = pass_constrained("a *b c* d*e* *f *", &mut tags, b'*', SpanKind::Strong, SpanKind::InlineSpan);
    assert_eq!(out, format!("a {}b c{} d*e* *f *", sen(0), sen(1)));
    assert_eq!(tags, vec![open_tok(SpanKind::Strong, &[]), TagToken::Close(SpanKind::Strong)]);
}

#[test]
fn escaped_constrained_marker() {
    let mut tags = Vec::new();
    assert_eq!(
        pass_constrained("\\*bold* and \\* not", &mut tags, b'*', SpanKind::Strong, SpanKind::Strong),
        "*bold* and \\* not"
    );
    assert!(tags.is_empty());
}

#[test]
fn constrained_span_with_attribute_list() {
    let mut tags = Vec::new();
    let out = pass_constrained("see [.r]_x y_.", &mut tags, b'_', SpanKind::Emphasis, SpanKind::InlineSpan);
    assert_eq!(out, format!("see {}x y{}.", sen(0), sen(1)));
    assert_eq!(tags[0], open_tok(SpanKind::InlineSpan, &["r"]));
    let s = "[.r]_ x_";
    assert_eq!(attrlist_constrained(&[], s, s.as_bytes(), 0, b'_'), None);
}

#[test]
fn no_constrained_span_right_after_an_opening_smart_quote() {
    let buf = format!("{}`x`", sen(0));
    let mut tags = vec![TagToken::SmartQuote { text: "\u{201c}", opening: true }];
    assert_eq!(
        pass_constrained(&buf, &mut tags, b'`', SpanKind::Monospace, SpanKind::Monospace),
        buf
    );
    assert_eq!(constrained_open_close(&tags, buf.as_bytes(), 3, b'`'), None);
    let mut tags = vec![TagToken::SmartQuote { text: "\u{201d}", opening: false }];
    assert_eq!(constrained_open_close(&tags, buf.as_bytes(), 3, b'`'), Some(5));
    let out = pass_constrained(&buf, &mut tags, b'`', SpanKind::Monospace, SpanKind::Monospace);
    assert_eq!(out, format!("{}{}x{}", sen(0), sen(1), sen(2)));
}

#[test]
fn autolink_extent_sheds_trailing_punctuation_of_bare_urls() {
    let s = "see https://example.org/a. more";
    assert_eq!(autolink_extent(s, 4, s.len()), Some((21, false)));
    let s = "https://a.org)))";
    assert_eq!(autolink_extent(s, 0, s.len()), Some((13, false)));
    let s = "https://......";
    assert_eq!(autolink_extent(s, 0, s.len()), Some((8, false)));
}

#[test]
fn autolink_extent_keeps_punctuation_before_a_label() {
    let s = "https://x.org.[label] x";
    assert_eq!(autolink_extent(s, 0, s.len()), Some((14, false)));
    let s = "https://x.org.[label";
    assert_eq!(autolink_extent(s, 0, s.len()), Some((13, false)));
}

#[test]
fn autolink_extent_of_angle_bracketed_url() {
    let s = "<https://a.org/b.> x";
    assert_eq!(autolink_extent(s, 1, s.len()), Some((16, true)));
    let s = "<https://a.org/b more";
    assert_eq!(autolink_extent(s, 1, s.len()), None);
    let s = "<https://a.org[t]>";
    assert_eq!(autolink_extent(s, 1, s.len()), Some((13, false)));
}

#[test]
fn autolink_extent_stops_at_limit_and_unicode_space() {
    let s = "`https://a.org/x` y";
    assert_eq!(autolink_extent(s, 1, 16), Some((15, false)));
    let s = "https://a.org/x\u{3000}y";
    assert_eq!(autolink_extent(s, 0, s.len()), Some((15, false)));
    let s = "https://a.org/x\u{a0}y";
    assert_eq!(autolink_extent(s, 0, s.len()), Some((15, false)));
    let s = "https://é.org";
    assert_eq!(autolink_extent(s, 0, s.len()), Some((14, false)));
    let s = "http://a b";
    assert_eq!(autolink_extent(s, 0, s.len()), None);
}
