//! Byte-level scanners of the inline substitution passes.

use adoc_parser::subst::{
    at_autolink_boundary, char_ref_len, compat_open_boundary, constrained_close_ok,
    doubled_marker_escape, find_attr_close, find_closing_constrained, find_closing_unconstrained,
    find_compat_curved_close, find_valid_close_constrained, has_spaced_gt, index_term_close,
    is_valid_attr_name, is_word, itoa, macro_escape_len, parse_attrs, parse_shorthand,
    pass_escape_prefix_len, quoted_menu_span_end, scheme_at, sentinel, sentinel_end,
    sentinel_index_before, simple_pair_open_close, try_attr, try_double_plus, try_pass_macro,
    try_set, try_triple_plus, typographic_escape_len,
    utf8_char_len, xref_target_start_ok, Extracted, PassPiece,
};

fn sv(v: &[&str]) -> Vec<String> {
    v.iter().map(|s| s.to_string()).collect()
}

#[test]
fn utf8_lengths_by_leading_byte() {
    assert_eq!(utf8_char_len(b'a'), 1);
    assert_eq!(utf8_char_len("é".as_bytes()[0]), 2);
    assert_eq!(utf8_char_len("€".as_bytes()[0]), 3);
    assert_eq!(utf8_char_len("😀".as_bytes()[0]), 4);
    // A stray continuation byte counts as 4.
    assert_eq!(utf8_char_len(0x80), 4);
}

#[test]
fn word_bytes() {
    assert!(is_word(b'a') && is_word(b'Z') && is_word(b'7') && is_word(b'_'));
    assert!(!is_word(b'-') && !is_word(b' ') && !is_word(0x01));
}

#[test]
fn sentinel_text_and_end() {
    assert_eq!(itoa(0), "0");
    assert_eq!(itoa(1234), "1234");
    let s = sentinel(12);
    assert_eq!(s, "\u{1}12\u{2}");
    let buf = format!("a{}b", s);
    assert_eq!(sentinel_end(buf.as_bytes(), 1), 5);
    // A malformed sentinel with no tail runs to the end.
    assert_eq!(sentinel_end(b"\x0134", 0), 3);
}

#[test]
fn sentinel_index_read_back() {
    let buf = format!("x{}*", sentinel(42));
    assert_eq!(sentinel_index_before(buf.as_bytes(), 5), Some(42));
    // Not directly after a sentinel.
    assert_eq!(sentinel_index_before(buf.as_bytes(), 6), None);
    assert_eq!(sentinel_index_before(b"ab", 2), None);
    // An empty digit run is malformed.
    assert_eq!(sentinel_index_before(b"\x01\x02", 2), None);
    // A non-digit between lead and tail is malformed.
    assert_eq!(sentinel_index_before(b"\x011a\x02", 4), None);
    assert_eq!(sentinel_index_before(b"", 0), None);
}

#[test]
fn constrained_close_skips_doubled_and_sentinels() {
    // `*a*`: content starts at 1, the close is at 2.
    assert_eq!(find_closing_constrained(b"*a*", b'*', 1), Some(2));
    // The first of a doubled marker is no close.
    assert_eq!(find_closing_constrained(b"*a**b*", b'*', 1), Some(3));
    // A marker inside a sentinel is skipped.
    let buf = b"*a\x01*\x02b*";
    assert_eq!(find_closing_constrained(buf, b'*', 1), Some(6));
    // Empty content never closes at the start.
    assert_eq!(find_closing_constrained(b"**", b'*', 1), None);
}

#[test]
fn valid_close_absorbs_invalid_candidates() {
    // `*a *b*`: the `*` after a space cannot close; the next one does.
    assert_eq!(find_valid_close_constrained(b"*a *b*", b'*', 1, true), Some(5));
    // `*a*b`: a word byte after the only candidate.
    assert_eq!(find_valid_close_constrained(b"*a*b", b'*', 1, true), None);
    // Monospace forbids a quote after the close.
    assert_eq!(find_valid_close_constrained(b"`a`'", b'`', 1, true), None);
    assert_eq!(find_valid_close_constrained(b"`a`'", b'`', 1, false), Some(2));
}

#[test]
fn close_side_checks() {
    assert!(constrained_close_ok(b"*ab*", b'*', 1, 3, true));
    assert!(!constrained_close_ok(b"*ab*", b'*', 3, 3, true));
    assert!(!constrained_close_ok(b"*a *", b'*', 1, 3, true));
    assert!(!constrained_close_ok(b"*ab*c", b'*', 1, 3, true));
    assert!(constrained_close_ok(b"*ab*.", b'*', 1, 3, true));
}

#[test]
fn unconstrained_close_finds_pair() {
    assert_eq!(find_closing_unconstrained(b"**ab**", b'*', 2), Some(4));
    assert_eq!(find_closing_unconstrained(b"**ab*", b'*', 2), None);
    assert_eq!(find_closing_unconstrained(b"__a\x01__\x02b__", b'_', 2), Some(8));
}

#[test]
fn simple_pair_needs_content() {
    assert_eq!(simple_pair_open_close(b"^2^", 0, b'^'), Some(2));
    assert_eq!(simple_pair_open_close(b"^^x^", 0, b'^'), Some(3));
    assert_eq!(simple_pair_open_close(b"~a", 0, b'~'), None);
}

#[test]
fn attrlist_close_stops_at_newline() {
    assert_eq!(find_attr_close(b"[.role]x", 0), Some(6));
    assert_eq!(find_attr_close(b"[.ro\nle]x", 0), None);
    assert_eq!(find_attr_close(b"[abc", 0), None);
}

#[test]
fn curved_quote_boundaries() {
    assert!(compat_open_boundary(b"\"`a`\"", 0));
    assert!(compat_open_boundary(b" \"`a`\"", 1));
    assert!(!compat_open_boundary(b"x\"`a`\"", 1));
    assert!(!compat_open_boundary(b";\"`a`\"", 1));
    // `"`word`"`: content starts at 2, close `` `" `` at 6.
    assert_eq!(find_compat_curved_close(b"\"`word`\"", 2, b"`\""), Some(6));
    // A close after a space does not count.
    assert_eq!(find_compat_curved_close(b"\"`a `\"", 2, b"`\""), None);
    // A close followed by a word byte does not count.
    assert_eq!(find_compat_curved_close(b"\"`a`\"b", 2, b"`\""), None);
    // Multibyte content is stepped over whole.
    let s = "\"`é`\"";
    assert_eq!(find_compat_curved_close(s.as_bytes(), 2, b"`\""), Some(4));
}

#[test]
fn character_reference_lengths() {
    assert_eq!(char_ref_len(b"&amp;", 0), 5);
    assert_eq!(char_ref_len(b"x&#169;", 1), 6);
    assert_eq!(char_ref_len(b"&#x2014;", 0), 8);
    assert_eq!(char_ref_len(b"&#X2F;", 0), 6);
    // Named: letters then at most two digits.
    assert_eq!(char_ref_len(b"&frac12;", 0), 8);
    assert_eq!(char_ref_len(b"&frac123;", 0), 0);
    // Too short or unterminated.
    assert_eq!(char_ref_len(b"&a;", 0), 0);
    assert_eq!(char_ref_len(b"&#1;", 0), 0);
    assert_eq!(char_ref_len(b"&#1234567;", 0), 0);
    assert_eq!(char_ref_len(b"&#x1;", 0), 0);
    assert_eq!(char_ref_len(b"&amp", 0), 0);
    assert_eq!(char_ref_len(b"amp;", 0), 0);
    assert_eq!(char_ref_len(b"&amp;", 9), 0);
}

#[test]
fn typographic_escape_patterns() {
    assert_eq!(typographic_escape_len(b"\\-- x", 0), 2);
    assert_eq!(typographic_escape_len(b"\\--", 0), 2);
    assert_eq!(typographic_escape_len(b"a\\--b", 1), 2);
    assert_eq!(typographic_escape_len(b"\\--b", 0), 0);
    assert_eq!(typographic_escape_len(b"\\->", 0), 2);
    assert_eq!(typographic_escape_len(b"\\=>", 0), 2);
    assert_eq!(typographic_escape_len(b"\\<-", 0), 2);
    assert_eq!(typographic_escape_len(b"\\<=", 0), 2);
    assert_eq!(typographic_escape_len(b"\\...", 0), 3);
    assert_eq!(typographic_escape_len(b"\\(C)", 0), 3);
    assert_eq!(typographic_escape_len(b"\\(R)", 0), 3);
    assert_eq!(typographic_escape_len(b"\\(TM)", 0), 4);
    assert_eq!(typographic_escape_len(b"\\(X)", 0), 0);
    assert_eq!(typographic_escape_len(b"\\", 0), 0);
}

#[test]
fn escaped_inline_macro_lengths() {
    // `\link:url[text]`: from `l` through `]`.
    assert_eq!(macro_escape_len(b"\\link:url[text]", 1), 14);
    assert_eq!(macro_escape_len(b"\\indexterm2:[a]", 1), 14);
    // Block form is not escaped inline.
    assert_eq!(macro_escape_len(b"\\image::a.png[]", 1), 0);
    // A space in the target stops it before any `[`.
    assert_eq!(macro_escape_len(b"\\link:a b[x]", 1), 0);
    // No closing bracket.
    assert_eq!(macro_escape_len(b"\\xref:a[b", 1), 0);
    // A sentinel in the brackets declines.
    assert_eq!(macro_escape_len(b"\\icon:x[\x01\x02]", 1), 0);
    // Unknown name.
    assert_eq!(macro_escape_len(b"\\foo:x[]", 1), 0);
}

#[test]
fn index_term_close_slides_over_parens() {
    assert_eq!(index_term_close("term))"), Some(4));
    assert_eq!(index_term_close("a)))"), Some(2));
    assert_eq!(index_term_close("))"), None);
    assert_eq!(index_term_close("abc"), None);
}

#[test]
fn quoted_menus() {
    assert!(has_spaced_gt("File > Save"));
    assert!(!has_spaced_gt("File>Save"));
    assert!(!has_spaced_gt("File\t> Save"));
    assert!(has_spaced_gt("a\n>\nb"));
    assert_eq!(quoted_menu_span_end("\"File > Save\" now", 0), Some(13));
    assert_eq!(quoted_menu_span_end("\"File\" > x", 0), None);
    assert_eq!(quoted_menu_span_end("\" File > Save\"", 0), None);
    assert_eq!(quoted_menu_span_end("\"File > Save", 0), None);
}

#[test]
fn autolink_schemes_and_boundaries() {
    assert!(scheme_at("see https://x", 4));
    assert!(scheme_at("http://x", 0));
    assert!(scheme_at("irc://x", 0));
    assert!(!scheme_at("file:relative", 0));
    assert!(!scheme_at("mailto:x", 0));
    assert!(at_autolink_boundary(b"x", 0));
    assert!(at_autolink_boundary(b" h", 1));
    assert!(at_autolink_boundary(b"(h", 1));
    assert!(!at_autolink_boundary(b"ah", 1));
}

#[test]
fn cross_reference_target_start() {
    assert!(xref_target_start_ok("section"));
    assert!(xref_target_start_ok("#id"));
    assert!(xref_target_start_ok("{attr}"));
    assert!(xref_target_start_ok("étude"));
    assert!(!xref_target_start_ok(""));
    assert!(!xref_target_start_ok("<x>"));
    assert!(!xref_target_start_ok("-x"));
}

#[test]
fn pass_escape_prefix() {
    assert_eq!(pass_escape_prefix_len("\\pass:[x]", 1), Some(6));
    assert_eq!(pass_escape_prefix_len("\\pass:q,a[x]", 1), Some(9));
    assert_eq!(pass_escape_prefix_len("\\pass:x", 1), None);
    assert_eq!(pass_escape_prefix_len("pass:[x]", 9), None);
    // Not a char boundary.
    assert_eq!(pass_escape_prefix_len("é", 1), None);
}

#[test]
fn attribute_names() {
    assert!(is_valid_attr_name("name"));
    assert!(is_valid_attr_name("_a-b9"));
    assert!(!is_valid_attr_name("-a"));
    assert!(!is_valid_attr_name(""));
    assert!(!is_valid_attr_name("a b"));
    assert!(!is_valid_attr_name("é"));
}

#[test]
fn attrlist_shorthand_and_roles() {
    assert_eq!(parse_shorthand("#id.r1.r2"), (Some("id".to_string()), sv(&["r1", "r2"])));
    assert_eq!(parse_shorthand(".r1..r2"), (None, sv(&["r1", "r2"])));
    assert_eq!(parse_shorthand("#.r"), (None, sv(&["r"])));
    assert_eq!(parse_attrs("role"), Some((None, sv(&["role"]))));
    assert_eq!(parse_attrs(" .a.b , x"), Some((None, sv(&["a", "b"]))));
    assert_eq!(parse_attrs("#top"), Some((Some("top".to_string()), Vec::new())));
    assert_eq!(parse_attrs(""), None);
    assert_eq!(parse_attrs(", x"), None);
    assert_eq!(parse_attrs("."), None);
}

fn ref_of(r: Option<(Extracted, usize)>) -> Option<(String, Option<String>, usize)> {
    match r {
        Some((Extracted::Ref { name, trailing }, end)) => Some((name, trailing, end)),
        _ => None,
    }
}

fn assign_of(r: Option<(Extracted, usize)>) -> Option<(String, String, usize)> {
    match r {
        Some((Extracted::Assign { name, value }, end)) => Some((name, value, end)),
        _ => None,
    }
}

#[test]
fn attribute_reference_extraction() {
    assert_eq!(ref_of(try_attr("{name} x", 0)), Some(("name".to_string(), None, 6)));
    // A following path and bracket is captured with the reference.
    assert_eq!(
        ref_of(try_attr("{url}/path[label] x", 0)),
        Some(("url".to_string(), Some("/path[label]".to_string()), 17))
    );
    // `[[` is an anchor, not a trailing attrlist.
    assert_eq!(ref_of(try_attr("{a}[[id]]", 0)), Some(("a".to_string(), None, 3)));
    // An unclosed bracket is not captured.
    assert_eq!(ref_of(try_attr("{a}[x", 0)), Some(("a".to_string(), None, 3)));
    // Invalid names and unclosed braces stay literal.
    assert!(try_attr("{n!}", 0).is_none());
    assert!(try_attr("{counter:x}", 0).is_none());
    assert!(try_attr("{open", 0).is_none());
    assert!(try_attr("x{}", 1).is_none());
}

#[test]
fn inline_assignment_extraction() {
    assert_eq!(assign_of(try_attr("{set:foo:bar}", 0)), Some(("foo".to_string(), "bar".to_string(), 13)));
    assert_eq!(assign_of(try_attr("{set:foo}", 0)), Some(("foo".to_string(), String::new(), 9)));
    assert_eq!(assign_of(try_attr("{set:foo!}", 0)), Some(("!foo".to_string(), String::new(), 10)));
    assert_eq!(assign_of(try_attr("a{set:x:é}", 1)), Some(("x".to_string(), "é".to_string(), 11)));
    assert!(try_attr("{set:!}", 0).is_none());
    assert!(try_attr("{set:b c:d}", 0).is_none());
    assert_eq!(assign_of(try_set("n:v:w", 2, 7)), Some(("n".to_string(), "v:w".to_string(), 11)));
}

#[test]
fn doubled_marker_escape_pieces() {
    let s = "\\\\**bold**";
    assert_eq!(doubled_marker_escape(s, s.as_bytes(), 0, true), Some((10, "**", "bold", "**")));
    assert_eq!(doubled_marker_escape(s, s.as_bytes(), 0, false), None);
    let e = "\\\\****";
    assert_eq!(doubled_marker_escape(e, e.as_bytes(), 0, true), None);
    let m = "\\\\*x*";
    assert_eq!(doubled_marker_escape(m, m.as_bytes(), 0, true), None);
}

fn pieces(r: Option<(Vec<PassPiece>, usize)>) -> Option<(Vec<(String, bool)>, usize)> {
    r.map(|(v, e)| (v.into_iter().map(|p| (p.text, p.raw)).collect(), e))
}

#[test]
fn plus_passthroughs() {
    assert_eq!(pieces(try_triple_plus("+++<b>+++ x", 0)), Some((vec![("<b>".to_string(), true)], 9)));
    assert_eq!(pieces(try_triple_plus("++++++", 0)), None);
    assert_eq!(pieces(try_triple_plus("+++a", 0)), None);
    assert_eq!(pieces(try_double_plus("++a<b++", 0)), Some((vec![("a<b".to_string(), false)], 7)));
    assert_eq!(pieces(try_double_plus("++++", 0)), Some((Vec::new(), 4)));
    assert_eq!(pieces(try_double_plus("x++é++", 1)), Some((vec![("é".to_string(), false)], 7)));
    assert_eq!(pieces(try_pass_macro("pass:[<u>]!", 0)), Some((vec![("<u>".to_string(), true)], 10)));
    // A spec'd macro is not the bare form.
    assert_eq!(pieces(try_pass_macro("pass:q[x]", 0)), None);
    assert_eq!(pieces(try_pass_macro("pass:[x", 0)), None);
    assert_eq!(pieces(try_pass_macro("a pass:[]", 2)), Some((vec![(String::new(), true)], 9)));
}
