//! The preprocessor: conditionals, attribute entries, counters and the
//! text side of file inclusion.

use adoc_parser::preprocessor::{
    AttrMap, LineRange, NameSet, NumKey, TagEntry, TagFilter, apply_indent, apply_level_offset,
    expand_counters, filter_by_lines, filter_by_tags, increment_counter_value,
    initialize_from_seed, parse_include_attrs, preprocess, preprocess_with_attrs,
};

/// The numeric key of an operand that reads as a floating-point number: its
/// bits mapped to an integer with the order of the numbers.
fn numeric_key(s: &str) -> Option<NumKey> {
    let v: f64 = s.parse().ok()?;
    if v.is_nan() {
        return Some(NumKey::Nan);
    }
    let v = if v == 0.0 { 0.0 } else { v };
    let bits = v.to_bits() as i64;
    Some(NumKey::Ordered(if bits < 0 { bits ^ i64::MAX } else { bits }))
}

#[test]
fn test_ifdef_inline_defined() {
    let input = ":backend: html\nifdef::backend[Backend is set.]";
    let result = preprocess(input, &numeric_key);
    assert_eq!(result, ":backend: html\nBackend is set.");
}

#[test]
fn test_ifdef_inline_undefined() {
    let input = "ifdef::backend[Backend is set.]";
    let result = preprocess(input, &numeric_key);
    assert_eq!(result, "");
}

#[test]
fn test_ifndef_inline_defined() {
    let input = ":backend: html\nifndef::backend[No backend.]";
    let result = preprocess(input, &numeric_key);
    assert_eq!(result, ":backend: html");
}

#[test]
fn test_ifndef_inline_undefined() {
    let input = "ifndef::backend[No backend.]";
    let result = preprocess(input, &numeric_key);
    assert_eq!(result, "No backend.");
}

#[test]
fn test_escaped_conditional_directive_strips_backslash() {
    // \ifdef:: \ifndef:: \ifeval:: \endif:: → drop the backslash, emit literally,
    // do NOT evaluate (matches Asciidoctor). `:flag:` is defined but the escaped
    // block must not be skipped, and the directive text must survive verbatim.
    let input = "\
:flag:
\\ifdef::flag[]
:tip-caption: :bulb:
\\endif::[]";
    let result = preprocess(input, &numeric_key);
    assert_eq!(result, "\
:flag:
ifdef::flag[]
:tip-caption: :bulb:
endif::[]");
}

#[test]
fn test_escaped_inline_conditional_directive() {
    // Escaped inline form keeps its bracketed content as literal text.
    let input = "\\ifdef::env-name[:relfilesuffix: .adoc]";
    let result = preprocess(input, &numeric_key);
    assert_eq!(result, "ifdef::env-name[:relfilesuffix: .adoc]");
}

#[test]
fn test_backslash_before_non_directive_kept() {
    // A backslash before a word that merely starts like a directive (no `::`) is kept.
    let input = "\\ifdefinitely not a directive";
    let result = preprocess(input, &numeric_key);
    assert_eq!(result, "\\ifdefinitely not a directive");
}

#[test]
fn test_indented_escaped_directive_kept() {
    // Asciidoctor only recognizes directives at column 0; an INDENTED `\ifdef` is left
    // verbatim (backslash preserved, not processed). This is exactly how the AsciiDoc docs
    // demonstrate escaping inside a `[source,indent=0]` listing.
    let input = " \\ifdef::just-an-example[]";
    let result = preprocess(input, &numeric_key);
    assert_eq!(result, " \\ifdef::just-an-example[]");
}

#[test]
fn test_indented_conditional_directive_kept_literal() {
    // A non-escaped but INDENTED conditional directive is literal text, not
    // a directive (Asciidoctor only recognizes them at column 0). This is
    // how authors keep `ifdef`/`endif` lines verbatim inside a listing.
    let input = " ifdef::flag[]\n content\n endif::[]";
    let result = preprocess(input, &numeric_key);
    assert_eq!(result, " ifdef::flag[]\n content\n endif::[]");
}

#[test]
fn test_column0_conditional_still_processed_with_indented_siblings() {
    // A column-0 directive is still evaluated normally.
    let input = ":flag:\nifdef::flag[]\nkept\nendif::[]";
    let result = preprocess(input, &numeric_key);
    assert_eq!(result, ":flag:\nkept");
}

#[test]
fn test_ifdef_block_defined() {
    let input = "\
:flag:
ifdef::flag[]
visible content
endif::[]";
    let result = preprocess(input, &numeric_key);
    assert_eq!(result, "\
:flag:
visible content");
}

#[test]
fn test_ifdef_block_undefined() {
    let input = "\
ifdef::flag[]
hidden content
endif::[]";
    let result = preprocess(input, &numeric_key);
    assert_eq!(result, "");
}

#[test]
fn test_ifndef_block() {
    let input = "\
ifndef::flag[]
visible because undefined
endif::[]";
    let result = preprocess(input, &numeric_key);
    assert_eq!(result, "visible because undefined");
}

#[test]
fn test_nested_ifdef() {
    let input = "\
:a:
:b:
ifdef::a[]
outer visible
ifdef::b[]
inner visible
endif::[]
endif::[]";
    let result = preprocess(input, &numeric_key);
    assert_eq!(result, "\
:a:
:b:
outer visible
inner visible");
}

#[test]
fn test_nested_ifdef_inner_false() {
    let input = "\
:a:
ifdef::a[]
outer visible
ifdef::b[]
inner hidden
endif::[]
still outer
endif::[]";
    let result = preprocess(input, &numeric_key);
    assert_eq!(result, "\
:a:
outer visible
still outer");
}

#[test]
fn test_ifdef_any() {
    // ANY: at least one attribute defined
    let input = "\
:a:
ifdef::a,b[]
any matched
endif::[]";
    let result = preprocess(input, &numeric_key);
    assert_eq!(result, "\
:a:
any matched");
}

#[test]
fn test_ifdef_any_none() {
    let input = "\
ifdef::a,b[]
none matched
endif::[]";
    let result = preprocess(input, &numeric_key);
    assert_eq!(result, "");
}

#[test]
fn test_ifdef_all() {
    // ALL: all attributes must be defined
    let input = "\
:a:
:b:
ifdef::a+b[]
all matched
endif::[]";
    let result = preprocess(input, &numeric_key);
    assert_eq!(result, "\
:a:
:b:
all matched");
}

#[test]
fn test_ifdef_all_missing_one() {
    let input = "\
:a:
ifdef::a+b[]
not all matched
endif::[]";
    let result = preprocess(input, &numeric_key);
    assert_eq!(result, ":a:");
}

#[test]
fn test_attribute_unset() {
    let input = "\
:flag: yes
:!flag:
ifdef::flag[still here]";
    let result = preprocess(input, &numeric_key);
    assert_eq!(result, ":flag: yes\n:!flag:");
}

#[test]
fn test_attribute_unset_suffix() {
    let input = "\
:flag: yes
:flag!:
ifdef::flag[still here]";
    let result = preprocess(input, &numeric_key);
    assert_eq!(result, ":flag: yes\n:flag!:");
}

#[test]
fn test_ifeval_string_equal() {
    let input = "\
:backend: html
ifeval::[\"{backend}\" == \"html\"]
html output
endif::[]";
    let result = preprocess(input, &numeric_key);
    assert_eq!(result, "\
:backend: html
html output");
}

#[test]
fn test_ifeval_lone_quote_operand_no_panic() {
    // Regression (D2): a lone quote operand must not panic in extract_operand
    // (`trimmed[1..0]` slice). The directive is malformed, but the preprocessor
    // must degrade gracefully rather than crash.
    let input = "\
before
ifeval::[\" < 5]
inside
endif::[]
after";
    let result = preprocess(input, &numeric_key);
    assert!(result.contains("before"));
    assert!(result.contains("after"));
}

#[test]
fn test_ifeval_string_not_equal() {
    let input = "\
:backend: html
ifeval::[\"{backend}\" != \"pdf\"]
not pdf
endif::[]";
    let result = preprocess(input, &numeric_key);
    assert_eq!(result, "\
:backend: html
not pdf");
}

#[test]
fn test_ifeval_numeric_comparison() {
    let input = "\
:level: 3
ifeval::[\"{level}\" > \"1\"]
level is greater
endif::[]";
    let result = preprocess(input, &numeric_key);
    assert_eq!(result, "\
:level: 3
level is greater");
}

#[test]
fn test_ifeval_undefined_attr() {
    let input = "\
ifeval::[\"{missing}\" == \"\"]
missing is empty
endif::[]";
    let result = preprocess(input, &numeric_key);
    assert_eq!(result, "missing is empty");
}

#[test]
fn test_ifeval_and_both_true() {
    let input = "\
:level: 3
ifeval::[\"{level}\" >= \"1\" && \"{level}\" <= \"5\"]
in range
endif::[]";
    let result = preprocess(input, &numeric_key);
    assert_eq!(result, "\
:level: 3
in range");
}

#[test]
fn test_ifeval_and_one_false() {
    let input = "\
:level: 3
ifeval::[\"{level}\" >= \"1\" && \"{level}\" <= \"2\"]
in range
endif::[]";
    let result = preprocess(input, &numeric_key);
    assert_eq!(result, ":level: 3");
}

#[test]
fn test_ifeval_or_one_true() {
    let input = "\
:backend: html
ifeval::[\"{backend}\" == \"html\" || \"{backend}\" == \"xhtml\"]
web output
endif::[]";
    let result = preprocess(input, &numeric_key);
    assert_eq!(result, "\
:backend: html
web output");
}

#[test]
fn test_ifeval_or_both_false() {
    let input = "\
:backend: pdf
ifeval::[\"{backend}\" == \"html\" || \"{backend}\" == \"xhtml\"]
web output
endif::[]";
    let result = preprocess(input, &numeric_key);
    assert_eq!(result, ":backend: pdf");
}

#[test]
fn test_ifeval_and_or_precedence() {
    // A || B && C  →  A || (B && C)
    // A=true, B=false, C=true → true || (false && true) → true
    let input = "\
:a: 1
:b: 2
:c: 3
ifeval::[\"{a}\" == \"1\" || \"{b}\" == \"99\" && \"{c}\" == \"3\"]
matched
endif::[]";
    let result = preprocess(input, &numeric_key);
    assert_eq!(result, "\
:a: 1
:b: 2
:c: 3
matched");
}

#[test]
fn test_ifeval_and_or_precedence_false() {
    // A && B || C  →  (A && B) || C
    // A=true, B=false, C=false → (true && false) || false → false
    let input = "\
:a: 1
:b: 2
ifeval::[\"{a}\" == \"1\" && \"{b}\" == \"99\" || \"{a}\" == \"99\"]
matched
endif::[]";
    let result = preprocess(input, &numeric_key);
    assert_eq!(result, "\
:a: 1
:b: 2");
}

#[test]
fn test_ifeval_multiple_and() {
    let input = "\
:a: 1
:b: 2
:c: 3
ifeval::[\"{a}\" == \"1\" && \"{b}\" == \"2\" && \"{c}\" == \"3\"]
all match
endif::[]";
    let result = preprocess(input, &numeric_key);
    assert_eq!(result, "\
:a: 1
:b: 2
:c: 3
all match");
}

#[test]
fn test_ifeval_multiple_or() {
    let input = "\
:backend: docbook
ifeval::[\"{backend}\" == \"html\" || \"{backend}\" == \"xhtml\" || \"{backend}\" == \"docbook\"]
matched
endif::[]";
    let result = preprocess(input, &numeric_key);
    assert_eq!(result, "\
:backend: docbook
matched");
}

#[test]
fn test_passthrough_normal_lines() {
    let input = "Hello world\n\nThis is normal text.";
    let result = preprocess(input, &numeric_key);
    assert_eq!(result, input);
}

#[test]
fn test_attribute_with_value() {
    let input = ":author: John Doe\nifdef::author[By {author}]";
    // Note: inline content is emitted as-is, no attribute substitution in inline content
    let result = preprocess(input, &numeric_key);
    assert_eq!(result, ":author: John Doe\nBy {author}");
}

#[test]
fn test_leading_bom_stripped_before_attribute_entry() {
    // A leading UTF-8 BOM is removed before directive parsing (F-I, mirrors
    // Asciidoctor's Reader). Without the strip, `\u{feff}:backend: html`
    // would not be recognized as an attribute entry, so `backend` would be
    // undefined and the ifdef would emit nothing.
    let input = "\u{feff}:backend: html\nifdef::backend[Backend is set.]";
    let result = preprocess(input, &numeric_key);
    assert_eq!(result, ":backend: html\nBackend is set.");
    assert!(!result.starts_with('\u{feff}'), "BOM must be stripped from output");
}

// -----------------------------------------------------------------------
// parse_include_attrs tests
// -----------------------------------------------------------------------

#[test]
fn test_parse_include_attrs_empty() {
    let attrs = parse_include_attrs("");
    assert!(attrs.lines.is_none());
    assert!(attrs.tags.is_none());
    assert!(!attrs.optional);
}

#[test]
fn test_parse_include_attrs_lines_range() {
    let attrs = parse_include_attrs("lines=1..5");
    assert_eq!(attrs.lines, Some(vec![LineRange::Range(1, 5)]));
}

#[test]
fn test_parse_include_attrs_lines_single() {
    let attrs = parse_include_attrs("lines=5");
    assert_eq!(attrs.lines, Some(vec![LineRange::Single(5)]));
}

#[test]
fn test_parse_include_attrs_lines_multiple() {
    let attrs = parse_include_attrs("lines=1..5;10..15");
    assert_eq!(
        attrs.lines,
        Some(vec![LineRange::Range(1, 5), LineRange::Range(10, 15)])
    );
}

#[test]
fn test_parse_include_attrs_lines_from_negative() {
    let attrs = parse_include_attrs("lines=5..-1");
    assert_eq!(attrs.lines, Some(vec![LineRange::From(5)]));
}

#[test]
fn test_parse_include_attrs_lines_from_open() {
    let attrs = parse_include_attrs("lines=5..");
    assert_eq!(attrs.lines, Some(vec![LineRange::From(5)]));
}

#[test]
fn test_parse_include_attrs_tags() {
    let attrs = parse_include_attrs("tags=foo;bar");
    let filter = attrs.tags.unwrap();
    assert_eq!(filter.entries.len(), 2);
    assert_eq!(filter.entries[0], TagEntry { name: "foo", included: true });
    assert_eq!(filter.entries[1], TagEntry { name: "bar", included: true });
}

#[test]
fn test_parse_include_attrs_tag_negated() {
    let attrs = parse_include_attrs("tag=!foo");
    let filter = attrs.tags.unwrap();
    assert_eq!(filter.entries.len(), 1);
    assert_eq!(filter.entries[0], TagEntry { name: "foo", included: false });
}

#[test]
fn test_parse_include_attrs_optional() {
    let attrs = parse_include_attrs("opts=optional");
    assert!(attrs.optional);
}

#[test]
fn test_parse_include_attrs_ignore_unknown() {
    let attrs = parse_include_attrs("encoding=utf-8,lines=1..3");
    assert_eq!(attrs.lines, Some(vec![LineRange::Range(1, 3)]));
    assert!(!attrs.optional);
}

#[test]
fn test_parse_include_attrs_leveloffset() {
    let attrs = parse_include_attrs("leveloffset=+1");
    assert_eq!(attrs.leveloffset, 1);
}

#[test]
fn test_parse_include_attrs_indent() {
    let attrs = parse_include_attrs("indent=0");
    assert_eq!(attrs.indent, Some(0));
}

#[test]
fn test_parse_include_attrs_indent_and_leveloffset() {
    let attrs = parse_include_attrs("leveloffset=+2,indent=4");
    assert_eq!(attrs.leveloffset, 2);
    assert_eq!(attrs.indent, Some(4));
}

// -----------------------------------------------------------------------
// filter_by_lines tests
// -----------------------------------------------------------------------

#[test]
fn test_filter_by_lines_single() {
    let content = "line1\nline2\nline3\nline4\nline5";
    assert_eq!(filter_by_lines(content, &[LineRange::Single(3)]), "line3");
}

#[test]
fn test_filter_by_lines_range() {
    let content = "line1\nline2\nline3\nline4\nline5";
    assert_eq!(
        filter_by_lines(content, &[LineRange::Range(2, 4)]),
        "line2\nline3\nline4"
    );
}

#[test]
fn test_filter_by_lines_from() {
    let content = "line1\nline2\nline3\nline4\nline5";
    assert_eq!(
        filter_by_lines(content, &[LineRange::From(4)]),
        "line4\nline5"
    );
}

#[test]
fn test_filter_by_lines_multiple_ranges() {
    let content = "line1\nline2\nline3\nline4\nline5";
    assert_eq!(
        filter_by_lines(
            content,
            &[LineRange::Single(1), LineRange::Range(4, 5)]
        ),
        "line1\nline4\nline5"
    );
}

#[test]
fn test_filter_by_lines_out_of_bounds() {
    let content = "line1\nline2";
    assert_eq!(
        filter_by_lines(content, &[LineRange::Single(10)]),
        ""
    );
}

// -----------------------------------------------------------------------
// filter_by_tags tests
// -----------------------------------------------------------------------

#[test]
fn test_filter_by_tags_single() {
    let content = "\
before
tag::foo[]
inside foo
end::foo[]
after";
    let filter = TagFilter {
        entries: vec![TagEntry { name: "foo", included: true }],
    };
    assert_eq!(filter_by_tags(content, &filter), "inside foo");
}

#[test]
fn test_filter_by_tags_negation() {
    let content = "\
before
tag::foo[]
inside foo
end::foo[]
after";
    let filter = TagFilter {
        entries: vec![TagEntry { name: "foo", included: false }],
    };
    assert_eq!(filter_by_tags(content, &filter), "before\nafter");
}

#[test]
fn test_filter_by_tags_multiple() {
    let content = "\
before
tag::foo[]
in foo
end::foo[]
middle
tag::bar[]
in bar
end::bar[]
after";
    let filter = TagFilter {
        entries: vec![
            TagEntry { name: "foo", included: true },
            TagEntry { name: "bar", included: true },
        ],
    };
    assert_eq!(filter_by_tags(content, &filter), "in foo\nin bar");
}

#[test]
fn test_filter_by_tags_wildcard() {
    let content = "\
before
tag::foo[]
in foo
end::foo[]
middle
tag::bar[]
in bar
end::bar[]
after";
    let filter = TagFilter {
        entries: vec![TagEntry { name: "*", included: true }],
    };
    assert_eq!(filter_by_tags(content, &filter), "in foo\nin bar");
}

#[test]
fn test_filter_by_tags_negated_wildcard() {
    let content = "\
before
tag::foo[]
in foo
end::foo[]
after";
    let filter = TagFilter {
        entries: vec![TagEntry { name: "*", included: false }],
    };
    assert_eq!(filter_by_tags(content, &filter), "before\nafter");
}

#[test]
fn test_filter_by_tags_nested() {
    let content = "\
tag::outer[]
outer line
tag::inner[]
inner line
end::inner[]
outer again
end::outer[]";
    let filter = TagFilter {
        entries: vec![TagEntry { name: "inner", included: true }],
    };
    assert_eq!(filter_by_tags(content, &filter), "inner line");
}

#[test]
fn test_filter_by_tags_directives_removed() {
    let content = "\
tag::foo[]
content
end::foo[]";
    let filter = TagFilter {
        entries: vec![TagEntry { name: "foo", included: true }],
    };
    // tag/end directives must not appear in output
    assert_eq!(filter_by_tags(content, &filter), "content");
}

// -----------------------------------------------------------------------
// resolve_includes integration tests
// -----------------------------------------------------------------------

#[test]
fn test_increment_numbers() {
    assert_eq!(increment_counter_value("1"), "2");
    assert_eq!(increment_counter_value("5"), "6");
    assert_eq!(increment_counter_value("0"), "1");
    assert_eq!(increment_counter_value("-1"), "0");
}

#[test]
fn test_increment_uppercase() {
    assert_eq!(increment_counter_value("A"), "B");
    assert_eq!(increment_counter_value("Y"), "Z");
    assert_eq!(increment_counter_value("Z"), "Z"); // saturation
}

#[test]
fn test_increment_lowercase() {
    assert_eq!(increment_counter_value("a"), "b");
    assert_eq!(increment_counter_value("y"), "z");
    assert_eq!(increment_counter_value("z"), "z"); // saturation
}

#[test]
fn test_increment_fallback() {
    assert_eq!(increment_counter_value("foo"), "1");
}

// -----------------------------------------------------------------------
// Counter: initialize_from_seed tests
// -----------------------------------------------------------------------

#[test]
fn test_seed_number() {
    assert_eq!(initialize_from_seed("5"), "5");
    assert_eq!(initialize_from_seed("0"), "0");
    assert_eq!(initialize_from_seed("-3"), "-3");
}

#[test]
fn test_seed_letter() {
    assert_eq!(initialize_from_seed("A"), "A");
    assert_eq!(initialize_from_seed("z"), "z");
}

#[test]
fn test_seed_fallback() {
    assert_eq!(initialize_from_seed("foo"), "1");
    assert_eq!(initialize_from_seed(""), "1");
}

// -----------------------------------------------------------------------
// Counter: expand_counters tests
// -----------------------------------------------------------------------

#[test]
fn test_expand_counter_basic() {
    let mut attrs = AttrMap::new();
    assert_eq!(
        expand_counters("Item {counter:item}", &mut attrs, &mut NameSet::new()),
        Some("Item 1".to_string())
    );
    assert_eq!(attrs.get("item").unwrap(), "1");

    assert_eq!(
        expand_counters("Item {counter:item}", &mut attrs, &mut NameSet::new()),
        Some("Item 2".to_string())
    );
    assert_eq!(attrs.get("item").unwrap(), "2");
}

#[test]
fn test_counters_and_attr_entries_untouched_in_verbatim_blocks() {
    // Counters are an attribute substitution — verbatim blocks (listing/
    // literal/passthrough/comment, markdown fences) don't apply it, so the
    // preprocessor must leave their lines untouched. Conditionals stay
    // reader-level and still work inside (Asciidoctor semantics).
    let input = "----\n{counter:n}\n:k: v\n----\n{counter:n}\n";
    assert_eq!(preprocess(input, &numeric_key), "----\n{counter:n}\n:k: v\n----\n1\n");

    // Literal and markdown fences too; attr entry inside is not consumed
    let input = "....\n{counter:m}\n....\n```\n{counter:m}\n```\n{counter:m}\n";
    assert_eq!(
        preprocess(input, &numeric_key),
        "....\n{counter:m}\n....\n```\n{counter:m}\n```\n1\n"
    );

    // Conditional directives still evaluate inside a listing block
    let input = "----\nifdef::nope[]\nhidden\nendif::[]\nkept\n----\n";
    assert_eq!(preprocess(input, &numeric_key), "----\nkept\n----\n");

    // Closing requires the same delimiter length
    let input = "-----\n{counter:x}\n----\n{counter:x}\n-----\n{counter:x}\n";
    assert_eq!(
        preprocess(input, &numeric_key),
        "-----\n{counter:x}\n----\n{counter:x}\n-----\n1\n"
    );
}

#[test]
fn test_counter_literal_inside_passthrough() {
    // Asciidoctor extracts passthroughs before the `attributes` substitution
    // that resolves counters, so a `{counter:…}` inside a passthrough stays
    // literal and does NOT advance the counter (counters.adoc lines 12/21).
    // Single-plus span:
    assert_eq!(
        preprocess("`+{counter:n}+`\n{counter:n}\n", &numeric_key),
        "`+{counter:n}+`\n1\n"
    );
    // Double/triple plus and the `pass:[…]` macro:
    assert_eq!(
        preprocess("++{counter:m}++ +++{counter:m}+++ pass:[{counter:m}]\n{counter:m}\n", &numeric_key),
        "++{counter:m}++ +++{counter:m}+++ pass:[{counter:m}]\n1\n"
    );
    // A `+` that follows a word char does not open a constrained passthrough,
    // so the counter inside still resolves.
    assert_eq!(preprocess("a+{counter:k}+\n", &numeric_key), "a+1+\n");
}

#[test]
fn test_counter_literal_in_styled_verbatim_paragraph() {
    // A `[source]`/`[listing]`/`[literal]` paragraph (not a `----` block) is
    // still a verbatim block, so counter macros in it stay literal and do not
    // advance the counter (counters.adoc lines 23/65).
    assert_eq!(
        preprocess("[source]\nThe count is {counter:n}.\n\n{counter:n}\n", &numeric_key),
        "[source]\nThe count is {counter:n}.\n\n1\n"
    );
    // Verbatim until the blank line ends the paragraph.
    assert_eq!(
        preprocess("[listing]\na {counter:n}\nb {counter:n}\n\n{counter:n}\n", &numeric_key),
        "[listing]\na {counter:n}\nb {counter:n}\n\n1\n"
    );
    // `[source]` followed by a `----` delimited block uses fence handling, not
    // the styled-paragraph path (and the counter is still literal).
    assert_eq!(
        preprocess("[source]\n----\n{counter:n}\n----\n{counter:n}\n", &numeric_key),
        "[source]\n----\n{counter:n}\n----\n1\n"
    );
    // A non-verbatim style (`[example]`) gets normal subs — its counter resolves.
    assert_eq!(
        preprocess("[example]\ncount {counter:n}\n", &numeric_key),
        "[example]\ncount 1\n"
    );
}

#[test]
fn test_attr_refs_expanded_in_block_attribute_lines() {
    // Asciidoctor substitutes attribute references in block-attribute
    // lines at parse time, in document order (probe /tmp/p_subs/p4):
    // [source,subs="{markup}"] sees the current value.
    let input = ":markup: +quotes\n\n[source,java,subs=\"{markup}\"]\n----\nx\n----\n";
    assert_eq!(
        preprocess(input, &numeric_key),
        ":markup: +quotes\n\n[source,java,subs=\"+quotes\"]\n----\nx\n----\n"
    );

    // Unknown references stay intact (attribute-missing=skip)
    let input = "[source,subs=\"{nope}\"]\n----\nx\n----\n";
    assert_eq!(preprocess(input, &numeric_key), input);

    // Definition AFTER use does not apply (document order)
    let input = "[.{late}]\ntext\n\n:late: red\n";
    assert_eq!(preprocess(input, &numeric_key), input);

    // Attrlist-shaped lines inside a verbatim fence are untouched
    let input = ":markup: x\n\n----\n[source,subs=\"{markup}\"]\n----\n";
    assert_eq!(preprocess(input, &numeric_key), input);

    // Non-attrlist lines (no [..] shape) keep their references for the
    // inline parser
    let input = ":v: 1\n\nversion {v} here\n";
    assert_eq!(preprocess(input, &numeric_key), input);

    // Escaped reference stays untouched
    let input = ":r: red\n\n[.\\{r}]\ntext\n";
    assert_eq!(preprocess(input, &numeric_key), input);
}

#[test]
fn test_expand_counter_with_seed() {
    let mut attrs = AttrMap::new();
    assert_eq!(
        expand_counters("{counter:n:5}", &mut attrs, &mut NameSet::new()),
        Some("5".to_string())
    );
    assert_eq!(
        expand_counters("{counter:n}", &mut attrs, &mut NameSet::new()),
        Some("6".to_string())
    );
}

#[test]
fn test_expand_counter_alpha_seed() {
    let mut attrs = AttrMap::new();
    assert_eq!(
        expand_counters("{counter:a:A}", &mut attrs, &mut NameSet::new()),
        Some("A".to_string())
    );
    assert_eq!(
        expand_counters("{counter:a}", &mut attrs, &mut NameSet::new()),
        Some("B".to_string())
    );
    assert_eq!(
        expand_counters("{counter:a}", &mut attrs, &mut NameSet::new()),
        Some("C".to_string())
    );
}

#[test]
fn test_expand_counter2_silent() {
    let mut attrs = AttrMap::new();
    assert_eq!(
        expand_counters("{counter2:x}", &mut attrs, &mut NameSet::new()),
        Some(String::new())
    );
    assert_eq!(attrs.get("x").unwrap(), "1");

    assert_eq!(
        expand_counters("{counter2:x}", &mut attrs, &mut NameSet::new()),
        Some(String::new())
    );
    assert_eq!(attrs.get("x").unwrap(), "2");
}

#[test]
fn test_expand_multiple_counters() {
    let mut attrs = AttrMap::new();
    assert_eq!(
        expand_counters("{counter:a} and {counter:b}", &mut attrs, &mut NameSet::new()),
        Some("1 and 1".to_string())
    );
}

#[test]
fn test_expand_no_counters() {
    let mut attrs = AttrMap::new();
    assert_eq!(expand_counters("plain line", &mut attrs, &mut NameSet::new()), None);
}

#[test]
fn test_expand_counter_empty_name() {
    let mut attrs = AttrMap::new();
    // Empty name → not a valid counter, returned as-is
    assert_eq!(expand_counters("{counter:}", &mut attrs, &mut NameSet::new()), None);
}

#[test]
fn test_expand_counter_unclosed() {
    let mut attrs = AttrMap::new();
    assert_eq!(expand_counters("{counter:name", &mut attrs, &mut NameSet::new()), None);
}

#[test]
fn test_expand_counter_preserves_non_ascii() {
    // Regression: byte-indexed copying used to corrupt multibyte text
    // around the counter (e.g. `bytes[i] as char` on UTF-8 continuation bytes).
    let mut attrs = AttrMap::new();
    assert_eq!(
        expand_counters("Пункт {counter:n} — раздел 日本語", &mut attrs, &mut NameSet::new()),
        Some("Пункт 1 — раздел 日本語".to_string())
    );
}

// -----------------------------------------------------------------------
// Counter: integration through preprocess(, &numeric_key)
// -----------------------------------------------------------------------

#[test]
fn test_preprocess_counter_sequential() {
    let input = "Item {counter:item}\nItem {counter:item}\nItem {counter:item}";
    let result = preprocess(input, &numeric_key);
    assert_eq!(result, "Item 1\nItem 2\nItem 3");
}

#[test]
fn test_preprocess_counter2_silent() {
    let input = "{counter2:n}\nValue is not shown";
    let result = preprocess(input, &numeric_key);
    assert_eq!(result, "\nValue is not shown");
}

#[test]
fn test_preprocess_bare_counter_reference() {
    // A bare `{name}` reference to a counter resolves to the counter's
    // current value in document order (counter.adoc's `Description of PX-{index}`).
    let input = "\
{counter2:index:0}
PX-{counter:index}
Description of PX-{index}
PX-{counter:index}
Description of PX-{index}";
    let result = preprocess(input, &numeric_key);
    assert_eq!(
        result,
        "\
\nPX-1
Description of PX-1
PX-2
Description of PX-2"
    );
}

#[test]
fn test_preprocess_bare_reference_non_counter_untouched() {
    // A bare reference whose name was never defined by a counter is left
    // for the normal substitution pipeline (the renderer), not expanded here.
    let input = "Value is {index}\n{counter:index}\nValue is {index}";
    let result = preprocess(input, &numeric_key);
    assert_eq!(result, "Value is {index}\n1\nValue is 1");
}

#[test]
fn test_preprocess_counter_alpha() {
    let input = "\
Appendix {counter:app:A}
Appendix {counter:app}
Appendix {counter:app}";
    let result = preprocess(input, &numeric_key);
    assert_eq!(result, "\
Appendix A
Appendix B
Appendix C");
}

#[test]
fn test_preprocess_counter_skipped_in_ifdef() {
    let input = "\
ifdef::nonexistent[]
{counter:x}
endif::[]
Value: {counter:x}";
    let result = preprocess(input, &numeric_key);
    // Counter inside skipped ifdef must not execute, so first use starts at 1
    assert_eq!(result, "Value: 1");
}

#[test]
fn test_multiline_attribute_soft_wrap() {
    // Preprocessor stores the joined value for conditionals;
    // the source lines are preserved in output for the block scanner.
    let input = "\
:desc: Hello \\\nworld\nifdef::desc[defined]";
    let result = preprocess(input, &numeric_key);
    assert_eq!(result, ":desc: Hello \\\nworld\ndefined");
}

#[test]
fn test_multiline_attribute_hard_wrap() {
    let input = "\
:desc: Line one + \\\nLine two\nifdef::desc[present]";
    let result = preprocess(input, &numeric_key);
    assert_eq!(result, ":desc: Line one + \\\nLine two\npresent");
}

#[test]
fn test_multiline_attribute_three_lines() {
    let input = "\
:val: a \\\nb \\\nc\nifdef::val[ok]";
    let result = preprocess(input, &numeric_key);
    assert_eq!(result, ":val: a \\\nb \\\nc\nok");
}

#[test]
fn test_multiline_attribute_no_continuation() {
    let input = ":desc: simple value\nifdef::desc[ok]";
    let result = preprocess(input, &numeric_key);
    assert_eq!(result, ":desc: simple value\nok");
}

// -----------------------------------------------------------------------
// apply_level_offset tests
// -----------------------------------------------------------------------

#[test]
fn test_level_offset_positive() {
    assert_eq!(apply_level_offset("== Title", 1), "=== Title");
}

#[test]
fn test_level_offset_negative() {
    assert_eq!(apply_level_offset("=== Title", -1), "== Title");
}

#[test]
fn test_level_offset_zero() {
    assert_eq!(apply_level_offset("== Title", 0), "== Title");
}

#[test]
fn test_level_offset_clamp_min() {
    // Cannot go below 1 '=' sign (section level 0). A large negative offset
    // demotes any heading down to a level-0 `= Title` (verified against
    // Asciidoctor: `==` under leveloffset=-1 renders `<h1 class="sect0">`).
    assert_eq!(apply_level_offset("== Title", -5), "= Title");
}

#[test]
fn test_level_offset_level0_promoted() {
    // A level-0 heading (`= Title`) is offset too: leveloffset=+1 makes it a
    // level-1 section (`== Title`). This is the include-with-leveloffset case.
    assert_eq!(apply_level_offset("= Title", 1), "== Title");
    assert_eq!(apply_level_offset("= Title", 2), "=== Title");
}

#[test]
fn test_level_offset_level0_clamped_at_zero() {
    // Level 0 cannot go lower; a negative offset leaves `= Title` unchanged.
    assert_eq!(apply_level_offset("= Title", -1), "= Title");
}

#[test]
fn test_level_offset_clamp_max() {
    // Cannot go above 6 '=' signs
    assert_eq!(apply_level_offset("====== Title", 5), "====== Title");
}

#[test]
fn test_level_offset_multiline() {
    let input = "== Chapter\n\nSome text\n\n=== Section";
    let expected = "=== Chapter\n\nSome text\n\n==== Section";
    assert_eq!(apply_level_offset(input, 1), expected);
}

// -----------------------------------------------------------------------
// apply_indent tests
// -----------------------------------------------------------------------

#[test]
fn test_indent_zero_removes_common() {
    let input = "    line1\n    line2";
    assert_eq!(apply_indent(input, 0), "line1\nline2");
}

#[test]
fn test_indent_set_value() {
    let input = "    line1\n    line2";
    assert_eq!(apply_indent(input, 2), "  line1\n  line2");
}

#[test]
fn test_indent_preserves_empty_lines() {
    let input = "    line1\n\n    line2";
    assert_eq!(apply_indent(input, 0), "line1\n\nline2");
}

#[test]
fn test_indent_mixed_indentation() {
    let input = "  line1\n    line2";
    // min indent=2, so line1 loses 2, line2 loses 2 (keeping 2)
    assert_eq!(apply_indent(input, 0), "line1\n  line2");
}

#[test]
fn test_multiline_attribute_locked_skips_continuation() {
    let locked = vec!["desc".to_string()];
    let input = ":desc: value \\\ncontinuation\nContent";
    let result = preprocess_with_attrs(input, &[], &locked, &numeric_key);
    // Locked attribute and its continuation lines are not output
    assert_eq!(result, "Content");
}


