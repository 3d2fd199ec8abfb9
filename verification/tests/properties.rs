//! Laws of the library on concrete values, and edge cases.

use adoc_parser::pass::{pass_macro_span_len, pass_spec_len, passthrough_span_len, single_plus_span_len};
use adoc_parser::preprocessor::{
    apply_indent, apply_level_offset, classify_include_line, expand_counters, included_text,
    increment_counter_value, indent_cuts_ok, initialize_from_seed, is_tag_directive, is_uriish,
    parse_include_attrs, parse_line_range, preprocess, preprocess_with_attrs,
    uri_include_link, write_unresolved_include, AttrMap, IncludeLine, LineRange, NameSet, NumKey,
};
use adoc_parser::render::{
    resolve_attr_refs_text, resolve_attribute_reference, AttrRefOutcome, CaptionCounters,
    CaptionKind, CaptionPrefix, FootnoteRegistry, RefText, Revision, SectionNumberer, TocBuilder,
    TocEntry, TocStep, XrefResolver, interdoc_xref_href,
};
use adoc_parser::scanner::generate_id;

fn numeric_key(s: &str) -> Option<NumKey> {
    let v: f64 = s.parse().ok()?;
    if v.is_nan() {
        return Some(NumKey::Nan);
    }
    let v = if v == 0.0 { 0.0 } else { v };
    let bits = v.to_bits() as i64;
    Some(NumKey::Ordered(if bits < 0 { bits ^ i64::MAX } else { bits }))
}

fn pp(input: &str) -> String {
    preprocess(input, &numeric_key)
}

// --- preprocessor laws ----------------------------------------------------

#[test]
fn law_ifndef_is_not_ifdef() {
    assert_eq!(pp(":x: 1\nifdef::x[A]\nifndef::x[B]"), ":x: 1\nA");
    assert_eq!(pp("ifdef::x[A]\nifndef::x[B]"), "B");
}

#[test]
fn law_skipped_block_emits_nothing() {
    assert_eq!(pp("ifdef::nope[]\na\n:y: 2\nifdef::y[Y]\nendif::[]\nc"), "c");
    // The attribute entry inside the skipped block did not take effect.
    assert_eq!(pp("ifdef::nope[]\n:y: 2\nendif::[]\nifdef::y[Y]"), "");
}

#[test]
fn law_endif_closes_even_when_skipping() {
    let input = "ifdef::a[]\nifdef::b[]\nx\nendif::[]\ny\nendif::[]\nz";
    assert_eq!(pp(input), "z");
    assert_eq!(pp(&format!(":a:\n{input}")), ":a:\ny\nz");
}

#[test]
fn law_indented_directive_is_text() {
    assert_eq!(pp("  ifdef::x[]\nkept\n  endif::[]"), "  ifdef::x[]\nkept\n  endif::[]");
}

#[test]
fn law_verbatim_block_is_untouched() {
    let input = "----\n{counter:n}\n:z: 1\n----\n{counter:n}";
    assert_eq!(pp(input), "----\n{counter:n}\n:z: 1\n----\n1");
}

#[test]
fn law_locked_attribute_entry_ignored() {
    let locked = vec!["x".to_string()];
    let initial = vec![("x".to_string(), Some("outer".to_string()))];
    let out = preprocess_with_attrs(":x: inner\nifeval::[\"{x}\" == \"outer\"]\nyes\nendif::[]", &initial, &locked, &numeric_key);
    assert_eq!(out, "yes");
}

#[test]
fn edge_ifeval_numeric_and_nan() {
    assert_eq!(pp(":n: 10\nifeval::[{n} > 9]\nbig\nendif::[]"), ":n: 10\nbig");
    // As strings "10" < "9"; as numbers 10 > 9.
    assert_eq!(pp(":n: 10\nifeval::[\"{n}\" < \"9\"]\nsmall\nendif::[]"), ":n: 10");
    assert_eq!(pp("ifeval::[NaN != NaN]\nne\nendif::[]"), "ne");
    assert_eq!(pp("ifeval::[NaN == NaN]\neq\nendif::[]"), "");
    assert_eq!(pp("ifeval::[1.0 == 1]\nsame\nendif::[]"), "same");
}

#[test]
fn edge_initial_attribute_without_value_sets_nothing() {
    let initial = vec![("x".to_string(), None)];
    assert_eq!(preprocess_with_attrs("ifdef::x[set]", &initial, &[], &numeric_key), "");
}

// --- counters ---------------------------------------------------------------

#[test]
fn edge_counter_values() {
    assert_eq!(increment_counter_value("Z"), "Z");
    assert_eq!(increment_counter_value("z"), "z");
    assert_eq!(increment_counter_value("b"), "c");
    assert_eq!(increment_counter_value("9"), "10");
    assert_eq!(increment_counter_value("-1"), "0");
    assert_eq!(increment_counter_value("+41"), "42");
    assert_eq!(increment_counter_value("x1"), "1");
    assert_eq!(increment_counter_value("9223372036854775807"), "-9223372036854775808");
    assert_eq!(initialize_from_seed("+5"), "+5");
    assert_eq!(initialize_from_seed("ab"), "1");
    assert_eq!(initialize_from_seed("q"), "q");
}

#[test]
fn edge_counter_state_and_references() {
    let mut attrs = AttrMap::new();
    let mut names = NameSet::new();
    assert_eq!(expand_counters("+{counter:n}+", &mut attrs, &mut names), None);
    assert!(!attrs.contains_key("n"));
    assert_eq!(expand_counters("{counter:n:7} {n}", &mut attrs, &mut names), Some("7 7".to_string()));
    assert!(names.contains("n"));
    assert_eq!(expand_counters("{n}", &mut attrs, &mut names), Some("7".to_string()));
    attrs.remove("n");
    assert_eq!(attrs.get("n"), None);
}

// --- inclusion helpers --------------------------------------------------------

#[test]
fn edge_line_ranges_and_options() {
    assert_eq!(parse_line_range("abc"), None);
    assert_eq!(parse_line_range("3..x"), None);
    assert_eq!(parse_line_range("..5"), None);
    assert_eq!(parse_line_range(" 7 "), Some(LineRange::Single(7)));
    let a = parse_include_attrs("leveloffset=x,indent=-1,opts=optional");
    assert_eq!(a.leveloffset, 0);
    assert_eq!(a.indent, None);
    assert!(a.optional);
    let a = parse_include_attrs("leveloffset=-2,tags=;");
    assert_eq!(a.leveloffset, -2);
    assert!(a.tags.is_none());
}

#[test]
fn edge_level_offset_and_indent() {
    assert_eq!(apply_level_offset("== A\ntext\n", 0), "== A\ntext\n");
    assert_eq!(apply_level_offset("== A\n  === B", -5), "= A\n= B");
    assert_eq!(apply_level_offset("= T", 9), "====== T");
    assert_eq!(apply_level_offset("====== T", 127), "====== T");
    assert_eq!(apply_level_offset("== Title", 127), "====== Title");
    assert_eq!(apply_level_offset("====== T", -128), "= T");
    assert!(indent_cuts_ok("  a\n  \u{3000}b"));
    assert!(!indent_cuts_ok(" a\n\u{3000}b"));
    assert_eq!(apply_indent("    a\n\n      b\n", 1), " a\n\n   b\n");
}

#[test]
fn edge_inclusion_lines() {
    assert!(is_uriish("http://x"));
    assert!(is_uriish("ab:c"));
    assert!(!is_uriish("a:b"));
    assert!(!is_uriish("c:/path"));
    assert!(!is_uriish("1a:b"));
    assert_eq!(is_tag_directive("  tag::x[]  "), Some(("x", true)));
    assert_eq!(is_tag_directive("end::[]"), None);
    assert_eq!(
        write_unresolved_include(None, "p.adoc", "a=1"),
        "Unresolved directive in <stdin> - include::p.adoc[a=1]\n"
    );
    assert_eq!(uri_include_link("http://e.x/a.adoc"), "link:http://e.x/a.adoc[role=include]\n");
    assert!(matches!(
        classify_include_line("include::a.adoc[x]"),
        IncludeLine::Directive { target: "a.adoc", attrs: "x" }
    ));
    assert!(matches!(classify_include_line("\\include::a.adoc[]"), IncludeLine::Escaped("include::a.adoc[]")));
    assert!(matches!(classify_include_line("\\include::a.adoc[] x"), IncludeLine::Text));
    let none = parse_include_attrs("");
    assert_eq!(included_text("a\nb\r\n\n", &none), "a\nb");
    let lines = parse_include_attrs("lines=2");
    assert_eq!(included_text("a\nb\nc", &lines), "b");
}

// --- passthrough scanners -------------------------------------------------------

#[test]
fn edge_passthrough_spans() {
    assert_eq!(pass_spec_len("pass:q,a[x]", 5), Some(3));
    assert_eq!(pass_spec_len("pass:,q[x]", 5), None);
    assert_eq!(pass_spec_len("pass:[x]", 5), Some(0));
    assert_eq!(pass_spec_len("pass:", 9), None);
    assert_eq!(pass_macro_span_len("pass:[a]b", 0), Some(8));
    assert_eq!(pass_macro_span_len("é pass:[a]", 3), Some(8));
    assert_eq!(passthrough_span_len("++a++", 0), Some(5));
    assert_eq!(passthrough_span_len("++++", 0), None);
    assert_eq!(passthrough_span_len("+++a+++", 0), Some(7));
    assert_eq!(single_plus_span_len("+a+", 0), Some(3));
    assert_eq!(single_plus_span_len("a+b+", 1), None);
    assert_eq!(single_plus_span_len("+pass:[+]+", 0), Some(10));
}

// --- render-side laws -----------------------------------------------------------------

#[test]
fn law_toc_lists_balance() {
    let mut b = TocBuilder::new();
    for (level, id) in [(3, "deep"), (2, "a"), (4, "x"), (2, "b"), (6, "hidden")] {
        b.push(TocEntry { level, id: id.to_string(), title: id.to_string() });
    }
    for levels in 0..6u8 {
        let steps = b.toc_steps(levels);
        let enters = steps.iter().filter(|s| matches!(s, TocStep::EnterLevel(_))).count();
        let leaves = steps.iter().filter(|s| matches!(s, TocStep::LeaveLevel)).count();
        assert_eq!(enters, leaves);
    }
    let mut only_title = TocBuilder::new();
    only_title.push(TocEntry { level: 1, id: "t".to_string(), title: "T".to_string() });
    assert!(only_title.toc_steps(3).is_empty());
}

#[test]
fn law_xref_registration_order() {
    let mut r = XrefResolver::new();
    r.add_block("b", RefText::Markup("first"));
    r.add_block("b", RefText::Markup("second"));
    r.add_section("s", "Title");
    r.add_block("s", RefText::Markup("block"));
    r.add_section("t", "Title");
    assert_eq!(r.link_text("b"), Some(RefText::Markup("first")));
    assert_eq!(r.link_text("s"), Some(RefText::Plain("Title")));
    assert_eq!(r.href_id("Title"), "s");
}

#[test]
fn law_attribute_reference_precedence() {
    let no_env = |_: &str| None;
    let env_none = |_: &str| None::<String>;
    assert!(matches!(
        resolve_attribute_reference("ENV-nope", |_| None, env_none, None, Some("drop")),
        AttrRefOutcome::MissingDrop
    ));
    assert!(matches!(
        resolve_attribute_reference("env-nope", |_| None, env_none, None, Some("drop")),
        AttrRefOutcome::MissingSkip
    ));
    assert!(matches!(
        resolve_attribute_reference("AMP", |n: &str| (n == "amp").then_some("doc"), no_env, None, None),
        AttrRefOutcome::Document("doc")
    ));
    assert_eq!(resolve_attr_refs_text("{A}{b", |n: &str| (n == "a").then_some("1")), "1{b");
    assert_eq!(resolve_attr_refs_text("{NBSP}", |_| None), "\u{00a0}");
}

#[test]
fn law_caption_numbering() {
    let mut c = CaptionCounters::new();
    assert_eq!(c.caption_prefix(CaptionKind::Example, Some("X"), Some("Example")), CaptionPrefix::Custom("X"));
    assert_eq!(c.caption_prefix(CaptionKind::Example, None, None), CaptionPrefix::Suppressed);
    assert_eq!(
        c.caption_prefix(CaptionKind::Example, None, Some("Ex")),
        CaptionPrefix::Numbered { label: "Ex", number: 3 }
    );
    assert_eq!(c.caption_prefix(CaptionKind::Table, Some("T"), Some("Table")), CaptionPrefix::Custom("T"));
    assert_eq!(
        c.caption_prefix(CaptionKind::Table, None, Some("Table")),
        CaptionPrefix::Numbered { label: "Table", number: 1 }
    );
}

#[test]
fn law_footnote_define_then_lookup() {
    let mut f = FootnoteRegistry::new();
    let a = f.define(Some("a"), "one");
    let b = f.define(Some("b"), "two");
    assert_eq!(f.lookup("a"), Some(a));
    assert_eq!(f.lookup("b"), Some(b));
    let a2 = f.define(Some("a"), "three");
    assert_eq!(f.lookup("a"), Some(a2));
    assert_eq!(f.lookup("b"), Some(b));
    assert_eq!(f.footnotes().len(), 3);
}

#[test]
fn edge_section_numbers_and_appendices() {
    let mut n = SectionNumberer::new();
    assert_eq!(n.number_prefix(5).as_deref(), Some("0.0.0.1. "));
    assert_eq!(n.number_prefix(2).as_deref(), Some("1. "));
    assert_eq!(n.number_prefix(5).as_deref(), Some("1.0.0.1. "));
    assert_eq!(n.number_prefix(0), None);
    for _ in 0..25 {
        n.appendix_caption();
    }
    assert_eq!(n.appendix_caption(), "Appendix Z: ");
}

#[test]
fn law_generated_id_keeps_prefix() {
    assert_eq!(generate_id("!!!", "pre_", "_"), "pre_");
    assert_eq!(generate_id("a-", "x-", "-"), "x-a");
    assert_eq!(generate_id("", "_", "_"), "_");
    assert_eq!(generate_id("ÉTÉ", "", "_"), "été");
}

#[test]
fn edge_interdoc_and_revision() {
    assert_eq!(interdoc_xref_href("a.adoc#"), "a.html#");
    assert_eq!(interdoc_xref_href("#x.adoc"), "#x.html");
    let rev = Revision { version: "vv1".into(), ..Default::default() };
    assert_eq!(rev.display_version(), "v1");
    assert_eq!(Revision { remark: "r".into(), ..Default::default() }.attr_entries(), [("revremark", "r")]);
}

#[test]
fn edge_cell_suffixes_cut_from_trimmed_text() {
    assert_eq!(adoc_parser::scanner::parse_span_spec("text 2+ "), ("text", 2, 1));
    assert_eq!(adoc_parser::scanner::parse_span_spec("a 2.3+\u{3000}"), ("a", 2, 3));
    let (rest, h, _, he, ve) = adoc_parser::scanner::parse_cell_align_suffix("x ^ ");
    assert_eq!(rest, "x ");
    assert_eq!(h, adoc_parser::scanner::HAlign::Center);
    assert!(he && !ve);
    let (rest, _, _, he, _) = adoc_parser::scanner::parse_cell_align_suffix("abc\u{3000}");
    assert_eq!(rest, "abc\u{3000}");
    assert!(!he);
    assert!(adoc_parser::scanner::is_block_image("  image::x[]").is_none());
    assert_eq!(adoc_parser::scanner::is_block_image("image::x[a] \t"), Some(("x", "a")));
    let t = adoc_parser::scanner::parse_table_cells("|a\u{3000}b|c").unwrap();
    assert_eq!(t.cells.len(), 2);
    assert_eq!(t.cells[0].content, "a\u{3000}b");
}

#[test]
fn law_registration_sequence_on_values() {
    let mut r = XrefResolver::new();
    r.add_block("a", RefText::Plain("B1"));
    r.add_section("a", "Sec A");
    r.add_block("a", RefText::Plain("B2"));
    r.add_block("b", RefText::Plain("first"));
    r.add_block("b", RefText::Plain("second"));
    r.add_section("s2", "Title");
    r.add_section("s3", "Title");
    assert_eq!(r.link_text("a"), Some(RefText::Plain("Sec A")));
    assert_eq!(r.link_text("b"), Some(RefText::Plain("first")));
    assert_eq!(r.link_text("Title"), Some(RefText::Plain("Title")));
    assert_eq!(r.link_text("none"), None);
}

#[test]
fn law_toc_items_on_values() {
    let mut b = TocBuilder::new();
    for (level, id) in [(2u8, "a"), (3, "b"), (1, "t"), (5, "deep"), (2, "c")] {
        b.push(TocEntry { level, id: id.to_string(), title: id.to_string() });
    }
    let steps = b.toc_steps(2);
    let items: Vec<&str> = steps
        .iter()
        .filter_map(|s| match s {
            TocStep::Item(e) => Some(e.id.as_str()),
            _ => None,
        })
        .collect();
    assert_eq!(items, vec!["a", "b", "c"]);
}

#[test]
fn law_toc_prefixes_and_levels_on_values() {
    let mut b = TocBuilder::new();
    for (level, id) in [(3u8, "a"), (5, "b"), (2, "c"), (4, "d")] {
        b.push(TocEntry { level, id: id.to_string(), title: id.to_string() });
    }
    let steps = b.toc_steps(3);
    let mut depth: i32 = 0;
    for s in &steps {
        match s {
            TocStep::EnterLevel(l) => {
                assert!(2 <= *l && *l <= 4);
                depth += 1;
            }
            TocStep::LeaveLevel => {
                depth -= 1;
                assert!(depth >= 0);
            }
            _ => {}
        }
    }
    assert_eq!(depth, 0);
}
