//! Line recognisers of the scanner.

use adoc_parser::scanner::CalloutMarker::{Standard, XmlComment};
use adoc_parser::scanner::{
    AuthorInfo, CalloutMarker, CellSpec, CellStyle, DelimiterType, ExactCellSpec, HAlign,
    RevisionInfo, TableLineCells, VAlign, callout_guard_offset, count_leading, generate_id,
    icon_default_alt, is_admonition, is_attribute_entry, is_blank, is_block_attribute,
    is_block_audio, is_block_image, is_block_title, is_block_video, is_callout_list_item,
    is_delimiter, is_description_list_marker, is_include_directive, is_line_comment,
    is_list_continuation, is_list_marker_ordered, is_list_marker_unordered,
    is_markdown_code_fence, is_page_break, is_table_delimiter, is_thematic_break, is_toc_macro,
    parse_authors, parse_cell_align_prefix, parse_cell_align_suffix, parse_cell_spec_exact,
    parse_cell_style_suffix, parse_checklist_marker, parse_csv_fields, parse_dsv_fields,
    parse_revision_line, parse_span_spec, parse_table_cells, parse_table_cells_with_sep,
    parse_tsv_fields, pass_macro_span_len, pass_spec_len, passthrough_span_len,
    single_plus_span_len, split_lines, strip_any_section_marker, strip_bom,
    strip_callout_markers, strip_line_continuation, strip_markdown_heading,
    strip_section_marker, toc_macro_attrs, unescape_cell_sep,
};

#[test]
fn test_split_lines() {
    assert_eq!(split_lines("a\nb\nc"), vec!["a", "b", "c"]);
    assert_eq!(split_lines("a\r\nb\r\n"), vec!["a", "b", ""]);
    assert_eq!(split_lines(""), vec![""]);
}

#[test]
fn test_strip_bom() {
    // Leading BOM is removed (zero-copy: result is a sub-slice of the input).
    assert_eq!(strip_bom("\u{feff}= Title"), "= Title");
    // No BOM: returned unchanged.
    assert_eq!(strip_bom("= Title"), "= Title");
    assert_eq!(strip_bom(""), "");
    // Only a single leading BOM; a BOM elsewhere is left intact.
    assert_eq!(strip_bom("a\u{feff}b"), "a\u{feff}b");
    assert_eq!(strip_bom("\u{feff}\u{feff}x"), "\u{feff}x");
}

#[test]
fn test_is_blank() {
    assert!(is_blank(""));
    assert!(is_blank("   "));
    assert!(is_blank("\t"));
    assert!(!is_blank("hello"));
}

#[test]
fn test_strip_section_marker() {
    assert_eq!(strip_section_marker("= Title"), Some((1, "Title")));
    assert_eq!(strip_section_marker("== Sub"), Some((2, "Sub")));
    assert_eq!(strip_section_marker("=NoSpace"), None);
    assert_eq!(strip_section_marker("= "), None);
    // Indented section marker is a literal paragraph, not a section (column 0 only).
    assert_eq!(strip_section_marker(" == Indented"), None);
    assert_eq!(strip_section_marker("  = Two spaces"), None);
    assert_eq!(strip_section_marker("\t== Tab"), None);
}

#[test]
fn test_is_thematic_break() {
    // AsciiDoc apostrophe form and Markdown-style forms.
    for s in ["'''", "---", "***", "___", "- - -", "* * *", "_ _ _", "-  -  -"] {
        assert!(is_thematic_break(s), "expected thematic break: {s:?}");
    }
    // Up to 3 leading spaces allowed; trailing whitespace ignored.
    assert!(is_thematic_break("   ---"));
    assert!(is_thematic_break("---   "));
    // Four leading spaces, four markers, two markers, inconsistent spacing.
    assert!(!is_thematic_break("    ---"));
    assert!(!is_thematic_break("----"));
    assert!(!is_thematic_break("--"));
    assert!(!is_thematic_break("- - - -"));
    assert!(!is_thematic_break("- -  -"));
    assert!(!is_thematic_break("* **"));
    assert!(!is_thematic_break("abc"));
}

#[test]
fn test_is_delimiter() {
    assert_eq!(is_delimiter("----"), Some((DelimiterType::Listing, 4)));
    assert_eq!(is_delimiter("...."), Some((DelimiterType::Literal, 4)));
    assert_eq!(is_delimiter("===="), Some((DelimiterType::Example, 4)));
    assert_eq!(is_delimiter("****"), Some((DelimiterType::Sidebar, 4)));
    assert_eq!(is_delimiter("____"), Some((DelimiterType::Quote, 4)));
    assert_eq!(is_delimiter("--"), Some((DelimiterType::Open, 2)));
    assert_eq!(is_delimiter("////"), Some((DelimiterType::Comment, 4)));
    assert_eq!(is_delimiter("++++"), Some((DelimiterType::Passthrough, 4)));
    assert_eq!(is_delimiter("---"), None);
    assert_eq!(is_delimiter("abc"), None);
}

#[test]
fn test_is_list_marker_unordered() {
    assert_eq!(is_list_marker_unordered("* item"), Some((1, "item")));
    assert_eq!(is_list_marker_unordered("** nested"), Some((2, "nested")));
    assert_eq!(is_list_marker_unordered("*bold*"), None);
    // Hyphen is a distinct marker family → identity 0 (never collides with
    // the `*`-count identities, so `- x` nests under `* y`).
    assert_eq!(is_list_marker_unordered("- item"), Some((0, "item")));
    assert_eq!(is_list_marker_unordered("-no-space"), None);
}

#[test]
fn test_is_list_marker_ordered() {
    assert_eq!(is_list_marker_ordered(". item"), Some((1, "item")));
    assert_eq!(is_list_marker_ordered(".. nested"), Some((2, "nested")));
}

#[test]
fn test_is_admonition() {
    assert_eq!(is_admonition("NOTE: text"), Some(("NOTE", "text")));
    assert_eq!(is_admonition("TIP: text"), Some(("TIP", "text")));
    assert_eq!(is_admonition("NOTHING: text"), None);
}

#[test]
fn test_is_block_image() {
    assert_eq!(
        is_block_image("image::path/to/img.png[Alt text]"),
        Some(("path/to/img.png", "Alt text"))
    );
    // Must end with `]` (BlockMediaMacroRx `\]$`): trailing content after
    // the closing bracket demotes the line to a paragraph.
    assert_eq!(is_block_image("image::sunset.jpg[] <.> <.>"), None);
    assert_eq!(is_block_image("image::sunset.jpg[Alt,200,100] <.>"), None);
    assert_eq!(is_block_image("image::sunset.jpg[]trailing"), None);
    // Trailing whitespace is rstripped before the anchor check.
    assert_eq!(is_block_image("image::x[]  "), Some(("x", "")));
    // Target may contain internal whitespace but not leading/trailing.
    assert_eq!(is_block_image("image::a b[Alt]"), Some(("a b", "Alt")));
    assert_eq!(is_block_image("image:: x[y]"), None);
    assert_eq!(is_block_image("image::x [Alt]"), None);
    // The closing bracket is the last `]`; inner brackets stay in attrs.
    assert_eq!(is_block_image("image::x[a]b]"), Some(("x", "a]b")));
    assert_eq!(is_block_image("image::[]"), None); // empty target
}

#[test]
fn test_is_block_video() {
    assert_eq!(
        is_block_video("video::video.mp4[]"),
        Some(("video.mp4", ""))
    );
    assert_eq!(
        is_block_video("video::video.mp4[width=640,start=60,options=\"autoplay,loop\"]"),
        Some(("video.mp4", "width=640,start=60,options=\"autoplay,loop\""))
    );
    assert_eq!(
        is_block_video("video::path/to/video.mp4[poster=preview.jpg]"),
        Some(("path/to/video.mp4", "poster=preview.jpg"))
    );
    assert_eq!(is_block_video("video::[]"), None); // empty target
    assert_eq!(is_block_video("video::file.mp4"), None); // no brackets
    assert_eq!(is_block_video("not video::file.mp4[]"), None); // not at start
}

#[test]
fn test_is_block_audio() {
    assert_eq!(
        is_block_audio("audio::audio.mp3[]"),
        Some(("audio.mp3", ""))
    );
    assert_eq!(
        is_block_audio("audio::audio.mp3[options=\"autoplay,loop\"]"),
        Some(("audio.mp3", "options=\"autoplay,loop\""))
    );
    assert_eq!(is_block_audio("audio::[]"), None); // empty target
    assert_eq!(is_block_audio("audio::file.mp3"), None); // no brackets
}

#[test]
fn test_generate_id() {
    // Default prefix and separator
    assert_eq!(generate_id("My Title", "_", "_"), "_my_title");
    assert_eq!(generate_id("Hello World!", "_", "_"), "_hello_world");

    // Empty prefix
    assert_eq!(generate_id("My Title", "", "_"), "my_title");

    // Custom separator
    assert_eq!(generate_id("My Title", "_", "-"), "_my-title");

    // Empty prefix + custom separator
    assert_eq!(generate_id("My Title", "", "-"), "my-title");

    // Custom prefix
    assert_eq!(generate_id("My Title", "id-", "_"), "id-my_title");

    // Empty separator (no separator char — falls back to '_')
    assert_eq!(generate_id("My Title", "_", ""), "_my_title");

    // Unicode (Cyrillic) — should lowercase properly
    assert_eq!(generate_id("Базовые Принципы", "_", "_"), "_базовые_принципы");

    // URLs in title — should use link text, not URL
    assert_eq!(
        generate_id("Text https://example.com/api[Open API] more", "_", "_"),
        "_text_open_api_more"
    );

    // Bare URL — should be stripped
    assert_eq!(
        generate_id("Text https://example.com/api more", "_", "_"),
        "_text_more"
    );

    // link: macro
    assert_eq!(
        generate_id("See link:file.html[the docs]", "_", "_"),
        "_see_the_docs"
    );

    // Dots act as word separators (like spaces/hyphens), not dropped.
    // Asciidoctor: "0.3.0 Milestone Build" -> _0_3_0_milestone_build
    assert_eq!(
        generate_id("0.3.0 Milestone Build", "_", "_"),
        "_0_3_0_milestone_build"
    );
    // A run of separators (dot + space) collapses to a single separator.
    assert_eq!(generate_id("Foo. Bar", "_", "_"), "_foo_bar");

    // icon: macro in a heading → uses its alt text (default = basename.tr('_-',' ')),
    // not the literal `icon:name[]`. Mirrors Asciidoctor's macro-substituted title.
    assert_eq!(
        generate_id("icon:fast-forward[] Migration", "_", "_"),
        "_fast_forward_migration"
    );
    assert_eq!(
        generate_id("icon:ticket[] Resolved Issues", "_", "_"),
        "_ticket_resolved_issues"
    );
    // basename drops the extension and the path.
    assert_eq!(generate_id("icon:foo.bar[] X", "_", "_"), "_foo_x");
    assert_eq!(generate_id("icon:path/to/heart[] Y", "_", "_"), "_heart_y");
    // dots in the stem stay (become separators in the id).
    assert_eq!(generate_id("Pre icon:a.b.c[] Post", "_", "_"), "_pre_a_b_post");
    // positional arg is `size`, ignored for alt.
    assert_eq!(generate_id("icon:heart[Big] End", "_", "_"), "_heart_end");
    // explicit alt= wins (quotes are dropped by the char filter).
    assert_eq!(generate_id("icon:heart[alt=\"A B\"] Z", "_", "_"), "_a_b_z");
    // malformed icon macro degrades to literal text.
    assert_eq!(generate_id("icon:noclose Heading", "_", "_"), "_iconnoclose_heading");
}

#[test]
fn test_icon_default_alt() {
    // tr('_-', ' ')
    assert_eq!(icon_default_alt("fast-forward"), "fast forward");
    assert_eq!(icon_default_alt("my_cool_icon"), "my cool icon");
    assert_eq!(icon_default_alt("foo_bar-baz"), "foo bar baz");
    // basename: drop directory and trailing extension.
    assert_eq!(icon_default_alt("foo.bar"), "foo");
    assert_eq!(icon_default_alt("path/to/heart"), "heart");
    // only the LAST extension is dropped.
    assert_eq!(icon_default_alt("a.b.c"), "a.b");
    // a leading dot is not an extension.
    assert_eq!(icon_default_alt(".hidden"), ".hidden");
    // plain name unchanged.
    assert_eq!(icon_default_alt("heart"), "heart");
}

#[test]
fn test_is_attribute_entry() {
    assert_eq!(is_attribute_entry(":key: value"), Some(("key", "value")));
    assert_eq!(is_attribute_entry(":toc:"), Some(("toc", "")));
    assert_eq!(is_attribute_entry("not attr"), None);
    // A `::` after the name is NOT an attribute entry — it's a description-list
    // term (`:context::` → term `:context`). Mirror of AttributeEntryRx: the
    // separator colon must be followed by whitespace or end-of-line.
    assert_eq!(is_attribute_entry(":context:: A single block."), None);
    assert_eq!(is_attribute_entry(":foo:bar:: desc"), None);
    // No-space value (`:key:value`) is also not an attribute entry in Asciidoctor.
    assert_eq!(is_attribute_entry(":key:value"), None);
    // Value whose first char is `:` (after a space) stays a valid entry.
    assert_eq!(is_attribute_entry(":author: :smile:"), Some(("author", ":smile:")));
}

#[test]
fn test_is_block_attribute() {
    assert_eq!(is_block_attribute("[source,rust]"), Some("source,rust"));
    assert_eq!(is_block_attribute("[]"), Some(""));
    assert_eq!(is_block_attribute("[ id=idname ]"), None);
    assert_eq!(is_block_attribute("not block attr"), None);
    // Shorthand/quoted/attr-ref first chars are allowed
    assert_eq!(is_block_attribute("[#id.role]"), Some("#id.role"));
    assert_eq!(is_block_attribute("[.role]"), Some(".role"));
    assert_eq!(is_block_attribute("[%opt]"), Some("%opt"));
    assert_eq!(is_block_attribute("[,ruby]"), Some(",ruby"));
    assert_eq!(is_block_attribute("[\"a\",\"b\"]"), Some("\"a\",\"b\""));
    assert_eq!(is_block_attribute("[{attr}]"), Some("{attr}"));
    // Block anchor: only when the whole line is the anchor
    assert_eq!(is_block_attribute("[[id]]"), Some("[id]"));
    assert_eq!(is_block_attribute("[[id,Some reftext]]"), Some("[id,Some reftext]"));
    // Trailing content after ]] → paragraph with inline anchor, not an attrlist
    assert_eq!(is_block_attribute("[[id]]image:tiger.png[Image of a tiger]"), None);
    assert_eq!(is_block_attribute("[[]]"), None);
}

#[test]
fn test_is_line_comment() {
    assert!(is_line_comment("// this is a comment"));
    assert!(is_line_comment("//"));
    assert!(is_line_comment("///"));
    assert!(!is_line_comment("////"));
    assert!(!is_line_comment("/////"));
    assert!(!is_line_comment("not a comment"));
}

#[test]
fn test_is_block_title() {
    assert_eq!(is_block_title(".My Title"), Some("My Title"));
    assert_eq!(is_block_title("..not"), None);
    assert_eq!(is_block_title(". space"), None);
}

#[test]
fn test_is_list_continuation() {
    assert!(is_list_continuation("+"));
    assert!(is_list_continuation("  +  "));
    assert!(!is_list_continuation("++"));
    assert!(!is_list_continuation("+ text"));
    assert!(!is_list_continuation(""));
    assert!(!is_list_continuation("++++"));
}

#[test]
fn test_is_description_list_marker() {
    assert_eq!(
        is_description_list_marker("CPU:: The brain"),
        Some((1, "CPU", "The brain"))
    );
    assert_eq!(
        is_description_list_marker("Speed::: Fast"),
        Some((2, "Speed", "Fast"))
    );
    assert_eq!(
        is_description_list_marker("Term::::"),
        Some((3, "Term", ""))
    );
    assert_eq!(is_description_list_marker(":: no term"), None);
    assert_eq!(is_description_list_marker("just text"), None);
    assert_eq!(is_description_list_marker("::::: too many"), None);
    assert_eq!(is_description_list_marker("a::b"), None); // no space after ::
    assert_eq!(
        is_description_list_marker("Term::"),
        Some((1, "Term", ""))
    );
    // A term may begin with a colon — the leading colon is part of the term
    // (matches Asciidoctor's `<dt>:context</dt>`).
    assert_eq!(
        is_description_list_marker(":context:: A single block."),
        Some((1, ":context", "A single block."))
    );
    assert_eq!(
        is_description_list_marker(":foo:bar:: desc"),
        Some((1, ":foo:bar", "desc"))
    );
}

#[test]
fn test_is_toc_macro() {
    assert!(is_toc_macro("toc::[]"));
    assert!(is_toc_macro("  toc::[]  "));
    assert!(is_toc_macro("toc::[levels=3]"));
    assert!(!is_toc_macro("toc::"));
    assert!(!is_toc_macro("toc::["));
    assert!(!is_toc_macro(""));
    assert!(!is_toc_macro("something toc::[]"));
    assert!(!is_toc_macro("toc::[]extra"));
}

#[test]
fn test_toc_macro_attrs() {
    assert_eq!(toc_macro_attrs("toc::[]"), Some(""));
    assert_eq!(toc_macro_attrs("  toc::[]  "), Some(""));
    assert_eq!(toc_macro_attrs("toc::[levels=1]"), Some("levels=1"));
    assert_eq!(toc_macro_attrs("toc::"), None);
    assert_eq!(toc_macro_attrs("toc::[levels=1"), None);
    assert_eq!(toc_macro_attrs("not a toc"), None);
}

#[test]
fn test_is_include_directive() {
    assert_eq!(
        is_include_directive("include::file.adoc[]"),
        Some(("file.adoc", ""))
    );
    assert_eq!(
        is_include_directive("include::sub/path.adoc[leveloffset=+1]"),
        Some(("sub/path.adoc", "leveloffset=+1"))
    );
    assert_eq!(
        is_include_directive("include::chapter.adoc[leveloffset=+1,lines=1..10]"),
        Some(("chapter.adoc", "leveloffset=+1,lines=1..10"))
    );
    assert_eq!(is_include_directive("include::[]"), None); // empty path
    assert_eq!(is_include_directive("include::file.adoc"), None); // no brackets
    assert_eq!(is_include_directive("not include::file[]"), None); // not at start
    assert_eq!(is_include_directive("include::file.adoc]["), None); // malformed
    assert_eq!(is_include_directive(""), None);
    // IncludeDirectiveRx is anchored: `]` must end the line; trailing
    // remainder or leading indent makes the line plain text (probe-verified).
    assert_eq!(is_include_directive("include::core.rb[tag=parse] <.>"), None);
    assert_eq!(is_include_directive("  include::file.adoc[]"), None);
    assert_eq!(
        is_include_directive("include::file.adoc[]  "),
        Some(("file.adoc", ""))
    ); // reader lines are right-trimmed
    assert_eq!(
        is_include_directive("include::no pe.adoc[]"),
        Some(("no pe.adoc", ""))
    ); // interior whitespace in target is fine
    assert_eq!(is_include_directive("include:: x.adoc[]"), None); // leading ws in target
}

#[test]
fn test_is_table_delimiter() {
    assert!(is_table_delimiter("|==="));
    assert!(is_table_delimiter("  |===  "));
    assert!(is_table_delimiter("|====")); // 4+ equals also valid (asciidoctor)
    assert!(is_table_delimiter("|=========="));
    assert!(!is_table_delimiter("===="));
    assert!(!is_table_delimiter("|==")); // need at least 3 equals
    assert!(!is_table_delimiter("|")); // pipe alone is not a delimiter
    assert!(!is_table_delimiter("|=== x")); // trailing content disqualifies
    assert!(!is_table_delimiter(""));
    // CSV (`,===`) and DSV (`:===`) shorthand delimiters
    assert!(is_table_delimiter(",==="));
    assert!(is_table_delimiter("  :====  "));
    assert!(!is_table_delimiter(",==")); // need at least 3 equals
    assert!(!is_table_delimiter(":")); // colon alone is not a delimiter
    assert!(!is_table_delimiter(":name: value")); // attribute entry, not a delimiter
    // Nested-table delimiter (`!===`, `!` cell separator)
    assert!(is_table_delimiter("!==="));
    assert!(is_table_delimiter("  !====  "));
    assert!(!is_table_delimiter("!==")); // need at least 3 equals
    assert!(!is_table_delimiter("!")); // bang alone is not a delimiter
}

fn cell(content: &str) -> CellSpec {
    CellSpec { content: content.to_string(), duplication: 1, colspan: 1, rowspan: 1, style: CellStyle::Default, style_explicit: false, halign: HAlign::default(), valign: VAlign::default(), halign_explicit: false, valign_explicit: false }
}

fn spanned_cell(content: &str, colspan: u8, rowspan: u8) -> CellSpec {
    CellSpec { content: content.to_string(), duplication: 1, colspan, rowspan, style: CellStyle::Default, style_explicit: false, halign: HAlign::default(), valign: VAlign::default(), halign_explicit: false, valign_explicit: false }
}

fn styled_cell(content: &str, style: CellStyle) -> CellSpec {
    CellSpec { content: content.to_string(), duplication: 1, colspan: 1, rowspan: 1, style, style_explicit: true, halign: HAlign::default(), valign: VAlign::default(), halign_explicit: false, valign_explicit: false }
}

fn spanned_styled_cell(content: &str, colspan: u8, rowspan: u8, style: CellStyle) -> CellSpec {
    CellSpec { content: content.to_string(), duplication: 1, colspan, rowspan, style, style_explicit: true, halign: HAlign::default(), valign: VAlign::default(), halign_explicit: false, valign_explicit: false }
}

// The aligned-cell assertions below only use non-default alignment
// operators, so explicit-ness mirrors "value differs from default".
fn aligned_cell(content: &str, halign: HAlign, valign: VAlign) -> CellSpec {
    CellSpec { content: content.to_string(), duplication: 1, colspan: 1, rowspan: 1, style: CellStyle::Default, style_explicit: false, halign, valign, halign_explicit: halign != HAlign::default(), valign_explicit: valign != VAlign::default() }
}

/// Cells of a parsed table line (continuation ignored), for assertions.
fn line_cells(line: &str) -> Option<Vec<CellSpec>> {
    parse_table_cells(line).map(|t| t.cells)
}

#[test]
fn test_parse_table_cells() {
    assert_eq!(
        line_cells("| A | B | C"),
        Some(vec![cell("A"), cell("B"), cell("C")])
    );
    // A trailing `|` opens an (empty) cell — asciidoctor renders it as
    // a bare <td></td>
    assert_eq!(
        line_cells("| A | B |"),
        Some(vec![cell("A"), cell("B"), cell("")])
    );
    assert_eq!(line_cells("no pipe"), None);
    assert_eq!(
        line_cells("| single"),
        Some(vec![cell("single")])
    );
    // Text before the first `|` continues the previous line's last cell
    let t = parse_table_cells("mid |late").unwrap();
    assert_eq!(t.continuation.as_deref(), Some("mid"));
    assert_eq!(t.cells, vec![cell("late")]);
    // A span spec may sit between the continuation text and the `|`
    let t = parse_table_cells("tail 2+|wide").unwrap();
    assert_eq!(t.continuation.as_deref(), Some("tail"));
    assert_eq!(t.cells, vec![spanned_cell("wide", 2, 1)]);
    // A pure spec prefix is not a continuation
    let t = parse_table_cells("2+| x").unwrap();
    assert_eq!(t.continuation, None);
    assert_eq!(t.cells, vec![spanned_cell("x", 2, 1)]);
}

#[test]
fn test_parse_table_cells_bang_separator() {
    // Nested tables (`!===`) split on `!`, not `|`. A literal `|` is then
    // ordinary cell content.
    assert_eq!(
        parse_table_cells_with_sep("! C11 ! C12", b'!').map(|t| t.cells),
        Some(vec![cell("C11"), cell("C12")])
    );
    assert_eq!(
        parse_table_cells_with_sep("! a | b ! c", b'!').map(|t| t.cells),
        Some(vec![cell("a | b"), cell("c")])
    );
    // No `!` → not a `!`-table line (continuation), even with a `|` present
    assert_eq!(parse_table_cells_with_sep("a | b", b'!'), None);
    // `\!` is an escaped separator under the `!` rule
    assert_eq!(
        parse_table_cells_with_sep("!a \\! b !c", b'!').map(|t| t.cells),
        Some(vec![cell("a ! b"), cell("c")])
    );
}

#[test]
fn test_parse_table_cells_escaped_pipe() {
    // `\|` is an escaped separator: no split, one backslash consumed
    assert_eq!(
        line_cells("|a \\| b |c"),
        Some(vec![cell("a | b"), cell("c")])
    );
    // Cell consisting of an escaped table delimiter (delimited.adoc)
    assert_eq!(line_cells("|\\|==="), Some(vec![cell("|===")]));
    // `\\|`: the pipe is still escaped, exactly one backslash consumed
    assert_eq!(line_cells("|a \\\\| b"), Some(vec![cell("a \\| b")]));
    // A line with only escaped pipes is not a table line (pure continuation)
    assert_eq!(parse_table_cells("tail \\| more"), None);
    // Escaped pipe in continuation text before an unescaped separator
    let t = parse_table_cells("tail \\| more |next").unwrap();
    assert_eq!(t.continuation.as_deref(), Some("tail | more"));
    assert_eq!(t.cells, vec![cell("next")]);
}

#[test]
fn test_parse_cell_spec_exact() {
    let sp = parse_cell_spec_exact("2*>m").unwrap();
    assert_eq!((sp.duplication, sp.halign, sp.style), (2, HAlign::Right, CellStyle::Monospace));
    let sp = parse_cell_spec_exact(".3+^.>s").unwrap();
    assert_eq!((sp.colspan, sp.rowspan, sp.halign, sp.valign, sp.style),
               (1, 3, HAlign::Center, VAlign::Bottom, CellStyle::Strong));
    let sp = parse_cell_spec_exact("2.3+").unwrap();
    assert_eq!((sp.colspan, sp.rowspan), (2, 3));
    // Explicit-alignment flags: `<.>` sets an explicit Left (the default
    // value) and an explicit Bottom — both must be flagged so a cell can
    // override a non-default column alignment (cell.adoc `.3+<.>m`).
    let sp = parse_cell_spec_exact(".3+<.>m").unwrap();
    assert_eq!(
        (sp.halign, sp.valign, sp.halign_explicit, sp.valign_explicit),
        (HAlign::Left, VAlign::Bottom, true, true)
    );
    // A bare span spec carries no explicit alignment.
    let sp = parse_cell_spec_exact("2.3+").unwrap();
    assert_eq!((sp.halign_explicit, sp.valign_explicit), (false, false));
    // Partial matches are not specs
    assert!(parse_cell_spec_exact("mid").is_none());
    assert!(parse_cell_spec_exact("x2+").is_none());
    assert!(parse_cell_spec_exact("").is_none());
}

#[test]
fn test_parse_table_cells_duplication() {
    // `2*|x` keeps the factor unexpanded (the cell may still grow via
    // continuation lines; the block scanner expands copies later)
    let t = parse_table_cells("2*>m|dup").unwrap();
    assert_eq!(t.cells.len(), 1);
    let c = &t.cells[0];
    assert_eq!((c.content.as_str(), c.duplication, c.halign, c.style),
               ("dup", 2, HAlign::Right, CellStyle::Monospace));
}

#[test]
fn test_parse_span_spec() {
    // No spec
    assert_eq!(parse_span_spec("hello"), ("hello", 1, 1));
    // Colspan only
    assert_eq!(parse_span_spec("2+"), ("", 2, 1));
    // Rowspan only
    assert_eq!(parse_span_spec(".3+"), ("", 1, 3));
    // Both
    assert_eq!(parse_span_spec("2.3+"), ("", 2, 3));
    // With content before
    assert_eq!(parse_span_spec("text 2+"), ("text", 2, 1));
    // Plain `+` is not a span spec
    assert_eq!(parse_span_spec("+"), ("+", 1, 1));
}

#[test]
fn test_parse_table_cells_with_colspan() {
    assert_eq!(
        line_cells("| A 2+| B spans"),
        Some(vec![cell("A"), spanned_cell("B spans", 2, 1)])
    );
}

#[test]
fn test_parse_table_cells_with_rowspan() {
    assert_eq!(
        line_cells(".2+| C spans | D"),
        Some(vec![spanned_cell("C spans", 1, 2), cell("D")])
    );
}

#[test]
fn test_parse_table_cells_with_both_spans() {
    assert_eq!(
        line_cells("2.3+| cell"),
        Some(vec![spanned_cell("cell", 2, 3)])
    );
}

#[test]
fn test_strip_callout_markers() {
        // Compare against the borrowed/owned text uniformly via `as_ref`.
    let check = |input: &str, text: &str, markers: Vec<CalloutMarker>| {
        let (t, m) = strip_callout_markers(input);
        assert_eq!((t.as_str(), m), (text, markers), "input={input:?}");
    };
    // Standard numbered
    check("require 'sinatra' <1>", "require 'sinatra' ", vec![Standard(1)]);
    check("code <1> <2>", "code ", vec![Standard(1), Standard(2)]);
    check("no callouts", "no callouts", vec![]);
    check("<1>", "", vec![Standard(1)]);
    check("code <12>", "code ", vec![Standard(12)]);
    // Autonumbered
    check("code <.>", "code ", vec![Standard(0)]);
    check("code <.> <.>", "code ", vec![Standard(0), Standard(0)]);
    // XML comment callouts
    check("code <!--1-->", "code ", vec![XmlComment(1)]);
    check("code <!--.-->", "code ", vec![XmlComment(0)]);
    check(
        "  <title>Title</title> <!--1-->",
        "  <title>Title</title> ",
        vec![XmlComment(1)],
    );
    // Escaped markers (`\<N>` / `\<!--N-->`): NOT a conum — the backslash is
    // dropped and the marker stays literal (Asciidoctor `CalloutSourceRx`).
    check("x = 1 \\<1>", "x = 1 <1>", vec![]);
    check("// \\<1>", "// <1>", vec![]);
    check("\\<1>", "<1>", vec![]);
    check("  <title>T</title> \\<!--1-->", "  <title>T</title> <!--1-->", vec![]);
    // Escaped marker to the LEFT of a real one: the run stops at the escape;
    // the real (right) marker is still a conum, the escaped one stays literal.
    check("code \\<1> <2>", "code <1> ", vec![Standard(2)]);
}

#[test]
fn test_callout_guard_offset() {
    // Comment token + single space → guard starts at the token, keeps the
    // trailing space in the slice; the space before the token stays in the
    // preceding text.
    let s = "require 'asciidoctor' # ";
    assert_eq!(&s[callout_guard_offset(s)..], "# ");
    let s = "get '/hi' do // ";
    assert_eq!(&s[callout_guard_offset(s)..], "// ");
    // No trailing space (marker was directly adjacent).
    let s = "foo ;;";
    assert_eq!(&s[callout_guard_offset(s)..], ";;");
    let s = "x--";
    assert_eq!(&s[callout_guard_offset(s)..], "--");
    let s = "code #";
    assert_eq!(&s[callout_guard_offset(s)..], "#");
    // Two spaces before the marker → not a guard (Asciidoctor allows one).
    let s = "x #  ";
    assert_eq!(callout_guard_offset(s), s.len());
    // No comment token.
    let s = "plain text ";
    assert_eq!(callout_guard_offset(s), s.len());
    assert_eq!(callout_guard_offset(""), 0);
}

#[test]
fn test_is_callout_list_item() {
    assert_eq!(
        is_callout_list_item("<1> Library import"),
        Some((1, "Library import"))
    );
    assert_eq!(
        is_callout_list_item("<12> Two digits"),
        Some((12, "Two digits"))
    );
    assert_eq!(is_callout_list_item("not a callout"), None);
    assert_eq!(is_callout_list_item("<1>no space"), None);
    assert_eq!(
        is_callout_list_item("<3>"),
        Some((3, ""))
    );
}

#[test]
fn test_parse_checklist_marker() {
    assert_eq!(parse_checklist_marker("[x] Task"), (Some(true), "Task"));
    assert_eq!(parse_checklist_marker("[ ] Task"), (Some(false), "Task"));
    assert_eq!(parse_checklist_marker("Regular"), (None, "Regular"));
    assert_eq!(parse_checklist_marker("[x]no space"), (None, "[x]no space"));
    assert_eq!(parse_checklist_marker("[ ]no space"), (None, "[ ]no space"));
    assert_eq!(parse_checklist_marker("[x] "), (Some(true), ""));
}

#[test]
fn test_strip_line_continuation_soft() {
    assert_eq!(
        strip_line_continuation("value \\"),
        Some(("value", false))
    );
}

#[test]
fn test_strip_line_continuation_hard() {
    assert_eq!(
        strip_line_continuation("value + \\"),
        Some(("value", true))
    );
}

#[test]
fn test_strip_line_continuation_none() {
    assert_eq!(strip_line_continuation("value"), None);
}

#[test]
fn test_strip_line_continuation_no_space() {
    assert_eq!(strip_line_continuation("value\\"), None);
}

#[test]
fn test_strip_line_continuation_empty_prefix() {
    assert_eq!(
        strip_line_continuation(" \\"),
        Some(("", false))
    );
}

#[test]
fn test_parse_cell_style_suffix() {
    // Standalone style letter
    assert_eq!(parse_cell_style_suffix("a"), ("", CellStyle::AsciiDoc, true));
    assert_eq!(parse_cell_style_suffix("h"), ("", CellStyle::Header, true));
    assert_eq!(parse_cell_style_suffix("e"), ("", CellStyle::Emphasis, true));
    assert_eq!(parse_cell_style_suffix("m"), ("", CellStyle::Monospace, true));
    assert_eq!(parse_cell_style_suffix("s"), ("", CellStyle::Strong, true));
    assert_eq!(parse_cell_style_suffix("l"), ("", CellStyle::Literal, true));
    // Explicit default (d) and verse (v) consume the spec char too
    assert_eq!(parse_cell_style_suffix("d"), ("", CellStyle::Default, true));
    assert_eq!(parse_cell_style_suffix("v"), ("", CellStyle::Default, true));
    // After span spec (ends with +)
    assert_eq!(parse_cell_style_suffix("2+a"), ("2+", CellStyle::AsciiDoc, true));
    assert_eq!(parse_cell_style_suffix("2.3+s"), ("2.3+", CellStyle::Strong, true));
    // Content ending with style letter — NOT a style
    assert_eq!(parse_cell_style_suffix("data"), ("data", CellStyle::Default, false));
    assert_eq!(parse_cell_style_suffix("date"), ("date", CellStyle::Default, false));
    // Empty
    assert_eq!(parse_cell_style_suffix(""), ("", CellStyle::Default, false));
    // Trailing space — last char is space, not a style letter
    assert_eq!(parse_cell_style_suffix(" a "), (" a ", CellStyle::Default, false));
    assert_eq!(parse_cell_style_suffix(" data "), (" data ", CellStyle::Default, false));
    // Style letter preceded by space (content + space + style)
    assert_eq!(parse_cell_style_suffix(" A e"), (" A ", CellStyle::Emphasis, true));
    assert_eq!(parse_cell_style_suffix(" text s"), (" text ", CellStyle::Strong, true));
}

#[test]
fn test_parse_table_cells_with_style() {
    assert_eq!(
        line_cells("e| italic text"),
        Some(vec![styled_cell("italic text", CellStyle::Emphasis)])
    );
    assert_eq!(
        line_cells("s| bold text"),
        Some(vec![styled_cell("bold text", CellStyle::Strong)])
    );
    assert_eq!(
        line_cells("h| header text"),
        Some(vec![styled_cell("header text", CellStyle::Header)])
    );
    assert_eq!(
        line_cells("m| mono text"),
        Some(vec![styled_cell("mono text", CellStyle::Monospace)])
    );
    assert_eq!(
        line_cells("l| literal text"),
        Some(vec![styled_cell("literal text", CellStyle::Literal)])
    );
    assert_eq!(
        line_cells("a| asciidoc text"),
        Some(vec![styled_cell("asciidoc text", CellStyle::AsciiDoc)])
    );
}

#[test]
fn test_parse_table_cells_span_plus_style() {
    assert_eq!(
        line_cells("2+e| wide italic"),
        Some(vec![spanned_styled_cell("wide italic", 2, 1, CellStyle::Emphasis)])
    );
    assert_eq!(
        line_cells("2.3+s| big bold"),
        Some(vec![spanned_styled_cell("big bold", 2, 3, CellStyle::Strong)])
    );
}

#[test]
fn test_parse_table_cells_style_disambiguation() {
    // Content that ends with a style letter should NOT be treated as styled
    assert_eq!(
        line_cells("| data | more"),
        Some(vec![cell("data"), cell("more")])
    );
    // Inline style between cells
    assert_eq!(
        line_cells("| A e| B | C"),
        Some(vec![cell("A"), styled_cell("B", CellStyle::Emphasis), cell("C")])
    );
}

#[test]
fn test_parse_table_cells_trailing_letter_is_content() {
    // A spec only attaches to a following `|`; at end of line a single
    // style letter (or span/align chars) is plain cell content.
    assert_eq!(line_cells("|a"), Some(vec![cell("a")]));
    assert_eq!(line_cells("|d |e"), Some(vec![cell("d"), cell("e")]));
    assert_eq!(line_cells("|text 2+"), Some(vec![cell("text 2+")]));
    assert_eq!(line_cells("|x ^"), Some(vec![cell("x ^")]));
    // ...while mid-line the trailing letter is the NEXT cell's style
    assert_eq!(
        line_cells("|one a|two"),
        Some(vec![cell("one"), styled_cell("two", CellStyle::AsciiDoc)])
    );
}

#[test]
fn test_parse_cell_align_prefix_halign() {
    assert_eq!(parse_cell_align_prefix("^"), ("", HAlign::Center, VAlign::Top, true, false));
    assert_eq!(parse_cell_align_prefix("<"), ("", HAlign::Left, VAlign::Top, true, false));
    assert_eq!(parse_cell_align_prefix(">"), ("", HAlign::Right, VAlign::Top, true, false));
}

#[test]
fn test_parse_cell_align_prefix_valign() {
    assert_eq!(parse_cell_align_prefix(".<"), ("", HAlign::Left, VAlign::Top, false, true));
    assert_eq!(parse_cell_align_prefix(".^"), ("", HAlign::Left, VAlign::Middle, false, true));
    assert_eq!(parse_cell_align_prefix(".>"), ("", HAlign::Left, VAlign::Bottom, false, true));
}

#[test]
fn test_parse_cell_align_prefix_combined() {
    assert_eq!(parse_cell_align_prefix("^.>"), ("", HAlign::Center, VAlign::Bottom, true, true));
    assert_eq!(parse_cell_align_prefix(">.^rest"), ("rest", HAlign::Right, VAlign::Middle, true, true));
}

#[test]
fn test_parse_cell_align_prefix_no_align() {
    assert_eq!(parse_cell_align_prefix(""), ("", HAlign::Left, VAlign::Top, false, false));
    assert_eq!(parse_cell_align_prefix("text"), ("text", HAlign::Left, VAlign::Top, false, false));
}

#[test]
fn test_parse_table_cells_with_halign() {
    assert_eq!(
        line_cells("^| centered"),
        Some(vec![aligned_cell("centered", HAlign::Center, VAlign::Top)])
    );
    assert_eq!(
        line_cells(">| right"),
        Some(vec![aligned_cell("right", HAlign::Right, VAlign::Top)])
    );
}

#[test]
fn test_parse_table_cells_with_valign() {
    assert_eq!(
        line_cells(".^| middle"),
        Some(vec![aligned_cell("middle", HAlign::Left, VAlign::Middle)])
    );
}

#[test]
fn test_parse_table_cells_with_combined_align() {
    assert_eq!(
        line_cells(">.^| right-middle"),
        Some(vec![aligned_cell("right-middle", HAlign::Right, VAlign::Middle)])
    );
}

#[test]
fn test_parse_table_cells_align_between_pipes() {
    assert_eq!(
        line_cells("| A ^| B | C"),
        Some(vec![
            cell("A"),
            aligned_cell("B", HAlign::Center, VAlign::Top),
            cell("C"),
        ])
    );
}

#[test]
fn test_parse_authors_single() {
    let authors = parse_authors("John Doe <john@example.com>");
    assert_eq!(authors.len(), 1);
    assert_eq!(authors[0].fullname, "John Doe");
    assert_eq!(authors[0].firstname, "John");
    assert_eq!(authors[0].middlename, "");
    assert_eq!(authors[0].lastname, "Doe");
    assert_eq!(authors[0].initials, "JD");
    assert_eq!(authors[0].address, "john@example.com");
}

#[test]
fn test_parse_authors_multiple() {
    let authors = parse_authors("John Doe; Jane Smith <jane@example.com>");
    assert_eq!(authors.len(), 2);
    assert_eq!(authors[0].fullname, "John Doe");
    assert_eq!(authors[0].firstname, "John");
    assert_eq!(authors[0].lastname, "Doe");
    assert_eq!(authors[0].address, "");
    assert_eq!(authors[1].fullname, "Jane Smith");
    assert_eq!(authors[1].firstname, "Jane");
    assert_eq!(authors[1].lastname, "Smith");
    assert_eq!(authors[1].initials, "JS");
    assert_eq!(authors[1].address, "jane@example.com");
}

#[test]
fn test_parse_revision_line_all_fields() {
    let rev = parse_revision_line("v1.0, 2024-01-01: Initial release").unwrap();
    assert_eq!(rev.version, Some("1.0"));
    assert_eq!(rev.date, "2024-01-01");
    assert_eq!(rev.remark, Some("Initial release"));
}

#[test]
fn test_parse_revision_line_version_and_date() {
    let rev = parse_revision_line("v1.0, 2024-01-01").unwrap();
    assert_eq!(rev.version, Some("1.0"));
    assert_eq!(rev.date, "2024-01-01");
    assert_eq!(rev.remark, None);
}

#[test]
fn test_parse_revision_line_version_only() {
    let rev = parse_revision_line("v1.0").unwrap();
    assert_eq!(rev.version, Some("1.0"));
    assert_eq!(rev.date, "");
    assert_eq!(rev.remark, None);
}

#[test]
fn test_parse_revision_line_date_and_remark() {
    let rev = parse_revision_line("2024-01-01: Initial release").unwrap();
    assert_eq!(rev.version, None);
    assert_eq!(rev.date, "2024-01-01");
    assert_eq!(rev.remark, Some("Initial release"));
}

#[test]
fn test_parse_revision_line_date_only() {
    let rev = parse_revision_line("2024-01-01").unwrap();
    assert_eq!(rev.version, None);
    assert_eq!(rev.date, "2024-01-01");
    assert_eq!(rev.remark, None);
}

#[test]
fn test_parse_revision_line_version_and_remark() {
    let rev = parse_revision_line("v1.0: Some remark").unwrap();
    assert_eq!(rev.version, Some("1.0"));
    assert_eq!(rev.date, "");
    assert_eq!(rev.remark, Some("Some remark"));
}

#[test]
fn test_parse_revision_line_uppercase_v() {
    // With a comma the capture starts at the first digit, so `V2.5` still
    // yields `2.5`…
    let rev = parse_revision_line("V2.5, 2024-06-15: Release notes").unwrap();
    assert_eq!(rev.version, Some("2.5"));
    assert_eq!(rev.date, "2024-06-15");
    assert_eq!(rev.remark, Some("Release notes"));
    // …but without one only a lowercase `v` head marks a version
    // (`component.start_with? 'v'`); uppercase falls through to the date.
    let rev = parse_revision_line("V2.0").unwrap();
    assert_eq!(rev.version, None);
    assert_eq!(rev.date, "V2.0");
}

#[test]
fn test_parse_revision_line_nondigit_prefix() {
    // Leading non-digit run is stripped from the revision number (`\D*`).
    let rev = parse_revision_line("LPR55, 2024: rem").unwrap();
    assert_eq!(rev.version, Some("55"));
    assert_eq!(rev.date, "2024");
    assert_eq!(rev.remark, Some("rem"));
    // Internal letters/spaces are kept; only the leading run is stripped.
    let rev = parse_revision_line("Version 2.5 RC1, 2024: x").unwrap();
    assert_eq!(rev.version, Some("2.5 RC1"));
    // A date with an internal comma survives (only the first comma splits).
    let rev = parse_revision_line("v8.3, July 29, 2025: Summertime!").unwrap();
    assert_eq!(rev.version, Some("8.3"));
    assert_eq!(rev.date, "July 29, 2025");
    assert_eq!(rev.remark, Some("Summertime!"));
}

#[test]
fn test_parse_revision_line_freeform() {
    // Probe-verified against Asciidoctor: a freeform line is the revdate.
    let rev = parse_revision_line("hazards a team must vanquish \\").unwrap();
    assert_eq!(rev.version, None);
    assert_eq!(rev.date, "hazards a team must vanquish \\");
    assert_eq!(rev.remark, None);
    // A comma with no digits before it SETS an empty version (`version ,`).
    let rev = parse_revision_line("hello, world").unwrap();
    assert_eq!(rev.version, Some(""));
    assert_eq!(rev.date, "world");
    // `component.slice 1` is taken literally: `version 5` → `ersion 5`.
    let rev = parse_revision_line("version 5").unwrap();
    assert_eq!(rev.version, Some("ersion 5"));
    assert_eq!(rev.date, "");
    // A trailing bare colon sets an EMPTY remark (renders an empty span).
    let rev = parse_revision_line("2020-01-01:").unwrap();
    assert_eq!(rev.date, "2020-01-01");
    assert_eq!(rev.remark, Some(""));
    // A line whose component starts with a colon is thrown back.
    assert!(parse_revision_line(":weird").is_none());
}

#[test]
fn test_parse_revision_line_empty() {
    assert!(parse_revision_line("").is_none());
    assert!(parse_revision_line("   ").is_none());
}

#[test]
fn test_parse_csv_fields_simple() {
    let fields = parse_csv_fields("a,b,c");
    assert_eq!(fields, vec!["a", "b", "c"]);
}

#[test]
fn test_parse_csv_fields_quoted() {
    let fields = parse_csv_fields("\"a,b\",c");
    assert_eq!(fields, vec!["a,b", "c"]);
}

#[test]
fn test_parse_csv_fields_escaped_quotes() {
    let fields = parse_csv_fields("\"a\"\"b\",c");
    assert_eq!(fields, vec!["a\"b", "c"]);
}

#[test]
fn test_parse_csv_fields_empty() {
    let fields = parse_csv_fields("a,,c");
    assert_eq!(fields, vec!["a", "", "c"]);
}

#[test]
fn test_parse_csv_fields_single() {
    let fields = parse_csv_fields("hello");
    assert_eq!(fields, vec!["hello"]);
}

#[test]
fn test_parse_csv_fields_trailing_comma() {
    let fields = parse_csv_fields("a,b,");
    assert_eq!(fields, vec!["a", "b", ""]);
}

#[test]
fn test_parse_dsv_fields() {
    let fields = parse_dsv_fields("a:b:c");
    assert_eq!(fields, vec!["a", "b", "c"]);
}

#[test]
fn test_parse_dsv_fields_with_spaces() {
    let fields = parse_dsv_fields("a : b : c");
    assert_eq!(fields, vec!["a", "b", "c"]);
}

#[test]
fn test_parse_tsv_fields() {
    let fields = parse_tsv_fields("a\tb\tc");
    assert_eq!(fields, vec!["a", "b", "c"]);
}

#[test]
fn test_parse_tsv_fields_with_spaces() {
    let fields = parse_tsv_fields("a \t b \t c");
    assert_eq!(fields, vec!["a", "b", "c"]);
}

#[test]
fn test_strip_markdown_heading() {
    assert_eq!(strip_markdown_heading("# Title"), Some((1, "Title")));
    assert_eq!(strip_markdown_heading("## Sub"), Some((2, "Sub")));
    assert_eq!(strip_markdown_heading("### Level 3"), Some((3, "Level 3")));
    assert_eq!(strip_markdown_heading("#### Level 4"), Some((4, "Level 4")));
    assert_eq!(strip_markdown_heading("##### Level 5"), Some((5, "Level 5")));
    assert_eq!(strip_markdown_heading("###### Level 6"), Some((6, "Level 6")));
    assert_eq!(strip_markdown_heading("####### Too deep"), None);
    assert_eq!(strip_markdown_heading("#NoSpace"), None);
    assert_eq!(strip_markdown_heading("# "), None); // empty title
    assert_eq!(strip_markdown_heading("not heading"), None);
    // Indented ATX heading is a literal paragraph, not a heading (column 0 only).
    assert_eq!(strip_markdown_heading("  ## Indented"), None);
    assert_eq!(strip_markdown_heading(" # One space"), None);
}

#[test]
fn test_is_markdown_code_fence() {
    // Basic opening fence
    assert_eq!(is_markdown_code_fence("```"), Some((3, None)));
    // With language
    assert_eq!(is_markdown_code_fence("```rust"), Some((3, Some("rust"))));
    // 4+ backticks
    assert_eq!(is_markdown_code_fence("````"), Some((4, None)));
    assert_eq!(is_markdown_code_fence("````python"), Some((4, Some("python"))));
    // Trailing whitespace
    assert_eq!(is_markdown_code_fence("```  "), Some((3, None)));
    assert_eq!(is_markdown_code_fence("```rust  "), Some((3, Some("rust"))));
    // Not enough backticks
    assert_eq!(is_markdown_code_fence("``"), None);
    assert_eq!(is_markdown_code_fence("`"), None);
    // Backticks in info string (rejected per CommonMark)
    assert_eq!(is_markdown_code_fence("``` foo`bar"), None);
    // Empty string
    assert_eq!(is_markdown_code_fence(""), None);
}

#[test]
fn test_strip_any_section_marker() {
    // AsciiDoc headings have priority
    assert_eq!(strip_any_section_marker("= Title"), Some((1, "Title")));
    assert_eq!(strip_any_section_marker("== Sub"), Some((2, "Sub")));
    // Markdown headings work too
    assert_eq!(strip_any_section_marker("# Title"), Some((1, "Title")));
    assert_eq!(strip_any_section_marker("## Sub"), Some((2, "Sub")));
    // Neither
    assert_eq!(strip_any_section_marker("just text"), None);
    // Indented markers fall through to a literal paragraph (column 0 only).
    assert_eq!(strip_any_section_marker(" == Indented"), None);
    assert_eq!(strip_any_section_marker("  ## Indented"), None);
}
