//! Renderer-agnostic document semantics.

use adoc_parser::render::{
    AttrRefOutcome, Author, AuthorRegistry, CaptionCounters, CaptionKind, CaptionPrefix,
    FootnoteRegistry, IntrinsicAttribute, RefText, Revision, SectionNumberer, TocBuilder, TocEntry,
    TocStep, XrefResolver, interdoc_xref_href, intrinsic_attribute, intrinsic_attributes,
    is_interdoc_xref_target, resolve_attr_refs_text, resolve_attribute_reference,
    unresolved_xref_label,
};

#[test]
fn intrinsic_table_sorted_and_consistent() {
    for pair in intrinsic_attributes().windows(2) {
        assert!(pair[0].name < pair[1].name, "table must stay sorted: {}", pair[1].name);
    }
    // Spot-check the two columns agree semantically.
    let nbsp = intrinsic_attribute("nbsp").unwrap();
    assert_eq!(nbsp.text, "\u{00a0}");
    assert_eq!(nbsp.html, "&#160;");
    let cpp = intrinsic_attribute("cpp").unwrap();
    assert_eq!(cpp.text, "C++");
    assert_eq!(cpp.html, "C++");
    let pp = intrinsic_attribute("pp").unwrap();
    assert_eq!(pp.text, "++");
    assert_eq!(pp.html, "&#43;&#43;");
    assert!(intrinsic_attribute("unknown").is_none());
}

#[test]
fn attr_ref_precedence() {
    let doc = |n: &str| (n == "x").then_some("doc-value");
    let no_env = |_: &str| None;
    // Document attribute wins over intrinsic.
    assert!(matches!(
        resolve_attribute_reference("x", doc, no_env, Some("fb"), None),
        AttrRefOutcome::Document("doc-value")
    ));
    // Name is lowercased for lookup.
    assert!(matches!(
        resolve_attribute_reference("X", doc, no_env, None, None),
        AttrRefOutcome::Document("doc-value")
    ));
    // Intrinsic before fallback.
    assert!(matches!(
        resolve_attribute_reference("nbsp", |_| None, no_env, Some("fb"), None),
        AttrRefOutcome::Intrinsic(IntrinsicAttribute { name: "nbsp", .. })
    ));
    // Fallback before missing.
    assert!(matches!(
        resolve_attribute_reference("nope", |_| None, no_env, Some("fb"), None),
        AttrRefOutcome::Fallback("fb")
    ));
    // attribute-missing modes.
    assert!(matches!(
        resolve_attribute_reference("nope", |_| None, no_env, None, None),
        AttrRefOutcome::MissingSkip
    ));
    assert!(matches!(
        resolve_attribute_reference("nope", |_| None, no_env, None, Some("drop")),
        AttrRefOutcome::MissingDrop
    ));
    assert!(matches!(
        resolve_attribute_reference("nope", |_| None, no_env, None, Some("drop-line")),
        AttrRefOutcome::MissingDrop
    ));
    assert!(matches!(
        resolve_attribute_reference("nope", |_| None, no_env, None, Some("warn")),
        AttrRefOutcome::MissingSkip
    ));
}

#[test]
fn attr_ref_env() {
    let env = |n: &str| (n == "HOME").then(|| "/home/user".to_string());
    assert!(matches!(
        resolve_attribute_reference("env-HOME", |_| None, env, None, None),
        AttrRefOutcome::Env(ref v) if v == "/home/user"
    ));
    // env miss → fallback if present.
    assert!(matches!(
        resolve_attribute_reference("env-MISSING", |_| None, env, Some("fb"), None),
        AttrRefOutcome::Fallback("fb")
    ));
    // env miss without fallback emits the literal reference even under drop.
    assert!(matches!(
        resolve_attribute_reference("env-MISSING", |_| None, env, None, Some("drop")),
        AttrRefOutcome::MissingSkip
    ));
    // A document attribute named env-* still wins.
    let doc = |n: &str| (n == "env-home").then_some("doc");
    assert!(matches!(
        resolve_attribute_reference("env-HOME", doc, env, None, None),
        AttrRefOutcome::Document("doc")
    ));
}

#[test]
fn xref_resolver_precedence() {
    let mut r = XrefResolver::new();
    r.add_section("_intro", "Introduction");
    r.add_section("_dup", "Shared Title");
    r.add_section("_dup2", "Shared Title"); // natural xref: first section keeps the title
    r.add_block("_intro", RefText::Markup("<em>loser</em>")); // section wins on id collision
    r.add_block("_fig", RefText::Markup("<em>Figure</em>"));
    r.add_block("_fig", RefText::Markup("ignored")); // first block wins

    // Registered id resolves to its text.
    assert_eq!(r.link_text("_intro"), Some(RefText::Plain("Introduction")));
    assert_eq!(r.link_text("_fig"), Some(RefText::Markup("<em>Figure</em>")));
    // Natural xref: a target matching a section title resolves to that section.
    assert_eq!(r.link_text("Introduction"), Some(RefText::Plain("Introduction")));
    assert_eq!(r.link_text("Shared Title"), Some(RefText::Plain("Shared Title")));
    assert_eq!(r.link_text("unknown"), None);

    // Href: known id stays literal, section title becomes its id, else literal.
    assert_eq!(r.href_id("_intro"), "_intro");
    assert_eq!(r.href_id("Introduction"), "_intro");
    assert_eq!(r.href_id("Shared Title"), "_dup");
    assert_eq!(r.href_id("unknown"), "unknown");

    assert_eq!(unresolved_xref_label("missing-id"), "[missing-id]");
}

#[test]
fn interdoc_xref_targets() {
    assert!(is_interdoc_xref_target("other.adoc"));
    assert!(is_interdoc_xref_target("docs/guide.html"));
    assert!(!is_interdoc_xref_target("_section"));
    assert!(!is_interdoc_xref_target("#frag.with.dot"));

    assert_eq!(interdoc_xref_href("other.adoc"), "other.html");
    assert_eq!(interdoc_xref_href("dir/other.adoc#sec"), "dir/other.html#sec");
    assert_eq!(interdoc_xref_href("page.html"), "page.html");
    assert_eq!(interdoc_xref_href("page.html#sec"), "page.html#sec");
}

#[test]
fn toc_structure_steps() {
    let mut b = TocBuilder::new();
    for (level, id) in [(2, "a"), (3, "a1"), (3, "a2"), (5, "deep"), (2, "b")] {
        b.push(TocEntry { level, id: id.to_string(), title: id.to_uppercase() });
    }
    assert_eq!(b.entries().len(), 5);

    // toclevels=4 → levels 2..=5 visible; level 5 under level 3 opens
    // two lists at once, returning to level 2 closes three.
    let ids: Vec<String> = b
        .toc_steps(4)
        .iter()
        .map(|s| match s {
            TocStep::EnterLevel(l) => format!(">{l}"),
            TocStep::Item(e) => e.id.clone(),
            TocStep::CloseItem => "/i".to_string(),
            TocStep::LeaveLevel => "<".to_string(),
        })
        .collect();
    assert_eq!(
        ids,
        [">2", "a", ">3", "a1", "/i", "a2", ">4", ">5", "deep",
         "<", "<", "<", "/i", "b", "<"]
    );

    // Default toclevels=2 → only levels 2..=3.
    let visible: Vec<&str> = b
        .toc_steps(2)
        .iter()
        .filter_map(|s| match s {
            TocStep::Item(e) => Some(e.id.as_str()),
            _ => None,
        })
        .collect();
    assert_eq!(visible, ["a", "a1", "a2", "b"]);

    // toclevels=0 → nothing in range, no steps at all.
    assert!(b.toc_steps(0).is_empty());
    assert!(TocBuilder::new().toc_steps(2).is_empty());
}

#[test]
fn section_numbering() {
    let mut n = SectionNumberer::new();
    assert_eq!(n.number_prefix(2).as_deref(), Some("1. "));
    assert_eq!(n.number_prefix(3).as_deref(), Some("1.1. "));
    assert_eq!(n.number_prefix(4).as_deref(), Some("1.1.1. "));
    assert_eq!(n.number_prefix(3).as_deref(), Some("1.2. "));
    // Deeper counter was reset by the level-3 bump.
    assert_eq!(n.number_prefix(4).as_deref(), Some("1.2.1. "));
    assert_eq!(n.number_prefix(2).as_deref(), Some("2. "));
    assert_eq!(n.number_prefix(3).as_deref(), Some("2.1. "));
    // Outside the numbered range: no prefix, counters untouched.
    assert_eq!(n.number_prefix(1), None);
    assert_eq!(n.number_prefix(6), None);
    assert_eq!(n.number_prefix(3).as_deref(), Some("2.2. "));

    assert_eq!(n.appendix_caption(), "Appendix A: ");
    assert_eq!(n.appendix_caption(), "Appendix B: ");
}

#[test]
fn caption_counters() {
    let mut c = CaptionCounters::new();
    // Figure/table: numbered prefix bumps the counter…
    assert_eq!(
        c.caption_prefix(CaptionKind::Figure, None, Some("Figure")),
        CaptionPrefix::Numbered { label: "Figure", number: 1 }
    );
    // …but caption="" / caption=X / unset doc label do NOT.
    assert_eq!(c.caption_prefix(CaptionKind::Figure, Some(""), Some("Figure")), CaptionPrefix::Suppressed);
    assert_eq!(
        c.caption_prefix(CaptionKind::Figure, Some("Fig X: "), Some("Figure")),
        CaptionPrefix::Custom("Fig X: ")
    );
    assert_eq!(c.caption_prefix(CaptionKind::Figure, None, None), CaptionPrefix::Suppressed);
    assert_eq!(
        c.caption_prefix(CaptionKind::Figure, None, Some("Рисунок")),
        CaptionPrefix::Numbered { label: "Рисунок", number: 2 }
    );
    // Counters are independent per kind.
    assert_eq!(
        c.caption_prefix(CaptionKind::Table, None, Some("Table")),
        CaptionPrefix::Numbered { label: "Table", number: 1 }
    );
    // Example bumps for every titled block, even under caption= override.
    assert_eq!(
        c.caption_prefix(CaptionKind::Example, None, Some("Example")),
        CaptionPrefix::Numbered { label: "Example", number: 1 }
    );
    assert_eq!(c.caption_prefix(CaptionKind::Example, Some(""), Some("Example")), CaptionPrefix::Suppressed);
    assert_eq!(
        c.caption_prefix(CaptionKind::Example, None, Some("Example")),
        CaptionPrefix::Numbered { label: "Example", number: 3 }
    );
}

#[test]
fn footnote_registry() {
    let mut f = FootnoteRegistry::new();
    assert!(f.is_empty());
    assert_eq!(f.define(None, "first"), 1);
    assert_eq!(f.define(Some("note"), "second"), 2);
    assert_eq!(f.define(None, "third"), 3);
    assert_eq!(f.lookup("note"), Some(2));
    assert_eq!(f.lookup("unknown"), None);
    // Redefinition keeps both entries; the id points at the newest.
    assert_eq!(f.define(Some("note"), "fourth"), 4);
    assert_eq!(f.lookup("note"), Some(4));
    let texts: Vec<&str> = f.footnotes().iter().map(|n| n.text.as_str()).collect();
    assert_eq!(texts, ["first", "second", "third", "fourth"]);
    assert_eq!(f.footnotes()[1].id.as_deref(), Some("note"));
    assert_eq!(f.footnotes()[0].id, None);
    assert!(!f.is_empty());
}

#[test]
fn author_registry_attr_entries() {
    let mut reg = AuthorRegistry::new();
    assert!(reg.is_empty());
    // First author: unsuffixed names, middlename/email skipped when empty.
    let entries = reg.add(Author {
        fullname: "John Doe".into(),
        firstname: "John".into(),
        middlename: String::new(),
        lastname: "Doe".into(),
        initials: "JD".into(),
        address: String::new(),
    });
    assert_eq!(
        entries,
        [
            ("author".to_string(), "John Doe".to_string()),
            ("firstname".to_string(), "John".to_string()),
            ("lastname".to_string(), "Doe".to_string()),
            ("authorinitials".to_string(), "JD".to_string()),
        ]
    );
    // Second author: `_2`-suffixed attribute names, full set when all
    // components present.
    let entries = reg.add(Author {
        fullname: "Ann B. Lee".into(),
        firstname: "Ann".into(),
        middlename: "B.".into(),
        lastname: "Lee".into(),
        initials: "ABL".into(),
        address: "ann@example.com".into(),
    });
    assert_eq!(
        entries,
        [
            ("author_2".to_string(), "Ann B. Lee".to_string()),
            ("firstname_2".to_string(), "Ann".to_string()),
            ("middlename_2".to_string(), "B.".to_string()),
            ("lastname_2".to_string(), "Lee".to_string()),
            ("authorinitials_2".to_string(), "ABL".to_string()),
            ("email_2".to_string(), "ann@example.com".to_string()),
        ]
    );
    assert_eq!(reg.authors().len(), 2);
    assert_eq!(reg.authors()[1].address, "ann@example.com");
    // HTML-id suffix stays separator-less; attribute-name suffix gets `_`.
    assert_eq!(AuthorRegistry::id_suffix(2), "3");
    assert_eq!(AuthorRegistry::name_suffix(2), "_3");
}

#[test]
fn revision_entries_and_display() {
    let rev = Revision {
        version: "v8.3".into(),
        date: "2024-01-01".into(),
        remark: String::new(),
    };
    assert_eq!(
        rev.attr_entries(),
        [("revnumber", "v8.3"), ("revdate", "2024-01-01")]
    );
    assert_eq!(rev.display_version(), "8.3");
    let rev = Revision { version: "V2".into(), ..Default::default() };
    assert_eq!(rev.display_version(), "2");
    assert_eq!(rev.attr_entries(), [("revnumber", "V2")]);
    let rev = Revision { version: "1.0".into(), ..Default::default() };
    assert_eq!(rev.display_version(), "1.0");
    assert!(Revision::default().attr_entries().is_empty());
}

#[test]
fn resolve_refs_in_string() {
    let doc = |n: &str| (n == "name").then_some("World");
    assert_eq!(resolve_attr_refs_text("Hello {name}!", doc), "Hello World!");
    assert_eq!(resolve_attr_refs_text("a{nbsp}b", doc), "a\u{00a0}b");
    assert_eq!(resolve_attr_refs_text("{missing} stays", doc), "{missing} stays");
    assert_eq!(resolve_attr_refs_text("brace { only", doc), "brace { only");
    assert_eq!(resolve_attr_refs_text("{NAME}", doc), "World");
}
