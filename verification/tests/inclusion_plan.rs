//! Decisions of the inclusion pass that come before and after reading a file.

use adoc_parser::preprocessor::{
    parse_include_attrs, splice_resolved, finish_resolved, plan_include, read_failure_text, splice_included, IncludePlan,
    MAX_INCLUDE_DEPTH,
};

fn emitted(p: IncludePlan) -> Option<String> {
    match p {
        IncludePlan::Emit(t) => Some(t),
        IncludePlan::Read => None,
    }
}

#[test]
fn uri_targets_become_links() {
    let t = emitted(plan_include("https://example.org/a.adoc", "", false, None, 0, false));
    assert_eq!(t.as_deref(), Some("link:https://example.org/a.adoc[role=include]\n"));
}

#[test]
fn depth_limit_and_cycles_are_unresolved() {
    let deep = emitted(plan_include("a.adoc", "x=1", false, Some("doc.adoc"), MAX_INCLUDE_DEPTH, false));
    assert_eq!(
        deep.as_deref(),
        Some("Unresolved directive in doc.adoc - include::a.adoc[x=1]\n")
    );
    let cycle = emitted(plan_include("a.adoc", "", false, None, 1, true));
    assert_eq!(cycle.as_deref(), Some("Unresolved directive in <stdin> - include::a.adoc[]\n"));
    // Optional directives leave nothing.
    let opt = emitted(plan_include("a.adoc", "opts=optional", true, None, 1, true));
    assert_eq!(opt.as_deref(), Some(""));
    // Anything else is read.
    assert!(matches!(plan_include("a.adoc", "", false, None, MAX_INCLUDE_DEPTH - 1, false), IncludePlan::Read));
}

#[test]
fn read_failures() {
    assert_eq!(read_failure_text(true, None, "x.adoc", ""), "");
    assert_eq!(
        read_failure_text(false, None, "x.adoc", "lines=1"),
        "Unresolved directive in <stdin> - include::x.adoc[lines=1]\n"
    );
}

#[test]
fn splicing_and_final_newline() {
    assert_eq!(splice_included(""), "");
    assert_eq!(splice_included("a\nb"), "a\nb\n");
    assert_eq!(finish_resolved("x", "x\n".to_string()), "x");
    assert_eq!(finish_resolved("x\n", "x\n".to_string()), "x\n");
    assert_eq!(finish_resolved("", String::new()), "");
}

#[test]
fn plain_lines_come_back_unchanged() {
    for input in ["", "a", "a\nb", "a\nb\n", "\n\nx\n", "  include::x[] tail"] {
        let mut out = String::new();
        for line in input.lines() {
            out.push_str(line);
            out.push('\n');
        }
        assert_eq!(finish_resolved(input, out), input);
    }
}

#[test]
fn resolved_text_adjusted_and_spliced() {
    let a = parse_include_attrs("leveloffset=+1,indent=2");
    assert_eq!(splice_resolved("== T\n    x", &a).as_deref(), Some("  === T\n      x\n"));
    let b = parse_include_attrs("");
    assert_eq!(splice_resolved("", &b).as_deref(), Some(""));
    let c = parse_include_attrs("indent=0");
    assert_eq!(splice_resolved(" a\n\u{3000}b", &c), None);
}
