//! Closing-bracket search and unescaping for bracketed inline macros.

use adoc_parser::pass::{find_macro_close_bracket, unescape_close_bracket};

#[test]
fn find_close_bracket_honours_escape() {
    // `[` at index 0; plain close.
    assert_eq!(find_macro_close_bracket("[abc]", 0), Some(4));
    // Escaped `\]` does not close; the next unescaped `]` does.
    assert_eq!(find_macro_close_bracket("[a\\]b]", 0), Some(5));
    // Empty content: `]` right after `[` is never treated as escaped.
    assert_eq!(find_macro_close_bracket("[]", 0), Some(1));
    // A non-zero open offset (target before the `[`).
    assert_eq!(find_macro_close_bracket("tgt[a\\]b]", 3), Some(8));
    // No unescaped close → None (trailing `\]` keeps escaping).
    assert_eq!(find_macro_close_bracket("[a\\]", 0), None);
    // Double backslash then `]`: only the single preceding byte counts, so
    // the `]` is still escaped and a later unescaped `]` is required.
    assert_eq!(find_macro_close_bracket("[a\\\\]x]", 0), Some(6));
}

#[test]
fn unescape_close_bracket_only_touches_escaped_bracket() {
    // No escape → unchanged.
    assert_eq!(unescape_close_bracket("a]b? no"), "a]b? no");
    // `\]` → `]`; a lone `\` not before `]` is preserved.
    assert_eq!(unescape_close_bracket("a\\]b\\c"), "a]b\\c");
    // Double escape: each `\]` collapses independently.
    assert_eq!(unescape_close_bracket("x\\]y\\]z"), "x]y]z");
}

#[test]
fn close_bracket_after_non_ascii_target() {
    // Offsets are byte offsets: `é` takes two bytes.
    assert_eq!(find_macro_close_bracket("é[x]", 2), Some(4));
    // An open bracket at the very end has nothing after it.
    assert_eq!(find_macro_close_bracket("ab[", 2), None);
}
