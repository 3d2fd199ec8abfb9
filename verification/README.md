# adoc_parser

Line scanning, preprocessing and renderer-agnostic document semantics for
AsciiDoc, written in Verus: every function in `src/` carries a contract over
mathematical models (sequences of Unicode scalar values, byte sequences,
maps and sets) and is proved against it.

## Layout

| Module | What it holds |
|---|---|
| `text` | Specifications of whitespace, trimming, searching, splitting and number parsing, with the verified helpers the other modules share |
| `scanner`, `table`, `fields`, `header`, `ident`, `pass` | Recognisers of block-level lines: delimiters, titles, list markers, media macros, table cells and specs, CSV/DSV/TSV fields, author and revision lines, section ids, passthrough spans |
| `subst` | Byte-level scanners of the inline substitution passes: sentinel handling, quote-span close searches, character references, escapes, attribute references, passthroughs |
| `tokens` | The inline event model, the side table of deferred tokens that a working buffer's sentinels index, and the tokenizer that turns a finished buffer into events |
| `escape` | The backslash escape pass, which seals escaped constructs in tokens before the other passes run |
| `passes` | The passes that seal attribute references, constrained and unconstrained quotes, character references and hard line breaks in tokens, and the extent of a bare URL autolink |
| `attrs`, `cond`, `counters`, `lines`, `preprocessor` | The preprocessor: attribute entries, conditional directives, counters, line continuations, and the line-by-line state machine |
| `inclusion` | Inclusion directives: attribute lists, line and tag filters, level offset and indentation, and the decisions around reading a file |
| `render`, `xref`, `toc`, `numbering`, `registry` | Renderer-side semantics: attribute-reference resolution, cross-reference resolution, table of contents, section and caption numbering, footnotes, authors and revision |

`app/` reads files, walks directory-relative inclusions and reads `ifeval`
operands as floating-point numbers; it calls the library for every decision.
`tests/` exercises the library on concrete inputs.

The macro pass and the typographic replacements pass are not part of this
library: they build on link attribute parsing, link construction and the
replacement rules, which it does not contain.

Attribute maps and name sets (`AttrMap`, `NameSet`, `NameMap`) are vectors of
distinct string keys with a map or set view and a stated invariant, rather
than `HashMap` and `HashSet`: with string keys, Verus has no specification of
the std collections from which a contract over their contents could be proved.

Public proof functions named `law_*` state properties that hold across calls
or for every input, such as the round trip of a sentinel's tag index, the
balance of the table-of-contents steps, or what a cross reference resolves to
after any sequence of registrations.
