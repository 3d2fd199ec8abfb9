//! Renderer-agnostic document semantics: intrinsic attributes, attribute
//! reference resolution, cross-reference lookup, the table of contents
//! layout, section and caption numbering, footnotes, authors and the
//! revision line.

use vstd::prelude::*;
use crate::attrs::same_chars;
use crate::counters::{int_chars, int_text, nat_text};
use crate::text::{chars_of, ends_with, find, find_at, lower, push_all, slice_vec, starts_with, string_of, to_ascii_lower};
pub use crate::xref::{
    RefText, XrefResolver, interdoc_xref_href, is_interdoc_xref_target, unresolved_xref_label,
};
pub use crate::toc::{DEFAULT_TOC_TITLE, TocBuilder, TocEntry, TocStep};
pub use crate::numbering::{CaptionCounters, CaptionKind, CaptionPrefix, SectionNumberer};
pub use crate::registry::{Author, AuthorRegistry, Footnote, FootnoteRegistry, Revision};

verus! {

// ---------------------------------------------------------------------------
// Name maps
// ---------------------------------------------------------------------------

/// A finite map from names to copyable values, kept as a list of distinct
/// names.
pub struct NameMap<V> {
    keys: Vec<Vec<char>>,
    vals: Vec<V>,
    map: Ghost<Map<Seq<char>, V>>,
}

impl<V: Copy> NameMap<V> {
    pub closed spec fn view(&self) -> Map<Seq<char>, V> {
        self.map@
    }

    pub closed spec fn wf(&self) -> bool {
        &&& self.keys@.len() == self.vals@.len()
        &&& forall|i: int|
            0 <= i < self.keys@.len() ==> self.map@.contains_key(#[trigger] self.keys@[i]@)
                && self.map@[self.keys@[i]@] == self.vals@[i]
        &&& forall|k: Seq<char>|
            #[trigger] self.map@.contains_key(k) ==> exists|i: int|
                0 <= i < self.keys@.len() && #[trigger] self.keys@[i]@ == k
        &&& forall|i: int, j: int|
            0 <= i < self.keys@.len() && 0 <= j < self.keys@.len() && i != j ==> (
            #[trigger] self.keys@[i])@ != (#[trigger] self.keys@[j])@
    }

    pub fn new() -> (m: Self)
        ensures
            m.wf(),
            m.view() == Map::<Seq<char>, V>::empty(),
    {
        NameMap { keys: Vec::new(), vals: Vec::new(), map: Ghost(Map::empty()) }
    }

    fn index_of(&self, k: &[char]) -> (r: Option<usize>)
        requires
            self.wf(),
        ensures
            match r {
                Some(i) => i < self.keys@.len() && self.keys@[i as int]@ == k@,
                None => !self.view().contains_key(k@),
            },
    {
        let mut i: usize = 0;
        while i < self.keys.len()
            invariant
                self.wf(),
                i <= self.keys@.len(),
                forall|j: int| 0 <= j < i ==> (#[trigger] self.keys@[j])@ != k@,
            decreases self.keys@.len() - i,
        {
            if same_chars(self.keys[i].as_slice(), k) {
                return Some(i);
            }
            i += 1;
        }
        None
    }

    pub fn get(&self, k: &[char]) -> (r: Option<V>)
        requires
            self.wf(),
        ensures
            match r {
                Some(v) => self.view().contains_key(k@) && v == self.view()[k@],
                None => !self.view().contains_key(k@),
            },
    {
        match self.index_of(k) {
            Some(i) => Some(self.vals[i]),
            None => None,
        }
    }

    pub fn insert(&mut self, k: &[char], v: V)
        requires
            old(self).wf(),
        ensures
            final(self).wf(),
            final(self).view() == old(self).view().insert(k@, v),
    {
        match self.index_of(k) {
            Some(i) => {
                self.vals.set(i, v);
                self.map = Ghost(self.map@.insert(k@, v));
                assert forall|kk: Seq<char>| #[trigger] self.map@.contains_key(kk) implies exists|
                    j: int,
                | 0 <= j < self.keys@.len() && #[trigger] self.keys@[j]@ == kk by {
                    if kk != k@ {
                        assert(old(self).view().contains_key(kk));
                        let j = choose|j: int|
                            0 <= j < old(self).keys@.len() && #[trigger] old(self).keys@[j]@
                                == kk;
                        assert(self.keys@[j]@ == kk);
                    } else {
                        assert(self.keys@[i as int]@ == kk);
                    }
                }
            },
            None => {
                let kv = slice_vec(k, 0, k.len());
                assert(kv@ =~= k@);
                self.keys.push(kv);
                self.vals.push(v);
                self.map = Ghost(self.map@.insert(k@, v));
                let ghost n = self.keys@.len() - 1;
                assert(self.keys@[n]@ == k@);
                assert forall|kk: Seq<char>| #[trigger] self.map@.contains_key(kk) implies exists|
                    j: int,
                | 0 <= j < self.keys@.len() && #[trigger] self.keys@[j]@ == kk by {
                    if kk != k@ {
                        assert(old(self).view().contains_key(kk));
                        let j = choose|j: int|
                            0 <= j < old(self).keys@.len() && #[trigger] old(self).keys@[j]@
                                == kk;
                        assert(self.keys@[j]@ == kk);
                    } else {
                        assert(self.keys@[n]@ == kk);
                    }
                }
            },
        }
    }
}

// ---------------------------------------------------------------------------
// Intrinsic attributes
// ---------------------------------------------------------------------------

/// A predefined (intrinsic) document attribute: its semantic `text` and
/// the exact form Asciidoctor writes into HTML.
#[derive(Debug, Clone, Copy, PartialEq, Eq)]
pub struct IntrinsicAttribute {
    pub name: &'static str,
    pub text: &'static str,
    pub html: &'static str,
}

pub open spec fn row(name: &'static str, text: &'static str, html: &'static str) -> IntrinsicAttribute {
    IntrinsicAttribute { name, text, html }
}

/// The intrinsic attribute table, sorted by name.
pub open spec fn intrinsic_rows() -> Seq<IntrinsicAttribute> {
    seq![
        row("amp", "&", "&amp;"),
        row("apos", "'", "&#39;"),
        row("asterisk", "*", "*"),
        row("backslash", "\\", "\\"),
        row("backtick", "`", "`"),
        row("blank", "", ""),
        row("brvbar", "\u{00a6}", "&#166;"),
        row("caret", "^", "^"),
        row("cpp", "C++", "C++"),
        row("deg", "\u{00b0}", "&#176;"),
        row("empty", "", ""),
        row("endsb", "]", "]"),
        row("gt", ">", "&gt;"),
        row("ldquo", "\u{201c}", "&#8220;"),
        row("lsquo", "\u{2018}", "&#8216;"),
        row("lt", "<", "&lt;"),
        row("nbsp", "\u{00a0}", "&#160;"),
        row("plus", "+", "&#43;"),
        row("pp", "++", "&#43;&#43;"),
        row("quot", "\"", "&#34;"),
        row("rdquo", "\u{201d}", "&#8221;"),
        row("rsquo", "\u{2019}", "&#8217;"),
        row("sp", " ", " "),
        row("startsb", "[", "["),
        row("tilde", "~", "~"),
        row("two-colons", "::", "::"),
        row("two-semicolons", ";;", ";;"),
        row("vbar", "|", "|"),
        row("wj", "\u{2060}", "&#8288;"),
        row("zwsp", "\u{200b}", "&#8203;"),
    ]
}

/// The intrinsic attribute table, sorted by name.
pub fn intrinsic_attributes() -> (v: Vec<IntrinsicAttribute>)
    ensures
        v@ == intrinsic_rows(),
{
    let v = vec![
        IntrinsicAttribute { name: "amp", text: "&", html: "&amp;" },
        IntrinsicAttribute { name: "apos", text: "'", html: "&#39;" },
        IntrinsicAttribute { name: "asterisk", text: "*", html: "*" },
        IntrinsicAttribute { name: "backslash", text: "\\", html: "\\" },
        IntrinsicAttribute { name: "backtick", text: "`", html: "`" },
        IntrinsicAttribute { name: "blank", text: "", html: "" },
        IntrinsicAttribute { name: "brvbar", text: "\u{00a6}", html: "&#166;" },
        IntrinsicAttribute { name: "caret", text: "^", html: "^" },
        IntrinsicAttribute { name: "cpp", text: "C++", html: "C++" },
        IntrinsicAttribute { name: "deg", text: "\u{00b0}", html: "&#176;" },
        IntrinsicAttribute { name: "empty", text: "", html: "" },
        IntrinsicAttribute { name: "endsb", text: "]", html: "]" },
        IntrinsicAttribute { name: "gt", text: ">", html: "&gt;" },
        IntrinsicAttribute { name: "ldquo", text: "\u{201c}", html: "&#8220;" },
        IntrinsicAttribute { name: "lsquo", text: "\u{2018}", html: "&#8216;" },
        IntrinsicAttribute { name: "lt", text: "<", html: "&lt;" },
        IntrinsicAttribute { name: "nbsp", text: "\u{00a0}", html: "&#160;" },
        IntrinsicAttribute { name: "plus", text: "+", html: "&#43;" },
        IntrinsicAttribute { name: "pp", text: "++", html: "&#43;&#43;" },
        IntrinsicAttribute { name: "quot", text: "\"", html: "&#34;" },
        IntrinsicAttribute { name: "rdquo", text: "\u{201d}", html: "&#8221;" },
        IntrinsicAttribute { name: "rsquo", text: "\u{2019}", html: "&#8217;" },
        IntrinsicAttribute { name: "sp", text: " ", html: " " },
        IntrinsicAttribute { name: "startsb", text: "[", html: "[" },
        IntrinsicAttribute { name: "tilde", text: "~", html: "~" },
        IntrinsicAttribute { name: "two-colons", text: "::", html: "::" },
        IntrinsicAttribute { name: "two-semicolons", text: ";;", html: ";;" },
        IntrinsicAttribute { name: "vbar", text: "|", html: "|" },
        IntrinsicAttribute { name: "wj", text: "\u{2060}", html: "&#8288;" },
        IntrinsicAttribute { name: "zwsp", text: "\u{200b}", html: "&#8203;" },
    ];
    assert(v@ =~= intrinsic_rows());
    v
}

/// The first row of `rows` from `k` on named `n`.
pub open spec fn row_named(rows: Seq<IntrinsicAttribute>, n: Seq<char>, k: int) -> Option<
    IntrinsicAttribute,
>
    decreases rows.len() - k,
{
    if k < 0 || k >= rows.len() {
        None
    } else if rows[k].name@ == n {
        Some(rows[k])
    } else {
        row_named(rows, n, k + 1)
    }
}

pub open spec fn intrinsic_of(n: Seq<char>) -> Option<IntrinsicAttribute> {
    row_named(intrinsic_rows(), n, 0)
}

fn intrinsic_chars(n: &[char]) -> (r: Option<IntrinsicAttribute>)
    ensures
        r == intrinsic_of(n@),
{
    let rows = intrinsic_attributes();
    let mut k: usize = 0;
    while k < rows.len()
        invariant
            rows@ == intrinsic_rows(),
            k <= rows@.len(),
            intrinsic_of(n@) == row_named(rows@, n@, k as int),
        decreases rows@.len() - k,
    {
        let name = chars_of(rows[k].name);
        if same_chars(name.as_slice(), n) {
            return Some(rows[k]);
        }
        k += 1;
    }
    None
}

/// Looks up an intrinsic attribute by (already lowercased) name.
pub fn intrinsic_attribute(name: &str) -> (r: Option<IntrinsicAttribute>)
    ensures
        r == intrinsic_of(name@),
{
    let n = chars_of(name);
    intrinsic_chars(n.as_slice())
}

// ---------------------------------------------------------------------------
// Attribute references
// ---------------------------------------------------------------------------

/// `r` is an answer the document lookup `f` gives for a text `n`.
pub open spec fn looked_up<'a, F: Fn(&str) -> Option<&'a str>>(
    f: F,
    n: Seq<char>,
    r: Option<&'a str>,
) -> bool {
    exists|x: &str| x@ == n && #[trigger] call_ensures(f, (x,), r)
}

/// `r` is an answer the environment lookup `f` gives for a text `n`.
pub open spec fn env_looked_up<F: Fn(&str) -> Option<String>>(
    f: F,
    n: Seq<char>,
    r: Option<String>,
) -> bool {
    exists|x: &str| x@ == n && #[trigger] call_ensures(f, (x,), r)
}

/// Outcome of resolving an `{name}` attribute reference.
pub enum AttrRefOutcome<'a> {
    /// Resolved from document attributes.
    Document(&'a str),
    /// Resolved from the intrinsic table.
    Intrinsic(IntrinsicAttribute),
    /// `env-*` reference resolved from the environment.
    Env(String),
    /// Unresolved, with an explicit fallback.
    Fallback(&'a str),
    /// Unresolved: the reference stays literal.
    MissingSkip,
    /// Unresolved under `attribute-missing=drop`/`drop-line`: nothing.
    MissingDrop,
}

pub open spec fn ascii_lower_text(s: Seq<char>) -> Seq<char> {
    s.map_values(|c: char| lower(c))
}

pub open spec fn lit_env() -> Seq<char> {
    seq!['e', 'n', 'v', '-']
}

pub open spec fn lit_drop() -> Seq<char> {
    seq!['d', 'r', 'o', 'p']
}

pub open spec fn lit_drop_line() -> Seq<char> {
    seq!['d', 'r', 'o', 'p', '-', 'l', 'i', 'n', 'e']
}

/// The outcome of a reference to `name`, given what the document lookup
/// answered for the lowercased name and what the environment lookup
/// answered for the name after `env-`: document attribute, then intrinsic,
/// then (for `env-*`) the environment or else the fallback or the literal
/// reference, then the fallback, then `attribute-missing` handling.
pub open spec fn attr_ref_outcome<'a>(
    name: Seq<char>,
    doc: Option<&'a str>,
    env: Option<String>,
    fallback: Option<&'a str>,
    attribute_missing: Option<Seq<char>>,
) -> AttrRefOutcome<'a> {
    let lower_name = ascii_lower_text(name);
    match doc {
        Some(v) => AttrRefOutcome::Document(v),
        None => match intrinsic_of(lower_name) {
            Some(a) => AttrRefOutcome::Intrinsic(a),
            None => if starts_with(name, lit_env()) {
                match env {
                    Some(v) => AttrRefOutcome::Env(v),
                    None => match fallback {
                        Some(fb) => AttrRefOutcome::Fallback(fb),
                        None => AttrRefOutcome::MissingSkip,
                    },
                }
            } else {
                match fallback {
                    Some(fb) => AttrRefOutcome::Fallback(fb),
                    None => match attribute_missing {
                        Some(m) => if m == lit_drop() || m == lit_drop_line() {
                            AttrRefOutcome::MissingDrop
                        } else {
                            AttrRefOutcome::MissingSkip
                        },
                        None => AttrRefOutcome::MissingSkip,
                    },
                }
            },
        },
    }
}

fn lower_chars(s: &[char]) -> (r: Vec<char>)
    ensures
        r@ == ascii_lower_text(s@),
{
    let mut r: Vec<char> = Vec::new();
    let mut k: usize = 0;
    while k < s.len()
        invariant
            k <= s@.len(),
            r@ == ascii_lower_text(s@.take(k as int)),
        decreases s@.len() - k,
    {
        r.push(to_ascii_lower(s[k]));
        k += 1;
        assert(ascii_lower_text(s@.take(k as int)) =~= ascii_lower_text(s@.take(k - 1)).push(
            lower(s@[k - 1]),
        ));
    }
    assert(s@.take(s@.len() as int) =~= s@);
    r
}

pub open spec fn opt_text(o: Option<&str>) -> Option<Seq<char>> {
    match o {
        Some(t) => Some(t@),
        None => None,
    }
}

/// The environment is consulted for `name` when the document lookup
/// answered `doc = None`, no intrinsic attribute has the lowercased name,
/// and the name starts with `env-`.
pub open spec fn env_consulted<'a>(name: Seq<char>, doc: Option<&'a str>) -> bool {
    doc is None && intrinsic_of(ascii_lower_text(name)) is None && starts_with(name, lit_env())
}

/// `r` is the outcome for `name` for some answer `d` the document lookup
/// gives for the lowercased name and, when the environment is consulted,
/// some answer `e` the environment lookup gives for the name after `env-`.
pub open spec fn resolved_by<'a, D: Fn(&str) -> Option<&'a str>, E: Fn(&str) -> Option<String>>(
    r: AttrRefOutcome<'a>,
    name: Seq<char>,
    doc_lookup: D,
    env_lookup: E,
    fallback: Option<&'a str>,
    attribute_missing: Option<Seq<char>>,
) -> bool {
    exists|d: Option<&'a str>, e: Option<String>|
        #![trigger attr_ref_outcome(name, d, e, fallback, attribute_missing)]
        looked_up(doc_lookup, ascii_lower_text(name), d) && (env_consulted(name, d)
            ==> env_looked_up(env_lookup, name.skip(4), e)) && r == attr_ref_outcome(
            name,
            d,
            e,
            fallback,
            attribute_missing,
        )
}

/// Resolves an attribute reference with Asciidoctor's precedence (see
/// `attr_ref_outcome`), calling the document lookup once with the
/// lowercased name and, when it gets that far, the environment lookup once
/// with the name after `env-`.
pub fn resolve_attribute_reference<'a, D: Fn(&str) -> Option<&'a str>, E: Fn(&str) -> Option<
    String,
>>(
    name: &str,
    doc_lookup: D,
    env_lookup: E,
    fallback: Option<&'a str>,
    attribute_missing: Option<&str>,
) -> (r: AttrRefOutcome<'a>)
    requires
        forall|x: &str| x@ == ascii_lower_text(name@) ==> #[trigger] call_requires(doc_lookup, (x,)),
        forall|x: &str| x@ == name@.skip(4) ==> #[trigger] call_requires(env_lookup, (x,)),
    ensures
        resolved_by(r, name@, doc_lookup, env_lookup, fallback, opt_text(attribute_missing)),
{
    let ghost am = opt_text(attribute_missing);
    let nv = chars_of(name);
    let low = lower_chars(nv.as_slice());
    let low_s = string_of(low.as_slice());
    let low_str = low_s.as_str();
    let d = doc_lookup(low_str);
    assert(looked_up(doc_lookup, ascii_lower_text(name@), d));
    let ghost e0: Option<String> = None;
    if let Some(v) = d {
        assert(attr_ref_outcome(name@, d, e0, fallback, am) == AttrRefOutcome::Document(v));
        return AttrRefOutcome::Document(v);
    }
    if let Some(a) = intrinsic_chars(low.as_slice()) {
        assert(attr_ref_outcome(name@, d, e0, fallback, am) == AttrRefOutcome::Intrinsic(a));
        return AttrRefOutcome::Intrinsic(a);
    }
    let env = vec!['e', 'n', 'v', '-'];
    assert(env@ == lit_env());
    if crate::text::starts_with_at(nv.as_slice(), env.as_slice()) {
        let rest = name.substring_char(4, nv.len());
        assert(rest@ =~= name@.skip(4));
        let e = env_lookup(rest);
        assert(env_looked_up(env_lookup, name@.skip(4), e));
        if let Some(v) = e {
            assert(attr_ref_outcome(name@, d, e, fallback, am) == AttrRefOutcome::Env(v));
            return AttrRefOutcome::Env(v);
        }
        let r = match fallback {
            Some(fb) => AttrRefOutcome::Fallback(fb),
            None => AttrRefOutcome::MissingSkip,
        };
        assert(attr_ref_outcome(name@, d, e, fallback, am) == r);
        return r;
    }
    if let Some(fb) = fallback {
        assert(attr_ref_outcome(name@, d, e0, fallback, am) == AttrRefOutcome::Fallback(fb));
        return AttrRefOutcome::Fallback(fb);
    }
    let r = match attribute_missing {
        Some(m) => {
            let mv = chars_of(m);
            let drop = vec!['d', 'r', 'o', 'p'];
            assert(drop@ == lit_drop());
            let drop_line = vec!['d', 'r', 'o', 'p', '-', 'l', 'i', 'n', 'e'];
            assert(drop_line@ == lit_drop_line());
            if same_chars(mv.as_slice(), drop.as_slice()) || same_chars(
                mv.as_slice(),
                drop_line.as_slice(),
            ) {
                AttrRefOutcome::MissingDrop
            } else {
                AttrRefOutcome::MissingSkip
            }
        },
        None => AttrRefOutcome::MissingSkip,
    };
    assert(attr_ref_outcome(name@, d, e0, fallback, am) == r);
    r
}

/// An `env-*` reference that neither the document, the intrinsic table
/// nor the environment resolves, and that has no fallback, stays literal
/// whatever `attribute-missing` says.
pub proof fn law_env_miss_stays_literal<'a>(
    name: Seq<char>,
    env: Option<String>,
    attribute_missing: Option<Seq<char>>,
)
    requires
        starts_with(name, lit_env()),
        intrinsic_of(ascii_lower_text(name)) is None,
        env is None,
    ensures
        attr_ref_outcome(name, None, env, None, attribute_missing) is MissingSkip,
{
}

/// A document attribute wins over every other source, and an intrinsic
/// attribute over the environment, the fallback and missing handling.
pub proof fn law_document_then_intrinsic<'a>(
    name: Seq<char>,
    doc: Option<&'a str>,
    env: Option<String>,
    fallback: Option<&'a str>,
    attribute_missing: Option<Seq<char>>,
)
    ensures
        (doc matches Some(v) ==> attr_ref_outcome(name, doc, env, fallback, attribute_missing)
            == AttrRefOutcome::Document(v)),
        doc is None ==> match intrinsic_of(ascii_lower_text(name)) {
            Some(a) => attr_ref_outcome(name, doc, env, fallback, attribute_missing)
                == AttrRefOutcome::Intrinsic(a),
            None => true,
        },
{
}

/// `{name}` references in `s[i..]` resolved, the `k`-th reference met
/// with `ans[k]` as the document lookup's answer for its lowercased name:
/// that value, else an intrinsic attribute's text, else the reference
/// stays; a `{` without a closing `}` stays.
pub open spec fn refs_text_from<'a>(s: Seq<char>, i: int, ans: Seq<Option<&'a str>>) -> Seq<char>
    decreases s.len() - i,
{
    if i < 0 || i >= s.len() {
        Seq::empty()
    } else if s[i] != '{' {
        seq![s[i]] + refs_text_from(s, i + 1, ans)
    } else {
        match crate::text::find_from(s, seq!['}'], i + 1) {
            Some(c) => {
                proof {
                    crate::text::lemma_find_from_bounds(s, seq!['}'], i + 1);
                }
                let name = s.subrange(i + 1, c);
                let low = ascii_lower_text(name);
                (match ans[0] {
                    Some(v) => v@,
                    None => match intrinsic_of(low) {
                        Some(a) => a.text@,
                        None => seq!['{'] + name + seq!['}'],
                    },
                }) + refs_text_from(s, c + 1, ans.skip(1))
            },
            None => s.skip(i),
        }
    }
}

/// The lowercased names of the `{name}` references in `s[i..]`, in order.
pub open spec fn ref_names(s: Seq<char>, i: int) -> Seq<Seq<char>>
    decreases s.len() - i,
{
    if i < 0 || i >= s.len() {
        Seq::empty()
    } else if s[i] != '{' {
        ref_names(s, i + 1)
    } else {
        match crate::text::find_from(s, seq!['}'], i + 1) {
            Some(c) => {
                proof {
                    crate::text::lemma_find_from_bounds(s, seq!['}'], i + 1);
                }
                seq![ascii_lower_text(s.subrange(i + 1, c))] + ref_names(s, c + 1)
            },
            None => Seq::empty(),
        }
    }
}

/// `ans[k]` is an answer the lookup gives for the `k`-th name.
pub open spec fn answers_for<'a, F: Fn(&str) -> Option<&'a str>>(
    f: F,
    names: Seq<Seq<char>>,
    ans: Seq<Option<&'a str>>,
) -> bool {
    &&& ans.len() == names.len()
    &&& forall|k: int| 0 <= k < names.len() ==> looked_up(f, names[k], #[trigger] ans[k])
}

/// Resolves `{name}` references inside a flat string value, calling the
/// document lookup once per reference.
pub fn resolve_attr_refs_text<'a, F: Fn(&str) -> Option<&'a str>>(value: &str, doc_lookup: F) -> (r:
    String)
    requires
        forall|x: &str| ref_names(value@, 0).contains(x@) ==> #[trigger] call_requires(doc_lookup, (x,)),
    ensures
        exists|ans: Seq<Option<&'a str>>|
            #![trigger refs_text_from(value@, 0, ans)]
            answers_for(doc_lookup, ref_names(value@, 0), ans) && r@ == refs_text_from(value@, 0, ans),
{
    let s = chars_of(value);
    let n = s.len();
    let cb = vec!['}'];
    assert(cb@ == seq!['}']);
    let mut out: Vec<char> = Vec::new();
    let mut i: usize = 0;
    let ghost mut done: Seq<Option<&'a str>> = Seq::empty();
    let ghost mut names: Seq<Seq<char>> = Seq::empty();
    assert forall|t: Seq<Option<&'a str>>| out@ + refs_text_from(s@, 0, t) == refs_text_from(
        s@,
        0,
        done + t,
    ) by {
        assert(done + t =~= t);
        assert(out@ + refs_text_from(s@, 0, t) =~= refs_text_from(s@, 0, t));
    }
    assert(names + ref_names(s@, 0) =~= ref_names(s@, 0));
    while i < n
        invariant
            n == s@.len(),
            s@ == value@,
            i <= n,
            cb@ == seq!['}'],
            forall|x: &str| ref_names(value@, 0).contains(x@) ==> #[trigger] call_requires(doc_lookup, (x,)),
            forall|t: Seq<Option<&'a str>>|
                #![trigger refs_text_from(s@, i as int, t)]
                out@ + refs_text_from(s@, i as int, t) == refs_text_from(s@, 0, done + t),
            names + ref_names(s@, i as int) == ref_names(s@, 0),
            answers_for(doc_lookup, names, done),
        decreases n - i,
    {
        let ghost before = out@;
        let ghost i0 = i as int;
        if s[i] != '{' {
            out.push(s[i]);
            assert(ref_names(s@, i0) == ref_names(s@, i0 + 1));
            assert forall|t: Seq<Option<&'a str>>| out@ + refs_text_from(s@, i0 + 1, t)
                == refs_text_from(s@, 0, done + t) by {
                assert(refs_text_from(s@, i0, t) == seq![s@[i0]] + refs_text_from(s@, i0 + 1, t));
                assert(out@ + refs_text_from(s@, i0 + 1, t) =~= before + refs_text_from(s@, i0, t));
            }
            i += 1;
        } else {
            match crate::text::find_from_at(s.as_slice(), cb.as_slice(), i + 1) {
                Some(c) => {
                    let name = slice_vec(s.as_slice(), i + 1, c);
                    let low = lower_chars(name.as_slice());
                    let low_s = string_of(low.as_slice());
                    let low_str = low_s.as_str();
                    proof {
                        crate::text::lemma_find_from_bounds(s@, seq!['}'], i + 1);
                        assert(ref_names(s@, i0) == seq![low@] + ref_names(s@, c + 1));
                        assert((names + ref_names(s@, i0))[names.len() as int] == low@);
                        assert(ref_names(value@, 0).contains(low_str@));
                    }
                    let d = doc_lookup(low_str);
                    assert(looked_up(doc_lookup, low@, d));
                    let ghost piece = match d {
                        Some(v) => v@,
                        None => match intrinsic_of(low@) {
                            Some(a) => a.text@,
                            None => seq!['{'] + name@ + seq!['}'],
                        },
                    };
                    match d {
                        Some(v) => {
                            let vv = chars_of(v);
                            push_all(&mut out, vv.as_slice());
                        },
                        None => match intrinsic_chars(low.as_slice()) {
                            Some(a) => {
                                let tv = chars_of(a.text);
                                push_all(&mut out, tv.as_slice());
                            },
                            None => {
                                out.push('{');
                                push_all(&mut out, name.as_slice());
                                out.push('}');
                            },
                        },
                    }
                    assert(out@ =~= before + piece);
                    proof {
                        let old_done = done;
                        let old_names = names;
                        assert forall|t: Seq<Option<&'a str>>| out@ + refs_text_from(s@, c + 1, t)
                            == refs_text_from(s@, 0, old_done.push(d) + t) by {
                            let t0 = seq![d] + t;
                            assert(t0[0] == d);
                            assert(t0.skip(1) =~= t);
                            assert(refs_text_from(s@, i0, t0) == piece + refs_text_from(s@, c + 1, t));
                            assert(old_done + t0 =~= old_done.push(d) + t);
                            assert(out@ + refs_text_from(s@, c + 1, t) =~= before + refs_text_from(
                                s@,
                                i0,
                                t0,
                            ));
                        }
                        done = old_done.push(d);
                        names = old_names.push(low@);
                        assert(names + ref_names(s@, c + 1) =~= old_names + ref_names(s@, i0));
                        assert forall|k: int| 0 <= k < names.len() implies looked_up(
                            doc_lookup,
                            names[k],
                            #[trigger] done[k],
                        ) by {
                            if k < old_names.len() {
                                assert(names[k] == old_names[k]);
                                assert(done[k] == old_done[k]);
                            }
                        }
                    }
                    i = c + 1;
                },
                None => {
                    let rest = slice_vec(s.as_slice(), i, n);
                    push_all(&mut out, rest.as_slice());
                    assert(rest@ =~= s@.skip(i as int));
                    proof {
                        assert(ref_names(s@, i0) == Seq::<Seq<char>>::empty());
                        assert(ref_names(s@, n as int) == Seq::<Seq<char>>::empty());
                        assert forall|t: Seq<Option<&'a str>>| out@ + refs_text_from(s@, n as int, t)
                            == refs_text_from(s@, 0, done + t) by {
                            assert(refs_text_from(s@, i0, t) == s@.skip(i0));
                            assert(out@ + refs_text_from(s@, n as int, t) =~= before
                                + refs_text_from(s@, i0, t));
                        }
                    }
                    i = n;
                },
            }
        }
    }
    proof {
        let t = Seq::<Option<&'a str>>::empty();
        assert(refs_text_from(s@, n as int, t) == Seq::<char>::empty());
        assert(out@ + refs_text_from(s@, n as int, t) =~= out@);
        assert(done + t =~= done);
        assert(names =~= ref_names(s@, 0)) by {
            assert(ref_names(s@, n as int) == Seq::<Seq<char>>::empty());
            assert(names + ref_names(s@, n as int) =~= names);
        }
    }
    string_of(out.as_slice())
}

} // verus!
