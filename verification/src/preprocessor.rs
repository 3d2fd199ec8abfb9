//! The preprocessor: conditional directives (`ifdef`, `ifndef`, `ifeval`,
//! `endif`), attribute entries and counters, evaluated line by line in
//! document order, with verbatim blocks passed through untouched.

use vstd::prelude::*;
pub use crate::attrs::{AttrMap, NameSet};
use crate::cond::{
    condition_holds, conditional_of, directive_start, evaluate_condition, evaluate_ifeval,
    ifeval_holds, key_fn_ok, parse_conditional, starts_with_conditional_directive,
    ConditionalKind,
};
pub use crate::cond::NumKey;
pub use crate::counters::{expand_counters, increment_counter_value, initialize_from_seed};
pub use crate::inclusion::{
    IncludeAttrs, IncludeLine, IncludePlan, LineRange, MAX_INCLUDE_DEPTH, TagEntry, TagFilter,
    apply_indent, apply_level_offset, classify_include_line, filter_by_lines, filter_by_tags,
    finish_resolved, included_text, indent_cuts_ok, is_tag_directive, is_uriish,
    parse_include_attrs, parse_line_range, plan_include, read_failure_text,
    splice_included, splice_resolved, uri_include_link, write_unresolved_include,
};
use crate::counters::{expand_counters_chars, expand_counters_of};
use crate::lines::{
    attr_entry_of, attr_refs_of, collect_continuation_value, collect_value,
    expand_attr_refs_in_attrlist, is_verbatim_style_attr_line, lemma_continue_bounds,
    lemma_skip_bounds, line_views, parse_attribute_entry, skip_continuation_lines, skip_value,
    std_lines, std_lines_chars, trim_vec, verbatim_style,
};
use crate::scanner::{code_fence_chars, code_fence_of, delimiter_chars, delimiter_of, without_bom, DelimiterType};
use crate::text::{chars_of, ends_with, push_all, slice_vec, starts_with, string_of, trim, trim_end, trim_end_range};

verus! {

/// An open verbatim block: an AsciiDoc delimited block (kind and delimiter
/// length) or a Markdown code fence (backtick count).
#[derive(Debug, Clone, Copy, PartialEq, Eq, Structural)]
pub enum VerbatimFence {
    Adoc(DelimiterType, usize),
    Markdown(usize),
}

/// The preprocessor's state between lines.
pub struct PpState {
    /// Document attributes.
    pub attrs: Map<Seq<char>, Seq<char>>,
    /// Names of the counters defined so far.
    pub names: Set<Seq<char>>,
    /// For each open conditional block, whether it skips its lines.
    pub skip: Seq<bool>,
    /// The open verbatim block, if any.
    pub fence: Option<VerbatimFence>,
    /// A verbatim style line was just emitted.
    pub pending: bool,
    /// Inside a paragraph styled verbatim.
    pub in_para: bool,
}

pub open spec fn state(
    attrs: Map<Seq<char>, Seq<char>>,
    names: Set<Seq<char>>,
    skip: Seq<bool>,
    fence: Option<VerbatimFence>,
    pending: bool,
    in_para: bool,
) -> PpState {
    PpState { attrs, names, skip, fence, pending, in_para }
}

pub open spec fn skipping(skip: Seq<bool>) -> bool {
    exists|k: int| 0 <= k < skip.len() && skip[k]
}

pub open spec fn emit(line: Seq<char>) -> Seq<char> {
    line.push('\n')
}

/// Not indented by a space or a tab.
pub open spec fn at_column_0(line: Seq<char>) -> bool {
    !(line.len() > 0 && (line[0] == ' ' || line[0] == '\t'))
}

pub open spec fn lit_endif_line() -> Seq<char> {
    seq!['e', 'n', 'd', 'i', 'f', ':', ':', '[', ']']
}

pub open spec fn pop_skip(skip: Seq<bool>) -> Seq<bool> {
    if skip.len() > 0 {
        skip.drop_last()
    } else {
        skip
    }
}

pub open spec fn condition_met<F: Fn(&str) -> Option<NumKey>>(
    f: F,
    kind: ConditionalKind,
    a: Seq<char>,
    m: Map<Seq<char>, Seq<char>>,
) -> bool {
    match kind {
        ConditionalKind::Ifdef => condition_holds(a, m),
        ConditionalKind::Ifndef => !condition_holds(a, m),
        ConditionalKind::Ifeval => ifeval_holds(f, a, m),
    }
}

/// Directive handling of a line: an escaped directive is emitted without
/// its backslash (unless skipping); `endif::[]` closes the innermost
/// conditional; a conditional directive at column 0 either emits its
/// inline content (when met and not skipping) or opens a block that skips
/// when unmet or already skipping; any other line is dropped while
/// skipping. `None` when the line goes on to the next stages.
pub open spec fn directive_step<F: Fn(&str) -> Option<NumKey>>(
    f: F,
    line: Seq<char>,
    st: PpState,
) -> Option<(PpState, Seq<char>)> {
    let sk = skipping(st.skip);
    let trimmed = trim(line);
    if starts_with(line, seq!['\\']) && directive_start(line.skip(1)) {
        Some(
            (
                st,
                if sk {
                    Seq::empty()
                } else {
                    emit(line.skip(1))
                },
            ),
        )
    } else if at_column_0(line) && trimmed == lit_endif_line() {
        Some(
            (
                state(st.attrs, st.names, pop_skip(st.skip), st.fence, st.pending, st.in_para),
                Seq::empty(),
            ),
        )
    } else if at_column_0(line) && conditional_of(trimmed) is Some {
        let (kind, a, inline) = conditional_of(trimmed)->0;
        let met = condition_met(f, kind, a, st.attrs);
        match inline {
            Some(c) => Some(
                (
                    st,
                    if met && !sk {
                        emit(c)
                    } else {
                        Seq::empty()
                    },
                ),
            ),
            None => Some(
                (
                    state(
                        st.attrs,
                        st.names,
                        st.skip.push(!met || sk),
                        st.fence,
                        st.pending,
                        st.in_para,
                    ),
                    Seq::empty(),
                ),
            ),
        }
    } else if sk {
        Some((st, Seq::empty()))
    } else {
        None
    }
}

pub open spec fn verbatim_kind(dt: DelimiterType) -> bool {
    dt == DelimiterType::Listing || dt == DelimiterType::Literal || dt == DelimiterType::Passthrough
        || dt == DelimiterType::Comment
}

/// The line closes the open verbatim block: the same delimiter, or a
/// Markdown fence of at least as many backticks without an info string.
pub open spec fn closes(fence: VerbatimFence, line: Seq<char>) -> bool {
    match fence {
        VerbatimFence::Adoc(dt, dl) => delimiter_of(line) == Some((dt, dl as int)),
        VerbatimFence::Markdown(n) => code_fence_of(line) matches Some((c, None)) && c >= n,
    }
}

/// Verbatim handling: after a verbatim style line, a following non-blank
/// line that opens no delimited block starts a verbatim paragraph, whose
/// lines are emitted untouched up to a blank line; inside an open verbatim
/// block every line is emitted untouched (the closing delimiter ends it); a
/// listing, literal, passthrough or comment delimiter or a Markdown code
/// fence opens one. The state after this stage, and the text emitted when
/// the line is handled here.
pub open spec fn verbatim_step(line: Seq<char>, st: PpState) -> (PpState, Option<Seq<char>>) {
    let is_blank = trim(line).len() == 0;
    let st1 = if st.pending {
        let opens = delimiter_of(line) is Some || code_fence_of(line) is Some;
        state(
            st.attrs,
            st.names,
            st.skip,
            st.fence,
            false,
            if !opens && !is_blank {
                true
            } else {
                st.in_para
            },
        )
    } else {
        st
    };
    if st1.in_para && !is_blank {
        (st1, Some(emit(line)))
    } else {
        let st2 = state(st1.attrs, st1.names, st1.skip, st1.fence, st1.pending, false);
        match st2.fence {
            Some(fence) => (
                state(
                    st2.attrs,
                    st2.names,
                    st2.skip,
                    if closes(fence, line) {
                        None
                    } else {
                        Some(fence)
                    },
                    st2.pending,
                    st2.in_para,
                ),
                Some(emit(line)),
            ),
            None => match delimiter_of(line) {
                Some((dt, dl)) => if verbatim_kind(dt) {
                    (
                        state(
                            st2.attrs,
                            st2.names,
                            st2.skip,
                            Some(VerbatimFence::Adoc(dt, dl as usize)),
                            st2.pending,
                            st2.in_para,
                        ),
                        Some(emit(line)),
                    )
                } else {
                    (st2, None)
                },
                None => match code_fence_of(line) {
                    Some((c, _)) => (
                        state(
                            st2.attrs,
                            st2.names,
                            st2.skip,
                            Some(VerbatimFence::Markdown(c as usize)),
                            st2.pending,
                            st2.in_para,
                        ),
                        Some(emit(line)),
                    ),
                    None => (st2, None),
                },
            },
        }
    }
}

/// A line after counter expansion, with attribute references replaced when
/// it is a block attribute line (`[` … `]`).
pub open spec fn effective_line(eff: Seq<char>, m: Map<Seq<char>, Seq<char>>) -> Seq<char> {
    if starts_with(eff, seq!['[']) && ends_with(trim_end(eff), seq![']']) && attr_refs_of(
        eff,
        m,
    ) is Some {
        attr_refs_of(eff, m)->0
    } else {
        eff
    }
}

/// Content handling of `lines[i]`: counters are expanded and, on a block
/// attribute line, attribute references; an attribute entry on a locked
/// name is dropped with its continuation lines; any other entry is emitted
/// with its continuation lines and sets (with the joined value) or unsets
/// the attribute; another line is emitted, and a verbatim style line arms
/// the verbatim paragraph. The next index, state and emitted text.
pub open spec fn content_step(
    lines: Seq<Seq<char>>,
    i: int,
    st: PpState,
    locked: Set<Seq<char>>,
) -> (int, PpState, Seq<char>) {
    let line = lines[i];
    let (exp, m1, n1) = expand_counters_of(line, st.attrs, st.names);
    let eff = match exp {
        Some(t) => t,
        None => line,
    };
    let eff2 = effective_line(eff, m1);
    match attr_entry_of(trim(eff2)) {
        Some((name, value)) => if locked.contains(name) {
            (
                match value {
                    Some(v) => skip_value(lines, i + 1, v),
                    None => i + 1,
                },
                state(m1, n1, st.skip, st.fence, st.pending, st.in_para),
                Seq::empty(),
            )
        } else {
            match value {
                Some(v) => {
                    let c = collect_value(lines, i + 1, v);
                    (
                        c.0,
                        state(m1.insert(name, c.1), n1, st.skip, st.fence, st.pending, st.in_para),
                        emit(eff2) + c.2,
                    )
                },
                None => (
                    i + 1,
                    state(m1.remove(name), n1, st.skip, st.fence, st.pending, st.in_para),
                    emit(eff2),
                ),
            }
        },
        None => (
            i + 1,
            state(m1, n1, st.skip, st.fence, st.pending || verbatim_style(eff2), st.in_para),
            emit(eff2),
        ),
    }
}

/// One step of the preprocessor at `lines[i]`: next index, state, and the
/// text emitted.
pub open spec fn pp_step<F: Fn(&str) -> Option<NumKey>>(
    f: F,
    lines: Seq<Seq<char>>,
    i: int,
    st: PpState,
    locked: Set<Seq<char>>,
) -> (int, PpState, Seq<char>) {
    match directive_step(f, lines[i], st) {
        Some((st2, out)) => (i + 1, st2, out),
        None => {
            let (st2, handled) = verbatim_step(lines[i], st);
            match handled {
                Some(out) => (i + 1, st2, out),
                None => content_step(lines, i, st2, locked),
            }
        },
    }
}

/// The text emitted from `lines[i..]` on.
pub open spec fn pp_run<F: Fn(&str) -> Option<NumKey>>(
    f: F,
    lines: Seq<Seq<char>>,
    i: int,
    st: PpState,
    locked: Set<Seq<char>>,
) -> Seq<char>
    decreases lines.len() - i,
{
    if i < 0 || i >= lines.len() {
        Seq::empty()
    } else {
        let (j, st2, out) = pp_step(f, lines, i, st, locked);
        if j <= i || j > lines.len() {
            Seq::empty()
        } else {
            out + pp_run(f, lines, j, st2, locked)
        }
    }
}

/// Preprocessed text of `input` (a leading BOM dropped) with initial
/// attributes `init` and the locked attribute names; the last newline goes
/// when the input does not end with one.
pub open spec fn preprocess_of<F: Fn(&str) -> Option<NumKey>>(
    f: F,
    input: Seq<char>,
    init: Map<Seq<char>, Seq<char>>,
    locked: Set<Seq<char>>,
) -> Seq<char> {
    let s = without_bom(input);
    let out = pp_run(
        f,
        std_lines(s),
        0,
        state(init, Set::empty(), Seq::empty(), None, false, false),
        locked,
    );
    if !ends_with(s, seq!['\n']) && ends_with(out, seq!['\n']) {
        out.drop_last()
    } else {
        out
    }
}

// ---------------------------------------------------------------------------
// Laws of the step
// ---------------------------------------------------------------------------

/// `ifndef` holds exactly when `ifdef` with the same condition does not.
pub proof fn law_ifndef_negates_ifdef<F: Fn(&str) -> Option<NumKey>>(
    f: F,
    a: Seq<char>,
    m: Map<Seq<char>, Seq<char>>,
)
    ensures
        condition_met(f, ConditionalKind::Ifndef, a, m) == !condition_met(
            f,
            ConditionalKind::Ifdef,
            a,
            m,
        ),
{
}

/// While a conditional block skips, every line is consumed by the
/// directive stage and nothing is emitted.
pub proof fn law_skipped_lines_emit_nothing<F: Fn(&str) -> Option<NumKey>>(
    f: F,
    line: Seq<char>,
    st: PpState,
)
    requires
        skipping(st.skip),
    ensures
        directive_step(f, line, st) matches Some((_, out)) && out.len() == 0,
{
}

/// `endif::[]` at column 0 closes the innermost conditional block, whether
/// or not lines are being skipped.
pub proof fn law_endif_always_closes<F: Fn(&str) -> Option<NumKey>>(
    f: F,
    line: Seq<char>,
    st: PpState,
)
    requires
        at_column_0(line),
        trim(line) == lit_endif_line(),
    ensures
        directive_step(f, line, st) matches Some((s2, out)) && s2.skip == pop_skip(st.skip)
            && out.len() == 0,
{
    assert(!starts_with(line, seq!['\\'])) by {
        if starts_with(line, seq!['\\']) {
            assert(line.subrange(0, 1)[0] == line[0]);
            let t = trim_end(line);
            crate::text::lemma_rtrim_bounds(line, line.len() as int);
            crate::text::lemma_skip_ws_bounds(t, 0);
            assert(lit_endif_line().len() == 9);
            assert(trim(line) == crate::text::trim_start(t));
            assert(t.len() > 0);
            assert(t[0] == line[0]);
            assert(crate::text::skip_ws_from(t, 0) == 0);
            assert(trim(line)[0] == t[0]);
            assert(lit_endif_line()[0] == 'e');
        }
    }
}

/// An indented line is never a conditional directive: outside a skipped
/// block it goes on to the later stages.
pub proof fn law_indented_lines_not_directives<F: Fn(&str) -> Option<NumKey>>(
    f: F,
    line: Seq<char>,
    st: PpState,
)
    requires
        !at_column_0(line),
        !skipping(st.skip),
    ensures
        directive_step(f, line, st) is None,
{
    assert(!starts_with(line, seq!['\\'])) by {
        assert(line.subrange(0, 1)[0] == line[0]);
    }
}

/// Inside an open verbatim block every line is emitted unchanged.
pub proof fn law_verbatim_block_untouched(line: Seq<char>, st: PpState)
    requires
        st.fence is Some,
    ensures
        verbatim_step(line, st).1 == Some(emit(line)),
{
}

/// An attribute entry on a locked name changes no attribute and emits
/// nothing (counter expansion on the line still happens).
pub proof fn law_locked_entries_ignored(
    lines: Seq<Seq<char>>,
    i: int,
    st: PpState,
    locked: Set<Seq<char>>,
)
    requires
        0 <= i < lines.len(),
        ({
            let (exp, m1, n1) = expand_counters_of(lines[i], st.attrs, st.names);
            let eff = match exp {
                Some(t) => t,
                None => lines[i],
            };
            attr_entry_of(trim(effective_line(eff, m1))) matches Some((name, _)) && locked.contains(
                name,
            )
        }),
    ensures
        content_step(lines, i, st, locked).1.attrs == expand_counters_of(
            lines[i],
            st.attrs,
            st.names,
        ).1,
        content_step(lines, i, st, locked).2.len() == 0,
{
}

// ---------------------------------------------------------------------------
// Executable state
// ---------------------------------------------------------------------------

struct PpExec {
    attrs: AttrMap,
    names: NameSet,
    skip: Vec<bool>,
    fence: Option<VerbatimFence>,
    pending: bool,
    in_para: bool,
}

impl PpExec {
    spec fn wf(&self) -> bool {
        self.attrs.wf() && self.names.wf()
    }

    spec fn view(&self) -> PpState {
        state(self.attrs@, self.names@, self.skip@, self.fence, self.pending, self.in_para)
    }
}

fn is_skipping(stack: &Vec<bool>) -> (r: bool)
    ensures
        r == skipping(stack@),
{
    let mut k: usize = 0;
    while k < stack.len()
        invariant
            k <= stack@.len(),
            forall|j: int| 0 <= j < k ==> !stack@[j],
        decreases stack@.len() - k,
    {
        if stack[k] {
            return true;
        }
        k += 1;
    }
    false
}

fn emit_line(out: &mut Vec<char>, line: &[char])
    ensures
        final(out)@ == old(out)@ + emit(line@),
{
    push_all(out, line);
    out.push('\n');
    assert(final(out)@ =~= old(out)@ + emit(line@));
}

/// Directive stage; `true` when the line was handled here.
fn directive_phase<F: Fn(&str) -> Option<NumKey>>(
    line: &[char],
    st: &mut PpExec,
    out: &mut Vec<char>,
    f: &F,
) -> (handled: bool)
    requires
        old(st).wf(),
        key_fn_ok(*f),
    ensures
        final(st).wf(),
        handled ==> (directive_step(*f, line@, old(st).view()) matches Some((s2, t)) && s2
            == final(st).view() && final(out)@ == old(out)@ + t),
        !handled ==> directive_step(*f, line@, old(st).view()) is None && final(st).view()
            == old(st).view() && final(out)@ == old(out)@,
{
    let ghost o0 = out@;
    let n = line.len();
    let sk = is_skipping(&st.skip);
    let trimmed = trim_vec(line);
    if n > 0 && line[0] == '\\' {
        let rest = slice_vec(line, 1, n);
        assert(rest@ =~= line@.skip(1));
        assert(line@.subrange(0, 1) =~= seq!['\\']);
        if starts_with_conditional_directive(rest.as_slice()) {
            if !sk {
                emit_line(out, rest.as_slice());
            }
            assert(out@ =~= o0 + (if sk {
                Seq::empty()
            } else {
                emit(line@.skip(1))
            }));
            return true;
        }
    }
    proof {
        if n > 0 {
            assert(line@.subrange(0, 1)[0] == line@[0]);
        }
    }
    let col0 = !(n > 0 && (line[0] == ' ' || line[0] == '\t'));
    let endif = vec!['e', 'n', 'd', 'i', 'f', ':', ':', '[', ']'];
    assert(endif@ == lit_endif_line());
    if col0 && crate::attrs::same_chars(trimmed.as_slice(), endif.as_slice()) {
        st.skip.pop();
        assert(st.skip@ =~= pop_skip(old(st).skip@));
        assert(out@ =~= o0 + Seq::<char>::empty());
        return true;
    }
    if col0 {
        if let Some(cond) = parse_conditional(trimmed.as_slice()) {
            let met = match cond.kind {
                ConditionalKind::Ifdef => evaluate_condition(cond.attrs.as_slice(), &st.attrs),
                ConditionalKind::Ifndef => !evaluate_condition(cond.attrs.as_slice(), &st.attrs),
                ConditionalKind::Ifeval => evaluate_ifeval(cond.attrs.as_slice(), &st.attrs, f),
            };
            match cond.inline_content {
                Some(content) => {
                    if met && !sk {
                        emit_line(out, content.as_slice());
                    }
                    assert(out@ =~= o0 + (if met && !sk {
                        emit(content@)
                    } else {
                        Seq::empty()
                    }));
                },
                None => {
                    st.skip.push(!met || sk);
                    assert(out@ =~= o0 + Seq::<char>::empty());
                },
            }
            return true;
        }
    }
    if sk {
        assert(out@ =~= o0 + Seq::<char>::empty());
        return true;
    }
    false
}

fn is_verbatim_kind(dt: DelimiterType) -> (r: bool)
    ensures
        r == verbatim_kind(dt),
{
    match dt {
        DelimiterType::Listing => true,
        DelimiterType::Literal => true,
        DelimiterType::Passthrough => true,
        DelimiterType::Comment => true,
        _ => false,
    }
}

fn fence_closes(fence: VerbatimFence, line: &[char]) -> (r: bool)
    ensures
        r == closes(fence, line@),
{
    match fence {
        VerbatimFence::Adoc(dt, dl) => match delimiter_chars(line) {
            Some((t, l)) => t == dt && l == dl,
            None => false,
        },
        VerbatimFence::Markdown(n) => match code_fence_chars(line) {
            Some((c, None)) => c >= n,
            _ => false,
        },
    }
}

/// Verbatim stage; `true` when the line was handled here.
fn verbatim_phase(line: &[char], st: &mut PpExec, out: &mut Vec<char>) -> (handled: bool)
    requires
        old(st).wf(),
    ensures
        final(st).wf(),
        ({
            let (s2, h) = verbatim_step(line@, old(st).view());
            &&& s2 == final(st).view()
            &&& (h matches Some(t) ==> handled && final(out)@ == old(out)@ + t)
            &&& (h is None ==> !handled && final(out)@ == old(out)@)
        }),
{
    let tv = trim_vec(line);
    let is_blank = tv.len() == 0;
    if st.pending {
        let opens = delimiter_chars(line).is_some() || code_fence_chars(line).is_some();
        st.pending = false;
        if !opens && !is_blank {
            st.in_para = true;
        }
    }
    if st.in_para && !is_blank {
        emit_line(out, line);
        return true;
    }
    st.in_para = false;
    match st.fence {
        Some(fence) => {
            if fence_closes(fence, line) {
                st.fence = None;
            }
            emit_line(out, line);
            true
        },
        None => match delimiter_chars(line) {
            Some((dt, dl)) => {
                if is_verbatim_kind(dt) {
                    st.fence = Some(VerbatimFence::Adoc(dt, dl));
                    emit_line(out, line);
                    true
                } else {
                    false
                }
            },
            None => match code_fence_chars(line) {
                Some((c, _)) => {
                    st.fence = Some(VerbatimFence::Markdown(c));
                    emit_line(out, line);
                    true
                },
                None => false,
            },
        },
    }
}

fn locked_contains(locked: &NameSet, name: &[char]) -> (r: bool)
    requires
        locked.wf(),
    ensures
        r == locked@.contains(name@),
{
    locked.contains_chars(name)
}

/// The chars of `line` after counter expansion and, on a block attribute
/// line, attribute references.
fn effective_line_exec(line: &[char], st: &mut PpExec) -> (eff2: Vec<char>)
    requires
        old(st).wf(),
    ensures
        final(st).wf(),
        ({
            let (exp, m1, n1) = expand_counters_of(line@, old(st).attrs@, old(st).names@);
            &&& final(st).view() == state(
                m1,
                n1,
                old(st).skip@,
                old(st).fence,
                old(st).pending,
                old(st).in_para,
            )
            &&& eff2@ == effective_line(
                match exp {
                    Some(t) => t,
                    None => line@,
                },
                m1,
            )
        }),
{
    let exp = expand_counters_chars(line, &mut st.attrs, &mut st.names);
    let eff = match exp {
        Some(t) => t,
        None => slice_vec(line, 0, line.len()),
    };
    assert(line@.subrange(0, line@.len() as int) =~= line@);
    let ghost e = match expand_counters_of(line@, old(st).attrs@, old(st).names@).0 {
        Some(t) => t,
        None => line@,
    };
    assert(eff@ == e);
    let el = eff.len();
    if el > 0 && eff[0] == '[' {
        let te = trim_end_range(eff.as_slice(), 0, el);
        assert(eff@.subrange(0, el as int) =~= eff@);
        let ends = te > 0 && eff[te - 1] == ']';
        proof {
            assert(eff@.subrange(0, 1) =~= seq!['[']);
            let t = trim_end(eff@);
            assert(t == eff@.subrange(0, te as int));
            if te > 0 {
                assert(t.subrange(te - 1, te as int) =~= seq![t[te - 1]]);
                assert(t[te - 1] == eff@[te - 1]);
            }
        }
        if ends {
            assert(starts_with(eff@, seq!['[']) && ends_with(trim_end(eff@), seq![']']));
            match expand_attr_refs_in_attrlist(eff.as_slice(), &st.attrs) {
                Some(t) => t,
                None => eff,
            }
        } else {
            proof {
                let t = trim_end(eff@);
                if te > 0 {
                    assert(t.subrange(te - 1, te as int)[0] == eff@[te - 1]);
                }
            }
            assert(!ends_with(trim_end(eff@), seq![']']));
            eff
        }
    } else {
        proof {
            if el > 0 {
                assert(eff@.subrange(0, 1)[0] == eff@[0]);
            }
        }
        eff
    }
}

/// Content stage at `lines[i]`; the index of the next line to process.
fn content_phase(
    lines: &Vec<Vec<char>>,
    i: usize,
    st: &mut PpExec,
    out: &mut Vec<char>,
    locked: &NameSet,
) -> (next: usize)
    requires
        old(st).wf(),
        locked.wf(),
        i < lines@.len(),
    ensures
        final(st).wf(),
        ({
            let c = content_step(line_views(lines@), i as int, old(st).view(), locked@);
            &&& next == c.0
            &&& final(st).view() == c.1
            &&& final(out)@ == old(out)@ + c.2
        }),
        i < next <= lines@.len(),
{
    let ghost ls = line_views(lines@);
    let nlines = lines.len();
    assert(ls[i as int] == lines@[i as int]@);
    let eff2 = effective_line_exec(lines[i].as_slice(), st);
    let te2 = trim_vec(eff2.as_slice());
    match parse_attribute_entry(te2.as_slice()) {
        Some((name, value)) => {
            if locked_contains(locked, name.as_slice()) {
                let next = match value {
                    Some(v) => {
                        proof {
                            lemma_skip_bounds(ls, i + 1);
                        }
                        skip_continuation_lines(v.as_slice(), lines, i + 1)
                    },
                    None => i + 1,
                };
                assert(out@ =~= old(out)@ + Seq::<char>::empty());
                next
            } else {
                emit_line(out, eff2.as_slice());
                match value {
                    Some(v) => {
                        proof {
                            lemma_continue_bounds(ls, i + 1, Seq::empty(), false);
                            if crate::scanner::line_continuation_of(v@) is Some {
                                let (p, h) = crate::scanner::line_continuation_of(v@)->0;
                                lemma_continue_bounds(ls, i + 1, p, h);
                            }
                        }
                        let (next, full) = collect_continuation_value(v.as_slice(), lines, i + 1, out);
                        st.attrs.insert_chars(name.as_slice(), full.as_slice());
                        assert(out@ =~= old(out)@ + (emit(eff2@) + collect_value(ls, i + 1, v@).2));
                        next
                    },
                    None => {
                        st.attrs.remove_chars(name.as_slice());
                        i + 1
                    },
                }
            }
        },
        None => {
            emit_line(out, eff2.as_slice());
            if is_verbatim_style_attr_line(eff2.as_slice()) {
                st.pending = true;
            }
            i + 1
        },
    }
}

/// One preprocessor step at `lines[i]`; the index of the next line.
fn pp_step_exec<F: Fn(&str) -> Option<NumKey>>(
    lines: &Vec<Vec<char>>,
    i: usize,
    st: &mut PpExec,
    out: &mut Vec<char>,
    locked: &NameSet,
    f: &F,
) -> (next: usize)
    requires
        old(st).wf(),
        locked.wf(),
        key_fn_ok(*f),
        i < lines@.len(),
    ensures
        final(st).wf(),
        ({
            let c = pp_step(*f, line_views(lines@), i as int, old(st).view(), locked@);
            &&& next == c.0
            &&& final(st).view() == c.1
            &&& final(out)@ == old(out)@ + c.2
        }),
        i < next <= lines@.len(),
{
    let ghost ls = line_views(lines@);
    assert(ls[i as int] == lines@[i as int]@);
    let ghost o0 = out@;
    let nlines = lines.len();
    if directive_phase(lines[i].as_slice(), st, out, f) {
        return i + 1;
    }
    if verbatim_phase(lines[i].as_slice(), st, out) {
        return i + 1;
    }
    content_phase(lines, i, st, out, locked)
}

/// The map given by setting, in order, each entry whose value is present.
pub open spec fn initial_map(entries: Seq<(Seq<char>, Option<Seq<char>>)>) -> Map<
    Seq<char>,
    Seq<char>,
>
    decreases entries.len(),
{
    if entries.len() == 0 {
        Map::empty()
    } else {
        let m = initial_map(entries.drop_last());
        match entries.last().1 {
            Some(v) => m.insert(entries.last().0, v),
            None => m,
        }
    }
}

pub open spec fn entries_view(entries: Seq<(String, Option<String>)>) -> Seq<
    (Seq<char>, Option<Seq<char>>),
> {
    entries.map_values(
        |e: (String, Option<String>)|
            (
                e.0@,
                match e.1 {
                    Some(v) => Some(v@),
                    None => None,
                },
            ),
    )
}

/// The set of the names' texts.
pub open spec fn name_set(names: Seq<String>) -> Set<Seq<char>> {
    Set::new(|k: Seq<char>| exists|i: int| 0 <= i < names.len() && #[trigger] names[i]@ == k)
}

fn initial_attr_map(initial_attrs: &[(String, Option<String>)]) -> (attrs: AttrMap)
    ensures
        attrs.wf(),
        attrs@ == initial_map(entries_view(initial_attrs@)),
{
    let mut attrs = AttrMap::new();
    let mut k: usize = 0;
    while k < initial_attrs.len()
        invariant
            k <= initial_attrs@.len(),
            attrs.wf(),
            attrs@ == initial_map(entries_view(initial_attrs@).take(k as int)),
        decreases initial_attrs@.len() - k,
    {
        let (name, value) = &initial_attrs[k];
        let ghost ev = entries_view(initial_attrs@);
        assert(ev.take(k + 1).drop_last() =~= ev.take(k as int));
        match value {
            Some(v) => attrs.insert(name.as_str(), v.as_str()),
            None => {},
        }
        k += 1;
    }
    assert(entries_view(initial_attrs@).take(initial_attrs@.len() as int) =~= entries_view(
        initial_attrs@,
    ));
    attrs
}

fn locked_name_set(locked_attrs: &[String]) -> (locked: NameSet)
    ensures
        locked.wf(),
        locked@ == name_set(locked_attrs@),
{
    let mut locked = NameSet::new();
    assert(name_set(locked_attrs@.take(0)) =~= Set::empty());
    let mut k: usize = 0;
    while k < locked_attrs.len()
        invariant
            k <= locked_attrs@.len(),
            locked.wf(),
            locked@ == name_set(locked_attrs@.take(k as int)),
        decreases locked_attrs@.len() - k,
    {
        locked.insert(locked_attrs[k].as_str());
        proof {
            let a = locked_attrs@.take(k as int);
            let b = locked_attrs@.take(k + 1);
            assert forall|x: Seq<char>| name_set(b).contains(x) == name_set(a).insert(
                locked_attrs@[k as int]@,
            ).contains(x) by {
                if name_set(b).contains(x) {
                    let i = choose|i: int| 0 <= i < b.len() && #[trigger] b[i]@ == x;
                    if i < k {
                        assert(a[i]@ == x);
                    }
                }
                if name_set(a).contains(x) {
                    let i = choose|i: int| 0 <= i < a.len() && #[trigger] a[i]@ == x;
                    assert(b[i]@ == x);
                }
                if x == locked_attrs@[k as int]@ {
                    assert(b[k as int]@ == x);
                }
            }
            assert(name_set(b) =~= name_set(a).insert(locked_attrs@[k as int]@));
        }
        k += 1;
    }
    assert(locked_attrs@.take(locked_attrs@.len() as int) =~= locked_attrs@);
    locked
}

/// The text emitted for all of `lines` from state `st`.
fn run_lines<F: Fn(&str) -> Option<NumKey>>(
    lines: &Vec<Vec<char>>,
    st: &mut PpExec,
    locked: &NameSet,
    f: &F,
) -> (out: Vec<char>)
    requires
        old(st).wf(),
        locked.wf(),
        key_fn_ok(*f),
    ensures
        out@ == pp_run(*f, line_views(lines@), 0, old(st).view(), locked@),
{
    let ghost ls = line_views(lines@);
    let ghost st0 = st.view();
    let mut out: Vec<char> = Vec::new();
    let mut i: usize = 0;
    assert(out@ + pp_run(*f, ls, 0, st0, locked@) =~= pp_run(*f, ls, 0, st0, locked@));
    while i < lines.len()
        invariant
            ls == line_views(lines@),
            i <= lines@.len(),
            st.wf(),
            locked.wf(),
            key_fn_ok(*f),
            pp_run(*f, ls, 0, st0, locked@) == out@ + pp_run(*f, ls, i as int, st.view(), locked@),
        decreases lines@.len() - i,
    {
        let ghost before = out@;
        let ghost sv = st.view();
        let next = pp_step_exec(lines, i, st, &mut out, locked, f);
        proof {
            let c = pp_step(*f, ls, i as int, sv, locked@);
            assert(pp_run(*f, ls, i as int, sv, locked@) == c.2 + pp_run(
                *f,
                ls,
                next as int,
                st.view(),
                locked@,
            ));
            assert(out@ + pp_run(*f, ls, next as int, st.view(), locked@) =~= before + (c.2
                + pp_run(*f, ls, next as int, st.view(), locked@)));
        }
        i = next;
    }
    assert(out@ + pp_run(*f, ls, i as int, st.view(), locked@) =~= out@);
    out
}

/// Preprocesses `input` with initial attributes (an entry whose value is
/// `None` sets nothing) and locked attribute names, which attribute entries
/// in the document cannot change. `numeric` gives the numeric key of an
/// `ifeval` operand that reads as a number.
pub fn preprocess_with_attrs<F: Fn(&str) -> Option<NumKey>>(
    input: &str,
    initial_attrs: &[(String, Option<String>)],
    locked_attrs: &[String],
    numeric: &F,
) -> (r: String)
    requires
        key_fn_ok(*numeric),
    ensures
        r@ == preprocess_of(
            *numeric,
            input@,
            initial_map(entries_view(initial_attrs@)),
            name_set(locked_attrs@),
        ),
{
    let attrs = initial_attr_map(initial_attrs);
    let locked = locked_name_set(locked_attrs);
    let all = chars_of(input);
    let s = if all.len() > 0 && all[0] == '\u{feff}' {
        slice_vec(all.as_slice(), 1, all.len())
    } else {
        all
    };
    assert(s@ =~= without_bom(input@));
    let lines = std_lines_chars(s.as_slice());
    let ghost ls = line_views(lines@);
    assert forall|j: int| 0 <= j < ls.len() implies ls[j] == std_lines(s@)[j] by {
        assert(ls[j] == lines@[j]@);
    }
    assert(ls =~= std_lines(s@));
    let mut st = PpExec {
        attrs,
        names: NameSet::new(),
        skip: Vec::new(),
        fence: None,
        pending: false,
        in_para: false,
    };
    assert(st.view() == state(
        initial_map(entries_view(initial_attrs@)),
        Set::empty(),
        Seq::empty(),
        None,
        false,
        false,
    ));
    let mut out = run_lines(&lines, &mut st, &locked, numeric);
    let ghost full = out@;
    let nl = vec!['\n'];
    assert(nl@ == seq!['\n']);
    let ol = out.len();
    let keep_last = crate::text::ends_with_at(s.as_slice(), nl.as_slice());
    if !keep_last && ol > 0 && out[ol - 1] == '\n' {
        out.pop();
        proof {
            assert(full.subrange(ol - 1, ol as int) =~= seq!['\n']);
            assert(out@ =~= full.drop_last());
        }
    } else {
        proof {
            if ol > 0 {
                assert(full.subrange(ol - 1, ol as int)[0] == full[ol - 1]);
            }
        }
    }
    string_of(out.as_slice())
}

/// Preprocesses `input` with no initial or locked attributes.
pub fn preprocess<F: Fn(&str) -> Option<NumKey>>(input: &str, numeric: &F) -> (r: String)
    requires
        key_fn_ok(*numeric),
    ensures
        r@ == preprocess_of(*numeric, input@, Map::empty(), Set::empty()),
{
    let none: Vec<(String, Option<String>)> = Vec::new();
    let no_names: Vec<String> = Vec::new();
    let r = preprocess_with_attrs(input, none.as_slice(), no_names.as_slice(), numeric);
    proof {
        assert(entries_view(none@) =~= Seq::empty());
        assert(initial_map(entries_view(none@)) =~= Map::empty());
        assert(name_set(no_names@) =~= Set::empty());
    }
    r
}

} // verus!
