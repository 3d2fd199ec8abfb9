//! Conditional preprocessor directives: `ifdef::`, `ifndef::`, `ifeval::`
//! and `endif::`, and the evaluation of their conditions.

use vstd::prelude::*;
use crate::attrs::AttrMap;
use crate::text::{
    contains, ends_with, ends_with_at, find, find_at, find_from, find_from_at, lemma_find_from_bounds,
    rfind, rfind_at, slice_vec, split, split_ranges, starts_with, starts_with_at, string_of, trim,
    trim_range,
};

verus! {

// ---------------------------------------------------------------------------
// Numeric operands
// ---------------------------------------------------------------------------

/// The key of an `ifeval` operand that reads as a floating-point number:
/// `Nan` for a NaN, otherwise an integer whose order is the order of the
/// numbers (equal numbers have equal keys).
#[derive(Debug, Clone, Copy, PartialEq, Eq, Structural)]
pub enum NumKey {
    Nan,
    Ordered(i64),
}

/// A function giving each operand its numeric key (or `None` when the
/// operand is not a number) may be called on any text and answers the same
/// for the same text.
pub open spec fn key_fn_ok<F: Fn(&str) -> Option<NumKey>>(f: F) -> bool {
    &&& forall|x: &str| #[trigger] call_requires(f, (x,))
    &&& forall|x: &str, y: &str, a: Option<NumKey>, b: Option<NumKey>|
        x@ == y@ && #[trigger] call_ensures(f, (x,), a) && #[trigger] call_ensures(f, (y,), b)
            ==> a == b
}

pub open spec fn key_produced<F: Fn(&str) -> Option<NumKey>>(
    f: F,
    t: Seq<char>,
    r: Option<NumKey>,
) -> bool {
    exists|x: &str| x@ == t && #[trigger] call_ensures(f, (x,), r)
}

/// The numeric key `f` gives the operand `t`.
pub open spec fn key_of<F: Fn(&str) -> Option<NumKey>>(f: F, t: Seq<char>) -> Option<NumKey> {
    choose|r: Option<NumKey>| key_produced(f, t, r)
}

pub proof fn lemma_key_of<F: Fn(&str) -> Option<NumKey>>(f: F, x: &str, r: Option<NumKey>)
    requires
        key_fn_ok(f),
        call_ensures(f, (x,), r),
    ensures
        key_of(f, x@) == r,
{
    assert(key_produced(f, x@, r));
    let r2 = key_of(f, x@);
    assert(key_produced(f, x@, r2));
    let y = choose|y: &str| y@ == x@ && #[trigger] call_ensures(f, (y,), r2);
}

fn key_for<F: Fn(&str) -> Option<NumKey>>(f: &F, t: &[char]) -> (r: Option<NumKey>)
    requires
        key_fn_ok(*f),
    ensures
        r == key_of(*f, t@),
{
    let s = string_of(t);
    let sr = s.as_str();
    let r = f(sr);
    proof {
        lemma_key_of(*f, sr, r);
    }
    r
}

// ---------------------------------------------------------------------------
// Comparisons
// ---------------------------------------------------------------------------

/// A comparison operator of `ifeval`.
#[derive(Debug, Clone, Copy, PartialEq, Eq, Structural)]
pub enum Relation {
    Equal,
    NotEqual,
    LessOrEqual,
    GreaterOrEqual,
    Less,
    Greater,
}

/// String order: lexicographic by char code (the order of `str`).
pub open spec fn text_less(a: Seq<char>, b: Seq<char>) -> bool
    decreases a.len(),
{
    if a.len() == 0 {
        b.len() > 0
    } else if b.len() == 0 {
        false
    } else if a[0] != b[0] {
        (a[0] as u32) < (b[0] as u32)
    } else {
        text_less(a.skip(1), b.skip(1))
    }
}

pub open spec fn relation_holds_int(rel: Relation, a: int, b: int) -> bool {
    match rel {
        Relation::Equal => a == b,
        Relation::NotEqual => a != b,
        Relation::LessOrEqual => a <= b,
        Relation::GreaterOrEqual => a >= b,
        Relation::Less => a < b,
        Relation::Greater => a > b,
    }
}

pub open spec fn relation_holds_text(rel: Relation, a: Seq<char>, b: Seq<char>) -> bool {
    match rel {
        Relation::Equal => a == b,
        Relation::NotEqual => a != b,
        Relation::LessOrEqual => a == b || text_less(a, b),
        Relation::GreaterOrEqual => a == b || text_less(b, a),
        Relation::Less => text_less(a, b),
        Relation::Greater => text_less(b, a),
    }
}

/// Comparison of two operands: numeric when both have numeric keys (a NaN
/// is unequal to everything and unordered), otherwise as strings.
pub open spec fn compare_holds(
    left: Seq<char>,
    rel: Relation,
    right: Seq<char>,
    kl: Option<NumKey>,
    kr: Option<NumKey>,
) -> bool {
    match (kl, kr) {
        (Some(NumKey::Ordered(a)), Some(NumKey::Ordered(b))) => relation_holds_int(
            rel,
            a as int,
            b as int,
        ),
        (Some(_), Some(_)) => rel == Relation::NotEqual,
        _ => relation_holds_text(rel, left, right),
    }
}

/// Between two operands that both read as ordered numbers, `ifeval`
/// compares their numeric keys: `==` and `!=` by equality, `<` and `>`
/// strictly, `<=` and `>=` inclusively; in particular `x < x` and `x > x`
/// never hold, `<` and `>=` (and `>` and `<=`) are each other's negation, and
/// `a < b` holds exactly when `b > a`.
pub proof fn law_numeric_relations(left: Seq<char>, right: Seq<char>, a: i64, b: i64)
    ensures
        ({
            let kl = Some(NumKey::Ordered(a));
            let kr = Some(NumKey::Ordered(b));
            &&& compare_holds(left, Relation::Equal, right, kl, kr) <==> a == b
            &&& compare_holds(left, Relation::NotEqual, right, kl, kr) <==> a != b
            &&& compare_holds(left, Relation::Less, right, kl, kr) <==> a < b
            &&& compare_holds(left, Relation::LessOrEqual, right, kl, kr) <==> a <= b
            &&& compare_holds(left, Relation::Greater, right, kl, kr) <==> a > b
            &&& compare_holds(left, Relation::GreaterOrEqual, right, kl, kr) <==> a >= b
            &&& compare_holds(left, Relation::Less, right, kl, kr) <==> !compare_holds(
                left,
                Relation::GreaterOrEqual,
                right,
                kl,
                kr,
            )
            &&& compare_holds(left, Relation::Greater, right, kl, kr) <==> !compare_holds(
                left,
                Relation::LessOrEqual,
                right,
                kl,
                kr,
            )
            &&& compare_holds(left, Relation::Less, right, kl, kr) <==> compare_holds(
                right,
                Relation::Greater,
                left,
                kr,
                kl,
            )
        }),
        !compare_holds(left, Relation::Less, left, Some(NumKey::Ordered(a)), Some(NumKey::Ordered(a))),
        !compare_holds(left, Relation::Greater, left, Some(NumKey::Ordered(a)), Some(NumKey::Ordered(a))),
        compare_holds(left, Relation::LessOrEqual, left, Some(NumKey::Ordered(a)), Some(NumKey::Ordered(a))),
        compare_holds(left, Relation::GreaterOrEqual, left, Some(NumKey::Ordered(a)), Some(NumKey::Ordered(a))),
{
}

proof fn lemma_text_order(a: Seq<char>, b: Seq<char>)
    ensures
        !text_less(a, a),
        a == b || text_less(a, b) || text_less(b, a),
        !(text_less(a, b) && text_less(b, a)),
    decreases a.len(),
{
    if a.len() > 0 {
        lemma_text_order(a.skip(1), a.skip(1));
        if b.len() > 0 {
            lemma_text_order(a.skip(1), b.skip(1));
            if a[0] == b[0] && a.skip(1) == b.skip(1) {
                assert(a =~= seq![a[0]] + a.skip(1));
                assert(b =~= seq![b[0]] + b.skip(1));
            }
            if a[0] != b[0] {
                vstd::utf8::char_u32_cast(a[0], a[0] as u32);
                vstd::utf8::char_u32_cast(b[0], b[0] as u32);
            }
        }
    } else if b.len() == 0 {
        assert(a =~= b);
    }
}

/// Between operands that are not both numbers, `ifeval` compares the texts
/// in string order: `==` is equality of the texts, exactly one of `<`, `==`
/// and `>` holds, `x < x` never holds, `<=` is `<` or `==`, and `a < b`
/// holds exactly when `b > a`.
pub proof fn law_text_relations(left: Seq<char>, right: Seq<char>)
    ensures
        compare_holds(left, Relation::Equal, right, None, None) <==> left == right,
        compare_holds(left, Relation::NotEqual, right, None, None) <==> left != right,
        !compare_holds(left, Relation::Less, left, None, None),
        !compare_holds(left, Relation::Greater, left, None, None),
        compare_holds(left, Relation::Less, right, None, None) || left == right || compare_holds(
            left,
            Relation::Greater,
            right,
            None,
            None,
        ),
        !(compare_holds(left, Relation::Less, right, None, None) && compare_holds(
            left,
            Relation::Greater,
            right,
            None,
            None,
        )),
        compare_holds(left, Relation::LessOrEqual, right, None, None) <==> (compare_holds(
            left,
            Relation::Less,
            right,
            None,
            None,
        ) || left == right),
        compare_holds(left, Relation::GreaterOrEqual, right, None, None) <==> (compare_holds(
            left,
            Relation::Greater,
            right,
            None,
            None,
        ) || left == right),
        compare_holds(left, Relation::Less, right, None, None) <==> compare_holds(
            right,
            Relation::Greater,
            left,
            None,
            None,
        ),
{
    lemma_text_order(left, right);
    lemma_text_order(right, left);
}

fn text_less_exec(a: &[char], b: &[char]) -> (r: bool)
    ensures
        r == text_less(a@, b@),
{
    let na = a.len();
    let nb = b.len();
    let mut k: usize = 0;
    assert(a@.skip(0) =~= a@ && b@.skip(0) =~= b@);
    while k < na && k < nb && a[k] == b[k]
        invariant
            na == a@.len(),
            nb == b@.len(),
            k <= na,
            k <= nb,
            text_less(a@, b@) == text_less(a@.skip(k as int), b@.skip(k as int)),
        decreases na - k,
    {
        assert(a@.skip(k as int).skip(1) =~= a@.skip(k + 1));
        assert(b@.skip(k as int).skip(1) =~= b@.skip(k + 1));
        k += 1;
    }
    assert(k < na ==> a@.skip(k as int)[0] == a@[k as int]);
    assert(k < nb ==> b@.skip(k as int)[0] == b@[k as int]);
    if k == na {
        k < nb
    } else if k == nb {
        false
    } else {
        (a[k] as u32) < (b[k] as u32)
    }
}

fn same_text(a: &[char], b: &[char]) -> (r: bool)
    ensures
        r == (a@ == b@),
{
    crate::attrs::same_chars(a, b)
}

/// Compares `left` and `right` with `rel`.
pub fn compare(
    left: &[char],
    rel: Relation,
    right: &[char],
    kl: Option<NumKey>,
    kr: Option<NumKey>,
) -> (r: bool)
    ensures
        r == compare_holds(left@, rel, right@, kl, kr),
{
    match (kl, kr) {
        (Some(NumKey::Ordered(a)), Some(NumKey::Ordered(b))) => match rel {
            Relation::Equal => a == b,
            Relation::NotEqual => a != b,
            Relation::LessOrEqual => a <= b,
            Relation::GreaterOrEqual => a >= b,
            Relation::Less => a < b,
            Relation::Greater => a > b,
        },
        (Some(_), Some(_)) => match rel {
            Relation::NotEqual => true,
            _ => false,
        },
        _ => {
            let eq = same_text(left, right);
            match rel {
                Relation::Equal => eq,
                Relation::NotEqual => !eq,
                Relation::LessOrEqual => eq || text_less_exec(left, right),
                Relation::GreaterOrEqual => eq || text_less_exec(right, left),
                Relation::Less => text_less_exec(left, right),
                Relation::Greater => text_less_exec(right, left),
            }
        },
    }
}

// ---------------------------------------------------------------------------
// ifeval expressions
// ---------------------------------------------------------------------------

pub open spec fn relation_text(rel: Relation) -> Seq<char> {
    match rel {
        Relation::Equal => seq!['=', '='],
        Relation::NotEqual => seq!['!', '='],
        Relation::LessOrEqual => seq!['<', '='],
        Relation::GreaterOrEqual => seq!['>', '='],
        Relation::Less => seq!['<'],
        Relation::Greater => seq!['>'],
    }
}

/// The operator of a comparison and where it stands: the first of `==`,
/// `!=`, `<=`, `>=`, `<`, `>` (in that order) that occurs at all.
pub open spec fn relation_in(t: Seq<char>) -> Option<(Relation, int)> {
    if find(t, relation_text(Relation::Equal)) is Some {
        Some((Relation::Equal, find(t, relation_text(Relation::Equal))->0))
    } else if find(t, relation_text(Relation::NotEqual)) is Some {
        Some((Relation::NotEqual, find(t, relation_text(Relation::NotEqual))->0))
    } else if find(t, relation_text(Relation::LessOrEqual)) is Some {
        Some((Relation::LessOrEqual, find(t, relation_text(Relation::LessOrEqual))->0))
    } else if find(t, relation_text(Relation::GreaterOrEqual)) is Some {
        Some((Relation::GreaterOrEqual, find(t, relation_text(Relation::GreaterOrEqual))->0))
    } else if find(t, relation_text(Relation::Less)) is Some {
        Some((Relation::Less, find(t, relation_text(Relation::Less))->0))
    } else if find(t, relation_text(Relation::Greater)) is Some {
        Some((Relation::Greater, find(t, relation_text(Relation::Greater))->0))
    } else {
        None
    }
}

/// An operand: trimmed, and without one pair of matching surrounding
/// double or single quotes.
pub open spec fn operand_of(s: Seq<char>) -> Seq<char> {
    let t = trim(s);
    if t.len() >= 2 && ((t[0] == '"' && t.last() == '"') || (t[0] == '\'' && t.last() == '\'')) {
        t.subrange(1, t.len() - 1)
    } else {
        t
    }
}

/// Whether one comparison `left OP right` holds.
pub open spec fn comparison_holds<F: Fn(&str) -> Option<NumKey>>(f: F, t: Seq<char>) -> bool {
    match relation_in(t) {
        Some((rel, pos)) => {
            let l = operand_of(t.take(pos));
            let r = operand_of(t.skip(pos + relation_text(rel).len()));
            compare_holds(l, rel, r, key_of(f, l), key_of(f, r))
        },
        None => false,
    }
}

/// `{name}` references replaced by the attribute's value (or nothing when
/// it is unset), from index `i` on; a `{` without a closing `}` stays, with
/// the rest of the text.
pub open spec fn substituted_from(s: Seq<char>, i: int, m: Map<Seq<char>, Seq<char>>) -> Seq<char>
    decreases s.len() - i,
{
    if i < 0 || i >= s.len() {
        Seq::empty()
    } else if s[i] == '{' {
        match find_from(s, seq!['}'], i + 1) {
            Some(c) => {
                proof {
                    lemma_find_from_bounds(s, seq!['}'], i + 1);
                }
                let name = s.subrange(i + 1, c);
                (if m.contains_key(name) {
                    m[name]
                } else {
                    Seq::empty()
                }) + substituted_from(s, c + 1, m)
            },
            None => s.skip(i),
        }
    } else {
        seq![s[i]] + substituted_from(s, i + 1, m)
    }
}

pub open spec fn lit_or() -> Seq<char> {
    seq!['|', '|']
}

pub open spec fn lit_and() -> Seq<char> {
    seq!['&', '&']
}

/// Every `&&`-separated comparison of `part` holds.
pub open spec fn all_comparisons_hold<F: Fn(&str) -> Option<NumKey>>(f: F, part: Seq<char>) -> bool {
    let ts = split(part, lit_and());
    forall|b: int| 0 <= b < ts.len() ==> comparison_holds(f, trim(#[trigger] ts[b]))
}

/// `ifeval` condition: after attribute substitution, some `||`-separated
/// group of `&&`-separated comparisons holds throughout.
pub open spec fn ifeval_holds<F: Fn(&str) -> Option<NumKey>>(
    f: F,
    expr: Seq<char>,
    m: Map<Seq<char>, Seq<char>>,
) -> bool {
    let ps = split(substituted_from(expr, 0, m), lit_or());
    exists|a: int| 0 <= a < ps.len() && all_comparisons_hold(f, #[trigger] ps[a])
}

/// Substitutes `{name}` references in `input`.
pub fn substitute_attributes(input: &[char], m: &AttrMap) -> (r: Vec<char>)
    requires
        m.wf(),
    ensures
        r@ == substituted_from(input@, 0, m@),
{
    let n = input.len();
    let cb = vec!['}'];
    assert(cb@ == seq!['}']);
    let mut out: Vec<char> = Vec::new();
    let mut i: usize = 0;
    assert(out@ + substituted_from(input@, 0, m@) =~= substituted_from(input@, 0, m@));
    while i < n
        invariant
            n == input@.len(),
            i <= n,
            m.wf(),
            cb@ == seq!['}'],
            out@ + substituted_from(input@, i as int, m@) == substituted_from(input@, 0, m@),
        decreases n - i,
    {
        let ghost before = out@;
        if input[i] == '{' {
            match find_from_at(input, cb.as_slice(), i + 1) {
                Some(c) => {
                    let name = slice_vec(input, i + 1, c);
                    match m.get_chars(name.as_slice()) {
                        Some(v) => {
                            crate::text::push_all(&mut out, v.as_slice());
                        },
                        None => {},
                    }
                    proof {
                        lemma_find_from_bounds(input@, seq!['}'], i + 1);
                        assert(out@ + substituted_from(input@, c + 1, m@) =~= before
                            + substituted_from(input@, i as int, m@));
                    }
                    i = c + 1;
                },
                None => {
                    let rest = slice_vec(input, i, n);
                    crate::text::push_all(&mut out, rest.as_slice());
                    proof {
                        assert(input@.subrange(i as int, n as int) =~= input@.skip(i as int));
                        assert(out@ + substituted_from(input@, n as int, m@) =~= before
                            + substituted_from(input@, i as int, m@));
                    }
                    i = n;
                },
            }
        } else {
            out.push(input[i]);
            proof {
                assert(out@ + substituted_from(input@, i + 1, m@) =~= before + substituted_from(
                    input@,
                    i as int,
                    m@,
                ));
            }
            i += 1;
        }
    }
    assert(out@ + substituted_from(input@, n as int, m@) =~= out@);
    out
}

/// The operand text of `s`.
pub fn extract_operand(s: &[char]) -> (r: Vec<char>)
    ensures
        r@ == operand_of(s@),
{
    let n = s.len();
    let (a, b) = trim_range(s, 0, n);
    assert(s@.subrange(0, n as int) =~= s@);
    let t = slice_vec(s, a, b);
    let tl = t.len();
    if tl >= 2 && ((t[0] == '"' && t[tl - 1] == '"') || (t[0] == '\'' && t[tl - 1] == '\'')) {
        slice_vec(t.as_slice(), 1, tl - 1)
    } else {
        t
    }
}

fn relation_chars(rel: Relation) -> (r: Vec<char>)
    ensures
        r@ == relation_text(rel),
{
    let r = match rel {
        Relation::Equal => vec!['=', '='],
        Relation::NotEqual => vec!['!', '='],
        Relation::LessOrEqual => vec!['<', '='],
        Relation::GreaterOrEqual => vec!['>', '='],
        Relation::Less => vec!['<'],
        Relation::Greater => vec!['>'],
    };
    assert(r@ =~= relation_text(rel));
    r
}

/// The first operator of the list that occurs in `t`, with its position.
fn find_relation(t: &[char]) -> (r: Option<(Relation, usize)>)
    ensures
        match r {
            Some((rel, pos)) => relation_in(t@) == Some((rel, pos as int)) && pos
                + relation_text(rel).len() <= t@.len(),
            None => relation_in(t@) is None,
        },
{
    let order = vec![
        Relation::Equal,
        Relation::NotEqual,
        Relation::LessOrEqual,
        Relation::GreaterOrEqual,
        Relation::Less,
        Relation::Greater,
    ];
    assert(order@ == seq![
        Relation::Equal,
        Relation::NotEqual,
        Relation::LessOrEqual,
        Relation::GreaterOrEqual,
        Relation::Less,
        Relation::Greater,
    ]);
    let mut k: usize = 0;
    while k < order.len()
        invariant
            order@ == seq![
                Relation::Equal,
                Relation::NotEqual,
                Relation::LessOrEqual,
                Relation::GreaterOrEqual,
                Relation::Less,
                Relation::Greater,
            ],
            k <= 6,
            forall|j: int| 0 <= j < k ==> find(t@, relation_text(#[trigger] order@[j])) is None,
        decreases 6 - k,
    {
        let rel = order[k];
        let p = relation_chars(rel);
        if let Some(pos) = find_at(t, p.as_slice()) {
            return Some((rel, pos));
        }
        k += 1;
    }
    None
}

/// Whether the comparison `t` holds.
pub fn evaluate_single_comparison<F: Fn(&str) -> Option<NumKey>>(t: &[char], f: &F) -> (r: bool)
    requires
        key_fn_ok(*f),
    ensures
        r == comparison_holds(*f, t@),
{
    match find_relation(t) {
        Some((rel, pos)) => {
            let n = t.len();
            let lt = slice_vec(t, 0, pos);
            assert(lt@ =~= t@.take(pos as int));
            let p = relation_chars(rel);
            let rt = slice_vec(t, pos + p.len(), n);
            assert(rt@ =~= t@.skip(pos + relation_text(rel).len()));
            let l = extract_operand(lt.as_slice());
            let r = extract_operand(rt.as_slice());
            let kl = key_for(f, l.as_slice());
            let kr = key_for(f, r.as_slice());
            compare(l.as_slice(), rel, r.as_slice(), kl, kr)
        },
        None => false,
    }
}

fn all_comparisons<F: Fn(&str) -> Option<NumKey>>(part: &[char], f: &F) -> (r: bool)
    requires
        key_fn_ok(*f),
    ensures
        r == all_comparisons_hold(*f, part@),
{
    let and = vec!['&', '&'];
    assert(and@ == lit_and());
    let ranges = split_ranges(part, and.as_slice());
    let ghost ts = split(part@, lit_and());
    let mut k: usize = 0;
    while k < ranges.len()
        invariant
            key_fn_ok(*f),
            ts == split(part@, lit_and()),
            ranges@.len() == ts.len(),
            forall|j: int|
                0 <= j < ranges@.len() ==> {
                    &&& (#[trigger] ranges@[j]).0 <= ranges@[j].1 <= part@.len()
                    &&& part@.subrange(ranges@[j].0 as int, ranges@[j].1 as int) == ts[j]
                },
            k <= ranges@.len(),
            forall|j: int| 0 <= j < k ==> comparison_holds(*f, trim(#[trigger] ts[j])),
        decreases ranges@.len() - k,
    {
        let (a, b) = ranges[k];
        let (ta, tb) = trim_range(part, a, b);
        let term = slice_vec(part, ta, tb);
        if !evaluate_single_comparison(term.as_slice(), f) {
            return false;
        }
        k += 1;
    }
    true
}

/// Whether the `ifeval` expression `expr` holds.
pub fn evaluate_ifeval<F: Fn(&str) -> Option<NumKey>>(expr: &[char], m: &AttrMap, f: &F) -> (r: bool)
    requires
        m.wf(),
        key_fn_ok(*f),
    ensures
        r == ifeval_holds(*f, expr@, m@),
{
    let s = substitute_attributes(expr, m);
    let or = vec!['|', '|'];
    assert(or@ == lit_or());
    let ranges = split_ranges(s.as_slice(), or.as_slice());
    let ghost ps = split(s@, lit_or());
    let mut k: usize = 0;
    while k < ranges.len()
        invariant
            key_fn_ok(*f),
            s@ == substituted_from(expr@, 0, m@),
            ps == split(s@, lit_or()),
            ranges@.len() == ps.len(),
            forall|j: int|
                0 <= j < ranges@.len() ==> {
                    &&& (#[trigger] ranges@[j]).0 <= ranges@[j].1 <= s@.len()
                    &&& s@.subrange(ranges@[j].0 as int, ranges@[j].1 as int) == ps[j]
                },
            k <= ranges@.len(),
            forall|j: int| 0 <= j < k ==> !all_comparisons_hold(*f, #[trigger] ps[j]),
        decreases ranges@.len() - k,
    {
        let (a, b) = ranges[k];
        let part = slice_vec(s.as_slice(), a, b);
        assert(part@ == ps[k as int]);
        if all_comparisons(part.as_slice(), f) {
            assert(all_comparisons_hold(*f, ps[k as int]));
            assert(ifeval_holds(*f, expr@, m@));
            return true;
        }
        k += 1;
    }
    assert(!exists|a: int| 0 <= a < ps.len() && all_comparisons_hold(*f, #[trigger] ps[a]));
    assert(!ifeval_holds(*f, expr@, m@));
    false
}

// ---------------------------------------------------------------------------
// ifdef / ifndef
// ---------------------------------------------------------------------------

/// `ifdef`/`ifndef` condition: with a `,` any listed attribute is set, else
/// with a `+` all are set, else the one attribute is set (names trimmed).
pub open spec fn condition_holds(e: Seq<char>, m: Map<Seq<char>, Seq<char>>) -> bool {
    if contains(e, seq![',']) {
        let ps = split(e, seq![',']);
        exists|k: int| 0 <= k < ps.len() && m.contains_key(trim(#[trigger] ps[k]))
    } else if contains(e, seq!['+']) {
        let ps = split(e, seq!['+']);
        forall|k: int| 0 <= k < ps.len() ==> m.contains_key(trim(#[trigger] ps[k]))
    } else {
        m.contains_key(trim(e))
    }
}

fn any_or_all_set(e: &[char], sep: char, any: bool, m: &AttrMap) -> (r: bool)
    requires
        m.wf(),
    ensures
        any ==> (r == exists|k: int|
            0 <= k < split(e@, seq![sep]).len() && m@.contains_key(
                trim(#[trigger] split(e@, seq![sep])[k]),
            )),
        !any ==> (r == forall|k: int|
            0 <= k < split(e@, seq![sep]).len() ==> m@.contains_key(
                trim(#[trigger] split(e@, seq![sep])[k]),
            )),
{
    let p = vec![sep];
    assert(p@ == seq![sep]);
    let ranges = split_ranges(e, p.as_slice());
    let ghost ps = split(e@, seq![sep]);
    let mut k: usize = 0;
    while k < ranges.len()
        invariant
            m.wf(),
            ps == split(e@, seq![sep]),
            ranges@.len() == ps.len(),
            forall|j: int|
                0 <= j < ranges@.len() ==> {
                    &&& (#[trigger] ranges@[j]).0 <= ranges@[j].1 <= e@.len()
                    &&& e@.subrange(ranges@[j].0 as int, ranges@[j].1 as int) == ps[j]
                },
            k <= ranges@.len(),
            forall|j: int| 0 <= j < k ==> m@.contains_key(trim(#[trigger] ps[j])) != any,
        decreases ranges@.len() - k,
    {
        let (a, b) = ranges[k];
        let (ta, tb) = trim_range(e, a, b);
        let name = slice_vec(e, ta, tb);
        if m.contains_chars(name.as_slice()) == any {
            return any;
        }
        k += 1;
    }
    !any
}

/// Whether the `ifdef` condition `e` holds.
pub fn evaluate_condition(e: &[char], m: &AttrMap) -> (r: bool)
    requires
        m.wf(),
    ensures
        r == condition_holds(e@, m@),
{
    let comma = vec![','];
    assert(comma@ == seq![',']);
    let plus = vec!['+'];
    assert(plus@ == seq!['+']);
    if find_at(e, comma.as_slice()).is_some() {
        any_or_all_set(e, ',', true, m)
    } else if find_at(e, plus.as_slice()).is_some() {
        any_or_all_set(e, '+', false, m)
    } else {
        let n = e.len();
        let (ta, tb) = trim_range(e, 0, n);
        assert(e@.subrange(0, n as int) =~= e@);
        let name = slice_vec(e, ta, tb);
        m.contains_chars(name.as_slice())
    }
}

// ---------------------------------------------------------------------------
// Directive lines
// ---------------------------------------------------------------------------

#[derive(Debug, Clone, Copy, PartialEq, Eq, Structural)]
pub enum ConditionalKind {
    Ifdef,
    Ifndef,
    Ifeval,
}

pub open spec fn lit_ifdef() -> Seq<char> {
    seq!['i', 'f', 'd', 'e', 'f', ':', ':']
}

pub open spec fn lit_ifndef() -> Seq<char> {
    seq!['i', 'f', 'n', 'd', 'e', 'f', ':', ':']
}

pub open spec fn lit_ifeval() -> Seq<char> {
    seq!['i', 'f', 'e', 'v', 'a', 'l', ':', ':']
}

pub open spec fn lit_endif() -> Seq<char> {
    seq!['e', 'n', 'd', 'i', 'f', ':', ':']
}

/// Starts with one of the directive keywords `ifdef::`, `ifndef::`,
/// `ifeval::`, `endif::`.
pub open spec fn directive_start(s: Seq<char>) -> bool {
    starts_with(s, lit_ifdef()) || starts_with(s, lit_ifndef()) || starts_with(s, lit_ifeval())
        || starts_with(s, lit_endif())
}

pub fn starts_with_conditional_directive(s: &[char]) -> (r: bool)
    ensures
        r == directive_start(s@),
{
    let a = vec!['i', 'f', 'd', 'e', 'f', ':', ':'];
    assert(a@ == lit_ifdef());
    let b = vec!['i', 'f', 'n', 'd', 'e', 'f', ':', ':'];
    assert(b@ == lit_ifndef());
    let c = vec!['i', 'f', 'e', 'v', 'a', 'l', ':', ':'];
    assert(c@ == lit_ifeval());
    let d = vec!['e', 'n', 'd', 'i', 'f', ':', ':'];
    assert(d@ == lit_endif());
    starts_with_at(s, a.as_slice()) || starts_with_at(s, b.as_slice()) || starts_with_at(
        s,
        c.as_slice(),
    ) || starts_with_at(s, d.as_slice())
}

/// `ifdef::`/`ifndef::` body `rest`: the condition before the first `[`
/// and, when the text between it and the last `]` is not empty, the inline
/// content.
pub open spec fn ifdef_body_of(rest: Seq<char>) -> Option<(Seq<char>, Option<Seq<char>>)> {
    match (find(rest, seq!['[']), rfind(rest, seq![']'])) {
        (Some(bs), Some(be)) => if be <= bs {
            None
        } else {
            let content = rest.subrange(bs + 1, be);
            Some((rest.take(bs), if content.len() == 0 { None } else { Some(content) }))
        },
        _ => None,
    }
}

/// A conditional directive line: kind, condition text, inline content.
pub open spec fn conditional_of(line: Seq<char>) -> Option<
    (ConditionalKind, Seq<char>, Option<Seq<char>>),
> {
    if starts_with(line, lit_ifdef()) {
        match ifdef_body_of(line.skip(7)) {
            Some((a, c)) => Some((ConditionalKind::Ifdef, a, c)),
            None => None,
        }
    } else if starts_with(line, lit_ifndef()) {
        match ifdef_body_of(line.skip(8)) {
            Some((a, c)) => Some((ConditionalKind::Ifndef, a, c)),
            None => None,
        }
    } else if starts_with(line, lit_ifeval() + seq!['[']) {
        let rest = line.skip(9);
        if ends_with(rest, seq![']']) {
            Some((ConditionalKind::Ifeval, rest.drop_last(), None))
        } else {
            None
        }
    } else {
        None
    }
}

/// A parsed conditional directive.
pub struct Conditional {
    pub kind: ConditionalKind,
    pub attrs: Vec<char>,
    pub inline_content: Option<Vec<char>>,
}

pub open spec fn conditional_view(c: Option<Conditional>) -> Option<
    (ConditionalKind, Seq<char>, Option<Seq<char>>),
> {
    match c {
        Some(c) => Some(
            (
                c.kind,
                c.attrs@,
                match c.inline_content {
                    Some(t) => Some(t@),
                    None => None,
                },
            ),
        ),
        None => None,
    }
}

fn parse_ifdef_ifndef(kind: ConditionalKind, rest: &[char]) -> (r: Option<Conditional>)
    ensures
        conditional_view(r) == match ifdef_body_of(rest@) {
            Some((a, c)) => Some((kind, a, c)),
            None => None,
        },
{
    let ob = vec!['['];
    assert(ob@ == seq!['[']);
    let cb = vec![']'];
    assert(cb@ == seq![']']);
    let bs = match find_at(rest, ob.as_slice()) {
        Some(k) => k,
        None => return None,
    };
    let be = match rfind_at(rest, cb.as_slice()) {
        Some(k) => k,
        None => return None,
    };
    if be <= bs {
        return None;
    }
    let attrs = slice_vec(rest, 0, bs);
    assert(attrs@ =~= rest@.take(bs as int));
    let content = slice_vec(rest, bs + 1, be);
    if content.len() == 0 {
        Some(Conditional { kind, attrs, inline_content: None })
    } else {
        Some(Conditional { kind, attrs, inline_content: Some(content) })
    }
}

/// Parses a conditional directive line.
pub fn parse_conditional(line: &[char]) -> (r: Option<Conditional>)
    ensures
        conditional_view(r) == conditional_of(line@),
{
    let n = line.len();
    let a = vec!['i', 'f', 'd', 'e', 'f', ':', ':'];
    assert(a@ == lit_ifdef());
    let b = vec!['i', 'f', 'n', 'd', 'e', 'f', ':', ':'];
    assert(b@ == lit_ifndef());
    let c = vec!['i', 'f', 'e', 'v', 'a', 'l', ':', ':', '['];
    assert(c@ == lit_ifeval() + seq!['[']);
    if starts_with_at(line, a.as_slice()) {
        let rest = slice_vec(line, 7, n);
        assert(rest@ =~= line@.skip(7));
        return parse_ifdef_ifndef(ConditionalKind::Ifdef, rest.as_slice());
    }
    if starts_with_at(line, b.as_slice()) {
        let rest = slice_vec(line, 8, n);
        assert(rest@ =~= line@.skip(8));
        return parse_ifdef_ifndef(ConditionalKind::Ifndef, rest.as_slice());
    }
    if starts_with_at(line, c.as_slice()) {
        let rest = slice_vec(line, 9, n);
        assert(rest@ =~= line@.skip(9));
        let cb = vec![']'];
        assert(cb@ == seq![']']);
        if ends_with_at(rest.as_slice(), cb.as_slice()) {
            let expr = slice_vec(rest.as_slice(), 0, rest.len() - 1);
            assert(expr@ =~= rest@.drop_last());
            return Some(Conditional { kind: ConditionalKind::Ifeval, attrs: expr, inline_content: None });
        }
        return None;
    }
    None
}

} // verus!
