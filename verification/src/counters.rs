//! Counter attributes: `{counter:name}`, `{counter:name:seed}`,
//! `{counter2:…}` (silent), and bare `{name}` references to counters
//! already defined, expanded in document order.

use vstd::prelude::*;
use crate::attrs::{AttrMap, NameSet};
use crate::pass::{
    lemma_pass_macro_bounds, pass_macro_at, pass_macro_of, passthrough_at, passthrough_of,
    single_plus_at, single_plus_of,
};
use crate::text::{
    all_digits, chars_of, contains, digits_value, find, find_at, is_alnum, is_alpha, is_digit,
    is_lower, is_upper, lemma_find_from_bounds, parse_int, parse_uint, parse_uint_range, push_all,
    slice_vec, starts_with, starts_with_at, string_of,
};

verus! {

// ---------------------------------------------------------------------------
// Integers as text
// ---------------------------------------------------------------------------

pub open spec fn digit_char(d: int) -> char {
    ((d + 48) as u32) as char
}

/// Decimal digits of `n`, without leading zeros (`0` for zero).
pub open spec fn nat_text(n: nat) -> Seq<char>
    decreases n,
{
    if n < 10 {
        seq![digit_char(n as int)]
    } else {
        nat_text(n / 10).push(digit_char((n % 10) as int))
    }
}

/// Decimal text of `n`, with a leading `-` when negative.
pub open spec fn int_text(n: int) -> Seq<char> {
    if n < 0 {
        seq!['-'] + nat_text((-n) as nat)
    } else {
        nat_text(n as nat)
    }
}

pub fn nat_chars(n: u64) -> (r: Vec<char>)
    ensures
        r@ == nat_text(n as nat),
    decreases n,
{
    let d = (n % 10) as u32 + 48;
    let c = crate::text::char_from_ascii(d);
    if n < 10 {
        let r = vec![c];
        assert(r@ =~= seq![c]);
        r
    } else {
        let mut r = nat_chars(n / 10);
        r.push(c);
        r
    }
}

/// Decimal text of `n`.
pub fn int_chars(n: i64) -> (r: Vec<char>)
    ensures
        r@ == int_text(n as int),
{
    if n < 0 {
        let mag: u64 = ((-(n + 1)) as u64) + 1;
        let digits = nat_chars(mag);
        let mut r = vec!['-'];
        push_all(&mut r, digits.as_slice());
        assert(r@ =~= seq!['-'] + nat_text((-n) as nat));
        r
    } else {
        nat_chars(n as u64)
    }
}

pub open spec fn i64_opt(r: Option<i64>) -> Option<int> {
    match r {
        Some(v) => Some(v as int),
        None => None,
    }
}

/// `str::parse::<i64>`.
pub fn parse_i64(s: &[char]) -> (r: Option<i64>)
    ensures
        i64_opt(r) == parse_int(s@, i64::MAX as int),
{
    let n = s.len();
    if n > 0 && s[0] == '-' {
        let ghost d = s@.skip(1);
        assert(s@.subrange(1, n as int) =~= d);
        if n > 1 && s[1] == '+' {
            assert(!is_digit(d[0]));
            return None;
        }
        let lim: u64 = 9223372036854775808;
        match parse_uint_range(s, 1, n, lim) {
            Some(v) => {
                assert(parse_uint(d, lim as int) == Some(v as int));
                if v == lim {
                    Some(i64::MIN)
                } else {
                    Some(-(v as i64))
                }
            },
            None => None,
        }
    } else {
        assert(s@.subrange(0, n as int) =~= s@);
        match parse_uint_range(s, 0, n, 9223372036854775807) {
            Some(v) => Some(v as i64),
            None => None,
        }
    }
}

// ---------------------------------------------------------------------------
// Counter values
// ---------------------------------------------------------------------------

/// First value of a counter from its seed: a single ASCII letter or an
/// integer stays as given; anything else starts at `1`.
pub open spec fn seed_value(seed: Seq<char>) -> Seq<char> {
    if seed.len() == 1 && is_alpha(seed[0]) {
        seed
    } else if parse_int(seed, i64::MAX as int) is Some {
        seed
    } else {
        seq!['1']
    }
}

/// The successor of an `i64` value; `i64::MAX` wraps to `i64::MIN`, as the
/// addition does in an optimized build.
pub open spec fn next_int(n: int) -> int {
    if n == i64::MAX as int {
        i64::MIN as int
    } else {
        n + 1
    }
}

/// Next value of a counter: a letter steps to the next letter of its case
/// and stays at `Z`/`z`; an integer is incremented; anything else becomes `1`.
pub open spec fn next_value(cur: Seq<char>) -> Seq<char> {
    if cur.len() == 1 && is_upper(cur[0]) {
        if cur[0] != 'Z' {
            seq![((cur[0] as u32) + 1) as char]
        } else {
            seq!['Z']
        }
    } else if cur.len() == 1 && is_lower(cur[0]) {
        if cur[0] != 'z' {
            seq![((cur[0] as u32) + 1) as char]
        } else {
            seq!['z']
        }
    } else {
        match parse_int(cur, i64::MAX as int) {
            Some(n) => int_text(next_int(n)),
            None => seq!['1'],
        }
    }
}

proof fn lemma_nat_text_digits(n: nat)
    ensures
        nat_text(n).len() > 0,
        all_digits(nat_text(n)),
        nat_text(n)[0] != '-' && nat_text(n)[0] != '+',
        digits_value(nat_text(n)) == n,
    decreases n,
{
    let t = nat_text(n);
    if n < 10 {
        assert(t.drop_last() =~= Seq::<char>::empty());
        assert(digits_value(Seq::<char>::empty()) == 0);
        assert(crate::text::is_digit(t[0]));
    } else {
        lemma_nat_text_digits(n / 10);
        let d = (n % 10) as int;
        assert(t.drop_last() =~= nat_text(n / 10));
        assert(t.last() == digit_char(d));
        assert(forall|k: int| 0 <= k < t.len() - 1 ==> t[k] == nat_text(n / 10)[k]);
        assert(crate::text::is_digit(t.last()));
        assert(all_digits(t));
        assert(t[0] == nat_text(n / 10)[0]);
        assert((n / 10) * 10 + n % 10 == n) by (nonlinear_arith);
    }
}

/// Reading back the decimal text of an `i64` gives the number.
pub proof fn lemma_int_text_parses(n: int)
    requires
        i64::MIN <= n <= i64::MAX,
    ensures
        parse_int(int_text(n), i64::MAX as int) == Some(n),
{
    if n < 0 {
        lemma_nat_text_digits((-n) as nat);
        assert((seq!['-'] + nat_text((-n) as nat)).skip(1) =~= nat_text((-n) as nat));
    } else {
        lemma_nat_text_digits(n as nat);
    }
}

/// Stepping a counter: an integer value goes to the next integer (the
/// largest wraps to the smallest), a letter other than `z` or `Z` to the
/// next letter of its case, while `z` and `Z` stay; any other value
/// restarts at `1`.
pub proof fn law_counter_steps(n: int, c: char)
    requires
        i64::MIN <= n <= i64::MAX,
    ensures
        n < i64::MAX ==> next_value(int_text(n)) == int_text(n + 1),
        n == i64::MAX ==> next_value(int_text(n)) == int_text(i64::MIN as int),
        ('a' <= c < 'z' || 'A' <= c < 'Z') ==> next_value(seq![c]) == seq![((c as u32) + 1) as char],
        (c == 'z' || c == 'Z') ==> next_value(seq![c]) == seq![c],
        next_value(Seq::<char>::empty()) == seq!['1'],
{
    lemma_int_text_parses(n);
    lemma_nat_text_digits(if n < 0 { (-n) as nat } else { n as nat });
    let t = int_text(n);
    if t.len() == 1 {
        assert(t == nat_text(n as nat) || t[0] == '-');
        assert(crate::text::is_digit(t[0]));
        assert(!crate::text::is_upper(t[0]) && !crate::text::is_lower(t[0]));
    }
    assert(parse_int(Seq::<char>::empty(), i64::MAX as int) is None);
}

/// The initial value of a counter from `seed`.
pub fn initialize_from_seed(seed: &str) -> (r: String)
    ensures
        r@ == seed_value(seed@),
{
    let s = chars_of(seed);
    if s.len() == 1 && (('a' <= s[0] && s[0] <= 'z') || ('A' <= s[0] && s[0] <= 'Z')) {
        return string_of(s.as_slice());
    }
    if parse_i64(s.as_slice()).is_some() {
        return string_of(s.as_slice());
    }
    let one = vec!['1'];
    assert(one@ == seq!['1']);
    string_of(one.as_slice())
}

fn next_value_chars(cur: &[char]) -> (r: Vec<char>)
    ensures
        r@ == next_value(cur@),
{
    if cur.len() == 1 {
        let ch = cur[0];
        if 'A' <= ch && ch <= 'Z' {
            let r = if ch != 'Z' {
                vec![crate::text::char_from_ascii((ch as u32) + 1)]
            } else {
                vec!['Z']
            };
            assert(r@ =~= next_value(cur@));
            return r;
        }
        if 'a' <= ch && ch <= 'z' {
            let r = if ch != 'z' {
                vec![crate::text::char_from_ascii((ch as u32) + 1)]
            } else {
                vec!['z']
            };
            assert(r@ =~= next_value(cur@));
            return r;
        }
    }
    match parse_i64(cur) {
        Some(n) => {
            let m = if n == i64::MAX {
                i64::MIN
            } else {
                n + 1
            };
            int_chars(m)
        },
        None => {
            let r = vec!['1'];
            assert(r@ =~= seq!['1']);
            r
        },
    }
}

/// The value after `current`.
pub fn increment_counter_value(current: &str) -> (r: String)
    ensures
        r@ == next_value(current@),
{
    let c = chars_of(current);
    let v = next_value_chars(c.as_slice());
    string_of(v.as_slice())
}

// ---------------------------------------------------------------------------
// Counter macros
// ---------------------------------------------------------------------------

pub open spec fn lit_counter() -> Seq<char> {
    seq!['c', 'o', 'u', 'n', 't', 'e', 'r', ':']
}

pub open spec fn lit_counter2() -> Seq<char> {
    seq!['c', 'o', 'u', 'n', 't', 'e', 'r', '2', ':']
}

pub open spec fn name_char(c: char) -> bool {
    is_alnum(c) || c == '-' || c == '_'
}

pub open spec fn valid_counter_name(n: Seq<char>) -> bool {
    n.len() > 0 && forall|k: int| 0 <= k < n.len() ==> name_char(#[trigger] n[k])
}

/// A counter macro at the start of `rest`: whether it is silent
/// (`counter2`), the name, the seed, and its length through the `}`.
pub open spec fn counter_macro_of(rest: Seq<char>) -> Option<
    (bool, Seq<char>, Option<Seq<char>>, int),
> {
    if !starts_with(rest, seq!['{']) {
        None
    } else {
        match find(rest, seq!['}']) {
            Some(close) => {
                let inner = rest.subrange(1, close);
                let (ok, silent, body) = if starts_with(inner, lit_counter2()) {
                    (true, true, inner.skip(9))
                } else if starts_with(inner, lit_counter()) {
                    (true, false, inner.skip(8))
                } else {
                    (false, false, inner)
                };
                let (name, seed) = match find(body, seq![':']) {
                    Some(c) => (body.take(c), Some(body.skip(c + 1))),
                    None => (body, None),
                };
                if ok && valid_counter_name(name) {
                    Some((silent, name, seed, close + 1))
                } else {
                    None
                }
            },
            None => None,
        }
    }
}

/// The value a counter takes when its macro is met.
pub open spec fn counter_new_value(
    m: Map<Seq<char>, Seq<char>>,
    name: Seq<char>,
    seed: Option<Seq<char>>,
) -> Seq<char> {
    if m.contains_key(name) {
        next_value(m[name])
    } else {
        match seed {
            Some(s) => seed_value(s),
            None => seq!['1'],
        }
    }
}

/// A bare reference `{name}` at the start of `rest` to a defined counter:
/// its value and length.
pub open spec fn counter_ref_of(
    rest: Seq<char>,
    m: Map<Seq<char>, Seq<char>>,
    names: Set<Seq<char>>,
) -> Option<(Seq<char>, int)> {
    match find(rest, seq!['}']) {
        Some(close) => {
            let name = rest.subrange(1, close);
            if close >= 1 && names.contains(name) && m.contains_key(name) {
                Some((m[name], close + 1))
            } else {
                None
            }
        },
        None => None,
    }
}

/// The state of a counter scan: text produced, attributes, counter names,
/// and whether anything was expanded.
pub struct CounterScan {
    pub out: Seq<char>,
    pub attrs: Map<Seq<char>, Seq<char>>,
    pub names: Set<Seq<char>>,
    pub any: bool,
}

pub open spec fn scan_prepend(t: Seq<char>, r: CounterScan, expanded: bool) -> CounterScan {
    CounterScan { out: t + r.out, attrs: r.attrs, names: r.names, any: expanded || r.any }
}

/// Length of a passthrough span at `i` (tried in the order the scanner
/// tries them), kept only when it lies within `s`.
pub open spec fn verbatim_span(s: Seq<char>, i: int) -> Option<int> {
    let l = if s[i] == '+' {
        match passthrough_of(s, i) {
            Some(l) => Some(l),
            None => single_plus_of(s, i),
        }
    } else if s[i] == 'p' {
        pass_macro_of(s, i)
    } else {
        None
    };
    match l {
        Some(l) => if 0 < l && i + l <= s.len() {
            Some(l)
        } else {
            None
        },
        None => None,
    }
}

pub open spec fn macro_len(r: Option<(bool, Seq<char>, Option<Seq<char>>, int)>) -> int {
    match r {
        Some((_, _, _, len)) => len,
        None => 0,
    }
}

pub open spec fn ref_len(r: Option<(Seq<char>, int)>) -> int {
    match r {
        Some((_, len)) => len,
        None => 0,
    }
}

/// Counter expansion of `s` from `i` on: passthrough spans are copied
/// verbatim, counter macros are replaced by their new value (nothing for
/// `counter2`) and update the attributes, references to known counters are
/// replaced by their value, other chars are copied.
pub open spec fn counters_from(
    s: Seq<char>,
    i: int,
    m: Map<Seq<char>, Seq<char>>,
    names: Set<Seq<char>>,
) -> CounterScan
    decreases s.len() - i,
{
    if i < 0 || i >= s.len() {
        CounterScan { out: Seq::empty(), attrs: m, names, any: false }
    } else if verbatim_span(s, i) is Some {
        let l = verbatim_span(s, i)->0;
        scan_prepend(s.subrange(i, i + l), counters_from(s, i + l, m, names), false)
    } else if s[i] == '{' && starts_with(s.skip(i), seq!['{', 'c', 'o', 'u', 'n', 't', 'e', 'r'])
        && 0 < macro_len(counter_macro_of(s.skip(i))) && i + macro_len(counter_macro_of(s.skip(i)))
        <= s.len() {
        match counter_macro_of(s.skip(i)) {
            Some((silent, name, seed, len)) => {
                let v = counter_new_value(m, name, seed);
                scan_prepend(
                    if silent {
                        Seq::empty()
                    } else {
                        v
                    },
                    counters_from(s, i + len, m.insert(name, v), names.insert(name)),
                    true,
                )
            },
            None => CounterScan { out: Seq::empty(), attrs: m, names, any: false },
        }
    } else if s[i] == '{' && 0 < ref_len(counter_ref_of(s.skip(i), m, names)) && i + ref_len(
        counter_ref_of(s.skip(i), m, names),
    ) <= s.len() {
        match counter_ref_of(s.skip(i), m, names) {
            Some((v, len)) => scan_prepend(v, counters_from(s, i + len, m, names), true),
            None => CounterScan { out: Seq::empty(), attrs: m, names, any: false },
        }
    } else {
        scan_prepend(seq![s[i]], counters_from(s, i + 1, m, names), false)
    }
}

/// Whether a line needs the scan at all: it mentions `{counter`, or some
/// counter is known and it has a `{`.
pub open spec fn counters_wanted(s: Seq<char>, names: Set<Seq<char>>) -> bool {
    contains(s, seq!['{', 'c', 'o', 'u', 'n', 't', 'e', 'r']) || (names != Set::<Seq<char>>::empty()
        && contains(s, seq!['{']))
}

/// Outcome of counter expansion on a line: the new text when anything was
/// expanded, and the attributes and counter names afterwards.
pub open spec fn expand_counters_of(
    s: Seq<char>,
    m: Map<Seq<char>, Seq<char>>,
    names: Set<Seq<char>>,
) -> (Option<Seq<char>>, Map<Seq<char>, Seq<char>>, Set<Seq<char>>) {
    if !counters_wanted(s, names) {
        (None, m, names)
    } else {
        let r = counters_from(s, 0, m, names);
        (if r.any { Some(r.out) } else { None }, r.attrs, r.names)
    }
}

pub proof fn lemma_counter_macro_len(rest: Seq<char>)
    ensures
        counter_macro_of(rest) matches Some((_, _, _, len)) ==> 2 <= len <= rest.len(),
{
    lemma_find_from_bounds(rest, seq!['}'], 0);
    if starts_with(rest, seq!['{']) {
        if let Some(close) = find(rest, seq!['}']) {
            assert(rest.subrange(0, 1)[0] == '{');
            assert(rest.subrange(close, close + 1)[0] == '}');
        }
    }
}

pub proof fn lemma_counter_ref_len(
    rest: Seq<char>,
    m: Map<Seq<char>, Seq<char>>,
    names: Set<Seq<char>>,
)
    ensures
        counter_ref_of(rest, m, names) matches Some((_, len)) ==> 2 <= len <= rest.len(),
{
    lemma_find_from_bounds(rest, seq!['}'], 0);
}

fn is_name_char(c: char) -> (b: bool)
    ensures
        b == name_char(c),
{
    ('a' <= c && c <= 'z') || ('A' <= c && c <= 'Z') || ('0' <= c && c <= '9') || c == '-' || c
        == '_'
}

/// The parts of a counter macro at the start of `rest`, as bounds into it:
/// silent flag, name, seed, length.
fn counter_macro_at(rest: &[char]) -> (r: Option<(bool, usize, usize, Option<usize>, usize)>)
    ensures
        match r {
            Some((silent, na, nb, seed, len)) => na <= nb <= rest@.len() && (seed matches Some(
                sa,
            ) ==> sa <= len - 1) && len <= rest@.len() && counter_macro_of(rest@) == Some(
                (
                    silent,
                    rest@.subrange(na as int, nb as int),
                    match seed {
                        Some(sa) => Some(rest@.subrange(sa as int, len - 1)),
                        None => None,
                    },
                    len as int,
                ),
            ),
            None => counter_macro_of(rest@) is None,
        },
{
    let n = rest.len();
    let ob = vec!['{'];
    assert(ob@ == seq!['{']);
    if !starts_with_at(rest, ob.as_slice()) {
        return None;
    }
    let cb = vec!['}'];
    assert(cb@ == seq!['}']);
    let close = match find_at(rest, cb.as_slice()) {
        Some(c) => c,
        None => return None,
    };
    proof {
        lemma_counter_macro_len(rest@);
        assert(rest@.subrange(0, 1)[0] == '{');
        assert(rest@.subrange(close as int, close + 1)[0] == '}');
    }
    let inner = slice_vec(rest, 1, close);
    let c2 = vec!['c', 'o', 'u', 'n', 't', 'e', 'r', '2', ':'];
    assert(c2@ == lit_counter2());
    let c1 = vec!['c', 'o', 'u', 'n', 't', 'e', 'r', ':'];
    assert(c1@ == lit_counter());
    let (silent, off) = if starts_with_at(inner.as_slice(), c2.as_slice()) {
        (true, 9usize)
    } else if starts_with_at(inner.as_slice(), c1.as_slice()) {
        (false, 8usize)
    } else {
        return None;
    };
    let il = inner.len();
    let body = slice_vec(inner.as_slice(), off, il);
    assert(body@ =~= inner@.skip(off as int));
    let colon = vec![':'];
    assert(colon@ == seq![':']);
    let (nb, seed) = match find_at(body.as_slice(), colon.as_slice()) {
        Some(c) => (c, Some(1 + off + c + 1)),
        None => (body.len(), None),
    };
    // name is body[0..nb] = rest[1+off .. 1+off+nb]
    let mut k: usize = 0;
    let mut valid = true;
    while k < nb && valid
        invariant
            nb <= body@.len(),
            k <= nb,
            forall|j: int| 0 <= j < k ==> name_char(#[trigger] body@[j]),
            !valid ==> k < nb && !name_char(body@[k as int]),
        decreases nb - k + (if valid { 1int } else { 0int }),
    {
        if !is_name_char(body[k]) {
            valid = false;
        } else {
            k += 1;
        }
    }
    if !valid {
        assert(body@.take(nb as int)[k as int] == body@[k as int]);
        return None;
    }
    if nb == 0 {
        return None;
    }
    proof {
        let name = body@.take(nb as int);
        assert(name =~= rest@.subrange(1 + off, 1 + off + nb));
        assert forall|j: int| 0 <= j < name.len() implies name_char(#[trigger] name[j]) by {
            assert(name[j] == body@[j]);
        }
        match seed {
            Some(sa) => {
                assert(body@.skip(nb + 1) =~= rest@.subrange(sa as int, close as int));
            },
            None => {},
        }
    }
    Some((silent, 1 + off, 1 + off + nb, seed, close + 1))
}

/// Expands a counter macro at the start of `rest`, updating the
/// attributes and counter names; the replacement text and length.
pub fn try_parse_counter(rest: &[char], attributes: &mut AttrMap, counter_names: &mut NameSet) -> (r:
    Option<(Vec<char>, usize)>)
    requires
        old(attributes).wf(),
        old(counter_names).wf(),
    ensures
        final(attributes).wf(),
        final(counter_names).wf(),
        match counter_macro_of(rest@) {
            Some((silent, name, seed, len)) => {
                let v = counter_new_value(old(attributes)@, name, seed);
                &&& r matches Some((t, l)) && t@ == (if silent {
                    Seq::empty()
                } else {
                    v
                }) && l == len
                &&& final(attributes)@ == old(attributes)@.insert(name, v)
                &&& final(counter_names)@ == old(counter_names)@.insert(name)
            },
            None => {
                &&& r is None
                &&& final(attributes)@ == old(attributes)@
                &&& final(counter_names)@ == old(counter_names)@
            },
        },
{
    match counter_macro_at(rest) {
        Some((silent, na, nb, seed, len)) => {
            let name = slice_vec(rest, na, nb);
            let v = match attributes.get_chars(name.as_slice()) {
                Some(cur) => next_value_chars(cur.as_slice()),
                None => match seed {
                    Some(sa) => {
                        let s = slice_vec(rest, sa, len - 1);
                        let st = string_of(s.as_slice());
                        let sv = initialize_from_seed(st.as_str());
                        chars_of(sv.as_str())
                    },
                    None => {
                        let one = vec!['1'];
                        assert(one@ == seq!['1']);
                        one
                    },
                },
            };
            attributes.insert_chars(name.as_slice(), v.as_slice());
            counter_names.insert_chars(name.as_slice());
            if silent {
                Some((Vec::new(), len))
            } else {
                Some((v, len))
            }
        },
        None => None,
    }
}

/// Expands a reference `{name}` at the start of `rest` to a known counter.
pub fn try_expand_counter_reference(rest: &[char], attributes: &AttrMap, counter_names: &NameSet) -> (r:
    Option<(Vec<char>, usize)>)
    requires
        attributes.wf(),
        counter_names.wf(),
        rest@.len() > 0 && rest@[0] == '{',
    ensures
        match counter_ref_of(rest@, attributes@, counter_names@) {
            Some((v, len)) => r matches Some((t, l)) && t@ == v && l == len,
            None => r is None,
        },
{
    let n = rest.len();
    let cb = vec!['}'];
    assert(cb@ == seq!['}']);
    let close = match find_at(rest, cb.as_slice()) {
        Some(c) => c,
        None => return None,
    };
    proof {
        assert(rest@.subrange(close as int, close + 1)[0] == '}');
    }
    let name = slice_vec(rest, 1, close);
    if !counter_names.contains_chars(name.as_slice()) {
        return None;
    }
    assert(close + 1 <= rest@.len());
    match attributes.get_chars(name.as_slice()) {
        Some(v) => Some((v, close + 1)),
        None => None,
    }
}

fn verbatim_span_at(s: &[char], i: usize) -> (r: Option<usize>)
    requires
        i < s@.len(),
    ensures
        match r {
            Some(l) => verbatim_span(s@, i as int) == Some(l as int),
            None => verbatim_span(s@, i as int) is None,
        },
{
    let n = s.len();
    let l = if s[i] == '+' {
        match passthrough_at(s, i) {
            Some(l) => Some(l),
            None => single_plus_at(s, i),
        }
    } else if s[i] == 'p' {
        pass_macro_at(s, i)
    } else {
        None
    };
    match l {
        Some(l) => if 0 < l && l <= n - i {
            Some(l)
        } else {
            None
        },
        None => None,
    }
}

/// Counter expansion over the chars of a line.
pub fn expand_counters_chars(s: &[char], attributes: &mut AttrMap, counter_names: &mut NameSet) -> (r:
    Option<Vec<char>>)
    requires
        old(attributes).wf(),
        old(counter_names).wf(),
    ensures
        final(attributes).wf(),
        final(counter_names).wf(),
        (match r {
            Some(t) => Some(t@),
            None => None,
        }, final(attributes)@, final(counter_names)@) == expand_counters_of(
            s@,
            old(attributes)@,
            old(counter_names)@,
        ),
{
    let n = s.len();
    let key = vec!['{', 'c', 'o', 'u', 'n', 't', 'e', 'r'];
    assert(key@ == seq!['{', 'c', 'o', 'u', 'n', 't', 'e', 'r']);
    let ob = vec!['{'];
    assert(ob@ == seq!['{']);
    if find_at(s, key.as_slice()).is_none() && (counter_names.is_empty() || find_at(
        s,
        ob.as_slice(),
    ).is_none()) {
        return None;
    }
    let ghost m0 = attributes@;
    let ghost names0 = counter_names@;
    let mut out: Vec<char> = Vec::new();
    let mut any = false;
    let mut i: usize = 0;
    assert(counters_from(s@, 0, m0, names0) == scan_prepend(
        out@,
        counters_from(s@, 0, attributes@, counter_names@),
        any,
    )) by {
        assert(out@ + counters_from(s@, 0, m0, names0).out =~= counters_from(s@, 0, m0, names0).out);
    }
    while i < n
        invariant
            n == s@.len(),
            i <= n,
            attributes.wf(),
            counter_names.wf(),
            key@ == seq!['{', 'c', 'o', 'u', 'n', 't', 'e', 'r'],
            counters_from(s@, 0, m0, names0) == scan_prepend(
                out@,
                counters_from(s@, i as int, attributes@, counter_names@),
                any,
            ),
        decreases n - i,
    {
        let ghost before = out@;
        let ghost any0 = any;
        let ghost ma = attributes@;
        let ghost na = counter_names@;
        let ghost rest_s = s@.skip(i as int);
        if let Some(l) = verbatim_span_at(s, i) {
            let piece = slice_vec(s, i, i + l);
            push_all(&mut out, piece.as_slice());
            proof {
                let r = counters_from(s@, i + l, ma, na);
                assert(out@ + r.out =~= before + (piece@ + r.out));
            }
            i = i + l;
            continue;
        }
        let rest = slice_vec(s, i, n);
        assert(rest@ =~= rest_s);
        if s[i] == '{' {
            if starts_with_at(rest.as_slice(), key.as_slice()) {
                proof {
                    lemma_counter_macro_len(rest_s);
                }
                if let Some((t, l)) = try_parse_counter(rest.as_slice(), attributes, counter_names) {
                    push_all(&mut out, t.as_slice());
                    any = true;
                    proof {
                        let r = counters_from(s@, i + l, attributes@, counter_names@);
                        assert(out@ + r.out =~= before + (t@ + r.out));
                    }
                    i = i + l;
                    continue;
                }
            }
            proof {
                lemma_counter_ref_len(rest_s, attributes@, counter_names@);
            }
            if let Some((v, l)) = try_expand_counter_reference(
                rest.as_slice(),
                attributes,
                counter_names,
            ) {
                push_all(&mut out, v.as_slice());
                any = true;
                proof {
                    let r = counters_from(s@, i + l, ma, na);
                    assert(out@ + r.out =~= before + (v@ + r.out));
                }
                i = i + l;
                continue;
            }
        }
        out.push(s[i]);
        proof {
            let r = counters_from(s@, i + 1, ma, na);
            assert(out@ + r.out =~= before + (seq![s@[i as int]] + r.out));
        }
        i += 1;
    }
    if any {
        Some(out)
    } else {
        None
    }
}

/// Expands counter macros and references to known counters in `line`;
/// `None` when nothing was expanded.
pub fn expand_counters(line: &str, attributes: &mut AttrMap, counter_names: &mut NameSet) -> (r:
    Option<String>)
    requires
        old(attributes).wf(),
        old(counter_names).wf(),
    ensures
        final(attributes).wf(),
        final(counter_names).wf(),
        (match r {
            Some(t) => Some(t@),
            None => None,
        }, final(attributes)@, final(counter_names)@) == expand_counters_of(
            line@,
            old(attributes)@,
            old(counter_names)@,
        ),
{
    let s = chars_of(line);
    match expand_counters_chars(s.as_slice(), attributes, counter_names) {
        Some(t) => Some(string_of(t.as_slice())),
        None => None,
    }
}

} // verus!
