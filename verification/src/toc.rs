//! The table of contents: section entries in document order and the
//! nesting of the lists that present them.

use vstd::prelude::*;

verus! {

/// A section heading collected in document order.
#[derive(Debug, Clone, PartialEq, Eq)]
pub struct TocEntry {
    /// Heading level (1 = document title, 2 = top-level section).
    pub level: u8,
    /// Anchor id of the section.
    pub id: String,
    /// Title as plain text.
    pub title: String,
}

/// Asciidoctor's default `toc-title`.
pub const DEFAULT_TOC_TITLE: &'static str = "Table of Contents";

/// One structural step of a TOC layout.
#[derive(Debug, Clone, Copy, PartialEq, Eq)]
pub enum TocStep<'a> {
    /// Open a nested list for sections at this level.
    EnterLevel(u8),
    /// Emit one entry; the item stays open.
    Item(&'a TocEntry),
    /// Close the current item before a sibling.
    CloseItem,
    /// Close the current item and its enclosing list.
    LeaveLevel,
}

/// Lists opened to go from level `from` down to level `to`.
pub open spec fn enters<'a>(from: int, to: int) -> Seq<TocStep<'a>>
    decreases to - from,
{
    if from >= to {
        Seq::empty()
    } else {
        enters(from, to - 1).push(TocStep::EnterLevel(to as u8))
    }
}

pub open spec fn leaves<'a>(n: int) -> Seq<TocStep<'a>> {
    Seq::new(if n > 0 { n as nat } else { 0 }, |k: int| TocStep::LeaveLevel)
}

pub open spec fn toc_visible(e: TocEntry, max_level: int) -> bool {
    e.level >= 2 && e.level <= max_level
}

/// Steps for the entries `es[k..]` with lists open down to level `cur`:
/// a deeper entry opens the lists in between, a shallower one closes lists
/// and then the sibling item, a sibling closes the previous item; at the
/// end every open list is closed.
pub open spec fn steps_from<'a>(es: Seq<TocEntry>, k: int, cur: int, max_level: int) -> Seq<
    TocStep<'a>,
>
    decreases es.len() - k,
{
    if k < 0 || k >= es.len() {
        leaves(cur - 1)
    } else if !toc_visible(es[k], max_level) {
        steps_from(es, k + 1, cur, max_level)
    } else {
        let l = es[k].level as int;
        let head = if l > cur {
            enters(cur, l)
        } else if l < cur {
            leaves(cur - l).push(TocStep::CloseItem)
        } else {
            seq![TocStep::CloseItem]
        };
        head.push(TocStep::Item(&es[k])) + steps_from(es, k + 1, l, max_level)
    }
}

/// Steps of a TOC limited to `toc_levels` levels (section levels 2 through
/// `toc_levels + 1`).
pub open spec fn toc_steps_of<'a>(es: Seq<TocEntry>, toc_levels: int) -> Seq<TocStep<'a>> {
    steps_from(es, 0, 1, toc_levels + 1)
}

/// Collects section entries in document order and lays out the TOC.
pub struct TocBuilder {
    entries: Vec<TocEntry>,
}

impl TocBuilder {
    pub closed spec fn view(&self) -> Seq<TocEntry> {
        self.entries@
    }

    pub fn new() -> (b: Self)
        ensures
            b.view() == Seq::<TocEntry>::empty(),
    {
        TocBuilder { entries: Vec::new() }
    }

    pub fn push(&mut self, entry: TocEntry)
        ensures
            final(self).view() == old(self).view().push(entry),
    {
        self.entries.push(entry);
    }

    /// All collected sections in document order.
    pub fn entries(&self) -> (r: &[TocEntry])
        ensures
            r@ == self.view(),
    {
        self.entries.as_slice()
    }

    /// Structural steps of the TOC for `toc_levels` levels of depth; empty
    /// when no entry is in range.
    pub fn toc_steps(&self, toc_levels: u8) -> (r: Vec<TocStep<'_>>)
        ensures
            r@ == toc_steps_of(self.view(), toc_levels as int),
    {
        let max_level: u16 = 2 + toc_levels as u16 - 1;
        let mut steps: Vec<TocStep> = Vec::new();
        let mut cur: u8 = 1;
        let mut k: usize = 0;
        let ghost es = self.entries@;
        assert(steps@ + steps_from(es, 0, 1, max_level as int) =~= steps_from(
            es,
            0,
            1,
            max_level as int,
        ));
        while k < self.entries.len()
            invariant
                es == self.entries@,
                max_level == toc_levels + 1,
                k <= es.len(),
                1 <= cur,
                steps@ + steps_from(es, k as int, cur as int, max_level as int) == toc_steps_of(
                    es,
                    toc_levels as int,
                ),
            decreases es.len() - k,
        {
            let entry = &self.entries[k];
            let ghost before = steps@;
            let ghost c0 = cur as int;
            if entry.level >= 2 && (entry.level as u16) <= max_level {
                let l = entry.level;
                if l > cur {
                    while cur < l
                        invariant
                            c0 <= cur <= l,
                            steps@ == before + enters(c0, cur as int),
                        decreases l - cur,
                    {
                        cur = cur + 1;
                        steps.push(TocStep::EnterLevel(cur));
                    }
                } else if l < cur {
                    while cur > l
                        invariant
                            l <= cur <= c0,
                            steps@ == before + leaves(c0 - cur),
                        decreases cur - l,
                    {
                        steps.push(TocStep::LeaveLevel);
                        cur = cur - 1;
                        assert(leaves(c0 - cur) =~= leaves(c0 - cur - 1).push(TocStep::LeaveLevel));
                    }
                    steps.push(TocStep::CloseItem);
                } else {
                    steps.push(TocStep::CloseItem);
                }
                steps.push(TocStep::Item(entry));
                proof {
                    let head = if (l as int) > c0 {
                        enters(c0, l as int)
                    } else if (l as int) < c0 {
                        leaves(c0 - l).push(TocStep::CloseItem)
                    } else {
                        seq![TocStep::CloseItem]
                    };
                    assert(steps@ =~= before + head.push(TocStep::Item(&es[k as int])));
                    let rest = steps_from(es, k + 1, l as int, max_level as int);
                    assert(steps@ + rest =~= before + (head.push(TocStep::Item(&es[k as int]))
                        + rest));
                }
            }
            k += 1;
        }
        let ghost before = steps@;
        let ghost c0 = cur as int;
        while cur >= 2
            invariant
                1 <= cur <= c0,
                steps@ == before + leaves(c0 - cur),
            decreases cur,
        {
            steps.push(TocStep::LeaveLevel);
            cur = cur - 1;
            assert(leaves(c0 - cur) =~= leaves(c0 - cur - 1).push(TocStep::LeaveLevel));
        }
        assert(leaves(c0 - cur) =~= leaves(c0 - 1));
        steps
    }
}

pub open spec fn count_enters<'a>(s: Seq<TocStep<'a>>) -> int
    decreases s.len(),
{
    if s.len() == 0 {
        0
    } else {
        count_enters(s.drop_last()) + if s.last() is EnterLevel {
            1int
        } else {
            0int
        }
    }
}

pub open spec fn count_leaves<'a>(s: Seq<TocStep<'a>>) -> int
    decreases s.len(),
{
    if s.len() == 0 {
        0
    } else {
        count_leaves(s.drop_last()) + if s.last() is LeaveLevel {
            1int
        } else {
            0int
        }
    }
}

proof fn lemma_count_concat<'a>(a: Seq<TocStep<'a>>, b: Seq<TocStep<'a>>)
    ensures
        count_enters(a + b) == count_enters(a) + count_enters(b),
        count_leaves(a + b) == count_leaves(a) + count_leaves(b),
    decreases b.len(),
{
    if b.len() > 0 {
        lemma_count_concat(a, b.drop_last());
        assert((a + b).drop_last() =~= a + b.drop_last());
    } else {
        assert(a + b =~= a);
    }
}

proof fn lemma_count_enters(from: int, to: int)
    ensures
        count_enters(enters(from, to)) == if from >= to {
            0
        } else {
            to - from
        },
        count_leaves(enters(from, to)) == 0,
    decreases to - from,
{
    if from < to {
        lemma_count_enters(from, to - 1);
        assert(enters(from, to).drop_last() =~= enters(from, to - 1));
    }
}

proof fn lemma_count_leaves(n: int)
    ensures
        count_enters(leaves(n)) == 0,
        count_leaves(leaves(n)) == if n > 0 {
            n
        } else {
            0
        },
    decreases if n > 0 {
        n
    } else {
        0
    },
{
    if n > 0 {
        lemma_count_leaves(n - 1);
        assert(leaves(n).drop_last() =~= leaves(n - 1));
    } else {
        assert(leaves(n) =~= Seq::<TocStep>::empty());
    }
}

proof fn lemma_steps_balanced(es: Seq<TocEntry>, k: int, cur: int, max_level: int)
    requires
        0 <= k,
        1 <= cur,
    ensures
        count_leaves(steps_from(es, k, cur, max_level)) == count_enters(
            steps_from(es, k, cur, max_level),
        ) + cur - 1,
    decreases es.len() - k,
{
    if k >= es.len() {
        lemma_count_leaves(cur - 1);
    } else if !toc_visible(es[k], max_level) {
        lemma_steps_balanced(es, k + 1, cur, max_level);
    } else {
        let l = es[k].level as int;
        let head: Seq<TocStep> = if l > cur {
            enters(cur, l)
        } else if l < cur {
            leaves(cur - l).push(TocStep::CloseItem)
        } else {
            seq![TocStep::CloseItem]
        };
        let rest = steps_from(es, k + 1, l, max_level);
        lemma_steps_balanced(es, k + 1, l, max_level);
        lemma_count_enters(cur, l);
        lemma_count_leaves(cur - l);
        let h2 = head.push(TocStep::Item(&es[k]));
        assert(h2.drop_last() =~= head);
        assert(count_enters(h2) == count_enters(head));
        assert(count_leaves(h2) == count_leaves(head));
        if l < cur {
            assert(head.drop_last() =~= leaves(cur - l));
            assert(count_enters(head) == count_enters(leaves(cur - l)));
            assert(count_leaves(head) == count_leaves(leaves(cur - l)));
        } else if l == cur {
            assert(head.drop_last() =~= Seq::<TocStep>::empty());
            assert(count_enters(head) == 0);
            assert(count_leaves(head) == 0);
        }
        lemma_count_concat(h2, rest);
    }
}

/// Every list the TOC layout opens is closed: there are as many
/// `LeaveLevel` steps as `EnterLevel` steps.
pub proof fn law_toc_balanced(es: Seq<TocEntry>, toc_levels: int)
    ensures
        count_enters(toc_steps_of(es, toc_levels)) == count_leaves(
            toc_steps_of(es, toc_levels),
        ),
{
    lemma_steps_balanced(es, 0, 1, toc_levels + 1);
}

proof fn lemma_steps_empty(es: Seq<TocEntry>, k: int, max_level: int)
    requires
        0 <= k,
    ensures
        steps_from(es, k, 1, max_level).len() == 0 <==> forall|j: int|
            k <= j < es.len() ==> !toc_visible(#[trigger] es[j], max_level),
    decreases es.len() - k,
{
    if k >= es.len() {
        assert(leaves(0).len() == 0);
    } else if !toc_visible(es[k], max_level) {
        lemma_steps_empty(es, k + 1, max_level);
        assert forall|j: int| k + 1 <= j < es.len() && !toc_visible(#[trigger] es[j], max_level)
            implies true by {}
    } else {
        let l = es[k].level as int;
        let head = if l > 1 {
            enters(1, l)
        } else if l < 1 {
            leaves(1 - l).push(TocStep::CloseItem)
        } else {
            seq![TocStep::CloseItem]
        };
        assert(steps_from(es, k, 1, max_level) == head.push(TocStep::Item(&es[k])) + steps_from(
            es,
            k + 1,
            l,
            max_level,
        ));
    }
}

/// The TOC has no steps at all exactly when no entry is in range.
pub proof fn law_toc_empty_iff_nothing_visible(es: Seq<TocEntry>, toc_levels: int)
    ensures
        toc_steps_of(es, toc_levels).len() == 0 <==> forall|j: int|
            0 <= j < es.len() ==> !toc_visible(#[trigger] es[j], toc_levels + 1),
{
    lemma_steps_empty(es, 0, toc_levels + 1);
}

/// The entries the `Item` steps of `s` present, in order.
pub open spec fn items_of<'a>(s: Seq<TocStep<'a>>) -> Seq<TocEntry>
    decreases s.len(),
{
    if s.len() == 0 {
        Seq::empty()
    } else {
        match s.last() {
            TocStep::Item(e) => items_of(s.drop_last()).push(*e),
            _ => items_of(s.drop_last()),
        }
    }
}

/// The entries of `es[k..]` that are in range, in order.
pub open spec fn visible_from(es: Seq<TocEntry>, k: int, max_level: int) -> Seq<TocEntry>
    decreases es.len() - k,
{
    if k < 0 || k >= es.len() {
        Seq::empty()
    } else if toc_visible(es[k], max_level) {
        seq![es[k]] + visible_from(es, k + 1, max_level)
    } else {
        visible_from(es, k + 1, max_level)
    }
}

proof fn lemma_items_concat<'a>(a: Seq<TocStep<'a>>, b: Seq<TocStep<'a>>)
    ensures
        items_of(a + b) == items_of(a) + items_of(b),
    decreases b.len(),
{
    if b.len() > 0 {
        lemma_items_concat(a, b.drop_last());
        assert((a + b).drop_last() =~= a + b.drop_last());
        assert((a + b).last() == b.last());
        match b.last() {
            TocStep::Item(e) => {
                assert(items_of(a) + items_of(b) =~= (items_of(a) + items_of(b.drop_last())).push(
                    *e,
                ));
            },
            _ => {},
        }
    } else {
        assert(a + b =~= a);
        assert(items_of(a) + items_of(b) =~= items_of(a));
    }
}

proof fn lemma_items_enters(from: int, to: int)
    ensures
        items_of(enters(from, to)) == Seq::<TocEntry>::empty(),
    decreases to - from,
{
    if from < to {
        lemma_items_enters(from, to - 1);
        assert(enters(from, to).drop_last() =~= enters(from, to - 1));
    }
}

proof fn lemma_items_leaves(n: int)
    ensures
        items_of(leaves(n)) == Seq::<TocEntry>::empty(),
    decreases if n > 0 {
        n
    } else {
        0
    },
{
    if n > 0 {
        lemma_items_leaves(n - 1);
        assert(leaves(n).drop_last() =~= leaves(n - 1));
    } else {
        assert(leaves(n) =~= Seq::<TocStep>::empty());
    }
}

proof fn lemma_steps_items(es: Seq<TocEntry>, k: int, cur: int, max_level: int)
    requires
        0 <= k,
    ensures
        items_of(steps_from(es, k, cur, max_level)) == visible_from(es, k, max_level),
    decreases es.len() - k,
{
    if k >= es.len() {
        lemma_items_leaves(cur - 1);
    } else if !toc_visible(es[k], max_level) {
        lemma_steps_items(es, k + 1, cur, max_level);
    } else {
        let l = es[k].level as int;
        let head: Seq<TocStep> = if l > cur {
            enters(cur, l)
        } else if l < cur {
            leaves(cur - l).push(TocStep::CloseItem)
        } else {
            seq![TocStep::CloseItem]
        };
        lemma_steps_items(es, k + 1, l, max_level);
        lemma_items_enters(cur, l);
        lemma_items_leaves(cur - l);
        assert(items_of(head) == Seq::<TocEntry>::empty()) by {
            if l < cur {
                assert(head.drop_last() =~= leaves(cur - l));
            } else if l == cur {
                assert(head.drop_last() =~= Seq::<TocStep>::empty());
            }
        }
        let h2 = head.push(TocStep::Item(&es[k]));
        assert(h2.drop_last() =~= head);
        assert(items_of(h2) =~= seq![es[k]]);
        lemma_items_concat(h2, steps_from(es, k + 1, l, max_level));
    }
}

/// The `Item` steps of the TOC present exactly the entries in range, in
/// document order.
pub proof fn law_toc_items_are_visible_entries(es: Seq<TocEntry>, toc_levels: int)
    ensures
        items_of(toc_steps_of(es, toc_levels)) == visible_from(es, 0, toc_levels + 1),
{
    lemma_steps_items(es, 0, 1, toc_levels + 1);
}

proof fn lemma_counts_nonneg<'a>(s: Seq<TocStep<'a>>)
    ensures
        count_enters(s) >= 0,
        count_leaves(s) >= 0,
    decreases s.len(),
{
    if s.len() > 0 {
        lemma_counts_nonneg(s.drop_last());
    }
}

proof fn lemma_counts_take<'a>(s: Seq<TocStep<'a>>, n: int)
    requires
        0 <= n <= s.len(),
    ensures
        count_leaves(s.take(n)) <= count_leaves(s),
        count_enters(s.take(n)) <= count_enters(s),
{
    lemma_count_concat(s.take(n), s.skip(n));
    assert(s.take(n) + s.skip(n) =~= s);
    lemma_counts_nonneg(s.skip(n));
}

/// No prefix of `s` closes more than `d` lists beyond those it opens.
pub open spec fn prefix_ok<'a>(s: Seq<TocStep<'a>>, d: int) -> bool {
    forall|n: int|
        0 <= n <= s.len() ==> count_leaves(#[trigger] s.take(n)) <= count_enters(s.take(n)) + d
}

proof fn lemma_prefix_concat<'a>(a: Seq<TocStep<'a>>, b: Seq<TocStep<'a>>, d: int)
    requires
        prefix_ok(a, d),
        prefix_ok(b, d + count_enters(a) - count_leaves(a)),
    ensures
        prefix_ok(a + b, d),
{
    assert forall|n: int| 0 <= n <= (a + b).len() implies count_leaves(#[trigger] (a + b).take(n))
        <= count_enters((a + b).take(n)) + d by {
        if n <= a.len() {
            assert((a + b).take(n) =~= a.take(n));
        } else {
            let m = n - a.len();
            assert((a + b).take(n) =~= a + b.take(m));
            lemma_count_concat(a, b.take(m));
            assert(count_leaves(b.take(m)) <= count_enters(b.take(m)) + d + count_enters(a)
                - count_leaves(a));
        }
    }
}

proof fn lemma_prefix_by_total<'a>(s: Seq<TocStep<'a>>, d: int)
    requires
        count_leaves(s) <= d,
    ensures
        prefix_ok(s, d),
{
    assert forall|n: int| 0 <= n <= s.len() implies count_leaves(#[trigger] s.take(n))
        <= count_enters(s.take(n)) + d by {
        lemma_counts_take(s, n);
        lemma_counts_nonneg(s.take(n));
    }
}

proof fn lemma_steps_prefix(es: Seq<TocEntry>, k: int, cur: int, max_level: int)
    requires
        0 <= k,
        1 <= cur,
    ensures
        prefix_ok(steps_from(es, k, cur, max_level), cur - 1),
    decreases es.len() - k,
{
    if k >= es.len() {
        lemma_count_leaves(cur - 1);
        lemma_prefix_by_total(leaves(cur - 1), cur - 1);
    } else if !toc_visible(es[k], max_level) {
        lemma_steps_prefix(es, k + 1, cur, max_level);
    } else {
        let l = es[k].level as int;
        let head: Seq<TocStep> = if l > cur {
            enters(cur, l)
        } else if l < cur {
            leaves(cur - l).push(TocStep::CloseItem)
        } else {
            seq![TocStep::CloseItem]
        };
        let h2 = head.push(TocStep::Item(&es[k]));
        let rest = steps_from(es, k + 1, l, max_level);
        lemma_steps_prefix(es, k + 1, l, max_level);
        lemma_count_enters(cur, l);
        lemma_count_leaves(cur - l);
        assert(h2.drop_last() =~= head);
        assert(count_enters(h2) == count_enters(head));
        assert(count_leaves(h2) == count_leaves(head));
        if l < cur {
            assert(head.drop_last() =~= leaves(cur - l));
            assert(count_enters(head) == count_enters(leaves(cur - l)));
            assert(count_leaves(head) == count_leaves(leaves(cur - l)));
        } else if l == cur {
            assert(head.drop_last() =~= Seq::<TocStep>::empty());
            assert(count_enters(head) == 0);
            assert(count_leaves(head) == 0);
        }
        assert(count_enters(h2) - count_leaves(h2) == l - cur);
        lemma_prefix_by_total(h2, cur - 1);
        lemma_prefix_concat(h2, rest, cur - 1);
    }
}

/// Every prefix of the TOC steps closes no more lists than it has opened.
pub proof fn law_toc_prefix_balanced(es: Seq<TocEntry>, toc_levels: int)
    ensures
        prefix_ok(toc_steps_of(es, toc_levels), 0),
{
    lemma_steps_prefix(es, 0, 1, toc_levels + 1);
}

/// The deepest level among the entries of `es[k..]` in range (0 if none).
pub open spec fn max_visible(es: Seq<TocEntry>, k: int, max_level: int) -> int
    decreases es.len() - k,
{
    if k < 0 || k >= es.len() {
        0
    } else if toc_visible(es[k], max_level) && es[k].level as int > max_visible(es, k + 1, max_level) {
        es[k].level as int
    } else {
        max_visible(es, k + 1, max_level)
    }
}

/// `st` opens a list at a level above `lo` and at most `hi`.
pub open spec fn enter_within<'a>(st: TocStep<'a>, lo: int, hi: int) -> bool {
    match st {
        TocStep::EnterLevel(x) => lo < x <= hi,
        _ => false,
    }
}

/// If `st` opens a list, its level is between 2 and `hi`.
pub open spec fn enter_bounded<'a>(st: TocStep<'a>, hi: int) -> bool {
    match st {
        TocStep::EnterLevel(x) => 2 <= x <= hi,
        _ => true,
    }
}

proof fn lemma_enters_bounds<'a>(from: int, to: int)
    requires
        0 <= from,
        to <= 255,
    ensures
        forall|i: int|
            0 <= i < enters::<'a>(from, to).len() ==> enter_within(
                #[trigger] enters::<'a>(from, to)[i],
                from,
                to,
            ),
    decreases to - from,
{
    if from < to {
        lemma_enters_bounds(from, to - 1);
        assert(enters::<'a>(from, to).drop_last() =~= enters::<'a>(from, to - 1));
        assert forall|i: int| 0 <= i < enters::<'a>(from, to).len() implies enter_within(
            #[trigger] enters::<'a>(from, to)[i],
            from,
            to,
        ) by {
            if i < enters::<'a>(from, to).len() - 1 {
                assert(enters::<'a>(from, to)[i] == enters::<'a>(from, to - 1)[i]);
            } else {
                assert(enters::<'a>(from, to)[i] == TocStep::<'a>::EnterLevel(to as u8));
            }
        }
    }
}

proof fn lemma_max_visible(es: Seq<TocEntry>, k: int, max_level: int)
    requires
        0 <= k,
    ensures
        max_visible(es, k, max_level) >= max_visible(es, k + 1, max_level),
        0 <= k < es.len() && toc_visible(es[k], max_level) ==> es[k].level as int <= max_visible(
            es,
            k,
            max_level,
        ),
{
}

proof fn lemma_steps_enter_bounds(es: Seq<TocEntry>, k: int, cur: int, max_level: int)
    requires
        0 <= k,
        1 <= cur,
    ensures
        forall|i: int|
            0 <= i < steps_from(es, k, cur, max_level).len() ==> enter_bounded(
                #[trigger] steps_from(es, k, cur, max_level)[i],
                max_visible(es, k, max_level),
            ),
    decreases es.len() - k,
{
    let st = steps_from(es, k, cur, max_level);
    if k >= es.len() {
        assert forall|i: int| 0 <= i < st.len() implies enter_bounded(#[trigger] st[i], max_visible(es, k, max_level)) by {
            assert(st[i] == TocStep::LeaveLevel);
        }
    } else if !toc_visible(es[k], max_level) {
        lemma_steps_enter_bounds(es, k + 1, cur, max_level);
        lemma_max_visible(es, k, max_level);
        let st2 = steps_from(es, k + 1, cur, max_level);
        assert(st == st2);
        assert forall|i: int| 0 <= i < st.len() implies enter_bounded(#[trigger] st[i], max_visible(es, k, max_level)) by {
            assert(enter_bounded(st2[i], max_visible(es, k + 1, max_level)));
        }
    } else {
        let l = es[k].level as int;
        let head: Seq<TocStep> = if l > cur {
            enters(cur, l)
        } else if l < cur {
            leaves(cur - l).push(TocStep::CloseItem)
        } else {
            seq![TocStep::CloseItem]
        };
        let h2 = head.push(TocStep::Item(&es[k]));
        let rest = steps_from(es, k + 1, l, max_level);
        lemma_steps_enter_bounds(es, k + 1, l, max_level);
        lemma_max_visible(es, k, max_level);
        lemma_enters_bounds(cur, l);
        let mv = max_visible(es, k, max_level);
        assert(st == h2 + rest);
        assert forall|i: int| 0 <= i < st.len() implies enter_bounded(#[trigger] st[i], mv) by {
            if i < h2.len() {
                assert(st[i] == h2[i]);
                if i < head.len() {
                    assert(h2[i] == head[i]);
                    if l > cur {
                        assert(enter_within(enters::<'_>(cur, l)[i], cur, l));
                    } else if l < cur {
                        if i < head.len() - 1 {
                            assert(head[i] == leaves(cur - l)[i]);
                        }
                    }
                }
            } else {
                assert(st[i] == rest[i - h2.len()]);
                assert(enter_bounded(rest[i - h2.len()], max_visible(es, k + 1, max_level)));
            }
        }
    }
}

/// Every list the TOC opens is at a level from 2 up to the deepest level
/// among the entries in range.
pub proof fn law_toc_enter_levels(es: Seq<TocEntry>, toc_levels: int)
    ensures
        forall|i: int|
            0 <= i < toc_steps_of(es, toc_levels).len() ==> enter_bounded(
                #[trigger] toc_steps_of(es, toc_levels)[i],
                max_visible(es, 0, toc_levels + 1),
            ),
{
    lemma_steps_enter_bounds(es, 0, 1, toc_levels + 1);
}

} // verus!
