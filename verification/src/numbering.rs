//! Section numbers (`sectnums`), appendix captions and the numbered
//! captions of figures, tables and examples.

use vstd::prelude::*;
use crate::counters::{nat_chars, nat_text};
use crate::text::{push_all, string_of};

verus! {

// ---------------------------------------------------------------------------
// Section numbers
// ---------------------------------------------------------------------------

/// The counters after a section at level `lvl`: that level's counter
/// bumped, all deeper levels reset.
pub open spec fn bumped(cs: Seq<u32>, lvl: int) -> Seq<u32> {
    Seq::new(
        cs.len(),
        |i: int|
            if i == lvl {
                (cs[lvl] + 1) as u32
            } else if i > lvl {
                0u32
            } else {
                cs[i]
            },
    )
}

/// `c2.c3. … .c_lvl` from the counters.
pub open spec fn number_text(cs: Seq<u32>, lvl: int) -> Seq<char>
    decreases lvl,
{
    if lvl <= 2 {
        nat_text(cs[2] as nat)
    } else {
        number_text(cs, lvl - 1) + seq!['.'] + nat_text(cs[lvl] as nat)
    }
}

/// Counters behind section numbering and appendix captions.
pub struct SectionNumberer {
    counters: Vec<u32>,
    appendix_counter: u8,
}

impl SectionNumberer {
    /// Per-level counters (levels 2 through 5 are used).
    pub closed spec fn counters(&self) -> Seq<u32> {
        self.counters@
    }

    pub closed spec fn appendices(&self) -> u8 {
        self.appendix_counter
    }

    /// One counter per level 0 through 5.
    pub open spec fn wf(&self) -> bool {
        self.counters().len() == 6
    }

    pub fn new() -> (n: Self)
        ensures
            n.wf(),
            n.counters() == Seq::new(6, |i: int| 0u32),
            n.appendices() == 0,
    {
        let v = vec![0u32, 0, 0, 0, 0, 0];
        assert(v@ =~= Seq::new(6, |i: int| 0u32));
        SectionNumberer { counters: v, appendix_counter: 0 }
    }

    /// Number prefix (`"1.2. "`) for the next section at `level`; `None`
    /// outside levels 2 through 5, with the counters untouched.
    pub fn number_prefix(&mut self, level: u8) -> (r: Option<String>)
        requires
            old(self).wf(),
            2 <= level <= 5 ==> old(self).counters()[level as int] < u32::MAX,
        ensures
            final(self).wf(),
            final(self).appendices() == old(self).appendices(),
            !(2 <= level <= 5) ==> r is None && final(self).counters() == old(self).counters(),
            2 <= level <= 5 ==> {
                &&& final(self).counters() == bumped(old(self).counters(), level as int)
                &&& r matches Some(p) && p@ == number_text(final(self).counters(), level as int)
                    + seq!['.', ' ']
            },
    {
        if level < 2 || level > 5 {
            return None;
        }
        let lvl = level as usize;
        let c = self.counters[lvl];
        self.counters.set(lvl, c + 1);
        let mut l = lvl + 1;
        while l < 6
            invariant
                lvl < l <= 6,
                self.counters@.len() == 6,
                self.appendix_counter == old(self).appendix_counter,
                forall|i: int|
                    0 <= i < 6 ==> #[trigger] self.counters@[i] == if i == lvl {
                        (old(self).counters@[lvl as int] + 1) as u32
                    } else if lvl < i < l {
                        0u32
                    } else {
                        old(self).counters@[i]
                    },
            decreases 6 - l,
        {
            self.counters.set(l, 0);
            l += 1;
        }
        assert(self.counters@ =~= bumped(old(self).counters@, lvl as int));
        let mut prefix: Vec<char> = nat_chars(self.counters[2] as u64);
        let mut k: usize = 3;
        while k <= lvl
            invariant
                3 <= k <= lvl + 1,
                lvl <= 5,
                self.counters@.len() == 6,
                self.appendix_counter == old(self).appendix_counter,
                self.counters@ == bumped(old(self).counters@, lvl as int),
                prefix@ == number_text(self.counters@, k - 1),
            decreases lvl + 1 - k,
        {
            prefix.push('.');
            let d = nat_chars(self.counters[k] as u64);
            push_all(&mut prefix, d.as_slice());
            assert(prefix@ =~= number_text(self.counters@, k - 1) + seq!['.'] + nat_text(
                self.counters@[k as int] as nat,
            ));
            k += 1;
        }
        prefix.push('.');
        prefix.push(' ');
        assert(prefix@ =~= number_text(self.counters@, lvl as int) + seq!['.', ' ']);
        Some(string_of(prefix.as_slice()))
    }

    /// Caption prefix (`"Appendix A: "`) for the next appendix.
    pub fn appendix_caption(&mut self) -> (r: String)
        requires
            old(self).appendices() < 190,
        ensures
            final(self).counters() == old(self).counters(),
            final(self).wf() == old(self).wf(),
            final(self).appendices() == old(self).appendices() + 1,
            r@ == seq!['A', 'p', 'p', 'e', 'n', 'd', 'i', 'x', ' '] + seq![
                (65 + old(self).appendices()) as char,
            ] + seq![':', ' '],
    {
        self.appendix_counter = self.appendix_counter + 1;
        let code: u8 = 65 + self.appendix_counter - 1;
        let letter = code as char;
        let mut v = vec!['A', 'p', 'p', 'e', 'n', 'd', 'i', 'x', ' '];
        v.push(letter);
        v.push(':');
        v.push(' ');
        assert(v@ =~= seq!['A', 'p', 'p', 'e', 'n', 'd', 'i', 'x', ' '] + seq![
            (65 + old(self).appendices()) as char,
        ] + seq![':', ' ']);
        string_of(v.as_slice())
    }
}

// ---------------------------------------------------------------------------
// Block captions
// ---------------------------------------------------------------------------

/// Kinds of titled blocks that carry a numbered caption.
#[derive(Debug, Clone, Copy, PartialEq, Eq)]
pub enum CaptionKind {
    Figure,
    Table,
    Example,
}

/// How a titled block's caption prefix renders.
#[derive(Debug, Clone, Copy, PartialEq, Eq)]
pub enum CaptionPrefix<'a> {
    /// No prefix (Asciidoctor's `None`).
    Suppressed,
    /// A block-level `caption="…"` override, verbatim.
    Custom(&'a str),
    /// The caption label and this block's number.
    Numbered { label: &'a str, number: usize },
}

/// Per-kind caption counters.
pub struct CaptionCounters {
    figure: usize,
    table: usize,
    example: usize,
}

pub open spec fn kind_index(kind: CaptionKind) -> int {
    match kind {
        CaptionKind::Figure => 0,
        CaptionKind::Table => 1,
        CaptionKind::Example => 2,
    }
}

/// The caption prefix of the next titled block of `kind` whose counter is
/// `count`: an empty `caption=` suppresses it, another `caption=` replaces
/// it, otherwise the document label (if set) numbers it. The counter
/// afterwards: examples count every titled block, figures and tables only
/// numbered ones.
pub open spec fn caption_of<'a>(
    kind: CaptionKind,
    count: int,
    caption_attr: Option<&'a str>,
    doc_label: Option<&'a str>,
) -> (CaptionPrefix<'a>, int) {
    let c1 = if kind == CaptionKind::Example {
        count + 1
    } else {
        count
    };
    match caption_attr {
        Some(p) => if p@.len() == 0 {
            (CaptionPrefix::Suppressed, c1)
        } else {
            (CaptionPrefix::Custom(p), c1)
        },
        None => match doc_label {
            Some(label) => {
                let c2 = if kind != CaptionKind::Example {
                    c1 + 1
                } else {
                    c1
                };
                (CaptionPrefix::Numbered { label, number: c2 as usize }, c2)
            },
            None => (CaptionPrefix::Suppressed, c1),
        },
    }
}

impl CaptionCounters {
    /// The figure, table and example counters.
    pub closed spec fn counts(&self) -> Seq<int> {
        seq![self.figure as int, self.table as int, self.example as int]
    }

    /// One counter per caption kind, each within `usize`.
    pub proof fn lemma_counts(&self)
        ensures
            self.counts().len() == 3,
            forall|i: int| 0 <= i < 3 ==> 0 <= #[trigger] self.counts()[i] <= usize::MAX,
    {
    }

    pub fn new() -> (c: Self)
        ensures
            c.counts() == seq![0int, 0int, 0int],
    {
        CaptionCounters { figure: 0, table: 0, example: 0 }
    }

    /// Decides the caption prefix for the next titled block of `kind`.
    pub fn caption_prefix<'a>(
        &mut self,
        kind: CaptionKind,
        caption_attr: Option<&'a str>,
        doc_label: Option<&'a str>,
    ) -> (r: CaptionPrefix<'a>)
        requires
            old(self).counts()[kind_index(kind)] < usize::MAX,
        ensures
            ({
                let (p, c) = caption_of(
                    kind,
                    old(self).counts()[kind_index(kind)],
                    caption_attr,
                    doc_label,
                );
                &&& r == p
                &&& final(self).counts() == old(self).counts().update(kind_index(kind), c)
            }),
    {
        let mut counter = match kind {
            CaptionKind::Figure => self.figure,
            CaptionKind::Table => self.table,
            CaptionKind::Example => self.example,
        };
        let is_example = match kind {
            CaptionKind::Example => true,
            _ => false,
        };
        if is_example {
            counter = counter + 1;
        }
        let r = match caption_attr {
            Some(p) => {
                if p.is_empty() {
                    CaptionPrefix::Suppressed
                } else {
                    CaptionPrefix::Custom(p)
                }
            },
            None => match doc_label {
                Some(label) => {
                    if !is_example {
                        counter = counter + 1;
                    }
                    CaptionPrefix::Numbered { label, number: counter }
                },
                None => CaptionPrefix::Suppressed,
            },
        };
        match kind {
            CaptionKind::Figure => self.figure = counter,
            CaptionKind::Table => self.table = counter,
            CaptionKind::Example => self.example = counter,
        }
        assert(self.counts() =~= old(self).counts().update(kind_index(kind), counter as int));
        r
    }
}

/// An example's number advances with every titled example, whatever its
/// caption attribute says; a figure's or table's only when it is numbered.
pub proof fn law_example_always_counts<'a>(
    count: int,
    caption_attr: Option<&'a str>,
    doc_label: Option<&'a str>,
)
    ensures
        caption_of(CaptionKind::Example, count, caption_attr, doc_label).1 == count + 1,
        caption_of(CaptionKind::Figure, count, caption_attr, doc_label).1 == if (caption_of(
            CaptionKind::Figure,
            count,
            caption_attr,
            doc_label,
        ).0 is Numbered) {
            count + 1
        } else {
            count
        },
{
}

} // verus!
