//! Cross-reference lookup over the section, block and bibliography
//! registries a renderer accumulates, and inter-document targets.

use vstd::prelude::*;
use crate::render::NameMap;
use crate::text::{chars_of, contains, ends_with, ends_with_at, find, find_at, push_all, slice_vec, starts_with, string_of};

verus! {

/// Reference text registered for an anchor: plain text (to be escaped by
/// the consumer) or markup (inserted verbatim).
#[derive(Clone, Copy, Debug, PartialEq, Eq)]
pub enum RefText<'a> {
    Plain(&'a str),
    Markup(&'a str),
}

/// The resolver as maps: anchor id to link text, and section title to
/// section id.
pub struct XrefView<'a> {
    pub ids: Map<Seq<char>, RefText<'a>>,
    pub titles: Map<Seq<char>, &'a str>,
}

/// After registering a section: its id's text is the title (the last
/// registration of an id wins); a title keeps its first section.
pub open spec fn with_section<'a>(v: XrefView<'a>, id: &'a str, title: &'a str) -> XrefView<'a> {
    XrefView {
        ids: v.ids.insert(id@, RefText::Plain(title)),
        titles: if v.titles.contains_key(title@) {
            v.titles
        } else {
            v.titles.insert(title@, id)
        },
    }
}

/// After registering a block: an id already registered keeps its text.
pub open spec fn with_block<'a>(v: XrefView<'a>, id: &'a str, text: RefText<'a>) -> XrefView<'a> {
    XrefView {
        ids: if v.ids.contains_key(id@) {
            v.ids
        } else {
            v.ids.insert(id@, text)
        },
        titles: v.titles,
    }
}

/// Link text for an unlabeled xref: a registered id wins, then a section
/// title resolves to that section's text.
pub open spec fn link_of<'a>(v: XrefView<'a>, target: Seq<char>) -> Option<RefText<'a>> {
    if v.ids.contains_key(target) {
        Some(v.ids[target])
    } else if v.titles.contains_key(target) && v.ids.contains_key(v.titles[target]@) {
        Some(v.ids[v.titles[target]@])
    } else {
        None
    }
}

/// Anchor id for an internal xref href: a registered id stays, a section
/// title becomes its section's id, anything else stays.
pub open spec fn href_of<'a>(v: XrefView<'a>, target: &'a str) -> &'a str {
    if v.ids.contains_key(target@) {
        target
    } else if v.titles.contains_key(target@) {
        v.titles[target@]
    } else {
        target
    }
}

/// Cross-reference lookup built from section, block and bibliography
/// registrations.
pub struct XrefResolver<'a> {
    id_to_text: NameMap<RefText<'a>>,
    title_to_id: NameMap<&'a str>,
}

impl<'a> XrefResolver<'a> {
    pub closed spec fn view(&self) -> XrefView<'a> {
        XrefView { ids: self.id_to_text.view(), titles: self.title_to_id.view() }
    }

    pub closed spec fn wf(&self) -> bool {
        self.id_to_text.wf() && self.title_to_id.wf()
    }

    pub fn new() -> (r: Self)
        ensures
            r.wf(),
            r.view().ids == Map::<Seq<char>, RefText<'a>>::empty(),
            r.view().titles == Map::<Seq<char>, &'a str>::empty(),
    {
        XrefResolver { id_to_text: NameMap::new(), title_to_id: NameMap::new() }
    }

    /// Registers a section.
    pub fn add_section(&mut self, id: &'a str, title: &'a str)
        requires
            old(self).wf(),
        ensures
            final(self).wf(),
            final(self).view() == with_section(old(self).view(), id, title),
    {
        let iv = chars_of(id);
        let tv = chars_of(title);
        self.id_to_text.insert(iv.as_slice(), RefText::Plain(title));
        if self.title_to_id.get(tv.as_slice()).is_none() {
            self.title_to_id.insert(tv.as_slice(), id);
        }
    }

    /// Registers a titled block or bibliography entry.
    pub fn add_block(&mut self, id: &'a str, reftext: RefText<'a>)
        requires
            old(self).wf(),
        ensures
            final(self).wf(),
            final(self).view() == with_block(old(self).view(), id, reftext),
    {
        let iv = chars_of(id);
        if self.id_to_text.get(iv.as_slice()).is_none() {
            self.id_to_text.insert(iv.as_slice(), reftext);
        }
    }

    /// Link text for an unlabeled xref to `target`.
    pub fn link_text(&self, target: &str) -> (r: Option<RefText<'a>>)
        requires
            self.wf(),
        ensures
            r == link_of(self.view(), target@),
    {
        let tv = chars_of(target);
        if let Some(t) = self.id_to_text.get(tv.as_slice()) {
            return Some(t);
        }
        match self.title_to_id.get(tv.as_slice()) {
            Some(id) => {
                let iv = chars_of(id);
                self.id_to_text.get(iv.as_slice())
            },
            None => None,
        }
    }

    /// Anchor id for an internal xref href to `target`.
    pub fn href_id(&self, target: &'a str) -> (r: &'a str)
        requires
            self.wf(),
        ensures
            r == href_of(self.view(), target),
    {
        let tv = chars_of(target);
        if self.id_to_text.get(tv.as_slice()).is_some() {
            target
        } else {
            match self.title_to_id.get(tv.as_slice()) {
                Some(id) => id,
                None => target,
            }
        }
    }
}

/// A section registered after a block with the same id takes the id over;
/// a block registered after a section with the same id leaves the
/// section's text.
pub proof fn law_sections_win<'a>(v: XrefView<'a>, id: &'a str, title: &'a str, text: RefText<'a>)
    ensures
        link_of(with_block(with_section(v, id, title), id, text), id@) == Some(
            RefText::Plain(title),
        ),
        link_of(with_section(with_block(v, id, text), id, title), id@) == Some(
            RefText::Plain(title),
        ),
{
}

/// Of two blocks registered with one id, the earlier keeps it.
pub proof fn law_earlier_block_wins<'a>(v: XrefView<'a>, id: &'a str, first: RefText<'a>, second: RefText<'a>)
    requires
        !v.ids.contains_key(id@),
    ensures
        link_of(with_block(with_block(v, id, first), id, second), id@) == Some(first),
{
}

/// The first section registered with a title keeps it for natural cross
/// references: a later section with the same title does not take it over.
pub proof fn law_first_title_wins<'a>(
    v: XrefView<'a>,
    a: &'a str,
    b: &'a str,
    title: &'a str,
)
    requires
        !v.titles.contains_key(title@),
        !v.ids.contains_key(title@),
        title@ != a@,
        title@ != b@,
    ensures
        href_of(with_section(with_section(v, a, title), b, title), title) == a,
        link_of(with_section(with_section(v, a, title), b, title), title@) == Some(
            RefText::Plain(title),
        ),
{
}

/// Default xreflabel for an unresolved internal reference: the target in
/// square brackets.
pub fn unresolved_xref_label(target: &str) -> (r: String)
    ensures
        r@ == seq!['['] + target@ + seq![']'],
{
    let t = chars_of(target);
    let mut v = vec!['['];
    push_all(&mut v, t.as_slice());
    v.push(']');
    assert(v@ =~= seq!['['] + target@ + seq![']']);
    string_of(v.as_slice())
}

/// Whether an xref target names another document (it has a dot and does
/// not start with `#`).
pub fn is_interdoc_xref_target(target: &str) -> (r: bool)
    ensures
        r == (contains(target@, seq!['.']) && !starts_with(target@, seq!['#'])),
{
    let t = chars_of(target);
    let dot = vec!['.'];
    assert(dot@ == seq!['.']);
    let hash = vec!['#'];
    assert(hash@ == seq!['#']);
    find_at(t.as_slice(), dot.as_slice()).is_some() && !crate::text::starts_with_at(
        t.as_slice(),
        hash.as_slice(),
    )
}

pub open spec fn lit_adoc() -> Seq<char> {
    seq!['.', 'a', 'd', 'o', 'c']
}

pub open spec fn lit_html() -> Seq<char> {
    seq!['.', 'h', 't', 'm', 'l']
}

/// An inter-document target for HTML: a final `.adoc` becomes `.html`, also
/// before a `#fragment`; other targets stay.
pub open spec fn interdoc_href_of(t: Seq<char>) -> Seq<char> {
    if ends_with(t, lit_adoc()) {
        t.take(t.len() - 5) + lit_html()
    } else {
        match find(t, seq!['#']) {
            Some(h) => if ends_with(t.take(h), lit_adoc()) {
                t.take(h - 5) + lit_html() + t.skip(h)
            } else {
                t
            },
            None => t,
        }
    }
}

/// Rewrites an inter-document xref target for HTML.
pub fn interdoc_xref_href(target: &str) -> (r: String)
    ensures
        r@ == interdoc_href_of(target@),
{
    let t = chars_of(target);
    let n = t.len();
    let adoc = vec!['.', 'a', 'd', 'o', 'c'];
    assert(adoc@ == lit_adoc());
    let html = vec!['.', 'h', 't', 'm', 'l'];
    assert(html@ == lit_html());
    if ends_with_at(t.as_slice(), adoc.as_slice()) {
        let mut v = slice_vec(t.as_slice(), 0, n - 5);
        push_all(&mut v, html.as_slice());
        assert(t@.subrange(0, n - 5) =~= t@.take(n - 5));
        return string_of(v.as_slice());
    }
    let hash = vec!['#'];
    assert(hash@ == seq!['#']);
    match find_at(t.as_slice(), hash.as_slice()) {
        Some(h) => {
            let file = slice_vec(t.as_slice(), 0, h);
            assert(file@ =~= t@.take(h as int));
            if ends_with_at(file.as_slice(), adoc.as_slice()) {
                let mut v = slice_vec(t.as_slice(), 0, h - 5);
                push_all(&mut v, html.as_slice());
                let rest = slice_vec(t.as_slice(), h, n);
                push_all(&mut v, rest.as_slice());
                assert(t@.subrange(0, h - 5) =~= t@.take(h - 5));
                assert(rest@ =~= t@.skip(h as int));
                string_of(v.as_slice())
            } else {
                string_of(t.as_slice())
            }
        },
        None => string_of(t.as_slice()),
    }
}

/// One registration made on a resolver.
pub enum XrefReg<'a> {
    /// `add_section(id, title)`.
    Section(&'a str, &'a str),
    /// `add_block(id, reftext)`.
    Block(&'a str, RefText<'a>),
}

pub open spec fn empty_xref_view<'a>() -> XrefView<'a> {
    XrefView { ids: Map::empty(), titles: Map::empty() }
}

/// The resolver after the registrations `regs`, made in order on a new one.
pub open spec fn registered<'a>(regs: Seq<XrefReg<'a>>) -> XrefView<'a>
    decreases regs.len(),
{
    if regs.len() == 0 {
        empty_xref_view()
    } else {
        let v = registered(regs.drop_last());
        match regs.last() {
            XrefReg::Section(id, title) => with_section(v, id, title),
            XrefReg::Block(id, text) => with_block(v, id, text),
        }
    }
}

/// Title of the last section registered with id `x`.
pub open spec fn last_section_title<'a>(regs: Seq<XrefReg<'a>>, x: Seq<char>) -> Option<&'a str>
    decreases regs.len(),
{
    if regs.len() == 0 {
        None
    } else {
        match regs.last() {
            XrefReg::Section(id, title) => if id@ == x {
                Some(title)
            } else {
                last_section_title(regs.drop_last(), x)
            },
            _ => last_section_title(regs.drop_last(), x),
        }
    }
}

/// Reference text of the first block registered with id `x`.
pub open spec fn first_block_text<'a>(regs: Seq<XrefReg<'a>>, x: Seq<char>) -> Option<RefText<'a>>
    decreases regs.len(),
{
    if regs.len() == 0 {
        None
    } else {
        match first_block_text(regs.drop_last(), x) {
            Some(t) => Some(t),
            None => match regs.last() {
                XrefReg::Block(id, text) => if id@ == x {
                    Some(text)
                } else {
                    None
                },
                _ => None,
            },
        }
    }
}

/// Id of the first section registered with title `t`.
pub open spec fn first_titled<'a>(regs: Seq<XrefReg<'a>>, t: Seq<char>) -> Option<&'a str>
    decreases regs.len(),
{
    if regs.len() == 0 {
        None
    } else {
        match first_titled(regs.drop_last(), t) {
            Some(id) => Some(id),
            None => match regs.last() {
                XrefReg::Section(id, title) => if title@ == t {
                    Some(id)
                } else {
                    None
                },
                _ => None,
            },
        }
    }
}

/// The text an id resolves to: the last section registered with it, else
/// the first block.
pub open spec fn id_text<'a>(regs: Seq<XrefReg<'a>>, x: Seq<char>) -> Option<RefText<'a>> {
    match last_section_title(regs, x) {
        Some(title) => Some(RefText::Plain(title)),
        None => first_block_text(regs, x),
    }
}

proof fn lemma_registered<'a>(regs: Seq<XrefReg<'a>>)
    ensures
        forall|x: Seq<char>|
            #![trigger registered(regs).ids.contains_key(x)]
            registered(regs).ids.contains_key(x) <==> id_text(regs, x) is Some,
        forall|x: Seq<char>|
            #![trigger registered(regs).ids[x]]
            registered(regs).ids.contains_key(x) ==> Some(registered(regs).ids[x]) == id_text(
                regs,
                x,
            ),
        forall|t: Seq<char>|
            #![trigger registered(regs).titles.contains_key(t)]
            registered(regs).titles.contains_key(t) <==> first_titled(regs, t) is Some,
        forall|t: Seq<char>|
            #![trigger registered(regs).titles[t]]
            registered(regs).titles.contains_key(t) ==> Some(registered(regs).titles[t])
                == first_titled(regs, t),
    decreases regs.len(),
{
    if regs.len() > 0 {
        let p = regs.drop_last();
        lemma_registered(p);
        let v = registered(p);
        match regs.last() {
            XrefReg::Section(id, title) => {
                assert forall|x: Seq<char>| #![auto] registered(regs).ids.contains_key(x) <==> id_text(regs, x) is Some by {
                    assert(v.ids.contains_key(x) <==> id_text(p, x) is Some);
                }
                assert forall|x: Seq<char>| #![auto] registered(regs).ids.contains_key(x) implies Some(registered(regs).ids[x]) == id_text(regs, x) by {
                    if x != id@ {
                        assert(v.ids.contains_key(x));
                        assert(Some(v.ids[x]) == id_text(p, x));
                    }
                }
                assert forall|t: Seq<char>| #![auto] registered(regs).titles.contains_key(t) <==> first_titled(regs, t) is Some by {
                    assert(v.titles.contains_key(t) <==> first_titled(p, t) is Some);
                }
                assert forall|t: Seq<char>| #![auto] registered(regs).titles.contains_key(t) implies Some(registered(regs).titles[t]) == first_titled(regs, t) by {
                    assert(v.titles.contains_key(t) <==> first_titled(p, t) is Some);
                    if v.titles.contains_key(t) {
                        assert(Some(v.titles[t]) == first_titled(p, t));
                    }
                }
            },
            XrefReg::Block(id, text) => {
                assert forall|x: Seq<char>| #![auto] registered(regs).ids.contains_key(x) <==> id_text(regs, x) is Some by {
                    assert(v.ids.contains_key(x) <==> id_text(p, x) is Some);
                }
                assert forall|x: Seq<char>| #![auto] registered(regs).ids.contains_key(x) implies Some(registered(regs).ids[x]) == id_text(regs, x) by {
                    assert(v.ids.contains_key(x) <==> id_text(p, x) is Some);
                    if v.ids.contains_key(x) {
                        assert(Some(v.ids[x]) == id_text(p, x));
                    }
                }
                assert forall|t: Seq<char>| #![auto] registered(regs).titles.contains_key(t) <==> first_titled(regs, t) is Some by {
                    assert(v.titles.contains_key(t) <==> first_titled(p, t) is Some);
                }
                assert forall|t: Seq<char>| #![auto] registered(regs).titles.contains_key(t) implies Some(registered(regs).titles[t]) == first_titled(regs, t) by {
                    assert(v.titles.contains_key(t));
                    assert(Some(v.titles[t]) == first_titled(p, t));
                }
            },
        }
    }
}

/// After any sequence of registrations on a new resolver, an unlabeled
/// xref to `t` shows: the title of the last section with id `t`, else the
/// text of the first block with id `t`, else, when `t` is a section title,
/// the text of the id of the first section with that title; otherwise
/// nothing.
pub proof fn law_link_text_after_registrations<'a>(regs: Seq<XrefReg<'a>>, t: Seq<char>)
    ensures
        link_of(registered(regs), t) == match id_text(regs, t) {
            Some(r) => Some(r),
            None => match first_titled(regs, t) {
                Some(id) => id_text(regs, id@),
                None => None,
            },
        },
{
    lemma_registered(regs);
    let v = registered(regs);
    assert(v.ids.contains_key(t) <==> id_text(regs, t) is Some);
    if v.ids.contains_key(t) {
        assert(Some(v.ids[t]) == id_text(regs, t));
    }
    assert(v.titles.contains_key(t) <==> first_titled(regs, t) is Some);
    if v.titles.contains_key(t) {
        assert(Some(v.titles[t]) == first_titled(regs, t));
        let id = v.titles[t];
        assert(v.ids.contains_key(id@) <==> id_text(regs, id@) is Some);
        if v.ids.contains_key(id@) {
            assert(Some(v.ids[id@]) == id_text(regs, id@));
        }
    }
}

} // verus!
