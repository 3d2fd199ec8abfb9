//! Footnotes, header authors and the revision line as document data.

use vstd::prelude::*;
use crate::counters::{nat_chars, nat_text};
use crate::render::NameMap;
use crate::text::{chars_of, push_all, string_of};

verus! {

// ---------------------------------------------------------------------------
// Footnotes
// ---------------------------------------------------------------------------

/// A footnote definition.
#[derive(Debug, Clone, PartialEq, Eq)]
pub struct Footnote {
    /// 1-based document-order number.
    pub number: usize,
    /// Anchor id of a named footnote.
    pub id: Option<String>,
    /// Footnote text as plain text.
    pub text: String,
}

pub open spec fn opt_string_view(o: Option<String>) -> Option<Seq<char>> {
    match o {
        Some(s) => Some(s@),
        None => None,
    }
}

pub open spec fn opt_str_view(o: Option<&str>) -> Option<Seq<char>> {
    match o {
        Some(s) => Some(s@),
        None => None,
    }
}

/// Footnote numbering and the named-footnote registry.
pub struct FootnoteRegistry {
    footnotes: Vec<Footnote>,
    by_id: NameMap<usize>,
}

impl FootnoteRegistry {
    /// The definitions in document order.
    pub closed spec fn notes(&self) -> Seq<Footnote> {
        self.footnotes@
    }

    /// Footnote ids to the number of their newest definition.
    pub closed spec fn ids(&self) -> Map<Seq<char>, usize> {
        self.by_id.view()
    }

    pub closed spec fn wf(&self) -> bool {
        self.by_id.wf()
    }

    pub fn new() -> (r: Self)
        ensures
            r.wf(),
            r.notes() == Seq::<Footnote>::empty(),
            r.ids() == Map::<Seq<char>, usize>::empty(),
    {
        FootnoteRegistry { footnotes: Vec::new(), by_id: NameMap::new() }
    }

    /// Registers the next footnote definition and returns its number.
    pub fn define(&mut self, id: Option<&str>, text: &str) -> (n: usize)
        requires
            old(self).wf(),
            old(self).notes().len() + 1 < usize::MAX,
        ensures
            final(self).wf(),
            n == old(self).notes().len() + 1,
            final(self).notes().len() == n,
            final(self).notes().take(n - 1) == old(self).notes(),
            final(self).notes()[n - 1].number == n,
            opt_string_view(final(self).notes()[n - 1].id) == opt_str_view(id),
            final(self).notes()[n - 1].text@ == text@,
            final(self).ids() == match id {
                Some(i) => old(self).ids().insert(i@, n),
                None => old(self).ids(),
            },
    {
        let number = self.footnotes.len() + 1;
        let id_owned = match id {
            Some(i) => {
                let iv = chars_of(i);
                self.by_id.insert(iv.as_slice(), number);
                Some(string_of(iv.as_slice()))
            },
            None => None,
        };
        let tv = chars_of(text);
        self.footnotes.push(Footnote { number, id: id_owned, text: string_of(tv.as_slice()) });
        assert(self.footnotes@.take(number - 1) =~= old(self).footnotes@);
        number
    }

    /// Number of the named footnote `id` refers to, if defined.
    pub fn lookup(&self, id: &str) -> (r: Option<usize>)
        requires
            self.wf(),
        ensures
            match r {
                Some(n) => self.ids().contains_key(id@) && self.ids()[id@] == n,
                None => !self.ids().contains_key(id@),
            },
    {
        let iv = chars_of(id);
        self.by_id.get(iv.as_slice())
    }

    /// All definitions in document order.
    pub fn footnotes(&self) -> (r: &[Footnote])
        ensures
            r@ == self.notes(),
    {
        self.footnotes.as_slice()
    }

    pub fn is_empty(&self) -> (r: bool)
        ensures
            r == (self.notes().len() == 0),
    {
        self.footnotes.len() == 0
    }
}

/// A named footnote can be referenced by its id as soon as it is defined,
/// and a redefinition points the id at the newest number; other ids are
/// unaffected.
pub proof fn law_footnote_lookup(ids: Map<Seq<char>, usize>, id: Seq<char>, other: Seq<char>, n: usize)
    requires
        other != id,
    ensures
        ids.insert(id, n).contains_key(id),
        ids.insert(id, n)[id] == n,
        ids.insert(id, n).contains_key(other) == ids.contains_key(other),
        ids.contains_key(other) ==> ids.insert(id, n)[other] == ids[other],
{
}

// ---------------------------------------------------------------------------
// Authors
// ---------------------------------------------------------------------------

/// An author from the document header.
#[derive(Debug, Clone, PartialEq, Eq)]
pub struct Author {
    pub fullname: String,
    pub firstname: String,
    pub middlename: String,
    pub lastname: String,
    pub initials: String,
    /// Email address (or other contact), empty when absent.
    pub address: String,
}

/// `""` for the first author, else the 1-based number.
pub open spec fn id_suffix_of(index: int) -> Seq<char> {
    if index == 0 {
        Seq::empty()
    } else {
        nat_text((index + 1) as nat)
    }
}

/// `""` for the first author, else `_` and the 1-based number.
pub open spec fn name_suffix_of(index: int) -> Seq<char> {
    if index == 0 {
        Seq::empty()
    } else {
        seq!['_'] + nat_text((index + 1) as nat)
    }
}

pub open spec fn lit_author() -> Seq<char> {
    seq!['a', 'u', 't', 'h', 'o', 'r']
}

pub open spec fn lit_firstname() -> Seq<char> {
    seq!['f', 'i', 'r', 's', 't', 'n', 'a', 'm', 'e']
}

pub open spec fn lit_middlename() -> Seq<char> {
    seq!['m', 'i', 'd', 'd', 'l', 'e', 'n', 'a', 'm', 'e']
}

pub open spec fn lit_lastname() -> Seq<char> {
    seq!['l', 'a', 's', 't', 'n', 'a', 'm', 'e']
}

pub open spec fn lit_authorinitials() -> Seq<char> {
    seq!['a', 'u', 't', 'h', 'o', 'r', 'i', 'n', 'i', 't', 'i', 'a', 'l', 's']
}

pub open spec fn lit_email() -> Seq<char> {
    seq!['e', 'm', 'a', 'i', 'l']
}

/// The attribute entries the author at `index` implies: author, firstname,
/// middlename (when not empty), lastname, authorinitials, email (when not
/// empty), each name with the author's suffix.
pub open spec fn author_entries(a: Author, index: int) -> Seq<(Seq<char>, Seq<char>)> {
    let sfx = name_suffix_of(index);
    let head = seq![(lit_author() + sfx, a.fullname@), (lit_firstname() + sfx, a.firstname@)];
    let mid = if a.middlename@.len() > 0 {
        head.push((lit_middlename() + sfx, a.middlename@))
    } else {
        head
    };
    let tail = mid.push((lit_lastname() + sfx, a.lastname@)).push(
        (lit_authorinitials() + sfx, a.initials@),
    );
    if a.address@.len() > 0 {
        tail.push((lit_email() + sfx, a.address@))
    } else {
        tail
    }
}

pub open spec fn pairs_view(v: Seq<(String, String)>) -> Seq<(Seq<char>, Seq<char>)> {
    v.map_values(|p: (String, String)| (p.0@, p.1@))
}

/// Authors collected from the document header.
pub struct AuthorRegistry {
    authors: Vec<Author>,
}

fn suffix_number(index: usize) -> (r: Vec<char>)
    requires
        index < usize::MAX,
    ensures
        r@ == nat_text((index + 1) as nat),
{
    nat_chars((index + 1) as u64)
}

fn entry(name: &[char], sfx: &[char], value: &String) -> (r: (String, String))
    ensures
        r.0@ == name@ + sfx@,
        r.1@ == value@,
{
    let mut n = crate::text::slice_vec(name, 0, name.len());
    assert(n@ =~= name@);
    push_all(&mut n, sfx);
    let vv = chars_of(value.as_str());
    (string_of(n.as_slice()), string_of(vv.as_slice()))
}

impl AuthorRegistry {
    pub closed spec fn view(&self) -> Seq<Author> {
        self.authors@
    }

    pub fn new() -> (r: Self)
        ensures
            r.view() == Seq::<Author>::empty(),
    {
        AuthorRegistry { authors: Vec::new() }
    }

    /// HTML-id suffix for the author at `index`.
    pub fn id_suffix(index: usize) -> (r: String)
        requires
            index < usize::MAX,
        ensures
            r@ == id_suffix_of(index as int),
    {
        if index == 0 {
            let e: Vec<char> = Vec::new();
            assert(e@ =~= Seq::<char>::empty());
            string_of(e.as_slice())
        } else {
            let v = suffix_number(index);
            string_of(v.as_slice())
        }
    }

    fn name_suffix_chars(index: usize) -> (r: Vec<char>)
        requires
            index < usize::MAX,
        ensures
            r@ == name_suffix_of(index as int),
    {
        if index == 0 {
            let e: Vec<char> = Vec::new();
            assert(e@ =~= Seq::<char>::empty());
            e
        } else {
            let mut v = vec!['_'];
            let d = suffix_number(index);
            push_all(&mut v, d.as_slice());
            assert(v@ =~= seq!['_'] + nat_text((index + 1) as nat));
            v
        }
    }

    /// Document-attribute-name suffix for the author at `index`.
    pub fn name_suffix(index: usize) -> (r: String)
        requires
            index < usize::MAX,
        ensures
            r@ == name_suffix_of(index as int),
    {
        let v = Self::name_suffix_chars(index);
        string_of(v.as_slice())
    }

    /// Registers the next author; the attribute entries it implies.
    pub fn add(&mut self, author: Author) -> (r: Vec<(String, String)>)
        requires
            old(self).view().len() < usize::MAX,
        ensures
            final(self).view() == old(self).view().push(author),
            pairs_view(r@) == author_entries(author, old(self).view().len() as int),
    {
        let sfx = Self::name_suffix_chars(self.authors.len());
        let n_author = vec!['a', 'u', 't', 'h', 'o', 'r'];
        assert(n_author@ == lit_author());
        let n_first = vec!['f', 'i', 'r', 's', 't', 'n', 'a', 'm', 'e'];
        assert(n_first@ == lit_firstname());
        let n_middle = vec!['m', 'i', 'd', 'd', 'l', 'e', 'n', 'a', 'm', 'e'];
        assert(n_middle@ == lit_middlename());
        let n_last = vec!['l', 'a', 's', 't', 'n', 'a', 'm', 'e'];
        assert(n_last@ == lit_lastname());
        let n_init = vec!['a', 'u', 't', 'h', 'o', 'r', 'i', 'n', 'i', 't', 'i', 'a', 'l', 's'];
        assert(n_init@ == lit_authorinitials());
        let n_email = vec!['e', 'm', 'a', 'i', 'l'];
        assert(n_email@ == lit_email());
        let mut entries: Vec<(String, String)> = Vec::new();
        entries.push(entry(n_author.as_slice(), sfx.as_slice(), &author.fullname));
        entries.push(entry(n_first.as_slice(), sfx.as_slice(), &author.firstname));
        if !author.middlename.as_str().is_empty() {
            entries.push(entry(n_middle.as_slice(), sfx.as_slice(), &author.middlename));
        }
        entries.push(entry(n_last.as_slice(), sfx.as_slice(), &author.lastname));
        entries.push(entry(n_init.as_slice(), sfx.as_slice(), &author.initials));
        if !author.address.as_str().is_empty() {
            entries.push(entry(n_email.as_slice(), sfx.as_slice(), &author.address));
        }
        assert(pairs_view(entries@) =~= author_entries(author, old(self).view().len() as int));
        self.authors.push(author);
        entries
    }

    /// All authors in document order.
    pub fn authors(&self) -> (r: &[Author])
        ensures
            r@ == self.view(),
    {
        self.authors.as_slice()
    }

    pub fn is_empty(&self) -> (r: bool)
        ensures
            r == (self.view().len() == 0),
    {
        self.authors.len() == 0
    }
}

// ---------------------------------------------------------------------------
// Revision
// ---------------------------------------------------------------------------

/// The revision line from the document header.
#[derive(Debug, Clone, PartialEq, Eq)]
pub struct Revision {
    pub version: String,
    pub date: String,
    pub remark: String,
}

impl Default for Revision {
    fn default() -> (r: Self)
        ensures
            r.version@.len() == 0,
            r.date@.len() == 0,
            r.remark@.len() == 0,
    {
        let e: Vec<char> = Vec::new();
        Revision {
            version: string_of(e.as_slice()),
            date: string_of(e.as_slice()),
            remark: string_of(e.as_slice()),
        }
    }
}

pub open spec fn str_pairs_view(v: Seq<(&str, &str)>) -> Seq<(Seq<char>, Seq<char>)> {
    v.map_values(|p: (&str, &str)| (p.0@, p.1@))
}

pub open spec fn lit_revnumber() -> Seq<char> {
    seq!['r', 'e', 'v', 'n', 'u', 'm', 'b', 'e', 'r']
}

pub open spec fn lit_revdate() -> Seq<char> {
    seq!['r', 'e', 'v', 'd', 'a', 't', 'e']
}

pub open spec fn lit_revremark() -> Seq<char> {
    seq!['r', 'e', 'v', 'r', 'e', 'm', 'a', 'r', 'k']
}

/// The entries a revision implies: `revnumber`, `revdate`, `revremark`,
/// each only when its component is not empty.
pub open spec fn revision_entries(r: Revision) -> Seq<(Seq<char>, Seq<char>)> {
    let a: Seq<(Seq<char>, Seq<char>)> = if r.version@.len() > 0 {
        seq![(lit_revnumber(), r.version@)]
    } else {
        Seq::empty()
    };
    let b = if r.date@.len() > 0 {
        a.push((lit_revdate(), r.date@))
    } else {
        a
    };
    if r.remark@.len() > 0 {
        b.push((lit_revremark(), r.remark@))
    } else {
        b
    }
}

/// The version without one leading `v` or `V`.
pub open spec fn display_version_of(v: Seq<char>) -> Seq<char> {
    if v.len() > 0 && (v[0] == 'v' || v[0] == 'V') {
        v.skip(1)
    } else {
        v
    }
}

impl Revision {
    /// Document-attribute entries this revision implies.
    pub fn attr_entries(&self) -> (r: Vec<(&'static str, &str)>)
        ensures
            str_pairs_view(r@) == revision_entries(*self),
    {
        let mut entries: Vec<(&'static str, &str)> = Vec::new();
        let revnumber = "revnumber";
        let revdate = "revdate";
        let revremark = "revremark";
        proof {
            reveal_strlit("revnumber");
            reveal_strlit("revdate");
            reveal_strlit("revremark");
        }
        assert(revnumber@ =~= lit_revnumber());
        assert(revdate@ =~= lit_revdate());
        assert(revremark@ =~= lit_revremark());
        if !self.version.as_str().is_empty() {
            entries.push((revnumber, self.version.as_str()));
        }
        if !self.date.as_str().is_empty() {
            entries.push((revdate, self.date.as_str()));
        }
        if !self.remark.as_str().is_empty() {
            entries.push((revremark, self.remark.as_str()));
        }
        assert(str_pairs_view(entries@) =~= revision_entries(*self));
        entries
    }

    /// Version as displayed: one leading `v`/`V` stripped.
    pub fn display_version(&self) -> (r: &str)
        ensures
            r@ == display_version_of(self.version@),
    {
        let v = chars_of(self.version.as_str());
        let s = self.version.as_str();
        if v.len() > 0 && (v[0] == 'v' || v[0] == 'V') {
            s.substring_char(1, v.len())
        } else {
            s.substring_char(0, v.len())
        }
    }
}

} // verus!
