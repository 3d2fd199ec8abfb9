//! Document attribute tables: a finite map from attribute names to values
//! and a finite set of names, each kept as a list of distinct entries.

use vstd::prelude::*;
use crate::text::{chars_of, range_eq, string_of};

verus! {

/// Whether `a` and `b` hold the same chars.
pub fn same_chars(a: &[char], b: &[char]) -> (r: bool)
    ensures
        r == (a@ == b@),
{
    let n = a.len();
    let r = range_eq(a, 0, n, b);
    assert(a@.subrange(0, n as int) =~= a@);
    r
}

/// Attribute names to values.
pub struct AttrMap {
    keys: Vec<Vec<char>>,
    vals: Vec<Vec<char>>,
    map: Ghost<Map<Seq<char>, Seq<char>>>,
}

impl View for AttrMap {
    type V = Map<Seq<char>, Seq<char>>;

    closed spec fn view(&self) -> Map<Seq<char>, Seq<char>> {
        self.map@
    }
}

impl AttrMap {
    /// The entries are distinct by name and are exactly the map.
    pub closed spec fn wf(&self) -> bool {
        &&& self.keys@.len() == self.vals@.len()
        &&& forall|i: int|
            0 <= i < self.keys@.len() ==> self.map@.contains_key(#[trigger] self.keys@[i]@)
                && self.map@[self.keys@[i]@] == self.vals@[i]@
        &&& forall|k: Seq<char>|
            #[trigger] self.map@.contains_key(k) ==> exists|i: int|
                0 <= i < self.keys@.len() && #[trigger] self.keys@[i]@ == k
        &&& forall|i: int, j: int|
            0 <= i < self.keys@.len() && 0 <= j < self.keys@.len() && i != j ==> (
            #[trigger] self.keys@[i])@ != (#[trigger] self.keys@[j])@
    }

    pub fn new() -> (m: AttrMap)
        ensures
            m.wf(),
            m@ == Map::<Seq<char>, Seq<char>>::empty(),
    {
        AttrMap { keys: Vec::new(), vals: Vec::new(), map: Ghost(Map::empty()) }
    }

    fn index_of(&self, k: &[char]) -> (r: Option<usize>)
        requires
            self.wf(),
        ensures
            match r {
                Some(i) => i < self.keys@.len() && self.keys@[i as int]@ == k@,
                None => !self@.contains_key(k@),
            },
    {
        let mut i: usize = 0;
        while i < self.keys.len()
            invariant
                self.wf(),
                i <= self.keys@.len(),
                forall|j: int| 0 <= j < i ==> (#[trigger] self.keys@[j])@ != k@,
            decreases self.keys@.len() - i,
        {
            if same_chars(self.keys[i].as_slice(), k) {
                return Some(i);
            }
            i += 1;
        }
        None
    }

    /// The value of `k`.
    pub fn get_chars(&self, k: &[char]) -> (r: Option<Vec<char>>)
        requires
            self.wf(),
        ensures
            match r {
                Some(v) => self@.contains_key(k@) && v@ == self@[k@],
                None => !self@.contains_key(k@),
            },
    {
        match self.index_of(k) {
            Some(i) => Some(self.vals[i].clone()),
            None => None,
        }
    }

    pub fn contains_chars(&self, k: &[char]) -> (r: bool)
        requires
            self.wf(),
        ensures
            r == self@.contains_key(k@),
    {
        self.index_of(k).is_some()
    }

    /// Sets `k` to `v`.
    pub fn insert_chars(&mut self, k: &[char], v: &[char])
        requires
            old(self).wf(),
        ensures
            final(self).wf(),
            final(self)@ == old(self)@.insert(k@, v@),
    {
        let vv = crate::text::slice_vec(v, 0, v.len());
        assert(vv@ =~= v@);
        match self.index_of(k) {
            Some(i) => {
                self.vals.set(i, vv);
                self.map = Ghost(self.map@.insert(k@, v@));
                assert forall|kk: Seq<char>| #[trigger] self.map@.contains_key(kk) implies exists|
                    j: int,
                | 0 <= j < self.keys@.len() && #[trigger] self.keys@[j]@ == kk by {
                    if kk != k@ {
                        assert(old(self)@.contains_key(kk));
                        let j = choose|j: int|
                            0 <= j < old(self).keys@.len() && #[trigger] old(self).keys@[j]@
                                == kk;
                        assert(self.keys@[j]@ == kk);
                    } else {
                        assert(self.keys@[i as int]@ == kk);
                    }
                }
            },
            None => {
                let kv = crate::text::slice_vec(k, 0, k.len());
                assert(kv@ =~= k@);
                self.keys.push(kv);
                self.vals.push(vv);
                self.map = Ghost(self.map@.insert(k@, v@));
                let ghost n = self.keys@.len() - 1;
                assert(self.keys@[n]@ == k@);
                assert forall|kk: Seq<char>| #[trigger] self.map@.contains_key(kk) implies exists|
                    j: int,
                | 0 <= j < self.keys@.len() && #[trigger] self.keys@[j]@ == kk by {
                    if kk != k@ {
                        assert(old(self)@.contains_key(kk));
                        let j = choose|j: int|
                            0 <= j < old(self).keys@.len() && #[trigger] old(self).keys@[j]@
                                == kk;
                        assert(self.keys@[j]@ == kk);
                    } else {
                        assert(self.keys@[n]@ == kk);
                    }
                }
            },
        }
    }

    /// Removes `k`.
    pub fn remove_chars(&mut self, k: &[char])
        requires
            old(self).wf(),
        ensures
            final(self).wf(),
            final(self)@ == old(self)@.remove(k@),
    {
        match self.index_of(k) {
            Some(i) => {
                let ghost ok = self.keys@;
                let ghost ov = self.vals@;
                self.keys.swap_remove(i);
                self.vals.swap_remove(i);
                self.map = Ghost(self.map@.remove(k@));
                let ghost last = ok.len() - 1;
                assert forall|j: int| 0 <= j < self.keys@.len() implies self.map@.contains_key(
                    #[trigger] self.keys@[j]@,
                ) && self.map@[self.keys@[j]@] == self.vals@[j]@ by {
                    if j == i {
                        assert(self.keys@[j] == ok[last]);
                        assert(self.vals@[j] == ov[last]);
                        assert(ok[last]@ != ok[i as int]@);
                    } else {
                        assert(self.keys@[j] == ok[j]);
                        assert(ok[j]@ != ok[i as int]@);
                    }
                }
                assert forall|kk: Seq<char>| #[trigger] self.map@.contains_key(kk) implies exists|
                    j: int,
                | 0 <= j < self.keys@.len() && #[trigger] self.keys@[j]@ == kk by {
                    assert(old(self)@.contains_key(kk));
                    let j = choose|j: int| 0 <= j < ok.len() && #[trigger] ok[j]@ == kk;
                    assert(j != i);
                    if j == last {
                        assert(self.keys@[i as int]@ == kk);
                    } else {
                        assert(self.keys@[j]@ == kk);
                    }
                }
                assert forall|a: int, b: int|
                    0 <= a < self.keys@.len() && 0 <= b < self.keys@.len() && a != b implies (
                    #[trigger] self.keys@[a])@ != (#[trigger] self.keys@[b])@ by {
                    let oa = if a == i { last } else { a };
                    let ob = if b == i { last } else { b };
                    assert(self.keys@[a] == ok[oa]);
                    assert(self.keys@[b] == ok[ob]);
                }
            },
            None => {
                assert(self.map@.remove(k@) =~= self.map@);
            },
        }
    }

    /// The value of attribute `name`.
    pub fn get(&self, name: &str) -> (r: Option<String>)
        requires
            self.wf(),
        ensures
            match r {
                Some(v) => self@.contains_key(name@) && v@ == self@[name@],
                None => !self@.contains_key(name@),
            },
    {
        let k = chars_of(name);
        match self.get_chars(k.as_slice()) {
            Some(v) => Some(string_of(v.as_slice())),
            None => None,
        }
    }

    pub fn contains_key(&self, name: &str) -> (r: bool)
        requires
            self.wf(),
        ensures
            r == self@.contains_key(name@),
    {
        let k = chars_of(name);
        self.contains_chars(k.as_slice())
    }

    /// Sets attribute `name` to `value`.
    pub fn insert(&mut self, name: &str, value: &str)
        requires
            old(self).wf(),
        ensures
            final(self).wf(),
            final(self)@ == old(self)@.insert(name@, value@),
    {
        let k = chars_of(name);
        let v = chars_of(value);
        self.insert_chars(k.as_slice(), v.as_slice());
    }

    /// Unsets attribute `name`.
    pub fn remove(&mut self, name: &str)
        requires
            old(self).wf(),
        ensures
            final(self).wf(),
            final(self)@ == old(self)@.remove(name@),
    {
        let k = chars_of(name);
        self.remove_chars(k.as_slice());
    }
}

/// A finite set of names.
pub struct NameSet {
    names: Vec<Vec<char>>,
    set: Ghost<Set<Seq<char>>>,
}

impl View for NameSet {
    type V = Set<Seq<char>>;

    closed spec fn view(&self) -> Set<Seq<char>> {
        self.set@
    }
}

impl NameSet {
    pub closed spec fn wf(&self) -> bool {
        &&& forall|i: int| 0 <= i < self.names@.len() ==> self.set@.contains(#[trigger] self.names@[i]@)
        &&& forall|k: Seq<char>|
            #[trigger] self.set@.contains(k) ==> exists|i: int|
                0 <= i < self.names@.len() && #[trigger] self.names@[i]@ == k
    }

    pub fn new() -> (s: NameSet)
        ensures
            s.wf(),
            s@ == Set::<Seq<char>>::empty(),
    {
        NameSet { names: Vec::new(), set: Ghost(Set::empty()) }
    }

    pub fn contains_chars(&self, k: &[char]) -> (r: bool)
        requires
            self.wf(),
        ensures
            r == self@.contains(k@),
    {
        let mut i: usize = 0;
        while i < self.names.len()
            invariant
                self.wf(),
                i <= self.names@.len(),
                forall|j: int| 0 <= j < i ==> (#[trigger] self.names@[j])@ != k@,
            decreases self.names@.len() - i,
        {
            if same_chars(self.names[i].as_slice(), k) {
                return true;
            }
            i += 1;
        }
        false
    }

    pub fn insert_chars(&mut self, k: &[char])
        requires
            old(self).wf(),
        ensures
            final(self).wf(),
            final(self)@ == old(self)@.insert(k@),
    {
        if self.contains_chars(k) {
            assert(self.set@.insert(k@) =~= self.set@);
        } else {
            let kv = crate::text::slice_vec(k, 0, k.len());
            assert(kv@ =~= k@);
            self.names.push(kv);
            self.set = Ghost(self.set@.insert(k@));
            let ghost n = self.names@.len() - 1;
            assert(self.names@[n]@ == k@);
            assert forall|kk: Seq<char>| #[trigger] self.set@.contains(kk) implies exists|j: int|
                0 <= j < self.names@.len() && #[trigger] self.names@[j]@ == kk by {
                if kk != k@ {
                    assert(old(self)@.contains(kk));
                    let j = choose|j: int|
                        0 <= j < old(self).names@.len() && #[trigger] old(self).names@[j]@ == kk;
                    assert(self.names@[j]@ == kk);
                } else {
                    assert(self.names@[n]@ == kk);
                }
            }
        }
    }

    pub fn is_empty(&self) -> (r: bool)
        requires
            self.wf(),
        ensures
            r == (self@ == Set::<Seq<char>>::empty()),
    {
        if self.names.len() == 0 {
            assert(self.set@ =~= Set::<Seq<char>>::empty());
            true
        } else {
            assert(self.set@.contains(self.names@[0]@));
            false
        }
    }

    pub fn contains(&self, name: &str) -> (r: bool)
        requires
            self.wf(),
        ensures
            r == self@.contains(name@),
    {
        let k = chars_of(name);
        self.contains_chars(k.as_slice())
    }

    pub fn insert(&mut self, name: &str)
        requires
            old(self).wf(),
        ensures
            final(self).wf(),
            final(self)@ == old(self)@.insert(name@),
    {
        let k = chars_of(name);
        self.insert_chars(k.as_slice());
    }
}

} // verus!
