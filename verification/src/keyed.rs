//! Values kept by name: a vector of `(name, value)` entries in insertion
//! order, with a hash index from name to position.

use vstd::hash_map::StringHashMap;
use vstd::prelude::*;

verus! {

pub struct Keyed<V> {
    entries: Vec<(String, V)>,
    index: StringHashMap<usize>,
}

impl<V> Keyed<V> {
    /// The index and the entries agree: every entry is indexed at its
    /// position, every index points at an entry of that name.
    pub closed spec fn wf(&self) -> bool {
        &&& forall|i: int|
            0 <= i < self.entries@.len() ==> self.index@.contains_key(
                #[trigger] self.entries@[i].0@,
            ) && self.index@[self.entries@[i].0@] == i
        &&& forall|s: Seq<char>| #[trigger]
            self.index@.contains_key(s) ==> self.index@[s] < self.entries@.len()
                && self.entries@[self.index@[s] as int].0@ == s
    }

    /// The names present.
    pub closed spec fn names(&self) -> Set<Seq<char>> {
        self.index@.dom()
    }

    /// The value kept under `name`, for a present name.
    pub closed spec fn value(&self, name: Seq<char>) -> V {
        self.entries@[self.index@[name] as int].1
    }

    /// The entries, in insertion order.
    pub closed spec fn list(&self) -> Seq<(String, V)> {
        self.entries@
    }

    pub proof fn lemma_list(&self)
        requires
            self.wf(),
        ensures
            forall|i: int|
                0 <= i < self.list().len() ==> self.names().contains(#[trigger] self.list()[i].0@)
                    && self.value(self.list()[i].0@) == self.list()[i].1,
            forall|i: int, j: int|
                0 <= i < j < self.list().len() ==> self.list()[i].0@ != self.list()[j].0@,
            forall|s: Seq<char>|
                #[trigger] self.names().contains(s) ==> exists|i: int|
                    0 <= i < self.list().len() && self.list()[i].0@ == s,
    {
        assert forall|i: int, j: int|
            0 <= i < j < self.list().len() implies self.list()[i].0@ != self.list()[j].0@ by {
            if self.list()[i].0@ == self.list()[j].0@ {
                assert(self.index@[self.entries@[i].0@] == i);
                assert(self.index@[self.entries@[j].0@] == j);
            }
        }
        assert forall|s: Seq<char>| #[trigger] self.names().contains(s) implies exists|i: int|
            0 <= i < self.list().len() && self.list()[i].0@ == s by {
            let i = self.index@[s] as int;
            assert(self.list()[i].0@ == s);
        }
    }

    pub fn new() -> (k: Self)
        ensures
            k.wf(),
            k.names() == Set::<Seq<char>>::empty(),
    {
        let k = Keyed { entries: Vec::new(), index: StringHashMap::new() };
        assert(k.names() =~= Set::<Seq<char>>::empty());
        k
    }

    /// Position of `name`, if present.
    pub fn find(&self, name: &str) -> (r: Option<usize>)
        requires
            self.wf(),
        ensures
            match r {
                Some(i) => self.names().contains(name@) && i < self.list().len()
                    && self.list()[i as int].0@ == name@ && self.list()[i as int].1 == self.value(
                    name@,
                ),
                None => !self.names().contains(name@),
            },
    {
        match self.index.get(name) {
            Some(i) => Some(*i),
            None => None,
        }
    }

    /// The value at a position.
    pub fn at(&self, i: usize) -> (v: &V)
        requires
            i < self.list().len(),
        ensures
            *v == self.list()[i as int].1,
    {
        &self.entries[i].1
    }

    /// The entries, in insertion order.
    pub fn as_slice(&self) -> (s: &[(String, V)])
        ensures
            s@ == self.list(),
    {
        self.entries.as_slice()
    }

    /// Position of `name`, adding it with value `default` when absent.
    pub fn slot(&mut self, name: &str, default: V) -> (i: usize)
        requires
            old(self).wf(),
        ensures
            final(self).wf(),
            final(self).names() == old(self).names().insert(name@),
            i < final(self).list().len(),
            final(self).list()[i as int].0@ == name@,
            final(self).list()[i as int].1 == final(self).value(name@),
            final(self).value(name@) == (if old(self).names().contains(name@) {
                old(self).value(name@)
            } else {
                default
            }),
            forall|s: Seq<char>|
                #[trigger] old(self).names().contains(s) ==> final(self).value(s) == old(
                    self,
                ).value(s),
    {
        match self.index.get(name) {
            Some(i) => {
                let i = *i;
                assert(self.names().insert(name@) =~= self.names());
                i
            },
            None => {
                let i = self.entries.len();
                let key = name.to_owned();
                self.entries.push((key, default));
                self.index.insert(name.to_owned(), i);
                assert forall|j: int| 0 <= j < self.entries@.len() implies self.index@.contains_key(
                    #[trigger] self.entries@[j].0@,
                ) && self.index@[self.entries@[j].0@] == j by {
                    if j < i {
                        assert(old(self).index@.contains_key(old(self).entries@[j].0@));
                    }
                }
                assert(self.names() =~= old(self).names().insert(name@));
                i
            },
        }
    }

    /// Puts `v` at a position, handing back the value that was there.
    pub fn swap_at(&mut self, i: usize, v: V) -> (prev: V)
        requires
            old(self).wf(),
            i < old(self).list().len(),
        ensures
            final(self).wf(),
            final(self).names() == old(self).names(),
            prev == old(self).list()[i as int].1,
            final(self).list() == old(self).list().update(i as int, (old(self).list()[i as int].0, v)),
            final(self).value(old(self).list()[i as int].0@) == v,
            forall|s: Seq<char>|
                #[trigger] old(self).names().contains(s) && s != old(self).list()[i as int].0@
                    ==> final(self).value(s) == old(self).value(s),
    {
        let mut v = v;
        std::mem::swap(&mut v, &mut self.entries[i].1);
        assert(self.entries@ =~= old(self).entries@.update(i as int, (old(self).entries@[i as int].0, self.entries@[i as int].1)));
        v
    }
}

} // verus!
