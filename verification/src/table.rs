//! A map from names to raw texts, where both are slices of one source.
//!
//! The map keeps its names in the order in which they first came, so that
//! what it holds can be looked up by name and walked by index.

use crate::text::same_text;
use vstd::prelude::*;

verus! {

/// The names of a sequence of pairs, each as the text it holds.
pub open spec fn names_of<'s>(items: Seq<(&'s str, &'s str)>) -> Seq<Seq<char>> {
    Seq::new(items.len(), |i: int| items[i].0@)
}

/// Whether `i` is the first index at which `name` stands in `names`.
pub open spec fn first_at(names: Seq<Seq<char>>, name: Seq<char>, i: int) -> bool {
    &&& 0 <= i < names.len()
    &&& names[i] == name
    &&& forall|j: int| 0 <= j < i ==> names[j] != name
}

/// A map from names to raw texts that keeps the order in which the names
/// first came.
#[derive(Debug, Clone)]
pub struct RawTable<'s> {
    items: Vec<(&'s str, &'s str)>,
}

impl<'s> View for RawTable<'s> {
    type V = Map<Seq<char>, Seq<char>>;

    closed spec fn view(&self) -> Map<Seq<char>, Seq<char>> {
        Map::new(
            |k: Seq<char>| exists|i: int| first_at(names_of(self.items@), k, i),
            |k: Seq<char>| self.items@[choose|i: int| first_at(names_of(self.items@), k, i)].1@,
        )
    }
}

impl<'s> RawTable<'s> {
    /// The names, in the order in which they first came.
    pub closed spec fn order(self) -> Seq<Seq<char>> {
        names_of(self.items@)
    }

    /// No name stands twice. This holds of the empty map and is kept by
    /// every insertion.
    pub closed spec fn wf(self) -> bool {
        names_of(self.items@).no_duplicates()
    }

    /// Where no name stands twice, the names in order are the names of the
    /// map, and the map is as large as their number.
    pub proof fn lemma_order(self)
        requires
            self.wf(),
        ensures
            self.order().no_duplicates(),
            self.order().to_set() == self@.dom(),
            self@.dom().finite(),
            self@.len() == self.order().len(),
    {
        let names = names_of(self.items@);
        assert forall|k: Seq<char>| names.to_set().contains(k) <==> self@.dom().contains(k) by {
            if names.contains(k) {
                let i = choose|i: int| 0 <= i < names.len() && names[i] == k;
                assert(first_at(names, k, i));
            }
            if self@.dom().contains(k) {
                let i = choose|i: int| first_at(names, k, i);
                assert(names[i] == k);
            }
        }
        assert(names.to_set() =~= self@.dom());
        names.unique_seq_to_set();
        vstd::seq_lib::seq_to_set_is_finite(names);
    }

    /// The pair at the first index of a name is what the map holds under
    /// that name.
    proof fn lemma_lookup(self, name: Seq<char>, i: int)
        requires
            first_at(names_of(self.items@), name, i),
        ensures
            self@.contains_key(name),
            self@[name] == self.items@[i].1@,
    {
        let names = names_of(self.items@);
        let c = choose|c: int| first_at(names, name, c);
        assert(first_at(names, name, c));
        if c < i {
            assert(names[c] != name);
        }
        if i < c {
            assert(names[i] != name);
        }
    }

    /// The empty map.
    pub fn new() -> (table: Self)
        ensures
            table@ == Map::<Seq<char>, Seq<char>>::empty(),
            table.order() == Seq::<Seq<char>>::empty(),
            table.wf(),
    {
        let table = RawTable { items: Vec::new() };
        proof {
            assert(table@ =~= Map::<Seq<char>, Seq<char>>::empty());
            assert(table.order() =~= Seq::<Seq<char>>::empty());
        }
        table
    }

    /// The number of names.
    pub fn len(&self) -> (n: usize)
        ensures
            n == self.order().len(),
            self.wf() ==> n == self@.len() && self@.dom().finite(),
    {
        proof {
            if self.wf() {
                self.lemma_order();
            }
        }
        self.items.len()
    }

    /// Whether the map holds nothing.
    pub fn is_empty(&self) -> (r: bool)
        ensures
            r == (self@ == Map::<Seq<char>, Seq<char>>::empty()),
            r == (self.order().len() == 0),
    {
        proof {
            let names = names_of(self.items@);
            if names.len() == 0 {
                assert(self@ =~= Map::<Seq<char>, Seq<char>>::empty());
            } else {
                assert(first_at(names, names[0], 0));
                assert(self@.dom().contains(names[0]));
            }
        }
        self.items.len() == 0
    }

    /// The first index at which `name` stands, if it stands in the map.
    fn position(&self, name: &str) -> (r: Option<usize>)
        ensures
            match r {
                Some(i) => first_at(names_of(self.items@), name@, i as int),
                None => !self@.contains_key(name@),
            },
    {
        let mut i: usize = 0;
        while i < self.items.len()
            invariant
                0 <= i <= self.items@.len(),
                forall|j: int| 0 <= j < i ==> names_of(self.items@)[j] != name@,
            decreases self.items@.len() - i,
        {
            if same_text(self.items[i].0, name) {
                return Some(i);
            }
            i += 1;
        }
        proof {
            if self@.contains_key(name@) {
                let c = choose|c: int| first_at(names_of(self.items@), name@, c);
                assert(first_at(names_of(self.items@), name@, c));
            }
        }
        None
    }

    /// Whether the map holds `name`.
    pub fn contains_key(&self, name: &str) -> (r: bool)
        ensures
            r == self@.contains_key(name@),
    {
        match self.position(name) {
            Some(i) => {
                proof {
                    self.lemma_lookup(name@, i as int);
                }
                true
            },
            None => false,
        }
    }

    /// The raw text under `name`, if the map holds that name.
    pub fn get(&self, name: &str) -> (r: Option<&&'s str>)
        ensures
            match r {
                Some(text) => self@.contains_key(name@) && text@ == self@[name@],
                None => !self@.contains_key(name@),
            },
    {
        match self.position(name) {
            Some(i) => {
                proof {
                    self.lemma_lookup(name@, i as int);
                }
                Some(&self.items[i].1)
            },
            None => None,
        }
    }

    /// The name and the raw text at index `i` in the order in which the
    /// names first came, if there are that many.
    pub fn entry(&self, i: usize) -> (r: Option<(&'s str, &'s str)>)
        ensures
            r is Some <==> i < self.order().len(),
            r matches Some(pair) ==> pair.0@ == self.order()[i as int] && self@.contains_key(
                pair.0@,
            ) && (self.wf() ==> pair.1@ == self@[pair.0@]),
    {
        if i < self.items.len() {
            proof {
                let names = names_of(self.items@);
                assert(names[i as int] == self.items@[i as int].0@);
                if self.wf() {
                    assert(first_at(names, names[i as int], i as int));
                    self.lemma_lookup(names[i as int], i as int);
                } else {
                    self.lemma_first_exists(i as int);
                }
            }
            Some(self.items[i])
        } else {
            None
        }
    }

    /// A name that stands at some index stands at a first index.
    proof fn lemma_first_exists(self, i: int)
        requires
            0 <= i < self.items@.len(),
        ensures
            self@.contains_key(names_of(self.items@)[i]),
        decreases i,
    {
        let names = names_of(self.items@);
        if exists|j: int| 0 <= j < i && names[j] == names[i] {
            let j = choose|j: int| 0 <= j < i && names[j] == names[i];
            self.lemma_first_exists(j);
        } else {
            assert(first_at(names, names[i], i));
        }
    }

    /// Puts `text` under `name`. A name that the map holds already keeps
    /// its place and gets the new text.
    pub fn insert(&mut self, name: &'s str, text: &'s str)
        ensures
            final(self)@ == old(self)@.insert(name@, text@),
            final(self).order() == (if old(self)@.contains_key(name@) {
                old(self).order()
            } else {
                old(self).order().push(name@)
            }),
            final(self).wf() == old(self).wf(),
    {
        let ghost before = *self;
        let ghost names = names_of(before.items@);
        match self.position(name) {
            Some(i) => {
                proof {
                    before.lemma_lookup(name@, i as int);
                }
                let kept = self.items[i].0;
                self.items.set(i, (kept, text));
                proof {
                    assert(names_of(self.items@) =~= names);
                    assert forall|k: Seq<char>| #[trigger] before@.contains_key(k) implies self@[k]
                        == (if k == name@ {
                        text@
                    } else {
                        before@[k]
                    }) by {
                        let j = choose|j: int| first_at(names, k, j);
                        assert(first_at(names, k, j));
                        before.lemma_lookup(k, j);
                        self.lemma_lookup(k, j);
                    }
                    assert(self@ =~= before@.insert(name@, text@));
                }
            },
            None => {
                self.items.push((name, text));
                proof {
                    let after = names_of(self.items@);
                    assert(after =~= names.push(name@));
                    assert forall|k: Seq<char>| #[trigger] before@.contains_key(k) implies self@
                        .contains_key(k) && self@[k] == before@[k] by {
                        let j = choose|j: int| first_at(names, k, j);
                        assert(first_at(names, k, j));
                        assert(first_at(after, k, j));
                        before.lemma_lookup(k, j);
                        self.lemma_lookup(k, j);
                    }
                    assert forall|k: Seq<char>| #[trigger]
                        self@.contains_key(k) && k != name@ implies before@.contains_key(k) by {
                        let j = choose|j: int| first_at(after, k, j);
                        assert(first_at(after, k, j));
                        assert(after[names.len() as int] == name@);
                        assert(j < names.len());
                        assert forall|i: int| 0 <= i <= j implies names[i] == after[i] by {}
                        assert(first_at(names, k, j));
                    }
                    assert(first_at(after, name@, names.len() as int)) by {
                        assert forall|j: int| 0 <= j < names.len() implies after[j] != name@ by {
                            if names[j] == name@ {
                                before.lemma_first_exists(j);
                            }
                        }
                    }
                    self.lemma_lookup(name@, names.len() as int);
                    assert(self@ =~= before@.insert(name@, text@));
                    if before.wf() {
                        assert forall|a: int, b: int|
                            0 <= a < after.len() && 0 <= b < after.len() && a != b implies after[a]
                            != after[b] by {
                            if a < names.len() {
                                assert(names[a] == after[a]);
                            }
                            if b < names.len() {
                                assert(names[b] == after[b]);
                            }
                        }
                    }
                    if self.wf() {
                        assert forall|a: int, b: int|
                            0 <= a < names.len() && 0 <= b < names.len() && a != b implies names[a]
                            != names[b] by {
                            assert(names[a] == after[a]);
                            assert(names[b] == after[b]);
                        }
                    }
                }
            },
        }
    }
}

} // verus!
