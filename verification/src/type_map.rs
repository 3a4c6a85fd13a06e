use crate::component::{entry_at, TypeKey};
use crate::sorted_pairs::{
    has_key, keys_ascending, keys_descending, lemma_insert, lemma_not_found, lemma_pair_is_entry,
    lemma_remove, lemma_update, lower_bound, pair_entries, place_of, split_entries,
};
use vstd::prelude::*;

verus! {

/// A map from kinds to values: a set of values of different kinds, at most
/// one of each kind.
pub struct TypeMap<C> {
    components: Vec<(usize, C)>,
}

impl<C> TypeMap<C> {
    /// The values of the map with their kinds, in the order of the kinds.
    pub closed spec fn pairs(&self) -> Seq<(usize, C)> {
        self.components@
    }

    /// The values of the map, by kind.
    pub open spec fn entries(&self) -> Map<usize, C> {
        pair_entries(self.pairs())
    }

    /// The kinds are in order and none occurs twice.
    pub open spec fn wf(&self) -> bool {
        keys_ascending(self.pairs())
    }

    /// A map without values.
    pub fn new() -> (r: TypeMap<C>)
        ensures
            r.wf(),
            r.pairs().len() == 0,
            r.entries() == Map::<usize, C>::empty(),
    {
        let r = TypeMap { components: Vec::new() };
        assert(r.entries() =~= Map::<usize, C>::empty());
        r
    }

    /// Whether the map holds no value.
    pub fn is_empty(&self) -> (r: bool)
        ensures
            r == (self.pairs().len() == 0),
            self.wf() ==> r == (self.entries() == Map::<usize, C>::empty()),
    {
        proof {
            if self.wf() {
                if self.pairs().len() > 0 {
                    lemma_pair_is_entry(self.pairs(), 0);
                } else {
                    assert(self.entries() =~= Map::<usize, C>::empty());
                }
            }
        }
        self.components.len() == 0
    }

    /// The number of values in the map.
    pub fn len(&self) -> (r: usize)
        ensures
            r == self.pairs().len(),
    {
        self.components.len()
    }

    /// The value of the given kind, if the map holds one.
    pub fn get(&self, key: TypeKey) -> (r: Option<&C>)
        requires
            self.wf(),
        ensures
            match r {
                Some(c) => self.entries().contains_key(key.0) && *c == self.entries()[key.0],
                None => !self.entries().contains_key(key.0),
            },
    {
        let pos = lower_bound(self.components.as_slice(), 0, key.0);
        if pos < self.components.len() && self.components[pos].0 == key.0 {
            proof {
                lemma_pair_is_entry(self.pairs(), pos as int);
            }
            Some(&self.components[pos].1)
        } else {
            proof {
                lemma_not_found(self.pairs(), pos as int, key.0);
            }
            None
        }
    }

    /// The value of the given kind, if the map holds one, for writing.
    /// Whatever is written becomes the value of that kind; nothing else
    /// changes.
    pub fn get_mut(&mut self, key: TypeKey) -> (r: Option<&mut C>)
        requires
            old(self).wf(),
        ensures
            final(self).wf(),
            match r {
                Some(c) => {
                    &&& old(self).entries().contains_key(key.0)
                    &&& *c == old(self).entries()[key.0]
                    &&& final(self).entries() == old(self).entries().insert(key.0, *final(c))
                },
                None => {
                    &&& !old(self).entries().contains_key(key.0)
                    &&& final(self).entries() == old(self).entries()
                },
            },
    {
        let pos = lower_bound(self.components.as_slice(), 0, key.0);
        if pos < self.components.len() && self.components[pos].0 == key.0 {
            proof {
                lemma_pair_is_entry(self.pairs(), pos as int);
            }
            let pair = &mut self.components[pos];
            let value = &mut pair.1;
            proof {
                lemma_update(old(self).pairs(), pos as int, *final(value));
            }
            Some(value)
        } else {
            proof {
                lemma_not_found(self.pairs(), pos as int, key.0);
            }
            None
        }
    }

    /// All values of the map, each lent for writing beside the number of
    /// its kind, the one of the largest kind first. Whatever is written to
    /// a value becomes the value of its kind; nothing else changes.
    pub fn values_mut<'a>(&'a mut self) -> (items: Vec<(usize, &'a mut C)>)
        requires
            old(self).wf(),
        ensures
            final(self).wf(),
            keys_descending(items@),
            final(self).entries().dom() == old(self).entries().dom(),
            forall|k: usize| has_key(items@, k) <==> old(self).entries().contains_key(k),
            forall|k: usize| #[trigger]
                has_key(items@, k) ==> {
                    &&& *items@[place_of(items@, k)].1 == old(self).entries()[k]
                    &&& *final(items@[place_of(items@, k)].1) == final(self).entries()[k]
                },
    {
        split_entries(self.components.as_mut_slice())
    }

    /// Puts the value into the map and returns the one of the same kind
    /// that was there before.
    pub fn insert(&mut self, key: TypeKey, component: C) -> (r: Option<C>)
        requires
            old(self).wf(),
        ensures
            final(self).wf(),
            r == entry_at(old(self).entries(), key.0),
            final(self).entries() == old(self).entries().insert(key.0, component),
    {
        let pos = lower_bound(self.components.as_slice(), 0, key.0);
        if pos < self.components.len() && self.components[pos].0 == key.0 {
            let mut value = component;
            let pair = &mut self.components[pos];
            core::mem::swap(&mut pair.1, &mut value);
            proof {
                lemma_pair_is_entry(old(self).pairs(), pos as int);
                lemma_update(old(self).pairs(), pos as int, component);
                assert(self.pairs() =~= old(self).pairs().update(pos as int, (key.0, component)));
            }
            Some(value)
        } else {
            proof {
                lemma_not_found(self.pairs(), pos as int, key.0);
                lemma_insert(self.pairs(), pos as int, key.0, component);
            }
            self.components.insert(pos, (key.0, component));
            None
        }
    }

    /// Takes the value of the given kind out of the map and returns it.
    pub fn remove(&mut self, key: TypeKey) -> (r: Option<C>)
        requires
            old(self).wf(),
        ensures
            final(self).wf(),
            r == entry_at(old(self).entries(), key.0),
            final(self).entries() == old(self).entries().remove(key.0),
    {
        let pos = lower_bound(self.components.as_slice(), 0, key.0);
        if pos < self.components.len() && self.components[pos].0 == key.0 {
            proof {
                lemma_pair_is_entry(self.pairs(), pos as int);
                lemma_remove(self.pairs(), pos as int);
            }
            let pair = self.components.remove(pos);
            Some(pair.1)
        } else {
            proof {
                lemma_not_found(self.pairs(), pos as int, key.0);
                assert(self.entries() =~= self.entries().remove(key.0));
            }
            None
        }
    }
}

} // verus!
