use crate::component::ComponentStorage;
use crate::component_scanner::{indices_after, scan_from, ComponentScanner};
use crate::sorted_pairs::{
    has_key, keys_ascending, keys_descending, lemma_insert, lemma_not_found, lemma_pair_is_entry,
    lemma_remove, lemma_update, lower_bound, pair_entries, place_of, split_values,
};
use vstd::prelude::*;

verus! {

/// A component storage that keeps only the indices in use, as pairs of index
/// and component in ascending order of the index.
pub struct SparseComponentStorage<T>(Vec<(usize, T)>);

/// A scanner over the components of a [`SparseComponentStorage`].
pub struct SparseComponentScanner<'a, T: 'a> {
    pairs: &'a [(usize, T)],
    next: usize,
}

/// A scanner over the components of a [`SparseComponentStorage`] that hands
/// them out for writing.
pub struct SparseComponentScannerMut<'a, T: 'a> {
    items: Vec<(usize, &'a mut T)>,
}

impl<T> SparseComponentStorage<T> {
    /// The pairs of index and component that the storage holds, in order.
    pub closed spec fn pairs(&self) -> Seq<(usize, T)> {
        self.0@
    }
}

impl<T> Default for SparseComponentStorage<T> {
    fn default() -> (r: SparseComponentStorage<T>)
        ensures
            r.pairs() == Seq::<(usize, T)>::empty(),
    {
        SparseComponentStorage(Vec::new())
    }
}

impl<T: Clone> Clone for SparseComponentStorage<T> {
    fn clone(&self) -> (r: Self)
        ensures
            r.pairs().len() == self.pairs().len(),
            forall|i: int|
                0 <= i < self.pairs().len() ==> (#[trigger] r.pairs()[i]).0 == self.pairs()[i].0
                    && cloned(self.pairs()[i].1, r.pairs()[i].1),
    {
        let mut pairs: Vec<(usize, T)> = Vec::new();
        let mut i: usize = 0;
        while i < self.0.len()
            invariant
                i <= self.0@.len(),
                pairs@.len() == i,
                forall|j: int|
                    0 <= j < i ==> (#[trigger] pairs@[j]).0 == self.0@[j].0 && cloned(
                        self.0@[j].1,
                        pairs@[j].1,
                    ),
            decreases self.0@.len() - i,
        {
            let pair = &self.0[i];
            pairs.push((pair.0, pair.1.clone()));
            i = i + 1;
        }
        SparseComponentStorage(pairs)
    }
}

impl<T: 'static> SparseComponentStorage<T> {
    /// An empty storage.
    pub fn new() -> (r: SparseComponentStorage<T>)
        ensures
            r.pairs() == Seq::<(usize, T)>::empty(),
    {
        SparseComponentStorage(Vec::new())
    }
}

impl<'a, T> SparseComponentScanner<'a, T> {
    /// The pairs that the scanner walks over.
    pub closed spec fn pairs(&self) -> Seq<(usize, T)> {
        self.pairs@
    }

    /// The place among the pairs from which the scanner goes on.
    pub closed spec fn position(&self) -> int {
        self.next as int
    }
}

impl<'a, T> ComponentScanner for SparseComponentScanner<'a, T> {
    type Item = &'a T;

    open spec fn indices(&self) -> Set<usize> {
        Set::new(
            |k: usize|
                exists|i: int|
                    self.position() <= i < self.pairs().len() && (#[trigger] self.pairs()[i]).0 == k,
        )
    }

    open spec fn yields(&self, index: usize, item: &'a T) -> bool {
        pair_entries(self.pairs()).contains_key(index) && pair_entries(self.pairs())[index] == *item
    }

    open spec fn wf(&self) -> bool {
        keys_ascending(self.pairs()) && 0 <= self.position() <= self.pairs().len()
    }

    fn scan(&mut self, until: Option<usize>) -> (r: Option<(&'a T, usize)>)
        ensures
            final(self).pairs() == old(self).pairs(),
    {
        let from: usize = match until {
            Some(u) => u,
            None => 0,
        };
        let mut pos = self.next;
        if pos < self.pairs.len() && self.pairs[pos].0 < from {
            pos = lower_bound(self.pairs, pos, from);
        }
        if pos < self.pairs.len() {
            let pair = &self.pairs[pos];
            self.next = pos + 1;
            proof {
                lemma_pair_is_entry(self.pairs(), pos as int);
                assert(old(self).indices().contains(pair.0));
                assert forall|k: usize|
                    old(self).indices().contains(k) && k >= scan_from(until) implies k
                    >= pair.0 by {
                    let i = choose|i: int|
                        old(self).position() <= i < self.pairs().len() && (
                        #[trigger] self.pairs()[i]).0 == k;
                    if i < pos {
                        if old(self).position() == pos {
                        } else {
                            assert(self.pairs()[i].0 < from);
                        }
                    } else if i > pos {
                        assert(self.pairs()[pos as int].0 < self.pairs()[i].0);
                    }
                }
                assert(self.indices() =~= indices_after(old(self).indices(), pair.0)) by {
                    assert forall|k: usize| self.indices().contains(k) implies indices_after(
                        old(self).indices(),
                        pair.0,
                    ).contains(k) by {
                        let i = choose|i: int|
                            self.position() <= i < self.pairs().len() && (
                            #[trigger] self.pairs()[i]).0 == k;
                        assert(self.pairs()[pos as int].0 < self.pairs()[i].0);
                        assert(old(self).position() <= i);
                    }
                    assert forall|k: usize|
                        indices_after(old(self).indices(), pair.0).contains(
                            k,
                        ) implies self.indices().contains(k) by {
                        let i = choose|i: int|
                            old(self).position() <= i < self.pairs().len() && (
                            #[trigger] self.pairs()[i]).0 == k;
                        if i <= pos {
                            if i < pos {
                                assert(self.pairs()[i].0 < self.pairs()[pos as int].0);
                            }
                        }
                    }
                }
            }
            Some((&pair.1, pair.0))
        } else {
            self.next = pos;
            proof {
                assert(self.indices() =~= Set::<usize>::empty());
                assert forall|k: usize| old(self).indices().contains(k) implies k < scan_from(
                    until,
                ) by {
                    let i = choose|i: int|
                        old(self).position() <= i < self.pairs().len() && (
                        #[trigger] self.pairs()[i]).0 == k;
                    if old(self).position() < pos {
                        assert(self.pairs()[i].0 < from);
                    }
                }
            }
            None
        }
    }
}

impl<'a, T> SparseComponentScannerMut<'a, T> {
    /// The entries that the scanner has not passed yet, the one with the
    /// largest index first and the next one to hand out last.
    pub closed spec fn items(&self) -> Seq<(usize, &'a mut T)> {
        self.items@
    }
}

impl<'a, T> ComponentScanner for SparseComponentScannerMut<'a, T> {
    type Item = &'a mut T;

    open spec fn indices(&self) -> Set<usize> {
        Set::new(|k: usize| has_key(self.items(), k))
    }

    open spec fn yields(&self, index: usize, item: &'a mut T) -> bool {
        has_key(self.items(), index) && self.items()[place_of(self.items(), index)].1 == item
    }

    open spec fn wf(&self) -> bool {
        keys_descending(self.items())
    }

    fn scan(&mut self, until: Option<usize>) -> (r: Option<(&'a mut T, usize)>)
        ensures
            final(self).items() == old(self).items().take(final(self).items().len() as int),
            r is Some ==> final(self).items().len() < old(self).items().len() && old(self).items()[final(self).items().len() as int] == (r->Some_0.1, r->Some_0.0),
    {
        loop
            invariant
                self.wf(),
                keys_descending(old(self).items@),
                self.items@.len() <= old(self).items@.len(),
                self.items@ == old(self).items@.take(self.items@.len() as int),
                forall|i: int|
                    self.items@.len() <= i < old(self).items@.len() ==> (#[trigger] old(self).items@[i]).0 < scan_from(until),
            decreases self.items@.len(),
        {
            match self.items.pop() {
                Some((index, item)) => {
                    let ghost n = self.items@.len() as int;
                    if until.is_none() || index >= until.unwrap() {
                        proof {
                            lemma_pair_is_entry(old(self).items(), n);
                            assert forall|k: usize|
                                old(self).indices().contains(k) && k >= scan_from(
                                    until,
                                ) implies k >= index by {
                                let i = place_of(old(self).items(), k);
                                if i < n {
                                    assert(old(self).items()[i].0 > old(self).items()[n].0);
                                }
                            }
                            assert(self.indices() =~= indices_after(old(self).indices(), index)) by {
                                assert forall|k: usize|
                                    self.indices().contains(k) implies indices_after(
                                    old(self).indices(),
                                    index,
                                ).contains(k) by {
                                    let i = place_of(self.items(), k);
                                    assert(old(self).items()[i].0 == k);
                                    assert(old(self).items()[i].0 > old(self).items()[n].0);
                                }
                                assert forall|k: usize|
                                    indices_after(old(self).indices(), index).contains(
                                        k,
                                    ) implies self.indices().contains(k) by {
                                    let i = place_of(old(self).items(), k);
                                    if i > n {
                                        assert(old(self).items()[i].0 < scan_from(until));
                                    }
                                    assert(self.items()[i].0 == k);
                                }
                            }
                            assert forall|k: usize, x: &'a mut T|
                                self.indices().contains(k) && #[trigger] self.yields(
                                    k,
                                    x,
                                ) implies old(self).yields(k, x) by {
                                let i = place_of(self.items(), k);
                                lemma_pair_is_entry(old(self).items(), i);
                            }
                        }
                        let r = Some((item, index));
                        assert(old(self).items()[n] == (r->Some_0.1, r->Some_0.0));
                        assert(old(self).yields(r->Some_0.1, r->Some_0.0));
                        return r;
                    }
                },
                None => {
                    proof {
                        assert(self.indices() =~= Set::<usize>::empty());
                        assert forall|k: usize| old(self).indices().contains(k) implies k
                            < scan_from(until) by {
                            let i = place_of(old(self).items(), k);
                            assert(old(self).items()[i].0 < scan_from(until));
                        }
                    }
                    return None;
                },
            }
        }
    }
}

impl<'a, T: 'static + Send + Sync + Clone> ComponentStorage<'a> for SparseComponentStorage<T> {
    type Component = T;

    type Scan = SparseComponentScanner<'a, T>;

    type ScanMut = SparseComponentScannerMut<'a, T>;

    open spec fn entries(&self) -> Map<usize, T> {
        pair_entries(self.pairs())
    }

    open spec fn wf(&self) -> bool {
        keys_ascending(self.pairs())
    }

    proof fn lemma_default_is_empty() {
        assert forall|s: Self| #[trigger] call_ensures(Self::default, (), s) implies s.wf()
            && s.entries() == Map::<usize, T>::empty() by {
            assert(s.entries() =~= Map::<usize, T>::empty());
        }
    }

    fn get(&self, index: usize) -> (r: Option<&T>) {
        let pos = lower_bound(self.0.as_slice(), 0, index);
        if pos < self.0.len() && self.0[pos].0 == index {
            proof {
                lemma_pair_is_entry(self.pairs(), pos as int);
            }
            Some(&self.0[pos].1)
        } else {
            proof {
                lemma_not_found(self.pairs(), pos as int, index);
            }
            None
        }
    }

    fn get_mut(&mut self, index: usize) -> (r: Option<&mut T>) {
        let pos = lower_bound(self.0.as_slice(), 0, index);
        if pos < self.0.len() && self.0[pos].0 == index {
            proof {
                lemma_pair_is_entry(self.pairs(), pos as int);
            }
            let pair = &mut self.0[pos];
            let value = &mut pair.1;
            proof {
                lemma_update(old(self).pairs(), pos as int, *final(value));
            }
            Some(value)
        } else {
            proof {
                lemma_not_found(self.pairs(), pos as int, index);
            }
            None
        }
    }

    fn insert(&mut self, index: usize, component: T) -> (r: Option<T>) {
        let pos = lower_bound(self.0.as_slice(), 0, index);
        if pos < self.0.len() && self.0[pos].0 == index {
            let mut value = component;
            let pair = &mut self.0[pos];
            core::mem::swap(&mut pair.1, &mut value);
            proof {
                lemma_pair_is_entry(old(self).pairs(), pos as int);
                lemma_update(old(self).pairs(), pos as int, component);
                assert(self.pairs() =~= old(self).pairs().update(pos as int, (index, component)));
            }
            Some(value)
        } else {
            proof {
                lemma_not_found(self.pairs(), pos as int, index);
                lemma_insert(self.pairs(), pos as int, index, component);
            }
            self.0.insert(pos, (index, component));
            None
        }
    }

    fn remove(&mut self, index: usize) -> (r: Option<T>) {
        let pos = lower_bound(self.0.as_slice(), 0, index);
        if pos < self.0.len() && self.0[pos].0 == index {
            proof {
                lemma_pair_is_entry(self.pairs(), pos as int);
                lemma_remove(self.pairs(), pos as int);
            }
            let pair = self.0.remove(pos);
            Some(pair.1)
        } else {
            proof {
                lemma_not_found(self.pairs(), pos as int, index);
                assert(self.entries() =~= self.entries().remove(index));
            }
            None
        }
    }

    fn scan(&'a self) -> (s: SparseComponentScanner<'a, T>)
        ensures
            s.pairs() == self.pairs(),
            s.position() == 0,
    {
        SparseComponentScanner { pairs: self.0.as_slice(), next: 0 }
    }

    fn scan_mut(&'a mut self) -> (s: SparseComponentScannerMut<'a, T>)
        ensures
            s.items().len() == old(self).pairs().len(),
            final(self).pairs().len() == old(self).pairs().len(),
            forall|i: int|
                0 <= i < s.items().len() ==> {
                    &&& (#[trigger] s.items()[i]).0 == old(self).pairs()[s.items().len() - 1 - i].0
                    &&& *s.items()[i].1 == old(self).pairs()[s.items().len() - 1 - i].1
                    &&& final(self).pairs()[s.items().len() - 1 - i] == (
                        s.items()[i].0,
                        *final(s.items()[i].1),
                    )
                },
    {
        let slice = self.0.as_mut_slice();
        let ghost lent = slice;
        let items = split_values(slice);
        let ghost whole = final(lent)@;
        proof {
            let n = items@.len() as int;
            assert(whole.len() == n);
            assert(keys_ascending(whole)) by {
                assert forall|i: int, j: int| 0 <= i < j < n implies whole[i].0 < whole[j].0 by {
                    assert(whole[n - 1 - (n - 1 - i)].0 == items@[n - 1 - i].0);
                    assert(whole[n - 1 - (n - 1 - j)].0 == items@[n - 1 - j].0);
                    assert(old(self).pairs()[i].0 < old(self).pairs()[j].0);
                }
            }
            assert(keys_descending(items@)) by {
                assert forall|i: int, j: int| 0 <= i < j < n implies items@[i].0 > items@[j].0 by {
                    assert(old(self).pairs()[n - 1 - j].0 < old(self).pairs()[n - 1 - i].0);
                }
            }
            assert(Set::new(|k: usize| has_key(items@, k)) =~= old(self).entries().dom()) by {
                assert forall|k: usize| has_key(items@, k) implies has_key(
                    old(self).pairs(),
                    k,
                ) by {
                    let i = place_of(items@, k);
                    assert(old(self).pairs()[n - 1 - i].0 == k);
                }
                assert forall|k: usize| has_key(old(self).pairs(), k) implies has_key(
                    items@,
                    k,
                ) by {
                    let i = place_of(old(self).pairs(), k);
                    assert(items@[n - 1 - i].0 == k);
                }
            }
            assert forall|k: usize, x: &'a mut T|
                old(self).entries().contains_key(k) && has_key(items@, k) && items@[place_of(
                    items@,
                    k,
                )].1 == x implies *x == old(self).entries()[k] by {
                let i = place_of(items@, k);
                lemma_pair_is_entry(old(self).pairs(), n - 1 - i);
            }
        }
        SparseComponentScannerMut { items }
    }
}

} // verus!
