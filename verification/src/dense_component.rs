use crate::component::ComponentStorage;
use crate::component_scanner::{indices_after, scan_from, ComponentScanner};
use vstd::prelude::*;

verus! {

/// A component storage backed by a sequence of optional slots, one for every
/// index up to the largest one in use.
pub struct DenseComponentStorage<T>(Vec<Option<T>>);

/// A scanner over the components of a [`DenseComponentStorage`].
pub struct DenseComponentScanner<'a, T: 'a> {
    next_index: usize,
    slice: &'a [Option<T>],
}

/// A scanner over the components of a [`DenseComponentStorage`] that hands
/// them out for writing.
pub struct DenseComponentScannerMut<'a, T: 'a> {
    next_index: usize,
    slice: Option<&'a mut [Option<T>]>,
}

impl<T> DenseComponentStorage<T> {
    /// The slots of the storage, by index.
    pub closed spec fn slots(&self) -> Seq<Option<T>> {
        self.0@
    }

    /// The components in the slots, by index.
    pub open spec fn slot_entries(slots: Seq<Option<T>>) -> Map<usize, T> {
        Map::new(
            |k: usize| k < slots.len() && slots[k as int] is Some,
            |k: usize| slots[k as int]->Some_0,
        )
    }
}

impl<T> Default for DenseComponentStorage<T> {
    fn default() -> (r: DenseComponentStorage<T>)
        ensures
            r.slots() == Seq::<Option<T>>::empty(),
    {
        DenseComponentStorage(Vec::new())
    }
}

impl<T: Clone> Clone for DenseComponentStorage<T> {
    fn clone(&self) -> (r: Self)
        ensures
            r.slots().len() == self.slots().len(),
            forall|i: int|
                0 <= i < self.slots().len() ==> match (#[trigger] self.slots()[i]) {
                    Some(c) => r.slots()[i] is Some && cloned(c, r.slots()[i]->Some_0),
                    None => r.slots()[i] is None,
                },
    {
        let mut slots: Vec<Option<T>> = Vec::new();
        let mut i: usize = 0;
        while i < self.0.len()
            invariant
                i <= self.0@.len(),
                slots@.len() == i,
                forall|j: int|
                    0 <= j < i ==> match (#[trigger] self.0@[j]) {
                        Some(c) => slots@[j] is Some && cloned(c, slots@[j]->Some_0),
                        None => slots@[j] is None,
                    },
            decreases self.0@.len() - i,
        {
            let slot = match &self.0[i] {
                Some(c) => Some(c.clone()),
                None => None,
            };
            slots.push(slot);
            i = i + 1;
        }
        DenseComponentStorage(slots)
    }
}

impl<T: 'static> DenseComponentStorage<T> {
    /// An empty storage.
    pub fn new() -> (r: DenseComponentStorage<T>)
        ensures
            r.slots() == Seq::<Option<T>>::empty(),
    {
        DenseComponentStorage(Vec::new())
    }
}

impl<'a, T> DenseComponentScanner<'a, T> {
    /// The index from which the scanner goes on.
    pub closed spec fn position(&self) -> usize {
        self.next_index
    }

    /// The slots that the scanner walks over, by index.
    pub closed spec fn slots(&self) -> Seq<Option<T>> {
        self.slice@
    }
}

impl<'a, T> ComponentScanner for DenseComponentScanner<'a, T> {
    type Item = &'a T;

    open spec fn indices(&self) -> Set<usize> {
        Set::new(
            |k: usize| self.position() <= k < self.slots().len() && self.slots()[k as int] is Some,
        )
    }

    open spec fn yields(&self, index: usize, item: &'a T) -> bool {
        index < self.slots().len() && self.slots()[index as int] == Some(*item)
    }

    open spec fn wf(&self) -> bool {
        true
    }

    fn scan(&mut self, until: Option<usize>) -> (r: Option<(&'a T, usize)>)
        ensures
            final(self).slots() == old(self).slots(),
    {
        let from: usize = match until {
            Some(u) => u,
            None => 0,
        };
        let mut i: usize = if self.next_index > from {
            self.next_index
        } else {
            from
        };
        loop
            invariant
                *self == *old(self),
                i >= self.next_index,
                i >= scan_from(until),
                forall|k: usize| old(self).indices().contains(k) && k >= scan_from(until) ==> k >= i,
            decreases self.slice@.len() - i,
        {
            if i >= self.slice.len() {
                self.next_index = i;
                assert(self.indices() =~= Set::<usize>::empty());
                return None;
            }
            match &self.slice[i] {
                Some(t) => {
                    self.next_index = i + 1;
                    assert(self.indices() =~= indices_after(old(self).indices(), i));
                    return Some((t, i));
                },
                None => {},
            }
            i = i + 1;
        }
    }
}

impl<'a, T> DenseComponentScannerMut<'a, T> {
    /// The index of the first slot that the scanner has not passed yet.
    pub closed spec fn position(&self) -> usize {
        self.next_index
    }

    /// The slots that the scanner has not passed yet, for writing.
    pub closed spec fn rest(&self) -> &'a mut [Option<T>] {
        self.slice->Some_0
    }

    /// The slots that the scanner has not passed yet; the first of them is
    /// the one at [`Self::position`].
    pub open spec fn slots(&self) -> Seq<Option<T>> {
        self.rest()@
    }

    /// The place of the slot with the given index among [`Self::slots`].
    pub open spec fn offset(&self, index: usize) -> int {
        index - self.position()
    }
}

impl<'a, T> ComponentScanner for DenseComponentScannerMut<'a, T> {
    type Item = &'a mut T;

    open spec fn indices(&self) -> Set<usize> {
        Set::new(
            |k: usize|
                0 <= self.offset(k) < self.slots().len() && self.slots()[self.offset(k)] is Some,
        )
    }

    open spec fn yields(&self, index: usize, item: &'a mut T) -> bool {
        0 <= self.offset(index) < self.slots().len() && self.slots()[self.offset(index)] == Some(
            *item,
        )
    }

    closed spec fn wf(&self) -> bool {
        self.slice is Some && self.next_index + self.slice->Some_0@.len() <= usize::MAX
    }

    fn scan(&mut self, until: Option<usize>) -> (r: Option<(&'a mut T, usize)>)
        ensures
            match r {
                Some((item, index)) => {
                    &&& final(self).position() == index + 1
                    &&& final(self).slots() == old(self).slots().skip(old(self).offset(index) + 1)
                    &&& final(old(self).rest())@ == old(self).slots().take(old(self).offset(index)).push(
                        Some(*final(item)),
                    ) + final(final(self).rest())@
                },
                None => {
                    &&& final(self).slots() == Seq::<Option<T>>::empty()
                    &&& final(old(self).rest())@ == old(self).slots() + final(final(self).rest())@
                },
            },
    {
        let from: usize = match until {
            Some(u) => u,
            None => 0,
        };
        let mut rest: &'a mut [Option<T>] = self.slice.take().unwrap();
        let mut i: usize = self.next_index;
        if from > i {
            let skip = from - i;
            if skip >= rest.len() {
                let n = rest.len();
                let (_, tail) = rest.split_at_mut(n);
                self.next_index = i + n;
                self.slice = Some(tail);
                assert(self.indices() =~= Set::<usize>::empty());
                assert(old(self).slots().take(n as int) =~= old(self).slots());
                return None;
            }
            let (_, tail) = rest.split_at_mut(skip);
            rest = tail;
            i = from;
        }
        loop
            invariant
                self.slice is None,
                i >= old(self).next_index,
                i >= scan_from(until),
                i + rest@.len() == old(self).next_index + old(self).slots().len(),
                i + rest@.len() <= usize::MAX,
                rest@ == old(self).slots().skip(i - old(self).next_index),
                forall|k: usize| old(self).indices().contains(k) && k >= scan_from(until) ==> k >= i,
                final(old(self).rest())@ == old(self).slots().take(i - old(self).next_index) + final(rest)@,
            decreases rest@.len(),
        {
            if rest.len() == 0 {
                self.next_index = i;
                self.slice = Some(rest);
                assert(self.indices() =~= Set::<usize>::empty());
                assert(old(self).slots().take(i - old(self).next_index) =~= old(self).slots());
                return None;
            }
            let (head, tail) = rest.split_at_mut(1);
            rest = tail;
            match head.first_mut() {
                Some(slot) => {
                    match slot.as_mut() {
                        Some(item) => {
                            self.next_index = i + 1;
                            self.slice = Some(rest);
                            assert(self.indices() =~= indices_after(old(self).indices(), i));
                            return Some((item, i));
                        },
                        None => {},
                    }
                },
                None => {},
            }
            i = i + 1;
        }
    }
}

impl<'a, T: 'static + Send + Sync + Clone> ComponentStorage<'a> for DenseComponentStorage<T> {
    type Component = T;

    type Scan = DenseComponentScanner<'a, T>;

    type ScanMut = DenseComponentScannerMut<'a, T>;

    open spec fn entries(&self) -> Map<usize, T> {
        Self::slot_entries(self.slots())
    }

    open spec fn wf(&self) -> bool {
        true
    }

    proof fn lemma_default_is_empty() {
        assert forall|s: Self| #[trigger] call_ensures(Self::default, (), s) implies s.wf()
            && s.entries() == Map::<usize, T>::empty() by {
            assert(s.entries() =~= Map::<usize, T>::empty());
        }
    }

    fn get(&self, index: usize) -> (r: Option<&T>) {
        if index < self.0.len() {
            self.0[index].as_ref()
        } else {
            None
        }
    }

    fn get_mut(&mut self, index: usize) -> (r: Option<&mut T>) {
        if index < self.0.len() {
            self.0[index].as_mut()
        } else {
            None
        }
    }

    fn insert(&mut self, index: usize, component: T) -> (r: Option<T>) {
        while index >= self.0.len()
            invariant
                self.0@.len() >= old(self).0@.len(),
                forall|i: int| 0 <= i < old(self).0@.len() ==> self.0@[i] == old(self).0@[i],
                forall|i: int| old(self).0@.len() <= i < self.0@.len() ==> self.0@[i] is None,
            decreases index + 1 - self.0@.len(),
        {
            self.0.push(None)
        }
        let slot = &mut self.0[index];
        let old_value = slot.take();
        *slot = Some(component);
        assert(self.entries() =~= old(self).entries().insert(index, component));
        old_value
    }

    fn remove(&mut self, index: usize) -> (r: Option<T>) {
        if index < self.0.len() {
            let r = self.0[index].take();
            assert(self.entries() =~= old(self).entries().remove(index));
            r
        } else {
            assert(self.entries() =~= old(self).entries().remove(index));
            None
        }
    }

    fn scan(&'a self) -> (s: DenseComponentScanner<'a, T>) {
        let s = DenseComponentScanner { next_index: 0, slice: self.0.as_slice() };
        assert(s.indices() =~= self.entries().dom());
        s
    }

    fn scan_mut(&'a mut self) -> (s: DenseComponentScannerMut<'a, T>)
        ensures
            s.position() == 0,
            s.slots() == old(self).slots(),
            final(self).slots() == final(s.rest())@,
    {
        let slice = self.0.as_mut_slice();
        let _ = slice.len();
        let s = DenseComponentScannerMut { next_index: 0, slice: Some(slice) };
        assert(s.indices() =~= old(self).entries().dom());
        s
    }
}

} // verus!
