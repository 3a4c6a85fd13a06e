use crate::component_scanner::ComponentScanner;
use vstd::prelude::*;

verus! {

/// Identifies one kind of component or of resource.
#[derive(PartialEq, Eq, PartialOrd, Ord, Hash, Clone, Copy, Debug, Structural)]
pub struct TypeKey(pub usize);

/// A type of data that can be attached to entities, together with the kind
/// of storage that holds its values.
pub trait Component: 'static + Send + Sync + Sized + Clone {
    type Storage: for<'a> ComponentStorage<'a, Component = Self>;
}

/// The entry of `entries` at `index`, if there is one.
pub open spec fn entry_at<T>(entries: Map<usize, T>, index: usize) -> Option<T> {
    if entries.contains_key(index) {
        Some(entries[index])
    } else {
        None
    }
}

/// A map from indices to components that can be scanned in index order.
pub trait ComponentStorage<'a>: 'static + Send + Sync + Default + Clone {
    type Component: 'static + Send + Sync + Sized + Clone;

    type Scan: ComponentScanner<Item = &'a Self::Component>;

    type ScanMut: ComponentScanner<Item = &'a mut Self::Component>;

    /// The components that the storage holds, by index.
    spec fn entries(&self) -> Map<usize, Self::Component>;

    /// The internal consistency that every method expects and preserves.
    spec fn wf(&self) -> bool;

    /// A storage made by `default()` is consistent and empty.
    proof fn lemma_default_is_empty()
        ensures
            forall|s: Self| #[trigger]
                call_ensures(Self::default, (), s) ==> s.wf() && s.entries() == Map::<
                    usize,
                    Self::Component,
                >::empty(),
    ;

    /// The component at `index`, if there is one.
    fn get(&self, index: usize) -> (r: Option<&Self::Component>)
        requires
            self.wf(),
        ensures
            match r {
                Some(c) => self.entries().contains_key(index) && *c == self.entries()[index],
                None => !self.entries().contains_key(index),
            },
    ;

    /// The component at `index`, if there is one, for writing. Whatever is
    /// written becomes the component at `index`; nothing else changes.
    fn get_mut(&mut self, index: usize) -> (r: Option<&mut Self::Component>)
        requires
            old(self).wf(),
        ensures
            final(self).wf(),
            match r {
                Some(c) => {
                    &&& old(self).entries().contains_key(index)
                    &&& *c == old(self).entries()[index]
                    &&& final(self).entries() == old(self).entries().insert(index, *final(c))
                },
                None => {
                    &&& !old(self).entries().contains_key(index)
                    &&& final(self).entries() == old(self).entries()
                },
            },
    ;

    /// Puts `component` at `index` and returns what was there before.
    fn insert(&mut self, index: usize, component: Self::Component) -> (r: Option<Self::Component>)
        requires
            old(self).wf(),
        ensures
            final(self).wf(),
            r == entry_at(old(self).entries(), index),
            final(self).entries() == old(self).entries().insert(index, component),
    ;

    /// Takes out the component at `index` and returns it.
    fn remove(&mut self, index: usize) -> (r: Option<Self::Component>)
        requires
            old(self).wf(),
        ensures
            final(self).wf(),
            r == entry_at(old(self).entries(), index),
            final(self).entries() == old(self).entries().remove(index),
    ;

    /// A fresh scanner over all components of the storage.
    fn scan(&'a self) -> (s: Self::Scan)
        requires
            self.wf(),
        ensures
            s.wf(),
            s.indices() == self.entries().dom(),
            forall|k: usize, x: &'a Self::Component|
                self.entries().contains_key(k) ==> (#[trigger] s.yields(k, x) <==> *x
                    == self.entries()[k]),
    ;

    /// A fresh scanner over all components of the storage, which hands
    /// them out for writing.
    fn scan_mut(&'a mut self) -> (s: Self::ScanMut)
        requires
            old(self).wf(),
        ensures
            final(self).wf(),
            s.wf(),
            s.indices() == old(self).entries().dom(),
            forall|k: usize, x: &'a mut Self::Component|
                old(self).entries().contains_key(k) && #[trigger] s.yields(k, x) ==> *x == old(self).entries()[k],
    ;
}

} // verus!
