use crate::component::{entry_at, ComponentStorage, TypeKey};
use crate::component_scanner::ComponentScanner;
use crate::entity::{Entity, EntityAllocator, EntityScanner, EntitySet, EntitySetScanner};
use crate::generational_index::AllocatorState;
use crate::sorted_pairs::{
    has_key, keys_ascending, keys_before, keys_descending, lemma_insert, lemma_keys_before_all,
    lemma_keys_before_next, lemma_not_found, lemma_pair_is_entry, lower_bound, pair_entries,
    place_of, split_entries,
};
use crate::type_map::TypeMap;
use vstd::prelude::*;

verus! {

/// The storages after a kind was registered with a fresh storage: as
/// before if the kind was registered already.
pub open spec fn with_kind<S>(storages: Map<usize, S>, key: usize, fresh: S) -> Map<usize, S> {
    if storages.contains_key(key) {
        storages
    } else {
        storages.insert(key, fresh)
    }
}

/// Idempotent registration: to register a kind a second time changes
/// nothing, whatever storage the second registration would bring.
pub proof fn lemma_register_twice<S>(storages: Map<usize, S>, key: usize, first: S, second: S)
    ensures
        with_kind(with_kind(storages, key, first), key, second) == with_kind(storages, key, first),
{
}

/// A kind of component was used that the container does not know.
#[derive(Debug, PartialEq, Eq, Clone, Copy, Structural)]
pub struct UnregisteredComponent;

/// A container of entities and of their components, which keeps the
/// components of each registered kind in a storage of their own.
pub struct Ecs<S> {
    entities: EntityAllocator,
    components: Vec<(usize, S)>,
}

impl UnregisteredComponent {
    /// The text that describes this error.
    pub fn message(&self) -> (r: &'static str)
        ensures
            r@ == "ECS component type is unregistered"@,
    {
        "ECS component type is unregistered"
    }
}

impl<S> Ecs<S> {
    /// The state of the allocator that hands out the entities.
    pub closed spec fn entities(&self) -> AllocatorState {
        self.entities@
    }

    /// The storages of the registered kinds of component, in the order of
    /// the kinds.
    pub closed spec fn stores(&self) -> Seq<(usize, S)> {
        self.components@
    }

    /// The storages of the registered kinds of component, by kind.
    pub open spec fn storages(&self) -> Map<usize, S> {
        pair_entries(self.stores())
    }

    /// Whether the kind of component is registered.
    pub open spec fn is_registered(&self, key: TypeKey) -> bool {
        self.storages().contains_key(key.0)
    }
}

impl<C: Clone, S: for<'s> ComponentStorage<'s, Component = C>> Ecs<S> {
    /// The components of one registered kind, by the index of their
    /// entity.
    pub open spec fn rows(&self, key: TypeKey) -> Map<usize, C> {
        self.storages()[key.0].entries()
    }

    /// The allocator and every storage are consistent, and the kinds are
    /// in order.
    pub open spec fn wf(&self) -> bool {
        &&& self.entities().wf()
        &&& keys_ascending(self.stores())
        &&& forall|i: int| 0 <= i < self.stores().len() ==> (#[trigger] self.stores()[i]).1.wf()
    }

    /// A container without entities and without registered kinds.
    pub fn new() -> (r: Ecs<S>)
        ensures
            r.wf(),
            r.entities().slots.len() == 0,
            r.stores().len() == 0,
    {
        Ecs { entities: EntityAllocator::new(), components: Vec::new() }
    }

    /// Registers a kind of component, with an empty storage. A kind that is
    /// registered already stays as it is.
    pub fn register_component(&mut self, key: TypeKey)
        requires
            old(self).wf(),
        ensures
            final(self).wf(),
            final(self).entities() == old(self).entities(),
            final(self).is_registered(key),
            final(self).storages() == with_kind(
                old(self).storages(),
                key.0,
                final(self).storages()[key.0],
            ),
            old(self).is_registered(key) ==> final(self).stores() == old(self).stores(),
            !old(self).is_registered(key) ==> call_ensures(
                S::default,
                (),
                final(self).storages()[key.0],
            ) && final(self).rows(key) == Map::<usize, C>::empty(),
    {
        let pos = lower_bound(self.components.as_slice(), 0, key.0);
        if pos < self.components.len() && self.components[pos].0 == key.0 {
            proof {
                lemma_pair_is_entry(self.stores(), pos as int);
            }
        } else {
            let storage = S::default();
            proof {
                S::lemma_default_is_empty();
                lemma_not_found(self.stores(), pos as int, key.0);
                lemma_insert(self.stores(), pos as int, key.0, storage);
            }
            self.components.insert(pos, (key.0, storage));
            proof {
                assert forall|i: int| 0 <= i < self.stores().len() implies (
                #[trigger] self.stores()[i]).1.wf() by {
                    if i < pos {
                        assert(self.stores()[i] == old(self).stores()[i]);
                    } else if i > pos {
                        assert(self.stores()[i] == old(self).stores()[i - 1]);
                    }
                }
            }
        }
    }

    /// The components of one registered kind after the components of
    /// `bundle` were given to the entity with the given index.
    pub open spec fn rows_with(&self, key: usize, index: usize, bundle: Map<usize, C>) -> Map<
        usize,
        C,
    > {
        if bundle.contains_key(key) {
            self.storages()[key].entries().insert(index, bundle[key])
        } else {
            self.storages()[key].entries()
        }
    }

    /// The components that the entity with the given index has before the
    /// components of `bundle` take their place, by kind.
    pub open spec fn displaced(&self, index: usize, bundle: Map<usize, C>) -> Map<usize, C> {
        Map::new(
            |k: usize|
                bundle.contains_key(k) && self.storages().contains_key(k)
                    && self.storages()[k].entries().contains_key(index),
            |k: usize| self.storages()[k].entries()[index],
        )
    }

    /// The components that the entity with the given index has, by kind.
    pub open spec fn components_of(&self, index: usize) -> Map<usize, C> {
        Map::new(
            |k: usize|
                self.storages().contains_key(k) && self.storages()[k].entries().contains_key(index),
            |k: usize| self.storages()[k].entries()[index],
        )
    }

    /// What it is to give the components of `bundle` to an entity: nothing
    /// happens if the entity is not live; otherwise each component of a
    /// registered kind is in the storage of its kind afterwards, the
    /// components that were there before come back, and the result is an
    /// error exactly if `bundle` holds a kind that is not registered.
    pub open spec fn gives_components(
        self,
        entity: Entity,
        bundle: Map<usize, C>,
        after: Ecs<S>,
        r: Result<Option<TypeMap<C>>, UnregisteredComponent>,
    ) -> bool {
        &&& after.entities() == self.entities()
        &&& forall|key: TypeKey| after.is_registered(key) <==> self.is_registered(key)
        &&& !self.entities().is_live(entity.id()) ==> r == Ok::<
            Option<TypeMap<C>>,
            UnregisteredComponent,
        >(None) && after.stores() == self.stores()
        &&& self.entities().is_live(entity.id()) ==> {
            &&& forall|key: TypeKey| #[trigger]
                self.is_registered(key) ==> after.rows(key) == self.rows_with(
                    key.0,
                    entity.id().0,
                    bundle,
                )
            &&& r is Err <==> exists|k: usize|
                bundle.contains_key(k) && !self.storages().contains_key(k)
            &&& r is Ok ==> r->Ok_0 is Some && r->Ok_0->Some_0.wf() && r->Ok_0->Some_0.entries()
                == self.displaced(entity.id().0, bundle)
        }
    }

    /// What it is to add an entity: an entity is allocated, and if there
    /// is a bundle its components of registered kinds are given to the
    /// entity; the result is the entity, or an error exactly if the bundle
    /// holds a kind that is not registered.
    pub open spec fn adds_entity(
        self,
        components: Option<TypeMap<C>>,
        after: Ecs<S>,
        r: Result<Entity, UnregisteredComponent>,
    ) -> bool {
        &&& after.entities() == self.entities().allocate().0
        &&& r is Ok ==> r->Ok_0.id() == self.entities().allocate().1
        &&& forall|key: TypeKey| after.is_registered(key) <==> self.is_registered(key)
        &&& match components {
            Some(bundle) => {
                &&& forall|key: TypeKey| #[trigger]
                    self.is_registered(key) ==> after.rows(key) == self.rows_with(
                        key.0,
                        self.entities().allocate().1.0,
                        bundle.entries(),
                    )
                &&& r is Err <==> exists|k: usize|
                    bundle.entries().contains_key(k) && !self.storages().contains_key(k)
            },
            None => r is Ok && after.stores() == self.stores(),
        }
    }

    /// What it is to remove an entity: nothing happens if the entity is
    /// not live; otherwise it is given back to the allocator, its
    /// components are taken out of all storages, and they are the result.
    pub open spec fn removes_entity(self, entity: Entity, after: Ecs<S>, r: Option<TypeMap<C>>) -> bool {
        &&& (after.entities(), r is Some) == self.entities().deallocate(entity.id())
        &&& forall|key: TypeKey| after.is_registered(key) <==> self.is_registered(key)
        &&& match r {
            Some(bundle) => {
                &&& bundle.wf()
                &&& bundle.entries() == self.components_of(entity.id().0)
                &&& forall|key: TypeKey| #[trigger]
                    self.is_registered(key) ==> after.rows(key) == self.rows(key).remove(
                        entity.id().0,
                    )
            },
            None => after.stores() == self.stores(),
        }
    }

    /// What it is to copy the components of an entity: there is a result
    /// exactly if the entity is live, and it holds a copy of each
    /// component of the entity.
    pub open spec fn clones_components(self, entity: Entity, r: Option<TypeMap<C>>) -> bool {
        &&& r is Some <==> self.entities().is_live(entity.id())
        &&& r is Some ==> {
            &&& r->Some_0.wf()
            &&& r->Some_0.entries().dom() == self.components_of(entity.id().0).dom()
            &&& forall|k: usize| #[trigger]
                r->Some_0.entries().contains_key(k) ==> cloned(
                    self.components_of(entity.id().0)[k],
                    r->Some_0.entries()[k],
                )
        }
    }

    /// Whether the entity is live.
    #[inline]
    pub fn entity_is_live(&self, entity: Entity) -> (r: bool)
        ensures
            r == self.entities().is_live(entity.id()),
    {
        self.entities.is_live(entity)
    }

    /// Gives the components of the bundle to the entity, each in the
    /// storage of its kind, and returns the components that they take the
    /// place of. Does nothing and returns `None` if the entity is not live.
    /// Fails if the bundle holds a component of a kind that is not
    /// registered; the components of registered kinds are in their storages
    /// even then.
    pub fn insert_components(&mut self, entity: Entity, components: TypeMap<C>) -> (r: Result<
        Option<TypeMap<C>>,
        UnregisteredComponent,
    >)
        requires
            old(self).wf(),
            components.wf(),
        ensures
            final(self).wf(),
            old(self).gives_components(entity, components.entries(), *final(self), r),
    {
        if !self.entities.is_live(entity) {
            return Ok(None);
        }
        let index = entity.index();
        let mut components = components;
        let ghost given = components.entries();
        let mut overwritten: TypeMap<C> = TypeMap::new();
        let mut i: usize = 0;
        proof {
            assert(keys_before(old(self).stores(), 0) =~= Set::<usize>::empty());
            assert(components.entries() =~= given.remove_keys(keys_before(old(self).stores(), 0)));
            assert(overwritten.entries() =~= old(self).displaced(index, given).restrict(
                keys_before(old(self).stores(), 0),
            ));
        }
        while i < self.components.len()
            invariant
                old(self).wf(),
                self.wf(),
                components.wf(),
                overwritten.wf(),
                self.entities == old(self).entities,
                i <= self.stores().len(),
                self.stores().len() == old(self).stores().len(),
                forall|j: int|
                    0 <= j < self.stores().len() ==> (#[trigger] self.stores()[j]).0 == old(self).stores()[j].0,
                forall|j: int| i <= j < self.stores().len() ==> self.stores()[j] == old(self).stores()[j],
                forall|j: int|
                    0 <= j < i ==> (#[trigger] self.stores()[j]).1.entries() == old(self).rows_with(
                        self.stores()[j].0,
                        index,
                        given,
                    ),
                components.entries() == given.remove_keys(keys_before(old(self).stores(), i as int)),
                overwritten.entries() == old(self).displaced(index, given).restrict(
                    keys_before(old(self).stores(), i as int),
                ),
            decreases self.stores().len() - i,
        {
            let key = self.components[i].0;
            let ghost before_stores = self.stores();
            proof {
                lemma_keys_before_next(old(self).stores(), i as int);
                lemma_pair_is_entry(old(self).stores(), i as int);
            }
            match components.remove(TypeKey(key)) {
                Some(c) => {
                    match self.components[i].1.insert(index, c) {
                        Some(o) => {
                            overwritten.insert(TypeKey(key), o);
                        },
                        None => {},
                    }
                },
                None => {},
            }
            proof {
                assert forall|j: int| 0 <= j < self.stores().len() && j != i implies self.stores()[j]
                    == before_stores[j] by {}
                assert forall|a: int, b: int| 0 <= a < b < self.stores().len() implies self.stores()[a].0
                    < self.stores()[b].0 by {
                    assert(old(self).stores()[a].0 < old(self).stores()[b].0);
                }
                assert(components.entries() =~= given.remove_keys(
                    keys_before(old(self).stores(), i + 1),
                ));
                assert(overwritten.entries() =~= old(self).displaced(index, given).restrict(
                    keys_before(old(self).stores(), i + 1),
                ));
            }
            i = i + 1;
        }
        proof {
            lemma_keys_before_all(old(self).stores());
            assert forall|key: TypeKey| self.is_registered(key) <==> old(self).is_registered(key) by {
                if self.is_registered(key) {
                    let j = place_of(self.stores(), key.0);
                    assert(old(self).stores()[j].0 == key.0);
                }
                if old(self).is_registered(key) {
                    let j = place_of(old(self).stores(), key.0);
                    assert(self.stores()[j].0 == key.0);
                }
            }
            assert forall|key: TypeKey| #[trigger] old(self).is_registered(key) implies self.rows(
                key,
            ) == old(self).rows_with(key.0, index, given) by {
                let j = place_of(old(self).stores(), key.0);
                lemma_pair_is_entry(old(self).stores(), j);
                lemma_pair_is_entry(self.stores(), j);
            }
            assert(overwritten.entries() =~= old(self).displaced(index, given));
            assert(components.pairs().len() > 0 <==> exists|k: usize|
                given.contains_key(k) && !old(self).storages().contains_key(k)) by {
                if components.pairs().len() > 0 {
                    lemma_pair_is_entry(components.pairs(), 0);
                    let k = components.pairs()[0].0;
                    assert(components.entries().contains_key(k));
                    assert(given.contains_key(k) && !old(self).storages().contains_key(k));
                }
                if exists|k: usize| given.contains_key(k) && !old(self).storages().contains_key(k) {
                    let k = choose|k: usize|
                        given.contains_key(k) && !old(self).storages().contains_key(k);
                    assert(components.entries().contains_key(k));
                    let p = place_of(components.pairs(), k);
                }
            }
        }
        if !components.is_empty() {
            return Err(UnregisteredComponent);
        }
        Ok(Some(overwritten))
    }

    /// Allocates an entity and gives it the components of the bundle, if
    /// there is one. Fails if the bundle holds a component of a kind that
    /// is not registered; the entity is allocated and has the components of
    /// registered kinds even then.
    pub fn add_entity(&mut self, components: Option<TypeMap<C>>) -> (r: Result<
        Entity,
        UnregisteredComponent,
    >)
        requires
            old(self).wf(),
            components is Some ==> components->Some_0.wf(),
        ensures
            final(self).wf(),
            old(self).adds_entity(components, *final(self), r),
    {
        let entity = self.entities.allocate();
        let ghost allocated = *self;
        match components {
            Some(components) => {
                let r = match self.insert_components(entity, components) {
                    Ok(_) => Ok(entity),
                    Err(e) => Err(e),
                };
                proof {
                    assert forall|key: TypeKey| #[trigger] old(self).is_registered(key) implies self.rows(
                        key,
                    ) == old(self).rows_with(key.0, entity.id().0, components.entries()) by {
                        assert(allocated.is_registered(key));
                    }
                    assert forall|key: TypeKey| self.is_registered(key) <==> old(self).is_registered(
                        key,
                    ) by {
                        assert(self.is_registered(key) <==> allocated.is_registered(key));
                    }
                }
                r
            },
            None => Ok(entity),
        }
    }

    /// Takes the entity and all its components out of the container and
    /// returns the components. Does nothing and returns `None` if the
    /// entity is not live.
    pub fn remove_entity(&mut self, entity: Entity) -> (r: Option<TypeMap<C>>)
        requires
            old(self).wf(),
            old(self).entities().is_live(entity.id()) ==> entity.id().1 < u64::MAX,
        ensures
            final(self).wf(),
            old(self).removes_entity(entity, *final(self), r),
    {
        if !self.entities.deallocate(entity) {
            return None;
        }
        let index = entity.index();
        let mut components: TypeMap<C> = TypeMap::new();
        let mut i: usize = 0;
        proof {
            assert(keys_before(old(self).stores(), 0) =~= Set::<usize>::empty());
            assert(components.entries() =~= old(self).components_of(index).restrict(
                keys_before(old(self).stores(), 0),
            ));
        }
        while i < self.components.len()
            invariant
                old(self).wf(),
                self.wf(),
                components.wf(),
                self.entities() == old(self).entities().deallocate(entity.id()).0,
                i <= self.stores().len(),
                self.stores().len() == old(self).stores().len(),
                forall|j: int|
                    0 <= j < self.stores().len() ==> (#[trigger] self.stores()[j]).0 == old(self).stores()[j].0,
                forall|j: int| i <= j < self.stores().len() ==> self.stores()[j] == old(self).stores()[j],
                forall|j: int|
                    0 <= j < i ==> (#[trigger] self.stores()[j]).1.entries() == old(self).stores()[j].1.entries().remove(index),
                components.entries() == old(self).components_of(index).restrict(
                    keys_before(old(self).stores(), i as int),
                ),
            decreases self.stores().len() - i,
        {
            let key = self.components[i].0;
            let ghost before_stores = self.stores();
            proof {
                lemma_keys_before_next(old(self).stores(), i as int);
                lemma_pair_is_entry(old(self).stores(), i as int);
            }
            match self.components[i].1.remove(index) {
                Some(c) => {
                    components.insert(TypeKey(key), c);
                },
                None => {},
            }
            proof {
                assert forall|j: int| 0 <= j < self.stores().len() && j != i implies self.stores()[j]
                    == before_stores[j] by {}
                assert forall|a: int, b: int| 0 <= a < b < self.stores().len() implies self.stores()[a].0
                    < self.stores()[b].0 by {
                    assert(old(self).stores()[a].0 < old(self).stores()[b].0);
                }
                assert(components.entries() =~= old(self).components_of(index).restrict(
                    keys_before(old(self).stores(), i + 1),
                ));
            }
            i = i + 1;
        }
        proof {
            lemma_keys_before_all(old(self).stores());
            assert forall|key: TypeKey| self.is_registered(key) <==> old(self).is_registered(key) by {
                if self.is_registered(key) {
                    let j = place_of(self.stores(), key.0);
                    assert(old(self).stores()[j].0 == key.0);
                }
                if old(self).is_registered(key) {
                    let j = place_of(old(self).stores(), key.0);
                    assert(self.stores()[j].0 == key.0);
                }
            }
            assert forall|key: TypeKey| #[trigger] old(self).is_registered(key) implies self.rows(
                key,
            ) == old(self).rows(key).remove(index) by {
                let j = place_of(old(self).stores(), key.0);
                lemma_pair_is_entry(old(self).stores(), j);
                lemma_pair_is_entry(self.stores(), j);
            }
            assert(components.entries() =~= old(self).components_of(index));
        }
        Some(components)
    }

    /// Copies of all components of the entity, or `None` if the entity is
    /// not live.
    pub fn clone_entity_components(&self, entity: Entity) -> (r: Option<TypeMap<C>>)
        requires
            self.wf(),
        ensures
            self.clones_components(entity, r),
    {
        if !self.entities.is_live(entity) {
            return None;
        }
        let index = entity.index();
        let mut components: TypeMap<C> = TypeMap::new();
        let mut i: usize = 0;
        proof {
            assert(keys_before(self.stores(), 0) =~= Set::<usize>::empty());
            assert(components.entries().dom() =~= self.components_of(index).dom().intersect(
                keys_before(self.stores(), 0),
            ));
        }
        while i < self.components.len()
            invariant
                self.wf(),
                components.wf(),
                i <= self.stores().len(),
                components.entries().dom() == self.components_of(index).dom().intersect(
                    keys_before(self.stores(), i as int),
                ),
                forall|k: usize| #[trigger]
                    components.entries().contains_key(k) ==> cloned(
                        self.components_of(index)[k],
                        components.entries()[k],
                    ),
            decreases self.stores().len() - i,
        {
            let key = self.components[i].0;
            proof {
                lemma_keys_before_next(self.stores(), i as int);
                lemma_pair_is_entry(self.stores(), i as int);
            }
            match self.components[i].1.get(index) {
                Some(c) => {
                    components.insert(TypeKey(key), c.clone());
                },
                None => {},
            }
            proof {
                assert(components.entries().dom() =~= self.components_of(index).dom().intersect(
                    keys_before(self.stores(), i + 1),
                ));
            }
            i = i + 1;
        }
        proof {
            lemma_keys_before_all(self.stores());
            assert(components.entries().dom() =~= self.components_of(index).dom());
        }
        Some(components)
    }

    /// A scanner over all live entities, each at its own index. Joined
    /// with scanners over components it gives the entity of each result.
    pub fn scan_entities(&self) -> (r: EntityScanner)
        ensures
            r.wf(),
            r.state() == self.entities(),
            r.position() == 0,
    {
        self.entities.scan_live()
    }

    /// A scanner over the live entities of `set`, each at its own index.
    pub fn scan_entity_set<'a>(&'a self, set: &'a EntitySet) -> (r: EntitySetScanner<'a>)
        requires
            set.wf(),
        ensures
            r.wf(),
            r.state() == self.entities(),
            r.members() == set.members(),
            r.position() == 0,
    {
        self.entities.scan_set(set)
    }

    /// Takes the entities that are not live out of `set`.
    pub fn prune_entity_set(&self, set: &mut EntitySet)
        requires
            old(set).wf(),
        ensures
            final(set).wf(),
            forall|e: Entity|
                final(set)@.contains(e) <==> old(set)@.contains(e) && self.entities().is_live(
                    e.id(),
                ),
    {
        self.entities.prune_set(set)
    }

    /// The allocator, for reading, and all storages, each lent for writing
    /// beside the number of its kind, the one of the largest kind first.
    /// Whatever is done to a storage is done to the storage of its kind;
    /// nothing else changes.
    pub fn split<'a>(&'a mut self) -> (r: (Vec<(usize, &'a mut S)>, &'a EntityAllocator))
        requires
            old(self).wf(),
        ensures
            r.1@ == old(self).entities(),
            final(self).entities() == old(self).entities(),
            keys_descending(r.0@),
            keys_ascending(final(self).stores()),
            final(self).storages().dom() == old(self).storages().dom(),
            forall|k: usize| has_key(r.0@, k) <==> old(self).storages().contains_key(k),
            forall|k: usize| #[trigger]
                has_key(r.0@, k) ==> {
                    &&& *r.0@[place_of(r.0@, k)].1 == old(self).storages()[k]
                    &&& r.0@[place_of(r.0@, k)].1.wf()
                    &&& *final(r.0@[place_of(r.0@, k)].1) == final(self).storages()[k]
                },
    {
        proof {
            assert forall|k: usize| #[trigger]
                self.storages().contains_key(k) implies self.storages()[k].wf() by {
                let j = place_of(self.stores(), k);
                lemma_pair_is_entry(self.stores(), j);
            }
        }
        (split_entries(self.components.as_mut_slice()), &self.entities)
    }

    /// A handle for reading the components of one kind.
    pub fn read_component(&self, key: TypeKey) -> (r: Result<
        ComponentHandle<'_, &S>,
        UnregisteredComponent,
    >)
        requires
            self.wf(),
        ensures
            match r {
                Ok(handle) => {
                    &&& self.is_registered(key)
                    &&& *handle.storage() == self.storages()[key.0]
                    &&& handle.entities() == self.entities()
                    &&& handle.storage().wf()
                },
                Err(_) => !self.is_registered(key),
            },
    {
        let pos = lower_bound(self.components.as_slice(), 0, key.0);
        if pos < self.components.len() && self.components[pos].0 == key.0 {
            proof {
                lemma_pair_is_entry(self.stores(), pos as int);
            }
            Ok(ComponentHandle(&self.components[pos].1, &self.entities))
        } else {
            proof {
                lemma_not_found(self.stores(), pos as int, key.0);
            }
            Err(UnregisteredComponent)
        }
    }

    /// A handle for reading and writing the components of one kind. What
    /// is done through the handle is done to the storage of that kind;
    /// nothing else changes.
    pub fn get_mut_component(&mut self, key: TypeKey) -> (r: Result<
        ComponentHandle<'_, &mut S>,
        UnregisteredComponent,
    >)
        requires
            old(self).wf(),
        ensures
            final(self).entities() == old(self).entities(),
            match r {
                Ok(handle) => {
                    &&& old(self).is_registered(key)
                    &&& *handle.storage() == old(self).storages()[key.0]
                    &&& handle.entities() == old(self).entities()
                    &&& handle.storage().wf()
                    &&& final(self).stores() == old(self).stores().update(
                        place_of(old(self).stores(), key.0),
                        (key.0, *final(handle.storage())),
                    )
                },
                Err(_) => !old(self).is_registered(key) && final(self).stores() == old(self).stores(),
            },
    {
        let pos = lower_bound(self.components.as_slice(), 0, key.0);
        if pos < self.components.len() && self.components[pos].0 == key.0 {
            proof {
                lemma_pair_is_entry(self.stores(), pos as int);
            }
            let pair = &mut self.components[pos];
            Ok(ComponentHandle(&mut pair.1, &self.entities))
        } else {
            proof {
                lemma_not_found(self.stores(), pos as int, key.0);
            }
            Err(UnregisteredComponent)
        }
    }

    /// A handle for reading and writing the components of one kind; the
    /// same as [`Self::get_mut_component`].
    pub fn write_component(&mut self, key: TypeKey) -> (r: Result<
        ComponentHandle<'_, &mut S>,
        UnregisteredComponent,
    >)
        requires
            old(self).wf(),
        ensures
            final(self).entities() == old(self).entities(),
            match r {
                Ok(handle) => {
                    &&& old(self).is_registered(key)
                    &&& *handle.storage() == old(self).storages()[key.0]
                    &&& handle.entities() == old(self).entities()
                    &&& handle.storage().wf()
                    &&& final(self).stores() == old(self).stores().update(
                        place_of(old(self).stores(), key.0),
                        (key.0, *final(handle.storage())),
                    )
                },
                Err(_) => !old(self).is_registered(key) && final(self).stores() == old(self).stores(),
            },
    {
        self.get_mut_component(key)
    }
}

impl<S: Clone> Clone for Ecs<S> {
    /// A copy of the container as it is now: the same entities, and for
    /// each registered kind a copy of its storage.
    fn clone(&self) -> (r: Ecs<S>)
        ensures
            r.entities() == self.entities(),
            r.stores().len() == self.stores().len(),
            forall|i: int|
                0 <= i < self.stores().len() ==> (#[trigger] r.stores()[i]).0 == self.stores()[i].0
                    && cloned(self.stores()[i].1, r.stores()[i].1),
    {
        let mut components: Vec<(usize, S)> = Vec::new();
        let mut i: usize = 0;
        while i < self.components.len()
            invariant
                i <= self.components@.len(),
                components@.len() == i,
                forall|j: int|
                    0 <= j < i ==> (#[trigger] components@[j]).0 == self.components@[j].0 && cloned(
                        self.components@[j].1,
                        components@[j].1,
                    ),
            decreases self.components@.len() - i,
        {
            let pair = &self.components[i];
            components.push((pair.0, pair.1.clone()));
            i = i + 1;
        }
        Ecs { entities: self.entities.clone(), components }
    }
}

/// What came of putting a component into a storage through a handle.
pub enum ComponentInsertResult<T> {
    /// The entity had no component of this kind before.
    Inserted,
    /// The entity had the given component before.
    Updated(T),
    /// The entity is not live; the component was not put in and comes back.
    EntityIsDead(T),
}

/// Access to the components of one kind, which knows which entities are
/// live.
pub struct ComponentHandle<'a, R: 'a>(R, &'a EntityAllocator);

impl<'a, R> ComponentHandle<'a, R> {
    /// A handle to the given storage, for the entities of the given
    /// allocator.
    pub fn new(storage: R, entities: &'a EntityAllocator) -> (r: ComponentHandle<'a, R>)
        ensures
            r.storage() == storage,
            r.entities() == entities@,
    {
        ComponentHandle(storage, entities)
    }

    /// The storage that the handle gives access to.
    pub closed spec fn storage(&self) -> R {
        self.0
    }

    /// The state of the allocator that says which entities are live.
    pub closed spec fn entities(&self) -> AllocatorState {
        self.1@
    }

    /// Whether the entity is live.
    pub fn entity_is_live(&self, entity: Entity) -> (r: bool)
        ensures
            r == self.entities().is_live(entity.id()),
    {
        self.1.is_live(entity)
    }

    /// A scanner over all live entities, each at its own index.
    pub fn scan_entities(&self) -> (r: EntityScanner<'a>)
        ensures
            r.wf(),
            r.state() == self.entities(),
            r.position() == 0,
    {
        self.1.scan_live()
    }

    /// A scanner over the live entities of `set`, each at its own index.
    pub fn scan_entity_set(&self, set: &'a EntitySet) -> (r: EntitySetScanner<'a>)
        requires
            set.wf(),
        ensures
            r.wf(),
            r.state() == self.entities(),
            r.members() == set.members(),
            r.position() == 0,
    {
        self.1.scan_set(set)
    }
}

impl<'a, 'b, S: ComponentStorage<'b>> ComponentHandle<'a, &'a S> {
    /// The entity's component, if the entity is live and has one.
    pub fn get(&'b self, entity: Entity) -> (r: Option<&'b S::Component>)
        requires
            self.storage().wf(),
        ensures
            match r {
                Some(c) => self.entities().is_live(entity.id())
                    && self.storage().entries().contains_key(entity.id().0) && *c
                    == self.storage().entries()[entity.id().0],
                None => !self.entities().is_live(entity.id())
                    || !self.storage().entries().contains_key(entity.id().0),
            },
    {
        if self.1.is_live(entity) {
            self.0.get(entity.index())
        } else {
            None
        }
    }

    /// A fresh scanner over all components of the storage.
    pub fn scan(&'b self) -> (s: S::Scan)
        requires
            self.storage().wf(),
        ensures
            s.wf(),
            s.indices() == self.storage().entries().dom(),
            forall|k: usize, x: &'b S::Component|
                self.storage().entries().contains_key(k) ==> (#[trigger] s.yields(k, x) <==> *x
                    == self.storage().entries()[k]),
    {
        self.0.scan()
    }
}

impl<'a, 'b, S: ComponentStorage<'b>> ComponentHandle<'a, &'a mut S> {
    /// The entity's component, if the entity is live and has one.
    pub fn get(&'b self, entity: Entity) -> (r: Option<&'b S::Component>)
        requires
            self.storage().wf(),
        ensures
            match r {
                Some(c) => self.entities().is_live(entity.id())
                    && self.storage().entries().contains_key(entity.id().0) && *c
                    == self.storage().entries()[entity.id().0],
                None => !self.entities().is_live(entity.id())
                    || !self.storage().entries().contains_key(entity.id().0),
            },
    {
        if self.1.is_live(entity) {
            self.0.get(entity.index())
        } else {
            None
        }
    }

    /// A fresh scanner over all components of the storage.
    pub fn scan(&'b self) -> (s: S::Scan)
        requires
            self.storage().wf(),
        ensures
            s.wf(),
            s.indices() == self.storage().entries().dom(),
            forall|k: usize, x: &'b S::Component|
                self.storage().entries().contains_key(k) ==> (#[trigger] s.yields(k, x) <==> *x
                    == self.storage().entries()[k]),
    {
        self.0.scan()
    }

    /// The entity's component, if the entity is live and has one, for
    /// writing. Whatever is written becomes the entity's component;
    /// nothing else changes.
    pub fn get_mut(&'b mut self, entity: Entity) -> (r: Option<&'b mut S::Component>)
        requires
            old(self).storage().wf(),
        ensures
            final(self).storage().wf(),
            final(self).entities() == old(self).entities(),
            *final(final(self).storage()) == *final(old(self).storage()),
            match r {
                Some(c) => {
                    &&& old(self).entities().is_live(entity.id())
                    &&& old(self).storage().entries().contains_key(entity.id().0)
                    &&& *c == old(self).storage().entries()[entity.id().0]
                    &&& final(self).storage().entries() == old(self).storage().entries().insert(
                        entity.id().0,
                        *final(c),
                    )
                },
                None => {
                    &&& !old(self).entities().is_live(entity.id()) || !old(self).storage().entries().contains_key(entity.id().0)
                    &&& final(self).storage().entries() == old(self).storage().entries()
                },
            },
    {
        if self.1.is_live(entity) {
            self.0.get_mut(entity.index())
        } else {
            None
        }
    }

    /// Gives the component to the entity, unless the entity is not live,
    /// and says what came of it.
    pub fn insert(&'b mut self, entity: Entity, component: S::Component) -> (r:
        ComponentInsertResult<S::Component>)
        requires
            old(self).storage().wf(),
        ensures
            final(self).storage().wf(),
            final(self).entities() == old(self).entities(),
            *final(final(self).storage()) == *final(old(self).storage()),
            match r {
                ComponentInsertResult::Inserted => {
                    &&& old(self).entities().is_live(entity.id())
                    &&& !old(self).storage().entries().contains_key(entity.id().0)
                    &&& final(self).storage().entries() == old(self).storage().entries().insert(
                        entity.id().0,
                        component,
                    )
                },
                ComponentInsertResult::Updated(before) => {
                    &&& old(self).entities().is_live(entity.id())
                    &&& old(self).storage().entries().contains_key(entity.id().0)
                    &&& before == old(self).storage().entries()[entity.id().0]
                    &&& final(self).storage().entries() == old(self).storage().entries().insert(
                        entity.id().0,
                        component,
                    )
                },
                ComponentInsertResult::EntityIsDead(given) => {
                    &&& !old(self).entities().is_live(entity.id())
                    &&& given == component
                    &&& final(self).storage().entries() == old(self).storage().entries()
                },
            },
    {
        if !self.1.is_live(entity) {
            ComponentInsertResult::EntityIsDead(component)
        } else {
            match self.0.insert(entity.index(), component) {
                Some(before) => ComponentInsertResult::Updated(before),
                None => ComponentInsertResult::Inserted,
            }
        }
    }

    /// Takes the entity's component out of the storage and returns it, if
    /// the entity is live and has one.
    pub fn remove(&'b mut self, entity: Entity) -> (r: Option<S::Component>)
        requires
            old(self).storage().wf(),
        ensures
            final(self).storage().wf(),
            final(self).entities() == old(self).entities(),
            *final(final(self).storage()) == *final(old(self).storage()),
            old(self).entities().is_live(entity.id()) ==> r == entry_at(
                old(self).storage().entries(),
                entity.id().0,
            ) && final(self).storage().entries() == old(self).storage().entries().remove(
                entity.id().0,
            ),
            !old(self).entities().is_live(entity.id()) ==> r is None && final(self).storage().entries() == old(self).storage().entries(),
    {
        if self.1.is_live(entity) {
            self.0.remove(entity.index())
        } else {
            None
        }
    }

    /// A fresh scanner over all components of the storage, which hands
    /// them out for writing.
    pub fn scan_mut(&'b mut self) -> (s: S::ScanMut)
        requires
            old(self).storage().wf(),
        ensures
            s.wf(),
            s.indices() == old(self).storage().entries().dom(),
            forall|k: usize, x: &'b mut S::Component|
                old(self).storage().entries().contains_key(k) && #[trigger] s.yields(k, x) ==> *x
                    == old(self).storage().entries()[k],
            final(self).storage().wf(),
            final(self).entities() == old(self).entities(),
            *final(final(self).storage()) == *final(old(self).storage()),
    {
        self.0.scan_mut()
    }
}

} // verus!
