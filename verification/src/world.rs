use crate::component::{entry_at, ComponentStorage, TypeKey};
use crate::component_scanner::ComponentScanner;
use crate::ecs::{with_kind, ComponentHandle, Ecs, UnregisteredComponent};
use crate::entity::{Entity, EntityAllocator, EntityScanner, EntitySet, EntitySetScanner};
use crate::sorted_pairs::{has_key, keys_ascending, keys_descending, place_of};
use crate::type_map::TypeMap;
use vstd::prelude::*;

verus! {

/// Why an operation on a [`World`] failed.
#[derive(Debug, PartialEq, Eq, Clone, Copy, Structural)]
pub enum WorldError {
    /// A kind of component was used that is not registered.
    UnregisteredComponent,
    /// The world holds no resource of the given kind.
    ResourceNotFound(TypeKey),
}

/// A container of entities and components together with resources: values
/// of which the world holds at most one of each kind.
pub struct World<S, R> {
    ecs: Ecs<S>,
    resources: TypeMap<R>,
}

/// The result of an operation on the components as the world hands it on:
/// the same value, or the error [`WorldError::UnregisteredComponent`].
pub open spec fn in_world<T>(r: Result<T, UnregisteredComponent>) -> Result<T, WorldError> {
    match r {
        Ok(value) => Ok(value),
        Err(_) => Err(WorldError::UnregisteredComponent),
    }
}

impl<C: Clone, S: for<'s> ComponentStorage<'s, Component = C>, R> World<S, R> {
    /// The entities and components of the world.
    pub closed spec fn ecs(&self) -> Ecs<S> {
        self.ecs
    }

    /// The map that holds the resources of the world.
    pub closed spec fn resource_map(&self) -> TypeMap<R> {
        self.resources
    }

    /// The resources of the world, by kind.
    pub open spec fn resources(&self) -> Map<usize, R> {
        self.resource_map().entries()
    }

    /// The entities, the components and the resources are consistent.
    pub open spec fn wf(&self) -> bool {
        self.ecs().wf() && self.resource_map().wf()
    }

    /// A world without entities, registered kinds or resources.
    pub fn new() -> (r: World<S, R>)
        ensures
            r.wf(),
            r.ecs().entities().slots.len() == 0,
            r.ecs().stores().len() == 0,
            r.resources() == Map::<usize, R>::empty(),
    {
        World { ecs: Ecs::new(), resources: TypeMap::new() }
    }

    /// Puts the resource into the world and returns the one of the same
    /// kind that was there before.
    pub fn insert_resource(&mut self, key: TypeKey, resource: R) -> (r: Option<R>)
        requires
            old(self).wf(),
        ensures
            final(self).wf(),
            final(self).ecs() == old(self).ecs(),
            r == entry_at(old(self).resources(), key.0),
            final(self).resources() == old(self).resources().insert(key.0, resource),
    {
        self.resources.insert(key, resource)
    }

    /// Takes the resource of the given kind out of the world and returns
    /// it.
    pub fn remove_resource(&mut self, key: TypeKey) -> (r: Option<R>)
        requires
            old(self).wf(),
        ensures
            final(self).wf(),
            final(self).ecs() == old(self).ecs(),
            r == entry_at(old(self).resources(), key.0),
            final(self).resources() == old(self).resources().remove(key.0),
    {
        self.resources.remove(key)
    }

    /// The resource of the given kind, for reading.
    pub fn read_resource(&self, key: TypeKey) -> (r: Result<&R, WorldError>)
        requires
            self.wf(),
        ensures
            match r {
                Ok(resource) => self.resources().contains_key(key.0) && *resource
                    == self.resources()[key.0],
                Err(e) => !self.resources().contains_key(key.0) && e
                    == WorldError::ResourceNotFound(key),
            },
    {
        match self.resources.get(key) {
            Some(resource) => Ok(resource),
            None => Err(WorldError::ResourceNotFound(key)),
        }
    }

    /// The resource of the given kind, for writing. Whatever is written
    /// becomes the resource of that kind; nothing else changes.
    pub fn write_resource(&mut self, key: TypeKey) -> (r: Result<&mut R, WorldError>)
        requires
            old(self).wf(),
        ensures
            final(self).wf(),
            final(self).ecs() == old(self).ecs(),
            match r {
                Ok(resource) => {
                    &&& old(self).resources().contains_key(key.0)
                    &&& *resource == old(self).resources()[key.0]
                    &&& final(self).resources() == old(self).resources().insert(
                        key.0,
                        *final(resource),
                    )
                },
                Err(e) => {
                    &&& !old(self).resources().contains_key(key.0)
                    &&& e == WorldError::ResourceNotFound(key)
                    &&& final(self).resources() == old(self).resources()
                },
            },
    {
        match self.resources.get_mut(key) {
            Some(resource) => Ok(resource),
            None => Err(WorldError::ResourceNotFound(key)),
        }
    }

    /// Registers a kind of component, with an empty storage. A kind that is
    /// registered already stays as it is.
    pub fn register_component(&mut self, key: TypeKey)
        requires
            old(self).wf(),
        ensures
            final(self).wf(),
            final(self).resource_map() == old(self).resource_map(),
            final(self).ecs().entities() == old(self).ecs().entities(),
            final(self).ecs().is_registered(key),
            final(self).ecs().storages() == with_kind(
                old(self).ecs().storages(),
                key.0,
                final(self).ecs().storages()[key.0],
            ),
            old(self).ecs().is_registered(key) ==> final(self).ecs().stores() == old(self).ecs().stores(),
            !old(self).ecs().is_registered(key) ==> call_ensures(
                S::default,
                (),
                final(self).ecs().storages()[key.0],
            ) && final(self).ecs().rows(key) == Map::<usize, C>::empty(),
    {
        self.ecs.register_component(key);
    }

    /// Allocates an entity and gives it the components of the bundle, if
    /// there is one. Fails if the bundle holds a component of a kind that
    /// is not registered; the entity is allocated and has the components of
    /// registered kinds even then.
    pub fn add_entity(&mut self, components: Option<TypeMap<C>>) -> (r: Result<Entity, WorldError>)
        requires
            old(self).wf(),
            components is Some ==> components->Some_0.wf(),
        ensures
            final(self).wf(),
            final(self).resource_map() == old(self).resource_map(),
            exists|inner: Result<Entity, UnregisteredComponent>|
                #![trigger in_world(inner)]
                r == in_world(inner) && old(self).ecs().adds_entity(
                    components,
                    final(self).ecs(),
                    inner,
                ),
    {
        let inner = self.ecs.add_entity(components);
        let r = match inner {
            Ok(entity) => Ok(entity),
            Err(_) => Err(WorldError::UnregisteredComponent),
        };
        assert(r == in_world(inner));
        r
    }

    /// Gives the components of the bundle to the entity, each in the
    /// storage of its kind. Does nothing if the entity is not live. Fails
    /// if the bundle holds a component of a kind that is not registered;
    /// the components of registered kinds are in their storages even then.
    pub fn insert_components(&mut self, entity: Entity, components: TypeMap<C>) -> (r: Result<
        (),
        WorldError,
    >)
        requires
            old(self).wf(),
            components.wf(),
        ensures
            final(self).wf(),
            final(self).resource_map() == old(self).resource_map(),
            exists|inner: Result<Option<TypeMap<C>>, UnregisteredComponent>|
                #![trigger old(self).ecs().gives_components(entity, components.entries(), final(self).ecs(), inner)]
                (r is Err <==> inner is Err) && old(self).ecs().gives_components(
                    entity,
                    components.entries(),
                    final(self).ecs(),
                    inner,
                ),
            r is Err ==> r->Err_0 == WorldError::UnregisteredComponent,
    {
        let inner = self.ecs.insert_components(entity, components);
        let r = match inner {
            Ok(_) => Ok(()),
            Err(_) => Err(WorldError::UnregisteredComponent),
        };
        assert((r is Err <==> inner is Err) && old(self).ecs().gives_components(
            entity,
            components.entries(),
            self.ecs(),
            inner,
        ));
        r
    }

    /// Takes the entity and all its components out of the world and
    /// returns the components. Does nothing and returns `None` if the
    /// entity is not live.
    pub fn remove_entity(&mut self, entity: Entity) -> (r: Option<TypeMap<C>>)
        requires
            old(self).wf(),
            old(self).ecs().entities().is_live(entity.id()) ==> entity.id().1 < u64::MAX,
        ensures
            final(self).wf(),
            final(self).resource_map() == old(self).resource_map(),
            old(self).ecs().removes_entity(entity, final(self).ecs(), r),
    {
        self.ecs.remove_entity(entity)
    }

    /// Whether the entity is live.
    pub fn entity_is_live(&self, entity: Entity) -> (r: bool)
        ensures
            r == self.ecs().entities().is_live(entity.id()),
    {
        self.ecs.entity_is_live(entity)
    }

    /// Copies of all components of the entity, or `None` if the entity is
    /// not live.
    pub fn clone_entity_components(&self, entity: Entity) -> (r: Option<TypeMap<C>>)
        requires
            self.wf(),
        ensures
            self.ecs().clones_components(entity, r),
    {
        self.ecs.clone_entity_components(entity)
    }

    /// A scanner over all live entities, each at its own index.
    pub fn scan_entities(&self) -> (r: EntityScanner)
        ensures
            r.wf(),
            r.state() == self.ecs().entities(),
            r.position() == 0,
    {
        self.ecs.scan_entities()
    }

    /// A scanner over the live entities of `set`, each at its own index.
    pub fn scan_entity_set<'a>(&'a self, set: &'a EntitySet) -> (r: EntitySetScanner<'a>)
        requires
            set.wf(),
        ensures
            r.wf(),
            r.state() == self.ecs().entities(),
            r.members() == set.members(),
            r.position() == 0,
    {
        self.ecs.scan_entity_set(set)
    }

    /// Takes the entities that are not live out of `set`.
    pub fn prune_entity_set(&self, set: &mut EntitySet)
        requires
            old(set).wf(),
        ensures
            final(set).wf(),
            forall|e: Entity|
                final(set)@.contains(e) <==> old(set)@.contains(e) && self.ecs().entities().is_live(
                    e.id(),
                ),
    {
        self.ecs.prune_entity_set(set)
    }

    /// The allocator, for reading, and all storages and all resources, each
    /// lent for writing beside the number of its kind, the one of the
    /// largest kind first. Whatever is done to a storage or a resource is
    /// done to the one of its kind in the world; nothing else changes.
    pub fn split<'a>(&'a mut self) -> (r: (
        Vec<(usize, &'a mut S)>,
        &'a EntityAllocator,
        Vec<(usize, &'a mut R)>,
    ))
        requires
            old(self).wf(),
        ensures
            r.1@ == old(self).ecs().entities(),
            final(self).ecs().entities() == old(self).ecs().entities(),
            keys_descending(r.0@),
            keys_ascending(final(self).ecs().stores()),
            final(self).ecs().storages().dom() == old(self).ecs().storages().dom(),
            forall|k: usize| has_key(r.0@, k) <==> old(self).ecs().storages().contains_key(k),
            forall|k: usize| #[trigger]
                has_key(r.0@, k) ==> {
                    &&& *r.0@[place_of(r.0@, k)].1 == old(self).ecs().storages()[k]
                    &&& r.0@[place_of(r.0@, k)].1.wf()
                    &&& *final(r.0@[place_of(r.0@, k)].1) == final(self).ecs().storages()[k]
                },
            final(self).resource_map().wf(),
            keys_descending(r.2@),
            final(self).resources().dom() == old(self).resources().dom(),
            forall|k: usize| has_key(r.2@, k) <==> old(self).resources().contains_key(k),
            forall|k: usize| #[trigger]
                has_key(r.2@, k) ==> {
                    &&& *r.2@[place_of(r.2@, k)].1 == old(self).resources()[k]
                    &&& *final(r.2@[place_of(r.2@, k)].1) == final(self).resources()[k]
                },
    {
        let (stores, entities) = self.ecs.split();
        let resources = self.resources.values_mut();
        (stores, entities, resources)
    }

    /// A handle for reading the components of one kind.
    pub fn read_component(&self, key: TypeKey) -> (r: Result<
        ComponentHandle<'_, &S>,
        WorldError,
    >)
        requires
            self.wf(),
        ensures
            match r {
                Ok(handle) => {
                    &&& self.ecs().is_registered(key)
                    &&& *handle.storage() == self.ecs().storages()[key.0]
                    &&& handle.entities() == self.ecs().entities()
                    &&& handle.storage().wf()
                },
                Err(e) => !self.ecs().is_registered(key) && e == WorldError::UnregisteredComponent,
            },
    {
        match self.ecs.read_component(key) {
            Ok(handle) => Ok(handle),
            Err(_) => Err(WorldError::UnregisteredComponent),
        }
    }

    /// A handle for reading and writing the components of one kind. What
    /// is done through the handle is done to the storage of that kind;
    /// nothing else changes.
    pub fn write_component(&mut self, key: TypeKey) -> (r: Result<
        ComponentHandle<'_, &mut S>,
        WorldError,
    >)
        requires
            old(self).wf(),
        ensures
            final(self).resource_map() == old(self).resource_map(),
            final(self).ecs().entities() == old(self).ecs().entities(),
            match r {
                Ok(handle) => {
                    &&& old(self).ecs().is_registered(key)
                    &&& *handle.storage() == old(self).ecs().storages()[key.0]
                    &&& handle.entities() == old(self).ecs().entities()
                    &&& handle.storage().wf()
                    &&& final(self).ecs().stores() == old(self).ecs().stores().update(
                        place_of(old(self).ecs().stores(), key.0),
                        (key.0, *final(handle.storage())),
                    )
                },
                Err(e) => {
                    &&& !old(self).ecs().is_registered(key)
                    &&& e == WorldError::UnregisteredComponent
                    &&& final(self).ecs().stores() == old(self).ecs().stores()
                },
            },
    {
        match self.ecs.write_component(key) {
            Ok(handle) => Ok(handle),
            Err(_) => Err(WorldError::UnregisteredComponent),
        }
    }

    /// A handle for reading and writing the components of one kind; the
    /// same as [`Self::write_component`].
    pub fn get_mut_component(&mut self, key: TypeKey) -> (r: Result<
        ComponentHandle<'_, &mut S>,
        WorldError,
    >)
        requires
            old(self).wf(),
        ensures
            final(self).resource_map() == old(self).resource_map(),
            final(self).ecs().entities() == old(self).ecs().entities(),
            match r {
                Ok(handle) => {
                    &&& old(self).ecs().is_registered(key)
                    &&& *handle.storage() == old(self).ecs().storages()[key.0]
                    &&& handle.entities() == old(self).ecs().entities()
                    &&& handle.storage().wf()
                    &&& final(self).ecs().stores() == old(self).ecs().stores().update(
                        place_of(old(self).ecs().stores(), key.0),
                        (key.0, *final(handle.storage())),
                    )
                },
                Err(e) => {
                    &&& !old(self).ecs().is_registered(key)
                    &&& e == WorldError::UnregisteredComponent
                    &&& final(self).ecs().stores() == old(self).ecs().stores()
                },
            },
    {
        match self.ecs.get_mut_component(key) {
            Ok(handle) => Ok(handle),
            Err(_) => Err(WorldError::UnregisteredComponent),
        }
    }
}

} // verus!
