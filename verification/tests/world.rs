use simplecs::component::{Component, ComponentStorage, TypeKey};
use simplecs::component_scanner::{
    component_scan_join, ComponentScanner, ComponentScannerCombine,
};
use simplecs::dense_component::DenseComponentStorage;
use simplecs::ecs::{ComponentInsertResult, Ecs, UnregisteredComponent};
use simplecs::entity::{Entity, EntitySet};
use simplecs::sparse_component::SparseComponentStorage;
use simplecs::type_map::TypeMap;
use simplecs::world::{World, WorldError};
use simplecs::world_multi_lock::{
    lock_plan, LockId, LockRequest, ReadComponent, ReadResource, WorldHandle, WorldLocker,
    WorldMultiLocker, WriteComponent, WriteResource,
};

const POSITION: TypeKey = TypeKey(7);
const VELOCITY: TypeKey = TypeKey(3);
const PLAYER: TypeKey = TypeKey(5);
const TAGGED: TypeKey = TypeKey(9);
const UNKNOWN: TypeKey = TypeKey(1000);

#[derive(Clone, Debug, PartialEq)]
enum Kind {
    Position(i32),
    Velocity(i32),
    Player,
}

type Dense = DenseComponentStorage<Kind>;
type Sparse = SparseComponentStorage<Kind>;

// A component type names the storage that suits it.
impl Component for Kind {
    type Storage = Dense;
}

struct TaggedResource(pub EntitySet);

fn bundle<C>(components: Vec<(TypeKey, C)>) -> TypeMap<C> {
    let mut map = TypeMap::new();
    for (key, component) in components {
        map.insert(key, component);
    }
    map
}

fn world_case<S>()
where
    S: for<'a> ComponentStorage<'a, Component = Kind>,
{
    let position = Kind::Position(0);
    let velocity = Kind::Velocity(1);
    let player = Kind::Player;
    let mut world: World<S, TaggedResource> = World::new();

    // Set up an example world
    {
        world.register_component(POSITION);
        world.register_component(VELOCITY);
        world.register_component(PLAYER);

        for _ in 0..5 {
            let components = bundle(vec![
                (POSITION, position.clone()),
                (VELOCITY, velocity.clone()),
            ]);
            world.add_entity(Some(components)).unwrap();
        }

        let mut tagged = EntitySet::new();
        for _ in 0..5 {
            let components = bundle(vec![
                (POSITION, position.clone()),
                (VELOCITY, velocity.clone()),
            ]);
            let e = world.add_entity(Some(components)).unwrap();
            tagged.insert(e);
        }

        for _ in 0..5 {
            let components = bundle(vec![(POSITION, position.clone())]);
            world.add_entity(Some(components)).unwrap();
        }

        world.insert_resource(TAGGED, TaggedResource(tagged));

        let player_components = bundle(vec![
            (POSITION, position.clone()),
            (VELOCITY, velocity.clone()),
            (PLAYER, player.clone()),
        ]);
        world.add_entity(Some(player_components)).unwrap();
    }

    // Run a set of queries on this world
    {
        // Several components and resources are locked at once, in an order
        // that does not depend on the order in which they are named.
        let mut handles = world
            .multi_lock(&(
                WriteComponent(POSITION),
                ReadComponent(VELOCITY),
                ReadComponent(PLAYER),
                ReadResource(TAGGED),
            ))
            .unwrap();
        assert_eq!(handles.len(), 4);
        let tagged = match handles.pop() {
            Some(WorldHandle::ReadResource(tagged)) => tagged,
            _ => panic!("the fourth handle is the resource"),
        };
        let players = match handles.pop() {
            Some(WorldHandle::ReadComponent(players)) => players,
            _ => panic!("the third handle reads the players"),
        };
        let velocities = match handles.pop() {
            Some(WorldHandle::ReadComponent(velocities)) => velocities,
            _ => panic!("the second handle reads the velocities"),
        };
        let mut positions = match handles.pop() {
            Some(WorldHandle::WriteComponent(positions)) => positions,
            _ => panic!("the first handle writes the positions"),
        };

        // Query entities with all of a set of components
        for (_pc, _vc) in component_scan_join((positions.scan_mut(), velocities.scan()))
            .iter()
            .collect()
        {
            // update position for velocity, for example
        }

        // All entities with positions and velocities, so there should be 11 total
        assert_eq!(
            component_scan_join((positions.scan_mut(), velocities.scan(),))
                .iter()
                .collect()
                .len(),
            11
        );

        // Limit a query by another query, and there should be only one
        {
            let (_player_position, _player_velocity) =
                component_scan_join((positions.scan_mut(), velocities.scan()))
                    .limit(players.scan())
                    .singleton()
                    .unwrap();
        }

        // We can also invert queries to scan for all non-players
        for (_pc, _vc) in component_scan_join((positions.scan_mut(), velocities.scan()))
            .not(players.scan())
            .iter()
            .collect()
        {
            // Every position and velocity here is for a non-player
        }

        // All entities with positions and *optionally* a velocity, so 16 in total
        assert_eq!(
            component_scan_join((positions.scan_mut(), velocities.scan().opt(),))
                .iter()
                .collect()
                .len(),
            16
        );

        // We can limit by an EntitySet, and there are 5 tagged entities all with positions and
        // velocities, so the count of this query should be 5.
        assert_eq!(
            component_scan_join((positions.scan_mut(), velocities.scan()))
                .limit(velocities.scan_entity_set(&tagged.0))
                .iter()
                .collect()
                .len(),
            5
        );

        // We can also join any query with the full scan of entities to capture Entity out of
        // some query
        let mut seen = 0;
        for (entity, _pc, _vc) in component_scan_join((
            velocities.scan_entities(),
            positions.scan_mut(),
            velocities.scan(),
        ))
        .iter()
        .collect()
        {
            assert!(velocities.entity_is_live(entity));
            seen += 1;
        }
        assert_eq!(seen, 11);
    }
}

#[test]
fn test_world() {
    world_case::<<Kind as Component>::Storage>();
    world_case::<Dense>();
    world_case::<Sparse>();
}

fn requests_of<M: WorldMultiLocker>(lockers: &M) -> Vec<LockRequest> {
    lockers.lockers()
}

fn locks_in_plan(requests: &Vec<LockRequest>) -> Vec<LockId> {
    let ids: Vec<LockId> = requests.iter().map(|r| r.id()).collect();
    lock_plan(&ids).iter().map(|step| step.0).collect()
}

#[test]
fn lock_order_does_not_depend_on_the_order_of_the_requests() {
    let first = requests_of(&(
        WriteComponent(POSITION),
        ReadComponent(VELOCITY),
        ReadComponent(PLAYER),
        ReadResource(TAGGED),
    ));
    let second = requests_of(&(
        ReadResource(TAGGED),
        ReadComponent(PLAYER),
        WriteComponent(POSITION),
        ReadComponent(VELOCITY),
    ));
    let expected = vec![
        LockId::Resource(TAGGED),
        LockId::Component(VELOCITY),
        LockId::Component(PLAYER),
        LockId::Component(POSITION),
    ];
    assert_eq!(locks_in_plan(&first), expected);
    assert_eq!(locks_in_plan(&second), expected);

    // Each step of the plan says where the caller named the lock.
    let ids: Vec<LockId> = first.iter().map(|r| r.id()).collect();
    assert_eq!(
        lock_plan(&ids),
        vec![
            (LockId::Resource(TAGGED), 3),
            (LockId::Component(VELOCITY), 1),
            (LockId::Component(PLAYER), 2),
            (LockId::Component(POSITION), 0),
        ]
    );

    // Requests for the same lock keep the order in which they were named.
    let twice = vec![
        LockId::Component(PLAYER),
        LockId::Resource(TypeKey(2)),
        LockId::Component(PLAYER),
        LockId::Resource(TypeKey(1)),
    ];
    assert_eq!(
        lock_plan(&twice),
        vec![
            (LockId::Resource(TypeKey(1)), 3),
            (LockId::Resource(TypeKey(2)), 1),
            (LockId::Component(PLAYER), 0),
            (LockId::Component(PLAYER), 2),
        ]
    );
    assert_eq!(lock_plan(&vec![]), vec![]);
}

#[test]
fn lock_ids_order_resources_before_components() {
    assert!(LockId::Resource(TypeKey(9)).comes_before(&LockId::Component(TypeKey(1))));
    assert!(!LockId::Component(TypeKey(1)).comes_before(&LockId::Resource(TypeKey(9))));
    assert!(LockId::Resource(TypeKey(1)).comes_before(&LockId::Resource(TypeKey(2))));
    assert!(!LockId::Resource(TypeKey(2)).comes_before(&LockId::Resource(TypeKey(2))));
    assert!(LockId::Component(TypeKey(2)).comes_before(&LockId::Component(TypeKey(3))));
    assert!(LockId::Resource(TypeKey(9)) < LockId::Component(TypeKey(1)));

    assert_eq!(ReadResource(TAGGED).id(), LockId::Resource(TAGGED));
    assert_eq!(WriteResource(TAGGED).id(), LockId::Resource(TAGGED));
    assert_eq!(ReadComponent(PLAYER).id(), LockId::Component(PLAYER));
    assert_eq!(WriteComponent(PLAYER).id(), LockId::Component(PLAYER));
    assert_eq!(ReadResource(TAGGED).request(), LockRequest::ReadResource(TAGGED));
    assert_eq!(WriteResource(TAGGED).request(), LockRequest::WriteResource(TAGGED));
    assert_eq!(ReadComponent(PLAYER).request(), LockRequest::ReadComponent(PLAYER));
    assert_eq!(WriteComponent(PLAYER).request(), LockRequest::WriteComponent(PLAYER));
    assert!(LockRequest::WriteComponent(PLAYER).is_write());
    assert!(LockRequest::WriteResource(PLAYER).is_write());
    assert!(!LockRequest::ReadComponent(PLAYER).is_write());
    assert!(!LockRequest::ReadResource(PLAYER).is_write());
}

fn small_world() -> World<Dense, i32> {
    let mut world: World<Dense, i32> = World::new();
    world.register_component(POSITION);
    world.register_component(VELOCITY);
    world.insert_resource(TAGGED, 10);
    world.insert_resource(PLAYER, 20);
    world
        .add_entity(Some(bundle(vec![
            (POSITION, Kind::Position(1)),
            (VELOCITY, Kind::Velocity(2)),
        ])))
        .unwrap();
    world
}

#[test]
fn multi_lock_fails_with_the_first_missing_lock_of_the_plan() {
    let mut world = small_world();
    // The resource comes first in the plan, whatever the order of the requests.
    let r = world.multi_lock(&(ReadComponent(UNKNOWN), ReadResource(UNKNOWN)));
    assert!(matches!(r, Err(WorldError::ResourceNotFound(UNKNOWN))));
    let r = world.multi_lock(&(ReadResource(UNKNOWN), ReadComponent(UNKNOWN)));
    assert!(matches!(r, Err(WorldError::ResourceNotFound(UNKNOWN))));
    let r = world.multi_lock(&(WriteComponent(UNKNOWN), ReadResource(TAGGED)));
    assert!(matches!(r, Err(WorldError::UnregisteredComponent)));
    let r = world.multi_lock(&(ReadResource(TypeKey(4)), ReadResource(TypeKey(2))));
    assert!(matches!(r, Err(WorldError::ResourceNotFound(TypeKey(2)))));
}

#[test]
fn multi_lock_gives_handles_in_the_order_of_the_requests() {
    let mut world = small_world();
    {
        let mut handles = world
            .multi_lock(&(
                ReadComponent(VELOCITY),
                WriteResource(TAGGED),
                ReadComponent(VELOCITY),
                WriteComponent(POSITION),
                ReadResource(PLAYER),
            ))
            .unwrap();
        assert_eq!(handles.len(), 5);
        match handles.pop() {
            Some(WorldHandle::ReadResource(r)) => assert_eq!(*r, 20),
            _ => panic!("the fifth handle reads a resource"),
        }
        match handles.pop() {
            Some(WorldHandle::WriteComponent(mut positions)) => {
                for (position,) in component_scan_join((positions.scan_mut(),)).iter().collect() {
                    *position = Kind::Position(100);
                }
            }
            _ => panic!("the fourth handle writes the positions"),
        }
        match handles.pop() {
            Some(WorldHandle::ReadComponent(velocities)) => {
                assert_eq!(velocities.scan().iter().collect(), vec![&Kind::Velocity(2)]);
            }
            _ => panic!("the third handle reads the velocities"),
        }
        match handles.pop() {
            Some(WorldHandle::WriteResource(r)) => {
                assert_eq!(*r, 10);
                *r = 11;
            }
            _ => panic!("the second handle writes a resource"),
        }
        match handles.pop() {
            Some(WorldHandle::ReadComponent(velocities)) => {
                assert_eq!(velocities.scan().iter().collect().len(), 1);
            }
            _ => panic!("the first handle reads the velocities"),
        }
    }
    assert_eq!(*world.read_resource(TAGGED).unwrap(), 11);
    assert_eq!(*world.read_resource(PLAYER).unwrap(), 20);
    let positions = world.read_component(POSITION).unwrap();
    assert_eq!(positions.scan().iter().collect(), vec![&Kind::Position(100)]);
}

#[test]
fn resources_are_kept_by_kind() {
    let mut world: World<Dense, i32> = World::new();
    assert!(matches!(
        world.read_resource(TAGGED),
        Err(WorldError::ResourceNotFound(TAGGED))
    ));
    assert!(matches!(
        world.write_resource(TAGGED),
        Err(WorldError::ResourceNotFound(TAGGED))
    ));
    assert_eq!(world.insert_resource(TAGGED, 1), None);
    assert_eq!(world.insert_resource(PLAYER, 2), None);
    assert_eq!(world.insert_resource(TAGGED, 3), Some(1));
    assert_eq!(*world.read_resource(TAGGED).unwrap(), 3);
    *world.write_resource(PLAYER).unwrap() = 4;
    assert_eq!(*world.read_resource(PLAYER).unwrap(), 4);
    assert_eq!(world.remove_resource(TAGGED), Some(3));
    assert_eq!(world.remove_resource(TAGGED), None);
    assert!(world.read_resource(TAGGED).is_err());
}

#[test]
fn registration_is_idempotent() {
    let mut ecs: Ecs<Dense> = Ecs::new();
    ecs.register_component(POSITION);
    let e = ecs
        .add_entity(Some(bundle(vec![(POSITION, Kind::Position(1))])))
        .unwrap();
    ecs.register_component(POSITION);
    ecs.register_component(POSITION);
    let components = ecs.clone_entity_components(e).unwrap();
    assert_eq!(components.len(), 1);
    assert_eq!(components.get(POSITION), Some(&Kind::Position(1)));
}

#[test]
fn unregistered_components_fail_after_the_registered_ones_are_in() {
    let mut ecs: Ecs<Sparse> = Ecs::new();
    ecs.register_component(POSITION);
    let r = ecs.add_entity(Some(bundle(vec![
        (POSITION, Kind::Position(1)),
        (VELOCITY, Kind::Velocity(2)),
    ])));
    assert_eq!(r, Err(UnregisteredComponent));
    assert_eq!(UnregisteredComponent.message(), "ECS component type is unregistered");
    // The entity is allocated and has the component of the registered kind.
    let positions = ecs.read_component(POSITION).unwrap();
    let found = component_scan_join((positions.scan_entities(), positions.scan()))
        .iter()
        .collect();
    assert_eq!(found.len(), 1);
    assert_eq!(found[0].0.index(), 0);
    assert_eq!(found[0].1, &Kind::Position(1));
    assert!(ecs.read_component(VELOCITY).is_err());
    assert!(ecs.get_mut_component(VELOCITY).is_err());
    assert!(ecs.write_component(VELOCITY).is_err());

    let mut world: World<Sparse, ()> = World::new();
    world.register_component(POSITION);
    let r = world.add_entity(Some(bundle(vec![(VELOCITY, Kind::Velocity(2))])));
    assert_eq!(r, Err(WorldError::UnregisteredComponent));
    let e = world.add_entity(None).unwrap();
    assert_eq!(e.index(), 1);
    assert_eq!(
        world.insert_components(e, bundle(vec![(PLAYER, Kind::Player)])),
        Err(WorldError::UnregisteredComponent)
    );
    assert_eq!(
        world.insert_components(e, bundle(vec![(POSITION, Kind::Position(3))])),
        Ok(())
    );
    assert!(matches!(
        world.read_component(VELOCITY),
        Err(WorldError::UnregisteredComponent)
    ));
}

#[test]
fn components_follow_the_life_of_their_entity() {
    let mut ecs: Ecs<Dense> = Ecs::new();
    ecs.register_component(POSITION);
    ecs.register_component(VELOCITY);
    let a = ecs.add_entity(None).unwrap();
    let b = ecs
        .add_entity(Some(bundle(vec![
            (POSITION, Kind::Position(1)),
            (VELOCITY, Kind::Velocity(2)),
        ])))
        .unwrap();
    assert!(ecs.entity_is_live(a));
    assert!(ecs.entity_is_live(b));

    // Components that take the place of others come back.
    let overwritten = ecs
        .insert_components(
            b,
            bundle(vec![(POSITION, Kind::Position(5))]),
        )
        .unwrap()
        .unwrap();
    assert_eq!(overwritten.len(), 1);
    assert_eq!(overwritten.get(POSITION), Some(&Kind::Position(1)));
    let overwritten = ecs
        .insert_components(a, bundle(vec![(VELOCITY, Kind::Velocity(7))]))
        .unwrap()
        .unwrap();
    assert!(overwritten.is_empty());

    let removed = ecs.remove_entity(b).unwrap();
    assert_eq!(removed.len(), 2);
    assert_eq!(removed.get(POSITION), Some(&Kind::Position(5)));
    assert_eq!(removed.get(VELOCITY), Some(&Kind::Velocity(2)));
    assert!(!ecs.entity_is_live(b));
    assert!(ecs.remove_entity(b).is_none());
    assert!(ecs.clone_entity_components(b).is_none());

    // A dead entity takes no components, and nothing changes.
    let r = ecs.insert_components(b, bundle(vec![(UNKNOWN, Kind::Player)]));
    assert!(matches!(r, Ok(None)));
    {
        let positions = ecs.read_component(POSITION).unwrap();
        assert_eq!(positions.scan().iter().collect().len(), 0);
        assert_eq!(positions.get(b), None);
    }

    // The index is used again, and the new entity starts without components.
    let c = ecs.add_entity(None).unwrap();
    assert_eq!(c.index(), b.index());
    assert_eq!(c.generation(), b.generation() + 1);
    assert!(ecs.clone_entity_components(c).unwrap().is_empty());
    {
        let mut velocities = ecs.get_mut_component(VELOCITY).unwrap();
        assert_eq!(velocities.get(a), Some(&Kind::Velocity(7)));
        assert!(matches!(
            velocities.insert(b, Kind::Velocity(9)),
            ComponentInsertResult::EntityIsDead(Kind::Velocity(9))
        ));
        assert!(matches!(
            velocities.insert(c, Kind::Velocity(9)),
            ComponentInsertResult::Inserted
        ));
        assert!(matches!(
            velocities.insert(c, Kind::Velocity(10)),
            ComponentInsertResult::Updated(Kind::Velocity(9))
        ));
        // A stale entity does not reach the component of the live one at its index.
        assert_eq!(velocities.get(b), None);
        assert_eq!(velocities.get_mut(b), None);
        assert_eq!(velocities.remove(b), None);
        *velocities.get_mut(c).unwrap() = Kind::Velocity(11);
        assert_eq!(velocities.remove(c), Some(Kind::Velocity(11)));
        assert_eq!(velocities.remove(c), None);
    }
}

#[test]
fn a_clone_is_a_snapshot() {
    let mut ecs: Ecs<Sparse> = Ecs::new();
    ecs.register_component(POSITION);
    let a = ecs
        .add_entity(Some(bundle(vec![(POSITION, Kind::Position(1))])))
        .unwrap();
    let mut copy = ecs.clone();

    ecs.insert_components(a, bundle(vec![(POSITION, Kind::Position(2))]))
        .unwrap();
    ecs.register_component(VELOCITY);
    let b = ecs.add_entity(None).unwrap();
    assert_eq!(
        copy.clone_entity_components(a).unwrap().get(POSITION),
        Some(&Kind::Position(1))
    );
    assert!(!copy.entity_is_live(b));
    assert!(copy.read_component(VELOCITY).is_err());

    copy.remove_entity(a);
    assert!(ecs.entity_is_live(a));
    assert_eq!(
        ecs.clone_entity_components(a).unwrap().get(POSITION),
        Some(&Kind::Position(2))
    );
}

#[test]
fn entity_sets_are_pruned_and_scanned_in_order() {
    let mut ecs: Ecs<Dense> = Ecs::new();
    let entities: Vec<Entity> = (0..5).map(|_| ecs.add_entity(None).unwrap()).collect();
    let mut set = EntitySet::new();
    assert!(set.is_empty());
    assert!(set.insert(entities[3]));
    assert!(set.insert(entities[1]));
    assert!(set.insert(entities[4]));
    assert!(!set.insert(entities[1]));
    assert_eq!(set.len(), 3);
    assert!(set.contains(&entities[3]));
    assert!(!set.contains(&entities[0]));

    ecs.remove_entity(entities[3]);
    let again = ecs.add_entity(None).unwrap();
    assert_eq!(again.index(), 3);
    set.insert(again);
    assert_eq!(set.len(), 4);

    let scanned = ecs.scan_entity_set(&set).iter().collect();
    assert_eq!(scanned, vec![entities[1], again, entities[4]]);
    let mut scanner = ecs.scan_entity_set(&set);
    assert_eq!(scanner.scan(Some(2)), Some((again, 3)));
    assert_eq!(scanner.scan(Some(5)), None);

    ecs.prune_entity_set(&mut set);
    assert_eq!(set.len(), 3);
    assert!(!set.contains(&entities[3]));
    assert!(set.contains(&again));
    assert!(set.remove(&again));
    assert!(!set.remove(&again));

    let live = ecs.scan_entities().iter().collect();
    assert_eq!(live, vec![entities[0], entities[1], entities[2], again, entities[4]]);
    let mut scanner = ecs.scan_entities();
    assert_eq!(scanner.scan(Some(3)), Some((again, 3)));
    assert_eq!(scanner.scan(None), Some((entities[4], 4)));
    assert_eq!(scanner.scan(None), None);
}

#[test]
fn type_maps_hold_one_value_of_each_kind() {
    let mut map: TypeMap<i32> = TypeMap::new();
    assert!(map.is_empty());
    assert_eq!(map.insert(TypeKey(5), 50), None);
    assert_eq!(map.insert(TypeKey(2), 20), None);
    assert_eq!(map.insert(TypeKey(5), 51), Some(50));
    assert_eq!(map.len(), 2);
    assert_eq!(map.get(TypeKey(2)), Some(&20));
    assert_eq!(map.get(TypeKey(3)), None);
    *map.get_mut(TypeKey(2)).unwrap() = 21;
    assert!(map.get_mut(TypeKey(3)).is_none());
    for (key, value) in map.values_mut() {
        *value += key as i32;
    }
    assert_eq!(map.remove(TypeKey(2)), Some(23));
    assert_eq!(map.remove(TypeKey(2)), None);
    assert_eq!(map.remove(TypeKey(5)), Some(56));
    assert!(map.is_empty());
}

#[test]
fn storages_can_be_written_through_a_split() {
    let mut ecs: Ecs<Dense> = Ecs::new();
    ecs.register_component(POSITION);
    ecs.register_component(VELOCITY);
    let e = ecs.add_entity(None).unwrap();
    {
        let (mut stores, _entities) = ecs.split();
        assert_eq!(stores.len(), 2);
        // The storage of the largest kind comes first.
        assert_eq!(stores[0].0, POSITION.0);
        assert_eq!(stores[1].0, VELOCITY.0);
        stores[0].1.insert(e.index(), Kind::Position(4));
    }
    assert_eq!(
        ecs.clone_entity_components(e).unwrap().get(POSITION),
        Some(&Kind::Position(4))
    );
}
