use simplecs::entity::{Entity, EntityAllocator, EntityIndex};
use simplecs::generational_index::{
    GenerationalIndex, GenerationalIndexAllocator, GenerationalIndexArray,
};

#[test]
fn entity_reuse() {
    let mut allocator = EntityAllocator::new();
    let e0 = allocator.allocate();
    let e1 = allocator.allocate();
    let e2 = allocator.allocate();
    assert_eq!((e0.index(), e1.index(), e2.index()), (0, 1, 2));
    assert_eq!((e0.generation(), e1.generation(), e2.generation()), (0, 0, 0));

    assert!(allocator.deallocate(e1));
    let e1_again = allocator.allocate();

    assert_ne!(e1, e1_again);
    assert_eq!(e1.index(), e1_again.index());
    assert_eq!(e1_again.generation(), e1.generation() + 1);
    assert!(!allocator.is_live(e1));
    assert!(allocator.is_live(e1_again));
    assert!(allocator.is_live(e0));
    assert!(allocator.is_live(e2));
}

#[test]
fn allocator_hands_out_each_identifier_once() {
    let mut allocator = GenerationalIndexAllocator::new();
    let mut seen: Vec<GenerationalIndex> = Vec::new();
    let mut live: Vec<GenerationalIndex> = Vec::new();
    for round in 0..50usize {
        let id = allocator.allocate();
        assert!(!seen.contains(&id));
        assert!(allocator.is_live(id));
        seen.push(id);
        live.push(id);
        if round % 3 != 0 {
            let victim = live.remove((round * 7) % live.len());
            assert!(allocator.deallocate(victim));
            assert!(!allocator.is_live(victim));
            assert!(!allocator.deallocate(victim));
        }
    }
    for id in &seen {
        assert_eq!(allocator.is_live(*id), live.contains(id));
    }
    // Indices are used again, so that they stay small.
    assert!(allocator.max_allocated_index() <= live.len() + 1);
}

#[test]
fn allocator_reuses_the_index_that_was_freed_last() {
    let mut allocator = GenerationalIndexAllocator::new();
    assert_eq!(allocator.max_allocated_index(), 0);
    assert_eq!(allocator.live_at_index(0), None);
    let a = allocator.allocate();
    let b = allocator.allocate();
    let c = allocator.allocate();
    assert_eq!(allocator.max_allocated_index(), 3);
    assert!(allocator.deallocate(a));
    assert!(allocator.deallocate(c));
    assert_eq!(allocator.live_at_index(0), None);
    assert_eq!(allocator.live_at_index(1), Some(b));
    assert_eq!(allocator.live_at_index(3), None);

    let d = allocator.allocate();
    assert_eq!((d.index(), d.generation()), (2, 1));
    let e = allocator.allocate();
    assert_eq!((e.index(), e.generation()), (0, 1));
    let f = allocator.allocate();
    assert_eq!((f.index(), f.generation()), (3, 0));
    assert_eq!(allocator.max_allocated_index(), 4);
    assert_eq!(allocator.live_at_index(2), Some(d));

    // A stale identifier is not live and cannot be given back again.
    assert!(!allocator.is_live(a));
    assert!(!allocator.deallocate(a));
    assert!(allocator.is_live(e));

    let copy = allocator.clone();
    assert!(allocator.deallocate(e));
    assert!(copy.is_live(e));
    assert!(!allocator.is_live(e));
    assert!(a < b && b < c && e > a);
}

fn keys(allocator: &mut GenerationalIndexAllocator, n: usize) -> Vec<GenerationalIndex> {
    (0..n).map(|_| allocator.allocate()).collect()
}

#[test]
fn array_lookups_are_strict_and_removal_is_lenient() {
    let mut allocator = GenerationalIndexAllocator::new();
    let ids = keys(&mut allocator, 4);
    let mut array: GenerationalIndexArray<&str> = GenerationalIndexArray::new();
    assert_eq!(array.get(ids[2]), None);
    assert_eq!(array.insert(ids[2], "two"), None);
    assert_eq!(array.insert(ids[0], "zero"), None);
    assert!(array.contains_key(ids[2]));
    assert!(!array.contains_key(ids[1]));
    assert!(!array.contains_key(ids[3]));
    assert_eq!(array.get(ids[2]), Some(&"two"));

    allocator.deallocate(ids[2]);
    let newer = allocator.allocate();
    assert_eq!(newer.index(), 2);
    // The entry of the old generation is not found under the new key.
    assert_eq!(array.get(newer), None);
    assert!(!array.contains_key(newer));
    assert_eq!(array.get_mut(newer), None);
    // Inserting under the new key gives back the old key and value.
    assert_eq!(array.insert(newer, "newer"), Some((ids[2], "two")));
    assert_eq!(array.get(ids[2]), None);
    assert_eq!(array.get(newer), Some(&"newer"));
    *array.get_mut(newer).unwrap() = "changed";
    // Removal takes whatever is in the slot, whatever the generation.
    assert_eq!(array.remove(ids[2]), Some("changed"));
    assert_eq!(array.remove(ids[2]), None);
    assert_eq!(array.remove(ids[3]), None);
    assert_eq!(array.get(newer), None);

    array.clear();
    assert_eq!(array.get(ids[0]), None);
}

#[test]
fn array_walks_go_in_the_order_of_the_indices() {
    let mut allocator = GenerationalIndexAllocator::new();
    let ids = keys(&mut allocator, 6);
    let mut array = GenerationalIndexArray::from_iter(vec![
        (ids[4], 40),
        (ids[1], 10),
        (ids[5], 50),
        (ids[1], 11),
    ]);

    let mut iter = array.iter();
    assert_eq!(iter.next(), Some((ids[1], &11)));
    assert_eq!(iter.next(), Some((ids[4], &40)));
    assert_eq!(iter.next(), Some((ids[5], &50)));
    assert_eq!(iter.next(), None);
    assert_eq!(iter.next(), None);

    {
        let mut iter = array.iter_mut();
        let (key, value) = iter.next().unwrap();
        assert_eq!(key, ids[1]);
        *value += 1;
        let (key, value) = iter.next().unwrap();
        assert_eq!(key, ids[4]);
        *value += 2;
    }
    assert_eq!(array.get(ids[1]), Some(&12));
    assert_eq!(array.get(ids[4]), Some(&42));

    let copy = array.clone();
    array.retain(|key, value| {
        *value += 100;
        key.index() != 4
    });
    assert_eq!(array.get(ids[1]), Some(&112));
    assert_eq!(array.get(ids[4]), None);
    assert_eq!(array.get(ids[5]), Some(&150));
    assert_eq!(copy.get(ids[4]), Some(&42));

    array.filter_map(|key, value| if key == ids[5] { None } else { Some(value * 2) });
    assert_eq!(array.get(ids[1]), Some(&224));
    assert_eq!(array.get(ids[5]), None);

    let mut into_iter = copy.into_iter();
    assert_eq!(into_iter.next(), Some((ids[1], 12)));
    assert_eq!(into_iter.next(), Some((ids[4], 42)));
    assert_eq!(into_iter.next(), Some((ids[5], 50)));
    assert_eq!(into_iter.next(), None);

    let empty: GenerationalIndexArray<u8> = Default::default();
    assert_eq!(empty.iter().next(), None);
}

#[test]
fn entity_index_maps_entities_to_values() {
    let mut allocator = EntityAllocator::new();
    let entities: Vec<Entity> = (0..4).map(|_| allocator.allocate()).collect();
    let mut index: EntityIndex<String> = EntityIndex::new();
    assert_eq!(index.insert(entities[3], "three".to_string()), None);
    assert_eq!(index.insert(entities[1], "one".to_string()), None);
    assert!(index.contains_key(entities[1]));
    assert!(!index.contains_key(entities[2]));
    assert_eq!(index.get(entities[3]).map(|s| s.as_str()), Some("three"));
    index.get_mut(entities[1]).unwrap().push('!');

    allocator.deallocate(entities[1]);
    let newer = allocator.allocate();
    assert_eq!(index.get(newer), None);
    assert_eq!(
        index.insert(newer, "newer".to_string()),
        Some((entities[1], "one!".to_string()))
    );

    let mut walk = index.iter();
    assert_eq!(walk.next().map(|(e, v)| (e, v.as_str())), Some((newer, "newer")));
    assert_eq!(walk.next().map(|(e, v)| (e, v.as_str())), Some((entities[3], "three")));
    assert_eq!(walk.next(), None);

    for round in 0..2 {
        let mut walk = index.iter_mut();
        while let Some((entity, value)) = walk.next() {
            value.push_str(if entity == newer { "+" } else { "-" });
        }
        assert_eq!(round < 2, true);
    }
    assert_eq!(index.get(newer).map(|s| s.as_str()), Some("newer++"));

    index.retain(|entity, value| {
        value.push('?');
        entity != newer
    });
    assert_eq!(index.get(newer), None);
    index.filter_map(|_, value| Some(value.to_uppercase()));
    assert_eq!(index.get(entities[3]).map(|s| s.as_str()), Some("THREE--?"));
    assert_eq!(index.remove(entities[3]), Some("THREE--?".to_string()));
    assert_eq!(index.remove(entities[3]), None);

    let copy = index.clone();
    index.clear();
    let rebuilt = EntityIndex::from_iter(vec![(entities[2], 2), (entities[0], 0)]);
    let mut walk = rebuilt.into_iter();
    assert_eq!(walk.next(), Some((entities[0], 0)));
    assert_eq!(walk.next(), Some((entities[2], 2)));
    assert_eq!(walk.next(), None);
    assert_eq!(copy.iter().next(), None);
    let empty: EntityIndex<u8> = Default::default();
    assert!(!empty.contains_key(entities[0]));
}
