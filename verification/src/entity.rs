use crate::component_scanner::{indices_after, scan_from, ComponentScanner};
use crate::generational_index::{
    next_used, slot_at, value_at, AllocatorState, GenerationalIndex, GenerationalIndexAllocator,
    GenerationalIndexArray, GenerationalIndexArrayIntoIter, GenerationalIndexArrayIter,
    GenerationalIndexArrayIterMut,
};
use vstd::prelude::*;

verus! {

/// Uniquely identifies an entity. No entity that was ever allocated is equal
/// to any other, live or dead.
#[derive(PartialEq, Eq, PartialOrd, Ord, Hash, Clone, Copy, Debug, Structural)]
pub struct Entity(GenerationalIndex);

/// Hands out entities and knows which of them are live.
pub struct EntityAllocator(GenerationalIndexAllocator);

/// A scanner over all live entities of an allocator.
pub struct EntityScanner<'a>(usize, &'a GenerationalIndexAllocator);

/// A set of entities, kept in the order of their indices and, for one
/// index, of their generations.
pub struct EntitySet {
    entities: Vec<Entity>,
}

/// A scanner over the live entities of an [`EntitySet`].
pub struct EntitySetScanner<'a> {
    entities: &'a [Entity],
    next: usize,
    allocator: &'a EntityAllocator,
}

impl Entity {
    /// The index and the generation that make up the entity.
    pub closed spec fn id(self) -> (usize, u64) {
        self.0.id()
    }

    /// Two entities with the same index and generation are the same.
    pub proof fn lemma_same_id(self, other: Entity)
        ensures
            self.id() == other.id() <==> self == other,
    {
        self.0.lemma_same_id(other.0);
    }

    #[inline]
    pub fn index(&self) -> (r: usize)
        ensures
            r == self.id().0,
    {
        self.0.index()
    }

    #[inline]
    pub fn generation(&self) -> (r: u64)
        ensures
            r == self.id().1,
    {
        self.0.generation()
    }
}

impl View for EntityAllocator {
    type V = AllocatorState;

    closed spec fn view(&self) -> AllocatorState {
        self.0@
    }
}

impl Clone for EntityAllocator {
    fn clone(&self) -> (r: EntityAllocator)
        ensures
            r@ == self@,
    {
        EntityAllocator(self.0.clone())
    }
}

impl EntityAllocator {
    /// An allocator that has handed out nothing yet.
    pub fn new() -> (r: EntityAllocator)
        ensures
            r@.slots.len() == 0,
            r@.free.len() == 0,
            r@.wf(),
    {
        EntityAllocator(GenerationalIndexAllocator::new())
    }

    /// Hands out an entity that is live from now on and that this allocator
    /// never handed out before.
    pub fn allocate(&mut self) -> (r: Entity)
        requires
            old(self)@.wf(),
        ensures
            final(self)@.wf(),
            (final(self)@, r.id()) == old(self)@.allocate(),
            !old(self)@.was_issued(r.id()),
            final(self)@.is_live(r.id()),
    {
        Entity(self.0.allocate())
    }

    /// Gives an entity back. Returns whether it was live; if it was, its
    /// index is free for reuse afterwards, at a higher generation.
    pub fn deallocate(&mut self, entity: Entity) -> (r: bool)
        requires
            old(self)@.wf(),
            old(self)@.is_live(entity.id()) ==> entity.id().1 < u64::MAX,
        ensures
            final(self)@.wf(),
            (final(self)@, r) == old(self)@.deallocate(entity.id()),
            !final(self)@.is_live(entity.id()),
    {
        self.0.deallocate(entity.0)
    }

    /// Whether the entity is live.
    #[inline]
    pub fn is_live(&self, entity: Entity) -> (r: bool)
        ensures
            r == self@.is_live(entity.id()),
    {
        self.0.is_live(entity.0)
    }

    /// A scanner over all live entities, each at its own index.
    pub fn scan_live(&self) -> (r: EntityScanner)
        ensures
            r.wf(),
            r.state() == self@,
            r.position() == 0,
    {
        EntityScanner(0, &self.0)
    }

    /// A scanner over the live entities of `set`, each at its own index.
    pub fn scan_set<'a>(&'a self, set: &'a EntitySet) -> (r: EntitySetScanner<'a>)
        requires
            set.wf(),
        ensures
            r.wf(),
            r.state() == self@,
            r.members() == set.members(),
            r.position() == 0,
    {
        let r = EntitySetScanner { entities: set.entities.as_slice(), next: 0, allocator: self };
        assert forall|i: int, j: int| 0 <= i < j < r.members().len() implies entity_before(
            r.members()[i],
            r.members()[j],
        ) by {
            assert(entity_before(set.members()[i], set.members()[j]));
        }
        r
    }

    /// Takes the entities that are not live out of `set`.
    pub fn prune_set(&self, set: &mut EntitySet)
        requires
            old(set).wf(),
        ensures
            final(set).wf(),
            forall|e: Entity|
                final(set)@.contains(e) <==> old(set)@.contains(e) && self@.is_live(e.id()),
    {
        let mut kept: Vec<Entity> = Vec::new();
        let mut i: usize = 0;
        let ghost mut picked: Seq<int> = Seq::empty();
        while i < set.entities.len()
            invariant
                *set == *old(set),
                i <= set.entities@.len(),
                picked.len() == kept@.len(),
                forall|j: int| 0 <= j < picked.len() ==> 0 <= #[trigger] picked[j] < i,
                forall|j: int, k: int| 0 <= j < k < picked.len() ==> picked[j] < picked[k],
                forall|j: int|
                    0 <= j < kept@.len() ==> #[trigger] kept@[j] == set.entities@[picked[j]]
                        && self@.is_live(kept@[j].id()),
                forall|k: int|
                    0 <= k < i && self@.is_live((#[trigger] set.entities@[k]).id())
                        ==> picked.contains(k),
            decreases set.entities@.len() - i,
        {
            let e = set.entities[i];
            if self.is_live(e) {
                let ghost before = picked;
                kept.push(e);
                proof {
                    picked = picked.push(i as int);
                    assert forall|k: int|
                        0 <= k < i + 1 && self@.is_live(
                            (#[trigger] set.entities@[k]).id(),
                        ) implies picked.contains(k) by {
                        if k < i {
                            let j = choose|j: int| 0 <= j < before.len() && before[j] == k;
                            assert(picked[j] == k);
                        } else {
                            assert(picked[before.len() as int] == k);
                        }
                    }
                }
            }
            i = i + 1;
        }
        set.entities = kept;
        proof {
            assert forall|a: int, b: int| 0 <= a < b < set.entities@.len() implies entity_before(
                set.entities@[a],
                set.entities@[b],
            ) by {
                assert(entity_before(
                    old(set).members()[picked[a]],
                    old(set).members()[picked[b]],
                ));
            }
            assert forall|e: Entity|
                final(set)@.contains(e) <==> old(set)@.contains(e) && self@.is_live(
                    e.id(),
                ) by {
                if old(set)@.contains(e) && self@.is_live(e.id()) {
                    let k = choose|k: int|
                        0 <= k < old(set).entities@.len() && old(set).entities@[k] == e;
                    let j = choose|j: int| 0 <= j < picked.len() && picked[j] == k;
                    assert(kept@[j] == e);
                }
                if set@.contains(e) {
                    let j = choose|j: int| 0 <= j < kept@.len() && kept@[j] == e;
                    assert(old(set).entities@[picked[j]] == e);
                }
            }
        }
    }
}

impl<'a> EntityScanner<'a> {
    /// The state of the allocator whose entities are scanned.
    pub closed spec fn state(&self) -> AllocatorState {
        self.1@
    }

    /// The index from which the scanner goes on.
    pub closed spec fn position(&self) -> usize {
        self.0
    }
}

impl<'a> ComponentScanner for EntityScanner<'a> {
    type Item = Entity;

    open spec fn indices(&self) -> Set<usize> {
        Set::new(
            |k: usize|
                self.position() <= k < self.state().slots.len() && self.state().slots[k as int].live,
        )
    }

    open spec fn yields(&self, index: usize, item: Entity) -> bool {
        item.id().0 == index && self.state().is_live(item.id())
    }

    open spec fn wf(&self) -> bool {
        true
    }

    fn scan(&mut self, until: Option<usize>) -> (r: Option<(Entity, usize)>)
        ensures
            final(self).state() == old(self).state(),
    {
        match until {
            Some(u) => {
                if u > self.0 {
                    self.0 = u;
                }
            },
            None => {},
        }
        while self.0 < self.1.max_allocated_index()
            invariant
                self.1 == old(self).1,
                self.0 >= old(self).0,
                self.0 >= scan_from(until),
                forall|k: usize|
                    old(self).indices().contains(k) && k >= scan_from(until) ==> k >= self.0,
            decreases self.1@.slots.len() - self.0,
        {
            let index = self.0;
            match self.1.live_at_index(index) {
                Some(gen_index) => {
                    self.0 = index + 1;
                    assert(self.indices() =~= indices_after(old(self).indices(), index));
                    let r = Some((Entity(gen_index), index));
                    assert(old(self).yields(r->Some_0.1, r->Some_0.0));
                    return r;
                },
                None => {
                    self.0 = index + 1;
                },
            }
        }
        assert(self.indices() =~= Set::<usize>::empty());
        None
    }
}

/// Whether `a` comes before `b`: it has the smaller index, or the same
/// index and the smaller generation.
pub open spec fn entity_before(a: Entity, b: Entity) -> bool {
    a.id().0 < b.id().0 || (a.id().0 == b.id().0 && a.id().1 < b.id().1)
}

impl View for EntitySet {
    type V = Set<Entity>;

    open spec fn view(&self) -> Set<Entity> {
        Set::new(|e: Entity| self.members().contains(e))
    }
}

impl EntitySet {
    /// The entities of the set, in order.
    pub closed spec fn members(&self) -> Seq<Entity> {
        self.entities@
    }

    /// The entities are in order and none occurs twice.
    pub open spec fn wf(&self) -> bool {
        forall|i: int, j: int|
            0 <= i < j < self.members().len() ==> entity_before(
                self.members()[i],
                self.members()[j],
            )
    }

    /// A set without entities.
    pub fn new() -> (r: EntitySet)
        ensures
            r.wf(),
            r@ == Set::<Entity>::empty(),
            r.members().len() == 0,
    {
        let r = EntitySet { entities: Vec::new() };
        assert(r@ =~= Set::<Entity>::empty());
        r
    }

    /// The number of entities in the set.
    pub fn len(&self) -> (r: usize)
        ensures
            r == self.members().len(),
    {
        self.entities.len()
    }

    /// Whether the set is empty.
    pub fn is_empty(&self) -> (r: bool)
        ensures
            r == (self.members().len() == 0),
    {
        self.entities.len() == 0
    }

    /// The first place whose entity does not come before `entity`.
    fn lower_bound(&self, entity: Entity) -> (pos: usize)
        requires
            self.wf(),
        ensures
            pos <= self.members().len(),
            forall|i: int| 0 <= i < pos ==> entity_before(#[trigger] self.members()[i], entity),
            forall|i: int|
                pos <= i < self.members().len() ==> !entity_before(
                    #[trigger] self.members()[i],
                    entity,
                ),
            self@.contains(entity) <==> pos < self.members().len() && self.members()[pos as int]
                == entity,
    {
        let mut lo: usize = 0;
        let mut hi: usize = self.entities.len();
        while lo < hi
            invariant
                self.wf(),
                lo <= hi <= self.entities@.len(),
                forall|i: int| 0 <= i < lo ==> entity_before(#[trigger] self.members()[i], entity),
                forall|i: int|
                    hi <= i < self.members().len() ==> !entity_before(
                        #[trigger] self.members()[i],
                        entity,
                    ),
            decreases hi - lo,
        {
            let mid = lo + (hi - lo) / 2;
            let e = self.entities[mid];
            if e.index() < entity.index() || (e.index() == entity.index() && e.generation()
                < entity.generation()) {
                assert forall|i: int| 0 <= i < mid + 1 implies entity_before(
                    #[trigger] self.members()[i],
                    entity,
                ) by {
                    if i < mid {
                        assert(entity_before(self.members()[i], self.members()[mid as int]));
                    }
                }
                lo = mid + 1;
            } else {
                assert forall|i: int| mid <= i < self.members().len() implies !entity_before(
                    #[trigger] self.members()[i],
                    entity,
                ) by {
                    if i > mid {
                        assert(entity_before(self.members()[mid as int], self.members()[i]));
                    }
                }
                hi = mid;
            }
        }
        proof {
            if self@.contains(entity) {
                let k = choose|k: int| 0 <= k < self.members().len() && self.members()[k] == entity;
                if k < lo {
                    assert(entity_before(self.members()[k], entity));
                } else if k > lo {
                    assert(entity_before(self.members()[lo as int], self.members()[k]));
                    assert(!entity_before(self.members()[lo as int], entity));
                }
            }
        }
        lo
    }

    /// Whether the entity is in the set.
    pub fn contains(&self, entity: &Entity) -> (r: bool)
        requires
            self.wf(),
        ensures
            r == self@.contains(*entity),
    {
        let pos = self.lower_bound(*entity);
        pos < self.entities.len() && self.entities[pos] == *entity
    }

    /// Puts the entity into the set. Returns whether it was not there
    /// before.
    pub fn insert(&mut self, entity: Entity) -> (r: bool)
        requires
            old(self).wf(),
        ensures
            final(self).wf(),
            final(self)@ == old(self)@.insert(entity),
            r == !old(self)@.contains(entity),
    {
        let pos = self.lower_bound(entity);
        if pos < self.entities.len() && self.entities[pos] == entity {
            assert(self@ =~= old(self)@.insert(entity));
            false
        } else {
            self.entities.insert(pos, entity);
            proof {
                let before = old(self).members();
                let after = self.members();
                assert forall|i: int, j: int| 0 <= i < j < after.len() implies entity_before(
                    after[i],
                    after[j],
                ) by {
                    let a = if i < pos { i } else { i - 1 };
                    let b = if j < pos { j } else { j - 1 };
                    if i != pos && j != pos {
                        assert(entity_before(before[a], before[b]));
                    } else if i == pos {
                        assert(!entity_before(before[b], entity));
                        entity.lemma_same_id(before[b]);
                    } else {
                        assert(entity_before(before[a], entity));
                    }
                }
                assert forall|e: Entity| self@.contains(e) <==> old(self)@.insert(entity).contains(
                    e,
                ) by {
                    if self@.contains(e) {
                        let k = choose|k: int| 0 <= k < after.len() && after[k] == e;
                        if k < pos {
                            assert(before[k] == e);
                        } else if k > pos {
                            assert(before[k - 1] == e);
                        }
                    }
                    if old(self)@.contains(e) {
                        let k = choose|k: int| 0 <= k < before.len() && before[k] == e;
                        if k < pos {
                            assert(after[k] == e);
                        } else {
                            assert(after[k + 1] == e);
                        }
                    }
                    if e == entity {
                        assert(after[pos as int] == e);
                    }
                }
                assert(self@ =~= old(self)@.insert(entity));
            }
            true
        }
    }

    /// Takes the entity out of the set. Returns whether it was there.
    pub fn remove(&mut self, entity: &Entity) -> (r: bool)
        requires
            old(self).wf(),
        ensures
            final(self).wf(),
            final(self)@ == old(self)@.remove(*entity),
            r == old(self)@.contains(*entity),
    {
        let pos = self.lower_bound(*entity);
        if pos < self.entities.len() && self.entities[pos] == *entity {
            self.entities.remove(pos);
            proof {
                let before = old(self).members();
                let after = self.members();
                assert forall|i: int, j: int| 0 <= i < j < after.len() implies entity_before(
                    after[i],
                    after[j],
                ) by {
                    let a = if i < pos { i } else { i + 1 };
                    let b = if j < pos { j } else { j + 1 };
                    assert(entity_before(before[a], before[b]));
                }
                assert forall|e: Entity| self@.contains(e) <==> old(self)@.remove(*entity).contains(
                    e,
                ) by {
                    if self@.contains(e) {
                        let k = choose|k: int| 0 <= k < after.len() && after[k] == e;
                        let a = if k < pos { k } else { k + 1 };
                        assert(before[a] == e);
                        if a < pos {
                            assert(entity_before(before[a], before[pos as int]));
                        } else {
                            assert(entity_before(before[pos as int], before[a]));
                        }
                    }
                    if old(self)@.contains(e) && e != *entity {
                        let k = choose|k: int| 0 <= k < before.len() && before[k] == e;
                        if k < pos {
                            assert(after[k] == e);
                        } else {
                            assert(after[k - 1] == e);
                        }
                    }
                }
                assert(self@ =~= old(self)@.remove(*entity));
            }
            true
        } else {
            assert(self@ =~= old(self)@.remove(*entity));
            false
        }
    }
}

impl<'a> EntitySetScanner<'a> {
    /// The state of the allocator that says which entities are live.
    pub closed spec fn state(&self) -> AllocatorState {
        self.allocator@
    }

    /// The entities of the set that is scanned, in order.
    pub closed spec fn members(&self) -> Seq<Entity> {
        self.entities@
    }

    /// The place among the entities from which the scanner goes on.
    pub closed spec fn position(&self) -> int {
        self.next as int
    }
}

impl<'a> ComponentScanner for EntitySetScanner<'a> {
    type Item = Entity;

    open spec fn indices(&self) -> Set<usize> {
        Set::new(
            |k: usize|
                exists|i: int|
                    self.position() <= i < self.members().len() && (
                    #[trigger] self.members()[i]).id().0 == k && self.state().is_live(
                        self.members()[i].id(),
                    ),
        )
    }

    open spec fn yields(&self, index: usize, item: Entity) -> bool {
        item.id().0 == index && self.state().is_live(item.id())
    }

    open spec fn wf(&self) -> bool {
        &&& 0 <= self.position() <= self.members().len()
        &&& forall|i: int, j: int|
            0 <= i < j < self.members().len() ==> entity_before(
                self.members()[i],
                self.members()[j],
            )
    }

    fn scan(&mut self, until: Option<usize>) -> (r: Option<(Entity, usize)>)
        ensures
            final(self).state() == old(self).state(),
            final(self).members() == old(self).members(),
    {
        while self.next < self.entities.len()
            invariant
                self.wf(),
                self.entities == old(self).entities,
                self.allocator == old(self).allocator,
                self.next >= old(self).next,
                forall|i: int|
                    old(self).position() <= i < self.position() ==> (#[trigger] self.members()[i]).id().0
                        < scan_from(until) || !self.state().is_live(self.members()[i].id()),
            decreases self.entities@.len() - self.next,
        {
            let pos = self.next;
            let entity = self.entities[pos];
            self.next = pos + 1;
            if until.is_none() || entity.index() >= until.unwrap() {
                if self.allocator.is_live(entity) {
                    proof {
                        let k = entity.id().0;
                        assert(old(self).indices().contains(k));
                        assert forall|j: usize|
                            old(self).indices().contains(j) && j >= scan_from(until) implies j
                            >= k by {
                            let i = choose|i: int|
                                old(self).position() <= i < self.members().len() && (
                                #[trigger] self.members()[i]).id().0 == j && self.state().is_live(
                                    self.members()[i].id(),
                                );
                            if i > pos {
                                assert(entity_before(self.members()[pos as int], self.members()[i]));
                            }
                        }
                        assert(self.indices() =~= indices_after(old(self).indices(), k)) by {
                            assert forall|j: usize|
                                self.indices().contains(j) implies indices_after(
                                old(self).indices(),
                                k,
                            ).contains(j) by {
                                let i = choose|i: int|
                                    self.position() <= i < self.members().len() && (
                                    #[trigger] self.members()[i]).id().0 == j
                                        && self.state().is_live(self.members()[i].id());
                                assert(entity_before(self.members()[pos as int], self.members()[i]));
                            }
                            assert forall|j: usize|
                                indices_after(old(self).indices(), k).contains(
                                    j,
                                ) implies self.indices().contains(j) by {
                                let i = choose|i: int|
                                    old(self).position() <= i < self.members().len() && (
                                    #[trigger] self.members()[i]).id().0 == j
                                        && self.state().is_live(self.members()[i].id());
                                if i < pos {
                                    assert(entity_before(
                                        self.members()[i],
                                        self.members()[pos as int],
                                    ));
                                }
                            }
                        }
                    }
                    let r = Some((entity, entity.index()));
                    assert(old(self).yields(r->Some_0.1, r->Some_0.0));
                    return r;
                }
            }
        }
        proof {
            assert(self.indices() =~= Set::<usize>::empty());
            assert forall|j: usize| old(self).indices().contains(j) implies j < scan_from(
                until,
            ) by {
                let i = choose|i: int|
                    old(self).position() <= i < self.members().len() && (
                    #[trigger] self.members()[i]).id().0 == j && self.state().is_live(
                        self.members()[i].id(),
                    );
            }
        }
        None
    }
}

/// A map from entities to values that keeps the value of an entity in the
/// slot of the entity's index. Its storage is proportional to the largest
/// index it has seen.
pub struct EntityIndex<T>(GenerationalIndexArray<T>);

/// Walks over the entries of an [`EntityIndex`] in the order of their
/// indices.
pub struct EntityIndexIter<'a, T: 'a>(GenerationalIndexArrayIter<'a, T>);

/// Walks over the entries of an [`EntityIndex`] in the order of their
/// indices and hands the values out for writing.
pub struct EntityIndexIterMut<'a, T: 'a>(GenerationalIndexArrayIterMut<'a, T>);

/// Walks over the entries of an [`EntityIndex`] in the order of their
/// indices and hands the values out for good.
pub struct EntityIndexIntoIter<T>(GenerationalIndexArrayIntoIter<T>);

impl<T> Default for EntityIndex<T> {
    fn default() -> (r: EntityIndex<T>)
        ensures
            r.slots() == Seq::<Option<(u64, T)>>::empty(),
    {
        EntityIndex(GenerationalIndexArray::new())
    }
}

impl<T: Clone> Clone for EntityIndex<T> {
    fn clone(&self) -> (r: Self)
        ensures
            r.slots().len() == self.slots().len(),
            forall|i: int|
                0 <= i < self.slots().len() ==> match #[trigger] self.slots()[i] {
                    Some((generation, value)) => r.slots()[i] is Some && r.slots()[i]->Some_0.0
                        == generation && cloned(value, r.slots()[i]->Some_0.1),
                    None => r.slots()[i] is None,
                },
    {
        EntityIndex(self.0.clone())
    }
}

impl<T> EntityIndex<T> {
    /// The slots of the map by index: for each slot in use, the generation
    /// of the entity and the value.
    pub closed spec fn slots(&self) -> Seq<Option<(u64, T)>> {
        self.0.slots()
    }

    /// A map without entries.
    pub fn new() -> (r: EntityIndex<T>)
        ensures
            r.slots() == Seq::<Option<(u64, T)>>::empty(),
    {
        EntityIndex(GenerationalIndexArray::new())
    }

    /// Takes all entries out.
    pub fn clear(&mut self)
        ensures
            final(self).slots() == Seq::<Option<(u64, T)>>::empty(),
    {
        self.0.clear();
    }

    /// Puts `value` into the slot of the entity's index, under the
    /// entity's generation, and returns what the slot held before, with
    /// the entity it was put there under, which may be one of an earlier
    /// generation.
    pub fn insert(&mut self, entity: Entity, value: T) -> (r: Option<(Entity, T)>)
        requires
            entity.id().0 < usize::MAX,
        ensures
            final(self).slots().len() == (if entity.id().0 < old(self).slots().len() {
                old(self).slots().len() as int
            } else {
                entity.id().0 + 1
            }),
            forall|i: int|
                0 <= i < final(self).slots().len() ==> #[trigger] final(self).slots()[i] == (if i
                    == entity.id().0 {
                    Some((entity.id().1, value))
                } else if i < old(self).slots().len() {
                    old(self).slots()[i]
                } else {
                    None
                }),
            match r {
                Some((key, old_value)) => slot_at(old(self).slots(), entity.id().0) == Some(
                    (key.id().1, old_value),
                ) && key.id().0 == entity.id().0,
                None => slot_at(old(self).slots(), entity.id().0) is None,
            },
    {
        match self.0.insert(entity.0, value) {
            Some((gen_index, value)) => Some((Entity(gen_index), value)),
            None => None,
        }
    }

    /// Takes out and returns the value in the slot of the entity's index,
    /// whatever generation it was put there under.
    pub fn remove(&mut self, entity: Entity) -> (r: Option<T>)
        ensures
            r == (match slot_at(old(self).slots(), entity.id().0) {
                Some((_, value)) => Some(value),
                None => None,
            }),
            final(self).slots() == (if entity.id().0 < old(self).slots().len() {
                old(self).slots().update(entity.id().0 as int, None)
            } else {
                old(self).slots()
            }),
    {
        self.0.remove(entity.0)
    }

    /// Whether the map holds a value for the entity.
    pub fn contains_key(&self, entity: Entity) -> (r: bool)
        ensures
            r == value_at(self.slots(), entity.id()) is Some,
    {
        self.0.contains_key(entity.0)
    }

    /// The value that the map holds for the entity.
    pub fn get(&self, entity: Entity) -> (r: Option<&T>)
        ensures
            match r {
                Some(value) => value_at(self.slots(), entity.id()) == Some(*value),
                None => value_at(self.slots(), entity.id()) is None,
            },
    {
        self.0.get(entity.0)
    }

    /// The value that the map holds for the entity, for writing. Whatever
    /// is written becomes the value of the entity; nothing else changes.
    pub fn get_mut(&mut self, entity: Entity) -> (r: Option<&mut T>)
        ensures
            match r {
                Some(value) => {
                    &&& value_at(old(self).slots(), entity.id()) == Some(*value)
                    &&& final(self).slots() == old(self).slots().update(
                        entity.id().0 as int,
                        Some((entity.id().1, *final(value))),
                    )
                },
                None => {
                    &&& value_at(old(self).slots(), entity.id()) is None
                    &&& final(self).slots() == old(self).slots()
                },
            },
    {
        self.0.get_mut(entity.0)
    }

    /// Calls `f` on every entry, in the order of the indices, and takes
    /// out the entries for which it returns `false`. Whatever `f` writes to
    /// the value of an entry that stays is kept.
    pub fn retain<F: FnMut(Entity, &mut T) -> bool>(&mut self, f: F)
        requires
            forall|key: Entity, value: &mut T| call_requires(f, (key, value)),
        ensures
            final(self).slots().len() == old(self).slots().len(),
            forall|i: int|
                0 <= i < old(self).slots().len() ==> match #[trigger] old(self).slots()[i] {
                    None => final(self).slots()[i] is None,
                    Some((generation, value)) => exists|key: Entity, lent: &mut T, keep: bool|
                        {
                            &&& key.id() == (i as usize, generation)
                            &&& *lent == value
                            &&& #[trigger] call_ensures(f, (key, lent), keep)
                            &&& final(self).slots()[i] == (if keep {
                                Some((generation, *final(lent)))
                            } else {
                                None
                            })
                        },
                },
    {
        let wrap = |gen_index: GenerationalIndex| -> (key: Entity)
            ensures
                key.id() == gen_index.id(),
            { Entity(gen_index) };
        self.0.retain_keyed(wrap, f);
    }

    /// Calls `f` on every entry, in the order of the indices, and puts what
    /// it returns in the place of the entry's value; where it returns
    /// nothing the entry is taken out.
    pub fn filter_map<F: FnMut(Entity, T) -> Option<T>>(&mut self, f: F)
        requires
            forall|key: Entity, value: T| call_requires(f, (key, value)),
        ensures
            final(self).slots().len() == old(self).slots().len(),
            forall|i: int|
                0 <= i < old(self).slots().len() ==> match #[trigger] old(self).slots()[i] {
                    None => final(self).slots()[i] is None,
                    Some((generation, value)) => exists|key: Entity, out: Option<T>|
                        {
                            &&& key.id() == (i as usize, generation)
                            &&& #[trigger] call_ensures(f, (key, value), out)
                            &&& final(self).slots()[i] == (match out {
                                Some(mapped) => Some((generation, mapped)),
                                None => None,
                            })
                        },
                },
    {
        let wrap = |gen_index: GenerationalIndex| -> (key: Entity)
            ensures
                key.id() == gen_index.id(),
            { Entity(gen_index) };
        self.0.filter_map_keyed(wrap, f);
    }

    /// Walks over the entries in the order of their indices.
    pub fn iter<'a>(&'a self) -> (r: EntityIndexIter<'a, T>)
        ensures
            r.slots() == self.slots(),
            r.position() == 0,
    {
        EntityIndexIter(self.0.iter())
    }

    /// Walks over the entries in the order of their indices and hands the
    /// values out for writing. Whatever is written becomes the value of the
    /// entry; nothing else changes.
    pub fn iter_mut<'a>(&'a mut self) -> (r: EntityIndexIterMut<'a, T>)
        ensures
            final(self).slots().len() == old(self).slots().len(),
            r.keys_descending(),
            forall|j: int|
                0 <= j < r.items().len() ==> {
                    let (key, value) = #[trigger] r.items()[j];
                    &&& slot_at(old(self).slots(), key.id().0) == Some((key.id().1, *value))
                    &&& final(self).slots()[key.id().0 as int] == Some((key.id().1, *final(value)))
                },
            forall|i: int|
                0 <= i < old(self).slots().len() ==> match #[trigger] old(self).slots()[i] {
                    None => final(self).slots()[i] is None,
                    Some(_) => exists|j: int|
                        0 <= j < r.items().len() && (#[trigger] r.items()[j]).0.id().0 == i,
                },
    {
        let r = EntityIndexIterMut(self.0.iter_mut());
        proof {
            assert forall|i: int| 0 <= i < old(self).slots().len() && (#[trigger] old(self).slots()[i]) is Some implies exists|j: int|
                0 <= j < r.items().len() && (#[trigger] r.items()[j]).0.id().0 == i by {
                let j = choose|j: int|
                    0 <= j < r.0.items().len() && (#[trigger] r.0.items()[j]).0.id().0 == i;
                assert(r.items()[j].0.id().0 == i);
            }
        }
        r
    }

    /// Walks over the entries in the order of their indices and hands the
    /// values out for good.
    pub fn into_iter(self) -> (r: EntityIndexIntoIter<T>)
        ensures
            r.slots() == self.slots(),
            r.position() == 0,
    {
        EntityIndexIntoIter(self.0.into_iter())
    }

    /// A map that holds the given values for the given entities; where two
    /// entities have the same index, the later one stays.
    pub fn from_iter(iter: Vec<(Entity, T)>) -> (r: EntityIndex<T>)
        requires
            forall|i: int| 0 <= i < iter@.len() ==> (#[trigger] iter@[i]).0.id().0 < usize::MAX,
        ensures
            forall|i: int|
                0 <= i < iter@.len() ==> (#[trigger] iter@[i]).0.id().0 < r.slots().len(),
            forall|i: int|
                #![trigger iter@[i]]
                0 <= i < iter@.len() && (forall|j: int|
                    i < j < iter@.len() ==> (#[trigger] iter@[j]).0.id().0 != iter@[i].0.id().0)
                    ==> r.slots()[iter@[i].0.id().0 as int] == Some(
                    (iter@[i].0.id().1, iter@[i].1),
                ),
            forall|k: int|
                0 <= k < r.slots().len() ==> (#[trigger] r.slots()[k] is Some <==> exists|i: int|
                    0 <= i < iter@.len() && (#[trigger] iter@[i]).0.id().0 == k),
    {
        let mut map = EntityIndex::new();
        let mut pairs = iter;
        let mut rest: Vec<(Entity, T)> = Vec::new();
        while pairs.len() > 0
            invariant
                pairs@.len() + rest@.len() == iter@.len(),
                forall|i: int| 0 <= i < pairs@.len() ==> pairs@[i] == iter@[i],
                forall|i: int|
                    0 <= i < rest@.len() ==> #[trigger] rest@[i] == iter@[iter@.len() - 1 - i],
            decreases pairs@.len(),
        {
            match pairs.pop() {
                Some(pair) => {
                    rest.push(pair);
                },
                None => {},
            }
        }
        let ghost mut done: int = 0;
        while rest.len() > 0
            invariant
                done + rest@.len() == iter@.len(),
                0 <= done,
                forall|i: int|
                    0 <= i < rest@.len() ==> #[trigger] rest@[i] == iter@[iter@.len() - 1 - i],
                forall|i: int| 0 <= i < iter@.len() ==> (#[trigger] iter@[i]).0.id().0 < usize::MAX,
                forall|k: int|
                    0 <= k < map.slots().len() ==> (#[trigger] map.slots()[k] is Some <==> exists|
                        i: int,
                    |
                        0 <= i < done && (#[trigger] iter@[i]).0.id().0 == k),
                forall|i: int| 0 <= i < done ==> (#[trigger] iter@[i]).0.id().0 < map.slots().len(),
                forall|i: int|
                    #![trigger iter@[i]]
                    0 <= i < done && (forall|j: int|
                        i < j < done ==> (#[trigger] iter@[j]).0.id().0 != iter@[i].0.id().0)
                        ==> map.slots()[iter@[i].0.id().0 as int] == Some(
                        (iter@[i].0.id().1, iter@[i].1),
                    ),
            decreases rest@.len(),
        {
            match rest.pop() {
                Some((entity, value)) => {
                    let ghost before = map.slots();
                    assert(iter@[done] == (entity, value));
                    map.insert(entity, value);
                    proof {
                        assert forall|k: int| 0 <= k < map.slots().len() implies (
                        #[trigger] map.slots()[k] is Some <==> exists|i: int|
                            0 <= i < done + 1 && (#[trigger] iter@[i]).0.id().0 == k) by {
                            if k == entity.id().0 {
                                assert(iter@[done].0.id().0 == k);
                            } else if k < before.len() {
                                if before[k] is Some {
                                    let i = choose|i: int|
                                        0 <= i < done && (#[trigger] iter@[i]).0.id().0 == k;
                                    assert(iter@[i].0.id().0 == k);
                                }
                            }
                        }
                        assert forall|i: int|
                            #![trigger iter@[i]]
                            0 <= i < done + 1 && (forall|j: int|
                                i < j < done + 1 ==> (#[trigger] iter@[j]).0.id().0
                                    != iter@[i].0.id().0) implies map.slots()[iter@[i].0.id().0 as int]
                            == Some((iter@[i].0.id().1, iter@[i].1)) by {
                            if i < done {
                                assert(iter@[done].0.id().0 != iter@[i].0.id().0);
                                assert forall|j: int| i < j < done implies (
                                #[trigger] iter@[j]).0.id().0 != iter@[i].0.id().0 by {}
                            }
                        }
                        done = done + 1;
                    }
                },
                None => {},
            }
        }
        map
    }
}

impl<'a, T> EntityIndexIter<'a, T> {
    /// The slots of the map that is walked over.
    pub closed spec fn slots(&self) -> Seq<Option<(u64, T)>> {
        self.0.slots()
    }

    /// The index from which the walk goes on.
    pub closed spec fn position(&self) -> int {
        self.0.position()
    }

    /// The invariant of the walk: its place lies within the slots.
    pub open spec fn wf(&self) -> bool {
        0 <= self.position() <= self.slots().len()
    }

    /// The next entry: the one in the first slot in use from the place of
    /// the walk on.
    pub fn next(&mut self) -> (r: Option<(Entity, &'a T)>)
        requires
            old(self).wf(),
        ensures
            final(self).wf(),
            final(self).slots() == old(self).slots(),
            ({
                let found = next_used(old(self).slots(), old(self).position());
                match r {
                    Some((key, value)) => {
                        &&& found < old(self).slots().len()
                        &&& key.id().0 == found
                        &&& old(self).slots()[found] == Some((key.id().1, *value))
                        &&& final(self).position() == found + 1
                    },
                    None => found == old(self).slots().len() && final(self).position() == found,
                }
            }),
    {
        match self.0.next() {
            Some((gen_index, value)) => Some((Entity(gen_index), value)),
            None => None,
        }
    }
}

impl<'a, T> EntityIndexIterMut<'a, T> {
    /// The entries that were not handed out yet, the one with the largest
    /// index first and the next one to hand out last.
    pub closed spec fn items(&self) -> Seq<(Entity, &'a mut T)> {
        Seq::new(self.0.items().len(), |j: int| (Entity(self.0.items()[j].0), self.0.items()[j].1))
    }

    /// The indices of the entries go down strictly from each to the next.
    pub open spec fn keys_descending(&self) -> bool {
        forall|j: int, k: int|
            0 <= j < k < self.items().len() ==> (#[trigger] self.items()[j]).0.id().0 > (
            #[trigger] self.items()[k]).0.id().0
    }

    /// The next entry: the one with the smallest index among those that
    /// were not handed out yet.
    pub fn next(&mut self) -> (r: Option<(Entity, &'a mut T)>)
        ensures
            match r {
                Some(entry) => old(self).items().len() > 0 && entry == old(self).items().last()
                    && final(self).items() == old(self).items().drop_last(),
                None => old(self).items().len() == 0 && final(self).items() == old(self).items(),
            },
    {
        match self.0.next() {
            Some((gen_index, value)) => {
                assert(self.items() =~= old(self).items().drop_last());
                let r = Some((Entity(gen_index), value));
                assert(old(self).items()[old(self).items().len() - 1] == r->Some_0);
                r
            },
            None => {
                assert(self.items() =~= old(self).items());
                None
            },
        }
    }
}

impl<T> EntityIndexIntoIter<T> {
    /// The slots of the map that is walked over; those that were passed
    /// are empty.
    pub closed spec fn slots(&self) -> Seq<Option<(u64, T)>> {
        self.0.slots()
    }

    /// The index from which the walk goes on.
    pub closed spec fn position(&self) -> int {
        self.0.position()
    }

    /// The invariant of the walk: its place lies within the slots.
    pub open spec fn wf(&self) -> bool {
        0 <= self.position() <= self.slots().len()
    }

    /// The next entry: the one in the first slot in use from the place of
    /// the walk on.
    pub fn next(&mut self) -> (r: Option<(Entity, T)>)
        requires
            old(self).wf(),
        ensures
            final(self).wf(),
            final(self).slots().len() == old(self).slots().len(),
            ({
                let found = next_used(old(self).slots(), old(self).position());
                match r {
                    Some((key, value)) => {
                        &&& found < old(self).slots().len()
                        &&& key.id().0 == found
                        &&& old(self).slots()[found] == Some((key.id().1, value))
                        &&& final(self).position() == found + 1
                        &&& final(self).slots() == old(self).slots().update(found, None)
                    },
                    None => {
                        &&& found == old(self).slots().len()
                        &&& final(self).position() == found
                        &&& final(self).slots() == old(self).slots()
                    },
                }
            }),
    {
        match self.0.next() {
            Some((gen_index, value)) => Some((Entity(gen_index), value)),
            None => None,
        }
    }
}

} // verus!
