use crate::component::{ComponentStorage, TypeKey};
use crate::ecs::ComponentHandle;
use crate::sorted_pairs::{has_key, keys_descending, lemma_pair_is_entry, place_of};
use crate::world::{World, WorldError};
use vstd::prelude::*;
use vstd::relations::{sorted_by, total_ordering};
use vstd::seq_lib::lemma_sorted_unique;

verus! {

/// Identifies a lock. Locks are acquired in the order of their identifiers:
/// those of resources before those of components, and each of the two in
/// the order of the kinds.
#[derive(Eq, PartialEq, Ord, PartialOrd, Clone, Copy, Debug, Structural)]
pub enum LockId {
    Resource(TypeKey),
    Component(TypeKey),
}

/// A request to read the resource of one kind.
#[derive(Clone, Copy, Debug)]
pub struct ReadResource(pub TypeKey);

/// A request to write the resource of one kind.
#[derive(Clone, Copy, Debug)]
pub struct WriteResource(pub TypeKey);

/// A request to read the components of one kind.
#[derive(Clone, Copy, Debug)]
pub struct ReadComponent(pub TypeKey);

/// A request to write the components of one kind.
#[derive(Clone, Copy, Debug)]
pub struct WriteComponent(pub TypeKey);

/// What a request asks for: a resource or the components of one kind, for
/// reading or for writing.
#[derive(Eq, PartialEq, Clone, Copy, Debug, Structural)]
pub enum LockRequest {
    ReadResource(TypeKey),
    WriteResource(TypeKey),
    ReadComponent(TypeKey),
    WriteComponent(TypeKey),
}

/// What a request is given: a resource, or a handle to the components of
/// one kind, for reading or for writing.
pub enum WorldHandle<'a, S, R> {
    ReadResource(&'a R),
    WriteResource(&'a mut R),
    ReadComponent(ComponentHandle<'a, &'a S>),
    WriteComponent(ComponentHandle<'a, &'a mut S>),
}

/// A request for one lock of a world.
pub trait WorldLocker {
    /// What is asked for.
    spec fn asks(&self) -> LockRequest;

    /// What is asked for.
    fn request(&self) -> (r: LockRequest)
        ensures
            r == self.asks(),
    ;

    /// The lock that guards what is asked for.
    fn id(&self) -> (r: LockId)
        ensures
            r == self.asks().lock_id(),
    ;
}

/// Requests for several locks of a world, in the order in which the caller
/// names them.
pub trait WorldMultiLocker {
    /// What is asked for, in the order in which it is named.
    spec fn requests(&self) -> Seq<LockRequest>;

    /// What is asked for, in the order in which it is named.
    fn lockers(&self) -> (r: Vec<LockRequest>)
        ensures
            r@ == self.requests(),
    ;
}

impl LockRequest {
    /// The lock that guards what is asked for.
    pub open spec fn lock_id(self) -> LockId {
        match self {
            LockRequest::ReadResource(key) => LockId::Resource(key),
            LockRequest::WriteResource(key) => LockId::Resource(key),
            LockRequest::ReadComponent(key) => LockId::Component(key),
            LockRequest::WriteComponent(key) => LockId::Component(key),
        }
    }

    /// Whether the request is one for writing.
    pub open spec fn writes(self) -> bool {
        self is WriteResource || self is WriteComponent
    }

    /// The lock that guards what is asked for.
    pub fn id(&self) -> (r: LockId)
        ensures
            r == self.lock_id(),
    {
        match self {
            LockRequest::ReadResource(key) => LockId::Resource(*key),
            LockRequest::WriteResource(key) => LockId::Resource(*key),
            LockRequest::ReadComponent(key) => LockId::Component(*key),
            LockRequest::WriteComponent(key) => LockId::Component(*key),
        }
    }

    /// Whether the request is one for writing.
    pub fn is_write(&self) -> (r: bool)
        ensures
            r == self.writes(),
    {
        match self {
            LockRequest::ReadResource(_) => false,
            LockRequest::WriteResource(_) => true,
            LockRequest::ReadComponent(_) => false,
            LockRequest::WriteComponent(_) => true,
        }
    }
}

/// The locks of the requests, in their order.
pub open spec fn ids_of(requests: Seq<LockRequest>) -> Seq<LockId> {
    requests.map_values(|request: LockRequest| request.lock_id())
}

/// Whether no two of the requests are in each other's way: what is asked
/// for writing is asked for only once.
pub open spec fn no_conflict(requests: Seq<LockRequest>) -> bool {
    forall|i: int, j: int|
        0 <= i < requests.len() && 0 <= j < requests.len() && i != j && (
        #[trigger] requests[i]).lock_id() == (#[trigger] requests[j]).lock_id() ==> !requests[i].writes()
            && !requests[j].writes()
}

impl WorldLocker for ReadResource {
    open spec fn asks(&self) -> LockRequest {
        LockRequest::ReadResource(self.0)
    }

    fn request(&self) -> (r: LockRequest) {
        LockRequest::ReadResource(self.0)
    }

    fn id(&self) -> (r: LockId) {
        LockId::Resource(self.0)
    }
}

impl WorldLocker for WriteResource {
    open spec fn asks(&self) -> LockRequest {
        LockRequest::WriteResource(self.0)
    }

    fn request(&self) -> (r: LockRequest) {
        LockRequest::WriteResource(self.0)
    }

    fn id(&self) -> (r: LockId) {
        LockId::Resource(self.0)
    }
}

impl WorldLocker for ReadComponent {
    open spec fn asks(&self) -> LockRequest {
        LockRequest::ReadComponent(self.0)
    }

    fn request(&self) -> (r: LockRequest) {
        LockRequest::ReadComponent(self.0)
    }

    fn id(&self) -> (r: LockId) {
        LockId::Component(self.0)
    }
}

impl WorldLocker for WriteComponent {
    open spec fn asks(&self) -> LockRequest {
        LockRequest::WriteComponent(self.0)
    }

    fn request(&self) -> (r: LockRequest) {
        LockRequest::WriteComponent(self.0)
    }

    fn id(&self) -> (r: LockId) {
        LockId::Component(self.0)
    }
}

impl LockId {
    /// The kind of thing that the lock guards.
    pub open spec fn key(self) -> TypeKey {
        match self {
            LockId::Resource(key) => key,
            LockId::Component(key) => key,
        }
    }

    /// Whether this lock is acquired no later than `other`: it is the lock
    /// of a resource and `other` that of a component, or both are of one
    /// sort and the kind of this one is not the larger.
    pub open spec fn not_after(self, other: LockId) -> bool {
        match (self, other) {
            (LockId::Resource(_), LockId::Component(_)) => true,
            (LockId::Component(_), LockId::Resource(_)) => false,
            _ => self.key().0 <= other.key().0,
        }
    }

    /// Whether this lock is acquired before `other`.
    pub fn comes_before(&self, other: &LockId) -> (r: bool)
        ensures
            r == (self.not_after(*other) && *self != *other),
    {
        match (self, other) {
            (LockId::Resource(a), LockId::Resource(b)) => a.0 < b.0,
            (LockId::Resource(_), LockId::Component(_)) => true,
            (LockId::Component(_), LockId::Resource(_)) => false,
            (LockId::Component(a), LockId::Component(b)) => a.0 < b.0,
        }
    }
}

/// The order in which locks are acquired, as a relation.
pub open spec fn lock_order() -> spec_fn(LockId, LockId) -> bool {
    |a: LockId, b: LockId| a.not_after(b)
}

/// The locks of a plan, in its order.
pub open spec fn locks_of(plan: Seq<(LockId, usize)>) -> Seq<LockId> {
    plan.map_values(|step: (LockId, usize)| step.0)
}

/// Whether a step of the plan names the given place.
pub open spec fn names_place(plan: Seq<(LockId, usize)>, place: int) -> bool {
    exists|k: int| 0 <= k < plan.len() && (#[trigger] plan[k]).1 == place
}

/// Whether `plan` says in which order to acquire the locks `ids`: each of
/// its steps names a lock and the place at which `ids` names it, the steps
/// are in the order of the locks, steps for the same lock are in the order
/// of their places, every place is named, and the locks of the plan are the
/// locks of `ids`, each as often as there.
pub open spec fn is_lock_plan(ids: Seq<LockId>, plan: Seq<(LockId, usize)>) -> bool {
    &&& plan.len() == ids.len()
    &&& forall|k: int|
        0 <= k < plan.len() ==> (#[trigger] plan[k]).1 < ids.len() && ids[plan[k].1 as int]
            == plan[k].0
    &&& forall|a: int, b: int|
        0 <= a < b < plan.len() ==> (#[trigger] plan[a]).0.not_after((#[trigger] plan[b]).0) && (
        plan[a].0 == plan[b].0 ==> plan[a].1 < plan[b].1)
    &&& forall|p: int| 0 <= p < ids.len() ==> #[trigger] names_place(plan, p)
    &&& locks_of(plan).to_multiset() == ids.to_multiset()
}

/// Says in which order to acquire the given locks.
pub fn lock_plan(ids: &Vec<LockId>) -> (plan: Vec<(LockId, usize)>)
    ensures
        is_lock_plan(ids@, plan@),
{
    let mut plan: Vec<(LockId, usize)> = Vec::new();
    let mut i: usize = 0;
    proof {
        assert(locks_of(plan@) =~= Seq::<LockId>::empty());
        assert(ids@.take(0) =~= Seq::<LockId>::empty());
    }
    while i < ids.len()
        invariant
            i <= ids@.len(),
            plan@.len() == i,
            forall|k: int|
                0 <= k < plan@.len() ==> (#[trigger] plan@[k]).1 < i && ids@[plan@[k].1 as int]
                    == plan@[k].0,
            forall|a: int, b: int|
                0 <= a < b < plan@.len() ==> (#[trigger] plan@[a]).0.not_after(
                    (#[trigger] plan@[b]).0,
                ) && (plan@[a].0 == plan@[b].0 ==> plan@[a].1 < plan@[b].1),
            forall|p: int| 0 <= p < i ==> #[trigger] names_place(plan@, p),
            locks_of(plan@).to_multiset() == ids@.take(i as int).to_multiset(),
        decreases ids@.len() - i,
    {
        let id = ids[i];
        let mut pos: usize = 0;
        while pos < plan.len() && !id.comes_before(&plan[pos].0)
            invariant
                pos <= plan@.len(),
                forall|k: int| 0 <= k < pos ==> (#[trigger] plan@[k]).0.not_after(id),
            decreases plan@.len() - pos,
        {
            pos = pos + 1;
        }
        let ghost before = plan@;
        plan.insert(pos, (id, i));
        proof {
            assert forall|a: int, b: int| 0 <= a < b < plan@.len() implies (#[trigger] plan@[a]).0.not_after(
                (#[trigger] plan@[b]).0,
            ) && (plan@[a].0 == plan@[b].0 ==> plan@[a].1 < plan@[b].1) by {
                let x = if a < pos { a } else { a - 1 };
                let y = if b < pos { b } else { b - 1 };
                if a != pos && b != pos {
                    assert(before[x].0.not_after(before[y].0));
                } else if a == pos {
                    assert(id.not_after(before[pos as int].0));
                    if b > pos + 1 {
                        assert(before[pos as int].0.not_after(before[y].0));
                    }
                } else {
                    assert(before[x].0.not_after(id));
                    assert(before[x].1 < i);
                }
            }
            assert forall|p: int| 0 <= p < i + 1 implies #[trigger] names_place(plan@, p) by {
                if p < i {
                    assert(names_place(before, p));
                    let k = choose|k: int| 0 <= k < before.len() && (#[trigger] before[k]).1 == p;
                    if k < pos {
                        assert(plan@[k].1 == p);
                    } else {
                        assert(plan@[k + 1].1 == p);
                    }
                } else {
                    assert(plan@[pos as int].1 == p);
                }
            }
            assert(locks_of(plan@) =~= locks_of(before).insert(pos as int, id));
            assert(ids@.take(i + 1) =~= ids@.take(i as int).push(id));
            vstd::seq_lib::to_multiset_insert(locks_of(before), pos as int, id);
            vstd::seq_lib::to_multiset_build(ids@.take(i as int), id);
        }
        i = i + 1;
    }
    proof {
        assert(ids@.take(i as int) =~= ids@);
    }
    plan
}

/// The order in which locks are acquired is reflexive, antisymmetric,
/// transitive and total.
pub proof fn lemma_lock_order_is_total()
    ensures
        total_ordering(lock_order()),
{
    let leq = lock_order();
    assert forall|x: LockId, y: LockId| #[trigger] leq(x, y) && #[trigger] leq(y, x) implies x
        == y by {}
    assert forall|x: LockId, y: LockId, z: LockId| #[trigger]
        leq(x, y) && #[trigger] leq(y, z) implies leq(x, z) by {}
    assert forall|x: LockId, y: LockId| #[trigger] leq(x, y) || #[trigger] leq(y, x) by {}
    assert forall|x: LockId| #[trigger] leq(x, x) by {}
    assert(vstd::relations::reflexive(leq));
    assert(vstd::relations::antisymmetric(leq));
    assert(vstd::relations::transitive(leq));
    assert(vstd::relations::strongly_connected(leq));
}

/// Lock ordering: the order in which locks are acquired depends on which
/// locks are asked for and how often, and not on the order in which they
/// are named.
pub proof fn lemma_lock_order_by_ids_alone(
    first: Seq<LockId>,
    first_plan: Seq<(LockId, usize)>,
    second: Seq<LockId>,
    second_plan: Seq<(LockId, usize)>,
)
    requires
        is_lock_plan(first, first_plan),
        is_lock_plan(second, second_plan),
        first.to_multiset() == second.to_multiset(),
    ensures
        locks_of(first_plan) == locks_of(second_plan),
{
    lemma_lock_order_is_total();
    let leq = lock_order();
    assert(sorted_by(locks_of(first_plan), leq)) by {
        assert forall|a: int, b: int| 0 <= a < b < locks_of(first_plan).len() implies #[trigger] leq(
            locks_of(first_plan)[a],
            locks_of(first_plan)[b],
        ) by {
            assert(first_plan[a].0.not_after(first_plan[b].0));
        }
    }
    assert(sorted_by(locks_of(second_plan), leq)) by {
        assert forall|a: int, b: int| 0 <= a < b < locks_of(second_plan).len() implies #[trigger] leq(
            locks_of(second_plan)[a],
            locks_of(second_plan)[b],
        ) by {
            assert(second_plan[a].0.not_after(second_plan[b].0));
        }
    }
    lemma_sorted_unique(locks_of(first_plan), locks_of(second_plan), leq);
}

/// A value that is lent for reading or for writing.
enum Lent<'a, T> {
    Shared(&'a T),
    Exclusive(&'a mut T),
}

/// One step of a plan for the locks of one sort: the number of the kind,
/// the place at which the caller named the lock, and whether it is a lock
/// for writing.
struct LockStep {
    key: usize,
    place: usize,
    write: bool,
}

/// Whether the steps can be served: they are in the order of the kinds,
/// their places differ and lie below `count`, and a kind that is asked for
/// writing is asked for only once.
spec fn steps_in_order(steps: Seq<LockStep>, count: int) -> bool {
    &&& forall|s: int| 0 <= s < steps.len() ==> (#[trigger] steps[s]).place < count
    &&& forall|s: int, t: int|
        0 <= s < t < steps.len() ==> (#[trigger] steps[s]).key <= (#[trigger] steps[t]).key
            && steps[s].place != steps[t].place && (steps[s].key == steps[t].key ==> !steps[s].write
            && !steps[t].write)
}

/// Lends the values that the steps ask for, each at the place of its step:
/// for writing where the step says so, for reading otherwise. Places that
/// no step names stay empty, and values that are not lent for writing stay
/// as they are.
fn lend<'a, T>(refs: Vec<(usize, &'a mut T)>, steps: &Vec<LockStep>, count: usize) -> (lent: Vec<
    Option<Lent<'a, T>>,
>)
    requires
        keys_descending(refs@),
        steps_in_order(steps@, count as int),
        forall|s: int| 0 <= s < steps@.len() ==> has_key(refs@, (#[trigger] steps@[s]).key),
    ensures
        lent@.len() == count,
        forall|s: int|
            0 <= s < steps@.len() ==> match lent@[(#[trigger] steps@[s]).place as int] {
                Some(Lent::Exclusive(x)) => {
                    &&& steps@[s].write
                    &&& *x == *refs@[place_of(refs@, steps@[s].key)].1
                    &&& *final(x) == *final(refs@[place_of(refs@, steps@[s].key)].1)
                },
                Some(Lent::Shared(x)) => {
                    &&& !steps@[s].write
                    &&& *x == *refs@[place_of(refs@, steps@[s].key)].1
                },
                None => false,
            },
        forall|p: int|
            0 <= p < count && (forall|s: int| 0 <= s < steps@.len() ==> (#[trigger] steps@[s]).place != p)
                ==> #[trigger] lent@[p] is None,
        forall|j: int|
            0 <= j < refs@.len() && (forall|s: int|
                0 <= s < steps@.len() ==> !((#[trigger] steps@[s]).key == refs@[j].0
                    && steps@[s].write)) ==> *final((#[trigger] refs@[j]).1) == *refs@[j].1,
{
    let mut lent: Vec<Option<Lent<'a, T>>> = Vec::new();
    let mut filled: usize = 0;
    while filled < count
        invariant
            filled <= count,
            lent@.len() == filled,
            forall|p: int| 0 <= p < filled ==> #[trigger] lent@[p] is None,
        decreases count - filled,
    {
        lent.push(None);
        filled = filled + 1;
    }
    let mut rest = refs;
    let mut s: usize = 0;
    while rest.len() > 0
        invariant
            keys_descending(refs@),
            steps_in_order(steps@, count as int),
            lent@.len() == count,
            s <= steps@.len(),
            rest@.len() <= refs@.len(),
            rest@ == refs@.take(rest@.len() as int),
            forall|t: int|
                s <= t < steps@.len() ==> has_key(rest@, (#[trigger] steps@[t]).key),
            forall|t: int|
                0 <= t < s ==> has_key(refs@, (#[trigger] steps@[t]).key) && place_of(
                    refs@,
                    steps@[t].key,
                ) >= rest@.len(),
            forall|t: int|
                0 <= t < s ==> match lent@[(#[trigger] steps@[t]).place as int] {
                    Some(Lent::Exclusive(x)) => {
                        &&& steps@[t].write
                        &&& *x == *refs@[place_of(refs@, steps@[t].key)].1
                        &&& *final(x) == *final(refs@[place_of(refs@, steps@[t].key)].1)
                    },
                    Some(Lent::Shared(x)) => {
                        &&& !steps@[t].write
                        &&& *x == *refs@[place_of(refs@, steps@[t].key)].1
                    },
                    None => false,
                },
            forall|p: int|
                0 <= p < count && (forall|t: int| 0 <= t < s ==> (#[trigger] steps@[t]).place != p)
                    ==> #[trigger] lent@[p] is None,
            forall|j: int|
                rest@.len() <= j < refs@.len() && (forall|t: int|
                    0 <= t < steps@.len() ==> !((#[trigger] steps@[t]).key == refs@[j].0
                        && steps@[t].write)) ==> *final((#[trigger] refs@[j]).1) == *refs@[j].1,
        decreases rest@.len(),
    {
        let ghost m = rest@.len() - 1;
        match rest.pop() {
            Some((key, value)) => {
                proof {
                    lemma_pair_is_entry(refs@, m);
                    assert forall|t: int| s <= t < steps@.len() implies (#[trigger] steps@[t]).key
                        >= key by {
                        let j = place_of(refs@.take(m + 1), steps@[t].key);
                        if j < m {
                            assert(refs@[j].0 > refs@[m].0);
                        }
                    }
                }
                if s < steps.len() && steps[s].key == key {
                    if steps[s].write {
                        let place = steps[s].place;
                        let ghost before = lent@;
                        lent[place] = Some(Lent::Exclusive(value));
                        proof {
                            assert forall|t: int| 0 <= t < s implies lent@[(
                            #[trigger] steps@[t]).place as int] == before[steps@[t].place as int] by {}
                        }
                        s = s + 1;
                    } else {
                        let shared: &'a T = value;
                        let ghost first = s;
                        while s < steps.len() && steps[s].key == key
                            invariant
                                keys_descending(refs@),
                                steps_in_order(steps@, count as int),
                                lent@.len() == count,
                                first <= s <= steps@.len(),
                                0 <= m < refs@.len(),
                                refs@[m].0 == key,
                                place_of(refs@, key) == m,
                                has_key(refs@, key),
                                *shared == *refs@[m].1,
                                !steps@[first as int].write,
                                steps@[first as int].key == key,
                                forall|t: int|
                                    first <= t < s ==> (#[trigger] steps@[t]).key == key,
                                forall|t: int|
                                    0 <= t < first ==> has_key(refs@, (#[trigger] steps@[t]).key)
                                        && place_of(refs@, steps@[t].key) >= m + 1,
                                forall|t: int|
                                    0 <= t < s ==> match lent@[(#[trigger] steps@[t]).place as int] {
                                        Some(Lent::Exclusive(x)) => {
                                            &&& steps@[t].write
                                            &&& *x == *refs@[place_of(refs@, steps@[t].key)].1
                                            &&& *final(x) == *final(refs@[place_of(refs@, steps@[t].key)].1)
                                        },
                                        Some(Lent::Shared(x)) => {
                                            &&& !steps@[t].write
                                            &&& *x == *refs@[place_of(refs@, steps@[t].key)].1
                                        },
                                        None => false,
                                    },
                                forall|p: int|
                                    0 <= p < count && (forall|t: int|
                                        0 <= t < s ==> (#[trigger] steps@[t]).place != p)
                                        ==> #[trigger] lent@[p] is None,
                            decreases steps@.len() - s,
                        {
                            let place = steps[s].place;
                            let ghost before = lent@;
                            proof {
                                if s > first {
                                    assert(steps@[first as int].key == steps@[s as int].key);
                                }
                            }
                            lent[place] = Some(Lent::Shared(shared));
                            proof {
                                assert forall|t: int| 0 <= t < s implies lent@[(
                                #[trigger] steps@[t]).place as int] == before[steps@[t].place as int] by {}
                            }
                            s = s + 1;
                        }
                    }
                }
                proof {
                    assert forall|t: int| s <= t < steps@.len() implies has_key(
                        rest@,
                        (#[trigger] steps@[t]).key,
                    ) by {
                        let j = place_of(refs@.take(m + 1), steps@[t].key);
                        assert(refs@.take(m + 1)[j].0 == steps@[t].key);
                        if j == m {
                            if s > 0 {
                                assert(steps@[s - 1].key <= steps@[t].key);
                            }
                        }
                        assert(rest@[j].0 == steps@[t].key);
                    }
                }
            },
            None => {},
        }
    }
    proof {
        if s < steps@.len() {
            assert(has_key(rest@, steps@[s as int].key));
        }
    }
    lent
}

/// Whether the world has what the lock guards.
pub open spec fn has_lock<C: Clone, S: for<'s> ComponentStorage<'s, Component = C>, R>(world: World<S, R>, id: LockId) -> bool {
    match id {
        LockId::Resource(key) => world.resources().contains_key(key.0),
        LockId::Component(key) => world.ecs().is_registered(key),
    }
}

/// The error that a lock brings if the world does not have what it guards.
pub open spec fn missing_lock(id: LockId) -> WorldError {
    match id {
        LockId::Resource(key) => WorldError::ResourceNotFound(key),
        LockId::Component(_) => WorldError::UnregisteredComponent,
    }
}

/// The lock of the given sort for the kind with the given number.
spec fn lock_of(resource: bool, key: usize) -> LockId {
    if resource {
        LockId::Resource(TypeKey(key))
    } else {
        LockId::Component(TypeKey(key))
    }
}

/// Whether the step stands for one of the requests: the request at the
/// place of the step asks for the lock of the step's kind, of the given
/// sort, and for writing exactly if the step says so.
spec fn step_asks(requests: Seq<LockRequest>, step: LockStep, resource: bool) -> bool {
    &&& step.place < requests.len()
    &&& requests[step.place as int].lock_id() == lock_of(resource, step.key)
    &&& step.write == requests[step.place as int].writes()
}

/// Whether one of the steps names the given place.
spec fn step_names(steps: Seq<LockStep>, place: int) -> bool {
    exists|s: int| 0 <= s < steps.len() && (#[trigger] steps[s]).place == place
}

/// The steps of a plan that are for locks of one sort, in the order of the
/// plan.
fn steps_of(requests: &Vec<LockRequest>, plan: &Vec<(LockId, usize)>, resource: bool) -> (steps:
    Vec<LockStep>)
    requires
        is_lock_plan(ids_of(requests@), plan@),
        no_conflict(requests@),
    ensures
        steps_in_order(steps@, requests@.len() as int),
        forall|s: int| 0 <= s < steps@.len() ==> step_asks(requests@, #[trigger] steps@[s], resource),
        forall|p: int|
            0 <= p < requests@.len() && (requests@[p].lock_id() is Resource) == resource
                ==> #[trigger] step_names(steps@, p),
{
    let mut steps: Vec<LockStep> = Vec::new();
    let ghost mut origin: Seq<int> = Seq::empty();
    let mut k: usize = 0;
    while k < plan.len()
        invariant
            is_lock_plan(ids_of(requests@), plan@),
            k <= plan@.len(),
            origin.len() == steps@.len(),
            forall|s: int|
                0 <= s < steps@.len() ==> {
                    &&& 0 <= #[trigger] origin[s] < k
                    &&& plan@[origin[s]] == (lock_of(resource, steps@[s].key), steps@[s].place)
                    &&& steps@[s].write == requests@[steps@[s].place as int].writes()
                },
            forall|s: int, t: int| 0 <= s < t < steps@.len() ==> origin[s] < origin[t],
            forall|a: int|
                0 <= a < k && ((#[trigger] plan@[a]).0 is Resource) == resource ==> step_names(
                    steps@,
                    plan@[a].1 as int,
                ),
        decreases plan@.len() - k,
    {
        let id = plan[k].0;
        let place = plan[k].1;
        let ghost before = steps@;
        let wanted = match id {
            LockId::Resource(_) => resource,
            LockId::Component(_) => !resource,
        };
        if wanted {
            let key = match id {
                LockId::Resource(key) => key.0,
                LockId::Component(key) => key.0,
            };
            steps.push(LockStep { key, place, write: requests[place].is_write() });
            proof {
                origin = origin.push(k as int);
                assert(steps@[before.len() as int].place == place);
            }
        }
        proof {
            assert forall|a: int|
                0 <= a < k + 1 && ((#[trigger] plan@[a]).0 is Resource) == resource implies step_names(
                steps@,
                plan@[a].1 as int,
            ) by {
                if a < k {
                    assert(step_names(before, plan@[a].1 as int));
                    let s = choose|s: int|
                        0 <= s < before.len() && (#[trigger] before[s]).place == plan@[a].1;
                    assert(steps@[s].place == plan@[a].1);
                } else {
                    assert(steps@[before.len() as int].place == plan@[a].1);
                }
            }
        }
        k = k + 1;
    }
    proof {
        lemma_plan_places_differ(ids_of(requests@), plan@);
        assert forall|s: int| 0 <= s < steps@.len() implies step_asks(
            requests@,
            #[trigger] steps@[s],
            resource,
        ) by {
            assert(plan@[origin[s]].1 < requests@.len());
            assert(ids_of(requests@)[plan@[origin[s]].1 as int] == plan@[origin[s]].0);
        }
        assert forall|s: int, t: int| 0 <= s < t < steps@.len() implies (#[trigger] steps@[s]).key <= (
        #[trigger] steps@[t]).key && steps@[s].place != steps@[t].place && (steps@[s].key
            == steps@[t].key ==> !steps@[s].write && !steps@[t].write) by {
            assert(origin[s] < origin[t]);
            assert(plan@[origin[s]].0.not_after(plan@[origin[t]].0));
            assert(plan@[origin[s]].1 != plan@[origin[t]].1);
            assert(step_asks(requests@, steps@[s], resource));
            assert(step_asks(requests@, steps@[t], resource));
        }
        assert forall|p: int|
            0 <= p < requests@.len() && (requests@[p].lock_id() is Resource)
                == resource implies #[trigger] step_names(steps@, p) by {
            assert(names_place(plan@, p));
            let a = choose|a: int| 0 <= a < plan@.len() && (#[trigger] plan@[a]).1 == p;
            assert(ids_of(requests@)[p] == plan@[a].0);
        }
    }
    steps
}

/// The plan names each place once.
proof fn lemma_plan_places_differ(ids: Seq<LockId>, plan: Seq<(LockId, usize)>)
    requires
        is_lock_plan(ids, plan),
    ensures
        forall|a: int, b: int|
            0 <= a < b < plan.len() ==> (#[trigger] plan[a]).1 != (#[trigger] plan[b]).1,
{
    assert forall|a: int, b: int| 0 <= a < b < plan.len() implies (#[trigger] plan[a]).1 != (
    #[trigger] plan[b]).1 by {
        if plan[a].1 == plan[b].1 {
            assert(plan[a].0 == ids[plan[a].1 as int]);
            assert(plan[b].0 == ids[plan[b].1 as int]);
        }
    }
}

impl<C: Clone, S: for<'s> ComponentStorage<'s, Component = C>, R> World<S, R> {
    /// Gives all that is asked for at once: for each request, in the order
    /// in which the caller names them, the resource or a handle to the
    /// components of its kind, for reading or for writing. The locks are
    /// taken in the order of a plan that does not depend on how the caller
    /// names them: those of resources in the order of their kinds, then
    /// those of components in the order of theirs. Fails with the error of
    /// the first lock, in that order, whose resource or kind of component
    /// the world does not have; nothing is given then. Whatever is done to
    /// what was given for writing is done to the world; nothing else
    /// changes.
    pub fn multi_lock<'a, M: WorldMultiLocker>(&'a mut self, lockers: &M) -> (r: Result<
        Vec<WorldHandle<'a, S, R>>,
        WorldError,
    >)
        requires
            old(self).wf(),
            no_conflict(lockers.requests()),
        ensures
            final(self).ecs().entities() == old(self).ecs().entities(),
            final(self).resources().dom() == old(self).resources().dom(),
            final(self).ecs().storages().dom() == old(self).ecs().storages().dom(),
            forall|k: usize|
                old(self).resources().contains_key(k) && !lockers.requests().contains(
                    LockRequest::WriteResource(TypeKey(k)),
                ) ==> #[trigger] final(self).resources()[k] == old(self).resources()[k],
            forall|k: usize|
                old(self).ecs().storages().contains_key(k) && !lockers.requests().contains(
                    LockRequest::WriteComponent(TypeKey(k)),
                ) ==> #[trigger] final(self).ecs().storages()[k] == old(self).ecs().storages()[k],
            match r {
                Ok(handles) => {
                    &&& handles@.len() == lockers.requests().len()
                    &&& forall|i: int|
                        0 <= i < handles@.len() ==> has_lock(
                            *old(self),
                            (#[trigger] lockers.requests()[i]).lock_id(),
                        )
                    &&& forall|i: int|
                        0 <= i < handles@.len() ==> match (
                            lockers.requests()[i],
                            #[trigger] handles@[i],
                        ) {
                            (LockRequest::ReadResource(key), WorldHandle::ReadResource(x)) => *x
                                == old(self).resources()[key.0],
                            (LockRequest::WriteResource(key), WorldHandle::WriteResource(x)) => {
                                &&& *x == old(self).resources()[key.0]
                                &&& *final(x) == final(self).resources()[key.0]
                            },
                            (LockRequest::ReadComponent(key), WorldHandle::ReadComponent(h)) => {
                                &&& *h.storage() == old(self).ecs().storages()[key.0]
                                &&& h.storage().wf()
                                &&& h.entities() == old(self).ecs().entities()
                            },
                            (LockRequest::WriteComponent(key), WorldHandle::WriteComponent(h)) => {
                                &&& *h.storage() == old(self).ecs().storages()[key.0]
                                &&& h.storage().wf()
                                &&& h.entities() == old(self).ecs().entities()
                                &&& *final(h.storage()) == final(self).ecs().storages()[key.0]
                            },
                            _ => false,
                        }
                },
                Err(e) => exists|plan: Seq<(LockId, usize)>, k: int|
                    {
                        &&& #[trigger] is_lock_plan(ids_of(lockers.requests()), plan)
                        &&& 0 <= k < plan.len()
                        &&& forall|j: int| 0 <= j < k ==> has_lock(*old(self), (#[trigger] plan[j]).0)
                        &&& !has_lock(*old(self), #[trigger] plan[k].0)
                        &&& e == missing_lock(plan[k].0)
                    },
            },
    {
        let requests = lockers.lockers();
        let count = requests.len();
        let mut ids: Vec<LockId> = Vec::new();
        let mut i: usize = 0;
        while i < count
            invariant
                count == requests@.len(),
                i <= count,
                ids@.len() == i,
                forall|j: int| 0 <= j < i ==> #[trigger] ids@[j] == requests@[j].lock_id(),
            decreases count - i,
        {
            ids.push(requests[i].id());
            i = i + 1;
        }
        assert(ids@ =~= ids_of(requests@));
        let plan = lock_plan(&ids);
        let mut k: usize = 0;
        while k < plan.len()
            invariant
                *self == *old(self),
                self.wf(),
                k <= plan@.len(),
                is_lock_plan(ids_of(lockers.requests()), plan@),
                forall|j: int| 0 <= j < k ==> has_lock(*self, (#[trigger] plan@[j]).0),
            decreases plan@.len() - k,
        {
            match plan[k].0 {
                LockId::Resource(key) => {
                    match self.read_resource(key) {
                        Ok(_) => {},
                        Err(e) => {
                            assert(is_lock_plan(ids_of(lockers.requests()), plan@) && !has_lock(
                                *self,
                                plan@[k as int].0,
                            ));
                            return Err(e);
                        },
                    }
                },
                LockId::Component(key) => {
                    match self.read_component(key) {
                        Ok(_) => {},
                        Err(e) => {
                            assert(is_lock_plan(ids_of(lockers.requests()), plan@) && !has_lock(
                                *self,
                                plan@[k as int].0,
                            ));
                            return Err(e);
                        },
                    }
                },
            }
            k = k + 1;
        }
        let resource_steps = steps_of(&requests, &plan, true);
        let component_steps = steps_of(&requests, &plan, false);
        let (stores, entities, resources) = self.split();
        proof {
            assert forall|s: int| 0 <= s < resource_steps@.len() implies has_key(
                resources@,
                (#[trigger] resource_steps@[s]).key,
            ) by {
                let place = resource_steps@[s].place as int;
                assert(names_place(plan@, place));
                let a = choose|a: int| 0 <= a < plan@.len() && (#[trigger] plan@[a]).1 == place;
                assert(has_lock(*old(self), plan@[a].0));
                assert(ids_of(requests@)[place] == plan@[a].0);
            }
            assert forall|s: int| 0 <= s < component_steps@.len() implies has_key(
                stores@,
                (#[trigger] component_steps@[s]).key,
            ) by {
                let place = component_steps@[s].place as int;
                assert(names_place(plan@, place));
                let a = choose|a: int| 0 <= a < plan@.len() && (#[trigger] plan@[a]).1 == place;
                assert(has_lock(*old(self), plan@[a].0));
                assert(ids_of(requests@)[place] == plan@[a].0);
            }
        }
        let ghost resource_refs = resources@;
        let ghost store_refs = stores@;
        let mut lent_resources = lend(resources, &resource_steps, count);
        let mut lent_stores = lend(stores, &component_steps, count);
        let ghost lent_r = lent_resources@;
        let ghost lent_c = lent_stores@;
        proof {
            assert forall|k: usize|
                has_key(resource_refs, k) && !requests@.contains(
                    LockRequest::WriteResource(TypeKey(k)),
                ) implies *final(resource_refs[place_of(resource_refs, k)].1)
                == *resource_refs[place_of(resource_refs, k)].1 by {
                let j = place_of(resource_refs, k);
                assert(resource_refs[j].0 == k);
                assert forall|s: int| 0 <= s < resource_steps@.len() implies !((
                #[trigger] resource_steps@[s]).key == resource_refs[j].0 && resource_steps@[s].write) by {
                    assert(step_asks(requests@, resource_steps@[s], true));
                    if resource_steps@[s].key == k && resource_steps@[s].write {
                        assert(requests@[resource_steps@[s].place as int]
                            == LockRequest::WriteResource(TypeKey(k)));
                    }
                }
            }
            assert forall|k: usize|
                has_key(store_refs, k) && !requests@.contains(
                    LockRequest::WriteComponent(TypeKey(k)),
                ) implies *final(store_refs[place_of(store_refs, k)].1)
                == *store_refs[place_of(store_refs, k)].1 by {
                let j = place_of(store_refs, k);
                assert(store_refs[j].0 == k);
                assert forall|s: int| 0 <= s < component_steps@.len() implies !((
                #[trigger] component_steps@[s]).key == store_refs[j].0 && component_steps@[s].write) by {
                    assert(step_asks(requests@, component_steps@[s], false));
                    if component_steps@[s].key == k && component_steps@[s].write {
                        assert(requests@[component_steps@[s].place as int]
                            == LockRequest::WriteComponent(TypeKey(k)));
                    }
                }
            }
            assert forall|p: int| 0 <= p < count implies match #[trigger] requests@[p] {
                LockRequest::ReadResource(key) => {
                    &&& has_key(resource_refs, key.0)
                    &&& lent_c[p] is None
                    &&& lent_r[p] matches Some(Lent::Shared(x)) && *x == *resource_refs[place_of(
                        resource_refs,
                        key.0,
                    )].1
                },
                LockRequest::WriteResource(key) => {
                    &&& has_key(resource_refs, key.0)
                    &&& lent_c[p] is None
                    &&& lent_r[p] matches Some(Lent::Exclusive(x)) && *x == *resource_refs[place_of(
                        resource_refs,
                        key.0,
                    )].1 && *final(x) == *final(resource_refs[place_of(resource_refs, key.0)].1)
                },
                LockRequest::ReadComponent(key) => {
                    &&& has_key(store_refs, key.0)
                    &&& lent_r[p] is None
                    &&& lent_c[p] matches Some(Lent::Shared(x)) && *x == *store_refs[place_of(
                        store_refs,
                        key.0,
                    )].1
                },
                LockRequest::WriteComponent(key) => {
                    &&& has_key(store_refs, key.0)
                    &&& lent_r[p] is None
                    &&& lent_c[p] matches Some(Lent::Exclusive(x)) && *x == *store_refs[place_of(
                        store_refs,
                        key.0,
                    )].1 && *final(x) == *final(store_refs[place_of(store_refs, key.0)].1)
                },
            } by {
                if requests@[p].lock_id() is Resource {
                    assert(step_names(resource_steps@, p));
                    let s = choose|s: int|
                        0 <= s < resource_steps@.len() && (#[trigger] resource_steps@[s]).place == p;
                    assert(step_asks(requests@, resource_steps@[s], true));
                    assert forall|t: int| 0 <= t < component_steps@.len() implies (
                    #[trigger] component_steps@[t]).place != p by {
                        assert(step_asks(requests@, component_steps@[t], false));
                    }
                } else {
                    assert(step_names(component_steps@, p));
                    let s = choose|s: int|
                        0 <= s < component_steps@.len() && (#[trigger] component_steps@[s]).place
                            == p;
                    assert(step_asks(requests@, component_steps@[s], false));
                    assert forall|t: int| 0 <= t < resource_steps@.len() implies (
                    #[trigger] resource_steps@[t]).place != p by {
                        assert(step_asks(requests@, resource_steps@[t], true));
                    }
                }
            }
        }
        let mut reversed: Vec<WorldHandle<'a, S, R>> = Vec::new();
        let mut place: usize = count;
        while place > 0
            invariant
                forall|k: usize|
                    has_key(resource_refs, k) && !requests@.contains(
                        LockRequest::WriteResource(TypeKey(k)),
                    ) ==> *final(resource_refs[place_of(resource_refs, k)].1)
                        == *resource_refs[place_of(resource_refs, k)].1,
                forall|k: usize|
                    has_key(store_refs, k) && !requests@.contains(
                        LockRequest::WriteComponent(TypeKey(k)),
                    ) ==> *final(store_refs[place_of(store_refs, k)].1) == *store_refs[place_of(
                        store_refs,
                        k,
                    )].1,
                forall|k: usize| #[trigger]
                    has_key(store_refs, k) ==> store_refs[place_of(store_refs, k)].1.wf(),
                place <= count,
                count == requests@.len(),
                lent_r.len() == count,
                lent_c.len() == count,
                lent_resources@ == lent_r.take(place as int),
                lent_stores@ == lent_c.take(place as int),
                reversed@.len() == count - place,
                forall|p: int|
                    0 <= p < count ==> match #[trigger] requests@[p] {
                        LockRequest::ReadResource(key) => {
                            &&& has_key(resource_refs, key.0)
                            &&& lent_c[p] is None
                            &&& lent_r[p] matches Some(Lent::Shared(x)) && *x
                                == *resource_refs[place_of(resource_refs, key.0)].1
                        },
                        LockRequest::WriteResource(key) => {
                            &&& has_key(resource_refs, key.0)
                            &&& lent_c[p] is None
                            &&& lent_r[p] matches Some(Lent::Exclusive(x)) && *x
                                == *resource_refs[place_of(resource_refs, key.0)].1 && *final(x)
                                == *final(resource_refs[place_of(resource_refs, key.0)].1)
                        },
                        LockRequest::ReadComponent(key) => {
                            &&& has_key(store_refs, key.0)
                            &&& lent_r[p] is None
                            &&& lent_c[p] matches Some(Lent::Shared(x)) && *x == *store_refs[place_of(
                                store_refs,
                                key.0,
                            )].1
                        },
                        LockRequest::WriteComponent(key) => {
                            &&& has_key(store_refs, key.0)
                            &&& lent_r[p] is None
                            &&& lent_c[p] matches Some(Lent::Exclusive(x)) && *x
                                == *store_refs[place_of(store_refs, key.0)].1 && *final(x) == *final(store_refs[place_of(store_refs, key.0)].1)
                        },
                    },
                forall|j: int|
                    0 <= j < reversed@.len() ==> match (
                        requests@[count - 1 - j],
                        #[trigger] reversed@[j],
                    ) {
                        (LockRequest::ReadResource(key), WorldHandle::ReadResource(x)) => {
                            &&& has_key(resource_refs, key.0)
                            &&& *x == *resource_refs[place_of(resource_refs, key.0)].1
                        },
                        (LockRequest::WriteResource(key), WorldHandle::WriteResource(x)) => {
                            &&& has_key(resource_refs, key.0)
                            &&& *x == *resource_refs[place_of(resource_refs, key.0)].1
                            &&& *final(x) == *final(resource_refs[place_of(resource_refs, key.0)].1)
                        },
                        (LockRequest::ReadComponent(key), WorldHandle::ReadComponent(h)) => {
                            &&& has_key(store_refs, key.0)
                            &&& *h.storage() == *store_refs[place_of(store_refs, key.0)].1
                            &&& h.storage().wf()
                            &&& h.entities() == entities@
                        },
                        (LockRequest::WriteComponent(key), WorldHandle::WriteComponent(h)) => {
                            &&& has_key(store_refs, key.0)
                            &&& *h.storage() == *store_refs[place_of(store_refs, key.0)].1
                            &&& h.storage().wf()
                            &&& h.entities() == entities@
                            &&& *final(h.storage()) == *final(store_refs[place_of(store_refs, key.0)].1)
                        },
                        _ => false,
                    },
            decreases place,
        {
            place = place - 1;
            let ghost before = reversed@;
            let resource = lent_resources.pop();
            let store = lent_stores.pop();
            proof {
                assert(resource == Some(lent_r[place as int]));
                assert(store == Some(lent_c[place as int]));
                let asked = requests@[place as int];
                assert(asked is ReadResource || asked is WriteResource || asked is ReadComponent
                    || asked is WriteComponent);
            }
            let handle = match (resource, store) {
                (Some(Some(Lent::Shared(x))), Some(None)) => WorldHandle::ReadResource(x),
                (Some(Some(Lent::Exclusive(x))), Some(None)) => WorldHandle::WriteResource(x),
                (Some(None), Some(Some(Lent::Shared(x)))) => WorldHandle::ReadComponent(
                    ComponentHandle::new(x, entities),
                ),
                (Some(None), Some(Some(Lent::Exclusive(x)))) => WorldHandle::WriteComponent(
                    ComponentHandle::new(x, entities),
                ),
                _ => {
                    assert(false);
                    return Err(WorldError::UnregisteredComponent);
                },
            };
            reversed.push(handle);
            proof {
                assert forall|j: int| 0 <= j < before.len() implies reversed@[j] == before[j] by {}
            }
        }
        let mut handles: Vec<WorldHandle<'a, S, R>> = Vec::new();
        let ghost all = reversed@;
        while reversed.len() > 0
            invariant
                forall|k: usize|
                    has_key(resource_refs, k) && !requests@.contains(
                        LockRequest::WriteResource(TypeKey(k)),
                    ) ==> *final(resource_refs[place_of(resource_refs, k)].1)
                        == *resource_refs[place_of(resource_refs, k)].1,
                forall|k: usize|
                    has_key(store_refs, k) && !requests@.contains(
                        LockRequest::WriteComponent(TypeKey(k)),
                    ) ==> *final(store_refs[place_of(store_refs, k)].1) == *store_refs[place_of(
                        store_refs,
                        k,
                    )].1,
                forall|k: usize| #[trigger]
                    has_key(store_refs, k) ==> store_refs[place_of(store_refs, k)].1.wf(),
                all.len() == count,
                count == requests@.len(),
                reversed@.len() <= count,
                reversed@ == all.take(reversed@.len() as int),
                handles@.len() == count - reversed@.len(),
                forall|i: int|
                    0 <= i < handles@.len() ==> match (requests@[i], #[trigger] handles@[i]) {
                        (LockRequest::ReadResource(key), WorldHandle::ReadResource(x)) => {
                            &&& has_key(resource_refs, key.0)
                            &&& *x == *resource_refs[place_of(resource_refs, key.0)].1
                        },
                        (LockRequest::WriteResource(key), WorldHandle::WriteResource(x)) => {
                            &&& has_key(resource_refs, key.0)
                            &&& *x == *resource_refs[place_of(resource_refs, key.0)].1
                            &&& *final(x) == *final(resource_refs[place_of(resource_refs, key.0)].1)
                        },
                        (LockRequest::ReadComponent(key), WorldHandle::ReadComponent(h)) => {
                            &&& has_key(store_refs, key.0)
                            &&& *h.storage() == *store_refs[place_of(store_refs, key.0)].1
                            &&& h.storage().wf()
                            &&& h.entities() == entities@
                        },
                        (LockRequest::WriteComponent(key), WorldHandle::WriteComponent(h)) => {
                            &&& has_key(store_refs, key.0)
                            &&& *h.storage() == *store_refs[place_of(store_refs, key.0)].1
                            &&& h.storage().wf()
                            &&& h.entities() == entities@
                            &&& *final(h.storage()) == *final(store_refs[place_of(store_refs, key.0)].1)
                        },
                        _ => false,
                    },
                forall|j: int|
                    0 <= j < all.len() ==> match (requests@[count - 1 - j], #[trigger] all[j]) {
                        (LockRequest::ReadResource(key), WorldHandle::ReadResource(x)) => {
                            &&& has_key(resource_refs, key.0)
                            &&& *x == *resource_refs[place_of(resource_refs, key.0)].1
                        },
                        (LockRequest::WriteResource(key), WorldHandle::WriteResource(x)) => {
                            &&& has_key(resource_refs, key.0)
                            &&& *x == *resource_refs[place_of(resource_refs, key.0)].1
                            &&& *final(x) == *final(resource_refs[place_of(resource_refs, key.0)].1)
                        },
                        (LockRequest::ReadComponent(key), WorldHandle::ReadComponent(h)) => {
                            &&& has_key(store_refs, key.0)
                            &&& *h.storage() == *store_refs[place_of(store_refs, key.0)].1
                            &&& h.storage().wf()
                            &&& h.entities() == entities@
                        },
                        (LockRequest::WriteComponent(key), WorldHandle::WriteComponent(h)) => {
                            &&& has_key(store_refs, key.0)
                            &&& *h.storage() == *store_refs[place_of(store_refs, key.0)].1
                            &&& h.storage().wf()
                            &&& h.entities() == entities@
                            &&& *final(h.storage()) == *final(store_refs[place_of(store_refs, key.0)].1)
                        },
                        _ => false,
                    },
            decreases reversed@.len(),
        {
            let ghost before = handles@;
            let ghost j = reversed@.len() - 1;
            match reversed.pop() {
                Some(handle) => {
                    proof {
                        assert(handle == all[j]);
                    }
                    handles.push(handle);
                    proof {
                        assert forall|i: int| 0 <= i < before.len() implies handles@[i]
                            == before[i] by {}
                    }
                },
                None => {},
            }
        }
        proof {
            assert forall|k: usize| #[trigger]
                old(self).resources().contains_key(k) implies has_key(resource_refs, k) by {}
            assert forall|k: usize| #[trigger]
                old(self).ecs().storages().contains_key(k) implies has_key(store_refs, k) by {}
            assert forall|i: int| 0 <= i < count implies has_lock(
                *old(self),
                (#[trigger] requests@[i]).lock_id(),
            ) by {
                assert(names_place(plan@, i));
                let a = choose|a: int| 0 <= a < plan@.len() && (#[trigger] plan@[a]).1 == i;
                assert(ids_of(requests@)[i] == plan@[a].0);
            }
        }
        Ok(handles)
    }
}

impl<A: WorldLocker> WorldMultiLocker for (A,) {
    open spec fn requests(&self) -> Seq<LockRequest> {
        seq![
            self.0.asks(),
        ]
    }

    fn lockers(&self) -> (r: Vec<LockRequest>) {
        let mut lockers: Vec<LockRequest> = Vec::new();
        lockers.push(self.0.request());
        assert(lockers@ =~= self.requests());
        lockers
    }
}

impl<A, B> WorldMultiLocker for (A, B) where
    A: WorldLocker,
    B: WorldLocker,
 {
    open spec fn requests(&self) -> Seq<LockRequest> {
        seq![
            self.0.asks(),
            self.1.asks(),
        ]
    }

    fn lockers(&self) -> (r: Vec<LockRequest>) {
        let mut lockers: Vec<LockRequest> = Vec::new();
        lockers.push(self.0.request());
        lockers.push(self.1.request());
        assert(lockers@ =~= self.requests());
        lockers
    }
}

impl<A, B, C> WorldMultiLocker for (A, B, C) where
    A: WorldLocker,
    B: WorldLocker,
    C: WorldLocker,
 {
    open spec fn requests(&self) -> Seq<LockRequest> {
        seq![
            self.0.asks(),
            self.1.asks(),
            self.2.asks(),
        ]
    }

    fn lockers(&self) -> (r: Vec<LockRequest>) {
        let mut lockers: Vec<LockRequest> = Vec::new();
        lockers.push(self.0.request());
        lockers.push(self.1.request());
        lockers.push(self.2.request());
        assert(lockers@ =~= self.requests());
        lockers
    }
}

impl<A, B, C, D> WorldMultiLocker for (A, B, C, D) where
    A: WorldLocker,
    B: WorldLocker,
    C: WorldLocker,
    D: WorldLocker,
 {
    open spec fn requests(&self) -> Seq<LockRequest> {
        seq![
            self.0.asks(),
            self.1.asks(),
            self.2.asks(),
            self.3.asks(),
        ]
    }

    fn lockers(&self) -> (r: Vec<LockRequest>) {
        let mut lockers: Vec<LockRequest> = Vec::new();
        lockers.push(self.0.request());
        lockers.push(self.1.request());
        lockers.push(self.2.request());
        lockers.push(self.3.request());
        assert(lockers@ =~= self.requests());
        lockers
    }
}

impl<A, B, C, D, E> WorldMultiLocker for (A, B, C, D, E) where
    A: WorldLocker,
    B: WorldLocker,
    C: WorldLocker,
    D: WorldLocker,
    E: WorldLocker,
 {
    open spec fn requests(&self) -> Seq<LockRequest> {
        seq![
            self.0.asks(),
            self.1.asks(),
            self.2.asks(),
            self.3.asks(),
            self.4.asks(),
        ]
    }

    fn lockers(&self) -> (r: Vec<LockRequest>) {
        let mut lockers: Vec<LockRequest> = Vec::new();
        lockers.push(self.0.request());
        lockers.push(self.1.request());
        lockers.push(self.2.request());
        lockers.push(self.3.request());
        lockers.push(self.4.request());
        assert(lockers@ =~= self.requests());
        lockers
    }
}

impl<A, B, C, D, E, F> WorldMultiLocker for (A, B, C, D, E, F) where
    A: WorldLocker,
    B: WorldLocker,
    C: WorldLocker,
    D: WorldLocker,
    E: WorldLocker,
    F: WorldLocker,
 {
    open spec fn requests(&self) -> Seq<LockRequest> {
        seq![
            self.0.asks(),
            self.1.asks(),
            self.2.asks(),
            self.3.asks(),
            self.4.asks(),
            self.5.asks(),
        ]
    }

    fn lockers(&self) -> (r: Vec<LockRequest>) {
        let mut lockers: Vec<LockRequest> = Vec::new();
        lockers.push(self.0.request());
        lockers.push(self.1.request());
        lockers.push(self.2.request());
        lockers.push(self.3.request());
        lockers.push(self.4.request());
        lockers.push(self.5.request());
        assert(lockers@ =~= self.requests());
        lockers
    }
}

impl<A, B, C, D, E, F, G> WorldMultiLocker for (A, B, C, D, E, F, G) where
    A: WorldLocker,
    B: WorldLocker,
    C: WorldLocker,
    D: WorldLocker,
    E: WorldLocker,
    F: WorldLocker,
    G: WorldLocker,
 {
    open spec fn requests(&self) -> Seq<LockRequest> {
        seq![
            self.0.asks(),
            self.1.asks(),
            self.2.asks(),
            self.3.asks(),
            self.4.asks(),
            self.5.asks(),
            self.6.asks(),
        ]
    }

    fn lockers(&self) -> (r: Vec<LockRequest>) {
        let mut lockers: Vec<LockRequest> = Vec::new();
        lockers.push(self.0.request());
        lockers.push(self.1.request());
        lockers.push(self.2.request());
        lockers.push(self.3.request());
        lockers.push(self.4.request());
        lockers.push(self.5.request());
        lockers.push(self.6.request());
        assert(lockers@ =~= self.requests());
        lockers
    }
}

impl<A, B, C, D, E, F, G, H> WorldMultiLocker for (A, B, C, D, E, F, G, H) where
    A: WorldLocker,
    B: WorldLocker,
    C: WorldLocker,
    D: WorldLocker,
    E: WorldLocker,
    F: WorldLocker,
    G: WorldLocker,
    H: WorldLocker,
 {
    open spec fn requests(&self) -> Seq<LockRequest> {
        seq![
            self.0.asks(),
            self.1.asks(),
            self.2.asks(),
            self.3.asks(),
            self.4.asks(),
            self.5.asks(),
            self.6.asks(),
            self.7.asks(),
        ]
    }

    fn lockers(&self) -> (r: Vec<LockRequest>) {
        let mut lockers: Vec<LockRequest> = Vec::new();
        lockers.push(self.0.request());
        lockers.push(self.1.request());
        lockers.push(self.2.request());
        lockers.push(self.3.request());
        lockers.push(self.4.request());
        lockers.push(self.5.request());
        lockers.push(self.6.request());
        lockers.push(self.7.request());
        assert(lockers@ =~= self.requests());
        lockers
    }
}

impl<A, B, C, D, E, F, G, H, I> WorldMultiLocker for (A, B, C, D, E, F, G, H, I) where
    A: WorldLocker,
    B: WorldLocker,
    C: WorldLocker,
    D: WorldLocker,
    E: WorldLocker,
    F: WorldLocker,
    G: WorldLocker,
    H: WorldLocker,
    I: WorldLocker,
 {
    open spec fn requests(&self) -> Seq<LockRequest> {
        seq![
            self.0.asks(),
            self.1.asks(),
            self.2.asks(),
            self.3.asks(),
            self.4.asks(),
            self.5.asks(),
            self.6.asks(),
            self.7.asks(),
            self.8.asks(),
        ]
    }

    fn lockers(&self) -> (r: Vec<LockRequest>) {
        let mut lockers: Vec<LockRequest> = Vec::new();
        lockers.push(self.0.request());
        lockers.push(self.1.request());
        lockers.push(self.2.request());
        lockers.push(self.3.request());
        lockers.push(self.4.request());
        lockers.push(self.5.request());
        lockers.push(self.6.request());
        lockers.push(self.7.request());
        lockers.push(self.8.request());
        assert(lockers@ =~= self.requests());
        lockers
    }
}

impl<A, B, C, D, E, F, G, H, I, J> WorldMultiLocker for (A, B, C, D, E, F, G, H, I, J) where
    A: WorldLocker,
    B: WorldLocker,
    C: WorldLocker,
    D: WorldLocker,
    E: WorldLocker,
    F: WorldLocker,
    G: WorldLocker,
    H: WorldLocker,
    I: WorldLocker,
    J: WorldLocker,
 {
    open spec fn requests(&self) -> Seq<LockRequest> {
        seq![
            self.0.asks(),
            self.1.asks(),
            self.2.asks(),
            self.3.asks(),
            self.4.asks(),
            self.5.asks(),
            self.6.asks(),
            self.7.asks(),
            self.8.asks(),
            self.9.asks(),
        ]
    }

    fn lockers(&self) -> (r: Vec<LockRequest>) {
        let mut lockers: Vec<LockRequest> = Vec::new();
        lockers.push(self.0.request());
        lockers.push(self.1.request());
        lockers.push(self.2.request());
        lockers.push(self.3.request());
        lockers.push(self.4.request());
        lockers.push(self.5.request());
        lockers.push(self.6.request());
        lockers.push(self.7.request());
        lockers.push(self.8.request());
        lockers.push(self.9.request());
        assert(lockers@ =~= self.requests());
        lockers
    }
}

impl<A, B, C, D, E, F, G, H, I, J, K> WorldMultiLocker for (A, B, C, D, E, F, G, H, I, J, K) where
    A: WorldLocker,
    B: WorldLocker,
    C: WorldLocker,
    D: WorldLocker,
    E: WorldLocker,
    F: WorldLocker,
    G: WorldLocker,
    H: WorldLocker,
    I: WorldLocker,
    J: WorldLocker,
    K: WorldLocker,
 {
    open spec fn requests(&self) -> Seq<LockRequest> {
        seq![
            self.0.asks(),
            self.1.asks(),
            self.2.asks(),
            self.3.asks(),
            self.4.asks(),
            self.5.asks(),
            self.6.asks(),
            self.7.asks(),
            self.8.asks(),
            self.9.asks(),
            self.10.asks(),
        ]
    }

    fn lockers(&self) -> (r: Vec<LockRequest>) {
        let mut lockers: Vec<LockRequest> = Vec::new();
        lockers.push(self.0.request());
        lockers.push(self.1.request());
        lockers.push(self.2.request());
        lockers.push(self.3.request());
        lockers.push(self.4.request());
        lockers.push(self.5.request());
        lockers.push(self.6.request());
        lockers.push(self.7.request());
        lockers.push(self.8.request());
        lockers.push(self.9.request());
        lockers.push(self.10.request());
        assert(lockers@ =~= self.requests());
        lockers
    }
}

impl<A, B, C, D, E, F, G, H, I, J, K, L> WorldMultiLocker for (A, B, C, D, E, F, G, H, I, J, K, L) where
    A: WorldLocker,
    B: WorldLocker,
    C: WorldLocker,
    D: WorldLocker,
    E: WorldLocker,
    F: WorldLocker,
    G: WorldLocker,
    H: WorldLocker,
    I: WorldLocker,
    J: WorldLocker,
    K: WorldLocker,
    L: WorldLocker,
 {
    open spec fn requests(&self) -> Seq<LockRequest> {
        seq![
            self.0.asks(),
            self.1.asks(),
            self.2.asks(),
            self.3.asks(),
            self.4.asks(),
            self.5.asks(),
            self.6.asks(),
            self.7.asks(),
            self.8.asks(),
            self.9.asks(),
            self.10.asks(),
            self.11.asks(),
        ]
    }

    fn lockers(&self) -> (r: Vec<LockRequest>) {
        let mut lockers: Vec<LockRequest> = Vec::new();
        lockers.push(self.0.request());
        lockers.push(self.1.request());
        lockers.push(self.2.request());
        lockers.push(self.3.request());
        lockers.push(self.4.request());
        lockers.push(self.5.request());
        lockers.push(self.6.request());
        lockers.push(self.7.request());
        lockers.push(self.8.request());
        lockers.push(self.9.request());
        lockers.push(self.10.request());
        lockers.push(self.11.request());
        assert(lockers@ =~= self.requests());
        lockers
    }
}

impl<A, B, C, D, E, F, G, H, I, J, K, L, M> WorldMultiLocker for (A, B, C, D, E, F, G, H, I, J, K, L, M) where
    A: WorldLocker,
    B: WorldLocker,
    C: WorldLocker,
    D: WorldLocker,
    E: WorldLocker,
    F: WorldLocker,
    G: WorldLocker,
    H: WorldLocker,
    I: WorldLocker,
    J: WorldLocker,
    K: WorldLocker,
    L: WorldLocker,
    M: WorldLocker,
 {
    open spec fn requests(&self) -> Seq<LockRequest> {
        seq![
            self.0.asks(),
            self.1.asks(),
            self.2.asks(),
            self.3.asks(),
            self.4.asks(),
            self.5.asks(),
            self.6.asks(),
            self.7.asks(),
            self.8.asks(),
            self.9.asks(),
            self.10.asks(),
            self.11.asks(),
            self.12.asks(),
        ]
    }

    fn lockers(&self) -> (r: Vec<LockRequest>) {
        let mut lockers: Vec<LockRequest> = Vec::new();
        lockers.push(self.0.request());
        lockers.push(self.1.request());
        lockers.push(self.2.request());
        lockers.push(self.3.request());
        lockers.push(self.4.request());
        lockers.push(self.5.request());
        lockers.push(self.6.request());
        lockers.push(self.7.request());
        lockers.push(self.8.request());
        lockers.push(self.9.request());
        lockers.push(self.10.request());
        lockers.push(self.11.request());
        lockers.push(self.12.request());
        assert(lockers@ =~= self.requests());
        lockers
    }
}

impl<A, B, C, D, E, F, G, H, I, J, K, L, M, N> WorldMultiLocker for (A, B, C, D, E, F, G, H, I, J, K, L, M, N) where
    A: WorldLocker,
    B: WorldLocker,
    C: WorldLocker,
    D: WorldLocker,
    E: WorldLocker,
    F: WorldLocker,
    G: WorldLocker,
    H: WorldLocker,
    I: WorldLocker,
    J: WorldLocker,
    K: WorldLocker,
    L: WorldLocker,
    M: WorldLocker,
    N: WorldLocker,
 {
    open spec fn requests(&self) -> Seq<LockRequest> {
        seq![
            self.0.asks(),
            self.1.asks(),
            self.2.asks(),
            self.3.asks(),
            self.4.asks(),
            self.5.asks(),
            self.6.asks(),
            self.7.asks(),
            self.8.asks(),
            self.9.asks(),
            self.10.asks(),
            self.11.asks(),
            self.12.asks(),
            self.13.asks(),
        ]
    }

    fn lockers(&self) -> (r: Vec<LockRequest>) {
        let mut lockers: Vec<LockRequest> = Vec::new();
        lockers.push(self.0.request());
        lockers.push(self.1.request());
        lockers.push(self.2.request());
        lockers.push(self.3.request());
        lockers.push(self.4.request());
        lockers.push(self.5.request());
        lockers.push(self.6.request());
        lockers.push(self.7.request());
        lockers.push(self.8.request());
        lockers.push(self.9.request());
        lockers.push(self.10.request());
        lockers.push(self.11.request());
        lockers.push(self.12.request());
        lockers.push(self.13.request());
        assert(lockers@ =~= self.requests());
        lockers
    }
}

impl<A, B, C, D, E, F, G, H, I, J, K, L, M, N, O> WorldMultiLocker for (A, B, C, D, E, F, G, H, I, J, K, L, M, N, O) where
    A: WorldLocker,
    B: WorldLocker,
    C: WorldLocker,
    D: WorldLocker,
    E: WorldLocker,
    F: WorldLocker,
    G: WorldLocker,
    H: WorldLocker,
    I: WorldLocker,
    J: WorldLocker,
    K: WorldLocker,
    L: WorldLocker,
    M: WorldLocker,
    N: WorldLocker,
    O: WorldLocker,
 {
    open spec fn requests(&self) -> Seq<LockRequest> {
        seq![
            self.0.asks(),
            self.1.asks(),
            self.2.asks(),
            self.3.asks(),
            self.4.asks(),
            self.5.asks(),
            self.6.asks(),
            self.7.asks(),
            self.8.asks(),
            self.9.asks(),
            self.10.asks(),
            self.11.asks(),
            self.12.asks(),
            self.13.asks(),
            self.14.asks(),
        ]
    }

    fn lockers(&self) -> (r: Vec<LockRequest>) {
        let mut lockers: Vec<LockRequest> = Vec::new();
        lockers.push(self.0.request());
        lockers.push(self.1.request());
        lockers.push(self.2.request());
        lockers.push(self.3.request());
        lockers.push(self.4.request());
        lockers.push(self.5.request());
        lockers.push(self.6.request());
        lockers.push(self.7.request());
        lockers.push(self.8.request());
        lockers.push(self.9.request());
        lockers.push(self.10.request());
        lockers.push(self.11.request());
        lockers.push(self.12.request());
        lockers.push(self.13.request());
        lockers.push(self.14.request());
        assert(lockers@ =~= self.requests());
        lockers
    }
}

impl<A, B, C, D, E, F, G, H, I, J, K, L, M, N, O, P> WorldMultiLocker for (A, B, C, D, E, F, G, H, I, J, K, L, M, N, O, P) where
    A: WorldLocker,
    B: WorldLocker,
    C: WorldLocker,
    D: WorldLocker,
    E: WorldLocker,
    F: WorldLocker,
    G: WorldLocker,
    H: WorldLocker,
    I: WorldLocker,
    J: WorldLocker,
    K: WorldLocker,
    L: WorldLocker,
    M: WorldLocker,
    N: WorldLocker,
    O: WorldLocker,
    P: WorldLocker,
 {
    open spec fn requests(&self) -> Seq<LockRequest> {
        seq![
            self.0.asks(),
            self.1.asks(),
            self.2.asks(),
            self.3.asks(),
            self.4.asks(),
            self.5.asks(),
            self.6.asks(),
            self.7.asks(),
            self.8.asks(),
            self.9.asks(),
            self.10.asks(),
            self.11.asks(),
            self.12.asks(),
            self.13.asks(),
            self.14.asks(),
            self.15.asks(),
        ]
    }

    fn lockers(&self) -> (r: Vec<LockRequest>) {
        let mut lockers: Vec<LockRequest> = Vec::new();
        lockers.push(self.0.request());
        lockers.push(self.1.request());
        lockers.push(self.2.request());
        lockers.push(self.3.request());
        lockers.push(self.4.request());
        lockers.push(self.5.request());
        lockers.push(self.6.request());
        lockers.push(self.7.request());
        lockers.push(self.8.request());
        lockers.push(self.9.request());
        lockers.push(self.10.request());
        lockers.push(self.11.request());
        lockers.push(self.12.request());
        lockers.push(self.13.request());
        lockers.push(self.14.request());
        lockers.push(self.15.request());
        assert(lockers@ =~= self.requests());
        lockers
    }
}

} // verus!
