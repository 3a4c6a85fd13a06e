use vstd::prelude::*;

verus! {

/// A unique identifier with an associated index. Indices are reused after
/// they were freed and do not grow without bound; when an index is reused
/// its generation is higher than before, so that no two identifiers that
/// one allocator hands out are ever equal.
#[derive(PartialEq, Eq, PartialOrd, Ord, Hash, Clone, Copy, Debug, Structural)]
pub struct GenerationalIndex {
    index: usize,
    generation: u64,
}

/// What an allocator knows of one index: whether an identifier with this
/// index is live, and the generation of that identifier or of the next one.
pub struct Slot {
    pub live: bool,
    pub generation: u64,
}

/// The state of an allocator: one slot for each index that was ever handed
/// out, and the indices that are free for reuse, the next one to reuse
/// last.
pub struct AllocatorState {
    pub slots: Seq<Slot>,
    pub free: Seq<usize>,
}

/// Allocates [`GenerationalIndex`] values without duplication.
pub struct GenerationalIndexAllocator {
    entries: Vec<AllocatorEntry>,
    free: Vec<usize>,
}

struct AllocatorEntry {
    is_live: bool,
    generation: u64,
}

/// An associative array from [`GenerationalIndex`] keys to values, which
/// keeps the value of a key in the slot of the key's index. Its storage is
/// proportional to the largest index it has seen.
pub struct GenerationalIndexArray<T>(Vec<Option<ArrayEntry<T>>>);

struct ArrayEntry<T> {
    value: T,
    generation: u64,
}

/// Walks over the entries of a [`GenerationalIndexArray`] in the order of
/// their indices.
pub struct GenerationalIndexArrayIter<'a, T: 'a> {
    entries: &'a [Option<ArrayEntry<T>>],
    next_index: usize,
}

/// Walks over the entries of a [`GenerationalIndexArray`] in the order of
/// their indices and hands the values out for writing.
pub struct GenerationalIndexArrayIterMut<'a, T: 'a> {
    items: Vec<(GenerationalIndex, &'a mut T)>,
}

/// Walks over the entries of a [`GenerationalIndexArray`] in the order of
/// their indices and hands the values out for good.
pub struct GenerationalIndexArrayIntoIter<T> {
    entries: Vec<Option<ArrayEntry<T>>>,
    next_index: usize,
}

impl GenerationalIndex {
    /// The index and the generation that make up the identifier.
    pub closed spec fn id(self) -> (usize, u64) {
        (self.index, self.generation)
    }

    /// Two identifiers with the same index and generation are the same.
    pub proof fn lemma_same_id(self, other: GenerationalIndex)
        ensures
            self.id() == other.id() <==> self == other,
    {
    }

    #[inline]
    pub fn index(&self) -> (r: usize)
        ensures
            r == self.id().0,
    {
        self.index
    }

    #[inline]
    pub fn generation(&self) -> (r: u64)
        ensures
            r == self.id().1,
    {
        self.generation
    }
}

impl AllocatorState {
    /// A slot is on the free list exactly if it is not live, and it is
    /// there once.
    pub open spec fn wf(self) -> bool {
        &&& forall|j: int|
            0 <= j < self.free.len() ==> (#[trigger] self.free[j]) < self.slots.len()
                && !self.slots[self.free[j] as int].live
        &&& forall|i: int, j: int|
            0 <= i < j < self.free.len() ==> self.free[i] != self.free[j]
        &&& forall|i: int|
            0 <= i < self.slots.len() && !(#[trigger] self.slots[i]).live ==> exists|j: int|
                0 <= j < self.free.len() && #[trigger] self.free[j] == i
    }

    /// Whether the identifier is live.
    pub open spec fn is_live(self, id: (usize, u64)) -> bool {
        &&& id.0 < self.slots.len()
        &&& self.slots[id.0 as int].live
        &&& self.slots[id.0 as int].generation == id.1
    }

    /// Whether the identifier was handed out at some time before, be it
    /// live or not.
    pub open spec fn was_issued(self, id: (usize, u64)) -> bool {
        &&& id.0 < self.slots.len()
        &&& (id.1 < self.slots[id.0 as int].generation || (id.1 == self.slots[id.0 as int].generation
            && self.slots[id.0 as int].live))
    }

    /// The state after an allocation, and the identifier that it hands
    /// out: one with the index that was freed last, at that slot's
    /// generation, or, where no index is free, one with a new index and
    /// the generation 0.
    pub open spec fn allocate(self) -> (AllocatorState, (usize, u64)) {
        if self.free.len() > 0 {
            let index = self.free.last();
            let generation = self.slots[index as int].generation;
            (
                AllocatorState {
                    slots: self.slots.update(index as int, Slot { live: true, generation }),
                    free: self.free.drop_last(),
                },
                (index, generation),
            )
        } else {
            (
                AllocatorState {
                    slots: self.slots.push(Slot { live: true, generation: 0 }),
                    free: self.free,
                },
                (self.slots.len() as usize, 0u64),
            )
        }
    }

    /// The state after the identifier was given back, and whether it was
    /// live: a live identifier's slot is dead afterwards, its generation
    /// one higher, and its index free; any other identifier changes
    /// nothing.
    pub open spec fn deallocate(self, id: (usize, u64)) -> (AllocatorState, bool) {
        if self.is_live(id) {
            (
                AllocatorState {
                    slots: self.slots.update(
                        id.0 as int,
                        Slot { live: false, generation: (id.1 + 1) as u64 },
                    ),
                    free: self.free.push(id.0),
                },
                true,
            )
        } else {
            (self, false)
        }
    }
}

impl View for GenerationalIndexAllocator {
    type V = AllocatorState;

    closed spec fn view(&self) -> AllocatorState {
        AllocatorState {
            slots: Seq::new(
                self.entries@.len(),
                |i: int| Slot { live: self.entries@[i].is_live, generation: self.entries@[i].generation },
            ),
            free: self.free@,
        }
    }
}

impl Default for GenerationalIndexAllocator {
    fn default() -> (r: GenerationalIndexAllocator)
        ensures
            r@.slots.len() == 0,
            r@.free.len() == 0,
            r@.wf(),
    {
        GenerationalIndexAllocator { entries: Vec::new(), free: Vec::new() }
    }
}

impl Clone for GenerationalIndexAllocator {
    fn clone(&self) -> (r: GenerationalIndexAllocator)
        ensures
            r@ == self@,
    {
        let mut entries: Vec<AllocatorEntry> = Vec::new();
        let mut i: usize = 0;
        while i < self.entries.len()
            invariant
                i <= self.entries@.len(),
                entries@.len() == i,
                forall|j: int| 0 <= j < i ==> entries@[j] == self.entries@[j],
            decreases self.entries@.len() - i,
        {
            let entry = &self.entries[i];
            entries.push(AllocatorEntry { is_live: entry.is_live, generation: entry.generation });
            i = i + 1;
        }
        let mut free: Vec<usize> = Vec::new();
        let mut j: usize = 0;
        while j < self.free.len()
            invariant
                j <= self.free@.len(),
                free@.len() == j,
                forall|k: int| 0 <= k < j ==> free@[k] == self.free@[k],
            decreases self.free@.len() - j,
        {
            free.push(self.free[j]);
            j = j + 1;
        }
        let r = GenerationalIndexAllocator { entries, free };
        assert(r@.slots =~= self@.slots);
        assert(r@.free =~= self@.free);
        r
    }
}

impl GenerationalIndexAllocator {
    /// An allocator that has handed out nothing yet.
    pub fn new() -> (r: GenerationalIndexAllocator)
        ensures
            r@.slots.len() == 0,
            r@.free.len() == 0,
            r@.wf(),
    {
        GenerationalIndexAllocator { entries: Vec::new(), free: Vec::new() }
    }

    /// Hands out an identifier that is live from now on and that this
    /// allocator never handed out before.
    pub fn allocate(&mut self) -> (r: GenerationalIndex)
        requires
            old(self)@.wf(),
        ensures
            final(self)@.wf(),
            (final(self)@, r.id()) == old(self)@.allocate(),
            !old(self)@.was_issued(r.id()),
            final(self)@.is_live(r.id()),
    {
        match self.free.pop() {
            Some(index) => {
                assert(old(self)@.free[old(self)@.free.len() - 1] == index);
                let id_entry = &mut self.entries[index];
                id_entry.is_live = true;
                let generation = id_entry.generation;
                proof {
                    assert(self@.slots =~= old(self)@.allocate().0.slots);
                    assert(self@.free =~= old(self)@.allocate().0.free);
                    lemma_allocate(old(self)@);
                }
                GenerationalIndex { index, generation }
            },
            None => {
                self.entries.push(AllocatorEntry { is_live: true, generation: 0 });
                let index = self.entries.len() - 1;
                proof {
                    assert(self@.slots =~= old(self)@.allocate().0.slots);
                    lemma_allocate(old(self)@);
                }
                GenerationalIndex { index, generation: 0 }
            },
        }
    }

    /// Gives an identifier back. Returns whether it was live; if it was, its
    /// index is free for reuse afterwards, at a higher generation.
    pub fn deallocate(&mut self, gen_index: GenerationalIndex) -> (r: bool)
        requires
            old(self)@.wf(),
            old(self)@.is_live(gen_index.id()) ==> gen_index.id().1 < u64::MAX,
        ensures
            final(self)@.wf(),
            (final(self)@, r) == old(self)@.deallocate(gen_index.id()),
            !final(self)@.is_live(gen_index.id()),
    {
        if gen_index.index >= self.entries.len() {
            return false;
        }
        if !self.entries[gen_index.index].is_live || self.entries[gen_index.index].generation
            != gen_index.generation {
            return false;
        }
        let id_entry = &mut self.entries[gen_index.index];
        id_entry.is_live = false;
        id_entry.generation = id_entry.generation + 1;
        self.free.push(gen_index.index);
        proof {
            assert(self@.slots =~= old(self)@.deallocate(gen_index.id()).0.slots);
            lemma_deallocate(old(self)@, gen_index.id());
        }
        true
    }

    /// Whether the identifier is live.
    #[inline]
    pub fn is_live(&self, gen_index: GenerationalIndex) -> (r: bool)
        ensures
            r == self@.is_live(gen_index.id()),
    {
        if gen_index.index < self.entries.len() {
            let id_entry = &self.entries[gen_index.index];
            id_entry.is_live && id_entry.generation == gen_index.generation
        } else {
            false
        }
    }

    /// The number of indices handed out so far; every index in use is
    /// below it.
    #[inline]
    pub fn max_allocated_index(&self) -> (r: usize)
        ensures
            r == self@.slots.len(),
    {
        self.entries.len()
    }

    /// The live identifier with the given index, if there is one.
    #[inline]
    pub fn live_at_index(&self, index: usize) -> (r: Option<GenerationalIndex>)
        ensures
            match r {
                Some(gen_index) => gen_index.id().0 == index && self@.is_live(gen_index.id()),
                None => index >= self@.slots.len() || !self@.slots[index as int].live,
            },
    {
        if index < self.entries.len() {
            let entry = &self.entries[index];
            if entry.is_live {
                Some(GenerationalIndex { index, generation: entry.generation })
            } else {
                None
            }
        } else {
            None
        }
    }
}

/// The generation and the value in the slot with the given index, if the
/// slot exists and is in use.
pub open spec fn slot_at<T>(slots: Seq<Option<(u64, T)>>, index: usize) -> Option<(u64, T)> {
    if index < slots.len() {
        slots[index as int]
    } else {
        None
    }
}

/// The value that the slots hold for the given key: the one in the slot of
/// the key's index, if it was put there under the key's generation.
pub open spec fn value_at<T>(slots: Seq<Option<(u64, T)>>, id: (usize, u64)) -> Option<T> {
    match slot_at(slots, id.0) {
        Some((generation, value)) => if generation == id.1 {
            Some(value)
        } else {
            None
        },
        None => None,
    }
}

/// The first index at or after `from` whose slot is in use, or the number
/// of slots if there is none.
pub open spec fn next_used<T>(slots: Seq<Option<(u64, T)>>, from: int) -> int
    decreases slots.len() - from,
{
    if from < 0 || from >= slots.len() {
        slots.len() as int
    } else if slots[from] is Some {
        from
    } else {
        next_used(slots, from + 1)
    }
}

/// Between `from` and [`next_used`] no slot is in use; the slot at
/// [`next_used`] is, unless that is the end.
pub proof fn lemma_next_used<T>(slots: Seq<Option<(u64, T)>>, from: int)
    requires
        0 <= from <= slots.len(),
    ensures
        from <= next_used(slots, from) <= slots.len(),
        forall|i: int| from <= i < next_used(slots, from) ==> slots[i] is None,
        next_used(slots, from) < slots.len() ==> slots[next_used(slots, from)] is Some,
    decreases slots.len() - from,
{
    if from < slots.len() && slots[from] is None {
        lemma_next_used(slots, from + 1);
    }
}

impl<T> ArrayEntry<T> {
    spec fn slot(entry: Option<ArrayEntry<T>>) -> Option<(u64, T)> {
        match entry {
            Some(e) => Some((e.generation, e.value)),
            None => None,
        }
    }

    spec fn slots(entries: Seq<Option<ArrayEntry<T>>>) -> Seq<Option<(u64, T)>> {
        Seq::new(entries.len(), |i: int| Self::slot(entries[i]))
    }

    proof fn lemma_slots_update(entries: Seq<Option<ArrayEntry<T>>>, i: int, entry: Option<ArrayEntry<T>>)
        requires
            0 <= i < entries.len(),
        ensures
            Self::slots(entries.update(i, entry)) == Self::slots(entries).update(
                i,
                Self::slot(entry),
            ),
    {
        assert(Self::slots(entries.update(i, entry)) =~= Self::slots(entries).update(
            i,
            Self::slot(entry),
        ));
    }
}

impl<T> GenerationalIndexArray<T> {
    /// The slots of the array by index: for each slot in use, the
    /// generation of the key and the value.
    pub closed spec fn slots(&self) -> Seq<Option<(u64, T)>> {
        ArrayEntry::slots(self.0@)
    }

    /// An array without entries.
    pub fn new() -> (r: GenerationalIndexArray<T>)
        ensures
            r.slots() == Seq::<Option<(u64, T)>>::empty(),
    {
        let r = GenerationalIndexArray(Vec::new());
        assert(r.slots() =~= Seq::<Option<(u64, T)>>::empty());
        r
    }

    /// Takes all entries out.
    pub fn clear(&mut self)
        ensures
            final(self).slots() == Seq::<Option<(u64, T)>>::empty(),
    {
        self.0.clear();
        assert(self.slots() =~= Seq::<Option<(u64, T)>>::empty());
    }

    /// Puts `value` into the slot of the key's index, under the key's
    /// generation, and returns what the slot held before, with the key it
    /// was put there under, which may be one of an earlier generation.
    pub fn insert(&mut self, gen_index: GenerationalIndex, value: T) -> (r: Option<
        (GenerationalIndex, T),
    >)
        requires
            gen_index.id().0 < usize::MAX,
        ensures
            final(self).slots().len() == (if gen_index.id().0 < old(self).slots().len() {
                old(self).slots().len() as int
            } else {
                gen_index.id().0 + 1
            }),
            forall|i: int|
                0 <= i < final(self).slots().len() ==> #[trigger] final(self).slots()[i] == (if i
                    == gen_index.id().0 {
                    Some((gen_index.id().1, value))
                } else if i < old(self).slots().len() {
                    old(self).slots()[i]
                } else {
                    None
                }),
            match r {
                Some((key, old_value)) => slot_at(old(self).slots(), gen_index.id().0) == Some(
                    (key.id().1, old_value),
                ) && key.id().0 == gen_index.id().0,
                None => slot_at(old(self).slots(), gen_index.id().0) is None,
            },
    {
        if gen_index.index >= self.0.len() {
            while self.0.len() < gen_index.index + 1
                invariant
                    gen_index.index < usize::MAX,
                    self.0@.len() >= old(self).0@.len(),
                    self.0@.len() <= gen_index.index + 1,
                    forall|i: int| 0 <= i < old(self).0@.len() ==> self.0@[i] == old(self).0@[i],
                    forall|i: int| old(self).0@.len() <= i < self.0@.len() ==> self.0@[i] is None,
                decreases gen_index.index + 1 - self.0@.len(),
            {
                self.0.push(None);
            }
        }
        let entry = &mut self.0[gen_index.index];
        let old_entry = match entry.take() {
            Some(e) => Some((GenerationalIndex { index: gen_index.index, generation: e.generation }, e.value)),
            None => None,
        };
        *entry = Some(ArrayEntry { value, generation: gen_index.generation });
        old_entry
    }

    /// Takes out and returns the value in the slot of the key's index,
    /// whatever generation it was put there under.
    pub fn remove(&mut self, gen_index: GenerationalIndex) -> (r: Option<T>)
        ensures
            r == (match slot_at(old(self).slots(), gen_index.id().0) {
                Some((_, value)) => Some(value),
                None => None,
            }),
            final(self).slots() == (if gen_index.id().0 < old(self).slots().len() {
                old(self).slots().update(gen_index.id().0 as int, None)
            } else {
                old(self).slots()
            }),
    {
        if gen_index.index < self.0.len() {
            let entry = &mut self.0[gen_index.index];
            let r = match entry.take() {
                Some(e) => Some(e.value),
                None => None,
            };
            assert(self.slots() =~= old(self).slots().update(gen_index.id().0 as int, None));
            r
        } else {
            None
        }
    }

    /// Whether the array holds a value for the key.
    pub fn contains_key(&self, gen_index: GenerationalIndex) -> (r: bool)
        ensures
            r == value_at(self.slots(), gen_index.id()) is Some,
    {
        self.get(gen_index).is_some()
    }

    /// The value that the array holds for the key.
    pub fn get(&self, gen_index: GenerationalIndex) -> (r: Option<&T>)
        ensures
            match r {
                Some(value) => value_at(self.slots(), gen_index.id()) == Some(*value),
                None => value_at(self.slots(), gen_index.id()) is None,
            },
    {
        if gen_index.index < self.0.len() {
            match &self.0[gen_index.index] {
                Some(e) => {
                    if e.generation == gen_index.generation {
                        Some(&e.value)
                    } else {
                        None
                    }
                },
                None => None,
            }
        } else {
            None
        }
    }

    /// The value that the array holds for the key, for writing. Whatever is
    /// written becomes the value of the key; nothing else changes.
    pub fn get_mut(&mut self, gen_index: GenerationalIndex) -> (r: Option<&mut T>)
        ensures
            match r {
                Some(value) => {
                    &&& value_at(old(self).slots(), gen_index.id()) == Some(*value)
                    &&& final(self).slots() == old(self).slots().update(
                        gen_index.id().0 as int,
                        Some((gen_index.id().1, *final(value))),
                    )
                },
                None => {
                    &&& value_at(old(self).slots(), gen_index.id()) is None
                    &&& final(self).slots() == old(self).slots()
                },
            },
    {
        let found = gen_index.index < self.0.len() && match &self.0[gen_index.index] {
            Some(e) => e.generation == gen_index.generation,
            None => false,
        };
        if found {
            match &mut self.0[gen_index.index] {
                Some(e) => {
                    let value = &mut e.value;
                    proof {
                        ArrayEntry::lemma_slots_update(
                            old(self).0@,
                            gen_index.index as int,
                            Some(ArrayEntry { value: *final(value), generation: gen_index.generation }),
                        );
                    }
                    Some(value)
                },
                None => None,
            }
        } else {
            None
        }
    }

    /// Calls `f` on every entry, in the order of the indices, and takes
    /// out the entries for which it returns `false`. Whatever `f` writes to
    /// the value of an entry that stays is kept.
    pub fn retain<F: FnMut(GenerationalIndex, &mut T) -> bool>(&mut self, f: F)
        requires
            forall|key: GenerationalIndex, value: &mut T| call_requires(f, (key, value)),
        ensures
            final(self).slots().len() == old(self).slots().len(),
            forall|i: int|
                0 <= i < old(self).slots().len() ==> match #[trigger] old(self).slots()[i] {
                    None => final(self).slots()[i] is None,
                    Some((generation, value)) => exists|
                        key: GenerationalIndex,
                        lent: &mut T,
                        keep: bool,
                    |
                        {
                            &&& key.id() == (i as usize, generation)
                            &&& *lent == value
                            &&& #[trigger] call_ensures(f, (key, lent), keep)
                            &&& final(self).slots()[i] == (if keep {
                                Some((generation, *final(lent)))
                            } else {
                                None
                            })
                        },
                },
    {
        let same = |gen_index: GenerationalIndex| -> (key: GenerationalIndex)
            ensures
                key == gen_index,
            { gen_index };
        self.retain_keyed(same, f);
    }

    /// Does what [`Self::retain`] does, with `f` called on what `wrap`
    /// makes of each key.
    pub(crate) fn retain_keyed<K, W: Fn(GenerationalIndex) -> K, F: FnMut(K, &mut T) -> bool>(
        &mut self,
        wrap: W,
        f: F,
    )
        requires
            forall|gen_index: GenerationalIndex| call_requires(wrap, (gen_index,)),
            forall|key: K, value: &mut T| call_requires(f, (key, value)),
        ensures
            final(self).slots().len() == old(self).slots().len(),
            forall|i: int|
                0 <= i < old(self).slots().len() ==> match #[trigger] old(self).slots()[i] {
                    None => final(self).slots()[i] is None,
                    Some((generation, value)) => exists|
                        gen_index: GenerationalIndex,
                        key: K,
                        lent: &mut T,
                        keep: bool,
                    |
                        {
                            &&& gen_index.id() == (i as usize, generation)
                            &&& #[trigger] call_ensures(wrap, (gen_index,), key)
                            &&& *lent == value
                            &&& #[trigger] call_ensures(f, (key, lent), keep)
                            &&& final(self).slots()[i] == (if keep {
                                Some((generation, *final(lent)))
                            } else {
                                None
                            })
                        },
                },
    {
        let mut func = f;
        let mut i: usize = 0;
        while i < self.0.len()
            invariant
                func == f,
                forall|gen_index: GenerationalIndex| call_requires(wrap, (gen_index,)),
                forall|key: K, value: &mut T| call_requires(f, (key, value)),
                i <= self.0@.len(),
                self.0@.len() == old(self).0@.len(),
                forall|j: int| i <= j < self.0@.len() ==> self.0@[j] == old(self).0@[j],
                forall|j: int|
                    0 <= j < i ==> match #[trigger] old(self).slots()[j] {
                        None => self.slots()[j] is None,
                        Some((generation, value)) => exists|
                            gen_index: GenerationalIndex,
                            key: K,
                            lent: &mut T,
                            keep: bool,
                        |
                            {
                                &&& gen_index.id() == (j as usize, generation)
                                &&& #[trigger] call_ensures(wrap, (gen_index,), key)
                                &&& *lent == value
                                &&& #[trigger] call_ensures(f, (key, lent), keep)
                                &&& self.slots()[j] == (if keep {
                                    Some((generation, *final(lent)))
                                } else {
                                    None
                                })
                            },
                    },
            decreases self.0@.len() - i,
        {
            let ghost before = self.slots();
            match self.0[i].take() {
                Some(e) => {
                    let mut e = e;
                    let key = wrap(GenerationalIndex { index: i, generation: e.generation });
                    let keep = call_with(&mut func, key, &mut e.value);
                    if keep {
                        self.0[i] = Some(e);
                    }
                },
                None => {},
            }
            proof {
                assert forall|j: int| 0 <= j < i implies self.slots()[j] == before[j] by {}
            }
            i = i + 1;
        }
    }

    /// Calls `f` on every entry, in the order of the indices, and puts what
    /// it returns in the place of the entry's value; where it returns
    /// nothing the entry is taken out.
    pub fn filter_map<F: FnMut(GenerationalIndex, T) -> Option<T>>(&mut self, f: F)
        requires
            forall|key: GenerationalIndex, value: T| call_requires(f, (key, value)),
        ensures
            final(self).slots().len() == old(self).slots().len(),
            forall|i: int|
                0 <= i < old(self).slots().len() ==> match #[trigger] old(self).slots()[i] {
                    None => final(self).slots()[i] is None,
                    Some((generation, value)) => exists|key: GenerationalIndex, out: Option<T>|
                        {
                            &&& key.id() == (i as usize, generation)
                            &&& #[trigger] call_ensures(f, (key, value), out)
                            &&& final(self).slots()[i] == (match out {
                                Some(mapped) => Some((generation, mapped)),
                                None => None,
                            })
                        },
                },
    {
        let same = |gen_index: GenerationalIndex| -> (key: GenerationalIndex)
            ensures
                key == gen_index,
            { gen_index };
        self.filter_map_keyed(same, f);
    }

    /// Does what [`Self::filter_map`] does, with `f` called on what `wrap`
    /// makes of each key.
    pub(crate) fn filter_map_keyed<K, W: Fn(GenerationalIndex) -> K, F: FnMut(K, T) -> Option<T>>(
        &mut self,
        wrap: W,
        f: F,
    )
        requires
            forall|gen_index: GenerationalIndex| call_requires(wrap, (gen_index,)),
            forall|key: K, value: T| call_requires(f, (key, value)),
        ensures
            final(self).slots().len() == old(self).slots().len(),
            forall|i: int|
                0 <= i < old(self).slots().len() ==> match #[trigger] old(self).slots()[i] {
                    None => final(self).slots()[i] is None,
                    Some((generation, value)) => exists|
                        gen_index: GenerationalIndex,
                        key: K,
                        out: Option<T>,
                    |
                        {
                            &&& gen_index.id() == (i as usize, generation)
                            &&& #[trigger] call_ensures(wrap, (gen_index,), key)
                            &&& #[trigger] call_ensures(f, (key, value), out)
                            &&& final(self).slots()[i] == (match out {
                                Some(mapped) => Some((generation, mapped)),
                                None => None,
                            })
                        },
                },
    {
        let mut func = f;
        let mut i: usize = 0;
        while i < self.0.len()
            invariant
                func == f,
                forall|gen_index: GenerationalIndex| call_requires(wrap, (gen_index,)),
                forall|key: K, value: T| call_requires(f, (key, value)),
                i <= self.0@.len(),
                self.0@.len() == old(self).0@.len(),
                forall|j: int| i <= j < self.0@.len() ==> self.0@[j] == old(self).0@[j],
                forall|j: int|
                    0 <= j < i ==> match #[trigger] old(self).slots()[j] {
                        None => self.slots()[j] is None,
                        Some((generation, value)) => exists|
                            gen_index: GenerationalIndex,
                            key: K,
                            out: Option<T>,
                        |
                            {
                                &&& gen_index.id() == (j as usize, generation)
                                &&& #[trigger] call_ensures(wrap, (gen_index,), key)
                                &&& #[trigger] call_ensures(f, (key, value), out)
                                &&& self.slots()[j] == (match out {
                                    Some(mapped) => Some((generation, mapped)),
                                    None => None,
                                })
                            },
                    },
            decreases self.0@.len() - i,
        {
            let ghost before = self.slots();
            match self.0[i].take() {
                Some(e) => {
                    let gen_index = GenerationalIndex { index: i, generation: e.generation };
                    let key = wrap(gen_index);
                    let ghost given = key;
                    let ghost value = e.value;
                    let out = func(key, e.value);
                    match out {
                        Some(value) => {
                            self.0[i] = Some(ArrayEntry { value, generation: gen_index.generation });
                        },
                        None => {},
                    }
                    proof {
                        assert(old(self).slots()[i as int] == Some((gen_index.id().1, value)));
                        let taken = old(self).slots()[i as int]->Some_0.1;
                        assert(call_ensures(wrap, (gen_index,), given));
                        assert(call_ensures(f, (given, taken), out));
                    }
                },
                None => {},
            }
            proof {
                assert forall|j: int| 0 <= j < i implies self.slots()[j] == before[j] by {}
            }
            i = i + 1;
        }
    }

    /// An array that holds the given values under the given keys; where two
    /// keys have the same index, the later one stays.
    pub fn from_iter(iter: Vec<(GenerationalIndex, T)>) -> (r: GenerationalIndexArray<T>)
        requires
            forall|i: int| 0 <= i < iter@.len() ==> (#[trigger] iter@[i]).0.id().0 < usize::MAX,
        ensures
            forall|k: int|
                0 <= k < r.slots().len() ==> (#[trigger] r.slots()[k] is Some <==> exists|i: int|
                    0 <= i < iter@.len() && (#[trigger] iter@[i]).0.id().0 == k),
            forall|i: int|
                0 <= i < iter@.len() ==> (#[trigger] iter@[i]).0.id().0 < r.slots().len(),
            forall|i: int|
                #![trigger iter@[i]]
                0 <= i < iter@.len() && (forall|j: int|
                    i < j < iter@.len() ==> (#[trigger] iter@[j]).0.id().0 != iter@[i].0.id().0)
                    ==> r.slots()[iter@[i].0.id().0 as int] == Some(
                    (iter@[i].0.id().1, iter@[i].1),
                ),
    {
        let mut map = GenerationalIndexArray::new();
        let mut pairs = iter;
        let ghost all = pairs@;
        let mut rest: Vec<(GenerationalIndex, T)> = Vec::new();
        while pairs.len() > 0
            invariant
                pairs@.len() + rest@.len() == all.len(),
                forall|i: int| 0 <= i < pairs@.len() ==> pairs@[i] == all[i],
                forall|i: int|
                    0 <= i < rest@.len() ==> #[trigger] rest@[i] == all[all.len() - 1 - i],
            decreases pairs@.len(),
        {
            match pairs.pop() {
                Some(pair) => {
                    rest.push(pair);
                },
                None => {},
            }
        }
        let ghost mut done: int = 0;
        while rest.len() > 0
            invariant
                done + rest@.len() == all.len(),
                0 <= done,
                forall|i: int|
                    0 <= i < rest@.len() ==> #[trigger] rest@[i] == all[all.len() - 1 - i],
                forall|i: int| 0 <= i < all.len() ==> (#[trigger] all[i]).0.id().0 < usize::MAX,
                forall|k: int|
                    0 <= k < map.slots().len() ==> (#[trigger] map.slots()[k] is Some <==> exists|
                        i: int,
                    |
                        0 <= i < done && (#[trigger] all[i]).0.id().0 == k),
                forall|i: int| 0 <= i < done ==> (#[trigger] all[i]).0.id().0 < map.slots().len(),
                forall|i: int|
                    #![trigger all[i]]
                    0 <= i < done && (forall|j: int|
                        i < j < done ==> (#[trigger] all[j]).0.id().0 != all[i].0.id().0)
                        ==> map.slots()[all[i].0.id().0 as int] == Some(
                        (all[i].0.id().1, all[i].1),
                    ),
            decreases rest@.len(),
        {
            match rest.pop() {
                Some((gen_index, value)) => {
                    let ghost before = map.slots();
                    assert(all[done] == (gen_index, value));
                    map.insert(gen_index, value);
                    proof {
                        assert forall|k: int| 0 <= k < map.slots().len() implies (
                        #[trigger] map.slots()[k] is Some <==> exists|i: int|
                            0 <= i < done + 1 && (#[trigger] all[i]).0.id().0 == k) by {
                            if k == gen_index.id().0 {
                                assert(all[done].0.id().0 == k);
                            } else if k < before.len() {
                                if before[k] is Some {
                                    let i = choose|i: int|
                                        0 <= i < done && (#[trigger] all[i]).0.id().0 == k;
                                    assert(all[i].0.id().0 == k);
                                }
                            }
                        }
                        assert forall|i: int|
                            #![trigger all[i]]
                            0 <= i < done + 1 && (forall|j: int|
                                i < j < done + 1 ==> (#[trigger] all[j]).0.id().0
                                    != all[i].0.id().0) implies map.slots()[all[i].0.id().0 as int]
                            == Some((all[i].0.id().1, all[i].1)) by {
                            if i < done {
                                assert(all[done].0.id().0 != all[i].0.id().0);
                                assert forall|j: int| i < j < done implies (#[trigger] all[j]).0.id().0
                                    != all[i].0.id().0 by {}
                            }
                        }
                        done = done + 1;
                    }
                },
                None => {},
            }
        }
        map
    }

    /// Walks over the entries in the order of their indices.
    pub fn iter<'a>(&'a self) -> (r: GenerationalIndexArrayIter<'a, T>)
        ensures
            r.slots() == self.slots(),
            r.position() == 0,
    {
        GenerationalIndexArrayIter { entries: self.0.as_slice(), next_index: 0 }
    }

    /// Walks over the entries in the order of their indices and hands the
    /// values out for good.
    pub fn into_iter(self) -> (r: GenerationalIndexArrayIntoIter<T>)
        ensures
            r.slots() == self.slots(),
            r.position() == 0,
    {
        GenerationalIndexArrayIntoIter { entries: self.0, next_index: 0 }
    }

    /// Walks over the entries in the order of their indices and hands the
    /// values out for writing. Whatever is written becomes the value of the
    /// entry; nothing else changes.
    pub fn iter_mut<'a>(&'a mut self) -> (r: GenerationalIndexArrayIterMut<'a, T>)
        ensures
            final(self).slots().len() == old(self).slots().len(),
            r.keys_descending(),
            forall|j: int|
                0 <= j < r.items().len() ==> {
                    let (key, value) = #[trigger] r.items()[j];
                    &&& slot_at(old(self).slots(), key.id().0) == Some((key.id().1, *value))
                    &&& final(self).slots()[key.id().0 as int] == Some((key.id().1, *final(value)))
                },
            forall|i: int|
                0 <= i < old(self).slots().len() ==> match #[trigger] old(self).slots()[i] {
                    None => final(self).slots()[i] is None,
                    Some(_) => exists|j: int|
                        0 <= j < r.items().len() && (#[trigger] r.items()[j]).0.id().0 == i,
                },
    {
        let mut items: Vec<(GenerationalIndex, &'a mut T)> = Vec::new();
        let mut rest: &'a mut [Option<ArrayEntry<T>>] = self.0.as_mut_slice();
        let ghost whole = rest;
        let ghost total = rest@.len() as int;
        while rest.len() > 0
            invariant
                total == old(self).0@.len(),
                rest@.len() <= total,
                rest@ == old(self).0@.take(rest@.len() as int),
                final(whole)@.len() - final(rest)@.len() == total - rest@.len(),
                forall|i: int|
                    0 <= i < final(rest)@.len() ==> final(whole)@[i] == #[trigger] final(rest)@[i],
                forall|j: int, k: int|
                    0 <= j < k < items@.len() ==> (#[trigger] items@[j]).0.id().0 > (
                    #[trigger] items@[k]).0.id().0,
                forall|j: int|
                    0 <= j < items@.len() ==> {
                        let (key, value) = #[trigger] items@[j];
                        &&& rest@.len() <= key.id().0 < total
                        &&& old(self).0@[key.id().0 as int] == Some(
                            ArrayEntry { value: *value, generation: key.id().1 },
                        )
                        &&& final(whole)@[final(whole)@.len() - total + key.id().0] == Some(
                            ArrayEntry { value: *final(value), generation: key.id().1 },
                        )
                    },
                forall|i: int|
                    rest@.len() <= i < total ==> match #[trigger] old(self).0@[i] {
                        None => final(whole)@[final(whole)@.len() - total + i] is None,
                        Some(_) => exists|j: int|
                            0 <= j < items@.len() && (#[trigger] items@[j]).0.id().0 == i,
                    },
            decreases rest@.len(),
        {
            let n = rest.len();
            let ghost prev = rest;
            let ghost prev_items = items@;
            let (head, tail) = rest.split_at_mut(n - 1);
            let ghost last = tail;
            rest = head;
            match tail.first_mut() {
                Some(slot) => {
                    let ghost lent_slot = slot;
                    match slot.as_mut() {
                        Some(e) => {
                            let ghost lent_entry = e;
                            let key = GenerationalIndex { index: n - 1, generation: e.generation };
                            items.push((key, &mut e.value));
                            proof {
                                let lent = items@[prev_items.len() as int].1;
                                assert(*final(lent_entry) == ArrayEntry {
                                    value: *final(lent),
                                    generation: key.id().1,
                                });
                                assert(final(last)@.len() == 1);
                                assert(final(prev)@ =~= final(rest)@ + final(last)@);
                                assert(final(prev)@[final(rest)@.len() as int] == *final(lent_slot));
                                assert(final(whole)@[final(whole)@.len() - total + (n - 1)]
                                    == final(prev)@[final(rest)@.len() as int]);
                                assert forall|j: int| 0 <= j < items@.len() implies {
                                    let (key, value) = #[trigger] items@[j];
                                    &&& rest@.len() <= key.id().0 < total
                                    &&& old(self).0@[key.id().0 as int] == Some(
                                        ArrayEntry { value: *value, generation: key.id().1 },
                                    )
                                    &&& final(whole)@[final(whole)@.len() - total + key.id().0]
                                        == Some(
                                        ArrayEntry { value: *final(value), generation: key.id().1 },
                                    )
                                } by {
                                    if j < prev_items.len() {
                                        assert(items@[j] == prev_items[j]);
                                    }
                                }
                                assert forall|i: int| rest@.len() <= i < total implies match #[trigger] old(self).0@[i] {
                                    None => final(whole)@[final(whole)@.len() - total + i] is None,
                                    Some(_) => exists|j: int|
                                        0 <= j < items@.len() && (#[trigger] items@[j]).0.id().0
                                            == i,
                                } by {
                                    if i == n - 1 {
                                        assert(items@[prev_items.len() as int].0.id().0 == i);
                                    } else if old(self).0@[i] is Some {
                                        let j = choose|j: int|
                                            0 <= j < prev_items.len() && (
                                            #[trigger] prev_items[j]).0.id().0 == i;
                                        assert(items@[j].0.id().0 == i);
                                    }
                                }
                                assert forall|j: int, k: int|
                                    0 <= j < k < items@.len() implies (#[trigger] items@[j]).0.id().0
                                    > (#[trigger] items@[k]).0.id().0 by {
                                    assert(items@[j] == prev_items[j]);
                                    if k < prev_items.len() {
                                        assert(items@[k] == prev_items[k]);
                                    }
                                }
                            }
                        },
                        None => {
                            proof {
                                assert(final(last)@.len() == 1);
                                assert(final(prev)@ =~= final(rest)@ + final(last)@);
                                assert(final(whole)@[final(whole)@.len() - total + (n - 1)]
                                    == final(prev)@[final(rest)@.len() as int]);
                            }
                        },
                    }
                },
                None => {},
            }
            proof {
                assert forall|i: int| 0 <= i < final(rest)@.len() implies final(whole)@[i]
                    == #[trigger] final(rest)@[i] by {
                    assert(final(whole)@[i] == final(prev)@[i]);
                }
            }
        }
        let r = GenerationalIndexArrayIterMut { items };
        proof {
            assert(final(whole)@.len() == total);
            assert forall|j: int| 0 <= j < r.items().len() implies {
                let (key, value) = #[trigger] r.items()[j];
                &&& slot_at(old(self).slots(), key.id().0) == Some((key.id().1, *value))
                &&& ArrayEntry::slots(final(whole)@)[key.id().0 as int] == Some(
                    (key.id().1, *final(value)),
                )
            } by {
                let (key, value) = r.items()[j];
                assert(final(whole)@[final(whole)@.len() - total + key.id().0] == Some(
                    ArrayEntry { value: *final(value), generation: key.id().1 },
                ));
            }
            assert forall|i: int| 0 <= i < old(self).slots().len() implies match #[trigger] old(self).slots()[i] {
                None => ArrayEntry::slots(final(whole)@)[i] is None,
                Some(_) => exists|j: int|
                    0 <= j < r.items().len() && (#[trigger] r.items()[j]).0.id().0 == i,
            } by {
                assert(old(self).0@[i] is Some <==> old(self).slots()[i] is Some);
                if old(self).0@[i] is None {
                    assert(final(whole)@[final(whole)@.len() - total + i] is None);
                }
            }
        }
        r
    }
}

impl<T> Default for GenerationalIndexArray<T> {
    fn default() -> (r: GenerationalIndexArray<T>)
        ensures
            r.slots() == Seq::<Option<(u64, T)>>::empty(),
    {
        GenerationalIndexArray::new()
    }
}

impl<T: Clone> Clone for GenerationalIndexArray<T> {
    fn clone(&self) -> (r: Self)
        ensures
            r.slots().len() == self.slots().len(),
            forall|i: int|
                0 <= i < self.slots().len() ==> match #[trigger] self.slots()[i] {
                    Some((generation, value)) => r.slots()[i] is Some && r.slots()[i]->Some_0.0
                        == generation && cloned(value, r.slots()[i]->Some_0.1),
                    None => r.slots()[i] is None,
                },
    {
        let mut entries: Vec<Option<ArrayEntry<T>>> = Vec::new();
        let mut i: usize = 0;
        while i < self.0.len()
            invariant
                i <= self.0@.len(),
                entries@.len() == i,
                forall|j: int|
                    0 <= j < i ==> match #[trigger] self.0@[j] {
                        Some(e) => entries@[j] is Some && entries@[j]->Some_0.generation
                            == e.generation && cloned(e.value, entries@[j]->Some_0.value),
                        None => entries@[j] is None,
                    },
            decreases self.0@.len() - i,
        {
            let entry = match &self.0[i] {
                Some(e) => Some(ArrayEntry { value: e.value.clone(), generation: e.generation }),
                None => None,
            };
            entries.push(entry);
            i = i + 1;
        }
        let r = GenerationalIndexArray(entries);
        proof {
            assert forall|i: int| 0 <= i < self.slots().len() implies match #[trigger] self.slots()[i] {
                Some((generation, value)) => r.slots()[i] is Some && r.slots()[i]->Some_0.0
                    == generation && cloned(value, r.slots()[i]->Some_0.1),
                None => r.slots()[i] is None,
            } by {
                assert(self.0@[i] is Some <==> self.slots()[i] is Some);
            }
        }
        r
    }
}

impl<'a, T> GenerationalIndexArrayIter<'a, T> {
    /// The slots of the array that is walked over.
    pub closed spec fn slots(&self) -> Seq<Option<(u64, T)>> {
        ArrayEntry::slots(self.entries@)
    }

    /// The index from which the walk goes on.
    pub closed spec fn position(&self) -> int {
        self.next_index as int
    }

    /// The invariant of the walk: its place lies within the slots.
    pub open spec fn wf(&self) -> bool {
        0 <= self.position() <= self.slots().len()
    }

    /// The next entry: the one in the first slot in use from the place of
    /// the walk on.
    pub fn next(&mut self) -> (r: Option<(GenerationalIndex, &'a T)>)
        requires
            old(self).wf(),
        ensures
            final(self).wf(),
            final(self).slots() == old(self).slots(),
            ({
                let found = next_used(old(self).slots(), old(self).position());
                match r {
                    Some((key, value)) => {
                        &&& found < old(self).slots().len()
                        &&& key.id().0 == found
                        &&& old(self).slots()[found] == Some((key.id().1, *value))
                        &&& final(self).position() == found + 1
                    },
                    None => found == old(self).slots().len() && final(self).position() == found,
                }
            }),
    {
        proof {
            lemma_next_used(self.slots(), self.position());
        }
        while self.next_index < self.entries.len()
            invariant
                self.entries == old(self).entries,
                old(self).position() <= self.next_index <= self.entries@.len(),
                next_used(self.slots(), self.position()) == next_used(
                    old(self).slots(),
                    old(self).position(),
                ),
            decreases self.entries@.len() - self.next_index,
        {
            let index = self.next_index;
            self.next_index = index + 1;
            match &self.entries[index] {
                Some(entry) => {
                    return Some(
                        (GenerationalIndex { index, generation: entry.generation }, &entry.value),
                    );
                },
                None => {},
            }
        }
        None
    }
}

impl<T> GenerationalIndexArrayIntoIter<T> {
    /// The slots of the array that is walked over; those that were passed
    /// are empty.
    pub closed spec fn slots(&self) -> Seq<Option<(u64, T)>> {
        ArrayEntry::slots(self.entries@)
    }

    /// The index from which the walk goes on.
    pub closed spec fn position(&self) -> int {
        self.next_index as int
    }

    /// The invariant of the walk: its place lies within the slots.
    pub open spec fn wf(&self) -> bool {
        0 <= self.position() <= self.slots().len()
    }

    /// The next entry: the one in the first slot in use from the place of
    /// the walk on.
    pub fn next(&mut self) -> (r: Option<(GenerationalIndex, T)>)
        requires
            old(self).wf(),
        ensures
            final(self).wf(),
            final(self).slots().len() == old(self).slots().len(),
            ({
                let found = next_used(old(self).slots(), old(self).position());
                match r {
                    Some((key, value)) => {
                        &&& found < old(self).slots().len()
                        &&& key.id().0 == found
                        &&& old(self).slots()[found] == Some((key.id().1, value))
                        &&& final(self).position() == found + 1
                        &&& final(self).slots() == old(self).slots().update(found, None)
                    },
                    None => {
                        &&& found == old(self).slots().len()
                        &&& final(self).position() == found
                        &&& final(self).slots() == old(self).slots()
                    },
                }
            }),
    {
        proof {
            lemma_next_used(self.slots(), self.position());
        }
        while self.next_index < self.entries.len()
            invariant
                self.entries@ == old(self).entries@,
                old(self).position() <= self.next_index <= self.entries@.len(),
                next_used(self.slots(), self.position()) == next_used(
                    old(self).slots(),
                    old(self).position(),
                ),
            decreases self.entries@.len() - self.next_index,
        {
            let index = self.next_index;
            self.next_index = index + 1;
            match self.entries[index].take() {
                Some(entry) => {
                    assert(self.slots() =~= old(self).slots().update(index as int, None));
                    return Some(
                        (GenerationalIndex { index, generation: entry.generation }, entry.value),
                    );
                },
                None => {
                    assert(self.entries@ =~= old(self).entries@);
                },
            }
        }
        None
    }
}

impl<'a, T> GenerationalIndexArrayIterMut<'a, T> {
    /// The entries that were not handed out yet, the one with the largest
    /// index first and the next one to hand out last.
    pub closed spec fn items(&self) -> Seq<(GenerationalIndex, &'a mut T)> {
        self.items@
    }

    /// The indices of the entries go down strictly from each to the next.
    pub open spec fn keys_descending(&self) -> bool {
        forall|j: int, k: int|
            0 <= j < k < self.items().len() ==> (#[trigger] self.items()[j]).0.id().0 > (
            #[trigger] self.items()[k]).0.id().0
    }

    /// The next entry: the one with the smallest index among those that
    /// were not handed out yet.
    pub fn next(&mut self) -> (r: Option<(GenerationalIndex, &'a mut T)>)
        ensures
            match r {
                Some(entry) => old(self).items().len() > 0 && entry == old(self).items().last()
                    && final(self).items() == old(self).items().drop_last(),
                None => old(self).items().len() == 0 && final(self).items() == old(self).items(),
            },
    {
        self.items.pop()
    }
}

/// Calls `f` on a key and a value lent for writing.
fn call_with<K, T, F: FnMut(K, &mut T) -> bool>(f: &mut F, key: K, value: &mut T) -> (keep: bool)
    requires
        forall|lent: &mut T| call_requires(*old(f), (key, lent)),
    ensures
        *final(f) == *old(f),
        exists|lent: &mut T|
            *lent == *old(value) && *final(lent) == *final(value) && #[trigger] call_ensures(
                *old(f),
                (key, lent),
                keep,
            ),
{
    f(key, value)
}

/// An allocation keeps the state consistent, and hands out an identifier
/// that is live afterwards and was never handed out before; what was handed
/// out before stays so.
pub proof fn lemma_allocate(state: AllocatorState)
    requires
        state.wf(),
        state.slots.len() < usize::MAX || state.free.len() > 0,
    ensures
        state.allocate().0.wf(),
        !state.was_issued(state.allocate().1),
        state.allocate().0.is_live(state.allocate().1),
        state.allocate().0.was_issued(state.allocate().1),
        forall|id: (usize, u64)| state.was_issued(id) ==> state.allocate().0.was_issued(id),
        forall|id: (usize, u64)|
            id != state.allocate().1 ==> (state.allocate().0.is_live(id) <==> state.is_live(id)),
{
    let after = state.allocate().0;
    if state.free.len() > 0 {
        let index = state.free.last();
        assert(state.free[state.free.len() - 1] == index);
        assert forall|i: int| 0 <= i < after.slots.len() && !(#[trigger] after.slots[i]).live implies exists|
            j: int,
        |
            0 <= j < after.free.len() && #[trigger] after.free[j] == i by {
            assert(!state.slots[i].live);
            let j = choose|j: int| 0 <= j < state.free.len() && #[trigger] state.free[j] == i;
            assert(after.free[j] == i);
        }
        assert forall|j: int| 0 <= j < after.free.len() implies (#[trigger] after.free[j])
            < after.slots.len() && !after.slots[after.free[j] as int].live by {
            assert(state.free[j] != state.free[state.free.len() - 1]);
        }
    } else {
        assert forall|i: int| 0 <= i < after.slots.len() && !(#[trigger] after.slots[i]).live implies exists|
            j: int,
        |
            0 <= j < after.free.len() && #[trigger] after.free[j] == i by {
            assert(!state.slots[i].live);
        }
    }
}

/// Giving an identifier back keeps the state consistent; the identifier is
/// not live afterwards, and what was handed out before stays so.
pub proof fn lemma_deallocate(state: AllocatorState, id: (usize, u64))
    requires
        state.wf(),
        state.is_live(id) ==> id.1 < u64::MAX,
    ensures
        state.deallocate(id).0.wf(),
        state.deallocate(id).1 == state.is_live(id),
        !state.deallocate(id).0.is_live(id),
        forall|other: (usize, u64)|
            state.was_issued(other) <==> state.deallocate(id).0.was_issued(other),
        forall|other: (usize, u64)|
            other != id ==> (state.deallocate(id).0.is_live(other) <==> state.is_live(other)),
{
    let after = state.deallocate(id).0;
    if state.is_live(id) {
        assert forall|i: int| 0 <= i < after.slots.len() && !(#[trigger] after.slots[i]).live implies exists|
            j: int,
        |
            0 <= j < after.free.len() && #[trigger] after.free[j] == i by {
            if i == id.0 {
                assert(after.free[state.free.len() as int] == i);
            } else {
                assert(!state.slots[i].live);
                let j = choose|j: int| 0 <= j < state.free.len() && #[trigger] state.free[j] == i;
                assert(after.free[j] == i);
            }
        }
        assert forall|i: int, j: int| 0 <= i < j < after.free.len() implies after.free[i]
            != after.free[j] by {
            if j == state.free.len() {
                assert(!state.slots[state.free[i] as int].live);
            }
        }
    }
}

/// One operation on an allocator.
pub enum AllocatorOp {
    /// An identifier is handed out.
    Allocate,
    /// The given identifier is given back.
    Deallocate((usize, u64)),
}

impl AllocatorState {
    /// Whether the operation can be carried out: an allocation needs a free
    /// index or room for a new one, and a live identifier that is given
    /// back needs a generation that can still go up.
    pub open spec fn allows(self, op: AllocatorOp) -> bool {
        match op {
            AllocatorOp::Allocate => self.slots.len() < usize::MAX || self.free.len() > 0,
            AllocatorOp::Deallocate(id) => self.is_live(id) ==> id.1 < u64::MAX,
        }
    }

    /// The state after the operation.
    pub open spec fn step(self, op: AllocatorOp) -> AllocatorState {
        match op {
            AllocatorOp::Allocate => self.allocate().0,
            AllocatorOp::Deallocate(id) => self.deallocate(id).0,
        }
    }

    /// The state after the operations, carried out one after the other.
    pub open spec fn run(self, ops: Seq<AllocatorOp>) -> AllocatorState
        decreases ops.len(),
    {
        if ops.len() == 0 {
            self
        } else {
            self.run(ops.drop_last()).step(ops.last())
        }
    }

    /// Whether each of the operations can be carried out in its turn.
    pub open spec fn allows_all(self, ops: Seq<AllocatorOp>) -> bool
        decreases ops.len(),
    {
        ops.len() == 0 || (self.allows_all(ops.drop_last()) && self.run(ops.drop_last()).allows(
            ops.last(),
        ))
    }

    /// Whether the slot of the identifier's index has gone past the
    /// identifier's generation.
    pub open spec fn has_retired(self, id: (usize, u64)) -> bool {
        id.0 < self.slots.len() && self.slots[id.0 as int].generation > id.1
    }
}

/// One operation keeps the state consistent, keeps what was handed out,
/// keeps a retired identifier retired, and takes no index back.
pub proof fn lemma_step(state: AllocatorState, op: AllocatorOp)
    requires
        state.wf(),
        state.allows(op),
    ensures
        state.step(op).wf(),
        state.step(op).slots.len() >= state.slots.len(),
        forall|id: (usize, u64)| state.was_issued(id) ==> state.step(op).was_issued(id),
        forall|id: (usize, u64)| state.has_retired(id) ==> state.step(op).has_retired(id),
{
    match op {
        AllocatorOp::Allocate => {
            lemma_allocate(state);
        },
        AllocatorOp::Deallocate(id) => {
            lemma_deallocate(state, id);
        },
    }
}

/// Any number of operations keep the state consistent, keep what was handed
/// out, keep a retired identifier retired, and take no index back.
pub proof fn lemma_run(state: AllocatorState, ops: Seq<AllocatorOp>)
    requires
        state.wf(),
        state.allows_all(ops),
    ensures
        state.run(ops).wf(),
        state.run(ops).slots.len() >= state.slots.len(),
        forall|id: (usize, u64)| state.was_issued(id) ==> state.run(ops).was_issued(id),
        forall|id: (usize, u64)| state.has_retired(id) ==> state.run(ops).has_retired(id),
    decreases ops.len(),
{
    if ops.len() > 0 {
        lemma_run(state, ops.drop_last());
        lemma_step(state.run(ops.drop_last()), ops.last());
    }
}

/// The first operations of a run that can be carried out can be carried out
/// by themselves, and the rest can be carried out from where they end and
/// leads to the same state.
pub proof fn lemma_run_split(state: AllocatorState, ops: Seq<AllocatorOp>, n: int)
    requires
        state.allows_all(ops),
        0 <= n <= ops.len(),
    ensures
        state.allows_all(ops.take(n)),
        state.run(ops.take(n)).allows_all(ops.skip(n)),
        state.run(ops.take(n)).run(ops.skip(n)) == state.run(ops),
    decreases ops.len(),
{
    if n == ops.len() {
        assert(ops.take(n) =~= ops);
        assert(ops.skip(n).len() == 0);
    } else {
        let shorter = ops.drop_last();
        lemma_run_split(state, shorter, n);
        assert(shorter.take(n) =~= ops.take(n));
        assert(ops.skip(n).drop_last() =~= shorter.skip(n));
        assert(ops.skip(n).last() == ops.last());
    }
}

/// In a run that can be carried out, each operation can be carried out in the
/// state that the operations before it lead to.
pub proof fn lemma_allowed_at(state: AllocatorState, ops: Seq<AllocatorOp>, n: int)
    requires
        state.allows_all(ops),
        0 <= n < ops.len(),
    ensures
        state.run(ops.take(n)).allows(ops[n]),
    decreases ops.len(),
{
    if n == ops.len() - 1 {
        assert(ops.take(n) =~= ops.drop_last());
    } else {
        lemma_allowed_at(state, ops.drop_last(), n);
        assert(ops.drop_last().take(n) =~= ops.take(n));
    }
}

/// Identity uniqueness: whatever operations lie between them, two
/// allocations of one allocator never hand out the same identifier.
pub proof fn lemma_allocations_differ(
    state: AllocatorState,
    ops: Seq<AllocatorOp>,
    first: int,
    second: int,
)
    requires
        state.wf(),
        state.allows_all(ops),
        0 <= first < second < ops.len(),
        ops[first] == AllocatorOp::Allocate,
        ops[second] == AllocatorOp::Allocate,
    ensures
        state.run(ops.take(first)).allocate().1 != state.run(ops.take(second)).allocate().1,
{
    let upto = ops.take(second);
    lemma_run_split(state, ops, second);
    lemma_run_split(state, upto, first + 1);
    let head = upto.take(first + 1);
    assert(head.drop_last() =~= ops.take(first));
    assert(head.last() == ops[first]);
    let before = state.run(ops.take(first));
    lemma_run_split(state, head, first);
    assert(head.take(first) =~= ops.take(first));
    lemma_run(state, ops.take(first));
    lemma_allocate(before);
    let after = state.run(head);
    assert(after == before.allocate().0);
    lemma_run(after, upto.skip(first + 1));
    lemma_allowed_at(state, ops, second);
    lemma_allocate(state.run(upto));
}

/// Liveness: an identifier that was given back is never live again,
/// whatever operations follow, and an allocation that reuses its index
/// hands out a higher generation.
pub proof fn lemma_dead_stays_dead(state: AllocatorState, id: (usize, u64), ops: Seq<AllocatorOp>)
    requires
        state.wf(),
        state.is_live(id),
        id.1 < u64::MAX,
        state.deallocate(id).0.allows_all(ops),
    ensures
        !state.deallocate(id).0.run(ops).is_live(id),
        state.deallocate(id).0.run(ops).allows(AllocatorOp::Allocate) && state.deallocate(
            id,
        ).0.run(ops).allocate().1.0 == id.0 ==> state.deallocate(id).0.run(ops).allocate().1.1
            > id.1,
{
    lemma_deallocate(state, id);
    let dead = state.deallocate(id).0;
    assert(dead.has_retired(id));
    lemma_run(dead, ops);
}

} // verus!
