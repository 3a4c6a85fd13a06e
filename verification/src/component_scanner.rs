use vstd::prelude::*;

verus! {

/// The smallest index that a scan with the given bound may return.
pub open spec fn scan_from(until: Option<usize>) -> usize {
    match until {
        Some(u) => u,
        None => 0,
    }
}

/// `index` is the least member of `indices` that is not below `from`.
pub open spec fn first_at_or_after(indices: Set<usize>, from: usize, index: usize) -> bool {
    &&& indices.contains(index)
    &&& index >= from
    &&& forall|k: usize| indices.contains(k) && k >= from ==> k >= index
}

/// The members of `indices` that lie strictly above `index`.
pub open spec fn indices_after(indices: Set<usize>, index: usize) -> Set<usize> {
    Set::new(|k: usize| indices.contains(k) && k > index)
}

/// What a scan does to the indices that a scanner has not passed yet: it
/// returns the least of them that is not below the bound, and passes
/// everything up to it; or it returns nothing, where none of them is that
/// large, and passes everything.
pub open spec fn scan_moves(
    before: Set<usize>,
    until: Option<usize>,
    index: Option<usize>,
    after: Set<usize>,
) -> bool {
    match index {
        Some(index) => {
            &&& first_at_or_after(before, scan_from(until), index)
            &&& after == indices_after(before, index)
        },
        None => {
            &&& forall|k: usize| before.contains(k) ==> k < scan_from(until)
            &&& after == Set::<usize>::empty()
        },
    }
}

/// The index of what a scan returned.
pub open spec fn index_of<I>(r: Option<(I, usize)>) -> Option<usize> {
    match r {
        Some((_, index)) => Some(index),
        None => None,
    }
}

/// Each element of `order` is smaller than the one after it.
pub open spec fn ascending(order: Seq<usize>) -> bool {
    forall|i: int, j: int| 0 <= i < j < order.len() ==> order[i] < order[j]
}

/// `order` lists, from the smallest on and without gaps, members of
/// `indices`: all of them, or the `limit` smallest where a limit is given and
/// there are more.
pub open spec fn lists_in_order(order: Seq<usize>, indices: Set<usize>, limit: Option<usize>) -> bool {
    &&& ascending(order)
    &&& limit is Some ==> order.len() <= limit->Some_0
    &&& forall|j: int| 0 <= j < order.len() ==> indices.contains(#[trigger] order[j])
    &&& forall|k: usize|
        indices.contains(k) && !order.contains(k) ==> {
            &&& limit is Some
            &&& order.len() == limit->Some_0
            &&& forall|j: int| 0 <= j < order.len() ==> order[j] < k
        }
}

/// Why a scan that was expected to hold exactly one entry did not.
#[derive(Debug, PartialEq, Eq, Clone, Copy, Structural)]
pub enum ComponentSingletonError {
    /// The scan held no entry.
    Missing,
    /// The scan held more than one entry.
    Multiple,
}

impl ComponentSingletonError {
    /// The text that describes this error.
    pub fn message(&self) -> (r: &'static str)
        ensures
            r@ == (match self {
                ComponentSingletonError::Missing => "no such singleton entry in scan"@,
                ComponentSingletonError::Multiple => "multiple entries found in singleton query"@,
            }),
    {
        match self {
            ComponentSingletonError::Missing => "no such singleton entry in scan",
            ComponentSingletonError::Multiple => "multiple entries found in singleton query",
        }
    }
}

/// A forward-only cursor that hands out `(item, index)` pairs in strictly
/// ascending index order.
///
/// The state of a scanner is described by the set of indices it has not yet
/// passed, and by the relation between such an index and the item handed out
/// for it.
pub trait ComponentScanner {
    type Item;

    /// The indices that this scanner has not passed yet.
    spec fn indices(&self) -> Set<usize>;

    /// Whether `item` may be handed out for `index`.
    spec fn yields(&self, index: usize, item: Self::Item) -> bool;

    /// The internal consistency that every method expects and preserves.
    spec fn wf(&self) -> bool;

    /// Moves forward to the first entry whose index is at least `until` (or
    /// to the next entry when `until` is `None`) and returns it. Everything
    /// up to and including the returned index is passed; when nothing is
    /// returned the scanner is exhausted.
    fn scan(&mut self, until: Option<usize>) -> (r: Option<(Self::Item, usize)>)
        requires
            old(self).wf(),
        ensures
            final(self).wf(),
            scan_moves(old(self).indices(), until, index_of(r), final(self).indices()),
            r is Some ==> old(self).yields(r->Some_0.1, r->Some_0.0),
            forall|k: usize, x: Self::Item|
                final(self).indices().contains(k) && #[trigger] final(self).yields(k, x) ==> old(self).yields(k, x),
    ;

    /// Adapts the scanner into a forward-only sequence of its items.
    fn iter(self) -> (r: ComponentScannerIterator<Self>) where Self: Sized
        ensures
            r.scanner() == self,
    {
        ComponentScannerIterator(self)
    }

    /// Returns the only item of the scanner, or says whether there was none
    /// or more than one.
    fn singleton(self) -> (r: Result<Self::Item, ComponentSingletonError>) where Self: Sized
        requires
            self.wf(),
        ensures
            r is Ok ==> exists|i: usize|
                #![trigger self.yields(i, r->Ok_0)]
                self.yields(i, r->Ok_0) && self.indices() == set![i],
            (r is Err && r->Err_0 == ComponentSingletonError::Missing) <==> self.indices()
                == Set::<usize>::empty(),
            (r is Err && r->Err_0 == ComponentSingletonError::Multiple) <==> exists|
                i: usize,
                j: usize,
            |
                #![trigger self.indices().contains(i), self.indices().contains(j)]
                i != j && self.indices().contains(i) && self.indices().contains(j),
    {
        let mut scanner = self;
        match scanner.scan(None) {
            None => {
                assert(self.indices() =~= Set::<usize>::empty());
                Err(ComponentSingletonError::Missing)
            },
            Some((item, index)) => {
                let ghost rest = scanner.indices();
                match scanner.scan(None) {
                    Some((_, second)) => {
                        assert(rest.contains(second));
                        assert(self.indices().contains(index) && self.indices().contains(second));
                        Err(ComponentSingletonError::Multiple)
                    },
                    None => {
                        assert(self.indices() =~= set![index]) by {
                            assert forall|k: usize| self.indices().contains(k) implies k
                                == index by {
                                if k != index {
                                    assert(rest.contains(k));
                                }
                            }
                        }
                        let r = Ok(item);
                        assert(self.yields(index, r->Ok_0) && self.indices() == set![index]);
                        r
                    },
                }
            },
        }
    }

    /// Applies `f` to every item; the indices stay as they are.
    fn map<R, F: Fn(Self::Item) -> R>(self, f: F) -> (r: ComponentScannerMap<Self, F>) where
        Self: Sized,

        ensures
            r.source() == self,
            r.function() == f,
    {
        ComponentScannerMap { scanner: self, function: f }
    }

}

impl<T: ComponentScanner + ?Sized> ComponentScanner for Box<T> {
    type Item = T::Item;

    open spec fn indices(&self) -> Set<usize> {
        (**self).indices()
    }

    open spec fn yields(&self, index: usize, item: T::Item) -> bool {
        (**self).yields(index, item)
    }

    open spec fn wf(&self) -> bool {
        (**self).wf()
    }

    fn scan(&mut self, until: Option<usize>) -> (r: Option<(T::Item, usize)>) {
        (**self).scan(until)
    }
}

/// A scanner seen as a forward-only sequence of its items, without their
/// indices.
pub struct ComponentScannerIterator<T>(T);

impl<T> ComponentScannerIterator<T> {
    /// The scanner that the items come from.
    pub closed spec fn scanner(&self) -> T {
        self.0
    }
}

impl<T: ComponentScanner> ComponentScannerIterator<T> {
    /// The next item of the scanner, if there is one.
    pub fn next(&mut self) -> (r: Option<T::Item>)
        requires
            old(self).scanner().wf(),
        ensures
            final(self).scanner().wf(),
            r is Some ==> exists|index: usize|
                #![trigger old(self).scanner().yields(index, r->Some_0)]
                {
                    &&& first_at_or_after(old(self).scanner().indices(), 0, index)
                    &&& old(self).scanner().yields(index, r->Some_0)
                    &&& final(self).scanner().indices() == indices_after(
                        old(self).scanner().indices(),
                        index,
                    )
                },
            r is None <==> old(self).scanner().indices() == Set::<usize>::empty(),
            r is None ==> final(self).scanner().indices() == Set::<usize>::empty(),
            forall|k: usize, x: T::Item|
                final(self).scanner().indices().contains(k) && #[trigger] final(self).scanner().yields(k, x) ==> old(self).scanner().yields(k, x),
    {
        match self.0.scan(None) {
            Some((item, index)) => {
                assert(first_at_or_after(old(self).scanner().indices(), 0, index) && old(self).scanner().yields(index, item) && self.scanner().indices() == indices_after(
                    old(self).scanner().indices(),
                    index,
                ));
                let r = Some(item);
                assert(old(self).scanner().yields(index, r->Some_0));
                r
            },
            None => {
                assert(old(self).scanner().indices() =~= Set::<usize>::empty());
                None
            },
        }
    }

    /// The items of the scanner in the order of their indices, up to
    /// `limit` of them if there is a limit, and the indices that they were
    /// handed out for.
    fn gather(self, limit: Option<usize>) -> (r: (Vec<T::Item>, Ghost<Seq<usize>>))
        requires
            self.scanner().wf(),
        ensures
            r.1@.len() == r.0@.len(),
            lists_in_order(r.1@, self.scanner().indices(), limit),
            forall|j: int|
                0 <= j < r.0@.len() ==> self.scanner().yields(#[trigger] r.1@[j], r.0@[j]),
    {
        let mut scanner = self.0;
        let mut items: Vec<T::Item> = Vec::new();
        let ghost mut order: Seq<usize> = Seq::empty();
        let ghost mut bound: int = -1;
        let mut more = match limit {
            Some(n) => n > 0,
            None => true,
        };
        while more
            invariant
                scanner.wf(),
                -1 <= bound <= usize::MAX,
                order.len() == items@.len(),
                ascending(order),
                limit is Some ==> order.len() <= limit->Some_0,
                more ==> (limit is Some ==> order.len() < limit->Some_0),
                forall|j: int| 0 <= j < order.len() ==> #[trigger] order[j] <= bound,
                forall|j: int|
                    0 <= j < order.len() ==> self.scanner().indices().contains(#[trigger] order[j]),
                forall|j: int|
                    0 <= j < order.len() ==> self.scanner().yields(#[trigger] order[j], items@[j]),
                forall|k: usize| scanner.indices().contains(k) ==> k > bound,
                forall|k: usize|
                    self.scanner().indices().contains(k) ==> scanner.indices().contains(k)
                        || order.contains(k),
                forall|k: usize| scanner.indices().contains(k) ==> self.scanner().indices().contains(k),
                forall|k: usize, x: T::Item|
                    scanner.indices().contains(k) && #[trigger] scanner.yields(k, x)
                        ==> self.scanner().yields(k, x),
                !more ==> forall|k: usize|
                    self.scanner().indices().contains(k) && !order.contains(k) ==> {
                        &&& limit is Some
                        &&& order.len() == limit->Some_0
                        &&& forall|j: int| 0 <= j < order.len() ==> order[j] < k
                    },
            decreases usize::MAX - bound, more as int,
        {
            match scanner.scan(None) {
                Some((item, index)) => {
                    let ghost before = order;
                    items.push(item);
                    proof {
                        order = order.push(index);
                        bound = index as int;
                        assert(forall|k: usize| before.contains(k) ==> order.contains(k)) by {
                            assert forall|k: usize| before.contains(k) implies order.contains(
                                k,
                            ) by {
                                let j = choose|j: int| 0 <= j < before.len() && before[j] == k;
                                assert(order[j] == k);
                            }
                        }
                        assert(order[order.len() - 1] == index);
                    }
                    more =
                    match limit {
                        Some(n) => items.len() < n,
                        None => true,
                    };
                },
                None => {
                    more = false;
                },
            }
        }
        (items, Ghost(order))
    }

    /// The first `n` items of the scanner, or all of them if there are
    /// fewer.
    pub fn take(self, n: usize) -> (items: Vec<T::Item>)
        requires
            self.scanner().wf(),
        ensures
            exists|order: Seq<usize>|
                {
                    &&& order.len() == items@.len()
                    &&& #[trigger] lists_in_order(order, self.scanner().indices(), Some(n))
                    &&& forall|j: int|
                        0 <= j < items@.len() ==> self.scanner().yields(
                            #[trigger] order[j],
                            items@[j],
                        )
                },
    {
        let (items, order) = self.gather(Some(n));
        assert(lists_in_order(order@, self.scanner().indices(), Some(n)));
        items
    }

    /// All items of the scanner, in the order of their indices.
    pub fn collect(self) -> (items: Vec<T::Item>)
        requires
            self.scanner().wf(),
        ensures
            exists|order: Seq<usize>|
                {
                    &&& order.len() == items@.len()
                    &&& #[trigger] lists_in_order(order, self.scanner().indices(), None)
                    &&& forall|j: int|
                        0 <= j < items@.len() ==> self.scanner().yields(
                            #[trigger] order[j],
                            items@[j],
                        )
                },
    {
        let (items, order) = self.gather(None);
        assert(lists_in_order(order@, self.scanner().indices(), None));
        items
    }
}

/// Scans two scanners in step and hands out the entries on whose index both
/// agree, pairing their items.
pub struct ComponentScannerJoin<H, T>(H, T);

impl<H, T> ComponentScannerJoin<H, T> {
    /// The first of the two joined scanners.
    pub closed spec fn head(&self) -> H {
        self.0
    }

    /// The second of the two joined scanners.
    pub closed spec fn tail(&self) -> T {
        self.1
    }
}

impl<H: ComponentScanner, T: ComponentScanner> ComponentScanner for ComponentScannerJoin<H, T> {
    type Item = (H::Item, T::Item);

    open spec fn indices(&self) -> Set<usize> {
        self.head().indices().intersect(self.tail().indices())
    }

    open spec fn yields(&self, index: usize, item: (H::Item, T::Item)) -> bool {
        self.head().yields(index, item.0) && self.tail().yields(index, item.1)
    }

    open spec fn wf(&self) -> bool {
        self.head().wf() && self.tail().wf()
    }

    fn scan(&mut self, until: Option<usize>) -> (r: Option<((H::Item, T::Item), usize)>) {
        let first = self.0.scan(until);
        let second = self.1.scan(until);
        match (first, second) {
            (Some((mut item1, mut id1)), Some((mut item2, mut id2))) => {
                loop
                    invariant
                        self.0.wf(),
                        self.1.wf(),
                        id1 >= scan_from(until),
                        id2 >= scan_from(until),
                        old(self).0.indices().contains(id1),
                        old(self).1.indices().contains(id2),
                        old(self).0.yields(id1, item1),
                        old(self).1.yields(id2, item2),
                        self.0.indices() == indices_after(old(self).0.indices(), id1),
                        self.1.indices() == indices_after(old(self).1.indices(), id2),
                        forall|k: usize|
                            old(self).indices().contains(k) && k >= scan_from(until) ==> k >= id1
                                && k >= id2,
                        forall|k: usize, x: H::Item|
                            self.0.indices().contains(k) && #[trigger] self.0.yields(k, x) ==> old(self).0.yields(k, x),
                        forall|k: usize, x: T::Item|
                            self.1.indices().contains(k) && #[trigger] self.1.yields(k, x) ==> old(self).1.yields(k, x),
                    decreases 2 * usize::MAX - id1 - id2,
                {
                    if id1 < id2 {
                        let ghost passed = id1;
                        assert forall|k: usize|
                            old(self).indices().contains(k) && k >= scan_from(
                                until,
                            ) implies self.0.indices().contains(k) by {
                            assert(indices_after(old(self).0.indices(), passed).contains(k));
                        }
                        match self.0.scan(Some(id2)) {
                            Some(res) => {
                                item1 = res.0;
                                id1 = res.1;
                                assert(self.0.indices() =~= indices_after(
                                    old(self).0.indices(),
                                    id1,
                                ));
                            },
                            None => {
                                assert(self.indices() =~= Set::<usize>::empty());
                                return None;
                            },
                        }
                    } else if id1 > id2 {
                        let ghost passed = id2;
                        assert forall|k: usize|
                            old(self).indices().contains(k) && k >= scan_from(
                                until,
                            ) implies self.1.indices().contains(k) by {
                            assert(indices_after(old(self).1.indices(), passed).contains(k));
                        }
                        match self.1.scan(Some(id1)) {
                            Some(res) => {
                                item2 = res.0;
                                id2 = res.1;
                                assert(self.1.indices() =~= indices_after(
                                    old(self).1.indices(),
                                    id2,
                                ));
                            },
                            None => {
                                assert(self.indices() =~= Set::<usize>::empty());
                                return None;
                            },
                        }
                    } else {
                        assert(self.indices() =~= indices_after(old(self).indices(), id1));
                        return Some(((item1, item2), id1));
                    }
                }
            },
            _ => {
                assert(self.indices() =~= Set::<usize>::empty());
                None
            },
        }
    }
}

/// Turns a scanner into one that has an entry at every index: `Some(item)`
/// where the underlying scanner has one, `None` elsewhere.
pub struct ComponentScannerOpt<T, I> {
    scanner: T,
    current: Option<usize>,
    next: Option<(I, usize)>,
}

impl<T: ComponentScanner<Item = I>, I> ComponentScannerOpt<T, I> {
    /// The underlying scanner.
    pub closed spec fn source(&self) -> T {
        self.scanner
    }

    /// The next index to hand out, or `None` once every index was handed out.
    pub closed spec fn position(&self) -> Option<usize> {
        self.current
    }

    /// The entry that was read ahead from the underlying scanner.
    pub closed spec fn peeked(&self) -> Option<(I, usize)> {
        self.next
    }

    /// Whether the underlying scanner has an entry at `index`, read ahead or
    /// still to come.
    pub open spec fn present(&self, index: usize) -> bool {
        (self.peeked() is Some && self.peeked()->Some_0.1 == index) || self.source().indices().contains(
            index,
        )
    }

    /// Whether `item` is the underlying scanner's item at `index`.
    pub open spec fn item_at(&self, index: usize, item: I) -> bool {
        if self.peeked() is Some && self.peeked()->Some_0.1 == index {
            item == self.peeked()->Some_0.0
        } else {
            self.source().yields(index, item)
        }
    }
}

impl<T: ComponentScanner<Item = I>, I> ComponentScanner for ComponentScannerOpt<T, I> {
    type Item = Option<I>;

    open spec fn indices(&self) -> Set<usize> {
        match self.position() {
            Some(c) => Set::new(|k: usize| k >= c),
            None => Set::empty(),
        }
    }

    open spec fn yields(&self, index: usize, item: Option<I>) -> bool {
        if self.present(index) {
            item is Some && self.item_at(index, item->Some_0)
        } else {
            item is None
        }
    }

    open spec fn wf(&self) -> bool {
        &&& self.source().wf()
        &&& match self.peeked() {
            Some((_, n)) => {
                &&& self.position() is Some ==> n >= self.position()->Some_0
                &&& forall|k: usize| self.source().indices().contains(k) ==> k > n
            },
            None => forall|k: usize| !self.source().indices().contains(k),
        }
    }

    fn scan(&mut self, until: Option<usize>) -> (r: Option<(Option<I>, usize)>) {
        let mut current: usize = match self.current {
            Some(c) => c,
            None => {
                return None;
            },
        };
        let from: usize = match until {
            Some(u) => u,
            None => 0,
        };
        if current < from {
            current = from;
        }
        let stale = match &self.next {
            Some((_, next_index)) => current > *next_index,
            None => false,
        };
        if stale {
            self.next = self.scanner.scan(Some(current));
        }
        assert(forall|k: usize| k >= current ==> (self.present(k) <==> old(self).present(k)));
        assert(forall|k: usize, x: I|
            k >= current && self.present(k) && #[trigger] self.item_at(k, x) ==> old(self).item_at(
                k,
                x,
            ));
        let ghost mid = *self;
        match self.next.take() {
            Some((next_value, next_index)) => {
                if current == next_index {
                    self.current = current.checked_add(1);
                    self.next = self.scanner.scan(None);
                    assert(self.indices() =~= indices_after(old(self).indices(), current));
                    assert(forall|k: usize| k > current ==> (self.present(k) <==> mid.present(k)));
                    assert(forall|k: usize, x: I|
                        k > current && self.present(k) && #[trigger] self.item_at(k, x)
                            ==> mid.item_at(k, x));
                    Some((Some(next_value), current))
                } else {
                    self.current = current.checked_add(1);
                    self.next = Some((next_value, next_index));
                    assert(self.indices() =~= indices_after(old(self).indices(), current));
                    Some((None, current))
                }
            },
            None => {
                self.current = current.checked_add(1);
                assert(self.indices() =~= indices_after(old(self).indices(), current));
                Some((None, current))
            },
        }
    }
}

/// Hands out the entries of one scanner whose index has no entry in another.
pub struct ComponentScannerNot<T1, T2> {
    scanner: T1,
    not_scanner: T2,
    next_not: Option<usize>,
}

impl<T1: ComponentScanner, T2: ComponentScanner> ComponentScannerNot<T1, T2> {
    /// The scanner whose entries are handed out.
    pub closed spec fn source(&self) -> T1 {
        self.scanner
    }

    /// The scanner whose indices are left out.
    pub closed spec fn excluder(&self) -> T2 {
        self.not_scanner
    }

    /// The index that was read ahead from the excluding scanner.
    pub closed spec fn peeked(&self) -> Option<usize> {
        self.next_not
    }

    /// Whether the excluding scanner has an entry at `index`, read ahead or
    /// still to come.
    pub open spec fn excluded(&self, index: usize) -> bool {
        self.peeked() == Some(index) || self.excluder().indices().contains(index)
    }
}

impl<T1, T2, I> ComponentScanner for ComponentScannerNot<T1, T2> where
    T1: ComponentScanner<Item = I>,
    T2: ComponentScanner,
 {
    type Item = I;

    open spec fn indices(&self) -> Set<usize> {
        Set::new(|k: usize| self.source().indices().contains(k) && !self.excluded(k))
    }

    open spec fn yields(&self, index: usize, item: I) -> bool {
        self.source().yields(index, item)
    }

    open spec fn wf(&self) -> bool {
        &&& self.source().wf()
        &&& self.excluder().wf()
        &&& match self.peeked() {
            Some(n) => forall|k: usize| self.excluder().indices().contains(k) ==> k > n,
            None => forall|k: usize| !self.excluder().indices().contains(k),
        }
    }

    fn scan(&mut self, until: Option<usize>) -> (r: Option<(I, usize)>) {
        let ghost mut bound: int = -1;
        loop
            invariant
                self.wf(),
                -1 <= bound <= usize::MAX,
                forall|k: usize|
                    self.scanner.indices().contains(k) <==> old(self).scanner.indices().contains(k)
                        && k > bound,
                forall|k: usize|
                    old(self).scanner.indices().contains(k) && scan_from(until) <= k <= bound
                        ==> old(self).excluded(k),
                forall|k: usize| k > bound ==> (self.excluded(k) <==> old(self).excluded(k)),
                forall|k: usize, x: I|
                    self.scanner.indices().contains(k) && #[trigger] self.scanner.yields(k, x)
                        ==> old(self).scanner.yields(k, x),
            decreases usize::MAX - bound,
        {
            match self.scanner.scan(until) {
                Some((item, index)) => {
                    let behind = match self.next_not {
                        Some(next_not) => next_not < index,
                        None => false,
                    };
                    if behind {
                        self.next_not =
                        match self.not_scanner.scan(Some(index)) {
                            Some((_, ind)) => Some(ind),
                            None => None,
                        };
                    }
                    let skip = match self.next_not {
                        Some(next_not) => next_not == index,
                        None => false,
                    };
                    assert(forall|k: usize| k >= index ==> (self.excluded(k) <==> old(self).excluded(k)));
                    if !skip {
                        assert(self.indices() =~= indices_after(old(self).indices(), index));
                        return Some((item, index));
                    }
                    proof {
                        bound = index as int;
                    }
                },
                None => {
                    assert(self.indices() =~= Set::<usize>::empty());
                    return None;
                },
            }
        }
    }
}

/// Applies a function to every item that a scanner hands out; the indices
/// stay as they are.
pub struct ComponentScannerMap<T, F> {
    scanner: T,
    function: F,
}

impl<T, F> ComponentScannerMap<T, F> {
    /// The scanner whose items are mapped.
    pub closed spec fn source(&self) -> T {
        self.scanner
    }

    /// The function that is applied to each item.
    pub closed spec fn function(&self) -> F {
        self.function
    }
}

impl<T, F, R> ComponentScanner for ComponentScannerMap<T, F> where
    T: ComponentScanner,
    F: Fn(T::Item) -> R,
 {
    type Item = R;

    open spec fn indices(&self) -> Set<usize> {
        self.source().indices()
    }

    open spec fn yields(&self, index: usize, item: R) -> bool {
        exists|x: T::Item|
            #![trigger self.source().yields(index, x)]
            self.source().yields(index, x) && call_ensures(self.function(), (x,), item)
    }

    open spec fn wf(&self) -> bool {
        &&& self.source().wf()
        &&& forall|k: usize, x: T::Item|
            self.source().indices().contains(k) && #[trigger] self.source().yields(k, x)
                ==> call_requires(self.function(), (x,))
    }

    fn scan(&mut self, until: Option<usize>) -> (r: Option<(R, usize)>) {
        match self.scanner.scan(until) {
            Some((item, id)) => {
                let mapped = (self.function)(item);
                assert(old(self).source().yields(id, item));
                Some((mapped, id))
            },
            None => None,
        }
    }
}

/// Hands out the entries of one scanner whose index also has an entry in
/// another, without the other's items.
pub struct ComponentScannerLimit<T1, T2> {
    join: ComponentScannerJoin<T1, T2>,
}

impl<T1: ComponentScanner, T2: ComponentScanner> ComponentScannerLimit<T1, T2> {
    /// The join of the limited scanner with the limiting one.
    pub closed spec fn joined(&self) -> ComponentScannerJoin<T1, T2> {
        self.join
    }
}

impl<T1: ComponentScanner, T2: ComponentScanner> ComponentScanner for ComponentScannerLimit<
    T1,
    T2,
> {
    type Item = T1::Item;

    open spec fn indices(&self) -> Set<usize> {
        self.joined().indices()
    }

    open spec fn yields(&self, index: usize, item: T1::Item) -> bool {
        exists|other: T2::Item|
            #![trigger self.joined().yields(index, (item, other))]
            self.joined().yields(index, (item, other))
    }

    open spec fn wf(&self) -> bool {
        self.joined().wf()
    }

    fn scan(&mut self, until: Option<usize>) -> (r: Option<(T1::Item, usize)>) {
        match self.join.scan(until) {
            Some(((item, other), id)) => {
                assert(old(self).joined().yields(id, (item, other)));
                Some((item, id))
            },
            None => None,
        }
    }
}

/// The combinators that build one scanner from another.
pub trait ComponentScannerCombine: ComponentScanner + Sized {
    /// Turns the scanner into one that has an entry at every index:
    /// `Some(item)` where this scanner has one, `None` elsewhere.
    fn opt(self) -> (r: ComponentScannerOpt<Self, Self::Item>)
        requires
            self.wf(),
        ensures
            r.wf(),
            r.indices() == Set::<usize>::full(),
            forall|k: usize, x: Option<Self::Item>| #[trigger]
                r.yields(k, x) ==> (if self.indices().contains(k) {
                    x is Some && self.yields(k, x->Some_0)
                } else {
                    x is None
                }),
    {
        let mut scanner = self;
        let first = scanner.scan(None);
        let r = ComponentScannerOpt { scanner, current: Some(0), next: first };
        assert(r.indices() =~= Set::<usize>::full());
        assert(forall|k: usize| r.present(k) <==> self.indices().contains(k));
        r
    }

    /// Keeps the entries at whose index `and` has an entry too.
    fn limit<T>(self, and: T) -> (r: ComponentScannerLimit<Self, T>) where
        Self: Sized,
        T: ComponentScanner,

        ensures
            r.joined().head() == self,
            r.joined().tail() == and,
            r.wf() == (self.wf() && and.wf()),
            r.indices() == self.indices().intersect(and.indices()),
            forall|k: usize, x: Self::Item| #[trigger]
                r.yields(k, x) <==> self.yields(k, x) && exists|other: T::Item| #[trigger]
                    and.yields(k, other),
    {
        let r = ComponentScannerLimit { join: ComponentScannerJoin(self, and) };
        assert forall|k: usize, x: Self::Item| #[trigger]
            r.yields(k, x) <==> self.yields(k, x) && exists|other: T::Item| #[trigger]
                and.yields(k, other) by {
            if r.yields(k, x) {
                let other = choose|other: T::Item| #[trigger] r.joined().yields(k, (x, other));
                assert(and.yields(k, other));
            }
            if self.yields(k, x) && exists|other: T::Item| #[trigger] and.yields(k, other) {
                let other = choose|other: T::Item| #[trigger] and.yields(k, other);
                assert(r.joined().yields(k, (x, other)));
            }
        }
        r
    }

    /// Keeps the entries at whose index `not` has no entry.
    fn not<T>(self, not: T) -> (r: ComponentScannerNot<Self, T>) where
        Self: Sized,
        T: ComponentScanner,

        requires
            not.wf(),
        ensures
            r.source() == self,
            r.excluder().wf(),
            self.wf() ==> r.wf(),
            forall|k: usize| r.excluded(k) <==> not.indices().contains(k),
            r.indices() == self.indices().difference(not.indices()),
            forall|k: usize, x: Self::Item| #[trigger] r.yields(k, x) <==> self.yields(k, x),
    {
        let mut excluder = not;
        let next_not = match excluder.scan(None) {
            Some((_, ind)) => Some(ind),
            None => None,
        };
        let r = ComponentScannerNot { scanner: self, not_scanner: excluder, next_not };
        assert(r.indices() =~= self.indices().difference(not.indices()));
        r
    }
}

impl<S: ComponentScanner> ComponentScannerCombine for S {
}

/// Whether the scans of a run follow one another: each scan takes the
/// indices that the one before it left, and leaves its own.
pub open spec fn is_scan_run(
    states: Seq<Set<usize>>,
    untils: Seq<Option<usize>>,
    results: Seq<Option<usize>>,
) -> bool {
    &&& states.len() == results.len() + 1
    &&& untils.len() == results.len()
    &&& forall|t: int|
        0 <= t < results.len() ==> #[trigger] scan_moves(
            states[t],
            untils[t],
            results[t],
            states[t + 1],
        )
}

/// After a scan that returned an index, whatever the scans that follow,
/// only larger indices are left.
pub proof fn lemma_scan_run_leaves_larger(
    states: Seq<Set<usize>>,
    untils: Seq<Option<usize>>,
    results: Seq<Option<usize>>,
    a: int,
    t: int,
)
    requires
        is_scan_run(states, untils, results),
        0 <= a < t <= results.len(),
        results[a] is Some,
    ensures
        forall|k: usize| states[t].contains(k) ==> k > results[a]->Some_0,
    decreases t - a,
{
    if t == a + 1 {
        assert(scan_moves(states[a], untils[a], results[a], states[a + 1]));
    } else {
        lemma_scan_run_leaves_larger(states, untils, results, a, t - 1);
        let s = t - 1;
        assert(scan_moves(states[s], untils[s], results[s], states[s + 1]));
    }
}

/// Scan monotonicity: whatever bounds the scans of a run are given, the
/// indices that they return go up strictly.
pub proof fn lemma_scans_ascend(
    states: Seq<Set<usize>>,
    untils: Seq<Option<usize>>,
    results: Seq<Option<usize>>,
    a: int,
    b: int,
)
    requires
        is_scan_run(states, untils, results),
        0 <= a < b < results.len(),
        results[a] is Some,
        results[b] is Some,
    ensures
        results[a]->Some_0 < results[b]->Some_0,
{
    lemma_scan_run_leaves_larger(states, untils, results, a, b);
    assert(scan_moves(states[b], untils[b], results[b], states[b + 1]));
}

/// A scanner that returned nothing returns nothing ever after.
pub proof fn lemma_exhausted_stays_exhausted(
    states: Seq<Set<usize>>,
    untils: Seq<Option<usize>>,
    results: Seq<Option<usize>>,
    a: int,
    b: int,
)
    requires
        is_scan_run(states, untils, results),
        0 <= a < b < results.len(),
        results[a] is None,
    ensures
        results[b] is None,
        states[b] == Set::<usize>::empty(),
    decreases b - a,
{
    assert(scan_moves(states[a], untils[a], results[a], states[a + 1]));
    if b > a + 1 {
        lemma_exhausted_stays_exhausted(states, untils, results, a, b - 1);
        let s = b - 1;
        assert(scan_moves(states[s], untils[s], results[s], states[s + 1]));
    }
    assert(scan_moves(states[b], untils[b], results[b], states[b + 1]));
}

/// A bound that is not above any index that is left is no bound: the scan
/// does what a scan without a bound does.
pub proof fn lemma_low_bound_is_no_bound(
    before: Set<usize>,
    until: usize,
    index: Option<usize>,
    after: Set<usize>,
)
    requires
        forall|k: usize| before.contains(k) ==> k >= until,
    ensures
        scan_moves(before, Some(until), index, after) <==> scan_moves(before, None, index, after),
{
}

/// Two listings of all of the same indices agree on their first `n`
/// places.
proof fn lemma_listings_agree(first: Seq<usize>, second: Seq<usize>, indices: Set<usize>, n: int)
    requires
        lists_in_order(first, indices, None),
        lists_in_order(second, indices, None),
        0 <= n <= first.len(),
    ensures
        n <= second.len(),
        forall|j: int| 0 <= j < n ==> first[j] == second[j],
    decreases n,
{
    if n > 0 {
        lemma_listings_agree(first, second, indices, n - 1);
        let i = n - 1;
        assert(indices.contains(first[i]));
        assert(second.contains(first[i]));
        let m = choose|m: int| 0 <= m < second.len() && second[m] == first[i];
        if m < i {
            assert(first[m] < first[i]);
        }
        assert(indices.contains(second[i]));
        assert(first.contains(second[i]));
        let l = choose|l: int| 0 <= l < first.len() && first[l] == second[i];
        if l < i {
            assert(second[l] < second[i]);
        }
        if m > i {
            assert(second[i] < second[m]);
        }
        if l > i {
            assert(first[i] < first[l]);
        }
    }
}

/// Scan equivalence: there is one way only to list all indices of a set in
/// order, so that the items of a scanner come out in the sorted order of
/// its indices.
pub proof fn lemma_listing_is_unique(first: Seq<usize>, second: Seq<usize>, indices: Set<usize>)
    requires
        lists_in_order(first, indices, None),
        lists_in_order(second, indices, None),
    ensures
        first == second,
{
    lemma_listings_agree(first, second, indices, first.len() as int);
    lemma_listings_agree(second, first, indices, second.len() as int);
    assert(first =~= second);
}

/// The first `n` of all indices, listed in order, are the numbers from 0
/// up to `n - 1`.
pub proof fn lemma_listing_of_all(order: Seq<usize>, n: usize)
    requires
        lists_in_order(order, Set::<usize>::full(), Some(n)),
    ensures
        order.len() == n,
        forall|j: int| 0 <= j < n ==> order[j] == j,
{
    assert forall|j: int| 0 <= j < order.len() implies order[j] == j by {
        lemma_listing_starts_at_zero(order, n, j);
    }
    if order.len() < n {
        let k = order.len() as usize;
        assert(Set::<usize>::full().contains(k));
        if order.contains(k) {
            let m = choose|m: int| 0 <= m < order.len() && order[m] == k;
            lemma_listing_starts_at_zero(order, n, m);
        }
    }
}

proof fn lemma_listing_starts_at_zero(order: Seq<usize>, n: usize, j: int)
    requires
        lists_in_order(order, Set::<usize>::full(), Some(n)),
        0 <= j < order.len(),
    ensures
        order[j] == j,
    decreases j,
{
    if j > 0 {
        lemma_listing_starts_at_zero(order, n, j - 1);
        assert(order[j - 1] < order[j]);
    }
    if order[j] > j {
        let k = j as usize;
        assert(Set::<usize>::full().contains(k));
        if order.contains(k) {
            let m = choose|m: int| 0 <= m < order.len() && order[m] == k;
            if m < j {
                lemma_listing_starts_at_zero(order, n, m);
            } else if m > j {
                assert(order[j] < order[m]);
            }
        } else {
            assert(order[j] < k);
        }
    }
}

/// Puts one more element in front of a tuple.
pub trait TuplePrepend<H>: Sized {
    type Output;

    /// The tuple that starts with `head` and goes on with the elements of
    /// `self`.
    spec fn prepended(self, head: H) -> Self::Output;

    /// The tuple that starts with `head` and goes on with the elements of
    /// `self`.
    fn prepend(self, head: H) -> (r: Self::Output)
        ensures
            r == self.prepended(head),
    ;
}

/// Hands out the items of a scanner as tuples of one element.
pub struct ComponentScannerSingle<T> {
    scanner: T,
}

impl<T> ComponentScannerSingle<T> {
    /// The scanner whose items are wrapped.
    pub closed spec fn source(&self) -> T {
        self.scanner
    }
}

impl<T: ComponentScanner> ComponentScanner for ComponentScannerSingle<T> {
    type Item = (T::Item,);

    open spec fn indices(&self) -> Set<usize> {
        self.source().indices()
    }

    open spec fn yields(&self, index: usize, item: (T::Item,)) -> bool {
        self.source().yields(index, item.0)
    }

    open spec fn wf(&self) -> bool {
        self.source().wf()
    }

    fn scan(&mut self, until: Option<usize>) -> (r: Option<((T::Item,), usize)>) {
        match self.scanner.scan(until) {
            Some((item, id)) => Some(((item,), id)),
            None => None,
        }
    }
}

/// Joins a scanner with a scanner of tuples and hands out one flat tuple:
/// the first scanner's item followed by the elements of the second's.
pub struct ComponentScannerCons<H, T> {
    join: ComponentScannerJoin<H, T>,
}

impl<H, T> ComponentScannerCons<H, T> {
    /// The join of the first scanner with the scanner of tuples.
    pub closed spec fn joined(&self) -> ComponentScannerJoin<H, T> {
        self.join
    }
}

impl<H, T> ComponentScanner for ComponentScannerCons<H, T> where
    H: ComponentScanner,
    T: ComponentScanner,
    T::Item: TuplePrepend<H::Item>,
 {
    type Item = <T::Item as TuplePrepend<H::Item>>::Output;

    open spec fn indices(&self) -> Set<usize> {
        self.joined().indices()
    }

    open spec fn yields(&self, index: usize, item: Self::Item) -> bool {
        exists|head: H::Item, rest: T::Item|
            #![trigger self.joined().yields(index, (head, rest))]
            self.joined().yields(index, (head, rest)) && item == rest.prepended(head)
    }

    open spec fn wf(&self) -> bool {
        self.joined().wf()
    }

    fn scan(&mut self, until: Option<usize>) -> (r: Option<(Self::Item, usize)>) {
        match self.join.scan(until) {
            Some(((head, rest), id)) => {
                assert(old(self).joined().yields(id, (head, rest)));
                let r = Some((rest.prepend(head), id));
                assert(old(self).yields(id, r->Some_0.0));
                r
            },
            None => None,
        }
    }
}

/// A tuple of scanners that can be joined into one scanner of tuples, which
/// has an entry wherever every scanner of the tuple has one.
pub trait ComponentScannerTuple: Sized {
    type JoinScanner: ComponentScanner;

    /// Every scanner of the tuple is consistent.
    spec fn legs_wf(&self) -> bool;

    /// The indices at which every scanner of the tuple has an entry.
    spec fn common_indices(&self) -> Set<usize>;

    /// Whether each element of `items` is what the scanner in the same
    /// place of the tuple hands out for `index`.
    spec fn yields_all(
        &self,
        index: usize,
        items: <Self::JoinScanner as ComponentScanner>::Item,
    ) -> bool;

    /// The scanner that hands out, for each index at which every scanner
    /// of the tuple has an entry, the tuple of their items.
    fn join(self) -> (r: Self::JoinScanner)
        ensures
            self.legs_wf() ==> r.wf(),
            r.indices() == self.common_indices(),
            forall|k: usize, x: <Self::JoinScanner as ComponentScanner>::Item| #[trigger]
                r.yields(k, x) <==> self.yields_all(k, x),
    ;
}

/// Joins a tuple of scanners into one scanner of tuples.
pub fn component_scan_join<T: ComponentScannerTuple>(t: T) -> (r: T::JoinScanner)
    ensures
        t.legs_wf() ==> r.wf(),
        r.indices() == t.common_indices(),
        forall|k: usize, x: <T::JoinScanner as ComponentScanner>::Item| #[trigger]
            r.yields(k, x) <==> t.yields_all(k, x),
{
    t.join()
}

impl<X, A> TuplePrepend<X> for (A,) {
    type Output = (X, A);

    open spec fn prepended(self, head: X) -> (X, A) {
        (head, self.0)
    }

    fn prepend(self, head: X) -> (r: (X, A)) {
        (head, self.0)
    }
}

impl<X, A, B> TuplePrepend<X> for (A, B) {
    type Output = (X, A, B);

    open spec fn prepended(self, head: X) -> (X, A, B) {
        (head, self.0, self.1)
    }

    fn prepend(self, head: X) -> (r: (X, A, B)) {
        (head, self.0, self.1)
    }
}

impl<X, A, B, C> TuplePrepend<X> for (A, B, C) {
    type Output = (X, A, B, C);

    open spec fn prepended(self, head: X) -> (X, A, B, C) {
        (head, self.0, self.1, self.2)
    }

    fn prepend(self, head: X) -> (r: (X, A, B, C)) {
        (head, self.0, self.1, self.2)
    }
}

impl<X, A, B, C, D> TuplePrepend<X> for (A, B, C, D) {
    type Output = (X, A, B, C, D);

    open spec fn prepended(self, head: X) -> (X, A, B, C, D) {
        (head, self.0, self.1, self.2, self.3)
    }

    fn prepend(self, head: X) -> (r: (X, A, B, C, D)) {
        (head, self.0, self.1, self.2, self.3)
    }
}

impl<X, A, B, C, D, E> TuplePrepend<X> for (A, B, C, D, E) {
    type Output = (X, A, B, C, D, E);

    open spec fn prepended(self, head: X) -> (X, A, B, C, D, E) {
        (head, self.0, self.1, self.2, self.3, self.4)
    }

    fn prepend(self, head: X) -> (r: (X, A, B, C, D, E)) {
        (head, self.0, self.1, self.2, self.3, self.4)
    }
}

impl<X, A, B, C, D, E, F> TuplePrepend<X> for (A, B, C, D, E, F) {
    type Output = (X, A, B, C, D, E, F);

    open spec fn prepended(self, head: X) -> (X, A, B, C, D, E, F) {
        (head, self.0, self.1, self.2, self.3, self.4, self.5)
    }

    fn prepend(self, head: X) -> (r: (X, A, B, C, D, E, F)) {
        (head, self.0, self.1, self.2, self.3, self.4, self.5)
    }
}

impl<X, A, B, C, D, E, F, G> TuplePrepend<X> for (A, B, C, D, E, F, G) {
    type Output = (X, A, B, C, D, E, F, G);

    open spec fn prepended(self, head: X) -> (X, A, B, C, D, E, F, G) {
        (head, self.0, self.1, self.2, self.3, self.4, self.5, self.6)
    }

    fn prepend(self, head: X) -> (r: (X, A, B, C, D, E, F, G)) {
        (head, self.0, self.1, self.2, self.3, self.4, self.5, self.6)
    }
}

impl<X, A, B, C, D, E, F, G, H> TuplePrepend<X> for (A, B, C, D, E, F, G, H) {
    type Output = (X, A, B, C, D, E, F, G, H);

    open spec fn prepended(self, head: X) -> (X, A, B, C, D, E, F, G, H) {
        (head, self.0, self.1, self.2, self.3, self.4, self.5, self.6, self.7)
    }

    fn prepend(self, head: X) -> (r: (X, A, B, C, D, E, F, G, H)) {
        (head, self.0, self.1, self.2, self.3, self.4, self.5, self.6, self.7)
    }
}

impl<X, A, B, C, D, E, F, G, H, I> TuplePrepend<X> for (A, B, C, D, E, F, G, H, I) {
    type Output = (X, A, B, C, D, E, F, G, H, I);

    open spec fn prepended(self, head: X) -> (X, A, B, C, D, E, F, G, H, I) {
        (head, self.0, self.1, self.2, self.3, self.4, self.5, self.6, self.7, self.8)
    }

    fn prepend(self, head: X) -> (r: (X, A, B, C, D, E, F, G, H, I)) {
        (head, self.0, self.1, self.2, self.3, self.4, self.5, self.6, self.7, self.8)
    }
}

impl<X, A, B, C, D, E, F, G, H, I, J> TuplePrepend<X> for (A, B, C, D, E, F, G, H, I, J) {
    type Output = (X, A, B, C, D, E, F, G, H, I, J);

    open spec fn prepended(self, head: X) -> (X, A, B, C, D, E, F, G, H, I, J) {
        (
            head, self.0, self.1, self.2, self.3, self.4, self.5, self.6, self.7, self.8,
            self.9,
        )
    }

    fn prepend(self, head: X) -> (r: (X, A, B, C, D, E, F, G, H, I, J)) {
        (
            head, self.0, self.1, self.2, self.3, self.4, self.5, self.6, self.7, self.8,
            self.9,
        )
    }
}

impl<X, A, B, C, D, E, F, G, H, I, J, K> TuplePrepend<X> for (A, B, C, D, E, F, G, H, I, J, K) {
    type Output = (X, A, B, C, D, E, F, G, H, I, J, K);

    open spec fn prepended(self, head: X) -> (X, A, B, C, D, E, F, G, H, I, J, K) {
        (
            head, self.0, self.1, self.2, self.3, self.4, self.5, self.6, self.7, self.8,
            self.9, self.10,
        )
    }

    fn prepend(self, head: X) -> (r: (X, A, B, C, D, E, F, G, H, I, J, K)) {
        (
            head, self.0, self.1, self.2, self.3, self.4, self.5, self.6, self.7, self.8,
            self.9, self.10,
        )
    }
}

impl<X, A, B, C, D, E, F, G, H, I, J, K, L> TuplePrepend<X>
    for (A, B, C, D, E, F, G, H, I, J, K, L)
{
    type Output = (X, A, B, C, D, E, F, G, H, I, J, K, L);

    open spec fn prepended(self, head: X) -> (X, A, B, C, D, E, F, G, H, I, J, K, L) {
        (
            head, self.0, self.1, self.2, self.3, self.4, self.5, self.6, self.7, self.8,
            self.9, self.10, self.11,
        )
    }

    fn prepend(self, head: X) -> (r: (X, A, B, C, D, E, F, G, H, I, J, K, L)) {
        (
            head, self.0, self.1, self.2, self.3, self.4, self.5, self.6, self.7, self.8,
            self.9, self.10, self.11,
        )
    }
}

impl<X, A, B, C, D, E, F, G, H, I, J, K, L, M> TuplePrepend<X>
    for (A, B, C, D, E, F, G, H, I, J, K, L, M)
{
    type Output = (X, A, B, C, D, E, F, G, H, I, J, K, L, M);

    open spec fn prepended(self, head: X) -> (X, A, B, C, D, E, F, G, H, I, J, K, L, M) {
        (
            head, self.0, self.1, self.2, self.3, self.4, self.5, self.6, self.7, self.8,
            self.9, self.10, self.11, self.12,
        )
    }

    fn prepend(self, head: X) -> (r: (X, A, B, C, D, E, F, G, H, I, J, K, L, M)) {
        (
            head, self.0, self.1, self.2, self.3, self.4, self.5, self.6, self.7, self.8,
            self.9, self.10, self.11, self.12,
        )
    }
}

impl<X, A, B, C, D, E, F, G, H, I, J, K, L, M, N> TuplePrepend<X>
    for (A, B, C, D, E, F, G, H, I, J, K, L, M, N)
{
    type Output = (X, A, B, C, D, E, F, G, H, I, J, K, L, M, N);

    open spec fn prepended(self, head: X) -> (X, A, B, C, D, E, F, G, H, I, J, K, L, M, N) {
        (
            head, self.0, self.1, self.2, self.3, self.4, self.5, self.6, self.7, self.8,
            self.9, self.10, self.11, self.12, self.13,
        )
    }

    fn prepend(self, head: X) -> (r: (X, A, B, C, D, E, F, G, H, I, J, K, L, M, N)) {
        (
            head, self.0, self.1, self.2, self.3, self.4, self.5, self.6, self.7, self.8,
            self.9, self.10, self.11, self.12, self.13,
        )
    }
}

impl<X, A, B, C, D, E, F, G, H, I, J, K, L, M, N, O> TuplePrepend<X>
    for (A, B, C, D, E, F, G, H, I, J, K, L, M, N, O)
{
    type Output = (X, A, B, C, D, E, F, G, H, I, J, K, L, M, N, O);

    open spec fn prepended(self, head: X) -> (X, A, B, C, D, E, F, G, H, I, J, K, L, M, N, O) {
        (
            head, self.0, self.1, self.2, self.3, self.4, self.5, self.6, self.7, self.8,
            self.9, self.10, self.11, self.12, self.13, self.14,
        )
    }

    fn prepend(self, head: X) -> (r: (X, A, B, C, D, E, F, G, H, I, J, K, L, M, N, O)) {
        (
            head, self.0, self.1, self.2, self.3, self.4, self.5, self.6, self.7, self.8,
            self.9, self.10, self.11, self.12, self.13, self.14,
        )
    }
}

impl<A: ComponentScanner> ComponentScannerTuple for (A,) {
    type JoinScanner = ComponentScannerSingle<A>;

    open spec fn legs_wf(&self) -> bool {
        self.0.wf()
    }

    open spec fn common_indices(&self) -> Set<usize> {
        self.0.indices()
    }

    open spec fn yields_all(&self, index: usize, items: (A::Item,)) -> bool {
        self.0.yields(index, items.0)
    }

    fn join(self) -> (r: ComponentScannerSingle<A>) {
        ComponentScannerSingle { scanner: self.0 }
    }
}

impl<A, B> ComponentScannerTuple for (A, B) where
    A: ComponentScanner,
    B: ComponentScanner,
 {
    type JoinScanner = ComponentScannerCons<A, <(B,) as ComponentScannerTuple>::JoinScanner>;

    open spec fn legs_wf(&self) -> bool {
        self.0.wf()
            && self.1.wf()
    }

    open spec fn common_indices(&self) -> Set<usize> {
        self.0.indices().intersect(self.1.indices())
    }

    open spec fn yields_all(&self, index: usize, items: (A::Item, B::Item)) -> bool {
        self.0.yields(index, items.0)
            && self.1.yields(index, items.1)
    }

    fn join(self) -> (r: Self::JoinScanner) {
        let rest = (self.1,).join();
        let r = ComponentScannerCons { join: ComponentScannerJoin(self.0, rest) };
        assert(r.indices() =~= self.common_indices());
        assert forall|k: usize, x: (A::Item, B::Item)| #[trigger]
            r.yields(k, x) <==> self.yields_all(k, x) by {
            if self.yields_all(k, x) {
                assert(r.joined().yields(k, (x.0, (x.1,))));
            }
        }
        r
    }
}

impl<A, B, C> ComponentScannerTuple for (A, B, C) where
    A: ComponentScanner,
    B: ComponentScanner,
    C: ComponentScanner,
 {
    type JoinScanner = ComponentScannerCons<A, <(B, C) as ComponentScannerTuple>::JoinScanner>;

    open spec fn legs_wf(&self) -> bool {
        self.0.wf()
            && self.1.wf()
            && self.2.wf()
    }

    open spec fn common_indices(&self) -> Set<usize> {
        self.0.indices().intersect(self.1.indices()).intersect(self.2.indices())
    }

    open spec fn yields_all(&self, index: usize, items: (A::Item, B::Item, C::Item)) -> bool {
        self.0.yields(index, items.0)
            && self.1.yields(index, items.1)
            && self.2.yields(index, items.2)
    }

    fn join(self) -> (r: Self::JoinScanner) {
        let rest = (self.1, self.2).join();
        let r = ComponentScannerCons { join: ComponentScannerJoin(self.0, rest) };
        assert(r.indices() =~= self.common_indices());
        assert forall|k: usize, x: (A::Item, B::Item, C::Item)| #[trigger]
            r.yields(k, x) <==> self.yields_all(k, x) by {
            if self.yields_all(k, x) {
                assert(r.joined().yields(k, (x.0, (x.1, x.2))));
            }
        }
        r
    }
}

impl<A, B, C, D> ComponentScannerTuple for (A, B, C, D) where
    A: ComponentScanner,
    B: ComponentScanner,
    C: ComponentScanner,
    D: ComponentScanner,
 {
    type JoinScanner = ComponentScannerCons<A, <(B, C, D) as ComponentScannerTuple>::JoinScanner>;

    open spec fn legs_wf(&self) -> bool {
        self.0.wf()
            && self.1.wf()
            && self.2.wf()
            && self.3.wf()
    }

    open spec fn common_indices(&self) -> Set<usize> {
        self.0.indices()
            .intersect(self.1.indices())
            .intersect(self.2.indices())
            .intersect(self.3.indices())
    }

    open spec fn yields_all(&self, index: usize, items: (A::Item, B::Item, C::Item, D::Item)) -> bool {
        self.0.yields(index, items.0)
            && self.1.yields(index, items.1)
            && self.2.yields(index, items.2)
            && self.3.yields(index, items.3)
    }

    fn join(self) -> (r: Self::JoinScanner) {
        let rest = (self.1, self.2, self.3).join();
        let r = ComponentScannerCons { join: ComponentScannerJoin(self.0, rest) };
        assert(r.indices() =~= self.common_indices());
        assert forall|k: usize, x: (A::Item, B::Item, C::Item, D::Item)| #[trigger]
            r.yields(k, x) <==> self.yields_all(k, x) by {
            if self.yields_all(k, x) {
                assert(r.joined().yields(k, (x.0, (x.1, x.2, x.3))));
            }
        }
        r
    }
}

impl<A, B, C, D, E> ComponentScannerTuple for (A, B, C, D, E) where
    A: ComponentScanner,
    B: ComponentScanner,
    C: ComponentScanner,
    D: ComponentScanner,
    E: ComponentScanner,
 {
    type JoinScanner = ComponentScannerCons<A, <(B, C, D, E) as ComponentScannerTuple>::JoinScanner>;

    open spec fn legs_wf(&self) -> bool {
        self.0.wf()
            && self.1.wf()
            && self.2.wf()
            && self.3.wf()
            && self.4.wf()
    }

    open spec fn common_indices(&self) -> Set<usize> {
        self.0.indices()
            .intersect(self.1.indices())
            .intersect(self.2.indices())
            .intersect(self.3.indices())
            .intersect(self.4.indices())
    }

    open spec fn yields_all(&self, index: usize, items: (A::Item, B::Item, C::Item, D::Item, E::Item)) -> bool {
        self.0.yields(index, items.0)
            && self.1.yields(index, items.1)
            && self.2.yields(index, items.2)
            && self.3.yields(index, items.3)
            && self.4.yields(index, items.4)
    }

    fn join(self) -> (r: Self::JoinScanner) {
        let rest = (self.1, self.2, self.3, self.4).join();
        let r = ComponentScannerCons { join: ComponentScannerJoin(self.0, rest) };
        assert(r.indices() =~= self.common_indices());
        assert forall|k: usize, x: (A::Item, B::Item, C::Item, D::Item, E::Item)| #[trigger]
            r.yields(k, x) <==> self.yields_all(k, x) by {
            if self.yields_all(k, x) {
                assert(r.joined().yields(k, (x.0, (x.1, x.2, x.3, x.4))));
            }
        }
        r
    }
}

impl<A, B, C, D, E, F> ComponentScannerTuple for (A, B, C, D, E, F) where
    A: ComponentScanner,
    B: ComponentScanner,
    C: ComponentScanner,
    D: ComponentScanner,
    E: ComponentScanner,
    F: ComponentScanner,
 {
    type JoinScanner = ComponentScannerCons<A, <(B, C, D, E, F) as ComponentScannerTuple>::JoinScanner>;

    open spec fn legs_wf(&self) -> bool {
        self.0.wf()
            && self.1.wf()
            && self.2.wf()
            && self.3.wf()
            && self.4.wf()
            && self.5.wf()
    }

    open spec fn common_indices(&self) -> Set<usize> {
        self.0.indices()
            .intersect(self.1.indices())
            .intersect(self.2.indices())
            .intersect(self.3.indices())
            .intersect(self.4.indices())
            .intersect(self.5.indices())
    }

    open spec fn yields_all(&self, index: usize, items: (A::Item, B::Item, C::Item, D::Item, E::Item, F::Item)) -> bool {
        self.0.yields(index, items.0)
            && self.1.yields(index, items.1)
            && self.2.yields(index, items.2)
            && self.3.yields(index, items.3)
            && self.4.yields(index, items.4)
            && self.5.yields(index, items.5)
    }

    fn join(self) -> (r: Self::JoinScanner) {
        let rest = (self.1, self.2, self.3, self.4, self.5).join();
        let r = ComponentScannerCons { join: ComponentScannerJoin(self.0, rest) };
        assert(r.indices() =~= self.common_indices());
        assert forall|k: usize, x: (A::Item, B::Item, C::Item, D::Item, E::Item, F::Item)| #[trigger]
            r.yields(k, x) <==> self.yields_all(k, x) by {
            if self.yields_all(k, x) {
                assert(r.joined().yields(k, (x.0, (x.1, x.2, x.3, x.4, x.5))));
            }
        }
        r
    }
}

impl<A, B, C, D, E, F, G> ComponentScannerTuple for (A, B, C, D, E, F, G) where
    A: ComponentScanner,
    B: ComponentScanner,
    C: ComponentScanner,
    D: ComponentScanner,
    E: ComponentScanner,
    F: ComponentScanner,
    G: ComponentScanner,
 {
    type JoinScanner = ComponentScannerCons<A, <(B, C, D, E, F, G) as ComponentScannerTuple>::JoinScanner>;

    open spec fn legs_wf(&self) -> bool {
        self.0.wf()
            && self.1.wf()
            && self.2.wf()
            && self.3.wf()
            && self.4.wf()
            && self.5.wf()
            && self.6.wf()
    }

    open spec fn common_indices(&self) -> Set<usize> {
        self.0.indices()
            .intersect(self.1.indices())
            .intersect(self.2.indices())
            .intersect(self.3.indices())
            .intersect(self.4.indices())
            .intersect(self.5.indices())
            .intersect(self.6.indices())
    }

    open spec fn yields_all(&self, index: usize, items: (
        A::Item, B::Item, C::Item, D::Item, E::Item, F::Item, G::Item,
    )) -> bool {
        self.0.yields(index, items.0)
            && self.1.yields(index, items.1)
            && self.2.yields(index, items.2)
            && self.3.yields(index, items.3)
            && self.4.yields(index, items.4)
            && self.5.yields(index, items.5)
            && self.6.yields(index, items.6)
    }

    fn join(self) -> (r: Self::JoinScanner) {
        let rest = (self.1, self.2, self.3, self.4, self.5, self.6).join();
        let r = ComponentScannerCons { join: ComponentScannerJoin(self.0, rest) };
        assert(r.indices() =~= self.common_indices());
        assert forall|k: usize, x: (
            A::Item, B::Item, C::Item, D::Item, E::Item, F::Item, G::Item,
        )| #[trigger]
            r.yields(k, x) <==> self.yields_all(k, x) by {
            if self.yields_all(k, x) {
                assert(r.joined().yields(k, (x.0, (x.1, x.2, x.3, x.4, x.5, x.6))));
            }
        }
        r
    }
}

impl<A, B, C, D, E, F, G, H> ComponentScannerTuple for (A, B, C, D, E, F, G, H) where
    A: ComponentScanner,
    B: ComponentScanner,
    C: ComponentScanner,
    D: ComponentScanner,
    E: ComponentScanner,
    F: ComponentScanner,
    G: ComponentScanner,
    H: ComponentScanner,
 {
    type JoinScanner = ComponentScannerCons<A, <(B, C, D, E, F, G, H) as ComponentScannerTuple>::JoinScanner>;

    open spec fn legs_wf(&self) -> bool {
        self.0.wf()
            && self.1.wf()
            && self.2.wf()
            && self.3.wf()
            && self.4.wf()
            && self.5.wf()
            && self.6.wf()
            && self.7.wf()
    }

    open spec fn common_indices(&self) -> Set<usize> {
        self.0.indices()
            .intersect(self.1.indices())
            .intersect(self.2.indices())
            .intersect(self.3.indices())
            .intersect(self.4.indices())
            .intersect(self.5.indices())
            .intersect(self.6.indices())
            .intersect(self.7.indices())
    }

    open spec fn yields_all(&self, index: usize, items: (
        A::Item, B::Item, C::Item, D::Item, E::Item, F::Item, G::Item, H::Item,
    )) -> bool {
        self.0.yields(index, items.0)
            && self.1.yields(index, items.1)
            && self.2.yields(index, items.2)
            && self.3.yields(index, items.3)
            && self.4.yields(index, items.4)
            && self.5.yields(index, items.5)
            && self.6.yields(index, items.6)
            && self.7.yields(index, items.7)
    }

    fn join(self) -> (r: Self::JoinScanner) {
        let rest = (self.1, self.2, self.3, self.4, self.5, self.6, self.7).join();
        let r = ComponentScannerCons { join: ComponentScannerJoin(self.0, rest) };
        assert(r.indices() =~= self.common_indices());
        assert forall|k: usize, x: (
            A::Item, B::Item, C::Item, D::Item, E::Item, F::Item, G::Item, H::Item,
        )| #[trigger]
            r.yields(k, x) <==> self.yields_all(k, x) by {
            if self.yields_all(k, x) {
                assert(r.joined().yields(k, (x.0, (x.1, x.2, x.3, x.4, x.5, x.6, x.7))));
            }
        }
        r
    }
}

impl<A, B, C, D, E, F, G, H, I> ComponentScannerTuple for (A, B, C, D, E, F, G, H, I) where
    A: ComponentScanner,
    B: ComponentScanner,
    C: ComponentScanner,
    D: ComponentScanner,
    E: ComponentScanner,
    F: ComponentScanner,
    G: ComponentScanner,
    H: ComponentScanner,
    I: ComponentScanner,
 {
    type JoinScanner = ComponentScannerCons<A, <(B, C, D, E, F, G, H, I) as ComponentScannerTuple>::JoinScanner>;

    open spec fn legs_wf(&self) -> bool {
        self.0.wf()
            && self.1.wf()
            && self.2.wf()
            && self.3.wf()
            && self.4.wf()
            && self.5.wf()
            && self.6.wf()
            && self.7.wf()
            && self.8.wf()
    }

    open spec fn common_indices(&self) -> Set<usize> {
        self.0.indices()
            .intersect(self.1.indices())
            .intersect(self.2.indices())
            .intersect(self.3.indices())
            .intersect(self.4.indices())
            .intersect(self.5.indices())
            .intersect(self.6.indices())
            .intersect(self.7.indices())
            .intersect(self.8.indices())
    }

    open spec fn yields_all(&self, index: usize, items: (
        A::Item, B::Item, C::Item, D::Item, E::Item, F::Item, G::Item, H::Item, I::Item,
    )) -> bool {
        self.0.yields(index, items.0)
            && self.1.yields(index, items.1)
            && self.2.yields(index, items.2)
            && self.3.yields(index, items.3)
            && self.4.yields(index, items.4)
            && self.5.yields(index, items.5)
            && self.6.yields(index, items.6)
            && self.7.yields(index, items.7)
            && self.8.yields(index, items.8)
    }

    fn join(self) -> (r: Self::JoinScanner) {
        let rest = (self.1, self.2, self.3, self.4, self.5, self.6, self.7, self.8).join();
        let r = ComponentScannerCons { join: ComponentScannerJoin(self.0, rest) };
        assert(r.indices() =~= self.common_indices());
        assert forall|k: usize, x: (
            A::Item, B::Item, C::Item, D::Item, E::Item, F::Item, G::Item, H::Item, I::Item,
        )| #[trigger]
            r.yields(k, x) <==> self.yields_all(k, x) by {
            if self.yields_all(k, x) {
                assert(r.joined().yields(k, (x.0, (x.1, x.2, x.3, x.4, x.5, x.6, x.7, x.8))));
            }
        }
        r
    }
}

impl<A, B, C, D, E, F, G, H, I, J> ComponentScannerTuple for (A, B, C, D, E, F, G, H, I, J) where
    A: ComponentScanner,
    B: ComponentScanner,
    C: ComponentScanner,
    D: ComponentScanner,
    E: ComponentScanner,
    F: ComponentScanner,
    G: ComponentScanner,
    H: ComponentScanner,
    I: ComponentScanner,
    J: ComponentScanner,
 {
    type JoinScanner = ComponentScannerCons<A, <(B, C, D, E, F, G, H, I, J) as ComponentScannerTuple>::JoinScanner>;

    open spec fn legs_wf(&self) -> bool {
        self.0.wf()
            && self.1.wf()
            && self.2.wf()
            && self.3.wf()
            && self.4.wf()
            && self.5.wf()
            && self.6.wf()
            && self.7.wf()
            && self.8.wf()
            && self.9.wf()
    }

    open spec fn common_indices(&self) -> Set<usize> {
        self.0.indices()
            .intersect(self.1.indices())
            .intersect(self.2.indices())
            .intersect(self.3.indices())
            .intersect(self.4.indices())
            .intersect(self.5.indices())
            .intersect(self.6.indices())
            .intersect(self.7.indices())
            .intersect(self.8.indices())
            .intersect(self.9.indices())
    }

    open spec fn yields_all(&self, index: usize, items: (
        A::Item, B::Item, C::Item, D::Item, E::Item, F::Item, G::Item, H::Item, I::Item,
        J::Item,
    )) -> bool {
        self.0.yields(index, items.0)
            && self.1.yields(index, items.1)
            && self.2.yields(index, items.2)
            && self.3.yields(index, items.3)
            && self.4.yields(index, items.4)
            && self.5.yields(index, items.5)
            && self.6.yields(index, items.6)
            && self.7.yields(index, items.7)
            && self.8.yields(index, items.8)
            && self.9.yields(index, items.9)
    }

    fn join(self) -> (r: Self::JoinScanner) {
        let rest = (
            self.1, self.2, self.3, self.4, self.5, self.6, self.7, self.8, self.9,
        ).join();
        let r = ComponentScannerCons { join: ComponentScannerJoin(self.0, rest) };
        assert(r.indices() =~= self.common_indices());
        assert forall|k: usize, x: (
            A::Item, B::Item, C::Item, D::Item, E::Item, F::Item, G::Item, H::Item, I::Item,
            J::Item,
        )| #[trigger]
            r.yields(k, x) <==> self.yields_all(k, x) by {
            if self.yields_all(k, x) {
                assert(r.joined().yields(k, (x.0, (x.1, x.2, x.3, x.4, x.5, x.6, x.7, x.8, x.9))));
            }
        }
        r
    }
}

impl<A, B, C, D, E, F, G, H, I, J, K> ComponentScannerTuple for (A, B, C, D, E, F, G, H, I, J, K) where
    A: ComponentScanner,
    B: ComponentScanner,
    C: ComponentScanner,
    D: ComponentScanner,
    E: ComponentScanner,
    F: ComponentScanner,
    G: ComponentScanner,
    H: ComponentScanner,
    I: ComponentScanner,
    J: ComponentScanner,
    K: ComponentScanner,
 {
    type JoinScanner = ComponentScannerCons<A, <(B, C, D, E, F, G, H, I, J, K) as ComponentScannerTuple>::JoinScanner>;

    open spec fn legs_wf(&self) -> bool {
        self.0.wf()
            && self.1.wf()
            && self.2.wf()
            && self.3.wf()
            && self.4.wf()
            && self.5.wf()
            && self.6.wf()
            && self.7.wf()
            && self.8.wf()
            && self.9.wf()
            && self.10.wf()
    }

    open spec fn common_indices(&self) -> Set<usize> {
        self.0.indices()
            .intersect(self.1.indices())
            .intersect(self.2.indices())
            .intersect(self.3.indices())
            .intersect(self.4.indices())
            .intersect(self.5.indices())
            .intersect(self.6.indices())
            .intersect(self.7.indices())
            .intersect(self.8.indices())
            .intersect(self.9.indices())
            .intersect(self.10.indices())
    }

    open spec fn yields_all(&self, index: usize, items: (
        A::Item, B::Item, C::Item, D::Item, E::Item, F::Item, G::Item, H::Item, I::Item,
        J::Item, K::Item,
    )) -> bool {
        self.0.yields(index, items.0)
            && self.1.yields(index, items.1)
            && self.2.yields(index, items.2)
            && self.3.yields(index, items.3)
            && self.4.yields(index, items.4)
            && self.5.yields(index, items.5)
            && self.6.yields(index, items.6)
            && self.7.yields(index, items.7)
            && self.8.yields(index, items.8)
            && self.9.yields(index, items.9)
            && self.10.yields(index, items.10)
    }

    fn join(self) -> (r: Self::JoinScanner) {
        let rest = (
            self.1, self.2, self.3, self.4, self.5, self.6, self.7, self.8, self.9, self.10,
        ).join();
        let r = ComponentScannerCons { join: ComponentScannerJoin(self.0, rest) };
        assert(r.indices() =~= self.common_indices());
        assert forall|k: usize, x: (
            A::Item, B::Item, C::Item, D::Item, E::Item, F::Item, G::Item, H::Item, I::Item,
            J::Item, K::Item,
        )| #[trigger]
            r.yields(k, x) <==> self.yields_all(k, x) by {
            if self.yields_all(k, x) {
                assert(r.joined().yields(k, (x.0, (
                        x.1, x.2, x.3, x.4, x.5, x.6, x.7, x.8, x.9, x.10,
                    ))));
            }
        }
        r
    }
}

impl<A, B, C, D, E, F, G, H, I, J, K, L> ComponentScannerTuple for (A, B, C, D, E, F, G, H, I, J, K, L) where
    A: ComponentScanner,
    B: ComponentScanner,
    C: ComponentScanner,
    D: ComponentScanner,
    E: ComponentScanner,
    F: ComponentScanner,
    G: ComponentScanner,
    H: ComponentScanner,
    I: ComponentScanner,
    J: ComponentScanner,
    K: ComponentScanner,
    L: ComponentScanner,
 {
    type JoinScanner = ComponentScannerCons<A, <(B, C, D, E, F, G, H, I, J, K, L) as ComponentScannerTuple>::JoinScanner>;

    open spec fn legs_wf(&self) -> bool {
        self.0.wf()
            && self.1.wf()
            && self.2.wf()
            && self.3.wf()
            && self.4.wf()
            && self.5.wf()
            && self.6.wf()
            && self.7.wf()
            && self.8.wf()
            && self.9.wf()
            && self.10.wf()
            && self.11.wf()
    }

    open spec fn common_indices(&self) -> Set<usize> {
        self.0.indices()
            .intersect(self.1.indices())
            .intersect(self.2.indices())
            .intersect(self.3.indices())
            .intersect(self.4.indices())
            .intersect(self.5.indices())
            .intersect(self.6.indices())
            .intersect(self.7.indices())
            .intersect(self.8.indices())
            .intersect(self.9.indices())
            .intersect(self.10.indices())
            .intersect(self.11.indices())
    }

    open spec fn yields_all(&self, index: usize, items: (
        A::Item, B::Item, C::Item, D::Item, E::Item, F::Item, G::Item, H::Item, I::Item,
        J::Item, K::Item, L::Item,
    )) -> bool {
        self.0.yields(index, items.0)
            && self.1.yields(index, items.1)
            && self.2.yields(index, items.2)
            && self.3.yields(index, items.3)
            && self.4.yields(index, items.4)
            && self.5.yields(index, items.5)
            && self.6.yields(index, items.6)
            && self.7.yields(index, items.7)
            && self.8.yields(index, items.8)
            && self.9.yields(index, items.9)
            && self.10.yields(index, items.10)
            && self.11.yields(index, items.11)
    }

    fn join(self) -> (r: Self::JoinScanner) {
        let rest = (
            self.1, self.2, self.3, self.4, self.5, self.6, self.7, self.8, self.9, self.10,
            self.11,
        ).join();
        let r = ComponentScannerCons { join: ComponentScannerJoin(self.0, rest) };
        assert(r.indices() =~= self.common_indices());
        assert forall|k: usize, x: (
            A::Item, B::Item, C::Item, D::Item, E::Item, F::Item, G::Item, H::Item, I::Item,
            J::Item, K::Item, L::Item,
        )| #[trigger]
            r.yields(k, x) <==> self.yields_all(k, x) by {
            if self.yields_all(k, x) {
                assert(r.joined().yields(k, (x.0, (
                        x.1, x.2, x.3, x.4, x.5, x.6, x.7, x.8, x.9, x.10, x.11,
                    ))));
            }
        }
        r
    }
}

impl<A, B, C, D, E, F, G, H, I, J, K, L, M> ComponentScannerTuple for (A, B, C, D, E, F, G, H, I, J, K, L, M) where
    A: ComponentScanner,
    B: ComponentScanner,
    C: ComponentScanner,
    D: ComponentScanner,
    E: ComponentScanner,
    F: ComponentScanner,
    G: ComponentScanner,
    H: ComponentScanner,
    I: ComponentScanner,
    J: ComponentScanner,
    K: ComponentScanner,
    L: ComponentScanner,
    M: ComponentScanner,
 {
    type JoinScanner = ComponentScannerCons<A, <(B, C, D, E, F, G, H, I, J, K, L, M) as ComponentScannerTuple>::JoinScanner>;

    open spec fn legs_wf(&self) -> bool {
        self.0.wf()
            && self.1.wf()
            && self.2.wf()
            && self.3.wf()
            && self.4.wf()
            && self.5.wf()
            && self.6.wf()
            && self.7.wf()
            && self.8.wf()
            && self.9.wf()
            && self.10.wf()
            && self.11.wf()
            && self.12.wf()
    }

    open spec fn common_indices(&self) -> Set<usize> {
        self.0.indices()
            .intersect(self.1.indices())
            .intersect(self.2.indices())
            .intersect(self.3.indices())
            .intersect(self.4.indices())
            .intersect(self.5.indices())
            .intersect(self.6.indices())
            .intersect(self.7.indices())
            .intersect(self.8.indices())
            .intersect(self.9.indices())
            .intersect(self.10.indices())
            .intersect(self.11.indices())
            .intersect(self.12.indices())
    }

    open spec fn yields_all(&self, index: usize, items: (
        A::Item, B::Item, C::Item, D::Item, E::Item, F::Item, G::Item, H::Item, I::Item,
        J::Item, K::Item, L::Item, M::Item,
    )) -> bool {
        self.0.yields(index, items.0)
            && self.1.yields(index, items.1)
            && self.2.yields(index, items.2)
            && self.3.yields(index, items.3)
            && self.4.yields(index, items.4)
            && self.5.yields(index, items.5)
            && self.6.yields(index, items.6)
            && self.7.yields(index, items.7)
            && self.8.yields(index, items.8)
            && self.9.yields(index, items.9)
            && self.10.yields(index, items.10)
            && self.11.yields(index, items.11)
            && self.12.yields(index, items.12)
    }

    fn join(self) -> (r: Self::JoinScanner) {
        let rest = (
            self.1, self.2, self.3, self.4, self.5, self.6, self.7, self.8, self.9, self.10,
            self.11, self.12,
        ).join();
        let r = ComponentScannerCons { join: ComponentScannerJoin(self.0, rest) };
        assert(r.indices() =~= self.common_indices());
        assert forall|k: usize, x: (
            A::Item, B::Item, C::Item, D::Item, E::Item, F::Item, G::Item, H::Item, I::Item,
            J::Item, K::Item, L::Item, M::Item,
        )| #[trigger]
            r.yields(k, x) <==> self.yields_all(k, x) by {
            if self.yields_all(k, x) {
                assert(r.joined().yields(k, (x.0, (
                        x.1, x.2, x.3, x.4, x.5, x.6, x.7, x.8, x.9, x.10, x.11, x.12,
                    ))));
            }
        }
        r
    }
}

impl<A, B, C, D, E, F, G, H, I, J, K, L, M, N> ComponentScannerTuple for (A, B, C, D, E, F, G, H, I, J, K, L, M, N) where
    A: ComponentScanner,
    B: ComponentScanner,
    C: ComponentScanner,
    D: ComponentScanner,
    E: ComponentScanner,
    F: ComponentScanner,
    G: ComponentScanner,
    H: ComponentScanner,
    I: ComponentScanner,
    J: ComponentScanner,
    K: ComponentScanner,
    L: ComponentScanner,
    M: ComponentScanner,
    N: ComponentScanner,
 {
    type JoinScanner = ComponentScannerCons<A, <(B, C, D, E, F, G, H, I, J, K, L, M, N) as ComponentScannerTuple>::JoinScanner>;

    open spec fn legs_wf(&self) -> bool {
        self.0.wf()
            && self.1.wf()
            && self.2.wf()
            && self.3.wf()
            && self.4.wf()
            && self.5.wf()
            && self.6.wf()
            && self.7.wf()
            && self.8.wf()
            && self.9.wf()
            && self.10.wf()
            && self.11.wf()
            && self.12.wf()
            && self.13.wf()
    }

    open spec fn common_indices(&self) -> Set<usize> {
        self.0.indices()
            .intersect(self.1.indices())
            .intersect(self.2.indices())
            .intersect(self.3.indices())
            .intersect(self.4.indices())
            .intersect(self.5.indices())
            .intersect(self.6.indices())
            .intersect(self.7.indices())
            .intersect(self.8.indices())
            .intersect(self.9.indices())
            .intersect(self.10.indices())
            .intersect(self.11.indices())
            .intersect(self.12.indices())
            .intersect(self.13.indices())
    }

    open spec fn yields_all(&self, index: usize, items: (
        A::Item, B::Item, C::Item, D::Item, E::Item, F::Item, G::Item, H::Item, I::Item,
        J::Item, K::Item, L::Item, M::Item, N::Item,
    )) -> bool {
        self.0.yields(index, items.0)
            && self.1.yields(index, items.1)
            && self.2.yields(index, items.2)
            && self.3.yields(index, items.3)
            && self.4.yields(index, items.4)
            && self.5.yields(index, items.5)
            && self.6.yields(index, items.6)
            && self.7.yields(index, items.7)
            && self.8.yields(index, items.8)
            && self.9.yields(index, items.9)
            && self.10.yields(index, items.10)
            && self.11.yields(index, items.11)
            && self.12.yields(index, items.12)
            && self.13.yields(index, items.13)
    }

    fn join(self) -> (r: Self::JoinScanner) {
        let rest = (
            self.1, self.2, self.3, self.4, self.5, self.6, self.7, self.8, self.9, self.10,
            self.11, self.12, self.13,
        ).join();
        let r = ComponentScannerCons { join: ComponentScannerJoin(self.0, rest) };
        assert(r.indices() =~= self.common_indices());
        assert forall|k: usize, x: (
            A::Item, B::Item, C::Item, D::Item, E::Item, F::Item, G::Item, H::Item, I::Item,
            J::Item, K::Item, L::Item, M::Item, N::Item,
        )| #[trigger]
            r.yields(k, x) <==> self.yields_all(k, x) by {
            if self.yields_all(k, x) {
                assert(r.joined().yields(k, (x.0, (
                        x.1, x.2, x.3, x.4, x.5, x.6, x.7, x.8, x.9, x.10, x.11, x.12, x.13,
                    ))));
            }
        }
        r
    }
}

impl<A, B, C, D, E, F, G, H, I, J, K, L, M, N, O> ComponentScannerTuple for (A, B, C, D, E, F, G, H, I, J, K, L, M, N, O) where
    A: ComponentScanner,
    B: ComponentScanner,
    C: ComponentScanner,
    D: ComponentScanner,
    E: ComponentScanner,
    F: ComponentScanner,
    G: ComponentScanner,
    H: ComponentScanner,
    I: ComponentScanner,
    J: ComponentScanner,
    K: ComponentScanner,
    L: ComponentScanner,
    M: ComponentScanner,
    N: ComponentScanner,
    O: ComponentScanner,
 {
    type JoinScanner = ComponentScannerCons<A, <(B, C, D, E, F, G, H, I, J, K, L, M, N, O) as ComponentScannerTuple>::JoinScanner>;

    open spec fn legs_wf(&self) -> bool {
        self.0.wf()
            && self.1.wf()
            && self.2.wf()
            && self.3.wf()
            && self.4.wf()
            && self.5.wf()
            && self.6.wf()
            && self.7.wf()
            && self.8.wf()
            && self.9.wf()
            && self.10.wf()
            && self.11.wf()
            && self.12.wf()
            && self.13.wf()
            && self.14.wf()
    }

    open spec fn common_indices(&self) -> Set<usize> {
        self.0.indices()
            .intersect(self.1.indices())
            .intersect(self.2.indices())
            .intersect(self.3.indices())
            .intersect(self.4.indices())
            .intersect(self.5.indices())
            .intersect(self.6.indices())
            .intersect(self.7.indices())
            .intersect(self.8.indices())
            .intersect(self.9.indices())
            .intersect(self.10.indices())
            .intersect(self.11.indices())
            .intersect(self.12.indices())
            .intersect(self.13.indices())
            .intersect(self.14.indices())
    }

    open spec fn yields_all(&self, index: usize, items: (
        A::Item, B::Item, C::Item, D::Item, E::Item, F::Item, G::Item, H::Item, I::Item,
        J::Item, K::Item, L::Item, M::Item, N::Item, O::Item,
    )) -> bool {
        self.0.yields(index, items.0)
            && self.1.yields(index, items.1)
            && self.2.yields(index, items.2)
            && self.3.yields(index, items.3)
            && self.4.yields(index, items.4)
            && self.5.yields(index, items.5)
            && self.6.yields(index, items.6)
            && self.7.yields(index, items.7)
            && self.8.yields(index, items.8)
            && self.9.yields(index, items.9)
            && self.10.yields(index, items.10)
            && self.11.yields(index, items.11)
            && self.12.yields(index, items.12)
            && self.13.yields(index, items.13)
            && self.14.yields(index, items.14)
    }

    fn join(self) -> (r: Self::JoinScanner) {
        let rest = (
            self.1, self.2, self.3, self.4, self.5, self.6, self.7, self.8, self.9, self.10,
            self.11, self.12, self.13, self.14,
        ).join();
        let r = ComponentScannerCons { join: ComponentScannerJoin(self.0, rest) };
        assert(r.indices() =~= self.common_indices());
        assert forall|k: usize, x: (
            A::Item, B::Item, C::Item, D::Item, E::Item, F::Item, G::Item, H::Item, I::Item,
            J::Item, K::Item, L::Item, M::Item, N::Item, O::Item,
        )| #[trigger]
            r.yields(k, x) <==> self.yields_all(k, x) by {
            if self.yields_all(k, x) {
                assert(r.joined().yields(k, (x.0, (
                        x.1, x.2, x.3, x.4, x.5, x.6, x.7, x.8, x.9, x.10, x.11, x.12, x.13,
                        x.14,
                    ))));
            }
        }
        r
    }
}

impl<A, B, C, D, E, F, G, H, I, J, K, L, M, N, O, P> ComponentScannerTuple for (A, B, C, D, E, F, G, H, I, J, K, L, M, N, O, P) where
    A: ComponentScanner,
    B: ComponentScanner,
    C: ComponentScanner,
    D: ComponentScanner,
    E: ComponentScanner,
    F: ComponentScanner,
    G: ComponentScanner,
    H: ComponentScanner,
    I: ComponentScanner,
    J: ComponentScanner,
    K: ComponentScanner,
    L: ComponentScanner,
    M: ComponentScanner,
    N: ComponentScanner,
    O: ComponentScanner,
    P: ComponentScanner,
 {
    type JoinScanner = ComponentScannerCons<A, <(B, C, D, E, F, G, H, I, J, K, L, M, N, O, P) as ComponentScannerTuple>::JoinScanner>;

    open spec fn legs_wf(&self) -> bool {
        self.0.wf()
            && self.1.wf()
            && self.2.wf()
            && self.3.wf()
            && self.4.wf()
            && self.5.wf()
            && self.6.wf()
            && self.7.wf()
            && self.8.wf()
            && self.9.wf()
            && self.10.wf()
            && self.11.wf()
            && self.12.wf()
            && self.13.wf()
            && self.14.wf()
            && self.15.wf()
    }

    open spec fn common_indices(&self) -> Set<usize> {
        self.0.indices()
            .intersect(self.1.indices())
            .intersect(self.2.indices())
            .intersect(self.3.indices())
            .intersect(self.4.indices())
            .intersect(self.5.indices())
            .intersect(self.6.indices())
            .intersect(self.7.indices())
            .intersect(self.8.indices())
            .intersect(self.9.indices())
            .intersect(self.10.indices())
            .intersect(self.11.indices())
            .intersect(self.12.indices())
            .intersect(self.13.indices())
            .intersect(self.14.indices())
            .intersect(self.15.indices())
    }

    open spec fn yields_all(&self, index: usize, items: (
        A::Item, B::Item, C::Item, D::Item, E::Item, F::Item, G::Item, H::Item, I::Item,
        J::Item, K::Item, L::Item, M::Item, N::Item, O::Item, P::Item,
    )) -> bool {
        self.0.yields(index, items.0)
            && self.1.yields(index, items.1)
            && self.2.yields(index, items.2)
            && self.3.yields(index, items.3)
            && self.4.yields(index, items.4)
            && self.5.yields(index, items.5)
            && self.6.yields(index, items.6)
            && self.7.yields(index, items.7)
            && self.8.yields(index, items.8)
            && self.9.yields(index, items.9)
            && self.10.yields(index, items.10)
            && self.11.yields(index, items.11)
            && self.12.yields(index, items.12)
            && self.13.yields(index, items.13)
            && self.14.yields(index, items.14)
            && self.15.yields(index, items.15)
    }

    fn join(self) -> (r: Self::JoinScanner) {
        let rest = (
            self.1, self.2, self.3, self.4, self.5, self.6, self.7, self.8, self.9, self.10,
            self.11, self.12, self.13, self.14, self.15,
        ).join();
        let r = ComponentScannerCons { join: ComponentScannerJoin(self.0, rest) };
        assert(r.indices() =~= self.common_indices());
        assert forall|k: usize, x: (
            A::Item, B::Item, C::Item, D::Item, E::Item, F::Item, G::Item, H::Item, I::Item,
            J::Item, K::Item, L::Item, M::Item, N::Item, O::Item, P::Item,
        )| #[trigger]
            r.yields(k, x) <==> self.yields_all(k, x) by {
            if self.yields_all(k, x) {
                assert(r.joined().yields(k, (x.0, (
                        x.1, x.2, x.3, x.4, x.5, x.6, x.7, x.8, x.9, x.10, x.11, x.12, x.13,
                        x.14, x.15,
                    ))));
            }
        }
        r
    }
}

} // verus!
