use vstd::prelude::*;

verus! {

/// The indices of `pairs` go up strictly from each pair to the next.
pub open spec fn keys_ascending<T>(pairs: Seq<(usize, T)>) -> bool {
    forall|i: int, j: int| 0 <= i < j < pairs.len() ==> pairs[i].0 < pairs[j].0
}

/// The indices of `pairs` go down strictly from each pair to the next.
pub open spec fn keys_descending<T>(pairs: Seq<(usize, T)>) -> bool {
    forall|i: int, j: int| 0 <= i < j < pairs.len() ==> pairs[i].0 > pairs[j].0
}

/// Whether some pair of `pairs` has the index `key`.
pub open spec fn has_key<T>(pairs: Seq<(usize, T)>, key: usize) -> bool {
    exists|i: int| 0 <= i < pairs.len() && #[trigger] pairs[i].0 == key
}

/// The place of a pair of `pairs` that has the index `key`.
pub open spec fn place_of<T>(pairs: Seq<(usize, T)>, key: usize) -> int {
    choose|i: int| 0 <= i < pairs.len() && #[trigger] pairs[i].0 == key
}

/// The map that `pairs` stand for: from the index of each pair to its
/// second part.
pub open spec fn pair_entries<T>(pairs: Seq<(usize, T)>) -> Map<usize, T> {
    Map::new(|k: usize| has_key(pairs, k), |k: usize| pairs[place_of(pairs, k)].1)
}

/// With indices that differ from pair to pair, each pair is the entry of its
/// index.
pub proof fn lemma_pair_is_entry<T>(pairs: Seq<(usize, T)>, i: int)
    requires
        keys_ascending(pairs) || keys_descending(pairs),
        0 <= i < pairs.len(),
    ensures
        has_key(pairs, pairs[i].0),
        place_of(pairs, pairs[i].0) == i,
        pair_entries(pairs).contains_key(pairs[i].0),
        pair_entries(pairs)[pairs[i].0] == pairs[i].1,
{
    let j = place_of(pairs, pairs[i].0);
    if j < i {
        assert(pairs[j].0 != pairs[i].0);
    } else if i < j {
        assert(pairs[i].0 != pairs[j].0);
    }
}

/// A map that has the second part of each pair at the pair's index, and
/// nothing at any other index, is the map that the pairs stand for.
pub proof fn lemma_entries_are<T>(pairs: Seq<(usize, T)>, entries: Map<usize, T>)
    requires
        keys_ascending(pairs) || keys_descending(pairs),
        forall|i: int|
            0 <= i < pairs.len() ==> entries.contains_key((#[trigger] pairs[i]).0)
                && entries[pairs[i].0] == pairs[i].1,
        forall|k: usize| entries.contains_key(k) ==> has_key(pairs, k),
    ensures
        pair_entries(pairs) == entries,
{
    assert forall|k: usize| pair_entries(pairs).contains_key(k) implies entries.contains_key(
        k,
    ) && pair_entries(pairs)[k] == entries[k] by {
        let i = place_of(pairs, k);
        assert(entries.contains_key(pairs[i].0));
    }
    assert(pair_entries(pairs) =~= entries);
}

/// Putting a new second part into one pair changes the map at that pair's
/// index only.
pub proof fn lemma_update<T>(pairs: Seq<(usize, T)>, pos: int, value: T)
    requires
        keys_ascending(pairs),
        0 <= pos < pairs.len(),
    ensures
        keys_ascending(pairs.update(pos, (pairs[pos].0, value))),
        pair_entries(pairs.update(pos, (pairs[pos].0, value))) == pair_entries(pairs).insert(
            pairs[pos].0,
            value,
        ),
{
    let after = pairs.update(pos, (pairs[pos].0, value));
    let entries = pair_entries(pairs).insert(pairs[pos].0, value);
    assert(keys_ascending(after)) by {
        assert forall|i: int, j: int| 0 <= i < j < after.len() implies after[i].0
            < after[j].0 by {
            assert(pairs[i].0 < pairs[j].0);
        }
    }
    assert forall|k: usize| entries.contains_key(k) implies has_key(after, k) by {
        if k == pairs[pos].0 {
            assert(after[pos].0 == k);
        } else {
            let i = place_of(pairs, k);
            assert(after[i].0 == k);
        }
    }
    assert forall|i: int| 0 <= i < after.len() implies entries.contains_key(
        (#[trigger] after[i]).0,
    ) && entries[after[i].0] == after[i].1 by {
        lemma_pair_is_entry(pairs, i);
        if i < pos {
            assert(pairs[i].0 < pairs[pos].0);
        } else if i > pos {
            assert(pairs[pos].0 < pairs[i].0);
        }
    }
    lemma_entries_are(after, entries);
}

/// A place before which all indices are smaller than `key`, and from which
/// on they are larger, shows that no pair has the index `key`.
pub proof fn lemma_absent<T>(pairs: Seq<(usize, T)>, pos: int, key: usize)
    requires
        0 <= pos <= pairs.len(),
        forall|i: int| 0 <= i < pos ==> (#[trigger] pairs[i]).0 < key,
        forall|i: int| pos <= i < pairs.len() ==> (#[trigger] pairs[i]).0 > key,
    ensures
        !has_key(pairs, key),
        !pair_entries(pairs).contains_key(key),
{
    if has_key(pairs, key) {
        let i = place_of(pairs, key);
        if i < pos {
            assert(pairs[i].0 < key);
        } else {
            assert(pairs[i].0 > key);
        }
    }
}

/// Putting a pair in at the place that keeps the indices in order adds its
/// index to the map.
pub proof fn lemma_insert<T>(pairs: Seq<(usize, T)>, pos: int, key: usize, value: T)
    requires
        keys_ascending(pairs),
        0 <= pos <= pairs.len(),
        forall|i: int| 0 <= i < pos ==> (#[trigger] pairs[i]).0 < key,
        forall|i: int| pos <= i < pairs.len() ==> (#[trigger] pairs[i]).0 > key,
    ensures
        keys_ascending(pairs.insert(pos, (key, value))),
        pair_entries(pairs.insert(pos, (key, value))) == pair_entries(pairs).insert(key, value),
{
    let after = pairs.insert(pos, (key, value));
    let entries = pair_entries(pairs).insert(key, value);
    assert(keys_ascending(after)) by {
        assert forall|i: int, j: int| 0 <= i < j < after.len() implies after[i].0
            < after[j].0 by {
            if j < pos {
                assert(pairs[i].0 < pairs[j].0);
            } else if j == pos {
                assert(pairs[i].0 < key);
            } else if i < pos {
                assert(pairs[i].0 < key);
                assert(pairs[j - 1].0 > key);
            } else if i == pos {
                assert(pairs[j - 1].0 > key);
            } else {
                assert(pairs[i - 1].0 < pairs[j - 1].0);
            }
        }
    }
    assert forall|k: usize| entries.contains_key(k) implies has_key(after, k) by {
        if k == key {
            assert(after[pos].0 == k);
        } else {
            let i = place_of(pairs, k);
            if i < pos {
                assert(after[i].0 == k);
            } else {
                assert(after[i + 1].0 == k);
            }
        }
    }
    assert forall|i: int| 0 <= i < after.len() implies entries.contains_key(
        (#[trigger] after[i]).0,
    ) && entries[after[i].0] == after[i].1 by {
        if i < pos {
            lemma_pair_is_entry(pairs, i);
            assert(pairs[i].0 < key);
        } else if i > pos {
            lemma_pair_is_entry(pairs, i - 1);
            assert(pairs[i - 1].0 > key);
        }
    }
    lemma_entries_are(after, entries);
}

/// Taking a pair out takes its index out of the map.
pub proof fn lemma_remove<T>(pairs: Seq<(usize, T)>, pos: int)
    requires
        keys_ascending(pairs),
        0 <= pos < pairs.len(),
    ensures
        keys_ascending(pairs.remove(pos)),
        pair_entries(pairs.remove(pos)) == pair_entries(pairs).remove(pairs[pos].0),
{
    let after = pairs.remove(pos);
    let entries = pair_entries(pairs).remove(pairs[pos].0);
    assert(keys_ascending(after)) by {
        assert forall|i: int, j: int| 0 <= i < j < after.len() implies after[i].0
            < after[j].0 by {
            let a = if i < pos { i } else { i + 1 };
            let b = if j < pos { j } else { j + 1 };
            assert(pairs[a].0 < pairs[b].0);
        }
    }
    assert forall|k: usize| entries.contains_key(k) implies has_key(after, k) by {
        let i = place_of(pairs, k);
        if i < pos {
            assert(after[i].0 == k);
        } else {
            assert(after[i - 1].0 == k);
        }
    }
    assert forall|i: int| 0 <= i < after.len() implies entries.contains_key(
        (#[trigger] after[i]).0,
    ) && entries[after[i].0] == after[i].1 by {
        let a = if i < pos { i } else { i + 1 };
        lemma_pair_is_entry(pairs, a);
        if a < pos {
            assert(pairs[a].0 < pairs[pos].0);
        } else {
            assert(pairs[pos].0 < pairs[a].0);
        }
    }
    lemma_entries_are(after, entries);
}

/// The first place at or after `start` whose index is at least `key`.
pub(crate) fn lower_bound<T>(pairs: &[(usize, T)], start: usize, key: usize) -> (pos: usize)
    requires
        keys_ascending(pairs@),
        start <= pairs@.len(),
    ensures
        start <= pos <= pairs@.len(),
        forall|i: int| start <= i < pos ==> (#[trigger] pairs@[i]).0 < key,
        forall|i: int| pos <= i < pairs@.len() ==> (#[trigger] pairs@[i]).0 >= key,
{
    let mut lo: usize = start;
    let mut hi: usize = pairs.len();
    while lo < hi
        invariant
            keys_ascending(pairs@),
            start <= lo <= hi <= pairs@.len(),
            forall|i: int| start <= i < lo ==> (#[trigger] pairs@[i]).0 < key,
            forall|i: int| hi <= i < pairs@.len() ==> (#[trigger] pairs@[i]).0 >= key,
        decreases hi - lo,
    {
        let mid = lo + (hi - lo) / 2;
        if pairs[mid].0 < key {
            assert forall|i: int| start <= i < mid + 1 implies (#[trigger] pairs@[i]).0 < key by {
                if i < mid {
                    assert(pairs@[i].0 < pairs@[mid as int].0);
                }
            }
            lo = mid + 1;
        } else {
            assert forall|i: int| mid <= i < pairs@.len() implies (#[trigger] pairs@[i]).0
                >= key by {
                if i > mid {
                    assert(pairs@[mid as int].0 < pairs@[i].0);
                }
            }
            hi = mid;
        }
    }
    lo
}

/// Splits the pairs into their second parts, each lent for writing beside
/// its index, the pair with the largest index first. Whatever is written
/// to a second part becomes the second part of its pair; the indices stay.
pub(crate) fn split_values<'a, T>(pairs: &'a mut [(usize, T)]) -> (items: Vec<(usize, &'a mut T)>)
    ensures
        items@.len() == old(pairs)@.len(),
        final(pairs)@.len() == old(pairs)@.len(),
        forall|i: int|
            0 <= i < items@.len() ==> {
                &&& (#[trigger] items@[i]).0 == old(pairs)@[items@.len() - 1 - i].0
                &&& *items@[i].1 == old(pairs)@[items@.len() - 1 - i].1
                &&& final(pairs)@[items@.len() - 1 - i] == (items@[i].0, *final(items@[i].1))
            },
{
    let mut items: Vec<(usize, &'a mut T)> = Vec::new();
    let mut rest: &'a mut [(usize, T)] = pairs;
    let ghost whole = rest;
    let ghost total = rest@.len() as int;
    while rest.len() > 0
        invariant
            total == old(pairs)@.len(),
            items@.len() + rest@.len() == total,
            rest@ == old(pairs)@.take(rest@.len() as int),
            forall|i: int|
                0 <= i < items@.len() ==> {
                    &&& (#[trigger] items@[i]).0 == old(pairs)@[total - 1 - i].0
                    &&& *items@[i].1 == old(pairs)@[total - 1 - i].1
                },
            final(whole)@.len() == final(rest)@.len() + items@.len(),
            forall|i: int|
                0 <= i < items@.len() ==> final(whole)@[final(whole)@.len() - 1 - i] == (
                    (#[trigger] items@[i]).0,
                    *final(items@[i].1),
                ),
            forall|i: int|
                0 <= i < final(rest)@.len() ==> final(whole)@[i] == #[trigger] final(rest)@[i],
        decreases rest@.len(),
    {
        let n = rest.len();
        let ghost prev = rest;
        let ghost prev_items = items@;
        let (head, tail) = rest.split_at_mut(n - 1);
        let ghost last = tail;
        rest = head;
        match tail.first_mut() {
            Some(pair) => {
                let ghost slot = pair;
                let key = pair.0;
                let value = &mut pair.1;
                items.push((key, value));
                proof {
                    let lent = items@[prev_items.len() as int].1;
                    assert(final(last)@.len() == 1);
                    assert(*final(slot) == (key, *final(lent)));
                    assert(final(prev)@ =~= final(rest)@ + final(last)@);
                    assert(final(prev)@[final(rest)@.len() as int] == (key, *final(lent)));
                    assert forall|i: int| 0 <= i < items@.len() implies final(whole)@[final(whole)@.len() - 1 - i] == ((#[trigger] items@[i]).0, *final(items@[i].1)) by {
                        if i < prev_items.len() {
                            assert(items@[i] == prev_items[i]);
                        } else {
                            assert(final(whole)@[final(prev)@.len() - 1] == final(prev)@[final(prev)@.len() - 1]);
                        }
                    }
                    assert forall|i: int| 0 <= i < final(rest)@.len() implies final(whole)@[i]
                        == #[trigger] final(rest)@[i] by {
                        assert(final(whole)@[i] == final(prev)@[i]);
                    }
                }
            },
            None => {},
        }
    }
    items
}

/// Splits the map that the pairs stand for into its values, each lent for
/// writing beside its index, the one with the largest index first. Whatever
/// is written to a value becomes the value of its index; the indices stay.
pub(crate) fn split_entries<'a, T>(pairs: &'a mut [(usize, T)]) -> (items: Vec<(usize, &'a mut T)>)
    requires
        keys_ascending(old(pairs)@),
    ensures
        keys_descending(items@),
        keys_ascending(final(pairs)@),
        final(pairs)@.len() == old(pairs)@.len(),
        forall|i: int|
            0 <= i < old(pairs)@.len() ==> (#[trigger] final(pairs)@[i]).0 == old(pairs)@[i].0,
        pair_entries(final(pairs)@).dom() == pair_entries(old(pairs)@).dom(),
        forall|k: usize| has_key(items@, k) <==> pair_entries(old(pairs)@).contains_key(k),
        forall|k: usize| #[trigger]
            has_key(items@, k) ==> {
                &&& *items@[place_of(items@, k)].1 == pair_entries(old(pairs)@)[k]
                &&& *final(items@[place_of(items@, k)].1) == pair_entries(final(pairs)@)[k]
            },
{
    let ghost lent = pairs;
    let items = split_values(pairs);
    proof {
        let n = items@.len() as int;
        let before = old(pairs)@;
        let after = final(lent)@;
        assert forall|i: int| 0 <= i < n implies (#[trigger] after[i]).0 == before[i].0 by {
            assert(after[n - 1 - (n - 1 - i)].0 == items@[n - 1 - i].0);
        }
        assert(keys_ascending(after)) by {
            assert forall|i: int, j: int| 0 <= i < j < n implies after[i].0 < after[j].0 by {
                assert(after[i].0 == before[i].0);
                assert(after[j].0 == before[j].0);
                assert(before[i].0 < before[j].0);
            }
        }
        assert(keys_descending(items@)) by {
            assert forall|i: int, j: int| 0 <= i < j < n implies items@[i].0 > items@[j].0 by {
                assert(before[n - 1 - j].0 < before[n - 1 - i].0);
            }
        }
        assert forall|k: usize| has_key(items@, k) <==> has_key(before, k) by {
            if has_key(items@, k) {
                let i = place_of(items@, k);
                assert(before[n - 1 - i].0 == k);
            }
            if has_key(before, k) {
                let i = place_of(before, k);
                assert(items@[n - 1 - i].0 == k);
            }
        }
        assert forall|k: usize| has_key(after, k) <==> has_key(before, k) by {
            if has_key(after, k) {
                let i = place_of(after, k);
                assert(before[i].0 == k);
            }
            if has_key(before, k) {
                let i = place_of(before, k);
                assert(after[i].0 == k);
            }
        }
        assert(pair_entries(after).dom() =~= pair_entries(before).dom());
        assert forall|k: usize| #[trigger] has_key(items@, k) implies {
            &&& *items@[place_of(items@, k)].1 == pair_entries(before)[k]
            &&& *final(items@[place_of(items@, k)].1) == pair_entries(after)[k]
        } by {
            let i = place_of(items@, k);
            lemma_pair_is_entry(before, n - 1 - i);
            lemma_pair_is_entry(after, n - 1 - i);
            assert(after[n - 1 - i] == (items@[i].0, *final(items@[i].1)));
        }
    }
    items
}

/// The indices of the first `n` pairs.
pub open spec fn keys_before<T>(pairs: Seq<(usize, T)>, n: int) -> Set<usize> {
    Set::new(|k: usize| exists|j: int| 0 <= j < n && j < pairs.len() && (#[trigger] pairs[j]).0 == k)
}

/// The indices of the first `n + 1` pairs are those of the first `n` and
/// that of the next one, which is not among them.
pub proof fn lemma_keys_before_next<T>(pairs: Seq<(usize, T)>, n: int)
    requires
        keys_ascending(pairs),
        0 <= n < pairs.len(),
    ensures
        keys_before(pairs, n + 1) == keys_before(pairs, n).insert(pairs[n].0),
        !keys_before(pairs, n).contains(pairs[n].0),
{
    assert forall|k: usize| keys_before(pairs, n + 1).contains(k) implies keys_before(
        pairs,
        n,
    ).insert(pairs[n].0).contains(k) by {
        let j = choose|j: int| 0 <= j < n + 1 && j < pairs.len() && (#[trigger] pairs[j]).0 == k;
        if j < n {
            assert(pairs[j].0 == k);
        }
    }
    assert forall|k: usize| keys_before(pairs, n).insert(pairs[n].0).contains(
        k,
    ) implies keys_before(pairs, n + 1).contains(k) by {
        if k == pairs[n].0 {
            assert(pairs[n].0 == k);
        } else {
            let j = choose|j: int| 0 <= j < n && j < pairs.len() && (#[trigger] pairs[j]).0 == k;
            assert(pairs[j].0 == k);
        }
    }
    if keys_before(pairs, n).contains(pairs[n].0) {
        let j = choose|j: int|
            0 <= j < n && j < pairs.len() && (#[trigger] pairs[j]).0 == pairs[n].0;
        assert(pairs[j].0 < pairs[n].0);
    }
    assert(keys_before(pairs, n + 1) =~= keys_before(pairs, n).insert(pairs[n].0));
}

/// The indices of all pairs are the indices of the map that the pairs
/// stand for.
pub proof fn lemma_keys_before_all<T>(pairs: Seq<(usize, T)>)
    ensures
        keys_before(pairs, pairs.len() as int) == pair_entries(pairs).dom(),
{
    assert forall|k: usize| keys_before(pairs, pairs.len() as int).contains(k) implies has_key(
        pairs,
        k,
    ) by {
        let j = choose|j: int|
            0 <= j < pairs.len() && j < pairs.len() && (#[trigger] pairs[j]).0 == k;
        assert(pairs[j].0 == k);
    }
    assert forall|k: usize| has_key(pairs, k) implies keys_before(
        pairs,
        pairs.len() as int,
    ).contains(k) by {
        let j = place_of(pairs, k);
        assert(pairs[j].0 == k);
    }
    assert(keys_before(pairs, pairs.len() as int) =~= pair_entries(pairs).dom());
}

/// A place before which all indices are smaller than `key`, and from which
/// on none is smaller, and which does not hold `key`, shows that no pair has
/// the index `key`.
pub proof fn lemma_not_found<T>(pairs: Seq<(usize, T)>, pos: int, key: usize)
    requires
        keys_ascending(pairs),
        0 <= pos <= pairs.len(),
        forall|i: int| 0 <= i < pos ==> (#[trigger] pairs[i]).0 < key,
        forall|i: int| pos <= i < pairs.len() ==> (#[trigger] pairs[i]).0 >= key,
        pos == pairs.len() || pairs[pos].0 != key,
    ensures
        !pair_entries(pairs).contains_key(key),
        forall|i: int| pos <= i < pairs.len() ==> (#[trigger] pairs[i]).0 > key,
{
    assert forall|i: int| pos <= i < pairs.len() implies (#[trigger] pairs[i]).0 > key by {
        if i > pos {
            assert(pairs[pos].0 < pairs[i].0);
        }
    }
    lemma_absent(pairs, pos, key);
}

} // verus!
