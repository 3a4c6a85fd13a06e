use simplecs::component::ComponentStorage;
use simplecs::component_scanner::{
    component_scan_join, ComponentScanner, ComponentScannerCombine, ComponentSingletonError,
};
use simplecs::dense_component::DenseComponentStorage;
use simplecs::sparse_component::SparseComponentStorage;

fn storage_with<S>(indices: &[usize]) -> S
where
    S: for<'a> ComponentStorage<'a, Component = i32>,
{
    let mut storage = S::default();
    for &i in indices {
        storage.insert(i, i as i32);
    }
    storage
}

fn join_case<S>()
where
    S: for<'a> ComponentStorage<'a, Component = i32>,
{
    let mut compa = S::default();
    let mut compb = S::default();

    compa.insert(1, 1);
    compa.insert(2, 2);
    compa.insert(3, 3);
    compa.insert(5, 5);
    compa.insert(6, 6);
    compa.insert(7, 7);
    compa.insert(9, 9);

    compb.insert(2, 2);
    compb.insert(4, 4);
    compb.insert(6, 6);
    compb.insert(9, 9);

    let values = component_scan_join((compa.scan(), compb.scan())).iter().collect();
    assert_eq!(values, vec![(&2, &2), (&6, &6), (&9, &9)]);

    let mut value_scan = component_scan_join((compa.scan(), compb.scan()));
    assert_eq!(value_scan.scan(None), Some(((&2, &2), 2)));
    assert_eq!(value_scan.scan(Some(7)), Some(((&9, &9), 9)));
}

#[test]
fn test_join() {
    join_case::<SparseComponentStorage<i32>>();
    join_case::<DenseComponentStorage<i32>>();
}

fn opt_case<S>()
where
    S: for<'a> ComponentStorage<'a, Component = i32>,
{
    let mut comp = S::default();
    comp.insert(1, 1);
    comp.insert(3, 3);
    comp.insert(5, 5);
    comp.insert(6, 6);

    let values = comp.scan().opt().iter().take(8);
    assert_eq!(
        values,
        vec![None, Some(&1), None, Some(&3), None, Some(&5), Some(&6), None]
    );

    let mut value_scan = comp.scan().opt();
    assert_eq!(value_scan.scan(Some(2)), Some((None, 2)));
    assert_eq!(value_scan.scan(Some(5)), Some((Some(&5), 5)));
    assert_eq!(value_scan.scan(None), Some((Some(&6), 6)));
    assert_eq!(value_scan.scan(None), Some((None, 7)));
}

#[test]
fn test_opt() {
    opt_case::<SparseComponentStorage<i32>>();
    opt_case::<DenseComponentStorage<i32>>();
}

fn limit_case<S>()
where
    S: for<'a> ComponentStorage<'a, Component = i32>,
{
    let mut compa = S::default();
    let mut compb = S::default();

    compa.insert(1, 1);
    compa.insert(2, 2);
    compa.insert(3, 3);
    compa.insert(5, 5);
    compa.insert(6, 6);
    compa.insert(7, 7);
    compa.insert(9, 9);

    compb.insert(2, 2);
    compb.insert(4, 4);
    compb.insert(6, 6);
    compb.insert(9, 9);

    let values = compa.scan().limit(compb.scan()).iter().collect();
    assert_eq!(values, vec![&2, &6, &9]);

    let mut value_scan = compa.scan().limit(compb.scan());
    assert_eq!(value_scan.scan(Some(3)), Some((&6, 6)));
    assert_eq!(value_scan.scan(None), Some((&9, 9)));
}

#[test]
fn test_limit() {
    limit_case::<SparseComponentStorage<i32>>();
    limit_case::<DenseComponentStorage<i32>>();
}

fn not_case<S>()
where
    S: for<'a> ComponentStorage<'a, Component = i32>,
{
    let mut compa = S::default();
    let mut compb = S::default();

    compa.insert(1, 1);
    compa.insert(2, 2);
    compa.insert(3, 3);
    compa.insert(5, 5);
    compa.insert(6, 6);
    compa.insert(7, 7);
    compa.insert(9, 9);

    compb.insert(2, 2);
    compb.insert(4, 4);
    compb.insert(6, 6);

    let values = compa.scan().not(compb.scan()).iter().collect();
    assert_eq!(values, vec![&1, &3, &5, &7, &9]);

    let mut value_scan = compa.scan().not(compb.scan());

    assert_eq!(value_scan.scan(Some(2)), Some((&3, 3)));
    assert_eq!(value_scan.scan(None), Some((&5, 5)));
    assert_eq!(value_scan.scan(Some(8)), Some((&9, 9)));
}

#[test]
fn test_not() {
    not_case::<SparseComponentStorage<i32>>();
    not_case::<DenseComponentStorage<i32>>();
}

fn dynamic_case<S>()
where
    S: for<'a> ComponentStorage<'a, Component = i32>,
{
    let mut compa = S::default();
    let mut compb = S::default();

    compa.insert(1, 1);
    compa.insert(2, 2);
    compa.insert(3, 3);
    compa.insert(5, 5);
    compa.insert(6, 6);
    compa.insert(7, 7);

    compb.insert(2, 2);
    compb.insert(4, 4);
    compb.insert(6, 6);

    let mut value_scan: Box<dyn ComponentScanner<Item = _>> = Box::new(compa.scan());
    value_scan = Box::new(value_scan.not(compb.scan()));

    assert_eq!(value_scan.scan(Some(2)), Some((&3, 3)));
    assert_eq!(value_scan.scan(None), Some((&5, 5)));
    assert_eq!(value_scan.scan(Some(6)), Some((&7, 7)));
}

// A boxed scanner is a scanner, so that a query can be put together at run
// time.
#[test]
fn test_dynamic() {
    dynamic_case::<SparseComponentStorage<i32>>();
    dynamic_case::<DenseComponentStorage<i32>>();
}

fn scan_is_sorted_case<S>()
where
    S: for<'a> ComponentStorage<'a, Component = i32>,
{
    let storage: S = storage_with(&[9, 1, 7, 3, 2]);
    let values = storage.scan().iter().collect();
    assert_eq!(values, vec![&1, &2, &3, &7, &9]);

    let mut scanner = storage.scan();
    let mut last: Option<usize> = None;
    while let Some((_, index)) = scanner.scan(None) {
        if let Some(previous) = last {
            assert!(index > previous);
        }
        last = Some(index);
    }
    assert_eq!(last, Some(9));
    assert_eq!(scanner.scan(None), None);
    assert_eq!(scanner.scan(Some(0)), None);
}

#[test]
fn scan_hands_out_indices_in_ascending_order() {
    scan_is_sorted_case::<SparseComponentStorage<i32>>();
    scan_is_sorted_case::<DenseComponentStorage<i32>>();
}

fn scan_until_case<S>()
where
    S: for<'a> ComponentStorage<'a, Component = i32>,
{
    let storage: S = storage_with(&[1, 4, 8]);
    let mut scanner = storage.scan();
    assert_eq!(scanner.scan(Some(4)), Some((&4, 4)));
    // A bound below what was passed does not move the scanner back.
    assert_eq!(scanner.scan(Some(0)), Some((&8, 8)));
    assert_eq!(scanner.scan(Some(2)), None);

    let mut scanner = storage.scan();
    assert_eq!(scanner.scan(Some(9)), None);
    assert_eq!(scanner.scan(None), None);

    let mut scanner = storage.scan();
    assert_eq!(scanner.scan(Some(usize::MAX)), None);
}

#[test]
fn scan_until_skips_and_never_goes_back() {
    scan_until_case::<SparseComponentStorage<i32>>();
    scan_until_case::<DenseComponentStorage<i32>>();
}

fn opt_characteristic_case<S>()
where
    S: for<'a> ComponentStorage<'a, Component = i32>,
{
    let storage: S = storage_with(&[0, 2, 3]);
    let values = storage.scan().opt().iter().take(4);
    assert_eq!(values, vec![Some(&0), None, Some(&2), Some(&3)]);

    let empty = S::default();
    let values = empty.scan().opt().iter().take(3);
    assert_eq!(values, vec![None, None, None]);

    let mut scanner = storage.scan().opt();
    assert_eq!(scanner.scan(Some(usize::MAX)), Some((None, usize::MAX)));
    assert_eq!(scanner.scan(None), None);
}

#[test]
fn opt_has_an_entry_at_every_index() {
    opt_characteristic_case::<SparseComponentStorage<i32>>();
    opt_characteristic_case::<DenseComponentStorage<i32>>();
}

fn join_intersection_case<A, B>()
where
    A: for<'a> ComponentStorage<'a, Component = i32>,
    B: for<'a> ComponentStorage<'a, Component = i32>,
{
    let a: A = storage_with(&[0, 1, 2, 5, 8]);
    let mut b = B::default();
    b.insert(1, 10);
    b.insert(3, 30);
    b.insert(5, 50);
    b.insert(9, 90);
    let values = component_scan_join((a.scan(), b.scan())).iter().collect();
    assert_eq!(values, vec![(&1, &10), (&5, &50)]);
    let values = component_scan_join((b.scan(), a.scan())).iter().collect();
    assert_eq!(values, vec![(&10, &1), (&50, &5)]);

    let limited = a.scan().limit(b.scan()).iter().collect();
    let mut firsts = Vec::new();
    for (x, _) in component_scan_join((a.scan(), b.scan())).iter().collect() {
        firsts.push(x);
    }
    assert_eq!(limited, firsts);

    let rest = a.scan().not(b.scan()).iter().collect();
    assert_eq!(rest, vec![&0, &2, &8]);

    let empty = B::default();
    assert_eq!(a.scan().not(empty.scan()).iter().collect(), vec![&0, &1, &2, &5, &8]);
    assert_eq!(component_scan_join((a.scan(), empty.scan())).iter().collect().len(), 0);
}

#[test]
fn join_limit_and_not_follow_the_sets_of_indices() {
    join_intersection_case::<DenseComponentStorage<i32>, DenseComponentStorage<i32>>();
    join_intersection_case::<DenseComponentStorage<i32>, SparseComponentStorage<i32>>();
    join_intersection_case::<SparseComponentStorage<i32>, DenseComponentStorage<i32>>();
    join_intersection_case::<SparseComponentStorage<i32>, SparseComponentStorage<i32>>();
}

#[test]
fn join_of_one_three_and_four_scanners() {
    let a: DenseComponentStorage<i32> = storage_with(&[1, 2, 3, 4]);
    let b: SparseComponentStorage<i32> = storage_with(&[2, 3, 4, 5]);
    let c: DenseComponentStorage<i32> = storage_with(&[3, 4, 6]);
    let d: SparseComponentStorage<i32> = storage_with(&[0, 4]);

    assert_eq!(
        component_scan_join((a.scan(),)).iter().collect(),
        vec![(&1,), (&2,), (&3,), (&4,)]
    );
    assert_eq!(
        component_scan_join((a.scan(), b.scan(), c.scan())).iter().collect(),
        vec![(&3, &3, &3), (&4, &4, &4)]
    );
    assert_eq!(
        component_scan_join((a.scan(), b.scan(), c.scan(), d.scan())).iter().collect(),
        vec![(&4, &4, &4, &4)]
    );
    assert_eq!(
        component_scan_join((a.scan(), b.scan().opt(), d.scan().opt())).iter().collect(),
        vec![
            (&1, None, None),
            (&2, Some(&2), None),
            (&3, Some(&3), None),
            (&4, Some(&4), Some(&4))
        ]
    );
}

#[test]
fn map_changes_items_and_keeps_indices() {
    let a: DenseComponentStorage<i32> = storage_with(&[1, 4]);
    let mut scanner = a.scan().map(|x: &i32| *x * 10);
    assert_eq!(scanner.scan(None), Some((10, 1)));
    assert_eq!(scanner.scan(None), Some((40, 4)));
    assert_eq!(scanner.scan(None), None);
}

#[test]
fn singleton_tells_none_one_and_many_apart() {
    let none: DenseComponentStorage<i32> = storage_with(&[]);
    let one: DenseComponentStorage<i32> = storage_with(&[7]);
    let many: SparseComponentStorage<i32> = storage_with(&[7, 8]);
    assert_eq!(none.scan().singleton(), Err(ComponentSingletonError::Missing));
    assert_eq!(one.scan().singleton(), Ok(&7));
    assert_eq!(many.scan().singleton(), Err(ComponentSingletonError::Multiple));
    assert_eq!(
        ComponentSingletonError::Missing.message(),
        "no such singleton entry in scan"
    );
    assert_eq!(
        ComponentSingletonError::Multiple.message(),
        "multiple entries found in singleton query"
    );
}

fn storage_case<S>()
where
    S: for<'a> ComponentStorage<'a, Component = i32>,
{
    let mut storage = S::default();
    assert_eq!(storage.get(3), None);
    assert_eq!(storage.insert(3, 30), None);
    assert_eq!(storage.insert(1, 10), None);
    assert_eq!(storage.insert(3, 31), Some(30));
    assert_eq!(storage.get(3), Some(&31));
    assert_eq!(storage.get(2), None);
    *storage.get_mut(1).unwrap() = 11;
    assert_eq!(storage.get(1), Some(&11));
    assert_eq!(storage.get_mut(2), None);
    assert_eq!(storage.remove(2), None);
    assert_eq!(storage.remove(3), Some(31));
    assert_eq!(storage.remove(3), None);
    assert_eq!(storage.scan().iter().collect(), vec![&11]);

    let copy = storage.clone();
    storage.insert(5, 50);
    assert_eq!(copy.scan().iter().collect(), vec![&11]);
    assert_eq!(storage.scan().iter().collect(), vec![&11, &50]);
}

#[test]
fn storages_map_indices_to_components() {
    storage_case::<SparseComponentStorage<i32>>();
    storage_case::<DenseComponentStorage<i32>>();
}

fn scan_mut_case<S>()
where
    S: for<'a> ComponentStorage<'a, Component = i32>,
{
    let mut storage: S = storage_with(&[1, 3, 6, 8]);
    {
        let mut scanner = storage.scan_mut();
        let (first, index) = scanner.scan(None).unwrap();
        assert_eq!((*first, index), (1, 1));
        *first = 100;
        let (second, index) = scanner.scan(Some(4)).unwrap();
        assert_eq!((*second, index), (6, 6));
        *second = 600;
        let (third, index) = scanner.scan(Some(2)).unwrap();
        assert_eq!((*third, index), (8, 8));
        assert!(scanner.scan(None).is_none());
        assert!(scanner.scan(Some(usize::MAX)).is_none());
    }
    assert_eq!(storage.scan().iter().collect(), vec![&100, &3, &600, &8]);

    let other: S = storage_with(&[3, 8, 9]);
    for (x, y) in component_scan_join((storage.scan_mut(), other.scan())).iter().collect() {
        *x += *y;
    }
    assert_eq!(storage.scan().iter().collect(), vec![&100, &6, &600, &16]);
}

#[test]
fn scan_mut_hands_out_components_for_writing() {
    scan_mut_case::<SparseComponentStorage<i32>>();
    scan_mut_case::<DenseComponentStorage<i32>>();
}
