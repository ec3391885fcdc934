use std::collections::BTreeMap;
use std::collections::BTreeSet;

use notnow::id::AllocId;

#[test]
fn allocate_and_free_id_btreeset() {
    let mut set = BTreeSet::<usize>::new();

    assert_eq!(set.get(&1), None);
    let id1 = AllocId::<()>::allocate_id(&mut set);
    assert_eq!(id1.get(), 1);
    assert_eq!(set.get(&1), Some(&1));

    assert_eq!(set.get(&2), None);
    let id2 = AllocId::<()>::allocate_id(&mut set);
    assert_eq!(id2.get(), 2);
    assert_eq!(set.get(&2), Some(&2));

    let () = AllocId::<()>::free_id(&mut set, id1);
    assert_eq!(set.get(&1), None);

    let () = set.free_id(id2);
    assert_eq!(set.get(&2), None);

    assert!(set.is_empty());
}

#[test]
fn reserve_free_id_btreeset() {
    let mut set = BTreeSet::<usize>::new();

    let id1 = AllocId::<()>::reserve_id(&mut set, 1);
    assert_eq!(id1.get(), 1);
    assert_eq!(set.get(&1), Some(&1));

    assert!(AllocId::<()>::try_reserve_id(&mut set, 1).is_none());

    let () = AllocId::<()>::free_id(&mut set, id1);
    assert_eq!(set.get(&1), None);

    assert!(set.is_empty());

    let id1 = AllocId::<()>::try_reserve_id(&mut set, 1).unwrap();
    assert_eq!(id1.get(), 1);
    assert_eq!(set.get(&1), Some(&1));

    let () = AllocId::<()>::free_id(&mut set, id1);
    assert_eq!(set.get(&1), None);

    assert!(set.is_empty());
}

#[test]
fn allocate_and_free_id_btreemap() {
    let mut map = BTreeMap::<usize, &'static str>::new();

    assert_eq!(map.get(&1), None);
    let id1 = AllocId::<()>::allocate_id(&mut map);
    map.insert(id1.get(), "foobar");
    assert_eq!(id1.get(), 1);
    assert_eq!(map.get(&1), Some(&"foobar"));

    assert_eq!(map.get(&2), None);
    let id2 = AllocId::<()>::allocate_id(&mut map);
    map.insert(id2.get(), "alloc'd");
    assert_eq!(id2.get(), 2);
    assert_eq!(map.get(&2), Some(&"alloc'd"));

    let () = AllocId::<()>::free_id(&mut map, id1);
    assert_eq!(map.get(&1), None);

    let () = map.free_id(id2);
    assert_eq!(map.get(&2), None);

    assert!(map.is_empty());
}

#[test]
fn reserve_free_id_btreemap() {
    let mut map = BTreeMap::<usize, &'static str>::new();

    // A reservation without an entry being added is just ignored.
    let _id1 = AllocId::<()>::reserve_id(&mut map, 1);

    let id1 = AllocId::<()>::reserve_id(&mut map, 1);
    map.insert(id1.get(), "foo");
    assert_eq!(id1.get(), 1);
    assert_eq!(map.get(&1), Some(&"foo"));

    assert!(AllocId::<()>::try_reserve_id(&mut map, 1).is_none());

    let () = AllocId::<()>::free_id(&mut map, id1);
    assert_eq!(map.get(&1), None);

    assert!(map.is_empty());

    let id1 = AllocId::<()>::try_reserve_id(&mut map, 1).unwrap();
    map.insert(id1.get(), "success");
    assert_eq!(id1.get(), 1);
    assert_eq!(map.get(&1), Some(&"success"));

    let () = AllocId::<()>::free_id(&mut map, id1);
    assert_eq!(map.get(&1), None);

    assert!(map.is_empty());
}

#[test]
fn allocation_fills_the_first_gap() {
    let mut set: BTreeSet<usize> = [1, 2, 4, 5].into_iter().collect();
    let id = AllocId::<()>::allocate_id(&mut set);
    assert_eq!(id.get(), 3);
    let id = AllocId::<()>::allocate_id(&mut set);
    assert_eq!(id.get(), 6);

    let mut set: BTreeSet<usize> = [2, 3].into_iter().collect();
    let id = AllocId::<()>::allocate_id(&mut set);
    assert_eq!(id.get(), 1);

    let mut map = BTreeMap::<usize, u8>::new();
    map.insert(1, 0);
    map.insert(3, 0);
    let id = AllocId::<()>::allocate_id(&mut map);
    assert_eq!(id.get(), 2);
    assert_eq!(map.len(), 2);
}

#[test]
fn zero_cannot_be_reserved() {
    let mut set = BTreeSet::<usize>::new();
    assert!(AllocId::<()>::try_reserve_id(&mut set, 0).is_none());
    assert!(set.is_empty());
    let mut map = BTreeMap::<usize, u8>::new();
    assert!(AllocId::<()>::try_reserve_id(&mut map, 0).is_none());
}
