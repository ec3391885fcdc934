use notnow::db::Db;

#[test]
fn entry_aux_set_get() {
    let items = vec![("foo", 0usize), ("boo", 1), ("blah", 2)];
    let mut db = Db::from_iter_with_aux(items);
    let entry = db.get(1).unwrap();
    assert_eq!(entry.aux(), 1);

    db.set_aux(1, 42);
    let entry = db.get(1).unwrap();
    assert_eq!(entry.aux(), 42);

    let entry = db.get(1).unwrap();
    assert_eq!(entry.aux(), 42);
}

#[test]
fn entry_navigation() {
    let db = Db::from_iter(vec!["foo", "boo", "blah"]);

    let entry = db.get(0).unwrap();
    assert_eq!(entry.item().value(), &"foo");
    assert!(entry.prev().is_none());

    let entry = entry.next().unwrap();
    assert_eq!(entry.item().value(), &"boo");

    let entry = entry.next().unwrap();
    assert_eq!(entry.item().value(), &"blah");

    assert!(entry.next().is_none());

    let entry = entry.prev().unwrap();
    assert_eq!(entry.item().value(), &"boo");
}

#[test]
fn create_from_iter() {
    let items = vec!["foo", "bar", "baz", "foobar"];
    let db = Db::from_iter(items);
    assert_eq!(*db.get(0).unwrap().item().value(), "foo");
    assert_eq!(*db.get(3).unwrap().item().value(), "foobar");
}

#[test]
fn create_from_iter_duplicate() {
    let mut source: Db<&str, ()> = Db::from_iter(Vec::new());
    let foo = source.new_item("foo");
    let items = vec![
        foo.clone(),
        source.new_item("bar"),
        source.new_item("baz"),
        foo.clone(),
        source.new_item("foobar"),
    ];
    let duplicate = match Db::try_from_iter(items) {
        Err(duplicate) => duplicate,
        Ok(_) => panic!("duplicate not detected"),
    };
    assert_eq!(duplicate.identity(), foo.identity());
}

#[test]
fn find_item() {
    let mut source: Db<&str, ()> = Db::from_iter(Vec::new());
    let items = vec![
        source.new_item("foo"),
        source.new_item("bar"),
        source.new_item("baz"),
        source.new_item("foobar"),
    ];
    let bar = items[1].clone();

    let mut db = Db::try_from_iter(items.clone()).unwrap();
    assert_eq!(db.find(&bar).map(|entry| entry.index()), Some(1));

    let hihi = source.new_item("hihi");
    let mut db = Db::try_from_iter(items).unwrap();
    assert_eq!(db.find(&hihi).map(|entry| entry.index()), None);
}

#[test]
fn insert_item() {
    let items = vec!["foo", "bar", "baz", "foobar"];

    let mut db = Db::from_iter(items);
    let item = db.insert(0, "foobarbaz").item().clone();
    let idx = db.find(&item).unwrap().index();
    assert_eq!(idx, 0);

    let item = db.insert(5, "outoffoos").item().clone();
    let idx = db.find(&item).unwrap().index();
    assert_eq!(idx, 5);
}

#[test]
fn try_insert_item() {
    let items = vec!["foo", "bar", "baz", "foobar"];

    let mut db = Db::from_iter(items);
    let new = db.new_item("foobarbaz");
    let item = db
        .try_insert(0, new)
        .unwrap()
        .item()
        .clone();
    let idx = db.find(&item).unwrap().index();
    assert_eq!(idx, 0);

    let item = db.get(0).unwrap().item().clone();
    assert!(db.try_insert(5, item).is_none())
}

#[test]
fn push_item() {
    let mut db = Db::from_iter(Vec::new());
    let item = db.push("foo").item().clone();
    let idx = db.find(&item).unwrap().index();
    assert_eq!(idx, 0);

    let item = db.push("bar").item().clone();
    let idx = db.find(&item).unwrap().index();
    assert_eq!(idx, 1);

    let _removed = db.remove(0);
    let item = db.push("baz").item().clone();
    let idx = db.find(&item).unwrap().index();
    assert_eq!(idx, 1);
}

#[test]
fn try_push_item() {
    let mut db = Db::from_iter(vec!["foo", "boo", "blah"]);
    let new = db.new_item("foo");
    let item = db.try_push(new).unwrap().item().clone();
    let idx = db.find(&item).unwrap().index();
    assert_eq!(idx, 3);

    let item = db.get(1).unwrap().item().clone();
    assert!(db.try_push(item).is_none())
}

#[test]
fn iteration() {
    let items = vec!["foo", "bar", "baz", "foobar"];

    let db = Db::from_iter(items.clone());
    let vec = db.iter().into_iter().map(|item| *item.value()).collect::<Vec<_>>();
    assert_eq!(vec, items);
}

#[test]
fn created_identities_are_fresh() {
    let mut db = Db::from_iter(vec!["a", "b"]);
    assert_eq!(db.get(0).unwrap().item().identity(), 0);
    assert_eq!(db.get(1).unwrap().item().identity(), 1);
    let item = db.push("c").item().clone();
    assert_eq!(item.identity(), 2);
    let moved = db.remove(0).0;
    assert!(db.find(&moved).is_none());
    assert!(db.try_insert(1, moved.clone()).is_some());
    assert_eq!(db.find(&moved).unwrap().index(), 1);
}

#[test]
fn many_insertions_and_removals_keep_lookups_right() {
    let mut db: Db<usize, ()> = Db::from_iter(Vec::new());
    let mut items = Vec::new();
    for i in 0..5000 {
        let item = db.insert(0, i).item().clone();
        items.push(item);
    }
    for _ in 0..1000 {
        let _removed = db.remove(0);
    }
    let len = db.len();
    assert_eq!(len, 4000);
    for (i, item) in items.iter().enumerate().take(4000) {
        let idx = db.find(item).unwrap().index();
        assert_eq!(idx, len - 1 - i);
    }
    for item in items.iter().skip(4000) {
        assert!(db.find(item).is_none());
    }
}
