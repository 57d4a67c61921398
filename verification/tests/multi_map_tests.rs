use kvstore::multi_map::MultiMap;

#[test]
fn test_insert() {
    let mut mmap = MultiMap::<i32, String>::new();

    assert!(mmap.insert(12, String::from("abc")) == 1);
    assert!(mmap.insert(23, String::from("abc")) == 2);
    assert!(mmap.insert(23, String::from("def")) == 3);

    let mut it = mmap.into_iter();

    let e1 = it.next().unwrap();
    assert!(12 == e1.key);
    assert!(String::from("abc") == e1.value);

    let e2 = it.next().unwrap();
    assert!(23 == e2.key);
    assert!(String::from("abc") == e2.value);

    let e3 = it.next().unwrap();
    assert!(23 == e3.key);
    assert!(String::from("def") == e3.value);
}

#[test]
fn test_get() {
    let mut mmap = MultiMap::<i32, String>::new();

    assert!(mmap.insert(12, String::from("abc")) == 1);
    assert!(mmap.insert(23, String::from("abc")) == 2);
    assert!(mmap.insert(23, String::from("def")) == 3);

    let v1 = mmap.get(&12).unwrap();

    assert!(v1[0] == "abc");
    assert!(v1.len() == 1);

    let v2 = mmap.get(&23).unwrap();

    assert!(v2[0] == "abc");
    assert!(v2[1] == "def");
    assert!(v2.len() == 2);
}

#[test]
fn test_delete() {
    let mut mmap = MultiMap::<i32, String>::new();

    assert!(mmap.insert(12, String::from("abc")) == 1);
    assert!(mmap.insert(23, String::from("abc")) == 2);
    assert!(mmap.insert(23, String::from("def")) == 3);

    assert!(mmap.size() == 3);

    assert!(mmap.delete(12, String::from("abc")) == 2);
    assert!(mmap.delete(23, String::from("abc")) == 1);
    assert!(mmap.delete(23, String::from("abc")) == 1); // should NOT find this one
    assert!(mmap.delete(23, String::from("def")) == 0);

    assert!(mmap.size() == 0);

    let mut it = mmap.into_iter();

    assert!(it.next().is_none());
}

#[test]
fn test_reinsert_collapses() {
    let mut mmap = MultiMap::<i32, String>::new();

    assert!(mmap.insert(7, String::from("x")) == 1);
    assert!(mmap.insert(7, String::from("x")) == 1);
    assert!(mmap.size() == 1);

    let vs = mmap.get(&7).unwrap();
    assert_eq!(vs, vec![String::from("x")]);
}

#[test]
fn test_contains_key() {
    let mut mmap = MultiMap::<u8, u8>::new();

    assert!(!mmap.contains_key(&4));
    mmap.insert(4, 5);
    assert!(mmap.contains_key(&4));
    mmap.delete(4, 5);
    assert!(!mmap.contains_key(&4));
}
