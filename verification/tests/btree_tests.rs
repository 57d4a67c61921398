use kvstore::wal_file::StoreError;
use kvstore::BTree;

#[test]
fn new_blank_file() {
    let btree = BTree::<u8, u8>::new(Vec::new(), Vec::new(), 1, 1).unwrap();

    // both backing images start empty
    assert!(btree.wal_file.data.is_empty());
    assert!(btree.tree_file.file.data.is_empty());

    // make sure they think they're new too
    assert!(btree.wal_file.is_new().unwrap());
    assert!(btree.wal_file.count().unwrap() == 0);

    assert!(btree.tree_file.is_new().unwrap());
    assert!(btree.tree_file.count().unwrap() == 0);
}

#[test]
fn new_existing_file() {
    let first = BTree::<u8, u8>::new(Vec::new(), Vec::new(), 1, 1).unwrap();

    // reopen from the images the first instance holds
    let btree =
        BTree::<u8, u8>::new(first.wal_file.data.clone(), first.tree_file.file.data.clone(), 1, 1)
            .unwrap();

    // check our file lengths from the struct
    assert!(btree.tree_file.count().unwrap() == 0);
    assert!(btree.wal_file.count().unwrap() == 0);
}

#[test]
fn insert_new_u8() {
    let mut btree = BTree::<u8, u8>::new(Vec::new(), Vec::new(), 1, 1).unwrap();

    btree.insert(2, 3).unwrap(); // insert into a new store

    assert!(btree.wal_file.count().unwrap() == 1);
    assert!(btree.mem_tree.contains_key(&2));
}

#[test]
fn insert_new_str() {
    let mut btree = BTree::<String, String>::new(Vec::new(), Vec::new(), 15, 15).unwrap();

    // insert into a new store
    btree.insert("Hello".to_owned(), "World".to_owned()).unwrap();

    assert!(!btree.wal_file.is_new().unwrap());
    assert!(btree.mem_tree.contains_key(&String::from("Hello")));
}

#[test]
fn get_returns_an_iter() {
    let mut btree = BTree::<String, String>::new(Vec::new(), Vec::new(), 15, 15).unwrap();

    btree.insert("Hello".to_owned(), "World".to_owned()).unwrap();

    // get the values at the hello key
    let set_at_hello: Vec<String> = btree.get(&"Hello".to_string()).unwrap();

    assert_eq!(set_at_hello, ["World".to_string()]);
}

#[test]
fn insert_multiple() {
    let mut btree = BTree::<String, String>::new(Vec::new(), Vec::new(), 15, 15).unwrap();

    btree.insert("Hello".to_owned(), "World".to_owned()).unwrap();
    assert!(!btree.wal_file.is_new().unwrap());

    btree.insert("Hello".to_owned(), "Everyone".to_owned()).unwrap();
    assert!(!btree.wal_file.is_new().unwrap());
}

#[test]
fn single_insert_writes_one_slot() {
    // with one byte of key and one of value, inserting (2, 3) leaves one
    // 2-byte slot in the write-ahead log that decodes back to (2, 3)
    let mut btree = BTree::<u8, u8>::new(Vec::new(), Vec::new(), 1, 1).unwrap();

    btree.insert(2, 3).unwrap();

    assert_eq!(btree.wal_file.data, vec![2u8, 3u8]);
    assert!(btree.wal_file.count().unwrap() == 1);
    assert!(btree.mem_tree.contains_key(&2));
    assert!(btree.mem_tree.size() == 1);

    // the on-disk store is untouched below the threshold
    assert!(btree.tree_file.is_new().unwrap());
    assert!(btree.tree_file.count().unwrap() == 0);
}

#[test]
fn values_come_back_sorted() {
    let mut btree = BTree::<String, String>::new(Vec::new(), Vec::new(), 15, 15).unwrap();

    btree.insert("Hello".to_owned(), "World".to_owned()).unwrap();
    btree.insert("Hello".to_owned(), "Everyone".to_owned()).unwrap();

    // ascending lexicographic value order
    let vs = btree.get(&"Hello".to_string()).unwrap();
    assert_eq!(vs, vec!["Everyone".to_string(), "World".to_string()]);

    // both additions leave the WAL non-empty and the store untouched
    assert!(!btree.wal_file.is_new().unwrap());
    assert!(btree.tree_file.is_new().unwrap());
}

#[test]
fn threshold_triggers_compaction() {
    // with the threshold at 2, the third insert folds everything into the
    // on-disk store and resets the buffer
    let mut btree = BTree::<u8, u8>::new(Vec::new(), Vec::new(), 1, 1).unwrap();
    btree.set_max_memory_items(2);

    btree.insert(2, 20).unwrap();
    btree.insert(1, 10).unwrap();
    btree.insert(3, 30).unwrap();

    assert!(btree.mem_tree.size() == 0);
    assert!(btree.wal_file.is_new().unwrap());
    assert!(btree.tree_file.count().unwrap() == 3);

    // the store's iteration yields exactly the three records, sorted
    let mut it = btree.tree_file.into_iter();
    let r1 = it.next().unwrap();
    assert!(r1.key == 1 && r1.value == 10);
    let r2 = it.next().unwrap();
    assert!(r2.key == 2 && r2.value == 20);
    let r3 = it.next().unwrap();
    assert!(r3.key == 3 && r3.value == 30);
    assert!(it.next().is_none());

    // lookups now come from the store
    assert!(btree.tree_file.contains_key(&1));
    assert_eq!(btree.get(&2).unwrap(), vec![20u8]);
}

#[test]
fn compaction_collapses_duplicates() {
    let mut btree = BTree::<u8, u8>::new(Vec::new(), Vec::new(), 1, 1).unwrap();
    btree.set_max_memory_items(2);

    btree.insert(1, 1).unwrap();
    btree.insert(2, 2).unwrap();
    btree.insert(3, 3).unwrap(); // first compaction: store holds {1, 2, 3}
    assert!(btree.tree_file.count().unwrap() == 3);

    btree.insert(2, 2).unwrap(); // already durable in the store
    btree.insert(4, 4).unwrap();
    btree.insert(5, 5).unwrap(); // second compaction

    // the duplicate (2, 2) collapsed across the two sources
    assert!(btree.tree_file.count().unwrap() == 5);
    let mut it = btree.tree_file.into_iter();
    let mut keys: Vec<u8> = Vec::new();
    while let Some(p) = it.next() {
        keys.push(p.key);
    }
    assert_eq!(keys, vec![1u8, 2, 3, 4, 5]);
}

#[test]
fn compaction_is_idempotent() {
    let mut btree = BTree::<u8, u8>::new(Vec::new(), Vec::new(), 1, 1).unwrap();
    btree.set_max_memory_items(2);

    btree.insert(1, 1).unwrap();
    btree.insert(2, 2).unwrap();
    btree.insert(3, 3).unwrap(); // triggers a compaction

    let store_before = btree.tree_file.file.data.clone();
    btree.compact().unwrap(); // nothing new to fold in
    assert_eq!(btree.tree_file.file.data, store_before);
    assert!(btree.tree_file.count().unwrap() == 3);
}

#[test]
fn reopen_recovers_buffered_inserts() {
    let mut btree = BTree::<i32, String>::new(Vec::new(), Vec::new(), 8, 15).unwrap();
    btree.insert(12, "abc".to_owned()).unwrap();
    btree.insert(23, "def".to_owned()).unwrap();

    // an interruption after the appends completed: reopen from the images
    let reopened =
        BTree::<i32, String>::new(btree.wal_file.data.clone(), btree.tree_file.file.data.clone(), 8, 15)
            .unwrap();

    assert!(reopened.mem_tree.size() == 2);
    assert_eq!(reopened.get(&12).unwrap(), vec!["abc".to_string()]);
    assert_eq!(reopened.get(&23).unwrap(), vec!["def".to_string()]);
    assert!(reopened.get(&99).is_none());
}

#[test]
fn reopen_ignores_torn_trailing_slot() {
    let mut btree = BTree::<u8, u8>::new(Vec::new(), Vec::new(), 1, 1).unwrap();
    btree.insert(2, 3).unwrap();

    // a crash mid-append leaves half a slot behind
    let mut torn = btree.wal_file.data.clone();
    torn.push(9);

    let reopened = BTree::<u8, u8>::new(torn, Vec::new(), 1, 1).unwrap();
    assert!(reopened.wal_file.count().unwrap() == 1);
    assert!(reopened.mem_tree.contains_key(&2));
    assert!(!reopened.mem_tree.contains_key(&9));
}

#[test]
fn open_rejects_bad_store_length() {
    // a store image that is not a whole number of slots is corrupt
    let r = BTree::<u8, u8>::new(Vec::new(), vec![7u8], 1, 1);
    assert_eq!(r.err().unwrap(), StoreError::BadFormat);
}

#[test]
fn open_rejects_unsorted_store() {
    // a store image must hold one ascending run
    let r = BTree::<u8, u8>::new(Vec::new(), vec![5u8, 5, 1, 1], 1, 1);
    assert_eq!(r.err().unwrap(), StoreError::BadFormat);
}

#[test]
fn insert_rejects_oversized_encoding() {
    let mut btree = BTree::<String, String>::new(Vec::new(), Vec::new(), 15, 15).unwrap();

    // the pair needs 37 + 9 bytes of encoding, beyond the 30-byte slot
    let r = btree.insert("ThisKeyIsWayTooLongForTheSlot".to_owned(), "v".to_owned());
    assert_eq!(r.err().unwrap(), StoreError::EncodingTooLarge);

    // the failed insert left nothing behind
    assert!(btree.wal_file.is_new().unwrap());
    assert!(btree.mem_tree.size() == 0);
}

#[test]
fn empty_string_round_trips() {
    let mut btree = BTree::<String, String>::new(Vec::new(), Vec::new(), 15, 15).unwrap();
    btree.insert("".to_owned(), "".to_owned()).unwrap();

    let reopened =
        BTree::<String, String>::new(btree.wal_file.data.clone(), btree.tree_file.file.data.clone(), 15, 15)
            .unwrap();
    assert_eq!(reopened.get(&"".to_string()).unwrap(), vec!["".to_string()]);
}
