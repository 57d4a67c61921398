use kvstore::wal_file::{KeyValuePair, RecordFile, StoreError};

#[test]
fn test_iterator() {
    // a new blank record log
    let mut wal_file = RecordFile::<String, String>::new(20, 20);

    assert!(wal_file.is_new().unwrap());

    let kv1 = KeyValuePair { key: "hello".to_owned(), value: "world".to_owned() };
    let kv2 = KeyValuePair { key: "foo".to_owned(), value: "bar".to_owned() };

    wal_file.insert_record(&kv1).unwrap();
    wal_file.insert_record(&kv2).unwrap();

    assert!(wal_file.count().unwrap() == 2);

    let mut wal_it = wal_file.into_iter();

    let it_kv1 = wal_it.next().unwrap();

    assert!(kv1.key == it_kv1.key);
    assert!(kv1.value == it_kv1.value);

    let it_kv2 = wal_it.next().unwrap();

    assert!(kv2.key == it_kv2.key);
    assert!(kv2.value == it_kv2.value);

    assert!(wal_it.next().is_none());
}

#[test]
fn test_reopen_round_trip() {
    // what one log wrote, opening its bytes yields back
    let mut log = RecordFile::<String, String>::new(16, 16);
    log.insert_record(&KeyValuePair { key: "a".to_owned(), value: "one".to_owned() }).unwrap();
    log.insert_record(&KeyValuePair { key: "b".to_owned(), value: "two".to_owned() }).unwrap();

    let reopened = RecordFile::<String, String>::open(log.data.clone(), 16, 16).unwrap();
    assert!(reopened.count().unwrap() == 2);

    let mut it = reopened.into_iter();
    let r1 = it.next().unwrap();
    assert_eq!(r1.key, "a");
    assert_eq!(r1.value, "one");
    let r2 = it.next().unwrap();
    assert_eq!(r2.key, "b");
    assert_eq!(r2.value, "two");
}

#[test]
fn test_open_rejects_partial_slot() {
    // 3 bytes is not a whole number of 2-byte slots
    let r = RecordFile::<u8, u8>::open(vec![1, 2, 3], 1, 1);
    assert_eq!(r.err().unwrap(), StoreError::BadFormat);
}

#[test]
fn test_open_rejects_undecodable_slot() {
    // a full slot whose contents are no valid encoding of a string pair
    let bad = vec![0xFFu8; 16];
    let r = RecordFile::<String, String>::open(bad, 8, 8);
    assert_eq!(r.err().unwrap(), StoreError::BadFormat);
}

#[test]
fn test_insert_record_too_large() {
    let mut log = RecordFile::<String, String>::new(10, 10);
    // the encoding of a string is its 8-byte length plus its bytes, so
    // this pair needs 9 + 20 bytes and exceeds the 20-byte slot width
    let kv = KeyValuePair { key: "k".to_owned(), value: "abcdefghijkl".to_owned() };
    let r = log.insert_record(&kv);
    assert_eq!(r.err().unwrap(), StoreError::EncodingTooLarge);
    // nothing was written
    assert!(log.is_new().unwrap());
    assert!(log.count().unwrap() == 0);
}
