use foobar_db::db::DB;
use foobar_db::resp::RespValue;
use foobar_db::storage::{DashMapStorage, Storage};

#[test]
fn test_basic_operations() {
    let mut storage = DashMapStorage::new();

    assert!(storage
        .set(b"key1".to_vec(), RespValue::Integer(100))
        .unwrap()
        .is_none());
    assert!(storage
        .set(b"key2".to_vec(), RespValue::Integer(200))
        .unwrap()
        .is_none());

    assert_eq!(
        storage.get(&b"key1".to_vec()).unwrap(),
        Some(RespValue::Integer(100))
    );
    assert_eq!(
        storage.get(&b"key2".to_vec()).unwrap(),
        Some(RespValue::Integer(200))
    );
    assert_eq!(storage.get(&b"nonexistent".to_vec()).unwrap(), None);

    assert_eq!(storage.len(), 2);

    assert_eq!(
        storage.delete(&b"key1".to_vec()).unwrap(),
        Some(RespValue::Integer(100))
    );
    assert_eq!(storage.get(&b"key1".to_vec()).unwrap(), None);
    assert_eq!(storage.len(), 1);

    storage.clear().unwrap();
    assert_eq!(storage.len(), 0);
    assert_eq!(storage.get(&b"key2".to_vec()).unwrap(), None);
}

#[test]
fn test_set_returns_prior() {
    let mut storage = DashMapStorage::new();
    assert_eq!(
        storage
            .set(b"k".to_vec(), RespValue::BulkString(Some(b"a".to_vec())))
            .unwrap(),
        None
    );
    assert_eq!(
        storage
            .set(b"k".to_vec(), RespValue::BulkString(Some(b"b".to_vec())))
            .unwrap(),
        Some(RespValue::BulkString(Some(b"a".to_vec())))
    );
}

#[test]
fn test_db_delete_many() {
    let mut db = DB::new(DashMapStorage::new());
    db.set(b"a".to_vec(), RespValue::Integer(1)).unwrap();
    db.set(b"b".to_vec(), RespValue::Integer(2)).unwrap();
    db.set(b"c".to_vec(), RespValue::Integer(3)).unwrap();
    db.delete(&vec![b"a".to_vec(), b"c".to_vec()]).unwrap();
    assert_eq!(db.get(&b"a".to_vec()).unwrap(), None);
    assert_eq!(db.get(&b"b".to_vec()).unwrap(), Some(RespValue::Integer(2)));
    assert_eq!(db.get(&b"c".to_vec()).unwrap(), None);
}
