//! The expiring store from the outside. Time is an explicit millisecond
//! clock handed to every operation.

use respkv::{Database, DatabaseValue};

fn bytes(s: &[u8]) -> Vec<u8> {
    s.to_vec()
}

#[test]
fn test_database_non_expire() {
    let mut database = Database::new();

    database.insert(bytes(b"key"), DatabaseValue::Integer(1), 0, None);

    let val = database.get(&bytes(b"key"), 0);
    assert_eq!(Some(DatabaseValue::Integer(1)), val);

    let val = database.get(&bytes(b"not_exists"), 0);
    assert_eq!(None, val);
}

#[test]
fn test_database_get_manually_drop() {
    let mut database = Database::new();

    database.insert(bytes(b"key"), DatabaseValue::Integer(1), 0, None);

    let val = database.get(&b"key".to_vec(), 0);
    assert_eq!(Some(DatabaseValue::Integer(1)), val);

    let val = database.get(&b"not_exists".to_vec(), 0);
    assert_eq!(None, val);
}

#[test]
fn test_database_expired_value() {
    let mut database = Database::new();

    database.insert(bytes(b"key"), DatabaseValue::Integer(1), 0, Some(100));

    let val = database.get(&bytes(b"key"), 0);
    assert_eq!(Some(DatabaseValue::Integer(1)), val);

    // 120 ms later, with no sweep having run
    let val = database.get(&bytes(b"key"), 120);
    assert_eq!(None, val);
}

#[test]
fn test_database_expired_value_manual_drop() {
    let mut database = Database::new();

    database.insert(bytes(b"key"), DatabaseValue::Integer(1), 0, Some(100));

    let val = database.get(&b"key".to_vec(), 0);
    assert_eq!(Some(DatabaseValue::Integer(1)), val);

    let val = database.get(&b"key".to_vec(), 120);
    assert_eq!(None, val);
}

#[test]
fn test_database_clean() {
    let mut database = Database::new();

    database.insert(bytes(b"key1"), DatabaseValue::Integer(1), 0, Some(10));
    database.insert(bytes(b"key2"), DatabaseValue::Integer(1), 0, Some(100));

    database.clean(11);

    assert!(database.get(&bytes(b"key1"), 11).is_none());
    assert!(database.get(&bytes(b"key2"), 11).is_some());

    database.clean(111);
    assert!(database.get(&bytes(b"key2"), 111).is_none());
}

#[test]
fn sweep_keeps_refreshed_keys() {
    let mut database = Database::new();

    database.insert(bytes(b"k"), DatabaseValue::Integer(1), 0, Some(10));
    // the key is overwritten with a longer deadline before the sweep
    database.insert(bytes(b"k"), DatabaseValue::Integer(2), 20, Some(100));

    database.clean(25);
    assert_eq!(
        database.get(&bytes(b"k"), 25),
        Some(DatabaseValue::Integer(2))
    );
}

#[test]
fn expiry_boundary_is_exclusive() {
    let mut database = Database::new();
    database.insert(bytes(b"k"), DatabaseValue::Bytes(bytes(b"v")), 10, Some(100));

    // visible strictly before created + duration
    assert!(database.get(&bytes(b"k"), 109).is_some());
    // gone at exactly created + duration
    assert!(database.get(&bytes(b"k"), 110).is_none());

    // the sweep removes only strictly-past deadlines
    let mut database = Database::new();
    database.insert(bytes(b"k"), DatabaseValue::Null, 0, Some(10));
    database.clean(10);
    // entry still present physically (deadline == now), but unreadable
    assert!(database.get(&bytes(b"k"), 10).is_none());
    database.clean(11);
    assert!(database.get(&bytes(b"k"), 11).is_none());
}

#[test]
fn overwrite_replaces_value_and_expiry() {
    let mut database = Database::new();
    database.insert(bytes(b"k"), DatabaseValue::Integer(1), 0, Some(5));
    database.insert(bytes(b"k"), DatabaseValue::String(bytes(b"two")), 0, None);

    // the non-expiring overwrite survives past the old deadline
    assert_eq!(
        database.get(&bytes(b"k"), 1000),
        Some(DatabaseValue::String(bytes(b"two")))
    );
}
