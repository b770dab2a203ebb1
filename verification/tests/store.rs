use proots::store::{MemStore, StoreError};
use proots::value::Identifier;

#[test]
fn get_returns_exactly_what_was_put() {
    let mut store = MemStore::new();
    let id = store.put(&vec![1, 2, 3]).unwrap();
    assert_eq!(store.get(&id).unwrap(), vec![1, 2, 3]);
}

#[test]
fn putting_identical_bytes_twice_yields_one_identifier()
{
    let mut store = MemStore::new();
    let first = store.put(&vec![7, 7, 7]).unwrap();
    let second = store.put(&vec![7, 7, 7]).unwrap();
    assert_eq!(first, second);
}

#[test]
fn different_bytes_receive_different_identifiers() {
    // This would fail if the identifier derivation ignored its input.
    let mut store = MemStore::new();
    let a = store.put(&vec![1]).unwrap();
    let b = store.put(&vec![2]).unwrap();
    assert_ne!(a, b);
    assert_eq!(store.get(&a).unwrap(), vec![1]);
    assert_eq!(store.get(&b).unwrap(), vec![2]);
}

#[test]
fn identifiers_are_digests_not_the_bytes_themselves() {
    // This would fail if the identifier were the record's own bytes.
    let mut store = MemStore::new();
    let id = store.put(&vec![42]).unwrap();
    assert_ne!(id.as_bytes(), &vec![42u8]);
}

#[test]
fn unknown_identifiers_are_not_found() {
    let store = MemStore::new();
    let r = store.get(&Identifier::from_bytes(vec![0, 1, 2]));
    assert_eq!(r, Err(StoreError::NotFound));
}
