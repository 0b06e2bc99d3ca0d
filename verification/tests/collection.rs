use keyed_store::tree::{Entity, KeyedCollection};
use keyed_store::value::{StoreError, Value};

fn entity(v: i64) -> Entity {
    Entity::new().with_scalar(Value::Int(v))
}

#[test]
fn collection_insert_remove_move() {
    let mut c = KeyedCollection::new();
    let mut pending: Vec<u64> = Vec::new();
    c.insert(10, entity(1), None, &mut pending).unwrap();
    c.insert(20, entity(2), None, &mut pending).unwrap();
    c.insert(15, entity(3), Some(1), &mut pending).unwrap();
    assert_eq!(c.keys(), vec![10, 15, 20]);
    assert_eq!(c.find(15), Some(1));
    assert_eq!(c.find(99), None);

    c.move_key(20, 0, &mut pending).unwrap();
    assert_eq!(c.keys(), vec![20, 10, 15]);

    c.remove(10, &mut pending).unwrap();
    assert_eq!(c.keys(), vec![20, 15]);
    assert_eq!(c.remove(10, &mut pending), Err(StoreError::KeyNotFound));
}

#[test]
fn collection_rejects_duplicate_and_bad_positions() {
    let mut c = KeyedCollection::new();
    let mut pending: Vec<u64> = Vec::new();
    c.insert(1, entity(1), None, &mut pending).unwrap();
    assert_eq!(
        c.insert(1, entity(2), None, &mut pending),
        Err(StoreError::DuplicateKey)
    );
    assert_eq!(
        c.insert(2, entity(2), Some(5), &mut pending),
        Err(StoreError::NotFound)
    );
    assert_eq!(c.move_key(1, 3, &mut pending), Err(StoreError::NotFound));
    assert_eq!(c.keys(), vec![1]);
}

#[test]
fn collection_edits_enqueue_structural_subscribers() {
    let mut c = KeyedCollection::new();
    c.subscribe(40);
    c.subscribe(41);
    let mut pending: Vec<u64> = vec![41];
    c.insert(1, entity(1), None, &mut pending).unwrap();
    // Both structural subscribers are queued, 41 only once.
    assert_eq!(pending, vec![41, 40]);
    c.unsubscribe(40);
    let mut pending2: Vec<u64> = Vec::new();
    c.remove(1, &mut pending2).unwrap();
    assert_eq!(pending2, vec![41]);
}
