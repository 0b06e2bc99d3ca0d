use keyed_store::path::FieldPath;
use keyed_store::store::Store;
use keyed_store::tree::Entity;
use keyed_store::value::{StoreError, Value};

fn channel(name: &str) -> Entity {
    // field 0: name, field 1: notes
    Entity::new()
        .with_scalar(Value::Text(String::from(name)))
        .with_collection()
}

fn note(pitch: i64) -> Entity {
    // field 0: pitch
    Entity::new().with_scalar(Value::Int(pitch))
}

/// A root with one collection of channels at field 0 and a tempo scalar at
/// field 1, holding two channels.
fn two_channel_store() -> Store {
    let root = Entity::new().with_collection().with_scalar(Value::Int(120));
    let mut store = Store::new(root);
    let channels = FieldPath::root().field(0);
    store
        .insert_at(&channels, 0, channel("Channel 1"), None)
        .unwrap();
    store
        .insert_at(&channels, 1, channel("Channel 2"), None)
        .unwrap();
    store
}

#[test]
fn read_and_write_scalars() {
    let mut store = two_channel_store();
    let bpm = FieldPath::root().field(1);
    assert_eq!(store.read(&bpm).unwrap(), &Value::Int(120));
    store.set(&bpm, Value::Int(140)).unwrap();
    assert_eq!(store.read(&bpm).unwrap(), &Value::Int(140));
    let name0 = FieldPath::root().field(0).key(0).field(0);
    assert_eq!(
        store.read(&name0).unwrap(),
        &Value::Text(String::from("Channel 1"))
    );
}

#[test]
fn move_reorders_iteration() {
    // Seed scenario: two channels keyed 0 and 1; moving key 1 to the front
    // makes the iteration order [1, 0].
    let mut store = two_channel_store();
    let channels = FieldPath::root().field(0);
    assert_eq!(store.keys_at(&channels).unwrap(), vec![0, 1]);
    store.move_at(&channels, 1, 0).unwrap();
    assert_eq!(store.keys_at(&channels).unwrap(), vec![1, 0]);
}

#[test]
fn move_preserves_entity_identity() {
    // A field resolved through a key before a move still reflects live
    // mutations made after the move: the entity was retained, not rebuilt.
    let mut store = two_channel_store();
    let channels = FieldPath::root().field(0);
    let name1 = FieldPath::root().field(0).key(1).field(0);
    assert_eq!(
        store.read(&name1).unwrap(),
        &Value::Text(String::from("Channel 2"))
    );
    store.move_at(&channels, 1, 0).unwrap();
    assert_eq!(
        store.read(&name1).unwrap(),
        &Value::Text(String::from("Channel 2"))
    );
    store
        .set(&name1, Value::Text(String::from("Lead")))
        .unwrap();
    assert_eq!(
        store.read(&name1).unwrap(),
        &Value::Text(String::from("Lead"))
    );
}

#[test]
fn minimal_notification_between_notes() {
    // Seed scenario: channel 0 holds notes 0 and 1; a subscriber reading
    // note 0's pitch is notified by a write to it, a subscriber reading
    // note 1's pitch is not.
    let mut store = two_channel_store();
    let notes0 = FieldPath::root().field(0).key(0).field(1);
    store.insert_at(&notes0, 0, note(60), None).unwrap();
    store.insert_at(&notes0, 1, note(64), None).unwrap();

    let pitch0 = FieldPath::root().field(0).key(0).field(1).key(0).field(0);
    let pitch1 = FieldPath::root().field(0).key(0).field(1).key(1).field(0);
    let sub_a = 1;
    let sub_b = 2;
    assert_eq!(store.read_tracked(&pitch0, sub_a).unwrap(), &Value::Int(60));
    assert_eq!(store.read_tracked(&pitch1, sub_b).unwrap(), &Value::Int(64));
    // Clear the batch of anything enqueued so far.
    store.flush();

    store.set(&pitch0, Value::Int(61)).unwrap();
    let notified = store.flush();
    assert!(notified.contains(&sub_a));
    assert!(!notified.contains(&sub_b));
    assert_eq!(store.read(&pitch0).unwrap(), &Value::Int(61));
}

#[test]
fn equal_write_still_notifies() {
    // There is no value-equality short-circuit: writing the value already
    // stored still notifies the signal's subscribers.
    let mut store = two_channel_store();
    let bpm = FieldPath::root().field(1);
    let sub = 9;
    store.read_tracked(&bpm, sub).unwrap();
    store.flush();
    store.set(&bpm, Value::Int(120)).unwrap();
    assert_eq!(store.flush(), vec![sub]);
}

#[test]
fn structural_subscribers_notified_on_insert_remove_move() {
    let mut store = two_channel_store();
    let channels = FieldPath::root().field(0);
    let sub = 5;
    store.keys_at_tracked(&channels, sub).unwrap();
    store.flush();

    store.insert_at(&channels, 2, channel("Channel 3"), None).unwrap();
    assert_eq!(store.flush(), vec![sub]);
    store.move_at(&channels, 2, 0).unwrap();
    assert_eq!(store.flush(), vec![sub]);
    store.remove_at(&channels, 2).unwrap();
    assert_eq!(store.flush(), vec![sub]);
}

#[test]
fn duplicate_insert_fails_and_changes_nothing() {
    // Seed scenario: inserting under a key that is already live fails with
    // DuplicateKey and leaves size, order and every existing value intact.
    let mut store = two_channel_store();
    let channels = FieldPath::root().field(0);
    let notes0 = FieldPath::root().field(0).key(0).field(1);
    store.insert_at(&notes0, 5, note(72), None).unwrap();

    let before_keys = store.keys_at(&channels).unwrap();
    let r = store.insert_at(&channels, 0, channel("Imposter"), None);
    assert_eq!(r, Err(StoreError::DuplicateKey));
    assert_eq!(store.keys_at(&channels).unwrap(), before_keys);
    let name0 = FieldPath::root().field(0).key(0).field(0);
    assert_eq!(
        store.read(&name0).unwrap(),
        &Value::Text(String::from("Channel 1"))
    );
    let pitch5 = FieldPath::root().field(0).key(0).field(1).key(5).field(0);
    assert_eq!(store.read(&pitch5).unwrap(), &Value::Int(72));
    // The batch gained nothing from the failed insert.
    assert_eq!(store.flush(), Vec::<u64>::new());
}

#[test]
fn removal_makes_field_paths_stale() {
    // Seed scenario: after removing channel 1, a previously built path into
    // one of its notes fails with StaleReference on both read and write.
    let mut store = two_channel_store();
    let notes1 = FieldPath::root().field(0).key(1).field(1);
    store.insert_at(&notes1, 3, note(62), None).unwrap();
    let pitch = FieldPath::root().field(0).key(1).field(1).key(3).field(0);
    assert_eq!(store.read(&pitch).unwrap(), &Value::Int(62));

    let channels = FieldPath::root().field(0);
    store.remove_at(&channels, 1).unwrap();
    assert_eq!(store.read(&pitch), Err(StoreError::StaleReference));
    assert_eq!(store.set(&pitch, Value::Int(63)), Err(StoreError::StaleReference));
    assert_eq!(store.read_tracked(&pitch, 4), Err(StoreError::StaleReference));
}

#[test]
fn remove_then_insert_same_entity_round_trips() {
    // Removing a key and reinserting an equally built entity at the same
    // position restores a structurally equal collection (as a fresh
    // entity; signal identity is deliberately not preserved).
    let mut store = two_channel_store();
    let channels = FieldPath::root().field(0);
    store.remove_at(&channels, 1).unwrap();
    assert_eq!(store.keys_at(&channels).unwrap(), vec![0]);
    store
        .insert_at(&channels, 1, channel("Channel 2"), Some(1))
        .unwrap();
    assert_eq!(store.keys_at(&channels).unwrap(), vec![0, 1]);
    let name1 = FieldPath::root().field(0).key(1).field(0);
    assert_eq!(
        store.read(&name1).unwrap(),
        &Value::Text(String::from("Channel 2"))
    );
}

#[test]
fn error_variants_are_reported() {
    let mut store = two_channel_store();
    let channels = FieldPath::root().field(0);
    let bpm = FieldPath::root().field(1);
    // KeyNotFound: removing or moving an absent key.
    assert_eq!(store.remove_at(&channels, 9), Err(StoreError::KeyNotFound));
    assert_eq!(store.move_at(&channels, 9, 0), Err(StoreError::KeyNotFound));
    // NotFound: a position beyond the end, or a node of the wrong shape.
    assert_eq!(store.move_at(&channels, 0, 7), Err(StoreError::NotFound));
    assert_eq!(
        store.insert_at(&channels, 7, channel("X"), Some(9)),
        Err(StoreError::NotFound)
    );
    assert_eq!(store.read(&channels), Err(StoreError::NotFound));
    assert_eq!(store.keys_at(&bpm), Err(StoreError::NotFound));
    assert_eq!(store.set(&channels, Value::Int(1)), Err(StoreError::NotFound));
    // StaleReference: a path that does not resolve.
    let missing = FieldPath::root().field(0).key(9).field(0);
    assert_eq!(store.read(&missing), Err(StoreError::StaleReference));
    let beyond = FieldPath::root().field(5);
    assert_eq!(store.read(&beyond), Err(StoreError::StaleReference));
}

#[test]
fn flush_empties_the_batch_and_deduplicates() {
    let mut store = two_channel_store();
    let bpm = FieldPath::root().field(1);
    let name0 = FieldPath::root().field(0).key(0).field(0);
    let sub = 3;
    store.read_tracked(&bpm, sub).unwrap();
    store.read_tracked(&name0, sub).unwrap();
    store.flush();
    // Two writes that both touch signals this subscriber reads enqueue it
    // once.
    store.set(&bpm, Value::Int(90)).unwrap();
    store
        .set(&name0, Value::Text(String::from("Drums")))
        .unwrap();
    assert_eq!(store.flush(), vec![sub]);
    assert_eq!(store.flush(), Vec::<u64>::new());
}

#[test]
fn paths_are_reusable_descriptors() {
    let store = two_channel_store();
    let p = FieldPath::root().field(0).key(0).field(0);
    let q = p.duplicate();
    assert_eq!(p, q);
    assert_eq!(store.read(&p).unwrap(), store.read(&q).unwrap());
}

#[test]
fn cleared_subscriber_is_not_notified_again() {
    // Before a subscriber re-runs, its stale dependency edges are
    // discarded; a write after that cannot notify it until it reads again.
    let mut store = two_channel_store();
    let bpm = FieldPath::root().field(1);
    let sub = 6;
    store.read_tracked(&bpm, sub).unwrap();
    store.flush();
    store.clear_subscriber(sub);
    store.set(&bpm, Value::Int(99)).unwrap();
    assert_eq!(store.flush(), Vec::<u64>::new());
    // Re-reading re-registers the fresh dependency.
    store.read_tracked(&bpm, sub).unwrap();
    store.set(&bpm, Value::Int(100)).unwrap();
    assert_eq!(store.flush(), vec![sub]);
}
