use keyed_store::signal::{enqueue_subs, Signal};
use keyed_store::value::Value;

#[test]
fn signal_read_write_and_versioning() {
    let mut sig = Signal::new(Value::Int(7));
    assert_eq!(sig.peek(), &Value::Int(7));
    // An untracked read registers nothing.
    assert_eq!(sig.read(None), &Value::Int(7));
    let mut pending: Vec<u64> = Vec::new();
    sig.write(Value::Int(8), &mut pending);
    assert_eq!(sig.peek(), &Value::Int(8));
    assert_eq!(pending, Vec::<u64>::new());
}

#[test]
fn tracked_read_registers_and_write_enqueues() {
    let mut sig = Signal::new(Value::Int(0));
    assert_eq!(sig.read(Some(11)), &Value::Int(0));
    // Reading twice in the same context registers once.
    assert_eq!(sig.read(Some(11)), &Value::Int(0));
    sig.read(Some(12));
    let mut pending: Vec<u64> = vec![12];
    sig.write(Value::Int(1), &mut pending);
    // 12 was already queued; 11 joins once.
    assert_eq!(pending, vec![12, 11]);
}

#[test]
fn unsubscribe_removes_the_edge() {
    let mut sig = Signal::new(Value::Int(0));
    sig.subscribe(21);
    sig.subscribe(22);
    sig.unsubscribe(21);
    let mut pending: Vec<u64> = Vec::new();
    sig.write(Value::Int(1), &mut pending);
    assert_eq!(pending, vec![22]);
}

#[test]
fn enqueue_skips_already_queued_subscribers() {
    let mut pending: Vec<u64> = vec![1, 2];
    let subs: Vec<u64> = vec![2, 3, 3, 1, 4];
    enqueue_subs(&mut pending, &subs);
    assert_eq!(pending, vec![1, 2, 3, 4]);
}
