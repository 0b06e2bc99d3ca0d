use keyed_store::diff::{apply, diff, Patch};

#[test]
fn move_to_front_is_one_patch() {
    // Seed scenario: diffing [0, 1] against [1, 0] emits exactly one move.
    let a = vec![0, 1];
    let b = vec![1, 0];
    let ps = diff(&a, &b);
    assert_eq!(ps, vec![Patch::Move { key: 1, to: 0 }]);
    assert_eq!(apply(&a, &ps), Some(b));
}

#[test]
fn diff_applies_back_to_target() {
    let cases: Vec<(Vec<u64>, Vec<u64>)> = vec![
        (vec![], vec![]),
        (vec![], vec![1, 2, 3]),
        (vec![1, 2, 3], vec![]),
        (vec![1, 2, 3], vec![3, 2, 1]),
        (vec![1, 2, 3, 4], vec![2, 4, 5, 1]),
        (vec![10, 20], vec![20, 30, 10, 40]),
        (vec![7], vec![7]),
        (vec![5, 6, 7, 8, 9], vec![9, 5, 8, 6]),
    ];
    for (a, b) in cases {
        let ps = diff(&a, &b);
        assert_eq!(apply(&a, &ps), Some(b.clone()), "a={:?} b={:?}", a, b);
    }
}

#[test]
fn surviving_keys_are_never_removed_or_inserted() {
    let a = vec![1, 2, 3, 4];
    let b = vec![4, 2, 5, 1];
    let ps = diff(&a, &b);
    for p in &ps {
        match p {
            Patch::Remove { key } => assert!(!b.contains(key)),
            Patch::Insert { key, .. } => assert!(!a.contains(key)),
            Patch::Move { key, .. } => {
                assert!(a.contains(key) && b.contains(key));
            }
        }
    }
}

#[test]
fn pure_removal_is_minimal() {
    let a = vec![1, 2, 3, 4, 5];
    let b = vec![2, 4];
    let ps = diff(&a, &b);
    assert_eq!(ps.len(), 3);
    assert!(ps
        .iter()
        .all(|p| matches!(p, Patch::Remove { .. })));
    assert_eq!(apply(&a, &ps), Some(b));
}

#[test]
fn pure_insertion_is_minimal() {
    let a = vec![2, 4];
    let b = vec![1, 2, 3, 4, 5];
    let ps = diff(&a, &b);
    assert_eq!(ps.len(), 3);
    assert!(ps
        .iter()
        .all(|p| matches!(p, Patch::Insert { .. })));
    assert_eq!(apply(&a, &ps), Some(b));
}

#[test]
fn unchanged_order_needs_no_patches() {
    let a = vec![3, 1, 4];
    let ps = diff(&a, &a);
    assert_eq!(ps, Vec::<Patch>::new());
}

#[test]
fn apply_rejects_inapplicable_patches() {
    // Removing an absent key, inserting a live key, or aiming past the end
    // all fail without producing a sequence.
    let a = vec![1, 2];
    assert_eq!(apply(&a, &vec![Patch::Remove { key: 9 }]), None);
    assert_eq!(apply(&a, &vec![Patch::Insert { key: 1, at: 0 }]), None);
    assert_eq!(apply(&a, &vec![Patch::Insert { key: 3, at: 9 }]), None);
    assert_eq!(apply(&a, &vec![Patch::Move { key: 1, to: 5 }]), None);
    assert_eq!(apply(&a, &vec![Patch::Move { key: 7, to: 0 }]), None);
}
