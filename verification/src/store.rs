use vstd::prelude::*;

use crate::path::{FieldPath, Step};
use crate::signal::{
    enqueue_all, next_version, subs_with, Signal, SignalView,
};
use crate::tree::{
    coll_wf, entity_wf, find_entry, keys_of, lemma_entries_view_update, lemma_find_entry,
    lemma_nodes_view_update, lemma_view_of_entries, lemma_view_of_nodes, node_wf, view_of_coll,
    view_of_entity, view_of_entries, view_of_entry, view_of_node, view_of_nodes, CollectionView, Entry,
    Entity, EntityView, EntryView, KeyedCollection, Node, NodeView,
};
use crate::value::{StoreError, Value};

verus! {

broadcast use lemma_entries_view_update, lemma_nodes_view_update, crate::tree::lemma_seq_update_identity;

// ---------------------------------------------------------------------------
// Path resolution over the model.
// ---------------------------------------------------------------------------

/// The node a path addresses inside an entity, if any.
///
/// A path must open with `Into`; after a field that holds a collection, an
/// `At` step selects an entry by key and resolution continues inside it.
/// Resolution fails on an out-of-range field, a key that is not live, a
/// step against a node of the wrong shape, or an empty remainder.
pub open spec fn resolve_entity(e: EntityView, steps: Seq<Step>) -> Option<NodeView>
    decreases steps.len(),
{
    if steps.len() == 0 {
        None
    } else {
        match steps[0] {
            Step::At(_) => None,
            Step::Into(f) => {
                if (f as int) < e.fields.len() {
                    let n = e.fields[f as int];
                    if steps.len() == 1 {
                        Some(n)
                    } else {
                        match n {
                            NodeView::Scalar(_) => None,
                            NodeView::Collection(c) => match steps[1] {
                                Step::Into(_) => None,
                                Step::At(k) => {
                                    let j = find_entry(c.entries, k);
                                    if j >= 0 {
                                        resolve_entity(c.entries[j].entity, steps.skip(2))
                                    } else {
                                        None
                                    }
                                },
                            },
                        }
                    }
                } else {
                    None
                }
            },
        }
    }
}

/// The entity after replacing the node the path addresses by `n2`; the
/// entity unchanged when the path does not resolve.
pub open spec fn with_node(e: EntityView, steps: Seq<Step>, n2: NodeView) -> EntityView
    decreases steps.len(),
{
    if steps.len() == 0 {
        e
    } else {
        match steps[0] {
            Step::At(_) => e,
            Step::Into(f) => {
                if (f as int) < e.fields.len() {
                    let n = e.fields[f as int];
                    if steps.len() == 1 {
                        EntityView { fields: e.fields.update(f as int, n2) }
                    } else {
                        match n {
                            NodeView::Scalar(_) => e,
                            NodeView::Collection(c) => match steps[1] {
                                Step::Into(_) => e,
                                Step::At(k) => {
                                    let j = find_entry(c.entries, k);
                                    if j >= 0 {
                                        EntityView {
                                            fields: e.fields.update(
                                                f as int,
                                                NodeView::Collection(
                                                    CollectionView {
                                                        entries: c.entries.update(
                                                            j,
                                                            EntryView {
                                                                key: k,
                                                                entity: with_node(
                                                                    c.entries[j].entity,
                                                                    steps.skip(2),
                                                                    n2,
                                                                ),
                                                            },
                                                        ),
                                                        subs: c.subs,
                                                    },
                                                ),
                                            ),
                                        }
                                    } else {
                                        e
                                    }
                                },
                            },
                        }
                    }
                } else {
                    e
                }
            },
        }
    }
}

/// The node with one more subscriber registered on it.
pub open spec fn node_with_sub(n: NodeView, s: u64) -> NodeView {
    match n {
        NodeView::Scalar(sig) => NodeView::Scalar(
            SignalView { value: sig.value, version: sig.version, subs: subs_with(sig.subs, s) },
        ),
        NodeView::Collection(c) => NodeView::Collection(
            CollectionView { entries: c.entries, subs: subs_with(c.subs, s) },
        ),
    }
}

/// The entity after a tracked read of the path by subscriber `s`: `s` is
/// registered on every collection the path passes through and on the node
/// it ends at; the entity unchanged when the path does not resolve.
pub open spec fn track_entity(e: EntityView, steps: Seq<Step>, s: u64) -> EntityView
    decreases steps.len(),
{
    if resolve_entity(e, steps) is None {
        e
    } else {
        match steps[0] {
            Step::At(_) => e,
            Step::Into(f) => {
                let n = e.fields[f as int];
                if steps.len() == 1 {
                    EntityView { fields: e.fields.update(f as int, node_with_sub(n, s)) }
                } else {
                    match n {
                        NodeView::Scalar(_) => e,
                        NodeView::Collection(c) => match steps[1] {
                            Step::Into(_) => e,
                            Step::At(k) => {
                                let j = find_entry(c.entries, k);
                                EntityView {
                                    fields: e.fields.update(
                                        f as int,
                                        NodeView::Collection(
                                            CollectionView {
                                                entries: c.entries.update(
                                                    j,
                                                    EntryView {
                                                        key: k,
                                                        entity: track_entity(
                                                            c.entries[j].entity,
                                                            steps.skip(2),
                                                            s,
                                                        ),
                                                    },
                                                ),
                                                subs: subs_with(c.subs, s),
                                            },
                                        ),
                                    ),
                                }
                            },
                        },
                    }
                }
            },
        }
    }
}

/// Replacing the addressed node by a well-formed one keeps the whole tree
/// well formed.
pub proof fn lemma_with_node_wf(e: EntityView, steps: Seq<Step>, n2: NodeView)
    requires
        entity_wf(e),
        node_wf(n2),
    ensures
        entity_wf(with_node(e, steps, n2)),
    decreases steps.len(),
{
    if steps.len() == 0 {
    } else {
        match steps[0] {
            Step::At(_) => {},
            Step::Into(f) => {
                if (f as int) < e.fields.len() {
                    let n = e.fields[f as int];
                    assert(node_wf(n));
                    if steps.len() == 1 {
                        let e2 = EntityView { fields: e.fields.update(f as int, n2) };
                        assert forall|i: int| 0 <= i < e2.fields.len() implies node_wf(
                            #[trigger] e2.fields[i],
                        ) by {
                            if i != f {
                                assert(e2.fields[i] == e.fields[i]);
                            }
                        }
                    } else {
                        match n {
                            NodeView::Scalar(_) => {},
                            NodeView::Collection(c) => match steps[1] {
                                Step::Into(_) => {},
                                Step::At(k) => {
                                    let j = find_entry(c.entries, k);
                                    if j >= 0 {
                                        lemma_find_entry(c.entries, k);
                                        assert(entity_wf(c.entries[j].entity));
                                        lemma_with_node_wf(c.entries[j].entity, steps.skip(2), n2);
                                        let en2 = EntryView {
                                            key: k,
                                            entity: with_node(c.entries[j].entity, steps.skip(2), n2),
                                        };
                                        let c2 = CollectionView {
                                            entries: c.entries.update(j, en2),
                                            subs: c.subs,
                                        };
                                        assert(keys_of(c2.entries) =~= keys_of(c.entries));
                                        assert forall|i: int| 0 <= i < c2.entries.len() implies entity_wf(
                                            (#[trigger] c2.entries[i]).entity,
                                        ) by {
                                            if i != j {
                                                assert(c2.entries[i] == c.entries[i]);
                                            }
                                        }
                                        assert(coll_wf(c2));
                                        let e2 = with_node(e, steps, n2);
                                        assert(e2.fields == e.fields.update(
                                            f as int,
                                            NodeView::Collection(c2),
                                        ));
                                        assert forall|i: int| 0 <= i < e2.fields.len() implies node_wf(
                                            #[trigger] e2.fields[i],
                                        ) by {
                                            if i != f {
                                                assert(e2.fields[i] == e.fields[i]);
                                            }
                                        }
                                    }
                                },
                            },
                        }
                    }
                }
            },
        }
    }
}

// ---------------------------------------------------------------------------
// Executable resolution.
// ---------------------------------------------------------------------------

/// A mutable borrow of one vector element, with the final vector related
/// to the final element.
fn vec_index_mut<T>(v: &mut Vec<T>, i: usize) -> (element: &mut T)
    requires
        i < old(v).len(),
    ensures
        *element == old(v)@[i as int],
        final(v)@ == old(v)@.update(i as int, *final(element)),
{
    &mut v[i]
}

/// Resolve a path inside `e`, read-only.
fn entity_node_ref<'a>(e: &'a Entity, steps: &Vec<Step>, i: usize) -> (r: Result<
    &'a Node,
    StoreError,
>)
    requires
        i <= steps@.len(),
    ensures
        match r {
            Ok(n) => resolve_entity(e@, steps@.skip(i as int)) == Some(view_of_node(*n)),
            Err(err) => err == StoreError::StaleReference && resolve_entity(
                e@,
                steps@.skip(i as int),
            ) is None,
        },
    decreases steps@.len() - i,
{
    let ghost sk = steps@.skip(i as int);
    if i == steps.len() {
        proof {
            assert(sk.len() == 0);
        }
        return Err(StoreError::StaleReference);
    }
    proof {
        assert(sk[0] == steps@[i as int]);
        lemma_view_of_nodes(e.fields@);
    }
    let st = steps[i];
    match st {
        Step::At(_) => Err(StoreError::StaleReference),
        Step::Into(f) => {
            if f >= e.fields.len() {
                return Err(StoreError::StaleReference);
            }
            if i + 1 == steps.len() {
                proof {
                    assert(sk.len() == 1);
                }
                Ok(&e.fields[f])
            } else {
                proof {
                    assert(sk.len() >= 2);
                    assert(sk[1] == steps@[i as int + 1]);
                }
                let st2 = steps[i + 1];
                match st2 {
                    Step::Into(_) => Err(StoreError::StaleReference),
                    Step::At(k) => {
                        match &e.fields[f] {
                            Node::Scalar(_) => Err(StoreError::StaleReference),
                            Node::Collection(c) => {
                                proof {
                                    lemma_view_of_entries(c.entries@);
                                    lemma_find_entry(view_of_coll(*c).entries, k);
                                }
                                match c.find(k) {
                                    None => Err(StoreError::StaleReference),
                                    Some(j) => {
                                        proof {
                                            assert(sk.skip(2) =~= steps@.skip(i as int + 2));
                                        }
                                        entity_node_ref(&c.entries[j].entity, steps, i + 2)
                                    },
                                }
                            },
                        }
                    },
                }
            }
        },
    }
}

/// Write `v` into the scalar the path addresses: the signal's version
/// advances and its subscribers are enqueued on `pending`.
///
/// On failure nothing changes: `StaleReference` when the path does not
/// resolve, `NotFound` when it resolves to a collection.
fn entity_write(
    e: &mut Entity,
    steps: &Vec<Step>,
    i: usize,
    v: Value,
    pending: &mut Vec<u64>,
) -> (r: Result<(), StoreError>)
    requires
        i <= steps@.len(),
    ensures
        match r {
            Ok(()) => ({
                &&& resolve_entity(old(e)@, steps@.skip(i as int)) matches Some(
                    NodeView::Scalar(sig0),
                ) && final(e)@ == with_node(
                    old(e)@,
                    steps@.skip(i as int),
                    NodeView::Scalar(
                        SignalView {
                            value: v,
                            version: next_version(sig0.version),
                            subs: sig0.subs,
                        },
                    ),
                ) && final(pending)@ == enqueue_all(old(pending)@, sig0.subs)
            }),
            Err(err) => final(e)@ == old(e)@ && final(pending)@ == old(pending)@ && (err
                == StoreError::StaleReference || err == StoreError::NotFound) && (err
                == StoreError::StaleReference <==> resolve_entity(
                old(e)@,
                steps@.skip(i as int),
            ) is None) && (err == StoreError::NotFound <==> resolve_entity(
                old(e)@,
                steps@.skip(i as int),
            ) matches Some(NodeView::Collection(_))),
        },
    decreases steps@.len() - i,
{
    let ghost sk = steps@.skip(i as int);
    if i == steps.len() {
        proof {
            assert(sk.len() == 0);
        }
        return Err(StoreError::StaleReference);
    }
    proof {
        assert(sk[0] == steps@[i as int]);
        lemma_view_of_nodes(e.fields@);
    }
    let st = steps[i];
    match st {
        Step::At(_) => Err(StoreError::StaleReference),
        Step::Into(f) => {
            if f >= e.fields.len() {
                return Err(StoreError::StaleReference);
            }
            let ghost fields0 = e.fields@;
            if i + 1 == steps.len() {
                proof {
                    assert(sk.len() == 1);
                }
                let node = vec_index_mut(&mut e.fields, f);
                match node {
                    Node::Scalar(sig) => {
                        sig.write(v, pending);
                        proof {
                            assert(final(e).fields@ == fields0.update(f as int, *final(node)));
                            lemma_nodes_view_update(fields0, f as int, *final(node));
                            assert(view_of_node(*final(node)) == NodeView::Scalar(final(sig)@));
                        }
                        Ok(())
                    },
                    Node::Collection(_) => {
                        proof {
                            assert(final(e).fields@ == fields0.update(f as int, *final(node)));
                            lemma_nodes_view_update(fields0, f as int, *final(node));
                            crate::tree::lemma_seq_update_identity(
                                view_of_nodes(fields0),
                                f as int,
                                view_of_node(*final(node)),
                            );
                        }
                        Err(StoreError::NotFound)
                    },
                }
            } else {
                proof {
                    assert(sk.len() >= 2);
                    assert(sk[1] == steps@[i as int + 1]);
                    assert(sk.skip(2) =~= steps@.skip(i as int + 2));
                }
                let st2 = steps[i + 1];
                match st2 {
                    Step::Into(_) => Err(StoreError::StaleReference),
                    Step::At(k) => {
                        let node = vec_index_mut(&mut e.fields, f);
                        match node {
                            Node::Scalar(_) => {
                                proof {
                                    assert(final(e).fields@ == fields0.update(
                                        f as int,
                                        *final(node),
                                    ));
                                    lemma_nodes_view_update(fields0, f as int, *final(node));
                                    crate::tree::lemma_seq_update_identity(
                                        view_of_nodes(fields0),
                                        f as int,
                                        view_of_node(*final(node)),
                                    );
                                }
                                Err(StoreError::StaleReference)
                            },
                            Node::Collection(c) => {
                                proof {
                                    lemma_view_of_entries(c.entries@);
                                    lemma_find_entry(view_of_coll(*c).entries, k);
                                }
                                match c.find(k) {
                                    None => {
                                        proof {
                                            assert(final(e).fields@ == fields0.update(
                                                f as int,
                                                *final(node),
                                            ));
                                            lemma_nodes_view_update(fields0, f as int, *final(node));
                                            crate::tree::lemma_seq_update_identity(
                                                view_of_nodes(fields0),
                                                f as int,
                                                view_of_node(*final(node)),
                                            );
                                        }
                                        Err(StoreError::StaleReference)
                                    },
                                    Some(j) => {
                                        let ghost entries0 = c.entries@;
                                        let ghost subs0 = c.subs@;
                                        let entry = vec_index_mut(&mut c.entries, j);
                                        let ghost key0 = entry.key;
                                        let ghost child0 = entry.entity;
                                        let r = entity_write(&mut entry.entity, steps, i + 2, v, pending);
                                        proof {
                                            assert(key0 == k);
                                            assert(view_of_entries(entries0)[j as int]
                                                == view_of_entry(entries0[j as int]));
                                            assert(view_of_entry(*final(entry)) == (EntryView {
                                                key: k,
                                                entity: view_of_entity(final(entry).entity),
                                            }));
                                            assert(final(c).entries@ == entries0.update(
                                                j as int,
                                                *final(entry),
                                            ));
                                            assert(final(c).subs@ == subs0);
                                            lemma_entries_view_update(
                                                entries0,
                                                j as int,
                                                *final(entry),
                                            );
                                            assert(final(e).fields@ == fields0.update(
                                                f as int,
                                                *final(node),
                                            ));
                                            lemma_nodes_view_update(
                                                fields0,
                                                f as int,
                                                *final(node),
                                            );
                                            assert(resolve_entity(old(e)@, sk) == resolve_entity(
                                                view_of_entity(child0),
                                                sk.skip(2),
                                            ));
                                            if r is Err {
                                                assert(view_of_entity(final(entry).entity)
                                                    == view_of_entity(child0));
                                                assert(view_of_entry(*final(entry))
                                                    == view_of_entries(entries0)[j as int]);
                                                crate::tree::lemma_seq_update_identity(
                                                    view_of_entries(entries0),
                                                    j as int,
                                                    view_of_entry(*final(entry)),
                                                );
                                                assert(view_of_entries(final(c).entries@)
                                                    == view_of_entries(entries0));
                                                assert(view_of_node(*final(node))
                                                    == view_of_nodes(fields0)[f as int]);
                                                crate::tree::lemma_seq_update_identity(
                                                    view_of_nodes(fields0),
                                                    f as int,
                                                    view_of_node(*final(node)),
                                                );
                                                assert(final(e)@.fields == view_of_nodes(
                                                    fields0,
                                                ));
                                            } else {
                                                let n0 = resolve_entity(
                                                    view_of_entity(child0),
                                                    sk.skip(2),
                                                );
                                                match n0 {
                                                    Some(NodeView::Scalar(sig0)) => {
                                                        let n2 = NodeView::Scalar(
                                                            SignalView {
                                                                value: v,
                                                                version: next_version(sig0.version),
                                                                subs: sig0.subs,
                                                            },
                                                        );
                                                        assert(view_of_entity(final(entry).entity)
                                                            == with_node(
                                                            view_of_entity(child0),
                                                            sk.skip(2),
                                                            n2,
                                                        ));
                                                        assert(view_of_coll(*final(c))
                                                            == (CollectionView {
                                                            entries: view_of_entries(
                                                                entries0,
                                                            ).update(
                                                                j as int,
                                                                EntryView {
                                                                    key: k,
                                                                    entity: with_node(
                                                                        view_of_entity(child0),
                                                                        sk.skip(2),
                                                                        n2,
                                                                    ),
                                                                },
                                                            ),
                                                            subs: subs0,
                                                        }));
                                                        assert(final(e)@.fields == view_of_nodes(
                                                            fields0,
                                                        ).update(
                                                            f as int,
                                                            NodeView::Collection(
                                                                view_of_coll(*final(c)),
                                                            ),
                                                        ));
                                                        assert(final(e)@ == with_node(
                                                            old(e)@,
                                                            sk,
                                                            n2,
                                                        ));
                                                    },
                                                    _ => {
                                                        assert(false);
                                                    },
                                                }
                                            }
                                        }
                                        r
                                    },
                                }
                            },
                        }
                    },
                }
            }
        },
    }
}

/// One structural edit aimed at a collection node.
pub enum EditOp {
    /// Insert `entity` under `key` at `pos` (at the end when `None`).
    InsertOp { key: u64, entity: Entity, pos: Option<usize> },
    /// Remove the entry keyed `key`.
    RemoveOp { key: u64 },
    /// Move the entry keyed `key` so that it ends at position `to`.
    MoveOp { key: u64, to: usize },
}

/// The position an insert lands at.
pub open spec fn insert_pos(c: CollectionView, pos: Option<usize>) -> int {
    match pos {
        None => c.entries.len() as int,
        Some(p) => p as int,
    }
}

/// Whether the edit applies to the collection.
pub open spec fn edit_ok(c: CollectionView, op: EditOp) -> bool {
    match op {
        EditOp::InsertOp { key, entity, pos } => !keys_of(c.entries).contains(key) && insert_pos(
            c,
            pos,
        ) <= c.entries.len(),
        EditOp::RemoveOp { key } => keys_of(c.entries).contains(key),
        EditOp::MoveOp { key, to } => keys_of(c.entries).contains(key) && (to as int)
            < c.entries.len(),
    }
}

/// The collection after a successful edit.
pub open spec fn edited(c: CollectionView, op: EditOp) -> CollectionView {
    match op {
        EditOp::InsertOp { key, entity, pos } => CollectionView {
            entries: c.entries.insert(
                insert_pos(c, pos),
                EntryView { key, entity: view_of_entity(entity) },
            ),
            subs: c.subs,
        },
        EditOp::RemoveOp { key } => CollectionView {
            entries: c.entries.remove(find_entry(c.entries, key)),
            subs: c.subs,
        },
        EditOp::MoveOp { key, to } => CollectionView {
            entries: c.entries.remove(find_entry(c.entries, key)).insert(
                to as int,
                c.entries[find_entry(c.entries, key)],
            ),
            subs: c.subs,
        },
    }
}

/// The error a failing edit reports.
pub open spec fn edit_err(c: CollectionView, op: EditOp) -> StoreError {
    match op {
        EditOp::InsertOp { key, entity, pos } => if keys_of(c.entries).contains(key) {
            StoreError::DuplicateKey
        } else {
            StoreError::NotFound
        },
        EditOp::RemoveOp { key } => StoreError::KeyNotFound,
        EditOp::MoveOp { key, to } => if !keys_of(c.entries).contains(key) {
            StoreError::KeyNotFound
        } else {
            StoreError::NotFound
        },
    }
}

/// Whether the entity an insert carries is well formed.
pub open spec fn edit_entity_wf(op: EditOp) -> bool {
    match op {
        EditOp::InsertOp { key, entity, pos } => entity_wf(view_of_entity(entity)),
        _ => true,
    }
}

/// Apply a structural edit to the collection the path addresses, enqueueing
/// its structural subscribers on success.
///
/// On failure nothing changes: `StaleReference` when the path does not
/// resolve, `NotFound` when it resolves to a scalar, and the edit's own
/// error when it does not apply to the collection found.
fn entity_coll_edit(
    e: &mut Entity,
    steps: &Vec<Step>,
    i: usize,
    op: EditOp,
    pending: &mut Vec<u64>,
) -> (r: Result<(), StoreError>)
    requires
        i <= steps@.len(),
    ensures
        match r {
            Ok(()) => ({
                &&& resolve_entity(old(e)@, steps@.skip(i as int)) matches Some(
                    NodeView::Collection(c0),
                ) && edit_ok(c0, op) && final(e)@ == with_node(
                    old(e)@,
                    steps@.skip(i as int),
                    NodeView::Collection(edited(c0, op)),
                ) && final(pending)@ == enqueue_all(old(pending)@, c0.subs) && (coll_wf(c0)
                    && edit_entity_wf(op) ==> coll_wf(edited(c0, op)))
            }),
            Err(err) => final(e)@ == old(e)@ && final(pending)@ == old(pending)@ && (
            resolve_entity(old(e)@, steps@.skip(i as int)) is None ==> err
                == StoreError::StaleReference) && (err == StoreError::StaleReference
                ==> resolve_entity(old(e)@, steps@.skip(i as int)) is None) && (resolve_entity(
                old(e)@,
                steps@.skip(i as int),
            ) matches Some(NodeView::Scalar(_)) ==> err == StoreError::NotFound) && (
            resolve_entity(old(e)@, steps@.skip(i as int)) matches Some(NodeView::Collection(c0))
                ==> !edit_ok(c0, op) && err == edit_err(c0, op)),
        },
    decreases steps@.len() - i,
{
    let ghost sk = steps@.skip(i as int);
    if i == steps.len() {
        proof {
            assert(sk.len() == 0);
        }
        return Err(StoreError::StaleReference);
    }
    proof {
        assert(sk[0] == steps@[i as int]);
        lemma_view_of_nodes(e.fields@);
    }
    let st = steps[i];
    match st {
        Step::At(_) => Err(StoreError::StaleReference),
        Step::Into(f) => {
            if f >= e.fields.len() {
                return Err(StoreError::StaleReference);
            }
            let ghost fields0 = e.fields@;
            if i + 1 == steps.len() {
                proof {
                    assert(sk.len() == 1);
                }
                let node = vec_index_mut(&mut e.fields, f);
                match node {
                    Node::Scalar(_) => {
                        proof {
                            assert(final(e).fields@ == fields0.update(f as int, *final(node)));
                            lemma_nodes_view_update(fields0, f as int, *final(node));
                            crate::tree::lemma_seq_update_identity(
                                view_of_nodes(fields0),
                                f as int,
                                view_of_node(*final(node)),
                            );
                        }
                        Err(StoreError::NotFound)
                    },
                    Node::Collection(c) => {
                        let ghost c0 = view_of_coll(*c);
                        let ghost gkey: u64 = (match op {
                            EditOp::InsertOp { key, .. } => key,
                            EditOp::RemoveOp { key } => key,
                            EditOp::MoveOp { key, .. } => key,
                        });
                        proof {
                            lemma_find_entry(c0.entries, gkey);
                        }
                        let r = match op {
                            EditOp::InsertOp { key, entity, pos } => c.insert(
                                key,
                                entity,
                                pos,
                                pending,
                            ),
                            EditOp::RemoveOp { key } => c.remove(key, pending),
                            EditOp::MoveOp { key, to } => c.move_key(key, to, pending),
                        };
                        proof {
                            assert(final(e).fields@ == fields0.update(f as int, *final(node)));
                            lemma_nodes_view_update(fields0, f as int, *final(node));
                            if r is Err {
                                crate::tree::lemma_seq_update_identity(
                                    view_of_nodes(fields0),
                                    f as int,
                                    view_of_node(*final(node)),
                                );
                            } else {
                                assert(view_of_node(*final(node)) == NodeView::Collection(
                                    view_of_coll(*final(c)),
                                ));
                            }
                        }
                        r
                    },
                }
            } else {
                proof {
                    assert(sk.len() >= 2);
                    assert(sk[1] == steps@[i as int + 1]);
                    assert(sk.skip(2) =~= steps@.skip(i as int + 2));
                }
                let st2 = steps[i + 1];
                match st2 {
                    Step::Into(_) => Err(StoreError::StaleReference),
                    Step::At(k) => {
                        let node = vec_index_mut(&mut e.fields, f);
                        match node {
                            Node::Scalar(_) => {
                                proof {
                                    assert(final(e).fields@ == fields0.update(
                                        f as int,
                                        *final(node),
                                    ));
                                    lemma_nodes_view_update(fields0, f as int, *final(node));
                                    crate::tree::lemma_seq_update_identity(
                                        view_of_nodes(fields0),
                                        f as int,
                                        view_of_node(*final(node)),
                                    );
                                }
                                Err(StoreError::StaleReference)
                            },
                            Node::Collection(c) => {
                                proof {
                                    lemma_view_of_entries(c.entries@);
                                    lemma_find_entry(view_of_coll(*c).entries, k);
                                }
                                match c.find(k) {
                                    None => {
                                        proof {
                                            assert(final(e).fields@ == fields0.update(
                                                f as int,
                                                *final(node),
                                            ));
                                            lemma_nodes_view_update(fields0, f as int, *final(node));
                                            crate::tree::lemma_seq_update_identity(
                                                view_of_nodes(fields0),
                                                f as int,
                                                view_of_node(*final(node)),
                                            );
                                        }
                                        Err(StoreError::StaleReference)
                                    },
                                    Some(j) => {
                                        let ghost entries0 = c.entries@;
                                        let ghost subs0 = c.subs@;
                                        let entry = vec_index_mut(&mut c.entries, j);
                                        let ghost key0 = entry.key;
                                        let ghost child0 = entry.entity;
                                        let r = entity_coll_edit(&mut entry.entity, steps, i + 2, op, pending);
                                        proof {
                                            assert(key0 == k);
                                            assert(view_of_entries(entries0)[j as int]
                                                == view_of_entry(entries0[j as int]));
                                            assert(view_of_entry(*final(entry)) == (EntryView {
                                                key: k,
                                                entity: view_of_entity(final(entry).entity),
                                            }));
                                            assert(final(c).entries@ == entries0.update(
                                                j as int,
                                                *final(entry),
                                            ));
                                            assert(final(c).subs@ == subs0);
                                            lemma_entries_view_update(
                                                entries0,
                                                j as int,
                                                *final(entry),
                                            );
                                            assert(final(e).fields@ == fields0.update(
                                                f as int,
                                                *final(node),
                                            ));
                                            lemma_nodes_view_update(
                                                fields0,
                                                f as int,
                                                *final(node),
                                            );
                                            assert(resolve_entity(old(e)@, sk) == resolve_entity(
                                                view_of_entity(child0),
                                                sk.skip(2),
                                            ));
                                            if r is Err {
                                                assert(view_of_entity(final(entry).entity)
                                                    == view_of_entity(child0));
                                                assert(view_of_entry(*final(entry))
                                                    == view_of_entries(entries0)[j as int]);
                                                crate::tree::lemma_seq_update_identity(
                                                    view_of_entries(entries0),
                                                    j as int,
                                                    view_of_entry(*final(entry)),
                                                );
                                                assert(view_of_node(*final(node))
                                                    == view_of_nodes(fields0)[f as int]);
                                                crate::tree::lemma_seq_update_identity(
                                                    view_of_nodes(fields0),
                                                    f as int,
                                                    view_of_node(*final(node)),
                                                );
                                                assert(final(e)@.fields == view_of_nodes(
                                                    fields0,
                                                ));
                                            } else {
                                                let n0 = resolve_entity(
                                                    view_of_entity(child0),
                                                    sk.skip(2),
                                                );
                                                match n0 {
                                                    Some(NodeView::Collection(c0)) => {
                                                        let n2 = NodeView::Collection(
                                                            edited(c0, op),
                                                        );
                                                        assert(view_of_entity(final(entry).entity)
                                                            == with_node(
                                                            view_of_entity(child0),
                                                            sk.skip(2),
                                                            n2,
                                                        ));
                                                        assert(view_of_coll(*final(c))
                                                            == (CollectionView {
                                                            entries: view_of_entries(
                                                                entries0,
                                                            ).update(
                                                                j as int,
                                                                EntryView {
                                                                    key: k,
                                                                    entity: with_node(
                                                                        view_of_entity(child0),
                                                                        sk.skip(2),
                                                                        n2,
                                                                    ),
                                                                },
                                                            ),
                                                            subs: subs0,
                                                        }));
                                                        assert(final(e)@.fields == view_of_nodes(
                                                            fields0,
                                                        ).update(
                                                            f as int,
                                                            NodeView::Collection(
                                                                view_of_coll(*final(c)),
                                                            ),
                                                        ));
                                                        assert(final(e)@ == with_node(
                                                            old(e)@,
                                                            sk,
                                                            n2,
                                                        ));
                                                    },
                                                    _ => {
                                                        assert(false);
                                                    },
                                                }
                                            }
                                        }
                                        r
                                    },
                                }
                            },
                        }
                    },
                }
            }
        },
    }
}

/// Register subscriber `s` along the path: on every collection passed
/// through and on the node the path ends at.
///
/// Fails with `StaleReference` exactly when the path does not resolve; on
/// failure nothing is registered.
fn entity_track(e: &mut Entity, steps: &Vec<Step>, i: usize, s: u64) -> (r: Result<
    (),
    StoreError,
>)
    requires
        i <= steps@.len(),
    ensures
        match r {
            Ok(()) => resolve_entity(old(e)@, steps@.skip(i as int)) is Some && final(e)@
                == track_entity(old(e)@, steps@.skip(i as int), s),
            Err(err) => final(e)@ == old(e)@ && err == StoreError::StaleReference
                && resolve_entity(old(e)@, steps@.skip(i as int)) is None,
        },
    decreases steps@.len() - i,
{
    let ghost sk = steps@.skip(i as int);
    if i == steps.len() {
        proof {
            assert(sk.len() == 0);
        }
        return Err(StoreError::StaleReference);
    }
    proof {
        assert(sk[0] == steps@[i as int]);
        lemma_view_of_nodes(e.fields@);
    }
    let st = steps[i];
    match st {
        Step::At(_) => Err(StoreError::StaleReference),
        Step::Into(f) => {
            if f >= e.fields.len() {
                return Err(StoreError::StaleReference);
            }
            let ghost fields0 = e.fields@;
            if i + 1 == steps.len() {
                proof {
                    assert(sk.len() == 1);
                }
                let node = vec_index_mut(&mut e.fields, f);
                match node {
                    Node::Scalar(sig) => {
                        sig.subscribe(s);
                        proof {
                            assert(final(e).fields@ == fields0.update(f as int, *final(node)));
                            lemma_nodes_view_update(fields0, f as int, *final(node));
                            assert(view_of_node(*final(node)) == node_with_sub(
                                view_of_nodes(fields0)[f as int],
                                s,
                            ));
                        }
                        Ok(())
                    },
                    Node::Collection(c) => {
                        c.subscribe(s);
                        proof {
                            assert(final(e).fields@ == fields0.update(f as int, *final(node)));
                            lemma_nodes_view_update(fields0, f as int, *final(node));
                            assert(view_of_node(*final(node)) == NodeView::Collection(
                                view_of_coll(*final(c)),
                            ));
                            assert(view_of_node(*final(node)) == node_with_sub(
                                view_of_nodes(fields0)[f as int],
                                s,
                            ));
                        }
                        Ok(())
                    },
                }
            } else {
                proof {
                    assert(sk.len() >= 2);
                    assert(sk[1] == steps@[i as int + 1]);
                    assert(sk.skip(2) =~= steps@.skip(i as int + 2));
                }
                let st2 = steps[i + 1];
                match st2 {
                    Step::Into(_) => Err(StoreError::StaleReference),
                    Step::At(k) => {
                        let node = vec_index_mut(&mut e.fields, f);
                        match node {
                            Node::Scalar(_) => {
                                proof {
                                    assert(final(e).fields@ == fields0.update(
                                        f as int,
                                        *final(node),
                                    ));
                                    lemma_nodes_view_update(fields0, f as int, *final(node));
                                    crate::tree::lemma_seq_update_identity(
                                        view_of_nodes(fields0),
                                        f as int,
                                        view_of_node(*final(node)),
                                    );
                                }
                                Err(StoreError::StaleReference)
                            },
                            Node::Collection(c) => {
                                proof {
                                    lemma_view_of_entries(c.entries@);
                                    lemma_find_entry(view_of_coll(*c).entries, k);
                                }
                                match c.find(k) {
                                    None => {
                                        proof {
                                            assert(final(e).fields@ == fields0.update(
                                                f as int,
                                                *final(node),
                                            ));
                                            lemma_nodes_view_update(fields0, f as int, *final(node));
                                            crate::tree::lemma_seq_update_identity(
                                                view_of_nodes(fields0),
                                                f as int,
                                                view_of_node(*final(node)),
                                            );
                                        }
                                        Err(StoreError::StaleReference)
                                    },
                                    Some(j) => {
                                        let ghost entries0 = c.entries@;
                                        let ghost subs0 = c.subs@;
                                        let entry = vec_index_mut(&mut c.entries, j);
                                        let ghost key0 = entry.key;
                                        let ghost child0 = entry.entity;
                                        let r = entity_track(&mut entry.entity, steps, i + 2, s);
                                        match r {
                                            Err(err) => {
                                                proof {
                                                    assert(key0 == k);
                                                    assert(view_of_entries(entries0)[j as int]
                                                        == view_of_entry(entries0[j as int]));
                                                    assert(view_of_entry(*final(entry))
                                                        == (EntryView {
                                                        key: k,
                                                        entity: view_of_entity(
                                                            final(entry).entity,
                                                        ),
                                                    }));
                                                    assert(final(c).entries@ == entries0.update(
                                                        j as int,
                                                        *final(entry),
                                                    ));
                                                    assert(final(c).subs@ == subs0);
                                                    lemma_entries_view_update(
                                                        entries0,
                                                        j as int,
                                                        *final(entry),
                                                    );
                                                    assert(final(e).fields@ == fields0.update(
                                                        f as int,
                                                        *final(node),
                                                    ));
                                                    lemma_nodes_view_update(
                                                        fields0,
                                                        f as int,
                                                        *final(node),
                                                    );
                                                    assert(resolve_entity(old(e)@, sk)
                                                        == resolve_entity(
                                                        view_of_entity(child0),
                                                        sk.skip(2),
                                                    ));
                                                    crate::tree::lemma_seq_update_identity(
                                                        view_of_entries(entries0),
                                                        j as int,
                                                        view_of_entry(*final(entry)),
                                                    );
                                                    crate::tree::lemma_seq_update_identity(
                                                        view_of_nodes(fields0),
                                                        f as int,
                                                        view_of_node(*final(node)),
                                                    );
                                                }
                                                Err(err)
                                            },
                                            Ok(()) => {
                                                let ghost entries1 = c.entries@;
                                                c.subscribe(s);
                                                proof {
                                                    assert(key0 == k);
                                                    assert(view_of_entries(entries0)[j as int]
                                                        == view_of_entry(entries0[j as int]));
                                                    assert(entries1 == entries0.update(
                                                        j as int,
                                                        *final(entry),
                                                    ));
                                                    assert(view_of_entry(*final(entry))
                                                        == (EntryView {
                                                        key: k,
                                                        entity: track_entity(
                                                            view_of_entity(child0),
                                                            sk.skip(2),
                                                            s,
                                                        ),
                                                    }));
                                                    lemma_entries_view_update(
                                                        entries0,
                                                        j as int,
                                                        *final(entry),
                                                    );
                                                    assert(view_of_coll(*final(c))
                                                        == (CollectionView {
                                                        entries: view_of_entries(entries1),
                                                        subs: subs_with(subs0, s),
                                                    }));
                                                    assert(final(e).fields@ == fields0.update(
                                                        f as int,
                                                        *final(node),
                                                    ));
                                                    lemma_nodes_view_update(
                                                        fields0,
                                                        f as int,
                                                        *final(node),
                                                    );
                                                    assert(resolve_entity(old(e)@, sk)
                                                        == resolve_entity(
                                                        view_of_entity(child0),
                                                        sk.skip(2),
                                                    ));
                                                    assert(final(e)@ == track_entity(
                                                        old(e)@,
                                                        sk,
                                                        s,
                                                    ));
                                                }
                                                Ok(())
                                            },
                                        }
                                    },
                                }
                            },
                        }
                    },
                }
            }
        },
    }
}

/// Any node a path resolves to inside a well-formed tree is itself well
/// formed.
pub proof fn lemma_resolve_wf(e: EntityView, steps: Seq<Step>)
    requires
        entity_wf(e),
    ensures
        resolve_entity(e, steps) matches Some(n) ==> node_wf(n),
    decreases steps.len(),
{
    if resolve_entity(e, steps) matches Some(n) {
        match steps[0] {
            Step::At(_) => {},
            Step::Into(f) => {
                assert(node_wf(e.fields[f as int]));
                if steps.len() > 1 {
                    match e.fields[f as int] {
                        NodeView::Scalar(_) => {},
                        NodeView::Collection(c) => match steps[1] {
                            Step::Into(_) => {},
                            Step::At(k) => {
                                let j = find_entry(c.entries, k);
                                lemma_find_entry(c.entries, k);
                                lemma_resolve_wf(c.entries[j].entity, steps.skip(2));
                            },
                        },
                    }
                }
            },
        }
    }
}

/// A tracked read changes no value, no version, no key and no entry order:
/// it only grows subscriber sets, so the tree stays well formed.
pub proof fn lemma_track_wf(e: EntityView, steps: Seq<Step>, s: u64)
    requires
        entity_wf(e),
    ensures
        entity_wf(track_entity(e, steps, s)),
    decreases steps.len(),
{
    if resolve_entity(e, steps) is Some {
        match steps[0] {
            Step::At(_) => {},
            Step::Into(f) => {
                let t = track_entity(e, steps, s);
                if steps.len() == 1 {
                    assert forall|i: int| 0 <= i < t.fields.len() implies node_wf(
                        #[trigger] t.fields[i],
                    ) by {
                        if i != f {
                            assert(t.fields[i] == e.fields[i]);
                        } else {
                            assert(node_wf(e.fields[f as int]));
                            match e.fields[f as int] {
                                NodeView::Scalar(_) => {},
                                NodeView::Collection(c) => {
                                    assert(coll_wf(c));
                                },
                            }
                        }
                    }
                } else {
                    match e.fields[f as int] {
                        NodeView::Scalar(_) => {},
                        NodeView::Collection(c) => match steps[1] {
                            Step::Into(_) => {},
                            Step::At(k) => {
                                let j = find_entry(c.entries, k);
                                lemma_find_entry(c.entries, k);
                                assert(node_wf(e.fields[f as int]));
                                assert(entity_wf(c.entries[j].entity));
                                lemma_track_wf(c.entries[j].entity, steps.skip(2), s);
                                let c2 = CollectionView {
                                    entries: c.entries.update(
                                        j,
                                        EntryView {
                                            key: k,
                                            entity: track_entity(c.entries[j].entity, steps.skip(2), s),
                                        },
                                    ),
                                    subs: subs_with(c.subs, s),
                                };
                                assert(keys_of(c2.entries) =~= keys_of(c.entries));
                                assert forall|i: int| 0 <= i < c2.entries.len() implies entity_wf(
                                    (#[trigger] c2.entries[i]).entity,
                                ) by {
                                    if i != j {
                                        assert(c2.entries[i] == c.entries[i]);
                                    }
                                }
                                assert(coll_wf(c2));
                                assert forall|i: int| 0 <= i < t.fields.len() implies node_wf(
                                    #[trigger] t.fields[i],
                                ) by {
                                    if i != f {
                                        assert(t.fields[i] == e.fields[i]);
                                    } else {
                                        assert(t.fields[i] == NodeView::Collection(c2));
                                    }
                                }
                            },
                        },
                    }
                }
            },
        }
    }
}

/// After a tracked read, the path still resolves to the same node, with
/// the reader registered on it.
pub proof fn lemma_resolve_after_track(e: EntityView, steps: Seq<Step>, s: u64)
    ensures
        resolve_entity(e, steps) matches Some(n0) ==> resolve_entity(
            track_entity(e, steps, s),
            steps,
        ) == Some(node_with_sub(n0, s)),
    decreases steps.len(),
{
    match resolve_entity(e, steps) {
        None => {},
        Some(n0) => match steps[0] {
            Step::At(_) => {},
            Step::Into(f) => {
                let t = track_entity(e, steps, s);
                if steps.len() == 1 {
                    assert(t.fields[f as int] == node_with_sub(n0, s));
                } else {
                    match e.fields[f as int] {
                        NodeView::Scalar(_) => {},
                        NodeView::Collection(c) => match steps[1] {
                            Step::Into(_) => {},
                            Step::At(k) => {
                                let j = find_entry(c.entries, k);
                                lemma_find_entry(c.entries, k);
                                let child = c.entries[j].entity;
                                lemma_resolve_after_track(child, steps.skip(2), s);
                                let es2 = c.entries.update(
                                    j,
                                    EntryView { key: k, entity: track_entity(child, steps.skip(2), s) },
                                );
                                lemma_find_entry(es2, k);
                                assert(es2[j].key == k);
                                assert(forall|i: int| 0 <= i < j ==> es2[i] == c.entries[i]);
                                let j2 = find_entry(es2, k);
                                assert(keys_of(es2)[j] == k);
                                assert(j2 >= 0);
                                assert(j2 == j) by {
                                    if j2 < j {
                                        assert(es2[j2].key == k);
                                        assert(c.entries[j2].key == k);
                                    }
                                }
                            },
                        },
                    }
                }
            },
        },
    }
}

/// The mathematical content of a [`Store`]: the tree and the batch of
/// subscribers awaiting notification, in enqueue order.
pub struct StoreView {
    pub root: EntityView,
    pub pending: Seq<u64>,
}

/// The root of a store tree together with the write batch.
///
/// All access is path-addressed and resolved at call time. Writes and
/// structural edits enqueue the affected subscribers, deduplicated, on the
/// current batch; [`Store::flush`] ends the batch and hands it to the
/// caller, whose own writes then open the next batch (deferred batching).
pub struct Store {
    root: Entity,
    pending: Vec<u64>,
}

impl View for Store {
    type V = StoreView;

    closed spec fn view(&self) -> StoreView {
        StoreView { root: self.root@, pending: self.pending@ }
    }
}

impl Store {
    /// The store invariant: every collection in the tree keeps its keys
    /// unique, and no subscriber is queued twice.
    pub open spec fn inv(&self) -> bool {
        entity_wf(self@.root) && self@.pending.no_duplicates()
    }

    /// A store owning `root`, with an empty batch.
    pub fn new(root: Entity) -> (s: Store)
        requires
            entity_wf(root@),
        ensures
            s@.root == root@,
            s@.pending == Seq::<u64>::empty(),
            s.inv(),
    {
        let s = Store { root, pending: Vec::new() };
        proof {
            assert(s@.pending =~= Seq::<u64>::empty());
        }
        s
    }

    /// Read the scalar the path addresses, without tracking.
    pub fn read(&self, path: &FieldPath) -> (r: Result<&Value, StoreError>)
        ensures
            match r {
                Ok(v) => resolve_entity(self@.root, path@) matches Some(NodeView::Scalar(sig))
                    && *v == sig.value,
                Err(err) => (err == StoreError::StaleReference || err == StoreError::NotFound) && (
                err == StoreError::StaleReference <==> resolve_entity(self@.root, path@) is None)
                    && (err == StoreError::NotFound <==> resolve_entity(
                    self@.root,
                    path@,
                ) matches Some(NodeView::Collection(_))),
            },
    {
        proof {
            assert(path.steps@.skip(0) =~= path@);
        }
        match entity_node_ref(&self.root, &path.steps, 0) {
            Err(err) => Err(err),
            Ok(n) => match n {
                Node::Scalar(sig) => Ok(sig.peek()),
                Node::Collection(_) => Err(StoreError::NotFound),
            },
        }
    }

    /// Read the scalar the path addresses inside the tracked context of
    /// subscriber `sub`: the subscriber is registered on every collection
    /// the path passes through and on the scalar itself, so that both a
    /// later write of the scalar and a structural change on the way to it
    /// notify the subscriber.
    pub fn read_tracked(&mut self, path: &FieldPath, sub: u64) -> (r: Result<&Value, StoreError>)
        requires
            old(self).inv(),
        ensures
            final(self).inv(),
            match r {
                Ok(v) => resolve_entity(old(self)@.root, path@) matches Some(
                    NodeView::Scalar(sig0),
                ) && *v == sig0.value && final(self)@.root == track_entity(
                    old(self)@.root,
                    path@,
                    sub,
                ) && final(self)@.pending == old(self)@.pending,
                Err(err) => final(self)@ == old(self)@ && (err == StoreError::StaleReference
                    || err == StoreError::NotFound) && (err == StoreError::StaleReference
                    <==> resolve_entity(old(self)@.root, path@) is None) && (err
                    == StoreError::NotFound <==> resolve_entity(
                    old(self)@.root,
                    path@,
                ) matches Some(NodeView::Collection(_))),
            },
    {
        proof {
            assert(path.steps@.skip(0) =~= path@);
        }
        let shape_ok = match entity_node_ref(&self.root, &path.steps, 0) {
            Err(err) => {
                return Err(err);
            },
            Ok(n) => match n {
                Node::Scalar(_) => true,
                Node::Collection(_) => false,
            },
        };
        if !shape_ok {
            return Err(StoreError::NotFound);
        }
        proof {
            lemma_resolve_after_track(self@.root, path@, sub);
            lemma_track_wf(self@.root, path@, sub);
        }
        let tr = entity_track(&mut self.root, &path.steps, 0, sub);
        match tr {
            Err(err) => {
                proof {
                    assert(false);
                }
                Err(err)
            },
            Ok(()) => {
                match entity_node_ref(&self.root, &path.steps, 0) {
                    Ok(n2) => match n2 {
                        Node::Scalar(sig) => Ok(sig.peek()),
                        Node::Collection(_) => {
                            proof {
                                assert(false);
                            }
                            Err(StoreError::NotFound)
                        },
                    },
                    Err(err) => {
                        proof {
                            assert(false);
                        }
                        Err(err)
                    },
                }
            },
        }
    }

    /// Write `v` into the scalar the path addresses: its version advances
    /// and exactly its subscribers join the batch. Writing an equal value
    /// still notifies.
    pub fn set(&mut self, path: &FieldPath, v: Value) -> (r: Result<(), StoreError>)
        requires
            old(self).inv(),
        ensures
            final(self).inv(),
            match r {
                Ok(()) => ({
                    &&& resolve_entity(old(self)@.root, path@) matches Some(
                        NodeView::Scalar(sig0),
                    ) && final(self)@.root == with_node(
                        old(self)@.root,
                        path@,
                        NodeView::Scalar(
                            SignalView {
                                value: v,
                                version: next_version(sig0.version),
                                subs: sig0.subs,
                            },
                        ),
                    ) && final(self)@.pending == enqueue_all(old(self)@.pending, sig0.subs)
                }),
                Err(err) => final(self)@ == old(self)@ && (err == StoreError::StaleReference || err
                    == StoreError::NotFound) && (err == StoreError::StaleReference
                    <==> resolve_entity(old(self)@.root, path@) is None) && (err
                    == StoreError::NotFound <==> resolve_entity(
                    old(self)@.root,
                    path@,
                ) matches Some(NodeView::Collection(_))),
            },
    {
        proof {
            assert(path.steps@.skip(0) =~= path@);
            lemma_resolve_wf(self@.root, path@);
        }
        let r = entity_write(&mut self.root, &path.steps, 0, v, &mut self.pending);
        proof {
            if r is Ok {
                match resolve_entity(old(self)@.root, path@) {
                    Some(NodeView::Scalar(sig0)) => {
                        let n2 = NodeView::Scalar(
                            SignalView {
                                value: v,
                                version: next_version(sig0.version),
                                subs: sig0.subs,
                            },
                        );
                        lemma_with_node_wf(old(self)@.root, path@, n2);
                        crate::signal::lemma_enqueue_all(old(self)@.pending, sig0.subs, 0);
                    },
                    _ => {
                        assert(false);
                    },
                }
            }
        }
        r
    }

    /// Insert `entity` under `key` into the collection the path addresses,
    /// at `pos` (at the end when `None`). Structural subscribers of that
    /// collection join the batch; no existing entry and no sibling
    /// subscription is disturbed.
    pub fn insert_at(
        &mut self,
        path: &FieldPath,
        key: u64,
        entity: Entity,
        pos: Option<usize>,
    ) -> (r: Result<(), StoreError>)
        requires
            old(self).inv(),
            entity_wf(entity@),
        ensures
            final(self).inv(),
            match r {
                Ok(()) => ({
                    &&& resolve_entity(old(self)@.root, path@) matches Some(
                        NodeView::Collection(c0),
                    ) && !keys_of(c0.entries).contains(key) && insert_pos(c0, pos)
                        <= c0.entries.len() && final(self)@.root == with_node(
                        old(self)@.root,
                        path@,
                        NodeView::Collection(
                            CollectionView {
                                entries: c0.entries.insert(
                                    insert_pos(c0, pos),
                                    EntryView { key, entity: entity@ },
                                ),
                                subs: c0.subs,
                            },
                        ),
                    ) && final(self)@.pending == enqueue_all(old(self)@.pending, c0.subs)
                }),
                Err(err) => final(self)@ == old(self)@ && (err == StoreError::StaleReference
                    || err == StoreError::DuplicateKey || err == StoreError::NotFound) && (
                resolve_entity(old(self)@.root, path@) is None ==> err
                    == StoreError::StaleReference) && (err == StoreError::StaleReference
                    ==> resolve_entity(old(self)@.root, path@) is None) && (resolve_entity(
                    old(self)@.root,
                    path@,
                ) matches Some(NodeView::Scalar(_)) ==> err == StoreError::NotFound) && (
                resolve_entity(old(self)@.root, path@) matches Some(NodeView::Collection(c0))
                    ==> (err == StoreError::DuplicateKey <==> keys_of(c0.entries).contains(key))
                    && (err == StoreError::NotFound <==> !keys_of(c0.entries).contains(key)
                    && insert_pos(c0, pos) > c0.entries.len())),
            },
    {
        self.edit(path, EditOp::InsertOp { key, entity, pos })
    }

    /// Remove the entry keyed `key` from the collection the path
    /// addresses, destroying its nested signals. Structural subscribers of
    /// that collection join the batch, and every field handle resolving
    /// through the removed key becomes stale.
    pub fn remove_at(&mut self, path: &FieldPath, key: u64) -> (r: Result<(), StoreError>)
        requires
            old(self).inv(),
        ensures
            final(self).inv(),
            match r {
                Ok(()) => ({
                    &&& resolve_entity(old(self)@.root, path@) matches Some(
                        NodeView::Collection(c0),
                    ) && keys_of(c0.entries).contains(key) && final(self)@.root == with_node(
                        old(self)@.root,
                        path@,
                        NodeView::Collection(
                            CollectionView {
                                entries: c0.entries.remove(find_entry(c0.entries, key)),
                                subs: c0.subs,
                            },
                        ),
                    ) && final(self)@.pending == enqueue_all(old(self)@.pending, c0.subs)
                }),
                Err(err) => final(self)@ == old(self)@ && (resolve_entity(
                    old(self)@.root,
                    path@,
                ) is None ==> err == StoreError::StaleReference) && (err
                    == StoreError::StaleReference ==> resolve_entity(
                    old(self)@.root,
                    path@,
                ) is None) && (resolve_entity(old(self)@.root, path@) matches Some(
                    NodeView::Scalar(_),
                ) ==> err == StoreError::NotFound) && (resolve_entity(
                    old(self)@.root,
                    path@,
                ) matches Some(NodeView::Collection(c0)) ==> err == StoreError::KeyNotFound
                    && !keys_of(c0.entries).contains(key)),
            },
    {
        self.edit(path, EditOp::RemoveOp { key })
    }

    /// Move the entry keyed `key` so that it ends at position `to` in the
    /// collection the path addresses. The entry is retained, never
    /// rebuilt: its entity, signals and subscriptions survive unchanged.
    /// Structural subscribers of the collection join the batch.
    pub fn move_at(&mut self, path: &FieldPath, key: u64, to: usize) -> (r: Result<
        (),
        StoreError,
    >)
        requires
            old(self).inv(),
        ensures
            final(self).inv(),
            match r {
                Ok(()) => ({
                    &&& resolve_entity(old(self)@.root, path@) matches Some(
                        NodeView::Collection(c0),
                    ) && keys_of(c0.entries).contains(key) && (to as int) < c0.entries.len()
                        && final(self)@.root == with_node(
                        old(self)@.root,
                        path@,
                        NodeView::Collection(
                            CollectionView {
                                entries: c0.entries.remove(find_entry(c0.entries, key)).insert(
                                    to as int,
                                    c0.entries[find_entry(c0.entries, key)],
                                ),
                                subs: c0.subs,
                            },
                        ),
                    ) && final(self)@.pending == enqueue_all(old(self)@.pending, c0.subs)
                }),
                Err(err) => final(self)@ == old(self)@ && (err == StoreError::StaleReference
                    || err == StoreError::KeyNotFound || err == StoreError::NotFound) && (
                resolve_entity(old(self)@.root, path@) is None ==> err
                    == StoreError::StaleReference) && (err == StoreError::StaleReference
                    ==> resolve_entity(old(self)@.root, path@) is None) && (resolve_entity(
                    old(self)@.root,
                    path@,
                ) matches Some(NodeView::Scalar(_)) ==> err == StoreError::NotFound) && (
                resolve_entity(old(self)@.root, path@) matches Some(NodeView::Collection(c0))
                    ==> (err == StoreError::KeyNotFound <==> !keys_of(c0.entries).contains(key))
                    && (err == StoreError::NotFound <==> keys_of(c0.entries).contains(key) && to
                    >= c0.entries.len())),
            },
    {
        self.edit(path, EditOp::MoveOp { key, to })
    }

    /// Apply one structural edit to the collection the path addresses.
    fn edit(&mut self, path: &FieldPath, op: EditOp) -> (r: Result<(), StoreError>)
        requires
            old(self).inv(),
            edit_entity_wf(op),
        ensures
            final(self).inv(),
            match r {
                Ok(()) => ({
                    &&& resolve_entity(old(self)@.root, path@) matches Some(
                        NodeView::Collection(c0),
                    ) && edit_ok(c0, op) && final(self)@.root == with_node(
                        old(self)@.root,
                        path@,
                        NodeView::Collection(edited(c0, op)),
                    ) && final(self)@.pending == enqueue_all(old(self)@.pending, c0.subs)
                }),
                Err(err) => final(self)@ == old(self)@ && (resolve_entity(
                    old(self)@.root,
                    path@,
                ) is None ==> err == StoreError::StaleReference) && (err
                    == StoreError::StaleReference ==> resolve_entity(
                    old(self)@.root,
                    path@,
                ) is None) && (resolve_entity(old(self)@.root, path@) matches Some(
                    NodeView::Scalar(_),
                ) ==> err == StoreError::NotFound) && (resolve_entity(
                    old(self)@.root,
                    path@,
                ) matches Some(NodeView::Collection(c0)) ==> !edit_ok(c0, op) && err == edit_err(
                    c0,
                    op,
                )),
            },
    {
        proof {
            assert(path.steps@.skip(0) =~= path@);
            lemma_resolve_wf(self@.root, path@);
        }
        let r = entity_coll_edit(&mut self.root, &path.steps, 0, op, &mut self.pending);
        proof {
            if r is Ok {
                match resolve_entity(old(self)@.root, path@) {
                    Some(NodeView::Collection(c0)) => {
                        lemma_with_node_wf(
                            old(self)@.root,
                            path@,
                            NodeView::Collection(edited(c0, op)),
                        );
                        crate::signal::lemma_enqueue_all(old(self)@.pending, c0.subs, 0);
                    },
                    _ => {
                        assert(false);
                    },
                }
            }
        }
        r
    }

    /// The live keys of the collection the path addresses, in order,
    /// without tracking.
    pub fn keys_at(&self, path: &FieldPath) -> (r: Result<Vec<u64>, StoreError>)
        ensures
            match r {
                Ok(ks) => resolve_entity(self@.root, path@) matches Some(NodeView::Collection(c0))
                    && ks@ == keys_of(c0.entries),
                Err(err) => (err == StoreError::StaleReference || err == StoreError::NotFound) && (
                err == StoreError::StaleReference <==> resolve_entity(self@.root, path@) is None)
                    && (err == StoreError::NotFound <==> resolve_entity(
                    self@.root,
                    path@,
                ) matches Some(NodeView::Scalar(_))),
            },
    {
        proof {
            assert(path.steps@.skip(0) =~= path@);
        }
        match entity_node_ref(&self.root, &path.steps, 0) {
            Err(err) => Err(err),
            Ok(n) => match n {
                Node::Scalar(_) => Err(StoreError::NotFound),
                Node::Collection(c) => Ok(c.keys()),
            },
        }
    }

    /// The live keys of the collection the path addresses, read inside the
    /// tracked context of subscriber `sub`: a structural read, tracked
    /// like a field read, so that inserts, removes and moves in that
    /// collection notify the subscriber.
    pub fn keys_at_tracked(&mut self, path: &FieldPath, sub: u64) -> (r: Result<
        Vec<u64>,
        StoreError,
    >)
        requires
            old(self).inv(),
        ensures
            final(self).inv(),
            match r {
                Ok(ks) => resolve_entity(old(self)@.root, path@) matches Some(
                    NodeView::Collection(c0),
                ) && ks@ == keys_of(c0.entries) && final(self)@.root == track_entity(
                    old(self)@.root,
                    path@,
                    sub,
                ) && final(self)@.pending == old(self)@.pending,
                Err(err) => final(self)@ == old(self)@ && (err == StoreError::StaleReference || err
                    == StoreError::NotFound) && (err == StoreError::StaleReference
                    <==> resolve_entity(old(self)@.root, path@) is None) && (err
                    == StoreError::NotFound <==> resolve_entity(
                    old(self)@.root,
                    path@,
                ) matches Some(NodeView::Scalar(_))),
            },
    {
        proof {
            assert(path.steps@.skip(0) =~= path@);
        }
        let shape_ok = match entity_node_ref(&self.root, &path.steps, 0) {
            Err(err) => {
                return Err(err);
            },
            Ok(n) => match n {
                Node::Scalar(_) => false,
                Node::Collection(_) => true,
            },
        };
        if !shape_ok {
            return Err(StoreError::NotFound);
        }
        proof {
            lemma_resolve_after_track(self@.root, path@, sub);
            lemma_track_wf(self@.root, path@, sub);
        }
        let tr = entity_track(&mut self.root, &path.steps, 0, sub);
        match tr {
            Err(err) => {
                proof {
                    assert(false);
                }
                Err(err)
            },
            Ok(()) => {
                match entity_node_ref(&self.root, &path.steps, 0) {
                    Ok(n2) => match n2 {
                        Node::Collection(c) => Ok(c.keys()),
                        Node::Scalar(_) => {
                            proof {
                                assert(false);
                            }
                            Err(StoreError::NotFound)
                        },
                    },
                    Err(err) => {
                        proof {
                            assert(false);
                        }
                        Err(err)
                    },
                }
            },
        }
    }

    /// Discard every dependency edge of subscriber `sub`, at any depth of
    /// the tree, leaving values, versions, keys and order untouched.
    ///
    /// The scheduler's flush protocol calls this before a subscriber
    /// re-runs: the re-run then registers a fresh dependency set through
    /// its tracked reads, and stale edges from the previous run cannot
    /// notify it again.
    pub fn clear_subscriber(&mut self, sub: u64)
        requires
            old(self).inv(),
        ensures
            final(self).inv(),
            final(self)@.root == clear_entity(old(self)@.root, sub),
            final(self)@.pending == old(self)@.pending,
    {
        let mut taken = Entity::new();
        core::mem::swap(&mut taken, &mut self.root);
        let mut cleared = entity_clear(taken, sub);
        core::mem::swap(&mut cleared, &mut self.root);
        proof {
            lemma_clear_wf(old(self)@.root, sub);
        }
    }

    /// End the current batch: hand back the subscribers enqueued since the
    /// last flush, each at most once, in enqueue order, and leave the
    /// batch empty. Writes made while the caller runs its subscribers
    /// start the next batch.
    pub fn flush(&mut self) -> (r: Vec<u64>)
        requires
            old(self).inv(),
        ensures
            final(self).inv(),
            r@ == old(self)@.pending,
            r@.no_duplicates(),
            final(self)@.pending == Seq::<u64>::empty(),
            final(self)@.root == old(self)@.root,
    {
        let mut out: Vec<u64> = Vec::new();
        let mut i: usize = 0;
        while i < self.pending.len()
            invariant
                i <= self.pending@.len(),
                out@ == self.pending@.take(i as int),
                self.pending@ == old(self).pending@,
            decreases self.pending@.len() - i,
        {
            out.push(self.pending[i]);
            proof {
                assert(self.pending@.take(i as int).push(self.pending@[i as int])
                    =~= self.pending@.take(i as int + 1));
            }
            i = i + 1;
        }
        self.pending = Vec::new();
        proof {
            assert(out@ =~= old(self).pending@);
            assert(self.pending@ =~= Seq::<u64>::empty());
        }
        out
    }
}

/// The entity with subscriber `s` unregistered from every signal and
/// every collection in it, at any depth. Values, versions, keys and entry
/// order are untouched.
pub open spec fn clear_entity(e: EntityView, s: u64) -> EntityView
    decreases e,
{
    EntityView { fields: clear_nodes(e.fields, s) }
}

/// The field list with `s` unregistered from every node.
pub open spec fn clear_nodes(ns: Seq<NodeView>, s: u64) -> Seq<NodeView>
    decreases ns,
{
    if ns.len() == 0 {
        Seq::empty()
    } else {
        clear_nodes(ns.drop_last(), s).push(clear_node(ns.last(), s))
    }
}

/// The node with `s` unregistered from it and from everything below it.
pub open spec fn clear_node(n: NodeView, s: u64) -> NodeView
    decreases n,
{
    match n {
        NodeView::Scalar(sig) => NodeView::Scalar(
            SignalView {
                value: sig.value,
                version: sig.version,
                subs: crate::signal::subs_without(sig.subs, s),
            },
        ),
        NodeView::Collection(c) => NodeView::Collection(
            CollectionView {
                entries: clear_entries(c.entries, s),
                subs: crate::signal::subs_without(c.subs, s),
            },
        ),
    }
}

/// The entry list with `s` unregistered from every entry's entity.
pub open spec fn clear_entries(es: Seq<EntryView>, s: u64) -> Seq<EntryView>
    decreases es,
{
    if es.len() == 0 {
        Seq::empty()
    } else {
        clear_entries(es.drop_last(), s).push(
            EntryView { key: es.last().key, entity: clear_entity(es.last().entity, s) },
        )
    }
}

/// Clearing is pointwise over the fields.
pub proof fn lemma_clear_nodes(ns: Seq<NodeView>, s: u64)
    ensures
        clear_nodes(ns, s).len() == ns.len(),
        forall|i: int| 0 <= i < ns.len() ==> clear_nodes(ns, s)[i] == clear_node(ns[i], s),
    decreases ns.len(),
{
    if ns.len() > 0 {
        lemma_clear_nodes(ns.drop_last(), s);
    }
}

/// Clearing is pointwise over the entries.
pub proof fn lemma_clear_entries(es: Seq<EntryView>, s: u64)
    ensures
        clear_entries(es, s).len() == es.len(),
        forall|i: int|
            0 <= i < es.len() ==> clear_entries(es, s)[i] == (EntryView {
                key: es[i].key,
                entity: clear_entity(es[i].entity, s),
            }),
    decreases es.len(),
{
    if es.len() > 0 {
        lemma_clear_entries(es.drop_last(), s);
    }
}

/// Clearing keeps every key and every entry, so the tree stays well
/// formed.
pub proof fn lemma_clear_wf(e: EntityView, s: u64)
    requires
        entity_wf(e),
    ensures
        entity_wf(clear_entity(e, s)),
    decreases e,
{
    lemma_clear_nodes(e.fields, s);
    let t = clear_entity(e, s);
    assert forall|i: int| 0 <= i < t.fields.len() implies node_wf(#[trigger] t.fields[i]) by {
        assert(node_wf(e.fields[i]));
        match e.fields[i] {
            NodeView::Scalar(_) => {},
            NodeView::Collection(c) => {
                lemma_clear_entries(c.entries, s);
                let c2 = CollectionView {
                    entries: clear_entries(c.entries, s),
                    subs: crate::signal::subs_without(c.subs, s),
                };
                assert(keys_of(c2.entries) =~= keys_of(c.entries));
                assert forall|m: int| 0 <= m < c2.entries.len() implies entity_wf(
                    (#[trigger] c2.entries[m]).entity,
                ) by {
                    assert(entity_wf(c.entries[m].entity));
                    assert(decreases_to!(e => e.fields));
                    assert(decreases_to!(e.fields[i] => c));
                    lemma_clear_wf(c.entries[m].entity, s);
                }
            },
        }
    }
}

/// Rebuild the entity with subscriber `s` unregistered everywhere in it.
#[verifier::loop_isolation(false)]
fn entity_clear(e: Entity, s: u64) -> (r: Entity)
    ensures
        view_of_entity(r) == clear_entity(view_of_entity(e), s),
    decreases e,
{
    let ghost e0 = e;
    let mut fields = e.fields;
    let ghost fs0 = fields@;
    proof {
        lemma_view_of_nodes(fs0);
        lemma_clear_nodes(view_of_nodes(fs0), s);
    }
    let mut out: Vec<Node> = Vec::new();
    while fields.len() > 0
        invariant
            e0.fields@ == fs0,
            out@.len() + fields@.len() == fs0.len(),
            fields@ == fs0.skip(out@.len() as int),
            forall|i: int|
                0 <= i < out@.len() ==> view_of_node(#[trigger] out@[i]) == clear_node(
                    view_of_node(fs0[i]),
                    s,
                ),
        decreases fields@.len(),
    {
        let ghost k = out@.len() as int;
        proof {
            assert(fields@[0] == fs0[k]);
        }
        let node = fields.remove(0);
        proof {
            assert(node == fs0[k]);
            assert(fields@ =~= fs0.skip(k + 1));
            lemma_view_of_nodes(fs0);
            lemma_clear_nodes(view_of_nodes(fs0), s);
        }
        let cleared: Node = match node {
            Node::Scalar(mut sig) => {
                sig.unsubscribe(s);
                Node::Scalar(sig)
            },
            Node::Collection(mut c) => {
                c.unsubscribe(s);
                let ghost c1 = c;
                let KeyedCollection { entries, subs } = c;
                let mut entries = entries;
                let ghost es0 = entries@;
                proof {
                    lemma_view_of_entries(es0);
                    lemma_clear_entries(view_of_entries(es0), s);
                }
                proof {
                    let c_orig = fs0[k]->Collection_0;
                    assert(c_orig.entries@ == es0);
                    assert forall|i: int| 0 <= i < es0.len() implies decreases_to!(
                        e0 => es0[i].entity,
                    ) by {
                        assert(decreases_to!(e0 => e0.fields));
                        assert(decreases_to!(e0.fields => e0.fields@));
                        assert(e0.fields@ == fs0);
                        assert(decreases_to!(fs0 => fs0[k]));
                        assert(decreases_to!(fs0[k] => c_orig));
                        assert(decreases_to!(c_orig => c_orig.entries));
                        assert(decreases_to!(c_orig.entries => c_orig.entries@));
                        assert(decreases_to!(es0 => es0[i]));
                        assert(decreases_to!(es0[i] => es0[i].entity));
                    }
                }
                let mut out_e: Vec<Entry> = Vec::new();
                while entries.len() > 0
                    invariant
                        out_e@.len() + entries@.len() == es0.len(),
                        entries@ == es0.skip(out_e@.len() as int),
                        forall|i: int|
                            0 <= i < out_e@.len() ==> view_of_entry(#[trigger] out_e@[i])
                                == (EntryView {
                                key: es0[i].key,
                                entity: clear_entity(view_of_entity(es0[i].entity), s),
                            }),
                        forall|i: int|
                            0 <= i < es0.len() ==> decreases_to!(e0 => es0[i].entity),
                    decreases entries@.len(),
                {
                    let ghost j = out_e@.len() as int;
                    proof {
                        assert(entries@[0] == es0[j]);
                    }
                    let en = entries.remove(0);
                    proof {
                        assert(en == es0[j]);
                        assert(entries@ =~= es0.skip(j + 1));
                        assert(decreases_to!(e0 => en.entity));
                    }
                    let en2 = Entry { key: en.key, entity: entity_clear(en.entity, s) };
                    out_e.push(en2);
                }
                proof {
                    lemma_view_of_entries(es0);
                    lemma_clear_entries(view_of_entries(es0), s);
                    lemma_view_of_entries(out_e@);
                    assert(view_of_entries(out_e@) =~= clear_entries(view_of_entries(es0), s));
                }
                Node::Collection(KeyedCollection { entries: out_e, subs })
            },
        };
        proof {
            assert(view_of_node(cleared) == clear_node(view_of_node(fs0[k]), s));
        }
        out.push(cleared);
    }
    proof {
        assert(fs0.skip(fs0.len() as int).len() == 0);
        lemma_view_of_nodes(fs0);
        lemma_clear_nodes(view_of_nodes(fs0), s);
        lemma_view_of_nodes(out@);
        assert(view_of_nodes(out@) =~= clear_nodes(view_of_nodes(fs0), s));
    }
    Entity { fields: out }
}

} // verus!
