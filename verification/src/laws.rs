use vstd::prelude::*;

use crate::path::Step;
use crate::signal::{enqueue_all, lemma_enqueue_all};
use crate::store::{
    clear_entity, clear_entries, clear_node, lemma_clear_entries, lemma_clear_nodes,
    resolve_entity,
    track_entity,
};
use crate::tree::{find_entry, keys_of, lemma_find_entry, EntityView, EntryView, NodeView};

verus! {

/// The entity a live key names.
pub open spec fn entity_at(es: Seq<EntryView>, k: u64) -> EntityView {
    es[find_entry(es, k)].entity
}

/// Identity preservation under reordering: moving one entry — removing it
/// at its position and reinserting it at another — keeps every live key
/// live and leaves the entity each key names exactly as it was, nested
/// signals, versions and subscriptions included. A moved entry is
/// retained, never rebuilt.
pub proof fn move_preserves_entities(es: Seq<EntryView>, j: int, to: int)
    requires
        keys_of(es).no_duplicates(),
        0 <= j < es.len(),
        0 <= to < es.len(),
    ensures
        forall|k: u64|
            #[trigger] keys_of(es).contains(k) ==> keys_of(
                es.remove(j).insert(to, es[j]),
            ).contains(k) && entity_at(es.remove(j).insert(to, es[j]), k) == entity_at(es, k),
{
    let mid = es.remove(j);
    let es2 = mid.insert(to, es[j]);
    es.remove_ensures(j);
    mid.insert_ensures(to, es[j]);
    assert forall|k: u64| #[trigger] keys_of(es).contains(k) implies keys_of(es2).contains(k)
        && entity_at(es2, k) == entity_at(es, k) by {
        lemma_find_entry(es, k);
        let i = find_entry(es, k);
        assert(es[i].key == k);
        // The entry at i survives at a computable position of es2.
        let t: int = if i == j {
            to
        } else {
            let mi: int = if i < j {
                i
            } else {
                i - 1
            };
            if mi < to {
                mi
            } else {
                mi + 1
            }
        };
        assert(0 <= t < es2.len());
        assert(es2[t] == es[i]);
        assert(keys_of(es2)[t] == k);
        assert(keys_of(es2).contains(k));
        lemma_find_entry(es2, k);
        let t2 = find_entry(es2, k);
        assert(es2[t2].key == k);
        // Every entry of es2 is an entry of es; a second entry with key k
        // would contradict key uniqueness.
        let i2: int = if t2 == to {
            j
        } else {
            let m: int = if t2 < to {
                t2
            } else {
                t2 - 1
            };
            if m < j {
                m
            } else {
                m + 1
            }
        };
        assert(0 <= i2 < es.len());
        assert(es2[t2] == es[i2]);
        assert(keys_of(es)[i2] == k);
        assert(keys_of(es)[i] == k);
        assert(i2 == i);
        assert(entity_at(es2, k) == es[i].entity);
    }
}

/// Round trip: removing an entry and reinserting the very same entity
/// under the same key at the same position restores the collection's
/// contents exactly. (The implementation builds a fresh entry for the
/// reinserted entity; equality here is of the modelled state, not of
/// signal identity, which is explicitly not preserved.)
pub proof fn remove_insert_round_trip(es: Seq<EntryView>, j: int)
    requires
        0 <= j < es.len(),
    ensures
        es.remove(j).insert(j, es[j]) == es,
{
    es.remove_ensures(j);
    es.remove(j).insert_ensures(j, es[j]);
    assert(es.remove(j).insert(j, es[j]) =~= es);
}

/// The subscribers registered on a node.
pub open spec fn node_subs(n: NodeView) -> Seq<u64> {
    match n {
        NodeView::Scalar(sig) => sig.subs,
        NodeView::Collection(c) => c.subs,
    }
}

/// Discarding a subscriber's edges changes no structure: every path
/// resolves exactly as before, to the same node with only that subscriber
/// unregistered.
pub proof fn resolve_after_clear(e: EntityView, p: Seq<Step>, s: u64)
    ensures
        resolve_entity(clear_entity(e, s), p) == (match resolve_entity(e, p) {
            None => None::<NodeView>,
            Some(n) => Some(clear_node(n, s)),
        }),
    decreases p.len(),
{
    let t = clear_entity(e, s);
    lemma_clear_nodes(e.fields, s);
    if p.len() == 0 {
    } else {
        match p[0] {
            Step::At(_) => {},
            Step::Into(f) => {
                if (f as int) < e.fields.len() {
                    assert(t.fields[f as int] == clear_node(e.fields[f as int], s));
                    if p.len() == 1 {
                    } else {
                        match e.fields[f as int] {
                            NodeView::Scalar(_) => {},
                            NodeView::Collection(c) => match p[1] {
                                Step::Into(_) => {},
                                Step::At(k) => {
                                    lemma_clear_entries(c.entries, s);
                                    let es2 = clear_entries(c.entries, s);
                                    lemma_find_entry(c.entries, k);
                                    lemma_find_entry(es2, k);
                                    let j = find_entry(c.entries, k);
                                    let j2 = find_entry(es2, k);
                                    assert(forall|m: int|
                                        0 <= m < es2.len() ==> (#[trigger] es2[m]).key
                                            == c.entries[m].key);
                                    if j >= 0 {
                                        assert(keys_of(es2)[j] == k);
                                        assert(j2 >= 0);
                                        assert(j2 == j) by {
                                            if j2 < j {
                                                assert(c.entries[j2].key == k);
                                            }
                                            if j < j2 {
                                                assert(es2[j].key == k);
                                            }
                                        }
                                        assert(es2[j].entity == clear_entity(
                                            c.entries[j].entity,
                                            s,
                                        ));
                                        resolve_after_clear(c.entries[j].entity, p.skip(2), s);
                                    } else {
                                        if j2 >= 0 {
                                            assert(c.entries[j2].key == k);
                                            assert(keys_of(c.entries)[j2] == k);
                                        }
                                    }
                                },
                            },
                        }
                    }
                }
            },
        }
    }
}

/// After a subscriber's edges are discarded, no node anywhere in the tree
/// still carries it: a write can only notify it again once it re-reads.
pub proof fn clear_discards_all_edges(e: EntityView, p: Seq<Step>, s: u64)
    ensures
        (match resolve_entity(clear_entity(e, s), p) {
            Some(n) => !node_subs(n).contains(s),
            None => true,
        }),
{
    resolve_after_clear(e, p, s);
    match resolve_entity(e, p) {
        None => {},
        Some(n) => {
            match n {
                NodeView::Scalar(sig) => {
                    crate::signal::lemma_subs_without(sig.subs, s, s);
                },
                NodeView::Collection(c) => {
                    crate::signal::lemma_subs_without(c.subs, s, s);
                },
            }
        },
    }
}

/// A tracked read of one scalar path never touches a different scalar
/// path: the node the other path resolves to — value, version and
/// subscribers — is exactly what it was.
pub proof fn track_does_not_touch_other_scalar(e: EntityView, p: Seq<Step>, q: Seq<Step>, s: u64)
    requires
        p != q,
        resolve_entity(e, q) is Some,
        resolve_entity(e, p) matches Some(NodeView::Scalar(_)),
    ensures
        resolve_entity(track_entity(e, q, s), p) == resolve_entity(e, p),
    decreases p.len(),
{
    let t = track_entity(e, q, s);
    match q[0] {
        Step::At(_) => {},
        Step::Into(fq) => match p[0] {
            Step::At(_) => {},
            Step::Into(fp) => {
                if q.len() == 1 {
                    if p.len() == 1 {
                        if fp == fq {
                            assert(p =~= q);
                        } else {
                            assert(t.fields[fp as int] == e.fields[fp as int]);
                        }
                    } else {
                        if fp != fq {
                            assert(t.fields[fp as int] == e.fields[fp as int]);
                        } else {
                            // p passes through the node q ends at, which must
                            // be a collection; tracking only grows its
                            // subscriber set, so resolution through its
                            // entries is untouched.
                            match e.fields[fp as int] {
                                NodeView::Scalar(_) => {},
                                NodeView::Collection(c) => match p[1] {
                                    Step::Into(_) => {},
                                    Step::At(kp) => {
                                        let jp = find_entry(c.entries, kp);
                                        assert(jp >= 0);
                                        assert(resolve_entity(t, p) == resolve_entity(
                                            c.entries[jp].entity,
                                            p.skip(2),
                                        ));
                                    },
                                },
                            }
                        }
                    }
                } else {
                    match e.fields[fq as int] {
                        NodeView::Scalar(_) => {},
                        NodeView::Collection(cq) => match q[1] {
                            Step::Into(_) => {},
                            Step::At(kq) => {
                                let jq = find_entry(cq.entries, kq);
                                lemma_find_entry(cq.entries, kq);
                                assert(jq >= 0);
                                let es2 = cq.entries.update(
                                    jq,
                                    EntryView {
                                        key: kq,
                                        entity: track_entity(cq.entries[jq].entity, q.skip(2), s),
                                    },
                                );
                                if p.len() == 1 {
                                    if fp == fq {
                                        // p ends at a scalar, q passes through a
                                        // collection at the same field: impossible.
                                    } else {
                                        assert(t.fields[fp as int] == e.fields[fp as int]);
                                    }
                                } else {
                                    if fp != fq {
                                        assert(t.fields[fp as int] == e.fields[fp as int]);
                                    } else {
                                        match p[1] {
                                            Step::Into(_) => {},
                                            Step::At(kp) => {
                                                let jp = find_entry(cq.entries, kp);
                                                lemma_find_entry(cq.entries, kp);
                                                assert(jp >= 0);
                                                assert(forall|m: int|
                                                    0 <= m < es2.len() ==> (#[trigger] es2[m]).key
                                                        == cq.entries[m].key);
                                                lemma_find_entry(es2, kp);
                                                let jp2 = find_entry(es2, kp);
                                                assert(keys_of(es2)[jp] == kp);
                                                assert(jp2 >= 0);
                                                assert(es2[jp2].key == kp);
                                                assert(jp2 == jp) by {
                                                    if jp2 < jp {
                                                        assert(cq.entries[jp2].key == kp);
                                                    }
                                                    if jp < jp2 {
                                                        assert(es2[jp].key == kp);
                                                    }
                                                }
                                                if kp != kq {
                                                    assert(jp != jq);
                                                    assert(es2[jp] == cq.entries[jp]);
                                                    assert(resolve_entity(t, p) == resolve_entity(
                                                        cq.entries[jp].entity,
                                                        p.skip(2),
                                                    ));
                                                } else {
                                                    assert(jp == jq);
                                                    if p.skip(2) =~= q.skip(2) {
                                                        assert(p.len() == q.len());
                                                        assert forall|m: int|
                                                            0 <= m < p.len() implies p[m]
                                                            == q[m] by {
                                                            if m >= 2 {
                                                                assert(p.skip(2)[m - 2] == p[m]);
                                                                assert(q.skip(2)[m - 2] == q[m]);
                                                            }
                                                        }
                                                        assert(p =~= q);
                                                    }
                                                    assert(p.skip(2) != q.skip(2));
                                                    let child = cq.entries[jq].entity;
                                                    assert(resolve_entity(e, p) == resolve_entity(
                                                        child,
                                                        p.skip(2),
                                                    ));
                                                    assert(resolve_entity(e, q) == resolve_entity(
                                                        child,
                                                        q.skip(2),
                                                    ));
                                                    track_does_not_touch_other_scalar(
                                                        child,
                                                        p.skip(2),
                                                        q.skip(2),
                                                        s,
                                                    );
                                                    assert(es2[jp].entity == track_entity(
                                                        child,
                                                        q.skip(2),
                                                        s,
                                                    ));
                                                    assert(resolve_entity(t, p) == resolve_entity(
                                                        track_entity(child, q.skip(2), s),
                                                        p.skip(2),
                                                    ));
                                                }
                                            },
                                        }
                                    }
                                }
                            },
                        },
                    }
                }
            },
        },
    }
}

/// Minimal notification: a subscriber that only ever read one scalar path
/// is never notified by a write to a different scalar path.
///
/// Subscriber `s` reads through path `q`; path `p` names a different
/// scalar, on whose signal `s` is not registered. After the tracked read,
/// `p`'s signal is exactly as it was — in particular `s` is still not
/// among its subscribers — so a write to `p`, which enqueues exactly that
/// signal's subscribers, never enqueues `s`.
pub proof fn minimal_notification(
    e: EntityView,
    p: Seq<Step>,
    q: Seq<Step>,
    s: u64,
    pending: Seq<u64>,
)
    requires
        p != q,
        resolve_entity(e, q) is Some,
        (match resolve_entity(e, p) {
            Some(NodeView::Scalar(sig)) => !sig.subs.contains(s),
            _ => false,
        }),
        !pending.contains(s),
    ensures
        resolve_entity(track_entity(e, q, s), p) == resolve_entity(e, p),
        (match resolve_entity(track_entity(e, q, s), p) {
            Some(NodeView::Scalar(sig)) => !enqueue_all(pending, sig.subs).contains(s),
            _ => false,
        }),
{
    track_does_not_touch_other_scalar(e, p, q, s);
    match resolve_entity(e, p) {
        Some(NodeView::Scalar(sig)) => {
            lemma_enqueue_all(pending, sig.subs, s);
        },
        _ => {},
    }
}

} // verus!
