use vstd::prelude::*;

use crate::signal::{enqueue_all, enqueue_subs, Signal, SignalView};
use crate::value::{StoreError, Value};

verus! {

// ---------------------------------------------------------------------------
// The mathematical model of a store tree.
// ---------------------------------------------------------------------------

/// The model of an entity: an ordered mapping from field position to the
/// node (scalar signal or nested collection) held there.
pub struct EntityView {
    pub fields: Seq<NodeView>,
}

/// The model of one tree node.
pub enum NodeView {
    Scalar(SignalView),
    Collection(CollectionView),
}

/// The model of a keyed collection: its live entries in order, and the
/// structural subscribers registered on its shape.
pub struct CollectionView {
    pub entries: Seq<EntryView>,
    pub subs: Seq<u64>,
}

/// The model of one collection entry: the identity key and the entity it
/// names.
pub struct EntryView {
    pub key: u64,
    pub entity: EntityView,
}

/// The keys of the entries, in entry order.
pub open spec fn keys_of(es: Seq<EntryView>) -> Seq<u64> {
    es.map_values(|e: EntryView| e.key)
}

/// Well-formedness of an entity: every nested collection, at any depth,
/// keeps its keys free of duplicates.
pub open spec fn entity_wf(e: EntityView) -> bool
    decreases e,
{
    forall|i: int| 0 <= i < e.fields.len() ==> node_wf(#[trigger] e.fields[i])
}

/// Well-formedness of one node.
pub open spec fn node_wf(n: NodeView) -> bool
    decreases n,
{
    match n {
        NodeView::Scalar(_) => true,
        NodeView::Collection(c) => coll_wf(c),
    }
}

/// Well-formedness of a collection: no two live entries share a key, and
/// every entry's entity is itself well formed.
pub open spec fn coll_wf(c: CollectionView) -> bool
    decreases c,
{
    &&& keys_of(c.entries).no_duplicates()
    &&& forall|i: int| 0 <= i < c.entries.len() ==> entity_wf((#[trigger] c.entries[i]).entity)
}

/// The index of the first entry with key `k`, or `-1` if no entry has it.
pub open spec fn find_entry(es: Seq<EntryView>, k: u64) -> int
    decreases es.len(),
{
    if es.len() == 0 {
        -1
    } else if es[0].key == k {
        0
    } else {
        let r = find_entry(es.drop_first(), k);
        if r < 0 {
            -1
        } else {
            r + 1
        }
    }
}

/// `find_entry` finds exactly the first entry holding the key, and fails
/// exactly when the key is not live.
pub proof fn lemma_find_entry(es: Seq<EntryView>, k: u64)
    ensures
        find_entry(es, k) >= -1,
        find_entry(es, k) == -1 <==> !keys_of(es).contains(k),
        find_entry(es, k) >= 0 <==> keys_of(es).contains(k),
        find_entry(es, k) >= 0 ==> find_entry(es, k) < es.len()
            && es[find_entry(es, k)].key == k
            && (forall|i: int| 0 <= i < find_entry(es, k) ==> es[i].key != k),
    decreases es.len(),
{
    if es.len() == 0 {
        assert(keys_of(es).len() == 0);
    } else {
        lemma_find_entry(es.drop_first(), k);
        let rest = es.drop_first();
        if es[0].key == k {
            assert(keys_of(es)[0] == k);
        } else {
            let r = find_entry(rest, k);
            if r < 0 {
                if keys_of(es).contains(k) {
                    let i = choose|i: int| 0 <= i < es.len() && keys_of(es)[i] == k;
                    assert(i > 0);
                    assert(keys_of(rest)[i - 1] == rest[i - 1].key);
                    assert(rest[i - 1].key == es[i].key);
                    assert(keys_of(rest).contains(k));
                }
            } else {
                assert(es[r + 1] == rest[r]);
                assert(keys_of(es).contains(keys_of(es)[r + 1]));
                assert(forall|i: int| 1 <= i < r + 1 ==> es[i] == rest[i - 1]);
            }
        }
    }
}

// ---------------------------------------------------------------------------
// Sequence facts used when editing a collection's entries.
// ---------------------------------------------------------------------------

/// Inserting a fresh key keeps a duplicate-free key sequence duplicate
/// free.
pub proof fn lemma_nodup_insert(s: Seq<u64>, p: int, x: u64)
    requires
        s.no_duplicates(),
        !s.contains(x),
        0 <= p <= s.len(),
    ensures
        s.insert(p, x).no_duplicates(),
{
    s.insert_ensures(p, x);
    let t = s.insert(p, x);
    assert forall|i: int, j: int| 0 <= i < j < t.len() implies t[i] != t[j] by {
        assert(forall|m: int| 0 <= m < p ==> t[m] == s[m]);
        assert(forall|m: int| p < m < t.len() ==> t[m] == s[m - 1]);
        if i == p {
            assert(s.contains(t[j]));
        } else if j == p {
            assert(s.contains(t[i]));
        }
    }
}

/// Removing an entry keeps a duplicate-free key sequence duplicate free,
/// and removes the key at that position.
pub proof fn lemma_nodup_remove(s: Seq<u64>, p: int)
    requires
        s.no_duplicates(),
        0 <= p < s.len(),
    ensures
        s.remove(p).no_duplicates(),
        !s.remove(p).contains(s[p]),
        forall|x: u64| x != s[p] ==> (s.remove(p).contains(x) <==> s.contains(x)),
    decreases s.len(),
{
    s.remove_ensures(p);
    let t = s.remove(p);
    assert forall|i: int, j: int| 0 <= i < j < t.len() implies t[i] != t[j] by {
        assert(forall|m: int| 0 <= m < p ==> t[m] == s[m]);
        assert(forall|m: int| p <= m < t.len() ==> t[m] == s[m + 1]);
    }
    if t.contains(s[p]) {
        let i = choose|i: int| 0 <= i < t.len() && t[i] == s[p];
        if i < p {
            assert(s[i] == s[p]);
        } else {
            assert(s[i + 1] == s[p]);
        }
    }
    assert forall|x: u64| x != s[p] implies (t.contains(x) <==> s.contains(x)) by {
        if t.contains(x) {
            let i = choose|i: int| 0 <= i < t.len() && t[i] == x;
            if i < p {
                assert(s[i] == x);
            } else {
                assert(s[i + 1] == x);
            }
        }
        if s.contains(x) {
            let i = choose|i: int| 0 <= i < s.len() && s[i] == x;
            if i < p {
                assert(t[i] == x);
            } else {
                assert(i > p);
                assert(t[i - 1] == x);
            }
        }
    }
}

// ---------------------------------------------------------------------------
// The executable tree and its view.
// ---------------------------------------------------------------------------

/// An entity: an ordered list of fields, each holding a scalar signal or a
/// nested keyed collection.
pub struct Entity {
    pub fields: Vec<Node>,
}

/// One tree node.
pub enum Node {
    Scalar(Signal),
    Collection(KeyedCollection),
}

/// An ordered sequence of identity-keyed entities.
///
/// The key of an entry is supplied by the caller at insertion, is unique
/// within the collection, and stays with the entry for its whole life:
/// reordering never rebuilds an entry, so per-entity subscriptions survive
/// a move.
pub struct KeyedCollection {
    pub entries: Vec<Entry>,
    pub subs: Vec<u64>,
}

/// One live entry of a keyed collection.
pub struct Entry {
    pub key: u64,
    pub entity: Entity,
}

/// The model of an entity: its fields, viewed pointwise.
pub open spec fn view_of_entity(e: Entity) -> EntityView
    decreases e,
{
    EntityView { fields: view_of_nodes(e.fields@) }
}

/// The model of a field list.
pub open spec fn view_of_nodes(ns: Seq<Node>) -> Seq<NodeView>
    decreases ns,
{
    if ns.len() == 0 {
        Seq::empty()
    } else {
        view_of_nodes(ns.drop_last()).push(view_of_node(ns.last()))
    }
}

/// The model of one node.
pub open spec fn view_of_node(n: Node) -> NodeView
    decreases n,
{
    match n {
        Node::Scalar(s) => NodeView::Scalar(s@),
        Node::Collection(c) => NodeView::Collection(view_of_coll(c)),
    }
}

/// The model of a keyed collection.
pub open spec fn view_of_coll(c: KeyedCollection) -> CollectionView
    decreases c,
{
    CollectionView { entries: view_of_entries(c.entries@), subs: c.subs@ }
}

/// The model of an entry list.
pub open spec fn view_of_entries(es: Seq<Entry>) -> Seq<EntryView>
    decreases es,
{
    if es.len() == 0 {
        Seq::empty()
    } else {
        view_of_entries(es.drop_last()).push(view_of_entry(es.last()))
    }
}

/// The model of one entry.
pub open spec fn view_of_entry(e: Entry) -> EntryView
    decreases e,
{
    EntryView { key: e.key, entity: view_of_entity(e.entity) }
}

impl View for Entity {
    type V = EntityView;

    open spec fn view(&self) -> EntityView {
        view_of_entity(*self)
    }
}

impl View for KeyedCollection {
    type V = CollectionView;

    open spec fn view(&self) -> CollectionView {
        view_of_coll(*self)
    }
}

/// The view of a node sequence is the pointwise view.
pub proof fn lemma_view_of_nodes(ns: Seq<Node>)
    ensures
        view_of_nodes(ns).len() == ns.len(),
        forall|i: int| 0 <= i < ns.len() ==> view_of_nodes(ns)[i] == view_of_node(ns[i]),
    decreases ns.len(),
{
    if ns.len() > 0 {
        lemma_view_of_nodes(ns.drop_last());
    }
}

/// The view of an entry sequence is the pointwise view.
pub proof fn lemma_view_of_entries(es: Seq<Entry>)
    ensures
        view_of_entries(es).len() == es.len(),
        forall|i: int| 0 <= i < es.len() ==> view_of_entries(es)[i] == view_of_entry(es[i]),
    decreases es.len(),
{
    if es.len() > 0 {
        lemma_view_of_entries(es.drop_last());
    }
}

/// Viewing commutes with inserting an entry.
pub proof fn lemma_entries_view_insert(es: Seq<Entry>, p: int, en: Entry)
    requires
        0 <= p <= es.len(),
    ensures
        view_of_entries(es.insert(p, en)) == view_of_entries(es).insert(p, view_of_entry(en)),
{
    lemma_view_of_entries(es);
    lemma_view_of_entries(es.insert(p, en));
    es.insert_ensures(p, en);
    view_of_entries(es).insert_ensures(p, view_of_entry(en));
    assert(view_of_entries(es.insert(p, en)) =~= view_of_entries(es).insert(
        p,
        view_of_entry(en),
    ));
}

/// Updating a position with the element already there changes nothing.
pub broadcast proof fn lemma_seq_update_identity<A>(s: Seq<A>, i: int, x: A)
    requires
        0 <= i < s.len(),
        x == s[i],
    ensures
        #[trigger] s.update(i, x) == s,
{
    assert(s.update(i, x) =~= s);
}

/// Viewing commutes with updating an entry in place.
pub broadcast proof fn lemma_entries_view_update(es: Seq<Entry>, p: int, en: Entry)
    requires
        0 <= p < es.len(),
    ensures
        #[trigger] view_of_entries(es.update(p, en)) == view_of_entries(es).update(
            p,
            view_of_entry(en),
        ),
{
    lemma_view_of_entries(es);
    lemma_view_of_entries(es.update(p, en));
    assert(view_of_entries(es.update(p, en)) =~= view_of_entries(es).update(p, view_of_entry(en)));
}

/// Viewing commutes with updating a field node in place.
pub broadcast proof fn lemma_nodes_view_update(ns: Seq<Node>, p: int, n: Node)
    requires
        0 <= p < ns.len(),
    ensures
        #[trigger] view_of_nodes(ns.update(p, n)) == view_of_nodes(ns).update(p, view_of_node(n)),
{
    lemma_view_of_nodes(ns);
    lemma_view_of_nodes(ns.update(p, n));
    assert(view_of_nodes(ns.update(p, n)) =~= view_of_nodes(ns).update(p, view_of_node(n)));
}

/// Viewing commutes with removing an entry.
pub proof fn lemma_entries_view_remove(es: Seq<Entry>, p: int)
    requires
        0 <= p < es.len(),
    ensures
        view_of_entries(es.remove(p)) == view_of_entries(es).remove(p),
{
    lemma_view_of_entries(es);
    lemma_view_of_entries(es.remove(p));
    es.remove_ensures(p);
    view_of_entries(es).remove_ensures(p);
    assert(view_of_entries(es.remove(p)) =~= view_of_entries(es).remove(p));
}

// ---------------------------------------------------------------------------
// Entity construction.
// ---------------------------------------------------------------------------

impl Entity {
    /// An entity with no fields.
    pub fn new() -> (e: Entity)
        ensures
            e@ == (EntityView { fields: Seq::<NodeView>::empty() }),
            entity_wf(e@),
    {
        let e = Entity { fields: Vec::new() };
        proof {
            assert(e@.fields =~= Seq::<NodeView>::empty());
        }
        e
    }

    /// Append a scalar field holding `v`, as a fresh signal.
    pub fn with_scalar(self, v: Value) -> (e: Entity)
        ensures
            e@.fields == self@.fields.push(
                NodeView::Scalar(SignalView { value: v, version: 0, subs: Seq::<u64>::empty() }),
            ),
            entity_wf(self@) ==> entity_wf(e@),
    {
        let sig = Signal::new(v);
        proof {
            let ns = self.fields@;
            assert(ns.push(Node::Scalar(sig)).drop_last() =~= ns);
        }
        let mut fields = self.fields;
        fields.push(Node::Scalar(sig));
        let e = Entity { fields };
        proof {
            lemma_view_of_nodes(e.fields@);
            lemma_view_of_nodes(self.fields@);
            assert(e@.fields =~= self@.fields.push(
                NodeView::Scalar(SignalView { value: v, version: 0, subs: Seq::<u64>::empty() }),
            ));
            if entity_wf(self@) {
                assert forall|i: int| 0 <= i < e@.fields.len() implies node_wf(
                    #[trigger] e@.fields[i],
                ) by {
                    if i < self@.fields.len() {
                        assert(node_wf(self@.fields[i]));
                    }
                }
            }
        }
        e
    }

    /// Append a field holding an empty keyed collection.
    pub fn with_collection(self) -> (e: Entity)
        ensures
            e@.fields == self@.fields.push(
                NodeView::Collection(
                    CollectionView { entries: Seq::<EntryView>::empty(), subs: Seq::<u64>::empty() },
                ),
            ),
            entity_wf(self@) ==> entity_wf(e@),
    {
        let c = KeyedCollection { entries: Vec::new(), subs: Vec::new() };
        proof {
            assert(view_of_entries(c.entries@) =~= Seq::<EntryView>::empty());
            let ns = self.fields@;
            assert(ns.push(Node::Collection(c)).drop_last() =~= ns);
        }
        let mut fields = self.fields;
        fields.push(Node::Collection(c));
        let e = Entity { fields };
        proof {
            lemma_view_of_nodes(e.fields@);
            lemma_view_of_nodes(self.fields@);
            assert(e@.fields =~= self@.fields.push(
                NodeView::Collection(
                    CollectionView { entries: Seq::<EntryView>::empty(), subs: Seq::<u64>::empty() },
                ),
            ));
            if entity_wf(self@) {
                assert forall|i: int| 0 <= i < e@.fields.len() implies node_wf(
                    #[trigger] e@.fields[i],
                ) by {
                    if i < self@.fields.len() {
                        assert(node_wf(self@.fields[i]));
                    }
                    assert(keys_of(Seq::<EntryView>::empty()).no_duplicates());
                }
            }
        }
        e
    }
}

// ---------------------------------------------------------------------------
// Keyed collection operations.
// ---------------------------------------------------------------------------

impl KeyedCollection {
    /// An empty collection.
    pub fn new() -> (c: KeyedCollection)
        ensures
            c@ == (CollectionView {
                entries: Seq::<EntryView>::empty(),
                subs: Seq::<u64>::empty(),
            }),
            coll_wf(c@),
    {
        let c = KeyedCollection { entries: Vec::new(), subs: Vec::new() };
        proof {
            assert(view_of_entries(c.entries@) =~= Seq::<EntryView>::empty());
            assert(c@ =~= (CollectionView {
                entries: Seq::<EntryView>::empty(),
                subs: Seq::<u64>::empty(),
            }));
            assert(keys_of(c@.entries).no_duplicates());
        }
        c
    }

    /// Register `s` as a structural subscriber of this collection: it will
    /// be notified when the collection's shape changes.
    pub fn subscribe(&mut self, s: u64)
        ensures
            final(self)@ == (CollectionView {
                entries: old(self)@.entries,
                subs: crate::signal::subs_with(old(self)@.subs, s),
            }),
    {
        if !crate::signal::contains_u64(&self.subs, s) {
            self.subs.push(s);
        }
    }

    /// Unregister `s` as a structural subscriber of this collection.
    pub fn unsubscribe(&mut self, s: u64)
        ensures
            final(self)@ == (CollectionView {
                entries: old(self)@.entries,
                subs: crate::signal::subs_without(old(self)@.subs, s),
            }),
            final(self).entries@ == old(self).entries@,
    {
        crate::signal::remove_sub(&mut self.subs, s);
    }

    /// The position of the live entry with key `k`, if any.
    pub fn find(&self, k: u64) -> (r: Option<usize>)
        ensures
            match r {
                Some(j) => j == find_entry(self@.entries, k),
                None => find_entry(self@.entries, k) == -1,
            },
    {
        proof {
            lemma_view_of_entries(self.entries@);
            lemma_find_entry(self@.entries, k);
        }
        let mut i: usize = 0;
        while i < self.entries.len()
            invariant
                i <= self.entries@.len(),
                forall|j: int| 0 <= j < i ==> view_of_entries(self.entries@)[j].key != k,
                view_of_entries(self.entries@).len() == self.entries@.len(),
                forall|j: int|
                    0 <= j < self.entries@.len() ==> view_of_entries(self.entries@)[j]
                        == view_of_entry(self.entries@[j]),
            decreases self.entries@.len() - i,
        {
            if self.entries[i].key == k {
                proof {
                    lemma_find_entry(self@.entries, k);
                    assert(keys_of(self@.entries)[i as int] == k);
                }
                return Some(i);
            }
            i = i + 1;
        }
        proof {
            if keys_of(self@.entries).contains(k) {
                let j = choose|j: int|
                    0 <= j < self@.entries.len() && keys_of(self@.entries)[j] == k;
                assert(self@.entries[j].key != k);
            }
        }
        None
    }

    /// The live keys, in entry order.
    pub fn keys(&self) -> (r: Vec<u64>)
        ensures
            r@ == keys_of(self@.entries),
    {
        proof {
            lemma_view_of_entries(self.entries@);
        }
        let mut r: Vec<u64> = Vec::new();
        let mut i: usize = 0;
        while i < self.entries.len()
            invariant
                i <= self.entries@.len(),
                r@.len() == i,
                forall|j: int| 0 <= j < i ==> r@[j] == view_of_entries(self.entries@)[j].key,
                view_of_entries(self.entries@).len() == self.entries@.len(),
                forall|j: int|
                    0 <= j < self.entries@.len() ==> view_of_entries(self.entries@)[j]
                        == view_of_entry(self.entries@[j]),
            decreases self.entries@.len() - i,
        {
            r.push(self.entries[i].key);
            i = i + 1;
        }
        proof {
            assert(r@ =~= keys_of(self@.entries));
        }
        r
    }

    /// Insert `entity` under `key` at `pos` (at the end when `pos` is
    /// `None`).
    ///
    /// Fails with `DuplicateKey` when the key is already live, and with
    /// `NotFound` when the position lies beyond the end; on failure the
    /// collection and the queue are untouched. On success the structural
    /// subscribers are enqueued and no existing entry is disturbed.
    pub fn insert(
        &mut self,
        key: u64,
        entity: Entity,
        pos: Option<usize>,
        pending: &mut Vec<u64>,
    ) -> (r: Result<(), StoreError>)
        ensures
            ({
                let c0 = old(self)@;
                let c1 = final(self)@;
                let ip = match pos {
                    Option::None => c0.entries.len() as int,
                    Option::Some(p) => p as int,
                };
                match r {
                    Result::Ok(()) => !keys_of(c0.entries).contains(key) && 0 <= ip
                        <= c0.entries.len() && c1.entries == c0.entries.insert(
                        ip,
                        EntryView { key, entity: entity@ },
                    ) && c1.subs == c0.subs && final(pending)@ == enqueue_all(
                        old(pending)@,
                        c0.subs,
                    ) && (coll_wf(c0) && entity_wf(entity@) ==> coll_wf(c1)),
                    Result::Err(e) => c1 == c0 && final(pending)@ == old(pending)@ && (e
                        == StoreError::DuplicateKey <==> keys_of(c0.entries).contains(key)) && (e
                        == StoreError::NotFound <==> !keys_of(c0.entries).contains(key) && ip
                        > c0.entries.len()) && (e == StoreError::DuplicateKey || e
                        == StoreError::NotFound),
                }
            }),
    {
        proof {
            lemma_view_of_entries(self.entries@);
            lemma_find_entry(self@.entries, key);
        }
        if self.find(key).is_some() {
            return Err(StoreError::DuplicateKey);
        }
        let ip = match pos {
            None => self.entries.len(),
            Some(p) => p,
        };
        if ip > self.entries.len() {
            return Err(StoreError::NotFound);
        }
        let ghost c0 = self@;
        let en = Entry { key, entity };
        proof {
            lemma_entries_view_insert(self.entries@, ip as int, en);
        }
        self.entries.insert(ip, en);
        enqueue_subs(pending, &self.subs);
        proof {
            let c1 = self@;
            if coll_wf(c0) && entity_wf(c1.entries[ip as int].entity) {
                lemma_view_of_entries(old(self).entries@);
                c0.entries.insert_ensures(ip as int, EntryView { key, entity: c1.entries[ip as int].entity });
                assert(keys_of(c1.entries) =~= keys_of(c0.entries).insert(ip as int, key));
                lemma_nodup_insert(keys_of(c0.entries), ip as int, key);
                assert forall|i: int| 0 <= i < c1.entries.len() implies entity_wf(
                    (#[trigger] c1.entries[i]).entity,
                ) by {
                    if i < ip {
                        assert(c1.entries[i] == c0.entries[i]);
                    } else if i > ip {
                        assert(c1.entries[i] == c0.entries[i - 1]);
                    }
                }
            }
        }
        Ok(())
    }

    /// Remove the entry with key `key`, destroying its nested signals.
    ///
    /// Fails with `KeyNotFound` exactly when the key is not live; on
    /// failure nothing changes. On success the structural subscribers are
    /// enqueued, and every field handle resolving through the removed key
    /// becomes stale.
    pub fn remove(&mut self, key: u64, pending: &mut Vec<u64>) -> (r: Result<(), StoreError>)
        ensures
            ({
                let c0 = old(self)@;
                let c1 = final(self)@;
                let j = find_entry(c0.entries, key);
                match r {
                    Result::Ok(()) => j >= 0 && c1.entries == c0.entries.remove(j) && c1.subs
                        == c0.subs && final(pending)@ == enqueue_all(old(pending)@, c0.subs) && (
                    coll_wf(c0) ==> coll_wf(c1) && !keys_of(c1.entries).contains(key)),
                    Result::Err(e) => c1 == c0 && final(pending)@ == old(pending)@ && e
                        == StoreError::KeyNotFound && !keys_of(c0.entries).contains(key),
                }
            }),
    {
        proof {
            lemma_view_of_entries(self.entries@);
            lemma_find_entry(self@.entries, key);
        }
        let j = match self.find(key) {
            None => {
                return Err(StoreError::KeyNotFound);
            }
            Some(j) => j,
        };
        let ghost c0 = self@;
        proof {
            lemma_entries_view_remove(self.entries@, j as int);
        }
        self.entries.remove(j);
        enqueue_subs(pending, &self.subs);
        proof {
            let c1 = self@;
            if coll_wf(c0) {
                c0.entries.remove_ensures(j as int);
                assert(keys_of(c1.entries) =~= keys_of(c0.entries).remove(j as int));
                lemma_nodup_remove(keys_of(c0.entries), j as int);
                assert(keys_of(c0.entries)[j as int] == key);
                assert forall|i: int| 0 <= i < c1.entries.len() implies entity_wf(
                    (#[trigger] c1.entries[i]).entity,
                ) by {
                    if i < j {
                        assert(c1.entries[i] == c0.entries[i]);
                    } else {
                        assert(c1.entries[i] == c0.entries[i + 1]);
                    }
                }
            }
        }
        Ok(())
    }

    /// Move the entry with key `key` so that it ends at position `to`,
    /// without rebuilding it: the entry keeps its entity, and with it every
    /// nested signal and subscription.
    ///
    /// Fails with `KeyNotFound` when the key is not live and with
    /// `NotFound` when `to` lies beyond the last position; on failure
    /// nothing changes. On success the structural subscribers are
    /// enqueued.
    pub fn move_key(&mut self, key: u64, to: usize, pending: &mut Vec<u64>) -> (r: Result<
        (),
        StoreError,
    >)
        ensures
            ({
                let c0 = old(self)@;
                let c1 = final(self)@;
                let j = find_entry(c0.entries, key);
                match r {
                    Result::Ok(()) => j >= 0 && to < c0.entries.len() && c1.entries
                        == c0.entries.remove(j).insert(to as int, c0.entries[j]) && c1.subs
                        == c0.subs && final(pending)@ == enqueue_all(old(pending)@, c0.subs) && (
                    coll_wf(c0) ==> coll_wf(c1)),
                    Result::Err(e) => c1 == c0 && final(pending)@ == old(pending)@ && (e
                        == StoreError::KeyNotFound <==> !keys_of(c0.entries).contains(key)) && (e
                        == StoreError::NotFound <==> keys_of(c0.entries).contains(key) && to
                        >= c0.entries.len()) && (e == StoreError::KeyNotFound || e
                        == StoreError::NotFound),
                }
            }),
    {
        proof {
            lemma_view_of_entries(self.entries@);
            lemma_find_entry(self@.entries, key);
        }
        let j = match self.find(key) {
            None => {
                return Err(StoreError::KeyNotFound);
            }
            Some(j) => j,
        };
        if to >= self.entries.len() {
            return Err(StoreError::NotFound);
        }
        let ghost c0 = self@;
        proof {
            lemma_entries_view_remove(self.entries@, j as int);
            lemma_view_of_entries(self.entries@);
        }
        let en = self.entries.remove(j);
        proof {
            lemma_entries_view_insert(self.entries@, to as int, en);
        }
        self.entries.insert(to, en);
        enqueue_subs(pending, &self.subs);
        proof {
            let c1 = self@;
            assert(view_of_entry(en) == c0.entries[j as int]);
            if coll_wf(c0) {
                let mid = c0.entries.remove(j as int);
                c0.entries.remove_ensures(j as int);
                mid.insert_ensures(to as int, c0.entries[j as int]);
                assert(keys_of(mid) =~= keys_of(c0.entries).remove(j as int));
                lemma_nodup_remove(keys_of(c0.entries), j as int);
                assert(keys_of(c1.entries) =~= keys_of(mid).insert(to as int, key));
                lemma_nodup_insert(keys_of(mid), to as int, key);
                assert forall|i: int| 0 <= i < c1.entries.len() implies entity_wf(
                    (#[trigger] c1.entries[i]).entity,
                ) by {
                    assert(forall|m: int|
                        0 <= m < mid.len() ==> mid[m] == c0.entries[if m < j {
                            m
                        } else {
                            m + 1
                        }]);
                    if i != to {
                        let m: int = if i < to {
                            i
                        } else {
                            i - 1
                        };
                        assert(c1.entries[i] == mid[m]);
                    }
                }
            }
        }
        Ok(())
    }
}

} // verus!
