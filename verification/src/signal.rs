use vstd::prelude::*;

use crate::value::Value;

verus! {

/// The mathematical content of a [`Signal`]: its value, its version and the
/// sequence of subscriber handles registered on it, in registration order.
pub struct SignalView {
    pub value: Value,
    pub version: u64,
    pub subs: Seq<u64>,
}

/// A subscriber sequence with `s` registered: unchanged if `s` is already
/// present, otherwise `s` appended.
pub open spec fn subs_with(subs: Seq<u64>, s: u64) -> Seq<u64> {
    if subs.contains(s) {
        subs
    } else {
        subs.push(s)
    }
}

/// The version counter after one write: it increases by one until the
/// counter is exhausted, after which it stays put.
pub open spec fn next_version(v: u64) -> u64 {
    if v < u64::MAX {
        (v + 1) as u64
    } else {
        v
    }
}

/// The notification queue after enqueueing every subscriber of `subs`, in
/// order, skipping those already queued.
pub open spec fn enqueue_all(pending: Seq<u64>, subs: Seq<u64>) -> Seq<u64>
    decreases subs.len(),
{
    if subs.len() == 0 {
        pending
    } else {
        enqueue_all(subs_with(pending, subs.first()), subs.drop_first())
    }
}

/// Registering one subscriber adds exactly that subscriber, and keeps the
/// sequence free of duplicates.
pub proof fn lemma_subs_with(subs: Seq<u64>, s: u64, x: u64)
    ensures
        subs_with(subs, s).contains(x) <==> subs.contains(x) || x == s,
        subs.no_duplicates() ==> subs_with(subs, s).no_duplicates(),
{
    if subs.contains(s) {
    } else {
        let p = subs.push(s);
        assert(p[subs.len() as int] == s);
        if subs.contains(x) {
            let i = choose|i: int| 0 <= i < subs.len() && subs[i] == x;
            assert(p[i] == x);
        }
        if p.contains(x) && x != s {
            let i = choose|i: int| 0 <= i < p.len() && p[i] == x;
            assert(i < subs.len());
            assert(subs[i] == x);
        }
        if subs.no_duplicates() {
            assert forall|i: int, j: int| 0 <= i < j < p.len() implies p[i] != p[j] by {
                if j == subs.len() {
                    assert(subs.contains(p[i]));
                }
            }
        }
    }
}

/// Membership in a nonempty sequence is membership in its first element or
/// in the rest.
pub proof fn lemma_first_rest(s: Seq<u64>, x: u64)
    requires
        s.len() > 0,
    ensures
        s.contains(x) <==> x == s.first() || s.drop_first().contains(x),
{
    if s.contains(x) && x != s.first() {
        let i = choose|i: int| 0 <= i < s.len() && s[i] == x;
        assert(s.drop_first()[i - 1] == x);
    }
    if s.drop_first().contains(x) {
        let i = choose|i: int| 0 <= i < s.drop_first().len() && s.drop_first()[i] == x;
        assert(s[i + 1] == x);
    }
}

/// Enqueueing notifies exactly the union of the old queue and the written
/// signal's subscribers, and never queues a subscriber twice.
pub proof fn lemma_enqueue_all(pending: Seq<u64>, subs: Seq<u64>, x: u64)
    ensures
        enqueue_all(pending, subs).contains(x) <==> pending.contains(x) || subs.contains(x),
        pending.no_duplicates() ==> enqueue_all(pending, subs).no_duplicates(),
    decreases subs.len(),
{
    if subs.len() == 0 {
    } else {
        let p1 = subs_with(pending, subs.first());
        lemma_subs_with(pending, subs.first(), x);
        lemma_first_rest(subs, x);
        lemma_enqueue_all(p1, subs.drop_first(), x);
        if pending.no_duplicates() {
            lemma_subs_with(pending, subs.first(), x);
        }
    }
}

/// A subscriber sequence with every occurrence of `s` removed.
pub open spec fn subs_without(subs: Seq<u64>, s: u64) -> Seq<u64>
    decreases subs.len(),
{
    if subs.len() == 0 {
        Seq::empty()
    } else if subs.last() == s {
        subs_without(subs.drop_last(), s)
    } else {
        subs_without(subs.drop_last(), s).push(subs.last())
    }
}

/// Unregistering removes exactly that subscriber.
pub proof fn lemma_subs_without(subs: Seq<u64>, s: u64, x: u64)
    ensures
        subs_without(subs, s).contains(x) <==> subs.contains(x) && x != s,
    decreases subs.len(),
{
    if subs.len() > 0 {
        let fr = subs.drop_last();
        lemma_subs_without(fr, s, x);
        assert(subs[subs.len() - 1] == subs.last());
        assert(subs.contains(subs.last()));
        assert forall|y: u64| fr.contains(y) implies subs.contains(y) by {
            let i = choose|i: int| 0 <= i < fr.len() && fr[i] == y;
            assert(subs[i] == y);
        }
        assert forall|y: u64| subs.contains(y) implies fr.contains(y) || y == subs.last() by {
            let i = choose|i: int| 0 <= i < subs.len() && subs[i] == y;
            if i < subs.len() - 1 {
                assert(fr[i] == y);
            }
        }
        if subs.last() != s {
            let t = subs_without(fr, s).push(subs.last());
            assert(t[t.len() - 1] == subs.last());
            assert(t.contains(subs.last()));
            assert forall|y: u64| #[trigger] t.contains(y) implies subs_without(fr, s).contains(y)
                || y == subs.last() by {
                let i = choose|i: int| 0 <= i < t.len() && t[i] == y;
                if i < t.len() - 1 {
                    assert(subs_without(fr, s)[i] == y);
                }
            }
            assert forall|y: u64| subs_without(fr, s).contains(y) implies t.contains(y) by {
                let i = choose|i: int| 0 <= i < subs_without(fr, s).len() && subs_without(fr, s)[i]
                    == y;
                assert(t[i] == y);
            }
        }
    }
}

/// Remove every occurrence of `s` from `v`, in place.
pub fn remove_sub(v: &mut Vec<u64>, s: u64)
    ensures
        final(v)@ == subs_without(old(v)@, s),
{
    let mut out: Vec<u64> = Vec::new();
    proof {
        assert(old(v)@.take(0) =~= Seq::<u64>::empty());
    }
    let mut i: usize = 0;
    while i < v.len()
        invariant
            i <= v@.len(),
            v@ == old(v)@,
            out@ == subs_without(v@.take(i as int), s),
        decreases v@.len() - i,
    {
        let x = v[i];
        proof {
            assert(v@.take(i as int + 1).drop_last() =~= v@.take(i as int));
            assert(v@.take(i as int + 1).last() == x);
        }
        if x != s {
            out.push(x);
        }
        i = i + 1;
    }
    proof {
        assert(v@.take(v@.len() as int) =~= v@);
    }
    *v = out;
}

/// Whether `x` occurs in `v`.
pub fn contains_u64(v: &Vec<u64>, x: u64) -> (b: bool)
    ensures
        b == v@.contains(x),
{
    let mut i: usize = 0;
    while i < v.len()
        invariant
            i <= v@.len(),
            forall|j: int| 0 <= j < i ==> v@[j] != x,
        decreases v@.len() - i,
    {
        if v[i] == x {
            return true;
        }
        i = i + 1;
    }
    false
}

/// Push every element of `subs` that is not yet in `pending` onto
/// `pending`, in order.
pub fn enqueue_subs(pending: &mut Vec<u64>, subs: &Vec<u64>)
    ensures
        final(pending)@ == enqueue_all(old(pending)@, subs@),
{
    proof {
        assert(subs@.skip(0) == subs@);
    }
    let mut i: usize = 0;
    while i < subs.len()
        invariant
            i <= subs@.len(),
            enqueue_all(pending@, subs@.skip(i as int)) == enqueue_all(old(pending)@, subs@),
        decreases subs@.len() - i,
    {
        let s = subs[i];
        proof {
            assert(subs@.skip(i as int).first() == s);
            assert(subs@.skip(i as int).drop_first() == subs@.skip(i as int + 1));
        }
        if !contains_u64(pending, s) {
            pending.push(s);
        }
        i = i + 1;
    }
    proof {
        assert(subs@.skip(subs@.len() as int) =~= Seq::<u64>::empty());
    }
}

/// A single mutable reactive cell: the atomic unit of reactivity.
///
/// A signal is always readable once constructed; reads performed inside a
/// tracked context register the context as a subscriber, and every write
/// enqueues the current subscribers for notification, whether or not the
/// new value equals the old one.
pub struct Signal {
    value: Value,
    version: u64,
    subs: Vec<u64>,
}

impl View for Signal {
    type V = SignalView;

    closed spec fn view(&self) -> SignalView {
        SignalView { value: self.value, version: self.version, subs: self.subs@ }
    }
}

impl Signal {
    /// A fresh signal holding `value`, with no subscribers and version 0.
    pub fn new(value: Value) -> (s: Signal)
        ensures
            s@ == (SignalView { value, version: 0, subs: Seq::<u64>::empty() }),
    {
        Signal { value, version: 0, subs: Vec::new() }
    }

    /// Read the value without tracking.
    pub fn peek(&self) -> (v: &Value)
        ensures
            *v == self@.value,
    {
        &self.value
    }

    /// Read the value; inside a tracked context (`ctx` present) the context
    /// is registered as a subscriber of this signal.
    pub fn read(&mut self, ctx: Option<u64>) -> (v: &Value)
        ensures
            *v == old(self)@.value,
            final(self)@.value == old(self)@.value,
            final(self)@.version == old(self)@.version,
            final(self)@.subs == match ctx {
                None => old(self)@.subs,
                Some(s) => subs_with(old(self)@.subs, s),
            },
    {
        match ctx {
            None => {}
            Some(s) => {
                if !contains_u64(&self.subs, s) {
                    self.subs.push(s);
                }
            }
        }
        &self.value
    }

    /// Register `s` as a subscriber of this signal.
    pub fn subscribe(&mut self, s: u64)
        ensures
            final(self)@ == (SignalView {
                value: old(self)@.value,
                version: old(self)@.version,
                subs: subs_with(old(self)@.subs, s),
            }),
    {
        if !contains_u64(&self.subs, s) {
            self.subs.push(s);
        }
    }

    /// Unregister `s` from this signal.
    pub fn unsubscribe(&mut self, s: u64)
        ensures
            final(self)@ == (SignalView {
                value: old(self)@.value,
                version: old(self)@.version,
                subs: subs_without(old(self)@.subs, s),
            }),
    {
        remove_sub(&mut self.subs, s);
    }

    /// Replace the value, advance the version, and enqueue every current
    /// subscriber on `pending` (skipping those already queued). There is no
    /// value-equality short-circuit: writing an equal value still notifies.
    pub fn write(&mut self, v: Value, pending: &mut Vec<u64>)
        ensures
            final(self)@ == (SignalView {
                value: v,
                version: next_version(old(self)@.version),
                subs: old(self)@.subs,
            }),
            final(pending)@ == enqueue_all(old(pending)@, old(self)@.subs),
    {
        self.value = v;
        if self.version < u64::MAX {
            self.version = self.version + 1;
        }
        enqueue_subs(pending, &self.subs);
    }
}

} // verus!
