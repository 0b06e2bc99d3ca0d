use vstd::prelude::*;

use crate::signal::contains_u64;
use crate::tree::{lemma_nodup_insert, lemma_nodup_remove};
use vstd::pervasive::unreached;

verus! {

/// One keyed view patch.
///
/// A patch list is applied in order, each index interpreted against the
/// sequence as patched so far.
#[derive(Debug, Clone, Copy, PartialEq, Eq)]
pub enum Patch {
    /// Insert `key` so that it ends at position `at`.
    Insert { key: u64, at: usize },
    /// Remove the entry holding `key`.
    Remove { key: u64 },
    /// Move the entry holding `key` so that it ends at position `to`.
    Move { key: u64, to: usize },
}

/// The first position of `k` in `s`, or `-1` when `k` does not occur.
pub open spec fn find_pos(s: Seq<u64>, k: u64) -> int
    decreases s.len(),
{
    if s.len() == 0 {
        -1
    } else if s[0] == k {
        0
    } else {
        let r = find_pos(s.drop_first(), k);
        if r < 0 {
            -1
        } else {
            r + 1
        }
    }
}

/// `find_pos` finds exactly the first occurrence.
pub proof fn lemma_find_pos(s: Seq<u64>, k: u64)
    ensures
        find_pos(s, k) >= -1,
        find_pos(s, k) == -1 <==> !s.contains(k),
        find_pos(s, k) >= 0 <==> s.contains(k),
        find_pos(s, k) >= 0 ==> find_pos(s, k) < s.len() && s[find_pos(s, k)] == k && (forall|
            i: int,
        | 0 <= i < find_pos(s, k) ==> s[i] != k),
    decreases s.len(),
{
    if s.len() == 0 {
    } else {
        lemma_find_pos(s.drop_first(), k);
        let rest = s.drop_first();
        if s[0] == k {
        } else {
            let r = find_pos(rest, k);
            if r < 0 {
                if s.contains(k) {
                    let i = choose|i: int| 0 <= i < s.len() && s[i] == k;
                    assert(rest[i - 1] == k);
                }
            } else {
                assert(s[r + 1] == rest[r]);
                assert(s.contains(s[r + 1]));
                assert(forall|i: int| 1 <= i < r + 1 ==> s[i] == rest[i - 1]);
            }
        }
    }
}

/// If `j` is the first position holding `k`, then `find_pos` returns `j`.
pub proof fn lemma_find_pos_at(s: Seq<u64>, k: u64, j: int)
    requires
        0 <= j < s.len(),
        s[j] == k,
        forall|i: int| 0 <= i < j ==> s[i] != k,
    ensures
        find_pos(s, k) == j,
{
    lemma_find_pos(s, k);
    assert(s.contains(k));
}

/// The key sequence after one patch, or `None` when the patch does not
/// apply: a removed or moved key must be live, an inserted key must be
/// fresh, and the target position must exist.
pub open spec fn apply_patch(s: Seq<u64>, p: Patch) -> Option<Seq<u64>> {
    match p {
        Patch::Remove { key } => {
            let j = find_pos(s, key);
            if j >= 0 {
                Some(s.remove(j))
            } else {
                None
            }
        },
        Patch::Insert { key, at } => {
            if !s.contains(key) && at <= s.len() {
                Some(s.insert(at as int, key))
            } else {
                None
            }
        },
        Patch::Move { key, to } => {
            let j = find_pos(s, key);
            if j >= 0 && (to as int) < s.len() {
                Some(s.remove(j).insert(to as int, key))
            } else {
                None
            }
        },
    }
}

/// The key sequence after a whole patch list, applied in order.
pub open spec fn apply_patches(s: Seq<u64>, ps: Seq<Patch>) -> Option<Seq<u64>>
    decreases ps.len(),
{
    if ps.len() == 0 {
        Some(s)
    } else {
        match apply_patch(s, ps.first()) {
            None => None,
            Some(s1) => apply_patches(s1, ps.drop_first()),
        }
    }
}

/// Appending one patch to a list applies it after the list.
pub proof fn lemma_apply_push(s: Seq<u64>, ps: Seq<Patch>, p: Patch)
    ensures
        apply_patches(s, ps.push(p)) == (match apply_patches(s, ps) {
            None => None::<Seq<u64>>,
            Some(t) => apply_patch(t, p),
        }),
    decreases ps.len(),
{
    if ps.len() == 0 {
        assert(ps.push(p).drop_first() =~= Seq::<Patch>::empty());
        assert(ps.push(p).first() == p);
        assert(apply_patches(s, ps) == Some(s));
        match apply_patch(s, p) {
            None => {
                assert(apply_patches(s, ps.push(p)) is None);
            },
            Some(s1) => {
                assert(apply_patches(s1, Seq::<Patch>::empty()) == Some(s1));
                assert(apply_patches(s, ps.push(p)) == Some(s1));
            },
        }
    } else {
        assert(ps.push(p).first() == ps.first());
        assert(ps.push(p).drop_first() =~= ps.drop_first().push(p));
        match apply_patch(s, ps.first()) {
            None => {
                assert(apply_patches(s, ps) is None);
                assert(apply_patches(s, ps.push(p)) is None);
            },
            Some(s1) => {
                lemma_apply_push(s1, ps.drop_first(), p);
                assert(apply_patches(s, ps.push(p)) == apply_patches(s1, ps.drop_first().push(p)));
                assert(apply_patches(s, ps) == apply_patches(s1, ps.drop_first()));
            },
        }
    }
}

/// Membership after a sequence insert.
pub proof fn lemma_contains_insert(s: Seq<u64>, p: int, x: u64, y: u64)
    requires
        0 <= p <= s.len(),
    ensures
        s.insert(p, x).contains(y) <==> s.contains(y) || y == x,
{
    s.insert_ensures(p, x);
    let t = s.insert(p, x);
    assert(t[p] == x);
    if s.contains(y) {
        let i = choose|i: int| 0 <= i < s.len() && s[i] == y;
        if i < p {
            assert(t[i] == y);
        } else {
            assert(t[i + 1] == y);
        }
    }
    if t.contains(y) && y != x {
        let i = choose|i: int| 0 <= i < t.len() && t[i] == y;
        if i < p {
            assert(s[i] == y);
        } else {
            assert(i != p);
            assert(s[i - 1] == y);
        }
    }
}

/// Run a patch list against a key sequence; `None` when some patch does
/// not apply.
pub fn apply(a: &Vec<u64>, ps: &Vec<Patch>) -> (r: Option<Vec<u64>>)
    ensures
        match r {
            Some(v) => apply_patches(a@, ps@) == Some(v@),
            None => apply_patches(a@, ps@) is None,
        },
{
    let mut cur: Vec<u64> = Vec::new();
    let mut i: usize = 0;
    while i < a.len()
        invariant
            i <= a@.len(),
            cur@ == a@.take(i as int),
        decreases a@.len() - i,
    {
        cur.push(a[i]);
        proof {
            assert(a@.take(i as int).push(a@[i as int]) =~= a@.take(i as int + 1));
        }
        i = i + 1;
    }
    proof {
        assert(a@.take(a@.len() as int) =~= a@);
        assert(ps@.take(0) =~= Seq::<Patch>::empty());
    }
    let mut j: usize = 0;
    while j < ps.len()
        invariant
            j <= ps@.len(),
            apply_patches(a@, ps@.take(j as int)) == Some(cur@),
        decreases ps@.len() - j,
    {
        let ghost pre = cur@;
        let p = ps[j];
        proof {
            assert(ps@.take(j as int).push(ps@[j as int]) =~= ps@.take(j as int + 1));
            lemma_apply_push(a@, ps@.take(j as int), ps@[j as int]);
        }
        match p {
            Patch::Remove { key } => {
                proof {
                    lemma_find_pos(cur@, key);
                }
                match find_first(&cur, key) {
                    None => {
                        proof {
                            lemma_apply_none(a@, ps@, j as int, pre);
                        }
                        return None;
                    },
                    Some(f) => {
                        let _ = cur.remove(f);
                    },
                }
            },
            Patch::Insert { key, at } => {
                proof {
                    lemma_find_pos(cur@, key);
                }
                if find_first(&cur, key).is_some() || at > cur.len() {
                    proof {
                        lemma_apply_none(a@, ps@, j as int, pre);
                    }
                    return None;
                }
                cur.insert(at, key);
            },
            Patch::Move { key, to } => {
                proof {
                    lemma_find_pos(cur@, key);
                }
                let f = match find_first(&cur, key) {
                    None => {
                        proof {
                            lemma_apply_none(a@, ps@, j as int, pre);
                        }
                        return None;
                    },
                    Some(f) => f,
                };
                if to >= cur.len() {
                    proof {
                        lemma_apply_none(a@, ps@, j as int, pre);
                    }
                    return None;
                }
                let _ = cur.remove(f);
                cur.insert(to, key);
            },
        }
        j = j + 1;
    }
    proof {
        assert(ps@.take(ps@.len() as int) =~= ps@);
    }
    Some(cur)
}

/// If the prefix of a patch list reaches `t` and the next patch does not
/// apply to `t`, the whole list does not apply.
proof fn lemma_apply_none(s: Seq<u64>, ps: Seq<Patch>, j: int, t: Seq<u64>)
    requires
        0 <= j < ps.len(),
        apply_patches(s, ps.take(j)) == Some(t),
        apply_patch(t, ps[j]) is None,
    ensures
        apply_patches(s, ps) is None,
    decreases j + 1,
{
    if j == 0 {
        assert(ps.take(0) =~= Seq::<Patch>::empty());
        assert(ps.first() == ps[0]);
    } else {
        assert(ps.take(j).first() == ps.first());
        assert(ps.take(j).drop_first() =~= ps.drop_first().take(j - 1));
        match apply_patch(s, ps.first()) {
            None => {},
            Some(s1) => {
                assert(ps.drop_first()[j - 1] == ps[j]);
                lemma_apply_none(s1, ps.drop_first(), j - 1, t);
            },
        }
    }
}

/// The first position of `k` in `v`.
pub fn find_first(v: &Vec<u64>, k: u64) -> (r: Option<usize>)
    ensures
        match r {
            Some(j) => j == find_pos(v@, k),
            None => find_pos(v@, k) == -1,
        },
{
    let mut i: usize = 0;
    while i < v.len()
        invariant
            i <= v@.len(),
            forall|j: int| 0 <= j < i ==> v@[j] != k,
        decreases v@.len() - i,
    {
        if v[i] == k {
            proof {
                lemma_find_pos_at(v@, k, i as int);
            }
            return Some(i);
        }
        i = i + 1;
    }
    proof {
        lemma_find_pos(v@, k);
        if v@.contains(k) {
            let j = choose|j: int| 0 <= j < v@.len() && v@[j] == k;
            assert(v@[j] != k);
        }
    }
    None
}

/// The keys of `a` that survive into `b`, in their `a` order.
pub open spec fn kept(a: Seq<u64>, b: Seq<u64>) -> Seq<u64>
    decreases a.len(),
{
    if a.len() == 0 {
        Seq::empty()
    } else if b.contains(a.last()) {
        kept(a.drop_last(), b).push(a.last())
    } else {
        kept(a.drop_last(), b)
    }
}

/// What identity preservation demands of one emitted patch: a removed key
/// is one that does not survive, an inserted key is one that was not
/// present, and a moved key is live in both orders.
pub open spec fn patch_preserves_identity(a: Seq<u64>, b: Seq<u64>, p: Patch) -> bool {
    match p {
        Patch::Remove { key } => a.contains(key) && !b.contains(key),
        Patch::Insert { key, at } => !a.contains(key) && b.contains(key),
        Patch::Move { key, to } => a.contains(key) && b.contains(key),
    }
}

/// The removes the engine emits: one for each key of `a` that does not
/// survive into `b`, in `a` order.
pub open spec fn removes_of(a: Seq<u64>, b: Seq<u64>) -> Seq<Patch>
    decreases a.len(),
{
    if a.len() == 0 {
        Seq::empty()
    } else if b.contains(a.last()) {
        removes_of(a.drop_last(), b)
    } else {
        removes_of(a.drop_last(), b).push(Patch::Remove { key: a.last() })
    }
}

/// The moves and inserts the engine emits after the removes, walking `b`
/// from position `t` with `cur` the key order built so far: a surviving
/// key already in place needs nothing, a surviving key out of place is
/// moved to its place, and a fresh key is inserted at its place.
pub open spec fn patches_from(cur: Seq<u64>, a: Seq<u64>, b: Seq<u64>, t: int) -> Seq<Patch>
    decreases b.len() - t,
{
    if t < 0 || t >= b.len() {
        Seq::empty()
    } else {
        let k = b[t];
        if a.contains(k) {
            if cur[t] == k {
                patches_from(cur, a, b, t + 1)
            } else {
                seq![Patch::Move { key: k, to: t as usize }] + patches_from(
                    cur.remove(find_pos(cur, k)).insert(t, k),
                    a,
                    b,
                    t + 1,
                )
            }
        } else {
            seq![Patch::Insert { key: k, at: t as usize }] + patches_from(
                cur.insert(t, k),
                a,
                b,
                t + 1,
            )
        }
    }
}

/// The exact patch list the engine emits: the removes, then the moves and
/// inserts found by walking `b` over the kept keys.
pub open spec fn diff_spec(a: Seq<u64>, b: Seq<u64>) -> Seq<Patch> {
    removes_of(a, b) + patches_from(kept(a, b), a, b, 0)
}

/// Compute the patch list that turns key order `a` into key order `b`.
///
/// Removes come first, then, walking `b` from the front, a move for each
/// surviving key that is out of place and an insert for each fresh key.
/// The emitted list is pinned exactly: it equals [`diff_spec`], so for
/// instance swapping the only two keys is exactly one move of the key
/// that comes to the front ([`lemma_diff_swap_pair`]). The patches never
/// remove a key that survives and never insert a key that was present: an
/// entity whose key is in both orders is retained, never rebuilt. The
/// patch count is provably minimal whenever the change is a pure
/// insertion or a pure removal; a mixed reorder may spend more moves than
/// the fewest an ideal common-subsequence plan would need.
pub fn diff(a: &Vec<u64>, b: &Vec<u64>) -> (ps: Vec<Patch>)
    requires
        a@.no_duplicates(),
        b@.no_duplicates(),
    ensures
        ps@ == diff_spec(a@, b@),
        apply_patches(a@, ps@) == Some(b@),
        forall|i: int|
            0 <= i < ps@.len() ==> patch_preserves_identity(a@, b@, #[trigger] ps@[i]),
        b@ == kept(a@, b@) ==> ps@.len() == a@.len() - b@.len() && (forall|i: int|
            0 <= i < ps@.len() ==> (#[trigger] ps@[i]) is Remove),
        a@ == kept(b@, a@) ==> ps@.len() == b@.len() - a@.len() && (forall|i: int|
            0 <= i < ps@.len() ==> (#[trigger] ps@[i]) is Insert),
{
    let mut ps: Vec<Patch> = Vec::new();
    let mut cur: Vec<u64> = Vec::new();
    proof {
        assert(a@.take(0) =~= Seq::<u64>::empty());
        assert(a@.skip(0) =~= a@);
        assert(cur@ =~= kept(a@.take(0), b@));
        assert(ps@ =~= removes_of(a@.take(0), b@));
        assert(cur@ + a@.skip(0) =~= a@);
    }
    let mut i: usize = 0;
    while i < a.len()
        invariant
            i <= a@.len(),
            a@.no_duplicates(),
            b@.no_duplicates(),
            cur@ == kept(a@.take(i as int), b@),
            ps@ == removes_of(a@.take(i as int), b@),
            ps@.len() + cur@.len() == i,
            apply_patches(a@, ps@) == Some(cur@ + a@.skip(i as int)),
            forall|j: int|
                0 <= j < ps@.len() ==> ((#[trigger] ps@[j]) matches Patch::Remove { key }
                    && a@.contains(key) && !b@.contains(key)),
        decreases a@.len() - i,
    {
        let k = a[i];
        let ghost pre = cur@;
        proof {
            assert(a@.take(i as int + 1).drop_last() =~= a@.take(i as int));
            assert(a@.take(i as int + 1).last() == k);
            assert(a@.contains(k));
        }
        if contains_u64(b, k) {
            cur.push(k);
            proof {
                assert(cur@ == kept(a@.take(i as int + 1), b@));
                assert(pre.push(k) + a@.skip(i as int + 1) =~= pre + a@.skip(i as int));
            }
        } else {
            let ghost whole = pre + a@.skip(i as int);
            proof {
                lemma_apply_push(a@, ps@, Patch::Remove { key: k });
                lemma_kept_not_in(a@.take(i as int), b@, k);
                assert(whole[pre.len() as int] == a@.skip(i as int)[0]);
                lemma_find_pos_at(whole, k, pre.len() as int);
                assert(whole.remove(pre.len() as int) =~= pre + a@.skip(i as int + 1));
            }
            ps.push(Patch::Remove { key: k });
        }
        i = i + 1;
    }
    proof {
        assert(a@.take(a@.len() as int) =~= a@);
        assert(a@.skip(a@.len() as int) =~= Seq::<u64>::empty());
        assert(cur@ + a@.skip(a@.len() as int) =~= cur@);
        lemma_kept_membership(a@, b@);
        lemma_kept_nodup(a@, b@);
        assert(b@.take(0) =~= Seq::<u64>::empty());
        assert(cur@.take(0) =~= Seq::<u64>::empty());
        assert(ps@ == removes_of(a@, b@));
        assert(diff_spec(a@, b@) == ps@ + patches_from(cur@, a@, b@, 0));
    }
    let ghost ps1 = ps@;
    proof {
        if a@ == kept(b@, a@) {
            lemma_kept_membership(b@, a@);
            assert forall|x: u64| a@.contains(x) implies b@.contains(x) by {
                assert(kept(b@, a@).contains(x));
            }
            lemma_kept_all(a@, b@);
            assert(b@.skip(0) =~= b@);
            assert(kept(b@.take(0), a@) == Seq::<u64>::empty());
            assert(cur@ =~= b@.take(0) + kept(b@.skip(0), a@));
        }
    }
    let mut t: usize = 0;
    while t < b.len()
        invariant
            t <= b@.len(),
            a@.no_duplicates(),
            b@.no_duplicates(),
            t <= cur@.len(),
            apply_patches(a@, ps@) == Some(cur@),
            cur@.no_duplicates(),
            cur@.take(t as int) == b@.take(t as int),
            forall|x: u64|
                cur@.contains(x) ==> (a@.contains(x) && b@.contains(x)) || b@.take(
                    t as int,
                ).contains(x),
            forall|x: u64| a@.contains(x) && b@.contains(x) ==> cur@.contains(x),
            forall|j: int|
                0 <= j < ps@.len() ==> patch_preserves_identity(a@, b@, #[trigger] ps@[j]),
            diff_spec(a@, b@) == ps@ + patches_from(cur@, a@, b@, t as int),
            ps1.len() == a@.len() - kept(a@, b@).len(),
            forall|j: int| 0 <= j < ps1.len() ==> (#[trigger] ps1[j]) is Remove,
            b@ == kept(a@, b@) ==> cur@ == b@ && ps@ == ps1,
            a@ == kept(b@, a@) ==> cur@ == b@.take(t as int) + kept(b@.skip(t as int), a@)
                && ps@.len() == ps1.len() + t - kept(b@.take(t as int), a@).len() && (forall|
                j: int,
            | 0 <= j < ps@.len() ==> (#[trigger] ps@[j]) is Insert),
        decreases b@.len() - t,
    {
        let k = b[t];
        let ghost pre = cur@;
        proof {
            assert(b@.contains(k));
            assert(b@.take(t as int + 1).drop_last() =~= b@.take(t as int));
            if b@.take(t as int).contains(k) {
                let j = choose|j: int| 0 <= j < t && b@.take(t as int)[j] == k;
                assert(b@[j] == k && b@[t as int] == k);
            }
        }
        if contains_u64(a, k) {
            proof {
                assert(cur@.contains(k));
                let j = choose|j: int| 0 <= j < cur@.len() && cur@[j] == k;
                if j < t {
                    assert(cur@.take(t as int)[j] == k);
                    assert(b@.take(t as int)[j] == k);
                    assert(b@.take(t as int).contains(k));
                }
                assert(cur@.len() > t);
            }
            if cur[t] == k {
                proof {
                    assert(cur@.take(t as int + 1) =~= b@.take(t as int + 1));
                    if a@ == kept(b@, a@) {
                        lemma_kept_head(b@.skip(t as int), a@);
                        assert(b@.skip(t as int).first() == k);
                        assert(b@.skip(t as int).drop_first() =~= b@.skip(t as int + 1));
                        assert(cur@ =~= b@.take(t as int + 1) + kept(b@.skip(t as int + 1), a@));
                        assert(b@.take(t as int + 1).drop_last() =~= b@.take(t as int));
                        assert(b@.take(t as int + 1).last() == k);
                        assert(kept(b@.take(t as int + 1), a@) == kept(
                            b@.take(t as int),
                            a@,
                        ).push(k));
                    }
                }
            } else {
                let f = match find_first(&cur, k) {
                    None => {
                        proof {
                            lemma_find_pos(cur@, k);
                        }
                        unreached()
                    },
                    Some(f) => f,
                };
                proof {
                    lemma_find_pos(cur@, k);
                    assert(cur@[f as int] == k);
                    if f < t {
                        assert(cur@.take(t as int)[f as int] == k);
                        assert(b@.take(t as int)[f as int] == k);
                        assert(b@.take(t as int).contains(k));
                    }
                    assert(f > t);
                    lemma_apply_push(a@, ps@, Patch::Move { key: k, to: t });
                    lemma_nodup_remove(cur@, f as int);
                    let mid = cur@.remove(f as int);
                    cur@.remove_ensures(f as int);
                    mid.insert_ensures(t as int, k);
                    lemma_nodup_insert(mid, t as int, k);
                    let nxt = mid.insert(t as int, k);
                    assert forall|x: u64| nxt.contains(x) implies pre.contains(x) by {
                        lemma_contains_insert(mid, t as int, k, x);
                    }
                    assert forall|x: u64| pre.contains(x) implies nxt.contains(x) by {
                        lemma_contains_insert(mid, t as int, k, x);
                    }
                    assert(nxt.take(t as int + 1) =~= b@.take(t as int + 1));
                    if b@ == kept(a@, b@) {
                        assert(cur@[t as int] == b@[t as int]);
                    }
                    if a@ == kept(b@, a@) {
                        lemma_kept_head(b@.skip(t as int), a@);
                        assert(b@.skip(t as int).first() == k);
                        assert(cur@[t as int] == (kept(b@.skip(t as int), a@))[0]);
                    }
                }
                ps.push(Patch::Move { key: k, to: t });
                let _ = cur.remove(f);
                cur.insert(t, k);
            }
        } else {
            proof {
                if cur@.contains(k) {
                    assert((a@.contains(k) && b@.contains(k)) || b@.take(t as int).contains(k));
                }
                lemma_find_pos(cur@, k);
                lemma_apply_push(a@, ps@, Patch::Insert { key: k, at: t });
                pre.insert_ensures(t as int, k);
                lemma_nodup_insert(pre, t as int, k);
                let nxt = pre.insert(t as int, k);
                assert forall|x: u64| nxt.contains(x) implies pre.contains(x) || x == k by {
                    lemma_contains_insert(pre, t as int, k, x);
                }
                assert forall|x: u64| pre.contains(x) implies nxt.contains(x) by {
                    lemma_contains_insert(pre, t as int, k, x);
                }
                assert(nxt.take(t as int + 1) =~= b@.take(t as int + 1));
                if b@ == kept(a@, b@) {
                    lemma_kept_membership(a@, b@);
                    assert(kept(a@, b@).contains(k));
                    assert(a@.contains(k));
                }
                if a@ == kept(b@, a@) {
                    lemma_kept_head(b@.skip(t as int), a@);
                    assert(b@.skip(t as int).first() == k);
                    assert(b@.skip(t as int).drop_first() =~= b@.skip(t as int + 1));
                    assert(kept(b@.skip(t as int), a@) == kept(b@.skip(t as int + 1), a@));
                    assert(cur@.insert(t as int, k) =~= b@.take(t as int + 1) + kept(
                        b@.skip(t as int + 1),
                        a@,
                    ));
                    assert(b@.take(t as int + 1).drop_last() =~= b@.take(t as int));
                    assert(kept(b@.take(t as int + 1), a@) == kept(b@.take(t as int), a@));
                }
            }
            ps.push(Patch::Insert { key: k, at: t });
            cur.insert(t, k);
        }
        proof {
            assert(b@.take(t as int + 1)[t as int] == k);
            assert(b@.take(t as int + 1).contains(k));
            assert forall|x: u64| b@.take(t as int).contains(x) implies b@.take(
                t as int + 1,
            ).contains(x) by {
                let i = choose|i: int| 0 <= i < t && b@.take(t as int)[i] == x;
                assert(b@.take(t as int + 1)[i] == x);
            }
        }
        t = t + 1;
    }
    proof {
        assert(cur@.take(b@.len() as int) == b@.take(b@.len() as int));
        assert(b@.take(b@.len() as int) =~= b@);
        if cur@.len() > b@.len() {
            let x = cur@[b@.len() as int];
            assert(cur@.contains(x));
            assert(b@.contains(x));
            let j = choose|j: int| 0 <= j < b@.len() && b@[j] == x;
            assert(cur@.take(b@.len() as int)[j] == b@[j]);
            assert(cur@[j] == x);
        }
        assert(cur@.len() == b@.len());
        assert(cur@ =~= b@);
        if a@ == kept(b@, a@) {
            lemma_kept_membership(b@, a@);
            assert forall|x: u64| a@.contains(x) implies b@.contains(x) by {
                assert(kept(b@, a@).contains(x));
            }
            lemma_kept_all(a@, b@);
            assert(b@.take(b@.len() as int) =~= b@);
        }
    }
    ps
}

/// Swapping the only two keys costs exactly one move, of the key that
/// comes to the front: together with `diff`'s exact contract, diffing
/// `[x, y]` against `[y, x]` emits `[Move(y, 0)]` — no insert, no remove.
pub proof fn lemma_diff_swap_pair(x: u64, y: u64)
    requires
        x != y,
    ensures
        diff_spec(seq![x, y], seq![y, x]) == seq![Patch::Move { key: y, to: 0 }],
{
    let a = seq![x, y];
    let b = seq![y, x];
    assert(a[0] == x && a[1] == y && b[0] == y && b[1] == x);
    assert(a.contains(x) && a.contains(y) && b.contains(x) && b.contains(y));
    // No removes: both keys survive.
    assert(a.drop_last() =~= seq![x]);
    assert(seq![x].drop_last() =~= Seq::<u64>::empty());
    assert(seq![x].len() == 1 && seq![x][0] == x);
    assert(seq![x].last() == x);
    assert(removes_of(Seq::<u64>::empty(), b) == Seq::<Patch>::empty());
    assert(removes_of(seq![x], b) == Seq::<Patch>::empty());
    assert(removes_of(a, b) == Seq::<Patch>::empty());
    // Everything is kept, in `a` order.
    assert(kept(Seq::<u64>::empty(), b) =~= Seq::<u64>::empty());
    assert(kept(seq![x], b) =~= Seq::<u64>::empty().push(x));
    assert(Seq::<u64>::empty().push(x) =~= seq![x]);
    assert(kept(a, b) =~= kept(seq![x], b).push(y));
    assert(kept(a, b) =~= a);
    // Walking b: y is out of place at 0, then x sits at 1.
    let moved = a.remove(find_pos(a, y)).insert(0, y);
    lemma_find_pos_at(a, y, 1);
    assert(a.remove(1) =~= seq![x]);
    assert(moved =~= seq![y, x]);
    assert(moved[1] == x);
    assert(patches_from(moved, a, b, 2) == Seq::<Patch>::empty());
    assert(patches_from(moved, a, b, 1) == Seq::<Patch>::empty());
    assert(patches_from(a, a, b, 0) == seq![Patch::Move { key: y, to: 0 }] + patches_from(
        moved,
        a,
        b,
        1,
    ));
    assert(seq![Patch::Move { key: y, to: 0 }] + Seq::<Patch>::empty() =~= seq![
        Patch::Move { key: y, to: 0 },
    ]);
    assert(Seq::<Patch>::empty() + seq![Patch::Move { key: y, to: 0 }] =~= seq![
        Patch::Move { key: y, to: 0 },
    ]);
}

/// No key outside `b` survives into the kept subsequence.
proof fn lemma_kept_not_in(a: Seq<u64>, b: Seq<u64>, k: u64)
    requires
        !b.contains(k),
    ensures
        !kept(a, b).contains(k),
{
    lemma_kept_membership(a, b);
}

/// When every key of `a` is live in `b`, everything is kept.
pub proof fn lemma_kept_all(a: Seq<u64>, b: Seq<u64>)
    requires
        forall|x: u64| a.contains(x) ==> b.contains(x),
    ensures
        kept(a, b) == a,
    decreases a.len(),
{
    if a.len() > 0 {
        let fr = a.drop_last();
        assert forall|x: u64| fr.contains(x) implies b.contains(x) by {
            let i = choose|i: int| 0 <= i < fr.len() && fr[i] == x;
            assert(a[i] == x);
            assert(a.contains(x));
        }
        lemma_kept_all(fr, b);
        assert(a[a.len() - 1] == a.last());
        assert(a.contains(a.last()));
        assert(kept(a, b) == fr.push(a.last()));
        assert(fr.push(a.last()) =~= a);
    }
}

/// Keeping splits off the head of the scanned order.
pub proof fn lemma_kept_head(s: Seq<u64>, a: Seq<u64>)
    requires
        s.len() > 0,
    ensures
        kept(s, a) == (if a.contains(s.first()) {
            seq![s.first()] + kept(s.drop_first(), a)
        } else {
            kept(s.drop_first(), a)
        }),
    decreases s.len(),
{
    if s.len() == 1 {
        assert(s.drop_last() =~= Seq::<u64>::empty());
        assert(s.drop_first() =~= Seq::<u64>::empty());
        assert(s.last() == s.first());
        if a.contains(s.first()) {
            assert(seq![s.first()] + kept(s.drop_first(), a) =~= Seq::<u64>::empty().push(
                s.first(),
            ));
        }
    } else {
        let d = s.drop_last();
        lemma_kept_head(d, a);
        assert(d.first() == s.first());
        assert(d.drop_first() =~= s.drop_first().drop_last());
        assert(s.drop_first().len() > 0);
        assert(s.drop_first().last() == s.last());
        if a.contains(s.last()) {
            assert(kept(s, a) == kept(d, a).push(s.last()));
            assert(kept(s.drop_first(), a) == kept(d.drop_first(), a).push(s.last()));
            if a.contains(s.first()) {
                assert((seq![s.first()] + kept(d.drop_first(), a)).push(s.last()) =~= seq![
                    s.first(),
                ] + kept(d.drop_first(), a).push(s.last()));
            }
        } else {
            assert(kept(s, a) == kept(d, a));
            assert(kept(s.drop_first(), a) == kept(d.drop_first(), a));
        }
    }
}

/// A key survives into the kept subsequence exactly when it is live in
/// both orders.
pub proof fn lemma_kept_membership(a: Seq<u64>, b: Seq<u64>)
    ensures
        forall|x: u64| #[trigger] kept(a, b).contains(x) <==> a.contains(x) && b.contains(x),
    decreases a.len(),
{
    if a.len() == 0 {
    } else {
        let fr = a.drop_last();
        lemma_kept_membership(fr, b);
        let kf = kept(fr, b);
        assert(a[a.len() - 1] == a.last());
        assert(a.contains(a.last()));
        assert forall|x: u64| #[trigger] kept(a, b).contains(x) implies a.contains(x)
            && b.contains(x) by {
            let ka = kept(a, b);
            let i = choose|i: int| 0 <= i < ka.len() && ka[i] == x;
            if b.contains(a.last()) && i == ka.len() - 1 {
            } else {
                assert(kf[i] == x);
                assert(kf.contains(x));
                let j = choose|j: int| 0 <= j < fr.len() && fr[j] == x;
                assert(a[j] == x);
                assert(a.contains(x));
            }
        }
        assert forall|x: u64| a.contains(x) && b.contains(x) implies #[trigger] kept(
            a,
            b,
        ).contains(x) by {
            let i = choose|i: int| 0 <= i < a.len() && a[i] == x;
            if i == a.len() - 1 {
                assert(kept(a, b)[kept(a, b).len() - 1] == x);
            } else {
                assert(fr[i] == x);
                assert(fr.contains(x));
                assert(kf.contains(x));
                let j = choose|j: int| 0 <= j < kf.len() && kf[j] == x;
                if b.contains(a.last()) {
                    assert(kept(a, b)[j] == x);
                } else {
                    assert(kept(a, b) == kf);
                }
            }
        }
    }
}

/// The kept subsequence of a duplicate-free order is duplicate free.
pub proof fn lemma_kept_nodup(a: Seq<u64>, b: Seq<u64>)
    requires
        a.no_duplicates(),
    ensures
        kept(a, b).no_duplicates(),
    decreases a.len(),
{
    if a.len() > 0 {
        let fr = a.drop_last();
        assert(fr.no_duplicates());
        lemma_kept_nodup(fr, b);
        lemma_kept_membership(fr, b);
        let kf = kept(fr, b);
        if b.contains(a.last()) {
            if fr.contains(a.last()) {
                let i = choose|i: int| 0 <= i < fr.len() && fr[i] == a.last();
                assert(a[i] == a[a.len() - 1]);
            }
            assert(!kf.contains(a.last()));
            let t = kf.push(a.last());
            assert forall|i: int, j: int| 0 <= i < j < t.len() implies t[i] != t[j] by {
                if j == t.len() - 1 {
                    assert(kf[i] == t[i]);
                    assert(kf.contains(t[i]));
                } else {
                    assert(kf.no_duplicates());
                }
            }
        }
    }
}

} // verus!
