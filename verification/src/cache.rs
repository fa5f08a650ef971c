//! The object cache: a bounded, least-recently-used store of object handles,
//! a per-address checkout state with a discard flag, and a dirty-address
//! set, together with the cache-aware reference whose release decides an
//! object's fate. Every address is in at most one of the states Resident,
//! CheckedOut or Absent, the cache never holds more residents than its
//! capacity, and an invalidated value is never written back.

use vstd::prelude::*;

use crate::obj::Obj;
use crate::storable::Storable;
use crate::store::apply_writes;
use crate::store::lemma_apply_writes_disjoint;
use crate::store::lemma_apply_writes_push;
use crate::store::splice_bytes;
use crate::store::writes_disjoint;
use crate::store::writes_in_bounds;
use crate::store::LinearStore;
use crate::DiskAddress;
use crate::ObjWriteSizeError;
use crate::ShaleError;

verus! {

/// Whether the association list `s` holds an entry for key `a`.
pub open spec fn has_key<V>(s: Seq<(DiskAddress, V)>, a: DiskAddress) -> bool {
    exists|i: int| 0 <= i < s.len() && s[i].0 == a
}

/// The index of the entry for key `a` (meaningful under `has_key` and
/// `distinct_keys`).
pub open spec fn key_index<V>(s: Seq<(DiskAddress, V)>, a: DiskAddress) -> int {
    choose|i: int| 0 <= i < s.len() && s[i].0 == a
}

/// The value stored under key `a`.
pub open spec fn key_value<V>(s: Seq<(DiskAddress, V)>, a: DiskAddress) -> V {
    s[key_index(s, a)].1
}

/// No key occurs twice.
pub open spec fn distinct_keys<V>(s: Seq<(DiskAddress, V)>) -> bool {
    forall|i: int, j: int| 0 <= i < j < s.len() ==> s[i].0 != s[j].0
}

/// No address occurs twice.
pub open spec fn distinct_addrs(s: Seq<DiskAddress>) -> bool {
    forall|i: int, j: int| 0 <= i < j < s.len() ==> s[i] != s[j]
}

/// Under distinct keys, the entry at `i` is the one its key is looked up to.
proof fn lemma_key_at<V>(s: Seq<(DiskAddress, V)>, i: int)
    requires
        distinct_keys(s),
        0 <= i < s.len(),
    ensures
        has_key(s, s[i].0),
        key_index(s, s[i].0) == i,
        key_value(s, s[i].0) == s[i].1,
{
    assert(has_key(s, s[i].0));
    let j = key_index(s, s[i].0);
    assert(0 <= j < s.len() && s[j].0 == s[i].0);
    if i < j {
        assert(false);
    }
    if j < i {
        assert(false);
    }
}

/// What pushing a fresh key does to lookups.
proof fn lemma_push_key<V>(s: Seq<(DiskAddress, V)>, a: DiskAddress, v: V)
    requires
        distinct_keys(s),
        !has_key(s, a),
    ensures
        distinct_keys(s.push((a, v))),
        has_key(s.push((a, v)), a),
        key_value(s.push((a, v)), a) == v,
        forall|b: DiskAddress| b != a ==> has_key(s.push((a, v)), b) == has_key(s, b),
        forall|b: DiskAddress|
            b != a && has_key(s, b) ==> key_value(s.push((a, v)), b) == key_value(s, b),
{
    let t = s.push((a, v));
    assert(t[s.len() as int].0 == a);
    assert(distinct_keys(t)) by {
        assert forall|i: int, j: int| 0 <= i < j < t.len() implies t[i].0 != t[j].0 by {
            if j < s.len() {
            } else {
                assert(t[i] == s[i]);
                if t[i].0 == a {
                    assert(has_key(s, a));
                }
            }
        }
    }
    lemma_key_at(t, s.len() as int);
    assert forall|b: DiskAddress| b != a implies has_key(t, b) == has_key(s, b) by {
        if has_key(s, b) {
            let i = key_index(s, b);
            assert(t[i].0 == b);
        }
        if has_key(t, b) {
            let i = key_index(t, b);
            assert(0 <= i < t.len() && t[i].0 == b);
            assert(i < s.len());
            assert(s[i].0 == b);
        }
    }
    assert forall|b: DiskAddress| b != a && has_key(s, b) implies key_value(t, b) == key_value(
        s,
        b,
    ) by {
        let i = key_index(s, b);
        assert(0 <= i < s.len() && s[i].0 == b);
        assert(t[i] == s[i]);
        lemma_key_at(t, i);
    }
}

/// What removing the entry at `i` does to lookups.
proof fn lemma_remove_key<V>(s: Seq<(DiskAddress, V)>, i: int)
    requires
        distinct_keys(s),
        0 <= i < s.len(),
    ensures
        distinct_keys(s.remove(i)),
        !has_key(s.remove(i), s[i].0),
        forall|b: DiskAddress| b != s[i].0 ==> has_key(s.remove(i), b) == has_key(s, b),
        forall|b: DiskAddress|
            b != s[i].0 && has_key(s, b) ==> key_value(s.remove(i), b) == key_value(s, b),
{
    let t = s.remove(i);
    s.remove_ensures(i);
    assert(distinct_keys(t)) by {
        assert forall|p: int, q: int| 0 <= p < q < t.len() implies t[p].0 != t[q].0 by {
            let p0: int = if p < i {
                p
            } else {
                p + 1
            };
            let q0: int = if q < i {
                q
            } else {
                q + 1
            };
            assert(t[p] == s[p0] && t[q] == s[q0]);
        }
    }
    assert(!has_key(t, s[i].0)) by {
        if has_key(t, s[i].0) {
            let j = key_index(t, s[i].0);
            let j0: int = if j < i {
                j
            } else {
                j + 1
            };
            assert(t[j] == s[j0]);
            assert(s[j0].0 == s[i].0 && j0 != i);
            assert(false);
        }
    }
    assert forall|b: DiskAddress| b != s[i].0 implies has_key(t, b) == has_key(s, b) by {
        if has_key(s, b) {
            let j = key_index(s, b);
            assert(0 <= j < s.len() && s[j].0 == b);
            if j < i {
                assert(t[j].0 == b);
            } else {
                assert(t[j - 1].0 == b);
            }
        }
        if has_key(t, b) {
            let j = key_index(t, b);
            let j0: int = if j < i {
                j
            } else {
                j + 1
            };
            assert(t[j] == s[j0]);
            assert(s[j0].0 == b);
        }
    }
    assert forall|b: DiskAddress| b != s[i].0 && has_key(s, b) implies key_value(t, b)
        == key_value(s, b) by {
        let j = key_index(s, b);
        assert(0 <= j < s.len() && s[j].0 == b);
        if j < i {
            assert(t[j] == s[j]);
            lemma_key_at(t, j);
        } else {
            assert(t[j - 1] == s[j]);
            lemma_key_at(t, j - 1);
        }
    }
}

/// What replacing the value at `i` (keeping its key) does to lookups.
proof fn lemma_update_key<V>(s: Seq<(DiskAddress, V)>, i: int, v: V)
    requires
        distinct_keys(s),
        0 <= i < s.len(),
    ensures
        distinct_keys(s.update(i, (s[i].0, v))),
        forall|b: DiskAddress| has_key(s.update(i, (s[i].0, v)), b) == has_key(s, b),
        key_value(s.update(i, (s[i].0, v)), s[i].0) == v,
        forall|b: DiskAddress|
            b != s[i].0 && has_key(s, b) ==> key_value(s.update(i, (s[i].0, v)), b) == key_value(
                s,
                b,
            ),
{
    let t = s.update(i, (s[i].0, v));
    assert(forall|j: int| 0 <= j < s.len() ==> t[j].0 == s[j].0);
    assert forall|b: DiskAddress| has_key(t, b) == has_key(s, b) by {
        if has_key(s, b) {
            let j = key_index(s, b);
            assert(t[j].0 == b);
        }
        if has_key(t, b) {
            let j = key_index(t, b);
            assert(s[j].0 == b);
        }
    }
    assert(distinct_keys(t));
    lemma_key_at(t, i);
    assert forall|b: DiskAddress| b != s[i].0 && has_key(s, b) implies key_value(t, b)
        == key_value(s, b) by {
        let j = key_index(s, b);
        assert(0 <= j < s.len() && s[j].0 == b);
        assert(t[j] == s[j]);
        lemma_key_at(t, j);
    }
}

/// Finds the entry for `a` in an association list.
fn find_key<V>(v: &Vec<(DiskAddress, V)>, a: DiskAddress) -> (r: Option<usize>)
    ensures
        r matches Some(i) ==> 0 <= i < v@.len() && v@[i as int].0 == a,
        r is None ==> !has_key(v@, a),
{
    let mut i: usize = 0;
    while i < v.len()
        invariant
            i <= v@.len(),
            forall|j: int| 0 <= j < i ==> v@[j].0 != a,
        decreases v@.len() - i,
    {
        if v[i].0 == a {
            return Some(i);
        }
        i = i + 1;
    }
    None
}

/// Finds `a` in an address list.
fn find_addr(v: &Vec<DiskAddress>, a: DiskAddress) -> (r: Option<usize>)
    ensures
        r matches Some(i) ==> 0 <= i < v@.len() && v@[i as int] == a,
        r is None ==> !v@.contains(a),
{
    let mut i: usize = 0;
    while i < v.len()
        invariant
            i <= v@.len(),
            forall|j: int| 0 <= j < i ==> v@[j] != a,
        decreases v@.len() - i,
    {
        if v[i] == a {
            return Some(i);
        }
        i = i + 1;
    }
    None
}

/// Whether `a` occurs among the first `k` addresses of `d`.
pub open spec fn addr_in_prefix(d: Seq<DiskAddress>, k: int, a: DiskAddress) -> bool {
    exists|m: int| 0 <= m < k && d[m] == a
}

/// Two association lists with the same keys in the same places look the
/// same to key lookups.
proof fn lemma_same_keys<V>(s: Seq<(DiskAddress, V)>, t: Seq<(DiskAddress, V)>)
    requires
        distinct_keys(s),
        s.len() == t.len(),
        forall|j: int| 0 <= j < s.len() ==> (#[trigger] s[j]).0 == t[j].0,
    ensures
        distinct_keys(t),
        forall|b: DiskAddress| has_key(t, b) == has_key(s, b),
        forall|b: DiskAddress| has_key(s, b) ==> key_index(t, b) == key_index(s, b),
{
    assert(distinct_keys(t)) by {
        assert forall|p: int, q: int| 0 <= p < q < t.len() implies t[p].0 != t[q].0 by {
            assert(s[p].0 == t[p].0 && s[q].0 == t[q].0);
        }
    }
    assert forall|b: DiskAddress| has_key(t, b) == has_key(s, b) by {
        if has_key(s, b) {
            let i = key_index(s, b);
            assert(t[i].0 == b);
        }
        if has_key(t, b) {
            let i = key_index(t, b);
            assert(s[i].0 == b);
        }
    }
    assert forall|b: DiskAddress| has_key(s, b) implies key_index(t, b) == key_index(s, b) by {
        let i = key_index(s, b);
        assert(t[i].0 == b);
        let j = key_index(t, b);
        assert(0 <= j < t.len() && t[j].0 == b);
        assert(s[j].0 == b);
        if i < j {
            assert(false);
        }
        if j < i {
            assert(false);
        }
    }
}

/// What pushing a fresh address does to membership.
proof fn lemma_push_addr(s: Seq<DiskAddress>, a: DiskAddress)
    requires
        distinct_addrs(s),
        !s.contains(a),
    ensures
        distinct_addrs(s.push(a)),
        s.push(a).contains(a),
        forall|b: DiskAddress| b != a ==> s.push(a).contains(b) == s.contains(b),
{
    let t = s.push(a);
    assert(t[s.len() as int] == a);
    assert(distinct_addrs(t)) by {
        assert forall|i: int, j: int| 0 <= i < j < t.len() implies t[i] != t[j] by {
            if j < s.len() {
            } else {
                assert(t[i] == s[i]);
                if t[i] == a {
                    assert(s.contains(a));
                }
            }
        }
    }
    assert forall|b: DiskAddress| b != a implies t.contains(b) == s.contains(b) by {
        if s.contains(b) {
            let i = choose|i: int| 0 <= i < s.len() && s[i] == b;
            assert(t[i] == b);
        }
        if t.contains(b) {
            let i = choose|i: int| 0 <= i < t.len() && t[i] == b;
            assert(i < s.len());
            assert(s[i] == b);
        }
    }
}

/// What removing the address at `i` does to membership.
proof fn lemma_remove_addr(s: Seq<DiskAddress>, i: int)
    requires
        distinct_addrs(s),
        0 <= i < s.len(),
    ensures
        distinct_addrs(s.remove(i)),
        !s.remove(i).contains(s[i]),
        forall|b: DiskAddress| b != s[i] ==> s.remove(i).contains(b) == s.contains(b),
{
    let t = s.remove(i);
    s.remove_ensures(i);
    assert(distinct_addrs(t)) by {
        assert forall|p: int, q: int| 0 <= p < q < t.len() implies t[p] != t[q] by {
            let p0: int = if p < i {
                p
            } else {
                p + 1
            };
            let q0: int = if q < i {
                q
            } else {
                q + 1
            };
            assert(t[p] == s[p0] && t[q] == s[q0]);
        }
    }
    assert(!t.contains(s[i])) by {
        if t.contains(s[i]) {
            let j = choose|j: int| 0 <= j < t.len() && t[j] == s[i];
            let j0: int = if j < i {
                j
            } else {
                j + 1
            };
            assert(s[j0] == s[i] && j0 != i);
            assert(false);
        }
    }
    assert forall|b: DiskAddress| b != s[i] implies t.contains(b) == s.contains(b) by {
        if s.contains(b) {
            let j = choose|j: int| 0 <= j < s.len() && s[j] == b;
            if j < i {
                assert(t[j] == b);
            } else {
                assert(t[j - 1] == b);
            }
        }
        if t.contains(b) {
            let j = choose|j: int| 0 <= j < t.len() && t[j] == b;
            let j0: int = if j < i {
                j
            } else {
                j + 1
            };
            assert(s[j0] == b);
        }
    }
}

/// A bounded write-back cache of object handles.
///
/// `cached` holds the resident objects, least recently used first; `pinned`
/// holds one entry per checked-out address, carrying its discard flag;
/// `dirty` holds the addresses whose in-memory object differs from the
/// store.
pub struct ObjCache<T: Storable> {
    pub capacity: usize,
    pub cached: Vec<(DiskAddress, Obj<T>)>,
    pub pinned: Vec<(DiskAddress, bool)>,
    pub dirty: Vec<DiskAddress>,
}

impl<T: Storable> ObjCache<T> {
    /// Address `a` is resident: held in the cache and not checked out.
    pub open spec fn resident(&self, a: DiskAddress) -> bool {
        has_key(self.cached@, a)
    }

    /// The resident object at `a`.
    pub open spec fn resident_obj(&self, a: DiskAddress) -> Obj<T> {
        key_value(self.cached@, a)
    }

    /// Address `a` is checked out to exactly one holder.
    pub open spec fn checked_out(&self, a: DiskAddress) -> bool {
        has_key(self.pinned@, a)
    }

    /// The discard flag of a checked-out address: set when the address was
    /// invalidated while out, so the released value must not be written back.
    pub open spec fn discard_flag(&self, a: DiskAddress) -> bool {
        key_value(self.pinned@, a)
    }

    /// Address `a` is known dirty.
    pub open spec fn is_dirty(&self, a: DiskAddress) -> bool {
        self.dirty@.contains(a)
    }

    /// The cache's bookkeeping invariant: bounded residency, no address in
    /// two states at once, dirtiness only of addresses the cache knows, and
    /// every resident handle well formed and filed under its own address;
    /// a resident address marked dirty has the mutation recorded in its
    /// handle, so a flush writes it.
    pub open spec fn wf(&self) -> bool {
        &&& self.capacity >= 1
        &&& self.cached@.len() <= self.capacity
        &&& distinct_keys(self.cached@)
        &&& distinct_keys(self.pinned@)
        &&& distinct_addrs(self.dirty@)
        &&& forall|i: int|
            0 <= i < self.cached@.len() ==> !has_key(self.pinned@, #[trigger] self.cached@[i].0)
        &&& forall|i: int|
            0 <= i < self.dirty@.len() ==> has_key(self.cached@, #[trigger] self.dirty@[i])
                || has_key(self.pinned@, self.dirty@[i])
        &&& forall|i: int| 0 <= i < self.cached@.len() ==> (#[trigger] self.cached@[i].1).wf()
        &&& forall|i: int|
            0 <= i < self.cached@.len() ==> (#[trigger] self.cached@[i].1).spec_addr()
                == self.cached@[i].0
        &&& forall|i: int|
            0 <= i < self.cached@.len() && self.dirty@.contains(self.cached@[i].0) ==> (
            #[trigger] self.cached@[i].1).dirty is Some
    }

    /// An empty cache bounded by `capacity`.
    pub fn new(capacity: usize) -> (r: Self)
        requires
            capacity >= 1,
        ensures
            r.wf(),
            r.capacity == capacity,
            forall|a: DiskAddress| !r.resident(a) && !r.checked_out(a) && !r.is_dirty(a),
            r.cached@.len() == 0,
            r.pinned@.len() == 0,
            r.dirty@.len() == 0,
    {
        ObjCache { capacity, cached: Vec::new(), pinned: Vec::new(), dirty: Vec::new() }
    }

    /// Checkout: hands the resident object at `ptr` out, moving the address
    /// from Resident to CheckedOut with the discard flag down, or reports a
    /// miss — not an error — when `ptr` is not resident; the caller then
    /// constructs the object from the store and enters it with `put`.
    pub fn get(&mut self, ptr: DiskAddress) -> (r: Option<Obj<T>>)
        requires
            old(self).wf(),
        ensures
            final(self).wf(),
            final(self).capacity == old(self).capacity,
            !old(self).resident(ptr) ==> r is None && *final(self) == *old(self),
            old(self).resident(ptr) ==> {
                &&& r == Some(old(self).resident_obj(ptr))
                &&& final(self).pinned@.len() == old(self).pinned@.len() + 1
                &&& final(self).cached@.len() == old(self).cached@.len() - 1
                &&& !final(self).resident(ptr)
                &&& final(self).checked_out(ptr)
                &&& !final(self).discard_flag(ptr)
                &&& forall|a: DiskAddress|
                    a != ptr ==> final(self).resident(a) == old(self).resident(a)
                &&& forall|a: DiskAddress|
                    a != ptr && old(self).resident(a) ==> final(self).resident_obj(a) == old(
                        self,
                    ).resident_obj(a)
                &&& forall|a: DiskAddress|
                    a != ptr ==> final(self).checked_out(a) == old(self).checked_out(a)
                &&& forall|a: DiskAddress|
                    a != ptr && old(self).checked_out(a) ==> final(self).discard_flag(a) == old(
                        self,
                    ).discard_flag(a)
                &&& final(self).dirty@ == old(self).dirty@
            },
    {
        match find_key(&self.cached, ptr) {
            None => None,
            Some(i) => {
                proof {
                    lemma_key_at(self.cached@, i as int);
                    lemma_remove_key(self.cached@, i as int);
                    lemma_push_key(self.pinned@, ptr, false);
                }
                let (_, obj) = self.cached.remove(i);
                self.pinned.push((ptr, false));
                Some(obj)
            },
        }
    }

    /// Enters a freshly constructed handle as checked out: the transition
    /// from Absent to CheckedOut with the discard flag down. The handle is
    /// returned to the caller, who holds the only reference to its address.
    pub fn put(&mut self, inner: Obj<T>) -> (r: Obj<T>)
        requires
            old(self).wf(),
            inner.wf(),
            !old(self).checked_out(inner.spec_addr()),
            !old(self).resident(inner.spec_addr()),
        ensures
            final(self).wf(),
            final(self).capacity == old(self).capacity,
            r == inner,
            final(self).pinned@.len() == old(self).pinned@.len() + 1,
            final(self).checked_out(inner.spec_addr()),
            !final(self).discard_flag(inner.spec_addr()),
            forall|a: DiskAddress|
                a != inner.spec_addr() ==> final(self).checked_out(a) == old(self).checked_out(a),
            forall|a: DiskAddress|
                a != inner.spec_addr() && old(self).checked_out(a) ==> final(self).discard_flag(a)
                    == old(self).discard_flag(a),
            forall|a: DiskAddress| final(self).resident(a) == old(self).resident(a),
            forall|a: DiskAddress|
                old(self).resident(a) ==> final(self).resident_obj(a) == old(self).resident_obj(a),
            final(self).dirty@ == old(self).dirty@,
            final(self).cached@ == old(self).cached@,
    {
        let ptr = inner.as_addr();
        proof {
            lemma_push_key(self.pinned@, ptr, false);
        }
        self.pinned.push((ptr, false));
        inner
    }

    /// Invalidation: removes `ptr` from the cache's books. A resident handle
    /// is dropped on the spot without any write — invalidated data must never
    /// be flushed; a checked-out address has its discard flag raised, so the
    /// eventual release will drop the stale value too. Either way the address
    /// leaves the dirty set. The store is not touched: this function takes no
    /// store and can write nothing.
    pub fn pop(&mut self, ptr: DiskAddress)
        requires
            old(self).wf(),
        ensures
            final(self).wf(),
            final(self).capacity == old(self).capacity,
            !final(self).resident(ptr),
            final(self).pinned@.len() == old(self).pinned@.len(),
            !final(self).is_dirty(ptr),
            final(self).checked_out(ptr) == old(self).checked_out(ptr),
            old(self).checked_out(ptr) ==> final(self).discard_flag(ptr),
            forall|a: DiskAddress| a != ptr ==> final(self).resident(a) == old(self).resident(a),
            forall|a: DiskAddress|
                a != ptr && old(self).resident(a) ==> final(self).resident_obj(a) == old(
                    self,
                ).resident_obj(a),
            forall|a: DiskAddress|
                a != ptr ==> final(self).checked_out(a) == old(self).checked_out(a),
            forall|a: DiskAddress|
                a != ptr && old(self).checked_out(a) ==> final(self).discard_flag(a) == old(
                    self,
                ).discard_flag(a),
            forall|a: DiskAddress| a != ptr ==> final(self).is_dirty(a) == old(self).is_dirty(a),
    {
        match find_key(&self.pinned, ptr) {
            Some(i) => {
                proof {
                    lemma_key_at(self.pinned@, i as int);
                    lemma_update_key(self.pinned@, i as int, true);
                }
                self.pinned.set(i, (ptr, true));
            },
            None => {},
        }
        match find_key(&self.cached, ptr) {
            Some(i) => {
                proof {
                    lemma_key_at(self.cached@, i as int);
                    lemma_remove_key(self.cached@, i as int);
                }
                let _ = self.cached.remove(i);
            },
            None => {},
        }
        match find_addr(&self.dirty, ptr) {
            Some(i) => {
                let ghost pre = self.dirty@;
                let _ = self.dirty.remove(i);
                proof {
                    pre.remove_ensures(i as int);
                    assert(!self.dirty@.contains(ptr)) by {
                        if self.dirty@.contains(ptr) {
                            let j = choose|j: int|
                                0 <= j < self.dirty@.len() && self.dirty@[j] == ptr;
                            let j0: int = if j < i {
                                j
                            } else {
                                j + 1
                            };
                            assert(old(self).dirty@[j0] == ptr && j0 != i);
                            assert(false);
                        }
                    }
                    assert forall|a: DiskAddress| a != ptr implies self.dirty@.contains(a) == old(
                        self,
                    ).dirty@.contains(a) by {
                        if old(self).dirty@.contains(a) {
                            let j = choose|j: int|
                                0 <= j < old(self).dirty@.len() && old(self).dirty@[j] == a;
                            if j < i {
                                assert(self.dirty@[j] == a);
                            } else {
                                assert(self.dirty@[j - 1] == a);
                            }
                        }
                        if self.dirty@.contains(a) {
                            let j = choose|j: int|
                                0 <= j < self.dirty@.len() && self.dirty@[j] == a;
                            let j0: int = if j < i {
                                j
                            } else {
                                j + 1
                            };
                            assert(old(self).dirty@[j0] == a);
                        }
                    }
                }
            },
            None => {},
        }
    }

    /// The writes a barrier flush will perform, in order: for each dirty
    /// address, the resident object's serialized bytes at its offset.
    /// Meaningful when nothing is checked out, so every dirty address is
    /// resident.
    pub open spec fn pending_writes(&self) -> Seq<(int, Seq<u8>)> {
        self.dirty@.map_values(
            |a: DiskAddress|
                (
                    key_value(self.cached@, a).value.offset as int,
                    key_value(self.cached@, a).value.item.serial(),
                ),
        )
    }

    /// Whether a barrier flush can land every pending write on a store of
    /// the given writability and length.
    pub open spec fn flushable(&self, writeable: bool, store_len: int) -> bool {
        &&& (self.dirty@.len() > 0 ==> writeable)
        &&& writes_in_bounds(self.pending_writes(), store_len)
    }

    /// The barrier: reports "busy" — not an error — while anything is
    /// checked out, since a checked-out object's bytes may be about to
    /// change again. Otherwise flushes every dirty (hence resident) address
    /// in order and clears the dirty set; the store afterwards carries
    /// exactly those writes. When a write would be rejected, the barrier
    /// reports the immutability or I/O kind and performs nothing at all:
    /// it never partially applies.
    pub fn flush_dirty<S: LinearStore>(&mut self, store: &mut S) -> (r: Result<
        Option<()>,
        ShaleError,
    >)
        requires
            old(self).wf(),
        ensures
            final(self).wf(),
            final(self).capacity == old(self).capacity,
            final(self).pinned@ == old(self).pinned@,
            final(store).writeable() == old(store).writeable(),
            final(store).id_spec() == old(store).id_spec(),
            old(self).pinned@.len() > 0 ==> r == Result::<Option<()>, ShaleError>::Ok(None)
                && *final(self) == *old(self) && final(store).bytes() == old(store).bytes(),
            old(self).pinned@.len() == 0 && old(self).flushable(
                old(store).writeable(),
                old(store).bytes().len() as int,
            ) ==> {
                &&& r == Result::<Option<()>, ShaleError>::Ok(Some(()))
                &&& final(self).dirty@.len() == 0
                &&& final(store).bytes() == apply_writes(
                    old(store).bytes(),
                    old(self).pending_writes(),
                )
                &&& forall|a: DiskAddress| final(self).resident(a) == old(self).resident(a)
                &&& forall|a: DiskAddress|
                    old(self).resident(a) ==> final(self).resident_obj(a).value == old(
                        self,
                    ).resident_obj(a).value
                &&& forall|a: DiskAddress|
                    old(self).resident(a) && old(self).is_dirty(a) ==> final(self).resident_obj(
                        a,
                    ).dirty is None
                &&& forall|a: DiskAddress|
                    old(self).resident(a) && !old(self).is_dirty(a) ==> final(self).resident_obj(
                        a,
                    ).dirty == old(self).resident_obj(a).dirty
            },
            old(self).pinned@.len() == 0 && !old(self).flushable(
                old(store).writeable(),
                old(store).bytes().len() as int,
            ) ==> {
                &&& r is Err
                &&& *final(self) == *old(self)
                &&& final(store).bytes() == old(store).bytes()
                &&& (!old(store).writeable() ==> r == Result::<Option<()>, ShaleError>::Err(
                    ShaleError::ImmutableWrite,
                ))
                &&& (old(store).writeable() ==> r == Result::<Option<()>, ShaleError>::Err(
                    ShaleError::Io,
                ))
            },
    {
        if self.pinned.len() > 0 {
            return Ok(None);
        }
        let n = store.size();
        if self.dirty.len() > 0 && !store.is_writeable() {
            return Err(ShaleError::ImmutableWrite);
        }
        let ghost pend = self.pending_writes();
        let mut k: usize = 0;
        while k < self.dirty.len()
            invariant
                old(self).wf(),
                *self == *old(self),
                *store == *old(store),
                n as int == store.bytes().len(),
                self.pinned@.len() == 0,
                self.dirty@.len() > 0 ==> store.writeable(),
                pend == self.pending_writes(),
                k <= self.dirty@.len(),
                forall|j: int|
                    0 <= j < k ==> (#[trigger] pend[j]).0 + pend[j].1.len() <= n as int,
            decreases self.dirty@.len() - k,
        {
            let a = self.dirty[k];
            proof {
                assert(self.dirty@.contains(a));
                assert(has_key(self.cached@, a) || has_key(self.pinned@, a));
            }
            let i = match find_key(&self.cached, a) {
                Some(i) => i,
                None => {
                    proof {
                        assert(false);
                    }
                    0
                },
            };
            proof {
                lemma_key_at(self.cached@, i as int);
                assert((self.cached@[i as int].1).wf());
            }
            let off = self.cached[i].1.value.get_offset();
            let slen = self.cached[i].1.value.item.serialized_len();
            if off > n || slen > (n - off) as u64 {
                proof {
                    assert(pend[k as int].0 + pend[k as int].1.len() > n as int);
                }
                return Err(ShaleError::Io);
            }
            k = k + 1;
        }
        proof {
            assert(writes_in_bounds(pend, store.bytes().len() as int)) by {
                assert forall|j: int| 0 <= j < pend.len() implies 0 <= (#[trigger] pend[j]).0 && pend[
                    j
                ].0 + pend[j].1.len() <= store.bytes().len() as int by {
                    assert(pend[j].0 == key_value(self.cached@, self.dirty@[j]).value.offset as int);
                }
            }
        }
        let ghost bytes0 = store.bytes();
        let ghost pre = *self;
        proof {
            assert(pend.subrange(0, 0) =~= Seq::<(int, Seq<u8>)>::empty());
            assert(apply_writes(bytes0, pend.subrange(0, 0)) == bytes0);
        }
        let mut k: usize = 0;
        while k < self.dirty.len()
            invariant
                pre.wf(),
                pend == pre.pending_writes(),
                writes_in_bounds(pend, bytes0.len() as int),
                k <= self.dirty@.len(),
                self.dirty@ == pre.dirty@,
                self.pinned@ == pre.pinned@,
                self.capacity == pre.capacity,
                self.pinned@.len() == 0,
                self.cached@.len() == pre.cached@.len(),
                forall|j: int|
                    0 <= j < self.cached@.len() ==> (#[trigger] self.cached@[j]).0
                        == pre.cached@[j].0,
                forall|j: int|
                    0 <= j < self.cached@.len() ==> (#[trigger] self.cached@[j]).1.value
                        == pre.cached@[j].1.value,
                forall|j: int|
                    0 <= j < self.cached@.len() && addr_in_prefix(
                        self.dirty@,
                        k as int,
                        (#[trigger] self.cached@[j]).0,
                    ) ==> self.cached@[j].1.dirty is None,
                forall|j: int|
                    0 <= j < self.cached@.len() && !addr_in_prefix(
                        self.dirty@,
                        k as int,
                        (#[trigger] self.cached@[j]).0,
                    ) ==> self.cached@[j].1.dirty == pre.cached@[j].1.dirty,
                store.bytes() == apply_writes(bytes0, pend.subrange(0, k as int)),
                store.bytes().len() == bytes0.len(),
                self.dirty@.len() > 0 ==> store.writeable(),
                store.writeable() == old(store).writeable(),
                store.id_spec() == old(store).id_spec(),
            decreases self.dirty@.len() - k,
        {
            let a = self.dirty[k];
            proof {
                assert(pre.dirty@.contains(a));
                assert(has_key(pre.cached@, a) || has_key(pre.pinned@, a));
                lemma_same_keys(pre.cached@, self.cached@);
            }
            let i = match find_key(&self.cached, a) {
                Some(i) => i,
                None => {
                    proof {
                        assert(false);
                    }
                    0
                },
            };
            proof {
                lemma_key_at(self.cached@, i as int);
                lemma_key_at(pre.cached@, i as int);
                assert(pend[k as int].0 + pend[k as int].1.len() <= bytes0.len() as int);
                assert(!addr_in_prefix(self.dirty@, k as int, a)) by {
                    if addr_in_prefix(self.dirty@, k as int, a) {
                        let m = choose|m: int| 0 <= m < k && self.dirty@[m] == a;
                        assert(false);
                    }
                }
            }
            let ghost cpre = self.cached@;
            let (aa, mut obj) = self.cached.remove(i);
            let res = obj.flush_dirty(store);
            proof {
                assert(res is Ok);
                lemma_apply_writes_push(bytes0, pend.subrange(0, k as int), pend[k as int]);
                assert(pend.subrange(0, k as int).push(pend[k as int]) =~= pend.subrange(
                    0,
                    k as int + 1,
                ));
            }
            self.cached.insert(i, (aa, obj));
            proof {
                assert(self.cached@ =~= cpre.update(i as int, (aa, obj)));
                assert forall|j: int|
                    0 <= j < self.cached@.len() && addr_in_prefix(
                        self.dirty@,
                        k as int + 1,
                        (#[trigger] self.cached@[j]).0,
                    ) implies self.cached@[j].1.dirty is None by {
                    let m = choose|m: int| 0 <= m < k + 1 && self.dirty@[m] == self.cached@[j].0;
                    if m < k {
                        assert(addr_in_prefix(self.dirty@, k as int, self.cached@[j].0));
                        if j == i {
                        } else {
                            assert(self.cached@[j] == cpre[j]);
                        }
                    } else {
                        assert(self.cached@[j].0 == a);
                        if j != i {
                            assert(cpre[j].0 == a && cpre[i as int].0 == a);
                            assert(distinct_keys(cpre)) by {
                                lemma_same_keys(pre.cached@, cpre);
                            }
                            assert(false);
                        }
                    }
                }
                assert forall|j: int|
                    0 <= j < self.cached@.len() && !addr_in_prefix(
                        self.dirty@,
                        k as int + 1,
                        (#[trigger] self.cached@[j]).0,
                    ) implies self.cached@[j].1.dirty == pre.cached@[j].1.dirty by {
                    assert(j != i);
                    assert(self.cached@[j] == cpre[j]);
                    assert(!addr_in_prefix(self.dirty@, k as int, self.cached@[j].0)) by {
                        if addr_in_prefix(self.dirty@, k as int, self.cached@[j].0) {
                            let m = choose|m: int|
                                0 <= m < k && self.dirty@[m] == self.cached@[j].0;
                            assert(addr_in_prefix(self.dirty@, k as int + 1, self.cached@[j].0));
                        }
                    }
                }
            }
            k = k + 1;
        }
        proof {
            assert(pend.subrange(0, pre.dirty@.len() as int) =~= pend);
        }
        self.dirty.clear();
        proof {
            lemma_same_keys(pre.cached@, self.cached@);
            assert forall|a: DiskAddress| pre.resident(a) implies self.resident_obj(a).value
                == pre.resident_obj(a).value by {
                let i = key_index(pre.cached@, a);
                assert(0 <= i < pre.cached@.len() && pre.cached@[i].0 == a);
            }
            assert forall|a: DiskAddress| pre.resident(a) && pre.dirty@.contains(a) implies self
                .resident_obj(a).dirty is None by {
                let i = key_index(pre.cached@, a);
                assert(0 <= i < pre.cached@.len() && pre.cached@[i].0 == a);
                assert(self.cached@[i].0 == a);
                let m = choose|m: int| 0 <= m < pre.dirty@.len() && pre.dirty@[m] == a;
                assert(addr_in_prefix(pre.dirty@, pre.dirty@.len() as int, a));
            }
            assert forall|a: DiskAddress| pre.resident(a) && !pre.dirty@.contains(a) implies self
                .resident_obj(a).dirty == pre.resident_obj(a).dirty by {
                let i = key_index(pre.cached@, a);
                assert(0 <= i < pre.cached@.len() && pre.cached@[i].0 == a);
                assert(self.cached@[i].0 == a);
                assert(!addr_in_prefix(pre.dirty@, pre.dirty@.len() as int, a)) by {
                    if addr_in_prefix(pre.dirty@, pre.dirty@.len() as int, a) {
                        let m = choose|m: int|
                            0 <= m < pre.dirty@.len() && pre.dirty@[m] == a;
                        assert(pre.dirty@.contains(a));
                    }
                }
            }
            assert(self.wf()) by {
                assert forall|i: int| 0 <= i < self.cached@.len() implies (
                #[trigger] self.cached@[i].1).wf() by {
                    assert(pre.cached@[i].1.wf());
                    assert(self.cached@[i].1.value == pre.cached@[i].1.value);
                }
                assert forall|i: int| 0 <= i < self.cached@.len() implies (
                #[trigger] self.cached@[i].1).spec_addr() == self.cached@[i].0 by {
                    assert(pre.cached@[i].1.spec_addr() == pre.cached@[i].0);
                }
            }
        }
        Ok(Some(()))
    }
}

/// The caller-facing handle to a checked-out object. It is created around a
/// handle obtained from `get` or entered by `put`, so its address is checked
/// out for as long as it lives; writing through it marks the address dirty
/// in the cache, and `release` runs the protocol that decides the handle's
/// fate.
#[derive(Debug)]
pub struct ObjRef<T: Storable> {
    pub inner: Obj<T>,
}

impl<T: Storable> ObjRef<T> {
    /// The address this reference holds checked out.
    pub open spec fn spec_addr(&self) -> DiskAddress {
        self.inner.spec_addr()
    }

    /// Wraps a checked-out handle.
    pub fn new(inner: Obj<T>) -> (r: Self)
        ensures
            r.inner == inner,
    {
        ObjRef { inner }
    }

    /// The address this reference holds checked out.
    pub fn as_addr(&self) -> (r: DiskAddress)
        ensures
            r == self.spec_addr(),
    {
        self.inner.as_addr()
    }

    /// Moves the handle out without releasing the checkout; the caller takes
    /// over the release duty this reference had.
    pub fn into_inner(self) -> (r: Obj<T>)
        ensures
            r == self.inner,
    {
        let ObjRef { inner } = self;
        inner
    }

    /// Writes through the reference: replaces the item, marks the handle
    /// dirty and records the address in the cache's dirty set. An oversized
    /// replacement still lands in memory but is reported, left unmarked, and
    /// taken off the dirty set, so it cannot reach disk silently.
    pub fn write(&mut self, cache: &mut ObjCache<T>, new_item: T) -> (r: Result<
        (),
        ObjWriteSizeError,
    >)
        requires
            old(self).inner.wf(),
            new_item.valid(),
            old(cache).wf(),
            old(cache).checked_out(old(self).spec_addr()),
        ensures
            final(cache).wf(),
            final(cache).capacity == old(cache).capacity,
            final(cache).cached@ == old(cache).cached@,
            final(cache).pinned@ == old(cache).pinned@,
            final(self).inner.wf(),
            final(self).inner.value.item == new_item,
            final(self).inner.value.offset == old(self).inner.value.offset,
            final(self).inner.value.len_limit == old(self).inner.value.len_limit,
            forall|a: DiskAddress|
                a != old(self).spec_addr() ==> final(cache).is_dirty(a) == old(cache).is_dirty(a),
            new_item.serial().len() <= old(self).inner.value.len_limit ==> (r is Ok && final(self).inner.dirty == Some(new_item.serial().len() as u64) && final(cache).is_dirty(
                old(self).spec_addr(),
            )),
            new_item.serial().len() > old(self).inner.value.len_limit ==> (r == Result::<
                (),
                ObjWriteSizeError,
            >::Err(ObjWriteSizeError) && final(self).inner.dirty is None && !final(cache).is_dirty(
                old(self).spec_addr(),
            )),
    {
        let addr = self.inner.as_addr();
        match self.inner.modify(new_item) {
            Ok(()) => {
                match find_addr(&cache.dirty, addr) {
                    Some(_) => {},
                    None => {
                        proof {
                            lemma_push_addr(cache.dirty@, addr);
                        }
                        cache.dirty.push(addr);
                    },
                }
                Ok(())
            },
            Err(e) => {
                match find_addr(&cache.dirty, addr) {
                    Some(i) => {
                        let ghost pre = cache.dirty@;
                        let _ = cache.dirty.remove(i);
                        proof {
                            lemma_remove_addr(pre, i as int);
                        }
                    },
                    None => {},
                }
                Err(e)
            },
        }
    }

    /// Release: the checkout ends and the cache decides the handle's fate.
    /// When the address was invalidated while out (discard flag up), the
    /// stale value is dropped without writing a byte and without returning
    /// to the cache, and the address leaves the dirty set. Otherwise the
    /// handle returns to the cache as the most recently used resident; when
    /// the cache is already full, the least recently used resident is evicted
    /// first and flushed as any handle is on destruction — its address leaves
    /// the dirty set, and a rejected eviction write is reported with nothing
    /// written.
    pub fn release<S: LinearStore>(self, cache: &mut ObjCache<T>, store: &mut S) -> (r: Result<
        (),
        ShaleError,
    >)
        requires
            old(cache).wf(),
            self.inner.wf(),
            old(cache).checked_out(self.spec_addr()),
            old(cache).is_dirty(self.spec_addr()) ==> self.inner.dirty is Some,
        ensures
            final(cache).wf(),
            final(cache).capacity == old(cache).capacity,
            final(store).writeable() == old(store).writeable(),
            final(store).id_spec() == old(store).id_spec(),
            !final(cache).checked_out(self.spec_addr()),
            final(cache).pinned@.len() == old(cache).pinned@.len() - 1,
            forall|a: DiskAddress|
                a != self.spec_addr() ==> final(cache).checked_out(a) == old(cache).checked_out(a),
            forall|a: DiskAddress|
                a != self.spec_addr() && old(cache).checked_out(a) ==> final(cache).discard_flag(a)
                    == old(cache).discard_flag(a),
            old(cache).discard_flag(self.spec_addr()) ==> {
                &&& r is Ok
                &&& final(store).bytes() == old(store).bytes()
                &&& final(cache).cached@ == old(cache).cached@
                &&& !final(cache).is_dirty(self.spec_addr())
                &&& forall|a: DiskAddress|
                    a != self.spec_addr() ==> final(cache).is_dirty(a) == old(cache).is_dirty(a)
            },
            !old(cache).discard_flag(self.spec_addr()) && old(cache).cached@.len() < old(cache).capacity ==> {
                &&& r is Ok
                &&& final(store).bytes() == old(store).bytes()
                &&& final(cache).cached@ == old(cache).cached@.push((self.spec_addr(), self.inner))
                &&& final(cache).resident(self.spec_addr())
                &&& final(cache).resident_obj(self.spec_addr()) == self.inner
                &&& forall|a: DiskAddress|
                    a != self.spec_addr() ==> final(cache).resident(a) == old(cache).resident(a)
                &&& forall|a: DiskAddress|
                    a != self.spec_addr() && old(cache).resident(a) ==> final(cache).resident_obj(a)
                        == old(cache).resident_obj(a)
                &&& final(cache).dirty@ == old(cache).dirty@
            },
            !old(cache).discard_flag(self.spec_addr()) && old(cache).cached@.len() == old(cache).capacity ==> {
                let evicted = old(cache).cached@[0];
                &&& final(cache).cached@ == old(cache).cached@.remove(0).push(
                    (self.spec_addr(), self.inner),
                )
                &&& final(cache).resident(self.spec_addr())
                &&& final(cache).resident_obj(self.spec_addr()) == self.inner
                &&& !final(cache).is_dirty(evicted.0)
                &&& forall|a: DiskAddress|
                    a != evicted.0 ==> final(cache).is_dirty(a) == old(cache).is_dirty(a)
                &&& forall|a: DiskAddress|
                    a != self.spec_addr() && a != evicted.0 ==> final(cache).resident(a) == old(cache).resident(a)
                &&& forall|a: DiskAddress|
                    a != self.spec_addr() && a != evicted.0 && old(cache).resident(a) ==> final(cache).resident_obj(a) == old(cache).resident_obj(a)
                &&& (evicted.1.dirty is None ==> r is Ok && final(store).bytes() == old(store).bytes())
                &&& (evicted.1.dirty is Some && old(store).writeable() && evicted.1.value.offset
                    + evicted.1.value.item.serial().len() <= old(store).bytes().len() ==> r is Ok
                    && final(store).bytes() == splice_bytes(
                    old(store).bytes(),
                    evicted.1.value.offset as int,
                    evicted.1.value.item.serial(),
                ))
                &&& (evicted.1.dirty is Some && !(old(store).writeable() && evicted.1.value.offset
                    + evicted.1.value.item.serial().len() <= old(store).bytes().len()) ==> r is Err
                    && final(store).bytes() == old(store).bytes())
            },
    {
        let ObjRef { mut inner } = self;
        let addr = inner.as_addr();
        let i = match find_key(&cache.pinned, addr) {
            Some(i) => i,
            None => {
                proof {
                    assert(false);
                }
                0
            },
        };
        let flag = cache.pinned[i].1;
        proof {
            lemma_key_at(cache.pinned@, i as int);
            lemma_remove_key(cache.pinned@, i as int);
        }
        let _ = cache.pinned.remove(i);
        if flag {
            match find_addr(&cache.dirty, addr) {
                Some(k) => {
                    let ghost pre = cache.dirty@;
                    let _ = cache.dirty.remove(k);
                    proof {
                        lemma_remove_addr(pre, k as int);
                    }
                },
                None => {},
            }
            Ok(())
        } else {
            let mut result: Result<(), ShaleError> = Ok(());
            if cache.cached.len() == cache.capacity {
                proof {
                    lemma_key_at(cache.cached@, 0);
                    lemma_remove_key(cache.cached@, 0);
                }
                let (eaddr, mut evicted) = cache.cached.remove(0);
                match find_addr(&cache.dirty, eaddr) {
                    Some(k) => {
                        let ghost pre = cache.dirty@;
                        let _ = cache.dirty.remove(k);
                        proof {
                            lemma_remove_addr(pre, k as int);
                        }
                    },
                    None => {},
                }
                result = evicted.flush_dirty(store);
            }
            proof {
                lemma_push_key(cache.cached@, addr, inner);
            }
            cache.cached.push((addr, inner));
            result
        }
    }
}

/// At-most-one-checkout: in a well-formed cache — and every cache this
/// module's functions return or leave behind is one — the checkout table
/// holds at most one entry per address, and a checked-out address is never
/// simultaneously resident, so no two live references can hold the same
/// address checked out and `get` can only miss on it.
pub proof fn lemma_at_most_one_checkout<T: Storable>(
    c: ObjCache<T>,
    a: DiskAddress,
    i: int,
    j: int,
)
    requires
        c.wf(),
        0 <= i < c.pinned@.len(),
        0 <= j < c.pinned@.len(),
        c.pinned@[i].0 == a,
        c.pinned@[j].0 == a,
    ensures
        i == j,
        !c.resident(a),
{
    if i < j {
        assert(false);
    }
    if j < i {
        assert(false);
    }
    if c.resident(a) {
        let m = key_index(c.cached@, a);
        assert(0 <= m < c.cached@.len() && c.cached@[m].0 == a);
        assert(!has_key(c.pinned@, c.cached@[m].0));
        assert(false);
    }
}

/// Capacity bound: a well-formed cache — and every cache this module's
/// functions return or leave behind is one — never holds more resident
/// (non-checked-out) entries than its configured capacity.
pub proof fn lemma_capacity_bound<T: Storable>(c: ObjCache<T>)
    requires
        c.wf(),
    ensures
        c.cached@.len() <= c.capacity,
{
}

/// Barrier correctness, byte level: a successful barrier flush leaves the
/// store at `apply_writes` of the pending writes, and when the dirty records
/// occupy pairwise disjoint ranges — records do not overlap on disk — the
/// bytes at each previously dirty address equal that record's in-memory
/// serialization.
pub proof fn lemma_barrier_writes_back<T: Storable>(c: ObjCache<T>, bytes0: Seq<u8>, k: int)
    requires
        c.wf(),
        c.pinned@.len() == 0,
        writes_in_bounds(c.pending_writes(), bytes0.len() as int),
        writes_disjoint(c.pending_writes()),
        0 <= k < c.dirty@.len(),
    ensures
        apply_writes(bytes0, c.pending_writes()).len() == bytes0.len(),
        apply_writes(bytes0, c.pending_writes()).subrange(
            c.resident_obj(c.dirty@[k]).value.offset as int,
            c.resident_obj(c.dirty@[k]).value.offset + c.resident_obj(
                c.dirty@[k],
            ).value.item.serial().len(),
        ) == c.resident_obj(c.dirty@[k]).value.item.serial(),
{
    lemma_apply_writes_disjoint(bytes0, c.pending_writes(), k);
}

} // verus!
