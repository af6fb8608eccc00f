//! The arena itself: a vector of optional slots plus a free list of
//! reclaimed keys, reused in last-removed-first order.
use crate::model::ArenaModel;
use vstd::prelude::*;
use vstd::std_specs::cmp::PartialEqSpec;

verus! {

/// A key handed out by a [`StableVec`]: the index of the slot that holds the
/// value. Keys stay valid (and keep naming the same value) across later
/// insertions and removals, until their own entry is removed.
pub type Key = usize;

/// A container with stable keys: removing elements does not affect the keys
/// already handed out. Vacated slots are kept and their keys reused,
/// most recently vacated first.
#[derive(Clone)]
pub struct StableVec<T> {
    slots: Vec<Option<T>>,
    free_list: Vec<Key>,
}

impl<T> View for StableVec<T> {
    type V = ArenaModel<T>;

    closed spec fn view(&self) -> ArenaModel<T> {
        ArenaModel { slots: self.slots@, free: self.free_list@ }
    }
}

/// Index of the first occurrence of `k` in `free`, if any.
fn find_key(free: &Vec<Key>, k: Key) -> (r: Option<usize>)
    ensures
        r is Some ==> 0 <= r.unwrap() < free@.len() && free@[r.unwrap() as int] == k && (forall|
            j: int,
        |
            0 <= j < r.unwrap() ==> free@[j] != k),
        r is None ==> !free@.contains(k),
{
    let mut i: usize = 0;
    while i < free.len()
        invariant
            i <= free@.len(),
            forall|j: int| 0 <= j < i ==> free@[j] != k,
        decreases free@.len() - i,
    {
        if free[i] == k {
            return Some(i);
        }
        i += 1;
    }
    None
}

impl<T> StableVec<T> {
    /// Creates an empty arena: no slots, no free keys.
    pub fn new() -> (v: Self)
        ensures
            v@ == ArenaModel::<T>::empty(),
            v@.wf(),
    {
        let v = Self { slots: Vec::new(), free_list: Vec::new() };
        proof {
            assert(v@ =~= ArenaModel::<T>::empty());
        }
        v
    }

    /// Inserts a value and returns its key. The most recently vacated slot is
    /// reused if one exists; otherwise a new slot is appended, so the key is
    /// the previous size. Either way the returned key did not name an
    /// occupied slot before the call.
    pub fn insert(&mut self, v: T) -> (k: Key)
        requires
            old(self)@.wf(),
        ensures
            final(self)@.wf(),
            k == old(self)@.insert_key(),
            final(self)@ == old(self)@.insert_model(v),
            !old(self)@.occupied(k),
            final(self)@.occupied(k) && final(self)@.slots[k as int] == Some(v),
            final(self)@.len() == old(self)@.len() + 1,
    {
        let k = match self.free_list.pop() {
            Some(k) => {
                let slot = &mut self.slots[k];
                *slot = Some(v);
                k
            },
            None => {
                let k = self.slots.len();
                self.slots.push(Some(v));
                k
            },
        };
        proof {
            let m = old(self)@;
            assert(self@ =~= m.insert_model(v));
            if m.free.len() > 0 {
                assert(m.free.drop_last() =~= m.free.subrange(0, m.free.len() - 1));
                crate::model::lemma_entries_update(m.slots, k as int, Some(v));
                assert forall|x: usize|
                    (x as int) < self@.slots.len() && self@.slots[x as int] is None implies self@.free.contains(
                    x,
                ) by {
                    assert(m.slots[x as int] is None && x != k);
                    assert(m.free.contains(x));
                    let i = choose|i: int| 0 <= i < m.free.len() && m.free[i] == x;
                    assert(m.free[i] == x);
                    assert(m.free[m.free.len() - 1] == k);
                    assert(i != m.free.len() - 1);
                    assert(self@.free[i] == x);
                }
            } else {
                crate::model::lemma_entries_push(m.slots, Some(v));
                assert forall|x: usize|
                    (x as int) < self@.slots.len() && self@.slots[x as int] is None implies self@.free.contains(
                    x,
                ) by {
                    assert((x as int) < m.slots.len() && m.slots[x as int] is None);
                }
            }
        }
        k
    }

    /// Appends a new slot holding `v` at the end, ignoring the free list, so
    /// keys handed out by this method grow monotonically. Returns the new key
    /// (the previous size).
    pub fn push_back(&mut self, v: T) -> (k: Key)
        requires
            old(self)@.wf(),
        ensures
            final(self)@.wf(),
            k as int == old(self)@.size(),
            final(self)@ == old(self)@.push_back_model(v),
            final(self)@.occupied(k) && final(self)@.slots[k as int] == Some(v),
            final(self)@.len() == old(self)@.len() + 1,
    {
        let k = self.slots.len();
        self.slots.push(Some(v));
        proof {
            let m = old(self)@;
            assert(self@ =~= m.push_back_model(v));
            crate::model::lemma_entries_push(m.slots, Some(v));
            assert forall|x: usize|
                (x as int) < self@.slots.len() && self@.slots[x as int] is None implies self@.free.contains(
                x,
            ) by {
                assert((x as int) < m.slots.len() && m.slots[x as int] is None);
            }
        }
        k
    }

    /// Bounds-checked lookup: the value at `k`, or `None` when `k` is out of
    /// range or its slot is vacant. Never fails.
    pub fn get(&self, k: Key) -> (r: Option<&T>)
        ensures
            r is Some <==> self@.occupied(k),
            r is Some ==> *r.unwrap() == self@.slots[k as int].unwrap(),
    {
        if k < self.slots.len() {
            self.slots[k].as_ref()
        } else {
            None
        }
    }

    /// Number of occupied slots: the size minus the vacant (free) slots.
    pub fn len(&self) -> (n: usize)
        requires
            self@.wf(),
        ensures
            n as int == self@.len(),
    {
        proof {
            crate::model::lemma_entries_len(self@.slots);
        }
        self.slots.len() - self.free_list.len()
    }

    /// True iff no slot is occupied.
    pub fn is_empty(&self) -> (r: bool)
        requires
            self@.wf(),
        ensures
            r <==> self@.len() == 0,
    {
        self.len() == 0
    }

    /// Removes the value at `k`, if that slot is occupied: the slot is
    /// vacated and `k` is pushed on the free list, to be reused by the next
    /// `insert`. An out-of-range or vacant key changes nothing and yields
    /// `None` (in particular, no duplicate free-list entry is made).
    pub fn remove(&mut self, k: Key) -> (r: Option<T>)
        requires
            old(self)@.wf(),
        ensures
            final(self)@.wf(),
            final(self)@ == old(self)@.remove_model(k),
            r is Some <==> old(self)@.occupied(k),
            old(self)@.occupied(k) ==> r == old(self)@.slots[k as int] && final(self)@.len()
                == old(self)@.len() - 1,
            !old(self)@.occupied(k) ==> final(self)@ == old(self)@,
    {
        if k >= self.slots.len() {
            return None;
        }
        let slot = &mut self.slots[k];
        let taken = slot.take();
        if taken.is_some() {
            self.free_list.push(k);
        }
        proof {
            let m = old(self)@;
            if m.occupied(k) {
                assert(self@ =~= m.remove_model(k));
                crate::model::lemma_entries_update(m.slots, k as int, None);
                assert forall|i: int, j: int|
                    0 <= i < j < self@.free.len() implies self@.free[i] != self@.free[j] by {
                    if j == self@.free.len() - 1 {
                        assert(self@.free[j] == k);
                        assert(m.slots[m.free[i] as int] is None);
                    }
                }
                assert forall|x: usize|
                    (x as int) < self@.slots.len() && self@.slots[x as int] is None implies self@.free.contains(
                    x,
                ) by {
                    if x == k {
                        assert(self@.free[self@.free.len() - 1] == k);
                    } else {
                        assert(m.free.contains(x));
                        let i = choose|i: int| 0 <= i < m.free.len() && m.free[i] == x;
                        assert(self@.free[i] == x);
                    }
                }
            } else {
                assert(self@ =~= m);
            }
        }
        taken
    }

    /// Forces `v` into the already-allocated slot `k`, which the caller must
    /// have proven in range. If `k` was free it leaves the free list (the
    /// slot becomes occupied without consuming normal insertion order).
    /// Returns the previous contents of the slot: the prior value if it was
    /// occupied, `None` if it was vacant.
    pub fn insert_at(&mut self, k: Key, v: T) -> (prev: Option<T>)
        requires
            old(self)@.wf(),
            (k as int) < old(self)@.size(),
        ensures
            final(self)@.wf(),
            final(self)@ == old(self)@.insert_at_model(k, v),
            prev == old(self)@.slots[k as int],
            final(self)@.slots == old(self)@.slots.update(k as int, Some(v)),
            old(self)@.occupied(k) ==> final(self)@.free == old(self)@.free && final(self)@.len()
                == old(self)@.len(),
            !old(self)@.occupied(k) ==> !final(self)@.free.contains(k) && final(self)@.len()
                == old(self)@.len() + 1,
    {
        let ghost m = old(self)@;
        let found = find_key(&self.free_list, k);
        proof {
            m.free.index_of_first_ensures(k);
        }
        if let Some(i) = found {
            self.free_list.remove(i);
        }
        let slot = &mut self.slots[k];
        let prev = slot.take();
        *slot = Some(v);
        proof {
            crate::model::lemma_entries_update(m.slots, k as int, Some(v));
            if m.occupied(k) {
                assert forall|i: int| 0 <= i < m.free.len() implies m.free[i] != k by {
                    assert(m.slots[m.free[i] as int] is None);
                }
                assert(found is None && m.free.index_of_first(k) is None);
                assert(self@ =~= m.insert_at_model(k, v));
            } else {
                let i = found.unwrap() as int;
                let fi = m.free.index_of_first(k).unwrap();
                assert(m.free.contains(k));
                assert(fi == i) by {
                    if fi < i {
                        assert(m.free[fi] == k);
                    }
                    if i < fi {
                        assert(m.free[i] == k);
                    }
                }
                let nf = m.free.remove(i);
                assert(self@ =~= m.insert_at_model(k, v));
                m.free.remove_ensures(i);
                assert forall|p: int, q: int| 0 <= p < q < nf.len() implies nf[p] != nf[q] by {
                    let p0: int = if p < i {
                        p
                    } else {
                        p + 1
                    };
                    let q0: int = if q < i {
                        q
                    } else {
                        q + 1
                    };
                    assert(nf[p] == m.free[p0] && nf[q] == m.free[q0]);
                }
                assert forall|p: int| 0 <= p < nf.len() implies nf[p] != k by {
                    let p0: int = if p < i {
                        p
                    } else {
                        p + 1
                    };
                    assert(nf[p] == m.free[p0]);
                }
                assert forall|x: usize|
                    (x as int) < self@.slots.len() && self@.slots[x as int] is None implies self@.free.contains(
                    x,
                ) by {
                    assert(m.slots[x as int] is None && x != k);
                    assert(m.free.contains(x));
                    let j = choose|j: int| 0 <= j < m.free.len() && m.free[j] == x;
                    if j < i {
                        assert(nf[j] == x);
                    } else {
                        assert(j != i);
                        assert(nf[j - 1] == x);
                    }
                }
            }
        }
        prev
    }

    /// Borrows the value at `k` mutably, or `None` when `k` is out of range
    /// or vacant. Never fails; occupancy and the free list are unchanged
    /// whatever the caller writes through the borrow (see
    /// `lemma_wf_update_occupied` for carrying well-formedness across it).
    pub fn get_mut(&mut self, k: Key) -> (r: Option<&mut T>)
        ensures
            r is Some <==> old(self)@.occupied(k),
            r is None ==> final(self)@ == old(self)@,
            r is Some ==> *r.unwrap() == old(self)@.slots[k as int].unwrap() && final(self)@.slots
                == old(self)@.slots.update(k as int, Some(*final(r.unwrap())))
                && final(self)@.free == old(self)@.free,
    {
        if k >= self.slots.len() {
            return None;
        }
        if self.slots[k].is_none() {
            return None;
        }
        let slot = &mut self.slots[k];
        slot.as_mut()
    }

    /// The value at `k`, for call sites that treat the key as already proven
    /// valid: the caller must show that the slot is occupied. (The checked
    /// counterpart is `get`.)
    pub fn index(&self, k: Key) -> (r: &T)
        requires
            self@.occupied(k),
        ensures
            *r == self@.slots[k as int].unwrap(),
    {
        self.slots[k].as_ref().unwrap()
    }

    /// Mutable counterpart of `index`: the caller must show that the slot is
    /// occupied. (The checked counterpart is `get_mut`.)
    pub fn index_mut(&mut self, k: Key) -> (r: &mut T)
        requires
            old(self)@.occupied(k),
        ensures
            *r == old(self)@.slots[k as int].unwrap(),
            final(self)@.slots == old(self)@.slots.update(k as int, Some(*final(r))),
            final(self)@.free == old(self)@.free,
    {
        let slot = &mut self.slots[k];
        slot.as_mut().unwrap()
    }

    /// True iff `k` is in range and its slot is occupied.
    pub fn contains_key(&self, k: Key) -> (r: bool)
        ensures
            r == self@.occupied(k),
    {
        k < self.slots.len() && self.slots[k].is_some()
    }

    /// The keys of the occupied slots, in ascending order.
    pub fn keys(&self) -> (r: Vec<Key>)
        ensures
            r@.len() == crate::model::entries(self@.slots).len(),
            forall|i: int|
                0 <= i < r@.len() ==> r@[i] == crate::model::entries(self@.slots)[i].0,
            forall|i: int, j: int| 0 <= i < j < r@.len() ==> r@[i] < r@[j],
            forall|i: int| 0 <= i < r@.len() ==> self@.occupied(#[trigger] r@[i]),
            forall|k: Key| self@.occupied(k) ==> r@.contains(k),
            self@.wf() ==> r@.len() as int == self@.len(),
    {
        let ghost s = self@.slots;
        let mut r: Vec<Key> = Vec::new();
        let mut i: usize = 0;
        while i < self.slots.len()
            invariant
                s == self@.slots,
                i <= s.len(),
                r@.len() == crate::model::entries(s.take(i as int)).len(),
                forall|j: int|
                    0 <= j < r@.len() ==> r@[j] == crate::model::entries(s.take(i as int))[j].0,
            decreases s.len() - i,
        {
            proof {
                crate::model::lemma_entries_take_step(s, i as int);
            }
            if self.slots[i].is_some() {
                r.push(i);
            }
            i += 1;
        }
        proof {
            assert(s.take(s.len() as int) =~= s);
            assert(s.len() <= usize::MAX);
            crate::laws::lemma_entries_characterize(s);
            assert forall|k: Key| self@.occupied(k) implies r@.contains(k) by {
                let es = crate::model::entries(s);
                let i = choose|i: int| 0 <= i < es.len() && es[i] == (k, s[k as int]->0);
                assert(r@[i] == k);
            }
        }
        r
    }

    /// The values of the occupied slots, borrowed, in ascending key order.
    pub fn values(&self) -> (r: Vec<&T>)
        ensures
            r@.len() == crate::model::entries(self@.slots).len(),
            forall|i: int|
                0 <= i < r@.len() ==> *r@[i] == crate::model::entries(self@.slots)[i].1,
    {
        let ghost s = self@.slots;
        let mut r: Vec<&T> = Vec::new();
        let mut i: usize = 0;
        while i < self.slots.len()
            invariant
                s == self@.slots,
                i <= s.len(),
                r@.len() == crate::model::entries(s.take(i as int)).len(),
                forall|j: int|
                    0 <= j < r@.len() ==> *r@[j] == crate::model::entries(s.take(i as int))[j].1,
            decreases s.len() - i,
        {
            proof {
                crate::model::lemma_entries_take_step(s, i as int);
            }
            if let Some(v) = self.slots[i].as_ref() {
                r.push(v);
            }
            i += 1;
        }
        proof {
            assert(s.take(s.len() as int) =~= s);
        }
        r
    }

    /// The occupied (key, value) pairs, values borrowed, in ascending key
    /// order.
    pub fn iter(&self) -> (r: Vec<(Key, &T)>)
        ensures
            r@.len() == crate::model::entries(self@.slots).len(),
            forall|i: int|
                0 <= i < r@.len() ==> r@[i].0 == crate::model::entries(self@.slots)[i].0 && *r@[i].1
                    == crate::model::entries(self@.slots)[i].1,
            forall|i: int, j: int| 0 <= i < j < r@.len() ==> r@[i].0 < r@[j].0,
            forall|i: int|
                0 <= i < r@.len() ==> self@.occupied(#[trigger] r@[i].0) && self@.slots[r@[i].0
                    as int] == Some(*r@[i].1),
            forall|k: Key|
                self@.occupied(k) ==> exists|i: int|
                    0 <= i < r@.len() && (#[trigger] r@[i]).0 == k && *r@[i].1 == self@.slots[
                    k as int]->0,
            self@.wf() ==> r@.len() as int == self@.len(),
    {
        let ghost s = self@.slots;
        let mut r: Vec<(Key, &T)> = Vec::new();
        let mut i: usize = 0;
        while i < self.slots.len()
            invariant
                s == self@.slots,
                i <= s.len(),
                r@.len() == crate::model::entries(s.take(i as int)).len(),
                forall|j: int|
                    0 <= j < r@.len() ==> r@[j].0 == crate::model::entries(s.take(i as int))[j].0
                        && *r@[j].1 == crate::model::entries(s.take(i as int))[j].1,
            decreases s.len() - i,
        {
            proof {
                crate::model::lemma_entries_take_step(s, i as int);
            }
            if let Some(v) = self.slots[i].as_ref() {
                r.push((i, v));
            }
            i += 1;
        }
        proof {
            assert(s.take(s.len() as int) =~= s);
            assert(s.len() <= usize::MAX);
            crate::laws::lemma_entries_characterize(s);
            assert forall|k: Key| self@.occupied(k) implies exists|i: int|
                0 <= i < r@.len() && (#[trigger] r@[i]).0 == k && *r@[i].1 == self@.slots[
                k as int]->0 by {
                let es = crate::model::entries(s);
                let i = choose|i: int| 0 <= i < es.len() && es[i] == (k, s[k as int]->0);
                assert(r@[i].0 == k && *r@[i].1 == s[k as int]->0);
            }
        }
        r
    }

    /// Empties the arena completely — free list cleared, every slot
    /// consumed, size back to 0 — and returns the previously occupied
    /// (key, value) pairs, in ascending key order.
    pub fn drain_all(&mut self) -> (r: Vec<(Key, T)>)
        ensures
            final(self)@ == ArenaModel::<T>::empty(),
            final(self)@.wf(),
            r@ == crate::model::entries(old(self)@.slots),
            forall|i: int, j: int| 0 <= i < j < r@.len() ==> r@[i].0 < r@[j].0,
            forall|i: int|
                0 <= i < r@.len() ==> old(self)@.occupied(#[trigger] r@[i].0) && old(self)@.slots[
                    r@[i].0 as int] == Some(r@[i].1),
            forall|k: Key|
                old(self)@.occupied(k) ==> exists|i: int|
                    0 <= i < r@.len() && #[trigger] r@[i] == (k, old(self)@.slots[k as int]->0),
            old(self)@.wf() ==> r@.len() as int == old(self)@.len(),
    {
        let ghost s = old(self)@.slots;
        let mut r: Vec<(Key, T)> = Vec::new();
        let mut i: usize = 0;
        while i < self.slots.len()
            invariant
                self@.slots.len() == s.len(),
                i <= s.len(),
                forall|j: int| i <= j < s.len() ==> self@.slots[j] == s[j],
                r@ == crate::model::entries(s.take(i as int)),
            decreases s.len() - i,
        {
            proof {
                crate::model::lemma_entries_take_step(s, i as int);
            }
            let slot = &mut self.slots[i];
            if let Some(v) = slot.take() {
                r.push((i, v));
            }
            i += 1;
        }
        self.slots.clear();
        self.free_list.clear();
        proof {
            assert(s.take(s.len() as int) =~= s);
            assert(self@ =~= ArenaModel::<T>::empty());
            assert(s.len() <= usize::MAX);
            crate::laws::lemma_entries_characterize(s);
            assert forall|k: Key| old(self)@.occupied(k) implies exists|i: int|
                0 <= i < r@.len() && #[trigger] r@[i] == (k, old(self)@.slots[k as int]->0) by {
                let es = crate::model::entries(s);
                let i = choose|i: int| 0 <= i < es.len() && es[i] == (k, s[k as int]->0);
                assert(r@[i] == (k, s[k as int]->0));
            }
        }
        r
    }

    /// Builds a fresh arena from a sequence of values, inserting each in
    /// order: the arena starts empty, so keys are assigned densely from 0 and
    /// the free list stays empty.
    pub fn from_values(vs: Vec<T>) -> (v: Self)
        ensures
            v@.wf(),
            v@.slots == vs@.map_values(|x: T| Some(x)),
            v@.free == Seq::<Key>::empty(),
            v@.len() == vs@.len(),
    {
        let ghost orig = vs@;
        let mut vs = vs;
        let mut v = Self::new();
        while vs.len() > 0
            invariant
                v@.wf(),
                v@.free == Seq::<Key>::empty(),
                vs@.len() <= orig.len(),
                vs@ == orig.subrange(orig.len() - vs@.len(), orig.len() as int),
                v@.slots == orig.take(orig.len() - vs@.len()).map_values(|x: T| Some(x)),
            decreases vs@.len(),
        {
            let ghost done: int = orig.len() - vs@.len();
            let ghost before = vs@;
            let x = vs.remove(0);
            proof {
                assert(before == orig.subrange(done, orig.len() as int));
                assert(x == before[0] && before[0] == orig[done]);
                assert(before.remove(0) =~= orig.subrange(done + 1, orig.len() as int));
                assert(orig.take(done + 1).map_values(|y: T| Some(y)) =~= orig.take(
                    done,
                ).map_values(|y: T| Some(y)).push(Some(x)));
            }
            v.insert(x);
        }
        proof {
            assert(orig.take(orig.len() as int) =~= orig);
            assert(vs@.len() == 0);
        }
        v
    }
}

/// What slot-wise equality means in contracts: both vacant, or both
/// occupied with values equal under `T`'s own equality specification.
pub open spec fn slot_eq<T: PartialEq>(a: Option<T>, b: Option<T>) -> bool {
    vstd::std_specs::cmp::PartialEqSpec::eq_spec(&a, &b)
}

impl<T: PartialEq> PartialEq for StableVec<T> {
    /// Slot-by-slot comparison in ascending key order. Deliberate edge
    /// case: only the overlapping prefix of the two slot arrays is
    /// compared, so trailing extra slots of the larger arena — occupied or
    /// not — are never examined, and arenas of different sizes can compare
    /// equal. Callers that care about size must compare `len` as well.
    fn eq(&self, other: &Self) -> (r: bool) {
        let n = if self.slots.len() < other.slots.len() {
            self.slots.len()
        } else {
            other.slots.len()
        };
        let mut i: usize = 0;
        while i < n
            invariant
                n <= self@.slots.len() && n <= other@.slots.len(),
                n == self@.slots.len() || n == other@.slots.len(),
                i <= n,
                T::obeys_eq_spec() ==> forall|j: int|
                    0 <= j < i ==> slot_eq(self@.slots[j], other@.slots[j]),
            decreases n - i,
        {
            if !self.slots[i].eq(&other.slots[i]) {
                proof {
                    if T::obeys_eq_spec() {
                        assert(!slot_eq(self@.slots[i as int], other@.slots[i as int]));
                    }
                }
                return false;
            }
            i += 1;
        }
        true
    }
}

impl<T: PartialEq> vstd::std_specs::cmp::PartialEqSpecImpl for StableVec<T> {
    open spec fn obeys_eq_spec() -> bool {
        T::obeys_eq_spec()
    }

    /// What `==` means on arenas: the overlapping prefix of the slot arrays
    /// matches position by position (both slots vacant, or both occupied
    /// with equal values).
    open spec fn eq_spec(&self, other: &Self) -> bool {
        forall|j: int|
            0 <= j < self@.slots.len() && j < other@.slots.len() ==> #[trigger] slot_eq(
                self@.slots[j],
                other@.slots[j],
            )
    }
}

impl<T> Default for StableVec<T> {
    /// Same as `new`: an empty arena.
    fn default() -> (v: Self)
        ensures
            v@ == ArenaModel::<T>::empty(),
            v@.wf(),
    {
        Self::new()
    }
}

} // verus!
