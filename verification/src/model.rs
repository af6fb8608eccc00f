//! Mathematical model of the arena: a sequence of optional slots plus a
//! free list of vacant keys, with the well-formedness invariant and the
//! transition functions that the executable operations are specified by.
use vstd::prelude::*;

verus! {

/// Ghost state of an arena: `slots` is the slot array (one entry per key ever
/// allocated, `None` when vacant), `free` the stack of reclaimed keys,
/// most recently reclaimed last.
#[verifier::ext_equal]
pub struct ArenaModel<T> {
    pub slots: Seq<Option<T>>,
    pub free: Seq<usize>,
}

/// The occupied entries of a slot sequence, as (key, value) pairs in
/// ascending key order.
pub open spec fn entries<T>(slots: Seq<Option<T>>) -> Seq<(usize, T)>
    decreases slots.len(),
{
    if slots.len() == 0 {
        Seq::empty()
    } else {
        entries(slots.drop_last()) + match slots.last() {
            Some(v) => seq![(((slots.len() - 1) as usize), v)],
            None => Seq::empty(),
        }
    }
}

impl<T> ArenaModel<T> {
    /// The state of a freshly created arena.
    pub open spec fn empty() -> Self {
        ArenaModel { slots: Seq::empty(), free: Seq::empty() }
    }

    /// Number of slots ever allocated, vacant ones included.
    pub open spec fn size(self) -> int {
        self.slots.len() as int
    }

    /// Number of occupied slots.
    pub open spec fn len(self) -> int {
        self.size() - self.free.len()
    }

    /// Key `k` names a slot that is currently occupied.
    pub open spec fn occupied(self, k: usize) -> bool {
        (k as int) < self.slots.len() && self.slots[k as int] is Some
    }

    /// Well-formedness: every free key names a vacant slot, no key is in the
    /// free list twice, every vacant slot's key is in the free list, and the
    /// free list is therefore exactly as long as the number of vacant slots.
    pub open spec fn wf(self) -> bool {
        &&& forall|i: int|
            0 <= i < self.free.len() ==> (#[trigger] self.free[i] as int) < self.slots.len()
                && self.slots[self.free[i] as int] is None
        &&& self.free.no_duplicates()
        &&& forall|k: usize|
            (k as int) < self.slots.len() && self.slots[k as int] is None ==> self.free.contains(k)
        &&& self.free.len() + entries(self.slots).len() == self.slots.len()
    }

    /// The key that the next `insert` returns: the most recently reclaimed
    /// key if one exists, the next fresh key otherwise.
    pub open spec fn insert_key(self) -> usize {
        if self.free.len() > 0 {
            self.free.last()
        } else {
            self.slots.len() as usize
        }
    }

    /// State after `insert(v)`.
    pub open spec fn insert_model(self, v: T) -> Self {
        if self.free.len() > 0 {
            ArenaModel {
                slots: self.slots.update(self.free.last() as int, Some(v)),
                free: self.free.drop_last(),
            }
        } else {
            ArenaModel { slots: self.slots.push(Some(v)), free: self.free }
        }
    }

    /// State after `push_back(v)`: a new slot is appended unconditionally.
    pub open spec fn push_back_model(self, v: T) -> Self {
        ArenaModel { slots: self.slots.push(Some(v)), free: self.free }
    }

    /// State after `remove(k)`: vacating an occupied slot pushes its key on
    /// the free list; anything else leaves the arena unchanged.
    pub open spec fn remove_model(self, k: usize) -> Self {
        if self.occupied(k) {
            ArenaModel { slots: self.slots.update(k as int, None), free: self.free.push(k) }
        } else {
            self
        }
    }

    /// State after `insert_at(k, v)` on an in-range key: the slot is forced
    /// to `v` and `k` leaves the free list if it was there.
    pub open spec fn insert_at_model(self, k: usize, v: T) -> Self {
        ArenaModel { slots: self.slots.update(k as int, Some(v)), free: self.free.remove_value(k) }
    }
}

/// How many of the options in `s` are occupied, counted through `entries`:
/// updating one slot shifts the count by the occupancy change at that slot.
pub proof fn lemma_entries_update<T>(s: Seq<Option<T>>, k: int, v: Option<T>)
    requires
        0 <= k < s.len(),
    ensures
        entries(s.update(k, v)).len() == entries(s).len() + (if v is Some {
            1int
        } else {
            0int
        }) - (if s[k] is Some {
            1int
        } else {
            0int
        }),
    decreases s.len(),
{
    let su = s.update(k, v);
    if k == s.len() - 1 {
        assert(su.drop_last() =~= s.drop_last());
        assert(su.last() == v);
    } else {
        assert(su.drop_last() =~= s.drop_last().update(k, v));
        assert(su.last() == s.last());
        lemma_entries_update(s.drop_last(), k, v);
    }
}

/// The occupied-entry count never exceeds the slot count.
pub proof fn lemma_entries_len<T>(s: Seq<Option<T>>)
    ensures
        entries(s).len() <= s.len(),
    decreases s.len(),
{
    if s.len() > 0 {
        lemma_entries_len(s.drop_last());
    }
}

/// Appending a slot appends its entry (if occupied) and keeps the rest.
pub proof fn lemma_entries_push<T>(s: Seq<Option<T>>, v: Option<T>)
    ensures
        entries(s.push(v)) == entries(s) + match v {
            Some(x) => seq![((s.len() as usize), x)],
            None => Seq::empty(),
        },
{
    assert(s.push(v).drop_last() =~= s);
    assert(s.push(v).last() == v);
}

/// One step of walking the slots in key order: extending a prefix by slot
/// `i` appends its entry when it is occupied.
pub proof fn lemma_entries_take_step<T>(s: Seq<Option<T>>, i: int)
    requires
        0 <= i < s.len(),
    ensures
        entries(s.take(i + 1)) == entries(s.take(i)) + match s[i] {
            Some(v) => seq![((i as usize), v)],
            None => Seq::empty(),
        },
{
    assert(s.take(i + 1).drop_last() =~= s.take(i));
    assert(s.take(i + 1).last() == s[i]);
}

/// Overwriting an occupied slot in place (as a mutable borrow obtained from
/// `get_mut` or `index_mut` does) preserves well-formedness: the occupancy
/// pattern and the free list are untouched.
pub proof fn lemma_wf_update_occupied<T>(m: ArenaModel<T>, k: usize, v: T)
    requires
        m.wf(),
        m.occupied(k),
    ensures
        (ArenaModel { slots: m.slots.update(k as int, Some(v)), free: m.free }).wf(),
{
    let m2 = ArenaModel { slots: m.slots.update(k as int, Some(v)), free: m.free };
    lemma_entries_update(m.slots, k as int, Some(v));
    assert forall|x: usize|
        (x as int) < m2.slots.len() && m2.slots[x as int] is None implies m2.free.contains(x) by {
        assert(m.slots[x as int] is None);
    }
}

/// Vacant slots appended at the end contribute no entries.
pub proof fn lemma_entries_pad<T>(s: Seq<Option<T>>, n: nat)
    ensures
        entries(s + Seq::new(n, |i: int| None::<T>)) == entries(s),
    decreases n,
{
    if n == 0 {
        assert(s + Seq::new(0, |i: int| None::<T>) =~= s);
    } else {
        let pad = Seq::new(n, |i: int| None::<T>);
        let prev = Seq::new((n - 1) as nat, |i: int| None::<T>);
        assert((s + pad).drop_last() =~= s + prev);
        assert((s + pad).last() is None);
        lemma_entries_pad(s, (n - 1) as nat);
    }
}

} // verus!
