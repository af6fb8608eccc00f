//! Transactions over an arena: every mutation made through a transaction is
//! applied to the arena at once and paired with an inversion record in an
//! undo log; `rollback` replays the log backwards and so restores the slots
//! the arena had when the transaction began. Exclusive access for the
//! transaction's lifetime is enforced by ownership: opening a transaction
//! consumes the arena, and committing or rolling back hands it out again.
use crate::arena::{Key, StableVec};
use crate::model::ArenaModel;
use vstd::prelude::*;

verus! {

/// One inversion record of the undo log.
pub enum UndoOp<T> {
    /// On rollback, remove the entry at this key (undoes an insertion).
    Vacate(Key),
    /// On rollback, force this value back into the slot at this key
    /// (undoes a removal or an overwrite).
    Restore(Key, T),
}

/// The key an undo record acts on.
pub open spec fn undo_key<T>(r: UndoOp<T>) -> Key {
    match r {
        UndoOp::Vacate(k) => k,
        UndoOp::Restore(k, _) => k,
    }
}

/// What one undo record does to the slot array. (Its effect on the free
/// list follows from the slots: rollback keeps the arena well-formed, and a
/// well-formed free list holds exactly the vacant keys.)
pub open spec fn apply_undo_slots<T>(s: Seq<Option<T>>, r: UndoOp<T>) -> Seq<Option<T>> {
    match r {
        UndoOp::Vacate(k) => if (k as int) < s.len() && s[k as int] is Some {
            s.update(k as int, None)
        } else {
            s
        },
        UndoOp::Restore(k, v) => if (k as int) < s.len() {
            s.update(k as int, Some(v))
        } else {
            s
        },
    }
}

/// The slot array after replaying a whole undo log, newest record first.
pub open spec fn undo_slots<T>(s: Seq<Option<T>>, log: Seq<UndoOp<T>>) -> Seq<Option<T>>
    decreases log.len(),
{
    if log.len() == 0 {
        s
    } else {
        undo_slots(apply_undo_slots(s, log.last()), log.drop_last())
    }
}

/// `n` vacant slots, as padding behind a restored prefix.
pub open spec fn filler<T>(n: nat) -> Seq<Option<T>> {
    Seq::new(n, |i: int| None)
}

/// Rollback restored `pre` out of `post`: the slots that existed before are
/// back to their old contents; slots allocated since are vacant. (The free
/// list holds exactly the vacant keys — that is well-formedness — though
/// not necessarily in the old order.)
pub open spec fn restores<T>(post: ArenaModel<T>, pre: ArenaModel<T>) -> bool {
    &&& post.wf()
    &&& post.slots.len() >= pre.slots.len()
    &&& post.slots.subrange(0, pre.slots.len() as int) == pre.slots
    &&& forall|i: int| pre.slots.len() <= i < post.slots.len() ==> post.slots[i] is None
}

/// Appending a record to the log prepends its effect to the replay.
pub proof fn lemma_undo_push<T>(s: Seq<Option<T>>, log: Seq<UndoOp<T>>, r: UndoOp<T>)
    ensures
        undo_slots(s, log.push(r)) == undo_slots(apply_undo_slots(s, r), log),
{
    assert(log.push(r).drop_last() =~= log);
    assert(log.push(r).last() == r);
}

/// A vacant slot appended behind every key the log mentions rides along
/// untouched through the whole replay.
pub proof fn lemma_undo_slots_pad<T>(s: Seq<Option<T>>, log: Seq<UndoOp<T>>)
    requires
        forall|i: int| 0 <= i < log.len() ==> (undo_key(#[trigger] log[i]) as int) < s.len(),
    ensures
        undo_slots(s.push(None), log) == undo_slots(s, log).push(None),
    decreases log.len(),
{
    if log.len() > 0 {
        let r = log.last();
        assert(apply_undo_slots(s.push(None), r) =~= apply_undo_slots(s, r).push(None));
        assert(apply_undo_slots(s, r).len() == s.len());
        lemma_undo_slots_pad(apply_undo_slots(s, r), log.drop_last());
    }
}

/// A restored state has the same occupied entries, and so the same length,
/// as the snapshot it restores.
pub proof fn lemma_restores_entries<T>(post: ArenaModel<T>, pre: ArenaModel<T>)
    requires
        restores(post, pre),
        pre.wf(),
    ensures
        crate::model::entries(post.slots) == crate::model::entries(pre.slots),
        post.len() == pre.len(),
{
    let n = (post.slots.len() - pre.slots.len()) as nat;
    assert(post.slots =~= pre.slots + filler::<T>(n));
    crate::model::lemma_entries_pad(pre.slots, n);
}

/// After a rollback the free list holds exactly the keys it held at the
/// snapshot, plus the keys of the slots allocated during the transaction —
/// membership is restored exactly, even where the order is not.
pub proof fn lemma_restores_free_membership<T>(post: ArenaModel<T>, pre: ArenaModel<T>)
    requires
        restores(post, pre),
        pre.wf(),
    ensures
        forall|k: Key|
            #[trigger] post.free.contains(k) <==> pre.free.contains(k) || (pre.slots.len() <= (
            k as int) < post.slots.len()),
{
    assert forall|k: Key| #[trigger]
        post.free.contains(k) <==> pre.free.contains(k) || (pre.slots.len() <= (k as int)
            < post.slots.len()) by {
        if post.free.contains(k) {
            let i = choose|i: int| 0 <= i < post.free.len() && post.free[i] == k;
            assert((post.free[i] as int) < post.slots.len() && post.slots[post.free[i] as int]
                is None);
            if (k as int) < pre.slots.len() {
                assert(pre.slots[k as int] == post.slots.subrange(0, pre.slots.len() as int)[
                    k as int]);
            }
        }
        if pre.free.contains(k) {
            let i = choose|i: int| 0 <= i < pre.free.len() && pre.free[i] == k;
            assert((pre.free[i] as int) < pre.slots.len() && pre.slots[pre.free[i] as int]
                is None);
            assert(post.slots[k as int] == post.slots.subrange(0, pre.slots.len() as int)[
                k as int]);
        }
        if pre.slots.len() <= (k as int) < post.slots.len() {
            assert(post.slots[k as int] is None);
        }
    }
}

/// A scoped batch of mutations over one arena, with an undo log sufficient
/// to put the slots back as they were when the transaction began. Dropping
/// the transaction without rolling back commits implicitly (the mutations
/// are already applied); `commit` does so while handing the arena back.
pub struct Transaction<T> {
    arena: StableVec<T>,
    log: Vec<UndoOp<T>>,
    snap: Ghost<ArenaModel<T>>,
}

impl<T> Transaction<T> {
    /// The arena state the transaction started from.
    pub closed spec fn snapshot(self) -> ArenaModel<T> {
        self.snap@
    }

    /// The arena state as mutated so far.
    pub closed spec fn current(self) -> ArenaModel<T> {
        self.arena@
    }

    /// The transaction's invariant: the arena and the snapshot are
    /// well-formed, and replaying the undo log backwards on the current
    /// slots yields the snapshot's slots, padded with vacant slots for
    /// whatever was appended since.
    pub closed spec fn wf(self) -> bool {
        &&& self.arena@.wf()
        &&& self.snap@.wf()
        &&& self.snap@.slots.len() <= self.arena@.slots.len()
        &&& undo_slots(self.arena@.slots, self.log@) == self.snap@.slots + filler::<T>(
            (self.arena@.slots.len() - self.snap@.slots.len()) as nat,
        )
        &&& forall|i: int|
            0 <= i < self.log@.len() ==> (undo_key(#[trigger] self.log@[i]) as int)
                < self.arena@.slots.len()
    }

    /// Inserts through the transaction: applied to the arena at once, with
    /// "remove that key" recorded for rollback.
    pub fn insert(&mut self, v: T) -> (k: Key)
        requires
            old(self).wf(),
        ensures
            final(self).wf(),
            final(self).snapshot() == old(self).snapshot(),
            k == old(self).current().insert_key(),
            final(self).current() == old(self).current().insert_model(v),
    {
        let ghost a = self.arena@;
        let ghost l = self.log@;
        let k = self.arena.insert(v);
        self.log.push(UndoOp::Vacate(k));
        proof {
            self.log_undo_insertion(a, l, k, v);
        }
        k
    }

    /// Appends through the transaction, ignoring the free list, with
    /// "remove that key" recorded for rollback.
    pub fn push_back(&mut self, v: T) -> (k: Key)
        requires
            old(self).wf(),
        ensures
            final(self).wf(),
            final(self).snapshot() == old(self).snapshot(),
            k as int == old(self).current().size(),
            final(self).current() == old(self).current().push_back_model(v),
    {
        let ghost a = self.arena@;
        let ghost l = self.log@;
        let k = self.arena.push_back(v);
        self.log.push(UndoOp::Vacate(k));
        proof {
            self.log_undo_insertion(a, l, k, v);
        }
        k
    }

    /// Shared step of the invariant maintenance for `insert` and
    /// `push_back`: the new log entry exactly undoes the slot that was
    /// written, whether an old slot was reused or a new one appended.
    proof fn log_undo_insertion(self, a: ArenaModel<T>, l: Seq<UndoOp<T>>, k: Key, v: T)
        requires
            a.wf(),
            self.snap@.wf(),
            self.snap@.slots.len() <= a.slots.len(),
            undo_slots(a.slots, l) == self.snap@.slots + filler::<T>(
                (a.slots.len() - self.snap@.slots.len()) as nat,
            ),
            forall|i: int| 0 <= i < l.len() ==> (undo_key(#[trigger] l[i]) as int) < a.slots.len(),
            self.log@ == l.push(UndoOp::Vacate(k)),
            self.arena@.wf(),
            ({
                ||| ((k as int) < a.slots.len() && a.slots[k as int] is None && self.arena@.slots
                    == a.slots.update(k as int, Some(v)))
                ||| (k as int == a.slots.len() && self.arena@.slots == a.slots.push(Some(v)))
            }),
        ensures
            self.wf(),
    {
        let s2 = self.arena@.slots;
        let r = UndoOp::Vacate(k);
        lemma_undo_push(s2, l, r);
        if k as int == a.slots.len() {
            assert(apply_undo_slots(s2, r) =~= a.slots.push(None));
            lemma_undo_slots_pad(a.slots, l);
            let n = (a.slots.len() - self.snap@.slots.len()) as nat;
            assert((self.snap@.slots + filler::<T>(n)).push(None) =~= self.snap@.slots
                + filler::<T>(n + 1));
        } else {
            assert(apply_undo_slots(s2, r) =~= a.slots);
        }
    }

    /// Removes through the transaction. The removed value is kept in the
    /// undo log — it is needed to restore the slot on rollback — and is
    /// returned as a borrow into the log.
    pub fn remove(&mut self, k: Key) -> (r: Option<&T>)
        requires
            old(self).wf(),
        ensures
            final(self).wf(),
            final(self).snapshot() == old(self).snapshot(),
            final(self).current() == old(self).current().remove_model(k),
            r is Some <==> old(self).current().occupied(k),
            r is Some ==> *r.unwrap() == old(self).current().slots[k as int].unwrap(),
    {
        let ghost a = self.arena@;
        let ghost l = self.log@;
        let removed = self.arena.remove(k);
        match removed {
            Some(v) => {
                self.log.push(UndoOp::Restore(k, v));
                proof {
                    let s2 = self.arena@.slots;
                    let r = UndoOp::Restore(k, v);
                    lemma_undo_push(s2, l, r);
                    assert(apply_undo_slots(s2, r) =~= a.slots);
                }
                let last = self.log.len() - 1;
                match &self.log[last] {
                    UndoOp::Restore(_, v) => Some(v),
                    UndoOp::Vacate(_) => vstd::pervasive::unreached(),
                }
            },
            None => None,
        }
    }

    /// Forces a value into the in-range slot `k` through the transaction.
    /// The slot's previous value, if any, is kept in the undo log and
    /// returned as a borrow into it.
    pub fn insert_at(&mut self, k: Key, v: T) -> (prev: Option<&T>)
        requires
            old(self).wf(),
            (k as int) < old(self).current().size(),
        ensures
            final(self).wf(),
            final(self).snapshot() == old(self).snapshot(),
            final(self).current() == old(self).current().insert_at_model(k, v),
            prev is Some <==> old(self).current().occupied(k),
            prev is Some ==> *prev.unwrap() == old(self).current().slots[k as int].unwrap(),
    {
        let ghost a = self.arena@;
        let ghost l = self.log@;
        let prev = self.arena.insert_at(k, v);
        match prev {
            Some(p) => {
                self.log.push(UndoOp::Restore(k, p));
                proof {
                    let s2 = self.arena@.slots;
                    let r = UndoOp::Restore(k, p);
                    lemma_undo_push(s2, l, r);
                    assert(apply_undo_slots(s2, r) =~= a.slots);
                }
                let last = self.log.len() - 1;
                match &self.log[last] {
                    UndoOp::Restore(_, p) => Some(p),
                    UndoOp::Vacate(_) => vstd::pervasive::unreached(),
                }
            },
            None => {
                self.log.push(UndoOp::Vacate(k));
                proof {
                    let s2 = self.arena@.slots;
                    let r = UndoOp::Vacate(k);
                    lemma_undo_push(s2, l, r);
                    assert(apply_undo_slots(s2, r) =~= a.slots);
                }
                None
            },
        }
    }

    /// Read-only passthrough to the arena's `get`.
    pub fn get(&self, k: Key) -> (r: Option<&T>)
        ensures
            r is Some <==> self.current().occupied(k),
            r is Some ==> *r.unwrap() == self.current().slots[k as int].unwrap(),
    {
        self.arena.get(k)
    }

    /// Read-only passthrough to the arena's `len`.
    pub fn len(&self) -> (n: usize)
        requires
            self.wf(),
        ensures
            n as int == self.current().len(),
    {
        self.arena.len()
    }

    /// Read-only passthrough to the arena's `iter`.
    pub fn iter(&self) -> (r: Vec<(Key, &T)>)
        ensures
            r@.len() == crate::model::entries(self.current().slots).len(),
            forall|i: int|
                0 <= i < r@.len() ==> r@[i].0 == crate::model::entries(self.current().slots)[i].0
                    && *r@[i].1 == crate::model::entries(self.current().slots)[i].1,
            forall|i: int, j: int| 0 <= i < j < r@.len() ==> r@[i].0 < r@[j].0,
            forall|i: int|
                0 <= i < r@.len() ==> self.current().occupied(#[trigger] r@[i].0)
                    && self.current().slots[r@[i].0 as int] == Some(*r@[i].1),
            forall|k: Key|
                self.current().occupied(k) ==> exists|i: int|
                    0 <= i < r@.len() && (#[trigger] r@[i]).0 == k && *r@[i].1
                        == self.current().slots[k as int]->0,
            self.wf() ==> r@.len() as int == self.current().len(),
    {
        self.arena.iter()
    }

    /// Read-only passthrough to the arena's `contains_key`.
    pub fn contains_key(&self, k: Key) -> (r: bool)
        ensures
            r == self.current().occupied(k),
    {
        self.arena.contains_key(k)
    }

    /// Replays the undo log newest-first, each record exactly inverting its
    /// paired mutation, and hands back the arena: every slot that existed at
    /// the snapshot holds its old value again, and every slot allocated
    /// during the transaction is vacant. Consuming the transaction makes it
    /// spent, as further use after rollback is not defined.
    pub fn rollback(self) -> (a: StableVec<T>)
        requires
            self.wf(),
        ensures
            a@.wf(),
            restores(a@, self.snapshot()),
            crate::model::entries(a@.slots) == crate::model::entries(self.snapshot().slots),
            a@.len() == self.snapshot().len(),
    {
        let Transaction { mut arena, mut log, snap } = self;
        while log.len() > 0
            invariant
                arena@.wf(),
                snap@.wf(),
                snap@.slots.len() <= arena@.slots.len(),
                undo_slots(arena@.slots, log@) == snap@.slots + filler::<T>(
                    (arena@.slots.len() - snap@.slots.len()) as nat,
                ),
                forall|i: int|
                    0 <= i < log@.len() ==> (undo_key(#[trigger] log@[i]) as int)
                        < arena@.slots.len(),
            decreases log@.len(),
        {
            let ghost s = arena@.slots;
            let ghost l = log@;
            let record = log.pop().unwrap();
            proof {
                assert(l.drop_last() =~= l.subrange(0, l.len() - 1));
                assert(l.last() == record);
            }
            match record {
                UndoOp::Vacate(k) => {
                    arena.remove(k);
                    proof {
                        assert(arena@.slots =~= apply_undo_slots(s, UndoOp::Vacate(k)));
                    }
                },
                UndoOp::Restore(k, v) => {
                    arena.insert_at(k, v);
                    proof {
                        assert(arena@.slots =~= apply_undo_slots(s, UndoOp::Restore(k, v)));
                    }
                },
            }
        }
        proof {
            let n = (arena@.slots.len() - snap@.slots.len()) as nat;
            assert(undo_slots(arena@.slots, log@) == arena@.slots);
            assert(arena@.slots.subrange(0, snap@.slots.len() as int) =~= snap@.slots);
            lemma_restores_entries(arena@, snap@);
        }
        arena
    }

    /// Ends the transaction keeping every mutation, and hands the arena
    /// back. Dropping the transaction instead commits just as well, but
    /// loses the arena with it.
    pub fn commit(self) -> (a: StableVec<T>)
        requires
            self.wf(),
        ensures
            a@ == self.current(),
            a@.wf(),
    {
        self.arena
    }
}

impl<T> StableVec<T> {
    /// Opens a transaction over this arena. The arena is consumed — that is
    /// the exclusivity the transaction needs — and comes back from `commit`
    /// or `rollback`.
    pub fn transaction(self) -> (tx: Transaction<T>)
        requires
            self@.wf(),
        ensures
            tx.wf(),
            tx.snapshot() == self@,
            tx.current() == self@,
    {
        let ghost m = self@;
        let tx = Transaction { arena: self, log: Vec::new(), snap: Ghost(m) };
        proof {
            assert(undo_slots(tx.arena@.slots, tx.log@) == tx.arena@.slots);
            assert(m.slots + filler::<T>(0) =~= m.slots);
        }
        tx
    }

    /// Opens a transaction, hands it to `f` exactly once, and returns
    /// exactly the result `f` produced: on failure the transaction is
    /// rolled back before the error propagates, so the arena's slots are as
    /// before the call; on success it commits and the mutations stay. `f`
    /// receives the transaction by value and must hand back the one it was
    /// given (same snapshot), together with its result.
    pub fn with_transaction<R, E, F: FnOnce(Transaction<T>) -> (Transaction<T>, Result<R, E>)>(
        &mut self,
        f: F,
    ) -> (r: Result<R, E>)
        requires
            old(self)@.wf(),
            forall|t: Transaction<T>|
                t.wf() && t.snapshot() == old(self)@ && t.current() == old(self)@
                    ==> call_requires(f, (t,)),
            forall|t: Transaction<T>, out: (Transaction<T>, Result<R, E>)|
                t.wf() && t.snapshot() == old(self)@ && t.current() == old(self)@
                    && #[trigger] call_ensures(f, (t,), out) ==> out.0.wf() && out.0.snapshot()
                    == t.snapshot(),
        ensures
            final(self)@.wf(),
            r is Err ==> restores(final(self)@, old(self)@),
            exists|t: Transaction<T>, t2: Transaction<T>|
                t.wf() && t.snapshot() == old(self)@ && t.current() == old(self)@
                    && #[trigger] call_ensures(f, (t,), (t2, r)) && (r is Ok ==> final(self)@
                    == t2.current()),
    {
        let mut taken = StableVec::new();
        core::mem::swap(self, &mut taken);
        let tx = taken.transaction();
        let (tx2, result) = f(tx);
        let restored = if result.is_err() {
            tx2.rollback()
        } else {
            tx2.commit()
        };
        *self = restored;
        result
    }
}

} // verus!
