//! The general laws of the arena, stated over the model that the executable
//! operations are specified by, and proved once and for all.
use crate::arena::Key;
use crate::model::{entries, ArenaModel};
use vstd::prelude::*;

verus! {

/// Key uniqueness while live: in a well-formed arena, `insert` hands out a
/// key whose slot was not occupied, occupies exactly that slot, and leaves
/// every other slot as it was — so no two simultaneously occupied slots can
/// ever share a key.
pub proof fn lemma_insert_fresh<T>(m: ArenaModel<T>, v: T)
    requires
        m.wf(),
        m.size() <= usize::MAX,
    ensures
        !m.occupied(m.insert_key()),
        m.insert_model(v).occupied(m.insert_key()),
        m.insert_model(v).slots[m.insert_key() as int] == Some(v),
        forall|j: usize|
            j != m.insert_key() && (j as int) < m.size() ==> m.insert_model(v).slots[j as int]
                == m.slots[j as int],
{
    if m.free.len() > 0 {
        assert(m.slots[m.free[m.free.len() - 1] as int] is None);
    }
}

/// LIFO reuse: removing the occupied keys `k1` then `k2`, in that order,
/// and then inserting twice hands the new entries the keys `k2` then `k1`,
/// in that order.
pub proof fn lemma_lifo_reuse<T>(m: ArenaModel<T>, k1: Key, k2: Key, v1: T, v2: T)
    requires
        m.wf(),
        m.occupied(k1),
        m.occupied(k2),
        k1 != k2,
    ensures
        m.remove_model(k1).remove_model(k2).insert_key() == k2,
        m.remove_model(k1).remove_model(k2).insert_model(v1).insert_key() == k1,
{
    let m1 = m.remove_model(k1);
    assert(m1.occupied(k2));
    let m2 = m1.remove_model(k2);
    assert(m2.free == m.free.push(k1).push(k2));
    let m3 = m2.insert_model(v1);
    assert(m3.free =~= m.free.push(k1));
}

/// Length invariant: in every well-formed state the occupied count equals
/// the size minus the free-list length, and it is exactly the number of
/// (key, value) pairs that iteration yields.
pub proof fn lemma_len_counts_occupied<T>(m: ArenaModel<T>)
    requires
        m.wf(),
    ensures
        m.len() == m.size() - m.free.len(),
        m.len() == entries(m.slots).len(),
        0 <= m.len() <= m.size(),
{
    crate::model::lemma_entries_len(m.slots);
}

/// Round trip of `insert_at`: forcing `v` into a vacant in-range slot `k`
/// occupies it with `v`, removes `k` from the free list, and grows the
/// length by one; forcing a second value into the same slot then returns
/// `v` as the previous contents and leaves the length unchanged.
pub proof fn lemma_insert_at_round_trip<T>(m: ArenaModel<T>, k: Key, v: T, v2: T)
    requires
        m.wf(),
        (k as int) < m.size(),
        !m.occupied(k),
    ensures
        m.insert_at_model(k, v).slots[k as int] == Some(v),
        m.insert_at_model(k, v).occupied(k),
        !m.insert_at_model(k, v).free.contains(k),
        m.insert_at_model(k, v).len() == m.len() + 1,
        m.insert_at_model(k, v).insert_at_model(k, v2).len() == m.insert_at_model(k, v).len(),
        m.insert_at_model(k, v).slots[k as int] == Some(v),
{
    let m1 = m.insert_at_model(k, v);
    m.free.index_of_first_ensures(k);
    assert(m.free.contains(k));
    let i = m.free.index_of_first(k).unwrap();
    let nf = m.free.remove(i);
    assert(m1.free == nf);
    assert forall|p: int| 0 <= p < nf.len() implies nf[p] != k by {
        let p0: int = if p < i {
            p
        } else {
            p + 1
        };
        assert(nf[p] == m.free[p0]);
        assert(m.free[i] == k);
        if m.free[p0] == k {
            assert(p0 == i || !m.free.no_duplicates());
        }
    }
    assert(!nf.contains(k));
    m1.free.index_of_first_ensures(k);
    assert(m1.free.remove_value(k) == m1.free);
}

/// What iteration (and `drain_all`) yields, characterised: the pairs carry
/// strictly ascending keys, each pair is an occupied slot with its value,
/// and every occupied slot appears.
pub proof fn lemma_entries_characterize<T>(s: Seq<Option<T>>)
    requires
        s.len() <= usize::MAX,
    ensures
        forall|i: int|
            0 <= i < entries(s).len() ==> (#[trigger] entries(s)[i].0 as int) < s.len()
                && s[entries(s)[i].0 as int] == Some(entries(s)[i].1),
        forall|i: int, j: int|
            0 <= i < j < entries(s).len() ==> entries(s)[i].0 < entries(s)[j].0,
        forall|k: usize|
            (k as int) < s.len() && s[k as int] is Some ==> exists|i: int|
                0 <= i < entries(s).len() && #[trigger] entries(s)[i] == (
                    k,
                    s[k as int]->0,
                ),
    decreases s.len(),
{
    if s.len() > 0 {
        let prev = s.drop_last();
        lemma_entries_characterize(prev);
        crate::model::lemma_entries_len(prev);
        let es = entries(s);
        let ep = entries(prev);
        assert forall|k: usize|
            (k as int) < s.len() && s[k as int] is Some implies exists|i: int|
                0 <= i < es.len() && #[trigger] es[i] == (k, s[k as int]->0) by {
            if (k as int) < s.len() - 1 {
                assert(prev[k as int] == s[k as int]);
                let i = choose|i: int| 0 <= i < ep.len() && ep[i] == (k, prev[k as int]->0);
                assert(es[i] == (k, s[k as int]->0));
            } else {
                assert(es[es.len() - 1] == (k, s[k as int]->0));
            }
        }
    }
}
} // verus!
