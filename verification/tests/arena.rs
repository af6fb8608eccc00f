use stable_vec::arena::StableVec;

#[test]
fn starts_empty() {
    let a: StableVec<u32> = StableVec::new();
    assert_eq!(a.len(), 0);
    assert!(a.is_empty());
    assert_eq!(a.get(0), None);
    assert!(!a.contains_key(0));
    let d: StableVec<u32> = StableVec::default();
    assert_eq!(d.len(), 0);
}

#[test]
fn insert_assigns_dense_keys() {
    let mut a = StableVec::new();
    assert_eq!(a.insert(10), 0);
    assert_eq!(a.insert(20), 1);
    assert_eq!(a.insert(30), 2);
    assert_eq!(a.len(), 3);
    assert_eq!(a.get(1), Some(&20));
}

#[test]
fn scenario_remove_then_insert_reuses_key() {
    let mut a = StableVec::new();
    assert_eq!(a.insert("a"), 0);
    assert_eq!(a.insert("b"), 1);
    assert_eq!(a.remove(0), Some("a"));
    assert_eq!(a.insert("c"), 0);
    assert_eq!(a.values(), vec![&"c", &"b"]);
    assert_eq!(a.keys(), vec![0, 1]);
    assert_eq!(a.len(), 2);
}

#[test]
fn reuse_is_lifo() {
    let mut a = StableVec::new();
    a.insert('x');
    a.insert('y');
    a.insert('z');
    assert_eq!(a.remove(0), Some('x'));
    assert_eq!(a.remove(2), Some('z'));
    // the key removed last comes back first, then the one removed before it
    assert_eq!(a.insert('p'), 2);
    assert_eq!(a.insert('q'), 0);
    assert_eq!(a.len(), 3);
}

#[test]
fn remove_out_of_range_or_vacant_is_none() {
    let mut a = StableVec::new();
    a.insert(1u8);
    assert_eq!(a.remove(7), None);
    assert_eq!(a.remove(0), Some(1));
    // already vacant: no value, and no duplicate free-list entry
    assert_eq!(a.remove(0), None);
    assert_eq!(a.insert(2), 0);
    assert_eq!(a.insert(3), 1);
}

#[test]
fn insert_at_round_trip() {
    let mut a = StableVec::new();
    a.insert("a");
    a.insert("b");
    assert_eq!(a.remove(0), Some("a"));
    assert_eq!(a.len(), 1);
    // vacant, in range: occupies the slot and takes key 0 off the free list
    assert_eq!(a.insert_at(0, "v"), None);
    assert_eq!(a.get(0), Some(&"v"));
    assert_eq!(a.len(), 2);
    // key 0 no longer free, so a plain insert appends
    assert_eq!(a.insert("new"), 2);
    // overwriting again returns the previous value and keeps the length
    assert_eq!(a.insert_at(0, "w"), Some("v"));
    assert_eq!(a.get(0), Some(&"w"));
    assert_eq!(a.len(), 3);
}

#[test]
fn push_back_ignores_free_list() {
    let mut a = StableVec::new();
    a.insert(1);
    a.insert(2);
    a.remove(0);
    // a plain insert would reuse key 0; push_back must append
    assert_eq!(a.push_back(3), 2);
    assert_eq!(a.get(0), None);
    assert_eq!(a.get(2), Some(&3));
    assert_eq!(a.len(), 2);
}

#[test]
fn get_mut_and_index_access() {
    let mut a = StableVec::new();
    let k = a.insert(String::from("alpha"));
    if let Some(v) = a.get_mut(k) {
        v.push_str("!");
    }
    assert_eq!(a.get(k), Some(&String::from("alpha!")));
    assert_eq!(a.index(k), &String::from("alpha!"));
    *a.index_mut(k) = String::from("beta");
    assert_eq!(a.get(k), Some(&String::from("beta")));
    assert_eq!(a.get_mut(5), None);
    a.remove(k);
    assert_eq!(a.get_mut(k), None);
}

#[test]
fn len_matches_iteration() {
    let mut a = StableVec::new();
    for i in 0..6 {
        a.insert(i);
    }
    a.remove(1);
    a.remove(4);
    assert_eq!(a.len(), 4);
    assert_eq!(a.iter().len(), 4);
    assert_eq!(a.keys(), vec![0, 2, 3, 5]);
    assert_eq!(a.values(), vec![&0, &2, &3, &5]);
    let pairs: Vec<(usize, &i32)> = a.iter();
    assert_eq!(pairs, vec![(0, &0), (2, &2), (3, &3), (5, &5)]);
}

#[test]
fn drain_all_yields_occupied_pairs_and_resets() {
    let mut a = StableVec::new();
    a.insert("a");
    a.insert("b");
    a.insert("c");
    a.remove(1);
    let drained = a.drain_all();
    assert_eq!(drained, vec![(0, "a"), (2, "c")]);
    assert_eq!(a.len(), 0);
    assert!(a.is_empty());
    assert_eq!(a.get(0), None);
    // size is back to 0: a fresh insert starts at key 0 again
    assert_eq!(a.insert("d"), 0);
}

#[test]
fn from_values_inserts_in_order() {
    let a = StableVec::from_values(vec![7, 8, 9]);
    assert_eq!(a.len(), 3);
    assert_eq!(a.keys(), vec![0, 1, 2]);
    assert_eq!(a.values(), vec![&7, &8, &9]);
}

#[test]
fn equality_compares_overlapping_prefix_only() {
    // Deliberate, documented behavior: arenas of different sizes compare
    // equal when the overlapping prefix matches — the trailing slots of the
    // larger arena are never examined.
    let a = StableVec::from_values(vec![1, 2, 3]);
    let b = StableVec::from_values(vec![1, 2]);
    assert!(a == b);
    assert!(b == a);
    let c = StableVec::from_values(vec![1, 9]);
    assert!(a != c);
    let empty: StableVec<i32> = StableVec::new();
    // the overlap with an empty arena is empty, so everything equals it
    assert!(empty == a);
}

#[test]
fn equality_sees_vacancies() {
    let mut a = StableVec::from_values(vec![1, 2]);
    let b = StableVec::from_values(vec![1, 2]);
    assert!(a == b);
    a.remove(0);
    assert!(a != b);
    let mut b2 = StableVec::from_values(vec![1, 2]);
    b2.remove(0);
    assert!(a == b2);
}

#[test]
fn clone_preserves_contents() {
    let mut a = StableVec::new();
    a.insert(String::from("x"));
    a.insert(String::from("y"));
    a.remove(0);
    let c = a.clone();
    assert!(a == c);
    assert_eq!(c.get(1), Some(&String::from("y")));
    assert_eq!(c.len(), 1);
}
