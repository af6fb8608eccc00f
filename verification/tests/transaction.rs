use stable_vec::arena::StableVec;

#[test]
fn rollback_restores_pre_transaction_state() {
    let mut a = StableVec::new();
    let k2 = a.insert(String::from("old"));
    let pre = a.clone();

    let mut tx = a.transaction();
    let k = tx.insert(String::from("x"));
    assert_eq!(tx.insert_at(k2, String::from("y")), Some(&String::from("old")));
    assert_eq!(tx.get(k2), Some(&String::from("y")));

    let a = tx.rollback();
    assert!(a == pre);
    assert_eq!(a.get(k2), Some(&String::from("old")));
    assert!(!a.contains_key(k));
    assert_eq!(a.len(), 1);
}

#[test]
fn rollback_inverts_removals() {
    let mut a = StableVec::new();
    a.insert(10);
    a.insert(20);
    a.insert(30);
    let pre = a.clone();

    let mut tx = a.transaction();
    assert_eq!(tx.remove(1), Some(&20));
    assert_eq!(tx.remove(2), Some(&30));
    assert_eq!(tx.len(), 1);
    assert_eq!(tx.remove(1), None);

    let a = tx.rollback();
    assert!(a == pre);
    assert_eq!(a.get(1), Some(&20));
    assert_eq!(a.get(2), Some(&30));
    assert_eq!(a.len(), 3);
}

#[test]
fn rollback_inverts_mixed_batch() {
    let mut a = StableVec::new();
    a.insert(1);
    a.insert(2);
    a.remove(0);
    let pre = a.clone();

    let mut tx = a.transaction();
    tx.insert(3); // reuses key 0
    tx.push_back(4); // appends key 2
    tx.insert(5); // appends key 3
    tx.remove(1);
    tx.insert_at(1, 6);
    assert_eq!(tx.len(), 4);

    let a = tx.rollback();
    assert!(a == pre);
    assert_eq!(a.len(), 1);
    assert_eq!(a.get(0), None);
    assert_eq!(a.get(1), Some(&2));
    assert_eq!(a.get(2), None);
    assert_eq!(a.get(3), None);
    // vacated slots are free again: inserting occupies them, not new ones
    let mut a = a;
    let k = a.insert(7);
    assert!(k < 4);
}

#[test]
fn commit_keeps_the_batch() {
    let mut a = StableVec::new();
    a.insert("a");
    let mut tx = a.transaction();
    let k = tx.insert("b");
    tx.remove(0);
    let a = tx.commit();
    assert_eq!(a.get(k), Some(&"b"));
    assert_eq!(a.get(0), None);
    assert_eq!(a.len(), 1);
}

#[test]
fn transaction_passthrough_reads() {
    let mut a = StableVec::new();
    a.insert(5);
    a.insert(6);
    let tx = a.transaction();
    assert_eq!(tx.len(), 2);
    assert_eq!(tx.get(0), Some(&5));
    assert_eq!(tx.get(9), None);
    assert!(tx.contains_key(1));
    assert!(!tx.contains_key(2));
    let _ = tx.commit();
}

#[test]
fn with_transaction_rolls_back_on_err() {
    let mut a = StableVec::new();
    a.insert(String::from("keep"));
    let pre = a.clone();
    let r: Result<(), &str> = a.with_transaction(|mut tx| {
        tx.insert(String::from("doomed"));
        tx.remove(0);
        (tx, Err("boom"))
    });
    assert_eq!(r, Err("boom"));
    assert!(a == pre);
    assert_eq!(a.get(0), Some(&String::from("keep")));
    assert_eq!(a.len(), 1);
}

#[test]
fn with_transaction_commits_on_ok() {
    let mut a = StableVec::new();
    a.insert(String::from("keep"));
    let r: Result<usize, ()> = a.with_transaction(|mut tx| {
        let k = tx.insert(String::from("kept too"));
        (tx, Ok(k))
    });
    assert_eq!(r, Ok(1));
    assert_eq!(a.get(1), Some(&String::from("kept too")));
    assert_eq!(a.len(), 2);
}
