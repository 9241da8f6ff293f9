use calvinite::lock_manager::LockManager;
use uuid::Uuid;

#[test]
fn single_txn_proceeds() {
    let mut lm = LockManager::new();

    let txn_uuid = Uuid::new_v4().as_u128();

    lm.put_txn(txn_uuid, vec![0]);

    assert_eq!(lm.pop_ready_txns(), vec![txn_uuid]);
}

#[test]
fn unrelated_txns_proceed() {
    let mut lm = LockManager::new();

    let txn1_uuid = Uuid::new_v4().as_u128();
    let txn2_uuid = Uuid::new_v4().as_u128();

    lm.put_txn(txn1_uuid, vec![1]);
    lm.put_txn(txn2_uuid, vec![2]);

    let mut ready = lm.pop_ready_txns();
    ready.sort();
    let mut expected = vec![txn1_uuid, txn2_uuid];
    expected.sort();
    assert_eq!(ready, expected);
}

#[test]
fn conflicting_txns_block_last() {
    let mut lm = LockManager::new();

    let txn1_uuid = Uuid::new_v4().as_u128();
    let txn2_uuid = Uuid::new_v4().as_u128();

    lm.put_txn(txn1_uuid, vec![1]);
    lm.put_txn(txn2_uuid, vec![1]);

    assert_eq!(lm.pop_ready_txns(), vec![txn1_uuid]);

    lm.complete_txn(txn1_uuid);

    assert_eq!(lm.pop_ready_txns(), vec![txn2_uuid]);

    lm.complete_txn(txn2_uuid);

    assert_eq!(lm.pop_ready_txns(), Vec::<u128>::new());
}

#[test]
fn head_is_the_only_holder_across_steps() {
    let mut lm = LockManager::new();
    lm.put_txn(1, vec![10, 11]);
    lm.put_txn(2, vec![11, 12]);
    lm.put_txn(3, vec![12]);
    assert_eq!(lm.pop_ready_txns(), vec![1]);
    assert!(lm.holds_all_locks(1));
    assert!(!lm.holds_all_locks(2));
    assert!(!lm.holds_all_locks(3));
    lm.complete_txn(1);
    assert_eq!(lm.pop_ready_txns(), vec![2]);
    assert!(!lm.holds_all_locks(3));
    lm.complete_txn(2);
    assert_eq!(lm.pop_ready_txns(), vec![3]);
    lm.complete_txn(3);
    assert!(!lm.is_tracked(3));
}

#[test]
fn later_conflicting_txn_waits_for_earlier() {
    let mut lm = LockManager::new();
    lm.put_txn(1, vec![5, 6]);
    lm.put_txn(2, vec![6]);
    lm.put_txn(3, vec![7]);
    let mut ready = lm.pop_ready_txns();
    ready.sort();
    assert_eq!(ready, vec![1, 3]);
    assert_eq!(lm.pop_ready_txns(), Vec::<u128>::new());
    lm.complete_txn(3);
    assert_eq!(lm.pop_ready_txns(), Vec::<u128>::new());
    lm.complete_txn(1);
    assert_eq!(lm.pop_ready_txns(), vec![2]);
}

#[test]
fn disjoint_txns_ready_in_either_order() {
    let mut a = LockManager::new();
    a.put_txn(1, vec![1]);
    a.put_txn(2, vec![2]);
    let mut ra = a.pop_ready_txns();
    ra.sort();
    let mut b = LockManager::new();
    b.put_txn(2, vec![2]);
    b.put_txn(1, vec![1]);
    let mut rb = b.pop_ready_txns();
    rb.sort();
    assert_eq!(ra, vec![1, 2]);
    assert_eq!(rb, vec![1, 2]);
}

#[test]
fn repeated_record_is_locked_once() {
    let mut lm = LockManager::new();
    lm.put_txn(1, vec![4, 4]);
    assert_eq!(lm.pop_ready_txns(), vec![1]);
    lm.put_txn(2, vec![4]);
    assert_eq!(lm.pop_ready_txns(), Vec::<u128>::new());
    lm.complete_txn(1);
    assert_eq!(lm.pop_ready_txns(), vec![2]);
}

#[test]
fn txn_with_no_records_is_ready_at_once() {
    let mut lm = LockManager::new();
    lm.put_txn(9, vec![]);
    assert_eq!(lm.pop_ready_txns(), vec![9]);
    assert!(lm.holds_all_locks(9));
    lm.complete_txn(9);
    assert!(!lm.is_tracked(9));
}
