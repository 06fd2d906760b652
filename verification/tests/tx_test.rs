use wasdb::tx::{TransactionError, TransactionManager, TransactionState, FIRST_NORMAL_TXN_ID, INVALID_TXN_ID};

#[test]
fn begin_should_assign_monotonically_increasing_xids() {
    let mut tm = TransactionManager::new();

    let t1 = tm.begin();
    let t2 = tm.begin();

    assert_eq!(t1, FIRST_NORMAL_TXN_ID);
    assert_eq!(t2, FIRST_NORMAL_TXN_ID + 1);
    assert_eq!(tm.get_state(t1), TransactionState::Active);
}

#[test]
fn commit_should_make_transaction_committed() {
    let mut tm = TransactionManager::new();
    let t1 = tm.begin();

    tm.commit(t1).unwrap();

    assert_eq!(tm.get_state(t1), TransactionState::Committed);
}

#[test]
fn is_visible_should_hide_uncommitted_inserts() {
    let mut tm = TransactionManager::new();
    let t_creator = tm.begin();
    let t_reader = tm.begin();

    let visible = tm.is_visible(t_creator, INVALID_TXN_ID, t_reader);

    assert!(!visible);
}

#[test]
fn is_visible_should_show_committed_inserts() {
    let mut tm = TransactionManager::new();
    let t_creator = tm.begin();
    let t_reader = tm.begin();
    tm.commit(t_creator).unwrap();

    let visible = tm.is_visible(t_creator, INVALID_TXN_ID, t_reader);

    assert!(visible);
}

#[test]
fn is_visible_should_hide_committed_deletes() {
    let mut tm = TransactionManager::new();
    let t_creator = tm.begin();
    let t_deleter = tm.begin();
    let t_reader = tm.begin();

    tm.commit(t_creator).unwrap();
    tm.commit(t_deleter).unwrap();

    let visible = tm.is_visible(t_creator, t_deleter, t_reader);

    assert!(!visible);
}

#[test]
fn committing_or_aborting_an_unknown_transaction_fails() {
    let mut tm = TransactionManager::new();
    assert!(matches!(tm.commit(99), Err(TransactionError::NotFound(99))));
    assert!(matches!(tm.abort(99), Err(TransactionError::NotFound(99))));
    let t = tm.begin();
    tm.commit(t).unwrap();
    // a committed transaction is no longer active: committing again fails, the state stays
    assert!(matches!(tm.commit(t), Err(TransactionError::NotFound(_))));
    assert!(matches!(tm.abort(t), Err(TransactionError::NotFound(_))));
    assert_eq!(tm.get_state(t), TransactionState::Committed);
}

#[test]
fn aborted_transactions_are_aborted_and_their_inserts_invisible() {
    let mut tm = TransactionManager::new();
    let t_creator = tm.begin();
    let t_reader = tm.begin();
    tm.abort(t_creator).unwrap();
    assert_eq!(tm.get_state(t_creator), TransactionState::Aborted);
    assert!(!tm.is_visible(t_creator, INVALID_TXN_ID, t_reader));
}

#[test]
fn own_inserts_are_visible_and_own_deletes_hide() {
    let mut tm = TransactionManager::new();
    let t = tm.begin();
    assert!(tm.is_visible(t, INVALID_TXN_ID, t));
    assert!(!tm.is_visible(t, t, t));
}

#[test]
fn uncommitted_deletes_of_others_do_not_hide() {
    let mut tm = TransactionManager::new();
    let t_creator = tm.begin();
    let t_deleter = tm.begin();
    let t_reader = tm.begin();
    tm.commit(t_creator).unwrap();
    assert!(tm.is_visible(t_creator, t_deleter, t_reader));
}

#[test]
fn transactions_neither_committed_nor_aborted_count_as_active() {
    let tm = TransactionManager::new();
    assert_eq!(tm.get_state(12345), TransactionState::Active);
}
