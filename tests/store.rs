use clarity::store::RollbackStore;

#[test]
fn rollback_restores_the_contents_at_begin() {
    let mut s = RollbackStore::new();
    s.put(b"bar", b"0");
    s.begin();
    s.put(b"bar", b"1");
    s.put(b"baz", b"2");
    assert_eq!(s.get(b"bar"), Some(b"1".to_vec()));
    s.rollback();
    assert_eq!(s.get(b"bar"), Some(b"0".to_vec()));
    assert_eq!(s.get(b"baz"), None);
    assert_eq!(s.depth(), 0);
}

#[test]
fn committed_inner_writes_are_undone_by_the_outer_rollback() {
    let mut s = RollbackStore::new();
    s.begin();
    s.put(b"k", b"a");
    s.begin();
    s.put(b"k", b"b");
    s.commit();
    assert_eq!(s.get(b"k"), Some(b"b".to_vec()));
    s.rollback();
    assert_eq!(s.get(b"k"), None);
}

#[test]
fn failed_or_aborted_calls_leave_no_writes() {
    let mut s = RollbackStore::new();
    s.put(b"bar", b"1");
    // a call that fails
    s.begin();
    s.put(b"bar", b"10");
    s.finish_transaction(false, false);
    assert_eq!(s.get(b"bar"), Some(b"1".to_vec()));
    // a call that succeeds but is aborted by the caller
    s.begin();
    s.put(b"bar", b"10");
    s.finish_transaction(true, true);
    assert_eq!(s.get(b"bar"), Some(b"1".to_vec()));
    // a call that succeeds
    s.begin();
    s.put(b"bar", b"10");
    s.finish_transaction(true, false);
    assert_eq!(s.get(b"bar"), Some(b"10".to_vec()));
}
