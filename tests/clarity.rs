use clarity::clarity::{ClarityInstance, Error};
use clarity::errors::ParseErrors;
use clarity::costs::{CostErrors, ExecutionCost};

#[test]
fn rolled_back_block_leaves_nothing() {
    let mut instance = ClarityInstance::new();
    let mut conn = instance.begin_block();
    conn.put(b"contract:foo", b"(define-public (foo (x int)) (ok (+ x x)))");
    assert!(conn.get(b"contract:foo").is_some());
    conn.rollback_block(&mut instance);
    let conn = instance.begin_block();
    assert_eq!(conn.get(b"contract:foo"), None);
    conn.rollback_block(&mut instance);
}

#[test]
fn committed_block_is_seen_by_the_next() {
    let mut instance = ClarityInstance::new();
    let mut conn = instance.begin_block();
    conn.put(b"bar", b"0");
    let costs = conn.commit_block(&mut instance);
    assert_eq!(costs.get_total(), ExecutionCost::zero());
    let conn = instance.begin_block();
    assert_eq!(conn.get(b"bar"), Some(b"0".to_vec()));
    conn.rollback_block(&mut instance);
}

#[test]
fn failed_calls_roll_back_within_a_block() {
    let mut instance = ClarityInstance::new();
    let mut conn = instance.begin_block();
    conn.put(b"bar", b"1");
    // a call that errs (a division by zero, say) keeps nothing
    conn.begin_transaction();
    conn.put_in_transaction(b"bar", b"10");
    conn.finish_transaction(false, false);
    assert_eq!(conn.get(b"bar"), Some(b"1".to_vec()));
    // a call aborted by the caller keeps nothing
    conn.begin_transaction();
    conn.put_in_transaction(b"bar", b"10");
    conn.finish_transaction(true, true);
    assert_eq!(conn.get(b"bar"), Some(b"1".to_vec()));
    conn.commit_block(&mut instance);
}

#[test]
fn block_budget_is_enforced() {
    let mut instance = ClarityInstance::new();
    let limit = ExecutionCost { runtime: 100, ..ExecutionCost::max_value() };
    let mut conn = instance.begin_block_with_limit(limit);
    conn.charge(ExecutionCost::runtime(60)).unwrap();
    match conn.charge(ExecutionCost::runtime(60)) {
        Err(CostErrors::CostBalanceExceeded(total, limit)) => {
            assert!(total.runtime > 100);
            assert_eq!(limit.runtime, 100);
        }
        other => panic!("unexpected {:?}", other),
    }
    conn.rollback_block(&mut instance);
}

#[test]
fn destroyed_instance_hands_back_the_store() {
    let mut instance = ClarityInstance::new();
    let mut conn = instance.begin_block();
    conn.put(b"k", b"v");
    conn.commit_block(&mut instance);
    let store = instance.destroy();
    assert_eq!(store.get(b"k"), Some(b"v".to_vec()));
    assert_eq!(store.depth(), 0);
}

#[test]
fn cost_failures_are_promoted() {
    let limit = ExecutionCost { runtime: 100, ..ExecutionCost::max_value() };
    let total = ExecutionCost { runtime: 120, ..ExecutionCost::zero() };
    assert_eq!(Error::from_parse(ParseErrors::CostBalanceExceeded(total, limit)), Error::CostError(total, limit));
    assert_eq!(Error::from_cost(CostErrors::CostOverflow), Error::CostError(ExecutionCost::max_value(), ExecutionCost::max_value()));
    assert_eq!(Error::from_parse(ParseErrors::ClosingParenthesisExpected), Error::Parse(ParseErrors::ClosingParenthesisExpected));
}
