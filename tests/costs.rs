use clarity::costs::{CostErrors, ExecutionCost, LimitedCostTracker};

fn limit_runtime(n: u64) -> ExecutionCost {
    ExecutionCost { runtime: n, ..ExecutionCost::max_value() }
}

#[test]
fn charges_accumulate() {
    let mut t = LimitedCostTracker::new_max_limit();
    t.add_runtime(5).unwrap();
    t.add_read(2, 30).unwrap();
    t.add_write(1, 7).unwrap();
    assert_eq!(t.get_total(), ExecutionCost { write_length: 7, write_count: 1, read_length: 30, read_count: 2, runtime: 5 });
}

#[test]
fn two_charges_equal_one_sum() {
    let mut a = LimitedCostTracker::new(limit_runtime(100));
    a.add_runtime(30).unwrap();
    a.add_runtime(45).unwrap();
    let mut b = LimitedCostTracker::new(limit_runtime(100));
    b.add_runtime(75).unwrap();
    assert_eq!(a.get_total(), b.get_total());
}

#[test]
fn budget_excess_is_reported_with_total_and_limit() {
    let mut t = LimitedCostTracker::new(limit_runtime(100));
    t.add_runtime(60).unwrap();
    match t.add_runtime(60) {
        Err(CostErrors::CostBalanceExceeded(total, limit)) => {
            assert_eq!(total.runtime, 120);
            assert_eq!(limit.runtime, 100);
        }
        other => panic!("unexpected {:?}", other),
    }
}

#[test]
fn overflow_is_refused_and_charges_nothing() {
    let mut t = LimitedCostTracker::new_max_limit();
    t.add_runtime(u64::MAX).unwrap();
    assert_eq!(t.add_runtime(1), Err(CostErrors::CostOverflow));
    assert_eq!(t.get_total().runtime, u64::MAX);
}
