//! Cost metering: a five-part cost vector charged against a budget.
use vstd::prelude::*;

verus! {

/// What a piece of work costs, or what a budget allows.
#[derive(Debug, Clone, Copy, PartialEq, Eq)]
pub struct ExecutionCost {
    pub write_length: u64,
    pub write_count: u64,
    pub read_length: u64,
    pub read_count: u64,
    pub runtime: u64,
}

/// Why a charge was refused.
#[derive(Debug, Clone, Copy, PartialEq, Eq)]
pub enum CostErrors {
    /// Some part of the running total would pass `u64::MAX`.
    CostOverflow,
    /// The running total (first) passed the limit (second).
    CostBalanceExceeded(ExecutionCost, ExecutionCost),
}

pub open spec fn zero_cost() -> ExecutionCost {
    ExecutionCost { write_length: 0, write_count: 0, read_length: 0, read_count: 0, runtime: 0 }
}

/// Whether adding `a` and `b` part by part stays within `u64`.
pub open spec fn fits(a: ExecutionCost, b: ExecutionCost) -> bool {
    &&& a.write_length + b.write_length <= u64::MAX
    &&& a.write_count + b.write_count <= u64::MAX
    &&& a.read_length + b.read_length <= u64::MAX
    &&& a.read_count + b.read_count <= u64::MAX
    &&& a.runtime + b.runtime <= u64::MAX
}

/// `a + b` part by part, when it fits.
pub open spec fn sum(a: ExecutionCost, b: ExecutionCost) -> ExecutionCost {
    ExecutionCost {
        write_length: (a.write_length + b.write_length) as u64,
        write_count: (a.write_count + b.write_count) as u64,
        read_length: (a.read_length + b.read_length) as u64,
        read_count: (a.read_count + b.read_count) as u64,
        runtime: (a.runtime + b.runtime) as u64,
    }
}

/// Whether some part of `a` is above the same part of `limit`.
pub open spec fn exceeds_spec(a: ExecutionCost, limit: ExecutionCost) -> bool {
    ||| a.write_length > limit.write_length
    ||| a.write_count > limit.write_count
    ||| a.read_length > limit.read_length
    ||| a.read_count > limit.read_count
    ||| a.runtime > limit.runtime
}

/// Whether charging `c` on a running total `t` under `limit` succeeds.
pub open spec fn charge_ok(t: ExecutionCost, c: ExecutionCost, limit: ExecutionCost) -> bool {
    fits(t, c) && !exceeds_spec(sum(t, c), limit)
}

impl ExecutionCost {
    pub fn zero() -> (r: ExecutionCost)
        ensures
            r == zero_cost(),
    {
        ExecutionCost { write_length: 0, write_count: 0, read_length: 0, read_count: 0, runtime: 0 }
    }

    /// Every part at `u64::MAX`: a budget that nothing exceeds.
    pub fn max_value() -> (r: ExecutionCost)
        ensures
            r.write_length == u64::MAX && r.write_count == u64::MAX && r.read_length == u64::MAX
                && r.read_count == u64::MAX && r.runtime == u64::MAX,
    {
        ExecutionCost {
            write_length: u64::MAX,
            write_count: u64::MAX,
            read_length: u64::MAX,
            read_count: u64::MAX,
            runtime: u64::MAX,
        }
    }

    pub fn runtime(runtime: u64) -> (r: ExecutionCost)
        ensures
            r == (ExecutionCost { runtime, ..zero_cost() }),
    {
        ExecutionCost { write_length: 0, write_count: 0, read_length: 0, read_count: 0, runtime }
    }

    /// Whether some part of this cost is above the same part of `limit`.
    pub fn exceeds(&self, limit: &ExecutionCost) -> (r: bool)
        ensures
            r == exceeds_spec(*self, *limit),
    {
        self.write_length > limit.write_length || self.write_count > limit.write_count
            || self.read_length > limit.read_length || self.read_count > limit.read_count
            || self.runtime > limit.runtime
    }

    /// The part-by-part sum, or `None` when a part would pass `u64::MAX`.
    pub fn checked_sum(&self, other: &ExecutionCost) -> (r: Option<ExecutionCost>)
        ensures
            r is Some <==> fits(*self, *other),
            r matches Some(c) ==> c == sum(*self, *other),
    {
        let wl = match self.write_length.checked_add(other.write_length) {
            Some(x) => x,
            None => return None,
        };
        let wc = match self.write_count.checked_add(other.write_count) {
            Some(x) => x,
            None => return None,
        };
        let rl = match self.read_length.checked_add(other.read_length) {
            Some(x) => x,
            None => return None,
        };
        let rc = match self.read_count.checked_add(other.read_count) {
            Some(x) => x,
            None => return None,
        };
        let rt = match self.runtime.checked_add(other.runtime) {
            Some(x) => x,
            None => return None,
        };
        Some(ExecutionCost { write_length: wl, write_count: wc, read_length: rl, read_count: rc, runtime: rt })
    }
}

/// A running total of costs with a limit it may not pass.
#[derive(Debug)]
pub struct LimitedCostTracker {
    total: ExecutionCost,
    limit: ExecutionCost,
}

impl LimitedCostTracker {
    pub closed spec fn spec_total(&self) -> ExecutionCost {
        self.total
    }

    pub closed spec fn spec_limit(&self) -> ExecutionCost {
        self.limit
    }

    /// A tracker with nothing charged yet.
    pub fn new(limit: ExecutionCost) -> (r: LimitedCostTracker)
        ensures
            r.spec_total() == zero_cost(),
            r.spec_limit() == limit,
    {
        LimitedCostTracker { total: ExecutionCost::zero(), limit }
    }

    /// A tracker whose limit is `u64::MAX` in every part.
    pub fn new_max_limit() -> (r: LimitedCostTracker)
        ensures
            r.spec_total() == zero_cost(),
            r.spec_limit() == (ExecutionCost {
                write_length: u64::MAX,
                write_count: u64::MAX,
                read_length: u64::MAX,
                read_count: u64::MAX,
                runtime: u64::MAX,
            }),
    {
        Self::new(ExecutionCost::max_value())
    }

    pub fn get_total(&self) -> (r: ExecutionCost)
        ensures
            r == self.spec_total(),
    {
        self.total
    }

    pub fn get_limit(&self) -> (r: ExecutionCost)
        ensures
            r == self.spec_limit(),
    {
        self.limit
    }

    /// Charges `cost`. On overflow nothing is charged; past the limit the
    /// charge stands and the new total is reported with the limit.
    pub fn add_cost(&mut self, cost: ExecutionCost) -> (r: Result<(), CostErrors>)
        ensures
            final(self).spec_limit() == old(self).spec_limit(),
            !fits(old(self).spec_total(), cost) ==> r == Err::<(), CostErrors>(CostErrors::CostOverflow)
                && final(self).spec_total() == old(self).spec_total(),
            fits(old(self).spec_total(), cost) ==> final(self).spec_total() == sum(old(self).spec_total(), cost),
            fits(old(self).spec_total(), cost) && exceeds_spec(sum(old(self).spec_total(), cost), old(self).spec_limit())
                ==> r == Err::<(), CostErrors>(
                CostErrors::CostBalanceExceeded(sum(old(self).spec_total(), cost), old(self).spec_limit()),
            ),
            r is Ok <==> charge_ok(old(self).spec_total(), cost, old(self).spec_limit()),
    {
        match self.total.checked_sum(&cost) {
            None => Err(CostErrors::CostOverflow),
            Some(t) => {
                self.total = t;
                if t.exceeds(&self.limit) {
                    Err(CostErrors::CostBalanceExceeded(t, self.limit))
                } else {
                    Ok(())
                }
            },
        }
    }

    /// Charges `n` units of runtime.
    pub fn add_runtime(&mut self, n: u64) -> (r: Result<(), CostErrors>)
        ensures
            final(self).spec_limit() == old(self).spec_limit(),
            r is Ok <==> charge_ok(old(self).spec_total(), ExecutionCost::runtime_spec(n), old(self).spec_limit()),
            fits(old(self).spec_total(), ExecutionCost::runtime_spec(n)) ==> final(self).spec_total()
                == sum(old(self).spec_total(), ExecutionCost::runtime_spec(n)),
            !fits(old(self).spec_total(), ExecutionCost::runtime_spec(n)) ==> r == Err::<(), CostErrors>(CostErrors::CostOverflow)
                && final(self).spec_total() == old(self).spec_total(),
            fits(old(self).spec_total(), ExecutionCost::runtime_spec(n)) && !charge_ok(old(self).spec_total(), ExecutionCost::runtime_spec(n), old(self).spec_limit())
                ==> r == Err::<(), CostErrors>(CostErrors::CostBalanceExceeded(sum(old(self).spec_total(), ExecutionCost::runtime_spec(n)), old(self).spec_limit())),
    {
        self.add_cost(ExecutionCost::runtime(n))
    }

    /// Charges `count` reads of `length` bytes in all.
    pub fn add_read(&mut self, count: u64, length: u64) -> (r: Result<(), CostErrors>)
        ensures
            final(self).spec_limit() == old(self).spec_limit(),
            r is Ok <==> charge_ok(
                old(self).spec_total(),
                ExecutionCost { read_count: count, read_length: length, ..zero_cost() },
                old(self).spec_limit(),
            ),
    {
        self.add_cost(ExecutionCost { write_length: 0, write_count: 0, read_length: length, read_count: count, runtime: 0 })
    }

    /// Charges `count` writes of `length` bytes in all.
    pub fn add_write(&mut self, count: u64, length: u64) -> (r: Result<(), CostErrors>)
        ensures
            final(self).spec_limit() == old(self).spec_limit(),
            r is Ok <==> charge_ok(
                old(self).spec_total(),
                ExecutionCost { write_count: count, write_length: length, ..zero_cost() },
                old(self).spec_limit(),
            ),
    {
        self.add_cost(ExecutionCost { write_length: length, write_count: count, read_length: 0, read_count: 0, runtime: 0 })
    }
}

impl ExecutionCost {
    pub open spec fn runtime_spec(n: u64) -> ExecutionCost {
        ExecutionCost { runtime: n, ..zero_cost() }
    }
}

/// Charging `a` and then `b` succeeds exactly when charging `a + b` at once
/// does, and then leaves the same total.
pub proof fn lemma_charge_additive(t: ExecutionCost, a: ExecutionCost, b: ExecutionCost, limit: ExecutionCost)
    ensures
        (charge_ok(t, a, limit) && charge_ok(sum(t, a), b, limit)) <==> (fits(a, b) && charge_ok(t, sum(a, b), limit)),
        charge_ok(t, a, limit) && charge_ok(sum(t, a), b, limit) ==> sum(sum(t, a), b) == sum(t, sum(a, b)),
{
}

} // verus!
