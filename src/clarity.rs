//! The block envelope: one block at a time works on the store, under a cost
//! budget, and ends by committing or rolling back all it wrote.
use vstd::prelude::*;
use crate::costs::{CostErrors, ExecutionCost, LimitedCostTracker};
use crate::errors::ParseErrors;
use crate::interpreter::EvalError;
use crate::maps::CheckErrors;
use crate::store::RollbackStore;

verus! {

/// Owns the store between blocks.
pub struct ClarityInstance {
    datastore: Option<RollbackStore>,
}

/// A block in progress: it holds the store and the block's cost tracker
/// until it is committed or rolled back.
pub struct ClarityBlockConnection {
    datastore: RollbackStore,
    cost_track: LimitedCostTracker,
    /// What the store held when the block began.
    before: Ghost<Map<Seq<u8>, Seq<u8>>>,
}

impl ClarityInstance {
    /// Whether no block is open.
    pub closed spec fn idle(&self) -> bool {
        self.datastore is Some
    }

    /// What the store holds (meaningful while no block is open).
    pub closed spec fn contents(&self) -> Map<Seq<u8>, Seq<u8>> {
        self.datastore->Some_0.contents()
    }

    pub closed spec fn wf(&self) -> bool {
        self.datastore matches Some(s) ==> s.wf() && s.opened_at().len() == 0
    }

    /// An instance over an empty store.
    pub fn new() -> (r: ClarityInstance)
        ensures
            r.wf(),
            r.idle(),
            r.contents() == Map::<Seq<u8>, Seq<u8>>::empty(),
    {
        ClarityInstance { datastore: Some(RollbackStore::new()) }
    }

    /// Gives up the store; no block may be open.
    pub fn destroy(self) -> (r: RollbackStore)
        requires
            self.wf(),
            self.idle(),
        ensures
            r.wf(),
            r.contents() == self.contents(),
            r.opened_at().len() == 0,
    {
        self.datastore.unwrap()
    }

    /// Opens a block with no cost limit. Only one block may be open.
    pub fn begin_block(&mut self) -> (r: ClarityBlockConnection)
        requires
            old(self).wf(),
            old(self).idle(),
        ensures
            final(self).wf(),
            !final(self).idle(),
            r.wf(),
            r.contents() == old(self).contents(),
            r.contents_before() == old(self).contents(),
            r.cost_total() == crate::costs::zero_cost(),
    {
        self.begin_block_with_limit(ExecutionCost::max_value())
    }

    /// Opens a block whose costs may not pass `limit`. Only one block may
    /// be open.
    pub fn begin_block_with_limit(&mut self, limit: ExecutionCost) -> (r: ClarityBlockConnection)
        requires
            old(self).wf(),
            old(self).idle(),
        ensures
            final(self).wf(),
            !final(self).idle(),
            r.wf(),
            r.contents() == old(self).contents(),
            r.contents_before() == old(self).contents(),
            r.cost_total() == crate::costs::zero_cost(),
            r.cost_limit() == limit,
    {
        let mut datastore = self.datastore.take().unwrap();
        let ghost c = datastore.contents();
        datastore.begin();
        ClarityBlockConnection { datastore, cost_track: LimitedCostTracker::new(limit), before: Ghost(c) }
    }
}

impl ClarityBlockConnection {
    pub closed spec fn wf(&self) -> bool {
        &&& self.datastore.wf()
        &&& self.datastore.opened_at().len() == 1
        &&& self.datastore.opened_at()[0] == self.before@
    }

    /// What the store holds now, inside the block.
    pub closed spec fn contents(&self) -> Map<Seq<u8>, Seq<u8>> {
        self.datastore.contents()
    }

    /// What the store held when the block began.
    pub closed spec fn contents_before(&self) -> Map<Seq<u8>, Seq<u8>> {
        self.before@
    }

    pub closed spec fn cost_total(&self) -> ExecutionCost {
        self.cost_track.spec_total()
    }

    pub closed spec fn cost_limit(&self) -> ExecutionCost {
        self.cost_track.spec_limit()
    }

    /// Writes `value` under `key` within the block.
    pub fn put(&mut self, key: &[u8], value: &[u8])
        requires
            old(self).wf(),
        ensures
            final(self).wf(),
            final(self).contents() == old(self).contents().insert(key@, value@),
            final(self).contents_before() == old(self).contents_before(),
    {
        self.datastore.put(key, value);
    }

    /// The value under `key` within the block.
    pub fn get(&self, key: &[u8]) -> (r: Option<Vec<u8>>)
        requires
            self.wf(),
        ensures
            r is Some <==> self.contents().contains_key(key@),
            r matches Some(v) ==> v@ == self.contents()[key@],
    {
        self.datastore.get(key)
    }

    /// Opens a transaction inside the block, for one contract call.
    pub fn begin_transaction(&mut self)
        requires
            old(self).wf(),
        ensures
            final(self).in_transaction(),
            final(self).contents() == old(self).contents(),
            final(self).transaction_start() == old(self).contents(),
            final(self).contents_before() == old(self).contents_before(),
    {
        let ghost o = self.datastore.opened_at();
        let ghost c = self.datastore.contents();
        self.datastore.begin();
        assert(self.datastore.opened_at() =~= seq![self.before@, c]) by {
            assert(o =~= seq![self.before@]);
        }
    }

    /// Whether a transaction is open inside the block.
    pub closed spec fn in_transaction(&self) -> bool {
        &&& self.datastore.wf()
        &&& self.datastore.opened_at().len() == 2
        &&& self.datastore.opened_at()[0] == self.before@
    }

    /// What the store held when the open transaction began.
    pub closed spec fn transaction_start(&self) -> Map<Seq<u8>, Seq<u8>> {
        self.datastore.opened_at()[1]
    }

    /// Writes inside the open transaction.
    pub fn put_in_transaction(&mut self, key: &[u8], value: &[u8])
        requires
            old(self).in_transaction(),
        ensures
            final(self).in_transaction(),
            final(self).contents() == old(self).contents().insert(key@, value@),
            final(self).transaction_start() == old(self).transaction_start(),
            final(self).contents_before() == old(self).contents_before(),
    {
        self.datastore.put(key, value);
    }

    /// The value under `key` inside the open transaction.
    pub fn get_in_transaction(&self, key: &[u8]) -> (r: Option<Vec<u8>>)
        requires
            self.in_transaction(),
        ensures
            r is Some <==> self.contents().contains_key(key@),
            r matches Some(v) ==> v@ == self.contents()[key@],
    {
        self.datastore.get(key)
    }

    /// Ends the open transaction: its writes stay only when the call
    /// succeeded and the caller's abort check did not ask to drop them.
    pub fn finish_transaction(&mut self, succeeded: bool, abort: bool)
        requires
            old(self).in_transaction(),
        ensures
            final(self).wf(),
            final(self).contents_before() == old(self).contents_before(),
            succeeded && !abort ==> final(self).contents() == old(self).contents(),
            !succeeded || abort ==> final(self).contents() == old(self).transaction_start(),
    {
        self.datastore.finish_transaction(succeeded, abort);
    }

    /// Charges `cost` to the block's budget.
    pub fn charge(&mut self, cost: ExecutionCost) -> (r: Result<(), crate::costs::CostErrors>)
        requires
            old(self).wf(),
        ensures
            final(self).wf(),
            final(self).contents() == old(self).contents(),
            final(self).contents_before() == old(self).contents_before(),
            r is Ok <==> crate::costs::charge_ok(old(self).cost_total(), cost, old(self).cost_limit()),
    {
        self.cost_track.add_cost(cost)
    }

    /// Keeps every write of the block and hands the store back to
    /// `parent`; returns the block's cost tracker.
    pub fn commit_block(self, parent: &mut ClarityInstance) -> (r: LimitedCostTracker)
        requires
            self.wf(),
            old(parent).wf(),
            !old(parent).idle(),
        ensures
            final(parent).wf(),
            final(parent).idle(),
            final(parent).contents() == self.contents(),
            r.spec_total() == self.cost_total(),
    {
        let ClarityBlockConnection { mut datastore, cost_track, before: _ } = self;
        datastore.commit();
        parent.datastore = Some(datastore);
        cost_track
    }

    /// Drops every write of the block and hands the store back to
    /// `parent`, holding exactly what it held when the block began.
    pub fn rollback_block(self, parent: &mut ClarityInstance)
        requires
            self.wf(),
            old(parent).wf(),
            !old(parent).idle(),
        ensures
            final(parent).wf(),
            final(parent).idle(),
            final(parent).contents() == self.contents_before(),
    {
        let ClarityBlockConnection { mut datastore, cost_track: _, before: _ } = self;
        datastore.rollback();
        parent.datastore = Some(datastore);
    }
}


/// Why a block-level operation failed. Cost failures of any stage are
/// reported as `CostError(total, limit)`, so callers need not look inside.
#[derive(Debug, PartialEq, Eq)]
pub enum Error {
    Analysis(CheckErrors),
    Parse(ParseErrors),
    Interpreter(EvalError),
    BadTransaction(Vec<u8>),
    CostError(ExecutionCost, ExecutionCost),
}

/// Every part at `u64::MAX`: what an overflowing cost is reported as.
pub open spec fn max_cost() -> ExecutionCost {
    ExecutionCost { write_length: u64::MAX, write_count: u64::MAX, read_length: u64::MAX, read_count: u64::MAX, runtime: u64::MAX }
}

impl Error {
    /// A parse failure, with its cost failures promoted to `CostError`.
    pub fn from_parse(e: ParseErrors) -> (r: Error)
        ensures
            match e {
                ParseErrors::CostBalanceExceeded(total, limit) => r == Error::CostError(total, limit),
                ParseErrors::CostOverflow => r == Error::CostError(max_cost(), max_cost()),
                _ => r == Error::Parse(e),
            },
    {
        match e {
            ParseErrors::CostBalanceExceeded(total, limit) => Error::CostError(total, limit),
            ParseErrors::CostOverflow => Error::CostError(ExecutionCost::max_value(), ExecutionCost::max_value()),
            other => Error::Parse(other),
        }
    }

    /// A cost failure as `CostError`.
    pub fn from_cost(e: CostErrors) -> (r: Error)
        ensures
            match e {
                CostErrors::CostBalanceExceeded(total, limit) => r == Error::CostError(total, limit),
                CostErrors::CostOverflow => r == Error::CostError(max_cost(), max_cost()),
            },
    {
        match e {
            CostErrors::CostBalanceExceeded(total, limit) => Error::CostError(total, limit),
            CostErrors::CostOverflow => Error::CostError(ExecutionCost::max_value(), ExecutionCost::max_value()),
        }
    }

    /// A type-checking failure.
    pub fn from_check(e: CheckErrors) -> (r: Error)
        ensures
            r == Error::Analysis(e),
    {
        Error::Analysis(e)
    }

    /// An evaluation failure.
    pub fn from_eval(e: EvalError) -> (r: Error)
        ensures
            r == Error::Interpreter(e),
    {
        Error::Interpreter(e)
    }
}

} // verus!
