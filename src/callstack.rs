//! The stack of active function calls: bounded in depth, and refusing a
//! user function that is already running (contracts may not recurse).
use vstd::prelude::*;
use crate::names::slice_to_vec;
use crate::types::compare_bytes;

verus! {

/// Deepest nesting of calls allowed.
pub const MAX_CALL_STACK_DEPTH: usize = 64;

/// Why a call could not start or end.
#[derive(Debug, Clone, Copy, PartialEq, Eq)]
pub enum CallError {
    /// The user function is already running further down the stack.
    CircularReference,
    /// The stack already holds `MAX_CALL_STACK_DEPTH` calls.
    MaxStackDepthReached,
    /// The call being ended is not the innermost one.
    BadFunctionName,
}

/// The active calls, outermost first; each with whether it is tracked for
/// recursion.
pub struct CallStack {
    stack: Vec<(Vec<u8>, bool)>,
}

pub open spec fn tracked_contains(s: Seq<(Seq<u8>, bool)>, id: Seq<u8>) -> bool {
    exists|i: int| 0 <= i < s.len() && s[i].1 && #[trigger] s[i].0 == id
}

impl CallStack {
    pub closed spec fn view(&self) -> Seq<(Seq<u8>, bool)> {
        Seq::new(self.stack@.len(), |i: int| (self.stack@[i].0@, self.stack@[i].1))
    }

    pub fn new() -> (r: CallStack)
        ensures
            r.view() == Seq::<(Seq<u8>, bool)>::empty(),
    {
        let r = CallStack { stack: Vec::new() };
        assert(r.view() =~= Seq::<(Seq<u8>, bool)>::empty());
        r
    }

    /// How many calls are active.
    pub fn depth(&self) -> (r: usize)
        ensures
            r == self.view().len(),
    {
        self.stack.len()
    }

    /// Whether `id` is an active tracked call.
    pub fn contains(&self, id: &[u8]) -> (r: bool)
        ensures
            r == tracked_contains(self.view(), id@),
    {
        let mut i: usize = 0;
        while i < self.stack.len()
            invariant
                i <= self.stack@.len(),
                forall|j: int| 0 <= j < i ==> !(self.view()[j].1 && #[trigger] self.view()[j].0 == id@),
            decreases self.stack@.len() - i,
        {
            if self.stack[i].1 && compare_bytes(self.stack[i].0.as_slice(), id) == 0 {
                assert(self.view()[i as int].0 == id@);
                return true;
            }
            i = i + 1;
        }
        false
    }

    /// Starts a call of `id`: a user function is refused while it already
    /// runs, and no call starts once `MAX_CALL_STACK_DEPTH` are active.
    pub fn enter(&mut self, id: &[u8], user_function: bool) -> (r: Result<(), CallError>)
        ensures
            user_function && tracked_contains(old(self).view(), id@) ==> r == Err::<(), CallError>(CallError::CircularReference),
            !(user_function && tracked_contains(old(self).view(), id@)) && old(self).view().len() >= MAX_CALL_STACK_DEPTH
                ==> r == Err::<(), CallError>(CallError::MaxStackDepthReached),
            r is Ok ==> final(self).view() == old(self).view().push((id@, user_function)),
            r is Err ==> final(self).view() == old(self).view(),
            r is Ok ==> final(self).view().len() <= MAX_CALL_STACK_DEPTH,
            !(user_function && tracked_contains(old(self).view(), id@)) && old(self).view().len() < MAX_CALL_STACK_DEPTH ==> r is Ok,
    {
        if user_function && self.contains(id) {
            return Err(CallError::CircularReference);
        }
        if self.stack.len() >= MAX_CALL_STACK_DEPTH {
            return Err(CallError::MaxStackDepthReached);
        }
        let ghost v = self.view();
        self.stack.push((slice_to_vec(id), user_function));
        assert(self.view() =~= v.push((id@, user_function)));
        Ok(())
    }

    /// Ends the innermost call, which must be `id`.
    pub fn exit(&mut self, id: &[u8]) -> (r: Result<(), CallError>)
        ensures
            old(self).view().len() > 0 && old(self).view().last().0 == id@ ==> r is Ok && final(self).view()
                == old(self).view().drop_last(),
            !(old(self).view().len() > 0 && old(self).view().last().0 == id@) ==> r == Err::<(), CallError>(
                CallError::BadFunctionName,
            ) && final(self).view() == old(self).view(),
    {
        let n = self.stack.len();
        if n == 0 || compare_bytes(self.stack[n - 1].0.as_slice(), id) != 0 {
            return Err(CallError::BadFunctionName);
        }
        let ghost v = self.view();
        let _ = self.stack.pop();
        assert(self.view() =~= v.drop_last());
        Ok(())
    }
}

} // verus!
