//! The result of one step of a non-blocking operation.
use vstd::prelude::*;

verus! {

/// The value of a non-blocking operation: either it completed with a value,
/// or it would block and must be continued later from the captured state.
pub enum AsyncValue<T, U> {
    Complete(T),
    Continue(U),
}

impl<T, U> AsyncValue<T, U> {
    pub open spec fn is_complete(&self) -> bool {
        self matches AsyncValue::Complete(_)
    }

    /// Extracts the completed value.  Calling this on a `Continue` is a
    /// caller protocol violation, ruled out by the precondition.
    pub fn unwrap(self) -> (r: T)
        requires
            self.is_complete(),
        ensures
            self == AsyncValue::<T, U>::Complete(r),
    {
        match self {
            AsyncValue::Complete(val) => val,
            AsyncValue::Continue(..) => vstd::pervasive::unreached(),
        }
    }

    /// Extracts the continuation.  Calling this on a `Complete` is a caller
    /// protocol violation, ruled out by the precondition.
    pub fn unwrap_continuation(self) -> (r: U)
        requires
            !self.is_complete(),
        ensures
            self == AsyncValue::<T, U>::Continue(r),
    {
        match self {
            AsyncValue::Complete(..) => vstd::pervasive::unreached(),
            AsyncValue::Continue(continuation) => continuation,
        }
    }
}

/// State captured when a non-blocking write suspends.
pub struct WriteContinuation {
    pub idx: usize,
}

} // verus!
