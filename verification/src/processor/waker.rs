use vstd::prelude::*;
use std::sync::Arc;

verus! {

/// A waker that does nothing when woken: the tasks it is given are polled again
/// in any case.
pub struct DumbWaker;

impl std::task::Wake for DumbWaker {
    fn wake(self: Arc<Self>) {
    }
}

} // verus!
