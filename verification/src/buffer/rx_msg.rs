//! Buffers for received messages.

use vstd::prelude::*;

use crate::buffer::DynamicRxBuffer;
use crate::ids::SubjectId;
use crate::time::Duration;

pub mod latest;
pub mod priority_fifo;
pub mod watch;

pub use priority_fifo::PriorityFifo;
pub use watch::Watch;

verus! {

/// A buffer for received messages that carry values of a type.
pub trait Buffer<T>: Sized {
    /// The buffer while messages are received.
    type Inner: DynamicRxBuffer;

    /// The buffer is in a valid state.
    spec fn wf(&self) -> bool;

    /// What the buffer holds when nothing has been received.
    spec fn fresh(subject: SubjectId, timeout: Duration) -> <Self::Inner as DynamicRxBuffer>::State;

    /// Starts to receive the messages of a subject.
    fn init(self, subject: SubjectId, timeout: Duration) -> (r: Self::Inner)
        requires
            self.wf(),
        ensures
            r.wf(),
            r.state() == Self::fresh(subject, timeout),
    ;
}

} // verus!
