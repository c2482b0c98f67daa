//! Buffers for messages to be sent.

use vstd::prelude::*;

use crate::buffer::DynamicTxBuffer;
use crate::encoding::BufferType;
use crate::ids::SubjectId;
use crate::priority::Priority;

pub mod blocking;
pub mod signal;

pub use blocking::Blocking;
pub use signal::Signal;

verus! {

/// A buffer for messages that carry values of a type.
pub trait Buffer<T: BufferType>: Sized {
    /// The buffer while messages are sent.
    type Inner: DynamicTxBuffer;

    /// The buffer is in a valid state.
    spec fn wf(&self) -> bool;

    /// What the buffer holds when nothing is to be sent.
    spec fn fresh(subject: SubjectId, priority: Priority) -> <Self::Inner as DynamicTxBuffer>::State;

    /// Starts to send the messages of a subject. The buffer has room for every value.
    fn init(self, subject: SubjectId, priority: Priority) -> (r: Self::Inner)
        requires
            self.wf(),
        ensures
            r.wf(),
            r.is_sized(),
            r.state() == Self::fresh(subject, priority),
            <Self::Inner as DynamicTxBuffer>::capacity(r.state()) == T::capacity(),
            !<Self::Inner as DynamicTxBuffer>::is_service(r.state()),
    ;
}

} // verus!
