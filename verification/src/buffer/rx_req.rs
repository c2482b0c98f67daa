//! Buffers for received requests.

use vstd::prelude::*;

use crate::buffer::DynamicRxBuffer;
use crate::ids::ServiceId;
use crate::time::Duration;

pub mod priority_fifo;

pub use priority_fifo::PriorityFifo;

verus! {

/// A buffer for received requests that carry values of a type.
pub trait Buffer<T>: Sized {
    /// The buffer while requests are received.
    type Inner: DynamicRxBuffer;

    /// The buffer is in a valid state.
    spec fn wf(&self) -> bool;

    /// What the buffer holds when nothing has been received.
    spec fn fresh(service: ServiceId, timeout: Duration) -> <Self::Inner as DynamicRxBuffer>::State;

    /// Starts to receive the requests of a service.
    fn init(self, service: ServiceId, timeout: Duration) -> (r: Self::Inner)
        requires
            self.wf(),
        ensures
            r.wf(),
            r.state() == Self::fresh(service, timeout),
    ;
}

} // verus!
