//! Buffers for responses to be sent.

use vstd::prelude::*;

use crate::buffer::DynamicTxBuffer;
use crate::encoding::BufferType;
use crate::ids::ServiceId;

pub mod blocking;

pub use blocking::Blocking;

verus! {

/// A buffer for responses that carry values of a type.
pub trait Buffer<T: BufferType>: Sized {
    /// The buffer while responses are sent.
    type Inner: DynamicTxBuffer;

    /// The buffer is in a valid state.
    spec fn wf(&self) -> bool;

    /// What the buffer holds when nothing is to be sent.
    spec fn fresh(service: ServiceId) -> <Self::Inner as DynamicTxBuffer>::State;

    /// Starts to send the responses of a service. The buffer has room for every value.
    fn init(self, service: ServiceId) -> (r: Self::Inner)
        requires
            self.wf(),
        ensures
            r.wf(),
            r.is_sized(),
            r.state() == Self::fresh(service),
            <Self::Inner as DynamicTxBuffer>::capacity(r.state()) == T::capacity(),
            <Self::Inner as DynamicTxBuffer>::is_service(r.state()),
    ;
}

} // verus!
