//! Message buffer with a queue for each priority.

use core::marker::PhantomData;
use vstd::prelude::*;

use crate::buffer::rx_msg::Buffer;
use crate::buffer::rx_priority_fifo::{RxPriorityFifoInner, RxState};
use crate::encoding::{BufferType, StaticBuffer};
use crate::frame::DataSpecifier;
use crate::ids::SubjectId;
use crate::time::Duration;
use crate::utils::stacked_array::TriplexArray;

pub use crate::buffer::rx_priority_fifo::{MAX_SESSION_COUNT, MAX_TRANSFER_COUNT};

verus! {

/// Priority FIFO message buffer.
///
/// The buffer has `SN` (at most 128) slots for sessions and `TN` (1 to 127) slots for transfers.
///
/// A session slot follows the transfers of one source. It is taken by the first frame of a
/// transfer of an unknown source. When the timeout has elapsed since the last first frame, the
/// slot may be given to another source. Anonymous transfers need no session.
///
/// The transfers of each priority are queued in the order of their completion. A transfer takes
/// a slot until it is fetched. If all slots are taken, the oldest transfer of the least urgent
/// priority is dropped, provided that the new one is at least as urgent.
///
/// There are `SN + TN + 1` payload buffers, one more than needed, so that a fetched payload need
/// not be copied.
pub struct PriorityFifo<T: BufferType, const SN: usize, const TN: usize> {
    buffers: TriplexArray<StaticBuffer, 1, SN, TN>,
    _phantom: PhantomData<T>,
}

impl<T: BufferType, const SN: usize, const TN: usize> PriorityFifo<T, SN, TN> {
    /// There is a payload buffer for each purpose.
    pub closed spec fn wf(&self) -> bool {
        &&& SN <= MAX_SESSION_COUNT
        &&& 1 <= TN <= MAX_TRANSFER_COUNT
        &&& self.buffers.wf()
        &&& forall|i: int| 0 <= i < self.buffers@.len() ==> (#[trigger] self.buffers@[i])@.len() == T::capacity()
    }

    /// Allocates the payload buffers.
    pub fn new() -> (r: Self)
        requires
            SN <= MAX_SESSION_COUNT,
            1 <= TN <= MAX_TRANSFER_COUNT,
        ensures
            r.wf(),
    {
        let make = |_i: usize| -> (buffer: StaticBuffer)
            ensures
                buffer@.len() == T::capacity(),
            { T::new_buffer() };
        let buffers: TriplexArray<StaticBuffer, 1, SN, TN> = TriplexArray::from_fn(make);
        proof {
            assert forall|i: int| 0 <= i < buffers@.len() implies (#[trigger] buffers@[i])@.len() == T::capacity() by {
                let k = i as usize;
                assert(call_ensures(make, (k,), buffers@[k as int]));
            }
        }
        Self { buffers, _phantom: PhantomData }
    }
}

impl<T: BufferType, const SN: usize, const TN: usize> Buffer<T> for PriorityFifo<T, SN, TN> {
    type Inner = RxPriorityFifoInner<T, SN, TN>;

    open spec fn wf(&self) -> bool {
        self.wf()
    }

    open spec fn fresh(subject: SubjectId, timeout: Duration) -> RxState {
        RxState::fresh(DataSpecifier::Message(subject), timeout, T::capacity(), SN as int, TN as int)
    }

    fn init(self, subject: SubjectId, timeout: Duration) -> (r: RxPriorityFifoInner<T, SN, TN>) {
        RxPriorityFifoInner::new(DataSpecifier::Message(subject), timeout, self.buffers.into_vec())
    }
}

} // verus!
