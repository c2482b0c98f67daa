//! Segmentation, reassembly and queueing of transfers.
//!
//! Each kind of endpoint has buffers of its own.

use core::task::Waker;
use vstd::prelude::*;

use crate::endpoint::TransferMeta;
use crate::format::TransferCrc;
use crate::frame::{Frame, Mtu};
use crate::priority::{Priority, PrioritySet};
use crate::task::Poll;

pub mod delivery;
pub mod either;
pub mod frame_list;
pub mod gather;
pub mod journey;
pub mod reassembly;
pub mod reception;
pub mod round_trip;
pub mod rx_msg;
pub mod rx_priority_fifo;
pub mod rx_req;
pub mod scatter;
pub mod sending;
pub mod session_order;
pub mod sessions;
pub mod tx_msg;
pub mod tx_resp;
pub mod tx_transfer;

verus! {

/// Why a transfer was not taken for transmission.
#[derive(Debug, Clone, Copy, PartialEq, Eq, Structural)]
pub enum BufferError {
    /// The buffer has no room for a transfer of the priority.
    PriorityNotReady,
    /// A message has no destination.
    MessageAddressSpecified,
    /// A service transfer needs a destination.
    ServiceAddressNotSpecified,
    /// No payload has been written.
    ScratchpadNotInitialized,
}

/// A buffer that takes received frames and hands out complete transfers.
pub trait DynamicRxBuffer: Sized {
    /// What the buffer holds.
    type State;

    /// The buffer is in a valid state.
    spec fn wf(&self) -> bool;

    /// What the buffer holds.
    spec fn state(&self) -> Self::State;

    /// What the buffer holds after a frame.
    spec fn after_frame(state: Self::State, frame: Frame) -> Self::State;

    /// What the buffer holds after a task started to wait for one of the priorities.
    spec fn after_wait(state: Self::State, priorities: Set<Priority>) -> Self::State;

    /// The priorities that have a transfer.
    spec fn ready(state: Self::State) -> Set<Priority>;

    /// The number of transfers that can be fetched.
    spec fn count(state: Self::State) -> nat;

    /// A transfer of one of the priorities may be fetched like this.
    spec fn is_fetch(
        before: Self::State,
        priorities: Set<Priority>,
        transfer: Option<(TransferMeta, Seq<u8>)>,
        after: Self::State,
    ) -> bool;

    /// Receives a frame.
    fn push_frame(&mut self, frame: &Frame, mtu: Mtu)
        requires
            old(self).wf(),
        ensures
            final(self).wf(),
            final(self).state() == Self::after_frame(old(self).state(), *frame),
    ;

    /// Returns the priorities that have a transfer.
    fn pop_readiness(&self) -> (r: PrioritySet)
        requires
            self.wf(),
        ensures
            r@ == Self::ready(self.state()),
    ;

    /// Returns the priorities of the mask that have a transfer, or lets the task wait for one.
    fn poll_pop_readiness(&mut self, waker: &Waker, priority_mask: PrioritySet) -> (r: Poll<PrioritySet>)
        requires
            old(self).wf(),
        ensures
            final(self).wf(),
            ({
                let ready = Self::ready(old(self).state()).intersect(priority_mask@);
                match r {
                    Poll::Ready(set) => {
                        &&& set@ == ready
                        &&& ready != Set::<Priority>::empty()
                        &&& final(self).state() == old(self).state()
                    },
                    Poll::Pending => {
                        &&& ready == Set::<Priority>::empty()
                        &&& final(self).state() == Self::after_wait(old(self).state(), priority_mask@)
                    },
                }
            }),
    ;

    /// Fetches a transfer of the most urgent priority of the mask.
    fn try_pop(&mut self, priority_mask: PrioritySet) -> (r: Option<(TransferMeta, &[u8])>)
        requires
            old(self).wf(),
        ensures
            final(self).wf(),
            Self::is_fetch(
                old(self).state(),
                priority_mask@,
                match r {
                    Some((meta, bytes)) => Some((meta, bytes@)),
                    None => None,
                },
                final(self).state(),
            ),
            r is None <==> Self::ready(old(self).state()).intersect(priority_mask@) == Set::<Priority>::empty(),
    ;

    /// A transfer is fetched only once.
    proof fn lemma_count(
        before: Self::State,
        priorities: Set<Priority>,
        transfer: Option<(TransferMeta, Seq<u8>)>,
        after: Self::State,
    )
        requires
            Self::is_fetch(before, priorities, transfer, after),
        ensures
            transfer is Some ==> Self::count(before) == Self::count(after) + 1,
            transfer is None ==> Self::count(before) == Self::count(after),
    ;
}

/// A buffer that takes transfers and hands out their frames.
pub trait DynamicTxBuffer: Sized {
    /// What the buffer holds.
    type State;

    /// The buffer is in a valid state.
    spec fn wf(&self) -> bool;

    /// What the buffer holds.
    spec fn state(&self) -> Self::State;

    /// The number of bytes of the longest payload.
    spec fn capacity(state: Self::State) -> nat;

    /// The transfers are those of a service, so they have a destination.
    spec fn is_service(state: Self::State) -> bool;

    /// The payload buffers have the size of the longest payload.
    spec fn is_sized(&self) -> bool;

    /// The priorities of which a frame can be fetched.
    spec fn pop_ready(state: Self::State) -> Set<Priority>;

    /// The priorities of which a transfer can be pushed.
    spec fn push_ready(state: Self::State) -> Set<Priority>;

    /// A frame may be fetched like this.
    spec fn is_fetch(before: Self::State, priorities: Set<Priority>, mtu: Mtu, frame: Option<Frame>, after: Self::State) -> bool;

    /// What the buffer holds after a task started to wait until everything has been sent.
    spec fn after_wait_empty(state: Self::State) -> Self::State;

    /// What the buffer holds after a task started to wait until a transfer can be pushed.
    spec fn after_wait_push(state: Self::State, priorities: Set<Priority>) -> Self::State;

    /// The buffer for the next payload, once it has been provided.
    spec fn scratchpad(state: Self::State) -> Option<Seq<u8>>;

    /// What the buffer holds after a payload has been written.
    spec fn after_write(state: Self::State, bytes: Seq<u8>) -> Self::State;

    /// Why a transfer is refused.
    spec fn refusal(state: Self::State, meta: TransferMeta) -> Option<BufferError>;

    /// What the buffer holds after a transfer has been pushed.
    spec fn after_push(state: Self::State, meta: TransferMeta, length: int, crc: u16) -> Self::State;

    /// Returns the priorities of which a frame can be fetched.
    fn pop_readiness(&self) -> (r: PrioritySet)
        requires
            self.wf(),
        ensures
            r@ == Self::pop_ready(self.state()),
    ;

    /// Fetches the next frame of the most urgent priority of the mask.
    fn try_pop(&mut self, priority_mask: PrioritySet, mtu: Mtu) -> (r: Option<Frame>)
        requires
            old(self).wf(),
        ensures
            final(self).wf(),
            old(self).is_sized() ==> final(self).is_sized(),
            Self::is_fetch(old(self).state(), priority_mask@, mtu, r, final(self).state()),
            ({
                let ready = Self::pop_ready(old(self).state()).intersect(priority_mask@);
                match r {
                    Some(frame) => {
                        &&& PrioritySet::is_first(ready, Some(frame.header.priority))
                        &&& 1 <= frame.data@.len() <= mtu.size()
                    },
                    None => ready == Set::<Priority>::empty() && final(self).state() == old(self).state(),
                }
            }),
    ;

    /// Tells whether everything has been sent.
    fn is_empty(&self) -> (r: bool)
        requires
            self.wf(),
        ensures
            r == (Self::pop_ready(self.state()) == Set::<Priority>::empty()),
    ;

    /// Lets the task wait until everything has been sent.
    fn poll_is_empty(&mut self, waker: &Waker) -> (r: Poll<()>)
        requires
            old(self).wf(),
        ensures
            final(self).wf(),
            old(self).is_sized() ==> final(self).is_sized(),
            r is Ready <==> Self::pop_ready(old(self).state()) == Set::<Priority>::empty(),
            final(self).state() == (if r is Ready {
                old(self).state()
            } else {
                Self::after_wait_empty(old(self).state())
            }),
    ;

    /// Returns the priorities of which a transfer can be pushed.
    fn push_readiness(&self) -> (r: PrioritySet)
        requires
            self.wf(),
        ensures
            r@ == Self::push_ready(self.state()),
    ;

    /// Lets the task wait until a transfer of one of the priorities can be pushed.
    fn poll_push_readiness(&mut self, waker: &Waker, priority_mask: PrioritySet) -> (r: Poll<PrioritySet>)
        requires
            old(self).wf(),
        ensures
            final(self).wf(),
            old(self).is_sized() ==> final(self).is_sized(),
            ({
                let ready = Self::push_ready(old(self).state()).intersect(priority_mask@);
                match r {
                    Poll::Ready(set) => {
                        &&& set@ == ready
                        &&& ready != Set::<Priority>::empty()
                        &&& final(self).state() == old(self).state()
                    },
                    Poll::Pending => {
                        &&& ready == Set::<Priority>::empty()
                        &&& final(self).state() == Self::after_wait_push(old(self).state(), priority_mask@)
                    },
                }
            }),
    ;

    /// Returns the buffer for the payload of the next transfer, and the priorities of which it
    /// can be pushed.
    fn get_scratchpad(&mut self) -> (r: Option<(PrioritySet, &mut [u8])>)
        requires
            old(self).wf(),
        ensures
            final(self).wf(),
            match r {
                Some((priorities, buffer)) => {
                    &&& Self::push_ready(old(self).state()) != Set::<Priority>::empty()
                    &&& priorities@ == Self::push_ready(old(self).state())
                    &&& final(self).state() == Self::after_write(old(self).state(), final(buffer)@)
                    &&& old(self).is_sized() ==> buffer@.len() == Self::capacity(old(self).state())
                    &&& old(self).is_sized() && final(buffer)@.len() == buffer@.len() ==> final(self).is_sized()
                },
                None => {
                    &&& Self::push_ready(old(self).state()) == Set::<Priority>::empty()
                    &&& final(self).state() == old(self).state()
                    &&& old(self).is_sized() ==> final(self).is_sized()
                },
            },
    ;

    /// Takes the first `length` bytes of the provided buffer for transmission.
    fn try_push(&mut self, meta: TransferMeta, length: usize, crc: TransferCrc) -> (r: Result<(), BufferError>)
        requires
            old(self).wf(),
            Self::scratchpad(old(self).state()) matches Some(bytes) ==> length <= bytes.len(),
            length + 2 <= usize::MAX,
        ensures
            final(self).wf(),
            old(self).is_sized() ==> final(self).is_sized(),
            match Self::refusal(old(self).state(), meta) {
                Some(error) => r == Err::<(), BufferError>(error) && final(self).state() == old(self).state(),
                None => r is Ok && final(self).state() == Self::after_push(
                    old(self).state(),
                    meta,
                    length as int,
                    crc@,
                ),
            },
    ;

    /// A written payload is in the provided buffer, and whatever can be pushed afterwards could
    /// be pushed before.
    proof fn lemma_written(state: Self::State, bytes: Seq<u8>)
        requires
            Self::push_ready(state) != Set::<Priority>::empty(),
        ensures
            Self::scratchpad(Self::after_write(state, bytes)) == Some(bytes),
            Self::push_ready(Self::after_write(state, bytes)) == Self::push_ready(state),
    ;

    /// Waiting and writing do not change of which priorities a frame can be fetched.
    proof fn lemma_still_ready(state: Self::State, bytes: Seq<u8>, priorities: Set<Priority>)
        ensures
            Self::pop_ready(Self::after_write(state, bytes)) == Self::pop_ready(state),
            Self::pop_ready(Self::after_wait_empty(state)) == Self::pop_ready(state),
            Self::pop_ready(Self::after_wait_push(state, priorities)) == Self::pop_ready(state),
    ;

    /// Writing a payload does not change the kind of the buffer.
    proof fn lemma_after_write(state: Self::State, bytes: Seq<u8>)
        ensures
            Self::capacity(Self::after_write(state, bytes)) == Self::capacity(state),
            Self::is_service(Self::after_write(state, bytes)) == Self::is_service(state),
    ;

    /// Waiting does not change the kind of the buffer.
    proof fn lemma_after_wait(state: Self::State, priorities: Set<Priority>)
        ensures
            Self::capacity(Self::after_wait_empty(state)) == Self::capacity(state),
            Self::capacity(Self::after_wait_push(state, priorities)) == Self::capacity(state),
            Self::is_service(Self::after_wait_empty(state)) == Self::is_service(state),
            Self::is_service(Self::after_wait_push(state, priorities)) == Self::is_service(state),
    ;

    /// Pushing a transfer does not change the kind of the buffer.
    proof fn lemma_after_push(state: Self::State, meta: TransferMeta, length: int, crc: u16)
        ensures
            Self::capacity(Self::after_push(state, meta, length, crc)) == Self::capacity(state),
            Self::is_service(Self::after_push(state, meta, length, crc)) == Self::is_service(state),
    ;

    /// A transfer of a ready priority is taken, if it has a payload and a proper destination.
    proof fn lemma_taken(state: Self::State, meta: TransferMeta)
        requires
            Self::push_ready(state).contains(meta.priority),
            Self::scratchpad(state) is Some,
            meta.address is Some <==> Self::is_service(state),
        ensures
            Self::refusal(state, meta) is None,
    ;

    /// Fetching a frame does not change the size of the payload buffers, and whatever could be
    /// pushed before can be pushed afterwards.
    proof fn lemma_after_fetch(
        before: Self::State,
        priorities: Set<Priority>,
        mtu: Mtu,
        frame: Option<Frame>,
        after: Self::State,
    )
        requires
            Self::is_fetch(before, priorities, mtu, frame, after),
        ensures
            Self::capacity(after) == Self::capacity(before),
            Self::is_service(after) == Self::is_service(before),
            Self::push_ready(before).subset_of(Self::push_ready(after)),
    ;
}

} // verus!
