//! Endpoints that transmit responses.

use core::task::Waker;
use vstd::prelude::*;

use crate::buffer::{BufferError, DynamicTxBuffer};
use crate::endpoint::TransferMeta;
use crate::format::TransferCrc;
use crate::frame::{Frame, Mtu};
use crate::priority::{Priority, PrioritySet};
use crate::registry::tx_queue::state::{is_in_place, is_popped, registered, TxQueueState};
use crate::registry::tx_queue::TxQueue;
use crate::registry::{RegistrationError, TxReg, TxToken};
use crate::task::Poll;
use crate::utils::priority_trigger::Waiting;

verus! {

/// The endpoints that transmit responses. A service may have several ones.
pub struct Registry<B> {
    queue: TxQueue<B>,
}

impl<B: DynamicTxBuffer> Registry<B> {
    /// A valid state is valid.
    pub proof fn lemma_wf(&self)
        requires
            self.wf(),
        ensures
            self.queue().wf(),
            is_in_place::<B>(self.queue()),
    {
        self.queue.lemma_wf();
    }

    /// No endpoints.
    pub fn new() -> (r: Self)
        ensures
            r.wf(),
            r.queue() == TxQueueState::<B::State>::fresh(),
    {
        Registry { queue: TxQueue::new() }
    }

    /// Tells whether a further endpoint can be told apart from all others.
    pub fn can_register(&self) -> (r: bool)
        ensures
            r == (self.queue().next_id < u64::MAX),
    {
        self.queue.can_register()
    }

    /// Registers an endpoint.
    pub fn register(&mut self, buffer: B) -> (r: Result<TxToken, RegistrationError>)
        requires
            old(self).wf(),
            old(self).queue().next_id < u64::MAX,
            buffer.wf(),
            buffer.is_sized(),
        ensures
            final(self).wf(),
            r matches Ok(token) && token.id() == old(self).queue().next_id,
            final(self).queue() == registered::<B>(old(self).queue(), buffer.state()),
            final(self).queue().endpoints.contains_key(old(self).queue().next_id),
    {
        Ok(TxToken { id: self.queue.reg_register(buffer), key: 0 })
    }

    /// Unregisters an endpoint.
    pub fn unregister(&mut self, reg_token: TxToken)
        requires
            old(self).wf(),
            old(self).queue().endpoints.contains_key(reg_token.id()),
        ensures
            final(self).wf(),
            final(self).queue() == old(self).queue().unregistered(reg_token.id()),
    {
        self.queue.reg_unregister(reg_token.id)
    }

    /// Returns the priority of the next frame when the priorities of the mask are asked for.
    pub fn next_priority(&self, priority_mask: PrioritySet) -> (r: Option<Priority>)
        requires
            self.wf(),
        ensures
            r == self.queue().served_priority(priority_mask@),
    {
        self.queue.next_priority(priority_mask)
    }

    /// Fetches the next frame of the most urgent priority of the mask, or lets the task wait for
    /// one. Nobody waits for no priority.
    pub fn poll_pop(&mut self, waker: &Waker, priority_mask: PrioritySet, mtu: Mtu) -> (r: Poll<Frame>)
        requires
            old(self).wf(),
        ensures
            final(self).wf(),
            r is Ready <==> old(self).queue().served(priority_mask@) is Some,
            match r {
                Poll::Ready(frame) => is_popped::<B>(
                    old(self).queue(),
                    priority_mask@,
                    mtu,
                    Some(frame),
                    final(self).queue(),
                ),
                Poll::Pending => final(self).queue() == (if priority_mask@ == Set::<Priority>::empty() {
                    old(self).queue()
                } else {
                    TxQueueState { waiting: Waiting::registered(priority_mask@), ..old(self).queue() }
                }),
            },
    {
        if priority_mask.is_empty() {
            proof {
                self.queue().lemma_first_from(priority_mask@, 0);
            }
            return Poll::Pending;
        }
        self.queue.hub_poll_pop(waker, priority_mask, mtu)
    }
}

impl<B: DynamicTxBuffer> TxReg for Registry<B> {
    type Buffer = B;

    closed spec fn wf(&self) -> bool {
        self.queue.wf()
    }

    closed spec fn queue(&self) -> TxQueueState<B::State> {
        self.queue.state()
    }

    /// A service may have several endpoints.
    open spec fn subjects(&self) -> Map<u64, u64> {
        Map::empty()
    }

    proof fn lemma_queue(&self) {
        self.lemma_wf();
    }

    fn is_empty(&self, reg_token: &TxToken) -> (r: bool) {
        self.queue.is_empty(reg_token.id)
    }

    fn poll_is_empty(&mut self, reg_token: &TxToken, waker: &Waker) -> (r: Poll<()>) {
        self.queue.poll_is_empty(reg_token.id, waker)
    }

    fn push_readiness(&self, reg_token: &TxToken) -> (r: PrioritySet) {
        self.queue.push_readiness(reg_token.id)
    }

    fn poll_push_readiness(&mut self, reg_token: &TxToken, waker: &Waker, priority_mask: PrioritySet) -> (r: Poll<
        PrioritySet,
    >) {
        self.queue.poll_push_readiness(reg_token.id, waker, priority_mask)
    }

    fn get_scratchpad(&mut self, reg_token: &TxToken) -> (r: Option<(PrioritySet, &mut [u8])>) {
        self.queue.get_scratchpad(reg_token.id)
    }

    fn try_push(&mut self, reg_token: &TxToken, meta: TransferMeta, length: usize, crc: TransferCrc) -> (r: Result<
        (),
        BufferError,
    >) {
        self.queue.try_push(reg_token.id, meta, length, crc)
    }
}

} // verus!
