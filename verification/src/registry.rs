//! The endpoints of a node.

use core::task::Waker;
use vstd::prelude::*;

use crate::buffer::{BufferError, DynamicRxBuffer, DynamicTxBuffer};
use crate::endpoint::TransferMeta;
use crate::format::TransferCrc;
use crate::priority::{Priority, PrioritySet};
use crate::registry::tx_queue::state::{changed, is_in_place, TxQueueState};
use crate::task::Poll;

pub mod entry_tree;
pub mod id_queue;
pub mod rx_msg;
pub mod rx_req;
pub mod tx_msg;
pub mod tx_queue;
pub mod tx_resp;

verus! {

/// Why an endpoint was not registered.
#[derive(Debug, Clone, Copy, PartialEq, Eq, Structural)]
pub enum RegistrationError {
    /// All slots for subjects are taken.
    NoSubjectSlotLeft,
    /// The subject or service has an endpoint already.
    DataSpecifierOccupied,
}

/// Endpoints that receive.
pub trait RxReg: Sized {
    /// The buffers of the endpoints.
    type Buffer: DynamicRxBuffer;

    /// Identity of a registered endpoint.
    type Token;

    /// The state is valid.
    spec fn wf(&self) -> bool;

    /// The endpoint is registered.
    spec fn has(&self, reg_token: Self::Token) -> bool;

    /// What the buffer of an endpoint holds.
    spec fn held(&self, reg_token: Self::Token) -> <Self::Buffer as DynamicRxBuffer>::State;

    /// Nothing but the buffer of an endpoint has changed.
    spec fn is_changed(
        &self,
        reg_token: Self::Token,
        held: <Self::Buffer as DynamicRxBuffer>::State,
        after: &Self,
    ) -> bool;

    /// Returns the priorities that have a transfer.
    fn pop_readiness(&self, reg_token: &Self::Token) -> (r: PrioritySet)
        requires
            self.wf(),
            self.has(*reg_token),
        ensures
            r@ == <Self::Buffer as DynamicRxBuffer>::ready(self.held(*reg_token)),
    ;

    /// Returns the priorities of the mask that have a transfer, or lets the task wait for one.
    fn poll_pop_readiness(&mut self, reg_token: &Self::Token, waker: &Waker, priority_mask: PrioritySet) -> (r: Poll<
        PrioritySet,
    >)
        requires
            old(self).wf(),
            old(self).has(*reg_token),
        ensures
            final(self).wf(),
            final(self).has(*reg_token),
            ({
                let before = old(self).held(*reg_token);
                let ready = <Self::Buffer as DynamicRxBuffer>::ready(before).intersect(priority_mask@);
                match r {
                    Poll::Ready(set) => {
                        &&& set@ == ready
                        &&& ready != Set::<Priority>::empty()
                        &&& old(self).is_changed(*reg_token, before, final(self))
                    },
                    Poll::Pending => {
                        &&& ready == Set::<Priority>::empty()
                        &&& old(self).is_changed(
                            *reg_token,
                            <Self::Buffer as DynamicRxBuffer>::after_wait(before, priority_mask@),
                            final(self),
                        )
                    },
                }
            }),
    ;

    /// Fetches a transfer of the most urgent priority of the mask.
    fn try_pop(&mut self, reg_token: &Self::Token, priority_mask: PrioritySet) -> (r: Option<(TransferMeta, &[u8])>)
        requires
            old(self).wf(),
            old(self).has(*reg_token),
        ensures
            final(self).wf(),
            final(self).has(*reg_token),
            old(self).is_changed(*reg_token, final(self).held(*reg_token), final(self)),
            <Self::Buffer as DynamicRxBuffer>::is_fetch(
                old(self).held(*reg_token),
                priority_mask@,
                match r {
                    Some((meta, bytes)) => Some((meta, bytes@)),
                    None => None,
                },
                final(self).held(*reg_token),
            ),
            r is None <==> <Self::Buffer as DynamicRxBuffer>::ready(old(self).held(*reg_token)).intersect(
                priority_mask@,
            ) == Set::<Priority>::empty(),
    ;
}

/// Identity of a registered endpoint that transmits.
pub struct TxToken {
    pub(crate) id: u64,
    pub(crate) key: u64,
}

impl TxToken {
    /// The number of the endpoint.
    pub closed spec fn id(&self) -> u64 {
        self.id
    }

    /// The number of the subject.
    pub closed spec fn key(&self) -> u64 {
        self.key
    }
}

/// Endpoints that transmit.
pub trait TxReg: Sized {
    /// The buffers of the endpoints.
    type Buffer: DynamicTxBuffer;

    /// The state is valid.
    spec fn wf(&self) -> bool;

    /// The endpoints in the order in which they are served.
    spec fn queue(&self) -> TxQueueState<<Self::Buffer as DynamicTxBuffer>::State>;

    /// The endpoints by the numbers of their subjects, where each subject has one.
    spec fn subjects(&self) -> Map<u64, u64>;

    /// The endpoints of a valid state are where they belong.
    proof fn lemma_queue(&self)
        requires
            self.wf(),
        ensures
            self.queue().wf(),
            is_in_place::<Self::Buffer>(self.queue()),
    ;

    /// Tells whether everything of an endpoint has been fetched.
    fn is_empty(&self, reg_token: &TxToken) -> (r: bool)
        requires
            self.wf(),
            self.queue().endpoints.contains_key(reg_token.id()),
        ensures
            r == (<Self::Buffer as DynamicTxBuffer>::pop_ready(self.queue().endpoints[reg_token.id()].state) == Set::<
                Priority,
            >::empty()),
    ;

    /// Lets the task wait until everything of an endpoint has been fetched.
    fn poll_is_empty(&mut self, reg_token: &TxToken, waker: &Waker) -> (r: Poll<()>)
        requires
            old(self).wf(),
            old(self).queue().endpoints.contains_key(reg_token.id()),
        ensures
            final(self).wf(),
            final(self).subjects() == old(self).subjects(),
            ({
                let slot = old(self).queue().endpoints[reg_token.id()];
                &&& r is Ready <==> <Self::Buffer as DynamicTxBuffer>::pop_ready(slot.state) == Set::<Priority>::empty()
                &&& final(self).queue() == (if r is Ready {
                    old(self).queue()
                } else {
                    old(self).queue().with_slot(
                        reg_token.id(),
                        slot.started,
                        <Self::Buffer as DynamicTxBuffer>::after_wait_empty(slot.state),
                    )
                })
            }),
    ;

    /// Returns the priorities of which a transfer can be pushed.
    fn push_readiness(&self, reg_token: &TxToken) -> (r: PrioritySet)
        requires
            self.wf(),
            self.queue().endpoints.contains_key(reg_token.id()),
        ensures
            r@ == <Self::Buffer as DynamicTxBuffer>::push_ready(self.queue().endpoints[reg_token.id()].state),
    ;

    /// Lets the task wait until a transfer of one of the priorities can be pushed.
    fn poll_push_readiness(&mut self, reg_token: &TxToken, waker: &Waker, priority_mask: PrioritySet) -> (r: Poll<
        PrioritySet,
    >)
        requires
            old(self).wf(),
            old(self).queue().endpoints.contains_key(reg_token.id()),
        ensures
            final(self).wf(),
            final(self).subjects() == old(self).subjects(),
            ({
                let slot = old(self).queue().endpoints[reg_token.id()];
                let ready = <Self::Buffer as DynamicTxBuffer>::push_ready(slot.state).intersect(priority_mask@);
                match r {
                    Poll::Ready(set) => {
                        &&& set@ == ready
                        &&& ready != Set::<Priority>::empty()
                        &&& final(self).queue() == old(self).queue()
                    },
                    Poll::Pending => {
                        &&& ready == Set::<Priority>::empty()
                        &&& final(self).queue() == old(self).queue().with_slot(
                            reg_token.id(),
                            slot.started,
                            <Self::Buffer as DynamicTxBuffer>::after_wait_push(slot.state, priority_mask@),
                        )
                    },
                }
            }),
    ;

    /// Returns the buffer for the payload of the next transfer, and the priorities of which it
    /// can be pushed.
    fn get_scratchpad(&mut self, reg_token: &TxToken) -> (r: Option<(PrioritySet, &mut [u8])>)
        requires
            old(self).wf(),
            old(self).queue().endpoints.contains_key(reg_token.id()),
        ensures
            final(self).subjects() == old(self).subjects(),
            ({
                let slot = old(self).queue().endpoints[reg_token.id()];
                match r {
                    Some((priorities, buffer)) => {
                        &&& <Self::Buffer as DynamicTxBuffer>::push_ready(slot.state) != Set::<Priority>::empty()
                        &&& priorities@ == <Self::Buffer as DynamicTxBuffer>::push_ready(slot.state)
                        &&& buffer@.len() == <Self::Buffer as DynamicTxBuffer>::capacity(slot.state)
                        &&& final(self).queue() == old(self).queue().with_slot(
                            reg_token.id(),
                            slot.started,
                            <Self::Buffer as DynamicTxBuffer>::after_write(slot.state, final(buffer)@),
                        )
                        &&& final(buffer)@.len() == buffer@.len() ==> final(self).wf()
                    },
                    None => {
                        &&& <Self::Buffer as DynamicTxBuffer>::push_ready(slot.state) == Set::<Priority>::empty()
                        &&& final(self).queue() == old(self).queue()
                        &&& final(self).wf()
                    },
                }
            }),
    ;

    /// Takes the first `length` bytes of the provided buffer for transmission.
    fn try_push(&mut self, reg_token: &TxToken, meta: TransferMeta, length: usize, crc: TransferCrc) -> (r: Result<
        (),
        BufferError,
    >)
        requires
            old(self).wf(),
            old(self).queue().endpoints.contains_key(reg_token.id()),
            <Self::Buffer as DynamicTxBuffer>::scratchpad(
                old(self).queue().endpoints[reg_token.id()].state,
            ) matches Some(bytes) ==> length <= bytes.len(),
            length + 2 <= usize::MAX,
        ensures
            final(self).wf(),
            final(self).subjects() == old(self).subjects(),
            match <Self::Buffer as DynamicTxBuffer>::refusal(old(self).queue().endpoints[reg_token.id()].state, meta) {
                Some(error) => r == Err::<(), BufferError>(error) && final(self).queue() == old(self).queue(),
                None => r is Ok && final(self).queue() == changed::<Self::Buffer>(
                    old(self).queue(),
                    reg_token.id(),
                    <Self::Buffer as DynamicTxBuffer>::after_push(
                        old(self).queue().endpoints[reg_token.id()].state,
                        meta,
                        length as int,
                        crc@,
                    ),
                ),
            },
    ;
}

} // verus!
