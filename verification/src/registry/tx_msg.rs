//! Endpoints that transmit messages.

use core::task::Waker;
use vstd::prelude::*;

use crate::buffer::{BufferError, DynamicTxBuffer};
use crate::endpoint::TransferMeta;
use crate::format::TransferCrc;
use crate::frame::{Frame, Mtu};
use crate::ids::SubjectId;
use crate::priority::{Priority, PrioritySet};
use crate::registry::tx_queue::state::{
    due_lane, is_in_place, is_popped, lemma_changed_endpoints, lemma_placed, lemma_popped_endpoints, registered,
    TxQueueState,
};
use crate::registry::tx_queue::TxQueue;
use crate::registry::{RegistrationError, TxReg, TxToken};
use crate::task::Poll;
use crate::utils::id_map::IdMap;
use crate::utils::priority_trigger::Waiting;

verus! {

/// The endpoints that transmit messages, at most one for each subject.
pub struct Registry<B> {
    queue: TxQueue<B>,
    endpoints: IdMap<u64>,
}

impl<B: DynamicTxBuffer> Registry<B> {
    /// The endpoint of each subject is registered, and different subjects have different ones.
    pub open spec fn has_subjects(&self) -> bool {
        &&& forall|s: u64| #[trigger]
            self.subjects().contains_key(s) ==> self.queue().endpoints.contains_key(self.subjects()[s])
        &&& forall|s: u64, t: u64|
            #![trigger self.subjects()[s], self.subjects()[t]]
            self.subjects().contains_key(s) && self.subjects().contains_key(t) && self.subjects()[s]
                == self.subjects()[t] ==> s == t
    }

    /// A valid state is valid.
    pub proof fn lemma_wf(&self)
        requires
            self.wf(),
        ensures
            self.queue().wf(),
            is_in_place::<B>(self.queue()),
            self.has_subjects(),
    {
        self.queue.lemma_wf();
    }

    /// No endpoints.
    pub fn new() -> (r: Self)
        ensures
            r.wf(),
            r.queue() == TxQueueState::<B::State>::fresh(),
            r.subjects() == Map::<u64, u64>::empty(),
    {
        Registry { queue: TxQueue::new(), endpoints: IdMap::new() }
    }

    /// Tells whether a further endpoint can be told apart from all others.
    pub fn can_register(&self) -> (r: bool)
        ensures
            r == (self.queue().next_id < u64::MAX),
    {
        self.queue.can_register()
    }

    /// Tells whether a subject has an endpoint.
    pub fn is_occupied(&self, subject: SubjectId) -> (r: bool)
        requires
            self.wf(),
        ensures
            r == self.subjects().contains_key(subject.value() as u64),
    {
        self.endpoints.contains(subject.into_u16() as u64)
    }

    /// Registers an endpoint. Only one is allowed for a subject.
    pub fn register(&mut self, subject: SubjectId, buffer: B) -> (r: Result<TxToken, RegistrationError>)
        requires
            old(self).wf(),
            old(self).queue().next_id < u64::MAX,
            buffer.wf(),
            buffer.is_sized(),
        ensures
            final(self).wf(),
            ({
                let s = subject.value() as u64;
                let id = old(self).queue().next_id;
                if old(self).subjects().contains_key(s) {
                    &&& r == Err::<TxToken, RegistrationError>(RegistrationError::DataSpecifierOccupied)
                    &&& final(self).queue() == old(self).queue()
                    &&& final(self).subjects() == old(self).subjects()
                } else {
                    &&& r matches Ok(token) && token.id() == id && token.key() == s
                    &&& final(self).queue() == registered::<B>(old(self).queue(), buffer.state())
                    &&& final(self).queue().endpoints.contains_key(id)
                    &&& final(self).subjects() == old(self).subjects().insert(s, id)
                }
            }),
    {
        let ghost before = *self;
        let number: u64 = subject.into_u16() as u64;
        if self.endpoints.contains(number) {
            return Err(RegistrationError::DataSpecifierOccupied);
        }
        proof {
            before.lemma_wf();
            before.queue().lemma_added(buffer.state());
            let added = before.queue().added(buffer.state());
            assert forall|x: u64| #[trigger] added.endpoints.contains_key(x) && x != before.queue().next_id implies added.endpoints[x].lane
                == due_lane::<B>(added.endpoints[x]) by {
                assert(before.queue().endpoints.contains_key(x));
            }
            lemma_placed::<B>(added, before.queue().next_id);
        }
        let id: u64 = self.queue.reg_register(buffer);
        self.endpoints.insert(number, id);
        proof {
            assert forall|s: u64| #[trigger] self.subjects().contains_key(s) implies self.queue().endpoints.contains_key(
                self.subjects()[s],
            ) by {
                if s != number {
                    assert(before.subjects().contains_key(s));
                }
            }
            assert forall|s: u64, t: u64|
                #![trigger self.subjects()[s], self.subjects()[t]]
                self.subjects().contains_key(s) && self.subjects().contains_key(t) && self.subjects()[s]
                    == self.subjects()[t] implies s == t by {
                if s != number {
                    assert(before.subjects().contains_key(s));
                    assert(before.queue().endpoints.contains_key(before.subjects()[s]));
                }
                if t != number {
                    assert(before.subjects().contains_key(t));
                    assert(before.queue().endpoints.contains_key(before.subjects()[t]));
                }
                if s != number && t != number {
                    assert(before.subjects()[s] == before.subjects()[t]);
                }
            }
        }
        Ok(TxToken { id, key: number })
    }

    /// Unregisters an endpoint.
    pub fn unregister(&mut self, reg_token: TxToken)
        requires
            old(self).wf(),
            old(self).subjects().contains_key(reg_token.key()),
            old(self).subjects()[reg_token.key()] == reg_token.id(),
        ensures
            final(self).wf(),
            final(self).queue() == old(self).queue().unregistered(reg_token.id()),
            final(self).subjects() == old(self).subjects().remove(reg_token.key()),
    {
        let ghost before = *self;
        let number: u64 = reg_token.key;
        proof {
            before.lemma_wf();
            before.queue().lemma_unregistered(reg_token.id());
        }
        self.queue.reg_unregister(reg_token.id);
        self.endpoints.remove(number);
        proof {
            assert forall|s: u64| #[trigger] self.subjects().contains_key(s) implies self.queue().endpoints.contains_key(
                self.subjects()[s],
            ) by {
                assert(before.subjects().contains_key(s));
                assert(before.subjects()[s] != before.subjects()[number]);
            }
            assert forall|s: u64, t: u64|
                #![trigger self.subjects()[s], self.subjects()[t]]
                self.subjects().contains_key(s) && self.subjects().contains_key(t) && self.subjects()[s]
                    == self.subjects()[t] implies s == t by {
                assert(before.subjects()[s] == before.subjects()[t]);
            }
        }
    }

    /// Returns the priority of the next frame when the priorities of the mask are asked for.
    pub fn next_priority(&self, priority_mask: PrioritySet) -> (r: Option<Priority>)
        requires
            self.wf(),
        ensures
            r == self.queue().served_priority(priority_mask@),
    {
        self.queue.next_priority(priority_mask)
    }

    /// Fetches the next frame of the most urgent priority of the mask, or lets the task wait for
    /// one. Nobody waits for no priority.
    pub fn poll_pop(&mut self, waker: &Waker, priority_mask: PrioritySet, mtu: Mtu) -> (r: Poll<Frame>)
        requires
            old(self).wf(),
        ensures
            final(self).wf(),
            final(self).subjects() == old(self).subjects(),
            r is Ready <==> old(self).queue().served(priority_mask@) is Some,
            match r {
                Poll::Ready(frame) => is_popped::<B>(
                    old(self).queue(),
                    priority_mask@,
                    mtu,
                    Some(frame),
                    final(self).queue(),
                ),
                Poll::Pending => final(self).queue() == (if priority_mask@ == Set::<Priority>::empty() {
                    old(self).queue()
                } else {
                    TxQueueState { waiting: Waiting::registered(priority_mask@), ..old(self).queue() }
                }),
            },
    {
        let ghost before = *self;
        proof {
            before.lemma_wf();
        }
        if priority_mask.is_empty() {
            proof {
                self.queue().lemma_first_from(priority_mask@, 0);
            }
            return Poll::Pending;
        }
        let r = self.queue.hub_poll_pop(waker, priority_mask, mtu);
        proof {
            if let Poll::Ready(frame) = r {
                lemma_popped_endpoints::<B>(
                    before.queue(),
                    priority_mask@,
                    mtu,
                    Some(frame),
                    self.queue(),
                );
            }
            before.lemma_same_subjects(self);
        }
        r
    }

    /// The same subjects have endpoints.
    proof fn lemma_same_subjects(&self, after: &Self)
        requires
            self.has_subjects(),
            after.subjects() == self.subjects(),
            after.queue().endpoints.dom() == self.queue().endpoints.dom(),
        ensures
            after.has_subjects(),
    {
        assert forall|s: u64| #[trigger] after.subjects().contains_key(s) implies after.queue().endpoints.contains_key(
            after.subjects()[s],
        ) by {
            assert(self.subjects().contains_key(s));
            assert(self.queue().endpoints.dom().contains(self.subjects()[s]));
        }
        assert forall|s: u64, t: u64|
            #![trigger after.subjects()[s], after.subjects()[t]]
            after.subjects().contains_key(s) && after.subjects().contains_key(t) && after.subjects()[s]
                == after.subjects()[t] implies s == t by {
            assert(self.subjects()[s] == self.subjects()[t]);
        }
    }
}

impl<B: DynamicTxBuffer> TxReg for Registry<B> {
    type Buffer = B;

    closed spec fn wf(&self) -> bool {
        &&& self.queue.wf()
        &&& self.endpoints.wf()
        &&& self.has_subjects()
    }

    closed spec fn queue(&self) -> TxQueueState<B::State> {
        self.queue.state()
    }

    closed spec fn subjects(&self) -> Map<u64, u64> {
        self.endpoints@
    }

    proof fn lemma_queue(&self) {
        self.lemma_wf();
    }

    fn is_empty(&self, reg_token: &TxToken) -> (r: bool) {
        self.queue.is_empty(reg_token.id)
    }

    fn poll_is_empty(&mut self, reg_token: &TxToken, waker: &Waker) -> (r: Poll<()>) {
        let ghost before = *self;
        let r = self.queue.poll_is_empty(reg_token.id, waker);
        proof {
            assert(self.queue().endpoints.dom() =~= before.queue().endpoints.dom());
            before.lemma_same_subjects(self);
        }
        r
    }

    fn push_readiness(&self, reg_token: &TxToken) -> (r: PrioritySet) {
        self.queue.push_readiness(reg_token.id)
    }

    fn poll_push_readiness(&mut self, reg_token: &TxToken, waker: &Waker, priority_mask: PrioritySet) -> (r: Poll<
        PrioritySet,
    >) {
        let ghost before = *self;
        let r = self.queue.poll_push_readiness(reg_token.id, waker, priority_mask);
        proof {
            assert(self.queue().endpoints.dom() =~= before.queue().endpoints.dom());
            before.lemma_same_subjects(self);
        }
        r
    }

    fn get_scratchpad(&mut self, reg_token: &TxToken) -> (r: Option<(PrioritySet, &mut [u8])>) {
        let ghost before = *self;
        proof {
            assert forall|after: Self|
                after.subjects() == before.subjects() && after.queue().endpoints.dom()
                    =~= before.queue().endpoints.dom() implies #[trigger] after.has_subjects() by {
                before.lemma_same_subjects(&after);
            }
        }
        self.queue.get_scratchpad(reg_token.id)
    }

    fn try_push(&mut self, reg_token: &TxToken, meta: TransferMeta, length: usize, crc: TransferCrc) -> (r: Result<
        (),
        BufferError,
    >) {
        let ghost before = *self;
        let ghost id = reg_token.id;
        let ghost slot = self.queue().endpoints[id];
        proof {
            before.lemma_wf();
        }
        let r = self.queue.try_push(reg_token.id, meta, length, crc);
        proof {
            if r is Ok {
                let pushed = B::after_push(slot.state, meta, length as int, crc@);
                lemma_changed_endpoints::<B>(before.queue(), id, pushed);
            }
            before.lemma_same_subjects(self);
        }
        r
    }
}

} // verus!
