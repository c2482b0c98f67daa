//! Endpoints that receive messages.

use core::task::Waker;
use vstd::prelude::*;

use crate::buffer::DynamicRxBuffer;
use crate::endpoint::TransferMeta;
use crate::frame::{DataSpecifier, Frame, Mtu};
use crate::ids::SubjectId;
use crate::link::FilterUpdate;
use crate::priority::{Priority, PrioritySet};
use crate::registry::entry_tree::{has_id, position, Slot, Slots};
use crate::registry::rx_msg::endpoints::{
    law_fetching_keeps_endpoints, law_receiving_keeps_endpoints, law_registration_adds, law_unregistration_removes,
    law_updates_keep_endpoints,
};
use crate::registry::rx_msg::loop_back::{LoopBackInner, LoopBackState};
use crate::registry::rx_msg::regular::RegularInner;
use crate::registry::rx_msg::regular_state::{Popped, RegularState};
use crate::registry::rx_msg::steps::{
    addressees, after_start, after_step, has_next, is_first_of, is_handed_out, law_steps_keep_endpoints,
    lemma_finished, lemma_started, lemma_stepped, start_position,
};
use crate::registry::{RegistrationError, RxReg};
use crate::task::Poll;

pub mod contents;
pub mod endpoints;
pub mod filter;
pub mod loop_back;
pub mod regular;
pub mod regular_state;
pub mod steps;

verus! {

/// Identity of a registered endpoint.
pub struct Token {
    id: u64,
    loop_back: bool,
}

impl Token {
    /// The number of the endpoint.
    pub closed spec fn id(&self) -> u64 {
        self.id
    }

    /// The endpoint receives messages of its own node.
    pub closed spec fn loop_back(&self) -> bool {
        self.loop_back
    }
}

/// All endpoints that receive messages.
#[verifier::ext_equal]
pub struct RegistryState<S> {
    /// The endpoints that receive messages of other nodes.
    pub regular: RegularState<S>,
    /// The endpoints that receive messages of their own node.
    pub loop_back: LoopBackState<S>,
    /// The number of the next endpoint.
    pub next_id: u64,
}

impl<S> RegistryState<S> {
    /// No endpoints.
    pub open spec fn fresh(slots: int) -> RegistryState<S> {
        RegistryState { regular: RegularState::fresh(slots), loop_back: LoopBackState::fresh(), next_id: 0 }
    }

    /// The endpoint is registered.
    pub open spec fn has(self, token: Token) -> bool {
        if token.loop_back() {
            has_id(self.loop_back.entries, token.id())
        } else {
            has_id(self.regular.active, token.id()) || has_id(self.regular.inactive, token.id())
        }
    }

    /// A registered endpoint.
    pub open spec fn slot(self, token: Token) -> Slot<S> {
        if token.loop_back() {
            self.loop_back.slot(token.id())
        } else {
            self.regular.slot(token.id())
        }
    }

    /// What the buffer of an endpoint holds has changed.
    pub open spec fn with_state(self, token: Token, state: S) -> RegistryState<S> {
        if token.loop_back() {
            RegistryState { loop_back: self.loop_back.with_state(token.id(), state), ..self }
        } else {
            RegistryState { regular: self.regular.with_state(token.id(), state), ..self }
        }
    }

    /// Only what the buffer of an endpoint holds in the end counts.
    pub proof fn lemma_with_state(self, token: Token, state: S, next: S)
        requires
            self.wf(),
            self.has(token),
        ensures
            self.with_state(token, self.slot(token).state) == self,
            self.with_state(token, state).with_state(token, next) == self.with_state(token, next),
    {
        if token.loop_back() {
            self.loop_back.lemma_with_state(self.next_id, token.id(), state, next);
        } else {
            self.regular.lemma_with_state(self.next_id, token.id(), state, next);
        }
    }

    /// An endpoint has been registered, unless a new subject needs a slot and none is left.
    pub open spec fn registered(self, subject: SubjectId, loop_back: bool, state: S) -> Option<RegistryState<S>> {
        let next_id = (self.next_id + 1) as u64;
        if loop_back {
            Some(
                RegistryState {
                    loop_back: self.loop_back.registered(self.next_id, subject, state),
                    next_id,
                    ..self
                },
            )
        } else {
            match self.regular.registered(self.next_id, subject, state) {
                Some(regular) => Some(RegistryState { regular, next_id, ..self }),
                None => None,
            }
        }
    }

    /// An endpoint has been unregistered.
    pub open spec fn unregistered(self, token: Token) -> RegistryState<S> {
        if token.loop_back() {
            RegistryState { loop_back: self.loop_back.unregistered(token.id()), ..self }
        } else {
            RegistryState { regular: self.regular.unregistered(token.id()), ..self }
        }
    }
}

/// Every endpoint of the subject got the frame, and no other endpoint did.
pub open spec fn delivered<B: DynamicRxBuffer>(slots: Slots<B::State>, number: int, frame: Frame) -> Slots<B::State> {
    Seq::new(
        slots.len(),
        |i: int|
            if slots[i].number() == number {
                Slot { state: B::after_frame(slots[i].state, frame), ..slots[i] }
            } else {
                slots[i]
            },
    )
}

/// The first endpoints have got the frame, the endpoints from `i` on have not.
pub open spec fn delivered_before<B: DynamicRxBuffer>(
    slots: Slots<B::State>,
    number: int,
    frame: Frame,
    i: int,
) -> Slots<B::State> {
    Seq::new(slots.len(), |k: int| if k < i {
        delivered::<B>(slots, number, frame)[k]
    } else {
        slots[k]
    })
}

/// The endpoints after a message: those of its subject got it.
pub open spec fn after_message<B: DynamicRxBuffer>(
    state: RegistryState<B::State>,
    frame: Frame,
) -> RegistryState<B::State> {
    match frame.header.data_spec {
        DataSpecifier::Message(subject) => if !frame.loop_back {
            let active = delivered::<B>(state.regular.active, subject.value() as int, frame);
            RegistryState { regular: RegularState { active, next_push: None, ..state.regular }, ..state }
        } else {
            let entries = delivered::<B>(state.loop_back.entries, subject.value() as int, frame);
            RegistryState { loop_back: LoopBackState { entries, next_push: None }, ..state }
        },
        _ => state,
    }
}

/// All endpoints that receive messages.
pub struct Registry<B> {
    regular: RegularInner<B>,
    loop_back: LoopBackInner<B>,
    next_id: u64,
}

impl<B: DynamicRxBuffer> Registry<B> {
    /// What the endpoints are, and what the driver knows of them.
    pub closed spec fn state(&self) -> RegistryState<B::State> {
        RegistryState { regular: self.regular.state(), loop_back: self.loop_back.state(), next_id: self.next_id }
    }

    /// The state is valid.
    pub closed spec fn wf(&self) -> bool {
        &&& self.regular.wf(self.next_id)
        &&& self.loop_back.wf(self.next_id)
    }

    /// The parts of a valid state are valid.
    pub proof fn lemma_wf(&self)
        requires
            self.wf(),
        ensures
            self.state().wf(),
    {
        self.regular.lemma_wf(self.next_id);
        self.loop_back.lemma_wf(self.next_id);
    }

    /// No endpoints, and slots for a number of different subjects.
    pub fn new(subject_slot_count: usize) -> (r: Self)
        ensures
            r.wf(),
            r.state() == RegistryState::<B::State>::fresh(subject_slot_count as int),
    {
        Registry { regular: RegularInner::new(subject_slot_count), loop_back: LoopBackInner::new(), next_id: 0 }
    }

    /// Tells whether a further endpoint can be told apart from all others.
    pub fn can_register(&self) -> (r: bool)
        ensures
            r == (self.state().next_id < u64::MAX),
    {
        self.next_id < u64::MAX
    }

    /// Registers an endpoint. A new subject of regular messages needs a free slot, and the driver
    /// has to be told.
    pub fn register(&mut self, subject: SubjectId, buffer: B, loop_back: bool) -> (r: Result<Token, RegistrationError>)
        requires
            old(self).wf(),
            old(self).state().next_id < u64::MAX,
            buffer.wf(),
        ensures
            final(self).wf(),
            match old(self).state().registered(subject, loop_back, buffer.state()) {
                Some(after) => {
                    &&& r matches Ok(token) && {
                        &&& token.id() == old(self).state().next_id
                        &&& token.loop_back() == loop_back
                        &&& after.has(token)
                        &&& after.slot(token).state == buffer.state()
                    }
                    &&& final(self).state() == after
                    &&& after.endpoints() == old(self).state().endpoints().insert(
                        (old(self).state().next_id, loop_back),
                    )
                },
                None => {
                    &&& r == Err::<Token, RegistrationError>(RegistrationError::NoSubjectSlotLeft)
                    &&& final(self).state() == old(self).state()
                },
            },
    {
        let id: u64 = self.next_id;
        let ghost state = buffer.state();
        proof {
            self.lemma_wf();
            law_registration_adds(self.state(), subject, loop_back, state);
        }
        if loop_back {
            self.loop_back.reg_register(id, subject, buffer);
            proof {
                self.regular.lemma_larger_limit(id, (id + 1) as u64);
            }
        } else {
            match self.regular.reg_register(id, subject, buffer) {
                Ok(()) => {
                    proof {
                        self.loop_back.lemma_larger_limit(id, (id + 1) as u64);
                    }
                },
                Err(error) => {
                    return Err(error);
                },
            }
        }
        self.next_id = id + 1;
        let token = Token { id, loop_back };
        assert(self.state().slot(token).state == state);
        Ok(token)
    }

    /// Unregisters an endpoint.
    pub fn unregister(&mut self, reg_token: Token)
        requires
            old(self).wf(),
            old(self).state().has(reg_token),
        ensures
            final(self).wf(),
            final(self).state() == old(self).state().unregistered(reg_token),
            final(self).state().endpoints() == old(self).state().endpoints().remove(
                (reg_token.id(), reg_token.loop_back()),
            ),
    {
        proof {
            self.lemma_wf();
            law_unregistration_removes(self.state(), reg_token);
        }
        if !reg_token.loop_back {
            self.regular.reg_unregister(reg_token.id, Ghost(self.next_id));
        } else {
            self.loop_back.reg_unregister(reg_token.id, Ghost(self.next_id));
        }
    }

    /// Returns the priorities that have a transfer.
    pub fn pop_readiness(&self, reg_token: &Token) -> (r: PrioritySet)
        requires
            self.wf(),
            self.state().has(*reg_token),
        ensures
            r@ == B::ready(self.state().slot(*reg_token).state),
    {
        if !reg_token.loop_back {
            self.regular.buffer(reg_token.id, Ghost(self.next_id)).pop_readiness()
        } else {
            self.loop_back.buffer(reg_token.id, Ghost(self.next_id)).pop_readiness()
        }
    }

    /// Returns the buffer of an endpoint for modification.
    fn buffer_mut(&mut self, reg_token: &Token) -> (r: &mut B)
        requires
            old(self).wf(),
            old(self).state().has(*reg_token),
        ensures
            r.wf(),
            r.state() == old(self).state().slot(*reg_token).state,
            final(r).wf() ==> final(self).wf(),
            final(self).state() == old(self).state().with_state(*reg_token, final(r).state()),
            final(self).state().slot(*reg_token).state == final(r).state(),
    {
        let ghost limit = self.next_id;
        if !reg_token.loop_back {
            self.regular.buffer_mut(reg_token.id, Ghost(limit))
        } else {
            self.loop_back.buffer_mut(reg_token.id, Ghost(limit))
        }
    }

    /// Returns the priorities of the mask that have a transfer, or lets the task wait for one.
    pub fn poll_pop_readiness(&mut self, reg_token: &Token, waker: &Waker, priority_mask: PrioritySet) -> (r: Poll<
        PrioritySet,
    >)
        requires
            old(self).wf(),
            old(self).state().has(*reg_token),
        ensures
            final(self).wf(),
            final(self).state().endpoints() == old(self).state().endpoints(),
            ({
                let before = old(self).state().slot(*reg_token).state;
                let ready = B::ready(before).intersect(priority_mask@);
                match r {
                    Poll::Ready(set) => {
                        &&& set@ == ready
                        &&& ready != Set::<Priority>::empty()
                        &&& final(self).state() == old(self).state().with_state(*reg_token, before)
                    },
                    Poll::Pending => {
                        &&& ready == Set::<Priority>::empty()
                        &&& final(self).state() == old(self).state().with_state(
                            *reg_token,
                            B::after_wait(before, priority_mask@),
                        )
                    },
                }
            }),
    {
        proof {
            assert forall|buffer: B::State| (#[trigger] self.state().with_state(*reg_token, buffer)).endpoints()
                == self.state().endpoints() by {
                law_fetching_keeps_endpoints(self.state(), *reg_token, buffer);
            }
        }
        self.buffer_mut(reg_token).poll_pop_readiness(waker, priority_mask)
    }

    /// Fetches a transfer of the most urgent priority of the mask.
    pub fn try_pop(&mut self, reg_token: &Token, priority_mask: PrioritySet) -> (r: Option<(TransferMeta, &[u8])>)
        requires
            old(self).wf(),
            old(self).state().has(*reg_token),
        ensures
            final(self).wf(),
            final(self).state().endpoints() == old(self).state().endpoints(),
            final(self).state() == old(self).state().with_state(*reg_token, final(self).state().slot(*reg_token).state),
            B::is_fetch(
                old(self).state().slot(*reg_token).state,
                priority_mask@,
                match r {
                    Some((meta, bytes)) => Some((meta, bytes@)),
                    None => None,
                },
                final(self).state().slot(*reg_token).state,
            ),
            r is None <==> B::ready(old(self).state().slot(*reg_token).state).intersect(priority_mask@)
                == Set::<Priority>::empty(),
    {
        proof {
            assert forall|buffer: B::State| (#[trigger] self.state().with_state(*reg_token, buffer)).endpoints()
                == self.state().endpoints() by {
                law_fetching_keeps_endpoints(self.state(), *reg_token, buffer);
            }
        }
        self.buffer_mut(reg_token).try_pop(priority_mask)
    }

    /// Starts to hand out a message, and tells whether there is an endpoint for it.
    pub fn hub_push_start(&mut self, frame: &Frame) -> (r: bool)
        requires
            old(self).wf(),
        ensures
            final(self).wf(),
            r == (frame.header.data_spec is Message && has_next(final(self).state(), frame.loop_back)),
            final(self).state() == after_start(old(self).state(), *frame),
            final(self).state().endpoints() == old(self).state().endpoints(),
    {
        let ghost limit = self.next_id;
        let ghost before = self.state();
        proof {
            self.lemma_wf();
            law_steps_keep_endpoints::<B>(before, *frame);
        }
        let subject = match frame.header.data_spec {
            DataSpecifier::Message(id) => id,
            _ => {
                return false;
            },
        };
        let ghost number = subject.value() as int;
        if !frame.loop_back {
            let r: bool = self.regular.hub_push_start(subject, Ghost(limit));
            proof {
                if r {
                    let i = position(before.regular.active, self.state().regular.next_push->0);
                    self.regular.lemma_wf(limit);
                    assert(has_id(before.regular.active, self.state().regular.next_push->0));
                    assert(is_first_of(before.regular.active, number, i));
                }
                assert(self.state() =~= after_start(before, *frame));
            }
            r
        } else {
            let r: bool = self.loop_back.hub_push_start(subject, Ghost(limit));
            proof {
                if r {
                    let i = position(before.loop_back.entries, self.state().loop_back.next_push->0);
                    self.loop_back.lemma_wf(limit);
                    assert(has_id(before.loop_back.entries, self.state().loop_back.next_push->0));
                    assert(is_first_of(before.loop_back.entries, number, i));
                }
                assert(self.state() =~= after_start(before, *frame));
            }
            r
        }
    }

    /// Hands a message to the next endpoint, and tells whether there is a further one. Between the
    /// steps, endpoints may be used, registered and unregistered.
    pub fn hub_push_next(&mut self, frame: &Frame, mtu: Mtu) -> (r: bool)
        requires
            old(self).wf(),
        ensures
            final(self).wf(),
            r == has_next(final(self).state(), frame.loop_back),
            final(self).state() == after_step::<B>(old(self).state(), *frame),
            final(self).state().endpoints() == old(self).state().endpoints(),
    {
        let ghost limit = self.next_id;
        let ghost before = self.state();
        proof {
            self.lemma_wf();
            law_steps_keep_endpoints::<B>(before, *frame);
        }
        let r: bool = if !frame.loop_back {
            self.regular.hub_push_next(frame, mtu, Ghost(limit))
        } else {
            self.loop_back.hub_push_next(frame, mtu, Ghost(limit))
        };
        assert(self.state() =~= after_step::<B>(before, *frame));
        r
    }

    /// Hands a message to all endpoints of its subject.
    pub fn hub_push(&mut self, frame: &Frame, mtu: Mtu)
        requires
            old(self).wf(),
        ensures
            final(self).wf(),
            final(self).state() == after_message::<B>(old(self).state(), *frame),
            final(self).state().endpoints() == old(self).state().endpoints(),
    {
        let ghost before = self.state();
        proof {
            self.lemma_wf();
            law_receiving_keeps_endpoints::<B>(before, *frame);
        }
        let mut more: bool = self.hub_push_start(frame);
        let ghost mut i = start_position(before, *frame);
        proof {
            lemma_started::<B>(before, *frame);
        }
        while more
            invariant
                self.wf(),
                before.wf(),
                is_handed_out::<B>(before, *frame, self.state(), i, more),
            decreases addressees(before, *frame).len() - i,
        {
            proof {
                lemma_stepped::<B>(before, *frame, self.state(), i);
            }
            more = self.hub_push_next(frame, mtu);
            proof {
                i = i + 1;
            }
        }
        proof {
            lemma_finished::<B>(before, *frame, self.state(), i);
        }
    }

    /// Hands a message to all endpoints of its subject. They are always ready for it.
    pub fn poll_push(&mut self, frame: &Frame, mtu: Mtu) -> (r: Poll<()>)
        requires
            old(self).wf(),
        ensures
            final(self).wf(),
            r is Ready,
            final(self).state() == after_message::<B>(old(self).state(), *frame),
            final(self).state().endpoints() == old(self).state().endpoints(),
    {
        self.hub_push(frame, mtu);
        Poll::Ready(())
    }

    /// Returns the next update for the driver, or lets its task wait.
    pub fn poll_pop(&mut self, waker: &Waker) -> (r: Poll<FilterUpdate>)
        requires
            old(self).wf(),
        ensures
            final(self).wf(),
            final(self).state() == (RegistryState { regular: final(self).state().regular, ..old(self).state() }),
            r is Ready <==> old(self).state().regular.settled().has_update(),
            match r {
                Poll::Ready(update) => old(self).state().regular.settled().is_popped(
                    Popped::Update(update),
                    final(self).state().regular,
                ),
                Poll::Pending => final(self).state().regular == (RegularState {
                    waiting: true,
                    ..old(self).state().regular.settled()
                }),
            },
            final(self).state().endpoints() == old(self).state().endpoints(),
    {
        let ghost limit = self.next_id;
        proof {
            self.lemma_wf();
        }
        loop
            invariant
                self.regular.wf(limit),
                limit == self.next_id,
                self.next_id == old(self).next_id,
                self.loop_back == old(self).loop_back,
                self.loop_back.wf(limit),
                self.regular.state().settled() == old(self).regular.state().settled(),
                old(self).state().wf(),
            decreases self.regular.state().activation.len(),
        {
            let ghost before = self.regular.state();
            match self.regular.hub_poll_pop_filter_update(waker, Ghost(limit)) {
                Poll::Ready(Popped::Update(update)) => {
                    assert(before.settled() == before);
                    proof {
                        law_updates_keep_endpoints(
                            old(self).state(),
                            Popped::Update(update),
                            self.regular.state(),
                        );
                        assert(self.state() == (RegistryState { regular: self.regular.state(), ..old(self).state() }));
                    }
                    return Poll::Ready(update);
                },
                Poll::Ready(Popped::CallAgain) => {
                    assert(before.is_silent());
                },
                Poll::Pending => {
                    assert(before.settled() == before);
                    proof {
                        law_updates_keep_endpoints(old(self).state(), Popped::CallAgain, before);
                        let told = RegistryState { regular: before, ..old(self).state() };
                        assert(self.state().endpoints() =~= told.endpoints());
                    }
                    return Poll::Pending;
                },
            }
        }
    }
}

impl<S> RegistryState<S> {
    /// A change of its buffer keeps an endpoint registered.
    pub proof fn lemma_has(self, token: Token, state: S)
        requires
            self.has(token),
        ensures
            self.with_state(token, state).has(token),
    {
        let after = self.with_state(token, state);
        let id = token.id();
        if token.loop_back() {
            let i = position(self.loop_back.entries, id);
            assert(0 <= i < self.loop_back.entries.len() && self.loop_back.entries[i].id == id);
            assert(after.loop_back.entries[i].id == id);
        } else if has_id(self.regular.active, id) {
            let i = position(self.regular.active, id);
            assert(0 <= i < self.regular.active.len() && self.regular.active[i].id == id);
            assert(after.regular.active[i].id == id);
        } else {
            let i = position(self.regular.inactive, id);
            assert(0 <= i < self.regular.inactive.len() && self.regular.inactive[i].id == id);
            assert(after.regular.inactive[i].id == id);
        }
    }
}

impl<B: DynamicRxBuffer> RxReg for Registry<B> {
    type Buffer = B;

    type Token = Token;

    open spec fn wf(&self) -> bool {
        self.wf()
    }

    open spec fn has(&self, reg_token: Token) -> bool {
        self.state().has(reg_token)
    }

    open spec fn held(&self, reg_token: Token) -> B::State {
        self.state().slot(reg_token).state
    }

    open spec fn is_changed(&self, reg_token: Token, held: B::State, after: &Self) -> bool {
        after.state() == self.state().with_state(reg_token, held)
    }

    fn pop_readiness(&self, reg_token: &Token) -> (r: PrioritySet) {
        self.pop_readiness(reg_token)
    }

    fn poll_pop_readiness(&mut self, reg_token: &Token, waker: &Waker, priority_mask: PrioritySet) -> (r: Poll<
        PrioritySet,
    >) {
        proof {
            let held = self.state().slot(*reg_token).state;
            self.state().lemma_has(*reg_token, held);
            self.state().lemma_has(*reg_token, B::after_wait(held, priority_mask@));
        }
        self.poll_pop_readiness(reg_token, waker, priority_mask)
    }

    fn try_pop(&mut self, reg_token: &Token, priority_mask: PrioritySet) -> (r: Option<(TransferMeta, &[u8])>) {
        let ghost before = self.state();
        proof {
            assert forall|held: B::State| (#[trigger] before.with_state(*reg_token, held)).has(*reg_token) by {
                before.lemma_has(*reg_token, held);
            }
        }
        self.try_pop(reg_token, priority_mask)
    }
}

} // verus!
