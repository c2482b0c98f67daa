//! Endpoints that receive requests.

use core::task::Waker;
use vstd::prelude::*;

use crate::buffer::DynamicRxBuffer;
use crate::endpoint::TransferMeta;
use crate::frame::{DataSpecifier, Frame, Mtu};
use crate::ids::ServiceId;
use crate::priority::{Priority, PrioritySet};
use crate::registry::{RegistrationError, RxReg};
use crate::task::Poll;

verus! {

/// Identity of a registered endpoint.
pub struct Token {
    service: ServiceId,
}

impl Token {
    /// The number of the service.
    pub closed spec fn number(&self) -> int {
        self.service.value() as int
    }
}

/// An endpoint and its buffer.
pub struct Entry<B> {
    service: ServiceId,
    buffer: B,
}

/// What the endpoints hold, by the numbers of their services, after a frame: the endpoint of the
/// service got a request of another node.
pub open spec fn after_request<B: DynamicRxBuffer>(endpoints: Map<int, B::State>, frame: Frame) -> Map<int, B::State> {
    match frame.header.data_spec {
        DataSpecifier::Request(service) => {
            let n = service.value() as int;
            if !frame.loop_back && endpoints.contains_key(n) {
                endpoints.insert(n, B::after_frame(endpoints[n], frame))
            } else {
                endpoints
            }
        },
        _ => endpoints,
    }
}

/// The endpoints that receive requests, at most one for each service.
pub struct Registry<B> {
    entries: Vec<Entry<B>>,
}

impl<B: DynamicRxBuffer> Registry<B> {
    /// An endpoint of the service is at the position.
    spec fn is_at(&self, number: int, i: int) -> bool {
        0 <= i < self.entries@.len() && self.entries@[i].service.value() == number
    }

    /// What the endpoints hold, by the numbers of their services.
    pub closed spec fn state(&self) -> Map<int, B::State> {
        Map::new(
            |number: int| exists|i: int| #[trigger] self.is_at(number, i),
            |number: int| self.entries@[choose|i: int| #[trigger] self.is_at(number, i)].buffer.state(),
        )
    }

    /// The services are different, and the buffers are in a valid state.
    pub closed spec fn wf(&self) -> bool {
        &&& forall|i: int| 0 <= i < self.entries@.len() ==> (#[trigger] self.entries@[i]).buffer.wf()
        &&& forall|i: int, j: int|
            0 <= i < self.entries@.len() && 0 <= j < self.entries@.len() && i != j ==> (
            #[trigger] self.entries@[i]).service.value() != (#[trigger] self.entries@[j]).service.value()
    }

    /// What the endpoint at a position holds.
    proof fn lemma_state_at(&self, i: int)
        requires
            self.wf(),
            0 <= i < self.entries@.len(),
        ensures
            self.state().contains_key(self.entries@[i].service.value() as int),
            self.state()[self.entries@[i].service.value() as int] == self.entries@[i].buffer.state(),
    {
        let n = self.entries@[i].service.value() as int;
        assert(self.is_at(n, i));
        let k = choose|k: int| #[trigger] self.is_at(n, k);
        assert(k == i);
    }

    /// One buffer changed.
    proof fn lemma_updated(&self, after: Self, i: int)
        requires
            self.wf(),
            0 <= i < self.entries@.len(),
            after.entries@.len() == self.entries@.len(),
            after.entries@[i].service == self.entries@[i].service,
            after.entries@[i].buffer.wf(),
            forall|k: int| 0 <= k < self.entries@.len() && k != i ==> after.entries@[k] == self.entries@[k],
        ensures
            after.wf(),
            after.state() == self.state().insert(
                self.entries@[i].service.value() as int,
                after.entries@[i].buffer.state(),
            ),
    {
        let n = self.entries@[i].service.value() as int;
        assert forall|k: int| 0 <= k < after.entries@.len() implies (#[trigger] after.entries@[k]).buffer.wf() by {
            if k != i {
                assert(self.entries@[k].buffer.wf());
            }
        }
        assert forall|x: int, y: int|
            0 <= x < after.entries@.len() && 0 <= y < after.entries@.len() && x != y implies (
        #[trigger] after.entries@[x]).service.value() != (#[trigger] after.entries@[y]).service.value() by {
            assert(self.entries@[x].service.value() != self.entries@[y].service.value());
        }
        let expected = self.state().insert(n, after.entries@[i].buffer.state());
        assert forall|m: int| after.state().contains_key(m) == expected.contains_key(m) by {
            if after.state().contains_key(m) {
                let k = choose|k: int| #[trigger] after.is_at(m, k);
                self.lemma_state_at(k);
            }
            if self.state().contains_key(m) {
                let k = choose|k: int| #[trigger] self.is_at(m, k);
                after.lemma_state_at(k);
            }
            after.lemma_state_at(i);
        }
        assert forall|m: int| #[trigger] after.state().contains_key(m) implies after.state()[m] == expected[m] by {
            let k = choose|k: int| #[trigger] after.is_at(m, k);
            after.lemma_state_at(k);
            self.lemma_state_at(k);
        }
        assert(after.state() =~= expected);
    }

    /// No endpoints.
    pub fn new() -> (r: Self)
        ensures
            r.wf(),
            r.state() == Map::<int, B::State>::empty(),
    {
        let r = Registry { entries: Vec::new() };
        assert(r.state() =~= Map::<int, B::State>::empty());
        r
    }

    /// Returns the position of the endpoint of a service.
    fn find(&self, service: ServiceId) -> (r: Option<usize>)
        requires
            self.wf(),
        ensures
            r is Some <==> self.state().contains_key(service.value() as int),
            r matches Some(i) ==> i < self.entries@.len() && self.entries@[i as int].service.value()
                == service.value() && self.state()[service.value() as int] == self.entries@[i as int].buffer.state(),
    {
        let number: u16 = service.into_u16();
        let mut i: usize = 0;
        while i < self.entries.len()
            invariant
                self.wf(),
                i <= self.entries@.len(),
                number == service.value(),
                forall|k: int| 0 <= k < i ==> (#[trigger] self.entries@[k]).service.value() != number,
            decreases self.entries@.len() - i,
        {
            if self.entries[i].service.into_u16() == number {
                proof {
                    self.lemma_state_at(i as int);
                }
                return Some(i);
            }
            i = i + 1;
        }
        None
    }

    /// Registers an endpoint. Only one is allowed for a service.
    pub fn register(&mut self, service: ServiceId, buffer: B, loop_back: bool) -> (r: Result<Token, RegistrationError>)
        requires
            old(self).wf(),
            buffer.wf(),
            !loop_back,
        ensures
            final(self).wf(),
            ({
                let n = service.value() as int;
                if old(self).state().contains_key(n) {
                    &&& r == Err::<Token, RegistrationError>(RegistrationError::DataSpecifierOccupied)
                    &&& final(self).state() == old(self).state()
                } else {
                    &&& r matches Ok(token) && token.number() == n
                    &&& final(self).state() == old(self).state().insert(n, buffer.state())
                }
            }),
    {
        if self.find(service).is_some() {
            return Err(RegistrationError::DataSpecifierOccupied);
        }
        let ghost before = *self;
        let ghost state = buffer.state();
        self.entries.push(Entry { service, buffer });
        proof {
            let n = service.value() as int;
            let last = before.entries@.len() as int;
            assert forall|k: int| 0 <= k < last implies (#[trigger] before.entries@[k]).service.value() != n by {
                before.lemma_state_at(k);
            }
            assert forall|k: int| 0 <= k < self.entries@.len() implies (#[trigger] self.entries@[k]).buffer.wf() by {
                if k < last {
                    assert(before.entries@[k].buffer.wf());
                }
            }
            assert forall|x: int, y: int|
                0 <= x < self.entries@.len() && 0 <= y < self.entries@.len() && x != y implies (
            #[trigger] self.entries@[x]).service.value() != (#[trigger] self.entries@[y]).service.value() by {
                if x < last && y < last {
                    assert(before.entries@[x].service.value() != before.entries@[y].service.value());
                } else if x < last {
                    assert(before.entries@[x].service.value() != n);
                } else {
                    assert(before.entries@[y].service.value() != n);
                }
            }
            let expected = before.state().insert(n, state);
            assert forall|m: int| self.state().contains_key(m) == expected.contains_key(m) by {
                if self.state().contains_key(m) {
                    let k = choose|k: int| #[trigger] self.is_at(m, k);
                    if k < last {
                        before.lemma_state_at(k);
                    }
                }
                if before.state().contains_key(m) {
                    let k = choose|k: int| #[trigger] before.is_at(m, k);
                    assert(self.is_at(m, k));
                }
                self.lemma_state_at(last);
            }
            assert forall|m: int| #[trigger] self.state().contains_key(m) implies self.state()[m] == expected[m] by {
                let k = choose|k: int| #[trigger] self.is_at(m, k);
                self.lemma_state_at(k);
                if k < last {
                    before.lemma_state_at(k);
                }
            }
            assert(self.state() =~= expected);
        }
        Ok(Token { service })
    }

    /// Unregisters an endpoint.
    pub fn unregister(&mut self, reg_token: Token)
        requires
            old(self).wf(),
            old(self).state().contains_key(reg_token.number()),
        ensures
            final(self).wf(),
            final(self).state() == old(self).state().remove(reg_token.number()),
    {
        if let Some(i) = self.find(reg_token.service) {
            let ghost before = *self;
            self.entries.remove(i);
            proof {
                before.lemma_removed(*self, i as int);
            }
        }
    }

    /// One endpoint was taken out.
    proof fn lemma_removed(&self, after: Self, i: int)
        requires
            self.wf(),
            0 <= i < self.entries@.len(),
            after.entries@ == self.entries@.remove(i),
        ensures
            after.wf(),
            after.state() == self.state().remove(self.entries@[i].service.value() as int),
    {
        let n = self.entries@[i].service.value() as int;
        assert forall|k: int| 0 <= k < after.entries@.len() implies #[trigger] after.entries@[k] == self.entries@[if k
            < i {
            k
        } else {
            k + 1
        }] by {}
        assert forall|k: int| 0 <= k < after.entries@.len() implies (#[trigger] after.entries@[k]).buffer.wf() by {
            let k0 = if k < i { k } else { k + 1 };
            assert(self.entries@[k0].buffer.wf());
        }
        assert forall|x: int, y: int|
            0 <= x < after.entries@.len() && 0 <= y < after.entries@.len() && x != y implies (
        #[trigger] after.entries@[x]).service.value() != (#[trigger] after.entries@[y]).service.value() by {
            let x0 = if x < i { x } else { x + 1 };
            let y0 = if y < i { y } else { y + 1 };
            assert(self.entries@[x0].service.value() != self.entries@[y0].service.value());
        }
        let expected = self.state().remove(n);
        assert forall|m: int| after.state().contains_key(m) == expected.contains_key(m) by {
            if after.state().contains_key(m) {
                let k = choose|k: int| #[trigger] after.is_at(m, k);
                let k0 = if k < i { k } else { k + 1 };
                self.lemma_state_at(k0);
                assert(self.entries@[k0].service.value() != self.entries@[i].service.value());
            }
            if expected.contains_key(m) {
                let k0 = choose|k: int| #[trigger] self.is_at(m, k);
                assert(k0 != i);
                let k = if k0 < i { k0 } else { k0 - 1 };
                after.lemma_state_at(k);
            }
        }
        assert forall|m: int| #[trigger] after.state().contains_key(m) implies after.state()[m] == expected[m] by {
            let k = choose|k: int| #[trigger] after.is_at(m, k);
            let k0 = if k < i { k } else { k + 1 };
            after.lemma_state_at(k);
            self.lemma_state_at(k0);
        }
        assert(after.state() =~= expected);
    }

    /// Returns the buffer of an endpoint for modification.
    fn buffer_mut(&mut self, reg_token: &Token) -> (r: &mut B)
        requires
            old(self).wf(),
            old(self).state().contains_key(reg_token.number()),
        ensures
            r.wf(),
            r.state() == old(self).state()[reg_token.number()],
            final(r).wf() ==> final(self).wf() && final(self).state() == old(self).state().insert(
                reg_token.number(),
                final(r).state(),
            ),
    {
        let i: usize = match self.find(reg_token.service) {
            Some(i) => i,
            None => 0,
        };
        let ghost before = *self;
        proof {
            assert(self.entries@[i as int].buffer.wf());
        }
        let r = &mut self.entries[i].buffer;
        proof {
            before.lemma_buffer_changed(i as int, *final(r));
        }
        r
    }

    /// The buffer of an endpoint was replaced.
    proof fn lemma_buffer_changed(self, i: int, buffer: B)
        requires
            self.wf(),
            0 <= i < self.entries@.len(),
        ensures
            forall|after: Self|
                #[trigger] after.entries@ == self.entries@.update(i, Entry { buffer, ..self.entries@[i] })
                    && buffer.wf() ==> after.wf() && after.state() == self.state().insert(
                    self.entries@[i].service.value() as int,
                    buffer.state(),
                ),
    {
        assert forall|after: Self|
            #[trigger] after.entries@ == self.entries@.update(
                i,
                Entry { buffer, ..self.entries@[i] },
            ) && buffer.wf() implies after.wf() && after.state() == self.state().insert(
            self.entries@[i].service.value() as int,
            buffer.state(),
        ) by {
            self.lemma_updated(after, i);
        }
    }

    /// Returns the priorities that have a transfer.
    pub fn pop_readiness(&self, reg_token: &Token) -> (r: PrioritySet)
        requires
            self.wf(),
            self.state().contains_key(reg_token.number()),
        ensures
            r@ == B::ready(self.state()[reg_token.number()]),
    {
        let i: usize = match self.find(reg_token.service) {
            Some(i) => i,
            None => 0,
        };
        self.entries[i].buffer.pop_readiness()
    }

    /// Returns the priorities of the mask that have a transfer, or lets the task wait for one.
    pub fn poll_pop_readiness(&mut self, reg_token: &Token, waker: &Waker, priority_mask: PrioritySet) -> (r: Poll<
        PrioritySet,
    >)
        requires
            old(self).wf(),
            old(self).state().contains_key(reg_token.number()),
        ensures
            final(self).wf(),
            ({
                let before = old(self).state()[reg_token.number()];
                let ready = B::ready(before).intersect(priority_mask@);
                match r {
                    Poll::Ready(set) => {
                        &&& set@ == ready
                        &&& ready != Set::<Priority>::empty()
                        &&& final(self).state() == old(self).state()
                    },
                    Poll::Pending => {
                        &&& ready == Set::<Priority>::empty()
                        &&& final(self).state() == old(self).state().insert(
                            reg_token.number(),
                            B::after_wait(before, priority_mask@),
                        )
                    },
                }
            }),
    {
        let ghost before = self.state();
        let r = self.buffer_mut(reg_token).poll_pop_readiness(waker, priority_mask);
        proof {
            assert(before.insert(reg_token.number(), before[reg_token.number()]) =~= before);
        }
        r
    }

    /// Fetches a transfer of the most urgent priority of the mask.
    pub fn try_pop(&mut self, reg_token: &Token, priority_mask: PrioritySet) -> (r: Option<(TransferMeta, &[u8])>)
        requires
            old(self).wf(),
            old(self).state().contains_key(reg_token.number()),
        ensures
            final(self).wf(),
            final(self).state() == old(self).state().insert(
                reg_token.number(),
                final(self).state()[reg_token.number()],
            ),
            B::is_fetch(
                old(self).state()[reg_token.number()],
                priority_mask@,
                match r {
                    Some((meta, bytes)) => Some((meta, bytes@)),
                    None => None,
                },
                final(self).state()[reg_token.number()],
            ),
            r is None <==> B::ready(old(self).state()[reg_token.number()]).intersect(priority_mask@)
                == Set::<Priority>::empty(),
    {
        self.buffer_mut(reg_token).try_pop(priority_mask)
    }

    /// Hands a frame to the endpoint of its service.
    fn hub_push(&mut self, frame: &Frame, mtu: Mtu)
        requires
            old(self).wf(),
            !frame.loop_back,
        ensures
            final(self).wf(),
            final(self).state() == after_request::<B>(old(self).state(), *frame),
    {
        if let DataSpecifier::Request(service) = frame.header.data_spec {
            if let Some(i) = self.find(service) {
                let ghost before = *self;
                proof {
                    assert(self.entries@[i as int].buffer.wf());
                }
                self.entries[i].buffer.push_frame(frame, mtu);
                proof {
                    before.lemma_updated(*self, i as int);
                }
            }
        }
    }

    /// Hands a request of another node to the endpoint of its service, which is always ready.
    pub fn poll_push(&mut self, frame: &Frame, mtu: Mtu) -> (r: Poll<()>)
        requires
            old(self).wf(),
        ensures
            final(self).wf(),
            r is Ready,
            final(self).state() == after_request::<B>(old(self).state(), *frame),
    {
        if frame.loop_back {
            return Poll::Ready(());
        }
        self.hub_push(frame, mtu);
        Poll::Ready(())
    }
}

impl<B: DynamicRxBuffer> RxReg for Registry<B> {
    type Buffer = B;

    type Token = Token;

    open spec fn wf(&self) -> bool {
        self.wf()
    }

    open spec fn has(&self, reg_token: Token) -> bool {
        self.state().contains_key(reg_token.number())
    }

    open spec fn held(&self, reg_token: Token) -> B::State {
        self.state()[reg_token.number()]
    }

    open spec fn is_changed(&self, reg_token: Token, held: B::State, after: &Self) -> bool {
        after.state() == self.state().insert(reg_token.number(), held)
    }

    fn pop_readiness(&self, reg_token: &Token) -> (r: PrioritySet) {
        self.pop_readiness(reg_token)
    }

    fn poll_pop_readiness(&mut self, reg_token: &Token, waker: &Waker, priority_mask: PrioritySet) -> (r: Poll<
        PrioritySet,
    >) {
        let ghost before = self.state();
        proof {
            assert(before.insert(reg_token.number(), before[reg_token.number()]) =~= before);
        }
        self.poll_pop_readiness(reg_token, waker, priority_mask)
    }

    fn try_pop(&mut self, reg_token: &Token, priority_mask: PrioritySet) -> (r: Option<(TransferMeta, &[u8])>) {
        self.try_pop(reg_token, priority_mask)
    }
}

/// A request of another node is given to the endpoint of its service, and to no other one. Requests
/// for which there is no endpoint, requests of the node itself and all other frames change nothing.
pub proof fn law_request_reaches_its_service<B: DynamicRxBuffer>(endpoints: Map<int, B::State>, frame: Frame, n: int)
    ensures
        after_request::<B>(endpoints, frame).dom() == endpoints.dom(),
        endpoints.contains_key(n) ==> after_request::<B>(endpoints, frame)[n] == (match frame.header.data_spec {
            DataSpecifier::Request(service) => if service.value() == n && !frame.loop_back {
                B::after_frame(endpoints[n], frame)
            } else {
                endpoints[n]
            },
            _ => endpoints[n],
        }),
{
    if let DataSpecifier::Request(service) = frame.header.data_spec {
        let k = service.value() as int;
        if !frame.loop_back && endpoints.contains_key(k) {
            assert(endpoints.insert(k, B::after_frame(endpoints[k], frame)).dom() =~= endpoints.dom());
        }
    }
}

} // verus!
