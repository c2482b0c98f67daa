//! Sending and receiving of transfers.

use core::marker::PhantomData;
use core::task::Waker;
use vstd::prelude::*;

use crate::buffer::{rx_msg, rx_req, tx_msg, tx_resp, BufferError, DynamicRxBuffer, DynamicTxBuffer};
use crate::encoding::{padded, BufferType, Deserialize, DeserializeError, Serialize};
use crate::format::{crc_bytes, TransferCrc, CRC_INIT};
use crate::frame::{Frame, Mtu};
use crate::ids::{NodeId, ServiceId, SubjectId, TransferId};
use crate::priority::{Priority, PrioritySet};
use crate::registry;
use crate::registry::tx_queue::state::{
    changed, due_lane, is_in_place, is_popped, is_same_kind, lemma_placed, lemma_popped_endpoints, lemma_same_kind, registered, TxQueueState,
};
use crate::registry::{RegistrationError, RxReg, TxReg, TxToken};
use crate::task::Poll;
use crate::time::{Duration, Instant};

verus! {

/// What is known of a transfer besides its payload.
#[derive(Debug, Clone, Copy, PartialEq, Eq, Structural)]
pub struct TransferMeta {
    /// Priority of the transfer.
    pub priority: Priority,
    /// The other node: the source of a received transfer, the destination of a sent one.
    pub address: Option<NodeId>,
    /// Identifier of the transfer within its session.
    pub transfer_id: TransferId,
    /// Time of reception, or the deadline of transmission.
    pub timestamp: Instant,
    /// The transfer is handed back to the node that sends it.
    pub loop_back: bool,
}

/// A transfer with its payload.
#[derive(Debug, Clone, PartialEq, Eq)]
pub struct Transfer<T> {
    /// What is known of the transfer.
    pub meta: TransferMeta,
    /// The value it carries.
    pub payload: T,
}

/// The transfer that was received, or why its payload could not be read.
pub open spec fn is_read<T: Deserialize>(
    meta: TransferMeta,
    bytes: Seq<u8>,
    r: Result<Transfer<T>, DeserializeError>,
) -> bool {
    match r {
        Ok(transfer) => transfer.meta == meta && T::decoded(bytes) == Ok::<T::V, DeserializeError>(
            transfer.payload@,
        ),
        Err(error) => T::decoded(bytes) == Err::<T::V, DeserializeError>(error),
    }
}

/// Receives the transfers of a subject or service.
///
/// A transfer of several frames that is not complete within the timeout is dropped. A transfer
/// that comes later than the timeout after the last one of its source is received whatever its
/// identifier is.
///
/// The address of a transfer is its source, which an anonymous message does not have. Its
/// timestamp is the time of reception. That of a transfer of the own node is the time of its
/// transmission.
pub struct Rx<R: RxReg, T> {
    reg_token: R::Token,
    _phantom: PhantomData<T>,
}

impl<B: DynamicRxBuffer, T> Rx<registry::rx_msg::Registry<B>, T> {
    /// Creates an endpoint for the messages of a subject.
    ///
    /// A subject may have several endpoints, and each one gets every message. Every subject that
    /// has an endpoint takes a slot, and the number of slots is limited.
    pub fn create_message<Buf: rx_msg::Buffer<T, Inner = B>>(
        reg: &mut registry::rx_msg::Registry<B>,
        buffer: Buf,
        subject: SubjectId,
        timeout: Duration,
    ) -> (r: Result<Self, RegistrationError>)
        requires
            old(reg).wf(),
            old(reg).state().next_id < u64::MAX,
            buffer.wf(),
        ensures
            final(reg).wf(),
            match old(reg).state().registered(subject, false, Buf::fresh(subject, timeout)) {
                Some(after) => {
                    &&& r matches Ok(rx) && {
                        &&& rx.token().id() == old(reg).state().next_id
                        &&& !rx.token().loop_back()
                        &&& after.has(rx.token())
                        &&& after.slot(rx.token()).state == Buf::fresh(subject, timeout)
                    }
                    &&& final(reg).state() == after
                    &&& after.endpoints() == old(reg).state().endpoints().insert((old(reg).state().next_id, false))
                },
                None => {
                    &&& r matches Err(error) && error == RegistrationError::NoSubjectSlotLeft
                    &&& final(reg).state() == old(reg).state()
                },
            },
    {
        match reg.register(subject, buffer.init(subject, timeout), false) {
            Ok(reg_token) => Ok(Self { reg_token, _phantom: PhantomData }),
            Err(error) => Err(error),
        }
    }

    /// Creates an endpoint for the messages that the node itself sends to a subject.
    ///
    /// A subject may have several endpoints, and each one gets every message. Their number is not
    /// limited, and they take no slots.
    pub fn create_message_loop_back<Buf: rx_msg::Buffer<T, Inner = B>>(
        reg: &mut registry::rx_msg::Registry<B>,
        buffer: Buf,
        subject: SubjectId,
        timeout: Duration,
    ) -> (r: Result<Self, RegistrationError>)
        requires
            old(reg).wf(),
            old(reg).state().next_id < u64::MAX,
            buffer.wf(),
        ensures
            final(reg).wf(),
            r matches Ok(rx) && {
                &&& rx.token().id() == old(reg).state().next_id
                &&& rx.token().loop_back()
                &&& final(reg).state().has(rx.token())
                &&& final(reg).state().slot(rx.token()).state == Buf::fresh(subject, timeout)
            },
            old(reg).state().registered(subject, true, Buf::fresh(subject, timeout)) == Some(final(reg).state()),
            final(reg).state().endpoints() == old(reg).state().endpoints().insert((old(reg).state().next_id, true)),
    {
        match reg.register(subject, buffer.init(subject, timeout), true) {
            Ok(reg_token) => Ok(Self { reg_token, _phantom: PhantomData }),
            Err(error) => Err(error),
        }
    }

    /// Unregisters the endpoint.
    pub fn close(self, reg: &mut registry::rx_msg::Registry<B>)
        requires
            old(reg).wf(),
            old(reg).state().has(self.token()),
        ensures
            final(reg).wf(),
            final(reg).state() == old(reg).state().unregistered(self.token()),
            final(reg).state().endpoints() == old(reg).state().endpoints().remove(
                (self.token().id(), self.token().loop_back()),
            ),
    {
        reg.unregister(self.reg_token)
    }
}

impl<B: DynamicRxBuffer, T> Rx<registry::rx_req::Registry<B>, T> {
    /// Creates an endpoint for the requests of a service. Only one is allowed for a service.
    pub fn create_request<Buf: rx_req::Buffer<T, Inner = B>>(
        reg: &mut registry::rx_req::Registry<B>,
        buffer: Buf,
        service: ServiceId,
        timeout: Duration,
    ) -> (r: Result<Self, RegistrationError>)
        requires
            old(reg).wf(),
            buffer.wf(),
        ensures
            final(reg).wf(),
            ({
                let n = service.value() as int;
                if old(reg).state().contains_key(n) {
                    &&& r matches Err(error) && error == RegistrationError::DataSpecifierOccupied
                    &&& final(reg).state() == old(reg).state()
                } else {
                    &&& r matches Ok(rx) && rx.token().number() == n
                    &&& final(reg).state() == old(reg).state().insert(n, Buf::fresh(service, timeout))
                }
            }),
    {
        match reg.register(service, buffer.init(service, timeout), false) {
            Ok(reg_token) => Ok(Self { reg_token, _phantom: PhantomData }),
            Err(error) => Err(error),
        }
    }

    /// Unregisters the endpoint.
    pub fn close(self, reg: &mut registry::rx_req::Registry<B>)
        requires
            old(reg).wf(),
            old(reg).state().contains_key(self.token().number()),
        ensures
            final(reg).wf(),
            final(reg).state() == old(reg).state().remove(self.token().number()),
    {
        reg.unregister(self.reg_token)
    }
}

impl<R: RxReg, T> Rx<R, T> {
    /// Identity of the endpoint.
    pub closed spec fn token(&self) -> R::Token {
        self.reg_token
    }

    /// Returns the priorities that have a transfer.
    ///
    /// The next fetch may fail nevertheless, if the transfer gives way to a more urgent one.
    pub fn pop_readiness(&self, reg: &R) -> (r: PrioritySet)
        requires
            reg.wf(),
            reg.has(self.token()),
        ensures
            r@ == <R::Buffer as DynamicRxBuffer>::ready(reg.held(self.token())),
    {
        reg.pop_readiness(&self.reg_token)
    }

    /// Returns the priorities of the mask that have a transfer, or lets the task wait for one.
    pub fn poll_pop_readiness(&self, reg: &mut R, waker: &Waker, priority_mask: PrioritySet) -> (r: Poll<PrioritySet>)
        requires
            old(reg).wf(),
            old(reg).has(self.token()),
        ensures
            final(reg).wf(),
            final(reg).has(self.token()),
            ({
                let before = old(reg).held(self.token());
                let ready = <R::Buffer as DynamicRxBuffer>::ready(before).intersect(priority_mask@);
                match r {
                    Poll::Ready(set) => {
                        &&& set@ == ready
                        &&& ready != Set::<Priority>::empty()
                        &&& old(reg).is_changed(self.token(), before, final(reg))
                    },
                    Poll::Pending => {
                        &&& ready == Set::<Priority>::empty()
                        &&& old(reg).is_changed(
                            self.token(),
                            <R::Buffer as DynamicRxBuffer>::after_wait(before, priority_mask@),
                            final(reg),
                        )
                    },
                }
            }),
    {
        reg.poll_pop_readiness(&self.reg_token, waker, priority_mask)
    }
}

impl<R: RxReg, T: Deserialize> Rx<R, T> {
    /// Fetches the transfer of the most urgent priority of the mask, and reads its payload.
    pub fn try_pop(&self, reg: &mut R, priority_mask: PrioritySet) -> (r: Option<
        Result<Transfer<T>, DeserializeError>,
    >)
        requires
            old(reg).wf(),
            old(reg).has(self.token()),
        ensures
            final(reg).wf(),
            final(reg).has(self.token()),
            old(reg).is_changed(self.token(), final(reg).held(self.token()), final(reg)),
            r is None <==> <R::Buffer as DynamicRxBuffer>::ready(old(reg).held(self.token())).intersect(
                priority_mask@,
            ) == Set::<Priority>::empty(),
            match r {
                Some(res) => exists|meta: TransferMeta, bytes: Seq<u8>|
                    #[trigger] <R::Buffer as DynamicRxBuffer>::is_fetch(
                        old(reg).held(self.token()),
                        priority_mask@,
                        Some((meta, bytes)),
                        final(reg).held(self.token()),
                    ) && is_read(meta, bytes, res),
                None => <R::Buffer as DynamicRxBuffer>::is_fetch(
                    old(reg).held(self.token()),
                    priority_mask@,
                    None,
                    final(reg).held(self.token()),
                ),
            },
    {
        match reg.try_pop(&self.reg_token, priority_mask) {
            Some((meta, bytes)) => {
                let ghost data = bytes@;
                let res = match T::deserialize_from_bytes(bytes) {
                    Ok(payload) => Ok(Transfer { meta, payload }),
                    Err(error) => Err(error),
                };
                assert(is_read(meta, data, res));
                Some(res)
            },
            None => None,
        }
    }
}

/// The endpoint of a token, and room for every value of a type.
pub open spec fn is_open<R: TxReg, T: BufferType>(reg: &R, id: u64) -> bool {
    &&& reg.queue().endpoints.contains_key(id)
    &&& <R::Buffer as DynamicTxBuffer>::capacity(reg.queue().endpoints[id].state) == T::capacity()
}

/// What the buffer holds after a payload has been written.
pub open spec fn written<B: DynamicTxBuffer, T: Serialize>(state: B::State, payload: T) -> B::State {
    B::after_write(state, padded(payload.encoded(), T::capacity()))
}

/// The endpoints after a transfer has been pushed.
pub open spec fn pushed<B: DynamicTxBuffer, T: Serialize>(
    queue: TxQueueState<B::State>,
    id: u64,
    transfer: Transfer<T>,
) -> TxQueueState<B::State> {
    let slot = queue.endpoints[id];
    let state = written::<B, T>(slot.state, transfer.payload);
    let encoded = transfer.payload.encoded();
    changed::<B>(
        queue.with_slot(id, slot.started, state),
        id,
        B::after_push(state, transfer.meta, encoded.len() as int, crc_bytes(CRC_INIT, encoded)),
    )
}

/// A frame was fetched from the endpoints, or a task started to wait for one.
pub open spec fn is_polled<B: DynamicTxBuffer>(before: TxQueueState<B::State>, after: TxQueueState<B::State>) -> bool {
    ||| after == (TxQueueState { waiting: after.waiting, ..before })
    ||| exists|priorities: Set<Priority>, mtu: Mtu, frame: Option<Frame>| #[trigger]
        is_popped::<B>(before, priorities, mtu, frame, after)
}

/// The endpoints at a position of a trail were polled.
pub open spec fn is_polled_at<B: DynamicTxBuffer>(trail: Seq<TxQueueState<B::State>>, i: int) -> bool {
    is_polled::<B>(trail[i], trail[i + 1])
}

/// Whatever the node fetches in between, a priority of which a transfer can be pushed stays one, and
/// the next transfer of it is taken, provided that it has a destination exactly if it is a
/// response. `trail` holds the endpoints before and after each fetch.
pub proof fn law_readiness_lasts<B: DynamicTxBuffer>(
    trail: Seq<TxQueueState<B::State>>,
    id: u64,
    meta: TransferMeta,
    bytes: Seq<u8>,
)
    requires
        trail.len() > 0,
        forall|i: int| 0 <= i < trail.len() ==> (#[trigger] trail[i]).wf() && is_in_place::<B>(trail[i]),
        forall|i: int| 0 <= i < trail.len() - 1 ==> #[trigger] is_polled_at::<B>(trail, i),
        trail[0].endpoints.contains_key(id),
        B::push_ready(trail[0].endpoints[id].state).contains(meta.priority),
        meta.address is Some <==> B::is_service(trail[0].endpoints[id].state),
    ensures
        ({
            let state = trail.last().endpoints[id].state;
            &&& trail.last().endpoints.contains_key(id)
            &&& B::capacity(state) == B::capacity(trail[0].endpoints[id].state)
            &&& B::is_service(state) == B::is_service(trail[0].endpoints[id].state)
            &&& B::push_ready(state).contains(meta.priority)
            &&& B::refusal(B::after_write(state, bytes), meta) is None
        }),
    decreases trail.len(),
{
    let n = trail.len() - 1;
    if n > 0 {
        let first = trail.drop_last();
        assert forall|i: int| 0 <= i < first.len() implies (#[trigger] first[i]).wf() && is_in_place::<B>(first[i]) by {
            assert(first[i] == trail[i]);
        }
        assert forall|i: int| 0 <= i < first.len() - 1 implies #[trigger] is_polled_at::<B>(first, i) by {
            assert(is_polled_at::<B>(trail, i));
        }
        law_readiness_lasts::<B>(first, id, meta, bytes);
        assert(is_polled_at::<B>(trail, n - 1));
        let before = trail[n - 1];
        let after = trail[n];
        if exists|priorities: Set<Priority>, mtu: Mtu, frame: Option<Frame>| #[trigger]
            is_popped::<B>(before, priorities, mtu, frame, after) {
            let (priorities, mtu, frame) = choose|priorities: Set<Priority>, mtu: Mtu, frame: Option<Frame>| #[trigger]
                is_popped::<B>(before, priorities, mtu, frame, after);
            lemma_popped_endpoints::<B>(before, priorities, mtu, frame, after);
        }
        assert(before.endpoints.dom().contains(id));
    }
    let state = trail.last().endpoints[id].state;
    B::lemma_written(state, bytes);
    B::lemma_after_write(state, bytes);
    B::lemma_taken(B::after_write(state, bytes), meta);
}

/// Transmits the transfers of a subject or service.
///
/// The timestamp of a transfer is its deadline: what has not been sent until then is dropped.
///
/// The address of a transfer is its destination. A message has none, a response has one.
///
/// The priority of messages is fixed, and the identifiers of their transfers should be
/// consecutive. A response should have the priority and the identifier of the request.
///
/// Frames are fetched of the most urgent priority only. Less urgent transfers wait while there is
/// no room for frames of that priority.
pub struct Tx<R, T> {
    reg_token: TxToken,
    _phantom: PhantomData<(R, T)>,
}

impl<B: DynamicTxBuffer, T: BufferType> Tx<registry::tx_msg::Registry<B>, T> {
    /// Creates an endpoint for the messages of a subject. Only one is allowed for a subject.
    pub fn create_message<Buf: tx_msg::Buffer<T, Inner = B>>(
        reg: &mut registry::tx_msg::Registry<B>,
        buffer: Buf,
        subject: SubjectId,
        priority: Priority,
    ) -> (r: Result<Self, RegistrationError>)
        requires
            old(reg).wf(),
            old(reg).queue().next_id < u64::MAX,
            buffer.wf(),
        ensures
            final(reg).wf(),
            ({
                let s = subject.value() as u64;
                let id = old(reg).queue().next_id;
                if old(reg).subjects().contains_key(s) {
                    &&& r matches Err(error) && error == RegistrationError::DataSpecifierOccupied
                    &&& final(reg).queue() == old(reg).queue()
                    &&& final(reg).subjects() == old(reg).subjects()
                } else {
                    &&& r matches Ok(tx) && tx.id() == id && tx.key() == s
                    &&& final(reg).queue() == registered::<B>(old(reg).queue(), Buf::fresh(subject, priority))
                    &&& final(reg).subjects() == old(reg).subjects().insert(s, id)
                    &&& is_open::<registry::tx_msg::Registry<B>, T>(final(reg), id)
                    &&& !B::is_service(final(reg).queue().endpoints[id].state)
                    &&& is_extended::<B>(old(reg).queue(), final(reg).queue())
                }
            }),
    {
        let ghost before = reg.queue();
        proof {
            reg.lemma_wf();
        }
        let inner = buffer.init(subject, priority);
        proof {
            lemma_registered_slot::<B>(before, inner.state());
        }
        match reg.register(subject, inner) {
            Ok(reg_token) => Ok(Self { reg_token, _phantom: PhantomData }),
            Err(error) => Err(error),
        }
    }

    /// Unregisters the endpoint.
    pub fn close(self, reg: &mut registry::tx_msg::Registry<B>)
        requires
            old(reg).wf(),
            old(reg).subjects().contains_key(self.key()),
            old(reg).subjects()[self.key()] == self.id(),
        ensures
            final(reg).wf(),
            final(reg).queue() == old(reg).queue().unregistered(self.id()),
            final(reg).queue().endpoints == old(reg).queue().endpoints.remove(self.id()),
            final(reg).subjects() == old(reg).subjects().remove(self.key()),
    {
        proof {
            reg.lemma_wf();
            reg.queue().lemma_unregistered(self.id());
        }
        reg.unregister(self.reg_token)
    }
}

/// The endpoints that were registered before still are, with what their buffers held.
pub open spec fn is_extended<B: DynamicTxBuffer>(
    before: TxQueueState<B::State>,
    after: TxQueueState<B::State>,
) -> bool {
    forall|x: u64| #[trigger]
        before.endpoints.contains_key(x) ==> after.endpoints.contains_key(x) && after.endpoints[x].state
            == before.endpoints[x].state
}

/// What is known of a new endpoint.
pub proof fn lemma_registered_slot<B: DynamicTxBuffer>(queue: TxQueueState<B::State>, state: B::State)
    requires
        queue.wf(),
        is_in_place::<B>(queue),
        queue.next_id < u64::MAX,
    ensures
        registered::<B>(queue, state).endpoints[queue.next_id].state == state,
        is_extended::<B>(queue, registered::<B>(queue, state)),
{
    let added = queue.added(state);
    queue.lemma_added(state);
    assert forall|x: u64| #[trigger] added.endpoints.contains_key(x) && x != queue.next_id implies added.endpoints[x].lane
        == due_lane::<B>(added.endpoints[x]) by {
        assert(queue.endpoints.contains_key(x));
    }
    lemma_placed::<B>(added, queue.next_id);
}

impl<B: DynamicTxBuffer, T: BufferType> Tx<registry::tx_resp::Registry<B>, T> {
    /// Creates an endpoint for the responses of a service.
    ///
    /// A service may have several endpoints. Responses do not collide, because each one belongs
    /// to a request.
    pub fn create_response<Buf: tx_resp::Buffer<T, Inner = B>>(
        reg: &mut registry::tx_resp::Registry<B>,
        buffer: Buf,
        service: ServiceId,
    ) -> (r: Result<Self, RegistrationError>)
        requires
            old(reg).wf(),
            old(reg).queue().next_id < u64::MAX,
            buffer.wf(),
        ensures
            final(reg).wf(),
            r matches Ok(tx) && tx.id() == old(reg).queue().next_id,
            final(reg).queue() == registered::<B>(old(reg).queue(), Buf::fresh(service)),
            is_open::<registry::tx_resp::Registry<B>, T>(final(reg), old(reg).queue().next_id),
            B::is_service(final(reg).queue().endpoints[old(reg).queue().next_id].state),
            is_extended::<B>(old(reg).queue(), final(reg).queue()),
    {
        let ghost before = reg.queue();
        proof {
            reg.lemma_wf();
        }
        let inner = buffer.init(service);
        proof {
            lemma_registered_slot::<B>(before, inner.state());
        }
        match reg.register(inner) {
            Ok(reg_token) => Ok(Self { reg_token, _phantom: PhantomData }),
            Err(error) => Err(error),
        }
    }

    /// Unregisters the endpoint.
    pub fn close(self, reg: &mut registry::tx_resp::Registry<B>)
        requires
            old(reg).wf(),
            old(reg).queue().endpoints.contains_key(self.id()),
        ensures
            final(reg).wf(),
            final(reg).queue() == old(reg).queue().unregistered(self.id()),
            final(reg).queue().endpoints == old(reg).queue().endpoints.remove(self.id()),
    {
        proof {
            reg.lemma_wf();
            reg.queue().lemma_unregistered(self.id());
        }
        reg.unregister(self.reg_token)
    }
}

impl<R: TxReg, T> Tx<R, T> {
    /// The number of the endpoint.
    pub closed spec fn id(&self) -> u64 {
        self.reg_token.id()
    }

    /// The number of the subject.
    pub closed spec fn key(&self) -> u64 {
        self.reg_token.key()
    }

    /// Tells whether everything has been fetched, so that the endpoint can be closed.
    pub fn all_sent(&self, reg: &R) -> (r: bool)
        requires
            reg.wf(),
            reg.queue().endpoints.contains_key(self.id()),
        ensures
            r == (<R::Buffer as DynamicTxBuffer>::pop_ready(reg.queue().endpoints[self.id()].state) == Set::<
                Priority,
            >::empty()),
    {
        reg.is_empty(&self.reg_token)
    }

    /// Lets the task wait until everything has been fetched.
    pub fn poll_all_sent(&self, reg: &mut R, waker: &Waker) -> (r: Poll<()>)
        requires
            old(reg).wf(),
            old(reg).queue().endpoints.contains_key(self.id()),
        ensures
            final(reg).wf(),
            final(reg).subjects() == old(reg).subjects(),
            is_same_kind::<R::Buffer>(old(reg).queue(), final(reg).queue()),
            ({
                let slot = old(reg).queue().endpoints[self.id()];
                &&& r is Ready <==> <R::Buffer as DynamicTxBuffer>::pop_ready(slot.state) == Set::<Priority>::empty()
                &&& final(reg).queue() == (if r is Ready {
                    old(reg).queue()
                } else {
                    old(reg).queue().with_slot(
                        self.id(),
                        slot.started,
                        <R::Buffer as DynamicTxBuffer>::after_wait_empty(slot.state),
                    )
                })
            }),
    {
        proof {
            let state = reg.queue().endpoints[self.id()].state;
            reg.lemma_queue();
            <R::Buffer as DynamicTxBuffer>::lemma_after_wait(state, Set::empty());
            lemma_same_kind::<R::Buffer>(
                reg.queue(),
                self.id(),
                <R::Buffer as DynamicTxBuffer>::after_wait_empty(state),
            );
        }
        reg.poll_is_empty(&self.reg_token, waker)
    }

    /// Returns the priorities of which a transfer can be pushed.
    ///
    /// The next transfer of one of them is taken.
    pub fn push_readiness(&self, reg: &R) -> (r: PrioritySet)
        requires
            reg.wf(),
            reg.queue().endpoints.contains_key(self.id()),
        ensures
            r@ == <R::Buffer as DynamicTxBuffer>::push_ready(reg.queue().endpoints[self.id()].state),
    {
        reg.push_readiness(&self.reg_token)
    }

    /// Lets the task wait until a transfer of one of the priorities can be pushed.
    pub fn poll_push_readiness(&self, reg: &mut R, waker: &Waker, priority_mask: PrioritySet) -> (r: Poll<PrioritySet>)
        requires
            old(reg).wf(),
            old(reg).queue().endpoints.contains_key(self.id()),
        ensures
            final(reg).wf(),
            final(reg).subjects() == old(reg).subjects(),
            is_same_kind::<R::Buffer>(old(reg).queue(), final(reg).queue()),
            ({
                let slot = old(reg).queue().endpoints[self.id()];
                let ready = <R::Buffer as DynamicTxBuffer>::push_ready(slot.state).intersect(priority_mask@);
                match r {
                    Poll::Ready(set) => {
                        &&& set@ == ready
                        &&& ready != Set::<Priority>::empty()
                        &&& final(reg).queue() == old(reg).queue()
                    },
                    Poll::Pending => {
                        &&& ready == Set::<Priority>::empty()
                        &&& final(reg).queue() == old(reg).queue().with_slot(
                            self.id(),
                            slot.started,
                            <R::Buffer as DynamicTxBuffer>::after_wait_push(slot.state, priority_mask@),
                        )
                    },
                }
            }),
    {
        proof {
            let state = reg.queue().endpoints[self.id()].state;
            reg.lemma_queue();
            <R::Buffer as DynamicTxBuffer>::lemma_after_wait(state, priority_mask@);
            lemma_same_kind::<R::Buffer>(
                reg.queue(),
                self.id(),
                <R::Buffer as DynamicTxBuffer>::after_wait_push(state, priority_mask@),
            );
        }
        reg.poll_push_readiness(&self.reg_token, waker, priority_mask)
    }
}

impl<R: TxReg, T: Serialize> Tx<R, T> {
    /// Attempts to queue a transfer.
    ///
    /// It is refused if its priority is not ready. Otherwise it is taken, provided that it has a
    /// destination exactly if it is a response.
    pub fn try_push(&self, reg: &mut R, transfer: Transfer<T>) -> (r: Result<(), BufferError>)
        requires
            old(reg).wf(),
            is_open::<R, T>(old(reg), self.id()),
        ensures
            final(reg).wf(),
            final(reg).subjects() == old(reg).subjects(),
            is_same_kind::<R::Buffer>(old(reg).queue(), final(reg).queue()),
            ({
                let queue = old(reg).queue();
                let slot = queue.endpoints[self.id()];
                let ready = <R::Buffer as DynamicTxBuffer>::push_ready(slot.state);
                let state = written::<R::Buffer, T>(slot.state, transfer.payload);
                if ready == Set::<Priority>::empty() {
                    &&& r == Err::<(), BufferError>(BufferError::PriorityNotReady)
                    &&& final(reg).queue() == queue
                } else if !ready.contains(transfer.meta.priority) {
                    &&& r == Err::<(), BufferError>(BufferError::PriorityNotReady)
                    &&& exists|bytes: Seq<u8>|
                        bytes.len() == T::capacity() && final(reg).queue() == queue.with_slot(
                            self.id(),
                            slot.started,
                            #[trigger] <R::Buffer as DynamicTxBuffer>::after_write(slot.state, bytes),
                        )
                } else {
                    match <R::Buffer as DynamicTxBuffer>::refusal(state, transfer.meta) {
                        Some(error) => {
                            &&& r == Err::<(), BufferError>(error)
                            &&& final(reg).queue() == queue.with_slot(self.id(), slot.started, state)
                        },
                        None => {
                            &&& r is Ok
                            &&& final(reg).queue() == pushed::<R::Buffer, T>(queue, self.id(), transfer)
                        },
                    }
                }
            }),
            ({
                let state = old(reg).queue().endpoints[self.id()].state;
                &&& <R::Buffer as DynamicTxBuffer>::push_ready(state).contains(transfer.meta.priority)
                &&& transfer.meta.address is Some <==> <R::Buffer as DynamicTxBuffer>::is_service(state)
            }) ==> r is Ok,
    {
        let ghost queue = reg.queue();
        let ghost id = self.id();
        let ghost slot = queue.endpoints[id];
        let ghost encoded = transfer.payload.encoded();
        let bits: usize = transfer.payload.size_bits();
        let length: usize = (bits + 7) / 8;
        let mut crc: TransferCrc = TransferCrc::default();
        proof {
            reg.lemma_queue();
            assert forall|bytes: Seq<u8>| is_same_kind::<R::Buffer>(
                queue,
                #[trigger] queue.with_slot(
                    id,
                    slot.started,
                    <R::Buffer as DynamicTxBuffer>::after_write(slot.state, bytes),
                ),
            ) by {
                <R::Buffer as DynamicTxBuffer>::lemma_after_write(slot.state, bytes);
                lemma_same_kind::<R::Buffer>(
                    queue,
                    id,
                    <R::Buffer as DynamicTxBuffer>::after_write(slot.state, bytes),
                );
            }
        }
        match reg.get_scratchpad(&self.reg_token) {
            Some((priorities, buffer)) => {
                if !priorities.contains(transfer.meta.priority) {
                    let ghost bytes = buffer@;
                    proof {
                        assert(bytes.len() == T::capacity());
                    }
                    return Err(BufferError::PriorityNotReady);
                }
                transfer.payload.serialize_to_bytes(buffer);
                let data: &[u8] = vstd::slice::slice_subrange(buffer, 0, length);
                proof {
                    assert(data@ =~= encoded);
                }
                crc.add_bytes(data);
            },
            None => {
                return Err(BufferError::PriorityNotReady);
            },
        }
        let ghost state = written::<R::Buffer, T>(slot.state, transfer.payload);
        proof {
            assert(reg.queue() == queue.with_slot(id, slot.started, state));
            <R::Buffer as DynamicTxBuffer>::lemma_written(slot.state, padded(encoded, T::capacity()));
            <R::Buffer as DynamicTxBuffer>::lemma_after_write(slot.state, padded(encoded, T::capacity()));
            <R::Buffer as DynamicTxBuffer>::lemma_after_push(state, transfer.meta, length as int, crc@);
            reg.lemma_queue();
            lemma_same_kind::<R::Buffer>(
                reg.queue(),
                id,
                <R::Buffer as DynamicTxBuffer>::after_push(state, transfer.meta, length as int, crc@),
            );
            if <R::Buffer as DynamicTxBuffer>::push_ready(slot.state).contains(transfer.meta.priority)
                && (transfer.meta.address is Some <==> <R::Buffer as DynamicTxBuffer>::is_service(slot.state)) {
                <R::Buffer as DynamicTxBuffer>::lemma_taken(state, transfer.meta);
            }
        }
        reg.try_push(&self.reg_token, transfer.meta, length, crc)
    }
}

/// A transfer that is read has everything that is known of it and the value of its payload. If the
/// payload cannot be read, the reason is reported.
pub proof fn law_transfer_is_read<T: Deserialize>(
    meta: TransferMeta,
    bytes: Seq<u8>,
    r: Result<Transfer<T>, DeserializeError>,
)
    requires
        is_read(meta, bytes, r),
    ensures
        match T::decoded(bytes) {
            Ok(value) => r matches Ok(transfer) && {
                &&& transfer.payload@ == value
                &&& transfer.meta.priority == meta.priority
                &&& transfer.meta.address == meta.address
                &&& transfer.meta.transfer_id == meta.transfer_id
                &&& transfer.meta.timestamp == meta.timestamp
                &&& transfer.meta.loop_back == meta.loop_back
            },
            Err(error) => r matches Err(e) && e == error,
        },
{
}

} // verus!
