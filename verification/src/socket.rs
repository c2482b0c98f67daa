//! Publishing, subscribing and responding.

use core::task::Waker;
use vstd::prelude::*;

use crate::buffer::{rx_msg, rx_req, tx_msg, tx_resp, BufferError, DynamicRxBuffer, DynamicTxBuffer};
use crate::encoding::{BufferType, Deserialize, DeserializeError, Serialize};
use crate::endpoint::{is_extended, is_open, is_read, pushed, Rx, Transfer, TransferMeta, Tx};
use crate::ids::{law_transfer_ids_go_round, transfer_id_after, ServiceId, SubjectId, TransferId};
use crate::priority::{Priority, PrioritySet};
use crate::registry;
use crate::registry::rx_msg::endpoints::law_fetching_keeps_endpoints;
use crate::registry::tx_queue::state::{is_same_kind, registered, TxQueueState};
use crate::registry::{RegistrationError, RxReg, TxReg};
use crate::task::Poll;
use crate::time::{Duration, Instant};

verus! {

/// Why a message was not queued.
#[derive(Debug, Clone, Copy, PartialEq, Eq, Structural)]
pub enum MessageError {
    /// The buffer has no room.
    NotReady,
}

/// The next readable transfer was taken after `skipped` transfers that could not be read, or
/// there is none.
pub open spec fn is_taken<B: DynamicRxBuffer, T: Deserialize>(
    before: B::State,
    value: Option<T::V>,
    after: B::State,
    skipped: nat,
) -> bool
    decreases skipped,
{
    if skipped == 0 {
        match value {
            Some(v) => exists|meta: TransferMeta, bytes: Seq<u8>|
                #[trigger] B::is_fetch(before, Set::full(), Some((meta, bytes)), after) && T::decoded(bytes) == Ok::<
                    T::V,
                    DeserializeError,
                >(v),
            None => B::is_fetch(before, Set::full(), None, after),
        }
    } else {
        exists|middle: B::State|
            #[trigger] is_unreadable::<B, T>(before, middle) && is_taken::<B, T>(
                middle,
                value,
                after,
                (skipped - 1) as nat,
            )
    }
}

/// The value that was returned, if there is one.
pub open spec fn value_of<T: View>(r: Option<T>) -> Option<T::V> {
    match r {
        Some(value) => Some(value@),
        None => None,
    }
}

/// A transfer was fetched that could not be read.
pub open spec fn is_unreadable<B: DynamicRxBuffer, T: Deserialize>(before: B::State, after: B::State) -> bool {
    exists|meta: TransferMeta, bytes: Seq<u8>|
        #[trigger] B::is_fetch(before, Set::full(), Some((meta, bytes)), after) && T::decoded(bytes) is Err
}

/// The transfer at a position of a trail could not be read.
pub open spec fn is_step<B: DynamicRxBuffer, T: Deserialize>(trail: Seq<B::State>, i: int) -> bool {
    is_unreadable::<B, T>(trail[i], trail[i + 1])
}

/// Receives the messages of a subject.
///
/// A transfer of several frames that is not complete within the timeout is dropped. A transfer
/// that comes later than the timeout after the last one of its source is received whatever its
/// identifier is.
pub struct Subscriber<B: DynamicRxBuffer, T> {
    endpoint: Rx<registry::rx_msg::Registry<B>, T>,
}

impl<B: DynamicRxBuffer, T> Subscriber<B, T> {
    /// Identity of the endpoint.
    pub closed spec fn token(&self) -> registry::rx_msg::Token {
        self.endpoint.token()
    }

    /// Subscribes to the messages of other nodes.
    ///
    /// A subject may have several endpoints, and each one gets every message. Every subject that
    /// has an endpoint takes a slot, and the number of slots is limited.
    pub fn create<Buf: rx_msg::Buffer<T, Inner = B>>(
        reg: &mut registry::rx_msg::Registry<B>,
        buffer: Buf,
        subject: SubjectId,
        timeout: Duration,
    ) -> (r: Result<Self, RegistrationError>)
        requires
            old(reg).wf(),
            old(reg).state().next_id < u64::MAX,
            buffer.wf(),
        ensures
            final(reg).wf(),
            match old(reg).state().registered(subject, false, Buf::fresh(subject, timeout)) {
                Some(after) => {
                    &&& r matches Ok(s) && {
                        &&& s.token().id() == old(reg).state().next_id
                        &&& !s.token().loop_back()
                        &&& after.has(s.token())
                        &&& after.slot(s.token()).state == Buf::fresh(subject, timeout)
                    }
                    &&& final(reg).state() == after
                    &&& after.endpoints() == old(reg).state().endpoints().insert((old(reg).state().next_id, false))
                },
                None => {
                    &&& r matches Err(error) && error == RegistrationError::NoSubjectSlotLeft
                    &&& final(reg).state() == old(reg).state()
                },
            },
    {
        match Rx::create_message(reg, buffer, subject, timeout) {
            Ok(endpoint) => Ok(Self { endpoint }),
            Err(error) => Err(error),
        }
    }

    /// Lets the task wait for a message.
    pub fn poll_readiness(&self, reg: &mut registry::rx_msg::Registry<B>, waker: &Waker) -> (r: Poll<PrioritySet>)
        requires
            old(reg).wf(),
            old(reg).state().has(self.token()),
        ensures
            final(reg).wf(),
            final(reg).state().has(self.token()),
            final(reg).state().endpoints() == old(reg).state().endpoints(),
            ({
                let before = old(reg).state().slot(self.token()).state;
                match r {
                    Poll::Ready(set) => {
                        &&& set@ == B::ready(before)
                        &&& set@ != Set::<Priority>::empty()
                        &&& final(reg).state() == old(reg).state().with_state(self.token(), before)
                    },
                    Poll::Pending => {
                        &&& B::ready(before) == Set::<Priority>::empty()
                        &&& final(reg).state() == old(reg).state().with_state(
                            self.token(),
                            B::after_wait(before, Set::full()),
                        )
                    },
                }
            }),
    {
        let ghost before = reg.state().slot(self.token()).state;
        proof {
            assert(B::ready(before).intersect(Set::full()) =~= B::ready(before));
            law_fetching_keeps_endpoints(reg.state(), self.token(), before);
            law_fetching_keeps_endpoints(reg.state(), self.token(), B::after_wait(before, Set::full()));
        }
        let all = PrioritySet::all();
        self.endpoint.poll_pop_readiness(reg, waker, all)
    }

    /// Unregisters the endpoint.
    pub fn close(self, reg: &mut registry::rx_msg::Registry<B>)
        requires
            old(reg).wf(),
            old(reg).state().has(self.token()),
        ensures
            final(reg).wf(),
            final(reg).state() == old(reg).state().unregistered(self.token()),
            final(reg).state().endpoints() == old(reg).state().endpoints().remove(
                (self.token().id(), self.token().loop_back()),
            ),
    {
        self.endpoint.close(reg)
    }
}

impl<B: DynamicRxBuffer, T: Deserialize> Subscriber<B, T> {
    /// Returns the next message. Transfers that cannot be read are skipped.
    pub fn try_pop(&self, reg: &mut registry::rx_msg::Registry<B>) -> (r: Option<T>)
        requires
            old(reg).wf(),
            old(reg).state().has(self.token()),
        ensures
            final(reg).wf(),
            final(reg).state().has(self.token()),
            final(reg).state().endpoints() == old(reg).state().endpoints(),
            final(reg).state() == old(reg).state().with_state(
                self.token(),
                final(reg).state().slot(self.token()).state,
            ),
            exists|skipped: nat| #[trigger]
                is_taken::<B, T>(
                    old(reg).state().slot(self.token()).state,
                    value_of(r),
                    final(reg).state().slot(self.token()).state,
                    skipped,
                ),
    {
        let ghost start = reg.state().slot(self.token()).state;
        let ghost mut skipped: nat = 0;
        let ghost mut trail: Seq<B::State> = seq![start];
        proof {
            reg.lemma_wf();
            reg.state().lemma_with_state(self.token(), start, start);
        }
        loop
            invariant
                reg.wf(),
                old(reg).wf(),
                old(reg).state().has(self.token()),
                reg.state() == old(reg).state().with_state(self.token(), reg.state().slot(self.token()).state),
                reg.state().has(self.token()),
                trail.len() == skipped + 1,
                trail[0] == start,
                trail.last() == reg.state().slot(self.token()).state,
                forall|i: int| 0 <= i < skipped ==> #[trigger] is_step::<B, T>(trail, i),
                start == old(reg).state().slot(self.token()).state,
            decreases B::count(reg.state().slot(self.token()).state),
        {
            let ghost before = reg.state().slot(self.token()).state;
            let all = PrioritySet::all();
            let res = self.endpoint.try_pop(reg, all);
            let ghost after = reg.state().slot(self.token()).state;
            proof {
                old(reg).lemma_wf();
                old(reg).state().lemma_with_state(self.token(), before, after);
                law_fetching_keeps_endpoints(old(reg).state(), self.token(), after);
            }
            match res {
                None => {
                    proof {
                        assert(is_taken::<B, T>(before, None, after, 0));
                        lemma_trail::<B, T>(trail, None, after);
                    }
                    return None;
                },
                Some(Ok(transfer)) => {
                    proof {
                        let (meta, bytes) = choose|meta: TransferMeta, bytes: Seq<u8>|
                            #[trigger] B::is_fetch(before, Set::full(), Some((meta, bytes)), after) && is_read(
                                meta,
                                bytes,
                                Ok::<Transfer<T>, DeserializeError>(transfer),
                            );
                        assert(is_taken::<B, T>(before, Some(transfer.payload@), after, 0));
                        lemma_trail::<B, T>(trail, Some(transfer.payload@), after);
                    }
                    return Some(transfer.payload);
                },
                Some(Err(error)) => {
                    proof {
                        let (meta, bytes) = choose|meta: TransferMeta, bytes: Seq<u8>|
                            #[trigger] B::is_fetch(before, Set::full(), Some((meta, bytes)), after) && is_read(
                                meta,
                                bytes,
                                Err::<Transfer<T>, DeserializeError>(error),
                            );
                        B::lemma_count(before, Set::full(), Some((meta, bytes)), after);
                        assert(is_unreadable::<B, T>(before, after));
                        let longer = trail.push(after);
                        assert forall|i: int| 0 <= i < skipped + 1 implies #[trigger] is_step::<B, T>(longer, i) by {
                            if i < skipped {
                                assert(is_step::<B, T>(trail, i));
                            }
                        }
                        trail = longer;
                        skipped = skipped + 1;
                    }
                },
            }
        }
    }
}

/// A message that was taken after a trail of transfers that could not be read.
proof fn lemma_trail<B: DynamicRxBuffer, T: Deserialize>(trail: Seq<B::State>, value: Option<T::V>, after: B::State)
    requires
        trail.len() > 0,
        is_taken::<B, T>(trail.last(), value, after, 0),
        forall|i: int| 0 <= i < trail.len() - 1 ==> #[trigger] is_step::<B, T>(trail, i),
    ensures
        is_taken::<B, T>(trail[0], value, after, (trail.len() - 1) as nat),
    decreases trail.len(),
{
    if trail.len() > 1 {
        let rest = trail.drop_first();
        assert forall|i: int| 0 <= i < rest.len() - 1 implies #[trigger] is_step::<B, T>(rest, i) by {
            assert(is_step::<B, T>(trail, i + 1));
        }
        assert(rest.last() == trail.last());
        lemma_trail::<B, T>(rest, value, after);
        assert(is_step::<B, T>(trail, 0));
        let n = (trail.len() - 1) as nat;
        assert(rest[0] == trail[1]);
        assert(is_taken::<B, T>(trail[1], value, after, (n - 1) as nat));
    }
}

/// The endpoints after a message was refused: nothing was queued, and at most the provided payload
/// buffer of one endpoint has been touched.
pub open spec fn is_not_pushed<B: DynamicTxBuffer>(
    queue: TxQueueState<B::State>,
    id: u64,
    after: TxQueueState<B::State>,
) -> bool {
    let slot = queue.endpoints[id];
    if B::push_ready(slot.state) == Set::<Priority>::empty() {
        after == queue
    } else {
        exists|bytes: Seq<u8>|
            bytes.len() == B::capacity(slot.state) && after == queue.with_slot(
                id,
                slot.started,
                #[trigger] B::after_write(slot.state, bytes),
            )
    }
}

/// Transmits the messages of a subject.
///
/// What has not been sent within the timeout is dropped. The identifiers of the transfers are
/// consecutive, so there should be one publisher for a subject.
pub struct Publisher<B, T> {
    endpoint: Tx<registry::tx_msg::Registry<B>, T>,
    priority: Priority,
    timeout: Duration,
    loop_back: bool,
    transfer_id: TransferId,
}

impl<B: DynamicTxBuffer, T> Publisher<B, T> {
    /// The number of the endpoint.
    pub closed spec fn id(&self) -> u64 {
        self.endpoint.id()
    }

    /// The number of the subject.
    pub closed spec fn key(&self) -> u64 {
        self.endpoint.key()
    }

    /// The priority of the messages.
    pub closed spec fn priority(&self) -> Priority {
        self.priority
    }

    /// The time that a message may wait.
    pub closed spec fn timeout(&self) -> Duration {
        self.timeout
    }

    /// The messages are handed back to the node.
    pub closed spec fn loop_back(&self) -> bool {
        self.loop_back
    }

    /// The identifier of the next transfer.
    pub closed spec fn transfer_id(&self) -> TransferId {
        self.transfer_id
    }

    /// The endpoint is registered, and its buffer is one for messages of the type.
    pub open spec fn is_valid(&self, reg: &registry::tx_msg::Registry<B>) -> bool where T: BufferType {
        &&& is_open::<registry::tx_msg::Registry<B>, T>(reg, self.id())
        &&& !B::is_service(reg.queue().endpoints[self.id()].state)
    }

    /// The publisher after an attempt: only a message that was queued uses up an identifier.
    pub open spec fn is_advanced(&self, is_queued: bool, after: &Self) -> bool {
        &&& after.transfer_id() == (if is_queued {
            self.transfer_id().following()
        } else {
            self.transfer_id()
        })
        &&& after.id() == self.id()
        &&& after.key() == self.key()
        &&& after.priority() == self.priority()
        &&& after.timeout() == self.timeout()
        &&& after.loop_back() == self.loop_back()
    }

    /// The transfer of a message that is published at an instant.
    pub open spec fn meta_at(&self, now: Instant) -> TransferMeta {
        TransferMeta {
            priority: self.priority(),
            address: None,
            transfer_id: self.transfer_id(),
            timestamp: now.plus(self.timeout()),
            loop_back: self.loop_back(),
        }
    }
}

impl<B: DynamicTxBuffer, T: Serialize> Publisher<B, T> {
    /// Creates a publisher. Only one is allowed for a subject.
    pub fn create<Buf: tx_msg::Buffer<T, Inner = B>>(
        reg: &mut registry::tx_msg::Registry<B>,
        buffer: Buf,
        subject: SubjectId,
        priority: Priority,
        timeout: Duration,
        loop_back: bool,
    ) -> (r: Result<Self, RegistrationError>)
        requires
            old(reg).wf(),
            old(reg).queue().next_id < u64::MAX,
            buffer.wf(),
        ensures
            final(reg).wf(),
            ({
                let s = subject.value() as u64;
                let id = old(reg).queue().next_id;
                if old(reg).subjects().contains_key(s) {
                    &&& r matches Err(error) && error == RegistrationError::DataSpecifierOccupied
                    &&& final(reg).queue() == old(reg).queue()
                    &&& final(reg).subjects() == old(reg).subjects()
                } else {
                    &&& r matches Ok(p) && {
                        &&& p.id() == id
                        &&& p.key() == s
                        &&& p.priority() == priority
                        &&& p.timeout() == timeout
                        &&& p.loop_back() == loop_back
                        &&& p.transfer_id() == TransferId::of(0)
                        &&& p.is_valid(final(reg))
                    }
                    &&& final(reg).queue() == registered::<B>(old(reg).queue(), Buf::fresh(subject, priority))
                    &&& is_extended::<B>(old(reg).queue(), final(reg).queue())
                    &&& final(reg).subjects() == old(reg).subjects().insert(s, id)
                }
            }),
    {
        match Tx::create_message(reg, buffer, subject, priority) {
            Ok(endpoint) => Ok(
                Self { endpoint, priority, timeout, loop_back, transfer_id: TransferId::default() },
            ),
            Err(error) => Err(error),
        }
    }

    /// Attempts to queue a message at an instant.
    pub fn try_push_at(&mut self, reg: &mut registry::tx_msg::Registry<B>, data: T, now: Instant) -> (r: Result<
        (),
        MessageError,
    >)
        requires
            old(reg).wf(),
            old(self).is_valid(old(reg)),
        ensures
            final(reg).wf(),
            final(reg).subjects() == old(reg).subjects(),
            is_same_kind::<B>(old(reg).queue(), final(reg).queue()),
            ({
                let queue = old(reg).queue();
                let slot = queue.endpoints[old(self).id()];
                let transfer = Transfer { meta: old(self).meta_at(now), payload: data };
                if B::push_ready(slot.state).contains(old(self).priority()) {
                    &&& r is Ok
                    &&& final(reg).queue() == pushed::<B, T>(queue, old(self).id(), transfer)
                } else {
                    &&& r == Err::<(), MessageError>(MessageError::NotReady)
                    &&& is_not_pushed::<B>(queue, old(self).id(), final(reg).queue())
                }
            }),
            old(self).is_advanced(r is Ok, final(self)),
    {
        let meta = TransferMeta {
            priority: self.priority,
            address: None,
            transfer_id: self.transfer_id,
            timestamp: now.saturating_add(self.timeout),
            loop_back: self.loop_back,
        };
        match self.endpoint.try_push(reg, Transfer { meta, payload: data }) {
            Ok(()) => {
                self.transfer_id = self.transfer_id.next();
                Ok(())
            },
            Err(_) => Err(MessageError::NotReady),
        }
    }

    /// Attempts to queue a message now. The clock decides on its deadline.
    pub fn try_push(&mut self, reg: &mut registry::tx_msg::Registry<B>, data: T) -> (r: Result<(), MessageError>)
        requires
            old(reg).wf(),
            old(self).is_valid(old(reg)),
        ensures
            final(reg).wf(),
            final(reg).subjects() == old(reg).subjects(),
            is_same_kind::<B>(old(reg).queue(), final(reg).queue()),
            r is Err ==> r == Err::<(), MessageError>(MessageError::NotReady) && is_not_pushed::<B>(
                old(reg).queue(),
                old(self).id(),
                final(reg).queue(),
            ),
            r is Ok <==> B::push_ready(old(reg).queue().endpoints[old(self).id()].state).contains(old(self).priority()),
            r is Ok ==> exists|now: Instant|
                final(reg).queue() == pushed::<B, T>(
                    old(reg).queue(),
                    old(self).id(),
                    Transfer { meta: #[trigger] old(self).meta_at(now), payload: data },
                ),
            old(self).is_advanced(r is Ok, final(self)),
    {
        let now = Instant::now();
        self.try_push_at(reg, data, now)
    }

    /// Lets the task wait until a message can be queued.
    pub fn poll_push_readiness(&self, reg: &mut registry::tx_msg::Registry<B>, waker: &Waker) -> (r: Poll<PrioritySet>)
        requires
            old(reg).wf(),
            self.is_valid(old(reg)),
        ensures
            final(reg).wf(),
            final(reg).subjects() == old(reg).subjects(),
            is_same_kind::<B>(old(reg).queue(), final(reg).queue()),
            ({
                let slot = old(reg).queue().endpoints[self.id()];
                let one = Set::<Priority>::empty().insert(self.priority());
                match r {
                    Poll::Ready(set) => {
                        &&& B::push_ready(slot.state).contains(self.priority())
                        &&& set@ == one
                        &&& final(reg).queue() == old(reg).queue()
                    },
                    Poll::Pending => {
                        &&& !B::push_ready(slot.state).contains(self.priority())
                        &&& final(reg).queue() == old(reg).queue().with_slot(
                            self.id(),
                            slot.started,
                            B::after_wait_push(slot.state, one),
                        )
                    },
                }
            }),
    {
        let ghost ready = B::push_ready(reg.queue().endpoints[self.id()].state);
        let ghost one = Set::<Priority>::empty().insert(self.priority());
        proof {
            if ready.contains(self.priority()) {
                assert(ready.intersect(one) =~= one);
                assert(one.contains(self.priority()));
            } else {
                assert(ready.intersect(one) =~= Set::<Priority>::empty());
            }
        }
        let mask = PrioritySet::new_eq(self.priority);
        self.endpoint.poll_push_readiness(reg, waker, mask)
    }

    /// Unregisters the endpoint.
    pub fn close(self, reg: &mut registry::tx_msg::Registry<B>)
        requires
            old(reg).wf(),
            old(reg).subjects().contains_key(self.key()),
            old(reg).subjects()[self.key()] == self.id(),
        ensures
            final(reg).wf(),
            final(reg).queue() == old(reg).queue().unregistered(self.id()),
            final(reg).queue().endpoints == old(reg).queue().endpoints.remove(self.id()),
            final(reg).subjects() == old(reg).subjects().remove(self.key()),
    {
        self.endpoint.close(reg)
    }
}

/// The number of attempts that were successful.
pub open spec fn success_count(outcomes: Seq<bool>) -> nat
    decreases outcomes.len(),
{
    if outcomes.len() == 0 {
        0
    } else {
        success_count(outcomes.drop_last()) + (if outcomes.last() {
            1nat
        } else {
            0
        })
    }
}

/// The attempt at a position of a trail had its outcome.
pub open spec fn is_attempt<B: DynamicTxBuffer, T>(trail: Seq<Publisher<B, T>>, outcomes: Seq<bool>, i: int) -> bool {
    trail[i].is_advanced(outcomes[i], &trail[i + 1])
}

/// A message has the identifier that counts the messages queued before it, modulo 32: attempts that
/// failed do not count. The rest of its transfer is what the publisher was created with. `trail`
/// holds the publisher before and after each attempt.
pub proof fn law_messages_are_counted<B: DynamicTxBuffer, T>(
    trail: Seq<Publisher<B, T>>,
    outcomes: Seq<bool>,
    now: Instant,
)
    requires
        trail.len() == outcomes.len() + 1,
        trail[0].transfer_id() == TransferId::of(0),
        forall|i: int| 0 <= i < outcomes.len() ==> #[trigger] is_attempt(trail, outcomes, i),
    ensures
        trail.last().transfer_id() == transfer_id_after(TransferId::of(0), success_count(outcomes)),
        trail.last().meta_at(now) == (TransferMeta {
            priority: trail[0].priority(),
            address: None,
            transfer_id: TransferId::of((success_count(outcomes) % 32) as u8),
            timestamp: now.plus(trail[0].timeout()),
            loop_back: trail[0].loop_back(),
        }),
    decreases outcomes.len(),
{
    let n = outcomes.len() - 1;
    if n >= 0 {
        let first = trail.drop_last();
        let before = outcomes.drop_last();
        assert forall|i: int| 0 <= i < before.len() implies #[trigger] is_attempt(first, before, i) by {
            assert(is_attempt(trail, outcomes, i));
        }
        law_messages_are_counted(first, before, now);
        assert(is_attempt(trail, outcomes, n));
        assert(first.last() == trail[n]);
    }
    TransferId::lemma_of(0);
    law_transfer_ids_go_round(TransferId::of(0), success_count(outcomes));
    TransferId::lemma_value(trail.last().transfer_id());
}

/// What a responder does next.
#[derive(Debug, Clone, Copy)]
pub enum ResponderStep {
    /// It waits until a request or a response of a further priority is possible.
    Wait {
        /// The priorities of requests to wait for.
        req: PrioritySet,
        /// The priorities of responses to wait for.
        resp: PrioritySet,
    },
    /// It fetches a request that can be answered.
    Fetch,
}

/// Answers the requests of a service.
///
/// A request of several frames that is not complete within its timeout is dropped. A request that
/// comes later than the timeout after the last one of its source is answered whatever its
/// identifier is.
///
/// The timeout of a response starts with the reception of the request. What has not been sent
/// until then is dropped.
///
/// The priorities are independent of each other: a less urgent request can be answered while there
/// is no room for a more urgent response.
pub struct Responder<Q: DynamicRxBuffer, P: DynamicTxBuffer, Req, Resp> {
    req: Rx<registry::rx_req::Registry<Q>, Req>,
    resp: Tx<registry::tx_resp::Registry<P>, Resp>,
    resp_timeout: Duration,
}

/// The response to a request inherits its priority, its address and its identifier.
pub open spec fn response_meta(request: TransferMeta, resp_timeout: Duration) -> TransferMeta {
    TransferMeta { timestamp: request.timestamp.plus(resp_timeout), loop_back: false, ..request }
}

/// The response to every request goes back to the requester, with the priority and the identifier of
/// the request, and is not looped back. Its deadline is the time of the request plus the timeout, or
/// the end of time.
pub proof fn law_response_matches_request(request: TransferMeta, resp_timeout: Duration)
    ensures
        response_meta(request, resp_timeout).priority == request.priority,
        response_meta(request, resp_timeout).address == request.address,
        response_meta(request, resp_timeout).transfer_id == request.transfer_id,
        !response_meta(request, resp_timeout).loop_back,
        response_meta(request, resp_timeout).timestamp.ticks == (if request.timestamp.ticks + resp_timeout.ticks
            <= u64::MAX {
            request.timestamp.ticks + resp_timeout.ticks
        } else {
            u64::MAX as int
        }),
{
}

/// Every message of a publisher goes to all nodes, with the priority, the loop-back setting and the
/// next identifier of the publisher. Its deadline is the current time plus the timeout, or the end of
/// time. The identifier of the following message is the next one modulo 32 if the message was queued,
/// and the same otherwise.
pub proof fn law_message_has_the_settings_of_its_publisher<B: DynamicTxBuffer, T>(
    publisher: Publisher<B, T>,
    now: Instant,
    is_queued: bool,
    after: Publisher<B, T>,
)
    requires
        publisher.is_advanced(is_queued, &after),
    ensures
        publisher.meta_at(now).priority == publisher.priority(),
        publisher.meta_at(now).address is None,
        publisher.meta_at(now).transfer_id == publisher.transfer_id(),
        publisher.meta_at(now).loop_back == publisher.loop_back(),
        publisher.meta_at(now).timestamp.ticks == (if now.ticks + publisher.timeout().ticks <= u64::MAX {
            now.ticks + publisher.timeout().ticks
        } else {
            u64::MAX as int
        }),
        after.transfer_id().value() == (if is_queued {
            (publisher.transfer_id().value() + 1) % 32
        } else {
            publisher.transfer_id().value() as int
        }),
        after.priority() == publisher.priority(),
        after.timeout() == publisher.timeout(),
        after.loop_back() == publisher.loop_back(),
        after.id() == publisher.id(),
        after.key() == publisher.key(),
{
    TransferId::lemma_of(((publisher.transfer_id().value() + 1) % 32) as u8);
}

/// A message that is taken is the first one that can be read, and only the unreadable ones before it
/// are dropped: if the next transfer can be read, it is the one that is returned.
pub proof fn law_readable_message_is_returned<B: DynamicRxBuffer, T: Deserialize>(
    before: B::State,
    value: Option<T::V>,
    after: B::State,
    skipped: nat,
)
    requires
        is_taken::<B, T>(before, value, after, skipped),
        forall|meta: TransferMeta, bytes: Seq<u8>, next: B::State| #[trigger]
            B::is_fetch(before, Set::full(), Some((meta, bytes)), next) ==> T::decoded(bytes) is Ok,
    ensures
        skipped == 0,
        match value {
            Some(v) => exists|meta: TransferMeta, bytes: Seq<u8>|
                #[trigger] B::is_fetch(before, Set::full(), Some((meta, bytes)), after) && T::decoded(bytes) == Ok::<
                    T::V,
                    DeserializeError,
                >(v),
            None => B::is_fetch(before, Set::full(), None, after),
        },
{
}

impl<Q: DynamicRxBuffer, P: DynamicTxBuffer, Req, Resp> Responder<Q, P, Req, Resp> {
    /// Identity of the endpoint that receives requests.
    pub closed spec fn token(&self) -> registry::rx_req::Token {
        self.req.token()
    }

    /// The number of the endpoint that transmits responses.
    pub closed spec fn id(&self) -> u64 {
        self.resp.id()
    }

    /// The time that a response may take.
    pub closed spec fn resp_timeout(&self) -> Duration {
        self.resp_timeout
    }

    /// The endpoints are registered, and the buffer is one for responses of the type.
    pub open spec fn is_valid(
        &self,
        rx: &registry::rx_req::Registry<Q>,
        tx: &registry::tx_resp::Registry<P>,
    ) -> bool where Resp: BufferType {
        &&& rx.state().contains_key(self.token().number())
        &&& is_open::<registry::tx_resp::Registry<P>, Resp>(tx, self.id())
        &&& P::is_service(tx.queue().endpoints[self.id()].state)
    }

    /// Decides what to do when requests and responses of some priorities are possible.
    pub fn next_step(req_priorities: PrioritySet, resp_priorities: PrioritySet) -> (r: ResponderStep)
        ensures
            match r {
                ResponderStep::Wait { req, resp } => {
                    &&& req_priorities@.intersect(resp_priorities@) == Set::<Priority>::empty()
                    &&& req@ == req_priorities@.complement()
                    &&& resp@ == resp_priorities@.complement()
                },
                ResponderStep::Fetch => req_priorities@.intersect(resp_priorities@) != Set::<Priority>::empty(),
            },
    {
        if req_priorities.intersect(resp_priorities).is_empty() {
            ResponderStep::Wait { req: req_priorities.complement(), resp: resp_priorities.complement() }
        } else {
            ResponderStep::Fetch
        }
    }

    /// Lets the task wait for a request of one of the priorities.
    pub fn poll_request(&self, rx: &mut registry::rx_req::Registry<Q>, waker: &Waker, priority_mask: PrioritySet) -> (r:
        Poll<PrioritySet>)
        requires
            old(rx).wf(),
            old(rx).state().contains_key(self.token().number()),
        ensures
            final(rx).wf(),
            ({
                let n = self.token().number();
                let before = old(rx).state()[n];
                let ready = Q::ready(before).intersect(priority_mask@);
                match r {
                    Poll::Ready(set) => {
                        &&& set@ == ready
                        &&& ready != Set::<Priority>::empty()
                        &&& final(rx).state() == old(rx).state()
                    },
                    Poll::Pending => {
                        &&& ready == Set::<Priority>::empty()
                        &&& final(rx).state() == old(rx).state().insert(n, Q::after_wait(before, priority_mask@))
                    },
                }
            }),
    {
        let ghost before = rx.state();
        let ghost n = self.token().number();
        let r = self.req.poll_pop_readiness(rx, waker, priority_mask);
        proof {
            assert(before.insert(n, before[n]) =~= before);
        }
        r
    }

    /// Lets the task wait until a response of one of the priorities can be queued.
    pub fn poll_response(&self, tx: &mut registry::tx_resp::Registry<P>, waker: &Waker, priority_mask: PrioritySet) -> (r:
        Poll<PrioritySet>)
        requires
            old(tx).wf(),
            old(tx).queue().endpoints.contains_key(self.id()),
        ensures
            final(tx).wf(),
            is_same_kind::<P>(old(tx).queue(), final(tx).queue()),
            ({
                let slot = old(tx).queue().endpoints[self.id()];
                let ready = P::push_ready(slot.state).intersect(priority_mask@);
                match r {
                    Poll::Ready(set) => {
                        &&& set@ == ready
                        &&& ready != Set::<Priority>::empty()
                        &&& final(tx).queue() == old(tx).queue()
                    },
                    Poll::Pending => {
                        &&& ready == Set::<Priority>::empty()
                        &&& final(tx).queue() == old(tx).queue().with_slot(
                            self.id(),
                            slot.started,
                            P::after_wait_push(slot.state, priority_mask@),
                        )
                    },
                }
            }),
    {
        self.resp.poll_push_readiness(tx, waker, priority_mask)
    }
}

impl<Q: DynamicRxBuffer, P: DynamicTxBuffer, Req: Deserialize, Resp: Serialize> Responder<Q, P, Req, Resp> {
    /// Creates a responder. Only one is allowed for a service.
    pub fn create<ReqBuf: rx_req::Buffer<Req, Inner = Q>, RespBuf: tx_resp::Buffer<Resp, Inner = P>>(
        rx: &mut registry::rx_req::Registry<Q>,
        tx: &mut registry::tx_resp::Registry<P>,
        req_buffer: ReqBuf,
        resp_buffer: RespBuf,
        service_id: ServiceId,
        req_timeout: Duration,
        resp_timeout: Duration,
    ) -> (r: Result<Self, RegistrationError>)
        requires
            old(rx).wf(),
            old(tx).wf(),
            old(tx).queue().next_id < u64::MAX,
            req_buffer.wf(),
            resp_buffer.wf(),
        ensures
            final(rx).wf(),
            final(tx).wf(),
            ({
                let n = service_id.value() as int;
                if old(rx).state().contains_key(n) {
                    &&& r matches Err(error) && error == RegistrationError::DataSpecifierOccupied
                    &&& final(rx).state() == old(rx).state()
                    &&& final(tx).queue() == old(tx).queue()
                } else {
                    &&& r matches Ok(s) && {
                        &&& s.token().number() == n
                        &&& s.id() == old(tx).queue().next_id
                        &&& s.resp_timeout() == resp_timeout
                        &&& s.is_valid(final(rx), final(tx))
                    }
                    &&& final(rx).state() == old(rx).state().insert(n, ReqBuf::fresh(service_id, req_timeout))
                    &&& final(tx).queue() == registered::<P>(old(tx).queue(), RespBuf::fresh(service_id))
                    &&& is_extended::<P>(old(tx).queue(), final(tx).queue())
                }
            }),
    {
        let req = match Rx::create_request(rx, req_buffer, service_id, req_timeout) {
            Ok(req) => req,
            Err(error) => {
                return Err(error);
            },
        };
        match Tx::create_response(tx, resp_buffer, service_id) {
            Ok(resp) => Ok(Self { req, resp, resp_timeout }),
            Err(error) => Err(error),
        }
    }

    /// Fetches the most urgent request of one of the priorities, and reads its payload.
    ///
    /// There may be none any more, and its payload may not be readable.
    pub fn fetch_request(&self, rx: &mut registry::rx_req::Registry<Q>, resp_priorities: PrioritySet) -> (r: Option<
        Transfer<Req>,
    >)
        requires
            old(rx).wf(),
            old(rx).state().contains_key(self.token().number()),
        ensures
            final(rx).wf(),
            ({
                let n = self.token().number();
                let before = old(rx).state()[n];
                let after = final(rx).state()[n];
                &&& final(rx).state() == old(rx).state().insert(n, after)
                &&& match r {
                    Some(transfer) => exists|meta: TransferMeta, bytes: Seq<u8>|
                        #[trigger] Q::is_fetch(before, resp_priorities@, Some((meta, bytes)), after) && is_read(
                            meta,
                            bytes,
                            Ok::<Transfer<Req>, DeserializeError>(transfer),
                        ),
                    None => {
                        ||| Q::ready(before).intersect(resp_priorities@) == Set::<Priority>::empty() && Q::is_fetch(
                            before,
                            resp_priorities@,
                            None,
                            after,
                        )
                        ||| exists|meta: TransferMeta, bytes: Seq<u8>|
                            #[trigger] Q::is_fetch(before, resp_priorities@, Some((meta, bytes)), after)
                                && Req::decoded(bytes) is Err
                    },
                }
            }),
    {
        match self.req.try_pop(rx, resp_priorities) {
            Some(Ok(transfer)) => Some(transfer),
            Some(Err(_)) => None,
            None => None,
        }
    }

    /// Queues the response to a request. It is taken if its priority is ready.
    pub fn respond(&self, tx: &mut registry::tx_resp::Registry<P>, request: TransferMeta, payload: Resp) -> (r: Result<
        (),
        BufferError,
    >)
        requires
            old(tx).wf(),
            is_open::<registry::tx_resp::Registry<P>, Resp>(old(tx), self.id()),
            P::is_service(old(tx).queue().endpoints[self.id()].state),
            P::push_ready(old(tx).queue().endpoints[self.id()].state).contains(request.priority),
            request.address is Some,
        ensures
            final(tx).wf(),
            is_same_kind::<P>(old(tx).queue(), final(tx).queue()),
            r is Ok,
            final(tx).queue() == pushed::<P, Resp>(
                old(tx).queue(),
                self.id(),
                Transfer { meta: response_meta(request, self.resp_timeout()), payload },
            ),
            exists|meta: TransferMeta|
                {
                    &&& meta.priority == request.priority
                    &&& meta.address == request.address
                    &&& meta.transfer_id == request.transfer_id
                    &&& meta.timestamp == request.timestamp.plus(self.resp_timeout())
                    &&& !meta.loop_back
                    &&& final(tx).queue() == #[trigger] pushed::<P, Resp>(
                        old(tx).queue(),
                        self.id(),
                        Transfer { meta, payload },
                    )
                },
    {
        let meta = TransferMeta {
            priority: request.priority,
            address: request.address,
            transfer_id: request.transfer_id,
            timestamp: request.timestamp.saturating_add(self.resp_timeout),
            loop_back: false,
        };
        self.resp.try_push(tx, Transfer { meta, payload })
    }

    /// Unregisters the endpoints.
    pub fn close(self, rx: &mut registry::rx_req::Registry<Q>, tx: &mut registry::tx_resp::Registry<P>)
        requires
            old(rx).wf(),
            old(tx).wf(),
            old(rx).state().contains_key(self.token().number()),
            old(tx).queue().endpoints.contains_key(self.id()),
        ensures
            final(rx).wf(),
            final(tx).wf(),
            final(rx).state() == old(rx).state().remove(self.token().number()),
            final(tx).queue() == old(tx).queue().unregistered(self.id()),
            final(tx).queue().endpoints == old(tx).queue().endpoints.remove(self.id()),
    {
        self.req.close(rx);
        self.resp.close(tx);
    }
}

/// A message that was refused changes no other endpoint, no turn and nobody who waits.
pub proof fn law_refused_message_changes_nothing_else<B: DynamicTxBuffer>(
    queue: TxQueueState<B::State>,
    id: u64,
    after: TxQueueState<B::State>,
    x: u64,
)
    requires
        is_not_pushed::<B>(queue, id, after),
        queue.endpoints.contains_key(id),
        queue.endpoints.contains_key(x),
        x != id,
    ensures
        after.endpoints.dom() == queue.endpoints.dom(),
        after.endpoints[x] == queue.endpoints[x],
        after.endpoints[id].lane == queue.endpoints[id].lane,
        after.endpoints[id].started == queue.endpoints[id].started,
        after.lanes == queue.lanes,
        after.waiting == queue.waiting,
        after.next_id == queue.next_id,
        (forall|p: Priority| !#[trigger] B::push_ready(queue.endpoints[id].state).contains(p)) ==> after == queue,
{
    let slot = queue.endpoints[id];
    if forall|p: Priority| !#[trigger] B::push_ready(slot.state).contains(p) {
        assert(B::push_ready(slot.state) =~= Set::<Priority>::empty());
    }
    if B::push_ready(slot.state) != Set::<Priority>::empty() {
        let bytes = choose|bytes: Seq<u8>|
            bytes.len() == B::capacity(slot.state) && after == queue.with_slot(
                id,
                slot.started,
                #[trigger] B::after_write(slot.state, bytes),
            );
        assert(after.endpoints.dom() =~= queue.endpoints.dom());
    }
}

} // verus!
