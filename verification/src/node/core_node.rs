//! A node without any activity of its own.

use core::task::Waker;
use vstd::prelude::*;

use crate::buffer::{DynamicRxBuffer, DynamicTxBuffer};
use crate::frame::{DataSpecifier, Frame, Header, Mtu};
use crate::ids::NodeId;
use crate::link::{DynamicLink, DynamicRx, DynamicRxFilter, DynamicTx, Filter, FilterUpdate};
use crate::node::Hub;
use crate::priority::{Priority, PrioritySet};
use crate::registry::rx_msg::filter::{law_driver_is_up_to_date, law_settling_is_tracked, law_update_is_tracked};
use crate::registry::rx_msg::regular_state::{Popped, RegularState};
use crate::registry::rx_msg::steps::{after_start, after_step, has_next, law_steps_reach_all};
use crate::registry::rx_msg::{after_message, RegistryState};
use crate::registry::rx_req::after_request;
use crate::registry::tx_queue::state::{is_popped, TxQueueState};
use crate::registry::{rx_msg, rx_req, tx_msg, tx_resp, TxReg};
use crate::task::Poll;
use crate::utils::priority_trigger::Waiting;

verus! {

/// A node without any activity of its own.
///
/// It only carries transfers to and from endpoints. Users have to publish heartbeats, as every
/// node should.
pub struct CoreNode<M, Q, P, S> {
    address: NodeId,
    destination_added: bool,
    hub: Hub<M, Q, P, S>,
}

/// The frame as the node sends it.
pub open spec fn sent_by(address: NodeId, frame: Frame) -> Frame {
    Frame { header: Header { source: Some(address), ..frame.header }, ..frame }
}

/// A frame was taken from endpoints with this outcome.
pub open spec fn is_sent<P: DynamicTxBuffer>(
    address: NodeId,
    queue: TxQueueState<P::State>,
    priority_mask: PrioritySet,
    mtu: Mtu,
    frame: Frame,
    after: TxQueueState<P::State>,
) -> bool {
    exists|f: Frame| #[trigger]
        is_popped::<P>(queue, priority_mask@, mtu, Some(f), after) && frame == sent_by(address, f)
}

/// The endpoints while a task waits for a frame of one of the priorities. Nobody waits for no
/// priority.
pub open spec fn waiting_for<S>(queue: TxQueueState<S>, priorities: Set<Priority>) -> TxQueueState<S> {
    if priorities == Set::<Priority>::empty() {
        queue
    } else {
        TxQueueState { waiting: Waiting::registered(priorities), ..queue }
    }
}

/// The first of two priorities is more urgent, or the second is missing.
pub open spec fn is_before(a: Option<Priority>, b: Option<Priority>) -> bool {
    match (a, b) {
        (Some(p), Some(q)) => p.code() < q.code(),
        (Some(p), None) => true,
        (None, _) => false,
    }
}

impl<M: DynamicRxBuffer, Q: DynamicRxBuffer, P: DynamicTxBuffer, S: DynamicTxBuffer> CoreNode<M, Q, P, S> {
    /// The address of the node.
    pub closed spec fn address(&self) -> NodeId {
        self.address
    }

    /// The driver has been told the address.
    pub closed spec fn destination_added(&self) -> bool {
        self.destination_added
    }

    /// The endpoints.
    pub closed spec fn hub(&self) -> Hub<M, Q, P, S> {
        self.hub
    }

    /// A node without endpoints, for a driver with slots for a number of different subjects.
    pub fn new(address: NodeId, subject_slot_count: usize) -> (r: Self)
        ensures
            r.hub().wf(),
            r.address() == address,
            !r.destination_added(),
            r.hub().rx_msg.state() == RegistryState::<M::State>::fresh(subject_slot_count as int),
            r.hub().rx_req.state() == Map::<int, Q::State>::empty(),
            r.hub().tx_msg.queue() == TxQueueState::<P::State>::fresh(),
            r.hub().tx_msg.subjects() == Map::<u64, u64>::empty(),
            r.hub().tx_resp.queue() == TxQueueState::<S::State>::fresh(),
    {
        CoreNode { address, destination_added: false, hub: Hub::new(subject_slot_count) }
    }

    /// Returns the places at which endpoints are registered, to look at.
    pub(crate) fn hub_ref(&self) -> (r: &Hub<M, Q, P, S>)
        ensures
            *r == self.hub(),
    {
        &self.hub
    }

    /// Returns the places at which endpoints are registered.
    pub fn hub_mut(&mut self) -> (r: &mut Hub<M, Q, P, S>)
        ensures
            *r == old(self).hub(),
            final(self).hub() == *final(r),
            final(self).address() == old(self).address(),
            final(self).destination_added() == old(self).destination_added(),
    {
        &mut self.hub
    }

    /// The node, when it is clear which endpoint gets a frame first. A request has been handed over.
    pub open spec fn is_push_started(&self, frame: Frame, after: &Self) -> bool {
        &&& after.address() == self.address()
        &&& after.destination_added() == self.destination_added()
        &&& after.hub().tx_msg == self.hub().tx_msg
        &&& after.hub().tx_resp == self.hub().tx_resp
        &&& after.hub().rx_msg.state() == after_start(self.hub().rx_msg.state(), frame)
        &&& after.hub().rx_req.state() == (if self.is_request_of(frame) {
            after_request::<Q>(self.hub().rx_req.state(), frame)
        } else {
            self.hub().rx_req.state()
        })
    }

    /// The node, when one more endpoint got a message.
    pub open spec fn is_push_stepped(&self, frame: Frame, after: &Self) -> bool {
        &&& after.address() == self.address()
        &&& after.destination_added() == self.destination_added()
        &&& after.hub().tx_msg == self.hub().tx_msg
        &&& after.hub().tx_resp == self.hub().tx_resp
        &&& after.hub().rx_msg.state() == after_step::<M>(self.hub().rx_msg.state(), frame)
        &&& after.hub().rx_req == self.hub().rx_req
    }

    /// Another node asks this one.
    pub open spec fn is_request_of(&self, frame: Frame) -> bool {
        frame.header.data_spec is Request && !frame.loop_back && frame.header.destination == Some(self.address())
    }

    /// Hands a request over, or starts to hand out a message. Tells whether an endpoint waits for the
    /// message.
    pub fn push_start(&mut self, frame: &Frame, mtu: Mtu) -> (r: bool)
        requires
            old(self).hub().wf(),
        ensures
            final(self).hub().wf(),
            old(self).is_push_started(*frame, final(self)),
            r == (frame.header.data_spec is Message && has_next(final(self).hub().rx_msg.state(), frame.loop_back)),
    {
        match frame.header.data_spec {
            DataSpecifier::Message(_) => self.hub.rx_msg.hub_push_start(frame),
            DataSpecifier::Request(_) => {
                if !frame.loop_back && frame.header.destination == Some(self.address) {
                    let _ready = self.hub.rx_req.poll_push(frame, mtu);
                }
                false
            },
            _ => false,
        }
    }

    /// Hands a message to the next endpoint, and tells whether a further one waits for it. The node may
    /// be used between the steps.
    pub fn push_next(&mut self, frame: &Frame, mtu: Mtu) -> (r: bool)
        requires
            old(self).hub().wf(),
        ensures
            final(self).hub().wf(),
            old(self).is_push_stepped(*frame, final(self)),
            r == has_next(final(self).hub().rx_msg.state(), frame.loop_back),
    {
        self.hub.rx_msg.hub_push_next(frame, mtu)
    }

    /// A driver that follows the updates receives these frames.
    pub open spec fn is_tracked_by(&self, filter: Filter) -> bool {
        &&& self.hub().rx_msg.state().regular.is_tracked_by(filter.subjects)
        &&& filter.destinations == (if self.destination_added() {
            Set::<int>::empty().insert(self.address().value() as int)
        } else {
            Set::<int>::empty()
        })
    }
}

impl<M: DynamicRxBuffer, Q: DynamicRxBuffer, P: DynamicTxBuffer, S: DynamicTxBuffer> DynamicRxFilter for CoreNode<
    M,
    Q,
    P,
    S,
> {
    open spec fn wf(&self) -> bool {
        self.hub().wf()
    }

    /// The first update is the address of the node, the other ones are those of the endpoints for
    /// messages.
    open spec fn is_filter_polled(&self, r: Poll<FilterUpdate>, after: &Self) -> bool {
        &&& after.address() == self.address()
        &&& after.destination_added()
        &&& after.hub().rx_req == self.hub().rx_req
        &&& after.hub().tx_msg == self.hub().tx_msg
        &&& after.hub().tx_resp == self.hub().tx_resp
        &&& if !self.destination_added() {
            &&& r == Poll::<FilterUpdate>::Ready(FilterUpdate::AddDestination(self.address()))
            &&& after.hub().rx_msg == self.hub().rx_msg
        } else {
            let before = self.hub().rx_msg.state();
            let state = after.hub().rx_msg.state();
            &&& state == (RegistryState { regular: state.regular, ..before })
            &&& match r {
                Poll::Ready(update) => before.regular.settled().is_popped(Popped::Update(update), state.regular),
                Poll::Pending => {
                    &&& !before.regular.settled().has_update()
                    &&& state.regular == (RegularState { waiting: true, ..before.regular.settled() })
                },
            }
        }
    }

    fn poll_pop_filter(&mut self, waker: &Waker) -> (r: Poll<FilterUpdate>) {
        if !self.destination_added {
            self.destination_added = true;
            return Poll::Ready(FilterUpdate::AddDestination(self.address));
        }
        self.hub.rx_msg.poll_pop(waker)
    }
}

impl<M: DynamicRxBuffer, Q: DynamicRxBuffer, P: DynamicTxBuffer, S: DynamicTxBuffer> DynamicRx for CoreNode<
    M,
    Q,
    P,
    S,
> {
    open spec fn wf(&self) -> bool {
        self.hub().wf()
    }

    /// Messages go to the endpoints for messages, and requests of other nodes to this one go to
    /// the endpoints for requests. Other frames are ignored.
    open spec fn is_pushed(&self, frame: Frame, after: &Self) -> bool {
        &&& after.address() == self.address()
        &&& after.destination_added() == self.destination_added()
        &&& after.hub().tx_msg == self.hub().tx_msg
        &&& after.hub().tx_resp == self.hub().tx_resp
        &&& after.hub().rx_msg.state() == (if frame.header.data_spec is Message {
            after_message::<M>(self.hub().rx_msg.state(), frame)
        } else {
            self.hub().rx_msg.state()
        })
        &&& after.hub().rx_req.state() == (if self.is_request_of(frame) {
            after_request::<Q>(self.hub().rx_req.state(), frame)
        } else {
            self.hub().rx_req.state()
        })
    }

    fn poll_push(&mut self, frame: &Frame, mtu: Mtu) -> (r: Poll<()>)
        ensures
            r is Ready,
    {
        match frame.header.data_spec {
            DataSpecifier::Message(_) => self.hub.rx_msg.poll_push(frame, mtu),
            DataSpecifier::Request(_) => {
                if !frame.loop_back && frame.header.destination == Some(self.address) {
                    self.hub.rx_req.poll_push(frame, mtu)
                } else {
                    Poll::Ready(())
                }
            },
            _ => Poll::Ready(()),
        }
    }
}

impl<M: DynamicRxBuffer, Q: DynamicRxBuffer, P: DynamicTxBuffer, S: DynamicTxBuffer> DynamicTx for CoreNode<
    M,
    Q,
    P,
    S,
> {
    open spec fn wf(&self) -> bool {
        self.hub().wf()
    }

    /// The frame of the most urgent priority is sent, that of a message if there is a response of
    /// the same priority.
    open spec fn is_tx_polled(&self, priority_mask: PrioritySet, mtu: Mtu, r: Poll<Frame>, after: &Self) -> bool {
        let message = self.hub().tx_msg.queue();
        let response = self.hub().tx_resp.queue();
        let next_message = message.served_priority(priority_mask@);
        let next_response = response.served_priority(priority_mask@);
        &&& after.address() == self.address()
        &&& after.destination_added() == self.destination_added()
        &&& after.hub().rx_msg == self.hub().rx_msg
        &&& after.hub().rx_req == self.hub().rx_req
        &&& after.hub().tx_msg.subjects() == self.hub().tx_msg.subjects()
        &&& match r {
            Poll::Ready(frame) => {
                if is_before(next_response, next_message) {
                    &&& after.hub().tx_msg == self.hub().tx_msg
                    &&& is_sent::<S>(
                        self.address(),
                        response,
                        priority_mask,
                        mtu,
                        frame,
                        after.hub().tx_resp.queue(),
                    )
                } else {
                    &&& after.hub().tx_resp == self.hub().tx_resp
                    &&& is_sent::<P>(
                        self.address(),
                        message,
                        priority_mask,
                        mtu,
                        frame,
                        after.hub().tx_msg.queue(),
                    )
                }
            },
            Poll::Pending => {
                &&& next_message is None
                &&& next_response is None
                &&& after.hub().tx_msg.queue() == waiting_for(message, priority_mask@)
                &&& after.hub().tx_resp.queue() == waiting_for(response, priority_mask@)
            },
        }
    }

    fn poll_pop(&mut self, waker: &Waker, priority_mask: PrioritySet, mtu: Mtu) -> (r: Poll<Frame>) {
        let response_first: bool = match (
            self.hub.tx_resp.next_priority(priority_mask),
            self.hub.tx_msg.next_priority(priority_mask),
        ) {
            (Some(response), Some(message)) => response.into_u8() < message.into_u8(),
            (Some(_), None) => true,
            _ => false,
        };
        if !response_first {
            if let Poll::Ready(frame) = self.hub.tx_msg.poll_pop(waker, priority_mask, mtu) {
                let mut sent = frame;
                sent.header.source = Some(self.address);
                return Poll::Ready(sent);
            }
        }
        if let Poll::Ready(frame) = self.hub.tx_resp.poll_pop(waker, priority_mask, mtu) {
            let mut sent = frame;
            sent.header.source = Some(self.address);
            return Poll::Ready(sent);
        }
        Poll::Pending
    }
}

impl<M: DynamicRxBuffer, Q: DynamicRxBuffer, P: DynamicTxBuffer, S: DynamicTxBuffer> DynamicLink for CoreNode<
    M,
    Q,
    P,
    S,
> {

}

/// A driver that follows each update knows what the node needs.
pub proof fn law_node_filter<M: DynamicRxBuffer, Q: DynamicRxBuffer, P: DynamicTxBuffer, S: DynamicTxBuffer>(
    node: CoreNode<M, Q, P, S>,
    update: FilterUpdate,
    after: CoreNode<M, Q, P, S>,
    filter: Filter,
)
    requires
        node.hub().wf(),
        node.is_tracked_by(filter),
        node.is_filter_polled(Poll::Ready(update), &after),
    ensures
        after.is_tracked_by(filter.updated(update)),
{
    let next = filter.updated(update);
    if !node.destination_added() {
        assert(next.subjects == filter.subjects);
        assert(next.destinations =~= Set::<int>::empty().insert(node.address().value() as int));
    } else {
        node.hub().rx_msg.lemma_wf();
        let regular = node.hub().rx_msg.state().regular;
        let limit = node.hub().rx_msg.state().next_id;
        law_settling_is_tracked(regular, limit, filter.subjects);
        law_update_is_tracked(regular.settled(), limit, update, after.hub().rx_msg.state().regular, filter);
    }
}

/// When a driver has to wait for updates, it receives the messages of exactly the subjects that
/// have endpoints, and the service frames to the node.
pub proof fn law_node_filter_complete<M: DynamicRxBuffer, Q: DynamicRxBuffer, P: DynamicTxBuffer, S: DynamicTxBuffer>(
    node: CoreNode<M, Q, P, S>,
    after: CoreNode<M, Q, P, S>,
    filter: Filter,
)
    requires
        node.hub().wf(),
        node.is_tracked_by(filter),
        node.is_filter_polled(Poll::Pending, &after),
    ensures
        filter.subjects == node.hub().rx_msg.state().regular.subjects(),
        filter.destinations == Set::<int>::empty().insert(node.address().value() as int),
{
    node.hub().rx_msg.lemma_wf();
    let regular = node.hub().rx_msg.state().regular;
    let limit = node.hub().rx_msg.state().next_id;
    law_settling_is_tracked(regular, limit, filter.subjects);
    law_driver_is_up_to_date(regular.settled(), limit, filter.subjects);
}

/// The frame that a node sends is of the most urgent priority that is asked for and that its
/// endpoints offer.
pub proof fn law_node_sends_most_urgent<
    M: DynamicRxBuffer,
    Q: DynamicRxBuffer,
    P: DynamicTxBuffer,
    S: DynamicTxBuffer,
>(
    node: CoreNode<M, Q, P, S>,
    priority_mask: PrioritySet,
    mtu: Mtu,
    frame: Frame,
    after: CoreNode<M, Q, P, S>,
)
    requires
        node.is_tx_polled(priority_mask, mtu, Poll::Ready(frame), &after),
    ensures
        priority_mask@.contains(frame.header.priority),
        node.hub().tx_msg.queue().served_priority(priority_mask@) matches Some(p) ==> frame.header.priority.code()
            <= p.code(),
        node.hub().tx_resp.queue().served_priority(priority_mask@) matches Some(p) ==> frame.header.priority.code()
            <= p.code(),
        frame.header.source == Some(node.address()),
{
    node.hub().tx_msg.queue().lemma_first_from(priority_mask@, 0);
    node.hub().tx_resp.queue().lemma_first_from(priority_mask@, 0);
}

/// A frame that is handed over step by step, with nothing in between, has the effect of one that is
/// pushed at once. `trail` holds the node after each step.
pub proof fn law_steps_push<M: DynamicRxBuffer, Q: DynamicRxBuffer, P: DynamicTxBuffer, S: DynamicTxBuffer>(
    node: CoreNode<M, Q, P, S>,
    frame: Frame,
    trail: Seq<CoreNode<M, Q, P, S>>,
)
    requires
        node.hub().wf(),
        trail.len() > 0,
        node.is_push_started(frame, &trail[0]),
        forall|k: int|
            0 < k < trail.len() ==> frame.header.data_spec is Message && has_next(
                trail[k - 1].hub().rx_msg.state(),
                frame.loop_back,
            ) && trail[k - 1].is_push_stepped(frame, #[trigger] &trail[k]),
        frame.header.data_spec is Message ==> !has_next(trail.last().hub().rx_msg.state(), frame.loop_back),
    ensures
        node.is_pushed(frame, &trail.last()),
{
    let states = trail.map_values(|n: CoreNode<M, Q, P, S>| n.hub().rx_msg.state());
    lemma_steps_keep_rest(frame, trail, trail.len() - 1);
    if frame.header.data_spec is Message {
        node.hub().rx_msg.lemma_wf();
        assert forall|k: int| 0 < k < states.len() implies has_next(states[k - 1], frame.loop_back)
            && #[trigger] states[k] == after_step::<M>(states[k - 1], frame) by {
            let at = &trail[k];
            assert(trail[k - 1].is_push_stepped(frame, at));
        }
        law_steps_reach_all::<M>(node.hub().rx_msg.state(), frame, states);
    } else if trail.len() > 1 {
        let at = &trail[1];
        assert(trail[1 - 1].is_push_stepped(frame, at));
    }
}

/// The steps change nothing but the endpoints for messages.
proof fn lemma_steps_keep_rest<M: DynamicRxBuffer, Q: DynamicRxBuffer, P: DynamicTxBuffer, S: DynamicTxBuffer>(
    frame: Frame,
    trail: Seq<CoreNode<M, Q, P, S>>,
    k: int,
)
    requires
        0 <= k < trail.len(),
        forall|j: int| 0 < j < trail.len() ==> trail[j - 1].is_push_stepped(frame, #[trigger] &trail[j]),
    ensures
        trail[k].address() == trail[0].address(),
        trail[k].destination_added() == trail[0].destination_added(),
        trail[k].hub().tx_msg == trail[0].hub().tx_msg,
        trail[k].hub().tx_resp == trail[0].hub().tx_resp,
        trail[k].hub().rx_req == trail[0].hub().rx_req,
    decreases k,
{
    if k > 0 {
        lemma_steps_keep_rest(frame, trail, k - 1);
        let at = &trail[k];
        assert(trail[k - 1].is_push_stepped(frame, at));
    }
}

/// Where a received frame goes: a message to the endpoints for messages, a request of another node to
/// this one to the endpoints for requests, and everything else nowhere.
pub proof fn law_node_routes_frames<M: DynamicRxBuffer, Q: DynamicRxBuffer, P: DynamicTxBuffer, S: DynamicTxBuffer>(
    node: CoreNode<M, Q, P, S>,
    frame: Frame,
    after: CoreNode<M, Q, P, S>,
)
    requires
        node.is_pushed(frame, &after),
    ensures
        match frame.header.data_spec {
            DataSpecifier::Message(_) => {
                &&& after.hub().rx_msg.state() == after_message::<M>(node.hub().rx_msg.state(), frame)
                &&& after.hub().rx_req.state() == node.hub().rx_req.state()
            },
            DataSpecifier::Request(_) => {
                &&& after.hub().rx_msg.state() == node.hub().rx_msg.state()
                &&& if !frame.loop_back && frame.header.destination == Some(node.address()) {
                    after.hub().rx_req.state() == after_request::<Q>(node.hub().rx_req.state(), frame)
                } else {
                    after.hub().rx_req.state() == node.hub().rx_req.state()
                }
            },
            DataSpecifier::Response(_) => {
                &&& after.hub().rx_msg.state() == node.hub().rx_msg.state()
                &&& after.hub().rx_req.state() == node.hub().rx_req.state()
            },
        },
        after.hub().tx_msg == node.hub().tx_msg,
        after.hub().tx_resp == node.hub().tx_resp,
        after.address() == node.address(),
{
}

/// A frame that a node sends is one of its endpoints with the address of the node as its source:
/// nothing else of it is changed. It comes from the messages or from the responses, and the other ones
/// are not touched. A node has nothing to send only if none of its endpoints has.
pub proof fn law_node_adds_its_address<
    M: DynamicRxBuffer,
    Q: DynamicRxBuffer,
    P: DynamicTxBuffer,
    S: DynamicTxBuffer,
>(
    node: CoreNode<M, Q, P, S>,
    priority_mask: PrioritySet,
    mtu: Mtu,
    r: Poll<Frame>,
    after: CoreNode<M, Q, P, S>,
)
    requires
        node.is_tx_polled(priority_mask, mtu, r, &after),
    ensures
        match r {
            Poll::Ready(frame) => {
                &&& frame.header.source == Some(node.address())
                &&& exists|f: Frame|
                    {
                        &&& f.header.priority == frame.header.priority
                        &&& f.header.data_spec == frame.header.data_spec
                        &&& f.header.destination == frame.header.destination
                        &&& f.data == frame.data
                        &&& f.timestamp == frame.timestamp
                        &&& f.loop_back == frame.loop_back
                        &&& {
                            ||| #[trigger] is_popped::<P>(
                                node.hub().tx_msg.queue(),
                                priority_mask@,
                                mtu,
                                Some(f),
                                after.hub().tx_msg.queue(),
                            ) && after.hub().tx_resp == node.hub().tx_resp
                            ||| is_popped::<S>(
                                node.hub().tx_resp.queue(),
                                priority_mask@,
                                mtu,
                                Some(f),
                                after.hub().tx_resp.queue(),
                            ) && after.hub().tx_msg == node.hub().tx_msg
                        }
                    }
            },
            Poll::Pending => {
                &&& node.hub().tx_msg.queue().served(priority_mask@) is None
                &&& node.hub().tx_resp.queue().served(priority_mask@) is None
                &&& after.hub().tx_msg.queue().endpoints == node.hub().tx_msg.queue().endpoints
                &&& after.hub().tx_resp.queue().endpoints == node.hub().tx_resp.queue().endpoints
                &&& priority_mask@ != Set::<Priority>::empty() ==> {
                    &&& after.hub().tx_msg.queue().waiting.armed
                    &&& after.hub().tx_msg.queue().waiting.filter == priority_mask@
                    &&& after.hub().tx_resp.queue().waiting.armed
                    &&& after.hub().tx_resp.queue().waiting.filter == priority_mask@
                }
            },
        },
        after.hub().rx_msg == node.hub().rx_msg,
        after.hub().rx_req == node.hub().rx_req,
        after.address() == node.address(),
{
    if let Poll::Ready(frame) = r {
        let message = node.hub().tx_msg.queue();
        let response = node.hub().tx_resp.queue();
        if is_before(response.served_priority(priority_mask@), message.served_priority(priority_mask@)) {
            let f = choose|f: Frame| #[trigger]
                is_popped::<S>(response, priority_mask@, mtu, Some(f), after.hub().tx_resp.queue()) && frame == sent_by(
                    node.address(),
                    f,
                );
            let other = is_popped::<P>(message, priority_mask@, mtu, Some(f), after.hub().tx_msg.queue());
            assert(f.header.priority == frame.header.priority);
        } else {
            let f = choose|f: Frame| #[trigger]
                is_popped::<P>(message, priority_mask@, mtu, Some(f), after.hub().tx_msg.queue()) && frame == sent_by(
                    node.address(),
                    f,
                );
            assert(f.header.priority == frame.header.priority);
        }
    }
}

/// The first thing that a driver is told is the address of the node, once. From then on it is told the
/// updates of the endpoints for messages.
pub proof fn law_address_is_told_first<
    M: DynamicRxBuffer,
    Q: DynamicRxBuffer,
    P: DynamicTxBuffer,
    S: DynamicTxBuffer,
>(node: CoreNode<M, Q, P, S>, r: Poll<FilterUpdate>, after: CoreNode<M, Q, P, S>)
    requires
        node.is_filter_polled(r, &after),
    ensures
        after.destination_added(),
        after.address() == node.address(),
        !node.destination_added() ==> {
            &&& r matches Poll::Ready(update) && update == FilterUpdate::AddDestination(node.address())
            &&& after.hub().rx_msg == node.hub().rx_msg
        },
        node.destination_added() ==> !(r matches Poll::Ready(update) && (update is AddDestination
            || update is RemoveDestinationRange)),
{
}

/// A node sends a frame of its responses only if it is more urgent than every frame of its messages:
/// of two frames of the same priority, that of the message goes first.
pub proof fn law_message_before_response<
    M: DynamicRxBuffer,
    Q: DynamicRxBuffer,
    P: DynamicTxBuffer,
    S: DynamicTxBuffer,
>(
    node: CoreNode<M, Q, P, S>,
    priority_mask: PrioritySet,
    mtu: Mtu,
    frame: Frame,
    after: CoreNode<M, Q, P, S>,
    message: Priority,
    response: Priority,
)
    requires
        node.is_tx_polled(priority_mask, mtu, Poll::Ready(frame), &after),
        node.hub().tx_msg.queue().served_priority(priority_mask@) == Some(message),
        node.hub().tx_resp.queue().served_priority(priority_mask@) == Some(response),
    ensures
        message.code() <= response.code() ==> after.hub().tx_resp == node.hub().tx_resp && frame.header.priority
            == message,
        response.code() < message.code() ==> after.hub().tx_msg == node.hub().tx_msg && frame.header.priority
            == response,
{
}

} // verus!
