//! A node that publishes heartbeats.

use vstd::prelude::*;

use crate::buffer::either::{AsFirst, Either};
use crate::buffer::tx_msg::signal::{Inner, SignalState};
use crate::buffer::tx_msg::Signal;
use crate::buffer::{DynamicRxBuffer, DynamicTxBuffer};
use crate::data_types::node::Heartbeat;
use crate::encoding::{padded, Serialize};
use crate::endpoint::{lemma_registered_slot, pushed, written, Transfer};
use crate::format::{crc_bytes, CRC_INIT};
use crate::frame::{Frame, Mtu};
use crate::ids::{NodeId, SubjectId, TransferId};
use crate::link::DynamicTx;
use crate::node::core_node::{is_before, CoreNode};
use crate::node::{Hub, Status};
use crate::priority::{Priority, PrioritySet};
use crate::registry::rx_msg::RegistryState;
use crate::registry::tx_queue::state::{
    due_lane, is_popped, lemma_changed_endpoints, lemma_popped_endpoints, registered, TxQueueState,
};
use crate::registry::{self, RegistrationError, TxReg};
use crate::socket::Publisher;
use crate::task::Poll;
use crate::time::{Duration, Instant, TICK_HZ};

verus! {

/// The buffer of heartbeats.
pub type HeartbeatBuffer = Inner<Heartbeat>;

/// A buffer of heartbeats, or one of messages of the user.
pub type MessageBuffer<P> = Either<HeartbeatBuffer, P>;

/// A node and its status.
pub struct NodeState<M, Q, P, S> {
    node: CoreNode<M, Q, P, S>,
    status: Status,
}

impl<M: DynamicRxBuffer, Q: DynamicRxBuffer, P: DynamicTxBuffer, S: DynamicTxBuffer> NodeState<M, Q, P, S> {
    /// The node.
    pub closed spec fn node(&self) -> CoreNode<M, Q, P, S> {
        self.node
    }

    /// The status that the node tells.
    pub closed spec fn current(&self) -> Status {
        self.status
    }

    /// A node without endpoints.
    pub fn new(address: NodeId, status: Status, subject_slot_count: usize) -> (r: Self)
        ensures
            r.node().hub().wf(),
            r.node().address() == address,
            !r.node().destination_added(),
            r.current() == status,
            r.node().hub().rx_msg.state() == RegistryState::<M::State>::fresh(subject_slot_count as int),
            r.node().hub().rx_req.state() == Map::<int, Q::State>::empty(),
            r.node().hub().tx_resp.queue() == TxQueueState::<S::State>::fresh(),
            r.node().hub().tx_msg.queue() == TxQueueState::<P::State>::fresh(),
            r.node().hub().tx_msg.subjects() == Map::<u64, u64>::empty(),
    {
        NodeState { node: CoreNode::new(address, subject_slot_count), status }
    }

    /// Returns the places at which endpoints are registered.
    pub fn hub_mut(&mut self) -> (r: &mut Hub<M, Q, P, S>)
        ensures
            *r == old(self).node().hub(),
            final(self).node().hub() == *final(r),
            final(self).node().address() == old(self).node().address(),
            final(self).node().destination_added() == old(self).node().destination_added(),
            final(self).current() == old(self).current(),
    {
        self.node.hub_mut()
    }

    /// Returns the node, which a driver exchanges frames with.
    pub fn link_mut(&mut self) -> (r: &mut CoreNode<M, Q, P, S>)
        ensures
            *r == old(self).node(),
            final(self).node() == *final(r),
            final(self).current() == old(self).current(),
    {
        &mut self.node
    }

    /// Returns the status.
    pub fn status(&self) -> (r: Status)
        ensures
            r == self.current(),
    {
        self.status
    }

    /// Changes the status.
    pub fn set_status(&mut self, status: Status)
        ensures
            final(self).current() == status,
            final(self).node() == old(self).node(),
    {
        self.status = status;
    }
}

/// The heartbeat of a node at an instant. The uptime stays at its maximum once it is reached.
pub open spec fn heartbeat_at(status: Status, now: Instant) -> Heartbeat {
    let secs = now.ticks / TICK_HZ;
    Heartbeat {
        uptime: if secs <= u32::MAX {
            secs as u32
        } else {
            u32::MAX
        },
        health: status.health,
        mode: status.mode,
        vendor_specific_status_code: status.vendor_specific_code,
    }
}

/// Every heartbeat tells the health, the mode and the vendor code of the status as they are, and the
/// whole seconds of the instant as the uptime, at most 2^32 - 1.
pub proof fn law_heartbeat_tells_the_status(status: Status, now: Instant)
    ensures
        heartbeat_at(status, now).health == status.health,
        heartbeat_at(status, now).mode == status.mode,
        heartbeat_at(status, now).vendor_specific_status_code == status.vendor_specific_code,
        ({
            let uptime = heartbeat_at(status, now).uptime as int;
            &&& uptime < u32::MAX ==> uptime * 1_000_000 <= now.ticks < (uptime + 1) * 1_000_000
            &&& uptime == u32::MAX ==> uptime * 1_000_000 <= now.ticks
        }),
{
}

/// Publishes the heartbeats of a node, as long as it is not closed.
pub struct Runner<P> {
    heartbeat_pub: Publisher<MessageBuffer<P>, Heartbeat>,
}

impl<P: DynamicTxBuffer> Runner<P> {
    /// The publisher of heartbeats.
    pub closed spec fn publisher(&self) -> Publisher<MessageBuffer<P>, Heartbeat> {
        self.heartbeat_pub
    }

    /// The endpoint of the heartbeats is registered, and it is always ready.
    pub open spec fn is_valid_for(&self, reg: &registry::tx_msg::Registry<MessageBuffer<P>>) -> bool {
        let id = self.publisher().id();
        &&& reg.queue().endpoints.contains_key(id)
        &&& reg.queue().endpoints[id].state matches Either::First(state) && state.priority == Priority::Nominal
        &&& self.publisher().key() == 7509
        &&& reg.subjects().contains_key(7509)
        &&& reg.subjects()[7509] == id
        &&& self.publisher().priority() == Priority::Nominal
        &&& self.publisher().timeout().ticks == TICK_HZ
        &&& !self.publisher().loop_back()
    }

    /// Registers the publisher of heartbeats.
    fn create<M: DynamicRxBuffer, Q: DynamicRxBuffer, S: DynamicTxBuffer>(node: &mut NodeState<M, Q, MessageBuffer<P>, S>) -> (r: Result<
        Self,
        RegistrationError,
    >)
        requires
            old(node).node().hub().wf(),
            old(node).node().hub().tx_msg.queue().next_id < u64::MAX,
        ensures
            final(node).node().hub().wf(),
            final(node).current() == old(node).current(),
            final(node).node().address() == old(node).node().address(),
            final(node).node().destination_added() == old(node).node().destination_added(),
            final(node).node().hub().rx_msg == old(node).node().hub().rx_msg,
            final(node).node().hub().rx_req == old(node).node().hub().rx_req,
            final(node).node().hub().tx_resp == old(node).node().hub().tx_resp,
            if old(node).node().hub().tx_msg.subjects().contains_key(7509) {
                &&& r matches Err(error) && error == RegistrationError::DataSpecifierOccupied
                &&& final(node).node().hub().tx_msg.queue() == old(node).node().hub().tx_msg.queue()
                &&& final(node).node().hub().tx_msg.subjects() == old(node).node().hub().tx_msg.subjects()
            } else {
                &&& r matches Ok(runner) && {
                    &&& runner.is_valid_for(&final(node).node().hub().tx_msg)
                    &&& runner.publisher().id() == old(node).node().hub().tx_msg.queue().next_id
                    &&& runner.publisher().transfer_id() == TransferId::of(0)
                }
                &&& final(node).node().hub().tx_msg.queue() == registered::<MessageBuffer<P>>(
                    old(node).node().hub().tx_msg.queue(),
                    Either::First(SignalState::fresh(SubjectId::of(7509), Priority::Nominal)),
                )
                &&& final(node).node().hub().tx_msg.subjects() == old(node).node().hub().tx_msg.subjects().insert(
                    7509,
                    old(node).node().hub().tx_msg.queue().next_id,
                )
            },
    {
        broadcast use SubjectId::lemma_of;

        let timeout = Duration::from_secs(Heartbeat::MAX_PUBLICATION_PERIOD as u64);
        let buffer: AsFirst<Signal<Heartbeat>, P> = AsFirst::new(Signal::new());
        let ghost before = node.node().hub().tx_msg.queue();
        let ghost fresh: Either<SignalState, P::State> = Either::First(
            SignalState::fresh(SubjectId::of(7509), Priority::Nominal),
        );
        proof {
            node.node().hub().tx_msg.lemma_wf();
            lemma_registered_slot::<MessageBuffer<P>>(before, fresh);
        }
        match Publisher::create(
            &mut node.hub_mut().tx_msg,
            buffer,
            Heartbeat::subject(),
            Priority::Nominal,
            timeout,
            false,
        ) {
            Ok(heartbeat_pub) => Ok(Runner { heartbeat_pub }),
            Err(error) => Err(error),
        }
    }

    /// Publishes a heartbeat at an instant. The last one that has not been sent is replaced.
    pub fn publish_at<M: DynamicRxBuffer, Q: DynamicRxBuffer, S: DynamicTxBuffer>(
        &mut self,
        node: &mut NodeState<M, Q, MessageBuffer<P>, S>,
        now: Instant,
    )
        requires
            old(node).node().hub().wf(),
            old(self).is_valid_for(&old(node).node().hub().tx_msg),
        ensures
            final(node).node().hub().wf(),
            final(self).is_valid_for(&final(node).node().hub().tx_msg),
            final(node).current() == old(node).current(),
            final(node).node().address() == old(node).node().address(),
            final(node).node().destination_added() == old(node).node().destination_added(),
            final(node).node().hub().rx_msg == old(node).node().hub().rx_msg,
            final(node).node().hub().rx_req == old(node).node().hub().rx_req,
            final(node).node().hub().tx_resp == old(node).node().hub().tx_resp,
            final(node).node().hub().tx_msg.queue() == pushed::<MessageBuffer<P>, Heartbeat>(
                old(node).node().hub().tx_msg.queue(),
                old(self).publisher().id(),
                Transfer {
                    meta: old(self).publisher().meta_at(now),
                    payload: heartbeat_at(old(node).current(), now),
                },
            ),
            exists|heartbeat: Heartbeat|
                {
                    &&& heartbeat.health == old(node).current().health
                    &&& heartbeat.mode == old(node).current().mode
                    &&& heartbeat.vendor_specific_status_code == old(node).current().vendor_specific_code
                    &&& heartbeat.uptime == (if now.ticks / 1_000_000 <= u32::MAX {
                        (now.ticks / 1_000_000) as int
                    } else {
                        u32::MAX as int
                    })
                    &&& final(node).node().hub().tx_msg.queue() == #[trigger] pushed::<MessageBuffer<P>, Heartbeat>(
                        old(node).node().hub().tx_msg.queue(),
                        old(self).publisher().id(),
                        Transfer { meta: old(self).publisher().meta_at(now), payload: heartbeat },
                    )
                },
            final(node).node().hub().tx_msg.subjects() == old(node).node().hub().tx_msg.subjects(),
            final(self).publisher().id() == old(self).publisher().id(),
            final(self).publisher().transfer_id() == old(self).publisher().transfer_id().following(),
    {
        let secs: u64 = now.as_secs();
        let uptime: u32 = if secs <= u32::MAX as u64 {
            secs as u32
        } else {
            u32::MAX
        };
        let status = node.status();
        let msg = Heartbeat {
            uptime,
            health: status.health,
            mode: status.mode,
            vendor_specific_status_code: status.vendor_specific_code,
        };
        let ghost queue = node.node().hub().tx_msg.queue();
        let ghost id = self.publisher().id();
        let ghost meta = self.publisher().meta_at(now);
        proof {
            node.node().hub().tx_msg.lemma_wf();
            let slot = queue.endpoints[id];
            let state = written::<MessageBuffer<P>, Heartbeat>(slot.state, msg);
            let encoded = msg.encoded();
            let next = queue.with_slot(id, slot.started, state);
            queue.lemma_with_slot(id, slot.started, state);
            <MessageBuffer<P> as DynamicTxBuffer>::lemma_still_ready(
                slot.state,
                padded(encoded, 7),
                Set::empty(),
            );
            assert forall|x: u64| #[trigger] next.endpoints.contains_key(x) implies next.endpoints[x].lane
                == due_lane::<MessageBuffer<P>>(next.endpoints[x]) by {
                assert(queue.endpoints.contains_key(x));
            }
            lemma_changed_endpoints::<MessageBuffer<P>>(
                next,
                id,
                <MessageBuffer<P> as DynamicTxBuffer>::after_push(
                    state,
                    meta,
                    encoded.len() as int,
                    crc_bytes(CRC_INIT, encoded),
                ),
            );
        }
        let _pushed = self.heartbeat_pub.try_push_at(&mut node.hub_mut().tx_msg, msg, now);
    }

    /// Publishes a heartbeat now. The clock decides on its uptime and deadline.
    pub fn publish<M: DynamicRxBuffer, Q: DynamicRxBuffer, S: DynamicTxBuffer>(
        &mut self,
        node: &mut NodeState<M, Q, MessageBuffer<P>, S>,
    )
        requires
            old(node).node().hub().wf(),
            old(self).is_valid_for(&old(node).node().hub().tx_msg),
        ensures
            final(node).node().hub().wf(),
            final(self).is_valid_for(&final(node).node().hub().tx_msg),
            final(node).node().hub().tx_msg.subjects() == old(node).node().hub().tx_msg.subjects(),
            final(self).publisher().id() == old(self).publisher().id(),
            final(self).publisher().transfer_id() == old(self).publisher().transfer_id().following(),
            final(node).current() == old(node).current(),
            final(node).node().address() == old(node).node().address(),
            final(node).node().destination_added() == old(node).node().destination_added(),
            final(node).node().hub().rx_msg == old(node).node().hub().rx_msg,
            final(node).node().hub().rx_req == old(node).node().hub().rx_req,
            final(node).node().hub().tx_resp == old(node).node().hub().tx_resp,
            exists|now: Instant|
                final(node).node().hub().tx_msg.queue() == pushed::<MessageBuffer<P>, Heartbeat>(
                    old(node).node().hub().tx_msg.queue(),
                    old(self).publisher().id(),
                    Transfer {
                        meta: old(self).publisher().meta_at(now),
                        payload: #[trigger] heartbeat_at(old(node).current(), now),
                    },
                ),
    {
        let now = Instant::now();
        self.publish_at(node, now);
    }

    /// Unregisters the publisher of heartbeats. A heartbeat that has not been sent is dropped, and
    /// the subject is free again.
    pub fn close<M: DynamicRxBuffer, Q: DynamicRxBuffer, S: DynamicTxBuffer>(
        self,
        node: &mut NodeState<M, Q, MessageBuffer<P>, S>,
    )
        requires
            old(node).node().hub().wf(),
            self.is_valid_for(&old(node).node().hub().tx_msg),
        ensures
            final(node).node().hub().wf(),
            final(node).current() == old(node).current(),
            final(node).node().address() == old(node).node().address(),
            final(node).node().destination_added() == old(node).node().destination_added(),
            final(node).node().hub().rx_msg == old(node).node().hub().rx_msg,
            final(node).node().hub().rx_req == old(node).node().hub().rx_req,
            final(node).node().hub().tx_resp == old(node).node().hub().tx_resp,
            final(node).node().hub().tx_msg.queue() == old(node).node().hub().tx_msg.queue().unregistered(
                self.publisher().id(),
            ),
            final(node).node().hub().tx_msg.queue().endpoints
                == old(node).node().hub().tx_msg.queue().endpoints.remove(self.publisher().id()),
            final(node).node().hub().tx_msg.subjects() == old(node).node().hub().tx_msg.subjects().remove(7509),
    {
        self.heartbeat_pub.close(&mut node.hub_mut().tx_msg);
    }
}

/// A node that publishes heartbeats: the least that a network expects of a node.
pub struct MinimalNode<M, Q, P, S> {
    node: NodeState<M, Q, MessageBuffer<P>, S>,
}

impl<M: DynamicRxBuffer, Q: DynamicRxBuffer, P: DynamicTxBuffer, S: DynamicTxBuffer> MinimalNode<M, Q, P, S> {
    /// The node.
    pub closed spec fn node(&self) -> NodeState<M, Q, MessageBuffer<P>, S> {
        self.node
    }

    /// The node is valid.
    pub open spec fn wf(&self) -> bool {
        self.node().node().hub().wf()
    }

    /// A node without endpoints.
    pub fn new(address: NodeId, status: Status, subject_slot_count: usize) -> (r: Self)
        ensures
            r.wf(),
            r.node().node().address() == address,
            r.node().current() == status,
            !r.node().node().destination_added(),
            r.node().node().hub().rx_msg.state() == RegistryState::<M::State>::fresh(subject_slot_count as int),
            r.node().node().hub().rx_req.state() == Map::<int, Q::State>::empty(),
            r.node().node().hub().tx_resp.queue() == TxQueueState::<S::State>::fresh(),
            r.node().node().hub().tx_msg.queue() == TxQueueState::<Either<SignalState, P::State>>::fresh(),
            r.node().node().hub().tx_msg.subjects() == Map::<u64, u64>::empty(),
    {
        MinimalNode { node: NodeState::new(address, status, subject_slot_count) }
    }

    /// Tells whether the node can be split: nobody publishes on the subject of the heartbeats, and a
    /// further endpoint can be told apart from all others.
    pub fn can_split(&self) -> (r: bool)
        requires
            self.wf(),
        ensures
            r == (!self.node().node().hub().tx_msg.subjects().contains_key(7509)
                && self.node().node().hub().tx_msg.queue().next_id < u64::MAX),
    {
        broadcast use SubjectId::lemma_of;

        let reg = &self.node.node.hub_ref().tx_msg;
        !reg.is_occupied(Heartbeat::subject()) && reg.can_register()
    }

    /// Returns the node.
    pub fn node_mut(&mut self) -> (r: &mut NodeState<M, Q, MessageBuffer<P>, S>)
        ensures
            *r == old(self).node(),
            final(self).node() == *final(r),
    {
        &mut self.node
    }

    /// Registers the publisher of heartbeats. Returns the node and the publisher, which goes on until
    /// it is closed. Its first heartbeat has the identifier 0.
    pub fn split(&mut self) -> (r: (&mut NodeState<M, Q, MessageBuffer<P>, S>, Runner<P>))
        requires
            old(self).wf(),
            !old(self).node().node().hub().tx_msg.subjects().contains_key(7509),
            old(self).node().node().hub().tx_msg.queue().next_id < u64::MAX,
        ensures
            final(self).node() == *final(r.0),
            r.0.node().hub().wf(),
            r.0.current() == old(self).node().current(),
            r.0.node().address() == old(self).node().node().address(),
            r.0.node().destination_added() == old(self).node().node().destination_added(),
            r.0.node().hub().rx_msg == old(self).node().node().hub().rx_msg,
            r.0.node().hub().rx_req == old(self).node().node().hub().rx_req,
            r.0.node().hub().tx_resp == old(self).node().node().hub().tx_resp,
            r.0.node().hub().tx_msg.queue() == registered::<MessageBuffer<P>>(
                old(self).node().node().hub().tx_msg.queue(),
                Either::First(SignalState::fresh(SubjectId::of(7509), Priority::Nominal)),
            ),
            r.0.node().hub().tx_msg.subjects() == old(self).node().node().hub().tx_msg.subjects().insert(
                7509,
                old(self).node().node().hub().tx_msg.queue().next_id,
            ),
            r.1.is_valid_for(&r.0.node().hub().tx_msg),
            r.1.publisher().id() == old(self).node().node().hub().tx_msg.queue().next_id,
            r.1.publisher().transfer_id() == TransferId::of(0),
    {
        let created = Runner::create(&mut self.node);
        let runner: Runner<P> = created.unwrap();
        (&mut self.node, runner)
    }
}

/// Whatever a driver takes from the node, the next heartbeat can be published.
pub proof fn law_heartbeats_go_on<M: DynamicRxBuffer, Q: DynamicRxBuffer, P: DynamicTxBuffer, S: DynamicTxBuffer>(
    node: CoreNode<M, Q, MessageBuffer<P>, S>,
    runner: Runner<P>,
    priority_mask: PrioritySet,
    mtu: Mtu,
    r: Poll<Frame>,
    after: CoreNode<M, Q, MessageBuffer<P>, S>,
)
    requires
        node.hub().wf(),
        runner.is_valid_for(&node.hub().tx_msg),
        node.is_tx_polled(priority_mask, mtu, r, &after),
    ensures
        runner.is_valid_for(&after.hub().tx_msg),
{
    let queue = node.hub().tx_msg.queue();
    let next = after.hub().tx_msg.queue();
    let id = runner.publisher().id();
    let response = node.hub().tx_resp.queue().served_priority(priority_mask@);
    let message = queue.served_priority(priority_mask@);
    if let Poll::Ready(frame) = r {
        if !is_before(response, message) {
            let f = choose|f: Frame| #[trigger]
                is_popped::<MessageBuffer<P>>(queue, priority_mask@, mtu, Some(f), next);
            node.hub().tx_msg.lemma_wf();
            lemma_popped_endpoints::<MessageBuffer<P>>(queue, priority_mask@, mtu, Some(f), next);
        }
    }
}

} // verus!
