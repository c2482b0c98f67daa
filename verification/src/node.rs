//! Nodes: they hand received frames to endpoints, and collect the frames of endpoints.

use vstd::prelude::*;

use crate::buffer::{DynamicRxBuffer, DynamicTxBuffer};
use crate::data_types::node::{Health, Mode};
use crate::registry::tx_queue::state::TxQueueState;
use crate::registry::{rx_msg, rx_req, tx_msg, tx_resp, TxReg};

pub mod core_node;
pub mod minimal_node;

pub use core_node::CoreNode;
pub use minimal_node::MinimalNode;

verus! {

/// Status of a node.
#[derive(Debug, Clone, Copy, PartialEq, Eq, Structural)]
pub struct Status {
    /// Health of the node.
    pub health: Health,
    /// Operating mode of the node.
    pub mode: Mode,
    /// Further status of the node, without a common meaning.
    pub vendor_specific_code: u8,
}

impl Default for Status {
    fn default() -> (r: Self)
        ensures
            r == (Status { health: Health::Nominal, mode: Mode::Operational, vendor_specific_code: 0 }),
    {
        Status { health: Health::Nominal, mode: Mode::Operational, vendor_specific_code: 0 }
    }
}

/// The places at which endpoints of a node are registered.
pub struct Hub<M, Q, P, S> {
    /// Endpoints that receive messages.
    pub rx_msg: rx_msg::Registry<M>,
    /// Endpoints that receive requests.
    pub rx_req: rx_req::Registry<Q>,
    /// Endpoints that transmit messages.
    pub tx_msg: tx_msg::Registry<P>,
    /// Endpoints that transmit responses.
    pub tx_resp: tx_resp::Registry<S>,
}

impl<M: DynamicRxBuffer, Q: DynamicRxBuffer, P: DynamicTxBuffer, S: DynamicTxBuffer> Hub<M, Q, P, S> {
    /// The state is valid.
    pub open spec fn wf(&self) -> bool {
        &&& self.rx_msg.wf()
        &&& self.rx_req.wf()
        &&& self.tx_msg.wf()
        &&& self.tx_resp.wf()
    }

    /// No endpoints, and slots for a number of different subjects.
    pub fn new(subject_slot_count: usize) -> (r: Self)
        ensures
            r.wf(),
            r.rx_msg.state() == rx_msg::RegistryState::<M::State>::fresh(subject_slot_count as int),
            r.rx_req.state() == Map::<int, Q::State>::empty(),
            r.tx_msg.queue() == TxQueueState::<P::State>::fresh(),
            r.tx_msg.subjects() == Map::<u64, u64>::empty(),
            r.tx_resp.queue() == TxQueueState::<S::State>::fresh(),
    {
        Hub {
            rx_msg: rx_msg::Registry::new(subject_slot_count),
            rx_req: rx_req::Registry::new(),
            tx_msg: tx_msg::Registry::new(),
            tx_resp: tx_resp::Registry::new(),
        }
    }
}

} // verus!
