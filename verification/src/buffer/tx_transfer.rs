//! Transfers that wait for transmission.

use vstd::prelude::*;

use crate::buffer::scatter::Outgoing;
use crate::endpoint::TransferMeta;
use crate::frame::{DataSpecifier, Frame, Header, Mtu};
use crate::ids::NodeId;
use crate::priority::Priority;
use crate::time::Instant;

verus! {

/// A transfer of which some frames may have been sent.
#[verifier::ext_equal]
pub struct TxTransfer {
    /// What has been sent.
    pub outgoing: Outgoing,
    /// The payload.
    pub data: Seq<u8>,
    /// The receiver.
    pub destination: Option<NodeId>,
    /// The deadline of transmission.
    pub deadline: Instant,
    /// The transfer is handed back to the sender.
    pub loop_back: bool,
}

impl TxTransfer {
    /// Something is left to be sent.
    pub open spec fn wf(self) -> bool {
        &&& self.outgoing.length == self.data.len()
        &&& 0 <= self.outgoing.offset < self.outgoing.length + 2
    }

    /// A transfer of the first `length` bytes of a buffer, of which nothing has been sent.
    pub open spec fn fresh(meta: TransferMeta, buffer: Seq<u8>, length: int, crc: u16) -> TxTransfer {
        TxTransfer {
            outgoing: Outgoing::fresh(meta.transfer_id, length, crc),
            data: buffer.take(length),
            destination: meta.address,
            deadline: meta.timestamp,
            loop_back: meta.loop_back,
        }
    }

    /// The transfer after its next frame, or `None` if it is complete.
    pub open spec fn sent(self, mtu: Mtu) -> Option<TxTransfer> {
        let outgoing = self.outgoing.sent(self.data, mtu.size() as int);
        if outgoing.done() {
            None
        } else {
            Some(TxTransfer { outgoing, ..self })
        }
    }

    /// `frame` is the next frame of the transfer.
    pub open spec fn is_next_frame(
        self,
        frame: Frame,
        priority: Priority,
        data_spec: DataSpecifier,
        mtu: Mtu,
    ) -> bool {
        &&& frame.header == (Header { priority, data_spec, source: None, destination: self.destination })
        &&& frame.data@ == self.outgoing.frame(self.data, mtu.size() as int)
        &&& frame.timestamp == self.deadline
        &&& frame.loop_back == self.loop_back
    }

    /// A frame has at least a tail byte, and fits into the transmission unit.
    pub proof fn lemma_frame_length(self, mtu: Mtu)
        requires
            self.wf(),
        ensures
            1 <= self.outgoing.frame(self.data, mtu.size() as int).len() <= mtu.size(),
            self.sent(mtu) matches Some(next) ==> next.wf(),
            self.outgoing.sent(self.data, mtu.size() as int).offset <= self.outgoing.length + 2,
    {
    }
}

} // verus!
