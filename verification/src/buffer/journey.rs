//! Transfers from one node to another.

use vstd::prelude::*;

use crate::buffer::delivery::{is_expecting, is_kept, transfer_frames};
use crate::buffer::reception::{is_consistent, is_sent_to, law_sent_payload_is_queued, queued_count};
use crate::buffer::rx_msg::latest;
use crate::buffer::rx_msg::watch::WatchState;
use crate::buffer::rx_priority_fifo::RxState;
use crate::buffer::sending::is_frame_of;
use crate::endpoint::TransferMeta;
use crate::frame::{DataSpecifier, Frame, Mtu};
use crate::ids::NodeId;
use crate::time::Duration;

verus! {

/// The frames that were sent arrive in their order, within the timeout since the first one. The
/// receiver knows their source and when each of them arrived.
pub open spec fn is_carried(sent: Seq<Frame>, received: Seq<Frame>, source: NodeId, timeout: Duration) -> bool {
    &&& received.len() == sent.len()
    &&& forall|i: int|
        0 <= i < sent.len() ==> {
            &&& (#[trigger] received[i]).data@ == sent[i].data@
            &&& received[i].header.priority == sent[i].header.priority
            &&& received[i].header.data_spec == sent[i].header.data_spec
            &&& received[i].header.source == Some(source)
            &&& received[i].timestamp.ticks <= received[0].timestamp.ticks + timeout.ticks
        }
}

/// Whatever is sent arrives: when all frames of a transfer are carried to a queue for its data that
/// expects its source and has a free slot, the transfer is queued with its priority, its identifier and
/// its payload.
pub proof fn law_sent_transfer_arrives(
    sent: Seq<Frame>,
    meta: TransferMeta,
    data: Seq<u8>,
    data_spec: DataSpecifier,
    mtu: Mtu,
    received: Seq<Frame>,
    source: NodeId,
    trail: Seq<RxState>,
)
    requires
        sent.len() == transfer_frames(meta.transfer_id, data, mtu).len(),
        forall|i: int| 0 <= i < sent.len() ==> is_frame_of(#[trigger] sent[i], i, meta, data, data_spec, mtu),
        trail.len() == received.len() + 1,
        trail[0].data_specifier == data_spec,
        is_carried(sent, received, source, trail[0].timeout),
        forall|i: int| 0 <= i < received.len() ==> trail[i + 1] == #[trigger] trail[i].received(received[i]),
        trail[0].queues.len() == 8,
        queued_count(trail[0].queues) < trail[0].slots,
        is_consistent(trail[0].table, source, trail[0].capacity),
        is_expecting(trail[0].table, source, trail[0].timeout, meta.transfer_id, received[0].timestamp),
        meta.transfer_id.value() < 32,
        data.len() + 64 <= u32::MAX,
    ensures
        ({
            let p = meta.priority.code() as int;
            let before = trail[0].queues;
            let after = trail.last().queues;
            &&& after[p].len() == before[p].len() + 1
            &&& after[p].last().source == Some(source)
            &&& after[p].last().transfer_id == meta.transfer_id
            &&& after[p].last().timestamp == received[0].timestamp
            &&& is_kept(after[p].last().bytes, data, mtu, trail[0].capacity)
        }),
{
    assert forall|i: int| 0 <= i < received.len() implies {
        &&& (#[trigger] received[i]).data@ == transfer_frames(meta.transfer_id, data, mtu)[i]
        &&& received[i].header.priority == meta.priority
        &&& received[i].header.data_spec == data_spec
    } by {
        assert(is_frame_of(sent[i], i, meta, data, data_spec, mtu));
    }
    assert(is_sent_to(trail, received, source, meta.priority, meta.transfer_id, data, mtu));
    law_sent_payload_is_queued(trail, received, source, meta.priority, meta.transfer_id, data, mtu);
}

/// Whatever is sent arrives: when all frames of a message are carried to a buffer for the last message
/// of its subject that expects its source, and no newer message was accepted, the buffer holds the
/// message with its priority, its identifier and its payload.
pub proof fn law_sent_message_is_latest(
    sent: Seq<Frame>,
    meta: TransferMeta,
    data: Seq<u8>,
    data_spec: DataSpecifier,
    mtu: Mtu,
    received: Seq<Frame>,
    source: NodeId,
    trail: Seq<WatchState>,
)
    requires
        sent.len() == transfer_frames(meta.transfer_id, data, mtu).len(),
        forall|i: int| 0 <= i < sent.len() ==> is_frame_of(#[trigger] sent[i], i, meta, data, data_spec, mtu),
        trail.len() == received.len() + 1,
        trail[0].data_specifier == data_spec,
        is_carried(sent, received, source, trail[0].timeout),
        forall|i: int| 0 <= i < received.len() ==> trail[i + 1] == #[trigger] trail[i].received(received[i]),
        is_consistent(trail[0].table, source, trail[0].capacity),
        is_expecting(trail[0].table, source, trail[0].timeout, meta.transfer_id, received[0].timestamp),
        trail[0].min_timestamp.ticks <= received[0].timestamp.ticks,
        meta.transfer_id.value() < 32,
        data.len() + 64 <= u32::MAX,
    ensures
        trail.last().slot matches Some(last) && {
            &&& last.meta.priority == meta.priority
            &&& last.meta.address == Some(source)
            &&& last.meta.transfer_id == meta.transfer_id
            &&& last.meta.timestamp == received[0].timestamp
            &&& is_kept(last.bytes, data, mtu, trail[0].capacity)
        },
{
    assert forall|i: int| 0 <= i < received.len() implies {
        &&& (#[trigger] received[i]).data@ == transfer_frames(meta.transfer_id, data, mtu)[i]
        &&& received[i].header.priority == meta.priority
        &&& received[i].header.data_spec == data_spec
    } by {
        assert(is_frame_of(sent[i], i, meta, data, data_spec, mtu));
    }
    assert(latest::is_sent_to(trail, received, source, meta.priority, meta.transfer_id, data, mtu));
    latest::law_sent_payload_is_latest(trail, received, source, meta.priority, meta.transfer_id, data, mtu);
}

} // verus!
