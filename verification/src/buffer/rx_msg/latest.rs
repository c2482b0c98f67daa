//! Which message a buffer for the last message keeps.

use vstd::prelude::*;

use crate::buffer::delivery::{is_expecting, is_kept, law_sessions_receive_transfer, lemma_some_frame, transfer_frames};
use crate::buffer::reception::is_consistent;
use crate::buffer::rx_msg::watch::{Inner, Watch, WatchState};
use crate::buffer::rx_msg::Buffer;
use crate::buffer::sessions::{Assembled, SessionTable};
use crate::buffer::DynamicRxBuffer;
use crate::encoding::BufferType;
use crate::endpoint::TransferMeta;
use crate::frame::{DataSpecifier, Frame, Mtu};
use crate::ids::{NodeId, SubjectId, TransferId};
use crate::priority::Priority;
use crate::time::{Duration, Instant};

verus! {

/// The transfer that a frame of a known source completes.
pub open spec fn completed(state: WatchState, frame: Frame) -> Option<Assembled> {
    state.table.received(
        frame.header.source->0,
        state.timeout,
        state.capacity,
        frame.header.priority,
        frame.data@,
        frame.timestamp,
    ).1
}

/// What a frame never changes: which data are received, and the sizes of the buffer. Frames of other
/// data change nothing.
pub proof fn law_reception_keeps_settings(state: WatchState, frame: Frame)
    ensures
        state.received(frame).data_specifier == state.data_specifier,
        state.received(frame).timeout == state.timeout,
        state.received(frame).capacity == state.capacity,
        frame.header.data_spec != state.data_specifier ==> state.received(frame) == state,
{
}

/// A frame that completes no transfer leaves the slot as it is, and wakes nobody.
pub proof fn law_nothing_else_is_accepted(state: WatchState, frame: Frame)
    requires
        frame.header.data_spec == state.data_specifier,
        match frame.header.source {
            Some(_) => completed(state, frame) is None,
            None => frame.data@.len() == 0 || frame.data@.last() < 224,
        },
    ensures
        state.received(frame).slot == state.slot,
        state.received(frame).min_timestamp == state.min_timestamp,
        state.received(frame).waiting == state.waiting,
{
}

/// A completed transfer that is not older than the last accepted one is in the slot afterwards,
/// whatever the slot held before. An older one leaves the slot as it was.
pub proof fn law_completed_transfer_is_latest(state: WatchState, frame: Frame)
    requires
        frame.header.data_spec == state.data_specifier,
        frame.header.source is Some,
        completed(state, frame) is Some,
    ensures
        ({
            let a = completed(state, frame)->0;
            let after = state.received(frame);
            if state.min_timestamp.ticks <= a.transfer.timestamp.ticks {
                &&& after.slot matches Some(latest) && {
                    &&& latest.meta.priority == a.transfer.priority
                    &&& latest.meta.address == frame.header.source
                    &&& latest.meta.transfer_id == a.transfer.id
                    &&& latest.meta.timestamp == a.transfer.timestamp
                    &&& latest.meta.loop_back == frame.loop_back
                    &&& latest.bytes == a.bytes
                }
                &&& after.min_timestamp == a.transfer.timestamp
                &&& state.waiting.filter.contains(a.transfer.priority) ==> !after.waiting.armed
                &&& !state.waiting.filter.contains(a.transfer.priority) ==> after.waiting == state.waiting
            } else {
                &&& after.slot == state.slot
                &&& after.min_timestamp == state.min_timestamp
                &&& after.waiting == state.waiting
            }
        }),
{
    let p = (completed(state, frame)->0).transfer.priority;
    let one = Set::<Priority>::empty().insert(p);
    if state.waiting.filter.contains(p) {
        assert(one.intersect(state.waiting.filter).contains(p));
    } else {
        assert(one.intersect(state.waiting.filter) =~= Set::<Priority>::empty());
    }
}

/// An anonymous single-frame transfer that is not older than the last accepted one is in the slot
/// afterwards, and no session is touched. An older one leaves the slot as it was.
pub proof fn law_anonymous_transfer_is_latest(state: WatchState, frame: Frame)
    requires
        frame.header.data_spec == state.data_specifier,
        frame.header.source is None,
        frame.data@.len() > 0,
        frame.data@.last() >= 224,
    ensures
        ({
            let after = state.received(frame);
            let n = frame.data@.len() - 1;
            &&& after.table == state.table
            &&& if state.min_timestamp.ticks <= frame.timestamp.ticks {
                &&& after.slot matches Some(latest) && {
                    &&& latest.meta.priority == frame.header.priority
                    &&& latest.meta.address is None
                    &&& latest.meta.transfer_id.value() == frame.data@.last() - 224
                    &&& latest.meta.timestamp == frame.timestamp
                    &&& latest.meta.loop_back == frame.loop_back
                    &&& latest.bytes.len() == (if n < state.capacity {
                        n
                    } else {
                        state.capacity as int
                    })
                    &&& forall|i: int| 0 <= i < latest.bytes.len() ==> #[trigger] latest.bytes[i] == frame.data@[i]
                }
                &&& after.min_timestamp == frame.timestamp
                &&& state.waiting.filter.contains(frame.header.priority) ==> !after.waiting.armed
            } else {
                after == state
            }
        }),
{
    broadcast use TransferId::lemma_of;

    let p = frame.header.priority;
    let one = Set::<Priority>::empty().insert(p);
    if state.waiting.filter.contains(p) {
        assert(one.intersect(state.waiting.filter).contains(p));
    }
}

/// A fetch returns what is in the slot, and only empties the slot: an older message is not accepted
/// afterwards either. Nothing is fetched only if the slot is empty or holds another priority.
pub proof fn law_latest_is_fetched_once<T: BufferType, const SN: usize>(
    before: WatchState,
    priorities: Set<Priority>,
    transfer: Option<(TransferMeta, Seq<u8>)>,
    after: WatchState,
)
    requires
        <Inner<T, SN> as DynamicRxBuffer>::is_fetch(before, priorities, transfer, after),
    ensures
        match transfer {
            Some((meta, bytes)) => {
                &&& before.slot matches Some(latest) && latest.meta == meta && latest.bytes == bytes
                &&& priorities.contains(meta.priority)
                &&& after.slot is None
            },
            None => {
                &&& before.slot matches Some(latest) ==> !priorities.contains(latest.meta.priority)
                &&& after.slot == before.slot
            },
        },
        after.min_timestamp == before.min_timestamp,
        after.table == before.table,
        after.data_specifier == before.data_specifier,
        after.timeout == before.timeout,
        after.capacity == before.capacity,
        after.waiting == before.waiting,
{
}

/// A priority is ready exactly if the message in the slot has it.
pub proof fn law_slot_is_ready<T: BufferType, const SN: usize>(state: WatchState, p: Priority)
    ensures
        <Inner<T, SN> as DynamicRxBuffer>::ready(state).contains(p) <==> (state.slot matches Some(latest)
            && latest.meta.priority == p),
{
}

/// The frames carry a transfer of the payload `data`, and the states follow each other.
pub open spec fn is_sent_to(
    trail: Seq<WatchState>,
    list: Seq<Frame>,
    source: NodeId,
    priority: Priority,
    id: TransferId,
    data: Seq<u8>,
    mtu: Mtu,
) -> bool {
    &&& list.len() == transfer_frames(id, data, mtu).len()
    &&& trail.len() == list.len() + 1
    &&& forall|i: int|
        0 <= i < list.len() ==> {
            &&& (#[trigger] list[i]).data@ == transfer_frames(id, data, mtu)[i]
            &&& list[i].header.source == Some(source)
            &&& list[i].header.priority == priority
            &&& list[i].header.data_spec == trail[0].data_specifier
            &&& list[i].timestamp.ticks <= list[0].timestamp.ticks + trail[0].timeout.ticks
        }
    &&& forall|i: int| 0 <= i < list.len() ==> trail[i + 1] == #[trigger] trail[i].received(list[i])
}

/// Every payload, an empty one too, reaches the slot: when the frames of a transfer arrive in their
/// order and in time, the slot holds the transfer afterwards, unless a transfer was accepted that
/// started later. A transfer that took long to receive does not replace a newer one.
pub proof fn law_sent_payload_is_latest(
    trail: Seq<WatchState>,
    list: Seq<Frame>,
    source: NodeId,
    priority: Priority,
    id: TransferId,
    data: Seq<u8>,
    mtu: Mtu,
)
    requires
        is_sent_to(trail, list, source, priority, id, data, mtu),
        is_consistent(trail[0].table, source, trail[0].capacity),
        is_expecting(trail[0].table, source, trail[0].timeout, id, list[0].timestamp),
        id.value() < 32,
        data.len() + 64 <= u32::MAX,
    ensures
        list.len() > 0,
        if trail[0].min_timestamp.ticks <= list[0].timestamp.ticks {
            &&& trail.last().slot matches Some(latest) && {
                &&& latest.meta.priority == priority
                &&& latest.meta.address == Some(source)
                &&& latest.meta.transfer_id == id
                &&& latest.meta.timestamp == list[0].timestamp
                &&& latest.meta.loop_back == list.last().loop_back
                &&& is_kept(latest.bytes, data, mtu, trail[0].capacity)
            }
            &&& trail.last().min_timestamp == list[0].timestamp
        } else {
            &&& trail.last().slot == trail[0].slot
            &&& trail.last().min_timestamp == trail[0].min_timestamp
        },
{
    let tables = trail.map_values(|s: WatchState| s.table);
    let times = list.map_values(|f: Frame| f.timestamp);
    let state = trail[0];
    assert forall|i: int| 0 <= i < times.len() implies #[trigger] tables[i + 1] == tables[i].received(
        source,
        state.timeout,
        state.capacity,
        priority,
        transfer_frames(id, data, mtu)[i],
        times[i],
    ).0 by {
        lemma_settings(trail, list, source, priority, id, data, mtu, i);
        assert(trail[i + 1] == trail[i].received(list[i]));
        assert(list[i].data@ == transfer_frames(id, data, mtu)[i]);
    }
    assert forall|i: int| 0 <= i < times.len() implies (#[trigger] times[i]).ticks <= times[0].ticks
        + state.timeout.ticks by {
        assert(list[i].data@ == transfer_frames(id, data, mtu)[i]);
    }
    lemma_some_frame(id, data, mtu);
    law_sessions_receive_transfer(
        tables,
        source,
        state.timeout,
        state.capacity,
        priority,
        id,
        data,
        mtu,
        times,
    );
    let n = list.len() - 1;
    lemma_unchanged_before(trail, list, source, priority, id, data, mtu, tables, times, n);
    lemma_settings(trail, list, source, priority, id, data, mtu, n);
    assert(trail[n + 1] == trail[n].received(list[n]));
    assert(list[n].data@ == transfer_frames(id, data, mtu)[n]);
    assert(tables[n].received(
        source,
        state.timeout,
        state.capacity,
        priority,
        transfer_frames(id, data, mtu)[n],
        times[n],
    ).1 == completed(trail[n], list[n]));
    law_completed_transfer_is_latest(trail[n], list[n]);
}

/// The settings are those at the beginning.
proof fn lemma_settings(
    trail: Seq<WatchState>,
    list: Seq<Frame>,
    source: NodeId,
    priority: Priority,
    id: TransferId,
    data: Seq<u8>,
    mtu: Mtu,
    k: int,
)
    requires
        is_sent_to(trail, list, source, priority, id, data, mtu),
        0 <= k < trail.len(),
    ensures
        trail[k].data_specifier == trail[0].data_specifier,
        trail[k].timeout == trail[0].timeout,
        trail[k].capacity == trail[0].capacity,
    decreases k,
{
    if k > 0 {
        lemma_settings(trail, list, source, priority, id, data, mtu, k - 1);
        assert(trail[(k - 1) + 1] == trail[k - 1].received(list[k - 1]));
        law_reception_keeps_settings(trail[k - 1], list[k - 1]);
    }
}

/// Nothing is accepted before the last frame.
proof fn lemma_unchanged_before(
    trail: Seq<WatchState>,
    list: Seq<Frame>,
    source: NodeId,
    priority: Priority,
    id: TransferId,
    data: Seq<u8>,
    mtu: Mtu,
    tables: Seq<SessionTable>,
    times: Seq<Instant>,
    k: int,
)
    requires
        is_sent_to(trail, list, source, priority, id, data, mtu),
        tables == trail.map_values(|s: WatchState| s.table),
        times == list.map_values(|f: Frame| f.timestamp),
        forall|i: int|
            0 <= i < times.len() - 1 ==> (#[trigger] tables[i].received(
                source,
                trail[0].timeout,
                trail[0].capacity,
                priority,
                transfer_frames(id, data, mtu)[i],
                times[i],
            )).1 is None,
        0 <= k < list.len(),
    ensures
        trail[k].slot == trail[0].slot,
        trail[k].min_timestamp == trail[0].min_timestamp,
    decreases k,
{
    if k > 0 {
        let i = k - 1;
        lemma_unchanged_before(trail, list, source, priority, id, data, mtu, tables, times, i);
        lemma_settings(trail, list, source, priority, id, data, mtu, i);
        assert(trail[i + 1] == trail[i].received(list[i]));
        assert(list[i].data@ == transfer_frames(id, data, mtu)[i]);
        assert(tables[i].received(
            source,
            trail[0].timeout,
            trail[0].capacity,
            priority,
            transfer_frames(id, data, mtu)[i],
            times[i],
        ).1 == completed(trail[i], list[i]));
        law_nothing_else_is_accepted(trail[i], list[i]);
    }
}

/// A new buffer for a subject has the timeout of its endpoint, slots for `SN` sessions of the size of
/// the type, and holds nothing. It accepts the first message whatever its time is.
pub proof fn law_new_buffer_is_empty<T: BufferType, const SN: usize>(subject: SubjectId, timeout: Duration)
    ensures
        ({
            let state = <Watch<T, SN> as Buffer<T>>::fresh(subject, timeout);
            &&& state.data_specifier == DataSpecifier::Message(subject)
            &&& state.timeout == timeout
            &&& state.capacity == T::capacity()
            &&& state.table.free == SN
            &&& state.table.wf()
            &&& state.table.is_chronological()
            &&& forall|k: NodeId| !#[trigger] state.table.sessions.contains_key(k)
            &&& state.slot is None
            &&& state.min_timestamp.ticks == 0
            &&& !state.waiting.armed
        }),
{
}

/// A task that waits waits for the given priorities, and nothing else changes.
pub proof fn law_waiting_changes_nothing_else<T: BufferType, const SN: usize>(
    state: WatchState,
    priorities: Set<Priority>,
)
    ensures
        ({
            let after = <Inner<T, SN> as DynamicRxBuffer>::after_wait(state, priorities);
            &&& after.waiting.armed
            &&& after.waiting.filter == priorities
            &&& after.slot == state.slot
            &&& after.min_timestamp == state.min_timestamp
            &&& after.table == state.table
            &&& after.data_specifier == state.data_specifier
            &&& after.timeout == state.timeout
            &&& after.capacity == state.capacity
        }),
{
}

} // verus!
