//! What becomes of received transfers.

use vstd::prelude::*;

use crate::buffer::delivery::{is_expecting, is_kept, law_sessions_receive_transfer, transfer_frames};
use crate::buffer::rx_msg::PriorityFifo as MessageFifo;
use crate::buffer::rx_priority_fifo::{lemma_last_queued, least_urgent, Received, RxPriorityFifoInner, RxState};
use crate::buffer::rx_req::PriorityFifo as RequestFifo;
use crate::buffer::sessions::{Assembled, SessionTable};
use crate::buffer::{rx_msg, rx_req, DynamicRxBuffer};
use crate::encoding::BufferType;
use crate::endpoint::TransferMeta;
use crate::frame::{DataSpecifier, Frame, Mtu};
use crate::ids::{NodeId, ServiceId, SubjectId, TransferId};
use crate::priority::Priority;
use crate::time::{Duration, Instant};
use crate::utils::multi_class_queue::total;
use crate::utils::priority_queue::{queued_priorities, Queues};

verus! {

/// The transfer that a frame of a known source completes.
pub open spec fn completed(table: SessionTable, state: RxState, frame: Frame) -> Option<Assembled> {
    table.received(
        frame.header.source->0,
        state.timeout,
        state.capacity,
        frame.header.priority,
        frame.data@,
        frame.timestamp,
    ).1
}

/// The number of queued transfers.
pub open spec fn queued_count(queues: Queues<Received>) -> nat {
    queues[0].len() + queues[1].len() + queues[2].len() + queues[3].len() + queues[4].len() + queues[5].len()
        + queues[6].len() + queues[7].len()
}

/// The count of the queued transfers is the sum over the priorities.
proof fn lemma_count(queues: Queues<Received>)
    requires
        queues.len() == 8,
    ensures
        total(queues) == queued_count(queues),
{
    reveal_with_fuel(total, 9);
    let q7 = queues.drop_last();
    let q6 = q7.drop_last();
    let q5 = q6.drop_last();
    let q4 = q5.drop_last();
    let q3 = q4.drop_last();
    let q2 = q3.drop_last();
    let q1 = q2.drop_last();
    assert(q1.drop_last() =~= Seq::<Seq<Received>>::empty());
}

/// What a frame never changes: which data are received, and the sizes of the buffer.
pub proof fn law_reception_keeps_settings(state: RxState, frame: Frame)
    ensures
        state.received(frame).data_specifier == state.data_specifier,
        state.received(frame).timeout == state.timeout,
        state.received(frame).capacity == state.capacity,
        state.received(frame).slots == state.slots,
        frame.header.data_spec != state.data_specifier ==> state.received(frame) == state,
{
}

/// A frame that completes no transfer leaves the queued transfers as they are, and wakes nobody.
pub proof fn law_nothing_else_is_queued(state: RxState, frame: Frame)
    requires
        frame.header.data_spec == state.data_specifier,
        match frame.header.source {
            Some(_) => completed(state.table, state, frame) is None,
            None => frame.data@.len() == 0 || frame.data@.last() < 224,
        },
    ensures
        state.received(frame).queues == state.queues,
        state.received(frame).waiting == state.waiting,
{
}

/// A transfer that a frame completes is queued behind the other ones of its priority if a slot is
/// free, whatever its payload is. The other queues stay as they are. A task that waits for the
/// priority is woken.
pub proof fn law_completed_transfer_is_queued(state: RxState, frame: Frame)
    requires
        state.queues.len() == 8,
        queued_count(state.queues) < state.slots,
        frame.header.data_spec == state.data_specifier,
        frame.header.source is Some,
        completed(state.table, state, frame) is Some,
    ensures
        ({
            let a = completed(state.table, state, frame)->0;
            let after = state.received(frame);
            let p = frame.header.priority.code() as int;
            &&& after.queues.len() == 8
            &&& forall|c: int| 0 <= c < 8 && c != p ==> #[trigger] after.queues[c] == state.queues[c]
            &&& after.queues[p].len() == state.queues[p].len() + 1
            &&& forall|i: int|
                0 <= i < state.queues[p].len() ==> #[trigger] after.queues[p][i] == state.queues[p][i]
            &&& after.queues[p].last().source == frame.header.source
            &&& after.queues[p].last().transfer_id == a.transfer.id
            &&& after.queues[p].last().timestamp == a.transfer.timestamp
            &&& after.queues[p].last().loop_back == frame.loop_back
            &&& after.queues[p].last().bytes == a.bytes
            &&& state.waiting.filter.contains(frame.header.priority) ==> !after.waiting.armed
            &&& !state.waiting.filter.contains(frame.header.priority) ==> after.waiting == state.waiting
        }),
{
    lemma_count(state.queues);
    let one = Set::<Priority>::empty().insert(frame.header.priority);
    if state.waiting.filter.contains(frame.header.priority) {
        assert(one.intersect(state.waiting.filter).contains(frame.header.priority));
    } else {
        assert(one.intersect(state.waiting.filter) =~= Set::<Priority>::empty());
    }
}

/// When all slots are taken, a completed transfer displaces the oldest one of the least urgent queued
/// priority, unless it is less urgent itself: then it is lost, and nothing changes in the queues.
/// Nothing else is lost.
pub proof fn law_full_queue_gives_up_least_urgent(state: RxState, frame: Frame, least: int)
    requires
        state.queues.len() == 8,
        queued_count(state.queues) >= state.slots,
        frame.header.data_spec == state.data_specifier,
        frame.header.source is Some,
        completed(state.table, state, frame) is Some,
        0 <= least < 8,
        state.queues[least].len() > 0,
        forall|c: int| least < c < 8 ==> (#[trigger] state.queues[c]).len() == 0,
    ensures
        ({
            let a = completed(state.table, state, frame)->0;
            let after = state.received(frame);
            let p = frame.header.priority.code() as int;
            let rest = state.queues[least].drop_first();
            &&& after.queues.len() == 8
            &&& if p > least {
                &&& after.queues == state.queues
                &&& after.waiting == state.waiting
            } else {
                &&& forall|c: int|
                    0 <= c < 8 && c != p && c != least ==> #[trigger] after.queues[c] == state.queues[c]
                &&& p != least ==> after.queues[least] == rest
                &&& after.queues[p].drop_last() == (if p == least {
                    rest
                } else {
                    state.queues[p]
                })
                &&& after.queues[p].len() > 0
                &&& after.queues[p].last().source == frame.header.source
                &&& after.queues[p].last().transfer_id == a.transfer.id
                &&& after.queues[p].last().timestamp == a.transfer.timestamp
                &&& after.queues[p].last().loop_back == frame.loop_back
                &&& after.queues[p].last().bytes == a.bytes
                &&& state.waiting.filter.contains(frame.header.priority) ==> !after.waiting.armed
            }
        }),
{
    lemma_count(state.queues);
    lemma_last_queued(state.queues, 8);
    assert(least_urgent(state.queues) == least);
    let after = state.received(frame);
    let p = frame.header.priority.code() as int;
    if p <= least {
        let rest = state.queues[least].drop_first();
        let before = if p == least {
            rest
        } else {
            state.queues[p]
        };
        assert(after.queues[p].drop_last() =~= before);
        let one = Set::<Priority>::empty().insert(frame.header.priority);
        if state.waiting.filter.contains(frame.header.priority) {
            assert(one.intersect(state.waiting.filter).contains(frame.header.priority));
        }
    }
}

/// An anonymous single-frame transfer is queued at once while a slot is free, without a session.
pub proof fn law_anonymous_transfer_is_queued(state: RxState, frame: Frame)
    requires
        state.queues.len() == 8,
        queued_count(state.queues) < state.slots,
        frame.header.data_spec == state.data_specifier,
        frame.header.source is None,
        frame.data@.len() > 0,
        frame.data@.last() >= 224,
    ensures
        ({
            let after = state.received(frame);
            let p = frame.header.priority.code() as int;
            let item = after.queues[p].last();
            let n = frame.data@.len() - 1;
            &&& after.table == state.table
            &&& after.queues.len() == 8
            &&& forall|c: int| 0 <= c < 8 && c != p ==> #[trigger] after.queues[c] == state.queues[c]
            &&& after.queues[p].len() == state.queues[p].len() + 1
            &&& forall|i: int|
                0 <= i < state.queues[p].len() ==> #[trigger] after.queues[p][i] == state.queues[p][i]
            &&& item.source is None
            &&& item.transfer_id.value() == frame.data@.last() - 224
            &&& item.timestamp == frame.timestamp
            &&& item.loop_back == frame.loop_back
            &&& item.bytes.len() == (if n < state.capacity {
                n
            } else {
                state.capacity as int
            })
            &&& forall|i: int| 0 <= i < item.bytes.len() ==> #[trigger] item.bytes[i] == frame.data@[i]
        }),
{
    broadcast use TransferId::lemma_of;

    lemma_count(state.queues);
}

/// A transfer that is fetched is the oldest one of its priority, and no transfer of a more urgent
/// priority that was asked for waits. Nothing is fetched only if no transfer of the priorities waits.
/// The other transfers stay in their places, and the sessions are not touched.
pub proof fn law_most_urgent_and_oldest_is_fetched<T: BufferType, const SN: usize, const TN: usize>(
    before: RxState,
    priorities: Set<Priority>,
    transfer: Option<(TransferMeta, Seq<u8>)>,
    after: RxState,
)
    requires
        before.queues.len() == 8,
        <RxPriorityFifoInner<T, SN, TN> as DynamicRxBuffer>::is_fetch(before, priorities, transfer, after),
    ensures
        match transfer {
            Some((meta, bytes)) => {
                let p = meta.priority.code() as int;
                &&& priorities.contains(meta.priority)
                &&& before.queues[p].len() > 0
                &&& meta.address == before.queues[p][0].source
                &&& meta.transfer_id == before.queues[p][0].transfer_id
                &&& meta.timestamp == before.queues[p][0].timestamp
                &&& meta.loop_back == before.queues[p][0].loop_back
                &&& bytes == before.queues[p][0].bytes
                &&& forall|q: Priority| #[trigger]
                    priorities.contains(q) && q.code() < p ==> before.queues[q.code() as int].len() == 0
                &&& after.queues.len() == 8
                &&& after.queues[p] == before.queues[p].subrange(1, before.queues[p].len() as int)
                &&& forall|c: int| 0 <= c < 8 && c != p ==> #[trigger] after.queues[c] == before.queues[c]
            },
            None => {
                &&& forall|q: Priority| #[trigger]
                    priorities.contains(q) ==> before.queues[q.code() as int].len() == 0
                &&& after == before
            },
        },
        after.table == before.table,
        after.data_specifier == before.data_specifier,
        after.timeout == before.timeout,
        after.capacity == before.capacity,
        after.slots == before.slots,
        after.waiting == before.waiting,
{
    let ready = queued_priorities(before.queues).intersect(priorities);
    match transfer {
        Some((meta, bytes)) => {
            let p = meta.priority.code() as int;
            assert(ready.contains(meta.priority));
            assert forall|q: Priority| #[trigger] priorities.contains(q) && q.code() < p implies before.queues[q.code() as int].len()
                == 0 by {
                if before.queues[q.code() as int].len() > 0 {
                    assert(ready.contains(q));
                }
            }
            assert(after.queues[p] =~= before.queues[p].subrange(1, before.queues[p].len() as int));
        },
        None => {
            assert forall|q: Priority| #[trigger] priorities.contains(q) implies before.queues[q.code() as int].len() == 0 by {
                assert(!ready.contains(q));
            }
        },
    }
}

/// A priority is ready exactly if a transfer of it is queued.
pub proof fn law_queued_priorities_are_ready<T: BufferType, const SN: usize, const TN: usize>(
    state: RxState,
    p: Priority,
)
    ensures
        <RxPriorityFifoInner<T, SN, TN> as DynamicRxBuffer>::ready(state).contains(p) <==> state.queues[p.code() as int].len()
            > 0,
{
}

/// The frames carry a transfer of the payload `data`, and the states follow each other.
pub open spec fn is_sent_to(
    trail: Seq<RxState>,
    list: Seq<Frame>,
    source: NodeId,
    priority: Priority,
    id: TransferId,
    data: Seq<u8>,
    mtu: Mtu,
) -> bool {
    &&& list.len() == transfer_frames(id, data, mtu).len()
    &&& trail.len() == list.len() + 1
    &&& forall|i: int|
        0 <= i < list.len() ==> {
            &&& (#[trigger] list[i]).data@ == transfer_frames(id, data, mtu)[i]
            &&& list[i].header.source == Some(source)
            &&& list[i].header.priority == priority
            &&& list[i].header.data_spec == trail[0].data_specifier
            &&& list[i].timestamp.ticks <= list[0].timestamp.ticks + trail[0].timeout.ticks
        }
    &&& forall|i: int| 0 <= i < list.len() ==> trail[i + 1] == #[trigger] trail[i].received(list[i])
}

/// The session of a source holds as many bytes as it has received and its buffer takes.
pub open spec fn is_consistent(table: SessionTable, source: NodeId, capacity: nat) -> bool {
    table.sessions.contains_key(source) ==> {
        let r = table.sessions[source];
        &&& r.session.wf()
        &&& r.bytes.len() == (if r.session.length < capacity {
            r.session.length
        } else {
            capacity as int
        })
    }
}

/// Every payload, an empty one too, reaches the queue: when the frames of a transfer arrive in their
/// order and in time, and a slot is free, the transfer is behind all others of its priority
/// afterwards, with its source, its identifier, the time of its first frame and its payload.
pub proof fn law_sent_payload_is_queued(
    trail: Seq<RxState>,
    list: Seq<Frame>,
    source: NodeId,
    priority: Priority,
    id: TransferId,
    data: Seq<u8>,
    mtu: Mtu,
)
    requires
        is_sent_to(trail, list, source, priority, id, data, mtu),
        trail[0].queues.len() == 8,
        queued_count(trail[0].queues) < trail[0].slots,
        is_consistent(trail[0].table, source, trail[0].capacity),
        is_expecting(trail[0].table, source, trail[0].timeout, id, list[0].timestamp),
        id.value() < 32,
        data.len() + 64 <= u32::MAX,
    ensures
        list.len() > 0,
        ({
            let p = priority.code() as int;
            let before = trail[0].queues;
            let after = trail.last().queues;
            &&& after.len() == 8
            &&& forall|c: int| 0 <= c < 8 && c != p ==> #[trigger] after[c] == before[c]
            &&& after[p].len() == before[p].len() + 1
            &&& forall|i: int| 0 <= i < before[p].len() ==> #[trigger] after[p][i] == before[p][i]
            &&& after[p].last().source == Some(source)
            &&& after[p].last().transfer_id == id
            &&& after[p].last().timestamp == list[0].timestamp
            &&& after[p].last().loop_back == list.last().loop_back
            &&& is_kept(after[p].last().bytes, data, mtu, trail[0].capacity)
        }),
{
    let tables = trail.map_values(|s: RxState| s.table);
    let times = list.map_values(|f: Frame| f.timestamp);
    let state = trail[0];
    assert forall|i: int| 0 <= i < times.len() implies #[trigger] tables[i + 1] == tables[i].received(
        source,
        state.timeout,
        state.capacity,
        priority,
        transfer_frames(id, data, mtu)[i],
        times[i],
    ).0 by {
        lemma_settings(trail, list, source, priority, id, data, mtu, i);
        assert(trail[i + 1] == trail[i].received(list[i]));
        assert(list[i].data@ == transfer_frames(id, data, mtu)[i]);
    }
    assert forall|i: int| 0 <= i < times.len() implies (#[trigger] times[i]).ticks <= times[0].ticks
        + state.timeout.ticks by {
        assert(list[i].data@ == transfer_frames(id, data, mtu)[i]);
    }
    assert(transfer_frames(id, data, mtu).len() > 0) by {
        crate::buffer::delivery::lemma_some_frame(id, data, mtu);
    }
    law_sessions_receive_transfer(
        tables,
        source,
        state.timeout,
        state.capacity,
        priority,
        id,
        data,
        mtu,
        times,
    );
    let n = list.len() - 1;
    lemma_unchanged_before(trail, list, source, priority, id, data, mtu, tables, times, n);
    lemma_settings(trail, list, source, priority, id, data, mtu, n);
    assert(trail[n + 1] == trail[n].received(list[n]));
    assert(list[n].data@ == transfer_frames(id, data, mtu)[n]);
    assert(tables[n].received(
        source,
        state.timeout,
        state.capacity,
        priority,
        transfer_frames(id, data, mtu)[n],
        times[n],
    ).1 == completed(trail[n].table, trail[n], list[n]));
    law_completed_transfer_is_queued(trail[n], list[n]);
}

/// The settings are those at the beginning.
proof fn lemma_settings(
    trail: Seq<RxState>,
    list: Seq<Frame>,
    source: NodeId,
    priority: Priority,
    id: TransferId,
    data: Seq<u8>,
    mtu: Mtu,
    k: int,
)
    requires
        is_sent_to(trail, list, source, priority, id, data, mtu),
        0 <= k < trail.len(),
    ensures
        trail[k].data_specifier == trail[0].data_specifier,
        trail[k].timeout == trail[0].timeout,
        trail[k].capacity == trail[0].capacity,
        trail[k].slots == trail[0].slots,
    decreases k,
{
    if k > 0 {
        lemma_settings(trail, list, source, priority, id, data, mtu, k - 1);
        assert(trail[(k - 1) + 1] == trail[k - 1].received(list[k - 1]));
        law_reception_keeps_settings(trail[k - 1], list[k - 1]);
    }
}

/// Nothing is queued before the last frame.
proof fn lemma_unchanged_before(
    trail: Seq<RxState>,
    list: Seq<Frame>,
    source: NodeId,
    priority: Priority,
    id: TransferId,
    data: Seq<u8>,
    mtu: Mtu,
    tables: Seq<SessionTable>,
    times: Seq<Instant>,
    k: int,
)
    requires
        is_sent_to(trail, list, source, priority, id, data, mtu),
        tables == trail.map_values(|s: RxState| s.table),
        times == list.map_values(|f: Frame| f.timestamp),
        forall|i: int|
            0 <= i < times.len() - 1 ==> (#[trigger] tables[i].received(
                source,
                trail[0].timeout,
                trail[0].capacity,
                priority,
                transfer_frames(id, data, mtu)[i],
                times[i],
            )).1 is None,
        0 <= k < list.len(),
    ensures
        trail[k].queues == trail[0].queues,
    decreases k,
{
    if k > 0 {
        let i = k - 1;
        lemma_unchanged_before(trail, list, source, priority, id, data, mtu, tables, times, i);
        lemma_settings(trail, list, source, priority, id, data, mtu, i);
        assert(trail[i + 1] == trail[i].received(list[i]));
        assert(list[i].data@ == transfer_frames(id, data, mtu)[i]);
        assert(tables[i].received(
            source,
            trail[0].timeout,
            trail[0].capacity,
            priority,
            transfer_frames(id, data, mtu)[i],
            times[i],
        ).1 == completed(trail[i].table, trail[i], list[i]));
        law_nothing_else_is_queued(trail[i], list[i]);
    }
}

/// A new buffer for a subject or a service has the timeout of its endpoint, slots for `SN` sessions and
/// `TN` transfers of the size of the type, and holds nothing.
pub proof fn law_new_buffer_is_empty<T: BufferType, const SN: usize, const TN: usize>(
    subject: SubjectId,
    service: ServiceId,
    timeout: Duration,
)
    ensures
        ({
            let message = <MessageFifo<T, SN, TN> as rx_msg::Buffer<T>>::fresh(subject, timeout);
            let request = <RequestFifo<T, SN, TN> as rx_req::Buffer<T>>::fresh(service, timeout);
            &&& message.data_specifier == DataSpecifier::Message(subject)
            &&& request.data_specifier == DataSpecifier::Request(service)
            &&& message.timeout == timeout
            &&& request.timeout == timeout
            &&& message.capacity == T::capacity()
            &&& request.capacity == T::capacity()
            &&& message.slots == TN
            &&& request.slots == TN
            &&& message.table.free == SN
            &&& request.table.free == SN
            &&& message.table.wf()
            &&& request.table.wf()
            &&& message.table.is_chronological()
            &&& request.table.is_chronological()
            &&& forall|k: NodeId| !#[trigger] message.table.sessions.contains_key(k)
            &&& forall|k: NodeId| !#[trigger] request.table.sessions.contains_key(k)
            &&& message.queues.len() == 8
            &&& request.queues.len() == 8
            &&& queued_count(message.queues) == 0
            &&& queued_count(request.queues) == 0
            &&& !message.waiting.armed
            &&& !request.waiting.armed
        }),
{
}

/// A task that waits waits for the given priorities, and nothing else changes.
pub proof fn law_waiting_changes_nothing_else<T: BufferType, const SN: usize, const TN: usize>(
    state: RxState,
    priorities: Set<Priority>,
)
    ensures
        ({
            let after = <RxPriorityFifoInner<T, SN, TN> as DynamicRxBuffer>::after_wait(state, priorities);
            &&& after.waiting.armed
            &&& after.waiting.filter == priorities
            &&& after.queues == state.queues
            &&& after.table == state.table
            &&& after.data_specifier == state.data_specifier
            &&& after.timeout == state.timeout
            &&& after.capacity == state.capacity
            &&& after.slots == state.slots
        }),
{
}

/// When all slots are taken, an anonymous transfer displaces the oldest one of the least urgent queued
/// priority, unless it is less urgent itself: then it is lost, and nothing changes.
pub proof fn law_anonymous_transfer_in_full_queue(state: RxState, frame: Frame, least: int)
    requires
        state.queues.len() == 8,
        queued_count(state.queues) >= state.slots,
        frame.header.data_spec == state.data_specifier,
        frame.header.source is None,
        frame.data@.len() > 0,
        frame.data@.last() >= 224,
        0 <= least < 8,
        state.queues[least].len() > 0,
        forall|c: int| least < c < 8 ==> (#[trigger] state.queues[c]).len() == 0,
    ensures
        ({
            let after = state.received(frame);
            let p = frame.header.priority.code() as int;
            let rest = state.queues[least].drop_first();
            &&& after.table == state.table
            &&& if p > least {
                after == state
            } else {
                let item = after.queues[p].last();
                let n = frame.data@.len() - 1;
                &&& after.queues.len() == 8
                &&& forall|c: int|
                    0 <= c < 8 && c != p && c != least ==> #[trigger] after.queues[c] == state.queues[c]
                &&& p != least ==> after.queues[least] == rest
                &&& after.queues[p].len() > 0
                &&& after.queues[p].drop_last() == (if p == least {
                    rest
                } else {
                    state.queues[p]
                })
                &&& item.source is None
                &&& item.transfer_id.value() == frame.data@.last() - 224
                &&& item.timestamp == frame.timestamp
                &&& item.loop_back == frame.loop_back
                &&& item.bytes.len() == (if n < state.capacity {
                    n
                } else {
                    state.capacity as int
                })
                &&& forall|i: int| 0 <= i < item.bytes.len() ==> #[trigger] item.bytes[i] == frame.data@[i]
                &&& state.waiting.filter.contains(frame.header.priority) ==> !after.waiting.armed
            }
        }),
{
    broadcast use TransferId::lemma_of;

    lemma_count(state.queues);
    lemma_last_queued(state.queues, 8);
    assert(least_urgent(state.queues) == least);
    let after = state.received(frame);
    let p = frame.header.priority.code() as int;
    if p <= least {
        let before = if p == least {
            state.queues[least].drop_first()
        } else {
            state.queues[p]
        };
        assert(after.queues[p].drop_last() =~= before);
        let one = Set::<Priority>::empty().insert(frame.header.priority);
        if state.waiting.filter.contains(frame.header.priority) {
            assert(one.intersect(state.waiting.filter).contains(frame.header.priority));
        }
    }
}

} // verus!
