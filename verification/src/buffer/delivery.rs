//! Whole transfers on their way through a receive buffer.

use vstd::prelude::*;

use crate::buffer::frame_list::{law_frame_list, frame_count};
use crate::buffer::gather::{clip, extend, law_last_frame_completes, law_session_wf, lemma_push_ignores_rest, Session};
use crate::buffer::round_trip::{
    frames, law_transfer_round_trip, lemma_received_length, receive_all, received_length, starts_with,
};
use crate::buffer::scatter::{padding, Outgoing};
use crate::buffer::sessions::SessionTable;
use crate::format::{crc_bytes, tail_fields, CRC_INIT};
use crate::frame::Mtu;
use crate::ids::{NodeId, TransferId};
use crate::priority::Priority;
use crate::time::{Duration, Instant};

verus! {

/// The data of the frames of a transfer with the payload `data`.
pub open spec fn transfer_frames(id: TransferId, data: Seq<u8>, mtu: Mtu) -> Seq<Seq<u8>> {
    frames(Outgoing::fresh(id, data.len() as int, crc_bytes(CRC_INIT, data)), data, mtu)
}

/// The source has a session that is not done with a transfer of this identifier, or it can get one:
/// there is a free slot, or the least recent session started its last transfer more than the timeout
/// ago.
pub open spec fn is_expecting(
    table: SessionTable,
    source: NodeId,
    timeout: Duration,
    id: TransferId,
    now: Instant,
) -> bool {
    if table.sessions.contains_key(source) {
        let session = table.sessions[source].session;
        session.phase is Assembled && session.id == Some(id) ==> session.start->0.ticks + timeout.ticks < now.ticks
    } else {
        ||| table.free > 0
        ||| table.order.len() > 0 && (table.sessions[table.order[0]].session.start matches Some(start) ==> start.ticks
            + timeout.ticks < now.ticks)
    }
}

/// The bytes that a buffer keeps of a received payload: the payload and up to 15 zeros of padding, as
/// far as they fit. Classic frames have no padding.
pub open spec fn is_kept(bytes: Seq<u8>, data: Seq<u8>, mtu: Mtu, capacity: nat) -> bool {
    &&& bytes.len() <= capacity
    &&& bytes.len() < capacity ==> data.len() <= bytes.len() < data.len() + 16
    &&& bytes.len() <= data.len() || mtu == Mtu::Fd
    &&& bytes.len() < data.len() + 16
    &&& forall|i: int|
        0 <= i < bytes.len() ==> #[trigger] bytes[i] == (if i < data.len() {
            data[i]
        } else {
            0
        })
}

/// The frames `k` to the end of a list are received: `trail` holds the sessions before and after each
/// frame.
spec fn is_trail(
    trail: Seq<SessionTable>,
    source: NodeId,
    timeout: Duration,
    capacity: nat,
    priority: Priority,
    list: Seq<Seq<u8>>,
    times: Seq<Instant>,
) -> bool {
    &&& trail.len() == list.len() + 1
    &&& times.len() == list.len()
    &&& forall|i: int|
        0 <= i < list.len() ==> #[trigger] trail[i + 1] == trail[i].received(
            source,
            timeout,
            capacity,
            priority,
            list[i],
            times[i],
        ).0
}

/// The sessions do what a single session does with a list of frames of which only the last one ends a
/// transfer.
proof fn lemma_trail(
    trail: Seq<SessionTable>,
    source: NodeId,
    timeout: Duration,
    capacity: nat,
    priority: Priority,
    list: Seq<Seq<u8>>,
    times: Seq<Instant>,
    session: Session,
    buffer: Seq<u8>,
)
    requires
        is_trail(trail, source, timeout, capacity, priority, list, times),
        list.len() > 0,
        forall|i: int| 0 <= i < list.len() ==> 0 < (#[trigger] list[i]).len() <= 64,
        forall|i: int| 0 <= i < list.len() - 1 ==> !tail_fields((#[trigger] list[i]).last()).eot,
        session.wf(),
        buffer.len() == capacity,
        trail[0].sessions.contains_key(source),
        trail[0].sessions[source].session == session,
        trail[0].sessions[source].bytes == clip(buffer, session.length),
        receive_all(session, timeout, buffer, priority, list, times).transfers.len() == 1,
    ensures
        forall|i: int|
            0 <= i < list.len() - 1 ==> (#[trigger] trail[i].received(
                source,
                timeout,
                capacity,
                priority,
                list[i],
                times[i],
            )).1 is None,
        ({
            let n = list.len() - 1;
            let r = receive_all(session, timeout, buffer, priority, list, times);
            let (after, assembled) = trail[n].received(source, timeout, capacity, priority, list[n], times[n]);
            &&& trail[n + 1] == after
            &&& assembled matches Some(a) && {
                &&& a.transfer == r.transfers[0]
                &&& a.bytes == clip(r.buffer, a.transfer.length as int)
            }
            &&& after.sessions.contains_key(source)
            &&& after.sessions[source].session == r.session
        }),
    decreases list.len(),
{
    let step = session.push(timeout, buffer, priority, list[0], times[0]);
    let (after, assembled) = trail[0].received(source, timeout, capacity, priority, list[0], times[0]);
    let other = extend(trail[0].sessions[source].bytes, capacity);
    assert(clip(other, session.length) =~= clip(buffer, session.length));
    lemma_push_ignores_rest(session, timeout, buffer, other, priority, list[0], times[0]);
    law_session_wf(session, timeout, buffer, priority, list[0], times[0]);
    assert(trail[0int + 1] == after);
    let rest = list.drop_first();
    let later = times.drop_first();
    let r = receive_all(step.session, timeout, step.buffer, priority, rest, later);
    if list.len() == 1 {
        assert(rest =~= Seq::<Seq<u8>>::empty());
        assert(r.transfers.len() == 0);
        let all = receive_all(session, timeout, buffer, priority, list, times);
        assert(step.transfer is Some);
        assert(all.transfers[0] == step.transfer->0);
    } else {
        law_last_frame_completes(session, timeout, buffer, priority, list[0], times[0]);
        assert(step.transfer is None);
        let next = trail.drop_first();
        assert forall|i: int| 0 <= i < rest.len() implies #[trigger] next[i + 1] == next[i].received(
            source,
            timeout,
            capacity,
            priority,
            rest[i],
            later[i],
        ).0 by {
            assert(trail[(i + 1) + 1] == trail[i + 1].received(
                source,
                timeout,
                capacity,
                priority,
                list[i + 1],
                times[i + 1],
            ).0);
        }
        assert forall|i: int| 0 <= i < rest.len() implies 0 < (#[trigger] rest[i]).len() <= 64 by {
            assert(rest[i] == list[i + 1]);
        }
        assert forall|i: int| 0 <= i < rest.len() - 1 implies !tail_fields((#[trigger] rest[i]).last()).eot by {
            assert(rest[i] == list[i + 1]);
        }
        assert(Seq::<crate::buffer::gather::Transfer>::empty() + r.transfers =~= r.transfers);
        lemma_trail(next, source, timeout, capacity, priority, rest, later, step.session, step.buffer);
        assert forall|i: int| 0 <= i < list.len() - 1 implies (#[trigger] trail[i].received(
            source,
            timeout,
            capacity,
            priority,
            list[i],
            times[i],
        )).1 is None by {
            if i > 0 {
                assert(next[i - 1].received(source, timeout, capacity, priority, rest[i - 1], later[i - 1]).1 is None);
            }
        }
    }
}

/// Whatever payload is sent is received: when the frames of a transfer arrive in their order, each
/// within the timeout since the first one, nothing comes out before the last frame, and then the
/// transfer with its identifier, its priority, the time of its first frame, and its payload.
#[verifier::rlimit(60)]
#[verifier::spinoff_prover]
pub proof fn law_sessions_receive_transfer(
    trail: Seq<SessionTable>,
    source: NodeId,
    timeout: Duration,
    capacity: nat,
    priority: Priority,
    id: TransferId,
    data: Seq<u8>,
    mtu: Mtu,
    times: Seq<Instant>,
)
    requires
        trail[0].sessions.contains_key(source) ==> trail[0].sessions[source].session.wf()
            && trail[0].sessions[source].bytes.len() == (if trail[0].sessions[source].session.length < capacity {
            trail[0].sessions[source].session.length
        } else {
            capacity as int
        }),
        is_expecting(trail[0], source, timeout, id, times[0]),
        id.value() < 32,
        data.len() + 64 <= u32::MAX,
        times.len() == transfer_frames(id, data, mtu).len(),
        trail.len() == times.len() + 1,
        forall|i: int|
            0 <= i < times.len() ==> #[trigger] trail[i + 1] == trail[i].received(
                source,
                timeout,
                capacity,
                priority,
                transfer_frames(id, data, mtu)[i],
                times[i],
            ).0,
        forall|i: int| 0 <= i < times.len() ==> (#[trigger] times[i]).ticks <= times[0].ticks + timeout.ticks,
    ensures
        times.len() > 0,
        forall|i: int|
            0 <= i < times.len() - 1 ==> (#[trigger] trail[i].received(
                source,
                timeout,
                capacity,
                priority,
                transfer_frames(id, data, mtu)[i],
                times[i],
            )).1 is None,
        ({
            let n = times.len() - 1;
            let assembled = trail[n].received(
                source,
                timeout,
                capacity,
                priority,
                transfer_frames(id, data, mtu)[n],
                times[n],
            ).1;
            &&& assembled matches Some(a) && {
                &&& a.transfer.id == id
                &&& a.transfer.priority == priority
                &&& a.transfer.timestamp == times[0]
                &&& is_kept(a.bytes, data, mtu, capacity)
            }
        }),
{
    let list = transfer_frames(id, data, mtu);
    let o = Outgoing::fresh(id, data.len() as int, crc_bytes(CRC_INIT, data));
    let count = frame_count(data.len() as int, mtu);
    law_frame_list(id, data, crc_bytes(CRC_INIT, data), mtu);
    assert(list.len() == count);
    assert(count >= 1) by {
        lemma_count(data.len() as int, mtu);
    }
    assert(tail_fields(list[0].last()).sot);
    lemma_prepared(trail[0], source, timeout, capacity, priority, id, list[0], times[0]);
    let first = trail[0].prepared(source, timeout, list[0], times[0]);
    let session = first.sessions[source].session;
    let buffer = extend(first.sessions[source].bytes, capacity);
    let start = trail.update(0, first);
    assert(is_trail(start, source, timeout, capacity, priority, list, times)) by {
        assert forall|i: int| 0 <= i < list.len() implies #[trigger] start[i + 1] == start[i].received(
            source,
            timeout,
            capacity,
            priority,
            list[i],
            times[i],
        ).0 by {
            assert(trail[i + 1] == trail[i].received(source, timeout, capacity, priority, list[i], times[i]).0);
        }
    }
    assert forall|i: int| 0 <= i < list.len() implies 0 < (#[trigger] list[i]).len() <= 64 by {}
    law_transfer_round_trip(session, timeout, buffer, priority, id, data, mtu, times);
    lemma_trail(start, source, timeout, capacity, priority, list, times, session, buffer);
    assert forall|i: int| 0 <= i < times.len() - 1 implies (#[trigger] trail[i].received(
        source,
        timeout,
        capacity,
        priority,
        list[i],
        times[i],
    )).1 is None by {
        assert(start[i].received(source, timeout, capacity, priority, list[i], times[i]).1 is None);
    }
    let n = times.len() - 1;
    let r = receive_all(session, timeout, buffer, priority, frames(o, data, mtu), times);
    let a = trail[n].received(source, timeout, capacity, priority, list[n], times[n]).1->0;
    assert(start[n].received(source, timeout, capacity, priority, list[n], times[n]) == trail[n].received(
        source,
        timeout,
        capacity,
        priority,
        list[n],
        times[n],
    ));
    lemma_received_length(data.len() as int, mtu);
    lemma_kept(a.bytes, r.buffer, data, mtu);
}

/// There is at least one frame.
proof fn lemma_count(length: int, mtu: Mtu)
    requires
        0 <= length,
    ensures
        frame_count(length, mtu) >= 1,
{
    match mtu {
        Mtu::Classic => {
            assert((length + 2 + 7 - 1) / 7 >= 1);
        },
        Mtu::Fd => {
            assert((length + 2 + 63 - 1) / 63 >= 1);
        },
    }
}

/// A source that is expected has a session when its first frame is received.
proof fn lemma_prepared(
    table: SessionTable,
    source: NodeId,
    timeout: Duration,
    capacity: nat,
    priority: Priority,
    id: TransferId,
    data: Seq<u8>,
    now: Instant,
)
    requires
        table.sessions.contains_key(source) ==> table.sessions[source].session.wf()
            && table.sessions[source].bytes.len() == (if table.sessions[source].session.length < capacity {
            table.sessions[source].session.length
        } else {
            capacity as int
        }),
        is_expecting(table, source, timeout, id, now),
        data.len() > 0,
        tail_fields(data.last()).sot,
    ensures
        ({
            let first = table.prepared(source, timeout, data, now);
            let session = first.sessions[source].session;
            let kept = first.sessions[source].bytes;
            &&& first.sessions.contains_key(source)
            &&& session.wf()
            &&& clip(extend(kept, capacity), session.length) == kept
            &&& !(session.phase is Assembled && session.is_same_transfer(timeout, id, now))
            &&& first.received(source, timeout, capacity, priority, data, now) == table.received(
                source,
                timeout,
                capacity,
                priority,
                data,
                now,
            )
        }),
{
    let first = table.prepared(source, timeout, data, now);
    let session = first.sessions[source].session;
    let kept = first.sessions[source].bytes;
    assert(clip(extend(kept, capacity), session.length) =~= kept);
}

/// What a buffer keeps of a payload that it starts with.
proof fn lemma_kept(bytes: Seq<u8>, buffer: Seq<u8>, data: Seq<u8>, mtu: Mtu)
    requires
        starts_with(buffer, data + padding(received_length(data.len() as int, mtu) - data.len())),
        bytes == clip(buffer, received_length(data.len() as int, mtu)),
    ensures
        is_kept(bytes, data, mtu, buffer.len()),
{
    let length = received_length(data.len() as int, mtu);
    lemma_received_length(data.len() as int, mtu);
    let whole = data + padding(length - data.len());
    assert forall|i: int| 0 <= i < bytes.len() implies #[trigger] bytes[i] == (if i < data.len() {
        data[i]
    } else {
        0
    }) by {
        assert(bytes[i] == buffer[i]);
        assert(whole[i] == buffer[i]);
    }
}

/// Every payload needs a frame.
pub proof fn lemma_some_frame(id: TransferId, data: Seq<u8>, mtu: Mtu)
    requires
        id.value() < 32,
    ensures
        transfer_frames(id, data, mtu).len() > 0,
{
    law_frame_list(id, data, crc_bytes(CRC_INIT, data), mtu);
    lemma_count(data.len() as int, mtu);
}

} // verus!
