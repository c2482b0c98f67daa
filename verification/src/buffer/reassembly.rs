//! What each frame does to the reassembly of a transfer.
//!
//! The last byte of a frame is the tail byte: 128 marks the first frame, 64 the last one, 32 is the
//! toggle bit, and the rest is the identifier of the transfer.

use vstd::prelude::*;

use crate::buffer::gather::{Phase, Session, Step};
use crate::format::{crc_bytes, CRC_INIT};
use crate::ids::TransferId;
use crate::priority::Priority;
use crate::time::{Duration, Instant};

verus! {

broadcast use {TransferId::lemma_of, TransferId::lemma_value};

/// A single-frame transfer comes out at once, with its whole payload, however short or long it is.
/// Only a repetition of the last transfer within the timeout does not.
pub proof fn law_single_frame_is_received(
    session: Session,
    timeout: Duration,
    buffer: Seq<u8>,
    priority: Priority,
    payload: Seq<u8>,
    id: TransferId,
    now: Instant,
)
    requires
        session.wf(),
        id.value() < 32,
        payload.len() <= u32::MAX,
        session.phase is Assembled && session.id == Some(id) ==> session.start->0.ticks + timeout.ticks < now.ticks,
    ensures
        ({
            let step = session.push(timeout, buffer, priority, payload.push((224 + id.value()) as u8), now);
            &&& step.transfer matches Some(t) && {
                &&& t.id == id
                &&& t.priority == priority
                &&& t.timestamp == now
                &&& t.length == payload.len()
            }
            &&& step.buffer.len() == buffer.len()
            &&& forall|i: int|
                0 <= i < buffer.len() ==> #[trigger] step.buffer[i] == (if i < payload.len() {
                    payload[i]
                } else {
                    buffer[i]
                })
            &&& step.session.phase is Assembled
            &&& step.session.id == Some(id)
            &&& step.session.start == Some(now)
            &&& step.session.length == 0
        }),
{
    let data = payload.push((224 + id.value()) as u8);
    assert(data.drop_last() =~= payload);
}

/// A transfer that is complete is not received again, and not disturbed, by any of its frames within
/// the timeout since its first frame.
pub proof fn law_repetition_is_ignored(
    session: Session,
    timeout: Duration,
    buffer: Seq<u8>,
    priority: Priority,
    data: Seq<u8>,
    now: Instant,
)
    requires
        session.wf(),
        session.phase is Assembled,
        data.len() > 0,
        session.id->0.value() == data.last() % 32,
        now.ticks <= session.start->0.ticks + timeout.ticks,
    ensures
        session.push(timeout, buffer, priority, data, now) == (Step { session, buffer, transfer: None }),
{
}

/// The first frame of several starts a transfer, and restarts one that was not complete. It has to be
/// full.
pub proof fn law_first_frame_starts(
    session: Session,
    timeout: Duration,
    buffer: Seq<u8>,
    priority: Priority,
    payload: Seq<u8>,
    id: TransferId,
    now: Instant,
)
    requires
        session.wf(),
        id.value() < 32,
        session.phase is Assembled && session.id == Some(id) ==> session.start->0.ticks + timeout.ticks < now.ticks,
    ensures
        ({
            let step = session.push(timeout, buffer, priority, payload.push((160 + id.value()) as u8), now);
            &&& step.transfer is None
            &&& step.buffer.len() == buffer.len()
            &&& if payload.len() == 7 || payload.len() == 63 {
                &&& step.session.phase matches Phase::Accumulating { first, odd } && first && !odd
                &&& step.session.id == Some(id)
                &&& step.session.start == Some(now)
                &&& step.session.length == payload.len()
                &&& step.session.crc == crc_bytes(CRC_INIT, payload)
                &&& forall|i: int|
                    0 <= i < buffer.len() ==> #[trigger] step.buffer[i] == (if i < payload.len() {
                        payload[i]
                    } else {
                        buffer[i]
                    })
            } else {
                &&& step.session.phase is Idle
                &&& step.session.id is None
                &&& step.session.start == session.start
                &&& step.session.length == 0
                &&& step.buffer == buffer
            }
        }),
{
    let data = payload.push((160 + id.value()) as u8);
    assert(data.drop_last() =~= payload);
}

/// A later frame with the next toggle bit is added behind what has been received. A last one brings
/// the transfer out if its payload is not empty and the checksum over everything is right, and drops
/// it otherwise.
pub proof fn law_next_frame_is_added(
    session: Session,
    timeout: Duration,
    buffer: Seq<u8>,
    priority: Priority,
    payload: Seq<u8>,
    last: bool,
    now: Instant,
)
    requires
        session.wf(),
        session.phase is Accumulating,
        session.id->0.value() < 32,
        now.ticks <= session.start->0.ticks + timeout.ticks,
        session.length + payload.len() <= u32::MAX,
        !last ==> payload.len() == 7 || payload.len() == 63,
    ensures
        ({
            let odd = session.phase->odd;
            let tail = (if last { 64int } else { 0 }) + (if odd { 32int } else { 0 }) + session.id->0.value();
            let step = session.push(timeout, buffer, priority, payload.push(tail as u8), now);
            let length = session.length + payload.len();
            let crc = crc_bytes(session.crc, payload);
            &&& step.buffer.len() == buffer.len()
            &&& forall|i: int|
                0 <= i < buffer.len() ==> #[trigger] step.buffer[i] == (if session.length <= i < length {
                    payload[i - session.length]
                } else {
                    buffer[i]
                })
            &&& step.session.start == session.start
            &&& if !last {
                &&& step.transfer is None
                &&& step.session.phase matches Phase::Accumulating { first, odd: now_odd } && !first && now_odd != odd
                &&& step.session.id == session.id
                &&& step.session.length == length
                &&& step.session.crc == crc
            } else if payload.len() > 0 && length >= 2 && crc == 0 {
                &&& step.transfer matches Some(t) && {
                    &&& Some(t.id) == session.id
                    &&& t.priority == priority
                    &&& Some(t.timestamp) == session.start
                    &&& t.length == length - 2
                }
                &&& step.session.phase is Assembled
                &&& step.session.id == session.id
                &&& step.session.length == 0
            } else {
                &&& step.transfer is None
                &&& step.session.phase is Idle
                &&& step.session.id is None
                &&& step.session.length == 0
            }
        }),
{
    let odd = session.phase->odd;
    let tail = (if last { 64int } else { 0 }) + (if odd { 32int } else { 0 }) + session.id->0.value();
    let data = payload.push(tail as u8);
    assert(data.drop_last() =~= payload);
    let b = tail as u8;
    assert(b % 32 == session.id->0.value());
}

/// A transfer that is longer than can be counted is dropped.
pub proof fn law_endless_transfer_is_dropped(
    session: Session,
    timeout: Duration,
    buffer: Seq<u8>,
    priority: Priority,
    data: Seq<u8>,
    now: Instant,
)
    requires
        session.wf(),
        session.phase is Accumulating,
        data.len() > 0,
        data.last() < 128,
        session.length + data.len() - 1 > u32::MAX,
    ensures
        ({
            let step = session.push(timeout, buffer, priority, data, now);
            &&& step.transfer is None
            &&& step.buffer == buffer
            &&& step.session == session || step.session.phase is Idle
        }),
{
}

/// A frame that is neither expected nor the start of a transfer brings nothing out and leaves the
/// received bytes alone. The reassembly goes on only if the frame repeats the previous one: a frame
/// between the first and the last one with the toggle bit of the previous frame. Otherwise it stops.
pub proof fn law_unexpected_frame_stops(
    session: Session,
    timeout: Duration,
    buffer: Seq<u8>,
    priority: Priority,
    data: Seq<u8>,
    now: Instant,
)
    requires
        session.wf(),
        data.len() > 0,
        session.phase is Assembled && session.id->0.value() == data.last() % 32 ==> session.start->0.ticks
            + timeout.ticks < now.ticks,
    ensures
        ({
            let tail = data.last();
            let step = session.push(timeout, buffer, priority, data, now);
            let toggle = tail % 64 >= 32;
            let is_full = data.len() == 8 || data.len() == 64;
            let is_wrong_start = tail >= 128 && !toggle;
            let is_foreign = tail < 128 && (session.phase !is Accumulating || session.id->0.value() != tail % 32);
            let is_late = tail < 128 && session.phase is Accumulating && session.start->0.ticks + timeout.ticks
                < now.ticks;
            let is_short = tail % 128 < 64 && !is_full;
            let is_out_of_turn = tail < 128 && session.phase is Accumulating && toggle != session.phase->odd;
            let is_tolerated = is_out_of_turn && tail < 64 && !session.phase->first && !is_wrong_start && !is_foreign
                && !is_late && !is_short;
            is_wrong_start || is_foreign || is_late || is_short || is_out_of_turn ==> {
                &&& step.transfer is None
                &&& step.buffer == buffer
                &&& step.session.start == session.start
                &&& if is_tolerated {
                    step.session == session
                } else {
                    &&& step.session.phase is Idle
                    &&& step.session.id is None
                    &&& step.session.length == 0
                    &&& step.session.crc == CRC_INIT
                }
            }
        }),
{
}

} // verus!
