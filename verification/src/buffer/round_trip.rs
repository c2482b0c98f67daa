//! What is sent as a sequence of frames is received as the same transfer.

use vstd::arithmetic::div_mod::{lemma_add_mod_noop, lemma_mod_self_0, lemma_mod_twice, lemma_small_mod};
use vstd::prelude::*;

use crate::buffer::gather::{store, Phase, Session, Transfer};
use crate::buffer::scatter::{padding, Outgoing};
use crate::format::{
    crc_bytes, crc_field, lemma_crc_concat, law_crc_residue, law_tail_round_trip, tail_byte, CRC_INIT,
};
use crate::frame::{ceil_length, Mtu};
use crate::ids::TransferId;
use crate::priority::Priority;
use crate::time::{Duration, Instant};

verus! {

/// A transfer is somewhere between its first byte and the end of its checksum.
pub open spec fn is_in_progress(o: Outgoing, data: Seq<u8>) -> bool {
    o.length == data.len() && 0 <= o.offset < o.length + 2
}

/// Each frame makes progress, and the last one completes the transfer.
pub proof fn lemma_progress(o: Outgoing, data: Seq<u8>, mtu: Mtu)
    requires
        is_in_progress(o, data),
    ensures
        o.offset < o.sent(data, mtu.size() as int).offset <= o.length + 2,
{
}

/// The data of all frames that are still to be sent.
pub open spec fn frames(o: Outgoing, data: Seq<u8>, mtu: Mtu) -> Seq<Seq<u8>>
    decreases o.length + 2 - o.offset,
{
    if !is_in_progress(o, data) {
        Seq::empty()
    } else {
        proof {
            lemma_progress(o, data, mtu);
        }
        seq![o.frame(data, mtu.size() as int)] + frames(o.sent(data, mtu.size() as int), data, mtu)
    }
}

/// The session, the buffer and the transfers after a sequence of frames.
pub struct Reception {
    /// The session afterwards.
    pub session: Session,
    /// The buffer afterwards.
    pub buffer: Seq<u8>,
    /// The complete transfers in their order.
    pub transfers: Seq<Transfer>,
}

/// Frames are received one after the other, frame `i` at `times[i]`.
pub open spec fn receive_all(
    session: Session,
    timeout: Duration,
    buffer: Seq<u8>,
    priority: Priority,
    data: Seq<Seq<u8>>,
    times: Seq<Instant>,
) -> Reception
    decreases data.len(),
{
    if data.len() == 0 {
        Reception { session, buffer, transfers: Seq::empty() }
    } else {
        let step = session.push(timeout, buffer, priority, data[0], times[0]);
        let rest = receive_all(
            step.session,
            timeout,
            step.buffer,
            priority,
            data.drop_first(),
            times.drop_first(),
        );
        let first = match step.transfer {
            Some(transfer) => seq![transfer],
            None => Seq::empty(),
        };
        Reception { transfers: first + rest.transfers, ..rest }
    }
}

/// The number of bytes that the receiver gets for `length` bytes of payload: padding of the
/// last frame is part of what is received.
pub open spec fn received_length(length: int, mtu: Mtu) -> int {
    let max = mtu.size() - 1;
    if length <= max {
        ceil_length(length + 1) - 1
    } else {
        let last = (length + 2) % max;
        // A rest of zero fills the last frame.
        if last == 0 {
            length
        } else {
            length + (ceil_length(last + 1) - 1 - last)
        }
    }
}

/// Classic frames are never padded, and padding never reaches the length of a frame.
pub proof fn lemma_received_length(length: int, mtu: Mtu)
    requires
        0 <= length,
    ensures
        length <= received_length(length, mtu) < length + 16,
        mtu == Mtu::Classic ==> received_length(length, mtu) == length,
{
}

/// The buffer starts with the bytes, as far as it reaches.
pub open spec fn starts_with(buffer: Seq<u8>, bytes: Seq<u8>) -> bool {
    forall|i: int| 0 <= i < bytes.len() && i < buffer.len() ==> buffer[i] == #[trigger] bytes[i]
}

/// The session has received exactly what has been sent.
spec fn is_tracking(
    session: Session,
    buffer: Seq<u8>,
    o: Outgoing,
    data: Seq<u8>,
    start: Instant,
) -> bool {
    &&& session.start == Some(start)
    &&& session.id == Some(o.id)
    &&& session.phase matches Phase::Accumulating { first, odd } && odd == o.toggle
    &&& session.length == o.offset
    &&& session.crc == crc_bytes(CRC_INIT, (data + crc_field(o.crc)).take(o.offset))
    &&& starts_with(buffer, (data + crc_field(o.crc)).take(o.offset))
}

/// Writing the next bytes of a stream behind its start extends what the buffer starts with.
proof fn lemma_store_extends(buffer: Seq<u8>, before: Seq<u8>, bytes: Seq<u8>)
    requires
        starts_with(buffer, before),
    ensures
        starts_with(store(buffer, before.len() as int, bytes), before + bytes),
{
    let after = store(buffer, before.len() as int, bytes);
    assert forall|i: int| 0 <= i < (before + bytes).len() && i < after.len() implies after[i]
        == #[trigger] (before + bytes)[i] by {
        if i < before.len() {
            assert(buffer[i] == before[i]);
        }
    }
}

/// Multiples of the largest payload do not change a remainder.
pub proof fn lemma_full_frames(mtu: Mtu, a: int, b: int)
    requires
        a % (mtu.size() - 1) == 0,
    ensures
        (a + b) % (mtu.size() - 1) == b % (mtu.size() - 1),
        b == mtu.size() - 1 ==> (a + b) % (mtu.size() - 1) == 0,
{
    let m = mtu.size() - 1;
    lemma_add_mod_noop(a, b, m);
    lemma_mod_twice(b, m);
    lemma_mod_self_0(m);
}

/// A session tracks a transfer, and the next frame arrives in time.
spec fn is_ready(
    session: Session,
    timeout: Duration,
    buffer: Seq<u8>,
    o: Outgoing,
    data: Seq<u8>,
    mtu: Mtu,
    start: Instant,
    time: Instant,
) -> bool {
    &&& TransferId::is_valid(o.id.value() as int)
    &&& is_in_progress(o, data)
    &&& o.offset > 0
    &&& o.length > mtu.size() - 1
    &&& o.crc == crc_bytes(CRC_INIT, data)
    &&& data.len() + 64 <= u32::MAX
    &&& is_tracking(session, buffer, o, data, start)
    &&& time.ticks <= start.plus(timeout).ticks
}

/// A frame that is not the last one.
proof fn lemma_receive_full(
    session: Session,
    timeout: Duration,
    buffer: Seq<u8>,
    priority: Priority,
    o: Outgoing,
    data: Seq<u8>,
    mtu: Mtu,
    start: Instant,
    time: Instant,
)
    requires
        is_ready(session, timeout, buffer, o, data, mtu, start, time),
        !o.sent(data, mtu.size() as int).done(),
    ensures
        ({
            let step = session.push(
                timeout,
                buffer,
                priority,
                o.frame(data, mtu.size() as int),
                time,
            );
            let next = o.sent(data, mtu.size() as int);
            &&& step.transfer is None
            &&& step.buffer.len() == buffer.len()
            &&& next.offset == o.offset + mtu.size() - 1
            &&& is_tracking(step.session, step.buffer, next, data, start)
        }),
{
    let size = mtu.size() as int;
    let next = o.sent(data, size);
    let (payload, offset) = o.segment(data, size);
    let frame = o.frame(data, size);
    lemma_progress(o, data, mtu);
    assert(frame.drop_last() =~= payload);
    assert(frame.last() == tail_byte(false, false, o.toggle, o.id) as u8);
    law_tail_round_trip(false, false, o.toggle, o.id, 0);
    let stream = data + crc_field(o.crc);
    let before = stream.take(o.offset);
    assert(payload.len() == size - 1);
    assert(stream.take(next.offset) =~= before + payload);
    lemma_store_extends(buffer, before, payload);
    lemma_crc_concat(CRC_INIT, before, payload);
}

/// With the payload of the last frame, the data, the padding and the checksum have been sent.
pub proof fn lemma_last_payload(o: Outgoing, data: Seq<u8>, mtu: Mtu)
    requires
        is_in_progress(o, data),
        o.offset > 0,
        o.length > mtu.size() - 1,
        o.offset % (mtu.size() - 1) == 0,
        o.sent(data, mtu.size() as int).done(),
    ensures
        ({
            let length = received_length(o.length, mtu);
            let pad = padding(length - data.len());
            let payload = o.segment(data, mtu.size() as int).0;
            &&& length >= data.len()
            &&& payload.len() > 0
            &&& o.offset + payload.len() == length + 2
            &&& (data + crc_field(o.crc)).take(o.offset) + payload == data + pad + crc_field(
                crc_bytes(o.crc, pad),
            )
        }),
{
    let size = mtu.size() as int;
    let (payload, offset) = o.segment(data, size);
    lemma_progress(o, data, mtu);
    let before = (data + crc_field(o.crc)).take(o.offset);
    let left = o.length + 2 - o.offset;
    let length = received_length(o.length, mtu);
    assert(left <= size - 1);
    lemma_full_frames(mtu, o.offset, left);
    assert((o.length + 2) % (size - 1) == left % (size - 1));
    if left < size - 1 {
        lemma_small_mod(left as nat, (size - 1) as nat);
    } else {
        lemma_mod_self_0(size - 1);
    }
    lemma_received_length(o.length, mtu);
    let pad = padding(length - data.len());
    let field = crc_field(crc_bytes(o.crc, pad));
    if left >= o.payload_length(size) {
        assert(length == o.length);
        assert(pad =~= Seq::<u8>::empty());
    } else {
        assert(before =~= data.take(o.offset));
        assert(length - data.len() == o.payload_length(size) - left);
    }
    assert(before + payload =~= data + pad + field);
}

/// The last frame.
proof fn lemma_receive_last(
    session: Session,
    timeout: Duration,
    buffer: Seq<u8>,
    priority: Priority,
    o: Outgoing,
    data: Seq<u8>,
    mtu: Mtu,
    start: Instant,
    time: Instant,
)
    requires
        is_ready(session, timeout, buffer, o, data, mtu, start, time),
        o.offset % (mtu.size() - 1) == 0,
        o.sent(data, mtu.size() as int).done(),
    ensures
        ({
            let step = session.push(
                timeout,
                buffer,
                priority,
                o.frame(data, mtu.size() as int),
                time,
            );
            let length = received_length(o.length, mtu);
            &&& step.transfer == Some(
                Transfer { id: o.id, priority, timestamp: start, length: length as u32 },
            )
            &&& step.buffer.len() == buffer.len()
            &&& starts_with(step.buffer, data + padding(length - data.len()))
            &&& step.session.phase is Assembled
            &&& step.session.id == Some(o.id)
            &&& step.session.start == Some(start)
        }),
{
    let size = mtu.size() as int;
    let (payload, offset) = o.segment(data, size);
    let frame = o.frame(data, size);
    lemma_progress(o, data, mtu);
    assert(frame.drop_last() =~= payload);
    assert(frame.last() == tail_byte(false, true, o.toggle, o.id) as u8);
    law_tail_round_trip(false, true, o.toggle, o.id, 0);
    let before = (data + crc_field(o.crc)).take(o.offset);
    let length = received_length(o.length, mtu);
    lemma_received_length(o.length, mtu);
    lemma_last_payload(o, data, mtu);
    let pad = padding(length - data.len());
    let whole = data + pad;
    let field = crc_field(crc_bytes(o.crc, pad));
    assert(before + payload == whole + field);
    lemma_store_extends(buffer, before, payload);
    lemma_crc_concat(CRC_INIT, before, payload);
    lemma_crc_concat(CRC_INIT, data, pad);
    law_crc_residue(CRC_INIT, whole, field);
    let step = session.push(timeout, buffer, priority, frame, time);
    assert(step.buffer == store(buffer, o.offset, payload));
    assert forall|i: int| 0 <= i < whole.len() && i < step.buffer.len() implies step.buffer[i]
        == #[trigger] whole[i] by {
        assert((before + payload)[i] == whole[i]);
    }
}

/// The frames after the first one of a multi-frame transfer.
proof fn lemma_receive_rest(
    session: Session,
    timeout: Duration,
    buffer: Seq<u8>,
    priority: Priority,
    o: Outgoing,
    data: Seq<u8>,
    mtu: Mtu,
    start: Instant,
    times: Seq<Instant>,
)
    requires
        times.len() == frames(o, data, mtu).len(),
        times.len() > 0,
        is_ready(session, timeout, buffer, o, data, mtu, start, times[0]),
        o.offset % (mtu.size() - 1) == 0,
        forall|i: int| 0 <= i < times.len() ==> (#[trigger] times[i]).ticks <= start.plus(timeout).ticks,
    ensures
        ({
            let r = receive_all(session, timeout, buffer, priority, frames(o, data, mtu), times);
            let length = received_length(o.length, mtu);
            &&& r.transfers == seq![
                Transfer { id: o.id, priority, timestamp: start, length: length as u32 },
            ]
            &&& r.buffer.len() == buffer.len()
            &&& starts_with(r.buffer, data + padding(length - data.len()))
            &&& r.session.phase is Assembled
            &&& r.session.id == Some(o.id)
            &&& r.session.start == Some(start)
        }),
    decreases o.length + 2 - o.offset,
{
    let size = mtu.size() as int;
    let next = o.sent(data, size);
    let all = frames(o, data, mtu);
    let rest = frames(next, data, mtu);
    lemma_progress(o, data, mtu);
    assert(all =~= seq![o.frame(data, size)] + rest);
    assert(all[0] == o.frame(data, size));
    assert(all.drop_first() =~= rest);
    let frame = o.frame(data, size);
    let step = session.push(timeout, buffer, priority, frame, times[0]);
    if next.done() {
        lemma_receive_last(session, timeout, buffer, priority, o, data, mtu, start, times[0]);
        assert(rest =~= Seq::<Seq<u8>>::empty());
        let r = receive_all(step.session, timeout, step.buffer, priority, rest, times.drop_first());
        assert(r.transfers =~= Seq::<Transfer>::empty());
        assert(seq![step.transfer->0] + r.transfers =~= seq![step.transfer->0]);
    } else {
        lemma_receive_full(session, timeout, buffer, priority, o, data, mtu, start, times[0]);
        lemma_full_frames(mtu, o.offset, size - 1);
        let later = times.drop_first();
        assert(rest.len() > 0);
        assert(later[0] == times[1]);
        lemma_receive_rest(step.session, timeout, step.buffer, priority, next, data, mtu, start, later);
        let r = receive_all(step.session, timeout, step.buffer, priority, rest, later);
        assert(Seq::<Transfer>::empty() + r.transfers =~= r.transfers);
    }
}

/// The first frame of a transfer.
proof fn lemma_receive_first(
    session: Session,
    timeout: Duration,
    buffer: Seq<u8>,
    priority: Priority,
    o: Outgoing,
    data: Seq<u8>,
    mtu: Mtu,
    time: Instant,
)
    requires
        session.wf(),
        o == Outgoing::fresh(o.id, data.len() as int, crc_bytes(CRC_INIT, data)),
        TransferId::is_valid(o.id.value() as int),
        data.len() + 64 <= u32::MAX,
        !(session.phase is Assembled && session.is_same_transfer(timeout, o.id, time)),
    ensures
        ({
            let size = mtu.size() as int;
            let next = o.sent(data, size);
            let step = session.push(timeout, buffer, priority, o.frame(data, size), time);
            let length = received_length(data.len() as int, mtu);
            &&& step.buffer.len() == buffer.len()
            &&& if o.is_single(size) {
                &&& next.done()
                &&& step.transfer == Some(
                    Transfer { id: o.id, priority, timestamp: time, length: length as u32 },
                )
                &&& starts_with(step.buffer, data + padding(length - data.len()))
                &&& step.session.phase is Assembled
                &&& step.session.id == Some(o.id)
                &&& step.session.start == Some(time)
            } else {
                &&& step.transfer is None
                &&& next.offset == size - 1
                &&& is_tracking(step.session, step.buffer, next, data, time)
            }
        }),
{
    let size = mtu.size() as int;
    let (payload, offset) = o.segment(data, size);
    let frame = o.frame(data, size);
    lemma_progress(o, data, mtu);
    let eot = o.is_single(size);
    let stream = data + crc_field(o.crc);
    if !eot {
        assert(payload.len() == size - 1);
        assert(offset != o.length + 2);
        assert(stream.take(size - 1) =~= payload);
    }
    assert(frame.drop_last() =~= payload);
    assert(frame.last() == tail_byte(true, eot, true, o.id) as u8);
    law_tail_round_trip(true, eot, true, o.id, 0);
    assert(starts_with(buffer, Seq::<u8>::empty()));
    lemma_store_extends(buffer, Seq::empty(), payload);
    assert(Seq::<u8>::empty() + payload =~= payload);
}

/// Everything that is sent is received.
///
/// A receiver gets the frames of a transfer in their order, each within the timeout counted from
/// the first one, and is not just done with a transfer of the same identifier. Then exactly one
/// transfer comes out: with the identifier, the priority, the time of the first frame, and the
/// payload followed by the padding of the last frame. The buffer takes as much of it as it can.
pub proof fn law_transfer_round_trip(
    session: Session,
    timeout: Duration,
    buffer: Seq<u8>,
    priority: Priority,
    id: TransferId,
    data: Seq<u8>,
    mtu: Mtu,
    times: Seq<Instant>,
)
    requires
        session.wf(),
        TransferId::is_valid(id.value() as int),
        data.len() + 64 <= u32::MAX,
        times.len() > 0,
        times.len() == frames(
            Outgoing::fresh(id, data.len() as int, crc_bytes(CRC_INIT, data)),
            data,
            mtu,
        ).len(),
        forall|i: int|
            0 <= i < times.len() ==> (#[trigger] times[i]).ticks <= times[0].plus(timeout).ticks,
        !(session.phase is Assembled && session.is_same_transfer(timeout, id, times[0])),
    ensures
        ({
            let o = Outgoing::fresh(id, data.len() as int, crc_bytes(CRC_INIT, data));
            let r = receive_all(session, timeout, buffer, priority, frames(o, data, mtu), times);
            let length = received_length(data.len() as int, mtu);
            &&& r.transfers == seq![
                Transfer { id, priority, timestamp: times[0], length: length as u32 },
            ]
            &&& r.buffer.len() == buffer.len()
            &&& starts_with(r.buffer, data + padding(length - data.len()))
            &&& r.session.phase is Assembled
            &&& r.session.id == Some(id)
            &&& r.session.start == Some(times[0])
        }),
{
    let size = mtu.size() as int;
    let o = Outgoing::fresh(id, data.len() as int, crc_bytes(CRC_INIT, data));
    let next = o.sent(data, size);
    let all = frames(o, data, mtu);
    let rest = frames(next, data, mtu);
    let later = times.drop_first();
    lemma_progress(o, data, mtu);
    assert(all =~= seq![o.frame(data, size)] + rest);
    assert(all[0] == o.frame(data, size));
    assert(all.drop_first() =~= rest);
    lemma_receive_first(session, timeout, buffer, priority, o, data, mtu, times[0]);
    let step = session.push(timeout, buffer, priority, o.frame(data, size), times[0]);
    let r = receive_all(step.session, timeout, step.buffer, priority, rest, later);
    if o.is_single(size) {
        assert(rest =~= Seq::<Seq<u8>>::empty());
        assert(r.transfers =~= Seq::<Transfer>::empty());
        assert(seq![step.transfer->0] + r.transfers =~= seq![step.transfer->0]);
    } else {
        assert(is_in_progress(next, data));
        assert(rest.len() > 0);
        assert(later[0] == times[1]);
        lemma_full_frames(mtu, 0, size - 1);
        lemma_receive_rest(
            step.session,
            timeout,
            step.buffer,
            priority,
            next,
            data,
            mtu,
            times[0],
            later,
        );
        assert(Seq::<Transfer>::empty() + r.transfers =~= r.transfers);
    }
}

} // verus!
