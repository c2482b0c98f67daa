//! The frames of a whole transfer.

use vstd::arithmetic::div_mod::lemma_fundamental_div_mod;
use vstd::prelude::*;

use crate::buffer::round_trip::{
    frames, is_in_progress, lemma_full_frames, lemma_last_payload, lemma_progress, lemma_received_length,
    received_length,
};
use crate::buffer::scatter::{padding, Outgoing};
use crate::format::{
    crc_bytes, crc_field, lemma_crc_concat, law_tail_round_trip, tail_byte, tail_fields, CRC_INIT, SOT_TOGGLE_BIT,
};
use crate::frame::{ceil_length, DataLength, Mtu};
use crate::ids::TransferId;

verus! {

/// The payloads of frames one after the other: their data without the tail bytes.
pub open spec fn joined(frames: Seq<Seq<u8>>) -> Seq<u8>
    decreases frames.len(),
{
    if frames.len() == 0 {
        Seq::empty()
    } else {
        frames[0].drop_last() + joined(frames.drop_first())
    }
}

/// What the frames of a transfer carry: the data, the padding of the last frame, and the checksum
/// of both if there are several frames.
pub open spec fn carried(data: Seq<u8>, mtu: Mtu) -> Seq<u8> {
    let pad = padding(received_length(data.len() as int, mtu) - data.len());
    if data.len() <= mtu.size() - 1 {
        data + pad
    } else {
        data + pad + crc_field(crc_bytes(CRC_INIT, data + pad))
    }
}

/// What is left of a transfer of several frames.
proof fn lemma_rest_joined(o: Outgoing, data: Seq<u8>, mtu: Mtu)
    requires
        is_in_progress(o, data),
        o.length > mtu.size() - 1,
        o.offset % (mtu.size() - 1) == 0,
        o.crc == crc_bytes(CRC_INIT, data),
    ensures
        (data + crc_field(o.crc)).take(o.offset) + joined(frames(o, data, mtu)) == carried(data, mtu),
    decreases o.length + 2 - o.offset,
{
    let size = mtu.size() as int;
    let next = o.sent(data, size);
    let all = frames(o, data, mtu);
    let rest = frames(next, data, mtu);
    let stream = data + crc_field(o.crc);
    let payload = o.segment(data, size).0;
    lemma_progress(o, data, mtu);
    assert(all =~= seq![o.frame(data, size)] + rest);
    assert(all[0].drop_last() =~= payload);
    assert(all.drop_first() =~= rest);
    assert(joined(all) =~= payload + joined(rest));
    if next.done() {
        assert(o.offset > 0);
        lemma_last_payload(o, data, mtu);
        assert(rest =~= Seq::<Seq<u8>>::empty());
        assert(joined(all) =~= payload);
        lemma_crc_concat(CRC_INIT, data, padding(received_length(o.length, mtu) - data.len()));
    } else {
        assert(payload.len() == size - 1);
        assert(stream.take(next.offset) =~= stream.take(o.offset) + payload);
        lemma_full_frames(mtu, o.offset, size - 1);
        lemma_rest_joined(next, data, mtu);
        assert(stream.take(o.offset) + joined(all) =~= stream.take(next.offset) + joined(rest));
    }
}

/// Nothing is lost, repeated or reordered: the payloads of all frames of a transfer, one after the
/// other, are the data, the padding, and the checksum of both. A single frame has no checksum, and
/// classic frames have no padding.
pub proof fn law_frames_carry_transfer(id: TransferId, data: Seq<u8>, mtu: Mtu)
    ensures
        joined(frames(Outgoing::fresh(id, data.len() as int, crc_bytes(CRC_INIT, data)), data, mtu)) == carried(
            data,
            mtu,
        ),
        0 <= received_length(data.len() as int, mtu) - data.len() < 16,
        mtu == Mtu::Classic ==> carried(data, mtu) == (if data.len() <= 7 {
            data
        } else {
            data + crc_field(crc_bytes(CRC_INIT, data))
        }),
        forall|i: int| 0 <= i < data.len() ==> #[trigger] carried(data, mtu)[i] == data[i],
        forall|i: int|
            data.len() <= i < received_length(data.len() as int, mtu) ==> #[trigger] carried(data, mtu)[i] == 0,
{
    let size = mtu.size() as int;
    let o = Outgoing::fresh(id, data.len() as int, crc_bytes(CRC_INIT, data));
    lemma_received_length(data.len() as int, mtu);
    if o.is_single(size) {
        let next = o.sent(data, size);
        let all = frames(o, data, mtu);
        lemma_progress(o, data, mtu);
        assert(frames(next, data, mtu) =~= Seq::<Seq<u8>>::empty());
        assert(all =~= seq![o.frame(data, size)]);
        assert(all.drop_first() =~= Seq::<Seq<u8>>::empty());
        assert(all[0].drop_last() =~= carried(data, mtu));
        assert(joined(all.drop_first()) =~= Seq::<u8>::empty());
        assert(joined(all) =~= carried(data, mtu));
    } else {
        lemma_rest_joined(o, data, mtu);
        let none = (data + crc_field(o.crc)).take(0);
        assert(none + joined(frames(o, data, mtu)) =~= joined(frames(o, data, mtu)));
    }
    if mtu == Mtu::Classic {
        assert(data + padding(0) =~= data);
    }
}

/// The number of frames of a transfer.
pub open spec fn frame_count(length: int, mtu: Mtu) -> int {
    let max = mtu.size() - 1;
    if length <= max {
        1
    } else {
        (length + 2 + max - 1) / max
    }
}

/// The number of bytes that are left for the last frame of a transfer.
pub open spec fn last_length(length: int, mtu: Mtu) -> int {
    let max = mtu.size() - 1;
    if length <= max {
        length
    } else {
        length + 2 - (frame_count(length, mtu) - 1) * max
    }
}

/// A transfer of several frames after `i` full ones.
spec fn after_full(o: Outgoing, i: int, mtu: Mtu) -> Outgoing {
    Outgoing {
        offset: o.offset + i * (mtu.size() - 1),
        toggle: if i % 2 == 0 {
            o.toggle
        } else {
            !o.toggle
        },
        ..o
    }
}

/// How `rest` bytes are divided into parts of at most `max` bytes.
proof fn lemma_parts(rest: int, max: int, i: int)
    requires
        rest > 0,
        max > 0,
        i >= 0,
    ensures
        rest <= max ==> (rest + max - 1) / max == 1,
        rest > max ==> (rest + max - 1) / max == (rest - max + max - 1) / max + 1,
        i > 0 ==> max + (i - 1) * max == i * max,
        0 <= i * max,
        i > 0 ==> i * max > 0,
        i < (rest + max - 1) / max ==> i * max < rest,
        i < (rest + max - 1) / max - 1 <==> rest - i * max > max,
{
    let count = (rest + max - 1) / max;
    let left = (rest + max - 1) % max;
    lemma_fundamental_div_mod(rest + max - 1, max);
    lemma_fundamental_div_mod(rest - 1, max);
    assert(0 <= left < max);
    assert(rest + max - 1 == max * count + left);
    assert(max + (i - 1) * max == i * max) by (nonlinear_arith);
    assert(0 <= i * max) by (nonlinear_arith)
        requires
            i >= 0,
            max > 0,
    ;
    if i > 0 {
        assert(i * max > 0) by (nonlinear_arith)
            requires
                i > 0,
                max > 0,
        ;
    }
    assert(count >= 1) by (nonlinear_arith)
        requires
            rest + max - 1 == max * count + left,
            left < max,
            rest > 0,
            max > 0,
    ;
    if rest <= max {
        assert(count <= 1) by (nonlinear_arith)
            requires
                rest + max - 1 == max * count + left,
                left >= 0,
                rest <= max,
                max > 0,
        ;
    }
    let fewer = (rest - 1) / max;
    let same = (rest - 1) % max;
    assert(fewer == count - 1) by (nonlinear_arith)
        requires
            rest + max - 1 == max * count + left,
            rest - 1 == max * fewer + same,
            0 <= left < max,
            0 <= same < max,
    ;
    if i < count {
        assert(i * max < rest) by (nonlinear_arith)
            requires
                i < count,
                max > 0,
                rest + max - 1 == max * count + left,
                left >= 0,
        ;
    }
    assert(i < count - 1 <==> rest - i * max > max) by (nonlinear_arith)
        requires
            max > 0,
            rest + max - 1 == max * count + left,
            0 <= left < max,
    ;
}

/// The frames of what is left of a transfer of several frames.
proof fn lemma_rest_frames(o: Outgoing, data: Seq<u8>, mtu: Mtu)
    requires
        is_in_progress(o, data),
        o.length > mtu.size() - 1,
    ensures
        ({
            let max = mtu.size() - 1;
            let all = frames(o, data, mtu);
            &&& all.len() == (o.length + 2 - o.offset + max - 1) / max
            &&& forall|i: int|
                0 <= i < all.len() ==> #[trigger] all[i] == after_full(o, i, mtu).frame(data, mtu.size() as int)
        }),
    decreases o.length + 2 - o.offset,
{
    let size = mtu.size() as int;
    let max = size - 1;
    let next = o.sent(data, size);
    let all = frames(o, data, mtu);
    let rest = frames(next, data, mtu);
    lemma_progress(o, data, mtu);
    assert(all =~= seq![o.frame(data, size)] + rest);
    assert(after_full(o, 0, mtu) == o);
    if next.done() {
        assert(rest =~= Seq::<Seq<u8>>::empty());
        assert(o.length + 2 - o.offset <= max);
        lemma_parts(o.length + 2 - o.offset, max, 0);
    } else {
        assert(next.offset == o.offset + max);
        lemma_parts(o.length + 2 - o.offset, max, 0);
        lemma_rest_frames(next, data, mtu);
        assert forall|i: int| 0 <= i < all.len() implies #[trigger] all[i] == after_full(o, i, mtu).frame(data, size) by {
            if i > 0 {
                assert(all[i] == rest[i - 1]);
                lemma_parts(1, max, i);
                assert(after_full(next, i - 1, mtu) == after_full(o, i, mtu));
            }
        }
    }
}

/// The list of frames of a transfer.
///
/// There is one frame if the data fit into it, otherwise as many as the data and the checksum need.
/// The first frame is marked as the start and the last one as the end, the toggle bit alternates
/// and starts with one, and all frames have the identifier. All frames but the last one are full,
/// and the last one has the smallest possible length.
pub proof fn law_frame_list(id: TransferId, data: Seq<u8>, crc: u16, mtu: Mtu)
    requires
        TransferId::is_valid(id.value() as int),
    ensures
        ({
            let all = frames(Outgoing::fresh(id, data.len() as int, crc), data, mtu);
            let count = frame_count(data.len() as int, mtu);
            let least = last_length(data.len() as int, mtu) + 1;
            &&& all.len() == count
            &&& forall|i: int| 0 <= i < count ==> (#[trigger] all[i]).len() > 0
            &&& forall|i: int|
                0 <= i < count ==> ({
                    let tail = tail_fields((#[trigger] all[i]).last());
                    &&& tail.sot == (i == 0)
                    &&& tail.eot == (i == count - 1)
                    &&& tail.toggle == (i % 2 == 0)
                    &&& tail.transfer_id == id
                })
            &&& forall|i: int| 0 <= i < count - 1 ==> (#[trigger] all[i]).len() == mtu.size()
            &&& 1 <= least <= mtu.size()
            &&& least <= all[count - 1].len()
            &&& DataLength::is_valid(all[count - 1].len() as int)
            &&& forall|n: int| #[trigger] DataLength::is_valid(n) && least <= n ==> all[count - 1].len() <= n
        }),
{
    let size = mtu.size() as int;
    let max = size - 1;
    let n = data.len() as int;
    let o = Outgoing::fresh(id, n, crc);
    let all = frames(o, data, mtu);
    let count = frame_count(n, mtu);
    let least = last_length(n, mtu) + 1;
    lemma_progress(o, data, mtu);
    if o.is_single(size) {
        let next = o.sent(data, size);
        assert(frames(next, data, mtu) =~= Seq::<Seq<u8>>::empty());
        assert(all =~= seq![o.frame(data, size)]);
        law_tail_round_trip(true, true, SOT_TOGGLE_BIT, id, 0);
        assert(all[0].len() == ceil_length(n + 1));
    } else {
        lemma_rest_frames(o, data, mtu);
        assert forall|i: int| 0 <= i < count implies ({
            let tail = tail_fields((#[trigger] all[i]).last());
            &&& all[i].len() > 0
            &&& tail.sot == (i == 0)
            &&& tail.eot == (i == count - 1)
            &&& tail.toggle == (i % 2 == 0)
            &&& tail.transfer_id == id
            &&& i < count - 1 ==> all[i].len() == size
            &&& i == count - 1 ==> all[i].len() == ceil_length(least)
        }) by {
            let at = after_full(o, i, mtu);
            assert(all[i] == at.frame(data, size));
            let (payload, offset) = at.segment(data, size);
            let rest = n + 2 - at.offset;
            lemma_parts(n + 2, max, i);
            assert(at.offset == 0 <==> i == 0);
            assert(offset == n + 2 <==> i == count - 1);
            assert(all[i].last() == tail_byte(i == 0, i == count - 1, i % 2 == 0, id) as u8);
            law_tail_round_trip(i == 0, i == count - 1, i % 2 == 0, id, 0);
        }
        assert(all[count - 1].len() == ceil_length(least));
    }
}

} // verus!
