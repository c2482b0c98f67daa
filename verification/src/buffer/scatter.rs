//! Segmentation of transfers for transmission.

use vstd::prelude::*;
use vstd::slice::slice_subrange;

use crate::buffer::gather::store;
use crate::format::{
    crc_bytes, crc_field, tail_byte, TailByte, TransferCrc, PAD_VALUE, SOT_TOGGLE_BIT,
};
use crate::frame::{ceil_length, Data, DataLength, Mtu};
use crate::ids::TransferId;

verus! {

/// A transfer that is being sent.
pub struct Outgoing {
    /// Identifier of the transfer.
    pub id: TransferId,
    /// Toggle bit of the next frame.
    pub toggle: bool,
    /// Number of payload bytes.
    pub length: int,
    /// Number of payload and checksum bytes that have been sent.
    pub offset: int,
    /// Checksum of the payload.
    pub crc: u16,
}

/// `n` padding bytes.
pub open spec fn padding(n: int) -> Seq<u8> {
    Seq::new(n as nat, |i: int| PAD_VALUE)
}

/// A payload followed by its tail byte.
pub open spec fn with_tail(payload: Seq<u8>, sot: bool, eot: bool, toggle: bool, id: TransferId) -> Seq<u8> {
    payload.push(tail_byte(sot, eot, toggle, id) as u8)
}

impl Outgoing {
    /// A transfer of `length` bytes with the checksum `crc`, of which nothing has been sent.
    pub open spec fn fresh(id: TransferId, length: int, crc: u16) -> Outgoing {
        Outgoing { id, toggle: SOT_TOGGLE_BIT, length, offset: 0, crc }
    }

    /// Everything has been sent.
    pub open spec fn done(self) -> bool {
        self.offset == self.length + 2
    }

    /// The transfer is sent as a single frame, which has no checksum.
    pub open spec fn is_single(self, mtu: int) -> bool {
        self.offset == 0 && self.length <= mtu - 1
    }

    /// The number of payload bytes of the next frame of a multi-frame transfer.
    pub open spec fn payload_length(self, mtu: int) -> int {
        let rest = self.length + 2 - self.offset;
        ceil_length((if rest < mtu - 1 { rest } else { mtu - 1 }) + 1) - 1
    }

    /// The payload of the next frame, and what has been sent after it.
    ///
    /// Frames carry the data and then the checksum. The last frame is padded to a possible
    /// length; the padding precedes the checksum and is covered by it.
    pub open spec fn segment(self, data: Seq<u8>, mtu: int) -> (Seq<u8>, int) {
        let rest = self.length + 2 - self.offset;
        let size = self.payload_length(mtu);
        if self.is_single(mtu) {
            (data + padding(ceil_length(self.length + 1) - 1 - self.length), self.length + 2)
        } else if rest >= size {
            (
                (data + crc_field(self.crc)).subrange(self.offset, self.offset + size),
                self.offset + size,
            )
        } else {
            let pad = padding(size - rest);
            (
                data.subrange(self.offset, self.length) + pad + crc_field(crc_bytes(self.crc, pad)),
                self.length + 2,
            )
        }
    }

    /// The transfer after its next frame.
    pub open spec fn sent(self, data: Seq<u8>, mtu: int) -> Outgoing {
        Outgoing {
            offset: self.segment(data, mtu).1,
            toggle: if self.is_single(mtu) { self.toggle } else { !self.toggle },
            ..self
        }
    }

    /// The data of the next frame.
    pub open spec fn frame(self, data: Seq<u8>, mtu: int) -> Seq<u8> {
        let (payload, offset) = self.segment(data, mtu);
        let toggle = if self.is_single(mtu) { SOT_TOGGLE_BIT } else { self.toggle };
        with_tail(payload, self.offset == 0, offset == self.length + 2, toggle, self.id)
    }
}

/// Cuts a transfer into frames.
///
/// The payload stays in a buffer of the caller, which is passed to each call.
#[derive(Debug, Clone, Copy)]
pub struct Scatter {
    transfer_id: TransferId,
    toggle_bit: bool,
    data_length: usize,
    offset: usize,
    crc: TransferCrc,
}

impl View for Scatter {
    type V = Outgoing;

    closed spec fn view(&self) -> Outgoing {
        Outgoing {
            id: self.transfer_id,
            toggle: self.toggle_bit,
            length: self.data_length as int,
            offset: self.offset as int,
            crc: self.crc@,
        }
    }
}

/// Copies bytes into the data of a frame.
fn put(frame: &mut Data, at: usize, bytes: &[u8])
    requires
        at + bytes@.len() <= old(frame)@.len(),
        old(frame)@.len() <= 64,
    ensures
        final(frame)@ == store(old(frame)@, at as int, bytes@),
{
    let ghost before = frame@;
    let mut i: usize = 0;
    while i < bytes.len()
        invariant
            i <= bytes@.len(),
            at + bytes@.len() <= frame@.len(),
            frame@.len() <= 64,
            frame@ == store(before, at as int, bytes@.take(i as int)),
        decreases bytes@.len() - i,
    {
        frame.set(at + i, bytes[i]);
        i = i + 1;
        assert(frame@ =~= store(before, at as int, bytes@.take(i as int)));
    }
    assert(frame@ =~= store(before, at as int, bytes@));
}

impl Scatter {
    const CRC_LENGTH: usize = 2;

    const TAIL_LENGTH: usize = 1;

    /// Not more than everything has been sent.
    pub closed spec fn wf(&self) -> bool {
        self.offset <= self.data_length + 2 && self.data_length + 2 <= usize::MAX
    }

    /// Starts to send the first `data_length` bytes of a buffer, which have the checksum `crc`.
    pub fn new(
        transfer_id: TransferId,
        _buffer: &[u8],
        data_length: usize,
        crc: TransferCrc,
    ) -> (r: Self)
        requires
            data_length + 2 <= usize::MAX,
        ensures
            r.wf(),
            r@ == Outgoing::fresh(transfer_id, data_length as int, crc@),
    {
        Self { transfer_id, toggle_bit: SOT_TOGGLE_BIT, data_length, offset: 0, crc }
    }

    /// Tells whether everything has been sent.
    pub fn is_exhausted(&self) -> (r: bool)
        requires
            self.wf(),
        ensures
            r == self@.done(),
    {
        self.offset == self.data_length + Self::CRC_LENGTH
    }

    /// Returns the data of the next frame, or `None` if everything has been sent.
    pub fn fetch_frame_data(&mut self, buffer: &[u8], mtu: Mtu) -> (r: Option<Data>)
        requires
            old(self).wf(),
            old(self)@.length <= buffer@.len(),
        ensures
            final(self).wf(),
            r is None <==> old(self)@.done(),
            r is None ==> final(self)@ == old(self)@,
            r matches Some(data) ==> {
                let payload = buffer@.take(old(self)@.length);
                &&& data@ == old(self)@.frame(payload, mtu.size() as int)
                &&& final(self)@ == old(self)@.sent(payload, mtu.size() as int)
            },
    {
        let max_payload_length: usize = mtu.into_usize() - Self::TAIL_LENGTH;
        let ghost payload = buffer@.take(self@.length);
        let ghost before = self@;
        let ghost size = mtu.size() as int;

        if self.offset == 0 && self.data_length <= max_payload_length {
            let frame_length = DataLength::new_ceil(self.data_length + Self::TAIL_LENGTH).unwrap();
            let mut frame_data = Data::new_zeros(frame_length);
            self.fetch_single_segment(buffer, &mut frame_data);
            let tail = TailByte::new(true, true, SOT_TOGGLE_BIT, self.transfer_id);
            frame_data.set(frame_length.as_usize() - 1, tail.into_u8());
            assert(frame_data@ =~= before.frame(payload, size));
            return Some(frame_data);
        }

        let residual_length: usize = self.data_length + Self::CRC_LENGTH - self.offset;
        if residual_length == 0 {
            return None;
        }

        let wanted: usize = if residual_length < max_payload_length {
            residual_length
        } else {
            max_payload_length
        };
        let frame_length = DataLength::new_ceil(wanted + Self::TAIL_LENGTH).unwrap();
        let mut frame_data = Data::new_zeros(frame_length);
        let payload_length: usize = frame_length.as_usize() - Self::TAIL_LENGTH;

        let sot: bool = self.offset == 0;
        if residual_length >= payload_length {
            self.fetch_full_segment(buffer, &mut frame_data);
        } else {
            // Padding is inserted only before the first byte of the checksum is sent.
            self.fetch_padded_segment(buffer, &mut frame_data);
        }

        let tail = TailByte::new(
            sot,
            self.offset == self.data_length + Self::CRC_LENGTH,
            self.toggle_bit,
            self.transfer_id,
        );
        frame_data.set(payload_length, tail.into_u8());
        self.toggle_bit = !self.toggle_bit;

        assert(frame_data@ =~= before.frame(payload, size));
        Some(frame_data)
    }

    /// Writes a whole transfer and marks its checksum, which is not needed, as sent.
    fn fetch_single_segment(&mut self, buffer: &[u8], frame: &mut Data)
        requires
            old(self).wf(),
            old(self).offset == 0,
            old(self).data_length <= buffer@.len(),
            old(self).data_length + 1 <= old(frame)@.len() <= 64,
        ensures
            final(self).wf(),
            final(self)@ == (Outgoing { offset: old(self)@.length + 2, ..old(self)@ }),
            final(frame)@ == store(old(frame)@, 0, buffer@.take(old(self)@.length)),
    {
        put(frame, 0, slice_subrange(buffer, 0, self.data_length));
        assert(buffer@.subrange(0, self.data_length as int) =~= buffer@.take(self@.length));
        self.offset = self.data_length + Self::CRC_LENGTH;
    }

    /// Fills a frame with what is left of the data and the checksum.
    fn fetch_full_segment(&mut self, buffer: &[u8], frame: &mut Data)
        requires
            old(self).wf(),
            old(self).data_length <= buffer@.len(),
            1 <= old(frame)@.len() <= 64,
            old(frame)@.len() - 1 <= old(self)@.length + 2 - old(self)@.offset,
        ensures
            final(self).wf(),
            final(self)@ == (Outgoing {
                offset: old(self)@.offset + old(frame)@.len() - 1,
                ..old(self)@
            }),
            final(frame)@ == store(
                old(frame)@,
                0,
                (buffer@.take(old(self)@.length) + crc_field(old(self)@.crc)).subrange(
                    old(self)@.offset,
                    old(self)@.offset + old(frame)@.len() - 1,
                ),
            ),
    {
        let size: usize = frame.length().as_usize() - Self::TAIL_LENGTH;
        let ghost before = frame@;
        let ghost stream = buffer@.take(self@.length) + crc_field(self@.crc);
        let data_start: usize = if self.offset < self.data_length { self.offset } else { self.data_length };
        let residual: usize = self.data_length - data_start;
        let data_count: usize = if residual < size { residual } else { size };
        put(frame, 0, slice_subrange(buffer, data_start, data_start + data_count));

        let crc_offset: usize = if self.offset > self.data_length {
            self.offset - self.data_length
        } else {
            0
        };
        let crc_bytes: [u8; 2] = self.crc.to_bytes();
        let crc_count: usize = size - data_count;
        put(frame, data_count, slice_subrange(crc_bytes.as_slice(), crc_offset, crc_offset + crc_count));
        assert(frame@ =~= store(
            before,
            0,
            stream.subrange(self@.offset, self@.offset + size),
        ));

        self.offset = self.offset + size;
    }

    /// Fills a frame with the rest of the data, padding and the checksum.
    fn fetch_padded_segment(&mut self, buffer: &[u8], frame: &mut Data)
        requires
            old(self).wf(),
            old(self).offset <= old(self).data_length,
            old(self).data_length <= buffer@.len(),
            old(frame)@ == padding(old(frame)@.len() as int),
            1 <= old(frame)@.len() <= 64,
            old(self)@.length + 2 - old(self)@.offset < old(frame)@.len() - 1,
        ensures
            final(self).wf(),
            final(self)@ == (Outgoing { offset: old(self)@.length + 2, ..old(self)@ }),
            ({
                let pad = padding(
                    old(frame)@.len() - 1 - (old(self)@.length + 2 - old(self)@.offset),
                );
                final(frame)@ == store(
                    old(frame)@,
                    0,
                    buffer@.subrange(old(self)@.offset, old(self)@.length) + pad + crc_field(
                        crc_bytes(old(self)@.crc, pad),
                    ),
                )
            }),
    {
        let size: usize = frame.length().as_usize() - Self::TAIL_LENGTH;
        let ghost before = frame@;
        let data_count: usize = self.data_length - self.offset;
        put(frame, 0, slice_subrange(buffer, self.offset, self.data_length));

        let pad_end: usize = size - Self::CRC_LENGTH;
        let ghost pad = padding(pad_end - data_count);
        let mut crc = self.crc;
        crc.add_bytes(slice_subrange(frame.as_slice(), data_count, pad_end));
        assert(frame@.subrange(data_count as int, pad_end as int) =~= pad);
        let crc_field_bytes: [u8; 2] = crc.to_bytes();
        put(frame, pad_end, crc_field_bytes.as_slice());
        assert(frame@ =~= store(
            before,
            0,
            buffer@.subrange(self@.offset, self@.length) + pad + crc_field(
                crc_bytes(self@.crc, pad),
            ),
        ));

        self.offset = self.offset + data_count + Self::CRC_LENGTH;
    }
}

} // verus!
