//! Elements of the transport format: the transfer checksum and the tail byte.

use vstd::prelude::*;
use vstd::std_specs::convert::FromSpec;
use vstd::std_specs::convert::FromSpecImpl;

use crate::frame::Frame;
use crate::ids::TransferId;

verus! {

/// Shifts one bit through the checksum register.
pub open spec fn crc_shift(crc: u16) -> u16 {
    if crc & 0x8000u16 != 0 {
        (crc << 1u16) ^ 0x1021u16
    } else {
        crc << 1u16
    }
}

/// The checksum register after one more byte, the most significant bit first.
pub open spec fn crc_byte(crc: u16, byte: u8) -> u16 {
    crc_shift(crc_shift(crc_shift(crc_shift(crc_shift(crc_shift(crc_shift(crc_shift(
        crc ^ ((byte as u16) << 8u16),
    ))))))))
}

/// The checksum register after a sequence of bytes.
pub open spec fn crc_bytes(crc: u16, bytes: Seq<u8>) -> u16
    decreases bytes.len(),
{
    if bytes.len() == 0 {
        crc
    } else {
        crc_byte(crc_bytes(crc, bytes.drop_last()), bytes.last())
    }
}

/// The more significant byte.
pub open spec fn high_byte(value: u16) -> u8 {
    (value >> 8u16) as u8
}

/// The less significant byte.
pub open spec fn low_byte(value: u16) -> u8 {
    (value & 0xffu16) as u8
}

/// The two bytes of a checksum in the order of transmission.
pub open spec fn crc_field(crc: u16) -> Seq<u8> {
    seq![high_byte(crc), low_byte(crc)]
}

/// The checksum of a concatenation continues with the second part.
pub proof fn lemma_crc_concat(crc: u16, a: Seq<u8>, b: Seq<u8>)
    ensures
        crc_bytes(crc, a + b) == crc_bytes(crc_bytes(crc, a), b),
    decreases b.len(),
{
    if b.len() == 0 {
        assert(a + b =~= a);
    } else {
        assert((a + b).drop_last() =~= a + b.drop_last());
        lemma_crc_concat(crc, a, b.drop_last());
    }
}

/// Two more bytes bring the register to zero if and only if they are its own two bytes.
///
/// The states of the register between the two bytes are passed one by one.
#[verifier::spinoff_prover]
proof fn lemma_crc_residue_bits(
    crc: u16,
    a: u8,
    b: u8,
    x0: u16,
    x1: u16,
    x2: u16,
    x3: u16,
    x4: u16,
    x5: u16,
    x6: u16,
    x7: u16,
    x8: u16,
    y0: u16,
    y1: u16,
    y2: u16,
    y3: u16,
    y4: u16,
    y5: u16,
    y6: u16,
    y7: u16,
    y8: u16,
)
    by (bit_vector)
    requires
        x0 == crc ^ ((a as u16) << 8u16),
        x1 == crc_shift(x0),
        x2 == crc_shift(x1),
        x3 == crc_shift(x2),
        x4 == crc_shift(x3),
        x5 == crc_shift(x4),
        x6 == crc_shift(x5),
        x7 == crc_shift(x6),
        x8 == crc_shift(x7),
        y0 == x8 ^ ((b as u16) << 8u16),
        y1 == crc_shift(y0),
        y2 == crc_shift(y1),
        y3 == crc_shift(y2),
        y4 == crc_shift(y3),
        y5 == crc_shift(y4),
        y6 == crc_shift(y5),
        y7 == crc_shift(y6),
        y8 == crc_shift(y7),
    ensures
        y8 == 0 <==> (a == high_byte(crc) && b == low_byte(crc)),
{
}

proof fn lemma_crc_residue_step(crc: u16, a: u8, b: u8)
    ensures
        crc_byte(crc_byte(crc, a), b) == 0 <==> (a == high_byte(crc) && b == low_byte(crc)),
{
    let x0 = crc ^ ((a as u16) << 8u16);
    let x1 = crc_shift(x0);
    let x2 = crc_shift(x1);
    let x3 = crc_shift(x2);
    let x4 = crc_shift(x3);
    let x5 = crc_shift(x4);
    let x6 = crc_shift(x5);
    let x7 = crc_shift(x6);
    let x8 = crc_shift(x7);
    let y0 = x8 ^ ((b as u16) << 8u16);
    let y1 = crc_shift(y0);
    let y2 = crc_shift(y1);
    let y3 = crc_shift(y2);
    let y4 = crc_shift(y3);
    let y5 = crc_shift(y4);
    let y6 = crc_shift(y5);
    let y7 = crc_shift(y6);
    let y8 = crc_shift(y7);
    lemma_crc_residue_bits(crc, a, b, x0, x1, x2, x3, x4, x5, x6, x7, x8, y0, y1, y2, y3, y4, y5, y6, y7, y8);
}

/// A transfer passes the check at the receiver exactly if its last two bytes are the checksum
/// of what precedes them.
pub proof fn law_crc_residue(crc: u16, bytes: Seq<u8>, field: Seq<u8>)
    requires
        field.len() == 2,
    ensures
        crc_bytes(crc, bytes + field) == 0 <==> field == crc_field(crc_bytes(crc, bytes)),
{
    let c = crc_bytes(crc, bytes);
    lemma_crc_concat(crc, bytes, field);
    reveal_with_fuel(crc_bytes, 3);
    assert(field.drop_last().drop_last() =~= Seq::<u8>::empty());
    lemma_crc_residue_step(c, field[0], field[1]);
    if field[0] == high_byte(c) && field[1] == low_byte(c) {
        assert(field =~= crc_field(c));
    }
}

/// Cyclic redundancy check over the payload of a multi-frame transfer.
///
/// Polynomial `0x1021`, initial value `0xffff`, most significant bit first.
#[derive(Debug, Clone, Copy, PartialEq, Eq, Structural)]
pub struct TransferCrc(u16);

impl View for TransferCrc {
    type V = u16;

    closed spec fn view(&self) -> u16 {
        self.0
    }
}

/// The checksum register before the first byte.
pub const CRC_INIT: u16 = 0xffff;

impl Default for TransferCrc {
    fn default() -> (r: Self)
        ensures
            r@ == CRC_INIT,
    {
        Self(Self::INIT_VALUE)
    }
}

impl TransferCrc {
    /// Number of bytes of the checksum.
    pub const LENGTH: usize = 2;

    const INIT_VALUE: u16 = 0xffff;

    const POLYNOMIAL: u16 = 0x1021;

    /// Shifts one bit through the register.
    fn shift(&mut self)
        ensures
            final(self)@ == crc_shift(old(self)@),
    {
        if (self.0 & 0x8000) != 0 {
            self.0 = (self.0 << 1) ^ Self::POLYNOMIAL;
        } else {
            self.0 = self.0 << 1;
        }
    }

    /// Adds one byte.
    pub fn add(&mut self, byte: u8)
        ensures
            final(self)@ == crc_byte(old(self)@, byte),
    {
        self.0 = self.0 ^ ((byte as u16) << 8);
        self.shift();
        self.shift();
        self.shift();
        self.shift();
        self.shift();
        self.shift();
        self.shift();
        self.shift();
    }

    /// Adds a sequence of bytes.
    pub fn add_bytes(&mut self, bytes: &[u8])
        ensures
            final(self)@ == crc_bytes(old(self)@, bytes@),
    {
        let ghost start = self@;
        for i in 0..bytes.len()
            invariant
                self@ == crc_bytes(start, bytes@.take(i as int)),
        {
            assert(bytes@.take(i + 1).drop_last() =~= bytes@.take(i as int));
            assert(bytes@.take(i + 1).last() == bytes@[i as int]);
            self.add(bytes[i]);
        }
        assert(bytes@.take(bytes@.len() as int) =~= bytes@);
    }

    /// Returns the register.
    pub fn get(&self) -> (r: u16)
        ensures
            r == self@,
    {
        self.0
    }

    /// Returns the two bytes of the register in the order of transmission.
    pub fn to_bytes(&self) -> (r: [u8; 2])
        ensures
            r@ == crc_field(self@),
    {
        let r: [u8; 2] = [(self.0 >> 8) as u8, (self.0 & 0xff) as u8];
        assert(r@ =~= crc_field(self@));
        r
    }
}

impl From<u16> for TransferCrc {
    fn from(value: u16) -> (r: Self)
        ensures
            r@ == value,
    {
        Self(value)
    }
}

impl FromSpecImpl<u16> for TransferCrc {
    open spec fn obeys_from_spec() -> bool {
        true
    }

    closed spec fn from_spec(value: u16) -> TransferCrc {
        TransferCrc(value)
    }
}

/// The last byte of every frame.
///
/// Start of transfer (bit 7), end of transfer (bit 6), toggle (bit 5) and the transfer
/// identifier (bits 4 to 0).
#[derive(Debug, Clone, Copy, PartialEq, Eq, Structural)]
pub struct TailByte(u8);

/// What a tail byte says.
pub struct TailFields {
    pub sot: bool,
    pub eot: bool,
    pub toggle: bool,
    pub transfer_id: TransferId,
}

/// The byte that carries the given fields.
pub open spec fn tail_byte(sot: bool, eot: bool, toggle: bool, transfer_id: TransferId) -> int {
    (if sot { 128int } else { 0 }) + (if eot { 64int } else { 0 }) + (if toggle { 32int } else { 0 })
        + transfer_id.value()
}

/// The fields that a byte carries.
pub open spec fn tail_fields(byte: u8) -> TailFields {
    TailFields {
        sot: byte >= 128,
        eot: byte % 128 >= 64,
        toggle: byte % 64 >= 32,
        transfer_id: TransferId::of(byte % 32),
    }
}

/// Reading a tail byte gives back what was written, and writing gives back what was read.
pub proof fn law_tail_round_trip(
    sot: bool,
    eot: bool,
    toggle: bool,
    transfer_id: TransferId,
    byte: u8,
)
    requires
        TransferId::is_valid(transfer_id.value() as int),
    ensures
        0 <= tail_byte(sot, eot, toggle, transfer_id) < 256,
        tail_fields(tail_byte(sot, eot, toggle, transfer_id) as u8) == (TailFields {
            sot,
            eot,
            toggle,
            transfer_id,
        }),
        ({
            let f = tail_fields(byte);
            tail_byte(f.sot, f.eot, f.toggle, f.transfer_id) == byte
        }),
{
    broadcast use {TransferId::lemma_value, TransferId::lemma_of};
}

/// The fields of a byte as shifts and masks.
proof fn lemma_tail_bits(byte: u8, a: u8, b: u8, c: u8, id: u8)
    by (bit_vector)
    requires
        a <= 1,
        b <= 1,
        c <= 1,
        id < 32,
    ensures
        ((byte >> 7u8) & 1u8 != 0u8) == (byte >= 128),
        ((byte >> 6u8) & 1u8 != 0u8) == (byte % 128 >= 64),
        ((byte >> 5u8) & 1u8 != 0u8) == (byte % 64 >= 32),
        (byte >> 0u8) == byte,
        (a << 7u8) | (b << 6u8) | (c << 5u8) | (id << 0u8) == 128 * a + 64 * b + 32 * c + id,
{
}

impl TailByte {
    const START_OF_TRANSFER: u8 = 7;

    const END_OF_TRANSFER: u8 = 6;

    const TOGGLE_BIT: u8 = 5;

    const TRANSFER_ID: u8 = 0;

    /// The byte itself.
    pub closed spec fn byte(self) -> u8 {
        self.0
    }

    /// Returns the tail byte that a byte encodes.
    pub fn from_u8(value: u8) -> (r: Self)
        ensures
            r.byte() == value,
    {
        Self(value)
    }

    /// Returns the byte.
    pub fn into_u8(self) -> (r: u8)
        ensures
            r == self.byte(),
    {
        self.0
    }

    /// Assembles a tail byte.
    pub fn new(sot: bool, eof: bool, toggle: bool, transfer_id: TransferId) -> (r: Self)
        ensures
            r.byte() == tail_byte(sot, eof, toggle, transfer_id),
    {
        let a: u8 = if sot { 1 } else { 0 };
        let b: u8 = if eof { 1 } else { 0 };
        let c: u8 = if toggle { 1 } else { 0 };
        let id: u8 = transfer_id.into_u8();
        proof {
            lemma_tail_bits(0, a, b, c, id);
        }
        Self(
            (a << Self::START_OF_TRANSFER) | (b << Self::END_OF_TRANSFER) | (c << Self::TOGGLE_BIT)
                | (id << Self::TRANSFER_ID),
        )
    }

    /// Tells whether the frame is the first of its transfer.
    pub fn sot(&self) -> (r: bool)
        ensures
            r == tail_fields(self.byte()).sot,
    {
        proof {
            lemma_tail_bits(self.0, 0, 0, 0, 0);
        }
        (self.0 >> Self::START_OF_TRANSFER) & 0x1 != 0
    }

    /// Tells whether the frame is the last of its transfer.
    pub fn eot(&self) -> (r: bool)
        ensures
            r == tail_fields(self.byte()).eot,
    {
        proof {
            lemma_tail_bits(self.0, 0, 0, 0, 0);
        }
        (self.0 >> Self::END_OF_TRANSFER) & 0x1 != 0
    }

    /// Returns the toggle bit.
    pub fn toggle(&self) -> (r: bool)
        ensures
            r == tail_fields(self.byte()).toggle,
    {
        proof {
            lemma_tail_bits(self.0, 0, 0, 0, 0);
        }
        (self.0 >> Self::TOGGLE_BIT) & 0x1 != 0
    }

    /// Returns the transfer identifier.
    pub fn transfer_id(&self) -> (r: TransferId)
        ensures
            r == tail_fields(self.byte()).transfer_id,
    {
        proof {
            lemma_tail_bits(self.0, 0, 0, 0, 0);
        }
        TransferId::from_u8_truncating(self.0 >> Self::TRANSFER_ID)
    }
}

impl Default for TailByte {
    fn default() -> (r: Self)
        ensures
            r.byte() == 0,
    {
        Self(0)
    }
}

impl FromSpecImpl<TailByte> for u8 {
    open spec fn obeys_from_spec() -> bool {
        true
    }

    open spec fn from_spec(value: TailByte) -> u8 {
        value.byte()
    }
}

impl FromSpecImpl<u8> for TailByte {
    open spec fn obeys_from_spec() -> bool {
        true
    }

    closed spec fn from_spec(value: u8) -> TailByte {
        TailByte(value)
    }
}

impl From<TailByte> for u8 {
    fn from(value: TailByte) -> Self {
        value.into_u8()
    }
}

impl From<u8> for TailByte {
    fn from(value: u8) -> (r: Self)
        ensures
            r.byte() == value,
    {
        Self(value)
    }
}

/// Toggle bit of the first frame of a transfer.
pub const SOT_TOGGLE_BIT: bool = true;

/// Value of the padding bytes.
pub const PAD_VALUE: u8 = 0;

/// Tells whether a frame is the last of its transfer, or `None` if it has no tail byte.
pub fn is_eot_frame(frame: &Frame) -> (r: Option<bool>)
    ensures
        r == (if frame.data@.len() == 0 {
            None
        } else {
            Some(tail_fields(frame.data@.last()).eot)
        }),
{
    let data = frame.data.as_slice();
    if data.len() == 0 {
        None
    } else {
        Some(TailByte::from_u8(data[data.len() - 1]).eot())
    }
}

/// The bits of the tail byte: start, end and toggle from the top, then the identifier.
pub proof fn law_tail_bits(byte: u8, sot: bool, eot: bool, toggle: bool, id: TransferId)
    requires
        id.value() < 32,
    ensures
        tail_fields(byte).sot == (byte & 0x80u8 != 0),
        tail_fields(byte).eot == (byte & 0x40u8 != 0),
        tail_fields(byte).toggle == (byte & 0x20u8 != 0),
        tail_fields(byte).transfer_id.value() == byte & 0x1fu8,
        tail_byte(sot, eot, toggle, id) == (if sot {
            128int
        } else {
            0
        }) + (if eot {
            64int
        } else {
            0
        }) + (if toggle {
            32int
        } else {
            0
        }) + id.value(),
        SOT_TOGGLE_BIT,
{
    TransferId::lemma_of(byte % 32);
    assert((byte >= 128 <==> byte & 0x80u8 != 0) && (byte % 128 >= 64 <==> byte & 0x40u8 != 0) && (byte % 64 >= 32
        <==> byte & 0x20u8 != 0) && byte % 32 == byte & 0x1fu8) by (bit_vector);
}

/// The checksum of bytes is linear over bits, shifts whole bytes, and one bit has the remainder of the
/// polynomial x^16 + x^12 + x^5 + 1. It is extended byte by byte, starts with ones, and its more
/// significant byte is sent first.
pub proof fn law_checksum(a: u16, b: u16, x: u8, y: u8, bytes: Seq<u8>)
    ensures
        crc_byte(a ^ b, x ^ y) == crc_byte(a, x) ^ crc_byte(b, y),
        crc_byte((x as u16) << 8u16, 0) == crc_byte(0, x),
        crc_byte(x as u16, 0) == (x as u16) << 8u16,
        x < 128 ==> crc_byte(0, 1) == 0x1021 && crc_byte(0, (2 * x) as u8) == (if crc_byte(0, x) >= 0x8000 {
            ((2 * crc_byte(0, x) - 0x1_0000) as u16) ^ 0x1021u16
        } else {
            (2 * crc_byte(0, x)) as u16
        }),
        crc_bytes(a, Seq::empty()) == a,
        crc_bytes(a, bytes.push(x)) == crc_byte(crc_bytes(a, bytes), x),
        CRC_INIT == 0xffff,
        crc_field(a).len() == 2,
        crc_field(a)[0] * 0x100 + crc_field(a)[1] == a,
{
    assert(crc_byte(a ^ b, x ^ y) == crc_byte(a, x) ^ crc_byte(b, y)) by (bit_vector);
    assert(crc_byte((x as u16) << 8u16, 0) == crc_byte(0, x)) by (bit_vector);
    assert(crc_byte(x as u16, 0) == (x as u16) << 8u16) by (bit_vector);
    assert(x < 128 ==> crc_byte(0, 1) == 0x1021 && crc_byte(0, (2 * x) as u8) == (if crc_byte(0, x) >= 0x8000 {
        ((2 * crc_byte(0, x) - 0x1_0000) as u16) ^ 0x1021u16
    } else {
        (2 * crc_byte(0, x)) as u16
    })) by (bit_vector);
    assert(bytes.push(x).drop_last() =~= bytes);
    assert(((a >> 8u16) as u8) * 0x100 + ((a & 0xffu16) as u8) == a) by (bit_vector);
}

/// A byte is kept as a tail byte, and a number as a checksum.
pub proof fn law_format_and_numbers(byte: u8, crc: u16)
    ensures
        <u8 as FromSpec<TailByte>>::from_spec(<TailByte as FromSpec<u8>>::from_spec(byte)) == byte,
        <TransferCrc as FromSpec<u16>>::from_spec(crc)@ == crc,
{
}

} // verus!
