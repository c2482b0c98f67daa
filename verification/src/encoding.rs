//! Serialized values and buffers for them.

use canadensis_encoding::{ReadCursor, WriteCursor};
use vstd::prelude::*;

verus! {

/// A buffer of fixed size for a serialized value.
#[derive(Debug)]
pub struct StaticBuffer {
    bytes: Vec<u8>,
}

impl View for StaticBuffer {
    type V = Seq<u8>;

    closed spec fn view(&self) -> Seq<u8> {
        self.bytes@
    }
}

impl StaticBuffer {
    /// Returns a buffer of the given size with all bytes zero.
    pub fn new(size: usize) -> (r: Self)
        ensures
            r@ == Seq::new(size as nat, |i: int| 0u8),
    {
        let mut bytes: Vec<u8> = Vec::new();
        let mut i: usize = 0;
        while i < size
            invariant
                i <= size,
                bytes@ == Seq::new(i as nat, |i: int| 0u8),
            decreases size - i,
        {
            bytes.push(0);
            i = i + 1;
            assert(bytes@ =~= Seq::new(i as nat, |i: int| 0u8));
        }
        StaticBuffer { bytes }
    }

    /// Returns the bytes.
    pub fn as_ref(&self) -> (r: &[u8])
        ensures
            r@ == self@,
    {
        self.bytes.as_slice()
    }

    /// Returns the bytes for modification.
    pub fn as_mut(&mut self) -> (r: &mut [u8])
        ensures
            r@ == old(self)@,
            final(self)@ == final(r)@,
    {
        self.bytes.as_mut_slice()
    }
}

/// A type whose serialized values fit into a buffer of fixed size.
pub trait BufferType {
    /// The number of bytes of the longest serialized value.
    spec fn capacity() -> nat;

    /// Returns a buffer that is large enough for every serialized value.
    fn new_buffer() -> (r: StaticBuffer)
        ensures
            r@ == Seq::new(Self::capacity(), |i: int| 0u8),
    ;
}

/// Why a value could not be deserialized.
#[derive(Debug, Clone, Copy, PartialEq, Eq, Structural)]
pub enum DeserializeError {
    /// The length of an array is larger than allowed.
    ArrayLength,
    /// The tag of a union is not that of a variant.
    UnionTag,
    /// The length of a delimited value is not valid.
    DelimitedLength,
}

/// A byte of serialized data. Behind the end there are zeros.
pub open spec fn byte_at(bytes: Seq<u8>, i: int) -> u8 {
    if 0 <= i < bytes.len() {
        bytes[i]
    } else {
        0
    }
}

/// Bytes of serialized data. Behind the end there are zeros.
pub open spec fn bytes_at(bytes: Seq<u8>, i: int, n: int) -> Seq<u8> {
    Seq::new(n as nat, |k: int| byte_at(bytes, i + k))
}

/// A number as two bytes, the less significant one first.
pub open spec fn le16(value: u16) -> Seq<u8> {
    seq![(value % 0x100) as u8, (value / 0x100) as u8]
}

/// A number as four bytes, the least significant one first.
pub open spec fn le32(value: u32) -> Seq<u8> {
    seq![
        (value % 0x100) as u8,
        (value / 0x100 % 0x100) as u8,
        (value / 0x1_0000 % 0x100) as u8,
        (value / 0x100_0000) as u8,
    ]
}

/// The number of two bytes.
pub open spec fn of_le16(bytes: Seq<u8>, i: int) -> int {
    byte_at(bytes, i) + 0x100 * byte_at(bytes, i + 1)
}

/// The number of four bytes.
pub open spec fn of_le32(bytes: Seq<u8>, i: int) -> int {
    byte_at(bytes, i) + 0x100 * byte_at(bytes, i + 1) + 0x1_0000 * byte_at(bytes, i + 2) + 0x100_0000 * byte_at(
        bytes,
        i + 3,
    )
}

/// Calls `WriteCursor::write_aligned_u8` on a buffer of its own: the byte.
#[verifier::external_body]
pub(crate) fn write_aligned_u8(value: u8) -> (r: [u8; 1])
    ensures
        r@ == seq![value],
{
    let mut bytes = [0u8; 1];
    WriteCursor::new(&mut bytes).write_aligned_u8(value);
    bytes
}

/// Calls `WriteCursor::write_aligned_u16` on a buffer of its own: the less significant byte comes
/// first.
#[verifier::external_body]
pub(crate) fn write_aligned_u16(value: u16) -> (r: [u8; 2])
    ensures
        r@ == le16(value),
{
    let mut bytes = [0u8; 2];
    WriteCursor::new(&mut bytes).write_aligned_u16(value);
    bytes
}

/// Calls `WriteCursor::write_aligned_u32` on a buffer of its own: the least significant byte comes
/// first.
#[verifier::external_body]
pub(crate) fn write_aligned_u32(value: u32) -> (r: [u8; 4])
    ensures
        r@ == le32(value),
{
    let mut bytes = [0u8; 4];
    WriteCursor::new(&mut bytes).write_aligned_u32(value);
    bytes
}

/// Calls `WriteCursor::write_u2` on a buffer of its own: the two least significant bits of the
/// value become those of the byte, the other bits are zero.
#[verifier::external_body]
pub(crate) fn write_u2(value: u8) -> (r: [u8; 1])
    ensures
        r@ == seq![(value % 4) as u8],
{
    let mut bytes = [0u8; 1];
    WriteCursor::new(&mut bytes).write_u2(value);
    bytes
}

/// Calls `WriteCursor::write_u3` on a buffer of its own: the three least significant bits of the
/// value become those of the byte, the other bits are zero.
#[verifier::external_body]
pub(crate) fn write_u3(value: u8) -> (r: [u8; 1])
    ensures
        r@ == seq![(value % 8) as u8],
{
    let mut bytes = [0u8; 1];
    WriteCursor::new(&mut bytes).write_u3(value);
    bytes
}

/// Calls `ReadCursor::read_aligned_u16` at the start: the less significant byte comes first.
#[verifier::external_body]
pub(crate) fn read_aligned_u16(bytes: &[u8]) -> (r: u16)
    ensures
        r == of_le16(bytes@, 0),
{
    ReadCursor::new(bytes).read_aligned_u16()
}

/// Calls `ReadCursor::read_u32` at the start: the least significant byte comes first.
#[verifier::external_body]
pub(crate) fn read_u32(bytes: &[u8]) -> (r: u32)
    ensures
        r == of_le32(bytes@, 0),
{
    ReadCursor::new(bytes).read_u32()
}

/// Calls `ReadCursor::read_u2` at the start: the two least significant bits of the byte.
#[verifier::external_body]
pub(crate) fn read_u2(bytes: &[u8]) -> (r: u8)
    ensures
        r == byte_at(bytes@, 0) % 4,
{
    ReadCursor::new(bytes).read_u2()
}

/// Calls `ReadCursor::read_u3` at the start: the three least significant bits of the byte.
#[verifier::external_body]
pub(crate) fn read_u3(bytes: &[u8]) -> (r: u8)
    ensures
        r == byte_at(bytes@, 0) % 8,
{
    ReadCursor::new(bytes).read_u3()
}

/// Calls `ReadCursor::read_u8` at the start: the byte.
#[verifier::external_body]
pub(crate) fn read_u8(bytes: &[u8]) -> (r: u8)
    ensures
        r == byte_at(bytes@, 0),
{
    ReadCursor::new(bytes).read_u8()
}

/// What is left of serialized data from a position on.
pub(crate) fn skip(bytes: &[u8], n: usize) -> (r: &[u8])
    ensures
        forall|i: int| 0 <= i ==> #[trigger] byte_at(r@, i) == byte_at(bytes@, n + i),
{
    if n <= bytes.len() {
        vstd::slice::slice_subrange(bytes, n, bytes.len())
    } else {
        vstd::slice::slice_subrange(bytes, bytes.len(), bytes.len())
    }
}

/// A value that can be serialized.
pub trait Serialize: BufferType {
    /// The serialized value.
    spec fn encoded(&self) -> Seq<u8>;

    /// Returns the number of bits of the serialized value.
    fn size_bits(&self) -> (r: usize)
        ensures
            self.encoded().len() == (r + 7) / 8,
            self.encoded().len() <= Self::capacity(),
            r + 7 <= usize::MAX,
    ;

    /// Returns the serialized value.
    fn serialize(&self) -> (r: Vec<u8>)
        ensures
            r@ == self.encoded(),
    ;

    /// Writes the serialized value to the start of a buffer, and zeros to the rest.
    fn serialize_to_bytes(&self, bytes: &mut [u8])
        requires
            self.encoded().len() <= old(bytes)@.len(),
        ensures
            final(bytes)@ == padded(self.encoded(), old(bytes)@.len()),
    {
        let data: Vec<u8> = self.serialize();
        let n: usize = bytes.len();
        let mut i: usize = 0;
        while i < n
            invariant
                i <= n,
                n == bytes@.len(),
                data@ == self.encoded(),
                data@.len() <= n,
                bytes@.take(i as int) == padded(data@, n as nat).take(i as int),
            decreases n - i,
        {
            let byte: u8 = if i < data.len() {
                data[i]
            } else {
                0
            };
            let ghost before = bytes@;
            bytes[i] = byte;
            proof {
                assert(bytes@ == before.update(i as int, byte));
                assert(bytes@.take(i + 1) =~= before.take(i as int).push(byte));
                assert(padded(data@, n as nat).take(i + 1) =~= padded(data@, n as nat).take(i as int).push(byte));
            }
            i = i + 1;
        }
        proof {
            assert(bytes@.take(n as int) =~= bytes@);
            assert(padded(data@, n as nat).take(n as int) =~= padded(data@, n as nat));
        }
    }
}

/// Data with zeros behind it up to a length.
pub open spec fn padded(data: Seq<u8>, length: nat) -> Seq<u8> {
    Seq::new(length, |i: int| byte_at(data, i))
}

/// A value that can be deserialized.
pub trait Deserialize: Sized + View {
    /// The value that the data stand for.
    spec fn decoded(bytes: Seq<u8>) -> Result<Self::V, DeserializeError>;

    /// Returns the value that the data stand for.
    fn deserialize_from_bytes(bytes: &[u8]) -> (r: Result<Self, DeserializeError>)
        ensures
            match r {
                Ok(value) => Self::decoded(bytes@) == Ok::<Self::V, DeserializeError>(value@),
                Err(error) => Self::decoded(bytes@) == Err::<Self::V, DeserializeError>(error),
            },
    ;
}

/// Numbers are written with the least significant byte first, and read in the same way. Bytes behind
/// the end are zeros.
pub proof fn law_little_endian(a: u16, b: u32, bytes: Seq<u8>, i: int)
    requires
        0 <= i,
    ensures
        le16(a).len() == 2,
        le16(a)[0] + 0x100 * le16(a)[1] == a,
        le32(b).len() == 4,
        le32(b)[0] + 0x100 * le32(b)[1] + 0x1_0000 * le32(b)[2] + 0x100_0000 * le32(b)[3] == b,
        i + 2 <= bytes.len() ==> of_le16(bytes, i) == bytes[i] + 0x100 * bytes[i + 1],
        i + 4 <= bytes.len() ==> of_le32(bytes, i) == bytes[i] + 0x100 * bytes[i + 1] + 0x1_0000 * bytes[i + 2]
            + 0x100_0000 * bytes[i + 3],
        i >= bytes.len() ==> of_le16(bytes, i) == 0 && of_le32(bytes, i) == 0,
        i + 1 == bytes.len() ==> of_le16(bytes, i) == bytes[i] && of_le32(bytes, i) == bytes[i],
        i < bytes.len() ==> byte_at(bytes, i) == bytes[i],
        i >= bytes.len() ==> byte_at(bytes, i) == 0,
{
    assert(a % 0x100 + 0x100 * (a / 0x100) == a);
    assert(b % 0x100 + 0x100 * (b / 0x100 % 0x100) + 0x1_0000 * (b / 0x1_0000 % 0x100) + 0x100_0000 * (b
        / 0x100_0000) == b);
}

} // verus!
