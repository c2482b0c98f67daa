//! A sequence of bytes.

use heapless::Vec as HeaplessVec;
use vstd::prelude::*;

use crate::buffer::delivery::is_kept;
use crate::encoding::{
    byte_at, bytes_at, le16, of_le16, read_aligned_u16, read_u8, skip, write_aligned_u16, BufferType, Deserialize,
    DeserializeError, Serialize, StaticBuffer,
};
use crate::frame::Mtu;
use crate::utils::byte_stack::{vec_as_slice, vec_bytes, vec_clone, vec_new, vec_push};

verus! {

/// A sequence of at most 256 bytes (`uavcan.primitive.array.Natural8.1.0`).
#[derive(Debug, PartialEq, Eq)]
pub struct ByteArray {
    /// The bytes.
    pub bytes: HeaplessVec<u8, 256>,
}

impl View for ByteArray {
    type V = Seq<u8>;

    open spec fn view(&self) -> Seq<u8> {
        vec_bytes(self.bytes)
    }
}

impl Clone for ByteArray {
    /// Returns a sequence of the same bytes.
    fn clone(&self) -> (r: Self)
        ensures
            r@ == self@,
    {
        ByteArray { bytes: vec_clone(&self.bytes) }
    }
}

/// The serialized bytes: their number comes first.
pub open spec fn byte_array_encoded(bytes: Seq<u8>) -> Seq<u8> {
    le16(bytes.len() as u16) + bytes
}

/// The bytes that the data stand for.
pub open spec fn byte_array_decoded(data: Seq<u8>) -> Result<Seq<u8>, DeserializeError> {
    let length = of_le16(data, 0);
    if length <= 256 {
        Ok(bytes_at(data, 2, length))
    } else {
        Err(DeserializeError::ArrayLength)
    }
}

/// Deserialization gives back what was serialized.
pub proof fn law_byte_array_round_trip(bytes: Seq<u8>)
    requires
        bytes.len() <= 256,
    ensures
        byte_array_decoded(byte_array_encoded(bytes)) == Ok::<Seq<u8>, DeserializeError>(bytes),
{
    let data = byte_array_encoded(bytes);
    assert(bytes_at(data, 2, bytes.len() as int) =~= bytes);
}

impl BufferType for ByteArray {
    open spec fn capacity() -> nat {
        258
    }

    fn new_buffer() -> (r: StaticBuffer) {
        StaticBuffer::new(258)
    }
}

impl Serialize for ByteArray {
    open spec fn encoded(&self) -> Seq<u8> {
        byte_array_encoded(self@)
    }

    fn size_bits(&self) -> (r: usize)
        ensures
            r == 16 + 8 * self@.len(),
    {
        16 + vec_as_slice(&self.bytes).len() * 8
    }

    fn serialize(&self) -> (r: Vec<u8>) {
        let bytes: &[u8] = vec_as_slice(&self.bytes);
        let length: [u8; 2] = write_aligned_u16(bytes.len() as u16);
        let mut r: Vec<u8> = Vec::new();
        r.push(length[0]);
        r.push(length[1]);
        let mut i: usize = 0;
        proof {
            assert(r@ =~= length@ + bytes@.take(0));
        }
        while i < bytes.len()
            invariant
                i <= bytes@.len(),
                r@ == length@ + bytes@.take(i as int),
            decreases bytes@.len() - i,
        {
            r.push(bytes[i]);
            i = i + 1;
            proof {
                assert(r@ =~= length@ + bytes@.take(i as int));
            }
        }
        proof {
            assert(bytes@.take(i as int) =~= bytes@);
        }
        r
    }
}

impl Deserialize for ByteArray {
    open spec fn decoded(bytes: Seq<u8>) -> Result<Seq<u8>, DeserializeError> {
        byte_array_decoded(bytes)
    }

    fn deserialize_from_bytes(bytes: &[u8]) -> (r: Result<Self, DeserializeError>) {
        let length: u16 = read_aligned_u16(bytes);
        if length > 256 {
            return Err(DeserializeError::ArrayLength);
        }
        let mut values: HeaplessVec<u8, 256> = vec_new();
        let mut i: usize = 0;
        proof {
            assert(vec_bytes(values) =~= bytes_at(bytes@, 2, 0));
        }
        while i < length as usize
            invariant
                i <= length <= 256,
                vec_bytes(values) == bytes_at(bytes@, 2, i as int),
            decreases length - i,
        {
            let byte: u8 = read_u8(skip(bytes, 2 + i));
            let _pushed = vec_push(&mut values, byte);
            i = i + 1;
            proof {
                assert(vec_bytes(values) =~= bytes_at(bytes@, 2, i as int));
            }
        }
        Ok(ByteArray { bytes: values })
    }
}

/// The bytes of an array: two of its length, the less significant first, and then the elements.
pub proof fn law_byte_array_layout(bytes: Seq<u8>)
    requires
        bytes.len() <= 256,
    ensures
        ({
            let data = byte_array_encoded(bytes);
            &&& data.len() == bytes.len() + 2
            &&& data[0] + 0x100 * data[1] == bytes.len()
            &&& forall|i: int| 0 <= i < bytes.len() ==> #[trigger] bytes[i] == data[i + 2]
        }),
{
    let n = bytes.len() as u16;
    assert(n % 0x100 + 0x100 * (n / 0x100) == n);
}

/// What is read from the bytes of an array. Missing bytes are zeros, further ones are ignored. A
/// length above 256 is an error, and every other one is read.
pub proof fn law_byte_array_reading(data: Seq<u8>, a: int, b: int)
    requires
        a == (if data.len() > 0 {
            data[0] as int
        } else {
            0
        }),
        b == (if data.len() > 1 {
            data[1] as int
        } else {
            0
        }),
    ensures
        match byte_array_decoded(data) {
            Ok(bytes) => {
                &&& a + 0x100 * b <= 256
                &&& bytes.len() == a + 0x100 * b
                &&& forall|i: int|
                    0 <= i < bytes.len() ==> #[trigger] bytes[i] == (if i + 2 < data.len() {
                        data[i + 2]
                    } else {
                        0
                    })
            },
            Err(error) => a + 0x100 * b > 256 && error == DeserializeError::ArrayLength,
        },
{
}

/// An array is read as it was written after it was transferred: padding behind its bytes is ignored.
pub proof fn law_byte_array_survives_transfer(bytes: Seq<u8>, received: Seq<u8>, mtu: Mtu)
    requires
        bytes.len() <= 256,
        is_kept(received, byte_array_encoded(bytes), mtu, 258),
    ensures
        byte_array_decoded(received) == Ok::<Seq<u8>, DeserializeError>(bytes),
{
    let data = byte_array_encoded(bytes);
    law_byte_array_layout(bytes);
    assert(received[0] == data[0]);
    assert(received[1] == data[1]);
    assert(of_le16(received, 0) == bytes.len());
    assert(bytes_at(received, 2, bytes.len() as int) =~= bytes) by {
        assert forall|i: int| 0 <= i < bytes.len() implies byte_at(received, 2 + i) == bytes[i] by {
            assert(received[i + 2] == data[i + 2]);
        }
    }
}

} // verus!
