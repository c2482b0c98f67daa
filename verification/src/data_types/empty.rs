//! A value without contents.

use vstd::prelude::*;

use crate::encoding::{BufferType, Deserialize, DeserializeError, Serialize, StaticBuffer};

verus! {

/// A value without contents (`uavcan.primitive.Empty.1.0`).
///
/// It can stand for any value of which only the rest of the transfer matters.
#[derive(Debug, Clone, Copy, PartialEq, Eq, Structural)]
pub struct Empty {}

impl View for Empty {
    type V = Empty;

    open spec fn view(&self) -> Empty {
        *self
    }
}

impl BufferType for Empty {
    open spec fn capacity() -> nat {
        0
    }

    fn new_buffer() -> (r: StaticBuffer) {
        StaticBuffer::new(0)
    }
}

impl Serialize for Empty {
    open spec fn encoded(&self) -> Seq<u8> {
        Seq::empty()
    }

    fn size_bits(&self) -> (r: usize)
        ensures
            r == 0,
    {
        0
    }

    fn serialize(&self) -> (r: Vec<u8>) {
        Vec::new()
    }
}

impl Deserialize for Empty {
    open spec fn decoded(bytes: Seq<u8>) -> Result<Empty, DeserializeError> {
        Ok(Empty {  })
    }

    fn deserialize_from_bytes(_bytes: &[u8]) -> (r: Result<Self, DeserializeError>) {
        Ok(Empty {  })
    }
}

/// An empty value has no bytes, and is read from any bytes.
pub proof fn law_empty_has_no_bytes(value: Empty, bytes: Seq<u8>)
    ensures
        value.encoded().len() == 0,
        Empty::capacity() == 0,
        Empty::decoded(bytes) is Ok,
{
}

} // verus!
