//! Transport frames.

use vstd::prelude::*;
use vstd::std_specs::convert::FromSpec;
use vstd::std_specs::convert::FromSpecImpl;
use vstd::std_specs::convert::TryFromSpec;
use vstd::std_specs::convert::TryFromSpecImpl;

use crate::ids::{NodeId, ServiceId, SubjectId};
use crate::priority::Priority;
use crate::time::Instant;

verus! {

/// Maximum transmission unit of the transport layer.
#[derive(Debug, Clone, Copy, PartialEq, Eq, PartialOrd, Ord, Structural)]
pub enum Mtu {
    /// Classic CAN: 8 bytes.
    Classic,
    /// CAN FD: 64 bytes.
    Fd,
}

impl Mtu {
    /// The number of data bytes of the longest frame.
    pub open spec fn size(self) -> usize {
        match self {
            Mtu::Classic => 8,
            Mtu::Fd => 64,
        }
    }

    /// Returns the number of data bytes of the longest frame.
    pub fn into_usize(self) -> (r: usize)
        ensures
            r == self.size(),
    {
        match self {
            Mtu::Classic => 8,
            Mtu::Fd => 64,
        }
    }
}

impl FromSpecImpl<Mtu> for usize {
    open spec fn obeys_from_spec() -> bool {
        true
    }

    open spec fn from_spec(value: Mtu) -> usize {
        value.size()
    }
}

impl From<Mtu> for usize {
    fn from(value: Mtu) -> Self {
        value.into_usize()
    }
}

/// A number of bytes is not a supported transmission unit.
#[derive(Debug, Clone, Copy, PartialEq, Eq, Structural)]
pub struct IncorrectMtu;

impl TryFrom<usize> for Mtu {
    type Error = IncorrectMtu;

    fn try_from(value: usize) -> Result<Self, IncorrectMtu> {
        match value {
            8 => Ok(Mtu::Classic),
            64 => Ok(Mtu::Fd),
            _ => Err(IncorrectMtu),
        }
    }
}

impl TryFromSpecImpl<usize> for Mtu {
    open spec fn obeys_try_from_spec() -> bool {
        true
    }

    open spec fn try_from_spec(value: usize) -> Result<Self, IncorrectMtu> {
        if value == 8 {
            Ok(Mtu::Classic)
        } else if value == 64 {
            Ok(Mtu::Fd)
        } else {
            Err(IncorrectMtu)
        }
    }
}

/// The kind of a transfer and the identifier of the data type it carries.
#[derive(Debug, Clone, Copy, PartialEq, Eq, PartialOrd, Ord, Structural)]
pub enum DataSpecifier {
    /// A message of a subject.
    Message(SubjectId),
    /// A request to a service.
    Request(ServiceId),
    /// A response of a service.
    Response(ServiceId),
}

/// The part of a frame that is encoded by the CAN identifier.
#[derive(Debug, Clone, Copy, PartialEq, Eq, Structural)]
pub struct Header {
    /// Priority of the transfer.
    pub priority: Priority,
    /// Kind and data type of the transfer.
    pub data_spec: DataSpecifier,
    /// Sender, or `None` for an anonymous frame.
    pub source: Option<NodeId>,
    /// Receiver: `None` for messages, `Some` for services.
    pub destination: Option<NodeId>,
}

/// A transport frame.
///
/// The length of the data is limited by the transmission unit of the link.
#[derive(Debug, Clone, Copy, PartialEq, Eq)]
pub struct Frame {
    /// What the CAN identifier encodes.
    pub header: Header,
    /// The data bytes.
    pub data: Data,
    /// When the frame appeared on the bus, or the deadline of its transmission.
    pub timestamp: Instant,
    /// The frame was sent by this node and is handed back to it.
    pub loop_back: bool,
}

/// The smallest length of a frame that holds `n` bytes, for `n` up to 64.
pub open spec fn ceil_length(n: int) -> int {
    if n <= 8 {
        n
    } else if n <= 12 {
        12
    } else if n <= 16 {
        16
    } else if n <= 20 {
        20
    } else if n <= 24 {
        24
    } else if n <= 32 {
        32
    } else if n <= 48 {
        48
    } else {
        64
    }
}

/// A number of data bytes that a CAN FD frame can have.
#[derive(Debug, Clone, Copy, PartialEq, Eq, PartialOrd, Ord, Structural)]
pub struct DataLength(u8);

impl DataLength {
    /// The largest length.
    pub const MAX: usize = 64;

    /// The lengths that a data length code can express.
    pub open spec fn is_valid(n: int) -> bool {
        0 <= n <= 8 || n == 12 || n == 16 || n == 20 || n == 24 || n == 32 || n == 48 || n == 64
    }

    #[verifier::type_invariant]
    spec fn inv(self) -> bool {
        Self::is_valid(self.0 as int)
    }

    /// The number of bytes.
    pub closed spec fn value(self) -> int {
        self.0 as int
    }

    /// The number of bytes determines the length.
    pub proof fn lemma_value(a: DataLength, b: DataLength)
        requires
            a.value() == b.value(),
        ensures
            a == b,
    {
    }

    /// Returns the length of a number of bytes, if there is one.
    pub fn new(value: usize) -> (r: Option<Self>)
        ensures
            r is Some <==> Self::is_valid(value as int),
            r matches Some(len) ==> len.value() == value,
    {
        let floor = Self::new_floor(value);
        if floor.as_usize() == value {
            Some(floor)
        } else {
            None
        }
    }

    /// Returns the largest length that is not above `value`.
    pub fn new_floor(value: usize) -> (r: Self)
        ensures
            Self::is_valid(r.value()),
            r.value() <= value,
            forall|n: int| #[trigger] Self::is_valid(n) && n <= value ==> n <= r.value(),
    {
        let floor: usize = if value < 8 {
            value
        } else if value < 24 {
            value / 4 * 4
        } else if value < 32 {
            value / 8 * 8
        } else if value < 64 {
            value / 16 * 16
        } else {
            64
        };
        Self(floor as u8)
    }

    /// Returns the smallest length that is not below `value`, if there is one.
    pub fn new_ceil(value: usize) -> (r: Option<Self>)
        ensures
            r is Some <==> value <= Self::MAX,
            r matches Some(len) ==> {
                &&& len.value() == ceil_length(value as int)
                &&& Self::is_valid(len.value())
                &&& value <= len.value()
                &&& forall|n: int| #[trigger] Self::is_valid(n) && value <= n ==> len.value() <= n
            },
    {
        if value <= Self::MAX {
            let ceil: usize = if value < 8 {
                value
            } else if value < 24 {
                (value + 3) / 4 * 4
            } else if value < 32 {
                (value + 7) / 8 * 8
            } else {
                (value + 15) / 16 * 16
            };
            Some(Self(ceil as u8))
        } else {
            None
        }
    }

    /// Returns the number of bytes.
    pub fn as_usize(&self) -> (r: usize)
        ensures
            r == self.value(),
            Self::is_valid(r as int),
    {
        proof {
            use_type_invariant(self);
        }
        self.0 as usize
    }
}

impl From<DataLength> for usize {
    fn from(value: DataLength) -> Self {
        value.as_usize()
    }
}

impl FromSpecImpl<DataLength> for usize {
    open spec fn obeys_from_spec() -> bool {
        true
    }

    open spec fn from_spec(value: DataLength) -> usize {
        value.value() as usize
    }
}

/// No frame can have the number of bytes.
#[derive(Debug, Clone, Copy, PartialEq, Eq, Structural)]
pub struct InvalidLength;

/// The data bytes of a frame.
#[derive(Debug, Clone, Copy, PartialEq, Eq)]
pub struct Data {
    length: DataLength,
    bytes: [u8; 64],
}

impl View for Data {
    type V = Seq<u8>;

    closed spec fn view(&self) -> Seq<u8> {
        self.bytes@.subrange(0, self.length.value())
    }
}

impl Data {
    #[verifier::type_invariant]
    spec fn inv(self) -> bool {
        &&& DataLength::is_valid(self.length.value())
        &&& forall|i: int| self.length.value() <= i < 64 ==> self.bytes@[i] == 0
    }

    /// The bytes determine the data.
    pub proof fn lemma_view(a: &Data, b: &Data)
        requires
            a@ == b@,
            a.valid(),
            b.valid(),
        ensures
            *a == *b,
    {
        assert(a@.len() == a.length.value());
        assert(b@.len() == b.length.value());
        DataLength::lemma_value(a.length, b.length);
        assert forall|i: int| 0 <= i < 64 implies a.bytes@[i] == b.bytes@[i] by {
            if i < a.length.value() {
                assert(a.bytes@[i] == a@[i]);
                assert(b.bytes@[i] == b@[i]);
            } else {
                assert(a.bytes@[i] == 0 && b.bytes@[i] == 0);
            }
        }
        assert(a.bytes@ =~= b.bytes@);
        assert(a.bytes == b.bytes);
    }

    /// What holds of every value: the length is one of a frame, and no byte lies behind it.
    pub closed spec fn valid(self) -> bool {
        self.inv()
    }

    /// Copies bytes into a new frame's data, if a frame can have that many.
    pub fn new(data: &[u8]) -> (r: Result<Self, InvalidLength>)
        ensures
            r is Ok <==> DataLength::is_valid(data@.len() as int),
            r matches Ok(d) ==> d@ == data@ && d.valid(),
    {
        let length = match DataLength::new(data.len()) {
            Some(length) => length,
            None => {
                return Err(InvalidLength);
            },
        };
        let mut bytes: [u8; 64] = [0; 64];
        for i in 0..data.len()
            invariant
                data@.len() <= 64,
                forall|k: int| 0 <= k < i ==> bytes@[k] == data@[k],
                forall|k: int| i <= k < 64 ==> bytes@[k] == 0,
        {
            bytes[i] = data[i];
        }
        let r = Self { length, bytes };
        assert(r@ =~= data@);
        Ok(r)
    }

    /// Returns data of the given length with all bytes zero.
    pub fn new_zeros(length: DataLength) -> (r: Self)
        ensures
            r@ == Seq::new(length.value() as nat, |i: int| 0u8),
            r.valid(),
            DataLength::is_valid(r@.len() as int),
    {
        proof {
            use_type_invariant(&length);
        }
        let bytes: [u8; 64] = [0; 64];
        assert(bytes == vstd::array::spec_array_fill_for_copy_type::<u8, 64>(0));
        let r = Self { length, bytes };
        assert(r@ =~= Seq::new(length.value() as nat, |i: int| 0u8));
        r
    }

    /// Returns the number of bytes.
    pub fn length(&self) -> (r: DataLength)
        ensures
            r.value() == self@.len(),
    {
        proof {
            use_type_invariant(self);
        }
        self.length
    }

    /// Returns the bytes.
    pub fn as_slice(&self) -> (r: &[u8])
        ensures
            r@ == self@,
            DataLength::is_valid(r@.len() as int),
            self.valid(),
    {
        proof {
            use_type_invariant(self);
        }
        vstd::slice::slice_subrange(self.bytes.as_slice(), 0, self.length.as_usize())
    }

    /// Overwrites one byte.
    pub fn set(&mut self, index: usize, value: u8)
        requires
            index < old(self)@.len(),
        ensures
            final(self)@ == old(self)@.update(index as int, value),
            final(self).valid(),
    {
        proof {
            use_type_invariant(&*self);
        }
        let ghost before = self@;
        let mut bytes: [u8; 64] = self.bytes;
        bytes[index] = value;
        *self = Self { length: self.length, bytes };
        assert(self@ =~= before.update(index as int, value));
    }
}

impl core::ops::Deref for Data {
    type Target = [u8];

    fn deref(&self) -> (r: &[u8])
        ensures
            r@ == self@,
    {
        self.as_slice()
    }
}

/// The length of a frame is the smallest valid one that is not less than what has to be sent.
pub proof fn law_shortest_frame(n: int, m: int)
    requires
        0 <= n <= 64,
    ensures
        n <= ceil_length(n) <= 64,
        DataLength::is_valid(ceil_length(n)),
        n <= m && DataLength::is_valid(m) ==> ceil_length(n) <= m,
        DataLength::is_valid(m) <==> 0 <= m <= 8 || m == 12 || m == 16 || m == 20 || m == 24 || m == 32 || m == 48
            || m == 64,
        Mtu::Classic.size() == 8,
        Mtu::Fd.size() == 64,
{
}

/// The sizes of frames: eight and sixty-four become a maximum, and the maximum becomes the same size
/// again. Another number becomes none.
pub proof fn law_frame_sizes(size: usize)
    ensures
        match <Mtu as TryFromSpec<usize>>::try_from_spec(size) {
            Ok(mtu) => (size == 8 && mtu is Classic || size == 64 && mtu is Fd) && <usize as FromSpec<
                Mtu,
            >>::from_spec(mtu) == size,
            Err(_) => size != 8 && size != 64,
        },
{
}

} // verus!
