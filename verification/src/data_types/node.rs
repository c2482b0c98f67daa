//! Status of a node.

use vstd::prelude::*;

use crate::buffer::delivery::is_kept;
use crate::encoding::{
    byte_at, le32, of_le32, read_u2, read_u3, read_u32, read_u8, skip, write_aligned_u32, write_aligned_u8, write_u2,
    write_u3, BufferType, Deserialize, DeserializeError, Serialize, StaticBuffer,
};
use crate::frame::Mtu;
use crate::ids::SubjectId;

verus! {

/// Health of a node (`uavcan.node.Health.1.0`): that of the worst of its activities.
#[derive(Debug, Clone, Copy, PartialEq, Eq, Structural)]
pub enum Health {
    /// The component works properly.
    Nominal,
    /// A parameter is out of range, or a minor failure does not affect real-time functions.
    Advisory,
    /// A major failure degrades the component.
    Caution,
    /// A fatal failure keeps the component from working.
    Warning,
}

impl Health {
    /// The number that stands for the health.
    pub open spec fn code(self) -> u8 {
        match self {
            Health::Nominal => 0,
            Health::Advisory => 1,
            Health::Caution => 2,
            Health::Warning => 3,
        }
    }

    /// The health that a number stands for.
    pub open spec fn of_code(code: u8) -> Health {
        if code == 0 {
            Health::Nominal
        } else if code == 1 {
            Health::Advisory
        } else if code == 2 {
            Health::Caution
        } else {
            Health::Warning
        }
    }
}

impl View for Health {
    type V = Health;

    open spec fn view(&self) -> Health {
        *self
    }
}

impl BufferType for Health {
    open spec fn capacity() -> nat {
        1
    }

    fn new_buffer() -> (r: StaticBuffer) {
        StaticBuffer::new(1)
    }
}

impl Serialize for Health {
    open spec fn encoded(&self) -> Seq<u8> {
        seq![self.code()]
    }

    fn size_bits(&self) -> (r: usize)
        ensures
            r == 8,
    {
        8
    }

    fn serialize(&self) -> (r: Vec<u8>) {
        let byte: [u8; 1] = match self {
            Health::Nominal => write_u2(0),
            Health::Advisory => write_u2(1),
            Health::Caution => write_u2(2),
            Health::Warning => write_u2(3),
        };
        let mut r: Vec<u8> = Vec::new();
        r.push(byte[0]);
        r
    }
}

impl Deserialize for Health {
    open spec fn decoded(bytes: Seq<u8>) -> Result<Health, DeserializeError> {
        Ok(Health::of_code(byte_at(bytes, 0) % 4))
    }

    fn deserialize_from_bytes(bytes: &[u8]) -> (r: Result<Self, DeserializeError>) {
        match read_u2(bytes) {
            0 => Ok(Health::Nominal),
            1 => Ok(Health::Advisory),
            2 => Ok(Health::Caution),
            3 => Ok(Health::Warning),
            _ => Err(DeserializeError::UnionTag),
        }
    }
}

/// Operating mode of a node (`uavcan.node.Mode.1.0`).
#[derive(Debug, Clone, Copy, PartialEq, Eq, Structural)]
pub enum Mode {
    /// Normal operation.
    Operational,
    /// The node is starting.
    Initialization,
    /// Calibration, self-test, and the like.
    Maintenance,
    /// New software is being loaded.
    SoftwareUpdate,
}

impl Mode {
    /// The number that stands for the mode.
    pub open spec fn code(self) -> u8 {
        match self {
            Mode::Operational => 0,
            Mode::Initialization => 1,
            Mode::Maintenance => 2,
            Mode::SoftwareUpdate => 3,
        }
    }

    /// The mode that a number stands for. The other numbers are reserved.
    pub open spec fn of_code(code: u8) -> Option<Mode> {
        if code == 0 {
            Some(Mode::Operational)
        } else if code == 1 {
            Some(Mode::Initialization)
        } else if code == 2 {
            Some(Mode::Maintenance)
        } else if code == 3 {
            Some(Mode::SoftwareUpdate)
        } else {
            None
        }
    }
}

impl View for Mode {
    type V = Mode;

    open spec fn view(&self) -> Mode {
        *self
    }
}

impl BufferType for Mode {
    open spec fn capacity() -> nat {
        1
    }

    fn new_buffer() -> (r: StaticBuffer) {
        StaticBuffer::new(1)
    }
}

impl Serialize for Mode {
    open spec fn encoded(&self) -> Seq<u8> {
        seq![self.code()]
    }

    fn size_bits(&self) -> (r: usize)
        ensures
            r == 8,
    {
        8
    }

    fn serialize(&self) -> (r: Vec<u8>) {
        let byte: [u8; 1] = match self {
            Mode::Operational => write_u3(0),
            Mode::Initialization => write_u3(1),
            Mode::Maintenance => write_u3(2),
            Mode::SoftwareUpdate => write_u3(3),
        };
        let mut r: Vec<u8> = Vec::new();
        r.push(byte[0]);
        r
    }
}

impl Deserialize for Mode {
    open spec fn decoded(bytes: Seq<u8>) -> Result<Mode, DeserializeError> {
        match Mode::of_code(byte_at(bytes, 0) % 8) {
            Some(mode) => Ok(mode),
            None => Err(DeserializeError::UnionTag),
        }
    }

    fn deserialize_from_bytes(bytes: &[u8]) -> (r: Result<Self, DeserializeError>) {
        match read_u3(bytes) {
            0 => Ok(Mode::Operational),
            1 => Ok(Mode::Initialization),
            2 => Ok(Mode::Maintenance),
            3 => Ok(Mode::SoftwareUpdate),
            _ => Err(DeserializeError::UnionTag),
        }
    }
}

/// What every node with an address tells periodically (`uavcan.node.Heartbeat.1.0`).
#[derive(Debug, Clone, Copy, PartialEq, Eq, Structural)]
pub struct Heartbeat {
    /// Seconds since the start of the node. The value stays at its maximum once it is reached.
    pub uptime: u32,
    /// Health of the node.
    pub health: Health,
    /// Operating mode of the node.
    pub mode: Mode,
    /// Further status of the node, without a common meaning.
    pub vendor_specific_status_code: u8,
}

impl Heartbeat {
    /// The longest period of publication in seconds.
    pub const MAX_PUBLICATION_PERIOD: u16 = 1;

    /// A node is offline when its last heartbeat is older than this number of seconds.
    pub const OFFLINE_TIMEOUT: u16 = 3;

    /// Returns the subject of heartbeats.
    pub fn subject() -> (r: SubjectId)
        ensures
            r == SubjectId::of(7509),
    {
        SubjectId::from_u16_truncating(7509)
    }
}

impl View for Heartbeat {
    type V = Heartbeat;

    open spec fn view(&self) -> Heartbeat {
        *self
    }
}

impl BufferType for Heartbeat {
    open spec fn capacity() -> nat {
        7
    }

    fn new_buffer() -> (r: StaticBuffer) {
        StaticBuffer::new(7)
    }
}

impl Serialize for Heartbeat {
    open spec fn encoded(&self) -> Seq<u8> {
        le32(self.uptime) + seq![self.health.code(), self.mode.code(), self.vendor_specific_status_code]
    }

    fn size_bits(&self) -> (r: usize)
        ensures
            r == 56,
    {
        56
    }

    fn serialize(&self) -> (r: Vec<u8>) {
        let uptime: [u8; 4] = write_aligned_u32(self.uptime);
        let health: Vec<u8> = self.health.serialize();
        let mode: Vec<u8> = self.mode.serialize();
        let code: [u8; 1] = write_aligned_u8(self.vendor_specific_status_code);
        let mut r: Vec<u8> = Vec::new();
        r.push(uptime[0]);
        r.push(uptime[1]);
        r.push(uptime[2]);
        r.push(uptime[3]);
        r.push(health[0]);
        r.push(mode[0]);
        r.push(code[0]);
        assert(r@ =~= self.encoded());
        r
    }
}

impl Deserialize for Heartbeat {
    open spec fn decoded(bytes: Seq<u8>) -> Result<Heartbeat, DeserializeError> {
        match Mode::of_code(byte_at(bytes, 5) % 8) {
            Some(mode) => Ok(
                Heartbeat {
                    uptime: of_le32(bytes, 0) as u32,
                    health: Health::of_code(byte_at(bytes, 4) % 4),
                    mode,
                    vendor_specific_status_code: byte_at(bytes, 6),
                },
            ),
            None => Err(DeserializeError::UnionTag),
        }
    }

    fn deserialize_from_bytes(bytes: &[u8]) -> (r: Result<Self, DeserializeError>) {
        let uptime: u32 = read_u32(bytes);
        let health = match Health::deserialize_from_bytes(skip(bytes, 4)) {
            Ok(health) => health,
            Err(error) => {
                return Err(error);
            },
        };
        let mode = match Mode::deserialize_from_bytes(skip(bytes, 5)) {
            Ok(mode) => mode,
            Err(error) => {
                return Err(error);
            },
        };
        let vendor_specific_status_code: u8 = read_u8(skip(bytes, 6));
        Ok(Heartbeat { uptime, health, mode, vendor_specific_status_code })
    }
}

/// Deserialization gives back what was serialized.
pub proof fn law_heartbeat_round_trip(heartbeat: Heartbeat)
    ensures
        Heartbeat::decoded(heartbeat.encoded()) == Ok::<Heartbeat, DeserializeError>(heartbeat),
{
    let bytes = heartbeat.encoded();
    let u = heartbeat.uptime;
    assert(u % 0x100 + 0x100 * (u / 0x100 % 0x100) + 0x1_0000 * (u / 0x1_0000 % 0x100) + 0x100_0000 * (u / 0x100_0000)
        == u);
    assert(of_le32(bytes, 0) == u);
}

/// The bytes of a heartbeat: four of the uptime, the least significant first, one each of the health
/// and the mode, and the vendor code. The worse the health, the larger its number.
pub proof fn law_heartbeat_layout(heartbeat: Heartbeat)
    ensures
        ({
            let bytes = heartbeat.encoded();
            &&& bytes.len() == 7
            &&& bytes[0] + 0x100 * bytes[1] + 0x1_0000 * bytes[2] + 0x100_0000 * bytes[3] == heartbeat.uptime
            &&& bytes[4] == (match heartbeat.health {
                Health::Nominal => 0int,
                Health::Advisory => 1,
                Health::Caution => 2,
                Health::Warning => 3,
            })
            &&& bytes[5] == (match heartbeat.mode {
                Mode::Operational => 0int,
                Mode::Initialization => 1,
                Mode::Maintenance => 2,
                Mode::SoftwareUpdate => 3,
            })
            &&& bytes[6] == heartbeat.vendor_specific_status_code
        }),
{
    let u = heartbeat.uptime;
    assert(u % 0x100 + 0x100 * (u / 0x100 % 0x100) + 0x1_0000 * (u / 0x1_0000 % 0x100) + 0x100_0000 * (u
        / 0x100_0000) == u);
}

/// What is read from the bytes of a heartbeat. Missing bytes are zeros, further ones are ignored, and
/// so are the unused bits of the health and the mode. An unknown mode is an error.
pub proof fn law_heartbeat_reading(bytes: Seq<u8>, whole: Seq<u8>)
    requires
        whole.len() == 7,
        forall|i: int| 0 <= i < 7 ==> #[trigger] whole[i] == (if i < bytes.len() {
            bytes[i]
        } else {
            0
        }),
    ensures
        match Heartbeat::decoded(bytes) {
            Ok(heartbeat) => {
                &&& whole[5] % 8 < 4
                &&& heartbeat.uptime == whole[0] + 0x100 * whole[1] + 0x1_0000 * whole[2] + 0x100_0000 * whole[3]
                &&& whole[4] % 4 == (match heartbeat.health {
                    Health::Nominal => 0int,
                    Health::Advisory => 1,
                    Health::Caution => 2,
                    Health::Warning => 3,
                })
                &&& whole[5] % 8 == (match heartbeat.mode {
                    Mode::Operational => 0int,
                    Mode::Initialization => 1,
                    Mode::Maintenance => 2,
                    Mode::SoftwareUpdate => 3,
                })
                &&& heartbeat.vendor_specific_status_code == whole[6]
            },
            Err(error) => whole[5] % 8 >= 4 && error == DeserializeError::UnionTag,
        },
{
    assert(forall|i: int| 0 <= i < 7 ==> byte_at(bytes, i) == #[trigger] whole[i]);
    assert(byte_at(bytes, 0) == whole[0]);
    assert(byte_at(bytes, 1) == whole[1]);
    assert(byte_at(bytes, 2) == whole[2]);
    assert(byte_at(bytes, 3) == whole[3]);
    assert(byte_at(bytes, 4) == whole[4]);
    assert(byte_at(bytes, 5) == whole[5]);
    assert(byte_at(bytes, 6) == whole[6]);
}

/// A health and a mode are one byte each. What was written is read, whatever the unused bits are, and
/// every other mode is an error.
pub proof fn law_health_and_mode(health: Health, mode: Mode, a: u8, b: u8)
    ensures
        health.encoded().len() == 1,
        mode.encoded().len() == 1,
        health.encoded()[0] == (match health {
            Health::Nominal => 0int,
            Health::Advisory => 1,
            Health::Caution => 2,
            Health::Warning => 3,
        }),
        mode.encoded()[0] == (match mode {
            Mode::Operational => 0int,
            Mode::Initialization => 1,
            Mode::Maintenance => 2,
            Mode::SoftwareUpdate => 3,
        }),
        Health::decoded(seq![a]) == Ok::<Health, DeserializeError>(health) <==> a % 4 == health.encoded()[0],
        Mode::decoded(seq![b]) == Ok::<Mode, DeserializeError>(mode) <==> b % 8 == mode.encoded()[0],
        Health::decoded(seq![a]) is Ok,
        Mode::decoded(seq![b]) is Ok <==> b % 8 < 4,
        Health::decoded(Seq::empty()) == Ok::<Health, DeserializeError>(Health::Nominal),
        Mode::decoded(Seq::empty()) == Ok::<Mode, DeserializeError>(Mode::Operational),
{
    assert(byte_at(seq![a], 0) == a);
    assert(byte_at(seq![b], 0) == b);
}

/// A heartbeat is read as it was written after it was transferred: padding behind its bytes is ignored.
pub proof fn law_heartbeat_survives_transfer(heartbeat: Heartbeat, received: Seq<u8>, mtu: Mtu)
    requires
        is_kept(received, heartbeat.encoded(), mtu, 7),
    ensures
        Heartbeat::decoded(received) == Ok::<Heartbeat, DeserializeError>(heartbeat),
{
    assert(heartbeat.encoded().len() == 7);
    assert(received =~= heartbeat.encoded());
    law_heartbeat_round_trip(heartbeat);
}

} // verus!
