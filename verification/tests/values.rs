//! Identifiers, times, checksums and serialized values.

use emcyphal::data_types::node::{Health, Heartbeat, Mode};
use emcyphal::data_types::{ByteArray, Empty};
use emcyphal::encoding::{Deserialize, DeserializeError, Serialize};
use emcyphal::format::{is_eot_frame, TailByte, TransferCrc};
use emcyphal::frame::{Data, DataLength, DataSpecifier, Frame, Header, IncorrectMtu, InvalidLength, Mtu};
use emcyphal::ids::{NodeId, ServiceId, SubjectId, TransferId};
use emcyphal::priority::{InvalidValue, Priority, PrioritySet};
use emcyphal::time::{Duration, Instant};

#[test]
fn identifiers_have_ranges() {
    assert_eq!(NodeId::new(127).map(|id| id.into_u8()), Some(127));
    assert_eq!(NodeId::new(128), None);
    assert_eq!(NodeId::try_from(128), Err(InvalidValue));
    assert_eq!(NodeId::from_u8_truncating(0x8a), NodeId::new(10).unwrap());
    assert_eq!(SubjectId::new(8191), Some(SubjectId::max()));
    assert_eq!(SubjectId::new(8192), None);
    assert_eq!(SubjectId::try_from(8192), Err(InvalidValue));
    assert_eq!(ServiceId::new(511), Some(ServiceId::max()));
    assert_eq!(ServiceId::try_from(512), Err(InvalidValue));
    assert_eq!(ServiceId::from_u16_truncating(0x2a5).into_u16(), 0xa5);
    assert_eq!(TransferId::new(31), Some(TransferId::max()));
    assert_eq!(TransferId::try_from(32), Err(InvalidValue));
    assert_eq!(u8::from(NodeId::new(3).unwrap()), 3);
}

#[test]
fn transfer_identifiers_go_round() {
    let mut id = TransferId::session_start();
    assert_eq!(id.into_u8(), 0);
    for expected in 1..32 {
        id = id.next();
        assert_eq!(id.into_u8(), expected);
    }
    assert_eq!(id.next(), TransferId::session_start());
}

#[test]
fn priorities_are_coded() {
    assert_eq!(Priority::try_from(7), Ok(Priority::Optional));
    assert_eq!(Priority::try_from(8), Err(InvalidValue));
    assert_eq!(Priority::from_u8_truncating(0x0c), Priority::Nominal);
    assert_eq!(Priority::Nominal.next(), Some(Priority::Low));
    assert_eq!(Priority::Optional.next(), None);
    assert_eq!(Priority::Exceptional.prev(), None);
    assert_eq!(usize::from(Priority::High), 3);
}

#[test]
fn priority_sets_have_operators() {
    let a = PrioritySet::new_le(Priority::High);
    let b = PrioritySet::new_ge(Priority::Fast);
    assert_eq!((a & b).into_bits(), 0b0000_1100);
    assert_eq!(a | b, PrioritySet::all());
    assert_eq!(!a, PrioritySet::new_gt(Priority::High));
    let mut c = a;
    c &= b;
    assert_eq!(c, a & b);
    c |= a;
    assert_eq!(c, a);
    let mut iter = (a & b).into_iter();
    assert_eq!(iter.next(), Some(Priority::Fast));
    assert_eq!(iter.next(), Some(Priority::High));
    assert_eq!(iter.next(), None);
    assert!(PrioritySet::default().is_empty());
    assert_eq!(PrioritySet::from_bits(0x81).last(), Some(Priority::Optional));
}

#[test]
fn times_saturate() {
    let t = Instant::from_ticks(5);
    assert_eq!(t.saturating_add(Duration::from_ticks(7)).as_ticks(), 12);
    assert_eq!(
        Instant::from_ticks(u64::MAX - 1).saturating_add(Duration::from_ticks(2)),
        Instant::max()
    );
    assert_eq!(Instant::from_ticks(2_999_999).as_secs(), 2);
    assert_eq!(Duration::from_secs(3).as_ticks(), 3_000_000);
    let first = Instant::now();
    assert!(first <= Instant::now());
}

#[test]
fn lengths_of_frames() {
    assert_eq!(DataLength::new(12).map(|l| l.as_usize()), Some(12));
    assert_eq!(DataLength::new(9), None);
    assert_eq!(Data::new(&[0; 9]), Err(InvalidLength));
    assert_eq!(Data::new_zeros(DataLength::new(3).unwrap()).as_slice(), [0, 0, 0]);
    assert_eq!(Mtu::try_from(64), Ok(Mtu::Fd));
    assert_eq!(Mtu::try_from(63), Err(IncorrectMtu));
    assert_eq!(usize::from(Mtu::Classic), 8);
}

#[test]
fn checksum_of_digits() {
    let mut crc = TransferCrc::default();
    crc.add_bytes(b"123456789");
    assert_eq!(crc.get(), 0x29b1);
    assert_eq!(crc.to_bytes(), [0x29, 0xb1]);
    // The checksum of data and its checksum is zero
    crc.add_bytes(&[0x29, 0xb1]);
    assert_eq!(crc.get(), 0);
    let mut one = TransferCrc::from(0xffff);
    one.add(0x31);
    assert_eq!(one.get(), 0xc782);
}

#[test]
fn tail_bytes() {
    let id = TransferId::new(5).unwrap();
    let tail = TailByte::new(true, false, true, id);
    assert_eq!(u8::from(tail), 0b1010_0101);
    let tail = TailByte::from(0b0100_0111);
    assert!(!tail.sot());
    assert!(tail.eot());
    assert!(!tail.toggle());
    assert_eq!(tail.transfer_id().into_u8(), 7);

    let frame = |data: &[u8]| Frame {
        header: Header {
            priority: Priority::Nominal,
            data_spec: DataSpecifier::Message(SubjectId::new(1).unwrap()),
            source: None,
            destination: None,
        },
        data: Data::new(data).unwrap(),
        timestamp: Instant::min(),
        loop_back: false,
    };
    assert_eq!(is_eot_frame(&frame(&[])), None);
    assert_eq!(is_eot_frame(&frame(&[1, 0b1010_0000])), Some(false));
    assert_eq!(is_eot_frame(&frame(&[1, 0b0110_0000])), Some(true));
}

#[test]
fn byte_arrays_are_serialized() {
    let value = ByteArray {
        bytes: heapless::Vec::from_slice(&[7, 8, 9]).unwrap(),
    };
    assert_eq!(value.size_bits(), 40);
    assert_eq!(value.serialize(), [3, 0, 7, 8, 9]);
    let mut target = [0xff; 8];
    value.serialize_to_bytes(&mut target);
    assert_eq!(target, [3, 0, 7, 8, 9, 0, 0, 0]);
    assert_eq!(ByteArray::deserialize_from_bytes(&target), Ok(value));

    // 256 bytes are the most
    let full = ByteArray {
        bytes: (0..=255u8).collect(),
    };
    let bytes = full.serialize();
    assert_eq!(bytes.len(), 258);
    assert_eq!(bytes[..3], [0, 1, 0]);
    assert_eq!(ByteArray::deserialize_from_bytes(&bytes), Ok(full));
    assert_eq!(
        ByteArray::deserialize_from_bytes(&[1, 1]),
        Err(DeserializeError::ArrayLength)
    );
    // Missing bytes are zeros
    assert_eq!(
        ByteArray::deserialize_from_bytes(&[2, 0, 5]).map(|v| v.bytes.to_vec()),
        Ok(vec![5, 0])
    );
    assert_eq!(
        ByteArray::deserialize_from_bytes(&[]).map(|v| v.bytes.len()),
        Ok(0)
    );
}

#[test]
fn empty_values_take_no_bytes() {
    assert_eq!(Empty {}.serialize(), []);
    assert_eq!(Empty::deserialize_from_bytes(&[1, 2, 3]), Ok(Empty {}));
}

#[test]
fn heartbeats_are_serialized() {
    let value = Heartbeat {
        uptime: 0x0403_0201,
        health: Health::Warning,
        mode: Mode::SoftwareUpdate,
        vendor_specific_status_code: 0xee,
    };
    assert_eq!(value.size_bits(), 56);
    assert_eq!(value.serialize(), [1, 2, 3, 4, 3, 3, 0xee]);
    assert_eq!(Heartbeat::deserialize_from_bytes(&[1, 2, 3, 4, 3, 3, 0xee]), Ok(value));
    // The upper bits of health are ignored, unknown modes are refused
    assert_eq!(
        Heartbeat::deserialize_from_bytes(&[0, 0, 0, 0, 0xfd, 0xf9, 0]).map(|h| (h.health, h.mode)),
        Ok((Health::Advisory, Mode::Initialization))
    );
    assert_eq!(
        Heartbeat::deserialize_from_bytes(&[0, 0, 0, 0, 0, 4, 0]),
        Err(DeserializeError::UnionTag)
    );
    assert_eq!(Heartbeat::subject().into_u16(), 7509);
}
