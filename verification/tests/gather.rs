//! Assembly of transfers.

use emcyphal::buffer::gather::{Gather, PayloadAccumulator, Transfer};
use emcyphal::format::TransferCrc;
use emcyphal::frame::Mtu;
use emcyphal::ids::TransferId;
use emcyphal::priority::Priority;
use emcyphal::time::{Duration, Instant};

const TIMEOUT: Duration = Duration { ticks: 2_000_000 };
const MTU: Mtu = Mtu::Classic;
const PRIORITY: Priority = Priority::Nominal;

fn ts(us: u64) -> Instant {
    Instant::min().saturating_add(Duration::from_ticks(us))
}

#[test]
fn test_zero_payload_transfer() {
    let mut gather = Gather::default();
    let mut buffer = [0xff; 8];

    let data = [0b1110_0000 + 27];
    let transfer = gather.push_frame(TIMEOUT, &mut buffer, PRIORITY, &data, ts(10), MTU);
    assert_eq!(
        transfer,
        Some(Transfer {
            id: TransferId::try_from(27).unwrap(),
            priority: PRIORITY,
            timestamp: ts(10),
            length: 0,
        })
    );
}

#[test]
fn gather_test_regular_transfer() {
    let mut gather = Gather::default();
    let mut buffer = [0xff; 8];

    let data = [0, 1, 2, 3, 0b1110_0000 + 27];
    let transfer = gather.push_frame(TIMEOUT, &mut buffer, PRIORITY, &data, ts(10), MTU);
    assert_eq!(
        transfer,
        Some(Transfer {
            id: TransferId::try_from(27).unwrap(),
            priority: PRIORITY,
            timestamp: ts(10),
            length: 4,
        })
    );
    assert_eq!(buffer[..4], [0, 1, 2, 3]);
}

#[test]
fn test_saturating_transfer() {
    let mut gather = Gather::default();
    let mut buffer = [0xff; 4];

    let data = [0, 1, 2, 3, 4, 5, 0b1110_0000 + 27];
    let transfer = gather.push_frame(TIMEOUT, &mut buffer, PRIORITY, &data, ts(10), MTU);
    assert_eq!(
        transfer,
        Some(Transfer {
            id: TransferId::try_from(27).unwrap(),
            priority: PRIORITY,
            timestamp: ts(10),
            length: 6,
        })
    );
    assert_eq!(buffer, [0, 1, 2, 3]);
}

#[test]
fn test_two_frame_transfer() {
    let mut gather = Gather::default();
    let mut buffer = [0xff; 16];

    let data = [0, 1, 2, 3, 4, 5, 6, 0b1010_0000 + 27];
    let transfer = gather.push_frame(TIMEOUT, &mut buffer, PRIORITY, &data, ts(10), MTU);
    assert_eq!(transfer, None);

    let data = [7, 0x17, 0x8d, 0b0100_0000 + 27];
    let transfer = gather.push_frame(TIMEOUT, &mut buffer, PRIORITY, &data, ts(10), MTU);
    assert_eq!(
        transfer,
        Some(Transfer {
            id: TransferId::try_from(27).unwrap(),
            priority: PRIORITY,
            timestamp: ts(10),
            length: 8,
        })
    );
    assert_eq!(buffer[..8], [0, 1, 2, 3, 4, 5, 6, 7]);
}

#[test]
fn test_multi_frame_saturating_transfer() {
    let mut buffer = [0xff; 4];

    let data0 = [0, 1, 2, 3, 4, 5, 6, 0b1010_0000 + 27];
    let data1 = [7, 0x17, 0x8d, 0b0100_0000 + 27];
    let data1_err = [7, 0x17, 0x8d + 1, 0b0100_0000 + 27];

    let mut gather = Gather::default();
    let transfer = gather.push_frame(TIMEOUT, &mut buffer, PRIORITY, &data0, ts(10), MTU);
    assert_eq!(transfer, None);
    let transfer = gather.push_frame(TIMEOUT, &mut buffer, PRIORITY, &data1, ts(10), MTU);
    assert_eq!(
        transfer,
        Some(Transfer {
            id: TransferId::try_from(27).unwrap(),
            priority: PRIORITY,
            timestamp: ts(10),
            length: 8,
        })
    );
    assert_eq!(buffer, [0, 1, 2, 3]);

    let mut gather = Gather::default();
    let transfer = gather.push_frame(TIMEOUT, &mut buffer, PRIORITY, &data0, ts(20), MTU);
    assert_eq!(transfer, None);
    let transfer = gather.push_frame(TIMEOUT, &mut buffer, PRIORITY, &data1_err, ts(20), MTU);
    assert_eq!(transfer, None);
}

#[test]
fn test_tree_frame_transfer() {
    let mut gather = Gather::default();
    let mut buffer = [0xff; 16];

    let data = [0, 1, 2, 3, 4, 5, 6, 0b1010_0000 + 27];
    let transfer = gather.push_frame(TIMEOUT, &mut buffer, PRIORITY, &data, ts(10), MTU);
    assert_eq!(transfer, None);

    let data = [7, 8, 9, 10, 11, 12, 0xac, 0b0000_0000 + 27];
    let transfer = gather.push_frame(TIMEOUT, &mut buffer, PRIORITY, &data, ts(10), MTU);
    assert_eq!(transfer, None);

    let data = [0xdd, 0b0110_0000 + 27];
    let transfer = gather.push_frame(TIMEOUT, &mut buffer, PRIORITY, &data, ts(10), MTU);
    assert_eq!(
        transfer,
        Some(Transfer {
            id: TransferId::try_from(27).unwrap(),
            priority: PRIORITY,
            timestamp: ts(10),
            length: 13,
        })
    );
    assert_eq!(buffer[..13], [0, 1, 2, 3, 4, 5, 6, 7, 8, 9, 10, 11, 12]);
}

#[test]
fn test_four_frame_transfer() {
    let mut gather = Gather::default();
    let mut buffer = [0xff; 32];

    let data = [0, 1, 2, 3, 4, 5, 6, 0b1010_0000 + 27];
    let transfer = gather.push_frame(TIMEOUT, &mut buffer, PRIORITY, &data, ts(10), MTU);
    assert_eq!(transfer, None);

    let data = [7, 8, 9, 10, 11, 12, 13, 0b0000_0000 + 27];
    let transfer = gather.push_frame(TIMEOUT, &mut buffer, PRIORITY, &data, ts(10), MTU);
    assert_eq!(transfer, None);

    let data = [14, 15, 16, 17, 18, 19, 20, 0b0010_0000 + 27];
    let transfer = gather.push_frame(TIMEOUT, &mut buffer, PRIORITY, &data, ts(10), MTU);
    assert_eq!(transfer, None);

    let data = [0xdd, 0x0a, 0b0100_0000 + 27];
    let transfer = gather.push_frame(TIMEOUT, &mut buffer, PRIORITY, &data, ts(10), MTU);
    assert_eq!(
        transfer,
        Some(Transfer {
            id: TransferId::try_from(27).unwrap(),
            priority: PRIORITY,
            timestamp: ts(10),
            length: 21,
        })
    );
    assert_eq!(
        buffer[..21],
        [
            0, 1, 2, 3, 4, 5, 6, 7, 8, 9, 10, 11, 12, 13, 14, 15, 16, 17, 18, 19, 20
        ]
    );
}

#[test]
fn test_four_frame_transfer_with_duplicates() {
    let mut gather = Gather::default();
    let mut buffer = [0xff; 32];

    let data = [0, 1, 2, 3, 4, 5, 6, 0b1010_0000 + 27];
    let transfer = gather.push_frame(TIMEOUT, &mut buffer, PRIORITY, &data, ts(10), MTU);
    assert_eq!(transfer, None);
    let transfer = gather.push_frame(TIMEOUT, &mut buffer, PRIORITY, &data, ts(10), MTU);
    assert_eq!(transfer, None);

    let data = [7, 8, 9, 10, 11, 12, 13, 0b0000_0000 + 27];
    let transfer = gather.push_frame(TIMEOUT, &mut buffer, PRIORITY, &data, ts(10), MTU);
    assert_eq!(transfer, None);
    let transfer = gather.push_frame(TIMEOUT, &mut buffer, PRIORITY, &data, ts(10), MTU);
    assert_eq!(transfer, None);

    let data = [14, 15, 16, 17, 18, 19, 20, 0b0010_0000 + 27];
    let transfer = gather.push_frame(TIMEOUT, &mut buffer, PRIORITY, &data, ts(10), MTU);
    assert_eq!(transfer, None);
    let transfer = gather.push_frame(TIMEOUT, &mut buffer, PRIORITY, &data, ts(10), MTU);
    assert_eq!(transfer, None);

    let data = [0xdd, 0x0a, 0b0100_0000 + 27];
    let transfer = gather.push_frame(TIMEOUT, &mut buffer, PRIORITY, &data, ts(10), MTU);
    assert_eq!(
        transfer,
        Some(Transfer {
            id: TransferId::try_from(27).unwrap(),
            priority: PRIORITY,
            timestamp: ts(10),
            length: 21,
        })
    );
    assert_eq!(
        buffer[..21],
        [
            0, 1, 2, 3, 4, 5, 6, 7, 8, 9, 10, 11, 12, 13, 14, 15, 16, 17, 18, 19, 20
        ]
    );

    let transfer = gather.push_frame(TIMEOUT, &mut buffer, PRIORITY, &data, ts(10), MTU);
    assert_eq!(transfer, None);
}

#[test]
fn test_one_frame_transfer_timeout() {
    let mut gather = Gather::default();
    let mut buffer = [0xff; 8];

    let data = [0, 1, 2, 3, 0b1110_0000 + 27];
    let transfer = gather.push_frame(TIMEOUT, &mut buffer, PRIORITY, &data, ts(10), MTU);
    assert!(transfer.is_some());

    let transfer = gather.push_frame(TIMEOUT, &mut buffer, PRIORITY, &data, ts(20), MTU);
    assert!(transfer.is_none());

    let transfer = gather.push_frame(TIMEOUT, &mut buffer, PRIORITY, &data, ts(2_000_011), MTU);
    assert!(transfer.is_some());
}

#[test]
fn test_transfer_separated_by_another() {
    let mut gather = Gather::default();
    let mut buffer = [0xff; 8];

    let data0 = [0, 1, 2, 3, 0b1110_0000 + 27];
    let transfer = gather.push_frame(TIMEOUT, &mut buffer, PRIORITY, &data0, ts(10), MTU);
    assert!(transfer.is_some());

    let data1 = [0, 1, 2, 3, 0b1110_0000 + 28];
    let transfer = gather.push_frame(TIMEOUT, &mut buffer, PRIORITY, &data1, ts(10), MTU);
    assert!(transfer.is_some());

    let transfer = gather.push_frame(TIMEOUT, &mut buffer, PRIORITY, &data0, ts(10), MTU);
    assert!(transfer.is_some());
}

#[test]
fn test_multi_frame_transfer_interrupted_by_another() {
    let mut buffer = [0xff; 16];

    let data0 = [0, 1, 2, 3, 4, 5, 6, 0b1010_0000 + 27];
    let data1 = [7, 0x17, 0x8d, 0b0100_0000 + 27];
    let data_another = [0b0000_0000 + 28];

    let mut gather = Gather::default();
    let transfer = gather.push_frame(TIMEOUT, &mut buffer, PRIORITY, &data0, ts(10), MTU);
    assert!(transfer.is_none());
    let transfer = gather.push_frame(TIMEOUT, &mut buffer, PRIORITY, &data1, ts(10), MTU);
    assert!(transfer.is_some());

    let mut gather = Gather::default();
    let transfer = gather.push_frame(TIMEOUT, &mut buffer, PRIORITY, &data0, ts(10), MTU);
    assert!(transfer.is_none());
    let transfer =
        gather.push_frame(TIMEOUT, &mut buffer, PRIORITY, &data_another, ts(10), MTU);
    assert!(transfer.is_none());
    let transfer = gather.push_frame(TIMEOUT, &mut buffer, PRIORITY, &data1, ts(10), MTU);
    assert!(transfer.is_none());
}

#[test]
fn test_multi_frame_transfer_interrupted_timeout() {
    let mut buffer = [0xff; 16];

    let data0 = [0, 1, 2, 3, 4, 5, 6, 0b1010_0000 + 27];
    let data1 = [7, 0x17, 0x8d, 0b0100_0000 + 27];

    let mut gather = Gather::default();
    let transfer = gather.push_frame(TIMEOUT, &mut buffer, PRIORITY, &data0, ts(10), MTU);
    assert!(transfer.is_none());
    let transfer = gather.push_frame(TIMEOUT, &mut buffer, PRIORITY, &data1, ts(10), MTU);
    assert!(transfer.is_some());

    let mut gather = Gather::default();
    let transfer = gather.push_frame(TIMEOUT, &mut buffer, PRIORITY, &data0, ts(10), MTU);
    assert!(transfer.is_none());
    let transfer =
        gather.push_frame(TIMEOUT, &mut buffer, PRIORITY, &data1, ts(2_000_020), MTU);
    assert!(transfer.is_none());
}

#[test]
fn test_assembly_from_second_replica() {
    let mut buffer = [0xff; 16];

    let data0 = [0, 1, 2, 3, 4, 5, 6, 0b1010_0000 + 27];
    let data1 = [7, 0x17, 0x8d, 0b0100_0000 + 27];

    let mut gather = Gather::default();
    let transfer = gather.push_frame(TIMEOUT, &mut buffer, PRIORITY, &data0, ts(10), MTU);
    assert!(transfer.is_none());
    let transfer = gather.push_frame(TIMEOUT, &mut buffer, PRIORITY, &data0, ts(10), MTU);
    assert!(transfer.is_none());
    let transfer = gather.push_frame(TIMEOUT, &mut buffer, PRIORITY, &data1, ts(10), MTU);
    assert!(transfer.is_some());
}

#[test]
fn short_frame_stops_assembly() {
    let data0 = [0, 1, 2, 3, 4, 5, 6, 0b1010_0000 + 27];
    let data1 = [7, 8, 9, 10, 11, 12, 13, 27];
    let data2 = [14, 0xd5, 0x51, 0b0110_0000 + 27];
    let mut buffer = [0xff; 32];
    let mut push = |gather: &mut Gather, data: &[u8]| {
        gather.push_frame(TIMEOUT, &mut buffer, PRIORITY, data, ts(10), MTU)
    };

    // A repeated full frame is ignored
    let mut gather = Gather::default();
    assert!(push(&mut gather, &data0).is_none());
    assert!(push(&mut gather, &data1).is_none());
    assert!(push(&mut gather, &data1).is_none());
    assert_eq!(push(&mut gather, &data2).map(|t| t.length), Some(15));

    // A frame that is neither full nor the last one is an error, whatever its toggle bit is
    for short in [vec![0, 27], vec![0, 0b0010_0000 + 27], vec![27]] {
        let mut gather = Gather::default();
        assert!(push(&mut gather, &data0).is_none());
        assert!(push(&mut gather, &data1).is_none());
        assert!(push(&mut gather, &short).is_none());
        assert_eq!(push(&mut gather, &data2), None);
    }

    // A complete transfer is not affected
    let mut gather = Gather::default();
    assert!(push(&mut gather, &[1, 0b1110_0000 + 27]).is_some());
    assert!(push(&mut gather, &[0, 27]).is_none());
    assert!(push(&mut gather, &[1, 0b1110_0000 + 27]).is_none());
}

#[test]
fn accumulator_checks_last_bytes() {
    let payload: Vec<u8> = (0..20).collect();
    let mut crc = TransferCrc::default();
    crc.add_bytes(&payload);
    let mut buffer = [0; 16];

    let mut acc = PayloadAccumulator::default();
    assert_eq!(acc.try_get(), Err(()));
    assert_eq!(acc.append(&mut buffer, &payload[..7]), Ok(()));
    assert_eq!(acc.append(&mut buffer, &payload[7..]), Ok(()));
    assert_eq!(acc.try_get(), Err(()));
    let mut wrong = acc;
    assert_eq!(acc.append(&mut buffer, &crc.to_bytes()), Ok(()));
    assert_eq!(acc.try_get(), Ok(20));
    assert_eq!(buffer[..], payload[..16]);
    assert_eq!(wrong.append(&mut buffer, &[0, 0]), Ok(()));
    assert_eq!(wrong.try_get(), Err(()));
}
