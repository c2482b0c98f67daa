//! Receive buffer with a queue for each priority.

use emcyphal::buffer::rx_priority_fifo::RxPriorityFifoInner;
use emcyphal::buffer::DynamicRxBuffer;
use emcyphal::data_types::ByteArray;
use emcyphal::encoding::{BufferType, Deserialize};
use emcyphal::endpoint::{Transfer, TransferMeta};
use emcyphal::frame::{Data, DataSpecifier, Frame, Header, Mtu};
use emcyphal::ids::{NodeId, SubjectId, TransferId};
use emcyphal::priority::{Priority, PrioritySet};
use emcyphal::time::{Duration, Instant};
use heapless::Vec;

fn make_buffer<T: BufferType, const SN: usize, const TN: usize>(
    timeout: Duration,
) -> RxPriorityFifoInner<T, SN, TN> {
    let buffers = (0..SN + TN + 1).map(|_| T::new_buffer()).collect();
    RxPriorityFifoInner::new(data_spec(), timeout, buffers)
}

const TIMEOUT: Duration = Duration { ticks: 2_000_000 };
const MTU: Mtu = Mtu::Classic;

fn ts(us: u64) -> Instant {
    Instant::min().saturating_add(Duration::from_ticks(us))
}

fn pop_transfer<T: Deserialize>(
    buffer: &mut impl DynamicRxBuffer,
    priority_mask: PrioritySet,
) -> Option<Transfer<T>> {
    let (meta, buf) = buffer.try_pop(priority_mask)?;
    let payload = T::deserialize_from_bytes(buf).unwrap();
    Some(Transfer { meta, payload })
}

fn data_spec() -> DataSpecifier {
    DataSpecifier::Message(SubjectId::from_u16_truncating(0))
}

fn make_frame(
    priority: Priority,
    source: Option<NodeId>,
    data: &[u8],
    timestamp: Instant,
) -> Frame {
    Frame {
        header: Header {
            priority,
            data_spec: data_spec(),
            source,
            destination: None,
        },
        data: Data::new(data).unwrap(),
        timestamp,
        loop_back: false,
    }
}

#[test]
fn rx_priority_fifo_test_anonymous_transfer() {
    let mut buffer = make_buffer::<ByteArray, 10, 10>(TIMEOUT);

    assert_eq!(
        pop_transfer::<ByteArray>(&mut buffer, PrioritySet::all()),
        None
    );

    let data = [4, 0, 0, 1, 2, 3, 0b1110_0000 + 27];
    buffer.push_frame(&make_frame(Priority::High, None, &data, ts(10)), MTU);

    let transfer = Transfer {
        meta: TransferMeta {
            address: None,
            transfer_id: TransferId::try_from(27).unwrap(),
            priority: Priority::High,
            timestamp: ts(10),
            loop_back: false,
        },
        payload: ByteArray {
            bytes: Vec::from_slice(&[0, 1, 2, 3]).unwrap(),
        },
    };

    assert_eq!(
        pop_transfer(&mut buffer, PrioritySet::all()),
        Some(transfer)
    )
}

#[test]
fn rx_priority_fifo_test_regular_transfer() {
    let node = NodeId::try_from(10).unwrap();

    let mut buffer = make_buffer::<ByteArray, 10, 10>(TIMEOUT);

    assert_eq!(
        pop_transfer::<ByteArray>(&mut buffer, PrioritySet::all()),
        None
    );

    let data = [4, 0, 0, 1, 2, 3, 0b1110_0000 + 27];
    buffer.push_frame(&make_frame(Priority::High, Some(node), &data, ts(10)), MTU);

    let transfer = Transfer {
        meta: TransferMeta {
            address: Some(node),
            transfer_id: TransferId::try_from(27).unwrap(),
            priority: Priority::High,
            timestamp: ts(10),
            loop_back: false,
        },
        payload: ByteArray {
            bytes: Vec::from_slice(&[0, 1, 2, 3]).unwrap(),
        },
    };

    assert_eq!(
        pop_transfer(&mut buffer, PrioritySet::all()),
        Some(transfer)
    )
}

#[test]
fn rx_priority_fifo_test_multiframe_transfer() {
    let node = NodeId::try_from(10).unwrap();

    let mut buffer = make_buffer::<ByteArray, 10, 10>(TIMEOUT);

    assert_eq!(
        pop_transfer::<ByteArray>(&mut buffer, PrioritySet::all()),
        None
    );

    let data = [6, 0, 0, 1, 2, 3, 4, 0b1010_0000 + 27];
    buffer.push_frame(&make_frame(Priority::High, Some(node), &data, ts(10)), MTU);
    assert_eq!(
        pop_transfer::<ByteArray>(&mut buffer, PrioritySet::all()),
        None
    );

    let data = [5, 0x33, 0xfd, 0b0100_0000 + 27];
    buffer.push_frame(&make_frame(Priority::High, Some(node), &data, ts(10)), MTU);
    let transfer = Transfer {
        meta: TransferMeta {
            address: Some(node),
            transfer_id: TransferId::try_from(27).unwrap(),
            priority: Priority::High,
            timestamp: ts(10),
            loop_back: false,
        },
        payload: ByteArray {
            bytes: Vec::from_slice(&[0, 1, 2, 3, 4, 5]).unwrap(),
        },
    };

    assert_eq!(
        pop_transfer(&mut buffer, PrioritySet::all()),
        Some(transfer)
    )
}

#[test]
fn rx_priority_fifo_test_interleaved_transfer() {
    let node_a = NodeId::try_from(10).unwrap();
    let node_b = NodeId::try_from(20).unwrap();

    let mut buffer = make_buffer::<ByteArray, 10, 10>(TIMEOUT);

    assert_eq!(
        pop_transfer::<ByteArray>(&mut buffer, PrioritySet::all()),
        None
    );

    let data0 = [6, 0, 0, 1, 2, 3, 4, 0b1010_0000 + 27];
    let data1 = [5, 0x33, 0xfd, 0b0100_0000 + 27];
    let message = || ByteArray {
        bytes: Vec::from_slice(&[0, 1, 2, 3, 4, 5]).unwrap(),
    };

    buffer.push_frame(
        &make_frame(Priority::High, Some(node_a), &data0, ts(10)),
        MTU,
    );
    assert_eq!(
        pop_transfer::<ByteArray>(&mut buffer, PrioritySet::all()),
        None
    );

    buffer.push_frame(
        &make_frame(Priority::High, Some(node_b), &data0, ts(10)),
        MTU,
    );
    assert_eq!(
        pop_transfer::<ByteArray>(&mut buffer, PrioritySet::all()),
        None
    );

    buffer.push_frame(
        &make_frame(Priority::High, Some(node_a), &data1, ts(10)),
        MTU,
    );
    assert_eq!(
        pop_transfer(&mut buffer, PrioritySet::all()),
        Some(Transfer {
            meta: TransferMeta {
                address: Some(node_a),
                transfer_id: TransferId::try_from(27).unwrap(),
                priority: Priority::High,
                timestamp: ts(10),
                loop_back: false,
            },
            payload: message(),
        })
    );

    buffer.push_frame(
        &make_frame(Priority::High, Some(node_b), &data1, ts(10)),
        MTU,
    );
    assert_eq!(
        pop_transfer(&mut buffer, PrioritySet::all()),
        Some(Transfer {
            meta: TransferMeta {
                address: Some(node_b),
                transfer_id: TransferId::try_from(27).unwrap(),
                priority: Priority::High,
                timestamp: ts(10),
                loop_back: false,
            },
            payload: message(),
        })
    );

    assert_eq!(
        pop_transfer::<ByteArray>(&mut buffer, PrioritySet::all()),
        None
    );
}

#[test]
fn test_output_order() {
    let node_a = NodeId::try_from(10).unwrap();
    let node_b = NodeId::try_from(20).unwrap();
    let node_c = NodeId::try_from(30).unwrap();

    let mut buffer = make_buffer::<ByteArray, 10, 10>(TIMEOUT);

    let data = [4, 0, 1, 2, 3, 0b1110_0000 + 27];

    buffer.push_frame(
        &make_frame(Priority::Nominal, Some(node_a), &data, ts(10)),
        MTU,
    );
    buffer.push_frame(
        &make_frame(Priority::Nominal, Some(node_b), &data, ts(20)),
        MTU,
    );
    buffer.push_frame(
        &make_frame(Priority::High, Some(node_c), &data, ts(30)),
        MTU,
    );

    let transfer =
        pop_transfer::<ByteArray>(&mut buffer, PrioritySet::all()).unwrap();
    assert_eq!(transfer.meta.address, Some(node_c));

    let transfer =
        pop_transfer::<ByteArray>(&mut buffer, PrioritySet::all()).unwrap();
    assert_eq!(transfer.meta.address, Some(node_a));

    let transfer =
        pop_transfer::<ByteArray>(&mut buffer, PrioritySet::all()).unwrap();
    assert_eq!(transfer.meta.address, Some(node_b));
}

#[test]
fn test_drop_order() {
    let node_a = NodeId::try_from(10).unwrap();
    let node_b = NodeId::try_from(20).unwrap();
    let node_c = NodeId::try_from(30).unwrap();

    let mut buffer = make_buffer::<ByteArray, 10, 2>(TIMEOUT);

    let data = [4, 0, 1, 2, 3, 0b1110_0000 + 27];
    buffer.push_frame(
        &make_frame(Priority::High, Some(node_a), &data, ts(10)),
        MTU,
    );
    buffer.push_frame(
        &make_frame(Priority::Nominal, Some(node_b), &data, ts(20)),
        MTU,
    );
    buffer.push_frame(
        &make_frame(Priority::Nominal, Some(node_c), &data, ts(30)),
        MTU,
    );

    let transfer =
        pop_transfer::<ByteArray>(&mut buffer, PrioritySet::all()).unwrap();
    assert_eq!(transfer.meta.address, Some(node_a));

    let transfer =
        pop_transfer::<ByteArray>(&mut buffer, PrioritySet::all()).unwrap();
    assert_eq!(transfer.meta.address, Some(node_c));

    assert_eq!(
        pop_transfer::<ByteArray>(&mut buffer, PrioritySet::all()),
        None
    );
}
