//! Transmit buffer whose message can be replaced.

use emcyphal::buffer::tx_msg::signal::Inner;
use emcyphal::buffer::DynamicTxBuffer;
use emcyphal::data_types::{ByteArray, Empty};
use emcyphal::encoding::{BufferType, Serialize};
use emcyphal::endpoint::TransferMeta;
use emcyphal::format::TransferCrc;
use emcyphal::frame::{Data, DataSpecifier, Frame, Header, Mtu};
use emcyphal::ids::{SubjectId, TransferId};
use emcyphal::priority::{Priority, PrioritySet};
use emcyphal::task::Poll;
use emcyphal::time::Instant;
use heapless::Vec;
use std::sync::atomic::{AtomicUsize, Ordering};
use std::sync::Arc;
use std::task::{Wake, Waker};

fn make_buffer<T: BufferType>() -> Inner<T> {
    let mut buffers = std::vec::Vec::new();
    buffers.push(T::new_buffer());
    buffers.push(T::new_buffer());
    Inner::new(subject(), PRIORITY, buffers)
}

const PRIORITY: Priority = Priority::Nominal;
const DEADLINE: Instant = Instant { ticks: 100_000 };
const MTU: Mtu = Mtu::Classic;
const LOOP_BACK: bool = false;

fn subject() -> SubjectId {
    SubjectId::from_u16_truncating(100)
}

fn priority_mask() -> PrioritySet {
    PrioritySet::new_eq(PRIORITY)
}

struct Count(AtomicUsize);

impl Count {
    fn get(&self) -> usize {
        self.0.load(Ordering::SeqCst)
    }
}

impl Wake for Count {
    fn wake(self: Arc<Self>) {
        self.0.fetch_add(1, Ordering::SeqCst);
    }
}

fn new_count_waker() -> (Waker, Arc<Count>) {
    let count = Arc::new(Count(AtomicUsize::new(0)));
    (Waker::from(count.clone()), count)
}

fn push_transfer<T: Serialize>(
    buffer: &mut impl DynamicTxBuffer,
    payload: &T,
    transfer_id: TransferId,
) -> Result<(), ()> {
    let (priorities, scratchpad) = buffer.get_scratchpad().ok_or(())?;
    if !priorities.contains(PRIORITY) {
        return Err(());
    }
    payload.serialize_to_bytes(scratchpad);
    let length = payload.size_bits().div_ceil(8);
    let mut crc: TransferCrc = Default::default();
    crc.add_bytes(&scratchpad[..length]);
    let meta = TransferMeta {
        priority: PRIORITY,
        address: None,
        transfer_id,
        timestamp: DEADLINE,
        loop_back: LOOP_BACK,
    };
    buffer.try_push(meta, length, crc).unwrap();
    Ok(())
}

fn tid(value: u8) -> TransferId {
    TransferId::from_u8_truncating(value)
}

#[test]
fn signal_test_single_frame_transfer() {
    let mut buffer = make_buffer::<ByteArray>();
    let msg = ByteArray {
        bytes: Vec::from_slice(&[0, 1, 2, 3]).unwrap(),
    };

    assert_eq!(buffer.push_readiness(), priority_mask());
    assert_eq!(buffer.pop_readiness(), PrioritySet::none());
    let frame = buffer.try_pop(PrioritySet::all(), MTU);
    assert_eq!(frame, None);

    push_transfer(&mut buffer, &msg, tid(0)).unwrap();

    assert_eq!(buffer.pop_readiness(), priority_mask());

    let frame = buffer.try_pop(PrioritySet::all(), MTU);
    assert_eq!(
        frame,
        Some(Frame {
            header: Header {
                priority: PRIORITY,
                data_spec: DataSpecifier::Message(subject()),
                source: None,
                destination: None,
            },
            data: Data::new(&[4, 0, 0, 1, 2, 3, 0b1110_0000]).unwrap(),
            timestamp: DEADLINE,
            loop_back: LOOP_BACK,
        })
    );

    assert_eq!(buffer.pop_readiness(), PrioritySet::none());
    let frame = buffer.try_pop(PrioritySet::all(), MTU);
    assert_eq!(frame, None);
}

#[test]
fn signal_test_multiframe_transfer() {
    let mut buffer = make_buffer::<ByteArray>();
    let msg = ByteArray {
        bytes: Vec::from_slice(&[0, 1, 2, 3, 4, 5]).unwrap(),
    };

    assert_eq!(buffer.push_readiness(), priority_mask());
    assert_eq!(buffer.pop_readiness(), PrioritySet::none());
    let frame = buffer.try_pop(PrioritySet::all(), MTU);
    assert_eq!(frame, None);

    push_transfer(&mut buffer, &msg, tid(0)).unwrap();

    assert_eq!(buffer.pop_readiness(), priority_mask());
    let frame = buffer.try_pop(PrioritySet::all(), MTU).unwrap();
    assert_eq!(frame.data.as_slice(), [6, 0, 0, 1, 2, 3, 4, 0b1010_0000]);

    assert_eq!(buffer.pop_readiness(), priority_mask());
    let frame = buffer.try_pop(PrioritySet::all(), MTU).unwrap();
    assert_eq!(frame.data.as_slice(), [5, 0x33, 0xfd, 0b0100_0000]);

    assert_eq!(buffer.pop_readiness(), PrioritySet::none());
    assert_eq!(buffer.try_pop(PrioritySet::all(), MTU), None);
}

#[test]
fn test_replace() {
    let mut buffer = make_buffer::<Empty>();

    let msg = Empty {};
    push_transfer(&mut buffer, &msg, tid(0)).unwrap();
    push_transfer(&mut buffer, &msg, tid(1)).unwrap();

    let frame = buffer.try_pop(priority_mask(), MTU).unwrap();
    assert_eq!(frame.data.as_slice(), [0b1110_0000 + 1]);

    let res = buffer.try_pop(priority_mask(), MTU);
    assert_eq!(res, None);
}

#[test]
fn test_replace_concurrent() {
    let mut buffer = make_buffer::<Empty>();

    let msg = Empty {};
    push_transfer(&mut buffer, &msg, tid(0)).unwrap();

    // Get scratchpad for replacement
    buffer.get_scratchpad().unwrap();

    // Send previous message during replacement
    let frame = buffer.try_pop(priority_mask(), MTU).unwrap();
    assert_eq!(frame.data.as_slice(), [0b1110_0000 + 0]);

    push_transfer(&mut buffer, &msg, tid(1)).unwrap();

    let frame = buffer.try_pop(priority_mask(), MTU).unwrap();
    assert_eq!(frame.data.as_slice(), [0b1110_0000 + 1]);

    let res = buffer.try_pop(priority_mask(), MTU);
    assert_eq!(res, None);
}

#[test]
fn test_replace_multiframe() {
    let mut buffer = make_buffer::<ByteArray>();

    let msg = ByteArray {
        bytes: Vec::from_slice(&[0, 1, 2, 3, 4, 5, 6, 7, 8]).unwrap(),
    };
    push_transfer(&mut buffer, &msg, tid(0)).unwrap();

    // Start multi-frame transmission
    let frame = buffer.try_pop(priority_mask(), MTU).unwrap();
    assert_eq!(*frame.data.as_slice().last().unwrap(), 0b1010_0000 + 0);

    push_transfer(&mut buffer, &msg, tid(1)).unwrap();
    push_transfer(&mut buffer, &msg, tid(2)).unwrap();

    // The started multi-frame transmission should complete anyway
    let frame = buffer.try_pop(priority_mask(), MTU).unwrap();
    assert_eq!(*frame.data.as_slice().last().unwrap(), 0b0100_0000 + 0);

    // Second message is replaced
    let frame = buffer.try_pop(priority_mask(), MTU).unwrap();
    assert_eq!(*frame.data.as_slice().last().unwrap(), 0b1010_0000 + 2);

    let frame = buffer.try_pop(priority_mask(), MTU).unwrap();
    assert_eq!(*frame.data.as_slice().last().unwrap(), 0b0100_0000 + 2);

    let res = buffer.try_pop(priority_mask(), MTU);
    assert_eq!(res, None);
}

#[test]
fn test_replace_multiframe_concurrent() {
    let mut buffer = make_buffer::<ByteArray>();

    let msg = ByteArray {
        bytes: Vec::from_slice(&[0, 1, 2, 3, 4, 5, 6, 7, 8]).unwrap(),
    };
    push_transfer(&mut buffer, &msg, tid(0)).unwrap();

    // Start multi-frame transmission
    let frame = buffer.try_pop(priority_mask(), MTU).unwrap();
    assert_eq!(*frame.data.as_slice().last().unwrap(), 0b1010_0000 + 0);

    push_transfer(&mut buffer, &msg, tid(1)).unwrap();

    // Get scratchpad for the third transfer
    buffer.get_scratchpad().unwrap();

    // Complete the started transfer anyway
    let frame = buffer.try_pop(priority_mask(), MTU).unwrap();
    assert_eq!(*frame.data.as_slice().last().unwrap(), 0b0100_0000 + 0);

    // Only single transfer (complete or incomplete) can be sent during update
    let res = buffer.try_pop(priority_mask(), MTU);
    assert_eq!(res, None);
}

#[test]
fn signal_test_empty() {
    let (waker, count) = new_count_waker();
    let cx = &waker;
    assert_eq!(count.get(), 0);

    let mut buffer = make_buffer::<Empty>();
    let msg = Empty {};

    assert_eq!(buffer.is_empty(), true);
    assert_eq!(buffer.poll_is_empty(cx), Poll::Ready(()));
    assert_eq!(count.get(), 0);

    push_transfer(&mut buffer, &msg, tid(0)).unwrap();

    assert_eq!(buffer.is_empty(), false);
    assert_eq!(buffer.poll_is_empty(cx), Poll::Pending);
    assert_eq!(count.get(), 0);

    buffer.try_pop(priority_mask(), MTU).unwrap();

    assert_eq!(buffer.is_empty(), true);
    assert_eq!(count.get(), 1);
}
