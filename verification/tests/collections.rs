//! Queues, maps and arrays.

use emcyphal::buffer::gather::Gather;
use emcyphal::buffer::scatter::Scatter;
use emcyphal::format::TransferCrc;
use emcyphal::frame::Mtu;
use emcyphal::ids::{NodeId, TransferId};
use emcyphal::priority::{Priority, PrioritySet};
use emcyphal::time::{Duration, Instant};
use emcyphal::utils::byte_stack::ByteStack;
use emcyphal::utils::id_map::IdMap;
use emcyphal::utils::index_queue::IndexQueue;
use emcyphal::utils::multi_class_queue::MultiClassQueue;
use emcyphal::utils::priority_map::{PriorityArray, PriorityMap};
use emcyphal::utils::priority_queue::PriorityQueue;
use emcyphal::utils::stacked_array::{DuplexArray, TriplexArray};

#[test]
fn byte_stack_is_bounded() {
    let mut stack = ByteStack::new();
    assert_eq!(stack.pop(), None);
    for i in 0..=255 {
        assert_eq!(stack.push(i), Ok(()));
    }
    assert_eq!(stack.push(7), Err(7));
    assert_eq!(stack.pop(), Some(255));
    assert_eq!(stack.pop(), Some(254));
}

#[test]
fn id_map_finds_values() {
    let mut map = IdMap::new();
    map.insert(5, 'a');
    map.insert(2, 'b');
    assert!(map.contains(5));
    *map.get_mut(5) = 'c';
    assert_eq!(*map.get(5), 'c');
    assert_eq!(map.remove(2), 'b');
    assert!(!map.contains(2));
}

#[test]
fn index_queue_keeps_an_order() {
    let id = |n| NodeId::new(n).unwrap();
    let mut queue = IndexQueue::<NodeId, char, 128, 2>::new();
    assert_eq!(queue.insert(id(10), 'a'), Ok(None));
    assert_eq!(queue.insert(id(20), 'b'), Ok(None));
    assert_eq!(queue.insert(id(30), 'c'), Err((id(30), 'c')));
    assert!(queue.enqueue_back(id(10)).is_ok());
    assert!(queue.enqueue_back(id(20)).is_ok());
    assert!(queue.enqueue_back(id(30)).is_err());
    assert_eq!(queue.front(), Some(id(10)));
    assert!(queue.enqueue_back(id(10)).is_ok());
    assert_eq!(queue.front(), Some(id(20)));
    assert_eq!(queue.back(), Some(id(10)));
    assert!(queue.dequeue(id(20)).is_ok());
    assert_eq!(queue.front(), Some(id(10)));
    assert_eq!(queue.remove(id(10)), Some('a'));
    assert_eq!(queue.remove(id(10)), None);
    assert_eq!(queue.get(id(20)), Some(&'b'));
    assert_eq!(queue.front(), None);
}

#[test]
fn multi_class_queue_moves_entries() {
    let mut queue = MultiClassQueue::<2, 3>::new();
    queue.move_back(0, 0);
    queue.move_back(0, 1);
    queue.move_front(0, 2);
    assert_eq!(queue.front(0), Some(2));
    assert_eq!(queue.back(0), Some(1));
    queue.move_back(1, 2);
    assert_eq!(queue.front(0), Some(0));
    assert_eq!(queue.is_front(2), Some(1));
    queue.remove(2);
    assert!(queue.is_empty(1));
}

#[test]
fn priority_queue_is_fifo() {
    let mut queue = PriorityQueue::<u8, 3>::new();
    assert_eq!(queue.push(Priority::High, 1), Ok(()));
    assert_eq!(queue.push(Priority::Low, 2), Ok(()));
    assert_eq!(queue.push(Priority::High, 3), Ok(()));
    assert_eq!(queue.push(Priority::High, 4), Err(4));
    assert_eq!(queue.max_priority(), Some(Priority::Low));
    assert_eq!(queue.pop(Priority::High), Some(1));
    assert_eq!(queue.pop(Priority::High), Some(3));
    assert_eq!(queue.pop(Priority::High), None);
    assert_eq!(queue.priorities(), PrioritySet::new_eq(Priority::Low));
}

#[test]
fn priority_maps_and_arrays() {
    let mut map = PriorityMap::new();
    assert_eq!(map.insert(Priority::Fast, 1), None);
    assert_eq!(map.insert(Priority::Fast, 2), Some(1));
    assert_eq!(map.keys(), PrioritySet::new_eq(Priority::Fast));
    *map.get_mut(Priority::Fast) = 3;
    assert_eq!(*map.get(Priority::Fast), 3);
    assert_eq!(map.remove(Priority::Fast), Some(3));
    assert!(map.is_empty());

    let mut array = PriorityArray::repeat(0);
    array.set(Priority::Optional, 9);
    assert_eq!(*array.get(Priority::Optional), 9);
    assert_eq!(*array.get(Priority::Slow), 0);
    let codes = PriorityArray::from_fn(|p| p.into_u8());
    assert_eq!(*codes.get(Priority::High), 3);
}

#[test]
fn stacked_arrays_have_summed_lengths() {
    let array = DuplexArray::<usize, 2, 3>::from_fn(|i| i * i);
    assert_eq!(array.len(), 5);
    assert_eq!(*array.get(4), 16);
    assert_eq!(array[..2], [0, 1]);
    let array = TriplexArray::<usize, 1, 2, 3>::from_fn(|i| i);
    assert_eq!(array.into_vec(), [0, 1, 2, 3, 4, 5]);
}

#[test]
fn what_is_scattered_is_gathered() {
    for mtu in [Mtu::Classic, Mtu::Fd] {
        for length in 0..200usize {
            let payload: Vec<u8> = (0..length).map(|i| (i * 7 + 3) as u8).collect();
            let mut crc = TransferCrc::default();
            crc.add_bytes(&payload);
            let id = TransferId::from_u8_truncating(length as u8);
            let mut scatter = Scatter::new(id, &payload, payload.len(), crc);
            let mut gather = Gather::default();
            let mut buffer = [0xaa; 256];
            let mut done = None;
            while let Some(data) = scatter.fetch_frame_data(&payload, mtu) {
                assert!(done.is_none());
                done = gather.push_frame(
                    Duration::from_ticks(1000),
                    &mut buffer,
                    Priority::Nominal,
                    data.as_slice(),
                    Instant::from_ticks(5),
                    mtu,
                );
            }
            let transfer = done.unwrap();
            assert_eq!(transfer.id, id);
            assert_eq!(transfer.timestamp, Instant::from_ticks(5));
            assert!(transfer.length as usize >= length);
            assert_eq!(buffer[..length], payload[..]);
            // What follows is padding
            assert!(buffer[length..transfer.length as usize].iter().all(|b| *b == 0));
            assert!(scatter.is_exhausted());
        }
    }
}

#[test]
fn priority_queue_entries_can_be_modified() {
    let mut queue = PriorityQueue::<u8, 3>::new();
    assert!((0..3).all(|entry| queue.get_value_mut(entry).is_none()));
    assert_eq!(queue.push(Priority::High, 1), Ok(()));
    assert_eq!(queue.push(Priority::Low, 2), Ok(()));
    let mut held = 0;
    for entry in 0..3 {
        if let Some(value) = queue.get_value_mut(entry) {
            *value += 10;
            held += 1;
        }
    }
    assert_eq!(held, 2);
    assert_eq!(queue.pop(Priority::High), Some(11));
    assert_eq!(queue.pop(Priority::Low), Some(12));
    assert!((0..3).all(|entry| queue.get_value_mut(entry).is_none()));
}
