//! Sockets of a node, together with the driver side of the node.

use emcyphal::buffer::either::AsSecond;
use emcyphal::buffer::rx_msg::PriorityFifo as MessageFifo;
use emcyphal::buffer::rx_priority_fifo::RxPriorityFifoInner;
use emcyphal::buffer::rx_req::PriorityFifo as RequestFifo;
use emcyphal::buffer::tx_msg::blocking::Inner as BlockingInner;
use emcyphal::buffer::tx_msg::Blocking;
use emcyphal::buffer::tx_resp::blocking::ResponseBufferInner;
use emcyphal::buffer::tx_resp::Blocking as ResponseBlocking;
use emcyphal::data_types::node::{Health, Heartbeat, Mode};
use emcyphal::data_types::ByteArray;
use emcyphal::encoding::Deserialize;
use emcyphal::endpoint::{Rx, Transfer, TransferMeta, Tx};
use emcyphal::frame::{Data, DataSpecifier, Frame, Header, Mtu};
use emcyphal::ids::{NodeId, ServiceId, SubjectId, TransferId};
use emcyphal::link::{DynamicRx, DynamicRxFilter, DynamicTx, FilterUpdate};
use emcyphal::node::minimal_node::HeartbeatBuffer;
use emcyphal::node::{CoreNode, MinimalNode, Status};
use emcyphal::priority::{Priority, PrioritySet};
use emcyphal::registry::RegistrationError;
use emcyphal::socket::{MessageError, Publisher, Responder, ResponderStep, Subscriber};
use emcyphal::task::Poll;
use emcyphal::time::{Duration, Instant};
use std::sync::Arc;
use std::task::{Wake, Waker};

const MTU: Mtu = Mtu::Classic;
const PRIORITY: Priority = Priority::Nominal;
const TIMEOUT: Duration = Duration { ticks: 2_000_000 };

type MessageIn = RxPriorityFifoInner<ByteArray, 10, 10>;
type RequestIn = RxPriorityFifoInner<ByteArray, 10, 10>;
type MessageOut = BlockingInner<ByteArray>;
type ResponseOut = ResponseBufferInner<ByteArray>;
type Node = CoreNode<MessageIn, RequestIn, MessageOut, ResponseOut>;

struct Idle;

impl Wake for Idle {
    fn wake(self: Arc<Self>) {}
}

fn waker() -> Waker {
    Waker::from(Arc::new(Idle))
}

fn ts(us: u64) -> Instant {
    Instant::min().saturating_add(Duration::from_ticks(us))
}

fn node_id(value: u8) -> NodeId {
    NodeId::new(value).unwrap()
}

fn subject(value: u16) -> SubjectId {
    SubjectId::new(value).unwrap()
}

fn bytes(values: &[u8]) -> ByteArray {
    ByteArray {
        bytes: heapless::Vec::from_slice(values).unwrap(),
    }
}

fn message(id: u16, priority: Priority, data: &[u8]) -> Frame {
    Frame {
        header: Header {
            priority,
            data_spec: DataSpecifier::Message(subject(id)),
            destination: None,
            source: Some(node_id(0x0a)),
        },
        data: Data::new(data).unwrap(),
        timestamp: ts(1000),
        loop_back: false,
    }
}

#[test]
fn test_heartbeat() {
    let mut node =
        MinimalNode::<MessageIn, RequestIn, MessageOut, ResponseOut>::new(node_id(10), Default::default(), 0);
    let (state, mut runner) = node.split();
    runner.publish(state);

    let Poll::Ready(frame) =
        state
            .link_mut()
            .poll_pop(&waker(), PrioritySet::new_eq(Priority::Nominal), Mtu::Classic)
    else {
        panic!("no heartbeat");
    };
    assert_eq!(frame.header.data_spec, DataSpecifier::Message(subject(7509)));
}

#[test]
fn test_tx() {
    let mut node = Node::new(node_id(10), 0);
    let mut publisher = Publisher::create(
        &mut node.hub_mut().tx_msg,
        Blocking::<ByteArray>::new(),
        SubjectId::try_from(0x1a).unwrap(),
        PRIORITY,
        Duration::from_secs(2),
        false,
    )
    .unwrap();
    publisher
        .try_push(&mut node.hub_mut().tx_msg, bytes(&[0x02]))
        .unwrap();

    let Poll::Ready(frame) = node.poll_pop(&waker(), PrioritySet::new_eq(PRIORITY), MTU) else {
        panic!("no frame");
    };
    assert_eq!(
        frame.header,
        Header {
            priority: PRIORITY,
            data_spec: DataSpecifier::Message(SubjectId::from_u16_truncating(0x1a)),
            destination: None,
            source: Some(NodeId::from_u8_truncating(0x0a)),
        }
    );
    assert_eq!(frame.data.as_slice(), [0x01, 0x00, 0x02, 0b1110_0000]);
}

#[test]
fn responder_test_rx() {
    let requester = NodeId::from_u8_truncating(10);
    let responder_node = NodeId::from_u8_truncating(20);
    let service = ServiceId::from_u16_truncating(100);

    let mut node = Node::new(responder_node, 1);
    let hub = node.hub_mut();
    let responder = Responder::create(
        &mut hub.rx_req,
        &mut hub.tx_resp,
        RequestFifo::<ByteArray, 10, 10>::new(),
        ResponseBlocking::<ByteArray>::new(),
        service,
        TIMEOUT,
        TIMEOUT,
    )
    .unwrap();

    assert_eq!(
        node.poll_pop_filter(&waker()),
        Poll::Ready(FilterUpdate::AddDestination(responder_node))
    );
    let frame = Frame {
        header: Header {
            priority: PRIORITY,
            data_spec: DataSpecifier::Request(service),
            destination: Some(responder_node),
            source: Some(requester),
        },
        data: Data::new(&[0x01, 0x00, 0x02, 0b1110_0101]).unwrap(),
        timestamp: ts(1000),
        loop_back: false,
    };
    assert_eq!(node.poll_push(&frame, MTU), Poll::Ready(()));

    let hub = node.hub_mut();
    let Poll::Ready(requests) = responder.poll_request(&mut hub.rx_req, &waker(), PrioritySet::all()) else {
        panic!("no request");
    };
    let Poll::Ready(responses) = responder.poll_response(&mut hub.tx_resp, &waker(), PrioritySet::all()) else {
        panic!("no room");
    };
    assert_eq!(requests, PrioritySet::new_eq(PRIORITY));
    assert!(matches!(
        Responder::<RequestIn, ResponseOut, ByteArray, ByteArray>::next_step(requests, responses),
        ResponderStep::Fetch
    ));
    let request = responder.fetch_request(&mut hub.rx_req, responses).unwrap();
    let mut values = request.payload.bytes.clone();
    for val in values.iter_mut() {
        *val = val.wrapping_add(1);
    }
    responder
        .respond(&mut hub.tx_resp, request.meta, ByteArray { bytes: values })
        .unwrap();

    let reference = Frame {
        header: Header {
            priority: PRIORITY,
            data_spec: DataSpecifier::Response(service),
            destination: Some(requester),
            source: Some(responder_node),
        },
        data: Data::new(&[0x01, 0x00, 0x03, 0b1110_0101]).unwrap(),
        timestamp: ts(1000).saturating_add(TIMEOUT),
        loop_back: false,
    };
    assert_eq!(
        node.poll_pop(&waker(), PrioritySet::new_eq(PRIORITY), MTU),
        Poll::Ready(reference)
    );
}

#[test]
fn subscriber_test_rx() {
    let mut node = Node::new(node_id(20), 1);
    let subscriber = Subscriber::create(
        &mut node.hub_mut().rx_msg,
        MessageFifo::<ByteArray, 10, 10>::new(),
        SubjectId::try_from(0x1a).unwrap(),
        Duration::from_ticks(2_000_000),
    )
    .unwrap();

    // Skip the destination
    let _ = node.poll_pop_filter(&waker());
    assert_eq!(
        node.poll_pop_filter(&waker()),
        Poll::Ready(FilterUpdate::AddSubject(SubjectId::try_from(0x1a).unwrap()))
    );
    let frame = message(0x1a, Priority::Nominal, &[0x01, 0x00, 0x02, 0b1110_0101]);
    assert_eq!(node.poll_push(&frame, MTU), Poll::Ready(()));

    assert_eq!(
        subscriber.try_pop(&mut node.hub_mut().rx_msg),
        Some(bytes(&[0x02]))
    );
    assert_eq!(subscriber.try_pop(&mut node.hub_mut().rx_msg), None);
}

#[test]
fn heartbeat_tells_status_and_uptime() {
    let status = Status {
        health: Health::Caution,
        mode: Mode::Maintenance,
        vendor_specific_code: 0x5a,
    };
    let mut node = MinimalNode::<MessageIn, RequestIn, MessageOut, ResponseOut>::new(node_id(10), status, 0);
    let (state, mut runner) = node.split();
    runner.publish_at(state, ts(3_999_999));
    // An unsent heartbeat is replaced
    runner.publish_at(state, ts(4_000_000));
    let Poll::Ready(frame) = state.link_mut().poll_pop(&waker(), PrioritySet::all(), MTU) else {
        panic!("no heartbeat");
    };
    assert_eq!(frame.timestamp, ts(5_000_000));
    assert_eq!(frame.header.source, Some(node_id(10)));
    assert_eq!(
        frame.data.as_slice(),
        [4, 0, 0, 0, 2, 2, 0x5a, 0b1110_0001]
    );
    assert_eq!(
        Heartbeat::deserialize_from_bytes(&frame.data.as_slice()[..7]),
        Ok(Heartbeat {
            uptime: 4,
            health: Health::Caution,
            mode: Mode::Maintenance,
            vendor_specific_status_code: 0x5a,
        })
    );
    assert_eq!(
        state.link_mut().poll_pop(&waker(), PrioritySet::all(), MTU),
        Poll::Pending
    );

    state.set_status(Status::default());
    assert_eq!(state.status(), Status::default());
    runner.publish_at(state, ts(u64::MAX));
    let Poll::Ready(frame) = state.link_mut().poll_pop(&waker(), PrioritySet::all(), MTU) else {
        panic!("no heartbeat");
    };
    assert_eq!(frame.data.as_slice(), [255, 255, 255, 255, 0, 0, 0, 0b1110_0010]);
}

#[test]
fn publisher_waits_for_room() {
    let mut node = Node::new(node_id(10), 0);
    let mut publisher = Publisher::create(
        &mut node.hub_mut().tx_msg,
        Blocking::<ByteArray>::new(),
        subject(5),
        Priority::Fast,
        TIMEOUT,
        true,
    )
    .unwrap();
    assert_eq!(
        publisher.try_push_at(&mut node.hub_mut().tx_msg, bytes(&[1]), ts(7)),
        Ok(())
    );
    assert_eq!(
        publisher.try_push_at(&mut node.hub_mut().tx_msg, bytes(&[2]), ts(8)),
        Err(MessageError::NotReady)
    );
    assert_eq!(
        publisher.poll_push_readiness(&mut node.hub_mut().tx_msg, &waker()),
        Poll::Pending
    );
    let Poll::Ready(frame) = node.poll_pop(&waker(), PrioritySet::all(), MTU) else {
        panic!("no frame");
    };
    assert_eq!(frame.timestamp, ts(2_000_007));
    assert!(frame.loop_back);
    // The refused message has not used up a transfer identifier
    assert_eq!(
        publisher.try_push_at(&mut node.hub_mut().tx_msg, bytes(&[2]), ts(9)),
        Ok(())
    );
    let Poll::Ready(frame) = node.poll_pop(&waker(), PrioritySet::all(), MTU) else {
        panic!("no frame");
    };
    assert_eq!(frame.data.as_slice(), [1, 0, 2, 0b1110_0001]);
    publisher.close(&mut node.hub_mut().tx_msg);
}

#[test]
fn node_sends_most_urgent_frame_first() {
    let mut node = Node::new(node_id(10), 0);
    let hub = node.hub_mut();
    let slow = Tx::<_, ByteArray>::create_message(
        &mut hub.tx_msg,
        Blocking::<ByteArray>::new(),
        subject(1),
        Priority::Slow,
    )
    .unwrap();
    let response = Tx::<_, ByteArray>::create_response(
        &mut hub.tx_resp,
        ResponseBlocking::<ByteArray>::new(),
        ServiceId::new(3).unwrap(),
    )
    .unwrap();
    let meta = |priority, address| TransferMeta {
        priority,
        address,
        transfer_id: TransferId::from_u8_truncating(0),
        timestamp: ts(10),
        loop_back: false,
    };
    slow.try_push(
        &mut hub.tx_msg,
        Transfer {
            meta: meta(Priority::Slow, None),
            payload: bytes(&[1]),
        },
    )
    .unwrap();
    response
        .try_push(
            &mut hub.tx_resp,
            Transfer {
                meta: meta(Priority::High, Some(node_id(30))),
                payload: bytes(&[2]),
            },
        )
        .unwrap();
    assert!(!slow.all_sent(&hub.tx_msg));
    let mut order = Vec::new();
    while let Poll::Ready(frame) = node.poll_pop(&waker(), PrioritySet::all(), MTU) {
        order.push(frame.header.priority);
    }
    assert_eq!(order, [Priority::High, Priority::Slow]);
    assert!(slow.all_sent(&node.hub_mut().tx_msg));
    // A mask leaves out what it does not hold
    slow.try_push(
        &mut node.hub_mut().tx_msg,
        Transfer {
            meta: meta(Priority::Slow, None),
            payload: bytes(&[1]),
        },
    )
    .unwrap();
    assert_eq!(
        node.poll_pop(&waker(), PrioritySet::new_lt(Priority::Slow), MTU),
        Poll::Pending
    );
}

#[test]
fn subjects_take_slots_and_give_them_back() {
    let mut node = Node::new(node_id(20), 1);
    let create = |node: &mut Node, id| {
        Rx::<_, ByteArray>::create_message(
            &mut node.hub_mut().rx_msg,
            MessageFifo::<ByteArray, 10, 10>::new(),
            subject(id),
            TIMEOUT,
        )
    };
    let first = create(&mut node, 5).unwrap();
    // The same subject shares the slot, another one does not find any
    let second = create(&mut node, 5).unwrap();
    assert!(matches!(create(&mut node, 6), Err(RegistrationError::NoSubjectSlotLeft)));

    assert_eq!(
        node.poll_pop_filter(&waker()),
        Poll::Ready(FilterUpdate::AddDestination(node_id(20)))
    );
    assert_eq!(
        node.poll_pop_filter(&waker()),
        Poll::Ready(FilterUpdate::AddSubject(subject(5)))
    );
    assert_eq!(node.poll_pop_filter(&waker()), Poll::Pending);

    first.close(&mut node.hub_mut().rx_msg);
    assert!(matches!(create(&mut node, 6), Err(RegistrationError::NoSubjectSlotLeft)));
    second.close(&mut node.hub_mut().rx_msg);
    let third = create(&mut node, 6).unwrap();
    // The driver drops the old subject before it takes the new one
    let mut subjects = vec![5];
    while let Poll::Ready(update) = node.poll_pop_filter(&waker()) {
        match update {
            FilterUpdate::AddSubject(id) => subjects.push(id.into_u16()),
            FilterUpdate::RemoveSubjectRange(range) => {
                subjects.retain(|id| *id < range[0].into_u16() || range[1].into_u16() < *id)
            }
            other => panic!("{other:?}"),
        }
        assert!(subjects.len() <= 1);
    }
    assert_eq!(subjects, [6]);
    third.close(&mut node.hub_mut().rx_msg);
}

#[test]
fn occupied_specifiers_are_refused() {
    let mut node = Node::new(node_id(20), 1);
    let hub = node.hub_mut();
    assert!(hub.rx_msg.can_register() && hub.tx_msg.can_register() && hub.tx_resp.can_register());
    let service = ServiceId::new(9).unwrap();
    let request = || RequestFifo::<ByteArray, 10, 10>::new();
    let _rx = Rx::<_, ByteArray>::create_request(&mut hub.rx_req, request(), service, TIMEOUT).unwrap();
    assert!(matches!(
        Rx::<_, ByteArray>::create_request(&mut hub.rx_req, request(), service, TIMEOUT),
        Err(RegistrationError::DataSpecifierOccupied)
    ));
    let publish = |hub: &mut emcyphal::node::Hub<MessageIn, RequestIn, MessageOut, ResponseOut>| {
        Tx::<_, ByteArray>::create_message(
            &mut hub.tx_msg,
            Blocking::<ByteArray>::new(),
            subject(5),
            Priority::Nominal,
        )
    };
    let tx = publish(hub).unwrap();
    assert!(matches!(publish(hub), Err(RegistrationError::DataSpecifierOccupied)));
    tx.close(&mut hub.tx_msg);
    assert!(publish(hub).is_ok());
}

#[test]
fn loop_back_frames_go_to_loop_back_endpoints() {
    let mut node = Node::new(node_id(20), 1);
    let hub = node.hub_mut();
    let regular = Rx::<_, ByteArray>::create_message(
        &mut hub.rx_msg,
        MessageFifo::<ByteArray, 10, 10>::new(),
        subject(5),
        TIMEOUT,
    )
    .unwrap();
    let loop_back = Rx::<_, ByteArray>::create_message_loop_back(
        &mut hub.rx_msg,
        MessageFifo::<ByteArray, 10, 10>::new(),
        subject(5),
        TIMEOUT,
    )
    .unwrap();
    let mut frame = message(5, Priority::Nominal, &[1, 0, 7, 0b1110_0000]);
    frame.loop_back = true;
    let _ = node.poll_push(&frame, MTU);
    let reg = &mut node.hub_mut().rx_msg;
    assert!(regular.try_pop(reg, PrioritySet::all()).is_none());
    let transfer = loop_back.try_pop(reg, PrioritySet::all()).unwrap().unwrap();
    assert!(transfer.meta.loop_back);
    assert_eq!(transfer.payload, bytes(&[7]));
}

#[test]
fn minimal_node_has_the_slots_of_its_driver() {
    for slots in 0..3 {
        let mut node = MinimalNode::<MessageIn, RequestIn, MessageOut, ResponseOut>::new(
            node_id(10),
            Default::default(),
            slots,
        );
        let (state, _runner) = node.split();
        for id in 0..3 {
            let created = Subscriber::<_, ByteArray>::create(
                &mut state.hub_mut().rx_msg,
                MessageFifo::<ByteArray, 10, 10>::new(),
                subject(id),
                TIMEOUT,
            );
            assert_eq!(created.is_ok(), usize::from(id) < slots);
        }
    }
}

#[test]
fn refused_messages_use_no_identifier() {
    let mut node = Node::new(node_id(20), 1);
    let create = |node: &mut Node| {
        Publisher::<_, ByteArray>::create(
            &mut node.hub_mut().tx_msg,
            Blocking::<ByteArray>::new(),
            subject(5),
            PRIORITY,
            TIMEOUT,
            false,
        )
    };
    let mut publisher = create(&mut node).unwrap();
    for k in 0..40 {
        let reg = &mut node.hub_mut().tx_msg;
        assert_eq!(publisher.try_push(reg, bytes(&[k])), Ok(()));
        assert_eq!(publisher.try_push(reg, bytes(&[k])), Err(MessageError::NotReady));
        let Poll::Ready(frame) = node.poll_pop(&waker(), PrioritySet::all(), MTU) else {
            panic!("no frame");
        };
        assert_eq!(frame.data.as_slice().last(), Some(&(0b1110_0000 + k % 32)));
    }
    assert!(create(&mut node).is_err());
    publisher.close(&mut node.hub_mut().tx_msg);
    assert!(create(&mut node).is_ok());
}

#[test]
fn closed_runner_frees_the_heartbeat_subject() {
    let mut node = MinimalNode::<MessageIn, RequestIn, MessageOut, ResponseOut>::new(
        node_id(10),
        Default::default(),
        1,
    );
    let create = |node: &mut MinimalNode<MessageIn, RequestIn, MessageOut, ResponseOut>| {
        Publisher::<_, ByteArray>::create(
            &mut node.node_mut().hub_mut().tx_msg,
            AsSecond::<Blocking<ByteArray>, HeartbeatBuffer>::new(Blocking::new()),
            subject(7509),
            PRIORITY,
            TIMEOUT,
            false,
        )
    };
    assert!(node.can_split());
    let (state, mut runner) = node.split();
    runner.publish_at(state, ts(1_000_000));
    runner.publish_at(state, ts(2_000_000));
    assert!(!node.can_split());
    assert!(matches!(create(&mut node), Err(RegistrationError::DataSpecifierOccupied)));

    // The unsent heartbeat goes with its publisher
    runner.close(node.node_mut());
    assert!(node.can_split());
    let link = node.node_mut().link_mut();
    assert_eq!(link.poll_pop(&waker(), PrioritySet::all(), MTU), Poll::Pending);

    let publisher = create(&mut node).unwrap();
    assert!(!node.can_split());
    publisher.close(&mut node.node_mut().hub_mut().tx_msg);

    let (state, mut runner) = node.split();
    runner.publish_at(state, ts(3_000_000));
    let Poll::Ready(frame) = state.link_mut().poll_pop(&waker(), PrioritySet::all(), MTU) else {
        panic!("no heartbeat");
    };
    assert_eq!(frame.data.as_slice(), [3, 0, 0, 0, 0, 0, 0, 0b1110_0000]);
}

#[test]
fn clone_of_bytes_is_equal_and_independent() {
    let original = bytes(&[1, 2, 3]);
    let mut copy = original.clone();
    assert_eq!(copy, original);
    copy.bytes.push(4).unwrap();
    assert_eq!(copy.bytes.as_slice(), [1, 2, 3, 4]);
    assert_eq!(original.bytes.as_slice(), [1, 2, 3]);
}

#[test]
fn message_is_handed_out_in_steps() {
    let subscribe = |node: &mut Node, id: u16| {
        Subscriber::<_, ByteArray>::create(
            &mut node.hub_mut().rx_msg,
            MessageFifo::<ByteArray, 10, 10>::new(),
            subject(id),
            TIMEOUT,
        )
        .unwrap()
    };
    let mut node = Node::new(node_id(20), 3);
    let before = subscribe(&mut node, 4);
    let subscribers = [(); 3].map(|_| subscribe(&mut node, 5));
    let after = subscribe(&mut node, 6);
    while node.poll_pop_filter(&waker()) != Poll::Pending {}

    let frame = message(5, PRIORITY, &[0x01, 0x00, 0x02, 0b1110_0000]);
    assert!(node.push_start(&frame, MTU));
    for i in 0..3 {
        assert_eq!(subscribers[i].try_pop(&mut node.hub_mut().rx_msg), None);
        assert_eq!(node.push_next(&frame, MTU), i < 2);
        assert_eq!(subscribers[i].try_pop(&mut node.hub_mut().rx_msg), Some(bytes(&[0x02])));
    }
    assert!(!node.push_next(&frame, MTU));
    for other in subscribers.iter().chain([&before, &after]) {
        assert_eq!(other.try_pop(&mut node.hub_mut().rx_msg), None);
    }

    // Nobody waits for other messages
    assert!(!node.push_start(&message(7, PRIORITY, &[0b1110_0000]), MTU));

    // The message goes on behind an endpoint that leaves
    let frame = message(5, PRIORITY, &[0x01, 0x00, 0x03, 0b1110_0001]);
    let [first, second, third] = subscribers;
    assert!(node.push_start(&frame, MTU));
    first.close(&mut node.hub_mut().rx_msg);
    assert!(node.push_next(&frame, MTU));
    assert!(!node.push_next(&frame, MTU));
    for subscriber in [&second, &third] {
        assert_eq!(subscriber.try_pop(&mut node.hub_mut().rx_msg), Some(bytes(&[0x03])));
    }
}
