//! Identifiers, filters and transmitters of the drivers.

use emcyphal::frame::{Data, DataSpecifier, Frame, Header, Mtu};
use emcyphal::ids::{NodeId, ServiceId, SubjectId};
use emcyphal::link::FilterUpdate;
use emcyphal::priority::{Priority, PrioritySet};
use emcyphal::stm32::board::{
    make_can_config_embassy, make_can_config_native, make_peripheral_config, FdTimestampSource, Fdcansel,
    FrameTransmission, HseMode, NonMatchingFilter, PllSource, Sysclk,
};
use emcyphal::stm32::embassy::config as embassy_config;
use emcyphal::stm32::embassy::driver as embassy;
use emcyphal::stm32::embassy::tx_state as embassy_tx;
use emcyphal::stm32::embassy::utils::{FdFrame, FrameId, PriorityDeque};
use emcyphal::stm32::filters::NoFreeSlots;
use emcyphal::stm32::format::{
    decode_can_id_priority, decode_msg_filter_pattern, decode_srv_filter_pattern, make_msg_filter_pattern,
    make_srv_filter_pattern, MessageCanId, ServiceCanId, MSG_FILTER_MASK, SRV_FILTER_MASK,
};
use emcyphal::stm32::header::{convert_raw_header, make_can_id, InvalidFrameHeader};
use emcyphal::stm32::native::config::{
    Config, DataBitTiming, FrameFormat, NominalBitTiming, TestMode, TimestampPrescaler, TimestampSource,
};
use emcyphal::stm32::native::driver::{make_timestamp, receive_frame, timestamp_offset, Info, RxFilterRunner};
use emcyphal::stm32::native::raw::{
    data_timing_fields, global_filter_fields, load_frame, make_dlc, nominal_timing_fields, protocol_fields,
    store_tx_buffer, test_fields, timestamp_fields, FilterElement, FilterType, RxElement, TimestampSelect, TxEvent,
};
use emcyphal::stm32::native::tx_state::TxRunner;
use emcyphal::stm32::native::utils::{MailboxPriorityMap, Occupied, TxMailboxIdx, TxMailboxSet};
use emcyphal::stm32::timer::Timer;
use emcyphal::time::Instant;
use std::sync::atomic::{AtomicUsize, Ordering};
use std::sync::Arc;
use std::task::{Wake, Waker};

fn node(value: u8) -> NodeId {
    NodeId::new(value).unwrap()
}

fn subject(value: u16) -> SubjectId {
    SubjectId::new(value).unwrap()
}

fn ts(ticks: u64) -> Instant {
    Instant::from_ticks(ticks)
}

fn message(id: u16, priority: Priority) -> Header {
    Header {
        priority,
        data_spec: DataSpecifier::Message(subject(id)),
        source: Some(node(42)),
        destination: None,
    }
}

fn frame(priority: Priority, deadline: u64, loop_back: bool) -> Frame {
    Frame {
        header: message(7509, priority),
        data: Data::new(&[1, 2, 3, 4, 5, 6]).unwrap(),
        timestamp: ts(deadline),
        loop_back,
    }
}

fn mailbox(value: u8) -> TxMailboxIdx {
    TxMailboxIdx::new(value).unwrap()
}

#[test]
fn message_identifiers() {
    // The heartbeat of node 42
    assert_eq!(make_can_id(&message(7509, Priority::Nominal)), Ok(0x107d_552a));
    assert_eq!(convert_raw_header(0x107d_552a), Some(message(7509, Priority::Nominal)));
    // Reserved bits 22 and 21 are ignored, bits 23 and 7 are not
    assert_eq!(convert_raw_header(0x101d_552a), Some(message(7509, Priority::Nominal)));
    assert_eq!(convert_raw_header(0x10fd_552a), None);
    assert_eq!(convert_raw_header(0x107d_55aa), None);

    let mut id = MessageCanId::new();
    assert_eq!(u32::from(id), 0x60_0000);
    id.set_priority(Priority::Optional);
    id.set_subject(SubjectId::max());
    id.set_source(NodeId::max());
    id.set_anonymous(true);
    assert_eq!(u32::from(id), 0x1d7f_ff7f);
    id.set_anonymous(false);
    assert!(!id.anonymous());
    id.set_subject(subject(1));
    assert_eq!(id.subject(), subject(1));
    assert_eq!(id.priority(), Priority::Optional);
    assert_eq!(id.source(), NodeId::max());
    assert!(MessageCanId::from_can_id(0x0200_0000).is_none());
    let anonymous = MessageCanId::from_can_id(0x1160_0005).unwrap();
    assert!(anonymous.anonymous());
    assert_eq!(convert_raw_header(0x1160_0005).unwrap().source, None);
    assert_eq!(decode_can_id_priority(0x107d_552a), Priority::Nominal);
}

#[test]
fn service_identifiers() {
    let request = Header {
        priority: Priority::Nominal,
        data_spec: DataSpecifier::Request(ServiceId::new(430).unwrap()),
        source: Some(node(123)),
        destination: Some(node(42)),
    };
    assert_eq!(make_can_id(&request), Ok(0x136b_957b));
    let response = Header {
        data_spec: DataSpecifier::Response(ServiceId::new(430).unwrap()),
        source: Some(node(42)),
        destination: Some(node(123)),
        ..request
    };
    assert_eq!(make_can_id(&response), Ok(0x126b_bdaa));
    assert_eq!(convert_raw_header(0x136b_957b), Some(request));
    assert_eq!(convert_raw_header(0x126b_bdaa), Some(response));
    assert_eq!(convert_raw_header(0x12eb_bdaa), None);

    let mut id = ServiceCanId::default();
    id.set_priority(Priority::High);
    id.set_request(true);
    id.set_service(ServiceId::new(5).unwrap());
    id.set_destination(node(6));
    id.set_source(node(7));
    assert_eq!(u32::from(id), (3 << 26) | (3 << 24) | (5 << 14) | (6 << 7) | 7);
    assert!(ServiceCanId::from_can_id(0).is_none());

    assert_eq!(
        make_can_id(&Header { source: None, ..request }),
        Err(InvalidFrameHeader)
    );
    assert_eq!(
        make_can_id(&Header { destination: None, ..request }),
        Err(InvalidFrameHeader)
    );
}

#[test]
fn urgent_frames_win_the_arbitration() {
    let urgent = Header {
        priority: Priority::Fast,
        data_spec: DataSpecifier::Request(ServiceId::max()),
        source: Some(NodeId::max()),
        destination: Some(NodeId::max()),
    };
    assert!(make_can_id(&urgent).unwrap() < make_can_id(&message(0, Priority::High)).unwrap());
}

#[test]
fn filter_patterns() {
    assert_eq!(make_msg_filter_pattern(Some(subject(7509))), 0x1d_5500);
    assert_eq!(0x107d_552a & MSG_FILTER_MASK, 0x1d_5500);
    assert_eq!(make_msg_filter_pattern(None), !MSG_FILTER_MASK & 0x1fff_ffff);
    assert_eq!(make_srv_filter_pattern(Some(node(42))), 0x0200_1500);
    assert_eq!(0x136b_957b & SRV_FILTER_MASK, 0x0200_1500);
    for id in [0, 1, 4096, 8191] {
        let pattern = make_msg_filter_pattern(Some(subject(id)));
        assert_eq!(decode_msg_filter_pattern(pattern), Some(subject(id)));
    }
    assert_eq!(decode_msg_filter_pattern(make_msg_filter_pattern(None)), None);
    assert_eq!(decode_srv_filter_pattern(0x0200_1500), Some(node(42)));
    assert_eq!(decode_srv_filter_pattern(make_srv_filter_pattern(None)), None);
}

#[test]
fn default_timing_gives_documented_registers() {
    let n = nominal_timing_fields(&NominalBitTiming::default());
    let nbtp = (u32::from(n.nsjw) << 25) | (u32::from(n.nbrp) << 16) | (u32::from(n.ntseg1) << 8) | u32::from(n.ntseg2);
    assert_eq!(nbtp, 0x0600_0a03);
    let d = data_timing_fields(&DataBitTiming::default());
    let dbtp = (u32::from(d.dbrp) << 16) | (u32::from(d.dtseg1) << 8) | (u32::from(d.dtseg2) << 4) | u32::from(d.dsjw);
    assert_eq!(dbtp, 0x0000_0a33);
    assert!(!d.tdc);

    let board = make_can_config_native();
    let d = data_timing_fields(&board.data_bit_timing);
    assert_eq!((d.tdc, d.tdco, d.tdcf, d.dtseg1), (true, 3, 0, 2));
    assert_eq!(nominal_timing_fields(&board.nominal_bit_timing).nbrp, 4);
    assert_eq!(board.frame_format.mtu(), Mtu::Fd);
    assert_eq!(Config::default().frame_format, FrameFormat::Classic);
    let p = protocol_fields(&board);
    assert_eq!((p.fdoe, p.brse, p.efbi, p.pxhd), (true, true, false, false));
    assert_eq!(global_filter_fields().eidm, MSG_FILTER_MASK);
}

#[test]
fn board_clocks() {
    let clocks = make_peripheral_config();
    assert!(!clocks.hsi);
    let hse = clocks.hse.unwrap();
    assert_eq!((hse.freq_hz, hse.mode), (24_000_000, HseMode::Oscillator));
    let pll = clocks.pll.unwrap();
    assert_eq!((pll.source, pll.divp), (PllSource::Hse, None));
    let pll_hz = hse.freq_hz / pll.prediv * pll.mul;
    assert_eq!(pll_hz, 320_000_000);
    assert_eq!((clocks.fdcansel, pll.divq), (Fdcansel::Pll1Q, Some(6)));
    assert_eq!((clocks.sys, pll.divr), (Sysclk::Pll1R, Some(2)));
    assert!(clocks.boost);
}

#[test]
fn board_adapter_config() {
    let config = make_can_config_embassy();
    let n = config.nbtr;
    assert_eq!((n.prescaler, n.seg1, n.seg2, n.sync_jump_width), (5, 6, 1, 1));
    let d = config.dbtr.timing;
    assert_eq!((d.prescaler, d.seg1, d.seg2, d.sync_jump_width), (1, 8, 1, 1));
    assert!(!config.dbtr.transceiver_delay_compensation);
    assert!(config.automatic_retransmit);
    assert_eq!(config.frame_transmit, FrameTransmission::AllowFdCanAndBrs);
    assert_eq!(config.timestamp_source, FdTimestampSource::Prescaler(1));
    let filter = config.global_filter;
    assert_eq!(filter.handle_standard_frames, NonMatchingFilter::Reject);
    assert_eq!(filter.handle_extended_frames, NonMatchingFilter::Reject);
    assert!(filter.reject_remote_standard_frames);
    assert!(filter.reject_remote_extended_frames);
}

#[test]
fn timestamp_and_test_registers() {
    assert_eq!(timestamp_fields(TimestampSource::System).tss, TimestampSelect::Zero);
    let internal = timestamp_fields(TimestampSource::Internal(TimestampPrescaler::Classic));
    assert_eq!((internal.tss, internal.tcp), (TimestampSelect::Increment, 7));
    let external = timestamp_fields(TimestampSource::ExternalTIM3);
    assert_eq!((external.tss, external.tcp), (TimestampSelect::External, 2));
    let t = test_fields(Some(TestMode::InternalLoopBack));
    assert_eq!((t.test, t.mon, t.lbck), (true, true, true));
    let t = test_fields(Some(TestMode::ExternalLoopBack));
    assert_eq!((t.test, t.mon, t.lbck), (true, false, true));
    let t = test_fields(None);
    assert_eq!((t.test, t.mon, t.lbck), (false, false, false));
}

#[test]
fn hardware_timestamps() {
    // The counter was 0x10 behind the clock at the start
    let offset = timestamp_offset(TimestampSource::ExternalTIM3, ts(0x1_0020), 0x0010);
    assert_eq!(offset, Some(0xfff0));
    assert_eq!(timestamp_offset(TimestampSource::System, ts(5), 7), None);
    assert_eq!(make_timestamp(ts(0x2_0005), 0xfff0), ts(0x1_fff0));
    assert_eq!(make_timestamp(ts(0x2_0005), 0x0005), ts(0x2_0005));
    assert_eq!(make_timestamp(ts(3), 0xfff0), ts(0));
}

#[test]
fn frames_survive_the_message_memory() {
    let sent = Frame {
        header: message(7509, Priority::Nominal),
        data: Data::new(&[1, 2, 3, 4, 5, 6]).unwrap(),
        timestamp: ts(0),
        loop_back: false,
    };
    let element = store_tx_buffer(&sent, FrameFormat::FdBrs, 2);
    assert_eq!(element.can_id, 0x107d_552a);
    assert_eq!(element.words, [0x0403_0201, 0x0000_0605]);
    assert_eq!((element.marker, element.dlc, element.fd, element.bit_rate_switch), (2, 6, true, true));
    let mut words = [0xffff_ffff; 16];
    words[..2].copy_from_slice(&element.words);
    let mut rx = RxElement {
        extended: true,
        remote: false,
        can_id: element.can_id,
        timestamp: 0x1234,
        filter_index: 0,
        length: 6,
        words,
    };
    let raw = load_frame(&rx).unwrap();
    assert_eq!(raw.header, sent.header);
    assert_eq!(raw.data, sent.data);
    assert_eq!(raw.timestamp, 0x1234);
    let received = receive_frame(raw, ts(0x5_2000), Some(0));
    assert_eq!(received.timestamp, ts(0x5_1234));
    assert!(!received.loop_back);
    // The service filter expects service identifiers
    rx.filter_index = 7;
    assert!(load_frame(&rx).is_none());
    for (length, code) in [(8, 8), (12, 9), (16, 10), (20, 11), (24, 12), (32, 13), (48, 14), (64, 15)] {
        assert_eq!(make_dlc(emcyphal::frame::DataLength::new(length).unwrap()), code);
    }
}

#[test]
fn mailbox_sets() {
    assert_eq!(TxMailboxIdx::new(3), None);
    let mut set = TxMailboxSet::from_bits_truncating(0xfc);
    assert_eq!(set.into_bits(), 0b100);
    set.insert(mailbox(0));
    assert_eq!(set.first(), Some(mailbox(0)));
    assert_eq!(!set, TxMailboxSet::new_eq(mailbox(1)));
    assert_eq!(set & TxMailboxSet::new_eq(mailbox(2)), TxMailboxSet::new_eq(mailbox(2)));
    assert_eq!(set | TxMailboxSet::new_eq(mailbox(1)), TxMailboxSet::all());
    set.remove(mailbox(0));
    assert!(!set.contains(mailbox(0)));
    let mut iter = set.into_iter();
    assert_eq!(iter.next(), Some(mailbox(2)));
    assert_eq!(iter.next(), None);
    assert!(TxMailboxSet::default().is_empty());
    assert_eq!(TxMailboxSet::none().first(), None);
}

#[test]
fn mailbox_map_is_one_to_one() {
    let mut map = MailboxPriorityMap::default();
    assert_eq!(map.insert(mailbox(1), Priority::High), Ok(()));
    assert_eq!(map.insert(mailbox(1), Priority::Low), Err(Occupied));
    assert_eq!(map.insert(mailbox(2), Priority::High), Err(Occupied));
    assert_eq!(map.get_by_mailbox(mailbox(1)), Some(Priority::High));
    assert_eq!(map.get_by_priority(Priority::High), Some(mailbox(1)));
    assert_eq!(map.remove_by_priority(Priority::High), Some(mailbox(1)));
    assert!(!map.contains_mailbox(mailbox(1)));
    assert_eq!(map.insert(mailbox(1), Priority::Low), Ok(()));
    assert_eq!(map.remove_by_mailbox(mailbox(1)), Some(Priority::Low));
    assert!(!map.contains_priority(Priority::Low));
}

#[test]
fn native_filters_follow_updates() {
    let mut runner = RxFilterRunner::new();
    let mut memory: Vec<FilterElement> = runner.init_filters().into_iter().map(|w| w.element).collect();
    assert_eq!(memory.len(), 8);
    assert_eq!(memory[7].filter_type, FilterType::Classic);
    for id in 0..14 {
        let writes = runner.update(FilterUpdate::AddSubject(subject(id))).unwrap();
        assert_eq!(writes.len(), 1);
        assert_eq!(writes[0].index, usize::from(id) / 2);
        memory[writes[0].index] = writes[0].element;
    }
    assert_eq!(
        runner.update(FilterUpdate::AddSubject(subject(20))).err(),
        Some(NoFreeSlots)
    );
    let writes = runner
        .update(FilterUpdate::RemoveSubjectRange([subject(3), subject(5)]))
        .unwrap();
    assert_eq!(writes.iter().map(|w| w.index).collect::<Vec<_>>(), [1, 2]);
    for write in writes {
        memory[write.index] = write.element;
    }
    assert_eq!(memory[1].id1, make_msg_filter_pattern(Some(subject(2))));
    assert_eq!(memory[1].id2, make_msg_filter_pattern(None));
    let writes = runner.update(FilterUpdate::AddDestination(node(9))).unwrap();
    memory[writes[0].index] = writes[0].element;
    assert_eq!(
        runner.update(FilterUpdate::AddDestination(node(10))).err(),
        Some(NoFreeSlots)
    );
    // What stands in the memory is read back
    let mut loaded = RxFilterRunner::load(&memory);
    assert_eq!(loaded.init_filters().iter().map(|w| w.element).collect::<Vec<_>>(), memory);
    let writes = loaded
        .update(FilterUpdate::RemoveDestinationRange([node(0), NodeId::max()]))
        .unwrap();
    assert_eq!(writes[0].element.id1, make_srv_filter_pattern(None));
    assert!(loaded
        .update(FilterUpdate::RemoveDestinationRange([node(0), NodeId::max()]))
        .unwrap()
        .is_empty());
}

#[test]
fn native_transmitter_sends_the_most_urgent_frame() {
    let mut tx = TxRunner::new(FrameFormat::Classic);
    assert_eq!(tx.deadline(), None);
    assert_eq!(tx.timer(ts(0)), Timer::Never);
    assert_eq!(tx.free_priorities(), PrioritySet::all());
    assert!(tx.next_transmission(TxMailboxSet::all()).is_none());
    tx.fetched(frame(Priority::Low, 50, false));
    let t = tx.next_transmission(TxMailboxSet::all()).unwrap();
    assert_eq!(t.mailbox, mailbox(0));
    assert_eq!(t.element.marker, 0);
    assert_eq!(t.cancel.into_bits(), 0b110);
    assert!(tx.next_transmission(TxMailboxSet::from_bits_truncating(0b110)).is_none());
    assert_eq!(tx.awaited_mailbox(), Some(mailbox(0)));

    // A more urgent frame takes another mailbox, and the first one is cancelled
    tx.fetched(frame(Priority::High, 40, true));
    assert_eq!(tx.deadline(), Some(ts(40)));
    assert_eq!(tx.timer(ts(39)), Timer::At(ts(40)));
    assert_eq!(tx.timer(ts(40)), Timer::Expired);
    let free = tx.release(TxMailboxSet::new_eq(mailbox(0)), TxMailboxSet::none());
    let t = tx.next_transmission(free).unwrap();
    assert_eq!(t.mailbox, mailbox(1));
    assert_eq!(t.cancel.into_bits(), 0b101);

    // It is sent, and has to be handed back
    let event = TxEvent { marker: 1, timestamp: 30 };
    assert!(tx.is_expected(&event));
    assert!(!tx.is_expected(&TxEvent { marker: 2, timestamp: 0 }));
    assert!(!tx.is_expected(&TxEvent { marker: 9, timestamp: 0 }));
    let mut completed = TxMailboxSet::none();
    completed.insert(tx.complete(&event, ts(35), Some(0)));
    let free = tx.release(TxMailboxSet::none(), completed);
    assert_eq!(free, TxMailboxSet::all());
    let back = tx.next_loop_back().unwrap();
    assert_eq!((back.header.priority, back.timestamp), (Priority::High, ts(30)));
    assert_eq!(
        tx.occupied_priorities(),
        PrioritySet::new_eq(Priority::High) | PrioritySet::new_eq(Priority::Low)
    );
    assert_eq!(tx.queued_priorities(), PrioritySet::new_eq(Priority::Low));
    tx.loop_back_sent(Priority::High);
    assert!(tx.next_loop_back().is_none());

    // The cancelled frame is sent again
    let t = tx.next_transmission(free).unwrap();
    assert_eq!(t.mailbox, mailbox(0));
    tx.complete(&TxEvent { marker: 0, timestamp: 0 }, ts(36), None);
    assert!(tx.occupied_priorities().is_empty());
}

#[test]
fn native_transmitter_drops_late_and_anonymous_frames() {
    let mut tx = TxRunner::new(FrameFormat::Fd);
    tx.fetched(frame(Priority::Low, 50, false));
    tx.fetched(frame(Priority::Slow, 60, false));
    let t = tx.next_transmission(TxMailboxSet::all()).unwrap();
    assert_eq!(tx.expire(ts(49)), TxMailboxSet::none());
    assert_eq!(tx.expire(ts(50)), TxMailboxSet::new_eq(t.mailbox));
    assert_eq!(tx.occupied_priorities(), PrioritySet::new_eq(Priority::Slow));
    let mut anonymous = frame(Priority::High, 99, false);
    anonymous.header.source = None;
    tx.fetched(anonymous);
    assert_eq!(tx.occupied_priorities(), PrioritySet::new_eq(Priority::Slow));
}

struct Count(AtomicUsize);

impl Wake for Count {
    fn wake(self: Arc<Self>) {
        self.0.fetch_add(1, Ordering::SeqCst);
    }
}

#[test]
fn interrupts_wake_tasks() {
    let count = Arc::new(Count(AtomicUsize::new(0)));
    let waker = Waker::from(count.clone());
    let woken = || count.0.load(Ordering::SeqCst);
    let mut info = Info::new();
    info.register_rx_waker(&waker);
    info.wake_rx();
    assert_eq!(woken(), 1);
    info.register_tx_waker(&waker, TxMailboxSet::new_eq(mailbox(1)));
    info.wake_tx(TxMailboxSet::new_eq(mailbox(1)));
    assert_eq!(woken(), 1);
    info.wake_tx(TxMailboxSet::new_eq(mailbox(0)));
    assert_eq!(woken(), 2);
    info.add_user();
    assert!(!info.remove_user());
    assert!(info.remove_user());
}

#[test]
fn embassy_filters_follow_updates() {
    let mut runner = embassy::RxFilterRunner::new();
    for id in 0..7 {
        let writes = runner.update(FilterUpdate::AddSubject(subject(id))).unwrap();
        assert_eq!(writes[0].index, usize::from(id));
        assert_eq!(writes[0].element.filter, make_msg_filter_pattern(Some(subject(id))));
        assert_eq!(writes[0].element.mask, MSG_FILTER_MASK);
    }
    assert_eq!(
        runner.update(FilterUpdate::AddSubject(subject(7))).err(),
        Some(NoFreeSlots)
    );
    let writes = runner
        .update(FilterUpdate::RemoveSubjectRange([subject(2), subject(3)]))
        .unwrap();
    assert_eq!(writes.iter().map(|w| w.index).collect::<Vec<_>>(), [2, 3]);
    let writes = runner.update(FilterUpdate::AddDestination(node(9))).unwrap();
    assert_eq!((writes[0].index, writes[0].element.mask), (7, SRV_FILTER_MASK));
    assert_eq!(
        runner.update(FilterUpdate::AddDestination(node(9))).err(),
        Some(NoFreeSlots)
    );
    let writes = runner
        .update(FilterUpdate::RemoveDestinationRange([node(9), node(9)]))
        .unwrap();
    assert_eq!(writes[0].element.filter, make_srv_filter_pattern(None));
}

#[test]
fn embassy_envelopes() {
    let raw = embassy::make_raw_frame(&frame(Priority::Nominal, 9, false), embassy_config::FrameFormat::FdBrs).unwrap();
    assert_eq!(raw.id, FrameId::Extended(0x107d_552a));
    assert!(raw.fd && raw.bit_rate_switch);
    assert_eq!(embassy::raw_frame_priority(&raw), Some(Priority::Nominal));
    assert_eq!(
        embassy::raw_frame_priority(&FdFrame { id: FrameId::Standard(5), ..raw }),
        None
    );
    let mut anonymous = frame(Priority::Nominal, 9, false);
    anonymous.header.source = None;
    assert_eq!(
        embassy::make_raw_frame(&anonymous, embassy_config::FrameFormat::Classic).err(),
        Some(InvalidFrameHeader)
    );

    let mut envelope = embassy::FdEnvelope {
        id: raw.id,
        fd: true,
        length: 2,
        data: vec![8, 9, 10, 11],
        ts: ts(77),
    };
    assert!(embassy::fetch_frame(&envelope, embassy_config::FrameFormat::Classic).is_none());
    let received = embassy::fetch_frame(&envelope, embassy_config::FrameFormat::Fd).unwrap();
    assert_eq!(received.header, message(7509, Priority::Nominal));
    assert_eq!(received.data.as_slice(), [8, 9]);
    assert_eq!(received.timestamp, ts(77));
    envelope.id = FrameId::Standard(1);
    assert!(embassy::convert_raw_envelope(&envelope).is_none());
    assert_eq!(embassy_config::Config::default().frame_format.mtu(), Mtu::Classic);
}

#[test]
fn priority_deque_has_two_ends() {
    let raw = |n: u32| FdFrame {
        id: FrameId::Extended(n),
        fd: false,
        bit_rate_switch: false,
        data: Data::new(&[]).unwrap(),
    };
    let mut deque = PriorityDeque::default();
    assert_eq!(deque.push_back(Priority::High, raw(2)), Ok(()));
    assert_eq!(deque.push_back(Priority::High, raw(3)), Ok(()));
    assert_eq!(deque.push_front(Priority::High, raw(1)), Ok(()));
    assert_eq!(deque.push_back(Priority::High, raw(4)), Ok(()));
    assert_eq!(deque.push_back(Priority::High, raw(5)), Err(raw(5)));
    assert_eq!(deque.push_front(Priority::High, raw(5)), Err(raw(5)));
    assert_eq!(deque.priorities(), PrioritySet::new_eq(Priority::High));
    assert_eq!(deque.front(Priority::High), Some(&raw(1)));
    assert_eq!(deque.pop_front(Priority::High), Some(raw(1)));
    assert_eq!(deque.pop_back(Priority::High), Some(raw(4)));
    assert_eq!(deque.pop_back(Priority::High), Some(raw(3)));
    assert_eq!(deque.pop_front(Priority::High), Some(raw(2)));
    assert_eq!(deque.pop_front(Priority::High), None);
    assert!(deque.priorities().is_empty());
}

#[test]
fn embassy_transmitter_handles_preemption_and_deadlines() {
    let mut tx = embassy_tx::TxRunner::new(embassy_config::FrameFormat::Fd);
    assert_eq!(tx.timer(ts(5)), Timer::Never);
    tx.fetched(&frame(Priority::Low, 100, false));
    tx.fetched(&frame(Priority::High, 90, false));
    assert_eq!(tx.next_deadline(), ts(90));
    assert_eq!(tx.timer(ts(5)), Timer::At(ts(90)));
    assert_eq!(tx.timer(ts(90)), Timer::Expired);
    let (priority, urgent) = tx.next_frame().unwrap();
    assert_eq!(priority, Priority::High);

    // The least urgent frame comes back
    let low = embassy::make_raw_frame(&frame(Priority::Low, 0, false), embassy_config::FrameFormat::Fd).unwrap();
    assert_eq!(tx.delivered(Priority::High, Some(low)), Ok(()));
    assert_ne!(urgent, low);
    assert_eq!(tx.priorities(), PrioritySet::new_eq(Priority::Low));
    assert_eq!(tx.next_frame(), Some((Priority::Low, low)));
    // The frame at the back has the deadline
    tx.expire(ts(100));
    assert_eq!(tx.next_deadline(), ts(100));
    tx.expire(ts(101));
    assert_eq!(tx.next_deadline(), Instant::max());
    assert_eq!(tx.next_frame(), Some((Priority::Low, low)));
    let standard = FdFrame { id: FrameId::Standard(1), ..low };
    assert_eq!(tx.delivered(Priority::Low, Some(standard)), Err(standard));
    assert_eq!(tx.next_frame(), None);
    let mut anonymous = frame(Priority::High, 99, false);
    anonymous.header.source = None;
    tx.fetched(&anonymous);
    assert!(tx.priorities().is_empty());
}

#[test]
fn transmitters_ask_for_priorities_that_they_do_not_hold() {
    let mut tx = TxRunner::new(FrameFormat::Classic);
    assert_eq!(tx.request(), (PrioritySet::all(), Mtu::Classic));
    tx.fetched(frame(Priority::Low, 50, false));
    assert_eq!(tx.request(), (!PrioritySet::new_eq(Priority::Low), Mtu::Classic));
    assert_eq!(TxRunner::new(FrameFormat::Fd).request().1, Mtu::Fd);

    let mut tx = embassy_tx::TxRunner::new(embassy_config::FrameFormat::Fd);
    assert_eq!(tx.request(), (PrioritySet::all(), Mtu::Fd));
    tx.fetched(&frame(Priority::High, 50, false));
    assert_eq!(tx.request(), (!PrioritySet::new_eq(Priority::High), Mtu::Fd));
    assert_eq!(embassy_tx::TxRunner::new(embassy_config::FrameFormat::Classic).request().1, Mtu::Classic);
}
