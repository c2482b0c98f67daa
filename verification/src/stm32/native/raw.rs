//! Contents of the registers and of the message memory.

use vstd::prelude::*;

use crate::encoding::{byte_at, le32, of_le32};
use crate::frame::{Data, DataLength, Frame, Header};
use crate::ids::{NodeId, SubjectId};
use crate::stm32::format::{
    decode_msg_filter_pattern, decode_srv_filter_pattern, is_message_id, is_service_id,
    law_msg_pattern_round_trip, make_msg_filter_pattern,
    make_srv_filter_pattern, message_fields, msg_pattern, pattern_node, pattern_subject,
    service_fields, srv_pattern, MSG_FILTER_MASK, SRV_FILTER_MASK,
};
use crate::stm32::header::{
    has_valid_ids, header_id, id_header, is_sendable, law_header_round_trip, load_msg_frame_header, load_srv_frame_header, make_can_id, message_header, service_header,
};
use crate::stm32::native::config::{
    Config, DataBitTiming, FrameFormat, NominalBitTiming, TestMode, TimestampSource,
    TransceiverDelayCompensation,
};

verus! {

/// Number of filters for extended identifiers.
pub const EXTENDED_FILTER_MAX: u8 = 8;

/// Number of filters for messages. Each of them has slots for two subjects.
pub const MESSAGE_FILTER_COUNT: usize = 7;

/// Number of the filter for service transfers.
pub const SERVICE_FILTER_OFFSET: usize = 7;

/// Fields of the register of the nominal bit timing: each is one less than the number it stands
/// for.
#[derive(Debug, Clone, Copy, PartialEq, Eq, Structural)]
pub struct NominalTimingFields {
    /// Prescaler.
    pub nbrp: u16,
    /// Time segment 1.
    pub ntseg1: u8,
    /// Time segment 2.
    pub ntseg2: u8,
    /// Synchronization jump width.
    pub nsjw: u8,
}

/// Fields of the registers of the data bit timing. Those of the timing itself are one less than
/// the number they stand for.
#[derive(Debug, Clone, Copy, PartialEq, Eq, Structural)]
pub struct DataTimingFields {
    /// Transceiver delay compensation is enabled.
    pub tdc: bool,
    /// Prescaler.
    pub dbrp: u8,
    /// Time segment 1.
    pub dtseg1: u8,
    /// Time segment 2.
    pub dtseg2: u8,
    /// Synchronization jump width.
    pub dsjw: u8,
    /// Offset of the second sampling point.
    pub tdco: u8,
    /// Filter window length.
    pub tdcf: u8,
}

/// What the timestamp counter does.
#[derive(Debug, Clone, Copy, PartialEq, Eq, Structural)]
pub enum TimestampSelect {
    /// It is always zero.
    Zero,
    /// It counts bit times, divided by the prescaler.
    Increment,
    /// It is the external timer.
    External,
}

/// Fields of the register of the timestamp counter.
#[derive(Debug, Clone, Copy, PartialEq, Eq, Structural)]
pub struct TimestampFields {
    /// Source of the timestamps.
    pub tss: TimestampSelect,
    /// Prescaler.
    pub tcp: u8,
}

/// Fields of the registers that control loop-back.
#[derive(Debug, Clone, Copy, PartialEq, Eq, Structural)]
pub struct TestFields {
    /// The test register can be written. Otherwise it is cleared.
    pub test: bool,
    /// The transmit pin is disabled.
    pub mon: bool,
    /// Own frames are received.
    pub lbck: bool,
}

/// Fields of the register that controls the protocol.
#[derive(Debug, Clone, Copy, PartialEq, Eq, Structural)]
pub struct ProtocolFields {
    /// FD frames are allowed.
    pub fdoe: bool,
    /// The bit rate can be switched.
    pub brse: bool,
    /// Two dominant quanta are required to detect an edge.
    pub efbi: bool,
    /// Protocol exceptions are not handled.
    pub pxhd: bool,
}

/// Fields of the register of the global filter.
#[derive(Debug, Clone, Copy, PartialEq, Eq, Structural)]
pub struct GlobalFilterFields {
    /// Number of filters for standard identifiers.
    pub lss: u8,
    /// Number of filters for extended identifiers.
    pub lse: u8,
    /// Frames that pass no filter are rejected.
    pub reject_non_matching: bool,
    /// Remote frames are rejected.
    pub reject_remote: bool,
    /// The bits of extended identifiers that the filters see.
    pub eidm: u32,
}

/// Returns the register fields of the frame format and of the options of the protocol.
pub fn protocol_fields(config: &Config) -> (r: ProtocolFields)
    ensures
        r.fdoe == (config.frame_format != FrameFormat::Classic),
        r.brse == (config.frame_format == FrameFormat::FdBrs),
        r.efbi == config.edge_filtering,
        r.pxhd == !config.protocol_exception_handling,
{
    ProtocolFields {
        fdoe: config.frame_format.fd(),
        brse: config.frame_format.bit_rate_switch(),
        efbi: config.edge_filtering,
        pxhd: !config.protocol_exception_handling,
    }
}

/// Returns the register fields of the global filter: only data frames with an extended identifier
/// that pass a filter are received.
pub fn global_filter_fields() -> (r: GlobalFilterFields)
    ensures
        r == (GlobalFilterFields {
            lss: 0,
            lse: EXTENDED_FILTER_MAX,
            reject_non_matching: true,
            reject_remote: true,
            eidm: MSG_FILTER_MASK,
        }),
{
    GlobalFilterFields {
        lss: 0,
        lse: EXTENDED_FILTER_MAX,
        reject_non_matching: true,
        reject_remote: true,
        eidm: MSG_FILTER_MASK,
    }
}

/// Returns the register fields of the nominal bit timing.
pub fn nominal_timing_fields(val: &NominalBitTiming) -> (r: NominalTimingFields)
    requires
        val.wf(),
    ensures
        r.nbrp + 1 == val.prescaler,
        r.ntseg1 + 1 == val.seg1,
        r.ntseg2 + 1 == val.seg2,
        r.nsjw + 1 == val.sync_jump_width,
{
    NominalTimingFields {
        nbrp: val.prescaler - 1,
        ntseg1: val.seg1 - 1,
        ntseg2: val.seg2 - 1,
        nsjw: val.sync_jump_width - 1,
    }
}

/// Returns the register fields of the data bit timing.
pub fn data_timing_fields(val: &DataBitTiming) -> (r: DataTimingFields)
    requires
        val.wf(),
    ensures
        r.dbrp + 1 == val.prescaler,
        r.dtseg1 + 1 == val.seg1,
        r.dtseg2 + 1 == val.seg2,
        r.dsjw + 1 == val.sync_jump_width,
        r.tdc == val.tx_delay_compensation is Some,
        match val.tx_delay_compensation {
            Some(c) => r.tdco == c.offset && r.tdcf == c.filter_window_length,
            None => r.tdco == 0 && r.tdcf == 0,
        },
{
    let compensation: TransceiverDelayCompensation = match val.tx_delay_compensation {
        Some(compensation) => compensation,
        None => TransceiverDelayCompensation::default(),
    };
    DataTimingFields {
        tdc: val.tx_delay_compensation.is_some(),
        dbrp: val.prescaler - 1,
        dtseg1: val.seg1 - 1,
        dtseg2: val.seg2 - 1,
        dsjw: val.sync_jump_width - 1,
        tdco: compensation.offset,
        tdcf: compensation.filter_window_length,
    }
}

/// Returns the register fields of a timestamp source.
pub fn timestamp_fields(val: TimestampSource) -> (r: TimestampFields)
    ensures
        match val {
            TimestampSource::System => r.tss == TimestampSelect::Zero && r.tcp == 0,
            TimestampSource::Internal(p) => r.tss == TimestampSelect::Increment && r.tcp + 1 == p.divider(),
            TimestampSource::ExternalTIM3 => r.tss == TimestampSelect::External && r.tcp == 2,
        },
{
    match val {
        TimestampSource::System => TimestampFields { tss: TimestampSelect::Zero, tcp: 0 },
        TimestampSource::Internal(p) => {
            TimestampFields { tss: TimestampSelect::Increment, tcp: p.into_u8() - 1 }
        },
        TimestampSource::ExternalTIM3 => TimestampFields { tss: TimestampSelect::External, tcp: 0b10 },
    }
}

/// Returns the register fields of a test mode.
pub fn test_fields(mode: Option<TestMode>) -> (r: TestFields)
    ensures
        r.test == mode is Some,
        r.mon == (mode == Some(TestMode::InternalLoopBack)),
        r.lbck == mode is Some,
{
    if let Some(test) = mode {
        TestFields { test: true, mon: test == TestMode::InternalLoopBack, lbck: true }
    } else {
        TestFields { test: false, mon: false, lbck: false }
    }
}

/// How a filter compares identifiers.
#[derive(Debug, Clone, Copy, PartialEq, Eq, Structural)]
pub enum FilterType {
    /// The masked identifier is one of two numbers.
    DualId,
    /// The bits of the mask are those of the pattern.
    Classic,
}

/// What happens to frames that pass a filter.
#[derive(Debug, Clone, Copy, PartialEq, Eq, Structural)]
pub enum FilterAction {
    /// They are stored in the first queue.
    StoreInFifo0,
    /// They are stored in the second queue.
    StoreInFifo1,
}

/// A filter for extended identifiers in the message memory.
#[derive(Debug, Clone, Copy, PartialEq, Eq, Structural)]
pub struct FilterElement {
    /// How identifiers are compared.
    pub filter_type: FilterType,
    /// First number: an identifier, or the pattern.
    pub id1: u32,
    /// Second number: an identifier, or the mask.
    pub id2: u32,
    /// What happens to frames that pass.
    pub action: FilterAction,
}

/// Returns the filter of the messages of two subjects.
pub fn make_message_filter(val: [Option<SubjectId>; 2]) -> (r: FilterElement)
    ensures
        r == (FilterElement {
            filter_type: FilterType::DualId,
            id1: msg_pattern(val@[0]),
            id2: msg_pattern(val@[1]),
            action: FilterAction::StoreInFifo0,
        }),
{
    FilterElement {
        filter_type: FilterType::DualId,
        id1: make_msg_filter_pattern(val[0]),
        id2: make_msg_filter_pattern(val[1]),
        action: FilterAction::StoreInFifo0,
    }
}

/// Returns the subjects of a filter for messages.
pub fn read_message_filter(elem: &FilterElement) -> (r: [Option<SubjectId>; 2])
    requires
        elem.filter_type == FilterType::DualId,
    ensures
        r@ == seq![pattern_subject(elem.id1), pattern_subject(elem.id2)],
{
    let r = [decode_msg_filter_pattern(elem.id1), decode_msg_filter_pattern(elem.id2)];
    assert(r@ =~= seq![pattern_subject(elem.id1), pattern_subject(elem.id2)]);
    r
}

/// Returns the filter of the service transfers to a node.
pub fn make_service_filter(dest: Option<NodeId>) -> (r: FilterElement)
    ensures
        r == (FilterElement {
            filter_type: FilterType::Classic,
            id1: srv_pattern(dest),
            id2: SRV_FILTER_MASK,
            action: FilterAction::StoreInFifo1,
        }),
{
    FilterElement {
        filter_type: FilterType::Classic,
        id1: make_srv_filter_pattern(dest),
        id2: SRV_FILTER_MASK,
        action: FilterAction::StoreInFifo1,
    }
}

/// Returns the node of the filter for service transfers.
pub fn read_service_filter(elem: &FilterElement) -> (r: Option<NodeId>)
    requires
        elem.filter_type == FilterType::Classic,
    ensures
        r == pattern_node(elem.id1),
{
    decode_srv_filter_pattern(elem.id1)
}

/// The subjects that were written into a filter are read back.
pub proof fn law_message_filter_round_trip(a: Option<SubjectId>, b: Option<SubjectId>)
    requires
        a matches Some(id) ==> SubjectId::is_valid(id.value() as int),
        b matches Some(id) ==> SubjectId::is_valid(id.value() as int),
    ensures
        seq![pattern_subject(msg_pattern(a)), pattern_subject(msg_pattern(b))] == seq![a, b],
{
    law_msg_pattern_round_trip(a);
    law_msg_pattern_round_trip(b);
}

/// A received frame before its timestamp is known.
pub struct RawFrame {
    /// What the identifier encodes.
    pub header: Header,
    /// The data bytes.
    pub data: Data,
    /// Value of the timestamp counter.
    pub timestamp: u16,
}

/// An element of a receive queue in the message memory.
pub struct RxElement {
    /// The identifier has 29 bits.
    pub extended: bool,
    /// The frame asks for data, and has none.
    pub remote: bool,
    /// The identifier.
    pub can_id: u32,
    /// Value of the timestamp counter.
    pub timestamp: u16,
    /// Number of the filter that the frame has passed.
    pub filter_index: u8,
    /// Number of data bytes.
    pub length: u8,
    /// The data, four bytes in each word.
    pub words: [u32; 16],
}

/// The bytes of words, the least significant byte of each first.
pub open spec fn word_bytes(words: Seq<u32>, length: nat) -> Seq<u8> {
    Seq::new(length, |i: int| le32(words[i / 4])[i % 4])
}

/// Words of bytes. Behind the last byte there are zeros.
pub open spec fn byte_words(bytes: Seq<u8>) -> Seq<u32> {
    Seq::new(((bytes.len() + 3) / 4) as nat, |i: int| of_le32(bytes, 4 * i) as u32)
}

impl RxElement {
    /// Only data frames with an extended identifier pass the filters.
    pub open spec fn wf(&self) -> bool {
        self.extended && !self.remote && DataLength::is_valid(self.length as int)
    }

    /// The header of the element. The filter tells which kind of identifier to expect.
    pub open spec fn header(&self) -> Option<Header> {
        if self.filter_index != SERVICE_FILTER_OFFSET {
            if is_message_id(self.can_id) {
                Some(message_header(message_fields(self.can_id)))
            } else {
                None
            }
        } else {
            if is_service_id(self.can_id) {
                Some(service_header(service_fields(self.can_id)))
            } else {
                None
            }
        }
    }
}

/// Returns a byte of a word.
fn word_byte(word: u32, i: usize) -> (r: u8)
    requires
        i < 4,
    ensures
        r == le32(word)[i as int],
{
    if i == 0 {
        (word % 0x100) as u8
    } else if i == 1 {
        (word / 0x100 % 0x100) as u8
    } else if i == 2 {
        (word / 0x1_0000 % 0x100) as u8
    } else {
        (word / 0x100_0000) as u8
    }
}

/// Returns the frame of an element of a receive queue, unless its identifier has reserved bits
/// set.
pub fn load_frame(elem: &RxElement) -> (r: Option<RawFrame>)
    requires
        elem.wf(),
    ensures
        r is Some <==> elem.header() is Some,
        r matches Some(frame) ==> {
            &&& Some(frame.header) == elem.header()
            &&& frame.data@ == word_bytes(elem.words@, elem.length as nat)
            &&& frame.data.valid()
            &&& frame.timestamp == elem.timestamp
        },
{
    let header: Header = if elem.filter_index as usize != SERVICE_FILTER_OFFSET {
        load_msg_frame_header(elem.can_id)?
    } else {
        load_srv_frame_header(elem.can_id)?
    };

    let length: usize = elem.length as usize;
    let mut bytes: Vec<u8> = Vec::new();
    let mut i: usize = 0;
    while i < length
        invariant
            i <= length <= 64,
            bytes@ == word_bytes(elem.words@, i as nat),
        decreases length - i,
    {
        bytes.push(word_byte(elem.words[i / 4], i % 4));
        i = i + 1;
        assert(bytes@ =~= word_bytes(elem.words@, i as nat));
    }
    match Data::new(bytes.as_slice()) {
        Ok(data) => Some(RawFrame { header, data, timestamp: elem.timestamp }),
        Err(_) => None,
    }
}

/// The number of bytes of a data length code.
pub open spec fn code_length(dlc: int) -> int {
    if dlc <= 8 {
        dlc
    } else if dlc == 9 {
        12
    } else if dlc == 10 {
        16
    } else if dlc == 11 {
        20
    } else if dlc == 12 {
        24
    } else if dlc == 13 {
        32
    } else if dlc == 14 {
        48
    } else {
        64
    }
}

/// Returns the data length code of a length.
pub fn make_dlc(value: DataLength) -> (r: u8)
    ensures
        r < 16,
        code_length(r as int) == value.value(),
{
    let len: usize = value.as_usize();
    match len {
        0..=8 => len as u8,
        12 => 9,
        16 => 10,
        20 => 11,
        24 => 12,
        32 => 13,
        48 => 14,
        _ => 15,
    }
}

/// A transmit buffer in the message memory: a data frame with an extended identifier, for which
/// a transmit event is stored.
pub struct TxElement {
    /// The identifier.
    pub can_id: u32,
    /// Number that is handed back with the transmit event.
    pub marker: u8,
    /// The frame has the FD format.
    pub fd: bool,
    /// The bit rate is switched in the data phase.
    pub bit_rate_switch: bool,
    /// Data length code.
    pub dlc: u8,
    /// The data, four bytes in each word.
    pub words: Vec<u32>,
}

/// Returns a byte of data, or zero behind its end.
fn data_byte(bytes: &[u8], i: usize) -> (r: u8)
    ensures
        r == byte_at(bytes@, i as int),
{
    if i < bytes.len() {
        bytes[i]
    } else {
        0
    }
}

/// Returns the transmit buffer of a frame.
pub fn store_tx_buffer(frame: &Frame, frame_format: FrameFormat, marker: u8) -> (r: TxElement)
    requires
        is_sendable(&frame.header),
        frame_format != FrameFormat::Classic || frame.data@.len() <= 8,
    ensures
        r.can_id == header_id(&frame.header),
        r.can_id < 0x2000_0000,
        r.marker == marker,
        r.fd == (frame_format != FrameFormat::Classic),
        r.bit_rate_switch == (frame_format == FrameFormat::FdBrs),
        r.dlc < 16,
        code_length(r.dlc as int) == frame.data@.len(),
        r.words@ == byte_words(frame.data@),
{
    let can_id: u32 = match make_can_id(&frame.header) {
        Ok(can_id) => can_id,
        Err(_) => 0,
    };
    let dlc: u8 = make_dlc(frame.data.length());
    let bytes: &[u8] = frame.data.as_slice();
    let count: usize = (bytes.len() + 3) / 4;
    let mut words: Vec<u32> = Vec::new();
    let mut i: usize = 0;
    while i < count
        invariant
            i <= count,
            count == (bytes@.len() + 3) / 4,
            bytes@.len() <= 64,
            words@ == Seq::new(i as nat, |k: int| of_le32(bytes@, 4 * k) as u32),
        decreases count - i,
    {
        let b0: u32 = data_byte(bytes, 4 * i) as u32;
        let b1: u32 = data_byte(bytes, 4 * i + 1) as u32;
        let b2: u32 = data_byte(bytes, 4 * i + 2) as u32;
        let b3: u32 = data_byte(bytes, 4 * i + 3) as u32;
        words.push(b0 + 0x100 * b1 + 0x1_0000 * b2 + 0x100_0000 * b3);
        i = i + 1;
        assert(words@ =~= Seq::new(i as nat, |k: int| of_le32(bytes@, 4 * k) as u32));
    }
    TxElement {
        can_id,
        marker,
        fd: frame_format.fd(),
        bit_rate_switch: frame_format.bit_rate_switch(),
        dlc,
        words,
    }
}

/// The four bytes of a word are those that it was made of.
proof fn lemma_word(bytes: Seq<u8>, i: int)
    ensures
        le32(of_le32(bytes, i) as u32) == seq![
            byte_at(bytes, i),
            byte_at(bytes, i + 1),
            byte_at(bytes, i + 2),
            byte_at(bytes, i + 3),
        ],
{
    let (b0, b1, b2, b3) = (
        byte_at(bytes, i) as int,
        byte_at(bytes, i + 1) as int,
        byte_at(bytes, i + 2) as int,
        byte_at(bytes, i + 3) as int,
    );
    let x = of_le32(bytes, i);
    assert(x == b0 + 0x100 * b1 + 0x1_0000 * b2 + 0x100_0000 * b3);
    assert(x / 0x100 == b1 + 0x100 * b2 + 0x1_0000 * b3);
    assert(x / 0x1_0000 == b2 + 0x100 * b3);
    assert(x / 0x100_0000 == b3);
    assert(le32(x as u32) =~= seq![
        byte_at(bytes, i),
        byte_at(bytes, i + 1),
        byte_at(bytes, i + 2),
        byte_at(bytes, i + 3),
    ]);
}

/// The data that is written into a buffer is read out of it, whatever stands in the words behind.
pub proof fn law_data_round_trip(bytes: Seq<u8>, words: Seq<u32>)
    requires
        byte_words(bytes).is_prefix_of(words),
    ensures
        word_bytes(words, bytes.len()) == bytes,
{
    assert forall|i: int| 0 <= i < bytes.len() implies word_bytes(words, bytes.len())[i] == bytes[i] by {
        lemma_word(bytes, 4 * (i / 4));
        assert(i == 4 * (i / 4) + i % 4);
        assert(0 <= i / 4 < byte_words(bytes).len());
        assert(words[i / 4] == byte_words(bytes)[i / 4]);
        assert(le32(words[i / 4])[i % 4] == byte_at(bytes, i));
    }
    assert(word_bytes(words, bytes.len()) =~= bytes);
}

/// What is sent is what is received: a node whose filter passes the frame that `tx` was made of
/// gets the header and the data of that frame.
pub proof fn law_frame_round_trip(frame: &Frame, tx: &TxElement, rx: &RxElement)
    requires
        is_sendable(&frame.header),
        has_valid_ids(&frame.header),
        tx.can_id == header_id(&frame.header),
        tx.words@ == byte_words(frame.data@),
        rx.can_id == tx.can_id,
        rx.length == frame.data@.len(),
        tx.words@.is_prefix_of(rx.words@),
        rx.filter_index == SERVICE_FILTER_OFFSET <==> !(frame.header.data_spec is Message),
    ensures
        rx.header() == Some(frame.header),
        word_bytes(rx.words@, rx.length as nat) == frame.data@,
{
    law_header_round_trip(frame.header);
    law_data_round_trip(frame.data@, rx.words@);
}

/// A frame was transmitted.
#[derive(Debug, Clone, Copy, PartialEq, Eq, Structural)]
pub struct TxEvent {
    /// Number that was given with the frame.
    pub marker: u8,
    /// Value of the timestamp counter.
    pub timestamp: u16,
}

/// What a received element is taken for: a frame that passed a message filter is a message or nothing,
/// one that passed the service filter is a service transfer or nothing.
pub proof fn law_filter_tells_the_kind(element: &RxElement)
    ensures
        element.header() matches Some(header) ==> (header.data_spec is Message <==> element.filter_index != 7),
        element.filter_index != 7 ==> (element.header() is Some <==> element.can_id / 0x200_0000 % 2 == 0
            && element.can_id / 0x80_0000 % 2 == 0 && element.can_id / 0x80 % 2 == 0),
        element.filter_index == 7 ==> (element.header() is Some <==> element.can_id / 0x200_0000 % 2 == 1
            && element.can_id / 0x80_0000 % 2 == 0),
        element.header() is Some ==> element.header() == id_header(element.can_id),
{
}

/// The bytes of the words of a buffer, four to a word with the least significant one first.
pub proof fn law_bytes_of_words(words: Seq<u32>, length: nat, i: int)
    requires
        0 <= i < length,
    ensures
        word_bytes(words, length).len() == length,
        i % 4 == 0 ==> word_bytes(words, length)[i] == words[i / 4] % 0x100,
        i % 4 == 1 ==> word_bytes(words, length)[i] == words[i / 4] / 0x100 % 0x100,
        i % 4 == 2 ==> word_bytes(words, length)[i] == words[i / 4] / 0x1_0000 % 0x100,
        i % 4 == 3 ==> word_bytes(words, length)[i] == words[i / 4] / 0x100_0000,
{
}

/// The lengths that the codes stand for.
pub proof fn law_length_codes(n: int)
    requires
        0 <= n < 16,
    ensures
        DataLength::is_valid(code_length(n)),
        n <= 8 ==> code_length(n) == n,
        8 < n <= 12 ==> code_length(n) == 4 * n - 24,
        n == 13 ==> code_length(n) == 32,
        n == 14 ==> code_length(n) == 48,
        n == 15 ==> code_length(n) == 64,
{
}

} // verus!
