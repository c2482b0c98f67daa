//! Configuration of the periphery.

use vstd::prelude::*;

use crate::frame::Mtu;

verus! {

/// Divider of the bit frequency for the internal timestamp counter.
#[derive(Debug, Clone, Copy, PartialEq, Eq, Structural)]
pub enum TimestampPrescaler {
    /// 1
    _1,
    /// 2
    _2,
    /// 3
    _3,
    /// 4
    _4,
    /// 5
    _5,
    /// 6
    _6,
    /// 7
    _7,
    /// 8
    Classic,
    /// 9
    _9,
    /// 10
    _10,
    /// 11
    _11,
    /// 12
    _12,
    /// 13
    _13,
    /// 14
    _14,
    /// 15
    _15,
    /// 16
    _16,
}

impl TimestampPrescaler {
    /// The number that the frequency is divided by.
    pub open spec fn divider(self) -> u8 {
        match self {
            TimestampPrescaler::_1 => 1,
            TimestampPrescaler::_2 => 2,
            TimestampPrescaler::_3 => 3,
            TimestampPrescaler::_4 => 4,
            TimestampPrescaler::_5 => 5,
            TimestampPrescaler::_6 => 6,
            TimestampPrescaler::_7 => 7,
            TimestampPrescaler::Classic => 8,
            TimestampPrescaler::_9 => 9,
            TimestampPrescaler::_10 => 10,
            TimestampPrescaler::_11 => 11,
            TimestampPrescaler::_12 => 12,
            TimestampPrescaler::_13 => 13,
            TimestampPrescaler::_14 => 14,
            TimestampPrescaler::_15 => 15,
            TimestampPrescaler::_16 => 16,
        }
    }

    /// Returns the number that the frequency is divided by.
    pub fn into_u8(self) -> (r: u8)
        ensures
            r == self.divider(),
            1 <= r <= 16,
    {
        match self {
            TimestampPrescaler::_1 => 1,
            TimestampPrescaler::_2 => 2,
            TimestampPrescaler::_3 => 3,
            TimestampPrescaler::_4 => 4,
            TimestampPrescaler::_5 => 5,
            TimestampPrescaler::_6 => 6,
            TimestampPrescaler::_7 => 7,
            TimestampPrescaler::Classic => 8,
            TimestampPrescaler::_9 => 9,
            TimestampPrescaler::_10 => 10,
            TimestampPrescaler::_11 => 11,
            TimestampPrescaler::_12 => 12,
            TimestampPrescaler::_13 => 13,
            TimestampPrescaler::_14 => 14,
            TimestampPrescaler::_15 => 15,
            TimestampPrescaler::_16 => 16,
        }
    }
}

/// Allowed frame format for reception and transmission.
#[derive(Debug, Clone, Copy, PartialEq, Eq, Structural)]
pub enum FrameFormat {
    /// Receive and transmit classic frames only.
    Classic,
    /// Receive classic and FD frames, transmit FD frames without bit rate switch.
    Fd,
    /// Receive classic and FD frames, transmit FD frames with bit rate switch.
    FdBrs,
}

impl FrameFormat {
    /// Tells whether FD frames are transmitted.
    pub fn fd(self) -> (r: bool)
        ensures
            r == (self != FrameFormat::Classic),
    {
        match self {
            FrameFormat::Classic => false,
            FrameFormat::Fd => true,
            FrameFormat::FdBrs => true,
        }
    }

    /// Tells whether frames are transmitted with bit rate switch.
    pub fn bit_rate_switch(self) -> (r: bool)
        ensures
            r == (self == FrameFormat::FdBrs),
    {
        match self {
            FrameFormat::Classic => false,
            FrameFormat::Fd => false,
            FrameFormat::FdBrs => true,
        }
    }

    /// Returns the transmission unit of the format.
    pub fn mtu(self) -> (r: Mtu)
        ensures
            r == (if self == FrameFormat::Classic { Mtu::Classic } else { Mtu::Fd }),
    {
        if self.fd() {
            Mtu::Fd
        } else {
            Mtu::Classic
        }
    }
}

/// Bit timing during arbitration phase and data phase without bit rate switch.
#[derive(Debug, Clone, Copy, PartialEq, Eq, Structural)]
pub struct NominalBitTiming {
    /// Prescaler for the oscillator frequency. The bit time is built from multiples of this
    /// quantum. Valid range: 1 to 512.
    pub prescaler: u16,
    /// Time segment 1, with propagation and phase segments. Valid range: 1 to 128.
    pub seg1: u8,
    /// Time segment 2. Valid range: 1 to 255.
    pub seg2: u8,
    /// Synchronization jump width for clock tolerance. Valid range: 1 to 128.
    pub sync_jump_width: u8,
}

impl NominalBitTiming {
    /// No number is zero.
    pub open spec fn wf(&self) -> bool {
        self.prescaler > 0 && self.seg1 > 0 && self.seg2 > 0 && self.sync_jump_width > 0
    }
}

impl Default for NominalBitTiming {
    /// 500 kbit/s for a kernel clock of 8 MHz.
    fn default() -> (r: Self)
        ensures
            r == (NominalBitTiming { prescaler: 1, seg1: 11, seg2: 4, sync_jump_width: 4 }),
    {
        Self { prescaler: 1, seg1: 11, seg2: 4, sync_jump_width: 4 }
    }
}

/// Transceiver delay compensation during data phase with bit rate switch.
///
/// During arbitration, the transmitter checks the bus state at the nominal sampling point to
/// detect collisions. In the data phase that would limit the loop delay of the transceiver to
/// the first segment of a bit. With this feature the loop delay is measured at the start of the
/// data phase, and a second sampling point is placed at the measured delay plus an offset.
#[derive(Debug, Clone, Copy, PartialEq, Eq, Structural)]
pub struct TransceiverDelayCompensation {
    /// Offset of the second sampling point in time quanta, typically half of the data bit time.
    /// Valid range: 0 to 127.
    pub offset: u8,
    /// Time in quanta during which dominant levels are not taken for the edge, to avoid locking
    /// to early glitches. Valid range: 0 to 127.
    pub filter_window_length: u8,
}

impl Default for TransceiverDelayCompensation {
    fn default() -> (r: Self)
        ensures
            r == (TransceiverDelayCompensation { offset: 0, filter_window_length: 0 }),
    {
        Self { offset: 0, filter_window_length: 0 }
    }
}

/// Bit timing during data phase with bit rate switch.
#[derive(Debug, Clone, Copy, PartialEq, Eq, Structural)]
pub struct DataBitTiming {
    /// Prescaler for the oscillator frequency during the data phase. Valid range: 1 to 31.
    pub prescaler: u8,
    /// Time segment 1, with propagation and phase segments. Valid range: 1 to 31.
    pub seg1: u8,
    /// Time segment 2. Valid range: 1 to 15.
    pub seg2: u8,
    /// Synchronization jump width for clock tolerance. Valid range: 1 to 15.
    pub sync_jump_width: u8,
    /// Transceiver delay compensation, recommended for data bit rates above 1 Mbps.
    pub tx_delay_compensation: Option<TransceiverDelayCompensation>,
}

impl DataBitTiming {
    /// No number is zero.
    pub open spec fn wf(&self) -> bool {
        self.prescaler > 0 && self.seg1 > 0 && self.seg2 > 0 && self.sync_jump_width > 0
    }
}

impl Default for DataBitTiming {
    /// 500 kbit/s for a kernel clock of 8 MHz.
    fn default() -> (r: Self)
        ensures
            r == (DataBitTiming {
                prescaler: 1,
                seg1: 11,
                seg2: 4,
                sync_jump_width: 4,
                tx_delay_compensation: None,
            }),
    {
        Self { prescaler: 1, seg1: 11, seg2: 4, sync_jump_width: 4, tx_delay_compensation: None }
    }
}

/// Timestamp source for received and transmitted frames.
#[derive(Debug, Clone, Copy, PartialEq, Eq, Structural)]
pub enum TimestampSource {
    /// The system clock, read when the driver takes the frame.
    System,
    /// The internal counter, with a prescaler applied to the bit frequency. The frequency should
    /// match the tick rate of the system clock. Bit rate switch affects the counter, so this is
    /// not for FD frames.
    Internal(TimestampPrescaler),
    /// The external timer TIM3. Its frequency should match the tick rate of the system clock.
    ExternalTIM3,
}

/// Loop-back of own frames inside of the periphery.
///
/// The receive pin is disconnected, and the transmitter ignores acknowledgement errors.
#[derive(Debug, Clone, Copy, PartialEq, Eq, Structural)]
pub enum TestMode {
    /// The transmit pin is connected to the output of the transmitter.
    ExternalLoopBack,
    /// The transmit pin is held recessive.
    InternalLoopBack,
}

/// Configuration of the driver.
#[derive(Debug, Clone, Copy, PartialEq, Eq, Structural)]
pub struct Config {
    /// Bit timing during arbitration and data phase without bit rate switch.
    pub nominal_bit_timing: NominalBitTiming,
    /// Bit timing during data phase with bit rate switch. Ignored for classic frames.
    pub data_bit_timing: DataBitTiming,
    /// Allowed frame format for reception and transmission.
    pub frame_format: FrameFormat,
    /// Two consecutive dominant quanta are required to detect an edge for synchronization.
    pub edge_filtering: bool,
    /// Frames with the reserved bit set are skipped, and not answered by an error frame.
    pub protocol_exception_handling: bool,
    /// Where timestamps come from.
    pub timestamp_source: TimestampSource,
    /// Loop-back mode, if any.
    pub test_mode: Option<TestMode>,
}

impl Config {
    /// The bit timings are usable.
    pub open spec fn wf(&self) -> bool {
        self.nominal_bit_timing.wf() && self.data_bit_timing.wf()
    }
}

impl Default for Config {
    fn default() -> (r: Self)
        ensures
            r.wf(),
            r == (Config {
                nominal_bit_timing: NominalBitTiming { prescaler: 1, seg1: 11, seg2: 4, sync_jump_width: 4 },
                data_bit_timing: DataBitTiming {
                    prescaler: 1,
                    seg1: 11,
                    seg2: 4,
                    sync_jump_width: 4,
                    tx_delay_compensation: None,
                },
                frame_format: FrameFormat::Classic,
                edge_filtering: false,
                protocol_exception_handling: true,
                timestamp_source: TimestampSource::System,
                test_mode: None,
            }),
    {
        Self {
            nominal_bit_timing: NominalBitTiming::default(),
            data_bit_timing: DataBitTiming::default(),
            frame_format: FrameFormat::Classic,
            edge_filtering: false,
            protocol_exception_handling: true,
            timestamp_source: TimestampSource::System,
            test_mode: None,
        }
    }
}

/// The dividers of the timestamp counter: one to sixteen, and eight for classic frames.
pub proof fn law_dividers(prescaler: TimestampPrescaler, n: int)
    requires
        n == (match prescaler {
            TimestampPrescaler::_1 => 1int,
            TimestampPrescaler::_2 => 2,
            TimestampPrescaler::_3 => 3,
            TimestampPrescaler::_4 => 4,
            TimestampPrescaler::_5 => 5,
            TimestampPrescaler::_6 => 6,
            TimestampPrescaler::_7 => 7,
            TimestampPrescaler::Classic => 8,
            TimestampPrescaler::_9 => 9,
            TimestampPrescaler::_10 => 10,
            TimestampPrescaler::_11 => 11,
            TimestampPrescaler::_12 => 12,
            TimestampPrescaler::_13 => 13,
            TimestampPrescaler::_14 => 14,
            TimestampPrescaler::_15 => 15,
            TimestampPrescaler::_16 => 16,
        }),
    ensures
        prescaler.divider() == n,
{
}

} // verus!
