//! Configuration of the Nucleo-G431RB board.

use vstd::prelude::*;

use crate::stm32::native::config::{
    Config, DataBitTiming, FrameFormat, NominalBitTiming, TimestampSource, TransceiverDelayCompensation,
};

verus! {

/// Frequency of the kernel clock that the bit timings of the board count on.
pub const CAN_CLOCK_HZ: u64 = 40_000_000;

/// Number of bits per second of a bit that consists of the synchronization quantum and two
/// segments.
pub open spec fn bit_rate(clock_hz: int, prescaler: int, seg1: int, seg2: int) -> int {
    clock_hz / (prescaler * (1 + seg1 + seg2))
}

/// Returns the configuration of the periphery: at [`CAN_CLOCK_HZ`], 1 Mbit/s with the sample point
/// at 0.875, and 8 Mbit/s in the data phase.
pub fn make_can_config_native() -> (r: Config)
    ensures
        r.wf(),
        r == (Config {
            nominal_bit_timing: NominalBitTiming { prescaler: 5, seg1: 6, seg2: 1, sync_jump_width: 1 },
            data_bit_timing: DataBitTiming {
                prescaler: 1,
                seg1: 3,
                seg2: 1,
                sync_jump_width: 1,
                tx_delay_compensation: Some(
                    TransceiverDelayCompensation { offset: 3, filter_window_length: 0 },
                ),
            },
            frame_format: FrameFormat::FdBrs,
            edge_filtering: false,
            protocol_exception_handling: true,
            timestamp_source: TimestampSource::System,
            test_mode: None,
        }),
        bit_rate(
            CAN_CLOCK_HZ as int,
            r.nominal_bit_timing.prescaler as int,
            r.nominal_bit_timing.seg1 as int,
            r.nominal_bit_timing.seg2 as int,
        ) == 1_000_000,
        1000 * (1 + r.nominal_bit_timing.seg1) == 875 * (1 + r.nominal_bit_timing.seg1 + r.nominal_bit_timing.seg2),
        bit_rate(
            CAN_CLOCK_HZ as int,
            r.data_bit_timing.prescaler as int,
            r.data_bit_timing.seg1 as int,
            r.data_bit_timing.seg2 as int,
        ) == 8_000_000,
{
    let mut config = Config::default();
    config.nominal_bit_timing = NominalBitTiming { prescaler: 5, seg1: 6, seg2: 1, sync_jump_width: 1 };
    let compensation = TransceiverDelayCompensation::default();
    config.data_bit_timing =
    DataBitTiming {
        prescaler: 1,
        seg1: 3,
        seg2: 1,
        sync_jump_width: 1,
        // Without compensation a typical loop delay does not allow more than 4 Mbit/s. The offset
        // is the center of the bit.
        tx_delay_compensation: Some(TransceiverDelayCompensation { offset: 3, ..compensation }),
    };
    config.frame_format = FrameFormat::FdBrs;
    config.timestamp_source = TimestampSource::System;
    assert(5 * (1 + 6 + 1) == 40) by (nonlinear_arith);
    assert(1 * (1 + 3 + 1) == 5) by (nonlinear_arith);
    config
}

/// How the external oscillator is connected.
#[derive(Debug, Clone, Copy, PartialEq, Eq, Structural)]
pub enum HseMode {
    /// A crystal.
    Oscillator,
    /// A clock signal.
    Bypass,
}

/// The external oscillator.
#[derive(Debug, Clone, Copy, PartialEq, Eq, Structural)]
pub struct Hse {
    /// Frequency.
    pub freq_hz: u64,
    /// How it is connected.
    pub mode: HseMode,
}

/// Input of the phase-locked loop.
#[derive(Debug, Clone, Copy, PartialEq, Eq, Structural)]
pub enum PllSource {
    /// The internal oscillator.
    Hsi,
    /// The external oscillator.
    Hse,
}

/// The phase-locked loop.
#[derive(Debug, Clone, Copy, PartialEq, Eq, Structural)]
pub struct Pll {
    /// Input.
    pub source: PllSource,
    /// Divider of the input.
    pub prediv: u64,
    /// Multiplier.
    pub mul: u64,
    /// Divider of the P output, if it is used.
    pub divp: Option<u64>,
    /// Divider of the Q output, if it is used.
    pub divq: Option<u64>,
    /// Divider of the R output, if it is used.
    pub divr: Option<u64>,
}

/// Source of the system clock.
#[derive(Debug, Clone, Copy, PartialEq, Eq, Structural)]
pub enum Sysclk {
    /// The internal oscillator.
    Hsi,
    /// The external oscillator.
    Hse,
    /// The R output of the phase-locked loop.
    Pll1R,
}

/// Source of the kernel clock of the periphery.
#[derive(Debug, Clone, Copy, PartialEq, Eq, Structural)]
pub enum Fdcansel {
    /// The external oscillator.
    Hse,
    /// The Q output of the phase-locked loop.
    Pll1Q,
    /// The clock of the peripheral bus.
    Pclk1,
}

/// The clocks of the controller.
#[derive(Debug, Clone, Copy, PartialEq, Eq, Structural)]
pub struct ClockConfig {
    /// The internal oscillator is on.
    pub hsi: bool,
    /// The external oscillator, if it is on.
    pub hse: Option<Hse>,
    /// The phase-locked loop, if it is on.
    pub pll: Option<Pll>,
    /// Source of the system clock.
    pub sys: Sysclk,
    /// The core voltage is raised, as frequencies above 150 MHz need it.
    pub boost: bool,
    /// Source of the kernel clock of the periphery.
    pub fdcansel: Fdcansel,
}

impl ClockConfig {
    /// The frequency of the phase-locked loop when the external oscillator feeds it.
    pub open spec fn pll_hz(&self) -> int {
        (self.hse->0).freq_hz as int / (self.pll->0).prediv as int * (self.pll->0).mul as int
    }

    /// The frequency of the Q output of the phase-locked loop.
    pub open spec fn pll_q_hz(&self) -> int {
        self.pll_hz() / (self.pll->0).divq->0 as int
    }

    /// The frequency of the R output of the phase-locked loop.
    pub open spec fn pll_r_hz(&self) -> int {
        self.pll_hz() / (self.pll->0).divr->0 as int
    }
}

/// Returns the clocks of the controller. The external oscillator of 24 MHz feeds the phase-locked
/// loop, which runs at 320 MHz. Its R output, half of that, is the system clock, and its Q output,
/// a sixth of that, is the kernel clock of the periphery. The internal oscillator is off.
pub fn make_peripheral_config() -> (r: ClockConfig)
    ensures
        r == (ClockConfig {
            hsi: false,
            hse: Some(Hse { freq_hz: 24_000_000, mode: HseMode::Oscillator }),
            pll: Some(
                Pll {
                    source: PllSource::Hse,
                    prediv: 3,
                    mul: 40,
                    divp: None,
                    divq: Some(6),
                    divr: Some(2),
                },
            ),
            sys: Sysclk::Pll1R,
            boost: true,
            fdcansel: Fdcansel::Pll1Q,
        }),
        r.pll_hz() == 320_000_000,
        r.pll_q_hz() == 53_333_333,
        r.pll_r_hz() == 160_000_000,
        r.boost == (r.pll_r_hz() > 150_000_000),
{
    let r = ClockConfig {
        hsi: false,
        hse: Some(Hse { freq_hz: 24_000_000, mode: HseMode::Oscillator }),
        pll: Some(
            Pll { source: PllSource::Hse, prediv: 3, mul: 40, divp: None, divq: Some(6), divr: Some(2) },
        ),
        sys: Sysclk::Pll1R,
        boost: true,
        fdcansel: Fdcansel::Pll1Q,
    };
    assert(8_000_000 * 40 == 320_000_000) by (nonlinear_arith);
    assert(r.pll_hz() == 8_000_000 * 40);
    r
}

/// Bit timing of a phase.
#[derive(Debug, Clone, Copy, PartialEq, Eq, Structural)]
pub struct BitTiming {
    /// Prescaler for the oscillator frequency.
    pub prescaler: u16,
    /// Time segment 1.
    pub seg1: u8,
    /// Time segment 2.
    pub seg2: u8,
    /// Synchronization jump width.
    pub sync_jump_width: u8,
}

/// Bit timing of the data phase.
#[derive(Debug, Clone, Copy, PartialEq, Eq, Structural)]
pub struct FdBitTiming {
    /// Transceiver delay compensation is on.
    pub transceiver_delay_compensation: bool,
    /// The bit timing.
    pub timing: BitTiming,
}

/// The frames that may be sent.
#[derive(Debug, Clone, Copy, PartialEq, Eq, Structural)]
pub enum FrameTransmission {
    /// Classic frames only.
    ClassicCanOnly,
    /// FD frames too, without bit rate switch.
    AllowFdCan,
    /// FD frames too, with bit rate switch.
    AllowFdCanAndBrs,
}

/// Source of the timestamps of frames.
#[derive(Debug, Clone, Copy, PartialEq, Eq, Structural)]
pub enum FdTimestampSource {
    /// The internal counter, which counts bit times divided by a number.
    Prescaler(u8),
    /// Timer 3.
    FromTim3,
}

/// What happens to frames that pass no filter.
#[derive(Debug, Clone, Copy, PartialEq, Eq, Structural)]
pub enum NonMatchingFilter {
    /// They go to the first queue.
    IntoRxFifo0,
    /// They go to the second queue.
    IntoRxFifo1,
    /// They are rejected.
    Reject,
}

/// What happens to frames that no filter decides on.
#[derive(Debug, Clone, Copy, PartialEq, Eq, Structural)]
pub struct GlobalFilter {
    /// Frames with a standard identifier that pass no filter.
    pub handle_standard_frames: NonMatchingFilter,
    /// Frames with an extended identifier that pass no filter.
    pub handle_extended_frames: NonMatchingFilter,
    /// Remote frames with a standard identifier are rejected.
    pub reject_remote_standard_frames: bool,
    /// Remote frames with an extended identifier are rejected.
    pub reject_remote_extended_frames: bool,
}

/// Configuration of the periphery for the adapter, as far as the board sets it. The rest is as the
/// driver of the periphery has it.
#[derive(Debug, Clone, Copy, PartialEq, Eq, Structural)]
pub struct FdCanConfig {
    /// Bit timing of the arbitration phase.
    pub nbtr: BitTiming,
    /// Bit timing of the data phase.
    pub dbtr: FdBitTiming,
    /// Frames that were not acknowledged are sent again.
    pub automatic_retransmit: bool,
    /// The frames that may be sent.
    pub frame_transmit: FrameTransmission,
    /// Source of the timestamps.
    pub timestamp_source: FdTimestampSource,
    /// What happens to frames that no filter decides on.
    pub global_filter: GlobalFilter,
}

/// Returns the configuration of the periphery for the adapter: at [`CAN_CLOCK_HZ`], 1 Mbit/s with
/// the sample point at 0.875, and 4 Mbit/s with the sample point at 0.9 in the data phase. More
/// would need transceiver delay compensation.
pub fn make_can_config_embassy() -> (r: FdCanConfig)
    ensures
        r == (FdCanConfig {
            nbtr: BitTiming { prescaler: 5, seg1: 6, seg2: 1, sync_jump_width: 1 },
            dbtr: FdBitTiming {
                transceiver_delay_compensation: false,
                timing: BitTiming { prescaler: 1, seg1: 8, seg2: 1, sync_jump_width: 1 },
            },
            automatic_retransmit: true,
            frame_transmit: FrameTransmission::AllowFdCanAndBrs,
            timestamp_source: FdTimestampSource::Prescaler(1),
            global_filter: GlobalFilter {
                handle_standard_frames: NonMatchingFilter::Reject,
                handle_extended_frames: NonMatchingFilter::Reject,
                reject_remote_standard_frames: true,
                reject_remote_extended_frames: true,
            },
        }),
        bit_rate(CAN_CLOCK_HZ as int, r.nbtr.prescaler as int, r.nbtr.seg1 as int, r.nbtr.seg2 as int) == 1_000_000,
        1000 * (1 + r.nbtr.seg1) == 875 * (1 + r.nbtr.seg1 + r.nbtr.seg2),
        10 * (1 + r.dbtr.timing.seg1) == 9 * (1 + r.dbtr.timing.seg1 + r.dbtr.timing.seg2),
        bit_rate(
            CAN_CLOCK_HZ as int,
            r.dbtr.timing.prescaler as int,
            r.dbtr.timing.seg1 as int,
            r.dbtr.timing.seg2 as int,
        ) == 4_000_000,
{
    assert(5 * (1 + 6 + 1) == 40) by (nonlinear_arith);
    assert(1 * (1 + 8 + 1) == 10) by (nonlinear_arith);
    FdCanConfig {
        nbtr: BitTiming { prescaler: 5, seg1: 6, seg2: 1, sync_jump_width: 1 },
        dbtr: FdBitTiming {
            transceiver_delay_compensation: false,
            timing: BitTiming { prescaler: 1, seg1: 8, seg2: 1, sync_jump_width: 1 },
        },
        automatic_retransmit: true,
        frame_transmit: FrameTransmission::AllowFdCanAndBrs,
        timestamp_source: FdTimestampSource::Prescaler(1),
        global_filter: GlobalFilter {
            handle_standard_frames: NonMatchingFilter::Reject,
            handle_extended_frames: NonMatchingFilter::Reject,
            reject_remote_standard_frames: true,
            reject_remote_extended_frames: true,
        },
    }
}

} // verus!
