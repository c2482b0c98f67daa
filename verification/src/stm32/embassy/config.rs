//! Configuration of the adapter.

use vstd::prelude::*;

use crate::frame::Mtu;

verus! {

/// Allowed frame format for reception and transmission.
#[derive(Debug, Clone, Copy, PartialEq, Eq, Structural)]
pub enum FrameFormat {
    /// Receive and transmit classic frames only.
    Classic,
    /// Receive classic and FD frames; transmit FD frames without bit rate switch.
    Fd,
    /// Receive classic and FD frames; transmit FD frames with bit rate switch.
    FdBrs,
}

impl FrameFormat {
    /// Tells whether FD frames are transmitted.
    pub fn fd(self) -> (r: bool)
        ensures
            r == (self != FrameFormat::Classic),
    {
        match self {
            FrameFormat::Classic => false,
            FrameFormat::Fd => true,
            FrameFormat::FdBrs => true,
        }
    }

    /// Tells whether frames are transmitted with bit rate switch.
    pub fn bit_rate_switch(self) -> (r: bool)
        ensures
            r == (self == FrameFormat::FdBrs),
    {
        match self {
            FrameFormat::Classic => false,
            FrameFormat::Fd => false,
            FrameFormat::FdBrs => true,
        }
    }

    /// Returns the transmission unit of the format.
    pub fn mtu(&self) -> (r: Mtu)
        ensures
            r == (if *self == FrameFormat::Classic { Mtu::Classic } else { Mtu::Fd }),
    {
        if self.fd() {
            Mtu::Fd
        } else {
            Mtu::Classic
        }
    }
}

/// Configuration of the adapter.
#[derive(Debug, Clone, Copy, PartialEq, Eq, Structural)]
pub struct Config {
    /// Allowed frame format for reception and transmission.
    pub frame_format: FrameFormat,
}

impl Default for Config {
    fn default() -> (r: Self)
        ensures
            r.frame_format == FrameFormat::Classic,
    {
        Self { frame_format: FrameFormat::Classic }
    }
}

} // verus!
