//! What can go wrong while flashing.

use vstd::prelude::*;

use crate::error::{Error, Fault};
use crate::transport::{TransportError, TransportFault};

verus! {

/// BSL I/O errors.
#[derive(Debug)]
pub enum BslError {
    /// Transport failure.
    Transport(TransportError),
    /// A frame could not be decoded.
    Frame(Error),
    /// The device replied with an unexpected type.
    Unexpected {
        /// What we were doing.
        what: String,
        /// Expected reply name.
        expected: &'static str,
        /// Actual reply name.
        got: &'static str,
    },
}

/// What a [`BslError`] says.
pub enum BslFault {
    Transport(TransportFault),
    Frame(Fault),
    Unexpected { what: Seq<char>, expected: Seq<char>, got: Seq<char> },
}

impl View for BslError {
    type V = BslFault;

    open spec fn view(&self) -> BslFault {
        match *self {
            BslError::Transport(e) => BslFault::Transport(e@),
            BslError::Frame(e) => BslFault::Frame(e@),
            BslError::Unexpected { what, expected, got } => BslFault::Unexpected {
                what: what@,
                expected: expected@,
                got: got@,
            },
        }
    }
}

impl BslFault {
    /// Whether the device did not answer in time.
    pub open spec fn timed_out(self) -> bool {
        self matches BslFault::Transport(TransportFault::Timeout(_))
    }
}

impl BslError {
    /// True if this is a response timeout — worth retrying the stage at a smaller
    /// chunk (the tail-stall the generic `cdc_acm` driver hits over usbipd).
    #[must_use]
    pub fn is_timeout(&self) -> (r: bool)
        ensures
            r == self@.timed_out(),
    {
        match self {
            BslError::Transport(TransportError::Timeout(_)) => true,
            _ => false,
        }
    }
}

/// PDL I/O errors.
#[derive(Debug)]
pub enum PdlError {
    /// Transport failure.
    Transport(TransportError),
    /// No BSL VER frame after EXEC.
    NoVersion,
}

/// What a [`PdlError`] says.
pub enum PdlFault {
    Transport(TransportFault),
    NoVersion,
}

impl View for PdlError {
    type V = PdlFault;

    open spec fn view(&self) -> PdlFault {
        match *self {
            PdlError::Transport(e) => PdlFault::Transport(e@),
            PdlError::NoVersion => PdlFault::NoVersion,
        }
    }
}

/// A flash failure.
#[derive(Debug)]
pub enum FlashError {
    /// PDL phase failure.
    Pdl(PdlError),
    /// BSL phase failure.
    Bsl(BslError),
    /// The PAC had no usable flash plan.
    Plan(&'static str),
    /// A referenced payload was missing/out of range.
    Payload(String),
    /// The device did not answer with a VER frame.
    Version,
    /// A written partition read back different bytes (`--verify-readback`).
    VerifyMismatch(String),
    /// The device rejected even the base flash address, so its size is unknown.
    FlashSize,
}

/// What a [`FlashError`] says.
pub enum FlashFault {
    Pdl(PdlFault),
    Bsl(BslFault),
    Plan(Seq<char>),
    Payload(Seq<char>),
    Version,
    VerifyMismatch(Seq<char>),
    FlashSize,
}

impl View for FlashError {
    type V = FlashFault;

    open spec fn view(&self) -> FlashFault {
        match *self {
            FlashError::Pdl(e) => FlashFault::Pdl(e@),
            FlashError::Bsl(e) => FlashFault::Bsl(e@),
            FlashError::Plan(s) => FlashFault::Plan(s@),
            FlashError::Payload(s) => FlashFault::Payload(s@),
            FlashError::Version => FlashFault::Version,
            FlashError::VerifyMismatch(s) => FlashFault::VerifyMismatch(s@),
            FlashError::FlashSize => FlashFault::FlashSize,
        }
    }
}

} // verus!
