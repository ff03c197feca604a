//! Device flash driver: ties the protocol core to a byte transport.
//!
//! Flow (verified on real RDA8910 hardware):
//! `PDL connect → load FDL1 → exec → BSL VER → connect → load FDL2 → exec →
//! [CHANGE_BAUD] → write partitions → [format: erase + NV + PREPACK] → reset`.
//!
//! [`dialogue`] is the language in which the contracts say what is said to the
//! device, in what order, and what comes of each answer.

pub mod answered;
pub mod bsl_io;
pub mod conduct;
pub mod course;
pub mod deeds;
pub mod dialogue;
pub mod fault;
pub mod happened;
pub mod heard;
pub mod laws;
pub mod mismatch;
pub mod mock;
pub mod flasher;
pub mod options;
pub mod pace;
pub mod pdl_io;
pub mod procedure;
pub mod progress;
pub mod sent;

pub use fault::{BslError, FlashError, PdlError};
pub use flasher::{FlashOutcome, Flasher};
pub use options::FlashOptions;
pub use progress::{Progress, Quiet};
