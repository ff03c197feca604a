//! Protocol core, flash driver and line logic for SPRD/UNISOC `.pac` firmware
//! (RDA8910 / UIS8910), proved with Verus.
//!
//! - [`pac`] parses and checks firmware packages, [`plan`] makes a flash plan of one.
//! - [`pdl`] and [`bsl`] frame the two link layers; [`checksum`] has their checksums.
//! - [`transport`] is what the driver needs of a serial port, and which ports are which.
//! - [`flash`] drives a device. Its contracts say, as a dialogue, what is told to the
//!   device and what comes of each answer; [`flash::laws`], [`flash::conduct`] and
//!   [`flash::deeds`] prove what holds of whole runs.
//! - [`reconstruct`] finds the partitions in a flash dump.
//! - [`line`] is a manufacturing line: its stations, records and metrics.
//! - [`cli`] is what the command line decides and prints.
//!
//! The functions named `law_...` state what holds of several functions together.

use vstd::prelude::*;

pub mod bsl;
pub mod bytes;
pub mod checksum;
pub mod cli;
pub mod error;
pub mod flash;
pub mod line;
pub mod pac;
pub mod pdl;
pub mod plan;
pub mod reconstruct;
pub mod text;
pub mod transport;

verus! {

/// Logical PAC "address" values at or above this are pseudo-entries (erase /
/// format / phase-check markers), not real load addresses.
pub const LOGICAL_ADDRESS_BASE: u32 = 0xFE00_0000;

} // verus!
