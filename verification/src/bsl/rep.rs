//! Device → host reply opcodes.

use vstd::prelude::*;

verus! {

pub const ACK: u16 = 0x80;
pub const VER: u16 = 0x81;
pub const INVALID_CMD: u16 = 0x82;
pub const UNKNOWN_CMD: u16 = 0x83;
pub const OPERATION_FAILED: u16 = 0x84;
pub const READ_FLASH: u16 = 0x93;
pub const READ_CHIP_TYPE: u16 = 0x94;
pub const READ_CHIP_UID: u16 = 0xAB;
pub const UNSUPPORTED_COMMAND: u16 = 0xFE;

} // verus!
