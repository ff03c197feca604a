//! Host → device command opcodes.

use vstd::prelude::*;

verus! {

pub const CONNECT: u16 = 0x00;
pub const START_DATA: u16 = 0x01;
pub const MIDST_DATA: u16 = 0x02;
pub const END_DATA: u16 = 0x03;
pub const EXEC_DATA: u16 = 0x04;
pub const NORMAL_RESET: u16 = 0x05;
pub const READ_FLASH: u16 = 0x06;
pub const READ_CHIP_TYPE: u16 = 0x07;
pub const CHANGE_BAUD: u16 = 0x09;
pub const ERASE_FLASH: u16 = 0x0A;
pub const DISABLE_TRANSCODE: u16 = 0x21;
pub const READ_CHIP_UID: u16 = 0x1A;
pub const END_PROCESS: u16 = 0x7F;

} // verus!
