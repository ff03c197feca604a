//! Tunables for a flash run.

use vstd::prelude::*;

verus! {

/// Options controlling a flash run — including the speed levers.
#[derive(Debug, Clone)]
pub struct FlashOptions {
    /// Replay the PAC's format markers (erase + NV template + PREPACK). Needed
    /// only for a firmware-TYPE change (e.g. LuatOS ⇄ CSDK).
    pub format: bool,
    /// MIDST data chunk size. Larger = fewer round trips (the dominant cost on
    /// the USB gadget). 528 matches the reference; 2048–4096 is much faster.
    pub chunk: usize,
    /// If set, issue `CHANGE_BAUD` to this rate after FDL2 comes up.
    pub baud: Option<u32>,
    /// After writing each partition, read it back and compare (high-assurance;
    /// roughly doubles the flash time).
    pub verify_readback: bool,
    /// Send `NORMAL_RESET` when done (so the module boots the new firmware).
    pub reset: bool,
    /// How long to hold the port open after `NORMAL_RESET` before closing, in
    /// milliseconds.
    pub reset_hold_ms: u64,
    /// Per-command response timeout, in milliseconds.
    pub timeout_ms: u64,
    /// Timeout for the slower `EXEC` of FDL2, in milliseconds.
    pub exec_timeout_ms: u64,
}

impl Default for FlashOptions {
    fn default() -> (r: Self)
        ensures
            r == (FlashOptions {
                format: false,
                chunk: 2048,
                baud: None,
                verify_readback: false,
                reset: true,
                reset_hold_ms: 1000,
                timeout_ms: 5000,
                exec_timeout_ms: 15000,
            }),
    {
        FlashOptions {
            format: false,
            chunk: 2048,
            baud: None,
            verify_readback: false,
            reset: true,
            reset_hold_ms: 1000,
            // 5 s absorbs USB jitter (notably usbipd → WSL latency spikes) while
            // still failing fast on a genuinely dead agent. ACKs normally arrive
            // in milliseconds, so this only bites when something is wrong.
            timeout_ms: 5000,
            exec_timeout_ms: 15000,
        }
    }
}

} // verus!
