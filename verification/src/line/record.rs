//! Per-unit result records — the append-only, MES-ready trace of every flash.

use vstd::prelude::*;

use crate::transport::discovery::text_view;

verus! {

/// Pass/fail outcome of a unit.
#[derive(Debug, Clone, Copy, PartialEq, Eq, Structural)]
pub enum Outcome {
    /// Flashed and verified booting the expected build.
    Pass,
    /// Failed at some phase (see `error`).
    Fail,
}

/// How long one phase of a flash took.
#[derive(Debug, Clone)]
pub struct PhaseTiming {
    /// The phase (`fdl1`, `fdl2`, `partitions`, `format`).
    pub phase: String,
    /// Wall-clock nanoseconds.
    pub nanos: u64,
}

/// One unit's traceable record, for the MES / audit log.
#[derive(Debug, Clone)]
pub struct UnitRecord {
    /// Unix epoch milliseconds when the unit started.
    pub ts_ms: u128,
    /// Station label (fixture).
    pub station: String,
    /// ERP work order the unit belongs to.
    pub work_order: Option<String>,
    /// Operator who ran the unit.
    pub operator: Option<String>,
    /// Download port used.
    pub port: String,
    /// PAC product name.
    pub product: String,
    /// PAC file name.
    pub pac: String,
    /// Outcome.
    pub result: Outcome,
    /// Attempts taken (1 = first-pass).
    pub attempts: u32,
    /// Payload bytes written.
    pub bytes: u64,
    /// Flash wall-clock nanoseconds.
    pub flash_nanos: u64,
    /// Total unit wall-clock nanoseconds (flash + verify + recovery).
    pub total_nanos: u64,
    /// Per-phase timings of the flash.
    pub phases: Vec<PhaseTiming>,
    /// Firmware banner read back after boot (if verified).
    pub firmware: Option<String>,
    /// IMEI read back after boot (if verified).
    pub imei: Option<String>,
    /// Error message on failure.
    pub error: Option<String>,
}

/// What a [`UnitRecord`] says, with its texts as characters.
pub struct Record {
    pub ts_ms: u128,
    pub station: Seq<char>,
    pub work_order: Option<Seq<char>>,
    pub operator: Option<Seq<char>>,
    pub port: Seq<char>,
    pub product: Seq<char>,
    pub pac: Seq<char>,
    pub result: Outcome,
    pub attempts: u32,
    pub bytes: u64,
    pub flash_nanos: u64,
    pub total_nanos: u64,
    pub phases: Seq<(Seq<char>, u64)>,
    pub firmware: Option<Seq<char>>,
    pub imei: Option<Seq<char>>,
    pub error: Option<Seq<char>>,
}

/// Some timings, with the names of the phases as characters.
pub open spec fn timing_views(v: Seq<PhaseTiming>) -> Seq<(Seq<char>, u64)> {
    v.map_values(|t: PhaseTiming| (t.phase@, t.nanos))
}

impl View for UnitRecord {
    type V = Record;

    open spec fn view(&self) -> Record {
        Record {
            ts_ms: self.ts_ms,
            station: self.station@,
            work_order: text_view(self.work_order),
            operator: text_view(self.operator),
            port: self.port@,
            product: self.product@,
            pac: self.pac@,
            result: self.result,
            attempts: self.attempts,
            bytes: self.bytes,
            flash_nanos: self.flash_nanos,
            total_nanos: self.total_nanos,
            phases: timing_views(self.phases@),
            firmware: text_view(self.firmware),
            imei: text_view(self.imei),
            error: text_view(self.error),
        }
    }
}

/// The views of some records.
pub open spec fn record_views(v: Seq<UnitRecord>) -> Seq<Record> {
    v.map_values(|r: UnitRecord| r@)
}

} // verus!
