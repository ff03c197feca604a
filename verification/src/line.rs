//! Manufacturing-line orchestration.
//!
//! Each fixture ([`station`]) takes a unit through flash → boot-verify
//! ([`verify`]) → record ([`record`]); a whole line is summed up here and in
//! [`metrics`]. Independent stations mean one bad unit never stalls the line.

use vstd::prelude::*;

use crate::flash::options::FlashOptions;
use crate::line::record::{record_views, Outcome, Record, UnitRecord};
use crate::line::station::StationConfig;

pub mod metrics;
pub mod record;
pub mod station;
pub mod verify;

pub use metrics::Metrics;
pub use verify::BootInfo;

verus! {

/// Line-wide configuration.
#[derive(Debug, Clone)]
pub struct LineConfig {
    /// One entry per physical fixture; all run concurrently.
    pub stations: Vec<StationConfig>,
    /// Cross-SDK format (erase + NV + PREPACK).
    pub format: bool,
    /// MIDST chunk size for partition writes.
    pub chunk: usize,
    /// Verify each unit boots the expected build (ATI/IMEI).
    pub verify: bool,
    /// Extra attempts per unit after the first.
    pub retries: u32,
    /// ERP work order to stamp into each record.
    pub work_order: Option<String>,
    /// Operator to stamp into each record.
    pub operator: Option<String>,
    /// Append per-unit JSON-lines records here (for the MES / audit log).
    pub records_path: Option<String>,
    /// Serve live metrics on this address.
    pub metrics_addr: Option<String>,
    /// Keep every station taking units until the line is stopped.
    pub continuous: bool,
}

impl LineConfig {
    /// How the units of this line are flashed: always with a reset, so that they boot.
    #[must_use]
    pub fn flash_options(&self) -> (r: FlashOptions)
        ensures
            r == (FlashOptions {
                format: self.format,
                chunk: self.chunk,
                baud: None,
                verify_readback: false,
                reset: true,
                reset_hold_ms: 1000,
                timeout_ms: 5000,
                exec_timeout_ms: 15000,
            }),
    {
        let mut opts: FlashOptions = FlashOptions::default();
        opts.format = self.format;
        opts.chunk = self.chunk;
        opts.reset = true;
        opts
    }

    /// Whether a station takes another unit after one that is done: only on a
    /// continuous line that was not stopped.
    #[must_use]
    pub fn takes_another(&self, stopped: bool) -> (r: bool)
        ensures
            r == (self.continuous && !stopped),
    {
        self.continuous && !stopped
    }
}

/// Aggregate result of a line run.
#[derive(Debug, Clone)]
pub struct LineSummary {
    /// All unit records, in completion order.
    pub records: Vec<UnitRecord>,
    /// Units attempted.
    pub total: usize,
    /// Units that passed.
    pub passed: usize,
    /// Units that failed.
    pub failed: usize,
    /// Wall-clock nanoseconds for the whole batch.
    pub wall_nanos: u64,
}

/// How many of some records are of units that passed.
pub open spec fn pass_count(records: Seq<Record>) -> nat
    decreases records.len(),
{
    if records.len() == 0 {
        0
    } else {
        pass_count(records.drop_last()) + if records.last().result == Outcome::Pass {
            1nat
        } else {
            0
        }
    }
}

/// Sum up the records of a line run.
#[must_use]
pub fn summarize(records: Vec<UnitRecord>, wall_nanos: u64) -> (r: LineSummary)
    ensures
        r.records@ == records@,
        r.total == records@.len(),
        r.passed == pass_count(record_views(records@)),
        r.failed == r.total - r.passed,
        r.wall_nanos == wall_nanos,
{
    let mut passed: usize = 0;
    let mut i: usize = 0;
    let ghost all = record_views(records@);
    proof {
        assert(all.take(0) =~= Seq::<Record>::empty());
    }
    while i < records.len()
        invariant
            i <= records@.len(),
            passed <= i,
            all == record_views(records@),
            passed == pass_count(all.take(i as int)),
        decreases records.len() - i,
    {
        proof {
            assert(all.take(i + 1).drop_last() =~= all.take(i as int));
            assert(all.take(i + 1).last() == records@[i as int]@);
        }
        if records[i].result == Outcome::Pass {
            passed += 1;
        }
        i += 1;
    }
    proof {
        assert(all.take(i as int) =~= all);
    }
    let total: usize = records.len();
    LineSummary { records, total, passed, failed: total - passed, wall_nanos }
}

impl LineSummary {
    /// Whether no unit failed.
    #[must_use]
    pub fn all_passed(&self) -> (r: bool)
        ensures
            r == (self.failed == 0),
    {
        self.failed == 0
    }
}

/// Each record counts by itself: those that passed in two batches are those in the first and
/// those in the second, and one record counts just if it passed.
pub proof fn law_passes_add_up(a: Seq<Record>, b: Seq<Record>, one: Record)
    ensures
        pass_count(Seq::empty()) == 0,
        pass_count(seq![one]) == if one.result == Outcome::Pass {
            1nat
        } else {
            0
        },
        pass_count(a + b) == pass_count(a) + pass_count(b),
        pass_count(a) <= a.len(),
    decreases a.len() + b.len(),
{
    assert(seq![one].drop_last() =~= Seq::<Record>::empty());
    reveal_with_fuel(pass_count, 2);
    if b.len() > 0 {
        assert((a + b).drop_last() =~= a + b.drop_last());
        law_passes_add_up(a, b.drop_last(), one);
    } else {
        assert(a + b =~= a);
        if a.len() > 0 {
            law_passes_add_up(a.drop_last(), b, one);
        }
    }
}

/// All of some units passed just if as many passed as there are.
pub proof fn law_all_passed(records: Seq<Record>)
    ensures
        pass_count(records) == records.len() <==> forall|i: int|
            0 <= i < records.len() ==> (#[trigger] records[i]).result == Outcome::Pass,
    decreases records.len(),
{
    if records.len() > 0 {
        let before = records.drop_last();
        law_all_passed(before);
        law_passes_add_up(before, Seq::empty(), records.last());
        assert(records[records.len() - 1] == records.last());
        if forall|i: int|
            0 <= i < before.len() ==> (#[trigger] before[i]).result == Outcome::Pass {
            assert forall|i: int| 0 <= i < records.len() && records.last().result
                == Outcome::Pass implies (#[trigger] records[i]).result == Outcome::Pass by {
                if i < before.len() {
                    assert(before[i] == records[i]);
                }
            }
        } else {
            let i = choose|i: int|
                0 <= i < before.len() && (#[trigger] before[i]).result != Outcome::Pass;
            assert(records[i] == before[i]);
        }
    }
}

} // verus!
