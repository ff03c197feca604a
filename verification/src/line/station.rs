//! A single station: take one unit through flash → boot-verify → record, with
//! bounded retries and recovery.
//!
//! What a station does with its ports and its device is up to its caller; here stands
//! what it decides on the way.

use vstd::prelude::*;

use crate::flash::flasher::{phase_views, FlashOutcome};
use crate::flash::options::FlashOptions;
use crate::line::record::{timing_views, Outcome, PhaseTiming, Record, UnitRecord};
use crate::line::verify::BootInfo;
use crate::pac::PacInfo;
use crate::text::owned;
use crate::transport::discovery::{
    copy_text, find_at_port, find_download_port, first_at, first_download, port_views, text_view,
    Port, PortInfo,
};

verus! {

/// Configuration for one physical station/fixture.
#[derive(Debug, Clone)]
pub struct StationConfig {
    /// Human label (e.g. `fixture-3`).
    pub label: String,
    /// The module's AT port (used to switch to download mode and to verify boot).
    pub at_port: Option<String>,
    /// The download-mode port; auto-detected if `None`.
    pub download_port: Option<String>,
}

/// What a [`StationConfig`] says, with its texts as characters.
pub struct Station {
    pub label: Seq<char>,
    pub at_port: Option<Seq<char>>,
    pub download_port: Option<Seq<char>>,
}

impl View for StationConfig {
    type V = Station;

    open spec fn view(&self) -> Station {
        Station {
            label: self.label@,
            at_port: text_view(self.at_port),
            download_port: text_view(self.download_port),
        }
    }
}

/// The work one unit needs done, shared read-only across stations.
pub struct UnitJob<'a> {
    /// Parsed PAC.
    pub info: &'a PacInfo,
    /// PAC bytes (mmap).
    pub pac: &'a [u8],
    /// PAC file name (for the record).
    pub pac_name: String,
    /// Flash options.
    pub opts: FlashOptions,
    /// Verify boot after flashing.
    pub verify: bool,
    /// Extra attempts after the first (with recovery between).
    pub retries: u32,
    /// ERP work order to stamp into the record.
    pub work_order: Option<String>,
    /// Operator to stamp into the record.
    pub operator: Option<String>,
}

// ---------------------------------------------------------------------------
// Attempts
// ---------------------------------------------------------------------------

/// What an attempt that went well brought.
#[derive(Debug)]
pub struct Success {
    /// Payload bytes written.
    pub bytes: u64,
    /// Flash wall-clock nanoseconds.
    pub flash_nanos: u64,
    /// Per-phase timings of the flash.
    pub phases: Vec<PhaseTiming>,
    /// Firmware banner read back after boot (if verified).
    pub firmware: Option<String>,
    /// IMEI read back after boot (if verified).
    pub imei: Option<String>,
}

fn timings(phases: &Vec<(String, u64)>) -> (r: Vec<PhaseTiming>)
    ensures
        timing_views(r@) == phase_views(phases@),
{
    let mut out: Vec<PhaseTiming> = Vec::new();
    let mut i: usize = 0;
    while i < phases.len()
        invariant
            i <= phases@.len(),
            timing_views(out@) == phase_views(phases@.take(i as int)),
        decreases phases.len() - i,
    {
        let ghost done = timing_views(out@);
        out.push(PhaseTiming { phase: owned(phases[i].0.as_str()), nanos: phases[i].1 });
        i += 1;
        proof {
            assert(timing_views(out@) =~= done.push((phases@[i - 1].0@, phases@[i - 1].1)));
            assert(phase_views(phases@.take(i as int)) =~= phase_views(phases@.take(i - 1)).push(
                (phases@[i - 1].0@, phases@[i - 1].1),
            ));
        }
    }
    proof {
        assert(phases@.take(i as int) =~= phases@);
    }
    out
}

/// Whether this is what a flash that went well brought, with what the module reported if
/// its boot was verified.
pub open spec fn brought(s: Success, outcome: FlashOutcome, boot: Option<BootInfo>) -> bool {
    &&& s.bytes == outcome.bytes_written
    &&& s.flash_nanos == outcome.nanos
    &&& timing_views(s.phases@) == phase_views(outcome.phases@)
    &&& match boot {
        Some(b) => text_view(s.firmware) == Some(b.firmware@) && text_view(s.imei) == Some(b.imei@),
        None => s.firmware is None && s.imei is None,
    }
}

fn succeeded(outcome: &FlashOutcome, boot: Option<BootInfo>) -> (r: Success)
    ensures
        brought(r, *outcome, boot),
{
    let (firmware, imei): (Option<String>, Option<String>) = match boot {
        Some(b) => (Some(b.firmware), Some(b.imei)),
        None => (None, None),
    };
    Success {
        bytes: outcome.bytes_written,
        flash_nanos: outcome.nanos,
        phases: timings(&outcome.phases),
        firmware,
        imei,
    }
}

/// Whether the boot of a unit is checked after the flash: if that is asked for and the
/// unit was reset at all.
pub open spec fn boot_is_checked(job: UnitJob<'_>) -> bool {
    job.verify && job.opts.reset
}

/// Whether the boot of a unit is checked after the flash.
#[must_use]
pub fn checks_boot(job: &UnitJob<'_>) -> (r: bool)
    ensures
        r == boot_is_checked(*job),
{
    job.verify && job.opts.reset
}

/// Decide what an attempt came to, once its port was open: from the result of the flash,
/// whether a module was seen to come up after it, and what reading its boot answers came
/// to. A unit whose boot is checked passes only with a boot report.
pub fn attempt_outcome(
    job: &UnitJob<'_>,
    port: String,
    flashed: Result<FlashOutcome, String>,
    module_seen: bool,
    booted: Option<Result<BootInfo, String>>,
) -> (r: Result<(Success, String), String>)
    ensures
        match flashed {
            Err(why) => r matches Err(e) && e@ == "flash: "@ + why@,
            Ok(outcome) => if !boot_is_checked(*job) {
                r matches Ok((s, p)) && brought(s, outcome, None) && p@ == port@
            } else if !module_seen {
                r matches Err(e) && e@ == "module did not boot after flash"@
            } else {
                match booted {
                    Some(Ok(boot)) => r matches Ok((s, p)) && brought(s, outcome, Some(boot)) && p@
                        == port@,
                    Some(Err(why)) => r matches Err(e) && e@ == "verify: "@ + why@,
                    None => r matches Err(e) && e@ == "module did not boot after flash"@,
                }
            },
        },
{
    match flashed {
        Err(why) => Err(prefixed("flash: ", why.as_str())),
        Ok(outcome) => {
            if !checks_boot(job) {
                return Ok((succeeded(&outcome, None), port));
            }
            if !module_seen {
                return Err(owned("module did not boot after flash"));
            }
            match booted {
                Some(Ok(boot)) => Ok((succeeded(&outcome, Some(boot)), port)),
                Some(Err(why)) => Err(prefixed("verify: ", why.as_str())),
                None => Err(owned("module did not boot after flash")),
            }
        },
    }
}

fn prefixed(prefix: &str, text: &str) -> (r: String)
    ensures
        r@ == prefix@ + text@,
{
    let mut out: String = owned(prefix);
    out.append(text);
    out
}

/// What can go wrong before a station has its port open.
#[derive(Debug)]
pub enum PortTrouble {
    /// There is no download port, and no AT port to switch by.
    NoWay,
    /// `AT*DOWNLOAD=1` could not be sent: what the driver said.
    Switch(String),
    /// The download port did not appear after the switch.
    NeverAppeared,
    /// The port, with this name, could not be opened: what the driver said.
    Open(String, String),
}

/// How an attempt fails for want of an open port.
pub fn port_failure(trouble: &PortTrouble) -> (r: String)
    ensures
        r@ == match *trouble {
            PortTrouble::NoWay => "enter download: no download port and no AT port to switch"@,
            PortTrouble::Switch(why) => "enter download: "@ + why@,
            PortTrouble::NeverAppeared => "enter download: download port did not appear"@,
            PortTrouble::Open(port, why) => "open "@ + port@ + ": "@ + why@,
        },
{
    match trouble {
        PortTrouble::NoWay => owned("enter download: no download port and no AT port to switch"),
        PortTrouble::Switch(why) => prefixed("enter download: ", why.as_str()),
        PortTrouble::NeverAppeared => owned("enter download: download port did not appear"),
        PortTrouble::Open(port, why) => {
            let mut out: String = prefixed("open ", port.as_str());
            out.append(": ");
            out.append(why.as_str());
            out
        },
    }
}

/// What to do after an attempt.
#[derive(Debug)]
pub enum Verdict {
    /// The unit is done, with this record.
    Done(UnitRecord),
    /// Recover, and try again: that will be the attempt with this number.
    Retry(u32),
}

/// The record of a unit that passed.
pub open spec fn pass_record(
    station: Station,
    job: UnitJob<'_>,
    ts_ms: u128,
    attempt: u32,
    success: Success,
    port: Seq<char>,
    total_nanos: u64,
) -> Record {
    Record {
        ts_ms,
        station: station.label,
        work_order: text_view(job.work_order),
        operator: text_view(job.operator),
        port,
        product: job.info@.product_name,
        pac: job.pac_name@,
        result: Outcome::Pass,
        attempts: attempt,
        bytes: success.bytes,
        flash_nanos: success.flash_nanos,
        total_nanos,
        phases: timing_views(success.phases@),
        firmware: text_view(success.firmware),
        imei: text_view(success.imei),
        error: None,
    }
}

/// The record of a unit that failed: with what went wrong in the last attempt.
pub open spec fn fail_record(
    station: Station,
    job: UnitJob<'_>,
    ts_ms: u128,
    attempt: u32,
    error: Seq<char>,
    total_nanos: u64,
) -> Record {
    Record {
        ts_ms,
        station: station.label,
        work_order: text_view(job.work_order),
        operator: text_view(job.operator),
        port: match station.download_port {
            Some(p) => p,
            None => Seq::empty(),
        },
        product: job.info@.product_name,
        pac: job.pac_name@,
        result: Outcome::Fail,
        attempts: attempt,
        bytes: 0,
        flash_nanos: 0,
        total_nanos,
        phases: Seq::empty(),
        firmware: None,
        imei: None,
        error: Some(error),
    }
}

/// What an attempt came to: what it brought and the port it was made on, or what went
/// wrong.
pub type Attempt = Result<(Success, Seq<char>), Seq<char>>;

/// What the result of an attempt says, with its texts as characters.
pub open spec fn attempt_view(tried: Result<(Success, String), String>) -> Attempt {
    match tried {
        Ok((success, port)) => Ok((success, port@)),
        Err(e) => Err(e@),
    }
}

/// The record with which an attempt ends a unit, if it does: a success does; so does a
/// failure of the last attempt that the unit has.
pub open spec fn settled(
    station: Station,
    job: UnitJob<'_>,
    ts_ms: u128,
    attempt: u32,
    tried: Attempt,
    total_nanos: u64,
) -> Option<Record> {
    match tried {
        Ok((success, port)) => Some(
            pass_record(station, job, ts_ms, attempt, success, port, total_nanos),
        ),
        Err(e) => if attempt <= job.retries {
            None
        } else {
            Some(fail_record(station, job, ts_ms, attempt, e, total_nanos))
        },
    }
}

/// Decide what to do after the attempt with this number (the first is 1) of a unit
/// that was begun at `ts_ms`: a success ends it; so does a failure of the last attempt
/// that it has; after any other failure it is tried again.
#[must_use]
pub fn settle_attempt(
    station: &StationConfig,
    job: &UnitJob<'_>,
    ts_ms: u128,
    attempt: u32,
    tried: Result<(Success, String), String>,
    total_nanos: u64,
) -> (r: Verdict)
    requires
        attempt < u32::MAX || job.retries < u32::MAX,
    ensures
        match settled(station@, *job, ts_ms, attempt, attempt_view(tried), total_nanos) {
            Some(record) => r matches Verdict::Done(rec) && rec@ == record,
            None => r == Verdict::Retry((attempt + 1) as u32),
        },
        r matches Verdict::Done(rec) ==> rec.station@ == station.label@ && rec.ts_ms == ts_ms
            && rec.total_nanos == total_nanos && rec.attempts == attempt,
        r matches Verdict::Done(rec) ==> match tried {
            Ok((success, port)) => rec.result == Outcome::Pass && rec.port@ == port@ && rec.bytes
                == success.bytes && rec.flash_nanos == success.flash_nanos && rec.phases@
                == success.phases@ && rec.firmware == success.firmware && rec.imei == success.imei
                && rec.error is None,
            Err(e) => rec.result == Outcome::Fail && (rec.error matches Some(why) && why@ == e@),
        },
{
    match tried {
        Ok((success, port)) => {
            let rec: UnitRecord = UnitRecord {
                ts_ms,
                station: owned(station.label.as_str()),
                work_order: copy_text(&job.work_order),
                operator: copy_text(&job.operator),
                port,
                product: owned(job.info.product_name.as_str()),
                pac: owned(job.pac_name.as_str()),
                result: Outcome::Pass,
                attempts: attempt,
                bytes: success.bytes,
                flash_nanos: success.flash_nanos,
                total_nanos,
                phases: success.phases,
                firmware: success.firmware,
                imei: success.imei,
                error: None,
            };
            Verdict::Done(rec)
        },
        Err(e) => {
            if attempt <= job.retries {
                return Verdict::Retry(attempt + 1);
            }
            let port: String = match &station.download_port {
                Some(p) => owned(p.as_str()),
                None => String::new(),
            };
            let phases: Vec<PhaseTiming> = Vec::new();
            proof {
                assert(timing_views(phases@) =~= Seq::<(Seq<char>, u64)>::empty());
            }
            let rec: UnitRecord = UnitRecord {
                ts_ms,
                station: owned(station.label.as_str()),
                work_order: copy_text(&job.work_order),
                operator: copy_text(&job.operator),
                port,
                product: owned(job.info.product_name.as_str()),
                pac: owned(job.pac_name.as_str()),
                result: Outcome::Fail,
                attempts: attempt,
                bytes: 0,
                flash_nanos: 0,
                total_nanos,
                phases,
                firmware: None,
                imei: None,
                error: Some(e),
            };
            Verdict::Done(rec)
        },
    }
}

// ---------------------------------------------------------------------------
// Ports
// ---------------------------------------------------------------------------

/// How a station gets to its download port.
#[derive(Debug)]
pub enum DownloadStep {
    /// Use this port.
    Use(String),
    /// Send `AT*DOWNLOAD=1` on this port and wait for the download port.
    SwitchVia(String),
    /// There is no way to one.
    NoWay,
}

/// What a [`DownloadStep`] says, with its texts as characters.
pub enum DownloadWay {
    Use(Seq<char>),
    SwitchVia(Seq<char>),
    NoWay,
}

impl View for DownloadStep {
    type V = DownloadWay;

    open spec fn view(&self) -> DownloadWay {
        match *self {
            DownloadStep::Use(p) => DownloadWay::Use(p@),
            DownloadStep::SwitchVia(p) => DownloadWay::SwitchVia(p@),
            DownloadStep::NoWay => DownloadWay::NoWay,
        }
    }
}

/// How a station gets to its download port, when the ports are looked at twice. The
/// configured port counts if any download port was seen at the first look, or if there
/// is no AT port to switch by; else one that was seen at the second look; else the
/// module is switched by its AT port.
pub open spec fn download_way(
    station: Station,
    first_look: Seq<Port>,
    second_look: Seq<Port>,
) -> DownloadWay {
    if station.download_port is Some && (first_download(first_look) is Some
        || station.at_port is None) {
        DownloadWay::Use(station.download_port->0)
    } else {
        match first_download(second_look) {
            Some(p) => DownloadWay::Use(p.name),
            None => match station.at_port {
                Some(at) => DownloadWay::SwitchVia(at),
                None => DownloadWay::NoWay,
            },
        }
    }
}

/// Decide how the station gets to its download port, from the ports seen at two looks.
#[must_use]
pub fn ensure_download(
    station: &StationConfig,
    first_look: &[PortInfo],
    second_look: &[PortInfo],
) -> (r: DownloadStep)
    ensures
        r@ == download_way(station@, port_views(first_look@), port_views(second_look@)),
{
    if let Some(p) = &station.download_port {
        if find_download_port(first_look).is_some() || station.at_port.is_none() {
            return DownloadStep::Use(owned(p.as_str()));
        }
    }
    if let Some(p) = find_download_port(second_look) {
        return DownloadStep::Use(p.name);
    }
    match &station.at_port {
        Some(at) => DownloadStep::SwitchVia(owned(at.as_str())),
        None => DownloadStep::NoWay,
    }
}

/// The AT port to verify on: the configured one, else one whose product says so, else
/// the first module port; empty if there is none.
pub open spec fn at_port_of(station: Station, mods: Seq<Port>) -> Seq<char> {
    match station.at_port {
        Some(at) => at,
        None => match first_at(mods) {
            Some(p) => p.name,
            None => if mods.len() > 0 {
                mods[0].name
            } else {
                Seq::empty()
            },
        },
    }
}

/// Choose the AT port to verify on: the configured one, else a discovered " AT".
#[must_use]
pub fn pick_at_port(station: &StationConfig, mods: &[PortInfo]) -> (r: String)
    ensures
        r@ == at_port_of(station@, port_views(mods@)),
{
    if let Some(at) = &station.at_port {
        return owned(at.as_str());
    }
    if let Some(p) = find_at_port(mods) {
        return p.name;
    }
    if mods.len() > 0 {
        proof {
            assert(port_views(mods@)[0] == mods@[0]@);
        }
        return owned(mods[0].name.as_str());
    }
    String::new()
}

// ---------------------------------------------------------------------------
// Recovery
// ---------------------------------------------------------------------------

/// What to do between attempts.
#[derive(Debug)]
pub enum RecoveryStep {
    /// Wait this many milliseconds.
    Wait(u64),
    /// Send `AT*DOWNLOAD=1` on this port, and wait this many milliseconds.
    Redownload(String, u64),
    /// Go on at once.
    Nothing,
}

/// Best-effort recovery between attempts, given whether the download device was
/// restarted: a restarted device gets time to come up; else the module is switched by
/// its AT port, if it has one.
#[must_use]
pub fn recover(station: &StationConfig, restarted: bool) -> (r: RecoveryStep)
    ensures
        if restarted {
            r == RecoveryStep::Wait(6000)
        } else {
            match station@.at_port {
                Some(at) => r matches RecoveryStep::Redownload(p, ms) && p@ == at && ms == 2000,
                None => r is Nothing,
            }
        },
{
    if restarted {
        return RecoveryStep::Wait(6000);
    }
    match &station.at_port {
        Some(at) => RecoveryStep::Redownload(owned(at.as_str()), 2000),
        None => RecoveryStep::Nothing,
    }
}

// ---------------------------------------------------------------------------
// A unit as a whole
// ---------------------------------------------------------------------------

/// The record of a unit whose attempts, from the one with number `from` on, come to
/// `tries`, each with the time it took until then; there is none if they all leave it
/// to be tried again.
pub open spec fn unit_record(
    station: Station,
    job: UnitJob<'_>,
    ts_ms: u128,
    from: u32,
    tries: Seq<(Attempt, u64)>,
) -> Option<Record>
    decreases tries.len(),
{
    if tries.len() == 0 {
        None
    } else {
        match settled(station, job, ts_ms, from, tries[0].0, tries[0].1) {
            Some(record) => Some(record),
            None => unit_record(station, job, ts_ms, (from + 1) as u32, tries.skip(1)),
        }
    }
}

/// The first of some attempts that succeeds.
pub open spec fn first_success(tries: Seq<(Attempt, u64)>) -> Option<int>
    decreases tries.len(),
{
    if tries.len() == 0 {
        None
    } else if tries[0].0 is Ok {
        Some(0)
    } else {
        match first_success(tries.skip(1)) {
            Some(i) => Some(i + 1),
            None => None,
        }
    }
}

proof fn lemma_unit_from(
    station: Station,
    job: UnitJob<'_>,
    ts_ms: u128,
    from: u32,
    tries: Seq<(Attempt, u64)>,
)
    requires
        1 <= from <= job.retries + 1,
        job.retries < u32::MAX,
        tries.len() == job.retries + 2 - from,
    ensures
        unit_record(station, job, ts_ms, from, tries) matches Some(record) && match first_success(
            tries,
        ) {
            Some(i) => 0 <= i < tries.len() && record.result == Outcome::Pass && record.attempts
                == from + i && record.error is None,
            None => record.result == Outcome::Fail && record.attempts == job.retries + 1
                && record.error == Some(tries.last().0->Err_0),
        },
    decreases tries.len(),
{
    if tries[0].0 is Err && from <= job.retries {
        lemma_unit_from(station, job, ts_ms, (from + 1) as u32, tries.skip(1));
        assert(tries.skip(1).last() == tries.last());
    } else if tries[0].0 is Err {
        assert(first_success(tries.skip(1)) is None);
    }
}

/// A unit has one attempt more than its retries. It passes just if one of them
/// succeeds, with the number of the first one that does and no error; else it fails,
/// with the number of the last one and what went wrong there.
pub proof fn law_unit_has_its_retries(
    station: Station,
    job: UnitJob<'_>,
    ts_ms: u128,
    tries: Seq<(Attempt, u64)>,
)
    requires
        job.retries < u32::MAX,
        tries.len() == job.retries + 1,
    ensures
        unit_record(station, job, ts_ms, 1, tries) matches Some(record) && match first_success(
            tries,
        ) {
            Some(i) => 0 <= i < tries.len() && record.result == Outcome::Pass && record.attempts
                == i + 1 && record.error is None,
            None => record.result == Outcome::Fail && record.attempts == tries.len()
                && record.error == Some(tries.last().0->Err_0),
        },
{
    lemma_unit_from(station, job, ts_ms, 1, tries);
}

// ---------------------------------------------------------------------------
// What records and ports promise
// ---------------------------------------------------------------------------

/// The record that ends a unit, passed or failed, names the station it was run on, the time
/// it was begun, the total time it took and the attempts, and the job's work order, operator,
/// product and file. A unit that passed also names the port of its last attempt and what
/// that attempt brought, and no error; one that failed names what went wrong, and brings
/// nothing. A unit is not ended just by a failure that leaves it attempts.
pub proof fn law_record_is_of_its_unit(
    station: Station,
    job: UnitJob<'_>,
    ts_ms: u128,
    attempt: u32,
    tried: Attempt,
    total_nanos: u64,
)
    ensures
        match settled(station, job, ts_ms, attempt, tried, total_nanos) {
            None => tried is Err && attempt <= job.retries,
            Some(rec) => {
                &&& rec.station == station.label
                &&& rec.ts_ms == ts_ms
                &&& rec.total_nanos == total_nanos
                &&& rec.attempts == attempt
                &&& rec.work_order == text_view(job.work_order)
                &&& rec.operator == text_view(job.operator)
                &&& rec.product == job.info.product_name@
                &&& rec.pac == job.pac_name@
                &&& match tried {
                    Ok((success, port)) => {
                        &&& rec.result == Outcome::Pass
                        &&& rec.port == port
                        &&& rec.bytes == success.bytes
                        &&& rec.flash_nanos == success.flash_nanos
                        &&& rec.phases.len() == success.phases@.len()
                        &&& forall|i: int|
                            0 <= i < rec.phases.len() ==> (#[trigger] rec.phases[i]).0
                                == success.phases@[i].phase@ && rec.phases[i].1
                                == success.phases@[i].nanos
                        &&& rec.firmware == text_view(success.firmware)
                        &&& rec.imei == text_view(success.imei)
                        &&& rec.error is None
                    },
                    Err(why) => {
                        &&& attempt > job.retries
                        &&& rec.result == Outcome::Fail
                        &&& rec.error == Some(why)
                        &&& rec.port == match station.download_port {
                            Some(port) => port,
                            None => Seq::empty(),
                        }
                        &&& rec.bytes == 0 && rec.flash_nanos == 0 && rec.phases.len() == 0
                        &&& rec.firmware is None && rec.imei is None
                    },
                }
            },
        },
{
}

/// Two records of units on two stations tell the stations apart by their labels, whatever
/// else happened.
pub proof fn law_records_tell_stations_apart(
    a: Station,
    b: Station,
    job: UnitJob<'_>,
    ts_ms: u128,
    attempt: u32,
    tried: Attempt,
    total_nanos: u64,
)
    requires
        a.label != b.label,
        settled(a, job, ts_ms, attempt, tried, total_nanos) is Some,
        settled(b, job, ts_ms, attempt, tried, total_nanos) is Some,
    ensures
        (settled(a, job, ts_ms, attempt, tried, total_nanos)->0).station != (settled(
            b,
            job,
            ts_ms,
            attempt,
            tried,
            total_nanos,
        )->0).station,
{
}

proof fn lemma_unit_record_from(
    station: Station,
    job: UnitJob<'_>,
    ts_ms: u128,
    from: u32,
    tries: Seq<(Attempt, u64)>,
)
    requires
        1 <= from <= job.retries + 1,
        job.retries < u32::MAX,
        tries.len() == job.retries + 2 - from,
    ensures
        unit_record(station, job, ts_ms, from, tries) matches Some(rec) && rec.station
            == station.label && rec.ts_ms == ts_ms && match first_success(tries) {
            Some(i) => 0 <= i < tries.len() && tries[i].0 is Ok && rec.port == (
            tries[i].0->Ok_0).1 && rec.bytes == (tries[i].0->Ok_0).0.bytes && rec.total_nanos
                == tries[i].1 && rec.firmware == text_view((tries[i].0->Ok_0).0.firmware)
                && rec.imei == text_view((tries[i].0->Ok_0).0.imei),
            None => rec.bytes == 0 && rec.total_nanos == tries.last().1,
        },
    decreases tries.len(),
{
    if tries[0].0 is Err && from <= job.retries {
        lemma_unit_record_from(station, job, ts_ms, (from + 1) as u32, tries.skip(1));
        assert(tries.skip(1).last() == tries.last());
    } else if tries[0].0 is Err {
        assert(first_success(tries.skip(1)) is None);
    }
}

/// The record of a unit is of its first attempt that succeeds: with the port of that
/// attempt, what it brought, and the time until then; if none does, it brings nothing, and
/// has the time until the last one. The first success is the first.
pub proof fn law_unit_record_is_of_its_attempt(
    station: Station,
    job: UnitJob<'_>,
    ts_ms: u128,
    tries: Seq<(Attempt, u64)>,
)
    requires
        job.retries < u32::MAX,
        tries.len() == job.retries + 1,
    ensures
        unit_record(station, job, ts_ms, 1, tries) matches Some(rec) && rec.station
            == station.label && rec.ts_ms == ts_ms && match first_success(tries) {
            Some(i) => 0 <= i < tries.len() && tries[i].0 is Ok && rec.port == (
            tries[i].0->Ok_0).1 && rec.bytes == (tries[i].0->Ok_0).0.bytes && rec.total_nanos
                == tries[i].1 && rec.firmware == text_view((tries[i].0->Ok_0).0.firmware)
                && rec.imei == text_view((tries[i].0->Ok_0).0.imei),
            None => rec.bytes == 0 && rec.total_nanos == tries.last().1,
        },
        match first_success(tries) {
            Some(i) => forall|j: int| 0 <= j < i ==> (#[trigger] tries[j]).0 is Err,
            None => forall|j: int| 0 <= j < tries.len() ==> (#[trigger] tries[j]).0 is Err,
        },
{
    lemma_unit_record_from(station, job, ts_ms, 1, tries);
    lemma_first_success(tries);
}

proof fn lemma_first_success(tries: Seq<(Attempt, u64)>)
    ensures
        match first_success(tries) {
            Some(i) => 0 <= i < tries.len() && tries[i].0 is Ok && forall|j: int|
                0 <= j < i ==> (#[trigger] tries[j]).0 is Err,
            None => forall|j: int| 0 <= j < tries.len() ==> (#[trigger] tries[j]).0 is Err,
        },
    decreases tries.len(),
{
    if tries.len() > 0 && tries[0].0 is Err {
        let rest = tries.skip(1);
        lemma_first_success(rest);
        assert forall|j: int|
            0 <= j < (match first_success(tries) {
                Some(i) => i,
                None => tries.len() as int,
            }) implies (#[trigger] tries[j]).0 is Err by {
            if j > 0 {
                assert(rest[j - 1] == tries[j]);
            }
        }
    }
}

/// What a successful attempt brought is what the flash came to, and what the module
/// reported if its boot was checked: its banner as the firmware, its IMEI as the IMEI.
pub proof fn law_attempt_brings_what_it_did(
    s: Success,
    outcome: FlashOutcome,
    boot: Option<BootInfo>,
)
    requires
        brought(s, outcome, boot),
    ensures
        s.bytes == outcome.bytes_written,
        s.flash_nanos == outcome.nanos,
        s.phases@.len() == outcome.phases@.len(),
        forall|i: int|
            0 <= i < s.phases@.len() ==> (#[trigger] s.phases@[i]).phase@ == outcome.phases@[i].0@
                && s.phases@[i].nanos == outcome.phases@[i].1,
        match boot {
            Some(b) => (s.firmware matches Some(f) && f@ == b.firmware@) && (
            s.imei matches Some(i) && i@ == b.imei@),
            None => s.firmware is None && s.imei is None,
        },
{
    let t = timing_views(s.phases@);
    let p = phase_views(outcome.phases@);
    assert(t.len() == s.phases@.len() && p.len() == outcome.phases@.len());
    assert forall|i: int| 0 <= i < s.phases@.len() implies (#[trigger] s.phases@[i]).phase@
        == outcome.phases@[i].0@ && s.phases@[i].nanos == outcome.phases@[i].1 by {
        assert(t[i] == p[i]);
    }
}

/// The boot of a unit is checked just if that is asked for and the unit is reset.
pub proof fn law_boot_is_checked_after_a_reset(job: UnitJob<'_>)
    ensures
        boot_is_checked(job) <==> job.verify && job.opts.reset,
{
}

/// How a station gets to its download port. A port that it uses is the configured one, or
/// one in download mode that was seen; it switches only by its own AT port, and only if
/// no port in download mode was seen at the second look; and it has no way just if it has
/// neither an AT port nor a configured port, and saw none.
pub proof fn law_download_port_is_one_of_its_own(
    station: Station,
    first_look: Seq<Port>,
    second_look: Seq<Port>,
)
    ensures
        match download_way(station, first_look, second_look) {
            DownloadWay::Use(name) => station.download_port == Some(name) || exists|i: int|
                0 <= i < second_look.len() && (#[trigger] second_look[i]).is_download()
                    && second_look[i].name == name,
            DownloadWay::SwitchVia(name) => station.at_port == Some(name) && forall|i: int|
                0 <= i < second_look.len() ==> !(#[trigger] second_look[i]).is_download(),
            DownloadWay::NoWay => station.at_port is None && station.download_port is None
                && forall|i: int|
                0 <= i < second_look.len() ==> !(#[trigger] second_look[i]).is_download(),
        },
        station.download_port is Some && (station.at_port is None || exists|i: int|
            0 <= i < first_look.len() && (#[trigger] first_look[i]).is_download())
            ==> download_way(station, first_look, second_look) == DownloadWay::Use(
            station.download_port->0,
        ),
        station.download_port is None && (exists|i: int|
            0 <= i < second_look.len() && (#[trigger] second_look[i]).is_download())
            ==> download_way(station, first_look, second_look) is Use,
{
    crate::transport::discovery::law_first_download_port_is_found(first_look);
    crate::transport::discovery::law_first_download_port_is_found(second_look);
}

/// The AT port on which a boot is checked: the configured one if there is one; else, if the
/// product of any module port says that it is an AT port, the first such one; else the
/// first module port.
pub proof fn law_at_port_is_configured_or_found(station: Station, mods: Seq<Port>)
    ensures
        station.at_port is Some ==> at_port_of(station, mods) == station.at_port->0,
        station.at_port is None && (exists|i: int|
            0 <= i < mods.len() && (#[trigger] mods[i]).is_at()) ==> exists|i: int|
            0 <= i < mods.len() && (#[trigger] mods[i]).is_at() && at_port_of(station, mods)
                == mods[i].name && forall|j: int| 0 <= j < i ==> !(#[trigger] mods[j]).is_at(),
        station.at_port is None && mods.len() > 0 && (forall|i: int|
            0 <= i < mods.len() ==> !(#[trigger] mods[i]).is_at()) ==> at_port_of(station, mods)
            == mods[0].name,
        station.at_port is None && mods.len() == 0 ==> at_port_of(station, mods).len() == 0,
{
    crate::transport::discovery::law_first_at_port_is_found(mods);
}

} // verus!
