//! The [`Flasher`]: PDL → BSL → partitions → format → reset.

use vstd::prelude::*;

use crate::bsl::{cmd, frameable, is_frameable, parse_message, rep, unescape, Checksum};
use crate::bytes::{be32_bytes, push_be32, same_bytes};
use crate::flash::bsl_io::{
    address_after, at_least_one, bytes_said, connect_task, message_said, note, pieces_frameable,
    read_payload, read_request, reading, said, start_payload, still_to_read, BslIo, ImageNames,
};
use crate::flash::dialogue::{
    account, after, all_of, ask, extends, hear, held, in_turn, lemma_failed_at_first, lemma_outset,
    lemma_part_held_whatever_follows, lemma_rest_held, lemma_since, lemma_turn_held, reports_of,
    since, tell, Act, Dialogue, Link, Step, Talk, Task,
};
use crate::flash::fault::{BslError, FlashError, FlashFault, PdlError};
use crate::flash::options::FlashOptions;
use crate::flash::pdl_io::{
    executing, load_tasks, pdl_bytes_said, pdl_connect_task, pdl_said, PdlIo,
};
use crate::flash::procedure::{
    baud_talks, bring_up_talk, bytes_to_write, doubling, dump_full_session, dump_full_talk,
    dump_session, dump_talk, dumping, erase_talk, erase_talks, fdl1_talk, fdl2_phase, fdl2_talks,
    flash_talk, halving, imaging, marker_talk, marker_talks, nv_image, partition_talk,
    partition_talks, payload_bytes, polling, probe_session, probe_talk, probing, reset_talk, sizing,
    stage_image, law_short_chunks_are_stageable, stageable, sum, usual, verifying, version_in,
    writing, writing_talk, Flashed, Image, FDL_LOAD_CHUNK, FIRST_PROBE, MIN_ADAPTIVE_CHUNK,
    READBACK_CHUNK, SIZE_CAP, SIZE_GRAIN,
};
use crate::flash::progress::{Progress, Report};
use crate::pac::{Entry, PacEntry, PacInfo};
use crate::plan::{
    build, data_markers_of, is_nv, names_nv, no_fdl1, partitions_of, nv_fix_crc, nv_fixed,
    nv_start_payload, planned, EraseOp, FlashPlan, Plan,
};
use crate::text::{chars_of, decode_lossy, owned, string_of, trim};
use crate::transport::clock::{elapsed_nanos, now};
use crate::transport::Transport;

verus! {

/// What a result of the flash driver says, where there is nothing to give back but
/// that it went well.
pub open spec fn flash_said(r: Result<(), FlashError>) -> Result<(), FlashFault> {
    match r {
        Ok(()) => Ok(()),
        Err(e) => Err(e@),
    }
}

/// What a result of the flash driver says, with its text as characters.
pub open spec fn text_said(r: Result<String, FlashError>) -> Result<Seq<char>, FlashFault> {
    match r {
        Ok(s) => Ok(s@),
        Err(e) => Err(e@),
    }
}

/// What an entry that may be there says.
pub open spec fn entry_view(e: Option<&PacEntry>) -> Option<Entry> {
    match e {
        Some(e) => Some(e@),
        None => None,
    }
}

/// The version banner in a raw VER frame, flags included.
fn read_version(frame: &[u8]) -> (r: Option<String>)
    requires
        frame@.len() >= 2,
    ensures
        match r {
            Some(version) => version_in(frame@) == Some(version@),
            None => version_in(frame@) is None,
        },
{
    // strip 0x7e flags, unescape, parse the VER frame
    let inner: &[u8] = vstd::slice::slice_subrange(frame, 1, frame.len() - 1);
    let body: Vec<u8> = unescape(inner);
    match parse_message(&body) {
        Ok((kind, data)) => {
            if kind != rep::VER {
                return None;
            }
            let text: String = decode_lossy(data);
            Some(string_of(&trim(&chars_of(text.as_str()))))
        },
        Err(_) => None,
    }
}

/// Result of a successful flash.
#[derive(Debug, Clone)]
pub struct FlashOutcome {
    /// FDL1 version banner (e.g. `Spreadtrum Boot Block version 1.2`).
    pub version: String,
    /// Total payload bytes written (partitions + markers).
    pub bytes_written: u64,
    /// Wall-clock nanoseconds for the whole run.
    pub nanos: u64,
    /// Per-phase wall-clock nanoseconds (`fdl1`, `fdl2`, `partitions`, `format`),
    /// for line balancing and bottleneck analysis.
    pub phases: Vec<(String, u64)>,
}

/// What the result of a flash run says.
pub open spec fn outcome_said(r: Result<FlashOutcome, FlashError>) -> Result<
    Flashed,
    FlashFault,
> {
    match r {
        Ok(o) => Ok(Flashed { version: o.version@, bytes_written: o.bytes_written as nat }),
        Err(e) => Err(e@),
    }
}

/// How long the phases of a run took, in nanoseconds.
#[derive(Debug, Clone, Copy)]
pub struct PhaseTimes {
    /// Loading and starting FDL1.
    pub fdl1: u64,
    /// Loading and starting FDL2.
    pub fdl2: u64,
    /// Writing the partitions.
    pub partitions: u64,
    /// The format, if there was one.
    pub format: Option<u64>,
    /// The whole run.
    pub total: u64,
}

/// Some phases with their times, with their names as characters.
pub open spec fn phase_views(v: Seq<(String, u64)>) -> Seq<(Seq<char>, u64)> {
    v.map_values(|p: (String, u64)| (p.0@, p.1))
}

/// The phases of a run with the times they took, in order.
pub open spec fn phases_of(times: PhaseTimes) -> Seq<(Seq<char>, u64)> {
    seq![("fdl1"@, times.fdl1), ("fdl2"@, times.fdl2), ("partitions"@, times.partitions)]
        + match times.format {
        Some(format) => seq![("format"@, format)],
        None => Seq::empty(),
    }
}

/// The phases of a run are told in the order in which they come, each with the time that it
/// took; the format is among them just if there was one.
pub proof fn law_phases_are_told(times: PhaseTimes)
    ensures
        ({
            let v = phases_of(times);
            &&& v.len() == if times.format is Some {
                4int
            } else {
                3
            }
            &&& v[0].0 == "fdl1"@ && v[0].1 == times.fdl1
            &&& v[1].0 == "fdl2"@ && v[1].1 == times.fdl2
            &&& v[2].0 == "partitions"@ && v[2].1 == times.partitions
            &&& times.format is Some ==> v[3].0 == "format"@ && v[3].1 == times.format->0
        }),
{
}

/// What a run that succeeded comes to, from its version banner, the payload bytes it
/// wrote and the times its phases took.
#[must_use]
pub fn flash_outcome(version: String, bytes_written: u64, times: PhaseTimes) -> (r: FlashOutcome)
    ensures
        r.version@ == version@,
        r.bytes_written == bytes_written,
        r.nanos == times.total,
        phase_views(r.phases@) == phases_of(times),
{
    let mut phases: Vec<(String, u64)> = Vec::new();
    phases.push((owned("fdl1"), times.fdl1));
    phases.push((owned("fdl2"), times.fdl2));
    phases.push((owned("partitions"), times.partitions));
    if let Some(format) = times.format {
        phases.push((owned("format"), format));
    }
    proof {
        assert(phase_views(phases@) =~= phases_of(times));
    }
    FlashOutcome { version, bytes_written, nanos: times.total, phases }
}

/// Whether everything that a run is to write can be framed.
pub open spec fn run_frameable(plan: Plan, pac: Seq<u8>, opts: FlashOptions) -> bool {
    &&& forall|i: int|
        0 <= i < plan.partitions.len() ==> partition_stageable(
            #[trigger] plan.partitions[i],
            pac,
            opts,
        )
    &&& opts.format ==> forall|i: int|
        0 <= i < plan.data_markers.len() ==> marker_stageable(
            #[trigger] plan.data_markers[i],
            pac,
            opts,
        )
}

/// With a chunk of [`crate::bsl::MAX_DATA`] bytes or fewer, everything can be
/// framed.
pub proof fn law_runs_with_short_chunks_are_frameable(plan: Plan, pac: Seq<u8>, opts: FlashOptions)
    requires
        opts.chunk <= crate::bsl::MAX_DATA,
    ensures
        run_frameable(plan, pac, opts),
{
    let chunk = at_least_one(opts.chunk as int);
    assert forall|i: int| 0 <= i < plan.partitions.len() implies partition_stageable(
        #[trigger] plan.partitions[i],
        pac,
        opts,
    ) by {
        if let Some(data) = plan.partitions[i].payload(pac) {
            law_short_chunks_are_stageable(data, chunk);
        }
    }
    assert forall|i: int| 0 <= i < plan.data_markers.len() implies marker_stageable(
        #[trigger] plan.data_markers[i],
        pac,
        opts,
    ) by {
        if let Some(data) = plan.data_markers[i].payload(pac) {
            law_short_chunks_are_stageable(data, chunk);
            law_short_chunks_are_stageable(nv_fixed(data), chunk);
        }
    }
}

proof fn lemma_payload_bytes(entries: Seq<Entry>)
    ensures
        payload_bytes(entries) <= entries.len() * 0xFFFF_FFFF,
    decreases entries.len(),
{
    if entries.len() > 0 {
        lemma_payload_bytes(entries.drop_last());
    }
}

proof fn lemma_partitions_and_markers(entries: Seq<Entry>)
    ensures
        partitions_of(entries).len() + data_markers_of(entries).len() <= entries.len(),
    decreases entries.len(),
{
    reveal(Seq::filter);
    if entries.len() > 0 {
        lemma_partitions_and_markers(entries.drop_last());
    }
}

/// Drives a single device through a full flash.
pub struct Flasher {
    /// How to go about it.
    pub opts: FlashOptions,
}

impl Flasher {
    /// Create a flasher with the given options.
    #[must_use]
    pub fn new(opts: FlashOptions) -> (r: Self)
        ensures
            r.opts == opts,
    {
        Flasher { opts }
    }

    /// Whether this flasher can run `pac` (its parsed `info`): everything that is to be
    /// written can be framed at the chunk size asked for, and at those that timeouts may
    /// bring it down to.
    #[must_use]
    pub fn can_run(&self, info: &PacInfo, pac: &[u8]) -> (r: bool)
        ensures
            r == (info@.entries.len() <= u32::MAX && (planned(info@.entries) matches Some(plan)
                ==> run_frameable(plan, pac@, self.opts))),
    {
        if info.entries.len() as u64 > u32::MAX as u64 {
            return false;
        }
        let plan: FlashPlan<'_> = match build(info) {
            Ok(plan) => plan,
            Err(_) => return true,
        };
        let mut i: usize = 0;
        while i < plan.partitions.len()
            invariant
                i <= plan.partitions@.len(),
                planned(info@.entries) == Some(plan@),
                forall|k: int|
                    0 <= k < i ==> partition_stageable(
                        #[trigger] plan@.partitions[k],
                        pac@,
                        self.opts,
                    ),
            decreases plan.partitions.len() - i,
        {
            let e: &PacEntry = plan.partitions[i];
            proof {
                assert(plan@.partitions[i as int] == e@);
            }
            if let Some(data) = e.payload(pac) {
                if !is_stageable(data, self.opts.chunk) {
                    return false;
                }
            }
            i += 1;
        }
        if !self.opts.format {
            return true;
        }
        let mut i: usize = 0;
        while i < plan.data_markers.len()
            invariant
                i <= plan.data_markers@.len(),
                self.opts.format,
                planned(info@.entries) == Some(plan@),
                forall|k: int|
                    0 <= k < i ==> marker_stageable(
                        #[trigger] plan@.data_markers[k],
                        pac@,
                        self.opts,
                    ),
            decreases plan.data_markers.len() - i,
        {
            let e: &PacEntry = plan.data_markers[i];
            proof {
                assert(plan@.data_markers[i as int] == e@);
            }
            if let Some(data) = e.payload(pac) {
                let fits: bool = if is_nv(e.file_id.as_str()) {
                    is_stageable(&nv_fix_crc(data), self.opts.chunk)
                } else {
                    is_stageable(data, self.opts.chunk)
                };
                if !fits {
                    return false;
                }
            }
            i += 1;
        }
        true
    }

    /// Load FDL1 over PDL and start it; returns its version banner.
    fn start_fdl1<T: Transport, P: Progress>(
        &self,
        pdl: &mut PdlIo<'_, T>,
        fdl1: &PacEntry,
        pac: &[u8],
        progress: &mut P,
    ) -> (r: Result<String, FlashError>)
        requires
            old(pdl).wf(),
            old(pdl).timeout_ms == self.opts.timeout_ms,
        ensures
            final(pdl).continues(old(pdl)),
            after(fdl1_talk(fdl1@, pac@, self.opts), since(old(pdl).log@, final(pdl).log@)) == Dialogue::Over(
                text_said(r),
            ),
            final(progress).seen() == old(progress).seen() + reports_of(
                since(old(pdl).log@, final(pdl).log@),
            ),
            *final(final(pdl).port) == *final(old(pdl).port),
    {
        let ghost l0 = pdl.log@;
        let ghost whole = fdl1_talk(fdl1@, pac@, self.opts);
        let ghost seen0 = progress.seen();
        proof {
            lemma_outset(whole, l0);
            assert(seen0 + Seq::<Report>::empty() =~= seen0);
        }
        let data: &[u8] = match fdl1.payload(pac) {
            Some(data) => data,
            None => return Err(FlashError::Payload(fdl1.file_id.clone())),
        };
        let connected: Result<(), PdlError> = pdl.connect();
        let ghost l1 = pdl.log@;
        proof {
            lemma_part_held_whatever_follows(
                whole,
                pdl_connect_task(self.opts.timeout_ms).talk(),
                l0,
                l0,
                l1,
                pdl_said(connected),
            );
        }
        match connected {
            Ok(()) => {},
            Err(e) => return Err(FlashError::Pdl(e)),
        }
        let loaded: Result<(), PdlError> = pdl.send_image(fdl1.address, data, "FDL1", progress);
        let ghost l2 = pdl.log@;
        proof {
            lemma_part_held_whatever_follows(
                whole,
                all_of(load_tasks(fdl1@.address, data@, "FDL1"@, self.opts.timeout_ms)),
                l0,
                l1,
                l2,
                pdl_said(loaded),
            );
        }
        match loaded {
            Ok(()) => {},
            Err(e) => return Err(FlashError::Pdl(e)),
        }
        let started: Result<Vec<u8>, PdlError> = pdl.exec_and_get_ver(self.opts.exec_timeout_ms);
        proof {
            lemma_part_held_whatever_follows(
                whole,
                executing(self.opts.exec_timeout_ms),
                l0,
                l2,
                pdl.log@,
                pdl_bytes_said(started),
            );
        }
        let raw: Vec<u8> = match started {
            Ok(raw) => raw,
            Err(e) => return Err(FlashError::Pdl(e)),
        };
        match read_version(&raw) {
            Some(version) => Ok(version),
            None => Err(FlashError::Version),
        }
    }

    /// Bring the device from FDL1 to a connected FDL2, at the baud rate asked for.
    fn start_fdl2<T: Transport, P: Progress>(
        &self,
        bsl: &mut BslIo<'_, T>,
        fdl2: Option<&PacEntry>,
        pac: &[u8],
        progress: &mut P,
    ) -> (r: Result<(), FlashError>)
        requires
            old(bsl).wf(),
            old(bsl).link() == usual(self.opts),
        ensures
            final(bsl).continues(old(bsl)),
            after(
                fdl2_phase(entry_view(fdl2), pac@, self.opts),
                since(old(bsl).log@, final(bsl).log@),
            ) == Dialogue::Over(flash_said(r)),
            final(progress).seen() == old(progress).seen() + reports_of(
                since(old(bsl).log@, final(bsl).log@),
            ),
            *final(final(bsl).port) == *final(old(bsl).port),
    {
        let ghost l0 = bsl.log@;
        let ghost talks = seq![
            connect_task(usual(self.opts)).talk(),
            in_turn(fdl2_talks(entry_view(fdl2), pac@, self.opts)),
            in_turn(baud_talks(self.opts)),
        ];
        let ghost whole = in_turn(talks);
        let ghost seen0 = progress.seen();
        proof {
            lemma_outset(whole, l0);
            assert(seen0 + Seq::<Report>::empty() =~= seen0);
        }
        let connected: Result<(), BslError> = bsl.connect();
        let ghost l1 = bsl.log@;
        proof {
            lemma_turn_held(whole, talks, l0, l0, l1, said(connected));
        }
        match connected {
            Ok(()) => {},
            Err(e) => return Err(FlashError::Bsl(e)),
        }
        let loaded: Result<(), FlashError> = self.load_fdl2(bsl, fdl2, pac, progress);
        let ghost l2 = bsl.log@;
        proof {
            lemma_turn_held(whole, talks.skip(1), l0, l1, l2, flash_said(loaded));
            assert(reports_of(since(l0, l2)) =~= reports_of(since(l1, l2)));
        }
        match loaded {
            Ok(()) => {},
            Err(e) => return Err(e),
        }
        let changed: Result<(), FlashError> = self.change_baud(bsl);
        proof {
            lemma_turn_held(whole, talks.skip(1).skip(1), l0, l2, bsl.log@, flash_said(changed));
            assert(talks.skip(1).skip(1).skip(1) =~= Seq::<Talk<()>>::empty());
            assert(reports_of(since(l0, bsl.log@)) =~= reports_of(since(l0, l2)));
        }
        changed
    }

    /// Change the baud rate, if one is asked for.
    fn change_baud<T: Transport>(&self, bsl: &mut BslIo<'_, T>) -> (r: Result<(), FlashError>)
        requires
            old(bsl).wf(),
            old(bsl).link() == usual(self.opts),
        ensures
            final(bsl).continues(old(bsl)),
            after(
                in_turn(baud_talks(self.opts)),
                since(old(bsl).log@, final(bsl).log@),
            ) == Dialogue::Over(flash_said(r)),
            reports_of(since(old(bsl).log@, final(bsl).log@)) == Seq::<Report>::empty(),
            *final(final(bsl).port) == *final(old(bsl).port),
    {
        let ghost l0 = bsl.log@;
        let ghost talks = baud_talks(self.opts);
        let ghost whole = in_turn(talks);
        proof {
            lemma_outset(whole, l0);
            assert(Seq::<Report>::empty() + Seq::<Report>::empty() =~= Seq::<Report>::empty());
        }
        let baud: u32 = match self.opts.baud {
            Some(baud) => baud,
            None => return Ok(()),
        };
        let mut rate: Vec<u8> = Vec::new();
        push_be32(&mut rate, baud);
        proof {
            assert(rate@ =~= be32_bytes(baud));
            crate::bsl::law_short_data_is_frameable(cmd::CHANGE_BAUD, rate@, sum());
        }
        let asked: Result<(), BslError> = bsl.order(
            cmd::CHANGE_BAUD,
            &rate,
            rep::ACK,
            self.opts.timeout_ms,
            "CHANGE_BAUD",
        );
        let ghost l1 = bsl.log@;
        proof {
            lemma_turn_held(whole, talks, l0, l0, l1, said(asked));
        }
        match asked {
            Ok(()) => {},
            Err(e) => return Err(FlashError::Bsl(e)),
        }
        let set: Result<(), BslError> = bsl.set_baud(baud);
        let ghost l2 = bsl.log@;
        proof {
            lemma_turn_held(whole, talks.skip(1), l0, l1, l2, said(set));
        }
        match set {
            Ok(()) => {},
            Err(e) => return Err(FlashError::Bsl(e)),
        }
        let connected: Result<(), BslError> = bsl.connect();
        proof {
            lemma_turn_held(whole, talks.skip(1).skip(1), l0, l2, bsl.log@, said(connected));
            assert(talks.skip(1).skip(1).skip(1) =~= Seq::<Talk<()>>::empty());
        }
        match connected {
            Ok(()) => Ok(()),
            Err(e) => Err(FlashError::Bsl(e)),
        }
    }

    /// Stage FDL2 and start it, if there is one.
    fn load_fdl2<T: Transport, P: Progress>(
        &self,
        bsl: &mut BslIo<'_, T>,
        fdl2: Option<&PacEntry>,
        pac: &[u8],
        progress: &mut P,
    ) -> (r: Result<(), FlashError>)
        requires
            old(bsl).wf(),
            old(bsl).link() == usual(self.opts),
        ensures
            final(bsl).continues(old(bsl)),
            after(
                in_turn(fdl2_talks(entry_view(fdl2), pac@, self.opts)),
                since(old(bsl).log@, final(bsl).log@),
            ) == Dialogue::Over(flash_said(r)),
            final(progress).seen() == old(progress).seen() + reports_of(
                since(old(bsl).log@, final(bsl).log@),
            ),
            *final(final(bsl).port) == *final(old(bsl).port),
    {
        let ghost l0 = bsl.log@;
        let ghost talks = fdl2_talks(entry_view(fdl2), pac@, self.opts);
        let ghost whole = in_turn(talks);
        let ghost seen0 = progress.seen();
        proof {
            lemma_outset(whole, l0);
            assert(seen0 + Seq::<Report>::empty() =~= seen0);
        }
        let e: &PacEntry = match fdl2 {
            Some(e) => e,
            None => return Ok(()),
        };
        let data: &[u8] = match e.payload(pac) {
            Some(data) => data,
            None => return Err(FlashError::Payload(e.file_id.clone())),
        };
        proof {
            crate::flash::bsl_io::law_short_pieces_are_frameable(
                data@,
                0,
                FDL_LOAD_CHUNK as int,
                sum(),
            );
        }
        let staged: Result<(), BslError> = bsl.send_stage(
            e.address,
            data,
            FDL_LOAD_CHUNK,
            "FDL2",
            progress,
        );
        let ghost l1 = bsl.log@;
        proof {
            lemma_turn_held(whole, talks, l0, l0, l1, said(staged));
        }
        match staged {
            Ok(()) => {},
            Err(e) => return Err(FlashError::Bsl(e)),
        }
        let none: [u8; 0] = [];
        proof {
            assert(none@ =~= Seq::<u8>::empty());
            crate::bsl::law_short_data_is_frameable(cmd::EXEC_DATA, none@, sum());
        }
        let started: Result<(), BslError> = bsl.order(
            cmd::EXEC_DATA,
            &none,
            rep::ACK,
            self.opts.exec_timeout_ms,
            "EXEC FDL2",
        );
        let ghost l2 = bsl.log@;
        proof {
            lemma_turn_held(whole, talks.skip(1), l0, l1, l2, said(started));
            assert(seen0 + reports_of(since(l0, l1)) + reports_of(since(l1, l2)) =~= seen0
                + reports_of(since(l0, l2)));
        }
        match started {
            Ok(()) => {},
            Err(e) => return Err(FlashError::Bsl(e)),
        }
        let connected: Result<(), BslError> = bsl.connect();  // re-handshake under FDL2
        proof {
            lemma_turn_held(whole, talks.skip(1).skip(1), l0, l2, bsl.log@, said(connected));
            assert(talks.skip(1).skip(1).skip(1) =~= Seq::<Talk<()>>::empty());
            assert(seen0 + reports_of(since(l0, l2)) + reports_of(since(l2, bsl.log@)) =~= seen0
                + reports_of(since(l0, bsl.log@)));
        }
        match connected {
            Ok(()) => Ok(()),
            Err(e) => Err(FlashError::Bsl(e)),
        }
    }

    /// Bring the device up to a connected FDL2 (PDL → FDL1 → BSL → FDL2 →
    /// optional `CHANGE_BAUD`). Returns the live BSL session, the FDL1 version
    /// banner, and the `(fdl1, fdl2)` phase durations in nanoseconds. Shared by
    /// [`Self::run`] and the dumps.
    fn bring_up<'p, T: Transport, P: Progress>(
        &self,
        port: &'p mut T,
        pac: &[u8],
        plan: &FlashPlan<'_>,
        progress: &mut P,
    ) -> (r: Result<(BslIo<'p, T>, String, u64, u64), FlashError>)
        ensures
            match r {
                Ok((bsl, version, _, _)) => {
                    &&& bsl.wf()
                    &&& bsl.start@ == old(port).trace()
                    &&& bsl.link() == usual(self.opts)
                    &&& after(bring_up_talk(plan@, pac@, self.opts), bsl.log@) == Dialogue::Over(
                        Ok::<Seq<char>, FlashFault>(version@),
                    )
                    &&& final(progress).seen() == old(progress).seen() + reports_of(bsl.log@)
                    &&& *final(bsl.port) == *final(port)
                },
                Err(e) => held(
                    bring_up_talk(plan@, pac@, self.opts),
                    Err::<Seq<char>, FlashFault>(e@),
                    old(port).trace(),
                    final(port).trace(),
                    old(progress).seen(),
                    final(progress).seen(),
                ),
            },
    {
        let ghost start = port.trace();
        let ghost seen0 = progress.seen();
        let ghost none = Seq::<Act>::empty();
        let ghost whole = bring_up_talk(plan@, pac@, self.opts);
        // ---- Phase 1: PDL loads + execs FDL1 -------------------------------
        let mark = now();
        let ghost mut l1: Seq<Act> = Seq::empty();
        let version: String;
        {
            let mut pdl: PdlIo<'_, T> = PdlIo::new(&mut *port, self.opts.timeout_ms);
            let first: Result<String, FlashError> = self.start_fdl1(
                &mut pdl,
                plan.fdl1,
                pac,
                progress,
            );
            proof {
                l1 = pdl.log@;
                lemma_outset(whole, none);
                lemma_part_held_whatever_follows(
                    whole,
                    fdl1_talk(plan@.fdl1, pac@, self.opts),
                    none,
                    none,
                    l1,
                    text_said(first),
                );
                assert(since(none, l1) =~= l1);
            }
            match first {
                Ok(v) => {
                    version = v;
                },
                Err(e) => {
                    proof {
                        assert(account(l1, start, pdl.port.trace(), seen0, progress.seen()));
                    }
                    return Err(e);
                },
            }
        }
        let fdl1_nanos: u64 = elapsed_nanos(&mark);
        let mark = now();

        // ---- Phase 2: BSL loads + execs FDL2 -------------------------------
        let mut bsl: BslIo<'p, T> = BslIo::new(port, self.opts.timeout_ms);
        bsl.start = Ghost(start);
        bsl.log = Ghost(l1);
        let second: Result<(), FlashError> = self.start_fdl2(&mut bsl, plan.fdl2, pac, progress);
        proof {
            let l2 = bsl.log@;
            lemma_part_held_whatever_follows(
                whole,
                fdl2_phase(plan@.fdl2, pac@, self.opts),
                none,
                l1,
                l2,
                flash_said(second),
            );
            assert(since(none, l2) =~= l2);
            assert(seen0 + reports_of(l1) + reports_of(since(l1, l2)) =~= seen0 + reports_of(l2));
        }
        match second {
            Ok(()) => {},
            Err(e) => {
                proof {
                    assert(account(bsl.log@, start, bsl.port.trace(), seen0, progress.seen()));
                }
                return Err(e);
            },
        }
        let fdl2_nanos: u64 = elapsed_nanos(&mark);
        Ok((bsl, version, fdl1_nanos, fdl2_nanos))
    }

    /// Write an image with an adaptive chunk: on a response timeout (the
    /// `cdc_acm`/usbipd tail-stall), re-`CONNECT` to reset the FDL2 write session
    /// and retry the whole image at half the chunk, down to
    /// [`MIN_ADAPTIVE_CHUNK`]. `START_DATA` re-initialises the write pointer, so
    /// re-sending is safe.
    fn write_adaptively<T: Transport, P: Progress>(
        &self,
        bsl: &mut BslIo<'_, T>,
        start: &[u8],
        data: &[u8],
        names: &ImageNames,
        label: &str,
        progress: &mut P,
    ) -> (r: Result<(), FlashError>)
        requires
            old(bsl).wf(),
            old(bsl).link() == usual(self.opts),
            start@.len() <= crate::bsl::MAX_DATA,
            stageable(data@, at_least_one(self.opts.chunk as int)),
        ensures
            final(bsl).continues(old(bsl)),
            after(
                writing(
                    (Image { start: start@, data: data@, names: *names, label: label@ }),
                    at_least_one(self.opts.chunk as int),
                    usual(self.opts),
                ),
                since(old(bsl).log@, final(bsl).log@),
            ) == Dialogue::Over(flash_said(r)),
            final(progress).seen() == old(progress).seen() + reports_of(
                since(old(bsl).log@, final(bsl).log@),
            ),
            *final(final(bsl).port) == *final(old(bsl).port),
    {
        let mut chunk: usize = if self.opts.chunk < 1 {
            1
        } else {
            self.opts.chunk
        };
        let ghost l0 = bsl.log@;
        let ghost image = Image { start: start@, data: data@, names: *names, label: label@ };
        let ghost whole = writing(image, chunk as int, usual(self.opts));
        let ghost seen0 = progress.seen();
        proof {
            lemma_outset(whole, l0);
            assert(seen0 + Seq::<Report>::empty() =~= seen0);
        }
        loop
            invariant
                bsl.continues(old(bsl)),
                l0 == old(bsl).log@,
                bsl.link() == usual(self.opts),
                seen0 == old(progress).seen(),
                *final(bsl.port) == *final(old(bsl).port),
                chunk >= 1,
                start@.len() <= crate::bsl::MAX_DATA,
                stageable(data@, chunk as int),
                image == (Image { start: start@, data: data@, names: *names, label: label@ }),
                whole == writing(image, at_least_one(self.opts.chunk as int), usual(self.opts)),
                after(whole, since(l0, bsl.log@)) == writing(image, chunk as int, usual(self.opts)),
                progress.seen() == seen0 + reports_of(since(l0, bsl.log@)),
            decreases chunk,
        {
            let ghost l1 = bsl.log@;
            let sent: Result<(), BslError> = bsl.send_image(
                start,
                data,
                chunk,
                names,
                label,
                progress,
            );
            let ghost l2 = bsl.log@;
            proof {
                lemma_part_held_whatever_follows(
                    whole,
                    all_of(image.tasks(chunk as int, usual(self.opts))),
                    l0,
                    l1,
                    l2,
                    said(sent),
                );
                assert(seen0 + reports_of(since(l0, l1)) + reports_of(since(l1, l2)) =~= seen0
                    + reports_of(since(l0, l2)));
            }
            let e: BslError = match sent {
                Ok(()) => return Ok(()),
                Err(e) => e,
            };
            if !e.is_timeout() || chunk <= MIN_ADAPTIVE_CHUNK {
                return Err(FlashError::Bsl(e));
            }
            let half: usize = chunk / 2;
            let next: usize = if half < MIN_ADAPTIVE_CHUNK {
                MIN_ADAPTIVE_CHUNK
            } else {
                half
            };
            bsl.purge_input();
            let ghost l3 = bsl.log@;
            proof {
                lemma_part_held_whatever_follows(
                    whole,
                    Task::Just(Step::Purge).talk(),
                    l0,
                    l2,
                    l3,
                    Ok::<(), FlashFault>(()),
                );
            }
            // reset the FDL2 session before restarting the stage
            let connected: Result<(), BslError> = bsl.connect();
            proof {
                lemma_part_held_whatever_follows(
                    whole,
                    connect_task(usual(self.opts)).talk(),
                    l0,
                    l3,
                    bsl.log@,
                    said(connected),
                );
                assert(reports_of(since(l0, bsl.log@)) =~= reports_of(since(l0, l2)));
            }
            match connected {
                Ok(()) => {},
                Err(e) => return Err(FlashError::Bsl(e)),
            }
            chunk = next;
        }
    }

    /// Write a staged image with an adaptive chunk.
    fn send_stage_adaptive<T: Transport, P: Progress>(
        &self,
        bsl: &mut BslIo<'_, T>,
        addr: u32,
        data: &[u8],
        label: &str,
        progress: &mut P,
    ) -> (r: Result<(), FlashError>)
        requires
            old(bsl).wf(),
            old(bsl).link() == usual(self.opts),
            stageable(data@, at_least_one(self.opts.chunk as int)),
        ensures
            final(bsl).continues(old(bsl)),
            after(
                writing(
                    stage_image(addr, data@, label@),
                    at_least_one(self.opts.chunk as int),
                    usual(self.opts),
                ),
                since(old(bsl).log@, final(bsl).log@),
            ) == Dialogue::Over(flash_said(r)),
            final(progress).seen() == old(progress).seen() + reports_of(
                since(old(bsl).log@, final(bsl).log@),
            ),
            *final(final(bsl).port) == *final(old(bsl).port),
    {
        let start: Vec<u8> = start_payload(addr, data);
        let names: ImageNames = ImageNames {
            start: "START_DATA",
            midst: "MIDST_DATA",
            end: "END_DATA",
        };
        self.write_adaptively(bsl, &start, data, &names, label, progress)
    }

    /// Write the NV region (CRC-16-ARC refreshed, sum32-checked START), with the
    /// same adaptive-chunk retry as [`Self::send_stage_adaptive`].
    fn write_nv<T: Transport, P: Progress>(
        &self,
        bsl: &mut BslIo<'_, T>,
        addr: u32,
        data: &[u8],
        progress: &mut P,
    ) -> (r: Result<(), FlashError>)
        requires
            old(bsl).wf(),
            old(bsl).link() == usual(self.opts),
            stageable(nv_fixed(data@), at_least_one(self.opts.chunk as int)),
        ensures
            final(bsl).continues(old(bsl)),
            after(
                writing(
                    nv_image(addr, data@),
                    at_least_one(self.opts.chunk as int),
                    usual(self.opts),
                ),
                since(old(bsl).log@, final(bsl).log@),
            ) == Dialogue::Over(flash_said(r)),
            final(progress).seen() == old(progress).seen() + reports_of(
                since(old(bsl).log@, final(bsl).log@),
            ),
            *final(final(bsl).port) == *final(old(bsl).port),
    {
        let fixed: Vec<u8> = nv_fix_crc(data);
        let start: Vec<u8> = nv_start_payload(addr, &fixed);
        let names: ImageNames = ImageNames {
            start: "NV START",
            midst: "NV MIDST",
            end: "NV END",
        };
        self.write_adaptively(bsl, &start, &fixed, &names, "NV", progress)
    }

    /// Read back what was written at `addr` and compare.
    fn verify_written<T: Transport, P: Progress>(
        &self,
        bsl: &mut BslIo<'_, T>,
        addr: u32,
        data: &[u8],
        file_id: &str,
        progress: &mut P,
    ) -> (r: Result<(), FlashError>)
        requires
            old(bsl).wf(),
            old(bsl).link() == usual(self.opts),
        ensures
            final(bsl).continues(old(bsl)),
            after(verifying(addr, data@, file_id@, usual(self.opts)), since(old(bsl).log@, final(bsl).log@))
                == Dialogue::Over(flash_said(r)),
            final(progress).seen() == old(progress).seen() + reports_of(
                since(old(bsl).log@, final(bsl).log@),
            ),
            *final(final(bsl).port) == *final(old(bsl).port),
    {
        let ghost l0 = bsl.log@;
        let ghost whole = verifying(addr, data@, file_id@, usual(self.opts));
        let ghost seen0 = progress.seen();
        let read: Result<Vec<u8>, BslError> = bsl.read_flash(addr, data.len(), READBACK_CHUNK);
        let ghost l1 = bsl.log@;
        proof {
            lemma_outset(whole, l0);
            lemma_part_held_whatever_follows(
                whole,
                reading(addr, data@.len(), READBACK_CHUNK as nat, Seq::empty(), usual(self.opts)),
                l0,
                l0,
                l1,
                bytes_said(read),
            );
            assert(reports_of(since(l0, l1)) =~= Seq::<Report>::empty());
            assert(seen0 + Seq::<Report>::empty() =~= seen0);
        }
        let back: Vec<u8> = match read {
            Ok(back) => back,
            Err(e) => return Err(FlashError::Bsl(e)),
        };
        if !same_bytes(&back, data) {
            return Err(FlashError::VerifyMismatch(owned(file_id)));
        }
        bsl.note(progress, file_id, data.len() as u64, data.len() as u64);
        proof {
            lemma_rest_held(
                whole,
                note(file_id@, data@.len() as int, data@.len() as int).talk(),
                l0,
                l1,
                bsl.log@,
            );
            assert(reports_of(since(l0, bsl.log@)) =~= reports_of(since(l1, bsl.log@)));
        }
        Ok(())
    }

    /// Write a partition, and verify it if that is asked for.
    fn write_partition<T: Transport, P: Progress>(
        &self,
        bsl: &mut BslIo<'_, T>,
        e: &PacEntry,
        pac: &[u8],
        progress: &mut P,
    ) -> (r: Result<(), FlashError>)
        requires
            old(bsl).wf(),
            old(bsl).link() == usual(self.opts),
            e@.payload(pac@) matches Some(data) ==> stageable(
                data,
                at_least_one(self.opts.chunk as int),
            ),
        ensures
            final(bsl).continues(old(bsl)),
            after(
                partition_talk(e@, pac@, self.opts),
                since(old(bsl).log@, final(bsl).log@),
            ) == Dialogue::Over(flash_said(r)),
            final(progress).seen() == old(progress).seen() + reports_of(
                since(old(bsl).log@, final(bsl).log@),
            ),
            *final(final(bsl).port) == *final(old(bsl).port),
    {
        let ghost l0 = bsl.log@;
        let ghost whole = partition_talk(e@, pac@, self.opts);
        let ghost seen0 = progress.seen();
        proof {
            lemma_outset(whole, l0);
            assert(seen0 + Seq::<Report>::empty() =~= seen0);
        }
        let data: &[u8] = match e.payload(pac) {
            Some(data) => data,
            None => return Err(FlashError::Payload(e.file_id.clone())),
        };
        let fid: &str = e.file_id.as_str();
        let sent: Result<(), FlashError> = self.send_stage_adaptive(
            bsl,
            e.address,
            data,
            fid,
            progress,
        );
        let ghost l1 = bsl.log@;
        proof {
            lemma_part_held_whatever_follows(
                whole,
                writing(
                    stage_image(e@.address, data@, e@.file_id),
                    at_least_one(self.opts.chunk as int),
                    usual(self.opts),
                ),
                l0,
                l0,
                l1,
                flash_said(sent),
            );
        }
        match sent {
            Ok(()) => {},
            Err(e) => return Err(e),
        }
        if !self.opts.verify_readback {
            return Ok(());
        }
        let verified: Result<(), FlashError> = self.verify_written(
            bsl,
            e.address,
            data,
            fid,
            progress,
        );
        proof {
            lemma_rest_held(
                whole,
                verifying(e@.address, data@, e@.file_id, usual(self.opts)),
                l0,
                l1,
                bsl.log@,
            );
            assert(seen0 + reports_of(since(l0, l1)) + reports_of(since(l1, bsl.log@)) =~= seen0
                + reports_of(since(l0, bsl.log@)));
        }
        verified
    }

    /// Erase a region.
    fn erase<T: Transport>(&self, bsl: &mut BslIo<'_, T>, op: &EraseOp) -> (r: Result<
        (),
        FlashError,
    >)
        requires
            old(bsl).wf(),
            old(bsl).link() == usual(self.opts),
        ensures
            final(bsl).continues(old(bsl)),
            after(erase_talk(op@, self.opts), since(old(bsl).log@, final(bsl).log@)) == Dialogue::Over(
                flash_said(r),
            ),
            reports_of(since(old(bsl).log@, final(bsl).log@)) == Seq::<Report>::empty(),
            *final(final(bsl).port) == *final(old(bsl).port),
    {
        let mut payload: Vec<u8> = Vec::new();
        push_be32(&mut payload, op.address);
        payload.extend_from_slice(&op.param);
        proof {
            assert(payload@ =~= be32_bytes(op@.address) + op@.param);
            crate::bsl::law_short_data_is_frameable(cmd::ERASE_FLASH, payload@, sum());
        }
        match bsl.order(cmd::ERASE_FLASH, &payload, rep::ACK, self.opts.timeout_ms, "ERASE") {
            Ok(()) => Ok(()),
            Err(e) => Err(FlashError::Bsl(e)),
        }
    }

    /// Write the data of a marker: NV with its CRC refreshed, anything else plain.
    fn write_marker<T: Transport, P: Progress>(
        &self,
        bsl: &mut BslIo<'_, T>,
        e: &PacEntry,
        pac: &[u8],
        progress: &mut P,
    ) -> (r: Result<(), FlashError>)
        requires
            old(bsl).wf(),
            old(bsl).link() == usual(self.opts),
            e@.payload(pac@) matches Some(data) ==> stageable(
                if names_nv(e@.file_id) {
                    nv_fixed(data)
                } else {
                    data
                },
                at_least_one(self.opts.chunk as int),
            ),
        ensures
            final(bsl).continues(old(bsl)),
            after(marker_talk(e@, pac@, self.opts), since(old(bsl).log@, final(bsl).log@))
                == Dialogue::Over(flash_said(r)),
            final(progress).seen() == old(progress).seen() + reports_of(
                since(old(bsl).log@, final(bsl).log@),
            ),
            *final(final(bsl).port) == *final(old(bsl).port),
    {
        proof {
            lemma_outset(marker_talk(e@, pac@, self.opts), bsl.log@);
            assert(progress.seen() + Seq::<Report>::empty() =~= progress.seen());
        }
        let data: &[u8] = match e.payload(pac) {
            Some(data) => data,
            None => return Err(FlashError::Payload(e.file_id.clone())),
        };
        if is_nv(e.file_id.as_str()) {
            self.write_nv(bsl, e.address, data, progress)
        } else {
            self.send_stage_adaptive(bsl, e.address, data, e.file_id.as_str(), progress)
        }
    }

    /// Send `NORMAL_RESET` and hold the line, if that is asked for.
    fn reset<T: Transport>(&self, bsl: &mut BslIo<'_, T>) -> (r: Result<(), FlashError>)
        requires
            old(bsl).wf(),
            old(bsl).link() == usual(self.opts),
        ensures
            final(bsl).continues(old(bsl)),
            after(reset_talk(self.opts), since(old(bsl).log@, final(bsl).log@)) == Dialogue::Over(
                flash_said(r),
            ),
            reports_of(since(old(bsl).log@, final(bsl).log@)) == Seq::<Report>::empty(),
            *final(final(bsl).port) == *final(old(bsl).port),
    {
        let ghost l0 = bsl.log@;
        let ghost whole = reset_talk(self.opts);
        proof {
            lemma_outset(whole, l0);
            assert(Seq::<Report>::empty() + Seq::<Report>::empty() =~= Seq::<Report>::empty());
        }
        if !self.opts.reset {
            return Ok(());
        }
        let none: [u8; 0] = [];
        let ghost talks = seq![
            tell(cmd::NORMAL_RESET, Seq::empty(), sum()),
            Task::Just(Step::Hold { millis: self.opts.reset_hold_ms }).talk(),
        ];
        proof {
            assert(none@ =~= Seq::<u8>::empty());
            crate::bsl::law_short_data_is_frameable(cmd::NORMAL_RESET, none@, sum());
        }
        let told: Result<(), BslError> = bsl.send(cmd::NORMAL_RESET, &none);
        let ghost l1 = bsl.log@;
        proof {
            lemma_turn_held(whole, talks, l0, l0, l1, said(told));
        }
        match told {
            Ok(()) => {},
            Err(e) => return Err(FlashError::Bsl(e)),
        }
        bsl.reset_teardown(self.opts.reset_hold_ms);
        proof {
            lemma_turn_held(whole, talks.skip(1), l0, l1, bsl.log@, Ok::<(), FlashFault>(()));
            assert(talks.skip(1).skip(1) =~= Seq::<Talk<()>>::empty());
        }
        Ok(())
    }

    /// Write the partitions in order. Returns how many bytes they have.
    fn write_partitions<T: Transport, P: Progress>(
        &self,
        bsl: &mut BslIo<'_, T>,
        plan: &FlashPlan<'_>,
        pac: &[u8],
        progress: &mut P,
    ) -> (r: Result<u64, FlashError>)
        requires
            old(bsl).wf(),
            old(bsl).link() == usual(self.opts),
            plan.partitions@.len() <= u32::MAX,
            forall|i: int|
                0 <= i < plan@.partitions.len() ==> partition_stageable(
                    #[trigger] plan@.partitions[i],
                    pac@,
                    self.opts,
                ),
        ensures
            final(bsl).continues(old(bsl)),
            after(
                in_turn(partition_talks(plan@, pac@, self.opts)),
                since(old(bsl).log@, final(bsl).log@),
            ) == Dialogue::Over(count_said(r)),
            r matches Ok(n) ==> n == payload_bytes(plan@.partitions),
            final(progress).seen() == old(progress).seen() + reports_of(
                since(old(bsl).log@, final(bsl).log@),
            ),
            *final(final(bsl).port) == *final(old(bsl).port),
    {
        let ghost l0 = bsl.log@;
        let ghost talks = partition_talks(plan@, pac@, self.opts);
        let ghost whole = in_turn(talks);
        let ghost seen0 = progress.seen();
        proof {
            lemma_outset(whole, l0);
            assert(seen0 + Seq::<Report>::empty() =~= seen0);
            assert(talks.skip(0) =~= talks);
        }
        let mut written: u64 = 0;
        let mut i: usize = 0;
        while i < plan.partitions.len()
            invariant
                i <= plan.partitions@.len(),
                plan.partitions@.len() <= u32::MAX,
                bsl.continues(old(bsl)),
                bsl.link() == usual(self.opts),
                l0 == old(bsl).log@,
                seen0 == old(progress).seen(),
                *final(bsl.port) == *final(old(bsl).port),
                talks == partition_talks(plan@, pac@, self.opts),
                talks.len() == plan.partitions@.len(),
                whole == in_turn(talks),
                after(whole, since(l0, bsl.log@)) == in_turn(talks.skip(i as int)),
                progress.seen() == seen0 + reports_of(since(l0, bsl.log@)),
                written == payload_bytes(plan@.partitions.take(i as int)),
                written <= i * 0xFFFF_FFFF,
                forall|i: int|
                    0 <= i < plan@.partitions.len() ==> partition_stageable(
                        #[trigger] plan@.partitions[i],
                        pac@,
                        self.opts,
                    ),
            decreases plan.partitions.len() - i,
        {
            let e: &PacEntry = plan.partitions[i];
            let ghost l1 = bsl.log@;
            proof {
                assert(plan@.partitions[i as int] == e@);
                assert(talks.skip(i as int)[0] == partition_talk(e@, pac@, self.opts));
                assert(talks.skip(i as int).skip(1) =~= talks.skip(i + 1));
                assert(plan@.partitions.take(i + 1).drop_last() =~= plan@.partitions.take(
                    i as int,
                ));
            }
            let done: Result<(), FlashError> = self.write_partition(bsl, e, pac, progress);
            proof {
                lemma_turn_held(
                    whole,
                    talks.skip(i as int),
                    l0,
                    l1,
                    bsl.log@,
                    flash_said(done),
                );
                assert(seen0 + reports_of(since(l0, l1)) + reports_of(since(l1, bsl.log@)) =~= seen0
                    + reports_of(since(l0, bsl.log@)));
            }
            match done {
                Ok(()) => {},
                Err(e) => return Err(e),
            }
            written += e.size as u64;
            i += 1;
        }
        proof {
            assert(talks.skip(i as int) =~= Seq::<Talk<()>>::empty());
            assert(plan@.partitions.take(i as int) =~= plan@.partitions);
        }
        Ok(written)
    }

    /// Do the erases in order.
    fn erase_all<T: Transport>(&self, bsl: &mut BslIo<'_, T>, plan: &FlashPlan<'_>) -> (r: Result<
        (),
        FlashError,
    >)
        requires
            old(bsl).wf(),
            old(bsl).link() == usual(self.opts),
        ensures
            final(bsl).continues(old(bsl)),
            after(in_turn(erase_talks(plan@, self.opts)), since(old(bsl).log@, final(bsl).log@))
                == Dialogue::Over(flash_said(r)),
            reports_of(since(old(bsl).log@, final(bsl).log@)) == Seq::<Report>::empty(),
            *final(final(bsl).port) == *final(old(bsl).port),
    {
        let ghost l0 = bsl.log@;
        let ghost talks = erase_talks(plan@, self.opts);
        let ghost whole = in_turn(talks);
        proof {
            lemma_outset(whole, l0);
            assert(talks.skip(0) =~= talks);
        }
        let mut i: usize = 0;
        while i < plan.erases.len()
            invariant
                i <= plan.erases@.len(),
                bsl.continues(old(bsl)),
                bsl.link() == usual(self.opts),
                l0 == old(bsl).log@,
                *final(bsl.port) == *final(old(bsl).port),
                talks == erase_talks(plan@, self.opts),
                talks.len() == plan.erases@.len(),
                whole == in_turn(talks),
                after(whole, since(l0, bsl.log@)) == in_turn(talks.skip(i as int)),
                reports_of(since(l0, bsl.log@)) == Seq::<Report>::empty(),
            decreases plan.erases.len() - i,
        {
            let op: &EraseOp = &plan.erases[i];
            let ghost l1 = bsl.log@;
            proof {
                assert(plan@.erases[i as int] == op@);
                assert(talks.skip(i as int)[0] == erase_talk(op@, self.opts));
                assert(talks.skip(i as int).skip(1) =~= talks.skip(i + 1));
            }
            let done: Result<(), FlashError> = self.erase(bsl, op);
            proof {
                lemma_turn_held(
                    whole,
                    talks.skip(i as int),
                    l0,
                    l1,
                    bsl.log@,
                    flash_said(done),
                );
                assert(Seq::<Report>::empty() + Seq::<Report>::empty() =~= Seq::<Report>::empty());
            }
            match done {
                Ok(()) => {},
                Err(e) => return Err(e),
            }
            i += 1;
        }
        proof {
            assert(talks.skip(i as int) =~= Seq::<Talk<()>>::empty());
        }
        Ok(())
    }

    /// Write the data of the markers in order. Returns how many bytes they have.
    fn write_markers<T: Transport, P: Progress>(
        &self,
        bsl: &mut BslIo<'_, T>,
        plan: &FlashPlan<'_>,
        pac: &[u8],
        progress: &mut P,
    ) -> (r: Result<u64, FlashError>)
        requires
            old(bsl).wf(),
            old(bsl).link() == usual(self.opts),
            plan.data_markers@.len() <= u32::MAX,
            forall|i: int|
                0 <= i < plan@.data_markers.len() ==> marker_stageable(
                    #[trigger] plan@.data_markers[i],
                    pac@,
                    self.opts,
                ),
        ensures
            final(bsl).continues(old(bsl)),
            after(
                in_turn(marker_talks(plan@, pac@, self.opts)),
                since(old(bsl).log@, final(bsl).log@),
            ) == Dialogue::Over(count_said(r)),
            r matches Ok(n) ==> n == payload_bytes(plan@.data_markers),
            final(progress).seen() == old(progress).seen() + reports_of(
                since(old(bsl).log@, final(bsl).log@),
            ),
            *final(final(bsl).port) == *final(old(bsl).port),
    {
        let ghost l0 = bsl.log@;
        let ghost talks = marker_talks(plan@, pac@, self.opts);
        let ghost whole = in_turn(talks);
        let ghost seen0 = progress.seen();
        proof {
            lemma_outset(whole, l0);
            assert(seen0 + Seq::<Report>::empty() =~= seen0);
            assert(talks.skip(0) =~= talks);
        }
        let mut written: u64 = 0;
        let mut i: usize = 0;
        while i < plan.data_markers.len()
            invariant
                i <= plan.data_markers@.len(),
                plan.data_markers@.len() <= u32::MAX,
                bsl.continues(old(bsl)),
                bsl.link() == usual(self.opts),
                l0 == old(bsl).log@,
                seen0 == old(progress).seen(),
                *final(bsl.port) == *final(old(bsl).port),
                talks == marker_talks(plan@, pac@, self.opts),
                talks.len() == plan.data_markers@.len(),
                whole == in_turn(talks),
                after(whole, since(l0, bsl.log@)) == in_turn(talks.skip(i as int)),
                progress.seen() == seen0 + reports_of(since(l0, bsl.log@)),
                written == payload_bytes(plan@.data_markers.take(i as int)),
                written <= i * 0xFFFF_FFFF,
                forall|i: int|
                    0 <= i < plan@.data_markers.len() ==> marker_stageable(
                        #[trigger] plan@.data_markers[i],
                        pac@,
                        self.opts,
                    ),
            decreases plan.data_markers.len() - i,
        {
            let e: &PacEntry = plan.data_markers[i];
            let ghost l1 = bsl.log@;
            proof {
                assert(plan@.data_markers[i as int] == e@);
                assert(talks.skip(i as int)[0] == marker_talk(e@, pac@, self.opts));
                assert(talks.skip(i as int).skip(1) =~= talks.skip(i + 1));
                assert(plan@.data_markers.take(i + 1).drop_last() =~= plan@.data_markers.take(
                    i as int,
                ));
            }
            let done: Result<(), FlashError> = self.write_marker(bsl, e, pac, progress);
            proof {
                lemma_turn_held(
                    whole,
                    talks.skip(i as int),
                    l0,
                    l1,
                    bsl.log@,
                    flash_said(done),
                );
                assert(seen0 + reports_of(since(l0, l1)) + reports_of(since(l1, bsl.log@)) =~= seen0
                    + reports_of(since(l0, bsl.log@)));
            }
            match done {
                Ok(()) => {},
                Err(e) => return Err(e),
            }
            written += e.size as u64;
            i += 1;
        }
        proof {
            assert(talks.skip(i as int) =~= Seq::<Talk<()>>::empty());
            assert(plan@.data_markers.take(i as int) =~= plan@.data_markers);
        }
        Ok(written)
    }

    /// Write everything, in order: the partitions; with `format` then the erases
    /// and the data of the markers; then the reset. Returns how many payload bytes
    /// there are, and how long the partitions and the format took.
    fn write_plan<T: Transport, P: Progress>(
        &self,
        bsl: &mut BslIo<'_, T>,
        plan: &FlashPlan<'_>,
        pac: &[u8],
        progress: &mut P,
    ) -> (r: Result<(u64, u64, u64), FlashError>)
        requires
            old(bsl).wf(),
            old(bsl).link() == usual(self.opts),
            plan.partitions@.len() + plan.data_markers@.len() <= u32::MAX,
            run_frameable(plan@, pac@, self.opts),
        ensures
            final(bsl).continues(old(bsl)),
            after(
                writing_talk(plan@, pac@, self.opts),
                since(old(bsl).log@, final(bsl).log@),
            ) == Dialogue::Over(plan_said(r)),
            r matches Ok((n, _, _)) ==> n == bytes_to_write(plan@, self.opts),
            final(progress).seen() == old(progress).seen() + reports_of(
                since(old(bsl).log@, final(bsl).log@),
            ),
            *final(final(bsl).port) == *final(old(bsl).port),
    {
        let ghost l0 = bsl.log@;
        let ghost format_talks = if self.opts.format {
            seq![in_turn(erase_talks(plan@, self.opts)), in_turn(marker_talks(plan@, pac@, self.opts))]
        } else {
            Seq::empty()
        };
        let ghost talks = seq![in_turn(partition_talks(plan@, pac@, self.opts))] + format_talks
            + seq![reset_talk(self.opts)];
        let ghost whole = in_turn(talks);
        let ghost seen0 = progress.seen();
        proof {
            lemma_outset(whole, l0);
            lemma_payload_bytes(plan@.partitions);
            lemma_payload_bytes(plan@.data_markers);
        }
        let mark = now();
        // ---- Partitions ----------------------------------------------------
        let partitions: Result<u64, FlashError> = self.write_partitions(bsl, plan, pac, progress);
        let ghost l1 = bsl.log@;
        proof {
            lemma_turn_held(whole, talks, l0, l0, l1, count_said(partitions));
            assert(talks.skip(1) =~= format_talks + seq![reset_talk(self.opts)]);
        }
        let mut written: u64 = match partitions {
            Ok(n) => n,
            Err(e) => return Err(e),
        };
        let partitions_nanos: u64 = elapsed_nanos(&mark);
        let mark = now();
        let ghost mut l3 = l1;

        // ---- Cross-SDK format: erases + NV template + PREPACK --------------
        if self.opts.format {
            let erased: Result<(), FlashError> = self.erase_all(bsl, plan);
            let ghost l2 = bsl.log@;
            proof {
                lemma_turn_held(whole, talks.skip(1), l0, l1, l2, flash_said(erased));
                assert(reports_of(since(l0, l2)) =~= reports_of(since(l0, l1)));
            }
            match erased {
                Ok(()) => {},
                Err(e) => return Err(e),
            }
            let markers: Result<u64, FlashError> = self.write_markers(bsl, plan, pac, progress);
            proof {
                l3 = bsl.log@;
                lemma_turn_held(whole, talks.skip(1).skip(1), l0, l2, l3, count_said(markers));
                assert(seen0 + reports_of(since(l0, l2)) + reports_of(since(l2, l3)) =~= seen0
                    + reports_of(since(l0, l3)));
                assert(talks.skip(1).skip(1).skip(1) =~= seq![reset_talk(self.opts)]);
            }
            match markers {
                Ok(n) => {
                    written += n;
                },
                Err(e) => return Err(e),
            }
        } else {
            proof {
                assert(talks.skip(1) =~= seq![reset_talk(self.opts)]);
            }
        }
        let format_nanos: u64 = elapsed_nanos(&mark);

        // ---- Reset (with the flush-and-hold teardown) ----------------------
        let ghost last = seq![reset_talk(self.opts)];
        let reset: Result<(), FlashError> = self.reset(bsl);
        proof {
            lemma_turn_held(whole, last, l0, l3, bsl.log@, flash_said(reset));
            assert(last.skip(1) =~= Seq::<Talk<()>>::empty());
            assert(reports_of(since(l0, bsl.log@)) =~= reports_of(since(l0, l3)));
        }
        match reset {
            Ok(()) => Ok((written, partitions_nanos, format_nanos)),
            Err(e) => Err(e),
        }
    }

    /// Flash `pac` (its parsed `info`) to the module on `port`.
    #[verifier::rlimit(40)]
    pub fn run<T: Transport, P: Progress>(
        &self,
        port: &mut T,
        info: &PacInfo,
        pac: &[u8],
        progress: &mut P,
    ) -> (r: Result<FlashOutcome, FlashError>)
        requires
            info@.entries.len() <= u32::MAX,
            planned(info@.entries) matches Some(plan) ==> run_frameable(plan, pac@, self.opts),
        ensures
            match planned(info@.entries) {
                None => {
                    &&& r matches Err(e) && e@ == FlashFault::Plan(no_fdl1())
                    &&& final(port).trace() == old(port).trace()
                    &&& final(progress).seen() == old(progress).seen()
                },
                Some(plan) => held(
                    flash_talk(plan, pac@, self.opts),
                    outcome_said(r),
                    old(port).trace(),
                    final(port).trace(),
                    old(progress).seen(),
                    final(progress).seen(),
                ),
            },
            r matches Ok(o) ==> exists|times: PhaseTimes|
                phase_views(o.phases@) == #[trigger] phases_of(times) && o.nanos == times.total
                    && (times.format is Some) == self.opts.format,
    {
        let started = now();
        let plan: FlashPlan<'_> = match build(info) {
            Ok(plan) => plan,
            Err(why) => return Err(FlashError::Plan(why)),
        };
        let ghost start = port.trace();
        let ghost seen0 = progress.seen();
        let ghost none = Seq::<Act>::empty();
        let ghost whole = flash_talk(plan@, pac@, self.opts);
        proof {
            lemma_partitions_and_markers(info@.entries);
        }

        // ---- Phases 1-2: PDL → FDL1 → BSL → FDL2 (shared with the dumps) ----
        let up: Result<(BslIo<'_, T>, String, u64, u64), FlashError> = self.bring_up(
            &mut *port,
            pac,
            &plan,
            progress,
        );
        let (mut bsl, version, fdl1_nanos, fdl2_nanos): (BslIo<'_, T>, String, u64, u64) = match up {
            Ok(up) => up,
            Err(e) => {
                proof {
                    lemma_failed_at_first::<Seq<char>, Flashed>(
                        bring_up_talk(plan@, pac@, self.opts),
                        e@,
                        start,
                        port.trace(),
                        seen0,
                        progress.seen(),
                    );
                }
                return Err(e);
            },
        };
        let ghost l1 = bsl.log@;
        proof {
            assert(since(none, l1) =~= l1);
            lemma_outset(whole, none);
            assert(l1.take(0) =~= none);
            lemma_part_held_whatever_follows(
                whole,
                bring_up_talk(plan@, pac@, self.opts),
                none,
                none,
                l1,
                Ok::<Seq<char>, FlashFault>(version@),
            );
        }
        let wrote: Result<(u64, u64, u64), FlashError> = self.write_plan(
            &mut bsl,
            &plan,
            pac,
            progress,
        );
        proof {
            let l2 = bsl.log@;
            lemma_part_held_whatever_follows(
                whole,
                writing_talk(plan@, pac@, self.opts),
                none,
                l1,
                l2,
                plan_said(wrote),
            );
            assert(since(none, l2) =~= l2);
            assert(seen0 + reports_of(l1) + reports_of(since(l1, l2)) =~= seen0 + reports_of(l2));
            assert(account(l2, start, bsl.port.trace(), seen0, progress.seen()));
        }
        let (written, partitions_nanos, format_nanos): (u64, u64, u64) = match wrote {
            Ok(wrote) => wrote,
            Err(e) => return Err(e),
        };
        let format: Option<u64> = if self.opts.format {
            Some(format_nanos)
        } else {
            None
        };
        let times: PhaseTimes = PhaseTimes {
            fdl1: fdl1_nanos,
            fdl2: fdl2_nanos,
            partitions: partitions_nanos,
            format,
            total: elapsed_nanos(&started),
        };
        let outcome: FlashOutcome = flash_outcome(version, written, times);
        proof {
            assert(phase_views(outcome.phases@) == phases_of(times));
        }
        Ok(outcome)
    }

    /// Read some regions in order.
    fn read_regions<T: Transport, P: Progress>(
        &self,
        bsl: &mut BslIo<'_, T>,
        regions: &[(u32, u32)],
        progress: &mut P,
    ) -> (r: Result<Vec<Vec<u8>>, FlashError>)
        requires
            old(bsl).wf(),
            old(bsl).link() == usual(self.opts),
        ensures
            final(bsl).continues(old(bsl)),
            after(dumping(regions@, Seq::empty(), usual(self.opts)), since(old(bsl).log@, final(bsl).log@))
                == Dialogue::Over(dumps_said(r)),
            final(progress).seen() == old(progress).seen() + reports_of(
                since(old(bsl).log@, final(bsl).log@),
            ),
            *final(final(bsl).port) == *final(old(bsl).port),
    {
        let ghost l0 = bsl.log@;
        let ghost whole = dumping(regions@, Seq::empty(), usual(self.opts));
        let ghost seen0 = progress.seen();
        let mut out: Vec<Vec<u8>> = Vec::new();
        proof {
            lemma_outset(whole, l0);
            assert(seen0 + Seq::<Report>::empty() =~= seen0);
            assert(regions@.skip(0) =~= regions@);
            assert(byte_views(out@) =~= Seq::<Seq<u8>>::empty());
        }
        let mut i: usize = 0;
        while i < regions.len()
            invariant
                i <= regions@.len(),
                bsl.continues(old(bsl)),
                bsl.link() == usual(self.opts),
                l0 == old(bsl).log@,
                seen0 == old(progress).seen(),
                *final(bsl.port) == *final(old(bsl).port),
                whole == dumping(regions@, Seq::empty(), usual(self.opts)),
                after(whole, since(l0, bsl.log@)) == dumping(
                    regions@.skip(i as int),
                    byte_views(out@),
                    usual(self.opts),
                ),
                progress.seen() == seen0 + reports_of(since(l0, bsl.log@)),
            decreases regions.len() - i,
        {
            let (addr, len): (u32, u32) = regions[i];
            let ghost l1 = bsl.log@;
            let ghost left = regions@.skip(i as int);
            let ghost got = byte_views(out@);
            proof {
                assert(left[0] == (addr, len));
                assert(left.skip(1) =~= regions@.skip(i + 1));
            }
            let read: Result<Vec<u8>, BslError> = bsl.read_flash(
                addr,
                len as usize,
                READBACK_CHUNK,
            );
            let ghost l2 = bsl.log@;
            proof {
                lemma_part_held_whatever_follows(
                    whole,
                    reading(addr, len as nat, READBACK_CHUNK as nat, Seq::empty(), usual(self.opts)),
                    l0,
                    l1,
                    l2,
                    bytes_said(read),
                );
                assert(reports_of(since(l0, l2)) =~= reports_of(since(l0, l1)));
            }
            let data: Vec<u8> = match read {
                Ok(data) => data,
                Err(e) => return Err(FlashError::Bsl(e)),
            };
            bsl.note(progress, "read", data.len() as u64, len as u64);
            proof {
                lemma_part_held_whatever_follows(
                    whole,
                    note("read"@, data@.len() as int, len as int).talk(),
                    l0,
                    l2,
                    bsl.log@,
                    Ok::<(), FlashFault>(()),
                );
                assert(seen0 + reports_of(since(l0, l2)) + reports_of(since(l2, bsl.log@)) =~= seen0
                    + reports_of(since(l0, bsl.log@)));
            }
            let ghost bytes = data@;
            out.push(data);
            proof {
                assert(byte_views(out@) =~= got.push(bytes));
            }
            i += 1;
        }
        Ok(out)
    }

    /// Read `regions` (address, length) back from the device **without writing
    /// anything**: bring up FDL2, `READ_FLASH` each region, then reset. Returns
    /// one byte-vector per region, in order. Needs a `pac` only for this device's
    /// FDL1/FDL2 stages — the partition payloads are ignored.
    #[verifier::rlimit(30)]
    pub fn dump<T: Transport, P: Progress>(
        &self,
        port: &mut T,
        info: &PacInfo,
        pac: &[u8],
        regions: &[(u32, u32)],
        progress: &mut P,
    ) -> (r: Result<Vec<Vec<u8>>, FlashError>)
        ensures
            match planned(info@.entries) {
                None => {
                    &&& r matches Err(e) && e@ == FlashFault::Plan(no_fdl1())
                    &&& final(port).trace() == old(port).trace()
                    &&& final(progress).seen() == old(progress).seen()
                },
                Some(plan) => held(
                    dump_talk(plan, pac@, self.opts, regions@),
                    dumps_said(r),
                    old(port).trace(),
                    final(port).trace(),
                    old(progress).seen(),
                    final(progress).seen(),
                ),
            },
    {
        let plan: FlashPlan<'_> = match build(info) {
            Ok(plan) => plan,
            Err(why) => return Err(FlashError::Plan(why)),
        };
        let ghost start = port.trace();
        let ghost seen0 = progress.seen();
        let ghost none = Seq::<Act>::empty();
        let ghost whole = dump_talk(plan@, pac@, self.opts, regions@);
        let up: Result<(BslIo<'_, T>, String, u64, u64), FlashError> = self.bring_up(
            &mut *port,
            pac,
            &plan,
            progress,
        );
        let (mut bsl, version, _f1, _f2): (BslIo<'_, T>, String, u64, u64) = match up {
            Ok(up) => up,
            Err(e) => {
                proof {
                    lemma_failed_at_first::<Seq<char>, Seq<Seq<u8>>>(
                        bring_up_talk(plan@, pac@, self.opts),
                        e@,
                        start,
                        port.trace(),
                        seen0,
                        progress.seen(),
                    );
                }
                return Err(e);
            },
        };
        let ghost l1 = bsl.log@;
        proof {
            assert(since(none, l1) =~= l1);
            lemma_outset(whole, none);
            assert(l1.take(0) =~= none);
            lemma_part_held_whatever_follows(
                whole,
                bring_up_talk(plan@, pac@, self.opts),
                none,
                none,
                l1,
                Ok::<Seq<char>, FlashFault>(version@),
            );
        }
        let dumped: Result<Vec<Vec<u8>>, FlashError> = self.read_regions_and_reset(
            &mut bsl,
            regions,
            progress,
        );
        proof {
            let l2 = bsl.log@;
            lemma_rest_held(whole, dump_session(self.opts, regions@), none, l1, l2);
            assert(since(none, l2) =~= l2);
            assert(seen0 + reports_of(l1) + reports_of(since(l1, l2)) =~= seen0 + reports_of(l2));
            assert(account(l2, start, bsl.port.trace(), seen0, progress.seen()));
        }
        dumped
    }

    /// Read some regions in order, and reset.
    fn read_regions_and_reset<T: Transport, P: Progress>(
        &self,
        bsl: &mut BslIo<'_, T>,
        regions: &[(u32, u32)],
        progress: &mut P,
    ) -> (r: Result<Vec<Vec<u8>>, FlashError>)
        requires
            old(bsl).wf(),
            old(bsl).link() == usual(self.opts),
        ensures
            final(bsl).continues(old(bsl)),
            after(dump_session(self.opts, regions@), since(old(bsl).log@, final(bsl).log@))
                == Dialogue::Over(dumps_said(r)),
            final(progress).seen() == old(progress).seen() + reports_of(
                since(old(bsl).log@, final(bsl).log@),
            ),
            *final(final(bsl).port) == *final(old(bsl).port),
    {
        let ghost l0 = bsl.log@;
        let ghost whole = dump_session(self.opts, regions@);
        let dumped: Result<Vec<Vec<u8>>, FlashError> = self.read_regions(bsl, regions, progress);
        let ghost l1 = bsl.log@;
        proof {
            lemma_outset(whole, l0);
            lemma_part_held_whatever_follows(
                whole,
                dumping(regions@, Seq::empty(), usual(self.opts)),
                l0,
                l0,
                l1,
                dumps_said(dumped),
            );
        }
        let out: Vec<Vec<u8>> = match dumped {
            Ok(out) => out,
            Err(e) => return Err(e),
        };
        let reset: Result<(), FlashError> = self.reset(bsl);
        proof {
            lemma_part_held_whatever_follows(
                whole,
                reset_talk(self.opts),
                l0,
                l1,
                bsl.log@,
                flash_said(reset),
            );
            assert(reports_of(since(l0, bsl.log@)) =~= reports_of(since(l0, l1)));
        }
        match reset {
            Ok(()) => Ok(out),
            Err(e) => Err(e),
        }
    }

    /// Read the flash from `base` on into one image of `size` bytes.
    fn read_image<T: Transport, P: Progress>(
        &self,
        bsl: &mut BslIo<'_, T>,
        base: u32,
        size: u32,
        progress: &mut P,
    ) -> (r: Result<Vec<u8>, FlashError>)
        requires
            old(bsl).wf(),
            old(bsl).link() == usual(self.opts),
            size <= SIZE_CAP,
        ensures
            final(bsl).continues(old(bsl)),
            after(
                imaging(base, size as nat, Seq::empty(), usual(self.opts)),
                since(old(bsl).log@, final(bsl).log@),
            ) == Dialogue::Over(image_said(r)),
            final(progress).seen() == old(progress).seen() + reports_of(
                since(old(bsl).log@, final(bsl).log@),
            ),
            *final(final(bsl).port) == *final(old(bsl).port),
    {
        let ghost l0 = bsl.log@;
        let ghost whole = imaging(base, size as nat, Seq::empty(), usual(self.opts));
        let ghost seen0 = progress.seen();
        let mut out: Vec<u8> = Vec::new();
        proof {
            lemma_outset(whole, l0);
            assert(seen0 + Seq::<Report>::empty() =~= seen0);
            assert(out@ =~= Seq::<u8>::empty());
        }
        while out.len() < size as usize
            invariant
                bsl.continues(old(bsl)),
                bsl.link() == usual(self.opts),
                l0 == old(bsl).log@,
                seen0 == old(progress).seen(),
                *final(bsl.port) == *final(old(bsl).port),
                size <= SIZE_CAP,
                whole == imaging(base, size as nat, Seq::empty(), usual(self.opts)),
                after(whole, since(l0, bsl.log@)) == imaging(base, size as nat, out@, usual(self.opts)),
                progress.seen() == seen0 + reports_of(since(l0, bsl.log@)),
            decreases still_to_read(size as nat, out@.len()),
        {
            let left: usize = size as usize - out.len();
            let n: usize = if left < READBACK_CHUNK {
                left
            } else {
                READBACK_CHUNK
            };
            let at: u32 = address_after(base, out.len());
            let ghost l1 = bsl.log@;
            let ghost got = out@;
            let read: Result<Vec<u8>, BslError> = bsl.read_flash(at, n, READBACK_CHUNK);
            let ghost l2 = bsl.log@;
            proof {
                lemma_part_held_whatever_follows(
                    whole,
                    reading(at, n as nat, READBACK_CHUNK as nat, Seq::empty(), usual(self.opts)),
                    l0,
                    l1,
                    l2,
                    bytes_said(read),
                );
                assert(reports_of(since(l0, l2)) =~= reports_of(since(l0, l1)));
            }
            let data: Vec<u8> = match read {
                Ok(data) => data,
                Err(e) => return Err(FlashError::Bsl(e)),
            };
            if data.len() == 0 {
                return Ok(out);
            }
            out.extend_from_slice(&data);
            proof {
                assert(out@ =~= got + data@);
            }
            bsl.note(progress, "read", out.len() as u64, size as u64);
            proof {
                lemma_part_held_whatever_follows(
                    whole,
                    note("read"@, out@.len() as int, size as int).talk(),
                    l0,
                    l2,
                    bsl.log@,
                    Ok::<(), FlashFault>(()),
                );
                assert(seen0 + reports_of(since(l0, l2)) + reports_of(since(l2, bsl.log@)) =~= seen0
                    + reports_of(since(l0, bsl.log@)));
            }
        }
        Ok(out)
    }

    /// Dump the whole flash from `base` into one image, **discovering the flash
    /// size** by probing `READ_FLASH` (this minimal FDL2 has no geometry command:
    /// an in-range read replies `READ_FLASH`, an out-of-range one replies
    /// `INVALID_CMD`). Returns `(image, size)`. A full standalone backup — no
    /// partition layout needed.
    #[verifier::rlimit(30)]
    pub fn dump_full<T: Transport, P: Progress>(
        &self,
        port: &mut T,
        info: &PacInfo,
        pac: &[u8],
        base: u32,
        progress: &mut P,
    ) -> (r: Result<(Vec<u8>, u32), FlashError>)
        ensures
            match planned(info@.entries) {
                None => {
                    &&& r matches Err(e) && e@ == FlashFault::Plan(no_fdl1())
                    &&& final(port).trace() == old(port).trace()
                    &&& final(progress).seen() == old(progress).seen()
                },
                Some(plan) => held(
                    dump_full_talk(plan, pac@, self.opts, base),
                    full_dump_said(r),
                    old(port).trace(),
                    final(port).trace(),
                    old(progress).seen(),
                    final(progress).seen(),
                ),
            },
    {
        let plan: FlashPlan<'_> = match build(info) {
            Ok(plan) => plan,
            Err(why) => return Err(FlashError::Plan(why)),
        };
        let ghost start = port.trace();
        let ghost seen0 = progress.seen();
        let ghost none = Seq::<Act>::empty();
        let ghost whole = dump_full_talk(plan@, pac@, self.opts, base);
        let up: Result<(BslIo<'_, T>, String, u64, u64), FlashError> = self.bring_up(
            &mut *port,
            pac,
            &plan,
            progress,
        );
        let (mut bsl, version, _f1, _f2): (BslIo<'_, T>, String, u64, u64) = match up {
            Ok(up) => up,
            Err(e) => {
                proof {
                    lemma_failed_at_first::<Seq<char>, (Seq<u8>, u32)>(
                        bring_up_talk(plan@, pac@, self.opts),
                        e@,
                        start,
                        port.trace(),
                        seen0,
                        progress.seen(),
                    );
                }
                return Err(e);
            },
        };
        let ghost l1 = bsl.log@;
        proof {
            assert(since(none, l1) =~= l1);
            lemma_outset(whole, none);
            assert(l1.take(0) =~= none);
            lemma_part_held_whatever_follows(
                whole,
                bring_up_talk(plan@, pac@, self.opts),
                none,
                none,
                l1,
                Ok::<Seq<char>, FlashFault>(version@),
            );
        }
        let dumped: Result<(Vec<u8>, u32), FlashError> = self.read_whole_and_reset(
            &mut bsl,
            base,
            progress,
        );
        proof {
            let l2 = bsl.log@;
            lemma_rest_held(whole, dump_full_session(self.opts, base), none, l1, l2);
            assert(since(none, l2) =~= l2);
            assert(seen0 + reports_of(l1) + reports_of(since(l1, l2)) =~= seen0 + reports_of(l2));
            assert(account(l2, start, bsl.port.trace(), seen0, progress.seen()));
        }
        dumped
    }

    /// Find the size of the flash at `base`, read it, and reset.
    fn read_whole_and_reset<T: Transport, P: Progress>(
        &self,
        bsl: &mut BslIo<'_, T>,
        base: u32,
        progress: &mut P,
    ) -> (r: Result<(Vec<u8>, u32), FlashError>)
        requires
            old(bsl).wf(),
            old(bsl).link() == usual(self.opts),
        ensures
            final(bsl).continues(old(bsl)),
            after(dump_full_session(self.opts, base), since(old(bsl).log@, final(bsl).log@))
                == Dialogue::Over(full_dump_said(r)),
            final(progress).seen() == old(progress).seen() + reports_of(
                since(old(bsl).log@, final(bsl).log@),
            ),
            *final(final(bsl).port) == *final(old(bsl).port),
    {
        let ghost l0 = bsl.log@;
        let ghost whole = dump_full_session(self.opts, base);
        let ghost seen0 = progress.seen();
        let sized: Result<u32, FlashError> = discover_flash_size(bsl, base, self.opts.timeout_ms);
        let ghost l1 = bsl.log@;
        proof {
            lemma_outset(whole, l0);
            lemma_part_held_whatever_follows(whole, sizing(base, usual(self.opts)), l0, l0, l1, size_said(sized));
            assert(reports_of(since(l0, l1)) =~= Seq::<Report>::empty());
            assert(seen0 + Seq::<Report>::empty() =~= seen0);
        }
        let size: u32 = match sized {
            Ok(size) => size,
            Err(e) => return Err(e),
        };
        bsl.note(progress, "size", size as u64, size as u64);
        let ghost l2 = bsl.log@;
        proof {
            lemma_part_held_whatever_follows(
                whole,
                note("size"@, size as int, size as int).talk(),
                l0,
                l1,
                l2,
                Ok::<(), FlashFault>(()),
            );
            assert(reports_of(since(l0, l2)) =~= reports_of(since(l1, l2)));
        }
        let imaged: Result<Vec<u8>, FlashError> = self.read_image(bsl, base, size, progress);
        let ghost l3 = bsl.log@;
        proof {
            lemma_part_held_whatever_follows(
                whole,
                imaging(base, size as nat, Seq::empty(), usual(self.opts)),
                l0,
                l2,
                l3,
                image_said(imaged),
            );
            assert(seen0 + reports_of(since(l0, l2)) + reports_of(since(l2, l3)) =~= seen0
                + reports_of(since(l0, l3)));
        }
        let out: Vec<u8> = match imaged {
            Ok(out) => out,
            Err(e) => return Err(e),
        };
        let reset: Result<(), FlashError> = self.reset(bsl);
        proof {
            lemma_part_held_whatever_follows(
                whole,
                reset_talk(self.opts),
                l0,
                l3,
                bsl.log@,
                flash_said(reset),
            );
            assert(reports_of(since(l0, bsl.log@)) =~= reports_of(since(l0, l3)));
        }
        match reset {
            Ok(()) => Ok((out, size)),
            Err(e) => Err(e),
        }
    }

    /// Send some commands in order and collect the replies.
    fn poll<T: Transport>(&self, bsl: &mut BslIo<'_, T>, cmds: &[(u16, Vec<u8>)]) -> (r: Result<
        Vec<(u16, Vec<u8>)>,
        FlashError,
    >)
        requires
            old(bsl).wf(),
            old(bsl).link() == usual(self.opts),
            forall|i: int|
                0 <= i < cmds@.len() ==> frameable(
                    (#[trigger] cmds@[i]).0,
                    cmds@[i].1@,
                    sum(),
                ),
        ensures
            final(bsl).continues(old(bsl)),
            after(
                polling(message_views(cmds@), Seq::empty(), usual(self.opts)),
                since(old(bsl).log@, final(bsl).log@),
            ) == Dialogue::Over(replies_said(r)),
            reports_of(since(old(bsl).log@, final(bsl).log@)) == Seq::<Report>::empty(),
            *final(final(bsl).port) == *final(old(bsl).port),
    {
        let ghost l0 = bsl.log@;
        let ghost asked = message_views(cmds@);
        let ghost whole = polling(asked, Seq::empty(), usual(self.opts));
        let mut replies: Vec<(u16, Vec<u8>)> = Vec::new();
        proof {
            lemma_outset(whole, l0);
            assert(asked.skip(0) =~= asked);
            assert(message_views(replies@) =~= Seq::<(u16, Seq<u8>)>::empty());
        }
        let mut i: usize = 0;
        while i < cmds.len()
            invariant
                i <= cmds@.len(),
                bsl.continues(old(bsl)),
                bsl.link() == usual(self.opts),
                l0 == old(bsl).log@,
                *final(bsl.port) == *final(old(bsl).port),
                asked == message_views(cmds@),
                whole == polling(asked, Seq::empty(), usual(self.opts)),
                after(whole, since(l0, bsl.log@)) == polling(
                    asked.skip(i as int),
                    message_views(replies@),
                    usual(self.opts),
                ),
                reports_of(since(l0, bsl.log@)) == Seq::<Report>::empty(),
                forall|i: int|
                    0 <= i < cmds@.len() ==> frameable(
                        (#[trigger] cmds@[i]).0,
                        cmds@[i].1@,
                        sum(),
                    ),
            decreases cmds.len() - i,
        {
            let ghost l1 = bsl.log@;
            let ghost left = asked.skip(i as int);
            let ghost got = message_views(replies@);
            proof {
                assert(left[0] == (cmds@[i as int].0, cmds@[i as int].1@));
                assert(left.skip(1) =~= asked.skip(i + 1));
                assert(Seq::<Report>::empty() + Seq::<Report>::empty() =~= Seq::<Report>::empty());
            }
            let told: Result<(), BslError> = bsl.send(cmds[i].0, &cmds[i].1);
            let ghost l2 = bsl.log@;
            proof {
                lemma_part_held_whatever_follows(
                    whole,
                    tell(left[0].0, left[0].1, sum()),
                    l0,
                    l1,
                    l2,
                    said(told),
                );
            }
            match told {
                Ok(()) => {},
                Err(e) => return Err(FlashError::Bsl(e)),
            }
            let heard: Result<(u16, Vec<u8>), BslError> = bsl.recv(self.opts.timeout_ms);
            proof {
                lemma_part_held_whatever_follows(
                    whole,
                    hear(self.opts.timeout_ms),
                    l0,
                    l2,
                    bsl.log@,
                    message_said(heard),
                );
            }
            match heard {
                Ok(reply) => {
                    let ghost message = (reply.0, reply.1@);
                    replies.push(reply);
                    proof {
                        assert(message_views(replies@) =~= got.push(message));
                    }
                },
                Err(e) => {
                    if !e.is_timeout() {
                        return Err(FlashError::Bsl(e));
                    }
                    replies.push((0, Vec::new()));  // 0 = no reply / timeout
                    proof {
                        assert(message_views(replies@) =~= got.push((0u16, Seq::<u8>::empty())));
                    }
                    return Ok(replies);
                },
            }
            i += 1;
        }
        Ok(replies)
    }

    /// Bring up FDL2, send each `(cmd, payload)` in one session, and return the
    /// `(reply_type, data)` for each — for probing device capabilities (e.g.
    /// `READ_PARTITION`, flash geometry). Stops early if a command errors or
    /// times out (which desyncs the link). Resets afterwards.
    pub fn probe_commands<T: Transport, P: Progress>(
        &self,
        port: &mut T,
        info: &PacInfo,
        pac: &[u8],
        cmds: &[(u16, Vec<u8>)],
        progress: &mut P,
    ) -> (r: Result<Vec<(u16, Vec<u8>)>, FlashError>)
        requires
            forall|i: int|
                0 <= i < cmds@.len() ==> frameable(
                    (#[trigger] cmds@[i]).0,
                    cmds@[i].1@,
                    sum(),
                ),
        ensures
            match planned(info@.entries) {
                None => {
                    &&& r matches Err(e) && e@ == FlashFault::Plan(no_fdl1())
                    &&& final(port).trace() == old(port).trace()
                    &&& final(progress).seen() == old(progress).seen()
                },
                Some(plan) => held(
                    probe_talk(plan, pac@, self.opts, message_views(cmds@)),
                    replies_said(r),
                    old(port).trace(),
                    final(port).trace(),
                    old(progress).seen(),
                    final(progress).seen(),
                ),
            },
    {
        let plan: FlashPlan<'_> = match build(info) {
            Ok(plan) => plan,
            Err(why) => return Err(FlashError::Plan(why)),
        };
        let ghost start = port.trace();
        let ghost seen0 = progress.seen();
        let ghost none = Seq::<Act>::empty();
        let ghost whole = probe_talk(plan@, pac@, self.opts, message_views(cmds@));
        let up: Result<(BslIo<'_, T>, String, u64, u64), FlashError> = self.bring_up(
            &mut *port,
            pac,
            &plan,
            progress,
        );
        let (mut bsl, version, _f1, _f2): (BslIo<'_, T>, String, u64, u64) = match up {
            Ok(up) => up,
            Err(e) => {
                proof {
                    lemma_failed_at_first::<Seq<char>, Seq<(u16, Seq<u8>)>>(
                        bring_up_talk(plan@, pac@, self.opts),
                        e@,
                        start,
                        port.trace(),
                        seen0,
                        progress.seen(),
                    );
                }
                return Err(e);
            },
        };
        let ghost l1 = bsl.log@;
        proof {
            assert(since(none, l1) =~= l1);
            lemma_outset(whole, none);
            assert(l1.take(0) =~= none);
            lemma_part_held_whatever_follows(
                whole,
                bring_up_talk(plan@, pac@, self.opts),
                none,
                none,
                l1,
                Ok::<Seq<char>, FlashFault>(version@),
            );
        }
        let polled: Result<Vec<(u16, Vec<u8>)>, FlashError> = self.poll_and_reset(&mut bsl, cmds);
        proof {
            let l2 = bsl.log@;
            lemma_rest_held(whole, probe_session(self.opts, message_views(cmds@)), none, l1, l2);
            assert(since(none, l2) =~= l2);
            assert(reports_of(l2) =~= reports_of(l1));
            assert(account(l2, start, bsl.port.trace(), seen0, progress.seen()));
        }
        polled
    }

    /// Send some commands in order, collect the replies, and reset.
    fn poll_and_reset<T: Transport>(
        &self,
        bsl: &mut BslIo<'_, T>,
        cmds: &[(u16, Vec<u8>)],
    ) -> (r: Result<Vec<(u16, Vec<u8>)>, FlashError>)
        requires
            old(bsl).wf(),
            old(bsl).link() == usual(self.opts),
            forall|i: int|
                0 <= i < cmds@.len() ==> frameable(
                    (#[trigger] cmds@[i]).0,
                    cmds@[i].1@,
                    sum(),
                ),
        ensures
            final(bsl).continues(old(bsl)),
            after(
                probe_session(self.opts, message_views(cmds@)),
                since(old(bsl).log@, final(bsl).log@),
            ) == Dialogue::Over(replies_said(r)),
            reports_of(since(old(bsl).log@, final(bsl).log@)) == Seq::<Report>::empty(),
            *final(final(bsl).port) == *final(old(bsl).port),
    {
        let ghost l0 = bsl.log@;
        let ghost whole = probe_session(self.opts, message_views(cmds@));
        let polled: Result<Vec<(u16, Vec<u8>)>, FlashError> = self.poll(bsl, cmds);
        let ghost l1 = bsl.log@;
        proof {
            lemma_outset(whole, l0);
            lemma_part_held_whatever_follows(
                whole,
                polling(message_views(cmds@), Seq::empty(), usual(self.opts)),
                l0,
                l0,
                l1,
                replies_said(polled),
            );
            assert(Seq::<Report>::empty() + Seq::<Report>::empty() =~= Seq::<Report>::empty());
        }
        let replies: Vec<(u16, Vec<u8>)> = match polled {
            Ok(replies) => replies,
            Err(e) => return Err(e),
        };
        let reset: Result<(), FlashError> = self.reset(bsl);
        proof {
            lemma_part_held_whatever_follows(
                whole,
                reset_talk(self.opts),
                l0,
                l1,
                bsl.log@,
                flash_said(reset),
            );
        }
        match reset {
            Ok(()) => Ok(replies),
            Err(e) => Err(e),
        }
    }
}

/// How commands are sent when a reply is waited for as long as this.
pub open spec fn link_at(timeout_ms: u64) -> Link {
    Link { checksum: sum(), timeout_ms }
}

/// Ask whether flash can be read at `addr`.
fn probe<T: Transport>(bsl: &mut BslIo<'_, T>, addr: u32, timeout_ms: u64) -> (r: Result<
    bool,
    FlashError,
>)
    requires
        old(bsl).wf(),
        old(bsl).checksum == sum(),
    ensures
        final(bsl).continues(old(bsl)),
        after(probing(addr, link_at(timeout_ms)), since(old(bsl).log@, final(bsl).log@)) == Dialogue::Over(
            probe_said(r),
        ),
        reports_of(since(old(bsl).log@, final(bsl).log@)) == Seq::<Report>::empty(),
        *final(final(bsl).port) == *final(old(bsl).port),
{
    let ghost l0 = bsl.log@;
    let ghost whole = probing(addr, link_at(timeout_ms));
    let p: Vec<u8> = read_payload(addr, 16);
    proof {
        crate::bsl::law_short_data_is_frameable(cmd::READ_FLASH, p@, sum());
    }
    let asked: Result<(u16, Vec<u8>), BslError> = bsl.ask(cmd::READ_FLASH, &p, timeout_ms);
    proof {
        lemma_outset(whole, l0);
        lemma_part_held_whatever_follows(
            whole,
            ask(cmd::READ_FLASH, read_request(addr, 16), link_at(timeout_ms)),
            l0,
            l0,
            bsl.log@,
            message_said(asked),
        );
    }
    match asked {
        Ok((kind, _)) => Ok(kind == rep::READ_FLASH),
        Err(e) => Err(FlashError::Bsl(e)),
    }
}

/// Discover the flash size by probing `READ_FLASH`: exponentially find an
/// out-of-range offset, then binary-search the boundary down to 64 KiB. An
/// in-range read replies `READ_FLASH`; an out-of-range one replies a non-data
/// type (`INVALID_CMD` on RDA8910). Offsets are relative to `base`.
fn discover_flash_size<T: Transport>(
    bsl: &mut BslIo<'_, T>,
    base: u32,
    timeout_ms: u64,
) -> (r: Result<u32, FlashError>)
    requires
        old(bsl).wf(),
        old(bsl).checksum == sum(),
    ensures
        final(bsl).continues(old(bsl)),
        after(sizing(base, link_at(timeout_ms)), since(old(bsl).log@, final(bsl).log@)) == Dialogue::Over(
            size_said(r),
        ),
        r matches Ok(size) ==> size <= SIZE_CAP,
        reports_of(since(old(bsl).log@, final(bsl).log@)) == Seq::<Report>::empty(),
        *final(final(bsl).port) == *final(old(bsl).port),
{
    let ghost l0 = bsl.log@;
    let ghost whole = sizing(base, link_at(timeout_ms));
    proof {
        lemma_outset(whole, l0);
        assert(Seq::<Report>::empty() + Seq::<Report>::empty() =~= Seq::<Report>::empty());
    }
    let first: Result<bool, FlashError> = probe(bsl, base, timeout_ms);
    proof {
        lemma_part_held_whatever_follows(
            whole,
            probing(base, link_at(timeout_ms)),
            l0,
            l0,
            bsl.log@,
            probe_said(first),
        );
    }
    match first {
        Ok(readable) => {
            if !readable {
                return Err(FlashError::FlashSize);
            }
        },
        Err(e) => return Err(e),
    }
    // Exponential search for the first out-of-range offset.
    let mut lo: u32 = 0;  // base + lo is readable
    let mut s: u32 = FIRST_PROBE;
    while s < SIZE_CAP
        invariant
            bsl.continues(old(bsl)),
            bsl.checksum == sum(),
            l0 == old(bsl).log@,
            *final(bsl.port) == *final(old(bsl).port),
            whole == sizing(base, link_at(timeout_ms)),
            after(whole, since(l0, bsl.log@)) == doubling(base, lo as int, s as int, link_at(timeout_ms)),
            reports_of(since(l0, bsl.log@)) == Seq::<Report>::empty(),
            0 < s <= 2 * SIZE_CAP,
            lo < s,
            lo < SIZE_CAP,
        decreases still_to_read(SIZE_CAP as nat, s as nat),
    {
        let ghost l1 = bsl.log@;
        let at: u32 = address_after(base, s as usize);
        let probed: Result<bool, FlashError> = probe(bsl, at, timeout_ms);
        proof {
            lemma_part_held_whatever_follows(
                whole,
                probing(at, link_at(timeout_ms)),
                l0,
                l1,
                bsl.log@,
                probe_said(probed),
            );
            assert(Seq::<Report>::empty() + Seq::<Report>::empty() =~= Seq::<Report>::empty());
        }
        match probed {
            Ok(readable) => {
                if !readable {
                    return close_in(bsl, base, lo, s, timeout_ms, Ghost(whole), Ghost(l0));
                }
            },
            Err(e) => return Err(e),
        }
        lo = s;
        s = 2 * s;
    }
    close_in(bsl, base, lo, SIZE_CAP, timeout_ms, Ghost(whole), Ghost(l0))
}

/// Binary search for the boundary between `lo` and `hi`, down to the grain.
fn close_in<T: Transport>(
    bsl: &mut BslIo<'_, T>,
    base: u32,
    lo: u32,
    hi: u32,
    timeout_ms: u64,
    Ghost(whole): Ghost<Talk<u32>>,
    Ghost(l0): Ghost<Seq<Act>>,
) -> (r: Result<u32, FlashError>)
    requires
        old(bsl).wf(),
        old(bsl).checksum == sum(),
        lo < hi <= SIZE_CAP,
        extends(l0, old(bsl).log@),
        after(whole, since(l0, old(bsl).log@)) == halving(base, lo as int, hi as int, link_at(timeout_ms)),
        reports_of(since(l0, old(bsl).log@)) == Seq::<Report>::empty(),
    ensures
        final(bsl).continues(old(bsl)),
        extends(l0, final(bsl).log@),
        after(whole, since(l0, final(bsl).log@)) == Dialogue::Over(size_said(r)),
        r matches Ok(size) ==> size <= SIZE_CAP,
        reports_of(since(l0, final(bsl).log@)) == Seq::<Report>::empty(),
        *final(final(bsl).port) == *final(old(bsl).port),
{
    let mut lo: u32 = lo;
    let mut hi: u32 = hi;
    proof {
        lemma_outset(whole, bsl.log@);
    }
    while hi - lo > SIZE_GRAIN
        invariant
            bsl.continues(old(bsl)),
            bsl.checksum == sum(),
            *final(bsl.port) == *final(old(bsl).port),
            lo < hi <= SIZE_CAP,
            extends(l0, bsl.log@),
            after(whole, since(l0, bsl.log@)) == halving(base, lo as int, hi as int, link_at(timeout_ms)),
            reports_of(since(l0, bsl.log@)) == Seq::<Report>::empty(),
        decreases hi - lo,
    {
        let mid: u32 = lo + (hi - lo) / 2 / SIZE_GRAIN * SIZE_GRAIN;
        if mid == lo {
            return Ok(hi);
        }
        let ghost l1 = bsl.log@;
        let at: u32 = address_after(base, mid as usize);
        let probed: Result<bool, FlashError> = probe(bsl, at, timeout_ms);
        proof {
            lemma_since(old(bsl).log@, l1, bsl.log@);
            lemma_part_held_whatever_follows(
                whole,
                probing(at, link_at(timeout_ms)),
                l0,
                l1,
                bsl.log@,
                probe_said(probed),
            );
            assert(Seq::<Report>::empty() + Seq::<Report>::empty() =~= Seq::<Report>::empty());
        }
        match probed {
            Ok(readable) => {
                if readable {
                    lo = mid;
                } else {
                    hi = mid;
                }
            },
            Err(e) => return Err(e),
        }
    }
    Ok(hi)
}

/// What the result of a probe says.
pub open spec fn probe_said(r: Result<bool, FlashError>) -> Result<bool, FlashFault> {
    match r {
        Ok(b) => Ok(b),
        Err(e) => Err(e@),
    }
}

/// What the result of sizing the flash says.
pub open spec fn size_said(r: Result<u32, FlashError>) -> Result<u32, FlashFault> {
    match r {
        Ok(n) => Ok(n),
        Err(e) => Err(e@),
    }
}

/// What the result of reading an image says.
pub open spec fn image_said(r: Result<Vec<u8>, FlashError>) -> Result<Seq<u8>, FlashFault> {
    match r {
        Ok(v) => Ok(v@),
        Err(e) => Err(e@),
    }
}

/// What the result of a full dump says.
pub open spec fn full_dump_said(r: Result<(Vec<u8>, u32), FlashError>) -> Result<
    (Seq<u8>, u32),
    FlashFault,
> {
    match r {
        Ok((image, size)) => Ok((image@, size)),
        Err(e) => Err(e@),
    }
}

/// Some messages, with their data as sequences.
pub open spec fn message_views(v: Seq<(u16, Vec<u8>)>) -> Seq<(u16, Seq<u8>)> {
    v.map_values(|m: (u16, Vec<u8>)| (m.0, m.1@))
}

/// What the result of a probe with some commands says.
pub open spec fn replies_said(r: Result<Vec<(u16, Vec<u8>)>, FlashError>) -> Result<
    Seq<(u16, Seq<u8>)>,
    FlashFault,
> {
    match r {
        Ok(v) => Ok(message_views(v@)),
        Err(e) => Err(e@),
    }
}

/// The byte sequences of some buffers.
pub open spec fn byte_views(v: Seq<Vec<u8>>) -> Seq<Seq<u8>> {
    v.map_values(|b: Vec<u8>| b@)
}

/// What the result of a dump says.
pub open spec fn dumps_said(r: Result<Vec<Vec<u8>>, FlashError>) -> Result<
    Seq<Seq<u8>>,
    FlashFault,
> {
    match r {
        Ok(v) => Ok(byte_views(v@)),
        Err(e) => Err(e@),
    }
}

/// What the result of writing a plan says about how it went.
pub open spec fn plan_said(r: Result<(u64, u64, u64), FlashError>) -> Result<(), FlashFault> {
    match r {
        Ok(_) => Ok(()),
        Err(e) => Err(e@),
    }
}

/// What a count that the flash driver gives says about how it went.
pub open spec fn count_said(r: Result<u64, FlashError>) -> Result<(), FlashFault> {
    match r {
        Ok(_) => Ok(()),
        Err(e) => Err(e@),
    }
}

/// Whether the payload of a partition can be staged.
pub open spec fn partition_stageable(e: Entry, pac: Seq<u8>, opts: FlashOptions) -> bool {
    e.payload(pac) matches Some(data) ==> stageable(data, at_least_one(opts.chunk as int))
}

/// Whether the payload of a marker can be staged, as it is written.
pub open spec fn marker_stageable(e: Entry, pac: Seq<u8>, opts: FlashOptions) -> bool {
    e.payload(pac) matches Some(data) ==> stageable(
        if names_nv(e.file_id) {
            nv_fixed(data)
        } else {
            data
        },
        at_least_one(opts.chunk as int),
    )
}

/// Whether each piece of `chunk` bytes of the data can be framed.
fn pieces_fit(data: &[u8], chunk: usize) -> (r: bool)
    requires
        chunk > 0,
    ensures
        r == pieces_frameable(data@, 0, chunk as int, sum()),
{
    let mut off: usize = 0;
    while off < data.len()
        invariant
            chunk > 0,
            off <= data@.len(),
            pieces_frameable(data@, 0, chunk as int, sum()) == pieces_frameable(
                data@,
                off as int,
                chunk as int,
                sum(),
            ),
        decreases data.len() - off,
    {
        let n: usize = if data.len() - off < chunk {
            data.len() - off
        } else {
            chunk
        };
        let piece: &[u8] = vstd::slice::slice_subrange(data, off, off + n);
        if !is_frameable(cmd::MIDST_DATA, piece, Checksum::Sprd) {
            return false;
        }
        off += n;
    }
    true
}

/// Whether data can be staged at `chunk` bytes, and at every size that timeouts may bring
/// it down to.
fn is_stageable(data: &[u8], chunk: usize) -> (r: bool)
    ensures
        r == stageable(data@, at_least_one(chunk as int)),
{
    let mut size: usize = if chunk < 1 {
        1
    } else {
        chunk
    };
    while size > crate::bsl::MAX_DATA && data.len() > crate::bsl::MAX_DATA
        invariant
            size >= 1,
            stageable(data@, at_least_one(chunk as int)) == stageable(data@, size as int),
        decreases size,
    {
        if !pieces_fit(data, size) {
            return false;
        }
        size = size / 2;
    }
    proof {
        law_short_chunks_are_stageable(data@, size as int);
    }
    true
}

} // verus!
