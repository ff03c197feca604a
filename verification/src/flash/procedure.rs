//! What a flash run, a dump or a probe says to the device, from beginning to end.

use vstd::prelude::*;

use crate::bsl::{cmd, parsed, rep, unescaped, Checksum};
use crate::bytes::be32_bytes;
use crate::error::Fault;
use crate::flash::bsl_io::{
    acked, at_least_one, connect_task, image_tasks, least, moved_on, note, pieces_frameable,
    read_request, reading, stage_names, start_of, still_to_read, ImageNames,
};
use crate::flash::dialogue::{
    all_of, and_next, and_then, ask, bsl_fault, hear, in_turn, pdl_fault, tell, Dialogue, Link, Step,
    Talk, Task, Upset,
};
use crate::flash::fault::{BslFault, FlashFault, PdlFault};
use crate::flash::options::FlashOptions;
use crate::flash::pdl_io::{executing, load_tasks, pdl_connect_task};
use crate::pac::Entry;
use crate::plan::{names_nv, nv_fixed, nv_start_of, Erase, Plan};
use crate::text::{trimmed, utf8_lossy};
use crate::transport::TransportFault;

verus! {

/// Chunk size for loading the FDL stages, which run under the BootROM/FDL1 whose
/// receive buffer is small. Kept conservative; the large `opts.chunk` is used
/// only for partition/NV writes under FDL2 (which has a much bigger buffer).
pub const FDL_LOAD_CHUNK: usize = 2048;

/// Floor for the adaptive chunk back-off. 512 B is proven reliable over the
/// generic `cdc_acm` driver behind usbipd, where larger frames stall at the tail
/// of a big transfer.
pub const MIN_ADAPTIVE_CHUNK: usize = 512;

/// Read-back request size for `--verify-readback` (conservative for usbipd).
pub const READBACK_CHUNK: usize = 1024;

/// Flash sizes are found to this granularity (64 KiB).
pub const SIZE_GRAIN: u32 = 0x1_0000;

/// The first offset at which the end of the flash is looked for (1 MiB).
pub const FIRST_PROBE: u32 = 0x10_0000;

/// The flash is never probed past this (128 MiB).
pub const SIZE_CAP: u32 = 0x800_0000;

/// The checksum that RDA8910/UIS8910 devices use.
pub open spec fn sum() -> Checksum {
    Checksum::Sprd
}

/// How commands are sent in a run with these options.
pub open spec fn usual(opts: FlashOptions) -> Link {
    Link { checksum: sum(), timeout_ms: opts.timeout_ms }
}

/// How the slower start of the second stage is sent in a run with these options.
pub open spec fn patient(opts: FlashOptions) -> Link {
    Link { checksum: sum(), timeout_ms: opts.exec_timeout_ms }
}

// ---------------------------------------------------------------------------
// Bring-up
// ---------------------------------------------------------------------------

/// The version banner in a raw VER frame, flags included; there is none if the
/// frame does not decode or is of another type.
pub open spec fn version_in(frame: Seq<u8>) -> Option<Seq<char>> {
    match parsed(unescaped(frame.subrange(1, frame.len() - 1))) {
        Ok((kind, data)) => if kind == rep::VER {
            Some(trimmed(utf8_lossy(data)))
        } else {
            None
        },
        Err(_) => None,
    }
}

/// A dialogue that fails at once.
pub open spec fn failing<A>(e: FlashFault) -> Talk<A> {
    Dialogue::Over(Err(e))
}

/// The first-stage loader is loaded over PDL and started; gives its version banner.
pub open spec fn fdl1_talk(fdl1: Entry, pac: Seq<u8>, opts: FlashOptions) -> Talk<Seq<char>> {
    match fdl1.payload(pac) {
        None => failing(FlashFault::Payload(fdl1.file_id)),
        Some(data) => and_then(
            pdl_connect_task(opts.timeout_ms).talk(),
            |_n: ()|
                and_then(
                    all_of(load_tasks(fdl1.address, data, "FDL1"@, opts.timeout_ms)),
                    |_n: ()|
                        and_then(
                            executing(opts.exec_timeout_ms),
                            |frame: Seq<u8>|
                                match version_in(frame) {
                                    None => failing(FlashFault::Version),
                                    Some(version) => Dialogue::Over(Ok(version)),
                                },
                        ),
                ),
        ),
    }
}

/// The second-stage loader is staged and started, if there is one.
pub open spec fn fdl2_talks(fdl2: Option<Entry>, pac: Seq<u8>, opts: FlashOptions) -> Seq<Talk<()>> {
    match fdl2 {
        None => Seq::empty(),
        Some(e) => match e.payload(pac) {
            None => seq![failing(FlashFault::Payload(e.file_id))],
            Some(data) => seq![
                all_of(
                    image_tasks(
                        start_of(e.address, data),
                        data,
                        FDL_LOAD_CHUNK as int,
                        usual(opts),
                        stage_names(),
                        "FDL2"@,
                    ),
                ),
                acked(cmd::EXEC_DATA, Seq::empty(), patient(opts), "EXEC FDL2"@).talk(),
                connect_task(usual(opts)).talk(),
            ],
        },
    }
}

/// The baud rate is changed, if one is asked for.
pub open spec fn baud_talks(opts: FlashOptions) -> Seq<Talk<()>> {
    match opts.baud {
        None => Seq::empty(),
        Some(rate) => seq![
            acked(cmd::CHANGE_BAUD, be32_bytes(rate), usual(opts), "CHANGE_BAUD"@).talk(),
            Task::Just(Step::Rate { baud: rate }).talk(),
            connect_task(usual(opts)).talk(),
        ],
    }
}

/// The device is brought from its first-stage loader to a connected second stage.
pub open spec fn fdl2_phase(fdl2: Option<Entry>, pac: Seq<u8>, opts: FlashOptions) -> Talk<()> {
    in_turn(
        seq![
            connect_task(usual(opts)).talk(),
            in_turn(fdl2_talks(fdl2, pac, opts)),
            in_turn(baud_talks(opts)),
        ],
    )
}

/// The device is brought up to a connected second-stage loader; gives the version
/// banner of the first stage.
pub open spec fn bring_up_talk(plan: Plan, pac: Seq<u8>, opts: FlashOptions) -> Talk<Seq<char>> {
    and_then(
        fdl1_talk(plan.fdl1, pac, opts),
        |version: Seq<char>|
            and_then(
                fdl2_phase(plan.fdl2, pac, opts),
                |_n: ()| Dialogue::Over(Ok(version)),
            ),
    )
}

// ---------------------------------------------------------------------------
// Writing
// ---------------------------------------------------------------------------

/// An image to be written.
pub struct Image {
    pub start: Seq<u8>,
    pub data: Seq<u8>,
    pub names: ImageNames,
    pub label: Seq<char>,
}

impl Image {
    /// What to do to write it in pieces of `chunk` bytes.
    pub open spec fn tasks(self, chunk: int, link: Link) -> Seq<Task> {
        image_tasks(self.start, self.data, chunk, link, self.names, self.label)
    }
}

/// The image of a partition.
pub open spec fn stage_image(addr: u32, data: Seq<u8>, label: Seq<char>) -> Image {
    Image { start: start_of(addr, data), data, names: stage_names(), label }
}

/// The names of the commands that write NV.
pub open spec fn nv_names() -> ImageNames {
    ImageNames { start: "NV START", midst: "NV MIDST", end: "NV END" }
}

/// The image of the NV region: with its CRC refreshed and a sum32-checked start.
pub open spec fn nv_image(addr: u32, data: Seq<u8>) -> Image {
    Image {
        start: nv_start_of(addr, nv_fixed(data)),
        data: nv_fixed(data),
        names: nv_names(),
        label: "NV"@,
    }
}

/// Whether a failure is a response timeout of the BSL phase.
pub open spec fn timed_out(e: FlashFault) -> bool {
    e matches FlashFault::Bsl(b) && b.timed_out()
}

/// The chunk to go on with after a timeout: half, down to the floor.
pub open spec fn smaller_chunk(chunk: int) -> int {
    if chunk / 2 < MIN_ADAPTIVE_CHUNK {
        MIN_ADAPTIVE_CHUNK as int
    } else {
        chunk / 2
    }
}

/// Write an image in pieces of `chunk` bytes. After a timeout, with the chunk still
/// above the floor, throw away what has come in, connect anew, and write all of it
/// again in smaller pieces.
pub open spec fn writing(image: Image, chunk: int, link: Link) -> Talk<()>
    decreases chunk,
{
    and_next(
        all_of(image.tasks(chunk, link)),
        |r: Result<(), FlashFault>|
            if (r matches Err(e) && timed_out(e)) && chunk > MIN_ADAPTIVE_CHUNK {
                and_then(
                    Task::Just(Step::Purge).talk(),
                    |_n: ()|
                        and_then(
                            connect_task(link).talk(),
                            |_n: ()| writing(image, smaller_chunk(chunk), link),
                        ),
                )
            } else {
                Dialogue::Over(r)
            },
    )
}

/// Whether the pieces of `data` can be framed at `chunk` bytes, and at every size
/// that timeouts may bring it down to.
pub open spec fn stageable(data: Seq<u8>, chunk: int) -> bool
    decreases chunk,
{
    &&& pieces_frameable(data, 0, chunk, sum())
    &&& chunk > MIN_ADAPTIVE_CHUNK ==> stageable(data, smaller_chunk(chunk))
}

/// Chunks of [`crate::bsl::MAX_DATA`] bytes or fewer can always be staged.
pub proof fn law_short_chunks_are_stageable(data: Seq<u8>, chunk: int)
    requires
        chunk <= crate::bsl::MAX_DATA || data.len() <= crate::bsl::MAX_DATA,
    ensures
        stageable(data, chunk),
    decreases chunk,
{
    crate::flash::bsl_io::law_short_pieces_are_frameable(data, 0, chunk, sum());
    if chunk > MIN_ADAPTIVE_CHUNK {
        law_short_chunks_are_stageable(data, smaller_chunk(chunk));
    }
}

/// Read back what was written at `addr` and compare.
pub open spec fn verifying(addr: u32, data: Seq<u8>, file_id: Seq<char>, link: Link) -> Talk<()> {
    and_then(
        reading(addr, data.len(), READBACK_CHUNK as nat, Seq::empty(), link),
        |back: Seq<u8>|
            if back == data {
                note(file_id, data.len() as int, data.len() as int).talk()
            } else {
                failing(FlashFault::VerifyMismatch(file_id))
            },
    )
}

/// Write a partition, and verify it if that is asked for.
pub open spec fn partition_talk(e: Entry, pac: Seq<u8>, opts: FlashOptions) -> Talk<()> {
    match e.payload(pac) {
        None => failing(FlashFault::Payload(e.file_id)),
        Some(data) => and_then(
            writing(
                stage_image(e.address, data, e.file_id),
                at_least_one(opts.chunk as int),
                usual(opts),
            ),
            |_n: ()|
                if opts.verify_readback {
                    verifying(e.address, data, e.file_id, usual(opts))
                } else {
                    Dialogue::Over(Ok(()))
                },
        ),
    }
}

/// Erase a region.
pub open spec fn erase_talk(op: Erase, opts: FlashOptions) -> Talk<()> {
    acked(cmd::ERASE_FLASH, be32_bytes(op.address) + op.param, usual(opts), "ERASE"@).talk()
}

/// The image of a marker's data: NV with its CRC refreshed, anything else plain.
pub open spec fn marker_image(e: Entry, data: Seq<u8>) -> Image {
    if names_nv(e.file_id) {
        nv_image(e.address, data)
    } else {
        stage_image(e.address, data, e.file_id)
    }
}

/// Write the data of a marker.
pub open spec fn marker_talk(e: Entry, pac: Seq<u8>, opts: FlashOptions) -> Talk<()> {
    match e.payload(pac) {
        None => failing(FlashFault::Payload(e.file_id)),
        Some(data) => writing(
            marker_image(e, data),
            at_least_one(opts.chunk as int),
            usual(opts),
        ),
    }
}

/// The partitions are written in order.
pub open spec fn partition_talks(plan: Plan, pac: Seq<u8>, opts: FlashOptions) -> Seq<Talk<()>> {
    plan.partitions.map_values(|e: Entry| partition_talk(e, pac, opts))
}

/// The erases are done in order.
pub open spec fn erase_talks(plan: Plan, opts: FlashOptions) -> Seq<Talk<()>> {
    plan.erases.map_values(|op: Erase| erase_talk(op, opts))
}

/// The data of the markers is written in order.
pub open spec fn marker_talks(plan: Plan, pac: Seq<u8>, opts: FlashOptions) -> Seq<Talk<()>> {
    plan.data_markers.map_values(|e: Entry| marker_talk(e, pac, opts))
}

/// The device is reset, if that is asked for.
pub open spec fn reset_talk(opts: FlashOptions) -> Talk<()> {
    in_turn(
        if opts.reset {
            seq![
                tell(cmd::NORMAL_RESET, Seq::empty(), sum()),
                Task::Just(Step::Hold { millis: opts.reset_hold_ms }).talk(),
            ]
        } else {
            Seq::empty()
        },
    )
}

/// Everything that is written, in order: the partitions; with `format` then the
/// erases and the data of the markers.
pub open spec fn writing_talk(plan: Plan, pac: Seq<u8>, opts: FlashOptions) -> Talk<()> {
    in_turn(
        seq![in_turn(partition_talks(plan, pac, opts))] + if opts.format {
            seq![in_turn(erase_talks(plan, opts)), in_turn(marker_talks(plan, pac, opts))]
        } else {
            Seq::empty()
        } + seq![reset_talk(opts)],
    )
}

/// The payload bytes of some entries together.
pub open spec fn payload_bytes(entries: Seq<Entry>) -> nat
    decreases entries.len(),
{
    if entries.len() == 0 {
        0
    } else {
        payload_bytes(entries.drop_last()) + entries.last().size as nat
    }
}

/// How many payload bytes a run writes.
pub open spec fn bytes_to_write(plan: Plan, opts: FlashOptions) -> nat {
    payload_bytes(plan.partitions) + if opts.format {
        payload_bytes(plan.data_markers)
    } else {
        0
    }
}

/// What a flash run comes to when it succeeds.
pub struct Flashed {
    pub version: Seq<char>,
    pub bytes_written: nat,
}

/// A flash run.
pub open spec fn flash_talk(plan: Plan, pac: Seq<u8>, opts: FlashOptions) -> Talk<Flashed> {
    and_then(
        bring_up_talk(plan, pac, opts),
        |version: Seq<char>|
            and_then(
                writing_talk(plan, pac, opts),
                |_n: ()|
                    Dialogue::Over(
                        Ok(Flashed { version, bytes_written: bytes_to_write(plan, opts) }),
                    ),
            ),
    )
}

// ---------------------------------------------------------------------------
// Reading
// ---------------------------------------------------------------------------

/// Read some regions in order, when those before them gave `got`.
pub open spec fn dumping(regions: Seq<(u32, u32)>, got: Seq<Seq<u8>>, link: Link) -> Talk<
    Seq<Seq<u8>>,
>
    decreases regions.len(),
{
    if regions.len() == 0 {
        Dialogue::Over(Ok(got))
    } else {
        let (addr, len) = regions[0];
        and_then(
            reading(addr, len as nat, READBACK_CHUNK as nat, Seq::empty(), link),
            |data: Seq<u8>|
                and_then(
                    note("read"@, data.len() as int, len as int).talk(),
                    |_n: ()| dumping(regions.skip(1), got.push(data), link),
                ),
        )
    }
}

/// Read some regions and reset.
pub open spec fn dump_session(opts: FlashOptions, regions: Seq<(u32, u32)>) -> Talk<Seq<Seq<u8>>> {
    and_then(
        dumping(regions, Seq::empty(), usual(opts)),
        |got: Seq<Seq<u8>>| and_then(reset_talk(opts), |_n: ()| Dialogue::Over(Ok(got))),
    )
}

/// A dump of some regions.
pub open spec fn dump_talk(
    plan: Plan,
    pac: Seq<u8>,
    opts: FlashOptions,
    regions: Seq<(u32, u32)>,
) -> Talk<Seq<Seq<u8>>> {
    and_then(bring_up_talk(plan, pac, opts), |_v: Seq<char>| dump_session(opts, regions))
}

/// Ask whether flash can be read at `addr`: if it can, the reply is of the read
/// type.
pub open spec fn probing(addr: u32, link: Link) -> Talk<bool> {
    and_then(
        ask(cmd::READ_FLASH, read_request(addr, 16), link),
        |m: (u16, Seq<u8>)| Dialogue::Over(Ok(m.0 == rep::READ_FLASH)),
    )
}

/// The middle between two offsets, down to the grain from the lower one.
pub open spec fn middle(lo: int, hi: int) -> int {
    lo + (hi - lo) / 2 / (SIZE_GRAIN as int) * SIZE_GRAIN
}

/// Close in on the end of the flash, which lies above `lo` and not above `hi`.
pub open spec fn halving(base: u32, lo: int, hi: int, link: Link) -> Talk<u32>
    decreases hi - lo,
{
    let mid = middle(lo, hi);
    if hi - lo <= SIZE_GRAIN || mid <= lo || mid >= hi {
        Dialogue::Over(Ok(hi as u32))
    } else {
        and_then(
            probing(moved_on(base, mid as nat), link),
            |readable: bool|
                if readable {
                    halving(base, mid, hi, link)
                } else {
                    halving(base, lo, mid, link)
                },
        )
    }
}

/// Look for an offset past the end of the flash, first at `s` and then at twice
/// that each time, up to the cap; `lo` can be read.
pub open spec fn doubling(base: u32, lo: int, s: int, link: Link) -> Talk<u32>
    decreases still_to_read(SIZE_CAP as nat, s as nat),
{
    if s >= SIZE_CAP || s <= 0 {
        halving(base, lo, SIZE_CAP as int, link)
    } else {
        and_then(
            probing(moved_on(base, s as nat), link),
            |readable: bool|
                if readable {
                    doubling(base, s, 2 * s, link)
                } else {
                    halving(base, lo, s, link)
                },
        )
    }
}

/// Find the size of the flash at `base`.
pub open spec fn sizing(base: u32, link: Link) -> Talk<u32> {
    and_then(
        probing(base, link),
        |readable: bool|
            if readable {
                doubling(base, 0, FIRST_PROBE as int, link)
            } else {
                failing(FlashFault::FlashSize)
            },
    )
}

/// Read `size` bytes of flash from `base` on, when `got` has been read already, and
/// report after each read. An empty read ends it early.
pub open spec fn imaging(base: u32, size: nat, got: Seq<u8>, link: Link) -> Talk<Seq<u8>>
    decreases still_to_read(size, got.len()),
{
    if got.len() >= size {
        Dialogue::Over(Ok(got))
    } else {
        and_then(
            reading(
                moved_on(base, got.len()),
                least(size - got.len(), READBACK_CHUNK as int) as nat,
                READBACK_CHUNK as nat,
                Seq::empty(),
                link,
            ),
            |data: Seq<u8>|
                if data.len() == 0 {
                    Dialogue::Over(Ok(got))
                } else {
                    and_then(
                        note("read"@, (got.len() + data.len()) as int, size as int).talk(),
                        |_n: ()| imaging(base, size, got + data, link),
                    )
                },
        )
    }
}

/// Find the size of the flash at `base`, report it, read the flash, and reset.
pub open spec fn dump_full_session(opts: FlashOptions, base: u32) -> Talk<(Seq<u8>, u32)> {
    and_then(
        sizing(base, usual(opts)),
        |size: u32|
            and_then(
                note("size"@, size as int, size as int).talk(),
                |_n: ()|
                    and_then(
                        imaging(base, size as nat, Seq::empty(), usual(opts)),
                        |image: Seq<u8>|
                            and_then(
                                reset_talk(opts),
                                |_n: ()| Dialogue::Over(Ok((image, size))),
                            ),
                    ),
            ),
    )
}

/// A dump of the whole flash: the image and its size.
pub open spec fn dump_full_talk(
    plan: Plan,
    pac: Seq<u8>,
    opts: FlashOptions,
    base: u32,
) -> Talk<(Seq<u8>, u32)> {
    and_then(bring_up_talk(plan, pac, opts), |_v: Seq<char>| dump_full_session(opts, base))
}

// ---------------------------------------------------------------------------
// Probing
// ---------------------------------------------------------------------------

/// Send some commands in order and collect the replies, when those before them
/// gave `got`. A reply that does not come in time counts as type 0 without data and
/// ends it.
pub open spec fn polling(
    cmds: Seq<(u16, Seq<u8>)>,
    got: Seq<(u16, Seq<u8>)>,
    link: Link,
) -> Talk<Seq<(u16, Seq<u8>)>>
    decreases cmds.len(),
{
    if cmds.len() == 0 {
        Dialogue::Over(Ok(got))
    } else {
        and_then(
            tell(cmds[0].0, cmds[0].1, link.checksum),
            |_n: ()|
                and_next(
                    hear(link.timeout_ms),
                    |r: Result<(u16, Seq<u8>), FlashFault>|
                        match r {
                            Ok(message) => polling(cmds.skip(1), got.push(message), link),
                            Err(e) => if timed_out(e) {
                                Dialogue::Over(Ok(got.push((0, Seq::empty()))))
                            } else {
                                Dialogue::Over(Err(e))
                            },
                        },
                ),
        )
    }
}

/// Send some commands, collect the replies, and reset.
pub open spec fn probe_session(opts: FlashOptions, cmds: Seq<(u16, Seq<u8>)>) -> Talk<
    Seq<(u16, Seq<u8>)>,
> {
    and_then(
        polling(cmds, Seq::empty(), usual(opts)),
        |got: Seq<(u16, Seq<u8>)>| and_then(reset_talk(opts), |_n: ()| Dialogue::Over(Ok(got))),
    )
}

/// A probe with some commands.
pub open spec fn probe_talk(
    plan: Plan,
    pac: Seq<u8>,
    opts: FlashOptions,
    cmds: Seq<(u16, Seq<u8>)>,
) -> Talk<Seq<(u16, Seq<u8>)>> {
    and_then(bring_up_talk(plan, pac, opts), |_v: Seq<char>| probe_session(opts, cmds))
}

// ---------------------------------------------------------------------------
// What a run counts
// ---------------------------------------------------------------------------

/// Each entry counts with its size, by itself.
pub proof fn law_payload_bytes_add_up(a: Seq<Entry>, b: Seq<Entry>, one: Entry)
    ensures
        payload_bytes(Seq::empty()) == 0,
        payload_bytes(seq![one]) == one.size,
        payload_bytes(a + b) == payload_bytes(a) + payload_bytes(b),
    decreases b.len(),
{
    assert(seq![one].drop_last() =~= Seq::<Entry>::empty());
    reveal_with_fuel(payload_bytes, 2);
    if b.len() == 0 {
        assert(a + b =~= a);
    } else {
        assert((a + b).drop_last() =~= a + b.drop_last());
        law_payload_bytes_add_up(a, b.drop_last(), one);
    }
}

/// What a run writes is its partitions and, with `format`, the data of its markers too.
pub proof fn law_bytes_to_write(plan: Plan, opts: FlashOptions)
    ensures
        !opts.format ==> bytes_to_write(plan, opts) == payload_bytes(plan.partitions),
        opts.format ==> bytes_to_write(plan, opts) == payload_bytes(
            plan.partitions + plan.data_markers,
        ),
{
    law_payload_bytes_add_up(plan.partitions, plan.data_markers, plan.fdl1);
}

/// Commands are sent with the Spreadtrum checksum; their replies are waited for as long as the
/// options say, and longer ones as long as those say for the start of the second stage.
pub proof fn law_links(opts: FlashOptions)
    ensures
        usual(opts).checksum == Checksum::Sprd && patient(opts).checksum == Checksum::Sprd,
        usual(opts).timeout_ms == opts.timeout_ms,
        patient(opts).timeout_ms == opts.exec_timeout_ms,
{
}

/// What is worth another attempt with smaller pieces: a reply that did not come in time, and no
/// other failure.
pub proof fn law_only_late_replies_are_retried(f: TransportFault, u: Fault, what: Seq<char>)
    ensures
        timed_out(bsl_fault(Upset::Transport(f))) <==> f is Timeout,
        !timed_out(bsl_fault(Upset::Frame(u))),
        !timed_out(pdl_fault(Upset::Transport(f))),
        !timed_out(FlashFault::Payload(what)),
        !timed_out(
            FlashFault::Bsl(BslFault::Unexpected { what, expected: what, got: what }),
        ),
{
}

/// What goes wrong on the way is told as what it is: a fault of the transport in the first phase
/// and in the second one, and a frame that is none.
pub proof fn law_faults_are_told_as_they_are(f: TransportFault, u: Fault)
    ensures
        pdl_fault(Upset::Transport(f)) == FlashFault::Pdl(PdlFault::Transport(f)),
        bsl_fault(Upset::Transport(f)) == FlashFault::Bsl(BslFault::Transport(f)),
        bsl_fault(Upset::Frame(u)) == FlashFault::Bsl(BslFault::Frame(u)),
        pdl_fault(Upset::NoVersion) == FlashFault::Pdl(PdlFault::NoVersion),
{
}

} // verus!
