//! Which commands a device is ever given.
//!
//! What holds here holds of every run, whether it succeeds or fails, and whatever
//! the device answers.

use vstd::prelude::*;

use crate::bsl::cmd;
use crate::flash::bsl_io::{
    acked, at_least_one, connect_task, image_tasks, least, midst_tasks, moved_on, note,
    read_request, reading, stage_names, start_of, still_to_read, ImageNames,
};
use crate::flash::dialogue::{
    after, all_of, and_next, and_then, ask, bsl_fault, command, hear, in_turn, pdl_fault, pdl_step,
    step_alone, tell, unless_failed, Act, Dialogue, Link, Outcome, Step, Talk, Task, Upset,
};
use crate::flash::fault::FlashFault;
use crate::flash::laws::{
    ends_at, lemma_held_in_parts, lemma_over, lemma_told_one, lemma_told_split, told,
};
use crate::flash::options::FlashOptions;
use crate::flash::pdl_io::{block_tasks, executing, load_tasks, pdl_connect_task, rousing};
use crate::flash::procedure::{
    baud_talks, bring_up_talk, doubling, dump_full_session, dump_full_talk, dump_session, dump_talk,
    dumping, failing, fdl1_talk, fdl2_phase, fdl2_talks, flash_talk, halving, imaging, middle,
    partition_talk, partition_talks, probing, reset_talk, sizing, patient, smaller_chunk,
    stage_image, sum, timed_out, usual, version_in, writing, writing_talk, Flashed, Image,
    FDL_LOAD_CHUNK, FIRST_PROBE, MIN_ADAPTIVE_CHUNK, READBACK_CHUNK, SIZE_CAP, SIZE_GRAIN,
};
use crate::pac::Entry;
use crate::plan::Plan;

verus! {

/// Whether every BSL command that a dialogue may ever come to is one of `cmds`.
pub open spec fn tells_only<R>(d: Dialogue<R>, cmds: Set<u16>) -> bool
    decreases d,
{
    match d {
        Dialogue::Over(_) => true,
        Dialogue::Next(step, go_on) => {
            &&& (step matches Step::Tell { cmd, .. } ==> cmds.contains(cmd))
            &&& forall|o: Outcome| tells_only(*#[trigger] go_on(o), cmds)
        },
        Dialogue::Astray => true,
    }
}

/// Whether all of some messages are commands of `cmds`.
pub open spec fn commands_among(messages: Seq<(u16, Seq<u8>)>, cmds: Set<u16>) -> bool {
    forall|i: int| 0 <= i < messages.len() ==> cmds.contains((#[trigger] messages[i]).0)
}

/// What was told while a dialogue was held, to whatever end, is what it may tell.
proof fn lemma_told_among<R>(d: Dialogue<R>, cmds: Set<u16>, acts: Seq<Act>, r: R)
    requires
        tells_only(d, cmds),
        after(d, acts) == Dialogue::Over(r),
    ensures
        commands_among(told(acts), cmds),
    decreases acts.len(),
{
    if acts.len() > 0 {
        match d {
            Dialogue::Next(step, go_on) => {
                let rest = acts.skip(1);
                lemma_told_among(*go_on(acts[0].outcome), cmds, rest, r);
                lemma_told_split(acts, 1);
                assert(acts.take(1) =~= seq![acts[0]]);
                lemma_told_one(acts[0]);
            },
            _ => {},
        }
    }
}

proof fn lemma_both_tell_only<A, B>(
    p: Dialogue<A>,
    f: spec_fn(A) -> Dialogue<B>,
    cmds: Set<u16>,
)
    requires
        tells_only(p, cmds),
        forall|a: A| tells_only(#[trigger] f(a), cmds),
    ensures
        tells_only(and_next(p, f), cmds),
    decreases p,
{
    match p {
        Dialogue::Next(step, go_on) => {
            match and_next(p, f) {
                Dialogue::Next(s, g) => {
                    assert forall|o: Outcome| tells_only(*#[trigger] g(o), cmds) by {
                        lemma_both_tell_only(*go_on(o), f, cmds);
                    }
                },
                _ => {},
            }
        },
        _ => {},
    }
}

/// As [`lemma_both_tell_only`], for a second part that only comes after a success.
proof fn lemma_then_tells_only<A, B>(p: Talk<A>, f: spec_fn(A) -> Talk<B>, cmds: Set<u16>)
    requires
        tells_only(p, cmds),
        forall|a: A| tells_only(#[trigger] f(a), cmds),
    ensures
        tells_only(and_then(p, f), cmds),
{
    lemma_both_tell_only(p, unless_failed(f), cmds);
}

/// As [`lemma_then_tells_only`], for whatever comes second.
proof fn lemma_whatever_follows_tells_only<A, B>(p: Talk<A>, cmds: Set<u16>)
    requires
        tells_only(p, cmds),
    ensures
        forall|f: spec_fn(A) -> Talk<B>|
            (forall|a: A| tells_only(#[trigger] f(a), cmds)) ==> tells_only(
                #[trigger] and_then(p, f),
                cmds,
            ),
{
    assert forall|f: spec_fn(A) -> Talk<B>|
        (forall|a: A| tells_only(#[trigger] f(a), cmds)) implies tells_only(
        #[trigger] and_then(p, f),
        cmds,
    ) by {
        lemma_then_tells_only(p, f, cmds);
    }
}

// ---------------------------------------------------------------------------
// Steps, commands and lists
// ---------------------------------------------------------------------------

/// Whether a task is no BSL command, or one of `cmds`.
pub open spec fn task_among(t: Task, cmds: Set<u16>) -> bool {
    match t {
        Task::Packet { .. } => true,
        Task::Command { cmd, .. } => cmds.contains(cmd),
        Task::Just(Step::Tell { cmd, .. }) => cmds.contains(cmd),
        Task::Just(_) => true,
    }
}

/// A dialogue of one step tells what that step does.
proof fn lemma_step_tells_only<R>(
    step: Step,
    go_on: spec_fn(Outcome) -> Box<Dialogue<R>>,
    cmds: Set<u16>,
)
    requires
        step matches Step::Tell { cmd, .. } ==> cmds.contains(cmd),
        forall|o: Outcome| *#[trigger] go_on(o) is Over,
    ensures
        tells_only(Dialogue::Next(step, go_on), cmds),
{
    assert forall|o: Outcome| tells_only(*#[trigger] go_on(o), cmds) by {
        assert(*go_on(o) is Over);
    }
}

proof fn lemma_alone_tells_only(step: Step, fault: spec_fn(Upset) -> FlashFault, cmds: Set<u16>)
    requires
        step matches Step::Tell { cmd, .. } ==> cmds.contains(cmd),
    ensures
        tells_only(step_alone(step, fault), cmds),
{
    match step_alone(step, fault) {
        Dialogue::Next(s, go_on) => {
            lemma_step_tells_only(s, go_on, cmds);
        },
        _ => {},
    }
}

proof fn lemma_hear_tells_only(timeout_ms: u64, cmds: Set<u16>)
    ensures
        tells_only(hear(timeout_ms), cmds),
{
    match hear(timeout_ms) {
        Dialogue::Next(s, go_on) => {
            lemma_step_tells_only(s, go_on, cmds);
        },
        _ => {},
    }
}

proof fn lemma_ask_tells_only(cmd: u16, data: Seq<u8>, link: Link, cmds: Set<u16>)
    requires
        cmds.contains(cmd),
    ensures
        tells_only(ask(cmd, data, link), cmds),
{
    lemma_alone_tells_only(Step::Tell { cmd, data, checksum: link.checksum }, |u: Upset| bsl_fault(u), cmds);
    lemma_hear_tells_only(link.timeout_ms, cmds);
    lemma_then_tells_only(tell(cmd, data, link.checksum), |_n: ()| hear(link.timeout_ms), cmds);
}

proof fn lemma_command_tells_only(
    cmd: u16,
    data: Seq<u8>,
    link: Link,
    expect: u16,
    what: Seq<char>,
    cmds: Set<u16>,
)
    requires
        cmds.contains(cmd),
    ensures
        tells_only(command(cmd, data, link, expect, what), cmds),
{
    reveal(command);
    lemma_ask_tells_only(cmd, data, link, cmds);
    lemma_whatever_follows_tells_only::<(u16, Seq<u8>), Seq<u8>>(ask(cmd, data, link), cmds);
}

proof fn lemma_task_tells_only(t: Task, cmds: Set<u16>)
    requires
        task_among(t, cmds),
    ensures
        tells_only(t.talk(), cmds),
{
    match t {
        Task::Packet { payload, timeout_ms } => {
            let fault = |u: Upset| pdl_fault(u);
            lemma_alone_tells_only(Step::Packet { payload }, fault, cmds);
            lemma_alone_tells_only(Step::Await { timeout_ms }, fault, cmds);
            lemma_then_tells_only(
                pdl_step(Step::Packet { payload }),
                |_n: ()| pdl_step(Step::Await { timeout_ms }),
                cmds,
            );
        },
        Task::Command { cmd, data, link, expect, what } => {
            lemma_command_tells_only(cmd, data, link, expect, what, cmds);
            lemma_whatever_follows_tells_only::<Seq<u8>, ()>(
                command(cmd, data, link, expect, what),
                cmds,
            );
        },
        Task::Just(step) => {
            lemma_alone_tells_only(step, |u: Upset| bsl_fault(u), cmds);
        },
    }
}

/// What comes after any task tells only what the two of them do.
proof fn lemma_after_a_task_tells_only<B>(cmds: Set<u16>)
    ensures
        forall|t: Task, f: spec_fn(()) -> Talk<B>|
            task_among(t, cmds) && (forall|n: ()| tells_only(#[trigger] f(n), cmds)) ==> tells_only(
                #[trigger] and_then(t.talk(), f),
                cmds,
            ),
{
    assert forall|t: Task, f: spec_fn(()) -> Talk<B>|
        task_among(t, cmds) && (forall|n: ()| tells_only(#[trigger] f(n), cmds)) implies tells_only(
        #[trigger] and_then(t.talk(), f),
        cmds,
    ) by {
        lemma_task_tells_only(t, cmds);
        lemma_then_tells_only(t.talk(), f, cmds);
    }
}

proof fn lemma_tasks_tell_only(tasks: Seq<Task>, cmds: Set<u16>)
    requires
        forall|i: int| 0 <= i < tasks.len() ==> task_among(#[trigger] tasks[i], cmds),
    ensures
        tells_only(all_of(tasks), cmds),
    decreases tasks.len(),
{
    if tasks.len() > 0 {
        let rest = tasks.skip(1);
        assert forall|i: int| 0 <= i < rest.len() implies task_among(#[trigger] rest[i], cmds) by {
            assert(rest[i] == tasks[i + 1]);
        }
        lemma_tasks_tell_only(rest, cmds);
        lemma_task_tells_only(tasks[0], cmds);
        lemma_whatever_follows_tells_only::<(), ()>(tasks[0].talk(), cmds);
    }
}

proof fn lemma_turns_tell_only(talks: Seq<Talk<()>>, cmds: Set<u16>)
    requires
        forall|i: int| 0 <= i < talks.len() ==> tells_only(#[trigger] talks[i], cmds),
    ensures
        tells_only(in_turn(talks), cmds),
    decreases talks.len(),
{
    if talks.len() > 0 {
        let rest = talks.skip(1);
        assert forall|i: int| 0 <= i < rest.len() implies tells_only(#[trigger] rest[i], cmds) by {
            assert(rest[i] == talks[i + 1]);
        }
        lemma_turns_tell_only(rest, cmds);
        lemma_whatever_follows_tells_only::<(), ()>(talks[0], cmds);
    }
}

// ---------------------------------------------------------------------------
// Bringing up, writing and reading
// ---------------------------------------------------------------------------

/// The commands that write an image, with those to take up again after a timeout.
pub open spec fn write_commands() -> Set<u16> {
    set![cmd::CONNECT, cmd::START_DATA, cmd::MIDST_DATA, cmd::END_DATA]
}

/// The commands that bring the second-stage loader up.
pub open spec fn bring_up_commands() -> Set<u16> {
    write_commands().insert(cmd::EXEC_DATA).insert(cmd::CHANGE_BAUD)
}

/// The commands of a session that only reads.
pub open spec fn read_commands() -> Set<u16> {
    set![cmd::READ_FLASH, cmd::NORMAL_RESET]
}

proof fn lemma_midst_among(
    data: Seq<u8>,
    off: int,
    chunk: int,
    link: Link,
    what: Seq<char>,
    label: Seq<char>,
    cmds: Set<u16>,
)
    requires
        cmds.contains(cmd::MIDST_DATA),
    ensures
        forall|i: int|
            0 <= i < midst_tasks(data, off, chunk, link, what, label).len() ==> task_among(
                #[trigger] midst_tasks(data, off, chunk, link, what, label)[i],
                cmds,
            ),
    decreases data.len() - off,
{
    let tasks = midst_tasks(data, off, chunk, link, what, label);
    if off < data.len() && chunk > 0 {
        let end = least(off + chunk, data.len() as int);
        let rest = midst_tasks(data, end, chunk, link, what, label);
        lemma_midst_among(data, end, chunk, link, what, label, cmds);
        assert forall|i: int| 0 <= i < tasks.len() implies task_among(
            #[trigger] tasks[i],
            cmds,
        ) by {
            if i >= 2 {
                assert(tasks[i] == rest[i - 2]);
            } else if i == 1 {
                assert(tasks[1] == note(label, end, data.len() as int));
            }
        }
    }
}

proof fn lemma_image_tells_only(
    start: Seq<u8>,
    data: Seq<u8>,
    chunk: int,
    link: Link,
    names: ImageNames,
    label: Seq<char>,
    cmds: Set<u16>,
)
    requires
        write_commands().subset_of(cmds),
    ensures
        tells_only(all_of(image_tasks(start, data, chunk, link, names, label)), cmds),
{
    let tasks = image_tasks(start, data, chunk, link, names, label);
    let midst = midst_tasks(data, 0, chunk, link, names.midst@, label);
    lemma_midst_among(data, 0, chunk, link, names.midst@, label, cmds);
    assert forall|i: int| 0 <= i < tasks.len() implies task_among(#[trigger] tasks[i], cmds) by {
        if 0 < i < tasks.len() - 1 {
            assert(tasks[i] == midst[i - 1]);
        }
    }
    lemma_tasks_tell_only(tasks, cmds);
}

proof fn lemma_writing_tells_only(image: Image, chunk: int, link: Link, cmds: Set<u16>)
    requires
        write_commands().subset_of(cmds),
    ensures
        tells_only(writing(image, chunk, link), cmds),
    decreases chunk,
{
    let f = |r: Result<(), FlashFault>|
        if (r matches Err(e) && timed_out(e)) && chunk > MIN_ADAPTIVE_CHUNK {
            and_then(
                Task::Just(Step::Purge).talk(),
                |_n: ()|
                    and_then(
                        connect_task(link).talk(),
                        |_n: ()| writing(image, smaller_chunk(chunk), link),
                    ),
            )
        } else {
            Dialogue::Over(r)
        };
    lemma_image_tells_only(
        image.start,
        image.data,
        chunk,
        link,
        image.names,
        image.label,
        cmds,
    );
    if chunk > MIN_ADAPTIVE_CHUNK {
        let again = |_n: ()| writing(image, smaller_chunk(chunk), link);
        lemma_writing_tells_only(image, smaller_chunk(chunk), link, cmds);
        lemma_task_tells_only(connect_task(link), cmds);
        lemma_then_tells_only(connect_task(link).talk(), again, cmds);
        lemma_task_tells_only(Task::Just(Step::Purge), cmds);
        lemma_then_tells_only(
            Task::Just(Step::Purge).talk(),
            |_n: ()| and_then(connect_task(link).talk(), again),
            cmds,
        );
    }
    lemma_both_tell_only(all_of(image.tasks(chunk, link)), f, cmds);
}

proof fn lemma_reading_tells_only(
    addr: u32,
    total: nat,
    chunk: nat,
    got: Seq<u8>,
    link: Link,
    cmds: Set<u16>,
)
    requires
        cmds.contains(cmd::READ_FLASH),
    ensures
        tells_only(reading(addr, total, chunk, got, link), cmds),
    decreases still_to_read(total, got.len()),
{
    if got.len() < total {
        let request = read_request(
            moved_on(addr, got.len()),
            least(total - got.len(), chunk as int) as nat,
        );
        let asked = command(
            cmd::READ_FLASH,
            request,
            link,
            crate::bsl::rep::READ_FLASH,
            "READ_FLASH"@,
        );
        lemma_command_tells_only(
            cmd::READ_FLASH,
            request,
            link,
            crate::bsl::rep::READ_FLASH,
            "READ_FLASH"@,
            cmds,
        );
        assert forall|data: Seq<u8>| data.len() > 0 implies tells_only(
            reading(addr, total, chunk, #[trigger] (got + data), link),
            cmds,
        ) by {
            lemma_reading_tells_only(addr, total, chunk, got + data, link, cmds);
        }
        lemma_whatever_follows_tells_only::<Seq<u8>, Seq<u8>>(asked, cmds);
    }
}

proof fn lemma_blocks_among(data: Seq<u8>, i: nat, label: Seq<char>, timeout_ms: u64, cmds: Set<u16>)
    ensures
        forall|j: int|
            0 <= j < block_tasks(data, i, label, timeout_ms).len() ==> task_among(
                #[trigger] block_tasks(data, i, label, timeout_ms)[j],
                cmds,
            ),
    decreases still_to_read(data.len(), (i * crate::pdl::CHUNK) as nat),
{
    let tasks = block_tasks(data, i, label, timeout_ms);
    let off = i * crate::pdl::CHUNK;
    if off < data.len() {
        let end = least(off + crate::pdl::CHUNK, data.len() as int);
        let rest = block_tasks(data, i + 1, label, timeout_ms);
        lemma_blocks_among(data, i + 1, label, timeout_ms, cmds);
        assert forall|j: int| 0 <= j < tasks.len() implies task_among(
            #[trigger] tasks[j],
            cmds,
        ) by {
            if j >= 2 {
                assert(tasks[j] == rest[j - 2]);
            } else if j == 1 {
                assert(tasks[1] == note(label, end, data.len() as int));
            }
        }
    }
}

/// The first-stage loader is brought up without any BSL command.
proof fn lemma_fdl1_tells_only(fdl1: Entry, pac: Seq<u8>, opts: FlashOptions, cmds: Set<u16>)
    ensures
        tells_only(fdl1_talk(fdl1, pac, opts), cmds),
{
    match fdl1.payload(pac) {
        None => {},
        Some(data) => {
            let tasks = load_tasks(fdl1.address, data, "FDL1"@, opts.timeout_ms);
            let blocks = block_tasks(data, 0, "FDL1"@, opts.timeout_ms);
            lemma_blocks_among(data, 0, "FDL1"@, opts.timeout_ms, cmds);
            assert forall|j: int| 0 <= j < tasks.len() implies task_among(
                #[trigger] tasks[j],
                cmds,
            ) by {
                if 0 < j < tasks.len() - 1 {
                    assert(tasks[j] == blocks[j - 1]);
                }
            }
            lemma_tasks_tell_only(tasks, cmds);
            lemma_task_tells_only(pdl_connect_task(opts.timeout_ms), cmds);
            match rousing(opts.exec_timeout_ms) {
                Dialogue::Next(s, go_on) => {
                    lemma_step_tells_only(s, go_on, cmds);
                },
                _ => {},
            }
            let exec = Step::Packet {
                payload: crate::pdl::params_of(crate::pdl::Cmd::Exec, 0, 0, Seq::empty()),
            };
            lemma_alone_tells_only(exec, |u: Upset| pdl_fault(u), cmds);
            lemma_then_tells_only(pdl_step(exec), |_n: ()| rousing(opts.exec_timeout_ms), cmds);
            let read_version = |frame: Seq<u8>|
                match version_in(frame) {
                    None => failing(FlashFault::Version),
                    Some(version) => Dialogue::Over(Ok(version)),
                };
            lemma_then_tells_only(executing(opts.exec_timeout_ms), read_version, cmds);
            let start = |_n: ()| and_then(executing(opts.exec_timeout_ms), read_version);
            lemma_then_tells_only(all_of(tasks), start, cmds);
            lemma_then_tells_only(
                pdl_connect_task(opts.timeout_ms).talk(),
                |_n: ()| and_then(all_of(tasks), start),
                cmds,
            );
        },
    }
}

proof fn lemma_fdl2_tells_only(
    fdl2: Option<Entry>,
    pac: Seq<u8>,
    opts: FlashOptions,
    cmds: Set<u16>,
)
    requires
        bring_up_commands().subset_of(cmds),
    ensures
        tells_only(fdl2_phase(fdl2, pac, opts), cmds),
{
    lemma_task_tells_only(connect_task(usual(opts)), cmds);
    let loads = fdl2_talks(fdl2, pac, opts);
    assert forall|i: int| 0 <= i < loads.len() implies tells_only(#[trigger] loads[i], cmds) by {
        let e = fdl2->0;
        match e.payload(pac) {
            None => {},
            Some(data) => {
                lemma_image_tells_only(
                    start_of(e.address, data),
                    data,
                    FDL_LOAD_CHUNK as int,
                    usual(opts),
                    stage_names(),
                    "FDL2"@,
                    cmds,
                );
                lemma_task_tells_only(
                    acked(cmd::EXEC_DATA, Seq::empty(), patient(opts), "EXEC FDL2"@),
                    cmds,
                );
            },
        }
    }
    lemma_turns_tell_only(loads, cmds);
    let rates = baud_talks(opts);
    assert forall|i: int| 0 <= i < rates.len() implies tells_only(#[trigger] rates[i], cmds) by {
        let rate = opts.baud->0;
        lemma_task_tells_only(
            acked(
                cmd::CHANGE_BAUD,
                crate::bytes::be32_bytes(rate),
                usual(opts),
                "CHANGE_BAUD"@,
            ),
            cmds,
        );
        lemma_task_tells_only(Task::Just(Step::Rate { baud: rate }), cmds);
    }
    lemma_turns_tell_only(rates, cmds);
    lemma_turns_tell_only(seq![connect_task(usual(opts)).talk(), in_turn(loads), in_turn(rates)], cmds);
}

proof fn lemma_bring_up_tells_only(plan: Plan, pac: Seq<u8>, opts: FlashOptions, cmds: Set<u16>)
    requires
        bring_up_commands().subset_of(cmds),
    ensures
        tells_only(bring_up_talk(plan, pac, opts), cmds),
{
    lemma_fdl1_tells_only(plan.fdl1, pac, opts, cmds);
    lemma_fdl2_tells_only(plan.fdl2, pac, opts, cmds);
    lemma_whatever_follows_tells_only::<(), Seq<char>>(
        fdl2_phase(plan.fdl2, pac, opts),
        cmds,
    );
    lemma_whatever_follows_tells_only::<Seq<char>, Seq<char>>(fdl1_talk(plan.fdl1, pac, opts), cmds);
}

proof fn lemma_reset_tells_only(opts: FlashOptions, cmds: Set<u16>)
    requires
        cmds.contains(cmd::NORMAL_RESET),
    ensures
        tells_only(reset_talk(opts), cmds),
{
    let reset = Step::Tell { cmd: cmd::NORMAL_RESET, data: Seq::empty(), checksum: sum() };
    lemma_task_tells_only(Task::Just(reset), cmds);
    lemma_task_tells_only(Task::Just(Step::Hold { millis: opts.reset_hold_ms }), cmds);
    lemma_turns_tell_only(
        if opts.reset {
            seq![
                tell(cmd::NORMAL_RESET, Seq::empty(), sum()),
                Task::Just(Step::Hold { millis: opts.reset_hold_ms }).talk(),
            ]
        } else {
            Seq::empty()
        },
        cmds,
    );
}

proof fn lemma_partition_tells_only(e: Entry, pac: Seq<u8>, opts: FlashOptions, cmds: Set<u16>)
    requires
        write_commands().subset_of(cmds),
        opts.verify_readback ==> cmds.contains(cmd::READ_FLASH),
    ensures
        tells_only(partition_talk(e, pac, opts), cmds),
{
    match e.payload(pac) {
        None => {},
        Some(data) => {
            let image = stage_image(e.address, data, e.file_id);
            let chunk = at_least_one(opts.chunk as int);
            lemma_writing_tells_only(image, chunk, usual(opts), cmds);
            if opts.verify_readback {
                let read = reading(
                    e.address,
                    data.len(),
                    READBACK_CHUNK as nat,
                    Seq::empty(),
                    usual(opts),
                );
                lemma_reading_tells_only(
                    e.address,
                    data.len(),
                    READBACK_CHUNK as nat,
                    Seq::empty(),
                    usual(opts),
                    cmds,
                );
                lemma_task_tells_only(note(e.file_id, data.len() as int, data.len() as int), cmds);
                lemma_whatever_follows_tells_only::<Seq<u8>, ()>(read, cmds);
            }
            lemma_whatever_follows_tells_only::<(), ()>(writing(image, chunk, usual(opts)), cmds);
        },
    }
}

/// A flash run without `format` only ever gives the commands that bring the loader up,
/// that write, that read back, and the reset: nothing is erased.
pub proof fn law_nothing_is_erased_without_format(
    plan: Plan,
    pac: Seq<u8>,
    opts: FlashOptions,
    acts: Seq<Act>,
    r: Result<Flashed, FlashFault>,
)
    requires
        !opts.format,
        after(flash_talk(plan, pac, opts), acts) == Dialogue::Over(r),
    ensures
        commands_among(told(acts), bring_up_commands().union(read_commands())),
        forall|i: int| 0 <= i < told(acts).len() ==> (#[trigger] told(acts)[i]).0 != cmd::ERASE_FLASH,
{
    let cmds = bring_up_commands().union(read_commands());
    lemma_bring_up_tells_only(plan, pac, opts, cmds);
    lemma_reset_tells_only(opts, cmds);
    let parts = partition_talks(plan, pac, opts);
    assert forall|i: int| 0 <= i < parts.len() implies tells_only(#[trigger] parts[i], cmds) by {
        lemma_partition_tells_only(plan.partitions[i], pac, opts, cmds);
    }
    lemma_turns_tell_only(parts, cmds);
    let turns = seq![in_turn(parts)] + Seq::<Talk<()>>::empty() + seq![reset_talk(opts)];
    lemma_turns_tell_only(turns, cmds);
    lemma_whatever_follows_tells_only::<(), Flashed>(writing_talk(plan, pac, opts), cmds);
    lemma_whatever_follows_tells_only::<Seq<char>, Flashed>(bring_up_talk(plan, pac, opts), cmds);
    lemma_told_among(flash_talk(plan, pac, opts), cmds, acts, r);
}

// ---------------------------------------------------------------------------
// Sessions that only read
// ---------------------------------------------------------------------------

proof fn lemma_dumping_tells_only(
    regions: Seq<(u32, u32)>,
    got: Seq<Seq<u8>>,
    link: Link,
    cmds: Set<u16>,
)
    requires
        cmds.contains(cmd::READ_FLASH),
    ensures
        tells_only(dumping(regions, got, link), cmds),
    decreases regions.len(),
{
    if regions.len() > 0 {
        let (addr, len) = regions[0];
        let read = reading(addr, len as nat, READBACK_CHUNK as nat, Seq::empty(), link);
        lemma_reading_tells_only(
            addr,
            len as nat,
            READBACK_CHUNK as nat,
            Seq::empty(),
            link,
            cmds,
        );
        assert forall|data: Seq<u8>|
            tells_only(dumping(regions.skip(1), #[trigger] got.push(data), link), cmds) by {
            lemma_dumping_tells_only(regions.skip(1), got.push(data), link, cmds);
        }
        lemma_after_a_task_tells_only::<Seq<Seq<u8>>>(cmds);
        lemma_whatever_follows_tells_only::<Seq<u8>, Seq<Seq<u8>>>(read, cmds);
    }
}

proof fn lemma_probing_tells_only(addr: u32, link: Link, cmds: Set<u16>)
    requires
        cmds.contains(cmd::READ_FLASH),
    ensures
        tells_only(probing(addr, link), cmds),
{
    lemma_ask_tells_only(cmd::READ_FLASH, read_request(addr, 16), link, cmds);
    lemma_whatever_follows_tells_only::<(u16, Seq<u8>), bool>(
        ask(cmd::READ_FLASH, read_request(addr, 16), link),
        cmds,
    );
}

proof fn lemma_halving_tells_only(base: u32, lo: int, hi: int, link: Link, cmds: Set<u16>)
    requires
        cmds.contains(cmd::READ_FLASH),
    ensures
        tells_only(halving(base, lo, hi, link), cmds),
    decreases hi - lo,
{
    let mid = middle(lo, hi);
    if hi - lo > SIZE_GRAIN && mid > lo && mid < hi {
        let then = |readable: bool|
            if readable {
                halving(base, mid, hi, link)
            } else {
                halving(base, lo, mid, link)
            };
        lemma_halving_tells_only(base, mid, hi, link, cmds);
        lemma_halving_tells_only(base, lo, mid, link, cmds);
        lemma_probing_tells_only(moved_on(base, mid as nat), link, cmds);
        lemma_then_tells_only(probing(moved_on(base, mid as nat), link), then, cmds);
    }
}

proof fn lemma_doubling_tells_only(base: u32, lo: int, s: int, link: Link, cmds: Set<u16>)
    requires
        cmds.contains(cmd::READ_FLASH),
    ensures
        tells_only(doubling(base, lo, s, link), cmds),
    decreases still_to_read(SIZE_CAP as nat, s as nat),
{
    if s >= SIZE_CAP || s <= 0 {
        lemma_halving_tells_only(base, lo, SIZE_CAP as int, link, cmds);
    } else {
        let then = |readable: bool|
            if readable {
                doubling(base, s, 2 * s, link)
            } else {
                halving(base, lo, s, link)
            };
        lemma_doubling_tells_only(base, s, 2 * s, link, cmds);
        lemma_halving_tells_only(base, lo, s, link, cmds);
        lemma_probing_tells_only(moved_on(base, s as nat), link, cmds);
        lemma_then_tells_only(probing(moved_on(base, s as nat), link), then, cmds);
    }
}

proof fn lemma_imaging_tells_only(base: u32, size: nat, got: Seq<u8>, link: Link, cmds: Set<u16>)
    requires
        cmds.contains(cmd::READ_FLASH),
    ensures
        tells_only(imaging(base, size, got, link), cmds),
    decreases still_to_read(size, got.len()),
{
    if got.len() < size {
        let from = moved_on(base, got.len());
        let n = least(size - got.len(), READBACK_CHUNK as int) as nat;
        lemma_reading_tells_only(from, n, READBACK_CHUNK as nat, Seq::empty(), link, cmds);
        assert forall|data: Seq<u8>| data.len() > 0 implies tells_only(
            imaging(base, size, #[trigger] (got + data), link),
            cmds,
        ) by {
            lemma_imaging_tells_only(base, size, got + data, link, cmds);
        }
        lemma_after_a_task_tells_only::<Seq<u8>>(cmds);
        lemma_whatever_follows_tells_only::<Seq<u8>, Seq<u8>>(
            reading(from, n, READBACK_CHUNK as nat, Seq::empty(), link),
            cmds,
        );
    }
}

proof fn lemma_dump_session_tells_only(opts: FlashOptions, regions: Seq<(u32, u32)>)
    ensures
        tells_only(dump_session(opts, regions), read_commands()),
{
    let cmds = read_commands();
    lemma_dumping_tells_only(regions, Seq::empty(), usual(opts), cmds);
    lemma_reset_tells_only(opts, cmds);
    lemma_whatever_follows_tells_only::<(), Seq<Seq<u8>>>(reset_talk(opts), cmds);
    lemma_whatever_follows_tells_only::<Seq<Seq<u8>>, Seq<Seq<u8>>>(
        dumping(regions, Seq::empty(), usual(opts)),
        cmds,
    );
}

proof fn lemma_dump_full_session_tells_only(opts: FlashOptions, base: u32)
    ensures
        tells_only(dump_full_session(opts, base), read_commands()),
{
    let cmds = read_commands();
    lemma_probing_tells_only(base, usual(opts), cmds);
    lemma_doubling_tells_only(base, 0, FIRST_PROBE as int, usual(opts), cmds);
    lemma_whatever_follows_tells_only::<bool, u32>(probing(base, usual(opts)), cmds);
    lemma_reset_tells_only(opts, cmds);
    lemma_whatever_follows_tells_only::<(), (Seq<u8>, u32)>(reset_talk(opts), cmds);
    let then = |size: u32|
        and_then(
            note("size"@, size as int, size as int).talk(),
            |_n: ()|
                and_then(
                    imaging(base, size as nat, Seq::empty(), usual(opts)),
                    |image: Seq<u8>|
                        and_then(reset_talk(opts), |_n: ()| Dialogue::Over(Ok((image, size)))),
                ),
        );
    assert forall|size: u32| tells_only(#[trigger] then(size), cmds) by {
        lemma_task_tells_only(note("size"@, size as int, size as int), cmds);
        lemma_imaging_tells_only(base, size as nat, Seq::empty(), usual(opts), cmds);
        lemma_whatever_follows_tells_only::<Seq<u8>, (Seq<u8>, u32)>(
            imaging(base, size as nat, Seq::empty(), usual(opts)),
            cmds,
        );
        lemma_whatever_follows_tells_only::<(), (Seq<u8>, u32)>(
            note("size"@, size as int, size as int).talk(),
            cmds,
        );
    }
    lemma_then_tells_only(sizing(base, usual(opts)), then, cmds);
}

/// Once the loader is up, a dump gives no command but reads and the reset: nothing is
/// written. If the loader does not come up, nothing more is told at all.
pub proof fn law_dump_only_reads(
    plan: Plan,
    pac: Seq<u8>,
    opts: FlashOptions,
    regions: Seq<(u32, u32)>,
    acts: Seq<Act>,
    r: Result<Seq<Seq<u8>>, FlashFault>,
)
    requires
        after(dump_talk(plan, pac, opts, regions), acts) == Dialogue::Over(r),
    ensures
        exists|k: int, version: Result<Seq<char>, FlashFault>| #[trigger]
            ends_at(bring_up_talk(plan, pac, opts), acts, k, version) && commands_among(
                told(acts.skip(k)),
                read_commands(),
            ) && (version is Err ==> k == acts.len()),
{
    let session = |_v: Seq<char>| dump_session(opts, regions);
    let (k, version) = lemma_held_in_parts(
        bring_up_talk(plan, pac, opts),
        unless_failed(session),
        acts,
        r,
    );
    assert(ends_at(bring_up_talk(plan, pac, opts), acts, k, version));
    match version {
        Ok(_) => {
            lemma_dump_session_tells_only(opts, regions);
            lemma_told_among(dump_session(opts, regions), read_commands(), acts.skip(k), r);
        },
        Err(e) => {
            lemma_over(Err::<Seq<Seq<u8>>, FlashFault>(e), acts.skip(k), r);
        },
    }
}

/// Once the loader is up, a dump of the whole flash gives no command but reads and the
/// reset: nothing is written. If the loader does not come up, nothing more is told at
/// all.
pub proof fn law_full_dump_only_reads(
    plan: Plan,
    pac: Seq<u8>,
    opts: FlashOptions,
    base: u32,
    acts: Seq<Act>,
    r: Result<(Seq<u8>, u32), FlashFault>,
)
    requires
        after(dump_full_talk(plan, pac, opts, base), acts) == Dialogue::Over(r),
    ensures
        exists|k: int, version: Result<Seq<char>, FlashFault>| #[trigger]
            ends_at(bring_up_talk(plan, pac, opts), acts, k, version) && commands_among(
                told(acts.skip(k)),
                read_commands(),
            ) && (version is Err ==> k == acts.len()),
{
    let session = |_v: Seq<char>| dump_full_session(opts, base);
    let (k, version) = lemma_held_in_parts(
        bring_up_talk(plan, pac, opts),
        unless_failed(session),
        acts,
        r,
    );
    assert(ends_at(bring_up_talk(plan, pac, opts), acts, k, version));
    match version {
        Ok(_) => {
            lemma_dump_full_session_tells_only(opts, base);
            lemma_told_among(dump_full_session(opts, base), read_commands(), acts.skip(k), r);
        },
        Err(e) => {
            lemma_over(Err::<(Seq<u8>, u32), FlashFault>(e), acts.skip(k), r);
        },
    }
}

} // verus!
