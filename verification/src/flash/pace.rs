//! How long a device is waited for, and how it is spoken to.
//!
//! What holds here holds of every run, whether it succeeds or fails, and whatever
//! the device answers.

use vstd::prelude::*;

use crate::bsl::{cmd, Checksum};
use crate::flash::bsl_io::{
    acked, at_least_one, connect_task, image_tasks, least, midst_tasks, moved_on, note,
    read_request, reading, stage_names, start_of, still_to_read, ImageNames,
};
use crate::flash::dialogue::{
    after, all_of, and_next, and_then, ask, bsl_fault, command, hear, in_turn, pdl_fault, pdl_step,
    step_alone, tell, unless_failed, Act, Dialogue, Link, Outcome, Step, Talk, Task, Upset,
};
use crate::flash::fault::FlashFault;
use crate::flash::laws::{lemma_told_one, lemma_told_split, told};
use crate::flash::options::FlashOptions;
use crate::flash::pdl_io::{block_tasks, executing, load_tasks, pdl_connect_task, rousing};
use crate::flash::procedure::{
    baud_talks, bring_up_talk, dump_session, dump_talk, dumping, erase_talks, failing, fdl1_talk,
    fdl2_phase, fdl2_talks, flash_talk, marker_image, marker_talk, marker_talks, partition_talk,
    partition_talks, patient, reset_talk, smaller_chunk, stage_image, sum, timed_out, usual,
    version_in, writing, writing_talk, Flashed, Image, FDL_LOAD_CHUNK, MIN_ADAPTIVE_CHUNK,
    READBACK_CHUNK,
};
use crate::pac::Entry;
use crate::plan::Plan;

verus! {

/// Whether a step takes its time as the options say, after a message of type `prev` was told: a
/// reply to the start of the second stage (4) and the first frame of the first stage are waited
/// for as long as a start may take, any other reply as long as the usual one; messages have the
/// Spreadtrum checksum; and the line is held as long as a reset takes.
pub open spec fn step_paced(step: Step, prev: Option<u16>, opts: FlashOptions) -> bool {
    match step {
        Step::Tell { checksum, .. } => checksum == Checksum::Sprd,
        Step::Await { timeout_ms } => timeout_ms == opts.timeout_ms,
        Step::Rouse { timeout_ms } => timeout_ms == opts.exec_timeout_ms,
        Step::Hear { timeout_ms } => prev is Some && timeout_ms == if prev->0 == 4 {
            opts.exec_timeout_ms
        } else {
            opts.timeout_ms
        },
        Step::Hold { millis } => millis == opts.reset_hold_ms,
        _ => true,
    }
}

/// The type of the message that was told last, after one more step.
pub open spec fn told_last(step: Step, prev: Option<u16>) -> Option<u16> {
    match step {
        Step::Tell { cmd, .. } => Some(cmd),
        _ => prev,
    }
}

/// Whether every step that a dialogue may ever come to takes its time as the options say.
pub open spec fn keeps_pace<R>(d: Dialogue<R>, prev: Option<u16>, opts: FlashOptions) -> bool
    decreases d,
{
    match d {
        Dialogue::Over(_) => true,
        Dialogue::Next(step, go_on) => {
            &&& step_paced(step, prev, opts)
            &&& forall|o: Outcome| keeps_pace(*#[trigger] go_on(o), told_last(step, prev), opts)
        },
        Dialogue::Astray => true,
    }
}

spec fn paced<R>(d: Dialogue<R>, opts: FlashOptions) -> bool {
    forall|prev: Option<u16>| #[trigger] keeps_pace(d, prev, opts)
}

/// The type of the last of some messages.
pub open spec fn last_told(messages: Seq<(u16, Seq<u8>)>, prev: Option<u16>) -> Option<u16> {
    if messages.len() == 0 {
        prev
    } else {
        Some(messages.last().0)
    }
}

proof fn lemma_acts_are_paced<R>(
    d: Dialogue<R>,
    prev: Option<u16>,
    opts: FlashOptions,
    acts: Seq<Act>,
    r: R,
    i: int,
)
    requires
        keeps_pace(d, prev, opts),
        after(d, acts) == Dialogue::Over(r),
        0 <= i < acts.len(),
    ensures
        step_paced(acts[i].step, last_told(told(acts.take(i)), prev), opts),
    decreases acts.len(),
{
    match d {
        Dialogue::Next(step, go_on) => {
            let rest = acts.skip(1);
            if i == 0 {
                assert(told(acts.take(0)) =~= Seq::<(u16, Seq<u8>)>::empty());
            } else {
                let next = told_last(step, prev);
                lemma_acts_are_paced(*go_on(acts[0].outcome), next, opts, rest, r, i - 1);
                let before = acts.take(i);
                lemma_told_split(before, 1);
                assert(before.take(1) =~= seq![acts[0]]);
                assert(before.skip(1) =~= rest.take(i - 1));
                lemma_told_one(acts[0]);
                let later = told(rest.take(i - 1));
                if later.len() > 0 {
                    assert(told(before).last() == later.last());
                } else {
                    assert(told(before) =~= told(seq![acts[0]]));
                }
            }
        },
        _ => {},
    }
}

proof fn lemma_both_keep_pace<A, B>(
    p: Dialogue<A>,
    f: spec_fn(A) -> Dialogue<B>,
    prev: Option<u16>,
    opts: FlashOptions,
)
    requires
        keeps_pace(p, prev, opts),
        forall|a: A| paced(#[trigger] f(a), opts),
    ensures
        keeps_pace(and_next(p, f), prev, opts),
    decreases p,
{
    match p {
        Dialogue::Next(step, go_on) => {
            match and_next(p, f) {
                Dialogue::Next(s, g) => {
                    assert forall|o: Outcome|
                        keeps_pace(*#[trigger] g(o), told_last(step, prev), opts) by {
                        lemma_both_keep_pace(*go_on(o), f, told_last(step, prev), opts);
                    }
                },
                _ => {},
            }
        },
        Dialogue::Over(a) => {
            assert(paced(f(a), opts));
        },
        _ => {},
    }
}

proof fn lemma_both_paced<A, B>(p: Dialogue<A>, f: spec_fn(A) -> Dialogue<B>, opts: FlashOptions)
    requires
        paced(p, opts),
        forall|a: A| paced(#[trigger] f(a), opts),
    ensures
        paced(and_next(p, f), opts),
{
    assert forall|prev: Option<u16>| #[trigger] keeps_pace(and_next(p, f), prev, opts) by {
        assert(keeps_pace(p, prev, opts));
        lemma_both_keep_pace(p, f, prev, opts);
    }
}

proof fn lemma_over_paced<R>(r: R, opts: FlashOptions)
    ensures
        paced(Dialogue::Over(r), opts),
{
}

proof fn lemma_then_paced<A, B>(p: Talk<A>, f: spec_fn(A) -> Talk<B>, opts: FlashOptions)
    requires
        paced(p, opts),
        forall|a: A| paced(#[trigger] f(a), opts),
    ensures
        paced(and_then(p, f), opts),
{
    let g = unless_failed(f);
    assert forall|r: Result<A, FlashFault>| paced(#[trigger] g(r), opts) by {
        match r {
            Ok(a) => {
                assert(paced(f(a), opts));
            },
            Err(e) => {
                lemma_over_paced(Err::<B, FlashFault>(e), opts);
            },
        }
    }
    lemma_both_paced(p, g, opts);
}

proof fn lemma_whatever_follows_paced<A, B>(p: Talk<A>, opts: FlashOptions)
    requires
        paced(p, opts),
    ensures
        forall|f: spec_fn(A) -> Talk<B>|
            (forall|a: A| paced(#[trigger] f(a), opts)) ==> paced(#[trigger] and_then(p, f), opts),
{
    assert forall|f: spec_fn(A) -> Talk<B>|
        (forall|a: A| paced(#[trigger] f(a), opts)) implies paced(
        #[trigger] and_then(p, f),
        opts,
    ) by {
        lemma_then_paced(p, f, opts);
    }
}

// ---------------------------------------------------------------------------
// Steps, commands and lists
// ---------------------------------------------------------------------------

spec fn link_fits(cmd: u16, link: Link, opts: FlashOptions) -> bool {
    link.checksum == Checksum::Sprd && link.timeout_ms == if cmd == 4 {
        opts.exec_timeout_ms
    } else {
        opts.timeout_ms
    }
}

spec fn task_paced(t: Task, opts: FlashOptions) -> bool {
    match t {
        Task::Packet { timeout_ms, .. } => timeout_ms == opts.timeout_ms,
        Task::Command { cmd, link, .. } => link_fits(cmd, link, opts),
        Task::Just(step) => !(step is Hear) && step_paced(step, None, opts),
    }
}

proof fn lemma_alone_paced(step: Step, fault: spec_fn(Upset) -> FlashFault, opts: FlashOptions)
    requires
        !(step is Hear),
        step_paced(step, None, opts),
    ensures
        paced(step_alone(step, fault), opts),
{
    let d = step_alone(step, fault);
    assert forall|prev: Option<u16>| #[trigger] keeps_pace(d, prev, opts) by {
        assert(step_paced(step, prev, opts));
        match d {
            Dialogue::Next(s, go_on) => {
                assert forall|o: Outcome|
                    keeps_pace(*#[trigger] go_on(o), told_last(s, prev), opts) by {
                    assert(*go_on(o) is Over);
                }
            },
            _ => {},
        }
    }
}

proof fn lemma_hear_keeps_pace(timeout_ms: u64, prev: Option<u16>, opts: FlashOptions)
    requires
        step_paced(Step::Hear { timeout_ms }, prev, opts),
    ensures
        keeps_pace(hear(timeout_ms), prev, opts),
{
    match hear(timeout_ms) {
        Dialogue::Next(s, go_on) => {
            assert forall|o: Outcome| keeps_pace(*#[trigger] go_on(o), told_last(s, prev), opts) by {
                assert(*go_on(o) is Over);
            }
        },
        _ => {},
    }
}

proof fn lemma_ask_paced(cmd: u16, data: Seq<u8>, link: Link, opts: FlashOptions)
    requires
        link_fits(cmd, link, opts),
    ensures
        paced(ask(cmd, data, link), opts),
{
    let f = |_n: ()| hear(link.timeout_ms);
    let p = tell(cmd, data, link.checksum);
    let d = and_next(p, unless_failed(f));
    lemma_hear_keeps_pace(link.timeout_ms, Some(cmd), opts);
    assert forall|prev: Option<u16>| #[trigger] keeps_pace(d, prev, opts) by {
        match p {
            Dialogue::Next(step, go_on) => {
                assert(step == (Step::Tell { cmd, data, checksum: link.checksum }));
                match d {
                    Dialogue::Next(s, g) => {
                        assert(s == step);
                        assert forall|o: Outcome|
                            keeps_pace(*#[trigger] g(o), told_last(s, prev), opts) by {
                            assert(*g(o) == and_next(*go_on(o), unless_failed(f)));
                            match o {
                                Ok(_) => {
                                    assert(*go_on(o) == Dialogue::<Result<(), FlashFault>>::Over(
                                        Ok(()),
                                    ));
                                    assert(*g(o) == hear(link.timeout_ms));
                                },
                                Err(u) => {
                                    assert(*go_on(o) is Over);
                                    assert(*g(o) is Over);
                                },
                            }
                        }
                    },
                    _ => {},
                }
            },
            _ => {},
        }
    }
}

proof fn lemma_command_paced(
    cmd: u16,
    data: Seq<u8>,
    link: Link,
    expect: u16,
    what: Seq<char>,
    opts: FlashOptions,
)
    requires
        link_fits(cmd, link, opts),
    ensures
        paced(command(cmd, data, link, expect, what), opts),
{
    reveal(command);
    lemma_ask_paced(cmd, data, link, opts);
    lemma_whatever_follows_paced::<(u16, Seq<u8>), Seq<u8>>(ask(cmd, data, link), opts);
}

proof fn lemma_task_paced(t: Task, opts: FlashOptions)
    requires
        task_paced(t, opts),
    ensures
        paced(t.talk(), opts),
{
    match t {
        Task::Packet { payload, timeout_ms } => {
            let fault = |u: Upset| pdl_fault(u);
            lemma_alone_paced(Step::Packet { payload }, fault, opts);
            lemma_alone_paced(Step::Await { timeout_ms }, fault, opts);
            lemma_then_paced(
                pdl_step(Step::Packet { payload }),
                |_n: ()| pdl_step(Step::Await { timeout_ms }),
                opts,
            );
        },
        Task::Command { cmd, data, link, expect, what } => {
            lemma_command_paced(cmd, data, link, expect, what, opts);
            lemma_whatever_follows_paced::<Seq<u8>, ()>(
                command(cmd, data, link, expect, what),
                opts,
            );
        },
        Task::Just(step) => {
            lemma_alone_paced(step, |u: Upset| bsl_fault(u), opts);
        },
    }
}

proof fn lemma_after_a_task_paced<B>(opts: FlashOptions)
    ensures
        forall|t: Task, f: spec_fn(()) -> Talk<B>|
            task_paced(t, opts) && (forall|n: ()| paced(#[trigger] f(n), opts)) ==> paced(
                #[trigger] and_then(t.talk(), f),
                opts,
            ),
{
    assert forall|t: Task, f: spec_fn(()) -> Talk<B>|
        task_paced(t, opts) && (forall|n: ()| paced(#[trigger] f(n), opts)) implies paced(
        #[trigger] and_then(t.talk(), f),
        opts,
    ) by {
        lemma_task_paced(t, opts);
        lemma_then_paced(t.talk(), f, opts);
    }
}

proof fn lemma_tasks_paced(tasks: Seq<Task>, opts: FlashOptions)
    requires
        forall|i: int| 0 <= i < tasks.len() ==> task_paced(#[trigger] tasks[i], opts),
    ensures
        paced(all_of(tasks), opts),
    decreases tasks.len(),
{
    if tasks.len() > 0 {
        let rest = tasks.skip(1);
        assert forall|i: int| 0 <= i < rest.len() implies task_paced(#[trigger] rest[i], opts) by {
            assert(rest[i] == tasks[i + 1]);
        }
        lemma_tasks_paced(rest, opts);
        lemma_task_paced(tasks[0], opts);
        lemma_whatever_follows_paced::<(), ()>(tasks[0].talk(), opts);
    }
}

proof fn lemma_turns_paced(talks: Seq<Talk<()>>, opts: FlashOptions)
    requires
        forall|i: int| 0 <= i < talks.len() ==> paced(#[trigger] talks[i], opts),
    ensures
        paced(in_turn(talks), opts),
    decreases talks.len(),
{
    if talks.len() > 0 {
        let rest = talks.skip(1);
        assert forall|i: int| 0 <= i < rest.len() implies paced(#[trigger] rest[i], opts) by {
            assert(rest[i] == talks[i + 1]);
        }
        lemma_turns_paced(rest, opts);
        lemma_whatever_follows_paced::<(), ()>(talks[0], opts);
    }
}

// ---------------------------------------------------------------------------
// Bringing up, writing and reading
// ---------------------------------------------------------------------------

proof fn lemma_midst_paced(
    data: Seq<u8>,
    off: int,
    chunk: int,
    what: Seq<char>,
    label: Seq<char>,
    opts: FlashOptions,
)
    ensures
        forall|i: int|
            0 <= i < midst_tasks(data, off, chunk, usual(opts), what, label).len() ==> task_paced(
                #[trigger] midst_tasks(data, off, chunk, usual(opts), what, label)[i],
                opts,
            ),
    decreases data.len() - off,
{
    let tasks = midst_tasks(data, off, chunk, usual(opts), what, label);
    if off < data.len() && chunk > 0 {
        let end = least(off + chunk, data.len() as int);
        let rest = midst_tasks(data, end, chunk, usual(opts), what, label);
        lemma_midst_paced(data, end, chunk, what, label, opts);
        assert forall|i: int| 0 <= i < tasks.len() implies task_paced(#[trigger] tasks[i], opts) by {
            if i >= 2 {
                assert(tasks[i] == rest[i - 2]);
            } else if i == 1 {
                assert(tasks[1] == note(label, end, data.len() as int));
            }
        }
    }
}

proof fn lemma_image_paced(
    start: Seq<u8>,
    data: Seq<u8>,
    chunk: int,
    names: ImageNames,
    label: Seq<char>,
    opts: FlashOptions,
)
    ensures
        paced(all_of(image_tasks(start, data, chunk, usual(opts), names, label)), opts),
{
    let tasks = image_tasks(start, data, chunk, usual(opts), names, label);
    let midst = midst_tasks(data, 0, chunk, usual(opts), names.midst@, label);
    lemma_midst_paced(data, 0, chunk, names.midst@, label, opts);
    assert forall|i: int| 0 <= i < tasks.len() implies task_paced(#[trigger] tasks[i], opts) by {
        if 0 < i < tasks.len() - 1 {
            assert(tasks[i] == midst[i - 1]);
        }
    }
    lemma_tasks_paced(tasks, opts);
}

proof fn lemma_writing_paced(image: Image, chunk: int, opts: FlashOptions)
    ensures
        paced(writing(image, chunk, usual(opts)), opts),
    decreases chunk,
{
    let link = usual(opts);
    let f = |r: Result<(), FlashFault>|
        if (r matches Err(e) && timed_out(e)) && chunk > MIN_ADAPTIVE_CHUNK {
            and_then(
                Task::Just(Step::Purge).talk(),
                |_n: ()|
                    and_then(
                        connect_task(link).talk(),
                        |_n: ()| writing(image, smaller_chunk(chunk), link),
                    ),
            )
        } else {
            Dialogue::Over(r)
        };
    lemma_image_paced(image.start, image.data, chunk, image.names, image.label, opts);
    if chunk > MIN_ADAPTIVE_CHUNK {
        let again = |_n: ()| writing(image, smaller_chunk(chunk), link);
        lemma_writing_paced(image, smaller_chunk(chunk), opts);
        lemma_task_paced(connect_task(link), opts);
        lemma_then_paced(connect_task(link).talk(), again, opts);
        lemma_task_paced(Task::Just(Step::Purge), opts);
        lemma_then_paced(
            Task::Just(Step::Purge).talk(),
            |_n: ()| and_then(connect_task(link).talk(), again),
            opts,
        );
    }
    lemma_both_paced(all_of(image.tasks(chunk, link)), f, opts);
}

proof fn lemma_reading_paced(addr: u32, total: nat, chunk: nat, got: Seq<u8>, opts: FlashOptions)
    ensures
        paced(reading(addr, total, chunk, got, usual(opts)), opts),
    decreases still_to_read(total, got.len()),
{
    let link = usual(opts);
    if got.len() < total {
        let request = read_request(
            moved_on(addr, got.len()),
            least(total - got.len(), chunk as int) as nat,
        );
        let reply = crate::bsl::rep::READ_FLASH;
        let asked = command(cmd::READ_FLASH, request, link, reply, "READ_FLASH"@);
        lemma_command_paced(cmd::READ_FLASH, request, link, reply, "READ_FLASH"@, opts);
        assert forall|data: Seq<u8>| data.len() > 0 implies paced(
            reading(addr, total, chunk, #[trigger] (got + data), link),
            opts,
        ) by {
            lemma_reading_paced(addr, total, chunk, got + data, opts);
        }
        lemma_whatever_follows_paced::<Seq<u8>, Seq<u8>>(asked, opts);
    }
}

proof fn lemma_blocks_paced(data: Seq<u8>, i: nat, label: Seq<char>, opts: FlashOptions)
    ensures
        forall|j: int|
            0 <= j < block_tasks(data, i, label, opts.timeout_ms).len() ==> task_paced(
                #[trigger] block_tasks(data, i, label, opts.timeout_ms)[j],
                opts,
            ),
    decreases still_to_read(data.len(), (i * crate::pdl::CHUNK) as nat),
{
    let tasks = block_tasks(data, i, label, opts.timeout_ms);
    let off = i * crate::pdl::CHUNK;
    if off < data.len() {
        let end = least(off + crate::pdl::CHUNK, data.len() as int);
        let rest = block_tasks(data, i + 1, label, opts.timeout_ms);
        lemma_blocks_paced(data, i + 1, label, opts);
        assert forall|j: int| 0 <= j < tasks.len() implies task_paced(#[trigger] tasks[j], opts) by {
            if j >= 2 {
                assert(tasks[j] == rest[j - 2]);
            } else if j == 1 {
                assert(tasks[1] == note(label, end, data.len() as int));
            }
        }
    }
}

proof fn lemma_rousing_paced(opts: FlashOptions)
    ensures
        paced(rousing(opts.exec_timeout_ms), opts),
{
    let d = rousing(opts.exec_timeout_ms);
    assert forall|prev: Option<u16>| #[trigger] keeps_pace(d, prev, opts) by {
        match d {
            Dialogue::Next(s, go_on) => {
                assert forall|o: Outcome|
                    keeps_pace(*#[trigger] go_on(o), told_last(s, prev), opts) by {
                    assert(*go_on(o) is Over);
                }
            },
            _ => {},
        }
    }
}

proof fn lemma_fdl1_paced(fdl1: Entry, pac: Seq<u8>, opts: FlashOptions)
    ensures
        paced(fdl1_talk(fdl1, pac, opts), opts),
{
    match fdl1.payload(pac) {
        None => {},
        Some(data) => {
            let tasks = load_tasks(fdl1.address, data, "FDL1"@, opts.timeout_ms);
            let blocks = block_tasks(data, 0, "FDL1"@, opts.timeout_ms);
            lemma_blocks_paced(data, 0, "FDL1"@, opts);
            assert forall|j: int| 0 <= j < tasks.len() implies task_paced(
                #[trigger] tasks[j],
                opts,
            ) by {
                if 0 < j < tasks.len() - 1 {
                    assert(tasks[j] == blocks[j - 1]);
                }
            }
            lemma_tasks_paced(tasks, opts);
            lemma_task_paced(pdl_connect_task(opts.timeout_ms), opts);
            lemma_rousing_paced(opts);
            let exec = Step::Packet {
                payload: crate::pdl::params_of(crate::pdl::Cmd::Exec, 0, 0, Seq::empty()),
            };
            lemma_alone_paced(exec, |u: Upset| pdl_fault(u), opts);
            lemma_then_paced(pdl_step(exec), |_n: ()| rousing(opts.exec_timeout_ms), opts);
            let read_version = |frame: Seq<u8>|
                match version_in(frame) {
                    None => failing(FlashFault::Version),
                    Some(version) => Dialogue::Over(Ok(version)),
                };
            lemma_then_paced(executing(opts.exec_timeout_ms), read_version, opts);
            let start = |_n: ()| and_then(executing(opts.exec_timeout_ms), read_version);
            lemma_then_paced(all_of(tasks), start, opts);
            lemma_then_paced(
                pdl_connect_task(opts.timeout_ms).talk(),
                |_n: ()| and_then(all_of(tasks), start),
                opts,
            );
        },
    }
}

proof fn lemma_fdl2_paced(fdl2: Option<Entry>, pac: Seq<u8>, opts: FlashOptions)
    ensures
        paced(fdl2_phase(fdl2, pac, opts), opts),
{
    lemma_task_paced(connect_task(usual(opts)), opts);
    let loads = fdl2_talks(fdl2, pac, opts);
    assert forall|i: int| 0 <= i < loads.len() implies paced(#[trigger] loads[i], opts) by {
        let e = fdl2->0;
        match e.payload(pac) {
            None => {},
            Some(data) => {
                lemma_image_paced(
                    start_of(e.address, data),
                    data,
                    FDL_LOAD_CHUNK as int,
                    stage_names(),
                    "FDL2"@,
                    opts,
                );
                lemma_task_paced(
                    acked(cmd::EXEC_DATA, Seq::empty(), patient(opts), "EXEC FDL2"@),
                    opts,
                );
            },
        }
    }
    lemma_turns_paced(loads, opts);
    let rates = baud_talks(opts);
    assert forall|i: int| 0 <= i < rates.len() implies paced(#[trigger] rates[i], opts) by {
        let rate = opts.baud->0;
        lemma_task_paced(
            acked(
                cmd::CHANGE_BAUD,
                crate::bytes::be32_bytes(rate),
                usual(opts),
                "CHANGE_BAUD"@,
            ),
            opts,
        );
        lemma_task_paced(Task::Just(Step::Rate { baud: rate }), opts);
    }
    lemma_turns_paced(rates, opts);
    lemma_turns_paced(
        seq![connect_task(usual(opts)).talk(), in_turn(loads), in_turn(rates)],
        opts,
    );
}

proof fn lemma_bring_up_paced(plan: Plan, pac: Seq<u8>, opts: FlashOptions)
    ensures
        paced(bring_up_talk(plan, pac, opts), opts),
{
    lemma_fdl1_paced(plan.fdl1, pac, opts);
    lemma_fdl2_paced(plan.fdl2, pac, opts);
    lemma_whatever_follows_paced::<(), Seq<char>>(fdl2_phase(plan.fdl2, pac, opts), opts);
    lemma_whatever_follows_paced::<Seq<char>, Seq<char>>(fdl1_talk(plan.fdl1, pac, opts), opts);
}

proof fn lemma_reset_paced(opts: FlashOptions)
    ensures
        paced(reset_talk(opts), opts),
{
    let reset = Step::Tell { cmd: cmd::NORMAL_RESET, data: Seq::empty(), checksum: sum() };
    lemma_task_paced(Task::Just(reset), opts);
    lemma_task_paced(Task::Just(Step::Hold { millis: opts.reset_hold_ms }), opts);
    lemma_turns_paced(
        if opts.reset {
            seq![
                tell(cmd::NORMAL_RESET, Seq::empty(), sum()),
                Task::Just(Step::Hold { millis: opts.reset_hold_ms }).talk(),
            ]
        } else {
            Seq::empty()
        },
        opts,
    );
}

proof fn lemma_partition_paced(e: Entry, pac: Seq<u8>, opts: FlashOptions)
    ensures
        paced(partition_talk(e, pac, opts), opts),
{
    match e.payload(pac) {
        None => {},
        Some(data) => {
            let image = stage_image(e.address, data, e.file_id);
            let chunk = at_least_one(opts.chunk as int);
            lemma_writing_paced(image, chunk, opts);
            if opts.verify_readback {
                let all = READBACK_CHUNK as nat;
                let read = reading(e.address, data.len(), all, Seq::empty(), usual(opts));
                lemma_reading_paced(e.address, data.len(), all, Seq::empty(), opts);
                lemma_task_paced(note(e.file_id, data.len() as int, data.len() as int), opts);
                lemma_whatever_follows_paced::<Seq<u8>, ()>(read, opts);
            }
            lemma_whatever_follows_paced::<(), ()>(writing(image, chunk, usual(opts)), opts);
        },
    }
}

proof fn lemma_marker_paced(e: Entry, pac: Seq<u8>, opts: FlashOptions)
    ensures
        paced(marker_talk(e, pac, opts), opts),
{
    match e.payload(pac) {
        None => {},
        Some(data) => {
            lemma_writing_paced(marker_image(e, data), at_least_one(opts.chunk as int), opts);
        },
    }
}

proof fn lemma_writing_talk_paced(plan: Plan, pac: Seq<u8>, opts: FlashOptions)
    ensures
        paced(writing_talk(plan, pac, opts), opts),
{
    lemma_reset_paced(opts);
    let parts = partition_talks(plan, pac, opts);
    assert forall|i: int| 0 <= i < parts.len() implies paced(#[trigger] parts[i], opts) by {
        lemma_partition_paced(plan.partitions[i], pac, opts);
    }
    lemma_turns_paced(parts, opts);
    let erases = erase_talks(plan, opts);
    assert forall|i: int| 0 <= i < erases.len() implies paced(#[trigger] erases[i], opts) by {
        let op = plan.erases[i];
        lemma_task_paced(
            acked(
                cmd::ERASE_FLASH,
                crate::bytes::be32_bytes(op.address) + op.param,
                usual(opts),
                "ERASE"@,
            ),
            opts,
        );
    }
    lemma_turns_paced(erases, opts);
    let markers = marker_talks(plan, pac, opts);
    assert forall|i: int| 0 <= i < markers.len() implies paced(#[trigger] markers[i], opts) by {
        lemma_marker_paced(plan.data_markers[i], pac, opts);
    }
    lemma_turns_paced(markers, opts);
    let formats = if opts.format {
        seq![in_turn(erases), in_turn(markers)]
    } else {
        Seq::empty()
    };
    let turns = seq![in_turn(parts)] + formats + seq![reset_talk(opts)];
    assert forall|i: int| 0 <= i < turns.len() implies paced(#[trigger] turns[i], opts) by {
        if 0 < i < turns.len() - 1 {
            assert(turns[i] == formats[i - 1]);
        }
    }
    lemma_turns_paced(turns, opts);
}

/// In a flash run every step takes its time as the options say: a reply to the message that was
/// told last is waited for as long as they give it, be it the start of the second stage or any
/// other; messages have the Spreadtrum checksum; and the line is held as long as they say.
pub proof fn law_run_keeps_pace(
    plan: Plan,
    pac: Seq<u8>,
    opts: FlashOptions,
    acts: Seq<Act>,
    r: Result<Flashed, FlashFault>,
    i: int,
)
    requires
        after(flash_talk(plan, pac, opts), acts) == Dialogue::Over(r),
        0 <= i < acts.len(),
    ensures
        step_paced(acts[i].step, last_told(told(acts.take(i)), None), opts),
{
    lemma_bring_up_paced(plan, pac, opts);
    lemma_writing_talk_paced(plan, pac, opts);
    lemma_whatever_follows_paced::<(), Flashed>(writing_talk(plan, pac, opts), opts);
    lemma_whatever_follows_paced::<Seq<char>, Flashed>(bring_up_talk(plan, pac, opts), opts);
    let d = flash_talk(plan, pac, opts);
    assert(keeps_pace(d, None, opts));
    lemma_acts_are_paced(d, None, opts, acts, r, i);
}

proof fn lemma_dumping_paced(regions: Seq<(u32, u32)>, got: Seq<Seq<u8>>, opts: FlashOptions)
    ensures
        paced(dumping(regions, got, usual(opts)), opts),
    decreases regions.len(),
{
    if regions.len() > 0 {
        let (addr, len) = regions[0];
        let all = READBACK_CHUNK as nat;
        let read = reading(addr, len as nat, all, Seq::empty(), usual(opts));
        lemma_reading_paced(addr, len as nat, all, Seq::empty(), opts);
        assert forall|data: Seq<u8>|
            paced(dumping(regions.skip(1), #[trigger] got.push(data), usual(opts)), opts) by {
            lemma_dumping_paced(regions.skip(1), got.push(data), opts);
        }
        lemma_after_a_task_paced::<Seq<Seq<u8>>>(opts);
        lemma_whatever_follows_paced::<Seq<u8>, Seq<Seq<u8>>>(read, opts);
    }
}

/// In a dump every step takes its time as the options say, as in a run.
pub proof fn law_dump_keeps_pace(
    plan: Plan,
    pac: Seq<u8>,
    opts: FlashOptions,
    regions: Seq<(u32, u32)>,
    acts: Seq<Act>,
    r: Result<Seq<Seq<u8>>, FlashFault>,
    i: int,
)
    requires
        after(dump_talk(plan, pac, opts, regions), acts) == Dialogue::Over(r),
        0 <= i < acts.len(),
    ensures
        step_paced(acts[i].step, last_told(told(acts.take(i)), None), opts),
{
    lemma_bring_up_paced(plan, pac, opts);
    lemma_dumping_paced(regions, Seq::empty(), opts);
    lemma_reset_paced(opts);
    lemma_whatever_follows_paced::<(), Seq<Seq<u8>>>(reset_talk(opts), opts);
    lemma_whatever_follows_paced::<Seq<Seq<u8>>, Seq<Seq<u8>>>(
        dumping(regions, Seq::empty(), usual(opts)),
        opts,
    );
    assert(paced(dump_session(opts, regions), opts));
    lemma_whatever_follows_paced::<Seq<char>, Seq<Seq<u8>>>(bring_up_talk(plan, pac, opts), opts);
    let d = dump_talk(plan, pac, opts, regions);
    assert(keeps_pace(d, None, opts));
    lemma_acts_are_paced(d, None, opts, acts, r, i);
}

} // verus!
