//! What comes of a dialogue in which every step has the outcome that it asks for.

use vstd::prelude::*;

use crate::bsl::{cmd, flag_frame, frame_body, parsed, rep};
use crate::flash::bsl_io::{
    acked, at_least_one, connect_task, image_tasks, least, midst_tasks, moved_on, note,
    read_request, reading, stage_names, start_of, still_to_read, ImageNames,
};
use crate::flash::dialogue::{
    after, all_of, and_then, ask, bsl_fault, command, hear, in_turn, judged, packet, pdl_fault,
    pdl_step, step_alone, tell, unless_failed, Act, Dialogue, Link, Step, Talk, Task, Upset,
};
use crate::flash::fault::FlashFault;
use crate::flash::laws::{
    ends_at, image_orders, law_writing_ends_with_the_whole_image, lemma_held_in_parts,
    lemma_held_in_parts_whatever_follows, lemma_one_step, lemma_over, lemma_told_concat,
    lemma_told_one, midst_orders, pieces, told,
};
use crate::flash::options::FlashOptions;
use crate::flash::pdl_io::{block_tasks, executing, load_tasks, pdl_connect_task, rousing};
use crate::flash::procedure::{
    baud_talks, bring_up_talk, bytes_to_write, erase_talk, erase_talks, fdl1_talk, fdl2_phase,
    fdl2_talks, flash_talk, marker_image, marker_talk, marker_talks, partition_talk,
    partition_talks, patient, reset_talk, smaller_chunk, stage_image, sum, timed_out, usual,
    verifying, version_in, writing, writing_talk, Flashed, Image, FDL_LOAD_CHUNK,
    MIN_ADAPTIVE_CHUNK, READBACK_CHUNK,
};
use crate::pac::{self, law_payloads_lie_in_the_file, Entry};
use crate::pdl::{reply_in, CHUNK};
use crate::plan::{first_with, is_data_marker, planned, role_of, Plan, Role};
use crate::transport::{all_reads, gathered};

verus! {

// ---------------------------------------------------------------------------
// One wait
// ---------------------------------------------------------------------------

/// Whether a wait came to nothing in the only ways there are: a read failed; or the time
/// ran out, after one read for each look that found time left.
pub open spec fn in_vain(act: Act) -> bool {
    ||| act.events.len() > 0 && act.events.last() is ReadFailed
    ||| act.wait matches Some(wait) && wait.ran_out() && all_reads(act.events)
        && act.events.len() == wait.rounds()
}

/// A PDL reply that comes in while there is time is received: the outcome of waiting for
/// one is the reply just if the reads brought one in. Without one the time ran out, after
/// a read for each look that found time left, or a read failed.
pub proof fn law_reply_in_time_is_received(act: Act)
    requires
        act.valid(),
        act.step is Await,
    ensures
        match reply_in(gathered(act.events)) {
            Some(payload) => all_reads(act.events) ==> act.outcome == Ok::<(u16, Seq<u8>), Upset>(
                (0, payload),
            ),
            None => act.outcome is Err,
        },
        act.outcome is Err ==> in_vain(act),
{
    assert(Seq::<u8>::empty() + gathered(act.events) =~= gathered(act.events));
}

/// A BSL frame that comes in while there is time is received: the outcome of waiting for
/// one is what the first frame decodes to, just if the reads brought one in.
pub proof fn law_message_in_time_is_heard(act: Act)
    requires
        act.valid(),
        act.step is Hear,
    ensures
        match frame_body(gathered(act.events)) {
            Some(body) => all_reads(act.events) ==> act.outcome == match parsed(body) {
                Ok(message) => Ok::<(u16, Seq<u8>), Upset>(message),
                Err(f) => Err(Upset::Frame(f)),
            },
            None => act.outcome is Err,
        },
        act.outcome matches Err(Upset::Transport(_)) ==> in_vain(act),
{
    assert(Seq::<u8>::empty() + gathered(act.events) =~= gathered(act.events));
}

/// A frame that comes in while a device is being roused, and there is time, is received.
pub proof fn law_frame_in_time_is_received(act: Act)
    requires
        act.valid(),
        act.step is Rouse,
    ensures
        match flag_frame(gathered(act.events)) {
            Some(frame) => act.outcome == Ok::<(u16, Seq<u8>), Upset>((0, frame)),
            None => act.outcome is Err,
        },
        act.outcome == Err::<(u16, Seq<u8>), Upset>(Upset::NoVersion) ==> act.ran_out(),
{
    if act.outcome is Err && act.events.len() > 0 {
        let n = act.events.len() - 1;
        assert(act.events.take(n) =~= act.events.drop_last());
        assert(flag_frame(gathered(act.events.take(n))) is None);
    }
}

// ---------------------------------------------------------------------------
// Every step with the outcome that it asks for
// ---------------------------------------------------------------------------

/// The type of reply that a BSL command asks for.
pub open spec fn reply_to(cmd: u16) -> u16 {
    if cmd == cmd::READ_FLASH {
        rep::READ_FLASH
    } else {
        rep::ACK
    }
}

/// Whether the outcome of the `i`-th of some acts is the one that its step asks for: what
/// is sent goes through; what is waited for comes in, is of the type that the message
/// before it asks for, and from a roused device is its version.
pub open spec fn as_asked(acts: Seq<Act>, i: int) -> bool {
    match acts[i].outcome {
        Err(_) => false,
        Ok((kind, data)) => match acts[i].step {
            Step::Rouse { .. } => version_in(data) is Some,
            Step::Hear { .. } => i > 0 ==> match acts[i - 1].step {
                Step::Tell { cmd, .. } => kind == reply_to(cmd),
                _ => true,
            },
            _ => true,
        },
    }
}

/// The start and the data, so far, of the image that some messages began to write last.
pub open spec fn last_written(messages: Seq<(u16, Seq<u8>)>) -> (Seq<u8>, Seq<u8>)
    decreases messages.len(),
{
    if messages.len() == 0 {
        (Seq::empty(), Seq::empty())
    } else {
        let (start, written) = last_written(messages.drop_last());
        let (cmd, data) = messages.last();
        if cmd == cmd::START_DATA {
            (data, Seq::empty())
        } else if cmd == cmd::MIDST_DATA {
            (start, written + data)
        } else {
            (start, written)
        }
    }
}

/// Whether the `i`-th of some acts, if it asks for `n` bytes from the offset `off` of an
/// image at `addr`, and if that image is the one written last, is answered with those
/// bytes of it.
pub open spec fn read_matches(acts: Seq<Act>, i: int, addr: u32, off: nat, n: nat) -> bool {
    let (start, image) = last_written(told(acts.take(i)));
    let asked = acts[i].step matches Step::Tell { cmd, data, .. } && cmd == cmd::READ_FLASH && data
        == read_request(moved_on(addr, off), n);
    asked && start == start_of(addr, image) && off + n <= image.len() ==> match acts[i
        + 1].outcome {
        Ok((kind, data)) => data == image.subrange(off as int, (off + n) as int),
        Err(_) => true,
    }
}

/// Whether, in some acts, every read of a stretch of the image that was written last is
/// answered with the bytes of that stretch.
pub open spec fn reads_match(acts: Seq<Act>) -> bool {
    forall|i: int, addr: u32, off: nat, n: nat|
        0 <= i && i + 1 < acts.len() ==> #[trigger] read_matches(acts, i, addr, off, n)
}

/// Whether every one of some acts has the outcome that its step asks for, and what is
/// read is what was written.
pub open spec fn all_as_asked(acts: Seq<Act>) -> bool {
    &&& forall|i: int| 0 <= i < acts.len() ==> #[trigger] as_asked(acts, i)
    &&& reads_match(acts)
}

proof fn lemma_written_since(a: Seq<(u16, Seq<u8>)>, b: Seq<(u16, Seq<u8>)>)
    ensures
        last_written(b).0.len() > 0 ==> last_written(a + b) == last_written(b),
    decreases b.len(),
{
    if b.len() > 0 {
        assert((a + b).drop_last() =~= a + b.drop_last());
        assert((a + b).last() == b.last());
        lemma_written_since(a, b.drop_last());
    }
}

proof fn lemma_first_acts_as_asked(acts: Seq<Act>, k: int)
    requires
        all_as_asked(acts),
        0 <= k <= acts.len(),
    ensures
        all_as_asked(acts.take(k)),
{
    let part = acts.take(k);
    assert forall|i: int| 0 <= i < part.len() implies #[trigger] as_asked(part, i) by {
        assert(as_asked(acts, i));
        assert(part[i] == acts[i]);
        if i > 0 {
            assert(part[i - 1] == acts[i - 1]);
        }
    }
    assert forall|i: int, addr: u32, off: nat, n: nat|
        0 <= i && i + 1 < part.len() implies #[trigger] read_matches(part, i, addr, off, n) by {
        assert(part.take(i) =~= acts.take(i));
        assert(part[i] == acts[i] && part[i + 1] == acts[i + 1]);
        assert(read_matches(acts, i, addr, off, n));
    }
}

proof fn lemma_last_acts_as_asked(acts: Seq<Act>, k: int)
    requires
        all_as_asked(acts),
        0 <= k <= acts.len(),
    ensures
        all_as_asked(acts.skip(k)),
{
    let part = acts.skip(k);
    assert forall|i: int| 0 <= i < part.len() implies #[trigger] as_asked(part, i) by {
        assert(as_asked(acts, i + k));
        assert(part[i] == acts[i + k]);
        if i > 0 {
            assert(part[i - 1] == acts[i + k - 1]);
        }
    }
    assert forall|i: int, addr: u32, off: nat, n: nat|
        0 <= i && i + 1 < part.len() implies #[trigger] read_matches(part, i, addr, off, n) by {
        assert(acts.take(i + k) =~= acts.take(k) + part.take(i));
        lemma_told_concat(acts.take(k), part.take(i));
        lemma_written_since(told(acts.take(k)), told(part.take(i)));
        assert(start_of(addr, last_written(told(part.take(i))).1).len() == 8);
        assert(part[i] == acts[i + k] && part[i + 1] == acts[i + k + 1]);
        assert(read_matches(acts, i + k, addr, off, n));
    }
}

/// Whether a dialogue whose every step has the outcome that it asks for succeeds, with a
/// result of which `q` holds.
pub open spec fn succeeds<A>(p: Talk<A>, q: spec_fn(A) -> bool) -> bool {
    forall|acts: Seq<Act>|
        all_as_asked(acts) && (#[trigger] after(p, acts)) is Over ==> (after(
            p,
            acts,
        )->Over_0 matches Ok(a) && q(a))
}

/// Anything holds.
pub open spec fn anything<A>() -> spec_fn(A) -> bool {
    |_a: A| true
}

proof fn lemma_then_succeeds<A, B>(
    p: Talk<A>,
    f: spec_fn(A) -> Talk<B>,
    q: spec_fn(A) -> bool,
    q2: spec_fn(B) -> bool,
)
    requires
        succeeds(p, q),
        forall|a: A| q(a) ==> succeeds(#[trigger] f(a), q2),
    ensures
        succeeds(and_then(p, f), q2),
{
    assert forall|acts: Seq<Act>|
        all_as_asked(acts) && (#[trigger] after(and_then(p, f), acts)) is Over implies (after(
        and_then(p, f),
        acts,
    )->Over_0 matches Ok(b) && q2(b)) by {
        let r = after(and_then(p, f), acts)->Over_0;
        let (k, a) = lemma_held_in_parts(p, unless_failed(f), acts, r);
        lemma_first_acts_as_asked(acts, k);
        lemma_last_acts_as_asked(acts, k);
        assert(after(p, acts.take(k)) is Over);
        match a {
            Ok(x) => {
                assert(q(x));
                assert(succeeds(f(x), q2));
                assert(after(f(x), acts.skip(k)) == Dialogue::Over(r));
            },
            Err(_) => {},
        }
    }
}

/// As [`lemma_then_succeeds`], for whatever comes second.
proof fn lemma_whatever_follows_succeeds<A, B>(
    p: Talk<A>,
    q: spec_fn(A) -> bool,
    q2: spec_fn(B) -> bool,
)
    requires
        succeeds(p, q),
    ensures
        forall|f: spec_fn(A) -> Talk<B>|
            (forall|a: A| q(a) ==> succeeds(#[trigger] f(a), q2)) ==> succeeds(
                #[trigger] and_then(p, f),
                q2,
            ),
{
    assert forall|f: spec_fn(A) -> Talk<B>|
        (forall|a: A| q(a) ==> succeeds(#[trigger] f(a), q2)) implies succeeds(
        #[trigger] and_then(p, f),
        q2,
    ) by {
        lemma_then_succeeds(p, f, q, q2);
    }
}

/// A dialogue that is over with a success has succeeded.
proof fn lemma_over_succeeds<A>(a: A, q: spec_fn(A) -> bool)
    requires
        q(a),
    ensures
        succeeds(Dialogue::Over(Ok::<A, FlashFault>(a)), q),
{
}

// ---------------------------------------------------------------------------
// Steps, commands and lists
// ---------------------------------------------------------------------------

proof fn lemma_step_succeeds(step: Step, fault: spec_fn(Upset) -> FlashFault)
    ensures
        succeeds(step_alone(step, fault), anything()),
{
    let p = step_alone(step, fault);
    assert forall|acts: Seq<Act>| all_as_asked(acts) && (#[trigger] after(p, acts)) is Over implies (
    after(p, acts)->Over_0 matches Ok(a) && anything::<()>()(a)) by {
        match p {
            Dialogue::Next(s, go_on) => {
                lemma_one_step(s, go_on, acts, after(p, acts)->Over_0);
                assert(as_asked(acts, 0));
            },
            _ => {},
        }
    }
}

/// A command whose steps have the outcomes that they ask for gives the data of its reply.
proof fn lemma_commanded(
    cmd: u16,
    data: Seq<u8>,
    link: Link,
    expect: u16,
    what: Seq<char>,
    acts: Seq<Act>,
    r: Result<Seq<u8>, FlashFault>,
)
    requires
        expect == reply_to(cmd),
        all_as_asked(acts),
        after(command(cmd, data, link, expect, what), acts) == Dialogue::Over(r),
    ensures
        acts.len() == 2,
        acts[0].step == (Step::Tell { cmd, data, checksum: link.checksum }),
        acts[1].step !is Tell,
        acts[1].outcome matches Ok((kind, reply)) && r == Ok::<Seq<u8>, FlashFault>(reply),
{
    reveal(command);
    let f1 = unless_failed(|m: (u16, Seq<u8>)| Dialogue::Over(judged(Ok(m), expect, what)));
    let (k1, r1) = lemma_held_in_parts(ask(cmd, data, link), f1, acts, r);
    lemma_over(f1(r1)->Over_0, acts.skip(k1), r);
    let both = acts.take(k1);
    assert(both =~= acts);
    let f2 = unless_failed(|_n: ()| hear(link.timeout_ms));
    let (k2, r2) = lemma_held_in_parts(tell(cmd, data, link.checksum), f2, acts, r1);
    match tell(cmd, data, link.checksum) {
        Dialogue::Next(step, go_on) => {
            lemma_one_step(step, go_on, acts.take(k2), r2);
        },
        _ => {},
    }
    assert(acts[0] == acts.take(k2)[0]);
    assert(as_asked(acts, 0));
    assert(r2 is Ok);
    match hear(link.timeout_ms) {
        Dialogue::Next(step, go_on) => {
            lemma_one_step(step, go_on, acts.skip(k2), r1);
        },
        _ => {},
    }
    assert(acts[1] == acts.skip(k2)[0]);
    assert(as_asked(acts, 1));
}

proof fn lemma_command_succeeds(
    cmd: u16,
    data: Seq<u8>,
    link: Link,
    expect: u16,
    what: Seq<char>,
)
    requires
        expect == reply_to(cmd),
    ensures
        succeeds(command(cmd, data, link, expect, what), anything()),
{
    let p = command(cmd, data, link, expect, what);
    assert forall|acts: Seq<Act>| all_as_asked(acts) && (#[trigger] after(p, acts)) is Over implies (
    after(p, acts)->Over_0 matches Ok(a) && anything::<Seq<u8>>()(a)) by {
        lemma_commanded(cmd, data, link, expect, what, acts, after(p, acts)->Over_0);
    }
}

/// Whether a task that is a BSL command expects the reply that the command asks for.
pub open spec fn expects_its_reply(t: Task) -> bool {
    match t {
        Task::Command { cmd, expect, .. } => expect == reply_to(cmd),
        _ => true,
    }
}

proof fn lemma_task_succeeds(t: Task)
    requires
        expects_its_reply(t),
    ensures
        succeeds(t.talk(), anything()),
{
    match t {
        Task::Packet { payload, timeout_ms } => {
            let fault = |u: Upset| pdl_fault(u);
            lemma_step_succeeds(Step::Packet { payload }, fault);
            lemma_step_succeeds(Step::Await { timeout_ms }, fault);
            lemma_then_succeeds(
                pdl_step(Step::Packet { payload }),
                |_n: ()| pdl_step(Step::Await { timeout_ms }),
                anything(),
                anything(),
            );
        },
        Task::Command { cmd, data, link, expect, what } => {
            lemma_command_succeeds(cmd, data, link, expect, what);
            lemma_over_succeeds((), anything());
            lemma_then_succeeds(
                command(cmd, data, link, expect, what),
                |_d: Seq<u8>| Dialogue::Over(Ok::<(), FlashFault>(())),
                anything(),
                anything(),
            );
        },
        Task::Just(step) => {
            lemma_step_succeeds(step, |u: Upset| bsl_fault(u));
        },
    }
}

/// Tasks that each expect the reply their command asks for are all done.
pub proof fn lemma_tasks_succeed(tasks: Seq<Task>)
    requires
        forall|i: int| 0 <= i < tasks.len() ==> expects_its_reply(#[trigger] tasks[i]),
    ensures
        succeeds(all_of(tasks), anything()),
    decreases tasks.len(),
{
    if tasks.len() == 0 {
        lemma_over_succeeds((), anything());
    } else {
        let rest = tasks.skip(1);
        assert forall|i: int| 0 <= i < rest.len() implies expects_its_reply(#[trigger] rest[i]) by {
            assert(rest[i] == tasks[i + 1]);
        }
        lemma_tasks_succeed(rest);
        lemma_task_succeeds(tasks[0]);
        lemma_whatever_follows_succeeds::<(), ()>(tasks[0].talk(), anything(), anything());
    }
}

proof fn lemma_turns_succeed(talks: Seq<Talk<()>>)
    requires
        forall|i: int| 0 <= i < talks.len() ==> succeeds(#[trigger] talks[i], anything()),
    ensures
        succeeds(in_turn(talks), anything()),
    decreases talks.len(),
{
    if talks.len() == 0 {
        lemma_over_succeeds((), anything());
    } else {
        let rest = talks.skip(1);
        assert forall|i: int| 0 <= i < rest.len() implies succeeds(#[trigger] rest[i], anything()) by {
            assert(rest[i] == talks[i + 1]);
        }
        lemma_turns_succeed(rest);
        lemma_whatever_follows_succeeds::<(), ()>(talks[0], anything(), anything());
    }
}

// ---------------------------------------------------------------------------
// Bringing the device up
// ---------------------------------------------------------------------------

proof fn lemma_load_succeeds(addr: u32, data: Seq<u8>, label: Seq<char>, timeout_ms: u64)
    ensures
        succeeds(all_of(load_tasks(addr, data, label, timeout_ms)), anything()),
{
    let tasks = load_tasks(addr, data, label, timeout_ms);
    lemma_load_is_pdl_tasks(addr, data, label, timeout_ms);
    assert forall|j: int| 0 <= j < tasks.len() implies expects_its_reply(#[trigger] tasks[j]) by {
        assert(is_pdl_task(tasks[j]));
    }
    lemma_tasks_succeed(tasks);
}

/// Whether a step of the PDL phase went as on a port that takes every message, and
/// answers it in time with a complete reply.
pub open spec fn answered_in_time(act: Act) -> bool {
    &&& act.valid()
    &&& match act.step {
        Step::Packet { .. } => act.outcome is Ok,
        Step::Await { .. } => all_reads(act.events) && reply_in(gathered(act.events)) is Some,
        _ => true,
    }
}

/// Whether a task is a PDL message, or a report.
pub open spec fn is_pdl_task(t: Task) -> bool {
    match t {
        Task::Packet { .. } => true,
        Task::Just(step) => step is Note,
        Task::Command { .. } => false,
    }
}

proof fn lemma_pdl_step_in_time(
    step: Step,
    fault: spec_fn(Upset) -> FlashFault,
    acts: Seq<Act>,
    r: Result<(), FlashFault>,
)
    requires
        step is Packet || step is Await || step is Note,
        forall|i: int| 0 <= i < acts.len() ==> answered_in_time(#[trigger] acts[i]),
        after(step_alone(step, fault), acts) == Dialogue::Over(r),
    ensures
        r is Ok,
{
    match step_alone(step, fault) {
        Dialogue::Next(s, go_on) => {
            lemma_one_step(s, go_on, acts, r);
            assert(answered_in_time(acts[0]));
            if step is Await {
                law_reply_in_time_is_received(acts[0]);
            }
        },
        _ => {},
    }
}

proof fn lemma_pdl_tasks_in_time(tasks: Seq<Task>, acts: Seq<Act>, r: Result<(), FlashFault>)
    requires
        forall|j: int| 0 <= j < tasks.len() ==> is_pdl_task(#[trigger] tasks[j]),
        forall|i: int| 0 <= i < acts.len() ==> answered_in_time(#[trigger] acts[i]),
        after(all_of(tasks), acts) == Dialogue::Over(r),
    ensures
        r is Ok,
    decreases tasks.len(),
{
    if tasks.len() == 0 {
        lemma_over(Ok::<(), FlashFault>(()), acts, r);
    } else {
        let f = unless_failed(|_n: ()| all_of(tasks.skip(1)));
        let (k, a) = lemma_held_in_parts(tasks[0].talk(), f, acts, r);
        let first = acts.take(k);
        let rest = acts.skip(k);
        assert forall|i: int| 0 <= i < first.len() implies answered_in_time(#[trigger] first[i]) by {
            assert(first[i] == acts[i]);
        }
        assert forall|i: int| 0 <= i < rest.len() implies answered_in_time(#[trigger] rest[i]) by {
            assert(rest[i] == acts[i + k]);
        }
        assert(is_pdl_task(tasks[0]));
        match tasks[0] {
            Task::Packet { payload, timeout_ms } => {
                lemma_packet_in_time(payload, timeout_ms, first, a);
            },
            Task::Just(step) => {
                lemma_pdl_step_in_time(step, |u: Upset| bsl_fault(u), first, a);
            },
            _ => {},
        }
        assert forall|j: int| 0 <= j < tasks.skip(1).len() implies is_pdl_task(
            #[trigger] tasks.skip(1)[j],
        ) by {
            assert(tasks.skip(1)[j] == tasks[j + 1]);
        }
        lemma_pdl_tasks_in_time(tasks.skip(1), rest, r);
    }
}

proof fn lemma_packet_in_time(
    payload: Seq<u8>,
    timeout_ms: u64,
    acts: Seq<Act>,
    r: Result<(), FlashFault>,
)
    requires
        forall|i: int| 0 <= i < acts.len() ==> answered_in_time(#[trigger] acts[i]),
        after(packet(payload, timeout_ms), acts) == Dialogue::Over(r),
    ensures
        r is Ok,
{
    let fault = |u: Upset| pdl_fault(u);
    let f = unless_failed(|_n: ()| pdl_step(Step::Await { timeout_ms }));
    let (k, a) = lemma_held_in_parts(pdl_step(Step::Packet { payload }), f, acts, r);
    let first = acts.take(k);
    let rest = acts.skip(k);
    assert forall|i: int| 0 <= i < first.len() implies answered_in_time(#[trigger] first[i]) by {
        assert(first[i] == acts[i]);
    }
    assert forall|i: int| 0 <= i < rest.len() implies answered_in_time(#[trigger] rest[i]) by {
        assert(rest[i] == acts[i + k]);
    }
    lemma_pdl_step_in_time(Step::Packet { payload }, fault, first, a);
    lemma_pdl_step_in_time(Step::Await { timeout_ms }, fault, rest, r);
}

proof fn lemma_blocks_are_pdl_tasks(data: Seq<u8>, i: nat, label: Seq<char>, timeout_ms: u64)
    ensures
        forall|j: int|
            0 <= j < block_tasks(data, i, label, timeout_ms).len() ==> is_pdl_task(
                #[trigger] block_tasks(data, i, label, timeout_ms)[j],
            ),
    decreases still_to_read(data.len(), (i * CHUNK) as nat),
{
    let tasks = block_tasks(data, i, label, timeout_ms);
    let off = i * CHUNK;
    if off < data.len() {
        let end = least(off + CHUNK, data.len() as int);
        let rest = block_tasks(data, i + 1, label, timeout_ms);
        lemma_blocks_are_pdl_tasks(data, i + 1, label, timeout_ms);
        assert forall|j: int| 0 <= j < tasks.len() implies is_pdl_task(#[trigger] tasks[j]) by {
            if j >= 2 {
                assert(tasks[j] == rest[j - 2]);
            } else if j == 1 {
                assert(tasks[1] == note(label, end, data.len() as int));
            }
        }
    }
}

pub proof fn lemma_load_is_pdl_tasks(addr: u32, data: Seq<u8>, label: Seq<char>, timeout_ms: u64)
    ensures
        forall|j: int|
            0 <= j < load_tasks(addr, data, label, timeout_ms).len() ==> is_pdl_task(
                #[trigger] load_tasks(addr, data, label, timeout_ms)[j],
            ),
{
    let tasks = load_tasks(addr, data, label, timeout_ms);
    let blocks = block_tasks(data, 0, label, timeout_ms);
    lemma_blocks_are_pdl_tasks(data, 0, label, timeout_ms);
    assert forall|j: int| 0 <= j < tasks.len() implies is_pdl_task(#[trigger] tasks[j]) by {
        if 0 < j < tasks.len() - 1 {
            assert(tasks[j] == blocks[j - 1]);
        }
    }
}

/// Loading an image succeeds on a port that takes every message, and answers it in time
/// with a complete reply.
pub proof fn law_answered_image_is_loaded(
    addr: u32,
    data: Seq<u8>,
    label: Seq<char>,
    timeout_ms: u64,
    acts: Seq<Act>,
    r: Result<(), FlashFault>,
)
    requires
        forall|i: int| 0 <= i < acts.len() ==> answered_in_time(#[trigger] acts[i]),
        after(all_of(load_tasks(addr, data, label, timeout_ms)), acts) == Dialogue::Over(r),
    ensures
        r is Ok,
{
    lemma_load_is_pdl_tasks(addr, data, label, timeout_ms);
    lemma_pdl_tasks_in_time(load_tasks(addr, data, label, timeout_ms), acts, r);
}

/// Whether a frame has a version in it.
spec fn with_version() -> spec_fn(Seq<u8>) -> bool {
    |frame: Seq<u8>| version_in(frame) is Some
}

proof fn lemma_rousing_succeeds(timeout_ms: u64)
    ensures
        succeeds(rousing(timeout_ms), with_version()),
{
    let p = rousing(timeout_ms);
    assert forall|acts: Seq<Act>| all_as_asked(acts) && (#[trigger] after(p, acts)) is Over implies (
    after(p, acts)->Over_0 matches Ok(frame) && with_version()(frame)) by {
        match p {
            Dialogue::Next(s, go_on) => {
                lemma_one_step(s, go_on, acts, after(p, acts)->Over_0);
                assert(as_asked(acts, 0));
            },
            _ => {},
        }
    }
}

proof fn lemma_fdl1_succeeds(fdl1: Entry, pac: Seq<u8>, opts: FlashOptions)
    requires
        fdl1.payload(pac) is Some,
    ensures
        succeeds(fdl1_talk(fdl1, pac, opts), anything()),
{
    let data = fdl1.payload(pac)->0;
    let connect = pdl_connect_task(opts.timeout_ms);
    let load = all_of(load_tasks(fdl1.address, data, "FDL1"@, opts.timeout_ms));
    let exec = Step::Packet {
        payload: crate::pdl::params_of(crate::pdl::Cmd::Exec, 0, 0, Seq::empty()),
    };
    lemma_task_succeeds(connect);
    lemma_load_succeeds(fdl1.address, data, "FDL1"@, opts.timeout_ms);
    lemma_step_succeeds(exec, |u: Upset| pdl_fault(u));
    lemma_rousing_succeeds(opts.exec_timeout_ms);
    lemma_then_succeeds(
        pdl_step(exec),
        |_n: ()| rousing(opts.exec_timeout_ms),
        anything(),
        with_version(),
    );
    lemma_whatever_follows_succeeds::<(), Seq<char>>(connect.talk(), anything(), anything());
    lemma_whatever_follows_succeeds::<(), Seq<char>>(load, anything(), anything());
    lemma_whatever_follows_succeeds::<Seq<u8>, Seq<char>>(
        executing(opts.exec_timeout_ms),
        with_version(),
        anything(),
    );
}

proof fn lemma_midst_expects(
    data: Seq<u8>,
    off: int,
    chunk: int,
    link: Link,
    what: Seq<char>,
    label: Seq<char>,
)
    ensures
        forall|i: int|
            0 <= i < midst_tasks(data, off, chunk, link, what, label).len() ==> expects_its_reply(
                #[trigger] midst_tasks(data, off, chunk, link, what, label)[i],
            ),
    decreases data.len() - off,
{
    let tasks = midst_tasks(data, off, chunk, link, what, label);
    if off < data.len() && chunk > 0 {
        let end = least(off + chunk, data.len() as int);
        let rest = midst_tasks(data, end, chunk, link, what, label);
        lemma_midst_expects(data, end, chunk, link, what, label);
        assert forall|i: int| 0 <= i < tasks.len() implies expects_its_reply(
            #[trigger] tasks[i],
        ) by {
            if i >= 2 {
                assert(tasks[i] == rest[i - 2]);
            } else if i == 1 {
                assert(tasks[1] == note(label, end, data.len() as int));
            }
        }
    }
}

proof fn lemma_image_succeeds(
    start: Seq<u8>,
    data: Seq<u8>,
    chunk: int,
    link: Link,
    names: ImageNames,
    label: Seq<char>,
)
    ensures
        succeeds(all_of(image_tasks(start, data, chunk, link, names, label)), anything()),
{
    let tasks = image_tasks(start, data, chunk, link, names, label);
    let midst = midst_tasks(data, 0, chunk, link, names.midst@, label);
    lemma_midst_expects(data, 0, chunk, link, names.midst@, label);
    assert forall|i: int| 0 <= i < tasks.len() implies expects_its_reply(#[trigger] tasks[i]) by {
        if 0 < i < tasks.len() - 1 {
            assert(tasks[i] == midst[i - 1]);
        }
    }
    lemma_tasks_succeed(tasks);
}

proof fn lemma_fdl2_phase_succeeds(fdl2: Option<Entry>, pac: Seq<u8>, opts: FlashOptions)
    requires
        fdl2 matches Some(e) ==> e.payload(pac) is Some,
    ensures
        succeeds(fdl2_phase(fdl2, pac, opts), anything()),
{
    let stage = fdl2_talks(fdl2, pac, opts);
    let baud = baud_talks(opts);
    lemma_task_succeeds(connect_task(usual(opts)));
    match fdl2 {
        None => {},
        Some(e) => {
            let data = e.payload(pac)->0;
            lemma_image_succeeds(
                start_of(e.address, data),
                data,
                FDL_LOAD_CHUNK as int,
                usual(opts),
                stage_names(),
                "FDL2"@,
            );
            lemma_task_succeeds(
                acked(cmd::EXEC_DATA, Seq::empty(), patient(opts), "EXEC FDL2"@),
            );
        },
    }
    match opts.baud {
        None => {},
        Some(rate) => {
            lemma_task_succeeds(
                acked(
                    cmd::CHANGE_BAUD,
                    crate::bytes::be32_bytes(rate),
                    usual(opts),
                    "CHANGE_BAUD"@,
                ),
            );
            lemma_task_succeeds(Task::Just(Step::Rate { baud: rate }));
        },
    }
    lemma_turns_succeed(stage);
    lemma_turns_succeed(baud);
    lemma_turns_succeed(
        seq![connect_task(usual(opts)).talk(), in_turn(stage), in_turn(baud)],
    );
}

proof fn lemma_bring_up_succeeds(plan: Plan, pac: Seq<u8>, opts: FlashOptions)
    requires
        plan.fdl1.payload(pac) is Some,
        plan.fdl2 matches Some(e) ==> e.payload(pac) is Some,
    ensures
        succeeds(bring_up_talk(plan, pac, opts), anything()),
{
    lemma_fdl1_succeeds(plan.fdl1, pac, opts);
    lemma_fdl2_phase_succeeds(plan.fdl2, pac, opts);
    lemma_whatever_follows_succeeds::<(), Seq<char>>(
        fdl2_phase(plan.fdl2, pac, opts),
        anything(),
        anything(),
    );
    lemma_whatever_follows_succeeds::<Seq<char>, Seq<char>>(
        fdl1_talk(plan.fdl1, pac, opts),
        anything(),
        anything(),
    );
}

// ---------------------------------------------------------------------------
// Writing, and reading back
// ---------------------------------------------------------------------------

proof fn lemma_writing_succeeds(image: Image, chunk: int, link: Link)
    ensures
        succeeds(writing(image, chunk, link), anything()),
{
    let p = writing(image, chunk, link);
    let tasks = image.tasks(chunk, link);
    lemma_image_succeeds(image.start, image.data, chunk, link, image.names, image.label);
    assert forall|acts: Seq<Act>| all_as_asked(acts) && (#[trigger] after(p, acts)) is Over implies (
    after(p, acts)->Over_0 matches Ok(a) && anything::<()>()(a)) by {
        let r = after(p, acts)->Over_0;
        lemma_held_in_parts_whatever_follows::<Result<(), FlashFault>, Result<(), FlashFault>>(
            all_of(tasks),
            acts,
            r,
        );
        let (k, a) = choose|k: int, a: Result<(), FlashFault>| #[trigger]
            ends_at(all_of(tasks), acts, k, a) && after(
                if (a matches Err(e) && timed_out(e)) && chunk > MIN_ADAPTIVE_CHUNK {
                    and_then(
                        Task::Just(Step::Purge).talk(),
                        |_n: ()|
                            and_then(
                                connect_task(link).talk(),
                                |_n: ()| writing(image, smaller_chunk(chunk), link),
                            ),
                    )
                } else {
                    Dialogue::Over(a)
                },
                acts.skip(k),
            ) == Dialogue::Over(r);
        lemma_first_acts_as_asked(acts, k);
        assert(after(all_of(tasks), acts.take(k)) is Over);
        assert(a is Ok);
        lemma_over(a, acts.skip(k), r);
    }
}

proof fn lemma_midst_written(
    before: Seq<(u16, Seq<u8>)>,
    data: Seq<u8>,
    off: int,
    chunk: int,
    start: Seq<u8>,
)
    requires
        0 <= off <= data.len(),
        chunk > 0,
        last_written(before) == (start, data.take(off)),
    ensures
        last_written(before + midst_orders(pieces(data, off, chunk))) == (start, data),
    decreases data.len() - off,
{
    let orders = midst_orders(pieces(data, off, chunk));
    if off >= data.len() {
        assert(before + orders =~= before);
        assert(data.take(off) =~= data);
    } else {
        let end = least(off + chunk, data.len() as int);
        let piece = data.subrange(off, end);
        let more = before.push((cmd::MIDST_DATA, piece));
        assert(more.drop_last() =~= before);
        assert(data.take(off) + piece =~= data.take(end));
        lemma_midst_written(more, data, end, chunk, start);
        assert(before + orders =~= more + midst_orders(pieces(data, end, chunk)));
    }
}

/// After the messages that write an image, that image is the one written last.
proof fn lemma_image_written(
    before: Seq<(u16, Seq<u8>)>,
    start: Seq<u8>,
    data: Seq<u8>,
    chunk: int,
)
    requires
        chunk > 0,
    ensures
        last_written(before + image_orders(start, data, chunk)) == (start, data),
{
    let begun = before.push((cmd::START_DATA, start));
    let midst = midst_orders(pieces(data, 0, chunk));
    let whole = before + image_orders(start, data, chunk);
    assert(data.take(0) =~= Seq::<u8>::empty());
    lemma_midst_written(begun, data, 0, chunk, start);
    assert(whole.drop_last() =~= begun + midst);
    assert(whole.last().0 == cmd::END_DATA);
}

/// Reading back the image that was written last gives the image.
proof fn lemma_image_read_back(
    before: Seq<Act>,
    addr: u32,
    image: Seq<u8>,
    got: Seq<u8>,
    link: Link,
    acts: Seq<Act>,
    r: Result<Seq<u8>, FlashFault>,
)
    requires
        all_as_asked(before + acts),
        last_written(told(before)) == (start_of(addr, image), image),
        got.len() <= image.len(),
        got == image.take(got.len() as int),
        after(reading(addr, image.len(), READBACK_CHUNK as nat, got, link), acts)
            == Dialogue::Over(r),
    ensures
        r == Ok::<Seq<u8>, FlashFault>(image),
    decreases image.len() - got.len(),
{
    if got.len() >= image.len() {
        lemma_over(Ok::<Seq<u8>, FlashFault>(got), acts, r);
        assert(image.take(image.len() as int) =~= image);
    } else {
        let n = least(image.len() - got.len(), READBACK_CHUNK as int) as nat;
        let request = read_request(moved_on(addr, got.len()), n);
        let asked = command(cmd::READ_FLASH, request, link, rep::READ_FLASH, "READ_FLASH"@);
        lemma_held_in_parts_whatever_follows::<Result<Seq<u8>, FlashFault>, Result<Seq<u8>, FlashFault>>(
            asked,
            acts,
            r,
        );
        let (k, a) = choose|k: int, a: Result<Seq<u8>, FlashFault>| #[trigger]
            ends_at(asked, acts, k, a) && after(
                match a {
                    Ok(data) => if data.len() == 0 {
                        Dialogue::Over(Ok(got))
                    } else {
                        reading(addr, image.len(), READBACK_CHUNK as nat, got + data, link)
                    },
                    Err(e) => Dialogue::Over(Err(e)),
                },
                acts.skip(k),
            ) == Dialogue::Over(r);
        let both = acts.take(k);
        let all = before + acts;
        let at = before.len() as int;
        lemma_last_acts_as_asked(all, at);
        assert(all.skip(at) =~= acts);
        lemma_first_acts_as_asked(acts, k);
        lemma_commanded(cmd::READ_FLASH, request, link, rep::READ_FLASH, "READ_FLASH"@, both, a);
        assert(both[0] == all[at] && both[1] == all[at + 1]);
        assert(all.take(at) =~= before);
        let data = a->Ok_0;
        assert(read_matches(all, at, addr, got.len(), n));
        assert(data == image.subrange(got.len() as int, (got.len() + n) as int));
        assert(got + data =~= image.take((got.len() + n) as int));
        let later = before + both;
        assert(both =~= seq![both[0]] + seq![both[1]]);
        lemma_told_concat(seq![both[0]], seq![both[1]]);
        lemma_told_one(both[0]);
        lemma_told_one(both[1]);
        lemma_told_concat(before, both);
        assert(told(later) =~= told(before).push((cmd::READ_FLASH, request)));
        assert(told(later).drop_last() =~= told(before));
        assert(later + acts.skip(k) =~= all);
        lemma_image_read_back(later, addr, image, got + data, link, acts.skip(k), r);
    }
}

/// An image that was written, whatever timeouts it met, is the one written last.
proof fn lemma_written_last(image: Image, chunk: int, link: Link, acts: Seq<Act>)
    requires
        chunk > 0,
        after(writing(image, chunk, link), acts) == Dialogue::Over(Ok::<(), FlashFault>(())),
    ensures
        last_written(told(acts)) == (image.start, image.data),
{
    law_writing_ends_with_the_whole_image(image, chunk, link, acts);
    let (c, from) = choose|c: int, from: int|
        0 < c <= chunk && 0 <= from <= told(acts).len() && #[trigger] told(acts).skip(from)
            == #[trigger] image_orders(image.start, image.data, c);
    assert(told(acts) =~= told(acts).take(from) + told(acts).skip(from));
    lemma_image_written(told(acts).take(from), image.start, image.data, c);
}

proof fn lemma_partition_as_asked(
    e: Entry,
    pac: Seq<u8>,
    opts: FlashOptions,
    acts: Seq<Act>,
    r: Result<(), FlashFault>,
)
    requires
        e.payload(pac) is Some,
        all_as_asked(acts),
        after(partition_talk(e, pac, opts), acts) == Dialogue::Over(r),
    ensures
        r is Ok,
{
    let data = e.payload(pac)->0;
    let image = stage_image(e.address, data, e.file_id);
    let chunk = at_least_one(opts.chunk as int);
    let link = usual(opts);
    let write = writing(image, chunk, link);
    let then = |_n: ()|
        if opts.verify_readback {
            verifying(e.address, data, e.file_id, link)
        } else {
            Dialogue::Over(Ok(()))
        };
    let (k, a) = lemma_held_in_parts(write, unless_failed(then), acts, r);
    let before = acts.take(k);
    let rest = acts.skip(k);
    assert(a is Ok && a->Ok_0 == ()) by {
        lemma_first_acts_as_asked(acts, k);
        lemma_writing_succeeds(image, chunk, link);
        assert(after(write, before) is Over);
    }
    assert(after(then(()), rest) == Dialogue::Over(r));
    if opts.verify_readback {
        lemma_written_last(image, chunk, link, before);
        assert(before + rest =~= acts);
        lemma_verified_as_asked(e.address, data, e.file_id, link, before, rest, r);
    } else {
        lemma_over(Ok::<(), FlashFault>(()), rest, r);
    }
}

proof fn lemma_partition_succeeds(e: Entry, pac: Seq<u8>, opts: FlashOptions)
    requires
        e.payload(pac) is Some,
    ensures
        succeeds(partition_talk(e, pac, opts), anything()),
{
    let p = partition_talk(e, pac, opts);
    assert forall|acts: Seq<Act>| all_as_asked(acts) && (#[trigger] after(p, acts)) is Over implies (
    after(p, acts)->Over_0 matches Ok(a) && anything::<()>()(a)) by {
        lemma_partition_as_asked(e, pac, opts, acts, after(p, acts)->Over_0);
    }
}

proof fn lemma_verified_as_asked(
    addr: u32,
    data: Seq<u8>,
    file_id: Seq<char>,
    link: Link,
    before: Seq<Act>,
    acts: Seq<Act>,
    r: Result<(), FlashFault>,
)
    requires
        all_as_asked(before + acts),
        last_written(told(before)) == (start_of(addr, data), data),
        after(verifying(addr, data, file_id, link), acts) == Dialogue::Over(r),
    ensures
        r is Ok,
{
    let read = reading(addr, data.len(), READBACK_CHUNK as nat, Seq::empty(), link);
    let note = note(file_id, data.len() as int, data.len() as int);
    lemma_held_in_parts_whatever_follows::<Result<Seq<u8>, FlashFault>, Result<(), FlashFault>>(
        read,
        acts,
        r,
    );
    let (k, a) = choose|k: int, a: Result<Seq<u8>, FlashFault>| #[trigger]
        ends_at(read, acts, k, a) && after(
            match a {
                Ok(back) => if back == data {
                    note.talk()
                } else {
                    Dialogue::Over(Err(FlashFault::VerifyMismatch(file_id)))
                },
                Err(e) => Dialogue::Over(Err(e)),
            },
            acts.skip(k),
        ) == Dialogue::Over(r);
    let all = before + acts;
    let at = before.len() as int;
    lemma_first_acts_as_asked(all, at + k);
    assert(all.take(at + k) =~= before + acts.take(k));
    assert(data.take(0) =~= Seq::<u8>::empty());
    lemma_image_read_back(before, addr, data, Seq::empty(), link, acts.take(k), a);
    lemma_last_acts_as_asked(all, at + k);
    assert(all.skip(at + k) =~= acts.skip(k));
    lemma_task_succeeds(note);
    assert(after(note.talk(), acts.skip(k)) is Over);
}

/// Whether the file holds the payload of everything that a run writes.
pub open spec fn payloads_held(plan: Plan, pac: Seq<u8>, opts: FlashOptions) -> bool {
    &&& plan.fdl1.payload(pac) is Some
    &&& plan.fdl2 matches Some(e) ==> e.payload(pac) is Some
    &&& forall|i: int|
        0 <= i < plan.partitions.len() ==> (#[trigger] plan.partitions[i]).payload(pac) is Some
    &&& opts.format ==> forall|i: int|
        0 <= i < plan.data_markers.len() ==> (#[trigger] plan.data_markers[i]).payload(pac) is Some
}

proof fn lemma_reset_succeeds(opts: FlashOptions)
    ensures
        succeeds(reset_talk(opts), anything()),
{
    let talks: Seq<Talk<()>> = if opts.reset {
        seq![
            tell(cmd::NORMAL_RESET, Seq::empty(), sum()),
            Task::Just(Step::Hold { millis: opts.reset_hold_ms }).talk(),
        ]
    } else {
        Seq::empty()
    };
    lemma_step_succeeds(
        Step::Tell { cmd: cmd::NORMAL_RESET, data: Seq::empty(), checksum: sum() },
        |u: Upset| bsl_fault(u),
    );
    lemma_task_succeeds(Task::Just(Step::Hold { millis: opts.reset_hold_ms }));
    lemma_turns_succeed(talks);
}

proof fn lemma_writing_talk_succeeds(plan: Plan, pac: Seq<u8>, opts: FlashOptions)
    requires
        payloads_held(plan, pac, opts),
    ensures
        succeeds(writing_talk(plan, pac, opts), anything()),
{
    let parts = partition_talks(plan, pac, opts);
    let erases = erase_talks(plan, opts);
    let markers = marker_talks(plan, pac, opts);
    assert forall|i: int| 0 <= i < parts.len() implies succeeds(#[trigger] parts[i], anything()) by {
        assert(plan.partitions[i].payload(pac) is Some);
        lemma_partition_succeeds(plan.partitions[i], pac, opts);
    }
    lemma_turns_succeed(parts);
    assert forall|i: int| 0 <= i < erases.len() implies succeeds(
        #[trigger] erases[i],
        anything(),
    ) by {
        let op = plan.erases[i];
        lemma_task_succeeds(
            acked(
                cmd::ERASE_FLASH,
                crate::bytes::be32_bytes(op.address) + op.param,
                usual(opts),
                "ERASE"@,
            ),
        );
        assert(erases[i] == erase_talk(op, opts));
    }
    lemma_turns_succeed(erases);
    if opts.format {
        assert forall|i: int| 0 <= i < markers.len() implies succeeds(
            #[trigger] markers[i],
            anything(),
        ) by {
            let e = plan.data_markers[i];
            assert(e.payload(pac) is Some);
            lemma_writing_succeeds(
                marker_image(e, e.payload(pac)->0),
                at_least_one(opts.chunk as int),
                usual(opts),
            );
            assert(markers[i] == marker_talk(e, pac, opts));
        }
        lemma_turns_succeed(markers);
    }
    lemma_reset_succeeds(opts);
    lemma_turns_succeed(
        seq![in_turn(parts)] + if opts.format {
            seq![in_turn(erases), in_turn(markers)]
        } else {
            Seq::empty()
        } + seq![reset_talk(opts)],
    );
}

/// A flash run in which every step has the outcome that it asks for succeeds, with the
/// count of all the bytes there were to write: it does if what is sent goes through, every
/// reply comes in time and is of the type asked for, the device's first frame is its
/// version, and what is read back is what was written.
pub proof fn law_answered_run_succeeds(
    plan: Plan,
    pac: Seq<u8>,
    opts: FlashOptions,
    acts: Seq<Act>,
    r: Result<Flashed, FlashFault>,
)
    requires
        payloads_held(plan, pac, opts),
        all_as_asked(acts),
        after(flash_talk(plan, pac, opts), acts) == Dialogue::Over(r),
    ensures
        r matches Ok(flashed) && flashed.bytes_written == bytes_to_write(plan, opts),
{
    let counted = |f: Flashed| f.bytes_written == bytes_to_write(plan, opts);
    lemma_bring_up_succeeds(plan, pac, opts);
    lemma_writing_talk_succeeds(plan, pac, opts);
    lemma_whatever_follows_succeeds::<(), Flashed>(
        writing_talk(plan, pac, opts),
        anything(),
        counted,
    );
    lemma_whatever_follows_succeeds::<Seq<char>, Flashed>(
        bring_up_talk(plan, pac, opts),
        anything(),
        counted,
    );
    assert(succeeds(flash_talk(plan, pac, opts), counted));
}

proof fn lemma_first_is_one_of_them(entries: Seq<Entry>, role: Role)
    ensures
        first_with(entries, role) matches Some(e) ==> role_of(e) == role && entries.contains(e),
    decreases entries.len(),
{
    if entries.len() > 0 && role_of(entries[0]) != role {
        lemma_first_is_one_of_them(entries.skip(1), role);
        if first_with(entries, role) is Some {
            let rest = entries.skip(1);
            let i = choose|i: int| 0 <= i < rest.len() && rest[i] == first_with(entries, role)->0;
            assert(entries[i + 1] == rest[i]);
        }
    }
}

proof fn lemma_kept_is_one_of_them(entries: Seq<Entry>, keep: spec_fn(Entry) -> bool)
    ensures
        forall|i: int|
            0 <= i < entries.filter(keep).len() ==> keep(#[trigger] entries.filter(keep)[i])
                && entries.contains(entries.filter(keep)[i]),
    decreases entries.len(),
{
    reveal(Seq::filter);
    if entries.len() > 0 {
        let before = entries.drop_last();
        lemma_kept_is_one_of_them(before, keep);
        assert forall|i: int| 0 <= i < entries.filter(keep).len() implies keep(
            #[trigger] entries.filter(keep)[i],
        ) && entries.contains(entries.filter(keep)[i]) by {
            let e = entries.filter(keep)[i];
            if i < before.filter(keep).len() {
                assert(e == before.filter(keep)[i]);
                let j = choose|j: int| 0 <= j < before.len() && before[j] == e;
                assert(entries[j] == e);
            } else {
                assert(e == entries[entries.len() - 1]);
            }
        }
    }
}

/// A file that parses holds the payload of everything that its plan has a run write.
pub proof fn law_parsed_file_holds_its_payloads(
    pac: Seq<u8>,
    verify_payload: bool,
    plan: Plan,
    opts: FlashOptions,
)
    requires
        pac::parsed(pac, verify_payload) is Ok,
        planned((pac::parsed(pac, verify_payload)->Ok_0).entries) == Some(plan),
    ensures
        payloads_held(plan, pac, opts),
{
    let entries = (pac::parsed(pac, verify_payload)->Ok_0).entries;
    assert forall|e: Entry| #[trigger] entries.contains(e) && e.size != 0 implies e.payload(
        pac,
    ) is Some by {
        let i = choose|i: int| 0 <= i < entries.len() && entries[i] == e;
        law_payloads_lie_in_the_file(pac, verify_payload, i);
    }
    lemma_first_is_one_of_them(entries, Role::Fdl1);
    lemma_first_is_one_of_them(entries, Role::Fdl2);
    lemma_kept_is_one_of_them(entries, |e: Entry| role_of(e) == Role::Flash);
    lemma_kept_is_one_of_them(entries, |e: Entry| is_data_marker(e));
}

} // verus!
