//! The course of a run: what is said to the device, in what order.

use vstd::prelude::*;

use crate::bsl::{cmd, parsed, unescaped};
use crate::bytes::be32_bytes;
use crate::flash::bsl_io::{
    acked, at_least_one, connect_task, image_tasks, least, midst_tasks, note, reading, stage_names,
    start_of, ImageNames,
};
use crate::flash::dialogue::{
    after, all_of, and_then, bsl_fault, command, in_turn, order, packet, pdl_fault, pdl_step,
    step_alone, tell, unless_failed, Act, Dialogue, Link, Step, Talk, Task, Upset,
};
use crate::flash::fault::FlashFault;
use crate::flash::heard::{
    cuts_up, law_command_wants_its_reply, law_read_gives_what_was_sent, lemma_second_part, read_out,
    stretch,
};
use crate::flash::laws::{
    ends_at, image_orders, joined, law_pieces_make_the_whole, lemma_held_in_parts,
    lemma_held_in_parts_whatever_follows, lemma_one_step, lemma_over, midst_orders, pieces,
};
use crate::flash::options::FlashOptions;
use crate::flash::pdl_io::{executing, load_tasks, pdl_connect_task, rousing};
use crate::flash::procedure::{
    baud_talks, bring_up_talk, bytes_to_write, erase_talk, erase_talks, fdl1_talk, fdl2_phase,
    fdl2_talks, flash_talk, marker_image, marker_talk, marker_talks, partition_talk,
    partition_talks, patient, reset_talk, smaller_chunk, stage_image, sum, timed_out, usual,
    verifying, version_in, writing, writing_talk, Flashed, Image, FDL_LOAD_CHUNK,
    MIN_ADAPTIVE_CHUNK, READBACK_CHUNK,
};
use crate::flash::sent::{
    big, block_count, is_packet, law_image_is_loaded_whole, law_pdl_connect_is_one_message,
    law_start_is_one_message, lemma_packets_split, loads, packets,
};
use crate::pac::Entry;
use crate::plan::{low32, names_nv, nv_fixed, nv_start_of, Erase, Plan};
use crate::text::{trimmed, utf8_lossy};

verus! {

/// Something that is said to a device in the BSL phase, or done to the line.
pub enum Said {
    /// A message with a type and data was sent.
    Message(u16, Seq<u8>),
    /// The baud rate of the line was changed.
    Rate(u32),
    /// Buffered input was thrown away.
    Purge,
    /// The line was flushed and held for so many milliseconds.
    Hold(u64),
}

/// What a step says.
pub open spec fn said_by(step: Step) -> Seq<Said> {
    match step {
        Step::Tell { cmd, data, .. } => seq![Said::Message(cmd, data)],
        Step::Rate { baud } => seq![Said::Rate(baud)],
        Step::Purge => seq![Said::Purge],
        Step::Hold { millis } => seq![Said::Hold(millis)],
        _ => Seq::empty(),
    }
}

/// What was said in some acts, in its order.
pub open spec fn said(acts: Seq<Act>) -> Seq<Said>
    decreases acts.len(),
{
    if acts.len() == 0 {
        Seq::empty()
    } else {
        said(acts.drop_last()) + said_by(acts.last().step)
    }
}

/// Some messages, as they are said.
pub open spec fn messages(orders: Seq<(u16, Seq<u8>)>) -> Seq<Said> {
    orders.map_values(|m: (u16, Seq<u8>)| Said::Message(m.0, m.1))
}

proof fn lemma_said_concat(a: Seq<Act>, b: Seq<Act>)
    ensures
        said(a + b) == said(a) + said(b),
    decreases b.len(),
{
    if b.len() == 0 {
        assert(a + b =~= a);
        assert(said(a) + Seq::<Said>::empty() =~= said(a));
    } else {
        assert((a + b).drop_last() =~= a + b.drop_last());
        lemma_said_concat(a, b.drop_last());
        assert(said(a + b) =~= said(a) + said(b));
    }
}

proof fn lemma_said_split(acts: Seq<Act>, k: int)
    requires
        0 <= k <= acts.len(),
    ensures
        said(acts) == said(acts.take(k)) + said(acts.skip(k)),
{
    assert(acts =~= acts.take(k) + acts.skip(k));
    lemma_said_concat(acts.take(k), acts.skip(k));
}

proof fn lemma_said_one(act: Act)
    ensures
        said(seq![act]) == said_by(act.step),
{
    reveal_with_fuel(said, 2);
    assert(seq![act].drop_last() =~= Seq::<Act>::empty());
    assert(Seq::<Said>::empty() + said_by(act.step) =~= said_by(act.step));
}

proof fn lemma_said_by_step<R>(
    step: Step,
    go_on: spec_fn(crate::flash::dialogue::Outcome) -> Box<Dialogue<R>>,
    acts: Seq<Act>,
    r: R,
)
    requires
        after(Dialogue::Next(step, go_on), acts) == Dialogue::Over(r),
        forall|o: crate::flash::dialogue::Outcome| *#[trigger] go_on(o) is Over,
    ensures
        acts.len() == 1,
        said(acts) == said_by(step),
{
    lemma_one_step(step, go_on, acts, r);
    assert(acts =~= seq![acts[0]]);
    lemma_said_one(acts[0]);
}

proof fn lemma_said_alone(
    step: Step,
    fault: spec_fn(Upset) -> FlashFault,
    acts: Seq<Act>,
    r: Result<(), FlashFault>,
)
    requires
        after(step_alone(step, fault), acts) == Dialogue::Over(r),
    ensures
        acts.len() == 1,
        said(acts) == said_by(step),
{
    match step_alone(step, fault) {
        Dialogue::Next(s, go_on) => {
            lemma_said_by_step(s, go_on, acts, r);
        },
        _ => {},
    }
}

proof fn lemma_said_by_order(
    cmd: u16,
    data: Seq<u8>,
    link: Link,
    expect: u16,
    what: Seq<char>,
    acts: Seq<Act>,
    r: Result<(), FlashFault>,
)
    requires
        after(order(cmd, data, link, expect, what), acts) == Dialogue::Over(r),
    ensures
        said(acts) == seq![Said::Message(cmd, data)],
{
    let f = unless_failed(|_d: Seq<u8>| Dialogue::<Result<(), FlashFault>>::Over(Ok(())));
    let (k, a) = lemma_held_in_parts(command(cmd, data, link, expect, what), f, acts, r);
    lemma_over(f(a)->Over_0, acts.skip(k), r);
    assert(acts.take(k) =~= acts);
    law_command_wants_its_reply(cmd, data, link, expect, what, acts, a);
    if acts.len() == 2 {
        assert(acts =~= seq![acts[0]] + seq![acts[1]]);
        lemma_said_concat(seq![acts[0]], seq![acts[1]]);
        lemma_said_one(acts[1]);
    } else {
        assert(acts =~= seq![acts[0]]);
    }
    lemma_said_one(acts[0]);
    assert(said(acts) =~= seq![Said::Message(cmd, data)]);
}

proof fn lemma_said_by_packet(
    payload: Seq<u8>,
    timeout_ms: u64,
    acts: Seq<Act>,
    r: Result<(), FlashFault>,
)
    requires
        after(packet(payload, timeout_ms), acts) == Dialogue::Over(r),
    ensures
        said(acts) == Seq::<Said>::empty(),
{
    let f = unless_failed(|_n: ()| pdl_step(Step::Await { timeout_ms }));
    let fault = |u: Upset| pdl_fault(u);
    let (k, a) = lemma_held_in_parts(pdl_step(Step::Packet { payload }), f, acts, r);
    lemma_said_split(acts, k);
    lemma_said_alone(Step::Packet { payload }, fault, acts.take(k), a);
    match a {
        Ok(_) => {
            lemma_said_alone(Step::Await { timeout_ms }, fault, acts.skip(k), r);
        },
        Err(e) => {
            lemma_over(Err::<(), FlashFault>(e), acts.skip(k), r);
        },
    }
    assert(said(acts) =~= Seq::<Said>::empty());
}

/// What a task says.
spec fn task_says(t: Task) -> Seq<Said> {
    match t {
        Task::Packet { .. } => Seq::empty(),
        Task::Command { cmd, data, .. } => seq![Said::Message(cmd, data)],
        Task::Just(step) => said_by(step),
    }
}

/// What some tasks say.
spec fn tasks_say(tasks: Seq<Task>) -> Seq<Said>
    decreases tasks.len(),
{
    if tasks.len() == 0 {
        Seq::empty()
    } else {
        task_says(tasks[0]) + tasks_say(tasks.skip(1))
    }
}

proof fn lemma_said_by_task(t: Task, acts: Seq<Act>, r: Result<(), FlashFault>)
    requires
        after(t.talk(), acts) == Dialogue::Over(r),
    ensures
        said(acts) == task_says(t),
{
    match t {
        Task::Packet { payload, timeout_ms } => {
            lemma_said_by_packet(payload, timeout_ms, acts, r);
        },
        Task::Command { cmd, data, link, expect, what } => {
            lemma_said_by_order(cmd, data, link, expect, what, acts, r);
        },
        Task::Just(step) => {
            lemma_said_alone(step, |u: Upset| bsl_fault(u), acts, r);
        },
    }
}

/// Whether some things said are the first of others.
pub open spec fn first_of(part: Seq<Said>, whole: Seq<Said>) -> bool {
    part.len() <= whole.len() && part == whole.take(part.len() as int)
}

proof fn lemma_said_by_tasks(tasks: Seq<Task>, acts: Seq<Act>, r: Result<(), FlashFault>)
    requires
        after(all_of(tasks), acts) == Dialogue::Over(r),
    ensures
        first_of(said(acts), tasks_say(tasks)),
        r is Ok ==> said(acts) == tasks_say(tasks),
    decreases tasks.len(),
{
    if tasks.len() == 0 {
        lemma_over(Ok::<(), FlashFault>(()), acts, r);
        assert(said(acts) =~= tasks_say(tasks).take(0));
        assert(said(acts) =~= tasks_say(tasks));
    } else {
        let rest = tasks.skip(1);
        let f = unless_failed(|_n: ()| all_of(rest));
        let (k, a) = lemma_held_in_parts(tasks[0].talk(), f, acts, r);
        lemma_said_split(acts, k);
        lemma_said_by_task(tasks[0], acts.take(k), a);
        match a {
            Ok(_) => {
                lemma_said_by_tasks(rest, acts.skip(k), r);
            },
            Err(e) => {
                lemma_over(Err::<(), FlashFault>(e), acts.skip(k), r);
            },
        }
        assert(said(acts) =~= tasks_say(tasks).take(said(acts).len() as int));
        if r is Ok {
            assert(said(acts) =~= tasks_say(tasks));
        }
    }
}

proof fn lemma_tasks_say_concat(a: Seq<Task>, b: Seq<Task>)
    ensures
        tasks_say(a + b) == tasks_say(a) + tasks_say(b),
    decreases a.len(),
{
    if a.len() == 0 {
        assert(a + b =~= b);
        assert(tasks_say(a) + tasks_say(b) =~= tasks_say(b));
    } else {
        assert((a + b).skip(1) =~= a.skip(1) + b);
        lemma_tasks_say_concat(a.skip(1), b);
        assert(tasks_say(a + b) =~= tasks_say(a) + tasks_say(b));
    }
}

proof fn lemma_tasks_say_one(t: Task)
    ensures
        tasks_say(seq![t]) == task_says(t),
{
    reveal_with_fuel(tasks_say, 2);
    assert(seq![t].skip(1) =~= Seq::<Task>::empty());
    assert(task_says(t) + Seq::<Said>::empty() =~= task_says(t));
}

// ---------------------------------------------------------------------------
// Images
// ---------------------------------------------------------------------------

/// Whether some messages write an image of `data` that begins with `start`: one of type 1
/// with the start; then the data, in pieces of `chunk` bytes (the last may be shorter), each
/// in a message of type 2; and at the end one of type 3 without data.
pub open spec fn writes(m: Seq<Said>, start: Seq<u8>, data: Seq<u8>, chunk: int) -> bool {
    &&& m.len() >= 2
    &&& m[0] == Said::Message(1, start)
    &&& m.last() == Said::Message(3, Seq::empty())
    &&& (m.len() - 3) * chunk < data.len() <= (m.len() - 2) * chunk
    &&& forall|i: int|
        1 <= i < m.len() - 1 ==> #[trigger] m[i] == Said::Message(
            2,
            data.subrange((i - 1) * chunk, least(i * chunk, data.len() as int)),
        )
}

proof fn lemma_pieces_at(data: Seq<u8>, off: int, chunk: int)
    requires
        0 <= off <= data.len(),
        chunk > 0,
    ensures
        forall|k: int|
            0 <= k < pieces(data, off, chunk).len() ==> #[trigger] pieces(data, off, chunk)[k]
                == data.subrange(off + k * chunk, least(off + (k + 1) * chunk, data.len() as int)),
        (pieces(data, off, chunk).len() - 1) * chunk < data.len() - off <= pieces(
            data,
            off,
            chunk,
        ).len() * chunk,
    decreases data.len() - off,
{
    let all = pieces(data, off, chunk);
    if off < data.len() {
        let end = least(off + chunk, data.len() as int);
        let rest = pieces(data, end, chunk);
        lemma_pieces_at(data, end, chunk);
        assert(all =~= seq![data.subrange(off, end)] + rest);
        assert forall|k: int| 0 <= k < all.len() implies #[trigger] all[k] == data.subrange(
            off + k * chunk,
            least(off + (k + 1) * chunk, data.len() as int),
        ) by {
            if k > 0 {
                assert(all[k] == rest[k - 1]);
                assert(rest.len() > 0);
                assert(end == off + chunk);
                assert(end + (k - 1) * chunk == off + k * chunk) by (nonlinear_arith)
                    requires
                        end == off + chunk,
                ;
                assert(end + ((k - 1) + 1) * chunk == off + (k + 1) * chunk) by (nonlinear_arith)
                    requires
                        end == off + chunk,
                ;
            } else {
                assert(0 * chunk == 0 && (0 + 1) * chunk == chunk) by (nonlinear_arith);
            }
        }
        let n = all.len() as int;
        assert(rest.len() == n - 1);
        assert((n - 1 - 1) * chunk + chunk == (n - 1) * chunk) by (nonlinear_arith);
        assert((n - 1) * chunk + chunk == n * chunk) by (nonlinear_arith);
        if end < off + chunk {
            assert(rest.len() == 0);
            assert((1 - 1) * chunk == 0 && 1 * chunk == chunk) by (nonlinear_arith);
        }
    } else {
        assert(all.len() == 0);
        assert((0 - 1) * chunk < 0 && 0 * chunk == 0) by (nonlinear_arith)
            requires
                chunk > 0,
        ;
    }
}

/// The messages that write an image are those that should.
pub proof fn law_image_orders_write_the_image(start: Seq<u8>, data: Seq<u8>, chunk: int)
    requires
        chunk > 0,
    ensures
        writes(messages(image_orders(start, data, chunk)), start, data, chunk),
        joined(pieces(data, 0, chunk)) == data,
{
    let parts = pieces(data, 0, chunk);
    let m = messages(image_orders(start, data, chunk));
    lemma_pieces_at(data, 0, chunk);
    law_pieces_make_the_whole(data, 0, chunk);
    assert(data.skip(0) =~= data);
    assert forall|i: int| 1 <= i < m.len() - 1 implies #[trigger] m[i] == Said::Message(
        2,
        data.subrange((i - 1) * chunk, least(i * chunk, data.len() as int)),
    ) by {
        assert(image_orders(start, data, chunk)[i] == midst_orders(parts)[i - 1]);
        assert(midst_orders(parts)[i - 1].1 == parts[i - 1]);
        assert((i - 1) + 1 == i);
    }
    assert(m.len() == parts.len() + 2);
}

proof fn lemma_midst_says(
    data: Seq<u8>,
    off: int,
    chunk: int,
    link: Link,
    what: Seq<char>,
    label: Seq<char>,
)
    ensures
        tasks_say(midst_tasks(data, off, chunk, link, what, label)) == messages(
            midst_orders(pieces(data, off, chunk)),
        ),
    decreases data.len() - off,
{
    let tasks = midst_tasks(data, off, chunk, link, what, label);
    let all = messages(midst_orders(pieces(data, off, chunk)));
    if off >= data.len() || chunk <= 0 {
        assert(tasks_say(tasks) =~= all);
    } else {
        let end = least(off + chunk, data.len() as int);
        let rest = midst_tasks(data, end, chunk, link, what, label);
        lemma_midst_says(data, end, chunk, link, what, label);
        assert(tasks.skip(1).skip(1) =~= rest);
        assert(tasks.skip(1)[0] == note(label, end, data.len() as int));
        assert(tasks_say(tasks.skip(1)) =~= tasks_say(rest));
        assert(tasks_say(tasks) =~= seq![Said::Message(cmd::MIDST_DATA, data.subrange(off, end))]
            + tasks_say(rest));
        assert(all =~= seq![Said::Message(cmd::MIDST_DATA, data.subrange(off, end))] + messages(
            midst_orders(pieces(data, end, chunk)),
        ));
    }
}

proof fn lemma_image_says(
    start: Seq<u8>,
    data: Seq<u8>,
    chunk: int,
    link: Link,
    names: ImageNames,
    label: Seq<char>,
)
    ensures
        tasks_say(image_tasks(start, data, chunk, link, names, label)) == messages(
            image_orders(start, data, chunk),
        ),
{
    let first = acked(cmd::START_DATA, start, link, names.start@);
    let midst = midst_tasks(data, 0, chunk, link, names.midst@, label);
    let last = acked(cmd::END_DATA, Seq::empty(), link, names.end@);
    lemma_tasks_say_concat(seq![first] + midst, seq![last]);
    lemma_tasks_say_concat(seq![first], midst);
    lemma_tasks_say_one(first);
    lemma_tasks_say_one(last);
    lemma_midst_says(data, 0, chunk, link, names.midst@, label);
    assert(tasks_say(image_tasks(start, data, chunk, link, names, label)) =~= messages(
        image_orders(start, data, chunk),
    ));
}

/// Whether an image was written, in some acts, in one or more attempts: the first with
/// pieces of `chunk` bytes, each other one with half of those of the one before it, but no
/// fewer than 512. Each attempt but the last breaks off; then what has come in is thrown
/// away and the device is connected to anew (a message of type 0), and all of the image is
/// written again. The last one writes it whole. None breaks off, to be made again, that has
/// pieces of 512 bytes or fewer.
pub open spec fn written(acts: Seq<Act>, start: Seq<u8>, data: Seq<u8>, chunk: int) -> bool {
    exists|chunks: Seq<int>, cuts: Seq<int>| #[trigger]
        cuts_up(cuts, chunks.len(), acts.len()) && #[trigger] falls(chunks, chunk) && forall|
            i: int,
        |
            0 <= i < chunks.len() ==> attempted(
                said(stretch(acts, cuts, i)),
                start,
                data,
                #[trigger] chunks[i],
                i + 1 == chunks.len(),
            )
}

/// Whether some sizes begin with `chunk` and each one is half of the one before it, but
/// no less than 512; all but the last are above 512.
pub open spec fn falls(chunks: Seq<int>, chunk: int) -> bool {
    &&& chunks.len() > 0
    &&& chunks[0] == chunk
    &&& forall|i: int| 0 <= i < chunks.len() - 1 ==> #[trigger] halved(chunks, i)
}

/// Whether the `i`-th of some sizes is above 512, and the next one is half of it, but no
/// less than 512.
pub open spec fn halved(chunks: Seq<int>, i: int) -> bool {
    chunks[i] > 512 && chunks[i + 1] == if chunks[i] / 2 < 512 {
        512
    } else {
        chunks[i] / 2
    }
}

/// Whether an attempt to write an image said this: if it was the last, all messages of the
/// image; else the first of them, and then what it takes to begin anew.
pub open spec fn attempted(
    m: Seq<Said>,
    start: Seq<u8>,
    data: Seq<u8>,
    chunk: int,
    last: bool,
) -> bool {
    if last {
        writes(m, start, data, chunk)
    } else {
        exists|whole: Seq<Said>, n: int|
            0 <= n <= whole.len() && writes(whole, start, data, chunk) && m == #[trigger] whole.take(
                n,
            ) + seq![Said::Purge, Said::Message(0, Seq::empty())]
    }
}

/// One more attempt before others.
proof fn lemma_attempt_before(
    first: Seq<Act>,
    later: Seq<Act>,
    start: Seq<u8>,
    data: Seq<u8>,
    chunk: int,
)
    requires
        chunk > 512,
        attempted(said(first), start, data, chunk, false),
        written(
            later,
            start,
            data,
            if chunk / 2 < 512 {
                512
            } else {
                chunk / 2
            },
        ),
    ensures
        written(first + later, start, data, chunk),
{
    let half = if chunk / 2 < 512 {
        512
    } else {
        chunk / 2
    };
    let (chunks2, cuts2) = choose|chunks: Seq<int>, cuts: Seq<int>| #[trigger]
        cuts_up(cuts, chunks.len(), later.len()) && #[trigger] falls(chunks, half) && forall|i: int|
            0 <= i < chunks.len() ==> attempted(
                said(stretch(later, cuts, i)),
                start,
                data,
                #[trigger] chunks[i],
                i + 1 == chunks.len(),
            );
    let acts = first + later;
    let chunks = seq![chunk] + chunks2;
    let cuts = seq![0int] + cuts2.map_values(|c: int| c + first.len());
    assert(cuts_up(cuts, chunks.len(), acts.len()));
    assert(falls(chunks, chunk)) by {
        assert forall|i: int| 0 <= i < chunks.len() - 1 implies #[trigger] halved(chunks, i) by {
            if i > 0 {
                assert(halved(chunks2, i - 1));
            }
        }
    }
    assert forall|i: int| 0 <= i < chunks.len() implies attempted(
        said(stretch(acts, cuts, i)),
        start,
        data,
        #[trigger] chunks[i],
        i + 1 == chunks.len(),
    ) by {
        if i == 0 {
            assert(stretch(acts, cuts, 0) =~= first);
        } else {
            assert(chunks[i] == chunks2[i - 1]);
            assert(stretch(acts, cuts, i) =~= stretch(later, cuts2, i - 1));
        }
    }
}

proof fn lemma_written(image: Image, chunk: int, link: Link, acts: Seq<Act>)
    requires
        chunk > 0,
        after(writing(image, chunk, link), acts) == Dialogue::Over(Ok::<(), FlashFault>(())),
    ensures
        written(acts, image.start, image.data, chunk),
    decreases chunk,
{
    let done = Ok::<(), FlashFault>(());
    let tasks = image.tasks(chunk, link);
    lemma_held_in_parts_whatever_follows::<Result<(), FlashFault>, Result<(), FlashFault>>(
        all_of(tasks),
        acts,
        done,
    );
    let (k, a) = choose|k: int, a: Result<(), FlashFault>| #[trigger]
        ends_at(all_of(tasks), acts, k, a) && after(
            if (a matches Err(e) && timed_out(e)) && chunk > MIN_ADAPTIVE_CHUNK {
                and_then(
                    Task::Just(Step::Purge).talk(),
                    |_n: ()|
                        and_then(
                            connect_task(link).talk(),
                            |_n: ()| writing(image, smaller_chunk(chunk), link),
                        ),
                )
            } else {
                Dialogue::Over(a)
            },
            acts.skip(k),
        ) == Dialogue::Over(done);
    lemma_said_by_tasks(tasks, acts.take(k), a);
    lemma_image_says(image.start, image.data, chunk, link, image.names, image.label);
    law_image_orders_write_the_image(image.start, image.data, chunk);
    let whole = messages(image_orders(image.start, image.data, chunk));
    if (a matches Err(e) && timed_out(e)) && chunk > MIN_ADAPTIVE_CHUNK {
        let rest = acts.skip(k);
        lemma_held_in_parts_whatever_follows::<Result<(), FlashFault>, Result<(), FlashFault>>(
            Task::Just(Step::Purge).talk(),
            rest,
            done,
        );
        let (k2, a2) = choose|k2: int, a2: Result<(), FlashFault>| #[trigger]
            ends_at(Task::Just(Step::Purge).talk(), rest, k2, a2) && after(
                match a2 {
                    Ok(_) => and_then(
                        connect_task(link).talk(),
                        |_n: ()| writing(image, smaller_chunk(chunk), link),
                    ),
                    Err(e) => Dialogue::Over(Err(e)),
                },
                rest.skip(k2),
            ) == Dialogue::Over(done);
        if let Err(e) = a2 {
            lemma_over(Err::<(), FlashFault>(e), rest.skip(k2), done);
        }
        let last = rest.skip(k2);
        lemma_held_in_parts_whatever_follows::<Result<(), FlashFault>, Result<(), FlashFault>>(
            connect_task(link).talk(),
            last,
            done,
        );
        let (k3, a3) = choose|k3: int, a3: Result<(), FlashFault>| #[trigger]
            ends_at(connect_task(link).talk(), last, k3, a3) && after(
                match a3 {
                    Ok(_) => writing(image, smaller_chunk(chunk), link),
                    Err(e) => Dialogue::Over(Err(e)),
                },
                last.skip(k3),
            ) == Dialogue::Over(done);
        if let Err(e) = a3 {
            lemma_over(Err::<(), FlashFault>(e), last.skip(k3), done);
        }
        let later = last.skip(k3);
        lemma_written(image, smaller_chunk(chunk), link, later);
        lemma_said_by_task(Task::Just(Step::Purge), rest.take(k2), a2);
        lemma_said_by_task(connect_task(link), last.take(k3), a3);
        let first = acts.take(k + k2 + k3);
        assert(first =~= acts.take(k) + rest.take(k2) + last.take(k3));
        lemma_said_concat(acts.take(k) + rest.take(k2), last.take(k3));
        lemma_said_concat(acts.take(k), rest.take(k2));
        let n = said(acts.take(k)).len() as int;
        assert(said(first) =~= whole.take(n) + seq![Said::Purge, Said::Message(0, Seq::empty())]);
        assert(attempted(said(first), image.start, image.data, chunk, false));
        assert(acts =~= first + later);
        lemma_attempt_before(first, later, image.start, image.data, chunk);
    } else {
        lemma_over(a, acts.skip(k), done);
        assert(acts.take(k) =~= acts);
        let chunks = seq![chunk];
        let cuts = seq![0int, acts.len() as int];
        assert(cuts_up(cuts, 1, acts.len()));
        assert(falls(chunks, chunk));
        assert(stretch(acts, cuts, 0) =~= acts);
    }
}

/// Writing an image that succeeds has written it whole, if need be in several attempts
/// with ever smaller pieces.
pub proof fn law_image_is_written(image: Image, chunk: int, link: Link, acts: Seq<Act>)
    requires
        chunk > 0,
        after(writing(image, chunk, link), acts) == Dialogue::Over(Ok::<(), FlashFault>(())),
    ensures
        written(acts, image.start, image.data, chunk),
{
    lemma_written(image, chunk, link, acts);
}

/// What an image of a partition begins with: its address and its length, in big-endian
/// fields of 32 bits.
#[verifier::rlimit(30)]
pub proof fn law_image_start_fields(addr: u32, data: Seq<u8>)
    ensures
        start_of(addr, data).len() == 8,
        big(start_of(addr, data), 0) == addr,
        big(start_of(addr, data), 4) == data.len() as int % 0x1_0000_0000,
{
    let a = be32_bytes(addr);
    let b = be32_bytes(low32(data.len()));
    let p = a + b;
    assert(p[0] == a[0] && p[1] == a[1] && p[2] == a[2] && p[3] == a[3]);
    assert(p[4] == b[0] && p[5] == b[1] && p[6] == b[2] && p[7] == b[3]);
}

// ---------------------------------------------------------------------------
// Bringing the device up
// ---------------------------------------------------------------------------

/// Whether a frame, with the flags around it, says this version: its type is that of a
/// version (0x81), and the version is its data, decoded and without the space around it.
pub open spec fn says_version(frame: Seq<u8>, version: Seq<char>) -> bool {
    parsed(unescaped(frame.subrange(1, frame.len() - 1))) matches Ok((kind, data)) && kind == 0x81
        && version == trimmed(utf8_lossy(data))
}

/// Whether the first stage was brought up in some acts: over PDL, the device was connected
/// to, `data` was loaded at `addr` and started; and the last of the acts brought in the
/// frame that says the version.
pub open spec fn first_stage_up(
    acts: Seq<Act>,
    addr: u32,
    data: Seq<u8>,
    version: Seq<char>,
) -> bool {
    let sent = packets(acts);
    &&& sent.len() == block_count(data.len()) + 4
    &&& is_packet(sent[0], 0, 0, 0, Seq::empty())
    &&& loads(sent.subrange(1, sent.len() - 1), addr, data)
    &&& is_packet(sent.last(), 7, 0, 0, Seq::empty())
    &&& said(acts) == Seq::<Said>::empty()
    &&& acts.len() > 0
    &&& acts.last().step is Rouse
    &&& acts.last().outcome matches Ok((_, frame)) && says_version(frame, version)
}

proof fn lemma_load_says_nothing(tasks: Seq<Task>)
    requires
        forall|j: int| 0 <= j < tasks.len() ==> crate::flash::answered::is_pdl_task(
            #[trigger] tasks[j],
        ),
    ensures
        tasks_say(tasks) == Seq::<Said>::empty(),
    decreases tasks.len(),
{
    if tasks.len() > 0 {
        let rest = tasks.skip(1);
        assert(crate::flash::answered::is_pdl_task(tasks[0]));
        assert forall|j: int| 0 <= j < rest.len() implies crate::flash::answered::is_pdl_task(
            #[trigger] rest[j],
        ) by {
            assert(rest[j] == tasks[j + 1]);
        }
        lemma_load_says_nothing(rest);
        assert(tasks_say(tasks) =~= Seq::<Said>::empty());
    }
}

/// A first stage that came up was loaded with its payload at its address, and started; its
/// version is what its first frame says.
pub proof fn law_first_stage_is_loaded_and_started(
    fdl1: Entry,
    pac: Seq<u8>,
    opts: FlashOptions,
    acts: Seq<Act>,
    version: Seq<char>,
)
    requires
        after(fdl1_talk(fdl1, pac, opts), acts) == Dialogue::Over(
            Ok::<Seq<char>, FlashFault>(version),
        ),
    ensures
        fdl1.payload(pac) is Some,
        first_stage_up(acts, fdl1.address, fdl1.payload(pac)->0, version),
{
    let end = Ok::<Seq<char>, FlashFault>(version);
    if fdl1.payload(pac) is None {
        lemma_over(
            Err::<Seq<char>, FlashFault>(FlashFault::Payload(fdl1.file_id)),
            acts,
            end,
        );
    }
    let data = fdl1.payload(pac)->0;
    let connect = pdl_connect_task(opts.timeout_ms);
    let tasks = load_tasks(fdl1.address, data, "FDL1"@, opts.timeout_ms);
    let f3 = |frame: Seq<u8>|
        match version_in(frame) {
            None => crate::flash::procedure::failing::<Seq<char>>(FlashFault::Version),
            Some(version) => Dialogue::Over(Ok(version)),
        };
    let f2 = |_n: ()| and_then(executing(opts.exec_timeout_ms), f3);
    let f1 = |_n: ()| and_then(all_of(tasks), f2);
    lemma_fdl1_shape(fdl1, pac, opts);
    let (k1, u1) = lemma_second_part(connect.talk(), f1, acts, version);
    let s1 = acts.skip(k1);
    let (k2, u2) = lemma_second_part(all_of(tasks), f2, s1, version);
    let s2 = s1.skip(k2);
    let (k3, frame) = lemma_second_part(executing(opts.exec_timeout_ms), f3, s2, version);
    lemma_over(f3(frame)->Over_0, s2.skip(k3), end);
    let p1 = acts.take(k1);
    let p2 = s1.take(k2);
    let p3 = s2.take(k3);
    law_pdl_connect_is_one_message(opts.timeout_ms, p1, Ok::<(), FlashFault>(u1));
    law_image_is_loaded_whole(
        fdl1.address,
        data,
        "FDL1"@,
        opts.timeout_ms,
        p2,
        Ok::<(), FlashFault>(u2),
    );
    law_start_is_one_message(opts.exec_timeout_ms, p3, Ok::<Seq<u8>, FlashFault>(frame));
    lemma_packets_split(acts, k1);
    lemma_packets_split(s1, k2);
    assert(p3 =~= s2);
    let sent = packets(acts);
    assert(sent =~= packets(p1) + packets(p2) + packets(p3));
    assert(sent.subrange(1, sent.len() - 1) =~= packets(p2));
    lemma_said_split(acts, k1);
    lemma_said_split(s1, k2);
    lemma_said_by_task(connect, p1, Ok::<(), FlashFault>(u1));
    lemma_said_by_tasks(tasks, p2, Ok::<(), FlashFault>(u2));
    crate::flash::answered::lemma_load_is_pdl_tasks(
        fdl1.address,
        data,
        "FDL1"@,
        opts.timeout_ms,
    );
    lemma_load_says_nothing(tasks);
    assert(p3 =~= seq![p3[0]] + seq![p3[1]]);
    lemma_said_concat(seq![p3[0]], seq![p3[1]]);
    lemma_said_one(p3[0]);
    lemma_said_one(p3[1]);
    lemma_start_step(opts.exec_timeout_ms, p3, frame);
    assert(said(acts) =~= Seq::<Said>::empty());
    assert(acts.last() == p3[1]);
}

proof fn lemma_start_step(timeout_ms: u64, acts: Seq<Act>, frame: Seq<u8>)
    requires
        after(executing(timeout_ms), acts) == Dialogue::Over(Ok::<Seq<u8>, FlashFault>(frame)),
    ensures
        acts.len() > 0,
        acts[0].step is Packet,
{
    let step = Step::Packet {
        payload: crate::pdl::params_of(crate::pdl::Cmd::Exec, 0, 0, Seq::empty()),
    };
    let f = unless_failed(|_n: ()| rousing(timeout_ms));
    let (k, a) = lemma_held_in_parts(
        pdl_step(step),
        f,
        acts,
        Ok::<Seq<u8>, FlashFault>(frame),
    );
    match pdl_step(step) {
        Dialogue::Next(s, go_on) => {
            lemma_one_step(s, go_on, acts.take(k), a);
        },
        _ => {},
    }
    assert(acts[0] == acts.take(k)[0]);
}

proof fn lemma_fdl1_shape(fdl1: Entry, pac: Seq<u8>, opts: FlashOptions)
    requires
        fdl1.payload(pac) is Some,
    ensures
        fdl1_talk(fdl1, pac, opts) == and_then(
            pdl_connect_task(opts.timeout_ms).talk(),
            |_n: ()|
                and_then(
                    all_of(
                        load_tasks(
                            fdl1.address,
                            fdl1.payload(pac)->0,
                            "FDL1"@,
                            opts.timeout_ms,
                        ),
                    ),
                    |_n: ()|
                        and_then(
                            executing(opts.exec_timeout_ms),
                            |frame: Seq<u8>|
                                match version_in(frame) {
                                    None => crate::flash::procedure::failing::<Seq<char>>(
                                        FlashFault::Version,
                                    ),
                                    Some(version) => Dialogue::Over(Ok(version)),
                                },
                        ),
                ),
        ),
{
}

/// Dialogues that were all held in turn, to success: the places that cut the acts into the
/// stretches in which they were held, one after the other.
proof fn lemma_turns_cut(talks: Seq<Talk<()>>, acts: Seq<Act>) -> (cuts: Seq<int>)
    requires
        after(in_turn(talks), acts) == Dialogue::Over(Ok::<(), FlashFault>(())),
    ensures
        cuts_up(cuts, talks.len(), acts.len()),
        forall|i: int|
            0 <= i < talks.len() ==> after(#[trigger] talks[i], stretch(acts, cuts, i))
                == Dialogue::Over(Ok::<(), FlashFault>(())),
    decreases talks.len(),
{
    let done = Ok::<(), FlashFault>(());
    if talks.len() == 0 {
        lemma_over(done, acts, done);
        seq![0int]
    } else {
        let rest = talks.skip(1);
        lemma_held_in_parts_whatever_follows::<Result<(), FlashFault>, Result<(), FlashFault>>(
            talks[0],
            acts,
            done,
        );
        let (k, a) = choose|k: int, a: Result<(), FlashFault>| #[trigger]
            ends_at(talks[0], acts, k, a) && after(
                match a {
                    Ok(_) => in_turn(rest),
                    Err(e) => Dialogue::Over(Err(e)),
                },
                acts.skip(k),
            ) == Dialogue::Over(done);
        if a is Err {
            lemma_over(a, acts.skip(k), done);
        }
        assert(a->Ok_0 == ());
        let later = acts.skip(k);
        let cuts2 = lemma_turns_cut(rest, later);
        let cuts = seq![0int] + cuts2.map_values(|c: int| c + k);
        assert forall|i: int| 0 <= i < talks.len() implies after(
            #[trigger] talks[i],
            stretch(acts, cuts, i),
        ) == Dialogue::Over(done) by {
            if i == 0 {
                assert(stretch(acts, cuts, 0) =~= acts.take(k));
            } else {
                assert(rest[i - 1] == talks[i]);
                assert(stretch(acts, cuts, i) =~= stretch(later, cuts2, i - 1));
            }
        }
        cuts
    }
}

/// What dialogues say that are held in turn, if each says what it should.
proof fn lemma_turns_say(talks: Seq<Talk<()>>, says: Seq<Seq<Said>>, acts: Seq<Act>)
    requires
        after(in_turn(talks), acts) == Dialogue::Over(Ok::<(), FlashFault>(())),
        says.len() == talks.len(),
        forall|i: int, part: Seq<Act>|
            0 <= i < talks.len() && after(#[trigger] talks[i], part) == Dialogue::Over(
                Ok::<(), FlashFault>(()),
            ) ==> #[trigger] said(part) == says[i],
    ensures
        said(acts) == says.flatten(),
    decreases talks.len(),
{
    let done = Ok::<(), FlashFault>(());
    if talks.len() == 0 {
        lemma_over(done, acts, done);
        assert(says.flatten() =~= Seq::<Said>::empty());
    } else {
        let rest = talks.skip(1);
        lemma_held_in_parts_whatever_follows::<Result<(), FlashFault>, Result<(), FlashFault>>(
            talks[0],
            acts,
            done,
        );
        let (k, a) = choose|k: int, a: Result<(), FlashFault>| #[trigger]
            ends_at(talks[0], acts, k, a) && after(
                match a {
                    Ok(_) => in_turn(rest),
                    Err(e) => Dialogue::Over(Err(e)),
                },
                acts.skip(k),
            ) == Dialogue::Over(done);
        if a is Err {
            lemma_over(a, acts.skip(k), done);
        }
        assert(a->Ok_0 == ());
        assert(said(acts.take(k)) == says[0]);
        assert forall|i: int, part: Seq<Act>|
            0 <= i < rest.len() && after(#[trigger] rest[i], part) == Dialogue::Over(done) implies
            #[trigger] said(part) == says.skip(1)[i] by {
            assert(rest[i] == talks[i + 1]);
        }
        lemma_turns_say(rest, says.skip(1), acts.skip(k));
        lemma_said_split(acts, k);
        assert(says.drop_first() =~= says.skip(1));
        assert(says.flatten() == says.first() + says.drop_first().flatten());
    }
}

/// What is said to bring a connected first stage on to the second: connect; if there is a
/// second stage, its image, in pieces of 2048 bytes, a message of type 4 to start it, and
/// connect anew; if a baud rate is asked for, a message of type 9 with it, then the line
/// changes to it, and connect anew. To connect takes a message of type 0 without data.
pub open spec fn second_stage_said(
    m: Seq<Said>,
    fdl2: Option<(u32, Seq<u8>)>,
    baud: Option<u32>,
) -> bool {
    let connect = Said::Message(0, Seq::empty());
    exists|image: Seq<Said>, rate: Seq<u8>|
        #![trigger image.len(), rate.len()]
        {
            &&& m == seq![connect] + (match fdl2 {
                None => Seq::empty(),
                Some(_) => image + seq![Said::Message(4, Seq::empty()), connect],
            }) + (match baud {
                None => Seq::empty(),
                Some(b) => seq![Said::Message(9, rate), Said::Rate(b), connect],
            })
            &&& fdl2 matches Some((addr, data)) ==> exists|start: Seq<u8>|
                start.len() == 8 && big(start, 0) == addr && big(start, 4) == data.len() as int
                    % 0x1_0000_0000 && #[trigger] writes(image, start, data, 2048)
            &&& baud matches Some(b) ==> rate.len() == 4 && big(rate, 0) == b
        }
}

proof fn lemma_fdl2_talks_say(fdl2: Entry, pac: Seq<u8>, opts: FlashOptions, acts: Seq<Act>)
    requires
        after(in_turn(fdl2_talks(Some(fdl2), pac, opts)), acts) == Dialogue::Over(
            Ok::<(), FlashFault>(()),
        ),
    ensures
        fdl2.payload(pac) is Some,
        said(acts) == messages(
            image_orders(
                start_of(fdl2.address, fdl2.payload(pac)->0),
                fdl2.payload(pac)->0,
                2048,
            ),
        ) + seq![Said::Message(4, Seq::empty()), Said::Message(0, Seq::empty())],
{
    let done = Ok::<(), FlashFault>(());
    let talks = fdl2_talks(Some(fdl2), pac, opts);
    let cuts = lemma_turns_cut(talks, acts);
    match fdl2.payload(pac) {
        None => {
            assert(after(talks[0], stretch(acts, cuts, 0)) == Dialogue::Over(done));
            lemma_over(
                Err::<(), FlashFault>(FlashFault::Payload(fdl2.file_id)),
                stretch(acts, cuts, 0),
                done,
            );
        },
        Some(data) => {
            let start = start_of(fdl2.address, data);
            let tasks = image_tasks(
                start,
                data,
                FDL_LOAD_CHUNK as int,
                usual(opts),
                stage_names(),
                "FDL2"@,
            );
            let exec = acked(cmd::EXEC_DATA, Seq::empty(), patient(opts), "EXEC FDL2"@);
            let connect = connect_task(usual(opts));
            let a = stretch(acts, cuts, 0);
            let b = stretch(acts, cuts, 1);
            let c = stretch(acts, cuts, 2);
            assert(after(talks[0], a) == Dialogue::Over(done));
            assert(after(talks[1], b) == Dialogue::Over(done));
            assert(after(talks[2], c) == Dialogue::Over(done));
            lemma_said_by_tasks(tasks, a, done);
            lemma_image_says(start, data, 2048, usual(opts), stage_names(), "FDL2"@);
            lemma_said_by_task(exec, b, done);
            lemma_said_by_task(connect, c, done);
            assert(acts =~= a + b + c);
            lemma_said_concat(a + b, c);
            lemma_said_concat(a, b);
            assert(said(acts) =~= messages(image_orders(start, data, 2048)) + seq![
                Said::Message(4, Seq::empty()),
                Said::Message(0, Seq::empty()),
            ]);
        },
    }
}

proof fn lemma_baud_talks_say(opts: FlashOptions, rate: u32, acts: Seq<Act>)
    requires
        opts.baud == Some(rate),
        after(in_turn(baud_talks(opts)), acts) == Dialogue::Over(Ok::<(), FlashFault>(())),
    ensures
        said(acts) == seq![
            Said::Message(9, be32_bytes(rate)),
            Said::Rate(rate),
            Said::Message(0, Seq::empty()),
        ],
{
    let done = Ok::<(), FlashFault>(());
    let talks = baud_talks(opts);
    let cuts = lemma_turns_cut(talks, acts);
    let change = acked(cmd::CHANGE_BAUD, be32_bytes(rate), usual(opts), "CHANGE_BAUD"@);
    let a = stretch(acts, cuts, 0);
    let b = stretch(acts, cuts, 1);
    let c = stretch(acts, cuts, 2);
    assert(after(talks[0], a) == Dialogue::Over(done));
    assert(after(talks[1], b) == Dialogue::Over(done));
    assert(after(talks[2], c) == Dialogue::Over(done));
    lemma_said_by_task(change, a, done);
    lemma_said_by_task(Task::Just(Step::Rate { baud: rate }), b, done);
    lemma_said_by_task(connect_task(usual(opts)), c, done);
    assert(acts =~= a + b + c);
    lemma_said_concat(a + b, c);
    lemma_said_concat(a, b);
    assert(said(acts) =~= seq![
        Said::Message(9, be32_bytes(rate)),
        Said::Rate(rate),
        Said::Message(0, Seq::empty()),
    ]);
}

/// The address and the payload of an entry that may be there.
pub open spec fn staged(e: Option<Entry>, pac: Seq<u8>) -> Option<(u32, Seq<u8>)> {
    match e {
        None => None,
        Some(e) => Some((e.address, e.payload(pac)->0)),
    }
}

/// A second stage that came up was staged with its payload at its address, and started, and
/// the baud rate was changed if that was asked for.
pub proof fn law_second_stage_is_staged_and_started(
    fdl2: Option<Entry>,
    pac: Seq<u8>,
    opts: FlashOptions,
    acts: Seq<Act>,
)
    requires
        after(fdl2_phase(fdl2, pac, opts), acts) == Dialogue::Over(Ok::<(), FlashFault>(())),
    ensures
        fdl2 matches Some(e) ==> e.payload(pac) is Some,
        second_stage_said(said(acts), staged(fdl2, pac), opts.baud),
{
    let done = Ok::<(), FlashFault>(());
    let connect = connect_task(usual(opts));
    let talks = seq![
        connect.talk(),
        in_turn(fdl2_talks(fdl2, pac, opts)),
        in_turn(baud_talks(opts)),
    ];
    let cuts = lemma_turns_cut(talks, acts);
    let a = stretch(acts, cuts, 0);
    let b = stretch(acts, cuts, 1);
    let c = stretch(acts, cuts, 2);
    assert(after(talks[0], a) == Dialogue::Over(done));
    assert(after(talks[1], b) == Dialogue::Over(done));
    assert(after(talks[2], c) == Dialogue::Over(done));
    lemma_said_by_task(connect, a, done);
    assert(acts =~= a + b + c);
    lemma_said_concat(a + b, c);
    lemma_said_concat(a, b);
    let image = match fdl2 {
        None => Seq::<Said>::empty(),
        Some(e) => messages(
            image_orders(start_of(e.address, e.payload(pac)->0), e.payload(pac)->0, 2048),
        ),
    };
    let rate = match opts.baud {
        None => Seq::<u8>::empty(),
        Some(r) => be32_bytes(r),
    };
    match fdl2 {
        None => {
            lemma_over(done, b, done);
        },
        Some(e) => {
            lemma_fdl2_talks_say(e, pac, opts, b);
            law_image_orders_write_the_image(
                start_of(e.address, e.payload(pac)->0),
                e.payload(pac)->0,
                2048,
            );
            law_image_start_fields(e.address, e.payload(pac)->0);
            assert(writes(
                image,
                start_of(e.address, e.payload(pac)->0),
                e.payload(pac)->0,
                2048,
            ));
        },
    }
    match opts.baud {
        None => {
            lemma_over(done, c, done);
        },
        Some(r) => {
            lemma_baud_talks_say(opts, r, c);
            crate::bytes::law_32_bit_digits(r);
        },
    }
    let start = match fdl2 {
        None => Seq::<u8>::empty(),
        Some(e) => start_of(e.address, e.payload(pac)->0),
    };
    lemma_second_stage_said(said(acts), staged(fdl2, pac), opts.baud, image, rate, start);
}

proof fn lemma_second_stage_said(
    m: Seq<Said>,
    fdl2: Option<(u32, Seq<u8>)>,
    baud: Option<u32>,
    image: Seq<Said>,
    rate: Seq<u8>,
    start: Seq<u8>,
)
    requires
        m == seq![Said::Message(0, Seq::empty())] + (match fdl2 {
            None => Seq::empty(),
            Some(_) => image + seq![
                Said::Message(4, Seq::empty()),
                Said::Message(0, Seq::empty()),
            ],
        }) + (match baud {
            None => Seq::empty(),
            Some(b) => seq![
                Said::Message(9, rate),
                Said::Rate(b),
                Said::Message(0, Seq::empty()),
            ],
        }),
        fdl2 is Some ==> start.len() == 8 && big(start, 0) == (fdl2->0).0 && big(start, 4)
            == (fdl2->0).1.len() as int % 0x1_0000_0000 && writes(image, start, (fdl2->0).1, 2048),
        baud matches Some(b) ==> rate.len() == 4 && big(rate, 0) == b,
    ensures
        second_stage_said(m, fdl2, baud),
{
    assert(image.len() >= 0 && rate.len() >= 0);
    if let Some((addr, data)) = fdl2 {
        assert(writes(image, start, data, 2048));
    }
}

// ---------------------------------------------------------------------------
// Writing
// ---------------------------------------------------------------------------

/// Whether an image of `data` was written to `addr`, in some acts, beginning with pieces of
/// `chunk` bytes: what it begins with says its address and its length.
pub open spec fn written_at(acts: Seq<Act>, addr: u32, data: Seq<u8>, chunk: int) -> bool {
    exists|start: Seq<u8>|
        start.len() == 8 && big(start, 0) == addr && big(start, 4) == data.len() as int
            % 0x1_0000_0000 && #[trigger] written(acts, start, data, chunk)
}

/// The size of the pieces that a run writes images in: what is asked for, but at least one
/// byte.
pub open spec fn piece_size(chunk: usize) -> int {
    if chunk == 0 {
        1
    } else {
        chunk as int
    }
}

/// Whether a partition was written, in some acts, to its address, and then, if that was
/// asked for, read back, from its address, as just the bytes that were written.
pub open spec fn partition_written(
    acts: Seq<Act>,
    addr: u32,
    data: Seq<u8>,
    chunk: usize,
    readback: bool,
) -> bool {
    exists|k: int|
        0 <= k <= acts.len() && written_at(#[trigger] acts.take(k), addr, data, piece_size(chunk))
            && if readback {
            k < acts.len() && read_out(
                acts.subrange(k, acts.len() - 1),
                addr,
                data.len(),
                0,
                data,
            ) && acts.last().step is Note
        } else {
            k == acts.len()
        }
}

proof fn lemma_partition_written(e: Entry, pac: Seq<u8>, opts: FlashOptions, acts: Seq<Act>)
    requires
        after(partition_talk(e, pac, opts), acts) == Dialogue::Over(Ok::<(), FlashFault>(())),
    ensures
        e.payload(pac) is Some,
        partition_written(
            acts,
            e.address,
            e.payload(pac)->0,
            opts.chunk,
            opts.verify_readback,
        ),
{
    let done = Ok::<(), FlashFault>(());
    match e.payload(pac) {
        None => {
            lemma_over(Err::<(), FlashFault>(FlashFault::Payload(e.file_id)), acts, done);
        },
        Some(data) => {
            let image = stage_image(e.address, data, e.file_id);
            let chunk = at_least_one(opts.chunk as int);
            let then = |_n: ()|
                if opts.verify_readback {
                    verifying(e.address, data, e.file_id, usual(opts))
                } else {
                    Dialogue::Over(Ok(()))
                };
            let (k, u) = lemma_second_part(writing(image, chunk, usual(opts)), then, acts, ());
            lemma_written(image, chunk, usual(opts), acts.take(k));
            law_image_start_fields(e.address, data);
            assert(written_at(acts.take(k), e.address, data, piece_size(opts.chunk)));
            let rest = acts.skip(k);
            if opts.verify_readback {
                lemma_read_back_part(e.address, data, e.file_id, usual(opts), rest);
                assert(acts.subrange(k, acts.len() - 1) =~= rest.drop_last());
                assert(acts.last() == rest.last());
            } else {
                lemma_over(done, rest, done);
            }
        },
    }
}

proof fn lemma_read_back_part(
    addr: u32,
    data: Seq<u8>,
    file_id: Seq<char>,
    link: Link,
    acts: Seq<Act>,
)
    requires
        after(verifying(addr, data, file_id, link), acts) == Dialogue::Over(
            Ok::<(), FlashFault>(()),
        ),
    ensures
        acts.len() > 0,
        acts.last().step is Note,
        read_out(acts.drop_last(), addr, data.len(), 0, data),
{
    let report = note(file_id, data.len() as int, data.len() as int);
    let read = reading(addr, data.len(), READBACK_CHUNK as nat, Seq::empty(), link);
    let done = Ok::<(), FlashFault>(());
    lemma_held_in_parts_whatever_follows::<Result<Seq<u8>, FlashFault>, Result<(), FlashFault>>(
        read,
        acts,
        done,
    );
    let (k, a) = choose|k: int, a: Result<Seq<u8>, FlashFault>| #[trigger]
        ends_at(read, acts, k, a) && after(
            match a {
                Ok(back) => if back == data {
                    report.talk()
                } else {
                    Dialogue::Over(Err(FlashFault::VerifyMismatch(file_id)))
                },
                Err(e) => Dialogue::Over(Err(e)),
            },
            acts.skip(k),
        ) == Dialogue::Over(done);
    if let Err(e) = a {
        lemma_over(Err::<(), FlashFault>(e), acts.skip(k), done);
    }
    let back = a->Ok_0;
    let rest = acts.skip(k);
    if back != data {
        lemma_over(
            Err::<(), FlashFault>(FlashFault::VerifyMismatch(file_id)),
            rest,
            Ok::<(), FlashFault>(()),
        );
    }
    match report.talk() {
        Dialogue::Next(s, go_on) => {
            lemma_one_step(s, go_on, rest, Ok::<(), FlashFault>(()));
        },
        _ => {},
    }
    law_read_gives_what_was_sent(addr, data.len(), link, acts.take(k), back);
    assert(acts.drop_last() =~= acts.take(k));
    assert(acts.last() == rest[0]);
}

/// Whether all of some partitions were written in some acts, one after the other, in their
/// order.
pub open spec fn partitions_written(
    acts: Seq<Act>,
    partitions: Seq<Entry>,
    pac: Seq<u8>,
    opts: FlashOptions,
) -> bool {
    exists|cuts: Seq<int>| #[trigger]
        cuts_up(cuts, partitions.len(), acts.len()) && forall|i: int|
            0 <= i < partitions.len() ==> {
                let e = #[trigger] partitions[i];
                e.payload(pac) is Some && partition_written(
                    stretch(acts, cuts, i),
                    e.address,
                    e.payload(pac)->0,
                    opts.chunk,
                    opts.verify_readback,
                )
            }
}

/// Whether the data of a marker was written in some acts. That of the NV region has a start
/// with its address, its length and the sum of its bytes, and begins with the CRC-16 of all
/// but its first two bytes, most significant byte first; else it is as it was. That of any
/// other marker is written like a partition.
pub open spec fn marker_written(
    acts: Seq<Act>,
    e: Entry,
    data: Seq<u8>,
    chunk: usize,
) -> bool {
    if crate::text::upper(e.file_id) == "NV"@ {
        exists|start: Seq<u8>, image: Seq<u8>|
            #![trigger written(acts, start, image, piece_size(chunk))]
            {
                &&& image.len() == data.len()
                &&& data.len() >= 2 ==> image.skip(2) == data.skip(2) && 256 * image[0] + image[1]
                    == crate::checksum::crc16_arc_of(data.skip(2))
                &&& data.len() < 2 ==> image == data
                &&& start.len() == 12 && big(start, 0) == e.address && big(start, 4)
                    == data.len() as int % 0x1_0000_0000 && big(start, 8)
                    == crate::checksum::byte_sum(image) as int % 0x1_0000_0000
                &&& written(acts, start, image, piece_size(chunk))
            }
    } else {
        written_at(acts, e.address, data, piece_size(chunk))
    }
}

proof fn lemma_marker_written(e: Entry, pac: Seq<u8>, opts: FlashOptions, acts: Seq<Act>)
    requires
        after(marker_talk(e, pac, opts), acts) == Dialogue::Over(Ok::<(), FlashFault>(())),
    ensures
        e.payload(pac) is Some,
        marker_written(acts, e, e.payload(pac)->0, opts.chunk),
{
    let done = Ok::<(), FlashFault>(());
    match e.payload(pac) {
        None => {
            lemma_over(Err::<(), FlashFault>(FlashFault::Payload(e.file_id)), acts, done);
        },
        Some(data) => {
            let image = marker_image(e, data);
            let chunk = at_least_one(opts.chunk as int);
            lemma_written(image, chunk, usual(opts), acts);
            law_image_start_fields(e.address, data);
            if names_nv(e.file_id) {
                let fixed = nv_fixed(data);
                crate::plan::law_nv_start_fields(e.address, fixed);
                if data.len() >= 2 {
                    crate::plan::law_nv_fixed(data);
                }
                assert(written(acts, nv_start_of(e.address, fixed), fixed, piece_size(opts.chunk)));
            }
        },
    }
}

/// Whether the data of all of some markers was written in some acts, one after the other,
/// in their order.
pub open spec fn markers_written(
    acts: Seq<Act>,
    markers: Seq<Entry>,
    pac: Seq<u8>,
    chunk: usize,
) -> bool {
    exists|cuts: Seq<int>| #[trigger]
        cuts_up(cuts, markers.len(), acts.len()) && forall|i: int|
            0 <= i < markers.len() ==> {
                let e = #[trigger] markers[i];
                e.payload(pac) is Some && marker_written(
                    stretch(acts, cuts, i),
                    e,
                    e.payload(pac)->0,
                    chunk,
                )
            }
}

/// Whether some erases were asked for, one after the other, in their order, and nothing
/// else was said: each with a message of type 10 that holds its address, most significant
/// byte first, and its parameter.
pub open spec fn erased(m: Seq<Said>, erases: Seq<Erase>) -> bool {
    &&& m.len() == erases.len()
    &&& forall|i: int|
        0 <= i < erases.len() ==> (#[trigger] m[i] matches Said::Message(kind, data) && kind == 10
            && data.len() == 4 + erases[i].param.len() && big(data, 0) == erases[i].address
            && data.skip(4) == erases[i].param)
}

#[verifier::rlimit(30)]
proof fn lemma_erased(erases: Seq<Erase>, opts: FlashOptions, acts: Seq<Act>)
    requires
        after(in_turn(erases.map_values(|op: Erase| erase_talk(op, opts))), acts)
            == Dialogue::Over(Ok::<(), FlashFault>(())),
    ensures
        erased(said(acts), erases),
{
    let done = Ok::<(), FlashFault>(());
    let talks = erases.map_values(|op: Erase| erase_talk(op, opts));
    let says = erases.map_values(
        |op: Erase| seq![Said::Message(10, be32_bytes(op.address) + op.param)],
    );
    assert forall|i: int, part: Seq<Act>|
        0 <= i < talks.len() && after(#[trigger] talks[i], part) == Dialogue::Over(done) implies
        #[trigger] said(part) == says[i] by {
        let op = erases[i];
        lemma_said_by_task(
            acked(
                cmd::ERASE_FLASH,
                be32_bytes(op.address) + op.param,
                usual(opts),
                "ERASE"@,
            ),
            part,
            done,
        );
    }
    lemma_turns_say(talks, says, acts);
    lemma_singles(says);
    let m = said(acts);
    assert forall|i: int| 0 <= i < erases.len() implies (
    #[trigger] m[i] matches Said::Message(kind, data) && kind == 10 && data.len() == 4
        + erases[i].param.len() && big(data, 0) == erases[i].address && data.skip(4)
        == erases[i].param) by {
        assert(m[i] == says[i][0]);
        let b = be32_bytes(erases[i].address);
        let data = b + erases[i].param;
        assert(data[0] == b[0] && data[1] == b[1] && data[2] == b[2] && data[3] == b[3]);
        assert(data.skip(4) =~= erases[i].param);
    }
}

proof fn lemma_singles(says: Seq<Seq<Said>>)
    requires
        forall|i: int| 0 <= i < says.len() ==> (#[trigger] says[i]).len() == 1,
    ensures
        says.flatten().len() == says.len(),
        forall|i: int| 0 <= i < says.len() ==> #[trigger] says.flatten()[i] == says[i][0],
    decreases says.len(),
{
    if says.len() > 0 {
        let rest = says.drop_first();
        assert forall|i: int| 0 <= i < rest.len() implies (#[trigger] rest[i]).len() == 1 by {
            assert(rest[i] == says[i + 1]);
        }
        lemma_singles(rest);
        assert(says.flatten() == says.first() + rest.flatten());
        assert forall|i: int| 0 <= i < says.len() implies #[trigger] says.flatten()[i]
            == says[i][0] by {
            if i > 0 {
                assert(says.flatten()[i] == rest.flatten()[i - 1]);
                assert(rest[i - 1] == says[i]);
            }
        }
    }
}

/// What is said to reset the device: if that is asked for, a message of type 5 without
/// data, and then the line is held; else nothing.
pub open spec fn reset_said(opts: FlashOptions) -> Seq<Said> {
    if opts.reset {
        seq![Said::Message(5, Seq::empty()), Said::Hold(opts.reset_hold_ms)]
    } else {
        Seq::empty()
    }
}

/// A reset says what it should.
pub proof fn law_reset_is_said(opts: FlashOptions, acts: Seq<Act>)
    requires
        after(reset_talk(opts), acts) == Dialogue::Over(Ok::<(), FlashFault>(())),
    ensures
        said(acts) == reset_said(opts),
{
    let done = Ok::<(), FlashFault>(());
    let talks: Seq<Talk<()>> = if opts.reset {
        seq![
            tell(cmd::NORMAL_RESET, Seq::empty(), sum()),
            Task::Just(Step::Hold { millis: opts.reset_hold_ms }).talk(),
        ]
    } else {
        Seq::empty()
    };
    let cuts = lemma_turns_cut(talks, acts);
    if opts.reset {
        let a = stretch(acts, cuts, 0);
        let b = stretch(acts, cuts, 1);
        assert(after(talks[0], a) == Dialogue::Over(done));
        assert(after(talks[1], b) == Dialogue::Over(done));
        let step = Step::Tell { cmd: cmd::NORMAL_RESET, data: Seq::empty(), checksum: sum() };
        lemma_said_alone(step, |u: Upset| bsl_fault(u), a, done);
        lemma_said_by_task(Task::Just(Step::Hold { millis: opts.reset_hold_ms }), b, done);
        assert(acts =~= a + b);
        lemma_said_concat(a, b);
    }
    assert(said(acts) =~= reset_said(opts));
}

// ---------------------------------------------------------------------------
// A run as a whole
// ---------------------------------------------------------------------------

/// Whether a run took its course in some acts, with these six stretches, one after the
/// other: the first stage comes up; the second stage does; the partitions are written; with
/// `format`, the erases are made; with `format`, the data of the markers is written; and the
/// device is reset, if that is asked for.
pub open spec fn took_its_course(
    acts: Seq<Act>,
    cuts: Seq<int>,
    plan: Plan,
    pac: Seq<u8>,
    opts: FlashOptions,
    version: Seq<char>,
) -> bool {
    &&& cuts_up(cuts, 6, acts.len())
    &&& plan.fdl1.payload(pac) is Some
    &&& first_stage_up(
        stretch(acts, cuts, 0),
        plan.fdl1.address,
        plan.fdl1.payload(pac)->0,
        version,
    )
    &&& second_stage_said(said(stretch(acts, cuts, 1)), staged(plan.fdl2, pac), opts.baud)
    &&& partitions_written(stretch(acts, cuts, 2), plan.partitions, pac, opts)
    &&& if opts.format {
        &&& erased(said(stretch(acts, cuts, 3)), plan.erases)
        &&& markers_written(stretch(acts, cuts, 4), plan.data_markers, pac, opts.chunk)
    } else {
        &&& stretch(acts, cuts, 3).len() == 0
        &&& stretch(acts, cuts, 4).len() == 0
    }
    &&& said(stretch(acts, cuts, 5)) == reset_said(opts)
}

proof fn lemma_partitions_written(plan: Plan, pac: Seq<u8>, opts: FlashOptions, acts: Seq<Act>)
    requires
        after(in_turn(partition_talks(plan, pac, opts)), acts) == Dialogue::Over(
            Ok::<(), FlashFault>(()),
        ),
    ensures
        partitions_written(acts, plan.partitions, pac, opts),
{
    let talks = partition_talks(plan, pac, opts);
    let cuts = lemma_turns_cut(talks, acts);
    assert forall|i: int| 0 <= i < plan.partitions.len() implies {
        let e = #[trigger] plan.partitions[i];
        e.payload(pac) is Some && partition_written(
            stretch(acts, cuts, i),
            e.address,
            e.payload(pac)->0,
            opts.chunk,
            opts.verify_readback,
        )
    } by {
        assert(after(talks[i], stretch(acts, cuts, i)) == Dialogue::Over(
            Ok::<(), FlashFault>(()),
        ));
        lemma_partition_written(plan.partitions[i], pac, opts, stretch(acts, cuts, i));
    }
}

proof fn lemma_markers_written(plan: Plan, pac: Seq<u8>, opts: FlashOptions, acts: Seq<Act>)
    requires
        after(in_turn(marker_talks(plan, pac, opts)), acts) == Dialogue::Over(
            Ok::<(), FlashFault>(()),
        ),
    ensures
        markers_written(acts, plan.data_markers, pac, opts.chunk),
{
    let talks = marker_talks(plan, pac, opts);
    let cuts = lemma_turns_cut(talks, acts);
    assert forall|i: int| 0 <= i < plan.data_markers.len() implies {
        let e = #[trigger] plan.data_markers[i];
        e.payload(pac) is Some && marker_written(
            stretch(acts, cuts, i),
            e,
            e.payload(pac)->0,
            opts.chunk,
        )
    } by {
        assert(after(talks[i], stretch(acts, cuts, i)) == Dialogue::Over(
            Ok::<(), FlashFault>(()),
        ));
        lemma_marker_written(plan.data_markers[i], pac, opts, stretch(acts, cuts, i));
    }
}

/// The places that cut the part of a run in which everything is written.
proof fn lemma_writing_cut(plan: Plan, pac: Seq<u8>, opts: FlashOptions, acts: Seq<Act>) -> (
    cuts: Seq<int>)
    requires
        after(writing_talk(plan, pac, opts), acts) == Dialogue::Over(Ok::<(), FlashFault>(())),
    ensures
        cuts_up(cuts, 4, acts.len()),
        partitions_written(stretch(acts, cuts, 0), plan.partitions, pac, opts),
        opts.format ==> erased(said(stretch(acts, cuts, 1)), plan.erases),
        opts.format ==> markers_written(
            stretch(acts, cuts, 2),
            plan.data_markers,
            pac,
            opts.chunk,
        ),
        !opts.format ==> stretch(acts, cuts, 1).len() == 0 && stretch(acts, cuts, 2).len() == 0,
        said(stretch(acts, cuts, 3)) == reset_said(opts),
{
    let done = Ok::<(), FlashFault>(());
    let parts = in_turn(partition_talks(plan, pac, opts));
    let talks = seq![parts] + if opts.format {
        seq![in_turn(erase_talks(plan, opts)), in_turn(marker_talks(plan, pac, opts))]
    } else {
        Seq::empty()
    } + seq![reset_talk(opts)];
    let cut = lemma_turns_cut(talks, acts);
    assert(after(talks[0], stretch(acts, cut, 0)) == Dialogue::Over(done));
    lemma_partitions_written(plan, pac, opts, stretch(acts, cut, 0));
    if opts.format {
        assert(after(talks[1], stretch(acts, cut, 1)) == Dialogue::Over(done));
        assert(after(talks[2], stretch(acts, cut, 2)) == Dialogue::Over(done));
        assert(after(talks[3], stretch(acts, cut, 3)) == Dialogue::Over(done));
        lemma_erased(plan.erases, opts, stretch(acts, cut, 1));
        lemma_markers_written(plan, pac, opts, stretch(acts, cut, 2));
        law_reset_is_said(opts, stretch(acts, cut, 3));
        cut
    } else {
        assert(after(talks[1], stretch(acts, cut, 1)) == Dialogue::Over(done));
        law_reset_is_said(opts, stretch(acts, cut, 1));
        let cuts = seq![cut[0], cut[1], cut[1], cut[1], cut[2]];
        assert(stretch(acts, cuts, 0) =~= stretch(acts, cut, 0));
        assert(stretch(acts, cuts, 3) =~= stretch(acts, cut, 1));
        cuts
    }
}

/// The parts of a run that succeeds: bringing the device up, and writing.
proof fn lemma_run_parts(
    plan: Plan,
    pac: Seq<u8>,
    opts: FlashOptions,
    acts: Seq<Act>,
    flashed: Flashed,
) -> (k: int)
    requires
        after(flash_talk(plan, pac, opts), acts) == Dialogue::Over(
            Ok::<Flashed, FlashFault>(flashed),
        ),
    ensures
        0 <= k <= acts.len(),
        after(bring_up_talk(plan, pac, opts), acts.take(k)) == Dialogue::Over(
            Ok::<Seq<char>, FlashFault>(flashed.version),
        ),
        after(writing_talk(plan, pac, opts), acts.skip(k)) == Dialogue::Over(
            Ok::<(), FlashFault>(()),
        ),
        flashed.bytes_written == bytes_to_write(plan, opts),
{
    let then = |version: Seq<char>|
        and_then(
            writing_talk(plan, pac, opts),
            |_n: ()|
                Dialogue::Over(
                    Ok::<Flashed, FlashFault>(
                        Flashed { version, bytes_written: bytes_to_write(plan, opts) },
                    ),
                ),
        );
    let (k, version) = lemma_second_part(bring_up_talk(plan, pac, opts), then, acts, flashed);
    let rest = acts.skip(k);
    let last = |_n: ()|
        Dialogue::Over(
            Ok::<Flashed, FlashFault>(
                Flashed { version, bytes_written: bytes_to_write(plan, opts) },
            ),
        );
    let (m, u) = lemma_second_part(writing_talk(plan, pac, opts), last, rest, flashed);
    lemma_over(
        Ok::<Flashed, FlashFault>(
            Flashed { version, bytes_written: bytes_to_write(plan, opts) },
        ),
        rest.skip(m),
        Ok::<Flashed, FlashFault>(flashed),
    );
    assert(rest.take(m) =~= rest);
    assert(u == ());
    k
}

/// The parts of bringing a device up: its first and its second stage.
proof fn lemma_bring_up_parts(
    plan: Plan,
    pac: Seq<u8>,
    opts: FlashOptions,
    acts: Seq<Act>,
    version: Seq<char>,
) -> (j: int)
    requires
        after(bring_up_talk(plan, pac, opts), acts) == Dialogue::Over(
            Ok::<Seq<char>, FlashFault>(version),
        ),
    ensures
        0 <= j <= acts.len(),
        plan.fdl1.payload(pac) is Some,
        first_stage_up(acts.take(j), plan.fdl1.address, plan.fdl1.payload(pac)->0, version),
        second_stage_said(said(acts.skip(j)), staged(plan.fdl2, pac), opts.baud),
{
    let then = |version: Seq<char>|
        and_then(
            fdl2_phase(plan.fdl2, pac, opts),
            |_n: ()| Dialogue::Over(Ok::<Seq<char>, FlashFault>(version)),
        );
    let (j, v) = lemma_second_part(fdl1_talk(plan.fdl1, pac, opts), then, acts, version);
    let rest = acts.skip(j);
    let (n, u) = lemma_second_part(
        fdl2_phase(plan.fdl2, pac, opts),
        |_n: ()| Dialogue::Over(Ok::<Seq<char>, FlashFault>(v)),
        rest,
        version,
    );
    lemma_over(
        Ok::<Seq<char>, FlashFault>(v),
        rest.skip(n),
        Ok::<Seq<char>, FlashFault>(version),
    );
    assert(u == ());
    assert(rest.take(n) =~= rest);
    law_first_stage_is_loaded_and_started(plan.fdl1, pac, opts, acts.take(j), version);
    law_second_stage_is_staged_and_started(plan.fdl2, pac, opts, rest);
    j
}

/// The places that cut a run, from those that cut its two parts.
proof fn lemma_joined_cuts(acts: Seq<Act>, j: int, k: int, cut: Seq<int>) -> (cuts: Seq<int>)
    requires
        0 <= j <= k <= acts.len(),
        cuts_up(cut, 4, acts.skip(k).len()),
    ensures
        cuts_up(cuts, 6, acts.len()),
        stretch(acts, cuts, 0) == acts.take(k).take(j),
        stretch(acts, cuts, 1) == acts.take(k).skip(j),
        stretch(acts, cuts, 2) == stretch(acts.skip(k), cut, 0),
        stretch(acts, cuts, 3) == stretch(acts.skip(k), cut, 1),
        stretch(acts, cuts, 4) == stretch(acts.skip(k), cut, 2),
        stretch(acts, cuts, 5) == stretch(acts.skip(k), cut, 3),
{
    let rest = acts.skip(k);
    let cuts = seq![0int, j, k, k + cut[1], k + cut[2], k + cut[3], acts.len() as int];
    assert(stretch(acts, cuts, 0) =~= acts.take(k).take(j));
    assert(stretch(acts, cuts, 1) =~= acts.take(k).skip(j));
    assert(stretch(acts, cuts, 2) =~= stretch(rest, cut, 0));
    assert(stretch(acts, cuts, 3) =~= stretch(rest, cut, 1));
    assert(stretch(acts, cuts, 4) =~= stretch(rest, cut, 2));
    assert(stretch(acts, cuts, 5) =~= stretch(rest, cut, 3));
    cuts
}

/// A flash run that succeeds took its course: it loaded and started the first stage, with
/// its payload at its address, staged and started the second one, wrote every partition of
/// its plan whole, to its address, in the order of the plan, and read it back if that was
/// asked for; with `format`, then made every erase, in order, and wrote the data of every
/// marker, in order; and reset the device, if that was asked for, as the last thing. The
/// version that it gives is the one that the first stage said, and the bytes that it says
/// were written are those of the payloads of the partitions and, with `format`, of the markers.
pub proof fn law_run_takes_its_course(
    plan: Plan,
    pac: Seq<u8>,
    opts: FlashOptions,
    acts: Seq<Act>,
    flashed: Flashed,
)
    requires
        after(flash_talk(plan, pac, opts), acts) == Dialogue::Over(
            Ok::<Flashed, FlashFault>(flashed),
        ),
    ensures
        exists|cuts: Seq<int>| #[trigger]
            took_its_course(acts, cuts, plan, pac, opts, flashed.version),
        flashed.bytes_written == crate::flash::procedure::payload_bytes(
            plan.partitions + if opts.format {
                plan.data_markers
            } else {
                Seq::empty()
            },
        ),
{
    let k = lemma_run_parts(plan, pac, opts, acts, flashed);
    crate::flash::procedure::law_bytes_to_write(plan, opts);
    assert(plan.partitions + Seq::<Entry>::empty() =~= plan.partitions);
    let up = acts.take(k);
    let rest = acts.skip(k);
    let j = lemma_bring_up_parts(plan, pac, opts, up, flashed.version);
    let cut = lemma_writing_cut(plan, pac, opts, rest);
    let cuts = lemma_joined_cuts(acts, j, k, cut);
    assert(took_its_course(acts, cuts, plan, pac, opts, flashed.version));
}

/// Whether a device was brought up in some acts: its first stage, and then its second one.
pub open spec fn brought_up(acts: Seq<Act>, plan: Plan, pac: Seq<u8>, opts: FlashOptions) -> bool {
    plan.fdl1.payload(pac) is Some && exists|j: int, version: Seq<char>|
        0 <= j <= acts.len() && #[trigger] first_stage_up(
            acts.take(j),
            plan.fdl1.address,
            plan.fdl1.payload(pac)->0,
            version,
        ) && second_stage_said(said(acts.skip(j)), staged(plan.fdl2, pac), opts.baud)
}

/// Bringing a device up, if it succeeds, brings it up.
pub proof fn lemma_brought_up(
    plan: Plan,
    pac: Seq<u8>,
    opts: FlashOptions,
    acts: Seq<Act>,
    version: Seq<char>,
)
    requires
        after(bring_up_talk(plan, pac, opts), acts) == Dialogue::Over(
            Ok::<Seq<char>, FlashFault>(version),
        ),
    ensures
        brought_up(acts, plan, pac, opts),
{
    let j = lemma_bring_up_parts(plan, pac, opts, acts, version);
    assert(first_stage_up(
        acts.take(j),
        plan.fdl1.address,
        plan.fdl1.payload(pac)->0,
        version,
    ));
}

/// A run whose first-stage loader is not in the file fails at once, with the id of that loader,
/// and does nothing to the device.
pub proof fn law_missing_loader_fails_at_once(
    plan: Plan,
    pac: Seq<u8>,
    opts: FlashOptions,
    acts: Seq<Act>,
    r: Result<Flashed, FlashFault>,
)
    requires
        plan.fdl1.payload(pac) is None,
        after(flash_talk(plan, pac, opts), acts) == Dialogue::Over(r),
    ensures
        acts.len() == 0,
        r == Err::<Flashed, FlashFault>(FlashFault::Payload(plan.fdl1.file_id)),
{
    let e = FlashFault::Payload(plan.fdl1.file_id);
    assert(fdl1_talk(plan.fdl1, pac, opts) == Dialogue::Over(Err::<Seq<char>, FlashFault>(e)));
    assert(bring_up_talk(plan, pac, opts) == Dialogue::Over(Err::<Seq<char>, FlashFault>(e)));
    assert(flash_talk(plan, pac, opts) == Dialogue::Over(Err::<Flashed, FlashFault>(e)));
    lemma_over(Err::<Flashed, FlashFault>(e), acts, r);
}

} // verus!
