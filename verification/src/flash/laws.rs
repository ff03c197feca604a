//! What holds of flash runs as a whole.

use vstd::prelude::*;

use crate::bsl::{cmd, rep};
use crate::flash::bsl_io::{
    acked, connect_task, image_tasks, least, midst_tasks, moved_on, note, read_request, reading,
    still_to_read, ImageNames,
};
use crate::flash::dialogue::{
    after, all_of, and_next, and_then, ask, command, hear, judged, order, packet, pdl_step,
    step_alone, tell, unless_failed, Act, Dialogue, Link, Outcome, Step, Task, Upset,
};
use crate::flash::fault::FlashFault;
use crate::flash::procedure::{
    doubling, halving, middle, probing, sizing, smaller_chunk, sum, timed_out, verifying, writing,
    Image, FIRST_PROBE, MIN_ADAPTIVE_CHUNK, READBACK_CHUNK, SIZE_CAP, SIZE_GRAIN,
};

verus! {

/// A dialogue of two parts that is over was held in two parts: some acts lead to the
/// end of the first, and the rest from there to the end of the second.
pub proof fn lemma_held_in_parts<A, B>(
    p: Dialogue<A>,
    f: spec_fn(A) -> Dialogue<B>,
    acts: Seq<Act>,
    b: B,
) -> (r: (int, A))
    requires
        after(and_next(p, f), acts) == Dialogue::Over(b),
    ensures
        0 <= r.0 <= acts.len(),
        after(p, acts.take(r.0)) == Dialogue::Over(r.1),
        after(f(r.1), acts.skip(r.0)) == Dialogue::Over(b),
    decreases acts.len(),
{
    match p {
        Dialogue::Over(a) => {
            assert(acts.skip(0) =~= acts);
            assert(acts.take(0) =~= Seq::<Act>::empty());
            (0, a)
        },
        Dialogue::Next(step, go_on) => {
            let (k, a) = lemma_held_in_parts(*go_on(acts[0].outcome), f, acts.skip(1), b);
            assert(acts.take(k + 1).skip(1) =~= acts.skip(1).take(k));
            assert(acts.skip(1).skip(k) =~= acts.skip(k + 1));
            (k + 1, a)
        },
        Dialogue::Astray => {
            assert(acts.len() == 0 || after(and_next(p, f), acts) == Dialogue::<B>::Astray);
            (0, arbitrary())
        },
    }
}

/// A dialogue that is over stays so only if nothing more is done.
pub proof fn lemma_over<R>(r: R, acts: Seq<Act>, s: R)
    requires
        after(Dialogue::Over(r), acts) == Dialogue::Over(s),
    ensures
        acts.len() == 0,
        r == s,
{
}

/// A dialogue of one step is over after just that step.
pub proof fn lemma_one_step<R>(step: Step, go_on: spec_fn(Outcome) -> Box<Dialogue<R>>, acts: Seq<Act>, r: R)
    requires
        after(Dialogue::Next(step, go_on), acts) == Dialogue::Over(r),
        forall|o: Outcome| *#[trigger] go_on(o) is Over,
    ensures
        acts.len() == 1,
        acts[0].step == step,
        *go_on(acts[0].outcome) == Dialogue::Over(r),
{
    assert(acts.len() > 0);
    let next = *go_on(acts[0].outcome);
    assert(next is Over);
    lemma_over(next->Over_0, acts.skip(1), r);
}

// ---------------------------------------------------------------------------
// What the device is told
// ---------------------------------------------------------------------------

/// The BSL messages that were sent in some acts.
pub open spec fn told(acts: Seq<Act>) -> Seq<(u16, Seq<u8>)>
    decreases acts.len(),
{
    if acts.len() == 0 {
        Seq::empty()
    } else {
        match acts.last().step {
            Step::Tell { cmd, data, checksum } => told(acts.drop_last()).push((cmd, data)),
            _ => told(acts.drop_last()),
        }
    }
}

/// The BSL messages that some tasks have sent.
pub open spec fn orders(tasks: Seq<Task>) -> Seq<(u16, Seq<u8>)>
    decreases tasks.len(),
{
    if tasks.len() == 0 {
        Seq::empty()
    } else {
        let rest = orders(tasks.skip(1));
        match tasks[0] {
            Task::Command { cmd, data, .. } => seq![(cmd, data)] + rest,
            Task::Just(Step::Tell { cmd, data, .. }) => seq![(cmd, data)] + rest,
            _ => rest,
        }
    }
}

pub proof fn lemma_told_concat(a: Seq<Act>, b: Seq<Act>)
    ensures
        told(a + b) == told(a) + told(b),
    decreases b.len(),
{
    if b.len() == 0 {
        assert(a + b =~= a);
        assert(told(a) + Seq::<(u16, Seq<u8>)>::empty() =~= told(a));
    } else {
        assert((a + b).drop_last() =~= a + b.drop_last());
        lemma_told_concat(a, b.drop_last());
        match b.last().step {
            Step::Tell { cmd, data, .. } => {
                assert(told(a) + told(b.drop_last()).push((cmd, data)) =~= (told(a) + told(
                    b.drop_last(),
                )).push((cmd, data)));
            },
            _ => {},
        }
    }
}

pub proof fn lemma_told_one(act: Act)
    ensures
        told(seq![act]) == match act.step {
            Step::Tell { cmd, data, .. } => seq![(cmd, data)],
            _ => Seq::empty(),
        },
{
    assert(seq![act].drop_last() =~= Seq::<Act>::empty());
    assert(told(Seq::<Act>::empty()) =~= Seq::<(u16, Seq<u8>)>::empty());
    match act.step {
        Step::Tell { cmd, data, .. } => {
            assert(Seq::<(u16, Seq<u8>)>::empty().push((cmd, data)) =~= seq![(cmd, data)]);
        },
        _ => {},
    }
}

pub proof fn lemma_told_split(acts: Seq<Act>, k: int)
    requires
        0 <= k <= acts.len(),
    ensures
        told(acts) == told(acts.take(k)) + told(acts.skip(k)),
{
    assert(acts =~= acts.take(k) + acts.skip(k));
    lemma_told_concat(acts.take(k), acts.skip(k));
}

pub proof fn lemma_told_by_step(step: Step, fault: spec_fn(Upset) -> FlashFault, acts: Seq<Act>, r: Result<(), FlashFault>)
    requires
        after(step_alone(step, fault), acts) == Dialogue::Over(r),
    ensures
        told(acts) == match step {
            Step::Tell { cmd, data, .. } => seq![(cmd, data)],
            _ => Seq::empty(),
        },
{
    match step_alone(step, fault) {
        Dialogue::Next(s, go_on) => {
            lemma_one_step(s, go_on, acts, r);
            assert(acts =~= seq![acts[0]]);
            lemma_told_one(acts[0]);
        },
        _ => {},
    }
}

proof fn lemma_told_by_hear(timeout_ms: u64, acts: Seq<Act>, r: Result<(u16, Seq<u8>), FlashFault>)
    requires
        after(hear(timeout_ms), acts) == Dialogue::Over(r),
    ensures
        told(acts) == Seq::<(u16, Seq<u8>)>::empty(),
{
    match hear(timeout_ms) {
        Dialogue::Next(s, go_on) => {
            lemma_one_step(s, go_on, acts, r);
            assert(acts =~= seq![acts[0]]);
            lemma_told_one(acts[0]);
        },
        _ => {},
    }
}

pub proof fn lemma_told_by_order(
    cmd: u16,
    data: Seq<u8>,
    link: Link,
    expect: u16,
    what: Seq<char>,
    acts: Seq<Act>,
)
    requires
        after(order(cmd, data, link, expect, what), acts) == Dialogue::Over(
            Ok::<(), FlashFault>(()),
        ),
    ensures
        told(acts) == seq![(cmd, data)],
{
    reveal(command);
    let nothing = Seq::<(u16, Seq<u8>)>::empty();
    let f1 = unless_failed(|_d: Seq<u8>| Dialogue::<Result<(), FlashFault>>::Over(Ok(())));
    let (k1, r1) = lemma_held_in_parts(
        command(cmd, data, link, expect, what),
        f1,
        acts,
        Ok::<(), FlashFault>(()),
    );
    lemma_told_split(acts, k1);
    lemma_over(f1(r1)->Over_0, acts.skip(k1), Ok::<(), FlashFault>(()));
    let acts = acts.take(k1);
    let f2 = unless_failed(|m: (u16, Seq<u8>)| Dialogue::Over(judged(Ok(m), expect, what)));
    let (k2, r2) = lemma_held_in_parts(ask(cmd, data, link), f2, acts, r1);
    lemma_told_split(acts, k2);
    lemma_over(f2(r2)->Over_0, acts.skip(k2), r1);
    let acts = acts.take(k2);
    let f3 = unless_failed(|_n: ()| hear(link.timeout_ms));
    let (k3, r3) = lemma_held_in_parts(tell(cmd, data, link.checksum), f3, acts, r2);
    lemma_told_split(acts, k3);
    lemma_told_by_step(
        Step::Tell { cmd, data, checksum: link.checksum },
        |u: Upset| crate::flash::dialogue::bsl_fault(u),
        acts.take(k3),
        r3,
    );
    lemma_told_by_hear(link.timeout_ms, acts.skip(k3), r2);
    assert(seq![(cmd, data)] + nothing =~= seq![(cmd, data)]);
}

proof fn lemma_told_by_packet(payload: Seq<u8>, timeout_ms: u64, acts: Seq<Act>)
    requires
        after(packet(payload, timeout_ms), acts) == Dialogue::Over(Ok::<(), FlashFault>(())),
    ensures
        told(acts) == Seq::<(u16, Seq<u8>)>::empty(),
{
    let f = unless_failed(|_n: ()| pdl_step(Step::Await { timeout_ms }));
    let fault = |u: Upset| crate::flash::dialogue::pdl_fault(u);
    let (k, r) = lemma_held_in_parts(
        pdl_step(Step::Packet { payload }),
        f,
        acts,
        Ok::<(), FlashFault>(()),
    );
    lemma_told_split(acts, k);
    lemma_told_by_step(Step::Packet { payload }, fault, acts.take(k), r);
    lemma_told_by_step(Step::Await { timeout_ms }, fault, acts.skip(k), Ok::<(), FlashFault>(()));
}

/// Tasks that were all done without failure sent just the messages they say, in
/// their order.
pub proof fn law_tasks_are_told(tasks: Seq<Task>, acts: Seq<Act>)
    requires
        after(all_of(tasks), acts) == Dialogue::Over(Ok::<(), FlashFault>(())),
    ensures
        told(acts) == orders(tasks),
    decreases tasks.len(),
{
    let done = Ok::<(), FlashFault>(());
    if tasks.len() == 0 {
        lemma_over(done, acts, done);
    } else {
        let f = unless_failed(|_n: ()| all_of(tasks.skip(1)));
        let (k, r) = lemma_held_in_parts(tasks[0].talk(), f, acts, done);
        lemma_told_split(acts, k);
        law_tasks_are_told(tasks.skip(1), acts.skip(k));
        match tasks[0] {
            Task::Packet { payload, timeout_ms } => {
                lemma_told_by_packet(payload, timeout_ms, acts.take(k));
            },
            Task::Command { cmd, data, link, expect, what } => {
                lemma_told_by_order(cmd, data, link, expect, what, acts.take(k));
            },
            Task::Just(step) => {
                lemma_told_by_step(
                    step,
                    |u: Upset| crate::flash::dialogue::bsl_fault(u),
                    acts.take(k),
                    r,
                );
            },
        }
        assert(Seq::<(u16, Seq<u8>)>::empty() + told(acts.skip(k)) =~= told(acts.skip(k)));
    }
}

// ---------------------------------------------------------------------------
// Writing an image
// ---------------------------------------------------------------------------

/// The pieces of `chunk` bytes (the last may be shorter) of the data from `off` on.
pub open spec fn pieces(data: Seq<u8>, off: int, chunk: int) -> Seq<Seq<u8>>
    decreases data.len() - off,
{
    if off >= data.len() || chunk <= 0 {
        Seq::empty()
    } else {
        let end = least(off + chunk, data.len() as int);
        seq![data.subrange(off, end)] + pieces(data, end, chunk)
    }
}

/// Some byte strings, one after the other.
pub open spec fn joined(parts: Seq<Seq<u8>>) -> Seq<u8>
    decreases parts.len(),
{
    if parts.len() == 0 {
        Seq::empty()
    } else {
        parts[0] + joined(parts.skip(1))
    }
}

/// The pieces of some data, put together, are the data; none is empty, and none is
/// longer than the chunk.
pub proof fn law_pieces_make_the_whole(data: Seq<u8>, off: int, chunk: int)
    requires
        0 <= off <= data.len(),
        chunk > 0,
    ensures
        joined(pieces(data, off, chunk)) == data.skip(off),
        forall|i: int|
            0 <= i < pieces(data, off, chunk).len() ==> 0 < (#[trigger] pieces(
                data,
                off,
                chunk,
            )[i]).len() <= chunk,
    decreases data.len() - off,
{
    let all = pieces(data, off, chunk);
    if off < data.len() {
        let end = least(off + chunk, data.len() as int);
        let rest = pieces(data, end, chunk);
        law_pieces_make_the_whole(data, end, chunk);
        assert(all.skip(1) =~= rest);
        assert(data.subrange(off, end) + data.skip(end) =~= data.skip(off));
        assert forall|i: int| 0 <= i < all.len() implies 0 < (#[trigger] all[i]).len() <= chunk by {
            if i > 0 {
                assert(all[i] == rest[i - 1]);
            }
        }
    } else {
        assert(data.skip(off) =~= Seq::<u8>::empty());
    }
}

/// A message for each piece of some data.
pub open spec fn midst_orders(parts: Seq<Seq<u8>>) -> Seq<(u16, Seq<u8>)> {
    parts.map_values(|part: Seq<u8>| (cmd::MIDST_DATA, part))
}

proof fn lemma_orders_concat(a: Seq<Task>, b: Seq<Task>)
    ensures
        orders(a + b) == orders(a) + orders(b),
    decreases a.len(),
{
    if a.len() == 0 {
        assert(a + b =~= b);
        assert(Seq::<(u16, Seq<u8>)>::empty() + orders(b) =~= orders(b));
    } else {
        assert((a + b).skip(1) =~= a.skip(1) + b);
        lemma_orders_concat(a.skip(1), b);
        assert(orders(a + b) =~= orders(a) + orders(b));
    }
}

proof fn lemma_orders_one(t: Task)
    ensures
        orders(seq![t]) == match t {
            Task::Command { cmd, data, .. } => seq![(cmd, data)],
            Task::Just(Step::Tell { cmd, data, .. }) => seq![(cmd, data)],
            _ => Seq::empty(),
        },
{
    assert(seq![t].skip(1) =~= Seq::<Task>::empty());
    assert(orders(Seq::<Task>::empty()) =~= Seq::<(u16, Seq<u8>)>::empty());
    assert(orders(seq![t]) =~= match t {
        Task::Command { cmd, data, .. } => seq![(cmd, data)],
        Task::Just(Step::Tell { cmd, data, .. }) => seq![(cmd, data)],
        _ => Seq::empty(),
    });
}

proof fn lemma_orders_of_midst(
    data: Seq<u8>,
    off: int,
    chunk: int,
    link: Link,
    what: Seq<char>,
    label: Seq<char>,
)
    ensures
        orders(midst_tasks(data, off, chunk, link, what, label)) == midst_orders(
            pieces(data, off, chunk),
        ),
    decreases data.len() - off,
{
    let tasks = midst_tasks(data, off, chunk, link, what, label);
    if off >= data.len() || chunk <= 0 {
        assert(orders(tasks) =~= midst_orders(pieces(data, off, chunk)));
    } else {
        let end = least(off + chunk, data.len() as int);
        let rest = midst_tasks(data, end, chunk, link, what, label);
        lemma_orders_of_midst(data, end, chunk, link, what, label);
        assert(tasks.skip(1).skip(1) =~= rest);
        assert(tasks.skip(1)[0] == note(label, end, data.len() as int));
        assert(orders(tasks.skip(1)) == orders(rest));
        assert(orders(tasks) =~= seq![(cmd::MIDST_DATA, data.subrange(off, end))] + orders(rest));
        assert(midst_orders(pieces(data, off, chunk)) =~= seq![
            (cmd::MIDST_DATA, data.subrange(off, end)),
        ] + midst_orders(pieces(data, end, chunk)));
    }
}

/// The messages that write an image: its start, its data piece by piece, its end.
pub open spec fn image_orders(start: Seq<u8>, data: Seq<u8>, chunk: int) -> Seq<(u16, Seq<u8>)> {
    seq![(cmd::START_DATA, start)] + midst_orders(pieces(data, 0, chunk)) + seq![
        (cmd::END_DATA, Seq::empty()),
    ]
}

/// Writing an image takes just the messages for its start, its data and its end.
pub proof fn law_image_is_written_whole(
    start: Seq<u8>,
    data: Seq<u8>,
    chunk: int,
    link: Link,
    names: ImageNames,
    label: Seq<char>,
)
    ensures
        orders(image_tasks(start, data, chunk, link, names, label)) == image_orders(
            start,
            data,
            chunk,
        ),
{
    let first = seq![acked(cmd::START_DATA, start, link, names.start@)];
    let midst = midst_tasks(data, 0, chunk, link, names.midst@, label);
    let last = seq![acked(cmd::END_DATA, Seq::empty(), link, names.end@)];
    lemma_orders_concat(first + midst, last);
    lemma_orders_concat(first, midst);
    lemma_orders_one(first[0]);
    lemma_orders_one(last[0]);
    lemma_orders_of_midst(data, 0, chunk, link, names.midst@, label);
}

/// Whether some acts, up to the `k`-th, lead to the end of a dialogue with this
/// result.
pub open spec fn ends_at<A>(p: Dialogue<A>, acts: Seq<Act>, k: int, a: A) -> bool {
    0 <= k <= acts.len() && after(p, acts.take(k)) == Dialogue::Over(a)
}

/// As [`lemma_held_in_parts`], for whatever follows the first part.
pub proof fn lemma_held_in_parts_whatever_follows<A, B>(p: Dialogue<A>, acts: Seq<Act>, b: B)
    ensures
        forall|f: spec_fn(A) -> Dialogue<B>|
            after(#[trigger] and_next(p, f), acts) == Dialogue::Over(b) ==> exists|k: int, a: A| #[trigger]
                ends_at(p, acts, k, a) && after(f(a), acts.skip(k)) == Dialogue::Over(b),
{
    assert forall|f: spec_fn(A) -> Dialogue<B>|
        after(#[trigger] and_next(p, f), acts) == Dialogue::Over(b) implies exists|
        k: int,
        a: A,
    | #[trigger]
        ends_at(p, acts, k, a) && after(f(a), acts.skip(k)) == Dialogue::Over(b) by {
        let (k, a) = lemma_held_in_parts(p, f, acts, b);
        assert(ends_at(p, acts, k, a));
    }
}

/// The chunk that an image was written with in the end, and the place in what was
/// told where that began.
proof fn lemma_writing_ends_with_the_whole_image(
    image: Image,
    chunk: int,
    link: Link,
    acts: Seq<Act>,
) -> (r: (int, int))
    requires
        chunk > 0,
        after(writing(image, chunk, link), acts) == Dialogue::Over(Ok::<(), FlashFault>(())),
    ensures
        0 < r.0 <= chunk,
        0 <= r.1 <= told(acts).len(),
        told(acts).skip(r.1) == image_orders(image.start, image.data, r.0),
    decreases chunk,
{
    let done = Ok::<(), FlashFault>(());
    let tasks = image.tasks(chunk, link);
    lemma_held_in_parts_whatever_follows::<Result<(), FlashFault>, Result<(), FlashFault>>(
        all_of(tasks),
        acts,
        done,
    );
    let (k, a) = choose|k: int, a: Result<(), FlashFault>| #[trigger]
        ends_at(all_of(tasks), acts, k, a) && after(
            if (a matches Err(e) && timed_out(e)) && chunk > MIN_ADAPTIVE_CHUNK {
                and_then(
                    Task::Just(Step::Purge).talk(),
                    |_n: ()|
                        and_then(
                            connect_task(link).talk(),
                            |_n: ()| writing(image, smaller_chunk(chunk), link),
                        ),
                )
            } else {
                Dialogue::Over(a)
            },
            acts.skip(k),
        ) == Dialogue::Over(done);
    lemma_told_split(acts, k);
    if (a matches Err(e) && timed_out(e)) && chunk > MIN_ADAPTIVE_CHUNK {
        let rest = acts.skip(k);
        lemma_held_in_parts_whatever_follows::<Result<(), FlashFault>, Result<(), FlashFault>>(
            Task::Just(Step::Purge).talk(),
            rest,
            done,
        );
        let (k2, a2) = choose|k2: int, a2: Result<(), FlashFault>| #[trigger]
            ends_at(Task::Just(Step::Purge).talk(), rest, k2, a2) && after(
                match a2 {
                    Ok(_) => and_then(
                        connect_task(link).talk(),
                        |_n: ()| writing(image, smaller_chunk(chunk), link),
                    ),
                    Err(e) => Dialogue::Over(Err(e)),
                },
                rest.skip(k2),
            ) == Dialogue::Over(done);
        lemma_told_split(rest, k2);
        let last = rest.skip(k2);
        lemma_held_in_parts_whatever_follows::<Result<(), FlashFault>, Result<(), FlashFault>>(
            connect_task(link).talk(),
            last,
            done,
        );
        let (k3, a3) = choose|k3: int, a3: Result<(), FlashFault>| #[trigger]
            ends_at(connect_task(link).talk(), last, k3, a3) && after(
                match a3 {
                    Ok(_) => writing(image, smaller_chunk(chunk), link),
                    Err(e) => Dialogue::Over(Err(e)),
                },
                last.skip(k3),
            ) == Dialogue::Over(done);
        lemma_told_split(last, k3);
        let (c, from) = lemma_writing_ends_with_the_whole_image(
            image,
            smaller_chunk(chunk),
            link,
            last.skip(k3),
        );
        let before = told(acts.take(k)) + told(rest.take(k2)) + told(last.take(k3));
        let r = (c, before.len() + from);
        assert(told(acts) =~= before + told(last.skip(k3)));
        assert(told(acts).skip(r.1) =~= told(last.skip(k3)).skip(from));
        r
    } else {
        lemma_over(a, acts.skip(k), done);
        law_tasks_are_told(tasks, acts.take(k));
        law_image_is_written_whole(
            image.start,
            image.data,
            chunk,
            link,
            image.names,
            image.label,
        );
        let from = 0int;
        assert(told(acts.skip(k)) =~= Seq::<(u16, Seq<u8>)>::empty());
        assert(told(acts).skip(0) =~= told(acts.take(k)));
        (chunk, from)
    }
}

/// Writing an image that succeeds, whatever timeouts it met on the way, ends with all
/// of the messages for it, at some chunk size no larger than the one it began with.
pub proof fn law_writing_ends_with_the_whole_image(image: Image, chunk: int, link: Link, acts: Seq<Act>)
    requires
        chunk > 0,
        after(writing(image, chunk, link), acts) == Dialogue::Over(Ok::<(), FlashFault>(())),
    ensures
        exists|c: int, from: int|
            0 < c <= chunk && 0 <= from <= told(acts).len() && #[trigger] told(acts).skip(from)
                == #[trigger] image_orders(image.start, image.data, c),
{
    let (c, from) = lemma_writing_ends_with_the_whole_image(image, chunk, link, acts);
    assert(told(acts).skip(from) == image_orders(image.start, image.data, c));
}

// ---------------------------------------------------------------------------
// Read-back verification
// ---------------------------------------------------------------------------

/// A verification that succeeds has read back just the bytes that were written.
pub proof fn law_verified_data_was_read_back(
    addr: u32,
    data: Seq<u8>,
    file_id: Seq<char>,
    link: Link,
    acts: Seq<Act>,
)
    requires
        after(verifying(addr, data, file_id, link), acts) == Dialogue::Over(Ok::<(), FlashFault>(())),
    ensures
        exists|k: int| #[trigger]
            ends_at(
                reading(addr, data.len(), READBACK_CHUNK as nat, Seq::empty(), link),
                acts,
                k,
                Ok::<Seq<u8>, FlashFault>(data),
            ),
{
    let done = Ok::<(), FlashFault>(());
    let read = reading(addr, data.len(), READBACK_CHUNK as nat, Seq::empty(), link);
    lemma_held_in_parts_whatever_follows::<Result<Seq<u8>, FlashFault>, Result<(), FlashFault>>(
        read,
        acts,
        done,
    );
    let (k, r) = choose|k: int, r: Result<Seq<u8>, FlashFault>| #[trigger]
        ends_at(read, acts, k, r) && after(
            match r {
                Ok(back) => if back == data {
                    note(file_id, data.len() as int, data.len() as int).talk()
                } else {
                    Dialogue::Over(Err(FlashFault::VerifyMismatch(file_id)))
                },
                Err(e) => Dialogue::Over(Err(e)),
            },
            acts.skip(k),
        ) == Dialogue::Over(done);
    match r {
        Ok(back) => {
            if back != data {
                lemma_over(
                    Err::<(), FlashFault>(FlashFault::VerifyMismatch(file_id)),
                    acts.skip(k),
                    done,
                );
            }
        },
        Err(e) => {
            lemma_over(Err::<(), FlashFault>(e), acts.skip(k), done);
        },
    }
}

// ---------------------------------------------------------------------------
// Finding the size of the flash
// ---------------------------------------------------------------------------

/// Whether, in some acts, every probe that was answered was answered as by a device
/// with `size` bytes of flash from `base` on: with the read type just where the
/// offset is below the size.
pub open spec fn answered_by_size(acts: Seq<Act>, base: u32, size: nat) -> bool {
    forall|i: int, off: nat|
        #![trigger acts[i], moved_on(base, off)]
        0 <= i && i + 1 < acts.len() && off < SIZE_CAP && acts[i].step == (Step::Tell {
            cmd: cmd::READ_FLASH,
            data: read_request(moved_on(base, off), 16),
            checksum: sum(),
        }) ==> (acts[i + 1].outcome matches Ok((kind, _)) ==> (kind == rep::READ_FLASH) == (off
            < size))
}

proof fn lemma_answered_later(acts: Seq<Act>, base: u32, size: nat, k: int)
    requires
        answered_by_size(acts, base, size),
        0 <= k <= acts.len(),
    ensures
        answered_by_size(acts.skip(k), base, size),
{
    let later = acts.skip(k);
    assert forall|i: int, off: nat|
        #![trigger later[i], moved_on(base, off)]
        0 <= i && i + 1 < later.len() && off < SIZE_CAP && later[i].step == (Step::Tell {
            cmd: cmd::READ_FLASH,
            data: read_request(moved_on(base, off), 16),
            checksum: sum(),
        }) implies (later[i + 1].outcome matches Ok((kind, _)) ==> (kind == rep::READ_FLASH) == (
    off < size)) by {
        assert(later[i] == acts[i + k]);
        assert(later[i + 1] == acts[i + k + 1]);
    }
}

/// A probe that was answered is a read request and its answer.
proof fn lemma_probed(addr: u32, link: Link, acts: Seq<Act>, readable: bool)
    requires
        link.checksum == sum(),
        after(probing(addr, link), acts) == Dialogue::Over(Ok::<bool, FlashFault>(readable)),
    ensures
        acts.len() == 2,
        acts[0].step == (Step::Tell {
            cmd: cmd::READ_FLASH,
            data: read_request(addr, 16),
            checksum: sum(),
        }),
        acts[1].outcome matches Ok((kind, _)) && readable == (kind == rep::READ_FLASH),
{
    let request = read_request(addr, 16);
    let asked = ask(cmd::READ_FLASH, request, link);
    let f1 = unless_failed(
        |m: (u16, Seq<u8>)|
            Dialogue::<Result<bool, FlashFault>>::Over(Ok(m.0 == rep::READ_FLASH)),
    );
    let (k1, r1) = lemma_held_in_parts(asked, f1, acts, Ok::<bool, FlashFault>(readable));
    lemma_over(f1(r1)->Over_0, acts.skip(k1), Ok::<bool, FlashFault>(readable));
    let both = acts.take(k1);
    let f2 = unless_failed(|_n: ()| hear(link.timeout_ms));
    let (k2, r2) = lemma_held_in_parts(tell(cmd::READ_FLASH, request, sum()), f2, both, r1);
    match tell(cmd::READ_FLASH, request, sum()) {
        Dialogue::Next(step, go_on) => {
            lemma_one_step(step, go_on, both.take(k2), r2);
        },
        _ => {},
    }
    match r2 {
        Ok(_) => {},
        Err(e) => {
            lemma_over(Err::<(u16, Seq<u8>), FlashFault>(e), both.skip(k2), r1);
        },
    }
    match hear(link.timeout_ms) {
        Dialogue::Next(step, go_on) => {
            lemma_one_step(step, go_on, both.skip(k2), r1);
        },
        _ => {},
    }
    assert(acts[0] == both.take(k2)[0]);
    assert(acts[1] == both.skip(k2)[0]);
}

/// A size rounded up to 64 KiB.
pub open spec fn rounded_up(size: nat) -> int {
    (size as int + 65535) / 65536 * 65536
}

#[verifier::spinoff_prover]
#[verifier::rlimit(30)]
proof fn lemma_halving_finds(
    base: u32,
    lo: int,
    hi: int,
    size: nat,
    link: Link,
    acts: Seq<Act>,
    found: u32,
)
    requires
        0 <= lo < hi <= SIZE_CAP,
        lo % (SIZE_GRAIN as int) == 0,
        hi % (SIZE_GRAIN as int) == 0,
        lo < size,
        size <= hi || hi == SIZE_CAP,
        link.checksum == sum(),
        answered_by_size(acts, base, size),
        after(halving(base, lo, hi, link), acts) == Dialogue::Over(Ok::<u32, FlashFault>(found)),
    ensures
        found == least(rounded_up(size), SIZE_CAP as int),
    decreases hi - lo,
{
    let mid = middle(lo, hi);
    let end = Ok::<u32, FlashFault>(found);
    if hi - lo <= SIZE_GRAIN {
        lemma_over(Ok::<u32, FlashFault>(hi as u32), acts, end);
        assert(hi == lo + SIZE_GRAIN);
    } else {
        assert(lo < mid < hi);
        assert(mid % (SIZE_GRAIN as int) == 0);
        let probe = probing(moved_on(base, mid as nat), link);
        lemma_held_in_parts_whatever_follows::<Result<bool, FlashFault>, Result<u32, FlashFault>>(
            probe,
            acts,
            end,
        );
        let (k, r) = choose|k: int, r: Result<bool, FlashFault>| #[trigger]
            ends_at(probe, acts, k, r) && after(
                match r {
                    Ok(readable) => if readable {
                        halving(base, mid, hi, link)
                    } else {
                        halving(base, lo, mid, link)
                    },
                    Err(e) => Dialogue::Over(Err(e)),
                },
                acts.skip(k),
            ) == Dialogue::Over(end);
        match r {
            Err(e) => {
                lemma_over(Err::<u32, FlashFault>(e), acts.skip(k), end);
            },
            Ok(readable) => {
                lemma_probed(moved_on(base, mid as nat), link, acts.take(k), readable);
                assert(acts[0] == acts.take(k)[0] && acts[1] == acts.take(k)[1]);
                assert(readable == (mid < size));
                lemma_answered_later(acts, base, size, k);
                if readable {
                    lemma_halving_finds(base, mid, hi, size, link, acts.skip(k), found);
                } else {
                    lemma_halving_finds(base, lo, mid, size, link, acts.skip(k), found);
                }
            },
        }
    }
}

#[verifier::spinoff_prover]
#[verifier::rlimit(30)]
proof fn lemma_doubling_finds(
    base: u32,
    lo: int,
    s: int,
    size: nat,
    link: Link,
    acts: Seq<Act>,
    found: u32,
)
    requires
        0 <= lo < s,
        lo < SIZE_CAP,
        lo % (SIZE_GRAIN as int) == 0,
        s % (SIZE_GRAIN as int) == 0,
        lo < size,
        link.checksum == sum(),
        answered_by_size(acts, base, size),
        after(doubling(base, lo, s, link), acts) == Dialogue::Over(Ok::<u32, FlashFault>(found)),
    ensures
        found == least(rounded_up(size), SIZE_CAP as int),
    decreases still_to_read(SIZE_CAP as nat, s as nat),
{
    let end = Ok::<u32, FlashFault>(found);
    if s >= SIZE_CAP {
        lemma_halving_finds(base, lo, SIZE_CAP as int, size, link, acts, found);
    } else {
        let probe = probing(moved_on(base, s as nat), link);
        lemma_held_in_parts_whatever_follows::<Result<bool, FlashFault>, Result<u32, FlashFault>>(
            probe,
            acts,
            end,
        );
        let (k, r) = choose|k: int, r: Result<bool, FlashFault>| #[trigger]
            ends_at(probe, acts, k, r) && after(
                match r {
                    Ok(readable) => if readable {
                        doubling(base, s, 2 * s, link)
                    } else {
                        halving(base, lo, s, link)
                    },
                    Err(e) => Dialogue::Over(Err(e)),
                },
                acts.skip(k),
            ) == Dialogue::Over(end);
        match r {
            Err(e) => {
                lemma_over(Err::<u32, FlashFault>(e), acts.skip(k), end);
            },
            Ok(readable) => {
                lemma_probed(moved_on(base, s as nat), link, acts.take(k), readable);
                assert(acts[0] == acts.take(k)[0] && acts[1] == acts.take(k)[1]);
                assert(readable == (s < size));
                lemma_answered_later(acts, base, size, k);
                if readable {
                    assert((2 * s) % (SIZE_GRAIN as int) == 0);
                    lemma_doubling_finds(base, s, 2 * s, size, link, acts.skip(k), found);
                } else {
                    lemma_halving_finds(base, lo, s, size, link, acts.skip(k), found);
                }
            },
        }
    }
}

/// Against a device that answers as one with `size` bytes of flash, the size that is
/// found is that size, rounded up to 64 KiB and no larger than 128 MiB; none is found
/// if the device has no flash there.
pub proof fn law_size_is_found(base: u32, size: nat, link: Link, acts: Seq<Act>, found: u32)
    requires
        link.checksum == sum(),
        answered_by_size(acts, base, size),
        after(sizing(base, link), acts) == Dialogue::Over(Ok::<u32, FlashFault>(found)),
    ensures
        size > 0,
        found == least(rounded_up(size), 0x800_0000),
{
    let end = Ok::<u32, FlashFault>(found);
    let probe = probing(base, link);
    lemma_held_in_parts_whatever_follows::<Result<bool, FlashFault>, Result<u32, FlashFault>>(
        probe,
        acts,
        end,
    );
    let (k, r) = choose|k: int, r: Result<bool, FlashFault>| #[trigger]
        ends_at(probe, acts, k, r) && after(
            match r {
                Ok(readable) => if readable {
                    doubling(base, 0, FIRST_PROBE as int, link)
                } else {
                    Dialogue::Over(Err(FlashFault::FlashSize))
                },
                Err(e) => Dialogue::Over(Err(e)),
            },
            acts.skip(k),
        ) == Dialogue::Over(end);
    match r {
        Err(e) => {
            lemma_over(Err::<u32, FlashFault>(e), acts.skip(k), end);
        },
        Ok(readable) => {
            lemma_probed(base, link, acts.take(k), readable);
            assert(acts[0] == acts.take(k)[0] && acts[1] == acts.take(k)[1]);
            assert(moved_on(base, 0) == base) by {
                reveal(moved_on);
            }
            assert(readable == (0 < size));
            if !readable {
                lemma_over(Err::<u32, FlashFault>(FlashFault::FlashSize), acts.skip(k), end);
            }
            lemma_answered_later(acts, base, size, k);
            lemma_doubling_finds(base, 0, FIRST_PROBE as int, size, link, acts.skip(k), found);
        },
    }
}

} // verus!
