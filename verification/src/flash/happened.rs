//! What happens on the line and what the user is told, act by act.

use vstd::prelude::*;

use crate::bsl::{
    body_of, frame_stands, law_body_is_read, law_first_frame_is_found, law_message_layout,
    message_of, unescaped, Checksum,
};
use crate::checksum::{crc16_ccitt_of, sprd_sum_of};
use crate::flash::bsl_io::{image_tasks, least, midst_tasks, note, ImageNames};
use crate::flash::dialogue::{
    after, all_of, ask, bsl_fault, command, hear, judged, lemma_reports_of_concat, order, packet,
    pdl_fault, pdl_step, reports_of, step_alone, tell, unless_failed, Act, Dialogue, Link, Step,
    Task, Upset,
};
use crate::flash::fault::FlashFault;
use crate::flash::laws::{lemma_held_in_parts, lemma_one_step, lemma_over};
use crate::flash::pdl_io::{block_tasks, load_tasks};
use crate::flash::progress::Report;
use crate::transport::{gathered, Event};

verus! {

// ---------------------------------------------------------------------------
// On the line
// ---------------------------------------------------------------------------

/// Whether a frame on the wire carries a message: between its two flags and unescaped, it has
/// the type and the length of the data, most significant byte first, the data, and the
/// checksum of all that, most significant byte first.
pub open spec fn carries(wire: Seq<u8>, cmd: u16, data: Seq<u8>, checksum: Checksum) -> bool {
    let body = unescaped(wire.subrange(1, wire.len() - 1));
    let n = data.len() as int;
    &&& wire.len() >= 2 && wire[0] == 0x7E && wire.last() == 0x7E
    &&& body.len() == n + 6
    &&& 256 * body[0] + body[1] == cmd
    &&& 256 * body[2] + body[3] == n % 65536
    &&& body.subrange(4, n + 4) == data
    &&& 256 * body[n + 4] + body[n + 5] == match checksum {
        Checksum::Sprd => sprd_sum_of(body.take(n + 4)),
        Checksum::Crc => crc16_ccitt_of(body.take(n + 4)),
    }
}

/// A message that is sent goes out in one write, of a frame that carries it, and it is sent
/// just if that write does not fail.
pub proof fn law_message_goes_out_whole(act: Act)
    requires
        act.valid(),
        act.step is Tell,
    ensures
        act.events.len() == 1,
        act.events[0] is Wrote,
        carries(act.events[0]->Wrote_data, act.step->cmd, act.step->Tell_data, act.step->checksum),
        act.outcome is Ok <==> act.events[0]->Wrote_fault is None,
{
    match act.step {
        Step::Tell { cmd, data, checksum } => {
            law_message_layout(cmd, data, checksum);
            let wire = message_of(cmd, data, checksum);
            assert(unescaped(wire.subrange(1, wire.len() - 1)) == body_of(cmd, data, checksum));
        },
        _ => {},
    }
}

/// The rate of the line is set once, to what was asked for; input is thrown away once; the
/// line is held once, as long as was asked for; and to tell the user does nothing to the line.
pub proof fn law_line_is_handled_as_asked(act: Act)
    requires
        act.valid(),
    ensures
        act.step matches Step::Rate { baud } ==> act.events.len() == 1 && act.events[0] is BaudSet
            && act.events[0]->rate == baud && (act.outcome is Ok
            <==> act.events[0]->BaudSet_fault is None),
        act.step is Purge ==> act.events.len() == 1 && act.events[0] is Purged && act.outcome is Ok,
        act.step matches Step::Hold { millis } ==> act.events.len() == 1 && act.events[0] is Held
            && act.events[0]->Held_millis == millis && act.outcome is Ok,
        act.step is Note ==> act.events.len() == 0 && act.outcome is Ok,
{
}

/// What came in is what each read brought, in order; other events bring nothing.
pub proof fn law_input_is_gathered(a: Seq<Event>, b: Seq<Event>, e: Event)
    ensures
        gathered(Seq::empty()) == Seq::<u8>::empty(),
        gathered(a + b) == gathered(a) + gathered(b),
        gathered(seq![e]) == match e {
            Event::Read { room, data } => data,
            _ => Seq::empty(),
        },
    decreases b.len(),
{
    assert(seq![e].drop_last() =~= Seq::<Event>::empty());
    reveal_with_fuel(gathered, 2);
    match e {
        Event::Read { room, data } => {
            assert(Seq::<u8>::empty() + data =~= data);
        },
        _ => {},
    }
    if b.len() == 0 {
        assert(a + b =~= a);
        assert(gathered(a) + gathered(b) =~= gathered(a));
    } else {
        assert((a + b).drop_last() =~= a + b.drop_last());
        law_input_is_gathered(a, b.drop_last(), e);
        assert(gathered(a + b) =~= gathered(a) + gathered(b));
    }
}

/// Whether a payload is that of the first PDL reply in some bytes: that begins at the first
/// `ae`, has its length in the two bytes behind, least significant first, and its payload from
/// the eighth byte behind on.
pub open spec fn first_reply(buf: Seq<u8>, payload: Seq<u8>) -> bool {
    exists|at: int|
        0 <= at && at + 8 + payload.len() <= buf.len() && #[trigger] buf[at] == 0xAE && (forall|
            k: int,
        |
            0 <= k < at ==> #[trigger] buf[k] != 0xAE) && payload.len() == buf[at + 1] + 256 * buf[at
            + 2] && payload == buf.subrange(at + 8, at + 8 + payload.len())
}

/// Whether a message is the first in some bytes: the first frame in them, unescaped, has its
/// type in its first two bytes, the length of its data in the next two, most significant first,
/// and then its data, with two bytes behind.
pub open spec fn first_message(buf: Seq<u8>, kind: u16, data: Seq<u8>) -> bool {
    exists|open: int, from: int, to: int|
        #[trigger] frame_stands(buf, open, from, to) && ({
            let body = unescaped(buf.subrange(from, to));
            &&& body.len() >= data.len() + 6
            &&& kind == 256 * body[0] + body[1]
            &&& data.len() == 256 * body[2] + body[3]
            &&& data == body.subrange(4, 4 + data.len() as int)
        })
}

/// What comes of waiting for a PDL reply is the first that came in, and for a BSL message
/// likewise; nothing but reads, of up to 4096 bytes each, happens meanwhile.
pub proof fn law_first_that_comes_in_is_taken(act: Act)
    requires
        act.valid(),
        act.step is Await || act.step is Hear,
        act.outcome is Ok,
        gathered(act.events).len() <= usize::MAX,
    ensures
        forall|i: int|
            0 <= i < act.events.len() ==> (#[trigger] act.events[i]) is Read
                && act.events[i]->room == 4096,
        act.step is Await ==> first_reply(gathered(act.events), (act.outcome->Ok_0).1),
        act.step is Hear ==> first_message(
            gathered(act.events),
            (act.outcome->Ok_0).0,
            (act.outcome->Ok_0).1,
        ),
{
    let buf = gathered(act.events);
    let nothing = Seq::<u8>::empty();
    assert(nothing + buf =~= buf);
    assert forall|i: int| 0 <= i < act.events.len() implies (#[trigger] act.events[i]) is Read
        && act.events[i]->room == 4096 by {
        assert(crate::transport::is_read(
            act.events[i],
            crate::transport::READ_SIZE as nat,
        ));
    }
    match act.step {
        Step::Await { timeout_ms } => {
            crate::pdl::law_first_reply_is_found(buf);
        },
        Step::Hear { timeout_ms } => {
            law_first_frame_is_found(buf);
            let body = crate::bsl::frame_body(buf)->0;
            let (open, from, to) = choose|open: int, from: int, to: int|
                #[trigger] frame_stands(buf, open, from, to) && body == unescaped(
                    buf.subrange(from, to),
                );
            assert(frame_stands(buf, open, from, to));
            crate::bsl::lemma_unescaped_len(buf.subrange(from, to));
            law_body_is_read(body);
        },
        _ => {},
    }
}

// ---------------------------------------------------------------------------
// What the user is told
// ---------------------------------------------------------------------------

/// The reports among some tasks.
pub open spec fn notes(tasks: Seq<Task>) -> Seq<Report>
    decreases tasks.len(),
{
    if tasks.len() == 0 {
        Seq::empty()
    } else {
        let rest = notes(tasks.skip(1));
        match tasks[0] {
            Task::Just(Step::Note { report }) => seq![report] + rest,
            _ => rest,
        }
    }
}

/// Whether some reports tell of something of `total` bytes that is done in pieces of `chunk`:
/// there is one for each piece, the `k`-th of them says that `k` pieces are done, and the last
/// that all is.
pub open spec fn counts_up(reports: Seq<Report>, stage: Seq<char>, total: int, chunk: int) -> bool {
    &&& reports.len() == (total + chunk - 1) / chunk
    &&& forall|i: int|
        0 <= i < reports.len() ==> ({
            let r = #[trigger] reports[i];
            &&& r.stage == stage
            &&& r.total == total
            &&& r.done == if i == reports.len() - 1 {
                total
            } else {
                (i + 1) * chunk
            }
        })
}

proof fn lemma_reports_split(acts: Seq<Act>, k: int)
    requires
        0 <= k <= acts.len(),
    ensures
        reports_of(acts) == reports_of(acts.take(k)) + reports_of(acts.skip(k)),
{
    assert(acts =~= acts.take(k) + acts.skip(k));
    lemma_reports_of_concat(acts.take(k), acts.skip(k));
}

proof fn lemma_reports_one(act: Act)
    ensures
        reports_of(seq![act]) == match act.step {
            Step::Note { report } => seq![report],
            _ => Seq::empty(),
        },
{
    assert(seq![act].drop_last() =~= Seq::<Act>::empty());
    reveal_with_fuel(reports_of, 2);
    match act.step {
        Step::Note { report } => {
            assert(Seq::<Report>::empty().push(report) =~= seq![report]);
        },
        _ => {},
    }
}

proof fn lemma_reports_by_step(
    step: Step,
    fault: spec_fn(Upset) -> FlashFault,
    acts: Seq<Act>,
    r: Result<(), FlashFault>,
)
    requires
        after(step_alone(step, fault), acts) == Dialogue::Over(r),
    ensures
        reports_of(acts) == match step {
            Step::Note { report } => seq![report],
            _ => Seq::empty(),
        },
{
    match step_alone(step, fault) {
        Dialogue::Next(s, go_on) => {
            lemma_one_step(s, go_on, acts, r);
            assert(acts =~= seq![acts[0]]);
            lemma_reports_one(acts[0]);
        },
        _ => {},
    }
}

proof fn lemma_reports_by_hear(
    timeout_ms: u64,
    acts: Seq<Act>,
    r: Result<(u16, Seq<u8>), FlashFault>,
)
    requires
        after(hear(timeout_ms), acts) == Dialogue::Over(r),
    ensures
        reports_of(acts) == Seq::<Report>::empty(),
{
    match hear(timeout_ms) {
        Dialogue::Next(s, go_on) => {
            lemma_one_step(s, go_on, acts, r);
            assert(acts =~= seq![acts[0]]);
            lemma_reports_one(acts[0]);
        },
        _ => {},
    }
}

proof fn lemma_reports_by_order(
    cmd: u16,
    data: Seq<u8>,
    link: Link,
    expect: u16,
    what: Seq<char>,
    acts: Seq<Act>,
)
    requires
        after(order(cmd, data, link, expect, what), acts) == Dialogue::Over(
            Ok::<(), FlashFault>(()),
        ),
    ensures
        reports_of(acts) == Seq::<Report>::empty(),
{
    reveal(command);
    let nothing = Seq::<Report>::empty();
    let f1 = unless_failed(|_d: Seq<u8>| Dialogue::<Result<(), FlashFault>>::Over(Ok(())));
    let (k1, r1) = lemma_held_in_parts(
        command(cmd, data, link, expect, what),
        f1,
        acts,
        Ok::<(), FlashFault>(()),
    );
    lemma_reports_split(acts, k1);
    lemma_over(f1(r1)->Over_0, acts.skip(k1), Ok::<(), FlashFault>(()));
    let acts = acts.take(k1);
    let f2 = unless_failed(|m: (u16, Seq<u8>)| Dialogue::Over(judged(Ok(m), expect, what)));
    let (k2, r2) = lemma_held_in_parts(ask(cmd, data, link), f2, acts, r1);
    lemma_reports_split(acts, k2);
    lemma_over(f2(r2)->Over_0, acts.skip(k2), r1);
    let acts = acts.take(k2);
    let f3 = unless_failed(|_n: ()| hear(link.timeout_ms));
    let (k3, r3) = lemma_held_in_parts(tell(cmd, data, link.checksum), f3, acts, r2);
    lemma_reports_split(acts, k3);
    lemma_reports_by_step(
        Step::Tell { cmd, data, checksum: link.checksum },
        |u: Upset| bsl_fault(u),
        acts.take(k3),
        r3,
    );
    lemma_reports_by_hear(link.timeout_ms, acts.skip(k3), r2);
    assert(nothing + nothing =~= nothing);
}

proof fn lemma_reports_by_packet(payload: Seq<u8>, timeout_ms: u64, acts: Seq<Act>)
    requires
        after(packet(payload, timeout_ms), acts) == Dialogue::Over(Ok::<(), FlashFault>(())),
    ensures
        reports_of(acts) == Seq::<Report>::empty(),
{
    let f = unless_failed(|_n: ()| pdl_step(Step::Await { timeout_ms }));
    let fault = |u: Upset| pdl_fault(u);
    let done = Ok::<(), FlashFault>(());
    let (k, r) = lemma_held_in_parts(pdl_step(Step::Packet { payload }), f, acts, done);
    lemma_reports_split(acts, k);
    lemma_reports_by_step(Step::Packet { payload }, fault, acts.take(k), r);
    lemma_reports_by_step(Step::Await { timeout_ms }, fault, acts.skip(k), done);
}

proof fn lemma_tasks_are_reported(tasks: Seq<Task>, acts: Seq<Act>)
    requires
        after(all_of(tasks), acts) == Dialogue::Over(Ok::<(), FlashFault>(())),
    ensures
        reports_of(acts) == notes(tasks),
    decreases tasks.len(),
{
    let done = Ok::<(), FlashFault>(());
    if tasks.len() == 0 {
        lemma_over(done, acts, done);
    } else {
        let f = unless_failed(|_n: ()| all_of(tasks.skip(1)));
        let (k, r) = lemma_held_in_parts(tasks[0].talk(), f, acts, done);
        lemma_reports_split(acts, k);
        lemma_tasks_are_reported(tasks.skip(1), acts.skip(k));
        match tasks[0] {
            Task::Packet { payload, timeout_ms } => {
                lemma_reports_by_packet(payload, timeout_ms, acts.take(k));
            },
            Task::Command { cmd, data, link, expect, what } => {
                lemma_reports_by_order(cmd, data, link, expect, what, acts.take(k));
            },
            Task::Just(step) => {
                lemma_reports_by_step(step, |u: Upset| bsl_fault(u), acts.take(k), r);
            },
        }
        assert(Seq::<Report>::empty() + reports_of(acts.skip(k)) =~= reports_of(acts.skip(k)));
    }
}

proof fn lemma_notes_concat(a: Seq<Task>, b: Seq<Task>)
    ensures
        notes(a + b) == notes(a) + notes(b),
    decreases a.len(),
{
    if a.len() == 0 {
        assert(a + b =~= b);
        assert(notes(a) + notes(b) =~= notes(b));
    } else {
        assert((a + b).skip(1) =~= a.skip(1) + b);
        lemma_notes_concat(a.skip(1), b);
        assert(notes(a + b) =~= notes(a) + notes(b));
    }
}

proof fn lemma_note_after(t: Task, report: Report)
    requires
        !(t is Just),
    ensures
        notes(seq![t]) == Seq::<Report>::empty(),
        notes(seq![t, Task::Just(Step::Note { report })]) == seq![report],
{
    let n = Task::Just(Step::Note { report });
    assert(seq![t].skip(1) =~= Seq::<Task>::empty());
    assert(seq![t, n].skip(1) =~= seq![n]);
    assert(seq![n].skip(1) =~= Seq::<Task>::empty());
    reveal_with_fuel(notes, 3);
    assert(seq![report] + Seq::<Report>::empty() =~= seq![report]);
}

/// Whether some reports count on from `off`, in pieces of `chunk`.
spec fn counts_on(
    reports: Seq<Report>,
    stage: Seq<char>,
    off: int,
    total: int,
    chunk: int,
) -> bool {
    &&& off + reports.len() * chunk >= total
    &&& reports.len() > 0 ==> off + (reports.len() - 1) * chunk < total
    &&& forall|i: int|
        0 <= i < reports.len() ==> counted(
            #[trigger] reports[i],
            stage,
            total,
            off + (i + 1) * chunk,
        )
}

spec fn counted(r: Report, stage: Seq<char>, total: int, upto: int) -> bool {
    r.stage == stage && r.total == total && r.done == least(upto, total)
}

proof fn lemma_counts_on(
    report: Report,
    rest: Seq<Report>,
    stage: Seq<char>,
    off: int,
    total: int,
    chunk: int,
)
    requires
        chunk > 0,
        off < total,
        counted(report, stage, total, off + chunk),
        off + chunk < total ==> counts_on(rest, stage, off + chunk, total, chunk),
        off + chunk >= total ==> rest.len() == 0,
    ensures
        counts_on(seq![report] + rest, stage, off, total, chunk),
{
    let all = seq![report] + rest;
    let n = rest.len() as int;
    assert((n + 1) * chunk == n * chunk + chunk) by (nonlinear_arith);
    if n > 0 {
        assert((n - 1) * chunk + chunk == n * chunk) by (nonlinear_arith);
    }
    assert(1 * chunk == chunk && 0 * chunk == 0) by (nonlinear_arith);
    assert forall|i: int| 0 <= i < all.len() implies counted(
        #[trigger] all[i],
        stage,
        total,
        off + (i + 1) * chunk,
    ) by {
        if i > 0 {
            assert(all[i] == rest[i - 1]);
            assert((i + 1) * chunk == chunk + i * chunk) by (nonlinear_arith);
            assert(counted(rest[i - 1], stage, total, off + chunk + (i - 1 + 1) * chunk));
        }
    }
}

proof fn lemma_counted_up(reports: Seq<Report>, stage: Seq<char>, total: int, chunk: int)
    requires
        chunk > 0,
        total >= 0,
        total == 0 ==> reports.len() == 0,
        total > 0 ==> counts_on(reports, stage, 0, total, chunk),
    ensures
        counts_up(reports, stage, total, chunk),
{
    let n = reports.len() as int;
    if total > 0 {
        assert(n > 0) by {
            if n == 0 {
                assert(0 * chunk == 0) by (nonlinear_arith);
            }
        }
        assert(n == (total + chunk - 1) / chunk) by (nonlinear_arith)
            requires
                chunk > 0,
                n * chunk >= total,
                (n - 1) * chunk < total,
        ;
        assert forall|i: int| 0 <= i < n implies ({
            let r = #[trigger] reports[i];
            &&& r.stage == stage
            &&& r.total == total
            &&& r.done == if i == n - 1 {
                total
            } else {
                (i + 1) * chunk
            }
        }) by {
            assert(counted(reports[i], stage, total, 0 + (i + 1) * chunk));
            if i < n - 1 {
                assert((i + 1) * chunk <= (n - 1) * chunk) by (nonlinear_arith)
                    requires
                        i < n - 1,
                        chunk > 0,
                ;
            }
        }
    } else {
        assert((chunk - 1) / chunk == 0) by (nonlinear_arith)
            requires
                chunk > 0,
        ;
    }
}

proof fn lemma_first_block(data: Seq<u8>, i: nat, label: Seq<char>, timeout_ms: u64) -> (
    first: Task)
    requires
        i * 2048 < data.len() <= u64::MAX,
    ensures
        !(first is Just),
        block_tasks(data, i, label, timeout_ms) == seq![
            first,
            note(label, least(i as int * 2048 + 2048, data.len() as int), data.len() as int),
        ] + block_tasks(data, i + 1, label, timeout_ms),
{
    let tasks = block_tasks(data, i, label, timeout_ms);
    assert(tasks.len() >= 2);
    tasks[0]
}

proof fn lemma_notes_of_pair(first: Task, report: Report, rest: Seq<Task>)
    requires
        !(first is Just),
    ensures
        notes(seq![first, Task::Just(Step::Note { report })] + rest) == seq![report] + notes(rest),
{
    lemma_notes_concat(seq![first, Task::Just(Step::Note { report })], rest);
    lemma_note_after(first, report);
}

proof fn lemma_block_notes(data: Seq<u8>, i: nat, label: Seq<char>, timeout_ms: u64)
    requires
        data.len() <= u64::MAX,
    ensures
        ({
            let found = notes(block_tasks(data, i, label, timeout_ms));
            &&& i * 2048 >= data.len() ==> found.len() == 0
            &&& i * 2048 < data.len() ==> counts_on(
                found,
                label,
                i as int * 2048,
                data.len() as int,
                2048,
            )
        }),
    decreases
            if data.len() >= i * 2048 {
                data.len() - i * 2048
            } else {
                0
            },
{
    let off = i as int * 2048;
    let total = data.len() as int;
    if off < total {
        let first = lemma_first_block(data, i, label, timeout_ms);
        let rest = block_tasks(data, i + 1, label, timeout_ms);
        lemma_block_notes(data, i + 1, label, timeout_ms);
        let end = least(off + 2048, total);
        let report = Report { stage: label, done: end as u64, total: total as u64 };
        lemma_notes_of_pair(first, report, rest);
        lemma_counts_on(report, notes(rest), label, off, total, 2048);
    } else {
        assert(block_tasks(data, i, label, timeout_ms) =~= Seq::<Task>::empty());
    }
}

/// While an image is loaded over PDL, the user is told after each block of 2048 bytes how much
/// of it is there.
pub proof fn law_load_is_reported(
    addr: u32,
    data: Seq<u8>,
    label: Seq<char>,
    timeout_ms: u64,
    acts: Seq<Act>,
)
    requires
        data.len() <= u64::MAX,
        after(all_of(load_tasks(addr, data, label, timeout_ms)), acts) == Dialogue::Over(
            Ok::<(), FlashFault>(()),
        ),
    ensures
        counts_up(reports_of(acts), label, data.len() as int, 2048),
{
    let tasks = load_tasks(addr, data, label, timeout_ms);
    let blocks = block_tasks(data, 0, label, timeout_ms);
    lemma_tasks_are_reported(tasks, acts);
    let first = seq![tasks[0]];
    let last = seq![tasks.last()];
    assert(tasks =~= first + blocks + last);
    lemma_notes_concat(first + blocks, last);
    lemma_notes_concat(first, blocks);
    let any = Report { stage: label, done: 0, total: 0 };
    lemma_note_after(tasks[0], any);
    lemma_note_after(tasks.last(), any);
    let none = Seq::<Report>::empty();
    assert(none + notes(blocks) + none =~= notes(blocks));
    lemma_block_notes(data, 0, label, timeout_ms);
    lemma_counted_up(notes(blocks), label, data.len() as int, 2048);
}

proof fn lemma_midst_notes(
    data: Seq<u8>,
    off: int,
    chunk: int,
    link: Link,
    what: Seq<char>,
    label: Seq<char>,
)
    requires
        data.len() <= u64::MAX,
        0 <= off,
        chunk > 0,
    ensures
        ({
            let found = notes(midst_tasks(data, off, chunk, link, what, label));
            &&& off >= data.len() ==> found.len() == 0
            &&& off < data.len() ==> counts_on(found, label, off, data.len() as int, chunk)
        }),
    decreases data.len() - off,
{
    if off < data.len() {
        let tasks = midst_tasks(data, off, chunk, link, what, label);
        let end = least(off + chunk, data.len() as int);
        let rest = midst_tasks(data, end, chunk, link, what, label);
        lemma_midst_notes(data, end, chunk, link, what, label);
        let report = Report { stage: label, done: end as u64, total: data.len() as u64 };
        let pair = seq![tasks[0], tasks[1]];
        assert(tasks[1] == note(label, end, data.len() as int));
        assert(tasks =~= pair + rest);
        lemma_notes_concat(pair, rest);
        lemma_note_after(tasks[0], report);
        lemma_counts_on(report, notes(rest), label, off, data.len() as int, chunk);
    }
}

/// While an image is written, the user is told after each piece how much of it is there.
pub proof fn law_write_is_reported(
    start: Seq<u8>,
    data: Seq<u8>,
    chunk: int,
    link: Link,
    names: ImageNames,
    label: Seq<char>,
    acts: Seq<Act>,
)
    requires
        chunk > 0,
        data.len() <= u64::MAX,
        after(all_of(image_tasks(start, data, chunk, link, names, label)), acts) == Dialogue::Over(
            Ok::<(), FlashFault>(()),
        ),
    ensures
        counts_up(reports_of(acts), label, data.len() as int, chunk),
{
    let tasks = image_tasks(start, data, chunk, link, names, label);
    let midst = midst_tasks(data, 0, chunk, link, names.midst@, label);
    lemma_tasks_are_reported(tasks, acts);
    let first = seq![tasks[0]];
    let last = seq![tasks.last()];
    assert(tasks =~= first + midst + last);
    lemma_notes_concat(first + midst, last);
    lemma_notes_concat(first, midst);
    let any = Report { stage: label, done: 0, total: 0 };
    lemma_note_after(tasks[0], any);
    lemma_note_after(tasks.last(), any);
    let none = Seq::<Report>::empty();
    assert(none + notes(midst) + none =~= notes(midst));
    lemma_midst_notes(data, 0, chunk, link, names.midst@, label);
    lemma_counted_up(notes(midst), label, data.len() as int, chunk);
}

// ---------------------------------------------------------------------------
// Waiting
// ---------------------------------------------------------------------------

/// A wait for a reply or a message that fails does so because the last read failed; or because
/// the frame that came in is none; or because its time, just what it was given, has run out,
/// and then nothing was found in what came in.
pub proof fn law_wait_fails_for_a_cause(act: Act)
    requires
        act.valid(),
        act.step is Await || act.step is Hear,
        act.outcome is Err,
    ensures
        ({
            let buf = gathered(act.events);
            let given = match act.step {
                Step::Await { timeout_ms } => timeout_ms,
                Step::Hear { timeout_ms } => timeout_ms,
                _ => 0,
            };
            let found = match act.step {
                Step::Await { .. } => crate::pdl::reply_in(buf) is Some,
                _ => crate::bsl::frame_body(buf) is Some,
            };
            &&& act.wait is Some && act.wait->0.limit() == given
            &&& match act.outcome->Err_0 {
                Upset::Transport(f) => {
                    ||| act.events.len() > 0 && act.events.last() is ReadFailed
                        && act.events.last()->ReadFailed_fault == f
                    ||| f is Timeout && act.wait->0.ran_out() && !found
                },
                Upset::Frame(f) => act.step is Hear && found,
                Upset::NoVersion => false,
            }
        }),
{
    let buf = gathered(act.events);
    assert(Seq::<u8>::empty() + buf =~= buf);
}

/// To rouse a device the first thing that is written is a single flag (`7e`), which is due
/// again every 50 milliseconds; nothing else is ever written; and what comes of it is the first
/// stretch between two flags of what came in, both included.
pub proof fn law_device_is_roused_with_flags(act: Act)
    requires
        act.valid(),
        act.step is Rouse,
    ensures
        forall|i: int|
            0 <= i < act.events.len() ==> ((#[trigger] act.events[i]) is Wrote ==> act.events[i]->Wrote_data
                == seq![0x7Eu8]),
        act.outcome is Ok && act.events.len() > 0 ==> act.events[0] is Wrote,
        act.pulse is Some && act.pulse->0.every() == 50,
        act.outcome matches Ok((_, frame)) ==> crate::bsl::flag_frame(gathered(act.events)) == Some(
            frame,
        ),
        act.outcome matches Err(Upset::NoVersion) ==> act.wait is Some && act.wait->0.ran_out()
            && crate::bsl::flag_frame(gathered(act.events)) is None,
{
    let dues = act.pulse->0.dues();
    let n = act.events.len() as int;
    match act.outcome {
        Ok(_) => {
            lemma_rounds(dues, act.events);
        },
        Err(Upset::NoVersion) => {
            lemma_rounds(dues, act.events);
        },
        Err(Upset::Transport(f)) => {
            let before = act.events.drop_last();
            assert forall|i: int| 0 <= i < n implies ((#[trigger] act.events[i]) is Wrote
                ==> act.events[i]->Wrote_data == seq![0x7Eu8]) by {
                if act.events.last() == (Event::ReadFailed { fault: f })
                    && crate::flash::dialogue::up_to_the_read(dues, before) {
                    lemma_up_to_the_read(dues, before);
                } else {
                    lemma_rounds(dues.drop_last(), before);
                }
                if i < n - 1 {
                    assert(act.events[i] == before[i]);
                }
            }
        },
        Err(_) => {},
    }
}

spec fn flags_alone(events: Seq<Event>) -> bool {
    forall|i: int|
        0 <= i < events.len() ==> ((#[trigger] events[i]) is Wrote ==> events[i]->Wrote_data
            == seq![0x7Eu8])
}

proof fn lemma_rounds(dues: Seq<bool>, events: Seq<Event>)
    requires
        crate::flash::dialogue::whole_rounds(dues, events),
    ensures
        flags_alone(events),
        dues.len() > 0 && dues[0] ==> events.len() > 0 && events[0] is Wrote,
        dues.len() == 0 ==> events.len() == 0,
    decreases dues.len(), 1int,
{
    if dues.len() > 0 {
        let before = events.drop_last();
        lemma_up_to_the_read(dues, before);
        assert forall|i: int| 0 <= i < events.len() implies ((#[trigger] events[i]) is Wrote
            ==> events[i]->Wrote_data == seq![0x7Eu8]) by {
            if i < events.len() - 1 {
                assert(events[i] == before[i]);
            }
        }
        if dues[0] {
            assert(events[0] == before[0]);
        }
    }
}

proof fn lemma_up_to_the_read(dues: Seq<bool>, events: Seq<Event>)
    requires
        crate::flash::dialogue::up_to_the_read(dues, events),
    ensures
        flags_alone(events),
        dues.len() > 0,
        dues[0] ==> events.len() > 0 && events[0] is Wrote,
    decreases dues.len(), 0int,
{
    if dues.last() {
        let before = events.drop_last();
        lemma_rounds(dues.drop_last(), before);
        assert forall|i: int| 0 <= i < events.len() implies ((#[trigger] events[i]) is Wrote
            ==> events[i]->Wrote_data == seq![0x7Eu8]) by {
            if i < events.len() - 1 {
                assert(events[i] == before[i]);
            }
        }
        if dues.len() > 1 && dues[0] {
            assert(dues.drop_last()[0] == dues[0]);
            assert(events[0] == before[0]);
        }
    } else {
        lemma_rounds(dues.drop_last(), events);
        if dues.len() > 1 && dues[0] {
            assert(dues.drop_last()[0] == dues[0]);
        }
    }
}

} // verus!
