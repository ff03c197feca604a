//! What goes out to a device, byte by byte.

use vstd::prelude::*;

use crate::bytes::{be32_bytes, le32_bytes};
use crate::flash::bsl_io::{least, note, still_to_read};
use crate::flash::dialogue::{
    after, all_of, bsl_fault, packet, pdl_fault, pdl_step, step_alone, unless_failed, Act, Dialogue,
    Step, Task, Upset,
};
use crate::flash::fault::FlashFault;
use crate::flash::laws::{joined, lemma_held_in_parts, lemma_one_step, lemma_over};
use crate::flash::pdl_io::{block_tasks, executing, load_tasks, pdl_connect_task, rousing};
use crate::pdl::{params_of, Cmd, CHUNK};
use crate::plan::low32;
use crate::transport::Event;

verus! {

/// The number that the four bytes at `at` make up, the first one counting least.
pub open spec fn little(s: Seq<u8>, at: int) -> int {
    s[at] + 256 * s[at + 1] + 65536 * s[at + 2] + 16777216 * s[at + 3]
}

/// The number that the four bytes at `at` make up, the first one counting most.
pub open spec fn big(s: Seq<u8>, at: int) -> int {
    16777216 * s[at] + 65536 * s[at + 1] + 256 * s[at + 2] + s[at + 3]
}

proof fn lemma_little(v: u32)
    ensures
        le32_bytes(v).len() == 4,
        little(le32_bytes(v), 0) == v,
{
}

// ---------------------------------------------------------------------------
// PDL messages
// ---------------------------------------------------------------------------

/// The PDL messages that were sent in some acts.
pub open spec fn packets(acts: Seq<Act>) -> Seq<Seq<u8>>
    decreases acts.len(),
{
    if acts.len() == 0 {
        Seq::empty()
    } else {
        match acts.last().step {
            Step::Packet { payload } => packets(acts.drop_last()).push(payload),
            _ => packets(acts.drop_last()),
        }
    }
}

/// Whether a PDL message holds an opcode, two arguments and some bytes behind them.
pub open spec fn is_packet(p: Seq<u8>, opcode: int, arg1: int, arg2: int, extra: Seq<u8>) -> bool {
    &&& p.len() == 12 + extra.len()
    &&& little(p, 0) == opcode
    &&& little(p, 4) == arg1
    &&& little(p, 8) == arg2
    &&& p.skip(12) == extra
}

/// Three 32-bit fields and what is behind them, all little-endian.
proof fn lemma_packet_fields(a: u32, b: u32, c: u32, extra: Seq<u8>)
    ensures
        is_packet(le32_bytes(a) + le32_bytes(b) + le32_bytes(c) + extra, a as int, b as int, c as int, extra),
{
    let x = le32_bytes(a);
    let y = le32_bytes(b);
    let z = le32_bytes(c);
    let p = x + y + z + extra;
    lemma_little(a);
    lemma_little(b);
    lemma_little(c);
    assert(p[0] == x[0] && p[1] == x[1] && p[2] == x[2] && p[3] == x[3]);
    assert(p[4] == y[0] && p[5] == y[1] && p[6] == y[2] && p[7] == y[3]);
    assert(p[8] == z[0] && p[9] == z[1] && p[10] == z[2] && p[11] == z[3]);
    assert(p.skip(12) =~= extra);
}

/// A PDL message holds its opcode (0 to connect, 4 to begin, 5 for a block, 6 to end, 7 to
/// start what was loaded) and its two arguments, in little-endian fields of 32 bits, and
/// then its other bytes.
pub proof fn law_packet_fields(cmd: Cmd, arg1: u32, arg2: u32, extra: Seq<u8>)
    ensures
        is_packet(
            params_of(cmd, arg1, arg2, extra),
            match cmd {
                Cmd::Connect => 0,
                Cmd::StartData => 4,
                Cmd::MidstData => 5,
                Cmd::EndData => 6,
                Cmd::Exec => 7,
            },
            arg1 as int,
            arg2 as int,
            extra,
        ),
{
    lemma_packet_fields(cmd.opcode(), arg1, arg2, extra);
}

/// A PDL message that was sent went out in two writes: first eight bytes that begin with
/// `ae` and the length of the payload, then the payload. If the first write fails there is
/// no second one.
pub proof fn law_packet_goes_out_in_two_writes(act: Act, payload: Seq<u8>)
    requires
        act.valid(),
        act.step == (Step::Packet { payload }),
    ensures
        0 < act.events.len() <= 2,
        act.events[0] matches Event::Wrote { data, fault } && data.len() == 8 && data[0] == 0xAE
            && data[1] + 256 * data[2] == payload.len() % 65536 && data.subrange(3, 8) == seq![
            0u8,
            0u8,
            0xFFu8,
            0u8,
            0u8,
        ] && (fault is Some ==> act.events.len() == 1),
        act.events.len() == 2 ==> (act.events[1] matches Event::Wrote { data, .. } && data
            == payload),
        act.outcome is Ok ==> act.events.len() == 2 && (act.events[1] matches Event::Wrote {
            fault,
            ..
        } && fault is None),
        act.outcome is Ok <== act.events.len() == 2 && (act.events[1] matches Event::Wrote {
            fault,
            ..
        } && fault is None),
{
    let n = (payload.len() % 65536) as u16;
    let head = crate::pdl::header_of(n);
    assert(head.len() == 8);
    assert(head[1] == n % 256 && head[2] == n / 256);
    assert(head.subrange(3, 8) =~= seq![0u8, 0u8, 0xFFu8, 0u8, 0u8]);
}

/// The PDL messages that some tasks send.
spec fn payloads(tasks: Seq<Task>) -> Seq<Seq<u8>>
    decreases tasks.len(),
{
    if tasks.len() == 0 {
        Seq::empty()
    } else {
        let rest = payloads(tasks.skip(1));
        match tasks[0] {
            Task::Packet { payload, .. } => seq![payload] + rest,
            _ => rest,
        }
    }
}

pub proof fn lemma_packets_concat(a: Seq<Act>, b: Seq<Act>)
    ensures
        packets(a + b) == packets(a) + packets(b),
    decreases b.len(),
{
    if b.len() == 0 {
        assert(a + b =~= a);
        assert(packets(a) + Seq::<Seq<u8>>::empty() =~= packets(a));
    } else {
        assert((a + b).drop_last() =~= a + b.drop_last());
        lemma_packets_concat(a, b.drop_last());
        assert(packets(a + b) =~= packets(a) + packets(b));
    }
}

pub proof fn lemma_packets_split(acts: Seq<Act>, k: int)
    requires
        0 <= k <= acts.len(),
    ensures
        packets(acts) == packets(acts.take(k)) + packets(acts.skip(k)),
{
    assert(acts =~= acts.take(k) + acts.skip(k));
    lemma_packets_concat(acts.take(k), acts.skip(k));
}

proof fn lemma_packets_one(act: Act)
    ensures
        packets(seq![act]) == match act.step {
            Step::Packet { payload } => seq![payload],
            _ => Seq::empty(),
        },
{
    assert(seq![act].drop_last() =~= Seq::<Act>::empty());
    assert(packets(Seq::<Act>::empty()) =~= Seq::<Seq<u8>>::empty());
    match act.step {
        Step::Packet { payload } => {
            assert(Seq::<Seq<u8>>::empty().push(payload) =~= seq![payload]);
        },
        _ => {},
    }
}

proof fn lemma_packets_by_step(
    step: Step,
    fault: spec_fn(Upset) -> FlashFault,
    acts: Seq<Act>,
    r: Result<(), FlashFault>,
)
    requires
        after(step_alone(step, fault), acts) == Dialogue::Over(r),
    ensures
        packets(acts) == match step {
            Step::Packet { payload } => seq![payload],
            _ => Seq::empty(),
        },
{
    match step_alone(step, fault) {
        Dialogue::Next(s, go_on) => {
            lemma_one_step(s, go_on, acts, r);
            assert(acts =~= seq![acts[0]]);
            lemma_packets_one(acts[0]);
        },
        _ => {},
    }
}

pub proof fn lemma_packets_by_packet(
    payload: Seq<u8>,
    timeout_ms: u64,
    acts: Seq<Act>,
    r: Result<(), FlashFault>,
)
    requires
        after(packet(payload, timeout_ms), acts) == Dialogue::Over(r),
    ensures
        packets(acts) == seq![payload],
{
    let f = unless_failed(|_n: ()| pdl_step(Step::Await { timeout_ms }));
    let fault = |u: Upset| pdl_fault(u);
    let (k, a) = lemma_held_in_parts(pdl_step(Step::Packet { payload }), f, acts, r);
    lemma_packets_split(acts, k);
    lemma_packets_by_step(Step::Packet { payload }, fault, acts.take(k), a);
    match a {
        Ok(_) => {
            lemma_packets_by_step(Step::Await { timeout_ms }, fault, acts.skip(k), r);
        },
        Err(e) => {
            lemma_over(Err::<(), FlashFault>(e), acts.skip(k), r);
        },
    }
    assert(seq![payload] + Seq::<Seq<u8>>::empty() =~= seq![payload]);
}

/// PDL tasks that were all done sent just their messages, in their order; tasks that
/// failed sent the first of them.
proof fn lemma_tasks_send(tasks: Seq<Task>, acts: Seq<Act>, r: Result<(), FlashFault>)
    requires
        forall|j: int| 0 <= j < tasks.len() ==> crate::flash::answered::is_pdl_task(
            #[trigger] tasks[j],
        ),
        after(all_of(tasks), acts) == Dialogue::Over(r),
    ensures
        packets(acts).len() <= payloads(tasks).len(),
        packets(acts) == payloads(tasks).take(packets(acts).len() as int),
        r is Ok ==> packets(acts) == payloads(tasks),
    decreases tasks.len(),
{
    if tasks.len() == 0 {
        lemma_over(Ok::<(), FlashFault>(()), acts, r);
        assert(packets(acts) =~= payloads(tasks).take(0));
        assert(packets(acts) =~= payloads(tasks));
    } else {
        let rest = tasks.skip(1);
        let f = unless_failed(|_n: ()| all_of(rest));
        let (k, a) = lemma_held_in_parts(tasks[0].talk(), f, acts, r);
        lemma_packets_split(acts, k);
        assert(crate::flash::answered::is_pdl_task(tasks[0]));
        match tasks[0] {
            Task::Packet { payload, timeout_ms } => {
                lemma_packets_by_packet(payload, timeout_ms, acts.take(k), a);
            },
            Task::Just(step) => {
                lemma_packets_by_step(step, |u: Upset| bsl_fault(u), acts.take(k), a);
            },
            _ => {},
        }
        assert forall|j: int| 0 <= j < rest.len() implies crate::flash::answered::is_pdl_task(
            #[trigger] rest[j],
        ) by {
            assert(rest[j] == tasks[j + 1]);
        }
        match a {
            Ok(_) => {
                lemma_tasks_send(rest, acts.skip(k), r);
            },
            Err(e) => {
                lemma_over(Err::<(), FlashFault>(e), acts.skip(k), r);
            },
        }
        assert(packets(acts) =~= payloads(tasks).take(packets(acts).len() as int));
        if r is Ok {
            assert(packets(acts) =~= payloads(tasks));
        }
    }
}

/// How many blocks of 2048 bytes it takes to load some bytes.
pub open spec fn block_count(len: nat) -> nat {
    ((len + 2047) / 2048) as nat
}

/// Whether the `k`-th block of some bytes is sent in the PDL message `p`: with its index,
/// its length, and the bytes from `k` times 2048 on.
pub open spec fn is_block(p: Seq<u8>, data: Seq<u8>, k: int) -> bool {
    let end = if 2048 * k + 2048 < data.len() {
        2048 * k + 2048
    } else {
        data.len() as int
    };
    is_packet(p, 5, k % 0x1_0000_0000, end - 2048 * k, data.subrange(2048 * k, end))
}

proof fn lemma_blocks(data: Seq<u8>, i: nat, label: Seq<char>, timeout_ms: u64)
    ensures
        2048 * i <= data.len() ==> payloads(block_tasks(data, i, label, timeout_ms)).len()
            == block_count(data.len()) - i,
        forall|k: int|
            0 <= k < payloads(block_tasks(data, i, label, timeout_ms)).len() ==> is_block(
                #[trigger] payloads(block_tasks(data, i, label, timeout_ms))[k],
                data,
                i + k,
            ),
        2048 * i >= data.len() ==> payloads(block_tasks(data, i, label, timeout_ms)).len() == 0,
        2048 * i < data.len() && 2048 * i + 2048 > data.len() ==> payloads(
            block_tasks(data, i, label, timeout_ms),
        ).len() == 1,
    decreases still_to_read(data.len(), (i * CHUNK) as nat),
{
    let tasks = block_tasks(data, i, label, timeout_ms);
    let off = i * CHUNK;
    if off < data.len() {
        let end = least(off + CHUNK, data.len() as int);
        let rest = block_tasks(data, i + 1, label, timeout_ms);
        let piece = data.subrange(off, end);
        let p = params_of(Cmd::MidstData, low32(i), (end - off) as u32, piece);
        lemma_blocks(data, i + 1, label, timeout_ms);
        law_packet_fields(Cmd::MidstData, low32(i), (end - off) as u32, piece);
        assert(tasks[0] == Task::Packet { payload: p, timeout_ms });
        assert(tasks.skip(1)[0] == note(label, end, data.len() as int));
        assert(tasks.skip(1).skip(1) =~= rest);
        assert(payloads(tasks.skip(1)) == payloads(rest));
        let all = payloads(tasks);
        assert(all =~= seq![p] + payloads(rest));
        assert(is_block(p, data, i as int));
        assert forall|k: int| 0 <= k < all.len() implies is_block(#[trigger] all[k], data, i + k) by {
            if k > 0 {
                assert(all[k] == payloads(rest)[k - 1]);
                assert(i + 1 + (k - 1) == i + k);
            }
        }
    }
}

proof fn lemma_payloads_concat(a: Seq<Task>, b: Seq<Task>)
    ensures
        payloads(a + b) == payloads(a) + payloads(b),
    decreases a.len(),
{
    if a.len() == 0 {
        assert(a + b =~= b);
        assert(payloads(a) + payloads(b) =~= payloads(b));
    } else {
        assert((a + b).skip(1) =~= a.skip(1) + b);
        lemma_payloads_concat(a.skip(1), b);
        assert(payloads(a + b) =~= payloads(a) + payloads(b));
    }
}

proof fn lemma_payloads_one(t: Task)
    ensures
        payloads(seq![t]) == match t {
            Task::Packet { payload, .. } => seq![payload],
            _ => Seq::empty(),
        },
{
    assert(seq![t].skip(1) =~= Seq::<Task>::empty());
    assert(payloads(Seq::<Task>::empty()) =~= Seq::<Seq<u8>>::empty());
    assert(payloads(seq![t]) =~= match t {
        Task::Packet { payload, .. } => seq![payload],
        _ => Seq::empty(),
    });
}

/// Whether some PDL messages load `data` at `addr`: one says where it goes and how long it
/// is, under the name `PDL1`; one follows for each block of 2048 bytes, in their order; one
/// ends it.
pub open spec fn loads(sent: Seq<Seq<u8>>, addr: u32, data: Seq<u8>) -> bool {
    let n = block_count(data.len()) as int;
    &&& sent.len() == n + 2
    &&& is_packet(
        sent[0],
        4,
        addr as int,
        data.len() as int % 0x1_0000_0000,
        seq![80u8, 68u8, 76u8, 49u8, 0u8],
    )
    &&& forall|k: int| 1 <= k <= n ==> is_block(#[trigger] sent[k], data, k - 1)
    &&& is_packet(sent[n + 1], 6, 0, 0, seq![0u8, 0u8, 0u8, 0u8])
}

proof fn lemma_load_tasks_load(addr: u32, data: Seq<u8>, label: Seq<char>, timeout_ms: u64)
    ensures
        loads(payloads(load_tasks(addr, data, label, timeout_ms)), addr, data),
{
    let start = params_of(
        Cmd::StartData,
        addr,
        low32(data.len()),
        crate::flash::pdl_io::image_name(),
    );
    let end = params_of(Cmd::EndData, 0, 0, seq![0u8, 0u8, 0u8, 0u8]);
    let first = seq![Task::Packet { payload: start, timeout_ms }];
    let blocks = block_tasks(data, 0, label, timeout_ms);
    let last = seq![Task::Packet { payload: end, timeout_ms }];
    lemma_payloads_concat(first + blocks, last);
    lemma_payloads_concat(first, blocks);
    lemma_payloads_one(first[0]);
    lemma_payloads_one(last[0]);
    lemma_blocks(data, 0, label, timeout_ms);
    law_packet_fields(
        Cmd::StartData,
        addr,
        low32(data.len()),
        crate::flash::pdl_io::image_name(),
    );
    law_packet_fields(Cmd::EndData, 0, 0, seq![0u8, 0u8, 0u8, 0u8]);
    let sent = payloads(load_tasks(addr, data, label, timeout_ms));
    let n = block_count(data.len()) as int;
    assert(sent =~= seq![start] + payloads(blocks) + seq![end]);
    assert(crate::flash::pdl_io::image_name() =~= seq![80u8, 68u8, 76u8, 49u8, 0u8]);
    assert forall|k: int| 1 <= k <= n implies is_block(#[trigger] sent[k], data, k - 1) by {
        assert(sent[k] == payloads(blocks)[k - 1]);
    }
}

/// The bytes that a message brings behind its fields, message by message.
pub open spec fn extras(sent: Seq<Seq<u8>>) -> Seq<Seq<u8>> {
    sent.map_values(|p: Seq<u8>| p.skip(12))
}

proof fn lemma_blocks_make_the_whole(sent: Seq<Seq<u8>>, data: Seq<u8>, from: int)
    requires
        0 <= from,
        2048 * from <= data.len() || sent.len() == 0,
        sent.len() == (if 2048 * from < data.len() {
            block_count(data.len()) - from
        } else {
            0
        }),
        forall|k: int| 0 <= k < sent.len() ==> is_block(#[trigger] sent[k], data, from + k),
    ensures
        2048 * from <= data.len() ==> joined(extras(sent)) == data.skip(2048 * from),
    decreases sent.len(),
{
    if sent.len() > 0 {
        let rest = sent.skip(1);
        assert(is_block(sent[0], data, from + 0));
        assert forall|k: int| 0 <= k < rest.len() implies is_block(
            #[trigger] rest[k],
            data,
            from + 1 + k,
        ) by {
            assert(rest[k] == sent[k + 1]);
            assert(is_block(sent[k + 1], data, from + (k + 1)));
        }
        lemma_blocks_make_the_whole(rest, data, from + 1);
        assert(extras(sent).skip(1) =~= extras(rest));
        assert(extras(sent)[0] == sent[0].skip(12));
        if 2048 * from + 2048 <= data.len() {
            assert(data.subrange(2048 * from, 2048 * from + 2048) + data.skip(2048 * (from + 1))
                =~= data.skip(2048 * from));
        } else {
            assert(joined(extras(rest)) =~= Seq::<u8>::empty());
            assert(data.subrange(2048 * from, data.len() as int) =~= data.skip(2048 * from));
            assert(data.skip(2048 * from) + Seq::<u8>::empty() =~= data.skip(2048 * from));
        }
    } else if 2048 * from <= data.len() {
        assert(data.skip(2048 * from) =~= Seq::<u8>::empty());
    }
}

/// An image that was loaded over PDL was sent whole: the messages say where it goes and how
/// long it is; the `k`-th block carries the bytes from `k` times 2048 on; and the bytes of
/// the blocks, one after the other, are the image. A load that failed sent the first of
/// those messages and nothing else.
pub proof fn law_image_is_loaded_whole(
    addr: u32,
    data: Seq<u8>,
    label: Seq<char>,
    timeout_ms: u64,
    acts: Seq<Act>,
    r: Result<(), FlashFault>,
)
    requires
        after(all_of(load_tasks(addr, data, label, timeout_ms)), acts) == Dialogue::Over(r),
    ensures
        r is Ok ==> loads(packets(acts), addr, data) && joined(
            extras(packets(acts).subrange(1, packets(acts).len() - 1)),
        ) == data,
        exists|whole: Seq<Seq<u8>>| #[trigger]
            loads(whole, addr, data) && packets(acts).len() <= whole.len() && packets(acts)
                == whole.take(packets(acts).len() as int),
{
    let tasks = load_tasks(addr, data, label, timeout_ms);
    crate::flash::answered::lemma_load_is_pdl_tasks(addr, data, label, timeout_ms);
    lemma_tasks_send(tasks, acts, r);
    lemma_load_tasks_load(addr, data, label, timeout_ms);
    let whole = payloads(tasks);
    let blocks = whole.subrange(1, whole.len() - 1);
    assert forall|k: int| 0 <= k < blocks.len() implies is_block(#[trigger] blocks[k], data, 0 + k) by {
        assert(blocks[k] == whole[k + 1]);
    }
    lemma_blocks_make_the_whole(blocks, data, 0);
    assert(data.skip(0) =~= data);
}

/// To connect over PDL a single message without arguments is sent.
pub proof fn law_pdl_connect_is_one_message(
    timeout_ms: u64,
    acts: Seq<Act>,
    r: Result<(), FlashFault>,
)
    requires
        after(pdl_connect_task(timeout_ms).talk(), acts) == Dialogue::Over(r),
    ensures
        packets(acts).len() == 1,
        is_packet(packets(acts)[0], 0, 0, 0, Seq::empty()),
{
    let payload = params_of(Cmd::Connect, 0, 0, Seq::empty());
    lemma_packets_by_packet(payload, timeout_ms, acts, r);
    law_packet_fields(Cmd::Connect, 0, 0, Seq::empty());
}

/// To start what was loaded a single message without arguments is sent, and then nothing
/// but check-baud flags; what comes of it is the frame that came in.
pub proof fn law_start_is_one_message(
    timeout_ms: u64,
    acts: Seq<Act>,
    r: Result<Seq<u8>, FlashFault>,
)
    requires
        after(executing(timeout_ms), acts) == Dialogue::Over(r),
    ensures
        packets(acts).len() == 1,
        is_packet(packets(acts)[0], 7, 0, 0, Seq::empty()),
        r matches Ok(frame) ==> acts.len() == 2 && acts[1].step == (Step::Rouse { timeout_ms })
            && (acts[1].outcome matches Ok((_, bytes)) && bytes == frame),
{
    let payload = params_of(Cmd::Exec, 0, 0, Seq::empty());
    let step = Step::Packet { payload };
    let f = unless_failed(|_n: ()| rousing(timeout_ms));
    let (k, a) = lemma_held_in_parts(pdl_step(step), f, acts, r);
    lemma_packets_split(acts, k);
    lemma_packets_by_step(step, |u: Upset| pdl_fault(u), acts.take(k), a);
    match pdl_step(step) {
        Dialogue::Next(s, go_on) => {
            lemma_one_step(s, go_on, acts.take(k), a);
        },
        _ => {},
    }
    match a {
        Ok(_) => {
            match rousing(timeout_ms) {
                Dialogue::Next(s, go_on) => {
                    lemma_one_step(s, go_on, acts.skip(k), r);
                    assert(acts.skip(k) =~= seq![acts[k]]);
                    lemma_packets_one(acts[k]);
                },
                _ => {},
            }
        },
        Err(e) => {
            lemma_over(Err::<Seq<u8>, FlashFault>(e), acts.skip(k), r);
        },
    }
    assert(packets(acts) =~= seq![payload]);
    law_packet_fields(Cmd::Exec, 0, 0, Seq::empty());
}

} // verus!
