//! What a run that succeeds has done.

use vstd::prelude::*;

use crate::bsl::cmd;
use crate::bytes::be32_bytes;
use crate::flash::bsl_io::{at_least_one, reading};
use crate::flash::dialogue::{after, and_then, in_turn, unless_failed, Act, Dialogue, Link, Talk};
use crate::flash::fault::FlashFault;
use crate::flash::laws::{
    ends_at, image_orders, law_verified_data_was_read_back, law_writing_ends_with_the_whole_image,
    lemma_held_in_parts, lemma_held_in_parts_whatever_follows, lemma_over, lemma_told_by_order,
    lemma_told_split, told,
};
use crate::flash::options::FlashOptions;
use crate::flash::procedure::{
    bring_up_talk, bytes_to_write, erase_talk, erase_talks, flash_talk, marker_image, marker_talk,
    marker_talks, partition_talk, partition_talks, reset_talk, stage_image, usual, verifying,
    writing, writing_talk, Flashed, Image, READBACK_CHUNK,
};
use crate::pac::Entry;
use crate::plan::{Erase, Plan};

verus! {

/// Whether some messages occur among others, one right after the other.
pub open spec fn occurs(part: Seq<(u16, Seq<u8>)>, messages: Seq<(u16, Seq<u8>)>) -> bool {
    exists|from: int|
        0 <= from <= messages.len() - part.len() && #[trigger] messages.subrange(
            from,
            from + part.len(),
        ) == part
}

/// Whether all of an image was written with some messages, in pieces of some size.
pub open spec fn written_whole(image: Image, messages: Seq<(u16, Seq<u8>)>) -> bool {
    exists|chunk: int|
        chunk > 0 && occurs(#[trigger] image_orders(image.start, image.data, chunk), messages)
}

/// Whether, somewhere in some acts, these bytes were read back from an address.
pub open spec fn read_back(addr: u32, data: Seq<u8>, link: Link, acts: Seq<Act>) -> bool {
    exists|from: int, to: int|
        0 <= from <= to <= acts.len() && after(
            reading(addr, data.len(), READBACK_CHUNK as nat, Seq::empty(), link),
            #[trigger] acts.subrange(from, to),
        ) == Dialogue::Over(Ok::<Seq<u8>, FlashFault>(data))
}

proof fn lemma_occurs_within(
    part: Seq<(u16, Seq<u8>)>,
    before: Seq<(u16, Seq<u8>)>,
    messages: Seq<(u16, Seq<u8>)>,
    behind: Seq<(u16, Seq<u8>)>,
)
    requires
        occurs(part, messages),
    ensures
        occurs(part, before + messages + behind),
{
    let from = choose|from: int|
        0 <= from <= messages.len() - part.len() && #[trigger] messages.subrange(
            from,
            from + part.len(),
        ) == part;
    let all = before + messages + behind;
    let at = before.len() + from;
    assert(all.subrange(at, at + part.len()) =~= messages.subrange(from, from + part.len()));
}

/// What was told in a stretch of some acts occurs in what was told in all of them.
proof fn lemma_told_within(acts: Seq<Act>, from: int, to: int, part: Seq<(u16, Seq<u8>)>)
    requires
        0 <= from <= to <= acts.len(),
        occurs(part, told(acts.subrange(from, to))),
    ensures
        occurs(part, told(acts)),
{
    lemma_told_split(acts, to);
    lemma_told_split(acts.take(to), from);
    assert(acts.take(to).skip(from) =~= acts.subrange(from, to));
    lemma_occurs_within(
        part,
        told(acts.take(to).take(from)),
        told(acts.subrange(from, to)),
        told(acts.skip(to)),
    );
}

proof fn lemma_written_within(acts: Seq<Act>, from: int, to: int, image: Image)
    requires
        0 <= from <= to <= acts.len(),
        written_whole(image, told(acts.subrange(from, to))),
    ensures
        written_whole(image, told(acts)),
{
    let chunk = choose|chunk: int|
        chunk > 0 && occurs(
            #[trigger] image_orders(image.start, image.data, chunk),
            told(acts.subrange(from, to)),
        );
    lemma_told_within(acts, from, to, image_orders(image.start, image.data, chunk));
}

/// Dialogues that were all held in turn: the stretch of the acts in which one of them
/// was held.
proof fn lemma_had_its_turn(talks: Seq<Talk<()>>, acts: Seq<Act>, i: int) -> (r: (int, int))
    requires
        0 <= i < talks.len(),
        after(in_turn(talks), acts) == Dialogue::Over(Ok::<(), FlashFault>(())),
    ensures
        0 <= r.0 <= r.1 <= acts.len(),
        after(talks[i], acts.subrange(r.0, r.1)) == Dialogue::Over(Ok::<(), FlashFault>(())),
    decreases talks.len(),
{
    let done = Ok::<(), FlashFault>(());
    lemma_held_in_parts_whatever_follows::<Result<(), FlashFault>, Result<(), FlashFault>>(
        talks[0],
        acts,
        done,
    );
    let (k, a) = choose|k: int, a: Result<(), FlashFault>| #[trigger]
        ends_at(talks[0], acts, k, a) && after(
            match a {
                Ok(_) => in_turn(talks.skip(1)),
                Err(e) => Dialogue::Over(Err(e)),
            },
            acts.skip(k),
        ) == Dialogue::Over(done);
    if a is Err {
        lemma_over(a, acts.skip(k), done);
    }
    assert(a->Ok_0 == ());
    if i == 0 {
        assert(acts.subrange(0, k) =~= acts.take(k));
        (0, k)
    } else {
        let (from, to) = lemma_had_its_turn(talks.skip(1), acts.skip(k), i - 1);
        assert(talks.skip(1)[i - 1] == talks[i]);
        assert(acts.skip(k).subrange(from, to) =~= acts.subrange(k + from, k + to));
        (k + from, k + to)
    }
}

/// An image that was written, with what came before and behind.
proof fn lemma_writing_writes(image: Image, chunk: int, link: Link, acts: Seq<Act>)
    requires
        chunk > 0,
        after(writing(image, chunk, link), acts) == Dialogue::Over(Ok::<(), FlashFault>(())),
    ensures
        written_whole(image, told(acts)),
{
    law_writing_ends_with_the_whole_image(image, chunk, link, acts);
    let (c, from) = choose|c: int, from: int|
        0 < c <= chunk && 0 <= from <= told(acts).len() && #[trigger] told(acts).skip(from)
            == #[trigger] image_orders(image.start, image.data, c);
    let part = image_orders(image.start, image.data, c);
    assert(told(acts).subrange(from, from + part.len()) =~= told(acts).skip(from));
    assert(occurs(part, told(acts)));
}

proof fn lemma_read_back_within(acts: Seq<Act>, from: int, to: int, addr: u32, data: Seq<u8>, link: Link)
    requires
        0 <= from <= to <= acts.len(),
        read_back(addr, data, link, acts.subrange(from, to)),
    ensures
        read_back(addr, data, link, acts),
{
    let stretch = acts.subrange(from, to);
    let (a, b) = choose|a: int, b: int|
        0 <= a <= b <= stretch.len() && after(
            reading(addr, data.len(), READBACK_CHUNK as nat, Seq::empty(), link),
            #[trigger] stretch.subrange(a, b),
        ) == Dialogue::Over(Ok::<Seq<u8>, FlashFault>(data));
    assert(stretch.subrange(a, b) =~= acts.subrange(from + a, from + b));
}

/// A partition that was written without failure was written whole, and read back if
/// that was asked for.
proof fn lemma_partition_is_written(e: Entry, pac: Seq<u8>, opts: FlashOptions, acts: Seq<Act>)
    requires
        after(partition_talk(e, pac, opts), acts) == Dialogue::Over(Ok::<(), FlashFault>(())),
    ensures
        e.payload(pac) is Some,
        written_whole(stage_image(e.address, e.payload(pac)->0, e.file_id), told(acts)),
        opts.verify_readback ==> read_back(e.address, e.payload(pac)->0, usual(opts), acts),
{
    let done = Ok::<(), FlashFault>(());
    match e.payload(pac) {
        None => {
            lemma_over(
                Err::<(), FlashFault>(FlashFault::Payload(e.file_id)),
                acts,
                done,
            );
        },
        Some(data) => {
            let image = stage_image(e.address, data, e.file_id);
            let chunk = at_least_one(opts.chunk as int);
            let then = |_n: ()|
                if opts.verify_readback {
                    verifying(e.address, data, e.file_id, usual(opts))
                } else {
                    Dialogue::Over(Ok(()))
                };
            let (k, a) = lemma_held_in_parts(
                writing(image, chunk, usual(opts)),
                unless_failed(then),
                acts,
                done,
            );
            if a is Err {
                lemma_over(a, acts.skip(k), done);
            }
            assert(a->Ok_0 == ());
            assert(acts.subrange(0, k) =~= acts.take(k));
            lemma_writing_writes(image, chunk, usual(opts), acts.take(k));
            lemma_written_within(acts, 0, k, image);
            if opts.verify_readback {
                let rest = acts.skip(k);
                law_verified_data_was_read_back(e.address, data, e.file_id, usual(opts), rest);
                let m = choose|m: int| #[trigger]
                    ends_at(
                        reading(e.address, data.len(), READBACK_CHUNK as nat, Seq::empty(), usual(opts)),
                        rest,
                        m,
                        Ok::<Seq<u8>, FlashFault>(data),
                    );
                assert(rest.subrange(0, m) =~= rest.take(m));
                assert(read_back(e.address, data, usual(opts), rest));
                assert(acts.subrange(k, acts.len() as int) =~= rest);
                lemma_read_back_within(acts, k, acts.len() as int, e.address, data, usual(opts));
            }
        },
    }
}

/// The data of a marker that was written without failure was written whole.
proof fn lemma_marker_is_written(e: Entry, pac: Seq<u8>, opts: FlashOptions, acts: Seq<Act>)
    requires
        after(marker_talk(e, pac, opts), acts) == Dialogue::Over(Ok::<(), FlashFault>(())),
    ensures
        e.payload(pac) is Some,
        written_whole(marker_image(e, e.payload(pac)->0), told(acts)),
{
    match e.payload(pac) {
        None => {
            lemma_over(
                Err::<(), FlashFault>(FlashFault::Payload(e.file_id)),
                acts,
                Ok::<(), FlashFault>(()),
            );
        },
        Some(data) => {
            lemma_writing_writes(marker_image(e, data), at_least_one(opts.chunk as int), usual(opts), acts);
        },
    }
}

/// The message that erases a region.
pub open spec fn erase_order(op: Erase) -> (u16, Seq<u8>) {
    (cmd::ERASE_FLASH, be32_bytes(op.address) + op.param)
}

proof fn lemma_erase_is_told(op: Erase, opts: FlashOptions, acts: Seq<Act>)
    requires
        after(erase_talk(op, opts), acts) == Dialogue::Over(Ok::<(), FlashFault>(())),
    ensures
        occurs(seq![erase_order(op)], told(acts)),
{
    lemma_told_by_order(
        cmd::ERASE_FLASH,
        be32_bytes(op.address) + op.param,
        usual(opts),
        crate::bsl::rep::ACK,
        "ERASE"@,
        acts,
    );
    assert(told(acts).subrange(0, 1) =~= seq![erase_order(op)]);
    assert(occurs(seq![erase_order(op)], told(acts)));
}

/// The stretch of a successful run in which everything is written.
proof fn lemma_run_wrote(
    plan: Plan,
    pac: Seq<u8>,
    opts: FlashOptions,
    acts: Seq<Act>,
    flashed: Flashed,
) -> (k: int)
    requires
        after(flash_talk(plan, pac, opts), acts) == Dialogue::Over(Ok::<Flashed, FlashFault>(flashed)),
    ensures
        0 <= k <= acts.len(),
        after(writing_talk(plan, pac, opts), acts.subrange(k, acts.len() as int))
            == Dialogue::Over(Ok::<(), FlashFault>(())),
        flashed.bytes_written == bytes_to_write(plan, opts),
{
    let done = Ok::<Flashed, FlashFault>(flashed);
    let then = |version: Seq<char>|
        and_then(
            writing_talk(plan, pac, opts),
            |_n: ()|
                Dialogue::Over(
                    Ok(Flashed { version, bytes_written: bytes_to_write(plan, opts) }),
                ),
        );
    let (k, v) = lemma_held_in_parts(
        bring_up_talk(plan, pac, opts),
        unless_failed(then),
        acts,
        done,
    );
    let rest = acts.skip(k);
    match v {
        Err(e) => {
            lemma_over(Err::<Flashed, FlashFault>(e), rest, done);
        },
        Ok(version) => {
            let last = |_n: ()|
                Dialogue::Over(
                    Ok::<Flashed, FlashFault>(
                        Flashed { version, bytes_written: bytes_to_write(plan, opts) },
                    ),
                );
            let (m, w) = lemma_held_in_parts(
                writing_talk(plan, pac, opts),
                unless_failed(last),
                rest,
                done,
            );
            match w {
                Err(e) => {
                    lemma_over(Err::<Flashed, FlashFault>(e), rest.skip(m), done);
                },
                Ok(u) => {
                    assert(u == ());
                    let end = Ok::<Flashed, FlashFault>(
                        Flashed { version, bytes_written: bytes_to_write(plan, opts) },
                    );
                    lemma_over(end, rest.skip(m), done);
                    assert(rest.take(m) =~= acts.subrange(k, acts.len() as int));
                },
            }
        },
    }
    k
}

/// A flash run that succeeds has written every partition of its plan whole, and read it
/// back if that was asked for; and its count of bytes is that of what it wrote.
pub proof fn law_run_writes_every_partition(
    plan: Plan,
    pac: Seq<u8>,
    opts: FlashOptions,
    acts: Seq<Act>,
    flashed: Flashed,
)
    requires
        after(flash_talk(plan, pac, opts), acts) == Dialogue::Over(Ok::<Flashed, FlashFault>(flashed)),
    ensures
        flashed.bytes_written == bytes_to_write(plan, opts),
        forall|i: int|
            0 <= i < plan.partitions.len() ==> {
                let e = #[trigger] plan.partitions[i];
                &&& e.payload(pac) is Some
                &&& written_whole(stage_image(e.address, e.payload(pac)->0, e.file_id), told(acts))
                &&& opts.verify_readback ==> read_back(e.address, e.payload(pac)->0, usual(opts), acts)
            },
{
    let k = lemma_run_wrote(plan, pac, opts, acts, flashed);
    let end = acts.len() as int;
    let wrote = acts.subrange(k, end);
    let parts = partition_talks(plan, pac, opts);
    let turns = seq![in_turn(parts)] + if opts.format {
        seq![in_turn(erase_talks(plan, opts)), in_turn(marker_talks(plan, pac, opts))]
    } else {
        Seq::empty()
    } + seq![reset_talk(opts)];
    let (from, to) = lemma_had_its_turn(turns, wrote, 0);
    let stretch = wrote.subrange(from, to);
    assert forall|i: int| 0 <= i < plan.partitions.len() implies {
        let e = #[trigger] plan.partitions[i];
        &&& e.payload(pac) is Some
        &&& written_whole(stage_image(e.address, e.payload(pac)->0, e.file_id), told(acts))
        &&& opts.verify_readback ==> read_back(e.address, e.payload(pac)->0, usual(opts), acts)
    } by {
        let e = plan.partitions[i];
        let (a, b) = lemma_had_its_turn(parts, stretch, i);
        lemma_partition_is_written(e, pac, opts, stretch.subrange(a, b));
        let image = stage_image(e.address, e.payload(pac)->0, e.file_id);
        lemma_written_within(stretch, a, b, image);
        lemma_written_within(wrote, from, to, image);
        lemma_written_within(acts, k, end, image);
        if opts.verify_readback {
            let data = e.payload(pac)->0;
            lemma_read_back_within(stretch, a, b, e.address, data, usual(opts));
            lemma_read_back_within(wrote, from, to, e.address, data, usual(opts));
            lemma_read_back_within(acts, k, end, e.address, data, usual(opts));
        }
    }
}

/// A flash run with `format` that succeeds has done every erase of its plan, and has
/// written the data of every marker whole.
pub proof fn law_format_erases_and_writes_every_marker(
    plan: Plan,
    pac: Seq<u8>,
    opts: FlashOptions,
    acts: Seq<Act>,
    flashed: Flashed,
)
    requires
        opts.format,
        after(flash_talk(plan, pac, opts), acts) == Dialogue::Over(Ok::<Flashed, FlashFault>(flashed)),
    ensures
        forall|i: int|
            0 <= i < plan.erases.len() ==> occurs(
                seq![erase_order(#[trigger] plan.erases[i])],
                told(acts),
            ),
        forall|i: int|
            0 <= i < plan.data_markers.len() ==> {
                let e = #[trigger] plan.data_markers[i];
                &&& e.payload(pac) is Some
                &&& written_whole(marker_image(e, e.payload(pac)->0), told(acts))
            },
{
    let k = lemma_run_wrote(plan, pac, opts, acts, flashed);
    let end = acts.len() as int;
    let wrote = acts.subrange(k, end);
    let erases = erase_talks(plan, opts);
    let markers = marker_talks(plan, pac, opts);
    let turns = seq![in_turn(partition_talks(plan, pac, opts))] + seq![
        in_turn(erases),
        in_turn(markers),
    ] + seq![reset_talk(opts)];
    let (from1, to1) = lemma_had_its_turn(turns, wrote, 1);
    let erasing = wrote.subrange(from1, to1);
    assert forall|i: int| 0 <= i < plan.erases.len() implies occurs(
        seq![erase_order(#[trigger] plan.erases[i])],
        told(acts),
    ) by {
        let part = seq![erase_order(plan.erases[i])];
        let (a, b) = lemma_had_its_turn(erases, erasing, i);
        lemma_erase_is_told(plan.erases[i], opts, erasing.subrange(a, b));
        lemma_told_within(erasing, a, b, part);
        lemma_told_within(wrote, from1, to1, part);
        lemma_told_within(acts, k, end, part);
    }
    let (from2, to2) = lemma_had_its_turn(turns, wrote, 2);
    let marking = wrote.subrange(from2, to2);
    assert forall|i: int| 0 <= i < plan.data_markers.len() implies {
        let e = #[trigger] plan.data_markers[i];
        &&& e.payload(pac) is Some
        &&& written_whole(marker_image(e, e.payload(pac)->0), told(acts))
    } by {
        let e = plan.data_markers[i];
        let (a, b) = lemma_had_its_turn(markers, marking, i);
        lemma_marker_is_written(e, pac, opts, marking.subrange(a, b));
        let image = marker_image(e, e.payload(pac)->0);
        lemma_written_within(marking, a, b, image);
        lemma_written_within(wrote, from2, to2, image);
        lemma_written_within(acts, k, end, image);
    }
}

} // verus!
