//! What comes back from a device, and what is made of it.

use vstd::prelude::*;

use crate::bsl::{cmd, rep, rep_name_of};
use crate::bytes::be32_bytes;
use crate::flash::bsl_io::{least, moved_on, note, read_request, reading, still_to_read};
use crate::flash::course::{brought_up, law_reset_is_said, lemma_brought_up, reset_said, said};
use crate::flash::dialogue::{
    after, and_then, ask, bsl_fault, command, hear, judged, tell, unless_failed, Act, Dialogue,
    Link, Step, Talk,
};
use crate::flash::fault::{BslFault, FlashFault};
use crate::flash::laws::{
    ends_at, lemma_held_in_parts, lemma_held_in_parts_whatever_follows, lemma_one_step, lemma_over,
    lemma_told_concat, lemma_told_one, lemma_told_split, told,
};
use crate::flash::options::FlashOptions;
use crate::flash::procedure::{
    bring_up_talk, dump_full_session, dump_full_talk, dump_session, dump_talk, dumping, imaging,
    polling, probe_session, probe_talk, reset_talk, sizing, timed_out, usual, verifying,
    READBACK_CHUNK,
};
use crate::flash::sent::big;
use crate::plan::{low32, Plan};

verus! {

/// The BSL messages that came in, whole, in some acts.
pub open spec fn replies(acts: Seq<Act>) -> Seq<(u16, Seq<u8>)>
    decreases acts.len(),
{
    if acts.len() == 0 {
        Seq::empty()
    } else {
        match (acts.last().step, acts.last().outcome) {
            (Step::Hear { .. }, Ok(message)) => replies(acts.drop_last()).push(message),
            _ => replies(acts.drop_last()),
        }
    }
}

/// The data of the BSL messages that came in in some acts, one after the other.
pub open spec fn bytes_heard(acts: Seq<Act>) -> Seq<u8>
    decreases acts.len(),
{
    if acts.len() == 0 {
        Seq::empty()
    } else {
        match (acts.last().step, acts.last().outcome) {
            (Step::Hear { .. }, Ok((_, data))) => bytes_heard(acts.drop_last()) + data,
            _ => bytes_heard(acts.drop_last()),
        }
    }
}

proof fn lemma_heard_concat(a: Seq<Act>, b: Seq<Act>)
    ensures
        bytes_heard(a + b) == bytes_heard(a) + bytes_heard(b),
        replies(a + b) == replies(a) + replies(b),
    decreases b.len(),
{
    if b.len() == 0 {
        assert(a + b =~= a);
        assert(bytes_heard(a) + Seq::<u8>::empty() =~= bytes_heard(a));
        assert(replies(a) + Seq::<(u16, Seq<u8>)>::empty() =~= replies(a));
    } else {
        assert((a + b).drop_last() =~= a + b.drop_last());
        lemma_heard_concat(a, b.drop_last());
        assert(bytes_heard(a + b) =~= bytes_heard(a) + bytes_heard(b));
        assert(replies(a + b) =~= replies(a) + replies(b));
    }
}

proof fn lemma_heard_split(acts: Seq<Act>, k: int)
    requires
        0 <= k <= acts.len(),
    ensures
        bytes_heard(acts) == bytes_heard(acts.take(k)) + bytes_heard(acts.skip(k)),
        replies(acts) == replies(acts.take(k)) + replies(acts.skip(k)),
{
    assert(acts =~= acts.take(k) + acts.skip(k));
    lemma_heard_concat(acts.take(k), acts.skip(k));
}

/// What two acts, the second of which waits for a message, brought in.
proof fn lemma_heard_two(acts: Seq<Act>)
    requires
        acts.len() == 2,
        acts[0].step !is Hear,
        acts[1].step is Hear,
    ensures
        bytes_heard(acts.take(1)) == Seq::<u8>::empty(),
        match acts[1].outcome {
            Ok((kind, data)) => bytes_heard(acts) == data && replies(acts) == seq![(kind, data)],
            Err(_) => bytes_heard(acts).len() == 0 && replies(acts).len() == 0,
        },
{
    reveal_with_fuel(bytes_heard, 3);
    reveal_with_fuel(replies, 3);
    assert(acts.drop_last() =~= seq![acts[0]]);
    assert(acts.take(1) =~= seq![acts[0]]);
    assert(seq![acts[0]].drop_last() =~= Seq::<Act>::empty());
    match acts[1].outcome {
        Ok((kind, data)) => {
            assert(Seq::<u8>::empty() + data =~= data);
            assert(Seq::<(u16, Seq<u8>)>::empty().push((kind, data)) =~= seq![(kind, data)]);
        },
        Err(_) => {},
    }
}

proof fn lemma_heard_none(act: Act)
    requires
        act.step !is Hear,
    ensures
        bytes_heard(seq![act]) == Seq::<u8>::empty(),
        replies(seq![act]) == Seq::<(u16, Seq<u8>)>::empty(),
{
    reveal_with_fuel(bytes_heard, 2);
    reveal_with_fuel(replies, 2);
    assert(seq![act].drop_last() =~= Seq::<Act>::empty());
}

// ---------------------------------------------------------------------------
// Commands
// ---------------------------------------------------------------------------

/// What comes of asking: the message is sent; if that goes through, one is waited for, and
/// what came in is what comes of it.
pub proof fn law_asked_is_sent_and_answered(
    cmd: u16,
    data: Seq<u8>,
    link: Link,
    acts: Seq<Act>,
    r: Result<(u16, Seq<u8>), FlashFault>,
)
    requires
        after(ask(cmd, data, link), acts) == Dialogue::Over(r),
    ensures
        1 <= acts.len() <= 2,
        acts[0].step == (Step::Tell { cmd, data, checksum: link.checksum }),
        acts[0].outcome is Ok <==> acts.len() == 2,
        acts.len() == 2 ==> acts[1].step == (Step::Hear { timeout_ms: link.timeout_ms }),
        match acts.last().outcome {
            Ok(message) => acts.len() == 2 && r == Ok::<(u16, Seq<u8>), FlashFault>(message),
            Err(u) => r == Err::<(u16, Seq<u8>), FlashFault>(bsl_fault(u)),
        },
{
    let f = unless_failed(|_n: ()| hear(link.timeout_ms));
    let told = tell(cmd, data, link.checksum);
    let (k, a) = lemma_held_in_parts(told, f, acts, r);
    match told {
        Dialogue::Next(step, go_on) => {
            lemma_one_step(step, go_on, acts.take(k), a);
        },
        _ => {},
    }
    assert(acts[0] == acts.take(k)[0]);
    match a {
        Ok(_) => {
            match hear(link.timeout_ms) {
                Dialogue::Next(step, go_on) => {
                    lemma_one_step(step, go_on, acts.skip(k), r);
                },
                _ => {},
            }
            assert(acts[1] == acts.skip(k)[0]);
        },
        Err(e) => {
            lemma_over(Err::<(u16, Seq<u8>), FlashFault>(e), acts.skip(k), r);
        },
    }
}

/// A command succeeds just if it goes through and the reply is of the type that it wants,
/// and gives the data of that reply. A reply of another type is reported with the names of
/// both types; a failure to send or to receive as what it is.
pub proof fn law_command_wants_its_reply(
    cmd: u16,
    data: Seq<u8>,
    link: Link,
    expect: u16,
    what: Seq<char>,
    acts: Seq<Act>,
    r: Result<Seq<u8>, FlashFault>,
)
    requires
        after(command(cmd, data, link, expect, what), acts) == Dialogue::Over(r),
    ensures
        1 <= acts.len() <= 2,
        acts[0].step == (Step::Tell { cmd, data, checksum: link.checksum }),
        acts[0].outcome is Ok <==> acts.len() == 2,
        acts.len() == 2 ==> acts[1].step == (Step::Hear { timeout_ms: link.timeout_ms }),
        match acts.last().outcome {
            Ok((kind, reply)) => acts.len() == 2 && if kind == expect {
                r == Ok::<Seq<u8>, FlashFault>(reply)
            } else {
                r matches Err(FlashFault::Bsl(BslFault::Unexpected { what: w, expected, got })) && w
                    == what && expected == rep_name_of(expect) && got == rep_name_of(kind)
            },
            Err(u) => r == Err::<Seq<u8>, FlashFault>(bsl_fault(u)),
        },
{
    reveal(command);
    let f = unless_failed(|m: (u16, Seq<u8>)| Dialogue::Over(judged(Ok(m), expect, what)));
    let (k, a) = lemma_held_in_parts(ask(cmd, data, link), f, acts, r);
    lemma_over(f(a)->Over_0, acts.skip(k), r);
    assert(acts.take(k) =~= acts);
    law_asked_is_sent_and_answered(cmd, data, link, acts, a);
}

// ---------------------------------------------------------------------------
// Reading
// ---------------------------------------------------------------------------

/// Whether some bytes ask for `size` bytes of flash from `addr` on: address, size and zero,
/// in big-endian fields of 32 bits.
pub open spec fn asks_for(request: Seq<u8>, addr: int, size: int) -> bool {
    &&& request.len() == 12
    &&& big(request, 0) == addr
    &&& big(request, 4) == size
    &&& big(request, 8) == 0
}

/// A read request holds its address and its size.
#[verifier::rlimit(30)]
pub proof fn law_read_request_fields(addr: u32, off: nat, size: nat)
    ensures
        asks_for(
            read_request(moved_on(addr, off), size),
            (addr + off) % 0x1_0000_0000,
            size as int % 0x1_0000_0000,
        ),
{
    reveal(read_request);
    reveal(moved_on);
    let a = be32_bytes(moved_on(addr, off));
    let b = be32_bytes(low32(size));
    let c = be32_bytes(0);
    let p = a + b + c;
    assert(p[0] == a[0] && p[1] == a[1] && p[2] == a[2] && p[3] == a[3]);
    assert(p[4] == b[0] && p[5] == b[1] && p[6] == b[2] && p[7] == b[3]);
    assert(p[8] == c[0] && p[9] == c[1] && p[10] == c[2] && p[11] == c[3]);
}

/// Whether the `j`-th of some acts, if it sends a message, asks for flash where the bytes
/// that have come in until then, after `had` others, end: for as many as are left of `len`,
/// but no more than 1024.
pub open spec fn reads_on(acts: Seq<Act>, addr: u32, len: nat, had: nat, j: int) -> bool {
    let got = had + bytes_heard(acts.take(j)).len();
    acts[j].step matches Step::Tell { cmd, data, .. } ==> cmd == 6 && got < len && asks_for(
        data,
        (addr + got) % 0x1_0000_0000,
        if len - got < 1024 {
            len - got
        } else {
            1024
        },
    )
}

/// Whether `len` bytes were read from `addr` on, in some acts, after `had` of them, to
/// `data`: every message sent asks for what is next; `data` is what came in, all of it, in
/// its order; and it is over when all of it is there or a reply was empty.
pub open spec fn read_out(acts: Seq<Act>, addr: u32, len: nat, had: nat, data: Seq<u8>) -> bool {
    &&& forall|j: int| 0 <= j < acts.len() ==> #[trigger] reads_on(acts, addr, len, had, j)
    &&& forall|j: int|
        0 <= j < acts.len() ==> (#[trigger] acts[j]).outcome is Ok && (acts[j].step is Tell
            || acts[j].step is Hear)
    &&& forall|j: int|
        0 <= j < acts.len() && (#[trigger] acts[j]).step is Hear ==> (acts[j].outcome matches Ok(
            (kind, _),
        ) && kind == 0x93)
    &&& bytes_heard(acts) == data
    &&& had + data.len() >= len || acts.len() > 0 && acts.last().step is Hear && (
    acts.last().outcome matches Ok((_, last)) && last.len() == 0)
}

proof fn lemma_reads_on_later(first: Seq<Act>, rest: Seq<Act>, addr: u32, len: nat, had: nat)
    requires
        forall|j: int| 0 <= j < first.len() ==> #[trigger] reads_on(first, addr, len, had, j),
        forall|j: int|
            0 <= j < rest.len() ==> #[trigger] reads_on(
                rest,
                addr,
                len,
                had + bytes_heard(first).len(),
                j,
            ),
    ensures
        forall|j: int|
            0 <= j < (first + rest).len() ==> #[trigger] reads_on(
                first + rest,
                addr,
                len,
                had,
                j,
            ),
{
    let all = first + rest;
    assert forall|j: int| 0 <= j < all.len() implies #[trigger] reads_on(
        all,
        addr,
        len,
        had,
        j,
    ) by {
        if j < first.len() {
            assert(reads_on(first, addr, len, had, j));
            assert(all.take(j) =~= first.take(j));
        } else {
            let i = j - first.len();
            assert(reads_on(rest, addr, len, had + bytes_heard(first).len(), i));
            assert(all.take(j) =~= first + rest.take(i));
            lemma_heard_concat(first, rest.take(i));
            assert(all[j] == rest[i]);
        }
    }
}

proof fn lemma_read_out(
    addr: u32,
    total: nat,
    got: Seq<u8>,
    link: Link,
    acts: Seq<Act>,
    all: Seq<u8>,
)
    requires
        total <= u32::MAX || READBACK_CHUNK <= u32::MAX,
        after(reading(addr, total, READBACK_CHUNK as nat, got, link), acts) == Dialogue::Over(
            Ok::<Seq<u8>, FlashFault>(all),
        ),
    ensures
        all == got + bytes_heard(acts),
        read_out(acts, addr, total, got.len(), bytes_heard(acts)),
    decreases still_to_read(total, got.len()),
{
    let end = Ok::<Seq<u8>, FlashFault>(all);
    if got.len() >= total {
        lemma_over(Ok::<Seq<u8>, FlashFault>(got), acts, end);
        assert(got + Seq::<u8>::empty() =~= got);
    } else {
        let n = least(total - got.len(), READBACK_CHUNK as int) as nat;
        let request = read_request(moved_on(addr, got.len()), n);
        let asked = command(cmd::READ_FLASH, request, link, rep::READ_FLASH, "READ_FLASH"@);
        lemma_held_in_parts_whatever_follows::<
            Result<Seq<u8>, FlashFault>,
            Result<Seq<u8>, FlashFault>,
        >(asked, acts, end);
        let (k, a) = choose|k: int, a: Result<Seq<u8>, FlashFault>| #[trigger]
            ends_at(asked, acts, k, a) && after(
                match a {
                    Ok(data) => if data.len() == 0 {
                        Dialogue::Over(Ok(got))
                    } else {
                        reading(addr, total, READBACK_CHUNK as nat, got + data, link)
                    },
                    Err(e) => Dialogue::Over(Err(e)),
                },
                acts.skip(k),
            ) == Dialogue::Over(end);
        let both = acts.take(k);
        let rest = acts.skip(k);
        if let Err(e) = a {
            lemma_over(Err::<Seq<u8>, FlashFault>(e), rest, end);
        }
        law_command_wants_its_reply(
            cmd::READ_FLASH,
            request,
            link,
            rep::READ_FLASH,
            "READ_FLASH"@,
            both,
            a,
        );
        let data = a->Ok_0;
        lemma_heard_two(both);
        law_read_request_fields(addr, got.len(), n);
        assert(both.take(0) =~= Seq::<Act>::empty());
        assert forall|j: int| 0 <= j < both.len() implies #[trigger] reads_on(
            both,
            addr,
            total,
            got.len(),
            j,
        ) by {
            assert(both.take(0) =~= Seq::<Act>::empty());
        }
        assert(acts =~= both + rest);
        lemma_heard_concat(both, rest);
        if data.len() == 0 {
            lemma_over(Ok::<Seq<u8>, FlashFault>(got), rest, end);
            assert(acts =~= both);
            assert(got + bytes_heard(acts) =~= got);
        } else {
            lemma_read_out(addr, total, got + data, link, rest, all);
            lemma_reads_on_later(both, rest, addr, total, got.len());
            assert(all =~= got + bytes_heard(acts));
            lemma_pairs(both, rest, acts);
            if rest.len() > 0 {
                assert(acts.last() == rest.last());
            }
        }
    }
}

proof fn lemma_pairs(both: Seq<Act>, rest: Seq<Act>, acts: Seq<Act>)
    requires
        acts == both + rest,
        forall|j: int|
            0 <= j < both.len() ==> (#[trigger] both[j]).outcome is Ok && (both[j].step is Tell
                || both[j].step is Hear) && (both[j].step is Hear ==> (
            both[j].outcome matches Ok((kind, _)) && kind == 0x93)),
        forall|j: int|
            0 <= j < rest.len() ==> (#[trigger] rest[j]).outcome is Ok && (rest[j].step is Tell
                || rest[j].step is Hear),
        forall|j: int|
            0 <= j < rest.len() && (#[trigger] rest[j]).step is Hear ==> (rest[j].outcome matches Ok(
                (kind, _),
            ) && kind == 0x93),
    ensures
        forall|j: int|
            0 <= j < acts.len() ==> (#[trigger] acts[j]).outcome is Ok && (acts[j].step is Tell
                || acts[j].step is Hear),
        forall|j: int|
            0 <= j < acts.len() && (#[trigger] acts[j]).step is Hear ==> (acts[j].outcome matches Ok(
                (kind, _),
            ) && kind == 0x93),
{
    assert forall|j: int| 0 <= j < acts.len() implies (#[trigger] acts[j]).outcome is Ok && (
    acts[j].step is Tell || acts[j].step is Hear) && (acts[j].step is Hear ==> (
    acts[j].outcome matches Ok((kind, _)) && kind == 0x93)) by {
        if j < both.len() {
            assert(acts[j] == both[j]);
        } else {
            assert(acts[j] == rest[j - both.len()]);
        }
    }
}

/// A read that succeeds gives just what the device sent in reply, all of it and in its
/// order. Every message asks for the bytes at the address where those so far end: for as
/// many as are left, but no more than 1024. It is over when all are there, or at a reply
/// without data.
pub proof fn law_read_gives_what_was_sent(
    addr: u32,
    len: nat,
    link: Link,
    acts: Seq<Act>,
    data: Seq<u8>,
)
    requires
        after(reading(addr, len, READBACK_CHUNK as nat, Seq::empty(), link), acts)
            == Dialogue::Over(Ok::<Seq<u8>, FlashFault>(data)),
    ensures
        read_out(acts, addr, len, 0, data),
{
    lemma_read_out(addr, len, Seq::empty(), link, acts, data);
    assert(Seq::<u8>::empty() + bytes_heard(acts) =~= bytes_heard(acts));
}

/// A dialogue is over after just one number of some acts.
proof fn lemma_over_once<R>(d: Dialogue<R>, acts: Seq<Act>, k: int, m: int)
    requires
        0 <= k <= m <= acts.len(),
        after(d, acts.take(k)) is Over,
        after(d, acts.take(m)) is Over,
    ensures
        k == m,
{
    assert(acts.take(m) =~= acts.take(k) + acts.subrange(k, m));
    crate::flash::dialogue::lemma_after_concat(d, acts.take(k), acts.subrange(k, m));
}

/// What a read-back is judged by: it succeeds only if what the device sent is what was
/// written; and if the device sent anything else, the read-back fails for that.
pub proof fn law_readback_is_compared(
    addr: u32,
    data: Seq<u8>,
    file_id: Seq<char>,
    link: Link,
    acts: Seq<Act>,
    r: Result<(), FlashFault>,
)
    requires
        after(verifying(addr, data, file_id, link), acts) == Dialogue::Over(r),
    ensures
        r is Ok ==> exists|k: int|
            0 <= k <= acts.len() && #[trigger] read_out(
                acts.take(k),
                addr,
                data.len(),
                0,
                data,
            ),
        forall|k: int, back: Seq<u8>|
            back != data && #[trigger] ends_at(
                reading(addr, data.len(), READBACK_CHUNK as nat, Seq::empty(), link),
                acts,
                k,
                Ok::<Seq<u8>, FlashFault>(back),
            ) ==> r == Err::<(), FlashFault>(FlashFault::VerifyMismatch(file_id)),
{
    let read = reading(addr, data.len(), READBACK_CHUNK as nat, Seq::empty(), link);
    let report = note(file_id, data.len() as int, data.len() as int);
    lemma_held_in_parts_whatever_follows::<Result<Seq<u8>, FlashFault>, Result<(), FlashFault>>(
        read,
        acts,
        r,
    );
    let (k, a) = choose|k: int, a: Result<Seq<u8>, FlashFault>| #[trigger]
        ends_at(read, acts, k, a) && after(
            match a {
                Ok(back) => if back == data {
                    report.talk()
                } else {
                    Dialogue::Over(Err(FlashFault::VerifyMismatch(file_id)))
                },
                Err(e) => Dialogue::Over(Err(e)),
            },
            acts.skip(k),
        ) == Dialogue::Over(r);
    match a {
        Ok(back) => {
            law_read_gives_what_was_sent(addr, data.len(), link, acts.take(k), back);
            if back != data {
                lemma_over(
                    Err::<(), FlashFault>(FlashFault::VerifyMismatch(file_id)),
                    acts.skip(k),
                    r,
                );
            }
        },
        Err(e) => {
            lemma_over(Err::<(), FlashFault>(e), acts.skip(k), r);
        },
    }
    assert forall|m: int, back: Seq<u8>|
        back != data && #[trigger] ends_at(read, acts, m, Ok::<Seq<u8>, FlashFault>(back)) implies r
        == Err::<(), FlashFault>(FlashFault::VerifyMismatch(file_id)) by {
        if k <= m {
            lemma_over_once(read, acts, k, m);
        } else {
            lemma_over_once(read, acts, m, k);
        }
    }
}

// ---------------------------------------------------------------------------
// Dumps
// ---------------------------------------------------------------------------

/// Whether some places cut `len` acts into `n` stretches, one after the other.
pub open spec fn cuts_up(cuts: Seq<int>, n: nat, len: nat) -> bool {
    &&& cuts.len() == n + 1
    &&& cuts[0] == 0
    &&& cuts[n as int] == len
    &&& forall|i: int, j: int| 0 <= i <= j <= n ==> #[trigger] cuts[i] <= #[trigger] cuts[j]
}

/// The `i`-th of the stretches that some places cut some acts into.
pub open spec fn stretch(acts: Seq<Act>, cuts: Seq<int>, i: int) -> Seq<Act> {
    acts.subrange(cuts[i], cuts[i + 1])
}

/// Whether a region was read, in some acts, to `data`, and then reported.
pub open spec fn region_read(acts: Seq<Act>, addr: u32, len: u32, data: Seq<u8>) -> bool {
    &&& acts.len() > 0
    &&& read_out(acts.drop_last(), addr, len as nat, 0, data)
    &&& acts.last().step matches Step::Note { report } && report.stage == "read"@ && report.done
        == data.len() as u64 && report.total == len
}

/// Whether some regions were read, one after the other, to just as many byte strings: the
/// `i`-th one is what the device sent for the `i`-th region.
pub open spec fn regions_read(
    acts: Seq<Act>,
    regions: Seq<(u32, u32)>,
    out: Seq<Seq<u8>>,
) -> bool {
    &&& out.len() == regions.len()
    &&& exists|cuts: Seq<int>| #[trigger]
        cuts_up(cuts, regions.len(), acts.len()) && forall|i: int|
            0 <= i < regions.len() ==> region_read(
                stretch(acts, cuts, i),
                (#[trigger] regions[i]).0,
                regions[i].1,
                out[i],
            )
}

proof fn lemma_regions_read(
    regions: Seq<(u32, u32)>,
    got: Seq<Seq<u8>>,
    link: Link,
    acts: Seq<Act>,
    all: Seq<Seq<u8>>,
)
    requires
        after(dumping(regions, got, link), acts) == Dialogue::Over(
            Ok::<Seq<Seq<u8>>, FlashFault>(all),
        ),
    ensures
        all.len() == got.len() + regions.len(),
        all.take(got.len() as int) == got,
        regions_read(acts, regions, all.skip(got.len() as int)),
    decreases regions.len(),
{
    let end = Ok::<Seq<Seq<u8>>, FlashFault>(all);
    if regions.len() == 0 {
        lemma_over(Ok::<Seq<Seq<u8>>, FlashFault>(got), acts, end);
        assert(all.take(got.len() as int) =~= got);
        assert(cuts_up(seq![0int], 0, 0));
    } else {
        let (addr, len) = regions[0];
        let read = reading(addr, len as nat, READBACK_CHUNK as nat, Seq::empty(), link);
        lemma_held_in_parts_whatever_follows::<
            Result<Seq<u8>, FlashFault>,
            Result<Seq<Seq<u8>>, FlashFault>,
        >(read, acts, end);
        let (k, a) = choose|k: int, a: Result<Seq<u8>, FlashFault>| #[trigger]
            ends_at(read, acts, k, a) && after(
                match a {
                    Ok(data) => and_then(
                        note("read"@, data.len() as int, len as int).talk(),
                        |_n: ()| dumping(regions.skip(1), got.push(data), link),
                    ),
                    Err(e) => Dialogue::Over(Err(e)),
                },
                acts.skip(k),
            ) == Dialogue::Over(end);
        if let Err(e) = a {
            lemma_over(Err::<Seq<Seq<u8>>, FlashFault>(e), acts.skip(k), end);
        }
        let data = a->Ok_0;
        law_read_gives_what_was_sent(addr, len as nat, link, acts.take(k), data);
        let report = note("read"@, data.len() as int, len as int);
        let rest = acts.skip(k);
        lemma_held_in_parts_whatever_follows::<
            Result<(), FlashFault>,
            Result<Seq<Seq<u8>>, FlashFault>,
        >(report.talk(), rest, end);
        let (m, b) = choose|m: int, b: Result<(), FlashFault>| #[trigger]
            ends_at(report.talk(), rest, m, b) && after(
                match b {
                    Ok(_) => dumping(regions.skip(1), got.push(data), link),
                    Err(e) => Dialogue::Over(Err(e)),
                },
                rest.skip(m),
            ) == Dialogue::Over(end);
        match report.talk() {
            Dialogue::Next(step, go_on) => {
                lemma_one_step(step, go_on, rest.take(m), b);
            },
            _ => {},
        }
        if let Err(e) = b {
            lemma_over(Err::<Seq<Seq<u8>>, FlashFault>(e), rest.skip(m), end);
        }
        let later = rest.skip(m);
        let got2 = got.push(data);
        lemma_regions_read(regions.skip(1), got2, link, later, all);
        let out2 = all.skip(got2.len() as int);
        let cuts2 = choose|cuts: Seq<int>| #[trigger]
            cuts_up(cuts, regions.skip(1).len(), later.len()) && forall|i: int|
                0 <= i < regions.skip(1).len() ==> region_read(
                    stretch(later, cuts, i),
                    (#[trigger] regions.skip(1)[i]).0,
                    regions.skip(1)[i].1,
                    out2[i],
                );
        let out = all.skip(got.len() as int);
        let cuts = seq![0int] + cuts2.map_values(|c: int| c + k + 1);
        assert(all.take(got.len() as int) =~= got) by {
            assert(all.take(got2.len() as int).take(got.len() as int) =~= got);
            assert(all.take(got2.len() as int).take(got.len() as int) =~= all.take(
                got.len() as int,
            ));
        }
        assert(out[0] == data) by {
            assert(all.take(got2.len() as int)[got.len() as int] == data);
        }
        assert(cuts_up(cuts, regions.len(), acts.len()));
        assert(rest.take(m)[0] == acts[k]);
        assert forall|i: int| 0 <= i < regions.len() implies region_read(
            stretch(acts, cuts, i),
            (#[trigger] regions[i]).0,
            regions[i].1,
            out[i],
        ) by {
            if i == 0 {
                assert(stretch(acts, cuts, 0).drop_last() =~= acts.take(k));
                assert(stretch(acts, cuts, 0).last() == acts[k]);
            } else {
                assert(regions.skip(1)[i - 1] == regions[i]);
                assert(out2[i - 1] == out[i]);
                assert(stretch(acts, cuts, i) =~= stretch(later, cuts2, i - 1));
            }
        }
    }
}

/// The stretch of a dialogue of two parts, both of which succeeded, in which the second
/// was held.
pub proof fn lemma_second_part<A, B>(
    p: Talk<A>,
    f: spec_fn(A) -> Talk<B>,
    acts: Seq<Act>,
    b: B,
) -> (r: (int, A))
    requires
        after(and_then(p, f), acts) == Dialogue::Over(Ok::<B, FlashFault>(b)),
    ensures
        0 <= r.0 <= acts.len(),
        after(p, acts.take(r.0)) == Dialogue::Over(Ok::<A, FlashFault>(r.1)),
        after(f(r.1), acts.skip(r.0)) == Dialogue::Over(Ok::<B, FlashFault>(b)),
{
    let (k, a) = lemma_held_in_parts(p, unless_failed(f), acts, Ok::<B, FlashFault>(b));
    if let Err(e) = a {
        lemma_over(Err::<B, FlashFault>(e), acts.skip(k), Ok::<B, FlashFault>(b));
    }
    (k, a->Ok_0)
}

/// A dump of some regions that succeeds gives one byte string for each of them, in their
/// order: the `i`-th is just what the device sent in reply to the requests for the address
/// and the length of the `i`-th region. They are read one after the other, each to its end
/// before the next. Before that the device is brought up, and after it, it is reset, if that is
/// asked for.
pub proof fn law_dump_gives_each_region(
    plan: Plan,
    pac: Seq<u8>,
    opts: FlashOptions,
    regions: Seq<(u32, u32)>,
    acts: Seq<Act>,
    out: Seq<Seq<u8>>,
)
    requires
        after(dump_talk(plan, pac, opts, regions), acts) == Dialogue::Over(
            Ok::<Seq<Seq<u8>>, FlashFault>(out),
        ),
    ensures
        out.len() == regions.len(),
        exists|from: int, to: int|
            0 <= from <= to <= acts.len() && regions_read(
                #[trigger] acts.subrange(from, to),
                regions,
                out,
            ) && brought_up(acts.take(from), plan, pac, opts) && said(acts.skip(to)) == reset_said(
                opts,
            ),
{
    let (k, v) = lemma_second_part(
        bring_up_talk(plan, pac, opts),
        |_v: Seq<char>| dump_session(opts, regions),
        acts,
        out,
    );
    let rest = acts.skip(k);
    let last = |got: Seq<Seq<u8>>|
        and_then(reset_talk(opts), |_n: ()| Dialogue::Over(Ok::<Seq<Seq<u8>>, FlashFault>(got)));
    let (m, got) = lemma_second_part(
        dumping(regions, Seq::empty(), usual(opts)),
        last,
        rest,
        out,
    );
    let (n, u) = lemma_second_part(
        reset_talk(opts),
        |_n: ()| Dialogue::Over(Ok::<Seq<Seq<u8>>, FlashFault>(got)),
        rest.skip(m),
        out,
    );
    lemma_over(
        Ok::<Seq<Seq<u8>>, FlashFault>(got),
        rest.skip(m).skip(n),
        Ok::<Seq<Seq<u8>>, FlashFault>(out),
    );
    lemma_regions_read(regions, Seq::empty(), usual(opts), rest.take(m), got);
    assert(got.skip(0) =~= got);
    assert(acts.subrange(k, k + m) =~= rest.take(m));
    lemma_brought_up(plan, pac, opts, acts.take(k), v);
    assert(u == ());
    law_reset_is_said(opts, rest.skip(m).take(n));
    assert(acts.skip(k + m) =~= rest.skip(m).take(n));
}

// ---------------------------------------------------------------------------
// A dump of the whole flash
// ---------------------------------------------------------------------------

/// Whether the `j`-th of some acts, if it sends a message, asks for flash where the bytes
/// that have come in until then, after `had` others, end: for some, but for no more than
/// are left of `size`, nor more than 1024.
pub open spec fn images_on(acts: Seq<Act>, base: u32, size: nat, had: nat, j: int) -> bool {
    let got = had + bytes_heard(acts.take(j)).len();
    acts[j].step matches Step::Tell { cmd, data, .. } ==> cmd == 6 && got < size && asks_for(
        data,
        (base + got) % 0x1_0000_0000,
        big(data, 4),
    ) && 0 < big(data, 4) <= 1024 && got + big(data, 4) <= size
}

/// Whether the flash was read, in some acts, from `base` on, after `had` bytes of `size`, to
/// `image`: every message sent asks for what is next; `image` is what came in, all of it and
/// in its order; and it is over when all of it is there or a reply was empty.
pub open spec fn flash_read(
    acts: Seq<Act>,
    base: u32,
    size: nat,
    had: nat,
    image: Seq<u8>,
) -> bool {
    &&& forall|j: int| 0 <= j < acts.len() ==> #[trigger] images_on(acts, base, size, had, j)
    &&& bytes_heard(acts) == image
    &&& had + image.len() >= size || acts.len() > 0 && acts.last().step is Hear && (
    acts.last().outcome matches Ok((_, last)) && last.len() == 0)
}

proof fn lemma_images_on_later(first: Seq<Act>, rest: Seq<Act>, base: u32, size: nat, had: nat)
    requires
        forall|j: int| 0 <= j < first.len() ==> #[trigger] images_on(first, base, size, had, j),
        forall|j: int|
            0 <= j < rest.len() ==> #[trigger] images_on(
                rest,
                base,
                size,
                had + bytes_heard(first).len(),
                j,
            ),
    ensures
        forall|j: int|
            0 <= j < (first + rest).len() ==> #[trigger] images_on(
                first + rest,
                base,
                size,
                had,
                j,
            ),
{
    let all = first + rest;
    assert forall|j: int| 0 <= j < all.len() implies #[trigger] images_on(
        all,
        base,
        size,
        had,
        j,
    ) by {
        if j < first.len() {
            assert(images_on(first, base, size, had, j));
            assert(all.take(j) =~= first.take(j));
        } else {
            let i = j - first.len();
            assert(images_on(rest, base, size, had + bytes_heard(first).len(), i));
            assert(all.take(j) =~= first + rest.take(i));
            lemma_heard_concat(first, rest.take(i));
            assert(all[j] == rest[i]);
        }
    }
}

/// A read of a part of the flash is a step on the way through all of it.
proof fn lemma_part_images_on(acts: Seq<Act>, base: u32, size: nat, had: nat, part: nat)
    requires
        had + part <= size,
        part <= 1024,
        forall|j: int|
            0 <= j < acts.len() ==> #[trigger] reads_on(acts, moved_on(base, had), part, 0, j),
    ensures
        forall|j: int| 0 <= j < acts.len() ==> #[trigger] images_on(acts, base, size, had, j),
{
    reveal(moved_on);
    assert forall|j: int| 0 <= j < acts.len() implies #[trigger] images_on(
        acts,
        base,
        size,
        had,
        j,
    ) by {
        assert(reads_on(acts, moved_on(base, had), part, 0, j));
        let got = bytes_heard(acts.take(j)).len();
        assert((moved_on(base, had) + got) % 0x1_0000_0000 == (base + (had + got))
            % 0x1_0000_0000) by {
            vstd::arithmetic::div_mod::lemma_add_mod_noop(
                base + had,
                got as int,
                0x1_0000_0000,
            );
            vstd::arithmetic::div_mod::lemma_add_mod_noop(
                moved_on(base, had) as int,
                got as int,
                0x1_0000_0000,
            );
            vstd::arithmetic::div_mod::lemma_mod_twice(base + had, 0x1_0000_0000);
        }
    }
}

proof fn lemma_flash_read(
    base: u32,
    size: nat,
    got: Seq<u8>,
    link: Link,
    acts: Seq<Act>,
    all: Seq<u8>,
)
    requires
        after(imaging(base, size, got, link), acts) == Dialogue::Over(
            Ok::<Seq<u8>, FlashFault>(all),
        ),
    ensures
        all == got + bytes_heard(acts),
        flash_read(acts, base, size, got.len(), bytes_heard(acts)),
    decreases still_to_read(size, got.len()),
{
    let end = Ok::<Seq<u8>, FlashFault>(all);
    if got.len() >= size {
        lemma_over(Ok::<Seq<u8>, FlashFault>(got), acts, end);
        assert(got + Seq::<u8>::empty() =~= got);
    } else {
        let part = least(size - got.len(), READBACK_CHUNK as int) as nat;
        let at = moved_on(base, got.len());
        let read = reading(at, part, READBACK_CHUNK as nat, Seq::empty(), link);
        lemma_held_in_parts_whatever_follows::<
            Result<Seq<u8>, FlashFault>,
            Result<Seq<u8>, FlashFault>,
        >(read, acts, end);
        let (k, a) = choose|k: int, a: Result<Seq<u8>, FlashFault>| #[trigger]
            ends_at(read, acts, k, a) && after(
                match a {
                    Ok(data) => if data.len() == 0 {
                        Dialogue::Over(Ok(got))
                    } else {
                        and_then(
                            note("read"@, (got.len() + data.len()) as int, size as int).talk(),
                            |_n: ()| imaging(base, size, got + data, link),
                        )
                    },
                    Err(e) => Dialogue::Over(Err(e)),
                },
                acts.skip(k),
            ) == Dialogue::Over(end);
        if let Err(e) = a {
            lemma_over(Err::<Seq<u8>, FlashFault>(e), acts.skip(k), end);
        }
        let data = a->Ok_0;
        let first = acts.take(k);
        law_read_gives_what_was_sent(at, part, link, first, data);
        lemma_part_images_on(first, base, size, got.len(), part);
        if data.len() == 0 {
            lemma_over(Ok::<Seq<u8>, FlashFault>(got), acts.skip(k), end);
            assert(first =~= acts);
            assert(got + bytes_heard(acts) =~= got);
        } else {
            let report = note("read"@, (got.len() + data.len()) as int, size as int);
            let rest = acts.skip(k);
            lemma_held_in_parts_whatever_follows::<
                Result<(), FlashFault>,
                Result<Seq<u8>, FlashFault>,
            >(report.talk(), rest, end);
            let (m, b) = choose|m: int, b: Result<(), FlashFault>| #[trigger]
                ends_at(report.talk(), rest, m, b) && after(
                    match b {
                        Ok(_) => imaging(base, size, got + data, link),
                        Err(e) => Dialogue::Over(Err(e)),
                    },
                    rest.skip(m),
                ) == Dialogue::Over(end);
            match report.talk() {
                Dialogue::Next(step, go_on) => {
                    lemma_one_step(step, go_on, rest.take(m), b);
                },
                _ => {},
            }
            if let Err(e) = b {
                lemma_over(Err::<Seq<u8>, FlashFault>(e), rest.skip(m), end);
            }
            let noted = seq![rest[0]];
            let later = rest.skip(m);
            assert(rest.take(m) =~= noted);
            lemma_flash_read(base, size, got + data, link, later, all);
            lemma_heard_none(rest[0]);
            assert forall|j: int| 0 <= j < noted.len() implies #[trigger] images_on(
                noted,
                base,
                size,
                got.len() + data.len(),
                j,
            ) by {}
            lemma_images_on_later(noted, later, base, size, got.len() + data.len());
            assert(rest =~= noted + later);
            lemma_heard_concat(noted, later);
            assert(bytes_heard(rest) =~= bytes_heard(later));
            assert(acts =~= first + rest);
            lemma_images_on_later(first, rest, base, size, got.len());
            lemma_heard_concat(first, rest);
            assert(all =~= got + bytes_heard(acts));
            if later.len() > 0 {
                assert(acts.last() == later.last());
            }
        }
    }
}

/// The parts of a dump of the whole flash that succeeds.
proof fn lemma_full_dump_parts(
    plan: Plan,
    pac: Seq<u8>,
    opts: FlashOptions,
    base: u32,
    acts: Seq<Act>,
    image: Seq<u8>,
    size: u32,
) -> (r: (int, int, int))
    requires
        after(dump_full_talk(plan, pac, opts, base), acts) == Dialogue::Over(
            Ok::<(Seq<u8>, u32), FlashFault>((image, size)),
        ),
    ensures
        0 <= r.0 <= r.1 < r.2 <= acts.len(),
        after(sizing(base, usual(opts)), acts.subrange(r.0, r.1)) == Dialogue::Over(
            Ok::<u32, FlashFault>(size),
        ),
        acts[r.1].step matches Step::Note { report } && report.stage == "size"@ && report.done
            == size && report.total == size,
        after(imaging(base, size as nat, Seq::empty(), usual(opts)), acts.subrange(r.1 + 1, r.2))
            == Dialogue::Over(Ok::<Seq<u8>, FlashFault>(image)),
        brought_up(acts.take(r.0), plan, pac, opts),
        said(acts.skip(r.2)) == reset_said(opts),
{
    let done = (image, size);
    let (k, v) = lemma_second_part(
        bring_up_talk(plan, pac, opts),
        |_v: Seq<char>| dump_full_session(opts, base),
        acts,
        done,
    );
    let s1 = acts.skip(k);
    let f1 = |size: u32|
        and_then(
            note("size"@, size as int, size as int).talk(),
            |_n: ()|
                and_then(
                    imaging(base, size as nat, Seq::empty(), usual(opts)),
                    |image: Seq<u8>|
                        and_then(
                            reset_talk(opts),
                            |_n: ()| Dialogue::Over(Ok::<(Seq<u8>, u32), FlashFault>((image, size))),
                        ),
                ),
        );
    let (m, found) = lemma_second_part(sizing(base, usual(opts)), f1, s1, done);
    let s2 = s1.skip(m);
    let report = note("size"@, found as int, found as int);
    let f2 = |_n: ()|
        and_then(
            imaging(base, found as nat, Seq::empty(), usual(opts)),
            |image: Seq<u8>|
                and_then(
                    reset_talk(opts),
                    |_n: ()| Dialogue::Over(Ok::<(Seq<u8>, u32), FlashFault>((image, found))),
                ),
        );
    let (n, u) = lemma_second_part(report.talk(), f2, s2, done);
    match report.talk() {
        Dialogue::Next(step, go_on) => {
            lemma_one_step(step, go_on, s2.take(n), Ok::<(), FlashFault>(u));
        },
        _ => {},
    }
    let s3 = s2.skip(n);
    let f3 = |image: Seq<u8>|
        and_then(
            reset_talk(opts),
            |_n: ()| Dialogue::Over(Ok::<(Seq<u8>, u32), FlashFault>((image, found))),
        );
    let (q, bytes) = lemma_second_part(
        imaging(base, found as nat, Seq::empty(), usual(opts)),
        f3,
        s3,
        done,
    );
    let s4 = s3.skip(q);
    let (z, w) = lemma_second_part(
        reset_talk(opts),
        |_n: ()| Dialogue::Over(Ok::<(Seq<u8>, u32), FlashFault>((bytes, found))),
        s4,
        done,
    );
    lemma_over(
        Ok::<(Seq<u8>, u32), FlashFault>((bytes, found)),
        s4.skip(z),
        Ok::<(Seq<u8>, u32), FlashFault>(done),
    );
    assert(acts.subrange(k, k + m) =~= s1.take(m));
    assert(acts[k + m] == s2.take(n)[0]);
    assert(acts.subrange(k + m + 1, k + m + 1 + q) =~= s3.take(q));
    lemma_brought_up(plan, pac, opts, acts.take(k), v);
    assert(w == ());
    law_reset_is_said(opts, s4.take(z));
    assert(acts.skip(k + m + 1 + q) =~= s4.take(z));
    (k, k + m, k + m + 1 + q)
}

/// A dump of the whole flash that succeeds gives just what the device sent, from the base
/// of the flash on, all of it and in its order, and the size that was found before: every
/// request is for what is next, none goes past that size, and it is over when all is there
/// or at a reply without data. Before that the device is brought up, and after it, it is reset,
/// if that is asked for.
pub proof fn law_full_dump_gives_the_flash(
    plan: Plan,
    pac: Seq<u8>,
    opts: FlashOptions,
    base: u32,
    acts: Seq<Act>,
    image: Seq<u8>,
    size: u32,
)
    requires
        after(dump_full_talk(plan, pac, opts, base), acts) == Dialogue::Over(
            Ok::<(Seq<u8>, u32), FlashFault>((image, size)),
        ),
    ensures
        exists|from: int, at: int, to: int|
            #![trigger acts.subrange(from, at), acts.subrange(at + 1, to)]
            0 <= from <= at < to <= acts.len() && after(
                sizing(base, usual(opts)),
                acts.subrange(from, at),
            ) == Dialogue::Over(Ok::<u32, FlashFault>(size)) && flash_read(
                acts.subrange(at + 1, to),
                base,
                size as nat,
                0,
                image,
            ) && brought_up(acts.take(from), plan, pac, opts) && said(acts.skip(to)) == reset_said(
                opts,
            ),
{
    let (from, at, to) = lemma_full_dump_parts(plan, pac, opts, base, acts, image, size);
    let part = acts.subrange(at + 1, to);
    lemma_flash_read(base, size as nat, Seq::empty(), usual(opts), part, image);
    assert(Seq::<u8>::empty() + bytes_heard(part) =~= bytes_heard(part));
    assert(acts.subrange(from, at) == acts.subrange(from, at));
}

// ---------------------------------------------------------------------------
// Probes
// ---------------------------------------------------------------------------

/// One command of a probe that succeeds, and what came of it.
proof fn lemma_poll_step(
    cmds: Seq<(u16, Seq<u8>)>,
    got: Seq<(u16, Seq<u8>)>,
    link: Link,
    acts: Seq<Act>,
    end: Result<Seq<(u16, Seq<u8>)>, FlashFault>,
) -> (b: Result<(u16, Seq<u8>), FlashFault>)
    requires
        cmds.len() > 0,
        end is Ok,
        after(polling(cmds, got, link), acts) == Dialogue::Over(end),
    ensures
        acts.len() >= 2,
        acts[0].step == (Step::Tell {
            cmd: cmds[0].0,
            data: cmds[0].1,
            checksum: link.checksum,
        }),
        acts[1].step == (Step::Hear { timeout_ms: link.timeout_ms }),
        b == match acts[1].outcome {
            Ok(message) => Ok::<(u16, Seq<u8>), FlashFault>(message),
            Err(u) => Err(bsl_fault(u)),
        },
        after(
            match b {
                Ok(message) => polling(cmds.skip(1), got.push(message), link),
                Err(e) => if timed_out(e) {
                    Dialogue::Over(Ok(got.push((0, Seq::empty()))))
                } else {
                    Dialogue::Over(Err(e))
                },
            },
            acts.skip(2),
        ) == Dialogue::Over(end),
{
    reveal_with_fuel(crate::flash::dialogue::and_next, 3);
    reveal_with_fuel(after, 3);
    assert(acts.len() > 0);
    assert(acts[0].step == (Step::Tell {
        cmd: cmds[0].0,
        data: cmds[0].1,
        checksum: link.checksum,
    }));
    let rest = acts.skip(1);
    assert(rest.skip(1) =~= acts.skip(2));
    match acts[0].outcome {
        Err(u) => {
            assert(after(
                Dialogue::Over(Err::<Seq<(u16, Seq<u8>)>, FlashFault>(bsl_fault(u))),
                rest,
            ) == Dialogue::Over(end));
        },
        Ok(_) => {},
    }
    assert(rest.len() > 0);
    assert(rest[0] == acts[1]);
    match acts[1].outcome {
        Ok(message) => Ok(message),
        Err(u) => Err(bsl_fault(u)),
    }
}

proof fn lemma_probed(
    cmds: Seq<(u16, Seq<u8>)>,
    got: Seq<(u16, Seq<u8>)>,
    link: Link,
    acts: Seq<Act>,
    all: Seq<(u16, Seq<u8>)>,
)
    requires
        after(polling(cmds, got, link), acts) == Dialogue::Over(
            Ok::<Seq<(u16, Seq<u8>)>, FlashFault>(all),
        ),
    ensures
        got.len() <= all.len() <= got.len() + cmds.len(),
        told(acts) == cmds.take(all.len() - got.len()),
        if replies(acts).len() == cmds.len() {
            all == got + replies(acts)
        } else {
            all == got + replies(acts).push((0, Seq::empty()))
        },
        replies(acts).len() <= cmds.len(),
    decreases cmds.len(),
{
    let end = Ok::<Seq<(u16, Seq<u8>)>, FlashFault>(all);
    let nothing = Seq::<(u16, Seq<u8>)>::empty();
    if cmds.len() == 0 {
        lemma_over(Ok::<Seq<(u16, Seq<u8>)>, FlashFault>(got), acts, end);
        assert(got + nothing =~= got);
        assert(cmds.take(0) =~= nothing);
    } else {
        let later = acts.skip(2);
        let b = lemma_poll_step(cmds, got, link, acts, end);
        let both = acts.take(2);
        lemma_heard_two(both);
        lemma_heard_split(acts, 2);
        lemma_told_split(acts, 2);
        assert(both =~= seq![both[0]] + seq![both[1]]);
        lemma_told_concat(seq![both[0]], seq![both[1]]);
        lemma_told_one(both[0]);
        lemma_told_one(both[1]);
        assert(told(both) =~= seq![cmds[0]]);
        match b {
            Ok(message) => {
                lemma_probed(cmds.skip(1), got.push(message), link, later, all);
                let n = all.len() - got.len();
                assert(cmds.take(n) =~= seq![cmds[0]] + cmds.skip(1).take(n - 1));
                if replies(later).len() == cmds.skip(1).len() {
                    assert(all =~= got + replies(acts));
                } else {
                    assert(all =~= got + replies(acts).push((0, Seq::empty())));
                }
            },
            Err(e) => {
                if timed_out(e) {
                    lemma_over(
                        Ok::<Seq<(u16, Seq<u8>)>, FlashFault>(got.push((0, Seq::empty()))),
                        later,
                        end,
                    );
                } else {
                    lemma_over(Err::<Seq<(u16, Seq<u8>)>, FlashFault>(e), later, end);
                }
                assert(cmds.take(1) =~= seq![cmds[0]]);
                assert(replies(acts) =~= nothing);
                assert(all =~= got + nothing.push((0, Seq::empty())));
                assert(told(acts) =~= cmds.take(1));
            },
        }
    }
}

/// A probe that succeeds has sent the commands in their order and gives the replies to
/// them in that order. If one did not come in time, it gives type 0 without data in its
/// place, and has sent no more. Before that the device is brought up, and after it, it is
/// reset, if that is asked for.
pub proof fn law_probe_gives_each_reply(
    plan: Plan,
    pac: Seq<u8>,
    opts: FlashOptions,
    cmds: Seq<(u16, Seq<u8>)>,
    acts: Seq<Act>,
    out: Seq<(u16, Seq<u8>)>,
)
    requires
        after(probe_talk(plan, pac, opts, cmds), acts) == Dialogue::Over(
            Ok::<Seq<(u16, Seq<u8>)>, FlashFault>(out),
        ),
    ensures
        exists|from: int, to: int|
            0 <= from <= to <= acts.len() && {
                let part = #[trigger] acts.subrange(from, to);
                &&& out.len() <= cmds.len()
                &&& told(part) == cmds.take(out.len() as int)
                &&& if replies(part).len() == cmds.len() {
                    out == replies(part)
                } else {
                    out == replies(part).push((0, Seq::empty()))
                }
                &&& brought_up(acts.take(from), plan, pac, opts)
                &&& said(acts.skip(to)) == reset_said(opts)
            },
{
    let (k, v) = lemma_second_part(
        bring_up_talk(plan, pac, opts),
        |_v: Seq<char>| probe_session(opts, cmds),
        acts,
        out,
    );
    let rest = acts.skip(k);
    let last = |got: Seq<(u16, Seq<u8>)>|
        and_then(
            reset_talk(opts),
            |_n: ()| Dialogue::Over(Ok::<Seq<(u16, Seq<u8>)>, FlashFault>(got)),
        );
    let (m, got) = lemma_second_part(
        polling(cmds, Seq::empty(), usual(opts)),
        last,
        rest,
        out,
    );
    let (n, u) = lemma_second_part(
        reset_talk(opts),
        |_n: ()| Dialogue::Over(Ok::<Seq<(u16, Seq<u8>)>, FlashFault>(got)),
        rest.skip(m),
        out,
    );
    lemma_over(
        Ok::<Seq<(u16, Seq<u8>)>, FlashFault>(got),
        rest.skip(m).skip(n),
        Ok::<Seq<(u16, Seq<u8>)>, FlashFault>(out),
    );
    let part = rest.take(m);
    lemma_probed(cmds, Seq::empty(), usual(opts), part, got);
    assert(Seq::<(u16, Seq<u8>)>::empty() + replies(part) =~= replies(part));
    assert(Seq::<(u16, Seq<u8>)>::empty() + replies(part).push((0, Seq::empty())) =~= replies(
        part,
    ).push((0, Seq::empty())));
    assert(acts.subrange(k, k + m) =~= part);
    lemma_brought_up(plan, pac, opts, acts.take(k), v);
    assert(u == ());
    law_reset_is_said(opts, rest.skip(m).take(n));
    assert(acts.skip(k + m) =~= rest.skip(m).take(n));
}

} // verus!
