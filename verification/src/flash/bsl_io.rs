//! BSL link-layer I/O over a [`Transport`] (FDL2 + partitions).

use vstd::prelude::*;

use crate::bsl::{
    build_message, cmd, find_frame_body, frame_body, frameable, parse_message, rep, rep_name,
    Checksum,
};
use crate::bytes::{be32_bytes, push_be32};
use crate::flash::dialogue::{
    after, all_of, all_valid, and_then, ask, command, events_of, extends, hear, judged, order,
    lemma_logged, lemma_outset, lemma_part_held, lemma_part_held_whatever_follows, lemma_rest_held,
    lemma_task_done, plain, reports_of, since, tell, unless_failed, Act, Dialogue, Link, Step, Talk,
    Task, Upset,
};
use crate::flash::fault::{BslError, FlashFault};
use crate::flash::progress::{Progress, Report};
use crate::plan::{length_low32, low32};
use crate::text::owned;
use crate::transport::clock::Wait;
use crate::transport::{answers, fault_of, gathered, read_until, Event, Transport, TransportError};

verus! {

// ---------------------------------------------------------------------------
// Writing an image
// ---------------------------------------------------------------------------

/// The smaller of two numbers.
pub open spec fn least(a: int, b: int) -> int {
    if a <= b {
        a
    } else {
        b
    }
}

/// A report, as a thing to do.
pub open spec fn note(stage: Seq<char>, done: int, total: int) -> Task {
    Task::Just(Step::Note { report: Report { stage, done: done as u64, total: total as u64 } })
}

/// What to do to write the data of an image from `off` on: a `MIDST_DATA` command
/// for each piece of `chunk` bytes (the last may be shorter), and after each a
/// report.
pub open spec fn midst_tasks(
    data: Seq<u8>,
    off: int,
    chunk: int,
    link: Link,
    what: Seq<char>,
    label: Seq<char>,
) -> Seq<Task>
    decreases data.len() - off,
{
    if off >= data.len() || chunk <= 0 {
        Seq::empty()
    } else {
        let end = least(off + chunk, data.len() as int);
        seq![
            Task::Command {
                cmd: cmd::MIDST_DATA,
                data: data.subrange(off, end),
                link,
                expect: rep::ACK,
                what,
            },
            note(label, end, data.len() as int),
        ] + midst_tasks(data, end, chunk, link, what, label)
    }
}

/// A command that is to be acknowledged.
pub open spec fn acked(cmd: u16, data: Seq<u8>, link: Link, what: Seq<char>) -> Task {
    Task::Command { cmd, data, link, expect: rep::ACK, what }
}

/// The CONNECT handshake.
pub open spec fn connect_task(link: Link) -> Task {
    acked(cmd::CONNECT, Seq::empty(), link, "CONNECT"@)
}

/// How the commands that write an image are named where one of them fails.
pub struct ImageNames {
    pub start: &'static str,
    pub midst: &'static str,
    pub end: &'static str,
}

/// What to do to write an image: `START_DATA`, `MIDST_DATA*`, `END_DATA`.
pub open spec fn image_tasks(
    start: Seq<u8>,
    data: Seq<u8>,
    chunk: int,
    link: Link,
    names: ImageNames,
    label: Seq<char>,
) -> Seq<Task> {
    seq![acked(cmd::START_DATA, start, link, names.start@)] + midst_tasks(
        data,
        0,
        chunk,
        link,
        names.midst@,
        label,
    ) + seq![acked(cmd::END_DATA, Seq::empty(), link, names.end@)]
}

/// The payload of `START_DATA`: `addr | size`, both big-endian. The size field
/// holds the low 32 bits of the length.
pub open spec fn start_of(addr: u32, data: Seq<u8>) -> Seq<u8> {
    be32_bytes(addr) + be32_bytes(low32(data.len()))
}

/// Build the payload of `START_DATA`: `addr | size`, both big-endian.
pub fn start_payload(addr: u32, data: &[u8]) -> (r: Vec<u8>)
    ensures
        r@ == start_of(addr, data@),
        r@.len() == 8,
{
    let mut start: Vec<u8> = Vec::with_capacity(8);
    push_be32(&mut start, addr);
    push_be32(&mut start, length_low32(data.len()));
    proof {
        assert(start@ =~= start_of(addr, data@));
    }
    start
}

/// The names of the commands that write a stage.
pub open spec fn stage_names() -> ImageNames {
    ImageNames { start: "START_DATA", midst: "MIDST_DATA", end: "END_DATA" }
}

/// What to do to write a staged image.
pub open spec fn stage_tasks(
    addr: u32,
    data: Seq<u8>,
    chunk: int,
    link: Link,
    label: Seq<char>,
) -> Seq<Task> {
    image_tasks(start_of(addr, data), data, chunk, link, stage_names(), label)
}

/// Whether each piece of `chunk` bytes of the data from `off` on can be framed.
pub open spec fn pieces_frameable(
    data: Seq<u8>,
    off: int,
    chunk: int,
    checksum: Checksum,
) -> bool
    decreases data.len() - off,
{
    off >= data.len() || chunk <= 0 || {
        let end = least(off + chunk, data.len() as int);
        frameable(cmd::MIDST_DATA, data.subrange(off, end), checksum) && pieces_frameable(
            data,
            end,
            chunk,
            checksum,
        )
    }
}

/// Pieces of [`crate::bsl::MAX_DATA`] bytes or fewer can be framed.
pub proof fn law_short_pieces_are_frameable(
    data: Seq<u8>,
    off: int,
    chunk: int,
    checksum: Checksum,
)
    requires
        0 <= off,
        chunk <= crate::bsl::MAX_DATA || data.len() <= crate::bsl::MAX_DATA,
    ensures
        pieces_frameable(data, off, chunk, checksum),
    decreases data.len() - off,
{
    if off < data.len() && chunk > 0 {
        let end = least(off + chunk, data.len() as int);
        crate::bsl::law_short_data_is_frameable(
            cmd::MIDST_DATA,
            data.subrange(off, end),
            checksum,
        );
        law_short_pieces_are_frameable(data, end, chunk, checksum);
    }
}

// ---------------------------------------------------------------------------
// Reading flash
// ---------------------------------------------------------------------------

/// A chunk size of at least one byte.
pub open spec fn at_least_one(chunk: int) -> int {
    if chunk < 1 {
        1
    } else {
        chunk
    }
}

/// `addr` moved on by `off`, in 32 bits.
#[verifier::opaque]
pub open spec fn moved_on(addr: u32, off: nat) -> u32 {
    ((addr + off) % 0x1_0000_0000) as u32
}

/// The payload of `READ_FLASH`: `addr | size | 0`, all big-endian.
#[verifier::opaque]
pub open spec fn read_request(addr: u32, size: nat) -> Seq<u8> {
    be32_bytes(addr) + be32_bytes(low32(size)) + be32_bytes(0)
}

/// How much there is still to read.
pub open spec fn still_to_read(total: nat, got: nat) -> nat {
    if got >= total {
        0
    } else {
        (total - got) as nat
    }
}

/// Read `total` bytes from `addr` on, when `got` has come in already: in requests
/// of `chunk` bytes or as many as are left, each at the address where the bytes so
/// far end. A reply without data ends it early.
pub open spec fn reading(
    addr: u32,
    total: nat,
    chunk: nat,
    got: Seq<u8>,
    link: Link,
) -> Talk<Seq<u8>>
    decreases still_to_read(total, got.len()),
{
    if got.len() >= total {
        Dialogue::Over(Ok(got))
    } else {
        and_then(
            command(
                cmd::READ_FLASH,
                read_request(
                    moved_on(addr, got.len()),
                    least(total - got.len(), chunk as int) as nat,
                ),
                link,
                rep::READ_FLASH,
                "READ_FLASH"@,
            ),
            |data: Seq<u8>|
                if data.len() == 0 {
                    Dialogue::Over(Ok(got))
                } else {
                    reading(addr, total, chunk, got + data, link)
                },
        )
    }
}

/// One more reply came in.
proof fn lemma_read_on(
    d: Talk<Seq<u8>>,
    addr: u32,
    total: nat,
    chunk: nat,
    got: Seq<u8>,
    link: Link,
    a: Seq<Act>,
    b: Seq<Act>,
    c: Seq<Act>,
    r: Result<Seq<u8>, FlashFault>,
)
    requires
        got.len() < total,
        extends(a, b),
        extends(b, c),
        after(d, since(a, b)) == reading(addr, total, chunk, got, link),
        after(
            command(
                cmd::READ_FLASH,
                read_request(
                    moved_on(addr, got.len()),
                    least(total - got.len(), chunk as int) as nat,
                ),
                link,
                rep::READ_FLASH,
                "READ_FLASH"@,
            ),
            since(b, c),
        ) == Dialogue::Over(r),
    ensures
        extends(a, c),
        after(d, since(a, c)) == match r {
            Err(e) => Dialogue::Over(Err(e)),
            Ok(data) => if data.len() == 0 {
                Dialogue::Over(Ok(got))
            } else {
                reading(addr, total, chunk, got + data, link)
            },
        },
        reports_of(since(a, c)) == reports_of(since(a, b)) + reports_of(since(b, c)),
{
    let first = command(
        cmd::READ_FLASH,
        read_request(moved_on(addr, got.len()), least(total - got.len(), chunk as int) as nat),
        link,
        rep::READ_FLASH,
        "READ_FLASH"@,
    );
    lemma_part_held_whatever_follows(d, first, a, b, c, r);
}

/// `addr` moved on by `off`, in 32 bits.
pub fn address_after(addr: u32, off: usize) -> (r: u32)
    ensures
        r == moved_on(addr, off as nat),
{
    proof {
        reveal(moved_on);
    }
    addr.wrapping_add(length_low32(off))
}

/// The payload of `READ_FLASH`.
pub fn read_payload(addr: u32, size: usize) -> (r: Vec<u8>)
    ensures
        r@ == read_request(addr, size as nat),
        r@.len() == 12,
{
    let mut p: Vec<u8> = Vec::with_capacity(12);
    push_be32(&mut p, addr);
    push_be32(&mut p, length_low32(size));
    push_be32(&mut p, 0);
    proof {
        reveal(read_request);
        assert(p@ =~= read_request(addr, size as nat));
    }
    p
}

/// BSL transport bound to a byte stream.
pub struct BslIo<'a, T: Transport> {
    /// The underlying transport.
    pub port: &'a mut T,
    /// Session checksum (Spreadtrum sum on RDA8910/UIS8910).
    pub checksum: Checksum,
    /// How long to wait for a reply, in milliseconds.
    pub timeout_ms: u64,
    /// What had happened on the transport before the session.
    pub start: Ghost<Seq<Event>>,
    /// What was done in the session.
    pub log: Ghost<Seq<Act>>,
}

/// What a BSL result says, with its bytes as a sequence.
pub open spec fn bytes_said(r: Result<Vec<u8>, BslError>) -> Result<Seq<u8>, FlashFault> {
    match r {
        Ok(bytes) => Ok(bytes@),
        Err(e) => Err(FlashFault::Bsl(e@)),
    }
}

/// What a BSL result says, with the data of its message as a sequence.
pub open spec fn message_said(r: Result<(u16, Vec<u8>), BslError>) -> Result<
    (u16, Seq<u8>),
    FlashFault,
> {
    match r {
        Ok((kind, data)) => Ok((kind, data@)),
        Err(e) => Err(FlashFault::Bsl(e@)),
    }
}

/// What a BSL result says, where there is nothing to give back but that it went
/// well.
pub open spec fn said(r: Result<(), BslError>) -> Result<(), FlashFault> {
    match r {
        Ok(()) => Ok(()),
        Err(e) => Err(FlashFault::Bsl(e@)),
    }
}

impl<'a, T: Transport> BslIo<'a, T> {
    /// Whether the log accounts for what has happened on the transport.
    pub open spec fn wf(&self) -> bool {
        &&& self.port.trace() == self.start@ + events_of(self.log@)
        &&& all_valid(self.log@)
    }

    /// How a command is sent when its reply is waited for as long as this.
    pub open spec fn link_for(&self, timeout_ms: u64) -> Link {
        Link { checksum: self.checksum, timeout_ms }
    }

    /// How commands are sent in this session.
    pub open spec fn link(&self) -> Link {
        self.link_for(self.timeout_ms)
    }

    /// Whether this is what became of `earlier` in the same session.
    pub open spec fn continues(&self, earlier: &Self) -> bool {
        &&& self.wf()
        &&& extends(earlier.log@, self.log@)
        &&& self.start@ == earlier.start@
        &&& self.checksum == earlier.checksum
        &&& self.timeout_ms == earlier.timeout_ms
    }

    /// Wrap a transport; RDA8910/UIS8910 speaks the Spreadtrum sum.
    pub fn new(port: &'a mut T, timeout_ms: u64) -> (r: Self)
        ensures
            r.wf(),
            r.start@ == old(port).trace(),
            r.log@ == Seq::<Act>::empty(),
            r.checksum == Checksum::Sprd,
            r.timeout_ms == timeout_ms,
            r.port.trace() == old(port).trace(),
            *final(r.port) == *final(port),
    {
        let ghost start = port.trace();
        proof {
            assert(start + Seq::<Event>::empty() =~= start);
        }
        BslIo {
            port,
            checksum: Checksum::Sprd,
            timeout_ms,
            start: Ghost(start),
            log: Ghost(Seq::empty()),
        }
    }

    /// Adds an act to the log, which stood behind what has happened on the
    /// transport by just that act.
    fn logged<R>(&mut self, Ghost(d): Ghost<Dialogue<R>>, Ghost(act): Ghost<Act>)
        requires
            all_valid(old(self).log@),
            act.valid(),
            old(self).port.trace() =~= old(self).start@ + events_of(old(self).log@) + act.events,
        ensures
            final(self).continues(old(self)),
            since(old(self).log@, final(self).log@) == seq![act],
            after(d, seq![act]) == match d {
                Dialogue::Next(step, go_on) if step == act.step => *go_on(act.outcome),
                _ => Dialogue::Astray,
            },
            reports_of(seq![act]) == match act.step {
                Step::Note { report } => seq![report],
                _ => Seq::<Report>::empty(),
            },
            final(self).port.trace() == old(self).port.trace(),
            *final(final(self).port) == *final(old(self).port),
    {
        proof {
            lemma_logged(d, self.log@, act);
            assert(self.start@ + events_of(self.log@.push(act)) =~= self.start@ + events_of(
                self.log@,
            ) + act.events);
        }
        self.log = Ghost(self.log@.push(act));
    }

    /// Frame and send one BSL command (no reply wait).
    pub fn send(&mut self, cmd: u16, data: &[u8]) -> (r: Result<(), BslError>)
        requires
            old(self).wf(),
            frameable(cmd, data@, old(self).checksum),
        ensures
            final(self).continues(old(self)),
            after(
                tell(cmd, data@, old(self).checksum),
                since(old(self).log@, final(self).log@),
            ) == Dialogue::Over(said(r)),
            reports_of(since(old(self).log@, final(self).log@)) == Seq::<Report>::empty(),
            *final(final(self).port) == *final(old(self).port),
    {
        let msg: Vec<u8> = build_message(cmd, data, self.checksum);
        let sent: Result<(), TransportError> = self.port.write_all(&msg);
        let ghost fault = fault_of(sent);
        let ghost act = Act {
            step: Step::Tell { cmd, data: data@, checksum: self.checksum },
            events: seq![Event::Wrote { data: msg@, fault }],
            outcome: plain(fault),
            wait: None,
            pulse: None,
        };
        self.logged::<Result<(), FlashFault>>(Ghost(tell(cmd, data@, self.checksum)), Ghost(act));
        match sent {
            Ok(()) => Ok(()),
            Err(e) => Err(BslError::Transport(e)),
        }
    }

    /// Read one framed reply, returning `(type, data)`.
    pub fn recv(&mut self, timeout_ms: u64) -> (r: Result<(u16, Vec<u8>), BslError>)
        requires
            old(self).wf(),
        ensures
            final(self).continues(old(self)),
            after(hear(timeout_ms), since(old(self).log@, final(self).log@)) == Dialogue::Over(
                message_said(r),
            ),
            r matches Ok((kind, data)) ==> data@.len() <= 65535,
            reports_of(since(old(self).log@, final(self).log@)) == Seq::<Report>::empty(),
            *final(final(self).port) == *final(old(self).port),
    {
        let ghost before = self.port.trace();
        let mut acc: Vec<u8> = Vec::new();
        let mut wait: Wait = Wait::new(timeout_ms);
        let found: Result<Vec<u8>, TransportError> = read_until(
            &mut *self.port,
            &mut acc,
            &mut wait,
            find_frame_body,
        );
        let ghost events = self.port.trace().skip(before.len() as int);
        let ghost find = |b: Seq<u8>| frame_body(b);
        proof {
            assert(self.port.trace() =~= before + events);
            let none = Seq::<u8>::empty();
            assert forall|k: int| 0 <= k < events.len() implies find(
                none + #[trigger] gathered(events.take(k)),
            ) is None by {
                assert(answers(find_frame_body, none + gathered(events.take(k)), None));
            }
            assert(none + gathered(events) =~= gathered(events));
        }
        let body: Vec<u8> = match found {
            Ok(body) => body,
            Err(e) => {
                let ghost act = Act {
                    step: Step::Hear { timeout_ms },
                    events,
                    outcome: Err(Upset::Transport(e@)),
                    wait: Some(wait),
                    pulse: None,
                };
                self.logged::<Result<(u16, Seq<u8>), FlashFault>>(
                    Ghost(hear(timeout_ms)),
                    Ghost(act),
                );
                return Err(BslError::Transport(e));
            },
        };
        match parse_message(&body) {
            Ok((kind, data)) => {
                let ghost act = Act {
                    step: Step::Hear { timeout_ms },
                    events,
                    outcome: Ok((kind, data@)),
                    wait: Some(wait),
                    pulse: None,
                };
                self.logged::<Result<(u16, Seq<u8>), FlashFault>>(
                    Ghost(hear(timeout_ms)),
                    Ghost(act),
                );
                let mut copy: Vec<u8> = Vec::new();
                copy.extend_from_slice(data);
                proof {
                    assert(copy@ =~= data@);
                }
                Ok((kind, copy))
            },
            Err(e) => {
                let ghost act = Act {
                    step: Step::Hear { timeout_ms },
                    events,
                    outcome: Err(Upset::Frame(e@)),
                    wait: Some(wait),
                    pulse: None,
                };
                self.logged::<Result<(u16, Seq<u8>), FlashFault>>(
                    Ghost(hear(timeout_ms)),
                    Ghost(act),
                );
                Err(BslError::Frame(e))
            },
        }
    }

    /// Send a command and take whatever reply comes.
    pub fn ask(&mut self, cmd: u16, data: &[u8], timeout_ms: u64) -> (r: Result<
        (u16, Vec<u8>),
        BslError,
    >)
        requires
            old(self).wf(),
            frameable(cmd, data@, old(self).checksum),
        ensures
            final(self).continues(old(self)),
            after(
                ask(cmd, data@, old(self).link_for(timeout_ms)),
                since(old(self).log@, final(self).log@),
            ) == Dialogue::Over(message_said(r)),
            r matches Ok((kind, reply)) ==> reply@.len() <= 65535,
            reports_of(since(old(self).log@, final(self).log@)) == Seq::<Report>::empty(),
            *final(final(self).port) == *final(old(self).port),
    {
        let ghost l0 = self.log@;
        let ghost whole = ask(cmd, data@, self.link_for(timeout_ms));
        let ghost first = tell(cmd, data@, self.checksum);
        let ghost rest = unless_failed(|_n: ()| hear(timeout_ms));
        let sent: Result<(), BslError> = self.send(cmd, data);
        let ghost l1 = self.log@;
        proof {
            lemma_outset(whole, l0);
            lemma_part_held(whole, first, rest, l0, l0, l1, said(sent));
        }
        match sent {
            Ok(()) => {
                let heard: Result<(u16, Vec<u8>), BslError> = self.recv(timeout_ms);
                proof {
                    lemma_rest_held(whole, hear(timeout_ms), l0, l1, self.log@);
                }
                heard
            },
            Err(e) => Err(e),
        }
    }

    /// Send a command and require `expect` as the reply type.
    pub fn command(
        &mut self,
        cmd: u16,
        data: &[u8],
        expect: u16,
        timeout_ms: u64,
        what: &str,
    ) -> (r: Result<Vec<u8>, BslError>)
        requires
            old(self).wf(),
            frameable(cmd, data@, old(self).checksum),
        ensures
            final(self).continues(old(self)),
            after(
                command(cmd, data@, old(self).link_for(timeout_ms), expect, what@),
                since(old(self).log@, final(self).log@),
            ) == Dialogue::Over(bytes_said(r)),
            r matches Ok(reply) ==> reply@.len() <= 65535,
            reports_of(since(old(self).log@, final(self).log@)) == Seq::<Report>::empty(),
            *final(final(self).port) == *final(old(self).port),
    {
        let ghost l0 = self.log@;
        let ghost whole = command(cmd, data@, self.link_for(timeout_ms), expect, what@);
        let ghost first = ask(cmd, data@, self.link_for(timeout_ms));
        let ghost rest = unless_failed(
            |m: (u16, Seq<u8>)| Dialogue::Over(judged(Ok(m), expect, what@)),
        );
        let asked: Result<(u16, Vec<u8>), BslError> = self.ask(cmd, data, timeout_ms);
        proof {
            reveal(command);
            lemma_outset(whole, l0);
            lemma_part_held(whole, first, rest, l0, l0, self.log@, message_said(asked));
        }
        match asked {
            Ok((kind, reply)) => if kind == expect {
                Ok(reply)
            } else {
                Err(
                    BslError::Unexpected {
                        what: owned(what),
                        expected: rep_name(expect),
                        got: rep_name(kind),
                    },
                )
            },
            Err(e) => Err(e),
        }
    }

    /// Send a command and require `expect` as the reply type, whatever its data.
    pub fn order(
        &mut self,
        cmd: u16,
        data: &[u8],
        expect: u16,
        timeout_ms: u64,
        what: &str,
    ) -> (r: Result<(), BslError>)
        requires
            old(self).wf(),
            frameable(cmd, data@, old(self).checksum),
        ensures
            final(self).continues(old(self)),
            after(
                order(cmd, data@, old(self).link_for(timeout_ms), expect, what@),
                since(old(self).log@, final(self).log@),
            ) == Dialogue::Over(said(r)),
            reports_of(since(old(self).log@, final(self).log@)) == Seq::<Report>::empty(),
            *final(final(self).port) == *final(old(self).port),
    {
        let ghost l0 = self.log@;
        let ghost whole = order(cmd, data@, self.link_for(timeout_ms), expect, what@);
        let ghost first = command(cmd, data@, self.link_for(timeout_ms), expect, what@);
        let ghost rest = unless_failed(
            |_d: Seq<u8>| Dialogue::<Result<(), FlashFault>>::Over(Ok(())),
        );
        let done: Result<Vec<u8>, BslError> = self.command(cmd, data, expect, timeout_ms, what);
        proof {
            lemma_outset(whole, l0);
            lemma_part_held(whole, first, rest, l0, l0, self.log@, bytes_said(done));
        }
        match done {
            Ok(_) => Ok(()),
            Err(e) => Err(e),
        }
    }

    /// CONNECT handshake (expects ACK).
    pub fn connect(&mut self) -> (r: Result<(), BslError>)
        requires
            old(self).wf(),
        ensures
            final(self).continues(old(self)),
            after(
                connect_task(old(self).link()).talk(),
                since(old(self).log@, final(self).log@),
            ) == Dialogue::Over(said(r)),
            reports_of(since(old(self).log@, final(self).log@)) == Seq::<Report>::empty(),
            *final(final(self).port) == *final(old(self).port),
    {
        let none: [u8; 0] = [];
        proof {
            assert(none@ =~= Seq::<u8>::empty());
            crate::bsl::law_short_data_is_frameable(cmd::CONNECT, none@, self.checksum);
        }
        self.order(cmd::CONNECT, &none, rep::ACK, self.timeout_ms, "CONNECT")
    }

    /// Report progress to the user.
    pub fn note<P: Progress>(&mut self, progress: &mut P, stage: &str, done: u64, total: u64)
        requires
            old(self).wf(),
        ensures
            final(self).continues(old(self)),
            after(
                note(stage@, done as int, total as int).talk(),
                since(old(self).log@, final(self).log@),
            ) == Dialogue::Over(Ok::<(), FlashFault>(())),
            reports_of(since(old(self).log@, final(self).log@)) == seq![
                Report { stage: stage@, done, total },
            ],
            final(progress).seen() == old(progress).seen() + reports_of(
                since(old(self).log@, final(self).log@),
            ),
            *final(final(self).port) == *final(old(self).port),
    {
        progress.report(stage, done, total);
        let ghost report = Report { stage: stage@, done, total };
        let ghost act = Act {
            step: Step::Note { report },
            events: Seq::empty(),
            outcome: plain(None),
            wait: None,
            pulse: None,
        };
        self.logged::<Result<(), FlashFault>>(
            Ghost(note(stage@, done as int, total as int).talk()),
            Ghost(act),
        );
    }

    /// Write an image: `START_DATA` with payload `start` → `MIDST_DATA*` →
    /// `END_DATA`.
    pub fn send_image<P: Progress>(
        &mut self,
        start: &[u8],
        data: &[u8],
        chunk: usize,
        names: &ImageNames,
        label: &str,
        progress: &mut P,
    ) -> (r: Result<(), BslError>)
        requires
            old(self).wf(),
            chunk > 0,
            start@.len() <= crate::bsl::MAX_DATA,
            pieces_frameable(data@, 0, chunk as int, old(self).checksum),
        ensures
            final(self).continues(old(self)),
            after(
                all_of(
                    image_tasks(
                        start@,
                        data@,
                        chunk as int,
                        old(self).link(),
                        *names,
                        label@,
                    ),
                ),
                since(old(self).log@, final(self).log@),
            ) == Dialogue::Over(said(r)),
            final(progress).seen() == old(progress).seen() + reports_of(
                since(old(self).log@, final(self).log@),
            ),
            *final(final(self).port) == *final(old(self).port),
    {
        let ghost l0 = self.log@;
        let ghost ck = self.checksum;
        let ghost lk = self.link();
        let ghost tasks = image_tasks(start@, data@, chunk as int, lk, *names, label@);
        let ghost whole = all_of(tasks);
        let ghost tail = seq![acked(cmd::END_DATA, Seq::empty(), lk, names.end@)];
        let ghost seen0 = progress.seen();
        proof {
            lemma_outset(whole, l0);
            crate::bsl::law_short_data_is_frameable(cmd::START_DATA, start@, ck);
        }
        let begun: Result<(), BslError> = self.order(
            cmd::START_DATA,
            start,
            rep::ACK,
            self.timeout_ms,
            names.start,
        );
        proof {
            lemma_task_done(whole, tasks, l0, l0, self.log@, said(begun));
            assert(tasks.skip(1) =~= midst_tasks(data@, 0, chunk as int, lk, names.midst@, label@)
                + tail);
        }
        match begun {
            Ok(()) => {},
            Err(e) => return Err(e),
        }
        let mut off: usize = 0;
        while off < data.len()
            invariant
                self.continues(old(self)),
                l0 == old(self).log@,
                ck == old(self).checksum,
                lk == old(self).link(),
                seen0 == old(progress).seen(),
                *final(self.port) == *final(old(self).port),
                chunk > 0,
                off <= data@.len(),
                pieces_frameable(data@, off as int, chunk as int, ck),
                tail == seq![acked(cmd::END_DATA, Seq::empty(), lk, names.end@)],
                whole == all_of(
                    image_tasks(start@, data@, chunk as int, lk, *names, label@),
                ),
                after(whole, since(l0, self.log@)) == all_of(
                    midst_tasks(data@, off as int, chunk as int, lk, names.midst@, label@) + tail,
                ),
                progress.seen() == seen0 + reports_of(since(l0, self.log@)),
            decreases data.len() - off,
        {
            let n: usize = if data.len() - off < chunk {
                data.len() - off
            } else {
                chunk
            };
            let end: usize = off + n;
            let piece: &[u8] = vstd::slice::slice_subrange(data, off, end);
            let ghost todo = midst_tasks(data@, off as int, chunk as int, lk, names.midst@, label@)
                + tail;
            let ghost l1 = self.log@;
            let ghost seen1 = progress.seen();
            let sent: Result<(), BslError> = self.order(
                cmd::MIDST_DATA,
                piece,
                rep::ACK,
                self.timeout_ms,
                names.midst,
            );
            let ghost l2 = self.log@;
            proof {
                assert(todo[0] == acked(cmd::MIDST_DATA, piece@, lk, names.midst@));
                lemma_task_done(whole, todo, l0, l1, l2, said(sent));
                assert(reports_of(since(l0, l1)) + Seq::<Report>::empty() =~= reports_of(
                    since(l0, l1),
                ));
            }
            match sent {
                Ok(()) => {},
                Err(e) => return Err(e),
            }
            self.note(progress, label, end as u64, data.len() as u64);
            proof {
                assert(todo.skip(1)[0] == note(label@, end as int, data@.len() as int));
                lemma_task_done(
                    whole,
                    todo.skip(1),
                    l0,
                    l2,
                    self.log@,
                    Ok::<(), FlashFault>(()),
                );
                assert(todo.skip(1).skip(1) =~= midst_tasks(
                    data@,
                    end as int,
                    chunk as int,
                    lk,
                    names.midst@,
                    label@,
                ) + tail);
                assert(seen0 + reports_of(since(l0, l2)) + reports_of(since(l2, self.log@)) =~= seen0
                    + (reports_of(since(l0, l2)) + reports_of(since(l2, self.log@))));
            }
            off = end;
        }
        let ghost l3 = self.log@;
        let none: [u8; 0] = [];
        proof {
            assert(none@ =~= Seq::<u8>::empty());
            crate::bsl::law_short_data_is_frameable(cmd::END_DATA, none@, ck);
            assert(midst_tasks(data@, off as int, chunk as int, lk, names.midst@, label@) + tail
                =~= tail);
        }
        let ended: Result<(), BslError> = self.order(
            cmd::END_DATA,
            &none,
            rep::ACK,
            self.timeout_ms,
            names.end,
        );
        proof {
            lemma_task_done(whole, tail, l0, l3, self.log@, said(ended));
            assert(tail.skip(1) =~= Seq::<Task>::empty());
            assert(reports_of(since(l0, l3)) + Seq::<Report>::empty() =~= reports_of(since(l0, l3)));
        }
        ended
    }

    /// Write a staged image: `START_DATA(addr,size)` → `MIDST_DATA*` → `END_DATA`.
    pub fn send_stage<P: Progress>(
        &mut self,
        addr: u32,
        data: &[u8],
        chunk: usize,
        label: &str,
        progress: &mut P,
    ) -> (r: Result<(), BslError>)
        requires
            old(self).wf(),
            pieces_frameable(data@, 0, at_least_one(chunk as int), old(self).checksum),
        ensures
            final(self).continues(old(self)),
            after(
                all_of(
                    stage_tasks(
                        addr,
                        data@,
                        at_least_one(chunk as int),
                        old(self).link(),
                        label@,
                    ),
                ),
                since(old(self).log@, final(self).log@),
            ) == Dialogue::Over(said(r)),
            final(progress).seen() == old(progress).seen() + reports_of(
                since(old(self).log@, final(self).log@),
            ),
            *final(final(self).port) == *final(old(self).port),
    {
        let start: Vec<u8> = start_payload(addr, data);
        let chunk: usize = if chunk < 1 {
            1
        } else {
            chunk
        };
        let names: ImageNames = ImageNames {
            start: "START_DATA",
            midst: "MIDST_DATA",
            end: "END_DATA",
        };
        self.send_image(&start, data, chunk, &names, label, progress)
    }

    /// Read `total` bytes from logical `addr` via BSL READ_FLASH, in `chunk`-byte
    /// requests (payload = addr | size | offset, all big-endian).
    pub fn read_flash(&mut self, addr: u32, total: usize, chunk: usize) -> (r: Result<
        Vec<u8>,
        BslError,
    >)
        requires
            old(self).wf(),
        ensures
            final(self).continues(old(self)),
            after(
                reading(
                    addr,
                    total as nat,
                    at_least_one(chunk as int) as nat,
                    Seq::empty(),
                    old(self).link(),
                ),
                since(old(self).log@, final(self).log@),
            ) == Dialogue::Over(bytes_said(r)),
            r matches Ok(bytes) ==> bytes@.len() <= total + 65535,
            reports_of(since(old(self).log@, final(self).log@)) == Seq::<Report>::empty(),
            *final(final(self).port) == *final(old(self).port),
    {
        let step: usize = if chunk < 1 {
            1
        } else {
            chunk
        };
        let ghost l0 = self.log@;
        let ghost ck = self.checksum;
        let ghost lk = self.link();
        let ghost whole = reading(addr, total as nat, step as nat, Seq::empty(), lk);
        let mut out: Vec<u8> = Vec::new();
        proof {
            lemma_outset(whole, l0);
            assert(out@ =~= Seq::<u8>::empty());
        }
        while out.len() < total
            invariant
                self.continues(old(self)),
                l0 == old(self).log@,
                ck == old(self).checksum,
                lk == old(self).link(),
                step == at_least_one(chunk as int),
                *final(self.port) == *final(old(self).port),
                whole == reading(addr, total as nat, step as nat, Seq::empty(), lk),
                after(whole, since(l0, self.log@)) == reading(
                    addr,
                    total as nat,
                    step as nat,
                    out@,
                    lk,
                ),
                out@.len() <= total + 65535,
                reports_of(since(l0, self.log@)) == Seq::<Report>::empty(),
            decreases still_to_read(total as nat, out@.len()),
        {
            let off: usize = out.len();
            let n: usize = if total - off < step {
                total - off
            } else {
                step
            };
            // The FDL2 reads from `addr` and does not honour a separate offset
            // field, so the running offset is folded into `addr` and the offset
            // sent as zero — correct whether the device reads `addr` or
            // `addr + offset`.
            let at: u32 = address_after(addr, off);
            let p: Vec<u8> = read_payload(at, n);
            let ghost l1 = self.log@;
            let ghost got = out@;
            proof {
                crate::bsl::law_short_data_is_frameable(cmd::READ_FLASH, p@, ck);
            }
            let read: Result<Vec<u8>, BslError> = self.command(
                cmd::READ_FLASH,
                &p,
                rep::READ_FLASH,
                self.timeout_ms,
                "READ_FLASH",
            );
            proof {
                lemma_read_on(
                    whole,
                    addr,
                    total as nat,
                    step as nat,
                    got,
                    lk,
                    l0,
                    l1,
                    self.log@,
                    bytes_said(read),
                );
                assert(Seq::<Report>::empty() + Seq::<Report>::empty() =~= Seq::<Report>::empty());
            }
            match read {
                Ok(data) => {
                    if data.len() == 0 {
                        return Ok(out);  // let the caller's length check fail
                    }
                    let n: usize = out.len();
                    out.extend_from_slice(&data);
                    proof {
                        assert(out@ =~= got + data@);
                    }
                },
                Err(e) => return Err(e),
            }
        }
        Ok(out)
    }

    /// Access the underlying transport. What is done with it does not go into the
    /// log.
    pub fn port(&mut self) -> (r: &mut T)
        ensures
            *r == *old(self).port,
            *final(self).port == *final(r),
            final(self).log@ == old(self).log@,
            final(self).start@ == old(self).start@,
            final(self).checksum == old(self).checksum,
            final(self).timeout_ms == old(self).timeout_ms,
            *final(final(self).port) == *final(old(self).port),
    {
        &mut *self.port
    }

    /// Change the baud rate of the line.
    pub fn set_baud(&mut self, baud: u32) -> (r: Result<(), BslError>)
        requires
            old(self).wf(),
        ensures
            final(self).continues(old(self)),
            after(
                Task::Just(Step::Rate { baud }).talk(),
                since(old(self).log@, final(self).log@),
            ) == Dialogue::Over(said(r)),
            reports_of(since(old(self).log@, final(self).log@)) == Seq::<Report>::empty(),
            *final(final(self).port) == *final(old(self).port),
    {
        let set: Result<(), TransportError> = self.port.set_baud(baud);
        let ghost fault = fault_of(set);
        let ghost act = Act {
            step: Step::Rate { baud },
            events: seq![Event::BaudSet { rate: baud, fault }],
            outcome: plain(fault),
            wait: None,
            pulse: None,
        };
        self.logged::<Result<(), FlashFault>>(
            Ghost(Task::Just(Step::Rate { baud }).talk()),
            Ghost(act),
        );
        match set {
            Ok(()) => Ok(()),
            Err(e) => Err(BslError::Transport(e)),
        }
    }

    /// Discard any buffered input.
    pub fn purge_input(&mut self)
        requires
            old(self).wf(),
        ensures
            final(self).continues(old(self)),
            after(Task::Just(Step::Purge).talk(), since(old(self).log@, final(self).log@))
                == Dialogue::Over(Ok::<(), FlashFault>(())),
            reports_of(since(old(self).log@, final(self).log@)) == Seq::<Report>::empty(),
            *final(final(self).port) == *final(old(self).port),
    {
        self.port.purge_input();
        let ghost act = Act {
            step: Step::Purge,
            events: seq![Event::Purged],
            outcome: plain(None),
            wait: None,
            pulse: None,
        };
        self.logged::<Result<(), FlashFault>>(Ghost(Task::Just(Step::Purge).talk()), Ghost(act));
    }

    /// Flush the last frame and hold the line.
    pub fn reset_teardown(&mut self, hold_ms: u64)
        requires
            old(self).wf(),
        ensures
            final(self).continues(old(self)),
            after(
                Task::Just(Step::Hold { millis: hold_ms }).talk(),
                since(old(self).log@, final(self).log@),
            ) == Dialogue::Over(Ok::<(), FlashFault>(())),
            reports_of(since(old(self).log@, final(self).log@)) == Seq::<Report>::empty(),
            *final(final(self).port) == *final(old(self).port),
    {
        self.port.reset_teardown(hold_ms);
        let ghost act = Act {
            step: Step::Hold { millis: hold_ms },
            events: seq![Event::Held { millis: hold_ms }],
            outcome: plain(None),
            wait: None,
            pulse: None,
        };
        self.logged::<Result<(), FlashFault>>(
            Ghost(Task::Just(Step::Hold { millis: hold_ms }).talk()),
            Ghost(act),
        );
    }
}

} // verus!
