//! What is said to a device, and what comes of each answer.
//!
//! A [`Step`] is one thing to do with a device; an [`Act`] is a step that was
//! taken, with what happened on the transport and what came of it. A
//! [`Dialogue`] says which step comes first and, for each outcome of it, how to
//! go on, until it is over with some result. A function of the flash driver says
//! in its contract which dialogue it holds: the acts it adds to its log lead
//! from the beginning of that dialogue to the end that has its result
//! ([`after`]).

use vstd::prelude::*;

use crate::bsl::{frame_body, flag_frame, message_of, parsed, rep_name_of, Checksum, FLAG};
use crate::error::Fault;
use crate::flash::fault::{BslFault, FlashFault, PdlFault};
use crate::flash::pdl_io::{KICK_MS, ROUSE_READ_SIZE};
use crate::flash::progress::Report;
use crate::pdl::{header_of, reply_in};
use crate::transport::clock::{Pulse, Wait};
use crate::transport::{gathered, is_read, watched, Event, TransportFault};

verus! {

// ---------------------------------------------------------------------------
// Steps and acts
// ---------------------------------------------------------------------------

/// One thing to do with a device.
pub enum Step {
    /// Send a PDL message: its header, then its payload, each written by itself.
    Packet { payload: Seq<u8> },
    /// Wait for a PDL reply, for so many milliseconds at most.
    Await { timeout_ms: u64 },
    /// Send check-baud flags until a whole flag-delimited frame has come in, for so
    /// many milliseconds at most.
    Rouse { timeout_ms: u64 },
    /// Send a BSL message.
    Tell { cmd: u16, data: Seq<u8>, checksum: Checksum },
    /// Wait for a BSL message, for so many milliseconds at most.
    Hear { timeout_ms: u64 },
    /// Change the baud rate of the line.
    Rate { baud: u32 },
    /// Throw away buffered input.
    Purge,
    /// Flush and hold the line.
    Hold { millis: u64 },
    /// Tell the user how far a stage is.
    Note { report: Report },
}

/// Why a step went wrong.
pub enum Upset {
    Transport(TransportFault),
    Frame(Fault),
    NoVersion,
}

/// What comes of a step: the type and data of a BSL message that was heard, type
/// 0 and the bytes of a PDL reply or a frame, type 0 and no bytes for any other
/// step; or why it went wrong.
pub type Outcome = Result<(u16, Seq<u8>), Upset>;

/// A step that was taken, what happened on the transport, what came of it, the wait that
/// bounded it if it is one that waits, and the pulse that drove it if it has one.
pub struct Act {
    pub step: Step,
    pub events: Seq<Event>,
    pub outcome: Outcome,
    pub wait: Option<Wait>,
    pub pulse: Option<Pulse>,
}

/// How BSL commands are sent and replies waited for: with which checksum, and how many
/// milliseconds at most.
pub struct Link {
    pub checksum: Checksum,
    pub timeout_ms: u64,
}

/// The outcome of a step that brings nothing in, given what went wrong with it.
pub open spec fn plain(fault: Option<TransportFault>) -> Outcome {
    match fault {
        None => Ok((0, Seq::empty())),
        Some(f) => Err(Upset::Transport(f)),
    }
}

/// Whether some events are those of sending a PDL message. If the write of the
/// header goes wrong, there is none of the payload.
pub open spec fn packet_sent(payload: Seq<u8>, events: Seq<Event>, outcome: Outcome) -> bool {
    let header = header_of((payload.len() % 65536) as u16);
    ||| events.len() == 1 && (events[0] matches Event::Wrote { data, fault } && data == header
        && fault is Some && outcome == plain(fault))
    ||| events.len() == 2 && events[0] == (Event::Wrote { data: header, fault: None }) && (
    events[1] matches Event::Wrote { data, fault } && data == payload && outcome == plain(fault))
}

/// Whether some events are those of waiting for a PDL reply, until the time ran out or
/// not.
pub open spec fn reply_awaited(events: Seq<Event>, ran_out: bool, outcome: Outcome) -> bool {
    let find = |b: Seq<u8>| reply_in(b);
    match outcome {
        Ok((kind, payload)) => kind == 0 && watched(Seq::empty(), events, find, ran_out, Ok(payload)),
        Err(Upset::Transport(f)) => watched(Seq::empty(), events, find, ran_out, Err(f)),
        Err(_) => false,
    }
}

/// Whether some events are those of waiting for a BSL message, until the time ran out or
/// not: the first frame in the input is decoded.
pub open spec fn message_heard(events: Seq<Event>, ran_out: bool, outcome: Outcome) -> bool {
    let find = |b: Seq<u8>| frame_body(b);
    let body = frame_body(gathered(events))->0;
    match outcome {
        Ok(message) => watched(Seq::empty(), events, find, ran_out, Ok(body)) && parsed(body) == Ok::<
            (u16, Seq<u8>),
            Fault,
        >(message),
        Err(Upset::Frame(f)) => watched(Seq::empty(), events, find, ran_out, Ok(body)) && parsed(body)
            == Err::<(u16, Seq<u8>), Fault>(f),
        Err(Upset::Transport(f)) => watched(Seq::empty(), events, find, ran_out, Err(f)),
        Err(Upset::NoVersion) => false,
    }
}

/// A check-baud flag that was written.
pub open spec fn kick() -> Event {
    Event::Wrote { data: seq![FLAG], fault: None }
}

/// Whether some events are those of whole rounds of rousing a device: one round for
/// each look at the pulse, with a check-baud flag just if the look found one due, and
/// then a read.
pub open spec fn whole_rounds(dues: Seq<bool>, events: Seq<Event>) -> bool
    decreases dues.len(), 1int,
{
    if dues.len() == 0 {
        events.len() == 0
    } else {
        events.len() > 0 && is_read(events.last(), ROUSE_READ_SIZE as nat) && up_to_the_read(
            dues,
            events.drop_last(),
        )
    }
}

/// As [`whole_rounds`], with the last round still without its read.
pub open spec fn up_to_the_read(dues: Seq<bool>, events: Seq<Event>) -> bool
    decreases dues.len(), 0int,
{
    if dues.len() == 0 {
        false
    } else if dues.last() {
        events.len() > 0 && events.last() == kick() && whole_rounds(
            dues.drop_last(),
            events.drop_last(),
        )
    } else {
        whole_rounds(dues.drop_last(), events)
    }
}

/// Whether some events are those of sending check-baud flags, when the looks at the
/// pulse find them due, until a frame came or the time ran out. The first look finds one
/// due.
pub open spec fn roused(
    dues: Seq<bool>,
    events: Seq<Event>,
    ran_out: bool,
    outcome: Outcome,
) -> bool {
    &&& dues.len() > 0 ==> dues[0]
    &&& forall|k: int|
        0 <= k < events.len() ==> flag_frame(#[trigger] gathered(events.take(k))) is None
    &&& match outcome {
        Ok((kind, frame)) => kind == 0 && whole_rounds(dues, events) && flag_frame(
            gathered(events),
        ) == Some(frame),
        Err(Upset::NoVersion) => ran_out && whole_rounds(dues, events) && flag_frame(
            gathered(events),
        ) is None,
        Err(Upset::Transport(f)) => events.len() > 0 && {
            ||| events.last() == (Event::ReadFailed { fault: f }) && up_to_the_read(
                dues,
                events.drop_last(),
            )
            ||| dues.len() > 0 && dues.last() && events.last() == (Event::Wrote {
                data: seq![FLAG],
                fault: Some(f),
            }) && whole_rounds(dues.drop_last(), events.drop_last())
        },
        Err(Upset::Frame(_)) => false,
    }
}

impl Act {
    /// Whether the step was bounded by a wait of this many milliseconds, of which this
    /// many looks at the clock found time left.
    pub open spec fn waited(self, timeout_ms: u64, rounds: nat) -> bool {
        self.wait matches Some(wait) && wait.limit() == timeout_ms && wait.rounds() == rounds
    }

    /// Whether the wait that bounded the step has run out.
    pub open spec fn ran_out(self) -> bool {
        self.wait matches Some(wait) && wait.ran_out()
    }

    /// Whether what happened on the transport is what the step does, and the
    /// outcome what it says. A step that waits comes to nothing for want of time only
    /// if the wait that bounded it, of just the time it has, has run out; until then each
    /// look that finds time left is followed by a read.
    pub open spec fn valid(self) -> bool {
        match self.step {
            Step::Packet { payload } => packet_sent(payload, self.events, self.outcome),
            Step::Await { timeout_ms } => self.waited(timeout_ms, self.events.len())
                && reply_awaited(
                self.events,
                self.ran_out(),
                self.outcome,
            ),
            Step::Rouse { timeout_ms } => self.pulse matches Some(pulse) && pulse.every() == KICK_MS
                && self.waited(timeout_ms, pulse.dues().len()) && roused(
                pulse.dues(),
                self.events,
                self.ran_out(),
                self.outcome,
            ),
            Step::Tell { cmd, data, checksum } => self.events.len() == 1 && (
            self.events[0] matches Event::Wrote { data: wire, fault } && wire == message_of(
                cmd,
                data,
                checksum,
            ) && self.outcome == plain(fault)),
            Step::Hear { timeout_ms } => self.waited(timeout_ms, self.events.len())
                && message_heard(
                self.events,
                self.ran_out(),
                self.outcome,
            ),
            Step::Rate { baud } => self.events.len() == 1 && (
            self.events[0] matches Event::BaudSet { rate, fault } && rate == baud && self.outcome
                == plain(fault)),
            Step::Purge => self.events == seq![Event::Purged] && self.outcome == plain(None),
            Step::Hold { millis } => self.events == seq![Event::Held { millis }] && self.outcome
                == plain(None),
            Step::Note { report } => self.events.len() == 0 && self.outcome == plain(None),
        }
    }
}

/// Whether each of some acts is what its step does.
pub open spec fn all_valid(acts: Seq<Act>) -> bool {
    forall|i: int| 0 <= i < acts.len() ==> (#[trigger] acts[i]).valid()
}

/// What happened on the transport in some acts.
pub open spec fn events_of(acts: Seq<Act>) -> Seq<Event>
    decreases acts.len(),
{
    if acts.len() == 0 {
        Seq::empty()
    } else {
        events_of(acts.drop_last()) + acts.last().events
    }
}

/// What the user was told in some acts.
pub open spec fn reports_of(acts: Seq<Act>) -> Seq<Report>
    decreases acts.len(),
{
    if acts.len() == 0 {
        Seq::empty()
    } else {
        match acts.last().step {
            Step::Note { report } => reports_of(acts.drop_last()).push(report),
            _ => reports_of(acts.drop_last()),
        }
    }
}

pub proof fn lemma_reports_of_concat(a: Seq<Act>, b: Seq<Act>)
    ensures
        reports_of(a + b) == reports_of(a) + reports_of(b),
    decreases b.len(),
{
    if b.len() == 0 {
        assert(a + b =~= a);
        assert(reports_of(a) + Seq::<Report>::empty() =~= reports_of(a));
    } else {
        assert((a + b).drop_last() =~= a + b.drop_last());
        lemma_reports_of_concat(a, b.drop_last());
        match b.last().step {
            Step::Note { report } => {
                assert(reports_of(a) + reports_of(b.drop_last()).push(report) =~= (reports_of(a)
                    + reports_of(b.drop_last())).push(report));
            },
            _ => {},
        }
    }
}

/// What a log has grown by since it was `earlier`.
pub open spec fn since(earlier: Seq<Act>, log: Seq<Act>) -> Seq<Act> {
    log.skip(earlier.len() as int)
}

/// Whether a log begins with what it was `earlier`.
pub open spec fn extends(earlier: Seq<Act>, log: Seq<Act>) -> bool {
    &&& earlier.len() <= log.len()
    &&& log.take(earlier.len() as int) == earlier
}

pub proof fn lemma_since(a: Seq<Act>, b: Seq<Act>, c: Seq<Act>)
    requires
        extends(a, b),
        extends(b, c),
    ensures
        extends(a, c),
        since(a, c) == since(a, b) + since(b, c),
        reports_of(since(a, c)) == reports_of(since(a, b)) + reports_of(since(b, c)),
{
    assert(c.take(a.len() as int) =~= b.take(a.len() as int));
    assert forall|i: int| 0 <= i < since(a, b).len() implies since(a, b)[i] == #[trigger] since(
        a,
        c,
    )[i] by {
        assert(c.take(b.len() as int)[a.len() + i] == b[a.len() + i]);
    }
    assert(since(a, c) =~= since(a, b) + since(b, c));
    lemma_reports_of_concat(since(a, b), since(b, c));
}

// ---------------------------------------------------------------------------
// Dialogues
// ---------------------------------------------------------------------------

/// A way to talk to a device.
pub enum Dialogue<R> {
    /// It is over, with this result.
    Over(R),
    /// This step comes next, and this is how to go on after each outcome of it.
    Next(Step, spec_fn(Outcome) -> Box<Dialogue<R>>),
    /// Something else was done than what was to come next.
    Astray,
}

/// What is left of a dialogue after some acts.
pub open spec fn after<R>(d: Dialogue<R>, acts: Seq<Act>) -> Dialogue<R>
    decreases acts.len(),
{
    if acts.len() == 0 {
        d
    } else {
        match d {
            Dialogue::Next(step, go_on) => if step == acts[0].step {
                after(*go_on(acts[0].outcome), acts.skip(1))
            } else {
                Dialogue::Astray
            },
            _ => Dialogue::Astray,
        }
    }
}

/// One dialogue, and when it is over another, which may depend on its result.
pub open spec fn and_next<A, B>(d: Dialogue<A>, f: spec_fn(A) -> Dialogue<B>) -> Dialogue<B>
    decreases d,
{
    match d {
        Dialogue::Over(a) => f(a),
        Dialogue::Next(step, go_on) => Dialogue::Next(
            step,
            |o: Outcome| Box::new(and_next(*go_on(o), f)),
        ),
        Dialogue::Astray => Dialogue::Astray,
    }
}

/// A dialogue that may fail.
pub type Talk<A> = Dialogue<Result<A, FlashFault>>;

/// How to go on after a result: with `f`, unless it is a failure.
pub open spec fn unless_failed<A, B>(f: spec_fn(A) -> Talk<B>) -> spec_fn(
    Result<A, FlashFault>,
) -> Talk<B> {
    |r: Result<A, FlashFault>|
        match r {
            Ok(a) => f(a),
            Err(e) => Dialogue::Over(Err(e)),
        }
}

/// One dialogue, and unless it fails another, which may depend on its result.
pub open spec fn and_then<A, B>(d: Talk<A>, f: spec_fn(A) -> Talk<B>) -> Talk<B> {
    and_next(d, unless_failed(f))
}

proof fn lemma_astray<R>(acts: Seq<Act>)
    ensures
        after(Dialogue::<R>::Astray, acts) == Dialogue::<R>::Astray,
{
}

pub proof fn lemma_after_concat<R>(d: Dialogue<R>, a: Seq<Act>, b: Seq<Act>)
    ensures
        after(d, a + b) == after(after(d, a), b),
    decreases a.len(),
{
    if a.len() == 0 {
        assert(a + b =~= b);
    } else {
        assert((a + b).skip(1) =~= a.skip(1) + b);
        lemma_astray::<R>(b);
        match d {
            Dialogue::Next(step, go_on) => {
                lemma_after_concat(*go_on(a[0].outcome), a.skip(1), b);
            },
            _ => {},
        }
    }
}

pub proof fn lemma_after_and_next<A, B>(
    d: Dialogue<A>,
    f: spec_fn(A) -> Dialogue<B>,
    acts: Seq<Act>,
    a: A,
)
    requires
        after(d, acts) == Dialogue::Over(a),
    ensures
        after(and_next(d, f), acts) == f(a),
    decreases acts.len(),
{
    if acts.len() > 0 {
        match d {
            Dialogue::Next(step, go_on) => {
                lemma_after_and_next(*go_on(acts[0].outcome), f, acts.skip(1), a);
            },
            _ => {},
        }
    }
}

/// A dialogue stood at `p`, to be followed by `f`, when the log was `b`; since then
/// `p` was held to its end. So now it stands at what `f` says.
pub proof fn lemma_part_held<A, B>(
    d: Dialogue<B>,
    p: Dialogue<A>,
    f: spec_fn(A) -> Dialogue<B>,
    a: Seq<Act>,
    b: Seq<Act>,
    c: Seq<Act>,
    r: A,
)
    requires
        extends(a, b),
        extends(b, c),
        after(d, since(a, b)) == and_next(p, f),
        after(p, since(b, c)) == Dialogue::Over(r),
    ensures
        extends(a, c),
        after(d, since(a, c)) == f(r),
        reports_of(since(a, c)) == reports_of(since(a, b)) + reports_of(since(b, c)),
{
    lemma_since(a, b, c);
    lemma_after_concat(d, since(a, b), since(b, c));
    lemma_after_and_next(p, f, since(b, c), r);
}

/// As [`lemma_part_held`], for whatever follows `p`.
pub proof fn lemma_part_held_whatever_follows<A, B>(
    d: Dialogue<B>,
    p: Dialogue<A>,
    a: Seq<Act>,
    b: Seq<Act>,
    c: Seq<Act>,
    r: A,
)
    requires
        extends(a, b),
        extends(b, c),
        after(p, since(b, c)) == Dialogue::Over(r),
    ensures
        extends(a, c),
        forall|f: spec_fn(A) -> Dialogue<B>|
            after(d, since(a, b)) == #[trigger] and_next(p, f) ==> after(d, since(a, c)) == f(r),
        reports_of(since(a, c)) == reports_of(since(a, b)) + reports_of(since(b, c)),
{
    lemma_since(a, b, c);
    assert forall|f: spec_fn(A) -> Dialogue<B>|
        after(d, since(a, b)) == #[trigger] and_next(p, f) implies after(d, since(a, c)) == f(
        r,
    ) by {
        lemma_part_held(d, p, f, a, b, c, r);
    }
}

/// Nothing was done yet.
pub proof fn lemma_outset<R>(d: Dialogue<R>, log: Seq<Act>)
    ensures
        extends(log, log),
        after(d, since(log, log)) == d,
        reports_of(since(log, log)) == Seq::<Report>::empty(),
{
    assert(log.skip(log.len() as int) =~= Seq::<Act>::empty());
    assert(log.take(log.len() as int) =~= log);
}

/// A dialogue stood at `p` when the log was `b`. So now it stands where `p` does.
pub proof fn lemma_rest_held<R>(
    d: Dialogue<R>,
    p: Dialogue<R>,
    a: Seq<Act>,
    b: Seq<Act>,
    c: Seq<Act>,
)
    requires
        extends(a, b),
        extends(b, c),
        after(d, since(a, b)) == p,
    ensures
        extends(a, c),
        after(d, since(a, c)) == after(p, since(b, c)),
        reports_of(since(a, c)) == reports_of(since(a, b)) + reports_of(since(b, c)),
{
    lemma_since(a, b, c);
    lemma_after_concat(d, since(a, b), since(b, c));
}

/// One more act at the end of a log.
pub proof fn lemma_logged<R>(d: Dialogue<R>, log: Seq<Act>, act: Act)
    requires
        all_valid(log),
        act.valid(),
    ensures
        extends(log, log.push(act)),
        since(log, log.push(act)) == seq![act],
        all_valid(log.push(act)),
        events_of(log.push(act)) == events_of(log) + act.events,
        reports_of(seq![act]) == match act.step {
            Step::Note { report } => seq![report],
            _ => Seq::empty(),
        },
        after(d, since(log, log.push(act))) == match d {
            Dialogue::Next(step, go_on) if step == act.step => *go_on(act.outcome),
            _ => Dialogue::Astray,
        },
{
    let longer = log.push(act);
    assert(longer.take(log.len() as int) =~= log);
    assert(longer.skip(log.len() as int) =~= seq![act]);
    assert(longer.drop_last() =~= log);
    assert(seq![act].drop_last() =~= Seq::<Act>::empty());
    assert(reports_of(Seq::<Act>::empty()) =~= Seq::<Report>::empty());
    match act.step {
        Step::Note { report } => {
            assert(Seq::<Report>::empty().push(report) =~= seq![report]);
        },
        _ => {},
    }
    assert(seq![act].skip(1) =~= Seq::<Act>::empty());
    match d {
        Dialogue::Next(step, go_on) => {
            assert(after(*go_on(act.outcome), Seq::<Act>::empty()) == *go_on(act.outcome));
        },
        _ => {},
    }
}

// ---------------------------------------------------------------------------
// Commands and lists of tasks
// ---------------------------------------------------------------------------

/// What an upset in the PDL phase is reported as.
pub open spec fn pdl_fault(u: Upset) -> FlashFault {
    match u {
        Upset::Transport(f) => FlashFault::Pdl(PdlFault::Transport(f)),
        Upset::NoVersion => FlashFault::Pdl(PdlFault::NoVersion),
        Upset::Frame(f) => FlashFault::Bsl(BslFault::Frame(f)),
    }
}

/// What an upset in the BSL phase is reported as.
pub open spec fn bsl_fault(u: Upset) -> FlashFault {
    match u {
        Upset::Transport(f) => FlashFault::Bsl(BslFault::Transport(f)),
        Upset::NoVersion => FlashFault::Pdl(PdlFault::NoVersion),
        Upset::Frame(f) => FlashFault::Bsl(BslFault::Frame(f)),
    }
}

/// What comes of a message that was to have type `expect`.
pub open spec fn judged(o: Outcome, expect: u16, what: Seq<char>) -> Result<Seq<u8>, FlashFault> {
    match o {
        Err(u) => Err(bsl_fault(u)),
        Ok((kind, data)) => if kind == expect {
            Ok(data)
        } else {
            Err(
                FlashFault::Bsl(
                    BslFault::Unexpected {
                        what,
                        expected: rep_name_of(expect),
                        got: rep_name_of(kind),
                    },
                ),
            )
        },
    }
}

/// A step that is taken for what it does, not for what it brings in; `fault` says
/// how to report an upset.
pub open spec fn step_alone(step: Step, fault: spec_fn(Upset) -> FlashFault) -> Talk<()> {
    Dialogue::Next(
        step,
        |o: Outcome|
            Box::new(
                match o {
                    Err(u) => Dialogue::Over(Err(fault(u))),
                    Ok(_) => Dialogue::Over(Ok(())),
                },
            ),
    )
}

/// A step of the PDL phase.
pub open spec fn pdl_step(step: Step) -> Talk<()> {
    step_alone(step, |u: Upset| pdl_fault(u))
}

/// A step of the BSL phase.
pub open spec fn bsl_step(step: Step) -> Talk<()> {
    step_alone(step, |u: Upset| bsl_fault(u))
}

/// Send a PDL message and wait for its reply.
pub open spec fn packet(payload: Seq<u8>, timeout_ms: u64) -> Talk<()> {
    and_then(pdl_step(Step::Packet { payload }), |_n: ()| pdl_step(Step::Await { timeout_ms }))
}

/// Send a BSL message.
pub open spec fn tell(cmd: u16, data: Seq<u8>, checksum: Checksum) -> Talk<()> {
    bsl_step(Step::Tell { cmd, data, checksum })
}

/// Wait for a BSL message.
pub open spec fn hear(timeout_ms: u64) -> Talk<(u16, Seq<u8>)> {
    Dialogue::Next(
        Step::Hear { timeout_ms },
        |o: Outcome|
            Box::new(
                match o {
                    Err(u) => Dialogue::Over(Err(bsl_fault(u))),
                    Ok(message) => Dialogue::Over(Ok(message)),
                },
            ),
    )
}

/// Send a BSL message and take whatever message comes back.
pub open spec fn ask(cmd: u16, data: Seq<u8>, link: Link) -> Talk<(u16, Seq<u8>)> {
    and_then(tell(cmd, data, link.checksum), |_n: ()| hear(link.timeout_ms))
}

/// Send a BSL command and require `expect` as the reply type.
#[verifier::opaque]
pub open spec fn command(
    cmd: u16,
    data: Seq<u8>,
    link: Link,
    expect: u16,
    what: Seq<char>,
) -> Talk<Seq<u8>> {
    and_then(
        ask(cmd, data, link),
        |m: (u16, Seq<u8>)| Dialogue::Over(judged(Ok(m), expect, what)),
    )
}

/// Send a BSL command and require `expect` as the reply type, whatever its data.
pub open spec fn order(
    cmd: u16,
    data: Seq<u8>,
    link: Link,
    expect: u16,
    what: Seq<char>,
) -> Talk<()> {
    and_then(command(cmd, data, link, expect, what), |_d: Seq<u8>| Dialogue::Over(Ok(())))
}

/// One item of a list of things to do.
pub enum Task {
    /// Send a PDL message and wait for its reply.
    Packet { payload: Seq<u8>, timeout_ms: u64 },
    /// Send a BSL command and require a type of reply.
    Command { cmd: u16, data: Seq<u8>, link: Link, expect: u16, what: Seq<char> },
    /// Take a step.
    Just(Step),
}

impl Task {
    /// How a task is done.
    pub open spec fn talk(self) -> Talk<()> {
        match self {
            Task::Packet { payload, timeout_ms } => packet(payload, timeout_ms),
            Task::Command { cmd, data, link, expect, what } => order(
                cmd,
                data,
                link,
                expect,
                what,
            ),
            Task::Just(step) => bsl_step(step),
        }
    }
}

/// Do some tasks in order, until one fails.
pub open spec fn all_of(tasks: Seq<Task>) -> Talk<()>
    decreases tasks.len(),
{
    if tasks.len() == 0 {
        Dialogue::Over(Ok(()))
    } else {
        and_then(tasks[0].talk(), |_n: ()| all_of(tasks.skip(1)))
    }
}

/// A dialogue stood at a list of tasks when the log was `b`; since then the first of
/// them was done. So now it stands at the rest of them, or has failed.
pub proof fn lemma_task_done(
    d: Talk<()>,
    tasks: Seq<Task>,
    a: Seq<Act>,
    b: Seq<Act>,
    c: Seq<Act>,
    r: Result<(), FlashFault>,
)
    requires
        tasks.len() > 0,
        extends(a, b),
        extends(b, c),
        after(d, since(a, b)) == all_of(tasks),
        after(tasks[0].talk(), since(b, c)) == Dialogue::Over(r),
    ensures
        extends(a, c),
        after(d, since(a, c)) == match r {
            Ok(_) => all_of(tasks.skip(1)),
            Err(e) => Dialogue::Over(Err(e)),
        },
        reports_of(since(a, c)) == reports_of(since(a, b)) + reports_of(since(b, c)),
{
    let f = |_n: ()| all_of(tasks.skip(1));
    lemma_part_held(d, tasks[0].talk(), unless_failed(f), a, b, c, r);
}

/// Hold some dialogues in turn, until one fails.
pub open spec fn in_turn(talks: Seq<Talk<()>>) -> Talk<()>
    decreases talks.len(),
{
    if talks.len() == 0 {
        Dialogue::Over(Ok(()))
    } else {
        and_then(talks[0], |_n: ()| in_turn(talks.skip(1)))
    }
}

/// A dialogue stood at some dialogues to be held in turn when the log was `b`;
/// since then the first of them was held. So now it stands at the rest of them, or
/// has failed.
pub proof fn lemma_turn_held(
    d: Talk<()>,
    talks: Seq<Talk<()>>,
    a: Seq<Act>,
    b: Seq<Act>,
    c: Seq<Act>,
    r: Result<(), FlashFault>,
)
    requires
        talks.len() > 0,
        extends(a, b),
        extends(b, c),
        after(d, since(a, b)) == in_turn(talks),
        after(talks[0], since(b, c)) == Dialogue::Over(r),
    ensures
        extends(a, c),
        after(d, since(a, c)) == match r {
            Ok(_) => in_turn(talks.skip(1)),
            Err(e) => Dialogue::Over(Err(e)),
        },
        reports_of(since(a, c)) == reports_of(since(a, b)) + reports_of(since(b, c)),
{
    lemma_part_held_whatever_follows(d, talks[0], a, b, c, r);
}

/// Whether some acts account for what happened on a transport and for what the
/// user was told.
pub open spec fn account(
    acts: Seq<Act>,
    trace_before: Seq<Event>,
    trace_after: Seq<Event>,
    seen_before: Seq<Report>,
    seen_after: Seq<Report>,
) -> bool {
    &&& all_valid(acts)
    &&& trace_after == trace_before + events_of(acts)
    &&& seen_after == seen_before + reports_of(acts)
}

/// Whether a dialogue was held on a transport, with reports to the user, and had
/// this result: some acts lead from its beginning to that end, and account for
/// what happened.
pub open spec fn held<R>(
    d: Dialogue<R>,
    r: R,
    trace_before: Seq<Event>,
    trace_after: Seq<Event>,
    seen_before: Seq<Report>,
    seen_after: Seq<Report>,
) -> bool {
    exists|acts: Seq<Act>| #[trigger]
        account(acts, trace_before, trace_after, seen_before, seen_after) && after(d, acts)
            == Dialogue::Over(r)
}

/// A dialogue whose first part failed has failed, whatever was to follow.
pub proof fn lemma_failed_at_first<A, B>(
    p: Talk<A>,
    e: FlashFault,
    trace_before: Seq<Event>,
    trace_after: Seq<Event>,
    seen_before: Seq<Report>,
    seen_after: Seq<Report>,
)
    requires
        held(p, Err::<A, FlashFault>(e), trace_before, trace_after, seen_before, seen_after),
    ensures
        forall|f: spec_fn(A) -> Talk<B>|
            held(
                #[trigger] and_then(p, f),
                Err::<B, FlashFault>(e),
                trace_before,
                trace_after,
                seen_before,
                seen_after,
            ),
{
    let acts = choose|acts: Seq<Act>| #[trigger]
        account(acts, trace_before, trace_after, seen_before, seen_after) && after(p, acts)
            == Dialogue::Over(Err::<A, FlashFault>(e));
    assert forall|f: spec_fn(A) -> Talk<B>|
        held(
            #[trigger] and_then(p, f),
            Err::<B, FlashFault>(e),
            trace_before,
            trace_after,
            seen_before,
            seen_after,
        ) by {
        lemma_after_and_next(p, unless_failed(f), acts, Err::<A, FlashFault>(e));
    }
}

} // verus!
