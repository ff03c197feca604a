//! PDL link-layer I/O over a [`Transport`] (first stage: loads FDL1).

use vstd::prelude::*;

use crate::bsl::{extract_flag_frame, flag_frame, FLAG};
use crate::flash::bsl_io::{least, note, still_to_read};
use crate::flash::dialogue::{
    after, all_of, all_valid, and_then, events_of, extends, lemma_logged, lemma_outset,
    lemma_part_held_whatever_follows, lemma_rest_held, lemma_task_done, packet, pdl_fault, pdl_step,
    plain, reports_of, roused, since, whole_rounds, Act, Dialogue, Outcome, Step, Talk, Task, Upset,
};
use crate::flash::fault::{FlashFault, PdlError};
use crate::flash::progress::{Progress, Report};
use crate::pdl::{header, params, params_of, reply_in, try_parse_response, Cmd, Response, CHUNK};
use crate::plan::{length_low32, low32};
use crate::transport::clock::{Pulse, Wait};
use crate::transport::{
    answers, fault_of, gathered, read_until, zeros, Event, Transport, TransportError,
};

verus! {

/// The name that goes with the image in `StartData`.
pub open spec fn image_name() -> Seq<u8> {
    seq![0x50u8, 0x44u8, 0x4Cu8, 0x31u8, 0x00u8]
}

/// What to do to load the blocks of an image from block `i` on: a `MidstData`
/// message for each block of [`CHUNK`] bytes (the last may be shorter), and after
/// each a report.
pub open spec fn block_tasks(data: Seq<u8>, i: nat, label: Seq<char>, timeout_ms: u64) -> Seq<Task>
    decreases still_to_read(data.len(), (i * CHUNK) as nat),
{
    let off = i * CHUNK;
    if off >= data.len() {
        Seq::empty()
    } else {
        let end = least(off + CHUNK, data.len() as int);
        seq![
            Task::Packet {
                payload: params_of(
                    Cmd::MidstData,
                    low32(i),
                    (end - off) as u32,
                    data.subrange(off, end),
                ),
                timeout_ms,
            },
            note(label, end, data.len() as int),
        ] + block_tasks(data, i + 1, label, timeout_ms)
    }
}

/// What to do to load an image at `addr`: `StartData`, `MidstData*`, `EndData`.
pub open spec fn load_tasks(addr: u32, data: Seq<u8>, label: Seq<char>, timeout_ms: u64) -> Seq<
    Task,
> {
    seq![
        Task::Packet {
            payload: params_of(Cmd::StartData, addr, low32(data.len()), image_name()),
            timeout_ms,
        },
    ] + block_tasks(data, 0, label, timeout_ms) + seq![
        Task::Packet {
            payload: params_of(Cmd::EndData, 0, 0, seq![0u8, 0u8, 0u8, 0u8]),
            timeout_ms,
        },
    ]
}

/// The PDL handshake.
pub open spec fn pdl_connect_task(timeout_ms: u64) -> Task {
    Task::Packet { payload: params_of(Cmd::Connect, 0, 0, Seq::empty()), timeout_ms }
}

/// Start the loaded image, and send check-baud flags until its first frame.
pub open spec fn executing(timeout_ms: u64) -> Talk<Seq<u8>> {
    and_then(
        pdl_step(Step::Packet { payload: params_of(Cmd::Exec, 0, 0, Seq::empty()) }),
        |_n: ()| rousing(timeout_ms),
    )
}

/// Send check-baud flags until a whole frame has come in.
pub open spec fn rousing(timeout_ms: u64) -> Talk<Seq<u8>> {
    Dialogue::Next(
        Step::Rouse { timeout_ms },
        |o: Outcome|
            Box::new(
                match o {
                    Err(u) => Dialogue::Over(Err(pdl_fault(u))),
                    Ok((_, frame)) => Dialogue::Over(Ok(frame)),
                },
            ),
    )
}

/// What a PDL result says, where there is nothing to give back but that it went
/// well.
pub open spec fn pdl_said(r: Result<(), PdlError>) -> Result<(), FlashFault> {
    match r {
        Ok(()) => Ok(()),
        Err(e) => Err(FlashFault::Pdl(e@)),
    }
}

/// What a PDL result says, with its bytes as a sequence.
pub open spec fn pdl_bytes_said(r: Result<Vec<u8>, PdlError>) -> Result<Seq<u8>, FlashFault> {
    match r {
        Ok(bytes) => Ok(bytes@),
        Err(e) => Err(FlashFault::Pdl(e@)),
    }
}

/// PDL transport bound to a byte stream.
pub struct PdlIo<'a, T: Transport> {
    /// The underlying transport.
    pub port: &'a mut T,
    /// How long to wait for a reply, in milliseconds.
    pub timeout_ms: u64,
    /// What had happened on the transport before the session.
    pub start: Ghost<Seq<Event>>,
    /// What was done in the session.
    pub log: Ghost<Seq<Act>>,
}

impl<'a, T: Transport> PdlIo<'a, T> {
    /// Whether the log accounts for what has happened on the transport.
    pub open spec fn wf(&self) -> bool {
        &&& self.port.trace() == self.start@ + events_of(self.log@)
        &&& all_valid(self.log@)
    }

    /// Whether this is what became of `earlier` in the same session.
    pub open spec fn continues(&self, earlier: &Self) -> bool {
        &&& self.wf()
        &&& extends(earlier.log@, self.log@)
        &&& self.start@ == earlier.start@
        &&& self.timeout_ms == earlier.timeout_ms
    }

    /// Wrap a transport with a default per-command timeout.
    pub fn new(port: &'a mut T, timeout_ms: u64) -> (r: Self)
        ensures
            r.wf(),
            r.start@ == old(port).trace(),
            r.log@ == Seq::<Act>::empty(),
            r.timeout_ms == timeout_ms,
            r.port.trace() == old(port).trace(),
            *final(r.port) == *final(port),
    {
        let ghost start = port.trace();
        proof {
            assert(start + Seq::<Event>::empty() =~= start);
        }
        PdlIo { port, timeout_ms, start: Ghost(start), log: Ghost(Seq::empty()) }
    }

    /// Adds an act to the log, which stood behind what has happened on the
    /// transport by just that act.
    fn logged<R>(&mut self, Ghost(d): Ghost<Dialogue<R>>, Ghost(act): Ghost<Act>)
        requires
            all_valid(old(self).log@),
            act.valid(),
            old(self).port.trace() =~= old(self).start@ + events_of(old(self).log@) + act.events,
        ensures
            final(self).continues(old(self)),
            since(old(self).log@, final(self).log@) == seq![act],
            after(d, seq![act]) == match d {
                Dialogue::Next(step, go_on) if step == act.step => *go_on(act.outcome),
                _ => Dialogue::Astray,
            },
            reports_of(seq![act]) == match act.step {
                Step::Note { report } => seq![report],
                _ => Seq::<Report>::empty(),
            },
            final(self).port.trace() == old(self).port.trace(),
            *final(final(self).port) == *final(old(self).port),
    {
        proof {
            lemma_logged(d, self.log@, act);
            assert(self.start@ + events_of(self.log@.push(act)) =~= self.start@ + events_of(
                self.log@,
            ) + act.events);
        }
        self.log = Ghost(self.log@.push(act));
    }

    /// Send one PDL message: header write, then payload write (must be separate).
    fn send(&mut self, payload: &[u8]) -> (r: Result<(), PdlError>)
        requires
            old(self).wf(),
        ensures
            final(self).continues(old(self)),
            after(
                pdl_step(Step::Packet { payload: payload@ }),
                since(old(self).log@, final(self).log@),
            ) == Dialogue::Over(pdl_said(r)),
            reports_of(since(old(self).log@, final(self).log@)) == Seq::<Report>::empty(),
            *final(final(self).port) == *final(old(self).port),
    {
        let head = header((payload.len() % 65536) as u16);
        let ghost step = Step::Packet { payload: payload@ };
        match self.port.write_all(&head) {
            Ok(()) => {},
            Err(e) => {
                let ghost fault = Some(e@);
                let ghost act = Act {
                    step,
                    events: seq![Event::Wrote { data: head@, fault }],
                    outcome: plain(fault),
                    wait: None,
                    pulse: None,
                };
                self.logged::<Result<(), FlashFault>>(Ghost(pdl_step(step)), Ghost(act));
                return Err(PdlError::Transport(e));
            },
        }
        let sent: Result<(), TransportError> = self.port.write_all(payload);
        let ghost fault = fault_of(sent);
        let ghost act = Act {
            step,
            events: seq![
                Event::Wrote { data: head@, fault: None },
                Event::Wrote { data: payload@, fault },
            ],
            outcome: plain(fault),
            wait: None,
            pulse: None,
        };
        self.logged::<Result<(), FlashFault>>(Ghost(pdl_step(step)), Ghost(act));
        match sent {
            Ok(()) => Ok(()),
            Err(e) => Err(PdlError::Transport(e)),
        }
    }

    /// Wait for an `ae`-framed response.
    fn recv(&mut self, timeout_ms: u64) -> (r: Result<Response, PdlError>)
        requires
            old(self).wf(),
        ensures
            final(self).continues(old(self)),
            after(pdl_step(Step::Await { timeout_ms }), since(old(self).log@, final(self).log@))
                == Dialogue::Over(
                match r {
                    Ok(_) => Ok::<(), FlashFault>(()),
                    Err(e) => Err(FlashFault::Pdl(e@)),
                },
            ),
            reports_of(since(old(self).log@, final(self).log@)) == Seq::<Report>::empty(),
            *final(final(self).port) == *final(old(self).port),
    {
        let ghost before = self.port.trace();
        let mut acc: Vec<u8> = Vec::new();
        let mut wait: Wait = Wait::new(timeout_ms);
        let found: Result<Response, TransportError> = read_until(
            &mut *self.port,
            &mut acc,
            &mut wait,
            try_parse_response,
        );
        let ghost events = self.port.trace().skip(before.len() as int);
        let ghost find = |b: Seq<u8>| reply_in(b);
        proof {
            assert(self.port.trace() =~= before + events);
            let none = Seq::<u8>::empty();
            assert forall|k: int| 0 <= k < events.len() implies find(
                none + #[trigger] gathered(events.take(k)),
            ) is None by {
                assert(answers(try_parse_response, none + gathered(events.take(k)), None));
            }
            assert(none + gathered(events) =~= gathered(events));
        }
        match found {
            Ok(response) => {
                let ghost act = Act {
                    step: Step::Await { timeout_ms },
                    events,
                    outcome: Ok((0, response.payload@)),
                    wait: Some(wait),
                    pulse: None,
                };
                self.logged::<Result<(), FlashFault>>(Ghost(pdl_step(Step::Await { timeout_ms })), Ghost(act));
                Ok(response)
            },
            Err(e) => {
                let ghost act = Act {
                    step: Step::Await { timeout_ms },
                    events,
                    outcome: Err(Upset::Transport(e@)),
                    wait: Some(wait),
                    pulse: None,
                };
                self.logged::<Result<(), FlashFault>>(Ghost(pdl_step(Step::Await { timeout_ms })), Ghost(act));
                Err(PdlError::Transport(e))
            },
        }
    }

    /// Send a message and wait for its `ae`-framed response.
    fn command(&mut self, payload: &[u8], timeout_ms: u64) -> (r: Result<(), PdlError>)
        requires
            old(self).wf(),
        ensures
            final(self).continues(old(self)),
            after(packet(payload@, timeout_ms), since(old(self).log@, final(self).log@)) == Dialogue::Over(
                pdl_said(r),
            ),
            reports_of(since(old(self).log@, final(self).log@)) == Seq::<Report>::empty(),
            *final(final(self).port) == *final(old(self).port),
    {
        let ghost l0 = self.log@;
        let ghost whole = packet(payload@, timeout_ms);
        let ghost first = pdl_step(Step::Packet { payload: payload@ });
        let sent: Result<(), PdlError> = self.send(payload);
        let ghost l1 = self.log@;
        proof {
            lemma_outset(whole, l0);
            lemma_part_held_whatever_follows(whole, first, l0, l0, l1, pdl_said(sent));
        }
        match sent {
            Ok(()) => {},
            Err(e) => return Err(e),
        }
        let got: Result<Response, PdlError> = self.recv(timeout_ms);
        proof {
            lemma_rest_held(whole, pdl_step(Step::Await { timeout_ms }), l0, l1, self.log@);
        }
        match got {
            Ok(_) => Ok(()),
            Err(e) => Err(e),
        }
    }

    /// PDL CONNECT handshake.
    pub fn connect(&mut self) -> (r: Result<(), PdlError>)
        requires
            old(self).wf(),
        ensures
            final(self).continues(old(self)),
            after(pdl_connect_task(old(self).timeout_ms).talk(), since(old(self).log@, final(self).log@))
                == Dialogue::Over(pdl_said(r)),
            reports_of(since(old(self).log@, final(self).log@)) == Seq::<Report>::empty(),
            *final(final(self).port) == *final(old(self).port),
    {
        let none: [u8; 0] = [];
        proof {
            assert(none@ =~= Seq::<u8>::empty());
        }
        let payload: Vec<u8> = params(Cmd::Connect, 0, 0, &none);
        self.command(&payload, self.timeout_ms)
    }

    /// Report progress to the user.
    fn note<P: Progress>(&mut self, progress: &mut P, stage: &str, done: u64, total: u64)
        requires
            old(self).wf(),
        ensures
            final(self).continues(old(self)),
            after(
                note(stage@, done as int, total as int).talk(),
                since(old(self).log@, final(self).log@),
            ) == Dialogue::Over(Ok::<(), FlashFault>(())),
            reports_of(since(old(self).log@, final(self).log@)) == seq![
                Report { stage: stage@, done, total },
            ],
            final(progress).seen() == old(progress).seen() + reports_of(
                since(old(self).log@, final(self).log@),
            ),
            *final(final(self).port) == *final(old(self).port),
    {
        progress.report(stage, done, total);
        let ghost report = Report { stage: stage@, done, total };
        let ghost act = Act {
            step: Step::Note { report },
            events: Seq::empty(),
            outcome: plain(None),
            wait: None,
            pulse: None,
        };
        self.logged::<Result<(), FlashFault>>(
            Ghost(note(stage@, done as int, total as int).talk()),
            Ghost(act),
        );
    }

    /// Load an image (FDL1) at `addr`: START → MIDST* → END.
    ///
    /// The END image checksum is unverified by the agent (a full flash with
    /// checksum 0 boots correctly), so 0 is sent.
    #[verifier::rlimit(30)]
    pub fn send_image<P: Progress>(
        &mut self,
        addr: u32,
        data: &[u8],
        label: &str,
        progress: &mut P,
    ) -> (r: Result<(), PdlError>)
        requires
            old(self).wf(),
        ensures
            final(self).continues(old(self)),
            after(
                all_of(load_tasks(addr, data@, label@, old(self).timeout_ms)),
                since(old(self).log@, final(self).log@),
            ) == Dialogue::Over(pdl_said(r)),
            final(progress).seen() == old(progress).seen() + reports_of(
                since(old(self).log@, final(self).log@),
            ),
            *final(final(self).port) == *final(old(self).port),
    {
        let ghost l0 = self.log@;
        let ghost ms = self.timeout_ms;
        let ghost tasks = load_tasks(addr, data@, label@, ms);
        let ghost whole = all_of(tasks);
        let ghost last = params_of(Cmd::EndData, 0, 0, seq![0u8, 0u8, 0u8, 0u8]);
        let ghost tail = seq![Task::Packet { payload: last, timeout_ms: ms }];
        let ghost seen0 = progress.seen();
        let name: [u8; 5] = [0x50, 0x44, 0x4C, 0x31, 0x00];
        proof {
            lemma_outset(whole, l0);
            assert(name@ =~= image_name());
        }
        let payload: Vec<u8> = params(Cmd::StartData, addr, length_low32(data.len()), &name);
        let begun: Result<(), PdlError> = self.command(&payload, self.timeout_ms);
        proof {
            lemma_task_done(whole, tasks, l0, l0, self.log@, pdl_said(begun));
            assert(tasks.skip(1) =~= block_tasks(data@, 0, label@, ms) + tail);
        }
        match begun {
            Ok(()) => {},
            Err(e) => return Err(e),
        }
        let mut i: u64 = 0;
        let mut off: usize = 0;
        while off < data.len()
            invariant
                self.continues(old(self)),
                l0 == old(self).log@,
                ms == old(self).timeout_ms,
                seen0 == old(progress).seen(),
                *final(self.port) == *final(old(self).port),
                off <= data@.len(),
                off == least(i * CHUNK, data@.len() as int),
                i <= off,
                tail == seq![Task::Packet { payload: last, timeout_ms: ms }],
                whole == all_of(load_tasks(addr, data@, label@, ms)),
                after(whole, since(l0, self.log@)) == all_of(
                    block_tasks(data@, i as nat, label@, ms) + tail,
                ),
                progress.seen() == seen0 + reports_of(since(l0, self.log@)),
            decreases data.len() - off,
        {
            let n: usize = if data.len() - off < CHUNK {
                data.len() - off
            } else {
                CHUNK
            };
            let end: usize = off + n;
            let piece: &[u8] = vstd::slice::slice_subrange(data, off, end);
            let ghost todo = block_tasks(data@, i as nat, label@, ms) + tail;
            let ghost l1 = self.log@;
            let payload: Vec<u8> = params(
                Cmd::MidstData,
                (i % 0x1_0000_0000) as u32,
                n as u32,
                piece,
            );
            let sent: Result<(), PdlError> = self.command(&payload, self.timeout_ms);
            let ghost l2 = self.log@;
            proof {
                assert(todo[0] == Task::Packet { payload: payload@, timeout_ms: ms });
                lemma_task_done(whole, todo, l0, l1, l2, pdl_said(sent));
                assert(reports_of(since(l0, l1)) + Seq::<Report>::empty() =~= reports_of(
                    since(l0, l1),
                ));
            }
            match sent {
                Ok(()) => {},
                Err(e) => return Err(e),
            }
            self.note(progress, label, end as u64, data.len() as u64);
            proof {
                assert(todo.skip(1)[0] == note(label@, end as int, data@.len() as int));
                lemma_task_done(
                    whole,
                    todo.skip(1),
                    l0,
                    l2,
                    self.log@,
                    Ok::<(), FlashFault>(()),
                );
                assert(todo.skip(1).skip(1) =~= block_tasks(data@, (i + 1) as nat, label@, ms) + tail);
                assert(seen0 + reports_of(since(l0, l2)) + reports_of(since(l2, self.log@)) =~= seen0
                    + (reports_of(since(l0, l2)) + reports_of(since(l2, self.log@))));
            }
            off = end;
            i += 1;
        }
        let ghost l3 = self.log@;
        let zero: [u8; 4] = [0, 0, 0, 0];
        proof {
            assert(zero@ =~= seq![0u8, 0u8, 0u8, 0u8]);
            assert(block_tasks(data@, i as nat, label@, ms) + tail =~= tail);
        }
        let payload: Vec<u8> = params(Cmd::EndData, 0, 0, &zero);
        let ended: Result<(), PdlError> = self.command(&payload, self.timeout_ms);
        proof {
            lemma_task_done(whole, tail, l0, l3, self.log@, pdl_said(ended));
            assert(tail.skip(1) =~= Seq::<Task>::empty());
            assert(reports_of(since(l0, l3)) + Seq::<Report>::empty() =~= reports_of(since(l0, l3)));
        }
        ended
    }

    /// EXEC the loaded FDL1, then drive the BSL check-baud (lone `0x7e`) until the
    /// device replies with its `0x7e`-framed VER. Returns the raw VER frame.
    pub fn exec_and_get_ver(&mut self, timeout_ms: u64) -> (r: Result<Vec<u8>, PdlError>)
        requires
            old(self).wf(),
        ensures
            final(self).continues(old(self)),
            after(executing(timeout_ms), since(old(self).log@, final(self).log@)) == Dialogue::Over(
                pdl_bytes_said(r),
            ),
            r matches Ok(frame) ==> frame@.len() >= 2,
            reports_of(since(old(self).log@, final(self).log@)) == Seq::<Report>::empty(),
            *final(final(self).port) == *final(old(self).port),
    {
        let ghost l0 = self.log@;
        let ghost whole = executing(timeout_ms);
        let none: [u8; 0] = [];
        proof {
            assert(none@ =~= Seq::<u8>::empty());
        }
        // EXEC = the PDL cmd=7 frame with no extra byte...
        let payload: Vec<u8> = params(Cmd::Exec, 0, 0, &none);
        let sent: Result<(), PdlError> = self.send(&payload);
        let ghost l1 = self.log@;
        proof {
            lemma_outset(whole, l0);
            lemma_part_held_whatever_follows(
                whole,
                pdl_step(Step::Packet { payload: payload@ }),
                l0,
                l0,
                l1,
                pdl_said(sent),
            );
        }
        match sent {
            Ok(()) => {},
            Err(e) => return Err(e),
        }
        // ...immediately followed by BSL check-baud kicks until VER arrives.
        let got: Result<Vec<u8>, PdlError> = self.rouse(timeout_ms);
        proof {
            lemma_rest_held(whole, rousing(timeout_ms), l0, l1, self.log@);
        }
        got
    }

    /// Send check-baud kicks, at once and then every 50 ms, until a whole frame has
    /// come in.
    fn rouse(&mut self, timeout_ms: u64) -> (r: Result<Vec<u8>, PdlError>)
        requires
            old(self).wf(),
        ensures
            final(self).continues(old(self)),
            after(rousing(timeout_ms), since(old(self).log@, final(self).log@)) == Dialogue::Over(
                pdl_bytes_said(r),
            ),
            r matches Ok(frame) ==> frame@.len() >= 2,
            reports_of(since(old(self).log@, final(self).log@)) == Seq::<Report>::empty(),
            *final(final(self).port) == *final(old(self).port),
    {
        let ghost before = self.port.trace();
        let ghost n = before.len() as int;
        let mut wait: Wait = Wait::new(timeout_ms);
        let mut pulse: Pulse = Pulse::new(KICK_MS);
        let got: Result<Vec<u8>, PdlError> = kick_until_frame(
            &mut *self.port,
            &mut wait,
            &mut pulse,
        );
        let ghost events = self.port.trace().skip(n);
        proof {
            assert(self.port.trace() =~= before + events);
        }
        let ghost act = Act {
            step: Step::Rouse { timeout_ms },
            events,
            outcome: rouse_outcome(got),
            wait: Some(wait),
            pulse: Some(pulse),
        };
        self.logged::<Result<Seq<u8>, FlashFault>>(Ghost(rousing(timeout_ms)), Ghost(act));
        got
    }
}

/// What the result of rousing a device is as the outcome of the step.
pub open spec fn rouse_outcome(r: Result<Vec<u8>, PdlError>) -> Outcome {
    match r {
        Ok(frame) => Ok((0, frame@)),
        Err(PdlError::NoVersion) => Err(Upset::NoVersion),
        Err(PdlError::Transport(e)) => Err(Upset::Transport(e@)),
    }
}

/// How long to wait between check-baud kicks, in milliseconds.
pub const KICK_MS: u64 = 50;

/// How many bytes one read asks for while rousing a device.
pub const ROUSE_READ_SIZE: usize = 256;

proof fn lemma_one_more(events: Seq<Event>, e: Event)
    requires
        forall|k: int|
            0 <= k <= events.len() ==> flag_frame(#[trigger] gathered(events.take(k))) is None,
    ensures
        events.push(e).drop_last() == events,
        gathered(events.push(e)) == match e {
            Event::Read { room, data } => gathered(events) + data,
            _ => gathered(events),
        },
        forall|k: int|
            0 <= k <= events.len() ==> flag_frame(
                #[trigger] gathered(events.push(e).take(k)),
            ) is None,
        e !is Read ==> forall|k: int|
            0 <= k <= events.len() + 1 ==> flag_frame(
                #[trigger] gathered(events.push(e).take(k)),
            ) is None,
{
    let more = events.push(e);
    assert(more.drop_last() =~= events);
    assert forall|k: int| 0 <= k <= events.len() implies flag_frame(
        #[trigger] gathered(more.take(k)),
    ) is None by {
        assert(more.take(k) =~= events.take(k));
    }
    assert(events.take(events.len() as int) =~= events);
    assert(more.take(events.len() as int + 1) =~= more);
}

/// What a read into a buffer comes to on the transport.
pub open spec fn read_event(r: Result<usize, TransportError>, buf: Seq<u8>) -> Event {
    match r {
        Ok(n) => Event::Read { room: buf.len(), data: buf.take(n as int) },
        Err(e) => Event::ReadFailed { fault: e@ },
    }
}

/// Send check-baud kicks, at once and then whenever the pulse says that one is due, until
/// a whole frame has come in.
fn kick_until_frame<T: Transport>(port: &mut T, wait: &mut Wait, pulse: &mut Pulse) -> (r: Result<
    Vec<u8>,
    PdlError,
>)
    requires
        old(pulse).dues() == Seq::<bool>::empty(),
        !old(pulse).begun(),
        !old(pulse).owed(),
    ensures
        final(wait).limit() == old(wait).limit(),
        final(wait).rounds() - old(wait).rounds() == final(pulse).dues().len(),
        final(pulse).every() == old(pulse).every(),
        old(port).trace().len() <= final(port).trace().len(),
        final(port).trace().take(old(port).trace().len() as int) == old(port).trace(),
        roused(
            final(pulse).dues(),
            final(port).trace().skip(old(port).trace().len() as int),
            final(wait).ran_out(),
            rouse_outcome(r),
        ),
        r matches Ok(frame) ==> frame@.len() >= 2,
{
    let ghost start = port.trace();
    let ghost mut events: Seq<Event> = Seq::empty();
    let mut acc: Vec<u8> = Vec::new();
    let mut tmp: Vec<u8> = zeros(ROUSE_READ_SIZE);
    let flag: [u8; 1] = [FLAG];
    proof {
        assert(flag@ =~= seq![FLAG]);
        assert(start + events =~= start);
        assert(acc@ =~= Seq::<u8>::empty());
        assert forall|k: int| 0 <= k <= events.len() implies flag_frame(
            #[trigger] gathered(events.take(k)),
        ) is None by {
            assert(events.take(k) =~= events);
        }
    }
    loop
        invariant
            wait.limit() == old(wait).limit(),
            start == old(port).trace(),
            port.trace() == start + events,
            flag@ == seq![FLAG],
            wait.rounds() - old(wait).rounds() == pulse.dues().len(),
            pulse.every() == old(pulse).every(),
            pulse.begun() == (pulse.dues().len() > 0),
            !pulse.owed(),
            pulse.dues().len() > 0 ==> pulse.dues()[0],
            whole_rounds(pulse.dues(), events),
            tmp@.len() == ROUSE_READ_SIZE,
            acc@ == gathered(events),
            forall|k: int|
                0 <= k <= events.len() ==> flag_frame(#[trigger] gathered(events.take(k))) is None,
        decreases u64::MAX - wait.rounds(),
    {
        if wait.is_over() {
            proof {
                lemma_split(start, events);
                assert(events.take(events.len() as int) =~= events);
            }
            return Err(PdlError::NoVersion);
        }
        let ghost before = pulse.dues();
        let due: bool = pulse.is_due();
        proof {
            assert(pulse.dues().drop_last() =~= before);
        }
        if due {
            let sent: Result<(), TransportError> = port.write_all(&flag);
            let ghost e = Event::Wrote { data: flag@, fault: fault_of(sent) };
            proof {
                lemma_one_more(events, e);
                events = events.push(e);
                assert(port.trace() =~= start + events);
            }
            match sent {
                Ok(()) => {},
                Err(e) => {
                    proof {
                        lemma_split(start, events);
                    }
                    return Err(PdlError::Transport(e));
                },
            }
            pulse.given();
        }
        let read: Result<usize, TransportError> = port.read_some(tmp.as_mut_slice());
        let ghost e = read_event(read, tmp@);
        let ghost had = events;
        proof {
            lemma_one_more(events, e);
            events = events.push(e);
            assert(port.trace() =~= start + events);
            lemma_split(start, events);
        }
        match read {
            Ok(got) => {
                if got > 0 {
                    let fresh: &[u8] = vstd::slice::slice_subrange(tmp.as_slice(), 0, got);
                    acc.extend_from_slice(fresh);
                    proof {
                        assert(fresh@ =~= tmp@.take(got as int));
                        assert(acc@ =~= gathered(events));
                    }
                    if let Some(frame) = extract_flag_frame(&acc) {
                        return Ok(frame);
                    }
                } else {
                    proof {
                        assert(gathered(had) + tmp@.take(0) =~= gathered(had));
                        assert(had.take(had.len() as int) =~= had);
                    }
                }
                proof {
                    assert(events.take(events.len() as int) =~= events);
                }
            },
            Err(e) => {
                return Err(PdlError::Transport(e));
            },
        }
    }
}

proof fn lemma_split(start: Seq<Event>, events: Seq<Event>)
    ensures
        (start + events).take(start.len() as int) == start,
        (start + events).skip(start.len() as int) == events,
{
    assert((start + events).take(start.len() as int) =~= start);
    assert((start + events).skip(start.len() as int) =~= events);
}

} // verus!
