//! The byte transport the flash driver builds on, USB port discovery, and device
//! recovery.
//!
//! [`Transport`] is the single I/O primitive: separate header and payload writes
//! (PDL requires them), polled reads for the frame parsers, live baud changes
//! (`CHANGE_BAUD`), and the flush-and-hold reset teardown that lets
//! `NORMAL_RESET` actually boot the module instead of dropping it back into
//! download mode. [`discovery`] finds the download and module ports by USB
//! VID/PID, and [`recovery`] has what it takes to re-enumerate a stuck agent.
//!
//! What goes over a transport is recorded in a ghost trace of [`Event`]s; the
//! contracts of the flash driver say how that trace grows.

use vstd::prelude::*;

pub mod clock;
pub mod discovery;
pub mod recovery;

use crate::transport::clock::Wait;

verus! {

/// BootROM / download-mode USB identity (SPRD download gadget).
pub const DOWNLOAD_VID: u16 = 0x0525;

/// BootROM / download-mode USB product id.
pub const DOWNLOAD_PID: u16 = 0xA4A7;

/// Normal-mode composite device vendor id (Spreadtrum/RDA).
pub const MODULE_VID: u16 = 0x1782;

/// How often opening a port is tried (Windows often needs a moment between a port
/// appearing and it being openable).
pub const OPEN_TRIES: u32 = 200;

/// Whether opening a port is tried again after this many tries.
#[must_use]
pub fn tries_to_open_again(tries: u32) -> (r: bool)
    ensures
        r == (tries < OPEN_TRIES),
        r == (tries < 200),
{
    tries < OPEN_TRIES
}

/// Transport-layer errors (I/O and timeouts).
#[derive(Debug)]
pub enum TransportError {
    /// The port could not be opened within the retry budget.
    Open {
        /// Port name.
        port: String,
        /// What the driver said.
        source: String,
    },
    /// A read or write failed.
    Io(String),
    /// A line-control operation (baud/DTR/RTS) failed.
    Control(String),
    /// A read did not complete before its deadline; holds the milliseconds left.
    Timeout(u64),
}

/// What a [`TransportError`] says, with its text as characters.
pub enum TransportFault {
    Open { port: Seq<char>, source: Seq<char> },
    Io(Seq<char>),
    Control(Seq<char>),
    Timeout(u64),
}

impl View for TransportError {
    type V = TransportFault;

    open spec fn view(&self) -> TransportFault {
        match *self {
            TransportError::Open { port, source } => TransportFault::Open {
                port: port@,
                source: source@,
            },
            TransportError::Io(s) => TransportFault::Io(s@),
            TransportError::Control(s) => TransportFault::Control(s@),
            TransportError::Timeout(ms) => TransportFault::Timeout(ms),
        }
    }
}

/// The fault of a result, if it has one.
pub open spec fn fault_of<X>(r: Result<X, TransportError>) -> Option<TransportFault> {
    match r {
        Ok(_) => None,
        Err(e) => Some(e@),
    }
}

/// One thing that happened on a transport.
pub enum Event {
    /// `data` was handed over to be written, and this went wrong.
    Wrote { data: Seq<u8>, fault: Option<TransportFault> },
    /// With room for so many bytes, these came in; there may be none.
    Read { room: nat, data: Seq<u8> },
    /// A read failed.
    ReadFailed { fault: TransportFault },
    /// The line was asked to run at `rate`, and this went wrong.
    BaudSet { rate: u32, fault: Option<TransportFault> },
    /// Buffered input was thrown away.
    Purged,
    /// The last frame was flushed and the line held.
    Held { millis: u64 },
}

/// What has happened on a transport, in order.
pub type Trace = Seq<Event>;

/// A byte stream to a device.
pub trait Transport {
    /// What has happened on the transport so far. Only proofs ask for it: it is
    /// never called at run time.
    spec fn trace(&self) -> Trace;

    /// Write all of `data` to the wire, in one write of its own.
    fn write_all(&mut self, data: &[u8]) -> (r: Result<(), TransportError>)
        ensures
            final(self).trace() == old(self).trace().push(
                Event::Wrote { data: data@, fault: fault_of(r) },
            ),
    ;

    /// Read whatever bytes are available into `buf`, returning the count. With
    /// none at hand the count is 0, so callers can poll against their own
    /// deadline.
    fn read_some(&mut self, buf: &mut [u8]) -> (r: Result<usize, TransportError>)
        ensures
            final(buf)@.len() == old(buf)@.len(),
            match r {
                Ok(n) => n <= old(buf)@.len() && final(self).trace() == old(self).trace().push(
                    Event::Read { room: old(buf)@.len(), data: final(buf)@.take(n as int) },
                ),
                Err(e) => final(self).trace() == old(self).trace().push(
                    Event::ReadFailed { fault: e@ },
                ),
            },
    ;

    /// Change the line baud rate (for `CHANGE_BAUD`).
    fn set_baud(&mut self, baud: u32) -> (r: Result<(), TransportError>)
        ensures
            final(self).trace() == old(self).trace().push(
                Event::BaudSet { rate: baud, fault: fault_of(r) },
            ),
    ;

    /// Discard any buffered input (before a fresh handshake).
    fn purge_input(&mut self)
        ensures
            final(self).trace() == old(self).trace().push(Event::Purged),
    ;

    /// Reset teardown: flush the last frame and hold the line briefly before the
    /// port is dropped. Closing immediately cancels an in-flight `NORMAL_RESET`,
    /// leaving the module in download mode instead of booting.
    fn reset_teardown(&mut self, hold_ms: u64)
        ensures
            final(self).trace() == old(self).trace().push(Event::Held { millis: hold_ms }),
    ;
}

// ---------------------------------------------------------------------------
// Reading until something is found
// ---------------------------------------------------------------------------

/// Whether this is a read that went well, with room for `room` bytes.
pub open spec fn is_read(e: Event, room: nat) -> bool {
    e is Read && e->room == room
}

/// Whether all of some events are reads that went well, each with room for
/// [`READ_SIZE`] bytes.
pub open spec fn all_reads(events: Seq<Event>) -> bool {
    forall|i: int| 0 <= i < events.len() ==> is_read(#[trigger] events[i], READ_SIZE as nat)
}

/// The bytes that the reads among some events brought in, in order.
pub open spec fn gathered(events: Seq<Event>) -> Seq<u8>
    decreases events.len(),
{
    if events.len() == 0 {
        Seq::empty()
    } else {
        match events.last() {
            Event::Read { room, data } => gathered(events.drop_last()) + data,
            _ => gathered(events.drop_last()),
        }
    }
}

/// Whether some events are those of watching the input, after `before`, until
/// `find` found something in it. Nothing was found before the last event. What
/// came of it is what was found in all of the input; or the fault of a read that
/// failed; or, if the time ran out while nothing was found, a timeout with nothing of it
/// left.
pub open spec fn watched<X>(
    before: Seq<u8>,
    events: Seq<Event>,
    find: spec_fn(Seq<u8>) -> Option<X>,
    ran_out: bool,
    r: Result<X, TransportFault>,
) -> bool {
    &&& forall|k: int|
        0 <= k < events.len() ==> find(before + #[trigger] gathered(events.take(k))) is None
    &&& match r {
        Ok(x) => all_reads(events) && find(before + gathered(events)) == Some(x),
        Err(fault) => {
            ||| events.len() > 0 && all_reads(events.drop_last()) && events.last()
                == (Event::ReadFailed { fault })
            ||| ran_out && fault == TransportFault::Timeout(0) && all_reads(events) && find(
                before + gathered(events),
            ) is None
        },
    }
}

/// Whether `pred` may answer `found` on these bytes.
pub open spec fn answers<U, F: Fn(&[u8]) -> Option<U>>(
    pred: F,
    bytes: Seq<u8>,
    found: Option<U>,
) -> bool {
    exists|s: &[u8]| s@ == bytes && #[trigger] call_ensures(pred, (s,), found)
}

/// How many bytes one read asks for.
pub const READ_SIZE: usize = 4096;

/// A buffer of zeros.
pub(crate) fn zeros(n: usize) -> (r: Vec<u8>)
    ensures
        r@.len() == n,
{
    let mut out: Vec<u8> = Vec::with_capacity(n);
    while out.len() < n
        invariant
            out@.len() <= n,
        decreases n - out.len(),
    {
        out.push(0);
    }
    out
}

/// Read until `pred(accumulated)` returns `Some(value)` or the wait runs out.
/// Accumulated bytes are kept in `acc` so partial frames survive across calls.
///
/// When a wait runs out rests on the machine's clock. Each look that finds time left is
/// followed by a read.
pub fn read_until<T: Transport, U, F: Fn(&[u8]) -> Option<U>>(
    port: &mut T,
    acc: &mut Vec<u8>,
    wait: &mut Wait,
    pred: F,
) -> (r: Result<U, TransportError>)
    requires
        forall|s: &[u8]| call_requires(pred, (s,)),
    ensures
        final(wait).limit() == old(wait).limit(),
        final(wait).rounds() - old(wait).rounds() == final(port).trace().len()
            - old(port).trace().len(),
        ({
            let n = old(port).trace().len() as int;
            let events = final(port).trace().skip(n);
            &&& n <= final(port).trace().len()
            &&& final(port).trace().take(n) == old(port).trace()
            &&& final(acc)@ == old(acc)@ + gathered(events)
            &&& forall|k: int|
                0 <= k < events.len() ==> answers(
                    pred,
                    old(acc)@ + #[trigger] gathered(events.take(k)),
                    None,
                )
            &&& match r {
                Ok(v) => all_reads(events) && answers(pred, final(acc)@, Some(v)),
                Err(e) => {
                    ||| events.len() > 0 && all_reads(events.drop_last()) && events.last()
                        == (Event::ReadFailed { fault: e@ })
                    ||| final(wait).ran_out() && e == TransportError::Timeout(0) && all_reads(events)
                        && answers(pred, final(acc)@, None)
                },
            }
        }),
{
    let ghost start = port.trace();
    let ghost n = start.len() as int;
    let ghost before = acc@;
    proof {
        assert(start.skip(n) =~= Seq::<Event>::empty());
        assert(before + Seq::<u8>::empty() =~= before);
    }
    if let Some(v) = pred(acc.as_slice()) {
        return Ok(v);
    }
    let mut tmp: Vec<u8> = zeros(READ_SIZE);
    loop
        invariant
            wait.limit() == old(wait).limit(),
            wait.rounds() - old(wait).rounds() == port.trace().len() - n,
            tmp@.len() == READ_SIZE,
            forall|s: &[u8]| call_requires(pred, (s,)),
            start == old(port).trace(),
            before == old(acc)@,
            n == start.len(),
            n <= port.trace().len(),
            port.trace().take(n) == start,
            all_reads(port.trace().skip(n)),
            acc@ == before + gathered(port.trace().skip(n)),
            answers(pred, acc@, None),
            forall|k: int|
                0 <= k < port.trace().len() - n ==> answers(
                    pred,
                    before + #[trigger] gathered(port.trace().skip(n).take(k)),
                    None,
                ),
        decreases u64::MAX - wait.rounds(),
    {
        if wait.is_over() {
            // The deadline has passed: nothing of it is left.
            return Err(TransportError::Timeout(0));
        }
        let ghost events = port.trace().skip(n);
        let ghost had = acc@;
        let got: Result<usize, TransportError> = port.read_some(tmp.as_mut_slice());
        let ghost now_events = port.trace().skip(n);
        proof {
            assert(now_events.drop_last() =~= events);
            assert(port.trace().take(n) =~= start);
            assert forall|k: int| 0 <= k < now_events.len() implies answers(
                pred,
                before + #[trigger] gathered(now_events.take(k)),
                None,
            ) by {
                if k < events.len() {
                    assert(now_events.take(k) =~= events.take(k));
                } else {
                    assert(now_events.take(k) =~= events);
                }
            }
        }
        match got {
            Ok(n_read) => {
                proof {
                    assert(now_events.last() == (Event::Read {
                        room: READ_SIZE as nat,
                        data: tmp@.take(n_read as int),
                    }));
                    assert(before + gathered(now_events) =~= had + tmp@.take(n_read as int));
                    assert forall|i: int| 0 <= i < now_events.len() implies is_read(
                        #[trigger] now_events[i],
                        READ_SIZE as nat,
                    ) by {
                        if i < events.len() {
                            assert(now_events[i] == events[i]);
                        }
                    }
                }
                if n_read > 0 {
                    let fresh: &[u8] = vstd::slice::slice_subrange(tmp.as_slice(), 0, n_read);
                    acc.extend_from_slice(fresh);
                    proof {
                        assert(fresh@ =~= tmp@.take(n_read as int));
                        assert(acc@ =~= before + gathered(now_events));
                    }
                    if let Some(v) = pred(acc.as_slice()) {
                        return Ok(v);
                    }
                } else {
                    proof {
                        assert(had + tmp@.take(0) =~= had);
                    }
                }
            },
            Err(e) => {
                proof {
                    assert(now_events.last() == (Event::ReadFailed { fault: e@ }));
                }
                return Err(e);
            },
        }
    }
}

} // verus!
