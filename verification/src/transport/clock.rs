//! The machine's clock, waits that it bounds, and pulses that it drives.

use vstd::prelude::*;

verus! {

/// `std::time::Instant`: a point in time that the machine's clock gave out.
#[verifier::external_type_specification]
#[verifier::external_body]
pub struct ExInstant(std::time::Instant);

/// Calls `std::time::Instant::now`. Nothing is claimed of the time it gives.
#[verifier::external_body]
pub(crate) fn now() -> (r: std::time::Instant)
{
    std::time::Instant::now()
}

/// Calls `std::time::Instant::elapsed` and gives the nanoseconds of what it returns, as
/// far as 64 bits hold them. Nothing is claimed of them.
#[verifier::external_body]
pub(crate) fn elapsed_nanos(since: &std::time::Instant) -> (r: u64)
{
    since.elapsed().as_nanos() as u64
}

/// The whole milliseconds in some nanoseconds.
#[must_use]
pub fn whole_millis(nanos: u64) -> (r: u64)
    ensures
        r == nanos / 1_000_000,
{
    nanos / 1_000_000
}

/// The whole milliseconds since a point in time.
pub(crate) fn elapsed_ms(since: &std::time::Instant) -> (r: u64)
    ensures
        r <= u64::MAX / 1_000_000,
{
    whole_millis(elapsed_nanos(since))
}

/// Whether a wait of `timeout_ms` is over after `elapsed_ms`.
#[must_use]
pub fn wait_is_over(elapsed_ms: u64, timeout_ms: u64) -> (r: bool)
    ensures
        r == (elapsed_ms >= timeout_ms),
{
    elapsed_ms >= timeout_ms
}

/// A wait that the machine's clock bounds. Who waits looks at the clock again and again,
/// and goes on as long as there is time left.
pub struct Wait {
    timeout_ms: u64,
    started: std::time::Instant,
    rounds: u64,
    out: Ghost<bool>,
}

impl Wait {
    /// How long the wait may last, in milliseconds.
    pub closed spec fn limit(self) -> u64 {
        self.timeout_ms
    }

    /// How many looks at the clock have found time left.
    pub closed spec fn rounds(self) -> u64 {
        self.rounds
    }

    /// Whether the wait has run out: a look at the clock found its time up (or as many
    /// looks have found time left as a 64-bit number can count).
    pub closed spec fn ran_out(self) -> bool {
        self.out@
    }

    /// A wait of `timeout_ms` that begins now.
    #[must_use]
    pub fn new(timeout_ms: u64) -> (r: Self)
        ensures
            r.limit() == timeout_ms,
            r.rounds() == 0,
            !r.ran_out(),
    {
        Wait { timeout_ms, started: now(), rounds: 0, out: Ghost(false) }
    }

    /// Look at the clock: whether the wait is over.
    ///
    /// What the clock shows is not known; a wait of no time is over at once, and one
    /// that is longer than a reading can be never is.
    pub fn is_over(&mut self) -> (r: bool)
        ensures
            final(self).limit() == old(self).limit(),
            final(self).rounds() == old(self).rounds() + if r {
                0int
            } else {
                1int
            },
            final(self).ran_out() == (old(self).ran_out() || r),
            old(self).limit() == 0 ==> r,
            old(self).rounds() == u64::MAX ==> r,
            r && old(self).rounds() < u64::MAX ==> old(self).limit() <= u64::MAX / 1_000_000,
    {
        let elapsed: u64 = elapsed_ms(&self.started);
        self.look(elapsed)
    }

    /// Take note of a look at the clock, `elapsed_ms` after the wait began.
    fn look(&mut self, elapsed_ms: u64) -> (r: bool)
        ensures
            r == (old(self).rounds() == u64::MAX || elapsed_ms >= old(self).limit()),
            final(self).limit() == old(self).limit(),
            final(self).rounds() == old(self).rounds() + if r {
                0int
            } else {
                1int
            },
            final(self).ran_out() == (old(self).ran_out() || r),
    {
        if self.rounds == u64::MAX || wait_is_over(elapsed_ms, self.timeout_ms) {
            self.out = Ghost(true);
            return true;
        }
        self.rounds += 1;
        false
    }
}

/// Whether something that is to be done at once, and then every `every_ms`, is due:
/// `since_ms` after it was last done, if ever.
#[must_use]
pub fn pulse_is_due(since_ms: Option<u64>, every_ms: u64) -> (r: bool)
    ensures
        r == match since_ms {
            None => true,
            Some(ms) => ms >= every_ms,
        },
{
    match since_ms {
        None => true,
        Some(ms) => wait_is_over(ms, every_ms),
    }
}

/// Something that is to be done at once, and then again and again.
pub struct Pulse {
    every_ms: u64,
    last: Option<std::time::Instant>,
    dues: Ghost<Seq<bool>>,
    owed: Ghost<bool>,
}

impl Pulse {
    /// How long after one beat the next is due, in milliseconds.
    pub closed spec fn every(self) -> u64 {
        self.every_ms
    }

    /// What the looks at the clock have found: whether a beat was due.
    pub closed spec fn dues(self) -> Seq<bool> {
        self.dues@
    }

    /// Whether there has been a beat.
    pub closed spec fn begun(self) -> bool {
        self.last is Some
    }

    /// Whether a beat was found due and has not been given since.
    pub closed spec fn owed(self) -> bool {
        self.owed@
    }

    /// A pulse without a beat so far.
    #[must_use]
    pub fn new(every_ms: u64) -> (r: Self)
        ensures
            r.every() == every_ms,
            r.dues() == Seq::<bool>::empty(),
            !r.begun(),
            !r.owed(),
    {
        Pulse { every_ms, last: None, dues: Ghost(Seq::empty()), owed: Ghost(false) }
    }

    /// Look at the clock: whether a beat is due. The first one always is.
    ///
    /// What the clock shows is not known; without any time between beats one is always
    /// due, and with more than a reading can be no second one ever is.
    pub fn is_due(&mut self) -> (r: bool)
        requires
            !old(self).owed(),
        ensures
            final(self).every() == old(self).every(),
            final(self).dues() == old(self).dues().push(r),
            final(self).begun() == old(self).begun(),
            final(self).owed() == r,
            !old(self).begun() || old(self).every() == 0 ==> r,
            r && old(self).begun() ==> old(self).every() <= u64::MAX / 1_000_000,
    {
        let since: Option<u64> = match &self.last {
            None => None,
            Some(last) => Some(elapsed_ms(last)),
        };
        let due: bool = pulse_is_due(since, self.every_ms);
        self.dues = Ghost(self.dues@.push(due));
        self.owed = Ghost(due);
        due
    }

    /// Take note that the beat that was due has been given, now.
    pub fn given(&mut self)
        requires
            old(self).owed(),
        ensures
            final(self).every() == old(self).every(),
            final(self).dues() == old(self).dues(),
            final(self).begun(),
            !final(self).owed(),
    {
        self.last = Some(now());
        self.owed = Ghost(false);
    }
}

} // verus!
