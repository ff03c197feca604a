//! Progress reports.

use vstd::prelude::*;

verus! {

/// One progress report: so many bytes of a stage are done.
pub struct Report {
    pub stage: Seq<char>,
    pub done: u64,
    pub total: u64,
}

/// A history of reports, in order.
pub type Reports = Seq<Report>;

/// Whoever wants to hear how a flash run gets on.
pub trait Progress {
    /// The reports so far. Only proofs ask for them: it is never called at run
    /// time.
    spec fn seen(&self) -> Reports;

    /// Takes a report: `(stage, done_bytes, total_bytes)`.
    fn report(&mut self, stage: &str, done: u64, total: u64)
        ensures
            final(self).seen() == old(self).seen().push(Report { stage: stage@, done, total }),
    ;
}

/// A [`Progress`] that does nothing with the reports.
pub struct Quiet {
    seen: Ghost<Seq<Report>>,
}

impl Quiet {
    /// One that has seen no report yet.
    #[must_use]
    pub fn new() -> (r: Self)
        ensures
            r.seen() == Seq::<Report>::empty(),
    {
        Quiet { seen: Ghost(Seq::empty()) }
    }
}

impl Progress for Quiet {
    closed spec fn seen(&self) -> Seq<Report> {
        self.seen@
    }

    fn report(&mut self, stage: &str, done: u64, total: u64) {
        self.seen = Ghost(self.seen@.push(Report { stage: stage@, done, total }));
    }
}

} // verus!
