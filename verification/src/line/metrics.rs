//! Live counters of a line, in the Prometheus text format.
//!
//! Stations feed [`Metrics`] as units complete, so a scraper (or Grafana) can watch
//! yield/throughput live during a run.

use vstd::prelude::*;

use crate::line::record::{Outcome, Record, UnitRecord};
use crate::text::{
    decimal, law_numeral_says_the_number, numeral_chars, numeral_value, pad_left, padded_left,
    push_chars, push_decimal,
};
use crate::transport::clock::{elapsed_nanos, now, whole_millis};

verus! {

/// What a line has counted.
pub struct Counters {
    pub passed: u64,
    pub failed: u64,
    pub retries: u64,
    pub bytes: u64,
    pub flash_millis: u64,
}

/// One if something holds, else none.
pub open spec fn count_if(b: bool) -> u64 {
    if b {
        1
    } else {
        0
    }
}

/// The attempts of a unit beyond the first.
pub open spec fn retries_of(rec: Record) -> u64 {
    if rec.attempts == 0 {
        0
    } else {
        (rec.attempts - 1) as u64
    }
}

/// A sum in 64 bits.
#[verifier::opaque]
pub open spec fn sum64(a: u64, b: u64) -> u64 {
    ((a + b) % 0x1_0000_0000_0000_0000) as u64
}

impl Counters {
    /// The counters with one more completed unit.
    pub open spec fn with(self, rec: Record) -> Counters {
        Counters {
            passed: sum64(self.passed, count_if(rec.result == Outcome::Pass)),
            failed: sum64(self.failed, count_if(rec.result == Outcome::Fail)),
            retries: sum64(self.retries, retries_of(rec)),
            bytes: sum64(self.bytes, rec.bytes),
            flash_millis: sum64(self.flash_millis, rec.flash_nanos / 1_000_000),
        }
    }

    /// The counters with some more completed units, in their order.
    pub open spec fn with_all(self, recs: Seq<Record>) -> Counters
        decreases recs.len(),
    {
        if recs.len() == 0 {
            self
        } else {
            self.with_all(recs.drop_last()).with(recs.last())
        }
    }
}

/// Counters at zero.
pub open spec fn zeroed() -> Counters {
    Counters { passed: 0, failed: 0, retries: 0, bytes: 0, flash_millis: 0 }
}

/// The decimals of a fraction of `places` places, point included, without the zeros at
/// its end.
pub open spec fn decimals(frac: nat, places: nat) -> Seq<char>
    decreases places,
{
    if frac == 0 {
        Seq::empty()
    } else if places > 0 && frac % 10 == 0 {
        decimals(frac / 10, (places - 1) as nat)
    } else {
        "."@ + padded_left(decimal(frac), '0', places as int)
    }
}

/// Milliseconds as seconds, with no more decimals than it takes.
pub open spec fn seconds_of_millis(ms: nat) -> Seq<char> {
    decimal(ms / 1000) + decimals(ms % 1000, 3)
}

/// Nanoseconds as seconds, with no more decimals than it takes.
pub open spec fn seconds_of_nanos(nanos: nat) -> Seq<char> {
    decimal(nanos / 1_000_000_000) + decimals(nanos % 1_000_000_000, 9)
}

/// The counters in Prometheus text format, after `uptime_nanos` of running.
pub open spec fn exposition(c: Counters, uptime_nanos: nat) -> Seq<char> {
    "# HELP sprdflash_units_total Units flashed, by result.\n# TYPE sprdflash_units_total counter\nsprdflash_units_total{result=\"pass\"} "@
        + decimal(c.passed as nat) + "\nsprdflash_units_total{result=\"fail\"} "@ + decimal(
        c.failed as nat,
    )
        + "\n# HELP sprdflash_retries_total Retry attempts beyond the first.\n# TYPE sprdflash_retries_total counter\nsprdflash_retries_total "@
        + decimal(c.retries as nat)
        + "\n# HELP sprdflash_bytes_total Payload bytes written.\n# TYPE sprdflash_bytes_total counter\nsprdflash_bytes_total "@
        + decimal(c.bytes as nat)
        + "\n# HELP sprdflash_flash_seconds_total Sum of flash wall-clock seconds.\n# TYPE sprdflash_flash_seconds_total counter\nsprdflash_flash_seconds_total "@
        + seconds_of_millis(c.flash_millis as nat)
        + "\n# HELP sprdflash_uptime_seconds Exporter uptime.\n# TYPE sprdflash_uptime_seconds gauge\nsprdflash_uptime_seconds "@
        + seconds_of_nanos(uptime_nanos) + "\n"@
}

/// Append the decimals of a fraction.
fn push_decimals(out: &mut String, frac: u64, places: usize)
    ensures
        final(out)@ == old(out)@ + decimals(frac as nat, places as nat),
{
    let mut frac: u64 = frac;
    let mut places: usize = places;
    let ghost all = decimals(frac as nat, places as nat);
    while frac != 0 && places > 0 && frac % 10 == 0
        invariant
            out@ == old(out)@,
            all == decimals(frac as nat, places as nat),
        decreases places,
    {
        frac = frac / 10;
        places -= 1;
    }
    if frac != 0 {
        out.append(".");
        push_chars(out, &pad_left(&numeral_chars(frac, 10), '0', places));
    }
    proof {
        assert(out@ =~= old(out)@ + all);
    }
}

/// Line metrics.
#[derive(Debug)]
pub struct Metrics {
    passed: u64,
    failed: u64,
    retries: u64,
    bytes: u64,
    flash_millis: u64,
    started: std::time::Instant,
}

impl View for Metrics {
    type V = Counters;

    closed spec fn view(&self) -> Counters {
        Counters {
            passed: self.passed,
            failed: self.failed,
            retries: self.retries,
            bytes: self.bytes,
            flash_millis: self.flash_millis,
        }
    }
}

impl Default for Metrics {
    fn default() -> (r: Self)
        ensures
            r@ == zeroed(),
    {
        Metrics {
            passed: 0,
            failed: 0,
            retries: 0,
            bytes: 0,
            flash_millis: 0,
            started: now(),
        }
    }
}

impl Metrics {
    /// Fold one completed unit into the counters.
    pub fn record(&mut self, rec: &UnitRecord)
        ensures
            final(self)@ == old(self)@.with(rec@),
    {
        proof {
            reveal(sum64);
        }
        match rec.result {
            Outcome::Pass => {
                self.passed = self.passed.wrapping_add(1);
            },
            Outcome::Fail => {
                self.failed = self.failed.wrapping_add(1);
            },
        }
        let retries: u32 = if rec.attempts == 0 {
            0
        } else {
            rec.attempts - 1
        };
        self.retries = self.retries.wrapping_add(retries as u64);
        self.bytes = self.bytes.wrapping_add(rec.bytes);
        self.flash_millis = self.flash_millis.wrapping_add(whole_millis(rec.flash_nanos));
    }

    /// Current `(passed, failed)` unit counts.
    #[must_use]
    pub fn totals(&self) -> (r: (u64, u64))
        ensures
            r == (self@.passed, self@.failed),
    {
        (self.passed, self.failed)
    }

    /// Render the counters in Prometheus text format, after `uptime_nanos` of running.
    #[must_use]
    pub fn render_at(&self, uptime_nanos: u64) -> (r: String)
        ensures
            r@ == exposition(self@, uptime_nanos as nat),
    {
        let mut s: String = String::new();
        s.append(
            "# HELP sprdflash_units_total Units flashed, by result.\n# TYPE sprdflash_units_total counter\nsprdflash_units_total{result=\"pass\"} ",
        );
        push_decimal(&mut s, self.passed);
        s.append("\nsprdflash_units_total{result=\"fail\"} ");
        push_decimal(&mut s, self.failed);
        s.append(
            "\n# HELP sprdflash_retries_total Retry attempts beyond the first.\n# TYPE sprdflash_retries_total counter\nsprdflash_retries_total ",
        );
        push_decimal(&mut s, self.retries);
        s.append(
            "\n# HELP sprdflash_bytes_total Payload bytes written.\n# TYPE sprdflash_bytes_total counter\nsprdflash_bytes_total ",
        );
        push_decimal(&mut s, self.bytes);
        s.append(
            "\n# HELP sprdflash_flash_seconds_total Sum of flash wall-clock seconds.\n# TYPE sprdflash_flash_seconds_total counter\nsprdflash_flash_seconds_total ",
        );
        push_decimal(&mut s, self.flash_millis / 1000);
        push_decimals(&mut s, self.flash_millis % 1000, 3);
        s.append(
            "\n# HELP sprdflash_uptime_seconds Exporter uptime.\n# TYPE sprdflash_uptime_seconds gauge\nsprdflash_uptime_seconds ",
        );
        push_decimal(&mut s, uptime_nanos / 1_000_000_000);
        push_decimals(&mut s, uptime_nanos % 1_000_000_000, 9);
        s.append("\n");
        proof {
            assert(s@ =~= exposition(self@, uptime_nanos as nat));
        }
        s
    }

    /// Render the current counters in Prometheus text format. The uptime is read off
    /// the machine's clock.
    #[must_use]
    pub fn render(&self) -> (r: String)
        ensures
            exists|uptime_nanos: u64| r@ == #[trigger] exposition(self@, uptime_nanos as nat),
    {
        let uptime_nanos: u64 = elapsed_nanos(&self.started);
        self.render_at(uptime_nanos)
    }
}

/// The HTTP response that carries a metrics text of `length` bytes.
pub open spec fn response_of(body: Seq<char>, length: nat) -> Seq<char> {
    "HTTP/1.1 200 OK\r\nContent-Type: text/plain; version=0.0.4\r\nContent-Length: "@ + decimal(
        length,
    ) + "\r\nConnection: close\r\n\r\n"@ + body
}

/// The HTTP response that carries a metrics text: its length is given in bytes.
#[must_use]
pub fn http_response(body: &str) -> (r: String)
    ensures
        r@ == response_of(body@, body.len() as nat),
{
    let mut s: String = String::new();
    s.append(
        "HTTP/1.1 200 OK\r\nContent-Type: text/plain; version=0.0.4\r\nContent-Length: ",
    );
    push_decimal(&mut s, body.len() as u64);
    s.append("\r\nConnection: close\r\n\r\n");
    s.append(body);
    proof {
        assert(s@ =~= response_of(body@, body.len() as nat));
    }
    s
}

// ---------------------------------------------------------------------------
// What the counters promise
// ---------------------------------------------------------------------------

proof fn lemma_sum64_either_way(x: u64, a: u64, b: u64)
    ensures
        sum64(sum64(x, a), b) == sum64(sum64(x, b), a),
{
    reveal(sum64);
}

proof fn lemma_sum64_fits(a: u64, b: u64)
    requires
        a + b <= u64::MAX,
    ensures
        sum64(a, b) == a + b,
{
    reveal(sum64);
}

/// It does not matter which of two units is counted first.
proof fn lemma_either_first(c: Counters, a: Record, b: Record)
    ensures
        c.with(a).with(b) == c.with(b).with(a),
{
    let (pa, pb) = (count_if(a.result == Outcome::Pass), count_if(b.result == Outcome::Pass));
    let (fa, fb) = (count_if(a.result == Outcome::Fail), count_if(b.result == Outcome::Fail));
    lemma_sum64_either_way(c.passed, pa, pb);
    lemma_sum64_either_way(c.failed, fa, fb);
    lemma_sum64_either_way(c.retries, retries_of(a), retries_of(b));
    lemma_sum64_either_way(c.bytes, a.bytes, b.bytes);
    lemma_sum64_either_way(
        c.flash_millis,
        a.flash_nanos / 1_000_000,
        b.flash_nanos / 1_000_000,
    );
}

/// Some units are counted as if one of them came last.
proof fn lemma_as_if_last(c: Counters, recs: Seq<Record>, i: int)
    requires
        0 <= i < recs.len(),
    ensures
        c.with_all(recs) == c.with_all(recs.remove(i)).with(recs[i]),
    decreases recs.len(),
{
    let init = recs.drop_last();
    if i == recs.len() - 1 {
        assert(recs.remove(i) =~= init);
    } else {
        lemma_as_if_last(c, init, i);
        assert(recs.remove(i).drop_last() =~= init.remove(i));
        assert(recs.remove(i).last() == recs.last());
        lemma_either_first(c.with_all(init.remove(i)), recs[i], recs.last());
    }
}

/// It does not matter in which order units are counted: the same records, in whatever
/// order they come in, lead to the same counters.
pub proof fn law_order_does_not_matter(c: Counters, a: Seq<Record>, b: Seq<Record>)
    requires
        a.to_multiset() == b.to_multiset(),
    ensures
        c.with_all(a) == c.with_all(b),
    decreases a.len(),
{
    broadcast use vstd::seq_lib::group_to_multiset_ensures;

    assert(a.len() == a.to_multiset().len());
    assert(b.len() == b.to_multiset().len());
    if a.len() > 0 {
        let last = a.last();
        assert(a.contains(last));
        assert(b.to_multiset().count(last) > 0);
        let i = b.index_of(last);
        assert(b.contains(last));
        assert(a.remove(a.len() - 1) =~= a.drop_last());
        assert(a.drop_last().to_multiset() =~= b.remove(i).to_multiset());
        law_order_does_not_matter(c, a.drop_last(), b.remove(i));
        lemma_as_if_last(c, b, i);
    }
}

/// How many of some records have a result.
pub open spec fn with_result(recs: Seq<Record>, result: Outcome) -> nat
    decreases recs.len(),
{
    if recs.len() == 0 {
        0
    } else {
        with_result(recs.drop_last(), result) + count_if(recs.last().result == result) as nat
    }
}

/// The attempts beyond the first of some records together.
pub open spec fn retries_in(recs: Seq<Record>) -> nat
    decreases recs.len(),
{
    if recs.len() == 0 {
        0
    } else {
        retries_in(recs.drop_last()) + retries_of(recs.last()) as nat
    }
}

/// The bytes of some records together.
pub open spec fn bytes_in(recs: Seq<Record>) -> nat
    decreases recs.len(),
{
    if recs.len() == 0 {
        0
    } else {
        bytes_in(recs.drop_last()) + recs.last().bytes as nat
    }
}

/// Counters that have seen some units from the start match a recount of their records,
/// as long as 64 bits hold the sums.
pub proof fn law_counters_match_a_recount(recs: Seq<Record>)
    requires
        recs.len() <= u64::MAX,
        retries_in(recs) <= u64::MAX,
        bytes_in(recs) <= u64::MAX,
    ensures
        zeroed().with_all(recs).passed == with_result(recs, Outcome::Pass),
        zeroed().with_all(recs).failed == with_result(recs, Outcome::Fail),
        zeroed().with_all(recs).passed + zeroed().with_all(recs).failed == recs.len(),
        zeroed().with_all(recs).retries == retries_in(recs),
        zeroed().with_all(recs).bytes == bytes_in(recs),
    decreases recs.len(),
{
    if recs.len() > 0 {
        let before = zeroed().with_all(recs.drop_last());
        let last = recs.last();
        law_counters_match_a_recount(recs.drop_last());
        lemma_sum64_fits(before.passed, count_if(last.result == Outcome::Pass));
        lemma_sum64_fits(before.failed, count_if(last.result == Outcome::Fail));
        lemma_sum64_fits(before.retries, retries_of(last));
        lemma_sum64_fits(before.bytes, last.bytes);
    }
}

/// What one more unit adds to the counters, as long as 64 bits hold the sums: one to those
/// that passed or to those that failed; to the retries its attempts but for the first; its
/// bytes; and the whole milliseconds of its flash.
pub proof fn law_unit_is_counted(c: Counters, rec: Record)
    requires
        c.passed < u64::MAX,
        c.failed < u64::MAX,
        c.retries + rec.attempts <= u64::MAX,
        c.bytes + rec.bytes <= u64::MAX,
        c.flash_millis + rec.flash_nanos <= u64::MAX,
    ensures
        ({
            let d = c.with(rec);
            let millis = d.flash_millis - c.flash_millis;
            &&& rec.result == Outcome::Pass ==> d.passed == c.passed + 1 && d.failed == c.failed
            &&& rec.result == Outcome::Fail ==> d.failed == c.failed + 1 && d.passed == c.passed
            &&& rec.attempts > 0 ==> d.retries == c.retries + rec.attempts - 1
            &&& rec.attempts == 0 ==> d.retries == c.retries
            &&& d.bytes == c.bytes + rec.bytes
            &&& 1_000_000 * millis <= rec.flash_nanos < 1_000_000 * millis + 1_000_000
        }),
{
    lemma_sum64_fits(c.passed, count_if(rec.result == Outcome::Pass));
    lemma_sum64_fits(c.failed, count_if(rec.result == Outcome::Fail));
    lemma_sum64_fits(c.retries, retries_of(rec));
    lemma_sum64_fits(c.bytes, rec.bytes);
    lemma_sum64_fits(c.flash_millis, rec.flash_nanos / 1_000_000);
}

/// Units that are counted one batch after the other are counted as if all came at once.
pub proof fn law_batches_add_up(c: Counters, a: Seq<Record>, b: Seq<Record>)
    ensures
        c.with_all(Seq::empty()) == c,
        c.with_all(a + b) == c.with_all(a).with_all(b),
    decreases b.len(),
{
    if b.len() == 0 {
        assert(a + b =~= a);
    } else {
        assert((a + b).drop_last() =~= a + b.drop_last());
        law_batches_add_up(c, a, b.drop_last());
    }
}

/// What the decimals of a fraction say: nothing if it is zero; else, behind a point, digits
/// that do not end in a zero and that, as many places wide as the fraction with zeros put
/// behind them, give it.
pub proof fn law_decimals_say_the_fraction(frac: nat, places: nat)
    requires
        frac < vstd::arithmetic::power::pow(10, places),
    ensures
        frac == 0 ==> decimals(frac, places) == Seq::<char>::empty(),
        frac > 0 ==> ({
            let s = decimals(frac, places);
            let digits = s.skip(1);
            &&& 2 <= s.len() <= places + 1
            &&& s[0] == '.'
            &&& s.last() != '0'
            &&& numeral_value(digits, 10) * vstd::arithmetic::power::pow(
                10,
                (places - digits.len()) as nat,
            ) == frac
        }),
    decreases places,
{
    reveal(vstd::arithmetic::power::pow);
    if frac > 0 {
        let s = decimals(frac, places);
        assert(places > 0);
        assert(vstd::arithmetic::power::pow(10, places) == 10 * vstd::arithmetic::power::pow(
            10,
            (places - 1) as nat,
        ));
        if frac % 10 == 0 {
            law_decimals_say_the_fraction(frac / 10, (places - 1) as nat);
            let n = s.skip(1).len();
            let small = vstd::arithmetic::power::pow(10, (places - 1 - n) as nat);
            assert(vstd::arithmetic::power::pow(10, (places - n) as nat) == 10 * small);
            let v = numeral_value(s.skip(1), 10);
            assert(v * (10 * small) == 10 * (v * small)) by (nonlinear_arith);
        } else {
            reveal_strlit(".");
            let d = decimal(frac);
            let padded = padded_left(d, '0', places as int);
            law_numeral_says_the_number(frac, 10);
            lemma_numeral_width(frac, places);
            crate::text::lemma_zeros_before(d, places - d.len(), 10);
            crate::text::law_padding(d, '0', places as int);
            assert(s.skip(1) =~= padded);
            assert(vstd::arithmetic::power::pow(10, 0) == 1);
            assert(s.last() == d.last());
            lemma_last_digit(frac);
        }
    }
}

proof fn lemma_numeral_width(n: nat, places: nat)
    requires
        n < vstd::arithmetic::power::pow(10, places),
        places > 0,
    ensures
        decimal(n).len() <= places,
    decreases n,
{
    reveal(vstd::arithmetic::power::pow);
    if n >= 10 {
        assert(vstd::arithmetic::power::pow(10, places) == 10 * vstd::arithmetic::power::pow(
            10,
            (places - 1) as nat,
        ));
        if places == 1 {
            assert(vstd::arithmetic::power::pow(10, 0) == 1);
        } else {
            lemma_numeral_width(n / 10, (places - 1) as nat);
        }
    }
}

proof fn lemma_last_digit(n: nat)
    requires
        n % 10 != 0,
    ensures
        decimal(n).len() > 0,
        decimal(n).last() != '0',
{
}

/// A time in seconds is its whole seconds in decimal, then the decimals of the rest.
pub proof fn law_seconds(n: nat)
    ensures
        exists|whole: nat, rest: nat|
            n == 1000 * whole + rest && rest < 1000 && seconds_of_millis(n) == #[trigger] decimal(
                whole,
            ) + #[trigger] decimals(rest, 3),
        exists|whole: nat, rest: nat|
            n == 1_000_000_000 * whole + rest && rest < 1_000_000_000 && seconds_of_nanos(n)
                == #[trigger] decimal(whole) + #[trigger] decimals(rest, 9),
{
    assert(n == 1000 * (n / 1000) + n % 1000);
    assert(n == 1_000_000_000 * (n / 1_000_000_000) + n % 1_000_000_000);
    assert(seconds_of_millis(n) == decimal(n / 1000) + decimals(n % 1000, 3));
    assert(seconds_of_nanos(n) == decimal(n / 1_000_000_000) + decimals(n % 1_000_000_000, 9));
}

/// What a scrape tells: each counter stands behind its name, at the end of a line.
#[verifier::rlimit(40)]
pub proof fn law_counters_are_told(c: Counters, uptime_nanos: nat)
    ensures
        ({
            let text = exposition(c, uptime_nanos);
            &&& crate::text::holds(text, "{result=\"pass\"} "@ + decimal(c.passed as nat) + "\n"@)
            &&& crate::text::holds(text, "{result=\"fail\"} "@ + decimal(c.failed as nat) + "\n"@)
            &&& crate::text::holds(
                text,
                "\nsprdflash_retries_total "@ + decimal(c.retries as nat) + "\n"@,
            )
            &&& crate::text::holds(
                text,
                "\nsprdflash_bytes_total "@ + decimal(c.bytes as nat) + "\n"@,
            )
            &&& crate::text::holds(
                text,
                "\nsprdflash_flash_seconds_total "@ + seconds_of_millis(c.flash_millis as nat)
                    + "\n"@,
            )
            &&& crate::text::holds(
                text,
                "\nsprdflash_uptime_seconds "@ + seconds_of_nanos(uptime_nanos) + "\n"@,
            )
        }),
{
    let s0 =
        "# HELP sprdflash_units_total Units flashed, by result.\n# TYPE sprdflash_units_total counter\nsprdflash_units_total{result=\"pass\"} "@;
    let s1 = "\nsprdflash_units_total{result=\"fail\"} "@;
    let s2 =
        "\n# HELP sprdflash_retries_total Retry attempts beyond the first.\n# TYPE sprdflash_retries_total counter\nsprdflash_retries_total "@;
    let s3 =
        "\n# HELP sprdflash_bytes_total Payload bytes written.\n# TYPE sprdflash_bytes_total counter\nsprdflash_bytes_total "@;
    let s4 =
        "\n# HELP sprdflash_flash_seconds_total Sum of flash wall-clock seconds.\n# TYPE sprdflash_flash_seconds_total counter\nsprdflash_flash_seconds_total "@;
    let s5 =
        "\n# HELP sprdflash_uptime_seconds Exporter uptime.\n# TYPE sprdflash_uptime_seconds gauge\nsprdflash_uptime_seconds "@;
    let s6 = "\n"@;
    let v0 = decimal(c.passed as nat);
    let v1 = decimal(c.failed as nat);
    let v2 = decimal(c.retries as nat);
    let v3 = decimal(c.bytes as nat);
    let v4 = seconds_of_millis(c.flash_millis as nat);
    let v5 = seconds_of_nanos(uptime_nanos);
    let t0 = s0 + v0;
    let t1 = t0 + s1 + v1;
    let t2 = t1 + s2 + v2;
    let t3 = t2 + s3 + v3;
    let t4 = t3 + s4 + v4;
    let r5 = v5 + s6;
    let r4 = v4 + s5 + r5;
    let r3 = v3 + s4 + r4;
    let r2 = v2 + s3 + r3;
    let r1 = v1 + s2 + r2;
    let text = exposition(c, uptime_nanos);
    let none = Seq::<char>::empty();
    assert(text =~= t4 + s5 + r5);
    assert(text =~= t3 + s4 + r4);
    assert(text =~= t2 + s3 + r3);
    assert(text =~= t1 + s2 + r2);
    assert(text =~= t0 + s1 + r1);
    lemma_labels();
    let line = "\n"@;
    crate::text::lemma_holds_between(none, s0, v0, s1, r1, "{result=\"pass\"} "@, line);
    crate::text::lemma_holds_between(t0, s1, v1, s2, r2, "{result=\"fail\"} "@, line);
    crate::text::lemma_holds_between(t1, s2, v2, s3, r3, "\nsprdflash_retries_total "@, line);
    crate::text::lemma_holds_between(t2, s3, v3, s4, r4, "\nsprdflash_bytes_total "@, line);
    crate::text::lemma_holds_between(
        t3,
        s4,
        v4,
        s5,
        r5,
        "\nsprdflash_flash_seconds_total "@,
        line,
    );
    crate::text::lemma_holds_between(t4, s5, v5, s6, none, "\nsprdflash_uptime_seconds "@, line);
    assert(text =~= none + s0 + v0 + s1 + r1);
    assert(text =~= t0 + s1 + v1 + s2 + r2);
    assert(text =~= t1 + s2 + v2 + s3 + r3);
    assert(text =~= t2 + s3 + v3 + s4 + r4);
    assert(text =~= t3 + s4 + v4 + s5 + r5);
    assert(text =~= t4 + s5 + v5 + s6 + none);
}

#[verifier::rlimit(40)]
proof fn lemma_labels()
    ensures
        crate::text::closes(
            "# HELP sprdflash_units_total Units flashed, by result.\n# TYPE sprdflash_units_total counter\nsprdflash_units_total{result=\"pass\"} "@,
            "{result=\"pass\"} "@,
        ),
        crate::text::opens("\nsprdflash_units_total{result=\"fail\"} "@, "\n"@),
        crate::text::closes(
            "\nsprdflash_units_total{result=\"fail\"} "@,
            "{result=\"fail\"} "@,
        ),
        crate::text::opens(
            "\n# HELP sprdflash_retries_total Retry attempts beyond the first.\n# TYPE sprdflash_retries_total counter\nsprdflash_retries_total "@,
            "\n"@,
        ),
        crate::text::closes(
            "\n# HELP sprdflash_retries_total Retry attempts beyond the first.\n# TYPE sprdflash_retries_total counter\nsprdflash_retries_total "@,
            "\nsprdflash_retries_total "@,
        ),
        crate::text::opens(
            "\n# HELP sprdflash_bytes_total Payload bytes written.\n# TYPE sprdflash_bytes_total counter\nsprdflash_bytes_total "@,
            "\n"@,
        ),
        crate::text::closes(
            "\n# HELP sprdflash_bytes_total Payload bytes written.\n# TYPE sprdflash_bytes_total counter\nsprdflash_bytes_total "@,
            "\nsprdflash_bytes_total "@,
        ),
        crate::text::opens(
            "\n# HELP sprdflash_flash_seconds_total Sum of flash wall-clock seconds.\n# TYPE sprdflash_flash_seconds_total counter\nsprdflash_flash_seconds_total "@,
            "\n"@,
        ),
        crate::text::closes(
            "\n# HELP sprdflash_flash_seconds_total Sum of flash wall-clock seconds.\n# TYPE sprdflash_flash_seconds_total counter\nsprdflash_flash_seconds_total "@,
            "\nsprdflash_flash_seconds_total "@,
        ),
        crate::text::opens(
            "\n# HELP sprdflash_uptime_seconds Exporter uptime.\n# TYPE sprdflash_uptime_seconds gauge\nsprdflash_uptime_seconds "@,
            "\n"@,
        ),
        crate::text::closes(
            "\n# HELP sprdflash_uptime_seconds Exporter uptime.\n# TYPE sprdflash_uptime_seconds gauge\nsprdflash_uptime_seconds "@,
            "\nsprdflash_uptime_seconds "@,
        ),
        crate::text::opens("\n"@, "\n"@),
{
    reveal_strlit("\n");
    assert("\n"@.take(1) =~= "\n"@);
    assert(crate::text::closes(
        "# HELP sprdflash_units_total Units flashed, by result.\n# TYPE sprdflash_units_total counter\nsprdflash_units_total{result=\"pass\"} "@,
        "{result=\"pass\"} "@,
    )) by {
        reveal_strlit("# HELP sprdflash_units_total Units flashed, by result.\n# TYPE sprdflash_units_total counter\nsprdflash_units_total{result=\"pass\"} ");
        reveal_strlit("{result=\"pass\"} ");
        let s =
            "# HELP sprdflash_units_total Units flashed, by result.\n# TYPE sprdflash_units_total counter\nsprdflash_units_total{result=\"pass\"} "@;
        assert(s.skip(s.len() - "{result=\"pass\"} "@.len()) =~= "{result=\"pass\"} "@);
    }
    assert(crate::text::opens("\nsprdflash_units_total{result=\"fail\"} "@, "\n"@)
        && crate::text::closes(
        "\nsprdflash_units_total{result=\"fail\"} "@,
        "{result=\"fail\"} "@,
    )) by {
        reveal_strlit("\nsprdflash_units_total{result=\"fail\"} ");
        reveal_strlit("{result=\"fail\"} ");
        let s = "\nsprdflash_units_total{result=\"fail\"} "@;
        assert(s.skip(s.len() - "{result=\"fail\"} "@.len()) =~= "{result=\"fail\"} "@);
        assert(s.take(1) =~= "\n"@);
    }
    assert(crate::text::opens(
        "\n# HELP sprdflash_retries_total Retry attempts beyond the first.\n# TYPE sprdflash_retries_total counter\nsprdflash_retries_total "@,
        "\n"@,
    ) && crate::text::closes(
        "\n# HELP sprdflash_retries_total Retry attempts beyond the first.\n# TYPE sprdflash_retries_total counter\nsprdflash_retries_total "@,
        "\nsprdflash_retries_total "@,
    )) by {
        reveal_strlit("\n# HELP sprdflash_retries_total Retry attempts beyond the first.\n# TYPE sprdflash_retries_total counter\nsprdflash_retries_total ");
        reveal_strlit("\nsprdflash_retries_total ");
        let s =
            "\n# HELP sprdflash_retries_total Retry attempts beyond the first.\n# TYPE sprdflash_retries_total counter\nsprdflash_retries_total "@;
        assert(s.skip(s.len() - "\nsprdflash_retries_total "@.len())
            =~= "\nsprdflash_retries_total "@);
        assert(s.take(1) =~= "\n"@);
    }
    assert(crate::text::opens(
        "\n# HELP sprdflash_bytes_total Payload bytes written.\n# TYPE sprdflash_bytes_total counter\nsprdflash_bytes_total "@,
        "\n"@,
    ) && crate::text::closes(
        "\n# HELP sprdflash_bytes_total Payload bytes written.\n# TYPE sprdflash_bytes_total counter\nsprdflash_bytes_total "@,
        "\nsprdflash_bytes_total "@,
    )) by {
        reveal_strlit("\n# HELP sprdflash_bytes_total Payload bytes written.\n# TYPE sprdflash_bytes_total counter\nsprdflash_bytes_total ");
        reveal_strlit("\nsprdflash_bytes_total ");
        let s =
            "\n# HELP sprdflash_bytes_total Payload bytes written.\n# TYPE sprdflash_bytes_total counter\nsprdflash_bytes_total "@;
        assert(s.skip(s.len() - "\nsprdflash_bytes_total "@.len()) =~= "\nsprdflash_bytes_total "@);
        assert(s.take(1) =~= "\n"@);
    }
    assert(crate::text::opens(
        "\n# HELP sprdflash_flash_seconds_total Sum of flash wall-clock seconds.\n# TYPE sprdflash_flash_seconds_total counter\nsprdflash_flash_seconds_total "@,
        "\n"@,
    ) && crate::text::closes(
        "\n# HELP sprdflash_flash_seconds_total Sum of flash wall-clock seconds.\n# TYPE sprdflash_flash_seconds_total counter\nsprdflash_flash_seconds_total "@,
        "\nsprdflash_flash_seconds_total "@,
    )) by {
        reveal_strlit("\n# HELP sprdflash_flash_seconds_total Sum of flash wall-clock seconds.\n# TYPE sprdflash_flash_seconds_total counter\nsprdflash_flash_seconds_total ");
        reveal_strlit("\nsprdflash_flash_seconds_total ");
        let s =
            "\n# HELP sprdflash_flash_seconds_total Sum of flash wall-clock seconds.\n# TYPE sprdflash_flash_seconds_total counter\nsprdflash_flash_seconds_total "@;
        assert(s.skip(s.len() - "\nsprdflash_flash_seconds_total "@.len())
            =~= "\nsprdflash_flash_seconds_total "@);
        assert(s.take(1) =~= "\n"@);
    }
    assert(crate::text::opens(
        "\n# HELP sprdflash_uptime_seconds Exporter uptime.\n# TYPE sprdflash_uptime_seconds gauge\nsprdflash_uptime_seconds "@,
        "\n"@,
    ) && crate::text::closes(
        "\n# HELP sprdflash_uptime_seconds Exporter uptime.\n# TYPE sprdflash_uptime_seconds gauge\nsprdflash_uptime_seconds "@,
        "\nsprdflash_uptime_seconds "@,
    )) by {
        reveal_strlit("\n# HELP sprdflash_uptime_seconds Exporter uptime.\n# TYPE sprdflash_uptime_seconds gauge\nsprdflash_uptime_seconds ");
        reveal_strlit("\nsprdflash_uptime_seconds ");
        let s =
            "\n# HELP sprdflash_uptime_seconds Exporter uptime.\n# TYPE sprdflash_uptime_seconds gauge\nsprdflash_uptime_seconds "@;
        assert(s.skip(s.len() - "\nsprdflash_uptime_seconds "@.len())
            =~= "\nsprdflash_uptime_seconds "@);
        assert(s.take(1) =~= "\n"@);
    }
}

/// A response carries its text at the end, behind an empty line, and says how long it is.
pub proof fn law_response_carries_the_text(body: Seq<char>, length: nat)
    ensures
        ({
            let r = response_of(body, length);
            &&& crate::text::holds(r, "\r\nContent-Length: "@ + decimal(length) + "\r\n"@)
            &&& r.skip(r.len() - body.len()) == body
            &&& r.subrange(r.len() - body.len() - 4, r.len() - body.len()) == seq![
                '\r',
                '\n',
                '\r',
                '\n',
            ]
        }),
{
    let s0 =
        "HTTP/1.1 200 OK\r\nContent-Type: text/plain; version=0.0.4\r\nContent-Length: "@;
    let s1 = "\r\nConnection: close\r\n\r\n"@;
    let r = response_of(body, length);
    let n = r.len() - body.len();
    let d = decimal(length);
    assert(crate::text::closes(s0, "\r\nContent-Length: "@)) by {
        reveal_strlit("HTTP/1.1 200 OK\r\nContent-Type: text/plain; version=0.0.4\r\nContent-Length: ");
        reveal_strlit("\r\nContent-Length: ");
        assert(s0.skip(s0.len() - "\r\nContent-Length: "@.len()) =~= "\r\nContent-Length: "@);
    }
    reveal_strlit("\r\n");
    reveal_strlit("\r\nConnection: close\r\n\r\n");
    assert(s1.take(2) =~= "\r\n"@);
    let none = Seq::<char>::empty();
    crate::text::lemma_holds_between(none, s0, d, s1, body, "\r\nContent-Length: "@, "\r\n"@);
    assert(r =~= none + s0 + d + s1 + body);
    assert(r.skip(n) =~= body);
    let m = s1.len() as int;
    assert(r.subrange(n - 4, n) =~= s1.subrange(m - 4, m));
    assert(s1.subrange(m - 4, m) =~= seq!['\r', '\n', '\r', '\n']);
}

} // verus!
