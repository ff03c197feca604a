//! Post-flash boot verification: what a booted module answers over its AT port. This
//! closes the loop on the line — a unit is only "pass" once it has actually come up
//! reporting the right build.

use vstd::prelude::*;

use crate::text::{
    begins_with, chars_of, decode_lossy, is_prefix, owned, pieces, same_chars, split_chars,
    string_of, trim, trimmed, utf8_lossy, views,
};

verus! {

/// What a booted module reports.
#[derive(Debug, Clone)]
pub struct BootInfo {
    /// `ATI` banner (e.g. `LuatOS-Air_V4035_...` / `CSDK_V302340_...`).
    pub firmware: String,
    /// `AT+CGSN` IMEI.
    pub imei: String,
}

/// Boot-verify errors.
#[derive(Debug)]
pub enum VerifyError {
    /// The AT port could not be opened: its name and what the driver said.
    Open(String, String),
    /// The module did not answer `ATI` within the timeout.
    NoResponse(String),
}

/// Whether a line of an AT response says something: it is not blank, not `OK`, not the
/// echo of the command nor any AT command.
pub open spec fn says_something(line: Seq<char>, cmd: Seq<char>) -> bool {
    line.len() > 0 && line != "OK"@ && line != cmd && !begins_with(line, "AT"@)
}

/// The first of some lines, without the space around it, that says something.
pub open spec fn first_meaningful(lines: Seq<Seq<char>>, cmd: Seq<char>) -> Option<Seq<char>>
    decreases lines.len(),
{
    if lines.len() == 0 {
        None
    } else if says_something(trimmed(lines[0]), cmd) {
        Some(trimmed(lines[0]))
    } else {
        first_meaningful(lines.skip(1), cmd)
    }
}

/// Extract the meaningful line from an AT response (skip echo, `OK`, blanks).
#[must_use]
pub fn meaningful(resp: &str, cmd: &str) -> (r: Option<String>)
    ensures
        match r {
            Some(line) => first_meaningful(pieces(resp@, '\n'), cmd@) == Some(line@),
            None => first_meaningful(pieces(resp@, '\n'), cmd@) is None,
        },
{
    let lines: Vec<Vec<char>> = split_chars(&chars_of(resp), '\n');
    let ok: Vec<char> = chars_of("OK");
    let at: Vec<char> = chars_of("AT");
    let echo: Vec<char> = chars_of(cmd);
    let ghost all = views(lines@);
    let mut i: usize = 0;
    proof {
        assert(all.skip(0) =~= all);
    }
    while i < lines.len()
        invariant
            i <= lines@.len(),
            all == views(lines@),
            all == pieces(resp@, '\n'),
            ok@ == "OK"@,
            at@ == "AT"@,
            echo@ == cmd@,
            first_meaningful(all, cmd@) == first_meaningful(all.skip(i as int), cmd@),
        decreases lines.len() - i,
    {
        proof {
            assert(all.skip(i as int)[0] == lines@[i as int]@);
            assert(all.skip(i as int).skip(1) =~= all.skip(i + 1));
        }
        let line: Vec<char> = trim(&lines[i]);
        if line.len() > 0 && !same_chars(&line, &ok) && !same_chars(&line, &echo) && !is_prefix(
            &line,
            &at,
        ) {
            return Some(string_of(&line));
        }
        i += 1;
    }
    None
}

/// What a module reports, from its answers to `ATI` and `AT+CGSN`: nothing without a
/// banner; without an IMEI an empty one.
#[must_use]
pub fn boot_info(ati: &str, cgsn: &str) -> (r: Option<BootInfo>)
    ensures
        match first_meaningful(pieces(ati@, '\n'), "ATI"@) {
            None => r is None,
            Some(firmware) => r matches Some(info) && info.firmware@ == firmware && info.imei@ == (
            match first_meaningful(pieces(cgsn@, '\n'), "AT+CGSN"@) {
                Some(imei) => imei,
                None => Seq::empty(),
            }),
        },
{
    match meaningful(ati, "ATI") {
        None => None,
        Some(firmware) => {
            let imei: String = match meaningful(cgsn, "AT+CGSN") {
                Some(imei) => imei,
                None => String::new(),
            };
            Some(BootInfo { firmware, imei })
        },
    }
}

/// The banner in the raw bytes of an answer to `ATI`.
#[must_use]
pub fn banner_in(ati: &[u8]) -> (r: Option<String>)
    ensures
        match r {
            Some(line) => first_meaningful(pieces(utf8_lossy(ati@), '\n'), "ATI"@) == Some(line@),
            None => first_meaningful(pieces(utf8_lossy(ati@), '\n'), "ATI"@) is None,
        },
{
    meaningful(decode_lossy(ati).as_str(), "ATI")
}

/// What a module reports, from the raw bytes of its answers to `ATI` and `AT+CGSN`.
#[must_use]
pub fn boot_report(ati: &[u8], cgsn: &[u8]) -> (r: Option<BootInfo>)
    ensures
        match first_meaningful(pieces(utf8_lossy(ati@), '\n'), "ATI"@) {
            None => r is None,
            Some(firmware) => r matches Some(info) && info.firmware@ == firmware && info.imei@ == (
            match first_meaningful(pieces(utf8_lossy(cgsn@), '\n'), "AT+CGSN"@) {
                Some(imei) => imei,
                None => Seq::empty(),
            }),
        },
{
    boot_info(decode_lossy(ati).as_str(), decode_lossy(cgsn).as_str())
}

/// What to do after a try to read a module's boot answers.
#[derive(Debug)]
pub enum BootStep {
    /// The module has booted, and reports this.
    Report(BootInfo),
    /// Try again.
    Again,
    /// Give up.
    GiveUp(VerifyError),
}

/// Decide what to do after a try to read the boot answers on `at_port`: from whether the
/// port could ever be opened, what the driver said when it last could not, the report if
/// there was one, and whether the time is up. A report ends it; so does the end of the
/// time, with an error that tells a port that could never be opened from a module that
/// did not answer.
pub fn boot_step(
    at_port: &str,
    opened: bool,
    open_error: Option<String>,
    report: Option<BootInfo>,
    time_up: bool,
) -> (r: BootStep)
    ensures
        match report {
            Some(info) => r == BootStep::Report(info),
            None => if !time_up {
                r is Again
            } else if !opened && open_error is Some {
                r matches BootStep::GiveUp(VerifyError::Open(port, why)) && port@ == at_port@ && why@
                    == open_error->0@
            } else {
                r matches BootStep::GiveUp(VerifyError::NoResponse(port)) && port@ == at_port@
            },
        },
{
    if let Some(info) = report {
        return BootStep::Report(info);
    }
    if !time_up {
        return BootStep::Again;
    }
    match open_error {
        Some(why) => if opened {
            BootStep::GiveUp(VerifyError::NoResponse(owned(at_port)))
        } else {
            BootStep::GiveUp(VerifyError::Open(owned(at_port), why))
        },
        None => BootStep::GiveUp(VerifyError::NoResponse(owned(at_port))),
    }
}

/// Whether a line, without the space around it, is an answer: it has something in it, is not
/// `OK`, not the command that it answers, and does not begin with `AT`.
pub open spec fn is_answer(line: Seq<char>, cmd: Seq<char>) -> bool {
    let said = trimmed(line);
    &&& said.len() > 0
    &&& said != "OK"@
    &&& said != cmd
    &&& !(said.len() >= 2 && said[0] == 'A' && said[1] == 'T')
}

proof fn lemma_is_answer(line: Seq<char>, cmd: Seq<char>)
    ensures
        is_answer(line, cmd) == says_something(trimmed(line), cmd),
{
    reveal_strlit("AT");
    let said = trimmed(line);
    if said.len() >= 2 {
        let front = said.subrange(0, 2);
        assert(front[0] == said[0] && front[1] == said[1]);
        if said[0] == 'A' && said[1] == 'T' {
            assert(front =~= "AT"@);
        }
    }
}

/// What is read from the lines of an answer is the first of them that is one, without the
/// space around it; and nothing is read just if none is.
pub proof fn law_first_answer_is_read(lines: Seq<Seq<char>>, cmd: Seq<char>)
    ensures
        match first_meaningful(lines, cmd) {
            Some(said) => exists|i: int|
                0 <= i < lines.len() && said == trimmed(#[trigger] lines[i]) && is_answer(
                    lines[i],
                    cmd,
                ) && forall|k: int| 0 <= k < i ==> !is_answer(#[trigger] lines[k], cmd),
            None => forall|i: int| 0 <= i < lines.len() ==> !is_answer(#[trigger] lines[i], cmd),
        },
    decreases lines.len(),
{
    if lines.len() > 0 {
        let rest = lines.skip(1);
        lemma_is_answer(lines[0], cmd);
        if !is_answer(lines[0], cmd) {
            law_first_answer_is_read(rest, cmd);
            assert forall|k: int| 0 <= k < lines.len() && k > 0 implies #[trigger] lines[k]
                == rest[k - 1] by {}
            match first_meaningful(rest, cmd) {
                Some(said) => {
                    let i = choose|i: int|
                        0 <= i < rest.len() && said == trimmed(#[trigger] rest[i]) && is_answer(
                            rest[i],
                            cmd,
                        ) && forall|k: int| 0 <= k < i ==> !is_answer(#[trigger] rest[k], cmd);
                    assert(lines[i + 1] == rest[i]);
                },
                None => {},
            }
        }
    }
}

} // verus!
