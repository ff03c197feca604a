//! Getting the module into download mode, and recovering a stuck agent.
//!
//! Happy path: `AT*DOWNLOAD=1` is sent on the module's AT port. Edge case (a wedged
//! download agent): the USB device is re-enumerated so a fresh agent comes up. On a
//! real line the most reliable recovery is a fixture-controlled USB power cycle
//! (e.g. `uhubctl`); [`RecoveryStrategy`] documents the options for the
//! orchestrator.

use vstd::prelude::*;

use crate::text::{
    chars_of, decode_lossy, owned, pieces, push_chars, split_chars, trim, trimmed, utf8_lossy,
    views,
};

verus! {

/// How a station recovers a module that will not connect.
#[derive(Debug, Clone, Copy, PartialEq, Eq, Structural)]
pub enum RecoveryStrategy {
    /// Re-send `AT*DOWNLOAD=1` on the AT port.
    AtRedownload,
    /// Re-enumerate the USB device (Windows `pnputil`, best effort).
    UsbRestart,
    /// Ask a fixture to power-cycle the USB port (most reliable on a line).
    PowerCycle,
}

/// What is sent on the AT port to reboot the module into download mode.
#[must_use]
pub fn download_command() -> (r: &'static str)
    ensures
        r@ == "AT*DOWNLOAD=1\r\n"@,
{
    "AT*DOWNLOAD=1\r\n"
}

/// The part of a text behind its last backslash.
pub open spec fn last_part(s: Seq<char>) -> Seq<char> {
    pieces(s, '\\').last()
}

/// The device instance that a listing of a registry key names: the last part of the
/// first line that does not end in a backslash and is not blank.
pub open spec fn instance_in(lines: Seq<Seq<char>>) -> Option<Seq<char>>
    decreases lines.len(),
{
    if lines.len() == 0 {
        None
    } else if last_part(trimmed(lines[0])).len() > 0 {
        Some(last_part(trimmed(lines[0])))
    } else {
        instance_in(lines.skip(1))
    }
}

/// The path of the download device with some instance.
pub open spec fn device_path_of(instance: Seq<char>) -> Seq<char> {
    "USB\\VID_0525&PID_A4A7\\"@ + instance
}

/// The path by which the download device is restarted, read from a listing of its
/// registry key (`reg query` of its USB enum key); there is none if the listing names
/// no instance.
pub fn device_path(listing: &str) -> (r: Option<String>)
    ensures
        match r {
            Some(path) => instance_in(pieces(listing@, '\n')) matches Some(instance) && path@
                == device_path_of(instance),
            None => instance_in(pieces(listing@, '\n')) is None,
        },
{
    let lines: Vec<Vec<char>> = split_chars(&chars_of(listing), '\n');
    let ghost all = views(lines@);
    let mut i: usize = 0;
    proof {
        assert(all.skip(0) =~= all);
    }
    while i < lines.len()
        invariant
            i <= lines@.len(),
            all == views(lines@),
            all == pieces(listing@, '\n'),
            instance_in(all) == instance_in(all.skip(i as int)),
        decreases lines.len() - i,
    {
        proof {
            assert(all.skip(i as int)[0] == lines@[i as int]@);
            assert(all.skip(i as int).skip(1) =~= all.skip(i + 1));
        }
        let line: Vec<char> = trim(&lines[i]);
        let parts: Vec<Vec<char>> = split_chars(&line, '\\');
        let instance: &Vec<char> = &parts[parts.len() - 1];
        proof {
            assert(views(parts@).last() == instance@);
        }
        if instance.len() > 0 {
            let mut path: String = owned("USB\\VID_0525&PID_A4A7\\");
            push_chars(&mut path, instance);
            return Some(path);
        }
        i += 1;
    }
    None
}

/// As [`device_path`], from the raw bytes of the listing.
pub fn listed_device(stdout: &[u8]) -> (r: Option<String>)
    ensures
        match r {
            Some(path) => instance_in(pieces(utf8_lossy(stdout@), '\n')) matches Some(instance)
                && path@ == device_path_of(instance),
            None => instance_in(pieces(utf8_lossy(stdout@), '\n')) is None,
        },
{
    device_path(decode_lossy(stdout).as_str())
}

/// Where the system has no tool to re-enumerate a device, there is nothing to do (use
/// `usbip`/`uhubctl` at the fixture): the device was not restarted.
#[must_use]
pub fn restart_download_device() -> (r: bool)
    ensures
        !r,
{
    false
}

/// The last part of a text is its end, has no backslash in it, and is the whole text or stands
/// behind a backslash.
pub proof fn law_last_part(s: Seq<char>)
    ensures
        ({
            let part = last_part(s);
            let from = s.len() - part.len();
            &&& 0 <= from
            &&& s.skip(from) == part
            &&& !part.contains('\\')
            &&& from == 0 || s[from - 1] == '\\'
        }),
{
    crate::text::law_pieces(s, '\\');
    lemma_last_joined(pieces(s, '\\'), '\\');
}

proof fn lemma_last_joined(parts: Seq<Seq<char>>, c: char)
    requires
        parts.len() > 0,
    ensures
        ({
            let s = crate::text::joined(parts, c);
            let from = s.len() - parts.last().len();
            &&& 0 <= from
            &&& s.skip(from) == parts.last()
            &&& from == 0 || s[from - 1] == c
        }),
    decreases parts.len(),
{
    let s = crate::text::joined(parts, c);
    if parts.len() == 1 {
        assert(s.skip(0) =~= parts.last());
    } else {
        let rest = parts.skip(1);
        lemma_last_joined(rest, c);
        let t = crate::text::joined(rest, c);
        let from = t.len() - rest.last().len();
        let lead = parts[0].len() + 1;
        assert(rest.last() == parts.last());
        assert(s.len() == lead + t.len());
        assert(s.skip(lead + from) =~= t.skip(from));
        if from == 0 {
            assert(s[lead - 1] == c);
        } else {
            assert(s[lead + from - 1] == t[from - 1]);
        }
    }
}

/// The instance that a listing names is the last part of the first of its lines, without the
/// space around them, whose last part is not empty; there is none just if no line has such.
pub proof fn law_first_instance_is_named(lines: Seq<Seq<char>>)
    ensures
        match instance_in(lines) {
            Some(name) => name.len() > 0 && exists|i: int|
                0 <= i < lines.len() && name == last_part(trimmed(#[trigger] lines[i])) && forall|
                    k: int,
                |
                    0 <= k < i ==> last_part(trimmed(#[trigger] lines[k])).len() == 0,
            None => forall|i: int|
                0 <= i < lines.len() ==> last_part(trimmed(#[trigger] lines[i])).len() == 0,
        },
    decreases lines.len(),
{
    if lines.len() > 0 && last_part(trimmed(lines[0])).len() == 0 {
        let rest = lines.skip(1);
        law_first_instance_is_named(rest);
        assert forall|k: int| 0 < k < lines.len() implies #[trigger] lines[k] == rest[k - 1] by {}
        match instance_in(rest) {
            Some(name) => {
                let i = choose|i: int|
                    0 <= i < rest.len() && name == last_part(trimmed(#[trigger] rest[i]))
                        && forall|k: int|
                        0 <= k < i ==> last_part(trimmed(#[trigger] rest[k])).len() == 0;
                assert(lines[i + 1] == rest[i]);
            },
            None => {},
        }
    }
}

/// The path of a device names the vendor 0525, the product a4a7 and its instance, with a
/// backslash between any two parts.
pub proof fn law_device_path(instance: Seq<char>)
    ensures
        device_path_of(instance).skip(22) == instance,
        device_path_of(instance).take(22) == "USB"@ + seq!['\\'] + "VID_0525"@ + seq!['&']
            + "PID_A4A7"@ + seq!['\\'],
{
    reveal_strlit("USB\\VID_0525&PID_A4A7\\");
    reveal_strlit("USB");
    reveal_strlit("VID_0525");
    reveal_strlit("PID_A4A7");
    assert(device_path_of(instance).skip(22) =~= instance);
    assert(device_path_of(instance).take(22) =~= "USB"@ + seq!['\\'] + "VID_0525"@ + seq!['&']
        + "PID_A4A7"@ + seq!['\\']);
}

} // verus!
