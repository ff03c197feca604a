//! What the command line decides and prints.

use vstd::prelude::*;

use crate::line::station::{DownloadStep, DownloadWay, Station, StationConfig};
use crate::pac::{Entry, PacEntry, PacInfo, Package};
use crate::plan::{build, classify, no_fdl1, planned, role_of, Erase, EraseOp, Plan, Role};
use crate::text::{
    char_from, chars_of, copy_chars, decimal, find_char, hex, numeral_chars, owned, pad_left,
    pad_right, padded_left, padded_right, push_chars, push_decimal, push_hex_padded, same_text,
    string_of, upper, upper_chars,
};
use crate::transport::discovery::{find_at_port, first_at, port_views, text_view, Port, PortInfo};
use crate::transport::{DOWNLOAD_PID, DOWNLOAD_VID, MODULE_VID};

verus! {

// ---------------------------------------------------------------------------
// Stations
// ---------------------------------------------------------------------------

/// A text, unless it is empty.
pub open spec fn unless_empty(s: Seq<char>) -> Option<Seq<char>> {
    if s.len() == 0 {
        None
    } else {
        Some(s)
    }
}

/// What a text holds before and behind its first colon; nothing is behind it if there
/// is none.
pub open spec fn at_colon(s: Seq<char>) -> (Seq<char>, Seq<char>) {
    match char_from(s, ':', 0) {
        Some(i) => (s.take(i), s.skip(i + 1)),
        None => (s, Seq::empty()),
    }
}

/// The station that a spec `label[:at_port[:download_port]]` stands for. A port that is
/// left empty is not set; what is behind the second colon is the download port, with
/// any more colons in it.
pub open spec fn station_of(spec: Seq<char>) -> Station {
    let (label, ports) = at_colon(spec);
    let (at, download) = at_colon(ports);
    Station { label, at_port: unless_empty(at), download_port: unless_empty(download) }
}

fn split_at_colon(s: &[char]) -> (r: (Vec<char>, Vec<char>))
    ensures
        (r.0@, r.1@) == at_colon(s@),
{
    let n: usize = s.len();
    match find_char(s, ':', 0) {
        Some(i) => {
            let head: Vec<char> = copy_chars(s, 0, i);
            let tail: Vec<char> = copy_chars(s, i + 1, n);
            proof {
                assert(head@ =~= s@.take(i as int));
                assert(tail@ =~= s@.skip(i + 1));
            }
            (head, tail)
        },
        None => {
            let head: Vec<char> = copy_chars(s, 0, s.len());
            proof {
                assert(head@ =~= s@);
            }
            (head, Vec::new())
        },
    }
}

fn some_text(s: &[char]) -> (r: Option<String>)
    ensures
        text_view(r) == unless_empty(s@),
{
    if s.len() == 0 {
        None
    } else {
        Some(string_of(s))
    }
}

/// Read one station spec.
#[must_use]
pub fn parse_station(spec: &str) -> (r: StationConfig)
    ensures
        r@ == station_of(spec@),
{
    let (label, ports): (Vec<char>, Vec<char>) = split_at_colon(&chars_of(spec));
    let (at, download): (Vec<char>, Vec<char>) = split_at_colon(&ports);
    StationConfig {
        label: string_of(&label),
        at_port: some_text(&at),
        download_port: some_text(&download),
    }
}

/// The views of some texts.
pub open spec fn text_views(v: Seq<String>) -> Seq<Seq<char>> {
    v.map_values(|s: String| s@)
}

/// The views of some stations.
pub open spec fn station_views(v: Seq<StationConfig>) -> Seq<Station> {
    v.map_values(|s: StationConfig| s@)
}

/// The name of a port that may be there.
pub open spec fn name_of(p: Option<Port>) -> Option<Seq<char>> {
    match p {
        Some(p) => Some(p.name),
        None => None,
    }
}

/// What a port that may be there says.
pub open spec fn port_view(p: Option<PortInfo>) -> Option<Port> {
    match p {
        Some(p) => Some(p@),
        None => None,
    }
}

/// Build station configs from `label[:at_port[:download_port]]` specs, or one
/// auto-discovered station, from the module ports and the download port that were
/// found, if none were given.
pub fn build_stations(specs: &[String], mods: &[PortInfo], download: &Option<PortInfo>) -> (r: Result<
    Vec<StationConfig>,
    &'static str,
>)
    ensures
        ({
            let at = name_of(first_at(port_views(mods@)));
            let dl = name_of(port_view(*download));
            if specs@.len() > 0 {
                r matches Ok(v) && station_views(v@) == text_views(specs@).map_values(
                    |s: Seq<char>| station_of(s),
                )
            } else if at is None && dl is None {
                r matches Err(why) && why@
                    == "no module or download port found; connect a device or pass --station"@
            } else {
                r matches Ok(v) && station_views(v@) == seq![
                    Station { label: "station-1"@, at_port: at, download_port: dl },
                ]
            }
        }),
{
    let mut out: Vec<StationConfig> = Vec::new();
    if specs.len() == 0 {
        // Auto: one station from whatever module/download port is present.
        let at: Option<String> = match find_at_port(mods) {
            Some(p) => Some(p.name),
            None => None,
        };
        let dl: Option<String> = match download {
            Some(p) => Some(owned(p.name.as_str())),
            None => None,
        };
        if at.is_none() && dl.is_none() {
            return Err("no module or download port found; connect a device or pass --station");
        }
        out.push(StationConfig { label: owned("station-1"), at_port: at, download_port: dl });
        proof {
            assert(station_views(out@) =~= seq![out@[0]@]);
        }
        return Ok(out);
    }
    let ghost wanted = text_views(specs@).map_values(|s: Seq<char>| station_of(s));
    let mut i: usize = 0;
    while i < specs.len()
        invariant
            i <= specs@.len(),
            wanted == text_views(specs@).map_values(|s: Seq<char>| station_of(s)),
            station_views(out@) == wanted.take(i as int),
        decreases specs.len() - i,
    {
        let ghost done = station_views(out@);
        let s: StationConfig = parse_station(specs[i].as_str());
        let ghost made = s@;
        out.push(s);
        i += 1;
        proof {
            assert(station_views(out@) =~= done.push(made));
            assert(wanted.take(i as int) =~= wanted.take(i - 1).push(made));
        }
    }
    proof {
        assert(wanted.take(i as int) =~= wanted);
    }
    Ok(out)
}

/// Decide how to get to the download-mode port: the one that was given, else one that
/// was found, else, if that is allowed, by switching the module via its AT port.
pub fn resolve_download_port(
    explicit: &Option<String>,
    found: &Option<PortInfo>,
    enter_download: bool,
    mods: &[PortInfo],
) -> (r: Result<DownloadStep, &'static str>)
    ensures
        match text_view(*explicit) {
            Some(p) => r matches Ok(step) && step@ == DownloadWay::Use(p),
            None => match port_view(*found) {
                Some(p) => r matches Ok(step) && step@ == DownloadWay::Use(p.name),
                None => if !enter_download {
                    r matches Err(why) && why@
                        == "no download port (0525:a4a7) found; pass --port or --enter-download"@
                } else if mods@.len() == 0 {
                    r matches Err(why) && why@ == "no module AT port found to send AT*DOWNLOAD"@
                } else {
                    r matches Ok(step) && step@ == DownloadWay::SwitchVia(
                        match first_at(port_views(mods@)) {
                            Some(p) => p.name,
                            None => mods@[0]@.name,
                        },
                    )
                },
            },
        },
{
    if let Some(p) = explicit {
        return Ok(DownloadStep::Use(owned(p.as_str())));
    }
    if let Some(p) = found {
        return Ok(DownloadStep::Use(owned(p.name.as_str())));
    }
    if !enter_download {
        return Err("no download port (0525:a4a7) found; pass --port or --enter-download");
    }
    // The AT port's product ends in " AT" (avoid matching "LUAT"/"AP Diag").
    if let Some(p) = find_at_port(mods) {
        proof {
            lemma_first_at_is_there(port_views(mods@));
        }
        return Ok(DownloadStep::SwitchVia(p.name));
    }
    if mods.len() == 0 {
        return Err("no module AT port found to send AT*DOWNLOAD");
    }
    Ok(DownloadStep::SwitchVia(owned(mods[0].name.as_str())))
}

proof fn lemma_first_at_is_there(ports: Seq<Port>)
    ensures
        first_at(ports) is Some ==> ports.len() > 0,
{
}

// ---------------------------------------------------------------------------
// Progress
// ---------------------------------------------------------------------------

/// How much of a stage is done, in percent; all of it if there is nothing to do. The
/// hundredfold of what is done stops at the largest 64-bit number, and the result is
/// read as a signed one.
pub open spec fn percent(done: u64, total: u64) -> int {
    if total == 0 {
        100
    } else {
        let share = (if done * 100 > u64::MAX {
            u64::MAX as int
        } else {
            done * 100
        }) / (total as int);
        if share > i64::MAX {
            share - 0x1_0000_0000_0000_0000
        } else {
            share
        }
    }
}

fn percent_of(done: u64, total: u64) -> (r: i64)
    ensures
        r == percent(done, total),
{
    if total == 0 {
        return 100;
    }
    let scaled: u64 = match done.checked_mul(100) {
        Some(x) => x,
        None => u64::MAX,
    };
    let share: u64 = scaled / total;
    if share > i64::MAX as u64 {
        -((u64::MAX - share) as i64) - 1
    } else {
        share as i64
    }
}

/// A whole number in decimal.
pub open spec fn signed_decimal(n: int) -> Seq<char> {
    if n < 0 {
        "-"@ + decimal((-n) as nat)
    } else {
        decimal(n as nat)
    }
}

fn signed_chars(n: i64) -> (r: Vec<char>)
    ensures
        r@ == signed_decimal(n as int),
{
    if n < 0 {
        let mut out: Vec<char> = chars_of("-");
        let size: u64 = (-(n + 1)) as u64 + 1;
        let digits: Vec<char> = numeral_chars(size, 10);
        out.extend_from_slice(&digits);
        proof {
            assert(out@ =~= "-"@ + decimal(size as nat));
        }
        out
    } else {
        numeral_chars(n as u64, 10)
    }
}

/// What the progress display shows: the stage, and the percentage of it that was shown
/// last (-1 if none was).
pub struct Shown {
    pub stage: Seq<char>,
    pub percent: int,
}

/// What to print for a report.
pub struct Tick {
    /// Whether the line of the stage before is to be ended.
    pub new_line: bool,
    /// What to print over the line of the stage.
    pub text: Option<String>,
}

/// The line of a stage.
pub open spec fn progress_line(stage: Seq<char>, percent: int) -> Seq<char> {
    "\r  "@ + padded_right(stage, ' ', 14) + " "@ + padded_left(signed_decimal(percent), ' ', 3)
        + "%"@
}

/// The progress display of a flash run.
#[derive(Debug)]
pub struct Meter {
    stage: String,
    percent: i64,
}

impl View for Meter {
    type V = Shown;

    closed spec fn view(&self) -> Shown {
        Shown { stage: self.stage@, percent: self.percent as int }
    }
}

impl Meter {
    /// A display that has shown nothing yet.
    #[must_use]
    pub fn new() -> (r: Self)
        ensures
            r@ == (Shown { stage: Seq::empty(), percent: -1 }),
    {
        let stage: String = String::new();
        proof {
            assert(stage@ =~= Seq::<char>::empty());
        }
        Meter { stage, percent: -1 }
    }

    /// Take a report. A new stage begins a new line; a line is printed again only when
    /// its percentage has changed.
    pub fn tick(&mut self, stage: &str, done: u64, total: u64) -> (r: Tick)
        ensures
            final(self)@ == (Shown { stage: stage@, percent: percent(done, total) }),
            r.new_line == (old(self)@.stage != stage@ && old(self)@.stage.len() > 0),
            ({
                let last = if old(self)@.stage == stage@ {
                    old(self)@.percent
                } else {
                    -1
                };
                match r.text {
                    Some(text) => last != percent(done, total) && text@ == progress_line(
                        stage@,
                        percent(done, total),
                    ),
                    None => last == percent(done, total),
                }
            }),
    {
        let pct: i64 = percent_of(done, total);
        let mut new_line: bool = false;
        if !same_text(stage, self.stage.as_str()) {
            new_line = self.stage.as_str().unicode_len() > 0;
            self.stage = owned(stage);
            self.percent = -1;
        }
        if self.percent == pct {
            return Tick { new_line, text: None };
        }
        self.percent = pct;
        let mut text: String = owned("\r  ");
        push_chars(&mut text, &pad_right(&chars_of(stage), ' ', 14));
        text.append(" ");
        push_chars(&mut text, &pad_left(&signed_chars(pct), ' ', 3));
        text.append("%");
        Tick { new_line, text: Some(text) }
    }
}

// ---------------------------------------------------------------------------
// Ports
// ---------------------------------------------------------------------------

/// What a serial port is attached to.
#[derive(Debug, Clone)]
pub enum PortKind {
    /// USB, with its vendor and product ids and its product string.
    Usb(u16, u16, Option<String>),
    /// Bluetooth.
    Bluetooth,
    /// PCI.
    Pci,
    /// Something else.
    Unknown,
}

/// The USB ids of a port, or a dash.
pub open spec fn port_ids(kind: PortKind) -> Seq<char> {
    match kind {
        PortKind::Usb(vid, pid, _) => padded_left(hex(vid as nat), '0', 4) + ":"@ + padded_left(
            hex(pid as nat),
            '0',
            4,
        ),
        _ => "-"@,
    }
}

/// A description of a port.
pub open spec fn port_description(kind: PortKind) -> Seq<char> {
    match kind {
        PortKind::Usb(_, _, Some(product)) => product@,
        PortKind::Usb(_, _, None) => "USB serial"@,
        PortKind::Bluetooth => "Bluetooth"@,
        PortKind::Pci => "PCI"@,
        PortKind::Unknown => "Unknown"@,
    }
}

/// What is said of ports that matter here.
pub open spec fn port_tag(kind: PortKind) -> Seq<char> {
    match kind {
        PortKind::Usb(vid, pid, _) => if vid == DOWNLOAD_VID && pid == DOWNLOAD_PID {
            "  <- BootROM download port"@
        } else if vid == MODULE_VID {
            "  <- module (normal mode)"@
        } else {
            Seq::empty()
        },
        _ => Seq::empty(),
    }
}

/// One line of a list of ports.
pub open spec fn port_line_of(name: Seq<char>, kind: PortKind) -> Seq<char> {
    padded_right(name, ' ', 8) + " "@ + padded_right(port_ids(kind), ' ', 11) + " "@
        + port_description(kind) + port_tag(kind)
}

/// One line of a list of ports, flagging download-mode and module ports.
#[must_use]
pub fn port_line(name: &str, kind: &PortKind) -> (r: String)
    ensures
        r@ == port_line_of(name@, *kind),
{
    let mut ids: String = String::new();
    let mut what: String = String::new();
    let mut tag: String = String::new();
    match kind {
        PortKind::Usb(vid, pid, product) => {
            push_hex_padded(&mut ids, *vid as u64, 4);
            ids.append(":");
            push_hex_padded(&mut ids, *pid as u64, 4);
            match product {
                Some(product) => what.append(product.as_str()),
                None => what.append("USB serial"),
            }
            if *vid == DOWNLOAD_VID && *pid == DOWNLOAD_PID {
                tag.append("  <- BootROM download port");
            } else if *vid == MODULE_VID {
                tag.append("  <- module (normal mode)");
            }
        },
        PortKind::Bluetooth => {
            ids.append("-");
            what.append("Bluetooth");
        },
        PortKind::Pci => {
            ids.append("-");
            what.append("PCI");
        },
        PortKind::Unknown => {
            ids.append("-");
            what.append("Unknown");
        },
    }
    proof {
        assert(ids@ =~= port_ids(*kind));
        assert(what@ =~= port_description(*kind));
        assert(tag@ =~= port_tag(*kind));
    }
    let mut out: String = String::new();
    push_chars(&mut out, &pad_right(&chars_of(name), ' ', 8));
    out.append(" ");
    push_chars(&mut out, &pad_right(&chars_of(ids.as_str()), ' ', 11));
    out.append(" ");
    out.append(what.as_str());
    out.append(tag.as_str());
    proof {
        assert(out@ =~= port_line_of(name@, *kind));
    }
    out
}

// ---------------------------------------------------------------------------
// A PAC at a glance
// ---------------------------------------------------------------------------

/// The name of a role.
pub open spec fn role_name_of(role: Role) -> Seq<char> {
    match role {
        Role::Fdl1 => "fdl1"@,
        Role::Fdl2 => "fdl2"@,
        Role::Marker => "marker"@,
        Role::Flash => "flash"@,
    }
}

/// The name of a role.
#[must_use]
pub fn role_name(role: Role) -> (r: &'static str)
    ensures
        r@ == role_name_of(role),
{
    match role {
        Role::Fdl1 => "fdl1",
        Role::Fdl2 => "fdl2",
        Role::Marker => "marker",
        Role::Flash => "flash",
    }
}

/// The address column of an entry.
pub open spec fn address_column(address: u32) -> Seq<char> {
    if address != 0 {
        "0x"@ + padded_left(upper(hex(address as nat)), '0', 8)
    } else {
        "          "@
    }
}

/// The size column of an entry.
pub open spec fn size_column(size: u32) -> Seq<char> {
    if size == 0 {
        "      marker"@
    } else {
        padded_left(decimal(size as nat), ' ', 10) + " B"@
    }
}

/// One line of the table of entries.
pub open spec fn entry_line(e: Entry) -> Seq<char> {
    "  ["@ + padded_right(role_name_of(role_of(e)), ' ', 6) + "] "@ + padded_right(
        e.file_id,
        ' ',
        12,
    ) + " "@ + address_column(e.address) + "  "@ + size_column(e.size) + "  "@ + e.file_name
        + "\n"@
}

/// The table of entries.
pub open spec fn entry_lines(entries: Seq<Entry>) -> Seq<char>
    decreases entries.len(),
{
    if entries.len() == 0 {
        Seq::empty()
    } else {
        entry_lines(entries.drop_last()) + entry_line(entries.last())
    }
}

/// The ids of some erases, with commas between them.
pub open spec fn erase_list(erases: Seq<Erase>) -> Seq<char>
    decreases erases.len(),
{
    if erases.len() == 0 {
        Seq::empty()
    } else if erases.len() == 1 {
        erases[0].file_id
    } else {
        erase_list(erases.drop_last()) + ", "@ + erases.last().file_id
    }
}

/// How a CRC check came out.
pub open spec fn crc_word(ok: Option<bool>) -> Seq<char> {
    match ok {
        Some(true) => "ok"@,
        Some(false) => "BAD"@,
        None => "n/a"@,
    }
}

/// The plan of a PAC in a line or two.
pub open spec fn plan_lines(plan: Option<Plan>) -> Seq<char> {
    match plan {
        None => "\nPlan    : unavailable ("@ + no_fdl1() + ")\n"@,
        Some(p) => "\nPlan    : FDL1="@ + p.fdl1.file_id + ", FDL2="@ + (match p.fdl2 {
            Some(e) => e.file_id,
            None => "-"@,
        }) + ", "@ + decimal(p.partitions.len()) + " partition(s), "@ + decimal(p.erases.len())
            + " erase(s), "@ + decimal(p.data_markers.len()) + " data-marker(s)\n"@ + (
        if p.erases.len() == 0 {
            Seq::empty()
        } else {
            "          erases (--format): "@ + erase_list(p.erases) + "\n"@
        }),
    }
}

/// What there is to say of a PAC: its product, its CRCs, its entries and its plan.
pub open spec fn report_of(p: Package) -> Seq<char> {
    "Product : "@ + p.product_name + " ("@ + p.product_version + ")\nSize    : "@ + decimal(
        p.size as nat,
    ) + " bytes\nCRC     : header "@ + crc_word(Some(p.header_crc_ok)) + ", payload "@ + crc_word(
        p.payload_crc_ok,
    ) + "\nEntries :\n"@ + entry_lines(p.entries) + plan_lines(planned(p.entries))
}

fn push_padded(out: &mut String, s: &str, width: usize)
    ensures
        final(out)@ == old(out)@ + padded_right(s@, ' ', width as int),
{
    push_chars(out, &pad_right(&chars_of(s), ' ', width));
}

fn push_address(out: &mut String, address: u32)
    ensures
        final(out)@ == old(out)@ + address_column(address),
{
    let ghost before = out@;
    if address != 0 {
        let digits: String = string_of(&numeral_chars(address as u64, 16));
        out.append("0x");
        push_chars(out, &pad_left(&upper_chars(digits.as_str()), '0', 8));
    } else {
        out.append("          ");
    }
    proof {
        assert(out@ =~= before + address_column(address));
    }
}

fn push_size(out: &mut String, size: u32)
    ensures
        final(out)@ == old(out)@ + size_column(size),
{
    let ghost before = out@;
    if size == 0 {
        out.append("      marker");
    } else {
        push_chars(out, &pad_left(&numeral_chars(size as u64, 10), ' ', 10));
        out.append(" B");
    }
    proof {
        assert(out@ =~= before + size_column(size));
    }
}

fn push_entry_line(out: &mut String, e: &PacEntry)
    ensures
        final(out)@ == old(out)@ + entry_line(e@),
{
    let ghost before = out@;
    out.append("  [");
    push_padded(out, role_name(classify(e)), 6);
    out.append("] ");
    push_padded(out, e.file_id.as_str(), 12);
    out.append(" ");
    push_address(out, e.address);
    out.append("  ");
    push_size(out, e.size);
    out.append("  ");
    out.append(e.file_name.as_str());
    out.append("\n");
    proof {
        assert(out@ =~= before + entry_line(e@));
    }
}

fn push_crc_word(out: &mut String, ok: Option<bool>)
    ensures
        final(out)@ == old(out)@ + crc_word(ok),
{
    match ok {
        Some(true) => out.append("ok"),
        Some(false) => out.append("BAD"),
        None => out.append("n/a"),
    }
}

fn push_erase_list(out: &mut String, erases: &Vec<EraseOp>)
    ensures
        final(out)@ == old(out)@ + erase_list(crate::plan::erase_views(erases@)),
{
    let ghost before = out@;
    let ghost all = crate::plan::erase_views(erases@);
    let mut i: usize = 0;
    proof {
        assert(before + erase_list(all.take(0)) =~= before);
    }
    while i < erases.len()
        invariant
            i <= erases@.len(),
            all == crate::plan::erase_views(erases@),
            out@ == before + erase_list(all.take(i as int)),
        decreases erases.len() - i,
    {
        proof {
            assert(all.take(i + 1).drop_last() =~= all.take(i as int));
            assert(all.take(i + 1).last() == erases@[i as int]@);
        }
        if i > 0 {
            out.append(", ");
        }
        out.append(erases[i].file_id.as_str());
        i += 1;
        proof {
            assert(out@ =~= before + erase_list(all.take(i as int)));
        }
    }
    proof {
        assert(all.take(i as int) =~= all);
    }
}

#[verifier::rlimit(30)]
fn push_plan_lines(out: &mut String, info: &PacInfo)
    ensures
        final(out)@ == old(out)@ + plan_lines(planned(info@.entries)),
{
    let ghost before = out@;
    match build(info) {
        Err(why) => {
            out.append("\nPlan    : unavailable (");
            out.append(why);
            out.append(")\n");
        },
        Ok(p) => {
            out.append("\nPlan    : FDL1=");
            out.append(p.fdl1.file_id.as_str());
            out.append(", FDL2=");
            match p.fdl2 {
                Some(e) => out.append(e.file_id.as_str()),
                None => out.append("-"),
            }
            out.append(", ");
            push_decimal(out, p.partitions.len() as u64);
            out.append(" partition(s), ");
            push_decimal(out, p.erases.len() as u64);
            out.append(" erase(s), ");
            push_decimal(out, p.data_markers.len() as u64);
            out.append(" data-marker(s)\n");
            if p.erases.len() > 0 {
                out.append("          erases (--format): ");
                push_erase_list(out, &p.erases);
                out.append("\n");
            }
        },
    }
    proof {
        assert(out@ =~= before + plan_lines(planned(info@.entries)));
    }
}

/// What there is to say of a PAC: its product, its CRCs, its entries and its plan.
#[must_use]
pub fn info_report(info: &PacInfo) -> (r: String)
    ensures
        r@ == report_of(info@),
{
    let mut out: String = owned("Product : ");
    out.append(info.product_name.as_str());
    out.append(" (");
    out.append(info.product_version.as_str());
    out.append(")\nSize    : ");
    push_decimal(&mut out, info.size as u64);
    out.append(" bytes\nCRC     : header ");
    push_crc_word(&mut out, Some(info.header_crc_ok));
    out.append(", payload ");
    push_crc_word(&mut out, info.payload_crc_ok);
    out.append("\nEntries :\n");
    let ghost head = out@;
    let ghost all = info@.entries;
    let mut i: usize = 0;
    proof {
        assert(head + entry_lines(all.take(0)) =~= head);
    }
    while i < info.entries.len()
        invariant
            i <= info.entries@.len(),
            all == info@.entries,
            all.len() == info.entries@.len(),
            out@ == head + entry_lines(all.take(i as int)),
        decreases info.entries.len() - i,
    {
        proof {
            assert(all.take(i + 1).drop_last() =~= all.take(i as int));
            assert(all.take(i + 1).last() == info.entries@[i as int]@);
        }
        push_entry_line(&mut out, &info.entries[i]);
        i += 1;
        proof {
            assert(out@ =~= head + entry_lines(all.take(i as int)));
        }
    }
    push_plan_lines(&mut out, info);
    proof {
        assert(all.take(i as int) =~= all);
        assert(out@ =~= report_of(info@));
    }
    out
}

// ---------------------------------------------------------------------------
// What is read and printed
// ---------------------------------------------------------------------------

proof fn lemma_at_colon(before: Seq<char>, behind: Seq<char>)
    requires
        !before.contains(':'),
    ensures
        at_colon(before) == (before, Seq::<char>::empty()),
        at_colon(before + seq![':'] + behind) == (before, behind),
{
    let s = before + seq![':'] + behind;
    lemma_first_colon(before, 0);
    lemma_first_colon(s, 0);
    let n = before.len() as int;
    assert forall|k: int| 0 <= k < n implies #[trigger] before[k] != ':' by {
        assert(before.contains(before[k]));
    }
    assert(s[n] == ':');
    assert forall|k: int| 0 <= k < n implies #[trigger] s[k] != ':' by {
        assert(s[k] == before[k]);
    }
    assert(char_from(before, ':', 0) is None);
    assert(char_from(s, ':', 0) == Some(n));
    assert(s.take(n) =~= before);
    assert(s.skip(n + 1) =~= behind);
}

proof fn lemma_first_colon(s: Seq<char>, from: int)
    requires
        0 <= from,
    ensures
        match char_from(s, ':', from) {
            Some(i) => from <= i < s.len() && s[i] == ':' && forall|k: int|
                from <= k < i ==> #[trigger] s[k] != ':',
            None => forall|k: int| from <= k < s.len() ==> #[trigger] s[k] != ':',
        },
    decreases s.len() - from,
{
    if from < s.len() && s[from] != ':' {
        lemma_first_colon(s, from + 1);
    }
}

/// A station is read back from its spec: from its label, from its label and AT port, and from
/// its label and both ports, with colons between them. Of these only the last may have a colon
/// in it. A port that is left empty is not set.
pub proof fn law_station_is_read(label: Seq<char>, at: Seq<char>, download: Seq<char>)
    requires
        !label.contains(':'),
        !at.contains(':'),
    ensures
        station_of(label).label == label,
        station_of(label).at_port is None && station_of(label).download_port is None,
        ({
            let two = station_of(label + seq![':'] + at);
            &&& two.label == label
            &&& two.download_port is None
            &&& at.len() == 0 ==> two.at_port is None
            &&& at.len() > 0 ==> two.at_port == Some(at)
        }),
        ({
            let three = station_of(label + seq![':'] + (at + seq![':'] + download));
            &&& three.label == label
            &&& at.len() == 0 ==> three.at_port is None
            &&& at.len() > 0 ==> three.at_port == Some(at)
            &&& download.len() == 0 ==> three.download_port is None
            &&& download.len() > 0 ==> three.download_port == Some(download)
        }),
{
    lemma_at_colon(label, at);
    lemma_at_colon(label, at + seq![':'] + download);
    lemma_at_colon(at, download);
    assert(!Seq::<char>::empty().contains(':'));
    lemma_at_colon(Seq::empty(), Seq::empty());
}

/// How much is done, in percent: all if there is nothing to do; else the whole hundredths of
/// it, as long as a hundred times what is done fits in 63 bits. Then part of something is
/// between none and all of it, and all of it is all.
pub proof fn law_percent(done: u64, total: u64)
    requires
        100 * done <= i64::MAX,
    ensures
        total == 0 ==> percent(done, total) == 100,
        total > 0 ==> percent(done, total) * total <= 100 * done,
        total > 0 ==> 100 * done < (percent(done, total) + 1) * total,
        done <= total ==> 0 <= percent(done, total) <= 100,
        done == total ==> percent(done, total) == 100,
{
    if total > 0 {
        let d = 100 * done;
        let t = total as int;
        let q = d / t;
        assert(q * t <= d < (q + 1) * t && 0 <= q <= d) by (nonlinear_arith)
            requires
                t > 0,
                d >= 0,
                q == d / t,
        ;
        assert(percent(done, total) == q);
        if done <= total {
            assert(q <= 100) by (nonlinear_arith)
                requires
                    q * t <= d,
                    d <= 100 * t,
                    t > 0,
            ;
        }
        if done == total {
            assert(q >= 100) by (nonlinear_arith)
                requires
                    100 * t < (q + 1) * t,
                    t > 0,
            ;
        }
    }
}

/// A whole number is printed as a numeral of its size, with a minus before it if it is less
/// than zero.
pub proof fn law_signed_decimal(n: int)
    ensures
        n >= 0 ==> crate::text::numeral_value(signed_decimal(n), 10) == n,
        n >= 0 ==> signed_decimal(n)[0] != '-',
        n < 0 ==> signed_decimal(n)[0] == '-',
        n < 0 ==> crate::text::numeral_value(signed_decimal(n).skip(1), 10) == -n,
{
    reveal_strlit("-");
    if n >= 0 {
        crate::text::law_numeral_says_the_number(n as nat, 10);
        assert('0' <= decimal(n as nat)[0] <= '9' || 'a' <= decimal(n as nat)[0] <= 'f');
    } else {
        crate::text::law_numeral_says_the_number((-n) as nat, 10);
        assert(signed_decimal(n).skip(1) =~= decimal((-n) as nat));
    }
}

/// The line of a stage goes back to the front of the line, shows the name of the stage two
/// places in and, behind it, as the last before a percent sign, how much of it is done; stages
/// with names of up to fourteen characters show that in one column.
pub proof fn law_progress_line(stage: Seq<char>, percent: int)
    ensures
        ({
            let line = progress_line(stage, percent);
            let n = signed_decimal(percent).len();
            &&& line.take(3) == seq!['\r', ' ', ' ']
            &&& line.subrange(3, 3 + stage.len() as int) == stage
            &&& line.last() == '%'
            &&& line.subrange(line.len() - 1 - n, line.len() - 1) == signed_decimal(percent)
            &&& stage.len() <= 14 && n <= 3 ==> line.len() == 22
        }),
{
    reveal_strlit("\r  ");
    reveal_strlit(" ");
    reveal_strlit("%");
    let line = progress_line(stage, percent);
    let shown = signed_decimal(percent);
    let n = shown.len();
    assert(line.take(3) =~= seq!['\r', ' ', ' ']);
    assert(line.subrange(3, 3 + stage.len() as int) =~= stage);
    assert(line.subrange(line.len() - 1 - n, line.len() - 1) =~= shown);
}

/// What is said of a port: the download port of the boot ROM is the USB device 0525:a4a7, a
/// module in its normal mode one of the vendor 1782, and of any other port nothing is said.
pub proof fn law_port_tag(kind: PortKind)
    ensures
        match kind {
            PortKind::Usb(vid, pid, _) => {
                &&& vid == 0x0525 && pid == 0xA4A7 ==> port_tag(kind)
                    == "  <- BootROM download port"@
                &&& vid == 0x1782 ==> port_tag(kind) == "  <- module (normal mode)"@
                &&& vid != 0x1782 && !(vid == 0x0525 && pid == 0xA4A7) ==> port_tag(kind).len() == 0
            },
            _ => port_tag(kind).len() == 0,
        },
{
}

/// The ids of a USB port are its vendor and its product in hexadecimal, four digits each, with
/// a colon between them.
pub proof fn law_port_ids(vid: u16, pid: u16, product: Option<String>)
    ensures
        ({
            let ids = port_ids(PortKind::Usb(vid, pid, product));
            &&& ids.len() == 9
            &&& ids[4] == ':'
            &&& crate::text::numeral_value(ids.take(4), 16) == vid
            &&& crate::text::numeral_value(ids.skip(5), 16) == pid
        }),
{
    reveal_strlit(":");
    let ids = port_ids(PortKind::Usb(vid, pid, product));
    lemma_four_digits(vid);
    lemma_four_digits(pid);
    assert(ids.take(4) =~= padded_left(hex(vid as nat), '0', 4));
    assert(ids.skip(5) =~= padded_left(hex(pid as nat), '0', 4));
}

proof fn lemma_four_digits(n: u16)
    ensures
        padded_left(hex(n as nat), '0', 4).len() == 4,
        crate::text::numeral_value(padded_left(hex(n as nat), '0', 4), 16) == n,
{
    crate::text::law_numeral_says_the_number(n as nat, 16);
    assert(hex(n as nat).len() <= 4) by {
        reveal_with_fuel(crate::text::numeral, 5);
        assert(n / 16 / 16 / 16 < 16);
    }
    crate::text::lemma_zeros_before(hex(n as nat), 4 - hex(n as nat).len(), 16);
}

/// The table has a line for each entry, in their order.
pub proof fn law_entry_lines(a: Seq<Entry>, b: Seq<Entry>, one: Entry)
    ensures
        entry_lines(Seq::empty()) == Seq::<char>::empty(),
        entry_lines(seq![one]) == entry_line(one),
        entry_lines(a + b) == entry_lines(a) + entry_lines(b),
    decreases b.len(),
{
    assert(seq![one].drop_last() =~= Seq::<Entry>::empty());
    reveal_with_fuel(entry_lines, 2);
    assert(Seq::<char>::empty() + entry_line(one) =~= entry_line(one));
    if b.len() == 0 {
        assert(a + b =~= a);
        assert(entry_lines(a) + entry_lines(b) =~= entry_lines(a));
    } else {
        assert((a + b).drop_last() =~= a + b.drop_last());
        law_entry_lines(a, b.drop_last(), one);
        assert(entry_lines(a + b) =~= entry_lines(a) + entry_lines(b));
    }
}

/// The line of an entry says its role, its id and its file name, in that order, and ends the
/// line.
pub proof fn law_entry_line(e: Entry)
    ensures
        ({
            let line = entry_line(e);
            let role = role_name_of(role_of(e));
            let n = line.len() - 1 - e.file_name.len();
            &&& line.subrange(3, 3 + role.len() as int) == role
            &&& role.len() <= 6 ==> line.subrange(11, 11 + e.file_id.len() as int) == e.file_id
            &&& line.last() == '\n'
            &&& 0 <= n && line.subrange(n, line.len() - 1) == e.file_name
        }),
{
    reveal_strlit("  [");
    reveal_strlit("] ");
    reveal_strlit("\n");
    let line = entry_line(e);
    let role = role_name_of(role_of(e));
    let n = line.len() - 1 - e.file_name.len();
    assert(line.subrange(3, 3 + role.len() as int) =~= role);
    if role.len() <= 6 {
        assert(line.subrange(11, 11 + e.file_id.len() as int) =~= e.file_id);
    }
    assert(line.subrange(n, line.len() - 1) =~= e.file_name);
}

/// Erases are listed by their ids, in their order, with a comma and a space between any two.
pub proof fn law_erase_list(a: Seq<Erase>, b: Seq<Erase>, one: Erase)
    requires
        a.len() > 0,
        b.len() > 0,
    ensures
        erase_list(seq![one]) == one.file_id,
        erase_list(a + b) == erase_list(a) + ", "@ + erase_list(b),
    decreases b.len(),
{
    if b.len() == 1 {
        assert((a + b).drop_last() =~= a);
    } else {
        assert((a + b).drop_last() =~= a + b.drop_last());
        law_erase_list(a, b.drop_last(), one);
        assert(erase_list(a + b) =~= erase_list(a) + ", "@ + erase_list(b));
    }
}

/// The columns of an entry: its address in eight hexadecimal digits behind `0x`, or as many
/// blanks if it has none; its size in decimal and `B`, or the word `marker`; both always as wide
/// as any other, for sizes of up to ten digits.
pub proof fn law_columns(address: u32, size: u32)
    ensures
        address == 0 ==> address_column(address) == crate::text::repeated(' ', 10),
        address != 0 ==> crate::text::opens(address_column(address), "0x"@)
            && address_column(address).skip(2) == padded_left(upper(hex(address as nat)), '0', 8),
        size == 0 ==> crate::text::closes(size_column(size), "marker"@) && size_column(size).len()
            == 12,
        size != 0 ==> crate::text::closes(size_column(size), decimal(size as nat) + " B"@),
        size != 0 && decimal(size as nat).len() <= 10 ==> size_column(size).len() == 12,
{
    reveal_strlit("0x");
    reveal_strlit("          ");
    reveal_strlit("      marker");
    reveal_strlit("marker");
    reveal_strlit(" B");
    let a = address_column(address);
    let s = size_column(size);
    let d = decimal(size as nat);
    if address == 0 {
        assert(a =~= crate::text::repeated(' ', 10));
    } else {
        assert(a.take(2) =~= "0x"@);
        assert(a.skip(2) =~= padded_left(upper(hex(address as nat)), '0', 8));
    }
    if size == 0 {
        assert(s.skip(6) =~= "marker"@);
    } else {
        assert(s.skip(s.len() - (d + " B"@).len()) =~= d + " B"@);
    }
}

/// What is printed of a file: its product and version, its size, how its CRCs came out, then
/// its entries, and its plan at the end.
pub proof fn law_report(p: Package)
    ensures
        ({
            let r = report_of(p);
            &&& crate::text::holds(r, " : "@ + p.product_name + " ("@)
            &&& crate::text::holds(r, " ("@ + p.product_version + ")\n"@)
            &&& crate::text::holds(r, " : "@ + decimal(p.size as nat) + " bytes\n"@)
            &&& crate::text::holds(
                r,
                " header "@ + (if p.header_crc_ok {
                    "ok"@
                } else {
                    "BAD"@
                }) + ", payload "@,
            )
            &&& crate::text::holds(
                r,
                ", payload "@ + (match p.payload_crc_ok {
                    Some(true) => "ok"@,
                    Some(false) => "BAD"@,
                    None => "n/a"@,
                }) + "\n"@,
            )
            &&& crate::text::holds(r, entry_lines(p.entries) + plan_lines(planned(p.entries)))
            &&& crate::text::closes(r, plan_lines(planned(p.entries)))
        }),
{
    let s0 = "Product : "@;
    let s1 = " ("@;
    let s2 = ")\nSize    : "@;
    let s3 = " bytes\nCRC     : header "@;
    let s4 = ", payload "@;
    let s5 = "\nEntries :\n"@;
    let v0 = p.product_name;
    let v1 = p.product_version;
    let v2 = decimal(p.size as nat);
    let v3 = crc_word(Some(p.header_crc_ok));
    let v4 = crc_word(p.payload_crc_ok);
    let v5 = entry_lines(p.entries) + plan_lines(planned(p.entries));
    let none = Seq::<char>::empty();
    let r = report_of(p);
    assert(crate::text::closes(s0, " : "@)) by {
        reveal_strlit("Product : ");
        reveal_strlit(" : ");
        assert(s0.skip(7) =~= " : "@);
    }
    assert(s1.take(s1.len() as int) =~= s1 && s1.skip(0) =~= s1);
    assert(crate::text::opens(s2, ")\n"@) && crate::text::closes(s2, " : "@)) by {
        reveal_strlit(")\nSize    : ");
        reveal_strlit(")\n");
        reveal_strlit(" : ");
        assert(s2.take(2) =~= ")\n"@);
        assert(s2.skip(s2.len() - 3) =~= " : "@);
    }
    assert(crate::text::opens(s3, " bytes\n"@) && crate::text::closes(s3, " header "@)) by {
        reveal_strlit(" bytes\nCRC     : header ");
        reveal_strlit(" bytes\n");
        reveal_strlit(" header ");
        assert(s3.take(7) =~= " bytes\n"@);
        assert(s3.skip(s3.len() - 8) =~= " header "@);
    }
    assert(s4.take(s4.len() as int) =~= s4 && s4.skip(0) =~= s4);
    assert(crate::text::opens(s5, "\n"@)) by {
        reveal_strlit("\nEntries :\n");
        reveal_strlit("\n");
        assert(s5.take(1) =~= "\n"@);
    }
    let t1 = s0 + v0 + s1 + v1;
    let t2 = t1 + s2 + v2;
    let t3 = t2 + s3 + v3;
    let r4 = v4 + s5 + v5;
    let r3 = v3 + s4 + r4;
    let r2 = v2 + s3 + r3;
    crate::text::lemma_holds_between(none, s0, v0, s1, v1 + s2 + r2, " : "@, s1);
    crate::text::lemma_holds_between(s0 + v0, s1, v1, s2, r2, s1, ")\n"@);
    crate::text::lemma_holds_between(t1, s2, v2, s3, r3, " : "@, " bytes\n"@);
    crate::text::lemma_holds_between(t2, s3, v3, s4, r4, " header "@, s4);
    crate::text::lemma_holds_between(t3, s4, v4, s5, v5, s4, "\n"@);
    crate::text::lemma_holds_within(t3 + s4 + v4 + s5, v5, none);
    let head = t3 + s4 + v4 + s5;
    assert(head + entry_lines(p.entries) + plan_lines(planned(p.entries)) =~= head + v5);
    crate::text::lemma_taken_apart(s0, v0, s1, v1, s2, v2, s3, v3, s4, v4, s5, v5);
    assert(head + v5 + none =~= head + v5);
    let plan = plan_lines(planned(p.entries));
    assert(r.skip(r.len() - plan.len()) =~= plan);
}

/// What is printed of a plan: the ids of its two loaders (a dash for a second stage that is not
/// there) and how many partitions, erases and markers with data it has.
pub proof fn law_plan_lines(p: Plan)
    ensures
        ({
            let r = plan_lines(Some(p));
            &&& crate::text::holds(r, "FDL1="@ + p.fdl1.file_id + ", FDL2="@)
            &&& crate::text::holds(
                r,
                ", FDL2="@ + (match p.fdl2 {
                    Some(e) => e.file_id,
                    None => "-"@,
                }) + ", "@,
            )
            &&& crate::text::holds(r, ", "@ + decimal(p.partitions.len()) + " partition(s), "@)
            &&& crate::text::holds(
                r,
                " partition(s), "@ + decimal(p.erases.len()) + " erase(s), "@,
            )
            &&& crate::text::holds(
                r,
                " erase(s), "@ + decimal(p.data_markers.len()) + " data-marker(s)\n"@,
            )
        }),
{
    let s0 = "\nPlan    : FDL1="@;
    let s1 = ", FDL2="@;
    let s2 = ", "@;
    let s3 = " partition(s), "@;
    let s4 = " erase(s), "@;
    let s5 = " data-marker(s)\n"@;
    let v0 = p.fdl1.file_id;
    let v1 = match p.fdl2 {
        Some(e) => e.file_id,
        None => "-"@,
    };
    let v2 = decimal(p.partitions.len());
    let v3 = decimal(p.erases.len());
    let v4 = decimal(p.data_markers.len());
    let v5 = if p.erases.len() == 0 {
        Seq::empty()
    } else {
        "          erases (--format): "@ + erase_list(p.erases) + "\n"@
    };
    let none = Seq::<char>::empty();
    let r = plan_lines(Some(p));
    assert(crate::text::closes(s0, "FDL1="@)) by {
        reveal_strlit("\nPlan    : FDL1=");
        reveal_strlit("FDL1=");
        assert(s0.skip(s0.len() - 5) =~= "FDL1="@);
    }
    assert(s1.take(s1.len() as int) =~= s1 && s1.skip(0) =~= s1);
    assert(s2.take(s2.len() as int) =~= s2 && s2.skip(0) =~= s2);
    assert(s3.take(s3.len() as int) =~= s3 && s3.skip(0) =~= s3);
    assert(s4.take(s4.len() as int) =~= s4 && s4.skip(0) =~= s4);
    assert(s5.take(s5.len() as int) =~= s5);
    let t1 = s0 + v0 + s1 + v1;
    let t2 = t1 + s2 + v2;
    let t3 = t2 + s3 + v3;
    let r4 = v4 + s5 + v5;
    let r3 = v3 + s4 + r4;
    let r2 = v2 + s3 + r3;
    crate::text::lemma_holds_between(none, s0, v0, s1, v1 + s2 + r2, "FDL1="@, s1);
    crate::text::lemma_holds_between(s0 + v0, s1, v1, s2, r2, s1, s2);
    crate::text::lemma_holds_between(t1, s2, v2, s3, r3, s2, s3);
    crate::text::lemma_holds_between(t2, s3, v3, s4, r4, s3, s4);
    crate::text::lemma_holds_between(t3, s4, v4, s5, v5, s4, s5);
    crate::text::lemma_taken_apart(s0, v0, s1, v1, s2, v2, s3, v3, s4, v4, s5, v5);
    assert(r == t3 + s4 + v4 + s5 + v5);
}

/// The line of a port begins with its name, and ends with what it is and what is said of it;
/// between them stand its ids, in a column of its own for names of up to eight characters.
pub proof fn law_port_line(name: Seq<char>, kind: PortKind)
    ensures
        ({
            let line = port_line_of(name, kind);
            let ids = port_ids(kind);
            &&& crate::text::opens(line, name)
            &&& crate::text::closes(line, port_description(kind) + port_tag(kind))
            &&& name.len() <= 8 ==> line.subrange(9, 9 + ids.len() as int) == ids
        }),
{
    reveal_strlit(" ");
    let line = port_line_of(name, kind);
    let ids = port_ids(kind);
    let about = port_description(kind) + port_tag(kind);
    assert(line.take(name.len() as int) =~= name);
    assert(line.skip(line.len() - about.len()) =~= about);
    if name.len() <= 8 {
        assert(line.subrange(9, 9 + ids.len() as int) =~= ids);
    }
}

/// What a port is, in words: the product of a USB device, if it tells it.
pub proof fn law_port_description(kind: PortKind)
    ensures
        match kind {
            PortKind::Usb(_, _, product) => port_description(kind) == if product is Some {
                product->0@
            } else {
                "USB serial"@
            },
            PortKind::Bluetooth => port_description(kind) == "Bluetooth"@,
            PortKind::Pci => port_description(kind) == "PCI"@,
            PortKind::Unknown => port_description(kind) == "Unknown"@,
        },
{
}

} // verus!
