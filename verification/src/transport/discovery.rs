//! Telling USB serial ports apart by VID/PID.
//!
//! The ports come from whoever can enumerate them; what is found among them is
//! decided here.

use vstd::prelude::*;

use crate::text::{chars_of, finishes_with, holds, is_suffix, is_within, owned, same_text};
use crate::transport::{DOWNLOAD_PID, DOWNLOAD_VID, MODULE_VID};

verus! {

/// A discovered serial port with its USB identity.
#[derive(Debug, Clone)]
pub struct PortInfo {
    /// OS port name (e.g. `COM34`, `/dev/ttyUSB0`).
    pub name: String,
    /// USB vendor id, if a USB port.
    pub vid: Option<u16>,
    /// USB product id, if a USB port.
    pub pid: Option<u16>,
    /// Product string, if known.
    pub product: Option<String>,
}

/// What a [`PortInfo`] says, with its texts as characters.
pub struct Port {
    pub name: Seq<char>,
    pub vid: Option<u16>,
    pub pid: Option<u16>,
    pub product: Option<Seq<char>>,
}

/// A text that may be there, as characters.
pub open spec fn text_view(s: Option<String>) -> Option<Seq<char>> {
    match s {
        Some(s) => Some(s@),
        None => None,
    }
}

impl View for PortInfo {
    type V = Port;

    open spec fn view(&self) -> Port {
        Port {
            name: self.name@,
            vid: self.vid,
            pid: self.pid,
            product: text_view(self.product),
        }
    }
}

/// The views of some ports.
pub open spec fn port_views(v: Seq<PortInfo>) -> Seq<Port> {
    v.map_values(|p: PortInfo| p@)
}

/// A copy of a text that may be there.
pub fn copy_text(s: &Option<String>) -> (r: Option<String>)
    ensures
        text_view(r) == text_view(*s),
{
    match s {
        Some(s) => Some(owned(s.as_str())),
        None => None,
    }
}

impl PortInfo {
    /// A copy of the port.
    #[must_use]
    pub fn copy(&self) -> (r: PortInfo)
        ensures
            r@ == self@,
    {
        PortInfo {
            name: owned(self.name.as_str()),
            vid: self.vid,
            pid: self.pid,
            product: copy_text(&self.product),
        }
    }
}

impl Port {
    /// Whether this is a device in download mode (`0525:a4a7`).
    pub open spec fn is_download(self) -> bool {
        self.vid == Some(DOWNLOAD_VID) && self.pid == Some(DOWNLOAD_PID)
    }

    /// Whether this is a module in normal mode (`1782:xxxx`).
    pub open spec fn is_module(self) -> bool {
        self.vid == Some(MODULE_VID)
    }

    /// Whether the product string marks an AT port: it ends in ` AT`, or holds ` AT `
    /// or `AT (` (so that `LUAT` and `AP Diag` do not count).
    pub open spec fn is_at(self) -> bool {
        self.product matches Some(d) && (finishes_with(d, " AT"@) || holds(d, " AT "@) || holds(
            d,
            "AT ("@,
        ))
    }
}

/// The first of some ports that is a download port.
pub open spec fn first_download(ports: Seq<Port>) -> Option<Port>
    decreases ports.len(),
{
    if ports.len() == 0 {
        None
    } else if ports[0].is_download() {
        Some(ports[0])
    } else {
        first_download(ports.skip(1))
    }
}

/// The module ports among some ports, in their order.
pub open spec fn module_ports(ports: Seq<Port>) -> Seq<Port> {
    ports.filter(|p: Port| p.is_module())
}

/// The first of some ports that is an AT port.
pub open spec fn first_at(ports: Seq<Port>) -> Option<Port>
    decreases ports.len(),
{
    if ports.len() == 0 {
        None
    } else if ports[0].is_at() {
        Some(ports[0])
    } else {
        first_at(ports.skip(1))
    }
}

/// True if a serial port with this exact OS name is among those enumerated. Used
/// to track one fixture's device across insert/remove without confusing it with
/// a neighbouring station's port.
#[must_use]
pub fn is_present(ports: &[PortInfo], name: &str) -> (r: bool)
    ensures
        r == (exists|i: int| 0 <= i < ports@.len() && (#[trigger] ports@[i])@.name == name@),
{
    let mut i: usize = 0;
    while i < ports.len()
        invariant
            i <= ports@.len(),
            forall|k: int| 0 <= k < i ==> (#[trigger] ports@[k])@.name != name@,
        decreases ports.len() - i,
    {
        if same_text(ports[i].name.as_str(), name) {
            return true;
        }
        i += 1;
    }
    false
}

/// The download-mode port (`0525:a4a7`) among those enumerated, if present.
#[must_use]
pub fn find_download_port(ports: &[PortInfo]) -> (r: Option<PortInfo>)
    ensures
        match r {
            Some(p) => first_download(port_views(ports@)) == Some(p@),
            None => first_download(port_views(ports@)) is None,
        },
{
    let ghost all = port_views(ports@);
    let mut i: usize = 0;
    proof {
        assert(all.skip(0) =~= all);
    }
    while i < ports.len()
        invariant
            i <= ports@.len(),
            all == port_views(ports@),
            first_download(all) == first_download(all.skip(i as int)),
        decreases ports.len() - i,
    {
        let p: &PortInfo = &ports[i];
        proof {
            assert(all.skip(i as int)[0] == p@);
            assert(all.skip(i as int).skip(1) =~= all.skip(i + 1));
        }
        if p.vid == Some(DOWNLOAD_VID) && p.pid == Some(DOWNLOAD_PID) {
            return Some(p.copy());
        }
        i += 1;
    }
    None
}

/// All normal-mode module ports (`1782:xxxx`) among those enumerated.
#[must_use]
pub fn find_module_ports(ports: &[PortInfo]) -> (r: Vec<PortInfo>)
    ensures
        port_views(r@) == module_ports(port_views(ports@)),
{
    let ghost all = port_views(ports@);
    let ghost keep = |p: Port| p.is_module();
    let mut out: Vec<PortInfo> = Vec::new();
    let mut i: usize = 0;
    proof {
        reveal(Seq::filter);
        assert(port_views(out@) =~= all.take(0).filter(keep));
    }
    while i < ports.len()
        invariant
            i <= ports@.len(),
            all == port_views(ports@),
            keep == (|p: Port| p.is_module()),
            port_views(out@) == all.take(i as int).filter(keep),
        decreases ports.len() - i,
    {
        let p: &PortInfo = &ports[i];
        let ghost done = port_views(out@);
        proof {
            reveal(Seq::filter);
            assert(all.take(i + 1).drop_last() =~= all.take(i as int));
            assert(all.take(i + 1).last() == p@);
        }
        if p.vid == Some(MODULE_VID) {
            out.push(p.copy());
            proof {
                assert(port_views(out@) =~= done.push(p@));
            }
        }
        i += 1;
    }
    proof {
        assert(all.take(i as int) =~= all);
    }
    out
}

/// Whether the product string of a port marks an AT port.
#[must_use]
pub fn is_at_port(p: &PortInfo) -> (r: bool)
    ensures
        r == p@.is_at(),
{
    match &p.product {
        Some(product) => {
            let d: Vec<char> = chars_of(product.as_str());
            is_suffix(&d, &chars_of(" AT")) || is_within(&d, &chars_of(" AT ")) || is_within(
                &d,
                &chars_of("AT ("),
            )
        },
        None => false,
    }
}

/// The first AT port among some ports.
#[must_use]
pub fn find_at_port(ports: &[PortInfo]) -> (r: Option<PortInfo>)
    ensures
        match r {
            Some(p) => first_at(port_views(ports@)) == Some(p@),
            None => first_at(port_views(ports@)) is None,
        },
{
    let ghost all = port_views(ports@);
    let mut i: usize = 0;
    proof {
        assert(all.skip(0) =~= all);
    }
    while i < ports.len()
        invariant
            i <= ports@.len(),
            all == port_views(ports@),
            first_at(all) == first_at(all.skip(i as int)),
        decreases ports.len() - i,
    {
        let p: &PortInfo = &ports[i];
        proof {
            assert(all.skip(i as int)[0] == p@);
            assert(all.skip(i as int).skip(1) =~= all.skip(i + 1));
        }
        if is_at_port(p) {
            return Some(p.copy());
        }
        i += 1;
    }
    None
}

/// A port in download mode is not taken for a module, nor a module for one in download
/// mode.
pub proof fn law_download_and_module_ports_differ(p: Port)
    ensures
        !(p.is_download() && p.is_module()),
{
}

/// What to do next while waiting for the download port.
#[derive(Debug)]
pub enum PortWait {
    /// It is there.
    Found(PortInfo),
    /// Look again.
    Again,
    /// Give up.
    GiveUp,
}

/// Decide how to go on waiting for the download port, given whether the time is up and,
/// if not, the ports enumerated now.
#[must_use]
pub fn download_wait_step(time_up: bool, ports: &[PortInfo]) -> (r: PortWait)
    ensures
        if time_up {
            r is GiveUp
        } else {
            match first_download(port_views(ports@)) {
                Some(p) => r matches PortWait::Found(found) && found@ == p,
                None => r is Again,
            }
        },
{
    if time_up {
        return PortWait::GiveUp;
    }
    match find_download_port(ports) {
        Some(p) => PortWait::Found(p),
        None => PortWait::Again,
    }
}

/// Whether waiting for the module is done, given the module ports that are there: once
/// there is one, or when the time is up.
#[must_use]
pub fn module_wait_is_done(mods: &[PortInfo], time_up: bool) -> (r: bool)
    ensures
        r == (mods@.len() > 0 || time_up),
{
    mods.len() > 0 || time_up
}

// ---------------------------------------------------------------------------
// What looking for ports promises
// ---------------------------------------------------------------------------

/// What tells ports apart: a port in download mode has the USB ids `0525:a4a7`, one of a
/// module in normal mode has the vendor id `1782`; a port without such ids is neither.
pub proof fn law_ports_are_told_by_their_ids(p: Port)
    ensures
        p.is_download() <==> p.vid == Some(0x0525u16) && p.pid == Some(0xA4A7u16),
        p.is_module() <==> p.vid == Some(0x1782u16),
{
}

/// The download port that is found is one of the ports, is in download mode, and none
/// before it is; if none is found, none of the ports is in download mode.
pub proof fn law_first_download_port_is_found(ports: Seq<Port>)
    ensures
        match first_download(ports) {
            Some(p) => exists|i: int|
                0 <= i < ports.len() && #[trigger] ports[i] == p && p.is_download() && forall|
                    j: int,
                |
                    0 <= j < i ==> !(#[trigger] ports[j]).is_download(),
            None => forall|j: int| 0 <= j < ports.len() ==> !(#[trigger] ports[j]).is_download(),
        },
    decreases ports.len(),
{
    if ports.len() > 0 {
        let rest = ports.skip(1);
        if ports[0].is_download() {
            assert(ports[0] == first_download(ports)->0);
        } else {
            law_first_download_port_is_found(rest);
            match first_download(rest) {
                Some(p) => {
                    let i = choose|i: int|
                        0 <= i < rest.len() && #[trigger] rest[i] == p && p.is_download() && forall|
                            j: int,
                        |
                            0 <= j < i ==> !(#[trigger] rest[j]).is_download();
                    assert(ports[i + 1] == p);
                    assert forall|j: int| 0 <= j < i + 1 implies !(
                    #[trigger] ports[j]).is_download() by {
                        if j > 0 {
                            assert(rest[j - 1] == ports[j]);
                        }
                    }
                },
                None => {
                    assert forall|j: int| 0 <= j < ports.len() implies !(
                    #[trigger] ports[j]).is_download() by {
                        if j > 0 {
                            assert(rest[j - 1] == ports[j]);
                        }
                    }
                },
            }
        }
    }
}

/// The AT port that is found is one of the ports, its product says so, and none before it
/// does; if none is found, no product of the ports says so.
pub proof fn law_first_at_port_is_found(ports: Seq<Port>)
    ensures
        match first_at(ports) {
            Some(p) => exists|i: int|
                0 <= i < ports.len() && #[trigger] ports[i] == p && p.is_at() && forall|j: int|
                    0 <= j < i ==> !(#[trigger] ports[j]).is_at(),
            None => forall|j: int| 0 <= j < ports.len() ==> !(#[trigger] ports[j]).is_at(),
        },
    decreases ports.len(),
{
    if ports.len() > 0 {
        let rest = ports.skip(1);
        if ports[0].is_at() {
            assert(ports[0] == first_at(ports)->0);
        } else {
            law_first_at_port_is_found(rest);
            match first_at(rest) {
                Some(p) => {
                    let i = choose|i: int|
                        0 <= i < rest.len() && #[trigger] rest[i] == p && p.is_at() && forall|j: int|
                            0 <= j < i ==> !(#[trigger] rest[j]).is_at();
                    assert(ports[i + 1] == p);
                    assert forall|j: int| 0 <= j < i + 1 implies !(#[trigger] ports[j]).is_at() by {
                        if j > 0 {
                            assert(rest[j - 1] == ports[j]);
                        }
                    }
                },
                None => {
                    assert forall|j: int| 0 <= j < ports.len() implies !(
                    #[trigger] ports[j]).is_at() by {
                        if j > 0 {
                            assert(rest[j - 1] == ports[j]);
                        }
                    }
                },
            }
        }
    }
}

/// Every port of a module is found, once, and no other; they come in the order in which
/// they were enumerated.
pub proof fn law_module_ports_are_found_in_order(a: Seq<Port>, p: Port, b: Seq<Port>)
    ensures
        module_ports(Seq::empty()) == Seq::<Port>::empty(),
        module_ports(a + seq![p] + b) == module_ports(a) + (if p.vid == Some(0x1782u16) {
            seq![p]
        } else {
            Seq::empty()
        }) + module_ports(b),
{
    crate::bytes::lemma_kept_around(a, p, b, |p: Port| p.is_module());
}

/// A product marks an AT port if it ends in ` AT`, whatever comes before, or holds ` AT ` or
/// `AT (` anywhere; one that holds none of `AT` at all does not.
pub proof fn law_at_port_is_told_by_its_product(p: Port, before: Seq<char>, after: Seq<char>)
    requires
        p.product is Some,
    ensures
        p.product->0 == before + " AT"@ ==> p.is_at(),
        p.product->0 == before + " AT "@ + after ==> p.is_at(),
        p.product->0 == before + "AT ("@ + after ==> p.is_at(),
        p.is_at() ==> holds(p.product->0, "AT"@),
{
    reveal_strlit(" AT");
    reveal_strlit(" AT ");
    reveal_strlit("AT (");
    reveal_strlit("AT");
    let d = p.product->0;
    let at = before.len() as int;
    if d == before + " AT"@ {
        assert(d.subrange(at, at + 3) =~= " AT"@);
    }
    if d == before + " AT "@ + after {
        assert(d.subrange(at, at + 4) =~= " AT "@);
        assert(crate::text::stands_at(d, " AT "@, at));
    }
    if d == before + "AT ("@ + after {
        assert(d.subrange(at, at + 4) =~= "AT ("@);
        assert(crate::text::stands_at(d, "AT ("@, at));
    }
    if p.is_at() {
        if finishes_with(d, " AT"@) {
            let i = d.len() - 3;
            assert(d[i + 1] == d.subrange(i, i + 3)[1] && d[i + 2] == d.subrange(i, i + 3)[2]);
            assert(d.subrange(i + 1, i + 3) =~= "AT"@);
            assert(crate::text::stands_at(d, "AT"@, i + 1));
        } else if holds(d, " AT "@) {
            let i = choose|i: int| crate::text::stands_at(d, " AT "@, i);
            assert(d[i + 1] == d.subrange(i, i + 4)[1] && d[i + 2] == d.subrange(i, i + 4)[2]);
            assert(d.subrange(i + 1, i + 3) =~= "AT"@);
            assert(crate::text::stands_at(d, "AT"@, i + 1));
        } else {
            let i = choose|i: int| crate::text::stands_at(d, "AT ("@, i);
            assert(d[i] == d.subrange(i, i + 4)[0] && d[i + 1] == d.subrange(i, i + 4)[1]);
            assert(d.subrange(i, i + 2) =~= "AT"@);
            assert(crate::text::stands_at(d, "AT"@, i));
        }
    }
}

} // verus!
