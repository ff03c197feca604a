//! A protocol-simulating [`Transport`] for hardware-free end-to-end flash tests.
//!
//! [`MockTransport`] answers the PDL and BSL protocols like a healthy device —
//! PDL command acks, the BSL `VER` banner after `EXEC`, an `ACK` for every BSL
//! write, and the bytes it holds for every `READ_FLASH` in range — so the entire
//! [`crate::flash::flasher::Flasher`] flow can be exercised with no serial port.
//! Optional fault injection drops selected BSL acks to exercise the timeout /
//! adaptive-retry paths, or spoils what is read back.
//!
//! The device is modelled by [`Device`]; [`settled`] says what it makes of its
//! input.

use std::collections::VecDeque;

use vstd::prelude::*;

use crate::bsl::{
    body_of, build_message, cmd, escaped, law_escaped_has_no_flag, law_parse_undoes_build,
    law_short_data_is_frameable, law_unescape_undoes_escape, message_of, parse_message, parsed, rep,
    unescape, unescaped, Checksum, FLAG,
};
use crate::bytes::{
    be16_at, be32_at, be32_bytes, copy_range, find_byte, index_from, join_be16, join_be32, le16_at,
    le32_at, lemma_index_from_is,
};
use crate::flash::bsl_io::{read_request, start_of};
use crate::flash::laws::{image_orders, joined, law_pieces_make_the_whole, midst_orders, pieces};
use crate::pdl::{header, header_of, Cmd, HEADER_LEN, MAGIC};
use crate::plan::low32;
use crate::transport::{Event, Transport, TransportError};

verus! {

/// Which protocol a device speaks.
#[derive(Debug, Clone, Copy, PartialEq, Eq, Structural)]
pub enum Mode {
    /// The first-stage loader.
    Pdl,
    /// The second-stage loader.
    Bsl,
}

// ---------------------------------------------------------------------------
// The device
// ---------------------------------------------------------------------------

/// A simulated device.
pub struct Device {
    /// Which protocol it speaks.
    pub mode: Mode,
    /// Whether it was told to execute the first stage.
    pub exec_seen: bool,
    /// What has come in and was not dealt with yet.
    pub input: Seq<u8>,
    /// What is to go out.
    pub output: Seq<u8>,
    /// How many BSL frames came in.
    pub frames: usize,
    /// The frames, counted from 1, that it does not reply to.
    pub drops: Seq<usize>,
    /// What its flash holds: images with their addresses, the latest last.
    pub flash: Seq<(u32, Seq<u8>)>,
    /// The image that is being written.
    pub stage: Option<(u32, Seq<u8>)>,
    /// Whether it spoils what is read back.
    pub corrupt: bool,
}

/// The version banner: `Spreadtrum Boot Block version 1.2` and a NUL.
pub open spec fn banner() -> Seq<u8> {
    seq![
        0x53u8, 0x70u8, 0x72u8, 0x65u8, 0x61u8, 0x64u8, 0x74u8, 0x72u8, 0x75u8, 0x6Du8, 0x20u8,
        0x42u8, 0x6Fu8, 0x6Fu8, 0x74u8, 0x20u8, 0x42u8, 0x6Cu8, 0x6Fu8, 0x63u8, 0x6Bu8, 0x20u8,
        0x76u8, 0x65u8, 0x72u8, 0x73u8, 0x69u8, 0x6Fu8, 0x6Eu8, 0x20u8, 0x31u8, 0x2Eu8, 0x32u8,
        0x00u8,
    ]
}

/// The reply to a PDL message: status OK.
pub open spec fn pdl_ok() -> Seq<u8> {
    header_of(4) + seq![0u8, 0u8, 0u8, 0u8]
}

/// What the flash holds from `addr` on, `n` bytes of it: they lie in one image, the
/// latest that has them.
pub open spec fn recalled(flash: Seq<(u32, Seq<u8>)>, addr: u32, n: nat) -> Option<Seq<u8>>
    decreases flash.len(),
{
    if flash.len() == 0 {
        None
    } else {
        let (base, image) = flash.last();
        if base <= addr && addr + n <= base + image.len() {
            Some(image.subrange(addr - base, addr - base + n))
        } else {
            recalled(flash.drop_last(), addr, n)
        }
    }
}

/// Some bytes with the first one flipped.
pub open spec fn spoiled(bytes: Seq<u8>) -> Seq<u8> {
    if bytes.len() == 0 {
        bytes
    } else {
        bytes.update(0, bytes[0] ^ 0xFF)
    }
}

/// The longest data that a reply can have: its size field has 16 bits.
pub const MAX_REPLY: u32 = 65535;

impl Device {
    /// What a read request brings: data of the read type if it is in range, else a
    /// refusal.
    pub open spec fn read(self, data: Seq<u8>) -> (u16, Seq<u8>) {
        if data.len() < 8 || be32_at(data, 4) > MAX_REPLY {
            (rep::INVALID_CMD, Seq::empty())
        } else {
            match recalled(self.flash, be32_at(data, 0), be32_at(data, 4) as nat) {
                None => (rep::INVALID_CMD, Seq::empty()),
                Some(bytes) => (
                    rep::READ_FLASH,
                    if self.corrupt {
                        spoiled(bytes)
                    } else {
                        bytes
                    },
                ),
            }
        }
    }

    /// What a BSL command does to the device, and the reply to it.
    pub open spec fn obeyed(self, kind: u16, data: Seq<u8>) -> (Device, (u16, Seq<u8>)) {
        let ack = (rep::ACK, Seq::<u8>::empty());
        if kind == cmd::START_DATA && data.len() >= 4 {
            (Device { stage: Some((be32_at(data, 0), Seq::empty())), ..self }, ack)
        } else if kind == cmd::MIDST_DATA && self.stage is Some {
            let (addr, image) = self.stage->0;
            (Device { stage: Some((addr, image + data)), ..self }, ack)
        } else if kind == cmd::END_DATA && self.stage is Some {
            (Device { stage: None, flash: self.flash.push(self.stage->0), ..self }, ack)
        } else if kind == cmd::READ_FLASH {
            (self, self.read(data))
        } else {
            (self, ack)
        }
    }

    /// What a BSL frame does to the device. `NORMAL_RESET` gets no reply, nor does
    /// a frame that is to be dropped.
    pub open spec fn framed(self, body: Seq<u8>) -> Device {
        let kind = if body.len() >= 2 {
            be16_at(body, 0)
        } else {
            0
        };
        let data = match parsed(body) {
            Ok((_, data)) => data,
            Err(_) => Seq::empty(),
        };
        let counted = Device {
            frames: if self.frames == usize::MAX {
                0
            } else {
                (self.frames + 1) as usize
            },
            ..self
        };
        let (done, reply) = counted.obeyed(kind, data);
        if kind == cmd::NORMAL_RESET || done.drops.contains(done.frames) {
            done
        } else {
            Device {
                output: done.output + message_of(reply.0, reply.1, Checksum::Sprd),
                ..done
            }
        }
    }

    /// What the device makes of the PDL message at the beginning of its input, once
    /// that is there in full.
    pub open spec fn pdl_taken(self) -> Option<Device> {
        let len = le16_at(self.input, 1) as int;
        let total = HEADER_LEN + len;
        if self.input.len() < HEADER_LEN || self.input[0] != MAGIC || self.input.len() < total
            || len < 4 {
            None
        } else {
            let rest = self.input.skip(total);
            if le32_at(self.input, HEADER_LEN as int) == Cmd::Exec.opcode() {
                Some(Device { exec_seen: true, input: rest, ..self })
            } else {
                Some(Device { input: rest, output: self.output + pdl_ok(), ..self })
            }
        }
    }

    /// The device has been told to execute the first stage: at the first flag it
    /// sends its banner and goes over to BSL.
    pub open spec fn roused(self) -> Option<Device> {
        if index_from(self.input, FLAG, 0) is None {
            None
        } else {
            Some(
                Device {
                    mode: Mode::Bsl,
                    input: Seq::empty(),
                    output: self.output + message_of(rep::VER, banner(), Checksum::Sprd),
                    ..self
                },
            )
        }
    }

    /// What the device makes of the first BSL frame in its input, once that is there
    /// in full.
    pub open spec fn frame_taken(self) -> Option<Device> {
        match index_from(self.input, FLAG, 0) {
            None => None,
            Some(open) => match index_from(self.input, FLAG, open + 1) {
                None => None,
                Some(close) => Some(
                    Device { input: self.input.skip(close + 1), ..self }.framed(
                        unescaped(self.input.subrange(open + 1, close)),
                    ),
                ),
            },
        }
    }

    /// The next thing that the device makes of its input.
    pub open spec fn stepped(self) -> Option<Device> {
        match self.mode {
            Mode::Pdl => if self.exec_seen {
                self.roused()
            } else {
                self.pdl_taken()
            },
            Mode::Bsl => self.frame_taken(),
        }
    }
}

/// Whatever the device makes of its input uses some of it up.
proof fn lemma_step_consumes(d: Device)
    ensures
        d.stepped() matches Some(next) ==> next.input.len() < d.input.len(),
{
    crate::bytes::lemma_index_from(d.input, FLAG, 0);
    if let Some(open) = index_from(d.input, FLAG, 0) {
        crate::bytes::lemma_index_from(d.input, FLAG, open + 1);
    }
}

/// What the device makes of all of its input.
pub open spec fn settled(d: Device) -> Device
    decreases d.input.len(),
    via settled_terminates
{
    match d.stepped() {
        None => d,
        Some(next) => settled(next),
    }
}

#[via_fn]
proof fn settled_terminates(d: Device) {
    lemma_step_consumes(d);
}

// ---------------------------------------------------------------------------
// The transport
// ---------------------------------------------------------------------------

/// Images with their addresses, as sequences.
pub open spec fn image_views(v: Seq<(u32, Vec<u8>)>) -> Seq<(u32, Seq<u8>)> {
    v.map_values(|m: (u32, Vec<u8>)| (m.0, m.1@))
}

/// An image with its address, as a sequence.
pub open spec fn image_view(v: Option<(u32, Vec<u8>)>) -> Option<(u32, Seq<u8>)> {
    match v {
        Some((addr, image)) => Some((addr, image@)),
        None => None,
    }
}

/// A mock device that speaks just enough of the download protocol to drive a
/// full flash. Construct with [`MockTransport::default`], or
/// [`MockTransport::dropping_bsl_acks`] to inject timeouts.
pub struct MockTransport {
    mode: Mode,
    exec_seen: bool,
    in_buf: Vec<u8>,
    out: VecDeque<u8>,
    bsl_frames: usize,
    drop_acks: Vec<usize>,
    flash: Vec<(u32, Vec<u8>)>,
    stage: Option<(u32, Vec<u8>)>,
    corrupt: bool,
    trace: Ghost<Seq<Event>>,
}

impl View for MockTransport {
    type V = Device;

    closed spec fn view(&self) -> Device {
        Device {
            mode: self.mode,
            exec_seen: self.exec_seen,
            input: self.in_buf@,
            output: self.out@,
            frames: self.bsl_frames,
            drops: self.drop_acks@,
            flash: image_views(self.flash@),
            stage: image_view(self.stage),
            corrupt: self.corrupt,
        }
    }
}

/// A healthy device that was just switched on, with nothing in its flash.
pub open spec fn fresh() -> Device {
    Device {
        mode: Mode::Pdl,
        exec_seen: false,
        input: Seq::empty(),
        output: Seq::empty(),
        frames: 0,
        drops: Seq::empty(),
        flash: Seq::empty(),
        stage: None,
        corrupt: false,
    }
}

impl Default for MockTransport {
    fn default() -> (r: Self)
        ensures
            r@ == fresh(),
            r.trace() == Seq::<Event>::empty(),
    {
        let r = MockTransport {
            mode: Mode::Pdl,
            exec_seen: false,
            in_buf: Vec::new(),
            out: VecDeque::new(),
            bsl_frames: 0,
            drop_acks: Vec::new(),
            flash: Vec::new(),
            stage: None,
            corrupt: false,
            trace: Ghost(Seq::empty()),
        };
        proof {
            assert(r@.flash =~= fresh().flash);
            assert(r@.drops =~= fresh().drops);
            assert(r@.input =~= fresh().input);
            assert(r@.output =~= fresh().output);
        }
        r
    }
}

impl MockTransport {
    /// A mock that withholds the ack for the given 1-based BSL frame indices
    /// (each triggers one host-side timeout, exercising the adaptive retry).
    #[must_use]
    pub fn dropping_bsl_acks(indices: &[usize]) -> (r: Self)
        ensures
            r@ == (Device { drops: indices@, ..fresh() }),
            r.trace() == Seq::<Event>::empty(),
    {
        let mut r: MockTransport = MockTransport::default();
        let mut drops: Vec<usize> = Vec::new();
        drops.extend_from_slice(indices);
        proof {
            assert(drops@ =~= indices@);
        }
        r.drop_acks = drops;
        r
    }

    /// A mock whose flash already holds the given `(address, bytes)` images.
    #[must_use]
    pub fn seeded(images: &[(u32, Vec<u8>)]) -> (r: Self)
        ensures
            r@ == (Device { flash: image_views(images@), ..fresh() }),
            r.trace() == Seq::<Event>::empty(),
    {
        let mut r: MockTransport = MockTransport::default();
        let mut flash: Vec<(u32, Vec<u8>)> = Vec::new();
        let mut i: usize = 0;
        while i < images.len()
            invariant
                i <= images@.len(),
                image_views(flash@) == image_views(images@.take(i as int)),
            decreases images.len() - i,
        {
            let copy: Vec<u8> = copy_range(&images[i].1, 0, images[i].1.len());
            let ghost held = image_views(flash@);
            proof {
                assert(copy@ =~= images@[i as int].1@);
            }
            flash.push((images[i].0, copy));
            i += 1;
            proof {
                assert(image_views(flash@) =~= held.push((images@[i - 1].0, images@[i - 1].1@)));
                assert(image_views(images@.take(i as int)) =~= image_views(
                    images@.take(i - 1),
                ).push((images@[i - 1].0, images@[i - 1].1@)));
            }
        }
        proof {
            assert(images@.take(i as int) =~= images@);
        }
        r.flash = flash;
        r
    }

    /// A mock that flips a byte of whatever is read back from it.
    #[must_use]
    pub fn corrupting_readback() -> (r: Self)
        ensures
            r@ == (Device { corrupt: true, ..fresh() }),
            r.trace() == Seq::<Event>::empty(),
    {
        let mut r: MockTransport = MockTransport::default();
        r.corrupt = true;
        r
    }

    /// Queue bytes to go out.
    fn emit(&mut self, bytes: &[u8])
        ensures
            final(self)@ == (Device { output: old(self)@.output + bytes@, ..old(self)@ }),
            final(self).trace() == old(self).trace(),
    {
        let ghost before = self.out@;
        let ghost was = self@;
        let mut i: usize = 0;
        while i < bytes.len()
            invariant
                i <= bytes@.len(),
                self.out@ == before + bytes@.take(i as int),
                self@ == (Device { output: self.out@, ..was }),
                self.trace@ == old(self).trace@,
            decreases bytes.len() - i,
        {
            self.out.push_back(bytes[i]);
            i += 1;
            proof {
                assert(self.out@ =~= before + bytes@.take(i as int));
            }
        }
        proof {
            assert(bytes@.take(i as int) =~= bytes@);
        }
    }

    /// What the flash holds from `addr` on, `n` bytes of it.
    fn recall(&self, addr: u32, n: u32) -> (r: Option<Vec<u8>>)
        ensures
            match r {
                Some(bytes) => recalled(self@.flash, addr, n as nat) == Some(bytes@) && bytes@.len()
                    == n,
                None => recalled(self@.flash, addr, n as nat) is None,
            },
    {
        let ghost images = image_views(self.flash@);
        let mut i: usize = self.flash.len();
        proof {
            assert(images.take(i as int) =~= images);
        }
        while i > 0
            invariant
                i <= self.flash@.len(),
                images == image_views(self.flash@),
                recalled(images, addr, n as nat) == recalled(
                    images.take(i as int),
                    addr,
                    n as nat,
                ),
            decreases i,
        {
            i -= 1;
            proof {
                assert(images.take(i + 1).drop_last() =~= images.take(i as int));
                assert(images.take(i + 1).last() == (self.flash@[i as int].0, self.flash@[i as int].1@));
            }
            let base: u32 = self.flash[i].0;
            let len: usize = self.flash[i].1.len();
            if base <= addr {
                let off: usize = (addr - base) as usize;
                if off <= len && n as usize <= len - off {
                    return Some(copy_range(&self.flash[i].1, off, off + n as usize));
                }
            }
        }
        None
    }

    /// The reply to a read request.
    fn read(&self, data: &[u8]) -> (r: (u16, Vec<u8>))
        ensures
            (r.0, r.1@) == self@.read(data@),
            r.1@.len() <= MAX_REPLY,
    {
        if data.len() < 8 {
            return (rep::INVALID_CMD, Vec::new());
        }
        let addr: u32 = join_be32(data[0], data[1], data[2], data[3]);
        let n: u32 = join_be32(data[4], data[5], data[6], data[7]);
        if n > MAX_REPLY {
            return (rep::INVALID_CMD, Vec::new());
        }
        match self.recall(addr, n) {
            None => (rep::INVALID_CMD, Vec::new()),
            Some(bytes) => {
                let mut bytes: Vec<u8> = bytes;
                if self.corrupt && bytes.len() > 0 {
                    let flipped: u8 = bytes[0] ^ 0xFF;
                    bytes.set(0, flipped);
                }
                (rep::READ_FLASH, bytes)
            },
        }
    }

    /// Do what a BSL command says; returns the reply.
    fn obey(&mut self, kind: u16, data: &[u8]) -> (r: (u16, Vec<u8>))
        ensures
            (final(self)@, (r.0, r.1@)) == old(self)@.obeyed(kind, data@),
            r.1@.len() <= MAX_REPLY,
            final(self).trace() == old(self).trace(),
    {
        if kind == cmd::START_DATA && data.len() >= 4 {
            let addr: u32 = join_be32(data[0], data[1], data[2], data[3]);
            self.stage = Some((addr, Vec::new()));
        } else if kind == cmd::MIDST_DATA {
            let held: Option<(u32, Vec<u8>)> = self.stage.take();
            if let Some((addr, image)) = held {
                let ghost before = image@;
                let mut image: Vec<u8> = image;
                image.extend_from_slice(data);
                proof {
                    assert(image@ =~= before + data@);
                }
                self.stage = Some((addr, image));
            }
        } else if kind == cmd::END_DATA {
            let held: Option<(u32, Vec<u8>)> = self.stage.take();
            if let Some((addr, image)) = held {
                let ghost before = image_views(self.flash@);
                let ghost bytes = image@;
                self.flash.push((addr, image));
                proof {
                    assert(image_views(self.flash@) =~= before.push((addr, bytes)));
                }
            }
        } else if kind == cmd::READ_FLASH {
            return self.read(data);
        }
        (rep::ACK, Vec::new())
    }

    /// Take a BSL frame with this body.
    fn take_frame(&mut self, body: &[u8])
        ensures
            final(self)@ == old(self)@.framed(body@),
            final(self).trace() == old(self).trace(),
    {
        self.bsl_frames = self.bsl_frames.wrapping_add(1);
        let kind: u16 = if body.len() >= 2 {
            join_be16(body[0], body[1])
        } else {
            0
        };
        let none: [u8; 0] = [];
        let data: &[u8] = match parse_message(body) {
            Ok((_, data)) => data,
            Err(_) => &none,
        };
        proof {
            assert(none@ =~= Seq::<u8>::empty());
        }
        let (reply_kind, reply): (u16, Vec<u8>) = self.obey(kind, data);
        // NORMAL_RESET gets no reply; a dropped ack simulates a stall.
        if kind != cmd::NORMAL_RESET && !holds_number(&self.drop_acks, self.bsl_frames) {
            proof {
                law_short_data_is_frameable(reply_kind, reply@, Checksum::Sprd);
            }
            let msg: Vec<u8> = build_message(reply_kind, &reply, Checksum::Sprd);
            self.emit(&msg);
        }
    }

    /// Take the PDL message at the beginning of the input, once it is there in full.
    fn take_pdl(&mut self) -> (more: bool)
        ensures
            match old(self)@.pdl_taken() {
                Some(next) => more && final(self)@ == next,
                None => !more && final(self)@ == old(self)@,
            },
            final(self).trace() == old(self).trace(),
    {
        if self.in_buf.len() < HEADER_LEN || self.in_buf[0] != MAGIC {
            return false;
        }
        let len: usize = join_be16(self.in_buf[2], self.in_buf[1]) as usize;
        let total: usize = HEADER_LEN + len;
        if self.in_buf.len() < total || len < 4 {
            return false;
        }
        let code: u32 = join_be32(
            self.in_buf[11],
            self.in_buf[10],
            self.in_buf[9],
            self.in_buf[8],
        );
        let rest: Vec<u8> = copy_range(&self.in_buf, total, self.in_buf.len());
        proof {
            assert(rest@ =~= self.in_buf@.skip(total as int));
        }
        self.in_buf = rest;
        if code == Cmd::Exec.code() {
            self.exec_seen = true;  // VER follows the next checkbaud 0x7e
        } else {
            let head = header(4);  // ae response, rlen=4
            let ok: [u8; 4] = [0, 0, 0, 0];  // status = OK
            let ghost before = self@.output;
            self.emit(&head);
            self.emit(&ok);
            proof {
                assert(ok@ =~= seq![0u8, 0u8, 0u8, 0u8]);
                assert(before + head@ + ok@ =~= before + pdl_ok());
            }
        }
        true
    }

    /// At the first flag, send the banner and go over to BSL.
    fn wake(&mut self) -> (more: bool)
        ensures
            match old(self)@.roused() {
                Some(next) => more && final(self)@ == next,
                None => !more && final(self)@ == old(self)@,
            },
            final(self).trace() == old(self).trace(),
    {
        if find_byte(&self.in_buf, FLAG, 0).is_none() {
            return false;
        }
        self.in_buf = Vec::new();
        self.mode = Mode::Bsl;
        let text: [u8; 34] = [
            0x53, 0x70, 0x72, 0x65, 0x61, 0x64, 0x74, 0x72, 0x75, 0x6D, 0x20, 0x42, 0x6F, 0x6F,
            0x74, 0x20, 0x42, 0x6C, 0x6F, 0x63, 0x6B, 0x20, 0x76, 0x65, 0x72, 0x73, 0x69, 0x6F,
            0x6E, 0x20, 0x31, 0x2E, 0x32, 0x00,
        ];
        proof {
            assert(text@ =~= banner());
            law_short_data_is_frameable(rep::VER, text@, Checksum::Sprd);
            assert(self.in_buf@ =~= Seq::<u8>::empty());
        }
        let msg: Vec<u8> = build_message(rep::VER, &text, Checksum::Sprd);
        self.emit(&msg);
        true
    }

    /// Take the first BSL frame in the input, once it is there in full.
    fn take_bsl(&mut self) -> (more: bool)
        ensures
            match old(self)@.frame_taken() {
                Some(next) => more && final(self)@ == next,
                None => !more && final(self)@ == old(self)@,
            },
            final(self).trace() == old(self).trace(),
    {
        let open: usize = match find_byte(&self.in_buf, FLAG, 0) {
            Some(i) => i,
            None => return false,
        };
        let close: usize = match find_byte(&self.in_buf, FLAG, open + 1) {
            Some(i) => i,
            None => return false,
        };
        let wire: Vec<u8> = copy_range(&self.in_buf, open + 1, close);
        let body: Vec<u8> = unescape(&wire);
        let rest: Vec<u8> = copy_range(&self.in_buf, close + 1, self.in_buf.len());
        proof {
            assert(rest@ =~= self.in_buf@.skip(close + 1));
        }
        self.in_buf = rest;
        self.take_frame(&body);
        true
    }

    /// Deal with all of the input.
    fn process(&mut self)
        ensures
            final(self)@ == settled(old(self)@),
            final(self).trace() == old(self).trace(),
    {
        let mut more: bool = true;
        while more
            invariant
                settled(self@) == settled(old(self)@),
                !more ==> self@.stepped() is None,
                self.trace() == old(self).trace(),
            decreases self@.input.len(), (if more { 1int } else { 0int }),
        {
            proof {
                lemma_step_consumes(self@);
            }
            more = match self.mode {
                Mode::Pdl => if self.exec_seen {
                    self.wake()
                } else {
                    self.take_pdl()
                },
                Mode::Bsl => self.take_bsl(),
            };
        }
    }
}

impl Transport for MockTransport {
    closed spec fn trace(&self) -> Seq<Event> {
        self.trace@
    }

    /// Whatever is written is dealt with at once.
    fn write_all(&mut self, data: &[u8]) -> (r: Result<(), TransportError>)
        ensures
            r is Ok,
            final(self)@ == settled(Device { input: old(self)@.input + data@, ..old(self)@ }),
    {
        self.in_buf.extend_from_slice(data);
        proof {
            assert(self.in_buf@ =~= old(self).in_buf@ + data@);
        }
        self.trace = Ghost(self.trace@.push(Event::Wrote { data: data@, fault: None }));
        self.process();
        Ok(())
    }

    /// As much of the output as the buffer takes is handed over.
    fn read_some(&mut self, buf: &mut [u8]) -> (r: Result<usize, TransportError>)
        ensures
            r matches Ok(n) && n == (if old(buf)@.len() < old(self)@.output.len() {
                old(buf)@.len()
            } else {
                old(self)@.output.len()
            }) && final(buf)@.take(n as int) == old(self)@.output.take(n as int) && final(self)@ == (
            Device { output: old(self)@.output.skip(n as int), ..old(self)@ }),
    {
        let n: usize = if buf.len() < self.out.len() {
            buf.len()
        } else {
            self.out.len()
        };
        let ghost was = self@;
        let ghost out = self.out@;
        let mut i: usize = 0;
        while i < n
            invariant
                i <= n <= out.len(),
                n <= buf@.len(),
                buf@.len() == old(buf)@.len(),
                self.out@ == out.skip(i as int),
                self@ == (Device { output: self.out@, ..was }),
                self.trace@ == old(self).trace@,
                buf@.take(i as int) == out.take(i as int),
            decreases n - i,
        {
            if let Some(b) = self.out.pop_front() {
                buf[i] = b;
            }
            i += 1;
            proof {
                assert(self.out@ =~= out.skip(i as int));
                assert(buf@.take(i as int) =~= out.take(i as int));
            }
        }
        self.trace = Ghost(self.trace@.push(Event::Read { room: buf@.len(), data: buf@.take(n as int) }));
        Ok(n)
    }

    fn set_baud(&mut self, baud: u32) -> (r: Result<(), TransportError>)
        ensures
            r is Ok,
            final(self)@ == old(self)@,
    {
        self.trace = Ghost(self.trace@.push(Event::BaudSet { rate: baud, fault: None }));
        Ok(())
    }

    fn purge_input(&mut self)
        ensures
            final(self)@ == (Device { input: Seq::empty(), ..old(self)@ }),
    {
        self.in_buf = Vec::new();
        proof {
            assert(self.in_buf@ =~= Seq::<u8>::empty());
        }
        self.trace = Ghost(self.trace@.push(Event::Purged));
    }

    fn reset_teardown(&mut self, hold_ms: u64)
        ensures
            final(self)@ == old(self)@,
    {
        self.trace = Ghost(self.trace@.push(Event::Held { millis: hold_ms }));
    }
}

/// Whether `n` is among some numbers.
fn holds_number(v: &Vec<usize>, n: usize) -> (r: bool)
    ensures
        r == v@.contains(n),
{
    let mut i: usize = 0;
    while i < v.len()
        invariant
            i <= v@.len(),
            forall|k: int| 0 <= k < i ==> v@[k] != n,
        decreases v.len() - i,
    {
        if v[i] == n {
            return true;
        }
        i += 1;
    }
    false
}

// ---------------------------------------------------------------------------
// What the device promises
// ---------------------------------------------------------------------------

/// A BSL message that is written to a device whose input is empty is taken whole and
/// obeyed: it counts as a frame, does what it says, and gets its reply, unless it is
/// `NORMAL_RESET` or a frame to be dropped.
pub proof fn law_message_is_obeyed(d: Device, kind: u16, data: Seq<u8>)
    requires
        d.mode == Mode::Bsl,
        d.input.len() == 0,
        d.frames < usize::MAX,
        data.len() <= 65535,
    ensures
        ({
            let (done, reply) = Device { frames: (d.frames + 1) as usize, ..d }.obeyed(kind, data);
            settled(Device { input: message_of(kind, data, Checksum::Sprd), ..d }) == if kind
                == cmd::NORMAL_RESET || d.drops.contains(done.frames) {
                done
            } else {
                Device {
                    output: d.output + message_of(reply.0, reply.1, Checksum::Sprd),
                    ..done
                }
            }
        }),
{
    let body = body_of(kind, data, Checksum::Sprd);
    let wire = escaped(body);
    let msg = message_of(kind, data, Checksum::Sprd);
    let full = Device { input: msg, ..d };
    law_escaped_has_no_flag(body);
    law_unescape_undoes_escape(body);
    law_parse_undoes_build(kind, data, Checksum::Sprd);
    let close = wire.len() as int + 1;
    assert(msg[0] == FLAG && msg[close] == FLAG);
    assert forall|k: int| 1 <= k < close implies msg[k] != FLAG by {
        assert(msg[k] == wire[k - 1]);
        assert(wire.contains(wire[k - 1]));
    }
    lemma_index_from_is(msg, FLAG, 0, 0);
    lemma_index_from_is(msg, FLAG, 1, close);
    assert(msg.subrange(1, close) =~= wire);
    let next = Device { input: msg.skip(close + 1), ..full };
    assert(next.input =~= Seq::<u8>::empty());
    assert(d.input =~= Seq::<u8>::empty());
    assert(next == d);
    assert(full.stepped() == Some(d.framed(body)));
    lemma_body_kind(kind, data);
    let after = d.framed(body);
    assert(after.input == d.input);
    assert(after.stepped() is None);
    assert(settled(full) == settled(after));
    assert(settled(after) == after);
}

proof fn lemma_body_kind(kind: u16, data: Seq<u8>)
    ensures
        body_of(kind, data, Checksum::Sprd).len() >= 6,
        be16_at(body_of(kind, data, Checksum::Sprd), 0) == kind,
{
    crate::bytes::law_16_bit_roundtrip(kind);
}

/// What the device is like after it has obeyed some commands.
pub open spec fn obeyed_all(d: Device, commands: Seq<(u16, Seq<u8>)>) -> Device
    decreases commands.len(),
{
    if commands.len() == 0 {
        d
    } else {
        obeyed_all(d.obeyed(commands[0].0, commands[0].1).0, commands.skip(1))
    }
}

proof fn lemma_obeyed_all_concat(d: Device, a: Seq<(u16, Seq<u8>)>, b: Seq<(u16, Seq<u8>)>)
    ensures
        obeyed_all(d, a + b) == obeyed_all(obeyed_all(d, a), b),
    decreases a.len(),
{
    if a.len() == 0 {
        assert(a + b =~= b);
    } else {
        assert((a + b).skip(1) =~= a.skip(1) + b);
        lemma_obeyed_all_concat(d.obeyed(a[0].0, a[0].1).0, a.skip(1), b);
    }
}

proof fn lemma_pieces_are_staged(d: Device, parts: Seq<Seq<u8>>)
    requires
        d.stage is Some,
    ensures
        obeyed_all(d, midst_orders(parts)) == (Device {
            stage: match d.stage {
                Some((addr, image)) => Some((addr, image + joined(parts))),
                None => None,
            },
            ..d
        }),
    decreases parts.len(),
{
    let (addr, image) = d.stage->0;
    let orders = midst_orders(parts);
    if parts.len() == 0 {
        assert(image + joined(parts) =~= image);
    } else {
        let next = d.obeyed(cmd::MIDST_DATA, parts[0]).0;
        assert(orders.skip(1) =~= midst_orders(parts.skip(1)));
        lemma_pieces_are_staged(next, parts.skip(1));
        assert(image + parts[0] + joined(parts.skip(1)) =~= image + joined(parts));
    }
}

/// A device that obeys the messages for an image, sent in pieces of any size, holds
/// that image afterwards, on top of what it held before.
pub proof fn law_written_image_is_held(d: Device, addr: u32, data: Seq<u8>, chunk: int)
    requires
        chunk > 0,
    ensures
        obeyed_all(d, image_orders(start_of(addr, data), data, chunk)).flash == d.flash.push(
            (addr, data),
        ),
{
    let start = start_of(addr, data);
    let parts = pieces(data, 0, chunk);
    let first = seq![(cmd::START_DATA, start)];
    let midst = midst_orders(parts);
    let last = seq![(cmd::END_DATA, Seq::<u8>::empty())];
    law_pieces_make_the_whole(data, 0, chunk);
    crate::bytes::law_32_bit_roundtrip(addr);
    assert(data.skip(0) =~= data);
    lemma_obeyed_all_concat(d, first + midst, last);
    lemma_obeyed_all_concat(d, first, midst);
    assert(first.skip(1) =~= Seq::<(u16, Seq<u8>)>::empty());
    assert(last.skip(1) =~= Seq::<(u16, Seq<u8>)>::empty());
    let begun = Device { stage: Some((addr, Seq::empty())), ..d };
    assert(be32_at(start, 0) == addr);
    assert(obeyed_all(begun, Seq::empty()) == begun);
    assert(obeyed_all(d, first) == begun);
    lemma_pieces_are_staged(begun, parts);
    assert(Seq::<u8>::empty() + data =~= data);
    let staged = Device { stage: Some((addr, data)), ..d };
    assert(obeyed_all(begun, midst) == staged);
    assert(obeyed_all(staged, last) == obeyed_all(
        staged.obeyed(cmd::END_DATA, Seq::empty()).0,
        Seq::empty(),
    ));
}

/// Three fields of four bytes, one after the other, are read one by one.
proof fn lemma_fields_are_read(a: Seq<u8>, b: Seq<u8>, c: Seq<u8>)
    requires
        a.len() == 4,
        b.len() == 4,
        c.len() == 4,
    ensures
        (a + b + c).len() == 12,
        be32_at(a + b + c, 0) == be32_at(a, 0),
        be32_at(a + b + c, 4) == be32_at(b, 0),
{
    let all = a + b + c;
    assert(all[0] == a[0] && all[1] == a[1] && all[2] == a[2] && all[3] == a[3]);
    assert(all[4] == b[0] && all[5] == b[1] && all[6] == b[2] && all[7] == b[3]);
}

proof fn lemma_request_is_read(addr: u32, n: nat)
    requires
        n <= MAX_REPLY,
    ensures
        read_request(addr, n).len() == 12,
        be32_at(read_request(addr, n), 0) == addr,
        be32_at(read_request(addr, n), 4) == n,
{
    reveal(read_request);
    assert(low32(n) == n);
    lemma_fields_are_read(be32_bytes(addr), be32_bytes(low32(n)), be32_bytes(0));
    crate::bytes::law_32_bit_roundtrip(addr);
    crate::bytes::law_32_bit_roundtrip(low32(n));
}

/// A read of an image that was just written, or of any stretch of it, gives the bytes
/// of the image.
pub proof fn law_held_image_is_read(d: Device, addr: u32, data: Seq<u8>, off: nat, n: nat)
    requires
        d.flash.len() > 0,
        d.flash.last() == (addr, data),
        !d.corrupt,
        off + n <= data.len(),
        addr + off <= u32::MAX,
        n <= MAX_REPLY,
    ensures
        d.read(read_request((addr + off) as u32, n)) == (
            rep::READ_FLASH,
            data.subrange(off as int, (off + n) as int),
        ),
{
    lemma_request_is_read((addr + off) as u32, n);
}

// ---------------------------------------------------------------------------
// What the device does
// ---------------------------------------------------------------------------

/// Whether an image of the flash has `n` bytes from an address on.
pub open spec fn image_has(image: (u32, Seq<u8>), addr: u32, n: nat) -> bool {
    image.0 <= addr && addr + n <= image.0 + image.1.len()
}

/// What is recalled from the flash are the bytes of the latest image that has all of them; and
/// nothing is just if none has.
pub proof fn law_latest_image_is_recalled(flash: Seq<(u32, Seq<u8>)>, addr: u32, n: nat)
    ensures
        match recalled(flash, addr, n) {
            Some(bytes) => bytes.len() == n && exists|i: int|
                0 <= i < flash.len() && image_has(#[trigger] flash[i], addr, n) && (forall|j: int|
                    i < j < flash.len() ==> !image_has(#[trigger] flash[j], addr, n)) && forall|
                    k: int,
                |
                    0 <= k < n ==> #[trigger] bytes[k] == flash[i].1[addr - flash[i].0 + k],
            None => forall|i: int|
                0 <= i < flash.len() ==> !image_has(#[trigger] flash[i], addr, n),
        },
    decreases flash.len(),
{
    if flash.len() > 0 {
        let top = flash.len() - 1;
        let before = flash.drop_last();
        assert(flash[top] == flash.last());
        if image_has(flash[top], addr, n) {
            let bytes = recalled(flash, addr, n)->0;
            assert(bytes.len() == n);
        } else {
            law_latest_image_is_recalled(before, addr, n);
            assert forall|j: int| 0 <= j < top implies #[trigger] flash[j] == before[j] by {}
            match recalled(before, addr, n) {
                Some(bytes) => {
                    let i = choose|i: int|
                        0 <= i < before.len() && image_has(#[trigger] before[i], addr, n) && (forall|
                            j: int,
                        |
                            i < j < before.len() ==> !image_has(#[trigger] before[j], addr, n))
                            && forall|k: int|
                            0 <= k < n ==> #[trigger] bytes[k] == before[i].1[addr - before[i].0
                                + k];
                    assert(flash[i] == before[i]);
                    assert forall|j: int| i < j < flash.len() implies !image_has(
                        #[trigger] flash[j],
                        addr,
                        n,
                    ) by {
                        if j < top {
                            assert(flash[j] == before[j]);
                        }
                    }
                },
                None => {
                    assert forall|i: int| 0 <= i < flash.len() implies !image_has(
                        #[trigger] flash[i],
                        addr,
                        n,
                    ) by {
                        if i < top {
                            assert(flash[i] == before[i]);
                        }
                    }
                },
            }
        }
    }
}

/// What a read request is answered: a type of 0x93 with the bytes that the flash holds from the
/// address in its first four bytes on, as many as its next four say (both most significant
/// first); from a device that spoils reads, with all bits of the first byte turned over and the
/// rest as it is. A request that is shorter, asks for more than 65535 bytes or for what the flash
/// does not hold is refused, with a type of 0x82 and no data.
pub proof fn law_read_is_answered(d: Device, data: Seq<u8>)
    ensures
        ({
            let (kind, bytes) = d.read(data);
            let addr = be32_at(data, 0);
            let n = be32_at(data, 4) as nat;
            if data.len() >= 8 && n <= 65535 && recalled(d.flash, addr, n) is Some {
                let held = recalled(d.flash, addr, n)->0;
                &&& kind == 0x93
                &&& bytes.len() == n
                &&& !d.corrupt ==> bytes == held
                &&& d.corrupt && n > 0 ==> bytes[0] == 255 - held[0] && bytes.skip(1) == held.skip(1)
            } else {
                kind == 0x82 && bytes.len() == 0
            }
        }),
{
    let addr = be32_at(data, 0);
    let n = be32_at(data, 4) as nat;
    if data.len() >= 8 && n <= 65535 && recalled(d.flash, addr, n) is Some {
        let held = recalled(d.flash, addr, n)->0;
        law_latest_image_is_recalled(d.flash, addr, n);
        if n > 0 {
            let b: u8 = held[0];
            assert(b ^ 0xFF == 255 - b) by (bit_vector);
            assert(spoiled(held).skip(1) =~= held.skip(1));
        }
    }
}

/// Of the device, a command changes the image that is being written and the flash alone: a
/// start (0x01) begins an image at its address, with nothing in it; each piece (0x02) is put
/// behind what is there; an end (0x03) puts the image into the flash. Nothing else changes
/// anything. But for a read, a command is acknowledged (0x80), without data.
pub proof fn law_command_is_obeyed(d: Device, kind: u16, data: Seq<u8>)
    ensures
        ({
            let (e, reply) = d.obeyed(kind, data);
            &&& e == (Device { stage: e.stage, flash: e.flash, ..d })
            &&& kind != 0x06 ==> reply.0 == 0x80 && reply.1.len() == 0
            &&& kind == 0x06 ==> e == d && reply == d.read(data)
            &&& kind == 0x01 && data.len() >= 4 ==> e.flash == d.flash && e.stage is Some && (
            e.stage->0).0 == be32_at(data, 0) && (e.stage->0).1.len() == 0
            &&& kind == 0x02 && d.stage is Some ==> e.flash == d.flash && e.stage is Some && (
            e.stage->0).0 == (d.stage->0).0 && (e.stage->0).1 == (d.stage->0).1 + data
            &&& kind == 0x03 && d.stage is Some ==> e.stage is None && e.flash == d.flash.push(
                d.stage->0,
            )
            &&& kind == 0 || kind > 3 || d.stage is None && kind != 0x01 ==> e == d
        }),
{
}

/// A frame is counted. It is answered with one message, behind what is still to go out, unless
/// it is a reset (0x05) or its number is among those that are to be dropped.
pub proof fn law_frame_is_answered(d: Device, body: Seq<u8>)
    requires
        d.frames < usize::MAX,
        body.len() >= 2,
    ensures
        ({
            let e = d.framed(body);
            let kind = 256 * body[0] + body[1];
            let silent = kind == 0x05 || exists|i: int|
                0 <= i < d.drops.len() && #[trigger] d.drops[i] == d.frames + 1;
            &&& e.frames == d.frames + 1
            &&& e.mode == d.mode && e.input == d.input && e.drops == d.drops && e.corrupt == d.corrupt
            &&& silent ==> e.output == d.output
            &&& !silent ==> exists|reply: (u16, Seq<u8>)|
                e.output == d.output + #[trigger] message_of(reply.0, reply.1, Checksum::Sprd) && (
                kind != 0x06 ==> reply.0 == 0x80 && reply.1.len() == 0)
        }),
{
    crate::bytes::law_fields_are_digits(body, 0);
    let kind = be16_at(body, 0);
    let data = match parsed(body) {
        Ok((_, data)) => data,
        Err(_) => Seq::empty(),
    };
    let counted = Device { frames: (d.frames + 1) as usize, ..d };
    law_command_is_obeyed(counted, kind, data);
    let (done, reply) = counted.obeyed(kind, data);
    if !(kind == 0x05 || done.drops.contains(done.frames)) {
        assert(d.framed(body).output == d.output + message_of(reply.0, reply.1, Checksum::Sprd));
    }
}

/// A PDL message that is there in full, eight bytes and as many more as its length says (in its
/// second and third byte, least significant first), is taken off the input. A start of what was
/// loaded (7) is not answered; any other message is, with twelve bytes that say that all is
/// well.
pub proof fn law_pdl_message_is_taken(d: Device)
    requires
        d.input.len() >= 12,
        d.input[0] == 0xAE,
        d.input[1] + 256 * d.input[2] >= 4,
        8 + d.input[1] + 256 * d.input[2] <= d.input.len(),
    ensures
        d.pdl_taken() is Some,
        ({
            let e = d.pdl_taken()->0;
            let start = d.input[8] == 7 && d.input[9] == 0 && d.input[10] == 0 && d.input[11] == 0;
            &&& e.input == d.input.skip(8 + d.input[1] + 256 * d.input[2])
            &&& e.flash == d.flash && e.stage == d.stage && e.mode == d.mode
            &&& start ==> e.exec_seen && e.output == d.output
            &&& !start ==> e.exec_seen == d.exec_seen && e.output.len() == d.output.len() + 12
                && e.output.take(d.output.len() as int) == d.output && crate::pdl::reply_in(
                e.output.skip(d.output.len() as int),
            ) == Some(seq![0u8, 0u8, 0u8, 0u8])
        }),
{
    crate::bytes::law_fields_are_digits(d.input, 1);
    crate::bytes::law_fields_are_digits(d.input, 8);
    let e = d.pdl_taken()->0;
    let ok = seq![0u8, 0u8, 0u8, 0u8];
    crate::pdl::law_reply_is_read(Seq::empty(), ok, Seq::empty());
    assert(Seq::<u8>::empty() + header_of(4) + ok + Seq::<u8>::empty() =~= pdl_ok());
    if e.output != d.output {
        assert(e.output.take(d.output.len() as int) =~= d.output);
        assert(e.output.skip(d.output.len() as int) =~= pdl_ok());
    }
}

} // verus!
