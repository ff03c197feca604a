//! PDL (Packet Download Loader) — the first-stage link layer.
//!
//! The RDA8910/UIS8910 download agent (USB `0525:a4a7`, reached via
//! `AT*DOWNLOAD`) speaks this proprietary protocol *before* any BSL, to load and
//! execute the first-stage loader (`HOST_FDL`/`PDL1`). Each message is an 8-byte
//! header **written separately** from its payload — the `sprd_rdavcom` driver
//! reads the header first to learn the payload length, so a combined write is
//! silently dropped.
//!
//! ```text
//! header : ae | len(u16 LE) | 00 00 | ff | 00 00            (8 bytes)
//! payload: cmd(u32 LE) | arg1(u32 LE) | arg2(u32 LE) | extra...
//! reply  : ae | rlen(u16 LE) | 00 00 | .. | 00 00 | status(u32 LE)
//! ```

use vstd::prelude::*;

use crate::bytes::{
    copy_range, find_byte, index_from, join_be16, join_be32, le16_at, le16_bytes, le32_at,
    le32_bytes, lemma_index_from_is, push_le32,
};

verus! {

/// PDL header magic byte.
pub const MAGIC: u8 = 0xAE;

/// Header length, in bytes.
pub const HEADER_LEN: usize = 8;

/// MIDST payload chunk size the vendor uses.
pub const CHUNK: usize = 2048;

/// PDL command opcodes (the `cmd` field of a payload).
#[derive(Debug, Clone, Copy, PartialEq, Eq, Structural)]
pub enum Cmd {
    /// Handshake.
    Connect,
    /// Begin an image transfer: `arg1=load_addr`, `arg2=size`, extra = name.
    StartData,
    /// Image chunk: `arg1=block_index`, `arg2=len`, extra = chunk bytes.
    MidstData,
    /// Finish transfer: extra = 4-byte image checksum.
    EndData,
    /// Execute the loaded image (hands over to BSL).
    Exec,
}

impl Cmd {
    /// The opcode on the wire.
    pub open spec fn opcode(self) -> u32 {
        match self {
            Cmd::Connect => 0,
            Cmd::StartData => 4,
            Cmd::MidstData => 5,
            Cmd::EndData => 6,
            Cmd::Exec => 7,
        }
    }

    /// The opcode on the wire.
    #[must_use]
    pub fn code(self) -> (r: u32)
        ensures
            r == self.opcode(),
    {
        match self {
            Cmd::Connect => 0,
            Cmd::StartData => 4,
            Cmd::MidstData => 5,
            Cmd::EndData => 6,
            Cmd::Exec => 7,
        }
    }
}

/// The header of a payload of `payload_len` bytes.
pub open spec fn header_of(payload_len: u16) -> Seq<u8> {
    seq![MAGIC] + le16_bytes(payload_len) + seq![0x00u8, 0x00u8, 0xFFu8, 0x00u8, 0x00u8]
}

/// Build the 8-byte header describing a `payload_len`-byte payload.
#[must_use]
pub fn header(payload_len: u16) -> (r: [u8; HEADER_LEN])
    ensures
        r@ == header_of(payload_len),
{
    let h: [u8; HEADER_LEN] = [
        MAGIC,
        (payload_len % 256) as u8,
        (payload_len / 256) as u8,
        0x00,
        0x00,
        0xFF,
        0x00,
        0x00,
    ];
    proof {
        assert(h@ =~= header_of(payload_len));
    }
    h
}

/// A command payload: `cmd | arg1 | arg2`, all little-endian, then `extra`.
pub open spec fn params_of(cmd: Cmd, arg1: u32, arg2: u32, extra: Seq<u8>) -> Seq<u8> {
    le32_bytes(cmd.opcode()) + le32_bytes(arg1) + le32_bytes(arg2) + extra
}

/// Build a command payload: `cmd | arg1 | arg2` (all u32 LE) followed by `extra`.
#[must_use]
pub fn params(cmd: Cmd, arg1: u32, arg2: u32, extra: &[u8]) -> (r: Vec<u8>)
    ensures
        r@ == params_of(cmd, arg1, arg2, extra@),
{
    let mut out: Vec<u8> = Vec::new();
    push_le32(&mut out, cmd.code());
    push_le32(&mut out, arg1);
    push_le32(&mut out, arg2);
    out.extend_from_slice(extra);
    proof {
        assert(out@ =~= params_of(cmd, arg1, arg2, extra@));
    }
    out
}

/// A decoded PDL response: `status == 0` means OK for this agent.
#[derive(Debug, Clone)]
pub struct Response {
    /// Status word (first 4 bytes of the response payload).
    pub status: u32,
    /// Full response payload (including the status word).
    pub payload: Vec<u8>,
}

/// The payload of the first reply in `buf`, once it is there in full: what
/// follows the first magic byte is a header that counts it.
pub open spec fn reply_in(buf: Seq<u8>) -> Option<Seq<u8>> {
    match index_from(buf, MAGIC, 0) {
        None => None,
        Some(start) => {
            let frame = buf.skip(start);
            if frame.len() < HEADER_LEN {
                None
            } else {
                let end = HEADER_LEN + le16_at(frame, 1);
                if frame.len() < end {
                    None
                } else {
                    Some(frame.subrange(HEADER_LEN as int, end as int))
                }
            }
        },
    }
}

/// The status word of a reply payload; one too short to hold it counts as OK.
pub open spec fn status_of(payload: Seq<u8>) -> u32 {
    if payload.len() >= 4 {
        le32_at(payload, 0)
    } else {
        0
    }
}

/// Try to decode a PDL response from `buf`.
///
/// Returns `Some(response)` once a full `ae`-framed reply is present, `None`
/// if more bytes are needed. Resyncs to the magic byte if `buf` has leading
/// garbage.
#[must_use]
pub fn try_parse_response(buf: &[u8]) -> (r: Option<Response>)
    ensures
        match r {
            Some(resp) => reply_in(buf@) == Some(resp.payload@) && resp.status == status_of(
                resp.payload@,
            ),
            None => reply_in(buf@) is None,
        },
{
    let start: usize = match find_byte(buf, MAGIC, 0) {
        Some(i) => i,
        None => return None,
    };
    if buf.len() - start < HEADER_LEN {
        return None;
    }
    let rlen: usize = join_be16(buf[start + 2], buf[start + 1]) as usize;
    if buf.len() - start - HEADER_LEN < rlen {
        return None;
    }
    let payload: Vec<u8> = copy_range(buf, start + HEADER_LEN, start + HEADER_LEN + rlen);
    proof {
        let frame = buf@.skip(start as int);
        assert(payload@ =~= frame.subrange(HEADER_LEN as int, HEADER_LEN + rlen));
    }
    let status: u32 = if payload.len() >= 4 {
        join_be32(payload[3], payload[2], payload[1], payload[0])
    } else {
        0
    };
    Some(Response { status, payload })
}

/// A reply is read back whole, whatever garbage without a magic byte comes
/// before it and whatever follows it.
pub proof fn law_reply_is_read(before: Seq<u8>, payload: Seq<u8>, after: Seq<u8>)
    requires
        !before.contains(MAGIC),
        payload.len() <= 65535,
    ensures
        reply_in(before + header_of(payload.len() as u16) + payload + after) == Some(payload),
{
    let head = header_of(payload.len() as u16);
    let buf = before + head + payload + after;
    let start = before.len() as int;
    assert forall|k: int| 0 <= k < start implies buf[k] != MAGIC by {
        assert(before.contains(before[k]));
    }
    assert(buf[start] == head[0]);
    lemma_index_from_is(buf, MAGIC, 0, start);
    let frame = buf.skip(start);
    assert(frame[1] == head[1] && frame[2] == head[2]);
    assert(le16_at(frame, 1) == payload.len());
    assert(frame.subrange(8, 8 + payload.len() as int) =~= payload);
}

/// The first reply in some bytes: it begins with the first `ae`; its length is in the two
/// bytes behind that, least significant first; and its payload is that many bytes from the
/// eighth byte behind it on. Nothing is found just if there is no `ae`, or not all of that
/// is there yet.
pub proof fn law_first_reply_is_found(buf: Seq<u8>)
    ensures
        match reply_in(buf) {
            Some(payload) => exists|at: int|
                0 <= at && at + 8 + payload.len() <= buf.len() && #[trigger] buf[at] == 0xAE && (
                forall|k: int| 0 <= k < at ==> #[trigger] buf[k] != 0xAE) && payload.len() == buf[at
                    + 1] + 256 * buf[at + 2] && payload == buf.subrange(
                    at + 8,
                    at + 8 + payload.len(),
                ),
            None => forall|at: int|
                0 <= at < buf.len() && #[trigger] buf[at] == 0xAE && (forall|k: int|
                    0 <= k < at ==> #[trigger] buf[k] != 0xAE) ==> at + 8 > buf.len() || at + 8
                    + buf[at + 1] + 256 * buf[at + 2] > buf.len(),
        },
{
    crate::bytes::lemma_index_from(buf, MAGIC, 0);
    match index_from(buf, MAGIC, 0) {
        None => {},
        Some(at) => {
            let frame = buf.skip(at);
            if frame.len() >= HEADER_LEN {
                crate::bytes::law_fields_are_digits(frame, 1);
                assert(frame[1] == buf[at + 1] && frame[2] == buf[at + 2]);
                let n = le16_at(frame, 1) as int;
                if frame.len() >= HEADER_LEN + n {
                    assert(frame.subrange(8, 8 + n) =~= buf.subrange(at + 8, at + 8 + n));
                    assert(buf[at] == 0xAE);
                }
            }
            assert forall|x: int|
                0 <= x < buf.len() && #[trigger] buf[x] == 0xAE && (forall|k: int|
                    0 <= k < x ==> #[trigger] buf[k] != 0xAE) implies x == at by {
                if x < at {
                    assert(buf[x] != MAGIC);
                } else if at < x {
                    assert(buf[at] != 0xAE);
                }
            }
        },
    }
}

/// The status of a reply is in its first four bytes, least significant first; one that is
/// shorter counts as all right, which is zero.
pub proof fn law_status_is_the_first_word(payload: Seq<u8>)
    ensures
        status_of(payload) == if payload.len() >= 4 {
            payload[0] + 256 * payload[1] + 65536 * payload[2] + 16777216 * payload[3]
        } else {
            0
        },
{
    if payload.len() >= 4 {
        crate::bytes::law_fields_are_digits(payload, 0);
    }
}

} // verus!
