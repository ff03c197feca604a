//! BSL — the Spreadtrum/UNISOC download protocol over HDLC framing.
//!
//! Used for FDL2 and the partition writes (after PDL hands over). One message:
//!
//! ```text
//! 0x7e | escape( type[2 BE] size[2 BE] data[size] checksum[2 BE] ) | 0x7e
//! ```
//!
//! The checksum is either the Spreadtrum sum (RDA8910/UIS8910, the default) or
//! CRC-16 (classic BootROM); the check-baud handshake detects which.

use vstd::prelude::*;

use crate::bytes::{
    be16_at, be16_bytes, copy_range, find_byte, index_from, join_be16, lemma_index_from_is,
    push_be16,
};
use crate::checksum::{crc16_ccitt, crc16_ccitt_of, is_summable, sprd_sum, sprd_sum_of, summable};
use crate::error::{Error, Fault, Result};

pub mod cmd;
pub mod rep;

verus! {

/// HDLC frame flag.
pub const FLAG: u8 = 0x7E;

/// HDLC escape byte.
pub const ESCAPE: u8 = 0x7D;

/// The name of a reply opcode.
pub open spec fn rep_name_of(code: u16) -> Seq<char> {
    if code == rep::ACK {
        "ACK"@
    } else if code == rep::VER {
        "VER"@
    } else if code == rep::INVALID_CMD {
        "INVALID_CMD"@
    } else if code == rep::UNKNOWN_CMD {
        "UNKNOWN_CMD"@
    } else if code == rep::OPERATION_FAILED {
        "OPERATION_FAILED"@
    } else if code == rep::READ_FLASH {
        "READ_FLASH"@
    } else if code == rep::READ_CHIP_TYPE {
        "READ_CHIP_TYPE"@
    } else if code == rep::READ_CHIP_UID {
        "READ_CHIP_UID"@
    } else if code == rep::UNSUPPORTED_COMMAND {
        "UNSUPPORTED_COMMAND"@
    } else {
        "?"@
    }
}

/// Human-readable name for a reply opcode (for diagnostics).
#[must_use]
pub fn rep_name(code: u16) -> (r: &'static str)
    ensures
        r@ == rep_name_of(code),
{
    if code == rep::ACK {
        "ACK"
    } else if code == rep::VER {
        "VER"
    } else if code == rep::INVALID_CMD {
        "INVALID_CMD"
    } else if code == rep::UNKNOWN_CMD {
        "UNKNOWN_CMD"
    } else if code == rep::OPERATION_FAILED {
        "OPERATION_FAILED"
    } else if code == rep::READ_FLASH {
        "READ_FLASH"
    } else if code == rep::READ_CHIP_TYPE {
        "READ_CHIP_TYPE"
    } else if code == rep::READ_CHIP_UID {
        "READ_CHIP_UID"
    } else if code == rep::UNSUPPORTED_COMMAND {
        "UNSUPPORTED_COMMAND"
    } else {
        "?"
    }
}

/// Which checksum a BSL session uses.
#[derive(Debug, Clone, Copy, PartialEq, Eq, Structural)]
pub enum Checksum {
    /// Spreadtrum ones-complement sum (RDA8910/UIS8910).
    Sprd,
    /// CRC-16 (classic BootROM).
    Crc,
}

impl Checksum {
    /// The checksum of a message body.
    pub open spec fn of(self, body: Seq<u8>) -> u16 {
        match self {
            Checksum::Sprd => sprd_sum_of(body),
            Checksum::Crc => crc16_ccitt_of(body),
        }
    }

    /// Whether the checksum of a message body can be computed: the Spreadtrum sum
    /// is accumulated in 32 bits.
    pub open spec fn computable(self, body: Seq<u8>) -> bool {
        self is Sprd ==> summable(body)
    }

    /// The checksum of a message body.
    #[must_use]
    pub fn compute(self, body: &[u8]) -> (r: u16)
        requires
            self.computable(body@),
        ensures
            r == self.of(body@),
    {
        match self {
            Checksum::Sprd => sprd_sum(body),
            Checksum::Crc => crc16_ccitt(body),
        }
    }
}

// ---------------------------------------------------------------------------
// Escaping
// ---------------------------------------------------------------------------

/// One byte as it goes over the wire.
pub open spec fn escaped_byte(b: u8) -> Seq<u8> {
    if b == FLAG || b == ESCAPE {
        seq![ESCAPE, b ^ 0x20]
    } else {
        seq![b]
    }
}

/// A frame body as it goes over the wire.
pub open spec fn escaped(frame: Seq<u8>) -> Seq<u8>
    decreases frame.len(),
{
    if frame.len() == 0 {
        Seq::empty()
    } else {
        escaped_byte(frame[0]) + escaped(frame.skip(1))
    }
}

/// What the wire bytes of a frame body stand for. An escape byte with nothing
/// behind it stands for nothing.
pub open spec fn unescaped(frame: Seq<u8>) -> Seq<u8>
    decreases frame.len(),
{
    if frame.len() == 0 {
        Seq::empty()
    } else if frame[0] != ESCAPE {
        seq![frame[0]] + unescaped(frame.skip(1))
    } else if frame.len() == 1 {
        Seq::empty()
    } else {
        seq![frame[1] ^ 0x20] + unescaped(frame.skip(2))
    }
}

proof fn lemma_escaped_byte(b: u8)
    ensures
        !escaped_byte(b).contains(FLAG),
        b == FLAG || b == ESCAPE ==> b ^ 0x20 != FLAG && b ^ 0x20 ^ 0x20 == b,
{
    assert(b ^ 0x20 ^ 0x20 == b) by (bit_vector);
    assert(b == 0x7E || b == 0x7D ==> b ^ 0x20 != 0x7E) by (bit_vector);
}

/// Unescaping undoes escaping.
pub proof fn law_unescape_undoes_escape(frame: Seq<u8>)
    ensures
        unescaped(escaped(frame)) == frame,
    decreases frame.len(),
{
    if frame.len() > 0 {
        let b = frame[0];
        let rest = frame.skip(1);
        law_unescape_undoes_escape(rest);
        lemma_escaped_byte(b);
        let wire = escaped(frame);
        if b == FLAG || b == ESCAPE {
            assert(wire.skip(2) =~= escaped(rest));
        } else {
            assert(wire.skip(1) =~= escaped(rest));
        }
        assert(unescaped(wire) =~= frame);
    } else {
        assert(frame =~= Seq::<u8>::empty());
    }
}

/// No flag byte occurs in an escaped body, so flags only ever delimit frames.
pub proof fn law_escaped_has_no_flag(frame: Seq<u8>)
    ensures
        !escaped(frame).contains(FLAG),
    decreases frame.len(),
{
    if frame.len() > 0 {
        let head = escaped_byte(frame[0]);
        let tail = escaped(frame.skip(1));
        law_escaped_has_no_flag(frame.skip(1));
        lemma_escaped_byte(frame[0]);
        assert forall|i: int| 0 <= i < (head + tail).len() implies (head + tail)[i] != FLAG by {
            if i < head.len() {
                assert(head.contains(head[i]));
            } else {
                assert(tail.contains(tail[i - head.len()]));
            }
        }
    }
}

/// How many of some bytes are escaped on the wire.
pub open spec fn escapes_in(frame: Seq<u8>) -> nat
    decreases frame.len(),
{
    if frame.len() == 0 {
        0
    } else {
        escapes_in(frame.skip(1)) + if frame[0] == FLAG || frame[0] == ESCAPE {
            1nat
        } else {
            0
        }
    }
}

/// Escaping adds a byte for each flag and each escape, and none for any other byte.
pub proof fn law_escaped_length(frame: Seq<u8>)
    ensures
        escaped(frame).len() == frame.len() + escapes_in(frame),
        escapes_in(frame) <= frame.len(),
    decreases frame.len(),
{
    if frame.len() > 0 {
        law_escaped_length(frame.skip(1));
    }
}

/// Bytes are escaped one by one: what some bytes come to does not depend on what is
/// before or behind them.
pub proof fn law_escape_goes_byte_by_byte(a: Seq<u8>, b: Seq<u8>)
    ensures
        escaped(a + b) == escaped(a) + escaped(b),
    decreases a.len(),
{
    if a.len() == 0 {
        assert(a + b =~= b);
        assert(escaped(a) + escaped(b) =~= escaped(b));
    } else {
        law_escape_goes_byte_by_byte(a.skip(1), b);
        assert((a + b).skip(1) =~= a.skip(1) + b);
        assert(escaped(a + b) =~= escaped(a) + escaped(b));
    }
}

/// HDLC-escape a frame body (never touches the outer 0x7e flags).
#[must_use]
pub fn escape(frame: &[u8]) -> (r: Vec<u8>)
    ensures
        r@ == escaped(frame@),
{
    let mut out: Vec<u8> = Vec::with_capacity(frame.len());
    let mut i: usize = 0;
    proof {
        assert(frame@.skip(0) =~= frame@);
    }
    while i < frame.len()
        invariant
            i <= frame@.len(),
            out@ + escaped(frame@.skip(i as int)) == escaped(frame@),
        decreases frame.len() - i,
    {
        let b: u8 = frame[i];
        let ghost done = out@;
        let ghost rest = frame@.skip(i as int);
        if b == FLAG || b == ESCAPE {
            out.push(ESCAPE);
            out.push(b ^ 0x20);
        } else {
            out.push(b);
        }
        i += 1;
        proof {
            assert(rest.skip(1) =~= frame@.skip(i as int));
            assert(out@ =~= done + escaped_byte(b));
            assert(out@ + escaped(frame@.skip(i as int)) =~= done + escaped(rest));
        }
    }
    proof {
        assert(frame@.skip(i as int) =~= Seq::<u8>::empty());
        assert(out@ + Seq::<u8>::empty() =~= out@);
    }
    out
}

/// Reverse [`escape`].
#[must_use]
pub fn unescape(frame: &[u8]) -> (r: Vec<u8>)
    ensures
        r@ == unescaped(frame@),
{
    let mut out: Vec<u8> = Vec::with_capacity(frame.len());
    let mut i: usize = 0;
    proof {
        assert(frame@.skip(0) =~= frame@);
    }
    while i < frame.len()
        invariant
            i <= frame@.len(),
            out@ + unescaped(frame@.skip(i as int)) == unescaped(frame@),
        decreases frame.len() - i,
    {
        let b: u8 = frame[i];
        let ghost done = out@;
        let ghost rest = frame@.skip(i as int);
        if b == ESCAPE {
            if i + 1 < frame.len() {
                out.push(frame[i + 1] ^ 0x20);
                i += 2;
                proof {
                    assert(rest.skip(2) =~= frame@.skip(i as int));
                }
            } else {
                i += 1;
                proof {
                    assert(frame@.skip(i as int) =~= Seq::<u8>::empty());
                }
            }
        } else {
            out.push(b);
            i += 1;
            proof {
                assert(rest.skip(1) =~= frame@.skip(i as int));
            }
        }
        proof {
            assert(out@ + unescaped(frame@.skip(i as int)) =~= done + unescaped(rest));
        }
    }
    proof {
        assert(frame@.skip(i as int) =~= Seq::<u8>::empty());
        assert(out@ + Seq::<u8>::empty() =~= out@);
    }
    out
}

// ---------------------------------------------------------------------------
// Messages
// ---------------------------------------------------------------------------

/// The bytes that a message's checksum covers: `type | size | data`. The size
/// field holds the low 16 bits of the length.
pub open spec fn covered(cmd: u16, data: Seq<u8>) -> Seq<u8> {
    be16_bytes(cmd) + be16_bytes((data.len() % 65536) as u16) + data
}

/// The body of a message: what is covered, and its checksum.
pub open spec fn body_of(cmd: u16, data: Seq<u8>, checksum: Checksum) -> Seq<u8> {
    covered(cmd, data) + be16_bytes(checksum.of(covered(cmd, data)))
}

/// A message on the wire.
pub open spec fn message_of(cmd: u16, data: Seq<u8>, checksum: Checksum) -> Seq<u8> {
    seq![FLAG] + escaped(body_of(cmd, data, checksum)) + seq![FLAG]
}

/// Whether a message with `data` can be framed.
pub open spec fn frameable(cmd: u16, data: Seq<u8>, checksum: Checksum) -> bool {
    checksum.computable(covered(cmd, data))
}

/// The longest data that can be framed whatever the bytes are.
pub const MAX_DATA: usize = 131070;

/// Data of [`MAX_DATA`] bytes or fewer can be framed.
pub proof fn law_short_data_is_frameable(cmd: u16, data: Seq<u8>, checksum: Checksum)
    requires
        data.len() <= MAX_DATA,
    ensures
        frameable(cmd, data, checksum),
{
    crate::checksum::law_short_data_is_summable(covered(cmd, data));
}

/// Whether a message with `data` can be framed.
#[must_use]
pub fn is_frameable(cmd: u16, data: &[u8], checksum: Checksum) -> (r: bool)
    ensures
        r == frameable(cmd, data@, checksum),
{
    match checksum {
        Checksum::Crc => true,
        Checksum::Sprd => {
            let mut body: Vec<u8> = Vec::new();
            push_be16(&mut body, cmd);
            push_be16(&mut body, (data.len() % 65536) as u16);
            body.extend_from_slice(data);
            proof {
                assert(body@ =~= covered(cmd, data@));
            }
            is_summable(&body)
        },
    }
}

/// Frame one BSL message for the wire (including the outer 0x7e flags).
#[must_use]
pub fn build_message(cmd: u16, data: &[u8], checksum: Checksum) -> (r: Vec<u8>)
    requires
        frameable(cmd, data@, checksum),
    ensures
        r@ == message_of(cmd, data@, checksum),
{
    let mut body: Vec<u8> = Vec::new();
    push_be16(&mut body, cmd);
    push_be16(&mut body, (data.len() % 65536) as u16);
    body.extend_from_slice(data);
    proof {
        assert(body@ =~= covered(cmd, data@));
    }
    let ck: u16 = checksum.compute(&body);
    push_be16(&mut body, ck);

    let mut msg: Vec<u8> = Vec::new();
    msg.push(FLAG);
    let wire: Vec<u8> = escape(&body);
    msg.extend_from_slice(&wire);
    msg.push(FLAG);
    proof {
        assert(msg@ =~= message_of(cmd, data@, checksum));
    }
    msg
}

/// What an unescaped message body says: its type and data, or what is wrong
/// with it.
pub open spec fn parsed(body: Seq<u8>) -> core::result::Result<(u16, Seq<u8>), Fault> {
    if body.len() < 6 {
        Err(Fault::FrameTooShort(body.len() as usize))
    } else {
        let size = be16_at(body, 2) as int;
        if body.len() - 4 < size + 2 {
            Err(Fault::FrameTruncated { declared: size as usize, got: (body.len() - 6) as usize })
        } else {
            Ok((be16_at(body, 0), body.subrange(4, 4 + size)))
        }
    }
}

/// Decode an already-unescaped message body (no 0x7e flags): returns
/// `(type, data)`.
pub fn parse_message(body: &[u8]) -> (r: Result<(u16, &[u8])>)
    ensures
        match r {
            Ok((cmd, data)) => parsed(body@) == Ok::<(u16, Seq<u8>), Fault>((cmd, data@)),
            Err(e) => parsed(body@) == Err::<(u16, Seq<u8>), Fault>(e@),
        },
{
    if body.len() < 6 {
        return Err(Error::FrameTooShort(body.len()));
    }
    let cmd: u16 = join_be16(body[0], body[1]);
    let size: usize = join_be16(body[2], body[3]) as usize;
    // data + 2-byte checksum must fit
    if body.len() - 4 < size + 2 {
        return Err(Error::FrameTruncated { declared: size, got: body.len() - 6 });
    }
    Ok((cmd, vstd::slice::slice_subrange(body, 4, 4 + size)))
}

/// Which checksum an unescaped message body carries: the Spreadtrum sum if that
/// matches, else CRC-16 if that does.
pub open spec fn detected(body: Seq<u8>) -> Option<Checksum> {
    if body.len() < 6 {
        None
    } else {
        let kept = body.take(body.len() - 2);
        let carried = be16_at(body, body.len() - 2);
        if sprd_sum_of(kept) == carried {
            Some(Checksum::Sprd)
        } else if crc16_ccitt_of(kept) == carried {
            Some(Checksum::Crc)
        } else {
            None
        }
    }
}

/// Detect which checksum validates an unescaped frame body, if any.
#[must_use]
pub fn detect_checksum(body: &[u8]) -> (r: Option<Checksum>)
    requires
        body@.len() >= 6 ==> summable(body@.take(body@.len() - 2)),
    ensures
        r == detected(body@),
{
    if body.len() < 6 {
        return None;
    }
    let n: usize = body.len();
    let payload: &[u8] = vstd::slice::slice_subrange(body, 0, n - 2);
    proof {
        assert(payload@ =~= body@.take(n - 2));
    }
    let chk: u16 = join_be16(body[n - 2], body[n - 1]);
    if sprd_sum(payload) == chk {
        Some(Checksum::Sprd)
    } else if crc16_ccitt(payload) == chk {
        Some(Checksum::Crc)
    } else {
        None
    }
}

// ---------------------------------------------------------------------------
// Finding frames in a byte stream
// ---------------------------------------------------------------------------

/// The first place at or after `from` that holds no flag.
pub open spec fn past_flags(buf: Seq<u8>, from: int) -> int
    decreases buf.len() - from,
{
    if 0 <= from < buf.len() && buf[from] == FLAG {
        past_flags(buf, from + 1)
    } else {
        from
    }
}

/// The unescaped body of the first complete frame in `buf`: what stands between
/// the first run of flags and the next flag.
pub open spec fn frame_body(buf: Seq<u8>) -> Option<Seq<u8>> {
    match index_from(buf, FLAG, 0) {
        None => None,
        Some(open) => {
            let start = past_flags(buf, open);
            match index_from(buf, FLAG, start) {
                None => None,
                Some(close) => Some(unescaped(buf.subrange(start, close))),
            }
        },
    }
}

/// Find the first complete BSL frame in `buf` and return its unescaped body.
pub fn find_frame_body(buf: &[u8]) -> (r: Option<Vec<u8>>)
    ensures
        match r {
            Some(body) => frame_body(buf@) == Some(body@),
            None => frame_body(buf@) is None,
        },
{
    // skip to the opening flag, then over any run of flags
    let open: usize = match find_byte(buf, FLAG, 0) {
        Some(i) => i,
        None => return None,
    };
    let mut i: usize = open;
    while i < buf.len() && buf[i] == FLAG
        invariant
            open <= i <= buf@.len(),
            past_flags(buf@, open as int) == past_flags(buf@, i as int),
        decreases buf.len() - i,
    {
        i += 1;
    }
    if i >= buf.len() {
        return None;
    }
    match find_byte(buf, FLAG, i) {
        Some(close) => {
            let wire: Vec<u8> = copy_range(buf, i, close);
            Some(unescape(&wire))
        },
        None => None,
    }
}

/// The first `0x7e … 0x7e` stretch of `buf`, flags included.
pub open spec fn flag_frame(buf: Seq<u8>) -> Option<Seq<u8>> {
    match index_from(buf, FLAG, 0) {
        None => None,
        Some(open) => match index_from(buf, FLAG, open + 1) {
            None => None,
            Some(close) => Some(buf.subrange(open, close + 1)),
        },
    }
}

/// Extract the first complete `0x7e … 0x7e` frame (inclusive of flags).
pub fn extract_flag_frame(buf: &[u8]) -> (r: Option<Vec<u8>>)
    ensures
        match r {
            Some(frame) => flag_frame(buf@) == Some(frame@) && frame@.len() >= 2,
            None => flag_frame(buf@) is None,
        },
{
    let open: usize = match find_byte(buf, FLAG, 0) {
        Some(i) => i,
        None => return None,
    };
    match find_byte(buf, FLAG, open + 1) {
        Some(close) => Some(copy_range(buf, open, close + 1)),
        None => None,
    }
}

// ---------------------------------------------------------------------------
// What the framing promises as a whole
// ---------------------------------------------------------------------------

proof fn lemma_body_shape(cmd: u16, data: Seq<u8>, checksum: Checksum)
    ensures
        body_of(cmd, data, checksum).len() == data.len() + 6,
        body_of(cmd, data, checksum).take(data.len() as int + 4) == covered(cmd, data),
        be16_at(body_of(cmd, data, checksum), 0) == cmd,
        be16_at(body_of(cmd, data, checksum), 2) == data.len() % 65536,
        be16_at(body_of(cmd, data, checksum), data.len() as int + 4) == checksum.of(covered(cmd, data)),
{
    let body = body_of(cmd, data, checksum);
    assert(body.take(data.len() as int + 4) =~= covered(cmd, data));
    crate::bytes::law_16_bit_roundtrip(cmd);
    crate::bytes::law_16_bit_roundtrip((data.len() % 65536) as u16);
    crate::bytes::law_16_bit_roundtrip(checksum.of(covered(cmd, data)));
}

/// Parsing the body of a message gives back its type and data, for data that the
/// 16-bit size field can count.
pub proof fn law_parse_undoes_build(cmd: u16, data: Seq<u8>, checksum: Checksum)
    requires
        data.len() <= 65535,
    ensures
        parsed(body_of(cmd, data, checksum)) == Ok::<(u16, Seq<u8>), Fault>((cmd, data)),
{
    lemma_body_shape(cmd, data, checksum);
    let body = body_of(cmd, data, checksum);
    assert(body.subrange(4, 4 + data.len() as int) =~= data);
}

/// A message on the wire, with any bytes but flags before it and anything behind
/// it, is found and unescaped to its body.
pub proof fn law_message_is_found(
    before: Seq<u8>,
    cmd: u16,
    data: Seq<u8>,
    checksum: Checksum,
    after: Seq<u8>,
)
    requires
        !before.contains(FLAG),
    ensures
        frame_body(before + message_of(cmd, data, checksum) + after) == Some(
            body_of(cmd, data, checksum),
        ),
{
    let body = body_of(cmd, data, checksum);
    let wire = escaped(body);
    let buf = before + message_of(cmd, data, checksum) + after;
    law_escaped_has_no_flag(body);
    law_unescape_undoes_escape(body);
    lemma_body_shape(cmd, data, checksum);
    law_escaped_length(body);
    let open = before.len() as int;
    let close = open + 1 + wire.len();
    assert forall|k: int| 0 <= k < open implies buf[k] != FLAG by {
        assert(before.contains(before[k]));
    }
    lemma_index_from_is(buf, FLAG, 0, open);
    assert forall|k: int| open < k < close implies buf[k] != FLAG by {
        assert(buf[k] == wire[k - open - 1]);
        assert(wire.contains(wire[k - open - 1]));
    }
    reveal_with_fuel(past_flags, 2);
    assert(past_flags(buf, open) == open + 1);
    lemma_index_from_is(buf, FLAG, open + 1, close);
    assert(buf.subrange(open + 1, close) =~= wire);
}

/// The checksum of a message body is detected. A CRC body whose Spreadtrum sum
/// happens to match too is taken for a Spreadtrum one.
pub proof fn law_checksum_is_detected(cmd: u16, data: Seq<u8>)
    ensures
        detected(body_of(cmd, data, Checksum::Sprd)) == Some(Checksum::Sprd),
        detected(body_of(cmd, data, Checksum::Crc)) == Some(
            if sprd_sum_of(covered(cmd, data)) == crc16_ccitt_of(covered(cmd, data)) {
                Checksum::Sprd
            } else {
                Checksum::Crc
            },
        ),
{
    lemma_body_shape(cmd, data, Checksum::Sprd);
    lemma_body_shape(cmd, data, Checksum::Crc);
}

/// What a message looks like on the wire: between two flags (`7e`) the body stands, escaped;
/// the body holds the type and the length of the data (modulo 65536), most significant byte
/// first, then the data, then the checksum of all that, most significant byte first.
pub proof fn law_message_layout(cmd: u16, data: Seq<u8>, checksum: Checksum)
    ensures
        ({
            let wire = message_of(cmd, data, checksum);
            let body = body_of(cmd, data, checksum);
            let n = data.len() as int;
            let kept = body.take(n + 4);
            let sum = match checksum {
                Checksum::Sprd => sprd_sum_of(kept),
                Checksum::Crc => crc16_ccitt_of(kept),
            };
            &&& wire.len() >= 2 && wire[0] == 0x7E && wire.last() == 0x7E
            &&& wire.subrange(1, wire.len() - 1) == escaped(body)
            &&& !escaped(body).contains(0x7E)
            &&& unescaped(wire.subrange(1, wire.len() - 1)) == body
            &&& body.len() == n + 6
            &&& 256 * body[0] + body[1] == cmd
            &&& 256 * body[2] + body[3] == n % 65536
            &&& body.subrange(4, n + 4) == data
            &&& 256 * body[n + 4] + body[n + 5] == sum
        }),
{
    let wire = message_of(cmd, data, checksum);
    let body = body_of(cmd, data, checksum);
    let n = data.len() as int;
    law_escaped_has_no_flag(body);
    law_unescape_undoes_escape(body);
    let a = be16_bytes(cmd);
    let b = be16_bytes((data.len() % 65536) as u16);
    let c = be16_bytes(checksum.of(covered(cmd, data)));
    crate::bytes::law_16_bit_digits(cmd);
    crate::bytes::law_16_bit_digits((data.len() % 65536) as u16);
    crate::bytes::law_16_bit_digits(checksum.of(covered(cmd, data)));
    assert(body.take(n + 4) =~= covered(cmd, data));
    assert(body[0] == a[0] && body[1] == a[1] && body[2] == b[0] && body[3] == b[1]);
    assert(body[n + 4] == c[0] && body[n + 5] == c[1]);
    assert(body.subrange(4, n + 4) =~= data);
    assert(wire.subrange(1, wire.len() - 1) =~= escaped(body));
}

/// How a byte is escaped: `7e` goes out as `7d 5e`, `7d` as `7d 5d`, any other byte as it is;
/// and some bytes go out one after the other.
pub proof fn law_escaped_bytes(frame: Seq<u8>, b: u8)
    ensures
        escaped(Seq::empty()) == Seq::<u8>::empty(),
        escaped(frame.push(b)) == escaped(frame) + if b == 0x7E {
            seq![0x7Du8, 0x5Eu8]
        } else if b == 0x7D {
            seq![0x7Du8, 0x5Du8]
        } else {
            seq![b]
        },
{
    assert(frame.push(b) =~= frame + seq![b]);
    law_escape_goes_byte_by_byte(frame, seq![b]);
    reveal_with_fuel(escaped, 2);
    assert(seq![b].skip(1) =~= Seq::<u8>::empty());
    assert(0x7Eu8 ^ 0x20 == 0x5E) by (bit_vector);
    assert(0x7Du8 ^ 0x20 == 0x5D) by (bit_vector);
    assert(escaped(seq![b]) =~= escaped_byte(b));
}

/// How wire bytes are read, from the front: `7d` and a byte behind it stand for that byte
/// with one bit (0x20) turned over; `7d` at the very end for nothing; any other byte for
/// itself.
pub proof fn law_unescaped_bytes(b: u8, rest: Seq<u8>)
    ensures
        unescaped(Seq::empty()) == Seq::<u8>::empty(),
        b != 0x7D ==> unescaped(seq![b] + rest) == seq![b] + unescaped(rest),
        unescaped(seq![0x7Du8]) == Seq::<u8>::empty(),
        unescaped(seq![0x7Du8, b] + rest) == seq![b ^ 0x20] + unescaped(rest),
{
    assert((seq![b] + rest).skip(1) =~= rest);
    assert((seq![0x7Du8, b] + rest).skip(2) =~= rest);
}

/// What a body is read as. One of fewer than six bytes is too short. Its type is in its
/// first two bytes and the length of its data in the next two, most significant byte first;
/// it holds that much data behind them, and two bytes more; if it does not, it is cut off,
/// and the length that it declares and what there is are told.
pub proof fn law_body_is_read(body: Seq<u8>)
    requires
        body.len() <= usize::MAX,
    ensures
        match parsed(body) {
            Ok((kind, data)) => {
                &&& body.len() >= data.len() + 6
                &&& kind == 256 * body[0] + body[1]
                &&& data.len() == 256 * body[2] + body[3]
                &&& data == body.subrange(4, 4 + data.len() as int)
            },
            Err(Fault::FrameTooShort(n)) => n == body.len() && n < 6,
            Err(Fault::FrameTruncated { declared, got }) => body.len() >= 6 && declared == 256
                * body[2] + body[3] && got == body.len() - 6 && got < declared,
            Err(_) => false,
        },
{
    if body.len() >= 6 {
        crate::bytes::law_fields_are_digits(body, 0);
        crate::bytes::law_fields_are_digits(body, 2);
    }
}

/// Whether the first frame of some bytes is opened by the flags from `open` to before `from`,
/// and closed by the flag at `to`: no byte before `open` and none from `from` to before `to` is
/// a flag, and there is at least one of the latter.
pub open spec fn frame_stands(buf: Seq<u8>, open: int, from: int, to: int) -> bool {
    &&& 0 <= open < from < to < buf.len()
    &&& forall|k: int| 0 <= k < open ==> #[trigger] buf[k] != 0x7E
    &&& forall|k: int| open <= k < from ==> #[trigger] buf[k] == 0x7E
    &&& forall|k: int| from <= k < to ==> #[trigger] buf[k] != 0x7E
    &&& buf[to] == 0x7E
}

/// The first frame in some bytes is what stands between the first flags and the next flag
/// behind other bytes. If none is found, no two flags have other bytes alone between them.
pub proof fn law_first_frame_is_found(buf: Seq<u8>)
    ensures
        match frame_body(buf) {
            Some(body) => exists|open: int, from: int, to: int|
                #[trigger] frame_stands(buf, open, from, to) && body == unescaped(
                    buf.subrange(from, to),
                ),
            None => forall|i: int, j: int|
                0 <= i && i + 1 < j < buf.len() && #[trigger] buf[i] == 0x7E
                    && #[trigger] buf[j] == 0x7E ==> exists|k: int|
                    i < k < j && #[trigger] buf[k] == 0x7E,
        },
{
    crate::bytes::lemma_index_from(buf, FLAG, 0);
    match index_from(buf, FLAG, 0) {
        None => {},
        Some(open) => {
            lemma_past_flags(buf, open);
            let from = past_flags(buf, open);
            crate::bytes::lemma_index_from(buf, FLAG, from);
            match index_from(buf, FLAG, from) {
                Some(to) => {
                    assert(frame_stands(buf, open, from, to));
                },
                None => {
                    assert forall|i: int, j: int|
                        0 <= i && i + 1 < j < buf.len() && #[trigger] buf[i] == 0x7E
                            && #[trigger] buf[j] == 0x7E implies exists|k: int|
                        i < k < j && #[trigger] buf[k] == 0x7E by {
                        assert(open <= i && j < from);
                        assert(buf[j - 1] == 0x7E);
                    }
                },
            }
        },
    }
}

proof fn lemma_past_flags(buf: Seq<u8>, from: int)
    requires
        0 <= from <= buf.len(),
    ensures
        from <= past_flags(buf, from) <= buf.len(),
        forall|k: int| from <= k < past_flags(buf, from) ==> #[trigger] buf[k] == FLAG,
        past_flags(buf, from) < buf.len() ==> buf[past_flags(buf, from)] != FLAG,
        from < buf.len() && buf[from] == FLAG ==> past_flags(buf, from) > from,
    decreases buf.len() - from,
{
    if from < buf.len() && buf[from] == FLAG {
        lemma_past_flags(buf, from + 1);
    }
}

/// The first stretch from one flag to the next, both included: it begins and ends with a
/// flag and has none between; nothing before it is a flag; and there is none just if there
/// are not two flags.
pub proof fn law_first_flag_frame_is_found(buf: Seq<u8>)
    ensures
        match flag_frame(buf) {
            Some(frame) => exists|from: int, to: int|
                0 <= from < to < buf.len() && frame == #[trigger] buf.subrange(from, to + 1)
                    && buf[from] == 0x7E && buf[to] == 0x7E && (forall|k: int|
                    0 <= k < from ==> #[trigger] buf[k] != 0x7E) && forall|k: int|
                    from < k < to ==> #[trigger] buf[k] != 0x7E,
            None => forall|i: int, j: int|
                0 <= i < j < buf.len() ==> !(#[trigger] buf[i] == 0x7E && #[trigger] buf[j]
                    == 0x7E),
        },
{
    crate::bytes::lemma_index_from(buf, FLAG, 0);
    match index_from(buf, FLAG, 0) {
        None => {},
        Some(open) => {
            crate::bytes::lemma_index_from(buf, FLAG, open + 1);
            match index_from(buf, FLAG, open + 1) {
                Some(close) => {
                    assert(flag_frame(buf) == Some(buf.subrange(open, close + 1)));
                },
                None => {},
            }
        },
    }
}

/// Which checksum a body is found to carry matches: the last two bytes, most significant
/// first, are that checksum of the rest. If none is found, neither matches.
pub proof fn law_detected_checksum_matches(body: Seq<u8>)
    ensures
        body.len() < 6 ==> detected(body) is None,
        body.len() >= 6 ==> ({
            let n = body.len() - 2;
            let carried = 256 * body[n] + body[n + 1];
            match detected(body) {
                Some(Checksum::Sprd) => sprd_sum_of(body.take(n)) == carried,
                Some(Checksum::Crc) => crc16_ccitt_of(body.take(n)) == carried && sprd_sum_of(
                    body.take(n),
                ) != carried,
                None => crc16_ccitt_of(body.take(n)) != carried && sprd_sum_of(body.take(n))
                    != carried,
            }
        }),
{
    if body.len() >= 6 {
        crate::bytes::law_fields_are_digits(body, body.len() - 2);
    }
}

/// Two reply types that have different names are different, and each name is that of its
/// type on the wire.
pub proof fn law_reply_names(code: u16)
    ensures
        code == 0x80 ==> rep_name_of(code) == "ACK"@,
        code == 0x81 ==> rep_name_of(code) == "VER"@,
        code == 0x82 ==> rep_name_of(code) == "INVALID_CMD"@,
        code == 0x83 ==> rep_name_of(code) == "UNKNOWN_CMD"@,
        code == 0x84 ==> rep_name_of(code) == "OPERATION_FAILED"@,
        code == 0x93 ==> rep_name_of(code) == "READ_FLASH"@,
        code == 0x94 ==> rep_name_of(code) == "READ_CHIP_TYPE"@,
        code == 0xAB ==> rep_name_of(code) == "READ_CHIP_UID"@,
        code == 0xFE ==> rep_name_of(code) == "UNSUPPORTED_COMMAND"@,
        code != 0x80 && code != 0x81 && code != 0x82 && code != 0x83 && code != 0x84 && code != 0x93
            && code != 0x94 && code != 0xAB && code != 0xFE ==> rep_name_of(code) == "?"@,
{
}

/// Unescaping makes no frame longer.
pub proof fn lemma_unescaped_len(frame: Seq<u8>)
    ensures
        unescaped(frame).len() <= frame.len(),
    decreases frame.len(),
{
    if frame.len() > 0 {
        if frame[0] == ESCAPE && frame.len() >= 2 {
            lemma_unescaped_len(frame.skip(2));
        } else {
            lemma_unescaped_len(frame.skip(1));
        }
    }
}

} // verus!
