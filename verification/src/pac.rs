//! Parser and validator for SPRD/UNISOC `.pac` firmware packages.
//!
//! Layout: a fixed 2124-byte UTF-16LE header, a table of 2580-byte per-file
//! headers, then the raw payloads. Two CRC-16-ARC values protect the header and
//! the payload area. Everything operates on an in-memory slice (mmap the file
//! and pass `&mmap`), so parsing never copies the payloads.

use vstd::prelude::*;

use crate::bytes::{join_be16, join_be32, le16_at, le32_at};
use crate::checksum::{crc16_arc, crc16_arc_of, crc16_arc_from, crc16_arc_on};
use crate::error::{Error, Fault, Result};
use crate::text::is_scalar;

verus! {

/// Size of the fixed PAC header, in bytes.
pub const HEADER_SIZE: usize = 2124;

/// Size of one per-file table entry, in bytes.
pub const FILE_HEADER_SIZE: usize = 2580;

/// Magic value expected in the header.
pub const MAGIC: u32 = 0xFFFA_FFFA;

// Header field offsets.
pub const OFF_PAC_SIZE: usize = 48;

pub const OFF_PRD_NAME: usize = 52;

pub const OFF_PRD_VERSION: usize = 564;

pub const OFF_FILE_COUNT: usize = 1076;

pub const OFF_FILE_OFFSET: usize = 1080;

pub const OFF_MODE: usize = 1084;

pub const OFF_FLASH_TYPE: usize = 1088;

pub const OFF_MAGIC: usize = 2116;

/// Where the header CRC stands; it covers everything before it.
pub const OFF_CRC1: usize = 2120;

/// Where the payload CRC stands; it covers everything behind the header.
pub const OFF_CRC2: usize = 2122;

// File-header field offsets.
pub const FOFF_FILE_ID: usize = 4;

pub const FOFF_FILE_NAME: usize = 516;

pub const FOFF_DATA_SIZE: usize = 1540;

pub const FOFF_FLAG: usize = 1544;

pub const FOFF_DATA_OFFSET: usize = 1552;

pub const FOFF_OMIT: usize = 1556;

pub const FOFF_ADDRESS: usize = 1564;

/// Bytes in a name field.
pub const NAME_LEN: usize = 512;

/// One entry in the PAC file table.
#[derive(Debug, Clone)]
pub struct PacEntry {
    /// Short identifier, e.g. `HOST_FDL`, `AP`, `NV`, `FMT_FSSYS`.
    pub file_id: String,
    /// Original file name (may be empty for markers).
    pub file_name: String,
    /// Payload size in bytes (0 for markers).
    pub size: u32,
    /// Byte offset of the payload within the PAC.
    pub offset: u32,
    /// Logical/physical load address (`>= LOGICAL_ADDRESS_BASE` ⇒ marker).
    pub address: u32,
    /// Raw flag field.
    pub flag: u32,
    /// Raw "omit" field.
    pub omit: u32,
}

/// What a [`PacEntry`] says, with its texts as characters.
pub struct Entry {
    pub file_id: Seq<char>,
    pub file_name: Seq<char>,
    pub size: u32,
    pub offset: u32,
    pub address: u32,
    pub flag: u32,
    pub omit: u32,
}

impl View for PacEntry {
    type V = Entry;

    open spec fn view(&self) -> Entry {
        Entry {
            file_id: self.file_id@,
            file_name: self.file_name@,
            size: self.size,
            offset: self.offset,
            address: self.address,
            flag: self.flag,
            omit: self.omit,
        }
    }
}

impl Entry {
    /// The payload bytes for this entry within the file `pac`, if they lie in it.
    pub open spec fn payload(self, pac: Seq<u8>) -> Option<Seq<u8>> {
        if self.offset + self.size <= pac.len() {
            Some(pac.subrange(self.offset as int, self.offset + self.size))
        } else {
            None
        }
    }
}

impl PacEntry {
    /// True for pseudo-entries (erase/format/phase-check markers) with no payload.
    #[must_use]
    pub fn is_marker(&self) -> (r: bool)
        ensures
            r == (self.size == 0),
    {
        self.size == 0
    }

    /// The payload bytes for this entry within `pac` (the full file buffer).
    #[must_use]
    pub fn payload<'a>(&self, pac: &'a [u8]) -> (r: Option<&'a [u8]>)
        ensures
            match r {
                Some(data) => self@.payload(pac@) == Some(data@) && data@.len() == self.size,
                None => self@.payload(pac@) is None,
            },
    {
        let start: usize = self.offset as usize;
        if start > pac.len() || self.size as usize > pac.len() - start {
            return None;
        }
        Some(vstd::slice::slice_subrange(pac, start, start + self.size as usize))
    }
}

/// Parsed and validated PAC metadata plus its file table.
#[derive(Debug, Clone)]
pub struct PacInfo {
    /// PAC format version string.
    pub version: String,
    /// Product name (e.g. `LuatOS-Air_V4035_...`).
    pub product_name: String,
    /// Product version string.
    pub product_version: String,
    /// Total size recorded in the header (== file length).
    pub size: u32,
    /// Download mode field.
    pub mode: u32,
    /// Flash type field.
    pub flash_type: u32,
    /// Magic value from the header.
    pub magic: u32,
    /// Whether the header CRC matched.
    pub header_crc_ok: bool,
    /// Whether the payload CRC matched (`None` if not checked).
    pub payload_crc_ok: Option<bool>,
    /// The file table, in file order.
    pub entries: Vec<PacEntry>,
}

/// What a [`PacInfo`] says, with its texts as characters.
pub struct Package {
    pub version: Seq<char>,
    pub product_name: Seq<char>,
    pub product_version: Seq<char>,
    pub size: u32,
    pub mode: u32,
    pub flash_type: u32,
    pub magic: u32,
    pub header_crc_ok: bool,
    pub payload_crc_ok: Option<bool>,
    pub entries: Seq<Entry>,
}

/// The views of some entries.
pub open spec fn entry_views(entries: Seq<PacEntry>) -> Seq<Entry> {
    entries.map_values(|e: PacEntry| e@)
}

impl View for PacInfo {
    type V = Package;

    open spec fn view(&self) -> Package {
        Package {
            version: self.version@,
            product_name: self.product_name@,
            product_version: self.product_version@,
            size: self.size,
            mode: self.mode,
            flash_type: self.flash_type,
            magic: self.magic,
            header_crc_ok: self.header_crc_ok,
            payload_crc_ok: self.payload_crc_ok,
            entries: entry_views(self.entries@),
        }
    }
}

impl Package {
    /// The header CRC matches and the payload CRC did not fail.
    pub open spec fn crc_ok(self) -> bool {
        self.header_crc_ok && self.payload_crc_ok != Some(false)
    }
}

impl PacInfo {
    /// True when the header CRC matches and the payload CRC did not fail.
    #[must_use]
    pub fn crc_ok(&self) -> (r: bool)
        ensures
            r == self@.crc_ok(),
    {
        self.header_crc_ok && match self.payload_crc_ok {
            Some(ok) => ok,
            None => true,
        }
    }
}

// ---------------------------------------------------------------------------
// Fields
// ---------------------------------------------------------------------------

/// The 32-bit little-endian field at `off`.
pub fn u32_at(buf: &[u8], off: usize) -> (r: u32)
    requires
        off + 4 <= buf@.len(),
    ensures
        r == le32_at(buf@, off as int),
{
    let n: usize = buf.len();
    join_be32(buf[off + 3], buf[off + 2], buf[off + 1], buf[off])
}

/// The 16-bit little-endian field at `off`.
pub fn u16_at(buf: &[u8], off: usize) -> (r: u16)
    requires
        off + 2 <= buf@.len(),
    ensures
        r == le16_at(buf@, off as int),
{
    let n: usize = buf.len();
    join_be16(buf[off + 1], buf[off])
}

/// One UTF-16 unit as a character; a surrogate half becomes U+FFFD.
pub open spec fn unit_char(u: u16) -> char {
    if is_scalar(u as u32) {
        u as u32 as char
    } else {
        '\u{FFFD}'
    }
}

/// The text of a NUL-terminated UTF-16LE field: its units up to the first zero
/// one, or up to its end.
pub open spec fn utf16z_of(raw: Seq<u8>) -> Seq<char>
    decreases raw.len(),
{
    if raw.len() < 2 || le16_at(raw, 0) == 0 {
        Seq::empty()
    } else {
        seq![unit_char(le16_at(raw, 0))] + utf16z_of(raw.skip(2))
    }
}

/// Decode a NUL-terminated UTF-16LE fixed field.
pub fn utf16z(raw: &[u8]) -> (r: String)
    ensures
        r@ == utf16z_of(raw@),
{
    let mut s: String = String::new();
    let mut i: usize = 0;
    let n: usize = raw.len();
    proof {
        assert(raw@.skip(0) =~= raw@);
        assert(s@ + utf16z_of(raw@) =~= utf16z_of(raw@));
    }
    while n - i >= 2
        invariant
            i <= n == raw@.len(),
            s@ + utf16z_of(raw@.skip(i as int)) == utf16z_of(raw@),
        decreases n - i,
    {
        let u: u16 = u16_at(raw, i);
        let ghost rest = raw@.skip(i as int);
        let ghost done = s@;
        proof {
            assert(rest[0] == raw@[i as int] && rest[1] == raw@[i + 1]);
        }
        if u == 0 {
            proof {
                assert(s@ + Seq::<char>::empty() =~= s@);
            }
            return s;
        }
        // decode one UTF-16 unit (surrogate-tolerant via replacement)
        match char::from_u32(u as u32) {
            Some(c) => {
                s.push(c);
            },
            None => {
                s.push('\u{FFFD}');
            },
        }
        i += 2;
        proof {
            assert(rest.skip(2) =~= raw@.skip(i as int));
            assert(s@ =~= done + seq![unit_char(u)]);
            assert(s@ + utf16z_of(raw@.skip(i as int)) =~= done + utf16z_of(rest));
        }
    }
    proof {
        assert(s@ + Seq::<char>::empty() =~= s@);
    }
    s
}

// ---------------------------------------------------------------------------
// The file
// ---------------------------------------------------------------------------

/// Where the table entry `idx` of the file `pac` begins.
pub open spec fn entry_base(pac: Seq<u8>, idx: int) -> int {
    le32_at(pac, OFF_FILE_OFFSET as int) + idx * FILE_HEADER_SIZE
}

/// The table entry `idx` of the file `pac`.
pub open spec fn entry_at(pac: Seq<u8>, idx: int) -> Entry {
    let base = entry_base(pac, idx);
    Entry {
        file_id: utf16z_of(pac.subrange(base + FOFF_FILE_ID, base + FOFF_FILE_ID + NAME_LEN)),
        file_name: utf16z_of(pac.subrange(base + FOFF_FILE_NAME, base + FOFF_FILE_NAME + NAME_LEN)),
        size: le32_at(pac, base + FOFF_DATA_SIZE),
        offset: le32_at(pac, base + FOFF_DATA_OFFSET),
        address: le32_at(pac, base + FOFF_ADDRESS),
        flag: le32_at(pac, base + FOFF_FLAG),
        omit: le32_at(pac, base + FOFF_OMIT),
    }
}

/// Whether the table entry `idx` lies within the file.
pub open spec fn entry_present(pac: Seq<u8>, idx: int) -> bool {
    entry_base(pac, idx) + FILE_HEADER_SIZE <= pac.len()
}

/// Whether the table entry `idx` is there and its payload, if it has one, lies
/// within the file.
pub open spec fn entry_sound(pac: Seq<u8>, idx: int) -> bool {
    entry_present(pac, idx) && (entry_at(pac, idx).size == 0 || entry_at(pac, idx).payload(
        pac,
    ) is Some)
}

/// What is wrong with the table entry `idx`, which is not sound.
pub open spec fn entry_fault(pac: Seq<u8>, idx: int) -> Fault {
    if !entry_present(pac, idx) {
        Fault::PacTruncatedTable(idx as u32)
    } else {
        let e = entry_at(pac, idx);
        Fault::PacEntryOutOfRange {
            file_id: e.file_id,
            offset: e.offset as u64,
            size: e.size as u64,
        }
    }
}

/// The first table entry from `idx` on, of `count`, that is not sound.
pub open spec fn first_unsound(pac: Seq<u8>, idx: int, count: int) -> Option<int>
    decreases count - idx,
{
    if idx >= count {
        None
    } else if !entry_sound(pac, idx) {
        Some(idx)
    } else {
        first_unsound(pac, idx + 1, count)
    }
}

/// The stored header CRC matches what it covers.
pub open spec fn header_crc_matches(pac: Seq<u8>) -> bool {
    crc16_arc_of(pac.take(OFF_CRC1 as int)) == le16_at(pac, OFF_CRC1 as int)
}

/// The stored payload CRC matches what it covers.
pub open spec fn payload_crc_matches(pac: Seq<u8>) -> bool {
    crc16_arc_of(pac.skip(HEADER_SIZE as int)) == le16_at(pac, OFF_CRC2 as int)
}

/// How many entries the table of the file `pac` has.
pub open spec fn entry_count(pac: Seq<u8>) -> int {
    le32_at(pac, OFF_FILE_COUNT as int) as int
}

/// What the bytes of a PAC file say, or the first thing that is wrong with them.
pub open spec fn parsed(pac: Seq<u8>, verify_payload: bool) -> core::result::Result<
    Package,
    Fault,
> {
    if pac.len() < HEADER_SIZE {
        Err(Fault::PacTooSmall(pac.len() as u64))
    } else if le32_at(pac, OFF_PAC_SIZE as int) != pac.len() {
        Err(
            Fault::PacSizeMismatch {
                declared: le32_at(pac, OFF_PAC_SIZE as int) as u64,
                actual: pac.len() as u64,
            },
        )
    } else {
        match first_unsound(pac, 0, entry_count(pac)) {
            Some(idx) => Err(entry_fault(pac, idx)),
            None => Ok(
                Package {
                    version: utf16z_of(pac.take(48)),
                    product_name: utf16z_of(
                        pac.subrange(OFF_PRD_NAME as int, OFF_PRD_NAME + NAME_LEN),
                    ),
                    product_version: utf16z_of(
                        pac.subrange(OFF_PRD_VERSION as int, OFF_PRD_VERSION + NAME_LEN),
                    ),
                    size: le32_at(pac, OFF_PAC_SIZE as int),
                    mode: le32_at(pac, OFF_MODE as int),
                    flash_type: le32_at(pac, OFF_FLASH_TYPE as int),
                    magic: le32_at(pac, OFF_MAGIC as int),
                    header_crc_ok: header_crc_matches(pac),
                    payload_crc_ok: if verify_payload {
                        Some(payload_crc_matches(pac))
                    } else {
                        None
                    },
                    entries: Seq::new(entry_count(pac) as nat, |i: int| entry_at(pac, i)),
                },
            ),
        }
    }
}

/// A name field as text.
fn text_field(buf: &[u8], off: usize, len: usize) -> (r: String)
    requires
        off + len <= buf@.len(),
    ensures
        r@ == utf16z_of(buf@.subrange(off as int, off + len)),
{
    let n: usize = buf.len();
    utf16z(vstd::slice::slice_subrange(buf, off, off + len))
}

/// Read the table entry whose header begins at `base`.
fn read_entry(pac: &[u8], base: usize, idx: Ghost<int>) -> (r: PacEntry)
    requires
        base == entry_base(pac@, idx@),
        base + FILE_HEADER_SIZE <= pac@.len(),
    ensures
        r@ == entry_at(pac@, idx@),
{
    let n: usize = pac.len();
    PacEntry {
        file_id: text_field(pac, base + FOFF_FILE_ID, NAME_LEN),
        file_name: text_field(pac, base + FOFF_FILE_NAME, NAME_LEN),
        size: u32_at(pac, base + FOFF_DATA_SIZE),
        offset: u32_at(pac, base + FOFF_DATA_OFFSET),
        address: u32_at(pac, base + FOFF_ADDRESS),
        flag: u32_at(pac, base + FOFF_FLAG),
        omit: u32_at(pac, base + FOFF_OMIT),
    }
}

/// The CRC-16-ARC of everything behind the header, streamed in 1 MiB chunks.
fn payload_crc(pac: &[u8]) -> (r: u16)
    requires
        HEADER_SIZE <= pac@.len(),
    ensures
        r == crc16_arc_of(pac@.skip(HEADER_SIZE as int)),
{
    let n: usize = pac.len();
    let mut crc: u16 = 0;
    let mut at: usize = HEADER_SIZE;
    proof {
        assert(pac@.subrange(HEADER_SIZE as int, HEADER_SIZE as int) =~= Seq::<u8>::empty());
    }
    while at < n
        invariant
            HEADER_SIZE <= at <= n == pac@.len(),
            crc == crc16_arc_on(0, pac@.subrange(HEADER_SIZE as int, at as int)),
        decreases n - at,
    {
        let step: usize = if n - at < 1048576 {
            n - at
        } else {
            1048576
        };
        let chunk: &[u8] = vstd::slice::slice_subrange(pac, at, at + step);
        crc = crc16_arc_from(crc, chunk);
        proof {
            let done = pac@.subrange(HEADER_SIZE as int, at as int);
            crate::checksum::law_crc16_arc_streams(0, done, chunk@);
            assert(done + chunk@ =~= pac@.subrange(HEADER_SIZE as int, at + step));
        }
        at += step;
    }
    proof {
        assert(pac@.subrange(HEADER_SIZE as int, n as int) =~= pac@.skip(HEADER_SIZE as int));
    }
    crc
}

/// Read the file table, up to the first entry that is not sound.
fn read_table(pac: &[u8]) -> (r: Result<Vec<PacEntry>>)
    requires
        HEADER_SIZE <= pac@.len(),
    ensures
        match r {
            Ok(entries) => {
                &&& first_unsound(pac@, 0, entry_count(pac@)) is None
                &&& entries@.len() == entry_count(pac@)
                &&& forall|k: int|
                    0 <= k < entries@.len() ==> (#[trigger] entries@[k])@ == entry_at(pac@, k)
            },
            Err(e) => first_unsound(pac@, 0, entry_count(pac@)) matches Some(idx) && e@
                == entry_fault(pac@, idx),
        },
{
    let len: usize = pac.len();
    let n: u64 = len as u64;
    let file_count: u32 = u32_at(pac, OFF_FILE_COUNT);
    let file_offset: u64 = u32_at(pac, OFF_FILE_OFFSET) as u64;
    let mut entries: Vec<PacEntry> = Vec::new();
    let mut idx: u32 = 0;
    while idx < file_count
        invariant
            idx <= file_count,
            n == len == pac@.len(),
            file_count == entry_count(pac@),
            file_offset == le32_at(pac@, OFF_FILE_OFFSET as int),
            first_unsound(pac@, 0, file_count as int) == first_unsound(
                pac@,
                idx as int,
                file_count as int,
            ),
            entries@.len() == idx,
            forall|k: int| 0 <= k < idx ==> (#[trigger] entries@[k])@ == entry_at(pac@, k),
        decreases file_count - idx,
    {
        let base: u64 = file_offset + idx as u64 * FILE_HEADER_SIZE as u64;
        proof {
            assert(base == entry_base(pac@, idx as int));
        }
        if base > n || n - base < FILE_HEADER_SIZE as u64 {
            return Err(Error::PacTruncatedTable(idx));
        }
        let entry: PacEntry = read_entry(pac, base as usize, Ghost(idx as int));
        // A non-marker entry must point inside the buffer.
        if entry.size != 0 && entry.payload(pac).is_none() {
            return Err(
                Error::PacEntryOutOfRange {
                    offset: entry.offset as u64,
                    size: entry.size as u64,
                    file_id: entry.file_id,
                },
            );
        }
        entries.push(entry);
        idx += 1;
    }
    Ok(entries)
}

/// Parse a `.pac` from an in-memory buffer, validating the CRCs.
///
/// `verify_payload` streams the (potentially large) payload CRC; skip it only
/// when speed matters more than integrity (it never should on the line).
pub fn parse(pac: &[u8], verify_payload: bool) -> (r: Result<PacInfo>)
    ensures
        match r {
            Ok(info) => parsed(pac@, verify_payload) == Ok::<Package, Fault>(info@),
            Err(e) => parsed(pac@, verify_payload) == Err::<Package, Fault>(e@),
        },
{
    let file_size: u64 = pac.len() as u64;
    if pac.len() < HEADER_SIZE {
        return Err(Error::PacTooSmall(file_size));
    }
    let pac_size: u32 = u32_at(pac, OFF_PAC_SIZE);
    if pac_size as u64 != file_size {
        return Err(Error::PacSizeMismatch { declared: pac_size as u64, actual: file_size });
    }
    let crc1: u16 = u16_at(pac, OFF_CRC1);
    let crc2: u16 = u16_at(pac, OFF_CRC2);
    let header: &[u8] = vstd::slice::slice_subrange(pac, 0, OFF_CRC1);
    proof {
        assert(header@ =~= pac@.take(OFF_CRC1 as int));
    }
    let header_crc_ok: bool = crc16_arc(header) == crc1;

    let entries: Vec<PacEntry> = match read_table(pac) {
        Ok(entries) => entries,
        Err(e) => return Err(e),
    };

    let payload_crc_ok: Option<bool> = if verify_payload {
        Some(payload_crc(pac) == crc2)
    } else {
        None
    };
    let version: String = text_field(pac, 0, 48);
    proof {
        assert(pac@.subrange(0, 48) =~= pac@.take(48));
        assert(entry_views(entries@) =~= Seq::new(
            entry_count(pac@) as nat,
            |i: int| entry_at(pac@, i),
        ));
    }
    Ok(
        PacInfo {
            version,
            product_name: text_field(pac, OFF_PRD_NAME, NAME_LEN),
            product_version: text_field(pac, OFF_PRD_VERSION, NAME_LEN),
            size: pac_size,
            mode: u32_at(pac, OFF_MODE),
            flash_type: u32_at(pac, OFF_FLASH_TYPE),
            magic: u32_at(pac, OFF_MAGIC),
            header_crc_ok,
            payload_crc_ok,
            entries,
        },
    )
}

/// Why an image may not be flashed.
#[derive(Debug)]
pub enum ImageError {
    /// The file could not be parsed.
    Parse(Error),
    /// A checksum of the file does not match.
    Checksum,
}

/// Parse an image that is about to be flashed, and refuse it if a checksum does
/// not match.
pub fn preflight(pac: &[u8], verify_payload: bool) -> (r: core::result::Result<PacInfo, ImageError>)
    ensures
        match r {
            Ok(info) => parsed(pac@, verify_payload) == Ok::<Package, Fault>(info@)
                && info@.crc_ok(),
            Err(ImageError::Parse(e)) => parsed(pac@, verify_payload) == Err::<Package, Fault>(e@),
            Err(ImageError::Checksum) => parsed(pac@, verify_payload) matches Ok(info)
                && !info.crc_ok(),
        },
{
    match parse(pac, verify_payload) {
        Ok(info) => if info.crc_ok() {
            Ok(info)
        } else {
            Err(ImageError::Checksum)
        },
        Err(e) => Err(ImageError::Parse(e)),
    }
}

// ---------------------------------------------------------------------------
// What parsing promises as a whole
// ---------------------------------------------------------------------------

proof fn lemma_all_sound(pac: Seq<u8>, idx: int, count: int)
    requires
        first_unsound(pac, idx, count) is None,
    ensures
        forall|k: int| idx <= k < count ==> #[trigger] entry_sound(pac, k),
    decreases count - idx,
{
    if idx < count {
        lemma_all_sound(pac, idx + 1, count);
    }
}

proof fn lemma_none_unsound(pac: Seq<u8>, idx: int, count: int)
    requires
        forall|k: int| idx <= k < count ==> #[trigger] entry_sound(pac, k),
    ensures
        first_unsound(pac, idx, count) is None,
    decreases count - idx,
{
    if idx < count {
        assert(entry_sound(pac, idx));
        lemma_none_unsound(pac, idx + 1, count);
    }
}

/// In a file that parses, every entry with a size has its whole payload within
/// the file.
pub proof fn law_payloads_lie_in_the_file(pac: Seq<u8>, verify_payload: bool, idx: int)
    requires
        parsed(pac, verify_payload) is Ok,
        0 <= idx < (parsed(pac, verify_payload)->Ok_0).entries.len(),
    ensures
        ({
            let e = (parsed(pac, verify_payload)->Ok_0).entries[idx];
            e.size != 0 ==> e.payload(pac) is Some
        }),
{
    lemma_all_sound(pac, 0, entry_count(pac));
    assert(entry_sound(pac, idx));
}

/// `pac` with both CRC fields set to what they must be: the payload CRC first,
/// then the header CRC, which does not cover it.
pub open spec fn with_crcs(pac: Seq<u8>) -> Seq<u8> {
    let crc1 = crc16_arc_of(pac.take(OFF_CRC1 as int));
    let crc2 = crc16_arc_of(pac.skip(HEADER_SIZE as int));
    pac.take(OFF_CRC1 as int) + crate::bytes::le16_bytes(crc1) + crate::bytes::le16_bytes(crc2)
        + pac.skip(HEADER_SIZE as int)
}

/// Whether the byte at `rel` of a table entry belongs to one of the fields that are read.
pub open spec fn in_field(rel: int) -> bool {
    ||| FOFF_FILE_ID <= rel < FOFF_FILE_ID + NAME_LEN
    ||| FOFF_FILE_NAME <= rel < FOFF_FILE_NAME + NAME_LEN
    ||| FOFF_DATA_SIZE <= rel < FOFF_DATA_SIZE + 4
    ||| FOFF_FLAG <= rel < FOFF_FLAG + 4
    ||| FOFF_DATA_OFFSET <= rel < FOFF_DATA_OFFSET + 4
    ||| FOFF_OMIT <= rel < FOFF_OMIT + 4
    ||| FOFF_ADDRESS <= rel < FOFF_ADDRESS + 4
}

/// Whether the byte at `at` of the file belongs to a field that is read of the table
/// entry `idx`.
pub open spec fn is_field_at(pac: Seq<u8>, idx: int, at: int) -> bool {
    in_field(at - entry_base(pac, idx))
}

/// Whether no field that is read of the table reaches into the CRC fields.
pub open spec fn table_clear_of_crcs(pac: Seq<u8>) -> bool {
    forall|k: int, j: int|
        0 <= k < entry_count(pac) && OFF_CRC1 <= j < HEADER_SIZE ==> !#[trigger] is_field_at(
            pac,
            k,
            j,
        )
}

/// Whether two files of one length have the same header up to the CRC fields, and the
/// same fields in the table entry `k`.
spec fn same_entry(a: Seq<u8>, b: Seq<u8>, k: int) -> bool {
    &&& a.len() == b.len()
    &&& forall|j: int| 0 <= j < OFF_CRC1 ==> #[trigger] a[j] == b[j]
    &&& forall|j: int| 0 <= j < a.len() && is_field_at(a, k, j) ==> #[trigger] a[j] == b[j]
}

proof fn lemma_same_word(a: Seq<u8>, b: Seq<u8>, k: int, rel: int)
    requires
        HEADER_SIZE <= a.len(),
        same_entry(a, b, k),
        entry_present(a, k),
        0 <= k,
        0 <= rel <= FILE_HEADER_SIZE - 4,
        in_field(rel) && in_field(rel + 1) && in_field(rel + 2) && in_field(rel + 3),
    ensures
        le32_at(a, entry_base(a, k) + rel) == le32_at(b, entry_base(a, k) + rel),
{
    let at = entry_base(a, k) + rel;
    assert(is_field_at(a, k, at) && is_field_at(a, k, at + 1));
    assert(is_field_at(a, k, at + 2) && is_field_at(a, k, at + 3));
    assert(a[at] == b[at] && a[at + 1] == b[at + 1]);
    assert(a[at + 2] == b[at + 2] && a[at + 3] == b[at + 3]);
}

proof fn lemma_same_name(a: Seq<u8>, b: Seq<u8>, k: int, rel: int)
    requires
        HEADER_SIZE <= a.len(),
        same_entry(a, b, k),
        entry_present(a, k),
        0 <= k,
        rel == FOFF_FILE_ID || rel == FOFF_FILE_NAME,
    ensures
        a.subrange(entry_base(a, k) + rel, entry_base(a, k) + rel + NAME_LEN) == b.subrange(
            entry_base(a, k) + rel,
            entry_base(a, k) + rel + NAME_LEN,
        ),
{
    let at = entry_base(a, k) + rel;
    let left = a.subrange(at, at + NAME_LEN);
    let right = b.subrange(at, at + NAME_LEN);
    assert forall|i: int| 0 <= i < NAME_LEN implies left[i] == right[i] by {
        assert(is_field_at(a, k, at + i));
        assert(a[at + i] == b[at + i]);
    }
    assert(left =~= right);
}

proof fn lemma_same_entry(a: Seq<u8>, b: Seq<u8>, k: int)
    requires
        HEADER_SIZE <= a.len(),
        same_entry(a, b, k),
        entry_present(a, k),
        0 <= k,
    ensures
        entry_base(b, k) == entry_base(a, k),
        entry_at(b, k) == entry_at(a, k),
{
    assert(le32_at(a, OFF_FILE_OFFSET as int) == le32_at(b, OFF_FILE_OFFSET as int));
    lemma_same_name(a, b, k, FOFF_FILE_ID as int);
    lemma_same_name(a, b, k, FOFF_FILE_NAME as int);
    lemma_same_word(a, b, k, FOFF_DATA_SIZE as int);
    lemma_same_word(a, b, k, FOFF_DATA_OFFSET as int);
    lemma_same_word(a, b, k, FOFF_ADDRESS as int);
    lemma_same_word(a, b, k, FOFF_FLAG as int);
    lemma_same_word(a, b, k, FOFF_OMIT as int);
}

/// A file with the header and the table of one that parses does so too, to the same
/// table.
proof fn lemma_same_table(a: Seq<u8>, b: Seq<u8>)
    requires
        parsed(a, true) is Ok,
        a.len() == b.len(),
        forall|j: int| 0 <= j < OFF_CRC1 ==> #[trigger] a[j] == b[j],
        forall|k: int| 0 <= k < entry_count(a) ==> #[trigger] same_entry(a, b, k),
    ensures
        parsed(b, true) is Ok,
        (parsed(b, true)->Ok_0).entries == (parsed(a, true)->Ok_0).entries,
        (parsed(b, true)->Ok_0).crc_ok() == (header_crc_matches(b) && payload_crc_matches(b)),
{
    let count = entry_count(a);
    assert(le32_at(a, OFF_PAC_SIZE as int) == le32_at(b, OFF_PAC_SIZE as int));
    assert(le32_at(a, OFF_FILE_COUNT as int) == le32_at(b, OFF_FILE_COUNT as int));
    lemma_all_sound(a, 0, count);
    assert forall|k: int| 0 <= k < count implies #[trigger] entry_sound(b, k) by {
        assert(entry_sound(a, k) && same_entry(a, b, k));
        lemma_same_entry(a, b, k);
    }
    lemma_none_unsound(b, 0, count);
    let table = Seq::new(count as nat, |i: int| entry_at(a, i));
    let again = Seq::new(count as nat, |i: int| entry_at(b, i));
    assert forall|k: int| 0 <= k < count implies table[k] == again[k] by {
        assert(entry_sound(a, k) && same_entry(a, b, k));
        lemma_same_entry(a, b, k);
    }
    assert(table =~= again);
}

proof fn lemma_with_crcs(pac: Seq<u8>)
    requires
        HEADER_SIZE <= pac.len(),
    ensures
        with_crcs(pac).len() == pac.len(),
        forall|j: int|
            0 <= j < pac.len() && !(OFF_CRC1 <= j < HEADER_SIZE) ==> #[trigger] with_crcs(pac)[j]
                == pac[j],
        header_crc_matches(with_crcs(pac)),
        payload_crc_matches(with_crcs(pac)),
{
    let fixed = with_crcs(pac);
    let crc1 = crc16_arc_of(pac.take(OFF_CRC1 as int));
    let crc2 = crc16_arc_of(pac.skip(HEADER_SIZE as int));
    assert(fixed.take(OFF_CRC1 as int) =~= pac.take(OFF_CRC1 as int));
    assert(fixed.skip(HEADER_SIZE as int) =~= pac.skip(HEADER_SIZE as int));
    assert(le16_at(fixed, OFF_CRC1 as int) == crc1);
    assert(le16_at(fixed, OFF_CRC2 as int) == crc2);
}

/// A file that parses still parses, to the same table, after its CRC fields are
/// refreshed, and then passes its checks. (No field of the table may reach into the CRC
/// fields.)
pub proof fn law_refreshed_crcs_pass(pac: Seq<u8>)
    requires
        parsed(pac, true) is Ok,
        table_clear_of_crcs(pac),
    ensures
        parsed(with_crcs(pac), true) is Ok,
        (parsed(with_crcs(pac), true)->Ok_0).crc_ok(),
        (parsed(with_crcs(pac), true)->Ok_0).entries == (parsed(pac, true)->Ok_0).entries,
{
    let fixed = with_crcs(pac);
    lemma_with_crcs(pac);
    assert forall|k: int| 0 <= k < entry_count(pac) implies #[trigger] same_entry(
        pac,
        fixed,
        k,
    ) by {
        assert forall|j: int| 0 <= j < pac.len() && is_field_at(pac, k, j) implies #[trigger] pac[j]
            == fixed[j] by {
            assert(!(OFF_CRC1 <= j < HEADER_SIZE));
        }
    }
    lemma_same_table(pac, fixed);
}

/// `pac` with `data` in the place of the bytes from `at` on.
pub open spec fn overwritten(pac: Seq<u8>, at: int, data: Seq<u8>) -> Seq<u8> {
    pac.take(at) + data + pac.skip(at + data.len())
}

/// Whether the payload of an entry lies clear of the header and of the file table.
pub open spec fn payload_stands_apart(pac: Seq<u8>, e: Entry) -> bool {
    &&& e.offset >= HEADER_SIZE
    &&& forall|k: int|
        0 <= k < entry_count(pac) ==> e.offset + e.size <= #[trigger] entry_base(pac, k)
            || entry_base(pac, k) + FILE_HEADER_SIZE <= e.offset
}

/// What a file with bytes overwritten from `at` on, and its CRC fields refreshed, holds.
proof fn lemma_repacked(pac: Seq<u8>, at: int, data: Seq<u8>)
    requires
        HEADER_SIZE <= at,
        at + data.len() <= pac.len(),
    ensures
        ({
            let repacked = with_crcs(overwritten(pac, at, data));
            &&& repacked.len() == pac.len()
            &&& forall|j: int|
                0 <= j < pac.len() && !(OFF_CRC1 <= j < HEADER_SIZE) && !(at <= j < at + data.len())
                    ==> #[trigger] pac[j] == repacked[j]
            &&& repacked.subrange(at, at + data.len()) == data
            &&& header_crc_matches(repacked)
            &&& payload_crc_matches(repacked)
        }),
{
    let other = overwritten(pac, at, data);
    let repacked = with_crcs(other);
    assert(other.len() == pac.len());
    lemma_with_crcs(other);
    assert forall|j: int|
        0 <= j < pac.len() && !(OFF_CRC1 <= j < HEADER_SIZE) && !(at <= j < at + data.len()) implies
        #[trigger] pac[j] == repacked[j] by {
        assert(repacked[j] == other[j]);
    }
    let held = repacked.subrange(at, at + data.len());
    assert forall|i: int| 0 <= i < data.len() implies held[i] == data[i] by {
        assert(repacked[at + i] == other[at + i]);
    }
    assert(held =~= data);
}

/// A table entry is the same in a file that differs only in its CRC fields and in the
/// payload of `e`, which stands apart.
proof fn lemma_entry_apart(pac: Seq<u8>, other: Seq<u8>, e: Entry, k: int)
    requires
        table_clear_of_crcs(pac),
        payload_stands_apart(pac, e),
        0 <= k < entry_count(pac),
        HEADER_SIZE <= pac.len(),
        pac.len() == other.len(),
        forall|j: int|
            0 <= j < pac.len() && !(OFF_CRC1 <= j < HEADER_SIZE) && !(e.offset <= j < e.offset
                + e.size) ==> #[trigger] pac[j] == other[j],
    ensures
        same_entry(pac, other, k),
{
    let base = entry_base(pac, k);
    assert forall|j: int| 0 <= j < pac.len() && is_field_at(pac, k, j) implies #[trigger] pac[j]
        == other[j] by {
        assert(base <= j < base + FILE_HEADER_SIZE);
    }
}

/// A file that parses, has the payload of one of its entries overwritten with other
/// bytes, and then has its CRC fields refreshed, still parses, to the same table, passes
/// its checks, and holds the new bytes as the payload of that entry. (The payload must
/// stand apart from the header and the table, and no field of the table may reach into
/// the CRC fields.)
pub proof fn law_repacked_payload_is_held(pac: Seq<u8>, idx: int, data: Seq<u8>)
    requires
        parsed(pac, true) is Ok,
        table_clear_of_crcs(pac),
        0 <= idx < (parsed(pac, true)->Ok_0).entries.len(),
        (parsed(pac, true)->Ok_0).entries[idx].size != 0,
        payload_stands_apart(pac, (parsed(pac, true)->Ok_0).entries[idx]),
        data.len() == (parsed(pac, true)->Ok_0).entries[idx].size,
    ensures
        ({
            let e = (parsed(pac, true)->Ok_0).entries[idx];
            let repacked = with_crcs(overwritten(pac, e.offset as int, data));
            &&& parsed(repacked, true) is Ok
            &&& (parsed(repacked, true)->Ok_0).crc_ok()
            &&& (parsed(repacked, true)->Ok_0).entries == (parsed(pac, true)->Ok_0).entries
            &&& e.payload(repacked) == Some(data)
        }),
{
    let e = (parsed(pac, true)->Ok_0).entries[idx];
    let at = e.offset as int;
    law_payloads_lie_in_the_file(pac, true, idx);
    lemma_repacked(pac, at, data);
    let repacked = with_crcs(overwritten(pac, at, data));
    assert forall|k: int| 0 <= k < entry_count(pac) implies #[trigger] same_entry(
        pac,
        repacked,
        k,
    ) by {
        lemma_entry_apart(pac, repacked, e, k);
    }
    lemma_same_table(pac, repacked);
}

/// A file that passes its checks and then has one byte changed, anywhere but in
/// the CRC fields themselves, no longer parses or no longer passes.
pub proof fn law_one_changed_byte_is_refused(pac: Seq<u8>, at: int, byte: u8)
    requires
        parsed(pac, true) is Ok,
        (parsed(pac, true)->Ok_0).crc_ok(),
        0 <= at < pac.len(),
        !(OFF_CRC1 <= at < HEADER_SIZE),
        pac[at] != byte,
    ensures
        parsed(pac.update(at, byte), true) matches Ok(info) ==> !info.crc_ok(),
{
    let other = pac.update(at, byte);
    if at < OFF_CRC1 {
        assert(other.take(OFF_CRC1 as int) =~= pac.take(OFF_CRC1 as int).update(at, byte));
        crate::checksum::law_crc16_arc_detects_one_changed_byte(
            0,
            pac.take(OFF_CRC1 as int),
            at,
            byte,
        );
    } else {
        let cut = HEADER_SIZE as int;
        assert(other.skip(cut) =~= pac.skip(cut).update(at - cut, byte));
        crate::checksum::law_crc16_arc_detects_one_changed_byte(0, pac.skip(cut), at - cut, byte);
    }
}

/// What 32 bits, least significant byte first, stand at a place of a file.
pub open spec fn word_at(pac: Seq<u8>, at: int) -> int {
    pac[at] + 256 * pac[at + 1] + 65536 * pac[at + 2] + 16777216 * pac[at + 3]
}

/// Whether a character is what the pair of bytes at a place of a file says, least significant
/// byte first: one that is no character by itself counts as U+FFFD, and two zeros are none.
pub open spec fn unit_stands(pac: Seq<u8>, at: int, c: char) -> bool {
    let unit = pac[at] + 256 * pac[at + 1];
    &&& unit != 0
    &&& c as int == if 0xD800 <= unit < 0xE000 {
        0xFFFD
    } else {
        unit
    }
}

/// Whether a text is what stands in the `len` bytes at a place of a file: its characters are
/// what the pairs of bytes there say, up to the first pair of zeros or to the end of the field.
pub open spec fn text_stands(pac: Seq<u8>, at: int, len: int, text: Seq<char>) -> bool {
    &&& 2 * text.len() <= len
    &&& forall|i: int| 0 <= i < text.len() ==> unit_stands(pac, at + 2 * i, #[trigger] text[i])
    &&& 2 * text.len() + 2 <= len ==> pac[at + 2 * text.len()] == 0 && pac[at + 2 * text.len() + 1]
        == 0
}

/// A text field is read unit by unit, up to the first zero one.
pub proof fn law_text_is_read_to_its_end(raw: Seq<u8>)
    ensures
        text_stands(raw, 0, raw.len() as int, utf16z_of(raw)),
    decreases raw.len(),
{
    let text = utf16z_of(raw);
    if raw.len() >= 2 {
        crate::bytes::law_fields_are_digits(raw, 0);
    }
    if raw.len() >= 2 && le16_at(raw, 0) != 0 {
        let rest = raw.skip(2);
        let tail = utf16z_of(rest);
        law_text_is_read_to_its_end(rest);
        assert(text =~= seq![unit_char(le16_at(raw, 0))] + tail);
        assert(text.len() == tail.len() + 1);
        assert(unit_stands(raw, 0, text[0]));
        assert forall|i: int| 0 <= i < text.len() implies unit_stands(
            raw,
            0 + 2 * i,
            #[trigger] text[i],
        ) by {
            if i > 0 {
                assert(text[i] == tail[i - 1]);
                assert(unit_stands(rest, 0 + 2 * (i - 1), tail[i - 1]));
                assert(rest[2 * (i - 1)] == raw[2 * i] && rest[2 * (i - 1) + 1] == raw[2 * i + 1]);
            }
        }
        if 2 * text.len() + 2 <= raw.len() {
            let n = 2 * tail.len() as int;
            assert(rest[0 + n] == raw[n + 2] && rest[n + 1] == raw[n + 3]);
        }
    }
}

proof fn lemma_text_field(pac: Seq<u8>, at: int, len: int)
    requires
        0 <= at,
        0 <= len,
        at + len <= pac.len(),
    ensures
        text_stands(pac, at, len, utf16z_of(pac.subrange(at, at + len))),
{
    let raw = pac.subrange(at, at + len);
    let text = utf16z_of(raw);
    law_text_is_read_to_its_end(raw);
    assert forall|i: int| 0 <= i < text.len() implies unit_stands(
        pac,
        at + 2 * i,
        #[trigger] text[i],
    ) by {
        assert(unit_stands(raw, 0 + 2 * i, text[i]));
        assert(raw[2 * i] == pac[at + 2 * i] && raw[2 * i + 1] == pac[at + 2 * i + 1]);
    }
    if 2 * text.len() + 2 <= len {
        let n = 2 * text.len() as int;
        assert(raw[0 + n] == pac[at + n] && raw[n + 1] == pac[at + n + 1]);
    }
}

/// The header of a file that is read: its texts stand at 0 (48 bytes), 52 and 564 (512 bytes
/// each), its size, which is that of the file, at 48, the number of entries at 1076, the mode at
/// 1084, the flash type at 1088 and the magic value at 2116. Its two CRC-16-ARC values stand at
/// 2120, over what comes before, and at 2122, over what comes behind.
pub proof fn law_header_is_read(pac: Seq<u8>, verify_payload: bool)
    requires
        parsed(pac, verify_payload) is Ok,
    ensures
        ({
            let p = parsed(pac, verify_payload)->Ok_0;
            &&& pac.len() >= 2124
            &&& text_stands(pac, 0, 48, p.version)
            &&& text_stands(pac, 52, 512, p.product_name)
            &&& text_stands(pac, 564, 512, p.product_version)
            &&& p.size == pac.len() && p.size == word_at(pac, 48)
            &&& p.entries.len() == word_at(pac, 1076)
            &&& p.mode == word_at(pac, 1084)
            &&& p.flash_type == word_at(pac, 1088)
            &&& p.magic == word_at(pac, 2116)
            &&& p.header_crc_ok <==> crc16_arc_of(pac.take(2120)) == pac[2120] + 256 * pac[2121]
            &&& p.payload_crc_ok is Some <==> verify_payload
            &&& p.payload_crc_ok is Some ==> (p.payload_crc_ok->0 <==> crc16_arc_of(pac.skip(2124))
                == pac[2122] + 256 * pac[2123])
            &&& p.crc_ok() <==> p.header_crc_ok && (p.payload_crc_ok is None || p.payload_crc_ok->0)
        }),
{
    crate::bytes::law_fields_are_digits(pac, 48);
    crate::bytes::law_fields_are_digits(pac, 1076);
    crate::bytes::law_fields_are_digits(pac, 1084);
    crate::bytes::law_fields_are_digits(pac, 1088);
    crate::bytes::law_fields_are_digits(pac, 2116);
    crate::bytes::law_fields_are_digits(pac, 2120);
    crate::bytes::law_fields_are_digits(pac, 2122);
    assert(pac.take(48) =~= pac.subrange(0, 48));
    lemma_text_field(pac, 0, 48);
    lemma_text_field(pac, 52, 512);
    lemma_text_field(pac, 564, 512);
}

/// An entry of a file that is read: the table begins where the word at 1080 says, and each of
/// its entries takes 2580 bytes; in it the name by which it is found stands at 4 and that of its
/// file at 516 (512 bytes each), its size at 1540, its flag at 1544, its offset at 1552, its omit
/// mark at 1556 and its address at 1564. If it has a size, its payload is the bytes of the file
/// from its offset on.
pub proof fn law_entry_is_read(pac: Seq<u8>, verify_payload: bool, idx: int)
    requires
        parsed(pac, verify_payload) is Ok,
        0 <= idx < (parsed(pac, verify_payload)->Ok_0).entries.len(),
    ensures
        ({
            let e = (parsed(pac, verify_payload)->Ok_0).entries[idx];
            let base = word_at(pac, 1080) + 2580 * idx;
            &&& base + 2580 <= pac.len()
            &&& text_stands(pac, base + 4, 512, e.file_id)
            &&& text_stands(pac, base + 516, 512, e.file_name)
            &&& e.size == word_at(pac, base + 1540)
            &&& e.flag == word_at(pac, base + 1544)
            &&& e.offset == word_at(pac, base + 1552)
            &&& e.omit == word_at(pac, base + 1556)
            &&& e.address == word_at(pac, base + 1564)
            &&& e.size != 0 ==> e.payload(pac) is Some && e.payload(pac)->0.len() == e.size
                && forall|k: int|
                0 <= k < e.size ==> #[trigger] e.payload(pac)->0[k] == pac[e.offset + k]
        }),
{
    lemma_all_sound(pac, 0, entry_count(pac));
    assert(entry_sound(pac, idx));
    crate::bytes::law_fields_are_digits(pac, 1080);
    let base = entry_base(pac, idx);
    lemma_text_field(pac, base + 4, 512);
    lemma_text_field(pac, base + 516, 512);
    crate::bytes::law_fields_are_digits(pac, base + 1540);
    crate::bytes::law_fields_are_digits(pac, base + 1544);
    crate::bytes::law_fields_are_digits(pac, base + 1552);
    crate::bytes::law_fields_are_digits(pac, base + 1556);
    crate::bytes::law_fields_are_digits(pac, base + 1564);
}

/// An entry has a payload within some bytes just if it ends within them, and then it is the
/// bytes from its offset on, as many as its size says.
pub proof fn law_payload_is_where_it_says(e: Entry, pac: Seq<u8>)
    ensures
        e.payload(pac) is Some <==> e.offset + e.size <= pac.len(),
        e.payload(pac) is Some ==> e.payload(pac)->0.len() == e.size,
        e.payload(pac) is Some ==> forall|k: int|
            0 <= k < e.size ==> #[trigger] e.payload(pac)->0[k] == pac[e.offset + k],
{
}

/// Whether the table entry `idx` of a file lies in it, and so does its payload, if its size is
/// not zero.
pub open spec fn entry_fits(pac: Seq<u8>, idx: int) -> bool {
    let base = word_at(pac, 1080) + 2580 * idx;
    &&& base + 2580 <= pac.len()
    &&& word_at(pac, base + 1540) == 0 || word_at(pac, base + 1552) + word_at(pac, base + 1540)
        <= pac.len()
}

proof fn lemma_entry_fits(pac: Seq<u8>, idx: int)
    requires
        pac.len() >= 2124,
        0 <= idx,
    ensures
        entry_fits(pac, idx) == entry_sound(pac, idx),
{
    crate::bytes::law_fields_are_digits(pac, 1080);
    let base = entry_base(pac, idx);
    assert(base == word_at(pac, 1080) + 2580 * idx);
    if base + 2580 <= pac.len() {
        crate::bytes::law_fields_are_digits(pac, base + 1540);
        crate::bytes::law_fields_are_digits(pac, base + 1552);
    }
}

/// What [`first_unsound`] finds is the first entry that does not fit.
proof fn lemma_first_unsound(pac: Seq<u8>, idx: int, count: int)
    requires
        pac.len() >= 2124,
        0 <= idx,
    ensures
        match first_unsound(pac, idx, count) {
            Some(at) => idx <= at < count && !entry_fits(pac, at) && forall|k: int|
                idx <= k < at ==> #[trigger] entry_fits(pac, k),
            None => forall|k: int| idx <= k < count ==> #[trigger] entry_fits(pac, k),
        },
    decreases count - idx,
{
    if idx < count {
        lemma_entry_fits(pac, idx);
        if entry_sound(pac, idx) {
            lemma_first_unsound(pac, idx + 1, count);
        }
    }
}

/// When a file is refused, and how: if it is shorter than a header; if the size in the header
/// is not its own; or by the first entry of its table that does not fit: one that is cut off is
/// told by its place, one whose payload is not there by what it says of it. A file is read just
/// if none of these holds.
pub proof fn law_file_is_refused(pac: Seq<u8>, verify_payload: bool)
    requires
        pac.len() <= u64::MAX,
    ensures
        match parsed(pac, verify_payload) {
            Ok(_) => pac.len() >= 2124 && word_at(pac, 48) == pac.len() && forall|k: int|
                0 <= k < word_at(pac, 1076) ==> #[trigger] entry_fits(pac, k),
            Err(Fault::PacTooSmall(n)) => n == pac.len() && n < 2124,
            Err(Fault::PacSizeMismatch { declared, actual }) => pac.len() >= 2124 && declared
                == word_at(pac, 48) && actual == pac.len() && declared != actual,
            Err(Fault::PacTruncatedTable(idx)) => pac.len() >= 2124 && word_at(pac, 48) == pac.len()
                && idx < word_at(pac, 1076) && word_at(pac, 1080) + 2580 * idx + 2580 > pac.len()
                && forall|k: int| 0 <= k < idx ==> #[trigger] entry_fits(pac, k),
            Err(Fault::PacEntryOutOfRange { file_id, offset, size }) => pac.len() >= 2124
                && word_at(pac, 48) == pac.len() && exists|idx: int|
                0 <= idx < word_at(pac, 1076) && !(#[trigger] entry_fits(pac, idx)) && (forall|
                    k: int,
                |
                    0 <= k < idx ==> #[trigger] entry_fits(pac, k)) && ({
                    let base = word_at(pac, 1080) + 2580 * idx;
                    &&& base + 2580 <= pac.len()
                    &&& text_stands(pac, base + 4, 512, file_id)
                    &&& offset == word_at(pac, base + 1552)
                    &&& size == word_at(pac, base + 1540)
                    &&& size != 0 && offset + size > pac.len()
                }),
            Err(_) => false,
        },
{
    if pac.len() >= 2124 {
        crate::bytes::law_fields_are_digits(pac, 48);
        crate::bytes::law_fields_are_digits(pac, 1076);
        crate::bytes::law_fields_are_digits(pac, 1080);
        lemma_first_unsound(pac, 0, entry_count(pac));
        if word_at(pac, 48) == pac.len() {
            match first_unsound(pac, 0, entry_count(pac)) {
                Some(idx) => {
                    let base = entry_base(pac, idx);
                    assert(base == word_at(pac, 1080) + 2580 * idx);
                    lemma_entry_fits(pac, idx);
                    if base + 2580 <= pac.len() {
                        lemma_text_field(pac, base + 4, 512);
                        crate::bytes::law_fields_are_digits(pac, base + 1540);
                        crate::bytes::law_fields_are_digits(pac, base + 1552);
                    }
                },
                None => {},
            }
        }
    }
}

} // verus!
