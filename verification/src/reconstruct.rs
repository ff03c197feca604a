//! Reconstruct a **proposed** partition layout from a full NOR flash dump.
//!
//! The RDA8910/UIS8910 FDL2 can't report its partition table (see
//! [`crate::flash`]), and the device stores no partition-name strings. But the
//! flash *content* is self-describing enough to recover the physical geometry:
//!
//! - **Code images** carry a U-Boot legacy `uImage` header (magic `0x27051956`,
//!   64 bytes, big-endian) with an exact payload size and two CRC-32s — so
//!   BOOTLOADER/AP are recovered byte-exact and integrity-checked.
//! - **LuatOS `luadb`** script packs carry magic `0x5AA55AA5` (at offset +2).
//! - The **filesystem / NV** back half is a wear-levelled NOR FS whose 64 KiB
//!   blocks start with a small little-endian *generation* counter; the longest
//!   single-generation run is the live modem FS (PS), and the top block-family
//!   change marks the factory/NV region.
//!
//! What is **derived** (high confidence): every region base + reserved size, the
//! code payload sizes, and each region's **content type**. What the dump can't
//! tell you is a region's *role name*: no name strings are stored on flash, and
//! roles are firmware-specific (e.g. a LuatOS PAC calls its luadb region `LUA`,
//! but a Logicrom/CSDK module has no such partition). So this module does **not**
//! guess PAC IDs — it assigns generic, content-type default names
//! (`uimage_0`, `luadb_0`, `filesystem_0`, `nv_0`) and reports what each region
//! *is*.

use vstd::prelude::*;

use crate::bytes::{be32_at, copy_range, find_byte, index_from, join_be16, join_be32, le16_at};
use crate::checksum::{crc32, crc32_of};
use crate::plan::{length_low32, low32};
use crate::text::{
    decimal, decode_lossy, digit, hex, owned, padded_left, push_decimal, push_hex, push_hex_padded,
    utf8_lossy,
};

verus! {

/// NOR flash is memory-mapped here on the RDA8910/UIS8910.
pub const NOR_BASE: u32 = 0x6000_0000;

/// Erase-block / partition alignment.
pub const BLOCK: usize = 0x1_0000;

/// U-Boot legacy image header magic (big-endian on disk).
pub const UIMAGE_MAGIC: u32 = 0x2705_1956;

/// U-Boot legacy image header length.
pub const UIMAGE_HDR: usize = 0x40;

/// How trustworthy a reconstructed field is.
#[derive(Debug, Clone, Copy, PartialEq, Eq, Structural)]
pub enum Confidence {
    /// Cross-checked (e.g. a CRC-verified header).
    Verified,
    /// Derived from an unambiguous on-flash marker.
    Derived,
    /// Best-effort inference (filesystem boundaries; all names).
    Heuristic,
}

impl Confidence {
    /// Short tag for display.
    pub open spec fn tag_of(self) -> Seq<char> {
        match self {
            Confidence::Verified => "verified"@,
            Confidence::Derived => "derived"@,
            Confidence::Heuristic => "heuristic"@,
        }
    }

    /// Short tag for display.
    #[must_use]
    pub fn tag(self) -> (r: &'static str)
        ensures
            r@ == self.tag_of(),
    {
        match self {
            Confidence::Verified => "verified",
            Confidence::Derived => "derived",
            Confidence::Heuristic => "heuristic",
        }
    }
}

/// What a region holds.
#[derive(Debug, Clone, Copy, PartialEq, Eq, Structural)]
pub enum Kind {
    /// A U-Boot image.
    Uimage,
    /// A LuatOS script pack.
    Luadb,
    /// A stretch of the NOR filesystem.
    Filesystem,
    /// The factory/NV region.
    Nv,
}

impl Kind {
    /// The name of the kind.
    pub open spec fn name_of(self) -> Seq<char> {
        match self {
            Kind::Uimage => "uimage"@,
            Kind::Luadb => "luadb"@,
            Kind::Filesystem => "filesystem"@,
            Kind::Nv => "nv"@,
        }
    }

    /// The name of the kind.
    #[must_use]
    pub fn name(self) -> (r: &'static str)
        ensures
            r@ == self.name_of(),
    {
        match self {
            Kind::Uimage => "uimage",
            Kind::Luadb => "luadb",
            Kind::Filesystem => "filesystem",
            Kind::Nv => "nv",
        }
    }
}

/// One reconstructed partition/region.
#[derive(Debug, Clone)]
pub struct Region {
    /// Conventional ID (guessed by position + type).
    pub id: String,
    /// Physical flash address.
    pub phys_addr: u32,
    /// Reserved window = next base − this base (last = to end of flash).
    pub reserved_size: u32,
    /// Bytes of actual content before the trailing erase padding.
    pub used_size: u32,
    /// `uimage` | `luadb` | `filesystem` | `nv`.
    pub kind: &'static str,
    /// Confidence in this region's boundaries.
    pub confidence: Confidence,
    /// Human detail (build tag, CRC status, …).
    pub detail: String,
}

/// What a [`Region`] says, with its texts as characters.
pub struct Area {
    pub id: Seq<char>,
    pub phys_addr: u32,
    pub reserved_size: u32,
    pub used_size: u32,
    pub kind: Seq<char>,
    pub confidence: Confidence,
    pub detail: Seq<char>,
}

impl View for Region {
    type V = Area;

    open spec fn view(&self) -> Area {
        Area {
            id: self.id@,
            phys_addr: self.phys_addr,
            reserved_size: self.reserved_size,
            used_size: self.used_size,
            kind: self.kind@,
            confidence: self.confidence,
            detail: self.detail@,
        }
    }
}

/// The views of some regions.
pub open spec fn areas(v: Seq<Region>) -> Seq<Area> {
    v.map_values(|r: Region| r@)
}

// ---------------------------------------------------------------------------
// Markers in the flash
// ---------------------------------------------------------------------------

/// Something that begins at an offset of the flash.
pub struct Mark {
    pub off: nat,
    pub kind: Kind,
    pub used: nat,
    pub conf: Confidence,
    pub detail: Seq<char>,
}

/// As [`Mark`], at run time.
struct Anchor {
    off: usize,
    kind: Kind,
    used: usize,
    conf: Confidence,
    detail: String,
}

impl View for Anchor {
    type V = Mark;

    closed spec fn view(&self) -> Mark {
        Mark {
            off: self.off as nat,
            kind: self.kind,
            used: self.used as nat,
            conf: self.conf,
            detail: self.detail@,
        }
    }
}

/// The views of some anchors.
spec fn marks_of(v: Seq<Anchor>) -> Seq<Mark> {
    v.map_values(|a: Anchor| a@)
}

/// How a check came out.
pub open spec fn verdict(ok: bool) -> Seq<char> {
    if ok {
        "ok"@
    } else {
        "BAD"@
    }
}

fn push_verdict(out: &mut String, ok: bool)
    ensures
        final(out)@ == old(out)@ + verdict(ok),
{
    if ok {
        out.append("ok");
    } else {
        out.append("BAD");
    }
}

/// The bytes up to the first NUL.
pub open spec fn before_nul(raw: Seq<u8>) -> Seq<u8> {
    match index_from(raw, 0, 0) {
        Some(end) => raw.take(end),
        None => raw,
    }
}

/// The name in the header of a `uImage` at `off`.
pub open spec fn uimage_name(image: Seq<u8>, off: int) -> Seq<char> {
    utf8_lossy(before_nul(image.subrange(off + 0x20, off + UIMAGE_HDR)))
}

/// The header of a `uImage` at `off`, with the field of its own CRC zeroed.
pub open spec fn uimage_header(image: Seq<u8>, off: int) -> Seq<u8> {
    image.subrange(off, off + 4) + seq![0u8, 0u8, 0u8, 0u8] + image.subrange(
        off + 8,
        off + UIMAGE_HDR,
    )
}

/// Whether the CRC of the header of a `uImage` at `off` matches.
pub open spec fn hcrc_ok(image: Seq<u8>, off: int) -> bool {
    crc32_of(uimage_header(image, off)) == be32_at(image, off + 4)
}

/// The bytes of a `uImage` at `off`: header and payload.
pub open spec fn uimage_len(image: Seq<u8>, off: int) -> int {
    UIMAGE_HDR + be32_at(image, off + 0x0C)
}

/// Whether the CRC of the payload of a `uImage` at `off` matches.
pub open spec fn dcrc_ok(image: Seq<u8>, off: int) -> bool {
    crc32_of(image.subrange(off + UIMAGE_HDR, off + uimage_len(image, off))) == be32_at(
        image,
        off + 0x18,
    )
}

/// What is said about a `uImage`: its name, if it has one, and its CRCs.
pub open spec fn uimage_detail(name: Seq<char>, hcrc: bool, dcrc: bool) -> Seq<char> {
    "uImage"@ + (if name.len() == 0 {
        Seq::empty()
    } else {
        " '"@ + name + "'"@
    }) + " hcrc="@ + verdict(hcrc) + " dcrc="@ + verdict(dcrc)
}

/// The `uImage` at `off`, if there is one: the magic is there and the payload lies in
/// the flash.
#[verifier::opaque]
pub open spec fn uimage_at(image: Seq<u8>, off: int) -> Option<Mark> {
    if off + UIMAGE_HDR > image.len() || be32_at(image, off) != UIMAGE_MAGIC || off + uimage_len(
        image,
        off,
    ) > image.len() {
        None
    } else {
        Some(
            Mark {
                off: off as nat,
                kind: Kind::Uimage,
                used: uimage_len(image, off) as nat,
                conf: if hcrc_ok(image, off) && dcrc_ok(image, off) {
                    Confidence::Verified
                } else {
                    Confidence::Derived
                },
                detail: uimage_detail(
                    uimage_name(image, off),
                    hcrc_ok(image, off),
                    dcrc_ok(image, off),
                ),
            },
        )
    }
}

/// The LuatOS `luadb` pack at `off`, if there is one: its magic stands behind two
/// bytes.
#[verifier::opaque]
pub open spec fn luadb_at(image: Seq<u8>, off: int) -> Option<Mark> {
    if off + 6 <= image.len() && be32_at(image, off + 2) == 0x5AA5_5AA5 {
        Some(
            Mark {
                off: off as nat,
                kind: Kind::Luadb,
                used: 0,
                conf: Confidence::Derived,
                detail:
                    "LuatOS luadb script pack (the app/script region; a PAC may call it LUA/APP)"@,
            },
        )
    } else {
        None
    }
}

/// The generation counter of a filesystem block at `off`, if there is one: a
/// little-endian number that is not zero and has its high 16 bits zero.
#[verifier::opaque]
pub open spec fn generation_at(image: Seq<u8>, off: int) -> Option<u16> {
    if off + 4 <= image.len() && image[off + 2] == 0 && image[off + 3] == 0 && le16_at(image, off)
        != 0 {
        Some(le16_at(image, off))
    } else {
        None
    }
}

fn be32(d: &[u8], off: usize) -> (r: u32)
    requires
        off + 4 <= d@.len(),
    ensures
        r == be32_at(d@, off as int),
{
    join_be32(d[off], d[off + 1], d[off + 2], d[off + 3])
}

fn read_name(image: &[u8], off: usize) -> (r: String)
    requires
        off + UIMAGE_HDR <= image.len(),
    ensures
        r@ == uimage_name(image@, off as int),
{
    let raw: Vec<u8> = copy_range(image, off + 0x20, off + UIMAGE_HDR);
    match find_byte(&raw, 0, 0) {
        Some(end) => {
            let kept: Vec<u8> = copy_range(&raw, 0, end);
            proof {
                assert(kept@ =~= raw@.take(end as int));
            }
            decode_lossy(&kept)
        },
        None => decode_lossy(&raw),
    }
}

/// Detect a U-Boot `uImage` at `off` and return its anchor.
fn detect_uimage(image: &[u8], off: usize) -> (r: Option<Anchor>)
    requires
        off <= image@.len(),
    ensures
        match r {
            Some(a) => uimage_at(image@, off as int) == Some(a@) && 0 < a@.used <= image@.len()
                - off,
            None => uimage_at(image@, off as int) is None,
        },
{
    let n: usize = image.len();
    proof {
        reveal(uimage_at);
    }
    if n - off < UIMAGE_HDR || be32(image, off) != UIMAGE_MAGIC {
        return None;
    }
    let payload: u32 = be32(image, off + 0x0C);
    if payload as u64 > (n - off - UIMAGE_HDR) as u64 {
        return None;  // truncated / false magic
    }
    let used: usize = UIMAGE_HDR + payload as usize;
    // Header CRC-32 is computed with the hcrc field (0x04..0x08) zeroed.
    let mut hdr: Vec<u8> = copy_range(image, off, off + 4);
    let zeros: [u8; 4] = [0, 0, 0, 0];
    hdr.extend_from_slice(&zeros);
    let rest: Vec<u8> = copy_range(image, off + 8, off + UIMAGE_HDR);
    hdr.extend_from_slice(&rest);
    proof {
        assert(hdr@ =~= uimage_header(image@, off as int));
    }
    let hcrc: bool = crc32(&hdr) == be32(image, off + 4);
    let body: &[u8] = vstd::slice::slice_subrange(image, off + UIMAGE_HDR, off + used);
    let dcrc: bool = crc32(body) == be32(image, off + 0x18);
    let name: String = read_name(image, off);
    let mut detail: String = owned("uImage");
    let ghost d0 = detail@;
    if name.as_str().unicode_len() > 0 {
        detail.append(" '");
        detail.append(name.as_str());
        detail.append("'");
    }
    detail.append(" hcrc=");
    push_verdict(&mut detail, hcrc);
    detail.append(" dcrc=");
    push_verdict(&mut detail, dcrc);
    proof {
        assert(detail@ =~= uimage_detail(name@, hcrc, dcrc));
    }
    Some(
        Anchor {
            off,
            kind: Kind::Uimage,
            used,
            conf: if hcrc && dcrc {
                Confidence::Verified
            } else {
                Confidence::Derived
            },
            detail,
        },
    )
}

/// Detect a LuatOS `luadb` pack at `off`.
fn detect_luadb(image: &[u8], off: usize) -> (r: Option<Anchor>)
    requires
        off <= image@.len(),
    ensures
        match r {
            Some(a) => luadb_at(image@, off as int) == Some(a@),
            None => luadb_at(image@, off as int) is None,
        },
{
    proof {
        reveal(luadb_at);
    }
    if image.len() - off < 6 || be32(image, off + 2) != 0x5AA5_5AA5 {
        return None;
    }
    Some(
        Anchor {
            off,
            kind: Kind::Luadb,
            used: 0,  // filled by the caller (0xFF scan to the next anchor)
            conf: Confidence::Derived,
            detail: owned(
                "LuatOS luadb script pack (the app/script region; a PAC may call it LUA/APP)",
            ),
        },
    )
}

/// The small NOR-FS generation counter (little-endian u32, high 16 bits zero,
/// non-empty, not erased) that a 64 KiB block starts with.
fn fs_generation(image: &[u8], off: usize) -> (r: Option<u16>)
    requires
        off <= image@.len(),
    ensures
        r == generation_at(image@, off as int),
{
    proof {
        reveal(generation_at);
    }
    if image.len() - off < 4 {
        return None;
    }
    if image[off + 2] == 0 && image[off + 3] == 0 {
        let g: u16 = join_be16(image[off + 1], image[off]);
        if g != 0 {
            return Some(g);
        }
    }
    None
}

// ---------------------------------------------------------------------------
// The front: code and script packs
// ---------------------------------------------------------------------------

/// `v` rounded up to a whole number of blocks.
pub open spec fn block_up(v: int) -> int {
    (v + BLOCK - 1) / (BLOCK as int) * BLOCK
}

/// Where to go on after the block at `off` of the front; `None` if the front ends
/// there: at the first filesystem block, or where no whole block is left.
pub open spec fn front_next(image: Seq<u8>, off: int) -> Option<int> {
    if off + BLOCK > image.len() {
        None
    } else {
        match uimage_at(image, off) {
            Some(m) => Some(block_up(off + m.used)),
            None => if luadb_at(image, off) is Some || generation_at(image, off) is None {
                Some(off + BLOCK)
            } else {
                None
            },
        }
    }
}

/// What is marked at `off` of the front.
pub open spec fn front_mark(image: Seq<u8>, off: int) -> Option<Mark> {
    match uimage_at(image, off) {
        Some(m) => Some(m),
        None => luadb_at(image, off),
    }
}

/// How much of the flash there is from `off` on.
pub open spec fn ahead(image: Seq<u8>, off: int) -> nat {
    if off < image.len() {
        (image.len() - off) as nat
    } else {
        0
    }
}

/// The markers of the front from `off` on.
pub open spec fn front_marks(image: Seq<u8>, off: int) -> Seq<Mark>
    decreases ahead(image, off),
{
    match front_next(image, off) {
        None => Seq::empty(),
        Some(next) => if next <= off {
            Seq::empty()
        } else {
            match front_mark(image, off) {
                Some(m) => seq![m] + front_marks(image, next),
                None => front_marks(image, next),
            }
        },
    }
}

/// Where the front ends, when it is looked at from `off` on.
pub open spec fn front_end(image: Seq<u8>, off: int) -> int
    decreases ahead(image, off),
{
    match front_next(image, off) {
        None => off,
        Some(next) => if next <= off {
            off
        } else {
            front_end(image, next)
        },
    }
}

/// Where to go on after an image of `used` bytes at `off`, but no further than `n`.
fn next_block(off: usize, used: usize, n: usize) -> (r: usize)
    requires
        0 < used,
        off + used <= n,
    ensures
        r == (if block_up(off + used) < n {
            block_up(off + used)
        } else {
            n as int
        }),
        r > off,
{
    let blocks: usize = (off + used - 1) / BLOCK + 1;
    if blocks > n / BLOCK {
        n
    } else {
        blocks * BLOCK
    }
}

/// Look at the block at `off` of the front. Returns what is marked there and where to
/// go on.
fn look_at(image: &[u8], off: usize) -> (r: (Option<Anchor>, Option<usize>))
    requires
        off + BLOCK <= image@.len(),
    ensures
        match front_next(image@, off as int) {
            Some(next) => {
                &&& r.1 matches Some(x) && off < x <= image@.len() && x == (if next < image@.len() {
                    next
                } else {
                    image@.len() as int
                })
                &&& off < next
                &&& match r.0 {
                    Some(a) => front_mark(image@, off as int) == Some(a@),
                    None => front_mark(image@, off as int) is None,
                }
            },
            None => r.0 is None && r.1 is None,
        },
{
    let n: usize = image.len();
    if let Some(a) = detect_uimage(image, off) {
        let next: usize = next_block(off, a.used, n);
        (Some(a), Some(next))
    } else if let Some(a) = detect_luadb(image, off) {
        (Some(a), Some(off + BLOCK))
    } else if fs_generation(image, off).is_some() {
        (None, None)  // the filesystem back half starts here
    } else {
        (None, Some(off + BLOCK))  // erase padding or a firmware body block
    }
}

/// Walk the block-aligned front. Returns its anchors and where it ends.
fn walk_front(image: &[u8]) -> (r: (Vec<Anchor>, usize))
    ensures
        marks_of(r.0@) == front_marks(image@, 0),
        r.1 == (if front_end(image@, 0) < image@.len() {
            front_end(image@, 0)
        } else {
            image@.len() as int
        }),
{
    let n: usize = image.len();
    let mut segs: Vec<Anchor> = Vec::new();
    let mut off: usize = 0;
    let ghost mut at: int = 0;
    proof {
        assert(marks_of(segs@) + front_marks(image@, 0) =~= front_marks(image@, 0));
    }
    while n - off >= BLOCK
        invariant
            n == image@.len(),
            off <= n,
            off == at || (off == n && at >= n),
            marks_of(segs@) + front_marks(image@, at) == front_marks(image@, 0),
            front_end(image@, at) == front_end(image@, 0),
        decreases n - off,
    {
        let ghost done = marks_of(segs@);
        let (seen, next): (Option<Anchor>, Option<usize>) = look_at(image, off);
        let ghost then = front_next(image@, at);
        match next {
            None => {
                proof {
                    assert(marks_of(segs@) + front_marks(image@, at) =~= marks_of(segs@));
                }
                return (segs, off);
            },
            Some(next) => {
                if let Some(a) = seen {
                    let ghost mark = a@;
                    segs.push(a);
                    proof {
                        assert(marks_of(segs@) =~= done.push(mark));
                        assert(done + (seq![mark] + front_marks(image@, then->0)) =~= done.push(
                            mark,
                        ) + front_marks(image@, then->0));
                    }
                }
                off = next;
                proof {
                    at = then->0;
                }
            },
        }
    }
    proof {
        assert(marks_of(segs@) + front_marks(image@, at) =~= marks_of(segs@));
    }
    (segs, off)
}

// ---------------------------------------------------------------------------
// The back half: filesystem and NV
// ---------------------------------------------------------------------------

/// The generation counters of the whole blocks from `start` on.
pub open spec fn generations(image: Seq<u8>, start: int) -> Seq<Option<u16>> {
    Seq::new(
        ((image.len() - start) / (BLOCK as int)) as nat,
        |k: int| generation_at(image, start + k * BLOCK),
    )
}

/// How many blocks from the `i`-th on have one and the same generation counter.
pub open spec fn run_len(gens: Seq<Option<u16>>, i: int) -> nat
    decreases gens.len() - i,
{
    if i < 0 || i >= gens.len() || gens[i] is None {
        0
    } else if i + 1 < gens.len() && gens[i + 1] == gens[i] {
        run_len(gens, i + 1) + 1
    } else {
        1
    }
}

/// The longest run among those that begin before the `k`-th block, and where it
/// begins; of several, the first.
pub open spec fn longest_run(gens: Seq<Option<u16>>, k: int) -> (int, nat)
    decreases k,
{
    if k <= 0 {
        (0, 0)
    } else {
        let (at, len) = longest_run(gens, k - 1);
        if run_len(gens, k - 1) > len {
            (k - 1, run_len(gens, k - 1))
        } else {
            (at, len)
        }
    }
}

/// The longest run is a run, none is longer, and none as long begins before it.
pub proof fn law_longest_run(gens: Seq<Option<u16>>, k: int)
    requires
        0 <= k <= gens.len(),
    ensures
        ({
            let (at, len) = longest_run(gens, k);
            &&& len > 0 ==> 0 <= at < k && run_len(gens, at) == len
            &&& forall|i: int| 0 <= i < k ==> #[trigger] run_len(gens, i) <= len
            &&& forall|i: int| 0 <= i < at ==> #[trigger] run_len(gens, i) < len
        }),
    decreases k,
{
    if k > 0 {
        law_longest_run(gens, k - 1);
    }
}

/// A marker of the back half.
pub open spec fn fs_mark(off: int, detail: Seq<char>) -> Mark {
    Mark {
        off: off as nat,
        kind: Kind::Filesystem,
        used: 0,
        conf: Confidence::Heuristic,
        detail,
    }
}

/// What is said about the longest run.
pub open spec fn run_detail(generation: u16, len: nat) -> Seq<char> {
    "NOR-FS, longest single-generation run (gen 0x"@ + hex(generation as nat) + ", "@ + decimal(
        len,
    ) + " blocks)"@
}

/// The markers of the back half, which begins at `start`: the longest run of blocks
/// with one generation counter, what is before it, and what is above it.
pub open spec fn back_marks(image: Seq<u8>, start: int) -> Seq<Mark> {
    let gens = generations(image, start);
    let (at, len) = longest_run(gens, gens.len() as int);
    let run_start = start + at * BLOCK;
    let run_end = run_start + len * BLOCK;
    if start >= image.len() {
        Seq::empty()
    } else if len == 0 {
        seq![fs_mark(start, "unclassified back-half region"@)]
    } else {
        (if start < run_start {
            seq![fs_mark(start, "NOR-FS staging (mixed generations)"@)]
        } else {
            Seq::empty()
        }) + seq![fs_mark(run_start, run_detail(gens[at]->0, len))] + (if run_end < image.len() {
            seq![fs_mark(run_end, "NOR-FS top region (factory/NV)"@)]
        } else {
            Seq::empty()
        })
    }
}

/// The generation counters of the whole blocks from `start` on.
fn read_generations(image: &[u8], start: usize) -> (r: Vec<Option<u16>>)
    requires
        start <= image@.len(),
    ensures
        r@ == generations(image@, start as int),
{
    let n: usize = image.len();
    let mut gens: Vec<Option<u16>> = Vec::new();
    let mut off: usize = start;
    while n - off >= BLOCK
        invariant
            n == image@.len(),
            start <= off <= n,
            off == start + gens@.len() * BLOCK,
            forall|k: int|
                0 <= k < gens@.len() ==> gens@[k] == generation_at(
                    image@,
                    #[trigger] (start + k * BLOCK),
                ),
        decreases n - off,
    {
        let g: Option<u16> = fs_generation(image, off);
        gens.push(g);
        off += BLOCK;
    }
    proof {
        assert(gens@ =~= generations(image@, start as int));
    }
    gens
}

/// Nothing that begins inside a run is longer than the run.
proof fn lemma_inside_run(gens: Seq<Option<u16>>, i: int, j: int)
    requires
        0 <= i < j <= gens.len(),
        gens[i] is Some,
        forall|k: int| i <= k < j ==> gens[k] == gens[i],
        j == gens.len() || gens[j] != gens[i],
    ensures
        run_len(gens, i) == j - i,
        ({
            let (at, len) = longest_run(gens, i);
            longest_run(gens, j) == if j - i > len {
                (i, (j - i) as nat)
            } else {
                (at, len)
            }
        }),
{
    lemma_run_len(gens, i, j);
    lemma_rest_of_run(gens, i, j, j);
}

proof fn lemma_run_len(gens: Seq<Option<u16>>, i: int, j: int)
    requires
        0 <= i < j <= gens.len(),
        gens[i] is Some,
        forall|k: int| i <= k < j ==> gens[k] == gens[i],
        j == gens.len() || gens[j] != gens[i],
    ensures
        run_len(gens, i) == j - i,
    decreases j - i,
{
    if i + 1 < j {
        lemma_run_len(gens, i + 1, j);
    }
}

proof fn lemma_rest_of_run(gens: Seq<Option<u16>>, i: int, m: int, j: int)
    requires
        0 <= i < m <= j <= gens.len(),
        gens[i] is Some,
        forall|k: int| i <= k < j ==> gens[k] == gens[i],
        j == gens.len() || gens[j] != gens[i],
    ensures
        ({
            let (at, len) = longest_run(gens, i);
            longest_run(gens, m) == if j - i > len {
                (i, (j - i) as nat)
            } else {
                (at, len)
            }
        }),
    decreases m,
{
    lemma_run_len(gens, m - 1, j);
    if m - 1 > i {
        lemma_rest_of_run(gens, i, m - 1, j);
    }
}

/// The longest run of consecutive blocks with the same generation value, and where it
/// begins.
fn find_longest_run(gens: &Vec<Option<u16>>) -> (r: (usize, usize))
    ensures
        (r.0 as int, r.1 as nat) == longest_run(gens@, gens@.len() as int),
{
    let mut best_i: usize = 0;
    let mut best_len: usize = 0;
    let mut i: usize = 0;
    while i < gens.len()
        invariant
            i <= gens@.len(),
            (best_i as int, best_len as nat) == longest_run(gens@, i as int),
        decreases gens.len() - i,
    {
        if let Some(g) = gens[i] {
            let mut j: usize = i + 1;
            while j < gens.len() && gens[j] == Some(g)
                invariant
                    i < j <= gens@.len(),
                    gens@[i as int] == Some(g),
                    forall|k: int| i <= k < j ==> gens@[k] == Some(g),
                decreases gens.len() - j,
            {
                j += 1;
            }
            proof {
                lemma_inside_run(gens@, i as int, j as int);
            }
            if j - i > best_len {
                best_i = i;
                best_len = j - i;
            }
            i = j;
        } else {
            i += 1;
        }
    }
    (best_i, best_len)
}

fn fs_anchor(off: usize, detail: String) -> (r: Anchor)
    ensures
        r@ == fs_mark(off as int, detail@),
{
    Anchor { off, kind: Kind::Filesystem, used: 0, conf: Confidence::Heuristic, detail }
}

/// Split the wear-levelled filesystem back half `[start, n)`: the longest run of
/// 64 KiB blocks sharing one generation counter is the live filesystem; anything
/// before it is mixed-generation staging, and the region above it is factory/NV.
/// All boundaries are heuristic.
fn segment_backhalf(image: &[u8], start: usize) -> (r: Vec<Anchor>)
    requires
        start <= image@.len(),
    ensures
        marks_of(r@) == back_marks(image@, start as int),
{
    let n: usize = image.len();
    let mut out: Vec<Anchor> = Vec::new();
    if start >= n {
        proof {
            assert(marks_of(out@) =~= back_marks(image@, start as int));
        }
        return out;
    }
    let gens: Vec<Option<u16>> = read_generations(image, start);
    let (best_i, best_len): (usize, usize) = find_longest_run(&gens);
    if best_len == 0 {
        out.push(fs_anchor(start, owned("unclassified back-half region")));
        proof {
            assert(marks_of(out@) =~= back_marks(image@, start as int));
        }
        return out;
    }
    proof {
        law_longest_run(gens@, gens@.len() as int);
        lemma_run_fits(gens@, best_i as int);
    }
    let fs_start: usize = start + best_i * BLOCK;
    let fs_end: usize = fs_start + best_len * BLOCK;
    let generation: u16 = match gens[best_i] {
        Some(g) => g,
        None => 0,
    };
    if start < fs_start {
        out.push(fs_anchor(start, owned("NOR-FS staging (mixed generations)")));
    }
    let mut detail: String = owned("NOR-FS, longest single-generation run (gen 0x");
    push_hex(&mut detail, generation as u64);
    detail.append(", ");
    push_decimal(&mut detail, best_len as u64);
    detail.append(" blocks)");
    out.push(fs_anchor(fs_start, detail));
    if fs_end < n {
        out.push(fs_anchor(fs_end, owned("NOR-FS top region (factory/NV)")));
    }
    proof {
        assert(marks_of(out@) =~= back_marks(image@, start as int));
    }
    out
}

/// A run ends where the blocks do, or before; it has a generation.
proof fn lemma_run_fits(gens: Seq<Option<u16>>, i: int)
    requires
        0 <= i,
    ensures
        run_len(gens, i) > 0 ==> i + run_len(gens, i) <= gens.len() && gens[i] is Some,
    decreases gens.len() - i,
{
    if i < gens.len() && gens[i] is Some && i + 1 < gens.len() && gens[i + 1] == gens[i] {
        lemma_run_fits(gens, i + 1);
    }
}

// ---------------------------------------------------------------------------
// The layout
// ---------------------------------------------------------------------------

/// Where the back half begins.
pub open spec fn back_start(image: Seq<u8>) -> int {
    if front_end(image, 0) < image.len() {
        front_end(image, 0)
    } else {
        image.len() as int
    }
}

/// All markers of a flash.
pub open spec fn marks(image: Seq<u8>) -> Seq<Mark> {
    front_marks(image, 0) + back_marks(image, back_start(image))
}

/// Where the region of the `i`-th marker ends: at the next marker or the end of the
/// flash.
pub open spec fn region_end(image: Seq<u8>, i: int) -> int {
    if i + 1 < marks(image).len() {
        marks(image)[i + 1].off as int
    } else {
        image.len() as int
    }
}

/// Bytes of real content in `[start, limit)` — everything up to the last byte that
/// isn't erase padding (`0xFF`).
pub open spec fn content_len(image: Seq<u8>, start: int, limit: int) -> nat
    decreases limit - start,
{
    if limit <= start {
        0
    } else if image[limit - 1] == 0xFF {
        content_len(image, start, limit - 1)
    } else {
        (limit - start) as nat
    }
}

/// The kind of the `i`-th region. A filesystem region that reaches the top of the
/// flash is conventionally the factory/NV region.
pub open spec fn region_kind(image: Seq<u8>, i: int) -> Kind {
    let kind = marks(image)[i].kind;
    if kind == Kind::Filesystem && i + 1 == marks(image).len() {
        Kind::Nv
    } else {
        kind
    }
}

/// How many of the first `n` regions are of a kind.
pub open spec fn kind_count(image: Seq<u8>, kind: Kind, n: int) -> nat
    decreases n,
{
    if n <= 0 {
        0
    } else {
        kind_count(image, kind, n - 1) + if region_kind(image, n - 1) == kind {
            1nat
        } else {
            0
        }
    }
}

/// How many bytes the `i`-th region uses: a `uImage` says so itself.
pub open spec fn region_used(image: Seq<u8>, i: int) -> nat {
    let m = marks(image)[i];
    if m.kind == Kind::Uimage {
        m.used
    } else {
        content_len(image, m.off as int, region_end(image, i))
    }
}

/// The `i`-th region of a flash that is mapped at `phys_base`. Its name is its kind and
/// how many of that kind came before it.
pub open spec fn area_at(image: Seq<u8>, phys_base: u32, i: int) -> Area {
    let m = marks(image)[i];
    let kind = region_kind(image, i);
    Area {
        id: kind.name_of() + "_"@ + decimal(kind_count(image, kind, i)),
        phys_addr: (phys_base + low32(m.off)) as u32,
        reserved_size: low32((region_end(image, i) - m.off) as nat),
        used_size: low32(region_used(image, i)),
        kind: kind.name_of(),
        confidence: m.conf,
        detail: m.detail,
    }
}

/// The layout of a flash that is mapped at `phys_base`.
pub open spec fn layout(image: Seq<u8>, phys_base: u32) -> Seq<Area> {
    Seq::new(marks(image).len(), |i: int| area_at(image, phys_base, i))
}

/// Whether every region of a flash that is mapped at `phys_base` has a 32-bit address.
pub open spec fn addressable(image: Seq<u8>, phys_base: u32) -> bool {
    forall|i: int|
        0 <= i < marks(image).len() ==> phys_base + low32((#[trigger] marks(image)[i]).off)
            <= u32::MAX
}

/// Whether each of some markers ends where the next begins, or before, and the last
/// one at `end`, or before.
pub open spec fn in_order(marks: Seq<Mark>, start: int, end: int) -> bool {
    &&& forall|i: int|
        0 <= i < marks.len() ==> start <= (#[trigger] marks[i]).off < end && marks[i].off
            + marks[i].used <= end && marks[i].off % (BLOCK as nat) == 0
    &&& forall|i: int, j: int|
        0 <= i < j < marks.len() ==> (#[trigger] marks[i]).off < (#[trigger] marks[j]).off
            && marks[i].off + marks[i].used <= marks[j].off
}

proof fn lemma_front_in_order(image: Seq<u8>, off: int)
    requires
        0 <= off,
        off % (BLOCK as int) == 0,
    ensures
        off <= front_end(image, off),
        front_end(image, off) % (BLOCK as int) == 0,
        in_order(front_marks(image, off), off, front_end(image, off)),
        in_order(front_marks(image, off), off, if front_end(image, off) < image.len() {
            front_end(image, off)
        } else {
            image.len() as int
        }),
    decreases ahead(image, off),
{
    reveal(uimage_at);
    reveal(luadb_at);
    match front_next(image, off) {
        None => {},
        Some(next) => {
            if next > off {
                assert(next % (BLOCK as int) == 0);
                lemma_front_in_order(image, next);
                let rest = front_marks(image, next);
                let all = front_marks(image, off);
                if let Some(m) = front_mark(image, off) {
                    assert(m.off == off && off + m.used <= next && off + m.used <= image.len());
                    assert forall|i: int, j: int| 0 <= i < j < all.len() implies (
                    #[trigger] all[i]).off < (#[trigger] all[j]).off && all[i].off + all[i].used
                        <= all[j].off by {
                        assert(all[j] == rest[j - 1]);
                        if i > 0 {
                            assert(all[i] == rest[i - 1]);
                        }
                    }
                    assert forall|i: int| 0 <= i < all.len() implies off <= (
                    #[trigger] all[i]).off < front_end(image, off) && all[i].off + all[i].used
                        <= front_end(image, off) && all[i].off % (BLOCK as nat) == 0 && all[i].off
                        < image.len() && all[i].off + all[i].used <= image.len() by {
                        if i > 0 {
                            assert(all[i] == rest[i - 1]);
                        }
                    }
                }
            }
        },
    }
}

proof fn lemma_back_in_order(image: Seq<u8>, start: int)
    requires
        0 <= start <= image.len(),
        start % (BLOCK as int) == 0 || start == image.len(),
    ensures
        in_order(back_marks(image, start), start, image.len() as int),
{
    let gens = generations(image, start);
    if start < image.len() {
        law_longest_run(gens, gens.len() as int);
        let (at, len) = longest_run(gens, gens.len() as int);
        if len > 0 {
            lemma_run_fits(gens, at);
        }
    }
}

proof fn lemma_marks_in_order(image: Seq<u8>)
    ensures
        in_order(marks(image), 0, image.len() as int),
{
    lemma_front_in_order(image, 0);
    lemma_back_in_order(image, back_start(image));
    let front = front_marks(image, 0);
    let back = back_marks(image, back_start(image));
    let all = marks(image);
    assert forall|i: int, j: int| 0 <= i < j < all.len() implies (#[trigger] all[i]).off < (
    #[trigger] all[j]).off && all[i].off + all[i].used <= all[j].off by {
        if i < front.len() {
            assert(all[i] == front[i]);
        } else {
            assert(all[i] == back[i - front.len()]);
        }
        if j < front.len() {
            assert(all[j] == front[j]);
        } else {
            assert(all[j] == back[j - front.len()]);
        }
    }
    assert forall|i: int| 0 <= i < all.len() implies 0 <= (#[trigger] all[i]).off < image.len()
        && all[i].off + all[i].used <= image.len() && all[i].off % (BLOCK as nat) == 0 by {
        if i < front.len() {
            assert(all[i] == front[i]);
        } else {
            assert(all[i] == back[i - front.len()]);
        }
    }
}

/// A flash that ends within the 32-bit address space has 32-bit addresses.
pub proof fn law_flash_in_address_space_is_addressable(image: Seq<u8>, phys_base: u32)
    requires
        phys_base + image.len() <= 0x1_0000_0000,
    ensures
        addressable(image, phys_base),
{
    lemma_marks_in_order(image);
}

/// Bytes of real content in `[start, limit)`.
fn used_len(image: &[u8], start: usize, limit: usize) -> (r: usize)
    requires
        start <= limit <= image@.len(),
    ensures
        r == content_len(image@, start as int, limit as int),
{
    let mut i: usize = limit;
    while i > start && image[i - 1] == 0xFF
        invariant
            start <= i <= limit <= image@.len(),
            content_len(image@, start as int, limit as int) == content_len(
                image@,
                start as int,
                i as int,
            ),
        decreases i,
    {
        i -= 1;
    }
    i - start
}

/// How many of the first `n` kinds are `kind`.
fn count_kind(kinds: &Vec<Kind>, kind: Kind, Ghost(image): Ghost<Seq<u8>>) -> (r: usize)
    requires
        forall|k: int| 0 <= k < kinds@.len() ==> kinds@[k] == #[trigger] region_kind(image, k),
    ensures
        r == kind_count(image, kind, kinds@.len() as int),
{
    let mut count: usize = 0;
    let mut i: usize = 0;
    while i < kinds.len()
        invariant
            i <= kinds@.len(),
            count <= i,
            count == kind_count(image, kind, i as int),
            forall|k: int| 0 <= k < kinds@.len() ==> kinds@[k] == #[trigger] region_kind(image, k),
        decreases kinds.len() - i,
    {
        proof {
            assert(kinds@[i as int] == region_kind(image, i as int));
        }
        if kinds[i] == kind {
            count += 1;
        }
        i += 1;
    }
    count
}

/// Reconstruct a proposed layout from a full flash `image` mapped at `phys_base`.
///
/// Phase 1 walks the block-aligned front, anchoring code (`uImage`, exact length)
/// and `luadb` regions, and stops at the first filesystem block. Phase 2 splits
/// the wear-levelled filesystem back half by its longest single-generation run
/// (the live modem FS), with any mixed-generation staging before it and the
/// factory/NV region at the top.
#[must_use]
pub fn reconstruct(image: &[u8], phys_base: u32) -> (r: Vec<Region>)
    requires
        addressable(image@, phys_base),
    ensures
        areas(r@) == layout(image@, phys_base),
{
    let n: usize = image.len();
    // Phase 1: firmware (code + luadb) at the front.
    let (mut segs, off): (Vec<Anchor>, usize) = walk_front(image);
    let ghost front = marks_of(segs@);
    // Phase 2: the filesystem / NV back half.
    let mut back: Vec<Anchor> = segment_backhalf(image, off);
    let ghost rest = marks_of(back@);
    let ghost segs0 = segs@;
    let ghost back0 = back@;
    segs.append(&mut back);
    proof {
        assert(marks_of(segs@) =~= front + rest);
        lemma_marks_in_order(image@);
    }

    // Assign reserved sizes (to the next base / end of flash), used sizes, and
    // generic content-type default names (`<type>_<index>`). PAC role IDs are
    // firmware-specific, not on the flash, and are not guessed.
    let mut kinds: Vec<Kind> = Vec::new();
    let mut out: Vec<Region> = Vec::new();
    let mut i: usize = 0;
    while i < segs.len()
        invariant
            i <= segs@.len(),
            n == image@.len(),
            marks_of(segs@) == marks(image@),
            in_order(marks(image@), 0, image@.len() as int),
            addressable(image@, phys_base),
            kinds@.len() == i,
            forall|k: int| 0 <= k < i ==> kinds@[k] == #[trigger] region_kind(image@, k),
            out@.len() == i,
            forall|k: int| 0 <= k < i ==> (#[trigger] out@[k])@ == area_at(image@, phys_base, k),
        decreases segs.len() - i,
    {
        let a: &Anchor = &segs[i];
        proof {
            assert(marks(image@)[i as int] == a@);
            if i + 1 < segs@.len() {
                assert(marks(image@)[i + 1] == segs@[i + 1]@);
            }
        }
        let next: usize = if i + 1 < segs.len() {
            segs[i + 1].off
        } else {
            n
        };
        let used: usize = if a.kind == Kind::Uimage {
            a.used
        } else {
            used_len(image, a.off, next)
        };
        // The final filesystem segment (reaching the top of flash) is
        // conventionally the factory/NV region.
        let kind: Kind = if a.kind == Kind::Filesystem && i + 1 == segs.len() {
            Kind::Nv
        } else {
            a.kind
        };
        let idx: usize = count_kind(&kinds, kind, Ghost(image@));
        let mut id: String = owned(kind.name());
        id.append("_");
        push_decimal(&mut id, idx as u64);
        let region: Region = Region {
            id,
            phys_addr: phys_base + length_low32(a.off),
            reserved_size: length_low32(next - a.off),
            used_size: length_low32(used),
            kind: kind.name(),
            confidence: a.conf,
            detail: a.detail.clone(),
        };
        proof {
            assert(region@ == area_at(image@, phys_base, i as int));
        }
        out.push(region);
        kinds.push(kind);
        i += 1;
    }
    proof {
        assert(areas(out@) =~= layout(image@, phys_base));
    }
    out
}

// ---------------------------------------------------------------------------
// What a layout promises as a whole
// ---------------------------------------------------------------------------

proof fn lemma_content_len(image: Seq<u8>, start: int, limit: int)
    requires
        start <= limit,
    ensures
        content_len(image, start, limit) <= limit - start,
    decreases limit - start,
{
    if start < limit && image[limit - 1] == 0xFF {
        lemma_content_len(image, start, limit - 1);
    }
}

/// Whether the `i`-th region of a flash lies on a block boundary and ends where the next
/// one begins, or where the flash does; it is not empty, and uses no more than it has.
pub open spec fn tiles(image: Seq<u8>, phys_base: u32, i: int) -> bool {
    let area = layout(image, phys_base)[i];
    &&& (area.phys_addr - phys_base) % 65536 == 0
    &&& area.phys_addr + area.reserved_size == if i + 1 < layout(image, phys_base).len() {
        layout(image, phys_base)[i + 1].phys_addr as int
    } else {
        phys_base + image.len()
    }
    &&& 0 < area.reserved_size
    &&& area.used_size <= area.reserved_size
}

#[verifier::rlimit(30)]
proof fn lemma_tiles(image: Seq<u8>, phys_base: u32, i: int)
    requires
        image.len() <= u32::MAX,
        phys_base + image.len() <= 0x1_0000_0000,
        in_order(marks(image), 0, image.len() as int),
        0 <= i < layout(image, phys_base).len(),
    ensures
        tiles(image, phys_base, i),
{
    let m = marks(image)[i];
    let end = region_end(image, i);
    let area = layout(image, phys_base)[i];
    assert(m.off < end <= image.len()) by {
        if i + 1 < marks(image).len() {
            assert(marks(image)[i + 1].off > m.off);
        }
    }
    lemma_content_len(image, m.off as int, end);
    assert(area.phys_addr == phys_base + m.off);
    assert(area.reserved_size == end - m.off);
    assert(region_used(image, i) <= end - m.off);
    if i + 1 < marks(image).len() {
        let next = marks(image)[i + 1];
        assert(end == next.off);
        assert(layout(image, phys_base)[i + 1].phys_addr == phys_base + next.off);
    }
}

/// The regions of a flash lie on block boundaries; each begins where the one before it
/// ends, the last one ends where the flash does, none is empty, and none uses more than
/// it has.
pub proof fn law_regions_tile_the_flash(image: Seq<u8>, phys_base: u32)
    requires
        image.len() <= u32::MAX,
        phys_base + image.len() <= 0x1_0000_0000,
    ensures
        forall|i: int| 0 <= i < layout(image, phys_base).len() ==> #[trigger] tiles(
            image,
            phys_base,
            i,
        ),
{
    lemma_marks_in_order(image);
    assert forall|i: int| 0 <= i < layout(image, phys_base).len() implies #[trigger] tiles(
        image,
        phys_base,
        i,
    ) by {
        lemma_tiles(image, phys_base, i);
    }
}

/// Whether a region of this kind holds code.
pub open spec fn is_code(kind: Seq<char>) -> bool {
    kind == "uimage"@ || kind == "luadb"@
}

proof fn lemma_front_is_code(image: Seq<u8>, off: int)
    ensures
        forall|i: int|
            0 <= i < front_marks(image, off).len() ==> (#[trigger] front_marks(
                image,
                off,
            )[i]).kind != Kind::Filesystem && front_marks(image, off)[i].kind != Kind::Nv,
    decreases ahead(image, off),
{
    reveal(uimage_at);
    reveal(luadb_at);
    match front_next(image, off) {
        None => {},
        Some(next) => {
            if next > off {
                lemma_front_is_code(image, next);
                let all = front_marks(image, off);
                let rest = front_marks(image, next);
                assert forall|i: int| 0 <= i < all.len() implies (#[trigger] all[i]).kind
                    != Kind::Filesystem && all[i].kind != Kind::Nv by {
                    if front_mark(image, off) is Some && i > 0 {
                        assert(all[i] == rest[i - 1]);
                    }
                }
            }
        },
    }
}

/// The regions of a flash that hold code come before all others, and only the last
/// region is of the factory/NV kind.
pub proof fn law_code_comes_first(image: Seq<u8>, phys_base: u32)
    ensures
        forall|i: int, j: int|
            0 <= i < j < layout(image, phys_base).len() && is_code(
                (#[trigger] layout(image, phys_base)[j]).kind,
            ) ==> is_code((#[trigger] layout(image, phys_base)[i]).kind),
        forall|i: int|
            0 <= i < layout(image, phys_base).len() && (#[trigger] layout(
                image,
                phys_base,
            )[i]).kind == "nv"@ ==> i + 1 == layout(image, phys_base).len(),
{
    let regions = layout(image, phys_base);
    let front = front_marks(image, 0);
    let back = back_marks(image, back_start(image));
    lemma_front_is_code(image, 0);
    reveal_strlit("uimage");
    reveal_strlit("luadb");
    reveal_strlit("filesystem");
    reveal_strlit("nv");
    assert forall|i: int| 0 <= i < regions.len() implies is_code((#[trigger] regions[i]).kind) == (i
        < front.len()) && (regions[i].kind == "nv"@ ==> i + 1 == regions.len()) by {
        if i < front.len() {
            assert(marks(image)[i] == front[i]);
        } else {
            assert(marks(image)[i] == back[i - front.len()]);
            assert(marks(image)[i].kind == Kind::Filesystem);
        }
        let name = region_kind(image, i).name_of();
        assert(regions[i].kind == name);
        assert(name.len() == 2 || name.len() == 5 || name.len() == 6 || name.len() == 10);
    }
}

/// Content ends with its last byte that is no erase padding: all behind it is padding.
proof fn lemma_content_is_exact(image: Seq<u8>, start: int, limit: int)
    requires
        0 <= start <= limit <= image.len(),
    ensures
        ({
            let n = content_len(image, start, limit);
            &&& n <= limit - start
            &&& forall|j: int| start + n <= j < limit ==> #[trigger] image[j] == 0xFF
            &&& n > 0 ==> image[start + n - 1] != 0xFF
        }),
    decreases limit - start,
{
    if start < limit && image[limit - 1] == 0xFF {
        lemma_content_is_exact(image, start, limit - 1);
    }
}

/// Where a region begins in the flash.
pub open spec fn region_start(image: Seq<u8>, phys_base: u32, i: int) -> int {
    layout(image, phys_base)[i].phys_addr - phys_base
}

/// What a region takes from its marker.
proof fn lemma_area(image: Seq<u8>, phys_base: u32, i: int)
    requires
        image.len() <= u32::MAX,
        phys_base + image.len() <= 0x1_0000_0000,
        0 <= i < layout(image, phys_base).len(),
    ensures
        ({
            let m = marks(image)[i];
            let area = layout(image, phys_base)[i];
            &&& i < marks(image).len()
            &&& m.off < region_end(image, i) <= image.len()
            &&& m.off + m.used <= region_end(image, i)
            &&& area.phys_addr == phys_base + m.off
            &&& area.reserved_size == region_end(image, i) - m.off
            &&& area.used_size == region_used(image, i)
            &&& area.confidence == m.conf
        }),
{
    lemma_marks_in_order(image);
    let m = marks(image)[i];
    let end = region_end(image, i);
    assert(m.off < end <= image.len() && m.off + m.used <= end) by {
        if i + 1 < marks(image).len() {
            assert(marks(image)[i + 1].off > m.off);
        }
    }
    lemma_content_len(image, m.off as int, end);
}

/// What a marker of a `uImage` says.
proof fn lemma_uimage_mark(image: Seq<u8>, at: int, m: Mark)
    requires
        0 <= at,
        uimage_at(image, at) == Some(m),
    ensures
        at + 64 <= image.len(),
        m.off == at,
        m.kind == Kind::Uimage,
        m.used == 64 + 16777216 * image[at + 12] + 65536 * image[at + 13] + 256 * image[at + 14]
            + image[at + 15],
        at + m.used <= image.len(),
        image.subrange(at, at + 4) == seq![0x27u8, 0x05u8, 0x19u8, 0x56u8],
        m.conf == if crc32_of(
            image.subrange(at, at + 4) + seq![0u8, 0u8, 0u8, 0u8] + image.subrange(
                at + 8,
                at + 64,
            ),
        ) == be32_at(image, at + 4) && crc32_of(image.subrange(at + 64, at + m.used)) == be32_at(
            image,
            at + 24,
        ) {
            Confidence::Verified
        } else {
            Confidence::Derived
        },
        m.detail == uimage_detail(
            utf8_lossy(before_nul(image.subrange(at + 32, at + 64))),
            crc32_of(
                image.subrange(at, at + 4) + seq![0u8, 0u8, 0u8, 0u8] + image.subrange(
                    at + 8,
                    at + 64,
                ),
            ) == be32_at(image, at + 4),
            crc32_of(image.subrange(at + 64, at + m.used)) == be32_at(image, at + 24),
        ),
{
    reveal(uimage_at);
    crate::bytes::law_fields_are_digits(image, at);
    crate::bytes::law_fields_are_digits(image, at + 12);
    assert(image.subrange(at, at + 4) =~= seq![0x27u8, 0x05u8, 0x19u8, 0x56u8]);
}

/// What a marker of a `luadb` says.
proof fn lemma_luadb_mark(image: Seq<u8>, at: int, m: Mark)
    requires
        0 <= at,
        luadb_at(image, at) == Some(m),
    ensures
        m.off == at,
        m.kind == Kind::Luadb,
        m.conf == Confidence::Derived,
        at + 6 <= image.len(),
        image.subrange(at + 2, at + 6) == seq![0x5Au8, 0xA5u8, 0x5Au8, 0xA5u8],
{
    reveal(luadb_at);
    crate::bytes::law_fields_are_digits(image, at + 2);
    assert(image.subrange(at + 2, at + 6) =~= seq![0x5Au8, 0xA5u8, 0x5Au8, 0xA5u8]);
}

/// The used size of a region is exact. For a region that is no `uImage`, every byte from
/// there to the end of the region is erase padding, and the last byte within it is not. A
/// `uImage` uses its header of 64 bytes and as many more as the header says.
pub proof fn law_used_size_is_exact(image: Seq<u8>, phys_base: u32, i: int)
    requires
        image.len() <= u32::MAX,
        phys_base + image.len() <= 0x1_0000_0000,
        0 <= i < layout(image, phys_base).len(),
    ensures
        ({
            let area = layout(image, phys_base)[i];
            let at = region_start(image, phys_base, i);
            if area.kind == "uimage"@ {
                area.used_size == 64 + 16777216 * image[at + 12] + 65536 * image[at + 13] + 256
                    * image[at + 14] + image[at + 15]
            } else {
                &&& forall|j: int|
                    at + area.used_size <= j < at + area.reserved_size ==> #[trigger] image[j]
                        == 0xFF
                &&& area.used_size > 0 ==> image[at + area.used_size - 1] != 0xFF
            }
        }),
{
    lemma_area(image, phys_base, i);
    lemma_kind_names(image, phys_base, i);
    let m = marks(image)[i];
    if m.kind == Kind::Uimage {
        lemma_mark_is_found(image, i);
        if uimage_at(image, m.off as int) is None {
            lemma_luadb_mark(image, m.off as int, m);
        }
        lemma_uimage_mark(image, m.off as int, m);
    } else {
        lemma_content_is_exact(image, m.off as int, region_end(image, i));
    }
}

/// The name of a region's kind tells its kind.
proof fn lemma_kind_names(image: Seq<u8>, phys_base: u32, i: int)
    requires
        0 <= i < layout(image, phys_base).len(),
    ensures
        (layout(image, phys_base)[i].kind == "uimage"@) == (marks(image)[i].kind == Kind::Uimage),
        (layout(image, phys_base)[i].kind == "luadb"@) == (marks(image)[i].kind == Kind::Luadb),
{
    reveal_strlit("uimage");
    reveal_strlit("luadb");
    reveal_strlit("filesystem");
    reveal_strlit("nv");
    let name = region_kind(image, i).name_of();
    assert(name.len() == 2 || name.len() == 5 || name.len() == 6 || name.len() == 10);
    assert(layout(image, phys_base)[i].kind == name);
}

proof fn lemma_front_marks_are_found(image: Seq<u8>, off: int)
    requires
        0 <= off,
    ensures
        forall|i: int|
            0 <= i < front_marks(image, off).len() ==> (#[trigger] front_marks(image, off)[i]).off
                >= off && front_mark(image, front_marks(image, off)[i].off as int) == Some(
                front_marks(image, off)[i],
            ),
    decreases ahead(image, off),
{
    reveal(uimage_at);
    reveal(luadb_at);
    match front_next(image, off) {
        None => {},
        Some(next) => {
            if next > off {
                lemma_front_marks_are_found(image, next);
                let all = front_marks(image, off);
                let rest = front_marks(image, next);
                assert forall|i: int| 0 <= i < all.len() implies (#[trigger] all[i]).off >= off
                    && front_mark(image, all[i].off as int) == Some(all[i]) by {
                    if front_mark(image, off) is Some {
                        if i > 0 {
                            assert(all[i] == rest[i - 1]);
                        }
                    } else {
                        assert(all[i] == rest[i]);
                    }
                }
            }
        },
    }
}

/// What a marker of code was made from.
proof fn lemma_mark_is_found(image: Seq<u8>, i: int)
    requires
        0 <= i < marks(image).len(),
        marks(image)[i].kind != Kind::Filesystem,
    ensures
        i < front_marks(image, 0).len(),
        front_mark(image, marks(image)[i].off as int) == Some(marks(image)[i]),
{
    let front = front_marks(image, 0);
    let back = back_marks(image, back_start(image));
    lemma_front_marks_are_found(image, 0);
    if i < front.len() {
        assert(marks(image)[i] == front[i]);
    } else {
        assert(marks(image)[i] == back[i - front.len()]);
    }
}

/// What a region is called is what the flash holds where it begins: a `uimage` begins with
/// the bytes `27 05 19 56`; a `luadb` has `5a a5 5a a5` behind its first two bytes. The
/// boundaries of a `uimage` are verified just if both of its CRC-32s match, that of its
/// header (with the field of the CRC itself zeroed) and that of its payload, and else
/// derived; those of a `luadb` are derived; all others are heuristic.
pub proof fn law_regions_are_what_they_hold(image: Seq<u8>, phys_base: u32, i: int)
    requires
        image.len() <= u32::MAX,
        phys_base + image.len() <= 0x1_0000_0000,
        0 <= i < layout(image, phys_base).len(),
    ensures
        ({
            let area = layout(image, phys_base)[i];
            let at = region_start(image, phys_base, i);
            let payload = area.used_size - 64;
            if area.kind == "uimage"@ {
                &&& image.subrange(at, at + 4) == seq![0x27u8, 0x05u8, 0x19u8, 0x56u8]
                &&& area.confidence == if crc32_of(
                    image.subrange(at, at + 4) + seq![0u8, 0u8, 0u8, 0u8] + image.subrange(
                        at + 8,
                        at + 64,
                    ),
                ) == be32_at(image, at + 4) && crc32_of(
                    image.subrange(at + 64, at + 64 + payload),
                ) == be32_at(image, at + 24) {
                    Confidence::Verified
                } else {
                    Confidence::Derived
                }
            } else if area.kind == "luadb"@ {
                &&& image.subrange(at + 2, at + 6) == seq![0x5Au8, 0xA5u8, 0x5Au8, 0xA5u8]
                &&& area.confidence == Confidence::Derived
            } else {
                area.confidence == Confidence::Heuristic
            }
        }),
{
    lemma_area(image, phys_base, i);
    lemma_kind_names(image, phys_base, i);
    let m = marks(image)[i];
    let at = m.off as int;
    if m.kind == Kind::Filesystem {
        lemma_back_is_heuristic(image, i);
    } else {
        lemma_mark_is_found(image, i);
        if uimage_at(image, at) is Some {
            lemma_uimage_mark(image, at, m);
        } else {
            lemma_luadb_mark(image, at, m);
        }
    }
}

proof fn lemma_back_is_heuristic(image: Seq<u8>, i: int)
    requires
        0 <= i < marks(image).len(),
        marks(image)[i].kind == Kind::Filesystem,
    ensures
        marks(image)[i].conf == Confidence::Heuristic,
{
    let front = front_marks(image, 0);
    let back = back_marks(image, back_start(image));
    lemma_front_is_code(image, 0);
    if i < front.len() {
        assert(marks(image)[i] == front[i]);
    } else {
        assert(marks(image)[i] == back[i - front.len()]);
    }
}

/// Whether the block at `off` is accounted for by some markers: one is there; or that of a
/// `uImage` that begins before it and reaches into it; or nothing in it marks code, and no
/// generation counter stands at its beginning.
pub open spec fn accounted_for(image: Seq<u8>, all: Seq<Mark>, off: int) -> bool {
    ||| exists|i: int| 0 <= i < all.len() && #[trigger] covers(all[i], off)
    ||| front_mark(image, off) is None && generation_at(image, off) is None
}

/// Whether a marker is at `off`, or is of a `uImage` that reaches over it.
pub open spec fn covers(m: Mark, off: int) -> bool {
    m.off == off || m.kind == Kind::Uimage && m.off < off < m.off + m.used
}

/// A whole number of blocks below a size rounded up to blocks is below the size.
proof fn lemma_below_block_up(v: int, off: int)
    requires
        0 <= v,
        off % (BLOCK as int) == 0,
        off < block_up(v),
    ensures
        off < v,
        block_up(v) % (BLOCK as int) == 0,
{
}

proof fn lemma_front_step(image: Seq<u8>, from: int, next: int)
    requires
        0 <= from,
        from % (BLOCK as int) == 0,
        front_next(image, from) == Some(next),
    ensures
        from < next,
        next % (BLOCK as int) == 0,
        match front_mark(image, from) {
            Some(m) => m.off == from && forall|off: int|
                from <= off < next && off % (BLOCK as int) == 0 ==> #[trigger] covers(m, off),
            None => next == from + BLOCK && generation_at(image, from) is None,
        },
{
    match uimage_at(image, from) {
        Some(m) => {
            lemma_uimage_mark(image, from, m);
            assert forall|off: int|
                from <= off < next && off % (BLOCK as int) == 0 implies #[trigger] covers(
                m,
                off,
            ) by {
                lemma_below_block_up(from + m.used, off);
            }
            lemma_below_block_up(from + m.used, from);
        },
        None => {
            if let Some(m) = luadb_at(image, from) {
                lemma_luadb_mark(image, from, m);
            }
        },
    }
}

proof fn lemma_front_accounts(image: Seq<u8>, from: int, off: int)
    requires
        0 <= from <= off,
        from % (BLOCK as int) == 0,
        off % (BLOCK as int) == 0,
        off < front_end(image, from),
    ensures
        accounted_for(image, front_marks(image, from), off),
    decreases ahead(image, from),
{
    let all = front_marks(image, from);
    match front_next(image, from) {
        None => {},
        Some(next) => {
            lemma_front_step(image, from, next);
            let rest = front_marks(image, next);
            if off >= next {
                lemma_front_accounts(image, next, off);
                if exists|i: int| 0 <= i < rest.len() && #[trigger] covers(rest[i], off) {
                    let i = choose|i: int| 0 <= i < rest.len() && #[trigger] covers(rest[i], off);
                    assert(covers(all[i + all.len() - rest.len()], off));
                }
            } else if front_mark(image, from) is Some {
                assert(covers(all[0], off));
            } else {
                assert(off == from);
            }
        },
    }
}

/// The front of a flash is walked through to its end without missing anything: every block
/// before the back half is accounted for. The back half begins with a filesystem block, or
/// where no whole block is left.
pub proof fn law_front_misses_nothing(image: Seq<u8>, off: int)
    requires
        0 <= off < back_start(image),
        off % 65536 == 0,
    ensures
        accounted_for(image, marks(image), off),
        back_start(image) + 65536 <= image.len() ==> generation_at(image, back_start(image)) is Some
            && front_mark(image, back_start(image)) is None,
{
    lemma_front_accounts(image, 0, off);
    let all = front_marks(image, 0);
    if exists|i: int| 0 <= i < all.len() && #[trigger] covers(all[i], off) {
        let i = choose|i: int| 0 <= i < all.len() && #[trigger] covers(all[i], off);
        assert(covers(marks(image)[i], off));
    }
    lemma_front_ends(image, 0);
}

proof fn lemma_front_ends(image: Seq<u8>, off: int)
    requires
        0 <= off,
        off % (BLOCK as int) == 0,
    ensures
        front_end(image, off) + BLOCK <= image.len() ==> generation_at(
            image,
            front_end(image, off),
        ) is Some && front_mark(image, front_end(image, off)) is None,
    decreases ahead(image, off),
{
    match front_next(image, off) {
        None => {},
        Some(next) => {
            lemma_front_step(image, off, next);
            lemma_front_ends(image, next);
        },
    }
}

/// A generation counter is a 32-bit little-endian number that is not zero and below 65536.
pub proof fn law_generation_is_small(image: Seq<u8>, off: int)
    requires
        0 <= off,
        off + 4 <= image.len(),
    ensures
        ({
            let n = image[off] + 256 * image[off + 1] + 65536 * image[off + 2] + 16777216
                * image[off + 3];
            match generation_at(image, off) {
                Some(g) => g == n && 0 < n,
                None => n == 0 || n >= 65536,
            }
        }),
{
    reveal(generation_at);
    crate::bytes::law_fields_are_digits(image, off);
}

/// A run of blocks has one and the same generation counter; the block behind it, if there
/// is one, has another or none.
pub proof fn law_run_has_one_generation(gens: Seq<Option<u16>>, i: int)
    requires
        0 <= i < gens.len(),
    ensures
        i + run_len(gens, i) <= gens.len(),
        gens[i] is Some <==> run_len(gens, i) > 0,
        forall|k: int| i <= k < i + run_len(gens, i) ==> #[trigger] gens[k] == gens[i],
        gens[i] is Some && i + run_len(gens, i) < gens.len() ==> gens[i + run_len(gens, i)]
            != gens[i],
    decreases gens.len() - i,
{
    if gens[i] is Some && i + 1 < gens.len() && gens[i + 1] == gens[i] {
        law_run_has_one_generation(gens, i + 1);
    }
}

/// The back half of a flash is cut where its longest run of blocks with one generation
/// counter begins and ends: a region begins where the back half does, one where the run
/// does, and one where it ends, if the flash goes on there. Without any such run it is one
/// region.
pub proof fn law_back_half_is_cut_at_the_longest_run(image: Seq<u8>, start: int)
    requires
        0 <= start < image.len(),
    ensures
        ({
            let gens = generations(image, start);
            let (at, len) = longest_run(gens, gens.len() as int);
            let all = back_marks(image, start);
            let from = start + at * 65536;
            let to = from + len * 65536;
            &&& gens.len() == (image.len() - start) / 65536
            &&& forall|k: int|
                0 <= k < gens.len() ==> #[trigger] gens[k] == generation_at(
                    image,
                    start + k * 65536,
                )
            &&& all.len() > 0 && all[0].off == start
            &&& len == 0 ==> all.len() == 1
            &&& len > 0 ==> {
                let r = if from == start {
                    0int
                } else {
                    1int
                };
                &&& all[r].off == from
                &&& all[r].detail == run_detail(gens[at]->0, len)
                &&& all.len() == r + 1 + (if to < image.len() {
                    1int
                } else {
                    0int
                })
                &&& to < image.len() ==> all[r + 1].off == to
            }
        }),
{
    let gens = generations(image, start);
    law_longest_run(gens, gens.len() as int);
}

proof fn lemma_numeral_is_unique(a: nat, b: nat)
    requires
        decimal(a) == decimal(b),
    ensures
        a == b,
    decreases a,
{
    let da = decimal(a);
    let db = decimal(b);
    assert(da.len() >= 1);
    assert(da.last() == db.last());
    assert(da.last() == digit((a % 10) as int));
    assert(db.last() == digit((b % 10) as int));
    assert(a % 10 == b % 10);
    if a >= 10 && b >= 10 {
        assert(da.drop_last() =~= decimal(a / 10));
        assert(db.drop_last() =~= decimal(b / 10));
        lemma_numeral_is_unique(a / 10, b / 10);
    } else if a >= 10 {
        lemma_numeral_not_empty(a / 10);
        assert(da.len() >= 2 && db.len() == 1);
    } else if b >= 10 {
        lemma_numeral_not_empty(b / 10);
        assert(db.len() >= 2 && da.len() == 1);
    }
}

proof fn lemma_numeral_not_empty(a: nat)
    ensures
        decimal(a).len() >= 1,
{
}

proof fn lemma_kind_count_grows(image: Seq<u8>, kind: Kind, i: int, j: int)
    requires
        0 <= i < j,
        region_kind(image, i) == kind,
    ensures
        kind_count(image, kind, i) < kind_count(image, kind, j),
    decreases j - i,
{
    if i + 1 < j {
        lemma_kind_count_grows(image, kind, i, j - 1);
    }
}

/// No two regions of a flash have the same name.
pub proof fn law_region_names_are_distinct(image: Seq<u8>, phys_base: u32, i: int, j: int)
    requires
        0 <= i < j < layout(image, phys_base).len(),
    ensures
        layout(image, phys_base)[i].id != layout(image, phys_base)[j].id,
{
    let a = region_kind(image, i);
    let b = region_kind(image, j);
    let na = kind_count(image, a, i);
    let nb = kind_count(image, b, j);
    let x = a.name_of() + "_"@ + decimal(na);
    let y = b.name_of() + "_"@ + decimal(nb);
    reveal_strlit("uimage");
    reveal_strlit("luadb");
    reveal_strlit("filesystem");
    reveal_strlit("nv");
    reveal_strlit("_");
    if x == y {
        assert(x[0] == a.name_of()[0] && y[0] == b.name_of()[0]);
        assert(a == b);
        let n = a.name_of().len() as int + 1;
        assert(x.skip(n) =~= decimal(na));
        assert(y.skip(n) =~= decimal(nb));
        lemma_numeral_is_unique(na, nb);
        lemma_kind_count_grows(image, a, i, j);
    }
}

// ---------------------------------------------------------------------------
// XML
// ---------------------------------------------------------------------------

/// What stands before the regions.
pub open spec fn xml_head() -> Seq<char> {
    "<?xml version=\"1.0\" encoding=\"utf-8\"?>\n<BMAConfig>\n  <SchemeList>\n    <Scheme name=\"RECONSTRUCTED_FROM_DUMP\">\n      <!-- Physical geometry derived from a full flash dump. Bases/sizes are derived; names are conventional guesses; FDL/erase/control entries are not recoverable. -->\n"@
}

/// One region as XML.
pub open spec fn xml_region(a: Area) -> Seq<char> {
    "      <File>\n        <ID>"@ + a.id + "</ID>\n        <Type>"@ + a.kind
        + "</Type>\n        <Block>\n          <Base>0x"@ + padded_left(
        hex(a.phys_addr as nat),
        '0',
        8,
    ) + "</Base>\n          <Size>0x"@ + hex(a.reserved_size as nat)
        + "</Size>\n        </Block>\n        <Description>"@ + a.confidence.tag_of()
        + " | used 0x"@ + hex(a.used_size as nat) + " | "@ + a.detail
        + "</Description>\n      </File>\n"@
}

/// Some regions as XML, one after the other.
pub open spec fn xml_regions(v: Seq<Area>) -> Seq<char>
    decreases v.len(),
{
    if v.len() == 0 {
        Seq::empty()
    } else {
        xml_regions(v.drop_last()) + xml_region(v.last())
    }
}

/// Some regions as a `<BMAConfig>` document.
pub open spec fn xml_of(v: Seq<Area>) -> Seq<char> {
    xml_head() + xml_regions(v) + "    </Scheme>\n  </SchemeList>\n</BMAConfig>\n"@
}

fn push_xml_region(s: &mut String, r: &Region)
    ensures
        final(s)@ == old(s)@ + xml_region(r@),
{
    let ghost before = s@;
    s.append("      <File>\n        <ID>");
    s.append(r.id.as_str());
    s.append("</ID>\n        <Type>");
    s.append(r.kind);
    s.append("</Type>\n        <Block>\n          <Base>0x");
    push_hex_padded(s, r.phys_addr as u64, 8);
    s.append("</Base>\n          <Size>0x");
    push_hex(s, r.reserved_size as u64);
    s.append("</Size>\n        </Block>\n        <Description>");
    s.append(r.confidence.tag());
    s.append(" | used 0x");
    push_hex(s, r.used_size as u64);
    s.append(" | ");
    s.append(r.detail.as_str());
    s.append("</Description>\n      </File>\n");
    proof {
        assert(s@ =~= before + xml_region(r@));
    }
}

/// Render reconstructed `regions` as a `<BMAConfig>` XML (same shape as a `.pac`
/// scheme). Names are conventional; a comment records that it was reconstructed.
#[must_use]
pub fn to_bmaconfig_xml(regions: &[Region]) -> (r: String)
    ensures
        r@ == xml_of(areas(regions@)),
{
    let mut s: String = owned(
        "<?xml version=\"1.0\" encoding=\"utf-8\"?>\n<BMAConfig>\n  <SchemeList>\n    <Scheme name=\"RECONSTRUCTED_FROM_DUMP\">\n      <!-- Physical geometry derived from a full flash dump. Bases/sizes are derived; names are conventional guesses; FDL/erase/control entries are not recoverable. -->\n",
    );
    let ghost all = areas(regions@);
    let mut i: usize = 0;
    proof {
        assert(xml_head() + xml_regions(all.take(0)) =~= xml_head());
    }
    while i < regions.len()
        invariant
            i <= regions@.len(),
            all == areas(regions@),
            s@ == xml_head() + xml_regions(all.take(i as int)),
        decreases regions.len() - i,
    {
        push_xml_region(&mut s, &regions[i]);
        proof {
            assert(all.take(i + 1).drop_last() =~= all.take(i as int));
            assert(all.take(i + 1).last() == regions@[i as int]@);
            assert(s@ =~= xml_head() + xml_regions(all.take(i + 1)));
        }
        i += 1;
    }
    s.append("    </Scheme>\n  </SchemeList>\n</BMAConfig>\n");
    proof {
        assert(all.take(i as int) =~= all);
    }
    s
}

// ---------------------------------------------------------------------------
// What regions are called and how they are written down
// ---------------------------------------------------------------------------

/// How many of the first `n` regions are called by a kind.
pub open spec fn called(v: Seq<Area>, kind: Seq<char>, n: int) -> nat {
    v.take(n).filter(|a: Area| a.kind == kind).len()
}

proof fn lemma_names_differ(a: Kind, b: Kind)
    ensures
        a.name_of() == b.name_of() <==> a == b,
{
    reveal_strlit("uimage");
    reveal_strlit("luadb");
    reveal_strlit("filesystem");
    reveal_strlit("nv");
    assert(a.name_of()[0] == b.name_of()[0] ==> a == b);
}

proof fn lemma_called(image: Seq<u8>, phys_base: u32, kind: Kind, n: int)
    requires
        0 <= n <= layout(image, phys_base).len(),
    ensures
        called(layout(image, phys_base), kind.name_of(), n) == kind_count(image, kind, n),
    decreases n,
{
    let v = layout(image, phys_base);
    let p = |a: Area| a.kind == kind.name_of();
    reveal(Seq::filter);
    if n > 0 {
        lemma_called(image, phys_base, kind, n - 1);
        lemma_names_differ(region_kind(image, n - 1), kind);
        assert(v.take(n).drop_last() =~= v.take(n - 1));
        assert(v.take(n).last() == v[n - 1]);
    }
}

/// A region is called by its kind and a number: how many regions of its kind come before it.
pub proof fn law_region_is_called_by_its_kind(image: Seq<u8>, phys_base: u32, i: int)
    requires
        0 <= i < layout(image, phys_base).len(),
    ensures
        ({
            let v = layout(image, phys_base);
            let n = v[i].kind.len() as int;
            &&& v[i].id.take(n) == v[i].kind
            &&& v[i].id[n] == '_'
            &&& crate::text::numeral_value(v[i].id.skip(n + 1), 10) == called(v, v[i].kind, i)
        }),
{
    let v = layout(image, phys_base);
    let kind = region_kind(image, i);
    let n = v[i].kind.len() as int;
    lemma_called(image, phys_base, kind, i);
    reveal_strlit("_");
    crate::text::law_numeral_says_the_number(kind_count(image, kind, i), 10);
    assert(v[i].id.take(n) =~= v[i].kind);
    assert(v[i].id.skip(n + 1) =~= decimal(kind_count(image, kind, i)));
}

/// What stands before the first NUL of some bytes has none in it, and is all of them or is
/// followed by one.
pub proof fn law_before_nul(raw: Seq<u8>)
    ensures
        ({
            let s = before_nul(raw);
            &&& s.len() <= raw.len()
            &&& raw.take(s.len() as int) == s
            &&& !s.contains(0)
            &&& s.len() == raw.len() || raw[s.len() as int] == 0
        }),
{
    crate::bytes::lemma_index_from(raw, 0, 0);
    let s = before_nul(raw);
    assert(raw.take(s.len() as int) =~= s);
}

/// What is said of a `uImage`: its name, which stands in quotes if it is not empty, and
/// whether each of its CRCs is right.
pub proof fn law_uimage_detail(name: Seq<char>, hcrc: bool, dcrc: bool)
    ensures
        ({
            let said = uimage_detail(name, hcrc, dcrc);
            &&& crate::text::begins_with(said, "uImage"@)
            &&& name.len() > 0 ==> crate::text::stands_at(said, seq![' ', '\''] + name + seq!['\''], 6)
            &&& crate::text::finishes_with(said, "ok"@) <==> dcrc
            &&& crate::text::finishes_with(said, "BAD"@) <==> !dcrc
            &&& crate::text::stands_at(
                said,
                if hcrc {
                    " hcrc=ok"@
                } else {
                    " hcrc=BAD"@
                },
                if name.len() > 0 {
                    6 + 3 + name.len() as int
                } else {
                    6
                },
            )
        }),
{
    reveal_strlit("uImage");
    reveal_strlit(" '");
    reveal_strlit("'");
    reveal_strlit(" hcrc=");
    reveal_strlit(" hcrc=ok");
    reveal_strlit(" hcrc=BAD");
    reveal_strlit(" dcrc=");
    reveal_strlit("ok");
    reveal_strlit("BAD");
    let said = uimage_detail(name, hcrc, dcrc);
    let n = said.len() as int;
    assert(said.subrange(0, 6) =~= "uImage"@);
    let at = if name.len() > 0 {
        6 + 3 + name.len() as int
    } else {
        6
    };
    if name.len() > 0 {
        assert(said.subrange(6, 9 + name.len() as int) =~= seq![' ', '\''] + name + seq!['\'']);
    }
    if hcrc {
        assert(said.subrange(at, at + 8) =~= " hcrc=ok"@);
    } else {
        assert(said.subrange(at, at + 9) =~= " hcrc=BAD"@);
    }
    if dcrc {
        assert(said.subrange(n - 2, n) =~= "ok"@);
        assert(said.subrange(n - 3, n)[2] == 'k');
    } else {
        assert(said.subrange(n - 3, n) =~= "BAD"@);
        assert(said.subrange(n - 2, n)[1] == 'D');
    }
}

proof fn lemma_regrouped(a: Seq<char>, b: Seq<char>, c: Seq<char>)
    ensures
        a + (b + c) == a + b + c,
        Seq::<char>::empty() + a == a,
        a + Seq::<char>::empty() == a,
{
    assert(a + (b + c) =~= a + b + c);
    assert(Seq::<char>::empty() + a =~= a);
    assert(a + Seq::<char>::empty() =~= a);
}

proof fn lemma_xml_one(one: Area)
    ensures
        xml_regions(Seq::empty()) == Seq::<char>::empty(),
        xml_regions(seq![one]) == xml_region(one),
{
    assert(seq![one].drop_last() =~= Seq::<Area>::empty());
    assert(seq![one].last() == one);
    assert(xml_regions(Seq::empty()) == Seq::<char>::empty());
    assert(xml_regions(seq![one]) == xml_regions(Seq::empty()) + xml_region(one));
    lemma_regrouped(xml_region(one), Seq::empty(), Seq::empty());
}

/// Every region is written down, one after the other, in their order.
pub proof fn law_xml_has_every_region(a: Seq<Area>, one: Area, b: Seq<Area>)
    ensures
        xml_regions(Seq::empty()) == Seq::<char>::empty(),
        xml_regions(seq![one]) == xml_region(one),
        xml_regions(a + b) == xml_regions(a) + xml_regions(b),
        crate::text::holds(xml_of(a + seq![one] + b), xml_region(one)),
{
    lemma_xml_regions(a, b);
    lemma_xml_regions(a, seq![one]);
    lemma_xml_regions(a + seq![one], b);
    lemma_xml_one(one);
    let tail = "    </Scheme>\n  </SchemeList>\n</BMAConfig>\n"@;
    let xa = xml_regions(a);
    let xb = xml_regions(b);
    let x = xml_region(one);
    let h = xml_head();
    assert(xml_of(a + seq![one] + b) == h + (xa + x + xb) + tail);
    lemma_regrouped(h, xa + x, xb);
    lemma_regrouped(h, xa, x);
    lemma_regrouped(h + xa + x, xb, tail);
    crate::text::lemma_holds_within(h + xa, x, xb + tail);
}

proof fn lemma_xml_regions(a: Seq<Area>, b: Seq<Area>)
    ensures
        xml_regions(a + b) == xml_regions(a) + xml_regions(b),
    decreases b.len(),
{
    if b.len() == 0 {
        assert(a + b =~= a);
        lemma_regrouped(xml_regions(a), Seq::empty(), Seq::empty());
    } else {
        assert((a + b).drop_last() =~= a + b.drop_last());
        assert((a + b).last() == b.last());
        lemma_xml_regions(a, b.drop_last());
        lemma_regrouped(xml_regions(a), xml_regions(b.drop_last()), xml_region(b.last()));
    }
}

/// A region is written down with its name, its kind, its address (in eight hexadecimal
/// digits) and its size, each in an element of its own.
#[verifier::rlimit(30)]
pub proof fn law_xml_region(a: Area)
    ensures
        crate::text::holds(xml_region(a), "<ID>"@ + a.id + "</ID>"@),
        crate::text::holds(xml_region(a), "<Type>"@ + a.kind + "</Type>"@),
        crate::text::holds(
            xml_region(a),
            "<Base>0x"@ + padded_left(hex(a.phys_addr as nat), '0', 8) + "</Base>"@,
        ),
        crate::text::holds(
            xml_region(a),
            "<Size>0x"@ + hex(a.reserved_size as nat) + "</Size>"@,
        ),
        crate::text::holds(
            xml_region(a),
            "<Description>"@ + a.confidence.tag_of() + " | used 0x"@ + hex(a.used_size as nat)
                + " | "@ + a.detail + "</Description>"@,
        ),
{
    let s0 = "      <File>\n        <ID>"@;
    let s1 = "</ID>\n        <Type>"@;
    let s2 = "</Type>\n        <Block>\n          <Base>0x"@;
    let s3 = "</Base>\n          <Size>0x"@;
    let s4 = "</Size>\n        </Block>\n        <Description>"@;
    let s5 = "</Description>\n      </File>\n"@;
    let base = padded_left(hex(a.phys_addr as nat), '0', 8);
    let size = hex(a.reserved_size as nat);
    let about = a.confidence.tag_of() + " | used 0x"@ + hex(a.used_size as nat) + " | "@ + a.detail;
    lemma_tags();
    let whole = xml_region(a);
    let t0 = s0 + a.id;
    let t1 = t0 + s1 + a.kind;
    let t2 = t1 + s2 + base;
    let t3 = t2 + s3 + size;
    let r4 = s4 + about + s5;
    let r3 = s3 + size + r4;
    let r2 = s2 + base + r3;
    let r1 = s1 + a.kind + r2;
    assert(whole =~= t3 + r4);
    assert(whole =~= t2 + r3);
    assert(whole =~= t1 + r2);
    assert(whole =~= t0 + r1);
    crate::text::lemma_holds_between(Seq::empty(), s0, a.id, s1, a.kind + r2, "<ID>"@, "</ID>"@);
    crate::text::lemma_holds_between(t0, s1, a.kind, s2, base + r3, "<Type>"@, "</Type>"@);
    crate::text::lemma_holds_between(t1, s2, base, s3, size + r4, "<Base>0x"@, "</Base>"@);
    crate::text::lemma_holds_between(t2, s3, size, s4, about + s5, "<Size>0x"@, "</Size>"@);
    crate::text::lemma_holds_between(t3, s4, about, s5, Seq::empty(), "<Description>"@, "</Description>"@);
    assert(whole =~= Seq::<char>::empty() + s0 + a.id + s1 + (a.kind + r2));
    assert(whole =~= t0 + s1 + a.kind + s2 + (base + r3));
    assert(whole =~= t1 + s2 + base + s3 + (size + r4));
    assert(whole =~= t2 + s3 + size + s4 + (about + s5));
    assert(whole =~= t3 + s4 + about + s5 + Seq::<char>::empty());
    assert("<Description>"@ + about + "</Description>"@ =~= "<Description>"@ + a.confidence.tag_of()
        + " | used 0x"@ + hex(a.used_size as nat) + " | "@ + a.detail + "</Description>"@);
}

proof fn lemma_tags()
    ensures
        crate::text::closes("      <File>\n        <ID>"@, "<ID>"@),
        crate::text::opens("</ID>\n        <Type>"@, "</ID>"@),
        crate::text::closes("</ID>\n        <Type>"@, "<Type>"@),
        crate::text::opens("</Type>\n        <Block>\n          <Base>0x"@, "</Type>"@),
        crate::text::closes("</Type>\n        <Block>\n          <Base>0x"@, "<Base>0x"@),
        crate::text::opens("</Base>\n          <Size>0x"@, "</Base>"@),
        crate::text::closes("</Base>\n          <Size>0x"@, "<Size>0x"@),
        crate::text::opens("</Size>\n        </Block>\n        <Description>"@, "</Size>"@),
        crate::text::closes("</Size>\n        </Block>\n        <Description>"@, "<Description>"@),
        crate::text::opens("</Description>\n      </File>\n"@, "</Description>"@),
{
    reveal_strlit("      <File>\n        <ID>");
    reveal_strlit("</ID>\n        <Type>");
    reveal_strlit("</Type>\n        <Block>\n          <Base>0x");
    reveal_strlit("</Base>\n          <Size>0x");
    reveal_strlit("</Size>\n        </Block>\n        <Description>");
    reveal_strlit("</Description>\n      </File>\n");
    reveal_strlit("<ID>");
    reveal_strlit("</ID>");
    reveal_strlit("<Type>");
    reveal_strlit("</Type>");
    reveal_strlit("<Base>0x");
    reveal_strlit("</Base>");
    reveal_strlit("<Size>0x");
    reveal_strlit("</Size>");
    reveal_strlit("<Description>");
    reveal_strlit("</Description>");
    let s0 = "      <File>\n        <ID>"@;
    let s1 = "</ID>\n        <Type>"@;
    let s2 = "</Type>\n        <Block>\n          <Base>0x"@;
    let s3 = "</Base>\n          <Size>0x"@;
    let s4 = "</Size>\n        </Block>\n        <Description>"@;
    let s5 = "</Description>\n      </File>\n"@;
    assert(s0.skip(s0.len() - 4) =~= "<ID>"@);
    assert(s1.take(5) =~= "</ID>"@);
    assert(s1.skip(s1.len() - 6) =~= "<Type>"@);
    assert(s2.take(7) =~= "</Type>"@);
    assert(s2.skip(s2.len() - 8) =~= "<Base>0x"@);
    assert(s3.take(7) =~= "</Base>"@);
    assert(s3.skip(s3.len() - 8) =~= "<Size>0x"@);
    assert(s4.take(7) =~= "</Size>"@);
    assert(s4.skip(s4.len() - 13) =~= "<Description>"@);
    assert(s5.take(14) =~= "</Description>"@);
}

/// What is said of the longest run tells its generation in hexadecimal and its length in blocks.
pub proof fn law_run_detail(generation: u16, len: nat)
    ensures
        crate::text::holds(
            run_detail(generation, len),
            "gen 0x"@ + hex(generation as nat) + ", "@,
        ),
        crate::text::holds(run_detail(generation, len), ", "@ + decimal(len) + " blocks"@),
{
    let s0 = "NOR-FS, longest single-generation run (gen 0x"@;
    let s1 = ", "@;
    let s2 = " blocks)"@;
    let g = hex(generation as nat);
    let n = decimal(len);
    let none = Seq::<char>::empty();
    let said = run_detail(generation, len);
    assert(crate::text::closes(s0, "gen 0x"@)) by {
        reveal_strlit("NOR-FS, longest single-generation run (gen 0x");
        reveal_strlit("gen 0x");
        assert(s0.skip(s0.len() - 6) =~= "gen 0x"@);
    }
    assert(crate::text::opens(s2, " blocks"@)) by {
        reveal_strlit(" blocks)");
        reveal_strlit(" blocks");
        assert(s2.take(7) =~= " blocks"@);
    }
    assert(s1.take(s1.len() as int) =~= s1 && s1.skip(0) =~= s1);
    crate::text::lemma_holds_between(none, s0, g, s1, n + s2, "gen 0x"@, s1);
    crate::text::lemma_holds_between(s0 + g, s1, n, s2, none, s1, " blocks"@);
    assert(said =~= none + s0 + g + s1 + (n + s2));
    assert(said =~= s0 + g + s1 + n + s2 + none);
}

/// What marks code: a `uImage` is found wherever the bytes `27 05 19 56` stand and the flash
/// holds its header of 64 bytes and the payload that the header tells of, whether or not its CRCs
/// are right; a `luadb` wherever there is no `uImage` and `5a a5 5a a5` stands behind two bytes.
pub proof fn law_code_is_found_by_its_marks(image: Seq<u8>, off: int)
    requires
        0 <= off,
    ensures
        ({
            let magic = off + 64 <= image.len() && image[off] == 0x27 && image[off + 1] == 0x05
                && image[off + 2] == 0x19 && image[off + 3] == 0x56;
            let size = 16777216 * image[off + 12] + 65536 * image[off + 13] + 256 * image[off + 14]
                + image[off + 15];
            let whole = magic && off + 64 + size <= image.len();
            let script = off + 6 <= image.len() && image[off + 2] == 0x5A && image[off + 3] == 0xA5
                && image[off + 4] == 0x5A && image[off + 5] == 0xA5;
            &&& front_mark(image, off) is Some <==> whole || script
            &&& whole ==> front_mark(image, off)->0.kind == Kind::Uimage
            &&& !whole && script ==> front_mark(image, off)->0.kind == Kind::Luadb
        }),
{
    reveal(uimage_at);
    reveal(luadb_at);
    crate::bytes::law_fields_are_digits(image, off);
    crate::bytes::law_fields_are_digits(image, off + 2);
    crate::bytes::law_fields_are_digits(image, off + 12);
}

/// A `uImage` region is described by the name in its header, which stands in the 32 bytes from
/// the 32nd on, up to the first NUL, and by its two CRCs.
pub proof fn law_uimage_region_is_described(image: Seq<u8>, phys_base: u32, i: int)
    requires
        image.len() <= u32::MAX,
        phys_base + image.len() <= 0x1_0000_0000,
        0 <= i < layout(image, phys_base).len(),
        layout(image, phys_base)[i].kind == "uimage"@,
    ensures
        ({
            let area = layout(image, phys_base)[i];
            let at = region_start(image, phys_base, i);
            area.detail == uimage_detail(
                utf8_lossy(before_nul(image.subrange(at + 32, at + 64))),
                crc32_of(
                    image.subrange(at, at + 4) + seq![0u8, 0u8, 0u8, 0u8] + image.subrange(
                        at + 8,
                        at + 64,
                    ),
                ) == be32_at(image, at + 4),
                crc32_of(image.subrange(at + 64, at + area.used_size)) == be32_at(image, at + 24),
            )
        }),
{
    lemma_area(image, phys_base, i);
    lemma_kind_names(image, phys_base, i);
    let m = marks(image)[i];
    let at = m.off as int;
    if m.kind == Kind::Filesystem {
        lemma_names_differ(Kind::Filesystem, Kind::Uimage);
        lemma_names_differ(Kind::Nv, Kind::Uimage);
    } else {
        lemma_mark_is_found(image, i);
        if uimage_at(image, at) is Some {
            lemma_uimage_mark(image, at, m);
        } else {
            lemma_luadb_mark(image, at, m);
            lemma_names_differ(Kind::Luadb, Kind::Uimage);
        }
    }
}

/// The region at the top of the flash, unless it holds code, is the factory/NV region; no other
/// region is called that.
pub proof fn law_top_region_is_nv(image: Seq<u8>, phys_base: u32, i: int)
    requires
        0 <= i < layout(image, phys_base).len(),
    ensures
        ({
            let v = layout(image, phys_base);
            &&& v[i].kind == "nv"@ <==> i == v.len() - 1 && v[i].kind != "uimage"@ && v[i].kind
                != "luadb"@
            &&& v[i].kind == "filesystem"@ ==> i < v.len() - 1
            &&& v[i].kind == "uimage"@ || v[i].kind == "luadb"@ || v[i].kind == "filesystem"@
                || v[i].kind == "nv"@
        }),
{
    let kind = region_kind(image, i);
    lemma_names_differ(kind, Kind::Uimage);
    lemma_names_differ(kind, Kind::Luadb);
    lemma_names_differ(kind, Kind::Filesystem);
    lemma_names_differ(kind, Kind::Nv);
    assert(marks(image)[i].kind != Kind::Nv) by {
        lemma_no_mark_is_nv(image, i);
    }
}

proof fn lemma_no_mark_is_nv(image: Seq<u8>, i: int)
    requires
        0 <= i < marks(image).len(),
    ensures
        marks(image)[i].kind != Kind::Nv,
{
    let front = front_marks(image, 0);
    let back = back_marks(image, back_start(image));
    lemma_front_is_code(image, 0);
    if i < front.len() {
        assert(marks(image)[i] == front[i]);
    } else {
        assert(marks(image)[i] == back[i - front.len()]);
    }
}

} // verus!
