//! Turn a parsed PAC into an ordered flash plan.
//!
//! The sequence, after the FDLs run:
//!
//! 1. write every payload partition (physical addresses);
//! 2. **with `--format` only**, replay the logical markers in PAC order:
//!    - `FMT_FSSYS` → `ERASE_FLASH "SYSF"`, `FLASH` → `ERASE_FLASH 0`
//!      (deduped by address; `FMT_FSEXT` shares `FMT_FSSYS`'s address and is not
//!      a second erase);
//!    - `NV` → the PAC's nvitem template with a refreshed CRC-16-ARC, written
//!      with a sum32-checked `START_DATA`;
//!    - `PREPACK` → the prepack blob, plain.

use vstd::prelude::*;

use crate::bytes::{be16_at, be16_bytes, be32_bytes, push_be16, push_be32};
use crate::checksum::{crc16_arc, crc16_arc_of, sum32, sum32_of};
use crate::pac::{Entry, PacEntry, PacInfo};
use crate::text::{begins_with, chars_of, is_prefix, same_chars, upper, upper_chars};
use crate::LOGICAL_ADDRESS_BASE;

verus! {

/// Role of a PAC entry in the flash flow.
#[derive(Debug, Clone, Copy, PartialEq, Eq, Structural)]
pub enum Role {
    /// First-stage loader (`HOST_FDL`/`FDL1`).
    Fdl1,
    /// Second-stage loader (`FDL2`).
    Fdl2,
    /// Logical marker (erase/format/phase-check).
    Marker,
    /// Real payload partition.
    Flash,
}

/// The role of an entry: a marker has no size, no address or a logical one;
/// else the id tells a loader, and `FDL2` counts before the `FDL` prefix.
pub open spec fn role_of(e: Entry) -> Role {
    if e.size == 0 || e.address == 0 || e.address >= LOGICAL_ADDRESS_BASE {
        Role::Marker
    } else if begins_with(upper(e.file_id), "FDL2"@) {
        Role::Fdl2
    } else if begins_with(upper(e.file_id), "HOST_FDL"@) || begins_with(upper(e.file_id), "FDL"@)
        || begins_with(upper(e.file_id), "FDL1"@) {
        Role::Fdl1
    } else {
        Role::Flash
    }
}

/// Classify a PAC entry. Marker wins first, then FDL2 before FDL1 (so `FDL2` is
/// not swallowed by the `FDL` prefix used for FDL1).
#[must_use]
pub fn classify(e: &PacEntry) -> (r: Role)
    ensures
        r == role_of(e@),
{
    if e.size == 0 || e.address == 0 || e.address >= LOGICAL_ADDRESS_BASE {
        return Role::Marker;
    }
    let fid: Vec<char> = upper_chars(e.file_id.as_str());
    if is_prefix(&fid, &chars_of("FDL2")) {
        return Role::Fdl2;
    }
    if is_prefix(&fid, &chars_of("HOST_FDL")) || is_prefix(&fid, &chars_of("FDL")) || is_prefix(
        &fid,
        &chars_of("FDL1"),
    ) {
        return Role::Fdl1;
    }
    Role::Flash
}

// ---------------------------------------------------------------------------
// Format erases
// ---------------------------------------------------------------------------

/// A single filesystem-format erase: `ERASE_FLASH(address, param)`.
#[derive(Debug, Clone, PartialEq, Eq)]
pub struct EraseOp {
    /// The marker's file id (for logging).
    pub file_id: String,
    /// The marker's logical address (big-endian on the wire).
    pub address: u32,
    /// The 4-byte parameter the vendor sends.
    pub param: [u8; 4],
}

/// What an [`EraseOp`] says.
pub struct Erase {
    pub file_id: Seq<char>,
    pub address: u32,
    pub param: Seq<u8>,
}

impl View for EraseOp {
    type V = Erase;

    open spec fn view(&self) -> Erase {
        Erase { file_id: self.file_id@, address: self.address, param: self.param@ }
    }
}

/// The views of some erases.
pub open spec fn erase_views(ops: Seq<EraseOp>) -> Seq<Erase> {
    ops.map_values(|op: EraseOp| op@)
}

/// The `ERASE_FLASH` parameter of a format marker, if its id has one: `"SYSF"`
/// for `FMT_FSSYS`, zeros for `FLASH`.
pub open spec fn erase_param_of(file_id: Seq<char>) -> Option<Seq<u8>> {
    if upper(file_id) == "FMT_FSSYS"@ {
        Some(seq![0x53u8, 0x59u8, 0x53u8, 0x46u8])
    } else if upper(file_id) == "FLASH"@ {
        Some(seq![0u8, 0u8, 0u8, 0u8])
    } else {
        None
    }
}

/// Map a zero-size format marker to its verified `ERASE_FLASH` parameter.
pub fn erase_param(file_id: &str) -> (r: Option<[u8; 4]>)
    ensures
        match r {
            Some(p) => erase_param_of(file_id@) == Some(p@),
            None => erase_param_of(file_id@) is None,
        },
{
    let fid: Vec<char> = upper_chars(file_id);
    if same_chars(&fid, &chars_of("FMT_FSSYS")) {
        let p: [u8; 4] = [0x53, 0x59, 0x53, 0x46];
        proof {
            assert(p@ =~= seq![0x53u8, 0x59u8, 0x53u8, 0x46u8]);
        }
        Some(p)
    } else if same_chars(&fid, &chars_of("FLASH")) {
        let p: [u8; 4] = [0, 0, 0, 0];
        proof {
            assert(p@ =~= seq![0u8, 0u8, 0u8, 0u8]);
        }
        Some(p)
    } else {
        None
    }
}

/// Whether an entry asks for an erase.
pub open spec fn asks_erase(e: Entry) -> bool {
    e.size == 0 && e.address >= LOGICAL_ADDRESS_BASE && erase_param_of(e.file_id) is Some
}

/// Whether one of the erases is at `address`.
pub open spec fn erased_at(ops: Seq<Erase>, address: u32) -> bool {
    exists|k: int| 0 <= k < ops.len() && (#[trigger] ops[k]).address == address
}

/// The erases that some entries ask for, in their order, the first one for each
/// address.
pub open spec fn erases_of(entries: Seq<Entry>) -> Seq<Erase>
    decreases entries.len(),
{
    if entries.len() == 0 {
        Seq::empty()
    } else {
        let before = erases_of(entries.drop_last());
        let e = entries.last();
        if asks_erase(e) && !erased_at(before, e.address) {
            before.push(
                Erase {
                    file_id: e.file_id,
                    address: e.address,
                    param: erase_param_of(e.file_id)->0,
                },
            )
        } else {
            before
        }
    }
}

fn has_erase_at(ops: &Vec<EraseOp>, address: u32) -> (r: bool)
    ensures
        r == erased_at(erase_views(ops@), address),
{
    let mut i: usize = 0;
    while i < ops.len()
        invariant
            i <= ops@.len(),
            forall|k: int| 0 <= k < i ==> (#[trigger] ops@[k]).address != address,
        decreases ops.len() - i,
    {
        if ops[i].address == address {
            proof {
                assert(erase_views(ops@)[i as int].address == address);
            }
            return true;
        }
        i += 1;
    }
    proof {
        assert forall|k: int| 0 <= k < erase_views(ops@).len() implies (
        #[trigger] erase_views(ops@)[k]).address != address by {
            assert(erase_views(ops@)[k].address == ops@[k].address);
        }
    }
    false
}

/// The erases to issue (zero-size markers with a known param), in PAC order,
/// deduped by address.
#[must_use]
pub fn erase_ops(info: &PacInfo) -> (r: Vec<EraseOp>)
    ensures
        erase_views(r@) == erases_of(info@.entries),
{
    let mut ops: Vec<EraseOp> = Vec::new();
    let mut i: usize = 0;
    let ghost all = info@.entries;
    proof {
        assert(all.take(0) =~= Seq::<Entry>::empty());
        assert(erase_views(ops@) =~= Seq::<Erase>::empty());
    }
    while i < info.entries.len()
        invariant
            i <= info.entries@.len(),
            all == info@.entries,
            all.len() == info.entries@.len(),
            erase_views(ops@) == erases_of(all.take(i as int)),
        decreases info.entries.len() - i,
    {
        let e: &PacEntry = &info.entries[i];
        let ghost done = ops@;
        proof {
            assert(all[i as int] == e@);
            assert(all.take(i + 1).drop_last() =~= all.take(i as int));
            assert(all.take(i + 1).last() == e@);
        }
        if e.size == 0 && e.address >= LOGICAL_ADDRESS_BASE {
            if let Some(param) = erase_param(e.file_id.as_str()) {
                if !has_erase_at(&ops, e.address) {
                    ops.push(EraseOp { file_id: e.file_id.clone(), address: e.address, param });
                    proof {
                        assert(erase_views(ops@) =~= erase_views(done).push(ops@.last()@));
                    }
                }
            }
        }
        i += 1;
    }
    proof {
        assert(all.take(i as int) =~= all);
    }
    ops
}

// ---------------------------------------------------------------------------
// Data markers
// ---------------------------------------------------------------------------

/// Whether an entry is a marker that carries data.
pub open spec fn is_data_marker(e: Entry) -> bool {
    e.size != 0 && e.address >= LOGICAL_ADDRESS_BASE
}

/// The markers among some entries that carry data, in their order.
pub open spec fn data_markers_of(entries: Seq<Entry>) -> Seq<Entry> {
    entries.filter(|e: Entry| is_data_marker(e))
}

/// The views of some references to entries.
pub open spec fn ref_views(entries: Seq<&PacEntry>) -> Seq<Entry> {
    entries.map_values(|e: &PacEntry| e@)
}

/// Data-bearing logical markers (`address >= LOGICAL_ADDRESS_BASE`, `size > 0`),
/// in PAC order: `NV` (0xFE000003) and `PREPACK` (0xFE000004).
#[must_use]
pub fn data_markers(info: &PacInfo) -> (r: Vec<&PacEntry>)
    ensures
        ref_views(r@) == data_markers_of(info@.entries),
{
    let mut out: Vec<&PacEntry> = Vec::new();
    let mut i: usize = 0;
    let ghost all = info@.entries;
    let ghost keep = |e: Entry| is_data_marker(e);
    proof {
        assert(all.take(0) =~= Seq::<Entry>::empty());
        reveal(Seq::filter);
        assert(ref_views(out@) =~= all.take(0).filter(keep));
    }
    while i < info.entries.len()
        invariant
            i <= info.entries@.len(),
            all == info@.entries,
            all.len() == info.entries@.len(),
            keep == (|e: Entry| is_data_marker(e)),
            ref_views(out@) == all.take(i as int).filter(keep),
        decreases info.entries.len() - i,
    {
        let e: &PacEntry = &info.entries[i];
        let ghost done = out@;
        proof {
            assert(all[i as int] == e@);
            assert(all.take(i + 1).drop_last() =~= all.take(i as int));
            assert(all.take(i + 1).last() == e@);
            reveal(Seq::filter);
        }
        if e.size != 0 && e.address >= LOGICAL_ADDRESS_BASE {
            out.push(e);
            proof {
                assert(ref_views(out@) =~= ref_views(done).push(e@));
            }
        }
        i += 1;
    }
    proof {
        assert(all.take(i as int) =~= all);
    }
    out
}

// ---------------------------------------------------------------------------
// NV
// ---------------------------------------------------------------------------

/// Whether a file id names the NV region, in any ASCII case.
pub open spec fn names_nv(file_id: Seq<char>) -> bool {
    upper(file_id) == "NV"@
}

/// True if `file_id` names the NV region (its write needs the sum32-checked
/// START and a refreshed CRC).
#[must_use]
pub fn is_nv(file_id: &str) -> (r: bool)
    ensures
        r == names_nv(file_id@),
{
    same_chars(&upper_chars(file_id), &chars_of("NV"))
}

/// An NV image with its leading big-endian CRC-16-ARC slot made to match the rest
/// of it. One too short for the slot stays as it is.
pub open spec fn nv_fixed(data: Seq<u8>) -> Seq<u8> {
    if data.len() >= 2 {
        be16_bytes(crc16_arc_of(data.skip(2))) + data.skip(2)
    } else {
        data
    }
}

/// Refresh an NV image's leading big-endian CRC-16-ARC slot to match its
/// content.
///
/// The PAC's nvitem template ships with a stale placeholder CRC; the device's
/// FDL2 validates this field at `END_DATA`, so it must be recomputed over the
/// whole region (bytes `2..`) or the write fails with `OPERATION_FAILED` and the
/// module will not boot on a soft reset.
#[must_use]
pub fn nv_fix_crc(data: &[u8]) -> (r: Vec<u8>)
    ensures
        r@ == nv_fixed(data@),
{
    let mut out: Vec<u8> = Vec::new();
    if data.len() >= 2 {
        let rest: &[u8] = vstd::slice::slice_subrange(data, 2, data.len());
        proof {
            assert(rest@ =~= data@.skip(2));
        }
        push_be16(&mut out, crc16_arc(rest));
        out.extend_from_slice(rest);
    } else {
        out.extend_from_slice(data);
    }
    proof {
        assert(out@ =~= nv_fixed(data@));
    }
    out
}

/// A refreshed NV image keeps its content, stores the CRC of that content, and
/// does not change when it is refreshed again.
pub proof fn law_nv_fixed(data: Seq<u8>)
    requires
        data.len() >= 2,
    ensures
        nv_fixed(data).len() == data.len(),
        nv_fixed(data).skip(2) == data.skip(2),
        be16_at(nv_fixed(data), 0) == crc16_arc_of(data.skip(2)),
        nv_fixed(nv_fixed(data)) == nv_fixed(data),
{
    crate::bytes::law_16_bit_roundtrip(crc16_arc_of(data.skip(2)));
    assert(nv_fixed(data).skip(2) =~= data.skip(2));
}

/// The NV `START_DATA` payload: `addr | size | sum32`, all big-endian. The size
/// field holds the low 32 bits of the length.
pub open spec fn nv_start_of(addr: u32, data: Seq<u8>) -> Seq<u8> {
    be32_bytes(addr) + be32_bytes(low32(data.len())) + be32_bytes(sum32_of(data))
}

/// The low 32 bits of a length.
pub open spec fn low32(n: nat) -> u32 {
    (n % 0x1_0000_0000) as u32
}

/// The low 32 bits of a length.
pub fn length_low32(n: usize) -> (r: u32)
    ensures
        r == low32(n as nat),
{
    (n as u64 % 0x1_0000_0000) as u32
}

/// Build the 12-byte NV `START_DATA` payload: `addr | size | sum32` (all BE).
///
/// `data` must already have its CRC refreshed via [`nv_fix_crc`].
#[must_use]
pub fn nv_start_payload(addr: u32, data: &[u8]) -> (r: Vec<u8>)
    ensures
        r@ == nv_start_of(addr, data@),
{
    let mut p: Vec<u8> = Vec::new();
    push_be32(&mut p, addr);
    push_be32(&mut p, length_low32(data.len()));
    push_be32(&mut p, sum32(data));
    proof {
        assert(p@ =~= nv_start_of(addr, data@));
    }
    p
}

/// The start of an NV image has twelve bytes, in three big-endian fields of 32 bits: its
/// address, its length, and the sum of all its bytes, each modulo 2^32.
pub proof fn law_nv_start_fields(addr: u32, data: Seq<u8>)
    ensures
        ({
            let p = nv_start_of(addr, data);
            &&& p.len() == 12
            &&& 16777216 * p[0] + 65536 * p[1] + 256 * p[2] + p[3] == addr
            &&& 16777216 * p[4] + 65536 * p[5] + 256 * p[6] + p[7] == data.len() as int
                % 0x1_0000_0000
            &&& 16777216 * p[8] + 65536 * p[9] + 256 * p[10] + p[11]
                == crate::checksum::byte_sum(data) as int % 0x1_0000_0000
            &&& crate::bytes::be32_at(p, 8) == sum32_of(data)
        }),
{
    let a = be32_bytes(addr);
    let b = be32_bytes(low32(data.len()));
    let c = be32_bytes(sum32_of(data));
    crate::bytes::law_32_bit_digits(addr);
    crate::bytes::law_32_bit_digits(low32(data.len()));
    crate::bytes::law_32_bit_digits(sum32_of(data));
    crate::bytes::lemma_three_fields(a, b, c);
    crate::bytes::law_fields_are_digits(nv_start_of(addr, data), 8);
}

// ---------------------------------------------------------------------------
// The plan
// ---------------------------------------------------------------------------

/// An ordered flash plan derived from a PAC. Payload bytes are fetched on demand
/// via [`PacEntry::payload`], so this borrows the parsed info.
#[derive(Debug)]
pub struct FlashPlan<'a> {
    /// The first-stage loader (required).
    pub fdl1: &'a PacEntry,
    /// The second-stage loader (usually present).
    pub fdl2: Option<&'a PacEntry>,
    /// Payload partitions to write, in PAC order.
    pub partitions: Vec<&'a PacEntry>,
    /// Format erases (only used when `format` is requested).
    pub erases: Vec<EraseOp>,
    /// Data-bearing markers `NV`/`PREPACK` (only used when `format` is requested).
    pub data_markers: Vec<&'a PacEntry>,
}

/// What a [`FlashPlan`] says.
pub struct Plan {
    pub fdl1: Entry,
    pub fdl2: Option<Entry>,
    pub partitions: Seq<Entry>,
    pub erases: Seq<Erase>,
    pub data_markers: Seq<Entry>,
}

impl<'a> View for FlashPlan<'a> {
    type V = Plan;

    open spec fn view(&self) -> Plan {
        Plan {
            fdl1: self.fdl1@,
            fdl2: match self.fdl2 {
                Some(e) => Some(e@),
                None => None,
            },
            partitions: ref_views(self.partitions@),
            erases: erase_views(self.erases@),
            data_markers: ref_views(self.data_markers@),
        }
    }
}

/// The first of some entries with a role.
pub open spec fn first_with(entries: Seq<Entry>, role: Role) -> Option<Entry>
    decreases entries.len(),
{
    if entries.len() == 0 {
        None
    } else if role_of(entries[0]) == role {
        Some(entries[0])
    } else {
        first_with(entries.skip(1), role)
    }
}

/// The payload partitions among some entries, in their order.
pub open spec fn partitions_of(entries: Seq<Entry>) -> Seq<Entry> {
    entries.filter(|e: Entry| role_of(e) == Role::Flash)
}

/// The flash plan of some entries; there is none without a first-stage loader.
pub open spec fn planned(entries: Seq<Entry>) -> Option<Plan> {
    match first_with(entries, Role::Fdl1) {
        None => None,
        Some(fdl1) => Some(
            Plan {
                fdl1,
                fdl2: first_with(entries, Role::Fdl2),
                partitions: partitions_of(entries),
                erases: erases_of(entries),
                data_markers: data_markers_of(entries),
            },
        ),
    }
}

fn find_role(info: &PacInfo, role: Role) -> (r: Option<&PacEntry>)
    ensures
        match r {
            Some(e) => first_with(info@.entries, role) == Some(e@),
            None => first_with(info@.entries, role) is None,
        },
{
    let mut i: usize = 0;
    let ghost all = info@.entries;
    proof {
        assert(all.skip(0) =~= all);
    }
    while i < info.entries.len()
        invariant
            i <= info.entries@.len(),
            all == info@.entries,
            all.len() == info.entries@.len(),
            first_with(all, role) == first_with(all.skip(i as int), role),
        decreases info.entries.len() - i,
    {
        let e: &PacEntry = &info.entries[i];
        proof {
            assert(all.skip(i as int)[0] == e@);
            assert(all.skip(i as int).skip(1) =~= all.skip(i + 1));
        }
        if classify(e) == role {
            return Some(e);
        }
        i += 1;
    }
    None
}

fn find_partitions(info: &PacInfo) -> (r: Vec<&PacEntry>)
    ensures
        ref_views(r@) == partitions_of(info@.entries),
{
    let mut out: Vec<&PacEntry> = Vec::new();
    let mut i: usize = 0;
    let ghost all = info@.entries;
    let ghost keep = |e: Entry| role_of(e) == Role::Flash;
    proof {
        assert(all.take(0) =~= Seq::<Entry>::empty());
        reveal(Seq::filter);
        assert(ref_views(out@) =~= all.take(0).filter(keep));
    }
    while i < info.entries.len()
        invariant
            i <= info.entries@.len(),
            all == info@.entries,
            all.len() == info.entries@.len(),
            keep == (|e: Entry| role_of(e) == Role::Flash),
            ref_views(out@) == all.take(i as int).filter(keep),
        decreases info.entries.len() - i,
    {
        let e: &PacEntry = &info.entries[i];
        let ghost done = out@;
        proof {
            assert(all[i as int] == e@);
            assert(all.take(i + 1).drop_last() =~= all.take(i as int));
            assert(all.take(i + 1).last() == e@);
            reveal(Seq::filter);
        }
        if classify(e) == Role::Flash {
            out.push(e);
            proof {
                assert(ref_views(out@) =~= ref_views(done).push(e@));
            }
        }
        i += 1;
    }
    proof {
        assert(all.take(i as int) =~= all);
    }
    out
}

/// Why there is no plan without a first-stage loader.
pub open spec fn no_fdl1() -> Seq<char> {
    "no FDL1 (HOST_FDL) stage in the PAC"@
}

/// Build a [`FlashPlan`] from parsed PAC info.
///
/// Fails if the PAC has no FDL1 stage.
pub fn build(info: &PacInfo) -> (r: Result<FlashPlan<'_>, &'static str>)
    ensures
        match r {
            Ok(plan) => planned(info@.entries) == Some(plan@),
            Err(why) => planned(info@.entries) is None && why@ == no_fdl1(),
        },
{
    let fdl1: &PacEntry = match find_role(info, Role::Fdl1) {
        Some(e) => e,
        None => return Err("no FDL1 (HOST_FDL) stage in the PAC"),
    };
    Ok(
        FlashPlan {
            fdl1,
            fdl2: find_role(info, Role::Fdl2),
            partitions: find_partitions(info),
            erases: erase_ops(info),
            data_markers: data_markers(info),
        },
    )
}

// ---------------------------------------------------------------------------
// What the plan promises as a whole
// ---------------------------------------------------------------------------

/// No two erases are at one address.
pub proof fn law_erases_have_distinct_addresses(entries: Seq<Entry>)
    ensures
        forall|i: int, j: int|
            0 <= i < j < erases_of(entries).len() ==> (#[trigger] erases_of(entries)[i]).address
                != (#[trigger] erases_of(entries)[j]).address,
    decreases entries.len(),
{
    if entries.len() > 0 {
        let before = erases_of(entries.drop_last());
        law_erases_have_distinct_addresses(entries.drop_last());
        let all = erases_of(entries);
        assert forall|i: int, j: int| 0 <= i < j < all.len() implies (#[trigger] all[i]).address
            != (#[trigger] all[j]).address by {
            if j == before.len() {
                assert(all[i] == before[i]);
                assert(!erased_at(before, entries.last().address));
            } else {
                assert(all[i] == before[i] && all[j] == before[j]);
            }
        }
    }
}

/// Every erase comes from a zero-size marker at a logical address that is named
/// `FMT_FSSYS` or `FLASH`, and every address that such a marker has is erased.
pub proof fn law_erases_come_from_markers(entries: Seq<Entry>)
    ensures
        forall|i: int|
            0 <= i < erases_of(entries).len() ==> exists|k: int|
                0 <= k < entries.len() && asks_erase(#[trigger] entries[k]) && entries[k].address == (
                #[trigger] erases_of(entries)[i]).address && entries[k].file_id == erases_of(
                    entries,
                )[i].file_id && erase_param_of(entries[k].file_id) == Some(
                    erases_of(entries)[i].param,
                ),
        forall|k: int|
            0 <= k < entries.len() && asks_erase(#[trigger] entries[k]) ==> erased_at(
                erases_of(entries),
                entries[k].address,
            ),
    decreases entries.len(),
{
    if entries.len() > 0 {
        let init = entries.drop_last();
        let before = erases_of(init);
        let all = erases_of(entries);
        law_erases_come_from_markers(init);
        assert forall|i: int| 0 <= i < all.len() implies exists|k: int|
            0 <= k < entries.len() && asks_erase(#[trigger] entries[k]) && entries[k].address == (
            #[trigger] all[i]).address && entries[k].file_id == all[i].file_id && erase_param_of(
                entries[k].file_id,
            ) == Some(all[i].param) by {
            if i < before.len() {
                assert(all[i] == before[i]);
                let k = choose|k: int|
                    0 <= k < init.len() && asks_erase(#[trigger] init[k]) && init[k].address
                        == before[i].address && init[k].file_id == before[i].file_id
                        && erase_param_of(init[k].file_id) == Some(before[i].param);
                assert(entries[k] == init[k]);
            } else {
                assert(entries[entries.len() - 1] == entries.last());
            }
        }
        assert forall|k: int| 0 <= k < entries.len() && asks_erase(
            #[trigger] entries[k],
        ) implies erased_at(all, entries[k].address) by {
            if k < init.len() {
                assert(init[k] == entries[k]);
                let i = choose|i: int|
                    0 <= i < before.len() && (#[trigger] before[i]).address == entries[k].address;
                assert(all[i] == before[i]);
            } else if erased_at(before, entries[k].address) {
                let i = choose|i: int|
                    0 <= i < before.len() && (#[trigger] before[i]).address == entries[k].address;
                assert(all[i] == before[i]);
            } else {
                assert(all[before.len() as int].address == entries[k].address);
            }
        }
    }
}

/// What an entry is for. Whatever its id: one without a size, without an address, or with an
/// address from 0xFE000000 on is a marker. Any other one is a second-stage loader if its id
/// begins with `FDL2`, else a first-stage loader if it begins with `FDL` or `HOST_FDL`, in
/// any case of its letters; and else a partition.
pub proof fn law_roles(e: Entry)
    ensures
        role_of(e) == Role::Marker <==> e.size == 0 || e.address == 0 || e.address >= 0xFE00_0000,
        role_of(e) == Role::Fdl2 <==> role_of(e) != Role::Marker && begins_with(
            upper(e.file_id),
            "FDL2"@,
        ),
        role_of(e) == Role::Fdl1 <==> role_of(e) != Role::Marker && !begins_with(
            upper(e.file_id),
            "FDL2"@,
        ) && (begins_with(upper(e.file_id), "FDL"@) || begins_with(
            upper(e.file_id),
            "HOST_FDL"@,
        )),
        role_of(e) == Role::Flash ==> e.size != 0 && 0 < e.address < 0xFE00_0000,
{
    reveal_strlit("FDL");
    reveal_strlit("FDL1");
    let id = upper(e.file_id);
    if begins_with(id, "FDL1"@) {
        assert(id.subrange(0, 3) =~= "FDL"@) by {
            assert(id.subrange(0, 4)[0] == id[0] && id.subrange(0, 4)[1] == id[1] && id.subrange(
                0,
                4,
            )[2] == id[2]);
        }
        assert(begins_with(id, "FDL"@));
    }
}

/// The first of some entries with a role is one of them, has that role, and none before it
/// does; if there is none, none of them has that role.
pub proof fn law_first_with_a_role(entries: Seq<Entry>, role: Role)
    ensures
        match first_with(entries, role) {
            Some(e) => exists|i: int|
                0 <= i < entries.len() && #[trigger] entries[i] == e && role_of(e) == role
                    && forall|j: int| 0 <= j < i ==> role_of(#[trigger] entries[j]) != role,
            None => forall|j: int|
                0 <= j < entries.len() ==> role_of(#[trigger] entries[j]) != role,
        },
    decreases entries.len(),
{
    if entries.len() > 0 {
        let rest = entries.skip(1);
        if role_of(entries[0]) == role {
            assert(entries[0] == first_with(entries, role)->0);
        } else {
            law_first_with_a_role(rest, role);
            match first_with(rest, role) {
                Some(e) => {
                    let i = choose|i: int|
                        0 <= i < rest.len() && #[trigger] rest[i] == e && role_of(e) == role
                            && forall|j: int| 0 <= j < i ==> role_of(#[trigger] rest[j]) != role;
                    assert(entries[i + 1] == e);
                    assert forall|j: int| 0 <= j < i + 1 implies role_of(#[trigger] entries[j])
                        != role by {
                        if j > 0 {
                            assert(rest[j - 1] == entries[j]);
                        }
                    }
                },
                None => {
                    assert forall|j: int| 0 <= j < entries.len() implies role_of(
                        #[trigger] entries[j],
                    ) != role by {
                        if j > 0 {
                            assert(rest[j - 1] == entries[j]);
                        }
                    }
                },
            }
        }
    }
}

/// A plan has the first first-stage loader of the entries, and their first second-stage
/// loader if they have one; there is a plan just if they have a first-stage loader.
#[verifier::rlimit(30)]
pub proof fn law_plan_has_the_first_loaders(entries: Seq<Entry>)
    ensures
        planned(entries) is None <==> forall|j: int|
            0 <= j < entries.len() ==> role_of(#[trigger] entries[j]) != Role::Fdl1,
        planned(entries) matches Some(p) ==> {
            &&& exists|i: int|
                0 <= i < entries.len() && #[trigger] entries[i] == p.fdl1 && role_of(entries[i])
                    == Role::Fdl1 && forall|j: int|
                    0 <= j < i ==> role_of(#[trigger] entries[j]) != Role::Fdl1
            &&& match p.fdl2 {
                Some(e) => exists|i: int|
                    0 <= i < entries.len() && #[trigger] entries[i] == e && role_of(entries[i])
                        == Role::Fdl2 && forall|j: int|
                        0 <= j < i ==> role_of(#[trigger] entries[j]) != Role::Fdl2,
                None => forall|j: int|
                    0 <= j < entries.len() ==> role_of(#[trigger] entries[j]) != Role::Fdl2,
            }
        },
{
    law_first_with_a_role(entries, Role::Fdl1);
    law_first_with_a_role(entries, Role::Fdl2);
    if first_with(entries, Role::Fdl1) is Some {
        let e = first_with(entries, Role::Fdl1)->0;
        let i = choose|i: int|
            0 <= i < entries.len() && #[trigger] entries[i] == e && role_of(e) == Role::Fdl1
                && forall|j: int| 0 <= j < i ==> role_of(#[trigger] entries[j]) != Role::Fdl1;
        assert(role_of(entries[i]) == Role::Fdl1);
    }
}

/// Every partition of the entries is in the plan, once and in their order, and nothing else
/// is among its partitions; so with the markers that carry data (those with a size and an
/// address from 0xFE000000 on).
pub proof fn law_plan_keeps_the_order(a: Seq<Entry>, e: Entry, b: Seq<Entry>)
    ensures
        partitions_of(Seq::empty()) == Seq::<Entry>::empty(),
        data_markers_of(Seq::empty()) == Seq::<Entry>::empty(),
        partitions_of(a + seq![e] + b) == partitions_of(a) + (if role_of(e) == Role::Flash {
            seq![e]
        } else {
            Seq::empty()
        }) + partitions_of(b),
        data_markers_of(a + seq![e] + b) == data_markers_of(a) + (if e.size != 0 && e.address
            >= 0xFE00_0000 {
            seq![e]
        } else {
            Seq::empty()
        }) + data_markers_of(b),
        planned(a + seq![e] + b) matches Some(p) ==> p.partitions == partitions_of(
            a + seq![e] + b,
        ) && p.data_markers == data_markers_of(a + seq![e] + b) && p.erases == erases_of(
            a + seq![e] + b,
        ),
{
    crate::bytes::lemma_kept_around(a, e, b, |e: Entry| role_of(e) == Role::Flash);
    crate::bytes::lemma_kept_around(a, e, b, |e: Entry| is_data_marker(e));
}

/// What an entry adds to the erases of those before it: one at its address, at the end, if
/// it is a marker without data from 0xFE000000 on that is named `FMT_FSSYS` (with the
/// parameter `SYSF`) or `FLASH` (with zeros), in any case of its letters, and no erase is at
/// its address yet; else nothing.
pub proof fn law_erases_are_added_in_order(before: Seq<Entry>, e: Entry)
    ensures
        erases_of(Seq::empty()) == Seq::<Erase>::empty(),
        ({
            let ops = erases_of(before);
            let more = erases_of(before.push(e));
            let known = exists|k: int| 0 <= k < ops.len() && (#[trigger] ops[k]).address == e.address;
            let named = upper(e.file_id) == "FMT_FSSYS"@ || upper(e.file_id) == "FLASH"@;
            if e.size == 0 && e.address >= 0xFE00_0000 && named && !known {
                &&& more.len() == ops.len() + 1
                &&& more.drop_last() == ops
                &&& more.last().address == e.address
                &&& more.last().file_id == e.file_id
                &&& more.last().param == if upper(e.file_id) == "FMT_FSSYS"@ {
                    seq![0x53u8, 0x59u8, 0x53u8, 0x46u8]
                } else {
                    seq![0u8, 0u8, 0u8, 0u8]
                }
            } else {
                more == ops
            }
        }),
{
    assert(before.push(e).drop_last() =~= before);
    let ops = erases_of(before);
    let more = erases_of(before.push(e));
    if asks_erase(e) && !erased_at(ops, e.address) {
        assert(more.drop_last() =~= ops);
    }
}

/// An id names the NV region just if it is `NV`, in any case of its two letters; the parameter
/// of an erase goes by its id likewise.
pub proof fn law_ids_are_told_in_any_case(file_id: Seq<char>)
    ensures
        names_nv(file_id) <==> file_id.len() == 2 && (file_id[0] == 'N' || file_id[0] == 'n') && (
        file_id[1] == 'V' || file_id[1] == 'v'),
        erase_param_of(file_id) == erase_param_of(upper(file_id)),
        names_nv(file_id) == names_nv(upper(file_id)),
{
    reveal_strlit("NV");
    crate::text::law_upper(file_id);
    crate::text::law_upper(upper(file_id));
    let up = upper(file_id);
    assert(upper(up) =~= up);
    if names_nv(file_id) {
        assert(up[0] == 'N' && up[1] == 'V');
        assert(up[0] as int == 78 && up[1] as int == 86);
    }
    if file_id.len() == 2 && (file_id[0] == 'N' || file_id[0] == 'n') && (file_id[1] == 'V'
        || file_id[1] == 'v') {
        assert(up[0] as int == 78 && up[1] as int == 86);
        assert(up =~= "NV"@);
    }
}

} // verus!
