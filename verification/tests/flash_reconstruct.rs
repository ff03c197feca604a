//! Layouts reconstructed from flash dumps.

use sprdflash::checksum::crc32;
use sprdflash::reconstruct::{
    reconstruct, to_bmaconfig_xml, Confidence, BLOCK, NOR_BASE, UIMAGE_HDR, UIMAGE_MAGIC,
};

/// LuatOS `luadb` script-pack magic, found at offset +2.
const LUADB_MAGIC: [u8; 4] = [0x5A, 0xA5, 0x5A, 0xA5];

/// Build a valid U-Boot uImage (64-byte header + body) with correct CRCs.
fn uimage(name: &str, load: u32, body: &[u8]) -> Vec<u8> {
    uimage_named(name.as_bytes(), load, body)
}

/// As [`uimage`], with any bytes for a name.
fn uimage_named(nb: &[u8], load: u32, body: &[u8]) -> Vec<u8> {
    let mut hdr = vec![0u8; UIMAGE_HDR];
    hdr[0..4].copy_from_slice(&UIMAGE_MAGIC.to_be_bytes());
    hdr[8..12].copy_from_slice(&0u32.to_be_bytes()); // time
    hdr[12..16].copy_from_slice(&(body.len() as u32).to_be_bytes());
    hdr[16..20].copy_from_slice(&load.to_be_bytes());
    hdr[20..24].copy_from_slice(&load.to_be_bytes());
    hdr[24..28].copy_from_slice(&crc32(body).to_be_bytes());
    hdr[32..32 + nb.len()].copy_from_slice(nb);
    let hcrc = crc32(&hdr); // hcrc field already zero
    hdr[4..8].copy_from_slice(&hcrc.to_be_bytes());
    hdr.extend_from_slice(body);
    hdr
}

fn pad_to(v: &mut Vec<u8>, len: usize) {
    v.resize(len.max(v.len()), 0xFF);
}

fn genblk(g: u16) -> Vec<u8> {
    let mut b = vec![0u8; BLOCK];
    b[0..2].copy_from_slice(&g.to_le_bytes()); // gen counter; b[2..4] stay 0
    b[8] = 0x11;
    b
}

#[test]
fn recovers_code_and_luadb_partitions() {
    // BOOTLOADER @0, AP @0x10000, LUA (luadb) @0x30000, in a 0x50000 image.
    let mut img = Vec::new();
    img.extend_from_slice(&uimage("boot", 0x0080_0100, &[0xAA; 0x400]));
    pad_to(&mut img, 0x10000);
    img.extend_from_slice(&uimage("ap", 0x6001_0040, &[0xBB; 0x900]));
    pad_to(&mut img, 0x30000);
    img.extend_from_slice(&[0x01, 0x04]);
    img.extend_from_slice(&LUADB_MAGIC);
    img.extend_from_slice(&[0xCC; 0x200]);
    pad_to(&mut img, 0x50000);

    let regs = reconstruct(&img, NOR_BASE);
    // Generic content-type names — no PAC role guessing.
    let ids: Vec<&str> = regs.iter().map(|r| r.id.as_str()).collect();
    assert_eq!(&ids[..3], &["uimage_0", "uimage_1", "luadb_0"]);
    let kinds: Vec<&str> = regs.iter().map(|r| r.kind).collect();
    assert_eq!(&kinds[..3], &["uimage", "uimage", "luadb"]);

    let boot = &regs[0];
    assert_eq!(boot.phys_addr, 0x6000_0000);
    assert_eq!(boot.reserved_size, 0x10000);
    assert_eq!(boot.used_size, (UIMAGE_HDR + 0x400) as u32);
    assert_eq!(boot.confidence, Confidence::Verified); // CRCs check out

    let ap = &regs[1];
    assert_eq!(ap.phys_addr, 0x6001_0000);
    assert_eq!(ap.reserved_size, 0x20000);
    assert_eq!(ap.used_size, (UIMAGE_HDR + 0x900) as u32);

    // The proposed BMAConfig is well-formed and carries the derived bases.
    let xml = to_bmaconfig_xml(&regs);
    assert!(xml.contains("<Base>0x60000000</Base>"));
    assert!(xml.contains("<ID>uimage_1</ID>"));
}

#[test]
fn segments_backhalf_by_longest_generation_run() {
    // uImage @0, then a filesystem back half: staging (gen 5 ×2), a longer
    // live run (gen 9 ×4), and a top region (gen 0x100 ×1) -> NV.
    let mut img = uimage("fw", 0x6000_0040, &[0xAA; 0x400]);
    pad_to(&mut img, BLOCK);
    for g in [5u16, 5] {
        img.extend_from_slice(&genblk(g));
    }
    for _ in 0..4 {
        img.extend_from_slice(&genblk(9));
    }
    img.extend_from_slice(&genblk(0x100));

    let regs = reconstruct(&img, NOR_BASE);
    let ids: Vec<&str> = regs.iter().map(|r| r.id.as_str()).collect();
    assert_eq!(ids, ["uimage_0", "filesystem_0", "filesystem_1", "nv_0"]);
    assert_eq!(regs[1].phys_addr, 0x6001_0000); // staging
    assert_eq!(regs[1].reserved_size, 0x20000);
    assert_eq!(regs[2].phys_addr, 0x6003_0000); // longest run
    assert_eq!(regs[2].reserved_size, 0x40000);
    assert_eq!(regs[3].phys_addr, 0x6007_0000); // top -> nv
    assert_eq!(regs[3].kind, "nv");
}

#[test]
fn corrupt_payload_drops_confidence() {
    let mut img = uimage("x", 0x6000_0040, &[0x11; 0x100]);
    img[UIMAGE_HDR + 10] ^= 0xFF; // corrupt the body -> dcrc fails
    pad_to(&mut img, 0x10000);
    let regs = reconstruct(&img, NOR_BASE);
    assert_eq!(regs[0].confidence, Confidence::Derived); // magic+size ok, CRC not
    assert!(regs[0].detail.contains("dcrc=BAD"));
}

#[test]
fn regions_tile_the_flash() {
    let mut img = uimage("fw", 0x6000_0040, &[0xAA; 0x1_2345]);
    pad_to(&mut img, 3 * BLOCK);
    for g in [7u16, 7, 7, 3] {
        img.extend_from_slice(&genblk(g));
    }
    img.extend_from_slice(&[0xFF; 100]); // not a whole block
    let regs = reconstruct(&img, NOR_BASE);
    for w in regs.windows(2) {
        assert_eq!(w[0].phys_addr + w[0].reserved_size, w[1].phys_addr);
        assert_ne!(w[0].id, w[1].id);
    }
    let last = regs.last().unwrap();
    assert_eq!(
        (last.phys_addr - NOR_BASE + last.reserved_size) as usize,
        img.len()
    );
    for r in &regs {
        assert!(r.reserved_size > 0 && r.used_size <= r.reserved_size);
        assert_eq!((r.phys_addr - NOR_BASE) as usize % BLOCK, 0);
    }
    let kinds: Vec<&str> = regs.iter().map(|r| r.kind).collect();
    assert_eq!(kinds, ["uimage", "filesystem", "nv"]);
    assert_eq!(regs[0].detail, "uImage 'fw' hcrc=ok dcrc=ok");
    assert_eq!(
        regs[1].detail,
        "NOR-FS, longest single-generation run (gen 0x7, 3 blocks)"
    );
}

#[test]
fn a_dump_without_markers_is_unclassified() {
    let regs = reconstruct(&[0xFF; 100], 0);
    assert_eq!(regs.len(), 1);
    assert_eq!(regs[0].id, "nv_0");
    assert_eq!(regs[0].used_size, 0);
    assert_eq!(regs[0].reserved_size, 100);
    assert_eq!(regs[0].detail, "unclassified back-half region");
    assert!(reconstruct(&[], NOR_BASE).is_empty());
}

#[test]
fn xml_has_one_file_per_region() {
    let mut img = uimage("", 0, &[1, 2, 3]);
    pad_to(&mut img, BLOCK);
    let regs = reconstruct(&img, 0x100);
    assert_eq!(regs[0].detail, "uImage hcrc=ok dcrc=ok");
    let xml = to_bmaconfig_xml(&regs);
    assert!(xml.starts_with("<?xml version=\"1.0\" encoding=\"utf-8\"?>\n<BMAConfig>\n"));
    assert!(xml.contains(
        "      <File>\n        <ID>uimage_0</ID>\n        <Type>uimage</Type>\n        \
         <Block>\n          <Base>0x00000100</Base>\n          <Size>0x10000</Size>\n        \
         </Block>\n        <Description>verified | used 0x43 | uImage hcrc=ok dcrc=ok\
         </Description>\n      </File>\n"
    ));
    assert!(xml.ends_with("    </Scheme>\n  </SchemeList>\n</BMAConfig>\n"));
    assert_eq!(Confidence::Heuristic.tag(), "heuristic");
    assert_eq!(Confidence::Derived.tag(), "derived");
}

#[test]
fn names_that_are_not_utf8_are_shown_all_the_same() {
    let mut img = uimage_named(&[b'v', 0xFF, 0xC3, 0xA9], 0x6000_0040, &[0x11; 0x100]);
    pad_to(&mut img, 0x10000);
    let regs = reconstruct(&img, NOR_BASE);
    assert!(regs[0].detail.contains("v\u{FFFD}\u{E9}"), "{}", regs[0].detail);
}
