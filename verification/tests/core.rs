//! The protocol core: checksums, framing, PAC parsing and planning.

use sprdflash::bsl::{
    build_message, cmd, detect_checksum, escape, extract_flag_frame, find_frame_body,
    is_frameable, parse_message, rep, rep_name, unescape, Checksum,
};
use sprdflash::checksum::{
    crc16_arc, crc16_arc_from, crc16_ccitt, crc32, is_summable, sprd_sum, sum32,
};
use sprdflash::error::Error;
use sprdflash::pac::{self, utf16z, PacEntry, PacInfo};
use sprdflash::pdl::{header, params, try_parse_response, Cmd};
use sprdflash::plan::{
    build, classify, data_markers, erase_ops, erase_param, is_nv, nv_fix_crc, nv_start_payload,
    EraseOp, Role,
};

fn hex(b: &[u8]) -> String {
    b.iter().map(|x| format!("{x:02x}")).collect()
}

fn hex_bytes(s: &str) -> Vec<u8> {
    (0..s.len())
        .step_by(2)
        .map(|i| u8::from_str_radix(&s[i..i + 2], 16).unwrap())
        .collect()
}

// ---- bsl ------------------------------------------------------------------

#[test]
fn bytes_are_escaped_one_by_one() {
    let (a, b) = ([0x01, 0x7E], [0x7D, 0x5E, 0x7D]);
    assert_eq!(escape(&a).len(), 2 + 1);
    assert_eq!(escape(&b).len(), 3 + 2);
    let both: Vec<u8> = a.iter().chain(&b).copied().collect();
    let parts: Vec<u8> = escape(&a).into_iter().chain(escape(&b)).collect();
    assert_eq!(escape(&both), parts);
}

#[test]
fn what_can_be_summed_can_be_framed() {
    // 65537 words of 0xFFFF are the most that 32 bits hold
    assert!(is_summable(&vec![0xFF; 131_074]));
    assert!(!is_summable(&vec![0xFF; 131_075]));
    assert!(is_summable(&vec![1; 131_075]));
    let (most, more) = (vec![0xFF; 131_070], vec![0xFF; 131_074]);
    assert!(is_frameable(cmd::MIDST_DATA, &most, Checksum::Sprd));
    assert!(!is_frameable(cmd::MIDST_DATA, &more, Checksum::Sprd));
    assert!(is_frameable(cmd::MIDST_DATA, &more, Checksum::Crc));
}

#[test]
fn connect_frame_matches_capture() {
    // Ground truth: CONNECT = 7e 00000000 ffff 7e
    let m = build_message(cmd::CONNECT, &[], Checksum::Sprd);
    assert_eq!(hex(&m), "7e00000000ffff7e");
}

#[test]
fn change_baud_frame_matches_capture() {
    // Ground truth: CHANGE_BAUD to 115200 (0x0001c200) = 7e 0009 0004 0001c200 3df1 7e
    let m = build_message(
        cmd::CHANGE_BAUD,
        &0x0001_c200u32.to_be_bytes(),
        Checksum::Sprd,
    );
    assert_eq!(hex(&m), "7e000900040001c2003df17e");
}

#[test]
fn escape_roundtrip_including_flags() {
    let raw = [0x00, 0x7e, 0x11, 0x7d, 0x22];
    assert_eq!(unescape(&escape(&raw)), raw);
}

#[test]
fn parse_rejects_short() {
    assert!(matches!(
        parse_message(&[0, 0]),
        Err(Error::FrameTooShort(2))
    ));
}

#[test]
fn escaping_changes_flags_and_escapes_only() {
    assert_eq!(escape(&[0x7e, 0x41, 0x7d]), vec![0x7d, 0x5e, 0x41, 0x7d, 0x5d]);
    assert_eq!(escape(&[]), Vec::<u8>::new());
    // an escape byte with nothing behind it stands for nothing
    assert_eq!(unescape(&[0x41, 0x7d]), vec![0x41]);
}

#[test]
fn parse_undoes_build() {
    for data in [vec![], vec![0x7e, 0x7d, 0x00, 0xff], vec![0x5a; 3000]] {
        let wire = build_message(cmd::MIDST_DATA, &data, Checksum::Sprd);
        assert_eq!(wire.iter().filter(|&&b| b == 0x7e).count(), 2);
        let body = find_frame_body(&wire).expect("one whole frame");
        let (kind, got) = parse_message(&body).expect("well-formed");
        assert_eq!(kind, cmd::MIDST_DATA);
        assert_eq!(got, &data[..]);
    }
}

#[test]
fn parse_rejects_a_truncated_frame() {
    // declares eight bytes, holds one
    let body = [0x00, 0x80, 0x00, 0x08, 0x01, 0x00, 0x00];
    assert!(matches!(
        parse_message(&body),
        Err(Error::FrameTruncated {
            declared: 8,
            got: 1
        })
    ));
}

#[test]
fn frames_are_found_behind_garbage_and_flag_runs() {
    let mut buf = vec![0x11, 0x22, 0x7e, 0x7e];
    assert!(find_frame_body(&buf).is_none());
    buf.extend_from_slice(&build_message(rep::ACK, &[], Checksum::Sprd)[1..]);
    let body = find_frame_body(&buf).expect("frame is complete now");
    assert_eq!(parse_message(&body).unwrap().0, rep::ACK);
    // a raw frame keeps its flags, and may be empty
    assert_eq!(extract_flag_frame(&buf), Some(vec![0x7e, 0x7e]));
    assert_eq!(extract_flag_frame(&[1, 0x7e, 2]), None);
}

#[test]
fn checksum_is_detected() {
    for (ck, data) in [(Checksum::Sprd, vec![1u8, 2, 3]), (Checksum::Crc, vec![9u8; 5])] {
        let wire = build_message(cmd::CONNECT, &data, ck);
        let body = find_frame_body(&wire).unwrap();
        assert_eq!(detect_checksum(&body), Some(ck));
    }
    assert_eq!(detect_checksum(&[0, 0, 0, 0, 0x12, 0x34]), None);
    assert_eq!(detect_checksum(&[1, 2]), None);
}

#[test]
fn replies_have_names() {
    assert_eq!(rep_name(rep::ACK), "ACK");
    assert_eq!(rep_name(rep::VER), "VER");
    assert_eq!(rep_name(rep::INVALID_CMD), "INVALID_CMD");
    assert_eq!(rep_name(rep::READ_FLASH), "READ_FLASH");
    assert_eq!(rep_name(0x1234), "?");
}

// ---- checksum -------------------------------------------------------------

#[test]
fn crc16_arc_standard_check_value() {
    assert_eq!(crc16_arc(b"123456789"), 0xBB3D);
    assert_eq!(crc16_arc(b""), 0x0000);
}

#[test]
fn sum32_wraps_at_32_bits() {
    assert_eq!(sum32(b""), 0);
    assert_eq!(sum32(&[1, 2, 3]), 6);
    assert_eq!(sum32(&[0xFF; 4]), 0x3FC);
}

#[test]
fn sprd_sum_matches_captured_bootrom_frames() {
    // Ground-truth vendor packets (body = type|size|data, without checksum):
    // CONNECT frame body 0x0000_0000 -> checksum 0xffff
    assert_eq!(sprd_sum(&[0x00, 0x00, 0x00, 0x00]), 0xFFFF);
    // ACK reply body 0x0080_0000 -> checksum 0xff7f
    assert_eq!(sprd_sum(&[0x00, 0x80, 0x00, 0x00]), 0xFF7F);
}

#[test]
fn crc16_ccitt_known_vector() {
    // CRC-16/XMODEM check value for "123456789"
    assert_eq!(crc16_ccitt(b"123456789"), 0x31C3);
}

#[test]
fn crc32_standard_check_value() {
    assert_eq!(crc32(b"123456789"), 0xCBF4_3926);
    assert_eq!(crc32(b""), 0);
}

#[test]
fn crc16_arc_streams_and_detects_one_changed_byte() {
    let data = b"a package of some length";
    let halfway = crc16_arc(&data[..10]);
    assert_eq!(crc16_arc_from(halfway, &data[10..]), crc16_arc(data));
    for at in 0..data.len() {
        let mut other = data.to_vec();
        other[at] ^= 0x40;
        assert_ne!(crc16_arc(&other), crc16_arc(data));
    }
}

#[test]
fn sprd_sum_takes_odd_lengths() {
    // the last byte of an odd length counts by itself
    assert_eq!(sprd_sum(&[0x00]), 0xFFFF);
    assert_ne!(sprd_sum(&[0x01]), sprd_sum(&[0x00]));
}

// ---- pac ------------------------------------------------------------------

#[test]
fn rejects_too_small() {
    assert!(matches!(
        pac::parse(&[0u8; 16], false),
        Err(Error::PacTooSmall(16))
    ));
}

#[test]
fn utf16z_stops_at_nul() {
    let raw = b"A\x00B\x00\x00\x00C\x00";
    assert_eq!(utf16z(raw), "AB");
}

#[test]
fn utf16_is_decoded_unit_by_unit() {
    // U+00E9, then a surrogate pair (one replacement each), then U+0041
    let raw = [0xE9, 0x00, 0x3D, 0xD8, 0x00, 0xDE, 0x41, 0x00];
    assert_eq!(utf16z(&raw), "\u{E9}\u{FFFD}\u{FFFD}A");
    // an odd byte at the end is left out
    assert_eq!(utf16z(&raw[..3]), "\u{E9}");
}

// ---- pdl ------------------------------------------------------------------

#[test]
fn header_matches_capture() {
    // 12-byte payload (CONNECT) -> header ae0c000000ff0000
    assert_eq!(header(12), [0xAE, 0x0C, 0x00, 0x00, 0x00, 0xFF, 0x00, 0x00]);
}

#[test]
fn connect_payload_matches_capture() {
    assert_eq!(params(Cmd::Connect, 0, 0, &[]), vec![0u8; 12]);
}

#[test]
fn start_payload_layout() {
    // START: cmd=4, addr=0x00838000, size=0x33a0, name "PDL1\0"
    let p = params(Cmd::StartData, 0x0083_8000, 0x33a0, b"PDL1\x00");
    assert_eq!(&p[0..4], &4u32.to_le_bytes());
    assert_eq!(&p[4..8], &0x0083_8000u32.to_le_bytes());
    assert_eq!(&p[8..12], &0x33a0u32.to_le_bytes());
    assert_eq!(&p[12..], b"PDL1\x00");
}

#[test]
fn parse_response_resyncs_and_reads_status() {
    // leading garbage, then a well-formed ae-header (len=4) + status=0x12345678
    let mut frame = vec![0x99u8];
    frame.extend_from_slice(&header(4));
    frame.extend_from_slice(&0x1234_5678u32.to_le_bytes());
    let r = try_parse_response(&frame).unwrap();
    assert_eq!(r.status, 0x1234_5678);
    assert_eq!(r.payload.len(), 4);
}

#[test]
fn parse_response_needs_more() {
    assert!(try_parse_response(&[0xAE, 0x08, 0x00]).is_none());
}

#[test]
fn commands_have_their_opcodes() {
    assert_eq!(Cmd::Connect.code(), 0);
    assert_eq!(Cmd::StartData.code(), 4);
    assert_eq!(Cmd::MidstData.code(), 5);
    assert_eq!(Cmd::EndData.code(), 6);
    assert_eq!(Cmd::Exec.code(), 7);
    // a reply too short for a status counts as OK
    let mut frame = header(2).to_vec();
    frame.extend_from_slice(&[7, 7]);
    assert_eq!(try_parse_response(&frame).unwrap().status, 0);
}

// ---- plan -----------------------------------------------------------------

fn entry(id: &str, addr: u32, size: u32) -> PacEntry {
    PacEntry {
        file_id: id.into(),
        file_name: String::new(),
        size,
        offset: 0,
        address: addr,
        flag: 0,
        omit: 0,
    }
}

fn info_with(entries: Vec<PacEntry>) -> PacInfo {
    PacInfo {
        version: String::new(),
        product_name: String::new(),
        product_version: String::new(),
        size: 0,
        mode: 0,
        flash_type: 0,
        magic: 0,
        header_crc_ok: true,
        payload_crc_ok: Some(true),
        entries,
    }
}

fn v4035_markers() -> PacInfo {
    info_with(vec![
        entry("PhaseCheck", 0xFE00_0002, 0),
        entry("FMT_FSSYS", 0xFE00_0006, 0),
        entry("FMT_FSEXT", 0xFE00_0006, 0),
        entry("FLASH", 0xFE00_0001, 0),
        entry("NV", 0xFE00_0003, 131072),
        entry("PREPACK", 0xFE00_0004, 92),
    ])
}

#[test]
fn erase_ops_match_vendor() {
    let ops = erase_ops(&v4035_markers());
    assert_eq!(
        ops,
        vec![
            EraseOp {
                file_id: "FMT_FSSYS".into(),
                address: 0xFE00_0006,
                param: *b"SYSF"
            },
            EraseOp {
                file_id: "FLASH".into(),
                address: 0xFE00_0001,
                param: [0, 0, 0, 0]
            },
        ]
    );
}

#[test]
fn data_markers_are_nv_then_prepack() {
    let info = v4035_markers();
    let dm: Vec<_> = data_markers(&info)
        .iter()
        .map(|e| e.file_id.clone())
        .collect();
    assert_eq!(dm, vec!["NV".to_string(), "PREPACK".to_string()]);
}

#[test]
fn nv_fix_crc_patches_be_slot_only() {
    let blob = {
        let mut v = vec![0u8, 0u8];
        v.extend_from_slice(b"hello world padding data...");
        v
    };
    let fixed = nv_fix_crc(&blob);
    assert_eq!(&fixed[2..], &blob[2..]);
    let stored = (u16::from(fixed[0]) << 8) | u16::from(fixed[1]);
    assert_eq!(stored, crc16_arc(&blob[2..]));
}

#[test]
fn classify_prefers_fdl2_over_fdl_prefix() {
    assert_eq!(classify(&entry("FDL2", 0x0081_0000, 100)), Role::Fdl2);
    assert_eq!(classify(&entry("HOST_FDL", 0x0083_8000, 100)), Role::Fdl1);
    assert_eq!(classify(&entry("AP", 0x6001_0000, 100)), Role::Flash);
    assert_eq!(classify(&entry("NV", 0xFE00_0003, 131072)), Role::Marker);
}

#[test]
fn nv_start_payload_shape() {
    let data = nv_fix_crc(&vec![0u8; 1024]);
    let p = nv_start_payload(0xFE00_0003, &data);
    assert_eq!(p.len(), 12);
    assert_eq!(&p[0..8], &hex_bytes("fe00000300000400")[..]);
}

#[test]
fn ids_are_matched_in_any_case() {
    assert_eq!(classify(&entry("fdl2_x", 0x0081_0000, 100)), Role::Fdl2);
    assert_eq!(classify(&entry("host_fdl", 0x0083_8000, 100)), Role::Fdl1);
    assert!(is_nv("nv") && is_nv("Nv") && !is_nv("NV2"));
    assert_eq!(erase_param("fmt_fssys"), Some(*b"SYSF"));
    assert_eq!(erase_param("FMT_FSEXT"), None);
    // an address of zero makes a marker, whatever the id
    assert_eq!(classify(&entry("FDL2", 0, 100)), Role::Marker);
}

#[test]
fn refreshing_an_nv_image_twice_changes_nothing() {
    let once = nv_fix_crc(&[1, 2, 3, 4, 5]);
    assert_eq!(nv_fix_crc(&once), once);
    assert_eq!(nv_fix_crc(&[7]), vec![7]);
}

#[test]
fn a_plan_needs_a_first_stage() {
    assert_eq!(
        build(&v4035_markers()).unwrap_err(),
        "no FDL1 (HOST_FDL) stage in the PAC"
    );
    let mut entries = v4035_markers().entries;
    entries.push(entry("HOST_FDL", 0x0083_8000, 16));
    entries.push(entry("FDL2", 0x0081_0000, 16));
    entries.push(entry("AP", 0x6001_0000, 32));
    let info = info_with(entries);
    let plan = build(&info).expect("has a first stage");
    assert_eq!(plan.fdl1.file_id, "HOST_FDL");
    assert_eq!(plan.fdl2.unwrap().file_id, "FDL2");
    assert_eq!(plan.partitions.len(), 1);
    assert_eq!(plan.erases.len(), 2);
    assert_eq!(plan.data_markers.len(), 2);
    // no two erases at one address
    assert_ne!(plan.erases[0].address, plan.erases[1].address);
}
