//! End-to-end flash of a synthetic PAC against the [`MockTransport`] — the whole
//! PDL → BSL → partitions → format → reset flow, with no hardware.

use sprdflash::bsl::{build_message, cmd, parse_message, rep, unescape, Checksum, FLAG};
use sprdflash::checksum::crc16_arc;
use sprdflash::error::Error;
use sprdflash::flash::bsl_io::BslIo;
use sprdflash::flash::mismatch::describe_mismatch;
use sprdflash::flash::mock::MockTransport;
use sprdflash::flash::flasher::{flash_outcome, PhaseTimes};
use sprdflash::flash::pdl_io::{PdlIo, KICK_MS};
use sprdflash::flash::progress::Reports;
use sprdflash::flash::{BslError, FlashError, FlashOptions, Flasher, PdlError, Progress, Quiet};
use sprdflash::pac::{self, ImageError, FILE_HEADER_SIZE, HEADER_SIZE, MAGIC};
use sprdflash::pdl;
use sprdflash::plan::{nv_fix_crc, nv_start_payload};
use sprdflash::transport::clock::{pulse_is_due, wait_is_over, whole_millis, Pulse, Wait};
use sprdflash::transport::{read_until, Trace, Transport, TransportError};

fn put_u32(buf: &mut [u8], off: usize, val: u32) {
    buf[off..off + 4].copy_from_slice(&val.to_le_bytes());
}

fn put_u16(buf: &mut [u8], off: usize, val: u16) {
    buf[off..off + 2].copy_from_slice(&val.to_le_bytes());
}

fn put_utf16(buf: &mut [u8], off: usize, s: &str) {
    for (i, u) in s.encode_utf16().enumerate() {
        buf[off + i * 2..off + i * 2 + 2].copy_from_slice(&u.to_le_bytes());
    }
}

/// Build a PAC from `(file_id, address, payload size)` rows, with deterministic
/// payload bytes and correct CRCs.
fn build_pac_of(entries: &[(&str, u32, usize)]) -> Vec<u8> {
    let file_offset = HEADER_SIZE;
    let payload_start = file_offset + entries.len() * FILE_HEADER_SIZE;

    let mut offsets = vec![0u32; entries.len()];
    let mut cursor = payload_start;
    for (i, (_, _, size)) in entries.iter().enumerate() {
        if *size > 0 {
            offsets[i] = cursor as u32;
            cursor += size;
        }
    }
    let total = cursor;
    let mut buf = vec![0u8; total];

    // Header.
    put_utf16(&mut buf, 0, "BP_R1.0.0");
    put_u32(&mut buf, 48, total as u32);
    put_utf16(&mut buf, 52, "UIX8910_MODEM");
    put_utf16(&mut buf, 564, "8910 MODULE");
    put_u32(&mut buf, 1076, entries.len() as u32);
    put_u32(&mut buf, 1080, file_offset as u32);
    put_u32(&mut buf, 2116, MAGIC);

    // File table.
    for (i, (id, addr, size)) in entries.iter().enumerate() {
        let base = file_offset + i * FILE_HEADER_SIZE;
        put_utf16(&mut buf, base + 4, id);
        put_utf16(&mut buf, base + 516, &format!("{id}.img"));
        put_u32(&mut buf, base + 1540, *size as u32);
        put_u32(&mut buf, base + 1552, offsets[i]);
        put_u32(&mut buf, base + 1564, *addr);
    }

    // Payloads (deterministic bytes).
    for (i, (_, _, size)) in entries.iter().enumerate() {
        let o = offsets[i] as usize;
        for j in 0..*size {
            buf[o + j] = (i as u8).wrapping_mul(31).wrapping_add(j as u8);
        }
    }

    // CRC-16-ARC: payload crc over everything past the header, then header crc.
    let crc2 = crc16_arc(&buf[HEADER_SIZE..]);
    put_u16(&mut buf, 2122, crc2);
    let crc1 = crc16_arc(&buf[..2120]);
    put_u16(&mut buf, 2120, crc1);
    buf
}

/// Build a minimal but valid PAC: two FDL stages, one payload partition, the
/// two format markers, and an NV marker with data. Both CRCs are correct.
fn build_pac() -> Vec<u8> {
    build_pac_of(&[
        ("HOST_FDL", 0x0083_8000, 16),
        ("FDL2", 0x0081_0000, 16),
        ("AP", 0x6001_0000, 32),
        ("FMT_FSSYS", 0xFE00_0006, 0),
        ("FLASH", 0xFE00_0001, 0),
        ("NV", 0xFE00_0003, 64),
    ])
}

#[test]
fn flashes_a_synthetic_pac_end_to_end() {
    let pac = build_pac();
    let info = pac::parse(&pac, true).expect("valid PAC");
    assert!(info.crc_ok(), "synthetic PAC must pass its own CRCs");

    let mut mock = MockTransport::default();
    let opts = FlashOptions {
        format: true,
        ..Default::default()
    };
    let mut noop = Quiet::new();
    let outcome = Flasher::new(opts)
        .run(&mut mock, &info, &pac, &mut noop)
        .expect("mock flash succeeds");

    assert!(outcome.version.contains("Spreadtrum Boot Block"));
    assert_eq!(outcome.bytes_written, 32 + 64, "AP + NV payloads");
    let phases: Vec<&str> = outcome.phases.iter().map(|(p, _)| p.as_str()).collect();
    for p in ["fdl1", "fdl2", "partitions", "format"] {
        assert!(phases.contains(&p), "missing phase {p}: {phases:?}");
    }
}

#[test]
fn a_repacked_payload_is_held_and_flashed() {
    let mut pac = build_pac();
    let before = pac::parse(&pac, true).expect("valid PAC");
    let (at, size) = (before.entries[2].offset as usize, before.entries[2].size as usize);
    pac[at..at + size].fill(0xA5);
    assert!(!pac::parse(&pac, true).expect("still parses").crc_ok());
    let crc2 = crc16_arc(&pac[HEADER_SIZE..]);
    put_u16(&mut pac, 2122, crc2);
    let crc1 = crc16_arc(&pac[..2120]);
    put_u16(&mut pac, 2120, crc1);

    let info = pac::parse(&pac, true).expect("valid PAC");
    assert!(info.crc_ok());
    assert_eq!(info.entries.len(), before.entries.len());
    assert_eq!(info.entries[2].file_id, before.entries[2].file_id);
    assert_eq!(info.entries[2].payload(&pac), Some(&[0xA5u8; 32][..]));
    let outcome = Flasher::new(FlashOptions::default())
        .run(&mut MockTransport::default(), &info, &pac, &mut Quiet::new())
        .expect("mock flash succeeds");
    assert_eq!(outcome.bytes_written, 32, "AP alone without format");
}

#[test]
fn adaptive_retry_recovers_from_a_dropped_ack() {
    let pac = build_pac();
    let info = pac::parse(&pac, true).expect("valid PAC");

    // Frame 8 is the AP partition's MIDST; withholding its ack forces one
    // timeout, and the adaptive retry must re-connect and finish the flash.
    let mut mock = MockTransport::dropping_bsl_acks(&[8]);
    let opts = FlashOptions {
        format: true,
        timeout_ms: 60, // keep the induced timeout short
        ..Default::default()
    };
    let mut noop = Quiet::new();
    let outcome = Flasher::new(opts)
        .run(&mut mock, &info, &pac, &mut noop)
        .expect("adaptive retry recovers the flash");
    assert_eq!(outcome.bytes_written, 32 + 64);
}

#[test]
fn read_back_verify_passes_on_a_good_flash() {
    let pac = build_pac();
    let info = pac::parse(&pac, true).expect("valid PAC");
    let mut mock = MockTransport::default(); // serves back exactly what was written
    let opts = FlashOptions {
        format: true,
        verify_readback: true,
        ..Default::default()
    };
    let mut noop = Quiet::new();
    let outcome = Flasher::new(opts)
        .run(&mut mock, &info, &pac, &mut noop)
        .expect("read-back matches the written bytes");
    assert_eq!(outcome.bytes_written, 32 + 64);
}

#[test]
fn repacking_a_partition_keeps_the_pac_valid() {
    // Models `clone`: overwrite a partition's payload in a copy of the PAC and
    // refresh the CRC-16-ARC fields, then confirm it re-parses and passes CRCs.
    let mut pac = build_pac();
    let info = pac::parse(&pac, true).expect("valid PAC");
    let ap = info
        .entries
        .iter()
        .find(|e| e.file_id == "AP")
        .expect("AP entry");
    let (off, size) = (ap.offset as usize, ap.size as usize);
    for b in &mut pac[off..off + size] {
        *b = 0xAB;
    }
    // Refresh CRCs exactly as `clone` does: payload over [HEADER_SIZE..] @2122,
    // header over [..2120] @2120, both little-endian.
    let crc2 = crc16_arc(&pac[HEADER_SIZE..]);
    pac[2122..2124].copy_from_slice(&crc2.to_le_bytes());
    let crc1 = crc16_arc(&pac[..2120]);
    pac[2120..2122].copy_from_slice(&crc1.to_le_bytes());

    let info2 = pac::parse(&pac, true).expect("repacked PAC parses");
    assert!(info2.crc_ok(), "repacked PAC must pass its own CRCs");
    let ap2 = info2.entries.iter().find(|e| e.file_id == "AP").unwrap();
    assert!(
        pac[ap2.offset as usize..][..ap2.size as usize]
            .iter()
            .all(|&b| b == 0xAB),
        "repacked AP payload carries the new bytes"
    );
}

#[test]
fn dump_reads_partitions_off_the_device() {
    let pac = build_pac();
    let info = pac::parse(&pac, true).expect("valid PAC");
    // Seed the device's "flash" at the AP partition address, then dump it back
    // without any prior write this session (models extracting an existing image).
    let ap: Vec<u8> = (0..32u8).collect();
    let mut mock = MockTransport::seeded(&[(0x6001_0000, ap.clone())]);
    let mut noop = Quiet::new();
    let dumps = Flasher::new(FlashOptions::default())
        .dump(&mut mock, &info, &pac, &[(0x6001_0000, 32)], &mut noop)
        .expect("dump succeeds");
    assert_eq!(dumps.len(), 1);
    assert_eq!(dumps[0], ap, "dump returns the persistent flash bytes");
}

#[test]
fn dump_full_discovers_size_and_reads_the_whole_flash() {
    let pac = build_pac();
    let info = pac::parse(&pac, true).expect("valid PAC");
    // A 128 KiB "flash" at the NOR base; out-of-range reads reply INVALID_CMD,
    // so size discovery must land on exactly 0x20000.
    let image: Vec<u8> = (0..0x20000u32).map(|i| (i & 0xff) as u8).collect();
    let mut mock = MockTransport::seeded(&[(0x6000_0000, image.clone())]);
    let mut noop = Quiet::new();
    let (got, size) = Flasher::new(FlashOptions::default())
        .dump_full(&mut mock, &info, &pac, 0x6000_0000, &mut noop)
        .expect("dump_full succeeds");
    assert_eq!(size, 0x20000, "auto-discovered flash size");
    assert_eq!(got, image, "read the whole flash");
}

#[test]
fn read_back_verify_catches_corruption() {
    let pac = build_pac();
    let info = pac::parse(&pac, true).expect("valid PAC");
    let mut mock = MockTransport::corrupting_readback(); // flips a byte on read-back
    let opts = FlashOptions {
        format: true,
        verify_readback: true,
        ..Default::default()
    };
    let mut noop = Quiet::new();
    let err = Flasher::new(opts)
        .run(&mut mock, &info, &pac, &mut noop)
        .expect_err("corrupted read-back must fail the flash");
    assert!(matches!(err, FlashError::VerifyMismatch(_)), "got {err:?}");
}

#[test]
fn reports_first_diff_and_count() {
    let exp = [1u8, 2, 3, 4, 5];
    let act = [1u8, 2, 9, 4, 8];
    let s = describe_mismatch(&exp, &act);
    assert!(s.contains("2/5 bytes differ"), "{s}");
    assert!(s.contains("offset 2"), "{s}");
}

#[test]
fn reports_length_difference() {
    let s = describe_mismatch(&[1, 2, 3], &[1, 2]);
    assert!(s.contains("length 2 != written 3"), "{s}");
}

// ---- more of the same flow ------------------------------------------------

/// Remembers every report.
struct Recorder(Vec<(String, u64, u64)>);

impl Progress for Recorder {
    fn seen(&self) -> Reports {
        unreachable!()
    }
    fn report(&mut self, stage: &str, done: u64, total: u64) {
        self.0.push((stage.to_string(), done, total));
    }
}

#[test]
fn progress_is_reported_stage_by_stage() {
    let pac = build_pac_of(&[
        ("HOST_FDL", 0x0083_8000, 2050),
        ("FDL2", 0x0081_0000, 16),
        ("AP", 0x6001_0000, 70),
    ]);
    let info = pac::parse(&pac, true).expect("valid PAC");
    let mut mock = MockTransport::default();
    let opts = FlashOptions {
        chunk: 32,
        verify_readback: true,
        ..Default::default()
    };
    let mut seen = Recorder(Vec::new());
    Flasher::new(opts)
        .run(&mut mock, &info, &pac, &mut seen)
        .expect("mock flash succeeds");
    let want: Vec<(String, u64, u64)> = [
        ("FDL1", 2048, 2050),
        ("FDL1", 2050, 2050),
        ("FDL2", 16, 16),
        ("AP", 32, 70),
        ("AP", 64, 70),
        ("AP", 70, 70),
        ("AP", 70, 70), // read back
    ]
    .iter()
    .map(|(s, d, t)| (s.to_string(), *d, *t))
    .collect();
    assert_eq!(seen.0, want);
}

#[test]
fn a_pac_without_a_first_stage_is_refused() {
    let pac = build_pac_of(&[("AP", 0x6001_0000, 32)]);
    let info = pac::parse(&pac, true).expect("valid PAC");
    let mut mock = MockTransport::default();
    let err = Flasher::new(FlashOptions::default())
        .run(&mut mock, &info, &pac, &mut Quiet::new())
        .unwrap_err();
    assert!(matches!(
        err,
        FlashError::Plan("no FDL1 (HOST_FDL) stage in the PAC")
    ));
}

#[test]
fn a_missing_payload_is_named() {
    let pac = build_pac();
    let mut info = pac::parse(&pac, true).expect("valid PAC");
    info.entries[2].offset = u32::MAX; // AP
    let mut mock = MockTransport::default();
    let err = Flasher::new(FlashOptions::default())
        .run(&mut mock, &info, &pac, &mut Quiet::new())
        .unwrap_err();
    match err {
        FlashError::Payload(id) => assert_eq!(id, "AP"),
        e => panic!("got {e:?}"),
    }
}

#[test]
fn a_silent_device_times_out() {
    let pac = build_pac();
    let info = pac::parse(&pac, true).expect("valid PAC");
    // The very first BSL frame (CONNECT) stays unanswered.
    let mut mock = MockTransport::dropping_bsl_acks(&[1]);
    let opts = FlashOptions {
        timeout_ms: 30,
        ..Default::default()
    };
    let err = Flasher::new(opts)
        .run(&mut mock, &info, &pac, &mut Quiet::new())
        .unwrap_err();
    match err {
        FlashError::Bsl(e) => assert!(e.is_timeout(), "got {e:?}"),
        e => panic!("got {e:?}"),
    }
}

/// Answers nothing at all.
struct Mute;

impl Transport for Mute {
    fn trace(&self) -> Trace {
        unreachable!()
    }
    fn write_all(&mut self, _data: &[u8]) -> Result<(), TransportError> {
        Ok(())
    }
    fn read_some(&mut self, _buf: &mut [u8]) -> Result<usize, TransportError> {
        Ok(0)
    }
    fn set_baud(&mut self, _baud: u32) -> Result<(), TransportError> {
        Err(TransportError::Control("no such rate".into()))
    }
    fn purge_input(&mut self) {}
    fn reset_teardown(&mut self, _hold_ms: u64) {}
}

#[test]
fn no_version_frame_after_exec() {
    let mut port = Mute;
    let mut pdl = PdlIo::new(&mut port, 10);
    assert!(matches!(
        pdl.exec_and_get_ver(20),
        Err(PdlError::NoVersion)
    ));
    assert!(matches!(
        pdl.connect(),
        Err(PdlError::Transport(TransportError::Timeout(0)))
    ));
}

#[test]
fn a_read_keeps_what_came_in() {
    // The wanted bytes are there already: nothing is read.
    let mut acc = vec![1u8, 2, 3];
    let found = read_until(&mut Mute, &mut acc, &mut Wait::new(0), |b: &[u8]| b.first().copied());
    assert_eq!(found.unwrap(), 1);
    let gone = read_until(&mut Mute, &mut acc, &mut Wait::new(5), |b: &[u8]| b.get(9).copied());
    assert!(matches!(gone, Err(TransportError::Timeout(0))));
    assert_eq!(acc, vec![1, 2, 3]);
}

/// Answers late: a PDL reply after some reads, a first frame after some flags. A read
/// takes ten milliseconds.
struct Late {
    reads: usize,
    flags: usize,
    roused: bool,
}

impl Transport for Late {
    fn trace(&self) -> Trace {
        unreachable!()
    }
    fn write_all(&mut self, data: &[u8]) -> Result<(), TransportError> {
        if data == [FLAG] {
            self.flags += 1;
        } else {
            self.reads = 0;
        }
        Ok(())
    }
    fn read_some(&mut self, buf: &mut [u8]) -> Result<usize, TransportError> {
        let began = std::time::Instant::now();
        while began.elapsed().as_millis() < 10 {}
        self.reads += 1;
        let wire = if self.flags == 0 && self.reads == 5 {
            let mut reply = pdl::header(4).to_vec();
            reply.extend_from_slice(&[0; 4]);
            reply
        } else if self.flags == 3 && !self.roused {
            self.roused = true;
            build_message(rep::VER, b"late", Checksum::Crc)
        } else {
            Vec::new()
        };
        buf[..wire.len()].copy_from_slice(&wire);
        Ok(wire.len())
    }
    fn set_baud(&mut self, _baud: u32) -> Result<(), TransportError> {
        Ok(())
    }
    fn purge_input(&mut self) {}
    fn reset_teardown(&mut self, _hold_ms: u64) {}
}

#[test]
fn a_late_answer_is_waited_for() {
    let mut port = Late {
        reads: 0,
        flags: 0,
        roused: false,
    };
    let mut pdl = PdlIo::new(&mut port, 5_000);
    pdl.connect().expect("the fifth read brings the reply");
    let mut seen = Recorder(Vec::new());
    pdl.send_image(0x0083_8000, &[7; 3000], "FDL1", &mut seen)
        .expect("every message is answered");
    let told: Vec<(u64, u64)> = seen.0.iter().map(|(_, done, total)| (*done, *total)).collect();
    assert_eq!(told, [(2048, 3000), (3000, 3000)]);
    let frame = pdl.exec_and_get_ver(5_000).expect("the third flag brings the frame");
    assert_eq!((frame.first(), frame.last()), (Some(&FLAG), Some(&FLAG)));
    assert_eq!(port.flags, 3);
}

/// A mock brought up to BSL.
fn awake() -> MockTransport {
    let mut mock = MockTransport::default();
    let mut pdl = PdlIo::new(&mut mock, 1000);
    pdl.connect().unwrap();
    pdl.exec_and_get_ver(1000).unwrap();
    mock
}

#[test]
fn what_is_staged_is_read_back() {
    let mut mock = awake();
    let mut bsl = BslIo::new(&mut mock, 1000);
    bsl.connect().unwrap();
    let data: Vec<u8> = (0..5000u32).map(|i| (i * 7) as u8).collect();
    bsl.send_stage(0x6001_0000, &data, 333, "x", &mut Quiet::new())
        .unwrap();
    assert_eq!(bsl.read_flash(0x6001_0000, 5000, 1024).unwrap(), data);
    assert_eq!(bsl.read_flash(0x6001_0064, 10, 3).unwrap(), &data[100..110]);
    // a later image at the same place shadows the earlier one
    bsl.send_stage(0x6001_0000, &[9; 16], 0, "x", &mut Quiet::new())
        .unwrap();
    assert_eq!(bsl.read_flash(0x6001_0000, 16, 16).unwrap(), vec![9; 16]);
}

#[test]
fn an_unexpected_reply_is_named() {
    let mut mock = awake();
    let mut bsl = BslIo::new(&mut mock, 1000);
    // nothing is held there, so the read is refused
    match bsl.read_flash(0x1000, 4, 4).unwrap_err() {
        BslError::Unexpected {
            what,
            expected,
            got,
        } => {
            assert_eq!(what, "READ_FLASH");
            assert_eq!(expected, "READ_FLASH");
            assert_eq!(got, "INVALID_CMD");
        }
        e => panic!("got {e:?}"),
    }
    let (kind, data) = bsl.ask(cmd::READ_CHIP_TYPE, &[], 1000).unwrap();
    assert_eq!((kind, data), (rep::ACK, vec![]));
}

/// Replies to every write with a frame that is too short to decode.
struct Stammer(Vec<u8>);

impl Transport for Stammer {
    fn trace(&self) -> Trace {
        unreachable!()
    }
    fn write_all(&mut self, _data: &[u8]) -> Result<(), TransportError> {
        self.0 = vec![0x7e, 0x01, 0x02, 0x7e];
        Ok(())
    }
    fn read_some(&mut self, buf: &mut [u8]) -> Result<usize, TransportError> {
        let n = self.0.len().min(buf.len());
        buf[..n].copy_from_slice(&self.0[..n]);
        self.0.drain(..n);
        Ok(n)
    }
    fn set_baud(&mut self, _baud: u32) -> Result<(), TransportError> {
        Ok(())
    }
    fn purge_input(&mut self) {}
    fn reset_teardown(&mut self, _hold_ms: u64) {}
}

#[test]
fn a_bad_frame_is_reported() {
    let mut port = Stammer(Vec::new());
    let mut bsl = BslIo::new(&mut port, 1000);
    assert!(matches!(
        bsl.connect(),
        Err(BslError::Frame(Error::FrameTooShort(2)))
    ));
}

#[test]
fn a_first_frame_that_is_no_version_is_refused() {
    let pac = build_pac();
    let info = pac::parse(&pac, true).expect("valid PAC");
    // answers PDL like the mock, then a frame that is not VER
    struct Liar(MockTransport, bool);
    impl Transport for Liar {
        fn trace(&self) -> Trace {
            unreachable!()
        }
        fn write_all(&mut self, data: &[u8]) -> Result<(), TransportError> {
            if data == [0x7e] {
                self.1 = true;
                return Ok(());
            }
            self.0.write_all(data)
        }
        fn read_some(&mut self, buf: &mut [u8]) -> Result<usize, TransportError> {
            if self.1 {
                buf[..4].copy_from_slice(&[0x7e, 1, 2, 0x7e]);
                return Ok(4);
            }
            self.0.read_some(buf)
        }
        fn set_baud(&mut self, _baud: u32) -> Result<(), TransportError> {
            Ok(())
        }
        fn purge_input(&mut self) {}
        fn reset_teardown(&mut self, _hold_ms: u64) {}
    }
    let err = Flasher::new(FlashOptions::default())
        .run(&mut Liar(MockTransport::default(), false), &info, &pac, &mut Quiet::new())
        .unwrap_err();
    assert!(matches!(err, FlashError::Version), "got {err:?}");
}

#[test]
fn a_device_without_flash_has_no_size() {
    let pac = build_pac();
    let info = pac::parse(&pac, true).expect("valid PAC");
    let mut mock = MockTransport::default();
    let err = Flasher::new(FlashOptions::default())
        .dump_full(&mut mock, &info, &pac, 0x6000_0000, &mut Quiet::new())
        .unwrap_err();
    assert!(matches!(err, FlashError::FlashSize), "got {err:?}");
}

#[test]
fn an_odd_flash_size_is_rounded_up() {
    let pac = build_pac();
    let info = pac::parse(&pac, true).expect("valid PAC");
    // 3 MiB and a bit: found as 3 MiB + 64 KiB
    let image = vec![0x5a; 0x30_0400];
    let mut mock = MockTransport::seeded(&[(0x6000_0000, image)]);
    let err = Flasher::new(FlashOptions::default())
        .dump_full(&mut mock, &info, &pac, 0x6000_0000, &mut Quiet::new())
        .unwrap_err();
    // the read past the end is then refused
    assert!(matches!(
        err,
        FlashError::Bsl(BslError::Unexpected { .. })
    ));
}

#[test]
fn probes_collect_the_replies() {
    let pac = build_pac();
    let info = pac::parse(&pac, true).expect("valid PAC");
    let mut mock = MockTransport::default();
    let replies = Flasher::new(FlashOptions::default())
        .probe_commands(
            &mut mock,
            &info,
            &pac,
            &[(cmd::READ_CHIP_UID, vec![]), (cmd::READ_FLASH, vec![1])],
            &mut Quiet::new(),
        )
        .expect("probe succeeds");
    assert_eq!(
        replies,
        vec![(rep::ACK, vec![]), (rep::INVALID_CMD, vec![])]
    );
    // a reply that does not come counts as type 0 and ends the probe: the bring-up
    // takes six frames (CONNECT, START, MIDST, END, EXEC, CONNECT)
    let mut mock = MockTransport::dropping_bsl_acks(&[7]);
    let opts = FlashOptions {
        timeout_ms: 60,
        ..Default::default()
    };
    let replies = Flasher::new(opts)
        .probe_commands(
            &mut mock,
            &info,
            &pac,
            &[(cmd::READ_CHIP_UID, vec![]), (cmd::READ_CHIP_TYPE, vec![])],
            &mut Quiet::new(),
        )
        .expect("probe succeeds");
    assert_eq!(replies, vec![(0, vec![])]);
}

#[test]
fn the_baud_rate_is_changed_on_request() {
    let pac = build_pac();
    let info = pac::parse(&pac, true).expect("valid PAC");
    let mut mock = MockTransport::default();
    let opts = FlashOptions {
        baud: Some(921_600),
        reset: false,
        ..Default::default()
    };
    let outcome = Flasher::new(opts)
        .run(&mut mock, &info, &pac, &mut Quiet::new())
        .expect("mock flash succeeds");
    assert_eq!(outcome.version, "Spreadtrum Boot Block version 1.2\0");
    assert_eq!(outcome.bytes_written, 32);
    let mut port = Mute;
    let mut bsl = BslIo::new(&mut port, 10);
    assert!(matches!(
        bsl.set_baud(9600),
        Err(BslError::Transport(TransportError::Control(_)))
    ));
}

#[test]
fn mismatch_text_is_exact() {
    assert_eq!(
        describe_mismatch(&[1, 2, 3], &[1, 0xff, 3]),
        "1/3 bytes differ; first at offset 1; expected [02, 03] got [ff, 03]"
    );
    assert_eq!(
        describe_mismatch(&[1, 2], &[]),
        "read-back length 0 != written 2 bytes"
    );
    assert_eq!(
        describe_mismatch(&[7], &[7]),
        "0/1 bytes differ; first at offset 0; expected [07] got [07]"
    );
}

#[test]
fn a_corrupt_image_is_never_flashed() {
    let mut pac = build_pac();
    assert!(pac::preflight(&pac, true).is_ok());
    let last = pac.len() - 1;
    pac[last] ^= 1;
    assert!(matches!(
        pac::preflight(&pac, true),
        Err(ImageError::Checksum)
    ));
    // without the payload check it passes; the header check stays
    assert!(pac::preflight(&pac, false).is_ok());
    pac[60] ^= 1;
    assert!(matches!(
        pac::preflight(&pac, false),
        Err(ImageError::Checksum)
    ));
    assert!(matches!(
        pac::preflight(&pac[..100], true),
        Err(ImageError::Parse(Error::PacTooSmall(100)))
    ));
}

#[test]
fn malformed_pacs_are_refused() {
    let good = build_pac();
    let mut pac = good.clone();
    put_u32(&mut pac, 48, 7);
    assert!(matches!(
        pac::parse(&pac, false),
        Err(Error::PacSizeMismatch { declared: 7, .. })
    ));
    let mut pac = good.clone();
    put_u32(&mut pac, 1076, 5000); // more entries than there is room for
    assert!(matches!(
        pac::parse(&pac, false),
        Err(Error::PacTruncatedTable(_))
    ));
    let mut pac = good.clone();
    put_u32(&mut pac, HEADER_SIZE + 1552, u32::MAX - 3);
    match pac::parse(&pac, false) {
        Err(Error::PacEntryOutOfRange {
            file_id,
            offset,
            size,
        }) => {
            assert_eq!(file_id, "HOST_FDL");
            assert_eq!((offset, size), (u64::from(u32::MAX - 3), 16));
        }
        r => panic!("got {r:?}"),
    }
    let info = pac::parse(&good, false).unwrap();
    assert_eq!(info.product_name, "UIX8910_MODEM");
    assert_eq!(info.product_version, "8910 MODULE");
    assert_eq!(info.entries.len(), 6);
    assert_eq!(info.entries[5].file_name, "NV.img");
    assert_eq!(info.payload_crc_ok, None);
    assert!(info.entries[3].is_marker() && !info.entries[5].is_marker());
    assert_eq!(info.entries[2].payload(&good).unwrap().len(), 32);
}

// ---- what a run says to the device ----------------------------------------

/// A mock device that remembers the BSL messages it was sent.
struct Spy(MockTransport, Vec<(u16, Vec<u8>)>);

impl Transport for Spy {
    fn trace(&self) -> Trace {
        unreachable!()
    }
    fn write_all(&mut self, data: &[u8]) -> Result<(), TransportError> {
        if data.len() > 2 && data[0] == FLAG {
            let body = unescape(&data[1..data.len() - 1]);
            let (kind, message) = parse_message(&body).expect("a whole frame");
            self.1.push((kind, message.to_vec()));
        }
        self.0.write_all(data)
    }
    fn read_some(&mut self, buf: &mut [u8]) -> Result<usize, TransportError> {
        self.0.read_some(buf)
    }
    fn set_baud(&mut self, baud: u32) -> Result<(), TransportError> {
        self.0.set_baud(baud)
    }
    fn purge_input(&mut self) {
        self.0.purge_input();
    }
    fn reset_teardown(&mut self, hold_ms: u64) {
        self.0.reset_teardown(hold_ms);
    }
}

fn kinds(messages: &[(u16, Vec<u8>)]) -> Vec<u16> {
    messages.iter().map(|m| m.0).collect()
}

/// The commands that bring the loader up: CONNECT, START, MIDST, END, EXEC, CONNECT.
const BRING_UP: usize = 6;

#[test]
fn nothing_is_erased_without_format() {
    let pac = build_pac();
    let info = pac::parse(&pac, true).expect("valid PAC");
    let mut spy = Spy(MockTransport::default(), Vec::new());
    Flasher::new(FlashOptions::default())
        .run(&mut spy, &info, &pac, &mut Quiet::new())
        .expect("mock flash succeeds");
    assert_eq!(
        kinds(&spy.1)[BRING_UP..],
        [cmd::START_DATA, cmd::MIDST_DATA, cmd::END_DATA, cmd::NORMAL_RESET]
    );
    assert!(!kinds(&spy.1).contains(&cmd::ERASE_FLASH));
}

#[test]
fn format_erases_and_writes_every_marker() {
    let pac = build_pac();
    let info = pac::parse(&pac, true).expect("valid PAC");
    let mut spy = Spy(MockTransport::default(), Vec::new());
    let opts = FlashOptions {
        format: true,
        chunk: 20,
        ..Default::default()
    };
    Flasher::new(opts)
        .run(&mut spy, &info, &pac, &mut Quiet::new())
        .expect("mock flash succeeds");
    let sent = &spy.1[BRING_UP..];
    // AP in pieces of 20 bytes, whole
    let ap = info.entries[2].payload(&pac).unwrap();
    assert_eq!(sent[0].1, [0x60, 0x01, 0x00, 0x00, 0, 0, 0, 32]);
    assert_eq!([&sent[1].1[..], &sent[2].1[..]].concat(), ap);
    assert_eq!(sent[3], (cmd::END_DATA, vec![]));
    // the erases
    assert_eq!(sent[4], (cmd::ERASE_FLASH, b"\xFE\x00\x00\x06SYSF".to_vec()));
    assert_eq!(sent[5], (cmd::ERASE_FLASH, vec![0xFE, 0, 0, 1, 0, 0, 0, 0]));
    // NV, with its CRC refreshed and its sum in the start
    let nv = nv_fix_crc(info.entries[5].payload(&pac).unwrap());
    assert_eq!(sent[6], (cmd::START_DATA, nv_start_payload(0xFE00_0003, &nv)));
    let data: Vec<u8> = sent[7..11].iter().flat_map(|m| m.1.clone()).collect();
    assert_eq!(data, nv);
    assert_eq!(kinds(&sent[11..]), [cmd::END_DATA, cmd::NORMAL_RESET]);
}

#[test]
fn a_dump_writes_nothing() {
    let pac = build_pac();
    let info = pac::parse(&pac, true).expect("valid PAC");
    let mut spy = Spy(
        MockTransport::seeded(&[(0x6000_0000, vec![0x5A; 0x2_0000])]),
        Vec::new(),
    );
    Flasher::new(FlashOptions::default())
        .dump(&mut spy, &info, &pac, &[(0x6000_0000, 3000)], &mut Quiet::new())
        .expect("dump succeeds");
    assert_eq!(
        kinds(&spy.1)[BRING_UP..],
        [cmd::READ_FLASH, cmd::READ_FLASH, cmd::READ_FLASH, cmd::NORMAL_RESET]
    );
    let mut spy = Spy(
        MockTransport::seeded(&[(0x6000_0000, vec![0x5A; 0x2_0000])]),
        Vec::new(),
    );
    Flasher::new(FlashOptions::default())
        .dump_full(&mut spy, &info, &pac, 0x6000_0000, &mut Quiet::new())
        .expect("dump_full succeeds");
    let said = kinds(&spy.1);
    assert!(said[BRING_UP..said.len() - 1].iter().all(|k| *k == cmd::READ_FLASH));
    assert_eq!(*said.last().unwrap(), cmd::NORMAL_RESET);
}

#[test]
fn a_timeout_halves_the_chunk_and_starts_the_image_again() {
    let pac = build_pac_of(&[
        ("HOST_FDL", 0x0083_8000, 16),
        ("FDL2", 0x0081_0000, 16),
        ("AP", 0x6001_0000, 1500),
    ]);
    let info = pac::parse(&pac, true).expect("valid PAC");
    // frame 9 is the second MIDST of AP
    let mut spy = Spy(MockTransport::dropping_bsl_acks(&[9]), Vec::new());
    let opts = FlashOptions {
        chunk: 1200,
        timeout_ms: 60,
        ..Default::default()
    };
    Flasher::new(opts)
        .run(&mut spy, &info, &pac, &mut Quiet::new())
        .expect("adaptive retry recovers the flash");
    let lens: Vec<(u16, usize)> = spy.1[BRING_UP..].iter().map(|m| (m.0, m.1.len())).collect();
    assert_eq!(
        lens,
        [
            (cmd::START_DATA, 8),
            (cmd::MIDST_DATA, 1200),
            (cmd::MIDST_DATA, 300),
            (cmd::CONNECT, 0),
            (cmd::START_DATA, 8),
            (cmd::MIDST_DATA, 600),
            (cmd::MIDST_DATA, 600),
            (cmd::MIDST_DATA, 300),
            (cmd::END_DATA, 0),
            (cmd::NORMAL_RESET, 0),
        ]
    );
}

#[test]
fn a_banner_that_is_not_utf8_is_decoded_all_the_same() {
    // a device whose banner is "v" and a stray byte, with space around
    struct Odd(MockTransport, bool);
    impl Transport for Odd {
        fn trace(&self) -> Trace {
            unreachable!()
        }
        fn write_all(&mut self, data: &[u8]) -> Result<(), TransportError> {
            self.1 = data == [FLAG];
            self.0.write_all(data)
        }
        fn read_some(&mut self, buf: &mut [u8]) -> Result<usize, TransportError> {
            if self.1 {
                self.1 = false;
                let _ = self.0.read_some(&mut [0u8; 256]); // the mock's own banner
                let frame = build_message(rep::VER, b" v\xFF\r\n", Checksum::Sprd);
                buf[..frame.len()].copy_from_slice(&frame);
                return Ok(frame.len());
            }
            self.0.read_some(buf)
        }
        fn set_baud(&mut self, _baud: u32) -> Result<(), TransportError> {
            Ok(())
        }
        fn purge_input(&mut self) {}
        fn reset_teardown(&mut self, _hold_ms: u64) {}
    }
    let pac = build_pac();
    let info = pac::parse(&pac, true).expect("valid PAC");
    let outcome = Flasher::new(FlashOptions::default())
        .run(&mut Odd(MockTransport::default(), false), &info, &pac, &mut Quiet::new())
        .expect("mock flash succeeds");
    assert_eq!(outcome.version, "v\u{FFFD}");
}

// ---- time ------------------------------------------------------------------

#[test]
fn waits_end_when_their_time_is_up() {
    assert!(wait_is_over(0, 0));
    assert!(!wait_is_over(59, 60));
    assert!(wait_is_over(60, 60) && wait_is_over(61, 60));
    assert_eq!(whole_millis(1_999_999), 1);
    assert!(Wait::new(0).is_over());
    assert!(!Wait::new(60_000).is_over());
}

#[test]
fn flags_are_sent_at_once_and_then_now_and_again() {
    assert_eq!(KICK_MS, 50);
    assert!(pulse_is_due(None, 50));
    assert!(!pulse_is_due(Some(49), 50));
    assert!(pulse_is_due(Some(50), 50));
    let mut pulse = Pulse::new(60_000);
    assert!(pulse.is_due());
    pulse.given();
    assert!(!pulse.is_due());
}

#[test]
fn an_outcome_has_every_phase_with_its_own_time() {
    let mut times = PhaseTimes {
        fdl1: 1,
        fdl2: 2,
        partitions: 3,
        format: Some(4),
        total: 11,
    };
    let o = flash_outcome("v".into(), 96, times);
    assert_eq!((o.version.as_str(), o.bytes_written, o.nanos), ("v", 96, 11));
    let phases: Vec<(&str, u64)> = o.phases.iter().map(|(p, t)| (p.as_str(), *t)).collect();
    assert_eq!(phases, [("fdl1", 1), ("fdl2", 2), ("partitions", 3), ("format", 4)]);
    times.format = None;
    assert_eq!(flash_outcome("v".into(), 96, times).phases.len(), 3);
}

#[test]
fn a_chunk_that_cannot_be_framed_is_found_out() {
    let mut pac = build_pac_of(&[("HOST_FDL", 0x0083_8000, 16), ("AP", 0x6001_0000, 140_000)]);
    let info = pac::parse(&pac, true).expect("valid PAC");
    let at = info.entries[1].offset as usize;
    let flasher = |chunk| {
        Flasher::new(FlashOptions {
            chunk,
            ..Default::default()
        })
    };
    // the sum of small bytes fits
    pac[at..].fill(1);
    assert!(flasher(2048).can_run(&info, &pac));
    assert!(flasher(140_000).can_run(&info, &pac));
    // that of large ones only in short chunks
    pac[at..].fill(0xFF);
    assert!(flasher(2048).can_run(&info, &pac));
    assert!(flasher(131_070).can_run(&info, &pac));
    assert!(!flasher(140_000).can_run(&info, &pac));
}
