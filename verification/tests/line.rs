//! The line: records, metrics, stations, boot answers, and what the command line
//! prints.

use sprdflash::cli::{
    build_stations, info_report, parse_station, port_line, resolve_download_port, Meter, PortKind,
};
use sprdflash::flash::{FlashOptions, FlashOutcome};
use sprdflash::line::metrics::http_response;
use sprdflash::line::record::{Outcome, PhaseTiming, UnitRecord};
use sprdflash::line::station::{
    attempt_outcome, checks_boot, ensure_download, pick_at_port, port_failure, recover,
    settle_attempt, DownloadStep, PortTrouble, RecoveryStep, StationConfig, UnitJob, Verdict,
};
use sprdflash::line::verify::{
    banner_in, boot_info, boot_report, boot_step, meaningful, BootStep, VerifyError,
};
use sprdflash::line::{summarize, BootInfo, LineConfig, Metrics};
use sprdflash::pac::{PacEntry, PacInfo};
use sprdflash::transport::discovery::{
    download_wait_step, find_at_port, find_download_port, find_module_ports, is_present,
    module_wait_is_done, PortInfo, PortWait,
};
use sprdflash::transport::tries_to_open_again;
use sprdflash::transport::recovery::{
    device_path, download_command, listed_device, restart_download_device, RecoveryStrategy,
};

fn rec(result: Outcome, attempts: u32) -> UnitRecord {
    UnitRecord {
        ts_ms: 0,
        station: "s".into(),
        work_order: None,
        operator: None,
        port: String::new(),
        product: String::new(),
        pac: String::new(),
        result,
        attempts,
        bytes: 1000,
        flash_nanos: 2_500_000_000,
        total_nanos: 3_000_000_000,
        phases: Vec::<PhaseTiming>::new(),
        firmware: None,
        imei: None,
        error: None,
    }
}

#[test]
fn counts_and_renders() {
    let mut m = Metrics::default();
    m.record(&rec(Outcome::Pass, 1));
    m.record(&rec(Outcome::Pass, 2)); // 1 retry
    m.record(&rec(Outcome::Fail, 1));
    let text = m.render();
    assert!(text.contains("sprdflash_units_total{result=\"pass\"} 2"));
    assert!(text.contains("sprdflash_units_total{result=\"fail\"} 1"));
    assert!(text.contains("sprdflash_retries_total 1"));
    assert!(text.contains("sprdflash_bytes_total 3000"));
    assert_eq!(m.totals(), (2, 1), "two pass, one fail");
}

#[test]
fn metrics_text_is_exact() {
    let mut m = Metrics::default();
    m.record(&rec(Outcome::Pass, 0));
    let text = m.render_at(61_050_000_000);
    assert!(text.starts_with(
        "# HELP sprdflash_units_total Units flashed, by result.\n\
         # TYPE sprdflash_units_total counter\n"
    ));
    assert!(text.contains("sprdflash_flash_seconds_total 2.5\n"));
    assert!(text.ends_with("sprdflash_uptime_seconds 61.05\n"));
    assert!(m.render_at(7_000_000_000).ends_with("sprdflash_uptime_seconds 7\n"));
    assert!(m.render_at(1).ends_with("sprdflash_uptime_seconds 0.000000001\n"));
    assert!(m.render_at(1_200_034_500).ends_with("sprdflash_uptime_seconds 1.2000345\n"));
    let resp = http_response("abc");
    assert_eq!(
        resp,
        "HTTP/1.1 200 OK\r\nContent-Type: text/plain; version=0.0.4\r\n\
         Content-Length: 3\r\nConnection: close\r\n\r\nabc"
    );
    // bytes, not characters
    assert!(http_response("\u{E9}").contains("Content-Length: 2\r\n"));
}

#[test]
fn metrics_match_a_recount_in_any_order() {
    let recs: Vec<UnitRecord> = (0..30u32)
        .map(|i| {
            if i % 3 == 0 {
                rec(Outcome::Fail, 2)
            } else {
                rec(Outcome::Pass, 1)
            }
        })
        .collect();
    let mut forward = Metrics::default();
    let mut backward = Metrics::default();
    for r in &recs {
        forward.record(r);
    }
    for r in recs.iter().rev() {
        backward.record(r);
    }
    assert_eq!(forward.render_at(0), backward.render_at(0));
    assert_eq!(forward.totals(), (20, 10));
    let summary = summarize(recs, 1234);
    assert_eq!((summary.total, summary.passed, summary.failed), (30, 20, 10));
    assert_eq!(summary.wall_nanos, 1234);
    assert_eq!(summary.records.len(), 30);
    assert!(!summary.all_passed());
    assert!(summarize(Vec::new(), 0).all_passed());
}

fn info() -> PacInfo {
    PacInfo {
        version: "BP_R1.0.0".into(),
        product_name: "TEST_PRODUCT".into(),
        product_version: "V1".into(),
        size: 4242,
        mode: 0,
        flash_type: 0,
        magic: 0,
        header_crc_ok: true,
        payload_crc_ok: None,
        entries: Vec::new(),
    }
}

fn station(at: Option<&str>, dl: Option<&str>) -> StationConfig {
    StationConfig {
        label: "fixture-a".into(),
        at_port: at.map(String::from),
        download_port: dl.map(String::from),
    }
}

fn job(info: &PacInfo, retries: u32) -> UnitJob<'_> {
    UnitJob {
        info,
        pac: &[],
        pac_name: "fw.pac".into(),
        opts: FlashOptions::default(),
        verify: true,
        retries,
        work_order: Some("WO-1".into()),
        operator: None,
    }
}

#[test]
fn a_unit_is_tried_until_its_retries_are_used_up() {
    let info = info();
    let job = job(&info, 1);
    let st = station(None, Some("COM9"));
    let first = settle_attempt(&st, &job, 5, 1, Err("flash: boom".into()), 10);
    assert!(matches!(first, Verdict::Retry(2)));
    let second = settle_attempt(&st, &job, 5, 2, Err("flash: bang".into()), 20);
    let Verdict::Done(rec) = second else {
        panic!("no attempt is left");
    };
    assert_eq!(rec.result, Outcome::Fail);
    assert_eq!(rec.attempts, 2);
    assert_eq!(rec.error.as_deref(), Some("flash: bang"));
    assert_eq!(rec.port, "COM9");
    assert_eq!((rec.ts_ms, rec.total_nanos, rec.bytes), (5, 20, 0));
    assert_eq!(rec.work_order.as_deref(), Some("WO-1"));
}

#[test]
fn a_success_ends_the_unit() {
    let info = info();
    let job = job(&info, 9);
    assert!(checks_boot(&job));
    let outcome = FlashOutcome {
        version: "v".into(),
        bytes_written: 77,
        nanos: 33_200,
        phases: vec![("fdl1".into(), 12), ("partitions".into(), 30)],
    };
    let boot = BootInfo {
        firmware: "LuatOS-Air_V4035".into(),
        imei: "863488050987562".into(),
    };
    let tried = attempt_outcome(&job, "COM34".into(), Ok(outcome), true, Some(Ok(boot)));
    let verdict = settle_attempt(&station(None, None), &job, 1, 3, tried, 41_000);
    let Verdict::Done(rec) = verdict else {
        panic!("the unit passed");
    };
    assert_eq!(rec.result, Outcome::Pass);
    assert_eq!((rec.attempts, rec.bytes, rec.flash_nanos), (3, 77, 33_200));
    assert_eq!(rec.phases.len(), 2);
    assert_eq!((rec.phases[1].phase.as_str(), rec.phases[1].nanos), ("partitions", 30));
    assert_eq!(rec.imei.as_deref(), Some("863488050987562"));
    assert_eq!(rec.firmware.as_deref(), Some("LuatOS-Air_V4035"));
    assert_eq!(rec.product, "TEST_PRODUCT");
    assert_eq!(rec.pac, "fw.pac");
    assert_eq!(rec.port, "COM34");
    assert!(rec.error.is_none());
}

#[test]
fn a_unit_whose_boot_is_checked_passes_only_with_a_report() {
    let info = info();
    let mut job = job(&info, 0);
    let flashed = || {
        Ok(FlashOutcome {
            version: "v".into(),
            bytes_written: 77,
            nanos: 5,
            phases: Vec::new(),
        })
    };
    let boot = || BootInfo {
        firmware: "fw".into(),
        imei: "86".into(),
    };
    let err = |r: Result<_, String>| match r {
        Ok(_) => panic!("the attempt failed"),
        Err(e) => e,
    };
    let p = || String::from("COM34");
    let failed = || Err(String::from("boom"));
    assert_eq!(
        err(attempt_outcome(&job, p(), failed(), true, Some(Ok(boot())))),
        "flash: boom"
    );
    assert_eq!(
        err(attempt_outcome(&job, p(), flashed(), false, None)),
        "module did not boot after flash"
    );
    let mute = || Some(Err(String::from("no ATI response from X")));
    assert_eq!(
        err(attempt_outcome(&job, p(), flashed(), true, mute())),
        "verify: no ATI response from X"
    );
    let (s, port) = attempt_outcome(&job, p(), flashed(), true, Some(Ok(boot()))).unwrap();
    assert_eq!((s.bytes, s.flash_nanos, port.as_str()), (77, 5, "COM34"));
    assert_eq!((s.firmware.as_deref(), s.imei.as_deref()), (Some("fw"), Some("86")));
    // without the check there is no report to ask for
    job.verify = false;
    let (s, _) = attempt_outcome(&job, p(), flashed(), false, None).unwrap();
    assert!(s.firmware.is_none() && s.imei.is_none());
}

#[test]
fn trouble_with_a_port_has_its_text() {
    assert_eq!(
        port_failure(&PortTrouble::NoWay),
        "enter download: no download port and no AT port to switch"
    );
    assert_eq!(port_failure(&PortTrouble::Switch("x".into())), "enter download: x");
    assert_eq!(
        port_failure(&PortTrouble::NeverAppeared),
        "enter download: download port did not appear"
    );
    assert_eq!(port_failure(&PortTrouble::Open("COM3".into(), "busy".into())), "open COM3: busy");
}

#[test]
fn boot_answers_are_waited_for() {
    let info = || BootInfo {
        firmware: "fw".into(),
        imei: String::new(),
    };
    let busy = || Some(String::from("busy"));
    match boot_step("COM5", false, busy(), Some(info()), true) {
        BootStep::Report(i) => assert_eq!(i.firmware, "fw"),
        s => panic!("got {s:?}"),
    }
    assert!(matches!(boot_step("COM5", false, busy(), None, false), BootStep::Again));
    match boot_step("COM5", false, busy(), None, true) {
        BootStep::GiveUp(VerifyError::Open(port, why)) => {
            assert_eq!((port.as_str(), why.as_str()), ("COM5", "busy"));
        }
        s => panic!("got {s:?}"),
    }
    match boot_step("COM5", true, busy(), None, true) {
        BootStep::GiveUp(VerifyError::NoResponse(port)) => assert_eq!(port, "COM5"),
        s => panic!("got {s:?}"),
    }
    assert!(module_wait_is_done(&bench(), false) && module_wait_is_done(&[], true));
    assert!(!module_wait_is_done(&[], false));
    let agent = [port("COM34", 0x0525, 0xA4A7, "")];
    match download_wait_step(false, &agent) {
        PortWait::Found(p) => assert_eq!(p.name, "COM34"),
        s => panic!("got {s:?}"),
    }
    assert!(matches!(download_wait_step(false, &[]), PortWait::Again));
    assert!(matches!(download_wait_step(true, &agent), PortWait::GiveUp));
    assert!(tries_to_open_again(199) && !tries_to_open_again(200));
}

fn port(name: &str, vid: u16, pid: u16, product: &str) -> PortInfo {
    PortInfo {
        name: name.into(),
        vid: Some(vid),
        pid: Some(pid),
        product: Some(product.into()),
    }
}

fn bench() -> Vec<PortInfo> {
    vec![
        PortInfo {
            name: "/dev/ttyS0".into(),
            vid: None,
            pid: None,
            product: None,
        },
        port("COM1", 0x1782, 0x4d00, "LUAT Diag"),
        port("COM2", 0x1782, 0x4d00, "Mobile AT Interface"),
        port("COM3", 0x0525, 0xa4a7, "Gadget Serial"),
        port("COM4", 0x0525, 0xa4a7, "Gadget Serial"),
    ]
}

#[test]
fn ports_are_told_apart_by_their_ids() {
    let ports = bench();
    assert_eq!(find_download_port(&ports).unwrap().name, "COM3");
    assert!(find_download_port(&ports[..3]).is_none());
    let mods = find_module_ports(&ports);
    let names: Vec<&str> = mods.iter().map(|p| p.name.as_str()).collect();
    assert_eq!(names, ["COM1", "COM2"]);
    assert_eq!(find_at_port(&mods).unwrap().name, "COM2");
    assert!(is_present(&ports, "/dev/ttyS0") && !is_present(&ports, "COM"));
    for (product, at) in [("X AT", true), ("AT (COM5)", true), ("LUAT", false), ("AP Diag", false)] {
        assert_eq!(find_at_port(&[port("p", 1, 1, product)]).is_some(), at);
    }
}

#[test]
fn the_way_to_the_download_port() {
    let none: Vec<PortInfo> = Vec::new();
    let ports = bench();
    let used = |s: DownloadStep| match s {
        DownloadStep::Use(p) => p,
        s => panic!("got {s:?}"),
    };
    // the configured port counts if a download device is seen, or nothing can switch
    assert_eq!(used(ensure_download(&station(Some("AT"), Some("X")), &ports, &none)), "X");
    assert_eq!(used(ensure_download(&station(None, Some("X")), &none, &none)), "X");
    assert_eq!(used(ensure_download(&station(Some("AT"), Some("X")), &none, &ports)), "COM3");
    assert_eq!(used(ensure_download(&station(None, None), &none, &ports)), "COM3");
    match ensure_download(&station(Some("AT"), None), &none, &none) {
        DownloadStep::SwitchVia(p) => assert_eq!(p, "AT"),
        s => panic!("got {s:?}"),
    }
    assert!(matches!(
        ensure_download(&station(None, None), &none, &none),
        DownloadStep::NoWay
    ));
}

#[test]
fn the_at_port_to_verify_on() {
    let mods = find_module_ports(&bench());
    assert_eq!(pick_at_port(&station(Some("COM7"), None), &mods), "COM7");
    assert_eq!(pick_at_port(&station(None, None), &mods), "COM2");
    assert_eq!(pick_at_port(&station(None, None), &mods[..1]), "COM1");
    assert_eq!(pick_at_port(&station(None, None), &[]), "");
}

#[test]
fn recovery_between_attempts() {
    assert!(matches!(recover(&station(Some("A"), None), true), RecoveryStep::Wait(6000)));
    match recover(&station(Some("A"), None), false) {
        RecoveryStep::Redownload(p, 2000) => assert_eq!(p, "A"),
        s => panic!("got {s:?}"),
    }
    assert!(matches!(recover(&station(None, None), false), RecoveryStep::Nothing));
    assert_eq!(download_command(), "AT*DOWNLOAD=1\r\n");
    assert!(!restart_download_device());
    assert_ne!(RecoveryStrategy::AtRedownload, RecoveryStrategy::PowerCycle);
}

#[test]
fn the_device_instance_is_read_from_a_listing() {
    let listing = "\r\nHKEY_LOCAL_MACHINE\\SYSTEM\\Enum\\USB\\VID_0525&PID_A4A7\\5&1234&0&2\r\n";
    assert_eq!(
        device_path(listing).unwrap(),
        "USB\\VID_0525&PID_A4A7\\5&1234&0&2"
    );
    assert_eq!(device_path("  \r\nend\\\r\n"), None);
    assert_eq!(device_path(""), None);
    assert_eq!(
        listed_device(b"a\\b\xFF\r\n").unwrap(),
        "USB\\VID_0525&PID_A4A7\\b\u{FFFD}"
    );
}

#[test]
fn boot_answers_are_read() {
    let ati = "ATI\r\n\r\n  LuatOS-Air_V4035 \r\nOK\r\n";
    assert_eq!(meaningful(ati, "ATI").as_deref(), Some("LuatOS-Air_V4035"));
    assert_eq!(meaningful("ATI\r\nOK\r\n", "ATI"), None);
    assert_eq!(meaningful("X\r\n", "X"), None);
    let info = boot_info(ati, "AT+CGSN\r\n863488050987562\r\nOK\r\n").unwrap();
    assert_eq!(info.firmware, "LuatOS-Air_V4035");
    assert_eq!(info.imei, "863488050987562");
    assert_eq!(boot_info(ati, "").unwrap().imei, "");
    assert!(boot_info("OK", "863488050987562").is_none());
    // raw answers, with a stray byte in one
    assert_eq!(banner_in(b"ATI\r\nV\xFF\r\nOK\r\n").as_deref(), Some("V\u{FFFD}"));
    assert_eq!(banner_in(b"ATI\r\nOK\r\n"), None);
    let info = boot_report(b"V1\r\n", b"AT+CGSN\r\n86\r\n").unwrap();
    assert_eq!((info.firmware.as_str(), info.imei.as_str()), ("V1", "86"));
}

#[test]
fn line_options_and_continuous_mode() {
    let mut cfg = LineConfig {
        stations: vec![station(None, Some("BOGUS-A"))],
        format: true,
        chunk: 4096,
        verify: false,
        retries: 0,
        work_order: None,
        operator: None,
        records_path: None,
        metrics_addr: None,
        continuous: true,
    };
    let opts = cfg.flash_options();
    assert!(opts.format && opts.reset && !opts.verify_readback);
    assert_eq!(opts.chunk, 4096);
    assert_eq!((opts.timeout_ms, opts.exec_timeout_ms), (5000, 15000));
    assert!(cfg.takes_another(false));
    assert!(!cfg.takes_another(true));
    cfg.continuous = false;
    assert!(!cfg.takes_another(false));
}

// ---- command line ---------------------------------------------------------

#[test]
fn stations_are_read_from_specs() {
    let s = parse_station("f1:COM12:COM34");
    assert_eq!(s.label, "f1");
    assert_eq!(s.at_port.as_deref(), Some("COM12"));
    assert_eq!(s.download_port.as_deref(), Some("COM34"));
    let s = parse_station("f2::/dev/a:b");
    assert_eq!(s.at_port, None);
    assert_eq!(s.download_port.as_deref(), Some("/dev/a:b"));
    let s = parse_station("");
    assert_eq!((s.label.as_str(), s.at_port, s.download_port), ("", None, None));

    let specs = vec!["a:1".to_string(), "b".to_string()];
    let made = build_stations(&specs, &[], &None).unwrap();
    assert_eq!(made.len(), 2);
    assert_eq!(made[1].label, "b");
    let auto = build_stations(&[], &find_module_ports(&bench()), &None).unwrap();
    assert_eq!(auto.len(), 1);
    assert_eq!(auto[0].label, "station-1");
    assert_eq!(auto[0].at_port.as_deref(), Some("COM2"));
    assert_eq!(
        build_stations(&[], &[], &None).unwrap_err(),
        "no module or download port found; connect a device or pass --station"
    );
}

#[test]
fn the_port_to_flash_on() {
    let mods = find_module_ports(&bench());
    let found = find_download_port(&bench());
    let used = |r: Result<DownloadStep, &'static str>| match r {
        Ok(DownloadStep::Use(p)) => p,
        r => panic!("got {r:?}"),
    };
    assert_eq!(used(resolve_download_port(&Some("P".into()), &found, false, &mods)), "P");
    assert_eq!(used(resolve_download_port(&None, &found, true, &mods)), "COM3");
    match resolve_download_port(&None, &None, true, &mods) {
        Ok(DownloadStep::SwitchVia(p)) => assert_eq!(p, "COM2"),
        r => panic!("got {r:?}"),
    }
    assert_eq!(
        resolve_download_port(&None, &None, true, &[]).unwrap_err(),
        "no module AT port found to send AT*DOWNLOAD"
    );
    assert_eq!(
        resolve_download_port(&None, &None, false, &mods).unwrap_err(),
        "no download port (0525:a4a7) found; pass --port or --enter-download"
    );
}

#[test]
fn progress_is_shown_once_per_percent() {
    let mut m = Meter::new();
    let t = m.tick("FDL1", 1, 200);
    assert!(!t.new_line);
    assert_eq!(t.text.as_deref(), Some("\r  FDL1             0%"));
    assert_eq!(m.tick("FDL1", 1, 200).text, None);
    assert_eq!(m.tick("FDL1", 2, 200).text.as_deref(), Some("\r  FDL1             1%"));
    let t = m.tick("AP", 0, 0);
    assert!(t.new_line);
    assert_eq!(t.text.as_deref(), Some("\r  AP             100%"));
    // far out of range, the percentage is read as a signed number
    assert_eq!(m.tick("AP", u64::MAX, 1).text.as_deref(), Some("\r  AP              -1%"));
    assert_eq!(Meter::new().tick("AP", u64::MAX, 1).text, None);
}

#[test]
fn port_lines_flag_what_matters() {
    let usb = |v, p, s: &str| PortKind::Usb(v, p, Some(s.into()));
    assert_eq!(
        port_line("COM34", &usb(0x0525, 0xa4a7, "Gadget")),
        "COM34    0525:a4a7   Gadget  <- BootROM download port"
    );
    assert_eq!(
        port_line("COM5", &usb(0x1782, 0x4d00, "AT")),
        "COM5     1782:4d00   AT  <- module (normal mode)"
    );
    assert_eq!(
        port_line("X", &PortKind::Usb(1, 2, None)),
        "X        0001:0002   USB serial"
    );
    assert_eq!(port_line("X", &PortKind::Bluetooth), "X        -           Bluetooth");
    assert_eq!(port_line("X", &PortKind::Pci), "X        -           PCI");
    assert_eq!(port_line("X", &PortKind::Unknown), "X        -           Unknown");
}

#[test]
fn a_pac_at_a_glance() {
    let mut p = info();
    assert_eq!(
        info_report(&p),
        "Product : TEST_PRODUCT (V1)\nSize    : 4242 bytes\nCRC     : header ok, payload n/a\n\
         Entries :\n\nPlan    : unavailable (no FDL1 (HOST_FDL) stage in the PAC)\n"
    );
    let entry = |id: &str, name: &str, size: u32, address: u32| PacEntry {
        file_id: id.into(),
        file_name: name.into(),
        size,
        offset: 0,
        address,
        flag: 0,
        omit: 0,
    };
    p.header_crc_ok = false;
    p.payload_crc_ok = Some(true);
    p.entries = vec![
        entry("HOST_FDL", "fdl1.img", 13216, 0x0083_8000),
        entry("FLASH", "", 0, 0xFE00_0001),
        entry("FMT_FSSYS", "", 0, 0xFE00_0006),
        entry("X", "x.bin", 1, 0),
    ];
    assert_eq!(
        info_report(&p),
        "Product : TEST_PRODUCT (V1)\nSize    : 4242 bytes\nCRC     : header BAD, payload ok\n\
         Entries :\n  [fdl1  ] HOST_FDL     0x00838000       13216 B  fdl1.img\n  \
         [marker] FLASH        0xFE000001        marker  \n  \
         [marker] FMT_FSSYS    0xFE000006        marker  \n  \
         [marker] X                                 1 B  x.bin\n\n\
         Plan    : FDL1=HOST_FDL, FDL2=-, 0 partition(s), 2 erase(s), 0 data-marker(s)\n          \
         erases (--format): FLASH, FMT_FSSYS\n"
    );
}
