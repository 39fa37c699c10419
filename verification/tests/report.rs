use usbtop_ng::capture::trace::ByteOrder;
use usbtop_ng::capture::{assert_payload_free, assert_sysfs_contained, CapturedTrace};
use usbtop_ng::device::manager::DeviceManager;
use usbtop_ng::filter::FilterSet;
use usbtop_ng::fixture_corpus::{
    check_corpus_strict, discover_bundles, discover_bundles_in, find_named, fixtures_root, is_seed_bundle,
    seed_binary_from_text, sources_of, HostDir, MetaRead, StageDir,
};
use usbtop_ng::fixture_replay::{
    replay_fixture, replay_fixture_with_elapsed, report_to_golden_json, to_masked_value, Bundle, FixtureSource,
    JsonFault, Meta, FIXED_ELAPSED_NS,
};
use usbtop_ng::headless::export::{
    create_failure, enabled_features, inherited_descriptor, render_run_record_text, sink_target, ReportSink,
    RunRecord, SinkTarget,
};
use usbtop_ng::headless::{
    after_drain, after_emit, build_report, close_window, drain, is_expected_write_failure, open_window, render_text,
    source_label, Baseline, DeviceReport, DrainStatus, HeadlessOptions, Received, Report, RunError, RunStep, WriteFailure,
};
use usbtop_ng::snapshot::Snapshot;
use usbtop_ng::speed::UsbSpeed;
use usbtop_ng::sysfs::{Content, Node, Sysfs};
use usbtop_ng::usbmon::{TransferType, UrbType, UsbPacket};

const SECOND: u64 = 1_000_000_000;

fn empty() -> Sysfs {
    Sysfs { base: "/t/devices".to_string(), entries: Vec::new() }
}

fn manager() -> DeviceManager {
    DeviceManager::with_sysfs_base("/t/devices".to_string())
}

fn packet(bus: u8, device: u8, kind: TransferType, bytes: u32) -> UsbPacket {
    UsbPacket {
        urb_type: UrbType::Callback,
        bus_id: bus,
        device_id: device,
        endpoint: 1,
        direction: true,
        transfer_type: Some(kind),
        data_length: bytes,
    }
}

/// A manager that saw 1000 bytes from device 1:4, and what it had before.
fn one_transfer() -> (DeviceManager, Baseline) {
    let mut mgr = manager();
    let baseline = Baseline::capture(&mgr);
    mgr.apply_packet(&packet(1, 4, TransferType::Bulk, 1000), &empty(), 0);
    (mgr, baseline)
}

fn report_over(mgr: &DeviceManager, baseline: &Baseline, elapsed_ns: u64) -> Report {
    build_report(mgr, baseline, elapsed_ns, 0, "binary", 0, false, &FilterSet::default())
}

fn rate(bytes: u64, window_ns: u64) -> f64 {
    bytes as f64 * 1e9 / window_ns as f64
}

fn no_snapshot_devices() -> Snapshot {
    Snapshot { captured_unix: 0, devices: vec![] }
}

// The drain and the run.

#[test]
fn drain_consumes_queued_packets_before_reporting_disconnected() {
    let mut mgr = manager();
    let received = vec![Received::Packet(packet(1, 4, TransferType::Bulk, 1000)), Received::Disconnected];
    assert_eq!(drain(&mut mgr, &received, &empty(), 0), DrainStatus::Disconnected);
    assert_eq!(
        mgr.device(1, 4).unwrap().bandwidth_stats.total_rx_bytes,
        1000,
        "a dying reader's queued packets must land before the disconnect surfaces"
    );
}

#[test]
fn drain_reports_alive_while_a_sender_exists() {
    assert_eq!(drain(&mut manager(), &vec![Received::Empty], &empty(), 0), DrainStatus::Alive);
}

fn options(batch: bool, expect_capture: bool) -> HeadlessOptions {
    HeadlessOptions { json: true, batch, window_ms: 300, expect_capture }
}

#[test]
fn run_fails_when_capture_was_expected_and_every_reader_stopped() {
    let step = after_drain(DrainStatus::Disconnected, &options(false, true));
    match step {
        RunStep::Fail(err) => assert!(err.message().contains("usbmon reader")),
        other => panic!("a dead capture channel must fail the run, not report zeros: {other:?}"),
    }
    assert!(matches!(after_drain(DrainStatus::Disconnected, &options(false, false)), RunStep::Continue));
    assert!(matches!(after_drain(DrainStatus::Alive, &options(false, true)), RunStep::Continue));
}

#[test]
fn a_window_reports_what_came_in_between() {
    let mut mgr = manager();
    mgr.apply_packet(&packet(1, 4, TransferType::Bulk, 7), &empty(), 0);
    let baseline = open_window(&mut mgr, &empty(), 0);
    let received = vec![Received::Packet(packet(1, 4, TransferType::Bulk, 1000)), Received::Empty];
    let set = FilterSet::default();
    let report = close_window(
        &mut mgr, &received, &empty(), 100, &baseline, 2 * SECOND, 5, 3, true, &set, &options(false, true),
    )
    .unwrap();
    assert_eq!((report.source, report.dropped_packets, report.timestamp_ms), ("text", 3, 5));
    let dev = &report.buses[0].devices[0];
    assert_eq!((dev.rx_bytes, dev.total_rx_bytes), (1000, 1007));

    let stopped = vec![Received::Disconnected];
    let err = close_window(
        &mut mgr, &stopped, &empty(), 100, &baseline, SECOND, 5, 0, false, &set, &options(false, true),
    )
    .unwrap_err();
    assert!(matches!(err, RunError::NoCaptureSource));
}

#[test]
fn broken_pipe_is_the_only_expected_write_failure() {
    assert!(is_expected_write_failure(&WriteFailure::BrokenPipe));
    assert!(!is_expected_write_failure(&WriteFailure::Other("write zero".to_string())));
    assert!(!is_expected_write_failure(&WriteFailure::Other("permission denied".to_string())));
    assert!(!is_expected_write_failure(&WriteFailure::Other("other error".to_string())));
}

#[test]
fn a_run_ends_after_one_report_unless_it_is_a_batch() {
    assert!(matches!(after_emit(Ok(()), &options(false, true), false), RunStep::Done));
    assert!(matches!(after_emit(Ok(()), &options(true, true), false), RunStep::Continue));
    assert!(matches!(after_emit(Ok(()), &options(true, true), true), RunStep::Done));
    assert!(matches!(after_emit(Err(WriteFailure::BrokenPipe), &options(true, true), false), RunStep::Done));
    match after_emit(Err(WriteFailure::Other("disk full".to_string())), &options(true, true), false) {
        RunStep::Fail(RunError::Write(e)) => assert!(e.contains("disk full")),
        other => panic!("{other:?}"),
    }
}

// Reports.

#[test]
fn report_rates_come_from_window_deltas() {
    let (mgr, baseline) = one_transfer();
    let report = report_over(&mgr, &baseline, 2 * SECOND);
    let dev = &report.buses[0].devices[0];
    assert_eq!(rate(dev.rx_bytes, report.window_ns), 500.0, "1000 bytes over a 2s window");
    assert_eq!(dev.total_rx_bytes, 1000);
    assert_eq!(rate(report.total_rx_bytes, report.window_ns), 500.0);
    assert_eq!(rate(report.buses[0].rx_bytes, report.window_ns), 500.0);
    assert_eq!(dev.endpoints[0].endpoint, 1);
    assert_eq!(dev.endpoints[0].direction, "in");
    assert_eq!(dev.endpoints[0].transfer_type, "bulk");
    assert_eq!(rate(dev.endpoints[0].bytes, report.window_ns), 500.0);
}

#[test]
fn report_window_seconds_reflects_the_measured_elapsed_time_not_a_nominal_value() {
    let (mgr, baseline) = one_transfer();
    let report = report_over(&mgr, &baseline, 1_500_000_000);
    assert_eq!(report.window_ns, 1_500_000_000);
    assert_eq!(
        rate(report.buses[0].devices[0].rx_bytes, report.window_ns),
        1000.0 / 1.5,
        "the rate divides by the same measured elapsed time as the window reports"
    );
}

#[test]
fn build_report_floors_a_zero_elapsed_window_instead_of_dividing_by_zero() {
    let (mgr, baseline) = one_transfer();
    let report = report_over(&mgr, &baseline, 0);
    assert!(report.window_ns > 0, "a zero-elapsed window must still report a positive window");
    assert!(rate(report.total_rx_bytes, report.window_ns).is_finite());
}

#[test]
fn estimated_marks_iso_devices_only_when_text_is_active() {
    let mut mgr = manager();
    let baseline = Baseline::capture(&mgr);
    mgr.apply_packet(&packet(1, 4, TransferType::Isochronous, 27_000), &empty(), 0);
    let set = FilterSet::default();

    let not_estimated = build_report(&mgr, &baseline, SECOND, 0, "text", 0, false, &set);
    assert!(
        !not_estimated.buses[0].devices[0].estimated,
        "text_active=false must never mark a device estimated"
    );
    let estimated = build_report(&mgr, &baseline, SECOND, 0, "text", 0, true, &set);
    assert!(
        estimated.buses[0].devices[0].estimated,
        "an iso device under an active text source must be marked estimated"
    );
}

#[test]
fn report_respects_device_filters() {
    let (mgr, baseline) = one_transfer();
    let filter = FilterSet::parse(&["bus=2".into()]).unwrap();
    let report = build_report(&mgr, &baseline, SECOND, 0, "binary", 0, false, &filter);
    assert!(report.buses.is_empty(), "the only device is on bus 1, which does not match bus=2");
    assert_eq!(report.total_rx_bytes, 0);
}

#[test]
fn json_report_serializes_with_version_1() {
    let (mgr, baseline) = one_transfer();
    let report = report_over(&mgr, &baseline, SECOND);
    assert_eq!(report.version, 1);
    assert_eq!(report.buses[0].devices[0].vendor_id, None, "an unread vendor id is no placeholder string");
}

fn internal_of(mgr: &DeviceManager, baseline: &Baseline) -> Option<bool> {
    report_over(mgr, baseline, SECOND).buses[0].devices[0].internal
}

#[test]
fn internal_field_is_null_without_a_snapshot_and_true_or_false_with_one() {
    let (mut mgr, baseline) = one_transfer();
    assert_eq!(internal_of(&mgr, &baseline), None, "no snapshot loaded: internal is unknown, not false");
    // The device resolves to no sysfs path, so the snapshot stamps it false.
    mgr.set_internal_snapshot(Some(no_snapshot_devices()));
    assert_eq!(internal_of(&mgr, &baseline), Some(false));
    mgr.buses[0].devices[0].is_internal = true;
    assert_eq!(internal_of(&mgr, &baseline), Some(true));
}

#[test]
fn render_text_lists_buses_and_devices() {
    let (mgr, baseline) = one_transfer();
    let text = render_text(&report_over(&mgr, &baseline, SECOND));
    assert!(text.contains("bus 1"), "{text}");
    assert!(text.contains("1:4"), "{text}");
    assert!(text.contains("rx"), "{text}");
}

#[test]
fn render_text_marks_internal_devices_with_an_i_cell_and_pads_external_ones() {
    let (mut mgr, baseline) = one_transfer();
    mgr.set_internal_snapshot(Some(no_snapshot_devices()));
    let row = |mgr: &DeviceManager| {
        let text = render_text(&report_over(mgr, &baseline, SECOND));
        text.lines().find(|l| l.contains("1:4")).unwrap().to_string()
    };
    let external = row(&mgr);
    assert!(external.contains("1:4     ----:----"), "an external row's marker cell is a space: {external}");
    mgr.buses[0].devices[0].is_internal = true;
    let internal = row(&mgr);
    assert!(internal.contains("1:4  i  ----:----"), "an internal row carries the i marker: {internal}");
}

#[test]
fn render_text_uses_the_shared_integral_bare_speed_format() {
    let (mut mgr, _) = one_transfer();
    mgr.buses[0].speed = UsbSpeed::from_mbps(480);
    let baseline = Baseline::capture(&mgr);
    let text = render_text(&report_over(&mgr, &baseline, SECOND));
    let bus_row = text.lines().find(|l| l.starts_with("bus 1")).unwrap();
    assert!(bus_row.contains("480 Mbps"), "bus row must use the shared bare-integral format: {bus_row}");
}

#[test]
fn render_text_keeps_one_decimal_for_a_fractional_device_speed() {
    let (mut mgr, _) = one_transfer();
    mgr.buses[0].devices[0].speed = UsbSpeed::from_bps(1_500_000);
    let baseline = Baseline::capture(&mgr);
    let text = render_text(&report_over(&mgr, &baseline, SECOND));
    let device_row = text.lines().find(|l| l.contains("1:4")).unwrap();
    assert!(device_row.contains("1.5 Mbps"), "device row must keep the fractional digit: {device_row}");
}

#[test]
fn the_bus_sums_its_devices_and_the_report_its_buses() {
    let mut mgr = manager();
    let baseline = Baseline::capture(&mgr);
    for (bus, device, bytes) in [(1, 4, 100), (1, 5, 20), (2, 3, 3)] {
        mgr.apply_packet(&packet(bus, device, TransferType::Bulk, bytes), &empty(), 0);
    }
    let report = report_over(&mgr, &baseline, SECOND);
    let sums: Vec<(u8, u64)> = report.buses.iter().map(|b| (b.bus, b.rx_bytes)).collect();
    assert_eq!(sums, [(1, 120), (2, 3)]);
    assert_eq!(report.total_rx_bytes, 123);
    assert_eq!(report.total_tx_bytes, 0);
}

#[test]
fn the_label_says_which_source_was_read() {
    assert_eq!(source_label(true), "text");
    assert_eq!(source_label(false), "binary");
}

// Exports.

fn run() -> RunRecord {
    RunRecord {
        record: "run",
        usbtop_ng: "9.9.9".into(),
        features: vec![],
        started_unix: 1_788_000_000,
        window_ms: 1_500,
        batch: true,
        filters: vec!["bus=1".into()],
        command: vec!["usbtop-ng".into(), "--batch".into()],
        backend: "mmap".into(),
        kernel: "7.0.0-30-generic".into(),
        os: "Linux Mint 22.3".into(),
        arch: "x86_64".into(),
        buses: vec![0, 1],
    }
}

#[test]
fn json_file_export_leads_with_the_run_record() {
    let sink = ReportSink::from_open_file("/t/run.ndjson").wrote().wrote();
    assert_eq!(sink.finish(), Some((2, "/t/run.ndjson".to_string())), "the run record is not a report");
}

#[test]
fn text_file_export_leads_with_a_comment_block() {
    let text = render_run_record_text(&run());
    assert!(text.starts_with("# usbtop_ng: 9.9.9\n"), "{text}");
    assert!(text.contains("# backend: mmap\n"));
    assert!(text.contains("# command: usbtop-ng --batch\n"));
    assert!(text.contains("# filters: bus=1\n"));
    assert!(text.lines().all(|l| l.starts_with("# ") || l.is_empty()), "{text}");
}

#[test]
fn stdout_sink_has_no_header_and_nothing_to_announce() {
    assert!(matches!(sink_target(None), SinkTarget::Stdout));
    assert!(ReportSink::Stdout.finish().is_none());
    assert!(ReportSink::Stdout.wrote().finish().is_none());
}

#[test]
fn unwritable_output_path_fails_at_open() {
    let message = create_failure("/t/missing-dir/run.ndjson", "No such file or directory (os error 2)", false);
    assert!(message.starts_with("could not create "), "{message}");
    assert!(message.contains("/t/missing-dir/run.ndjson"), "{message}");
}

#[test]
fn a_symlink_at_the_output_path_is_refused_and_its_target_untouched() {
    let message = create_failure("/t/run.ndjson", "Too many levels of symbolic links (os error 40)", true);
    assert!(message.starts_with("could not create "), "{message}");
    assert!(message.contains("symbolic link"), "{message}");
}

#[test]
fn an_eloop_from_an_ancestor_is_not_blamed_on_the_leaf() {
    let message = create_failure("/t/a/run.ndjson", "Too many levels of symbolic links (os error 40)", false);
    assert!(message.starts_with("could not create "), "{message}");
    assert!(
        !message.contains("symbolic link, and --output"),
        "a loop in the ancestors is not 'PATH is a symlink': {message}"
    );
}

#[test]
fn dev_fd_paths_duplicate_the_descriptor_instead_of_opening_a_path() {
    assert!(matches!(sink_target(Some("/dev/fd/7")), SinkTarget::Descriptor(7)));
    assert!(matches!(sink_target(Some("/dev/stdout")), SinkTarget::Descriptor(1)));
    assert!(matches!(sink_target(Some("/t/run.ndjson")), SinkTarget::Path));
}

#[test]
fn inherited_descriptor_recognizes_only_the_standard_forms() {
    assert_eq!(inherited_descriptor("/dev/stdout"), Some(1));
    assert_eq!(inherited_descriptor("/dev/stderr"), Some(2));
    assert_eq!(inherited_descriptor("/dev/fd/7"), Some(7));
    assert_eq!(inherited_descriptor("/dev/fd/-1"), None);
    assert_eq!(inherited_descriptor("/dev/fd/x"), None);
    assert_eq!(inherited_descriptor("/dev/stdin"), None);
    assert_eq!(inherited_descriptor("/tmp/dev/stdout"), None);
}

#[test]
fn enabled_features_is_sorted_and_only_names_real_features() {
    for bits in 0..8 {
        let f = enabled_features(bits & 1 != 0, bits & 2 != 0, bits & 4 != 0);
        let mut sorted = f.clone();
        sorted.sort_unstable();
        assert_eq!(f, sorted);
        for name in &f {
            assert!(["capture-fixture", "ebpf", "integration"].contains(name));
        }
        assert_eq!(f.len(), (bits as u32).count_ones() as usize);
    }
}

// Replays.

#[test]
fn source_round_trips_through_its_tag() {
    assert_eq!(FixtureSource::from_tag("binary"), Some(FixtureSource::Binary));
    assert_eq!(FixtureSource::from_tag("text"), Some(FixtureSource::Text));
    assert_eq!(FixtureSource::from_tag("mmap"), None);
    assert_eq!(FixtureSource::Binary.trace_filename(), "trace.bin");
    assert_eq!(FixtureSource::Text.golden_filename(), "golden.text.json");
}

#[test]
fn tag_matches_label_for_both_sources() {
    assert_eq!(FixtureSource::Binary.tag(), FixtureSource::Binary.label());
    assert_eq!(FixtureSource::Text.tag(), FixtureSource::Text.label());
    assert_eq!(FixtureSource::Binary.tag(), "binary");
    assert_eq!(FixtureSource::Text.tag(), "text");
}

#[test]
fn to_masked_value_drops_only_the_timestamp_key() {
    let v = to_masked_value(r#"{"version":1,"timestamp":123.5,"source":"binary"}"#).unwrap();
    assert!(v.get("timestamp").is_none(), "timestamp removed");
    assert_eq!(v["version"], 1);
    assert_eq!(v["source"], "binary");
    assert!(matches!(to_masked_value("not json"), Err(JsonFault::Unreadable)));
}

#[test]
fn fixed_elapsed_is_exactly_one_second() {
    assert_eq!(FIXED_ELAPSED_NS, 1_000_000_000);
}

#[test]
fn report_to_golden_json_strips_timestamp_and_pretty_prints_with_trailing_newline() {
    let report = r#"{"version":1,"timestamp":123.5,"window_seconds":1.0,"source":"binary","buses":[]}"#;
    let json = report_to_golden_json(serde_json::from_str(report).unwrap()).unwrap();
    assert!(json.ends_with('\n'), "trailing newline");
    assert!(json.trim_end().contains('\n'), "pretty-printed (multi-line)");
    let value: serde_json::Value = serde_json::from_str(&json).unwrap();
    assert!(value.get("timestamp").is_none(), "timestamp stripped");
    assert_eq!(value["version"], 1);
    assert_eq!(value["source"], "binary");
}

fn file(name: &str, text: &str) -> Node {
    Node { name: name.to_string(), link: None, canonical: None, content: Content::Text(text.to_string()) }
}

fn dir(name: &str, canonical: &str, entries: Vec<Node>) -> Node {
    Node {
        name: name.to_string(),
        link: None,
        canonical: Some(canonical.to_string()),
        content: Content::Directory(entries),
    }
}

fn min_bundle() -> Sysfs {
    let usb1 = || vec![file("busnum", "1\n"), file("devnum", "1\n"), file("speed", "480\n")];
    Sysfs {
        base: "/t/sysfs".to_string(),
        entries: vec![
            dir("0000:00:14.0", "/t/sysfs/0000:00:14.0", vec![dir("usb1", "/t/sysfs/0000:00:14.0/usb1", usb1())]),
            Node {
                link: Some("0000:00:14.0/usb1".to_string()),
                ..dir("usb1", "/t/sysfs/0000:00:14.0/usb1", usb1())
            },
            dir(
                "1-1",
                "/t/sysfs/1-1",
                vec![
                    file("busnum", "1\n"),
                    file("devnum", "3\n"),
                    file("speed", "480\n"),
                    file("idVendor", "0430\n"),
                    file("idProduct", "0100\n"),
                ],
            ),
        ],
    }
}

fn device(report: &Report, address: u8) -> &DeviceReport {
    report.buses.iter().flat_map(|b| b.devices.iter()).find(|d| d.address == address).unwrap()
}

#[test]
fn replay_binary_produces_a_deterministic_report_with_controller_and_speed() {
    let packets = vec![packet(1, 3, TransferType::Bulk, 1000)];
    let report = replay_fixture(&min_bundle(), None, FixtureSource::Binary, &packets, 0, 7);
    assert_eq!(report.source, "binary");
    assert_eq!(report.window_ns, SECOND);
    let bus = &report.buses[0];
    assert_eq!(bus.bus, 1);
    assert_eq!(bus.controller.as_deref(), Some("0000:00:14.0"));
    assert_eq!(bus.speed, UsbSpeed::from_mbps(480));
    // The root hub sorts ahead of 1-1.
    let dev = device(&report, 3);
    assert_eq!(bus.devices[0].address, 1);
    assert_eq!(dev.total_rx_bytes, 1000);
    assert_eq!(rate(dev.rx_bytes, report.window_ns), 1000.0, "1000 bytes over the fixed 1s window");
    assert_eq!(dev.vendor_id.as_deref(), Some("0430"));

    // Replaying twice is identical.
    let again = replay_fixture(&min_bundle(), None, FixtureSource::Binary, &packets, 0, 7);
    assert_eq!(format!("{again:?}"), format!("{report:?}"));
}

#[test]
fn a_replay_does_not_depend_on_when_it_runs() {
    let packets = vec![
        packet(2, 9, TransferType::Bulk, 50),
        packet(1, 3, TransferType::Isochronous, 1000),
        packet(1, 3, TransferType::Bulk, 24),
    ];
    let early = replay_fixture(&min_bundle(), None, FixtureSource::Text, &packets, 0, 7);
    let late = replay_fixture(&min_bundle(), None, FixtureSource::Text, &packets, 86_400_000, 7);
    assert_eq!(format!("{early:?}"), format!("{late:?}"));
    assert_eq!(early.buses.len(), 2);
    assert_eq!(early.buses[1].controller, None, "nothing names the controller of bus 2");
    assert_eq!(early.buses[1].speed.bps, 0);
}

#[test]
fn a_static_replay_shows_the_devices_without_traffic() {
    let packets = vec![packet(1, 3, TransferType::Bulk, 1000)];
    let report = replay_fixture_with_elapsed(&min_bundle(), None, None, &packets, 5 * SECOND, 0, 0);
    assert_eq!(report.source, "none");
    assert_eq!(report.window_ns, 5 * SECOND);
    assert_eq!(device(&report, 3).total_rx_bytes, 0);
}

#[test]
fn replay_text_labels_source_text_end_to_end() {
    let packets = vec![packet(1, 3, TransferType::Bulk, 1000)];
    let report = replay_fixture(&min_bundle(), None, FixtureSource::Text, &packets, 0, 0);
    assert_eq!(report.source, "text");
    assert_eq!(device(&report, 3).total_rx_bytes, 1000);
    assert!(!device(&report, 3).estimated);
}

// The corpus.

fn meta(sources: &[&str]) -> MetaRead {
    MetaRead::Parsed(Meta {
        sources: sources.iter().map(|s| s.to_string()).collect(),
        controllers: Vec::new(),
        speed_classes: Vec::new(),
    })
}

fn stage(name: &str, meta: MetaRead, has_binary_trace: bool) -> StageDir {
    StageDir { name: name.to_string(), is_dir: true, meta, has_binary_trace, has_text_trace: false }
}

fn host(name: &str, stages: Vec<StageDir>) -> HostDir {
    HostDir { name: name.to_string(), is_dir: true, stages: Ok(stages) }
}

fn missing() -> MetaRead {
    MetaRead::Unreadable("No such file or directory (os error 2)".to_string())
}

#[test]
fn discovery_finds_stage_dirs_with_meta_sorted_by_path() {
    let hosts = vec![
        // A stage dir without meta.toml is ignored.
        host("board-b", vec![stage("stage1", missing(), false)]),
        host("board-a", vec![stage("stage1", meta(&["binary"]), true)]),
    ];
    let bundles = discover_bundles_in("/t", &hosts);
    assert_eq!(bundles.len(), 1);
    assert_eq!(bundles[0].meta.sources, vec!["binary".to_string()]);
    assert!(bundles[0].meta.controllers.is_empty());
    assert!(bundles[0].meta.speed_classes.is_empty());
    assert!(bundles[0].dir.ends_with("board-a/stage1"));

    let hosts = vec![
        host("b", vec![stage("2", meta(&[]), false), stage("1", meta(&[]), false)]),
        host("a", vec![stage("9", meta(&[]), false)]),
    ];
    let found: Vec<String> = discover_bundles_in("/t", &hosts).into_iter().map(|b| b.dir).collect();
    assert_eq!(found, ["/t/a/9", "/t/b/1", "/t/b/2"]);
}

#[test]
fn discover_bundles_resolves_the_manifest_relative_corpus_root_without_panicking() {
    let gone = Err("No such file or directory (os error 2)".to_string());
    assert!(discover_bundles("/t/project", &gone).is_empty());
    assert!(fixtures_root("/t/project").starts_with("/t/project/"));
}

#[test]
fn the_sources_are_those_whose_tag_is_known() {
    let bundle = Bundle {
        dir: "/t/a/1".to_string(),
        meta: Meta {
            sources: vec!["text".to_string(), "mmap".to_string(), "binary".to_string()],
            controllers: Vec::new(),
            speed_classes: Vec::new(),
        },
    };
    assert_eq!(sources_of(&bundle), [FixtureSource::Text, FixtureSource::Binary]);
}

fn strict(meta: MetaRead, has_binary_trace: bool) -> Result<(), String> {
    check_corpus_strict("/t", &Ok(vec![host("host-a", vec![stage("stage1", meta, has_binary_trace)])]))
}

#[test]
fn fails_closed_on_a_broken_meta_toml() {
    let err = strict(MetaRead::Malformed("expected `=`".to_string()), false).unwrap_err();
    assert!(err.contains("/t/host-a/stage1/meta.toml"), "error must name the offending path: {err}");
    let err = strict(missing(), false).unwrap_err();
    assert!(err.contains("/t/host-a/stage1/meta.toml"), "{err}");
}

#[test]
fn fails_closed_on_an_unrecognized_source_tag() {
    let err = strict(meta(&["binary", "bogus"]), true).unwrap_err();
    assert!(err.contains("bogus"), "error must name the tag: {err}");
    assert!(err.contains("/t/host-a/stage1/meta.toml"), "error must name the offending path: {err}");
    let err = strict(meta(&["a\"b"]), true).unwrap_err();
    assert!(err.contains("\"a\\\"b\""), "the tag is quoted and escaped: {err}");
}

#[test]
fn fails_closed_on_a_missing_declared_trace_file() {
    let err = strict(meta(&["binary"]), false).unwrap_err();
    assert!(err.contains("trace.bin"), "{err}");
}

#[test]
fn accepts_a_wellformed_bundle() {
    strict(meta(&["binary"]), true).unwrap();
    strict(meta(&[]), false).unwrap();
}

#[test]
fn fails_closed_on_a_directory_that_cannot_be_listed() {
    assert!(check_corpus_strict("/t", &Err("Permission denied (os error 13)".to_string())).is_err());
    let locked = HostDir {
        name: "host-a".to_string(),
        is_dir: true,
        stages: Err("Permission denied (os error 13)".to_string()),
    };
    assert!(check_corpus_strict("/t", &Ok(vec![locked])).unwrap_err().contains("/t/host-a"));
}

fn native() -> ByteOrder {
    if 1u16.to_ne_bytes() == 1u16.to_le_bytes() {
        ByteOrder::Little
    } else {
        ByteOrder::Big
    }
}

#[test]
fn sec1_no_binary_payload() {
    let packets = vec![packet(1, 3, TransferType::Bulk, 1000), packet(2, 9, TransferType::Control, 8)];
    let bytes = seed_binary_from_text(&packets, native());
    assert_eq!(bytes.len() % 48, 0, "a whole header count");
    for record in bytes.chunks_exact(48) {
        assert_eq!(u32::from_ne_bytes(record[36..40].try_into().unwrap()), 0);
    }
    assert_eq!(bytes[8], b'C');
    assert_eq!(bytes[9], 3, "bulk");
    assert_eq!(bytes[10], 0x81, "ep1 IN");
    assert_eq!(bytes[11], 3);
    assert_eq!(u16::from_ne_bytes([bytes[12], bytes[13]]), 1);
    assert_eq!(u32::from_ne_bytes(bytes[32..36].try_into().unwrap()), 1000);
    let trace = CapturedTrace { source: FixtureSource::Binary, bytes, kernel_dropped: None };
    assert!(assert_payload_free(&trace, native()).is_ok());
}

#[test]
fn sec1_no_text_data_tag() {
    let trace = |line: &str| CapturedTrace {
        source: FixtureSource::Text,
        bytes: line.as_bytes().to_vec(),
        kernel_dropped: None,
    };
    assert!(assert_payload_free(&trace("ffff0000aaaa0001 200 C Bi:1:003:1 0 1000 <\n"), native()).is_ok());
    assert!(assert_payload_free(&trace("ffff0000aaaa0001 200 C Bi:1:003:1 0 4 = 00010203\n"), native()).is_err());
}

#[test]
fn sec2_sysfs_paths_stay_inside_the_bundle() {
    let resolved = |name: &str, canonical: &str| Node { canonical: Some(canonical.to_string()), ..file(name, "1\n") };
    let inside = vec![dir("1-1", "/t/sysfs/1-1", vec![resolved("busnum", "/t/sysfs/1-1/busnum")])];
    assert!(assert_sysfs_contained(&inside, "/t/sysfs").is_ok());
    let outside = vec![dir("1-1", "/t/elsewhere/1-1", Vec::new())];
    assert!(assert_sysfs_contained(&outside, "/t/sysfs").is_err());
}

#[test]
fn a_search_finds_a_name_wherever_it_stands() {
    let corpus = vec![
        dir("a", "/t/a", vec![file("trace.bin", ""), dir("deep", "/t/a/deep", vec![file("trace.bin", "")])]),
        file("trace.txt", ""),
    ];
    let mut found = find_named("/t", Some("/t"), &corpus, "trace.bin");
    found.sort();
    assert_eq!(found, ["/t/a/deep/trace.bin", "/t/a/trace.bin"]);
}

#[test]
fn only_a_seed_host_is_blessed() {
    let bundle = |dir: &str| Bundle {
        dir: dir.to_string(),
        meta: Meta { sources: Vec::new(), controllers: Vec::new(), speed_classes: Vec::new() },
    };
    assert!(is_seed_bundle(&bundle("/t/hosts/seed-hub/stage1")));
    assert!(!is_seed_bundle(&bundle("/t/hosts/mainrag-1/stage2")));
}

#[test]
fn a_fresh_baseline_shows_no_traffic_on_devices_and_endpoints() {
    let (mut mgr, _) = one_transfer();
    mgr.apply_packet(&packet(2, 7, TransferType::Interrupt, 64), &empty(), 0);
    let report = report_over(&mgr, &Baseline::capture(&mgr), 0);
    assert_eq!((report.total_rx_bytes, report.total_tx_bytes), (0, 0));
    assert_eq!(report.buses.len(), 2);
    for bus in &report.buses {
        assert_eq!((bus.rx_bytes, bus.tx_bytes), (0, 0));
        for device in &bus.devices {
            assert_eq!((device.rx_bytes, device.tx_bytes), (0, 0));
            assert!(device.total_rx_bytes > 0);
            assert_eq!(device.endpoints.iter().map(|e| e.bytes).collect::<Vec<_>>(), vec![0]);
            assert!(device.endpoints[0].total_bytes > 0);
        }
    }
}
