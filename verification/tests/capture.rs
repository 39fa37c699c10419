use usbtop_ng::capture::meta::{build_meta, compute_coverage_tags, gather_host_identity, HostIdentity};
use usbtop_ng::capture::root::{
    dirs_to_create, read_base_for, record_top, refuse_parent_components, FixtureRoot, MkdirOutcome, RootFault,
};
use usbtop_ng::capture::sanitize::{sanitize_binary_header, sanitize_text_line};
use usbtop_ng::capture::sysfs::{materialize_sysfs, FixtureStep};
use usbtop_ng::capture::trace::{sanitize_binary_stream, sanitize_text_stream, ByteOrder, NotUtf8};
use usbtop_ng::capture::{
    assemble_bundle, assert_payload_free, assert_sysfs_contained, binary_device, run_capture_fixture,
    sanitize_window, stage_id_from_outdir, text_device, BaselineSource, BundleFault, BundleStep, CaptureFault, CaptureFixtureOpts,
    CapturedTrace, ContainmentFault, PayloadFault, RawCapture,
};
use usbtop_ng::device::manager::DeviceManager;
use usbtop_ng::diag::collect::HostRoots;
use usbtop_ng::filter::FilterSet;
use usbtop_ng::fixture_replay::{FixtureSource, FIXED_ELAPSED_NS};
use usbtop_ng::headless::{build_report, Baseline, BusReport, DeviceReport, EndpointReport, Report};
use usbtop_ng::path::relative_path;
use usbtop_ng::speed::UsbSpeed;
use usbtop_ng::sysfs::{Content, Node, Sysfs};

fn native() -> ByteOrder {
    if 1u16.to_ne_bytes() == 1u16.to_le_bytes() {
        ByteOrder::Little
    } else {
        ByteOrder::Big
    }
}

fn file(name: &str, text: &str) -> Node {
    Node { name: name.to_string(), link: None, canonical: None, content: Content::Text(text.to_string()) }
}

fn dir(name: &str, entries: Vec<Node>) -> Node {
    Node { name: name.to_string(), link: None, canonical: None, content: Content::Directory(entries) }
}

fn at(canonical: &str, node: Node) -> Node {
    Node { canonical: Some(canonical.to_string()), ..node }
}

fn link_to(name: &str, target: &str) -> Node {
    Node {
        name: name.to_string(),
        link: Some(target.to_string()),
        canonical: Some(target.to_string()),
        content: Content::Directory(Vec::new()),
    }
}

fn steps_below<'a>(steps: &'a [FixtureStep], prefix: &str) -> Vec<&'a FixtureStep> {
    steps
        .iter()
        .filter(|s| {
            let path = match s {
                FixtureStep::Directory { path } => path,
                FixtureStep::File { path, .. } => path,
                FixtureStep::Link { path, .. } => path,
            };
            path.starts_with(prefix)
        })
        .collect()
}

fn written(steps: &[FixtureStep], wanted: &str) -> Option<Vec<u8>> {
    steps.iter().find_map(|s| match s {
        FixtureStep::File { path, bytes } if path == wanted => Some(bytes.clone()),
        _ => None,
    })
}

fn linked(steps: &[FixtureStep], wanted: &str) -> Option<String> {
    steps.iter().find_map(|s| match s {
        FixtureStep::Link { path, target } if path == wanted => Some(target.clone()),
        _ => None,
    })
}

fn made(steps: &[FixtureStep], wanted: &str) -> bool {
    steps.iter().any(|s| matches!(s, FixtureStep::Directory { path } if path == wanted))
}

// Sanitizing headers and lines.

#[test]
fn binary_sanitizer_zeroes_len_cap_and_preserves_length() {
    let mut header = [0u8; 48];
    header[8] = b'C';
    header[32..36].copy_from_slice(&1000u32.to_ne_bytes());
    header[36..40].copy_from_slice(&512u32.to_ne_bytes());

    let out = sanitize_binary_header(&header);
    assert_eq!(&out[36..40], &0u32.to_ne_bytes(), "len_cap zeroed");
    assert_eq!(&out[32..36], &1000u32.to_ne_bytes(), "length preserved");
    assert_eq!(out[8], b'C', "type preserved");
}

#[test]
fn text_sanitizer_elides_captured_data_to_a_bare_marker() {
    let line = "ffff0000aaaa0001 200 C Bi:1:003:1 0 512 = 00 11 22 33";
    assert_eq!(sanitize_text_line(line), "ffff0000aaaa0001 200 C Bi:1:003:1 0 512 <");
}

#[test]
fn text_sanitizer_leaves_a_no_data_line_semantically_unchanged() {
    let line = "ffff0000aaaa0001 200 C Bi:1:004:1 0 1000 <";
    assert_eq!(sanitize_text_line(line), line);
}

#[test]
fn text_sanitizer_keeps_the_control_setup_header_but_drops_the_data() {
    let line = "ffff880067b00300 373151059 S Ci:2:001:0 s a3 00 0000 0003 0004 4 <";
    assert_eq!(sanitize_text_line(line), line);
}

#[test]
fn text_sanitizer_leaves_a_bare_error_line_unchanged() {
    let line = "ffff88006fff3800 2453805583 E Bi:1:004:1 -108";
    assert_eq!(sanitize_text_line(line), line);
}

#[test]
fn sanitizing_a_line_twice_changes_nothing_more() {
    let once = sanitize_text_line("a 1 C Bo:1:004:2 0 64 > 00 > 11");
    assert_eq!(once, "a 1 C Bo:1:004:2 0 64 <");
    assert_eq!(sanitize_text_line(&once), once);
}

// Sanitizing streams.

fn event(t: u8, epnum: u8, devnum: u8, busnum: u16, length: u32, payload: &[u8]) -> Vec<u8> {
    let mut b = vec![0u8; 48];
    b[8] = t;
    b[9] = 3;
    b[10] = epnum;
    b[11] = devnum;
    b[12..14].copy_from_slice(&busnum.to_ne_bytes());
    b[32..36].copy_from_slice(&length.to_ne_bytes());
    b[36..40].copy_from_slice(&(payload.len() as u32).to_ne_bytes());
    b.extend_from_slice(payload);
    b
}

#[test]
fn binary_stream_drops_payload_and_keeps_framing() {
    let mut raw = Vec::new();
    raw.extend(event(b'C', 0x81, 3, 1, 1000, &[0xAB; 16]));
    raw.extend(event(b'C', 0x82, 4, 1, 64, &[]));
    let out = sanitize_binary_stream(&raw, native());
    assert_eq!(out.len(), 96, "two headers, no payload");
    assert_eq!(&out[36..40], &0u32.to_ne_bytes(), "first len_cap zeroed");
    assert_eq!(&out[32..36], &1000u32.to_ne_bytes(), "first length kept");
    assert_eq!(out[48 + 11], 4, "second event's devnum aligned after the drop");
}

#[test]
fn binary_stream_drops_a_truncated_trailing_header() {
    let mut raw = event(b'C', 0x81, 3, 1, 64, &[]);
    raw.extend_from_slice(&[0u8; 20]);
    let out = sanitize_binary_stream(&raw, native());
    assert_eq!(out.len(), 48, "only the one complete event survives");
}

#[test]
fn binary_stream_drops_a_complete_header_whose_claimed_payload_is_truncated() {
    let mut raw = vec![0u8; 48];
    raw[8] = b'C';
    raw[9] = 3;
    raw[36..40].copy_from_slice(&64u32.to_ne_bytes());
    raw.extend_from_slice(&[0xAB; 30]);
    let out = sanitize_binary_stream(&raw, native());
    assert!(out.is_empty(), "the trailing event is dropped, not just truncated");
}

#[test]
fn text_stream_sanitizes_each_complete_line() {
    let raw = "ffff0000aaaa0001 200 C Bi:1:003:1 0 512 = 00 11\n\
               ffff0000bbbb0002 300 C Bo:1:004:2 0 64 >\n\
               ffff0000cccc0003 400 C Bi:1:005:1 0 128 = 22";
    let out = sanitize_text_stream(raw.as_bytes().to_vec()).unwrap();
    assert_eq!(
        out,
        "ffff0000aaaa0001 200 C Bi:1:003:1 0 512 <\n\
         ffff0000bbbb0002 300 C Bo:1:004:2 0 64 <\n",
        "two complete lines sanitized; the newline-less trailing line dropped"
    );
    assert!(!out.contains('='), "SEC-1: no data tag survives");
    assert_eq!(sanitize_text_stream(out.as_bytes().to_vec()), Ok(out.clone()), "sanitized text stays");
}

#[test]
fn a_text_stream_that_is_not_utf8_is_refused() {
    assert_eq!(sanitize_text_stream(vec![0x66, 0xff, 0x0a]), Err(NotUtf8));
}

#[test]
fn the_byte_order_decides_the_payload_length() {
    let mut raw = vec![0u8; 48];
    raw[36] = 4;
    raw.extend_from_slice(&[1, 2, 3, 4]);
    assert_eq!(sanitize_binary_stream(&raw, ByteOrder::Little).len(), 48);
    assert_eq!(sanitize_binary_stream(&raw, ByteOrder::Big).len(), 0, "a huge claim is a cut event");
}

// Payload checks.

fn one_binary_event() -> Vec<u8> {
    let mut b = vec![0u8; 48];
    b[8] = b'C';
    b[9] = 3;
    b[10] = 0x81;
    b[11] = 3;
    b[12..14].copy_from_slice(&1u16.to_ne_bytes());
    b[32..36].copy_from_slice(&1000u32.to_ne_bytes());
    b
}

#[test]
fn assert_payload_free_rejects_a_binary_trace_whose_len_cap_claims_payload() {
    let mut bytes = vec![0u8; 48];
    bytes[36..40].copy_from_slice(&48u32.to_ne_bytes());
    bytes.extend_from_slice(&[0xAB; 48]);
    assert_eq!(bytes.len() % 48, 0, "precondition: a whole header count");

    let trace = CapturedTrace { source: FixtureSource::Binary, bytes, kernel_dropped: None };
    let err = assert_payload_free(&trace, native()).unwrap_err();
    assert!(err.message().contains("SEC-1"), "{}", err.message());
    assert_eq!(err.message(), "SEC-1: binary trace record 0 carries len_cap=48 (payload leaked?)");
}

#[test]
fn every_payload_fault_has_its_input() {
    let trace = |source, bytes: &[u8]| CapturedTrace { source, bytes: bytes.to_vec(), kernel_dropped: None };
    assert!(matches!(
        assert_payload_free(&trace(FixtureSource::Binary, &[0; 52]), native()),
        Err(PayloadFault::Cut { len: 52 })
    ));
    assert!(matches!(
        assert_payload_free(&trace(FixtureSource::Text, &[0xff]), native()),
        Err(PayloadFault::NotUtf8)
    ));
    assert!(matches!(
        assert_payload_free(&trace(FixtureSource::Text, b"a 1 C Bi:1:003:1 0 2 = 00\n"), native()),
        Err(PayloadFault::DataTag)
    ));
    assert!(assert_payload_free(&trace(FixtureSource::Text, b"a 1 C Bi:1:003:1 0 2 <\n"), native()).is_ok());
    assert!(assert_payload_free(&trace(FixtureSource::Binary, &one_binary_event()), native()).is_ok());
}

// A capture window.

#[test]
fn a_window_keeps_what_each_interface_gave() {
    let raw = RawCapture { bytes: event(b'C', 0x81, 3, 1, 1000, &[0xAB; 16]), kernel_dropped: Some(7) };
    let text = RawCapture { bytes: b"a 1 C Bi:1:003:1 0 2 = 00\n".to_vec(), kernel_dropped: None };
    let out = sanitize_window(0, Ok(raw), Ok(text), native());
    let traces = out.traces.unwrap();
    assert_eq!(traces.len(), 2);
    assert_eq!(traces[0].source, FixtureSource::Binary);
    assert_eq!(traces[0].bytes.len(), 48);
    assert_eq!(traces[0].kernel_dropped, Some(7));
    assert_eq!(traces[1].bytes, b"a 1 C Bi:1:003:1 0 2 <\n".to_vec());
    assert_eq!(out.warnings.len(), 1, "{:?}", out.warnings);
}

#[test]
fn a_window_without_an_interface_or_with_broken_text_fails() {
    let none = sanitize_window(3, Err("gone".to_string()), Err("gone".to_string()), native());
    assert!(matches!(none.traces, Err(CaptureFault::NoInterface { bus: 3 })));
    let bad = RawCapture { bytes: vec![0xff, 0x0a], kernel_dropped: None };
    let broken = sanitize_window(3, Err("gone".to_string()), Ok(bad), native());
    assert!(matches!(broken.traces, Err(CaptureFault::TextNotUtf8)));
}

#[test]
fn the_devices_of_a_bus_and_the_defaults_of_a_capture() {
    assert_eq!(binary_device(3), "/dev/usbmon3");
    assert_eq!(text_device(3), "/sys/kernel/debug/usb/usbmon/3u");
    let opts = CaptureFixtureOpts { outdir: "/x/stage2".into(), window_ms: 1000, bus: None, baseline: None };
    assert_eq!(opts.bus(), 0);
    assert!(matches!(opts.baseline_source(), BaselineSource::CaptureFrom(_)));
    assert_eq!(stage_id_from_outdir("/x/stage2"), Some(2));
    assert_eq!(stage_id_from_outdir("/x/stagex"), None);
    assert_eq!(stage_id_from_outdir("/x/board"), None);
}

// Materializing the tree.

fn build_src() -> Vec<Node> {
    vec![
        at(
            "/t/real/0000:00:14.0/usb1",
            dir("usb1", vec![file("busnum", "1\n"), file("devnum", "1\n"), file("speed", "480\n")]),
        ),
        at(
            "/t/devices/1-1",
            dir(
                "1-1",
                vec![file("busnum", "1\n"), file("devnum", "3\n"), file("idVendor", "0430\n")],
            ),
        ),
        at("/t/devices/1-1:1.0", dir("1-1:1.0", Vec::new())),
    ]
}

#[test]
fn materializes_devices_and_the_single_relative_controller_symlink() {
    let steps = materialize_sysfs(&build_src(), "sysfs");
    assert_eq!(written(&steps, "sysfs/1-1/devnum"), Some(b"3\n".to_vec()));
    assert!(steps_below(&steps, "sysfs/1-1:1.0").is_empty(), "interface dir dropped");
    assert_eq!(linked(&steps, "sysfs/usb1").as_deref(), Some("0000:00:14.0/usb1"));
    assert_eq!(written(&steps, "sysfs/0000:00:14.0/usb1/speed"), Some(b"480\n".to_vec()));
    let links = steps.iter().filter(|s| matches!(s, FixtureStep::Link { .. })).count();
    assert_eq!(links, 1, "no other symlink");

    // Controller resolves through a manager pointed at the bundle.
    let bundle = tree_of(&steps, "/t/bundle");
    let mut manager = DeviceManager::with_sysfs_base("/t/bundle/sysfs".to_string());
    manager.enumerate_present_devices(&bundle, 0);
    manager.update_bus_speeds(&bundle);
    assert_eq!(manager.bus(1).unwrap().controller.as_deref(), Some("0000:00:14.0"));
}

/// The tree that steps leave under `sysfs/` of the directory `root`.
fn tree_of(steps: &[FixtureStep], root: &str) -> Sysfs {
    let files = |path: &str| -> Vec<Node> {
        steps
            .iter()
            .filter_map(|s| match s {
                FixtureStep::File { path: p, bytes } => {
                    let name = p.strip_prefix(&format!("{path}/"))?;
                    let text = String::from_utf8(bytes.clone()).unwrap();
                    (!name.contains('/')).then(|| file(name, &text))
                }
                _ => None,
            })
            .collect()
    };
    let entries = steps
        .iter()
        .filter_map(|s| match s {
            FixtureStep::Directory { path } => {
                let name = path.strip_prefix("sysfs/")?;
                (!name.contains('/')).then(|| at(&format!("{root}/{path}"), dir(name, files(path))))
            }
            FixtureStep::Link { path, target } => {
                let name = path.strip_prefix("sysfs/")?;
                let real = format!("sysfs/{target}");
                (!name.contains('/')).then(|| Node {
                    link: Some(target.clone()),
                    ..at(&format!("{root}/{real}"), dir(name, files(&real)))
                })
            }
            FixtureStep::File { .. } => None,
        })
        .collect();
    Sysfs { base: format!("{root}/sysfs"), entries }
}

#[test]
fn a_serial_is_never_copied() {
    let attrs = vec![file("busnum", "1\n"), file("devnum", "3\n"), file("serial", "SECRET\n")];
    let steps = materialize_sysfs(&vec![at("/t/devices/1-1", dir("1-1", attrs))], "sysfs");
    assert_eq!(written(&steps, "sysfs/1-1/devnum"), Some(b"3\n".to_vec()));
    assert_eq!(written(&steps, "sysfs/1-1/serial"), None);
}

#[test]
fn a_capture_run_plans_its_bundle() {
    let opts = |baseline: Option<&str>| CaptureFixtureOpts {
        outdir: "/t/hosts/board/stage7".to_string(),
        window_ms: 100,
        bus: None,
        baseline: baseline.map(str::to_string),
    };
    let raw = |bytes: &[u8]| Ok(RawCapture { bytes: bytes.to_vec(), kernel_dropped: None });
    let gone = || Err("No such file or directory (os error 2)".to_string());
    let line = b"ffff0000aaaa0001 200 C Bi:1:003:1 0 4 = 00010203\n";

    let run = run_capture_fixture(&opts(None), gone(), raw(line), false, &build_src(), native());
    assert_eq!(run.warnings.len(), 1);
    assert!(run.warnings[0].contains("/dev/usbmon0"), "{:?}", run.warnings);
    let plan = run.outcome.unwrap();
    assert_eq!(plan.traces.len(), 1);
    assert!(!plan.traces[0].bytes.contains(&b'='), "the data is elided");
    assert_eq!(plan.stage_id, Some(7));
    assert_eq!(plan.fault, None);
    assert!(matches!(plan.steps.last(), Some(BundleStep::WriteMeta { .. })));
    assert!(matches!(plan.baseline, BaselineSource::CaptureFrom(p) if p == "/sys/bus/usb/devices"));
    assert_eq!(plan.done, "captured fixture bundle at /t/hosts/board/stage7");

    let stale = run_capture_fixture(&opts(Some("/t/b.toml")), gone(), raw(line), true, &build_src(), native());
    let plan = stale.outcome.unwrap();
    assert_eq!(plan.fault, Some(BundleFault::Stale));
    assert!(matches!(plan.baseline, BaselineSource::CopyFile(p) if p == "/t/b.toml"));
    let none = run_capture_fixture(&opts(None), gone(), gone(), false, &build_src(), native());
    assert_eq!(none.outcome.unwrap_err(), CaptureFault::NoInterface { bus: 0 });
}

#[test]
fn controllers_tag_resolves_through_a_root_hub_symlink() {
    let usb1 = || vec![file("busnum", "1\n"), file("devnum", "1\n"), file("speed", "480\n")];
    let tree = Sysfs {
        base: "/t/sysfs".to_string(),
        entries: vec![
            at("/t/sysfs/0000:00:14.0", dir("0000:00:14.0", vec![dir("usb1", usb1())])),
            Node {
                link: Some("0000:00:14.0/usb1".to_string()),
                ..at("/t/sysfs/0000:00:14.0/usb1", dir("usb1", usb1()))
            },
        ],
    };
    let mut manager = DeviceManager::with_sysfs_base("/t/sysfs".to_string());
    let baseline = Baseline::capture(&manager);
    manager.enumerate_present_devices(&tree, 0);
    manager.update_bus_speeds(&tree);
    let report =
        build_report(&manager, &baseline, FIXED_ELAPSED_NS, 0, "binary", 0, false, &FilterSet::default());
    let tags = compute_coverage_tags(&report);
    assert_eq!(tags.controllers, vec!["0000:00:14.0".to_string()]);
}

#[test]
fn unresolved_controller_falls_back_to_a_real_dir_whose_replayed_controller_is_the_enclosing_dir_name() {
    let entries = vec![
        Node {
            name: "usb1".to_string(),
            link: Some("/t/devices/nonexistent-controller".to_string()),
            canonical: None,
            content: Content::Absent,
        },
        at(
            "/t/devices/1-1",
            dir("1-1", vec![file("busnum", "1\n"), file("devnum", "3\n"), file("idVendor", "0430\n")]),
        ),
    ];
    let steps = materialize_sysfs(&entries, "sysfs");
    assert!(made(&steps, "sysfs/usb1"));
    assert_eq!(linked(&steps, "sysfs/usb1"), None);
    let mut dirs: Vec<&str> = steps
        .iter()
        .filter_map(|s| match s {
            FixtureStep::Directory { path } => path.strip_prefix("sysfs/"),
            _ => None,
        })
        .collect();
    dirs.sort();
    assert_eq!(dirs, ["1-1", "usb1"]);

    // A replay takes the enclosing directory's own name for the controller.
    let replayed = tree_of(&steps, "/t");
    let mut manager = DeviceManager::with_sysfs_base("/t/sysfs".to_string());
    manager.enumerate_present_devices(&replayed, 0);
    manager.update_bus_speeds(&replayed);
    assert_eq!(manager.bus(1).unwrap().controller.as_deref(), Some("sysfs"));
}

fn port(hub: &str, n: u32, mut attrs: Vec<Node>, peer: Option<&str>) -> Node {
    if let Some(p) = peer {
        attrs.push(link_to("peer", p));
    }
    dir(&format!("{hub}-port{n}"), attrs)
}

fn with_interface(mut node: Node, hub: &str, ports: Vec<Node>) -> Node {
    if let Content::Directory(entries) = &mut node.content {
        entries.push(dir(&format!("{hub}:1.0"), ports));
    }
    node
}

fn build_src_with_ports() -> Vec<Node> {
    let usb1 = at(
        "/t/real/0000:00:14.0/usb1",
        dir("usb1", vec![file("busnum", "1\n"), file("devnum", "1\n"), file("speed", "480\n")]),
    );
    let usb2 = at(
        "/t/real/0000:00:14.0/usb2",
        dir("usb2", vec![file("busnum", "2\n"), file("devnum", "1\n"), file("speed", "5000\n")]),
    );
    let one = at("/t/devices/1-1", dir("1-1", vec![file("busnum", "1\n"), file("devnum", "3\n")]));
    let two = at("/t/devices/2-1", dir("2-1", vec![file("busnum", "2\n"), file("devnum", "3\n")]));
    vec![
        with_interface(
            usb1,
            "usb1",
            vec![
                port(
                    "usb1",
                    1,
                    vec![
                        file("connect_type", "hotplug\n"),
                        file("location", "0x80000001\n"),
                        file("state", "enabled\n"),
                        dir("physical_location", vec![file("panel", "top\n")]),
                    ],
                    Some("/t/real/0000:00:14.0/usb2/usb2:1.0/usb2-port1"),
                ),
                port("usb1", 2, vec![file("connect_type", "hardwired\n")], None),
            ],
        ),
        with_interface(
            usb2,
            "usb2",
            vec![port(
                "usb2",
                1,
                vec![file("connect_type", "hotplug\n"), file("location", "0x80000001\n")],
                Some("/t/real/0000:00:14.0/usb1/usb1:1.0/usb1-port1"),
            )],
        ),
        with_interface(
            one,
            "1-1",
            vec![
                port("1-1", 1, vec![file("connect_type", "unknown\n")], Some("/t/devices/2-1/2-1:1.0/2-1-port1")),
                port("1-1", 2, Vec::new(), Some("/t/elsewhere/9-1:1.0/9-1-port2")),
            ],
        ),
        with_interface(
            two,
            "2-1",
            vec![port("2-1", 1, vec![file("connect_type", "unknown\n")], Some("/t/devices/1-1/1-1:1.0/1-1-port1"))],
        ),
    ]
}

#[test]
fn copies_hub_port_objects_with_relative_reciprocal_peer_links() {
    let steps = materialize_sysfs(&build_src_with_ports(), "sysfs");
    let u1p1 = "sysfs/0000:00:14.0/usb1/usb1:1.0/usb1-port1";
    assert_eq!(written(&steps, &format!("{u1p1}/connect_type")), Some(b"hotplug\n".to_vec()));
    assert_eq!(written(&steps, &format!("{u1p1}/location")), Some(b"0x80000001\n".to_vec()));
    assert_eq!(written(&steps, &format!("{u1p1}/state")), None);
    assert!(steps_below(&steps, &format!("{u1p1}/physical_location")).is_empty());
    assert_eq!(steps_below(&steps, &format!("{u1p1}/")).len(), 3, "connect_type, location, peer");
    assert_eq!(linked(&steps, &format!("{u1p1}/peer")).as_deref(), Some("../../../usb2/usb2:1.0/usb2-port1"));
    assert_eq!(
        linked(&steps, "sysfs/1-1/1-1:1.0/1-1-port1/peer").as_deref(),
        Some("../../../2-1/2-1:1.0/2-1-port1")
    );
    assert_eq!(
        linked(&steps, "sysfs/2-1/2-1:1.0/2-1-port1/peer").as_deref(),
        Some("../../../1-1/1-1:1.0/1-1-port1")
    );
    assert_eq!(linked(&steps, "sysfs/0000:00:14.0/usb1/usb1:1.0/usb1-port2/peer"), None);
    assert!(made(&steps, "sysfs/1-1/1-1:1.0/1-1-port2"));
    assert_eq!(linked(&steps, "sysfs/1-1/1-1:1.0/1-1-port2/peer"), None);
}

#[test]
fn a_port_whose_peer_names_itself_gets_no_link() {
    let mut entries = build_src();
    let device = entries.remove(1);
    entries.insert(
        1,
        with_interface(
            device,
            "1-1",
            vec![port("1-1", 1, vec![file("connect_type", "hotplug\n")], Some("/t/devices/1-1/1-1:1.0/1-1-port1"))],
        ),
    );
    let steps = materialize_sysfs(&entries, "sysfs");
    let out = "sysfs/1-1/1-1:1.0/1-1-port1";
    assert_eq!(written(&steps, &format!("{out}/connect_type")), Some(b"hotplug\n".to_vec()));
    assert_eq!(steps_below(&steps, &format!("{out}/")).len(), 1, "no self-peer link is written");
}

#[test]
fn relative_path_walks_up_then_down() {
    assert_eq!(
        relative_path("/b/3-1/3-1:1.0/3-1-port4", "/b/4-1/4-1:1.0/4-1-port4"),
        "../../../4-1/4-1:1.0/4-1-port4"
    );
    assert_eq!(
        relative_path("/b/c/usb3/3-0:1.0/usb3-port1", "/b/c/usb4/4-0:1.0/usb4-port1"),
        "../../../usb4/4-0:1.0/usb4-port1"
    );
    assert_eq!(relative_path("/b/x", "/b/x"), "");
}

// Assembling a bundle.

fn trace(source: FixtureSource, bytes: Vec<u8>, kernel_dropped: Option<u64>) -> CapturedTrace {
    CapturedTrace { source, bytes, kernel_dropped }
}

#[test]
fn assemble_bundle_writes_a_replayable_bundle_whose_golden_equals_replay() {
    let traces = vec![
        trace(FixtureSource::Binary, one_binary_event(), None),
        trace(FixtureSource::Text, b"ffff0000aaaa0001 200 C Bi:1:003:1 0 1000 <\n".to_vec(), None),
    ];
    let (steps, fault) = assemble_bundle(false, &build_src(), &traces, native());
    assert!(fault.is_none());
    let golden = |s| steps.iter().any(|x| matches!(x, BundleStep::WriteGolden(g) if *g == s));
    assert!(golden(FixtureSource::Binary) && golden(FixtureSource::Text));
    assert!(steps.iter().any(|x| matches!(x, BundleStep::CheckContained)));
    assert!(steps.iter().any(|x| matches!(x, BundleStep::WriteBaseline)));
    assert!(steps.iter().any(|x| matches!(x, BundleStep::WriteTrace(0))));
    assert!(steps.iter().any(|x| matches!(x, BundleStep::WriteTrace(1))));
    match steps.last() {
        Some(BundleStep::WriteMeta { sources, binary_kernel_dropped }) => {
            assert_eq!(sources, &vec![FixtureSource::Binary, FixtureSource::Text]);
            assert_eq!(*binary_kernel_dropped, None);
        }
        other => panic!("meta.toml comes last: {other:?}"),
    }
}

#[test]
fn assemble_bundle_rejects_a_binary_trace_carrying_payload() {
    let mut bad = one_binary_event();
    bad.extend_from_slice(&[0xAB; 4]);
    let (_, fault) = assemble_bundle(false, &build_src(), &vec![trace(FixtureSource::Binary, bad, None)], native());
    let text = fault.unwrap().message("sysfs");
    assert!(text.contains("SEC-1"), "{text}");
}

#[test]
fn assemble_bundle_rejects_a_stale_nonempty_sysfs_dir() {
    let traces = vec![trace(FixtureSource::Binary, one_binary_event(), None)];
    let (steps, fault) = assemble_bundle(true, &build_src(), &traces, native());
    let text = fault.unwrap().message("/out/sysfs");
    assert!(text.contains("sysfs"), "{text}");
    assert!(text.contains("fresh outdir"), "{text}");
    assert!(steps.is_empty(), "nothing else gets written");
}

#[test]
fn assemble_bundle_records_binary_kernel_drops_in_meta() {
    let traces = vec![trace(FixtureSource::Binary, one_binary_event(), Some(7))];
    let (steps, fault) = assemble_bundle(false, &build_src(), &traces, native());
    assert!(fault.is_none());
    assert!(steps
        .iter()
        .any(|s| matches!(s, BundleStep::WriteMeta { binary_kernel_dropped: Some(7), .. })));
}

#[test]
fn a_bundle_without_traces_is_static() {
    let (steps, fault) = assemble_bundle(false, &build_src(), &Vec::new(), native());
    assert_eq!(fault, None);
    assert!(!steps.iter().any(|s| matches!(s, BundleStep::WriteTrace(_) | BundleStep::WriteGolden(_))));
    match steps.last() {
        Some(BundleStep::WriteMeta { sources, binary_kernel_dropped: None }) => assert!(sources.is_empty()),
        other => panic!("{other:?}"),
    }
}

// Containment.

#[test]
fn a_tree_is_contained_unless_an_entry_escapes_or_does_not_resolve() {
    let inside = vec![at("/b/sysfs/1-1", dir("1-1", vec![at("/b/sysfs/1-1/busnum", file("busnum", "1\n"))]))];
    assert!(assert_sysfs_contained(&inside, "/b/sysfs").is_ok());
    let outside = vec![at("/etc", link_to("escape", "/etc"))];
    match assert_sysfs_contained(&outside, "/b/sysfs") {
        Err(f) => {
            assert!(f.message().contains("SEC-2"), "{}", f.message());
            assert!(matches!(f, ContainmentFault::Escapes(p) if p == "/b/sysfs/escape"));
        }
        Ok(()) => panic!("the link escapes"),
    }
    let dangling = vec![dir("x", Vec::new())];
    assert!(matches!(assert_sysfs_contained(&dangling, "/b/sysfs"), Err(ContainmentFault::Unresolved(_))));
}

// The fixture directory.

#[test]
fn create_refuses_a_parent_component_in_the_output_directory() {
    let err = FixtureRoot::create("/t/new/../fixture", 5, true, None).unwrap_err();
    assert!(matches!(err, RootFault::ParentComponent(_)));
    assert_eq!(
        err.message(),
        "the output directory /t/new/../fixture contains `..`; give it as a plain path"
    );
    assert!(refuse_parent_components("/t/new/..fixture").is_ok());
}

#[test]
fn a_fixture_meant_to_be_committed_asks_for_readable_modes() {
    let committed = FixtureRoot::create("/t/out", 5, true, None).unwrap();
    let private = FixtureRoot::beneath("fixture", "/t/bundle/fixture", 6, true).unwrap();
    assert_eq!((committed.dir_mode, committed.file_mode), (0o755, 0o644));
    assert_eq!((private.dir_mode, private.file_mode), (0o700, 0o600));
}

#[test]
fn the_read_base_is_the_descriptor_with_procfs_and_refused_without() {
    let root = FixtureRoot::create("/t/out", 7, true, None).unwrap();
    assert!(root.read_base().starts_with("/proc/self/fd/"));
    let with = read_base_for(7, true).unwrap();
    assert_eq!(with, "/proc/self/fd/7");
    let err = read_base_for(7, false).unwrap_err();
    assert!(matches!(err, RootFault::NoProcfs));
    assert!(err.message().contains("procfs is not mounted"));
    assert!(FixtureRoot::create("/t/out", 7, false, None).is_err());
}

#[test]
fn the_ownership_pass_hands_over_exactly_what_the_run_created() {
    // `<board>-<date>/stage2` where the date directory does not exist yet.
    let dirs = dirs_to_create("/t/tgl-2026-09-12/stage2");
    assert_eq!(dirs, ["/", "/t", "/t/tgl-2026-09-12", "/t/tgl-2026-09-12/stage2"]);
    let mut top = None;
    for (d, outcome) in dirs.iter().zip([
        MkdirOutcome::Existed,
        MkdirOutcome::Existed,
        MkdirOutcome::Created,
        MkdirOutcome::Created,
    ]) {
        record_top(&mut top, d, &outcome).unwrap();
    }
    assert_eq!(top.as_deref(), Some("/t/tgl-2026-09-12"));
    let root = FixtureRoot::create("/t/tgl-2026-09-12/stage2", 5, true, top).unwrap();
    assert_eq!(root.owned_paths(), vec!["/t/tgl-2026-09-12".to_string()]);

    let again =
        FixtureRoot::create("/t/tgl-2026-09-12/stage3", 5, true, Some("/t/tgl-2026-09-12/stage3".into())).unwrap();
    assert_eq!(again.owned_paths(), vec!["/t/tgl-2026-09-12/stage3".to_string()]);

    // A directory that already existed, with a pre-existing sysfs/ in it.
    let mut reused = FixtureRoot::create("/t/existing", 5, true, None).unwrap();
    assert!(reused.owned_paths().is_empty(), "nothing written yet");
    reused.record("sysfs/1-1/ep", Some(1));
    reused.record("sysfs/1-1/ep2", Some(2));
    reused.record("sysfs/1-1/busnum", Some(2));
    reused.record("sysfs/usb1", Some(1));
    reused.record("trace.bin", None);
    reused.record("./meta.toml", None);
    reused.record("meta.toml", Some(0));
    reused.record("link", Some(0));
    assert_eq!(
        reused.owned_paths(),
        vec![
            "/t/existing/link".to_string(),
            "/t/existing/meta.toml".to_string(),
            "/t/existing/sysfs/1-1".to_string(),
            "/t/existing/sysfs/usb1".to_string(),
        ],
        "the topmost entry each write created, with ep, ep2 and busnum folded into sysfs/1-1"
    );
}

#[test]
fn a_failed_mkdir_still_reports_the_top() {
    let mut top = Some("/t/a".to_string());
    assert_eq!(record_top(&mut top, "/t/a/b", &MkdirOutcome::Failed("no".into())), Err("no".to_string()));
    assert_eq!(top.as_deref(), Some("/t/a"));
}

#[test]
fn errors_name_the_directory_as_given_not_the_descriptor() {
    let root = FixtureRoot::create("/t/out", 9, true, None).unwrap();
    let base = root.read_base();
    let text = root.describe(&format!("payload found in {base}/trace.bin"));
    assert!(!text.contains("/proc/self/fd"), "{text}");
    assert!(text.ends_with("/out/trace.bin"), "{text}");
    assert_eq!(root.describe("nothing to reword"), "nothing to reword");
}

#[test]
fn beneath_pins_a_child_of_a_pinned_root_and_refuses_a_link_there() {
    let fixture = FixtureRoot::beneath("fixture", "/t/bundle/fixture", 4, true).unwrap();
    assert_eq!(fixture.logical(), "/t/bundle/fixture");
    assert_eq!(fixture.display(), "fixture");
}

// Coverage tags and meta.

fn endpoint(transfer_type: &'static str) -> EndpointReport {
    EndpointReport { endpoint: 1, direction: "in", transfer_type, bytes: 0, total_bytes: 0 }
}

fn device(bps: u64, endpoints: Vec<EndpointReport>) -> DeviceReport {
    DeviceReport {
        bus: 1,
        address: 3,
        port: None,
        vendor_id: None,
        product_id: None,
        vendor: None,
        product: None,
        speed: UsbSpeed::from_bps(bps),
        rx_bytes: 0,
        tx_bytes: 0,
        total_rx_bytes: 0,
        total_tx_bytes: 0,
        estimated: false,
        internal: None,
        endpoints,
    }
}

fn report(controller: Option<&str>, devices: Vec<DeviceReport>) -> Report {
    Report {
        version: 1,
        timestamp_ms: 0,
        window_ns: 1_000_000_000,
        source: "binary",
        dropped_packets: 0,
        total_rx_bytes: 0,
        total_tx_bytes: 0,
        buses: vec![BusReport {
            bus: 1,
            speed: UsbSpeed::from_mbps(480),
            controller: controller.map(str::to_string),
            rx_bytes: 0,
            tx_bytes: 0,
            devices,
        }],
    }
}

#[test]
fn coverage_tags_are_distinct_sorted_and_skip_zero_speed() {
    let tags = compute_coverage_tags(&report(
        Some("0000:00:14.0"),
        vec![
            device(480_000_000, vec![endpoint("interrupt"), endpoint("bulk")]),
            device(12_000_000, vec![endpoint("bulk")]),
            device(480_000_000, Vec::new()),
            device(0, Vec::new()),
        ],
    ));
    assert_eq!(tags.controllers, ["0000:00:14.0"]);
    assert_eq!(tags.speed_classes, ["12", "480"]);
    assert_eq!(tags.transfer_types, ["bulk", "interrupt"]);
}

#[test]
fn speed_classes_keep_the_fraction_for_a_low_speed_device_instead_of_truncating() {
    let tags = compute_coverage_tags(&report(None, vec![device(1_500_000, Vec::new())]));
    assert_eq!(tags.speed_classes, ["1.5"]);
    assert!(tags.controllers.is_empty());
}

fn host_identity() -> HostIdentity {
    HostIdentity {
        board: "board".into(),
        soc: "soc".into(),
        arch: "x86_64".into(),
        kernel: "7.0".into(),
        os: "Test OS".into(),
    }
}

#[test]
fn build_meta_emits_the_three_keys_the_harness_reads() {
    let r = report(Some("0000:00:14.0"), vec![device(480_000_000, vec![endpoint("bulk")])]);
    let meta = build_meta(
        &r,
        &vec![FixtureSource::Binary, FixtureSource::Text],
        Some(2),
        None,
        host_identity(),
        "9.9.9",
        42,
    );
    assert_eq!(meta.sources, ["binary", "text"]);
    assert_eq!(meta.controllers, ["0000:00:14.0"]);
    assert_eq!(meta.speed_classes, ["480"]);
    assert_eq!(meta.transfer_types, ["bulk"]);
    assert_eq!(meta.stage_id, Some(2));
    assert_eq!(meta.captured_unix, 42);
    assert_eq!(meta.usbtop_ng_version, "9.9.9");
    assert_eq!(meta.os, "Test OS");
}

#[test]
fn build_meta_records_the_binary_kernel_drop_count_when_reported() {
    let r = report(None, Vec::new());
    let with = build_meta(&r, &vec![FixtureSource::Binary], None, Some(7), host_identity(), "1", 0);
    assert_eq!(with.binary_kernel_dropped, Some(7));
    let without = build_meta(&r, &vec![FixtureSource::Binary], None, None, host_identity(), "1", 0);
    assert_eq!(without.binary_kernel_dropped, None);
}

#[test]
fn the_host_identity_prefers_the_device_tree() {
    let none: Vec<Node> = Vec::new();
    let proc_root = vec![dir("sys", vec![dir("kernel", vec![file("osrelease", "7.0.0\n")])])];
    let etc_root = vec![file("os-release", "NAME=x\nPRETTY_NAME=\"Test OS\"\n")];
    let dmi_root = vec![file("product_name", "Board\n")];
    let tree = vec![file("model", "Pi\0"), file("compatible", "a\0b\0")];
    let on_dmi = gather_host_identity(
        &HostRoots {
            proc_root: &proc_root,
            sys_root: &none,
            etc_root: &etc_root,
            dmi_root: &dmi_root,
            device_tree_root: &none,
        },
        "x86_64",
    );
    assert_eq!((on_dmi.board.as_str(), on_dmi.soc.as_str()), ("Board", ""));
    assert_eq!((on_dmi.kernel.as_str(), on_dmi.os.as_str()), ("7.0.0", "Test OS"));
    let on_tree = gather_host_identity(
        &HostRoots {
            proc_root: &proc_root,
            sys_root: &none,
            etc_root: &etc_root,
            dmi_root: &dmi_root,
            device_tree_root: &tree,
        },
        "aarch64",
    );
    assert_eq!((on_tree.board.as_str(), on_tree.soc.as_str()), ("Pi", "a b"));
}

#[test]
fn a_line_without_data_is_trimmed_and_unchanged() {
    let line = "ffff88006fff3800  2453805583 E Bi:1:004:1 -108";
    assert_eq!(sanitize_text_line(line), line);
    assert_eq!(sanitize_text_line(&format!(" \t{line}  ")), line);
    assert_eq!(sanitize_text_line("a  1 C Bi:1:004:1 0  8 = 00"), "a 1 C Bi:1:004:1 0 8 <");
    let stream = format!(" {line} \n");
    assert_eq!(sanitize_text_stream(stream.into_bytes()).unwrap(), format!("{line}\n"));
}

#[test]
fn a_tree_with_an_unlistable_directory_is_refused() {
    let entries = vec![Node {
        name: "usb1".to_string(),
        link: None,
        canonical: Some("/t/sysfs/usb1".to_string()),
        content: Content::Unlisted("Permission denied (os error 13)".to_string()),
    }];
    let fault = assert_sysfs_contained(&entries, "/t/sysfs").unwrap_err();
    assert_eq!(fault.message(), "Permission denied (os error 13)");
}
