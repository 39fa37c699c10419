use usbtop_ng::diag::bundle::BundleWriter;
use usbtop_ng::diag::collect::{collect_build, collect_terminal, BuildFacts, ConfigReads, HostInfo, HostRoots};
use usbtop_ng::diag::note;
use usbtop_ng::diag::redact::Redactor;
use usbtop_ng::diag::summary::{
    backend_line, capture_line, devices_line, display_archive, format_size, host_line, redacted_line, render_summary,
    usbmon_line, version_line, with_commas, ArchiveState, CaptureState, Summary, GUIDANCE,
};
use usbtop_ng::diag::support::{
    after_assembly, after_capture, archived, mask_notes, note_static_fixture_written, part_write, prepare_dir,
    replay_source, run_support, write_fixture, Body, CaptureOutcome, Environment, FixtureTask, PrepareFault, Reads,
    Roots, SupportOpts,
};
use usbtop_ng::diag::usbmon::{collect_usbmon, BackendInfo, NodeProbe};
use usbtop_ng::fixture_replay::FixtureSource;
use usbtop_ng::sysfs::{Content, Node};
use usbtop_ng::table::NameTable;
use usbtop_ng::usbmon::UsbmonStatus;

const GONE: &str = "No such file or directory (os error 2)";

// Where the bundle goes.

#[test]
fn prepare_dir_places_the_bundle_inside_a_directory_target() {
    let p = prepare_dir("/t/out", 1_788_000_000, "/t/out", false).unwrap();
    assert_eq!(p.dir, "/t/out/usbtop-ng-support-20260829T104000Z");
    assert_eq!(p.archive, "/t/out/usbtop-ng-support-20260829T104000Z.tar.gz");
}

#[test]
fn prepare_dir_treats_a_tar_gz_target_as_the_archive_name() {
    let p = prepare_dir("/t/bug-42.tar.gz", 0, "/t", false).unwrap();
    assert_eq!(p.dir, "/t/usbtop-ng-support-19700101T000000Z");
    assert_eq!(p.archive, "/t/bug-42.tar.gz");
}

#[test]
fn prepare_dir_refuses_an_existing_bundle_directory() {
    let err = prepare_dir("/t", 0, "/t", true).unwrap_err();
    assert!(err.message().contains("already exists"), "{}", err.message());
    assert!(matches!(err, PrepareFault::AlreadyExists(_)));
}

#[test]
fn the_live_roots_follow_the_home_and_the_given_file() {
    let roots = Roots::live(Some("/home/alice"), Some("/t/prefs.toml"), Some("/x"), Vec::new());
    assert_eq!(roots.config_dir.as_deref(), Some("/home/alice/.usbtop-ng"));
    assert_eq!(roots.preferences_file.as_deref(), Some("/t/prefs.toml"));
    assert_eq!(Roots::live(None, None, Some("/x"), Vec::new()).preferences_file.as_deref(), Some("/x"));
    assert_eq!(roots.sysfs_devices, "/sys/bus/usb/devices");
}

// Whether a capture runs.

fn status(available: bool) -> UsbmonStatus {
    UsbmonStatus {
        module_loaded: available,
        debugfs_mounted: available,
        usbmon_available: available,
        binary_available: available,
        text_available: available,
        permission_denied: false,
        available_buses: if available { vec![0, 1] } else { Vec::new() },
    }
}

fn environment(uid: u32, usbmon: Result<UsbmonStatus, String>) -> Environment {
    Environment {
        usbmon,
        terminal: collect_terminal(&|_: &str| None, None, false, false, "not probed: test"),
        effective_uid: uid,
        under_sudo: false,
        rust_log: None,
        virtualization: Some("none".to_string()),
        dmesg: Err("permission denied".to_string()),
        usbids: None,
    }
}

#[test]
fn capture_decision_explains_each_skip() {
    let root_ok = environment(0, Ok(status(true)));
    assert_eq!(root_ok.capture_decision(false), Ok(()));
    assert_eq!(root_ok.capture_decision(true).unwrap_err(), "skipped: --no-capture");
    let user = environment(1000, Ok(status(true)));
    assert!(user.capture_decision(false).unwrap_err().contains("not running as root"));
    let no_usbmon = environment(0, Ok(status(false)));
    assert!(no_usbmon.capture_decision(false).unwrap_err().contains("no usbmon interface"));
    let broken = environment(0, Err("boom".to_string()));
    assert!(broken.capture_decision(false).unwrap_err().contains("no usbmon interface"));
}

#[test]
fn note_static_fixture_written_only_appends_to_a_failed_state_and_never_touches_skipped() {
    let mut failed = CaptureState::Failed("failed: boom".to_string());
    note_static_fixture_written(&mut failed);
    assert_eq!(capture_line(&failed), "failed: boom; static fixture written instead");

    let mut skipped = CaptureState::Skipped("skipped: --no-capture".to_string());
    note_static_fixture_written(&mut skipped);
    assert_eq!(capture_line(&skipped), "skipped: --no-capture");
}

#[test]
fn a_failed_capture_is_followed_by_a_static_fixture() {
    assert!(matches!(write_fixture(Ok(())), FixtureTask::Capture));
    let captured = CaptureOutcome {
        sources: vec![FixtureSource::Text, FixtureSource::Binary],
        events: 3,
        binary_kernel_dropped: Some(0),
    };
    match after_capture(1_000, Ok(captured)) {
        FixtureTask::Done(state) => assert_eq!(replay_source(&state), Some(FixtureSource::Binary)),
        other => panic!("{other:?}"),
    }
    let state = match after_capture(1_000, Err("boom".to_string())) {
        FixtureTask::Assemble { clear: true, state } => state,
        other => panic!("{other:?}"),
    };
    assert_eq!(replay_source(&state), None);
    let mut said = Vec::new();
    let state = after_assembly(state, Err("disk full".to_string()), &mut said);
    assert_eq!(capture_line(&state), "failed: boom", "the fallback is never claimed before it worked");
    let told: Vec<(&str, &str)> = said.iter().map(|n| (n.item.as_str(), n.reason.as_str())).collect();
    assert_eq!(
        told,
        [("fixture", "could not write the static fixture: disk full"), ("capture", "failed: boom")]
    );
}

// The summary.

fn build_facts() -> BuildFacts {
    BuildFacts {
        version: "1.5.0".to_string(),
        arch: "x86_64".to_string(),
        rustc: None,
        capture_fixture: false,
        ebpf: false,
        integration: false,
    }
}

#[test]
fn summary_lines_match_the_spec_shapes() {
    let mut r = Redactor::new(None);
    let build = collect_build(build_facts(), &vec!["usbtop-ng".to_string()], None, 0, false, &mut r);
    let version = version_line(&build);
    assert!(version.starts_with("usbtop-ng 1.5.0 (features: "), "{version}");
    assert!(version.ends_with("x86_64"), "{version}");

    let host = HostInfo {
        kernel: "7.0.0-30-generic".into(),
        proc_version: String::new(),
        os: "Linux Mint 22.3".into(),
        board: "MG-VCP17A-3080".into(),
        soc: String::new(),
        cpu_model: String::new(),
        cpu_count: 0,
        mem_total_kb: None,
        uptime_s: None,
        virtualization: None,
        cmdline: String::new(),
        lockdown: String::new(),
        usbcore_params: NameTable::new(),
    };
    assert_eq!(host_line(&host), "Linux 7.0.0-30-generic, Linux Mint 22.3, MG-VCP17A-3080");

    let (usbmon_info, _) =
        collect_usbmon(&Ok(status(true)), "/nonexistent", &Vec::new(), &Err(GONE.to_string()));
    assert_eq!(
        usbmon_line(&usbmon_info, true),
        "module loaded, 2 buses, no /dev/usbmon* nodes, running as root"
    );

    let backend = BackendInfo {
        would_select: "mmap",
        reason: String::new(),
        probed_bus: Some(0),
        ring_bytes: Some(64 * 1024 * 1024),
        ebpf_built_in: false,
        btf_present: true,
    };
    assert_eq!(
        backend_line(&backend),
        "mmap ring (64 MiB) would be selected; eBPF: BTF present, not built in"
    );

    let captured = CaptureState::Captured {
        window_ms: 5_000,
        sources: vec![FixtureSource::Binary, FixtureSource::Text],
        events: 1234,
        kernel_dropped: Some(0),
    };
    assert_eq!(
        capture_line(&captured),
        "5.0 s aggregate, 1,234 events, kernel drops 0, sources binary+text"
    );
    assert_eq!(capture_line(&CaptureState::Skipped("skipped: --no-capture".into())), "skipped: --no-capture");

    let rules = |v: &[(&str, usize)]| v.iter().map(|(n, c)| (n.to_string(), *c)).collect::<Vec<_>>();
    assert_eq!(
        redacted_line(&rules(&[("home_path", 3), ("mac_address", 1)])),
        "3 home paths, 1 MAC address; host identity never collected; device serials included"
    );
    assert_eq!(
        redacted_line(&rules(&[("user_name", 1)])),
        "1 user name; host identity never collected; device serials included"
    );
    assert_eq!(
        redacted_line(&rules(&[("home_path", 2), ("user_name", 2)])),
        "2 home paths, 2 user names; host identity never collected; device serials included"
    );
    assert_eq!(
        redacted_line(&rules(&[])),
        "nothing rewritten; host identity never collected; device serials included"
    );
    assert_eq!(
        redacted_line(&rules(&[("build_stamp", 1)])),
        "1 build stamp; host identity never collected; device serials included"
    );
    assert_eq!(with_commas(1_234_567), "1,234,567");
    assert_eq!(format_size(412_300), "412 KB");
    assert_eq!(format_size(3_400_000), "3.4 MB");
}

#[test]
fn display_archive_never_shows_the_home_path() {
    let home = Some("/home/alice");
    assert_eq!(
        display_archive("/home/alice/bug.tar.gz", Some("/home/alice"), home),
        "./bug.tar.gz",
        "under the cwd: shown relative to it"
    );
    assert_eq!(
        display_archive("/home/alice/bugs/bug.tar.gz", Some("/tmp/elsewhere"), home),
        "~/bugs/bug.tar.gz",
        "under home but not the cwd: the home rule applies"
    );
    assert_eq!(
        display_archive("/tmp/x/bug.tar.gz", Some("/var/run"), home),
        "/tmp/x/bug.tar.gz",
        "neither under the cwd nor under home: unchanged"
    );
}

#[test]
fn render_summary_has_the_ten_line_layout() {
    let summary = Summary {
        dir_name: "usbtop-ng-support-20260903T091500Z".into(),
        archive: ArchiveState::Written("./usbtop-ng-support-20260903T091500Z.tar.gz".to_string(), 412_300),
        file_count: 14,
        version: "usbtop-ng 1.5.0 (features: none) x86_64".into(),
        host: "Linux 7.0.0-30-generic, Linux Mint 22.3, MG-VCP17A-3080".into(),
        usbmon: "module loaded, 4 buses, /dev/usbmon* root:root 0600, running as root".into(),
        backend: "mmap ring (64 MiB) would be selected; eBPF: BTF present, not built in".into(),
        capture: "5.0 s aggregate, 1,234 events, kernel drops 0, sources binary+text".into(),
        devices: "21 across 4 buses (1.5/12/480/5000/10000 Mbps)".into(),
        notes: vec![note("dmesg", "permission denied")],
        redacted: "3 home paths; host identity never collected; device serials included".into(),
    };
    let text = render_summary(&summary);
    // Two leading spaces before each label, and each label padded so every
    // value starts in the same column.
    let lines = [
        "usbtop-ng support bundle",
        "  bundle:   ./usbtop-ng-support-20260903T091500Z.tar.gz (412 KB, 14 files)",
        "  version:  usbtop-ng 1.5.0 (features: none) x86_64",
        "  host:     Linux 7.0.0-30-generic, Linux Mint 22.3, MG-VCP17A-3080",
        "  usbmon:   module loaded, 4 buses, /dev/usbmon* root:root 0600, running as root",
        "  backend:  mmap ring (64 MiB) would be selected; eBPF: BTF present, not built in",
        "  capture:  5.0 s aggregate, 1,234 events, kernel drops 0, sources binary+text",
        "  devices:  21 across 4 buses (1.5/12/480/5000/10000 Mbps)",
        "  notes:    dmesg: permission denied",
        "  redacted: 3 home paths; host identity never collected; device serials included",
    ];
    let expected = lines.iter().map(|l| format!("{l}\n")).collect::<String>();
    assert_eq!(text, expected);

    let pending = Summary { archive: ArchiveState::Pending, notes: Vec::new(), ..summary };
    let text = render_summary(&pending);
    assert!(text.contains("  bundle:   usbtop-ng-support-20260903T091500Z/ (14 files)\n"), "{text}");
    assert!(text.contains("  notes:    none\n"), "{text}");
    let missing = Summary { archive: ArchiveState::Missing("could not run tar: not found".into()), ..pending };
    let text = render_summary(&missing);
    assert!(text.contains("not archived: could not run tar: not found"), "{text}");
    assert!(
        text.contains(
            "tar -czf usbtop-ng-support-20260903T091500Z.tar.gz usbtop-ng-support-20260903T091500Z"
        ),
        "{text}"
    );
}

#[test]
fn guidance_pins_the_url_and_the_four_steps() {
    assert!(GUIDANCE.contains("https://github.com/wifi-blackout/usbtop-ng/issues/new?template=bug_report.yml"));
    for step in [
        "  1. Review the bundle",
        "  2. Open https://",
        "  3. Paste the summary",
        "  4. Describe what you expected",
    ] {
        assert!(GUIDANCE.contains(step), "{step}");
    }
    assert!(GUIDANCE.contains("tar tzf <archive>"));
    assert!(GUIDANCE.contains("serial numbers"));
}

#[test]
fn tee_writer_redacts_the_file_copy() {
    let mut r = Redactor::new(Some("/home/alice"));
    assert_eq!(
        r.text("[INFO] usb.ids loaded from /home/alice/.usbtop-ng/usb.ids\n"),
        "[INFO] usb.ids loaded from ~/.usbtop-ng/usb.ids\n"
    );
}

// A whole run.

fn file(name: &str, text: &str) -> Node {
    Node { name: name.to_string(), link: None, canonical: None, content: Content::Text(text.to_string()) }
}

fn bytes(name: &str, bytes: &[u8]) -> Node {
    Node { name: name.to_string(), link: None, canonical: None, content: Content::Bytes(bytes.to_vec()) }
}

fn dir(name: &str, entries: Vec<Node>) -> Node {
    Node { name: name.to_string(), link: None, canonical: None, content: Content::Directory(entries) }
}

fn at(canonical: &str, node: Node) -> Node {
    Node { canonical: Some(canonical.to_string()), ..node }
}

/// A run without a capture on a tree of its own: what was collected, and the
/// files, are consistent, and no home path is anywhere.
#[test]
fn run_support_without_capture_writes_a_consistent_static_bundle() {
    let home = "/t/home/alice";
    let usb1 = at(
        "/t/sys/devices/pci0000:00/0000:00:14.0/usb1",
        dir(
            "usb1",
            vec![
                file("busnum", "1\n"),
                file("devnum", "1\n"),
                file("speed", "480\n"),
                file("idVendor", "1d6b\n"),
                file("idProduct", "0002\n"),
                bytes("descriptors", &[]),
            ],
        ),
    );
    let one = at(
        "/t/sys/bus/usb/devices/1-1",
        dir(
            "1-1",
            vec![
                file("busnum", "1\n"),
                file("devnum", "3\n"),
                file("speed", "480\n"),
                file("idVendor", "0430\n"),
                file("idProduct", "0100\n"),
                file("serial", "SN-KEEP-ME\n"),
                bytes(
                    "descriptors",
                    &[
                        0x12, 0x01, 0x00, 0x02, 0x00, 0x00, 0x00, 0x40, 0x30, 0x04, 0x00, 0x01, 0x00, 0x01, 0x00,
                        0x00, 0x00, 0x01,
                    ],
                ),
            ],
        ),
    );
    let devices = vec![usb1, one];
    let proc_root = vec![
        dir("sys", vec![dir("kernel", vec![file("osrelease", "7.0.0-30-generic\n")])]),
        file("version", "Linux version 7.0.0-30-generic\n"),
        file("cpuinfo", "processor\t: 0\nmodel name\t: Test CPU\n"),
        file("meminfo", "MemTotal: 1024 kB\n"),
        file("uptime", "1.5 2.0\n"),
        file("cmdline", "root=UUID=aaaa-bbbb ro\n"),
    ];
    let sys_root = vec![
        dir("module", vec![dir("usbcore", vec![dir("parameters", vec![file("autosuspend", "2\n")])])]),
        dir("kernel", vec![dir("security", vec![file("lockdown", "[none]\n")])]),
    ];
    let etc_root = vec![file("os-release", "PRETTY_NAME=\"Test OS\"\n")];
    let dmi_root = vec![file("product_name", "Test Board\n"), file("sys_vendor", "Test\n")];
    let device_tree_root = Vec::new();
    let typec = vec![Node {
        link: Some("/t/sys/devices/platform/typec/port0".to_string()),
        ..at("/t/sys/devices/platform/typec/port0", dir("port0", vec![file("data_role", "[host] device\n")]))
    }];
    let config = ConfigReads {
        dir_mode: Ok(0o40755),
        preferences: Ok(format!("usbids_path = \"{home}/usb.ids\"\n")),
        internal_devices: Err(GONE.to_string()),
    };
    let config_dir = format!("{home}/.usbtop-ng");
    let preferences_file = format!("{config_dir}/preferences.toml");
    let thunderbolt_root = format!("{home}/not-a-dir");
    let reads = Reads {
        host: HostRoots {
            proc_root: &proc_root,
            sys_root: &sys_root,
            etc_root: &etc_root,
            dmi_root: &dmi_root,
            device_tree_root: &device_tree_root,
        },
        dev_root: "/t/dev",
        dev: &Vec::new(),
        debugfs_root: "/t/sys/kernel/debug/usb/usbmon",
        debugfs: &Err(GONE.to_string()),
        probe: NodeProbe { mapped: false, ring_bytes: None, opened: false, text_exists: false },
        btf_present: false,
        sysfs_base: "/t/sys/bus/usb/devices",
        sysfs: Ok(&devices),
        parents: &Vec::new(),
        usbids_active: None,
        usbids_date: None,
        thunderbolt_root: &thunderbolt_root,
        thunderbolt: Err("Not a directory (os error 20)".to_string()),
        typec_root: "/t/sys/class/typec",
        typec: Ok(&typec),
        power_delivery_root: "/t/sys/class/usb_power_delivery",
        power_delivery: Err(GONE.to_string()),
        config_dir: Some(&config_dir),
        preferences_file: Some(&preferences_file),
        config: &config,
    };
    let env = environment(1000, Ok(status(false)));
    let opts = SupportOpts {
        window_ms: 1_000,
        no_capture: true,
        command: vec!["usbtop-ng".into(), "--support".into(), "--no-capture".into()],
    };
    let prepared = prepare_dir("/t/out", 1_788_000_000, "/t/out", false).unwrap();
    let mut redactor = Redactor::new(Some(home));
    let gathered = run_support(&opts, &reads, &env, build_facts(), &mut redactor);

    // The files that come from what was collected.
    let mut writer = BundleWriter::create(&prepared.dir, redactor);
    let mut listed = Vec::new();
    for part in gathered.parts() {
        let write = part_write(&mut writer, &part, "");
        assert_eq!(write.path, format!("{}/{}", prepared.dir, part.rel));
        if let Body::Text(_) = part.body {
            let text = String::from_utf8(write.bytes.clone()).unwrap();
            assert!(!text.contains(home), "{}: {text}", part.rel);
        }
        writer.wrote(&write, Ok(())).unwrap();
        listed.push(part.rel);
    }
    for expected in [
        "build.toml",
        "host.toml",
        "usbmon.toml",
        "inventory/usb.toml",
        "inventory/descriptors/1-1.bin",
        "inventory/thunderbolt.toml",
        "inventory/typec.toml",
        "config/config.toml",
        "config/preferences.toml",
        "terminal.toml",
    ] {
        assert!(listed.iter().any(|p| p == expected), "missing {expected}: {listed:?}");
    }
    assert!(!listed.iter().any(|p| p == "dmesg-usb.txt"), "there is no log to write");

    // The fixture is static.
    let task = write_fixture(env.capture_decision(opts.no_capture));
    let state = match task {
        FixtureTask::Assemble { clear: false, state } => state,
        other => panic!("{other:?}"),
    };
    let mut said = gathered.notes.iter().map(|n| note(&n.item, &n.reason)).collect::<Vec<_>>();
    let state = after_assembly(state, Ok(()), &mut said);
    let record = gathered.run_record(opts.window_ms, 1_788_000_000);
    assert_eq!(record.record, "run");
    assert_eq!(record.backend, "none");

    // Device identity in, host identity out.
    let inventory = format!("{:?}", gathered.inventory);
    assert!(inventory.contains("SN-KEEP-ME"), "{inventory}");
    let masked = mask_notes(&said, writer.redactor());
    // The config dir, the preferences path, the preferences body and the
    // thunderbolt note's item: four rewrites.
    let count = |writer: &mut BundleWriter, rule: &str| {
        writer.redactor().summary().iter().find(|(n, _)| n == rule).map(|(_, c)| *c)
    };
    assert_eq!(count(&mut writer, "home_path"), Some(4));
    assert_eq!(count(&mut writer, "fs_uuid"), Some(1));
    // `alice` stands only under the home, which the home rule rewrites.
    assert_eq!(count(&mut writer, "user_name"), None);

    let items: Vec<&str> = masked.iter().map(|n| n.item.as_str()).collect();
    assert!(items.contains(&"dmesg"), "{items:?}");
    assert!(items.contains(&"capture"), "{items:?}");
    let thunderbolt_note = masked.iter().find(|n| n.item.ends_with("not-a-dir")).unwrap();
    assert_eq!(thunderbolt_note.item, "~/not-a-dir");
    for n in &masked {
        assert!(!n.item.contains(home), "{n:?}");
        assert!(!n.reason.contains(home), "{n:?}");
    }

    let summary = gathered.summary(&prepared.dir, &state, &writer, &masked, true);
    // Rules sort by name in the summary: fs_uuid before home_path.
    assert!(summary.redacted.starts_with("1 filesystem UUID, 4 home paths"), "{}", summary.redacted);
    assert_eq!(summary.file_count, writer.files().len() + 3, "files, the summary, the log and the manifest");
    assert_eq!(summary.capture, "skipped: --no-capture");
    assert_eq!(summary.devices, "1 across 1 buses (480 Mbps)");
    assert_eq!(devices_line(&gathered.inventory), summary.devices);
    let text = render_summary(&summary);
    assert!(text.starts_with("usbtop-ng support bundle\n"));
    assert!(text.contains("  bundle:   usbtop-ng-support-20260829T104000Z/ ("), "{text}");

    let settled = archived(summary, &prepared.archive, Some("/t"), Some(home), Ok(412_300), writer.redactor());
    match settled.archive {
        ArchiveState::Written(shown, size) => {
            assert!(shown.ends_with("usbtop-ng-support-20260829T104000Z.tar.gz"), "{shown}");
            assert!(!shown.contains(home), "{shown}");
            assert_eq!(size, 412_300);
        }
        other => panic!("{other:?}"),
    }
}

#[test]
fn an_archive_that_failed_is_noted_without_the_home() {
    let mut r = Redactor::new(Some("/home/alice"));
    let summary = Summary {
        dir_name: String::new(),
        archive: ArchiveState::Pending,
        file_count: 0,
        version: String::new(),
        host: String::new(),
        usbmon: String::new(),
        backend: String::new(),
        capture: String::new(),
        devices: String::new(),
        notes: Vec::new(),
        redacted: String::new(),
    };
    let outcome = Err(note("archive", "could not write /home/alice/x.tar.gz"));
    let settled = archived(summary, "/home/alice/x.tar.gz", None, Some("/home/alice"), outcome, &mut r);
    assert!(matches!(settled.archive, ArchiveState::Missing(reason) if reason == "could not write ~/x.tar.gz"));
    assert_eq!(settled.notes[0].reason, "could not write ~/x.tar.gz");
}
