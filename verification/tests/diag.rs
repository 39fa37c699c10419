use usbtop_ng::capture::trace::ByteOrder;
use usbtop_ng::decimal::{at_most, measure};
use usbtop_ng::diag::attrs::{
    dump_attrs, read_descriptor_blobs, reads_file, walks_into, AttrDump, ATTR_VALUE_CAP,
};
use usbtop_ng::diag::bundle::{
    archive_with, assert_fixture_invariants, own_tree, ArchiverRun, BundleWriter, SizedKind, SizedNode, FORMAT_VERSION,
};
use usbtop_ng::diag::collect::{
    collect_build, collect_config, collect_host, collect_terminal, config_files, detect_virtualization, filter_dmesg,
    os_pretty_name_from, run_dmesg, sync_answer, sync_step, BuildFacts, CommandRun, ConfigReads, HostRoots, SyncStep,
};
use usbtop_ng::diag::files::read_trimmed;
use usbtop_ng::diag::inventory::{collect_usb_inventory, usbids_info, UsbidsInfo};
use usbtop_ng::diag::note;
use usbtop_ng::diag::redact::{path_char, Redactor};
use usbtop_ng::diag::summary::devices_line;
use usbtop_ng::diag::usbmon::{collect_usbmon, probe_backend, probe_paths, DevNode, NodeMeta, NodeProbe};
use usbtop_ng::diag::utc::{utc_iso, utc_stamp};
use usbtop_ng::number::float_text;
use usbtop_ng::path::join_path;
use usbtop_ng::sysfs::{Content, Node};
use usbtop_ng::usbids::{ProductName, UsbIds, VendorName};
use usbtop_ng::usbmon::UsbmonStatus;

const GONE: &str = "No such file or directory (os error 2)";

enum Leaf<'a> {
    Text(&'a str),
    Bytes(&'a [u8]),
    Link(&'a str),
    Locked,
    Vanished,
    Unlisted,
    Dir,
}

/// A tree out of paths and what stands there.
fn tree(leaves: &[(&str, Leaf)]) -> Vec<Node> {
    let mut out = Vec::new();
    for (path, leaf) in leaves {
        put(&mut out, path, leaf);
    }
    out
}

fn put(entries: &mut Vec<Node>, path: &str, leaf: &Leaf) {
    if let Some((head, rest)) = path.split_once('/') {
        if !entries.iter().any(|n| n.name == head) {
            entries.push(node(head, Content::Directory(Vec::new())));
        }
        let child = entries.iter_mut().find(|n| n.name == head).unwrap();
        match &mut child.content {
            Content::Directory(inner) => put(inner, rest, leaf),
            _ => unreachable!(),
        }
        return;
    }
    entries.push(match leaf {
        Leaf::Text(t) => node(path, Content::Text(t.to_string())),
        Leaf::Bytes(b) => node(path, Content::Bytes(b.to_vec())),
        Leaf::Link(target) => Node {
            name: path.to_string(),
            link: Some(target.to_string()),
            canonical: Some(target.to_string()),
            content: Content::Directory(Vec::new()),
        },
        Leaf::Locked => node(path, Content::Unreadable("Permission denied (os error 13)".to_string())),
        Leaf::Vanished => node(path, Content::Absent),
        Leaf::Unlisted => node(path, Content::Unlisted("Permission denied (os error 13)".to_string())),
        Leaf::Dir => node(path, Content::Directory(Vec::new())),
    });
}

fn node(name: &str, content: Content) -> Node {
    Node { name: name.to_string(), link: None, canonical: None, content }
}

/// A device directory that resolves to `canonical`.
fn at(canonical: &str, name: &str, leaves: &[(&str, Leaf)]) -> Node {
    Node {
        name: name.to_string(),
        link: None,
        canonical: Some(canonical.to_string()),
        content: Content::Directory(tree(leaves)),
    }
}

fn text<'a>(t: &'a str) -> Leaf<'a> {
    Leaf::Text(t)
}

// Numbers in order of size.

fn no_larger(a: &str, b: &str) -> bool {
    let size = |t: &str| measure(&t.chars().collect());
    at_most(&size(a), &size(b))
}

#[test]
fn numbers_compare_by_size_however_they_are_written() {
    let ascending = ["-inf", "-5", "-.5", "0", ".5", "1", "1.5", "5.", "12", "480", "1e3", "5000", "1e400"];
    for (i, a) in ascending.iter().enumerate() {
        for (j, b) in ascending.iter().enumerate() {
            assert_eq!(no_larger(a, b), i <= j, "{a} {b}");
        }
    }
    for (a, b) in [
        ("480", "480.0"),
        ("480", "+0480"),
        ("480", "4.8e2"),
        ("1000", "1E+3"),
        (".5", "5e-1"),
        ("0", "-0.0"),
        ("0", "unknown"),
        ("0", ""),
        ("0", "1e-400"),
        ("inf", "1e99999999999999999999999999999999999999"),
        ("infinity", "INF"),
    ] {
        assert!(no_larger(a, b) && no_larger(b, a), "{a} {b}");
    }
    assert!(no_larger("1e", "0") && no_larger("0", "1e"), "what writes no number counts as zero");
}

#[test]
fn the_summary_lists_speeds_in_numeric_order() {
    let entries: Vec<Node> = ["5.", "1e3", "1", ".5", "480", "1", "5."]
        .iter()
        .enumerate()
        .map(|(i, speed)| {
            let name = format!("1-{i}");
            at(&format!("/t/devices/{name}"), &name, &[("speed", text(speed))])
        })
        .collect();
    let (inv, _) = collect_usb_inventory("/t/devices", Ok(&entries), &Vec::new(), None, no_info());
    assert_eq!(devices_line(&inv), "7 across 0 buses (.5/1/5./480/1e3 Mbps)");
}

#[test]
fn a_name_from_the_root_leads_there_itself() {
    let join = |dir: &str, name: &str| -> String {
        join_path(&dir.chars().collect(), &name.chars().collect()).into_iter().collect()
    };
    assert_eq!(join("/b", "x"), "/b/x");
    assert_eq!(join("/b/", "x"), "/b/x");
    assert_eq!(join("", "x"), "x");
    assert_eq!(join("/b", "/x"), "/x");
    assert_eq!(join("/b", ""), "/b/");
}

#[test]
fn attr_dump_takes_any_depth() {
    let class = vec![at("/t/real/port0", "port0", &[("a/b/c/d", text("deep\n"))])];
    let (dumps, _) = dump_attrs("/t/class/typec", Ok(&class), usize::MAX);
    assert_eq!(dumps[0].attrs.get("a/b/c/d").map(String::as_str), Some("deep"));
    let (dumps, _) = dump_attrs("/t/class/typec", Ok(&class), 2);
    assert_eq!(dumps[0].attrs.get("a/b/c/d"), None);
}

// Redaction.

fn counted(rule: &str, n: usize) -> (String, usize) {
    (rule.to_string(), n)
}

#[test]
fn a_path_under_home_becomes_tilde() {
    let mut r = Redactor::new(Some("/home/alice"));
    assert_eq!(r.path("/home/alice/.usbtop-ng"), "~/.usbtop-ng");
    assert_eq!(r.path("/home/alice"), "~");
    assert_eq!(r.summary(), vec![counted("home_path", 2)]);
}

#[test]
fn a_sibling_directory_sharing_the_prefix_is_left_alone() {
    let mut r = Redactor::new(Some("/home/alice"));
    assert_eq!(r.path("/home/alice2/x"), "/home/alice2/x");
    assert_eq!(r.path("/home/alice-old/x"), "/home/alice-old/x");
    assert_eq!(r.text("/opt/home/alice/data"), "/opt/home/alice/data");
    assert!(r.summary().is_empty());
}

#[test]
fn free_text_rewrites_every_occurrence_and_counts_each() {
    let mut r = Redactor::new(Some("/home/alice/"));
    let prefs = "usbids_path = \"/home/alice/usb.ids\"\n# was /home/alice/old\n";
    assert_eq!(r.text(prefs), "usbids_path = \"~/usb.ids\"\n# was ~/old\n");
    assert_eq!(r.summary(), vec![counted("home_path", 2)]);

    let mut r = Redactor::new(Some("/home/alice"));
    assert_eq!(r.text("x=/home/alice"), "x=~");
    assert_eq!(r.summary(), vec![counted("home_path", 1)]);

    let mut r = Redactor::new(Some("/home/alice"));
    assert_eq!(r.text("file:///home/alice/x"), "file://~/x");
    assert_eq!(r.summary(), vec![counted("home_path", 1)]);
}

#[test]
fn no_home_or_a_root_home_disables_the_path_rule() {
    let mut none = Redactor::new(None);
    assert_eq!(none.text("/home/alice/x"), "/home/alice/x");
    let mut root = Redactor::new(Some("/"));
    assert_eq!(root.text("/etc/passwd"), "/etc/passwd");
    assert!(root.summary().is_empty());
}

#[test]
fn mac_addresses_are_masked_only_when_they_stand_alone() {
    let mut r = Redactor::new(None);
    let line = "usb 1-3: r8152 eth0: MAC 00:1a:2b:3c:4d:5e ready; id 00:1a:2b:3c:4d:5e:ff stays";
    assert_eq!(
        r.mac_addresses(line),
        "usb 1-3: r8152 eth0: MAC xx:xx:xx:xx:xx:xx ready; id 00:1a:2b:3c:4d:5e:ff stays"
    );
    assert_eq!(r.summary(), vec![counted("mac_address", 1)]);
}

#[test]
fn cmdline_masks_filesystem_uuids_and_keeps_everything_else() {
    let mut r = Redactor::new(None);
    let cmd = "BOOT_IMAGE=/boot/vmlinuz root=UUID=307c1732-bacd-4ef4-9050-b4c9e99e5648 ro quiet resume=PARTUUID=abcd-1234";
    assert_eq!(
        r.cmdline(cmd),
        "BOOT_IMAGE=/boot/vmlinuz root=UUID=<redacted> ro quiet resume=PARTUUID=<redacted>"
    );
    assert_eq!(r.summary(), vec![counted("fs_uuid", 2)]);
}

#[test]
fn the_environment_allowlist_is_exactly_five_names() {
    for name in ["TERM", "COLORTERM", "LANG", "LC_ALL", "RUST_LOG"] {
        assert!(Redactor::env_allowlisted(name), "{name}");
    }
    for name in ["HOME", "USER", "LOGNAME", "SSH_CLIENT", "PATH", "term"] {
        assert!(!Redactor::env_allowlisted(name), "{name}");
    }
}

#[test]
fn ssh_presence_is_any_marker_set_and_never_its_value() {
    assert!(Redactor::ssh_present(|n: &str| n == "SSH_CONNECTION"));
    assert!(Redactor::ssh_present(|n: &str| n == "SSH_TTY"));
    assert!(!Redactor::ssh_present(|_: &str| false));
    assert!(!Redactor::ssh_present(|n: &str| n == "SSH_AUTH_SOCK"));
}

#[test]
fn summary_is_sorted_by_rule_name() {
    let mut r = Redactor::new(Some("/home/alice"));
    r.mac_addresses("aa:bb:cc:dd:ee:ff");
    r.text("/home/alice/x");
    r.text("/media/alice/stick");
    assert_eq!(r.summary(), vec![counted("home_path", 1), counted("mac_address", 1), counted("user_name", 1)]);
}

#[test]
fn the_login_name_is_masked_as_a_path_component() {
    let home = "/home/alice";
    for (input, expected, summary) in [
        ("/media/alice/stick", "/media/<user>/stick", vec![counted("user_name", 1)]),
        ("--support /run/user/1000/alice", "--support /run/user/1000/<user>", vec![counted("user_name", 1)]),
        ("/home/alice2/x", "/home/alice2/x", vec![]),
        ("/opt/xalice/y", "/opt/xalice/y", vec![]),
        ("Alice's iPhone", "Alice's iPhone", vec![]),
        ("alice", "alice", vec![]),
    ] {
        let mut r = Redactor::new(Some(home));
        assert_eq!(r.text(input), expected, "{input}");
        assert_eq!(r.summary(), summary, "{input}");
    }

    // The home rule runs first: a path under home is rewritten to `~`
    // with no separate user_name count.
    let mut r = Redactor::new(Some(home));
    assert_eq!(r.text("/home/alice/x"), "~/x");
    assert_eq!(r.summary(), vec![counted("home_path", 1)]);
}

#[test]
fn a_letter_of_any_script_before_the_home_keeps_it() {
    let mut r = Redactor::new(Some("/home/alice"));
    assert_eq!(r.text("\u{e9}/home/alice/x"), "\u{e9}/home/alice/x");
    assert_eq!(r.text("\u{2014}/home/alice/x"), "\u{2014}~/x");
}

#[test]
fn masking_a_masked_text_changes_nothing() {
    let mut r = Redactor::new(None);
    let once = r.mac_addresses("a 00:1a:2b:3c:4d:5e b");
    assert_eq!(r.mac_addresses(&once), once);
    assert_eq!(r.summary(), vec![counted("mac_address", 1)]);
}

#[test]
fn note_records_the_item_and_the_reason_as_text() {
    let n = note("dmesg", "permission denied");
    assert_eq!((n.item.as_str(), n.reason.as_str()), ("dmesg", "permission denied"));
}

// Small files.

#[test]
fn read_trimmed_flattens_interior_nuls_from_device_tree_string_lists() {
    let compatible = Content::Text("raspberrypi,5-model-b\0brcm,bcm2712\0\n".to_string());
    assert_eq!(read_trimmed(&compatible).as_deref(), Some("raspberrypi,5-model-b brcm,bcm2712"));
    assert_eq!(read_trimmed(&Content::Absent), None);
    assert_eq!(read_trimmed(&Content::Text("\0\n".to_string())), None);
}

#[test]
fn what_is_not_utf8_reads_with_replacement_characters() {
    assert_eq!(read_trimmed(&Content::Bytes(vec![b'a', 0xff, b'b'])).as_deref(), Some("a\u{fffd}b"));
}

#[test]
fn os_pretty_name_strips_the_quotes() {
    assert_eq!(
        os_pretty_name_from("NAME=\"Linux Mint\"\nPRETTY_NAME=\"Linux Mint 22.3\"\n").as_deref(),
        Some("Linux Mint 22.3")
    );
    assert_eq!(os_pretty_name_from("NAME=x\n"), None);
}

fn build_facts() -> BuildFacts {
    BuildFacts {
        version: "1.5.0".to_string(),
        arch: "x86_64".to_string(),
        rustc: None,
        capture_fixture: false,
        ebpf: false,
        integration: false,
    }
}

#[test]
fn build_info_records_the_invocation_without_naming_the_user() {
    let mut r = Redactor::new(Some("/home/alice"));
    let info = collect_build(
        build_facts(),
        &vec!["/home/alice/bin/usbtop-ng".to_string(), "--support".to_string()],
        Some("debug".to_string()),
        0,
        true,
        &mut r,
    );
    assert_eq!(info.command, vec!["~/bin/usbtop-ng", "--support"]);
    assert_eq!(info.version, "1.5.0");
    assert!(info.running_as_root);
    assert!(info.under_sudo);
    assert_eq!(info.rust_log.as_deref(), Some("debug"));
    assert_eq!(info.arch, "x86_64");
    let shown = format!("{info:?}");
    assert!(!shown.contains("alice"), "{shown}");
}

#[test]
fn host_info_reads_every_source_through_the_injected_roots() {
    let proc_root = tree(&[
        ("sys/kernel/osrelease", text("7.0.0-30-generic\n")),
        ("version", text("Linux version 7.0.0-30-generic (buildd@host) #30\n")),
        (
            "cpuinfo",
            text("processor\t: 0\nmodel name\t: AMD Ryzen 9\nprocessor\t: 1\nmodel name\t: AMD Ryzen 9\n"),
        ),
        ("meminfo", text("MemTotal:       32000000 kB\nMemFree: 1 kB\n")),
        ("uptime", text("12345.67 99999.00\n")),
        ("cmdline", text("BOOT_IMAGE=/boot/vmlinuz root=UUID=1234-abcd ro\n")),
    ]);
    let sys_root = tree(&[
        ("module/usbcore/parameters/autosuspend", text("2\n")),
        ("module/usbcore/parameters/quirks", text("\n")),
        ("kernel/security/lockdown", text("[none] integrity confidentiality\n")),
    ]);
    let etc_root = tree(&[("os-release", text("PRETTY_NAME=\"Linux Mint 22.3\"\n"))]);
    let dmi_root = tree(&[("product_name", text("MG-VCP17A-3080\n")), ("sys_vendor", text("Example\n"))]);
    // No device tree: an x86 host.
    let device_tree_root = Vec::new();
    let roots = HostRoots {
        proc_root: &proc_root,
        sys_root: &sys_root,
        etc_root: &etc_root,
        dmi_root: &dmi_root,
        device_tree_root: &device_tree_root,
    };
    let mut r = Redactor::new(None);
    let (host, notes) = collect_host(&roots, Some("none".to_string()), &mut r);
    assert_eq!(host.kernel, "7.0.0-30-generic");
    assert!(host.proc_version.starts_with("Linux version 7.0.0-30-generic"));
    assert_eq!(host.os, "Linux Mint 22.3");
    assert_eq!(host.board, "Example MG-VCP17A-3080");
    assert_eq!(host.soc, "");
    assert_eq!(host.cpu_model, "AMD Ryzen 9");
    assert_eq!(host.cpu_count, 2);
    assert_eq!(host.mem_total_kb, Some(32_000_000));
    assert_eq!(host.uptime_s.as_deref(), Some("12345.67"));
    assert_eq!(host.virtualization.as_deref(), Some("none"));
    assert_eq!(host.cmdline, "BOOT_IMAGE=/boot/vmlinuz root=UUID=<redacted> ro");
    assert_eq!(host.usbcore_params.get("autosuspend").map(String::as_str), Some("2"));
    assert_eq!(host.usbcore_params.get("quirks").map(String::as_str), Some(""));
    assert_eq!(host.lockdown, "[none] integrity confidentiality");
    assert!(notes.is_empty(), "{notes:?}");
}

#[test]
fn host_info_notes_what_is_missing_instead_of_failing() {
    let empty = Vec::new();
    let device_tree_root = tree(&[
        ("model", text("Raspberry Pi 5 Model B Rev 1.0\0")),
        ("compatible", text("raspberrypi,5-model-b\0brcm,bcm2712\0")),
    ]);
    let roots = HostRoots {
        proc_root: &empty,
        sys_root: &empty,
        etc_root: &empty,
        dmi_root: &empty,
        device_tree_root: &device_tree_root,
    };
    let mut r = Redactor::new(None);
    let (host, notes) = collect_host(&roots, None, &mut r);
    assert_eq!(host.board, "Raspberry Pi 5 Model B Rev 1.0");
    assert_eq!(host.soc, "raspberrypi,5-model-b brcm,bcm2712");
    assert_eq!(host.kernel, "");
    assert_eq!(host.mem_total_kb, None);
    let items: Vec<&str> = notes.iter().map(|n| n.item.as_str()).collect();
    for expected in [
        "proc/sys/kernel/osrelease",
        "proc/version",
        "proc/cpuinfo",
        "proc/meminfo",
        "proc/uptime",
        "proc/cmdline",
        "sys/module/usbcore/parameters",
        "sys/kernel/security/lockdown",
        "etc/os-release",
        "systemd-detect-virt",
    ] {
        assert!(items.contains(&expected), "missing note for {expected}: {items:?}");
    }
}

#[test]
fn detect_virtualization_never_panics() {
    assert_eq!(detect_virtualization(None), None);
    assert_eq!(detect_virtualization(Some(&b"kvm\n".to_vec())).as_deref(), Some("kvm"));
    assert_eq!(detect_virtualization(Some(&b"\n".to_vec())), None);
}

fn usbmon_status(buses: &[u8]) -> UsbmonStatus {
    UsbmonStatus {
        module_loaded: true,
        debugfs_mounted: true,
        usbmon_available: true,
        binary_available: true,
        text_available: true,
        permission_denied: false,
        available_buses: buses.to_vec(),
    }
}

fn dev_node(name: &str) -> DevNode {
    DevNode { name: name.to_string(), meta: Some(NodeMeta { uid: 0, gid: 0, mode: 0o100600 }), openable: true }
}

#[test]
fn usbmon_info_lists_nodes_with_ownership_and_openability() {
    let dev = vec![dev_node("usbmon1"), dev_node("unrelated"), dev_node("usbmon0")];
    let debugfs = Ok(vec!["1u".to_string(), "0u".to_string()]);
    let (info, notes) = collect_usbmon(&Ok(usbmon_status(&[0, 1])), "/t/dev", &dev, &debugfs);
    assert!(info.module_loaded);
    assert_eq!(info.available_buses, vec![0, 1]);
    assert_eq!(info.nodes.len(), 2);
    assert_eq!(info.nodes[0].path, "/t/dev/usbmon0");
    assert_eq!(info.nodes[0].mode_octal.len(), 4);
    assert_eq!(info.nodes[0].mode_octal, "0600");
    assert!(info.nodes[0].openable);
    assert_eq!(info.debugfs_entries, vec!["0u", "1u"]);
    assert!(info.status_error.is_none());
    assert!(notes.is_empty(), "{notes:?}");
}

#[test]
fn usbmon_info_carries_a_failed_status_probe_as_a_note() {
    let status = Err("could not read /proc/modules".to_string());
    let (info, notes) = collect_usbmon(&status, "/t", &Vec::new(), &Err(GONE.to_string()));
    assert_eq!(info.status_error.as_deref(), Some("could not read /proc/modules"));
    assert!(!info.usbmon_available);
    assert!(info.nodes.is_empty());
    assert_eq!(notes.len(), 2, "status and debugfs: {notes:?}");
}

#[test]
fn backend_probe_walks_the_same_chain_as_start_monitoring() {
    let probe = |buses: &[u8], opened: bool, text_exists: bool, btf: bool| {
        let found = NodeProbe { mapped: false, ring_bytes: None, opened, text_exists };
        probe_backend(&buses.to_vec(), "/t/dev", "/t/usbmon", &found, false, btf)
    };
    // Nothing at all: no interface.
    let none = probe(&[], false, false, false);
    assert_eq!(none.would_select, "none");
    assert!(!none.btf_present);
    assert!(!none.ebpf_built_in);

    // Only the debugfs text file for the aggregate bus.
    let text = probe(&[0, 1], false, true, false);
    assert_eq!(text.would_select, "text");
    assert_eq!(text.probed_bus, Some(0));

    // A node that opens but has no ring: the read()-based reader takes it.
    let binary = probe(&[0, 1], true, true, true);
    assert_eq!(binary.would_select, "binary");
    assert_eq!(binary.ring_bytes, None);
    assert!(binary.btf_present);

    // No aggregate node: the first per-bus node is probed instead.
    let per_bus = probe(&[2, 3], true, false, true);
    assert_eq!(per_bus.probed_bus, Some(2));
    assert_eq!(per_bus.would_select, "binary");
    assert_eq!(
        probe_paths("/t/dev", "/t/usbmon", 2),
        ("/t/dev/usbmon2".to_string(), "/t/usbmon/2u".to_string())
    );

    // A ring wins over everything.
    let ring = NodeProbe { mapped: true, ring_bytes: Some(4096), opened: true, text_exists: true };
    let mapped = probe_backend(&vec![0], "/t/dev", "/t/usbmon", &ring, false, false);
    assert_eq!((mapped.would_select, mapped.ring_bytes), ("mmap", Some(4096)));
}

#[test]
fn dmesg_filter_keeps_usb_lines_case_insensitively_and_whole() {
    let text = "[    0.1] Linux version 7.0\n\
                [    1.2] usb 1-4: new high-speed USB device number 3 using xhci_hcd\n\
                [    1.3] usb 1-4: SerialNumber: 0123ABCD\n\
                [    2.0] systemd[1]: Set hostname to <box>.\n\
                [    3.0] thunderbolt 0-1: new device found\n\
                [    4.0] hub 3-1:1.0: USB hub found\n\
                [    5.0] DWC2 controller ready\n\
                [    6.0] usbmon: debugfs is not available\n";
    let kept = filter_dmesg(text);
    assert!(kept.contains("SerialNumber: 0123ABCD"), "device lines stay whole");
    assert!(kept.contains("thunderbolt 0-1"));
    assert!(kept.contains("USB hub found"));
    assert!(kept.contains("DWC2"));
    assert!(kept.contains("usbmon: debugfs"));
    assert!(!kept.contains("Linux version"));
    assert!(!kept.contains("hostname"));
    assert_eq!(kept.lines().count(), 6);
}

#[test]
fn run_dmesg_returns_text_or_a_reason_and_never_panics() {
    let ran = run_dmesg(&CommandRun::Output(b"[1] usb 1-1: new\n[2] cpu\n".to_vec()));
    assert_eq!(ran.as_deref(), Ok("[1] usb 1-1: new\n"));
    let failed = run_dmesg(&CommandRun::Failed {
        status: "exit status: 1".to_string(),
        stderr: b"dmesg: read kernel buffer failed: Operation not permitted\n".to_vec(),
    });
    assert!(failed.unwrap_err().contains("Operation not permitted"));
    assert!(!run_dmesg(&CommandRun::NotStarted(GONE.to_string())).unwrap_err().is_empty());
}

#[test]
fn config_info_redacts_the_directory_and_copies_both_files() {
    let dir = "/home/alice/.usbtop-ng";
    let prefs = "/home/alice/.usbtop-ng/preferences.toml";
    let reads = ConfigReads {
        dir_mode: Ok(0o40700),
        preferences: Ok("usbids_path = \"/home/alice/usb.ids\"\n".to_string()),
        internal_devices: Ok("captured_unix = 1\n".to_string()),
    };
    let mut r = Redactor::new(Some("/home/alice"));
    let (info, notes) = collect_config(Some(dir), Some(prefs), &reads, true, &mut r);
    assert_eq!(info.dir.as_deref(), Some("~/.usbtop-ng"));
    assert_eq!(info.dir_mode_octal.as_deref(), Some("0700"));
    assert_eq!(info.preferences_path.as_deref(), Some("~/.usbtop-ng/preferences.toml"));
    assert_eq!(info.preferences.as_deref(), Some("usbids_path = \"~/usb.ids\"\n"));
    assert_eq!(info.internal_devices.as_deref(), Some("captured_unix = 1\n"));
    assert_eq!(info.sudo_resolution, "home resolved to ~ (sudo invoker)");
    assert!(notes.is_empty(), "{notes:?}");
}

#[test]
fn config_info_notes_a_missing_directory_and_missing_files() {
    let reads = || ConfigReads {
        dir_mode: Err(GONE.to_string()),
        preferences: Err(GONE.to_string()),
        internal_devices: Err(GONE.to_string()),
    };
    let mut r = Redactor::new(None);
    let (info, notes) = collect_config(Some("/t/absent"), None, &reads(), false, &mut r);
    assert!(info.dir_mode_octal.is_none());
    assert!(info.preferences.is_none());
    assert_eq!(info.sudo_resolution, "not under sudo");
    assert_eq!(notes.len(), 3, "dir, preferences, internal-devices: {notes:?}");
    let (_, none) = collect_config(None, None, &reads(), false, &mut r);
    assert_eq!(none[0].item, "config directory");
    assert_eq!(
        config_files("/t/absent", None),
        ("/t/absent/preferences.toml".to_string(), "/t/absent/internal-devices.toml".to_string())
    );
}

#[test]
fn terminal_info_records_allowlisted_values_and_ssh_presence_only() {
    let env = |name: &str| -> Option<String> {
        match name {
            "TERM" => Some("xterm-256color".into()),
            "COLORTERM" => Some("truecolor".into()),
            "LANG" => Some("en_US.UTF-8".into()),
            "SSH_CONNECTION" => Some("10.0.0.2 51234 10.0.0.1 22".into()),
            "HOME" => Some("/home/alice".into()),
            _ => None,
        }
    };
    let info = collect_terminal(&env, Some((120, 40)), true, false, "unsupported");
    assert_eq!(info.term.as_deref(), Some("xterm-256color"));
    assert_eq!(info.colorterm.as_deref(), Some("truecolor"));
    assert_eq!(info.lang.as_deref(), Some("en_US.UTF-8"));
    assert_eq!(info.lc_all, None);
    assert_eq!((info.cols, info.rows), (Some(120), Some(40)));
    assert!(info.stdout_is_tty);
    assert!(!info.stdin_is_tty);
    assert!(info.ssh_present);
    assert_eq!(info.sync_mode, "unsupported");
    let shown = format!("{info:?}");
    assert!(!shown.contains("10.0.0"), "ssh values never recorded: {shown}");
    assert!(!shown.contains("alice"), "{shown}");
}

// The bundle.

#[test]
fn utc_stamp_pins_the_epoch_a_recent_date_two_leap_days_and_a_non_leap_century() {
    assert_eq!(utc_stamp(0), "19700101T000000Z");
    assert_eq!(utc_stamp(1_788_000_000), "20260829T104000Z");
    assert_eq!(utc_stamp(1_709_164_800), "20240229T000000Z");
    assert_eq!(utc_stamp(951_782_400), "20000229T000000Z");
    assert_eq!(utc_stamp(4_102_444_800), "21000101T000000Z");
    assert_eq!(utc_iso(1_788_000_000), "2026-08-29T10:40:00Z");
}

fn writer(home: Option<&str>) -> BundleWriter {
    BundleWriter::create("/t/bundle", Redactor::new(home))
}

fn files(w: &BundleWriter) -> Vec<(&str, u64, bool)> {
    w.files().iter().map(|f| (f.path.as_str(), f.bytes, f.symlink)).collect()
}

#[test]
fn write_text_redacts_records_and_creates_parents() {
    let mut w = writer(Some("/home/alice"));
    let write = w.write_text("config/preferences.toml", "usbids_path = \"/home/alice/usb.ids\"\n");
    assert_eq!(write.path, "/t/bundle/config/preferences.toml");
    assert_eq!(write.bytes, b"usbids_path = \"~/usb.ids\"\n");
    assert!(w.wrote(&write, Err("No space left on device (os error 28)".to_string())).is_err());
    assert!(w.files().is_empty(), "a write that failed is not recorded");
    assert_eq!(w.wrote(&write, Ok(())), Ok(()));
    assert_eq!(files(&w), [("config/preferences.toml", 26, false)]);
    assert_eq!(w.redactor().summary(), vec![counted("home_path", 1)]);
}

#[test]
fn write_bytes_is_verbatim_and_write_toml_serializes_then_redacts() {
    let mut w = writer(Some("/home/alice"));
    let write = w.write_bytes("inventory/descriptors/1-4.bin", &vec![0x12, 0x01, 0x00, 0x02]);
    assert_eq!(write.path, "/t/bundle/inventory/descriptors/1-4.bin");
    assert_eq!(write.bytes, [0x12, 0x01, 0x00, 0x02]);
    w.record("inventory/descriptors/1-4.bin", 4, false);
    let write = w.write_text("config/config.toml", "dir = \"/home/alice/.usbtop-ng\"\nn = 3\n");
    let written = String::from_utf8(write.bytes).unwrap();
    assert!(written.contains("dir = \"~/.usbtop-ng\""), "{written}");
    assert!(written.contains("n = 3"), "{written}");
    w.record("config/config.toml", written.len() as u64, false);
    assert_eq!(w.files().len(), 2);
}

#[test]
fn record_dir_lists_every_file_and_symlink_under_a_subtree() {
    let sized = |name: &str, kind: SizedKind| SizedNode { name: name.to_string(), kind };
    let fixture = vec![
        sized("meta.toml", SizedKind::File(13)),
        sized(
            "sysfs",
            SizedKind::Directory(vec![
                sized("usb1", SizedKind::Symlink),
                sized(
                    "0000:00:14.0",
                    SizedKind::Directory(vec![sized(
                        "usb1",
                        SizedKind::Directory(vec![sized("busnum", SizedKind::File(2))]),
                    )]),
                ),
            ]),
        ),
    ];
    let mut w = writer(None);
    w.record_dir("fixture", &fixture);
    let mut paths = files(&w);
    paths.sort();
    assert_eq!(
        paths,
        vec![
            ("fixture/meta.toml", 13, false),
            ("fixture/sysfs/0000:00:14.0/usb1/busnum", 2, false),
            ("fixture/sysfs/usb1", 0, true),
        ]
    );
}

#[test]
fn own_tree_is_a_silent_no_op_without_sudo() {
    let sized = |name: &str, kind: SizedKind| SizedNode { name: name.to_string(), kind };
    let tree = vec![sized(
        "fixture",
        SizedKind::Directory(vec![
            sized("link", SizedKind::Symlink),
            sized("sysfs", SizedKind::Directory(vec![sized("busnum", SizedKind::File(2))])),
        ]),
    )];
    let handed: Vec<(String, bool)> =
        own_tree("/t/bundle", &tree).into_iter().map(|h| (h.path, h.directory)).collect();
    assert_eq!(
        handed,
        [
            ("/t/bundle".to_string(), true),
            ("/t/bundle/fixture".to_string(), true),
            ("/t/bundle/fixture/sysfs".to_string(), true),
            ("/t/bundle/fixture/sysfs/busnum".to_string(), false),
        ],
        "every directory and file, no symlink"
    );
}

#[test]
fn manifest_lists_files_redaction_and_notes_and_parses_back() {
    let mut w = writer(Some("/home/alice"));
    let write = w.write_text("build.toml", "command = [\"/home/alice/x\"]\n");
    w.wrote(&write, Ok(())).unwrap();
    let manifest = w.write_manifest(1_788_000_000, vec![note("dmesg", "permission denied")], "1.5.0");
    assert_eq!(manifest.format_version, FORMAT_VERSION);
    assert_eq!(manifest.created_unix, 1_788_000_000);
    assert_eq!(manifest.created_utc, "2026-08-29T10:40:00Z");
    assert_eq!(manifest.usbtop_ng, "1.5.0");
    assert_eq!(manifest.redaction, vec![counted("home_path", 1)]);
    assert_eq!(manifest.unavailable.len(), 1);
    assert_eq!(manifest.unavailable[0].item, "dmesg");
    assert_eq!(manifest.unavailable[0].reason, "permission denied");
    assert_eq!(manifest.files.len(), 1, "the manifest never lists itself");
    assert_eq!(manifest.files[0].path, "build.toml");
    assert_eq!(manifest.files[0].bytes, write.bytes.len() as u64);
}

#[test]
fn archive_with_a_missing_program_is_a_note_not_an_error() {
    let err = archive_with("/t/x.tar.gz", "no-such-tar-program", &ArchiverRun::NotStarted(GONE.to_string()))
        .unwrap_err();
    assert_eq!(err.item, "archive");
    assert!(err.reason.contains("no-such-tar-program"), "{}", err.reason);
    assert!(err.reason.starts_with("could not run "), "{}", err.reason);
}

#[test]
fn archive_with_a_failing_program_is_a_note() {
    let run = ArchiverRun::Failed { status: "exit status: 1".to_string(), stderr: Vec::new() };
    let err = archive_with("/t/x.tar.gz", "false", &run).unwrap_err();
    assert_eq!(err.item, "archive");
    assert!(err.reason.starts_with("could not run false: exited with "), "{}", err.reason);
}

#[test]
fn an_archive_that_was_written_has_its_size() {
    let w = writer(None);
    assert_eq!(w.archive("/t/bundle.tar.gz", &ArchiverRun::Ended(Ok(412))).ok(), Some(412));
    assert_eq!(w.archive_place().ok(), Some(("/t".to_string(), "bundle".to_string())));
    let rootless = BundleWriter::create("/", Redactor::new(None));
    assert_eq!(rootless.archive_place().unwrap_err().item, "archive");
}

fn native() -> ByteOrder {
    if 1u16.to_ne_bytes() == 1u16.to_le_bytes() {
        ByteOrder::Little
    } else {
        ByteOrder::Big
    }
}

#[test]
fn fixture_invariants_reject_payload_and_an_escaping_link() {
    let root = "/t/fixture/sysfs";
    let busnum = Node {
        canonical: Some("/t/fixture/sysfs/1-1/busnum".to_string()),
        ..node("busnum", Content::Text("1\n".to_string()))
    };
    let sound = vec![Node {
        canonical: Some("/t/fixture/sysfs/1-1".to_string()),
        ..node("1-1", Content::Directory(vec![busnum]))
    }];
    assert!(assert_fixture_invariants(None, None, Some(&sound), root, native()).is_ok());

    let mut bad = vec![0u8; 48];
    bad[36..40].copy_from_slice(&48u32.to_ne_bytes());
    bad.extend_from_slice(&[0xAB; 48]);
    let err = assert_fixture_invariants(Some(bad), None, Some(&sound), root, native()).unwrap_err();
    assert!(err.message().contains("SEC-1"), "{}", err.message());

    let mut escaping = sound;
    escaping.push(Node {
        name: "escape".to_string(),
        link: Some("/t".to_string()),
        canonical: Some("/t".to_string()),
        content: Content::Directory(Vec::new()),
    });
    let err = assert_fixture_invariants(None, None, Some(&escaping), root, native()).unwrap_err();
    assert!(err.message().contains("SEC-2"), "{}", err.message());
}

// The inventory.

/// One xHCI controller with the root hub `usb3`, a hub `3-1` with two ports
/// (one with a `peer` link), a leaf `3-1.2` with two interfaces (one in an
/// association) and endpoints, and an 18-byte device descriptor blob.
fn build_tree() -> (Vec<Node>, Vec<Node>) {
    let usb3 = at(
        "/t/pci/0000:06:00.3/usb3",
        "usb3",
        &[
            ("busnum", text("3\n")),
            ("devnum", text("1\n")),
            ("idVendor", text("1d6b\n")),
            ("idProduct", text("0002\n")),
            ("speed", text("480\n")),
            ("maxchild", text("4\n")),
            ("descriptors", Leaf::Bytes(&[])),
        ],
    );
    let hub = at(
        "/t/devices/3-1",
        "3-1",
        &[
            ("busnum", text("3\n")),
            ("devnum", text("2\n")),
            ("idVendor", text("05e3\n")),
            ("idProduct", text("0610\n")),
            ("bcdDevice", text("0663\n")),
            ("speed", text("480\n")),
            ("maxchild", text("4\n")),
            ("bDeviceClass", text("09\n")),
            ("version", text(" 2.10\n")),
            (
                "descriptors",
                Leaf::Bytes(&[
                    0x12, 0x01, 0x10, 0x02, 0x09, 0x00, 0x01, 0x40, 0xe3, 0x05, 0x10, 0x06, 0x63, 0x06, 0x00, 0x01,
                    0x00, 0x01,
                ]),
            ),
            ("power/control", text("auto\n")),
            ("power/runtime_status", text("active\n")),
            ("3-1:1.0/bInterfaceNumber", text("00\n")),
            ("3-1:1.0/bInterfaceClass", text("09\n")),
            ("3-1:1.0/bNumEndpoints", text("01\n")),
            ("3-1:1.0/driver", Leaf::Link("/t/drivers/hub")),
            ("3-1:1.0/3-1-port2/connect_type", text("not used\n")),
            ("3-1:1.0/3-1-port2/over_current_count", text("0\n")),
            ("3-1:1.0/3-1-port1/connect_type", text("hotplug\n")),
            ("3-1:1.0/3-1-port1/location", text("0x00000001\n")),
            ("3-1:1.0/3-1-port1/over_current_count", text("0\n")),
            ("3-1:1.0/3-1-port1/quirks", text("00000000\n")),
            ("3-1:1.0/3-1-port1/state", text("configured\n")),
            ("3-1:1.0/3-1-port1/peer", Leaf::Link("/t/elsewhere/4-1:1.0/4-1-port1")),
        ],
    );
    let leaf = at(
        "/t/devices/3-1.2",
        "3-1.2",
        &[
            ("busnum", text("3\n")),
            ("devnum", text("5\n")),
            ("idVendor", text("04f2\n")),
            ("idProduct", text("b71a\n")),
            ("serial", text("SN0001\n")),
            ("manufacturer", text("SunplusIT Inc\n")),
            ("product", text("HD Webcam\n")),
            ("speed", text("480\n")),
            ("bMaxPower", text("500mA\n")),
            ("bNumInterfaces", text(" 2\n")),
            ("bDeviceClass", text("ef\n")),
            ("bDeviceSubClass", text("02\n")),
            ("bDeviceProtocol", text("01\n")),
            ("bMaxPacketSize0", text("64\n")),
            ("bNumConfigurations", text("1\n")),
            ("bConfigurationValue", text("1\n")),
            ("bmAttributes", text("80\n")),
            ("quirks", text("0x0\n")),
            ("avoid_reset_quirk", text("0\n")),
            ("ltm_capable", text("no\n")),
            ("rx_lanes", text("1\n")),
            ("tx_lanes", text("1\n")),
            ("urbnum", text("11268\n")),
            ("authorized", text("1\n")),
            ("removable", text("fixed\n")),
            ("maxchild", text("0\n")),
            (
                "descriptors",
                Leaf::Bytes(&[
                    0x12, 0x01, 0x00, 0x02, 0xef, 0x02, 0x01, 0x40, 0xf2, 0x04, 0x1a, 0xb7, 0x03, 0x00, 0x01, 0x02,
                    0x03, 0x01,
                ]),
            ),
            ("bos_descriptors", Leaf::Bytes(&[0x05, 0x0f, 0x05, 0x00, 0x00])),
            ("physical_location/panel", text("front\n")),
            ("physical_location/lid", text("no\n")),
            ("3-1.2:1.1/bInterfaceNumber", text("01\n")),
            ("3-1.2:1.1/bInterfaceClass", text("0e\n")),
            ("3-1.2:1.1/bInterfaceSubClass", text("02\n")),
            ("3-1.2:1.1/bNumEndpoints", text("01\n")),
            ("3-1.2:1.1/ep_81/bEndpointAddress", text("81\n")),
            ("3-1.2:1.1/ep_81/bmAttributes", text("05\n")),
            ("3-1.2:1.1/ep_81/wMaxPacketSize", text("0c00\n")),
            ("3-1.2:1.1/ep_81/direction", text("in\n")),
            ("3-1.2:1.1/ep_81/type", text("Isoc\n")),
            ("3-1.2:1.0/bInterfaceNumber", text("00\n")),
            ("3-1.2:1.0/bAlternateSetting", text(" 0\n")),
            ("3-1.2:1.0/bInterfaceClass", text("0e\n")),
            ("3-1.2:1.0/bInterfaceSubClass", text("01\n")),
            ("3-1.2:1.0/bInterfaceProtocol", text("01\n")),
            ("3-1.2:1.0/bNumEndpoints", text("01\n")),
            ("3-1.2:1.0/interface", text("HD Webcam\n")),
            ("3-1.2:1.0/iad_bFirstInterface", text("00\n")),
            ("3-1.2:1.0/iad_bInterfaceCount", text("02\n")),
            ("3-1.2:1.0/iad_bFunctionClass", text("0e\n")),
            ("3-1.2:1.0/iad_bFunctionSubClass", text("03\n")),
            ("3-1.2:1.0/iad_bFunctionProtocol", text("00\n")),
            ("3-1.2:1.0/driver", Leaf::Link("/t/drivers/uvcvideo")),
            ("3-1.2:1.0/ep_87/bEndpointAddress", text("87\n")),
            ("3-1.2:1.0/ep_87/bmAttributes", text("03\n")),
            ("3-1.2:1.0/ep_87/wMaxPacketSize", text("0010\n")),
            ("3-1.2:1.0/ep_87/bInterval", text("08\n")),
            ("3-1.2:1.0/ep_87/direction", text("in\n")),
            ("3-1.2:1.0/ep_87/type", text("Interrupt\n")),
        ],
    );
    let parents = vec![node(
        "usb3",
        Content::Directory(tree(&[
            ("vendor", text("0x1022\n")),
            ("device", text("0x1639\n")),
            ("revision", text("0x00\n")),
            ("driver", Leaf::Link("/t/drivers/xhci_hcd")),
            ("usb3", Leaf::Dir),
        ])),
    )];
    (vec![usb3, leaf, hub], parents)
}

fn no_info() -> UsbidsInfo {
    UsbidsInfo { source: None, date: None }
}

fn value<'a>(pairs: &'a [(String, String)], name: &str) -> Option<&'a str> {
    pairs.iter().find(|(n, _)| n == name).map(|(_, v)| v.as_str())
}

#[test]
fn inventory_reads_devices_interfaces_endpoints_ports_and_controllers() {
    let (entries, parents) = build_tree();
    let db = UsbIds {
        vendors: vec![
            VendorName { vendor: 0x04f2, name: "Chicony Electronics Co., Ltd".to_string() },
            VendorName { vendor: 0x05e3, name: "Genesys Logic, Inc.".to_string() },
        ],
        products: vec![
            ProductName { vendor: 0x04f2, product: 0xb71a, name: "HD WebCam".to_string() },
            ProductName { vendor: 0x05e3, product: 0x0610, name: "Hub".to_string() },
        ],
    };
    let (inv, notes) = collect_usb_inventory("/t/devices", Ok(&entries), &parents, Some(&db), no_info());
    assert!(notes.is_empty(), "{notes:?}");

    assert_eq!(inv.controllers.len(), 1);
    let ctrl = &inv.controllers[0];
    assert_eq!(ctrl.name, "0000:06:00.3");
    assert_eq!(ctrl.buses, vec![3]);
    assert_eq!(ctrl.pci_vendor.as_deref(), Some("0x1022"));
    assert_eq!(ctrl.pci_device.as_deref(), Some("0x1639"));
    assert_eq!(ctrl.pci_revision.as_deref(), Some("0x00"));
    assert_eq!(ctrl.driver.as_deref(), Some("xhci_hcd"));

    let chains: Vec<&str> = inv.devices.iter().map(|d| d.port_chain.as_str()).collect();
    assert_eq!(chains, vec!["3-1", "3-1.2", "usb3"], "sorted by name; no interface dirs");

    let hub = &inv.devices[0];
    assert_eq!(hub.bus, Some(3));
    assert_eq!(hub.devnum, Some(2));
    assert_eq!(hub.bcd_device.as_deref(), Some("0663"));
    assert_eq!(hub.bcd_usb.as_deref(), Some("2.10"));
    assert_eq!(hub.vendor_name.as_deref(), Some("Genesys Logic, Inc."));
    assert_eq!(hub.product_name.as_deref(), Some("Hub"));
    assert_eq!(value(&hub.power, "control"), Some("auto"));
    assert_eq!(hub.interfaces.len(), 1);
    assert_eq!(hub.interfaces[0].driver.as_deref(), Some("hub"));
    assert_eq!(hub.ports.len(), 2);
    assert_eq!(hub.ports[0].name, "3-1-port1");
    assert_eq!(hub.ports[0].connect_type.as_deref(), Some("hotplug"));
    assert_eq!(hub.ports[0].peer.as_deref(), Some("4-1-port1"));
    assert_eq!(hub.ports[0].location.as_deref(), Some("0x00000001"));
    assert_eq!(hub.ports[0].state.as_deref(), Some("configured"));
    assert_eq!(hub.ports[1].connect_type.as_deref(), Some("not used"));
    assert_eq!(hub.ports[1].peer, None);
    assert_eq!(hub.maxchild.as_deref(), Some("4"));
    assert_eq!(hub.device_class.as_deref(), Some("09"));
    assert_eq!(hub.id_product.as_deref(), Some("0610"));
    assert_eq!(hub.speed.as_deref(), Some("480"));

    let leaf = &inv.devices[1];
    assert_eq!(leaf.serial.as_deref(), Some("SN0001"), "device identity is kept verbatim");
    assert_eq!(leaf.manufacturer.as_deref(), Some("SunplusIT Inc"));
    assert_eq!(leaf.vendor_name.as_deref(), Some("Chicony Electronics Co., Ltd"));
    assert_eq!(leaf.num_interfaces.as_deref(), Some("2"));
    assert_eq!(leaf.max_power.as_deref(), Some("500mA"));
    assert_eq!(leaf.id_product.as_deref(), Some("b71a"));
    assert_eq!(leaf.product.as_deref(), Some("HD Webcam"));
    assert_eq!(leaf.speed.as_deref(), Some("480"));
    assert_eq!(leaf.device_class.as_deref(), Some("ef"));
    assert_eq!(leaf.device_subclass.as_deref(), Some("02"));
    assert_eq!(leaf.device_protocol.as_deref(), Some("01"));
    assert_eq!(leaf.max_packet_size0.as_deref(), Some("64"));
    assert_eq!(leaf.num_configurations.as_deref(), Some("1"));
    assert_eq!(leaf.configuration_value.as_deref(), Some("1"));
    assert_eq!(leaf.bm_attributes.as_deref(), Some("80"));
    assert_eq!(leaf.quirks.as_deref(), Some("0x0"));
    assert_eq!(leaf.avoid_reset_quirk.as_deref(), Some("0"));
    assert_eq!(leaf.ltm_capable.as_deref(), Some("no"));
    assert_eq!(leaf.rx_lanes.as_deref(), Some("1"));
    assert_eq!(leaf.tx_lanes.as_deref(), Some("1"));
    assert_eq!(leaf.urbnum.as_deref(), Some("11268"));
    assert_eq!(leaf.authorized.as_deref(), Some("1"));
    assert_eq!(leaf.removable.as_deref(), Some("fixed"));
    assert_eq!(leaf.maxchild.as_deref(), Some("0"));
    assert_eq!(value(&leaf.physical_location, "panel"), Some("front"));
    assert_eq!(leaf.interfaces.len(), 2);
    let if0 = &leaf.interfaces[0];
    assert_eq!(if0.name, "3-1.2:1.0");
    assert_eq!(if0.class.as_deref(), Some("0e"));
    assert_eq!(if0.description.as_deref(), Some("HD Webcam"));
    assert_eq!(if0.driver.as_deref(), Some("uvcvideo"));
    let iad = if0.iad.as_ref().expect("interface 0 belongs to an IAD");
    assert_eq!(iad.interface_count.as_deref(), Some("02"));
    assert_eq!(iad.function_class.as_deref(), Some("0e"));
    assert_eq!(if0.endpoints.len(), 1);
    assert_eq!(if0.endpoints[0].name, "ep_87");
    assert_eq!(if0.endpoints[0].max_packet_size.as_deref(), Some("0010"));
    assert_eq!(if0.endpoints[0].kind.as_deref(), Some("Interrupt"));
    assert_eq!(if0.endpoints[0].direction.as_deref(), Some("in"));
    let if1 = &leaf.interfaces[1];
    assert!(if1.iad.is_none(), "no iad_* files, no IAD");
    assert_eq!(if1.endpoints[0].kind.as_deref(), Some("Isoc"));

    let root_hub = &inv.devices[2];
    assert_eq!(root_hub.port_chain, "usb3");
    assert_eq!(root_hub.id_vendor.as_deref(), Some("1d6b"));
    assert!(root_hub.serial.is_none());
}

#[test]
fn inventory_without_a_usbids_database_leaves_resolved_names_absent() {
    let (entries, parents) = build_tree();
    let (inv, _) = collect_usb_inventory("/t/devices", Ok(&entries), &parents, None, no_info());
    assert!(inv.devices.iter().all(|d| d.vendor_name.is_none() && d.product_name.is_none()));
    assert_eq!(inv.usbids.source, None);
}

#[test]
fn inventory_notes_an_unreadable_root() {
    let (inv, notes) = collect_usb_inventory("/t/absent", Err(GONE.to_string()), &Vec::new(), None, no_info());
    assert!(inv.devices.is_empty());
    assert_eq!(notes.len(), 1);
    assert_eq!(notes[0].item, "sysfs usb devices");
}

#[test]
fn descriptor_blobs_are_read_to_their_real_length() {
    let (entries, _) = build_tree();
    let (blobs, notes) = read_descriptor_blobs(&entries);
    assert!(notes.is_empty(), "{notes:?}");
    let chains: Vec<&str> = blobs.iter().map(|b| b.port_chain.as_str()).collect();
    assert_eq!(chains, vec!["3-1", "3-1.2", "usb3"]);
    assert_eq!(blobs[0].descriptors.len(), 18);
    assert_eq!(blobs[0].descriptors[0], 0x12);
    assert!(blobs[0].bos.is_none(), "no bos_descriptors file: no BOS, not a note");
    assert_eq!(blobs[1].bos.as_deref().map(<[u8]>::len), Some(5));
    assert!(blobs[2].descriptors.is_empty(), "an empty file is an empty blob");
}

#[test]
fn descriptor_blobs_note_a_device_without_a_descriptors_file() {
    let entries = vec![at("/t/devices/1-1", "1-1", &[("busnum", text("1\n"))])];
    let (blobs, notes) = read_descriptor_blobs(&entries);
    assert!(blobs.is_empty());
    assert_eq!(notes.len(), 1);
    assert_eq!(notes[0].item, "1-1/descriptors");
}

fn followed(name: &str, target: &str, leaves: &[(&str, Leaf)]) -> Node {
    Node { link: Some(target.to_string()), ..at(target, name, leaves) }
}

fn got<'a>(d: &'a AttrDump, name: &str) -> Option<&'a str> {
    d.attrs.get(name).map(String::as_str)
}

#[test]
fn attr_dump_follows_top_level_links_caps_depth_and_records_inner_links_by_name() {
    let big = "x".repeat(ATTR_VALUE_CAP + 10);
    let class = vec![followed(
        "port0",
        "/t/real/port0",
        &[
            ("data_role", text("[host] device\n")),
            ("power_role", text("[source] sink\n")),
            ("port0-partner/accessory_mode", text("none\n")),
            ("port0-partner/port0-partner.0/mode1/active", text("yes\n")),
            ("port0-partner/port0-partner.0/mode1/deep/too-deep", text("x\n")),
            ("nvm_active0/nvmem", text("binary\n")),
            ("key", text("device-auth-secret\n")),
            ("power/control", text("auto\n")),
            ("big", text(&big)),
            ("bytes", Leaf::Bytes(&[0xff, 0xfe, 0x00])),
            ("driver", Leaf::Link("/t/drivers/typec")),
        ],
    )];
    let (dumps, notes) = dump_attrs("/t/class/typec", Ok(&class), 3);
    assert_eq!(dumps.len(), 1);
    let d = &dumps[0];
    assert_eq!(d.name, "port0");
    assert_eq!(got(d, "data_role"), Some("[host] device"));
    assert_eq!(got(d, "port0-partner/accessory_mode"), Some("none"));
    assert_eq!(got(d, "port0-partner/port0-partner.0/mode1/active"), Some("yes"));
    assert_eq!(got(d, "port0-partner/port0-partner.0/mode1/deep/too-deep"), None, "depth 4 is past the cap");
    assert_eq!(got(d, "nvm_active0/nvmem"), None, "nvmem is never read");
    assert_eq!(got(d, "key"), None, "key (a stored device-authentication secret) is never read");
    assert_eq!(got(d, "power/control"), None, "power/ is skipped");
    assert_eq!(got(d, "driver"), Some("-> typec"), "inner links are recorded, not followed");
    assert_eq!(got(d, "big").map(str::len), Some(ATTR_VALUE_CAP));
    assert_eq!(got(d, "bytes"), None, "non-UTF-8 values are skipped");
    assert_eq!(notes.len(), 1, "{notes:?}");
    assert!(notes[0].item.ends_with("port0/bytes"), "{notes:?}");
}

#[test]
fn attr_dump_cuts_a_long_text_in_front_of_the_character_that_does_not_fit() {
    let odd = format!("{}é tail", "x".repeat(ATTR_VALUE_CAP - 1));
    let wide = format!("{}\u{1f50c}", "y".repeat(ATTR_VALUE_CAP - 3));
    let even = format!("{}é tail", "z".repeat(ATTR_VALUE_CAP - 2));
    let mut broken = vec![b'x'; ATTR_VALUE_CAP - 1];
    broken.extend_from_slice(&[0xc3, b'x', b'x']);
    let mut late = vec![b'x'; ATTR_VALUE_CAP];
    late.push(0xa9);
    let class = vec![followed(
        "port0",
        "/t/real/port0",
        &[
            ("odd", text(&odd)),
            ("wide", text(&wide)),
            ("even", text(&even)),
            ("broken", Leaf::Bytes(&broken)),
            ("late", Leaf::Bytes(&late)),
        ],
    )];
    let (dumps, notes) = dump_attrs("/t/class/typec", Ok(&class), 3);
    let d = &dumps[0];
    assert_eq!(got(d, "odd"), Some("x".repeat(ATTR_VALUE_CAP - 1).as_str()));
    assert_eq!(got(d, "wide"), Some("y".repeat(ATTR_VALUE_CAP - 3).as_str()));
    assert_eq!(got(d, "even"), Some(format!("{}é", "z".repeat(ATTR_VALUE_CAP - 2)).as_str()));
    assert_eq!(got(d, "late").map(str::len), Some(ATTR_VALUE_CAP), "what is past the cap is not looked at");
    assert_eq!(got(d, "broken"), None);
    assert_eq!(notes.len(), 1, "{notes:?}");
    assert!(notes[0].item.ends_with("port0/broken"), "{notes:?}");
}

#[test]
fn secrets_and_noise_are_left_alone() {
    for name in ["nvmem", "key"] {
        assert!(!reads_file(name));
    }
    for name in ["power", "subsystem", "firmware_node"] {
        assert!(!walks_into(name));
    }
    assert!(reads_file("keys") && walks_into("port0-partner"));
}

#[test]
fn attr_dump_of_a_missing_root_is_empty_with_one_note() {
    let (dumps, notes) = dump_attrs("/t/thunderbolt", Err(GONE.to_string()), 2);
    assert!(dumps.is_empty());
    assert_eq!(notes.len(), 1);
}

#[test]
fn attr_dump_notes_an_entry_it_cannot_resolve() {
    let class = vec![
        followed(
            "port0",
            "/t/real/port0",
            &[("data_role", text("[host] device\n")), ("driver", Leaf::Link("/t/drivers/typec"))],
        ),
        Node {
            name: "port9".to_string(),
            link: Some("/t/gone".to_string()),
            canonical: None,
            content: Content::Absent,
        },
    ];
    let (dumps, notes) = dump_attrs("/t/class/typec", Ok(&class), 2);
    assert_eq!(dumps.len(), 1, "valid entry is dumped");
    assert_eq!(dumps[0].name, "port0");
    assert_eq!(got(&dumps[0], "data_role"), Some("[host] device"));
    assert_eq!(notes.len(), 1, "one note for the dangling symlink");
    assert!(notes[0].item.ends_with("port9"));
    assert!(notes[0].reason.starts_with("could not resolve: "));
}

#[test]
fn attr_dump_of_a_sparse_tree_notes_nothing_for_the_missing_attributes() {
    let class = vec![followed("port0", "/t/real/port0", &[("data_role", text("[host] device\n"))])];
    let (dumps, notes) = dump_attrs("/t/class/typec", Ok(&class), 2);
    assert_eq!(dumps.len(), 1);
    assert_eq!(got(&dumps[0], "data_role"), Some("[host] device"));
    assert_eq!(got(&dumps[0], "power_role"), None);
    assert_eq!(got(&dumps[0], "preferred_role"), None);
    assert_eq!(got(&dumps[0], "usb_power_delivery"), None);
    assert!(notes.is_empty(), "{notes:?}");
}

#[test]
fn attr_dump_notes_a_permission_denied_attribute_and_leaves_it_out_of_the_dump() {
    let class = vec![followed(
        "port0",
        "/t/real/port0",
        &[("data_role", text("[host] device\n")), ("power_role", Leaf::Locked)],
    )];
    let (dumps, notes) = dump_attrs("/t/class/typec", Ok(&class), 2);
    assert_eq!(dumps.len(), 1);
    assert_eq!(got(&dumps[0], "data_role"), Some("[host] device"), "the readable sibling attribute is unaffected");
    assert_eq!(got(&dumps[0], "power_role"), None, "an unreadable attribute is never recorded as a value");
    assert_eq!(notes.len(), 1, "{notes:?}");
    assert!(notes[0].item.ends_with("port0/power_role"));
    assert!(notes[0].reason.starts_with("could not read: "));
}

#[test]
fn usbids_info_names_the_active_source_and_its_date() {
    let mut r = Redactor::new(Some("/t/home/alice"));
    let info = usbids_info(Some("/t/home/alice/.usbtop-ng/usb.ids"), Some((2026, 8, 30)), &mut r);
    assert_eq!(info.source.as_deref(), Some("~/.usbtop-ng/usb.ids"));
    assert_eq!(info.date.as_deref(), Some("2026-08-30"));
    let none = usbids_info(None, None, &mut r);
    assert_eq!(none.source, None);
    assert_eq!(none.date, None);
}

#[test]
fn attr_dump_passes_over_a_vanished_file_and_an_unlistable_directory() {
    let class = vec![followed(
        "port0",
        "/t/real/port0",
        &[
            ("data_role", text("[host] device\n")),
            ("gone", Leaf::Vanished),
            ("closed", Leaf::Unlisted),
            ("locked", Leaf::Locked),
        ],
    )];
    let (dumps, notes) = dump_attrs("/t/class/typec", Ok(&class), 2);
    assert_eq!(dumps[0].attrs.len(), 1);
    assert_eq!(got(&dumps[0], "data_role"), Some("[host] device"));
    let said: Vec<(&str, &str)> = notes.iter().map(|n| (n.item.as_str(), n.reason.as_str())).collect();
    assert_eq!(said, [("/t/real/port0/locked", "could not read: Permission denied (os error 13)")]);
}

#[test]
fn a_vanished_bos_is_normal_and_vanished_descriptors_are_noted() {
    let entries = vec![
        at("/t/1-1", "1-1", &[("descriptors", Leaf::Bytes(&[0x12, 0xff])), ("bos_descriptors", Leaf::Vanished)]),
        at("/t/1-2", "1-2", &[("descriptors", Leaf::Vanished)]),
    ];
    let (blobs, notes) = read_descriptor_blobs(&entries);
    assert_eq!(blobs.len(), 1);
    assert_eq!((blobs[0].port_chain.as_str(), &blobs[0].bos), ("1-1", &None));
    assert_eq!(notes.len(), 1);
    assert_eq!(notes[0].reason, format!("could not read: {GONE}"));
}

#[test]
fn a_home_right_behind_another_is_not_at_a_path_boundary() {
    let mut r = Redactor::new(Some("/home/alice"));
    assert_eq!(r.text("/home/alice/home/alice"), "~/home/alice");
    assert_eq!(r.summary(), vec![counted("home_path", 1)]);

    let mut r = Redactor::new(Some("/home/alice"));
    assert_eq!(r.text("/home/alice /home/alice"), "~ ~");
    assert_eq!(r.summary(), vec![counted("home_path", 2)]);
}

#[test]
fn a_login_name_that_runs_into_the_home_is_no_whole_component() {
    let mut r = Redactor::new(Some("x/alice"));
    assert_eq!(r.text("/media/alicex/alice"), "/media/alicex/alice");
    assert!(r.summary().is_empty());
}

#[test]
fn path_characters_are_letters_digits_and_three_marks() {
    for c in ['a', 'Z', '0', '9', '_', '-', '.', '\u{e9}'] {
        assert!(path_char(c), "{c}");
    }
    for c in ['/', ' ', '"', ':', '\n', '~'] {
        assert!(!path_char(c), "{c:?}");
    }
}

#[test]
fn mac_masking_keeps_the_rest_counts_each_and_settles() {
    let mut r = Redactor::new(None);
    let line = "r8152 2-1: 00:e0:4c:68:00:01, 00:E0:4C:68:00:02 a0:00:e0:4c:68:00:01 x";
    let masked = r.mac_addresses(line);
    assert_eq!(masked, "r8152 2-1: xx:xx:xx:xx:xx:xx, xx:xx:xx:xx:xx:xx a0:00:e0:4c:68:00:01 x");
    assert_eq!(r.summary(), vec![counted("mac_address", 2)]);
    assert_eq!(r.mac_addresses(&masked), masked);
    assert_eq!(r.summary(), vec![counted("mac_address", 2)]);
}

#[test]
fn iso_texts_sort_as_their_times_and_shrink_to_stamps() {
    let times = [0, 59, 60, 3_599, 3_600, 86_399, 86_400, 951_782_400, 1_788_000_000, 253_402_300_799];
    let texts: Vec<String> = times.iter().map(|t| utc_iso(*t)).collect();
    for pair in texts.windows(2) {
        assert!(pair[0] < pair[1], "{pair:?}");
    }
    for (time, text) in times.iter().zip(&texts) {
        assert_eq!(text.len(), 20, "{text}");
        assert_eq!(text.replace(['-', ':'], ""), utc_stamp(*time));
    }
    assert_eq!(texts[9], "9999-12-31T23:59:59Z");
}

#[test]
fn an_uptime_that_is_no_number_is_not_kept() {
    let empty = Vec::new();
    for (written, kept) in [("soon 1.0\n", None), ("1.5e3 2\n", Some("1.5e3")), ("7\n", Some("7"))] {
        let proc_root = tree(&[("uptime", text(written))]);
        let roots = HostRoots {
            proc_root: &proc_root,
            sys_root: &empty,
            etc_root: &empty,
            dmi_root: &empty,
            device_tree_root: &empty,
        };
        let (host, _) = collect_host(&roots, None, &mut Redactor::new(None));
        assert_eq!(host.uptime_s.as_deref(), kept, "{written}");
    }
}

#[test]
fn float_texts_are_those_that_parse() {
    for s in [
        "0", "1.5", "5.", ".5", "-1", "+2", "1e3", "1E-3", "1.e+2", "inf", "-Infinity", "NaN", "", ".", "e3", "1e", "1e+",
        "--1", "1.2.3", "0x10", "1_0", "in", "infinit", " 1", "nan0", "+", "1f", "\u{661}",
    ] {
        let chars: Vec<char> = s.chars().collect();
        assert_eq!(float_text(&chars), s.parse::<f64>().is_ok(), "{s:?}");
    }
}

#[test]
fn an_unlistable_parameter_directory_is_noted_with_its_reason() {
    let empty = Vec::new();
    let sys_root = tree(&[("module/usbcore/parameters", Leaf::Unlisted)]);
    let roots = HostRoots {
        proc_root: &empty,
        sys_root: &sys_root,
        etc_root: &empty,
        dmi_root: &empty,
        device_tree_root: &empty,
    };
    let (_, notes) = collect_host(&roots, None, &mut Redactor::new(None));
    let said = notes.iter().find(|n| n.item == "sys/module/usbcore/parameters").unwrap();
    assert_eq!(said.reason, "Permission denied (os error 13)");
}

#[test]
fn a_terminal_is_asked_for_seven_variables_only() {
    let ask = |ssh: &str| {
        let env = |name: &str| -> Option<String> {
            match name {
                "TERM" => Some("xterm".into()),
                "COLORTERM" | "LANG" | "LC_ALL" => None,
                "SSH_TTY" | "SSH_CONNECTION" => None,
                "SSH_CLIENT" => Some(ssh.into()),
                other => panic!("{other} was asked for"),
            }
        };
        format!("{:?}", collect_terminal(&env, None, true, true, "supported"))
    };
    assert_eq!(ask("10.0.0.2 1 22"), ask("10.0.0.3 2 22"), "the value of a marker never shows");
    assert_ne!(ask("10.0.0.2 1 22"), ask(""), "an empty marker is not set");
}

#[test]
fn the_handshake_runs_on_a_local_terminal_only() {
    assert_eq!(sync_step(true, true, false), SyncStep::Probe);
    let piped = SyncStep::Settled("not probed: stdin or stdout is not a terminal");
    assert_eq!(sync_step(false, true, false), piped);
    assert_eq!(sync_step(true, false, true), piped);
    assert_eq!(sync_step(true, true, true), SyncStep::Settled("not probed: remote session, assumed unsupported"));
    assert_eq!(sync_answer(true), "supported");
    assert_eq!(sync_answer(false), "unsupported");
}
