use usbtop_ng::device::bos::{
    capability_from_bos, rate_capabilities_only, read_capability, read_max_capability, BosFile, Capability,
    CapabilitySource,
};
use usbtop_ng::device::manager::{DeviceManager, TrafficDelta, UsbBus};
use usbtop_ng::device::{SpeedIndicator, UsbDevice};
use usbtop_ng::filter::FilterSet;
use usbtop_ng::snapshot::{Snapshot, SnapshotDevice};
use usbtop_ng::speed::{short_rate, UsbSpeed};
use usbtop_ng::stats::{BandwidthStats, WindowCounter, WINDOW_MS};
use usbtop_ng::sysfs::{Content, Node, Sysfs};
use usbtop_ng::usbids::{ProductName, UsbIds, VendorName};
use usbtop_ng::usbmon::{TransferType, UrbType, UsbPacket};

// The BOS descriptor.

/// The NVMe adapter's shape: USB 2.0 extension, SuperSpeed (full, high
/// and 5 Gb/s), SuperSpeedPlus with two 10 Gb/s sublink attributes
/// (0x000a4030 rx, 0x000a40b0 tx: mantissa 10, exponent Gb/s).
const ADAPTER: &[u8] = &[
    0x05, 0x0f, 0x2a, 0x00, 0x03, // BOS: 42 bytes, 3 capabilities
    0x07, 0x10, 0x02, 0x06, 0x00, 0x00, 0x00, // USB 2.0 extension
    0x0a, 0x10, 0x03, 0x00, 0x0e, 0x00, 0x03, 0x0a, 0xff, 0x07, // SuperSpeed
    0x14, 0x10, 0x0a, 0x00, 0x01, 0x00, 0x00, 0x00, 0x00, 0x11, 0x00, 0x00, // SSP head
    0x30, 0x40, 0x0a, 0x00, // sublink 0: 10 Gb/s
    0xb0, 0x40, 0x0a, 0x00, // sublink 1: 10 Gb/s
];

/// The camera's shape: USB 2.0 extension plus SuperSpeed (high and
/// 5 Gb/s), no SuperSpeedPlus.
const CAMERA: &[u8] = &[
    0x05, 0x0f, 0x16, 0x00, 0x02, // BOS: 22 bytes, 2 capabilities
    0x07, 0x10, 0x02, 0x06, 0x00, 0x00, 0x00, // USB 2.0 extension
    0x0a, 0x10, 0x03, 0x00, 0x0c, 0x00, 0x03, 0x0a, 0xff, 0x07, // SuperSpeed
];

/// The dock billboard's shape: USB 2.0 extension, container ID and a
/// billboard capability; nothing SuperSpeed.
const BILLBOARD: &[u8] = &[
    0x05, 0x0f, 0x28, 0x00, 0x03, // BOS: 40 bytes, 3 capabilities
    0x07, 0x10, 0x02, 0x00, 0x00, 0x00, 0x00, // USB 2.0 extension
    0x14, 0x10, 0x04, 0x00, 0x01, 0x02, 0x03, 0x04, 0x05, 0x06, 0x07, 0x08, // container ID
    0x09, 0x0a, 0x0b, 0x0c, 0x0d, 0x0e, 0x0f, 0x10, 0x08, 0x10, 0x0d, 0x00, 0x00, 0x00, 0x00,
    0x00, // billboard (truncated shape)
];

/// A dock hub's shape: USB 2.0 extension, SuperSpeed, SuperSpeedPlus
/// with four sublinks, then a Container ID whose UUID names the unit.
const HUB_WITH_CONTAINER_ID: &[u8] = &[
    0x05, 0x0f, 0x3d, 0x00, 0x04, // BOS: 61 bytes, 4 capabilities
    0x07, 0x10, 0x02, 0x06, 0x00, 0x00, 0x00, // USB 2.0 extension
    0x0a, 0x10, 0x03, 0x00, 0x0e, 0x00, 0x01, 0x08, 0xbe, 0x00, // SuperSpeed
    0x1c, 0x10, 0x0a, 0x00, 0x23, 0x00, 0x00, 0x00, 0x00, 0x11, 0x00, 0x00, // SSP head
    0x30, 0x00, 0x05, 0x00, 0xb0, 0x00, 0x05, 0x00, // 5 Gb/s rx, tx
    0x31, 0x40, 0x0a, 0x00, 0xb1, 0x40, 0x0a, 0x00, // 10 Gb/s rx, tx
    0x14, 0x10, 0x04, 0x00, 0xc0, 0x7b, 0x0c, 0x8d, 0xd4, 0x1c, 0x45, 0x73, // Container ID
    0xa5, 0x4f, 0x7d, 0xfa, 0xb6, 0x0a, 0xef, 0x18,
];

#[test]
fn superspeedplus_sublink_attributes_give_the_lane_rate() {
    assert_eq!(capability_from_bos(ADAPTER), Some(UsbSpeed::from_mbps(10000)));
}

#[test]
fn superspeed_alone_gives_five_gbps() {
    assert_eq!(capability_from_bos(CAMERA), Some(UsbSpeed::from_mbps(5000)));
}

#[test]
fn a_bos_without_superspeed_gives_no_capability() {
    assert_eq!(capability_from_bos(BILLBOARD), None);
}

#[test]
fn a_twenty_gbps_mantissa_decodes() {
    let mut bos = ADAPTER.to_vec();
    // Sublink 0's mantissa byte (index 36 of the array: cap offset 12 +
    // byte 2 of the little-endian u32) becomes 0x00144030: mantissa 20,
    // exponent Gb/s.
    bos[36] = 0x14;
    assert_eq!(capability_from_bos(&bos), Some(UsbSpeed::from_mbps(20000)));
}

#[test]
fn a_kilobit_exponent_decodes_below_a_megabit() {
    let mut bos = ADAPTER.to_vec();
    // Both sublinks' low byte (indices 34 and 38): mantissa 10, exponent
    // Kb/s (0x000a4010 each): 0.01 Mb/s, so the SuperSpeed 5 Gb/s wins
    // the maximum.
    bos[34] = 0x10;
    bos[38] = 0x10;
    assert_eq!(capability_from_bos(&bos), Some(UsbSpeed::from_mbps(5000)));
}

/// The other two exponents: a sublink stated in b/s or in Mb/s. The
/// SuperSpeed capability is dropped from the copy so the sublink
/// value is the whole answer.
#[test]
fn bit_and_megabit_exponents_decode() {
    // Strip the SuperSpeed capability: header + USB 2 extension + SSP.
    let mut without_ss = ADAPTER[..12].to_vec();
    without_ss.extend_from_slice(&ADAPTER[22..]);
    without_ss[2] = 0x20; // wTotalLength 32
    without_ss[4] = 0x02; // two capabilities
    // Sublink 0 in b/s (exponent 0): mantissa 10 is 0.00001 Mb/s;
    // sublink 1 in Mb/s (exponent 2): 0x000a4020 is 10 Mb/s.
    without_ss[24] = 0x00;
    without_ss[28] = 0x20;
    assert_eq!(capability_from_bos(&without_ss), Some(UsbSpeed::from_mbps(10)));
    // Only the b/s sublink left: the capability is that tiny rate, 0.00001
    // Mb/s, which can never exceed a link and so never fires a finding.
    without_ss[28] = 0x00;
    assert_eq!(capability_from_bos(&without_ss), Some(UsbSpeed::from_bps(10)));
}

#[test]
fn malformed_input_never_panics_and_reads_what_it_can() {
    assert_eq!(capability_from_bos(&[]), None);
    assert_eq!(capability_from_bos(&[0x00]), None);
    assert_eq!(capability_from_bos(&[0x05, 0x10, 0x05, 0x00, 0x00]), None, "not a BOS");
    assert_eq!(capability_from_bos(&[0x05, 0x0f, 0x05, 0x00, 0x00]), None, "no capabilities");
    // Cut inside the SSP capability: the SuperSpeed one before it still counts.
    assert_eq!(capability_from_bos(&ADAPTER[..30]), Some(UsbSpeed::from_mbps(5000)));
    // A zero bLength stops the walk instead of looping.
    let mut zero = CAMERA.to_vec();
    zero[12] = 0x00;
    assert_eq!(capability_from_bos(&zero), None);
    // wTotalLength beyond the bytes read: clamp, do not index past the end.
    let mut long = CAMERA.to_vec();
    long[2] = 0xff;
    long[3] = 0x7f;
    assert_eq!(capability_from_bos(&long), Some(UsbSpeed::from_mbps(5000)));
}

#[test]
fn rate_capabilities_only_keeps_the_rate_statement_and_drops_the_rest() {
    let reduced = rate_capabilities_only(HUB_WITH_CONTAINER_ID);
    // Header (5) + SuperSpeed (10) + SuperSpeedPlus (28): two capabilities.
    assert_eq!(&reduced[..5], &[0x05, 0x0f, 0x2b, 0x00, 0x02]);
    assert_eq!(reduced.len(), 43);
    assert_eq!(&reduced[5..15], &HUB_WITH_CONTAINER_ID[12..22]);
    assert_eq!(&reduced[15..], &HUB_WITH_CONTAINER_ID[22..50]);
    // Nothing of the UUID survives, and the rate reads the same.
    assert!(!reduced.windows(4).any(|w| w == [0xc0, 0x7b, 0x0c, 0x8d]));
    assert_eq!(capability_from_bos(&reduced), capability_from_bos(HUB_WITH_CONTAINER_ID));
    assert_eq!(capability_from_bos(&reduced), Some(UsbSpeed::from_mbps(10000)));
    // Reducing twice is the identity.
    assert_eq!(rate_capabilities_only(&reduced), reduced);
}

#[test]
fn rate_capabilities_only_leaves_a_bare_header_for_a_usb2_device_and_for_garbage() {
    let bare = [0x05, 0x0f, 0x05, 0x00, 0x00];
    assert_eq!(rate_capabilities_only(BILLBOARD), bare);
    assert_eq!(capability_from_bos(&bare), None, "a bare header reads as no capability");
    assert_eq!(rate_capabilities_only(&[]), bare);
    assert_eq!(rate_capabilities_only(b"garbage"), bare);
    assert_eq!(rate_capabilities_only(&[0x05, 0x10, 0x05, 0x00, 0x00]), bare);
    // A truncated SSP capability is dropped with the rest of the walk.
    let reduced = rate_capabilities_only(&ADAPTER[..30]);
    assert_eq!(reduced.len(), 15, "header plus the SuperSpeed capability");
    assert_eq!(capability_from_bos(&reduced), Some(UsbSpeed::from_mbps(5000)));
}

#[test]
fn read_capability_lets_the_bos_decide_and_falls_back_to_bcd_usb() {
    let version = |text: &str| text.to_string();
    // BOS present with SuperSpeed, bcdUSB 2.10 (a device linked at High Speed).
    assert_eq!(
        read_capability(&BosFile::Present(CAMERA.to_vec()), Some(&version(" 2.10\n"))),
        Some(Capability { speed: UsbSpeed::from_mbps(5000), source: CapabilitySource::Bos })
    );
    // BOS present without SuperSpeed beats a bcdUSB 3.x claim.
    assert_eq!(read_capability(&BosFile::Present(BILLBOARD.to_vec()), Some(&version(" 3.20\n"))), None);
    // No BOS file: bcdUSB 3.x is a 5 Gb/s floor, labelled.
    assert_eq!(
        read_capability(&BosFile::Absent, Some(&version(" 3.20\n"))),
        Some(Capability { speed: UsbSpeed::from_mbps(5000), source: CapabilitySource::BcdUsb })
    );
    assert_eq!(read_capability(&BosFile::Absent, Some(&version(" 2.10\n"))), None);
    assert_eq!(read_capability(&BosFile::Absent, Some(&version("not-a-version\n"))), None);
    assert_eq!(read_capability(&BosFile::Absent, None), None, "no version file");
}

#[test]
fn capability_source_names_are_the_json_values() {
    assert_eq!(CapabilitySource::Bos.as_str(), "bos");
    assert_eq!(CapabilitySource::BcdUsb.as_str(), "bcd_usb");
}

// One device.

const BASE: &str = "/t/devices";

fn file(name: &str, text: &str) -> Node {
    Node { name: name.to_string(), link: None, canonical: None, content: Content::Text(text.to_string()) }
}

fn dir(name: &str, entries: Vec<Node>) -> Node {
    Node {
        name: name.to_string(),
        link: None,
        canonical: Some(format!("{BASE}/{name}")),
        content: Content::Directory(entries),
    }
}

fn device_dir(name: &str, busnum: u8, devnum: u8, extra: &[(&str, &str)]) -> Node {
    let mut files = vec![file("busnum", &format!("{busnum}\n")), file("devnum", &format!("{devnum}\n"))];
    for (attr, value) in extra {
        files.push(file(attr, &format!("{value}\n")));
    }
    dir(name, files)
}

fn sysfs(entries: Vec<Node>) -> Sysfs {
    Sysfs { base: BASE.to_string(), entries }
}

fn high() -> UsbSpeed {
    UsbSpeed::from_mbps(480)
}

fn full() -> UsbSpeed {
    UsbSpeed::from_mbps(12)
}

fn superspeed() -> UsbSpeed {
    UsbSpeed::from_mbps(5000)
}

fn names(vendors: &[(u16, &str)], products: &[(u16, u16, &str)]) -> UsbIds {
    UsbIds {
        vendors: vendors.iter().map(|(v, n)| VendorName { vendor: *v, name: n.to_string() }).collect(),
        products: products
            .iter()
            .map(|(v, p, n)| ProductName { vendor: *v, product: *p, name: n.to_string() })
            .collect(),
    }
}

#[test]
fn resolves_device_by_busnum_devnum_topology() {
    // Root hub: usb1 (busnum 1, devnum 1); device at port path 1-2.4
    let tree = sysfs(vec![
        device_dir("usb1", 1, 1, &[("speed", "480")]),
        // Interface directory must be skipped, not matched
        dir("1-2.4:1.0", vec![]),
        device_dir(
            "1-2.4",
            1,
            5,
            &[
                ("speed", "480"),
                ("idVendor", "1d6b"),
                ("idProduct", "0002"),
                ("manufacturer", "Linux Foundation"),
                ("product", "Root Hub"),
                ("serial", "test-serial"),
            ],
        ),
    ]);
    let mut device = UsbDevice::new(1, 5, 0);
    device.populate_from_sysfs(&tree);

    assert_eq!(device.speed, high());
    assert_eq!(device.vendor_id, Some(0x1d6b));
    assert_eq!(device.product_id, Some(0x0002));
    assert_eq!(device.vendor.as_deref(), Some("Linux Foundation"));
    assert_eq!(device.product.as_deref(), Some("Root Hub"));
    assert_eq!(device.serial.as_deref(), Some("test-serial"));
    assert_eq!(device.sysfs_path.as_deref(), Some("/t/devices/1-2.4"));
}

#[test]
fn port_chain_parses_topology_names() {
    let mk = |name: &str| {
        let mut d = UsbDevice::new(3, 2, 0);
        d.sysfs_path = Some(format!("{BASE}/{name}"));
        d
    };
    assert_eq!(mk("3-1.4.2").port_chain(), Some(vec![1, 4, 2]));
    assert_eq!(mk("3-2").port_chain(), Some(vec![2]));
    assert_eq!(mk("usb3").port_chain(), Some(vec![]));
    assert_eq!(mk("garbage").port_chain(), None);
    assert_eq!(UsbDevice::new(3, 9, 0).port_chain(), None); // no sysfs_path
}

#[test]
fn unmatched_device_resolves_nothing() {
    let tree = sysfs(vec![device_dir("usb1", 1, 1, &[("speed", "480")])]);
    let mut device = UsbDevice::new(1, 9, 0);
    device.populate_from_sysfs(&tree);

    assert_eq!(device.sysfs_path, None);
    assert_eq!(device.vendor, None);
}

#[test]
fn populate_from_dir_reads_metadata_from_the_given_dir() {
    let entry = device_dir("1-4", 1, 4, &[("speed", "480"), ("idVendor", "1d6b")]);
    let tree = sysfs(vec![]);
    let mut device = UsbDevice::new(1, 4, 0);
    device.populate_from_dir(&tree, &entry);

    assert_eq!(device.sysfs_path.as_deref(), Some("/t/devices/1-4"));
    assert_eq!(device.speed, high());
    assert_eq!(device.vendor_id, Some(0x1d6b));
}

#[test]
fn populate_from_dir_sets_sysfs_path_even_when_the_dir_is_gone() {
    // Unplugged between the listing that found this directory and reading it.
    let entry = Node {
        name: "1-4".to_string(),
        link: None,
        canonical: None,
        content: Content::Absent,
    };
    let mut device = UsbDevice::new(1, 4, 0);
    device.populate_from_dir(&sysfs(vec![]), &entry);

    assert_eq!(
        device.sysfs_path.as_deref(),
        Some("/t/devices/1-4"),
        "an enumerated device must keep a sysfs_path even when its metadata can't be read"
    );
}

#[test]
fn max_capability_reads_declared_bcd_usb_version() {
    let tree = sysfs(vec![device_dir("1-2", 1, 5, &[("speed", "480"), ("version", "3.20")])]);
    let mut d = UsbDevice::new(1, 5, 0);
    d.populate_from_sysfs(&tree);
    assert_eq!(d.max_capability, Some(superspeed()));
    assert_eq!(d.check_speed_mismatch(&high()), Some(superspeed()));
    assert_eq!(d.get_speed_indicator(&high()), SpeedIndicator::LimitedByBus(superspeed()));
}

#[test]
fn high_utilization_indicator_above_80_percent() {
    let mut d = UsbDevice::new(1, 3, 0);
    d.speed = full(); // practical 1.2 MB/s
    d.bandwidth_stats.current_bps = 1_100_000;
    assert!(d.get_busy_percentage() > 8_000);
    assert_eq!(d.get_speed_indicator(&full()), SpeedIndicator::HighUtilization);
}

#[test]
fn limited_by_bus_takes_precedence_over_high_utilization() {
    let tree = sysfs(vec![device_dir("1-2", 1, 7, &[("speed", "480"), ("version", "3.20")])]);
    let mut d = UsbDevice::new(1, 7, 0);
    d.populate_from_sysfs(&tree);
    // Utilization is above the threshold too: LimitedByBus must still win.
    d.bandwidth_stats.current_bps = 1_000_000_000;
    assert!(d.get_busy_percentage() > 8_000);
    assert_eq!(d.get_speed_indicator(&high()), SpeedIndicator::LimitedByBus(superspeed()));
}

#[test]
fn normal_indicator_when_no_mismatch_and_low_utilization() {
    let mut d = UsbDevice::new(1, 9, 0);
    d.speed = high();
    assert_eq!(d.get_speed_indicator(&high()), SpeedIndicator::Normal);
}

#[test]
fn the_threshold_itself_is_not_high_utilization() {
    let mut d = UsbDevice::new(1, 9, 0);
    d.speed = full();
    d.bandwidth_stats.current_bps = 960_000;
    assert_eq!(d.get_busy_percentage(), 8_000);
    assert_eq!(d.get_speed_indicator(&full()), SpeedIndicator::Normal);
    d.speed = UsbSpeed::unknown();
    assert_eq!(d.get_busy_percentage(), 0);
}

#[test]
fn read_max_capability_signals_only_on_declared_usb_3() {
    let version = |text: &str| text.to_string();
    assert_eq!(read_max_capability(Some(&version("3.20\n"))), Some(superspeed()));
    // Real sysfs pads the field; 2.x says nothing about SuperSpeed support.
    assert_eq!(read_max_capability(Some(&version(" 2.10\n"))), None);
    assert_eq!(read_max_capability(Some(&version(" 1.10\n"))), None);
}

#[test]
fn read_max_capability_none_when_version_is_missing_or_unparsable() {
    assert_eq!(read_max_capability(None), None, "no version file");
    assert_eq!(read_max_capability(Some(&"not-a-version\n".to_string())), None);
}

#[test]
fn no_capability_signal_falls_through_to_utilization_indicators() {
    let tree = sysfs(vec![device_dir("1-3", 1, 4, &[("speed", "12"), ("version", " 2.00")])]);
    let mut d = UsbDevice::new(1, 4, 0);
    d.populate_from_sysfs(&tree);
    assert_eq!(d.max_capability, None);
    assert_eq!(d.check_speed_mismatch(&high()), None);
    assert_eq!(d.get_speed_indicator(&high()), SpeedIndicator::Normal);

    // Full speed practical max is 1.2 MB/s, so this crosses 80% busy.
    d.bandwidth_stats.current_bps = 1_100_000;
    assert_eq!(d.get_speed_indicator(&high()), SpeedIndicator::HighUtilization);
}

#[test]
fn speed_indicator_symbols_and_colors() {
    assert_eq!(SpeedIndicator::Normal.get_symbol(), "");
    assert_eq!(SpeedIndicator::HighUtilization.get_symbol(), "⚡");
    assert_eq!(SpeedIndicator::LimitedByBus(superspeed()).get_symbol(), "🔺");
    assert_eq!(SpeedIndicator::Normal.get_color(), (128, 128, 128));
    assert_eq!(SpeedIndicator::HighUtilization.get_color(), (255, 165, 0));
    assert_eq!(SpeedIndicator::LimitedByBus(superspeed()).get_color(), (255, 255, 0));
}

#[test]
fn speed_indicator_description_mentions_capability() {
    let indicator = SpeedIndicator::LimitedByBus(superspeed());
    assert!(indicator.get_description().contains("5 Gbps"));
    assert_eq!(SpeedIndicator::Normal.get_description(), "Normal operation");
}

#[test]
fn apply_usbids_overlays_both_fields_when_the_database_has_them() {
    let db = names(&[(0x0430, "Fujitsu Component Limited")], &[(0x0430, 0x0100, "3-button Mouse")]);
    let mut d = UsbDevice::new(1, 4, 0);
    d.vendor_id = Some(0x0430);
    d.product_id = Some(0x0100);
    d.vendor = Some("StringVendor".to_string());
    d.product = Some("StringProduct".to_string());

    d.apply_usbids(&db);

    assert_eq!(d.vendor.as_deref(), Some("Fujitsu Component Limited"));
    assert_eq!(d.product.as_deref(), Some("3-button Mouse"));
}

#[test]
fn apply_usbids_keeps_the_device_string_for_a_field_the_database_lacks() {
    // vendor 0430 only, no 0a99 product entry.
    let db = names(&[(0x0430, "Fujitsu Component Limited")], &[]);
    let mut d = UsbDevice::new(1, 4, 0);
    d.vendor_id = Some(0x0430);
    d.product_id = Some(0x0a99);
    d.vendor = Some("StringVendor".to_string());
    d.product = Some("StringProduct".to_string());

    d.apply_usbids(&db);

    assert_eq!(d.vendor.as_deref(), Some("Fujitsu Component Limited"), "vendor known to the database wins");
    assert_eq!(
        d.product.as_deref(),
        Some("StringProduct"),
        "product unknown to the database keeps the device string"
    );
}

#[test]
fn apply_usbids_with_no_vendor_id_leaves_both_strings_alone() {
    let db = names(&[(0x0430, "Fujitsu Component Limited")], &[]);
    let mut d = UsbDevice::new(1, 4, 0);
    d.vendor = Some("StringVendor".to_string());
    d.product = Some("StringProduct".to_string());

    d.apply_usbids(&db);

    assert_eq!(d.vendor.as_deref(), Some("StringVendor"));
    assert_eq!(d.product.as_deref(), Some("StringProduct"));
}

#[test]
fn a_device_is_dropped_after_more_than_five_whole_seconds() {
    let mut d = UsbDevice::new(1, 4, 0);
    assert!(!d.should_remove(1_000_000));
    d.mark_disconnected(1_000);
    assert!(!d.should_remove(6_999));
    assert!(d.should_remove(7_000));
    d.mark_disconnected(50_000);
    assert!(d.should_remove(7_000), "the first time it was missed counts");
    d.update_activity(8_000);
    assert!(!d.is_disconnected);
    assert!(!d.should_remove(1_000_000));
}

// The manager.

fn manager() -> DeviceManager {
    DeviceManager::with_sysfs_base(BASE.to_string())
}

fn packet(kind: UrbType, bus: u8, device: u8, endpoint: u8, dir_in: bool, transfer: TransferType, bytes: u32) -> UsbPacket {
    UsbPacket {
        urb_type: kind,
        bus_id: bus,
        device_id: device,
        endpoint,
        direction: dir_in,
        transfer_type: Some(transfer),
        data_length: bytes,
    }
}

fn bulk_in(bus: u8, device: u8, bytes: u32) -> UsbPacket {
    packet(UrbType::Callback, bus, device, 1, true, TransferType::Bulk, bytes)
}

fn at(mgr: &DeviceManager, bus: u8, device: u8) -> &UsbDevice {
    mgr.device(bus, device).unwrap()
}

fn endpoint(d: &UsbDevice, number: u8, dir_in: bool) -> (TransferType, u64) {
    let e = d.endpoints.iter().find(|e| e.endpoint == number && e.dir_in == dir_in).unwrap();
    (e.transfer_type, e.total_bytes)
}

#[test]
fn apply_packet_counts_only_callback_data() {
    let mut mgr = manager();
    let empty = sysfs(vec![]);
    mgr.apply_packet(&packet(UrbType::Submission, 1, 3, 1, true, TransferType::Bulk, 512), &empty, 0);
    assert_eq!(at(&mgr, 1, 3).bandwidth_stats.total_rx_bytes, 0, "submissions must not count");

    mgr.apply_packet(&bulk_in(1, 3, 512), &empty, 0);
    assert_eq!(at(&mgr, 1, 3).bandwidth_stats.total_rx_bytes, 512);
    assert_eq!(at(&mgr, 1, 3).bandwidth_stats.total_tx_bytes, 0);
}

#[test]
fn device_and_endpoint_rates_share_one_window() {
    let mut mgr = manager();
    let tree = sysfs(vec![device_dir("1-2", 1, 4, &[])]);
    mgr.apply_packet(&bulk_in(1, 3, 512), &tree, 0);
    mgr.enumerate_present_devices(&tree, 0);
    mgr.apply_delta(
        &TrafficDelta {
            bus_id: 2,
            device_id: 9,
            endpoint: 2,
            dir_in: false,
            transfer_type: Some(TransferType::Interrupt),
            bytes: 20_000,
        },
        &tree,
        0,
    );
    mgr.refresh(&tree, 5_000);
    for (bus, device) in [(1, 3), (1, 4), (2, 9)] {
        let d = at(&mgr, bus, device);
        assert_eq!(d.bandwidth_stats.window.window_ms, WINDOW_MS);
        assert!(d.endpoints.iter().all(|e| e.counter.window_ms == WINDOW_MS));
    }
    assert_eq!(at(&mgr, 2, 9).bandwidth_stats.current_bps, 2_000, "20000 bytes over ten seconds");
}

#[test]
fn a_new_bus_knows_nothing_but_its_devices() {
    let mut mgr = manager();
    let tree = sysfs(vec![device_dir("3-1", 3, 7, &[])]);
    mgr.touch_device(1, 3, &tree, 0);
    mgr.enumerate_present_devices(&tree, 0);
    for bus in [1, 3] {
        let b = mgr.bus(bus).unwrap();
        assert_eq!((b.speed.bps, b.controller.as_deref()), (0, None));
    }
    assert!(mgr.bus(2).is_none(), "no bus appears without a device");
}

#[test]
fn endpoints_stay_in_order_and_rows_apart_through_every_step() {
    let mut mgr = manager();
    let tree = sysfs(vec![device_dir("1-1", 1, 3, &[]), device_dir("1-2", 1, 4, &[])]);
    for (ep, dir_in) in [(9, true), (2, false), (2, true), (9, true), (1, true)] {
        mgr.apply_packet(&packet(UrbType::Callback, 1, 3, ep, dir_in, TransferType::Bulk, 8), &tree, 0);
    }
    mgr.enumerate_present_devices(&tree, 0);
    mgr.refresh(&tree, 1);
    let d = at(&mgr, 1, 3);
    let order: Vec<(u8, bool)> = d.endpoints.iter().map(|e| (e.endpoint, e.dir_in)).collect();
    assert_eq!(order, [(1, true), (2, false), (2, true), (9, true)]);
    let mut ids: Vec<u8> = mgr.bus(1).unwrap().devices.iter().map(|d| d.device_id).collect();
    ids.sort();
    assert_eq!(ids, [3, 4]);
}

#[test]
fn apply_packet_routes_out_transfers_to_tx() {
    let mut mgr = manager();
    mgr.apply_packet(&packet(UrbType::Callback, 2, 4, 2, false, TransferType::Bulk, 128), &sysfs(vec![]), 0);
    assert_eq!(at(&mgr, 2, 4).bandwidth_stats.total_tx_bytes, 128);
    assert_eq!(at(&mgr, 2, 4).bandwidth_stats.total_rx_bytes, 0);
}

#[test]
fn refresh_reports_removed_devices() {
    let mut mgr = manager();
    let empty = sysfs(vec![]);
    mgr.apply_packet(&bulk_in(1, 5, 64), &empty, 0);
    for bus in mgr.buses.iter_mut() {
        for d in bus.devices.iter_mut() {
            d.mark_disconnected(10_000);
            d.disconnect_time = Some(0);
        }
    }
    let removed = mgr.refresh(&empty, 10_000);
    assert_eq!(removed, vec![(1, 5)]);
    assert!(mgr.bus(1).is_none(), "empty buses are dropped");
}

#[test]
fn busy_percentage_none_for_unknown_bus_speed() {
    let mut mgr = manager();
    let k = mgr.get_or_create_bus(1);
    assert_eq!(mgr.buses[k].speed, UsbSpeed::unknown());
    assert_eq!(mgr.buses[k].busy_percentage(), None);
}

fn busy_bus(rates: &[(u8, u64)]) -> UsbBus {
    let mut bus = UsbBus::new(1);
    bus.speed = full(); // practical max = 1_200_000 bytes/s
    for (id, rate) in rates {
        let mut d = UsbDevice::new(1, *id, 0);
        d.bandwidth_stats.current_bps = *rate;
        bus.devices.push(d);
    }
    bus
}

#[test]
fn busy_percentage_sums_devices_against_bus_practical_max() {
    assert_eq!(busy_bus(&[(3, 600_000), (4, 300_000)]).busy_percentage(), Some(7_500));
}

#[test]
fn busy_percentage_clamps_at_100() {
    assert_eq!(busy_bus(&[(3, 10_000_000)]).busy_percentage(), Some(10_000));
}

#[test]
fn removing_a_device_keeps_the_others() {
    let mut bus = busy_bus(&[(3, 1), (4, 2), (7, 3)]);
    bus.remove_device(4);
    assert_eq!(bus.devices.iter().map(|d| d.device_id).collect::<Vec<_>>(), vec![3, 7]);
    bus.remove_device(4);
    assert_eq!(bus.devices.len(), 2);
}

#[test]
fn refresh_marks_devices_disconnected_when_sysfs_path_vanishes() {
    let mut mgr = manager();
    let present = sysfs(vec![device_dir("1-2", 1, 3, &[])]);
    mgr.apply_packet(&bulk_in(1, 3, 64), &present, 0);
    assert!(!at(&mgr, 1, 3).is_disconnected);
    mgr.refresh(&present, 1);
    assert!(!at(&mgr, 1, 3).is_disconnected);

    mgr.refresh(&sysfs(vec![]), 2);
    assert!(at(&mgr, 1, 3).is_disconnected);
}

#[test]
fn enumeration_adds_a_row_per_present_device_at_zero_bandwidth() {
    let mut mgr = manager();
    let tree = sysfs(vec![
        device_dir("usb1", 1, 1, &[("speed", "480")]),
        device_dir("1-4", 1, 4, &[("speed", "480")]),
        dir("1-4:1.0", vec![]),
    ]);
    mgr.enumerate_present_devices(&tree, 0);

    let bus = mgr.bus(1).expect("bus 1 present");
    assert!(bus.device(1).is_some(), "root hub enumerated");
    assert!(bus.device(4).is_some(), "device enumerated");
    assert_eq!(bus.devices.len(), 2, "the interface dir is not a device");
    assert_eq!(bus.device(4).unwrap().bandwidth_stats.current_bps, 0);
    assert_eq!(bus.device(4).unwrap().speed, UsbSpeed::from_mbps(480));
}

#[test]
fn enumeration_sets_sysfs_path_to_the_dir_it_found() {
    let mut mgr = manager();
    mgr.enumerate_present_devices(&sysfs(vec![device_dir("1-4", 1, 4, &[("speed", "480")])]), 0);
    assert_eq!(at(&mgr, 1, 4).sysfs_path.as_deref(), Some("/t/devices/1-4"));
}

#[test]
fn enumeration_does_not_disturb_a_device_that_has_traffic() {
    let mut mgr = manager();
    let tree = sysfs(vec![device_dir("1-4", 1, 4, &[("speed", "480")])]);
    mgr.apply_packet(&bulk_in(1, 4, 512), &tree, 0);
    mgr.enumerate_present_devices(&tree, 0);

    assert_eq!(at(&mgr, 1, 4).bandwidth_stats.total_rx_bytes, 512);
    assert_eq!(mgr.bus(1).unwrap().devices.len(), 1, "same row, not a duplicate");
}

#[test]
fn apply_packet_tracks_per_endpoint_stats() {
    let mut mgr = manager();
    let empty = sysfs(vec![]);
    mgr.apply_packet(&packet(UrbType::Callback, 1, 4, 1, true, TransferType::Isochronous, 27_000), &empty, 0);
    mgr.apply_packet(&packet(UrbType::Callback, 1, 4, 2, false, TransferType::Bulk, 512), &empty, 0);

    let dev = at(&mgr, 1, 4);
    assert_eq!(endpoint(dev, 1, true), (TransferType::Isochronous, 27_000));
    let iso = dev.endpoints.iter().find(|e| e.endpoint == 1 && e.dir_in).unwrap();
    assert!(iso.counter.bytes() > 0);
    assert_eq!(endpoint(dev, 2, false), (TransferType::Bulk, 512));
    assert!(dev.has_iso_traffic());
}

#[test]
fn submissions_do_not_touch_endpoint_stats() {
    let mut mgr = manager();
    mgr.apply_packet(&packet(UrbType::Submission, 1, 3, 1, true, TransferType::Bulk, 512), &sysfs(vec![]), 0);
    assert!(at(&mgr, 1, 3).endpoints.is_empty());
}

#[test]
fn filtered_out_packets_do_not_count() {
    let mut mgr = manager();
    mgr.set_filter(FilterSet::parse(&["type=iso".into()]).unwrap());
    mgr.apply_packet(&bulk_in(1, 3, 512), &sysfs(vec![]), 0);
    let dev = at(&mgr, 1, 3);
    assert_eq!(dev.bandwidth_stats.total_rx_bytes, 0, "bulk bytes must not count under type=iso");
    assert!(dev.endpoints.is_empty());
}

fn delta(endpoint: u8, dir_in: bool, transfer_type: Option<TransferType>, bytes: u64) -> TrafficDelta {
    TrafficDelta { bus_id: 1, device_id: 4, endpoint, dir_in, transfer_type, bytes }
}

#[test]
fn apply_delta_accounts_rx_tx_and_endpoint_for_a_matching_some_type_delta() {
    let mut mgr = manager();
    let empty = sysfs(vec![]);
    mgr.apply_delta(&delta(2, true, Some(TransferType::Bulk), 256), &empty, 0);
    mgr.apply_delta(&delta(3, false, Some(TransferType::Interrupt), 64), &empty, 0);

    let dev = at(&mgr, 1, 4);
    assert_eq!(dev.bandwidth_stats.total_rx_bytes, 256);
    assert_eq!(dev.bandwidth_stats.total_tx_bytes, 64);
    assert_eq!(endpoint(dev, 2, true), (TransferType::Bulk, 256));
    assert_eq!(endpoint(dev, 3, false), (TransferType::Interrupt, 64));
}

#[test]
fn apply_delta_touches_the_device_but_accounts_nothing_when_filtered_out() {
    let mut mgr = manager();
    mgr.set_filter(FilterSet::parse(&["type=iso".into()]).unwrap());
    mgr.apply_delta(&delta(2, true, Some(TransferType::Bulk), 256), &sysfs(vec![]), 0);

    let dev = mgr.device(1, 4).expect("the device row exists even though the delta was filtered out");
    assert_eq!(dev.bandwidth_stats.total_rx_bytes, 0);
    assert_eq!(dev.bandwidth_stats.total_tx_bytes, 0);
    assert!(dev.endpoints.is_empty());
}

#[test]
fn apply_delta_with_no_transfer_type_accounts_bytes_but_records_no_endpoint() {
    let mut mgr = manager();
    mgr.apply_delta(&delta(2, true, None, 256), &sysfs(vec![]), 0);

    let dev = at(&mgr, 1, 4);
    assert_eq!(dev.bandwidth_stats.total_rx_bytes, 256);
    assert!(
        dev.endpoints.is_empty(),
        "an unrecognized transfer type still accounts rx/tx but records no endpoint"
    );
}

#[test]
fn refresh_marks_an_unplugged_enumerated_device_disconnected() {
    let mut mgr = manager();
    mgr.enumerate_present_devices(&sysfs(vec![device_dir("1-4", 1, 4, &[("speed", "480")])]), 0);
    assert!(!at(&mgr, 1, 4).is_disconnected);

    mgr.refresh(&sysfs(vec![]), 1);
    assert!(at(&mgr, 1, 4).is_disconnected);
}

fn labelled(name: &str, devnum: u8, vendor: &str, product: &str, texts: (&str, &str)) -> Node {
    device_dir(
        name,
        1,
        devnum,
        &[
            ("speed", "480"),
            ("idVendor", vendor),
            ("idProduct", product),
            ("manufacturer", texts.0),
            ("product", texts.1),
        ],
    )
}

#[test]
fn usbids_names_win_over_device_strings_per_field() {
    let tree = sysfs(vec![labelled("1-4", 4, "0430", "0100", ("StringVendor", "StringProduct"))]);
    let mut mgr = manager();
    mgr.set_usbids(Some(names(
        &[(0x0430, "Fujitsu Component Limited")],
        &[(0x0430, 0x0100, "3-button Mouse")],
    )));
    mgr.enumerate_present_devices(&tree, 0);

    assert_eq!(at(&mgr, 1, 4).vendor.as_deref(), Some("Fujitsu Component Limited"));
    assert_eq!(at(&mgr, 1, 4).product.as_deref(), Some("3-button Mouse"));
}

#[test]
fn device_strings_fill_the_gaps_the_database_leaves() {
    // The database has the vendor but not this product: vendor from it,
    // product from the device string. And with no entry at all, both strings
    // survive.
    let tree = sysfs(vec![
        labelled("1-4", 4, "0430", "0a99", ("StringVendor", "StringProduct")),
        labelled("1-5", 5, "9999", "0001", ("OtherVendor", "OtherProduct")),
    ]);
    let mut mgr = manager();
    mgr.set_usbids(Some(names(&[(0x0430, "Fujitsu Component Limited")], &[])));
    mgr.enumerate_present_devices(&tree, 0);

    assert_eq!(at(&mgr, 1, 4).vendor.as_deref(), Some("Fujitsu Component Limited"));
    assert_eq!(at(&mgr, 1, 4).product.as_deref(), Some("StringProduct"));
    assert_eq!(at(&mgr, 1, 5).vendor.as_deref(), Some("OtherVendor"));
    assert_eq!(at(&mgr, 1, 5).product.as_deref(), Some("OtherProduct"));
}

#[test]
fn no_database_keeps_todays_names() {
    let tree = sysfs(vec![labelled("1-4", 4, "0430", "0100", ("StringVendor", "StringProduct"))]);
    let mut mgr = manager();
    mgr.enumerate_present_devices(&tree, 0);

    assert_eq!(at(&mgr, 1, 4).vendor.as_deref(), Some("StringVendor"));
    assert_eq!(at(&mgr, 1, 4).product.as_deref(), Some("StringProduct"));
}

#[test]
fn apply_packet_overlays_usbids_names_for_a_newly_seen_device() {
    let tree = sysfs(vec![device_dir("1-4", 1, 4, &[("idVendor", "0430"), ("idProduct", "0100")])]);
    let mut mgr = manager();
    mgr.set_usbids(Some(names(
        &[(0x0430, "Fujitsu Component Limited")],
        &[(0x0430, 0x0100, "3-button Mouse")],
    )));
    mgr.apply_packet(&bulk_in(1, 4, 64), &tree, 0);

    assert_eq!(at(&mgr, 1, 4).vendor.as_deref(), Some("Fujitsu Component Limited"));
    assert_eq!(at(&mgr, 1, 4).product.as_deref(), Some("3-button Mouse"));
}

fn matching_snapshot() -> Snapshot {
    Snapshot {
        captured_unix: 0,
        devices: vec![SnapshotDevice {
            port_path: "1-4".into(),
            vendor_id: Some("04f2".into()),
            product_id: Some("b71a".into()),
        }],
    }
}

fn camera_tree(vendor: &str, product: &str) -> Sysfs {
    sysfs(vec![device_dir("1-4", 1, 4, &[("speed", "480"), ("idVendor", vendor), ("idProduct", product)])])
}

#[test]
fn enumeration_marks_a_device_matching_the_snapshot_internal() {
    let mut mgr = manager();
    mgr.set_internal_snapshot(Some(matching_snapshot()));
    mgr.enumerate_present_devices(&camera_tree("04f2", "b71a"), 0);
    assert!(at(&mgr, 1, 4).is_internal);
}

#[test]
fn apply_packet_marks_a_newly_seen_device_internal_when_it_matches_the_snapshot() {
    let mut mgr = manager();
    mgr.set_internal_snapshot(Some(matching_snapshot()));
    let tree = sysfs(vec![device_dir("1-4", 1, 4, &[("idVendor", "04f2"), ("idProduct", "b71a")])]);
    mgr.apply_packet(&bulk_in(1, 4, 64), &tree, 0);
    assert!(at(&mgr, 1, 4).is_internal);
}

#[test]
fn a_different_device_on_a_snapshotted_port_stays_external() {
    let mut mgr = manager();
    mgr.set_internal_snapshot(Some(matching_snapshot()));
    mgr.enumerate_present_devices(&camera_tree("9999", "0001"), 0);
    assert!(!at(&mgr, 1, 4).is_internal, "same port, different device: external");
}

#[test]
fn a_device_with_no_sysfs_path_stays_external() {
    let mut mgr = manager();
    mgr.set_internal_snapshot(Some(matching_snapshot()));
    mgr.apply_packet(&bulk_in(1, 3, 64), &sysfs(vec![]), 0);
    assert!(!at(&mgr, 1, 3).is_internal, "no sysfs_path resolved, so nothing to match against");
}

#[test]
fn set_internal_snapshot_restamps_existing_devices_in_both_directions() {
    let mut mgr = manager();
    mgr.enumerate_present_devices(&camera_tree("04f2", "b71a"), 0);
    assert!(!at(&mgr, 1, 4).is_internal, "no snapshot loaded yet");
    assert!(!mgr.has_internal_snapshot());

    mgr.set_internal_snapshot(Some(matching_snapshot()));
    assert!(at(&mgr, 1, 4).is_internal, "a snapshot arriving mid-session must restamp: false -> true");
    assert!(mgr.has_internal_snapshot());

    mgr.set_internal_snapshot(None);
    assert!(!at(&mgr, 1, 4).is_internal, "clearing the snapshot must restamp back: true -> false");
}

#[test]
fn a_second_enumeration_changes_nothing() {
    let tree = camera_tree("04f2", "b71a");
    let mut mgr = manager();
    mgr.enumerate_present_devices(&tree, 5);
    let first = format!("{mgr:?}");
    mgr.enumerate_present_devices(&tree, 5);
    assert_eq!(format!("{mgr:?}"), first);
}

// Rates and windows.

#[test]
fn rates_read_as_sysfs_states_them() {
    assert_eq!(UsbSpeed::from_speed_str("480"), high());
    assert_eq!(UsbSpeed::from_speed_str("1.5"), UsbSpeed::from_bps(1_500_000));
    assert_eq!(UsbSpeed::from_speed_str("0"), UsbSpeed::unknown());
    assert_eq!(UsbSpeed::from_speed_str("fast"), UsbSpeed::unknown());
    assert_eq!(full().to_practical_bytes_per_second(), 1_200_000);
    assert_eq!(short_rate(5_000_000_000), "5G");
    assert_eq!(short_rate(1_500_000), "1.5M");
}

#[test]
fn a_window_forgets_what_is_older_than_it() {
    let mut counter = WindowCounter::new(WINDOW_MS);
    counter.add_bytes(100, 0);
    counter.add_bytes(50, 9_000);
    assert_eq!(counter.bytes(), 150);
    counter.refresh(12_000);
    assert_eq!(counter.bytes(), 50);

    let mut stats = BandwidthStats::new();
    stats.update_rx(1_000, 0);
    stats.update_tx(500, 0);
    assert_eq!((stats.total_rx_bytes, stats.total_tx_bytes), (1_000, 500));
    stats.refresh(60_000);
    assert_eq!(stats.current_bps, 0);
    assert_eq!(stats.total_rx_bytes, 1_000);
}
