use std::collections::BTreeMap;

use usbtop_ng::capacity::{analyze as weigh, short_amount, Basis, Chokepoint, Contributor};
use usbtop_ng::connector::{
    bus_of, chain_of, device_name_of_port, name_at, parse_device_name, port_name, port_of_device, PortIndex, PortInfo,
    PortRef,
};
use usbtop_ng::device::bos::CapabilitySource;
use usbtop_ng::device::manager::DeviceManager;
use usbtop_ng::findings::{analyze, short_speed, Cause, Finding};
use usbtop_ng::speed::UsbSpeed;
use usbtop_ng::sysfs::{Content, Node, Sysfs};

/// SuperSpeed only: 5 Gb/s (the camera's shape).
const SS: &[u8] = &[
    0x05, 0x0f, 0x16, 0x00, 0x02, 0x07, 0x10, 0x02, 0x06, 0x00, 0x00, 0x00, 0x0a, 0x10, 0x03, 0x00, 0x0c, 0x00, 0x03,
    0x0a, 0xff, 0x07,
];
/// SuperSpeed plus SuperSpeedPlus at 10 Gb/s (the adapter's shape).
const SSP: &[u8] = &[
    0x05, 0x0f, 0x2a, 0x00, 0x03, 0x07, 0x10, 0x02, 0x06, 0x00, 0x00, 0x00, 0x0a, 0x10, 0x03, 0x00, 0x0e, 0x00, 0x03,
    0x0a, 0xff, 0x07, 0x14, 0x10, 0x0a, 0x00, 0x01, 0x00, 0x00, 0x00, 0x00, 0x11, 0x00, 0x00, 0x30, 0x40, 0x0a, 0x00,
    0xb0, 0x40, 0x0a, 0x00,
];

struct Entry {
    canonical: String,
    files: Vec<(String, Content)>,
    ports: BTreeMap<u32, Option<String>>,
}

/// A device directory as sysfs has it: root hubs that resolve into a
/// controller directory, devices as plain directories, hub ports under
/// `<hub>/<hub>:1.0/<hub>-port<N>/` with `peer` links.
struct Tree {
    entries: BTreeMap<String, Entry>,
    next_devnum: u8,
}

fn text(value: &str) -> Content {
    Content::Text(format!("{value}\n"))
}

fn plain(name: &str, content: Content) -> Node {
    Node { name: name.to_string(), link: None, canonical: None, content }
}

impl Tree {
    fn new() -> Tree {
        Tree { entries: BTreeMap::new(), next_devnum: 2 }
    }

    fn put(&mut self, name: &str, canonical: String, files: Vec<(String, Content)>) -> String {
        self.entries.insert(name.to_string(), Entry { canonical, files, ports: BTreeMap::new() });
        name.to_string()
    }

    fn root_hub(&mut self, bus: u8, speed: &str) -> String {
        let name = format!("usb{bus}");
        let files = vec![
            ("busnum".to_string(), text(&bus.to_string())),
            ("devnum".to_string(), text("1")),
            ("speed".to_string(), text(speed)),
        ];
        self.put(&name, format!("/t/0000:00:14.0/{name}"), files)
    }

    fn device(&mut self, name: &str, speed: &str, version: Option<&str>, bos: Option<&[u8]>) -> String {
        let (bus, _) = parse_device_name(name).unwrap();
        let devnum = self.next_devnum;
        self.next_devnum += 1;
        let mut files = vec![
            ("busnum".to_string(), text(&bus.to_string())),
            ("devnum".to_string(), text(&devnum.to_string())),
            ("speed".to_string(), text(speed)),
        ];
        if let Some(version) = version {
            files.push(("version".to_string(), text(version)));
        }
        if let Some(bos) = bos {
            files.push(("bos_descriptors".to_string(), Content::Bytes(bos.to_vec())));
        }
        self.put(name, format!("/t/devices/{name}"), files)
    }

    fn bare(&mut self, name: &str) -> String {
        self.put(name, format!("/t/devices/{name}"), Vec::new())
    }

    fn port(&mut self, hub: &str, number: u32) -> (String, u32) {
        self.entries.get_mut(hub).unwrap().ports.entry(number).or_insert(None);
        (hub.to_string(), number)
    }

    fn peer(&mut self, from: &(String, u32), target: &str) {
        self.entries.get_mut(&from.0).unwrap().ports.insert(from.1, Some(target.to_string()));
    }

    fn pair(&mut self, a: &(String, u32), b: &(String, u32)) {
        let (an, bn) = (port_name(&a.0, a.1), port_name(&b.0, b.1));
        self.peer(a, &format!("/t/somewhere/{bn}"));
        self.peer(b, &format!("/t/somewhere/{an}"));
    }

    fn nodes(&self) -> Vec<Node> {
        let mut out = Vec::new();
        for (name, entry) in &self.entries {
            let mut children = Vec::new();
            for (file, content) in &entry.files {
                let copy = match content {
                    Content::Text(t) => Content::Text(t.clone()),
                    Content::Bytes(b) => Content::Bytes(b.clone()),
                    _ => unreachable!(),
                };
                children.push(plain(file, copy));
            }
            if !entry.ports.is_empty() {
                let mut ports = Vec::new();
                for (number, peer) in &entry.ports {
                    let mut inner = Vec::new();
                    if let Some(target) = peer {
                        inner.push(Node {
                            name: "peer".to_string(),
                            link: Some(target.clone()),
                            canonical: Some(target.clone()),
                            content: Content::Directory(Vec::new()),
                        });
                    }
                    ports.push(plain(&port_name(name, *number), Content::Directory(inner)));
                }
                children.push(plain(&format!("{name}:1.0"), Content::Directory(ports)));
            }
            out.push(Node {
                name: name.clone(),
                link: None,
                canonical: Some(entry.canonical.clone()),
                content: Content::Directory(children),
            });
        }
        out
    }

    fn sysfs(&self) -> Sysfs {
        Sysfs { base: "/t/devices".to_string(), entries: self.nodes() }
    }

    fn manager(&self) -> DeviceManager {
        let sysfs = self.sysfs();
        let mut manager = DeviceManager::with_sysfs_base("/t/devices".to_string());
        manager.enumerate_present_devices(&sysfs, 0);
        manager.update_bus_speeds(&sysfs);
        manager
    }

    fn index(&self) -> PortIndex {
        PortIndex::scan_devices(&self.nodes())
    }

    fn analyze(&self) -> Vec<Finding> {
        analyze(&self.manager(), &self.index())
    }
}

// Choke points.

fn root(t: &mut Tree, bus: u8, speed: &str, ports: u32) -> String {
    let name = t.root_hub(bus, speed);
    for n in 1..=ports {
        t.port(&name, n);
    }
    name
}

fn hub(t: &mut Tree, name: &str, speed: &str, bos: Option<&[u8]>, ports: u32) -> String {
    let dir = t.device(name, speed, if bos.is_some() { Some("2.10") } else { Some("2.00") }, bos);
    for n in 1..=ports {
        t.port(&dir, n);
    }
    dir
}

fn choke(t: &Tree, basis: Basis) -> Vec<Chokepoint> {
    weigh(&t.manager(), &t.index(), basis)
}

fn mbps(amount: u128) -> f64 {
    amount as f64 / 1e8
}

fn ratio(c: &Chokepoint) -> f64 {
    c.demand as f64 / c.capacity as f64
}

fn summary(points: &[Chokepoint]) -> Vec<(&str, f64, f64, f64, usize)> {
    points
        .iter()
        .map(|c| (c.path.as_str(), mbps(c.capacity), mbps(c.demand), (ratio(c) * 100.0).round() / 100.0, c.devices))
        .collect()
}

#[test]
fn two_high_speed_devices_under_a_high_speed_hub_are_listed_at_two_x() {
    let mut t = Tree::new();
    root(&mut t, 1, "480", 1);
    hub(&mut t, "1-1", "480", None, 2);
    t.device("1-1.1", "480", Some("2.00"), None);
    t.device("1-1.2", "480", Some("2.00"), None);
    let points = choke(&t, Basis::Link);
    assert_eq!(summary(&points), vec![("1-1", 384.0, 768.0, 2.0, 2)]);
    let c = &points[0];
    assert_eq!((c.bus, c.address, c.port.as_deref()), (1, 2, Some("usb1-port1")));
    assert_eq!(
        c.top,
        vec![
            Contributor { path: "1-1.1".into(), demand: 38_400_000_000 },
            Contributor { path: "1-1.2".into(), demand: 38_400_000_000 },
        ]
    );
    assert_eq!(c.message(), "384M carries 2 devices asking 768M: 2.00x");
}

#[test]
fn a_flash_drive_and_a_mouse_stay_inside_the_breathing_room() {
    let mut t = Tree::new();
    root(&mut t, 1, "480", 1);
    hub(&mut t, "1-1", "480", None, 2);
    t.device("1-1.1", "480", Some("2.00"), None);
    t.device("1-1.2", "1.5", Some("2.00"), None);
    assert!(choke(&t, Basis::Link).is_empty(), "1.003x is not a choke point");
}

#[test]
fn the_floor_is_inclusive_at_one_and_a_quarter() {
    let mut t = Tree::new();
    root(&mut t, 1, "480", 1);
    hub(&mut t, "1-1", "480", None, 12);
    t.device("1-1.1", "480", Some("2.00"), None);
    for n in 2..=11 {
        t.device(&format!("1-1.{n}"), "12", Some("2.00"), None);
    }
    let points = choke(&t, Basis::Link);
    assert_eq!(points.len(), 1, "exactly 1.25x is listed");
    assert!((ratio(&points[0]) - 1.25).abs() < 1e-9);
    let mut t = Tree::new();
    root(&mut t, 1, "480", 1);
    hub(&mut t, "1-1", "480", None, 12);
    t.device("1-1.1", "480", Some("2.00"), None);
    for n in 2..=10 {
        t.device(&format!("1-1.{n}"), "12", Some("2.00"), None);
    }
    assert!(choke(&t, Basis::Link).is_empty());
}

#[test]
fn nested_hubs_sum_the_whole_subtree() {
    let mut t = Tree::new();
    root(&mut t, 1, "480", 1);
    hub(&mut t, "1-1", "480", None, 2);
    hub(&mut t, "1-1.1", "480", None, 2);
    t.device("1-1.1.1", "480", Some("2.00"), None);
    t.device("1-1.1.2", "480", Some("2.00"), None);
    t.device("1-1.2", "480", Some("2.00"), None);
    let points = choke(&t, Basis::Link);
    assert_eq!(
        summary(&points),
        vec![("1-1", 384.0, 1152.0, 3.0, 4), ("1-1.1", 384.0, 768.0, 2.0, 2)],
        "the parent counts the child hub and every device below it"
    );
}

#[test]
fn an_empty_hub_asks_nothing() {
    let mut t = Tree::new();
    root(&mut t, 1, "480", 1);
    hub(&mut t, "1-1", "480", None, 2);
    t.device("1-1.1", "480", Some("2.00"), None);
    hub(&mut t, "1-1.2", "480", None, 2);
    assert!(
        choke(&t, Basis::Link).is_empty(),
        "one flash drive asks 384 of 384; the empty hub asks nothing"
    );
    let mut t = Tree::new();
    root(&mut t, 1, "480", 1);
    hub(&mut t, "1-1", "480", None, 3);
    t.device("1-1.1", "480", Some("2.00"), None);
    hub(&mut t, "1-1.2", "480", None, 2);
    t.device("1-1.3", "480", Some("2.00"), None);
    let points = choke(&t, Basis::Link);
    assert_eq!(summary(&points), vec![("1-1", 384.0, 768.0, 2.0, 3)]);
    let top: Vec<&str> = points[0].top.iter().map(|c| c.path.as_str()).collect();
    assert_eq!(top, ["1-1.1", "1-1.3"]);
}

#[test]
fn the_two_halves_of_a_hub_are_summed_separately() {
    let mut t = Tree::new();
    let usb3 = root(&mut t, 3, "480", 1);
    let usb4 = root(&mut t, 4, "5000", 1);
    t.pair(&(usb3, 1), &(usb4, 1));
    hub(&mut t, "3-1", "480", Some(SS), 2);
    hub(&mut t, "4-1", "5000", Some(SS), 2);
    t.device("3-1.1", "480", Some("2.00"), None);
    t.device("3-1.2", "480", Some("2.00"), None);
    t.device("4-1.1", "5000", Some("3.00"), Some(SS));
    assert_eq!(
        summary(&choke(&t, Basis::Link)),
        vec![("3-1", 384.0, 768.0, 2.0, 2)],
        "the USB 3 half carries one 5G device, 1.0x, and is not listed"
    );
}

#[test]
fn unknown_rates_disconnected_devices_and_internal_devices() {
    let mut t = Tree::new();
    root(&mut t, 1, "480", 1);
    hub(&mut t, "1-1", "480", None, 3);
    t.device("1-1.1", "480", Some("2.00"), None);
    t.device("1-1.2", "480", Some("2.00"), None);
    t.device("1-1.3", "0", Some("2.00"), None);
    let mut manager = t.manager();
    let ports = t.index();
    let points = weigh(&manager, &ports, Basis::Link);
    assert_eq!(
        summary(&points),
        vec![("1-1", 384.0, 768.0, 2.0, 3)],
        "the unknown one counts as a device but asks nothing"
    );
    assert_eq!(points[0].top.len(), 2, "a zero contributor is not in the top list");
    for bus in manager.buses.iter_mut().filter(|b| b.bus_id == 1) {
        for device in bus.devices.iter_mut() {
            device.is_internal = true;
        }
    }
    assert_eq!(weigh(&manager, &ports, Basis::Link).len(), 1);
    for bus in manager.buses.iter_mut().filter(|b| b.bus_id == 1) {
        for device in bus.devices.iter_mut().filter(|d| d.device_id == 3) {
            device.is_disconnected = true;
        }
    }
    assert!(weigh(&manager, &ports, Basis::Link).is_empty(), "one 480 device left: 1.0x");
}

#[test]
fn the_capability_basis_moves_both_sides() {
    let mut t = Tree::new();
    root(&mut t, 2, "10000", 1);
    hub(&mut t, "2-1", "10000", Some(SSP), 4);
    t.device("2-1.1", "5000", Some("3.20"), Some(SSP));
    assert!(choke(&t, Basis::Link).is_empty());
    assert!(choke(&t, Basis::Capability).is_empty());
    t.device("2-1.2", "5000", Some("3.20"), Some(SSP));
    assert!(choke(&t, Basis::Link).is_empty());
    assert_eq!(summary(&choke(&t, Basis::Capability)), vec![("2-1", 8500.0, 17000.0, 2.0, 2)]);
}

#[test]
fn a_leaf_is_bounded_by_every_hub_above_it_at_the_capability_basis() {
    let mut t = Tree::new();
    root(&mut t, 5, "480", 1);
    hub(&mut t, "5-1", "480", None, 2);
    t.device("5-1.1", "480", Some("2.10"), Some(SSP));
    t.device("5-1.2", "12", Some("2.01"), None);
    assert!(choke(&t, Basis::Link).is_empty(), "1.03x at link");
    assert!(choke(&t, Basis::Capability).is_empty(), "still 1.03x at capability: bounded");
    let mut t = Tree::new();
    root(&mut t, 3, "480", 1);
    hub(&mut t, "3-1", "480", Some(SS), 2);
    t.device("3-1.1", "480", Some("2.10"), Some(SS));
    t.device("3-1.2", "480", Some("2.10"), Some(SS));
    assert_eq!(summary(&choke(&t, Basis::Capability)), vec![("3-1", 384.0, 768.0, 2.0, 2)]);
}

#[test]
fn a_ten_gig_hub_linked_at_five_counts_as_ten_at_the_capability_basis() {
    let mut t = Tree::new();
    root(&mut t, 2, "10000", 1);
    hub(&mut t, "2-1", "5000", Some(SSP), 4);
    t.device("2-1.1", "5000", Some("3.20"), Some(SSP));
    t.device("2-1.2", "5000", Some("3.20"), Some(SSP));
    assert_eq!(summary(&choke(&t, Basis::Link)), vec![("2-1", 4250.0, 8500.0, 2.0, 2)]);
    assert_eq!(summary(&choke(&t, Basis::Capability)), vec![("2-1", 8500.0, 17000.0, 2.0, 2)]);
}

#[test]
fn a_hub_never_gains_more_capacity_than_the_port_above_it() {
    let mut t = Tree::new();
    root(&mut t, 2, "5000", 1);
    hub(&mut t, "2-1", "5000", Some(SSP), 4);
    t.device("2-1.1", "5000", Some("3.20"), Some(SSP));
    t.device("2-1.2", "5000", Some("3.20"), Some(SSP));
    let expected = vec![("2-1", 4250.0, 8500.0, 2.0, 2)];
    assert_eq!(summary(&choke(&t, Basis::Link)), expected);
    assert_eq!(summary(&choke(&t, Basis::Capability)), expected);
    let mut t = Tree::new();
    root(&mut t, 2, "10000", 1);
    hub(&mut t, "2-1", "5000", Some(SS), 4);
    hub(&mut t, "2-1.1", "5000", Some(SSP), 4);
    t.device("2-1.1.1", "5000", Some("3.20"), Some(SSP));
    t.device("2-1.1.2", "5000", Some("3.20"), Some(SSP));
    assert_eq!(
        summary(&choke(&t, Basis::Capability)),
        vec![("2-1", 4250.0, 8500.0, 2.0, 3), ("2-1.1", 4250.0, 8500.0, 2.0, 2)]
    );
}

#[test]
fn an_unknown_link_asks_nothing_and_bounds_nothing_at_the_capability_basis() {
    let mut t = Tree::new();
    root(&mut t, 2, "10000", 1);
    hub(&mut t, "2-1", "5000", Some(SS), 4);
    t.device("2-1.1", "5000", Some("3.00"), Some(SS));
    t.device("2-1.2", "0", Some("3.00"), Some(SS));
    assert!(choke(&t, Basis::Capability).is_empty(), "one 5G device: 1.0x");
    let mut t = Tree::new();
    root(&mut t, 2, "10000", 1);
    hub(&mut t, "2-1", "5000", Some(SS), 4);
    hub(&mut t, "2-1.1", "0", Some(SS), 4);
    t.device("2-1.1.1", "5000", Some("3.00"), Some(SS));
    t.device("2-1.1.2", "5000", Some("3.00"), Some(SS));
    let expected = vec![("2-1", 4250.0, 8500.0, 2.0, 3)];
    assert_eq!(summary(&choke(&t, Basis::Link)), expected);
    assert_eq!(summary(&choke(&t, Basis::Capability)), expected);
}

#[test]
fn a_bcd_usb_floor_leaf_linked_above_it_keeps_its_link_at_the_capability_basis() {
    let mut t = Tree::new();
    root(&mut t, 2, "10000", 1);
    hub(&mut t, "2-1", "10000", Some(SSP), 4);
    t.device("2-1.1", "10000", Some("3.10"), None);
    t.device("2-1.2", "10000", Some("3.10"), None);
    assert_eq!(summary(&choke(&t, Basis::Link)), vec![("2-1", 8500.0, 17000.0, 2.0, 2)]);
    assert_eq!(
        summary(&choke(&t, Basis::Capability)),
        vec![("2-1", 8500.0, 17000.0, 2.0, 2)],
        "the 5G floor never lowers a device already linked at 10G"
    );
}

#[test]
fn top_three_of_five_contributors_by_demand_then_path() {
    let mut t = Tree::new();
    root(&mut t, 1, "480", 1);
    hub(&mut t, "1-1", "480", None, 5);
    t.device("1-1.1", "12", Some("2.00"), None);
    t.device("1-1.2", "480", Some("2.00"), None);
    t.device("1-1.3", "1.5", Some("2.00"), None);
    t.device("1-1.4", "12", Some("2.00"), None);
    t.device("1-1.5", "480", Some("2.00"), None);
    let points = choke(&t, Basis::Link);
    let top: Vec<&str> = points[0].top.iter().map(|c| c.path.as_str()).collect();
    assert_eq!(top, ["1-1.2", "1-1.5", "1-1.1"]);
}

#[test]
fn worst_first_with_the_path_as_the_tie_break() {
    let mut t = Tree::new();
    root(&mut t, 1, "480", 3);
    for (name, kids) in [("1-2", 2), ("1-1", 2), ("1-3", 3)] {
        hub(&mut t, name, "480", None, kids);
        for n in 1..=kids {
            t.device(&format!("{name}.{n}"), "480", Some("2.00"), None);
        }
    }
    let points = choke(&t, Basis::Link);
    let order: Vec<&str> = points.iter().map(|c| c.path.as_str()).collect();
    assert_eq!(order, ["1-3", "1-1", "1-2"]);
}

#[test]
fn basis_names_and_toggle() {
    assert_eq!(Basis::Link.as_str(), "link");
    assert_eq!(Basis::Capability.as_str(), "capability");
    assert_eq!(Basis::Link.toggled(), Basis::Capability);
    assert_eq!(Basis::Capability.toggled(), Basis::Link);
    assert_eq!(Basis::default(), Basis::Link);
}

#[test]
fn amounts_are_compact() {
    assert_eq!(short_amount(38_400_000_000), "384M");
    assert_eq!(short_amount(850_000_000_000), "8.5G");
}

// Findings.

fn paired_roots(t: &mut Tree, n: u32) -> (String, String) {
    let usb3 = t.root_hub(3, "480");
    let usb4 = t.root_hub(4, "5000");
    for i in 1..=n {
        let a = t.port(&usb3, i);
        let b = t.port(&usb4, i);
        t.pair(&a, &b);
    }
    (usb3, usb4)
}

fn pair_ports(t: &mut Tree, a: &str, b: &str, n: u32) {
    for i in 1..=n {
        let x = t.port(a, i);
        let y = t.port(b, i);
        t.pair(&x, &y);
    }
}

fn causes(findings: &[Finding]) -> Vec<(&str, Option<&Cause>)> {
    findings.iter().map(|f| (f.path.as_str(), f.cause.as_ref())).collect()
}

fn empty_side(port: &str) -> Cause {
    Cause::SuperSpeedSideEmpty { peer_port: port.into() }
}

fn hub_link(hub: &str, mbps: u32) -> Cause {
    Cause::UpstreamHubLink { hub: hub.into(), hub_link: UsbSpeed::from_mbps(mbps) }
}

#[test]
fn a_superspeed_device_on_a_usb2_port_with_an_empty_superspeed_side() {
    let mut t = Tree::new();
    paired_roots(&mut t, 2);
    t.device("3-1", "480", Some("2.10"), Some(SSP));
    let findings = t.analyze();
    assert_eq!(causes(&findings), vec![("3-1", Some(&empty_side("usb4-port1")))]);
    let f = &findings[0];
    assert_eq!((f.bus, f.port.as_deref()), (3, Some("usb3-port1")));
    assert_eq!(f.capability.speed, UsbSpeed::from_mbps(10000));
    assert_eq!(f.capability.source, CapabilitySource::Bos);
    assert_eq!(
        f.message(),
        "linked at 480M, supports 10G: the SuperSpeed side of this connector (usb4-port1) is empty, so the link came up at USB 2 speed; check the cable or the port"
    );
}

#[test]
fn a_hub_whose_superspeed_half_is_up_is_not_a_finding_nor_its_paired_child() {
    let mut t = Tree::new();
    paired_roots(&mut t, 1);
    let hub3 = t.device("3-1", "480", Some("2.10"), Some(SS));
    let hub4 = t.device("4-1", "5000", Some("3.00"), Some(SS));
    pair_ports(&mut t, &hub3, &hub4, 2);
    t.device("4-1.1", "5000", Some("3.00"), Some(SS));
    t.device("3-1.2", "480", Some("2.10"), Some(SS));
    assert_eq!(causes(&t.analyze()), vec![("3-1.2", Some(&empty_side("4-1-port2")))]);
}

#[test]
fn a_usb2_only_hub_holds_its_child_and_is_named() {
    let mut t = Tree::new();
    paired_roots(&mut t, 1);
    let hub3 = t.device("3-1", "480", Some("2.10"), Some(SS));
    let hub4 = t.device("4-1", "5000", Some("3.00"), Some(SS));
    pair_ports(&mut t, &hub3, &hub4, 4);
    let terminus = t.device("3-1.4", "480", Some("2.00"), None);
    t.port(&terminus, 5);
    t.device("3-1.4.5", "480", Some("2.10"), Some(SS));
    let findings = t.analyze();
    assert_eq!(causes(&findings), vec![("3-1.4.5", Some(&hub_link("3-1.4", 480)))]);
    assert_eq!(
        findings[0].message(),
        "linked at 480M, supports 5G: the hub above it (3-1.4) is linked at 480M; move it to a USB 3 port"
    );
}

#[test]
fn hub_halves_on_different_port_numbers_are_matched_by_elimination() {
    let mut t = Tree::new();
    let usb5 = t.root_hub(5, "480");
    let usb6 = t.root_hub(6, "10000");
    pair_ports(&mut t, &usb5, &usb6, 1);
    let outer2 = t.device("5-1", "480", Some("2.10"), Some(SS));
    let outer3 = t.device("6-1", "10000", Some("3.20"), Some(SSP));
    pair_ports(&mut t, &outer2, &outer3, 4);
    let inner2 = t.device("5-1.1", "480", Some("2.10"), Some(SS));
    let inner3 = t.device("6-1.4", "10000", Some("3.20"), Some(SSP));
    for n in 1..=8 {
        t.port(&inner2, n);
    }
    for n in 1..=4 {
        t.port(&inner3, n);
    }
    t.device(
        "5-1.1.8",
        "12",
        Some("2.01"),
        Some(&[0x05, 0x0f, 0x0c, 0x00, 0x01, 0x07, 0x10, 0x02, 0x00, 0x00, 0x00, 0x00]),
    );
    t.device("5-1.2", "480", Some("2.10"), Some(SSP));
    t.device("5-1.1.2", "480", Some("2.10"), Some(SSP));
    t.device("5-1.1.7", "480", Some("2.10"), Some(SS));
    let findings = t.analyze();
    assert_eq!(
        causes(&findings),
        vec![
            ("5-1.2", Some(&empty_side("6-1-port2"))),
            ("5-1.1.2", Some(&empty_side("6-1.4-port2"))),
            ("5-1.1.7", Some(&hub_link("5-1.1", 480))),
        ]
    );
}

#[test]
fn two_unclaimed_hubs_a_side_are_ambiguous_and_say_nothing_about_the_hubs() {
    let mut t = Tree::new();
    let usb5 = t.root_hub(5, "480");
    let usb6 = t.root_hub(6, "10000");
    pair_ports(&mut t, &usb5, &usb6, 1);
    let outer2 = t.device("5-1", "480", Some("2.10"), Some(SS));
    let outer3 = t.device("6-1", "10000", Some("3.20"), Some(SSP));
    pair_ports(&mut t, &outer2, &outer3, 4);
    let a = t.device("5-1.1", "480", Some("2.10"), Some(SS));
    let b = t.device("5-1.2", "480", Some("2.10"), Some(SS));
    let c = t.device("6-1.3", "5000", Some("3.00"), Some(SS));
    let d = t.device("6-1.4", "5000", Some("3.00"), Some(SS));
    t.port(&a, 1);
    t.port(&b, 1);
    t.port(&c, 1);
    t.port(&d, 1);
    t.device("5-1.1.1", "480", Some("2.10"), Some(SS));
    assert_eq!(
        causes(&t.analyze()),
        vec![("5-1.1.1", Some(&hub_link("5-1.1", 480)))],
        "the hubs are ambiguous; the child's hub link is still a true statement"
    );
}

#[test]
fn a_hub_whose_superspeed_half_never_enumerated_is_named_and_so_is_its_child() {
    let mut t = Tree::new();
    paired_roots(&mut t, 1);
    let hub = t.device("3-1", "480", Some("2.10"), Some(SS));
    t.port(&hub, 1);
    t.device("3-1.1", "480", Some("2.10"), Some(SS));
    assert_eq!(
        causes(&t.analyze()),
        vec![("3-1", Some(&empty_side("usb4-port1"))), ("3-1.1", Some(&hub_link("3-1", 480)))]
    );
}

#[test]
fn a_faster_hub_on_a_slower_root_port_and_a_faster_device_under_a_slower_hub() {
    let mut t = Tree::new();
    paired_roots(&mut t, 1);
    let hub = t.device("4-1", "5000", Some("3.20"), Some(SSP));
    t.port(&hub, 1);
    t.port(&hub, 2);
    t.device("4-1.1", "5000", Some("3.20"), Some(SSP));
    t.device("4-1.2", "5000", Some("3.00"), Some(SS));
    assert_eq!(
        causes(&t.analyze()),
        vec![
            ("4-1", Some(&Cause::HostPortMax { max: UsbSpeed::from_mbps(5000) })),
            ("4-1.1", Some(&hub_link("4-1", 5000))),
        ]
    );
}

#[test]
fn a_link_below_capability_under_a_permitting_port_blames_neither_upstream() {
    let mut t = Tree::new();
    let usb3 = t.root_hub(3, "480");
    let usb4 = t.root_hub(4, "10000");
    pair_ports(&mut t, &usb3, &usb4, 1);
    t.device("4-1", "5000", Some("3.20"), Some(SSP));
    let findings = t.analyze();
    assert_eq!(causes(&findings), vec![("4-1", Some(&Cause::UpstreamPermits))]);
    assert_eq!(
        findings[0].message(),
        "linked at 5G, supports 10G: the port above it allows 10G; check the cable or the device"
    );
}

#[test]
fn a_superspeed_hub_on_a_usb2_only_root_port_and_its_child() {
    let mut t = Tree::new();
    let usb1 = t.root_hub(1, "480");
    t.port(&usb1, 1);
    let hub = t.device("1-1", "480", Some("2.10"), Some(SS));
    t.port(&hub, 1);
    t.device("1-1.1", "480", Some("2.10"), Some(SS));
    assert_eq!(
        causes(&t.analyze()),
        vec![("1-1", Some(&Cause::Usb2OnlyHostPort)), ("1-1.1", Some(&hub_link("1-1", 480)))]
    );
}

#[test]
fn a_usb2_root_port_without_a_superspeed_twin_is_usb2_only() {
    let mut t = Tree::new();
    let (usb3, _) = paired_roots(&mut t, 1);
    t.port(&usb3, 5);
    t.device("3-5", "480", Some("2.10"), Some(SS));
    assert_eq!(causes(&t.analyze()), vec![("3-5", Some(&Cause::Usb2OnlyHostPort))]);
}

#[test]
fn the_bcd_usb_fallback_is_labelled_and_never_claims_more_than_five_gbps() {
    let mut t = Tree::new();
    paired_roots(&mut t, 2);
    t.device("3-1", "480", Some("3.20"), None);
    t.device("4-2", "5000", Some("3.20"), None);
    let findings = t.analyze();
    assert_eq!(
        causes(&findings),
        vec![("3-1", Some(&empty_side("usb4-port1")))],
        "the 5 Gb/s device with bcdUSB 3.20 and no BOS is not called out"
    );
    assert_eq!(findings[0].capability.source, CapabilitySource::BcdUsb);
    assert!(findings[0].message().starts_with("linked at 480M, supports 5G (from bcdUSB): "));
}

#[test]
fn a_disconnected_device_is_ignored_and_a_present_twin_counts() {
    let mut t = Tree::new();
    paired_roots(&mut t, 1);
    t.device("3-1", "480", Some("2.10"), Some(SS));
    let mut manager = t.manager();
    let index = t.index();
    assert_eq!(analyze(&manager, &index).len(), 1);
    for bus in manager.buses.iter_mut().filter(|b| b.bus_id == 3) {
        for device in bus.devices.iter_mut().filter(|d| d.device_id == 2) {
            device.is_disconnected = true;
        }
    }
    assert!(analyze(&manager, &index).is_empty());
}

#[test]
fn a_device_whose_port_is_unknown_has_no_cause() {
    let mut t = Tree::new();
    t.root_hub(3, "480");
    t.device("3-1", "480", Some("3.00"), None);
    let findings = t.analyze();
    assert_eq!(causes(&findings), vec![("3-1", None)]);
    assert_eq!(findings[0].port, None);
    assert!(findings[0].message().ends_with(": its port is unknown to the connector index"));
}

#[test]
fn findings_are_ordered_by_bus_then_address() {
    let mut t = Tree::new();
    paired_roots(&mut t, 3);
    t.device("3-3", "480", Some("2.10"), Some(SS));
    t.device("3-1", "480", Some("2.10"), Some(SS));
    t.device("3-2", "480", Some("2.10"), Some(SS));
    let order: Vec<u8> = t.analyze().iter().map(|f| f.address).collect();
    assert_eq!(order, vec![2, 3, 4]);
}

#[test]
fn short_speed_is_compact() {
    assert_eq!(short_speed(&UsbSpeed::from_mbps(480)), "480M");
    assert_eq!(short_speed(&UsbSpeed::from_mbps(12)), "12M");
    assert_eq!(short_speed(&UsbSpeed::from_bps(1_500_000)), "1.5M");
    assert_eq!(short_speed(&UsbSpeed::from_mbps(5000)), "5G");
    assert_eq!(short_speed(&UsbSpeed::from_mbps(10000)), "10G");
    assert_eq!(short_speed(&UsbSpeed::from_mbps(20000)), "20G");
    assert_eq!(short_speed(&UsbSpeed::unknown()), "?");
}

#[test]
fn each_cause_has_a_kind() {
    let kinds: Vec<&str> = [
        empty_side("p"),
        Cause::Usb2OnlyHostPort,
        hub_link("h", 480),
        Cause::HostPortMax { max: UsbSpeed::from_mbps(5000) },
        Cause::UpstreamPermits,
    ]
    .iter()
    .map(|c| c.kind())
    .collect();
    let mut distinct = kinds.clone();
    distinct.sort();
    distinct.dedup();
    assert_eq!(distinct.len(), 5, "{kinds:?}");
}

// Connectors.

fn paired_tree() -> Tree {
    let mut t = Tree::new();
    for name in ["usb3", "usb4"] {
        t.put(name, format!("/t/0000:00:14.0/{name}"), Vec::new());
    }
    pair_ports(&mut t, "usb3", "usb4", 1);
    t.port("usb3", 2);
    t.bare("3-1");
    t.bare("4-1");
    pair_ports(&mut t, "3-1", "4-1", 2);
    t.bare("3-2");
    t.bare("3-1.2");
    t
}

#[test]
fn parse_device_name_reads_root_hubs_and_port_chains_and_rejects_the_rest() {
    assert_eq!(parse_device_name("usb3"), Some((3, vec![])));
    assert_eq!(parse_device_name("3-1"), Some((3, vec![1])));
    assert_eq!(parse_device_name("3-1.4.2"), Some((3, vec![1, 4, 2])));
    assert_eq!(parse_device_name("12-10.3"), Some((12, vec![10, 3])));
    for bad in [
        "", "garbage", "usb", "usbx", "usb300", "usb3-port1", "3", "3-", "-1", "x-1", "3-x", "3-1.", "3-1..2",
        "3-1:1.0",
    ] {
        assert_eq!(parse_device_name(bad), None, "{bad:?} is not a device name");
    }
}

#[test]
fn port_of_device_names_the_hub_and_port() {
    assert_eq!(port_of_device("3-1"), Some(("usb3".to_string(), 1)));
    assert_eq!(port_of_device("3-1.4"), Some(("3-1".to_string(), 4)));
    assert_eq!(port_of_device("3-1.4.2"), Some(("3-1.4".to_string(), 2)));
    assert_eq!(port_of_device("usb3"), None, "a root hub is on no port");
    assert_eq!(port_of_device("3-x"), None);
    assert_eq!(port_of_device("x-1"), None, "a non-numeric bus is not a device name");
    assert_eq!(port_of_device("garbage"), None);
    assert_eq!(port_name("3-1.4", 2), "3-1.4-port2");
}

#[test]
fn the_device_on_a_port_is_the_one_whose_port_it_is() {
    assert_eq!(device_name_of_port("usb3", 1).as_deref(), Some("3-1"));
    assert_eq!(device_name_of_port("3-1", 4).as_deref(), Some("3-1.4"));
    assert_eq!(name_at(3, &vec![1, 4]), "3-1.4");
    assert_eq!(port_of_device(&name_at(3, &vec![1, 4])), Some(("3-1".to_string(), 4)));
}

#[test]
fn scan_finds_ports_under_interface_dirs_and_reads_peers() {
    let t = paired_tree();
    let index = PortIndex::scan(&t.nodes());
    assert_eq!(
        index.get("usb3-port1"),
        Some(&PortInfo { hub: "usb3".to_string(), number: 1, peer: Some("usb4-port1".to_string()) })
    );
    assert_eq!(
        index.get("usb3-port2"),
        Some(&PortInfo { hub: "usb3".to_string(), number: 2, peer: None })
    );
    assert_eq!(index.get("4-1-port2").and_then(|p| p.peer.as_deref()), Some("3-1-port2"));
    assert_eq!(index.iter().len(), 7, "3 root ports + 4 hub ports");
    assert!(index.is_hub("3-1"));
    assert!(index.is_hub("usb3"));
    assert!(!index.is_hub("3-2"), "a leaf owns no ports");
}

#[test]
fn connector_of_pairs_through_reciprocal_peer_links() {
    let t = paired_tree();
    let index = PortIndex::scan(&t.nodes());

    let (own, peer) = index.connector_of("3-1").unwrap();
    assert_eq!(own, PortRef { name: "usb3-port1".to_string(), bus: 3, chain: vec![1] });
    assert_eq!(peer, Some(PortRef { name: "usb4-port1".to_string(), bus: 4, chain: vec![1] }));

    let (own, peer) = index.connector_of("4-1").unwrap();
    assert_eq!(own.name, "usb4-port1");
    assert_eq!(peer.map(|p| p.name).as_deref(), Some("usb3-port1"));

    let (own, peer) = index.connector_of("3-1.2").unwrap();
    assert_eq!(own.name, "3-1-port2");
    assert_eq!(own.chain, vec![1, 2]);
    let peer = peer.unwrap();
    assert_eq!(peer.name, "4-1-port2");
    assert_eq!(peer.bus, 4);
    assert_eq!(peer.chain, vec![1, 2]);
}

#[test]
fn a_port_without_a_peer_is_a_single_connector() {
    let t = paired_tree();
    let index = PortIndex::scan(&t.nodes());
    let (own, peer) = index.connector_of("3-2").unwrap();
    assert_eq!(own.name, "usb3-port2");
    assert_eq!(own.chain, vec![2]);
    assert_eq!(peer, None);
}

#[test]
fn a_dangling_or_non_reciprocal_peer_degrades_to_a_single_port() {
    let mut t = Tree::new();
    for name in ["usb3", "usb4"] {
        t.put(name, format!("/t/0000:00:14.0/{name}"), Vec::new());
    }
    let u3p3 = t.port("usb3", 3);
    t.peer(&u3p3, "/t/0000:00:14.0/usb4/4-0:1.0/usb4-port9");
    let u3p4 = t.port("usb3", 4);
    let u4p4 = t.port("usb4", 4);
    t.port("usb3", 1);
    t.peer(&u3p4, "/t/0000:00:14.0/usb4/usb4:1.0/usb4-port4");
    t.peer(&u4p4, "/t/0000:00:14.0/usb3/usb3:1.0/usb3-port1");
    t.bare("3-3");
    t.bare("3-4");
    t.bare("4-4");

    let index = PortIndex::scan(&t.nodes());
    assert_eq!(index.connector_of("3-3").unwrap().1, None, "dangling");
    assert_eq!(index.connector_of("3-4").unwrap().1, None, "non-reciprocal from the claiming side");
    assert_eq!(index.connector_of("4-4").unwrap().1, None, "non-reciprocal from the other side");
}

#[test]
fn different_port_numbers_and_non_adjacent_buses_follow_the_link() {
    let mut t = Tree::new();
    for name in ["usb3", "usb4", "usb6"] {
        t.put(name, format!("/t/0000:00:14.0/{name}"), Vec::new());
    }
    let u3p1 = t.port("usb3", 1);
    let u4p2 = t.port("usb4", 2);
    t.pair(&u3p1, &u4p2);
    let u3p2 = t.port("usb3", 2);
    let u6p1 = t.port("usb6", 1);
    t.pair(&u3p2, &u6p1);
    t.bare("4-2");
    t.bare("6-1");

    let index = PortIndex::scan(&t.nodes());
    let (own, peer) = index.connector_of("4-2").unwrap();
    assert_eq!((own.name.as_str(), own.chain.as_slice()), ("usb4-port2", &[2][..]));
    let peer = peer.unwrap();
    assert_eq!((peer.name.as_str(), peer.bus, peer.chain.as_slice()), ("usb3-port1", 3, &[1][..]));

    let (own, peer) = index.connector_of("6-1").unwrap();
    assert_eq!(own.bus, 6);
    assert_eq!(peer.map(|p| (p.name, p.bus)), Some(("usb3-port2".to_string(), 3)));
}

#[test]
fn root_hubs_and_unknown_devices_have_no_connector() {
    let t = paired_tree();
    let index = PortIndex::scan(&t.nodes());
    assert_eq!(index.connector_of("usb3"), None, "a root hub sits on no port");
    assert_eq!(index.connector_of("3-9"), None, "no port object for port 9");
    assert_eq!(index.connector_of("garbage"), None);
    assert_eq!(
        PortIndex::default().connector_of("3-1"),
        None,
        "an empty index (a tree without port objects) places nothing"
    );
}

#[test]
fn objects_outside_interface_dirs_are_not_scanned() {
    let nodes = vec![
        plain(
            "3-1",
            Content::Directory(vec![
                plain("3-1-port7", Content::Directory(Vec::new())),
                plain("3-1:1.0", Content::Directory(vec![plain("other-port1", Content::Directory(Vec::new()))])),
            ]),
        ),
        plain(
            "0000:06:00.4",
            Content::Directory(vec![plain("physical_node", Content::Directory(Vec::new()))]),
        ),
        plain("3-1:1.0", Content::Directory(vec![plain("3-1-port8", Content::Directory(Vec::new()))])),
    ];
    let index = PortIndex::scan(&nodes);
    assert_eq!(index.iter().len(), 0, "{:?}", index.iter());
    assert!(!index.is_hub("3-1"));
}

#[test]
fn scan_devices_skips_unreadable_and_nameless_paths() {
    let t = paired_tree();
    let mut nodes: Vec<Node> = t.nodes().into_iter().filter(|n| n.name == "3-1").collect();
    nodes.push(plain("9-9", Content::Absent));
    let index = PortIndex::scan_devices(&nodes);
    assert_eq!(index.iter().len(), 2, "only 3-1's two ports");
    assert!(index.is_hub("3-1"));
}

#[test]
fn a_name_tells_its_bus_and_its_chain() {
    assert_eq!(bus_of("usb3"), Some(3));
    assert_eq!(bus_of("3-1.4"), Some(3));
    assert_eq!(bus_of("3-1.4:1.0"), None);
    assert_eq!(chain_of("usb3"), Some(vec![]));
    assert_eq!(chain_of("3-1.4"), Some(vec![1, 4]));
    assert_eq!(chain_of("camera"), None);
}

#[test]
fn a_connector_stands_where_its_device_does() {
    let t = paired_tree();
    let index = PortIndex::scan(&t.nodes());
    for device in ["3-1", "4-1", "3-1.2"] {
        let (own, peer) = index.connector_of(device).unwrap();
        assert_eq!(parse_device_name(device), Some((own.bus, own.chain.clone())));
        if let Some(peer) = peer {
            assert_eq!(index.get(&own.name).unwrap().peer, Some(peer.name.clone()));
            assert_eq!(index.get(&peer.name).unwrap().peer, Some(own.name.clone()));
        }
    }
    for (name, info) in index.iter() {
        assert_eq!(*name, port_name(&info.hub, info.number));
    }
}
