//! Call-outs: devices and hubs linked below the speed they support, and why.
//! Everything here follows from the device rows and the connector index.
//!
//! The kernel pairs a hub's ports by port number with the ports of the hub on
//! its upstream port's peer; a hub whose two halves sit on different port
//! numbers gets its own ports left unpaired and its halves paired with empty
//! ports. Such halves are therefore matched by elimination, and nothing is
//! said when the match is ambiguous.

pub mod laws;

use vstd::prelude::*;

use crate::connector::{
    attachment, connector, device_name_of_port, device_on, law_attachment_shortens_the_chain, owns_a_port, port_name,
    port_of_device, port_text, position_of, reciprocal, PortFacts, PortIndex,
};
use crate::device::bos::{Capability, CapabilitySource};
use crate::device::manager::{bus_in, DeviceManager, UsbBus};
use crate::device::{text_of, UsbDevice};
use crate::order::{lemma_sorted, lemma_sorted_mapped, rank, sort, sorted_by, Ranked};
use crate::speed::{short_rate, short_text, UsbSpeed};
use crate::text::{extend_str, from_chars, str_eq, to_chars};

verus! {

/// High Speed, in bits per second: the fastest a USB 2 link comes up.
pub const HIGH_SPEED: u64 = 480_000_000;

/// Why a device is linked below its capability, when the topology proves it.
#[derive(Debug, PartialEq, Eq)]
pub enum Cause {
    /// The connector's SuperSpeed port is empty: the link came up at USB 2
    /// speed (a cable or port problem, or a device that never trained).
    SuperSpeedSideEmpty { peer_port: String },
    /// The root port has no SuperSpeed twin.
    Usb2OnlyHostPort,
    /// The hub above the device is itself linked below the capability.
    UpstreamHubLink { hub: String, hub_link: UsbSpeed },
    /// The root hub's own rate is below the capability.
    HostPortMax { max: UsbSpeed },
    /// The upstream allows the capability; the link still came up slower.
    UpstreamPermits,
}

/// What a `Cause` says.
pub enum Reason {
    SuperSpeedSideEmpty { peer_port: Seq<char> },
    Usb2OnlyHostPort,
    UpstreamHubLink { hub: Seq<char>, hub_link: UsbSpeed },
    HostPortMax { max: UsbSpeed },
    UpstreamPermits,
}

impl View for Cause {
    type V = Reason;

    open spec fn view(&self) -> Reason {
        match self {
            Cause::SuperSpeedSideEmpty { peer_port } => Reason::SuperSpeedSideEmpty { peer_port: peer_port@ },
            Cause::Usb2OnlyHostPort => Reason::Usb2OnlyHostPort,
            Cause::UpstreamHubLink { hub, hub_link } => Reason::UpstreamHubLink {
                hub: hub@,
                hub_link: *hub_link,
            },
            Cause::HostPortMax { max } => Reason::HostPortMax { max: *max },
            Cause::UpstreamPermits => Reason::UpstreamPermits,
        }
    }
}

/// The sentence that explains a cause.
pub open spec fn reason_text(cause: Reason, capability: UsbSpeed) -> Seq<char> {
    match cause {
        Reason::SuperSpeedSideEmpty { peer_port } => "the SuperSpeed side of this connector ("@ + peer_port
            + ") is empty, so the link came up at USB 2 speed; check the cable or the port"@,
        Reason::Usb2OnlyHostPort => "this host port is USB 2 only; move it to a USB 3 port"@,
        Reason::UpstreamHubLink { hub, hub_link } => {
            let text = "the hub above it ("@ + hub + ") is linked at "@ + short_text(hub_link.bps as nat);
            if hub_link.bps <= HIGH_SPEED {
                text + "; move it to a USB 3 port"@
            } else {
                text
            }
        },
        Reason::HostPortMax { max } => "this host port tops out at "@ + short_text(max.bps as nat),
        Reason::UpstreamPermits => "the port above it allows "@ + short_text(capability.bps as nat)
            + "; check the cable or the device"@,
    }
}

impl Cause {
    /// The JSON value.
    pub fn kind(&self) -> (r: &'static str)
        ensures
            r@ == (match self {
                Cause::SuperSpeedSideEmpty { .. } => "superspeed_side_empty"@,
                Cause::Usb2OnlyHostPort => "usb2_only_host_port"@,
                Cause::UpstreamHubLink { .. } => "upstream_hub_link"@,
                Cause::HostPortMax { .. } => "host_port_max"@,
                Cause::UpstreamPermits => "upstream_permits"@,
            }),
    {
        match self {
            Cause::SuperSpeedSideEmpty { .. } => "superspeed_side_empty",
            Cause::Usb2OnlyHostPort => "usb2_only_host_port",
            Cause::UpstreamHubLink { .. } => "upstream_hub_link",
            Cause::HostPortMax { .. } => "host_port_max",
            Cause::UpstreamPermits => "upstream_permits",
        }
    }

    fn reason(&self, capability: &UsbSpeed) -> (r: Vec<char>)
        ensures
            r@ == reason_text(self@, *capability),
    {
        match self {
            Cause::SuperSpeedSideEmpty { peer_port } => {
                let mut r = to_chars("the SuperSpeed side of this connector (");
                extend_str(&mut r, peer_port.as_str());
                extend_str(
                    &mut r,
                    ") is empty, so the link came up at USB 2 speed; check the cable or the port",
                );
                r
            },
            Cause::Usb2OnlyHostPort => to_chars("this host port is USB 2 only; move it to a USB 3 port"),
            Cause::UpstreamHubLink { hub, hub_link } => {
                let mut r = to_chars("the hub above it (");
                extend_str(&mut r, hub.as_str());
                extend_str(&mut r, ") is linked at ");
                let speed = short_rate(hub_link.bps);
                extend_str(&mut r, speed.as_str());
                if hub_link.bps <= HIGH_SPEED {
                    extend_str(&mut r, "; move it to a USB 3 port");
                }
                r
            },
            Cause::HostPortMax { max } => {
                let mut r = to_chars("this host port tops out at ");
                let speed = short_rate(max.bps);
                extend_str(&mut r, speed.as_str());
                r
            },
            Cause::UpstreamPermits => {
                let mut r = to_chars("the port above it allows ");
                let speed = short_rate(capability.bps);
                extend_str(&mut r, speed.as_str());
                extend_str(&mut r, "; check the cable or the device");
                r
            },
        }
    }
}

/// One device linked below the speed it supports.
#[derive(Debug)]
pub struct Finding {
    pub bus: u8,
    pub address: u8,
    /// The sysfs name, `5-1.2`.
    pub path: String,
    /// The kernel port name the device is on, `5-1-port2`; `None` when the
    /// index does not know it.
    pub port: Option<String>,
    pub link: UsbSpeed,
    pub capability: Capability,
    pub cause: Option<Cause>,
}

/// What a `Finding` says.
pub struct FindingFacts {
    pub bus: u8,
    pub address: u8,
    pub path: Seq<char>,
    pub port: Option<Seq<char>>,
    pub link: UsbSpeed,
    pub capability: Capability,
    pub cause: Option<Reason>,
}

impl View for Finding {
    type V = FindingFacts;

    open spec fn view(&self) -> FindingFacts {
        FindingFacts {
            bus: self.bus,
            address: self.address,
            path: self.path@,
            port: text_of(self.port),
            link: self.link,
            capability: self.capability,
            cause: match self.cause {
                Some(c) => Some(c@),
                None => None,
            },
        }
    }
}

/// The sentence every surface shows.
pub open spec fn finding_text(f: FindingFacts) -> Seq<char> {
    "linked at "@ + short_text(f.link.bps as nat) + ", supports "@ + short_text(f.capability.speed.bps as nat) + (
    match f.capability.source {
        CapabilitySource::Bos => ""@,
        CapabilitySource::BcdUsb => " (from bcdUSB)"@,
    }) + ": "@ + (match f.cause {
        Some(c) => reason_text(c, f.capability.speed),
        None => "its port is unknown to the connector index"@,
    })
}

impl Finding {
    /// The sentence every surface shows: `linked at 480M, supports 10G:
    /// <reason>`, with `(from bcdUSB)` after the capability when it is the
    /// fallback floor.
    pub fn message(&self) -> (r: String)
        ensures
            r@ == finding_text(self@),
    {
        let mut r = to_chars("linked at ");
        let link = short_rate(self.link.bps);
        extend_str(&mut r, link.as_str());
        extend_str(&mut r, ", supports ");
        let speed = short_rate(self.capability.speed.bps);
        extend_str(&mut r, speed.as_str());
        match self.capability.source {
            CapabilitySource::Bos => {
                extend_str(&mut r, "");
            },
            CapabilitySource::BcdUsb => {
                extend_str(&mut r, " (from bcdUSB)");
            },
        }
        extend_str(&mut r, ": ");
        let reason = match &self.cause {
            Some(c) => c.reason(&self.capability.speed),
            None => to_chars("its port is unknown to the connector index"),
        };
        crate::text::extend(&mut r, &reason);
        from_chars(&r)
    }
}

/// `480M`, `5G`, `10G`; `?` for an unknown rate.
pub fn short_speed(speed: &UsbSpeed) -> (r: String)
    ensures
        r@ == short_text(speed.bps as nat),
{
    short_rate(speed.bps)
}

/// One present device.
#[derive(Debug)]
pub struct Row {
    pub name: String,
    pub bus: u8,
    pub address: u8,
    pub link: UsbSpeed,
    pub capability: Option<Capability>,
}

/// What a `Row` says.
pub struct RowFacts {
    pub name: Seq<char>,
    pub bus: u8,
    pub address: u8,
    pub link: UsbSpeed,
    pub capability: Option<Capability>,
}

impl View for Row {
    type V = RowFacts;

    open spec fn view(&self) -> RowFacts {
        RowFacts {
            name: self.name@,
            bus: self.bus,
            address: self.address,
            link: self.link,
            capability: self.capability,
        }
    }
}

impl Ranked for Row {
    open spec fn le(self, other: Self) -> bool {
        self.bus < other.bus || (self.bus == other.bus && self.address <= other.address)
    }

    fn is_le(&self, other: &Self) -> (r: bool) {
        self.bus < other.bus || (self.bus == other.bus && self.address <= other.address)
    }

    proof fn le_total(a: Self, b: Self) {
    }

    proof fn le_transitive(a: Self, b: Self, c: Self) {
    }
}

/// What is known of several rows.
pub open spec fn row_facts(v: Seq<Row>) -> Seq<RowFacts> {
    v.map_values(|r: Row| r@)
}

impl RowFacts {
    /// Whether the device supports more than High Speed.
    pub open spec fn above_high(self) -> bool {
        match self.capability {
            Some(c) => c.speed.bps > HIGH_SPEED,
            None => false,
        }
    }
}

impl Row {
    fn capable_above_high(&self) -> (r: bool)
        ensures
            r == self@.above_high(),
    {
        match self.capability {
            Some(c) => c.speed.bps > HIGH_SPEED,
            None => false,
        }
    }
}

/// The verdict about a hub's SuperSpeed half. A hub whose half provably never
/// enumerated is a call-out, while a hub whose half the topology cannot pin
/// down says nothing at all.
#[derive(Debug)]
pub enum Half {
    /// That hub is this hub's SuperSpeed half.
    Known(String),
    /// This hub has no SuperSpeed half: it is a SuperSpeed hub itself, it
    /// claims no SuperSpeed capability, there is no SuperSpeed side above
    /// it, or no unclaimed SuperSpeed hub exists there for it to be.
    Missing,
    /// Two or more candidates fit, or the parent's own half is itself
    /// ambiguous.
    Ambiguous,
}

/// What a `Half` says.
pub enum HalfFacts {
    Known(Seq<char>),
    Missing,
    Ambiguous,
}

impl View for Half {
    type V = HalfFacts;

    open spec fn view(&self) -> HalfFacts {
        match self {
            Half::Known(s) => HalfFacts::Known(s@),
            Half::Missing => HalfFacts::Missing,
            Half::Ambiguous => HalfFacts::Ambiguous,
        }
    }
}

/// The present rows and the ports, in name order.
pub struct Scene {
    pub rows: Seq<RowFacts>,
    pub ports: Map<Seq<char>, PortFacts>,
    pub listing: Seq<(Seq<char>, PortFacts)>,
}

/// The last row called `name`.
pub open spec fn row_named(rows: Seq<RowFacts>, name: Seq<char>) -> Option<RowFacts>
    decreases rows.len(),
{
    if rows.len() == 0 {
        None
    } else if rows.last().name == name {
        Some(rows.last())
    } else {
        row_named(rows.drop_last(), name)
    }
}

impl Scene {
    /// The present device called `name`.
    pub open spec fn present(self, name: Seq<char>) -> Option<RowFacts> {
        row_named(self.rows, name)
    }

    /// The reciprocal peer of a device's own port.
    pub open spec fn peer_port(self, device: Seq<char>) -> Option<Seq<char>> {
        match connector(self.ports, device) {
            Some((_, Some(peer))) => Some(peer.name),
            _ => None,
        }
    }

    /// The present device on a port.
    pub open spec fn device_at(self, port: Seq<char>) -> Option<RowFacts> {
        if self.ports.dom().contains(port) {
            match device_on(self.ports[port].hub, self.ports[port].number) {
                Some(name) => self.present(name),
                None => None,
            }
        } else {
            None
        }
    }

    /// Whether a hub's own port has a reciprocal peer holding a present
    /// device.
    pub open spec fn peer_occupied(self, hub: Seq<char>) -> bool {
        match self.peer_port(hub) {
            Some(peer) => self.device_at(peer) is Some,
            None => false,
        }
    }

    /// Whether a row is a hub on one of `parent`'s ports.
    pub open spec fn is_hub_on(self, row: RowFacts, parent: Seq<char>) -> bool {
        owns_a_port(self.ports, row.name) && (attachment(row.name) matches Some((hub, _)) && hub == parent)
    }

    /// Whether a row is a USB 2 hub on `parent` whose half is not accounted
    /// for.
    pub open spec fn unclaimed_usb2(self, row: RowFacts, parent: Seq<char>) -> bool {
        self.is_hub_on(row, parent) && row.link.bps <= HIGH_SPEED && row.above_high() && !self.peer_occupied(
            row.name,
        )
    }

    /// Whether a row is a SuperSpeed hub on `parent` whose half is not
    /// accounted for.
    pub open spec fn unclaimed_super(self, row: RowFacts, parent: Seq<char>) -> bool {
        self.is_hub_on(row, parent) && row.link.bps > HIGH_SPEED && !self.peer_occupied(row.name)
    }
}

/// The names of the unclaimed hubs among some rows, in row order.
pub open spec fn unclaimed(scene: Scene, rows: Seq<RowFacts>, parent: Seq<char>, superspeed: bool) -> Seq<Seq<char>>
    decreases rows.len(),
{
    if rows.len() == 0 {
        Seq::empty()
    } else {
        let front = unclaimed(scene, rows.drop_last(), parent, superspeed);
        let row = rows.last();
        if (superspeed && scene.unclaimed_super(row, parent)) || (!superspeed && scene.unclaimed_usb2(
            row,
            parent,
        )) {
            front.push(row.name)
        } else {
            front
        }
    }
}

/// The hub that holds the reciprocal peer of one of a root hub's ports, when
/// that hub is present.
pub open spec fn peer_hub_of(scene: Scene, entry: (Seq<char>, PortFacts), hub: Seq<char>) -> Option<Seq<char>> {
    if entry.1.hub == hub {
        match reciprocal(scene.ports, entry.0) {
            Some(peer) => if scene.present(scene.ports[peer].hub) is Some {
                Some(scene.ports[peer].hub)
            } else {
                None
            },
            None => None,
        }
    } else {
        None
    }
}

/// The first such hub, in port name order.
pub open spec fn first_peer_hub(scene: Scene, listing: Seq<(Seq<char>, PortFacts)>, hub: Seq<char>) -> Option<Seq<char>>
    decreases listing.len(),
{
    if listing.len() == 0 {
        None
    } else {
        match peer_hub_of(scene, listing[0], hub) {
            Some(h) => Some(h),
            None => first_peer_hub(scene, listing.skip(1), hub),
        }
    }
}

/// How far a device is from its root hub.
pub open spec fn depth(name: Seq<char>) -> nat {
    match position_of(name) {
        Some((_, chain)) => chain.len(),
        None => 0,
    }
}

/// The kernel's own pairing: the hub on the peer of a hub's own port.
pub open spec fn paired_hub(scene: Scene, hub: Seq<char>) -> Option<Seq<char>> {
    match scene.peer_port(hub) {
        Some(peer) => match scene.device_at(peer) {
            Some(dev) => if owns_a_port(scene.ports, dev.name) {
                Some(dev.name)
            } else {
                None
            },
            None => None,
        },
        None => None,
    }
}

/// What the unclaimed hubs on both sides leave for `hub`.
pub open spec fn by_elimination(hub: Seq<char>, usb2: Seq<Seq<char>>, superspeed: Seq<Seq<char>>) -> HalfFacts {
    if usb2.len() == 1 && superspeed.len() == 1 && usb2[0] == hub {
        HalfFacts::Known(superspeed[0])
    } else if superspeed.len() == 0 {
        HalfFacts::Missing
    } else {
        HalfFacts::Ambiguous
    }
}

/// The SuperSpeed half of a hub.
pub open spec fn half_of(scene: Scene, hub: Seq<char>) -> HalfFacts
    decreases depth(hub),
{
    match scene.present(hub) {
        None => HalfFacts::Missing,
        Some(row) => if row.link.bps > HIGH_SPEED {
            HalfFacts::Missing
        } else {
            match attachment(hub) {
                None => match first_peer_hub(scene, scene.listing, hub) {
                    Some(h) => HalfFacts::Known(h),
                    None => HalfFacts::Missing,
                },
                Some((parent, _)) => match paired_hub(scene, hub) {
                    Some(h) => HalfFacts::Known(h),
                    None => if !row.above_high() {
                        HalfFacts::Missing
                    } else {
                        proof {
                            law_attachment_shortens_the_chain(hub);
                        }
                        match half_of(scene, parent) {
                            HalfFacts::Known(above) => by_elimination(
                                hub,
                                unclaimed(scene, scene.rows, parent, false),
                                unclaimed(scene, scene.rows, above, true),
                            ),
                            HalfFacts::Missing => HalfFacts::Missing,
                            HalfFacts::Ambiguous => HalfFacts::Ambiguous,
                        }
                    },
                },
            }
        },
    }
}

/// The SuperSpeed port opposite a device's own port, when the parent's half
/// is known and has that port.
pub open spec fn opposite_port(scene: Scene, parent: Seq<char>, number: nat) -> Option<Seq<char>> {
    match half_of(scene, parent) {
        HalfFacts::Known(half) => if scene.ports.dom().contains(port_text(half, number)) {
            Some(port_text(half, number))
        } else {
            None
        },
        _ => None,
    }
}

/// The rate that limits a device from above: its bus's at a root port, else
/// its parent hub's link.
pub open spec fn limit_above(
    scene: Scene,
    row: RowFacts,
    parent: Seq<char>,
    bus_speed: Option<UsbSpeed>,
) -> Option<UsbSpeed> {
    if attachment(parent) is None {
        bus_speed
    } else {
        match scene.present(parent) {
            Some(p) => Some(p.link),
            None => None,
        }
    }
}

/// The finding about a row, if there is one.
pub open spec fn verdict(scene: Scene, row: RowFacts, bus_speed: Option<UsbSpeed>) -> Option<FindingFacts> {
    match (row.capability, attachment(row.name)) {
        (Some(capability), Some((parent, number))) => {
            let port = port_text(parent, number);
            let found = FindingFacts {
                bus: row.bus,
                address: row.address,
                path: row.name,
                port: Some(port),
                link: row.link,
                capability,
                cause: None,
            };
            if row.link.bps == 0 || capability.speed.bps <= row.link.bps {
                None
            } else if !scene.ports.dom().contains(port) {
                Some((FindingFacts { port: None, ..found }))
            } else if row.link.bps <= HIGH_SPEED {
                if owns_a_port(scene.ports, row.name) && !(half_of(scene, row.name) is Missing) {
                    None
                } else {
                    match opposite_port(scene, parent, number) {
                        Some(ss) => if scene.device_at(ss) is Some {
                            None
                        } else {
                            Some(
                                (FindingFacts {
                                    cause: Some(Reason::SuperSpeedSideEmpty { peer_port: ss }),
                                    ..found
                                }),
                            )
                        },
                        None => if attachment(parent) is None {
                            Some((FindingFacts { cause: Some(Reason::Usb2OnlyHostPort), ..found }))
                        } else {
                            Some(
                                (FindingFacts {
                                    cause: Some(
                                        Reason::UpstreamHubLink {
                                            hub: parent,
                                            hub_link: match scene.present(parent) {
                                                Some(p) => p.link,
                                                None => UsbSpeed { bps: 0 },
                                            },
                                        },
                                    ),
                                    ..found
                                }),
                            )
                        },
                    }
                }
            } else {
                let cause = match limit_above(scene, row, parent, bus_speed) {
                    Some(max) => if 0 < max.bps < capability.speed.bps {
                        if attachment(parent) is None {
                            Reason::HostPortMax { max }
                        } else {
                            Reason::UpstreamHubLink { hub: parent, hub_link: max }
                        }
                    } else {
                        Reason::UpstreamPermits
                    },
                    None => Reason::UpstreamPermits,
                };
                Some((FindingFacts { cause: Some(cause), ..found }))
            }
        },
        _ => None,
    }
}

/// The row that a present device with a name makes.
pub open spec fn row_of(d: UsbDevice) -> Option<RowFacts> {
    match d.name() {
        Some(name) => if d.is_disconnected {
            None
        } else {
            Some(
                (RowFacts {
                    name,
                    bus: d.bus_id,
                    address: d.device_id,
                    link: d.speed,
                    capability: d.capability,
                }),
            )
        },
        None => None,
    }
}

/// The rows that a bus's devices make.
pub open spec fn rows_of_bus(devices: Seq<UsbDevice>) -> Seq<RowFacts>
    decreases devices.len(),
{
    if devices.len() == 0 {
        Seq::empty()
    } else {
        match row_of(devices.last()) {
            Some(r) => rows_of_bus(devices.drop_last()).push(r),
            None => rows_of_bus(devices.drop_last()),
        }
    }
}

/// The rows that all devices make, bus after bus.
pub open spec fn rows_of(buses: Seq<UsbBus>) -> Seq<RowFacts>
    decreases buses.len(),
{
    if buses.len() == 0 {
        Seq::empty()
    } else {
        rows_of(buses.drop_last()) + rows_of_bus(buses.last().devices@)
    }
}

/// The speed of a bus.
pub open spec fn speed_of_bus(buses: Seq<UsbBus>, bus: u8) -> Option<UsbSpeed> {
    match bus_in(buses, bus) {
        Some(b) => Some(b.speed),
        None => None,
    }
}

/// The findings about several rows, in row order.
pub open spec fn verdicts(scene: Scene, rows: Seq<RowFacts>, buses: Seq<UsbBus>) -> Seq<FindingFacts>
    decreases rows.len(),
{
    if rows.len() == 0 {
        Seq::empty()
    } else {
        match verdict(scene, rows.last(), speed_of_bus(buses, rows.last().bus)) {
            Some(f) => verdicts(scene, rows.drop_last(), buses).push(f),
            None => verdicts(scene, rows.drop_last(), buses),
        }
    }
}

/// The rows and the ports that verdicts are drawn from.
struct Topology<'a> {
    rows: &'a Vec<Row>,
    ports: &'a PortIndex,
}

impl<'a> Topology<'a> {
    spec fn scene(self) -> Scene {
        Scene { rows: row_facts(self.rows@), ports: self.ports@, listing: self.ports.listing() }
    }

    fn present(&self, name: &str) -> (r: Option<&'a Row>)
        ensures
            match r {
                Some(row) => self.scene().present(name@) == Some(row@),
                None => self.scene().present(name@) is None,
            },
    {
        let ghost facts = row_facts(self.rows@);
        let mut i: usize = self.rows.len();
        assert(facts.take(facts.len() as int) =~= facts);
        while i > 0
            invariant
                i <= self.rows.len(),
                facts == row_facts(self.rows@),
                row_named(facts, name@) == row_named(facts.take(i as int), name@),
            decreases i,
        {
            assert(facts.take(i as int).last() == self.rows@[i - 1]@);
            if str_eq(self.rows[i - 1].name.as_str(), name) {
                return Some(&self.rows[i - 1]);
            }
            assert(facts.take(i as int).drop_last() =~= facts.take(i - 1));
            i = i - 1;
        }
        None
    }

    fn peer_port_of(&self, device: &str) -> (r: Option<String>)
        ensures
            text_of(r) == self.scene().peer_port(device@),
    {
        match self.ports.connector_of(device) {
            Some((_, Some(peer))) => Some(peer.name),
            _ => None,
        }
    }

    fn device_on_port(&self, port: &str) -> (r: Option<&'a Row>)
        ensures
            match r {
                Some(row) => self.scene().device_at(port@) == Some(row@),
                None => self.scene().device_at(port@) is None,
            },
    {
        match self.ports.get(port) {
            None => None,
            Some(info) => match device_name_of_port(info.hub.as_str(), info.number) {
                None => None,
                Some(name) => self.present(name.as_str()),
            },
        }
    }

    fn peer_holds_a_device(&self, hub: &str) -> (r: bool)
        ensures
            r == self.scene().peer_occupied(hub@),
    {
        match self.peer_port_of(hub) {
            None => false,
            Some(peer) => self.device_on_port(peer.as_str()).is_some(),
        }
    }

    /// Whether a row is a hub on one of `parent`'s ports.
    fn is_hub_on(&self, row: &Row, parent: &str) -> (r: bool)
        ensures
            r == self.scene().is_hub_on(row@, parent@),
    {
        if !self.ports.is_hub(row.name.as_str()) {
            return false;
        }
        match port_of_device(row.name.as_str()) {
            None => false,
            Some((hub, _)) => str_eq(hub.as_str(), parent),
        }
    }

    /// The names of the unclaimed hubs on `parent`'s ports, in row order.
    fn hubs_on(&self, parent: &str, superspeed: bool) -> (r: Vec<String>)
        ensures
            crate::text::string_views(r@) == unclaimed(
                self.scene(),
                self.scene().rows,
                parent@,
                superspeed,
            ),
    {
        let ghost scene = self.scene();
        let mut names: Vec<String> = Vec::new();
        let mut i: usize = 0;
        assert(scene.rows.take(0) =~= Seq::<RowFacts>::empty());
        assert(crate::text::string_views(names@) =~= Seq::<Seq<char>>::empty());
        while i < self.rows.len()
            invariant
                i <= self.rows.len(),
                scene == self.scene(),
                crate::text::string_views(names@) == unclaimed(
                    scene,
                    scene.rows.take(i as int),
                    parent@,
                    superspeed,
                ),
            decreases self.rows.len() - i,
        {
            let row = &self.rows[i];
            assert(scene.rows[i as int] == row@);
            assert(scene.rows.take(i + 1).drop_last() =~= scene.rows.take(i as int));
            let fits = if superspeed {
                row.link.bps > HIGH_SPEED
            } else {
                row.link.bps <= HIGH_SPEED && row.capable_above_high()
            };
            let ghost before = crate::text::string_views(names@);
            if self.is_hub_on(row, parent) && fits && !self.peer_holds_a_device(row.name.as_str()) {
                names.push(row.name.clone());
                assert(crate::text::string_views(names@) =~= before.push(row.name@));
            }
            i = i + 1;
        }
        assert(scene.rows.take(scene.rows.len() as int) =~= scene.rows);
        names
    }

    /// For a root hub: the present hub owning the reciprocal peer of one of
    /// its ports.
    fn root_half(&self, hub: &str) -> (r: Option<String>)
        ensures
            text_of(r) == first_peer_hub(self.scene(), self.scene().listing, hub@),
    {
        let ghost scene = self.scene();
        let entries = self.ports.iter();
        let ghost views = entries@.map_values(
            |e: (&String, &crate::connector::PortInfo)| (e.0@, e.1@),
        );
        let mut i: usize = 0;
        assert(scene.listing.skip(0) =~= scene.listing);
        while i < entries.len()
            invariant
                i <= entries.len(),
                scene == self.scene(),
                views == entries@.map_values(|e: (&String, &crate::connector::PortInfo)| (e.0@, e.1@)),
                views == scene.listing,
                first_peer_hub(scene, scene.listing, hub@) == first_peer_hub(
                    scene,
                    scene.listing.skip(i as int),
                    hub@,
                ),
            decreases entries.len() - i,
        {
            let (name, info) = entries[i];
            assert(views[i as int] == (name@, info@));
            assert(scene.listing.skip(i as int)[0] == scene.listing[i as int]);
            if str_eq(info.hub.as_str(), hub) {
                if let Some(peer) = self.ports.peer_back(name.as_str()) {
                    if let Some(other) = self.ports.get(peer.as_str()) {
                        if self.present(other.hub.as_str()).is_some() {
                            return Some(other.hub.clone());
                        }
                    }
                }
            }
            assert(scene.listing.skip(i as int).skip(1) =~= scene.listing.skip(i + 1));
            i = i + 1;
        }
        None
    }

    /// The SuperSpeed half of a hub.
    fn find_ss_half(&self, hub: &str) -> (r: Half)
        ensures
            r@ == half_of(self.scene(), hub@),
        decreases depth(hub@),
    {
        let ghost scene = self.scene();
        let row = match self.present(hub) {
            None => {
                return Half::Missing;
            },
            Some(row) => row,
        };
        if row.link.bps > HIGH_SPEED {
            return Half::Missing;
        }
        let parent = match port_of_device(hub) {
            None => {
                return match self.root_half(hub) {
                    Some(h) => Half::Known(h),
                    None => Half::Missing,
                };
            },
            Some((parent, _)) => parent,
        };
        if let Some(peer) = self.peer_port_of(hub) {
            if let Some(dev) = self.device_on_port(peer.as_str()) {
                if self.ports.is_hub(dev.name.as_str()) {
                    return Half::Known(dev.name.clone());
                }
            }
        }
        if !row.capable_above_high() {
            return Half::Missing;
        }
        proof {
            law_attachment_shortens_the_chain(hub@);
        }
        let above = match self.find_ss_half(parent.as_str()) {
            Half::Known(above) => above,
            Half::Missing => {
                return Half::Missing;
            },
            Half::Ambiguous => {
                return Half::Ambiguous;
            },
        };
        let usb2 = self.hubs_on(parent.as_str(), false);
        let superspeed = self.hubs_on(above.as_str(), true);
        if usb2.len() == 1 && superspeed.len() == 1 {
            assert(crate::text::string_views(usb2@)[0] == usb2@[0]@);
            assert(crate::text::string_views(superspeed@)[0] == superspeed@[0]@);
            if str_eq(usb2[0].as_str(), hub) {
                return Half::Known(superspeed[0].clone());
            }
        }
        if superspeed.len() == 0 {
            Half::Missing
        } else {
            Half::Ambiguous
        }
    }

    /// The finding about a row, if there is one.
    fn finding_for(&self, row: &Row, bus_speed: Option<UsbSpeed>) -> (r: Option<Finding>)
        ensures
            match r {
                Some(f) => verdict(self.scene(), row@, bus_speed) == Some(f@),
                None => verdict(self.scene(), row@, bus_speed) is None,
            },
    {
        let ghost scene = self.scene();
        let capability = match row.capability {
            None => {
                return None;
            },
            Some(c) => c,
        };
        let link = row.link.bps;
        if link == 0 || capability.speed.bps <= link {
            return None;
        }
        let (parent, number) = match port_of_device(row.name.as_str()) {
            None => {
                return None;
            },
            Some(p) => p,
        };
        let port = port_name(parent.as_str(), number);
        if self.ports.get(port.as_str()).is_none() {
            return Some(
                Finding {
                    bus: row.bus,
                    address: row.address,
                    path: row.name.clone(),
                    port: None,
                    link: row.link,
                    capability,
                    cause: None,
                },
            );
        }
        let root_parent = port_of_device(parent.as_str()).is_none();
        let cause: Cause;
        if link <= HIGH_SPEED {
            if self.ports.is_hub(row.name.as_str()) {
                match self.find_ss_half(row.name.as_str()) {
                    Half::Known(_) => {
                        return None;
                    },
                    Half::Ambiguous => {
                        return None;
                    },
                    Half::Missing => {},
                }
            }
            let opposite = match self.find_ss_half(parent.as_str()) {
                Half::Known(half) => {
                    let name = port_name(half.as_str(), number);
                    if self.ports.get(name.as_str()).is_some() {
                        Some(name)
                    } else {
                        None
                    }
                },
                _ => None,
            };
            assert(text_of(opposite) == opposite_port(scene, parent@, number as nat));
            match opposite {
                Some(ss) => {
                    if self.device_on_port(ss.as_str()).is_some() {
                        return None;
                    }
                    cause = Cause::SuperSpeedSideEmpty { peer_port: ss };
                },
                None => {
                    if root_parent {
                        cause = Cause::Usb2OnlyHostPort;
                    } else {
                        let hub_link = match self.present(parent.as_str()) {
                            Some(p) => p.link,
                            None => UsbSpeed::unknown(),
                        };
                        cause = Cause::UpstreamHubLink { hub: parent, hub_link };
                    }
                },
            }
        } else {
            let limit = if root_parent {
                bus_speed
            } else {
                match self.present(parent.as_str()) {
                    Some(p) => Some(p.link),
                    None => None,
                }
            };
            assert(limit == limit_above(scene, row@, parent@, bus_speed));
            match limit {
                Some(max) => {
                    if max.bps > 0 && max.bps < capability.speed.bps {
                        if root_parent {
                            cause = Cause::HostPortMax { max };
                        } else {
                            cause = Cause::UpstreamHubLink { hub: parent, hub_link: max };
                        }
                    } else {
                        cause = Cause::UpstreamPermits;
                    }
                },
                None => {
                    cause = Cause::UpstreamPermits;
                },
            }
        }
        Some(
            Finding {
                bus: row.bus,
                address: row.address,
                path: row.name.clone(),
                port: Some(port),
                link: row.link,
                capability,
                cause: Some(cause),
            },
        )
    }
}

/// The rows that all devices make.
pub fn collect_rows(buses: &Vec<UsbBus>) -> (r: Vec<Row>)
    ensures
        row_facts(r@) == rows_of(buses@),
{
    let mut rows: Vec<Row> = Vec::new();
    let mut i: usize = 0;
    assert(buses@.take(0) =~= Seq::<UsbBus>::empty());
    assert(row_facts(rows@) =~= Seq::<RowFacts>::empty());
    while i < buses.len()
        invariant
            i <= buses.len(),
            row_facts(rows@) == rows_of(buses@.take(i as int)),
        decreases buses.len() - i,
    {
        assert(buses@.take(i + 1).drop_last() =~= buses@.take(i as int));
        let devices = &buses[i].devices;
        let ghost start = row_facts(rows@);
        let mut j: usize = 0;
        assert(devices@.take(0) =~= Seq::<UsbDevice>::empty());
        assert(start + rows_of_bus(devices@.take(0)) =~= start);
        while j < devices.len()
            invariant
                j <= devices.len(),
                row_facts(rows@) == start + rows_of_bus(devices@.take(j as int)),
            decreases devices.len() - j,
        {
            assert(devices@.take(j + 1).drop_last() =~= devices@.take(j as int));
            let d = &devices[j];
            let ghost before = row_facts(rows@);
            if !d.is_disconnected {
                if let Some(name) = d.sysfs_name() {
                    let row = Row {
                        name,
                        bus: d.bus_id,
                        address: d.device_id,
                        link: d.speed,
                        capability: d.capability,
                    };
                    let ghost facts = row@;
                    rows.push(row);
                    assert(row_facts(rows@) =~= before.push(facts));
                    assert(before.push(facts) =~= start + rows_of_bus(devices@.take(j as int)).push(facts));
                }
            }
            j = j + 1;
        }
        assert(devices@.take(devices@.len() as int) =~= devices@);
        i = i + 1;
    }
    assert(buses@.take(buses@.len() as int) =~= buses@);
    rows
}

/// Rows stand in the order of bus and address.
pub open spec fn by_address() -> spec_fn(RowFacts, RowFacts) -> bool {
    |a: RowFacts, b: RowFacts| a.bus < b.bus || (a.bus == b.bus && a.address <= b.address)
}

/// The findings about the devices of some buses, in the order of bus and
/// address.
pub open spec fn analysis(buses: Seq<UsbBus>, ports: PortIndex) -> Seq<FindingFacts> {
    let facts = sorted_by(rows_of(buses), by_address());
    verdicts(
        (Scene { rows: facts, ports: ports@, listing: ports.listing() }),
        facts,
        buses,
    )
}

/// Every present, non-root device linked below a known capability, with the
/// cause the topology proves, ordered by bus and address.
pub fn analyze(manager: &DeviceManager, ports: &PortIndex) -> (r: Vec<Finding>)
    ensures
        r@.map_values(|f: Finding| f@) == analysis(manager.buses@, *ports),
{
    let unordered = collect_rows(&manager.buses);
    proof {
        lemma_sorted_mapped(unordered@, rank::<Row>(), |r: Row| r@, by_address());
    }
    let rows = sort(unordered);
    let topology = Topology { rows: &rows, ports };
    let ghost scene = topology.scene();
    let mut found: Vec<Finding> = Vec::new();
    let mut i: usize = 0;
    assert(scene.rows.take(0) =~= Seq::<RowFacts>::empty());
    assert(found@.map_values(|f: Finding| f@) =~= Seq::<FindingFacts>::empty());
    while i < rows.len()
        invariant
            i <= rows.len(),
            topology.rows@ == rows@,
            scene == topology.scene(),
            scene.rows == row_facts(rows@),
            found@.map_values(|f: Finding| f@) == verdicts(scene, scene.rows.take(i as int), manager.buses@),
        decreases rows.len() - i,
    {
        assert(scene.rows[i as int] == rows@[i as int]@);
        assert(scene.rows.take(i + 1).drop_last() =~= scene.rows.take(i as int));
        let bus_speed = match manager.bus(rows[i].bus) {
            Some(b) => Some(b.speed),
            None => None,
        };
        let ghost before = found@.map_values(|f: Finding| f@);
        if let Some(f) = topology.finding_for(&rows[i], bus_speed) {
            let ghost facts = f@;
            found.push(f);
            assert(found@.map_values(|f: Finding| f@) =~= before.push(facts));
        }
        i = i + 1;
    }
    assert(scene.rows.take(scene.rows.len() as int) =~= scene.rows);
    found
}

/// A finding is about a device on a port whose known link is below its known
/// capability.
pub proof fn law_a_finding_is_below_its_capability(scene: Scene, row: RowFacts, bus_speed: Option<UsbSpeed>)
    ensures
        verdict(scene, row, bus_speed) matches Some(f) ==> {
            &&& 0 < f.link.bps < f.capability.speed.bps
            &&& f.path == row.name
            &&& attachment(row.name) is Some
        },
{
}

/// A root hub is never a finding.
pub proof fn law_a_root_hub_is_never_a_finding(scene: Scene, row: RowFacts, bus_speed: Option<UsbSpeed>)
    requires
        attachment(row.name) is None,
    ensures
        verdict(scene, row, bus_speed) is None,
{
}

/// Nothing is said about a USB 2 hub whose SuperSpeed half is up or cannot be
/// pinned down.
pub proof fn law_a_half_that_is_not_missing_silences_its_hub(
    scene: Scene,
    row: RowFacts,
    bus_speed: Option<UsbSpeed>,
)
    requires
        row.link.bps <= HIGH_SPEED,
        owns_a_port(scene.ports, row.name),
        !(half_of(scene, row.name) is Missing),
        attachment(row.name) matches Some((parent, number)) && scene.ports.dom().contains(
            port_text(parent, number),
        ),
    ensures
        verdict(scene, row, bus_speed) is None,
{
}

/// A finding repeats the link and the capability of its device.
pub proof fn law_a_finding_repeats_its_device(
    scene: Scene,
    row: RowFacts,
    bus_speed: Option<UsbSpeed>,
)
    ensures
        verdict(scene, row, bus_speed) matches Some(f) ==> Some(f.capability) == row.capability && f.link == row.link,
{
}

/// Whether one bus and address comes no later than another.
pub open spec fn no_later(bus: u8, address: u8, other_bus: u8, other_address: u8) -> bool {
    bus < other_bus || (bus == other_bus && address <= other_address)
}

proof fn lemma_verdicts_follow_rows(scene: Scene, rows: Seq<RowFacts>, buses: Seq<UsbBus>)
    requires
        forall|i: int, j: int|
            0 <= i <= j < rows.len() ==> no_later(
                (#[trigger] rows[i]).bus,
                rows[i].address,
                (#[trigger] rows[j]).bus,
                rows[j].address,
            ),
    ensures
        ({
            let v = verdicts(scene, rows, buses);
            &&& forall|i: int, j: int|
                0 <= i <= j < v.len() ==> no_later(
                    (#[trigger] v[i]).bus,
                    v[i].address,
                    (#[trigger] v[j]).bus,
                    v[j].address,
                )
            &&& rows.len() == 0 ==> v.len() == 0
            &&& rows.len() > 0 ==> forall|i: int|
                0 <= i < v.len() ==> no_later(
                    (#[trigger] v[i]).bus,
                    v[i].address,
                    rows.last().bus,
                    rows.last().address,
                )
        }),
    decreases rows.len(),
{
    if rows.len() > 0 {
        lemma_verdicts_follow_rows(scene, rows.drop_last(), buses);
        if rows.len() > 1 {
            assert(rows.drop_last().last() == rows[rows.len() - 2]);
        }
    }
}

/// Findings come in the order of bus and address.
pub proof fn law_findings_are_ordered(buses: Seq<UsbBus>, ports: PortIndex)
    ensures
        ({
            let v = analysis(buses, ports);
            forall|i: int, j: int|
                0 <= i <= j < v.len() ==> no_later(
                    (#[trigger] v[i]).bus,
                    v[i].address,
                    (#[trigger] v[j]).bus,
                    v[j].address,
                )
        }),
{
    lemma_sorted(rows_of(buses), by_address());
    let facts = sorted_by(rows_of(buses), by_address());
    assert forall|i: int, j: int| 0 <= i <= j < facts.len() implies no_later(
        (#[trigger] facts[i]).bus,
        facts[i].address,
        (#[trigger] facts[j]).bus,
        facts[j].address,
    ) by {
        if i < j {
            assert(by_address()(facts[i], facts[j]));
        }
    }
    lemma_verdicts_follow_rows(
        (Scene { rows: facts, ports: ports@, listing: ports.listing() }),
        facts,
        buses,
    );
}

} // verus!
