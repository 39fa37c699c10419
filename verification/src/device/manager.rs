//! The device rows of every bus, and what traffic and sysfs do to them.

use vstd::prelude::*;

use crate::device::{
    directory_read, endpoint_facts, endpoint_rank, endpoints_after, endpoints_ascend, endpoints_share_window, first_entry_of,
    is_entry_of, law_endpoints_keep_the_window, law_endpoints_stay_in_order, names_overlaid, read_sysfs_u8, sysfs_read,
    text_of, EndpointFacts, EndpointStats, UsbDevice,
};
use crate::filter::{set_wants_traffic, FilterSet};
use crate::number::{decimal, to_decimal};
use crate::path::{parent_parts, parts};
use crate::snapshot::Snapshot;
use crate::speed::{practical_bytes, stated_rate, UsbSpeed};
use crate::stats::{capped, live_samples, rate_per_second, sample_bytes, BandwidthStats, Sample, WINDOW_MS};
use crate::sysfs::{entry_named, find_entry, read_text, text_named, Content, Node, Sysfs};
use crate::text::{char_views, extend, from_chars, has_char, to_chars, trim, trimmed};
use crate::usbids::UsbIds;
use crate::usbmon::{TransferType, UrbType, UsbPacket};

verus! {

/// One bus and its devices. No device id stands twice.
#[derive(Debug)]
pub struct UsbBus {
    pub bus_id: u8,
    pub speed: UsbSpeed,
    pub devices: Vec<UsbDevice>,
    /// Host controller this bus hangs off, e.g. `0000:00:14.0`; `None` until
    /// the root hub's sysfs parent can be resolved.
    pub controller: Option<String>,
}

/// The first device with an id.
pub open spec fn device_in(devices: Seq<UsbDevice>, id: u8) -> Option<UsbDevice>
    decreases devices.len(),
{
    if devices.len() == 0 {
        None
    } else if devices[0].device_id == id {
        Some(devices[0])
    } else {
        device_in(devices.skip(1), id)
    }
}

/// The first bus with an id.
pub open spec fn bus_in(buses: Seq<UsbBus>, id: u8) -> Option<UsbBus>
    decreases buses.len(),
{
    if buses.len() == 0 {
        None
    } else if buses[0].bus_id == id {
        Some(buses[0])
    } else {
        bus_in(buses.skip(1), id)
    }
}

/// No device id stands twice.
pub open spec fn devices_distinct(devices: Seq<UsbDevice>) -> bool {
    forall|i: int, j: int|
        0 <= i < j < devices.len() ==> (#[trigger] devices[i]).device_id != (#[trigger] devices[j]).device_id
}

/// The row of a device.
pub open spec fn row_in(buses: Seq<UsbBus>, bus_id: u8, device_id: u8) -> Option<UsbDevice> {
    match bus_in(buses, bus_id) {
        Some(b) => device_in(b.devices@, device_id),
        None => None,
    }
}

/// No bus id stands twice, and no device id twice on one bus.
pub open spec fn all_distinct(buses: Seq<UsbBus>) -> bool {
    &&& buses_distinct(buses)
    &&& forall|i: int| 0 <= i < buses.len() ==> devices_distinct((#[trigger] buses[i]).devices@)
}

/// No bus id stands twice.
pub open spec fn buses_distinct(buses: Seq<UsbBus>) -> bool {
    forall|i: int, j: int| 0 <= i < j < buses.len() ==> (#[trigger] buses[i]).bus_id != (#[trigger] buses[j]).bus_id
}

/// Every row meets `rule`.
pub open spec fn every_row(buses: Seq<UsbBus>, rule: spec_fn(UsbDevice) -> bool) -> bool {
    forall|i: int, j: int|
        0 <= i < buses.len() && 0 <= j < buses[i].devices@.len() ==> rule(#[trigger] buses[i].devices@[j])
}

/// The rates of a row, its own and those of its endpoints, are taken over the
/// one window.
pub open spec fn one_window(d: UsbDevice) -> bool {
    &&& d.bandwidth_stats.window.window_ms == WINDOW_MS
    &&& endpoints_share_window(endpoint_facts(d.endpoints@))
}

/// The rates of every row are taken over the one window.
pub open spec fn windows_agree(buses: Seq<UsbBus>) -> bool {
    every_row(buses, |d: UsbDevice| one_window(d))
}

/// The endpoints of every device stand in order, so none stands twice.
pub open spec fn endpoints_in_order(buses: Seq<UsbBus>) -> bool {
    every_row(buses, |d: UsbDevice| endpoints_ascend(endpoint_facts(d.endpoints@)))
}

/// What holds of the rows still holds: no address stands twice, endpoints
/// stand in order, and rates are taken over the one window.
pub open spec fn stays_valid(before: Seq<UsbBus>, after: Seq<UsbBus>) -> bool {
    &&& all_distinct(before) ==> all_distinct(after)
    &&& endpoints_in_order(before) ==> endpoints_in_order(after)
    &&& windows_agree(before) ==> windows_agree(after)
}

proof fn lemma_device_in(devices: Seq<UsbDevice>, id: u8, k: int)
    requires
        0 <= k <= devices.len(),
        forall|j: int| 0 <= j < k ==> (#[trigger] devices[j]).device_id != id,
        k < devices.len() ==> devices[k].device_id == id,
    ensures
        device_in(devices, id) == (if k < devices.len() {
            Some(devices[k])
        } else {
            None
        }),
    decreases devices.len(),
{
    if k > 0 {
        let t = devices.skip(1);
        assert(devices[0].device_id != id);
        assert forall|j: int| 0 <= j < k - 1 implies (#[trigger] t[j]).device_id != id by {
            assert(t[j] == devices[j + 1]);
        }
        lemma_device_in(t, id, k - 1);
    }
}

proof fn lemma_bus_in(buses: Seq<UsbBus>, id: u8, k: int)
    requires
        0 <= k <= buses.len(),
        forall|j: int| 0 <= j < k ==> (#[trigger] buses[j]).bus_id != id,
        k < buses.len() ==> buses[k].bus_id == id,
    ensures
        bus_in(buses, id) == (if k < buses.len() {
            Some(buses[k])
        } else {
            None
        }),
    decreases buses.len(),
{
    if k > 0 {
        let t = buses.skip(1);
        assert(buses[0].bus_id != id);
        assert forall|j: int| 0 <= j < k - 1 implies (#[trigger] t[j]).bus_id != id by {
            assert(t[j] == buses[j + 1]);
        }
        lemma_bus_in(t, id, k - 1);
    }
}

/// Replacing the first device with an id changes that row alone.
proof fn lemma_device_update(devices: Seq<UsbDevice>, k: int, d: UsbDevice, id: u8)
    requires
        0 <= k < devices.len(),
        devices[k].device_id == d.device_id,
        forall|j: int| 0 <= j < k ==> (#[trigger] devices[j]).device_id != d.device_id,
    ensures
        device_in(devices.update(k, d), id) == (if id == d.device_id {
            Some(d)
        } else {
            device_in(devices, id)
        }),
    decreases devices.len(),
{
    let u = devices.update(k, d);
    if k == 0 {
        assert(u.skip(1) == devices.skip(1));
    } else {
        assert(u.skip(1) == devices.skip(1).update(k - 1, d));
        assert(u[0] == devices[0]);
        assert forall|j: int| 0 <= j < k - 1 implies (#[trigger] devices.skip(1)[j]).device_id != d.device_id by {
            assert(devices.skip(1)[j] == devices[j + 1]);
        }
        lemma_device_update(devices.skip(1), k - 1, d, id);
    }
}

/// Adding a device with a new id adds that row alone.
proof fn lemma_device_push(devices: Seq<UsbDevice>, d: UsbDevice, id: u8)
    requires
        device_in(devices, d.device_id) is None,
    ensures
        device_in(devices.push(d), id) == (if id == d.device_id {
            Some(d)
        } else {
            device_in(devices, id)
        }),
    decreases devices.len(),
{
    let p = devices.push(d);
    if devices.len() == 0 {
        assert(p.skip(1) == Seq::<UsbDevice>::empty());
        assert(device_in(p.skip(1), id) is None);
    } else {
        assert(p.skip(1) == devices.skip(1).push(d));
        lemma_device_push(devices.skip(1), d, id);
    }
}

proof fn lemma_bus_update(buses: Seq<UsbBus>, k: int, b: UsbBus, id: u8)
    requires
        0 <= k < buses.len(),
        buses[k].bus_id == b.bus_id,
        forall|j: int| 0 <= j < k ==> (#[trigger] buses[j]).bus_id != b.bus_id,
    ensures
        bus_in(buses.update(k, b), id) == (if id == b.bus_id {
            Some(b)
        } else {
            bus_in(buses, id)
        }),
    decreases buses.len(),
{
    let u = buses.update(k, b);
    if k == 0 {
        assert(u.skip(1) == buses.skip(1));
    } else {
        assert(u.skip(1) == buses.skip(1).update(k - 1, b));
        assert(u[0] == buses[0]);
        assert forall|j: int| 0 <= j < k - 1 implies (#[trigger] buses.skip(1)[j]).bus_id != b.bus_id by {
            assert(buses.skip(1)[j] == buses[j + 1]);
        }
        lemma_bus_update(buses.skip(1), k - 1, b, id);
    }
}

proof fn lemma_bus_push(buses: Seq<UsbBus>, b: UsbBus, id: u8)
    requires
        bus_in(buses, b.bus_id) is None,
    ensures
        bus_in(buses.push(b), id) == (if id == b.bus_id {
            Some(b)
        } else {
            bus_in(buses, id)
        }),
    decreases buses.len(),
{
    let p = buses.push(b);
    if buses.len() == 0 {
        assert(p.skip(1) == Seq::<UsbBus>::empty());
        assert(bus_in(p.skip(1), id) is None);
    } else {
        assert(p.skip(1) == buses.skip(1).push(b));
        lemma_bus_push(buses.skip(1), b, id);
    }
}

/// The name of a bus's root hub.
pub open spec fn root_hub_name(bus_id: u8) -> Seq<char> {
    "usb"@ + decimal(bus_id as nat)
}

/// The controller that a root hub's canonical path names: the directory the
/// hub lies in.
pub open spec fn controller_of(entries: Seq<Node>, bus_id: u8) -> Option<Seq<char>> {
    match entry_named(entries, root_hub_name(bus_id)) {
        Some(n) => match n.canonical {
            Some(p) => enclosing_name(p@),
            None => None,
        },
        None => None,
    }
}

/// The name of the directory that holds `path`.
pub open spec fn enclosing_name(path: Seq<char>) -> Option<Seq<char>> {
    match parent_parts(path) {
        Some(up) => if up.len() > 0 && crate::path::is_name(up.last()) {
            Some(up.last())
        } else {
            None
        },
        None => None,
    }
}

/// The speed of the fastest device; not known when there is none.
pub open spec fn fastest(devices: Seq<UsbDevice>) -> UsbSpeed
    decreases devices.len(),
{
    if devices.len() == 0 {
        UsbSpeed { bps: 0 }
    } else {
        let best = fastest(devices.drop_last());
        let last = devices.last().speed;
        if last.bps >= best.bps {
            last
        } else {
            best
        }
    }
}

/// What a bus knows after sysfs was asked for its root hub: the controller
/// once it is known stays; the root hub's speed decides, and without it the
/// fastest device.
pub open spec fn bus_speed_read(before: UsbBus, sysfs: Sysfs, after: UsbBus) -> bool {
    &&& match before.controller {
        Some(_) => after.controller == before.controller,
        None => text_of(after.controller) == controller_of(sysfs.entries@, before.bus_id),
    }
    &&& match entry_named(sysfs.entries@, root_hub_name(before.bus_id)) {
        Some(hub) => match text_named(hub.children(), "speed"@) {
            Some(t) => after.speed.bps == stated_rate(trimmed(t)),
            None => after.speed == fastest(before.devices@),
        },
        None => after.speed == fastest(before.devices@),
    }
    &&& after == (UsbBus { speed: after.speed, controller: after.controller, ..before })
}

/// The name of the directory that holds `path`.
pub fn enclosing_dir(path: &str) -> (r: Option<String>)
    ensures
        text_of(r) == enclosing_name(path@),
{
    let v = to_chars(path);
    let p = parts(&v);
    let ghost views = char_views(p@);
    let n = p.len();
    if n == 0 {
        return None;
    }
    assert(views.last() == p@[n - 1]@);
    if crate::path::is_root(&p[n - 1]) || n < 2 {
        return None;
    }
    let up = &p[n - 2];
    assert(views.drop_last().last() == up@);
    if crate::path::is_root(up) || crate::path::is_here(up) || crate::path::is_up(up) {
        return None;
    }
    Some(from_chars(up))
}

impl UsbBus {
    /// A bus with nothing on it.
    pub fn new(bus_id: u8) -> (b: UsbBus)
        ensures
            b.bus_id == bus_id,
            b.speed.bps == 0,
            b.devices@ == Seq::<UsbDevice>::empty(),
            b.controller is None,
    {
        UsbBus { bus_id, speed: UsbSpeed::unknown(), devices: Vec::new(), controller: None }
    }

    /// Where the first device with an id stands.
    pub fn position(&self, device_id: u8) -> (r: Option<usize>)
        ensures
            match r {
                Some(k) => {
                    &&& k < self.devices@.len()
                    &&& self.devices@[k as int].device_id == device_id
                    &&& forall|j: int| 0 <= j < k ==> (#[trigger] self.devices@[j]).device_id != device_id
                    &&& device_in(self.devices@, device_id) == Some(self.devices@[k as int])
                },
                None => {
                    &&& forall|j: int|
                        0 <= j < self.devices@.len() ==> (#[trigger] self.devices@[j]).device_id != device_id
                    &&& device_in(self.devices@, device_id) is None
                },
            },
    {
        let mut i: usize = 0;
        while i < self.devices.len()
            invariant
                i <= self.devices.len(),
                forall|j: int| 0 <= j < i ==> (#[trigger] self.devices@[j]).device_id != device_id,
            decreases self.devices.len() - i,
        {
            if self.devices[i].device_id == device_id {
                proof {
                    lemma_device_in(self.devices@, device_id, i as int);
                }
                return Some(i);
            }
            i = i + 1;
        }
        proof {
            lemma_device_in(self.devices@, device_id, i as int);
        }
        None
    }

    /// The device with an id.
    pub fn device(&self, device_id: u8) -> (r: Option<&UsbDevice>)
        ensures
            match r {
                Some(d) => device_in(self.devices@, device_id) == Some(*d),
                None => device_in(self.devices@, device_id) is None,
            },
    {
        match self.position(device_id) {
            Some(k) => Some(&self.devices[k]),
            None => None,
        }
    }

    /// Detect the bus speed from the root hub, and resolve the host
    /// controller once.
    pub fn update_bus_speed(&mut self, sysfs: &Sysfs)
        ensures
            bus_speed_read(*old(self), *sysfs, *final(self)),
    {
        let mut name = to_chars("usb");
        let digits = to_decimal(self.bus_id as u64);
        extend(&mut name, &digits);
        let hub = from_chars(&name);
        let entry = find_entry(&sysfs.entries, hub.as_str());
        if self.controller.is_none() {
            self.controller = match entry {
                Some(n) => match &n.canonical {
                    Some(p) => enclosing_dir(p.as_str()),
                    None => None,
                },
                None => None,
            };
        }
        if let Some(n) = entry {
            if let Content::Directory(children) = &n.content {
                if let Some(text) = read_text(children, "speed") {
                    let raw = to_chars(text.as_str());
                    let t = trim(&raw);
                    let s = from_chars(&t);
                    self.speed = UsbSpeed::from_speed_str(s.as_str());
                    return ;
                }
            }
        }
        self.speed = self.fastest_device();
    }

    fn fastest_device(&self) -> (r: UsbSpeed)
        ensures
            r == fastest(self.devices@),
    {
        let mut best = UsbSpeed::unknown();
        let mut i: usize = 0;
        let ghost all = self.devices@;
        assert(all.take(0) == Seq::<UsbDevice>::empty());
        while i < self.devices.len()
            invariant
                i <= self.devices.len(),
                all == self.devices@,
                best == fastest(all.take(i as int)),
            decreases self.devices.len() - i,
        {
            assert(all.take(i + 1).drop_last() == all.take(i as int));
            let s = self.devices[i].speed;
            if s.bps >= best.bps {
                best = s;
            }
            i = i + 1;
        }
        assert(all.take(all.len() as int) == all);
        best
    }

    /// Remove a device from this bus.
    pub fn remove_device(&mut self, device_id: u8)
        requires
            devices_distinct(old(self).devices@),
        ensures
            *final(self) == (UsbBus { devices: final(self).devices, ..*old(self) }),
            devices_distinct(final(self).devices@),
            forall|id: u8| #[trigger]
                device_in(final(self).devices@, id) == (if id == device_id {
                    None
                } else {
                    device_in(old(self).devices@, id)
                }),
    {
        match self.position(device_id) {
            None => {},
            Some(k) => {
                let ghost before = self.devices@;
                let _ = self.devices.remove(k);
                proof {
                    assert forall|id: u8| #[trigger]
                        device_in(self.devices@, id) == (if id == device_id {
                            None
                        } else {
                            device_in(before, id)
                        }) by {
                        lemma_device_remove(before, k as int, id);
                    }
                }
            },
        }
    }

    /// Hundredths of a percent of the bus's practical bandwidth that its
    /// devices use together, at most 10000. `None` when the bus speed is not
    /// known: there is nothing to measure against.
    pub fn busy_percentage(&self) -> (r: Option<u64>)
        ensures
            r == bus_busy(self.speed, self.devices@),
    {
        let max = self.speed.to_practical_bytes_per_second();
        if max == 0 {
            return None;
        }
        let mut used: u64 = 0;
        let mut i: usize = 0;
        let ghost all = self.devices@;
        assert(all.take(0) == Seq::<UsbDevice>::empty());
        while i < self.devices.len()
            invariant
                i <= self.devices.len(),
                all == self.devices@,
                used == usage(all.take(i as int)),
            decreases self.devices.len() - i,
        {
            assert(all.take(i + 1).drop_last() == all.take(i as int));
            used = used.saturating_add(self.devices[i].bandwidth_stats.current_bps);
            i = i + 1;
        }
        assert(all.take(all.len() as int) == all);
        let share: u128 = used as u128 * 10_000 / max as u128;
        if share > 10_000 {
            Some(10_000)
        } else {
            Some(share as u64)
        }
    }
}

/// The bytes per second of several devices together; a sum that would
/// overflow stays at the maximum.
pub open spec fn usage(devices: Seq<UsbDevice>) -> u64
    decreases devices.len(),
{
    if devices.len() == 0 {
        0
    } else {
        capped(usage(devices.drop_last()) + devices.last().bandwidth_stats.current_bps)
    }
}

/// The share of a bus's practical bandwidth in use, in hundredths of a
/// percent, at most all of it.
pub open spec fn bus_busy(speed: UsbSpeed, devices: Seq<UsbDevice>) -> Option<u64> {
    let max = practical_bytes(speed.bps as nat);
    if max == 0 {
        None
    } else {
        let share = usage(devices) as nat * 10_000 / max;
        Some(
            if share > 10_000 {
                10_000
            } else {
                share as u64
            },
        )
    }
}

proof fn lemma_device_remove(devices: Seq<UsbDevice>, k: int, id: u8)
    requires
        0 <= k < devices.len(),
        devices_distinct(devices),
    ensures
        device_in(devices.remove(k), id) == (if id == devices[k].device_id {
            None
        } else {
            device_in(devices, id)
        }),
    decreases devices.len(),
{
    let r = devices.remove(k);
    if k == 0 {
        assert(r == devices.skip(1));
        if id == devices[0].device_id {
            assert forall|j: int| 0 <= j < r.len() implies (#[trigger] r[j]).device_id != id by {
                assert(r[j] == devices[j + 1]);
                assert(devices[0].device_id != devices[j + 1].device_id);
            }
            lemma_device_in(r, id, r.len() as int);
        }
    } else {
        let t = devices.skip(1);
        assert(r.skip(1) == t.remove(k - 1));
        assert(r[0] == devices[0]);
        assert(t[k - 1] == devices[k]);
        assert(devices[0].device_id != devices[k].device_id);
        assert(devices_distinct(t)) by {
            assert forall|i: int, j: int| 0 <= i < j < t.len() implies (#[trigger] t[i]).device_id != (
            #[trigger] t[j]).device_id by {
                assert(t[i] == devices[i + 1]);
                assert(t[j] == devices[j + 1]);
            }
        }
        lemma_device_remove(t, k - 1, id);
    }
}

/// One backend-neutral traffic event: `bytes` moved on an endpoint. The
/// transfer type is `None` when the source could not identify it.
#[derive(Debug, Clone, Copy, PartialEq, Eq, Structural)]
pub struct TrafficDelta {
    pub bus_id: u8,
    pub device_id: u8,
    pub endpoint: u8,
    /// true = IN (device to host, rx); false = OUT (host to device, tx).
    pub dir_in: bool,
    pub transfer_type: Option<TransferType>,
    pub bytes: u64,
}

/// Every bus and device row. No bus id stands twice, and no device id twice
/// on one bus.
#[derive(Debug)]
pub struct DeviceManager {
    pub buses: Vec<UsbBus>,
    /// Where sysfs is read; `None` is the live one.
    pub sysfs_base: Option<String>,
    pub filter: FilterSet,
    pub usbids: Option<UsbIds>,
    pub internal_snapshot: Option<Snapshot>,
}

/// Nothing is known of the device but its address.
pub open spec fn is_unknown(d: UsbDevice, bus_id: u8, device_id: u8, now_ms: u64) -> bool {
    &&& d.bus_id == bus_id
    &&& d.device_id == device_id
    &&& d.vendor_id is None
    &&& d.product_id is None
    &&& d.vendor is None
    &&& d.product is None
    &&& d.serial is None
    &&& d.speed.bps == 0
    &&& d.bandwidth_stats.total_rx_bytes == 0
    &&& d.bandwidth_stats.total_tx_bytes == 0
    &&& d.bandwidth_stats.current_bps == 0
    &&& d.bandwidth_stats.window.window_ms == WINDOW_MS
    &&& d.bandwidth_stats.window.samples@ == Seq::<Sample>::empty()
    &&& !d.is_disconnected
    &&& d.disconnect_time is None
    &&& d.last_seen == now_ms
    &&& d.sysfs_path is None
    &&& d.max_capability is None
    &&& d.capability is None
    &&& !d.is_internal
    &&& d.endpoints@ == Seq::<EndpointStats>::empty()
}

/// `after` is `before` with database names, where there is a database.
pub open spec fn names_applied(before: UsbDevice, ids: Option<UsbIds>, after: UsbDevice) -> bool {
    match ids {
        Some(db) => names_overlaid(before, db, after),
        None => after == before,
    }
}

/// Whether the snapshot lists the device under its sysfs name.
pub open spec fn belongs(d: UsbDevice, snapshot: Option<Snapshot>) -> bool {
    match (snapshot, d.name()) {
        (Some(s), Some(n)) => s.lists(n, d.vendor_id, d.product_id),
        _ => false,
    }
}

/// `d` marked by the snapshot: no snapshot, or no resolved path, is external.
pub open spec fn stamped(d: UsbDevice, snapshot: Option<Snapshot>) -> UsbDevice {
    UsbDevice { is_internal: belongs(d, snapshot), ..d }
}

/// `after` is `named` from the database and marked by the snapshot.
pub open spec fn dressed(before: UsbDevice, ids: Option<UsbIds>, snapshot: Option<Snapshot>, after: UsbDevice) -> bool {
    exists|named: UsbDevice| #[trigger] names_applied(before, ids, named) && after == stamped(named, snapshot)
}

/// A row made for a device first seen in traffic: what sysfs, the database
/// and the snapshot say of it.
pub open spec fn introduced(
    bus_id: u8,
    device_id: u8,
    now_ms: u64,
    sysfs: Sysfs,
    ids: Option<UsbIds>,
    snapshot: Option<Snapshot>,
    after: UsbDevice,
) -> bool {
    exists|a: UsbDevice, b: UsbDevice| #[trigger]
        is_unknown(a, bus_id, device_id, now_ms) && #[trigger] sysfs_read(a, sysfs, b) && dressed(
            b,
            ids,
            snapshot,
            after,
        )
}

/// A row made for a device that a scan found in the directory `entry`.
pub open spec fn discovered(
    bus_id: u8,
    device_id: u8,
    now_ms: u64,
    sysfs: Sysfs,
    entry: Node,
    ids: Option<UsbIds>,
    snapshot: Option<Snapshot>,
    after: UsbDevice,
) -> bool {
    exists|a: UsbDevice, b: UsbDevice| #[trigger]
        is_unknown(a, bus_id, device_id, now_ms) && #[trigger] directory_read(a, sysfs, entry, b) && dressed(
            b,
            ids,
            snapshot,
            after,
        )
}

/// A row after its device was seen: the row there was, or a new one.
pub open spec fn touched(
    before: Option<UsbDevice>,
    bus_id: u8,
    device_id: u8,
    now_ms: u64,
    sysfs: Sysfs,
    ids: Option<UsbIds>,
    snapshot: Option<Snapshot>,
    after: UsbDevice,
) -> bool {
    match before {
        Some(d) => after == d.seen(now_ms),
        None => exists|made: UsbDevice| #[trigger]
            introduced(bus_id, device_id, now_ms, sysfs, ids, snapshot, made) && after == made.seen(now_ms),
    }
}

/// A row after traffic that the filter lets through.
pub open spec fn credited(before: UsbDevice, delta: TrafficDelta, now_ms: u64, after: UsbDevice) -> bool {
    let s = before.bandwidth_stats;
    let t = after.bandwidth_stats;
    &&& t.total_rx_bytes == (if delta.dir_in {
        capped(s.total_rx_bytes + delta.bytes)
    } else {
        s.total_rx_bytes
    })
    &&& t.total_tx_bytes == (if delta.dir_in {
        s.total_tx_bytes
    } else {
        capped(s.total_tx_bytes + delta.bytes)
    })
    &&& t.current_bps == s.current_bps
    &&& t.window.window_ms == s.window.window_ms
    &&& t.window.samples@ == s.window.samples@.push(Sample { at_ms: now_ms, bytes: delta.bytes })
    &&& match delta.transfer_type {
        Some(transfer_type) => endpoint_facts(after.endpoints@) == endpoints_after(
            endpoint_facts(before.endpoints@),
            delta.endpoint,
            delta.dir_in,
            transfer_type,
            Sample { at_ms: now_ms, bytes: delta.bytes },
        ),
        None => after.endpoints == before.endpoints,
    }
    &&& after == (UsbDevice { bandwidth_stats: after.bandwidth_stats, endpoints: after.endpoints, ..before })
}

/// A row after traffic: credited when the filter lets it through and there
/// are bytes, else left as it was.
pub open spec fn accounted(
    before: UsbDevice,
    filter: FilterSet,
    delta: TrafficDelta,
    now_ms: u64,
    after: UsbDevice,
) -> bool {
    if delta.bytes > 0 && set_wants_traffic(
        filter@,
        before,
        delta.endpoint,
        delta.dir_in,
        delta.transfer_type,
    ) {
        credited(before, delta, now_ms, after)
    } else {
        after == before
    }
}

/// Whether a bus that was there is `after` but for its devices, and nothing
/// but devices is known of a new one.
pub open spec fn bus_kept(before: Seq<UsbBus>, after: Option<UsbBus>, id: u8) -> bool {
    match (bus_in(before, id), after) {
        (Some(x), Some(y)) => y == (UsbBus { devices: y.devices, ..x }),
        (Some(_), None) => false,
        (None, Some(y)) => y.bus_id == id && y.speed.bps == 0 && y.controller is None,
        (None, None) => true,
    }
}

/// The traffic that a usbmon event reports. Only callbacks carry the length
/// that was transferred; a submission would count every transfer twice.
pub open spec fn packet_delta(p: UsbPacket) -> Option<TrafficDelta> {
    if p.urb_type == UrbType::Callback && p.data_length > 0 {
        Some(
            TrafficDelta {
                bus_id: p.bus_id,
                device_id: p.device_id,
                endpoint: p.endpoint,
                dir_in: p.direction,
                transfer_type: p.transfer_type,
                bytes: p.data_length as u64,
            },
        )
    } else {
        None
    }
}

impl DeviceManager {
    /// The row of a device.
    pub open spec fn row(self, bus_id: u8, device_id: u8) -> Option<UsbDevice> {
        row_in(self.buses@, bus_id, device_id)
    }

    /// No bus id stands twice, and no device id twice on one bus.
    pub open spec fn rows_distinct(self) -> bool {
        all_distinct(self.buses@)
    }

    /// Everything but the rows is the same.
    pub open spec fn same_settings(self, other: DeviceManager) -> bool {
        &&& self.sysfs_base == other.sysfs_base
        &&& self.filter == other.filter
        &&& self.usbids == other.usbids
        &&& self.internal_snapshot == other.internal_snapshot
    }

    /// A manager with no rows, reading the live sysfs.
    pub fn new() -> (m: DeviceManager)
        ensures
            m.buses@ == Seq::<UsbBus>::empty(),
            m.sysfs_base is None,
            m.filter@ == Seq::<crate::filter::Wanted>::empty(),
            m.usbids is None,
            m.internal_snapshot is None,
    {
        DeviceManager {
            buses: Vec::new(),
            sysfs_base: None,
            filter: FilterSet::default(),
            usbids: None,
            internal_snapshot: None,
        }
    }

    /// A manager whose sysfs lookups go to another directory.
    pub fn with_sysfs_base(base: String) -> (m: DeviceManager)
        ensures
            m.buses@ == Seq::<UsbBus>::empty(),
            m.sysfs_base == Some(base),
            m.filter@ == Seq::<crate::filter::Wanted>::empty(),
            m.usbids is None,
            m.internal_snapshot is None,
    {
        DeviceManager {
            buses: Vec::new(),
            sysfs_base: Some(base),
            filter: FilterSet::default(),
            usbids: None,
            internal_snapshot: None,
        }
    }

    /// The directory that device lookups read.
    pub fn sysfs_dir(&self) -> (r: String)
        ensures
            r@ == (match self.sysfs_base {
                Some(b) => b@,
                None => "/sys/bus/usb/devices"@,
            }),
    {
        match &self.sysfs_base {
            Some(b) => b.clone(),
            None => "/sys/bus/usb/devices".to_owned(),
        }
    }

    /// Replace the active filter set. Packets that match no expression stop
    /// counting toward bandwidth, though their device row still appears.
    pub fn set_filter(&mut self, filter: FilterSet)
        ensures
            *final(self) == (DeviceManager { filter, ..*old(self) }),
    {
        self.filter = filter;
    }

    /// Install (or clear) the names every newly populated device gets.
    pub fn set_usbids(&mut self, db: Option<UsbIds>)
        ensures
            *final(self) == (DeviceManager { usbids: db, ..*old(self) }),
    {
        self.usbids = db;
    }

    /// Whether an internal-device snapshot is installed: tells "no snapshot,
    /// so origin is unknown" apart from "a snapshot says external".
    pub fn has_internal_snapshot(&self) -> (r: bool)
        ensures
            r == self.internal_snapshot is Some,
    {
        self.internal_snapshot.is_some()
    }

    /// Where the first bus with an id stands.
    pub fn bus_position(&self, bus_id: u8) -> (r: Option<usize>)
        ensures
            match r {
                Some(k) => {
                    &&& k < self.buses@.len()
                    &&& self.buses@[k as int].bus_id == bus_id
                    &&& forall|j: int| 0 <= j < k ==> (#[trigger] self.buses@[j]).bus_id != bus_id
                    &&& bus_in(self.buses@, bus_id) == Some(self.buses@[k as int])
                },
                None => {
                    &&& forall|j: int| 0 <= j < self.buses@.len() ==> (#[trigger] self.buses@[j]).bus_id != bus_id
                    &&& bus_in(self.buses@, bus_id) is None
                },
            },
    {
        let mut i: usize = 0;
        while i < self.buses.len()
            invariant
                i <= self.buses.len(),
                forall|j: int| 0 <= j < i ==> (#[trigger] self.buses@[j]).bus_id != bus_id,
            decreases self.buses.len() - i,
        {
            if self.buses[i].bus_id == bus_id {
                proof {
                    lemma_bus_in(self.buses@, bus_id, i as int);
                }
                return Some(i);
            }
            i = i + 1;
        }
        proof {
            lemma_bus_in(self.buses@, bus_id, i as int);
        }
        None
    }

    /// The bus with an id.
    pub fn bus(&self, bus_id: u8) -> (r: Option<&UsbBus>)
        ensures
            match r {
                Some(b) => bus_in(self.buses@, bus_id) == Some(*b),
                None => bus_in(self.buses@, bus_id) is None,
            },
    {
        match self.bus_position(bus_id) {
            Some(k) => Some(&self.buses[k]),
            None => None,
        }
    }

    /// The row of a device.
    pub fn device(&self, bus_id: u8, device_id: u8) -> (r: Option<&UsbDevice>)
        ensures
            match r {
                Some(d) => self.row(bus_id, device_id) == Some(*d),
                None => self.row(bus_id, device_id) is None,
            },
    {
        match self.bus(bus_id) {
            Some(b) => b.device(device_id),
            None => None,
        }
    }

    /// Where the bus with an id stands, made if there is none.
    pub fn get_or_create_bus(&mut self, bus_id: u8) -> (k: usize)
        ensures
            final(self).same_settings(*old(self)),
            k < final(self).buses@.len(),
            final(self).buses@[k as int].bus_id == bus_id,
            forall|j: int| 0 <= j < k ==> (#[trigger] final(self).buses@[j]).bus_id != bus_id,
            match bus_in(old(self).buses@, bus_id) {
                Some(b) => final(self).buses@ == old(self).buses@ && final(self).buses@[k as int] == b,
                None => {
                    &&& final(self).buses@ == old(self).buses@.push(final(self).buses@[k as int])
                    &&& final(self).buses@[k as int].speed.bps == 0
                    &&& final(self).buses@[k as int].devices@ == Seq::<UsbDevice>::empty()
                    &&& final(self).buses@[k as int].controller is None
                },
            },
            forall|b: u8, d: u8| #[trigger] final(self).row(b, d) == old(self).row(b, d),
            stays_valid(old(self).buses@, final(self).buses@),
            forall|rule: spec_fn(UsbDevice) -> bool|
                every_row(old(self).buses@, rule) ==> #[trigger] every_row(final(self).buses@, rule),
    {
        match self.bus_position(bus_id) {
            Some(k) => k,
            None => {
                let k = self.buses.len();
                let bus = UsbBus::new(bus_id);
                let ghost before = self.buses@;
                self.buses.push(bus);
                proof {
                    assert forall|b: u8, d: u8| #[trigger] self.row(b, d) == old(self).row(b, d) by {
                        lemma_bus_push(before, bus, b);
                        assert(device_in(bus.devices@, d) is None);
                    }
                    if old(self).rows_distinct() {
                        assert forall|i: int| 0 <= i < self.buses@.len() implies devices_distinct(
                            (#[trigger] self.buses@[i]).devices@,
                        ) by {
                            if i < before.len() {
                                assert(self.buses@[i] == before[i]);
                            }
                        }
                    }
                    assert forall|rule: spec_fn(UsbDevice) -> bool| every_row(before, rule) implies #[trigger] every_row(
                        self.buses@,
                        rule,
                    ) by {
                        assert forall|i: int, j: int|
                            0 <= i < self.buses@.len() && 0 <= j < self.buses@[i].devices@.len() implies rule(
                            #[trigger] self.buses@[i].devices@[j],
                        ) by {
                            assert(i < before.len());
                            assert(self.buses@[i] == before[i]);
                            assert(rule(before[i].devices@[j]));
                        }
                    }
                }
                k
            },
        }
    }

    /// Put `device` in place of the row with its address, or add it.
    fn store(&mut self, device: UsbDevice)
        ensures
            final(self).same_settings(*old(self)),
            forall|b: u8, d: u8| #[trigger]
                final(self).row(b, d) == (if b == device.bus_id && d == device.device_id {
                    Some(device)
                } else {
                    old(self).row(b, d)
                }),
            old(self).rows_distinct() ==> final(self).rows_distinct(),
            forall|rule: spec_fn(UsbDevice) -> bool|
                every_row(old(self).buses@, rule) && rule(device) ==> #[trigger] every_row(final(self).buses@, rule),
            forall|b: u8| bus_kept(old(self).buses@, #[trigger] bus_in(final(self).buses@, b), b),
            forall|b: u8|
                b != device.bus_id ==> #[trigger] bus_in(final(self).buses@, b) == bus_in(old(self).buses@, b),
    {
        let bus_id = device.bus_id;
        let device_id = device.device_id;
        let k = self.get_or_create_bus(bus_id);
        let ghost mid = *self;
        let ghost buses = self.buses@;
        let mut bus = self.buses.remove(k);
        let ghost before = bus;
        match bus.position(device_id) {
            Some(j) => {
                let _ = bus.devices.remove(j);
                bus.devices.insert(j, device);
                proof {
                    assert(bus.devices@ =~= before.devices@.update(j as int, device));
                    assert forall|d: u8| #[trigger]
                        device_in(bus.devices@, d) == (if d == device_id {
                            Some(device)
                        } else {
                            device_in(before.devices@, d)
                        }) by {
                        lemma_device_update(before.devices@, j as int, device, d);
                    }
                    if devices_distinct(before.devices@) {
                        assert forall|x: int, y: int| 0 <= x < y < bus.devices@.len() implies (
                        #[trigger] bus.devices@[x]).device_id != (#[trigger] bus.devices@[y]).device_id by {
                            assert(before.devices@[x].device_id == bus.devices@[x].device_id);
                            assert(before.devices@[y].device_id == bus.devices@[y].device_id);
                        }
                    }
                }
            },
            None => {
                bus.devices.push(device);
                proof {
                    assert forall|d: u8| #[trigger]
                        device_in(bus.devices@, d) == (if d == device_id {
                            Some(device)
                        } else {
                            device_in(before.devices@, d)
                        }) by {
                        lemma_device_push(before.devices@, device, d);
                    }
                }
            },
        }
        let ghost after = bus;
        self.buses.insert(k, bus);
        proof {
            assert(self.buses@ =~= buses.update(k as int, after));
            assert forall|b: u8| #[trigger]
                bus_in(self.buses@, b) == (if b == bus_id {
                    Some(after)
                } else {
                    bus_in(buses, b)
                }) by {
                lemma_bus_update(buses, k as int, after, b);
            }
            lemma_bus_in(buses, bus_id, k as int);
            if bus_in(old(self).buses@, bus_id) is None {
                assert forall|b: u8| b != bus_id implies #[trigger] bus_in(buses, b) == bus_in(old(self).buses@, b) by {
                    lemma_bus_push(old(self).buses@, before, b);
                }
            }
            assert forall|b: u8| bus_kept(old(self).buses@, #[trigger] bus_in(self.buses@, b), b) by {
                if b == bus_id {
                    assert(after == (UsbBus { devices: after.devices, ..before }));
                }
            }
            assert forall|b: u8, d: u8| #[trigger]
                self.row(b, d) == (if b == device.bus_id && d == device.device_id {
                    Some(device)
                } else {
                    old(self).row(b, d)
                }) by {
                assert(mid.row(b, d) == old(self).row(b, d));
            }
            if old(self).rows_distinct() {
                assert(mid.rows_distinct());
                assert(devices_distinct(before.devices@)) by {
                    assert(before == mid.buses@[k as int]);
                }
                assert forall|i: int| 0 <= i < self.buses@.len() implies devices_distinct(
                    (#[trigger] self.buses@[i]).devices@,
                ) by {
                    if i != k {
                        assert(self.buses@[i] == mid.buses@[i]);
                    }
                }
                assert forall|x: int, y: int| 0 <= x < y < self.buses@.len() implies (#[trigger] self.buses@[x]).bus_id
                    != (#[trigger] self.buses@[y]).bus_id by {
                    assert(mid.buses@[x].bus_id == self.buses@[x].bus_id);
                    assert(mid.buses@[y].bus_id == self.buses@[y].bus_id);
                }
            }
            assert forall|rule: spec_fn(UsbDevice) -> bool|
                every_row(old(self).buses@, rule) && rule(device) implies #[trigger] every_row(self.buses@, rule) by {
                assert(every_row(buses, rule));
                assert forall|i: int, j: int|
                    0 <= i < self.buses@.len() && 0 <= j < self.buses@[i].devices@.len() implies rule(
                    #[trigger] self.buses@[i].devices@[j],
                ) by {
                    if i != k {
                        assert(self.buses@[i] == buses[i]);
                        assert(rule(buses[i].devices@[j]));
                    } else if after.devices@[j] != device {
                        assert(after.devices@[j] == before.devices@[j]);
                        assert(before == buses[k as int]);
                        assert(rule(buses[k as int].devices@[j]));
                    }
                }
            }
        }
    }
}

/// Replacing one device of one bus, at the first place of its address,
/// changes that row alone.
proof fn lemma_row_replaced(before: Seq<UsbBus>, after: Seq<UsbBus>, k: int, j: int, d: UsbDevice)
    requires
        0 <= k < before.len(),
        after.len() == before.len(),
        forall|i: int| 0 <= i < before.len() && i != k ==> #[trigger] after[i] == before[i],
        0 <= j < before[k].devices@.len(),
        after[k] == (UsbBus { devices: after[k].devices, ..before[k] }),
        after[k].devices@ == before[k].devices@.update(j, d),
        d.device_id == before[k].devices@[j].device_id,
        forall|i: int| 0 <= i < k ==> (#[trigger] before[i]).bus_id != before[k].bus_id,
        forall|i: int| 0 <= i < j ==> (#[trigger] before[k].devices@[i]).device_id != d.device_id,
    ensures
        forall|b: u8, id: u8| #[trigger]
            row_in(after, b, id) == (if b == before[k].bus_id && id == d.device_id {
                Some(d)
            } else {
                row_in(before, b, id)
            }),
        forall|b: u8| bus_kept(before, #[trigger] bus_in(after, b), b),
        forall|b: u8| b != before[k].bus_id ==> #[trigger] bus_in(after, b) == bus_in(before, b),
        all_distinct(before) ==> all_distinct(after),
        forall|rule: spec_fn(UsbDevice) -> bool|
            every_row(before, rule) && rule(d) ==> #[trigger] every_row(after, rule),
{
    assert(after =~= before.update(k, after[k]));
    assert forall|b: u8| #[trigger]
        bus_in(after, b) == (if b == before[k].bus_id {
            Some(after[k])
        } else {
            bus_in(before, b)
        }) by {
        lemma_bus_update(before, k, after[k], b);
    }
    lemma_bus_in(before, before[k].bus_id, k);
    assert forall|b: u8, id: u8| #[trigger]
        row_in(after, b, id) == (if b == before[k].bus_id && id == d.device_id {
            Some(d)
        } else {
            row_in(before, b, id)
        }) by {
        lemma_device_update(before[k].devices@, j, d, id);
    }
    assert forall|rule: spec_fn(UsbDevice) -> bool| every_row(before, rule) && rule(d) implies #[trigger] every_row(
        after,
        rule,
    ) by {
        assert forall|x: int, y: int| 0 <= x < after.len() && 0 <= y < after[x].devices@.len() implies rule(
            #[trigger] after[x].devices@[y],
        ) by {
            if x != k {
                assert(after[x] == before[x]);
            }
            if x != k || y != j {
                assert(rule(before[x].devices@[y]));
            }
        }
    }
    if all_distinct(before) {
        assert forall|i: int| 0 <= i < after.len() implies devices_distinct((#[trigger] after[i]).devices@) by {
            assert(devices_distinct(before[i].devices@));
            if i == k {
                let old_devices = before[k].devices@;
                let new_devices = after[k].devices@;
                assert forall|x: int, y: int| 0 <= x < y < new_devices.len() implies (#[trigger] new_devices[x]).device_id
                    != (#[trigger] new_devices[y]).device_id by {
                    assert(old_devices[x].device_id == new_devices[x].device_id);
                    assert(old_devices[y].device_id == new_devices[y].device_id);
                }
            } else {
                assert(after[i] == before[i]);
            }
        }
        assert forall|x: int, y: int| 0 <= x < y < after.len() implies (#[trigger] after[x]).bus_id != (
        #[trigger] after[y]).bus_id by {
            assert(before[x].bus_id == after[x].bus_id);
            assert(before[y].bus_id == after[y].bus_id);
        }
    }
}

proof fn lemma_dressed(before: UsbDevice, ids: Option<UsbIds>, snapshot: Option<Snapshot>, after: UsbDevice)
    requires
        dressed(before, ids, snapshot, after),
    ensures
        after.bus_id == before.bus_id,
        after.device_id == before.device_id,
        after.disconnect_time == before.disconnect_time,
        after.bandwidth_stats == before.bandwidth_stats,
        after.endpoints == before.endpoints,
{
    let named = choose|named: UsbDevice| #[trigger]
        names_applied(before, ids, named) && after == stamped(named, snapshot);
    assert(named.bandwidth_stats == before.bandwidth_stats);
}

proof fn lemma_introduced(
    bus_id: u8,
    device_id: u8,
    now_ms: u64,
    sysfs: Sysfs,
    ids: Option<UsbIds>,
    snapshot: Option<Snapshot>,
    after: UsbDevice,
)
    requires
        introduced(bus_id, device_id, now_ms, sysfs, ids, snapshot, after),
    ensures
        after.bus_id == bus_id,
        after.device_id == device_id,
        one_window(after),
        endpoints_ascend(endpoint_facts(after.endpoints@)),
{
    let (a, b) = choose|a: UsbDevice, b: UsbDevice| #[trigger]
        is_unknown(a, bus_id, device_id, now_ms) && #[trigger] sysfs_read(a, sysfs, b) && dressed(
            b,
            ids,
            snapshot,
            after,
        );
    lemma_sysfs_read_frame(a, sysfs, b);
    lemma_dressed(b, ids, snapshot, after);
}

proof fn lemma_discovered(
    bus_id: u8,
    device_id: u8,
    now_ms: u64,
    sysfs: Sysfs,
    entry: Node,
    ids: Option<UsbIds>,
    snapshot: Option<Snapshot>,
    after: UsbDevice,
)
    requires
        discovered(bus_id, device_id, now_ms, sysfs, entry, ids, snapshot, after),
    ensures
        after.bus_id == bus_id,
        after.device_id == device_id,
        one_window(after),
        endpoints_ascend(endpoint_facts(after.endpoints@)),
{
    let (a, b) = choose|a: UsbDevice, b: UsbDevice| #[trigger]
        is_unknown(a, bus_id, device_id, now_ms) && #[trigger] directory_read(a, sysfs, entry, b) && dressed(
            b,
            ids,
            snapshot,
            after,
        );
    lemma_directory_read_frame(a, sysfs, entry, b);
    lemma_dressed(b, ids, snapshot, after);
}

proof fn lemma_credited(before: UsbDevice, delta: TrafficDelta, now_ms: u64, after: UsbDevice)
    requires
        credited(before, delta, now_ms, after),
    ensures
        one_window(before) ==> one_window(after),
        endpoints_ascend(endpoint_facts(before.endpoints@)) ==> endpoints_ascend(endpoint_facts(after.endpoints@)),
{
    if let Some(transfer_type) = delta.transfer_type {
        let v = endpoint_facts(before.endpoints@);
        let sample = Sample { at_ms: now_ms, bytes: delta.bytes };
        if endpoints_share_window(v) {
            law_endpoints_keep_the_window(v, delta.endpoint, delta.dir_in, transfer_type, sample);
        }
        if endpoints_ascend(v) {
            law_endpoints_stay_in_order(v, delta.endpoint, delta.dir_in, transfer_type, sample);
        }
    }
}

/// Mark a device by the snapshot.
fn stamp_internal(device: &mut UsbDevice, snapshot: &Option<Snapshot>)
    ensures
        *final(device) == stamped(*old(device), *snapshot),
{
    device.is_internal = match snapshot {
        None => false,
        Some(s) => match device.sysfs_name() {
            None => false,
            Some(n) => s.is_internal(n.as_str(), device.vendor_id, device.product_id),
        },
    };
}

/// Give a device its database names and its mark.
fn dress(device: &mut UsbDevice, ids: &Option<UsbIds>, snapshot: &Option<Snapshot>)
    ensures
        dressed(*old(device), *ids, *snapshot, *final(device)),
{
    if let Some(db) = ids {
        device.apply_usbids(db);
    }
    assert(names_applied(*old(device), *ids, *device));
    stamp_internal(device, snapshot);
}

impl DeviceManager {
    /// Where a row stands.
    fn locate(&self, bus_id: u8, device_id: u8) -> (r: Option<(usize, usize)>)
        ensures
            match r {
                Some((k, j)) => {
                    &&& k < self.buses@.len()
                    &&& self.buses@[k as int].bus_id == bus_id
                    &&& forall|i: int| 0 <= i < k ==> (#[trigger] self.buses@[i]).bus_id != bus_id
                    &&& j < self.buses@[k as int].devices@.len()
                    &&& self.buses@[k as int].devices@[j as int].device_id == device_id
                    &&& forall|i: int|
                        0 <= i < j ==> (#[trigger] self.buses@[k as int].devices@[i]).device_id != device_id
                    &&& self.row(bus_id, device_id) == Some(self.buses@[k as int].devices@[j as int])
                },
                None => self.row(bus_id, device_id) is None,
            },
    {
        match self.bus_position(bus_id) {
            None => None,
            Some(k) => match self.buses[k].position(device_id) {
                None => None,
                Some(j) => Some((k, j)),
            },
        }
    }

    /// Make sure a device has a row, made from sysfs, the database and the
    /// snapshot on first sight, and mark it seen. Every path that observes a
    /// device comes through here, whether or not it goes on to account bytes.
    pub fn touch_device(&mut self, bus_id: u8, device_id: u8, sysfs: &Sysfs, now_ms: u64)
        ensures
            final(self).same_settings(*old(self)),
            final(self).row(bus_id, device_id) matches Some(after) && touched(
                old(self).row(bus_id, device_id),
                bus_id,
                device_id,
                now_ms,
                *sysfs,
                old(self).usbids,
                old(self).internal_snapshot,
                after,
            ),
            forall|b: u8, d: u8|
                b != bus_id || d != device_id ==> #[trigger] final(self).row(b, d) == old(self).row(b, d),
            forall|b: u8| bus_kept(old(self).buses@, #[trigger] bus_in(final(self).buses@, b), b),
            forall|b: u8| b != bus_id ==> #[trigger] bus_in(final(self).buses@, b) == bus_in(old(self).buses@, b),
            stays_valid(old(self).buses@, final(self).buses@),
    {
        match self.locate(bus_id, device_id) {
            Some((k, j)) => {
                let ghost before = self.buses@;
                self.buses[k].devices[j].update_activity(now_ms);
                proof {
                    lemma_row_replaced(
                        before,
                        self.buses@,
                        k as int,
                        j as int,
                        before[k as int].devices@[j as int].seen(now_ms),
                    );
                }
            },
            None => {
                let mut device = UsbDevice::new(bus_id, device_id, now_ms);
                let ghost a = device;
                assert(is_unknown(a, bus_id, device_id, now_ms));
                device.populate_from_sysfs(sysfs);
                let ghost b = device;
                dress(&mut device, &self.usbids, &self.internal_snapshot);
                let ghost made = device;
                assert(sysfs_read(a, *sysfs, b));
                assert(introduced(
                    bus_id,
                    device_id,
                    now_ms,
                    *sysfs,
                    self.usbids,
                    self.internal_snapshot,
                    made,
                ));
                proof {
                    lemma_introduced(bus_id, device_id, now_ms, *sysfs, self.usbids, self.internal_snapshot, made);
                }
                device.update_activity(now_ms);
                self.store(device);
            },
        }
    }
}

impl DeviceManager {
    /// Backend-neutral accounting entry point: touch the device, then, when
    /// the active filter lets this traffic through and there are bytes, add
    /// them to its totals and, when the transfer type is known, to the
    /// endpoint.
    pub fn apply_delta(&mut self, delta: &TrafficDelta, sysfs: &Sysfs, now_ms: u64)
        ensures
            final(self).same_settings(*old(self)),
            final(self).row(delta.bus_id, delta.device_id) matches Some(after) && delta_applied(
                *old(self),
                *delta,
                *sysfs,
                now_ms,
                after,
            ),
            forall|b: u8, d: u8|
                b != delta.bus_id || d != delta.device_id ==> #[trigger] final(self).row(b, d) == old(self).row(b, d),
            forall|b: u8| bus_kept(old(self).buses@, #[trigger] bus_in(final(self).buses@, b), b),
            forall|b: u8|
                b != delta.bus_id ==> #[trigger] bus_in(final(self).buses@, b) == bus_in(old(self).buses@, b),
            stays_valid(old(self).buses@, final(self).buses@),
    {
        self.touch_device(delta.bus_id, delta.device_id, sysfs, now_ms);
        let ghost mid = *self;
        let ghost seen = mid.row(delta.bus_id, delta.device_id)->0;
        match self.locate(delta.bus_id, delta.device_id) {
            None => {},
            Some((k, j)) => {
                let counts = self.filter.matches_traffic(
                    &self.buses[k].devices[j],
                    delta.endpoint,
                    delta.dir_in,
                    delta.transfer_type,
                );
                if counts && delta.bytes > 0 {
                    let ghost before = self.buses@;
                    if delta.dir_in {
                        self.buses[k].devices[j].bandwidth_stats.update_rx(delta.bytes, now_ms);
                    } else {
                        self.buses[k].devices[j].bandwidth_stats.update_tx(delta.bytes, now_ms);
                    }
                    if let Some(transfer_type) = delta.transfer_type {
                        self.buses[k].devices[j].record_endpoint(
                            delta.endpoint,
                            delta.dir_in,
                            transfer_type,
                            delta.bytes,
                            now_ms,
                        );
                    }
                    proof {
                        let after = self.buses@[k as int].devices@[j as int];
                        assert(credited(seen, *delta, now_ms, after));
                        assert(self.buses@[k as int].devices@ =~= before[k as int].devices@.update(j as int, after));
                        lemma_row_replaced(before, self.buses@, k as int, j as int, after);
                        lemma_credited(seen, *delta, now_ms, after);
                        assert(before[k as int].devices@[j as int] == seen);
                        assert forall|b: u8| bus_kept(old(self).buses@, #[trigger] bus_in(self.buses@, b), b) by {
                            assert(bus_kept(old(self).buses@, bus_in(mid.buses@, b), b));
                            assert(bus_kept(mid.buses@, bus_in(self.buses@, b), b));
                        }
                        assert forall|b: u8, d: u8|
                            b != delta.bus_id || d != delta.device_id implies #[trigger] self.row(b, d) == old(
                            self,
                        ).row(b, d) by {
                            assert(row_in(self.buses@, b, d) == row_in(mid.buses@, b, d));
                            assert(mid.row(b, d) == old(self).row(b, d));
                        }
                    }
                }
            },
        }
    }

    /// Route one usbmon event into per-device stats. Only callbacks carry the
    /// transferred length; anything else just marks the device seen.
    pub fn apply_packet(&mut self, packet: &UsbPacket, sysfs: &Sysfs, now_ms: u64)
        ensures
            final(self).same_settings(*old(self)),
            final(self).row(packet.bus_id, packet.device_id) matches Some(after) && packet_applied(
                *old(self),
                *packet,
                *sysfs,
                now_ms,
                after,
            ),
            forall|b: u8, d: u8|
                b != packet.bus_id || d != packet.device_id ==> #[trigger] final(self).row(b, d) == old(self).row(
                    b,
                    d,
                ),
            forall|b: u8| bus_kept(old(self).buses@, #[trigger] bus_in(final(self).buses@, b), b),
            forall|b: u8|
                b != packet.bus_id ==> #[trigger] bus_in(final(self).buses@, b) == bus_in(old(self).buses@, b),
            stays_valid(old(self).buses@, final(self).buses@),
    {
        if packet.urb_type == UrbType::Callback && packet.data_length > 0 {
            let delta = TrafficDelta {
                bus_id: packet.bus_id,
                device_id: packet.device_id,
                endpoint: packet.endpoint,
                dir_in: packet.direction,
                transfer_type: packet.transfer_type,
                bytes: packet.data_length as u64,
            };
            self.apply_delta(&delta, sysfs, now_ms);
        } else {
            self.touch_device(packet.bus_id, packet.device_id, sysfs, now_ms);
        }
    }

    /// Add a row for every device directory that has none yet, so idle
    /// devices show before they transfer. A row already there stays as it is.
    pub fn enumerate_present_devices(&mut self, sysfs: &Sysfs, now_ms: u64)
        ensures
            scanned(*old(self), *sysfs, now_ms, *final(self)),
    {
        let entries = &sysfs.entries;
        let mut i: usize = 0;
        assert(entries@.take(0) == Seq::<Node>::empty());
        while i < entries.len()
            invariant
                i <= entries.len(),
                entries@ == sysfs.entries@,
                self.same_settings(*old(self)),
                forall|b: u8, d: u8|
                    enumerated(
                        *old(self),
                        *sysfs,
                        entries@.take(i as int),
                        now_ms,
                        b,
                        d,
                        #[trigger] self.row(b, d),
                    ),
                forall|b: u8| bus_kept(old(self).buses@, #[trigger] bus_in(self.buses@, b), b),
                forall|b: u8|
                    (#[trigger] bus_in(self.buses@, b)) is Some ==> bus_in(old(self).buses@, b) is Some || has_entry_on(
                        entries@.take(i as int),
                        b,
                    ),
                stays_valid(old(self).buses@, self.buses@),
            decreases entries.len() - i,
        {
            let entry = &entries[i];
            let ghost done = entries@.take(i as int);
            assert(entries@.take(i + 1) == done.push(*entry));
            let ghost before = *self;
            proof {
                assert forall|b: u8, d: u8| first_entry_of(done.push(*entry), b, d) == (match #[trigger] first_entry_of(
                    done,
                    b,
                    d,
                ) {
                    Some(e) => Some(e),
                    None => if is_entry_of(*entry, b, d) {
                        Some(*entry)
                    } else {
                        None
                    },
                }) by {
                    lemma_first_entry_push(done, *entry, b, d);
                }
            }
            let name = to_chars(entry.name.as_str());
            if !has_char(&name, ':') {
                if let Some(bus_id) = read_sysfs_u8(entry, "busnum") {
                    if let Some(device_id) = read_sysfs_u8(entry, "devnum") {
                        if self.device(bus_id, device_id).is_none() {
                            let mut device = UsbDevice::new(bus_id, device_id, now_ms);
                            let ghost a = device;
                            assert(is_unknown(a, bus_id, device_id, now_ms));
                            device.populate_from_dir(sysfs, entry);
                            let ghost b = device;
                            dress(&mut device, &self.usbids, &self.internal_snapshot);
                            assert(directory_read(a, *sysfs, *entry, b));
                            assert(discovered(
                                bus_id,
                                device_id,
                                now_ms,
                                *sysfs,
                                *entry,
                                self.usbids,
                                self.internal_snapshot,
                                device,
                            ));
                            let ghost made = device;
                            self.store(device);
                            proof {
                                lemma_discovered(
                                    bus_id,
                                    device_id,
                                    now_ms,
                                    *sysfs,
                                    *entry,
                                    self.usbids,
                                    self.internal_snapshot,
                                    made,
                                );
                                assert forall|b: u8| bus_kept(
                                    old(self).buses@,
                                    #[trigger] bus_in(self.buses@, b),
                                    b,
                                ) by {
                                    assert(bus_kept(old(self).buses@, bus_in(before.buses@, b), b));
                                    assert(bus_kept(before.buses@, bus_in(self.buses@, b), b));
                                }
                            }
                        }
                    }
                }
            }
            assert forall|b: u8, d: u8|
                enumerated(
                    *old(self),
                    *sysfs,
                    entries@.take(i + 1),
                    now_ms,
                    b,
                    d,
                    #[trigger] self.row(b, d),
                ) by {
                assert(enumerated(*old(self), *sysfs, done, now_ms, b, d, before.row(b, d)));
                assert(first_entry_of(done, b, d) == first_entry_of(done, b, d));
            }
            assert forall|b: u8| (#[trigger] bus_in(self.buses@, b)) is Some implies bus_in(old(self).buses@, b) is Some
                || has_entry_on(entries@.take(i + 1), b) by {
                if bus_in(before.buses@, b) is Some {
                    if bus_in(old(self).buses@, b) is None {
                        let d = choose|d: u8| (#[trigger] first_entry_of(done, b, d)) is Some;
                        assert(first_entry_of(entries@.take(i + 1), b, d) is Some);
                    }
                } else {
                    let d = choose|d: u8| is_entry_of(*entry, b, d);
                    lemma_first_entry_push(done, *entry, b, d);
                    assert(first_entry_of(entries@.take(i + 1), b, d) is Some);
                }
            }
            i = i + 1;
        }
        assert(entries@.take(entries@.len() as int) == entries@);
        assert forall|b: u8| has_entry_on(entries@, b) implies (#[trigger] bus_in(self.buses@, b)) is Some by {
            let d = choose|d: u8| (#[trigger] first_entry_of(entries@, b, d)) is Some;
            assert(enumerated(*old(self), *sysfs, entries@, now_ms, b, d, self.row(b, d)));
        }
    }
}

/// What a row is after traffic on its device.
pub open spec fn delta_applied(
    before: DeviceManager,
    delta: TrafficDelta,
    sysfs: Sysfs,
    now_ms: u64,
    after: UsbDevice,
) -> bool {
    exists|mid: UsbDevice| #[trigger]
        touched(
            before.row(delta.bus_id, delta.device_id),
            delta.bus_id,
            delta.device_id,
            now_ms,
            sysfs,
            before.usbids,
            before.internal_snapshot,
            mid,
        ) && accounted(mid, before.filter, delta, now_ms, after)
}

/// What a row is after a usbmon event about its device.
pub open spec fn packet_applied(
    before: DeviceManager,
    packet: UsbPacket,
    sysfs: Sysfs,
    now_ms: u64,
    after: UsbDevice,
) -> bool {
    match packet_delta(packet) {
        Some(delta) => delta_applied(before, delta, sysfs, now_ms, after),
        None => touched(
            before.row(packet.bus_id, packet.device_id),
            packet.bus_id,
            packet.device_id,
            now_ms,
            sysfs,
            before.usbids,
            before.internal_snapshot,
            after,
        ),
    }
}

/// What a scan of the device directories does to a manager.
pub open spec fn scanned(before: DeviceManager, sysfs: Sysfs, now_ms: u64, after: DeviceManager) -> bool {
    &&& after.same_settings(before)
    &&& forall|b: u8, d: u8|
        enumerated(before, sysfs, sysfs.entries@, now_ms, b, d, #[trigger] after.row(b, d))
    &&& forall|b: u8| bus_kept(before.buses@, #[trigger] bus_in(after.buses@, b), b)
    &&& forall|b: u8|
        (#[trigger] bus_in(after.buses@, b)) is Some <==> bus_in(before.buses@, b) is Some || has_entry_on(
            sysfs.entries@,
            b,
        )
    &&& stays_valid(before.buses@, after.buses@)
}

/// Whether some directory is a device on the bus.
pub open spec fn has_entry_on(entries: Seq<Node>, bus_id: u8) -> bool {
    exists|device_id: u8| (#[trigger] first_entry_of(entries, bus_id, device_id)) is Some
}

/// What a row is after a scan of `entries`: the row there was, or one made
/// from the first directory that is the device.
pub open spec fn enumerated(
    before: DeviceManager,
    sysfs: Sysfs,
    entries: Seq<Node>,
    now_ms: u64,
    bus_id: u8,
    device_id: u8,
    after: Option<UsbDevice>,
) -> bool {
    match before.row(bus_id, device_id) {
        Some(d) => after == Some(d),
        None => match first_entry_of(entries, bus_id, device_id) {
            Some(entry) => after matches Some(made) && discovered(
                bus_id,
                device_id,
                now_ms,
                sysfs,
                entry,
                before.usbids,
                before.internal_snapshot,
                made,
            ),
            None => after is None,
        },
    }
}

proof fn lemma_first_entry_push(entries: Seq<Node>, e: Node, bus_id: u8, device_id: u8)
    ensures
        first_entry_of(entries.push(e), bus_id, device_id) == (match first_entry_of(entries, bus_id, device_id) {
            Some(x) => Some(x),
            None => if is_entry_of(e, bus_id, device_id) {
                Some(e)
            } else {
                None
            },
        }),
    decreases entries.len(),
{
    let p = entries.push(e);
    if entries.len() == 0 {
        assert(p.skip(1) == Seq::<Node>::empty());
        assert(first_entry_of(p.skip(1), bus_id, device_id) is None);
    } else {
        assert(p.skip(1) == entries.skip(1).push(e));
        lemma_first_entry_push(entries.skip(1), e, bus_id, device_id);
    }
}

/// The traffic window after `now_ms`: what left it no longer counts.
pub open spec fn stats_decayed(before: BandwidthStats, now_ms: u64, after: BandwidthStats) -> bool {
    &&& after.total_rx_bytes == before.total_rx_bytes
    &&& after.total_tx_bytes == before.total_tx_bytes
    &&& after.window.window_ms == before.window.window_ms
    &&& after.window.samples@ == live_samples(before.window.samples@, before.window.window_ms, now_ms)
    &&& after.current_bps == rate_per_second(sample_bytes(after.window.samples@), before.window.window_ms)
}

/// A row whose rates have decayed.
pub open spec fn decayed(before: UsbDevice, now_ms: u64, after: UsbDevice) -> bool {
    &&& stats_decayed(before.bandwidth_stats, now_ms, after.bandwidth_stats)
    &&& endpoint_facts(after.endpoints@) == endpoint_facts(before.endpoints@).map_values(
        |e: EndpointFacts| (EndpointFacts { samples: live_samples(e.samples, e.window_ms, now_ms), ..e }),
    )
    &&& after == (UsbDevice { bandwidth_stats: after.bandwidth_stats, endpoints: after.endpoints, ..before })
}

/// A row whose device is gone from now on.
pub open spec fn gone(d: UsbDevice, now_ms: u64) -> UsbDevice {
    if d.is_disconnected {
        d
    } else {
        UsbDevice { is_disconnected: true, disconnect_time: Some(now_ms), ..d }
    }
}

/// A row after one tick: rates decay; a device whose directory is no longer
/// there is gone; one without a directory is looked up again.
pub open spec fn ticked(
    before: UsbDevice,
    sysfs: Sysfs,
    ids: Option<UsbIds>,
    snapshot: Option<Snapshot>,
    now_ms: u64,
    after: UsbDevice,
) -> bool {
    exists|a: UsbDevice| #[trigger]
        decayed(before, now_ms, a) && match a.sysfs_path {
            Some(p) => after == (if sysfs.holds(p@) {
                a
            } else {
                gone(a, now_ms)
            }),
            None => if a.is_disconnected {
                after == a
            } else {
                exists|c: UsbDevice| #[trigger] sysfs_read(a, sysfs, c) && dressed(c, ids, snapshot, after)
            },
        }
}

/// Each row after one tick.
pub open spec fn rows_ticked(
    before: Seq<UsbDevice>,
    sysfs: Sysfs,
    ids: Option<UsbIds>,
    snapshot: Option<Snapshot>,
    now_ms: u64,
    after: Seq<UsbDevice>,
) -> bool {
    &&& after.len() == before.len()
    &&& forall|i: int|
        0 <= i < before.len() ==> #[trigger] ticked(before[i], sysfs, ids, snapshot, now_ms, after[i])
}

/// The rows that are kept.
pub open spec fn kept_rows(rows: Seq<UsbDevice>, now_ms: u64) -> Seq<UsbDevice>
    decreases rows.len(),
{
    if rows.len() == 0 {
        rows
    } else if rows.last().is_stale(now_ms) {
        kept_rows(rows.drop_last(), now_ms)
    } else {
        kept_rows(rows.drop_last(), now_ms).push(rows.last())
    }
}

/// The addresses of the rows that are dropped.
pub open spec fn dropped_rows(bus_id: u8, rows: Seq<UsbDevice>, now_ms: u64) -> Seq<(u8, u8)>
    decreases rows.len(),
{
    if rows.len() == 0 {
        Seq::empty()
    } else if rows.last().is_stale(now_ms) {
        dropped_rows(bus_id, rows.drop_last(), now_ms).push((bus_id, rows.last().device_id))
    } else {
        dropped_rows(bus_id, rows.drop_last(), now_ms)
    }
}

/// A bus after one tick, and the addresses dropped from it.
pub open spec fn bus_ticked(
    before: UsbBus,
    sysfs: Sysfs,
    ids: Option<UsbIds>,
    snapshot: Option<Snapshot>,
    now_ms: u64,
    after: UsbBus,
    dropped: Seq<(u8, u8)>,
) -> bool {
    &&& after == (UsbBus { devices: after.devices, ..before })
    &&& exists|rows: Seq<UsbDevice>| #[trigger]
        rows_ticked(before.devices@, sysfs, ids, snapshot, now_ms, rows) && after.devices@ == kept_rows(
            rows,
            now_ms,
        ) && dropped == dropped_rows(before.bus_id, rows, now_ms)
}

/// Every bus after one tick, and every address dropped.
pub open spec fn buses_ticked(
    before: Seq<UsbBus>,
    sysfs: Sysfs,
    ids: Option<UsbIds>,
    snapshot: Option<Snapshot>,
    now_ms: u64,
    after: Seq<UsbBus>,
    dropped: Seq<(u8, u8)>,
) -> bool
    decreases before.len(),
{
    if before.len() == 0 {
        after.len() == 0 && dropped.len() == 0
    } else {
        &&& after.len() == before.len()
        &&& exists|front: Seq<(u8, u8)>, last: Seq<(u8, u8)>|
            #![trigger front + last]
            dropped == front + last && buses_ticked(
                before.drop_last(),
                sysfs,
                ids,
                snapshot,
                now_ms,
                after.drop_last(),
                front,
            ) && bus_ticked(before.last(), sysfs, ids, snapshot, now_ms, after.last(), last)
    }
}

/// The buses that still have a device.
pub open spec fn occupied(buses: Seq<UsbBus>) -> Seq<UsbBus>
    decreases buses.len(),
{
    if buses.len() == 0 {
        buses
    } else if buses.last().devices@.len() == 0 {
        occupied(buses.drop_last())
    } else {
        occupied(buses.drop_last()).push(buses.last())
    }
}

/// Each bus after its root hub was asked.
pub open spec fn speeds_read(before: Seq<UsbBus>, sysfs: Sysfs, after: Seq<UsbBus>) -> bool {
    &&& after.len() == before.len()
    &&& forall|i: int| 0 <= i < before.len() ==> #[trigger] bus_speed_read(before[i], sysfs, after[i])
}

/// What a refresh does to the buses, and the addresses it drops.
pub open spec fn refreshed(
    before: DeviceManager,
    sysfs: Sysfs,
    now_ms: u64,
    after: Seq<UsbBus>,
    dropped: Seq<(u8, u8)>,
) -> bool {
    exists|mid: Seq<UsbBus>| #[trigger]
        buses_ticked(
            before.buses@,
            sysfs,
            before.usbids,
            before.internal_snapshot,
            now_ms,
            mid,
            dropped,
        ) && speeds_read(occupied(mid), sysfs, after)
}

/// One tick of one row.
fn tick_device(
    device: &mut UsbDevice,
    sysfs: &Sysfs,
    ids: &Option<UsbIds>,
    snapshot: &Option<Snapshot>,
    now_ms: u64,
)
    ensures
        ticked(*old(device), *sysfs, *ids, *snapshot, now_ms, *final(device)),
{
    device.bandwidth_stats.refresh(now_ms);
    device.refresh_endpoints(now_ms);
    let ghost a = *device;
    assert(decayed(*old(device), now_ms, a));
    let lost = match &device.sysfs_path {
        Some(p) => Some(!sysfs.has_path(p.as_str())),
        None => None,
    };
    match lost {
        Some(is_lost) => {
            if is_lost {
                device.mark_disconnected(now_ms);
            }
        },
        None => {
            if !device.is_disconnected {
                device.populate_from_sysfs(sysfs);
                let ghost c = *device;
                dress(device, ids, snapshot);
                assert(sysfs_read(a, *sysfs, c));
            }
        },
    }
}

/// One tick of one bus.
fn tick_bus(
    bus: &mut UsbBus,
    sysfs: &Sysfs,
    ids: &Option<UsbIds>,
    snapshot: &Option<Snapshot>,
    now_ms: u64,
) -> (dropped: Vec<(u8, u8)>)
    ensures
        bus_ticked(*old(bus), *sysfs, *ids, *snapshot, now_ms, *final(bus), dropped@),
{
    let ghost before = bus.devices@;
    let n = bus.devices.len();
    let mut i: usize = 0;
    while i < n
        invariant
            i <= n,
            n == before.len(),
            bus.devices@.len() == n,
            *bus == (UsbBus { devices: bus.devices, ..*old(bus) }),
            forall|j: int| i <= j < n ==> #[trigger] bus.devices@[j] == before[j],
            forall|j: int|
                0 <= j < i ==> #[trigger] ticked(
                    before[j],
                    *sysfs,
                    *ids,
                    *snapshot,
                    now_ms,
                    bus.devices@[j],
                ),
        decreases n - i,
    {
        let ghost prior = bus.devices@;
        tick_device(&mut bus.devices[i], sysfs, ids, snapshot, now_ms);
        assert forall|j: int| 0 <= j < i + 1 implies #[trigger] ticked(
            before[j],
            *sysfs,
            *ids,
            *snapshot,
            now_ms,
            bus.devices@[j],
        ) by {
            if j < i {
                assert(bus.devices@[j] == prior[j]);
            }
        }
        i = i + 1;
    }
    let ghost rows = bus.devices@;
    assert(rows_ticked(before, *sysfs, *ids, *snapshot, now_ms, rows));
    let mut dropped: Vec<(u8, u8)> = Vec::new();
    let mut at: usize = 0;
    let ghost mut done: int = 0;
    assert(rows.take(0) == Seq::<UsbDevice>::empty());
    assert(kept_rows(rows.take(0), now_ms) + rows.skip(0) == rows);
    while at < bus.devices.len()
        invariant
            at <= bus.devices@.len(),
            0 <= done <= rows.len(),
            *bus == (UsbBus { devices: bus.devices, ..*old(bus) }),
            at == kept_rows(rows.take(done), now_ms).len(),
            bus.devices@ == kept_rows(rows.take(done), now_ms) + rows.skip(done),
            dropped@ == dropped_rows(bus.bus_id, rows.take(done), now_ms),
        decreases bus.devices@.len() - at,
    {
        assert(rows.take(done + 1).drop_last() == rows.take(done));
        assert(bus.devices@[at as int] == rows.skip(done)[0]);
        let ghost kept = kept_rows(rows.take(done), now_ms);
        if bus.devices[at].should_remove(now_ms) {
            let d = bus.devices.remove(at);
            dropped.push((bus.bus_id, d.device_id));
            assert(bus.devices@ =~= kept + rows.skip(done + 1));
        } else {
            at = at + 1;
            assert(bus.devices@ =~= kept.push(rows[done]) + rows.skip(done + 1));
        }
        proof {
            done = done + 1;
        }
    }
    proof {
        assert(rows.skip(done).len() == 0);
        assert(rows.take(done) == rows);
        assert(bus.devices@ =~= kept_rows(rows, now_ms));
    }
    dropped
}

impl DeviceManager {
    /// Ask sysfs for the speed and controller of every bus.
    pub fn update_bus_speeds(&mut self, sysfs: &Sysfs)
        ensures
            final(self).same_settings(*old(self)),
            speeds_read(old(self).buses@, *sysfs, final(self).buses@),
            stays_valid(old(self).buses@, final(self).buses@),
    {
        let n = self.buses.len();
        let ghost before = self.buses@;
        let mut i: usize = 0;
        while i < n
            invariant
                i <= n,
                n == before.len(),
                self.buses@.len() == n,
                self.same_settings(*old(self)),
                forall|j: int| i <= j < n ==> #[trigger] self.buses@[j] == before[j],
                forall|j: int| 0 <= j < i ==> #[trigger] bus_speed_read(before[j], *sysfs, self.buses@[j]),
            decreases n - i,
        {
            let ghost prior = self.buses@;
            self.buses[i].update_bus_speed(sysfs);
            assert forall|j: int| 0 <= j < i + 1 implies #[trigger] bus_speed_read(
                before[j],
                *sysfs,
                self.buses@[j],
            ) by {
                if j < i {
                    assert(self.buses@[j] == prior[j]);
                }
            }
            i = i + 1;
        }
        proof {
            lemma_speeds_read(before, *sysfs, self.buses@);
        }
    }

    /// Once-per-tick maintenance: let rates decay, drop devices disconnected
    /// long enough and buses left empty, and ask for bus speeds. Returns the
    /// addresses dropped.
    pub fn refresh(&mut self, sysfs: &Sysfs, now_ms: u64) -> (dropped: Vec<(u8, u8)>)
        ensures
            final(self).same_settings(*old(self)),
            refreshed(*old(self), *sysfs, now_ms, final(self).buses@, dropped@),
            stays_valid(old(self).buses@, final(self).buses@),
    {
        let n = self.buses.len();
        let ghost before = self.buses@;
        let mut dropped: Vec<(u8, u8)> = Vec::new();
        let mut i: usize = 0;
        assert(before.take(0) == Seq::<UsbBus>::empty());
        while i < n
            invariant
                i <= n,
                n == before.len(),
                before == old(self).buses@,
                self.buses@.len() == n,
                self.same_settings(*old(self)),
                forall|j: int| i <= j < n ==> #[trigger] self.buses@[j] == before[j],
                buses_ticked(
                    before.take(i as int),
                    *sysfs,
                    self.usbids,
                    self.internal_snapshot,
                    now_ms,
                    self.buses@.take(i as int),
                    dropped@,
                ),
            decreases n - i,
        {
            let ghost prior = self.buses@;
            let ghost front = dropped@;
            let mut bus = self.buses.remove(i);
            let mut more = tick_bus(&mut bus, sysfs, &self.usbids, &self.internal_snapshot, now_ms);
            let ghost last = more@;
            let ghost ticked_bus = bus;
            self.buses.insert(i, bus);
            dropped.append(&mut more);
            proof {
                assert(self.buses@ =~= prior.update(i as int, ticked_bus));
                assert(before.take(i + 1).drop_last() == before.take(i as int));
                assert(self.buses@.take(i + 1).drop_last() =~= prior.take(i as int));
                assert(before.take(i + 1).last() == before[i as int]);
                assert(dropped@ == front + last);
            }
            i = i + 1;
        }
        assert(before.take(n as int) == before);
        let ghost mid = self.buses@;
        assert(mid.take(n as int) == mid);
        let mut at: usize = 0;
        let ghost mut done: int = 0;
        assert(mid.take(0) == Seq::<UsbBus>::empty());
        assert(occupied(mid.take(0)) + mid.skip(0) == mid);
        while at < self.buses.len()
            invariant
                at <= self.buses@.len(),
                0 <= done <= mid.len(),
                self.same_settings(*old(self)),
                at == occupied(mid.take(done)).len(),
                self.buses@ == occupied(mid.take(done)) + mid.skip(done),
            decreases self.buses@.len() - at,
        {
            assert(mid.take(done + 1).drop_last() == mid.take(done));
            assert(self.buses@[at as int] == mid.skip(done)[0]);
            let ghost kept = occupied(mid.take(done));
            if self.buses[at].devices.len() == 0 {
                let _ = self.buses.remove(at);
                assert(self.buses@ =~= kept + mid.skip(done + 1));
            } else {
                at = at + 1;
                assert(self.buses@ =~= kept.push(mid[done]) + mid.skip(done + 1));
            }
            proof {
                done = done + 1;
            }
        }
        proof {
            assert(mid.take(done) == mid);
            assert(self.buses@ =~= occupied(mid));
        }
        self.update_bus_speeds(sysfs);
        proof {
            law_a_refresh_keeps_rows_valid(*old(self), *sysfs, now_ms, self.buses@, dropped@);
        }
        dropped
    }

    /// Install (or clear) the internal-device snapshot, and mark every device
    /// already known by it, so a snapshot taken mid-session takes effect at
    /// once.
    pub fn set_internal_snapshot(&mut self, snapshot: Option<Snapshot>)
        ensures
            *final(self) == (DeviceManager { buses: final(self).buses, internal_snapshot: snapshot, ..*old(self) }),
            buses_stamped(old(self).buses@, snapshot, final(self).buses@),
            forall|b: u8, d: u8| #[trigger]
                final(self).row(b, d) == (match old(self).row(b, d) {
                    Some(x) => Some(stamped(x, snapshot)),
                    None => None,
                }),
            stays_valid(old(self).buses@, final(self).buses@),
    {
        self.internal_snapshot = snapshot;
        let n = self.buses.len();
        let ghost before = self.buses@;
        let mut i: usize = 0;
        while i < n
            invariant
                i <= n,
                n == before.len(),
                before == old(self).buses@,
                self.buses@.len() == n,
                self.internal_snapshot == snapshot,
                *self == (DeviceManager { buses: self.buses, internal_snapshot: snapshot, ..*old(self) }),
                forall|j: int| i <= j < n ==> #[trigger] self.buses@[j] == before[j],
                forall|j: int| 0 <= j < i ==> bus_stamped(#[trigger] before[j], snapshot, self.buses@[j]),
            decreases n - i,
        {
            let ghost prior = self.buses@;
            let mut bus = self.buses.remove(i);
            stamp_bus(&mut bus, &self.internal_snapshot);
            let ghost marked = bus;
            self.buses.insert(i, bus);
            assert(self.buses@ =~= prior.update(i as int, marked));
            i = i + 1;
        }
        proof {
            assert(buses_stamped(before, snapshot, self.buses@));
            assert forall|b: u8, d: u8| #[trigger]
                self.row(b, d) == (match old(self).row(b, d) {
                    Some(x) => Some(stamped(x, snapshot)),
                    None => None,
                }) by {
                lemma_row_stamped(before, snapshot, self.buses@, b, d);
            }
            lemma_stamped_stays_valid(before, snapshot, self.buses@);
        }
    }
}

/// A bus whose every device is marked by the snapshot.
pub open spec fn bus_stamped(before: UsbBus, snapshot: Option<Snapshot>, after: UsbBus) -> bool {
    &&& after == (UsbBus { devices: after.devices, ..before })
    &&& after.devices@ == before.devices@.map_values(|d: UsbDevice| stamped(d, snapshot))
}

/// Every bus so marked.
pub open spec fn buses_stamped(before: Seq<UsbBus>, snapshot: Option<Snapshot>, after: Seq<UsbBus>) -> bool {
    &&& after.len() == before.len()
    &&& forall|i: int| 0 <= i < before.len() ==> bus_stamped(#[trigger] before[i], snapshot, after[i])
}

proof fn lemma_device_stamped(before: Seq<UsbDevice>, snapshot: Option<Snapshot>, id: u8)
    ensures
        device_in(before.map_values(|d: UsbDevice| stamped(d, snapshot)), id) == (match device_in(before, id) {
            Some(x) => Some(stamped(x, snapshot)),
            None => None,
        }),
    decreases before.len(),
{
    let after = before.map_values(|d: UsbDevice| stamped(d, snapshot));
    if before.len() > 0 {
        lemma_device_stamped(before.skip(1), snapshot, id);
        assert(after.skip(1) =~= before.skip(1).map_values(|d: UsbDevice| stamped(d, snapshot)));
    }
}

proof fn lemma_row_stamped(before: Seq<UsbBus>, snapshot: Option<Snapshot>, after: Seq<UsbBus>, b: u8, d: u8)
    requires
        buses_stamped(before, snapshot, after),
    ensures
        row_in(after, b, d) == (match row_in(before, b, d) {
            Some(x) => Some(stamped(x, snapshot)),
            None => None,
        }),
    decreases before.len(),
{
    if before.len() > 0 {
        assert(bus_stamped(before[0], snapshot, after[0]));
        if before[0].bus_id == b {
            lemma_device_stamped(before[0].devices@, snapshot, d);
        } else {
            assert forall|i: int| 0 <= i < before.skip(1).len() implies bus_stamped(
                #[trigger] before.skip(1)[i],
                snapshot,
                after.skip(1)[i],
            ) by {
                assert(before.skip(1)[i] == before[i + 1]);
                assert(after.skip(1)[i] == after[i + 1]);
            }
            lemma_row_stamped(before.skip(1), snapshot, after.skip(1), b, d);
        }
    }
}

proof fn lemma_stamped_stays_valid(before: Seq<UsbBus>, snapshot: Option<Snapshot>, after: Seq<UsbBus>)
    requires
        buses_stamped(before, snapshot, after),
    ensures
        stays_valid(before, after),
{
    assert forall|i: int| 0 <= i < after.len() implies (#[trigger] after[i]).bus_id == before[i].bus_id
        && after[i].devices@ == before[i].devices@.map_values(|d: UsbDevice| stamped(d, snapshot)) by {
        assert(bus_stamped(before[i], snapshot, after[i]));
    }
    assert forall|i: int, j: int| 0 <= i < after.len() && 0 <= j < after[i].devices@.len() implies (
    #[trigger] after[i].devices@[j]) == stamped(before[i].devices@[j], snapshot) by {}
    if all_distinct(before) {
        assert forall|i: int| 0 <= i < after.len() implies devices_distinct((#[trigger] after[i]).devices@) by {
            assert(devices_distinct(before[i].devices@));
            assert forall|x: int, y: int| 0 <= x < y < after[i].devices@.len() implies (
            #[trigger] after[i].devices@[x]).device_id != (#[trigger] after[i].devices@[y]).device_id by {
                assert(before[i].devices@[x].device_id != before[i].devices@[y].device_id);
            }
        }
        assert forall|x: int, y: int| 0 <= x < y < after.len() implies (#[trigger] after[x]).bus_id != (
        #[trigger] after[y]).bus_id by {
            assert(before[x].bus_id != before[y].bus_id);
        }
    }
    if windows_agree(before) {
        assert forall|i: int, j: int| 0 <= i < after.len() && 0 <= j < after[i].devices@.len() implies one_window(
            #[trigger] after[i].devices@[j],
        ) by {
            assert(one_window(before[i].devices@[j]));
        }
    }
    if endpoints_in_order(before) {
        assert forall|i: int, j: int| 0 <= i < after.len() && 0 <= j < after[i].devices@.len() implies endpoints_ascend(
            endpoint_facts((#[trigger] after[i].devices@[j]).endpoints@),
        ) by {
            assert(endpoints_ascend(endpoint_facts(before[i].devices@[j].endpoints@)));
        }
    }
}

fn stamp_bus(bus: &mut UsbBus, snapshot: &Option<Snapshot>)
    ensures
        bus_stamped(*old(bus), *snapshot, *final(bus)),
{
    let n = bus.devices.len();
    let ghost before = bus.devices@;
    let mut i: usize = 0;
    while i < n
        invariant
            i <= n,
            n == before.len(),
            bus.devices@.len() == n,
            *bus == (UsbBus { devices: bus.devices, ..*old(bus) }),
            forall|j: int| i <= j < n ==> #[trigger] bus.devices@[j] == before[j],
            forall|j: int| 0 <= j < i ==> #[trigger] bus.devices@[j] == stamped(before[j], *snapshot),
        decreases n - i,
    {
        stamp_internal(&mut bus.devices[i], snapshot);
        i = i + 1;
    }
    assert(bus.devices@ =~= before.map_values(|d: UsbDevice| stamped(d, *snapshot)));
}

/// Ticking keeps a device's address, and makes none stale that was not.
proof fn lemma_ticked(
    before: UsbDevice,
    sysfs: Sysfs,
    ids: Option<UsbIds>,
    snapshot: Option<Snapshot>,
    now_ms: u64,
    after: UsbDevice,
)
    requires
        ticked(before, sysfs, ids, snapshot, now_ms, after),
    ensures
        after.device_id == before.device_id,
        after.is_stale(now_ms) ==> before.is_stale(now_ms),
        after.bandwidth_stats.current_bps == rate_per_second(
            sample_bytes(after.bandwidth_stats.window.samples@),
            before.bandwidth_stats.window.window_ms,
        ),
        one_window(before) ==> one_window(after),
        endpoints_ascend(endpoint_facts(before.endpoints@)) ==> endpoints_ascend(endpoint_facts(after.endpoints@)),
{
    let a = choose|a: UsbDevice| #[trigger]
        decayed(before, now_ms, a) && match a.sysfs_path {
            Some(p) => after == (if sysfs.holds(p@) {
                a
            } else {
                gone(a, now_ms)
            }),
            None => if a.is_disconnected {
                after == a
            } else {
                exists|c: UsbDevice| #[trigger] sysfs_read(a, sysfs, c) && dressed(c, ids, snapshot, after)
            },
        };
    assert(a.disconnect_time == before.disconnect_time);
    let v = endpoint_facts(before.endpoints@);
    let w = endpoint_facts(a.endpoints@);
    assert forall|i: int| 0 <= i < w.len() implies (#[trigger] w[i]).endpoint == v[i].endpoint && w[i].dir_in
        == v[i].dir_in && w[i].window_ms == v[i].window_ms by {}
    if endpoints_ascend(v) {
        assert forall|i: int, j: int| 0 <= i < j < w.len() implies endpoint_rank((#[trigger] w[i]).endpoint, w[i].dir_in)
            < endpoint_rank((#[trigger] w[j]).endpoint, w[j].dir_in) by {
            assert(endpoint_rank(v[i].endpoint, v[i].dir_in) < endpoint_rank(v[j].endpoint, v[j].dir_in));
        }
    }
    if a.sysfs_path is None && !a.is_disconnected {
        let c = choose|c: UsbDevice| #[trigger] sysfs_read(a, sysfs, c) && dressed(c, ids, snapshot, after);
        lemma_sysfs_read_frame(a, sysfs, c);
        lemma_dressed(c, ids, snapshot, after);
    }
}

/// Dropping rows keeps the others, in their order.
proof fn lemma_kept_rows(rows: Seq<UsbDevice>, now_ms: u64)
    ensures
        forall|j: int| 0 <= j < kept_rows(rows, now_ms).len() ==> rows.contains(#[trigger] kept_rows(rows, now_ms)[j]),
        devices_distinct(rows) ==> devices_distinct(kept_rows(rows, now_ms)),
    decreases rows.len(),
{
    if rows.len() > 0 {
        let front = rows.drop_last();
        let kept = kept_rows(front, now_ms);
        lemma_kept_rows(front, now_ms);
        assert forall|j: int| 0 <= j < kept.len() implies exists|i: int|
            0 <= i < rows.len() - 1 && rows[i] == #[trigger] kept[j] by {
            assert(front.contains(kept[j]));
            let i = choose|i: int| 0 <= i < front.len() && front[i] == kept[j];
            assert(rows[i] == kept[j]);
        }
        let all = kept_rows(rows, now_ms);
        assert forall|j: int| 0 <= j < all.len() implies rows.contains(#[trigger] all[j]) by {
            if j < kept.len() {
                assert(all[j] == kept[j]);
            } else {
                assert(all[j] == rows[rows.len() - 1]);
            }
        }
        if devices_distinct(rows) {
            assert forall|x: int, y: int| 0 <= x < y < front.len() implies (#[trigger] front[x]).device_id != (
            #[trigger] front[y]).device_id by {
                assert(front[x] == rows[x] && front[y] == rows[y]);
            }
            assert forall|x: int, y: int| 0 <= x < y < all.len() implies (#[trigger] all[x]).device_id != (
            #[trigger] all[y]).device_id by {
                assert(all[x] == kept[x]);
                if y < kept.len() {
                    assert(all[y] == kept[y]);
                } else {
                    let i = choose|i: int| 0 <= i < rows.len() - 1 && rows[i] == kept[x];
                    assert(rows[i].device_id != rows[rows.len() - 1].device_id);
                }
            }
        }
    }
}

/// A bus after one tick, whatever was dropped from it.
spec fn bus_ticked_somehow(
    before: UsbBus,
    sysfs: Sysfs,
    ids: Option<UsbIds>,
    snapshot: Option<Snapshot>,
    now_ms: u64,
    after: UsbBus,
) -> bool {
    exists|dropped: Seq<(u8, u8)>| #[trigger] bus_ticked(before, sysfs, ids, snapshot, now_ms, after, dropped)
}

proof fn lemma_buses_ticked(
    before: Seq<UsbBus>,
    sysfs: Sysfs,
    ids: Option<UsbIds>,
    snapshot: Option<Snapshot>,
    now_ms: u64,
    after: Seq<UsbBus>,
    dropped: Seq<(u8, u8)>,
)
    requires
        buses_ticked(before, sysfs, ids, snapshot, now_ms, after, dropped),
    ensures
        after.len() == before.len(),
        forall|i: int|
            0 <= i < before.len() ==> bus_ticked_somehow(
                #[trigger] before[i],
                sysfs,
                ids,
                snapshot,
                now_ms,
                after[i],
            ),
    decreases before.len(),
{
    if before.len() > 0 {
        let (front, last) = choose|front: Seq<(u8, u8)>, last: Seq<(u8, u8)>|
            #![trigger front + last]
            dropped == front + last && buses_ticked(
                before.drop_last(),
                sysfs,
                ids,
                snapshot,
                now_ms,
                after.drop_last(),
                front,
            ) && bus_ticked(before.last(), sysfs, ids, snapshot, now_ms, after.last(), last);
        lemma_buses_ticked(before.drop_last(), sysfs, ids, snapshot, now_ms, after.drop_last(), front);
        assert forall|i: int| 0 <= i < before.len() implies bus_ticked_somehow(
            #[trigger] before[i],
            sysfs,
            ids,
            snapshot,
            now_ms,
            after[i],
        ) by {
            if i < before.len() - 1 {
                assert(before.drop_last()[i] == before[i]);
                assert(after.drop_last()[i] == after[i]);
            }
        }
    }
}

/// Whether a row is one of `devices`, after one tick.
spec fn is_tick_on(
    devices: Seq<UsbDevice>,
    sysfs: Sysfs,
    ids: Option<UsbIds>,
    snapshot: Option<Snapshot>,
    now_ms: u64,
    row: UsbDevice,
) -> bool {
    exists|k: int| 0 <= k < devices.len() && #[trigger] ticked(devices[k], sysfs, ids, snapshot, now_ms, row)
}

/// One tick keeps what holds of a bus's rows.
proof fn lemma_bus_ticked(
    before: UsbBus,
    sysfs: Sysfs,
    ids: Option<UsbIds>,
    snapshot: Option<Snapshot>,
    now_ms: u64,
    after: UsbBus,
)
    requires
        bus_ticked_somehow(before, sysfs, ids, snapshot, now_ms, after),
    ensures
        after.bus_id == before.bus_id,
        devices_distinct(before.devices@) ==> devices_distinct(after.devices@),
        forall|j: int|
            0 <= j < after.devices@.len() ==> is_tick_on(
                before.devices@,
                sysfs,
                ids,
                snapshot,
                now_ms,
                #[trigger] after.devices@[j],
            ),
{
    let dropped = choose|dropped: Seq<(u8, u8)>| #[trigger]
        bus_ticked(before, sysfs, ids, snapshot, now_ms, after, dropped);
    let devices = before.devices@;
    let rows = choose|rows: Seq<UsbDevice>| #[trigger]
        rows_ticked(devices, sysfs, ids, snapshot, now_ms, rows) && after.devices@ == kept_rows(rows, now_ms)
            && dropped == dropped_rows(before.bus_id, rows, now_ms);
    lemma_kept_rows(rows, now_ms);
    assert forall|i: int| 0 <= i < rows.len() implies (#[trigger] rows[i]).device_id == devices[i].device_id by {
        assert(ticked(devices[i], sysfs, ids, snapshot, now_ms, rows[i]));
        lemma_ticked(devices[i], sysfs, ids, snapshot, now_ms, rows[i]);
    }
    if devices_distinct(devices) {
        assert forall|x: int, y: int| 0 <= x < y < rows.len() implies (#[trigger] rows[x]).device_id != (
        #[trigger] rows[y]).device_id by {
            assert(devices[x].device_id != devices[y].device_id);
        }
    }
    assert forall|j: int| 0 <= j < after.devices@.len() implies is_tick_on(
        devices,
        sysfs,
        ids,
        snapshot,
        now_ms,
        #[trigger] after.devices@[j],
    ) by {
        assert(rows.contains(after.devices@[j]));
        let k = choose|k: int| 0 <= k < rows.len() && rows[k] == after.devices@[j];
        assert(ticked(devices[k], sysfs, ids, snapshot, now_ms, rows[k]));
    }
}

/// The buses that are left stand in their order.
proof fn lemma_occupied_are_there(buses: Seq<UsbBus>)
    ensures
        forall|i: int| 0 <= i < occupied(buses).len() ==> buses.contains(#[trigger] occupied(buses)[i]),
        buses_distinct(buses) ==> buses_distinct(occupied(buses)),
    decreases buses.len(),
{
    if buses.len() > 0 {
        let front = buses.drop_last();
        let kept = occupied(front);
        lemma_occupied_are_there(front);
        assert forall|j: int| 0 <= j < kept.len() implies exists|i: int|
            0 <= i < buses.len() - 1 && buses[i] == #[trigger] kept[j] by {
            assert(front.contains(kept[j]));
            let i = choose|i: int| 0 <= i < front.len() && front[i] == kept[j];
            assert(buses[i] == kept[j]);
        }
        let all = occupied(buses);
        assert forall|j: int| 0 <= j < all.len() implies buses.contains(#[trigger] all[j]) by {
            if j < kept.len() {
                assert(all[j] == kept[j]);
            } else {
                assert(all[j] == buses[buses.len() - 1]);
            }
        }
        if buses_distinct(buses) {
            assert forall|x: int, y: int| 0 <= x < y < front.len() implies (#[trigger] front[x]).bus_id != (
            #[trigger] front[y]).bus_id by {
                assert(front[x] == buses[x] && front[y] == buses[y]);
            }
            assert forall|x: int, y: int| 0 <= x < y < all.len() implies (#[trigger] all[x]).bus_id != (
            #[trigger] all[y]).bus_id by {
                assert(all[x] == kept[x]);
                if y < kept.len() {
                    assert(all[y] == kept[y]);
                } else {
                    let i = choose|i: int| 0 <= i < buses.len() - 1 && buses[i] == kept[x];
                    assert(buses[i].bus_id != buses[buses.len() - 1].bus_id);
                }
            }
        }
    }
}

/// Asking root hubs leaves every row as it was.
proof fn lemma_speeds_read(before: Seq<UsbBus>, sysfs: Sysfs, after: Seq<UsbBus>)
    requires
        speeds_read(before, sysfs, after),
    ensures
        forall|i: int|
            0 <= i < after.len() ==> (#[trigger] after[i]).devices == before[i].devices && after[i].bus_id
                == before[i].bus_id,
        stays_valid(before, after),
{
    assert forall|i: int| 0 <= i < after.len() implies (#[trigger] after[i]).devices == before[i].devices
        && after[i].bus_id == before[i].bus_id by {
        assert(bus_speed_read(before[i], sysfs, after[i]));
    }
    assert forall|rule: spec_fn(UsbDevice) -> bool| every_row(before, rule) implies #[trigger] every_row(
        after,
        rule,
    ) by {
        assert forall|i: int, j: int| 0 <= i < after.len() && 0 <= j < after[i].devices@.len() implies rule(
            #[trigger] after[i].devices@[j],
        ) by {
            assert(rule(before[i].devices@[j]));
        }
    }
    if all_distinct(before) {
        assert forall|x: int, y: int| 0 <= x < y < after.len() implies (#[trigger] after[x]).bus_id != (
        #[trigger] after[y]).bus_id by {
            assert(before[x].bus_id != before[y].bus_id);
        }
        assert forall|i: int| 0 <= i < after.len() implies devices_distinct((#[trigger] after[i]).devices@) by {
            assert(devices_distinct(before[i].devices@));
        }
    }
}

/// Every row after a refresh is one there was, after one tick.
proof fn lemma_refreshed(before: DeviceManager, sysfs: Sysfs, now_ms: u64, after: Seq<UsbBus>, dropped: Seq<(u8, u8)>)
    requires
        refreshed(before, sysfs, now_ms, after, dropped),
    ensures
        forall|i: int, j: int|
            0 <= i < after.len() && 0 <= j < after[i].devices@.len() ==> is_tick_of(
                before,
                sysfs,
                now_ms,
                #[trigger] after[i].devices@[j],
            ),
        all_distinct(before.buses@) ==> all_distinct(after),
{
    let (ids, snapshot) = (before.usbids, before.internal_snapshot);
    let buses = before.buses@;
    let mid = choose|mid: Seq<UsbBus>| #[trigger]
        buses_ticked(buses, sysfs, ids, snapshot, now_ms, mid, dropped) && speeds_read(occupied(mid), sysfs, after);
    let kept = occupied(mid);
    lemma_buses_ticked(buses, sysfs, ids, snapshot, now_ms, mid, dropped);
    lemma_occupied_are_there(mid);
    lemma_speeds_read(kept, sysfs, after);
    assert forall|i: int, j: int| 0 <= i < after.len() && 0 <= j < after[i].devices@.len() implies is_tick_of(
        before,
        sysfs,
        now_ms,
        #[trigger] after[i].devices@[j],
    ) by {
        assert(after[i].devices == kept[i].devices);
        assert(mid.contains(kept[i]));
        let k = choose|k: int| 0 <= k < mid.len() && mid[k] == kept[i];
        assert(bus_ticked_somehow(buses[k], sysfs, ids, snapshot, now_ms, mid[k]));
        lemma_bus_ticked(buses[k], sysfs, ids, snapshot, now_ms, mid[k]);
        let row = mid[k].devices@[j];
        assert(is_tick_on(buses[k].devices@, sysfs, ids, snapshot, now_ms, row));
        let l = choose|l: int|
            0 <= l < buses[k].devices@.len() && #[trigger] ticked(
                buses[k].devices@[l],
                sysfs,
                ids,
                snapshot,
                now_ms,
                row,
            );
        assert(ticked(buses[k].devices@[l], sysfs, ids, snapshot, now_ms, row));
    }
    if all_distinct(buses) {
        assert forall|x: int, y: int| 0 <= x < y < mid.len() implies (#[trigger] mid[x]).bus_id != (
        #[trigger] mid[y]).bus_id by {
            lemma_bus_ticked(buses[x], sysfs, ids, snapshot, now_ms, mid[x]);
            lemma_bus_ticked(buses[y], sysfs, ids, snapshot, now_ms, mid[y]);
            assert(buses[x].bus_id != buses[y].bus_id);
        }
        assert forall|i: int| 0 <= i < kept.len() implies devices_distinct((#[trigger] kept[i]).devices@) by {
            assert(mid.contains(kept[i]));
            let k = choose|k: int| 0 <= k < mid.len() && mid[k] == kept[i];
            assert(devices_distinct(buses[k].devices@));
            lemma_bus_ticked(buses[k], sysfs, ids, snapshot, now_ms, mid[k]);
        }
        assert(all_distinct(kept));
    }
}

/// Whether a row is one there was, after one tick.
spec fn is_tick_of(before: DeviceManager, sysfs: Sysfs, now_ms: u64, row: UsbDevice) -> bool {
    exists|k: int, l: int|
        0 <= k < before.buses@.len() && 0 <= l < before.buses@[k].devices@.len() && #[trigger] ticked(
            before.buses@[k].devices@[l],
            sysfs,
            before.usbids,
            before.internal_snapshot,
            now_ms,
            row,
        )
}

/// A refresh keeps what holds of the rows: no address comes to stand twice,
/// endpoints stay in order, and rates stay over the one window.
pub proof fn law_a_refresh_keeps_rows_valid(
    before: DeviceManager,
    sysfs: Sysfs,
    now_ms: u64,
    after: Seq<UsbBus>,
    dropped: Seq<(u8, u8)>,
)
    requires
        refreshed(before, sysfs, now_ms, after, dropped),
    ensures
        stays_valid(before.buses@, after),
{
    lemma_refreshed(before, sysfs, now_ms, after, dropped);
    let buses = before.buses@;
    assert forall|i: int, j: int| 0 <= i < after.len() && 0 <= j < after[i].devices@.len() implies (windows_agree(buses)
        ==> one_window(#[trigger] after[i].devices@[j])) && (endpoints_in_order(buses) ==> endpoints_ascend(
        endpoint_facts(after[i].devices@[j].endpoints@),
    )) by {
        let row = after[i].devices@[j];
        assert(is_tick_of(before, sysfs, now_ms, row));
        let (k, l) = choose|k: int, l: int|
            0 <= k < buses.len() && 0 <= l < buses[k].devices@.len() && #[trigger] ticked(
                buses[k].devices@[l],
                sysfs,
                before.usbids,
                before.internal_snapshot,
                now_ms,
                row,
            );
        lemma_ticked(buses[k].devices@[l], sysfs, before.usbids, before.internal_snapshot, now_ms, row);
    }
}

/// After a refresh every device's rate is that of its bytes in the one window,
/// and each of its endpoints counts over the same window, so device and
/// endpoint rates agree.
pub proof fn law_rates_are_taken_over_one_window(
    before: DeviceManager,
    sysfs: Sysfs,
    now_ms: u64,
    after: Seq<UsbBus>,
    dropped: Seq<(u8, u8)>,
)
    requires
        windows_agree(before.buses@),
        refreshed(before, sysfs, now_ms, after, dropped),
    ensures
        every_row(
            after,
            |d: UsbDevice|
                one_window(d) && d.bandwidth_stats.current_bps == rate_per_second(
                    sample_bytes(d.bandwidth_stats.window.samples@),
                    WINDOW_MS,
                ),
        ),
{
    lemma_refreshed(before, sysfs, now_ms, after, dropped);
    let buses = before.buses@;
    let rule = |d: UsbDevice|
        one_window(d) && d.bandwidth_stats.current_bps == rate_per_second(
            sample_bytes(d.bandwidth_stats.window.samples@),
            WINDOW_MS,
        );
    assert forall|i: int, j: int| 0 <= i < after.len() && 0 <= j < after[i].devices@.len() implies rule(
        #[trigger] after[i].devices@[j],
    ) by {
        let row = after[i].devices@[j];
        assert(is_tick_of(before, sysfs, now_ms, row));
        let (k, l) = choose|k: int, l: int|
            0 <= k < buses.len() && 0 <= l < buses[k].devices@.len() && #[trigger] ticked(
                buses[k].devices@[l],
                sysfs,
                before.usbids,
                before.internal_snapshot,
                now_ms,
                row,
            );
        assert(one_window(buses[k].devices@[l]));
        lemma_ticked(buses[k].devices@[l], sysfs, before.usbids, before.internal_snapshot, now_ms, row);
    }
    assert(every_row(after, rule));
}

proof fn lemma_sysfs_read_frame(a: UsbDevice, sysfs: Sysfs, c: UsbDevice)
    requires
        sysfs_read(a, sysfs, c),
    ensures
        c.bus_id == a.bus_id,
        c.device_id == a.device_id,
        c.disconnect_time == a.disconnect_time,
        c.bandwidth_stats == a.bandwidth_stats,
        c.endpoints == a.endpoints,
{
    if let Some(entry) = first_entry_of(sysfs.entries@, a.bus_id, a.device_id) {
        lemma_directory_read_frame(a, sysfs, entry, c);
    }
}

proof fn lemma_directory_read_frame(a: UsbDevice, sysfs: Sysfs, entry: Node, c: UsbDevice)
    requires
        directory_read(a, sysfs, entry, c),
    ensures
        c.bus_id == a.bus_id,
        c.device_id == a.device_id,
        c.disconnect_time == a.disconnect_time,
        c.bandwidth_stats == a.bandwidth_stats,
        c.endpoints == a.endpoints,
{
    let mid = choose|mid: UsbDevice| #[trigger]
        crate::device::placed(a, sysfs.path_of(entry.name@), mid) && crate::device::metadata_read(
            mid,
            entry.children(),
            c,
        );
    assert(mid.device_id == a.device_id);
    assert(c.device_id == mid.device_id);
}

proof fn lemma_dropped(bus_id: u8, rows: Seq<UsbDevice>, now_ms: u64, at: (u8, u8))
    requires
        dropped_rows(bus_id, rows, now_ms).contains(at),
    ensures
        exists|j: int|
            0 <= j < rows.len() && at == (bus_id, (#[trigger] rows[j]).device_id) && rows[j].is_stale(now_ms),
    decreases rows.len(),
{
    if rows.len() > 0 {
        let front = rows.drop_last();
        if rows.last().is_stale(now_ms) && at == (bus_id, rows.last().device_id) {
            assert(rows[rows.len() - 1].is_stale(now_ms));
        } else {
            let all = dropped_rows(bus_id, rows, now_ms);
            let i = choose|i: int| 0 <= i < all.len() && all[i] == at;
            assert(dropped_rows(bus_id, front, now_ms).contains(at)) by {
                assert(dropped_rows(bus_id, front, now_ms)[i] == at);
            }
            lemma_dropped(bus_id, front, now_ms, at);
            let j = choose|j: int|
                0 <= j < front.len() && at == (bus_id, (#[trigger] front[j]).device_id) && front[j].is_stale(now_ms);
            assert(rows[j] == front[j]);
        }
    }
}

/// Whether some row at an address has been gone for over five seconds.
pub open spec fn long_gone(buses: Seq<UsbBus>, at: (u8, u8), now_ms: u64) -> bool {
    exists|k: int, j: int|
        0 <= k < buses.len() && 0 <= j < buses[k].devices@.len() && at == (
            buses[k].bus_id,
            (#[trigger] buses[k].devices@[j]).device_id,
        ) && buses[k].devices@[j].is_stale(now_ms)
}

proof fn lemma_buses_dropped(
    before: Seq<UsbBus>,
    sysfs: Sysfs,
    ids: Option<UsbIds>,
    snapshot: Option<Snapshot>,
    now_ms: u64,
    after: Seq<UsbBus>,
    dropped: Seq<(u8, u8)>,
    at: (u8, u8),
)
    requires
        buses_ticked(before, sysfs, ids, snapshot, now_ms, after, dropped),
        dropped.contains(at),
    ensures
        long_gone(before, at, now_ms),
    decreases before.len(),
{
    if before.len() > 0 {
        let (front, last) = choose|front: Seq<(u8, u8)>, last: Seq<(u8, u8)>|
            #![trigger front + last]
            dropped == front + last && buses_ticked(
                before.drop_last(),
                sysfs,
                ids,
                snapshot,
                now_ms,
                after.drop_last(),
                front,
            ) && bus_ticked(before.last(), sysfs, ids, snapshot, now_ms, after.last(), last);
        let i = choose|i: int| 0 <= i < dropped.len() && dropped[i] == at;
        if i < front.len() {
            assert(front[i] == at);
            assert(front.contains(at));
            let b = before.drop_last();
            lemma_buses_dropped(b, sysfs, ids, snapshot, now_ms, after.drop_last(), front, at);
            let (k, j) = choose|k: int, j: int|
                0 <= k < b.len() && 0 <= j < b[k].devices@.len() && at == (
                    b[k].bus_id,
                    (#[trigger] b[k].devices@[j]).device_id,
                ) && b[k].devices@[j].is_stale(now_ms);
            assert(before[k].devices@[j] == b[k].devices@[j]);
        } else {
            assert(last[i - front.len()] == at);
            assert(last.contains(at));
            let bus = before.last();
            let rows = choose|rows: Seq<UsbDevice>| #[trigger]
                rows_ticked(bus.devices@, sysfs, ids, snapshot, now_ms, rows) && after.last().devices@ == kept_rows(
                    rows,
                    now_ms,
                ) && last == dropped_rows(bus.bus_id, rows, now_ms);
            lemma_dropped(bus.bus_id, rows, now_ms, at);
            let j = choose|j: int|
                0 <= j < rows.len() && at == (bus.bus_id, (#[trigger] rows[j]).device_id) && rows[j].is_stale(now_ms);
            assert(ticked(bus.devices@[j], sysfs, ids, snapshot, now_ms, rows[j]));
            lemma_ticked(bus.devices@[j], sysfs, ids, snapshot, now_ms, rows[j]);
            let k = before.len() - 1;
            assert(before[k].devices@[j].is_stale(now_ms));
        }
    }
}

/// A refresh drops only devices that had already been gone for more than
/// five seconds.
pub proof fn law_only_long_gone_devices_are_dropped(
    before: DeviceManager,
    sysfs: Sysfs,
    now_ms: u64,
    after: Seq<UsbBus>,
    dropped: Seq<(u8, u8)>,
    at: (u8, u8),
)
    requires
        refreshed(before, sysfs, now_ms, after, dropped),
        dropped.contains(at),
    ensures
        long_gone(before.buses@, at, now_ms),
{
    let mid = choose|mid: Seq<UsbBus>| #[trigger]
        buses_ticked(
            before.buses@,
            sysfs,
            before.usbids,
            before.internal_snapshot,
            now_ms,
            mid,
            dropped,
        ) && speeds_read(occupied(mid), sysfs, after);
    lemma_buses_dropped(
        before.buses@,
        sysfs,
        before.usbids,
        before.internal_snapshot,
        now_ms,
        mid,
        dropped,
        at,
    );
}

proof fn lemma_occupied(buses: Seq<UsbBus>)
    ensures
        forall|i: int| 0 <= i < occupied(buses).len() ==> (#[trigger] occupied(buses)[i]).devices@.len() > 0,
    decreases buses.len(),
{
    if buses.len() > 0 {
        lemma_occupied(buses.drop_last());
    }
}

/// A refresh leaves no bus without a device.
pub proof fn law_no_bus_is_left_empty(
    before: DeviceManager,
    sysfs: Sysfs,
    now_ms: u64,
    after: Seq<UsbBus>,
    dropped: Seq<(u8, u8)>,
)
    requires
        refreshed(before, sysfs, now_ms, after, dropped),
    ensures
        forall|i: int| 0 <= i < after.len() ==> (#[trigger] after[i]).devices@.len() > 0,
{
    let mid = choose|mid: Seq<UsbBus>| #[trigger]
        buses_ticked(
            before.buses@,
            sysfs,
            before.usbids,
            before.internal_snapshot,
            now_ms,
            mid,
            dropped,
        ) && speeds_read(occupied(mid), sysfs, after);
    lemma_occupied(mid);
    assert forall|i: int| 0 <= i < after.len() implies (#[trigger] after[i]).devices@.len() > 0 by {
        assert(bus_speed_read(occupied(mid)[i], sysfs, after[i]));
    }
}

/// Traffic never lowers a total, and traffic the filter holds back changes
/// nothing.
pub proof fn law_traffic_only_adds(
    before: UsbDevice,
    filter: FilterSet,
    delta: TrafficDelta,
    now_ms: u64,
    after: UsbDevice,
)
    requires
        accounted(before, filter, delta, now_ms, after),
    ensures
        after.bandwidth_stats.total_rx_bytes >= before.bandwidth_stats.total_rx_bytes,
        after.bandwidth_stats.total_tx_bytes >= before.bandwidth_stats.total_tx_bytes,
        !set_wants_traffic(filter@, before, delta.endpoint, delta.dir_in, delta.transfer_type) ==> after == before,
{
}

/// Submissions and empty callbacks credit nothing: the row is only seen.
pub proof fn law_only_callbacks_with_data_count(p: UsbPacket)
    ensures
        packet_delta(p) is Some <==> p.urb_type == UrbType::Callback && p.data_length > 0,
        packet_delta(p) matches Some(delta) ==> delta.bytes == p.data_length,
{
}

} // verus!
