//! Devices: what is known of each one, and what its traffic says.

pub mod bos;
pub mod laws;
pub mod manager;

use vstd::prelude::*;

use crate::connector::{numbers, parse_device_name, position_of};
use crate::device::bos::{
    bcd_floor, capability_stated, read_capability, read_max_capability, BosFile, Capability,
};
use crate::number::{parse_uint, read_uint};
use crate::path::{last_name, name_of};
use crate::speed::{practical_bytes, stated_rate, UsbSpeed};
use crate::stats::{capped, live_samples, BandwidthStats, Sample, WindowCounter, WINDOW_MS};
use crate::sysfs::{entry_named, find_entry, read_text, text_named, Content, Node, Sysfs};
use crate::text::{extend_str, from_chars, has_char, to_chars, trim, trimmed};
use crate::usbids::UsbIds;
use crate::usbmon::TransferType;

verus! {

/// One endpoint's traffic: its transfer type, cumulative bytes, and what the
/// window holds.
#[derive(Debug)]
pub struct EndpointStats {
    pub endpoint: u8,
    /// true = IN.
    pub dir_in: bool,
    pub transfer_type: TransferType,
    pub total_bytes: u64,
    pub counter: WindowCounter,
}

/// What an `EndpointStats` says.
pub struct EndpointFacts {
    pub endpoint: u8,
    pub dir_in: bool,
    pub transfer_type: TransferType,
    pub total_bytes: u64,
    pub window_ms: u64,
    pub samples: Seq<Sample>,
}

impl View for EndpointStats {
    type V = EndpointFacts;

    open spec fn view(&self) -> EndpointFacts {
        EndpointFacts {
            endpoint: self.endpoint,
            dir_in: self.dir_in,
            transfer_type: self.transfer_type,
            total_bytes: self.total_bytes,
            window_ms: self.counter.window_ms,
            samples: self.counter.samples@,
        }
    }
}

/// The facts of several endpoints.
pub open spec fn endpoint_facts(v: Seq<EndpointStats>) -> Seq<EndpointFacts> {
    v.map_values(|e: EndpointStats| e@)
}

/// Where an endpoint stands: by number, OUT before IN.
pub open spec fn endpoint_rank(endpoint: u8, dir_in: bool) -> int {
    endpoint * 2 + if dir_in { 1int } else { 0 }
}

/// Each endpoint stands strictly before the next.
pub open spec fn endpoints_ascend(v: Seq<EndpointFacts>) -> bool {
    forall|i: int, j: int|
        0 <= i < j < v.len() ==> endpoint_rank((#[trigger] v[i]).endpoint, v[i].dir_in) < endpoint_rank(
            (#[trigger] v[j]).endpoint,
            v[j].dir_in,
        )
}

/// The endpoints after `bytes` moved on one of them. The first transfer type
/// seen on an endpoint sticks.
pub open spec fn endpoints_after(
    v: Seq<EndpointFacts>,
    endpoint: u8,
    dir_in: bool,
    transfer_type: TransferType,
    sample: Sample,
) -> Seq<EndpointFacts>
    decreases v.len(),
{
    let fresh = EndpointFacts {
        endpoint,
        dir_in,
        transfer_type,
        total_bytes: sample.bytes,
        window_ms: WINDOW_MS,
        samples: seq![sample],
    };
    if v.len() == 0 {
        seq![fresh]
    } else if endpoint_rank(v[0].endpoint, v[0].dir_in) == endpoint_rank(endpoint, dir_in) {
        seq![
            EndpointFacts {
                total_bytes: capped(v[0].total_bytes + sample.bytes),
                samples: v[0].samples.push(sample),
                ..v[0]
            },
        ] + v.skip(1)
    } else if endpoint_rank(endpoint, dir_in) < endpoint_rank(v[0].endpoint, v[0].dir_in) {
        seq![fresh] + v
    } else {
        seq![v[0]] + endpoints_after(v.skip(1), endpoint, dir_in, transfer_type, sample)
    }
}

/// The endpoints of a device stay in order, by number and OUT before IN,
/// whatever moves on them.
pub proof fn law_endpoints_stay_in_order(
    v: Seq<EndpointFacts>,
    endpoint: u8,
    dir_in: bool,
    transfer_type: TransferType,
    sample: Sample,
)
    requires
        endpoints_ascend(v),
    ensures
        endpoints_ascend(endpoints_after(v, endpoint, dir_in, transfer_type, sample)),
        forall|i: int|
            0 <= i < endpoints_after(v, endpoint, dir_in, transfer_type, sample).len() ==> {
                let e = #[trigger] endpoints_after(v, endpoint, dir_in, transfer_type, sample)[i];
                ||| e.endpoint == endpoint && e.dir_in == dir_in
                ||| v.contains(e)
            },
    decreases v.len(),
{
    let after = endpoints_after(v, endpoint, dir_in, transfer_type, sample);
    if v.len() > 0 {
        assert(v.contains(v[0]));
        let tail = v.skip(1);
        assert(endpoints_ascend(tail)) by {
            assert forall|i: int, j: int| 0 <= i < j < tail.len() implies endpoint_rank(
                (#[trigger] tail[i]).endpoint,
                tail[i].dir_in,
            ) < endpoint_rank((#[trigger] tail[j]).endpoint, tail[j].dir_in) by {
                assert(tail[i] == v[i + 1] && tail[j] == v[j + 1]);
            }
        }
        assert forall|i: int| 0 <= i < tail.len() implies v.contains(#[trigger] tail[i]) by {
            assert(tail[i] == v[i + 1]);
        }
        let here = endpoint_rank(v[0].endpoint, v[0].dir_in);
        let wanted = endpoint_rank(endpoint, dir_in);
        if wanted > here {
            law_endpoints_stay_in_order(tail, endpoint, dir_in, transfer_type, sample);
            let rest = endpoints_after(tail, endpoint, dir_in, transfer_type, sample);
            assert forall|j: int| 0 <= j < rest.len() implies here < endpoint_rank(
                (#[trigger] rest[j]).endpoint,
                rest[j].dir_in,
            ) && (rest[j].endpoint == endpoint && rest[j].dir_in == dir_in || v.contains(rest[j])) by {
                if !(rest[j].endpoint == endpoint && rest[j].dir_in == dir_in) {
                    let k = choose|k: int| 0 <= k < tail.len() && tail[k] == rest[j];
                    assert(tail[k] == v[k + 1]);
                }
            }
            assert(after =~= seq![v[0]] + rest);
        } else {
            assert forall|i: int| 0 <= i < after.len() implies {
                let e = #[trigger] after[i];
                ||| e.endpoint == endpoint && e.dir_in == dir_in
                ||| v.contains(e)
            } by {
                if i > 0 {
                    if wanted == here {
                        assert(after[i] == tail[i - 1]);
                    } else {
                        assert(after[i] == v[i - 1]);
                    }
                }
            }
        }
    }
}

/// Each endpoint's window is the one that rates are taken over.
pub open spec fn endpoints_share_window(v: Seq<EndpointFacts>) -> bool {
    forall|i: int| 0 <= i < v.len() ==> (#[trigger] v[i]).window_ms == WINDOW_MS
}

/// The endpoints of a device keep the one window, whatever moves on them.
pub proof fn law_endpoints_keep_the_window(
    v: Seq<EndpointFacts>,
    endpoint: u8,
    dir_in: bool,
    transfer_type: TransferType,
    sample: Sample,
)
    requires
        endpoints_share_window(v),
    ensures
        endpoints_share_window(endpoints_after(v, endpoint, dir_in, transfer_type, sample)),
    decreases v.len(),
{
    if v.len() > 0 {
        law_endpoints_keep_the_window(v.skip(1), endpoint, dir_in, transfer_type, sample);
    }
}

/// The endpoint called (`endpoint`, `dir_in`).
pub open spec fn endpoint_at(v: Seq<EndpointFacts>, endpoint: u8, dir_in: bool) -> Option<EndpointFacts>
    decreases v.len(),
{
    if v.len() == 0 {
        None
    } else if v[0].endpoint == endpoint && v[0].dir_in == dir_in {
        Some(v[0])
    } else {
        endpoint_at(v.skip(1), endpoint, dir_in)
    }
}

/// One device row.
#[derive(Debug)]
pub struct UsbDevice {
    pub bus_id: u8,
    pub device_id: u8,
    pub vendor_id: Option<u16>,
    pub product_id: Option<u16>,
    pub vendor: Option<String>,
    pub product: Option<String>,
    pub serial: Option<String>,
    pub speed: UsbSpeed,
    pub bandwidth_stats: BandwidthStats,
    pub is_disconnected: bool,
    /// When the device went away, in milliseconds on a monotonic clock.
    pub disconnect_time: Option<u64>,
    pub last_seen: u64,
    pub sysfs_path: Option<String>,
    /// The speed that a declared bcdUSB of 3.x promises, whatever the link.
    pub max_capability: Option<UsbSpeed>,
    /// The highest link rate the device says it supports, and how that is
    /// known.
    pub capability: Option<Capability>,
    /// Whether the device belongs to the machine, by the loaded snapshot.
    pub is_internal: bool,
    /// Per-endpoint traffic in endpoint order. A device with no traffic yet
    /// has none: the endpoint layout is only known from the packets seen.
    pub endpoints: Vec<EndpointStats>,
}

/// The characters of an optional string.
pub open spec fn text_of(s: Option<String>) -> Option<Seq<char>> {
    match s {
        Some(t) => Some(t@),
        None => None,
    }
}

/// A string attribute: the file's text trimmed, or what stood there before.
pub open spec fn attribute_or(entries: Seq<Node>, name: Seq<char>, before: Option<String>) -> Option<Seq<char>> {
    match text_named(entries, name) {
        Some(t) => Some(trimmed(t)),
        None => text_of(before),
    }
}

/// An id attribute: four hexadecimal digits at most, or what stood there.
pub open spec fn id_or(entries: Seq<Node>, name: Seq<char>, before: Option<u16>) -> Option<u16> {
    match text_named(entries, name) {
        Some(t) => match read_uint(trimmed(t), 16, 65535) {
            Some(n) => Some(n as u16),
            None => before,
        },
        None => before,
    }
}

/// How reading the `bos_descriptors` entry went.
pub open spec fn bos_file_of(entries: Seq<Node>, r: BosFile) -> bool {
    match entry_named(entries, "bos_descriptors"@) {
        None => r is Absent,
        Some(n) => match n.content {
            Content::Bytes(b) => r matches BosFile::Present(p) && p@ == b@,
            Content::Text(t) => r matches BosFile::Present(p) && p@ == vstd::utf8::encode_utf8(t@),
            Content::Absent => r is Absent,
            _ => r is Unreadable,
        },
    }
}

/// What a device knows after its attribute files were read.
pub open spec fn metadata_read(before: UsbDevice, entries: Seq<Node>, after: UsbDevice) -> bool {
    &&& after.speed.bps == match text_named(entries, "speed"@) {
        Some(t) => stated_rate(trimmed(t)),
        None => before.speed.bps as nat,
    }
    &&& after.vendor_id == id_or(entries, "idVendor"@, before.vendor_id)
    &&& after.product_id == id_or(entries, "idProduct"@, before.product_id)
    &&& text_of(after.vendor) == attribute_or(entries, "manufacturer"@, before.vendor)
    &&& text_of(after.product) == attribute_or(entries, "product"@, before.product)
    &&& text_of(after.serial) == attribute_or(entries, "serial"@, before.serial)
    &&& after.max_capability == bcd_floor(text_named(entries, "version"@))
    &&& exists|bos: BosFile| #[trigger]
        bos_file_of(entries, bos) && capability_stated(bos, text_named(entries, "version"@), after.capability)
    &&& after == (UsbDevice {
        speed: after.speed,
        vendor_id: after.vendor_id,
        product_id: after.product_id,
        vendor: after.vendor,
        product: after.product,
        serial: after.serial,
        max_capability: after.max_capability,
        capability: after.capability,
        ..before
    })
}

/// Whether a directory entry is the device: not an interface, and its
/// `busnum` and `devnum` name it.
pub open spec fn is_entry_of(entry: Node, bus_id: u8, device_id: u8) -> bool {
    &&& !entry.name@.contains(':')
    &&& number_attribute(entry, "busnum"@) == Some(bus_id)
    &&& number_attribute(entry, "devnum"@) == Some(device_id)
}

/// A small number in an attribute file.
pub open spec fn number_attribute(entry: Node, name: Seq<char>) -> Option<u8> {
    match text_named(entry.children(), name) {
        Some(t) => match read_uint(trimmed(t), 10, 255) {
            Some(n) => Some(n as u8),
            None => None,
        },
        None => None,
    }
}

/// The first entry that is the device.
pub open spec fn first_entry_of(entries: Seq<Node>, bus_id: u8, device_id: u8) -> Option<Node>
    decreases entries.len(),
{
    if entries.len() == 0 {
        None
    } else if is_entry_of(entries[0], bus_id, device_id) {
        Some(entries[0])
    } else {
        first_entry_of(entries.skip(1), bus_id, device_id)
    }
}

/// What a device knows after its own directory was read.
pub open spec fn directory_read(before: UsbDevice, sysfs: Sysfs, entry: Node, after: UsbDevice) -> bool {
    exists|mid: UsbDevice| #[trigger]
        placed(before, sysfs.path_of(entry.name@), mid) && metadata_read(mid, entry.children(), after)
}

/// `after` is `before` with its directory known.
pub open spec fn placed(before: UsbDevice, path: Seq<char>, after: UsbDevice) -> bool {
    &&& text_of(after.sysfs_path) == Some(path)
    &&& after == (UsbDevice { sysfs_path: after.sysfs_path, ..before })
}

/// What a device knows after sysfs was searched for it.
pub open spec fn sysfs_read(before: UsbDevice, sysfs: Sysfs, after: UsbDevice) -> bool {
    match first_entry_of(sysfs.entries@, before.bus_id, before.device_id) {
        Some(entry) => directory_read(before, sysfs, entry, after),
        None => after == before,
    }
}

/// Where an endpoint stands.
fn rank_of(endpoint: u8, dir_in: bool) -> (r: u32)
    ensures
        r == endpoint_rank(endpoint, dir_in),
{
    if dir_in {
        endpoint as u32 * 2 + 1
    } else {
        endpoint as u32 * 2
    }
}

/// A small number in an attribute file.
pub fn read_sysfs_u8(entry: &Node, name: &str) -> (r: Option<u8>)
    ensures
        r == number_attribute(*entry, name@),
{
    let children = match &entry.content {
        Content::Directory(v) => v,
        _ => {
            return None;
        },
    };
    match read_text(children, name) {
        None => None,
        Some(t) => {
            let raw = to_chars(t.as_str());
            let text = trim(&raw);
            match parse_uint(&text, 10, 255) {
                Some(n) => Some(n as u8),
                None => None,
            }
        },
    }
}

fn read_id(entries: &Vec<Node>, name: &str, before: Option<u16>) -> (r: Option<u16>)
    ensures
        r == id_or(entries@, name@, before),
{
    match read_text(entries, name) {
        None => before,
        Some(t) => {
            let raw = to_chars(t.as_str());
            let text = trim(&raw);
            match parse_uint(&text, 16, 65535) {
                Some(n) => Some(n as u16),
                None => before,
            }
        },
    }
}

fn read_attribute(entries: &Vec<Node>, name: &str) -> (r: Option<String>)
    ensures
        match text_named(entries@, name@) {
            Some(t) => text_of(r) == Some(trimmed(t)),
            None => r is None,
        },
{
    match read_text(entries, name) {
        None => None,
        Some(t) => {
            let raw = to_chars(t.as_str());
            let text = trim(&raw);
            Some(from_chars(&text))
        },
    }
}

fn read_bos(entries: &Vec<Node>) -> (r: BosFile)
    ensures
        bos_file_of(entries@, r),
{
    match find_entry(entries, "bos_descriptors") {
        None => BosFile::Absent,
        Some(n) => match &n.content {
            Content::Bytes(b) => {
                let copy = bos::byte_slice(b.as_slice(), 0, b.len());
                assert(b@.subrange(0, b@.len() as int) == b@);
                BosFile::Present(copy)
            },
            Content::Text(t) => {
                let b = t.as_str().as_bytes();
                let copy = bos::byte_slice(b, 0, b.len());
                assert(b@.subrange(0, b@.len() as int) == b@);
                BosFile::Present(copy)
            },
            Content::Absent => BosFile::Absent,
            _ => BosFile::Unreadable,
        },
    }
}

impl UsbDevice {
    /// A device of which nothing is known yet.
    pub fn new(bus_id: u8, device_id: u8, now_ms: u64) -> (d: UsbDevice)
        ensures
            d.bus_id == bus_id,
            d.device_id == device_id,
            d.vendor_id is None,
            d.product_id is None,
            d.vendor is None,
            d.product is None,
            d.serial is None,
            d.speed.bps == 0,
            d.bandwidth_stats.total_rx_bytes == 0,
            d.bandwidth_stats.total_tx_bytes == 0,
            d.bandwidth_stats.current_bps == 0,
            d.bandwidth_stats.window.window_ms == WINDOW_MS,
            d.bandwidth_stats.window.samples@ == Seq::<Sample>::empty(),
            !d.is_disconnected,
            d.disconnect_time is None,
            d.last_seen == now_ms,
            d.sysfs_path is None,
            d.max_capability is None,
            d.capability is None,
            !d.is_internal,
            d.endpoints@ == Seq::<EndpointStats>::empty(),
    {
        UsbDevice {
            bus_id,
            device_id,
            vendor_id: None,
            product_id: None,
            vendor: None,
            product: None,
            serial: None,
            speed: UsbSpeed::unknown(),
            bandwidth_stats: BandwidthStats::new(),
            is_disconnected: false,
            disconnect_time: None,
            last_seen: now_ms,
            sysfs_path: None,
            max_capability: None,
            capability: None,
            is_internal: false,
            endpoints: Vec::new(),
        }
    }

    /// The device's sysfs name: the last component of its path.
    pub open spec fn name(self) -> Option<Seq<char>> {
        match self.sysfs_path {
            Some(p) => name_of(p@),
            None => None,
        }
    }

    /// The port chain that the sysfs name gives.
    pub open spec fn chain(self) -> Option<Seq<nat>> {
        match self.name() {
            Some(n) => match position_of(n) {
                Some((_, chain)) => Some(chain),
                None => None,
            },
            None => None,
        }
    }

    /// The device's sysfs name.
    pub fn sysfs_name(&self) -> (r: Option<String>)
        ensures
            text_of(r) == self.name(),
    {
        match &self.sysfs_path {
            None => None,
            Some(p) => {
                let v = to_chars(p.as_str());
                match last_name(&v) {
                    Some(n) => Some(from_chars(&n)),
                    None => None,
                }
            },
        }
    }

    /// Physical port chain from the sysfs name: `3-1.4.2` gives `[1, 4, 2]`;
    /// a root hub (`usbN`) has an empty chain; unresolved gives `None`.
    pub fn port_chain(&self) -> (r: Option<Vec<u32>>)
        ensures
            match (r, self.chain()) {
                (Some(v), Some(c)) => numbers(v@) == c,
                (None, None) => true,
                _ => false,
            },
    {
        match self.sysfs_name() {
            None => None,
            Some(n) => match parse_device_name(n.as_str()) {
                Some((_, chain)) => Some(chain),
                None => None,
            },
        }
    }

    /// Fill in what sysfs knows of the device, if it is there.
    pub fn populate_from_sysfs(&mut self, sysfs: &Sysfs)
        ensures
            sysfs_read(*old(self), *sysfs, *final(self)),
    {
        match self.find_sysfs_path(sysfs) {
            None => {},
            Some(entry) => {
                self.populate_from_dir(sysfs, entry);
            },
        }
    }

    /// Fill in what the device's own directory says. The path is kept even
    /// when no attribute can be read, so that a refresh can notice the
    /// device is gone.
    pub fn populate_from_dir(&mut self, sysfs: &Sysfs, entry: &Node)
        ensures
            directory_read(*old(self), *sysfs, *entry, *final(self)),
    {
        self.sysfs_path = Some(sysfs.entry_path(entry.name.as_str()));
        let ghost mid = *self;
        let none: Vec<Node> = Vec::new();
        let entries = match &entry.content {
            Content::Directory(v) => v,
            _ => &none,
        };
        assert(entries@ == entry.children());
        self.read_metadata_from(entries);
        assert(placed(*old(self), sysfs.path_of(entry.name@), mid));
    }

    /// Read the attribute files of a device directory.
    fn read_metadata_from(&mut self, entries: &Vec<Node>)
        ensures
            metadata_read(*old(self), entries@, *final(self)),
    {
        if let Some(text) = read_attribute(entries, "speed") {
            self.speed = UsbSpeed::from_speed_str(text.as_str());
        }
        self.vendor_id = read_id(entries, "idVendor", self.vendor_id);
        self.product_id = read_id(entries, "idProduct", self.product_id);
        if let Some(text) = read_attribute(entries, "manufacturer") {
            self.vendor = Some(text);
        }
        if let Some(text) = read_attribute(entries, "product") {
            self.product = Some(text);
        }
        if let Some(text) = read_attribute(entries, "serial") {
            self.serial = Some(text);
        }
        let version = read_text(entries, "version");
        self.max_capability = read_max_capability(version);
        let bos = read_bos(entries);
        self.capability = read_capability(&bos, version);
        assert(bos_file_of(entries@, bos));
    }

    /// The entry whose `busnum` and `devnum` name this device. Directories
    /// are named by port topology, not by number, so the files decide.
    fn find_sysfs_path<'a>(&self, sysfs: &'a Sysfs) -> (r: Option<&'a Node>)
        ensures
            match r {
                Some(n) => first_entry_of(sysfs.entries@, self.bus_id, self.device_id) == Some(*n),
                None => first_entry_of(sysfs.entries@, self.bus_id, self.device_id) is None,
            },
    {
        let entries = &sysfs.entries;
        let mut i: usize = 0;
        assert(entries@.skip(0) == entries@);
        while i < entries.len()
            invariant
                i <= entries.len(),
                first_entry_of(entries@, self.bus_id, self.device_id) == first_entry_of(
                    entries@.skip(i as int),
                    self.bus_id,
                    self.device_id,
                ),
                entries == &sysfs.entries,
            decreases entries.len() - i,
        {
            let name = to_chars(entries[i].name.as_str());
            if !has_char(&name, ':') && read_sysfs_u8(&entries[i], "busnum") == Some(self.bus_id)
                && read_sysfs_u8(&entries[i], "devnum") == Some(self.device_id) {
                return Some(&entries[i]);
            }
            assert(entries@.skip(i as int).skip(1) == entries@.skip(i + 1));
            i = i + 1;
        }
        None
    }

    /// Note that the device is gone; the first such moment sticks.
    pub fn mark_disconnected(&mut self, now_ms: u64)
        ensures
            *final(self) == (if old(self).is_disconnected {
                *old(self)
            } else {
                UsbDevice { is_disconnected: true, disconnect_time: Some(now_ms), ..*old(self) }
            }),
    {
        if !self.is_disconnected {
            self.is_disconnected = true;
            self.disconnect_time = Some(now_ms);
        }
    }

    /// Whether the device has been gone for more than five whole seconds.
    pub open spec fn is_stale(self, now_ms: u64) -> bool {
        match self.disconnect_time {
            Some(t) => now_ms >= t && (now_ms - t) / 1000 > 5,
            None => false,
        }
    }

    /// Whether the device has been gone for more than five whole seconds.
    pub fn should_remove(&self, now_ms: u64) -> (r: bool)
        ensures
            r == self.is_stale(now_ms),
    {
        match self.disconnect_time {
            Some(t) => now_ms >= t && (now_ms - t) / 1000 > 5,
            None => false,
        }
    }

    /// The row after the device was seen.
    pub open spec fn seen(self, now_ms: u64) -> UsbDevice {
        UsbDevice {
            last_seen: now_ms,
            is_disconnected: false,
            disconnect_time: if self.is_disconnected {
                None
            } else {
                self.disconnect_time
            },
            ..self
        }
    }

    /// Note that the device was seen; one that was gone is back.
    pub fn update_activity(&mut self, now_ms: u64)
        ensures
            *final(self) == old(self).seen(now_ms),
    {
        self.last_seen = now_ms;
        if self.is_disconnected {
            self.is_disconnected = false;
            self.disconnect_time = None;
        }
    }

    /// Hundredths of a percent of the practical bandwidth in use, rounded
    /// down; zero when the speed is not known.
    pub open spec fn busy(self) -> nat {
        let max = practical_bytes(self.speed.bps as nat);
        if max == 0 {
            0
        } else {
            self.bandwidth_stats.current_bps as nat * 10_000 / max
        }
    }

    /// Hundredths of a percent of this device's practical bandwidth in use:
    /// against what protocol overhead leaves, not the raw rate.
    pub fn get_busy_percentage(&self) -> (r: u128)
        ensures
            r == self.busy(),
    {
        let max = self.speed.to_practical_bytes_per_second();
        if max == 0 {
            0
        } else {
            self.bandwidth_stats.current_bps as u128 * 10_000 / max as u128
        }
    }

    /// The declared capability, when it exceeds both the bus and the link.
    pub open spec fn mismatch(self, bus_speed: UsbSpeed) -> Option<UsbSpeed> {
        match self.max_capability {
            Some(c) => if c.bps > bus_speed.bps && c.bps > self.speed.bps {
                Some(c)
            } else {
                None
            },
            None => None,
        }
    }

    /// `Some(capability)` when the device's declared capability is faster
    /// than both the bus it is plugged into and its link: it could run
    /// faster on a better bus.
    pub fn check_speed_mismatch(&self, bus_speed: &UsbSpeed) -> (r: Option<UsbSpeed>)
        ensures
            r == self.mismatch(*bus_speed),
    {
        match self.max_capability {
            Some(c) => if c.bps > bus_speed.bps && c.bps > self.speed.bps {
                Some(c)
            } else {
                None
            },
            None => None,
        }
    }

    /// Whether more than 80 percent of the practical bandwidth is in use.
    pub open spec fn is_busy(self) -> bool {
        self.speed.bps > 0 && practical_bytes(self.speed.bps as nat) > 0 && self.bandwidth_stats.current_bps * 100 > 80
            * practical_bytes(self.speed.bps as nat)
    }

    /// Visual indicator for speed-capability issues. `LimitedByBus` takes
    /// precedence over `HighUtilization` when both apply.
    pub fn get_speed_indicator(&self, bus_speed: &UsbSpeed) -> (r: SpeedIndicator)
        ensures
            r == (match self.mismatch(*bus_speed) {
                Some(c) => SpeedIndicator::LimitedByBus(c),
                None => if self.is_busy() {
                    SpeedIndicator::HighUtilization
                } else {
                    SpeedIndicator::Normal
                },
            }),
    {
        if let Some(capable) = self.check_speed_mismatch(bus_speed) {
            return SpeedIndicator::LimitedByBus(capable);
        }
        let max = self.speed.to_practical_bytes_per_second();
        if self.speed.bps > 0 && max > 0 && self.bandwidth_stats.current_bps as u128 * 100 > 80 * max as u128 {
            SpeedIndicator::HighUtilization
        } else {
            SpeedIndicator::Normal
        }
    }

    /// Account `bytes` against one endpoint. The transfer type is fixed by
    /// the hardware per endpoint, so the first packet's type sticks.
    pub fn record_endpoint(
        &mut self,
        endpoint: u8,
        dir_in: bool,
        transfer_type: TransferType,
        bytes: u64,
        now_ms: u64,
    )
        ensures
            *final(self) == (UsbDevice { endpoints: final(self).endpoints, ..*old(self) }),
            endpoint_facts(final(self).endpoints@) == endpoints_after(
                endpoint_facts(old(self).endpoints@),
                endpoint,
                dir_in,
                transfer_type,
                Sample { at_ms: now_ms, bytes },
            ),
    {
        let ghost all = endpoint_facts(self.endpoints@);
        let ghost sample = Sample { at_ms: now_ms, bytes };
        let mut endpoints: Vec<EndpointStats> = Vec::new();
        std::mem::swap(&mut endpoints, &mut self.endpoints);
        let rank = rank_of(endpoint, dir_in);
        let mut k: usize = 0;
        while k < endpoints.len() && rank_of(endpoints[k].endpoint, endpoints[k].dir_in) < rank
            invariant
                k <= endpoints.len(),
                endpoint_facts(endpoints@) == all,
                rank == endpoint_rank(endpoint, dir_in),
                forall|j: int|
                    0 <= j < k ==> endpoint_rank((#[trigger] all[j]).endpoint, all[j].dir_in) < rank,
            decreases endpoints.len() - k,
        {
            assert(all[k as int] == endpoints@[k as int]@);
            k = k + 1;
        }
        if k < endpoints.len() {
            assert(all[k as int] == endpoints@[k as int]@);
        }
        if k < endpoints.len() && rank_of(endpoints[k].endpoint, endpoints[k].dir_in) == rank {
            let mut found = endpoints.remove(k);
            found.total_bytes = found.total_bytes.saturating_add(bytes);
            found.counter.add_bytes(bytes, now_ms);
            let ghost facts = found@;
            endpoints.insert(k, found);
            assert(endpoint_facts(endpoints@) =~= all.update(k as int, facts));
        } else {
            let mut counter = WindowCounter::new(WINDOW_MS);
            counter.add_bytes(bytes, now_ms);
            let fresh = EndpointStats { endpoint, dir_in, transfer_type, total_bytes: bytes, counter };
            let ghost facts = fresh@;
            assert(facts.samples =~= seq![sample]);
            endpoints.insert(k, fresh);
            assert(endpoint_facts(endpoints@) =~= all.insert(k as int, facts));
        }
        proof {
            lemma_endpoints_after(all, endpoint, dir_in, transfer_type, sample, k as int);
        }
        self.endpoints = endpoints;
    }

    /// Let endpoint windows decay.
    pub fn refresh_endpoints(&mut self, now_ms: u64)
        ensures
            *final(self) == (UsbDevice { endpoints: final(self).endpoints, ..*old(self) }),
            endpoint_facts(final(self).endpoints@) == endpoint_facts(old(self).endpoints@).map_values(
                |e: EndpointFacts| (EndpointFacts { samples: live_samples(e.samples, e.window_ms, now_ms), ..e }),
            ),
    {
        let mut endpoints: Vec<EndpointStats> = Vec::new();
        std::mem::swap(&mut endpoints, &mut self.endpoints);
        let ghost all = endpoint_facts(endpoints@);
        let ghost decayed = all.map_values(
            |e: EndpointFacts| (EndpointFacts { samples: live_samples(e.samples, e.window_ms, now_ms), ..e }),
        );
        let mut i: usize = 0;
        assert(endpoint_facts(endpoints@) == decayed.take(0) + all.skip(0));
        while i < endpoints.len()
            invariant
                i <= endpoints.len(),
                all.len() == endpoints.len(),
                decayed == all.map_values(
                    |e: EndpointFacts| (EndpointFacts { samples: live_samples(e.samples, e.window_ms, now_ms), ..e }),
                ),
                endpoint_facts(endpoints@) == decayed.take(i as int) + all.skip(i as int),
            decreases endpoints.len() - i,
        {
            let ghost before = endpoint_facts(endpoints@);
            let mut e = endpoints.remove(i);
            assert(before[i as int] == all[i as int]);
            e.counter.refresh(now_ms);
            let ghost facts = e@;
            endpoints.insert(i, e);
            proof {
                assert(facts == decayed[i as int]);
                assert(endpoint_facts(endpoints@) =~= before.update(i as int, facts));
                assert(before.update(i as int, facts) =~= decayed.take(i + 1) + all.skip(i + 1));
            }
            i = i + 1;
        }
        assert(decayed.take(i as int) + all.skip(i as int) =~= decayed);
        self.endpoints = endpoints;
    }

    /// Whether an isochronous endpoint has carried bytes.
    pub open spec fn carries_iso(self) -> bool {
        exists|i: int|
            0 <= i < self.endpoints@.len() && (#[trigger] self.endpoints@[i]).transfer_type
                == TransferType::Isochronous && self.endpoints@[i].total_bytes > 0
    }

    /// True when any isochronous endpoint has carried bytes. The debugfs text
    /// interface reports isochronous callbacks at a rate above the actual
    /// transfer count, so a report built from it flags these devices as
    /// estimated.
    pub fn has_iso_traffic(&self) -> (r: bool)
        ensures
            r == self.carries_iso(),
    {
        let mut i: usize = 0;
        while i < self.endpoints.len()
            invariant
                i <= self.endpoints.len(),
                forall|j: int|
                    0 <= j < i ==> !((#[trigger] self.endpoints@[j]).transfer_type == TransferType::Isochronous
                        && self.endpoints@[j].total_bytes > 0),
            decreases self.endpoints.len() - i,
        {
            if self.endpoints[i].transfer_type == TransferType::Isochronous && self.endpoints[i].total_bytes > 0 {
                return true;
            }
            i = i + 1;
        }
        false
    }

    /// Overlay usb.ids names. The database wins per field; the device's own
    /// strings keep any field the database does not list.
    pub fn apply_usbids(&mut self, db: &UsbIds)
        ensures
            names_overlaid(*old(self), *db, *final(self)),
    {
        if let Some(vid) = self.vendor_id {
            if let Some(name) = db.vendor_name(vid) {
                self.vendor = Some(name.clone());
            }
            if let Some(pid) = self.product_id {
                if let Some(name) = db.product_name(vid, pid) {
                    self.product = Some(name.clone());
                }
            }
        }
    }
}

/// `after` is `before` with the names that the database has for its ids.
pub open spec fn names_overlaid(before: UsbDevice, db: UsbIds, after: UsbDevice) -> bool {
    &&& text_of(after.vendor) == match before.vendor_id {
        Some(vid) => match db.vendor(vid) {
            Some(name) => Some(name),
            None => text_of(before.vendor),
        },
        None => text_of(before.vendor),
    }
    &&& text_of(after.product) == match (before.vendor_id, before.product_id) {
        (Some(vid), Some(pid)) => match db.product(vid, pid) {
            Some(name) => Some(name),
            None => text_of(before.product),
        },
        _ => text_of(before.product),
    }
    &&& after == (UsbDevice { vendor: after.vendor, product: after.product, ..before })
}

proof fn lemma_endpoints_after(
    v: Seq<EndpointFacts>,
    endpoint: u8,
    dir_in: bool,
    transfer_type: TransferType,
    sample: Sample,
    k: int,
)
    requires
        0 <= k <= v.len(),
        forall|j: int|
            0 <= j < k ==> endpoint_rank((#[trigger] v[j]).endpoint, v[j].dir_in) < endpoint_rank(endpoint, dir_in),
        k < v.len() ==> endpoint_rank(v[k].endpoint, v[k].dir_in) >= endpoint_rank(endpoint, dir_in),
    ensures
        endpoints_after(v, endpoint, dir_in, transfer_type, sample) == (if k < v.len() && endpoint_rank(
            v[k].endpoint,
            v[k].dir_in,
        ) == endpoint_rank(endpoint, dir_in) {
            v.update(
                k,
                EndpointFacts {
                    total_bytes: capped(v[k].total_bytes + sample.bytes),
                    samples: v[k].samples.push(sample),
                    ..v[k]
                },
            )
        } else {
            v.insert(
                k,
                EndpointFacts {
                    endpoint,
                    dir_in,
                    transfer_type,
                    total_bytes: sample.bytes,
                    window_ms: WINDOW_MS,
                    samples: seq![sample],
                },
            )
        }),
    decreases v.len(),
{
    let r = endpoints_after(v, endpoint, dir_in, transfer_type, sample);
    let fresh = EndpointFacts {
        endpoint,
        dir_in,
        transfer_type,
        total_bytes: sample.bytes,
        window_ms: WINDOW_MS,
        samples: seq![sample],
    };
    if v.len() == 0 {
        assert(v.insert(0, fresh) =~= seq![fresh]);
    } else if k == 0 {
        if endpoint_rank(v[0].endpoint, v[0].dir_in) == endpoint_rank(endpoint, dir_in) {
            let next = EndpointFacts {
                total_bytes: capped(v[0].total_bytes + sample.bytes),
                samples: v[0].samples.push(sample),
                ..v[0]
            };
            assert(v.update(0, next) =~= seq![next] + v.skip(1));
        } else {
            assert(v.insert(0, fresh) =~= seq![fresh] + v);
        }
    } else {
        let t = v.skip(1);
        assert(endpoint_rank(v[0].endpoint, v[0].dir_in) < endpoint_rank(endpoint, dir_in));
        assert forall|j: int| 0 <= j < k - 1 implies endpoint_rank((#[trigger] t[j]).endpoint, t[j].dir_in)
            < endpoint_rank(endpoint, dir_in) by {
            assert(t[j] == v[j + 1]);
        }
        if k < v.len() {
            assert(t[k - 1] == v[k]);
        }
        lemma_endpoints_after(t, endpoint, dir_in, transfer_type, sample, k - 1);
        if k < v.len() && endpoint_rank(v[k].endpoint, v[k].dir_in) == endpoint_rank(endpoint, dir_in) {
            let next = EndpointFacts {
                total_bytes: capped(v[k].total_bytes + sample.bytes),
                samples: v[k].samples.push(sample),
                ..v[k]
            };
            assert(seq![v[0]] + t.update(k - 1, next) =~= v.update(k, next));
        } else {
            assert(seq![v[0]] + t.insert(k - 1, fresh) =~= v.insert(k, fresh));
        }
    }
}

/// Visual indicator for a device's speed-capability status.
#[derive(Debug, Clone, Copy, PartialEq, Eq, Structural)]
pub enum SpeedIndicator {
    Normal,
    HighUtilization,
    /// Holds the speed the device is capable of.
    LimitedByBus(UsbSpeed),
}

impl SpeedIndicator {
    /// Visual symbol for the device list.
    pub fn get_symbol(&self) -> (r: &'static str)
        ensures
            r@ == (match self {
                SpeedIndicator::Normal => ""@,
                SpeedIndicator::HighUtilization => "\u{26a1}"@,
                SpeedIndicator::LimitedByBus(_) => "\u{1f53a}"@,
            }),
    {
        match self {
            SpeedIndicator::Normal => "",
            SpeedIndicator::HighUtilization => "\u{26a1}",
            SpeedIndicator::LimitedByBus(_) => "\u{1f53a}",
        }
    }

    /// Reference color for the indicator symbol.
    pub fn get_color(&self) -> (r: (u8, u8, u8))
        ensures
            r == (match self {
                SpeedIndicator::Normal => (128u8, 128u8, 128u8),
                SpeedIndicator::HighUtilization => (255u8, 165u8, 0u8),
                SpeedIndicator::LimitedByBus(_) => (255u8, 255u8, 0u8),
            }),
    {
        match self {
            SpeedIndicator::Normal => (128, 128, 128),
            SpeedIndicator::HighUtilization => (255, 165, 0),
            SpeedIndicator::LimitedByBus(_) => (255, 255, 0),
        }
    }

    /// Human-readable description of the indicator.
    pub fn get_description(&self) -> (r: String)
        ensures
            r@ == (match self {
                SpeedIndicator::Normal => "Normal operation"@,
                SpeedIndicator::HighUtilization => "High bandwidth utilization"@,
                SpeedIndicator::LimitedByBus(s) => "Device capable of "@ + speed_name(*s)
                    + " but limited by bus speed"@,
            }),
    {
        match self {
            SpeedIndicator::Normal => "Normal operation".to_owned(),
            SpeedIndicator::HighUtilization => "High bandwidth utilization".to_owned(),
            SpeedIndicator::LimitedByBus(s) => {
                let mut r = to_chars("Device capable of ");
                extend_str(&mut r, format_speed(s));
                extend_str(&mut r, " but limited by bus speed");
                from_chars(&r)
            },
        }
    }
}

/// A speed by its name.
pub open spec fn speed_name(speed: UsbSpeed) -> Seq<char> {
    if speed.bps == 1_500_000 {
        "1.5 Mbps (Low Speed)"@
    } else if speed.bps == 12_000_000 {
        "12 Mbps (Full Speed)"@
    } else if speed.bps == 480_000_000 {
        "480 Mbps (High Speed)"@
    } else if speed.bps == 5_000_000_000 {
        "5 Gbps (SuperSpeed)"@
    } else if speed.bps >= 10_000_000_000 {
        "10+ Gbps (SuperSpeed+)"@
    } else {
        "Unknown"@
    }
}

/// A speed by its name.
pub fn format_speed(speed: &UsbSpeed) -> (r: &'static str)
    ensures
        r@ == speed_name(*speed),
{
    if speed.bps == 1_500_000 {
        "1.5 Mbps (Low Speed)"
    } else if speed.bps == 12_000_000 {
        "12 Mbps (Full Speed)"
    } else if speed.bps == 480_000_000 {
        "480 Mbps (High Speed)"
    } else if speed.bps == 5_000_000_000 {
        "5 Gbps (SuperSpeed)"
    } else if speed.bps >= 10_000_000_000 {
        "10+ Gbps (SuperSpeed+)"
    } else {
        "Unknown"
    }
}

} // verus!
