//! Non-interactive reports: one window sampled and rendered, once or until
//! interrupted.

pub mod export;
pub mod laws;
pub mod quiet;
pub mod rerun;

use vstd::prelude::*;

use crate::connector::{chain_text, chain_to_text, numbers};
use crate::device::manager::{
    all_distinct, bus_in, bus_kept, device_in, packet_applied, refreshed, row_in, scanned, stays_valid, DeviceManager,
    UsbBus,
};
use crate::device::{text_of, EndpointStats, UsbDevice};
use crate::filter::{set_wants_device, FilterSet, Wanted};
use crate::number::{decimal, fixed_text, hex4, round_ratio, rounded, to_decimal, to_fixed, to_hex4};
use crate::order::{sort, sorted, Ranked};
use crate::speed::UsbSpeed;
use crate::stats::capped;
use crate::sysfs::Sysfs;
use crate::text::{extend, extend_str, from_chars, to_chars};
use crate::usbmon::UsbPacket;

verus! {

/// How a run reports.
#[derive(Debug, Clone, Copy, PartialEq, Eq, Structural)]
pub struct HeadlessOptions {
    pub json: bool,
    pub batch: bool,
    pub window_ms: u64,
    /// Whether readers were started for this run. When they were, a
    /// disconnected packet channel means capture failed, and the run must
    /// fail rather than report zeros forever.
    pub expect_capture: bool,
}

/// One endpoint of a report. `bytes` are those of the window.
#[derive(Debug)]
pub struct EndpointReport {
    pub endpoint: u8,
    pub direction: &'static str,
    pub transfer_type: &'static str,
    pub bytes: u64,
    pub total_bytes: u64,
}

/// One device of a report. `rx_bytes` and `tx_bytes` are those of the window.
#[derive(Debug)]
pub struct DeviceReport {
    pub bus: u8,
    pub address: u8,
    pub port: Option<String>,
    pub vendor_id: Option<String>,
    pub product_id: Option<String>,
    pub vendor: Option<String>,
    pub product: Option<String>,
    pub speed: UsbSpeed,
    pub rx_bytes: u64,
    pub tx_bytes: u64,
    pub total_rx_bytes: u64,
    pub total_tx_bytes: u64,
    pub estimated: bool,
    /// `true` or `false` when an internal-device snapshot was loaded and this
    /// device did or did not match it; `None` when no snapshot exists.
    pub internal: Option<bool>,
    pub endpoints: Vec<EndpointReport>,
}

/// One bus of a report.
#[derive(Debug)]
pub struct BusReport {
    pub bus: u8,
    pub speed: UsbSpeed,
    pub controller: Option<String>,
    pub rx_bytes: u64,
    pub tx_bytes: u64,
    pub devices: Vec<DeviceReport>,
}

/// One window's report. A rate is a byte count of the window over
/// `window_ns` nanoseconds.
#[derive(Debug)]
pub struct Report {
    pub version: u32,
    pub timestamp_ms: u64,
    pub window_ns: u64,
    pub source: &'static str,
    pub dropped_packets: u64,
    pub total_rx_bytes: u64,
    pub total_tx_bytes: u64,
    pub buses: Vec<BusReport>,
}

/// What an `EndpointReport` says.
pub struct EndpointLine {
    pub endpoint: u8,
    pub direction: Seq<char>,
    pub transfer_type: Seq<char>,
    pub bytes: u64,
    pub total_bytes: u64,
}

impl View for EndpointReport {
    type V = EndpointLine;

    open spec fn view(&self) -> EndpointLine {
        EndpointLine {
            endpoint: self.endpoint,
            direction: self.direction@,
            transfer_type: self.transfer_type@,
            bytes: self.bytes,
            total_bytes: self.total_bytes,
        }
    }
}

/// What a `DeviceReport` says.
pub struct DeviceLine {
    pub bus: u8,
    pub address: u8,
    pub port: Option<Seq<char>>,
    pub vendor_id: Option<Seq<char>>,
    pub product_id: Option<Seq<char>>,
    pub vendor: Option<Seq<char>>,
    pub product: Option<Seq<char>>,
    pub speed: UsbSpeed,
    pub rx_bytes: u64,
    pub tx_bytes: u64,
    pub total_rx_bytes: u64,
    pub total_tx_bytes: u64,
    pub estimated: bool,
    pub internal: Option<bool>,
    pub endpoints: Seq<EndpointLine>,
}

impl View for DeviceReport {
    type V = DeviceLine;

    open spec fn view(&self) -> DeviceLine {
        DeviceLine {
            bus: self.bus,
            address: self.address,
            port: text_of(self.port),
            vendor_id: text_of(self.vendor_id),
            product_id: text_of(self.product_id),
            vendor: text_of(self.vendor),
            product: text_of(self.product),
            speed: self.speed,
            rx_bytes: self.rx_bytes,
            tx_bytes: self.tx_bytes,
            total_rx_bytes: self.total_rx_bytes,
            total_tx_bytes: self.total_tx_bytes,
            estimated: self.estimated,
            internal: self.internal,
            endpoints: self.endpoints@.map_values(|e: EndpointReport| e@),
        }
    }
}

/// What a `BusReport` says.
pub struct BusLine {
    pub bus: u8,
    pub speed: UsbSpeed,
    pub controller: Option<Seq<char>>,
    pub rx_bytes: u64,
    pub tx_bytes: u64,
    pub devices: Seq<DeviceLine>,
}

impl View for BusReport {
    type V = BusLine;

    open spec fn view(&self) -> BusLine {
        BusLine {
            bus: self.bus,
            speed: self.speed,
            controller: text_of(self.controller),
            rx_bytes: self.rx_bytes,
            tx_bytes: self.tx_bytes,
            devices: self.devices@.map_values(|d: DeviceReport| d@),
        }
    }
}

/// A device's totals when a window began.
#[derive(Debug, Clone, Copy, PartialEq, Eq, Structural)]
pub struct DeviceTotal {
    pub bus_id: u8,
    pub device_id: u8,
    pub rx: u64,
    pub tx: u64,
}

/// An endpoint's total when a window began.
#[derive(Debug, Clone, Copy, PartialEq, Eq, Structural)]
pub struct EndpointTotal {
    pub bus_id: u8,
    pub device_id: u8,
    pub endpoint: u8,
    pub dir_in: bool,
    pub bytes: u64,
}

/// Cumulative totals at window start, so report rates are exact
/// bytes-in-window over window seconds.
#[derive(Debug)]
pub struct Baseline {
    pub device_totals: Vec<DeviceTotal>,
    pub endpoint_totals: Vec<EndpointTotal>,
}

/// The totals of the first entry for an address.
pub open spec fn total_in(v: Seq<DeviceTotal>, bus_id: u8, device_id: u8) -> Option<DeviceTotal>
    decreases v.len(),
{
    if v.len() == 0 {
        None
    } else if v[0].bus_id == bus_id && v[0].device_id == device_id {
        Some(v[0])
    } else {
        total_in(v.skip(1), bus_id, device_id)
    }
}

/// The bytes of the first entry for an endpoint.
pub open spec fn endpoint_total_in(
    v: Seq<EndpointTotal>,
    bus_id: u8,
    device_id: u8,
    endpoint: u8,
    dir_in: bool,
) -> Option<u64>
    decreases v.len(),
{
    if v.len() == 0 {
        None
    } else if v[0].bus_id == bus_id && v[0].device_id == device_id && v[0].endpoint == endpoint && v[0].dir_in
        == dir_in {
        Some(v[0].bytes)
    } else {
        endpoint_total_in(v.skip(1), bus_id, device_id, endpoint, dir_in)
    }
}

/// The totals of a bus's devices.
pub open spec fn bus_totals(bus_id: u8, devices: Seq<UsbDevice>) -> Seq<DeviceTotal> {
    devices.map_values(
        |d: UsbDevice|
            DeviceTotal {
                bus_id,
                device_id: d.device_id,
                rx: d.bandwidth_stats.total_rx_bytes,
                tx: d.bandwidth_stats.total_tx_bytes,
            },
    )
}

/// The totals of every device, bus after bus.
pub open spec fn all_totals(buses: Seq<UsbBus>) -> Seq<DeviceTotal>
    decreases buses.len(),
{
    if buses.len() == 0 {
        Seq::empty()
    } else {
        all_totals(buses.drop_last()) + bus_totals(buses.last().bus_id, buses.last().devices@)
    }
}

/// The endpoint totals of a device.
pub open spec fn device_endpoint_totals(bus_id: u8, device_id: u8, v: Seq<EndpointStats>) -> Seq<EndpointTotal> {
    v.map_values(
        |e: EndpointStats|
            EndpointTotal { bus_id, device_id, endpoint: e.endpoint, dir_in: e.dir_in, bytes: e.total_bytes },
    )
}

/// The endpoint totals of a bus's devices.
pub open spec fn bus_endpoint_totals(bus_id: u8, devices: Seq<UsbDevice>) -> Seq<EndpointTotal>
    decreases devices.len(),
{
    if devices.len() == 0 {
        Seq::empty()
    } else {
        bus_endpoint_totals(bus_id, devices.drop_last()) + device_endpoint_totals(
            bus_id,
            devices.last().device_id,
            devices.last().endpoints@,
        )
    }
}

/// The endpoint totals of every device, bus after bus.
pub open spec fn all_endpoint_totals(buses: Seq<UsbBus>) -> Seq<EndpointTotal>
    decreases buses.len(),
{
    if buses.len() == 0 {
        Seq::empty()
    } else {
        all_endpoint_totals(buses.drop_last()) + bus_endpoint_totals(
            buses.last().bus_id,
            buses.last().devices@,
        )
    }
}

impl Baseline {
    /// A device's totals at window start.
    pub open spec fn device(self, bus_id: u8, device_id: u8) -> Option<DeviceTotal> {
        total_in(self.device_totals@, bus_id, device_id)
    }

    /// An endpoint's total at window start.
    pub open spec fn endpoint(self, bus_id: u8, device_id: u8, endpoint: u8, dir_in: bool) -> Option<u64> {
        endpoint_total_in(self.endpoint_totals@, bus_id, device_id, endpoint, dir_in)
    }

    /// Note every device's and endpoint's totals as they stand right now.
    pub fn capture(manager: &DeviceManager) -> (b: Baseline)
        ensures
            b.device_totals@ == all_totals(manager.buses@),
            b.endpoint_totals@ == all_endpoint_totals(manager.buses@),
    {
        let mut device_totals: Vec<DeviceTotal> = Vec::new();
        let mut endpoint_totals: Vec<EndpointTotal> = Vec::new();
        let buses = &manager.buses;
        let mut i: usize = 0;
        assert(buses@.take(0) == Seq::<UsbBus>::empty());
        while i < buses.len()
            invariant
                i <= buses.len(),
                device_totals@ == all_totals(buses@.take(i as int)),
                endpoint_totals@ == all_endpoint_totals(buses@.take(i as int)),
            decreases buses.len() - i,
        {
            assert(buses@.take(i + 1).drop_last() == buses@.take(i as int));
            let bus = &buses[i];
            let ghost before = device_totals@;
            let ghost before_endpoints = endpoint_totals@;
            let ghost added = bus_totals(bus.bus_id, bus.devices@);
            let mut j: usize = 0;
            assert(bus.devices@.take(0) == Seq::<UsbDevice>::empty());
            assert(before + added.take(0) == before);
            assert(before_endpoints + bus_endpoint_totals(bus.bus_id, bus.devices@.take(0)) == before_endpoints);
            while j < bus.devices.len()
                invariant
                    j <= bus.devices.len(),
                    added == bus_totals(bus.bus_id, bus.devices@),
                    device_totals@ == before + added.take(j as int),
                    endpoint_totals@ == before_endpoints + bus_endpoint_totals(
                        bus.bus_id,
                        bus.devices@.take(j as int),
                    ),
                decreases bus.devices.len() - j,
            {
                let device = &bus.devices[j];
                assert(bus.devices@.take(j + 1).drop_last() == bus.devices@.take(j as int));
                device_totals.push(
                    DeviceTotal {
                        bus_id: bus.bus_id,
                        device_id: device.device_id,
                        rx: device.bandwidth_stats.total_rx_bytes,
                        tx: device.bandwidth_stats.total_tx_bytes,
                    },
                );
                assert(added.take(j + 1) == added.take(j as int).push(added[j as int]));
                assert(device_totals@ =~= before + added.take(j + 1));
                let ghost mid = endpoint_totals@;
                let ghost more = device_endpoint_totals(bus.bus_id, device.device_id, device.endpoints@);
                let mut k: usize = 0;
                assert(mid + more.take(0) == mid);
                while k < device.endpoints.len()
                    invariant
                        k <= device.endpoints.len(),
                        more == device_endpoint_totals(bus.bus_id, device.device_id, device.endpoints@),
                        endpoint_totals@ == mid + more.take(k as int),
                    decreases device.endpoints.len() - k,
                {
                    let e = &device.endpoints[k];
                    endpoint_totals.push(
                        EndpointTotal {
                            bus_id: bus.bus_id,
                            device_id: device.device_id,
                            endpoint: e.endpoint,
                            dir_in: e.dir_in,
                            bytes: e.total_bytes,
                        },
                    );
                    assert(more.take(k + 1) == more.take(k as int).push(more[k as int]));
                    assert(endpoint_totals@ =~= mid + more.take(k + 1));
                    k = k + 1;
                }
                assert(more.take(more.len() as int) == more);
                assert(mid + more =~= before_endpoints + (bus_endpoint_totals(
                    bus.bus_id,
                    bus.devices@.take(j as int),
                ) + more));
                j = j + 1;
            }
            assert(added.take(added.len() as int) == added);
            assert(bus.devices@.take(bus.devices@.len() as int) == bus.devices@);
            i = i + 1;
        }
        assert(buses@.take(buses@.len() as int) == buses@);
        Baseline { device_totals, endpoint_totals }
    }

    fn find_device(&self, bus_id: u8, device_id: u8) -> (r: Option<DeviceTotal>)
        ensures
            r == self.device(bus_id, device_id),
    {
        let v = &self.device_totals;
        let mut i: usize = 0;
        assert(v@.skip(0) == v@);
        while i < v.len()
            invariant
                i <= v.len(),
                v@ == self.device_totals@,
                total_in(v@, bus_id, device_id) == total_in(v@.skip(i as int), bus_id, device_id),
            decreases v.len() - i,
        {
            if v[i].bus_id == bus_id && v[i].device_id == device_id {
                return Some(v[i]);
            }
            assert(v@.skip(i as int).skip(1) == v@.skip(i + 1));
            i = i + 1;
        }
        None
    }

    fn find_endpoint(&self, bus_id: u8, device_id: u8, endpoint: u8, dir_in: bool) -> (r: Option<u64>)
        ensures
            r == self.endpoint(bus_id, device_id, endpoint, dir_in),
    {
        let v = &self.endpoint_totals;
        let mut i: usize = 0;
        assert(v@.skip(0) == v@);
        while i < v.len()
            invariant
                i <= v.len(),
                v@ == self.endpoint_totals@,
                endpoint_total_in(v@, bus_id, device_id, endpoint, dir_in) == endpoint_total_in(
                    v@.skip(i as int),
                    bus_id,
                    device_id,
                    endpoint,
                    dir_in,
                ),
            decreases v.len() - i,
        {
            if v[i].bus_id == bus_id && v[i].device_id == device_id && v[i].endpoint == endpoint && v[i].dir_in
                == dir_in {
                return Some(v[i].bytes);
            }
            assert(v@.skip(i as int).skip(1) == v@.skip(i + 1));
            i = i + 1;
        }
        None
    }
}

/// The bytes that moved in the window. A missing baseline (first seen
/// mid-window) counts as a zero start, and a total below its start as none.
pub open spec fn moved(start: Option<u64>, now: u64) -> u64 {
    match start {
        Some(s) => if now >= s {
            (now - s) as u64
        } else {
            0
        },
        None => now,
    }
}

/// The bytes that moved in the window.
fn windowed_bytes(start: Option<u64>, now: u64) -> (r: u64)
    ensures
        r == moved(start, now),
{
    match start {
        Some(s) => now.saturating_sub(s),
        None => now,
    }
}

/// Which chain stands first: numbers compare in turn, and a chain stands
/// before those it starts.
pub open spec fn chain_le(a: Seq<nat>, b: Seq<nat>) -> bool
    decreases a.len(),
{
    if a.len() == 0 {
        true
    } else if b.len() == 0 {
        false
    } else if a[0] != b[0] {
        a[0] < b[0]
    } else {
        chain_le(a.skip(1), b.skip(1))
    }
}

pub proof fn lemma_chain_le(a: Seq<nat>, b: Seq<nat>, c: Seq<nat>)
    ensures
        chain_le(a, b) || chain_le(b, a),
        chain_le(a, b) && chain_le(b, c) ==> chain_le(a, c),
        chain_le(a, b) && chain_le(b, a) ==> a == b,
    decreases a.len() + b.len() + c.len(),
{
    if a.len() > 0 && b.len() > 0 && a[0] == b[0] {
        let c1 = if c.len() > 0 {
            c.skip(1)
        } else {
            c
        };
        lemma_chain_le(a.skip(1), b.skip(1), c1);
        if a.skip(1) == b.skip(1) {
            assert(a =~= seq![a[0]] + a.skip(1));
            assert(b =~= seq![b[0]] + b.skip(1));
        }
    }
    if a.len() == 0 && b.len() == 0 {
        assert(a =~= b);
    }
}

fn chain_not_after(a: &Vec<u32>, b: &Vec<u32>) -> (r: bool)
    ensures
        r == chain_le(numbers(a@), numbers(b@)),
{
    let ghost x = numbers(a@);
    let ghost y = numbers(b@);
    let mut i: usize = 0;
    assert(x.skip(0) == x);
    assert(y.skip(0) == y);
    while i < a.len() && i < b.len()
        invariant
            i <= a.len(),
            i <= b.len(),
            x == numbers(a@),
            y == numbers(b@),
            chain_le(x, y) == chain_le(x.skip(i as int), y.skip(i as int)),
        decreases a.len() - i,
    {
        assert(x.skip(i as int)[0] == a@[i as int] as nat);
        assert(y.skip(i as int)[0] == b@[i as int] as nat);
        if a[i] != b[i] {
            return a[i] < b[i];
        }
        assert(x.skip(i as int).skip(1) == x.skip(i + 1));
        assert(y.skip(i as int).skip(1) == y.skip(i + 1));
        i = i + 1;
    }
    i >= a.len()
}

/// Whether `a` is listed no later than `b`: rows without a port last, then
/// by port chain, then by address.
pub open spec fn listed_before(a: UsbDevice, b: UsbDevice) -> bool {
    match (a.chain(), b.chain()) {
        (None, None) => a.device_id <= b.device_id,
        (None, Some(_)) => false,
        (Some(_), None) => true,
        (Some(x), Some(y)) => if x == y {
            a.device_id <= b.device_id
        } else {
            chain_le(x, y)
        },
    }
}

impl<'a> Ranked for &'a UsbDevice {
    open spec fn le(self, other: Self) -> bool {
        listed_before(*self, *other)
    }

    fn is_le(&self, other: &Self) -> (r: bool) {
        match (self.port_chain(), other.port_chain()) {
            (None, None) => self.device_id <= other.device_id,
            (None, Some(_)) => false,
            (Some(_), None) => true,
            (Some(x), Some(y)) => {
                let le = chain_not_after(&x, &y);
                let ge = chain_not_after(&y, &x);
                proof {
                    lemma_chain_le(numbers(x@), numbers(y@), numbers(x@));
                }
                if le && ge {
                    self.device_id <= other.device_id
                } else {
                    le
                }
            },
        }
    }

    proof fn le_total(a: Self, b: Self) {
        match (a.chain(), b.chain()) {
            (Some(x), Some(y)) => {
                lemma_chain_le(x, y, x);
            },
            _ => {},
        }
    }

    proof fn le_transitive(a: Self, b: Self, c: Self) {
        match (a.chain(), b.chain(), c.chain()) {
            (Some(x), Some(y), Some(z)) => {
                lemma_chain_le(x, y, z);
                lemma_chain_le(y, z, x);
                lemma_chain_le(z, y, x);
            },
            _ => {},
        }
    }
}

impl<'a> Ranked for &'a UsbBus {
    open spec fn le(self, other: Self) -> bool {
        self.bus_id <= other.bus_id
    }

    fn is_le(&self, other: &Self) -> (r: bool) {
        self.bus_id <= other.bus_id
    }

    proof fn le_total(a: Self, b: Self) {
    }

    proof fn le_transitive(a: Self, b: Self, c: Self) {
    }
}

/// The line of an endpoint.
pub open spec fn endpoint_line(bus_id: u8, device_id: u8, e: EndpointStats, baseline: Baseline) -> EndpointLine {
    EndpointLine {
        endpoint: e.endpoint,
        direction: if e.dir_in {
            "in"@
        } else {
            "out"@
        },
        transfer_type: e.transfer_type.name(),
        bytes: moved(baseline.endpoint(bus_id, device_id, e.endpoint, e.dir_in), e.total_bytes),
        total_bytes: e.total_bytes,
    }
}

/// An id as four hexadecimal digits.
pub open spec fn id_text(id: Option<u16>) -> Option<Seq<char>> {
    match id {
        Some(n) => Some(hex4(n as nat)),
        None => None,
    }
}

/// The line of a device.
pub open spec fn device_line(
    bus_id: u8,
    d: UsbDevice,
    baseline: Baseline,
    text_active: bool,
    snapshot_loaded: bool,
) -> DeviceLine {
    let start = baseline.device(bus_id, d.device_id);
    DeviceLine {
        bus: bus_id,
        address: d.device_id,
        port: match d.chain() {
            Some(chain) => Some(chain_text(chain)),
            None => None,
        },
        vendor_id: id_text(d.vendor_id),
        product_id: id_text(d.product_id),
        vendor: text_of(d.vendor),
        product: text_of(d.product),
        speed: d.speed,
        rx_bytes: moved(
            match start {
                Some(t) => Some(t.rx),
                None => None,
            },
            d.bandwidth_stats.total_rx_bytes,
        ),
        tx_bytes: moved(
            match start {
                Some(t) => Some(t.tx),
                None => None,
            },
            d.bandwidth_stats.total_tx_bytes,
        ),
        total_rx_bytes: d.bandwidth_stats.total_rx_bytes,
        total_tx_bytes: d.bandwidth_stats.total_tx_bytes,
        estimated: text_active && d.carries_iso(),
        internal: if snapshot_loaded {
            Some(d.is_internal)
        } else {
            None
        },
        endpoints: d.endpoints@.map_values(|e: EndpointStats| endpoint_line(bus_id, d.device_id, e, baseline)),
    }
}

/// The devices that the filter shows.
pub open spec fn shown<'a>(devices: Seq<UsbDevice>, filter: Seq<Wanted>) -> Seq<&'a UsbDevice>
    decreases devices.len(),
{
    if devices.len() == 0 {
        Seq::empty()
    } else if set_wants_device(filter, devices.last()) {
        shown(devices.drop_last(), filter).push(&devices.last())
    } else {
        shown(devices.drop_last(), filter)
    }
}

/// The lines of a bus's devices, in listing order.
pub open spec fn device_lines(
    bus: UsbBus,
    baseline: Baseline,
    text_active: bool,
    snapshot_loaded: bool,
    filter: Seq<Wanted>,
) -> Seq<DeviceLine> {
    sorted(shown(bus.devices@, filter)).map_values(
        |d: &UsbDevice| device_line(bus.bus_id, *d, baseline, text_active, snapshot_loaded),
    )
}

/// The window's received bytes of several devices; a sum that would overflow
/// stays at the maximum.
pub open spec fn rx_sum(lines: Seq<DeviceLine>) -> u64
    decreases lines.len(),
{
    if lines.len() == 0 {
        0
    } else {
        capped(rx_sum(lines.drop_last()) + lines.last().rx_bytes)
    }
}

/// The window's sent bytes of several devices.
pub open spec fn tx_sum(lines: Seq<DeviceLine>) -> u64
    decreases lines.len(),
{
    if lines.len() == 0 {
        0
    } else {
        capped(tx_sum(lines.drop_last()) + lines.last().tx_bytes)
    }
}

/// The line of a bus.
pub open spec fn bus_line(
    bus: UsbBus,
    baseline: Baseline,
    text_active: bool,
    snapshot_loaded: bool,
    filter: Seq<Wanted>,
) -> BusLine {
    let devices = device_lines(bus, baseline, text_active, snapshot_loaded, filter);
    BusLine {
        bus: bus.bus_id,
        speed: bus.speed,
        controller: text_of(bus.controller),
        rx_bytes: rx_sum(devices),
        tx_bytes: tx_sum(devices),
        devices,
    }
}

/// The lines of several buses; one with no device to show is left out.
pub open spec fn bus_lines(
    buses: Seq<&UsbBus>,
    baseline: Baseline,
    text_active: bool,
    snapshot_loaded: bool,
    filter: Seq<Wanted>,
) -> Seq<BusLine>
    decreases buses.len(),
{
    if buses.len() == 0 {
        Seq::empty()
    } else {
        let front = bus_lines(buses.drop_last(), baseline, text_active, snapshot_loaded, filter);
        let line = bus_line(*buses.last(), baseline, text_active, snapshot_loaded, filter);
        if line.devices.len() == 0 {
            front
        } else {
            front.push(line)
        }
    }
}

/// The window's received bytes of several buses.
pub open spec fn bus_rx_sum(lines: Seq<BusLine>) -> u64
    decreases lines.len(),
{
    if lines.len() == 0 {
        0
    } else {
        capped(bus_rx_sum(lines.drop_last()) + lines.last().rx_bytes)
    }
}

/// The window's sent bytes of several buses.
pub open spec fn bus_tx_sum(lines: Seq<BusLine>) -> u64
    decreases lines.len(),
{
    if lines.len() == 0 {
        0
    } else {
        capped(bus_tx_sum(lines.drop_last()) + lines.last().tx_bytes)
    }
}

/// References to each bus.
pub open spec fn bus_refs<'a>(buses: Seq<UsbBus>) -> Seq<&'a UsbBus> {
    buses.map_values(|b: UsbBus| &b)
}

fn optional_hex(id: Option<u16>) -> (r: Option<String>)
    ensures
        text_of(r) == id_text(id),
{
    match id {
        None => None,
        Some(n) => {
            let digits = to_hex4(n);
            Some(from_chars(&digits))
        },
    }
}

fn report_device(
    bus_id: u8,
    device: &UsbDevice,
    baseline: &Baseline,
    text_active: bool,
    snapshot_loaded: bool,
) -> (r: DeviceReport)
    ensures
        r@ == device_line(bus_id, *device, *baseline, text_active, snapshot_loaded),
{
    let start = baseline.find_device(bus_id, device.device_id);
    let (rx_start, tx_start) = match start {
        Some(t) => (Some(t.rx), Some(t.tx)),
        None => (None, None),
    };
    let mut endpoints: Vec<EndpointReport> = Vec::new();
    let ghost lines = device.endpoints@.map_values(
        |e: EndpointStats| endpoint_line(bus_id, device.device_id, e, *baseline),
    );
    let mut i: usize = 0;
    assert(endpoints@.map_values(|e: EndpointReport| e@) =~= lines.take(0));
    while i < device.endpoints.len()
        invariant
            i <= device.endpoints.len(),
            lines == device.endpoints@.map_values(
                |e: EndpointStats| endpoint_line(bus_id, device.device_id, e, *baseline),
            ),
            endpoints@.map_values(|e: EndpointReport| e@) == lines.take(i as int),
        decreases device.endpoints.len() - i,
    {
        let e = &device.endpoints[i];
        let begun = baseline.find_endpoint(bus_id, device.device_id, e.endpoint, e.dir_in);
        let line = EndpointReport {
            endpoint: e.endpoint,
            direction: if e.dir_in {
                "in"
            } else {
                "out"
            },
            transfer_type: e.transfer_type.label(),
            bytes: windowed_bytes(begun, e.total_bytes),
            total_bytes: e.total_bytes,
        };
        let ghost before = endpoints@.map_values(|e: EndpointReport| e@);
        assert(line@ == lines[i as int]);
        endpoints.push(line);
        assert(endpoints@.map_values(|e: EndpointReport| e@) =~= before.push(line@));
        assert(lines.take(i + 1) =~= lines.take(i as int).push(lines[i as int]));
        i = i + 1;
    }
    assert(lines.take(lines.len() as int) =~= lines);
    let port = match device.port_chain() {
        None => None,
        Some(chain) => {
            let t = chain_to_text(&chain);
            Some(from_chars(&t))
        },
    };
    DeviceReport {
        bus: bus_id,
        address: device.device_id,
        port,
        vendor_id: optional_hex(device.vendor_id),
        product_id: optional_hex(device.product_id),
        vendor: device.vendor.clone(),
        product: device.product.clone(),
        speed: device.speed,
        rx_bytes: windowed_bytes(rx_start, device.bandwidth_stats.total_rx_bytes),
        tx_bytes: windowed_bytes(tx_start, device.bandwidth_stats.total_tx_bytes),
        total_rx_bytes: device.bandwidth_stats.total_rx_bytes,
        total_tx_bytes: device.bandwidth_stats.total_tx_bytes,
        estimated: text_active && device.has_iso_traffic(),
        internal: if snapshot_loaded {
            Some(device.is_internal)
        } else {
            None
        },
        endpoints,
    }
}

fn report_bus(
    bus: &UsbBus,
    baseline: &Baseline,
    text_active: bool,
    snapshot_loaded: bool,
    filter: &FilterSet,
) -> (r: BusReport)
    ensures
        r@ == bus_line(*bus, *baseline, text_active, snapshot_loaded, filter@),
{
    let mut picked: Vec<&UsbDevice> = Vec::new();
    let mut i: usize = 0;
    assert(bus.devices@.take(0) =~= Seq::<UsbDevice>::empty());
    while i < bus.devices.len()
        invariant
            i <= bus.devices.len(),
            picked@ == shown(bus.devices@.take(i as int), filter@),
        decreases bus.devices.len() - i,
    {
        assert(bus.devices@.take(i + 1).drop_last() =~= bus.devices@.take(i as int));
        if filter.matches_device(&bus.devices[i]) {
            picked.push(&bus.devices[i]);
        }
        i = i + 1;
    }
    assert(bus.devices@.take(bus.devices@.len() as int) =~= bus.devices@);
    let ordered = sort(picked);
    let ghost lines = device_lines(*bus, *baseline, text_active, snapshot_loaded, filter@);
    let mut devices: Vec<DeviceReport> = Vec::new();
    let mut rx_bytes: u64 = 0;
    let mut tx_bytes: u64 = 0;
    let mut k: usize = 0;
    assert(devices@.map_values(|d: DeviceReport| d@) =~= lines.take(0));
    while k < ordered.len()
        invariant
            k <= ordered.len(),
            ordered@ == sorted(shown(bus.devices@, filter@)),
            lines == device_lines(*bus, *baseline, text_active, snapshot_loaded, filter@),
            devices@.map_values(|d: DeviceReport| d@) == lines.take(k as int),
            rx_bytes == rx_sum(lines.take(k as int)),
            tx_bytes == tx_sum(lines.take(k as int)),
        decreases ordered.len() - k,
    {
        let line = report_device(bus.bus_id, ordered[k], baseline, text_active, snapshot_loaded);
        rx_bytes = rx_bytes.saturating_add(line.rx_bytes);
        tx_bytes = tx_bytes.saturating_add(line.tx_bytes);
        let ghost before = devices@.map_values(|d: DeviceReport| d@);
        assert(line@ == lines[k as int]);
        devices.push(line);
        assert(devices@.map_values(|d: DeviceReport| d@) =~= before.push(line@));
        assert(lines.take(k + 1) =~= lines.take(k as int).push(lines[k as int]));
        assert(lines.take(k + 1).drop_last() =~= lines.take(k as int));
        k = k + 1;
    }
    assert(lines.take(lines.len() as int) =~= lines);
    BusReport {
        bus: bus.bus_id,
        speed: bus.speed,
        controller: bus.controller.clone(),
        rx_bytes,
        tx_bytes,
        devices,
    }
}

/// Whether a report tells what happened in a window since its baseline.
pub open spec fn tells_window(
    r: Report,
    manager: DeviceManager,
    baseline: Baseline,
    elapsed_ns: u64,
    timestamp_ms: u64,
    source: Seq<char>,
    dropped: u64,
    text_active: bool,
    wanted: Seq<Wanted>,
) -> bool {
    let lines = r.buses@.map_values(|b: BusReport| b@);
    &&& r.version == 1
    &&& r.timestamp_ms == timestamp_ms
    &&& r.window_ns == (if elapsed_ns < 1_000_000 {
        1_000_000
    } else {
        elapsed_ns
    })
    &&& r.source@ == source
    &&& r.dropped_packets == dropped
    &&& lines == bus_lines(
        sorted(bus_refs(manager.buses@)),
        baseline,
        text_active,
        manager.internal_snapshot is Some,
        wanted,
    )
    &&& r.total_rx_bytes == bus_rx_sum(lines)
    &&& r.total_tx_bytes == bus_tx_sum(lines)
}

/// Build one report from the manager's current state and a `baseline` taken
/// at the start of the window. `elapsed_ns` is the measured time since the
/// baseline was taken, not the nominal window: a signal can end a window
/// early. Floored at one millisecond, so a window of no time divides by
/// something.
pub fn build_report(
    manager: &DeviceManager,
    baseline: &Baseline,
    elapsed_ns: u64,
    timestamp_ms: u64,
    source: &'static str,
    dropped: u64,
    text_active: bool,
    filter: &FilterSet,
) -> (r: Report)
    ensures
        tells_window(
            r,
            *manager,
            *baseline,
            elapsed_ns,
            timestamp_ms,
            source@,
            dropped,
            text_active,
            filter@,
        ),
{
    let snapshot_loaded = manager.has_internal_snapshot();
    let window_ns: u64 = if elapsed_ns < 1_000_000 {
        1_000_000
    } else {
        elapsed_ns
    };
    let mut refs: Vec<&UsbBus> = Vec::new();
    let mut i: usize = 0;
    let ghost all = bus_refs(manager.buses@);
    assert(refs@ =~= all.take(0));
    while i < manager.buses.len()
        invariant
            i <= manager.buses.len(),
            all == bus_refs(manager.buses@),
            refs@ == all.take(i as int),
        decreases manager.buses.len() - i,
    {
        refs.push(&manager.buses[i]);
        assert(all.take(i + 1) =~= all.take(i as int).push(all[i as int]));
        i = i + 1;
    }
    assert(all.take(all.len() as int) =~= all);
    let ordered = sort(refs);
    let mut buses: Vec<BusReport> = Vec::new();
    let mut total_rx_bytes: u64 = 0;
    let mut total_tx_bytes: u64 = 0;
    let mut k: usize = 0;
    let ghost lines = |n: int|
        bus_lines(ordered@.take(n), *baseline, text_active, snapshot_loaded, filter@);
    assert(ordered@.take(0) =~= Seq::<&UsbBus>::empty());
    assert(buses@.map_values(|b: BusReport| b@) =~= lines(0));
    while k < ordered.len()
        invariant
            k <= ordered.len(),
            lines == (|n: int| bus_lines(ordered@.take(n), *baseline, text_active, snapshot_loaded, filter@)),
            buses@.map_values(|b: BusReport| b@) == lines(k as int),
            total_rx_bytes == bus_rx_sum(lines(k as int)),
            total_tx_bytes == bus_tx_sum(lines(k as int)),
        decreases ordered.len() - k,
    {
        assert(ordered@.take(k + 1).drop_last() =~= ordered@.take(k as int));
        let line = report_bus(ordered[k], baseline, text_active, snapshot_loaded, filter);
        let ghost before = buses@.map_values(|b: BusReport| b@);
        assert(line.devices@.len() == line@.devices.len());
        if line.devices.len() > 0 {
            total_rx_bytes = total_rx_bytes.saturating_add(line.rx_bytes);
            total_tx_bytes = total_tx_bytes.saturating_add(line.tx_bytes);
            buses.push(line);
            assert(buses@.map_values(|b: BusReport| b@) =~= before.push(line@));
            assert(before.push(line@).drop_last() =~= before);
        }
        k = k + 1;
    }
    assert(ordered@.take(ordered@.len() as int) =~= ordered@);
    Report {
        version: 1,
        timestamp_ms,
        window_ns,
        source,
        dropped_packets: dropped,
        total_rx_bytes,
        total_tx_bytes,
        buses,
    }
}

/// Window bytes over `window_ns` as MB/s with two places.
pub open spec fn rate_text(bytes: u64, window_ns: u64) -> Seq<char> {
    fixed_text(rounded(bytes as nat * 100_000, window_ns as nat), 100, 2)
}

/// A speed in Mbps: bare when whole, with one place when not.
pub open spec fn mbps_text(speed: UsbSpeed) -> Seq<char> {
    if speed.bps % 1_000_000 == 0 {
        decimal(speed.bps as nat / 1_000_000) + " Mbps"@
    } else {
        fixed_text(rounded(speed.bps as nat, 100_000), 10, 1) + " Mbps"@
    }
}

/// `vid:pid`, or dashes when one is missing.
pub open spec fn ids_text(d: DeviceLine) -> Seq<char> {
    match (d.vendor_id, d.product_id) {
        (Some(v), Some(p)) => v + ":"@ + p,
        _ => "----:----"@,
    }
}

/// Vendor and product, as far as they are known.
pub open spec fn names_text(d: DeviceLine) -> Seq<char> {
    match (d.vendor, d.product) {
        (Some(v), Some(p)) => v + " "@ + p,
        (Some(v), None) => v,
        (None, Some(p)) => p,
        (None, None) => "Unknown"@,
    }
}

/// The row of a device.
pub open spec fn device_text(d: DeviceLine, window_ns: u64) -> Seq<char> {
    "  "@ + decimal(d.bus as nat) + ":"@ + decimal(d.address as nat) + "  "@ + (if d.internal == Some(true) {
        "i"@
    } else {
        " "@
    }) + "  "@ + ids_text(d) + "  "@ + mbps_text(d.speed) + "  "@ + (if d.estimated {
        "~rx"@
    } else {
        "rx"@
    }) + " "@ + rate_text(d.rx_bytes, window_ns) + " MB/s  "@ + (if d.estimated {
        "~tx"@
    } else {
        "tx"@
    }) + " "@ + rate_text(d.tx_bytes, window_ns) + " MB/s  "@ + names_text(d) + "\n"@
}

/// The rows of several devices.
pub open spec fn device_texts(lines: Seq<DeviceLine>, window_ns: u64) -> Seq<char>
    decreases lines.len(),
{
    if lines.len() == 0 {
        Seq::empty()
    } else {
        device_texts(lines.drop_last(), window_ns) + device_text(lines.last(), window_ns)
    }
}

/// The header of a bus and its rows.
pub open spec fn bus_text(b: BusLine, window_ns: u64) -> Seq<char> {
    "bus "@ + decimal(b.bus as nat) + " ("@ + mbps_text(b.speed) + ") rx "@ + rate_text(b.rx_bytes, window_ns)
        + " MB/s tx "@ + rate_text(b.tx_bytes, window_ns) + " MB/s\n"@ + device_texts(b.devices, window_ns)
}

/// The text of several buses.
pub open spec fn bus_texts(lines: Seq<BusLine>, window_ns: u64) -> Seq<char>
    decreases lines.len(),
{
    if lines.len() == 0 {
        Seq::empty()
    } else {
        bus_texts(lines.drop_last(), window_ns) + bus_text(lines.last(), window_ns)
    }
}

/// A report as text.
pub open spec fn report_text(r: Report) -> Seq<char> {
    "ts="@ + fixed_text(r.timestamp_ms as nat, 1000, 3) + " window="@ + fixed_text(
        rounded(r.window_ns as nat, 10_000_000),
        100,
        2,
    ) + "s source="@ + r.source@ + " dropped="@ + decimal(r.dropped_packets as nat) + "\n"@ + bus_texts(
        r.buses@.map_values(|b: BusReport| b@),
        r.window_ns,
    ) + "\n"@
}

fn push_number(out: &mut Vec<char>, n: u64)
    ensures
        final(out)@ == old(out)@ + decimal(n as nat),
{
    let d = to_decimal(n);
    extend(out, &d);
}

fn rate(bytes: u64, window_ns: u64) -> (r: Vec<char>)
    requires
        window_ns > 0,
    ensures
        r@ == rate_text(bytes, window_ns),
{
    let hundredths = round_ratio(bytes as u128 * 100_000, window_ns as u128);
    to_fixed(hundredths, 100, 2)
}

fn mbps(speed: UsbSpeed) -> (r: Vec<char>)
    ensures
        r@ == mbps_text(speed),
{
    let mut r: Vec<char>;
    if speed.bps % 1_000_000 == 0 {
        r = to_decimal(speed.bps / 1_000_000);
    } else {
        let tenths = round_ratio(speed.bps as u128, 100_000);
        r = to_fixed(tenths, 10, 1);
    }
    extend_str(&mut r, " Mbps");
    r
}

fn push_device(out: &mut Vec<char>, d: &DeviceReport, window_ns: u64)
    requires
        window_ns > 0,
    ensures
        final(out)@ == old(out)@ + device_text(d@, window_ns),
{
    let mut r = to_chars("  ");
    push_number(&mut r, d.bus as u64);
    extend_str(&mut r, ":");
    push_number(&mut r, d.address as u64);
    extend_str(&mut r, "  ");
    let inside = match d.internal {
        Some(b) => b,
        None => false,
    };
    if inside {
        extend_str(&mut r, "i");
    } else {
        extend_str(&mut r, " ");
    }
    extend_str(&mut r, "  ");
    let ids = match (&d.vendor_id, &d.product_id) {
        (Some(v), Some(p)) => {
            let mut t = to_chars(v.as_str());
            extend_str(&mut t, ":");
            extend_str(&mut t, p.as_str());
            t
        },
        _ => to_chars("----:----"),
    };
    extend(&mut r, &ids);
    extend_str(&mut r, "  ");
    let speed = mbps(d.speed);
    extend(&mut r, &speed);
    extend_str(&mut r, "  ");
    if d.estimated {
        extend_str(&mut r, "~rx");
    } else {
        extend_str(&mut r, "rx");
    }
    extend_str(&mut r, " ");
    let rx = rate(d.rx_bytes, window_ns);
    extend(&mut r, &rx);
    extend_str(&mut r, " MB/s  ");
    if d.estimated {
        extend_str(&mut r, "~tx");
    } else {
        extend_str(&mut r, "tx");
    }
    extend_str(&mut r, " ");
    let tx = rate(d.tx_bytes, window_ns);
    extend(&mut r, &tx);
    extend_str(&mut r, " MB/s  ");
    let name = match (&d.vendor, &d.product) {
        (Some(v), Some(p)) => {
            let mut t = to_chars(v.as_str());
            extend_str(&mut t, " ");
            extend_str(&mut t, p.as_str());
            t
        },
        (Some(v), None) => to_chars(v.as_str()),
        (None, Some(p)) => to_chars(p.as_str()),
        (None, None) => to_chars("Unknown"),
    };
    extend(&mut r, &name);
    extend_str(&mut r, "\n");
    assert(r@ == device_text(d@, window_ns));
    extend(out, &r);
}

fn push_bus(out: &mut Vec<char>, b: &BusReport, window_ns: u64)
    requires
        window_ns > 0,
    ensures
        final(out)@ == old(out)@ + bus_text(b@, window_ns),
{
    let mut r = to_chars("bus ");
    push_number(&mut r, b.bus as u64);
    extend_str(&mut r, " (");
    let speed = mbps(b.speed);
    extend(&mut r, &speed);
    extend_str(&mut r, ") rx ");
    let rx = rate(b.rx_bytes, window_ns);
    extend(&mut r, &rx);
    extend_str(&mut r, " MB/s tx ");
    let tx = rate(b.tx_bytes, window_ns);
    extend(&mut r, &tx);
    extend_str(&mut r, " MB/s\n");
    let ghost head = r@;
    let ghost lines = b@.devices;
    let mut i: usize = 0;
    assert(lines.take(0) =~= Seq::<DeviceLine>::empty());
    assert(r@ =~= head + device_texts(lines.take(0), window_ns));
    while i < b.devices.len()
        invariant
            i <= b.devices.len(),
            window_ns > 0,
            lines == b@.devices,
            r@ == head + device_texts(lines.take(i as int), window_ns),
        decreases b.devices.len() - i,
    {
        assert(lines[i as int] == b.devices@[i as int]@);
        assert(lines.take(i + 1).drop_last() =~= lines.take(i as int));
        let ghost before = device_texts(lines.take(i as int), window_ns);
        push_device(&mut r, &b.devices[i], window_ns);
        assert(r@ =~= head + (before + device_text(lines[i as int], window_ns)));
        i = i + 1;
    }
    assert(lines.take(lines.len() as int) =~= lines);
    extend(out, &r);
}

/// Render a report as plain text: a `ts=` line, one header per bus, and one
/// indented row per device. `~rx` and `~tx` mark a device whose rate is
/// estimated.
pub fn render_text(report: &Report) -> (r: String)
    requires
        report.window_ns > 0,
    ensures
        r@ == report_text(*report),
{
    let mut out = to_chars("ts=");
    let ts = to_fixed(report.timestamp_ms as u128, 1000, 3);
    extend(&mut out, &ts);
    extend_str(&mut out, " window=");
    let hundredths = round_ratio(report.window_ns as u128, 10_000_000);
    let window = to_fixed(hundredths, 100, 2);
    extend(&mut out, &window);
    extend_str(&mut out, "s source=");
    extend_str(&mut out, report.source);
    extend_str(&mut out, " dropped=");
    push_number(&mut out, report.dropped_packets);
    extend_str(&mut out, "\n");
    let ghost head = out@;
    let ghost lines = report.buses@.map_values(|b: BusReport| b@);
    let mut i: usize = 0;
    assert(lines.take(0) =~= Seq::<BusLine>::empty());
    assert(out@ =~= head + bus_texts(lines.take(0), report.window_ns));
    while i < report.buses.len()
        invariant
            i <= report.buses.len(),
            report.window_ns > 0,
            lines == report.buses@.map_values(|b: BusReport| b@),
            out@ == head + bus_texts(lines.take(i as int), report.window_ns),
        decreases report.buses.len() - i,
    {
        assert(lines[i as int] == report.buses@[i as int]@);
        assert(lines.take(i + 1).drop_last() =~= lines.take(i as int));
        let ghost before = bus_texts(lines.take(i as int), report.window_ns);
        push_bus(&mut out, &report.buses[i], report.window_ns);
        assert(out@ =~= head + (before + bus_text(lines[i as int], report.window_ns)));
        i = i + 1;
    }
    assert(lines.take(lines.len() as int) =~= lines);
    extend_str(&mut out, "\n");
    from_chars(&out)
}

/// What one attempt to take an event from the readers gave.
#[derive(Debug, Clone, Copy, PartialEq, Eq, Structural)]
pub enum Received {
    Packet(UsbPacket),
    Empty,
    Disconnected,
}

/// How a drain pass ended. `Disconnected` means the queue is empty and every
/// reader has exited, so no packet can ever arrive again.
#[derive(Debug, Clone, Copy, PartialEq, Eq, Structural)]
pub enum DrainStatus {
    Alive,
    Disconnected,
}

/// How many packets come before the first attempt that gave none.
pub open spec fn packets_before_stop(received: Seq<Received>) -> nat
    decreases received.len(),
{
    if received.len() == 0 || !(received[0] is Packet) {
        0
    } else {
        1 + packets_before_stop(received.skip(1))
    }
}

/// What one packet does to the manager.
pub open spec fn packet_step(
    before: DeviceManager,
    packet: UsbPacket,
    sysfs: Sysfs,
    now_ms: u64,
    after: DeviceManager,
) -> bool {
    &&& after.same_settings(before)
    &&& after.row(packet.bus_id, packet.device_id) matches Some(row) && packet_applied(
        before,
        packet,
        sysfs,
        now_ms,
        row,
    )
    &&& forall|b: u8, d: u8|
        b != packet.bus_id || d != packet.device_id ==> #[trigger] after.row(b, d) == before.row(b, d)
    &&& forall|b: u8| bus_kept(before.buses@, #[trigger] bus_in(after.buses@, b), b)
    &&& forall|b: u8| b != packet.bus_id ==> #[trigger] bus_in(after.buses@, b) == bus_in(before.buses@, b)
    &&& stays_valid(before.buses@, after.buses@)
}

/// What the first `n` events do to the manager, one after another.
pub open spec fn packets_applied(
    before: DeviceManager,
    received: Seq<Received>,
    n: int,
    sysfs: Sysfs,
    now_ms: u64,
    after: DeviceManager,
) -> bool
    decreases n,
{
    if n <= 0 {
        after == before
    } else {
        exists|mid: DeviceManager|
            packets_applied(before, received, n - 1, sysfs, now_ms, mid) && #[trigger] packet_step(
                mid,
                received[n - 1]->Packet_0,
                sysfs,
                now_ms,
                after,
            )
    }
}

proof fn lemma_packets_before_stop(received: Seq<Received>, k: int)
    requires
        0 <= k <= received.len(),
        forall|j: int| 0 <= j < k ==> (#[trigger] received[j]) is Packet,
        k < received.len() ==> !(received[k] is Packet),
    ensures
        packets_before_stop(received) == k,
    decreases received.len(),
{
    if k > 0 {
        assert(received[0] is Packet);
        let t = received.skip(1);
        assert forall|j: int| 0 <= j < k - 1 implies (#[trigger] t[j]) is Packet by {
            assert(t[j] == received[j + 1]);
        }
        lemma_packets_before_stop(t, k - 1);
    }
}

/// One bounded drain pass over what a round of attempts gave. Queued packets
/// are always consumed before a disconnect surfaces, so nothing a dying
/// reader captured is lost.
pub fn drain(manager: &mut DeviceManager, received: &Vec<Received>, sysfs: &Sysfs, now_ms: u64) -> (r: DrainStatus)
    ensures
        ({
            let n = packets_before_stop(received@) as int;
            &&& packets_applied(*old(manager), received@, n, *sysfs, now_ms, *final(manager))
            &&& r is Disconnected <==> n < received@.len() && received@[n] is Disconnected
        }),
        stays_valid(old(manager).buses@, final(manager).buses@),
{
    let mut i: usize = 0;
    while i < received.len()
        invariant
            i <= received.len(),
            forall|j: int| 0 <= j < i ==> (#[trigger] received@[j]) is Packet,
            packets_applied(*old(manager), received@, i as int, *sysfs, now_ms, *manager),
            stays_valid(old(manager).buses@, manager.buses@),
        decreases received.len() - i,
    {
        match received[i] {
            Received::Packet(packet) => {
                let ghost mid = *manager;
                manager.apply_packet(&packet, sysfs, now_ms);
                assert(packet_step(mid, packet, *sysfs, now_ms, *manager));
                assert(received@[i + 1 - 1]->Packet_0 == packet);
            },
            Received::Empty => {
                proof {
                    lemma_packets_before_stop(received@, i as int);
                }
                return DrainStatus::Alive;
            },
            Received::Disconnected => {
                proof {
                    lemma_packets_before_stop(received@, i as int);
                }
                return DrainStatus::Disconnected;
            },
        }
        i = i + 1;
    }
    proof {
        lemma_packets_before_stop(received@, i as int);
    }
    DrainStatus::Alive
}

/// Why writing a report failed.
#[derive(Debug)]
pub enum WriteFailure {
    /// The reader of the output left.
    BrokenPipe,
    Other(String),
}

/// Whether a write error is expected and should end the run quietly. Only a
/// broken pipe is routine: anything else means the report was not written.
pub fn is_expected_write_failure(failure: &WriteFailure) -> (r: bool)
    ensures
        r == (failure is BrokenPipe),
{
    match failure {
        WriteFailure::BrokenPipe => true,
        WriteFailure::Other(_) => false,
    }
}

/// Why a run failed.
#[derive(Debug)]
pub enum RunError {
    /// Every reader stopped although capture was expected.
    NoCaptureSource,
    Write(String),
}

impl RunError {
    /// The sentence shown to the user.
    pub fn message(&self) -> (r: String)
        ensures
            r@ == (match self {
                RunError::NoCaptureSource => "every usbmon reader stopped; no capture source remains"@,
                RunError::Write(why) => why@,
            }),
    {
        match self {
            RunError::NoCaptureSource => "every usbmon reader stopped; no capture source remains".to_owned(),
            RunError::Write(why) => why.clone(),
        }
    }
}

/// What a run does next.
#[derive(Debug)]
pub enum RunStep {
    /// Go on sampling.
    Continue,
    /// End, successfully.
    Done,
    /// End with an error.
    Fail(RunError),
}

/// What a run does after a drain pass: a zero report after a capture failure
/// would read as a quiet bus, so a run that expected capture fails.
pub fn after_drain(status: DrainStatus, opts: &HeadlessOptions) -> (r: RunStep)
    ensures
        r == (if status is Disconnected && opts.expect_capture {
            RunStep::Fail(RunError::NoCaptureSource)
        } else {
            RunStep::Continue
        }),
{
    match status {
        DrainStatus::Disconnected => if opts.expect_capture {
            RunStep::Fail(RunError::NoCaptureSource)
        } else {
            RunStep::Continue
        },
        DrainStatus::Alive => RunStep::Continue,
    }
}

/// Opens a window: every present device gets its row, and the totals as they
/// stand are the baseline.
pub fn open_window(manager: &mut DeviceManager, sysfs: &Sysfs, now_ms: u64) -> (b: Baseline)
    ensures
        scanned(*old(manager), *sysfs, now_ms, *final(manager)),
        stays_valid(old(manager).buses@, final(manager).buses@),
        b.device_totals@ == all_totals(final(manager).buses@),
        b.endpoint_totals@ == all_endpoint_totals(final(manager).buses@),
{
    manager.enumerate_present_devices(sysfs, now_ms);
    Baseline::capture(manager)
}

/// The rows that a window ends with: the last packets from `before`, then one
/// scan, then the maintenance of a tick.
pub open spec fn settled(
    before: DeviceManager,
    received: Seq<Received>,
    sysfs: Sysfs,
    now_ms: u64,
    after: DeviceManager,
) -> bool {
    exists|fed: DeviceManager, listed: DeviceManager, dropped: Seq<(u8, u8)>|
        {
            &&& packets_applied(before, received, packets_before_stop(received) as int, sysfs, now_ms, fed)
            &&& #[trigger] scanned(fed, sysfs, now_ms, listed)
            &&& after.same_settings(listed)
            &&& #[trigger] refreshed(listed, sysfs, now_ms, after.buses@, dropped)
        }
}

/// Closes a window: drains what is left, brings the rows up to date and
/// reports. The report's window is the measured time, not the nominal one. A
/// run that expected capture fails when every reader stopped.
pub fn close_window(
    manager: &mut DeviceManager,
    received: &Vec<Received>,
    sysfs: &Sysfs,
    now_ms: u64,
    baseline: &Baseline,
    elapsed_ns: u64,
    timestamp_ms: u64,
    dropped: u64,
    text_active: bool,
    filter: &FilterSet,
    opts: &HeadlessOptions,
) -> (r: Result<Report, RunError>)
    ensures
        ({
            let n = packets_before_stop(received@) as int;
            let stopped = n < received@.len() && received@[n] is Disconnected;
            match r {
                Err(e) => {
                    &&& stopped && opts.expect_capture
                    &&& e is NoCaptureSource
                    &&& packets_applied(*old(manager), received@, n, *sysfs, now_ms, *final(manager))
                },
                Ok(report) => {
                    &&& !(stopped && opts.expect_capture)
                    &&& settled(*old(manager), received@, *sysfs, now_ms, *final(manager))
                    &&& tells_window(
                        report,
                        *final(manager),
                        *baseline,
                        elapsed_ns,
                        timestamp_ms,
                        label_of(text_active),
                        dropped,
                        text_active,
                        filter@,
                    )
                },
            }
        }),
        stays_valid(old(manager).buses@, final(manager).buses@),
{
    let status = drain(manager, received, sysfs, now_ms);
    let ghost fed = *manager;
    if let RunStep::Fail(e) = after_drain(status, opts) {
        return Err(e);
    }
    manager.enumerate_present_devices(sysfs, now_ms);
    let ghost listed = *manager;
    assert(scanned(fed, *sysfs, now_ms, listed));
    let gone = manager.refresh(sysfs, now_ms);
    assert(refreshed(listed, *sysfs, now_ms, manager.buses@, gone@));
    let source = source_label(text_active);
    Ok(build_report(manager, baseline, elapsed_ns, timestamp_ms, source, dropped, text_active, filter))
}

/// What a run does after it wrote a report: a broken pipe ends it quietly,
/// another failure is an error, and a single report or a signal ends it.
pub fn after_emit(written: Result<(), WriteFailure>, opts: &HeadlessOptions, stopped: bool) -> (r: RunStep)
    ensures
        match written {
            Err(WriteFailure::BrokenPipe) => r is Done,
            Err(WriteFailure::Other(why)) => r == RunStep::Fail(RunError::Write(why)),
            Ok(_) => if !opts.batch || stopped {
                r is Done
            } else {
                r is Continue
            },
        },
{
    match written {
        Err(failure) => {
            if is_expected_write_failure(&failure) {
                return RunStep::Done;
            }
            match failure {
                WriteFailure::BrokenPipe => RunStep::Done,
                WriteFailure::Other(why) => RunStep::Fail(RunError::Write(why)),
            }
        },
        Ok(_) => if !opts.batch || stopped {
            RunStep::Done
        } else {
            RunStep::Continue
        },
    }
}

/// The source label of a report.
pub open spec fn label_of(text_active: bool) -> Seq<char> {
    if text_active {
        "text"@
    } else {
        "binary"@
    }
}

/// The source label of a report.
pub fn source_label(text_active: bool) -> (r: &'static str)
    ensures
        r@ == label_of(text_active),
{
    if text_active {
        "text"
    } else {
        "binary"
    }
}

proof fn lemma_total_in_append(a: Seq<DeviceTotal>, b: Seq<DeviceTotal>, bus_id: u8, device_id: u8)
    ensures
        total_in(a + b, bus_id, device_id) == (match total_in(a, bus_id, device_id) {
            Some(t) => Some(t),
            None => total_in(b, bus_id, device_id),
        }),
    decreases a.len(),
{
    if a.len() == 0 {
        assert(a + b =~= b);
    } else {
        assert((a + b).skip(1) =~= a.skip(1) + b);
        lemma_total_in_append(a.skip(1), b, bus_id, device_id);
    }
}

proof fn lemma_total_in_bus(bus_id: u8, devices: Seq<UsbDevice>, b: u8, d: u8)
    ensures
        total_in(bus_totals(bus_id, devices), b, d) == (if b != bus_id {
            None
        } else {
            match device_in(devices, d) {
                Some(x) => Some(
                    DeviceTotal {
                        bus_id,
                        device_id: d,
                        rx: x.bandwidth_stats.total_rx_bytes,
                        tx: x.bandwidth_stats.total_tx_bytes,
                    },
                ),
                None => None,
            }
        }),
    decreases devices.len(),
{
    let v = bus_totals(bus_id, devices);
    if devices.len() > 0 {
        assert(v.skip(1) =~= bus_totals(bus_id, devices.skip(1)));
        lemma_total_in_bus(bus_id, devices.skip(1), b, d);
    }
}

proof fn lemma_bus_in_back(buses: Seq<UsbBus>, id: u8)
    requires
        buses.len() > 0,
    ensures
        bus_in(buses, id) == (match bus_in(buses.drop_last(), id) {
            Some(b) => Some(b),
            None => if buses.last().bus_id == id {
                Some(buses.last())
            } else {
                None
            },
        }),
        bus_in(buses.drop_last(), id) is Some ==> exists|i: int|
            0 <= i < buses.len() - 1 && (#[trigger] buses[i]).bus_id == id,
    decreases buses.len(),
{
    let front = buses.drop_last();
    if front.len() == 0 {
        assert(buses.skip(1) =~= Seq::<UsbBus>::empty());
        assert(bus_in(buses.skip(1), id) is None);
    } else {
        lemma_bus_in_back(buses.skip(1), id);
        assert(buses.skip(1).drop_last() =~= front.skip(1));
        if front[0].bus_id == id {
            assert(buses[0].bus_id == id);
        } else if bus_in(front, id) is Some {
            let i = choose|i: int|
                0 <= i < buses.skip(1).len() - 1 && (#[trigger] buses.skip(1)[i]).bus_id == id;
            assert(buses[i + 1].bus_id == id);
        }
    }
}

/// A captured baseline knows exactly the rows there are, with their totals.
pub proof fn law_baseline_knows_every_row(buses: Seq<UsbBus>, b: u8, d: u8)
    requires
        all_distinct(buses),
    ensures
        total_in(all_totals(buses), b, d) == (match row_in(buses, b, d) {
            Some(x) => Some(
                DeviceTotal {
                    bus_id: b,
                    device_id: d,
                    rx: x.bandwidth_stats.total_rx_bytes,
                    tx: x.bandwidth_stats.total_tx_bytes,
                },
            ),
            None => None,
        }),
    decreases buses.len(),
{
    if buses.len() > 0 {
        let front = buses.drop_last();
        let last = buses.last();
        assert(all_distinct(front)) by {
            assert forall|i: int| 0 <= i < front.len() implies crate::device::manager::devices_distinct(
                (#[trigger] front[i]).devices@,
            ) by {
                assert(front[i] == buses[i]);
            }
        }
        law_baseline_knows_every_row(front, b, d);
        lemma_total_in_append(all_totals(front), bus_totals(last.bus_id, last.devices@), b, d);
        lemma_total_in_bus(last.bus_id, last.devices@, b, d);
        lemma_bus_in_back(buses, b);
        if bus_in(front, b) is Some {
            let i = choose|i: int| 0 <= i < buses.len() - 1 && (#[trigger] buses[i]).bus_id == b;
            assert(buses[i].bus_id != buses[buses.len() - 1].bus_id);
        }
    }
}

} // verus!
