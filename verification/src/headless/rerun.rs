//! Replaying a bundle twice gives one report, whenever the replays run.

use vstd::prelude::*;

use crate::connector::position_of;
use crate::device::manager::{
    accounted, all_distinct, bus_in, bus_kept, bus_speed_read, device_in, devices_distinct, discovered, dressed,
    endpoints_in_order, enumerated, fastest, introduced, is_unknown, names_applied, packet_delta, row_in, scanned,
    speeds_read, stamped, stays_valid, touched, windows_agree, DeviceManager, TrafficDelta, UsbBus,
};
use crate::device::{
    directory_read, endpoint_facts, endpoint_rank, endpoints_after, first_entry_of, metadata_read, placed, sysfs_read,
    text_of, EndpointFacts, UsbDevice,
};
use crate::filter::Wanted;
use crate::fixture_replay::{
    fresh, knows_nothing, played, replay_label, replayed, replayed_packets, tells_replay, FixtureSource,
};
use crate::headless::{
    bus_line, bus_lines, bus_refs, chain_le, device_line, device_lines, endpoint_line, lemma_chain_le, listed_before,
    packet_step, shown, tells_window, Baseline, BusReport, Report,
};
use crate::order::{is_order, lemma_rank, lemma_sorted, rank, sorted, sorted_by};
use crate::path::name_of;
use crate::snapshot::Snapshot;
use crate::speed::UsbSpeed;
use crate::stats::Sample;
use crate::sysfs::{Node, Sysfs};
use crate::usbmon::{TransferType, UsbPacket};

verus! {

/// What an endpoint has carried, whenever that was.
struct Tally {
    endpoint: u8,
    dir_in: bool,
    transfer_type: TransferType,
    total_bytes: u64,
}

/// What a report reads of a row: everything but when it happened.
struct RowFacts {
    bus_id: u8,
    device_id: u8,
    vendor_id: Option<u16>,
    product_id: Option<u16>,
    vendor: Option<Seq<char>>,
    product: Option<Seq<char>>,
    speed: UsbSpeed,
    rx: u64,
    tx: u64,
    path: Option<Seq<char>>,
    is_internal: bool,
    tallies: Seq<Tally>,
}

spec fn tally(e: EndpointFacts) -> Tally {
    Tally { endpoint: e.endpoint, dir_in: e.dir_in, transfer_type: e.transfer_type, total_bytes: e.total_bytes }
}

spec fn tallies(v: Seq<EndpointFacts>) -> Seq<Tally> {
    v.map_values(|e: EndpointFacts| tally(e))
}

spec fn facts(d: UsbDevice) -> RowFacts {
    RowFacts {
        bus_id: d.bus_id,
        device_id: d.device_id,
        vendor_id: d.vendor_id,
        product_id: d.product_id,
        vendor: text_of(d.vendor),
        product: text_of(d.product),
        speed: d.speed,
        rx: d.bandwidth_stats.total_rx_bytes,
        tx: d.bandwidth_stats.total_tx_bytes,
        path: text_of(d.sysfs_path),
        is_internal: d.is_internal,
        tallies: tallies(endpoint_facts(d.endpoints@)),
    }
}

spec fn facts_of(d: Option<UsbDevice>) -> Option<RowFacts> {
    match d {
        Some(x) => Some(facts(x)),
        None => None,
    }
}

/// Whether two buses say the same of themselves, apart from their devices.
spec fn same_bus(a: Option<UsbBus>, b: Option<UsbBus>) -> bool {
    match (a, b) {
        (Some(x), Some(y)) => x.speed == y.speed && text_of(x.controller) == text_of(y.controller),
        (None, None) => true,
        _ => false,
    }
}

/// Whether two managers hold the same buses and rows.
spec fn same_rows(a: Seq<UsbBus>, b: Seq<UsbBus>) -> bool {
    &&& all_distinct(a)
    &&& all_distinct(b)
    &&& forall|id: u8| #![trigger bus_in(a, id)] #![trigger bus_in(b, id)] same_bus(bus_in(a, id), bus_in(b, id))
    &&& forall|id: u8, d: u8|
        #![trigger row_in(a, id, d)]
        #![trigger row_in(b, id, d)]
        facts_of(row_in(a, id, d)) == facts_of(row_in(b, id, d))
}

/// Whether a manager is set up as a replay sets it up.
spec fn set_for_replay(m: DeviceManager, snapshot: Option<Snapshot>) -> bool {
    &&& m.filter@ == Seq::<Wanted>::empty()
    &&& m.usbids is None
    &&& m.internal_snapshot == snapshot
}

proof fn lemma_same_tallies(
    v: Seq<EndpointFacts>,
    w: Seq<EndpointFacts>,
    endpoint: u8,
    dir_in: bool,
    transfer_type: TransferType,
    s: Sample,
    t: Sample,
)
    requires
        tallies(v) == tallies(w),
        s.bytes == t.bytes,
    ensures
        tallies(endpoints_after(v, endpoint, dir_in, transfer_type, s)) == tallies(
            endpoints_after(w, endpoint, dir_in, transfer_type, t),
        ),
    decreases v.len(),
{
    assert(tallies(v).len() == v.len() && tallies(w).len() == w.len());
    let a = endpoints_after(v, endpoint, dir_in, transfer_type, s);
    let b = endpoints_after(w, endpoint, dir_in, transfer_type, t);
    if v.len() > 0 {
        assert(tally(v[0]) == tallies(v)[0] && tally(w[0]) == tallies(w)[0]);
        assert(tallies(v.skip(1)) =~= tallies(v).skip(1));
        assert(tallies(w.skip(1)) =~= tallies(w).skip(1));
        lemma_same_tallies(v.skip(1), w.skip(1), endpoint, dir_in, transfer_type, s, t);
        let here = endpoint_rank(v[0].endpoint, v[0].dir_in);
        let wanted = endpoint_rank(endpoint, dir_in);
        if here == wanted {
            assert(tallies(a) =~= seq![tally(a[0])] + tallies(v.skip(1)));
            assert(tallies(b) =~= seq![tally(b[0])] + tallies(w.skip(1)));
        } else if wanted < here {
            assert(tallies(a) =~= seq![tally(a[0])] + tallies(v));
            assert(tallies(b) =~= seq![tally(b[0])] + tallies(w));
        } else {
            let x = endpoints_after(v.skip(1), endpoint, dir_in, transfer_type, s);
            let y = endpoints_after(w.skip(1), endpoint, dir_in, transfer_type, t);
            assert(tallies(a) =~= seq![tally(v[0])] + tallies(x));
            assert(tallies(b) =~= seq![tally(w[0])] + tallies(y));
        }
    } else {
        assert(tallies(a) =~= seq![tally(a[0])]);
        assert(tallies(b) =~= seq![tally(b[0])]);
    }
}

proof fn lemma_same_directory(a: UsbDevice, b: UsbDevice, sysfs: Sysfs, entry: Node, c: UsbDevice, d: UsbDevice)
    requires
        facts(a) == facts(b),
        directory_read(a, sysfs, entry, c),
        directory_read(b, sysfs, entry, d),
    ensures
        facts(c) == facts(d),
{
    let x = choose|mid: UsbDevice| #[trigger]
        placed(a, sysfs.path_of(entry.name@), mid) && metadata_read(mid, entry.children(), c);
    let y = choose|mid: UsbDevice| #[trigger]
        placed(b, sysfs.path_of(entry.name@), mid) && metadata_read(mid, entry.children(), d);
    assert(facts(x) == facts(y));
    assert(c.sysfs_path == x.sysfs_path && d.sysfs_path == y.sysfs_path);
    assert(c.speed.bps == d.speed.bps);
}

proof fn lemma_same_dress(a: UsbDevice, b: UsbDevice, snapshot: Option<Snapshot>, c: UsbDevice, d: UsbDevice)
    requires
        facts(a) == facts(b),
        dressed(a, None, snapshot, c),
        dressed(b, None, snapshot, d),
    ensures
        facts(c) == facts(d),
{
    let x = choose|named: UsbDevice| #[trigger] names_applied(a, None, named) && c == stamped(named, snapshot);
    let y = choose|named: UsbDevice| #[trigger] names_applied(b, None, named) && d == stamped(named, snapshot);
    assert(x.name() == y.name()) by {
        match (a.sysfs_path, b.sysfs_path) {
            (Some(p), Some(q)) => {
                assert(p@ == q@);
            },
            _ => {},
        }
    }
}

proof fn lemma_same_discovery(
    bus_id: u8,
    device_id: u8,
    s: u64,
    t: u64,
    sysfs: Sysfs,
    entry: Node,
    snapshot: Option<Snapshot>,
    c: UsbDevice,
    d: UsbDevice,
)
    requires
        discovered(bus_id, device_id, s, sysfs, entry, None, snapshot, c),
        discovered(bus_id, device_id, t, sysfs, entry, None, snapshot, d),
    ensures
        facts(c) == facts(d),
{
    let (a, b) = choose|a: UsbDevice, b: UsbDevice| #[trigger]
        is_unknown(a, bus_id, device_id, s) && #[trigger] directory_read(a, sysfs, entry, b) && dressed(
            b,
            None,
            snapshot,
            c,
        );
    let (e, f) = choose|a: UsbDevice, b: UsbDevice| #[trigger]
        is_unknown(a, bus_id, device_id, t) && #[trigger] directory_read(a, sysfs, entry, b) && dressed(
            b,
            None,
            snapshot,
            d,
        );
    assert(facts(a) == facts(e));
    lemma_same_directory(a, e, sysfs, entry, b, f);
    lemma_same_dress(b, f, snapshot, c, d);
}

proof fn lemma_same_introduction(
    bus_id: u8,
    device_id: u8,
    s: u64,
    t: u64,
    sysfs: Sysfs,
    snapshot: Option<Snapshot>,
    c: UsbDevice,
    d: UsbDevice,
)
    requires
        introduced(bus_id, device_id, s, sysfs, None, snapshot, c),
        introduced(bus_id, device_id, t, sysfs, None, snapshot, d),
    ensures
        facts(c) == facts(d),
{
    let (a, b) = choose|a: UsbDevice, b: UsbDevice| #[trigger]
        is_unknown(a, bus_id, device_id, s) && #[trigger] sysfs_read(a, sysfs, b) && dressed(b, None, snapshot, c);
    let (e, f) = choose|a: UsbDevice, b: UsbDevice| #[trigger]
        is_unknown(a, bus_id, device_id, t) && #[trigger] sysfs_read(a, sysfs, b) && dressed(b, None, snapshot, d);
    assert(facts(a) == facts(e));
    if let Some(entry) = first_entry_of(sysfs.entries@, bus_id, device_id) {
        lemma_same_directory(a, e, sysfs, entry, b, f);
    }
    lemma_same_dress(b, f, snapshot, c, d);
}

proof fn lemma_same_touch(
    a: Option<UsbDevice>,
    b: Option<UsbDevice>,
    bus_id: u8,
    device_id: u8,
    s: u64,
    t: u64,
    sysfs: Sysfs,
    snapshot: Option<Snapshot>,
    c: UsbDevice,
    d: UsbDevice,
)
    requires
        facts_of(a) == facts_of(b),
        touched(a, bus_id, device_id, s, sysfs, None, snapshot, c),
        touched(b, bus_id, device_id, t, sysfs, None, snapshot, d),
    ensures
        facts(c) == facts(d),
{
    if a is None {
        let x = choose|made: UsbDevice| #[trigger]
            introduced(bus_id, device_id, s, sysfs, None, snapshot, made) && c == made.seen(s);
        let y = choose|made: UsbDevice| #[trigger]
            introduced(bus_id, device_id, t, sysfs, None, snapshot, made) && d == made.seen(t);
        lemma_same_introduction(bus_id, device_id, s, t, sysfs, snapshot, x, y);
    }
}

proof fn lemma_same_account(
    a: UsbDevice,
    b: UsbDevice,
    m: DeviceManager,
    n: DeviceManager,
    delta: TrafficDelta,
    s: u64,
    t: u64,
    c: UsbDevice,
    d: UsbDevice,
)
    requires
        facts(a) == facts(b),
        m.filter@.len() == 0,
        n.filter@.len() == 0,
        accounted(a, m.filter, delta, s, c),
        accounted(b, n.filter, delta, t, d),
    ensures
        facts(c) == facts(d),
{
    if delta.bytes > 0 {
        if let Some(transfer_type) = delta.transfer_type {
            lemma_same_tallies(
                endpoint_facts(a.endpoints@),
                endpoint_facts(b.endpoints@),
                delta.endpoint,
                delta.dir_in,
                transfer_type,
                Sample { at_ms: s, bytes: delta.bytes },
                Sample { at_ms: t, bytes: delta.bytes },
            );
        }
    }
}

proof fn lemma_same_packet(
    a: DeviceManager,
    b: DeviceManager,
    packet: UsbPacket,
    sysfs: Sysfs,
    snapshot: Option<Snapshot>,
    s: u64,
    t: u64,
    c: DeviceManager,
    d: DeviceManager,
)
    requires
        same_rows(a.buses@, b.buses@),
        set_for_replay(a, snapshot),
        set_for_replay(b, snapshot),
        packet_step(a, packet, sysfs, s, c),
        packet_step(b, packet, sysfs, t, d),
    ensures
        same_rows(c.buses@, d.buses@),
        set_for_replay(c, snapshot),
        set_for_replay(d, snapshot),
{
    let (bus, dev) = (packet.bus_id, packet.device_id);
    let x = c.row(bus, dev)->0;
    let y = d.row(bus, dev)->0;
    assert(facts_of(row_in(a.buses@, bus, dev)) == facts_of(row_in(b.buses@, bus, dev)));
    match packet_delta(packet) {
        Some(delta) => {
            let m = choose|mid: UsbDevice| #[trigger]
                touched(
                    a.row(delta.bus_id, delta.device_id),
                    delta.bus_id,
                    delta.device_id,
                    s,
                    sysfs,
                    a.usbids,
                    a.internal_snapshot,
                    mid,
                ) && accounted(mid, a.filter, delta, s, x);
            let n = choose|mid: UsbDevice| #[trigger]
                touched(
                    b.row(delta.bus_id, delta.device_id),
                    delta.bus_id,
                    delta.device_id,
                    t,
                    sysfs,
                    b.usbids,
                    b.internal_snapshot,
                    mid,
                ) && accounted(mid, b.filter, delta, t, y);
            lemma_same_touch(a.row(bus, dev), b.row(bus, dev), bus, dev, s, t, sysfs, snapshot, m, n);
            lemma_same_account(m, n, a, b, delta, s, t, x, y);
        },
        None => {
            lemma_same_touch(a.row(bus, dev), b.row(bus, dev), bus, dev, s, t, sysfs, snapshot, x, y);
        },
    }
    assert forall|id: u8, k: u8|
        #![trigger row_in(c.buses@, id, k)]
        #![trigger row_in(d.buses@, id, k)]
        facts_of(row_in(c.buses@, id, k)) == facts_of(row_in(d.buses@, id, k)) by {
        if id != bus || k != dev {
            assert(c.row(id, k) == a.row(id, k));
            assert(d.row(id, k) == b.row(id, k));
            assert(facts_of(row_in(a.buses@, id, k)) == facts_of(row_in(b.buses@, id, k)));
        }
    }
    assert forall|id: u8|
        #![trigger bus_in(c.buses@, id)]
        #![trigger bus_in(d.buses@, id)]
        same_bus(bus_in(c.buses@, id), bus_in(d.buses@, id)) by {
        assert(same_bus(bus_in(a.buses@, id), bus_in(b.buses@, id)));
        assert(bus_kept(a.buses@, bus_in(c.buses@, id), id));
        assert(bus_kept(b.buses@, bus_in(d.buses@, id), id));
        if id == bus {
            assert(c.row(id, dev) is Some && d.row(id, dev) is Some);
        }
    }
}

proof fn lemma_same_play(
    a: DeviceManager,
    b: DeviceManager,
    packets: Seq<UsbPacket>,
    n: int,
    sysfs: Sysfs,
    snapshot: Option<Snapshot>,
    s: u64,
    t: u64,
    c: DeviceManager,
    d: DeviceManager,
)
    requires
        same_rows(a.buses@, b.buses@),
        set_for_replay(a, snapshot),
        set_for_replay(b, snapshot),
        played(a, packets, n, sysfs, s, c),
        played(b, packets, n, sysfs, t, d),
    ensures
        same_rows(c.buses@, d.buses@),
        set_for_replay(c, snapshot),
        set_for_replay(d, snapshot),
    decreases n,
{
    if n > 0 {
        let x = choose|mid: DeviceManager|
            played(a, packets, n - 1, sysfs, s, mid) && #[trigger] packet_step(mid, packets[n - 1], sysfs, s, c);
        let y = choose|mid: DeviceManager|
            played(b, packets, n - 1, sysfs, t, mid) && #[trigger] packet_step(mid, packets[n - 1], sysfs, t, d);
        lemma_same_play(a, b, packets, n - 1, sysfs, snapshot, s, t, x, y);
        lemma_same_packet(x, y, packets[n - 1], sysfs, snapshot, s, t, c, d);
    }
}

proof fn lemma_same_scan(
    a: DeviceManager,
    b: DeviceManager,
    sysfs: Sysfs,
    snapshot: Option<Snapshot>,
    s: u64,
    t: u64,
    c: DeviceManager,
    d: DeviceManager,
)
    requires
        same_rows(a.buses@, b.buses@),
        set_for_replay(a, snapshot),
        set_for_replay(b, snapshot),
        scanned(a, sysfs, s, c),
        scanned(b, sysfs, t, d),
    ensures
        same_rows(c.buses@, d.buses@),
        set_for_replay(c, snapshot),
        set_for_replay(d, snapshot),
{
    assert forall|id: u8, k: u8|
        #![trigger row_in(c.buses@, id, k)]
        #![trigger row_in(d.buses@, id, k)]
        facts_of(row_in(c.buses@, id, k)) == facts_of(row_in(d.buses@, id, k)) by {
        assert(enumerated(a, sysfs, sysfs.entries@, s, id, k, c.row(id, k)));
        assert(enumerated(b, sysfs, sysfs.entries@, t, id, k, d.row(id, k)));
        assert(facts_of(row_in(a.buses@, id, k)) == facts_of(row_in(b.buses@, id, k)));
        if a.row(id, k) is None {
            if let Some(entry) = first_entry_of(sysfs.entries@, id, k) {
                lemma_same_discovery(id, k, s, t, sysfs, entry, snapshot, c.row(id, k)->0, d.row(id, k)->0);
            }
        }
    }
    assert forall|id: u8|
        #![trigger bus_in(c.buses@, id)]
        #![trigger bus_in(d.buses@, id)]
        same_bus(bus_in(c.buses@, id), bus_in(d.buses@, id)) by {
        assert(same_bus(bus_in(a.buses@, id), bus_in(b.buses@, id)));
        assert(bus_kept(a.buses@, bus_in(c.buses@, id), id));
        assert(bus_kept(b.buses@, bus_in(d.buses@, id), id));
        assert(bus_in(c.buses@, id) is Some <==> bus_in(d.buses@, id) is Some);
    }
}

proof fn lemma_device_found(devices: Seq<UsbDevice>, i: int)
    requires
        devices_distinct(devices),
        0 <= i < devices.len(),
    ensures
        device_in(devices, devices[i].device_id) == Some(devices[i]),
    decreases devices.len(),
{
    if i > 0 {
        assert(devices[0].device_id != devices[i].device_id);
        let t = devices.skip(1);
        assert forall|x: int, y: int| 0 <= x < y < t.len() implies (#[trigger] t[x]).device_id != (
        #[trigger] t[y]).device_id by {
            assert(t[x] == devices[x + 1] && t[y] == devices[y + 1]);
        }
        assert(t[i - 1] == devices[i]);
        lemma_device_found(t, i - 1);
    }
}

proof fn lemma_device_there(devices: Seq<UsbDevice>, id: u8)
    requires
        device_in(devices, id) is Some,
    ensures
        exists|i: int|
            0 <= i < devices.len() && devices[i] == device_in(devices, id)->0 && (#[trigger] devices[i]).device_id
                == id,
    decreases devices.len(),
{
    if devices[0].device_id != id {
        let t = devices.skip(1);
        lemma_device_there(t, id);
        let i = choose|i: int|
            0 <= i < t.len() && t[i] == device_in(t, id)->0 && (#[trigger] t[i]).device_id == id;
        assert(devices[i + 1] == t[i]);
    }
}

proof fn lemma_bus_found(buses: Seq<UsbBus>, i: int)
    requires
        all_distinct(buses),
        0 <= i < buses.len(),
    ensures
        bus_in(buses, buses[i].bus_id) == Some(buses[i]),
    decreases buses.len(),
{
    if i > 0 {
        assert(buses[0].bus_id != buses[i].bus_id);
        let t = buses.skip(1);
        assert forall|x: int, y: int| 0 <= x < y < t.len() implies (#[trigger] t[x]).bus_id != (
        #[trigger] t[y]).bus_id by {
            assert(t[x] == buses[x + 1] && t[y] == buses[y + 1]);
        }
        assert forall|x: int| 0 <= x < t.len() implies devices_distinct((#[trigger] t[x]).devices@) by {
            assert(t[x] == buses[x + 1]);
        }
        assert(t[i - 1] == buses[i]);
        lemma_bus_found(t, i - 1);
    }
}

proof fn lemma_bus_there(buses: Seq<UsbBus>, id: u8)
    requires
        bus_in(buses, id) is Some,
    ensures
        exists|i: int| 0 <= i < buses.len() && buses[i] == bus_in(buses, id)->0 && (#[trigger] buses[i]).bus_id == id,
    decreases buses.len(),
{
    if buses[0].bus_id != id {
        let t = buses.skip(1);
        lemma_bus_there(t, id);
        let i = choose|i: int| 0 <= i < t.len() && t[i] == bus_in(t, id)->0 && (#[trigger] t[i]).bus_id == id;
        assert(buses[i + 1] == t[i]);
    }
}

/// Whether two buses hold the same rows.
spec fn same_devices(a: Seq<UsbDevice>, b: Seq<UsbDevice>) -> bool {
    &&& devices_distinct(a)
    &&& devices_distinct(b)
    &&& forall|d: u8|
        #![trigger device_in(a, d)]
        #![trigger device_in(b, d)]
        facts_of(device_in(a, d)) == facts_of(device_in(b, d))
}

/// A row on one of two such buses stands on the other.
proof fn lemma_counterpart(a: Seq<UsbDevice>, b: Seq<UsbDevice>, i: int) -> (j: int)
    requires
        same_devices(a, b),
        0 <= i < a.len(),
    ensures
        0 <= j < b.len(),
        facts(a[i]) == facts(b[j]),
{
    let id = a[i].device_id;
    lemma_device_found(a, i);
    assert(facts_of(device_in(a, id)) == facts_of(device_in(b, id)));
    lemma_device_there(b, id);
    choose|j: int| 0 <= j < b.len() && b[j] == device_in(b, id)->0 && (#[trigger] b[j]).device_id == id
}

proof fn lemma_fastest(devices: Seq<UsbDevice>)
    ensures
        forall|i: int| 0 <= i < devices.len() ==> (#[trigger] devices[i]).speed.bps <= fastest(devices).bps,
        fastest(devices).bps == 0 || exists|i: int|
            0 <= i < devices.len() && (#[trigger] devices[i]).speed == fastest(devices),
    decreases devices.len(),
{
    if devices.len() > 0 {
        let front = devices.drop_last();
        lemma_fastest(front);
        assert forall|i: int| 0 <= i < devices.len() implies (#[trigger] devices[i]).speed.bps <= fastest(
            devices,
        ).bps by {
            if i < front.len() {
                assert(devices[i] == front[i]);
            }
        }
        if fastest(devices).bps > 0 {
            if devices.last().speed.bps >= fastest(front).bps {
                assert(devices[devices.len() - 1].speed == fastest(devices));
            } else {
                let i = choose|i: int| 0 <= i < front.len() && (#[trigger] front[i]).speed == fastest(front);
                assert(devices[i].speed == fastest(devices));
            }
        }
    }
}

proof fn lemma_no_faster(a: Seq<UsbDevice>, b: Seq<UsbDevice>)
    requires
        same_devices(a, b),
    ensures
        fastest(a).bps <= fastest(b).bps,
{
    lemma_fastest(a);
    lemma_fastest(b);
    if fastest(a).bps > 0 {
        let i = choose|i: int| 0 <= i < a.len() && (#[trigger] a[i]).speed == fastest(a);
        let j = lemma_counterpart(a, b, i);
        assert(b[j].speed.bps <= fastest(b).bps);
    }
}

/// Asking root hubs finds each bus where it was.
proof fn lemma_bus_after_speeds(before: Seq<UsbBus>, sysfs: Sysfs, after: Seq<UsbBus>, id: u8)
    requires
        speeds_read(before, sysfs, after),
    ensures
        match bus_in(before, id) {
            Some(x) => bus_in(after, id) matches Some(y) && bus_speed_read(x, sysfs, y) && x.bus_id == id,
            None => bus_in(after, id) is None,
        },
    decreases before.len(),
{
    if before.len() > 0 {
        assert(bus_speed_read(before[0], sysfs, after[0]));
        let s = before.skip(1);
        let t = after.skip(1);
        assert forall|i: int| 0 <= i < s.len() implies #[trigger] bus_speed_read(s[i], sysfs, t[i]) by {
            assert(bus_speed_read(before[i + 1], sysfs, after[i + 1]));
        }
        lemma_bus_after_speeds(s, sysfs, t, id);
    }
}

proof fn lemma_same_speeds(a: Seq<UsbBus>, b: Seq<UsbBus>, sysfs: Sysfs, c: Seq<UsbBus>, d: Seq<UsbBus>)
    requires
        same_rows(a, b),
        speeds_read(a, sysfs, c),
        speeds_read(b, sysfs, d),
        all_distinct(c),
        all_distinct(d),
    ensures
        same_rows(c, d),
{
    assert forall|id: u8|
        #![trigger bus_in(c, id)]
        #![trigger bus_in(d, id)]
        same_bus(bus_in(c, id), bus_in(d, id)) by {
        assert(same_bus(bus_in(a, id), bus_in(b, id)));
        lemma_bus_after_speeds(a, sysfs, c, id);
        lemma_bus_after_speeds(b, sysfs, d, id);
        if let (Some(x), Some(y)) = (bus_in(a, id), bus_in(b, id)) {
            lemma_same_on_bus(a, b, id);
            lemma_no_faster(x.devices@, y.devices@);
            lemma_no_faster(y.devices@, x.devices@);
            assert(fastest(x.devices@) == fastest(y.devices@));
        }
    }
    assert forall|id: u8, k: u8|
        #![trigger row_in(c, id, k)]
        #![trigger row_in(d, id, k)]
        facts_of(row_in(c, id, k)) == facts_of(row_in(d, id, k)) by {
        lemma_bus_after_speeds(a, sysfs, c, id);
        lemma_bus_after_speeds(b, sysfs, d, id);
        assert(facts_of(row_in(a, id, k)) == facts_of(row_in(b, id, k)));
        assert(same_bus(bus_in(a, id), bus_in(b, id)));
    }
}

proof fn lemma_same_on_bus(a: Seq<UsbBus>, b: Seq<UsbBus>, id: u8)
    requires
        same_rows(a, b),
        bus_in(a, id) is Some,
        bus_in(b, id) is Some,
    ensures
        same_devices(bus_in(a, id)->0.devices@, bus_in(b, id)->0.devices@),
        same_devices(bus_in(b, id)->0.devices@, bus_in(a, id)->0.devices@),
{
    let x = bus_in(a, id)->0;
    let y = bus_in(b, id)->0;
    lemma_bus_there(a, id);
    lemma_bus_there(b, id);
    assert forall|d: u8|
        #![trigger device_in(x.devices@, d)]
        #![trigger device_in(y.devices@, d)]
        facts_of(device_in(x.devices@, d)) == facts_of(device_in(y.devices@, d)) by {
        assert(facts_of(row_in(a, id, d)) == facts_of(row_in(b, id, d)));
    }
}

/// Sorting entries that differ in their ids puts each strictly before the
/// next, and keeps every one.
proof fn lemma_sorted_apart<A>(s: Seq<A>, le: spec_fn(A, A) -> bool, id: spec_fn(A) -> u8)
    requires
        is_order(le),
        forall|i: int, j: int| 0 <= i < j < s.len() ==> id(#[trigger] s[i]) != id(#[trigger] s[j]),
    ensures
        sorted_by(s, le).len() == s.len(),
        forall|i: int, j: int|
            0 <= i < j < s.len() ==> le(#[trigger] sorted_by(s, le)[i], #[trigger] sorted_by(s, le)[j]) && id(
                sorted_by(s, le)[i],
            ) != id(sorted_by(s, le)[j]),
        forall|i: int| 0 <= i < s.len() ==> s.contains(#[trigger] sorted_by(s, le)[i]),
        forall|i: int| 0 <= i < s.len() ==> sorted_by(s, le).contains(#[trigger] s[i]),
{
    broadcast use vstd::seq_lib::group_to_multiset_ensures;

    let t = sorted_by(s, le);
    lemma_sorted(s, le);
    assert(s.no_duplicates());
    s.lemma_multiset_has_no_duplicates();
    t.lemma_multiset_has_no_duplicates_conv();
    assert forall|i: int| 0 <= i < s.len() implies s.contains(#[trigger] t[i]) by {
        assert(t.contains(t[i]));
        assert(t.to_multiset().count(t[i]) > 0);
        assert(s.to_multiset().count(t[i]) > 0);
    }
    assert forall|i: int| 0 <= i < s.len() implies t.contains(#[trigger] s[i]) by {
        assert(s.contains(s[i]));
        assert(s.to_multiset().count(s[i]) > 0);
        assert(t.to_multiset().count(s[i]) > 0);
    }
    assert forall|i: int, j: int| 0 <= i < j < s.len() implies le(#[trigger] t[i], #[trigger] t[j]) && id(t[i]) != id(
        t[j],
    ) by {
        assert(t[i] != t[j]);
        let x = choose|x: int| 0 <= x < s.len() && s[x] == t[i];
        let y = choose|y: int| 0 <= y < s.len() && s[y] == t[j];
        if x < y {
            assert(id(s[x]) != id(s[y]));
        } else {
            assert(id(s[y]) != id(s[x]));
        }
    }
}

/// Two strictly ordered sequences of the same entries are the same.
proof fn lemma_one_order<T>(a: Seq<T>, b: Seq<T>, lt: spec_fn(T, T) -> bool)
    requires
        forall|x: T, y: T| !(#[trigger] lt(x, y) && lt(y, x)),
        forall|i: int, j: int| 0 <= i < j < a.len() ==> lt(#[trigger] a[i], #[trigger] a[j]),
        forall|i: int, j: int| 0 <= i < j < b.len() ==> lt(#[trigger] b[i], #[trigger] b[j]),
        forall|i: int| 0 <= i < a.len() ==> b.contains(#[trigger] a[i]),
        forall|i: int| 0 <= i < b.len() ==> a.contains(#[trigger] b[i]),
    ensures
        a == b,
    decreases a.len(),
{
    if a.len() == 0 {
        if b.len() > 0 {
            assert(a.contains(b[0]));
        }
        assert(a =~= b);
    } else {
        assert(b.contains(a[0]));
        let j = choose|j: int| 0 <= j < b.len() && b[j] == a[0];
        assert(a.contains(b[0]));
        let i = choose|i: int| 0 <= i < a.len() && a[i] == b[0];
        if j > 0 {
            assert(lt(b[0], b[j]));
            if i > 0 {
                assert(lt(a[0], a[i]));
            }
            assert(false);
        }
        let s = a.skip(1);
        let t = b.skip(1);
        assert forall|x: int| 0 <= x < s.len() implies t.contains(#[trigger] s[x]) by {
            assert(s[x] == a[x + 1]);
            let y = choose|y: int| 0 <= y < b.len() && b[y] == a[x + 1];
            assert(lt(a[0], a[x + 1]));
            assert(y > 0);
            assert(t[y - 1] == s[x]);
        }
        assert forall|x: int| 0 <= x < t.len() implies s.contains(#[trigger] t[x]) by {
            assert(t[x] == b[x + 1]);
            let y = choose|y: int| 0 <= y < a.len() && a[y] == b[x + 1];
            assert(lt(b[0], b[x + 1]));
            assert(y > 0);
            assert(s[y - 1] == t[x]);
        }
        assert forall|x: int, y: int| 0 <= x < y < s.len() implies lt(#[trigger] s[x], #[trigger] s[y]) by {
            assert(lt(a[x + 1], a[y + 1]));
        }
        assert forall|x: int, y: int| 0 <= x < y < t.len() implies lt(#[trigger] t[x], #[trigger] t[y]) by {
            assert(lt(b[x + 1], b[y + 1]));
        }
        lemma_one_order(s, t, lt);
        assert(a =~= seq![a[0]] + s);
        assert(b =~= seq![b[0]] + t);
    }
}

spec fn chain_of(f: RowFacts) -> Option<Seq<nat>> {
    match f.path {
        Some(p) => match name_of(p) {
            Some(n) => match position_of(n) {
                Some((_, chain)) => Some(chain),
                None => None,
            },
            None => None,
        },
        None => None,
    }
}

/// Whether a row is listed before another.
spec fn facts_before(a: RowFacts, b: RowFacts) -> bool {
    &&& a.device_id != b.device_id
    &&& match (chain_of(a), chain_of(b)) {
        (None, None) => a.device_id <= b.device_id,
        (None, Some(_)) => false,
        (Some(_), None) => true,
        (Some(x), Some(y)) => if x == y {
            a.device_id <= b.device_id
        } else {
            chain_le(x, y)
        },
    }
}

proof fn lemma_facts_before(a: RowFacts, b: RowFacts)
    ensures
        !(facts_before(a, b) && facts_before(b, a)),
{
    if let (Some(x), Some(y)) = (chain_of(a), chain_of(b)) {
        lemma_chain_le(x, y, x);
    }
}

proof fn lemma_all_shown(devices: Seq<UsbDevice>)
    ensures
        shown(devices, Seq::<Wanted>::empty()) == devices.map_values(|d: UsbDevice| &d),
    decreases devices.len(),
{
    let refs = devices.map_values(|d: UsbDevice| &d);
    if devices.len() > 0 {
        let front = devices.drop_last();
        lemma_all_shown(front);
        assert(refs =~= front.map_values(|d: UsbDevice| &d).push(&devices.last()));
    } else {
        assert(refs =~= Seq::<&UsbDevice>::empty());
    }
}

/// The rows of a bus in listing order.
spec fn listed<'a>(devices: Seq<UsbDevice>) -> Seq<&'a UsbDevice> {
    sorted(shown(devices, Seq::<Wanted>::empty()))
}

spec fn listed_facts(devices: Seq<UsbDevice>) -> Seq<RowFacts> {
    listed(devices).map_values(|d: &UsbDevice| facts(*d))
}

proof fn lemma_listed(devices: Seq<UsbDevice>)
    requires
        devices_distinct(devices),
    ensures
        listed_facts(devices).len() == devices.len(),
        listed(devices).len() == devices.len(),
        forall|i: int, j: int|
            0 <= i < j < devices.len() ==> facts_before(
                #[trigger] listed_facts(devices)[i],
                #[trigger] listed_facts(devices)[j],
            ),
        forall|i: int| 0 <= i < devices.len() ==> listed_facts(devices).contains(facts(#[trigger] devices[i])),
        forall|i: int|
            0 <= i < devices.len() ==> exists|j: int|
                0 <= j < devices.len() && facts(#[trigger] devices[j]) == #[trigger] listed_facts(devices)[i],
{
    lemma_all_shown(devices);
    lemma_rank::<&UsbDevice>();
    let refs = shown(devices, Seq::<Wanted>::empty());
    let id = |d: &UsbDevice| d.device_id;
    assert forall|i: int, j: int| 0 <= i < j < refs.len() implies id(#[trigger] refs[i]) != id(#[trigger] refs[j]) by {
        assert(devices[i].device_id != devices[j].device_id);
    }
    lemma_sorted_apart(refs, rank::<&UsbDevice>(), id);
    let rows = listed(devices);
    let all = listed_facts(devices);
    assert forall|i: int, j: int| 0 <= i < j < devices.len() implies facts_before(
        #[trigger] all[i],
        #[trigger] all[j],
    ) by {
        assert(id(rows[i]) != id(rows[j]));
        assert(listed_before(*rows[i], *rows[j]));
        assert(rows[i].chain() == chain_of(all[i]));
        assert(rows[j].chain() == chain_of(all[j]));
    }
    assert forall|i: int| 0 <= i < devices.len() implies all.contains(facts(#[trigger] devices[i])) by {
        assert(rows.contains(refs[i]));
        let k = choose|k: int| 0 <= k < rows.len() && rows[k] == refs[i];
        assert(all[k] == facts(devices[i]));
    }
    assert forall|i: int| 0 <= i < devices.len() implies exists|j: int|
        0 <= j < devices.len() && facts(#[trigger] devices[j]) == #[trigger] all[i] by {
        assert(refs.contains(rows[i]));
        let j = choose|j: int| 0 <= j < refs.len() && refs[j] == rows[i];
        assert(facts(devices[j]) == all[i]);
    }
}

proof fn lemma_same_listing(a: Seq<UsbDevice>, b: Seq<UsbDevice>)
    requires
        same_devices(a, b),
        same_devices(b, a),
    ensures
        listed_facts(a) == listed_facts(b),
{
    lemma_listed(a);
    lemma_listed(b);
    let lt = |x: RowFacts, y: RowFacts| facts_before(x, y);
    let x = listed_facts(a);
    let y = listed_facts(b);
    assert forall|p: RowFacts, q: RowFacts| !(#[trigger] lt(p, q) && lt(q, p)) by {
        lemma_facts_before(p, q);
    }
    assert forall|i: int| 0 <= i < x.len() implies y.contains(#[trigger] x[i]) by {
        let j = choose|j: int| 0 <= j < a.len() && facts(#[trigger] a[j]) == x[i];
        let k = lemma_counterpart(a, b, j);
        assert(y.contains(facts(b[k])));
    }
    assert forall|i: int| 0 <= i < y.len() implies x.contains(#[trigger] y[i]) by {
        let j = choose|j: int| 0 <= j < b.len() && facts(#[trigger] b[j]) == y[i];
        let k = lemma_counterpart(b, a, j);
        assert(x.contains(facts(a[k])));
    }
    lemma_one_order(x, y, lt);
}

proof fn lemma_same_device_line(bus_id: u8, x: UsbDevice, y: UsbDevice, p: Baseline, q: Baseline, text: bool, loaded: bool)
    requires
        facts(x) == facts(y),
        knows_nothing(p),
        knows_nothing(q),
    ensures
        device_line(bus_id, x, p, text, loaded) == device_line(bus_id, y, q, text, loaded),
{
    assert(x.chain() == chain_of(facts(x)));
    assert(y.chain() == chain_of(facts(y)));
    let v = x.endpoints@;
    let w = y.endpoints@;
    assert(facts(x).tallies.len() == v.len() && facts(y).tallies.len() == w.len());
    assert forall|i: int| 0 <= i < v.len() implies (#[trigger] v[i]).transfer_type == w[i].transfer_type
        && v[i].total_bytes == w[i].total_bytes && v[i].endpoint == w[i].endpoint && v[i].dir_in == w[i].dir_in by {
        assert(facts(x).tallies[i] == tally(v[i]@));
        assert(facts(y).tallies[i] == tally(w[i]@));
    }
    if x.carries_iso() {
        let i = choose|i: int|
            0 <= i < v.len() && (#[trigger] v[i]).transfer_type == TransferType::Isochronous && v[i].total_bytes > 0;
        assert(w[i].total_bytes > 0);
    }
    if y.carries_iso() {
        let i = choose|i: int|
            0 <= i < w.len() && (#[trigger] w[i]).transfer_type == TransferType::Isochronous && w[i].total_bytes > 0;
        assert(v[i].total_bytes > 0);
    }
    let a = device_line(bus_id, x, p, text, loaded).endpoints;
    let b = device_line(bus_id, y, q, text, loaded).endpoints;
    assert forall|i: int| 0 <= i < v.len() implies #[trigger] a[i] == b[i] by {
        assert(a[i] == endpoint_line(bus_id, x.device_id, v[i], p));
        assert(b[i] == endpoint_line(bus_id, y.device_id, w[i], q));
    }
    assert(a =~= b);
}

proof fn lemma_same_bus_line(a: UsbBus, b: UsbBus, p: Baseline, q: Baseline, text: bool, loaded: bool)
    requires
        a.bus_id == b.bus_id,
        same_bus(Some(a), Some(b)),
        same_devices(a.devices@, b.devices@),
        same_devices(b.devices@, a.devices@),
        knows_nothing(p),
        knows_nothing(q),
    ensures
        bus_line(a, p, text, loaded, Seq::empty()) == bus_line(b, q, text, loaded, Seq::empty()),
{
    lemma_same_listing(a.devices@, b.devices@);
    let x = device_lines(a, p, text, loaded, Seq::empty());
    let y = device_lines(b, q, text, loaded, Seq::empty());
    let r = listed(a.devices@);
    let s = listed(b.devices@);
    assert(listed_facts(a.devices@).len() == r.len() && listed_facts(b.devices@).len() == s.len());
    assert forall|i: int| 0 <= i < r.len() implies #[trigger] x[i] == y[i] by {
        assert(listed_facts(a.devices@)[i] == facts(*r[i]));
        assert(listed_facts(b.devices@)[i] == facts(*s[i]));
        lemma_same_device_line(a.bus_id, *r[i], *s[i], p, q, text, loaded);
    }
    assert(x =~= y);
}

proof fn lemma_same_bus_lines(r: Seq<&UsbBus>, s: Seq<&UsbBus>, p: Baseline, q: Baseline, text: bool, loaded: bool)
    requires
        r.len() == s.len(),
        forall|i: int|
            0 <= i < r.len() ==> bus_line(*(#[trigger] r[i]), p, text, loaded, Seq::empty()) == bus_line(
                *s[i],
                q,
                text,
                loaded,
                Seq::empty(),
            ),
    ensures
        bus_lines(r, p, text, loaded, Seq::empty()) == bus_lines(s, q, text, loaded, Seq::empty()),
    decreases r.len(),
{
    if r.len() > 0 {
        assert forall|i: int| 0 <= i < r.len() - 1 implies bus_line(
            *(#[trigger] r.drop_last()[i]),
            p,
            text,
            loaded,
            Seq::empty(),
        ) == bus_line(*s.drop_last()[i], q, text, loaded, Seq::empty()) by {
            assert(r.drop_last()[i] == r[i]);
        }
        lemma_same_bus_lines(r.drop_last(), s.drop_last(), p, q, text, loaded);
        assert(r.last() == r[r.len() - 1]);
    }
}

spec fn bus_ids(refs: Seq<&UsbBus>) -> Seq<u8> {
    refs.map_values(|b: &UsbBus| b.bus_id)
}

proof fn lemma_buses_ordered(buses: Seq<UsbBus>)
    requires
        all_distinct(buses),
    ensures
        sorted(bus_refs(buses)).len() == buses.len(),
        forall|i: int, j: int|
            0 <= i < j < buses.len() ==> #[trigger] bus_ids(sorted(bus_refs(buses)))[i] < #[trigger] bus_ids(
                sorted(bus_refs(buses)),
            )[j],
        forall|i: int|
            0 <= i < buses.len() ==> bus_ids(sorted(bus_refs(buses))).contains((#[trigger] buses[i]).bus_id),
        forall|i: int| 0 <= i < buses.len() ==> buses.contains(*#[trigger] sorted(bus_refs(buses))[i]),
{
    lemma_rank::<&UsbBus>();
    let refs = bus_refs(buses);
    let id = |b: &UsbBus| b.bus_id;
    assert forall|i: int, j: int| 0 <= i < j < refs.len() implies id(#[trigger] refs[i]) != id(#[trigger] refs[j]) by {
        assert(buses[i].bus_id != buses[j].bus_id);
    }
    lemma_sorted_apart(refs, rank::<&UsbBus>(), id);
    let rows = sorted(refs);
    let ids = bus_ids(rows);
    assert forall|i: int, j: int| 0 <= i < j < buses.len() implies #[trigger] ids[i] < #[trigger] ids[j] by {
        assert(id(rows[i]) != id(rows[j]));
    }
    assert forall|i: int| 0 <= i < buses.len() implies ids.contains((#[trigger] buses[i]).bus_id) by {
        assert(rows.contains(refs[i]));
        let k = choose|k: int| 0 <= k < rows.len() && rows[k] == refs[i];
        assert(ids[k] == buses[i].bus_id);
    }
    assert forall|i: int| 0 <= i < buses.len() implies buses.contains(*#[trigger] rows[i]) by {
        assert(refs.contains(rows[i]));
        let j = choose|j: int| 0 <= j < refs.len() && refs[j] == rows[i];
        assert(buses[j] == *rows[i]);
    }
}

proof fn lemma_bus_id_there(a: Seq<UsbBus>, b: Seq<UsbBus>, i: int)
    requires
        same_rows(a, b),
        0 <= i < a.len(),
    ensures
        bus_ids(sorted(bus_refs(b))).contains(bus_ids(sorted(bus_refs(a)))[i]),
{
    lemma_buses_ordered(a);
    lemma_buses_ordered(b);
    let row = *sorted(bus_refs(a))[i];
    assert(a.contains(row));
    let k = choose|k: int| 0 <= k < a.len() && a[k] == row;
    lemma_bus_found(a, k);
    assert(same_bus(bus_in(a, row.bus_id), bus_in(b, row.bus_id)));
    lemma_bus_there(b, row.bus_id);
    let j = choose|j: int|
        0 <= j < b.len() && b[j] == bus_in(b, row.bus_id)->0 && (#[trigger] b[j]).bus_id == row.bus_id;
    assert(bus_ids(sorted(bus_refs(b))).contains(b[j].bus_id));
}

proof fn lemma_same_lines(a: Seq<UsbBus>, b: Seq<UsbBus>, p: Baseline, q: Baseline, text: bool, loaded: bool)
    requires
        same_rows(a, b),
        same_rows(b, a),
        knows_nothing(p),
        knows_nothing(q),
    ensures
        bus_lines(sorted(bus_refs(a)), p, text, loaded, Seq::empty()) == bus_lines(
            sorted(bus_refs(b)),
            q,
            text,
            loaded,
            Seq::empty(),
        ),
{
    lemma_buses_ordered(a);
    lemma_buses_ordered(b);
    let r = sorted(bus_refs(a));
    let s = sorted(bus_refs(b));
    let lt = |x: u8, y: u8| x < y;
    assert forall|i: int| 0 <= i < bus_ids(r).len() implies bus_ids(s).contains(#[trigger] bus_ids(r)[i]) by {
        lemma_bus_id_there(a, b, i);
    }
    assert forall|i: int| 0 <= i < bus_ids(s).len() implies bus_ids(r).contains(#[trigger] bus_ids(s)[i]) by {
        lemma_bus_id_there(b, a, i);
    }
    lemma_one_order(bus_ids(r), bus_ids(s), lt);
    assert(bus_ids(r).len() == r.len() && bus_ids(s).len() == s.len());
    assert forall|i: int| 0 <= i < r.len() implies bus_line(
        *(#[trigger] r[i]),
        p,
        text,
        loaded,
        Seq::empty(),
    ) == bus_line(*s[i], q, text, loaded, Seq::empty()) by {
        assert(bus_ids(r)[i] == bus_ids(s)[i]);
        let id = r[i].bus_id;
        assert(a.contains(*r[i]));
        let k = choose|k: int| 0 <= k < a.len() && a[k] == *r[i];
        lemma_bus_found(a, k);
        assert(b.contains(*s[i]));
        let l = choose|l: int| 0 <= l < b.len() && b[l] == *s[i];
        lemma_bus_found(b, l);
        assert(same_bus(bus_in(a, id), bus_in(b, id)));
        lemma_same_on_bus(a, b, id);
        lemma_same_bus_line(*r[i], *s[i], p, q, text, loaded);
    }
    lemma_same_bus_lines(r, s, p, q, text, loaded);
}

proof fn lemma_same_replay(
    snapshot: Option<Snapshot>,
    packets: Seq<UsbPacket>,
    sysfs: Sysfs,
    s: u64,
    t: u64,
    x: DeviceManager,
    y: DeviceManager,
)
    requires
        replayed(snapshot, packets, sysfs, s, x),
        replayed(snapshot, packets, sysfs, t, y),
    ensures
        same_rows(x.buses@, y.buses@),
        x.internal_snapshot == snapshot,
        y.internal_snapshot == snapshot,
{
    let (a, b, c) = choose|start: DeviceManager, fed: DeviceManager, listed: DeviceManager|
        {
            &&& #[trigger] fresh(start, sysfs.base@, snapshot)
            &&& played(start, packets, packets.len() as int, sysfs, s, fed)
            &&& #[trigger] scanned(fed, sysfs, s, listed)
            &&& x.same_settings(listed)
            &&& speeds_read(listed.buses@, sysfs, x.buses@)
            &&& stays_valid(listed.buses@, x.buses@)
        };
    let (d, e, f) = choose|start: DeviceManager, fed: DeviceManager, listed: DeviceManager|
        {
            &&& #[trigger] fresh(start, sysfs.base@, snapshot)
            &&& played(start, packets, packets.len() as int, sysfs, t, fed)
            &&& #[trigger] scanned(fed, sysfs, t, listed)
            &&& y.same_settings(listed)
            &&& speeds_read(listed.buses@, sysfs, y.buses@)
            &&& stays_valid(listed.buses@, y.buses@)
        };
    assert(same_rows(a.buses@, d.buses@));
    lemma_same_play(a, d, packets, packets.len() as int, sysfs, snapshot, s, t, b, e);
    lemma_same_scan(b, e, sysfs, snapshot, s, t, c, f);
    lemma_same_speeds(c.buses@, f.buses@, sysfs, x.buses@, y.buses@);
}

proof fn lemma_play_stays_valid(
    before: DeviceManager,
    packets: Seq<UsbPacket>,
    n: int,
    sysfs: Sysfs,
    now_ms: u64,
    after: DeviceManager,
)
    requires
        played(before, packets, n, sysfs, now_ms, after),
    ensures
        stays_valid(before.buses@, after.buses@),
    decreases n,
{
    if n > 0 {
        let mid = choose|mid: DeviceManager|
            played(before, packets, n - 1, sysfs, now_ms, mid) && #[trigger] packet_step(
                mid,
                packets[n - 1],
                sysfs,
                now_ms,
                after,
            );
        lemma_play_stays_valid(before, packets, n - 1, sysfs, now_ms, mid);
    }
}

/// A replay ends with no address twice, with endpoints in order, and with the
/// rates of every device and endpoint over the one window.
pub proof fn law_a_replay_ends_with_valid_rows(
    snapshot: Option<Snapshot>,
    packets: Seq<UsbPacket>,
    sysfs: Sysfs,
    now_ms: u64,
    done: DeviceManager,
)
    requires
        replayed(snapshot, packets, sysfs, now_ms, done),
    ensures
        done.rows_distinct(),
        endpoints_in_order(done.buses@),
        windows_agree(done.buses@),
{
    let (start, fed, listed) = choose|start: DeviceManager, fed: DeviceManager, listed: DeviceManager|
        {
            &&& #[trigger] fresh(start, sysfs.base@, snapshot)
            &&& played(start, packets, packets.len() as int, sysfs, now_ms, fed)
            &&& #[trigger] scanned(fed, sysfs, now_ms, listed)
            &&& done.same_settings(listed)
            &&& speeds_read(listed.buses@, sysfs, done.buses@)
            &&& stays_valid(listed.buses@, done.buses@)
        };
    lemma_play_stays_valid(start, packets, packets.len() as int, sysfs, now_ms, fed);
    assert(stays_valid(fed.buses@, listed.buses@));
    assert(all_distinct(start.buses@) && endpoints_in_order(start.buses@) && windows_agree(start.buses@));
}

/// Replaying one trace over one tree twice gives the same report, at whatever
/// times the replays run: the same lines for every bus, device and endpoint,
/// the same totals and the same window. Only the timestamp is each run's own.
pub proof fn law_replaying_twice_gives_one_report(
    a: Report,
    b: Report,
    snapshot: Option<Snapshot>,
    source: Option<FixtureSource>,
    packets: Seq<UsbPacket>,
    sysfs: Sysfs,
    elapsed_ns: u64,
    now_a: u64,
    now_b: u64,
    timestamp_a: u64,
    timestamp_b: u64,
)
    requires
        tells_replay(a, snapshot, source, packets, sysfs, elapsed_ns, now_a, timestamp_a),
        tells_replay(b, snapshot, source, packets, sysfs, elapsed_ns, now_b, timestamp_b),
    ensures
        a.buses@.map_values(|l: BusReport| l@) == b.buses@.map_values(|l: BusReport| l@),
        a.total_rx_bytes == b.total_rx_bytes,
        a.total_tx_bytes == b.total_tx_bytes,
        a.window_ns == b.window_ns,
        a.source@ == b.source@,
        a.dropped_packets == b.dropped_packets,
        a.version == b.version,
{
    let applied = replayed_packets(source, packets);
    let text = source == Some(FixtureSource::Text);
    let (x, p) = choose|done: DeviceManager, baseline: Baseline|
        {
            &&& #[trigger] replayed(snapshot, applied, sysfs, now_a, done)
            &&& #[trigger] knows_nothing(baseline)
            &&& tells_window(a, done, baseline, elapsed_ns, timestamp_a, replay_label(source), 0, text, Seq::empty())
        };
    let (y, q) = choose|done: DeviceManager, baseline: Baseline|
        {
            &&& #[trigger] replayed(snapshot, applied, sysfs, now_b, done)
            &&& #[trigger] knows_nothing(baseline)
            &&& tells_window(b, done, baseline, elapsed_ns, timestamp_b, replay_label(source), 0, text, Seq::empty())
        };
    lemma_same_replay(snapshot, applied, sysfs, now_a, now_b, x, y);
    lemma_same_replay(snapshot, applied, sysfs, now_b, now_a, y, x);
    lemma_same_lines(x.buses@, y.buses@, p, q, text, snapshot is Some);
}

} // verus!
