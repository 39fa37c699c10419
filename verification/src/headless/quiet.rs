//! What a report shows of a window in which nothing moved.

use vstd::prelude::*;

use crate::device::manager::{all_distinct, bus_in, device_in, endpoints_in_order, row_in, DeviceManager, UsbBus};
use crate::device::{endpoint_facts, endpoint_rank, endpoints_ascend, EndpointStats, UsbDevice};
use crate::filter::Wanted;
use crate::headless::{
    all_endpoint_totals, all_totals, bus_endpoint_totals, bus_line, bus_lines, bus_refs, bus_rx_sum, bus_tx_sum,
    device_endpoint_totals, device_line, device_lines, endpoint_line, endpoint_total_in, law_baseline_knows_every_row,
    rx_sum, shown, tells_window, tx_sum, Baseline, BusLine, BusReport, DeviceLine, EndpointTotal, Report,
};
use crate::order::{lemma_sorted_is_there, sorted};

verus! {

/// Whether a baseline was captured of these rows.
pub open spec fn captured_of(baseline: Baseline, buses: Seq<UsbBus>) -> bool {
    &&& baseline.device_totals@ == all_totals(buses)
    &&& baseline.endpoint_totals@ == all_endpoint_totals(buses)
}

/// Whether the line of a device shows no byte, on the device and on any of
/// its endpoints.
pub open spec fn quiet_device(line: DeviceLine) -> bool {
    &&& line.rx_bytes == 0
    &&& line.tx_bytes == 0
    &&& forall|k: int| 0 <= k < line.endpoints.len() ==> (#[trigger] line.endpoints[k]).bytes == 0
}

/// Whether the line of a bus shows no byte, on the bus and on any device.
pub open spec fn quiet_bus(line: BusLine) -> bool {
    &&& line.rx_bytes == 0
    &&& line.tx_bytes == 0
    &&& forall|k: int| 0 <= k < line.devices.len() ==> quiet_device(#[trigger] line.devices[k])
}

proof fn lemma_endpoint_in_append(a: Seq<EndpointTotal>, b: Seq<EndpointTotal>, bus: u8, dev: u8, ep: u8, dir: bool)
    ensures
        endpoint_total_in(a + b, bus, dev, ep, dir) == (match endpoint_total_in(a, bus, dev, ep, dir) {
            Some(t) => Some(t),
            None => endpoint_total_in(b, bus, dev, ep, dir),
        }),
    decreases a.len(),
{
    if a.len() == 0 {
        assert(a + b =~= b);
    } else {
        assert((a + b).skip(1) =~= a.skip(1) + b);
        lemma_endpoint_in_append(a.skip(1), b, bus, dev, ep, dir);
    }
}

proof fn lemma_endpoint_absent(v: Seq<EndpointTotal>, bus: u8, dev: u8, ep: u8, dir: bool)
    requires
        forall|i: int| 0 <= i < v.len() ==> (#[trigger] v[i]).bus_id != bus || v[i].device_id != dev,
    ensures
        endpoint_total_in(v, bus, dev, ep, dir) is None,
    decreases v.len(),
{
    if v.len() > 0 {
        assert(v[0].bus_id != bus || v[0].device_id != dev);
        assert forall|i: int| 0 <= i < v.skip(1).len() implies (#[trigger] v.skip(1)[i]).bus_id != bus || v.skip(
            1,
        )[i].device_id != dev by {
            assert(v.skip(1)[i] == v[i + 1]);
        }
        lemma_endpoint_absent(v.skip(1), bus, dev, ep, dir);
    }
}

proof fn lemma_endpoint_of_device(bus: u8, dev: u8, v: Seq<EndpointStats>, k: int)
    requires
        endpoints_ascend(endpoint_facts(v)),
        0 <= k < v.len(),
    ensures
        endpoint_total_in(device_endpoint_totals(bus, dev, v), bus, dev, v[k].endpoint, v[k].dir_in) == Some(
            v[k].total_bytes,
        ),
    decreases v.len(),
{
    let all = device_endpoint_totals(bus, dev, v);
    if k > 0 {
        let facts = endpoint_facts(v);
        assert(endpoint_rank(facts[0].endpoint, facts[0].dir_in) < endpoint_rank(facts[k].endpoint, facts[k].dir_in));
        let t = v.skip(1);
        assert(endpoints_ascend(endpoint_facts(t))) by {
            assert forall|i: int, j: int| 0 <= i < j < t.len() implies endpoint_rank(
                (#[trigger] endpoint_facts(t)[i]).endpoint,
                endpoint_facts(t)[i].dir_in,
            ) < endpoint_rank((#[trigger] endpoint_facts(t)[j]).endpoint, endpoint_facts(t)[j].dir_in) by {
                assert(endpoint_facts(t)[i] == facts[i + 1]);
                assert(endpoint_facts(t)[j] == facts[j + 1]);
            }
        }
        assert(all.skip(1) =~= device_endpoint_totals(bus, dev, t));
        assert(t[k - 1] == v[k]);
        lemma_endpoint_of_device(bus, dev, t, k - 1);
    }
}

/// The entries of a bus are those of its devices.
proof fn lemma_bus_entries(bus: u8, devices: Seq<UsbDevice>, i: int)
    requires
        0 <= i < bus_endpoint_totals(bus, devices).len(),
    ensures
        bus_endpoint_totals(bus, devices)[i].bus_id == bus,
        exists|k: int|
            0 <= k < devices.len() && (#[trigger] devices[k]).device_id == bus_endpoint_totals(
                bus,
                devices,
            )[i].device_id,
    decreases devices.len(),
{
    if devices.len() > 0 {
        let front = devices.drop_last();
        let head = bus_endpoint_totals(bus, front);
        if i < head.len() {
            lemma_bus_entries(bus, front, i);
            let k = choose|k: int|
                0 <= k < front.len() && (#[trigger] front[k]).device_id == head[i].device_id;
            assert(devices[k] == front[k]);
        } else {
            assert(devices[devices.len() - 1] == devices.last());
        }
    }
}

proof fn lemma_endpoint_of_bus(bus: u8, devices: Seq<UsbDevice>, j: int, k: int)
    requires
        crate::device::manager::devices_distinct(devices),
        0 <= j < devices.len(),
        0 <= k < devices[j].endpoints@.len(),
        endpoints_ascend(endpoint_facts(devices[j].endpoints@)),
    ensures
        ({
            let e = devices[j].endpoints@[k];
            endpoint_total_in(
                bus_endpoint_totals(bus, devices),
                bus,
                devices[j].device_id,
                e.endpoint,
                e.dir_in,
            ) == Some(e.total_bytes)
        }),
    decreases devices.len(),
{
    let e = devices[j].endpoints@[k];
    let dev = devices[j].device_id;
    let front = devices.drop_last();
    let last = devices.last();
    let head = bus_endpoint_totals(bus, front);
    let tail = device_endpoint_totals(bus, last.device_id, last.endpoints@);
    lemma_endpoint_in_append(head, tail, bus, dev, e.endpoint, e.dir_in);
    if j < front.len() {
        assert(front[j] == devices[j]);
        lemma_endpoint_of_bus(bus, front, j, k);
    } else {
        assert forall|i: int| 0 <= i < head.len() implies (#[trigger] head[i]).bus_id != bus || head[i].device_id
            != dev by {
            lemma_bus_entries(bus, front, i);
            let n = choose|n: int| 0 <= n < front.len() && (#[trigger] front[n]).device_id == head[i].device_id;
            assert(devices[n].device_id != devices[j].device_id);
        }
        lemma_endpoint_absent(head, bus, dev, e.endpoint, e.dir_in);
        lemma_endpoint_of_device(bus, dev, last.endpoints@, k);
    }
}

/// The entries of all buses are those of some bus.
proof fn lemma_all_entries(buses: Seq<UsbBus>, i: int)
    requires
        0 <= i < all_endpoint_totals(buses).len(),
    ensures
        exists|n: int|
            0 <= n < buses.len() && (#[trigger] buses[n]).bus_id == all_endpoint_totals(buses)[i].bus_id,
    decreases buses.len(),
{
    if buses.len() > 0 {
        let front = buses.drop_last();
        let head = all_endpoint_totals(front);
        if i < head.len() {
            lemma_all_entries(front, i);
            let n = choose|n: int| 0 <= n < front.len() && (#[trigger] front[n]).bus_id == head[i].bus_id;
            assert(buses[n] == front[n]);
        } else {
            lemma_bus_entries(buses.last().bus_id, buses.last().devices@, i - head.len());
            assert(buses[buses.len() - 1].bus_id == all_endpoint_totals(buses)[i].bus_id);
        }
    }
}

/// A captured baseline knows the total of every endpoint there is.
pub proof fn law_baseline_knows_every_endpoint(buses: Seq<UsbBus>, i: int, j: int, k: int)
    requires
        all_distinct(buses),
        endpoints_in_order(buses),
        0 <= i < buses.len(),
        0 <= j < buses[i].devices@.len(),
        0 <= k < buses[i].devices@[j].endpoints@.len(),
    ensures
        ({
            let d = buses[i].devices@[j];
            let e = d.endpoints@[k];
            endpoint_total_in(all_endpoint_totals(buses), buses[i].bus_id, d.device_id, e.endpoint, e.dir_in) == Some(
                e.total_bytes,
            )
        }),
    decreases buses.len(),
{
    let bus = buses[i].bus_id;
    let d = buses[i].devices@[j];
    let e = d.endpoints@[k];
    let front = buses.drop_last();
    let last = buses.last();
    let head = all_endpoint_totals(front);
    lemma_endpoint_in_append(
        head,
        bus_endpoint_totals(last.bus_id, last.devices@),
        bus,
        d.device_id,
        e.endpoint,
        e.dir_in,
    );
    if i < front.len() {
        assert forall|n: int| 0 <= n < front.len() implies crate::device::manager::devices_distinct(
            (#[trigger] front[n]).devices@,
        ) by {
            assert(front[n] == buses[n]);
        }
        assert forall|n: int, m: int| 0 <= n < front.len() && 0 <= m < front[n].devices@.len() implies endpoints_ascend(
            endpoint_facts((#[trigger] front[n].devices@[m]).endpoints@),
        ) by {
            assert(front[n].devices@[m] == buses[n].devices@[m]);
        }
        assert(front[i] == buses[i]);
        law_baseline_knows_every_endpoint(front, i, j, k);
    } else {
        assert forall|n: int| 0 <= n < head.len() implies (#[trigger] head[n]).bus_id != bus || head[n].device_id
            != d.device_id by {
            lemma_all_entries(front, n);
            let m = choose|m: int| 0 <= m < front.len() && (#[trigger] front[m]).bus_id == head[n].bus_id;
            assert(buses[m].bus_id != buses[i].bus_id);
        }
        lemma_endpoint_absent(head, bus, d.device_id, e.endpoint, e.dir_in);
        assert(endpoints_ascend(endpoint_facts(buses[i].devices@[j].endpoints@)));
        lemma_endpoint_of_bus(bus, last.devices@, j, k);
    }
}

proof fn lemma_bus_in_at(buses: Seq<UsbBus>, i: int)
    requires
        crate::device::manager::buses_distinct(buses),
        0 <= i < buses.len(),
    ensures
        bus_in(buses, buses[i].bus_id) == Some(buses[i]),
    decreases i,
{
    if i > 0 {
        assert(buses[0].bus_id != buses[i].bus_id);
        assert(buses.skip(1)[i - 1] == buses[i]);
        lemma_bus_in_at(buses.skip(1), i - 1);
    }
}

proof fn lemma_device_in_at(devices: Seq<UsbDevice>, j: int)
    requires
        crate::device::manager::devices_distinct(devices),
        0 <= j < devices.len(),
    ensures
        device_in(devices, devices[j].device_id) == Some(devices[j]),
    decreases j,
{
    if j > 0 {
        assert(devices[0].device_id != devices[j].device_id);
        assert(devices.skip(1)[j - 1] == devices[j]);
        lemma_device_in_at(devices.skip(1), j - 1);
    }
}

proof fn lemma_quiet_device(buses: Seq<UsbBus>, baseline: Baseline, i: int, j: int, text: bool, loaded: bool)
    requires
        all_distinct(buses),
        endpoints_in_order(buses),
        captured_of(baseline, buses),
        0 <= i < buses.len(),
        0 <= j < buses[i].devices@.len(),
    ensures
        quiet_device(device_line(buses[i].bus_id, buses[i].devices@[j], baseline, text, loaded)),
{
    let bus = buses[i].bus_id;
    let d = buses[i].devices@[j];
    lemma_bus_in_at(buses, i);
    lemma_device_in_at(buses[i].devices@, j);
    assert(row_in(buses, bus, d.device_id) == Some(d));
    law_baseline_knows_every_row(buses, bus, d.device_id);
    let line = device_line(bus, d, baseline, text, loaded);
    assert forall|k: int| 0 <= k < line.endpoints.len() implies (#[trigger] line.endpoints[k]).bytes == 0 by {
        law_baseline_knows_every_endpoint(buses, i, j, k);
        assert(line.endpoints[k] == endpoint_line(bus, d.device_id, d.endpoints@[k], baseline));
    }
}

/// What is shown of several devices is among them.
proof fn lemma_shown_is_there(devices: Seq<UsbDevice>, filter: Seq<Wanted>, k: int)
    requires
        0 <= k < shown(devices, filter).len(),
    ensures
        exists|j: int| 0 <= j < devices.len() && #[trigger] devices[j] == *shown(devices, filter)[k],
    decreases devices.len(),
{
    if devices.len() > 0 {
        let front = devices.drop_last();
        if k < shown(front, filter).len() {
            lemma_shown_is_there(front, filter, k);
            let j = choose|j: int| 0 <= j < front.len() && #[trigger] front[j] == *shown(front, filter)[k];
            assert(devices[j] == front[j]);
        } else {
            assert(devices[devices.len() - 1] == devices.last());
        }
    }
}

/// What a sorted sequence holds was in it before.
proof fn lemma_quiet_sums(lines: Seq<DeviceLine>)
    requires
        forall|k: int| 0 <= k < lines.len() ==> quiet_device(#[trigger] lines[k]),
    ensures
        rx_sum(lines) == 0,
        tx_sum(lines) == 0,
    decreases lines.len(),
{
    if lines.len() > 0 {
        let front = lines.drop_last();
        assert forall|k: int| 0 <= k < front.len() implies quiet_device(#[trigger] front[k]) by {
            assert(front[k] == lines[k]);
        }
        lemma_quiet_sums(front);
        assert(quiet_device(lines[lines.len() - 1]));
    }
}

proof fn lemma_quiet_bus(
    buses: Seq<UsbBus>,
    baseline: Baseline,
    i: int,
    text: bool,
    loaded: bool,
    filter: Seq<Wanted>,
)
    requires
        all_distinct(buses),
        endpoints_in_order(buses),
        captured_of(baseline, buses),
        0 <= i < buses.len(),
    ensures
        quiet_bus(bus_line(buses[i], baseline, text, loaded, filter)),
{
    let bus = buses[i];
    let lines = device_lines(bus, baseline, text, loaded, filter);
    let picked = shown(bus.devices@, filter);
    assert forall|k: int| 0 <= k < lines.len() implies quiet_device(#[trigger] lines[k]) by {
        lemma_sorted_is_there(picked, k);
        let n = choose|n: int| 0 <= n < picked.len() && #[trigger] picked[n] == sorted(picked)[k];
        lemma_shown_is_there(bus.devices@, filter, n);
        let j = choose|j: int| 0 <= j < bus.devices@.len() && #[trigger] bus.devices@[j] == *picked[n];
        lemma_quiet_device(buses, baseline, i, j, text, loaded);
        assert(lines[k] == device_line(bus.bus_id, *sorted(picked)[k], baseline, text, loaded));
    }
    lemma_quiet_sums(lines);
}

proof fn lemma_quiet_lines(
    buses: Seq<UsbBus>,
    refs: Seq<&UsbBus>,
    baseline: Baseline,
    text: bool,
    loaded: bool,
    filter: Seq<Wanted>,
)
    requires
        all_distinct(buses),
        endpoints_in_order(buses),
        captured_of(baseline, buses),
        forall|n: int| 0 <= n < refs.len() ==> exists|i: int| 0 <= i < buses.len() && #[trigger] buses[i] == *(
        #[trigger] refs[n]),
    ensures
        ({
            let lines = bus_lines(refs, baseline, text, loaded, filter);
            &&& forall|k: int| 0 <= k < lines.len() ==> quiet_bus(#[trigger] lines[k])
            &&& bus_rx_sum(lines) == 0
            &&& bus_tx_sum(lines) == 0
        }),
    decreases refs.len(),
{
    if refs.len() > 0 {
        let front = refs.drop_last();
        assert forall|n: int| 0 <= n < front.len() implies exists|i: int|
            0 <= i < buses.len() && #[trigger] buses[i] == *(#[trigger] front[n]) by {
            assert(front[n] == refs[n]);
        }
        lemma_quiet_lines(buses, front, baseline, text, loaded, filter);
        let last = refs[refs.len() - 1];
        let i = choose|i: int| 0 <= i < buses.len() && #[trigger] buses[i] == *last;
        lemma_quiet_bus(buses, baseline, i, text, loaded, filter);
        let head = bus_lines(front, baseline, text, loaded, filter);
        let lines = bus_lines(refs, baseline, text, loaded, filter);
        if lines.len() > head.len() {
            assert(lines.drop_last() =~= head);
        }
    }
}

/// A report whose baseline was captured of the same rows shows no byte: not in
/// its totals, not on a bus, not on a device and not on an endpoint. Its
/// window is never empty, so every rate is zero.
pub proof fn law_a_fresh_baseline_shows_no_traffic(
    r: Report,
    manager: DeviceManager,
    baseline: Baseline,
    elapsed_ns: u64,
    timestamp_ms: u64,
    source: Seq<char>,
    dropped: u64,
    text_active: bool,
    wanted: Seq<Wanted>,
)
    requires
        manager.rows_distinct(),
        endpoints_in_order(manager.buses@),
        captured_of(baseline, manager.buses@),
        tells_window(r, manager, baseline, elapsed_ns, timestamp_ms, source, dropped, text_active, wanted),
    ensures
        r.window_ns >= 1_000_000,
        r.total_rx_bytes == 0,
        r.total_tx_bytes == 0,
        forall|k: int| 0 <= k < r.buses@.len() ==> quiet_bus((#[trigger] r.buses@[k])@),
{
    let buses = manager.buses@;
    let refs = sorted(bus_refs(buses));
    assert forall|n: int| 0 <= n < refs.len() implies exists|i: int|
        0 <= i < buses.len() && #[trigger] buses[i] == *(#[trigger] refs[n]) by {
        lemma_sorted_is_there(bus_refs(buses), n);
        let i = choose|i: int| 0 <= i < bus_refs(buses).len() && #[trigger] bus_refs(buses)[i] == refs[n];
        assert(buses[i] == *refs[n]);
    }
    lemma_quiet_lines(buses, refs, baseline, text_active, manager.internal_snapshot is Some, wanted);
    let lines = r.buses@.map_values(|b: BusReport| b@);
    assert forall|k: int| 0 <= k < r.buses@.len() implies quiet_bus((#[trigger] r.buses@[k])@) by {
        assert(lines[k] == r.buses@[k]@);
    }
}

} // verus!
