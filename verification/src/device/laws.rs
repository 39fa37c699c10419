//! What the device rows promise: traffic is counted once, where and in the
//! direction it moved, rates are those of the window, and a row follows its
//! device from sight to removal.

use vstd::prelude::*;

use crate::filter::set_wants_traffic;
use crate::number::{decimal, hex4, lemma_decimal_round_trip, lemma_hex4_round_trip};
use crate::snapshot::Snapshot;
use crate::speed::{practical_bytes, stated_rate, UsbSpeed};
use crate::stats::{live_samples, rate_per_second, sample_bytes, Sample};
use crate::sysfs::{entry_named, text_named, Node, Sysfs};
use crate::text::trimmed;
use crate::usbids::{product_in, vendor_in, ProductName, UsbIds, VendorName};
use crate::usbmon::{TransferType, UrbType, UsbPacket};

use super::manager::{
    accounted, belongs, bus_busy, bus_speed_read, bus_stamped, bus_ticked, buses_stamped, buses_ticked, delta_applied,
    discovered, dressed, dropped_rows, enumerated, fastest, introduced, is_unknown, kept_rows, names_applied, occupied,
    one_window, packet_applied, refreshed, row_in, rows_ticked, scanned, speeds_read, stamped, ticked, touched, usage,
    DeviceManager, TrafficDelta, UsbBus,
};
use super::{
    directory_read, endpoint_at, endpoint_rank, endpoints_after, endpoints_ascend, first_entry_of, is_entry_of,
    metadata_read, names_overlaid, placed, sysfs_read, text_of, EndpointFacts, UsbDevice,
};

verus! {

/// Whether `total` is the sum of two counts, or the largest number there is
/// when the sum is larger.
pub open spec fn is_capped_sum(total: u64, a: u64, b: u64) -> bool {
    if a + b <= u64::MAX {
        total == a + b
    } else {
        total == u64::MAX
    }
}

/// A usbmon event counts on a known row exactly when it is a callback with
/// data that the filter wants: its bytes are added once, to what was received
/// when it is inbound and to what was sent when not, and the other total
/// stays. Any other event only shows that the device is there. Who the device
/// is never changes.
pub proof fn law_a_packet_counts_once_in_its_direction(
    before: DeviceManager,
    p: UsbPacket,
    sysfs: Sysfs,
    now_ms: u64,
    d: UsbDevice,
    after: UsbDevice,
)
    requires
        before.row(p.bus_id, p.device_id) == Some(d),
        packet_applied(before, p, sysfs, now_ms, after),
    ensures
        ({
            let counts = p.urb_type == UrbType::Callback && p.data_length > 0 && set_wants_traffic(
                before.filter@,
                d.seen(now_ms),
                p.endpoint,
                p.direction,
                p.transfer_type,
            );
            let then = d.bandwidth_stats;
            let now = after.bandwidth_stats;
            &&& counts && p.direction ==> is_capped_sum(
                now.total_rx_bytes,
                then.total_rx_bytes,
                p.data_length as u64,
            ) && now.total_tx_bytes == then.total_tx_bytes
            &&& counts && !p.direction ==> is_capped_sum(
                now.total_tx_bytes,
                then.total_tx_bytes,
                p.data_length as u64,
            ) && now.total_rx_bytes == then.total_rx_bytes
            &&& counts ==> now.window.samples@.len() == then.window.samples@.len() + 1 && now.window.samples@.last()
                == (Sample { at_ms: now_ms, bytes: p.data_length as u64 })
            &&& !counts ==> now == then && after.endpoints == d.endpoints
            &&& after.last_seen == now_ms && !after.is_disconnected
            &&& after.bus_id == d.bus_id && after.device_id == d.device_id && after.vendor_id == d.vendor_id
                && after.product_id == d.product_id && after.vendor == d.vendor && after.product == d.product
                && after.serial == d.serial && after.speed == d.speed && after.sysfs_path == d.sysfs_path
                && after.capability == d.capability && after.is_internal == d.is_internal
        }),
{
}

/// An event moves bytes on its own endpoint and direction alone: that
/// endpoint's total grows by them, a new one starts with them, the type first
/// seen there stays, and every other endpoint is as it was.
pub proof fn law_bytes_move_on_their_own_endpoint(
    v: Seq<EndpointFacts>,
    endpoint: u8,
    dir_in: bool,
    transfer_type: TransferType,
    sample: Sample,
    other: u8,
    other_in: bool,
)
    requires
        endpoints_ascend(v),
    ensures
        ({
            let after = endpoints_after(v, endpoint, dir_in, transfer_type, sample);
            &&& endpoint_at(after, endpoint, dir_in) is Some
            &&& ({
                let e = endpoint_at(after, endpoint, dir_in)->0;
                match endpoint_at(v, endpoint, dir_in) {
                    Some(was) => {
                        &&& is_capped_sum(e.total_bytes, was.total_bytes, sample.bytes)
                        &&& e.transfer_type == was.transfer_type
                        &&& e.samples == was.samples.push(sample)
                    },
                    None => {
                        &&& e.total_bytes == sample.bytes
                        &&& e.transfer_type == transfer_type
                        &&& e.samples == seq![sample]
                    },
                }
            })
            &&& other != endpoint || other_in != dir_in ==> endpoint_at(after, other, other_in) == endpoint_at(
                v,
                other,
                other_in,
            )
        }),
    decreases v.len(),
{
    let after = endpoints_after(v, endpoint, dir_in, transfer_type, sample);
    if v.len() == 0 {
        assert(after.skip(1) =~= Seq::<EndpointFacts>::empty());
        assert(endpoint_at(after.skip(1), other, other_in) is None);
    } else {
        let tail = v.skip(1);
        let here = endpoint_rank(v[0].endpoint, v[0].dir_in);
        let wanted = endpoint_rank(endpoint, dir_in);
        assert(endpoints_ascend(tail)) by {
            assert forall|i: int, j: int| 0 <= i < j < tail.len() implies endpoint_rank(
                (#[trigger] tail[i]).endpoint,
                tail[i].dir_in,
            ) < endpoint_rank((#[trigger] tail[j]).endpoint, tail[j].dir_in) by {
                assert(tail[i] == v[i + 1] && tail[j] == v[j + 1]);
            }
        }
        if wanted == here {
            assert(v[0].endpoint == endpoint && v[0].dir_in == dir_in);
            assert(after.skip(1) =~= tail);
        } else if wanted < here {
            assert(after.skip(1) =~= v);
            lemma_not_among(v, endpoint, dir_in);
        } else {
            law_bytes_move_on_their_own_endpoint(tail, endpoint, dir_in, transfer_type, sample, other, other_in);
            assert(after.skip(1) =~= endpoints_after(tail, endpoint, dir_in, transfer_type, sample));
            assert(after[0] == v[0]);
        }
    }
}

proof fn lemma_not_among(v: Seq<EndpointFacts>, endpoint: u8, dir_in: bool)
    requires
        endpoints_ascend(v),
        v.len() > 0 ==> endpoint_rank(endpoint, dir_in) < endpoint_rank(v[0].endpoint, v[0].dir_in),
    ensures
        endpoint_at(v, endpoint, dir_in) is None,
    decreases v.len(),
{
    if v.len() > 0 {
        let tail = v.skip(1);
        assert(endpoints_ascend(tail)) by {
            assert forall|i: int, j: int| 0 <= i < j < tail.len() implies endpoint_rank(
                (#[trigger] tail[i]).endpoint,
                tail[i].dir_in,
            ) < endpoint_rank((#[trigger] tail[j]).endpoint, tail[j].dir_in) by {
                assert(tail[i] == v[i + 1] && tail[j] == v[j + 1]);
            }
        }
        if tail.len() > 0 {
            assert(tail[0] == v[1]);
            assert(endpoint_rank(v[0].endpoint, v[0].dir_in) < endpoint_rank(v[1].endpoint, v[1].dir_in));
        }
        lemma_not_among(tail, endpoint, dir_in);
    }
}

/// The sum of what some samples hold.
pub open spec fn sample_sum(samples: Seq<Sample>) -> int
    decreases samples.len(),
{
    if samples.len() == 0 {
        0
    } else {
        sample_sum(samples.drop_last()) + samples.last().bytes
    }
}

/// A window keeps exactly the samples no older than it is long, in their
/// order, and counts what they hold, as far as a number goes.
pub proof fn law_a_window_counts_what_is_no_older(samples: Seq<Sample>, window_ms: u64, now_ms: u64)
    ensures
        live_samples(samples, window_ms, now_ms) == samples.filter(|s: Sample| now_ms <= s.at_ms + window_ms),
        sample_sum(samples) >= 0,
        sample_bytes(samples) == (if sample_sum(samples) <= u64::MAX {
            sample_sum(samples)
        } else {
            u64::MAX as int
        }),
    decreases samples.len(),
{
    reveal(Seq::filter);
    if samples.len() > 0 {
        law_a_window_counts_what_is_no_older(samples.drop_last(), window_ms, now_ms);
    }
}

/// A rate is what the window's bytes come to in one second, rounded down.
pub proof fn law_a_rate_is_bytes_per_second(bytes: u64, window_ms: u64)
    requires
        window_ms > 0,
    ensures
        ({
            let rate = rate_per_second(bytes, window_ms);
            rate < u64::MAX ==> rate * window_ms <= bytes * 1000 < (rate + 1) * window_ms
        }),
        rate_per_second(bytes, window_ms) == u64::MAX ==> bytes * 1000 >= u64::MAX * window_ms,
        rate_per_second(bytes, 1000) == bytes,
        rate_per_second(bytes, 10_000) == bytes / 10,
{
    let q = bytes as int * 1000 / (window_ms as int);
    assert(q * window_ms <= bytes * 1000 < (q + 1) * window_ms) by (nonlinear_arith)
        requires
            q == bytes as int * 1000 / (window_ms as int),
            window_ms > 0,
    ;
    if rate_per_second(bytes, window_ms) == u64::MAX {
        assert(q >= u64::MAX);
        assert(q * window_ms >= u64::MAX * window_ms) by (nonlinear_arith)
            requires
                q >= u64::MAX,
                window_ms > 0,
        ;
    }
}

/// A device is given up once it has been gone for six seconds, and not
/// before.
pub proof fn law_a_device_is_given_up_after_six_seconds(d: UsbDevice, now_ms: u64)
    ensures
        d.is_stale(now_ms) <==> d.disconnect_time is Some && now_ms >= d.disconnect_time->0 + 6000,
{
}

/// A device seen is present from then on; one that was gone is no longer on
/// its way out. Nothing else about it changes.
pub proof fn law_a_device_seen_is_present(d: UsbDevice, now_ms: u64)
    ensures
        !d.seen(now_ms).is_disconnected,
        d.seen(now_ms).last_seen == now_ms,
        d.is_disconnected ==> d.seen(now_ms).disconnect_time is None,
        d.seen(now_ms).bandwidth_stats == d.bandwidth_stats,
        d.seen(now_ms).endpoints == d.endpoints,
        d.seen(now_ms).device_id == d.device_id && d.seen(now_ms).bus_id == d.bus_id,
        d.seen(now_ms).vendor_id == d.vendor_id && d.seen(now_ms).product_id == d.product_id,
{
}

/// How busy a device is, in hundredths of a percent, is the whole number at
/// or below its rate over what its link practically carries.
pub proof fn law_busy_is_the_rate_over_the_practical_bandwidth(d: UsbDevice)
    ensures
        ({
            let max = practical_bytes(d.speed.bps as nat);
            &&& max == 0 ==> d.busy() == 0
            &&& max > 0 ==> d.busy() * max <= d.bandwidth_stats.current_bps * 10_000 < (d.busy() + 1) * max
        }),
        practical_bytes(d.speed.bps as nat) == (if d.speed.bps <= 1_500_000 {
            d.speed.bps * 70 / 800
        } else if d.speed.bps <= 480_000_000 {
            d.speed.bps * 80 / 800
        } else {
            d.speed.bps * 85 / 800
        }),
        d.is_busy() <==> practical_bytes(d.speed.bps as nat) > 0 && d.bandwidth_stats.current_bps * 100 > 80
            * practical_bytes(d.speed.bps as nat),
{
    let max = practical_bytes(d.speed.bps as nat);
    let n = d.bandwidth_stats.current_bps as int * 10_000;
    if max > 0 {
        let q = n / (max as int);
        assert(q * max <= n < (q + 1) * max) by (nonlinear_arith)
            requires
                q == n / (max as int),
                max > 0,
        ;
    }
}

/// A device is called limited by its bus exactly when it declares a speed
/// above both the bus's and its own link.
pub proof fn law_a_device_is_limited_by_a_slower_bus(d: UsbDevice, bus_speed: UsbSpeed)
    ensures
        d.mismatch(bus_speed) is Some <==> d.max_capability is Some && (d.max_capability->0).bps > bus_speed.bps && (
        d.max_capability->0).bps > d.speed.bps,
        d.mismatch(bus_speed) is Some ==> d.mismatch(bus_speed) == d.max_capability,
{
}

/// The fastest device is one of the devices, and none is faster.
pub proof fn law_no_device_is_faster_than_the_fastest(devices: Seq<UsbDevice>)
    ensures
        forall|i: int| 0 <= i < devices.len() ==> (#[trigger] devices[i]).speed.bps <= fastest(devices).bps,
        devices.len() == 0 ==> fastest(devices).bps == 0,
        devices.len() > 0 ==> exists|i: int|
            0 <= i < devices.len() && (#[trigger] devices[i]).speed == fastest(devices),
    decreases devices.len(),
{
    if devices.len() > 0 {
        let front = devices.drop_last();
        law_no_device_is_faster_than_the_fastest(front);
        assert forall|i: int| 0 <= i < devices.len() implies (#[trigger] devices[i]).speed.bps <= fastest(
            devices,
        ).bps by {
            if i < front.len() {
                assert(front[i] == devices[i]);
            }
        }
        if devices.last().speed.bps >= fastest(front).bps {
            assert(devices[devices.len() - 1].speed == fastest(devices));
        } else {
            let i = choose|i: int| 0 <= i < front.len() && (#[trigger] front[i]).speed == fastest(front);
            assert(devices[i].speed == fastest(devices));
        }
    }
}

/// The sum of the rates of some devices.
pub open spec fn rate_sum(devices: Seq<UsbDevice>) -> int
    decreases devices.len(),
{
    if devices.len() == 0 {
        0
    } else {
        rate_sum(devices.drop_last()) + devices.last().bandwidth_stats.current_bps
    }
}

/// What a bus's devices use together is the sum of their rates, as far as a
/// number goes.
pub proof fn law_a_bus_uses_what_its_devices_do(devices: Seq<UsbDevice>)
    ensures
        rate_sum(devices) >= 0,
        usage(devices) == (if rate_sum(devices) <= u64::MAX {
            rate_sum(devices)
        } else {
            u64::MAX as int
        }),
    decreases devices.len(),
{
    if devices.len() > 0 {
        law_a_bus_uses_what_its_devices_do(devices.drop_last());
    }
}

/// A device belongs to the machine exactly when the snapshot has an entry at
/// the device's own place with the same ids, each in four hexadecimal digits
/// or missing on both sides. Without a snapshot, or without a place, none
/// does.
pub proof fn law_a_device_belongs_by_place_and_ids(d: UsbDevice, snapshot: Option<Snapshot>)
    ensures
        belongs(d, snapshot) <==> snapshot is Some && d.name() is Some && exists|i: int|
            0 <= i < (snapshot->0).devices@.len() && (#[trigger] (snapshot->0).devices@[i]).port_path@ == d.name()->0
                && ((snapshot->0).devices@[i].vendor_id is None <==> d.vendor_id is None) && (d.vendor_id is Some
                ==> (snapshot->0).devices@[i].vendor_id->0@ == crate::number::hex4(d.vendor_id->0 as nat)) && ((
            snapshot->0).devices@[i].product_id is None <==> d.product_id is None) && (d.product_id is Some ==> (
            snapshot->0).devices@[i].product_id->0@ == crate::number::hex4(d.product_id->0 as nat)),
        stamped(d, snapshot).is_internal == belongs(d, snapshot),
        stamped(d, snapshot).device_id == d.device_id,
{
    if snapshot is Some && d.name() is Some {
        let s = snapshot->0;
        let name = d.name()->0;
        if exists|i: int|
            0 <= i < s.devices@.len() && (#[trigger] s.devices@[i]).port_path@ == name && (s.devices@[i].vendor_id is None
                <==> d.vendor_id is None) && (d.vendor_id is Some ==> s.devices@[i].vendor_id->0@ == crate::number::hex4(
                d.vendor_id->0 as nat,
            )) && (s.devices@[i].product_id is None <==> d.product_id is None) && (d.product_id is Some ==> s.devices@[i].product_id->0@
                == crate::number::hex4(d.product_id->0 as nat)) {
            let i = choose|i: int|
                0 <= i < s.devices@.len() && (#[trigger] s.devices@[i]).port_path@ == name && (
                s.devices@[i].vendor_id is None <==> d.vendor_id is None) && (d.vendor_id is Some
                    ==> s.devices@[i].vendor_id->0@ == crate::number::hex4(d.vendor_id->0 as nat)) && (
                s.devices@[i].product_id is None <==> d.product_id is None) && (d.product_id is Some
                    ==> s.devices@[i].product_id->0@ == crate::number::hex4(d.product_id->0 as nat));
            assert(s.devices@[i].fits(name, d.vendor_id, d.product_id));
        }
        if s.lists(name, d.vendor_id, d.product_id) {
            let i = choose|i: int|
                0 <= i < s.devices@.len() && (#[trigger] s.devices@[i]).fits(name, d.vendor_id, d.product_id);
            assert(s.devices@[i].port_path@ == name);
        }
    }
}

/// A vendor's name in the database is that of the first entry with its id.
pub proof fn law_a_vendor_is_named_by_its_first_entry(v: Seq<VendorName>, vendor: u16, k: int)
    requires
        0 <= k <= v.len(),
        k < v.len() ==> v[k].vendor == vendor,
        forall|j: int| 0 <= j < k ==> (#[trigger] v[j]).vendor != vendor,
    ensures
        vendor_in(v, vendor) == (if k < v.len() {
            Some(v[k].name@)
        } else {
            None
        }),
    decreases v.len(),
{
    if k > 0 {
        assert(v[0].vendor != vendor);
        assert forall|j: int| 0 <= j < k - 1 implies (#[trigger] v.skip(1)[j]).vendor != vendor by {
            assert(v[j + 1].vendor != vendor);
        }
        law_a_vendor_is_named_by_its_first_entry(v.skip(1), vendor, k - 1);
    }
}

/// A product's name in the database is that of the first entry with its
/// vendor's id and its own.
pub proof fn law_a_product_is_named_by_its_first_entry(v: Seq<ProductName>, vendor: u16, product: u16, k: int)
    requires
        0 <= k <= v.len(),
        k < v.len() ==> v[k].vendor == vendor && v[k].product == product,
        forall|j: int| 0 <= j < k ==> (#[trigger] v[j]).vendor != vendor || v[j].product != product,
    ensures
        product_in(v, vendor, product) == (if k < v.len() {
            Some(v[k].name@)
        } else {
            None
        }),
    decreases v.len(),
{
    if k > 0 {
        assert(v[0].vendor != vendor || v[0].product != product);
        assert forall|j: int| 0 <= j < k - 1 implies (#[trigger] v.skip(1)[j]).vendor != vendor || v.skip(1)[j].product
            != product by {
            assert(v[j + 1].vendor != vendor || v[j + 1].product != product);
        }
        law_a_product_is_named_by_its_first_entry(v.skip(1), vendor, product, k - 1);
    }
}

proof fn lemma_kept_or_dropped(bus_id: u8, rows: Seq<UsbDevice>, now_ms: u64, l: int)
    requires
        0 <= l < rows.len(),
    ensures
        rows[l].is_stale(now_ms) ==> dropped_rows(bus_id, rows, now_ms).contains((bus_id, rows[l].device_id)),
        !rows[l].is_stale(now_ms) ==> kept_rows(rows, now_ms).contains(rows[l]),
    decreases rows.len(),
{
    let dropped = dropped_rows(bus_id, rows, now_ms);
    let kept = kept_rows(rows, now_ms);
    if l == rows.len() - 1 {
        if rows[l].is_stale(now_ms) {
            assert(dropped[dropped.len() - 1] == (bus_id, rows[l].device_id));
        } else {
            assert(kept[kept.len() - 1] == rows[l]);
        }
    } else {
        let front = rows.drop_last();
        assert(front[l] == rows[l]);
        lemma_kept_or_dropped(bus_id, front, now_ms, l);
        if rows[l].is_stale(now_ms) {
            let i = choose|i: int|
                0 <= i < dropped_rows(bus_id, front, now_ms).len() && dropped_rows(bus_id, front, now_ms)[i] == (
                    bus_id,
                    rows[l].device_id,
                );
            assert(dropped[i] == (bus_id, rows[l].device_id));
        } else {
            let i = choose|i: int|
                0 <= i < kept_rows(front, now_ms).len() && kept_rows(front, now_ms)[i] == rows[l];
            assert(kept[i] == rows[l]);
        }
    }
}

proof fn lemma_bus_among_ticked(
    before: Seq<UsbBus>,
    sysfs: Sysfs,
    ids: Option<UsbIds>,
    snapshot: Option<Snapshot>,
    now_ms: u64,
    after: Seq<UsbBus>,
    dropped: Seq<(u8, u8)>,
    k: int,
) -> (gone: Seq<(u8, u8)>)
    requires
        buses_ticked(before, sysfs, ids, snapshot, now_ms, after, dropped),
        0 <= k < before.len(),
    ensures
        after.len() == before.len(),
        bus_ticked(before[k], sysfs, ids, snapshot, now_ms, after[k], gone),
        forall|at: (u8, u8)| #[trigger] gone.contains(at) ==> dropped.contains(at),
    decreases before.len(),
{
    let (front, last) = choose|front: Seq<(u8, u8)>, last: Seq<(u8, u8)>|
        #![trigger front + last]
        dropped == front + last && buses_ticked(
            before.drop_last(),
            sysfs,
            ids,
            snapshot,
            now_ms,
            after.drop_last(),
            front,
        ) && bus_ticked(before.last(), sysfs, ids, snapshot, now_ms, after.last(), last);
    if k == before.len() - 1 {
        assert forall|at: (u8, u8)| #[trigger] last.contains(at) implies dropped.contains(at) by {
            let i = choose|i: int| 0 <= i < last.len() && last[i] == at;
            assert(dropped[front.len() + i] == at);
        }
        last
    } else {
        assert(before.drop_last()[k] == before[k]);
        let gone = lemma_bus_among_ticked(
            before.drop_last(),
            sysfs,
            ids,
            snapshot,
            now_ms,
            after.drop_last(),
            front,
            k,
        );
        assert(after.drop_last()[k] == after[k]);
        assert forall|at: (u8, u8)| #[trigger] gone.contains(at) implies dropped.contains(at) by {
            assert(front.contains(at));
            let i = choose|i: int| 0 <= i < front.len() && front[i] == at;
            assert(dropped[i] == at);
        }
        gone
    }
}

proof fn lemma_occupied_has(buses: Seq<UsbBus>, k: int) -> (i: int)
    requires
        0 <= k < buses.len(),
        buses[k].devices@.len() > 0,
    ensures
        0 <= i < occupied(buses).len(),
        occupied(buses)[i] == buses[k],
    decreases buses.len(),
{
    if k == buses.len() - 1 {
        occupied(buses).len() - 1
    } else {
        assert(buses.drop_last()[k] == buses[k]);
        lemma_occupied_has(buses.drop_last(), k)
    }
}

/// Whether some row of a bus called `bus_id` is `d`.
pub open spec fn has_row(buses: Seq<UsbBus>, bus_id: u8, d: UsbDevice) -> bool {
    exists|i: int, j: int|
        0 <= i < buses.len() && buses[i].bus_id == bus_id && 0 <= j < buses[i].devices@.len()
            && #[trigger] buses[i].devices@[j] == d
}

proof fn lemma_row_ticks(
    before: DeviceManager,
    sysfs: Sysfs,
    now_ms: u64,
    after: Seq<UsbBus>,
    dropped: Seq<(u8, u8)>,
    k: int,
    l: int,
) -> (row: UsbDevice)
    requires
        refreshed(before, sysfs, now_ms, after, dropped),
        0 <= k < before.buses@.len(),
        0 <= l < before.buses@[k].devices@.len(),
    ensures
        ticked(
            before.buses@[k].devices@[l],
            sysfs,
            before.usbids,
            before.internal_snapshot,
            now_ms,
            row,
        ),
        row.is_stale(now_ms) ==> dropped.contains((before.buses@[k].bus_id, row.device_id)),
        !row.is_stale(now_ms) ==> has_row(after, before.buses@[k].bus_id, row),
{
    let buses = before.buses@;
    let mid = choose|mid: Seq<UsbBus>| #[trigger]
        buses_ticked(buses, sysfs, before.usbids, before.internal_snapshot, now_ms, mid, dropped) && speeds_read(
            occupied(mid),
            sysfs,
            after,
        );
    let gone = lemma_bus_among_ticked(
        buses,
        sysfs,
        before.usbids,
        before.internal_snapshot,
        now_ms,
        mid,
        dropped,
        k,
    );
    let rows = choose|rows: Seq<UsbDevice>| #[trigger]
        rows_ticked(buses[k].devices@, sysfs, before.usbids, before.internal_snapshot, now_ms, rows)
            && mid[k].devices@ == kept_rows(rows, now_ms) && gone == dropped_rows(buses[k].bus_id, rows, now_ms);
    let row = rows[l];
    assert(ticked(buses[k].devices@[l], sysfs, before.usbids, before.internal_snapshot, now_ms, rows[l]));
    lemma_kept_or_dropped(buses[k].bus_id, rows, now_ms, l);
    if row.is_stale(now_ms) {
        assert(gone.contains((buses[k].bus_id, row.device_id)));
    } else {
        let kept = mid[k].devices@;
        let j = choose|j: int| 0 <= j < kept.len() && kept[j] == row;
        let i = lemma_occupied_has(mid, k);
        assert(super::manager::bus_speed_read(occupied(mid)[i], sysfs, after[i]));
        assert(after[i].devices@[j] == row);
    }
    row
}

/// A refresh drops a device that has been gone for six seconds.
pub proof fn law_a_long_gone_device_is_dropped(
    before: DeviceManager,
    sysfs: Sysfs,
    now_ms: u64,
    after: Seq<UsbBus>,
    dropped: Seq<(u8, u8)>,
    k: int,
    l: int,
)
    requires
        refreshed(before, sysfs, now_ms, after, dropped),
        0 <= k < before.buses@.len(),
        0 <= l < before.buses@[k].devices@.len(),
        before.buses@[k].devices@[l].is_disconnected,
        before.buses@[k].devices@[l].disconnect_time matches Some(t) && now_ms >= t + 6000,
    ensures
        dropped.contains((before.buses@[k].bus_id, before.buses@[k].devices@[l].device_id)),
{
    let row = lemma_row_ticks(before, sysfs, now_ms, after, dropped, k, l);
}

/// A refresh keeps the row of a present device whose directory is there: its
/// totals, its ids and its presence stay. A present device whose directory is
/// gone keeps its row and its totals, and is gone from now on.
pub proof fn law_a_refresh_follows_the_device_directory(
    before: DeviceManager,
    sysfs: Sysfs,
    now_ms: u64,
    after: Seq<UsbBus>,
    dropped: Seq<(u8, u8)>,
    k: int,
    l: int,
) -> (row: UsbDevice)
    requires
        refreshed(before, sysfs, now_ms, after, dropped),
        0 <= k < before.buses@.len(),
        0 <= l < before.buses@[k].devices@.len(),
        !before.buses@[k].devices@[l].is_disconnected,
        before.buses@[k].devices@[l].disconnect_time is None,
        before.buses@[k].devices@[l].sysfs_path is Some,
    ensures
        has_row(after, before.buses@[k].bus_id, row),
        ({
            let d = before.buses@[k].devices@[l];
            let there = sysfs.holds(d.sysfs_path->0@);
            &&& row.device_id == d.device_id && row.bus_id == d.bus_id && row.vendor_id == d.vendor_id
                && row.product_id == d.product_id && row.speed == d.speed && row.sysfs_path == d.sysfs_path
            &&& row.bandwidth_stats.total_rx_bytes == d.bandwidth_stats.total_rx_bytes
            &&& row.bandwidth_stats.total_tx_bytes == d.bandwidth_stats.total_tx_bytes
            &&& row.is_disconnected <==> !there
            &&& row.disconnect_time == (if there {
                None
            } else {
                Some(now_ms)
            })
        }),
{
    lemma_row_ticks(before, sysfs, now_ms, after, dropped, k, l)
}

/// What a device's files say of it is what its row knows once they were read:
/// the ids and the speed as the files write them, and the texts without the
/// blanks around them. A file that is not there leaves what was known.
pub proof fn law_a_device_is_what_its_files_say(before: UsbDevice, entries: Seq<Node>, after: UsbDevice, id: u16)
    requires
        metadata_read(before, entries, after),
    ensures
        text_named(entries, "idVendor"@) == Some(hex4(id as nat)) ==> after.vendor_id == Some(id),
        text_named(entries, "idProduct"@) == Some(hex4(id as nat)) ==> after.product_id == Some(id),
        text_named(entries, "idVendor"@) is None ==> after.vendor_id == before.vendor_id,
        text_named(entries, "idProduct"@) is None ==> after.product_id == before.product_id,
        text_named(entries, "speed"@) matches Some(t) ==> after.speed.bps == stated_rate(trimmed(t)),
        text_named(entries, "speed"@) is None ==> after.speed == before.speed,
        text_named(entries, "manufacturer"@) matches Some(t) ==> text_of(after.vendor) == Some(trimmed(t)),
        text_named(entries, "product"@) matches Some(t) ==> text_of(after.product) == Some(trimmed(t)),
        text_named(entries, "serial"@) matches Some(t) ==> text_of(after.serial) == Some(trimmed(t)),
        after.bus_id == before.bus_id && after.device_id == before.device_id,
        after.bandwidth_stats == before.bandwidth_stats,
        after.endpoints == before.endpoints,
        after.is_disconnected == before.is_disconnected,
        after.sysfs_path == before.sysfs_path,
{
    lemma_hex4_round_trip(id as nat);
    lemma_hex4_is_trimmed(id as nat);
}

proof fn lemma_hex4_is_trimmed(n: nat)
    requires
        n < 65536,
    ensures
        trimmed(hex4(n)) == hex4(n),
{
    lemma_hex4_round_trip(n);
    let s = hex4(n);
    assert('0' <= s[0] <= '9' || 'a' <= s[0] <= 'f');
    assert('0' <= s[3] <= '9' || 'a' <= s[3] <= 'f');
    crate::text::lemma_leading_blanks_is(s, false, 0);
    assert(s.skip(0) =~= s);
    crate::text::lemma_trailing_blanks_is(s, false, 0);
    assert(s.take(4) =~= s);
}

/// Names from the database take the place of what the device said of itself,
/// where its ids are listed, and nothing else changes.
pub proof fn law_listed_names_take_the_place_of_reported_ones(before: UsbDevice, db: UsbIds, after: UsbDevice)
    requires
        names_overlaid(before, db, after),
    ensures
        before.vendor_id is Some && vendor_in(db.vendors@, before.vendor_id->0) is Some ==> text_of(after.vendor)
            == vendor_in(db.vendors@, before.vendor_id->0),
        before.vendor_id is None || vendor_in(db.vendors@, before.vendor_id->0) is None ==> text_of(after.vendor)
            == text_of(before.vendor),
        before.vendor_id is Some && before.product_id is Some && product_in(
            db.products@,
            before.vendor_id->0,
            before.product_id->0,
        ) is Some ==> text_of(after.product) == product_in(db.products@, before.vendor_id->0, before.product_id->0),
        before.vendor_id is None || before.product_id is None || product_in(
            db.products@,
            before.vendor_id->0,
            before.product_id->0,
        ) is None ==> text_of(after.product) == text_of(before.product),
        after.vendor_id == before.vendor_id && after.product_id == before.product_id && after.serial == before.serial
            && after.bandwidth_stats == before.bandwidth_stats,
{
}

/// A directory is a device's when it is no interface's and its `busnum` and
/// `devnum` write the device's numbers; the first such one is the device's.
pub proof fn law_a_directory_is_a_devices_by_its_numbers(
    entries: Seq<Node>,
    bus_id: u8,
    device_id: u8,
    k: int,
)
    requires
        0 <= k < entries.len(),
        !entries[k].name@.contains(':'),
        text_named(entries[k].children(), "busnum"@) == Some(decimal(bus_id as nat)),
        text_named(entries[k].children(), "devnum"@) == Some(decimal(device_id as nat)),
        forall|j: int| 0 <= j < k ==> !is_entry_of(#[trigger] entries[j], bus_id, device_id),
    ensures
        first_entry_of(entries, bus_id, device_id) == Some(entries[k]),
    decreases entries.len(),
{
    lemma_decimal_round_trip(bus_id as nat);
    lemma_decimal_round_trip(device_id as nat);
    lemma_decimal_is_trimmed(bus_id as nat);
    lemma_decimal_is_trimmed(device_id as nat);
    assert(is_entry_of(entries[k], bus_id, device_id));
    if k > 0 {
        assert(!is_entry_of(entries[0], bus_id, device_id));
        assert forall|j: int| 0 <= j < k - 1 implies !is_entry_of(
            #[trigger] entries.skip(1)[j],
            bus_id,
            device_id,
        ) by {
            assert(entries.skip(1)[j] == entries[j + 1]);
        }
        assert(entries.skip(1)[k - 1] == entries[k]);
        law_a_directory_is_a_devices_by_its_numbers(entries.skip(1), bus_id, device_id, k - 1);
    }
}

proof fn lemma_decimal_is_trimmed(n: nat)
    ensures
        trimmed(decimal(n)) == decimal(n),
{
    lemma_decimal_round_trip(n);
    let s = decimal(n);
    assert('0' <= s[0] <= '9');
    assert('0' <= s[s.len() - 1] <= '9');
    crate::text::lemma_leading_blanks_is(s, false, 0);
    assert(s.skip(0) =~= s);
    crate::text::lemma_trailing_blanks_is(s, false, 0);
    assert(s.take(s.len() as int) =~= s);
}

/// A scan keeps every row there is and gives each device directory without
/// one a row of its own, with no traffic on it; a device that is in neither
/// place gets none.
pub proof fn law_a_scan_adds_the_devices_that_have_no_row(
    before: DeviceManager,
    sysfs: Sysfs,
    now_ms: u64,
    after: DeviceManager,
    b: u8,
    d: u8,
)
    requires
        scanned(before, sysfs, now_ms, after),
    ensures
        row_in(before.buses@, b, d) is Some ==> row_in(after.buses@, b, d) == row_in(before.buses@, b, d),
        row_in(before.buses@, b, d) is None ==> (row_in(after.buses@, b, d) is Some <==> first_entry_of(
            sysfs.entries@,
            b,
            d,
        ) is Some),
        row_in(before.buses@, b, d) is None && row_in(after.buses@, b, d) is Some ==> {
            let made = row_in(after.buses@, b, d)->0;
            &&& made.bus_id == b && made.device_id == d
            &&& made.bandwidth_stats.total_rx_bytes == 0 && made.bandwidth_stats.total_tx_bytes == 0
            &&& made.bandwidth_stats.current_bps == 0
            &&& made.endpoints@.len() == 0
            &&& !made.is_disconnected
            &&& made.is_internal == belongs(made, before.internal_snapshot)
        },
{
    assert(after.row(b, d) == row_in(after.buses@, b, d));
    assert(before.row(b, d) == row_in(before.buses@, b, d));
    assert(enumerated(before, sysfs, sysfs.entries@, now_ms, b, d, after.row(b, d)));
    if before.row(b, d) is None && after.row(b, d) is Some {
        let made = after.row(b, d)->0;
        let entry = first_entry_of(sysfs.entries@, b, d)->0;
        assert(discovered(b, d, now_ms, sysfs, entry, before.usbids, before.internal_snapshot, made));
        let (x, y) = choose|x: UsbDevice, y: UsbDevice| #[trigger]
            is_unknown(x, b, d, now_ms) && #[trigger] directory_read(x, sysfs, entry, y) && dressed(
                y,
                before.usbids,
                before.internal_snapshot,
                made,
            );
        let mid = choose|mid: UsbDevice| #[trigger]
            placed(x, sysfs.path_of(entry.name@), mid) && metadata_read(mid, entry.children(), y);
        let named = choose|named: UsbDevice| #[trigger]
            names_applied(y, before.usbids, named) && made == stamped(named, before.internal_snapshot);
        assert(made.bandwidth_stats == x.bandwidth_stats);
        assert(made.endpoints == x.endpoints);
        assert(belongs(made, before.internal_snapshot) == belongs(named, before.internal_snapshot));
    }
}

/// A bus runs at the speed that its root hub states, and without one at that
/// of its fastest device; a controller that is known stays.
pub proof fn law_a_bus_runs_at_its_root_hubs_speed(before: UsbBus, sysfs: Sysfs, after: UsbBus)
    requires
        bus_speed_read(before, sysfs, after),
    ensures
        entry_named(sysfs.entries@, "usb"@ + decimal(before.bus_id as nat)) matches Some(hub) ==> (text_named(
            hub.children(),
            "speed"@,
        ) matches Some(t) ==> after.speed.bps == stated_rate(trimmed(t))),
        entry_named(sysfs.entries@, "usb"@ + decimal(before.bus_id as nat)) is None ==> after.speed == fastest(
            before.devices@,
        ),
        before.controller is Some ==> after.controller == before.controller,
        after.bus_id == before.bus_id && after.devices == before.devices,
{
}

/// Rates are taken over ten seconds.
pub proof fn law_rates_are_taken_over_ten_seconds(d: UsbDevice)
    requires
        one_window(d),
    ensures
        d.bandwidth_stats.window.window_ms == 10_000,
{
}

/// Traffic counts on a known row exactly when there is some and the filter
/// wants it, in its own direction, whatever reports it.
pub proof fn law_a_delta_counts_once_in_its_direction(
    before: DeviceManager,
    delta: TrafficDelta,
    sysfs: Sysfs,
    now_ms: u64,
    d: UsbDevice,
    after: UsbDevice,
)
    requires
        before.row(delta.bus_id, delta.device_id) == Some(d),
        delta_applied(before, delta, sysfs, now_ms, after),
    ensures
        ({
            let counts = delta.bytes > 0 && set_wants_traffic(
                before.filter@,
                d.seen(now_ms),
                delta.endpoint,
                delta.dir_in,
                delta.transfer_type,
            );
            let then = d.bandwidth_stats;
            let now = after.bandwidth_stats;
            &&& counts && delta.dir_in ==> is_capped_sum(now.total_rx_bytes, then.total_rx_bytes, delta.bytes)
                && now.total_tx_bytes == then.total_tx_bytes
            &&& counts && !delta.dir_in ==> is_capped_sum(now.total_tx_bytes, then.total_tx_bytes, delta.bytes)
                && now.total_rx_bytes == then.total_rx_bytes
            &&& !counts ==> now == then && after.endpoints == d.endpoints
            &&& after.last_seen == now_ms && !after.is_disconnected
            &&& after.device_id == d.device_id && after.vendor_id == d.vendor_id && after.product_id == d.product_id
        }),
{
}

/// The first traffic of a device that had no row counts on the row that is
/// made for it: what it brings, in its direction, or nothing where the filter
/// does not want it.
pub proof fn law_a_new_row_counts_its_first_traffic(
    before: DeviceManager,
    delta: TrafficDelta,
    sysfs: Sysfs,
    now_ms: u64,
    after: UsbDevice,
)
    requires
        before.row(delta.bus_id, delta.device_id) is None,
        delta_applied(before, delta, sysfs, now_ms, after),
    ensures
        after.bus_id == delta.bus_id && after.device_id == delta.device_id,
        after.last_seen == now_ms && !after.is_disconnected,
        ({
            let rx = after.bandwidth_stats.total_rx_bytes;
            let tx = after.bandwidth_stats.total_tx_bytes;
            ||| rx == 0 && tx == 0 && after.endpoints@.len() == 0
            ||| delta.dir_in && rx == delta.bytes && tx == 0
            ||| !delta.dir_in && rx == 0 && tx == delta.bytes
        }),
        before.filter@.len() == 0 && delta.bytes > 0 ==> after.bandwidth_stats.total_rx_bytes
            + after.bandwidth_stats.total_tx_bytes == delta.bytes,
{
    let mid = choose|mid: UsbDevice| #[trigger]
        touched(
            None,
            delta.bus_id,
            delta.device_id,
            now_ms,
            sysfs,
            before.usbids,
            before.internal_snapshot,
            mid,
        ) && accounted(mid, before.filter, delta, now_ms, after);
    let made = choose|made: UsbDevice| #[trigger]
        introduced(delta.bus_id, delta.device_id, now_ms, sysfs, before.usbids, before.internal_snapshot, made) && mid
            == made.seen(now_ms);
    let (x, y) = choose|x: UsbDevice, y: UsbDevice| #[trigger]
        is_unknown(x, delta.bus_id, delta.device_id, now_ms) && #[trigger] sysfs_read(x, sysfs, y) && dressed(
            y,
            before.usbids,
            before.internal_snapshot,
            made,
        );
    if let Some(entry) = first_entry_of(sysfs.entries@, x.bus_id, x.device_id) {
        let z = choose|z: UsbDevice| #[trigger]
            placed(x, sysfs.path_of(entry.name@), z) && metadata_read(z, entry.children(), y);
        assert(y.bandwidth_stats == x.bandwidth_stats);
        assert(y.endpoints == x.endpoints);
    }
    let named = choose|named: UsbDevice| #[trigger]
        names_applied(y, before.usbids, named) && made == stamped(named, before.internal_snapshot);
    assert(mid.bandwidth_stats == x.bandwidth_stats);
    assert(mid.endpoints == x.endpoints);
}

/// How busy a bus is, in hundredths of a percent, is the whole number at or
/// below what its devices use over what it practically carries, and never more
/// than all of it; nothing is said of a bus of unknown speed.
pub proof fn law_a_bus_is_as_busy_as_its_devices(speed: UsbSpeed, devices: Seq<UsbDevice>)
    ensures
        ({
            let max = practical_bytes(speed.bps as nat);
            &&& bus_busy(speed, devices) is None <==> max == 0
            &&& bus_busy(speed, devices) matches Some(share) ==> {
                &&& share <= 10_000
                &&& share * max <= usage(devices) * 10_000
                &&& share < 10_000 ==> usage(devices) * 10_000 < (share + 1) * max
            }
        }),
{
    let max = practical_bytes(speed.bps as nat);
    let n = usage(devices) as int * 10_000;
    if max > 0 {
        let q = n / (max as int);
        assert(q * max <= n < (q + 1) * max) by (nonlinear_arith)
            requires
                q == n / (max as int),
                max > 0,
        ;
        if q > 10_000 {
            assert(10_000 * max <= q * max) by (nonlinear_arith)
                requires
                    q > 10_000,
                    max > 0,
            ;
        }
    }
}

/// Loading a snapshot marks every row by it, and changes nothing else of any.
pub proof fn law_a_snapshot_marks_every_row(
    before: Seq<UsbBus>,
    snapshot: Option<Snapshot>,
    after: Seq<UsbBus>,
    i: int,
    j: int,
)
    requires
        buses_stamped(before, snapshot, after),
        0 <= i < before.len(),
        0 <= j < before[i].devices@.len(),
    ensures
        after.len() == before.len(),
        after[i].devices@.len() == before[i].devices@.len(),
        after[i].bus_id == before[i].bus_id,
        after[i].devices@[j].is_internal == belongs(before[i].devices@[j], snapshot),
        after[i].devices@[j] == (UsbDevice { is_internal: after[i].devices@[j].is_internal, ..before[i].devices@[j] }),
{
    assert(bus_stamped(before[i], snapshot, after[i]));
}

} // verus!
